//! What holds of the layer across operations: visibility of committed and
//! concurrent writes, reads as of a past version, and rollback.
use vstd::prelude::*;
use crate::encoding::{lemma_versions_round_trip, parse_value, versions_bytes};
use crate::keycode::{
    encode_key, encode_prefix, lemma_encode_key_injective, lemma_encode_key_tag,
    lemma_lex_first_diff, lemma_version_key_order, lemma_version_prefix, version_key, KeyPrefixView, KeyView,
};
use crate::memory::{above_start, below_end, Bound};
use crate::mvcc::{
    active_set, begun_store, latest_visible, next_version, read_value, rollback_keys,
    scan_end_admits, scan_prefix_admits, scan_start_admits, snapshot_of, written_store,
    TransactionState,
};
use crate::order::{lemma_lex_asymmetric, lemma_lex_irreflexive, lemma_lex_total};

verus! {

/// A transaction that began after the read-write transaction at `v`
/// committed sees its latest writes: where no newer version of `k` is visible
/// to it, it reads what `v` wrote, and nothing where `v` wrote a tombstone.
pub proof fn lemma_committed_writes_visible(
    m: Map<Seq<u8>, Seq<u8>>,
    st: TransactionState,
    k: Seq<u8>,
    v: u64,
)
    requires
        !st.active@.contains(v),
        v < st.version,
        m.contains_key(version_key(k, v)),
        forall|w: u64| #[trigger] m.contains_key(version_key(k, w)) && w > v ==> !st.visible(w),
    ensures
        st.visible(v),
        read_value(m, st, k) == parse_value(m[version_key(k, v)])->0,
{
    assert(latest_visible(m, st, k, v));
    let c = choose|c: u64| latest_visible(m, st, k, c);
    assert(c <= v && v <= c);
}

/// A transaction begun once the transaction at `v` has committed does not
/// count `v` as active and runs at a later version.
pub proof fn lemma_begin_after_commit(m: Map<Seq<u8>, Seq<u8>>, st: TransactionState, v: u64)
    requires
        st.active@.to_set() == active_set(m),
        st.version == next_version(m),
        !m.contains_key(encode_key(KeyView::TxnActive(v))),
        v < next_version(m),
    ensures
        !st.active@.contains(v),
        v < st.version,
{
    assert(!active_set(m).contains(v));
    assert(!st.active@.to_set().contains(v));
}

/// A transaction never sees the writes of a transaction that was active when
/// it began or that began after it: what it reads comes from another version.
pub proof fn lemma_concurrent_writes_invisible(
    m: Map<Seq<u8>, Seq<u8>>,
    st: TransactionState,
    k: Seq<u8>,
    other: u64,
)
    requires
        st.active@.contains(other) || other > st.version,
    ensures
        !st.visible(other),
        forall|v: u64| latest_visible(m, st, k, v) ==> v != other,
{
}

/// Reading as of version `v` sees what the read-write transaction at `v` saw
/// when it began: the same versions but its own, at which nothing was written
/// yet.
pub proof fn lemma_as_of_sees_begin_snapshot(
    m: Map<Seq<u8>, Seq<u8>>,
    rw: TransactionState,
    ro: TransactionState,
)
    requires
        !rw.read_only,
        rw.active@.len() <= u64::MAX,
        !m.contains_key(encode_key(KeyView::TxnActiveSnapshot(rw.version))),
        ro.read_only,
        ro.version == rw.version,
        ro.active@ == snapshot_of(begun_store(m, rw.version, rw.active@), rw.version),
    ensures
        forall|w: u64| w != rw.version ==> ro.visible(w) == rw.visible(w),
        !ro.visible(rw.version),
{
    let v = rw.version;
    let a = rw.active@;
    let snap = encode_key(KeyView::TxnActiveSnapshot(v));
    let act = encode_key(KeyView::TxnActive(v));
    let nv = encode_key(KeyView::NextVersion);
    lemma_encode_key_tag(KeyView::TxnActiveSnapshot(v));
    lemma_encode_key_tag(KeyView::TxnActive(v));
    lemma_encode_key_tag(KeyView::NextVersion);
    assert(snap != act && snap != nv);
    let b = begun_store(m, v, a);
    if a.len() > 0 {
        lemma_versions_round_trip(a, Seq::empty());
        assert(versions_bytes(a) + Seq::<u8>::empty() =~= versions_bytes(a));
        assert(b[snap] == versions_bytes(a));
        assert(ro.active@ == a);
    } else {
        assert(!b.contains_key(snap));
        assert(ro.active@ =~= a);
    }
}

/// Every version at `v` in the store has its write-log entry.
pub open spec fn writes_logged(m: Map<Seq<u8>, Seq<u8>>, v: u64) -> bool {
    forall|k: Seq<u8>| #[trigger]
        m.contains_key(version_key(k, v)) ==> m.contains_key(encode_key(KeyView::TxnWrite(v, k)))
}

/// A write logs itself together with the version it stores, so every version
/// keeps its write-log entry.
pub proof fn lemma_write_keeps_log(
    m: Map<Seq<u8>, Seq<u8>>,
    st: TransactionState,
    k: Seq<u8>,
    value: Option<Seq<u8>>,
    v: u64,
)
    requires
        writes_logged(m, v),
    ensures
        writes_logged(written_store(m, st, k, value), v),
{
    let m2 = written_store(m, st, k, value);
    let tw = encode_key(KeyView::TxnWrite(st.version, k));
    assert forall|k2: Seq<u8>| #[trigger] m2.contains_key(version_key(k2, v)) implies m2.contains_key(
        encode_key(KeyView::TxnWrite(v, k2)),
    ) by {
        if version_key(k2, v) == version_key(k, st.version) {
            lemma_encode_key_injective(KeyView::Version(k2, v), KeyView::Version(k, st.version));
        } else if version_key(k2, v) == tw {
            lemma_encode_key_tag(KeyView::Version(k2, v));
            lemma_encode_key_tag(KeyView::TxnWrite(st.version, k));
        }
    }
}

/// Rolling back the transaction at `v` leaves no version it wrote, no entry
/// of its write log and no active marker, and keeps its snapshot; it relies
/// on every version at `v` having its write-log entry.
pub proof fn lemma_rollback_clears(m: Map<Seq<u8>, Seq<u8>>, v: u64)
    requires
        writes_logged(m, v),
    ensures
        forall|k: Seq<u8>|
            !(#[trigger] m.remove_keys(rollback_keys(m, v)).contains_key(version_key(k, v))),
        forall|k: Seq<u8>|
            !(#[trigger] m.remove_keys(rollback_keys(m, v)).contains_key(
                encode_key(KeyView::TxnWrite(v, k)),
            )),
        !m.remove_keys(rollback_keys(m, v)).contains_key(encode_key(KeyView::TxnActive(v))),
        m.remove_keys(rollback_keys(m, v)).contains_key(encode_key(KeyView::TxnActiveSnapshot(v)))
            == m.contains_key(encode_key(KeyView::TxnActiveSnapshot(v))),
        m.contains_key(encode_key(KeyView::TxnActiveSnapshot(v))) ==> m.remove_keys(
            rollback_keys(m, v),
        )[encode_key(KeyView::TxnActiveSnapshot(v))] == m[encode_key(
            KeyView::TxnActiveSnapshot(v),
        )],
{
    let keys = rollback_keys(m, v);
    let snap = encode_key(KeyView::TxnActiveSnapshot(v));
    assert forall|k: Seq<u8>| !(#[trigger] m.remove_keys(keys).contains_key(version_key(k, v))) by {
        if m.contains_key(version_key(k, v)) {
            assert(keys.contains(version_key(k, v)));
        }
    }
    assert forall|k: Seq<u8>| !(#[trigger] m.remove_keys(keys).contains_key(
        encode_key(KeyView::TxnWrite(v, k)),
    )) by {
        if m.contains_key(encode_key(KeyView::TxnWrite(v, k))) {
            assert(keys.contains(encode_key(KeyView::TxnWrite(v, k))));
        }
    }
    lemma_encode_key_tag(KeyView::TxnActiveSnapshot(v));
    lemma_encode_key_tag(KeyView::TxnActive(v));
    if keys.contains(snap) {
        let k = choose|k: Seq<u8>| #[trigger]
            m.contains_key(encode_key(KeyView::TxnWrite(v, k))) && (snap == encode_key(
                KeyView::TxnWrite(v, k),
            ) || snap == version_key(k, v));
        lemma_encode_key_tag(KeyView::TxnWrite(v, k));
        lemma_encode_key_tag(KeyView::Version(k, v));
    }
}

/// A scan between user-key bounds covers the versioned keys whose user key
/// lies between the bounds, at every version.
pub proof fn lemma_scan_covers_user_range(start: Bound, end: Bound, k: Seq<u8>, v: u64)
    ensures
        scan_start_admits(start, version_key(k, v)) == above_start(start, k),
        scan_end_admits(end, version_key(k, v)) == below_end(end, k),
{
    let e = version_key(k, v);
    lemma_lex_irreflexive(e);
    match start {
        Bound::Included(s) => {
            lemma_lex_total(s@, k);
            lemma_version_key_order(s@, 0, k, v);
            lemma_version_key_order(k, v, s@, 0);
            lemma_lex_asymmetric(e, version_key(s@, 0));
        },
        Bound::Excluded(s) => {
            lemma_lex_total(s@, k);
            lemma_version_key_order(s@, u64::MAX, k, v);
            lemma_version_key_order(k, v, s@, u64::MAX);
            lemma_lex_asymmetric(e, version_key(s@, u64::MAX));
        },
        Bound::Unbounded => {
            let z = Seq::<u8>::empty();
            lemma_lex_total(z, k);
            lemma_version_key_order(z, 0, k, v);
        },
    }
    match end {
        Bound::Included(s) => {
            lemma_lex_total(s@, k);
            lemma_version_key_order(s@, u64::MAX, k, v);
            lemma_version_key_order(k, v, s@, u64::MAX);
            lemma_lex_asymmetric(e, version_key(s@, u64::MAX));
        },
        Bound::Excluded(s) => {
            lemma_lex_total(s@, k);
            lemma_version_key_order(s@, 0, k, v);
            lemma_version_key_order(k, v, s@, 0);
            lemma_lex_asymmetric(e, version_key(s@, 0));
        },
        Bound::Unbounded => {
            let u = encode_prefix(KeyPrefixView::Unversioned);
            lemma_encode_key_tag(KeyView::Version(k, v));
            assert(e.take(0) =~= u.take(0));
            lemma_lex_first_diff(e, u, 0);
        },
    }
}

/// A prefix scan covers the versioned keys whose user key starts with the
/// prefix, at every version, and nothing else.
pub proof fn lemma_scan_prefix_covers(p: Seq<u8>, x: KeyView)
    ensures
        scan_prefix_admits(p, encode_key(x)) == (x matches KeyView::Version(k, _) && p.is_prefix_of(k)),
{
    lemma_version_prefix(p, x);
}

} // verus!
