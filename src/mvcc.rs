//! Multi-version concurrency control with snapshot isolation.
//!
//! Every write of a read-write transaction is stored as a new version of its
//! key, at the transaction's version; deletes store a tombstone. A transaction
//! reads the latest version of each key that its snapshot admits: versions up
//! to its own, minus those of the transactions that were active when it began.
//! Committing removes the transaction's active marker, which makes its writes
//! visible to every transaction that begins afterwards. Rolling back removes
//! its versions, found through the write log it keeps.
use vstd::prelude::*;
use crate::encoding::{
    decode_u64, decode_value, decode_versions, encode_u64, encode_value, encode_versions,
    lemma_u64_bytes, lemma_value_round_trip, lemma_versions_round_trip, opt_view, parse_u64,
    parse_value, parse_versions, u64_bytes, value_bytes, versions_bytes,
};
use crate::error::Error;
use crate::keycode::{
    encode_key, encode_prefix, escape, lemma_encode_key_injective, lemma_encode_key_tag,
    lemma_prefix_encoding, lemma_txn_write_prefix, lemma_version_family, lemma_version_key_order,
    lemma_version_range, version_key, Key, KeyPrefix, KeyPrefixView, KeyView, TAG_TXN_ACTIVE,
    TAG_UNVERSIONED, TAG_VERSION,
};
use crate::memory::{
    above_start, below_end, index_of, lemma_entries_map_at, lemma_sorted_index,
    lemma_sorted_position, Bound, Memory,
};
use crate::order::{lex_le, lex_lt};
use crate::scan::{entry_item, Scan};
use vstd::slice::slice_to_vec;

verus! {

/// A decimal digit.
pub open spec fn digit(d: nat) -> char {
    if d == 0 {
        '0'
    } else if d == 1 {
        '1'
    } else if d == 2 {
        '2'
    } else if d == 3 {
        '3'
    } else if d == 4 {
        '4'
    } else if d == 5 {
        '5'
    } else if d == 6 {
        '6'
    } else if d == 7 {
        '7'
    } else if d == 8 {
        '8'
    } else {
        '9'
    }
}

/// A number in decimal, without leading zeros.
pub open spec fn decimal(n: nat) -> Seq<char>
    decreases n,
{
    if n < 10 {
        seq![digit(n)]
    } else {
        decimal(n / 10).push(digit(n % 10))
    }
}

/// Relies on `format!` and the `Display` of `u64`, which writes it in decimal.
#[verifier::external_body]
fn missing_version_message(v: u64) -> (r: String)
    ensures
        r@ == "Version "@ + decimal(v as nat) + " does not exist"@,
{
    format!("Version {} does not exist", v)
}

/// Relies on `format!` and the `Display` of `u64`, which writes it in decimal.
#[verifier::external_body]
fn inactive_message(v: u64) -> (r: String)
    ensures
        r@ == "No active transaction at version "@ + decimal(v as nat),
{
    format!("No active transaction at version {}", v)
}

/// The key that `b` encodes, if any.
pub open spec fn decode_key(b: Seq<u8>) -> Option<KeyView> {
    if exists|k: KeyView| encode_key(k) == b {
        Some(choose|k: KeyView| encode_key(k) == b)
    } else {
        None
    }
}

/// A stored value of the right form for its key.
pub open spec fn value_ok(k: KeyView, v: Seq<u8>) -> bool {
    match k {
        KeyView::NextVersion => parse_u64(v) is Some,
        KeyView::TxnActiveSnapshot(_) => parse_versions(v) is Some,
        KeyView::Version(_, _) => parse_value(v) is Some,
        _ => true,
    }
}

/// Every key of the store encodes a key of the layer and holds a value of the
/// right form. The layer's own writes keep this.
pub open spec fn store_wf(m: Map<Seq<u8>, Seq<u8>>) -> bool {
    forall|b: Seq<u8>| #[trigger]
        m.contains_key(b) ==> (decode_key(b) matches Some(k) && value_ok(k, m[b]))
}

/// The version that the next read-write transaction gets.
pub open spec fn next_version(m: Map<Seq<u8>, Seq<u8>>) -> u64 {
    let k = encode_key(KeyView::NextVersion);
    if m.contains_key(k) {
        parse_u64(m[k])->0
    } else {
        1
    }
}

/// The versions of the read-write transactions that are active.
pub open spec fn active_set(m: Map<Seq<u8>, Seq<u8>>) -> Set<u64> {
    Set::new(|v: u64| m.contains_key(encode_key(KeyView::TxnActive(v))))
}

/// The versions that were active when the transaction at `v` began.
pub open spec fn snapshot_of(m: Map<Seq<u8>, Seq<u8>>, v: u64) -> Seq<u64> {
    let k = encode_key(KeyView::TxnActiveSnapshot(v));
    if m.contains_key(k) {
        parse_versions(m[k])->0
    } else {
        Seq::empty()
    }
}

pub proof fn lemma_decode_key(k: KeyView)
    ensures
        decode_key(encode_key(k)) == Some(k),
{
    let b = encode_key(k);
    let c = choose|c: KeyView| encode_key(c) == b;
    lemma_encode_key_injective(c, k);
}

pub proof fn lemma_store_wf_insert(m: Map<Seq<u8>, Seq<u8>>, k: KeyView, v: Seq<u8>)
    requires
        store_wf(m),
        value_ok(k, v),
    ensures
        store_wf(m.insert(encode_key(k), v)),
{
    lemma_decode_key(k);
}

/// What `begin` leaves in the store: the next version advanced, the active set
/// kept as the new version's snapshot if it is not empty, and the new version
/// marked active.
pub open spec fn begun_store(m: Map<Seq<u8>, Seq<u8>>, v: u64, active: Seq<u64>) -> Map<
    Seq<u8>,
    Seq<u8>,
> {
    let m1 = m.insert(encode_key(KeyView::NextVersion), u64_bytes((v + 1) as u64));
    let m2 = if active.len() > 0 {
        m1.insert(encode_key(KeyView::TxnActiveSnapshot(v)), versions_bytes(active))
    } else {
        m1
    };
    m2.insert(encode_key(KeyView::TxnActive(v)), Seq::empty())
}

/// `v` is the latest version of `k` that `st` sees.
pub open spec fn latest_visible(
    m: Map<Seq<u8>, Seq<u8>>,
    st: TransactionState,
    k: Seq<u8>,
    v: u64,
) -> bool {
    &&& m.contains_key(version_key(k, v))
    &&& st.visible(v)
    &&& forall|w: u64| #[trigger]
        m.contains_key(version_key(k, w)) && st.visible(w) ==> w <= v
}

/// What `st` reads for `k`: the value at the latest version it sees, `None`
/// for a tombstone or where it sees none.
pub open spec fn read_value(m: Map<Seq<u8>, Seq<u8>>, st: TransactionState, k: Seq<u8>) -> Option<
    Seq<u8>,
> {
    if exists|v: u64| latest_visible(m, st, k, v) {
        parse_value(m[version_key(k, choose|v: u64| latest_visible(m, st, k, v))])->0
    } else {
        None
    }
}

/// `v` is the latest version of `k` in the store.
pub open spec fn latest_version(m: Map<Seq<u8>, Seq<u8>>, k: Seq<u8>, v: u64) -> bool {
    &&& m.contains_key(version_key(k, v))
    &&& forall|w: u64| #[trigger] m.contains_key(version_key(k, w)) ==> w <= v
}

/// A write of `k` by `st` conflicts: the latest version of `k` is one that
/// `st` does not see, newer than it or of a transaction active when it began.
pub open spec fn write_conflict(m: Map<Seq<u8>, Seq<u8>>, st: TransactionState, k: Seq<u8>) -> bool {
    exists|v: u64| latest_version(m, k, v) && !st.visible(v)
}

/// The store after `st` writes `value` (`None` for a delete) to `k`: the
/// write is logged for rollback and the version stored.
pub open spec fn written_store(
    m: Map<Seq<u8>, Seq<u8>>,
    st: TransactionState,
    k: Seq<u8>,
    value: Option<Seq<u8>>,
) -> Map<Seq<u8>, Seq<u8>> {
    m.insert(encode_key(KeyView::TxnWrite(st.version, k)), Seq::empty()).insert(
        version_key(k, st.version),
        value_bytes(value),
    )
}

/// The user key of a write-log entry.
pub open spec fn logged_key(b: Seq<u8>) -> Seq<u8> {
    match decode_key(b) {
        Some(KeyView::TxnWrite(_, k)) => k,
        _ => Seq::empty(),
    }
}

/// What rolling back the transaction at `v` removes: each key in its write
/// log, the version it wrote there, and its active marker.
pub open spec fn rollback_keys(m: Map<Seq<u8>, Seq<u8>>, v: u64) -> Set<Seq<u8>> {
    Set::new(
        |b: Seq<u8>|
            b == encode_key(KeyView::TxnActive(v)) || exists|k: Seq<u8>| #[trigger]
                m.contains_key(encode_key(KeyView::TxnWrite(v, k))) && (b == encode_key(
                    KeyView::TxnWrite(v, k),
                ) || b == version_key(k, v)),
    )
}

/// The engine keys that a scan from the user-key bound `start` covers: a
/// bound key's versions are all in or all out.
pub open spec fn scan_start_admits(start: Bound, b: Seq<u8>) -> bool {
    match start {
        Bound::Included(k) => lex_le(version_key(k@, 0), b),
        Bound::Excluded(k) => lex_lt(version_key(k@, u64::MAX), b),
        Bound::Unbounded => lex_le(version_key(Seq::empty(), 0), b),
    }
}

/// The engine keys that a scan up to the user-key bound `end` covers; with no
/// bound, every versioned key.
pub open spec fn scan_end_admits(end: Bound, b: Seq<u8>) -> bool {
    match end {
        Bound::Included(k) => lex_le(b, version_key(k@, u64::MAX)),
        Bound::Excluded(k) => lex_lt(b, version_key(k@, 0)),
        Bound::Unbounded => lex_lt(b, encode_prefix(KeyPrefixView::Unversioned)),
    }
}

/// The engine keys that a prefix scan covers: the versioned keys whose user
/// key starts with `p`.
pub open spec fn scan_prefix_admits(p: Seq<u8>, b: Seq<u8>) -> bool {
    (seq![TAG_VERSION] + escape(p)).is_prefix_of(b)
}

/// The state of a transaction: its version, whether it only reads, and the
/// versions that were active when it began. It can be kept apart from the
/// transaction and used to resume it.
#[derive(Clone, Debug, PartialEq)]
pub struct TransactionState {
    /// The version the transaction runs at. Only one read-write transaction
    /// runs at a version, which identifies its writes.
    pub version: u64,
    /// Whether the transaction only reads.
    pub read_only: bool,
    /// The read-write transactions that were active when this one began:
    /// their writes stay invisible to it.
    pub active: Vec<u64>,
}

impl TransactionState {
    /// Versions in the active set are never visible; otherwise a read-only
    /// transaction sees the versions below its own and a read-write one sees
    /// its own version too.
    pub open spec fn visible(&self, v: u64) -> bool {
        if self.active@.contains(v) {
            false
        } else if self.read_only {
            v < self.version
        } else {
            v <= self.version
        }
    }

    /// Whether the given version is visible to the transaction.
    pub fn is_visible(&self, version: u64) -> (r: bool)
        ensures
            r == self.visible(version),
    {
        let mut i: usize = 0;
        while i < self.active.len()
            invariant
                i <= self.active@.len(),
                forall|t: int| 0 <= t < i ==> self.active@[t] != version,
            decreases self.active@.len() - i,
        {
            if self.active[i] == version {
                return false;
            }
            i = i + 1;
        }
        if self.read_only {
            version < self.version
        } else {
            version <= self.version
        }
    }
}

/// A transactional key/value store over a storage engine.
pub struct MVCC {
    engine: Memory,
}

/// The store's status.
#[derive(Clone, Debug, PartialEq)]
pub struct Status {
    /// The number of versions handed out, that is of read-write transactions.
    pub versions: u64,
    /// The number of active read-write transactions.
    pub active_txns: u64,
    /// The storage engine.
    pub storage: String,
}

/// A transaction.
pub struct Transaction {
    st: TransactionState,
}

impl MVCC {
    /// What the engine holds.
    pub closed spec fn store(&self) -> Map<Seq<u8>, Seq<u8>> {
        self.engine@
    }

    /// The engine's entries in key order.
    pub closed spec fn entries(&self) -> Seq<(Seq<u8>, Seq<u8>)> {
        self.engine.entries()
    }

    pub closed spec fn wf(&self) -> bool {
        self.engine.wf()
    }

    /// Creates a store over the given engine.
    pub fn new(engine: Memory) -> (r: MVCC)
        requires
            engine.wf(),
        ensures
            r.wf(),
            r.store() == engine@,
    {
        MVCC { engine }
    }

    /// The next version: `NextVersion`, or 1 if it was never written.
    fn read_next_version(&self) -> (r: Result<u64, Error>)
        requires
            self.wf(),
        ensures
            store_wf(self.store()) ==> r == Ok::<u64, Error>(next_version(self.store())),
            r matches Err(e) ==> e is Internal,
    {
        let k = Key::NextVersion.encode();
        match self.engine.get(k.as_slice()) {
            Some(b) => {
                proof {
                    if store_wf(self.store()) {
                        lemma_decode_key(KeyView::NextVersion);
                        assert(self.store().contains_key(k@));
                    }
                }
                decode_u64(b.as_slice())
            },
            None => Ok(1),
        }
    }

    /// The versions of the active read-write transactions, in increasing
    /// order.
    fn scan_active(&self) -> (r: Result<Vec<u64>, Error>)
        requires
            self.wf(),
        ensures
            store_wf(self.store()) ==> (r matches Ok(a) && a@.to_set() == active_set(self.store())
                && a@.no_duplicates()),
            r matches Err(e) ==> e is Internal,
    {
        let ghost m = self.store();
        let ghost es = self.entries();
        let prefix = KeyPrefix::TxnActive.encode();
        let (i, j) = self.engine.prefix_positions(prefix.as_slice());
        let mut active: Vec<u64> = Vec::new();
        let mut t = i;
        while t < j
            invariant
                self.wf(),
                es == self.entries(),
                m == self.store(),
                prefix@ == seq![TAG_TXN_ACTIVE],
                i <= t <= j <= es.len(),
                forall|x: int| 0 <= x < es.len() ==> ((i <= x < j) == prefix@.is_prefix_of(#[trigger] es[x].0)),
                active@.len() == t - i,
                forall|x: int|
                    0 <= x < active@.len() ==> es[i + x].0 == encode_key(
                        KeyView::TxnActive(#[trigger] active@[x]),
                    ),
            decreases j - t,
        {
            match Key::decode(self.engine.key_at(t).as_slice()) {
                Ok(Key::TxnActive(v)) => {
                    active.push(v);
                },
                Ok(k) => {
                    proof {
                        lemma_encode_key_tag(k@);
                        assert(prefix@.is_prefix_of(es[t as int].0));
                        assert(es[t as int].0[0] == prefix@[0]);
                    }
                    return Err(Error::Internal("expected a TxnActive key".to_owned()));
                },
                Err(e) => {
                    proof {
                        if store_wf(m) {
                            lemma_entries_map_at(es, t as int);
                        }
                    }
                    return Err(e);
                },
            }
            t = t + 1;
        }
        proof {
            if store_wf(m) {
                assert forall|x: int, y: int|
                    0 <= x < active@.len() && 0 <= y < active@.len() && x != y implies active@[x]
                        != active@[y] by {
                    if active@[x] == active@[y] {
                        lemma_sorted_index(es, i + x, i + y);
                    }
                }
                assert forall|v: u64| active@.to_set().contains(v) == active_set(m).contains(v) by {
                    let kv = encode_key(KeyView::TxnActive(v));
                    if active@.contains(v) {
                        let x = choose|x: int| 0 <= x < active@.len() && active@[x] == v;
                        lemma_entries_map_at(es, i + x);
                    }
                    if m.contains_key(kv) {
                        let x = index_of(es, kv);
                        lemma_prefix_encoding(KeyPrefixView::TxnActive, KeyView::TxnActive(v));
                        assert(active@[x - i] == v) by {
                            lemma_encode_key_injective(KeyView::TxnActive(active@[x - i]), KeyView::TxnActive(v));
                        }
                    }
                }
                assert(active@.to_set() =~= active_set(m));
            }
        }
        Ok(active)
    }

    /// Begins a read-write transaction at a new version.
    pub fn begin(&mut self) -> (r: Result<Transaction, Error>)
        requires
            old(self).wf(),
        ensures
            final(self).wf(),
            store_wf(old(self).store()) ==> {
                &&& (r is Ok) == (next_version(old(self).store()) < u64::MAX)
                &&& r matches Ok(t) ==> {
                    &&& t.st().version == next_version(old(self).store())
                    &&& !t.st().read_only
                    &&& t.st().active@.to_set() == active_set(old(self).store())
                    &&& t.st().active@.no_duplicates()
                    &&& final(self).store() == begun_store(
                        old(self).store(),
                        t.st().version,
                        t.st().active@,
                    )
                    &&& store_wf(final(self).store())
                }
                &&& r is Err ==> final(self).store() == old(self).store()
            },
    {
        Transaction::begin(self)
    }

    /// Begins a read-only transaction at the latest version.
    pub fn begin_read_only(&self) -> (r: Result<Transaction, Error>)
        requires
            self.wf(),
        ensures
            store_wf(self.store()) ==> (r matches Ok(t) && t.st().version == next_version(
                self.store(),
            ) && t.st().read_only && t.st().active@.to_set() == active_set(self.store())),
    {
        Transaction::begin_read_only(self, None)
    }

    /// Begins a read-only transaction that sees what the read-write
    /// transaction at `version` saw when it began.
    pub fn begin_as_of(&self, version: u64) -> (r: Result<Transaction, Error>)
        requires
            self.wf(),
        ensures
            store_wf(self.store()) ==> {
                &&& version >= next_version(self.store()) ==> (r matches Err(Error::Value(s))
                    && s@ == "Version "@ + decimal(version as nat) + " does not exist"@)
                &&& version < next_version(self.store()) ==> (r matches Ok(t)
                    && t.st().version == version && t.st().read_only && t.st().active@
                    == snapshot_of(self.store(), version))
            },
    {
        Transaction::begin_read_only(self, Some(version))
    }

    /// Resumes a transaction from its state.
    pub fn resume(&self, state: TransactionState) -> (r: Result<Transaction, Error>)
        requires
            self.wf(),
        ensures
            (state.read_only || self.store().contains_key(
                encode_key(KeyView::TxnActive(state.version)),
            )) ==> (r matches Ok(t) && t.st() == state),
            !(state.read_only || self.store().contains_key(
                encode_key(KeyView::TxnActive(state.version)),
            )) ==> (r matches Err(Error::Internal(s)) && s@ == "No active transaction at version "@
                + decimal(state.version as nat)),
    {
        Transaction::resume(self, state)
    }

    /// The value of an unversioned key.
    pub fn get_unversioned(&self, key: &[u8]) -> (r: Result<Option<Vec<u8>>, Error>)
        requires
            self.wf(),
        ensures
            r matches Ok(o) && opt_view(o) == (if self.store().contains_key(
                encode_key(KeyView::Unversioned(key@)),
            ) {
                Some(self.store()[encode_key(KeyView::Unversioned(key@))])
            } else {
                None
            }),
    {
        let k = Key::Unversioned(slice_to_vec(key)).encode();
        Ok(self.engine.get(k.as_slice()))
    }

    /// Sets the value of an unversioned key.
    pub fn set_unversioned(&mut self, key: &[u8], value: Vec<u8>) -> (r: Result<(), Error>)
        requires
            old(self).wf(),
        ensures
            r is Ok,
            final(self).wf(),
            final(self).store() == old(self).store().insert(
                encode_key(KeyView::Unversioned(key@)),
                value@,
            ),
            store_wf(old(self).store()) ==> store_wf(final(self).store()),
    {
        let k = Key::Unversioned(slice_to_vec(key)).encode();
        self.engine.set(k.as_slice(), value);
        proof {
            if store_wf(old(self).store()) {
                lemma_store_wf_insert(old(self).store(), KeyView::Unversioned(key@), value@);
            }
        }
        Ok(())
    }

    /// The number of versions handed out, of active transactions, and the
    /// engine's name.
    pub fn status(&self) -> (r: Result<Status, Error>)
        requires
            self.wf(),
        ensures
            store_wf(self.store()) ==> (r matches Ok(s) && s.versions == (if next_version(
                self.store(),
            ) > 0 {
                next_version(self.store()) - 1
            } else {
                0
            }) && s.active_txns == active_set(self.store()).len() && s.storage@ == "memory"@),
    {
        let storage = self.engine.description();
        let next = self.read_next_version()?;
        let versions = if next > 0 {
            next - 1
        } else {
            0
        };
        let active = self.scan_active()?;
        proof {
            if store_wf(self.store()) {
                active@.unique_seq_to_set();
            }
        }
        Ok(Status { versions, active_txns: active.len() as u64, storage })
    }
}

impl Transaction {
    /// The transaction's state.
    pub closed spec fn st(&self) -> TransactionState {
        self.st
    }

    fn begin(mvcc: &mut MVCC) -> (r: Result<Transaction, Error>)
        requires
            old(mvcc).wf(),
        ensures
            final(mvcc).wf(),
            store_wf(old(mvcc).store()) ==> {
                &&& (r is Ok) == (next_version(old(mvcc).store()) < u64::MAX)
                &&& r matches Ok(t) ==> {
                    &&& t.st().version == next_version(old(mvcc).store())
                    &&& !t.st().read_only
                    &&& t.st().active@.to_set() == active_set(old(mvcc).store())
                    &&& t.st().active@.no_duplicates()
                    &&& final(mvcc).store() == begun_store(
                        old(mvcc).store(),
                        t.st().version,
                        t.st().active@,
                    )
                    &&& store_wf(final(mvcc).store())
                }
                &&& r is Err ==> final(mvcc).store() == old(mvcc).store()
            },
    {
        let ghost m = mvcc.store();
        let version = mvcc.read_next_version()?;
        if version == u64::MAX {
            return Err(Error::Internal("no version is left to allocate".to_owned()));
        }
        let active = mvcc.scan_active()?;
        let next = encode_u64(version + 1)?;
        mvcc.engine.set(Key::NextVersion.encode().as_slice(), next);
        proof {
            if store_wf(m) {
                lemma_u64_bytes((version + 1) as u64, Seq::empty());
                assert(u64_bytes((version + 1) as u64) + Seq::<u8>::empty() =~= u64_bytes(
                    (version + 1) as u64,
                ));
                lemma_store_wf_insert(m, KeyView::NextVersion, u64_bytes((version + 1) as u64));
            }
        }
        if active.len() > 0 {
            let snapshot = encode_versions(&active)?;
            let ghost before = mvcc.store();
            mvcc.engine.set(Key::TxnActiveSnapshot(version).encode().as_slice(), snapshot);
            proof {
                if store_wf(m) {
                    lemma_versions_round_trip(active@, Seq::empty());
                    assert(versions_bytes(active@) + Seq::<u8>::empty() =~= versions_bytes(
                        active@,
                    ));
                    lemma_store_wf_insert(
                        before,
                        KeyView::TxnActiveSnapshot(version),
                        versions_bytes(active@),
                    );
                }
            }
        }
        let ghost before = mvcc.store();
        mvcc.engine.set(Key::TxnActive(version).encode().as_slice(), Vec::new());
        proof {
            if store_wf(m) {
                lemma_store_wf_insert(before, KeyView::TxnActive(version), Seq::empty());
            }
        }
        Ok(Transaction { st: TransactionState { version, read_only: false, active } })
    }

    fn begin_read_only(mvcc: &MVCC, as_of: Option<u64>) -> (r: Result<Transaction, Error>)
        requires
            mvcc.wf(),
        ensures
            store_wf(mvcc.store()) ==> match as_of {
                None => r matches Ok(t) && t.st().version == next_version(mvcc.store())
                    && t.st().read_only && t.st().active@.to_set() == active_set(mvcc.store()),
                Some(a) => {
                    &&& a >= next_version(mvcc.store()) ==> (r matches Err(Error::Value(s)) && s@
                        == "Version "@ + decimal(a as nat) + " does not exist"@)
                    &&& a < next_version(mvcc.store()) ==> (r matches Ok(t) && t.st().version == a
                        && t.st().read_only && t.st().active@ == snapshot_of(mvcc.store(), a))
                },
            },
    {
        let ghost m = mvcc.store();
        let mut version = mvcc.read_next_version()?;
        let mut active: Vec<u64> = Vec::new();
        match as_of {
            Some(a) => {
                if a >= version {
                    return Err(Error::Value(missing_version_message(a)));
                }
                version = a;
                let k = Key::TxnActiveSnapshot(version).encode();
                match mvcc.engine.get(k.as_slice()) {
                    Some(value) => {
                        proof {
                            if store_wf(m) {
                                lemma_decode_key(KeyView::TxnActiveSnapshot(version));
                                assert(m.contains_key(k@));
                            }
                        }
                        active = decode_versions(value.as_slice())?;
                    },
                    None => {
                        assert(active@ =~= snapshot_of(m, version));
                    },
                }
            },
            None => {
                active = mvcc.scan_active()?;
            },
        }
        Ok(Transaction { st: TransactionState { version, read_only: true, active } })
    }

    fn resume(mvcc: &MVCC, s: TransactionState) -> (r: Result<Transaction, Error>)
        requires
            mvcc.wf(),
        ensures
            (s.read_only || mvcc.store().contains_key(encode_key(KeyView::TxnActive(s.version))))
                ==> (r matches Ok(t) && t.st() == s),
            !(s.read_only || mvcc.store().contains_key(encode_key(KeyView::TxnActive(s.version))))
                ==> (r matches Err(Error::Internal(m)) && m@ == "No active transaction at version "@
                + decimal(s.version as nat)),
    {
        if !s.read_only {
            let k = Key::TxnActive(s.version).encode();
            if mvcc.engine.get(k.as_slice()).is_none() {
                return Err(Error::Internal(inactive_message(s.version)));
            }
        }
        Ok(Transaction { st: s })
    }

    /// The version the transaction runs at.
    pub fn version(&self) -> (r: u64)
        ensures
            r == self.st().version,
    {
        self.st.version
    }

    /// Whether the transaction only reads.
    pub fn read_only(&self) -> (r: bool)
        ensures
            r == self.st().read_only,
    {
        self.st.read_only
    }

    /// The transaction's state, from which `MVCC::resume` makes an equivalent
    /// transaction.
    pub fn state(&self) -> (r: &TransactionState)
        ensures
            *r == self.st(),
    {
        &self.st
    }

    /// Commits the transaction: removing its active marker makes its writes
    /// visible to the transactions that begin afterwards.
    pub fn commit(self, mvcc: &mut MVCC) -> (r: Result<(), Error>)
        requires
            old(mvcc).wf(),
        ensures
            r is Ok,
            final(mvcc).wf(),
            final(mvcc).store() == (if self.st().read_only {
                old(mvcc).store()
            } else {
                old(mvcc).store().remove(encode_key(KeyView::TxnActive(self.st().version)))
            }),
            store_wf(old(mvcc).store()) ==> store_wf(final(mvcc).store()),
    {
        if self.st.read_only {
            return Ok(());
        }
        mvcc.engine.delete(Key::TxnActive(self.st.version).encode().as_slice());
        Ok(())
    }

    /// Deletes a key: writes a tombstone.
    pub fn delete(&mut self, mvcc: &mut MVCC, key: &[u8]) -> (r: Result<(), Error>)
        requires
            old(mvcc).wf(),
        ensures
            final(self).st() == old(self).st(),
            final(mvcc).wf(),
            old(self).st().read_only ==> r == Err::<(), Error>(Error::ReadOnly) && final(mvcc).store()
                == old(mvcc).store(),
            store_wf(old(mvcc).store()) && !old(self).st().read_only ==> {
                &&& write_conflict(old(mvcc).store(), old(self).st(), key@) ==> r == Err::<
                    (),
                    Error,
                >(Error::Serialization) && final(mvcc).store() == old(mvcc).store()
                &&& !write_conflict(old(mvcc).store(), old(self).st(), key@) ==> r is Ok
                    && final(mvcc).store() == written_store(
                    old(mvcc).store(),
                    old(self).st(),
                    key@,
                    None,
                ) && store_wf(final(mvcc).store())
            },
    {
        self.write_version(mvcc, key, None)
    }

    /// Sets a key's value.
    pub fn set(&mut self, mvcc: &mut MVCC, key: &[u8], value: Vec<u8>) -> (r: Result<(), Error>)
        requires
            old(mvcc).wf(),
        ensures
            final(self).st() == old(self).st(),
            final(mvcc).wf(),
            old(self).st().read_only ==> r == Err::<(), Error>(Error::ReadOnly) && final(mvcc).store()
                == old(mvcc).store(),
            store_wf(old(mvcc).store()) && !old(self).st().read_only ==> {
                &&& write_conflict(old(mvcc).store(), old(self).st(), key@) ==> r == Err::<
                    (),
                    Error,
                >(Error::Serialization) && final(mvcc).store() == old(mvcc).store()
                &&& !write_conflict(old(mvcc).store(), old(self).st(), key@) ==> r is Ok
                    && final(mvcc).store() == written_store(
                    old(mvcc).store(),
                    old(self).st(),
                    key@,
                    Some(value@),
                ) && store_wf(final(mvcc).store())
            },
    {
        self.write_version(mvcc, key, Some(value))
    }

    /// The least version whose writes of a key could conflict: the least
    /// active version, or the one after ours.
    fn conflict_floor(&self) -> (r: u64)
        ensures
            r <= (if self.st().version == u64::MAX {
                u64::MAX
            } else {
                (self.st().version + 1) as u64
            }),
            forall|a: u64| self.st().active@.contains(a) ==> r <= a,
    {
        let mut r: u64 = if self.st.version == u64::MAX {
            u64::MAX
        } else {
            self.st.version + 1
        };
        let mut i: usize = 0;
        while i < self.st.active.len()
            invariant
                i <= self.st.active@.len(),
                r <= (if self.st.version == u64::MAX {
                    u64::MAX
                } else {
                    (self.st.version + 1) as u64
                }),
                forall|t: int| 0 <= t < i ==> r <= self.st.active@[t],
            decreases self.st.active@.len() - i,
        {
            if self.st.active[i] < r {
                r = self.st.active[i];
            }
            i = i + 1;
        }
        r
    }

    /// Writes a version of a key at the transaction's version; `None` is a
    /// tombstone. Fails if the latest version of the key is one the
    /// transaction does not see. Replacing our own write is allowed.
    fn write_version(&self, mvcc: &mut MVCC, key: &[u8], value: Option<Vec<u8>>) -> (r: Result<
        (),
        Error,
    >)
        requires
            old(mvcc).wf(),
        ensures
            final(mvcc).wf(),
            self.st().read_only ==> r == Err::<(), Error>(Error::ReadOnly) && final(mvcc).store()
                == old(mvcc).store(),
            store_wf(old(mvcc).store()) && !self.st().read_only ==> {
                &&& write_conflict(old(mvcc).store(), self.st(), key@) ==> r == Err::<(), Error>(
                    Error::Serialization,
                ) && final(mvcc).store() == old(mvcc).store()
                &&& !write_conflict(old(mvcc).store(), self.st(), key@) ==> r is Ok
                    && final(mvcc).store() == written_store(
                    old(mvcc).store(),
                    self.st(),
                    key@,
                    opt_view(value),
                )
                    && store_wf(final(mvcc).store())
            },
    {
        if self.st.read_only {
            return Err(Error::ReadOnly);
        }
        let ghost m = mvcc.store();
        let ghost es = mvcc.entries();
        let ghost st = self.st;
        let ghost k = key@;
        let floor = self.conflict_floor();
        let from = Key::Version(slice_to_vec(key), floor).encode();
        let to = Key::Version(slice_to_vec(key), u64::MAX).encode();
        let (i, j) = mvcc.engine.range_positions(&Bound::Included(from), &Bound::Included(to));
        proof {
            assert forall|x: int| 0 <= x < es.len() && store_wf(m) implies ((i <= x < j) == (
            decode_key(#[trigger] es[x].0) matches Some(KeyView::Version(k2, v)) && k2 == k && floor <= v)) by {
                lemma_entries_map_at(es, x);
                let kx = decode_key(es[x].0)->0;
                lemma_version_range(k, floor, u64::MAX, kx);
            }
        }
        if j > i {
            let ghost last = (j - 1) as int;
            match Key::decode(mvcc.engine.key_at(j - 1).as_slice()) {
                Ok(Key::Version(kk, v)) => {
                    proof {
                        if store_wf(m) {
                            lemma_entries_map_at(es, last);
                            lemma_decode_key(KeyView::Version(kk@, v));
                            assert forall|w: u64| #[trigger]
                                m.contains_key(version_key(k, w)) implies w <= v by {
                                if w > v {
                                    let x = index_of(es, version_key(k, w));
                                    lemma_decode_key(KeyView::Version(k, w));
                                    lemma_entries_map_at(es, x);
                                    lemma_version_key_order(k, v, k, w);
                                    lemma_sorted_position(es, last, x);
                                }
                            }
                            assert(latest_version(m, k, v));
                            if write_conflict(m, st, k) {
                                let v2 = choose|v2: u64| latest_version(m, k, v2) && !st.visible(v2);
                                assert(v2 <= v && v <= v2);
                            }
                        }
                    }
                    if !self.st.is_visible(v) {
                        return Err(Error::Serialization);
                    }
                },
                Ok(other) => {
                    proof {
                        if store_wf(m) {
                            lemma_entries_map_at(es, last);
                            lemma_decode_key(other@);
                        }
                    }
                    return Err(Error::Internal("expected a Version key".to_owned()));
                },
                Err(e) => {
                    proof {
                        if store_wf(m) {
                            lemma_entries_map_at(es, last);
                        }
                    }
                    return Err(e);
                },
            }
        } else {
            proof {
                if store_wf(m) && write_conflict(m, st, k) {
                    let v = choose|v: u64| latest_version(m, k, v) && !st.visible(v);
                    if floor <= v {
                        let x = index_of(es, version_key(k, v));
                        lemma_decode_key(KeyView::Version(k, v));
                        lemma_entries_map_at(es, x);
                    }
                }
            }
        }
        if let Some(b) = &value {
            let _n = b.len();
        }
        let encoded = encode_value(&value)?;
        mvcc.engine.set(Key::TxnWrite(self.st.version, slice_to_vec(key)).encode().as_slice(), Vec::new());
        let ghost mid = mvcc.store();
        mvcc.engine.set(Key::Version(slice_to_vec(key), self.st.version).encode().as_slice(), encoded);
        proof {
            if store_wf(m) {
                lemma_store_wf_insert(m, KeyView::TxnWrite(st.version, k), Seq::empty());
                lemma_value_round_trip(opt_view(value), Seq::empty());
                assert(value_bytes(opt_view(value)) + Seq::<u8>::empty() =~= value_bytes(opt_view(value)));
                lemma_store_wf_insert(mid, KeyView::Version(k, st.version), value_bytes(opt_view(value)));
            }
        }
        Ok(())
    }

    /// A key's value: the latest version the transaction sees, `None` for a
    /// tombstone or where it sees none.
    pub fn get(&self, mvcc: &MVCC, key: &[u8]) -> (r: Result<Option<Vec<u8>>, Error>)
        requires
            mvcc.wf(),
        ensures
            store_wf(mvcc.store()) ==> (r matches Ok(o) && opt_view(o) == read_value(
                mvcc.store(),
                self.st(),
                key@,
            )),
            r matches Err(e) ==> e is Internal,
    {
        let ghost m = mvcc.store();
        let ghost es = mvcc.entries();
        let ghost st = self.st;
        let ghost k = key@;
        let from = Key::Version(slice_to_vec(key), 0).encode();
        let to = Key::Version(slice_to_vec(key), self.st.version).encode();
        let (i, j) = mvcc.engine.range_positions(&Bound::Included(from), &Bound::Included(to));
        proof {
            assert forall|x: int| 0 <= x < es.len() && store_wf(m) implies ((i <= x < j) == (
            decode_key(#[trigger] es[x].0) matches Some(KeyView::Version(k2, v)) && k2 == k && v <= st.version)) by {
                lemma_entries_map_at(es, x);
                let kx = decode_key(es[x].0)->0;
                lemma_version_range(k, 0, st.version, kx);
            }
        }
        let mut t = j;
        while t > i
            invariant
                mvcc.wf(),
                m == mvcc.store(),
                es == mvcc.entries(),
                st == self.st,
                k == key@,
                i <= t <= j <= es.len(),
                store_wf(m) ==> forall|x: int| 0 <= x < es.len() ==> ((i <= x < j) == (
                    decode_key(#[trigger] es[x].0) matches Some(KeyView::Version(k2, v)) && k2 == k
                    && v <= st.version)),
                store_wf(m) ==> forall|x: int| t <= x < j ==> (decode_key(#[trigger] es[x].0) matches Some(
                    KeyView::Version(_, v)) && !st.visible(v)),
            decreases t - i,
        {
            t = t - 1;
            match Key::decode(mvcc.engine.key_at(t).as_slice()) {
                Ok(Key::Version(kk, v)) => {
                    proof {
                        if store_wf(m) {
                            lemma_entries_map_at(es, t as int);
                            lemma_decode_key(KeyView::Version(kk@, v));
                        }
                    }
                    if self.st.is_visible(v) {
                        proof {
                            if store_wf(m) {
                                assert forall|w: u64| #[trigger]
                                    m.contains_key(version_key(k, w)) && st.visible(w) implies w <= v by {
                                    if w > v {
                                        let x = index_of(es, version_key(k, w));
                                        lemma_decode_key(KeyView::Version(k, w));
                                        lemma_entries_map_at(es, x);
                                        lemma_version_key_order(k, v, k, w);
                                        lemma_sorted_position(es, t as int, x);
                                    }
                                }
                                assert(latest_visible(m, st, k, v));
                                let c = choose|c: u64| latest_visible(m, st, k, c);
                                assert(c <= v && v <= c);
                            }
                        }
                        return decode_value(mvcc.engine.value_at(t).as_slice());
                    }
                },
                Ok(other) => {
                    proof {
                        if store_wf(m) {
                            lemma_entries_map_at(es, t as int);
                            lemma_decode_key(other@);
                        }
                    }
                    return Err(Error::Internal("expected a Version key".to_owned()));
                },
                Err(e) => {
                    proof {
                        if store_wf(m) {
                            lemma_entries_map_at(es, t as int);
                        }
                    }
                    return Err(e);
                },
            }
        }
        proof {
            if store_wf(m) && exists|v: u64| latest_visible(m, st, k, v) {
                let v = choose|v: u64| latest_visible(m, st, k, v);
                let x = index_of(es, version_key(k, v));
                lemma_decode_key(KeyView::Version(k, v));
                lemma_entries_map_at(es, x);
            }
        }
        Ok(None)
    }

    /// Rolls the transaction back: removes the versions it wrote, its write
    /// log and its active marker. Its active-set snapshot stays, for reads as
    /// of its version.
    pub fn rollback(self, mvcc: &mut MVCC) -> (r: Result<(), Error>)
        requires
            old(mvcc).wf(),
        ensures
            final(mvcc).wf(),
            self.st().read_only ==> r is Ok && final(mvcc).store() == old(mvcc).store(),
            store_wf(old(mvcc).store()) && !self.st().read_only ==> r is Ok && final(mvcc).store()
                == old(mvcc).store().remove_keys(rollback_keys(old(mvcc).store(), self.st().version))
                && store_wf(final(mvcc).store()),
            r matches Err(e) ==> e is Internal,
    {
        if self.st.read_only {
            return Ok(());
        }
        let ghost m = mvcc.store();
        let ghost es = mvcc.entries();
        let version = self.st.version;
        let prefix = KeyPrefix::TxnWrite(version).encode();
        let (i, j) = mvcc.engine.prefix_positions(prefix.as_slice());
        let mut rollback: Vec<Vec<u8>> = Vec::new();
        let mut t = i;
        while t < j
            invariant
                mvcc.wf(),
                m == mvcc.store(),
                es == mvcc.entries(),
                prefix@ == encode_prefix(KeyPrefixView::TxnWrite(version)),
                !self.st.read_only,
                version == self.st.version,
                i <= t <= j <= es.len(),
                forall|x: int| 0 <= x < es.len() ==> ((i <= x < j) == prefix@.is_prefix_of(#[trigger] es[x].0)),
                rollback@.len() == 2 * (t - i),
                forall|x: int|
                    i <= x < t ==> decode_key(#[trigger] es[x].0) == Some(
                        KeyView::TxnWrite(version, logged_key(es[x].0)),
                    ),
                forall|y: int|
                    0 <= y < t - i ==> (#[trigger] rollback@[2 * y])@ == version_key(
                        logged_key(es[i + y].0),
                        version,
                    ),
                forall|y: int| 0 <= y < t - i ==> (#[trigger] rollback@[2 * y + 1])@ == es[i + y].0,
            decreases j - t,
        {
            let raw = mvcc.engine.key_at(t);
            match Key::decode(raw.as_slice()) {
                Ok(Key::TxnWrite(w, k)) => {
                    proof {
                        lemma_txn_write_prefix(version, KeyView::TxnWrite(w, k@));
                        lemma_decode_key(KeyView::TxnWrite(w, k@));
                        assert(prefix@.is_prefix_of(es[t as int].0));
                    }
                    rollback.push(Key::Version(k, version).encode());
                    rollback.push(slice_to_vec(raw.as_slice()));
                    proof {
                        assert forall|y: int| 0 <= y < t + 1 - i implies (#[trigger] rollback@[2
                            * y])@ == version_key(logged_key(es[i + y].0), version) by {
                            if y == t - i {
                                assert(2 * y == 2 * (t - i));
                            }
                        }
                        assert forall|y: int| 0 <= y < t + 1 - i implies (#[trigger] rollback@[2
                            * y + 1])@ == es[i + y].0 by {
                            if y == t - i {
                                assert(2 * y + 1 == 2 * (t - i) + 1);
                            }
                        }
                    }
                },
                Ok(other) => {
                    proof {
                        lemma_txn_write_prefix(version, other@);
                        assert(prefix@.is_prefix_of(es[t as int].0));
                    }
                    return Err(Error::Internal("expected a TxnWrite key".to_owned()));
                },
                Err(e) => {
                    proof {
                        if store_wf(m) {
                            lemma_entries_map_at(es, t as int);
                        }
                    }
                    return Err(e);
                },
            }
            t = t + 1;
        }
        let ghost keys = rollback@.map_values(|b: Vec<u8>| b@);
        proof {
            if store_wf(m) {
                let marker = encode_key(KeyView::TxnActive(version));
                assert forall|b: Seq<u8>|
                    keys.contains(b) == (rollback_keys(m, version).contains(b) && b != marker) by {
                    if keys.contains(b) {
                        let y = choose|y: int| 0 <= y < keys.len() && keys[y] == b;
                        let x = i + y / 2;
                        lemma_entries_map_at(es, x);
                        let k = logged_key(es[x].0);
                        lemma_decode_key(KeyView::TxnWrite(version, k));
                        lemma_encode_key_injective(decode_key(es[x].0)->0, KeyView::TxnWrite(version, k));
                        assert(m.contains_key(encode_key(KeyView::TxnWrite(version, k))));
                        if y % 2 == 0 {
                            assert(rollback@[2 * (y / 2)] == rollback@[y]);
                            lemma_encode_key_tag(KeyView::Version(k, version));
                        } else {
                            assert(rollback@[2 * (y / 2) + 1] == rollback@[y]);
                            lemma_encode_key_tag(KeyView::TxnWrite(version, k));
                        }
                    }
                    if rollback_keys(m, version).contains(b) && b != encode_key(KeyView::TxnActive(version)) {
                        let k = choose|k: Seq<u8>| #[trigger]
                            m.contains_key(encode_key(KeyView::TxnWrite(version, k))) && (b
                                == encode_key(KeyView::TxnWrite(version, k)) || b == version_key(
                                k,
                                version,
                            ));
                        let kw = encode_key(KeyView::TxnWrite(version, k));
                        let x = index_of(es, kw);
                        lemma_txn_write_prefix(version, KeyView::TxnWrite(version, k));
                        lemma_decode_key(KeyView::TxnWrite(version, k));
                        let y = x - i;
                        if b == kw {
                            assert(keys[2 * y + 1] == b);
                        } else {
                            assert(keys[2 * y] == b);
                        }
                    }
                }
            }
        }
        let mut d: usize = 0;
        while d < rollback.len()
            invariant
                mvcc.wf(),
                keys == rollback@.map_values(|b: Vec<u8>| b@),
                !self.st.read_only,
                version == self.st.version,
                d <= rollback@.len(),
                mvcc.store() == m.remove_keys(keys.take(d as int).to_set()),
            decreases rollback@.len() - d,
        {
            let ghost before = mvcc.store();
            mvcc.engine.delete(rollback[d].as_slice());
            proof {
                assert(keys.take(d + 1).to_set() =~= keys.take(d as int).to_set().insert(keys[d as int])) by {
                    assert(keys.take(d + 1) =~= keys.take(d as int).push(keys[d as int]));
                    keys.take(d as int).lemma_push_to_set_commute(keys[d as int]);
                }
                assert(mvcc.store() =~= m.remove_keys(keys.take(d + 1).to_set()));
            }
            d = d + 1;
        }
        let ghost before = mvcc.store();
        mvcc.engine.delete(Key::TxnActive(version).encode().as_slice());
        proof {
            if store_wf(m) {
                assert(keys.take(d as int) =~= keys);
                assert(mvcc.store() =~= m.remove_keys(rollback_keys(m, version)));
            }
        }
        Ok(())
    }

    /// Scans the latest visible values of the user keys between two bounds.
    pub fn scan<'a>(&'a self, mvcc: &'a MVCC, start: Bound, end: Bound) -> (r: Result<Scan<'a>, Error>)
        requires
            mvcc.wf(),
        ensures
            r matches Ok(s) && s.wf() && s.entries() == mvcc.entries() && s.st() == self.st() && (
            forall|x: int|
                0 <= x < mvcc.entries().len() ==> ((s.lo() <= x < s.hi()) == (scan_start_admits(
                    start,
                    #[trigger] mvcc.entries()[x].0,
                ) && scan_end_admits(end, mvcc.entries()[x].0)))) && (store_wf(mvcc.store())
                ==> s.ok()),
    {
        let ghost es = mvcc.entries();
        let ghost m = mvcc.store();
        let lo = match &start {
            Bound::Excluded(k) => Bound::Excluded(Key::Version(slice_to_vec(k.as_slice()), u64::MAX).encode()),
            Bound::Included(k) => Bound::Included(Key::Version(slice_to_vec(k.as_slice()), 0).encode()),
            Bound::Unbounded => Bound::Included(Key::Version(Vec::new(), 0).encode()),
        };
        let hi = match &end {
            Bound::Excluded(k) => Bound::Excluded(Key::Version(slice_to_vec(k.as_slice()), 0).encode()),
            Bound::Included(k) => Bound::Included(Key::Version(slice_to_vec(k.as_slice()), u64::MAX).encode()),
            Bound::Unbounded => Bound::Excluded(KeyPrefix::Unversioned.encode()),
        };
        let s = Scan::from_range(&mvcc.engine, &self.st, lo, hi);
        proof {
            assert forall|x: int| 0 <= x < es.len() implies (above_start(lo, #[trigger] es[x].0)
                == scan_start_admits(start, es[x].0) && below_end(hi, es[x].0) == scan_end_admits(
                end,
                es[x].0,
            )) by {}
            if store_wf(m) {
                assert forall|x: int| s.lo() <= x < s.hi() implies (entry_item(#[trigger] es[x]) is Some
                    && parse_value(es[x].1) is Some) by {
                    lemma_entries_map_at(es, x);
                    let kx = decode_key(es[x].0)->0;
                    let lob = match start {
                        Bound::Included(k) => version_key(k@, 0),
                        Bound::Excluded(k) => version_key(k@, u64::MAX),
                        Bound::Unbounded => version_key(Seq::empty(), 0),
                    };
                    let hib = match end {
                        Bound::Included(k) => version_key(k@, u64::MAX),
                        Bound::Excluded(k) => version_key(k@, 0),
                        Bound::Unbounded => seq![TAG_UNVERSIONED],
                    };
                    match end {
                        Bound::Unbounded => {
                            assert(encode_prefix(KeyPrefixView::Unversioned) =~= seq![TAG_UNVERSIONED]);
                        },
                        _ => {},
                    }
                    lemma_version_family(lob, kx, hib);
                }
            }
        }
        Ok(s)
    }

    /// Scans the latest visible values of the user keys that start with
    /// `prefix`.
    pub fn scan_prefix<'a>(&'a self, mvcc: &'a MVCC, prefix: &[u8]) -> (r: Result<Scan<'a>, Error>)
        requires
            mvcc.wf(),
        ensures
            r matches Ok(s) && s.wf() && s.entries() == mvcc.entries() && s.st() == self.st() && (
            forall|x: int|
                0 <= x < mvcc.entries().len() ==> ((s.lo() <= x < s.hi()) == scan_prefix_admits(
                    prefix@,
                    #[trigger] mvcc.entries()[x].0,
                ))) && (store_wf(mvcc.store()) ==> s.ok()),
    {
        let ghost es = mvcc.entries();
        let ghost m = mvcc.store();
        // The encoding of a version-key prefix ends with the string
        // terminator; without it, the prefix covers every user key that
        // starts with `prefix`, not only `prefix` itself.
        let mut p = KeyPrefix::Version(slice_to_vec(prefix)).encode();
        let n = p.len();
        p.truncate(n - 2);
        assert(p@ =~= seq![TAG_VERSION] + escape(prefix@));
        let s = Scan::from_prefix(&mvcc.engine, &self.st, p);
        proof {
            if store_wf(m) {
                assert forall|x: int| s.lo() <= x < s.hi() implies (entry_item(#[trigger] es[x]) is Some
                    && parse_value(es[x].1) is Some) by {
                    lemma_entries_map_at(es, x);
                    let kx = decode_key(es[x].0)->0;
                    lemma_encode_key_tag(kx);
                    let pre = seq![TAG_VERSION] + escape(prefix@);
                    assert(pre.is_prefix_of(es[x].0));
                    assert(pre[0] == TAG_VERSION);
                    assert(es[x].0[0] == TAG_VERSION);
                }
            }
        }
        Ok(s)
    }
}

} // verus!
