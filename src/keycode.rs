//! The order-preserving encoding of the store's keys.
//!
//! A key is its family's tag byte followed by its fields. A version is eight
//! bytes, most significant first. A byte string has each `0x00` written as
//! `0x00 0xff` and ends with `0x00 0x00`, so that no string can run into the
//! field that follows it.
use vstd::prelude::*;
use crate::error::Error;
use crate::order::{
    lemma_lex_asymmetric, lemma_lex_common_prefix, lemma_lex_extend, lemma_lex_irreflexive,
    lemma_lex_proper_prefix, lemma_lex_skip, lemma_lex_total, lex_le, lex_lt,
};

verus! {

pub const TAG_NEXT_VERSION: u8 = 0;
pub const TAG_TXN_ACTIVE: u8 = 1;
pub const TAG_TXN_ACTIVE_SNAPSHOT: u8 = 2;
pub const TAG_TXN_WRITE: u8 = 3;
pub const TAG_VERSION: u8 = 4;
pub const TAG_UNVERSIONED: u8 = 5;

/// The bytes that stand for one byte of a string.
pub open spec fn escape_byte(b: u8) -> Seq<u8> {
    if b == 0 {
        seq![0u8, 0xffu8]
    } else {
        seq![b]
    }
}

/// A string with each zero byte escaped, without the terminator.
pub open spec fn escape(s: Seq<u8>) -> Seq<u8>
    decreases s.len(),
{
    if s.len() == 0 {
        Seq::empty()
    } else {
        escape(s.drop_last()) + escape_byte(s.last())
    }
}

/// A string field: escaped, then terminated by two zero bytes.
pub open spec fn string_field(s: Seq<u8>) -> Seq<u8> {
    escape(s) + seq![0u8, 0u8]
}

/// The last `n` bytes of `v` in base 256, most significant first.
pub open spec fn big_endian(n: nat, v: nat) -> Seq<u8>
    decreases n,
{
    if n == 0 {
        Seq::empty()
    } else {
        big_endian((n - 1) as nat, v / 256).push((v % 256) as u8)
    }
}

/// A version field.
pub open spec fn version_field(v: u64) -> Seq<u8> {
    big_endian(8, v as nat)
}

/// The number that bytes stand for in base 256, most significant first.
pub open spec fn from_big_endian(s: Seq<u8>) -> nat
    decreases s.len(),
{
    if s.len() == 0 {
        0
    } else {
        from_big_endian(s.drop_last()) * 256 + s.last() as nat
    }
}

/// A key of the store, as a value.
pub enum KeyView {
    NextVersion,
    TxnActive(u64),
    TxnActiveSnapshot(u64),
    TxnWrite(u64, Seq<u8>),
    Version(Seq<u8>, u64),
    Unversioned(Seq<u8>),
}

/// The encoding of a key.
pub open spec fn encode_key(k: KeyView) -> Seq<u8> {
    match k {
        KeyView::NextVersion => seq![TAG_NEXT_VERSION],
        KeyView::TxnActive(v) => seq![TAG_TXN_ACTIVE] + version_field(v),
        KeyView::TxnActiveSnapshot(v) => seq![TAG_TXN_ACTIVE_SNAPSHOT] + version_field(v),
        KeyView::TxnWrite(v, key) => seq![TAG_TXN_WRITE] + version_field(v) + string_field(key),
        KeyView::Version(key, v) => seq![TAG_VERSION] + string_field(key) + version_field(v),
        KeyView::Unversioned(key) => seq![TAG_UNVERSIONED] + string_field(key),
    }
}

/// The encoding of `Version(key, v)`.
pub open spec fn version_key(key: Seq<u8>, v: u64) -> Seq<u8> {
    encode_key(KeyView::Version(key, v))
}

/// A key prefix, as a value.
pub enum KeyPrefixView {
    NextVersion,
    TxnActive,
    TxnActiveSnapshot,
    TxnWrite(u64),
    Version(Seq<u8>),
    Unversioned,
}

/// The encoding of a key prefix.
pub open spec fn encode_prefix(p: KeyPrefixView) -> Seq<u8> {
    match p {
        KeyPrefixView::NextVersion => seq![TAG_NEXT_VERSION],
        KeyPrefixView::TxnActive => seq![TAG_TXN_ACTIVE],
        KeyPrefixView::TxnActiveSnapshot => seq![TAG_TXN_ACTIVE_SNAPSHOT],
        KeyPrefixView::TxnWrite(v) => seq![TAG_TXN_WRITE] + version_field(v),
        KeyPrefixView::Version(key) => seq![TAG_VERSION] + string_field(key),
        KeyPrefixView::Unversioned => seq![TAG_UNVERSIONED],
    }
}

/// `k` belongs to the family of `p` and agrees with it on the fields that `p`
/// gives.
pub open spec fn prefix_matches(p: KeyPrefixView, k: KeyView) -> bool {
    match (p, k) {
        (KeyPrefixView::NextVersion, KeyView::NextVersion) => true,
        (KeyPrefixView::TxnActive, KeyView::TxnActive(_)) => true,
        (KeyPrefixView::TxnActiveSnapshot, KeyView::TxnActiveSnapshot(_)) => true,
        (KeyPrefixView::TxnWrite(v), KeyView::TxnWrite(w, _)) => v == w,
        (KeyPrefixView::Version(key), KeyView::Version(k2, _)) => key == k2,
        (KeyPrefixView::Unversioned, KeyView::Unversioned(_)) => true,
        _ => false,
    }
}

/// A key of the store.
pub enum Key {
    /// The next version to hand out.
    NextVersion,
    /// A read-write transaction that has begun and not yet ended.
    TxnActive(u64),
    /// The versions that were active when a read-write transaction began.
    TxnActiveSnapshot(u64),
    /// A key written by the transaction at a version, kept for rollback.
    TxnWrite(u64, Vec<u8>),
    /// A user key's value at a version.
    Version(Vec<u8>, u64),
    /// A user key outside the versioned store.
    Unversioned(Vec<u8>),
}

/// A prefix of the keys of a family, for prefix scans.
pub enum KeyPrefix {
    NextVersion,
    TxnActive,
    TxnActiveSnapshot,
    TxnWrite(u64),
    Version(Vec<u8>),
    Unversioned,
}

impl View for Key {
    type V = KeyView;

    open spec fn view(&self) -> KeyView {
        match self {
            Key::NextVersion => KeyView::NextVersion,
            Key::TxnActive(v) => KeyView::TxnActive(*v),
            Key::TxnActiveSnapshot(v) => KeyView::TxnActiveSnapshot(*v),
            Key::TxnWrite(v, k) => KeyView::TxnWrite(*v, k@),
            Key::Version(k, v) => KeyView::Version(k@, *v),
            Key::Unversioned(k) => KeyView::Unversioned(k@),
        }
    }
}

impl View for KeyPrefix {
    type V = KeyPrefixView;

    open spec fn view(&self) -> KeyPrefixView {
        match self {
            KeyPrefix::NextVersion => KeyPrefixView::NextVersion,
            KeyPrefix::TxnActive => KeyPrefixView::TxnActive,
            KeyPrefix::TxnActiveSnapshot => KeyPrefixView::TxnActiveSnapshot,
            KeyPrefix::TxnWrite(v) => KeyPrefixView::TxnWrite(*v),
            KeyPrefix::Version(k) => KeyPrefixView::Version(k@),
            KeyPrefix::Unversioned => KeyPrefixView::Unversioned,
        }
    }
}

pub open spec fn pow256(n: nat) -> nat
    decreases n,
{
    if n == 0 {
        1
    } else {
        256 * pow256((n - 1) as nat)
    }
}

pub proof fn lemma_escape_concat(a: Seq<u8>, b: Seq<u8>)
    ensures
        escape(a + b) == escape(a) + escape(b),
    decreases b.len(),
{
    if b.len() == 0 {
        assert(a + b =~= a);
        assert(escape(a) + escape(b) =~= escape(a));
    } else {
        assert((a + b).drop_last() =~= a + b.drop_last());
        assert((a + b).last() == b.last());
        lemma_escape_concat(a, b.drop_last());
        assert(escape(a) + escape(b.drop_last()) + escape_byte(b.last()) =~= escape(a) + (escape(
            b.drop_last(),
        ) + escape_byte(b.last())));
    }
}

pub proof fn lemma_escape_front(s: Seq<u8>)
    requires
        s.len() > 0,
    ensures
        escape(s) == escape_byte(s[0]) + escape(s.drop_first()),
{
    let h = seq![s[0]];
    assert(h + s.drop_first() =~= s);
    lemma_escape_concat(h, s.drop_first());
    assert(h.drop_last() =~= Seq::<u8>::empty());
    assert(escape(h.drop_last()) =~= Seq::<u8>::empty());
    assert(escape(h) =~= escape_byte(s[0]));
}

/// Bytes that agree before position `i` and differ there in favour of `a`.
pub proof fn lemma_lex_first_diff(a: Seq<u8>, b: Seq<u8>, i: int)
    requires
        0 <= i < a.len(),
        i < b.len(),
        a.take(i) == b.take(i),
        a[i] < b[i],
    ensures
        lex_lt(a, b),
        !a.is_prefix_of(b),
{
    lemma_lex_skip(a, b, i);
    assert(a.skip(i)[0] == a[i]);
    assert(b.skip(i)[0] == b[i]);
}

/// A string field ends where its terminator stands: no two fields, each
/// followed by anything, spell the same bytes unless they are equal.
pub proof fn lemma_string_field_unique(k1: Seq<u8>, k2: Seq<u8>, x: Seq<u8>, y: Seq<u8>)
    requires
        string_field(k1) + x == string_field(k2) + y,
    ensures
        k1 == k2,
        x == y,
    decreases k1.len(),
{
    let a = string_field(k1) + x;
    if k1.len() == 0 {
        assert(a[0] == 0 && a[1] == 0);
        if k2.len() > 0 {
            lemma_escape_front(k2);
            assert(a[0] == escape_byte(k2[0])[0]);
            assert(a[1] == escape_byte(k2[0])[1]);
        }
        assert(k1 =~= k2);
        assert(x =~= a.skip(2));
        assert(y =~= a.skip(2));
    } else {
        lemma_escape_front(k1);
        if k2.len() == 0 {
            assert(a[0] == escape_byte(k1[0])[0]);
            assert(a[1] == 0);
            assert(false);
        }
        lemma_escape_front(k2);
        let u1 = escape_byte(k1[0]);
        let u2 = escape_byte(k2[0]);
        assert(a[0] == u1[0] && a[0] == u2[0]);
        if k1[0] == 0 {
            assert(a[1] == u1[1]);
        }
        if k2[0] == 0 {
            assert(a[1] == u2[1]);
        }
        assert(k1[0] == k2[0]);
        let r1 = string_field(k1.drop_first()) + x;
        let r2 = string_field(k2.drop_first()) + y;
        assert(a =~= u1 + r1);
        assert(a =~= u2 + r2);
        assert(r1 =~= a.skip(u1.len() as int));
        assert(r2 =~= a.skip(u1.len() as int));
        lemma_string_field_unique(k1.drop_first(), k2.drop_first(), x, y);
        assert(k1 =~= seq![k1[0]] + k1.drop_first());
        assert(k2 =~= seq![k2[0]] + k2.drop_first());
    }
}

/// String fields sort as the strings do, and the first difference comes before
/// either field ends.
pub proof fn lemma_string_field_order(k1: Seq<u8>, k2: Seq<u8>)
    requires
        lex_lt(k1, k2),
    ensures
        lex_lt(string_field(k1), string_field(k2)),
        !string_field(k1).is_prefix_of(string_field(k2)),
    decreases k1.len(),
{
    let a = string_field(k1);
    let b = string_field(k2);
    lemma_escape_front(k2);
    let u2 = escape_byte(k2[0]);
    assert(b =~= u2 + string_field(k2.drop_first()));
    if k1.len() == 0 {
        if k2[0] == 0 {
            assert(a.take(1) =~= b.take(1));
            lemma_lex_first_diff(a, b, 1);
        } else {
            assert(a.take(0) =~= b.take(0));
            lemma_lex_first_diff(a, b, 0);
        }
    } else {
        lemma_escape_front(k1);
        let u1 = escape_byte(k1[0]);
        assert(a =~= u1 + string_field(k1.drop_first()));
        if k1[0] == k2[0] {
            lemma_string_field_order(k1.drop_first(), k2.drop_first());
            lemma_lex_common_prefix(u1, string_field(k1.drop_first()), string_field(k2.drop_first()));
            if a.is_prefix_of(b) {
                assert forall|i: int| 0 <= i < string_field(k1.drop_first()).len() implies
                    string_field(k1.drop_first())[i] == string_field(k2.drop_first())[i] by {
                    assert(a[i + u1.len()] == b[i + u1.len()]);
                }
            }
        } else {
            assert(a.take(0) =~= b.take(0));
            lemma_lex_first_diff(a, b, 0);
        }
    }
}

pub proof fn lemma_big_endian_len(n: nat, v: nat)
    ensures
        big_endian(n, v).len() == n,
    decreases n,
{
    if n > 0 {
        lemma_big_endian_len((n - 1) as nat, v / 256);
    }
}

/// Big-endian bytes of equal length sort as the numbers do.
pub proof fn lemma_big_endian_order(n: nat, v1: nat, v2: nat)
    requires
        v1 < pow256(n),
        v2 < pow256(n),
    ensures
        lex_lt(big_endian(n, v1), big_endian(n, v2)) == (v1 < v2),
    decreases n,
{
    if n == 0 {
        assert(v1 == 0 && v2 == 0);
    } else {
        let m = (n - 1) as nat;
        let h1 = v1 / 256;
        let h2 = v2 / 256;
        let l1 = (v1 % 256) as u8;
        let l2 = (v2 % 256) as u8;
        assert(h1 < pow256(m) && h2 < pow256(m)) by (nonlinear_arith)
            requires
                v1 < pow256(n),
                v2 < pow256(n),
                pow256(n) == 256 * pow256(m),
                h1 == v1 / 256,
                h2 == v2 / 256,
        ;
        assert(v1 == 256 * h1 + v1 % 256 && v2 == 256 * h2 + v2 % 256) by (nonlinear_arith)
            requires
                h1 == v1 / 256,
                h2 == v2 / 256,
        ;
        lemma_big_endian_len(m, h1);
        lemma_big_endian_len(m, h2);
        let b1 = big_endian(m, h1);
        let b2 = big_endian(m, h2);
        assert(big_endian(n, v1) == b1 + seq![l1]);
        assert(big_endian(n, v2) == b2 + seq![l2]);
        lemma_big_endian_order(m, h1, h2);
        lemma_big_endian_order(m, h2, h1);
        if h1 == h2 {
            lemma_lex_common_prefix(b1, seq![l1], seq![l2]);
            assert(seq![l1].drop_first() =~= Seq::<u8>::empty());
            assert(seq![l2].drop_first() =~= Seq::<u8>::empty());
            assert(seq![l1][0] == l1);
            assert(seq![l2][0] == l2);
            if l1 == l2 {
                lemma_lex_irreflexive(seq![l1]);
            }
            assert(lex_lt(seq![l1], seq![l2]) == (l1 < l2));
        } else if h1 < h2 {
            if b1.is_prefix_of(b2) {
                assert(b1 =~= b2);
                lemma_lex_irreflexive(b1);
            }
            lemma_lex_extend(b1, b2, seq![l1], seq![l2]);
        } else {
            if b2.is_prefix_of(b1) {
                assert(b1 =~= b2);
                lemma_lex_irreflexive(b1);
            }
            lemma_lex_extend(b2, b1, seq![l2], seq![l1]);
            lemma_lex_asymmetric(b2 + seq![l2], b1 + seq![l1]);
        }
    }
}

pub proof fn lemma_from_big_endian(n: nat, v: nat)
    requires
        v < pow256(n),
    ensures
        from_big_endian(big_endian(n, v)) == v,
    decreases n,
{
    if n > 0 {
        let m = (n - 1) as nat;
        assert(v / 256 < pow256(m)) by (nonlinear_arith)
            requires
                v < pow256(n),
                pow256(n) == 256 * pow256(m),
        ;
        lemma_from_big_endian(m, v / 256);
        assert(big_endian(n, v).drop_last() == big_endian(m, v / 256));
        assert(v == (v / 256) * 256 + v % 256) by (nonlinear_arith);
    }
}

pub proof fn lemma_big_endian_from(s: Seq<u8>)
    ensures
        big_endian(s.len(), from_big_endian(s)) == s,
        from_big_endian(s) < pow256(s.len()),
    decreases s.len(),
{
    if s.len() > 0 {
        let t = s.drop_last();
        let f = from_big_endian(t);
        lemma_big_endian_from(t);
        let v = f * 256 + s.last() as nat;
        assert(v / 256 == f && v % 256 == s.last() as nat) by (nonlinear_arith)
            requires
                v == f * 256 + s.last() as nat,
                s.last() < 256,
        ;
        assert(v < pow256(s.len())) by (nonlinear_arith)
            requires
                v == f * 256 + s.last() as nat,
                s.last() < 256,
                f < pow256(t.len()),
                pow256(s.len()) == 256 * pow256(t.len()),
        ;
        assert(s =~= t.push(s.last()));
    }
}

pub proof fn lemma_pow256_8()
    ensures
        pow256(8) == 0x1_0000_0000_0000_0000,
{
    reveal_with_fuel(pow256, 9);
}

/// Version fields sort as the versions do.
pub proof fn lemma_version_field_order(v1: u64, v2: u64)
    ensures
        lex_lt(version_field(v1), version_field(v2)) == (v1 < v2),
        version_field(v1).len() == 8,
{
    lemma_pow256_8();
    lemma_big_endian_order(8, v1 as nat, v2 as nat);
    lemma_big_endian_len(8, v1 as nat);
}

/// The encoding of every key starts with the encoding of each prefix that it
/// matches: a prefix scan over a family finds its keys.
pub proof fn lemma_prefix_encoding(p: KeyPrefixView, k: KeyView)
    requires
        prefix_matches(p, k),
    ensures
        encode_prefix(p).is_prefix_of(encode_key(k)),
{
    match (p, k) {
        (KeyPrefixView::TxnWrite(v), KeyView::TxnWrite(w, key)) => {
            assert(encode_key(k) =~= encode_prefix(p) + string_field(key));
        },
        (KeyPrefixView::Version(key), KeyView::Version(k2, w)) => {
            assert(encode_key(k) =~= encode_prefix(p) + version_field(w));
        },
        _ => {},
    }
}

/// Versioned keys sort by user key, then by version.
pub proof fn lemma_version_key_order(k1: Seq<u8>, v1: u64, k2: Seq<u8>, v2: u64)
    ensures
        lex_lt(k1, k2) ==> lex_lt(version_key(k1, v1), version_key(k2, v2)),
        k1 == k2 ==> (lex_lt(version_key(k1, v1), version_key(k2, v2)) == (v1 < v2)),
{
    let t = seq![TAG_VERSION];
    if lex_lt(k1, k2) {
        lemma_string_field_order(k1, k2);
        lemma_lex_extend(string_field(k1), string_field(k2), version_field(v1), version_field(v2));
        lemma_lex_common_prefix(
            t,
            string_field(k1) + version_field(v1),
            string_field(k2) + version_field(v2),
        );
        assert(version_key(k1, v1) =~= t + (string_field(k1) + version_field(v1)));
        assert(version_key(k2, v2) =~= t + (string_field(k2) + version_field(v2)));
    }
    if k1 == k2 {
        lemma_version_field_order(v1, v2);
        lemma_lex_common_prefix(t + string_field(k1), version_field(v1), version_field(v2));
    }
}

/// No versioned key of another user key lies between two versions of a user
/// key.
pub proof fn lemma_version_keys_not_interleaved(
    k: Seq<u8>,
    v1: u64,
    v2: u64,
    other: Seq<u8>,
    w: u64,
)
    requires
        other != k,
    ensures
        !(lex_lt(version_key(k, v1), version_key(other, w)) && lex_lt(
            version_key(other, w),
            version_key(k, v2),
        )),
{
    lemma_lex_total(k, other);
    lemma_version_key_order(k, v2, other, w);
    lemma_version_key_order(other, w, k, v1);
    lemma_lex_asymmetric(version_key(k, v1), version_key(other, w));
    lemma_lex_asymmetric(version_key(other, w), version_key(k, v2));
}

/// The keys between two versions of a user key, bounds included, are exactly
/// that user key's versions between the two.
pub proof fn lemma_version_range(k: Seq<u8>, a: u64, b: u64, x: KeyView)
    ensures
        (lex_le(version_key(k, a), encode_key(x)) && lex_le(encode_key(x), version_key(k, b))) == (
        x matches KeyView::Version(k2, v) && k2 == k && a <= v <= b),
{
    let e = encode_key(x);
    let lo = version_key(k, a);
    let hi = version_key(k, b);
    lemma_lex_irreflexive(e);
    lemma_lex_asymmetric(lo, e);
    lemma_lex_asymmetric(e, hi);
    match x {
        KeyView::Version(k2, v) => {
            lemma_lex_total(k, k2);
            lemma_version_key_order(k, a, k2, v);
            lemma_version_key_order(k2, v, k, b);
            lemma_version_key_order(k2, v, k, a);
            lemma_version_key_order(k, b, k2, v);
            if k2 == k {
                if a == v {
                    assert(lo == e);
                }
                if b == v {
                    assert(hi == e);
                }
            } else {
                if lex_lt(k2, k) {
                    lemma_lex_asymmetric(e, lo);
                } else {
                    lemma_lex_asymmetric(hi, e);
                }
            }
        },
        _ => {
            lemma_encode_key_tag(x);
            assert(lo[0] == TAG_VERSION);
            assert(hi[0] == TAG_VERSION);
            assert(e.take(0) =~= lo.take(0));
            assert(e.take(0) =~= hi.take(0));
            if e[0] < TAG_VERSION {
                lemma_lex_first_diff(e, lo, 0);
                lemma_lex_asymmetric(e, lo);
            } else {
                lemma_lex_first_diff(hi, e, 0);
            }
        },
    }
}

/// The keys under the write-log prefix of a version are that version's
/// write-log keys.
pub proof fn lemma_txn_write_prefix(v: u64, x: KeyView)
    ensures
        encode_prefix(KeyPrefixView::TxnWrite(v)).is_prefix_of(encode_key(x)) == (
        x matches KeyView::TxnWrite(w, _) && w == v),
{
    let p = encode_prefix(KeyPrefixView::TxnWrite(v));
    let e = encode_key(x);
    lemma_version_field_order(v, v);
    lemma_encode_key_tag(x);
    if p.is_prefix_of(e) {
        assert(e[0] == p[0]);
        match x {
            KeyView::TxnWrite(w, k) => {
                lemma_version_field_order(w, w);
                assert(e.subrange(1, 9) =~= version_field(w));
                assert(p.subrange(1, 9) =~= version_field(v));
                assert(e.subrange(1, 9) =~= p.subrange(1, 9));
                lemma_injective_version_field(v, w, version_field(v));
            },
            _ => {},
        }
    } else {
        match x {
            KeyView::TxnWrite(w, k) => {
                if w == v {
                    lemma_prefix_encoding(KeyPrefixView::TxnWrite(v), x);
                }
            },
            _ => {},
        }
    }
}

/// A key at or above one versioned key, and at or below another (or below
/// the first unversioned key), is a versioned key.
pub proof fn lemma_version_family(lo: Seq<u8>, x: KeyView, hi: Seq<u8>)
    requires
        lo.len() > 0,
        lo[0] == TAG_VERSION,
        lex_le(lo, encode_key(x)),
        (hi.len() > 0 && hi[0] == TAG_VERSION && lex_le(encode_key(x), hi)) || (hi == seq![
            TAG_UNVERSIONED,
        ] && lex_lt(encode_key(x), hi)),
    ensures
        x is Version,
{
    let e = encode_key(x);
    lemma_encode_key_tag(x);
    lemma_lex_irreflexive(e);
    assert(e.take(0) =~= lo.take(0));
    assert(e.take(0) =~= hi.take(0));
    if e[0] < TAG_VERSION {
        lemma_lex_first_diff(e, lo, 0);
        lemma_lex_asymmetric(e, lo);
    } else if e[0] > TAG_VERSION {
        if hi.len() > 0 && hi[0] == TAG_VERSION && lex_le(e, hi) {
            lemma_lex_first_diff(hi, e, 0);
            lemma_lex_asymmetric(e, hi);
        } else if e[0] == TAG_UNVERSIONED {
            assert(hi.is_prefix_of(e));
            if e.len() > 1 {
                lemma_lex_proper_prefix(hi, e.skip(1));
                assert(hi + e.skip(1) =~= e);
                lemma_lex_asymmetric(e, hi);
            } else {
                assert(e =~= hi);
            }
        } else {
            lemma_lex_first_diff(hi, e, 0);
            lemma_lex_asymmetric(e, hi);
        }
    }
}

/// An escaped string that starts a string field followed by anything is the
/// escape of a prefix of that field's string.
pub proof fn lemma_escape_prefix(p: Seq<u8>, k: Seq<u8>, tail: Seq<u8>)
    requires
        escape(p).is_prefix_of(escape(k) + seq![0u8, 0u8] + tail),
    ensures
        p.is_prefix_of(k),
    decreases p.len(),
{
    if p.len() > 0 {
        let t = escape(k) + seq![0u8, 0u8] + tail;
        lemma_escape_front(p);
        let u = escape_byte(p[0]);
        assert(escape(p)[0] == u[0]);
        if k.len() == 0 {
            assert(t[0] == 0 && t[1] == 0);
            if p[0] == 0 {
                assert(escape(p)[1] == u[1]);
            }
            assert(false);
        } else {
            lemma_escape_front(k);
            let w = escape_byte(k[0]);
            assert(t[0] == w[0]);
            if p[0] == 0 {
                assert(escape(p)[1] == u[1]);
                assert(t[1] == w[1] || k[0] != 0);
            }
            assert(k[0] == p[0]);
            let t2 = escape(k.drop_first()) + seq![0u8, 0u8] + tail;
            assert(t =~= w + t2);
            assert forall|i: int| 0 <= i < escape(p.drop_first()).len() implies escape(
                p.drop_first(),
            )[i] == t2[i] by {
                assert(escape(p)[i + u.len()] == t[i + u.len()]);
            }
            lemma_escape_prefix(p.drop_first(), k.drop_first(), tail);
            assert forall|i: int| 0 <= i < p.len() implies p[i] == k[i] by {
                if i > 0 {
                    assert(p[i] == p.drop_first()[i - 1]);
                    assert(k[i] == k.drop_first()[i - 1]);
                }
            }
        }
    }
}

/// The keys that start with the version tag and an escaped `p` are exactly
/// the versioned keys whose user key starts with `p`.
pub proof fn lemma_version_prefix(p: Seq<u8>, x: KeyView)
    ensures
        (seq![TAG_VERSION] + escape(p)).is_prefix_of(encode_key(x)) == (x matches KeyView::Version(
            k,
            _,
        ) && p.is_prefix_of(k)),
{
    let pre = seq![TAG_VERSION] + escape(p);
    let e = encode_key(x);
    lemma_encode_key_tag(x);
    match x {
        KeyView::Version(k, v) => {
            let t = escape(k) + seq![0u8, 0u8] + version_field(v);
            assert(e =~= seq![TAG_VERSION] + t);
            if p.is_prefix_of(k) {
                let r = k.skip(p.len() as int);
                assert(p + r =~= k);
                lemma_escape_concat(p, r);
                assert(e =~= pre + (escape(r) + seq![0u8, 0u8] + version_field(v)));
            }
            if pre.is_prefix_of(e) {
                assert forall|i: int| 0 <= i < escape(p).len() implies escape(p)[i] == t[i] by {
                    assert(pre[i + 1] == e[i + 1]);
                }
                lemma_escape_prefix(p, k, version_field(v));
            }
        },
        _ => {
            if pre.is_prefix_of(e) {
                assert(pre[0] == e[0]);
            }
        },
    }
}

/// A key is what its encoding says.
pub proof fn lemma_encode_key_injective(a: KeyView, b: KeyView)
    requires
        encode_key(a) == encode_key(b),
    ensures
        a == b,
{
    let e = encode_key(a);
    assert(e[0] == encode_key(b)[0]);
    match (a, b) {
        (KeyView::TxnActive(v), KeyView::TxnActive(w)) => {
            lemma_version_field_order(v, w);
            lemma_version_field_order(w, v);
            assert(e.skip(1) =~= version_field(v));
            assert(e.skip(1) =~= version_field(w));
            lemma_injective_version_field(v, w, e.skip(1));
        },
        (KeyView::TxnActiveSnapshot(v), KeyView::TxnActiveSnapshot(w)) => {
            lemma_version_field_order(v, w);
            lemma_version_field_order(w, v);
            assert(e.skip(1) =~= version_field(v));
            assert(e.skip(1) =~= version_field(w));
            lemma_injective_version_field(v, w, e.skip(1));
        },
        (KeyView::TxnWrite(v, k1), KeyView::TxnWrite(w, k2)) => {
            lemma_version_field_order(v, w);
            lemma_version_field_order(w, v);
            assert(e.subrange(1, 9) =~= version_field(v));
            assert(encode_key(b).subrange(1, 9) =~= version_field(w));
            lemma_injective_version_field(v, w, e.subrange(1, 9));
            assert(e.skip(9) =~= string_field(k1) + Seq::<u8>::empty());
            assert(encode_key(b).skip(9) =~= string_field(k2) + Seq::<u8>::empty());
            lemma_string_field_unique(k1, k2, Seq::<u8>::empty(), Seq::<u8>::empty());
        },
        (KeyView::Version(k1, v), KeyView::Version(k2, w)) => {
            lemma_version_field_order(v, w);
            lemma_version_field_order(w, w);
            assert(e.skip(1) =~= string_field(k1) + version_field(v));
            assert(encode_key(b).skip(1) =~= string_field(k2) + version_field(w));
            lemma_string_field_unique(k1, k2, version_field(v), version_field(w));
            lemma_injective_version_field(v, w, version_field(v));
        },
        (KeyView::Unversioned(k1), KeyView::Unversioned(k2)) => {
            assert(e.skip(1) =~= string_field(k1) + Seq::<u8>::empty());
            assert(encode_key(b).skip(1) =~= string_field(k2) + Seq::<u8>::empty());
            lemma_string_field_unique(k1, k2, Seq::<u8>::empty(), Seq::<u8>::empty());
        },
        _ => {},
    }
}

pub proof fn lemma_injective_version_field(v: u64, w: u64, s: Seq<u8>)
    requires
        s == version_field(v),
        s == version_field(w),
    ensures
        v == w,
{
    lemma_pow256_8();
    lemma_from_big_endian(8, v as nat);
    lemma_from_big_endian(8, w as nat);
}

/// A key is encoded as its family's tag byte and then its fields.
pub proof fn lemma_encode_key_tag(k: KeyView)
    ensures
        encode_key(k).len() > 0,
        encode_key(k)[0] == key_tag(k),
{
}

pub open spec fn key_tag(k: KeyView) -> u8 {
    match k {
        KeyView::NextVersion => TAG_NEXT_VERSION,
        KeyView::TxnActive(_) => TAG_TXN_ACTIVE,
        KeyView::TxnActiveSnapshot(_) => TAG_TXN_ACTIVE_SNAPSHOT,
        KeyView::TxnWrite(_, _) => TAG_TXN_WRITE,
        KeyView::Version(_, _) => TAG_VERSION,
        KeyView::Unversioned(_) => TAG_UNVERSIONED,
    }
}

proof fn lemma_pow256_monotone(a: nat, b: nat)
    requires
        a <= b,
    ensures
        pow256(a) <= pow256(b),
    decreases b,
{
    if a < b {
        lemma_pow256_monotone(a, (b - 1) as nat);
    }
}

/// Appends the last `n` bytes of `v`, most significant first.
fn push_big_endian(out: &mut Vec<u8>, n: usize, v: u64)
    ensures
        final(out)@ == old(out)@ + big_endian(n as nat, v as nat),
    decreases n,
{
    if n > 0 {
        push_big_endian(out, n - 1, v / 256);
        out.push((v % 256) as u8);
        proof {
            let ghost m = (n - 1) as nat;
            assert(big_endian(n as nat, v as nat) == big_endian(m, (v / 256) as nat).push(
                (v % 256) as u8,
            ));
        }
        assert(final(out)@ =~= old(out)@ + big_endian(n as nat, v as nat));
    } else {
        assert(final(out)@ =~= old(out)@ + big_endian(n as nat, v as nat));
    }
}

/// Appends a string field.
fn push_string(out: &mut Vec<u8>, s: &[u8])
    ensures
        final(out)@ == old(out)@ + string_field(s@),
{
    let ghost start = out@;
    let mut i: usize = 0;
    while i < s.len()
        invariant
            i <= s@.len(),
            out@ == start + escape(s@.take(i as int)),
        decreases s@.len() - i,
    {
        let b = s[i];
        if b == 0 {
            out.push(0);
            out.push(0xff);
        } else {
            out.push(b);
        }
        proof {
            assert(s@.take(i + 1).drop_last() =~= s@.take(i as int));
            assert(s@.take(i + 1).last() == b);
        }
        assert(out@ =~= start + escape(s@.take(i + 1)));
        i = i + 1;
    }
    assert(s@.take(i as int) =~= s@);
    out.push(0);
    out.push(0);
    assert(out@ =~= start + string_field(s@));
}

/// Reads the version field at `pos`.
fn read_version(b: &[u8], pos: usize) -> (r: u64)
    requires
        pos + 8 <= b@.len(),
    ensures
        version_field(r) == b@.subrange(pos as int, pos + 8),
{
    let mut acc: u64 = 0;
    let mut i: usize = 0;
    let n = b.len();
    proof {
        lemma_pow256_8();
    }
    while i < 8
        invariant
            i <= 8,
            n == b@.len(),
            pos + 8 <= b@.len(),
            pow256(8) == 0x1_0000_0000_0000_0000,
            acc as nat == from_big_endian(b@.subrange(pos as int, pos + i)),
            (acc as nat) < pow256(i as nat),
        decreases 8 - i,
    {
        let x = b[pos + i];
        proof {
            lemma_pow256_monotone((i + 1) as nat, 8);
            assert((acc as nat) * 256 + (x as nat) < pow256((i + 1) as nat)) by (nonlinear_arith)
                requires
                    (acc as nat) < pow256(i as nat),
                    x < 256,
                    pow256((i + 1) as nat) == 256 * pow256(i as nat),
            ;
            let t = b@.subrange(pos as int, pos + i + 1);
            assert(t.drop_last() =~= b@.subrange(pos as int, pos + i));
            assert(t.last() == x);
        }
        acc = acc * 256 + x as u64;
        i = i + 1;
    }
    proof {
        let t = b@.subrange(pos as int, pos + 8);
        lemma_big_endian_from(t);
    }
    acc
}

/// Reads the string field at `pos`, returning it and the position after it.
/// Where the bytes at `pos` start with the field of `target`, that field is
/// what is read.
fn read_string(b: &[u8], pos: usize, Ghost(target): Ghost<Seq<u8>>) -> (r: Option<
    (Vec<u8>, usize),
>)
    requires
        pos <= b@.len(),
    ensures
        r matches Some((k, end)) ==> pos <= end <= b@.len() && b@.subrange(pos as int, end as int)
            == string_field(k@),
        string_field(target).is_prefix_of(b@.skip(pos as int)) ==> (r matches Some((k, _)) && k@
            == target),
{
    let ghost hyp = string_field(target).is_prefix_of(b@.skip(pos as int));
    let ghost rest = b@.skip(pos + string_field(target).len());
    proof {
        if hyp {
            assert(b@.skip(pos as int) =~= string_field(target) + rest);
        }
    }
    let mut out: Vec<u8> = Vec::new();
    let mut i: usize = pos;
    loop
        invariant
            pos <= i <= b@.len(),
            hyp == string_field(target).is_prefix_of(b@.skip(pos as int)),
            b@.subrange(pos as int, i as int) == escape(out@),
            hyp ==> out@.is_prefix_of(target),
            hyp ==> b@.skip(pos as int) == string_field(target) + rest,
        decreases b@.len() - i,
    {
        let ghost m = out@.len() as int;
        let ghost tail = escape(target.skip(m)) + seq![0u8, 0u8] + rest;
        assert(hyp ==> b@.skip(i as int) == tail) by {
            if hyp {
                lemma_escape_concat(out@, target.skip(m));
                assert(out@ + target.skip(m) =~= target);
                assert(b@.skip(pos as int) =~= escape(out@) + escape(target.skip(m)) + seq![
                    0u8,
                    0u8,
                ] + rest);
                assert(escape(out@).len() == i - pos);
                assert forall|j: int| 0 <= j < b@.skip(i as int).len() implies b@.skip(i as int)[j]
                    == tail[j] by {
                    assert(b@.skip(i as int)[j] == b@.skip(pos as int)[j + (i - pos)]);
                }
                assert(b@.skip(i as int) =~= tail);
            }
        }
        assert(hyp && target.skip(m).len() > 0 ==> escape(target.skip(m)) == escape_byte(target[m])
            + escape(target.skip(m).drop_first())) by {
            if hyp && target.skip(m).len() > 0 {
                lemma_escape_front(target.skip(m));
                assert(target.skip(m)[0] == target[m]);
            }
        }
        if i >= b.len() {
            proof {
                assert(tail.len() >= 2);
                assert(b@.skip(i as int).len() == 0);
                assert(!hyp);
            }
            return None;
        }
        let x = b[i];
        assert(x == b@.skip(i as int)[0]);
        if x == 0 {
            if i + 1 >= b.len() {
                proof {
                    assert(tail.len() >= 2);
                    assert(b@.skip(i as int).len() == 1);
                    assert(!hyp);
                }
                return None;
            }
            let y = b[i + 1];
            assert(y == b@.skip(i as int)[1]);
            if y == 0 {
                proof {
                    assert(b@.subrange(pos as int, i + 2) =~= b@.subrange(pos as int, i as int)
                        + seq![0u8, 0u8]);
                    if hyp {
                        if target.skip(m).len() > 0 {
                            assert(escape_byte(target[m]) =~= seq![0u8, 0xffu8]);
                        }
                        assert(out@ =~= target);
                    }
                }
                return Some((out, i + 2));
            } else if y == 0xff {
                proof {
                    assert(b@.subrange(pos as int, i + 2) =~= b@.subrange(pos as int, i as int)
                        + seq![0u8, 0xffu8]);
                    let ghost o2 = out@.push(0u8);
                    assert(o2.drop_last() =~= out@);
                    if hyp {
                        assert(target.skip(m).len() > 0);
                        assert(target[m] == 0);
                        assert(o2 =~= target.take(m + 1));
                    }
                }
                out.push(0);
                i = i + 2;
            } else {
                proof {
                    if hyp {
                        assert(target.skip(m).len() > 0);
                    }
                }
                return None;
            }
        } else {
            proof {
                assert(b@.subrange(pos as int, i + 1) =~= b@.subrange(pos as int, i as int) + seq![
                    x,
                ]);
                let ghost o2 = out@.push(x);
                assert(o2.drop_last() =~= out@);
                if hyp {
                    assert(target.skip(m).len() > 0);
                    assert(target[m] == x);
                    assert(o2 =~= target.take(m + 1));
                }
            }
            out.push(x);
            i = i + 1;
        }
    }
}

impl Key {
    /// Encodes the key, preserving the order of keys within each family.
    pub fn encode(&self) -> (r: Vec<u8>)
        ensures
            r@ == encode_key(self@),
    {
        let mut out: Vec<u8> = Vec::new();
        match self {
            Key::NextVersion => {
                out.push(TAG_NEXT_VERSION);
            },
            Key::TxnActive(v) => {
                out.push(TAG_TXN_ACTIVE);
                push_big_endian(&mut out, 8, *v);
            },
            Key::TxnActiveSnapshot(v) => {
                out.push(TAG_TXN_ACTIVE_SNAPSHOT);
                push_big_endian(&mut out, 8, *v);
            },
            Key::TxnWrite(v, k) => {
                out.push(TAG_TXN_WRITE);
                push_big_endian(&mut out, 8, *v);
                push_string(&mut out, k.as_slice());
            },
            Key::Version(k, v) => {
                out.push(TAG_VERSION);
                push_string(&mut out, k.as_slice());
                push_big_endian(&mut out, 8, *v);
            },
            Key::Unversioned(k) => {
                out.push(TAG_UNVERSIONED);
                push_string(&mut out, k.as_slice());
            },
        }
        assert(out@ =~= encode_key(self@));
        out
    }

    /// Decodes a key: fails exactly on bytes that encode no key.
    pub fn decode(bytes: &[u8]) -> (r: Result<Key, Error>)
        ensures
            r is Ok == exists|k: KeyView| encode_key(k) == bytes@,
            r matches Ok(k) ==> encode_key(k@) == bytes@,
            r matches Err(e) ==> e is Internal,
    {
        let ghost b = bytes@;
        let ghost some = exists|k: KeyView| encode_key(k) == b;
        let ghost target: KeyView = if some {
            choose|k: KeyView| encode_key(k) == b
        } else {
            KeyView::NextVersion
        };
        let ghost tfield: Seq<u8> = match target {
            KeyView::TxnWrite(_, k) => k,
            KeyView::Version(k, _) => k,
            KeyView::Unversioned(k) => k,
            _ => Seq::empty(),
        };
        proof {
            if some {
                lemma_version_field_order(0, 0);
                match target {
                    KeyView::TxnActive(v) => lemma_version_field_order(v, v),
                    KeyView::TxnActiveSnapshot(v) => lemma_version_field_order(v, v),
                    KeyView::TxnWrite(v, k) => {
                        lemma_version_field_order(v, v);
                        assert(b.skip(9) =~= string_field(k));
                    },
                    KeyView::Version(k, v) => {
                        lemma_version_field_order(v, v);
                        assert(b.skip(1) =~= string_field(k) + version_field(v));
                    },
                    KeyView::Unversioned(k) => {
                        assert(b.skip(1) =~= string_field(k));
                    },
                    _ => {},
                }
            }
        }
        if bytes.len() == 0 {
            return Err(Error::Internal("empty key".to_owned()));
        }
        let tag = bytes[0];
        let bad = Err(Error::Internal("invalid key encoding".to_owned()));
        if tag == TAG_NEXT_VERSION {
            if bytes.len() == 1 {
                let k = Key::NextVersion;
                assert(encode_key(k@) =~= b);
                return Ok(k);
            }
        } else if tag == TAG_TXN_ACTIVE || tag == TAG_TXN_ACTIVE_SNAPSHOT {
            if bytes.len() == 9 {
                let v = read_version(bytes, 1);
                let k = if tag == TAG_TXN_ACTIVE {
                    Key::TxnActive(v)
                } else {
                    Key::TxnActiveSnapshot(v)
                };
                assert(encode_key(k@) =~= b);
                return Ok(k);
            }
        } else if tag == TAG_TXN_WRITE {
            if bytes.len() >= 9 {
                let v = read_version(bytes, 1);
                match read_string(bytes, 9, Ghost(tfield)) {
                    Some((key, end)) => {
                        if end == bytes.len() {
                            let k = Key::TxnWrite(v, key);
                            assert(encode_key(k@) =~= b);
                            return Ok(k);
                        }
                    },
                    None => {},
                }
            }
        } else if tag == TAG_VERSION {
            match read_string(bytes, 1, Ghost(tfield)) {
                Some((key, end)) => {
                    if end <= bytes.len() && bytes.len() - end == 8 {
                        let v = read_version(bytes, end);
                        let k = Key::Version(key, v);
                        assert(encode_key(k@) =~= b);
                        return Ok(k);
                    }
                },
                None => {},
            }
        } else if tag == TAG_UNVERSIONED {
            match read_string(bytes, 1, Ghost(tfield)) {
                Some((key, end)) => {
                    if end == bytes.len() {
                        let k = Key::Unversioned(key);
                        assert(encode_key(k@) =~= b);
                        return Ok(k);
                    }
                },
                None => {},
            }
        }
        proof {
            if some {
                lemma_encode_key_tag(target);
            }
        }
        bad
    }
}

impl KeyPrefix {
    /// Encodes the prefix: every key of the family that agrees on the given
    /// fields starts with it.
    pub fn encode(&self) -> (r: Vec<u8>)
        ensures
            r@ == encode_prefix(self@),
    {
        let mut out: Vec<u8> = Vec::new();
        match self {
            KeyPrefix::NextVersion => {
                out.push(TAG_NEXT_VERSION);
            },
            KeyPrefix::TxnActive => {
                out.push(TAG_TXN_ACTIVE);
            },
            KeyPrefix::TxnActiveSnapshot => {
                out.push(TAG_TXN_ACTIVE_SNAPSHOT);
            },
            KeyPrefix::TxnWrite(v) => {
                out.push(TAG_TXN_WRITE);
                push_big_endian(&mut out, 8, *v);
            },
            KeyPrefix::Version(k) => {
                out.push(TAG_VERSION);
                push_string(&mut out, k.as_slice());
            },
            KeyPrefix::Unversioned => {
                out.push(TAG_UNVERSIONED);
            },
        }
        assert(out@ =~= encode_prefix(self@));
        out
    }
}

} // verus!
