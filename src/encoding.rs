//! The stored forms of values: the next version, a versioned value or
//! tombstone, and a set of versions. They are written and read with bincode in
//! its default form: little-endian fixed-width integers, a one-byte tag for an
//! option, and a sequence preceded by its length as a `u64`.
use vstd::prelude::*;
use crate::error::Error;
use crate::keycode::{lemma_pow256_8, pow256};

verus! {

/// The last `n` bytes of `v` in base 256, least significant first.
pub open spec fn little_endian(n: nat, v: nat) -> Seq<u8>
    decreases n,
{
    if n == 0 {
        Seq::empty()
    } else {
        seq![(v % 256) as u8] + little_endian((n - 1) as nat, v / 256)
    }
}

/// The number that bytes stand for in base 256, least significant first.
pub open spec fn from_little_endian(s: Seq<u8>) -> nat
    decreases s.len(),
{
    if s.len() == 0 {
        0
    } else {
        s[0] as nat + 256 * from_little_endian(s.drop_first())
    }
}

/// The stored form of a `u64`.
pub open spec fn u64_bytes(v: u64) -> Seq<u8> {
    little_endian(8, v as nat)
}

/// A `u64` read from the front of `b`, if `b` holds one.
pub open spec fn parse_u64(b: Seq<u8>) -> Option<u64> {
    if b.len() >= 8 {
        Some(from_little_endian(b.take(8)) as u64)
    } else {
        None
    }
}

/// The stored form of a versioned value: a live value or a tombstone.
pub open spec fn value_bytes(v: Option<Seq<u8>>) -> Seq<u8> {
    match v {
        None => seq![0u8],
        Some(b) => seq![1u8] + u64_bytes(b.len() as u64) + b,
    }
}

/// A versioned value read from the front of `b`, if `b` holds one.
pub open spec fn parse_value(b: Seq<u8>) -> Option<Option<Seq<u8>>> {
    if b.len() == 0 {
        None
    } else if b[0] == 0 {
        Some(None)
    } else if b[0] == 1 && b.len() >= 9 && 9 + from_little_endian(b.subrange(1, 9)) <= b.len() {
        Some(Some(b.subrange(9, 9 + from_little_endian(b.subrange(1, 9)) as int)))
    } else {
        None
    }
}

/// The versions' stored forms, one after another.
pub open spec fn concat_versions(vs: Seq<u64>) -> Seq<u8>
    decreases vs.len(),
{
    if vs.len() == 0 {
        Seq::empty()
    } else {
        concat_versions(vs.drop_last()) + u64_bytes(vs.last())
    }
}

/// The stored form of a sequence of versions.
pub open spec fn versions_bytes(vs: Seq<u64>) -> Seq<u8> {
    u64_bytes(vs.len() as u64) + concat_versions(vs)
}

/// A sequence of versions read from the front of `b`, if `b` holds one.
pub open spec fn parse_versions(b: Seq<u8>) -> Option<Seq<u64>> {
    if b.len() >= 8 && 8 + 8 * from_little_endian(b.take(8)) <= b.len() {
        Some(
            Seq::new(
                from_little_endian(b.take(8)),
                |i: int| from_little_endian(b.subrange(8 + 8 * i, 16 + 8 * i)) as u64,
            ),
        )
    } else {
        None
    }
}

/// An `Option<Vec<u8>>` as bytes.
pub open spec fn opt_view(o: Option<Vec<u8>>) -> Option<Seq<u8>> {
    match o {
        None => None,
        Some(v) => Some(v@),
    }
}

pub proof fn lemma_little_endian(n: nat, v: nat)
    requires
        v < pow256(n),
    ensures
        little_endian(n, v).len() == n,
        from_little_endian(little_endian(n, v)) == v,
    decreases n,
{
    if n > 0 {
        let m = (n - 1) as nat;
        assert(v / 256 < pow256(m)) by (nonlinear_arith)
            requires
                v < pow256(n),
                pow256(n) == 256 * pow256(m),
        ;
        lemma_little_endian(m, v / 256);
        let s = little_endian(n, v);
        assert(s.drop_first() =~= little_endian(m, v / 256));
        assert(v == v % 256 + 256 * (v / 256)) by (nonlinear_arith);
    }
}

pub proof fn lemma_u64_bytes(v: u64, rest: Seq<u8>)
    ensures
        u64_bytes(v).len() == 8,
        (u64_bytes(v) + rest).take(8) == u64_bytes(v),
        from_little_endian(u64_bytes(v)) == v,
        parse_u64(u64_bytes(v) + rest) == Some(v),
{
    lemma_pow256_8();
    lemma_little_endian(8, v as nat);
    assert((u64_bytes(v) + rest).take(8) =~= u64_bytes(v));
}

/// A stored value reads back as itself, whatever follows it.
pub proof fn lemma_value_round_trip(v: Option<Seq<u8>>, rest: Seq<u8>)
    requires
        v matches Some(b) ==> b.len() <= u64::MAX,
    ensures
        parse_value(value_bytes(v) + rest) == Some(v),
{
    let s = value_bytes(v) + rest;
    match v {
        None => {},
        Some(b) => {
            lemma_u64_bytes(b.len() as u64, b + rest);
            assert(s.subrange(1, 9) =~= u64_bytes(b.len() as u64));
            assert(s.subrange(9, 9 + b.len() as int) =~= b);
        },
    }
}

proof fn lemma_concat_versions(vs: Seq<u64>)
    ensures
        concat_versions(vs).len() == 8 * vs.len(),
        forall|i: int|
            0 <= i < vs.len() ==> #[trigger] concat_versions(vs).subrange(8 * i, 8 * i + 8)
                == u64_bytes(vs[i]),
    decreases vs.len(),
{
    if vs.len() > 0 {
        let d = vs.drop_last();
        lemma_concat_versions(d);
        lemma_u64_bytes(vs.last(), Seq::empty());
        assert forall|i: int| 0 <= i < vs.len() implies #[trigger] concat_versions(vs).subrange(
            8 * i,
            8 * i + 8,
        ) == u64_bytes(vs[i]) by {
            if i < d.len() {
                assert(concat_versions(vs).subrange(8 * i, 8 * i + 8) =~= concat_versions(
                    d,
                ).subrange(8 * i, 8 * i + 8));
            } else {
                assert(concat_versions(vs).subrange(8 * i, 8 * i + 8) =~= u64_bytes(vs.last()));
            }
        }
    }
}

/// A stored sequence of versions reads back as itself, whatever follows it.
pub proof fn lemma_versions_round_trip(vs: Seq<u64>, rest: Seq<u8>)
    requires
        vs.len() <= u64::MAX,
    ensures
        parse_versions(versions_bytes(vs) + rest) == Some(vs),
{
    let s = versions_bytes(vs) + rest;
    lemma_u64_bytes(vs.len() as u64, concat_versions(vs) + rest);
    assert(s =~= u64_bytes(vs.len() as u64) + (concat_versions(vs) + rest));
    lemma_concat_versions(vs);
    let p = parse_versions(s)->0;
    assert forall|i: int| 0 <= i < vs.len() implies p[i] == vs[i] by {
        assert(s.subrange(8 + 8 * i, 16 + 8 * i) =~= concat_versions(vs).subrange(8 * i, 8 * i + 8));
        lemma_u64_bytes(vs[i], Seq::empty());
    }
    assert(p =~= vs);
}

#[verifier::external_type_specification]
#[verifier::external_body]
pub struct ExBincodeErrorKind(bincode::ErrorKind);

/// Relies on `bincode::serialize` for a `u64`: its eight bytes, least
/// significant first; with no size limit it does not fail.
#[verifier::external_body]
fn bincode_serialize_u64(v: u64) -> (r: Result<Vec<u8>, bincode::Error>)
    ensures
        r is Ok,
        r matches Ok(b) ==> b@ == u64_bytes(v),
{
    bincode::serialize(&v)
}

/// Relies on `bincode::deserialize` for a `u64`: the first eight bytes, least
/// significant first; it fails on fewer and ignores what follows.
#[verifier::external_body]
fn bincode_deserialize_u64(b: &[u8]) -> (r: Result<u64, bincode::Error>)
    ensures
        r is Ok == parse_u64(b@) is Some,
        r matches Ok(v) ==> parse_u64(b@) == Some(v),
{
    bincode::deserialize::<u64>(b)
}

/// Relies on `bincode::serialize` for an `Option<Vec<u8>>`: a tag byte, 0 for
/// none and 1 for some, then the length as a `u64` and the bytes.
#[verifier::external_body]
fn bincode_serialize_value(v: &Option<Vec<u8>>) -> (r: Result<Vec<u8>, bincode::Error>)
    ensures
        r is Ok,
        r matches Ok(b) ==> b@ == value_bytes(opt_view(*v)),
{
    bincode::serialize(v)
}

/// Relies on `bincode::deserialize` for an `Option<Vec<u8>>`: reads what
/// `bincode_serialize_value` writes, fails on any other tag or on too few
/// bytes, and ignores what follows.
#[verifier::external_body]
fn bincode_deserialize_value(b: &[u8]) -> (r: Result<Option<Vec<u8>>, bincode::Error>)
    ensures
        r is Ok == parse_value(b@) is Some,
        r matches Ok(v) ==> parse_value(b@) == Some(opt_view(v)),
{
    bincode::deserialize::<Option<Vec<u8>>>(b)
}

/// Relies on `bincode::serialize` for a `Vec<u64>`: the length as a `u64`,
/// then each element's eight bytes.
#[verifier::external_body]
fn bincode_serialize_versions(vs: &Vec<u64>) -> (r: Result<Vec<u8>, bincode::Error>)
    ensures
        r is Ok,
        r matches Ok(b) ==> b@ == versions_bytes(vs@),
{
    bincode::serialize(vs)
}

/// Relies on `bincode::deserialize` for a `Vec<u64>`: reads what
/// `bincode_serialize_versions` writes, fails on too few bytes, and ignores
/// what follows.
#[verifier::external_body]
fn bincode_deserialize_versions(b: &[u8]) -> (r: Result<Vec<u64>, bincode::Error>)
    ensures
        r is Ok == parse_versions(b@) is Some,
        r matches Ok(v) ==> parse_versions(b@) == Some(v@),
{
    bincode::deserialize::<Vec<u64>>(b)
}

/// Relies on bincode's `Display` for its errors, for the message.
#[verifier::external_body]
fn bincode_error_message(e: bincode::Error) -> String {
    e.to_string()
}

fn decode_error(e: bincode::Error) -> (r: Error)
    ensures
        r is Internal,
{
    Error::Internal(bincode_error_message(e))
}

/// Encodes a `u64` for storage.
pub fn encode_u64(v: u64) -> (r: Result<Vec<u8>, Error>)
    ensures
        r is Ok,
        r matches Ok(b) ==> b@ == u64_bytes(v),
{
    match bincode_serialize_u64(v) {
        Ok(b) => Ok(b),
        Err(e) => Err(decode_error(e)),
    }
}

/// Decodes a stored `u64`.
pub fn decode_u64(b: &[u8]) -> (r: Result<u64, Error>)
    ensures
        r is Ok == parse_u64(b@) is Some,
        r matches Ok(v) ==> parse_u64(b@) == Some(v),
        r matches Err(e) ==> e is Internal,
{
    match bincode_deserialize_u64(b) {
        Ok(v) => Ok(v),
        Err(e) => Err(decode_error(e)),
    }
}

/// Encodes a versioned value, `None` being a tombstone.
pub fn encode_value(v: &Option<Vec<u8>>) -> (r: Result<Vec<u8>, Error>)
    ensures
        r is Ok,
        r matches Ok(b) ==> b@ == value_bytes(opt_view(*v)),
{
    match bincode_serialize_value(v) {
        Ok(b) => Ok(b),
        Err(e) => Err(decode_error(e)),
    }
}

/// Decodes a stored versioned value.
pub fn decode_value(b: &[u8]) -> (r: Result<Option<Vec<u8>>, Error>)
    ensures
        r is Ok == parse_value(b@) is Some,
        r matches Ok(v) ==> parse_value(b@) == Some(opt_view(v)),
        r matches Err(e) ==> e is Internal,
{
    match bincode_deserialize_value(b) {
        Ok(v) => Ok(v),
        Err(e) => Err(decode_error(e)),
    }
}

/// Encodes a sequence of versions.
pub fn encode_versions(vs: &Vec<u64>) -> (r: Result<Vec<u8>, Error>)
    ensures
        r is Ok,
        r matches Ok(b) ==> b@ == versions_bytes(vs@),
{
    match bincode_serialize_versions(vs) {
        Ok(b) => Ok(b),
        Err(e) => Err(decode_error(e)),
    }
}

/// Decodes a stored sequence of versions.
pub fn decode_versions(b: &[u8]) -> (r: Result<Vec<u64>, Error>)
    ensures
        r is Ok == parse_versions(b@) is Some,
        r matches Ok(v) ==> parse_versions(b@) == Some(v@),
        r matches Err(e) ==> e is Internal,
{
    match bincode_deserialize_versions(b) {
        Ok(v) => Ok(v),
        Err(e) => Err(decode_error(e)),
    }
}

} // verus!
