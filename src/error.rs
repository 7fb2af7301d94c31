//! Errors surfaced by the multi-version layer.
use vstd::prelude::*;

verus! {

#[derive(Clone, Debug, PartialEq)]
pub enum Error {
    /// An invariant was broken: a key or value that does not decode, a
    /// transaction that does not exist.
    Internal(String),
    /// A write was attempted in a read-only transaction.
    ReadOnly,
    /// A write conflicts with a newer or uncommitted version; the transaction
    /// must be retried.
    Serialization,
    /// An invalid request, such as reading as of a version that does not exist.
    Value(String),
}

} // verus!
