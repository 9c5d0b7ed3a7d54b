//! Verified core of a distributed search engine: a metastore tracking
//! per-index split metadata through a transactional lifecycle, a split
//! lifecycle and garbage-collection engine working against a byte storage
//! model, a bounded read-through cache, and the deterministic merge step of
//! the two-stage search dispatcher.

use vstd::prelude::*;

pub mod bundle;
pub mod cache;
pub mod checkpoint;
pub mod cluster;
pub mod gc;
pub mod lifecycle;
pub mod metastore;
pub mod resolver;
pub mod search;
pub mod split;
pub mod stream;
pub mod storage;

verus! {

/// Classification of every failure surfaced by the library.
#[derive(Clone, Copy, Debug, PartialEq, Eq, Structural)]
pub enum ErrorKind {
    /// A resource (storage path, index, split) is missing.
    NotFound,
    /// A duplicate index or split id was handed to a creation operation.
    AlreadyExists,
    /// An illegal state transition or a checkpoint conflict.
    PreconditionFailed,
    /// A malformed query, bad URI or ill-formed configuration.
    InvalidArgument,
    /// A transient storage or network failure.
    Io,
    /// Access denied by a backend.
    Permission,
    /// An invariant violation.
    Internal,
}

/// Extending a prefix by one element extends its filtered image by that
/// element exactly when the element satisfies the predicate.
pub proof fn lemma_filter_take_step<A>(s: Seq<A>, pred: spec_fn(A) -> bool, k: int)
    requires
        0 <= k < s.len(),
    ensures
        s.take(k + 1).filter(pred) == if pred(s[k]) {
            s.take(k).filter(pred).push(s[k])
        } else {
            s.take(k).filter(pred)
        },
{
    reveal(Seq::filter);
    assert(s.take(k + 1).drop_last() =~= s.take(k));
    assert(s.take(k + 1).last() == s[k]);
}

} // verus!
