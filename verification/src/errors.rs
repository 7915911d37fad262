use vstd::prelude::*;

verus! {

/// The failure kinds of index construction and persistence.  Query paths
/// on a well-formed index are total and never yield one of these.
#[derive(Clone, Copy, PartialEq, Eq, Structural, Debug)]
pub enum Error {
    /// A symbol outside the alphabet.
    MalformedAlphabet,
    /// Construction from a text of length zero.
    EmptyText,
    /// A sparsity factor of zero.
    InvalidSparsityFactor,
    /// Rank queried while the counters are stale.
    RankBeforeCounts,
    /// Persisted bytes that do not describe an index.
    DeserializationMismatch,
}

} // verus!
