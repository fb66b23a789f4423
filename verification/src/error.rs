//! The error cases that building, parsing and loading a model can surface.

use vstd::prelude::*;

verus! {

/// Why a parse, a build or a load was rejected.
#[derive(Clone, Copy, Debug, PartialEq, Eq, Structural)]
pub enum LmError {
    /// More input streams were given than `MAX_ORDER` allows.
    TooManyOrders,
    /// No input stream was given at all.
    NoOrders,
    /// A header line does not hold a decimal gram count.
    InvalidHeader,
    /// A record line is not `<gram><TAB><count>`.
    InvalidLine,
    /// A count field does not hold a decimal integer that fits the machine.
    InvalidCount,
    /// A stream holds fewer or more records than its header declares.
    CountMismatch,
    /// A unigram token occurs twice in the order-1 stream.
    DuplicateToken,
    /// A token is empty or holds a byte the vocabulary cannot store.
    InvalidToken,
    /// A gram at order two or above uses a token that is not a unigram.
    UnknownToken,
    /// A gram at order two or above has no parent at the order below.
    MissingParent,
    /// Records are not in the canonical sorted order the trie needs.
    UnsortedInput,
    /// A size or a sum does not fit the machine's integer range.
    TooLarge,
    /// Serialized bytes do not hold a well-formed model.
    Corrupt,
}

} // verus!
