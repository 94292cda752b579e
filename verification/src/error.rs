use vstd::prelude::*;

verus! {

/// Errors raised while building a page's decode state or while pushing
/// decoded values into the accumulators.
#[derive(Debug, Clone, PartialEq, Eq)]
pub enum Error {
    /// The (encoding, dictionary presence, optionality, filter) combination
    /// of a page matches no supported decode state; any filtered page is
    /// always unsupported.
    Unsupported,
    /// The dictionary supplied for a page does not have the shape of a
    /// binary dictionary (a flat byte buffer delimited by a sound offset
    /// array).
    TypeMismatch,
    /// A dictionary index read from a page lies outside the dictionary.
    CorruptDictionaryIndex,
    /// Appending a value would grow the byte buffer past what the chosen
    /// offset width can address.
    Overflow,
    /// A page buffer ends before the data it declares to hold.
    Truncated,
    /// The driver gave up after an extreme number of page pulls within one
    /// call; no finite source reaches this.
    PullLimit,
    /// An error reported by the upstream page source, carried through.
    Upstream(String),
}

} // verus!
