use vstd::prelude::*;

verus! {

/// Why a document could not be fetched by its address.
#[derive(Debug, PartialEq, Eq)]
pub enum DocError<E> {
    /// The address names a segment that the searcher does not hold.
    IndexOutOfRange,
    /// The segment's reader failed to read the document.
    Io(E),
}

} // verus!
