use vstd::prelude::*;

verus! {

/// Position of a segment in the ordered segment list of one searcher.
///
/// It is assigned when the searcher is built and means nothing to another
/// searcher.
pub type SegmentLocalId = u32;

/// Identifier of a document inside one segment.
pub type DocId = u32;

/// Handle to one document of one searcher: the position of its segment and
/// its identifier inside that segment.
#[derive(Clone, Copy, Debug, PartialEq, Eq, Structural)]
pub struct DocAddress(pub SegmentLocalId, pub DocId);

} // verus!
