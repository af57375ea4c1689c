use crate::address::DocId;
use crate::timer::TimerTree;
use vstd::prelude::*;

verus! {

/// The documents of one segment that match a query, handed out one at a time
/// and once only.
pub trait Postings {
    /// The documents not handed out yet, the next one first.
    spec fn remaining(&self) -> Seq<DocId>;

    /// Hands out the next document, or `None` when there is none left.
    fn next(&mut self) -> (doc: Option<DocId>)
        ensures
            match doc {
                Some(doc_id) => {
                    &&& old(self).remaining().len() > 0
                    &&& doc_id == old(self).remaining().first()
                    &&& final(self).remaining() == old(self).remaining().drop_first()
                },
                None => {
                    &&& old(self).remaining().len() == 0
                    &&& final(self).remaining().len() == 0
                },
            },
    ;
}

/// Read access to one opened segment.
///
/// What a segment holds does not change while a reader is open on it: the
/// documents that match a query are a function of the reader and the terms.
/// Only whether an access succeeds is left to the storage.
pub trait SegmentReader: Sized {
    /// Handle to the stored segment.
    type Segment;

    /// Atom of a query.
    type Term;

    /// What is stored for one document.
    type Document;

    /// Failure of an access to the storage.
    type IoError;

    /// The sequence of matching documents that `search` returns.
    type Postings: Postings;

    /// The documents of this segment that match `terms`, in the order in which
    /// the reader hands them out.
    spec fn postings(&self, terms: Seq<Self::Term>) -> Seq<DocId>;

    /// Opens a reader on `segment`.
    fn open(segment: Self::Segment) -> (opened: Result<Self, Self::IoError>)
    ;

    /// The documents that match `terms`. The reader may time its own steps in
    /// scopes inside the innermost open scope of `timer`, and closes every
    /// scope that it opens.
    fn search(&self, terms: &Vec<Self::Term>, timer: &mut TimerTree) -> (found: Result<
        Self::Postings,
        Self::IoError,
    >)
        requires
            old(timer).wf(),
            old(timer).depth() > 0,
        ensures
            final(timer).wf(),
            final(timer).extends_innermost(old(timer)),
            found matches Ok(postings) ==> postings.remaining() == self.postings(terms@),
    ;

    /// The document stored under `doc_id`.
    fn doc(&self, doc_id: DocId) -> (fetched: Result<Self::Document, Self::IoError>)
    ;
}

/// `opened` is what opening a reader on `segment` may return.
pub open spec fn opens_as<R: SegmentReader>(
    segment: R::Segment,
    opened: Result<R, R::IoError>,
) -> bool {
    call_ensures(R::open, (segment,), opened)
}

/// `fetched` is what `reader` may return when it is asked for the document
/// `doc_id`.
pub open spec fn fetches_as<R: SegmentReader>(
    reader: R,
    doc_id: DocId,
    fetched: Result<R::Document, R::IoError>,
) -> bool {
    call_ensures(R::doc, (&reader, doc_id), fetched)
}

/// `found` is what `reader` may return when it is asked for the documents that
/// match `terms`, whatever timer with an open scope it is handed.
pub open spec fn searches_as<R: SegmentReader>(
    reader: R,
    terms: Vec<R::Term>,
    found: Result<R::Postings, R::IoError>,
) -> bool {
    exists|timer: &mut TimerTree|
        {
            &&& (*timer).wf()
            &&& (*timer).depth() > 0
            &&& #[trigger] call_ensures(R::search, (&reader, &terms, timer), found)
        }
}

/// The segments of an index at one moment, in the index's order.
pub struct Index<S> {
    segments: Vec<S>,
}

impl<S> View for Index<S> {
    type V = Seq<S>;

    closed spec fn view(&self) -> Seq<S> {
        self.segments@
    }
}

impl<S> Index<S> {
    /// The index that holds `segments`, in this order.
    pub fn new(segments: Vec<S>) -> (index: Index<S>)
        ensures
            index@ == segments@,
    {
        Index { segments }
    }

    /// The segments, in the index's order.
    pub fn segments(self) -> (segments: Vec<S>)
        ensures
            segments@ == self@,
    {
        self.segments
    }
}

} // verus!
