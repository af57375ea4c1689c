use crate::address::{DocId, SegmentLocalId};
use crate::reader::SegmentReader;
use vstd::prelude::*;

verus! {

/// One call that a search makes on its collector.
#[derive(Clone, Copy, Debug, PartialEq, Eq, Structural)]
pub enum Call {
    /// The search has moved to the segment with this id.
    SetSegment(SegmentLocalId),
    /// This document of the active segment matches.
    Collect(DocId),
}

/// What a search hands its matches to.
///
/// A search calls `set_segment` once for each segment, before any document of
/// that segment, and `collect` once for each matching document. What a
/// collector makes of the calls is its own business; all that is asked of it
/// is to know which calls it has received.
pub trait Collector<R: SegmentReader> {
    /// The calls received so far, the oldest first.
    spec fn calls(&self) -> Seq<Call>;

    /// The search has moved to the segment `segment_local_id`, which `reader`
    /// reads. An error ends the search.
    fn set_segment(&mut self, segment_local_id: SegmentLocalId, reader: &R) -> (done: Result<
        (),
        R::IoError,
    >)
        ensures
            final(self).calls() == old(self).calls().push(Call::SetSegment(segment_local_id)),
    ;

    /// The document `doc_id` of the active segment matches.
    fn collect(&mut self, doc_id: DocId)
        ensures
            final(self).calls() == old(self).calls().push(Call::Collect(doc_id)),
    ;
}

/// A collector that has received `received` may accept the segment
/// `segment_local_id`, which `reader` reads, when it is told that the search
/// has moved there (`refusal` is `None`), or may refuse it with an error
/// (`refusal` is that error).
pub open spec fn told_as<R: SegmentReader, C: Collector<R>>(
    received: Seq<Call>,
    segment_local_id: SegmentLocalId,
    reader: R,
    refusal: Option<R::IoError>,
) -> bool {
    exists|collector: &mut C, done: Result<(), R::IoError>|
        {
            &&& (*collector).calls() == received
            &&& #[trigger] call_ensures(C::set_segment, (collector, segment_local_id, &reader), done)
            &&& refusal == done.err()
        }
}

/// The `collect` calls for `postings`, in their order.
pub open spec fn collect_calls(postings: Seq<DocId>) -> Seq<Call> {
    postings.map_values(|doc_id: DocId| Call::Collect(doc_id))
}

/// The calls that a search makes for the segment `segment_local_id` when
/// `postings` are its matching documents.
pub open spec fn segment_calls(segment_local_id: SegmentLocalId, postings: Seq<DocId>) -> Seq<
    Call,
> {
    seq![Call::SetSegment(segment_local_id)] + collect_calls(postings)
}

/// Number of `collect` calls among `calls`.
pub open spec fn collected(calls: Seq<Call>) -> nat
    decreases calls.len(),
{
    if calls.len() == 0 {
        0
    } else if calls.last() is Collect {
        collected(calls.drop_last()) + 1
    } else {
        collected(calls.drop_last())
    }
}

/// One more call adds one to the number of `collect` calls where it is a
/// `collect` call, and nothing where it is not.
pub proof fn lemma_collected_push(calls: Seq<Call>, call: Call)
    ensures
        collected(calls.push(call)) == collected(calls) + if call is Collect {
            1nat
        } else {
            0nat
        },
{
    assert(calls.push(call).drop_last() =~= calls);
}

/// The number of `collect` calls of two runs of calls, one after the other, is
/// the sum of their numbers.
pub proof fn lemma_collected_add(first: Seq<Call>, second: Seq<Call>)
    ensures
        collected(first + second) == collected(first) + collected(second),
    decreases second.len(),
{
    if second.len() == 0 {
        assert(first + second =~= first);
    } else {
        assert(first + second =~= (first + second.drop_last()).push(second.last()));
        lemma_collected_add(first, second.drop_last());
        lemma_collected_push(first + second.drop_last(), second.last());
    }
}

/// A segment with `postings` matching documents gives rise to as many
/// `collect` calls.
pub proof fn lemma_collected_segment(segment_local_id: SegmentLocalId, postings: Seq<DocId>)
    ensures
        collected(collect_calls(postings)) == postings.len(),
        collected(segment_calls(segment_local_id, postings)) == postings.len(),
    decreases postings.len(),
{
    if postings.len() > 0 {
        lemma_collected_segment(segment_local_id, postings.drop_last());
        assert(collect_calls(postings) =~= collect_calls(postings.drop_last()).push(
            Call::Collect(postings.last()),
        ));
        lemma_collected_push(collect_calls(postings.drop_last()), Call::Collect(postings.last()));
    }
    let head = seq![Call::SetSegment(segment_local_id)];
    lemma_collected_push(Seq::<Call>::empty(), Call::SetSegment(segment_local_id));
    lemma_collected_add(head, collect_calls(postings));
}

/// Counts the documents it is handed, in all segments together. The count
/// stops at `u64::MAX`.
pub struct CountCollector {
    count: u64,
    calls: Ghost<Seq<Call>>,
}

impl CountCollector {
    #[verifier::type_invariant]
    spec fn counted(&self) -> bool {
        self.count as nat == if collected(self.calls@) <= u64::MAX {
            collected(self.calls@)
        } else {
            u64::MAX as nat
        }
    }

    /// The calls received so far, the oldest first.
    pub closed spec fn received(&self) -> Seq<Call> {
        self.calls@
    }

    /// A collector that has received nothing.
    pub fn new() -> (collector: CountCollector)
        ensures
            collector.received() == Seq::<Call>::empty(),
    {
        CountCollector { count: 0, calls: Ghost(Seq::empty()) }
    }

    /// Number of documents received so far, or `u64::MAX` where there were
    /// more.
    pub fn count(&self) -> (count: u64)
        ensures
            collected(self.received()) <= u64::MAX ==> count == collected(self.received()),
            collected(self.received()) > u64::MAX ==> count == u64::MAX,
    {
        proof {
            use_type_invariant(self);
        }
        self.count
    }
}

impl<R: SegmentReader> Collector<R> for CountCollector {
    open spec fn calls(&self) -> Seq<Call> {
        self.received()
    }

    fn set_segment(&mut self, segment_local_id: SegmentLocalId, reader: &R) -> (done: Result<
        (),
        R::IoError,
    >)
        ensures
            done is Ok,
    {
        proof {
            use_type_invariant(&*self);
            lemma_collected_push(self.calls@, Call::SetSegment(segment_local_id));
        }
        *self = CountCollector {
            count: self.count,
            calls: Ghost(self.calls@.push(Call::SetSegment(segment_local_id))),
        };
        Ok(())
    }

    fn collect(&mut self, doc_id: DocId) {
        proof {
            use_type_invariant(&*self);
            lemma_collected_push(self.calls@, Call::Collect(doc_id));
        }
        let count = if self.count < u64::MAX {
            self.count + 1
        } else {
            self.count
        };
        *self = CountCollector { count, calls: Ghost(self.calls@.push(Call::Collect(doc_id))) };
    }
}

/// Keeps every call it receives, in the order of the calls.
pub struct CallRecorder {
    pub calls: Vec<Call>,
}

impl CallRecorder {
    /// A recorder that has received nothing.
    pub fn new() -> (recorder: CallRecorder)
        ensures
            recorder.calls@ == Seq::<Call>::empty(),
    {
        CallRecorder { calls: Vec::new() }
    }
}

impl<R: SegmentReader> Collector<R> for CallRecorder {
    open spec fn calls(&self) -> Seq<Call> {
        self.calls@
    }

    fn set_segment(&mut self, segment_local_id: SegmentLocalId, reader: &R) -> (done: Result<
        (),
        R::IoError,
    >)
        ensures
            done is Ok,
    {
        self.calls.push(Call::SetSegment(segment_local_id));
        Ok(())
    }

    fn collect(&mut self, doc_id: DocId) {
        self.calls.push(Call::Collect(doc_id));
    }
}

} // verus!
