use crate::address::{DocAddress, SegmentLocalId};
use crate::collector::{
    collect_calls, collected, lemma_collected_add, lemma_collected_segment, segment_calls,
    told_as, Call, Collector,
};
use crate::error::DocError;
use crate::reader::{fetches_as, opens_as, searches_as, Index, Postings, SegmentReader};
use crate::timer::{TimerTree, Timing};
use vstd::prelude::*;

verus! {

/// `scope` is the timing of the search of one segment: three scopes were timed
/// inside it, for telling the collector, for getting the postings, and for
/// handing them to the collector.
pub open spec fn is_segment_scope(scope: Timing) -> bool {
    &&& scope.name@ == "segment_search"@
    &&& scope.children@.len() == 3
    &&& scope.children@[0].is_leaf("set_segment"@)
    &&& scope.children@[1].name@ == "get_postings"@
    &&& scope.children@[2].is_leaf("collection"@)
}

/// `scope` is the timing of a search over `segments` segments: one segment
/// scope for each of them was timed inside it.
pub open spec fn is_search_scope(scope: Timing, segments: nat) -> bool {
    &&& scope.name@ == "search"@
    &&& scope.children@.len() == segments
    &&& forall|i: int| 0 <= i < segments ==> is_segment_scope(#[trigger] scope.children@[i])
}

/// Hands every document that is left in `postings` to `collector`, in the
/// order in which `postings` hands them out.
pub fn collect_all<R: SegmentReader, P: Postings, C: Collector<R>>(
    postings: &mut P,
    collector: &mut C,
)
    ensures
        final(collector).calls() == old(collector).calls() + collect_calls(
            old(postings).remaining(),
        ),
        final(postings).remaining().len() == 0,
{
    let ghost all = postings.remaining();
    let ghost before = collector.calls();
    let ghost mut done: int = 0;
    loop
        invariant
            0 <= done <= all.len(),
            postings.remaining() == all.skip(done),
            collector.calls() == before + collect_calls(all.take(done)),
        ensures
            postings.remaining().len() == 0,
            collector.calls() == before + collect_calls(all),
        decreases all.len() - done,
    {
        match postings.next() {
            None => {
                break ;
            },
            Some(doc_id) => {
                collector.collect(doc_id);
                proof {
                    done = done + 1;
                }
            },
        }
    }
}

/// Opening a reader on `segment` may succeed.
pub open spec fn may_open<R: SegmentReader>(segment: R::Segment) -> bool {
    exists|reader: R| #[trigger] opens_as(segment, Ok(reader))
}

/// Opening the segments of `segments` in their order ends with `error`: one of
/// them fails to open with it, after all before it have opened.
pub open spec fn first_failure<R: SegmentReader>(
    segments: Seq<R::Segment>,
    error: R::IoError,
) -> bool {
    exists|failed: int|
        {
            &&& 0 <= failed < segments.len()
            &&& #[trigger] opens_as::<R>(segments[failed], Err(error))
            &&& forall|i: int| 0 <= i < failed ==> may_open::<R>(#[trigger] segments[i])
        }
}

/// The opened readers of the segments of one index snapshot, in the index's
/// order. The position of a reader is the `SegmentLocalId` of its segment.
#[derive(Debug)]
pub struct Searcher<R: SegmentReader> {
    segments: Vec<R>,
}

impl<R: SegmentReader> Searcher<R> {
    /// Every position is a `SegmentLocalId`.
    #[verifier::type_invariant]
    spec fn addressable(&self) -> bool {
        self.segments@.len() <= SegmentLocalId::MAX
    }

    /// The readers, in the order of their segments.
    pub closed spec fn readers(&self) -> Seq<R> {
        self.segments@
    }

    /// The calls that a search for `terms` makes on its collector for the
    /// first `segments` segments: for each segment in turn, `set_segment` with
    /// its id and then `collect` for each of its matching documents.
    pub open spec fn calls_through(&self, terms: Seq<R::Term>, segments: nat) -> Seq<Call>
        decreases segments,
    {
        if segments == 0 {
            Seq::empty()
        } else {
            let last = (segments - 1) as nat;
            self.calls_through(terms, last) + segment_calls(
                last as SegmentLocalId,
                self.readers()[last as int].postings(terms),
            )
        }
    }

    /// The calls that a search for `terms` makes on its collector when nothing
    /// fails.
    pub open spec fn calls_of(&self, terms: Seq<R::Term>) -> Seq<Call> {
        self.calls_through(terms, self.readers().len())
    }

    /// The calls that a search for `terms` makes on its collector when it
    /// fails at the segment `failed`: all the calls for the segments before
    /// it, and `set_segment` for the segment itself.
    pub open spec fn calls_until_failure(&self, terms: Seq<R::Term>, failed: nat) -> Seq<Call> {
        self.calls_through(terms, failed).push(Call::SetSegment(failed as SegmentLocalId))
    }

    /// In a search for `terms` whose collector had received `before` when the
    /// search began, the collector may accept the segment `segment` when it is
    /// told of it (`refusal` is `None`) or refuse it with an error (`refusal`
    /// is that error): it has then received the calls for all segments before
    /// it, and is handed the segment's id and its reader.
    pub open spec fn tells<C: Collector<R>>(
        &self,
        terms: Seq<R::Term>,
        before: Seq<Call>,
        segment: nat,
        refusal: Option<R::IoError>,
    ) -> bool {
        told_as::<R, C>(
            before + self.calls_through(terms, segment),
            segment as SegmentLocalId,
            self.readers()[segment as int],
            refusal,
        )
    }

    /// In a search for `terms`, the reader of the segment `segment` may find
    /// the matching documents when it is asked for them.
    pub open spec fn finds(&self, terms: Vec<R::Term>, segment: nat) -> bool {
        exists|postings: R::Postings| #[trigger]
            searches_as(self.readers()[segment as int], terms, Ok(postings))
    }

    /// A search for `terms` whose collector had received `before` when the
    /// search began may get through the segment `segment`: the collector may
    /// accept the segment, and the segment's reader may find the matching
    /// documents.
    pub open spec fn passes<C: Collector<R>>(
        &self,
        terms: Vec<R::Term>,
        before: Seq<Call>,
        segment: nat,
    ) -> bool {
        &&& self.tells::<C>(terms@, before, segment, None)
        &&& self.finds(terms, segment)
    }

    /// A search for `terms` whose collector had received `before` when the
    /// search began may fail with `error` at the segment `segment`: the
    /// collector may refuse the segment with it, or accept the segment and
    /// the segment's reader may then fail with it.
    pub open spec fn fails_at<C: Collector<R>>(
        &self,
        terms: Vec<R::Term>,
        before: Seq<Call>,
        segment: nat,
        error: R::IoError,
    ) -> bool {
        ||| self.tells::<C>(terms@, before, segment, Some(error))
        ||| {
            &&& self.tells::<C>(terms@, before, segment, None)
            &&& searches_as(self.readers()[segment as int], terms, Err(error))
        }
    }

    /// Number of documents that match `terms` in the first `segments`
    /// segments together.
    pub open spec fn matches_through(&self, terms: Seq<R::Term>, segments: nat) -> nat
        decreases segments,
    {
        if segments == 0 {
            0
        } else {
            let last = (segments - 1) as nat;
            self.matches_through(terms, last) + self.readers()[last as int].postings(terms).len()
        }
    }

    /// The calls for the first segments are the beginning of the calls for
    /// more segments.
    pub proof fn lemma_calls_through_grows(&self, terms: Seq<R::Term>, fewer: nat, more: nat)
        requires
            fewer <= more,
        ensures
            self.calls_through(terms, fewer).is_prefix_of(self.calls_through(terms, more)),
        decreases more,
    {
        if fewer < more {
            self.lemma_calls_through_grows(terms, fewer, (more - 1) as nat);
        }
    }

    /// Segments are served strictly one after the other. In the calls of a
    /// search for `terms`, the calls for the segment `segment` stand together:
    /// before them stand the calls for the segments before it and nothing
    /// else, then comes `set_segment` for the segment, then `collect` for each
    /// of its matching documents in the reader's order, and only then the
    /// calls for the segments behind it.
    pub proof fn lemma_segment_sequencing(&self, terms: Seq<R::Term>, segment: nat)
        requires
            segment < self.readers().len(),
        ensures
            ({
                let calls = self.calls_of(terms);
                let start = self.calls_through(terms, segment).len() as int;
                let postings = self.readers()[segment as int].postings(terms);
                &&& start + 1 + postings.len() <= calls.len()
                &&& calls.take(start) == self.calls_through(terms, segment)
                &&& calls[start] == Call::SetSegment(segment as SegmentLocalId)
                &&& forall|j: int|
                    0 <= j < postings.len() ==> #[trigger] calls[start + 1 + j] == Call::Collect(
                        postings[j],
                    )
                &&& calls.take(start + 1 + postings.len()) == self.calls_through(terms, segment + 1)
            }),
    {
        let calls = self.calls_of(terms);
        let before = self.calls_through(terms, segment);
        let through = self.calls_through(terms, segment + 1);
        let postings = self.readers()[segment as int].postings(terms);
        self.lemma_calls_through_grows(terms, segment, self.readers().len());
        self.lemma_calls_through_grows(terms, segment + 1, self.readers().len());
        assert(through == before + segment_calls(segment as SegmentLocalId, postings));
        assert(calls.take(before.len() as int) =~= before);
        assert(calls.take(through.len() as int) =~= through);
        assert(calls[before.len() as int] == through[before.len() as int]);
        assert forall|j: int| 0 <= j < postings.len() implies #[trigger] calls[before.len() + 1 + j]
            == Call::Collect(postings[j]) by {
            assert(calls[before.len() + 1 + j] == through[before.len() + 1 + j]);
        }
    }

    /// A search can be repeated. Two searches for the same terms that both go
    /// through make the same calls in the same order, so two collectors that
    /// had received the same calls before have received the same calls after.
    pub proof fn lemma_search_repeats(
        &self,
        terms: Seq<R::Term>,
        before_first: Seq<Call>,
        after_first: Seq<Call>,
        before_second: Seq<Call>,
        after_second: Seq<Call>,
    )
        requires
            after_first == before_first + self.calls_of(terms),
            after_second == before_second + self.calls_of(terms),
        ensures
            after_first.skip(before_first.len() as int) == after_second.skip(
                before_second.len() as int,
            ),
            before_first == before_second ==> after_first == after_second,
    {
        assert(after_first.skip(before_first.len() as int) =~= self.calls_of(terms));
        assert(after_second.skip(before_second.len() as int) =~= self.calls_of(terms));
    }

    /// A search hands over each matching document once: the calls for the
    /// first `segments` segments hold as many `collect` calls as these
    /// segments have matching documents.
    pub proof fn lemma_collected_matches(&self, terms: Seq<R::Term>, segments: nat)
        ensures
            collected(self.calls_through(terms, segments)) == self.matches_through(terms, segments),
        decreases segments,
    {
        if segments > 0 {
            let last = (segments - 1) as nat;
            let postings = self.readers()[last as int].postings(terms);
            self.lemma_collected_matches(terms, last);
            lemma_collected_segment(last as SegmentLocalId, postings);
            lemma_collected_add(
                self.calls_through(terms, last),
                segment_calls(last as SegmentLocalId, postings),
            );
        }
    }

    /// Number of segments.
    pub fn num_segments(&self) -> (count: usize)
        ensures
            count == self.readers().len(),
            count <= SegmentLocalId::MAX,
    {
        proof {
            use_type_invariant(self);
        }
        self.segments.len()
    }

    /// The document at `doc_address`: what the reader of the segment
    /// `doc_address.0` fetches for the document `doc_address.1`. Where the
    /// searcher has no such segment, the reader of no segment is asked.
    pub fn doc(&self, doc_address: &DocAddress) -> (fetched: Result<
        R::Document,
        DocError<R::IoError>,
    >)
        ensures
            doc_address.0 >= self.readers().len() ==> fetched == Err::<
                R::Document,
                DocError<R::IoError>,
            >(DocError::IndexOutOfRange),
            doc_address.0 < self.readers().len() ==> match fetched {
                Ok(document) => fetches_as(
                    self.readers()[doc_address.0 as int],
                    doc_address.1,
                    Ok(document),
                ),
                Err(DocError::Io(error)) => fetches_as(
                    self.readers()[doc_address.0 as int],
                    doc_address.1,
                    Err(error),
                ),
                Err(DocError::IndexOutOfRange) => false,
            },
    {
        let DocAddress(segment_local_id, doc_id) = *doc_address;
        let position = segment_local_id as usize;
        if position >= self.segments.len() {
            return Err(DocError::IndexOutOfRange);
        }
        let segment_reader = &self.segments[position];
        match segment_reader.doc(doc_id) {
            Ok(document) => Ok(document),
            Err(error) => Err(DocError::Io(error)),
        }
    }

    /// Opens a reader on `segment` and puts it behind the readers held so far.
    /// Where the segment cannot be opened, the searcher stays as it is.
    fn add_segment(&mut self, segment: R::Segment) -> (added: Result<(), R::IoError>)
        requires
            old(self).readers().len() < SegmentLocalId::MAX,
        ensures
            match added {
                Ok(()) => {
                    &&& final(self).readers().len() == old(self).readers().len() + 1
                    &&& final(self).readers().drop_last() == old(self).readers()
                    &&& opens_as(segment, Ok(final(self).readers().last()))
                },
                Err(error) => {
                    &&& final(self).readers() == old(self).readers()
                    &&& opens_as::<R>(segment, Err(error))
                },
            },
    {
        match R::open(segment) {
            Ok(segment_reader) => {
                let mut segments = Vec::new();
                std::mem::swap(&mut segments, &mut self.segments);
                segments.push(segment_reader);
                self.segments = segments;
                Ok(())
            },
            Err(error) => Err(error),
        }
    }

    fn new() -> (searcher: Searcher<R>)
        ensures
            searcher.readers().len() == 0,
    {
        Searcher { segments: Vec::new() }
    }

    /// Opens every segment of `index`, in the index's order. The reader at
    /// position `i` is what opening the `i`-th segment returned. The first
    /// segment that cannot be opened ends the construction with its error, and
    /// the segments behind it are not tried.
    pub fn for_index(index: Index<R::Segment>) -> (built: Result<Searcher<R>, R::IoError>)
        requires
            index@.len() <= SegmentLocalId::MAX,
        ensures
            match built {
                Ok(searcher) => {
                    &&& searcher.readers().len() == index@.len()
                    &&& forall|i: int|
                        0 <= i < index@.len() ==> opens_as(
                            index@[i],
                            Ok(#[trigger] searcher.readers()[i]),
                        )
                },
                Err(error) => first_failure::<R>(index@, error),
            },
    {
        let ghost all = index@;
        let mut searcher = Searcher::new();
        for segment in it: index.segments()
            invariant
                it.seq() == all,
                all == index@,
                all.len() <= SegmentLocalId::MAX,
                searcher.readers().len() == it.index(),
                forall|i: int|
                    0 <= i < it.index() ==> opens_as(all[i], Ok(#[trigger] searcher.readers()[i])),
        {
            let ghost before = searcher.readers();
            match searcher.add_segment(segment) {
                Ok(()) => {
                    assert forall|i: int| 0 <= i < it.index() + 1 implies opens_as(
                        all[i],
                        Ok(#[trigger] searcher.readers()[i]),
                    ) by {
                        if i < it.index() {
                            assert(searcher.readers()[i] == before[i]);
                        }
                    }
                },
                Err(error) => {
                    assert forall|i: int| 0 <= i < it.index() implies may_open::<R>(
                        #[trigger] all[i],
                    ) by {
                        assert(opens_as(all[i], Ok(before[i])));
                    }
                    return Err(error);
                },
            }
        }
        Ok(searcher)
    }

    /// Runs a query over every segment, in the searcher's order, and returns
    /// the time each step took.
    ///
    /// For each segment the collector is told the segment's id and its reader,
    /// then the reader is asked for the documents that match `terms`, then
    /// each of them is handed to the collector in the reader's order. An error
    /// from the collector or the reader ends the search at once: the segments
    /// behind it are not touched, and what the collector has received stays
    /// with it.
    pub fn search<C: Collector<R>>(&self, terms: &Vec<R::Term>, collector: &mut C) -> (timed: Result<
        TimerTree,
        R::IoError,
    >)
        ensures
            match timed {
                Ok(timer_tree) => {
                    &&& final(collector).calls() == old(collector).calls() + self.calls_of(terms@)
                    &&& forall|segment: nat|
                        segment < self.readers().len() ==> #[trigger] self.passes::<C>(
                            *terms,
                            old(collector).calls(),
                            segment,
                        )
                    &&& timer_tree.depth() == 0
                    &&& timer_tree.roots().len() == 1
                    &&& is_search_scope(timer_tree.roots()[0], self.readers().len())
                    &&& timer_tree.roots()[0].nested()
                },
                Err(error) => exists|failed: nat|
                    {
                        &&& failed < self.readers().len()
                        &&& final(collector).calls() == old(collector).calls()
                            + #[trigger] self.calls_until_failure(terms@, failed)
                        &&& forall|segment: nat|
                            segment < failed ==> #[trigger] self.passes::<C>(
                                *terms,
                                old(collector).calls(),
                                segment,
                            )
                        &&& self.fails_at::<C>(*terms, old(collector).calls(), failed, error)
                    },
            },
            self.readers().len() == 0 ==> timed is Ok,
    {
        proof {
            use_type_invariant(self);
        }
        let ghost before = collector.calls();
        let mut timer_tree = TimerTree::new();
        timer_tree.open("search");
        let mut segment_ord: usize = 0;
        while segment_ord < self.segments.len()
            invariant
                segment_ord <= self.segments.len() <= SegmentLocalId::MAX,
                self.readers() == self.segments@,
                before == old(collector).calls(),
                timer_tree.wf(),
                timer_tree.roots().len() == 0,
                timer_tree.frames().len() == 1,
                timer_tree.frames()[0].name == "search"@,
                timer_tree.frames()[0].children.len() == segment_ord,
                forall|i: int|
                    0 <= i < segment_ord ==> is_segment_scope(
                        #[trigger] timer_tree.frames()[0].children[i],
                    ),
                collector.calls() == before + self.calls_through(terms@, segment_ord as nat),
                forall|segment: nat|
                    segment < segment_ord ==> #[trigger] self.passes::<C>(*terms, before, segment),
            decreases self.segments.len() - segment_ord,
        {
            let segment_reader = &self.segments[segment_ord];
            let segment_local_id = segment_ord as SegmentLocalId;
            timer_tree.open("segment_search");

            timer_tree.open("set_segment");
            let told = collector.set_segment(segment_local_id, segment_reader);
            timer_tree.close();
            assert(self.tells::<C>(terms@, before, segment_ord as nat, told.err()));
            if let Err(error) = told {
                assert(collector.calls() == before + self.calls_until_failure(
                    terms@,
                    segment_ord as nat,
                ));
                return Err(error);
            }

            timer_tree.open("get_postings");
            let ghost asked = timer_tree.frames();
            let found = segment_reader.search(terms, &mut timer_tree);
            assert(searches_as(*segment_reader, *terms, found));
            assert(timer_tree.frames().drop_last()[1] == asked.drop_last()[1]);
            timer_tree.close();
            let mut postings = match found {
                Ok(postings) => postings,
                Err(error) => {
                    assert(collector.calls() == before + self.calls_until_failure(
                        terms@,
                        segment_ord as nat,
                    ));
                    return Err(error);
                },
            };

            timer_tree.open("collection");
            collect_all::<R, R::Postings, C>(&mut postings, collector);
            timer_tree.close();

            timer_tree.close();
            segment_ord += 1;
        }
        timer_tree.close();
        Ok(timer_tree)
    }
}

} // verus!
