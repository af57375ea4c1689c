//! Segments held in memory, and a reader for them.
//!
//! A segment is a list of documents and a dictionary that gives, for each
//! term, the documents that contain it. A query matches the documents that
//! contain every one of its terms.

use crate::address::DocId;
use crate::reader::{Postings, SegmentReader};
use crate::timer::TimerTree;
use vstd::prelude::*;

verus! {

/// Atom of a query on a segment in memory.
pub type Term = u64;

/// Why an access to a segment in memory failed.
#[derive(Clone, Copy, Debug, PartialEq, Eq, Structural)]
pub enum MemError {
    /// The terms of the segment's dictionary are not in strictly rising order.
    UnsortedDictionary,
    /// The dictionary names a document that the segment does not hold.
    DanglingPosting,
    /// The segment holds no document under the identifier asked for.
    NoSuchDocument,
}

/// What a segment in memory stores for one document.
#[derive(Debug, PartialEq, Eq)]
pub struct MemDocument {
    pub stored: Vec<u8>,
}

/// The documents that contain one term.
#[derive(Debug)]
pub struct PostingList {
    pub term: Term,
    pub doc_ids: Vec<DocId>,
}

/// A segment in memory. The identifier of a document is its position in
/// `documents`.
#[derive(Debug)]
pub struct MemSegment {
    pub documents: Vec<MemDocument>,
    pub dictionary: Vec<PostingList>,
}

/// Every document of `doc_ids` has an identifier below `documents`.
pub open spec fn all_below(doc_ids: Seq<DocId>, documents: nat) -> bool {
    forall|j: int| 0 <= j < doc_ids.len() ==> (#[trigger] doc_ids[j]) < documents
}

impl MemSegment {
    /// The terms of the dictionary are in strictly rising order.
    pub open spec fn sorted(&self) -> bool {
        forall|i: int, j: int|
            0 <= i < j < self.dictionary@.len() ==> (#[trigger] self.dictionary@[i]).term < (
            #[trigger] self.dictionary@[j]).term
    }

    /// The dictionary has an entry for `term` at `at`.
    pub open spec fn entry_at(&self, term: Term, at: int) -> bool {
        0 <= at < self.dictionary@.len() && self.dictionary@[at].term == term
    }

    /// The documents that the dictionary gives for `term`: those of its entry
    /// for the term, and none where it has no such entry.
    pub open spec fn list(&self, term: Term) -> Seq<DocId> {
        if exists|at: int| self.entry_at(term, at) {
            self.dictionary@[choose|at: int| self.entry_at(term, at)].doc_ids@
        } else {
            Seq::empty()
        }
    }

    /// The dictionary gives `doc_id` for every term of `terms`.
    pub open spec fn in_all(&self, terms: Seq<Term>, doc_id: DocId) -> bool {
        forall|k: int| 0 <= k < terms.len() ==> self.list(#[trigger] terms[k]).contains(doc_id)
    }

    /// `in_all` as a function of the document.
    pub open spec fn in_all_of(&self, terms: Seq<Term>) -> spec_fn(DocId) -> bool {
        |doc_id: DocId| self.in_all(terms, doc_id)
    }

    /// The documents that match `terms`: those that the dictionary gives for
    /// every term, in the order of the first term's entry. Without terms
    /// nothing matches.
    pub open spec fn matching(&self, terms: Seq<Term>) -> Seq<DocId> {
        if terms.len() == 0 {
            Seq::empty()
        } else {
            self.list(terms[0]).filter(self.in_all_of(terms))
        }
    }

    /// The segment holds every document that the dictionary gives for a term
    /// of `terms`.
    pub open spec fn resolvable(&self, terms: Seq<Term>) -> bool {
        forall|k: int|
            0 <= k < terms.len() ==> all_below(
                self.list(#[trigger] terms[k]),
                self.documents@.len(),
            )
    }

    /// In a sorted dictionary the entry for a term is the only one.
    pub proof fn lemma_entry_is_list(&self, term: Term, at: int)
        requires
            self.sorted(),
            self.entry_at(term, at),
        ensures
            self.list(term) == self.dictionary@[at].doc_ids@,
    {
        let chosen = choose|at: int| self.entry_at(term, at);
        assert(self.entry_at(term, chosen));
        if chosen < at {
            assert(self.dictionary@[chosen].term < self.dictionary@[at].term);
        } else if at < chosen {
            assert(self.dictionary@[at].term < self.dictionary@[chosen].term);
        }
    }

    /// Whether the terms of the dictionary are in strictly rising order.
    pub fn is_sorted(&self) -> (sorted: bool)
        ensures
            sorted == self.sorted(),
    {
        if self.dictionary.len() < 2 {
            return true;
        }
        let mut next: usize = 1;
        while next < self.dictionary.len()
            invariant
                1 <= next <= self.dictionary.len(),
                forall|i: int, j: int|
                    0 <= i < j < next ==> (#[trigger] self.dictionary@[i]).term < (
                    #[trigger] self.dictionary@[j]).term,
            decreases self.dictionary.len() - next,
        {
            if self.dictionary[next - 1].term >= self.dictionary[next].term {
                assert(!(self.dictionary@[next - 1].term < self.dictionary@[next as int].term));
                return false;
            }
            proof {
                let last = self.dictionary@[next as int].term;
                assert forall|i: int| 0 <= i < next implies (#[trigger] self.dictionary@[i]).term
                    < last by {
                    if i < next - 1 {
                        assert(self.dictionary@[i].term < self.dictionary@[next - 1].term);
                    }
                }
            }
            next += 1;
        }
        true
    }

    /// The position of the dictionary's entry for `term`.
    fn find(&self, term: Term) -> (found: Option<usize>)
        requires
            self.sorted(),
        ensures
            match found {
                Some(at) => self.entry_at(term, at as int),
                None => forall|at: int| !self.entry_at(term, at),
            },
    {
        let mut low: usize = 0;
        let mut high: usize = self.dictionary.len();
        while low < high
            invariant
                low <= high <= self.dictionary.len(),
                self.sorted(),
                forall|i: int| 0 <= i < low ==> (#[trigger] self.dictionary@[i]).term < term,
                forall|i: int|
                    high <= i < self.dictionary@.len() ==> (#[trigger] self.dictionary@[i]).term
                        > term,
            decreases high - low,
        {
            let middle = low + (high - low) / 2;
            let seen = self.dictionary[middle].term;
            if seen == term {
                return Some(middle);
            } else if seen < term {
                assert forall|i: int| 0 <= i < middle + 1 implies (#[trigger] self.dictionary@[i]).term
                    < term by {
                    if i < middle {
                        assert(self.dictionary@[i].term < self.dictionary@[middle as int].term);
                    }
                }
                low = middle + 1;
            } else {
                assert forall|i: int| middle <= i < self.dictionary@.len() implies (
                #[trigger] self.dictionary@[i]).term > term by {
                    if middle < i {
                        assert(self.dictionary@[middle as int].term < self.dictionary@[i].term);
                    }
                }
                high = middle;
            }
        }
        None
    }

    /// Whether the dictionary gives `doc_id` for `term`.
    fn gives(&self, term: Term, doc_id: DocId) -> (given: bool)
        requires
            self.sorted(),
        ensures
            given == self.list(term).contains(doc_id),
    {
        match self.find(term) {
            None => false,
            Some(at) => {
                proof {
                    self.lemma_entry_is_list(term, at as int);
                }
                let doc_ids = &self.dictionary[at].doc_ids;
                let mut j: usize = 0;
                while j < doc_ids.len()
                    invariant
                        j <= doc_ids.len(),
                        doc_ids@ == self.list(term),
                        forall|i: int| 0 <= i < j ==> doc_ids@[i] != doc_id,
                    decreases doc_ids.len() - j,
                {
                    if doc_ids[j] == doc_id {
                        return true;
                    }
                    j += 1;
                }
                false
            },
        }
    }

    /// Whether the dictionary gives `doc_id` for every term of `terms`.
    fn gives_all(&self, terms: &Vec<Term>, doc_id: DocId) -> (given: bool)
        requires
            self.sorted(),
        ensures
            given == self.in_all(terms@, doc_id),
    {
        let mut k: usize = 0;
        while k < terms.len()
            invariant
                k <= terms.len(),
                self.sorted(),
                forall|i: int| 0 <= i < k ==> self.list(#[trigger] terms@[i]).contains(doc_id),
            decreases terms.len() - k,
        {
            if !self.gives(terms[k], doc_id) {
                return false;
            }
            k += 1;
        }
        true
    }

    /// Whether the segment holds every document that the dictionary gives for
    /// `term`.
    fn holds_list(&self, term: Term) -> (held: bool)
        requires
            self.sorted(),
        ensures
            held == all_below(self.list(term), self.documents@.len()),
    {
        match self.find(term) {
            None => true,
            Some(at) => {
                proof {
                    self.lemma_entry_is_list(term, at as int);
                }
                let doc_ids = &self.dictionary[at].doc_ids;
                let mut j: usize = 0;
                while j < doc_ids.len()
                    invariant
                        j <= doc_ids.len(),
                        doc_ids@ == self.list(term),
                        forall|i: int| 0 <= i < j ==> (#[trigger] doc_ids@[i]) < self.documents@.len(),
                    decreases doc_ids.len() - j,
                {
                    if doc_ids[j] as usize >= self.documents.len() {
                        return false;
                    }
                    j += 1;
                }
                true
            },
        }
    }

    /// Whether the segment holds every document that the dictionary gives for
    /// a term of `terms`.
    fn holds_lists(&self, terms: &Vec<Term>) -> (held: bool)
        requires
            self.sorted(),
        ensures
            held == self.resolvable(terms@),
    {
        let mut k: usize = 0;
        while k < terms.len()
            invariant
                k <= terms.len(),
                self.sorted(),
                forall|i: int|
                    0 <= i < k ==> all_below(self.list(#[trigger] terms@[i]), self.documents@.len()),
            decreases terms.len() - k,
        {
            if !self.holds_list(terms[k]) {
                return false;
            }
            k += 1;
        }
        true
    }

    /// The documents that match `terms`.
    fn matches(&self, terms: &Vec<Term>) -> (doc_ids: Vec<DocId>)
        requires
            self.sorted(),
        ensures
            doc_ids@ == self.matching(terms@),
    {
        let mut matched: Vec<DocId> = Vec::new();
        if terms.len() == 0 {
            return matched;
        }
        let at = match self.find(terms[0]) {
            None => {
                proof {
                    reveal(Seq::filter);
                }
                return matched;
            },
            Some(at) => at,
        };
        proof {
            self.lemma_entry_is_list(terms@[0], at as int);
            reveal(Seq::filter);
        }
        let candidates = &self.dictionary[at].doc_ids;
        let mut j: usize = 0;
        while j < candidates.len()
            invariant
                j <= candidates.len(),
                self.sorted(),
                matched@ == candidates@.take(j as int).filter(self.in_all_of(terms@)),
            decreases candidates.len() - j,
        {
            let doc_id = candidates[j];
            proof {
                reveal(Seq::filter);
                assert(candidates@.take(j + 1).drop_last() == candidates@.take(j as int));
            }
            if self.gives_all(terms, doc_id) {
                matched.push(doc_id);
            }
            j += 1;
        }
        assert(candidates@.take(j as int) == candidates@);
        matched
    }
}

/// The matching documents of one query on a segment in memory.
pub struct MemPostings {
    doc_ids: Vec<DocId>,
    /// Number of documents handed out.
    position: usize,
}

impl MemPostings {
    #[verifier::type_invariant]
    spec fn in_bounds(&self) -> bool {
        self.position <= self.doc_ids@.len()
    }

    /// The documents not handed out yet.
    pub closed spec fn left(&self) -> Seq<DocId> {
        self.doc_ids@.skip(self.position as int)
    }
}

impl Postings for MemPostings {
    open spec fn remaining(&self) -> Seq<DocId> {
        self.left()
    }

    fn next(&mut self) -> (doc: Option<DocId>) {
        proof {
            use_type_invariant(&*self);
        }
        if self.position < self.doc_ids.len() {
            let doc_id = self.doc_ids[self.position];
            self.position = self.position + 1;
            Some(doc_id)
        } else {
            None
        }
    }
}

/// Reader of a segment in memory. It can only be opened on a segment whose
/// dictionary is sorted.
pub struct MemReader {
    segment: MemSegment,
}

impl MemReader {
    #[verifier::type_invariant]
    spec fn searchable(&self) -> bool {
        self.segment.sorted()
    }

    /// The segment that this reader reads.
    pub closed spec fn segment(&self) -> MemSegment {
        self.segment
    }
}

impl SegmentReader for MemReader {
    type Segment = MemSegment;

    type Term = Term;

    type Document = MemDocument;

    type IoError = MemError;

    type Postings = MemPostings;

    open spec fn postings(&self, terms: Seq<Term>) -> Seq<DocId> {
        self.segment().matching(terms)
    }

    /// Opens a reader on `segment`, which has to have a sorted dictionary.
    fn open(segment: MemSegment) -> (opened: Result<MemReader, MemError>)
        ensures
            match opened {
                Ok(reader) => segment.sorted() && reader.segment() == segment,
                Err(error) => !segment.sorted() && error == MemError::UnsortedDictionary,
            },
    {
        if segment.is_sorted() {
            Ok(MemReader { segment })
        } else {
            Err(MemError::UnsortedDictionary)
        }
    }

    /// The documents that match `terms`. The search fails where the dictionary
    /// gives, for one of the terms, a document that the segment does not hold.
    /// The check of the dictionary is timed in a scope `check_postings`, the
    /// matching in a scope `intersect_postings`.
    fn search(&self, terms: &Vec<Term>, timer: &mut TimerTree) -> (found: Result<
        MemPostings,
        MemError,
    >)
        ensures
            match found {
                Ok(postings) => {
                    &&& self.segment().resolvable(terms@)
                    &&& final(timer).timed_inside(
                        old(timer),
                        seq!["check_postings"@, "intersect_postings"@],
                    )
                },
                Err(error) => {
                    &&& !self.segment().resolvable(terms@)
                    &&& error == MemError::DanglingPosting
                    &&& final(timer).timed_inside(old(timer), seq!["check_postings"@])
                },
            },
    {
        proof {
            use_type_invariant(self);
        }
        timer.open("check_postings");
        let held = self.segment.holds_lists(terms);
        timer.close();
        assert(timer.frames().drop_last() =~= old(timer).frames().drop_last());
        if !held {
            return Err(MemError::DanglingPosting);
        }
        timer.open("intersect_postings");
        let doc_ids = self.segment.matches(terms);
        timer.close();
        assert(timer.frames().drop_last() =~= old(timer).frames().drop_last());
        Ok(MemPostings { doc_ids, position: 0 })
    }

    /// A copy of what the segment stores for `doc_id`.
    fn doc(&self, doc_id: DocId) -> (fetched: Result<MemDocument, MemError>)
        ensures
            match fetched {
                Ok(document) => {
                    &&& doc_id < self.segment().documents@.len()
                    &&& document.stored@ == self.segment().documents@[doc_id as int].stored@
                },
                Err(error) => {
                    &&& doc_id >= self.segment().documents@.len()
                    &&& error == MemError::NoSuchDocument
                },
            },
    {
        let position = doc_id as usize;
        if position >= self.segment.documents.len() {
            return Err(MemError::NoSuchDocument);
        }
        let stored = self.segment.documents[position].stored.clone();
        Ok(MemDocument { stored })
    }
}

} // verus!
