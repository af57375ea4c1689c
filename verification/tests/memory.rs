use searcher::{
    collect_all, Call, CallRecorder, Collector, CountCollector, MemDocument, MemError, MemReader,
    MemSegment, PostingList, Postings, SegmentReader, TimerTree,
};

fn segment(dictionary: Vec<(u64, Vec<u32>)>) -> MemSegment {
    MemSegment {
        documents: (0..10u8).map(|i| MemDocument { stored: vec![i] }).collect(),
        dictionary: dictionary
            .into_iter()
            .map(|(term, doc_ids)| PostingList { term, doc_ids })
            .collect(),
    }
}

fn matching(reader: &MemReader, terms: Vec<u64>) -> Result<Vec<u32>, MemError> {
    let mut timer = TimerTree::new();
    timer.open("get_postings");
    let found = reader.search(&terms, &mut timer);
    timer.close();
    let inside: Vec<&str> = timer.timings()[0].children.iter().map(|scope| scope.name).collect();
    if found.is_ok() {
        assert_eq!(inside, vec!["check_postings", "intersect_postings"]);
    } else {
        assert_eq!(inside, vec!["check_postings"]);
    }
    let mut postings = found?;
    let mut found = Vec::new();
    while let Some(doc_id) = postings.next() {
        found.push(doc_id);
    }
    assert_eq!(postings.next(), None);
    Ok(found)
}

#[test]
fn sorted_dictionary_opens() {
    assert!(segment(vec![]).is_sorted());
    assert!(segment(vec![(3, vec![])]).is_sorted());
    assert!(segment(vec![(1, vec![]), (2, vec![]), (9, vec![])]).is_sorted());
    assert!(MemReader::open(segment(vec![(1, vec![]), (2, vec![])])).is_ok());
}

#[test]
fn unsorted_dictionary_does_not_open() {
    assert!(!segment(vec![(2, vec![]), (1, vec![])]).is_sorted());
    assert!(!segment(vec![(1, vec![]), (1, vec![])]).is_sorted());
    assert!(!segment(vec![(1, vec![]), (5, vec![]), (3, vec![])]).is_sorted());
    let opened = MemReader::open(segment(vec![(1, vec![]), (5, vec![]), (3, vec![])]));
    assert_eq!(opened.err(), Some(MemError::UnsortedDictionary));
}

#[test]
fn one_term_matches_its_list_in_the_list_order() {
    let reader =
        MemReader::open(segment(vec![(1, vec![4, 2, 9]), (3, vec![0]), (8, vec![7, 7])])).unwrap();
    assert_eq!(matching(&reader, vec![1]), Ok(vec![4, 2, 9]));
    assert_eq!(matching(&reader, vec![3]), Ok(vec![0]));
    assert_eq!(matching(&reader, vec![8]), Ok(vec![7, 7]));
}

#[test]
fn several_terms_match_the_documents_that_have_them_all() {
    let reader = MemReader::open(segment(vec![
        (1, vec![4, 2, 9, 5]),
        (3, vec![5, 9, 1, 4]),
        (8, vec![9, 4, 0]),
    ]))
    .unwrap();
    assert_eq!(matching(&reader, vec![1, 3]), Ok(vec![4, 9, 5]));
    assert_eq!(matching(&reader, vec![3, 1]), Ok(vec![5, 9, 4]));
    assert_eq!(matching(&reader, vec![1, 3, 8]), Ok(vec![4, 9]));
    assert_eq!(matching(&reader, vec![8, 8]), Ok(vec![9, 4, 0]));
}

#[test]
fn unknown_term_and_no_terms_match_nothing() {
    let reader = MemReader::open(segment(vec![(1, vec![4, 2]), (3, vec![4])])).unwrap();
    assert_eq!(matching(&reader, vec![2]), Ok(vec![]));
    assert_eq!(matching(&reader, vec![1, 2]), Ok(vec![]));
    assert_eq!(matching(&reader, vec![2, 1]), Ok(vec![]));
    assert_eq!(matching(&reader, vec![]), Ok(vec![]));
}

#[test]
fn dangling_posting_fails_the_search() {
    let reader = MemReader::open(segment(vec![(1, vec![4, 10]), (3, vec![4])])).unwrap();
    assert_eq!(matching(&reader, vec![1]), Err(MemError::DanglingPosting));
    assert_eq!(matching(&reader, vec![3, 1]), Err(MemError::DanglingPosting));
    assert_eq!(matching(&reader, vec![3]), Ok(vec![4]));
}

#[test]
fn reader_fetches_a_copy_of_the_stored_document() {
    let reader = MemReader::open(segment(vec![])).unwrap();
    assert_eq!(reader.doc(0), Ok(MemDocument { stored: vec![0] }));
    assert_eq!(reader.doc(9), Ok(MemDocument { stored: vec![9] }));
    assert_eq!(reader.doc(10), Err(MemError::NoSuchDocument));
}

#[test]
fn collect_all_hands_over_what_is_left() {
    let reader = MemReader::open(segment(vec![(1, vec![4, 2, 9])])).unwrap();
    let mut timer = TimerTree::new();
    timer.open("get_postings");
    let mut postings = reader.search(&vec![1], &mut timer).unwrap();
    assert_eq!(postings.next(), Some(4));
    let mut recorder = CallRecorder::new();
    collect_all::<MemReader, _, _>(&mut postings, &mut recorder);
    assert_eq!(recorder.calls, vec![Call::Collect(2), Call::Collect(9)]);
    assert_eq!(postings.next(), None);
    collect_all::<MemReader, _, _>(&mut postings, &mut recorder);
    assert_eq!(recorder.calls.len(), 2);
}

#[test]
fn count_collector_counts_documents_only() {
    let reader = MemReader::open(segment(vec![])).unwrap();
    let mut counter = CountCollector::new();
    assert_eq!(counter.count(), 0);
    assert_eq!(counter.set_segment(0, &reader), Ok(()));
    assert_eq!(counter.count(), 0);
    Collector::<MemReader>::collect(&mut counter, 3);
    Collector::<MemReader>::collect(&mut counter, 3);
    assert_eq!(counter.set_segment(1, &reader), Ok(()));
    Collector::<MemReader>::collect(&mut counter, 0);
    assert_eq!(counter.count(), 3);
}

#[test]
fn call_recorder_keeps_every_call() {
    let reader = MemReader::open(segment(vec![])).unwrap();
    let mut recorder = CallRecorder::new();
    assert!(recorder.calls.is_empty());
    Collector::<MemReader>::collect(&mut recorder, 8);
    assert_eq!(recorder.set_segment(5, &reader), Ok(()));
    Collector::<MemReader>::collect(&mut recorder, 1);
    assert_eq!(recorder.calls, vec![Call::Collect(8), Call::SetSegment(5), Call::Collect(1)]);
}
