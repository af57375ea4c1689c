use searcher::{
    DocAddress, DocError, Index, MemDocument, MemError, MemReader, MemSegment, Searcher,
    SegmentReader,
};

fn stored(bytes: &[u8]) -> MemDocument {
    MemDocument { stored: bytes.to_vec() }
}

fn first_segment() -> MemSegment {
    MemSegment { documents: vec![stored(b"zero"), stored(b"one")], dictionary: vec![] }
}

fn second_segment() -> MemSegment {
    MemSegment { documents: vec![stored(b"a"), stored(b"b"), stored(b"c")], dictionary: vec![] }
}

fn searcher() -> Searcher<MemReader> {
    Searcher::for_index(Index::new(vec![first_segment(), second_segment()])).unwrap()
}

#[test]
fn doc_is_what_the_segment_reader_fetches() {
    let searcher = searcher();
    let readers =
        [MemReader::open(first_segment()).unwrap(), MemReader::open(second_segment()).unwrap()];
    for (segment_local_id, reader) in readers.iter().enumerate() {
        for doc_id in 0..5u32 {
            let through_searcher = searcher.doc(&DocAddress(segment_local_id as u32, doc_id));
            match reader.doc(doc_id) {
                Ok(document) => assert_eq!(through_searcher, Ok(document)),
                Err(error) => assert_eq!(through_searcher, Err(DocError::Io(error))),
            }
        }
    }
}

#[test]
fn doc_fetches_the_addressed_document() {
    let searcher = searcher();
    assert_eq!(searcher.doc(&DocAddress(0, 1)), Ok(stored(b"one")));
    assert_eq!(searcher.doc(&DocAddress(1, 0)), Ok(stored(b"a")));
    assert_eq!(searcher.doc(&DocAddress(1, 2)), Ok(stored(b"c")));
}

#[test]
fn doc_with_segment_id_out_of_range_is_an_addressing_error() {
    let searcher = searcher();
    assert_eq!(searcher.doc(&DocAddress(2, 0)), Err(DocError::IndexOutOfRange));
    assert_eq!(searcher.doc(&DocAddress(3, 1)), Err(DocError::IndexOutOfRange));
    assert_eq!(searcher.doc(&DocAddress(u32::MAX, 0)), Err(DocError::IndexOutOfRange));
}

#[test]
fn doc_without_segments_is_an_addressing_error() {
    let searcher = Searcher::<MemReader>::for_index(Index::new(vec![])).unwrap();
    assert_eq!(searcher.doc(&DocAddress(0, 0)), Err(DocError::IndexOutOfRange));
}

#[test]
fn doc_that_the_segment_does_not_hold_is_an_io_error() {
    let searcher = searcher();
    assert_eq!(searcher.doc(&DocAddress(0, 2)), Err(DocError::Io(MemError::NoSuchDocument)));
    assert_eq!(searcher.doc(&DocAddress(1, 3)), Err(DocError::Io(MemError::NoSuchDocument)));
}

#[test]
fn doc_address_is_a_plain_value() {
    let address = DocAddress(4, 9);
    let copy = address;
    assert_eq!(address, copy);
    assert_eq!(address.0, 4);
    assert_eq!(address.1, 9);
    assert_ne!(address, DocAddress(9, 4));
}

#[test]
fn index_keeps_the_order_of_its_segments() {
    let index = Index::new(vec![3u8, 1, 2]);
    assert_eq!(index.segments(), vec![3u8, 1, 2]);
}
