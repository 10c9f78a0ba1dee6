use contamination::boundaries::{locate_document, Boundaries};
use contamination::bytes::read_le;
use contamination::documents::{assign_ids, path_index};
use contamination::error::PipelineError;
use contamination::order::{classify, suffix_precedes, Side};
use contamination::suffix_index::SuffixIndex;

fn abcabc() -> SuffixIndex {
    SuffixIndex::new(b"abcabc".to_vec(), vec![3, 0, 4, 1, 5, 2], 1).unwrap()
}

fn sorted(mut v: Vec<u64>) -> Vec<u64> {
    v.sort();
    v
}

#[test]
fn read_le_reads_low_byte_first() {
    assert_eq!(read_le(&[0x01, 0x02, 0x03], 0, 2), 0x0201);
    assert_eq!(read_le(&[0x01, 0x02, 0x03], 1, 2), 0x0302);
    assert_eq!(read_le(&[0xff; 8], 0, 8), u64::MAX);
    assert_eq!(read_le(&[7, 9], 1, 0), 0);
    assert_eq!(read_le(&[0, 0, 0, 0, 0, 0, 0, 1], 0, 8), 1u64 << 56);
}

#[test]
fn classify_tells_the_three_sides() {
    let text = b"abcabc";
    assert_eq!(classify(text, 0, b"abc"), Side::Within);
    assert_eq!(classify(text, 3, b"abc"), Side::Within);
    assert_eq!(classify(text, 1, b"abc"), Side::Above);
    assert_eq!(classify(text, 0, b"b"), Side::Below);
    assert_eq!(classify(text, 5, b"ca"), Side::Below);
    assert_eq!(classify(text, 6, b"a"), Side::Below);
    assert_eq!(classify(text, 2, b""), Side::Within);
    assert_eq!(classify(text, 4, b"bb"), Side::Above);
}

#[test]
fn suffix_precedes_is_strict() {
    let text = b"abcabc";
    assert!(suffix_precedes(text, 3, 0));
    assert!(!suffix_precedes(text, 0, 3));
    assert!(!suffix_precedes(text, 2, 2));
    assert!(suffix_precedes(text, 0, 4));
    assert!(suffix_precedes(text, 6, 5));
    assert!(!suffix_precedes(text, 5, 6));
    assert!(!suffix_precedes(text, 6, 6));
}

#[test]
fn index_takes_a_suffix_array() {
    let index = abcabc();
    assert_eq!(index.text().as_slice(), &b"abcabc"[..]);
    assert_eq!(index.offset_width(), 1);
    assert_eq!(index.position(0), 3);
    assert_eq!(index.position(5), 2);
}

#[test]
fn index_refuses_what_is_no_suffix_array() {
    let text = b"abcabc".to_vec();
    let refused = |table: Vec<u8>, width: usize| {
        matches!(SuffixIndex::new(text.clone(), table, width), Err(PipelineError::Index))
    };
    assert!(refused(vec![0, 3, 4, 1, 5, 2], 1));
    assert!(refused(vec![3, 0, 4, 1, 5], 1));
    assert!(refused(vec![3, 0, 4, 1, 5, 6], 1));
    assert!(refused(vec![3, 3, 4, 1, 5, 2], 1));
    assert!(refused(vec![3, 0, 4, 1, 5, 2], 0));
    assert!(refused(vec![3, 0, 4, 1, 5, 2], 9));
    assert!(refused(vec![3, 0, 4, 1, 5, 2], 2));
    assert!(refused(vec![], 1));
}

#[test]
fn index_of_an_empty_text() {
    let index = SuffixIndex::new(vec![], vec![], 4).unwrap();
    assert_eq!(index.occurrences(b"a"), Vec::<u64>::new());
    assert_eq!(index.occurrences(b""), Vec::<u64>::new());
}

#[test]
fn wide_entries_are_decoded() {
    let table = vec![3, 0, 0, 0, 4, 0, 1, 0, 5, 0, 2, 0];
    let index = SuffixIndex::new(b"abcabc".to_vec(), table, 2).unwrap();
    assert_eq!(index.offset_width(), 2);
    assert_eq!(index.occurrences(b"bc"), vec![4, 1]);
    let eight: Vec<u8> = [1u64, 0].iter().flat_map(|p| p.to_le_bytes()).collect();
    let index = SuffixIndex::new(b"ba".to_vec(), eight, 8).unwrap();
    assert_eq!(index.occurrences(b"a"), vec![1]);
    assert!(SuffixIndex::new(b"ba".to_vec(), vec![0, 1, 0, 0], 2).is_err());
}

#[test]
fn width_is_inferred_from_the_sizes() {
    let table = vec![3, 0, 0, 0, 4, 0, 1, 0, 5, 0, 2, 0];
    let index = SuffixIndex::from_buffers(b"abcabc".to_vec(), table).unwrap();
    assert_eq!(index.offset_width(), 2);
    assert!(SuffixIndex::from_buffers(b"abcabc".to_vec(), vec![3, 0, 4, 1, 5]).is_err());
    assert!(SuffixIndex::from_buffers(vec![], vec![]).is_ok());
    assert!(SuffixIndex::from_buffers(vec![], vec![0]).is_err());
}

#[test]
fn occurrences_come_in_suffix_order() {
    let index = abcabc();
    assert_eq!(index.occurrences(b"abc"), vec![3, 0]);
    assert_eq!(index.occurrences(b"bc"), vec![4, 1]);
    assert_eq!(index.occurrences(b"c"), vec![5, 2]);
    assert_eq!(index.occurrences(b"abcabc"), vec![0]);
    assert_eq!(index.occurrences(b"cabc"), vec![2]);
}

#[test]
fn occurrences_are_every_position() {
    let index = abcabc();
    assert_eq!(sorted(index.occurrences(b"abc")), vec![0, 3]);
    assert_eq!(sorted(index.occurrences(b"")), vec![0, 1, 2, 3, 4, 5]);
}

#[test]
fn absent_queries_give_nothing() {
    let index = abcabc();
    assert_eq!(index.occurrences(b"abd"), Vec::<u64>::new());
    assert_eq!(index.occurrences(b"abcabca"), Vec::<u64>::new());
    assert_eq!(index.occurrences(b"x"), Vec::<u64>::new());
    assert_eq!(index.occurrences(b"A"), Vec::<u64>::new());
    assert_eq!(index.occurrences(b"ca b"), Vec::<u64>::new());
}

#[test]
fn repeated_bytes() {
    let index = SuffixIndex::new(b"aaaa".to_vec(), vec![3, 2, 1, 0], 1).unwrap();
    assert_eq!(index.occurrences(b"aa"), vec![2, 1, 0]);
    assert_eq!(index.occurrences(b"aaaa"), vec![0]);
    assert_eq!(index.occurrences(b"aaaaa"), Vec::<u64>::new());
}

#[test]
fn boundaries_must_be_well_formed() {
    assert!(Boundaries::new(vec![0, 6]).is_ok());
    assert!(Boundaries::new(vec![0]).is_ok());
    assert!(Boundaries::new(vec![0, 3, 3, 10]).is_ok());
    assert!(matches!(Boundaries::new(vec![]), Err(PipelineError::Index)));
    assert!(matches!(Boundaries::new(vec![1, 6]), Err(PipelineError::Index)));
    assert!(matches!(Boundaries::new(vec![0, 6, 5]), Err(PipelineError::Index)));
}

#[test]
fn boundaries_are_read_from_bytes() {
    let bytes: Vec<u8> = [0u64, 6, 300].iter().flat_map(|b| b.to_le_bytes()).collect();
    let boundaries = Boundaries::from_bytes(&bytes).unwrap();
    assert_eq!(boundaries.offsets(), &vec![0, 6, 300]);
    assert!(matches!(Boundaries::from_bytes(&bytes[..23]), Err(PipelineError::Index)));
    assert!(matches!(Boundaries::from_bytes(&bytes[8..]), Err(PipelineError::Index)));
    assert!(matches!(Boundaries::from_bytes(&[]), Err(PipelineError::Index)));
}

#[test]
fn boundaries_know_their_documents() {
    let boundaries = Boundaries::new(vec![0, 3, 3, 10]).unwrap();
    assert_eq!(boundaries.num_docs(), 3);
    assert_eq!(boundaries.doc_size(0), 3);
    assert_eq!(boundaries.doc_size(1), 0);
    assert_eq!(boundaries.doc_size(2), 7);
    assert_eq!(boundaries.doc_start(2), 3);
}

#[test]
fn every_position_is_located_in_its_document() {
    let offsets = vec![0u64, 3, 3, 10, 11, 20];
    let boundaries = Boundaries::new(offsets.clone()).unwrap();
    for doc in 0..offsets.len() - 1 {
        for position in offsets[doc]..offsets[doc + 1] {
            assert_eq!(locate_document(position, &boundaries), Ok(doc));
        }
    }
}

#[test]
fn the_end_of_the_corpus_is_in_no_document() {
    let boundaries = Boundaries::new(vec![0, 3, 3, 10]).unwrap();
    assert_eq!(locate_document(10, &boundaries), Err(PipelineError::Index));
    assert_eq!(locate_document(11, &boundaries), Err(PipelineError::Index));
    assert_eq!(locate_document(u64::MAX, &boundaries), Err(PipelineError::Index));
    let empty = Boundaries::new(vec![0]).unwrap();
    assert_eq!(locate_document(0, &empty), Err(PipelineError::Index));
}

#[test]
fn single_document_lookup() {
    let boundaries = Boundaries::new(vec![0, 6]).unwrap();
    assert_eq!(locate_document(0, &boundaries), Ok(0));
    assert_eq!(locate_document(5, &boundaries), Ok(0));
}

fn documents(paths: &[&str]) -> Vec<(Vec<u8>, Vec<String>)> {
    paths.iter().map(|p| (p.as_bytes().to_vec(), vec![format!("line of {p}")])).collect()
}

#[test]
fn documents_are_numbered_in_the_order_of_their_paths() {
    let found = documents(&["data/b.jsonl", "data/a/z.jsonl", "data/a.jsonl", "data/B.jsonl", "data/a"]);
    let sorted = assign_ids(found);
    assert_eq!(sorted, documents(&["data/B.jsonl", "data/a", "data/a.jsonl", "data/a/z.jsonl", "data/b.jsonl"]));
    assert_eq!(assign_ids(Vec::new()), Vec::new());
    assert_eq!(assign_ids(documents(&["x", "x", "a"])), documents(&["a", "x", "x"]));
}

#[test]
fn the_numbering_does_not_depend_on_the_order_of_discovery() {
    let one = assign_ids(documents(&["c", "a", "b", "ab", ""]));
    let other = assign_ids(documents(&["", "ab", "b", "a", "c"]));
    assert_eq!(one, other);
    assert_eq!(one, documents(&["", "a", "ab", "b", "c"]));
}

#[test]
fn the_path_index_pairs_each_path_with_its_place() {
    let sorted = assign_ids(documents(&["b", "a"]));
    assert_eq!(path_index(&sorted), vec![(b"a".to_vec(), 0), (b"b".to_vec(), 1)]);
    assert_eq!(path_index(&assign_ids(documents(&["f"]))), vec![(b"f".to_vec(), 0)]);
    assert_eq!(path_index(&Vec::new()), vec![]);
}
