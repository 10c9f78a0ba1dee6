use contamination::boundaries::Boundaries;
use contamination::codec::{decode_matches, decode_records, encode_matches, encode_records};
use contamination::collect::{collect_line, collect_matches};
use contamination::threshold::Threshold;
use contamination::decide::decide;
use contamination::error::PipelineError;
use contamination::groups::group_matches;
use contamination::pipeline::{build_matches, count_contaminated_docs, mark_contaminates};
use contamination::suffix_index::SuffixIndex;

fn abcabc() -> SuffixIndex {
    SuffixIndex::new(b"abcabc".to_vec(), vec![3, 0, 4, 1, 5, 2], 1).unwrap()
}

fn threshold(fraction: f64) -> Threshold {
    Threshold::from_f64_bits(fraction.to_bits()).unwrap()
}

fn lines(texts: &[&str]) -> Vec<String> {
    texts.iter().map(|t| t.to_string()).collect()
}

fn sorted<T: Ord>(mut v: Vec<T>) -> Vec<T> {
    v.sort();
    v
}

fn words(values: &[u64]) -> Vec<u8> {
    values.iter().flat_map(|v| v.to_le_bytes()).collect()
}

#[test]
fn a_line_has_one_window_at_every_start() {
    let index = SuffixIndex::new(b"abcd".to_vec(), vec![0, 1, 2, 3], 1).unwrap();
    let mut output = vec![(9, 9, 9)];
    collect_line(1, 2, b"abcd", &index, 2, &mut output);
    assert_eq!(output, vec![(9, 9, 9), (1, 2, 0), (1, 2, 1), (1, 2, 2)]);
    let mut output = Vec::new();
    collect_line(1, 2, b"abcd", &index, 4, &mut output);
    assert_eq!(output, vec![(1, 2, 0)]);
    let mut output = Vec::new();
    collect_line(1, 2, b"abcd", &index, 1, &mut output);
    assert_eq!(output, vec![(1, 2, 0), (1, 2, 1), (1, 2, 2), (1, 2, 3)]);
}

#[test]
fn a_line_shorter_than_a_window_has_none() {
    let index = abcabc();
    let mut output = Vec::new();
    collect_line(0, 0, b"ab", &index, 3, &mut output);
    assert_eq!(output, vec![]);
    collect_line(0, 0, b"", &index, 1, &mut output);
    assert_eq!(output, vec![]);
}

#[test]
fn windows_overlap_and_repeat() {
    let index = abcabc();
    let mut output = Vec::new();
    collect_line(4, 1, b"abcab", &index, 3, &mut output);
    assert_eq!(output, vec![(4, 1, 3), (4, 1, 0), (4, 1, 1), (4, 1, 2)]);
    let mut output = Vec::new();
    collect_line(0, 0, b"cc", &index, 1, &mut output);
    assert_eq!(output, vec![(0, 0, 5), (0, 0, 2), (0, 0, 5), (0, 0, 2)]);
}

#[test]
fn collect_reads_the_text_of_each_line() {
    let index = abcabc();
    let document = lines(&[r#"{"text": "abc"}"#, r#"{"id": 4, "text": "xbcx", "more": [1, 2]}"#, r#"{"text": ""}"#]);
    let found = collect_matches(7, &document, &index, 2).unwrap();
    assert_eq!(found, vec![(7, 0, 3), (7, 0, 0), (7, 0, 4), (7, 0, 1), (7, 1, 4), (7, 1, 1)]);
}

#[test]
fn collect_unescapes_json_strings() {
    let index = abcabc();
    let document = lines(&[r#"{"text": "a\u0062c"}"#]);
    assert_eq!(sorted(collect_matches(0, &document, &index, 3).unwrap()), vec![(0, 0, 0), (0, 0, 3)]);
    let accented = SuffixIndex::new("é".as_bytes().to_vec(), vec![1, 0], 1).unwrap();
    let document = lines(&[r#"{"text": "é"}"#, r#"{"text": "\u00e9"}"#]);
    assert_eq!(collect_matches(0, &document, &accented, 2).unwrap(), vec![(0, 0, 0), (0, 1, 0)]);
}

#[test]
fn collect_fails_on_the_first_line_without_text() {
    let index = abcabc();
    for bad in [r#"{"txt": "abc"}"#, r#"{"text": 5}"#, r#"{"text": null}"#, "not json", "", r#"["text"]"#, r#""text""#, r#"{"text": "abc""#] {
        let document = lines(&[r#"{"text": "abc"}"#, bad, "also bad"]);
        assert_eq!(collect_matches(0, &document, &index, 3), Err(PipelineError::Parse { line: 1 }));
    }
}

#[test]
fn collect_refuses_a_window_size_of_zero() {
    let index = abcabc();
    assert_eq!(collect_matches(0, &lines(&[r#"{"text": "abc"}"#]), &index, 0), Err(PipelineError::Config));
    assert_eq!(collect_matches(0, &lines(&["bad"]), &index, 0), Err(PipelineError::Config));
}

#[test]
fn collect_of_an_empty_document() {
    assert_eq!(collect_matches(0, &Vec::new(), &abcabc(), 3), Ok(vec![]));
}

#[test]
fn matches_are_written_as_little_endian_words() {
    let bytes = encode_matches(&vec![(1, 2, 3), (0x0102, 0, u64::MAX)]).unwrap();
    assert_eq!(bytes, words(&[2, 1, 2, 3, 0x0102, 0, u64::MAX]));
    assert_eq!(bytes.len(), 56);
    assert_eq!(&bytes[32..34], &[0x02, 0x01]);
    assert_eq!(encode_matches(&vec![]).unwrap(), words(&[0]));
}

#[test]
fn records_are_written_as_little_endian_words() {
    let bytes = encode_records(&vec![(5, 6, 7)]).unwrap();
    assert_eq!(bytes, words(&[1, 5, 6, 7]));
    assert_eq!(encode_records(&vec![]).unwrap(), words(&[0]));
}

#[test]
fn matches_survive_a_round_trip() {
    let cases: Vec<Vec<(usize, usize, u64)>> = vec![
        vec![],
        vec![(0, 0, 0)],
        vec![(0, 0, 3), (0, 0, 0)],
        vec![(usize::MAX, 1, u64::MAX), (2, usize::MAX, 0), (2, usize::MAX, 0)],
    ];
    for matches in cases {
        let bytes = encode_matches(&matches).unwrap();
        assert_eq!(decode_matches(&bytes), Ok(matches));
    }
}

#[test]
fn records_survive_a_round_trip() {
    let cases: Vec<Vec<(usize, usize, usize)>> =
        vec![vec![], vec![(0, 0, 0)], vec![(1, 2, 3), (1, 2, 3), (usize::MAX, 0, usize::MAX)]];
    for records in cases {
        let bytes = encode_records(&records).unwrap();
        assert_eq!(decode_records(&bytes), Ok(records));
    }
}

#[test]
fn decoding_reads_what_the_bytes_say() {
    assert_eq!(decode_matches(&words(&[1, 7, 8, 9])), Ok(vec![(7, 8, 9)]));
    assert_eq!(decode_records(&words(&[2, 1, 2, 3, 4, 5, 6])), Ok(vec![(1, 2, 3), (4, 5, 6)]));
}

#[test]
fn decoding_ignores_what_follows_the_records() {
    assert_eq!(decode_matches(&words(&[1, 7, 8, 9, 10])), Ok(vec![(7, 8, 9)]));
    let mut bytes = words(&[0]);
    bytes.push(1);
    assert_eq!(decode_records(&bytes), Ok(vec![]));
}

#[test]
fn decoding_refuses_short_input() {
    assert_eq!(decode_matches(&[]), Err(PipelineError::Serialization));
    assert_eq!(decode_matches(&[1, 0, 0]), Err(PipelineError::Serialization));
    assert_eq!(decode_matches(&words(&[2, 7, 8, 9])), Err(PipelineError::Serialization));
    assert_eq!(decode_records(&words(&[1, 7, 8])), Err(PipelineError::Serialization));
    let mut bytes = words(&[1, 7, 8, 9]);
    bytes.pop();
    assert_eq!(decode_records(&bytes), Err(PipelineError::Serialization));
    assert_eq!(decode_matches(&words(&[u64::MAX])), Err(PipelineError::Serialization));
}

#[test]
fn grouping_files_each_match_under_its_document_and_line() {
    let boundaries = Boundaries::new(vec![0, 6, 6, 20]).unwrap();
    let matches = vec![(0, 0, 3), (0, 0, 0), (1, 4, 7), (0, 0, 19), (1, 4, 7), (0, 1, 5)];
    let groups = group_matches(&matches, &boundaries).unwrap();
    assert_eq!(groups.len(), 2);
    let first = groups.get(&(0, 6)).unwrap();
    assert_eq!(first.len(), 2);
    assert_eq!(*first.get(&(0, 0)).unwrap(), vec![3, 0]);
    assert_eq!(*first.get(&(0, 1)).unwrap(), vec![5]);
    let third = groups.get(&(2, 14)).unwrap();
    assert_eq!(third.len(), 2);
    assert_eq!(*third.get(&(1, 4)).unwrap(), vec![1, 1]);
    assert_eq!(*third.get(&(0, 0)).unwrap(), vec![13]);
    let total: usize = groups.iter().map(|d| d.value().iter().map(|l| l.value().len()).sum::<usize>()).sum();
    assert_eq!(total, matches.len());
}

#[test]
fn grouping_refuses_a_match_outside_the_corpus() {
    let boundaries = Boundaries::new(vec![0, 6]).unwrap();
    assert!(matches!(group_matches(&vec![(0, 0, 0), (0, 0, 6)], &boundaries), Err(PipelineError::Index)));
    assert!(group_matches(&vec![], &boundaries).unwrap().is_empty());
}

#[test]
fn contaminated_documents_are_counted_once() {
    assert_eq!(count_contaminated_docs(&vec![]), 0);
    assert_eq!(count_contaminated_docs(&vec![(3, 0, 0), (3, 1, 0), (5, 0, 0), (3, 0, 9)]), 2);
}

#[test]
fn end_to_end_scenario() {
    let index = abcabc();
    let boundaries = Boundaries::new(vec![0, 6]).unwrap();
    let document = lines(&[r#"{"text": "abc"}"#]);
    let matches = collect_matches(0, &document, &index, 3).unwrap();
    assert_eq!(sorted(matches.clone()), vec![(0, 0, 0), (0, 0, 3)]);
    let groups = group_matches(&matches, &boundaries).unwrap();
    assert_eq!(groups.len(), 1);
    assert_eq!(sorted(groups.get(&(0, 6)).unwrap().get(&(0, 0)).unwrap().clone()), vec![0, 3]);
    assert_eq!(decide(groups, 3, &threshold(0.5)), vec![(0, 0, 0)]);
    let groups = group_matches(&matches, &boundaries).unwrap();
    assert_eq!(decide(groups, 3, &threshold(1.0)), vec![(0, 0, 0)]);
    let groups = group_matches(&vec![(0, 0, 0)], &boundaries).unwrap();
    assert_eq!(decide(groups, 3, &threshold(0.6)), vec![]);
}

fn document(path: &str, texts: &[&str]) -> (Vec<u8>, Vec<String>) {
    (path.as_bytes().to_vec(), lines(texts))
}

#[test]
fn both_phases_from_bytes_to_bytes() {
    let index = abcabc();
    let boundaries = Boundaries::new(vec![0, 6]).unwrap();
    let documents = vec![
        document("train/b.jsonl", &[r#"{"text": "zz"}"#, r#"{"text": "cab"}"#]),
        document("train/a.jsonl", &[r#"{"text": "abc"}"#]),
    ];
    let list = build_matches(documents, &index, 3).unwrap();
    assert_eq!(list.path_index, vec![(b"train/a.jsonl".to_vec(), 0), (b"train/b.jsonl".to_vec(), 1)]);
    assert_eq!(list.total, 3);
    assert_eq!(decode_matches(&list.encoded), Ok(vec![(0, 0, 3), (0, 0, 0), (1, 1, 2)]));
    let report = mark_contaminates(&list.encoded, &boundaries, &threshold(0.5), 3).unwrap();
    assert_eq!(sorted(report.records.clone()), vec![(0, 0, 0), (0, 1, 1)]);
    assert_eq!(report.total, 2);
    assert_eq!(report.contaminated_docs, 1);
    assert_eq!(decode_records(&report.encoded), Ok(report.records));
    let report = mark_contaminates(&list.encoded, &boundaries, &threshold(1.0), 3).unwrap();
    assert_eq!(report.records, vec![(0, 0, 0)]);
    assert_eq!(report.encoded, words(&[1, 0, 0, 0]));
}

#[test]
fn one_file_with_one_line() {
    let list = build_matches(vec![document("f", &[r#"{"text": "abc"}"#])], &abcabc(), 3).unwrap();
    assert_eq!(list.path_index, vec![(b"f".to_vec(), 0)]);
    assert_eq!(sorted(decode_matches(&list.encoded).unwrap()), vec![(0, 0, 0), (0, 0, 3)]);
}

#[test]
fn a_tenth_of_ten_bytes_is_one_byte() {
    let boundaries = Boundaries::new(vec![0, 10]).unwrap();
    let matches = encode_matches(&vec![(0, 0, 0)]).unwrap();
    let report = mark_contaminates(&matches, &boundaries, &threshold(0.1), 1).unwrap();
    assert_eq!(report.records, vec![(0, 0, 0)]);
}

#[test]
fn marking_fails_as_a_whole() {
    let boundaries = Boundaries::new(vec![0, 6]).unwrap();
    let threshold = threshold(0.5);
    let good = encode_matches(&vec![(0, 0, 0)]).unwrap();
    let outside = encode_matches(&vec![(0, 0, 0), (0, 0, 6)]).unwrap();
    assert!(matches!(mark_contaminates(&good, &boundaries, &threshold, 0), Err(PipelineError::Config)));
    assert!(matches!(mark_contaminates(&[1, 2], &boundaries, &threshold, 0), Err(PipelineError::Config)));
    assert!(matches!(mark_contaminates(&[1, 2], &boundaries, &threshold, 3), Err(PipelineError::Serialization)));
    assert!(matches!(mark_contaminates(&outside, &boundaries, &threshold, 3), Err(PipelineError::Index)));
    assert!(mark_contaminates(&good, &boundaries, &threshold, 3).is_ok());
}

#[test]
fn building_fails_as_a_whole() {
    let index = abcabc();
    let documents = || {
        vec![document("b", &[r#"{"text": "abc"}"#, "{}"]), document("c", &["bad"]), document("a", &[r#"{"text": "abc"}"#])]
    };
    assert!(matches!(build_matches(documents(), &index, 3), Err(PipelineError::Parse { line: 1 })));
    assert!(matches!(build_matches(documents(), &index, 0), Err(PipelineError::Config)));
    let empty = build_matches(Vec::new(), &index, 3).unwrap();
    assert_eq!(empty.encoded, words(&[0]));
    assert_eq!(empty.path_index, vec![]);
    assert_eq!(empty.total, 0);
}
