//! The two phases as functions from bytes to bytes: building the match list
//! of a training corpus, and marking the contaminated validation documents.

use vstd::prelude::*;
use dashmap::DashSet;
use crate::boundaries::Boundaries;
use crate::codec::{
    decode_matches, decoded_matches, encode_matches, encode_records, match_encoding, record_encoding,
};
use crate::collect::{collect_matches, document_matches, line_text, line_texts};
use crate::threshold::Threshold;
use crate::decide::{decide, decided, lemma_decided_records, lemma_grouped_sizes};
use crate::documents::{
    Document, assign_ids, index_paths, is_arrangement_of, is_numbering_of, lemma_same_documents, path_index, paths_of,
};
use crate::error::{PipelineError, failed_with};
use crate::groups::{group_matches, grouped, in_corpus};
use crate::records::{ContaminationRecord, RawMatch};
use crate::suffix_index::SuffixIndex;

verus! {

/// `dashmap::DashSet`, taken as it is: nothing is known of what is inside but
/// what the functions below say.
#[verifier::external_type_specification]
#[verifier::external_body]
#[verifier::reject_recursive_types(K)]
#[verifier::reject_recursive_types(S)]
pub struct ExDashSet<K, S>(DashSet<K, S>);

/// The validation documents that a set holds.
pub uninterp spec fn doc_set(docs: DashSet<usize>) -> Set<usize>;

/// `DashSet::new`: a set without elements.
#[verifier::external_body]
fn empty_doc_set() -> (docs: DashSet<usize>)
    ensures
        doc_set(docs) == Set::<usize>::empty(),
{
    DashSet::new()
}

/// `DashSet::insert`: the set holds `doc` afterwards and is otherwise
/// unchanged; the result tells whether `doc` was new.
#[verifier::external_body]
fn insert_doc(docs: &mut DashSet<usize>, doc: usize) -> (fresh: bool)
    ensures
        doc_set(*final(docs)) == doc_set(*old(docs)).insert(doc),
        fresh == !doc_set(*old(docs)).contains(doc),
{
    docs.insert(doc)
}

/// `DashSet::len`: the number of elements.
#[verifier::external_body]
fn doc_set_len(docs: &DashSet<usize>) -> (count: usize)
    ensures
        count == doc_set(*docs).len(),
{
    docs.len()
}

/// The validation documents that `records` name.
pub open spec fn validation_docs(records: Seq<ContaminationRecord>) -> Set<usize> {
    records.map_values(|record: ContaminationRecord| record.0).to_set()
}

/// Number of distinct validation documents among the records.
pub fn count_contaminated_docs(records: &Vec<ContaminationRecord>) -> (count: usize)
    ensures
        count == validation_docs(records@).len(),
{
    let mut docs = empty_doc_set();
    let n = records.len();
    let mut i: usize = 0;
    proof {
        assert(validation_docs(records@.take(0)) =~= Set::<usize>::empty());
    }
    while i < n
        invariant
            n == records.len(),
            i <= n,
            doc_set(docs) == validation_docs(records@.take(i as int)),
        decreases n - i,
    {
        let _ = insert_doc(&mut docs, records[i].0);
        proof {
            let f = |record: ContaminationRecord| record.0;
            let seen = records@.take(i as int).map_values(f);
            assert(records@.take(i + 1).map_values(f) =~= seen.push(records[i as int].0));
            seen.lemma_push_to_set_commute(records[i as int].0);
        }
        i += 1;
    }
    proof {
        assert(records@.take(n as int) =~= records@);
    }
    doc_set_len(&docs)
}

/// What the marking phase hands back.
#[derive(Debug)]
pub struct ContaminationReport {
    /// One record for each validation document and training line whose
    /// matches cover enough of the document.
    pub records: Vec<ContaminationRecord>,
    /// The records in their persisted form.
    pub encoded: Vec<u8>,
    /// Number of distinct validation documents among the records.
    pub contaminated_docs: usize,
    /// Number of records.
    pub total: usize,
}

/// The marking phase found `report` for `matches`.
pub open spec fn reports(
    report: ContaminationReport,
    matches: Seq<RawMatch>,
    offsets: Seq<u64>,
    match_size: nat,
    significand: nat,
    places: nat,
) -> bool {
    &&& decided(report.records@, grouped(matches, offsets), match_size, significand, places)
    &&& report.records@.no_duplicates()
    &&& report.encoded@ == record_encoding(report.records@)
    &&& report.contaminated_docs == validation_docs(report.records@).len()
    &&& report.total == report.records@.len()
}

/// Every match lies inside the validation corpus.
pub open spec fn all_in_corpus(matches: Seq<RawMatch>, offsets: Seq<u64>) -> bool {
    forall|i: int| 0 <= i < matches.len() ==> in_corpus(offsets, #[trigger] matches[i])
}

/// The marking phase: reads the match list, regroups the matches by
/// validation document and training line, decides which groups cover at least
/// the threshold's share of their document, and writes the records. A window
/// size of 0, a match list that does not decode and a match outside the
/// corpus abort the run, in this order of precedence; every other run
/// succeeds.
pub fn mark_contaminates(match_bytes: &[u8], boundaries: &Boundaries, threshold: &Threshold, match_size: usize) -> (r:
    Result<ContaminationReport, PipelineError>)
    ensures
        failed_with(r, PipelineError::Config) <==> match_size == 0,
        failed_with(r, PipelineError::Serialization) <==> match_size > 0 && decoded_matches(match_bytes@) is None,
        failed_with(r, PipelineError::Index) <==> match_size > 0 && decoded_matches(match_bytes@) is Some && !all_in_corpus(
            decoded_matches(match_bytes@).unwrap(),
            boundaries@,
        ),
        r is Ok <==> match_size > 0 && decoded_matches(match_bytes@) is Some && all_in_corpus(
            decoded_matches(match_bytes@).unwrap(),
            boundaries@,
        ),
        r matches Ok(report) ==> reports(
            report,
            decoded_matches(match_bytes@).unwrap(),
            boundaries@,
            match_size as nat,
            threshold@.0,
            threshold@.1,
        ),
{
    if match_size == 0 {
        return Err(PipelineError::Config);
    }
    let matches = match decode_matches(match_bytes) {
        Ok(matches) => matches,
        Err(e) => {
            return Err(e);
        },
    };
    let groups = match group_matches(&matches, boundaries) {
        Ok(groups) => groups,
        Err(e) => {
            return Err(e);
        },
    };
    let records = decide(groups, match_size, threshold);
    let _ = boundaries.num_docs();
    proof {
        lemma_grouped_sizes(matches@, boundaries@);
        lemma_decided_records(
            records@,
            grouped(matches@, boundaries@),
            match_size as nat,
            threshold@.0,
            threshold@.1,
        );
    }
    let encoded = match encode_records(&records) {
        Ok(encoded) => encoded,
        Err(e) => {
            return Err(e);
        },
    };
    let contaminated_docs = count_contaminated_docs(&records);
    let total = records.len();
    Ok(ContaminationReport { records, encoded, contaminated_docs, total })
}

/// Some line of some document has no text.
pub open spec fn has_bad_line(documents: Seq<Document>) -> bool {
    exists|doc: int, line: int|
        0 <= doc < documents.len() && 0 <= line < documents[doc].1.len() && line_text(
            #[trigger] documents[doc].1[line]@,
        ) is None
}

/// Line `line` of document `doc` is the first line without text: the
/// documents before `doc` and the lines of `doc` before `line` all have one.
pub open spec fn is_first_bad_line(documents: Seq<Document>, doc: int, line: int) -> bool {
    &&& 0 <= doc < documents.len()
    &&& 0 <= line < documents[doc].1.len()
    &&& line_text(documents[doc].1[line]@) is None
    &&& forall|l: int| 0 <= l < line ==> line_text(#[trigger] documents[doc].1[l]@) is Some
    &&& forall|d: int, l: int|
        0 <= d < doc && 0 <= l < documents[d].1.len() ==> line_text(#[trigger] documents[d].1[l]@) is Some
}

/// The matches of each training document, the identifier of a document being
/// its place.
pub open spec fn matches_by_document(
    documents: Seq<Document>,
    index: (Seq<u8>, Seq<u64>),
    match_size: nat,
) -> Seq<Seq<RawMatch>> {
    Seq::new(
        documents.len(),
        |doc: int| document_matches(doc as usize, line_texts(documents[doc].1@), index, match_size),
    )
}

/// The matches of a training corpus: those of its first document, then those
/// of its second, and so on.
pub open spec fn corpus_matches(documents: Seq<Document>, index: (Seq<u8>, Seq<u64>), match_size: nat) -> Seq<RawMatch> {
    matches_by_document(documents, index, match_size).flatten()
}

/// What the match-building phase hands back.
#[derive(Debug)]
pub struct MatchList {
    /// The path of every training document with its identifier.
    pub path_index: Vec<(Vec<u8>, usize)>,
    /// The raw matches in their persisted form.
    pub encoded: Vec<u8>,
    /// Number of raw matches.
    pub total: usize,
}

/// `list` is what the documents `sorted`, numbered by their places, give.
pub open spec fn lists_matches(
    list: MatchList,
    sorted: Seq<Document>,
    index: (Seq<u8>, Seq<u64>),
    match_size: nat,
) -> bool {
    &&& index_paths(list.path_index@) == paths_of(sorted)
    &&& list.encoded@ == match_encoding(corpus_matches(sorted, index, match_size))
    &&& list.total == corpus_matches(sorted, index, match_size).len()
}

/// `list` is what the match-building phase gives for `documents`: the path
/// index numbers the paths in their lexicographic order, and the match list
/// holds, for the documents in that order, the matches of each under its
/// number.
pub open spec fn builds(list: MatchList, documents: Seq<Document>, index: (Seq<u8>, Seq<u64>), match_size: nat) -> bool {
    &&& is_numbering_of(index_paths(list.path_index@), paths_of(documents))
    &&& forall|i: int| 0 <= i < list.path_index@.len() ==> (#[trigger] list.path_index@[i]).1 == i
    &&& exists|sorted: Seq<Document>| #[trigger]
        is_arrangement_of(sorted, documents) && lists_matches(list, sorted, index, match_size)
}

/// Documents that are the same but for their order have a line without text
/// together or not at all.
pub proof fn lemma_bad_line_in_any_order(sorted: Seq<Document>, given: Seq<Document>)
    requires
        sorted.to_multiset() == given.to_multiset(),
    ensures
        has_bad_line(sorted) == has_bad_line(given),
{
    lemma_same_documents(sorted, given);
    if has_bad_line(sorted) {
        let (doc, line) = choose|doc: int, line: int|
            0 <= doc < sorted.len() && 0 <= line < sorted[doc].1.len() && line_text(
                #[trigger] sorted[doc].1[line]@,
            ) is None;
        assert(given.contains(sorted[doc]));
        let other = choose|other: int| 0 <= other < given.len() && given[other] == sorted[doc];
        assert(line_text(given[other].1[line]@) is None);
    }
    if has_bad_line(given) {
        let (doc, line) = choose|doc: int, line: int|
            0 <= doc < given.len() && 0 <= line < given[doc].1.len() && line_text(
                #[trigger] given[doc].1[line]@,
            ) is None;
        assert(sorted.contains(given[doc]));
        let other = choose|other: int| 0 <= other < sorted.len() && sorted[other] == given[doc];
        assert(line_text(sorted[other].1[line]@) is None);
    }
}

/// The match-building phase on documents that are already in memory, each
/// with its path and its lines: numbers the documents in the lexicographic
/// order of their paths, collects the matches of every document under its
/// number, and hands back the path index and the match list. A window size of
/// 0 and a line without text abort the run; every other run succeeds.
pub fn build_matches(documents: Vec<Document>, index: &SuffixIndex, match_size: usize) -> (r: Result<
    MatchList,
    PipelineError,
>)
    ensures
        failed_with(r, PipelineError::Config) <==> match_size == 0,
        r is Ok <==> match_size > 0 && !has_bad_line(documents@),
        match_size > 0 && has_bad_line(documents@) ==> r is Err && r->Err_0 is Parse && exists|
            sorted: Seq<Document>,
            doc: int,
        | #[trigger]
            is_arrangement_of(sorted, documents@) && #[trigger] is_first_bad_line(sorted, doc, r->Err_0->line as int),
        r matches Ok(list) ==> builds(list, documents@, index@, match_size as nat),
{
    if match_size == 0 {
        return Err(PipelineError::Config);
    }
    let ghost given = documents@;
    let sorted = assign_ids(documents);
    proof {
        lemma_bad_line_in_any_order(sorted@, given);
    }
    let ghost by_document = matches_by_document(sorted@, index@, match_size as nat);
    let mut matches: Vec<RawMatch> = Vec::new();
    let n = sorted.len();
    let mut doc: usize = 0;
    proof {
        assert(by_document.take(0) =~= Seq::<Seq<RawMatch>>::empty());
        assert(matches@ =~= by_document.take(0).flatten());
    }
    while doc < n
        invariant
            n == sorted.len(),
            doc <= n,
            match_size > 0,
            given == documents@,
            is_arrangement_of(sorted@, given),
            has_bad_line(sorted@) == has_bad_line(given),
            by_document == matches_by_document(sorted@, index@, match_size as nat),
            forall|d: int, line: int|
                0 <= d < doc && 0 <= line < sorted[d].1.len() ==> line_text(#[trigger] sorted[d].1[line]@) is Some,
            matches@ == by_document.take(doc as int).flatten(),
        decreases n - doc,
    {
        let mut found = match collect_matches(doc, &sorted[doc].1, index, match_size) {
            Ok(found) => found,
            Err(e) => {
                proof {
                    let line = e->line;
                    assert(line_text(sorted[doc as int].1[line as int]@) is None);
                    assert(is_first_bad_line(sorted@, doc as int, line as int));
                    assert(has_bad_line(sorted@));
                }
                return Err(e);
            },
        };
        proof {
            assert(by_document.take(doc + 1) =~= by_document.take(doc as int).push(by_document[doc as int]));
            by_document.take(doc as int).lemma_flatten_push(by_document[doc as int]);
        }
        matches.append(&mut found);
        doc += 1;
    }
    proof {
        assert(by_document.take(n as int) =~= by_document);
        assert(!has_bad_line(sorted@));
    }
    let path_index = path_index(&sorted);
    let encoded = match encode_matches(&matches) {
        Ok(encoded) => encoded,
        Err(e) => {
            return Err(e);
        },
    };
    let total = matches.len();
    let list = MatchList { path_index, encoded, total };
    proof {
        assert(lists_matches(list, sorted@, index@, match_size as nat));
    }
    Ok(list)
}

} // verus!
