//! Raw matches regrouped by validation document and training line.

use vstd::prelude::*;
use dashmap::DashMap;
use crate::boundaries::{Boundaries, document_of, document_size, locate_document};
use crate::error::PipelineError;
use crate::records::RawMatch;

verus! {

/// `dashmap::DashMap`, taken as it is: nothing is known of what is inside but
/// what the functions below say.
#[verifier::external_type_specification]
#[verifier::external_body]
#[verifier::reject_recursive_types(K)]
#[verifier::reject_recursive_types(V)]
#[verifier::reject_recursive_types(S)]
pub struct ExDashMap<K, V, S>(DashMap<K, V, S>);

/// `(training_doc_id, line_num)`.
pub type LineKey = (usize, usize);

/// `(validation_doc_id, validation_doc_size)`.
pub type DocKey = (usize, usize);

/// Start offsets of the matches of each training line inside one validation
/// document.
pub type LineGroups = DashMap<LineKey, Vec<u64>>;

/// The matches of every validation document, by document and training line.
pub type DocGroups = DashMap<DocKey, LineGroups>;

/// Mathematical content of a `LineGroups`.
pub type LineMap = Map<LineKey, Seq<u64>>;

/// Mathematical content of a `DocGroups`.
pub type DocMap = Map<DocKey, LineMap>;

/// What a per-document map holds: the start offsets under each
/// `(training_doc_id, line_num)` key.
pub uninterp spec fn line_groups(lines: LineGroups) -> LineMap;

/// What a grouping holds: for each `(validation_doc_id, validation_doc_size)`
/// key, the start offsets by `(training_doc_id, line_num)` key.
pub uninterp spec fn doc_groups(groups: DocGroups) -> DocMap;

/// The grouping `groups` after `offset` was appended under `doc` and `line`.
pub open spec fn with_offset(groups: DocMap, doc: DocKey, line: LineKey, offset: u64) -> DocMap {
    let lines = if groups.contains_key(doc) {
        groups[doc]
    } else {
        Map::empty()
    };
    let starts = if lines.contains_key(line) {
        lines[line]
    } else {
        Seq::empty()
    };
    groups.insert(doc, lines.insert(line, starts.push(offset)))
}

/// The entries of a per-document map handed out as a list: every key once,
/// each with its list, in no particular order.
pub open spec fn lists_lines(entries: Seq<(LineKey, Vec<u64>)>, lines: LineMap) -> bool {
    &&& forall|i: int| 0 <= i < entries.len() ==> lines.contains_key(#[trigger] entries[i].0)
    &&& forall|i: int| 0 <= i < entries.len() ==> lines[entries[i].0] == (#[trigger] entries[i]).1@
    &&& forall|i: int, j: int| 0 <= i < j < entries.len() ==> (#[trigger] entries[i]).0 != (#[trigger] entries[j]).0
    &&& forall|key: LineKey| lines.contains_key(key) ==> exists|i: int| 0 <= i < entries.len() && (#[trigger] entries[i]).0 == key
}

/// The entries of a grouping handed out as a list: every key once, each with
/// its per-document map, in no particular order.
pub open spec fn lists_docs(entries: Seq<(DocKey, LineGroups)>, groups: DocMap) -> bool {
    &&& forall|i: int| 0 <= i < entries.len() ==> groups.contains_key(#[trigger] entries[i].0)
    &&& forall|i: int| 0 <= i < entries.len() ==> groups[entries[i].0] == line_groups((#[trigger] entries[i]).1)
    &&& forall|i: int, j: int| 0 <= i < j < entries.len() ==> (#[trigger] entries[i]).0 != (#[trigger] entries[j]).0
    &&& forall|key: DocKey| groups.contains_key(key) ==> exists|i: int| 0 <= i < entries.len() && (#[trigger] entries[i]).0 == key
}

/// `DashMap::new`: a map without entries.
#[verifier::external_body]
fn empty_groups() -> (groups: DocGroups)
    ensures
        doc_groups(groups) == DocMap::empty(),
{
    DashMap::new()
}

/// `DashMap::entry` and `Entry::or_default` on the outer and on the inner
/// map, then `Vec::push`: the entries for `doc` and for `line` are created
/// empty where they are missing, `offset` goes to the end of the list under
/// them, and nothing else changes.
#[verifier::external_body]
fn append_offset(groups: &mut DocGroups, doc: DocKey, line: LineKey, offset: u64)
    ensures
        doc_groups(*final(groups)) == with_offset(doc_groups(*old(groups)), doc, line, offset),
{
    groups.entry(doc).or_default().entry(line).or_default().push(offset);
}

/// `DashMap::into_iter`: the entries of the map, each key once with the map
/// stored under it, in no particular order.
#[verifier::external_body]
pub(crate) fn into_doc_entries(groups: DocGroups) -> (entries: Vec<(DocKey, LineGroups)>)
    ensures
        lists_docs(entries@, doc_groups(groups)),
{
    groups.into_iter().collect()
}

/// `DashMap::iter` with `RefMulti::key` and `RefMulti::value`: the entries of
/// the map, each key once with a copy of the list stored under it, in no
/// particular order.
#[verifier::external_body]
pub(crate) fn line_entries(lines: &LineGroups) -> (entries: Vec<(LineKey, Vec<u64>)>)
    ensures
        lists_lines(entries@, line_groups(*lines)),
{
    lines.iter().map(|entry| (*entry.key(), entry.value().clone())).collect()
}

/// Key of the validation document that a match falls into.
pub open spec fn doc_key(offsets: Seq<u64>, m: RawMatch) -> DocKey {
    let doc = document_of(offsets, m.2);
    (doc as usize, document_size(offsets, doc) as usize)
}

/// Key of the training line that a match comes from.
pub open spec fn line_key(m: RawMatch) -> LineKey {
    (m.0, m.1)
}

/// Where a match starts, counted from the start of its validation document.
pub open spec fn in_doc_offset(offsets: Seq<u64>, m: RawMatch) -> u64 {
    (m.2 - offsets[document_of(offsets, m.2)]) as u64
}

/// A match lies inside the validation corpus.
pub open spec fn in_corpus(offsets: Seq<u64>, m: RawMatch) -> bool {
    m.2 < offsets.last()
}

/// The matches of training line `line` that fall into validation document
/// `doc`.
pub open spec fn belongs_to(offsets: Seq<u64>, doc: DocKey, line: LineKey) -> spec_fn(RawMatch) -> bool {
    |m: RawMatch| doc_key(offsets, m) == doc && line_key(m) == line
}

/// The in-document start offsets of the matches of `line` in `doc`, one per
/// match, in the order of `matches`.
pub open spec fn offsets_of(matches: Seq<RawMatch>, offsets: Seq<u64>, doc: DocKey, line: LineKey) -> Seq<u64> {
    matches.filter(belongs_to(offsets, doc, line)).map_values(|m: RawMatch| in_doc_offset(offsets, m))
}

/// Some match falls into validation document `doc`.
pub open spec fn doc_is_hit(matches: Seq<RawMatch>, offsets: Seq<u64>, doc: DocKey) -> bool {
    exists|i: int| 0 <= i < matches.len() && doc_key(offsets, #[trigger] matches[i]) == doc
}

/// Some match of training line `line` falls into validation document `doc`.
pub open spec fn line_is_hit(matches: Seq<RawMatch>, offsets: Seq<u64>, doc: DocKey, line: LineKey) -> bool {
    exists|i: int| 0 <= i < matches.len() && belongs_to(offsets, doc, line)(#[trigger] matches[i])
}

/// The grouping of `matches`: a validation document has an entry when a match
/// falls into it, a training line has an entry under it when one of its
/// matches does, and that entry lists the in-document start offset of each
/// such match.
pub open spec fn grouped(matches: Seq<RawMatch>, offsets: Seq<u64>) -> DocMap {
    Map::new(
        |doc: DocKey| doc_is_hit(matches, offsets, doc),
        |doc: DocKey| Map::new(
            |line: LineKey| line_is_hit(matches, offsets, doc, line),
            |line: LineKey| offsets_of(matches, offsets, doc, line),
        ),
    )
}

/// One more match extends the list of offsets of its own group and of no
/// other.
pub proof fn lemma_offsets_push(matches: Seq<RawMatch>, offsets: Seq<u64>, m: RawMatch, doc: DocKey, line: LineKey)
    ensures
        offsets_of(matches.push(m), offsets, doc, line) == if belongs_to(offsets, doc, line)(m) {
            offsets_of(matches, offsets, doc, line).push(in_doc_offset(offsets, m))
        } else {
            offsets_of(matches, offsets, doc, line)
        },
{
    reveal(Seq::filter);
    let pred = belongs_to(offsets, doc, line);
    let all = matches.push(m);
    assert(all.drop_last() == matches);
    assert(all.last() == m);
    let before = matches.filter(pred);
    let f = |m: RawMatch| in_doc_offset(offsets, m);
    if pred(m) {
        assert(all.filter(pred) == before.push(m));
        assert(before.push(m).map_values(f) =~= before.map_values(f).push(f(m)));
    } else {
        assert(all.filter(pred) == before);
    }
}

/// A group that no match belongs to has no offsets.
pub proof fn lemma_offsets_unhit(matches: Seq<RawMatch>, offsets: Seq<u64>, doc: DocKey, line: LineKey)
    requires
        !line_is_hit(matches, offsets, doc, line),
    ensures
        offsets_of(matches, offsets, doc, line) == Seq::<u64>::empty(),
{
    let pred = belongs_to(offsets, doc, line);
    assert forall|i: int| 0 <= i < matches.len() implies !pred(#[trigger] matches[i]) by {}
    matches.lemma_all_neg_filter_empty(pred);
    assert(matches.filter(pred).map_values(|m: RawMatch| in_doc_offset(offsets, m)) =~= Seq::<u64>::empty());
}

/// Grouping one more match appends its offset under its two keys.
pub proof fn lemma_grouped_push(matches: Seq<RawMatch>, offsets: Seq<u64>, m: RawMatch)
    ensures
        grouped(matches.push(m), offsets) == with_offset(
            grouped(matches, offsets),
            doc_key(offsets, m),
            line_key(m),
            in_doc_offset(offsets, m),
        ),
{
    let all = matches.push(m);
    let d = doc_key(offsets, m);
    let l = line_key(m);
    let o = in_doc_offset(offsets, m);
    let before = grouped(matches, offsets);
    let after = grouped(all, offsets);
    let expected = with_offset(before, d, l, o);
    assert(all[matches.len() as int] == m);
    assert forall|i: int| 0 <= i < matches.len() implies all[i] == matches[i] by {}
    assert forall|doc: DocKey| doc_is_hit(all, offsets, doc) <==> (doc == d || doc_is_hit(matches, offsets, doc)) by {
        if doc_is_hit(all, offsets, doc) {
            let i = choose|i: int| 0 <= i < all.len() && doc_key(offsets, #[trigger] all[i]) == doc;
            if i < matches.len() {
                assert(doc_key(offsets, matches[i]) == doc);
            }
        }
        if doc_is_hit(matches, offsets, doc) {
            let i = choose|i: int| 0 <= i < matches.len() && doc_key(offsets, #[trigger] matches[i]) == doc;
            assert(doc_key(offsets, all[i]) == doc);
        }
        if doc == d {
            assert(doc_key(offsets, all[matches.len() as int]) == doc);
        }
    }
    assert forall|doc: DocKey, line: LineKey| line_is_hit(all, offsets, doc, line) <==> ((doc == d && line == l)
        || line_is_hit(matches, offsets, doc, line)) by {
        let pred = belongs_to(offsets, doc, line);
        if line_is_hit(all, offsets, doc, line) {
            let i = choose|i: int| 0 <= i < all.len() && pred(#[trigger] all[i]);
            if i < matches.len() {
                assert(pred(matches[i]));
            }
        }
        if line_is_hit(matches, offsets, doc, line) {
            let i = choose|i: int| 0 <= i < matches.len() && pred(#[trigger] matches[i]);
            assert(pred(all[i]));
        }
        if doc == d && line == l {
            assert(pred(all[matches.len() as int]));
        }
    }
    assert forall|doc: DocKey| #[trigger] after.contains_key(doc) implies after[doc] == expected[doc] by {
        assert forall|line: LineKey| #[trigger] after[doc].contains_key(line) implies after[doc][line]
            == expected[doc][line] by {
            lemma_offsets_push(matches, offsets, m, doc, line);
            if doc == d && line == l && !line_is_hit(matches, offsets, doc, line) {
                lemma_offsets_unhit(matches, offsets, doc, line);
            }
            if line_is_hit(matches, offsets, doc, line) {
                let i = choose|i: int| 0 <= i < matches.len() && belongs_to(offsets, doc, line)(#[trigger] matches[i]);
                assert(doc_key(offsets, matches[i]) == doc);
            }
        }
        assert forall|line: LineKey| after[doc].contains_key(line) <==> expected[doc].contains_key(line) by {
            if line_is_hit(matches, offsets, doc, line) {
                let i = choose|i: int| 0 <= i < matches.len() && belongs_to(offsets, doc, line)(#[trigger] matches[i]);
                assert(doc_key(offsets, matches[i]) == doc);
            }
        }
        assert(after[doc] =~= expected[doc]);
    }
    assert(after =~= expected);
}

/// Every match is filed under its own two keys: its offset stands in the
/// list of its group.
pub proof fn lemma_match_is_grouped(matches: Seq<RawMatch>, offsets: Seq<u64>, i: int)
    requires
        0 <= i < matches.len(),
    ensures
        grouped(matches, offsets).contains_key(doc_key(offsets, matches[i])),
        grouped(matches, offsets)[doc_key(offsets, matches[i])].contains_key(line_key(matches[i])),
        grouped(matches, offsets)[doc_key(offsets, matches[i])][line_key(matches[i])].contains(
            in_doc_offset(offsets, matches[i]),
        ),
{
    let doc = doc_key(offsets, matches[i]);
    let line = line_key(matches[i]);
    let pred = belongs_to(offsets, doc, line);
    assert(pred(matches[i]));
    matches.lemma_filter_contains(pred, i);
    let kept = matches.filter(pred);
    let j = choose|j: int| 0 <= j < kept.len() && kept[j] == matches[i];
    let listed = kept.map_values(|m: RawMatch| in_doc_offset(offsets, m));
    assert(listed[j] == in_doc_offset(offsets, matches[i]));
}

/// Regroups raw matches by the validation document that each falls into and
/// by the training line that it comes from. A match at or past the end of the
/// corpus belongs to no document: the whole grouping is then refused.
pub fn group_matches(matches: &Vec<RawMatch>, boundaries: &Boundaries) -> (r: Result<DocGroups, PipelineError>)
    ensures
        r is Ok <==> forall|i: int| 0 <= i < matches.len() ==> in_corpus(boundaries@, #[trigger] matches[i]),
        r matches Ok(groups) ==> doc_groups(groups) == grouped(matches@, boundaries@),
        r matches Err(e) ==> e == PipelineError::Index,
{
    let mut groups = empty_groups();
    let n = matches.len();
    let mut i: usize = 0;
    proof {
        assert(doc_groups(groups) =~= grouped(matches@.take(0), boundaries@));
    }
    while i < n
        invariant
            n == matches.len(),
            i <= n,
            forall|j: int| 0 <= j < i ==> in_corpus(boundaries@, #[trigger] matches[j]),
            doc_groups(groups) == grouped(matches@.take(i as int), boundaries@),
        decreases n - i,
    {
        let (train_doc, line_num, position) = matches[i];
        let doc = match locate_document(position, boundaries) {
            Ok(doc) => doc,
            Err(_) => {
                assert(!in_corpus(boundaries@, matches[i as int]));
                return Err(PipelineError::Index);
            },
        };
        let offset = position - boundaries.doc_start(doc);
        let size = boundaries.doc_size(doc);
        proof {
            lemma_grouped_push(matches@.take(i as int), boundaries@, matches[i as int]);
            assert(matches@.take(i as int).push(matches[i as int]) =~= matches@.take(i + 1));
        }
        append_offset(&mut groups, (doc, size), (train_doc, line_num), offset);
        i += 1;
    }
    proof {
        assert(matches@.take(n as int) =~= matches@);
    }
    Ok(groups)
}

} // verus!
