//! The contamination decision: which training lines cover enough of which
//! validation documents.

use vstd::prelude::*;
use crate::boundaries::{lemma_document_exists, valid_boundaries};
use crate::coverage::{check_threshold, covers_enough, lemma_coverage_of_same_offsets};
use crate::threshold::{Threshold, lemma_required_monotone, two_to};
use crate::groups::{
    DocGroups, DocKey, DocMap, LineGroups, LineKey, LineMap, doc_groups, doc_key, grouped, in_corpus, into_doc_entries,
    line_entries, line_groups, lists_docs, lists_lines,
};
use crate::records::{ContaminationRecord, RawMatch};

verus! {

/// A validation document's key together with the key of a training line
/// that has matches in it.
pub type GroupKey = (DocKey, LineKey);

/// The record that stands for a group.
pub open spec fn record_of(key: GroupKey) -> ContaminationRecord {
    (key.0.0, key.1.0, key.1.1)
}

/// The records that stand for `keys`, in the same order.
pub open spec fn records_of(keys: Seq<GroupKey>) -> Seq<ContaminationRecord> {
    keys.map_values(|key: GroupKey| record_of(key))
}

/// Training line `(record.1, record.2)` has matches in the document whose
/// matches are `lines`, and they cover enough of it.
pub open spec fn line_contaminates(
    val_doc_id: usize,
    lines: LineMap,
    match_size: nat,
    val_doc_size: nat,
    significand: nat,
    places: nat,
    record: ContaminationRecord,
) -> bool {
    &&& record.0 == val_doc_id
    &&& lines.contains_key((record.1, record.2))
    &&& covers_enough(lines[(record.1, record.2)], match_size, val_doc_size, significand, places)
}

/// The group under `key` exists and its matches cover enough of its
/// document.
pub open spec fn is_hit(groups: DocMap, match_size: nat, significand: nat, places: nat, key: GroupKey) -> bool {
    &&& groups.contains_key(key.0)
    &&& groups[key.0].contains_key(key.1)
    &&& covers_enough(groups[key.0][key.1], match_size, key.0.1 as nat, significand, places)
}

/// `keys` names every group that covers enough, each once.
pub open spec fn lists_hits(keys: Seq<GroupKey>, groups: DocMap, match_size: nat, significand: nat, places: nat) -> bool {
    &&& keys.no_duplicates()
    &&& forall|key: GroupKey| #[trigger] keys.contains(key) <==> is_hit(groups, match_size, significand, places, key)
}

/// `records` is the decision on `groups`: one record for each group that
/// covers enough, in some order.
pub open spec fn decided(
    records: Seq<ContaminationRecord>,
    groups: DocMap,
    match_size: nat,
    significand: nat,
    places: nat,
) -> bool {
    exists|keys: Seq<GroupKey>| #[trigger]
        lists_hits(keys, groups, match_size, significand, places) && records == records_of(keys)
}

/// The records that the decision on `groups` consists of, as a set.
pub open spec fn contaminated(groups: DocMap, match_size: nat, significand: nat, places: nat) -> Set<ContaminationRecord> {
    Set::new(
        |record: ContaminationRecord|
            exists|key: GroupKey| #[trigger]
                is_hit(groups, match_size, significand, places, key) && record_of(key) == record,
    )
}

/// No two keys of `groups` name one validation document with two sizes.
pub open spec fn sizes_determined(groups: DocMap) -> bool {
    forall|a: DocKey, b: DocKey| #[trigger] groups.contains_key(a) && #[trigger] groups.contains_key(b) && a.0 == b.0 ==> a == b
}

/// A decision holds exactly the contaminated records, and holds none twice
/// where each validation document has one size.
pub proof fn lemma_decided_records(
    records: Seq<ContaminationRecord>,
    groups: DocMap,
    match_size: nat,
    significand: nat,
    places: nat,
)
    requires
        decided(records, groups, match_size, significand, places),
    ensures
        records.to_set() == contaminated(groups, match_size, significand, places),
        sizes_determined(groups) ==> records.no_duplicates(),
{
    let keys = choose|keys: Seq<GroupKey>| #[trigger]
        lists_hits(keys, groups, match_size, significand, places) && records == records_of(keys);
    let target = contaminated(groups, match_size, significand, places);
    assert forall|record: ContaminationRecord| records.to_set().contains(record) <==> target.contains(record) by {
        if records.to_set().contains(record) {
            assert(records.contains(record));
            let i = choose|i: int| 0 <= i < records.len() && records[i] == record;
            assert(keys.contains(keys[i]));
            assert(is_hit(groups, match_size, significand, places, keys[i]) && record_of(keys[i]) == record);
        }
        if target.contains(record) {
            let key = choose|key: GroupKey| #[trigger]
                is_hit(groups, match_size, significand, places, key) && record_of(key) == record;
            assert(keys.contains(key));
            let i = choose|i: int| 0 <= i < keys.len() && keys[i] == key;
            assert(records[i] == record);
            assert(records.contains(record));
        }
    }
    assert(records.to_set() =~= target);
    if sizes_determined(groups) {
        assert forall|i: int, j: int| 0 <= i < records.len() && 0 <= j < records.len() && i != j implies records[i]
            != records[j] by {
            assert(keys.contains(keys[i]));
            assert(keys.contains(keys[j]));
            assert(is_hit(groups, match_size, significand, places, keys[i]));
            assert(is_hit(groups, match_size, significand, places, keys[j]));
            if records[i] == records[j] {
                assert(groups.contains_key(keys[i].0) && groups.contains_key(keys[j].0));
                assert(keys[i].0 == keys[j].0);
                assert(keys[i] == keys[j]);
            }
        }
    }
}

/// A grouping of matches that lie inside the corpus gives each validation
/// document one size.
pub proof fn lemma_grouped_sizes(matches: Seq<RawMatch>, offsets: Seq<u64>)
    requires
        valid_boundaries(offsets),
        offsets.len() - 1 <= usize::MAX,
        forall|i: int| 0 <= i < matches.len() ==> in_corpus(offsets, #[trigger] matches[i]),
    ensures
        sizes_determined(grouped(matches, offsets)),
{
    let groups = grouped(matches, offsets);
    assert forall|a: DocKey, b: DocKey| #[trigger]
        groups.contains_key(a) && #[trigger] groups.contains_key(b) && a.0 == b.0 implies a == b by {
        let i = choose|i: int| 0 <= i < matches.len() && doc_key(offsets, #[trigger] matches[i]) == a;
        let j = choose|j: int| 0 <= j < matches.len() && doc_key(offsets, #[trigger] matches[j]) == b;
        lemma_document_exists(offsets, matches[i].2);
        lemma_document_exists(offsets, matches[j].2);
    }
}

/// Two groupings have the same groups, and each group holds the same
/// offsets in both, in whatever order and however often.
pub open spec fn same_offsets(a: DocMap, b: DocMap) -> bool {
    &&& forall|doc: DocKey| a.contains_key(doc) <==> b.contains_key(doc)
    &&& forall|doc: DocKey, line: LineKey|
        a.contains_key(doc) ==> (#[trigger] a[doc].contains_key(line) <==> b[doc].contains_key(line))
    &&& forall|doc: DocKey, line: LineKey|
        a.contains_key(doc) && a[doc].contains_key(line) ==> (#[trigger] a[doc][line]).to_set() == b[doc][line].to_set()
}

/// The decision does not depend on the order in which the offsets of a group
/// were filed, nor on how often one was filed.
pub proof fn lemma_decision_of_same_offsets(a: DocMap, b: DocMap, match_size: nat, significand: nat, places: nat)
    requires
        same_offsets(a, b),
    ensures
        contaminated(a, match_size, significand, places) == contaminated(b, match_size, significand, places),
{
    let in_a = contaminated(a, match_size, significand, places);
    let in_b = contaminated(b, match_size, significand, places);
    assert forall|record: ContaminationRecord| in_a.contains(record) <==> in_b.contains(record) by {
        if in_a.contains(record) {
            let key = choose|key: GroupKey| #[trigger]
                is_hit(a, match_size, significand, places, key) && record_of(key) == record;
            assert(a[key.0].contains_key(key.1));
            assert(a[key.0][key.1].to_set() == b[key.0][key.1].to_set());
            lemma_coverage_of_same_offsets(a[key.0][key.1], b[key.0][key.1], match_size);
            assert(is_hit(b, match_size, significand, places, key) && record_of(key) == record);
        }
        if in_b.contains(record) {
            let key = choose|key: GroupKey| #[trigger]
                is_hit(b, match_size, significand, places, key) && record_of(key) == record;
            assert(a.contains_key(key.0));
            assert(a[key.0].contains_key(key.1));
            assert(a[key.0][key.1].to_set() == b[key.0][key.1].to_set());
            lemma_coverage_of_same_offsets(a[key.0][key.1], b[key.0][key.1], match_size);
            assert(is_hit(a, match_size, significand, places, key) && record_of(key) == record);
        }
    }
    assert(in_a =~= in_b);
}

/// Raising the threshold can only take records away: of two thresholds
/// `s1 / 2^p1 <= s2 / 2^p2`, whatever is contaminated at the second is
/// contaminated at the first.
pub proof fn lemma_threshold_monotone(groups: DocMap, match_size: nat, s1: nat, p1: nat, s2: nat, p2: nat)
    requires
        s1 * two_to(p2) <= s2 * two_to(p1),
    ensures
        contaminated(groups, match_size, s2, p2).subset_of(contaminated(groups, match_size, s1, p1)),
{
    assert forall|record: ContaminationRecord| contaminated(groups, match_size, s2, p2).contains(record) implies contaminated(
        groups,
        match_size,
        s1,
        p1,
    ).contains(record) by {
        let key = choose|key: GroupKey| #[trigger] is_hit(groups, match_size, s2, p2, key) && record_of(key) == record;
        lemma_required_monotone(key.0.1 as nat, s1, p1, s2, p2);
        assert(is_hit(groups, match_size, s1, p1, key) && record_of(key) == record);
    }
}

/// Some entry before `limit` is the one of training line `line` and covers
/// enough.
pub open spec fn passed_before(
    entries: Seq<(LineKey, Vec<u64>)>,
    limit: int,
    match_size: nat,
    val_doc_size: nat,
    significand: nat,
    places: nat,
    line: LineKey,
) -> bool {
    exists|j: int|
        0 <= j < limit && (#[trigger] entries[j]).0 == line && covers_enough(
            entries[j].1@,
            match_size,
            val_doc_size,
            significand,
            places,
        )
}

/// The records of one validation document: one for each training line whose
/// matches cover at least the threshold's share of the document.
pub fn merge_matches(
    val_doc_id: usize,
    doc_matches: &LineGroups,
    match_size: usize,
    val_doc_size: usize,
    threshold: &Threshold,
) -> (records: Vec<ContaminationRecord>)
    ensures
        records@.no_duplicates(),
        forall|record: ContaminationRecord| #[trigger]
            records@.contains(record) <==> line_contaminates(
                val_doc_id,
                line_groups(*doc_matches),
                match_size as nat,
                val_doc_size as nat,
                threshold@.0,
                threshold@.1,
                record,
            ),
{
    let entries = line_entries(doc_matches);
    let ghost lines = line_groups(*doc_matches);
    let ghost m = match_size as nat;
    let ghost size = val_doc_size as nat;
    let ghost num = threshold@.0;
    let ghost den = threshold@.1;
    let mut output: Vec<ContaminationRecord> = Vec::new();
    let n = entries.len();
    let mut i: usize = 0;
    while i < n
        invariant
            n == entries.len(),
            i <= n,
            lists_lines(entries@, lines),
            m == match_size as nat,
            size == val_doc_size as nat,
            num == threshold@.0,
            den == threshold@.1,
            output@.no_duplicates(),
            forall|x: int|
                0 <= x < output.len() ==> (#[trigger] output[x]).0 == val_doc_id && passed_before(
                    entries@,
                    i as int,
                    m,
                    size,
                    num,
                    den,
                    (output[x].1, output[x].2),
                ),
            forall|j: int|
                0 <= j < i && covers_enough((#[trigger] entries[j]).1@, m, size, num, den) ==> output@.contains(
                    (val_doc_id, entries[j].0.0, entries[j].0.1),
                ),
        decreases n - i,
    {
        let (train_path_id, line_num) = entries[i].0;
        let ghost before = output@;
        if check_threshold(&entries[i].1, match_size, val_doc_size, threshold) {
            output.push((val_doc_id, train_path_id, line_num));
            proof {
                let pushed = (val_doc_id, train_path_id, line_num);
                assert(output@[before.len() as int] == pushed);
                assert forall|x: int| 0 <= x < before.len() implies before[x] != pushed by {
                    if before[x] == pushed {
                        let j = choose|j: int|
                            0 <= j < i && (#[trigger] entries[j]).0 == (before[x].1, before[x].2) && covers_enough(
                                entries[j].1@,
                                m,
                                size,
                                num,
                                den,
                            );
                        assert(entries[j].0 != entries[i as int].0);
                    }
                }
                assert forall|j: int|
                    0 <= j < i + 1 && covers_enough((#[trigger] entries[j]).1@, m, size, num, den) implies output@.contains(
                    (val_doc_id, entries[j].0.0, entries[j].0.1),
                ) by {
                    if j < i {
                        let record = (val_doc_id, entries[j].0.0, entries[j].0.1);
                        assert(before.contains(record));
                        let x = choose|x: int| 0 <= x < before.len() && before[x] == record;
                        assert(output@[x] == record);
                    }
                }
            }
        }
        proof {
            assert forall|x: int| 0 <= x < output.len() implies passed_before(
                entries@,
                i + 1,
                m,
                size,
                num,
                den,
                ((#[trigger] output[x]).1, output[x].2),
            ) by {
                if x < before.len() {
                    assert(output[x] == before[x]);
                    let j = choose|j: int|
                        0 <= j < i && (#[trigger] entries[j]).0 == (before[x].1, before[x].2) && covers_enough(
                            entries[j].1@,
                            m,
                            size,
                            num,
                            den,
                        );
                    assert(0 <= j < i + 1);
                } else {
                    assert(entries[i as int].0 == (output[x].1, output[x].2));
                }
            }
        }
        i += 1;
    }
    proof {
        assert forall|record: ContaminationRecord| #[trigger]
            output@.contains(record) <==> line_contaminates(val_doc_id, lines, m, size, num, den, record) by {
            if output@.contains(record) {
                let x = choose|x: int| 0 <= x < output.len() && output[x] == record;
                let j = choose|j: int|
                    0 <= j < n && (#[trigger] entries[j]).0 == (output[x].1, output[x].2) && covers_enough(
                        entries[j].1@,
                        m,
                        size,
                        num,
                        den,
                    );
                assert(lines.contains_key(entries[j].0));
                assert(lines[entries[j].0] == entries[j].1@);
            }
            if line_contaminates(val_doc_id, lines, m, size, num, den, record) {
                let key = (record.1, record.2);
                let j = choose|j: int| 0 <= j < entries.len() && (#[trigger] entries[j]).0 == key;
                assert(lines[entries[j].0] == entries[j].1@);
                assert(output@.contains((val_doc_id, entries[j].0.0, entries[j].0.1)));
            }
        }
    }
    output
}

/// Some entry before `limit` is the one of validation document `doc`.
pub open spec fn doc_seen(entries: Seq<(DocKey, LineGroups)>, limit: int, doc: DocKey) -> bool {
    exists|j: int| 0 <= j < limit && (#[trigger] entries[j]).0 == doc
}

/// The keys of the groups that the records of one validation document stand
/// for.
pub open spec fn keys_of(doc: DocKey, records: Seq<ContaminationRecord>) -> Seq<GroupKey> {
    records.map_values(|record: ContaminationRecord| (doc, (record.1, record.2)))
}

/// Decides, for every validation document and every training line with
/// matches in it, whether the matches cover at least the threshold's share of
/// the document, and returns one record for each that does.
pub fn decide(groups: DocGroups, match_size: usize, threshold: &Threshold) -> (records: Vec<ContaminationRecord>)
    ensures
        decided(records@, doc_groups(groups), match_size as nat, threshold@.0, threshold@.1),
{
    let ghost all = doc_groups(groups);
    let ghost m = match_size as nat;
    let ghost num = threshold@.0;
    let ghost den = threshold@.1;
    let entries = into_doc_entries(groups);
    let mut records: Vec<ContaminationRecord> = Vec::new();
    let ghost mut keys: Seq<GroupKey> = Seq::empty();
    let n = entries.len();
    let mut i: usize = 0;
    proof {
        assert(records@ =~= records_of(keys));
    }
    while i < n
        invariant
            n == entries.len(),
            i <= n,
            lists_docs(entries@, all),
            m == match_size as nat,
            num == threshold@.0,
            den == threshold@.1,
            records@ == records_of(keys),
            keys.no_duplicates(),
            forall|key: GroupKey| #[trigger]
                keys.contains(key) <==> is_hit(all, m, num, den, key) && doc_seen(entries@, i as int, key.0),
        decreases n - i,
    {
        let doc = entries[i].0;
        let mut found = merge_matches(doc.0, &entries[i].1, match_size, doc.1, threshold);
        let ghost lines = line_groups(entries[i as int].1);
        let ghost added = keys_of(doc, found@);
        let ghost before = keys;
        proof {
            assert(all.contains_key(entries[i as int].0));
            assert(all[doc] == lines);
            assert forall|a: int| 0 <= a < added.len() implies #[trigger] found@.contains(found@[a]) by {}
            assert forall|a: int| 0 <= a < added.len() implies record_of(#[trigger] added[a]) == found@[a] by {
                assert(found@.contains(found@[a]));
            }
            assert(records_of(before + added) =~= records@ + found@);
            assert forall|key: GroupKey| #[trigger]
                (before + added).contains(key) <==> is_hit(all, m, num, den, key) && doc_seen(entries@, i + 1, key.0) by {
                if (before + added).contains(key) {
                    let a = choose|a: int| 0 <= a < (before + added).len() && (before + added)[a] == key;
                    if a < before.len() {
                        assert(before.contains(key));
                        let j = choose|j: int| 0 <= j < i && (#[trigger] entries[j]).0 == key.0;
                        assert(0 <= j < i + 1);
                    } else {
                        let b = a - before.len();
                        assert(added[b] == key);
                        assert(found@.contains(found@[b]));
                        assert(entries[i as int].0 == key.0);
                    }
                }
                if is_hit(all, m, num, den, key) && doc_seen(entries@, i + 1, key.0) {
                    let j = choose|j: int| 0 <= j < i + 1 && (#[trigger] entries[j]).0 == key.0;
                    if j < i {
                        assert(doc_seen(entries@, i as int, key.0));
                        assert(before.contains(key));
                        let a = choose|a: int| 0 <= a < before.len() && before[a] == key;
                        assert((before + added)[a] == key);
                    } else {
                        let record = (doc.0, key.1.0, key.1.1);
                        assert(line_contaminates(doc.0, lines, m, doc.1 as nat, num, den, record));
                        assert(found@.contains(record));
                        let b = choose|b: int| 0 <= b < found@.len() && found@[b] == record;
                        assert(added[b] == key);
                        assert((before + added)[before.len() + b] == key);
                    }
                }
            }
            assert forall|a: int, b: int| 0 <= a < (before + added).len() && 0 <= b < (before + added).len() && a
                != b implies (before + added)[a] != (before + added)[b] by {
                if a < before.len() && b < before.len() {
                } else if a >= before.len() && b >= before.len() {
                    let x = a - before.len();
                    let y = b - before.len();
                    assert(found@.contains(found@[x]));
                    assert(found@.contains(found@[y]));
                    assert(found@[x] != found@[y]);
                } else {
                    let (old, new) = if a < before.len() {
                        (a, b - before.len())
                    } else {
                        (b, a - before.len())
                    };
                    assert(before.contains(before[old]));
                    if before[old] == added[new] {
                        let j = choose|j: int| 0 <= j < i && (#[trigger] entries[j]).0 == before[old].0;
                        assert(entries[j].0 != entries[i as int].0);
                    }
                }
            }
            keys = before + added;
        }
        records.append(&mut found);
        i += 1;
    }
    proof {
        assert forall|key: GroupKey| #[trigger] keys.contains(key) <==> is_hit(all, m, num, den, key) by {
            if is_hit(all, m, num, den, key) {
                let j = choose|j: int| 0 <= j < entries.len() && (#[trigger] entries[j]).0 == key.0;
                assert(doc_seen(entries@, n as int, key.0));
            }
        }
        assert(lists_hits(keys, all, m, num, den));
    }
    records
}

} // verus!
