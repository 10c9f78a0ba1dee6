//! How much of a validation document the matches of one training line cover,
//! and whether that is enough.

use vstd::prelude::*;
use vstd::set_lib::{lemma_int_range, lemma_len_subset, lemma_len_union, set_int_range};
use crate::intervals::{
    Interval, all_proper, covered_points, covers, holds, lemma_separated_width, merge_intervals, separated, total_width,
};

use crate::threshold::{Threshold, required_coverage};

verus! {

/// Position `p` lies in a match of length `match_size` that starts at one of
/// `starts`.
pub open spec fn in_a_match(starts: Seq<u64>, match_size: nat, p: int) -> bool {
    exists|i: int| 0 <= i < starts.len() && (#[trigger] starts[i]) <= p < starts[i] + match_size
}

/// The positions that the matches cover.
pub open spec fn covered_set(starts: Seq<u64>, match_size: nat) -> Set<int> {
    Set::new(|p: int| in_a_match(starts, match_size, p))
}

/// Number of positions that the matches cover: each position counts once,
/// however many matches lie over it.
pub open spec fn covered_bytes(starts: Seq<u64>, match_size: nat) -> nat {
    covered_set(starts, match_size).len()
}

/// The matches cover at least what the threshold `significand / 2^places`
/// asks of the document.
pub open spec fn covers_enough(
    starts: Seq<u64>,
    match_size: nat,
    doc_size: nat,
    significand: nat,
    places: nat,
) -> bool {
    covered_bytes(starts, match_size) >= required_coverage(doc_size, significand, places)
}

/// One more match adds its own positions to those covered before.
pub proof fn lemma_covered_push(starts: Seq<u64>, match_size: nat, start: u64)
    ensures
        covered_set(starts.push(start), match_size) == covered_set(starts, match_size) + set_int_range(
            start as int,
            start + match_size,
        ),
{
    let all = starts.push(start);
    let range = set_int_range(start as int, start + match_size);
    assert forall|p: int| in_a_match(all, match_size, p) <==> in_a_match(starts, match_size, p) || range.contains(p) by {
        if in_a_match(all, match_size, p) {
            let i = choose|i: int| 0 <= i < all.len() && (#[trigger] all[i]) <= p < all[i] + match_size;
            if i < starts.len() {
                assert(starts[i] <= p < starts[i] + match_size);
            }
        }
        if in_a_match(starts, match_size, p) {
            let i = choose|i: int| 0 <= i < starts.len() && (#[trigger] starts[i]) <= p < starts[i] + match_size;
            assert(all[i] <= p < all[i] + match_size);
        }
        if range.contains(p) {
            assert(all[starts.len() as int] <= p < all[starts.len() as int] + match_size);
        }
    }
    assert forall|p: int| covered_set(all, match_size).contains(p) == (covered_set(starts, match_size) + range).contains(
        p,
    ) by {
        assert(covered_set(all, match_size).contains(p) == in_a_match(all, match_size, p));
        assert(covered_set(starts, match_size).contains(p) == in_a_match(starts, match_size, p));
    }
    assert(covered_set(all, match_size) =~= covered_set(starts, match_size) + range);
}

/// The coverage is at most the sum of the lengths of the matches, and at
/// least the length of one match where there is any.
pub proof fn lemma_coverage_bounds(starts: Seq<u64>, match_size: nat)
    ensures
        covered_set(starts, match_size).finite(),
        covered_bytes(starts, match_size) <= starts.len() * match_size,
        starts.len() > 0 ==> covered_bytes(starts, match_size) >= match_size,
    decreases starts.len(),
{
    if starts.len() == 0 {
        assert(covered_set(starts, match_size) =~= Set::<int>::empty());
        assert(starts.len() * match_size == 0) by (nonlinear_arith)
            requires
                starts.len() == 0,
        ;
    } else {
        let init = starts.drop_last();
        let start = starts.last();
        let range = set_int_range(start as int, start + match_size);
        assert(starts =~= init.push(start));
        lemma_coverage_bounds(init, match_size);
        lemma_covered_push(init, match_size, start);
        lemma_int_range(start as int, start + match_size);
        lemma_len_union(covered_set(init, match_size), range);
        assert(range.subset_of(covered_set(starts, match_size)));
        lemma_len_subset(range, covered_set(starts, match_size));
        assert(init.len() * match_size + match_size == starts.len() * match_size) by (nonlinear_arith)
            requires
                init.len() + 1 == starts.len(),
        ;
    }
}

/// The coverage depends on which offsets occur, not on their order nor on how
/// often each occurs.
pub proof fn lemma_coverage_of_same_offsets(a: Seq<u64>, b: Seq<u64>, match_size: nat)
    requires
        a.to_set() == b.to_set(),
    ensures
        covered_bytes(a, match_size) == covered_bytes(b, match_size),
{
    assert forall|p: int| in_a_match(a, match_size, p) <==> in_a_match(b, match_size, p) by {
        if in_a_match(a, match_size, p) {
            let i = choose|i: int| 0 <= i < a.len() && (#[trigger] a[i]) <= p < a[i] + match_size;
            assert(a.contains(a[i]));
            assert(a.to_set().contains(a[i]));
            assert(b.to_set().contains(a[i]));
            assert(b.contains(a[i]));
            let j = choose|j: int| 0 <= j < b.len() && b[j] == a[i];
            assert(b[j] <= p < b[j] + match_size);
        }
        if in_a_match(b, match_size, p) {
            let i = choose|i: int| 0 <= i < b.len() && (#[trigger] b[i]) <= p < b[i] + match_size;
            assert(b.contains(b[i]));
            assert(b.to_set().contains(b[i]));
            assert(a.to_set().contains(b[i]));
            assert(a.contains(b[i]));
            let j = choose|j: int| 0 <= j < a.len() && a[j] == b[i];
            assert(a[j] <= p < a[j] + match_size);
        }
    }
    assert(covered_set(a, match_size) =~= covered_set(b, match_size));
}

/// Number of bytes that matches of length `match_size` starting at
/// `interval_starts` cover together: the intervals are merged and the lengths
/// of the merged intervals added up.
pub fn coverage(interval_starts: &Vec<u64>, match_size: usize) -> (covered: u128)
    ensures
        covered == covered_bytes(interval_starts@, match_size as nat),
{
    let n = interval_starts.len();
    let mut intervals: Vec<Interval> = Vec::new();
    let mut i: usize = 0;
    while i < n
        invariant
            n == interval_starts.len(),
            i <= n,
            intervals.len() == i,
            forall|j: int| 0 <= j < i ==> (#[trigger] intervals[j]).0 == interval_starts[j] && intervals[j].1
                == interval_starts[j] + match_size,
        decreases n - i,
    {
        let start = interval_starts[i] as u128;
        intervals.push((start, start + match_size as u128));
        i += 1;
    }
    let ghost built = intervals@;
    let merged = merge_intervals(intervals, false);
    proof {
        assert forall|p: int| covers(built, p) <==> in_a_match(interval_starts@, match_size as nat, p) by {
            if covers(built, p) {
                let j = choose|j: int| 0 <= j < built.len() && holds(#[trigger] built[j], p);
                assert(interval_starts[j] <= p < interval_starts[j] + match_size);
            }
            if in_a_match(interval_starts@, match_size as nat, p) {
                let j = choose|j: int| 0 <= j < interval_starts.len() && (#[trigger] interval_starts[j]) <= p
                    < interval_starts[j] + match_size;
                assert(holds(built[j], p));
            }
        }
        assert(covered_points(built) =~= covered_set(interval_starts@, match_size as nat));
        assert(all_proper(built));
        lemma_separated_width(merged@);
    }
    let count = merged.len();
    let mut total: u128 = 0;
    let mut k: usize = 0;
    while k < count
        invariant
            count == merged.len(),
            k <= count,
            separated(merged@),
            all_proper(merged@),
            total == total_width(merged@.take(k as int)),
            k > 0 ==> total <= merged[k - 1].1,
        decreases count - k,
    {
        let (start, end) = merged[k];
        proof {
            let seen = merged@.take(k as int);
            let next = merged@.take(k + 1);
            assert(next.drop_last() =~= seen);
            assert(next.last() == merged[k as int]);
            if k > 0 {
                assert(merged[k - 1].1 < merged[k as int].0);
            }
            assert(merged[k as int].0 <= merged[k as int].1);
        }
        total = total + (end - start);
        k += 1;
    }
    proof {
        assert(merged@.take(count as int) =~= merged@);
    }
    total
}

/// Whether the matches of length `match_size` that start at `interval_starts`
/// cover at least the threshold's share of a document of `doc_size` bytes.
pub fn check_threshold(interval_starts: &Vec<u64>, match_size: usize, doc_size: usize, threshold: &Threshold) -> (r: bool)
    ensures
        r == covers_enough(interval_starts@, match_size as nat, doc_size as nat, threshold@.0, threshold@.1),
{
    let required = threshold.required_coverage(doc_size);
    let covered = coverage(interval_starts, match_size);
    covered >= required as u128
}

} // verus!
