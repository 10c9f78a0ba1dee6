//! Half-open intervals of byte positions and their merge.

use vstd::prelude::*;
use vstd::set_lib::{lemma_int_range, lemma_set_disjoint_lens, set_int_range};

verus! {

/// The positions `p` with `start <= p < end`, written `(start, end)`.
pub type Interval = (u128, u128);

/// Position `p` lies in `interval`.
pub open spec fn holds(interval: Interval, p: int) -> bool {
    interval.0 <= p < interval.1
}

/// Position `p` lies in one of `intervals`.
pub open spec fn covers(intervals: Seq<Interval>, p: int) -> bool {
    exists|i: int| 0 <= i < intervals.len() && holds(#[trigger] intervals[i], p)
}

/// The positions that lie in one of `intervals`.
pub open spec fn covered_points(intervals: Seq<Interval>) -> Set<int> {
    Set::new(|p: int| covers(intervals, p))
}

/// No interval ends before it starts.
pub open spec fn all_proper(intervals: Seq<Interval>) -> bool {
    forall|i: int| 0 <= i < intervals.len() ==> (#[trigger] intervals[i]).0 <= intervals[i].1
}

/// The starts never decrease.
pub open spec fn sorted_by_start(intervals: Seq<Interval>) -> bool {
    forall|i: int, j: int| 0 <= i <= j < intervals.len() ==> (#[trigger] intervals[i]).0 <= (#[trigger] intervals[j]).0
}

/// Each interval ends strictly before the next one starts: the intervals are
/// in order, share no position and do not even touch.
pub open spec fn separated(intervals: Seq<Interval>) -> bool {
    forall|i: int, j: int| 0 <= i < j < intervals.len() ==> (#[trigger] intervals[i]).1 < (#[trigger] intervals[j]).0
}

/// Some interval of `intervals` starts at `start`.
pub open spec fn has_start(intervals: Seq<Interval>, start: u128) -> bool {
    exists|k: int| 0 <= k < intervals.len() && (#[trigger] intervals[k]).0 == start
}

/// Some interval of `intervals` ends at `end`.
pub open spec fn has_end(intervals: Seq<Interval>, end: u128) -> bool {
    exists|k: int| 0 <= k < intervals.len() && (#[trigger] intervals[k]).1 == end
}

/// Some interval of `intervals` reaches from `interval`'s start, or before
/// it, to its end, or past it.
pub open spec fn encloses(intervals: Seq<Interval>, interval: Interval) -> bool {
    exists|i: int| 0 <= i < intervals.len() && (#[trigger] intervals[i]).0 <= interval.0 && interval.1 <= intervals[i].1
}

/// Sum of the lengths of `intervals`.
pub open spec fn total_width(intervals: Seq<Interval>) -> int
    decreases intervals.len(),
{
    if intervals.len() == 0 {
        0
    } else {
        total_width(intervals.drop_last()) + (intervals.last().1 - intervals.last().0)
    }
}

/// `merged` is a merge of `intervals`: separated intervals, in order, made of
/// starts and ends of `intervals`, that cover the same positions, each proper
/// interval of `intervals` inside one of them. Proper intervals have one
/// merge only (`lemma_merge_unique`).
pub open spec fn is_merge_of(merged: Seq<Interval>, intervals: Seq<Interval>) -> bool {
    &&& separated(merged)
    &&& sorted_by_start(merged)
    &&& forall|i: int| 0 <= i < merged.len() ==> #[trigger] has_start(intervals, merged[i].0)
    &&& forall|i: int| 0 <= i < merged.len() ==> #[trigger] has_end(intervals, merged[i].1)
    &&& forall|k: int| 0 <= k < intervals.len() && intervals[k].0 <= intervals[k].1 ==> #[trigger] encloses(merged, intervals[k])
    &&& covered_points(merged) == covered_points(intervals)
    &&& all_proper(intervals) ==> all_proper(merged)
}

/// One more interval covers its own positions besides those covered before.
pub proof fn lemma_covers_push(intervals: Seq<Interval>, interval: Interval)
    ensures
        forall|p: int| covers(intervals.push(interval), p) <==> covers(intervals, p) || holds(interval, p),
{
    let all = intervals.push(interval);
    assert forall|p: int| covers(all, p) <==> covers(intervals, p) || holds(interval, p) by {
        if covers(all, p) {
            let i = choose|i: int| 0 <= i < all.len() && holds(#[trigger] all[i], p);
            if i < intervals.len() {
                assert(holds(intervals[i], p));
            }
        }
        if covers(intervals, p) {
            let i = choose|i: int| 0 <= i < intervals.len() && holds(#[trigger] intervals[i], p);
            assert(holds(all[i], p));
        }
        if holds(interval, p) {
            assert(holds(all[intervals.len() as int], p));
        }
    }
}

/// Separated proper intervals cover as many positions as their lengths add up
/// to, and no more than lie between the first start and the last end.
pub proof fn lemma_separated_width(intervals: Seq<Interval>)
    requires
        separated(intervals),
        all_proper(intervals),
    ensures
        covered_points(intervals).finite(),
        covered_points(intervals).len() == total_width(intervals),
        total_width(intervals) >= 0,
        intervals.len() > 0 ==> total_width(intervals) <= intervals.last().1 - intervals[0].0,
    decreases intervals.len(),
{
    if intervals.len() == 0 {
        assert(covered_points(intervals) =~= Set::<int>::empty());
    } else {
        let init = intervals.drop_last();
        let last = intervals.last();
        assert(intervals =~= init.push(last));
        assert forall|i: int| 0 <= i < init.len() implies init[i] == intervals[i] by {}
        lemma_separated_width(init);
        lemma_covers_push(init, last);
        let range = set_int_range(last.0 as int, last.1 as int);
        lemma_int_range(last.0 as int, last.1 as int);
        assert(covered_points(intervals) =~= covered_points(init) + range);
        assert(covered_points(init).disjoint(range)) by {
            assert forall|p: int| !(covered_points(init).contains(p) && range.contains(p)) by {
                if covers(init, p) {
                    let i = choose|i: int| 0 <= i < init.len() && holds(#[trigger] init[i], p);
                    assert(intervals[i].1 < intervals[intervals.len() - 1].0);
                }
            }
        }
        lemma_set_disjoint_lens(covered_points(init), range);
        if init.len() > 0 {
            assert(intervals[init.len() - 1].1 < intervals[intervals.len() - 1].0);
            assert(init.last() == intervals[init.len() - 1]);
            assert(init[0] == intervals[0]);
        }
    }
}

/// Sequences with the same elements, however arranged, hold each other's
/// elements.
proof fn lemma_same_elements(a: Seq<Interval>, b: Seq<Interval>)
    requires
        a.to_multiset() == b.to_multiset(),
    ensures
        forall|i: int| 0 <= i < a.len() ==> b.contains(#[trigger] a[i]),
        forall|i: int| 0 <= i < b.len() ==> a.contains(#[trigger] b[i]),
{
    a.to_multiset_ensures();
    b.to_multiset_ensures();
    assert forall|i: int| 0 <= i < a.len() implies b.contains(#[trigger] a[i]) by {
        assert(a.contains(a[i]));
        assert(a.to_multiset().count(a[i]) > 0);
        assert(b.to_multiset().count(a[i]) > 0);
    }
    assert forall|i: int| 0 <= i < b.len() implies a.contains(#[trigger] b[i]) by {
        assert(b.contains(b[i]));
        assert(b.to_multiset().count(b[i]) > 0);
        assert(a.to_multiset().count(b[i]) > 0);
    }
}

/// What holds of each element of `a` in turn holds of `b`, when `b` has every
/// element of `a`.
proof fn lemma_cover_within(a: Seq<Interval>, b: Seq<Interval>)
    requires
        forall|i: int| 0 <= i < a.len() ==> b.contains(#[trigger] a[i]),
    ensures
        forall|p: int| covers(a, p) ==> covers(b, p),
        forall|x: u128| has_start(a, x) ==> has_start(b, x),
        forall|x: u128| has_end(a, x) ==> has_end(b, x),
        all_proper(b) ==> all_proper(a),
{
    assert forall|p: int| covers(a, p) implies covers(b, p) by {
        let i = choose|i: int| 0 <= i < a.len() && holds(#[trigger] a[i], p);
        assert(b.contains(a[i]));
        let j = choose|j: int| 0 <= j < b.len() && b[j] == a[i];
        assert(holds(b[j], p));
    }
    assert forall|x: u128| has_start(a, x) implies has_start(b, x) by {
        let i = choose|i: int| 0 <= i < a.len() && (#[trigger] a[i]).0 == x;
        assert(b.contains(a[i]));
        let j = choose|j: int| 0 <= j < b.len() && b[j] == a[i];
        assert(b[j].0 == x);
    }
    assert forall|x: u128| has_end(a, x) implies has_end(b, x) by {
        let i = choose|i: int| 0 <= i < a.len() && (#[trigger] a[i]).1 == x;
        assert(b.contains(a[i]));
        let j = choose|j: int| 0 <= j < b.len() && b[j] == a[i];
        assert(b[j].1 == x);
    }
    if all_proper(b) {
        assert forall|i: int| 0 <= i < a.len() implies (#[trigger] a[i]).0 <= a[i].1 by {
            assert(b.contains(a[i]));
            let j = choose|j: int| 0 <= j < b.len() && b[j] == a[i];
            assert(b[j].0 <= b[j].1);
        }
    }
}

/// A merge of a rearrangement of `intervals` is a merge of `intervals`.
proof fn lemma_merge_of_rearranged(merged: Seq<Interval>, sorted: Seq<Interval>, intervals: Seq<Interval>)
    requires
        is_merge_of(merged, sorted),
        sorted.to_multiset() == intervals.to_multiset(),
    ensures
        is_merge_of(merged, intervals),
{
    lemma_same_elements(sorted, intervals);
    lemma_cover_within(sorted, intervals);
    lemma_cover_within(intervals, sorted);
    assert(covered_points(sorted) =~= covered_points(intervals));
    assert forall|k: int| 0 <= k < intervals.len() && intervals[k].0 <= intervals[k].1 implies #[trigger] encloses(
        merged,
        intervals[k],
    ) by {
        assert(sorted.contains(intervals[k]));
        let j = choose|j: int| 0 <= j < sorted.len() && sorted[j] == intervals[k];
        assert(encloses(merged, sorted[j]));
    }
}

/// Whatever started, ended or lay inside a run before still does after one
/// more interval was taken in and the last run, if any, was stretched.
proof fn lemma_sources_kept(before: Seq<Interval>, after: Seq<Interval>, seen: Seq<Interval>, x: Interval)
    requires
        before.len() <= after.len(),
        forall|i: int| 0 <= i < before.len() ==> (#[trigger] after[i]).0 == before[i].0 && before[i].1 <= after[i].1,
        forall|i: int| 0 <= i < before.len() - 1 ==> (#[trigger] after[i]).1 == before[i].1,
        forall|i: int| 0 <= i < before.len() ==> #[trigger] has_start(seen, before[i].0),
        forall|i: int| 0 <= i < before.len() ==> #[trigger] has_end(seen, before[i].1),
        forall|k: int| 0 <= k < seen.len() && seen[k].0 <= seen[k].1 ==> #[trigger] encloses(before, seen[k]),
    ensures
        forall|i: int| 0 <= i < before.len() ==> #[trigger] has_start(seen.push(x), after[i].0),
        forall|i: int| 0 <= i < before.len() - 1 ==> #[trigger] has_end(seen.push(x), after[i].1),
        forall|i: int| 0 <= i < before.len() ==> #[trigger] has_end(seen.push(x), before[i].1),
        forall|k: int| 0 <= k < seen.len() && seen[k].0 <= seen[k].1 ==> #[trigger] encloses(after, seen[k]),
{
    let next = seen.push(x);
    assert forall|j: int| 0 <= j < seen.len() implies #[trigger] next[j] == seen[j] by {}
    assert forall|i: int| 0 <= i < before.len() implies #[trigger] has_start(next, after[i].0) by {
        assert(has_start(seen, before[i].0));
        let j = choose|j: int| 0 <= j < seen.len() && (#[trigger] seen[j]).0 == before[i].0;
        assert(next[j].0 == after[i].0);
    }
    assert forall|i: int| 0 <= i < before.len() implies #[trigger] has_end(next, before[i].1) by {
        assert(has_end(seen, before[i].1));
        let j = choose|j: int| 0 <= j < seen.len() && (#[trigger] seen[j]).1 == before[i].1;
        assert(next[j].1 == before[i].1);
    }
    assert forall|i: int| 0 <= i < before.len() - 1 implies #[trigger] has_end(next, after[i].1) by {
        assert(has_end(next, before[i].1));
    }
    assert forall|k: int| 0 <= k < seen.len() && seen[k].0 <= seen[k].1 implies #[trigger] encloses(after, seen[k]) by {
        assert(encloses(before, seen[k]));
        let i = choose|i: int| 0 <= i < before.len() && (#[trigger] before[i]).0 <= seen[k].0 && seen[k].1 <= before[i].1;
        assert(after[i].0 <= seen[k].0 && seen[k].1 <= after[i].1);
    }
}

/// A run opened past the end of the last one keeps the runs in order and
/// apart.
proof fn lemma_open_keeps_apart(merged: Seq<Interval>, x: Interval)
    requires
        separated(merged),
        sorted_by_start(merged),
        merged.len() > 0 ==> merged.last().0 <= x.0 && merged.last().1 < x.0,
    ensures
        separated(merged.push(x)),
        sorted_by_start(merged.push(x)),
{
    let after = merged.push(x);
    let last = merged.len() as int;
    assert forall|i: int, j: int| 0 <= i < j < after.len() implies (#[trigger] after[i]).1 < (#[trigger] after[j]).0 by {
        if j < last {
            assert(merged[i].1 < merged[j].0);
        } else if i < last - 1 {
            assert(merged[i].1 < merged[last - 1].0);
        }
    }
    assert forall|i: int, j: int| 0 <= i <= j < after.len() implies (#[trigger] after[i]).0 <= (#[trigger] after[j]).0 by {
        if j < last {
            assert(merged[i].0 <= merged[j].0);
        } else if i < last {
            assert(merged[i].0 <= merged[last - 1].0);
        }
    }
}

/// Stretching the end of the last run keeps the runs in order and apart.
proof fn lemma_stretch_keeps_apart(merged: Seq<Interval>, stretched: Interval)
    requires
        separated(merged),
        sorted_by_start(merged),
        merged.len() > 0,
        stretched.0 == merged.last().0,
    ensures
        separated(merged.update(merged.len() - 1, stretched)),
        sorted_by_start(merged.update(merged.len() - 1, stretched)),
{
    let after = merged.update(merged.len() - 1, stretched);
    assert forall|i: int, j: int| 0 <= i < j < after.len() implies (#[trigger] after[i]).1 < (#[trigger] after[j]).0 by {
        assert(merged[i].1 < merged[j].0);
    }
    assert forall|i: int, j: int| 0 <= i <= j < after.len() implies (#[trigger] after[i]).0 <= (#[trigger] after[j]).0 by {
        assert(merged[i].0 <= merged[j].0);
    }
}

/// Runs that cover what was seen cover, with one more run, one more interval.
proof fn lemma_open_covers(merged: Seq<Interval>, seen: Seq<Interval>, x: Interval)
    requires
        covered_points(merged) == covered_points(seen),
    ensures
        covered_points(merged.push(x)) == covered_points(seen.push(x)),
{
    lemma_covers_push(merged, x);
    lemma_covers_push(seen, x);
    assert forall|p: int| covers(merged.push(x), p) <==> covers(seen.push(x), p) by {
        assert(covers(merged, p) == covered_points(merged).contains(p));
        assert(covers(seen, p) == covered_points(seen).contains(p));
    }
    assert(covered_points(merged.push(x)) =~= covered_points(seen.push(x)));
}

/// Runs that cover what was seen cover, with the last run stretched over an
/// interval that starts in it or at its end, that interval too.
proof fn lemma_stretch_covers(merged: Seq<Interval>, seen: Seq<Interval>, x: Interval, stretched: Interval)
    requires
        covered_points(merged) == covered_points(seen),
        merged.len() > 0,
        merged.last().0 <= x.0 <= merged.last().1,
        stretched.0 == merged.last().0,
        stretched.1 == if x.1 > merged.last().1 { x.1 } else { merged.last().1 },
    ensures
        covered_points(merged.update(merged.len() - 1, stretched)) == covered_points(seen.push(x)),
{
    let after = merged.update(merged.len() - 1, stretched);
    let init = merged.drop_last();
    assert(merged =~= init.push(merged.last()));
    assert(after =~= init.push(stretched));
    lemma_covers_push(init, merged.last());
    lemma_covers_push(init, stretched);
    lemma_covers_push(seen, x);
    assert forall|p: int| covers(after, p) <==> covers(seen.push(x), p) by {
        assert(covers(merged, p) == covered_points(merged).contains(p));
        assert(covers(seen, p) == covered_points(seen).contains(p));
        assert(holds(stretched, p) <==> holds(merged.last(), p) || holds(x, p));
    }
    assert(covered_points(after) =~= covered_points(seen.push(x)));
}

/// Runs made of proper intervals stay proper when the next proper interval
/// opens a run or stretches the last one.
proof fn lemma_step_proper(merged: Seq<Interval>, after: Seq<Interval>, seen: Seq<Interval>, x: Interval)
    requires
        all_proper(seen) ==> all_proper(merged),
        merged.len() <= after.len() <= merged.len() + 1,
        forall|i: int| 0 <= i < merged.len() ==> (#[trigger] after[i]).0 == merged[i].0 && merged[i].1 <= after[i].1,
        after.len() > merged.len() ==> after.last() == x,
    ensures
        all_proper(seen.push(x)) ==> all_proper(after),
{
    let next = seen.push(x);
    if all_proper(next) {
        assert forall|j: int| 0 <= j < seen.len() implies (#[trigger] seen[j]).0 <= seen[j].1 by {
            assert(next[j].0 <= next[j].1);
        }
        assert(next[seen.len() as int] == x);
        assert forall|i: int| 0 <= i < after.len() implies (#[trigger] after[i]).0 <= after[i].1 by {
            if i < merged.len() {
                assert(merged[i].0 <= merged[i].1);
            }
        }
    }
}

/// The starts and ends of the runs after a step are starts and ends of what
/// was seen, and every proper interval seen lies inside a run.
proof fn lemma_step_sources(merged: Seq<Interval>, after: Seq<Interval>, seen: Seq<Interval>, x: Interval)
    requires
        merged.len() <= after.len() <= merged.len() + 1,
        forall|i: int| 0 <= i < merged.len() ==> (#[trigger] after[i]).0 == merged[i].0 && merged[i].1 <= after[i].1,
        forall|i: int| 0 <= i < merged.len() - 1 ==> (#[trigger] after[i]).1 == merged[i].1,
        after.len() > merged.len() ==> after.last() == x,
        after.len() > merged.len() > 0 ==> after[merged.len() - 1].1 == merged.last().1,
        after.len() == merged.len() ==> after.len() > 0 && after.last().0 <= x.0 && (after.last().1 == x.1
            || after.last().1 == merged.last().1) && x.1 <= after.last().1,
        forall|i: int| 0 <= i < merged.len() ==> #[trigger] has_start(seen, merged[i].0),
        forall|i: int| 0 <= i < merged.len() ==> #[trigger] has_end(seen, merged[i].1),
        forall|k: int| 0 <= k < seen.len() && seen[k].0 <= seen[k].1 ==> #[trigger] encloses(merged, seen[k]),
    ensures
        forall|i: int| 0 <= i < after.len() ==> #[trigger] has_start(seen.push(x), after[i].0),
        forall|i: int| 0 <= i < after.len() ==> #[trigger] has_end(seen.push(x), after[i].1),
        forall|k: int| 0 <= k < seen.len() + 1 && seen.push(x)[k].0 <= seen.push(x)[k].1 ==> #[trigger] encloses(
            after,
            seen.push(x)[k],
        ),
{
    let next = seen.push(x);
    let top = seen.len() as int;
    assert(next[top] == x);
    lemma_sources_kept(merged, after, seen, x);
    assert forall|i: int| 0 <= i < after.len() implies #[trigger] has_start(next, after[i].0) by {
        if i >= merged.len() {
            assert(next[top].0 == after[i].0);
        }
    }
    assert forall|i: int| 0 <= i < after.len() implies #[trigger] has_end(next, after[i].1) by {
        if i >= merged.len() {
            assert(next[top].1 == after[i].1);
        } else if i == merged.len() - 1 {
            if after.len() == merged.len() && after.last().1 == x.1 {
                assert(next[top].1 == after[i].1);
            } else {
                assert(has_end(next, merged[i].1));
            }
        }
    }
    assert forall|k: int| 0 <= k < seen.len() + 1 && next[k].0 <= next[k].1 implies #[trigger] encloses(after, next[k]) by {
        if k == top {
            let i = after.len() - 1;
            assert(after[i].0 <= next[k].0 && next[k].1 <= after[i].1);
        } else {
            assert(next[k] == seen[k]);
            assert(encloses(after, seen[k]));
        }
    }
}

/// An interval that starts past the end of the last run opens a run of its
/// own.
proof fn lemma_step_open(merged: Seq<Interval>, seen: Seq<Interval>, x: Interval)
    requires
        is_merge_of(merged, seen),
        merged.len() > 0 ==> merged.last().0 <= x.0 && merged.last().1 < x.0,
    ensures
        is_merge_of(merged.push(x), seen.push(x)),
{
    lemma_open_keeps_apart(merged, x);
    lemma_open_covers(merged, seen, x);
    lemma_step_proper(merged, merged.push(x), seen, x);
    lemma_step_sources(merged, merged.push(x), seen, x);
}

/// An interval that starts inside the last run, or right at its end,
/// stretches that run to the later of the two ends.
proof fn lemma_step_extend(merged: Seq<Interval>, seen: Seq<Interval>, x: Interval, stretched: Interval)
    requires
        is_merge_of(merged, seen),
        merged.len() > 0,
        merged.last().0 <= x.0 <= merged.last().1,
        stretched.0 == merged.last().0,
        stretched.1 == if x.1 > merged.last().1 { x.1 } else { merged.last().1 },
    ensures
        is_merge_of(merged.update(merged.len() - 1, stretched), seen.push(x)),
{
    let after = merged.update(merged.len() - 1, stretched);
    lemma_stretch_keeps_apart(merged, stretched);
    lemma_stretch_covers(merged, seen, x, stretched);
    lemma_step_proper(merged, after, seen, x);
    lemma_step_sources(merged, after, seen, x);
}

/// The position right before a run and the position at its end are covered
/// by no run.
proof fn lemma_run_edges_uncovered(runs: Seq<Interval>, i: int)
    requires
        separated(runs),
        all_proper(runs),
        0 <= i < runs.len(),
    ensures
        !covers(runs, runs[i].0 - 1),
        !covers(runs, runs[i].1 as int),
{
    assert forall|j: int| 0 <= j < runs.len() implies !holds(#[trigger] runs[j], runs[i].0 - 1) && !holds(
        runs[j],
        runs[i].1 as int,
    ) by {
        assert(runs[j].0 <= runs[j].1);
        assert(runs[i].0 <= runs[i].1);
        if j < i {
            assert(runs[j].1 < runs[i].0);
        } else if i < j {
            assert(runs[i].1 < runs[j].0);
        }
    }
}

/// Of two sequences of separated proper runs that cover the same positions,
/// a run of the one that reaches over the start of a run of the other is
/// that run.
proof fn lemma_enclosing_run(a: Seq<Interval>, b: Seq<Interval>, i: int, j: int)
    requires
        separated(a),
        all_proper(a),
        separated(b),
        all_proper(b),
        covered_points(a) == covered_points(b),
        0 <= i < a.len(),
        0 <= j < b.len(),
        b[j].0 <= a[i].0 <= b[j].1,
    ensures
        b[j] == a[i],
{
    let (s, e) = a[i];
    assert(a[i].0 <= a[i].1);
    lemma_run_edges_uncovered(a, i);
    lemma_run_edges_uncovered(b, j);
    assert(covers(a, s - 1) == covered_points(a).contains(s - 1));
    assert(covers(b, s - 1) == covered_points(b).contains(s - 1));
    assert(covers(a, e as int) == covered_points(a).contains(e as int));
    assert(covers(b, e as int) == covered_points(b).contains(e as int));
    assert(covers(a, b[j].1 as int) == covered_points(a).contains(b[j].1 as int));
    assert(covers(b, b[j].1 as int) == covered_points(b).contains(b[j].1 as int));
    if b[j].0 < s {
        assert(holds(b[j], s - 1));
    }
    if b[j].1 < e {
        assert(holds(a[i], b[j].1 as int));
    }
    if b[j].1 > e {
        assert(holds(b[j], e as int));
    }
}

/// Each run of one merge of proper intervals is a run of any other.
proof fn lemma_run_is_shared(a: Seq<Interval>, b: Seq<Interval>, v: Seq<Interval>, i: int)
    requires
        all_proper(v),
        separated(a),
        all_proper(a),
        separated(b),
        all_proper(b),
        covered_points(a) == covered_points(b),
        0 <= i < a.len(),
        has_start(v, a[i].0),
        forall|k: int| 0 <= k < v.len() && v[k].0 <= v[k].1 ==> #[trigger] encloses(b, v[k]),
    ensures
        b.contains(a[i]),
{
    let k = choose|k: int| 0 <= k < v.len() && (#[trigger] v[k]).0 == a[i].0;
    assert(v[k].0 <= v[k].1);
    assert(encloses(b, v[k]));
    let j = choose|j: int| 0 <= j < b.len() && (#[trigger] b[j]).0 <= v[k].0 && v[k].1 <= b[j].1;
    lemma_enclosing_run(a, b, i, j);
}

/// Two sequences of separated proper runs that hold each other's runs agree
/// up to place `i`.
proof fn lemma_runs_agree_at(a: Seq<Interval>, b: Seq<Interval>, i: int)
    requires
        separated(a),
        all_proper(a),
        separated(b),
        all_proper(b),
        forall|x: int| 0 <= x < a.len() ==> b.contains(#[trigger] a[x]),
        forall|x: int| 0 <= x < b.len() ==> a.contains(#[trigger] b[x]),
        0 <= i < a.len(),
    ensures
        i < b.len(),
        a[i] == b[i],
    decreases i,
{
    assert(b.contains(a[i]));
    let j = choose|j: int| 0 <= j < b.len() && b[j] == a[i];
    assert(a[i].0 <= a[i].1);
    if j < i {
        lemma_runs_agree_at(a, b, j);
        assert(a[j].1 < a[i].0);
    } else if j > i {
        assert(a.contains(b[i]));
        let k = choose|k: int| 0 <= k < a.len() && a[k] == b[i];
        assert(b[i].0 <= b[i].1);
        assert(b[i].1 < b[j].0);
        if k < i {
            lemma_runs_agree_at(a, b, k);
            assert(b[k].1 < b[i].0);
        } else if k > i {
            assert(a[i].1 < a[k].0);
        }
    }
}

/// Two sequences of separated proper runs that hold each other's runs are
/// one and the same.
proof fn lemma_runs_agree(a: Seq<Interval>, b: Seq<Interval>)
    requires
        separated(a),
        all_proper(a),
        separated(b),
        all_proper(b),
        forall|x: int| 0 <= x < a.len() ==> b.contains(#[trigger] a[x]),
        forall|x: int| 0 <= x < b.len() ==> a.contains(#[trigger] b[x]),
    ensures
        a == b,
{
    if a.len() > 0 {
        lemma_runs_agree_at(a, b, a.len() - 1);
    }
    if b.len() > 0 {
        lemma_runs_agree_at(b, a, b.len() - 1);
    }
    assert forall|x: int| 0 <= x < a.len() implies a[x] == b[x] by {
        lemma_runs_agree_at(a, b, x);
    }
    assert(a =~= b);
}

/// Proper intervals have one merge only: the properties of a merge leave no
/// choice.
pub proof fn lemma_merge_unique(a: Seq<Interval>, b: Seq<Interval>, v: Seq<Interval>)
    requires
        all_proper(v),
        is_merge_of(a, v),
        is_merge_of(b, v),
    ensures
        a == b,
{
    assert forall|x: int| 0 <= x < a.len() implies b.contains(#[trigger] a[x]) by {
        lemma_run_is_shared(a, b, v, x);
    }
    assert forall|x: int| 0 <= x < b.len() implies a.contains(#[trigger] b[x]) by {
        lemma_run_is_shared(b, a, v, x);
    }
    lemma_runs_agree(a, b);
}

/// The slice method `sort_by_key` of std with the start as the key: the same
/// intervals, rearranged so that the starts never decrease.
#[verifier::external_body]
fn sort_by_start(intervals: &mut Vec<Interval>)
    ensures
        final(intervals)@.to_multiset() == old(intervals)@.to_multiset(),
        sorted_by_start(final(intervals)@),
{
    intervals.sort_by_key(|interval| interval.0);
}

/// Merges intervals by one sweep in the order of their starts: an interval
/// that starts at or before the end of the run so far extends that run, one
/// that starts past it opens a new run. With `already_sorted` the caller
/// vouches for the order and the sort is skipped.
pub fn merge_intervals(v: Vec<Interval>, already_sorted: bool) -> (merged: Vec<Interval>)
    requires
        already_sorted ==> sorted_by_start(v@),
    ensures
        is_merge_of(merged@, v@),
        merged@.len() <= v@.len(),
        merged@.len() == 0 <==> v@.len() == 0,
{
    let ghost given = v@;
    let mut v = v;
    if !already_sorted {
        sort_by_start(&mut v);
    }
    proof {
        given.to_multiset_ensures();
        v@.to_multiset_ensures();
    }
    let mut merged: Vec<Interval> = Vec::new();
    let n = v.len();
    let mut k: usize = 0;
    proof {
        assert(covered_points(merged@) =~= covered_points(v@.take(0)));
    }
    while k < n
        invariant
            n == v.len(),
            n == given.len(),
            k <= n,
            sorted_by_start(v@),
            (merged.len() == 0) == (k == 0),
            merged.len() <= k,
            k > 0 ==> merged@.last().0 <= v[k - 1].0,
            is_merge_of(merged@, v@.take(k as int)),
        decreases n - k,
    {
        let (s, e) = v[k];
        let ghost before = merged@;
        proof {
            assert(v@.take(k + 1) =~= v@.take(k as int).push(v[k as int]));
            if k > 0 {
                assert(v[k - 1].0 <= v[k as int].0);
            }
        }
        if merged.len() == 0 {
            merged.push((s, e));
            proof {
                lemma_step_open(before, v@.take(k as int), (s, e));
            }
        } else if merged[merged.len() - 1].1 >= s {
            let (old_s, old_e) = merged[merged.len() - 1];
            let new_e = if e > old_e {
                e
            } else {
                old_e
            };
            let last = merged.len() - 1;
            merged.set(last, (old_s, new_e));
            proof {
                lemma_step_extend(before, v@.take(k as int), (s, e), (old_s, new_e));
            }
        } else {
            merged.push((s, e));
            proof {
                lemma_step_open(before, v@.take(k as int), (s, e));
            }
        }
        k += 1;
    }
    proof {
        assert(v@.take(n as int) =~= v@);
        lemma_merge_of_rearranged(merged@, v@, given);
    }
    merged
}

} // verus!
