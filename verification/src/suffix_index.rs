//! The suffix-array index of the validation corpus and its occurrence query.

use vstd::prelude::*;
use vstd::set_lib::{lemma_int_range, lemma_subset_equality, set_int_range};
use crate::bytes::{le_value, lemma_le_limit_fits, lemma_le_value_bound, read_le};
use crate::error::PipelineError;
use crate::order::{
    Side, classify, lemma_lt_irreflexive, lemma_lt_transitive, lemma_side_monotone, lex_lt, side_of, starts_with,
    suffix_precedes,
};

verus! {

/// Entry `i` of a table whose entries take `width` bytes each.
pub open spec fn entry_at(table: Seq<u8>, width: nat, i: int) -> nat {
    le_value(table.subrange(i * width, i * width + width))
}

/// The entries of a table, decoded.
pub open spec fn table_entries(table: Seq<u8>, width: nat) -> Seq<u64> {
    Seq::new((table.len() / width) as nat, |i: int| entry_at(table, width, i) as u64)
}

/// `positions` is the suffix array of `text`: it names a start inside the
/// text for each byte of it, and the suffixes that start there are in
/// strictly increasing lexicographic order.
pub open spec fn sorted_suffixes(text: Seq<u8>, positions: Seq<u64>) -> bool {
    &&& positions.len() == text.len()
    &&& forall|i: int| 0 <= i < positions.len() ==> (#[trigger] positions[i]) < text.len()
    &&& forall|i: int, j: int|
        0 <= i < j < positions.len() ==> lex_lt(
            text.skip((#[trigger] positions[i]) as int),
            text.skip((#[trigger] positions[j]) as int),
        )
}

/// `table` is a suffix array of `text` with entries of `width` bytes.
pub open spec fn valid_index(text: Seq<u8>, table: Seq<u8>, width: nat) -> bool {
    &&& 1 <= width <= 8
    &&& table.len() == text.len() * width
    &&& sorted_suffixes(text, table_entries(table, width))
}

/// The width of the entries of a table that has one entry for each byte of
/// its text.
pub open spec fn inferred_width(text_len: nat, table_len: nat) -> nat {
    if text_len == 0 {
        1
    } else {
        table_len / text_len
    }
}

/// `query` stands in `text` at position `p`.
pub open spec fn occurs_at(text: Seq<u8>, query: Seq<u8>, p: int) -> bool {
    &&& 0 <= p < text.len()
    &&& starts_with(text.skip(p), query)
}

/// The positions that hold an occurrence of `query`.
pub open spec fn holds_query(text: Seq<u8>, query: Seq<u8>) -> spec_fn(u64) -> bool {
    |p: u64| occurs_at(text, query, p as int)
}

/// The positions of `positions` at which `query` occurs, in the order of
/// `positions`.
pub open spec fn occurrence_list(text: Seq<u8>, positions: Seq<u64>, query: Seq<u8>) -> Seq<u64> {
    positions.filter(holds_query(text, query))
}

/// Where a predicate holds exactly on one band of a sequence, the filter
/// returns that band.
pub proof fn lemma_filter_band(s: Seq<u64>, pred: spec_fn(u64) -> bool, lo: int, hi: int)
    requires
        0 <= lo <= hi <= s.len(),
        forall|i: int| 0 <= i < s.len() ==> (pred(#[trigger] s[i]) <==> lo <= i < hi),
    ensures
        s.filter(pred) == s.subrange(lo, hi),
    decreases s.len(),
{
    reveal(Seq::filter);
    if s.len() == 0 {
        assert(s.filter(pred) =~= s.subrange(lo, hi));
    } else {
        let init = s.drop_last();
        assert forall|i: int| 0 <= i < init.len() implies init[i] == s[i] by {}
        if hi == s.len() && lo < hi {
            lemma_filter_band(init, pred, lo, hi - 1);
            assert(pred(s[s.len() - 1]));
            assert(init.subrange(lo, hi - 1).push(s.last()) =~= s.subrange(lo, hi));
        } else if hi == s.len() {
            lemma_filter_band(init, pred, init.len() as int, init.len() as int);
            assert(!pred(s[s.len() - 1]));
            assert(init.subrange(init.len() as int, init.len() as int) =~= s.subrange(lo, hi));
        } else {
            lemma_filter_band(init, pred, lo, hi);
            assert(!pred(s[s.len() - 1]));
            assert(init.subrange(lo, hi) =~= s.subrange(lo, hi));
        }
    }
}

/// A suffix array names every position of its text, each once.
pub proof fn lemma_positions_complete(text: Seq<u8>, positions: Seq<u64>)
    requires
        sorted_suffixes(text, positions),
    ensures
        positions.no_duplicates(),
        forall|p: u64| p < text.len() ==> #[trigger] positions.contains(p),
{
    let n = text.len() as int;
    let ints = positions.map_values(|p: u64| p as int);
    assert forall|i: int, j: int| 0 <= i < positions.len() && 0 <= j < positions.len() && i != j implies positions[i]
        != positions[j] by {
        lemma_lt_irreflexive(text.skip(positions[i] as int));
    }
    assert(ints.no_duplicates());
    ints.unique_seq_to_set();
    lemma_int_range(0, n);
    assert forall|p: int| ints.to_set().contains(p) implies set_int_range(0, n).contains(p) by {
        let i = choose|i: int| 0 <= i < ints.len() && ints[i] == p;
        assert(positions[i] < text.len());
    }
    assert(ints.to_set().subset_of(set_int_range(0, n)));
    vstd::seq_lib::seq_to_set_is_finite(ints);
    lemma_subset_equality(ints.to_set(), set_int_range(0, n));
    assert forall|p: u64| p < text.len() implies #[trigger] positions.contains(p) by {
        assert(set_int_range(0, n).contains(p as int));
        assert(ints.to_set().contains(p as int));
        assert(ints.contains(p as int));
        let i = choose|i: int| 0 <= i < ints.len() && ints[i] == p as int;
        assert(positions[i] == p);
    }
}

/// The suffix array of a text, held in memory next to the text: as many
/// entries as the text has bytes, each `width` bytes in little-endian order,
/// naming the starts of the suffixes in lexicographic order.
pub struct SuffixIndex {
    text: Vec<u8>,
    table: Vec<u8>,
    width: usize,
}

impl View for SuffixIndex {
    type V = (Seq<u8>, Seq<u64>);

    /// The text, and the suffix positions in table order.
    closed spec fn view(&self) -> (Seq<u8>, Seq<u64>) {
        (self.text@, table_entries(self.table@, self.width as nat))
    }
}

/// Entry `i` starts at byte `i * width` and ends inside a table of `count`
/// entries.
proof fn lemma_entry_range(i: nat, count: nat, width: nat)
    requires
        i < count,
    ensures
        i * width + width <= count * width,
{
    assert(i * width + width <= count * width) by (nonlinear_arith)
        requires
            i + 1 <= count,
    ;
}

/// A table of `count` entries of `width` bytes holds `count` entries.
proof fn lemma_entry_count(count: nat, width: nat)
    requires
        width > 0,
    ensures
        (count * width) / width == count,
{
    assert((count * width) / width == count) by (nonlinear_arith)
        requires
            width > 0,
    ;
}

impl SuffixIndex {
    #[verifier::type_invariant]
    spec fn well_formed(self) -> bool {
        valid_index(self.text@, self.table@, self.width as nat)
    }

    /// Number of bytes that a table entry takes.
    pub closed spec fn entry_width(&self) -> nat {
        self.width as nat
    }

    /// Takes a text and its suffix table with entries of `offset_width`
    /// bytes, or refuses them when the table is not the suffix array of the
    /// text.
    pub fn new(text: Vec<u8>, table: Vec<u8>, offset_width: usize) -> (r: Result<SuffixIndex, PipelineError>)
        ensures
            r is Ok <==> valid_index(text@, table@, offset_width as nat),
            r matches Ok(index) ==> index@ == (text@, table_entries(table@, offset_width as nat)) && index.entry_width()
                == offset_width,
            r matches Err(e) ==> e == PipelineError::Index,
    {
        let n = text.len();
        if offset_width < 1 || offset_width > 8 {
            return Err(PipelineError::Index);
        }
        assert((n as u128) * (offset_width as u128) <= 0xffff_ffff_ffff_ffff * 8) by (nonlinear_arith)
            requires
                n <= 0xffff_ffff_ffff_ffff,
                offset_width <= 8,
        ;
        if (table.len() as u128) != (n as u128) * (offset_width as u128) {
            return Err(PipelineError::Index);
        }
        let ghost width = offset_width as nat;
        let ghost positions = table_entries(table@, width);
        proof {
            lemma_entry_count(n as nat, width);
            assert(positions.len() == n);
        }
        let mut previous: u64 = 0;
        let mut i: usize = 0;
        while i < n
            invariant
                n == text.len(),
                1 <= offset_width <= 8,
                width == offset_width as nat,
                table.len() == n * width,
                positions == table_entries(table@, width),
                positions.len() == n,
                i <= n,
                i > 0 ==> previous == positions[i - 1],
                forall|j: int| 0 <= j < i ==> (#[trigger] positions[j]) < n,
                forall|a: int, b: int|
                    0 <= a < b < i ==> lex_lt(
                        text@.skip((#[trigger] positions[a]) as int),
                        text@.skip((#[trigger] positions[b]) as int),
                    ),
            decreases n - i,
        {
            proof {
                lemma_entry_range(i as nat, n as nat, width);
                lemma_le_value_bound(table@.subrange(i * width, i * width + width));
                lemma_le_limit_fits(width);
                assert(i * offset_width == i * width);
            }
            let position = read_le(table.as_slice(), i * offset_width, offset_width);
            assert(position == positions[i as int]);
            if position >= n as u64 {
                return Err(PipelineError::Index);
            }
            if i > 0 {
                if !suffix_precedes(text.as_slice(), previous as usize, position as usize) {
                    assert(!sorted_suffixes(text@, positions)) by {
                        assert(positions[i - 1] == previous);
                    }
                    return Err(PipelineError::Index);
                }
                proof {
                    assert forall|a: int| 0 <= a < i implies lex_lt(
                        text@.skip((#[trigger] positions[a]) as int),
                        text@.skip(positions[i as int] as int),
                    ) by {
                        if a < i - 1 {
                            lemma_lt_transitive(
                                text@.skip(positions[a] as int),
                                text@.skip(positions[i - 1] as int),
                                text@.skip(positions[i as int] as int),
                            );
                        }
                    }
                }
            }
            previous = position;
            i += 1;
        }
        Ok(SuffixIndex { text, table, width: offset_width })
    }

    /// Takes a text and its suffix table, the width of the entries being the
    /// size of the table divided by the size of the text.
    pub fn from_buffers(text: Vec<u8>, table: Vec<u8>) -> (r: Result<SuffixIndex, PipelineError>)
        ensures
            r is Ok <==> valid_index(text@, table@, inferred_width(text@.len(), table@.len())),
            r matches Ok(index) ==> index@ == (text@, table_entries(table@, inferred_width(text@.len(), table@.len())))
                && index.entry_width() == inferred_width(text@.len(), table@.len()),
            r matches Err(e) ==> e == PipelineError::Index,
    {
        let width = if text.len() == 0 {
            1
        } else {
            table.len() / text.len()
        };
        SuffixIndex::new(text, table, width)
    }

    /// The text that the index was built over.
    pub fn text(&self) -> (r: &Vec<u8>)
        ensures
            r@ == self@.0,
            sorted_suffixes(self@.0, self@.1),
    {
        proof {
            use_type_invariant(self);
        }
        &self.text
    }

    /// Number of bytes that a table entry takes.
    pub fn offset_width(&self) -> (r: usize)
        ensures
            r == self.entry_width(),
            1 <= r <= 8,
    {
        proof {
            use_type_invariant(self);
        }
        self.width
    }

    /// The start of the suffix at place `rank` of the lexicographic order.
    pub fn position(&self, rank: usize) -> (p: u64)
        requires
            rank < self@.1.len(),
        ensures
            p == self@.1[rank as int],
            p < self@.0.len(),
            sorted_suffixes(self@.0, self@.1),
    {
        let size = self.table.len();
        proof {
            use_type_invariant(self);
            let width = self.width as nat;
            let n = self.text@.len();
            lemma_entry_count(n, width);
            assert(self@.1[rank as int] < n);
            lemma_le_value_bound(self.table@.subrange(rank * width, rank * width + width));
            lemma_le_limit_fits(width);
            lemma_entry_range(rank as nat, n as nat, width);
            assert(rank * self.width == rank * width);
        }
        read_le(self.table.as_slice(), rank * self.width, self.width)
    }

    /// Every position at which `query` occurs in the text, found by two
    /// binary searches over the suffix order: one for the first suffix that
    /// does not sort before the strings that begin with `query`, one for the
    /// first that sorts after them. The suffixes between the two begin with
    /// `query`; their starts are returned in suffix order. The result is
    /// empty where `query` does not occur.
    pub fn occurrences(&self, query: &[u8]) -> (found: Vec<u64>)
        ensures
            sorted_suffixes(self@.0, self@.1),
            found@ == occurrence_list(self@.0, self@.1, query@),
            found@.no_duplicates(),
            forall|p: u64| #[trigger] found@.contains(p) <==> occurs_at(self@.0, query@, p as int),
    {
        proof {
            use_type_invariant(self);
        }
        let ghost text = self@.0;
        let ghost positions = self@.1;
        let n = self.text.len();
        let mut lo: usize = 0;
        let mut hi: usize = n;
        while lo < hi
            invariant
                n == text.len(),
                text == self@.0,
                positions == self@.1,
                sorted_suffixes(text, positions),
                lo <= hi <= n,
                forall|i: int| 0 <= i < lo ==> side_of(text.skip((#[trigger] positions[i]) as int), query@) == Side::Below,
                forall|i: int| hi <= i < n ==> side_of(text.skip((#[trigger] positions[i]) as int), query@) != Side::Below,
            decreases hi - lo,
        {
            let mid = lo + (hi - lo) / 2;
            let position = self.position(mid);
            let ghost pivot = text.skip(position as int);
            match classify(self.text.as_slice(), position as usize, query) {
                Side::Below => {
                    proof {
                        assert forall|i: int| 0 <= i < mid + 1 implies side_of(
                            text.skip((#[trigger] positions[i]) as int),
                            query@,
                        ) == Side::Below by {
                            if i < mid {
                                lemma_side_monotone(text.skip(positions[i] as int), pivot, query@);
                            }
                        }
                    }
                    lo = mid + 1;
                },
                _ => {
                    proof {
                        assert forall|i: int| mid <= i < n implies side_of(
                            text.skip((#[trigger] positions[i]) as int),
                            query@,
                        ) != Side::Below by {
                            if mid < i {
                                lemma_side_monotone(pivot, text.skip(positions[i] as int), query@);
                            }
                        }
                    }
                    hi = mid;
                },
            }
        }
        let first = lo;
        let mut lo: usize = first;
        let mut hi: usize = n;
        while lo < hi
            invariant
                n == text.len(),
                text == self@.0,
                positions == self@.1,
                sorted_suffixes(text, positions),
                first <= lo <= hi <= n,
                forall|i: int| 0 <= i < lo ==> side_of(text.skip((#[trigger] positions[i]) as int), query@) != Side::Above,
                forall|i: int| hi <= i < n ==> side_of(text.skip((#[trigger] positions[i]) as int), query@) == Side::Above,
            decreases hi - lo,
        {
            let mid = lo + (hi - lo) / 2;
            let position = self.position(mid);
            let ghost pivot = text.skip(position as int);
            match classify(self.text.as_slice(), position as usize, query) {
                Side::Above => {
                    proof {
                        assert forall|i: int| mid <= i < n implies side_of(
                            text.skip((#[trigger] positions[i]) as int),
                            query@,
                        ) == Side::Above by {
                            if mid < i {
                                lemma_side_monotone(pivot, text.skip(positions[i] as int), query@);
                            }
                        }
                    }
                    hi = mid;
                },
                _ => {
                    proof {
                        assert forall|i: int| 0 <= i < mid + 1 implies side_of(
                            text.skip((#[trigger] positions[i]) as int),
                            query@,
                        ) != Side::Above by {
                            if i < mid {
                                lemma_side_monotone(text.skip(positions[i] as int), pivot, query@);
                            }
                        }
                    }
                    lo = mid + 1;
                },
            }
        }
        let end = lo;
        let mut found: Vec<u64> = Vec::new();
        let mut i: usize = first;
        while i < end
            invariant
                n == text.len(),
                positions == self@.1,
                positions.len() == n,
                first <= i <= end <= n,
                found@ == positions.subrange(first as int, i as int),
            decreases end - i,
        {
            let position = self.position(i);
            found.push(position);
            proof {
                assert(positions.subrange(first as int, i as int).push(positions[i as int]) =~= positions.subrange(
                    first as int,
                    i + 1,
                ));
            }
            i += 1;
        }
        proof {
            let pred = holds_query(text, query@);
            assert forall|i: int| 0 <= i < positions.len() implies (pred(#[trigger] positions[i]) <==> first <= i < end) by {
                let side = side_of(text.skip(positions[i] as int), query@);
                assert(pred(positions[i]) <==> side == Side::Within);
            }
            lemma_filter_band(positions, pred, first as int, end as int);
            lemma_positions_complete(text, positions);
            assert forall|p: u64| #[trigger] found@.contains(p) <==> occurs_at(text, query@, p as int) by {
                if found@.contains(p) {
                    let x = choose|x: int| 0 <= x < found@.len() && found@[x] == p;
                    assert(found@[x] == positions[first + x]);
                    assert(pred(positions[first + x]));
                }
                if occurs_at(text, query@, p as int) {
                    assert(positions.contains(p));
                    let i = choose|i: int| 0 <= i < positions.len() && positions[i] == p;
                    assert(pred(positions[i]));
                    assert(found@[i - first] == p);
                }
            }
        }
        found
    }
}

} // verus!
