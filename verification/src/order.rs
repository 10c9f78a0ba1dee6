//! Lexicographic order on byte strings, and where a string stands relative to
//! the strings that begin with a query.

use vstd::prelude::*;

verus! {

/// `a` and `b` hold the same bytes at the positions before `k`.
pub open spec fn agree_before(a: Seq<u8>, b: Seq<u8>, k: int) -> bool {
    forall|j: int| 0 <= j < k ==> a[j] == b[j]
}

/// `a` sorts before `b`, and position `k` shows it: the two agree before
/// `k`, and there `a` has ended while `b` goes on, or `a` has the smaller
/// byte.
pub open spec fn precedes_at(a: Seq<u8>, b: Seq<u8>, k: int) -> bool {
    &&& 0 <= k <= a.len()
    &&& k < b.len()
    &&& agree_before(a, b, k)
    &&& (k == a.len() || a[k] < b[k])
}

/// `a` sorts strictly before `b` in lexicographic order by byte value.
pub open spec fn lex_lt(a: Seq<u8>, b: Seq<u8>) -> bool {
    exists|k: int| precedes_at(a, b, k)
}

/// `s` begins with `prefix`.
pub open spec fn starts_with(s: Seq<u8>, prefix: Seq<u8>) -> bool {
    &&& prefix.len() <= s.len()
    &&& agree_before(s, prefix, prefix.len() as int)
}

/// Where a string stands relative to the strings that begin with a query.
#[derive(Debug, Clone, Copy, PartialEq, Eq, Structural)]
pub enum Side {
    /// It sorts before every string that begins with the query.
    Below,
    /// It begins with the query.
    Within,
    /// It sorts after every string that begins with the query.
    Above,
}

/// The side of `s` relative to the strings that begin with `query`.
pub open spec fn side_of(s: Seq<u8>, query: Seq<u8>) -> Side {
    if starts_with(s, query) {
        Side::Within
    } else if lex_lt(s, query) {
        Side::Below
    } else {
        Side::Above
    }
}

/// No string sorts before itself.
pub proof fn lemma_lt_irreflexive(a: Seq<u8>)
    ensures
        !lex_lt(a, a),
{
}

/// The order is transitive.
pub proof fn lemma_lt_transitive(a: Seq<u8>, b: Seq<u8>, c: Seq<u8>)
    requires
        lex_lt(a, b),
        lex_lt(b, c),
    ensures
        lex_lt(a, c),
{
    let k1 = choose|k: int| precedes_at(a, b, k);
    let k2 = choose|k: int| precedes_at(b, c, k);
    let k = if k1 <= k2 {
        k1
    } else {
        k2
    };
    assert forall|j: int| 0 <= j < k implies a[j] == c[j] by {
        assert(a[j] == b[j]);
        assert(b[j] == c[j]);
    }
    if k1 < k2 {
        assert(b[k1] == c[k1]);
    } else if k2 < k1 {
        assert(a[k2] == b[k2]);
    }
    assert(precedes_at(a, c, k));
}

/// Of two strings at most one sorts before the other.
pub proof fn lemma_lt_asymmetric(a: Seq<u8>, b: Seq<u8>)
    requires
        lex_lt(a, b),
    ensures
        !lex_lt(b, a),
        a != b,
{
    if lex_lt(b, a) {
        lemma_lt_transitive(a, b, a);
    }
}

/// Two strings that agree before `k` are equal, or one sorts before the
/// other.
proof fn lemma_total_from(a: Seq<u8>, b: Seq<u8>, k: int)
    requires
        0 <= k <= a.len(),
        k <= b.len(),
        agree_before(a, b, k),
    ensures
        lex_lt(a, b) || a == b || lex_lt(b, a),
    decreases a.len() - k,
{
    if k == a.len() && k == b.len() {
        assert(a =~= b);
    } else if k == a.len() {
        assert(precedes_at(a, b, k));
    } else if k == b.len() {
        assert(precedes_at(b, a, k));
    } else if a[k] < b[k] {
        assert(precedes_at(a, b, k));
    } else if b[k] < a[k] {
        assert(precedes_at(b, a, k));
    } else {
        assert(agree_before(a, b, k + 1));
        lemma_total_from(a, b, k + 1);
    }
}

/// Any two strings are equal, or one sorts before the other.
pub proof fn lemma_lt_total(a: Seq<u8>, b: Seq<u8>)
    ensures
        lex_lt(a, b) || a == b || lex_lt(b, a),
{
    lemma_total_from(a, b, 0);
}

/// A string that begins with the query does not sort before the query.
pub proof fn lemma_within_not_below(s: Seq<u8>, query: Seq<u8>)
    requires
        starts_with(s, query),
    ensures
        !lex_lt(s, query),
{
    if lex_lt(s, query) {
        let k = choose|k: int| precedes_at(s, query, k);
        assert(s[k] == query[k]);
    }
}

/// The sides follow the order: of two strings in order, the later one is not
/// on an earlier side than the earlier one.
pub proof fn lemma_side_monotone(a: Seq<u8>, b: Seq<u8>, query: Seq<u8>)
    requires
        lex_lt(a, b),
    ensures
        side_of(b, query) == Side::Below ==> side_of(a, query) == Side::Below,
        side_of(a, query) == Side::Above ==> side_of(b, query) == Side::Above,
{
    if side_of(b, query) == Side::Below {
        lemma_lt_transitive(a, b, query);
        if starts_with(a, query) {
            lemma_within_not_below(a, query);
        }
    }
    if side_of(a, query) == Side::Above {
        lemma_lt_total(a, query);
        if a == query {
            assert(starts_with(a, query));
        }
        assert(lex_lt(query, a));
        if lex_lt(b, query) {
            lemma_lt_transitive(a, b, query);
        }
        if starts_with(b, query) {
            let k = choose|k: int| precedes_at(query, a, k);
            let j = choose|j: int| precedes_at(a, b, j);
            if k == query.len() {
                assert(starts_with(a, query));
            }
            assert(query[k] < a[k]);
            if j < k {
                assert(a[j] == query[j]);
                assert(b[j] == query[j]);
            } else if j == k {
                assert(b[k] == query[k]);
            } else {
                assert(a[k] == b[k]);
                assert(b[k] == query[k]);
            }
        }
    }
}

/// Finds the side of the suffix of `text` that starts at `start` relative to
/// the strings that begin with `query`, reading both up to the first byte
/// that differs.
pub fn classify(text: &[u8], start: usize, query: &[u8]) -> (side: Side)
    requires
        start <= text.len(),
    ensures
        side == side_of(text@.skip(start as int), query@),
{
    let n = text.len();
    let m = query.len();
    let ghost s = text@.skip(start as int);
    let mut k: usize = 0;
    while k < m
        invariant
            n == text.len(),
            m == query.len(),
            start <= n,
            k <= m,
            start + k <= n,
            s == text@.skip(start as int),
            agree_before(s, query@, k as int),
        decreases m - k,
    {
        if start + k == n {
            proof {
                assert(precedes_at(s, query@, k as int));
            }
            return Side::Below;
        }
        let have = text[start + k];
        let want = query[k];
        assert(s[k as int] == have);
        if have < want {
            proof {
                assert(precedes_at(s, query@, k as int));
                assert(!starts_with(s, query@));
            }
            return Side::Below;
        }
        if have > want {
            proof {
                assert(!starts_with(s, query@));
                if lex_lt(s, query@) {
                    let j = choose|j: int| precedes_at(s, query@, j);
                    if j < k {
                        assert(s[j] == query@[j]);
                    } else if j > k {
                        assert(s[k as int] == query@[k as int]);
                    }
                }
            }
            return Side::Above;
        }
        k += 1;
    }
    Side::Within
}

/// Whether the suffix of `text` that starts at `first` sorts strictly before
/// the one that starts at `second`.
pub fn suffix_precedes(text: &[u8], first: usize, second: usize) -> (r: bool)
    requires
        first <= text.len(),
        second <= text.len(),
    ensures
        r == lex_lt(text@.skip(first as int), text@.skip(second as int)),
{
    let n = text.len();
    let ghost a = text@.skip(first as int);
    let ghost b = text@.skip(second as int);
    let mut k: usize = 0;
    loop
        invariant
            n == text.len(),
            first + k <= n,
            second + k <= n,
            a == text@.skip(first as int),
            b == text@.skip(second as int),
            agree_before(a, b, k as int),
        decreases n - k,
    {
        if second + k == n {
            proof {
                if first + k == n {
                    assert(a =~= b);
                    lemma_lt_irreflexive(a);
                } else {
                    assert(precedes_at(b, a, k as int));
                    lemma_lt_asymmetric(b, a);
                }
            }
            return false;
        }
        if first + k == n {
            proof {
                assert(precedes_at(a, b, k as int));
            }
            return true;
        }
        let x = text[first + k];
        let y = text[second + k];
        assert(a[k as int] == x);
        assert(b[k as int] == y);
        if x < y {
            proof {
                assert(precedes_at(a, b, k as int));
            }
            return true;
        }
        if x > y {
            proof {
                assert(precedes_at(b, a, k as int));
                lemma_lt_asymmetric(b, a);
            }
            return false;
        }
        k += 1;
    }
}

} // verus!
