//! The identifiers of the training documents.

use vstd::prelude::*;
use crate::order::{lemma_lt_total, lex_lt};

verus! {

/// No path sorts before one that stands before it.
pub open spec fn in_order(paths: Seq<Seq<u8>>) -> bool {
    forall|i: int, j: int| 0 <= i <= j < paths.len() ==> !lex_lt(#[trigger] paths[j], #[trigger] paths[i])
}

/// `sorted` is the numbering of `paths`: the same paths, each as often as it
/// was given, in lexicographic order by byte value. The identifier of a
/// document is the place of its path.
pub open spec fn is_numbering_of(sorted: Seq<Seq<u8>>, paths: Seq<Seq<u8>>) -> bool {
    &&& sorted.to_multiset() == paths.to_multiset()
    &&& in_order(sorted)
}

/// The identifiers do not depend on the order in which the paths were found:
/// the same paths have one numbering only.
pub proof fn lemma_numbering_unique(a: Seq<Seq<u8>>, b: Seq<Seq<u8>>)
    requires
        a.to_multiset() == b.to_multiset(),
        in_order(a),
        in_order(b),
    ensures
        a == b,
    decreases a.len(),
{
    a.to_multiset_ensures();
    b.to_multiset_ensures();
    if a.len() == 0 {
        assert(a =~= b);
    } else {
        let x = a.last();
        let y = b.last();
        assert(a.contains(x)) by {
            assert(a[a.len() - 1] == x);
        }
        assert(b.contains(y)) by {
            assert(b[b.len() - 1] == y);
        }
        assert(b.to_multiset().count(x) > 0);
        assert(b.contains(x));
        assert(a.to_multiset().count(y) > 0);
        assert(a.contains(y));
        let i = choose|i: int| 0 <= i < b.len() && b[i] == x;
        let j = choose|j: int| 0 <= j < a.len() && a[j] == y;
        assert(!lex_lt(b[b.len() - 1], b[i]));
        assert(!lex_lt(a[a.len() - 1], a[j]));
        lemma_lt_total(x, y);
        assert(x == y);
        assert(a.drop_last() =~= a.remove(a.len() - 1));
        assert(b.drop_last() =~= b.remove(b.len() - 1));
        assert(a.drop_last().to_multiset() =~= b.drop_last().to_multiset());
        assert(in_order(a.drop_last())) by {
            assert forall|i: int, j: int| 0 <= i <= j < a.drop_last().len() implies !lex_lt(
                #[trigger] a.drop_last()[j],
                #[trigger] a.drop_last()[i],
            ) by {
                assert(!lex_lt(a[j], a[i]));
            }
        }
        assert(in_order(b.drop_last())) by {
            assert forall|i: int, j: int| 0 <= i <= j < b.drop_last().len() implies !lex_lt(
                #[trigger] b.drop_last()[j],
                #[trigger] b.drop_last()[i],
            ) by {
                assert(!lex_lt(b[j], b[i]));
            }
        }
        lemma_numbering_unique(a.drop_last(), b.drop_last());
        assert(a =~= a.drop_last().push(x));
        assert(b =~= b.drop_last().push(y));
    }
}

/// A training document as it was read: its path, as bytes, and its lines.
pub type Document = (Vec<u8>, Vec<String>);

/// The paths of the documents, in their order.
pub open spec fn paths_of(documents: Seq<Document>) -> Seq<Seq<u8>> {
    documents.map_values(|document: Document| document.0@)
}

/// The paths of a path index, in their order.
pub open spec fn index_paths(index: Seq<(Vec<u8>, usize)>) -> Seq<Seq<u8>> {
    index.map_values(|entry: (Vec<u8>, usize)| entry.0@)
}

/// `sorted` holds the documents of `given`, each as often as it was given,
/// in the order of their paths.
pub open spec fn is_arrangement_of(sorted: Seq<Document>, given: Seq<Document>) -> bool {
    &&& sorted.to_multiset() == given.to_multiset()
    &&& is_numbering_of(paths_of(sorted), paths_of(given))
}

/// Sequences with the same elements, however arranged, hold each other's
/// elements.
pub proof fn lemma_same_documents(a: Seq<Document>, b: Seq<Document>)
    requires
        a.to_multiset() == b.to_multiset(),
    ensures
        a.len() == b.len(),
        forall|i: int| 0 <= i < a.len() ==> b.contains(#[trigger] a[i]),
        forall|i: int| 0 <= i < b.len() ==> a.contains(#[trigger] b[i]),
{
    a.to_multiset_ensures();
    b.to_multiset_ensures();
    assert forall|i: int| 0 <= i < a.len() implies b.contains(#[trigger] a[i]) by {
        assert(a.contains(a[i]));
        assert(a.to_multiset().count(a[i]) > 0);
        assert(b.to_multiset().count(a[i]) > 0);
    }
    assert forall|i: int| 0 <= i < b.len() implies a.contains(#[trigger] b[i]) by {
        assert(b.contains(b[i]));
        assert(b.to_multiset().count(b[i]) > 0);
        assert(a.to_multiset().count(b[i]) > 0);
    }
}

/// The slice method `sort_by_key` of std with the path as the key: the same
/// documents, each as often as before, rearranged so that their paths are in
/// ascending order, which for byte strings is the lexicographic order by
/// byte value.
#[verifier::external_body]
fn sort_documents(documents: &mut Vec<Document>)
    ensures
        is_arrangement_of(final(documents)@, old(documents)@),
{
    documents.sort_by_key(|document| document.0.clone());
}

/// Numbers the training documents: they are put in the lexicographic order
/// of their paths, and the identifier of a document is its place in the
/// result, counted from 0.
pub fn assign_ids(documents: Vec<Document>) -> (sorted: Vec<Document>)
    ensures
        is_arrangement_of(sorted@, documents@),
        sorted@.len() == documents@.len(),
        forall|i: int, j: int|
            0 <= i <= j < sorted@.len() ==> !lex_lt((#[trigger] sorted@[j]).0@, (#[trigger] sorted@[i]).0@),
{
    let mut sorted = documents;
    sort_documents(&mut sorted);
    proof {
        lemma_same_documents(sorted@, documents@);
        assert forall|i: int, j: int| 0 <= i <= j < sorted@.len() implies !lex_lt(
            (#[trigger] sorted@[j]).0@,
            (#[trigger] sorted@[i]).0@,
        ) by {
            assert(paths_of(sorted@)[i] == sorted@[i].0@);
            assert(paths_of(sorted@)[j] == sorted@[j].0@);
        }
    }
    sorted
}

/// The path index: the path of every numbered document with its identifier.
pub fn path_index(sorted: &Vec<Document>) -> (index: Vec<(Vec<u8>, usize)>)
    ensures
        index@.len() == sorted@.len(),
        forall|i: int| 0 <= i < index@.len() ==> (#[trigger] index@[i]).0@ == sorted@[i].0@ && index@[i].1 == i,
        index_paths(index@) == paths_of(sorted@),
{
    let mut index: Vec<(Vec<u8>, usize)> = Vec::new();
    let n = sorted.len();
    let mut i: usize = 0;
    while i < n
        invariant
            n == sorted@.len(),
            i <= n,
            index@.len() == i,
            forall|k: int| 0 <= k < i ==> (#[trigger] index@[k]).0@ == sorted@[k].0@ && index@[k].1 == k,
        decreases n - i,
    {
        let path = sorted[i].0.clone();
        assert(path@ =~= sorted@[i as int].0@);
        index.push((path, i));
        i += 1;
    }
    proof {
        assert(index_paths(index@) =~= paths_of(sorted@));
    }
    index
}

} // verus!
