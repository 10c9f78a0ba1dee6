//! Document boundaries of the validation corpus.

use vstd::prelude::*;
use crate::bytes::{le_value, lemma_le_limit_fits, lemma_le_value_bound, read_le};
use crate::error::PipelineError;

verus! {

/// A boundary table is usable when it starts at 0, never decreases, and its
/// last offset (the length of the corpus) is addressable in memory.
pub open spec fn valid_boundaries(offsets: Seq<u64>) -> bool {
    &&& offsets.len() >= 1
    &&& offsets[0] == 0
    &&& forall|i: int, j: int| 0 <= i <= j < offsets.len() ==> offsets[i] <= offsets[j]
    &&& offsets.last() <= usize::MAX
}

/// Number of documents that a boundary table describes.
pub open spec fn document_count(offsets: Seq<u64>) -> int {
    offsets.len() - 1
}

/// Document `doc` occupies `[offsets[doc], offsets[doc + 1])`, and `position`
/// lies in it.
pub open spec fn in_document(offsets: Seq<u64>, doc: int, position: u64) -> bool {
    &&& 0 <= doc < offsets.len() - 1
    &&& offsets[doc] <= position < offsets[doc + 1]
}

/// The document that holds `position`. Meaningful for positions before the
/// end of the corpus, where `lemma_document_unique` makes it the only one.
pub open spec fn document_of(offsets: Seq<u64>, position: u64) -> int {
    choose|doc: int| in_document(offsets, doc, position)
}

/// Length in bytes of document `doc`.
pub open spec fn document_size(offsets: Seq<u64>, doc: int) -> int {
    offsets[doc + 1] - offsets[doc]
}

/// The offsets that `bytes` spell, eight little-endian bytes each.
pub open spec fn boundary_words(bytes: Seq<u8>) -> Seq<u64> {
    Seq::new(bytes.len() / 8, |i: int| le_value(bytes.subrange(8 * i, 8 * i + 8)) as u64)
}

/// A position lies in at most one document.
pub proof fn lemma_document_unique(offsets: Seq<u64>, position: u64, a: int, b: int)
    requires
        valid_boundaries(offsets),
        in_document(offsets, a, position),
        in_document(offsets, b, position),
    ensures
        a == b,
{
    if a < b {
        assert(offsets[a + 1] <= offsets[b]);
    } else if b < a {
        assert(offsets[b + 1] <= offsets[a]);
    }
}

/// A position before the end of the corpus that is not before document
/// `from` lies in a document.
proof fn lemma_document_found(offsets: Seq<u64>, position: u64, from: int)
    requires
        valid_boundaries(offsets),
        0 <= from < offsets.len() - 1,
        offsets[from] <= position < offsets.last(),
    ensures
        exists|doc: int| in_document(offsets, doc, position),
    decreases offsets.len() - from,
{
    if position < offsets[from + 1] {
        assert(in_document(offsets, from, position));
    } else {
        lemma_document_found(offsets, position, from + 1);
    }
}

/// Every position before the end of the corpus lies in a document.
pub proof fn lemma_document_exists(offsets: Seq<u64>, position: u64)
    requires
        valid_boundaries(offsets),
        position < offsets.last(),
    ensures
        in_document(offsets, document_of(offsets, position), position),
{
    lemma_document_found(offsets, position, 0);
}

/// Every position inside document `doc` is located in `doc`, and nowhere else.
pub proof fn lemma_document_lookup(offsets: Seq<u64>, position: u64, doc: int)
    requires
        valid_boundaries(offsets),
        in_document(offsets, doc, position),
    ensures
        document_of(offsets, position) == doc,
{
    lemma_document_unique(offsets, position, doc, document_of(offsets, position));
}

/// The cumulative offsets at which the documents of the validation corpus
/// start, followed by the length of the corpus.
pub struct Boundaries {
    offsets: Vec<u64>,
}

impl View for Boundaries {
    type V = Seq<u64>;

    closed spec fn view(&self) -> Seq<u64> {
        self.offsets@
    }
}

impl Boundaries {
    #[verifier::type_invariant]
    spec fn well_formed(self) -> bool {
        valid_boundaries(self.offsets@)
    }

    /// Takes a boundary table, or refuses it as malformed.
    pub fn new(offsets: Vec<u64>) -> (r: Result<Boundaries, PipelineError>)
        ensures
            r is Ok <==> valid_boundaries(offsets@),
            r matches Ok(b) ==> b@ == offsets@,
            r matches Err(e) ==> e == PipelineError::Index,
    {
        let n = offsets.len();
        if n == 0 || offsets[0] != 0 {
            return Err(PipelineError::Index);
        }
        let mut i: usize = 1;
        while i < n
            invariant
                n == offsets.len(),
                1 <= i <= n,
                offsets[0] == 0,
                forall|a: int, b: int| 0 <= a <= b < i ==> offsets[a] <= offsets[b],
            decreases n - i,
        {
            if offsets[i] < offsets[i - 1] {
                assert(!valid_boundaries(offsets@));
                return Err(PipelineError::Index);
            }
            i += 1;
        }
        if offsets[n - 1] > usize::MAX as u64 {
            return Err(PipelineError::Index);
        }
        Ok(Boundaries { offsets })
    }

    /// Reads a boundary table from its stored form, eight little-endian bytes
    /// for each offset, or refuses it as malformed.
    pub fn from_bytes(bytes: &[u8]) -> (r: Result<Boundaries, PipelineError>)
        ensures
            r is Ok <==> bytes.len() % 8 == 0 && valid_boundaries(boundary_words(bytes@)),
            r matches Ok(b) ==> b@ == boundary_words(bytes@),
            r matches Err(e) ==> e == PipelineError::Index,
    {
        if bytes.len() % 8 != 0 {
            return Err(PipelineError::Index);
        }
        let count = bytes.len() / 8;
        let mut offsets: Vec<u64> = Vec::new();
        let mut i: usize = 0;
        while i < count
            invariant
                count == bytes.len() / 8,
                bytes.len() % 8 == 0,
                i <= count,
                offsets@ == boundary_words(bytes@).take(i as int),
            decreases count - i,
        {
            let offset = read_le(bytes, 8 * i, 8);
            proof {
                lemma_le_value_bound(bytes@.subrange(8 * i, 8 * i + 8));
                lemma_le_limit_fits(8);
            }
            offsets.push(offset);
            proof {
                assert(offsets@ =~= boundary_words(bytes@).take(i + 1));
            }
            i += 1;
        }
        proof {
            assert(boundary_words(bytes@).take(count as int) =~= boundary_words(bytes@));
        }
        Boundaries::new(offsets)
    }

    /// The table as it was given.
    pub fn offsets(&self) -> (r: &Vec<u64>)
        ensures
            r@ == self@,
            valid_boundaries(self@),
    {
        proof {
            use_type_invariant(self);
        }
        &self.offsets
    }

    /// Number of documents in the corpus.
    pub fn num_docs(&self) -> (r: usize)
        ensures
            r == document_count(self@),
            valid_boundaries(self@),
    {
        proof {
            use_type_invariant(self);
        }
        self.offsets.len() - 1
    }

    /// Length in bytes of document `doc`.
    pub fn doc_size(&self, doc: usize) -> (r: usize)
        requires
            doc < document_count(self@),
        ensures
            r == document_size(self@, doc as int),
    {
        proof {
            use_type_invariant(self);
        }
        let n = self.offsets.len();
        assert(self.offsets@[doc + 1] <= self.offsets@[n - 1]);
        (self.offsets[doc + 1] - self.offsets[doc]) as usize
    }

    /// Offset at which document `doc` starts.
    pub fn doc_start(&self, doc: usize) -> (r: u64)
        requires
            doc < document_count(self@),
        ensures
            r == self@[doc as int],
    {
        self.offsets[doc]
    }
}

/// Finds the document that holds `position` by binary search. Positions at
/// or past the end of the corpus belong to no document and are refused.
pub fn locate_document(position: u64, boundaries: &Boundaries) -> (r: Result<usize, PipelineError>)
    ensures
        valid_boundaries(boundaries@),
        r is Ok <==> position < boundaries@.last(),
        r matches Ok(doc) ==> in_document(boundaries@, doc as int, position)
            && doc == document_of(boundaries@, position),
        r matches Err(e) ==> e == PipelineError::Index,
        forall|doc: int| in_document(boundaries@, doc, position) ==> r == Ok::<usize, PipelineError>(doc as usize),
{
    proof {
        use_type_invariant(boundaries);
    }
    let offsets = &boundaries.offsets;
    let n = offsets.len();
    if position >= offsets[n - 1] {
        assert forall|doc: int| !in_document(boundaries@, doc, position) by {
            if 0 <= doc < n - 1 {
                assert(offsets[doc + 1] <= offsets[n - 1]);
            }
        }
        return Err(PipelineError::Index);
    }
    let mut lo: usize = 0;
    let mut hi: usize = n - 1;
    while hi - lo > 1
        invariant
            n == offsets.len(),
            valid_boundaries(offsets@),
            lo < hi < n,
            offsets[lo as int] <= position < offsets[hi as int],
        decreases hi - lo,
    {
        let mid = lo + (hi - lo) / 2;
        if offsets[mid] <= position {
            lo = mid;
        } else {
            hi = mid;
        }
    }
    proof {
        assert(in_document(boundaries@, lo as int, position));
        lemma_document_lookup(boundaries@, position, lo as int);
        assert forall|doc: int| in_document(boundaries@, doc, position) implies doc == lo by {
            lemma_document_unique(boundaries@, position, doc, lo as int);
        }
    }
    Ok(lo)
}

} // verus!
