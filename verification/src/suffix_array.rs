use vstd::prelude::*;
use crate::bitvector::{Bitvec, count_bits, lemma_count_bits_congruence, lemma_count_bits_bound};

verus! {

/// Strict lexicographic order on byte sequences in which a proper prefix
/// sorts before its extensions.  This is the order of the suffixes of
/// `t` terminated by a virtual sentinel smaller than every symbol.
pub open spec fn seq_lt(x: Seq<u8>, y: Seq<u8>) -> bool
    decreases x.len(),
{
    if x.len() == 0 {
        y.len() > 0
    } else if y.len() == 0 {
        false
    } else {
        x[0] < y[0] || (x[0] == y[0] && seq_lt(x.skip(1), y.skip(1)))
    }
}

/// The suffix of `t` that starts at position `i`.
pub open spec fn suffix(t: Seq<u8>, i: int) -> Seq<u8> {
    t.subrange(i, t.len() as int)
}

/// `sa` is the suffix array of `t`: it enumerates `0 ..= t.len()` in
/// strictly increasing suffix order, the empty suffix included.
pub open spec fn is_suffix_array(sa: Seq<int>, t: Seq<u8>) -> bool {
    &&& sa.len() == t.len() + 1
    &&& forall|i: int| 0 <= i < sa.len() ==> 0 <= #[trigger] sa[i] <= t.len()
    &&& forall|i: int, j: int|
        0 <= i < j < sa.len() ==> seq_lt(suffix(t, #[trigger] sa[i]), suffix(t, #[trigger] sa[j]))
    &&& forall|v: int| 0 <= v <= t.len() ==> #[trigger] sa.contains(v)
}

pub proof fn lemma_seq_lt_irreflexive(x: Seq<u8>)
    ensures
        !seq_lt(x, x),
    decreases x.len(),
{
    if x.len() > 0 {
        lemma_seq_lt_irreflexive(x.skip(1));
    }
}

pub proof fn lemma_seq_lt_asymmetric(x: Seq<u8>, y: Seq<u8>)
    ensures
        !(seq_lt(x, y) && seq_lt(y, x)),
    decreases x.len(),
{
    if x.len() > 0 && y.len() > 0 {
        lemma_seq_lt_asymmetric(x.skip(1), y.skip(1));
    }
}

/// One step of suffix comparison: compare head symbols, then the
/// shorter suffixes.
pub proof fn lemma_suffix_lt_unfold(t: Seq<u8>, i: int, j: int)
    requires
        0 <= i < t.len(),
        0 <= j < t.len(),
    ensures
        seq_lt(suffix(t, i), suffix(t, j)) == (t[i] < t[j] || (t[i] == t[j] && seq_lt(
            suffix(t, i + 1),
            suffix(t, j + 1),
        ))),
{
    assert(suffix(t, i).skip(1) =~= suffix(t, i + 1));
    assert(suffix(t, j).skip(1) =~= suffix(t, j + 1));
}

/// The empty suffix sorts strictly below every other suffix.
pub proof fn lemma_empty_suffix_least(t: Seq<u8>, i: int)
    requires
        0 <= i < t.len(),
    ensures
        seq_lt(suffix(t, t.len() as int), suffix(t, i)),
        !seq_lt(suffix(t, i), suffix(t, t.len() as int)),
{
    assert(suffix(t, t.len() as int).len() == 0);
    assert(suffix(t, i).len() > 0);
}

/// Builds the suffix array of a byte text.
///
/// Relies on `suffix_array::SuffixArray::new` (the divsufsort C binding
/// underneath): the vector it yields has length `text.len() + 1` and
/// lists the start of every suffix of the text, the empty suffix
/// included, sorted strictly by Rust's slice order, under which a proper
/// prefix sorts first — the property `check_integrity` of that crate
/// spells out.  The divsufsort binding underneath asserts a length
/// strictly below `i32::MAX`, so such texts are excluded here.
#[verifier::external_body]
pub(crate) fn build_suffix_array(text: &Vec<u8>) -> (r: Vec<u32>)
    requires
        text@.len() < 0x7FFF_FFFF,
    ensures
        is_suffix_array(r@.map_values(|x: u32| x as int), text@),
{
    suffix_array::SuffixArray::new(text.as_slice()).into_parts().1
}

/// Sparse suffix array: only the entries whose text position is a
/// multiple of the sparsity factor are stored, indexed by rank over a
/// presence bitvector.
pub struct SparseSuffixArray {
    /// Presence bitvector over the rows of the full suffix array.
    pub bitvector: Bitvec,

    /// The retained suffix-array entries, in row order.
    pub sparse_sa: Vec<u32>,
}

impl SparseSuffixArray {
    /// The structure is the sparse projection of the suffix array `sa`
    /// with factor `f`: a row is present exactly when its entry is
    /// divisible by `f`, and a present row's entry is recovered by rank.
    pub open spec fn models(self, sa: Seq<int>, f: int) -> bool {
        &&& f >= 1
        &&& self.bitvector.wf()
        &&& self.bitvector.counts_valid()
        &&& self.bitvector@.len() == sa.len()
        &&& forall|i: int| 0 <= i < sa.len() ==> #[trigger] self.bitvector@[i] == (sa[i] % f == 0)
        &&& forall|i: int|
            0 <= i < sa.len() && self.bitvector@[i] ==> #[trigger] self.sparse_sa@[count_bits(
                self.bitvector@,
                i,
            )] == sa[i]
        &&& self.sparse_sa@.len() == count_bits(self.bitvector@, sa.len() as int)
    }

    /// Construct the sparse suffix array from the entire suffix array.
    pub fn from_sa(sa: &Vec<u32>, sparseness_factor: u32) -> (r: Self)
        requires
            sparseness_factor >= 1,
            sa@.len() + 64 <= u64::MAX,
        ensures
            r.models(sa@.map_values(|x: u32| x as int), sparseness_factor as int),
    {
        let ghost sa_model = sa@.map_values(|x: u32| x as int);
        let mut bitvector = Bitvec::new(sa.len());
        let mut sparse_sa: Vec<u32> = Vec::new();
        let mut i: usize = 0;
        while i < sa.len()
            invariant
                sparseness_factor >= 1,
                i <= sa@.len(),
                sa_model == sa@.map_values(|x: u32| x as int),
                bitvector.wf(),
                bitvector@.len() == sa@.len(),
                sa@.len() + 64 <= u64::MAX,
                forall|j: int|
                    0 <= j < i ==> #[trigger] bitvector@[j] == (sa_model[j]
                        % (sparseness_factor as int) == 0),
                forall|j: int| i <= j < sa@.len() ==> !(#[trigger] bitvector@[j]),
                sparse_sa@.len() == count_bits(bitvector@, i as int),
                forall|j: int|
                    0 <= j < i && bitvector@[j] ==> #[trigger] sparse_sa@[count_bits(
                        bitvector@,
                        j,
                    )] == sa_model[j],
            decreases sa@.len() - i,
        {
            let ghost pre = bitvector@;
            proof {
                lemma_count_bits_bound(bitvector@, i as int);
            }
            let ghost pre_sparse = sparse_sa@;
            if sa[i] % sparseness_factor == 0 {
                sparse_sa.push(sa[i]);
                bitvector.set(i, true);
                proof {
                    assert forall|j: int| 0 <= j <= i implies count_bits(bitvector@, j)
                        == count_bits(pre, j) by {
                        lemma_count_bits_congruence(bitvector@, pre, j);
                    }
                    assert(count_bits(bitvector@, i as int + 1) == count_bits(pre, i as int) + 1);
                    assert forall|j: int| 0 <= j < i + 1 && bitvector@[j] implies
                        #[trigger] sparse_sa@[count_bits(bitvector@, j)] == sa_model[j] by {
                        assert(count_bits(bitvector@, j) == count_bits(pre, j));
                        if j < i as int {
                            assert(pre[j]);
                            lemma_count_bits_bound(pre, j);
                            assert(pre_sparse[count_bits(pre, j)] == sa_model[j]);
                            assert(count_bits(pre, j + 1) == count_bits(pre, j) + 1);
                            crate::bitvector::lemma_count_bits_monotone(pre, j + 1, i as int);
                            assert(count_bits(pre, j) < pre_sparse.len());
                            assert(sparse_sa@ == pre_sparse.push(sa@[i as int]));
                            assert(pre_sparse.push(sa@[i as int])[count_bits(pre, j)]
                                == pre_sparse[count_bits(pre, j)]);
                        } else {
                            assert(count_bits(pre, j) == pre_sparse.len());
                            assert(sparse_sa@ == pre_sparse.push(sa@[i as int]));
                            assert(pre_sparse.push(sa@[i as int])[pre_sparse.len() as int]
                                == sa@[i as int]);
                        }
                    }
                }
            } else {
                proof {
                    assert(bitvector@ == pre);
                    assert forall|j: int| 0 <= j < i + 1 && bitvector@[j] implies
                        #[trigger] sparse_sa@[count_bits(bitvector@, j)] == sa_model[j] by {
                        assert(j < i as int);
                    }
                }
            }
            i = i + 1;
        }
        bitvector.calculate_counts();
        SparseSuffixArray { bitvector, sparse_sa }
    }

/// Recover the retained entry of a present row through rank over
    /// the presence bitvector.
    pub fn lookup(&self, pos: usize) -> (r: u32)
        requires
            self.bitvector.wf(),
            self.bitvector.counts_valid(),
            pos < self.bitvector@.len(),
            self.bitvector@[pos as int],
            count_bits(self.bitvector@, pos as int) < self.sparse_sa@.len(),
        ensures
            r == self.sparse_sa@[count_bits(self.bitvector@, pos as int)],
    {
        proof {
            lemma_count_bits_bound(self.bitvector@, pos as int);
        }
        let idx = self.bitvector.rank(pos);
        self.sparse_sa[idx]
    }

    /// Law: on a sparse projection of the suffix array `sa`, `lookup`
    /// recovers the original entry of every present row.
    pub proof fn lemma_lookup_recovers(self, sa: Seq<int>, f: int, pos: int)
        requires
            self.models(sa, f),
            0 <= pos < sa.len(),
            self.bitvector@[pos],
        ensures
            count_bits(self.bitvector@, pos) < self.sparse_sa@.len(),
            self.sparse_sa@[count_bits(self.bitvector@, pos)] == sa[pos],
    {
        lemma_count_bits_bound(self.bitvector@, pos);
        assert(count_bits(self.bitvector@, pos + 1) == count_bits(self.bitvector@, pos) + 1);
        crate::bitvector::lemma_count_bits_monotone(self.bitvector@, pos + 1, sa.len() as int);
    }

    /// Check whether the sparse suffix array stores the entry of a row.

    pub fn contains(&self, pos: u32) -> (r: bool)
        requires
            self.bitvector.wf(),
            pos < self.bitvector@.len(),
        ensures
            r == self.bitvector@[pos as int],
    {
        self.bitvector.get(pos as usize)
    }
}

} // verus!
