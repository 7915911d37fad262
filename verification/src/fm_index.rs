use vstd::prelude::*;
use crate::alphabet::{Alphabet, AlphabetPattern, AlphabetString, Direction};
use crate::errors::Error;
use crate::bitvector::OccurenceTable;
use crate::matrix::{init_val, BandedMatrix};
use crate::range::Range;
use crate::tree::{
    child_positions, frontier_measure, lemma_children_measure, lemma_measure_concat,
    lemma_measure_nonneg, node_weight, Position, SearchTree,
};
use crate::suffix_array::{
    SparseSuffixArray, build_suffix_array, is_suffix_array, lemma_empty_suffix_least,
    lemma_seq_lt_asymmetric, lemma_seq_lt_irreflexive, lemma_suffix_lt_unfold,
    seq_lt, suffix,
};

verus! {

/// Number of positions `j < i`, the sentinel slot excluded, whose BWT
/// symbol index is exactly `c`.
pub open spec fn sym_count(bwt: Seq<u8>, sent: int, c: int, i: int) -> int
    decreases i,
{
    if i <= 0 {
        0
    } else {
        sym_count(bwt, sent, c, i - 1) + (if i - 1 != sent && bwt[i - 1] == c {
            1int
        } else {
            0int
        })
    }
}

/// Number of positions `j < i`, the sentinel slot excluded, whose BWT
/// symbol index is strictly below `c`.
pub open spec fn below_count(bwt: Seq<u8>, sent: int, c: int, i: int) -> int
    decreases i,
{
    if i <= 0 {
        0
    } else {
        below_count(bwt, sent, c, i - 1) + (if i - 1 != sent && bwt[i - 1] < c {
            1int
        } else {
            0int
        })
    }
}

pub proof fn lemma_sym_count_bound(bwt: Seq<u8>, sent: int, c: int, i: int)
    ensures
        0 <= sym_count(bwt, sent, c, i),
        0 <= below_count(bwt, sent, c, i),
        below_count(bwt, sent, c, i) + sym_count(bwt, sent, c, i) <= (if i >= 0 {
            i - (if 0 <= sent < i {
                1int
            } else {
                0int
            })
        } else {
            0
        }),
    decreases i,
{
    if i > 0 {
        lemma_sym_count_bound(bwt, sent, c, i - 1);
    }
}

pub proof fn lemma_sym_count_monotone(bwt: Seq<u8>, sent: int, c: int, i: int, j: int)
    requires
        i <= j,
    ensures
        sym_count(bwt, sent, c, i) <= sym_count(bwt, sent, c, j),
        below_count(bwt, sent, c, i) <= below_count(bwt, sent, c, j),
    decreases j,
{
    if j > i && j > 0 {
        lemma_sym_count_monotone(bwt, sent, c, i, j - 1);
    }
}

/// No symbol sorts below index zero.
pub proof fn lemma_below_count_zero(bwt: Seq<u8>, sent: int, i: int)
    ensures
        below_count(bwt, sent, 0, i) == 0,
    decreases i,
{
    if i > 0 {
        lemma_below_count_zero(bwt, sent, i - 1);
    }
}

/// The counts below `c + 1` split into the counts below `c` plus the
/// occurrences of `c` itself.
pub proof fn lemma_below_count_step(bwt: Seq<u8>, sent: int, c: int, i: int)
    ensures
        below_count(bwt, sent, c + 1, i) == below_count(bwt, sent, c, i) + sym_count(
            bwt,
            sent,
            c,
            i,
        ),
    decreases i,
{
    if i > 0 {
        lemma_below_count_step(bwt, sent, c, i - 1);
    }
}

/// FM index over a text: Burrows-Wheeler transform, counts table,
/// occurrence table and sparse suffix array, supporting backward search
/// and position recovery.
pub struct FMIndex<A: Alphabet> {
    /// The original text.
    text: AlphabetString<A>,

    /// Burrows-Wheeler transform of the original text.
    bwt: AlphabetString<A>,

    /// Counts table: entry `c` is one past the number of BWT symbols
    /// strictly below `c`, reserving row 0 for the sentinel.
    counts: Vec<usize>,

    /// The sparse suffix array.
    sparse_sa: SparseSuffixArray,

    /// The occurrence table of the BWT.
    occurence_table: OccurenceTable,
}

impl<A: Alphabet> FMIndex<A> {
    /// The indexed text, as symbol indices.
    pub closed spec fn text_view(self) -> Seq<u8> {
        self.text@
    }

    /// The stored BWT, as symbol indices (the sentinel slot holds 0).
    pub closed spec fn bwt_view(self) -> Seq<u8> {
        self.bwt@
    }

    /// Length of the indexed text.
    pub open spec fn n(self) -> int {
        self.text_view().len() as int
    }

    /// Row of the sentinel inside the BWT.
    pub closed spec fn sent(self) -> int {
        self.occurence_table.sentinel as int
    }

    /// Entry `c` of the counts table.
    pub closed spec fn counts_at(self, c: int) -> int {
        self.counts@[c] as int
    }

    /// The occurrence count `occ(c, i)` over the BWT.
    pub open spec fn occ_spec(self, c: int, i: int) -> int {
        sym_count(self.bwt_view(), self.sent(), c, i)
    }

    /// The LF mapping: the sentinel row maps to row 0, every other row
    /// to the counts entry of its BWT symbol plus that symbol's
    /// occurrences above it.
    pub open spec fn lf_spec(self, k: int) -> int {
        if k == self.sent() {
            0
        } else {
            self.counts_at(self.bwt_view()[k] as int) + self.occ_spec(
                self.bwt_view()[k] as int,
                k,
            )
        }
    }

    /// All parts of the index agree with the suffix array `sa` of the
    /// text and the sparsity factor `f`.
    pub closed spec fn models(self, sa: Seq<int>, f: int) -> bool {
        &&& is_suffix_array(sa, self.text@)
        &&& self.text.wf()
        &&& self.n() >= 1
        &&& self.n() <= 0x7FFF_FFFF
        &&& self.bwt@.len() == self.n() + 1
        &&& self.bwt.wf()
        &&& 0 <= self.sent() <= self.n()
        &&& sa[self.sent()] == 0
        &&& self.bwt@[self.sent()] == 0
        &&& forall|i: int|
            0 <= i <= self.n() && i != self.sent() ==> #[trigger] self.bwt@[i] == self.text@[sa[i]
                - 1]
        &&& self.counts@.len() == A::sigma()
        &&& forall|c: int|
            0 <= c < A::sigma() ==> #[trigger] self.counts@[c] == 1 + below_count(
                self.bwt@,
                self.sent(),
                c,
                self.n() + 1,
            )
        &&& self.occurence_table.wf()
        &&& self.occurence_table.sigma() == A::sigma()
        &&& self.occurence_table.len_spec() == self.n() + 1
        &&& self.occurence_table.sentinel as int == self.sent()
        &&& forall|c: int, i: int|
            0 <= c < A::sigma() && 0 <= i <= self.n() ==> #[trigger] self.occurence_table.table@[
                c
            ]@[i] == (i != self.sent() && self.bwt@[i] <= c)
        &&& self.sparse_sa.models(sa, f)
    }

    /// The index was built from the (unique) suffix array of its text.
    pub closed spec fn wf(self) -> bool {
        exists|sa: Seq<int>, f: int| self.models(sa, f)
    }

    /// The suffix array of the indexed text.
    pub closed spec fn sa_of(self) -> Seq<int> {
        (choose|sa: Seq<int>, f: int| self.models(sa, f)).0
    }

    /// The occurrence table counts the BWT symbols.
    proof fn lemma_occ_table_matches(self, sa: Seq<int>, f: int, c: int, i: int)
        requires
            self.models(sa, f),
            0 <= c < A::sigma(),
            0 <= i <= self.n() + 1,
        ensures
            self.occurence_table.occ_count(c, i) == sym_count(self.bwt@, self.sent(), c, i),
            self.occurence_table.cum_count(c, i) == below_count(self.bwt@, self.sent(), c, i) + (
            if self.sent() < i {
                1int
            } else {
                0int
            }),
        decreases i,
    {
        if i > 0 {
            self.lemma_occ_table_matches(sa, f, c, i - 1);
            let j = i - 1;
            assert(self.occurence_table.table@[c]@[j] == (j != self.sent() && self.bwt@[j] <= c));
            if c > 0 {
                assert(self.occurence_table.table@[c - 1]@[j] == (j != self.sent() && self.bwt@[j]
                    <= c - 1));
            }
        }
    }


    /// Any modelled suffix array is the (unique) one `sa_of` names.
    proof fn lemma_models_sa_of(self, sa: Seq<int>, f: int)
        requires
            self.models(sa, f),
        ensures
            self.sa_of() == sa,
    {
        let (sa2, f2) = choose|sa2: Seq<int>, f2: int| self.models(sa2, f2);
        lemma_sa_unique(sa, sa2, self.text@);
    }

    /// The LF mapping steps one position backwards through the text:
    /// the suffix-array entry at `LF(k)` is one below the entry at `k`,
    /// and the sentinel row maps to the row of the whole text.
    proof fn lemma_lf_maps(self, sa: Seq<int>, f: int, k: int)
        requires
            self.models(sa, f),
            0 <= k <= self.n(),
        ensures
            0 <= self.lf_spec(k) <= self.n(),
            sa[self.lf_spec(k)] == (if sa[k] == 0 {
                self.n()
            } else {
                sa[k] - 1
            }),
    {
        self.lemma_models_parts_ok(sa, f);
        lemma_lf_maps_parts(self.text@, sa, self.bwt@, self.sent(), self.counts@, A::sigma(), k);
        assert(self.lf_spec(k) == lf_parts(self.counts@, self.bwt@, self.sent(), k));
    }

    /// A modelled index's components fit its suffix array.
    proof fn lemma_models_parts_ok(self, sa: Seq<int>, f: int)
        requires
            self.models(sa, f),
        ensures
            bwt_parts_ok(self.text@, sa, self.bwt@, self.sent(), self.counts@, A::sigma()),
    {
        A::alphabet_facts();
    }

    /// The fold of the index's backward search is the fold over its
    /// raw components.
    proof fn lemma_backward_is_bs(self, p: Seq<u8>, m: int)
        requires
            0 <= m,
        ensures
            self.backward_range(p, m) == bs_range(
                self.counts@,
                self.bwt@,
                self.sent(),
                self.n(),
                p,
                m,
            ),
        decreases m,
    {
        if m > 0 {
            self.lemma_backward_is_bs(p, m - 1);
        }
    }

    /// Construct the Burrows-Wheeler transform from the suffix array:
    /// row `i` holds the symbol preceding suffix `sa[i]` in the text,
    /// and the row of the empty suffix holds the sentinel.
    pub fn bwt_from_sa(
        bwt: &mut AlphabetString<A>,
        sa: &Vec<u32>,
        text: &AlphabetString<A>,
    ) -> (sentinel: usize)
        requires
            old(bwt)@.len() == sa@.len(),
            old(bwt).wf(),
            text.wf(),
            forall|i: int| 0 <= i < sa@.len() ==> #[trigger] sa@[i] <= text@.len(),
            exists|i: int| 0 <= i < sa@.len() && #[trigger] sa@[i] == 0,
        ensures
            final(bwt)@.len() == sa@.len(),
            final(bwt).wf(),
            sentinel < sa@.len(),
            sa@[sentinel as int] == 0,
            forall|i: int|
                0 <= i < sa@.len() ==> #[trigger] final(bwt)@[i] == (if sa@[i] == 0 {
                    0u8
                } else {
                    text@[sa@[i] - 1]
                }),
    {
        proof {
            A::alphabet_facts();
        }
        let mut sentinel: usize = 0;
        let mut i: usize = 0;
        let mut seen: bool = false;
        while i < sa.len()
            invariant
                i <= sa@.len(),
                bwt@.len() == sa@.len(),
                text.wf(),
                A::sigma() >= 1,
                forall|j: int| 0 <= j < sa@.len() ==> #[trigger] sa@[j] <= text@.len(),
                seen ==> sentinel < i && sa@[sentinel as int] == 0,
                !seen ==> forall|j: int| 0 <= j < i ==> #[trigger] sa@[j] != 0,
                forall|j: int|
                    0 <= j < i ==> #[trigger] bwt@[j] == (if sa@[j] == 0 {
                        0u8
                    } else {
                        text@[sa@[j] - 1]
                    }),
                forall|j: int| 0 <= j < bwt@.len() ==> (#[trigger] bwt@[j]) < A::sigma(),
            decreases sa@.len() - i,
        {
            if sa[i] == 0 {
                bwt.set(i, 0);
                sentinel = i;
                seen = true;
            } else {
                let v = text.get(sa[i] as usize - 1);
                bwt.set(i, v);
            }
            i = i + 1;
        }
        proof {
            let w = choose|j: int| 0 <= j < sa@.len() && #[trigger] sa@[j] == 0;
            assert(seen);
        }
        sentinel
    }

    /// Construct the counts table: raw symbol frequencies of the BWT,
    /// the sentinel slot skipped, cumulated with an initial offset of
    /// one so that row 0 stays reserved for the sentinel.
    pub fn initialize_counts(counts: &mut Vec<usize>, bwt: &AlphabetString<A>, sentinel: usize)
        requires
            old(counts)@.len() == A::sigma(),
            forall|c: int| 0 <= c < A::sigma() ==> #[trigger] old(counts)@[c] == 0,
            bwt.wf(),
            sentinel < bwt@.len(),
        ensures
            final(counts)@.len() == A::sigma(),
            forall|c: int|
                0 <= c < A::sigma() ==> #[trigger] final(counts)@[c] == 1 + below_count(
                    bwt@,
                    sentinel as int,
                    c,
                    bwt@.len() as int,
                ),
    {
        proof {
            A::alphabet_facts();
        }
        let n_bwt = bwt.len();
        let mut i: usize = 0;
        while i < n_bwt
            invariant
                i <= n_bwt,
                n_bwt == bwt@.len(),
                bwt.wf(),
                sentinel < bwt@.len(),
                counts@.len() == A::sigma(),
                forall|c: int|
                    0 <= c < A::sigma() ==> #[trigger] counts@[c] == sym_count(
                        bwt@,
                        sentinel as int,
                        c,
                        i as int,
                    ),
            decreases n_bwt - i,
        {
            proof {
                assert forall|c: int| 0 <= c < A::sigma() implies 0 <= #[trigger] sym_count(
                    bwt@,
                    sentinel as int,
                    c,
                    i as int,
                ) <= i as int by {
                    lemma_sym_count_bound(bwt@, sentinel as int, c, i as int);
                    lemma_below_count_step(bwt@, sentinel as int, c, i as int);
                }
            }
            if i != sentinel {
                let ci = bwt.get(i) as usize;
                let v = counts[ci];
                counts[ci] = v + 1;
            }
            i = i + 1;
        }
        let alphabet: A = Default::default();
        let sigma = alphabet.len();
        proof {
            lemma_below_count_zero(bwt@, sentinel as int, n_bwt as int);
        }
        let mut s1: usize = 1;
        let mut c: usize = 0;
        while c < sigma
            invariant
                c <= sigma,
                sigma == A::sigma(),
                n_bwt == bwt@.len(),
                sentinel < bwt@.len(),
                counts@.len() == A::sigma(),
                s1 == 1 + below_count(bwt@, sentinel as int, c as int, n_bwt as int),
                forall|c2: int|
                    0 <= c2 < c ==> #[trigger] counts@[c2] == 1 + below_count(
                        bwt@,
                        sentinel as int,
                        c2,
                        n_bwt as int,
                    ),
                forall|c2: int|
                    c <= c2 < A::sigma() ==> #[trigger] counts@[c2] == sym_count(
                        bwt@,
                        sentinel as int,
                        c2,
                        n_bwt as int,
                    ),
            decreases sigma - c,
        {
            proof {
                lemma_sym_count_bound(bwt@, sentinel as int, c as int, n_bwt as int);
                lemma_below_count_step(bwt@, sentinel as int, c as int, n_bwt as int);
            }
            let s2 = counts[c];
            counts[c] = s1;
            s1 = s1 + s2;
            c = c + 1;
        }
    }

    /// Build the index of a text: suffix array, BWT, counts table,
    /// occurrence table and sparse suffix array.
    pub fn new(text: AlphabetString<A>, sparseness_factor: u32) -> (r: Self)
        requires
            text.wf(),
            1 <= text@.len() < 0x7FFF_FFFF,
            sparseness_factor >= 1,
        ensures
            r.wf(),
            r.text_view() == text@,
            exists|sa: Seq<int>| #[trigger] r.models(sa, sparseness_factor as int),
    {
        proof {
            A::alphabet_facts();
        }
        let text_length = text.len();
        let sa = build_suffix_array(&text.bytes);
        let ghost sa_model = sa@.map_values(|x: u32| x as int);
        proof {
            assert(sa_model.contains(0));
            let z = choose|i: int| 0 <= i < sa_model.len() && sa_model[i] == 0;
            assert(sa@[z] == 0);
            assert forall|i: int| 0 <= i < sa@.len() implies #[trigger] sa@[i] <= text@.len() by {
                assert(sa_model[i] == sa@[i] as int);
            }
        }
        let mut bwt = AlphabetString::<A>::new(text_length + 1);
        let sentinel = Self::bwt_from_sa(&mut bwt, &sa, &text);
        let mut counts: Vec<usize> = Vec::new();
        let alphabet: A = Default::default();
        let sigma = alphabet.len();
        let mut ci: usize = 0;
        while ci < sigma
            invariant
                counts@.len() == ci,
                ci <= sigma,
                forall|c2: int| 0 <= c2 < ci ==> #[trigger] counts@[c2] == 0,
            decreases sigma - ci,
        {
            counts.push(0);
            ci = ci + 1;
        }
        Self::initialize_counts(&mut counts, &bwt, sentinel);
        let occurence_table = OccurenceTable::from_bwt(&bwt, sentinel);
        let sparse_sa = SparseSuffixArray::from_sa(&sa, sparseness_factor);
        let r = FMIndex { text, bwt, counts, sparse_sa, occurence_table };
        proof {
            let n = r.text@.len() as int;
            assert forall|i: int| 0 <= i <= n && i != r.sent() implies #[trigger] r.bwt@[i]
                == r.text@[sa_model[i] - 1] by {
                if sa_model[i] == 0 {
                    lemma_sa_injective(sa_model, r.text@, i, r.sent());
                }
                assert(r.bwt@[i] == (if sa@[i] == 0 {
                    0u8
                } else {
                    r.text@[sa@[i] - 1]
                }));
            }
            assert(r.models(sa_model, sparseness_factor as int));
        }
        r
    }

    /// The alphabet of the index.
    pub fn alphabet(&self) -> (a: &A) {
        &self.text.alphabet
    }

    /// Number of occurrences of a symbol in the first `i` BWT rows,
    /// the sentinel slot excluded.
    pub fn occ(&self, char_i: usize, i: usize) -> (r: usize)
        requires
            self.wf(),
            (char_i as int) < A::sigma(),
            i as int <= self.n() + 1,
        ensures
            r == self.occ_spec(char_i as int, i as int),
    {
        let ghost (sa, f) = choose|sa: Seq<int>, f: int| self.models(sa, f);
        proof {
            self.lemma_occ_table_matches(sa, f, char_i as int, i as int);
        }
        self.occurence_table.occ(char_i, i)
    }

    /// Build the index, rejecting an empty text and a zero sparsity
    /// factor instead of requiring the caller to rule them out.
    pub fn try_new(text: AlphabetString<A>, sparseness_factor: u32) -> (r: Result<Self, Error>)
        requires
            text.wf(),
            text@.len() < 0x7FFF_FFFF,
        ensures
            r is Ok <==> text@.len() >= 1 && sparseness_factor >= 1,
            r matches Ok(v) ==> v.wf() && v.text_view() == text@ && (exists|sa: Seq<int>|
                #[trigger] v.models(sa, sparseness_factor as int)),
            r matches Err(e) ==> (e == Error::EmptyText <==> text@.len() == 0) && (text@.len() > 0
                ==> e == Error::InvalidSparsityFactor),
    {
        if text.len() == 0 {
            return Err(Error::EmptyText);
        }
        if sparseness_factor == 0 {
            return Err(Error::InvalidSparsityFactor);
        }
        Ok(Self::new(text, sparseness_factor))
    }

    /// Find the row of the preceding text position using the LF
    /// property.
    pub fn find_lf(&self, k: usize) -> (r: usize)
        requires
            self.wf(),
            k as int <= self.n(),
        ensures
            r as int == self.lf_spec(k as int),
            r as int <= self.n(),
    {
        let ghost (sa, f) = choose|sa: Seq<int>, f: int| self.models(sa, f);
        proof {
            A::alphabet_facts();
        }
        if k == self.occurence_table.sentinel {
            return 0;
        }
        let char_i = self.bwt.get(k) as usize;
        let cnt = self.counts[char_i];
        let o = self.occurence_table.occ(char_i, k);
        proof {
            self.lemma_occ_table_matches(sa, f, char_i as int, k as int);
            lemma_sym_count_bound(self.bwt@, self.sent(), char_i as int, self.n() + 1);
            lemma_sym_count_monotone(self.bwt@, self.sent(), char_i as int, k as int + 1, self.n()
                + 1);
            assert(sym_count(self.bwt@, self.sent(), char_i as int, k as int + 1) == sym_count(
                self.bwt@,
                self.sent(),
                char_i as int,
                k as int,
            ) + 1);
            lemma_sym_count_bound(self.bwt@, self.sent(), char_i as int, k as int);
        }
        cnt + o
    }

    /// The spec-level suffix array of a well-formed index is the suffix
    /// array of its text.
    pub proof fn lemma_sa_of_is_suffix_array(self)
        requires
            self.wf(),
        ensures
            is_suffix_array(self.sa_of(), self.text_view()),
            self.sa_of().len() == self.n() + 1,
            forall|i: int| 0 <= i <= self.n() ==> 0 <= #[trigger] self.sa_of()[i] <= self.n(),
    {
        let (sa, f) = choose|sa: Seq<int>, f: int| self.models(sa, f);
        self.lemma_models_sa_of(sa, f);
    }

    /// Law: the BWT symbol at a row is the predecessor, in the text, of
    /// the suffix that the row stands for; equivalently, one LF step
    /// moves the suffix-array entry one position down, the sentinel row
    /// wrapping to the final entry `n`.
    pub proof fn lemma_lf_steps_back(self, k: int)
        requires
            self.wf(),
            0 <= k <= self.n(),
        ensures
            0 <= self.lf_spec(k) <= self.n(),
            self.sa_of()[self.lf_spec(k)] == (if self.sa_of()[k] == 0 {
                self.n()
            } else {
                self.sa_of()[k] - 1
            }),
    {
        let (sa, f) = choose|sa: Seq<int>, f: int| self.models(sa, f);
        self.lemma_models_sa_of(sa, f);
        self.lemma_lf_maps(sa, f, k);
    }

    /// A counts entry plus an occurrence count never leaves the row
    /// space of the BWT.
    proof fn lemma_counts_occ_bound(self, sa: Seq<int>, f: int, c: int, i: int)
        requires
            self.models(sa, f),
            0 <= c < A::sigma(),
            0 <= i <= self.n() + 1,
        ensures
            1 <= self.counts_at(c),
            0 <= self.counts_at(c) + self.occ_spec(c, i) <= self.n() + 1,
    {
        let bwt = self.bwt@;
        let sent = self.sent();
        lemma_sym_count_bound(bwt, sent, c, i);
        lemma_sym_count_bound(bwt, sent, c, self.n() + 1);
        lemma_sym_count_monotone(bwt, sent, c, i, self.n() + 1);
        lemma_below_count_step(bwt, sent, c, self.n() + 1);
        lemma_sym_count_bound(bwt, sent, c + 1, self.n() + 1);
    }

    /// Recover the text position of a BWT row: step LF until a sampled
    /// row is reached, then read the sparse suffix array and add the
    /// number of steps taken.
    pub fn find_sa(&self, k: usize) -> (r: u32)
        requires
            self.wf(),
            k as int <= self.n(),
        ensures
            r as int == self.sa_of()[k as int],
    {
        let ghost (sa, f) = choose|sa: Seq<int>, f: int| self.models(sa, f);
        proof {
            self.lemma_models_sa_of(sa, f);
        }
        let mut i = k;
        let mut j: u32 = 0;
        let mut cont = self.sparse_sa.contains(i as u32);
        while !cont
            invariant
                self.models(sa, f),
                self.wf(),
                sa == self.sa_of(),
                i as int <= self.n(),
                k as int <= self.n(),
                0 <= sa[i as int] <= self.n(),
                sa[i as int] + j == sa[k as int],
                cont == self.sparse_sa.bitvector@[i as int],
            decreases sa[i as int],
        {
            let ghost sa_i = sa[i as int];
            proof {
                vstd::arithmetic::div_mod::lemma_small_mod(0nat, f as nat);
                assert(sa_i != 0);
                self.lemma_lf_maps(sa, f, i as int);
            }
            i = self.find_lf(i);
            j = j + 1;
            cont = self.sparse_sa.contains(i as u32);
            proof {
                assert(sa[i as int] == sa_i - 1);
            }
        }
        proof {
            crate::bitvector::lemma_count_bits_bound(self.sparse_sa.bitvector@, i as int);
            assert(crate::bitvector::count_bits(self.sparse_sa.bitvector@, i as int + 1)
                == crate::bitvector::count_bits(self.sparse_sa.bitvector@, i as int) + 1);
            crate::bitvector::lemma_count_bits_monotone(
                self.sparse_sa.bitvector@,
                i as int + 1,
                self.n() + 1,
            );
        }
        let idx = self.sparse_sa.bitvector.rank(i);
        let v = self.sparse_sa.sparse_sa[idx];
        v + j
    }

    /// The backward-search range after `m` symbols holds exactly the
    /// rows whose suffix starts with the last `m` pattern symbols.
    proof fn lemma_backward_range_rows(self, sa: Seq<int>, f: int, p: Seq<u8>, m: int)
        requires
            self.models(sa, f),
            0 <= m <= p.len(),
            forall|q: int| 0 <= q < p.len() ==> (#[trigger] p[q]) < A::sigma(),
        ensures
            0 <= self.backward_range(p, m).0,
            self.backward_range(p, m).0 <= self.backward_range(p, m).1,
            self.backward_range(p, m).1 <= self.n() + 1,
            forall|q: int|
                0 <= q <= self.n() ==> ((self.backward_range(p, m).0 <= q < self.backward_range(
                    p,
                    m,
                ).1) == occurs_at(self.text@, #[trigger] p.skip(p.len() - m), sa[q])),
    {
        self.lemma_models_parts_ok(sa, f);
        lemma_bs_range_rows(self.text@, sa, self.bwt@, self.sent(), self.counts@, A::sigma(), p, m);
        self.lemma_backward_is_bs(p, m);
    }

    /// Law: backward search is exact.  After matching the last `m`
    /// pattern symbols, the row range holds precisely the rows whose
    /// suffix begins with those symbols, so the positions `exact_match`
    /// locates for a fully matched pattern are precisely the text
    /// positions at which the pattern occurs.
    pub proof fn lemma_backward_search_exact(self, p: Seq<u8>, m: int)
        requires
            self.wf(),
            0 <= m <= p.len(),
            forall|q: int| 0 <= q < p.len() ==> (#[trigger] p[q]) < A::sigma(),
        ensures
            0 <= self.backward_range(p, m).0,
            self.backward_range(p, m).0 <= self.backward_range(p, m).1,
            self.backward_range(p, m).1 <= self.n() + 1,
            forall|q: int|
                0 <= q <= self.n() ==> ((self.backward_range(p, m).0 <= q < self.backward_range(
                    p,
                    m,
                ).1) == occurs_at(self.text_view(), #[trigger] p.skip(p.len() - m), self.sa_of()[
                    q])),
    {
        let (sa, f) = choose|sa: Seq<int>, f: int| self.models(sa, f);
        self.lemma_models_sa_of(sa, f);
        self.lemma_backward_range_rows(sa, f, p, m);
    }

    /// The row range reached after consuming the first `m` symbols of
    /// the path `w` by successive left extensions from the full range.
    pub open spec fn path_range(self, w: Seq<u8>, m: int) -> (int, int)
        decreases m,
    {
        if m <= 0 {
            (0, self.n() + 1)
        } else {
            let prev = self.path_range(w, m - 1);
            let c = w[m - 1] as int;
            (
                self.counts_at(c) + self.occ_spec(c, prev.0),
                self.counts_at(c) + self.occ_spec(c, prev.1),
            )
        }
    }

    /// The range of a path depends only on the symbols consumed so far.
    pub proof fn lemma_path_range_prefix(self, w1: Seq<u8>, w2: Seq<u8>, m: int)
        requires
            0 <= m <= w1.len(),
            m <= w2.len(),
            forall|q: int| 0 <= q < m ==> (#[trigger] w1[q]) == w2[q],
        ensures
            self.path_range(w1, m) == self.path_range(w2, m),
        decreases m,
    {
        if m > 0 {
            self.lemma_path_range_prefix(w1, w2, m - 1);
        }
    }

    /// Path ranges are well-formed intervals inside the row space.
    proof fn lemma_path_range_bounds(self, sa: Seq<int>, f: int, w: Seq<u8>, m: int)
        requires
            self.models(sa, f),
            0 <= m <= w.len(),
            forall|q: int| 0 <= q < w.len() ==> (#[trigger] w[q]) < A::sigma(),
        ensures
            0 <= self.path_range(w, m).0 <= self.path_range(w, m).1,
            self.path_range(w, m).1 <= self.n() + 1,
        decreases m,
    {
        if m > 0 {
            self.lemma_path_range_bounds(sa, f, w, m - 1);
            let prev = self.path_range(w, m - 1);
            let c = w[m - 1] as int;
            self.lemma_counts_occ_bound(sa, f, c, prev.0);
            self.lemma_counts_occ_bound(sa, f, c, prev.1);
            lemma_sym_count_monotone(self.bwt@, self.sent(), c, prev.0, prev.1);
        }
    }

    /// Path ranges of a well-formed index are intervals inside the row
    /// space.
    pub proof fn lemma_path_range_wf(self, w: Seq<u8>, m: int)
        requires
            self.wf(),
            0 <= m <= w.len(),
            forall|q: int| 0 <= q < w.len() ==> (#[trigger] w[q]) < A::sigma(),
        ensures
            0 <= self.path_range(w, m).0 <= self.path_range(w, m).1,
            self.path_range(w, m).1 <= self.n() + 1,
    {
        let (sa, f) = choose|sa: Seq<int>, f: int| self.models(sa, f);
        self.lemma_path_range_bounds(sa, f, w, m);
    }

    /// A path whose range has emptied keeps an empty range however

    /// far it is extended.
    proof fn lemma_path_range_dead(self, w: Seq<u8>, m1: int, m2: int)
        requires
            0 <= m1 <= m2,
            self.path_range(w, m1).0 >= self.path_range(w, m1).1,
        ensures
            self.path_range(w, m2).0 >= self.path_range(w, m2).1,
        decreases m2,
    {
        if m2 > m1 {
            self.lemma_path_range_dead(w, m1, m2 - 1);
            let prev = self.path_range(w, m2 - 1);
            lemma_sym_count_monotone(self.bwt@, self.sent(), w[m2 - 1] as int, prev.1, prev.0);
        }
    }

    /// The left-extension fold of a path is the backward-search fold
    /// of the reversed word: the approximate search's trie ranges are
    /// backward-search ranges.
    pub proof fn lemma_path_range_is_backward_range(self, w: Seq<u8>, m: int)
        requires
            0 <= m <= w.len(),
        ensures
            self.path_range(w, m) == self.backward_range(w.reverse(), m),
        decreases m,
    {
        if m > 0 {
            self.lemma_path_range_is_backward_range(w, m - 1);
            assert(w.reverse()[w.len() - m] == w[m - 1]);
        }
    }

    /// The row range reached after matching the last `m` symbols of `p`


    /// by backward search, starting from the full row range.
    pub open spec fn backward_range(self, p: Seq<u8>, m: int) -> (int, int)
        decreases m,
    {
        if m <= 0 {
            (0, self.n() + 1)
        } else {
            let prev = self.backward_range(p, m - 1);
            let c = p[p.len() - m] as int;
            (
                self.counts_at(c) + self.occ_spec(c, prev.0),
                self.counts_at(c) + self.occ_spec(c, prev.1),
            )
        }
    }

    /// A backward-search range that has emptied stays empty however
    /// many more symbols are matched.
    proof fn lemma_dead_range_stays_dead(self, p: Seq<u8>, m1: int, m2: int)
        requires
            0 <= m1 <= m2,
            self.backward_range(p, m1).0 >= self.backward_range(p, m1).1,
        ensures
            self.backward_range(p, m2).0 >= self.backward_range(p, m2).1,
        decreases m2,
    {
        if m2 > m1 {
            self.lemma_dead_range_stays_dead(p, m1, m2 - 1);
            let prev = self.backward_range(p, m2 - 1);
            let c = p[p.len() - m2] as int;
            lemma_sym_count_monotone(self.bwt@, self.sent(), c, prev.1, prev.0);
        }
    }

    /// Every intermediate range of the backward search holds a row.
    pub open spec fn backward_alive(self, p: Seq<u8>, m: int) -> bool {
        forall|m2: int|
            1 <= m2 <= m ==> (#[trigger] self.backward_range(p, m2)).0 < self.backward_range(
                p,
                m2,
            ).1
    }

    /// Try to extend the matched string by a character on the left:
    /// maps the row range of the current string `w` to the row range of
    /// `c · w`, and reports whether any row is left.
    pub fn add_char_left(&self, char_i: usize, range: &Range, new_range: &mut Range) -> (b: bool)
        requires
            self.wf(),
            (char_i as int) < A::sigma(),
            range.start <= range.end,
            range.end as int <= self.n() + 1,
        ensures
            final(new_range).start as int == self.counts_at(char_i as int) + self.occ_spec(
                char_i as int,
                range.start as int,
            ),
            final(new_range).end as int == self.counts_at(char_i as int) + self.occ_spec(
                char_i as int,
                range.end as int,
            ),
            final(new_range).start <= final(new_range).end,
            final(new_range).end as int <= self.n() + 1,
            b == !final(new_range).is_empty_spec(),
    {
        let ghost (sa, f) = choose|sa: Seq<int>, f: int| self.models(sa, f);
        proof {
            self.lemma_occ_table_matches(sa, f, char_i as int, range.start as int);
            self.lemma_occ_table_matches(sa, f, char_i as int, range.end as int);
            self.lemma_counts_occ_bound(sa, f, char_i as int, range.start as int);
            self.lemma_counts_occ_bound(sa, f, char_i as int, range.end as int);
            lemma_sym_count_monotone(
                self.bwt@,
                self.sent(),
                char_i as int,
                range.start as int,
                range.end as int,
            );
        }
        let cnt = self.counts[char_i];
        new_range.start = cnt + self.occurence_table.occ(char_i, range.start);
        new_range.end = cnt + self.occurence_table.occ(char_i, range.end);
        !new_range.empty()
    }

    /// Find every text position at which the pattern occurs.  The
    /// pattern is matched back to front; the surviving row range is
    /// located row by row, so the positions come in suffix-array order.
    pub fn exact_match(&self, pattern: &mut AlphabetPattern<A>) -> (result: Vec<u32>)
        requires
            self.wf(),
            old(pattern).wf(),
        ensures
            final(pattern).wf(),
            final(pattern).pattern == old(pattern).pattern,
            final(pattern).direction is BACKWARD,
            ({
                let p = old(pattern).pattern@;
                let rng = self.backward_range(p, p.len() as int);
                if self.backward_alive(p, p.len() as int) {
                    result@.len() == rng.1 - rng.0 && (forall|q: int|
                        0 <= q < result@.len() ==> #[trigger] result@[q] as int == self.sa_of()[
                            rng.0 + q
                        ])
                } else {
                    result@.len() == 0
                }
            }),
            forall|q: int|
                0 <= q < result@.len() ==> occurs_at(
                    self.text_view(),
                    old(pattern).pattern@,
                    #[trigger] result@[q] as int,
                ),
            forall|v: int|
                occurs_at(self.text_view(), old(pattern).pattern@, v) ==> exists|q: int|
                    0 <= q < result@.len() && #[trigger] result@[q] as int == v,
    {
        let ghost (sa, f) = choose|sa: Seq<int>, f: int| self.models(sa, f);
        proof {
            self.lemma_models_sa_of(sa, f);
        }
        let mut result: Vec<u32> = Vec::new();
        let mut range = Range::new(0, self.text.len() + 1);
        pattern.set_direction(Direction::BACKWARD);
        let ghost p = pattern.pattern@;
        let m_total = pattern.len();
        let mut i: usize = 0;
        while i < m_total
            invariant
                self.models(sa, f),
                self.wf(),
                pattern.wf(),
                pattern.direction is BACKWARD,
                pattern.pattern == old(pattern).pattern,
                pattern.pattern@ == p,
                p == old(pattern).pattern@,
                pattern.pattern_length == m_total,
                m_total == p.len(),
                i <= m_total,
                self.backward_alive(p, i as int),
                range.start as int == self.backward_range(p, i as int).0,
                range.end as int == self.backward_range(p, i as int).1,
                range.start <= range.end,
                range.end as int <= self.n() + 1,
                result@.len() == 0,
            decreases m_total - i,
        {
            let c = pattern.char_at(i);
            let rc = range.clone();
            let alive = self.add_char_left(c as usize, &rc, &mut range);
            proof {
                assert(p[p.len() - (i as int + 1)] == p[p.len() - 1 - i as int]);
                assert(range.start as int == self.backward_range(p, i as int + 1).0);
                assert(range.end as int == self.backward_range(p, i as int + 1).1);
            }
            if !alive {
                proof {
                    assert(!self.backward_alive(p, p.len() as int)) by {
                        assert((self.backward_range(p, i as int + 1)).0
                            >= self.backward_range(p, i as int + 1).1);
                    }
                    self.lemma_dead_range_stays_dead(p, i as int + 1, p.len() as int);
                    self.lemma_backward_search_exact(p, p.len() as int);
                    assert(p.skip(0) =~= p);
                    assert forall|v: int| occurs_at(self.text_view(), p, v) implies exists|q: int|
                        0 <= q < result@.len() && #[trigger] result@[q] as int == v by {
                        self.lemma_sa_of_is_suffix_array();
                        assert(self.sa_of().contains(v));
                        let j = choose|j: int|
                            0 <= j < self.sa_of().len() && self.sa_of()[j] == v;
                        assert(occurs_at(self.text_view(), p.skip(0), self.sa_of()[j]));
                        assert(false);
                    }
                }
                return result;
            }
            proof {
                assert forall|m2: int| 1 <= m2 <= i as int + 1 implies (
                #[trigger] self.backward_range(p, m2)).0 < self.backward_range(p, m2).1 by {
                }
            }
            i = i + 1;
        }
        let mut row = range.start;
        while row < range.end
            invariant
                self.models(sa, f),
                self.wf(),
                sa == self.sa_of(),
                range.start <= row <= range.end,
                range.end as int <= self.n() + 1,
                result@.len() == row - range.start,
                forall|q: int|
                    0 <= q < result@.len() ==> #[trigger] result@[q] as int == self.sa_of()[
                        range.start + q
                    ],
            decreases range.end - row,
        {
            let v = self.find_sa(row);
            result.push(v);
            row = row + 1;
        }
        proof {
            self.lemma_backward_search_exact(p, p.len() as int);
            assert(p.skip(0) =~= p);
            self.lemma_sa_of_is_suffix_array();
            assert forall|q: int| 0 <= q < result@.len() implies occurs_at(
                self.text_view(),
                p,
                #[trigger] result@[q] as int,
            ) by {
                assert(result@[q] as int == self.sa_of()[range.start + q]);
                assert(occurs_at(self.text_view(), p.skip(0), self.sa_of()[range.start + q]));
            }
            assert forall|v: int| occurs_at(self.text_view(), p, v) implies exists|q: int|
                0 <= q < result@.len() && #[trigger] result@[q] as int == v by {
                assert(self.sa_of().contains(v));
                let j = choose|j: int| 0 <= j < self.sa_of().len() && self.sa_of()[j] == v;
                assert(occurs_at(self.text_view(), p.skip(0), self.sa_of()[j]));
                assert(range.start <= j < range.end);
                assert(result@[j - range.start] as int == v);
            }
        }
        result
    }
    /// Depth-first approximate search: walk the implicit suffix trie
    /// left-extension by left-extension, keep one banded DP row per
    /// depth, prune a path only once its best row value exceeds the
    /// edit threshold `k`, and record each node whose final-column
    /// value stays within `k`.  Every recorded node is reached by a
    /// path whose banded edit distance to the pattern stays within
    /// `k`, and every surviving path in the depth window with a final
    /// column within `k` is recorded.
    #[verifier::rlimit(100)]
    pub fn approximate_match(&self, pattern: &mut AlphabetPattern<A>, k: usize) -> (occurences:
        Vec<Position>)
        requires
            self.wf(),
            old(pattern).wf(),
            old(pattern).pattern@.len() >= 1,
            (old(pattern).pattern@.len() + k + 1) * (2 * (k as int) + 3) <= usize::MAX,
        ensures
            final(pattern).wf(),
            final(pattern).pattern == old(pattern).pattern,
            final(pattern).direction is BACKWARD,
            forall|q: int|
                0 <= q < occurences@.len() ==> #[trigger] accepted_node(
                    *self,
                    old(pattern).pattern@.reverse(),
                    k as int,
                    occurences@[q],
                ),
            forall|w: Seq<u8>|
                #[trigger] target_path(*self, old(pattern).pattern@.reverse(), k as int, w)
                    ==> exists|q: int|
                    0 <= q < occurences@.len() && node_on_path(*self, occurences@[q], w),
    {
        let ghost (sa, f) = choose|sa: Seq<int>, f: int| self.models(sa, f);
        proof {
            A::alphabet_facts();
        }
        let mut occurences: Vec<Position> = Vec::new();
        pattern.set_direction(Direction::BACKWARD);
        let m_len = pattern.len();
        let ghost pat = old(pattern).pattern@.reverse();
        proof {
            assert(m_len + k + 1 <= usize::MAX) by (nonlinear_arith)
                requires
                    (m_len as int + k as int + 1) * (2 * (k as int) + 3) <= usize::MAX,
                    m_len >= 0,
                    k >= 0,
            ;
            assert(pattern.syms() =~= pat);
        }
        let mut matrix = BandedMatrix::new(m_len, k);
        let maxd = m_len + k;
        let ghost sigma = A::sigma();
        let ghost maxdi = maxd as int;
        let ghost mut cur: Seq<u8> = Seq::empty();
        let ghost mut paths: Seq<Seq<u8>> = Seq::empty();
        let ghost mut cpath: Seq<u8> = Seq::empty();
        let ghost mut opaths: Seq<Seq<u8>> = Seq::empty();
        let mut search_tree = SearchTree::new(self);
        let full = Range::new(0, self.text.len() + 1);
        proof {
            assert forall|c: int| 0 <= c < sigma implies 0 <= self.counts_at(c)
                + #[trigger] self.occ_spec(c, 0) && self.counts_at(c) + self.occ_spec(
                c,
                self.n() + 1,
            ) <= self.n() + 1 by {
                self.lemma_counts_occ_bound(sa, f, c, 0);
                self.lemma_counts_occ_bound(sa, f, c, self.n() + 1);
            }
            assert forall|c: int| 0 <= c < sigma implies #[trigger] self.occ_spec(c, 0)
                <= self.occ_spec(c, self.n() + 1) by {
                lemma_sym_count_monotone(self.bwt@, self.sent(), c, 0, self.n() + 1);
            }
        }
        search_tree.extend_search_space(&full, 0);
        proof {
            lemma_measure_nonneg(search_tree.search_space@, maxdi, sigma);
            lemma_child_positions_on_paths(*self, Seq::empty(), 0, self.n() + 1, sigma);
            paths = child_paths(*self, Seq::empty(), 0, self.n() + 1, sigma);
        }
        let mut cont = search_tree.next();
        proof {
            if paths.len() > 0 {
                cpath = paths.last();
                paths = paths.drop_last();
            }
            assert forall|w: Seq<u8>| #[trigger] target_path(*self, pat, k as int, w) implies ((
            exists|i: int| 0 <= i < paths.len() && is_path_prefix(#[trigger] paths[i], w)) || (
            cont matches Some(_) && is_path_prefix(cpath, w))) by {
                let w1 = w.take(1);
                self.lemma_path_range_prefix(w1, w, 1);
                assert(self.path_range(w, 0) == (0int, self.n() + 1));
                if self.path_range(w, 1).0 >= self.path_range(w, 1).1 {
                    self.lemma_path_range_dead(w, 1, w.len() as int);
                    assert(false);
                }
                assert(self.path_range(w, 1).0 == self.counts_at(w[0] as int) + self.occ_spec(
                    w[0] as int,
                    0,
                ));
                let all = child_paths(*self, Seq::empty(), 0, self.n() + 1, sigma);
                assert(self.counts_at(w[0] as int) + self.occ_spec(w[0] as int, 0)
                    < self.counts_at(w[0] as int) + self.occ_spec(w[0] as int, self.n() + 1));
                let q0 = choose|q: int|
                    0 <= q < all.len() && #[trigger] all[q] == Seq::empty().push(w[0]);
                assert(Seq::empty().push(w[0]) =~= w.take(1));
                assert(is_path_prefix(all[q0], w));
                if q0 < all.len() - 1 {
                    assert(paths[q0] == all[q0]);
                } else {
                    assert(cpath == all[q0]);
                }
            }
        }
        while cont.is_some()
            invariant
                self.wf(),
                self.models(sa, f),
                matrix.wf(),
                matrix.rows() == m_len + k + 1,
                matrix.cols() == m_len + 1,
                matrix.band() == k,
                pattern.wf(),
                pattern.direction is BACKWARD,
                pattern.pattern == old(pattern).pattern,
                pattern.pattern_length == m_len,
                m_len == old(pattern).pattern@.len(),
                m_len >= 1,
                maxd == m_len + k,
                maxd <= usize::MAX,
                sigma == A::sigma(),
                maxdi == maxd as int,
                pat == old(pattern).pattern@.reverse(),
                pat.len() == m_len,
                pattern.syms() == pat,
                search_tree.index() == *self,
                paths.len() == search_tree.search_space@.len(),
                forall|i: int|
                    0 <= i < paths.len() ==> node_on_path(
                        *self,
                        search_tree.search_space@[i],
                        #[trigger] paths[i],
                    ) && paths[i].len() <= maxdi,
                forall|i: int|
                    0 <= i < paths.len() - 1 ==> is_path_prefix(
                        (#[trigger] paths[i]).drop_last(),
                        paths[i + 1].drop_last(),
                    ),
                cont matches Some(p) ==> node_on_path(*self, p, cpath) && cpath.len() <= maxdi && (
                paths.len() > 0 ==> is_path_prefix(paths.last().drop_last(), cpath.drop_last()))
                    && is_path_prefix(cpath.drop_last(), cur),
                cont is None ==> paths.len() == 0,
                cur.len() <= maxdi,
                forall|i2: int, j2: int|
                    matrix.in_band(i2, j2) && j2 >= 0 && (i2 == 0 || j2 < matrix.first_col(i2)
                        || j2 > matrix.last_col(i2)) ==> #[trigger] matrix.cell(i2, j2)
                        == init_val(matrix.cols(), matrix.band(), i2, j2),
                forall|i2: int, j2: int|
                    1 <= i2 <= cur.len() && matrix.in_band(i2, j2) && j2 >= 0
                        ==> #[trigger] matrix.cell(i2, j2) == crate::matrix::dp_cell(
                        pat,
                        k as int,
                        cur,
                        i2,
                        j2,
                    ),
                opaths.len() == occurences@.len(),
                forall|q: int|
                    0 <= q < occurences@.len() ==> node_accepted(
                        *self,
                        pat,
                        k as int,
                        occurences@[q],
                        #[trigger] opaths[q],
                    ),
                forall|w: Seq<u8>|
                    #[trigger] target_path(*self, pat, k as int, w) ==> (exists|q: int|
                        0 <= q < occurences@.len() && node_on_path(*self, occurences@[q], w)) || (
                    exists|i: int|
                        0 <= i < paths.len() && is_path_prefix(#[trigger] paths[i], w)) || (
                    cont matches Some(_) && is_path_prefix(cpath, w)),
            decreases frontier_measure(search_tree.search_space@, maxdi, sigma) + (match cont {
                Some(p) => node_weight(p, maxdi, sigma),
                None => 0,
            }),
        {
            let ghost kk = k as int;
            let item = cont.unwrap();
            let ghost wc = cpath;
            let ghost u = wc.drop_last();
            let ghost stack0 = search_tree.search_space@;
            let ghost paths0 = paths;
            let ghost occ0 = occurences@;
            let row = item.row();
            proof {
                assert(wc =~= u.push(wc[wc.len() - 1]));
                assert forall|i2: int, j2: int|
                    0 <= i2 <= u.len() && matrix.in_band(i2, j2) && j2 >= 0 implies
                    #[trigger] matrix.cell(i2, j2) == crate::matrix::dp_cell(
                    pat,
                    kk,
                    u,
                    i2,
                    j2,
                ) by {
                    if i2 >= 1 {
                        crate::matrix::lemma_dp_prefix(pat, kk, u, cur, i2, j2);
                    }
                }
            }
            let ghost pre_matrix = matrix;
            let min_edit_distance = matrix.update_row(pattern, row, item.character());
            proof {
                assert(u.push(item.index) == wc);
                assert forall|j: int|
                    pre_matrix.first_col(row as int) <= j <= pre_matrix.last_col(
                        row as int,
                    ) implies #[trigger] matrix.cell(row as int, j) == crate::matrix::dp_cell(
                    pat,
                    kk,
                    wc,
                    row as int,
                    j,
                ) by {
                    pre_matrix.lemma_new_row_matches_dp(pat, u, item.index, j);
                }
                pre_matrix.lemma_new_row_matches_dp(
                    pat,
                    u,
                    item.index,
                    pre_matrix.last_col(row as int),
                );
                assert(min_edit_distance as int == crate::matrix::dp_row_min(
                    pat,
                    kk,
                    wc,
                    row as int,
                    pre_matrix.last_col(row as int),
                ));
                cur = wc;
                assert forall|i2: int, j2: int|
                    1 <= i2 <= cur.len() && matrix.in_band(i2, j2) && j2 >= 0 implies
                    #[trigger] matrix.cell(i2, j2) == crate::matrix::dp_cell(
                    pat,
                    kk,
                    cur,
                    i2,
                    j2,
                ) by {
                    if i2 < row as int {
                        assert(matrix.cell(i2, j2) == pre_matrix.cell(i2, j2));
                        crate::matrix::lemma_dp_prefix(pat, kk, u, wc, i2, j2);
                    } else {
                        if j2 < pre_matrix.first_col(i2) || j2 > pre_matrix.last_col(i2) {
                            assert(matrix.cell(i2, j2) == pre_matrix.cell(i2, j2));
                        }
                    }
                }
            }
            if min_edit_distance <= k && row < maxd {
                proof {
                    self.lemma_path_range_bounds(sa, f, wc, wc.len() as int);
                    assert forall|c: int| 0 <= c < sigma implies 0 <= self.counts_at(c)
                        + #[trigger] self.occ_spec(c, item.range.start as int)
                        && self.counts_at(c) + self.occ_spec(c, item.range.end as int) <= self.n()
                        + 1 by {
                        self.lemma_counts_occ_bound(sa, f, c, item.range.start as int);
                        self.lemma_counts_occ_bound(sa, f, c, item.range.end as int);
                    }
                    assert forall|c: int| 0 <= c < sigma implies #[trigger] self.occ_spec(
                        c,
                        item.range.start as int,
                    ) <= self.occ_spec(c, item.range.end as int) by {
                        lemma_sym_count_monotone(
                            self.bwt@,
                            self.sent(),
                            c,
                            item.range.start as int,
                            item.range.end as int,
                        );
                    }
                }
                search_tree.extend_search_space(item.range(), row);
                proof {
                    let kids = child_positions(
                        *self,
                        item.range.start as int,
                        item.range.end as int,
                        row as int,
                        sigma,
                    );
                    lemma_measure_concat(stack0, kids, maxdi, sigma);
                    lemma_children_measure(
                        *self,
                        item.range.start as int,
                        item.range.end as int,
                        row as int,
                        sigma,
                        maxdi,
                        sigma,
                    );
                    let pw = vstd::arithmetic::power::pow(
                        sigma + 1,
                        (maxdi - row as int - 1) as nat,
                    );
                    assert(node_weight(item, maxdi, sigma) == vstd::arithmetic::power::pow(
                        sigma + 1,
                        (maxdi - row as int) as nat,
                    ));
                    assert(vstd::arithmetic::power::pow(sigma + 1, (maxdi - row as int) as nat)
                        == (sigma + 1) * pw) by {
                        vstd::arithmetic::power::lemma_pow_adds(
                            sigma + 1,
                            1nat,
                            (maxdi - row as int - 1) as nat,
                        );
                        vstd::arithmetic::power::lemma_pow1(sigma + 1);
                    }
                    vstd::arithmetic::power::lemma_pow_positive(
                        sigma + 1,
                        (maxdi - row as int - 1) as nat,
                    );
                    assert(sigma * pw + pw == (sigma + 1) * pw) by (nonlinear_arith);
                    lemma_child_positions_on_paths(
                        *self,
                        wc,
                        item.range.start as int,
                        item.range.end as int,
                        sigma,
                    );
                    paths = paths0 + child_paths(
                        *self,
                        wc,
                        item.range.start as int,
                        item.range.end as int,
                        sigma,
                    );
                    assert forall|i: int| 0 <= i < paths.len() - 1 implies is_path_prefix(
                        (#[trigger] paths[i]).drop_last(),
                        paths[i + 1].drop_last(),
                    ) by {
                        if i + 1 < paths0.len() {
                        } else if i + 1 == paths0.len() {
                            assert(paths[i] == paths0[i] && paths[i + 1].drop_last() == wc);
                        } else {
                            assert(paths[i].drop_last() == wc && paths[i + 1].drop_last() == wc);
                        }
                    }
                }
            } else {
                proof {
                    assert(node_weight(item, maxdi, sigma) >= 1) by {
                        crate::tree::lemma_weight_positive(item, maxdi, sigma);
                    }
                }
            }
            let ghost mut accepted: bool = false;
            let in_fin = matrix.in_final_column(row);
            if in_fin {
                let value = matrix.final_column(row);
                proof {
                    assert(matrix.in_band(row as int, m_len as int));
                    assert(value as int == crate::matrix::dp_cell(
                        pat,
                        kk,
                        wc,
                        row as int,
                        m_len as int,
                    ));
                }
                if value <= k {
                    occurences.push(item);
                    proof {
                        opaths = opaths.push(wc);
                        accepted = true;
                        assert(node_accepted(*self, pat, kk, item, wc));
                    }
                }
            }
            proof {
                assert((matrix.last_col(row as int) == matrix.cols() - 1 && crate::matrix::dp_cell(
                    pat,
                    kk,
                    wc,
                    row as int,
                    m_len as int,
                ) <= kk) ==> accepted);
                assert(accepted ==> occurences@ == occ0.push(item) && opaths.last() == wc);
                assert(frontier_measure(search_tree.search_space@, maxdi, sigma)
                    < frontier_measure(stack0, maxdi, sigma) + node_weight(item, maxdi, sigma));
            }
            let ghost stack1 = search_tree.search_space@;
            let ghost paths1 = paths;
            cont = search_tree.next();
            proof {
                if stack1.len() > 0 {
                    assert(frontier_measure(stack1, maxdi, sigma) == frontier_measure(
                        stack1.drop_last(),
                        maxdi,
                        sigma,
                    ) + node_weight(stack1.last(), maxdi, sigma));
                    assert(search_tree.search_space@ == stack1.drop_last());
                    assert(cont == Some(stack1.last()));
                    cpath = paths1.last();
                    paths = paths1.drop_last();
                    assert(is_path_prefix(cpath.drop_last(), cur)) by {
                        if paths1.len() > paths0.len() {
                            assert(cpath.drop_last() == wc);
                        } else {
                            assert(cpath == paths0.last());
                            assert(is_path_prefix(cpath.drop_last(), u));
                        }
                    }
                } else {
                    assert(frontier_measure(stack1, maxdi, sigma) == 0);
                    assert(cont is None);
                    paths = paths1;
                }
                assert(frontier_measure(search_tree.search_space@, maxdi, sigma) + (match cont {
                    Some(p) => node_weight(p, maxdi, sigma),
                    None => 0int,
                }) == frontier_measure(stack1, maxdi, sigma));
                lemma_measure_nonneg(search_tree.search_space@, maxdi, sigma);
                lemma_measure_nonneg(stack1, maxdi, sigma);
                lemma_measure_nonneg(stack0, maxdi, sigma);
                if cont is Some {
                    crate::tree::lemma_weight_positive(stack1.last(), maxdi, sigma);
                }
                assert forall|w: Seq<u8>| #[trigger] target_path(*self, pat, kk, w) implies ((
                exists|q: int|
                    0 <= q < occurences@.len() && node_on_path(*self, occurences@[q], w)) || (
                exists|i: int| 0 <= i < paths.len() && is_path_prefix(#[trigger] paths[i], w)) || (
                cont matches Some(_) && is_path_prefix(cpath, w))) by {
                    if exists|q: int| 0 <= q < occ0.len() && node_on_path(*self, occ0[q], w) {
                        let q0 = choose|q: int|
                            0 <= q < occ0.len() && node_on_path(*self, occ0[q], w);
                        assert(occurences@[q0] == occ0[q0]);
                    } else if exists|i: int|
                        0 <= i < paths0.len() && is_path_prefix(#[trigger] paths0[i], w) {
                        let i0 = choose|i: int|
                            0 <= i < paths0.len() && is_path_prefix(#[trigger] paths0[i], w);
                        assert(paths1[i0] == paths0[i0]);
                        if i0 < paths1.len() - 1 {
                            assert(paths[i0] == paths1[i0]);
                        } else {
                            assert(cpath == paths1[i0]);
                        }
                    } else {
                        assert(is_path_prefix(wc, w));
                        if wc.len() == w.len() {
                            assert(wc =~= w);
                            assert(matrix.last_col(row as int) == matrix.cols() - 1);
                            assert(accepted);
                            assert(node_on_path(*self, occurences@[occ0.len() as int], w));
                        } else {
                            let cnext = w[wc.len() as int];
                            let wnext = wc.push(cnext);
                            assert(wnext =~= w.take(wc.len() as int + 1));
                            assert(min_edit_distance <= k) by {
                                if min_edit_distance > k {
                                    crate::matrix::lemma_dp_row_min_prefix(
                                        pat,
                                        kk,
                                        wc,
                                        w,
                                        row as int,
                                        pre_matrix.last_col(row as int),
                                    );
                                    crate::matrix::lemma_dp_row_min_chain(
                                        pat,
                                        kk,
                                        w,
                                        row as int,
                                        w.len() as int,
                                    );
                                    crate::matrix::lemma_dp_row_min_le(
                                        pat,
                                        kk,
                                        w,
                                        w.len() as int,
                                        m_len as int,
                                        if (pat.len() as int) < kk + w.len() {
                                            pat.len() as int
                                        } else {
                                            kk + w.len()
                                        },
                                    );
                                    assert(false);
                                }
                            }
                            assert(row < maxd);
                            let kidp = child_paths(
                                *self,
                                wc,
                                item.range.start as int,
                                item.range.end as int,
                                sigma,
                            );
                            assert(self.path_range(wnext, wc.len() as int + 1).0 < self.path_range(
                                wnext,
                                wc.len() as int + 1,
                            ).1) by {
                                self.lemma_path_range_prefix(wnext, w, wc.len() as int + 1);
                                if self.path_range(w, wc.len() as int + 1).0 >= self.path_range(
                                    w,
                                    wc.len() as int + 1,
                                ).1 {
                                    self.lemma_path_range_dead(
                                        w,
                                        wc.len() as int + 1,
                                        w.len() as int,
                                    );
                                }
                            }
                            assert(self.path_range(wnext, wc.len() as int).0 == item.range.start
                                && self.path_range(wnext, wc.len() as int).1
                                == item.range.end) by {
                                self.lemma_path_range_prefix(wc, wnext, wc.len() as int);
                            }
                            let q0 = choose|q: int|
                                0 <= q < kidp.len() && #[trigger] kidp[q] == wnext;
                            assert(paths1[paths0.len() + q0] == wnext);
                            assert(is_path_prefix(wnext, w));
                            if paths0.len() + q0 < paths1.len() - 1 {
                                assert(paths[paths0.len() + q0] == wnext);
                            } else {
                                assert(cpath == wnext);
                            }
                        }
                    }
                }
            }
        }
        proof {
            assert forall|w: Seq<u8>|
                #[trigger] target_path(*self, old(pattern).pattern@.reverse(), k as int, w) implies
                exists|q: int|
                0 <= q < occurences@.len() && node_on_path(*self, occurences@[q], w) by {
                assert(target_path(*self, pat, k as int, w));
            }
            assert forall|q: int| 0 <= q < occurences@.len() implies #[trigger] accepted_node(
                *self,
                old(pattern).pattern@.reverse(),
                k as int,
                occurences@[q],
            ) by {
                assert(node_accepted(
                    *self,
                    old(pattern).pattern@.reverse(),
                    k as int,
                    occurences@[q],
                    opaths[q],
                ));
            }
        }
        occurences
    }
}

/// The string `w` occurs at position `v` of the text `t`.
pub open spec fn occurs_at(t: Seq<u8>, w: Seq<u8>, v: int) -> bool {
    0 <= v && v + w.len() <= t.len() && t.subrange(v, v + w.len()) == w
}

/// A non-empty string occurs at `v` exactly when its head stands at
/// `v` and its tail occurs one position later.
proof fn lemma_occurs_unfold(t: Seq<u8>, w: Seq<u8>, v: int)
    requires
        0 <= v < t.len(),
        w.len() >= 1,
    ensures
        occurs_at(t, w, v) == (t[v] == w[0] && occurs_at(t, w.skip(1), v + 1)),
{
    if occurs_at(t, w, v) {
        assert(t.subrange(v, v + w.len())[0] == t[v]);
        assert(t.subrange(v + 1, v + w.len()) =~= w.skip(1)) by {
            assert(forall|q: int|
                0 <= q < w.len() - 1 ==> t.subrange(v + 1, v + w.len())[q] == #[trigger] t[v + 1
                    + q]);
        }
    } else {
        if t[v] == w[0] && occurs_at(t, w.skip(1), v + 1) {
            assert(t.subrange(v, v + w.len()) =~= w) by {
                assert(forall|q: int|
                    1 <= q < w.len() ==> #[trigger] w[q] == w.skip(1)[q - 1] && t.subrange(
                        v + 1,
                        v + w.len(),
                    )[q - 1] == t[v + q]);
                assert(t.subrange(v + 1, v + w.len()) == w.skip(1));
            }
            assert(false);
        }
    }
}

/// Every occurrence count between two cut points is attained at a row
/// holding the symbol.
proof fn lemma_occ_hits(bwt: Seq<u8>, sent: int, c: int, s: int, e: int, m: int)
    requires
        0 <= s <= e,
        sym_count(bwt, sent, c, s) <= m < sym_count(bwt, sent, c, e),
    ensures
        exists|j: int|
            s <= j < e && j != sent && bwt[j] == c && #[trigger] sym_count(bwt, sent, c, j) == m,
    decreases e,
{
    if sym_count(bwt, sent, c, e - 1) <= m {
        assert(e - 1 != sent && bwt[e - 1] == c && sym_count(bwt, sent, c, e - 1) == m);
    } else {
        lemma_occ_hits(bwt, sent, c, s, e - 1, m);
        let j = choose|j: int|
            s <= j < e - 1 && j != sent && bwt[j] == c && #[trigger] sym_count(bwt, sent, c, j)
                == m;
        assert(s <= j < e && j != sent && bwt[j] == c && sym_count(bwt, sent, c, j) == m);
    }
}

/// Number of positions `p < i` of the text `t` holding symbol `c`.
pub open spec fn text_count(t: Seq<u8>, c: int, i: int) -> int
    decreases i,
{
    if i <= 0 {
        0
    } else {
        text_count(t, c, i - 1) + (if t[i - 1] == c {
            1int
        } else {
            0int
        })
    }
}

proof fn lemma_text_count_is_len(t: Seq<u8>, c: int, i: int)
    requires
        0 <= i,
    ensures
        Set::new(|p: int| 0 <= p < i && t[p] == c).finite(),
        Set::new(|p: int| 0 <= p < i && t[p] == c).len() == text_count(t, c, i),
    decreases i,
{
    if i == 0 {
        assert(Set::new(|p: int| 0 <= p < 0 && t[p] == c) =~= Set::empty());
    } else {
        lemma_text_count_is_len(t, c, i - 1);
        let prev = Set::new(|p: int| 0 <= p < i - 1 && t[p] == c);
        if t[i - 1] == c {
            assert(Set::new(|p: int| 0 <= p < i && t[p] == c) =~= prev.insert(i - 1));
            assert(!prev.contains(i - 1));
        } else {
            assert(Set::new(|p: int| 0 <= p < i && t[p] == c) =~= prev);
        }
    }
}

/// Law: the occurrence count of a symbol over a BWT prefix is the
/// cardinality of the set of its rows there, the sentinel slot
/// excluded.
pub proof fn lemma_sym_count_is_len(bwt: Seq<u8>, sent: int, c: int, i: int)
    requires
        0 <= i,
    ensures
        Set::new(|j: int| 0 <= j < i && j != sent && bwt[j] == c).finite(),
        Set::new(|j: int| 0 <= j < i && j != sent && bwt[j] == c).len() == sym_count(
            bwt,
            sent,
            c,
            i,
        ),
    decreases i,
{
    if i == 0 {
        assert(Set::new(|j: int| 0 <= j < 0 && j != sent && bwt[j] == c) =~= Set::empty());
    } else {
        lemma_sym_count_is_len(bwt, sent, c, i - 1);
        let prev = Set::new(|j: int| 0 <= j < i - 1 && j != sent && bwt[j] == c);
        if i - 1 != sent && bwt[i - 1] == c {
            assert(Set::new(|j: int| 0 <= j < i && j != sent && bwt[j] == c) =~= prev.insert(
                i - 1,
            ));
            assert(!prev.contains(i - 1));
        } else {
            assert(Set::new(|j: int| 0 <= j < i && j != sent && bwt[j] == c) =~= prev);
        }
    }
}

/// The BWT of a text is a permutation of the text plus the sentinel:
/// each symbol occurs in it exactly as often as in the text.
pub proof fn lemma_bwt_count_is_text_count(
    sa: Seq<int>,
    t: Seq<u8>,
    bwt: Seq<u8>,
    sent: int,
    c: int,
)
    requires
        is_suffix_array(sa, t),
        0 <= sent < sa.len(),
        sa[sent] == 0,
        bwt.len() == sa.len(),
        forall|i: int| 0 <= i < sa.len() && i != sent ==> #[trigger] bwt[i] == t[sa[i] - 1],
    ensures
        sym_count(bwt, sent, c, sa.len() as int) == text_count(t, c, t.len() as int),
{
    let n = t.len() as int;
    lemma_sym_count_is_len(bwt, sent, c, n + 1);
    lemma_text_count_is_len(t, c, n);
    let rows = Set::new(|j: int| 0 <= j < n + 1 && j != sent && bwt[j] == c);
    let posns = Set::new(|p: int| 0 <= p < n && t[p] == c);
    let g = |j: int| sa[j] - 1;
    assert forall|j: int| #[trigger] rows.contains(j) implies posns.contains(g(j)) by {
        if sa[j] == 0 {
            lemma_sa_injective(sa, t, j, sent);
        }
    }
    assert forall|j1: int, j2: int|
        rows.contains(j1) && rows.contains(j2) && #[trigger] g(j1) == #[trigger] g(j2) implies j1
        == j2 by {
        if j1 != j2 {
            lemma_sa_injective(sa, t, j1, j2);
        }
    }
    assert forall|p: int| #[trigger] posns.contains(p) implies rows.map(g).contains(p) by {
        assert(sa.contains(p + 1));
        let j = choose|i: int| 0 <= i < sa.len() && sa[i] == p + 1;
        assert(j != sent);
        assert(rows.contains(j) && p == g(j));
    }
    assert forall|p: int| #[trigger] rows.map(g).contains(p) implies posns.contains(p) by {
        let j = choose|j: int| rows.contains(j) && p == g(j);
    }
    assert(rows.map(g) =~= posns);
    vstd::set_lib::lemma_map_size(rows, posns, g);
}

/// Reversing a text leaves every symbol count unchanged.
pub proof fn lemma_text_count_reverse(t: Seq<u8>, c: int)
    ensures
        text_count(t.reverse(), c, t.len() as int) == text_count(t, c, t.len() as int),
{
    let n = t.len() as int;
    lemma_text_count_is_len(t, c, n);
    lemma_text_count_is_len(t.reverse(), c, n);
    let posns = Set::new(|p: int| 0 <= p < n && t[p] == c);
    let rposns = Set::new(|p: int| 0 <= p < n && t.reverse()[p] == c);
    let g = |p: int| n - 1 - p;
    assert forall|p: int| #[trigger] posns.contains(p) implies rposns.contains(g(p)) by {
        assert(t.reverse()[n - 1 - p] == t[p]);
    }
    assert forall|p: int| #[trigger] rposns.contains(p) implies posns.map(g).contains(p) by {
        assert(t.reverse()[p] == t[n - 1 - p]);
        assert(posns.contains(n - 1 - p) && p == g(n - 1 - p));
    }
    assert forall|p: int| #[trigger] posns.map(g).contains(p) implies rposns.contains(p) by {
        let q = choose|q: int| posns.contains(q) && p == g(q);
        assert(t.reverse()[n - 1 - q] == t[q]);
    }
    assert(posns.map(g) =~= rposns);
    assert forall|p1: int, p2: int|
        posns.contains(p1) && posns.contains(p2) && #[trigger] g(p1) == #[trigger] g(p2) implies p1
        == p2 by {
    }
    vstd::set_lib::lemma_map_size(posns, rposns, g);
}

/// The LF mapping computed from raw index components: counts table
/// `cnt` and BWT `bwt` with sentinel row `sent`.
pub open spec fn lf_parts(cnt: Seq<usize>, bwt: Seq<u8>, sent: int, k: int) -> int {
    if k == sent {
        0
    } else {
        cnt[bwt[k] as int] + sym_count(bwt, sent, bwt[k] as int, k)
    }
}

/// The backward-search fold over raw index components, consuming the
/// last `m` symbols of `p` from the full row range.
pub open spec fn bs_range(
    cnt: Seq<usize>,
    bwt: Seq<u8>,
    sent: int,
    n: int,
    p: Seq<u8>,
    m: int,
) -> (int, int)
    decreases m,
{
    if m <= 0 {
        (0, n + 1)
    } else {
        let prev = bs_range(cnt, bwt, sent, n, p, m - 1);
        let c = p[p.len() - m] as int;
        (cnt[c] + sym_count(bwt, sent, c, prev.0), cnt[c] + sym_count(bwt, sent, c, prev.1))
    }
}

/// A counts table, BWT and sentinel row that fit the suffix array `sa`
/// of the text `t` over a `sigma`-symbol alphabet.
pub open spec fn bwt_parts_ok(
    t: Seq<u8>,
    sa: Seq<int>,
    bwt: Seq<u8>,
    sent: int,
    cnt: Seq<usize>,
    sigma: int,
) -> bool {
    &&& is_suffix_array(sa, t)
    &&& sigma >= 1
    &&& bwt.len() == t.len() + 1
    &&& forall|i: int| 0 <= i < bwt.len() ==> (#[trigger] bwt[i] as int) < sigma
    &&& 0 <= sent <= t.len()
    &&& sa[sent] == 0
    &&& bwt[sent] == 0
    &&& forall|i: int| 0 <= i <= t.len() && i != sent ==> #[trigger] bwt[i] == t[sa[i] - 1]
    &&& cnt.len() == sigma
    &&& forall|c: int|
        0 <= c < sigma ==> #[trigger] cnt[c] as int == 1 + below_count(bwt, sent, c, t.len() as int + 1)
}

/// A counts entry plus an occurrence count stays within the row space
/// of fitting components.
proof fn lemma_parts_counts_occ_bound(
    t: Seq<u8>,
    sa: Seq<int>,
    bwt: Seq<u8>,
    sent: int,
    cnt: Seq<usize>,
    sigma: int,
    c: int,
    i: int,
)
    requires
        bwt_parts_ok(t, sa, bwt, sent, cnt, sigma),
        0 <= c < sigma,
        0 <= i <= t.len() + 1,
    ensures
        1 <= cnt[c] as int,
        0 <= cnt[c] as int + sym_count(bwt, sent, c, i) <= t.len() + 1,
{
    let n = t.len() as int;
    lemma_sym_count_bound(bwt, sent, c, i);
    lemma_sym_count_bound(bwt, sent, c, n + 1);
    lemma_sym_count_monotone(bwt, sent, c, i, n + 1);
    lemma_below_count_step(bwt, sent, c, n + 1);
    lemma_sym_count_bound(bwt, sent, c + 1, n + 1);
}

/// The LF mapping of fitting components steps one position backwards
/// through the text, the sentinel row wrapping to the final entry.
pub proof fn lemma_lf_maps_parts(
    t: Seq<u8>,
    sa: Seq<int>,
    bwt: Seq<u8>,
    sent: int,
    cnt: Seq<usize>,
    sigma: int,
    k: int,
)
    requires
        bwt_parts_ok(t, sa, bwt, sent, cnt, sigma),
        0 <= k <= t.len(),
    ensures
        0 <= lf_parts(cnt, bwt, sent, k) <= t.len(),
        sa[lf_parts(cnt, bwt, sent, k)] == (if sa[k] == 0 {
            t.len() as int
        } else {
            sa[k] - 1
        }),
{
    let n = t.len() as int;
    if k == sent {
        assert(sa.contains(n));
        let q = choose|i: int| 0 <= i < sa.len() && sa[i] == n;
        if q != 0 {
            assert(seq_lt(suffix(t, sa[0]), suffix(t, sa[q])));
            assert(suffix(t, n).len() == 0);
            assert(false);
        }
    } else {
        if sa[k] == 0 {
            lemma_sa_injective(sa, t, k, sent);
        }
        let c = bwt[k] as int;
        let v = sa[k] - 1;
        assert(bwt[k] == t[v]);
        assert(0 <= v < n);
        lemma_key_count_split(bwt, sent, c, k, n + 1);
        lemma_key_count_is_len(bwt, sent, c, k, n + 1);
        let ks = key_set(bwt, sent, c, k, n + 1);
        let g = |j: int| sa[j] - 1;
        let wm = Set::new(|w: int| 0 <= w < n && seq_lt(suffix(t, w), suffix(t, v)));

        assert forall|j: int| #[trigger] ks.contains(j) implies 0 <= g(j) < n && wm.contains(
            g(j),
        ) by {
            if sa[j] == 0 {
                lemma_sa_injective(sa, t, j, sent);
            }
            let w = sa[j] - 1;
            assert(bwt[j] == t[w]);
            lemma_suffix_lt_unfold(t, w, v);
            if j < k {
                assert(seq_lt(suffix(t, sa[j]), suffix(t, sa[k])));
            } else if j == k {
                lemma_seq_lt_irreflexive(suffix(t, sa[k]));
            } else {
                assert(seq_lt(suffix(t, sa[k]), suffix(t, sa[j])));
                lemma_seq_lt_asymmetric(suffix(t, sa[j]), suffix(t, sa[k]));
            }
            assert(seq_lt(suffix(t, w), suffix(t, v)));
        }
        assert forall|j1: int, j2: int|
            ks.contains(j1) && ks.contains(j2) && #[trigger] g(j1) == #[trigger] g(j2) implies j1
            == j2 by {
            if j1 != j2 {
                lemma_sa_injective(sa, t, j1, j2);
            }
        }
        assert forall|w: int| #[trigger] wm.contains(w) implies ks.map(g).contains(w) by {
            assert(sa.contains(w + 1));
            let j = choose|i: int| 0 <= i < sa.len() && sa[i] == w + 1;
            assert(j != sent);
            assert(bwt[j] == t[w]);
            lemma_suffix_lt_unfold(t, w, v);
            if bwt[j] == c {
                if j == k {
                    lemma_seq_lt_irreflexive(suffix(t, w));
                } else if j > k {
                    assert(seq_lt(suffix(t, sa[k]), suffix(t, sa[j])));
                    lemma_seq_lt_asymmetric(suffix(t, sa[j]), suffix(t, sa[k]));
                    assert(false);
                }
            }
            assert(ks.contains(j) && w == g(j));
        }
        assert forall|w: int| #[trigger] ks.map(g).contains(w) implies wm.contains(w) by {
            let j = choose|j: int| ks.contains(j) && w == g(j);
        }
        assert(ks.map(g) =~= wm);
        vstd::set_lib::lemma_map_size(ks, wm, g);

        let wfull = smaller_suffixes(t, v);
        lemma_empty_suffix_least(t, v);
        assert forall|w: int| #[trigger] wfull.contains(w) && w != n implies wm.contains(w) by {
        }
        assert(wfull =~= wm.insert(n));
        assert(!wm.contains(n));
        assert(wfull.len() == wm.len() + 1);

        assert(sa.contains(v));
        let p = choose|i: int| 0 <= i < sa.len() && sa[i] == v;
        lemma_row_is_rank(sa, t, p);
        assert(smaller_suffixes(t, sa[p]) == wfull);
        assert(p == wfull.len());
        assert(lf_parts(cnt, bwt, sent, k) == 1 + key_count(bwt, sent, c, k, n + 1)) by {
            assert(cnt[c] as int == 1 + below_count(bwt, sent, c, n + 1));
        }
        assert(lf_parts(cnt, bwt, sent, k) == p);
        assert(sa[lf_parts(cnt, bwt, sent, k)] == v);
    }
}

/// Number of rows `j < i`, the sentinel excluded, whose key
/// `(bwt[j], j)` sorts lexicographically below `(c, k)`.
pub open spec fn key_count(bwt: Seq<u8>, sent: int, c: int, k: int, i: int) -> int
    decreases i,
{
    if i <= 0 {
        0
    } else {
        key_count(bwt, sent, c, k, i - 1) + (if i - 1 != sent && (bwt[i - 1] < c || (bwt[i - 1]
            == c && i - 1 < k)) {
            1int
        } else {
            0int
        })
    }
}

/// The rows keyed below `(c, k)`, as a set.
pub open spec fn key_set(bwt: Seq<u8>, sent: int, c: int, k: int, i: int) -> Set<int> {
    Set::new(
        |j: int|
            0 <= j < i && j != sent && (bwt[j] < c || (bwt[j] == c && j < k)),
    )
}

/// Counting keys below `(c, k)` splits into the symbols below `c` plus
/// the occurrences of `c` above row `k`.
proof fn lemma_key_count_split(bwt: Seq<u8>, sent: int, c: int, k: int, i: int)
    requires
        0 <= k,
    ensures
        i <= k ==> key_count(bwt, sent, c, k, i) == below_count(bwt, sent, c, i) + sym_count(
            bwt,
            sent,
            c,
            i,
        ),
        i >= k ==> key_count(bwt, sent, c, k, i) == below_count(bwt, sent, c, i) + sym_count(
            bwt,
            sent,
            c,
            k,
        ),
    decreases i,
{
    if i > 0 {
        lemma_key_count_split(bwt, sent, c, k, i - 1);
    }
}

proof fn lemma_key_count_is_len(bwt: Seq<u8>, sent: int, c: int, k: int, i: int)
    requires
        0 <= i,
    ensures
        key_set(bwt, sent, c, k, i).finite(),
        key_set(bwt, sent, c, k, i).len() == key_count(bwt, sent, c, k, i),
    decreases i,
{
    if i == 0 {
        assert(key_set(bwt, sent, c, k, 0) =~= Set::empty());
    } else {
        lemma_key_count_is_len(bwt, sent, c, k, i - 1);
        let prev = key_set(bwt, sent, c, k, i - 1);
        if i - 1 != sent && (bwt[i - 1] < c || (bwt[i - 1] == c && i - 1 < k)) {
            assert(key_set(bwt, sent, c, k, i) =~= prev.insert(i - 1));
            assert(!prev.contains(i - 1));
        } else {
            assert(key_set(bwt, sent, c, k, i) =~= prev);
        }
    }
}

/// The text positions whose suffix sorts strictly below the suffix at
/// `v`.
pub open spec fn smaller_suffixes(t: Seq<u8>, v: int) -> Set<int> {
    Set::new(|w: int| 0 <= w <= t.len() && seq_lt(suffix(t, w), suffix(t, v)))
}

/// In a suffix array, a row number equals the number of suffixes that
/// sort strictly below the suffix stored at that row.
pub proof fn lemma_row_is_rank(sa: Seq<int>, t: Seq<u8>, p: int)
    requires
        is_suffix_array(sa, t),
        0 <= p < sa.len(),
    ensures
        smaller_suffixes(t, sa[p]).finite(),
        smaller_suffixes(t, sa[p]).len() == p,
{
    let f = |q: int| sa[q];
    let r = vstd::set_lib::set_int_range(0, p);
    vstd::set_lib::lemma_int_range(0, p);
    let w = smaller_suffixes(t, sa[p]);
    assert forall|q1: int, q2: int|
        r.contains(q1) && r.contains(q2) && #[trigger] f(q1) == #[trigger] f(q2) implies q1
        == q2 by {
        if q1 != q2 {
            lemma_sa_injective(sa, t, q1, q2);
        }
    }
    assert forall|b: int| #[trigger] w.contains(b) implies r.map(f).contains(b) by {
        assert(sa.contains(b));
        let q = choose|q: int| 0 <= q < sa.len() && sa[q] == b;
        if q == p {
            lemma_seq_lt_irreflexive(suffix(t, sa[p]));
        }
        if q > p {
            lemma_seq_lt_asymmetric(suffix(t, sa[q]), suffix(t, sa[p]));
        }
        assert(r.contains(q) && b == f(q));
    }
    assert forall|b: int| #[trigger] r.map(f).contains(b) implies w.contains(b) by {
        let q = choose|q: int| r.contains(q) && b == f(q);
        assert(seq_lt(suffix(t, sa[q]), suffix(t, sa[p])));
    }
    assert(r.map(f) =~= w);
    vstd::set_lib::lemma_map_size(r, w, f);
}

/// A text has exactly one suffix array: both enumerate the suffixes in
/// the same strict order, so row by row they agree.
pub proof fn lemma_sa_unique(sa1: Seq<int>, sa2: Seq<int>, t: Seq<u8>)
    requires
        is_suffix_array(sa1, t),
        is_suffix_array(sa2, t),
    ensures
        sa1 == sa2,
{
    assert forall|p: int| 0 <= p < sa1.len() implies #[trigger] sa1[p] == sa2[p] by {
        let v = sa1[p];
        assert(sa2.contains(v));
        let q = choose|q: int| 0 <= q < sa2.len() && sa2[q] == v;
        lemma_row_is_rank(sa1, t, p);
        lemma_row_is_rank(sa2, t, q);
        assert(q == p);
    }
    assert(sa1 =~= sa2);
}

/// A frontier node labelled by the path of left extensions that led to
/// it.
pub open spec fn node_on_path<A: Alphabet>(idx: FMIndex<A>, node: Position, w: Seq<u8>) -> bool {
    &&& w.len() == node.depth
    &&& w.len() >= 1
    &&& (forall|x: int| 0 <= x < w.len() ==> (#[trigger] w[x]) < A::sigma())
    &&& node.index == w[w.len() - 1]
    &&& node.range.start as int == idx.path_range(w, w.len() as int).0
    &&& node.range.end as int == idx.path_range(w, w.len() as int).1
    &&& node.range.start < node.range.end
}

/// An accepted node of the approximate search: its path reaches the
/// final pattern column within the edit budget.
pub open spec fn node_accepted<A: Alphabet>(
    idx: FMIndex<A>,
    pat: Seq<u8>,
    k: int,
    node: Position,
    w: Seq<u8>,
) -> bool {
    &&& node_on_path(idx, node, w)
    &&& pat.len() - k <= w.len() <= pat.len() + k
    &&& crate::matrix::dp_cell(pat, k, w, w.len() as int, pat.len() as int) <= k
}

/// A node some path of which is accepted by the approximate search.
pub open spec fn accepted_node<A: Alphabet>(
    idx: FMIndex<A>,
    pat: Seq<u8>,
    k: int,
    node: Position,
) -> bool {
    exists|w: Seq<u8>| node_accepted(idx, pat, k, node, w)
}

/// A path the approximate search must report: within the depth window
/// where a full-pattern alignment can end, with surviving rows, and
/// within the edit budget at the final column.
pub open spec fn target_path<A: Alphabet>(idx: FMIndex<A>, pat: Seq<u8>, k: int, w: Seq<u8>) -> bool {
    &&& 1 <= w.len()
    &&& (forall|x: int| 0 <= x < w.len() ==> (#[trigger] w[x]) < A::sigma())
    &&& pat.len() - k <= w.len() <= pat.len() + k
    &&& idx.path_range(w, w.len() as int).0 < idx.path_range(w, w.len() as int).1
    &&& crate::matrix::dp_cell(pat, k, w, w.len() as int, pat.len() as int) <= k
}

/// One sequence begins with the other.
pub open spec fn is_path_prefix(a: Seq<u8>, b: Seq<u8>) -> bool {
    a.len() <= b.len() && (forall|q: int| 0 <= q < a.len() ==> (#[trigger] a[q]) == b[q])
}

/// The paths labelling the children a frontier extension pushes, in
/// symbol order.
pub open spec fn child_paths<A: Alphabet>(
    idx: FMIndex<A>,
    w: Seq<u8>,
    s: int,
    e: int,
    cmax: int,
) -> Seq<Seq<u8>>
    decreases cmax,
{
    if cmax <= 0 {
        Seq::empty()
    } else {
        let prev = child_paths(idx, w, s, e, cmax - 1);
        let c = cmax - 1;
        let cs = idx.counts_at(c) + idx.occ_spec(c, s);
        let ce = idx.counts_at(c) + idx.occ_spec(c, e);
        if cs < ce {
            prev.push(w.push(c as u8))
        } else {
            prev
        }
    }
}

/// The pushed children line up with their paths: each is its parent's
/// path extended by one symbol, and every surviving extension appears.
proof fn lemma_child_positions_on_paths<A: Alphabet>(
    idx: FMIndex<A>,
    w: Seq<u8>,
    s: int,
    e: int,
    cmax: int,
)
    requires
        0 <= cmax <= A::sigma(),
        w.len() < usize::MAX,
        idx.n() + 1 < usize::MAX,
        forall|x: int| 0 <= x < w.len() ==> (#[trigger] w[x]) < A::sigma(),
        s == idx.path_range(w, w.len() as int).0,
        e == idx.path_range(w, w.len() as int).1,
        0 <= s,
        e <= idx.n() + 1,
        forall|c: int|
            0 <= c < A::sigma() ==> 0 <= idx.counts_at(c) + #[trigger] idx.occ_spec(c, s)
                && idx.counts_at(c) + idx.occ_spec(c, e) <= idx.n() + 1,
        forall|c: int|
            0 <= c < A::sigma() ==> idx.occ_spec(c, s) <= #[trigger] idx.occ_spec(c, e),
    ensures
        child_paths(idx, w, s, e, cmax).len() == child_positions(
            idx,
            s,
            e,
            w.len() as int,
            cmax,
        ).len(),
        forall|q: int|
            0 <= q < child_paths(idx, w, s, e, cmax).len() ==> node_on_path(
                idx,
                child_positions(idx, s, e, w.len() as int, cmax)[q],
                #[trigger] child_paths(idx, w, s, e, cmax)[q],
            ) && child_paths(idx, w, s, e, cmax)[q].len() == w.len() + 1 && is_path_prefix(
                w,
                child_paths(idx, w, s, e, cmax)[q],
            ),
        forall|c: int|
            0 <= c < cmax && idx.counts_at(c) + idx.occ_spec(c, s) < idx.counts_at(c)
                + idx.occ_spec(c, e) ==> exists|q: int|
                0 <= q < child_paths(idx, w, s, e, cmax).len() && #[trigger] child_paths(
                    idx,
                    w,
                    s,
                    e,
                    cmax,
                )[q] == w.push(c as u8),
    decreases cmax,
{
    if cmax > 0 {
        A::alphabet_facts();
        lemma_child_positions_on_paths(idx, w, s, e, cmax - 1);
        let c = cmax - 1;
        let cs = idx.counts_at(c) + idx.occ_spec(c, s);
        let ce = idx.counts_at(c) + idx.occ_spec(c, e);
        let prev_paths = child_paths(idx, w, s, e, cmax - 1);
        let prev_nodes = child_positions(idx, s, e, w.len() as int, cmax - 1);
        let cur_paths = child_paths(idx, w, s, e, cmax);
        let cur_nodes = child_positions(idx, s, e, w.len() as int, cmax);
        if cs < ce {
            let wc = w.push(c as u8);
            assert(wc[wc.len() - 1] == c as u8);
            idx.lemma_path_range_prefix(w, wc, w.len() as int);
            assert(idx.path_range(wc, wc.len() as int).0 == cs && idx.path_range(
                wc,
                wc.len() as int,
            ).1 == ce);
            assert(cur_paths == prev_paths.push(wc));
            assert(node_on_path(idx, cur_nodes[cur_nodes.len() - 1], wc));
            assert forall|q: int| 0 <= q < cur_paths.len() implies node_on_path(
                idx,
                cur_nodes[q],
                #[trigger] cur_paths[q],
            ) && cur_paths[q].len() == w.len() + 1 && is_path_prefix(w, cur_paths[q]) by {
                if q < prev_paths.len() {
                    assert(cur_paths[q] == prev_paths[q] && cur_nodes[q] == prev_nodes[q]);
                }
            }
            assert forall|c2: int|
                0 <= c2 < cmax && idx.counts_at(c2) + idx.occ_spec(c2, s) < idx.counts_at(c2)
                    + idx.occ_spec(c2, e) implies exists|q: int|
                0 <= q < cur_paths.len() && #[trigger] cur_paths[q] == w.push(c2 as u8) by {
                if c2 == c {
                    assert(cur_paths[cur_paths.len() - 1] == w.push(c2 as u8));
                } else {
                    let q0 = choose|q: int|
                        0 <= q < prev_paths.len() && #[trigger] prev_paths[q] == w.push(c2 as u8);
                    assert(cur_paths[q0] == w.push(c2 as u8));
                }
            }
        } else {
            assert(cur_paths == prev_paths && cur_nodes == prev_nodes);
            assert forall|c2: int|
                0 <= c2 < cmax && idx.counts_at(c2) + idx.occ_spec(c2, s) < idx.counts_at(c2)
                    + idx.occ_spec(c2, e) implies exists|q: int|
                0 <= q < cur_paths.len() && #[trigger] cur_paths[q] == w.push(c2 as u8) by {
                let q0 = choose|q: int|
                    0 <= q < prev_paths.len() && #[trigger] prev_paths[q] == w.push(c2 as u8);
                assert(cur_paths[q0] == w.push(c2 as u8));
            }
        }
    }
}

/// The backward-search fold over fitting components holds exactly the
/// rows whose suffix starts with the consumed symbols.
pub proof fn lemma_bs_range_rows(
    t: Seq<u8>,
    sa: Seq<int>,
    bwt: Seq<u8>,
    sent: int,
    cnt: Seq<usize>,
    sigma: int,
    p: Seq<u8>,
    m: int,
)
    requires
        bwt_parts_ok(t, sa, bwt, sent, cnt, sigma),
        0 <= m <= p.len(),
        forall|q: int| 0 <= q < p.len() ==> (#[trigger] p[q] as int) < sigma,
    ensures
        0 <= bs_range(cnt, bwt, sent, t.len() as int, p, m).0,
        bs_range(cnt, bwt, sent, t.len() as int, p, m).0 <= bs_range(
            cnt,
            bwt,
            sent,
            t.len() as int,
            p,
            m,
        ).1,
        bs_range(cnt, bwt, sent, t.len() as int, p, m).1 <= t.len() + 1,
        forall|q: int|
            0 <= q <= t.len() ==> ((bs_range(cnt, bwt, sent, t.len() as int, p, m).0 <= q
                < bs_range(cnt, bwt, sent, t.len() as int, p, m).1) == occurs_at(
                t,
                #[trigger] p.skip(p.len() - m),
                sa[q],
            )),
    decreases m,
{
    let n = t.len() as int;
    if m == 0 {
        assert forall|q: int| 0 <= q <= n implies (0 <= q < n + 1) == occurs_at(
            t,
            #[trigger] p.skip(p.len() - 0),
            sa[q],
        ) by {
            assert(p.skip(p.len() as int) =~= Seq::empty());
            assert(t.subrange(sa[q], sa[q] + 0) =~= Seq::<u8>::empty());
        }
    } else {
        lemma_bs_range_rows(t, sa, bwt, sent, cnt, sigma, p, m - 1);
        let prev = bs_range(cnt, bwt, sent, n, p, m - 1);
        let s = prev.0;
        let e = prev.1;
        let c = p[p.len() - m] as int;
        let w_prev = p.skip(p.len() - (m - 1));
        let w_cur = p.skip(p.len() - m);
        assert(w_cur[0] == c && w_cur.skip(1) =~= w_prev);
        lemma_parts_counts_occ_bound(t, sa, bwt, sent, cnt, sigma, c, s);
        lemma_parts_counts_occ_bound(t, sa, bwt, sent, cnt, sigma, c, e);
        lemma_sym_count_monotone(bwt, sent, c, s, e);
        let s2 = cnt[c] as int + sym_count(bwt, sent, c, s);
        let e2 = cnt[c] as int + sym_count(bwt, sent, c, e);
        assert forall|q: int| 0 <= q <= n implies ((s2 <= q < e2) == occurs_at(
            t,
            #[trigger] p.skip(p.len() - m),
            sa[q],
        )) by {
            if s2 <= q < e2 {
                let mval = q - cnt[c] as int;
                lemma_occ_hits(bwt, sent, c, s, e, mval);
                let j = choose|j: int|
                    s <= j < e && j != sent && bwt[j] == c && #[trigger] sym_count(
                        bwt,
                        sent,
                        c,
                        j,
                    ) == mval;
                if sa[j] == 0 {
                    lemma_sa_injective(sa, t, j, sent);
                }
                assert(lf_parts(cnt, bwt, sent, j) == q);
                lemma_lf_maps_parts(t, sa, bwt, sent, cnt, sigma, j);
                assert(sa[q] == sa[j] - 1);
                assert(t[sa[q]] == bwt[j]);
                assert(occurs_at(t, w_prev, sa[j]));
                lemma_occurs_unfold(t, w_cur, sa[q]);
            } else {
                if occurs_at(t, w_cur, sa[q]) {
                    assert(sa[q] + w_cur.len() <= n && w_cur.len() >= 1);
                    lemma_occurs_unfold(t, w_cur, sa[q]);
                    assert(t[sa[q]] == c && occurs_at(t, w_prev, sa[q] + 1));
                    assert(sa.contains(sa[q] + 1));
                    let j = choose|i: int| 0 <= i < sa.len() && sa[i] == sa[q] + 1;
                    assert(j != sent);
                    assert(bwt[j] == t[sa[j] - 1]);
                    assert(s <= j < e);
                    lemma_lf_maps_parts(t, sa, bwt, sent, cnt, sigma, j);
                    assert(sa[lf_parts(cnt, bwt, sent, j)] == sa[q]);
                    if lf_parts(cnt, bwt, sent, j) != q {
                        lemma_sa_injective(sa, t, lf_parts(cnt, bwt, sent, j), q);
                    }
                    assert(q == cnt[c] as int + sym_count(bwt, sent, c, j));
                    lemma_sym_count_monotone(bwt, sent, c, s, j);
                    assert(sym_count(bwt, sent, c, j + 1) == sym_count(bwt, sent, c, j) + 1);
                    lemma_sym_count_monotone(bwt, sent, c, j + 1, e);
                    assert(false);
                }
            }
        }
    }
}

/// The set of text positions at which a word occurs.
pub open spec fn occ_positions(t: Seq<u8>, w: Seq<u8>) -> Set<int> {
    Set::new(|v: int| occurs_at(t, w, v))
}

/// The width of the backward-search interval is the number of text
/// positions at which the consumed word occurs.
pub proof fn lemma_bs_range_width_counts(
    t: Seq<u8>,
    sa: Seq<int>,
    bwt: Seq<u8>,
    sent: int,
    cnt: Seq<usize>,
    sigma: int,
    p: Seq<u8>,
    m: int,
)
    requires
        bwt_parts_ok(t, sa, bwt, sent, cnt, sigma),
        0 <= m <= p.len(),
        forall|q: int| 0 <= q < p.len() ==> (#[trigger] p[q] as int) < sigma,
    ensures
        occ_positions(t, p.skip(p.len() - m)).finite(),
        bs_range(cnt, bwt, sent, t.len() as int, p, m).1 - bs_range(
            cnt,
            bwt,
            sent,
            t.len() as int,
            p,
            m,
        ).0 == occ_positions(t, p.skip(p.len() - m)).len(),
{
    let n = t.len() as int;
    lemma_bs_range_rows(t, sa, bwt, sent, cnt, sigma, p, m);
    let iv = bs_range(cnt, bwt, sent, n, p, m);
    let w = p.skip(p.len() - m);
    let r = vstd::set_lib::set_int_range(iv.0, iv.1);
    vstd::set_lib::lemma_int_range(iv.0, iv.1);
    let f = |q: int| sa[q];
    let o = occ_positions(t, w);
    assert forall|q1: int, q2: int|
        r.contains(q1) && r.contains(q2) && #[trigger] f(q1) == #[trigger] f(q2) implies q1
        == q2 by {
        if q1 != q2 {
            lemma_sa_injective(sa, t, q1, q2);
        }
    }
    assert forall|v: int| #[trigger] o.contains(v) implies r.map(f).contains(v) by {
        assert(0 <= v <= n);
        assert(sa.contains(v));
        let q = choose|q: int| 0 <= q < sa.len() && sa[q] == v;
        assert(iv.0 <= q < iv.1);
        assert(r.contains(q) && v == f(q));
    }
    assert forall|v: int| #[trigger] r.map(f).contains(v) implies o.contains(v) by {
        let q = choose|q: int| r.contains(q) && v == f(q);
    }
    assert(r.map(f) =~= o);
    vstd::set_lib::lemma_map_size(r, o, f);
}

/// A word occurs in the reversed text exactly as often as its reverse
/// occurs in the text.
pub proof fn lemma_occ_positions_reverse(t: Seq<u8>, w: Seq<u8>)
    requires
        occ_positions(t, w).finite(),
    ensures
        occ_positions(t.reverse(), w.reverse()).finite(),
        occ_positions(t.reverse(), w.reverse()).len() == occ_positions(t, w).len(),
{
    let n = t.len() as int;
    let wl = w.len() as int;
    let o = occ_positions(t, w);
    let orev = occ_positions(t.reverse(), w.reverse());
    let g = |v: int| n - wl - v;
    assert forall|v: int, v2: int|
        o.contains(v) && o.contains(v2) && #[trigger] g(v) == #[trigger] g(v2) implies v == v2 by {
    }
    assert forall|v: int| #[trigger] o.contains(v) implies orev.contains(g(v)) by {
        let v2 = n - wl - v;
        assert(t.reverse().subrange(v2, v2 + wl) =~= w.reverse()) by {
            assert forall|i: int| 0 <= i < wl implies t.reverse().subrange(v2, v2 + wl)[i]
                == #[trigger] w.reverse()[i] by {
                assert(t.reverse()[v2 + i] == t[n - 1 - v2 - i]);
                assert(t[v + (wl - 1 - i)] == t.subrange(v, v + wl)[wl - 1 - i]);
            }
        }
    }
    assert forall|v2: int| #[trigger] orev.contains(v2) implies o.map(g).contains(v2) by {
        let v = n - wl - v2;
        assert(t.subrange(v, v + wl) =~= w) by {
            assert forall|i: int| 0 <= i < wl implies t.subrange(v, v + wl)[i] == #[trigger] w[
                i] by {
                assert(t[v + i] == t.reverse()[n - 1 - v - i]);
                assert(t.reverse()[v2 + (wl - 1 - i)] == t.reverse().subrange(v2, v2 + wl)[wl - 1
                    - i]);
                assert(w.reverse()[wl - 1 - i] == w[i]);
            }
        }
        assert(o.contains(v) && v2 == g(v));
    }
    assert forall|v2: int| #[trigger] o.map(g).contains(v2) implies orev.contains(v2) by {
        let v = choose|v: int| o.contains(v) && v2 == g(v);
    }
    assert(o.map(g) =~= orev);
    vstd::set_lib::lemma_map_size(o, orev, g);
}

/// Two BWTs with the same per-symbol content have the same
/// below-`c` counts.
pub proof fn lemma_below_counts_from_syms(
    b1: Seq<u8>,
    s1: int,
    b2: Seq<u8>,
    s2: int,
    len: int,
    c: int,
)
    requires
        0 <= c,
        forall|c2: int|
            0 <= c2 < c ==> #[trigger] sym_count(b1, s1, c2, len) == sym_count(b2, s2, c2, len),
    ensures
        below_count(b1, s1, c, len) == below_count(b2, s2, c, len),
    decreases c,
{
    if c == 0 {
        lemma_below_count_zero(b1, s1, len);
        lemma_below_count_zero(b2, s2, len);
    } else {
        lemma_below_counts_from_syms(b1, s1, b2, s2, len, c - 1);
        lemma_below_count_step(b1, s1, c - 1, len);
        lemma_below_count_step(b2, s2, c - 1, len);
    }
}

/// An emptied backward-search fold stays empty however many more
/// symbols are consumed.
pub proof fn lemma_bs_range_dead(
    cnt: Seq<usize>,
    bwt: Seq<u8>,
    sent: int,
    n: int,
    p: Seq<u8>,
    m1: int,
    m2: int,
)
    requires
        0 <= m1 <= m2,
        bs_range(cnt, bwt, sent, n, p, m1).0 >= bs_range(cnt, bwt, sent, n, p, m1).1,
    ensures
        bs_range(cnt, bwt, sent, n, p, m2).0 >= bs_range(cnt, bwt, sent, n, p, m2).1,
    decreases m2,
{
    if m2 > m1 {
        lemma_bs_range_dead(cnt, bwt, sent, n, p, m1, m2 - 1);
        let prev = bs_range(cnt, bwt, sent, n, p, m2 - 1);
        lemma_sym_count_monotone(bwt, sent, p[p.len() - m2] as int, prev.1, prev.0);
    }
}

/// Appending one symbol to a word: it occurs at `v` exactly when the
/// word does and the next text symbol is that symbol.
pub proof fn lemma_occurs_push(t: Seq<u8>, u: Seq<u8>, c: u8, v: int)
    ensures
        occurs_at(t, u.push(c), v) == (occurs_at(t, u, v) && v + u.len() < t.len() && t[v
            + u.len()] == c),
{
    if occurs_at(t, u.push(c), v) {
        assert(t.subrange(v, v + u.len()) =~= u) by {
            assert(forall|i: int|
                0 <= i < u.len() ==> t.subrange(v, v + u.len() + 1)[i] == #[trigger] t[v + i]);
        }
        assert(t[v + u.len()] == t.subrange(v, v + u.len() + 1)[u.len() as int]);
    } else {
        if occurs_at(t, u, v) && v + u.len() < t.len() && t[v + u.len()] == c {
            assert(t.subrange(v, v + u.len() + 1) =~= u.push(c)) by {
                assert(forall|i: int|
                    0 <= i < u.len() ==> t.subrange(v, v + u.len())[i] == #[trigger] t[v + i]);
            }
            assert(false);
        }
    }
}

/// A word occurs wherever an extension of it occurs.
pub proof fn lemma_occurs_prefix(t: Seq<u8>, u: Seq<u8>, c: u8, v: int)
    requires
        occurs_at(t, u.push(c), v),
    ensures
        occurs_at(t, u, v),
{
    lemma_occurs_push(t, u, c, v);
}

/// A word occurs in the text at `v` exactly when its reverse occurs
/// in the reversed text at the mirrored position.
pub proof fn lemma_occurs_reverse(t: Seq<u8>, w: Seq<u8>, v: int)
    requires
        0 <= v,
        v + w.len() <= t.len(),
    ensures
        occurs_at(t, w, v) == occurs_at(t.reverse(), w.reverse(), t.len() - w.len() - v),
{
    let n = t.len() as int;
    let wl = w.len() as int;
    let v2 = n - wl - v;
    if occurs_at(t, w, v) {
        assert(t.reverse().subrange(v2, v2 + wl) =~= w.reverse()) by {
            assert forall|i: int| 0 <= i < wl implies t.reverse().subrange(v2, v2 + wl)[i]
                == #[trigger] w.reverse()[i] by {
                assert(t.reverse()[v2 + i] == t[n - 1 - v2 - i]);
                assert(t[v + (wl - 1 - i)] == t.subrange(v, v + wl)[wl - 1 - i]);
            }
        }
    } else {
        if occurs_at(t.reverse(), w.reverse(), v2) {
            assert(t.subrange(v, v + wl) =~= w) by {
                assert forall|i: int| 0 <= i < wl implies t.subrange(v, v + wl)[i] == #[trigger] w[
                    i] by {
                    assert(t[v + i] == t.reverse()[n - 1 - v - i]);
                    assert(t.reverse()[v2 + (wl - 1 - i)] == t.reverse().subrange(v2, v2 + wl)[wl
                        - 1 - i]);
                    assert(w.reverse()[wl - 1 - i] == w[i]);
                }
            }
            assert(false);
        }
    }
}

/// Comparing two sequences that share a common prefix compares what
/// follows it.
pub proof fn lemma_seq_lt_common_prefix(u: Seq<u8>, a: Seq<u8>, b: Seq<u8>)
    ensures
        seq_lt(u + a, u + b) == seq_lt(a, b),
    decreases u.len(),
{
    if u.len() == 0 {
        assert(u + a =~= a && u + b =~= b);
    } else {
        assert((u + a)[0] == u[0] && (u + b)[0] == u[0]);
        assert((u + a).skip(1) =~= u.skip(1) + a);
        assert((u + b).skip(1) =~= u.skip(1) + b);
        lemma_seq_lt_common_prefix(u.skip(1), a, b);
    }
}

/// The suffix at an occurrence of `u` is `u` followed by the suffix
/// just past it.
pub proof fn lemma_suffix_decompose(t: Seq<u8>, u: Seq<u8>, v: int)
    requires
        occurs_at(t, u, v),
    ensures
        suffix(t, v) == u + suffix(t, v + u.len()),
{
    assert(suffix(t, v) =~= u + suffix(t, v + u.len())) by {
        assert(forall|i: int|
            0 <= i < u.len() ==> suffix(t, v)[i] == #[trigger] t.subrange(v, v + u.len())[i]);
        assert(forall|i: int|
            u.len() <= i < suffix(t, v).len() ==> suffix(t, v)[i] == #[trigger] suffix(
                t,
                v + u.len(),
            )[i - u.len()]);
    }
}

/// Number of rows `j < i` that sort strictly below symbol `c`, the
/// sentinel slot included once passed.
pub open spec fn cum_parts(bwt: Seq<u8>, sent: int, c: int, i: int) -> int
    decreases i,
{
    if i <= 0 {
        0
    } else {
        cum_parts(bwt, sent, c, i - 1) + (if i - 1 == sent || (bwt[i - 1] as int) < c {
            1int
        } else {
            0int
        })
    }
}

/// The cumulative count splits into the below-count plus the sentinel
/// indicator.
pub proof fn lemma_cum_parts_split(bwt: Seq<u8>, sent: int, c: int, i: int)
    ensures
        cum_parts(bwt, sent, c, i) == below_count(bwt, sent, c, i) + (if 0 <= sent < i {
            1int
        } else {
            0int
        }),
    decreases i,
{
    if i > 0 {
        lemma_cum_parts_split(bwt, sent, c, i - 1);
    }
}

/// The rows of a window that sort below a symbol, as a set.
pub open spec fn below_rows(bwt: Seq<u8>, sent: int, c: int, s: int, e: int) -> Set<int> {
    Set::new(|j: int| s <= j < e && (j == sent || (bwt[j] as int) < c))
}

proof fn lemma_below_rows_len(bwt: Seq<u8>, sent: int, c: int, s: int, e: int)
    requires
        0 <= s <= e,
    ensures
        below_rows(bwt, sent, c, s, e).finite(),
        below_rows(bwt, sent, c, s, e).len() == cum_parts(bwt, sent, c, e) - cum_parts(
            bwt,
            sent,
            c,
            s,
        ),
    decreases e,
{
    if e == s {
        assert(below_rows(bwt, sent, c, s, e) =~= Set::empty());
    } else {
        lemma_below_rows_len(bwt, sent, c, s, e - 1);
        let prev = below_rows(bwt, sent, c, s, e - 1);
        if e - 1 == sent || (bwt[e - 1] as int) < c {
            assert(below_rows(bwt, sent, c, s, e) =~= prev.insert(e - 1));
            assert(!prev.contains(e - 1));
        } else {
            assert(below_rows(bwt, sent, c, s, e) =~= prev);
        }
    }
}

/// The bidirectional synchronization step: prepending a symbol to the
/// matched word shifts the start of the word's occurrence interval in
/// the reversed text by the forward window's cumulative-occurrence
/// difference — the rows of the forward interval whose symbol sorts
/// below the new one.
pub proof fn lemma_sync_step(
    t: Seq<u8>,
    sa: Seq<int>,
    bwt: Seq<u8>,
    sent: int,
    sa2: Seq<int>,
    bwt2: Seq<u8>,
    sent2: int,
    cnt: Seq<usize>,
    sigma: int,
    w: Seq<u8>,
    c: u8,
)
    requires
        bwt_parts_ok(t, sa, bwt, sent, cnt, sigma),
        bwt_parts_ok(t.reverse(), sa2, bwt2, sent2, cnt, sigma),
        forall|q: int| 0 <= q < w.len() ==> (#[trigger] w[q] as int) < sigma,
        (c as int) < sigma,
        exists|v: int| occurs_at(t, seq![c] + w, v),
    ensures
        bs_range(cnt, bwt2, sent2, t.len() as int, (seq![c] + w).reverse(), w.len() as int + 1).0
            == bs_range(cnt, bwt2, sent2, t.len() as int, w.reverse(), w.len() as int).0 + (
        cum_parts(
            bwt,
            sent,
            c as int,
            bs_range(cnt, bwt, sent, t.len() as int, w, w.len() as int).1,
        ) - cum_parts(
            bwt,
            sent,
            c as int,
            bs_range(cnt, bwt, sent, t.len() as int, w, w.len() as int).0,
        )),
{
    let n = t.len() as int;
    let m = w.len() as int;
    let tr = t.reverse();
    let wc = seq![c] + w;
    let wr = w.reverse();
    let wcr = wc.reverse();
    assert(wcr =~= wr.push(c));
    assert(w.skip(0) =~= w);
    assert(wr.skip(0) =~= wr);
    assert(wcr.skip(0) =~= wcr);
    assert forall|q: int| 0 <= q < wr.len() implies (#[trigger] wr[q] as int) < sigma by {
        assert(wr[q] == w[w.len() - 1 - q]);
    }
    assert forall|q: int| 0 <= q < wcr.len() implies (#[trigger] wcr[q] as int) < sigma by {
        if q < m {
            assert(wcr[q] == wr[q]);
        } else {
            assert(wcr[q] == c);
        }
    }
    lemma_bs_range_rows(t, sa, bwt, sent, cnt, sigma, w, m);
    lemma_bs_range_rows(tr, sa2, bwt2, sent2, cnt, sigma, wr, m);
    lemma_bs_range_rows(tr, sa2, bwt2, sent2, cnt, sigma, wcr, m + 1);
    let ifw = bs_range(cnt, bwt, sent, n, w, m);
    let irw = bs_range(cnt, bwt2, sent2, n, wr, m);
    let irc = bs_range(cnt, bwt2, sent2, n, wcr, m + 1);

    let v0 = choose|v: int| occurs_at(t, wc, v);
    lemma_occurs_reverse(t, wc, v0);
    assert(sa2.contains(n - (m + 1) - v0));
    let q00 = choose|i: int| 0 <= i < sa2.len() && sa2[i] == n - (m + 1) - v0;
    assert(irc.0 <= q00 < irc.1);
    assert(occurs_at(tr, wcr, sa2[irc.0]));
    let u2 = sa2[irc.0];
    lemma_occurs_push(tr, wr, c, u2);
    lemma_occurs_prefix(tr, wr, c, u2);
    assert(irw.0 <= irc.0 < irw.1);
    lemma_suffix_decompose(tr, wr, u2);

    let b = vstd::set_lib::set_int_range(irw.0, irc.0);
    vstd::set_lib::lemma_int_range(irw.0, irc.0);
    let fset = below_rows(bwt, sent, c as int, ifw.0, ifw.1);
    lemma_below_rows_len(bwt, sent, c as int, ifw.0, ifw.1);
    let g = |q2: int| choose|q: int| 0 <= q < sa.len() && sa[q] == n - m - sa2[q2];

    assert forall|q2: int| #[trigger] b.contains(q2) implies fset.contains(g(q2)) by {
        assert(occurs_at(tr, wr, sa2[q2]));
        let v2 = sa2[q2];
        let v = n - m - v2;
        lemma_occurs_reverse(t, w, v);
        assert(occurs_at(t, w, v));
        assert(sa.contains(v));
        let q = g(q2);
        assert(0 <= q < sa.len() && sa[q] == v);
        assert(ifw.0 <= q < ifw.1);
        lemma_occurs_push(tr, wr, c, v2);
        assert(!occurs_at(tr, wcr, v2));
        if v2 + m == n {
            assert(v == 0);
            if q != sent {
                lemma_sa_injective(sa, t, q, sent);
            }
            assert(q == sent);
        } else {
            let c2 = tr[v2 + m];
            assert(c2 != c);
            assert(tr[v2 + m] == t[n - 1 - v2 - m]);
            assert(bwt[q] == t[sa[q] - 1]) by {
                if sa[q] == 0 {
                    lemma_sa_injective(sa, t, q, sent);
                }
                if q == sent {
                    assert(sa[q] == 0);
                }
            }
            assert(bwt[q] == c2);
            if (c2 as int) > (c as int) {
                lemma_suffix_decompose(tr, wr, v2);
                assert(suffix(tr, v2 + m)[0] == c2);
                assert(suffix(tr, u2 + m)[0] == c);
                assert(seq_lt(suffix(tr, u2 + m), suffix(tr, v2 + m)));
                lemma_seq_lt_common_prefix(wr, suffix(tr, u2 + m), suffix(tr, v2 + m));
                assert(seq_lt(suffix(tr, u2), suffix(tr, v2)));
                assert(seq_lt(suffix(tr, sa2[q2]), suffix(tr, sa2[irc.0])));
                lemma_seq_lt_asymmetric(suffix(tr, sa2[q2]), suffix(tr, sa2[irc.0]));
                assert(false);
            }
            assert((c2 as int) < (c as int));
        }
    }
    assert forall|q1: int, q2: int|
        b.contains(q1) && b.contains(q2) && #[trigger] g(q1) == #[trigger] g(q2) implies q1
        == q2 by {
        assert(occurs_at(tr, wr, sa2[q1])) by {
            assert(irw.0 <= q1 < irw.1);
        }
        assert(occurs_at(tr, wr, sa2[q2])) by {
            assert(irw.0 <= q2 < irw.1);
        }
        lemma_occurs_reverse(t, w, n - m - sa2[q1]);
        lemma_occurs_reverse(t, w, n - m - sa2[q2]);
        assert(sa.contains(n - m - sa2[q1]) && sa.contains(n - m - sa2[q2]));
        assert(sa[g(q1)] == n - m - sa2[q1] && sa[g(q2)] == n - m - sa2[q2]);
        if q1 != q2 {
            lemma_sa_injective(sa2, tr, q1, q2);
        }
    }
    assert forall|q: int| #[trigger] fset.contains(q) implies b.map(g).contains(q) by {
        let v = sa[q];
        assert(occurs_at(t, w, v));
        let v2 = n - m - v;
        lemma_occurs_reverse(t, w, v);
        assert(occurs_at(tr, wr, v2));
        assert(sa2.contains(v2));
        let q2 = choose|i: int| 0 <= i < sa2.len() && sa2[i] == v2;
        assert(irw.0 <= q2 < irw.1);
        lemma_suffix_decompose(tr, wr, v2);
        if q == sent {
            assert(v == 0 && v2 + m == n);
            assert(suffix(tr, v2 + m).len() == 0);
            assert(suffix(tr, u2 + m)[0] == c);
            assert(seq_lt(suffix(tr, v2 + m), suffix(tr, u2 + m)));
        } else {
            assert(v >= 1) by {
                if sa[q] == 0 {
                    lemma_sa_injective(sa, t, q, sent);
                }
            }
            assert(bwt[q] == t[sa[q] - 1]);
            assert(v2 + m < n);
            assert(suffix(tr, v2 + m)[0] == tr[v2 + m]);
            assert(tr[v2 + m] == t[n - 1 - v2 - m]);
            assert(tr[v2 + m] == bwt[q]);
            assert(suffix(tr, u2 + m)[0] == c);
            assert(seq_lt(suffix(tr, v2 + m), suffix(tr, u2 + m)));
        }
        lemma_seq_lt_common_prefix(wr, suffix(tr, v2 + m), suffix(tr, u2 + m));
        assert(seq_lt(suffix(tr, v2), suffix(tr, u2)));
        assert(q2 < irc.0) by {
            if q2 == irc.0 {
                lemma_seq_lt_irreflexive(suffix(tr, sa2[q2]));
            } else if q2 > irc.0 {
                assert(seq_lt(suffix(tr, sa2[irc.0]), suffix(tr, sa2[q2])));
                lemma_seq_lt_asymmetric(suffix(tr, sa2[q2]), suffix(tr, sa2[irc.0]));
            }
        }
        assert(b.contains(q2));
        assert(sa[g(q2)] == n - m - sa2[q2]);
        if g(q2) != q {
            lemma_sa_injective(sa, t, g(q2), q);
        }
        assert(q == g(q2));
    }
    assert forall|q: int| #[trigger] b.map(g).contains(q) implies fset.contains(q) by {
        let q2 = choose|q2: int| b.contains(q2) && q == g(q2);
    }
    assert(b.map(g) =~= fset);
    vstd::set_lib::lemma_map_size(b, fset, g);
}

/// The fold depends only on the symbols it consumes: two patterns
/// with the same last `m` symbols fold alike.
pub proof fn lemma_bs_range_suffix_stable(
    cnt: Seq<usize>,
    bwt: Seq<u8>,
    sent: int,
    n: int,
    p1: Seq<u8>,
    p2: Seq<u8>,
    m: int,
)
    requires
        0 <= m <= p1.len(),
        m <= p2.len(),
        forall|k: int| 1 <= k <= m ==> (#[trigger] p1[p1.len() - k]) == p2[p2.len() - k],
    ensures
        bs_range(cnt, bwt, sent, n, p1, m) == bs_range(cnt, bwt, sent, n, p2, m),
    decreases m,
{
    if m > 0 {
        lemma_bs_range_suffix_stable(cnt, bwt, sent, n, p1, p2, m - 1);
        assert(p1[p1.len() - m] == p2[p2.len() - m]);
    }
}

/// A word's occurrence carries occurrences of its prefixes and
/// suffixes at the matching positions.
pub proof fn lemma_occurs_sub(t: Seq<u8>, w: Seq<u8>, v: int, k: int)
    requires
        occurs_at(t, w, v),
        0 <= k <= w.len(),
    ensures
        occurs_at(t, w.take(k), v),
        occurs_at(t, w.skip(k), v + k),
{
    assert(t.subrange(v, v + k) =~= w.take(k)) by {
        assert(forall|i: int|
            0 <= i < k ==> t.subrange(v, v + w.len())[i] == #[trigger] t[v + i]);
    }
    assert(t.subrange(v + k, v + w.len()) =~= w.skip(k)) by {
        assert(forall|i: int|
            0 <= i < w.len() - k ==> t.subrange(v, v + w.len())[k + i] == #[trigger] t[v + k + i]);
    }
}

/// A non-zero occurrence count names an occurrence.
pub proof fn lemma_occ_positions_nonempty(t: Seq<u8>, w: Seq<u8>)
    requires
        occ_positions(t, w).finite(),
        occ_positions(t, w).len() >= 1,
    ensures
        exists|v: int| occurs_at(t, w, v),
{
    if !(exists|v: int| occurs_at(t, w, v)) {
        assert(occ_positions(t, w) =~= Set::empty());
    }
}

/// Shape facts of the reversed prefix words a bidirectional fold
/// consumes.
pub proof fn lemma_take_rev_facts(syms: Seq<u8>, m: int, sigma: int)
    requires
        1 <= m <= syms.len(),
        forall|q: int| 0 <= q < syms.len() ==> (#[trigger] syms[q] as int) < sigma,
    ensures
        syms.take(m).reverse() == seq![syms[m - 1]] + syms.take(m - 1).reverse(),
        syms.take(m).reverse().reverse() == syms.take(m),
        syms.take(m - 1).reverse().reverse() == syms.take(m - 1),
        forall|q: int|
            0 <= q < m ==> (#[trigger] syms.take(m).reverse()[q] as int) < sigma,
        forall|q: int|
            0 <= q < m - 1 ==> (#[trigger] syms.take(m - 1).reverse()[q] as int) < sigma,
        forall|k: int|
            1 <= k <= m ==> (#[trigger] syms.reverse()[syms.len() - k]) == syms.take(
                m,
            ).reverse()[m - k],
        forall|k: int|
            1 <= k <= m - 1 ==> (#[trigger] syms.reverse()[syms.len() - k]) == syms.take(
                m - 1,
            ).reverse()[m - 1 - k],
        syms.take(m).reverse().skip(0) == syms.take(m).reverse(),
        syms.take(m).skip(0) == syms.take(m),
{
    assert(syms.take(m).reverse() =~= seq![syms[m - 1]] + syms.take(m - 1).reverse());
    assert(syms.take(m).reverse().reverse() =~= syms.take(m));
    assert(syms.take(m - 1).reverse().reverse() =~= syms.take(m - 1));
    assert forall|q: int| 0 <= q < m implies (#[trigger] syms.take(m).reverse()[q] as int)
        < sigma by {
        assert(syms.take(m).reverse()[q] == syms.take(m)[m - 1 - q]);
    }
    assert forall|q: int| 0 <= q < m - 1 implies (#[trigger] syms.take(m - 1).reverse()[
        q] as int) < sigma by {
        assert(syms.take(m - 1).reverse()[q] == syms.take(m - 1)[m - 1 - 1 - q]);
    }
    assert forall|k: int| 1 <= k <= m implies (#[trigger] syms.reverse()[syms.len() - k])
        == syms.take(m).reverse()[m - k] by {
        assert(syms.reverse()[syms.len() - k] == syms[k - 1]);
        assert(syms.take(m).reverse()[m - k] == syms.take(m)[k - 1]);
    }
    assert forall|k: int| 1 <= k <= m - 1 implies (#[trigger] syms.reverse()[syms.len() - k])
        == syms.take(m - 1).reverse()[m - 1 - k] by {
        assert(syms.reverse()[syms.len() - k] == syms[k - 1]);
        assert(syms.take(m - 1).reverse()[m - 1 - k] == syms.take(m - 1)[k - 1]);
    }
    assert(syms.take(m).reverse().skip(0) =~= syms.take(m).reverse());
    assert(syms.take(m).skip(0) =~= syms.take(m));
}

/// A suffix array never repeats a row value: equal suffixes would
/// contradict the strict sortedness.
pub proof fn lemma_sa_injective(sa: Seq<int>, t: Seq<u8>, i: int, j: int)
    requires
        is_suffix_array(sa, t),
        0 <= i < sa.len(),
        0 <= j < sa.len(),
        i != j,
    ensures
        sa[i] != sa[j],
{
    if sa[i] == sa[j] {
        if i < j {
            lemma_seq_lt_irreflexive(suffix(t, sa[i]));
        } else {
            lemma_seq_lt_irreflexive(suffix(t, sa[j]));
        }
    }
}

} // verus!
