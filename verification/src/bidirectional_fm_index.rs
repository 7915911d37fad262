use vstd::prelude::*;
use crate::alphabet::{Alphabet, AlphabetPattern, AlphabetString, Direction};
use crate::bitvector::{Bitvec, OccurenceTable};
use crate::errors::Error;
use crate::fm_index::{
    below_count, bs_range, bwt_parts_ok, cum_parts, lemma_below_count_step,
    lemma_below_counts_from_syms, lemma_bs_range_rows, lemma_bs_range_suffix_stable,
    lemma_bs_range_width_counts, lemma_bwt_count_is_text_count, lemma_cum_parts_split,
    lemma_occ_positions_nonempty, lemma_occ_positions_reverse, lemma_occurs_sub, lemma_sa_unique,
    lemma_sym_count_bound, lemma_sync_step, lemma_text_count_reverse, occ_positions, occurs_at,
    sym_count, FMIndex,
};
use crate::range::{Range, RangePair};
use crate::suffix_array::{build_suffix_array, is_suffix_array, SparseSuffixArray};

verus! {

/// An occurrence table whose bitvectors describe the BWT `bwt` counts
/// that BWT's symbols.
proof fn lemma_table_counts(tab: OccurenceTable, bwt: Seq<u8>, c: int, i: int)
    requires
        tab.wf(),
        tab.len_spec() == bwt.len(),
        0 <= c < tab.sigma(),
        0 <= i <= tab.len_spec(),
        forall|c2: int, i2: int|
            0 <= c2 < tab.sigma() && 0 <= i2 < tab.len_spec() ==> #[trigger] tab.table@[c2]@[i2]
                == (i2 != tab.sentinel as int && bwt[i2] <= c2),
    ensures
        tab.occ_count(c, i) == sym_count(bwt, tab.sentinel as int, c, i),
        tab.cum_count(c, i) == below_count(bwt, tab.sentinel as int, c, i) + (if (
        tab.sentinel as int) < i {
            1int
        } else {
            0int
        }),
    decreases i,
{
    if i > 0 {
        lemma_table_counts(tab, bwt, c, i - 1);
        let j = i - 1;
        assert(tab.table@[c]@[j] == (j != tab.sentinel as int && bwt[j] <= c));
        if c > 0 {
            assert(tab.table@[c - 1]@[j] == (j != tab.sentinel as int && bwt[j] <= c - 1));
        }
    }
}

/// Bidirectional FM index: besides the structures of the unidirectional
/// index it holds the occurrence table of the reversed text's BWT, so a
/// matched range pair can be extended by a symbol on either side while
/// both ranges stay synchronized.
pub struct BidirectionalFMIndex<A: Alphabet> {
    /// The original text.
    text: AlphabetString<A>,

    /// Burrows-Wheeler transform of the original text.
    bwt: AlphabetString<A>,

    /// Counts array, shared by both directions: the symbol content of
    /// the text and of its reverse is the same multiset.
    counts: Vec<usize>,

    /// The sparse suffix array of the forward text.
    sparse_sa: SparseSuffixArray,

    /// Forward occurrence table.
    normal_occurence_table: OccurenceTable,

    /// Occurrence table of the reversed text's BWT.
    reversed_occurence_table: OccurenceTable,
}

impl<A: Alphabet> BidirectionalFMIndex<A> {
    /// The indexed text, as symbol indices.
    pub closed spec fn text_view(self) -> Seq<u8> {
        self.text@
    }

    /// Length of the indexed text.
    pub open spec fn n(self) -> int {
        self.text_view().len() as int
    }

    /// Sentinel row of the forward BWT.
    pub closed spec fn sent(self) -> int {
        self.normal_occurence_table.sentinel as int
    }

    /// Sentinel row of the reversed text's BWT.
    pub closed spec fn rev_sent(self) -> int {
        self.reversed_occurence_table.sentinel as int
    }

    /// Entry `c` of the shared counts table.
    pub closed spec fn counts_at(self, c: int) -> int {
        self.counts@[c] as int
    }

    /// `occ(c, i)` over the forward BWT.
    pub closed spec fn occ_fwd(self, c: int, i: int) -> int {
        self.normal_occurence_table.occ_count(c, i)
    }

    /// `cumulative_occ(c, i)` over the forward BWT.
    pub closed spec fn cum_fwd(self, c: int, i: int) -> int {
        self.normal_occurence_table.cum_count(c, i)
    }

    /// `occ(c, i)` over the reversed text's BWT.
    pub closed spec fn occ_rev(self, c: int, i: int) -> int {
        self.reversed_occurence_table.occ_count(c, i)
    }

    /// `cumulative_occ(c, i)` over the reversed text's BWT.
    pub closed spec fn cum_rev(self, c: int, i: int) -> int {
        self.reversed_occurence_table.cum_count(c, i)
    }

    /// All parts agree with the suffix arrays `sa` (of the text) and
    /// `sa_rev` (of the reversed text), the reversed BWT `rev_bwt`, and
    /// the sparsity factor `f`.
    pub closed spec fn models(self, sa: Seq<int>, sa_rev: Seq<int>, rev_bwt: Seq<u8>, f: int) -> bool {
        &&& is_suffix_array(sa, self.text@)
        &&& self.text.wf()
        &&& self.n() >= 1
        &&& self.n() <= 0x7FFF_FFFF
        &&& self.bwt@.len() == self.n() + 1
        &&& self.bwt.wf()
        &&& 0 <= self.sent() <= self.n()
        &&& sa[self.sent()] == 0
        &&& self.bwt@[self.sent()] == 0
        &&& forall|i: int|
            0 <= i <= self.n() && i != self.sent() ==> #[trigger] self.bwt@[i] == self.text@[sa[i]
                - 1]
        &&& self.counts@.len() == A::sigma()
        &&& forall|c: int|
            0 <= c < A::sigma() ==> #[trigger] self.counts@[c] == 1 + below_count(
                self.bwt@,
                self.sent(),
                c,
                self.n() + 1,
            )
        &&& self.normal_occurence_table.wf()
        &&& self.normal_occurence_table.sigma() == A::sigma()
        &&& self.normal_occurence_table.len_spec() == self.n() + 1
        &&& forall|c: int, i: int|
            0 <= c < A::sigma() && 0 <= i <= self.n()
                ==> #[trigger] self.normal_occurence_table.table@[c]@[i] == (i != self.sent()
                && self.bwt@[i] <= c)
        &&& is_suffix_array(sa_rev, self.text@.reverse())
        &&& rev_bwt.len() == self.n() + 1
        &&& 0 <= self.rev_sent() <= self.n()
        &&& sa_rev[self.rev_sent()] == 0
        &&& rev_bwt[self.rev_sent()] == 0
        &&& forall|i: int|
            0 <= i <= self.n() && i != self.rev_sent() ==> #[trigger] rev_bwt[i]
                == self.text@.reverse()[sa_rev[i] - 1]
        &&& self.reversed_occurence_table.wf()
        &&& self.reversed_occurence_table.sigma() == A::sigma()
        &&& self.reversed_occurence_table.len_spec() == self.n() + 1
        &&& forall|c: int, i: int|
            0 <= c < A::sigma() && 0 <= i <= self.n()
                ==> #[trigger] self.reversed_occurence_table.table@[c]@[i] == (i != self.rev_sent()
                && rev_bwt[i] <= c)
        &&& self.sparse_sa.models(sa, f)
    }

    /// The index was built from the suffix arrays of its text and of
    /// the reversed text.
    pub closed spec fn wf(self) -> bool {
        exists|sa: Seq<int>, sa_rev: Seq<int>, rev_bwt: Seq<u8>, f: int|
            self.models(sa, sa_rev, rev_bwt, f)
    }

    /// Construct the Burrows-Wheeler transform of the text from its
    /// suffix array.
    pub fn forward_bwt_from_sa(
        bwt: &mut AlphabetString<A>,
        sa: &Vec<u32>,
        text: &AlphabetString<A>,
    ) -> (sentinel: usize)
        requires
            old(bwt)@.len() == sa@.len(),
            old(bwt).wf(),
            text.wf(),
            forall|i: int| 0 <= i < sa@.len() ==> #[trigger] sa@[i] <= text@.len(),
            exists|i: int| 0 <= i < sa@.len() && #[trigger] sa@[i] == 0,
        ensures
            final(bwt)@.len() == sa@.len(),
            final(bwt).wf(),
            sentinel < sa@.len(),
            sa@[sentinel as int] == 0,
            forall|i: int|
                0 <= i < sa@.len() ==> #[trigger] final(bwt)@[i] == (if sa@[i] == 0 {
                    0u8
                } else {
                    text@[sa@[i] - 1]
                }),
    {
        FMIndex::<A>::bwt_from_sa(bwt, sa, text)
    }

    /// Construct the reversed text's Burrows-Wheeler transform from the
    /// reversed text's suffix array, reading symbols from the forward
    /// text: position `p` of the reversed text is position
    /// `len - 1 - p` of the text.
    pub fn backward_bwt_from_sa(
        bwt: &mut AlphabetString<A>,
        sa: &Vec<u32>,
        text: &AlphabetString<A>,
    ) -> (sentinel: usize)
        requires
            old(bwt)@.len() == sa@.len(),
            old(bwt).wf(),
            text.wf(),
            sa@.len() == text@.len() + 1,
            forall|i: int| 0 <= i < sa@.len() ==> #[trigger] sa@[i] <= text@.len(),
            exists|i: int| 0 <= i < sa@.len() && #[trigger] sa@[i] == 0,
        ensures
            final(bwt)@.len() == sa@.len(),
            final(bwt).wf(),
            sentinel < sa@.len(),
            sa@[sentinel as int] == 0,
            forall|i: int|
                0 <= i < sa@.len() ==> #[trigger] final(bwt)@[i] == (if sa@[i] == 0 {
                    0u8
                } else {
                    text@[text@.len() - sa@[i]]
                }),
    {
        proof {
            A::alphabet_facts();
        }
        let mut sentinel: usize = 0;
        let mut seen: bool = false;
        let mut i: usize = 0;
        while i < sa.len()
            invariant
                i <= sa@.len(),
                bwt@.len() == sa@.len(),
                sa@.len() == text@.len() + 1,
                text.wf(),
                A::sigma() >= 1,
                forall|j: int| 0 <= j < sa@.len() ==> #[trigger] sa@[j] <= text@.len(),
                seen ==> sentinel < i && sa@[sentinel as int] == 0,
                !seen ==> forall|j: int| 0 <= j < i ==> #[trigger] sa@[j] != 0,
                forall|j: int|
                    0 <= j < i ==> #[trigger] bwt@[j] == (if sa@[j] == 0 {
                        0u8
                    } else {
                        text@[text@.len() - sa@[j]]
                    }),
                forall|j: int| 0 <= j < bwt@.len() ==> (#[trigger] bwt@[j]) < A::sigma(),
            decreases sa@.len() - i,
        {
            if sa[i] == 0 {
                bwt.set(i, 0);
                sentinel = i;
                seen = true;
            } else {
                let v = text.get(text.len() - sa[i] as usize);
                bwt.set(i, v);
            }
            i = i + 1;
        }
        proof {
            let w = choose|j: int| 0 <= j < sa@.len() && #[trigger] sa@[j] == 0;
            assert(seen);
        }
        sentinel
    }

    /// Construct the shared counts table from the forward BWT.
    pub fn initialize_counts(counts: &mut Vec<usize>, bwt: &AlphabetString<A>, sentinel: usize)
        requires
            old(counts)@.len() == A::sigma(),
            forall|c: int| 0 <= c < A::sigma() ==> #[trigger] old(counts)@[c] == 0,
            bwt.wf(),
            sentinel < bwt@.len(),
        ensures
            final(counts)@.len() == A::sigma(),
            forall|c: int|
                0 <= c < A::sigma() ==> #[trigger] final(counts)@[c] == 1 + below_count(
                    bwt@,
                    sentinel as int,
                    c,
                    bwt@.len() as int,
                ),
    {
        FMIndex::<A>::initialize_counts(counts, bwt, sentinel)
    }

    /// Build the bidirectional index: the forward structures of the
    /// unidirectional index plus the occurrence table of the reversed
    /// text's BWT.
    pub fn new(text: AlphabetString<A>, sparseness_factor: u32) -> (r: Self)
        requires
            text.wf(),
            1 <= text@.len() < 0x7FFF_FFFF,
            sparseness_factor >= 1,
        ensures
            r.wf(),
            r.text_view() == text@,
            exists|sa: Seq<int>, sa_rev: Seq<int>, rev_bwt: Seq<u8>|
                #[trigger] r.models(sa, sa_rev, rev_bwt, sparseness_factor as int),
    {
        proof {
            A::alphabet_facts();
        }
        let text_length = text.len();

        let forward_sa = build_suffix_array(&text.bytes);
        let ghost sa_model = forward_sa@.map_values(|x: u32| x as int);
        proof {
            assert(sa_model.contains(0));
            let z = choose|i: int| 0 <= i < sa_model.len() && sa_model[i] == 0;
            assert(forward_sa@[z] == 0);
            assert forall|i: int| 0 <= i < forward_sa@.len() implies #[trigger] forward_sa@[i]
                <= text@.len() by {
                assert(sa_model[i] == forward_sa@[i] as int);
            }
        }
        let mut forward_bwt = AlphabetString::<A>::new(text_length + 1);
        let forward_sentinel = Self::forward_bwt_from_sa(&mut forward_bwt, &forward_sa, &text);
        let normal_occurence_table = OccurenceTable::from_bwt(&forward_bwt, forward_sentinel);

        let mut rev_bytes: Vec<u8> = Vec::new();
        let mut q: usize = 0;
        while q < text_length
            invariant
                q <= text_length,
                text_length == text@.len(),
                rev_bytes@.len() == q,
                forall|p: int|
                    0 <= p < q ==> #[trigger] rev_bytes@[p] == text@[text@.len() - 1 - p],
            decreases text_length - q,
        {
            rev_bytes.push(text.get(text_length - 1 - q));
            q = q + 1;
        }
        proof {
            assert(rev_bytes@ =~= text@.reverse());
        }
        let backward_sa = build_suffix_array(&rev_bytes);
        let ghost sa_rev_model = backward_sa@.map_values(|x: u32| x as int);
        proof {
            assert(sa_rev_model.contains(0));
            let z = choose|i: int| 0 <= i < sa_rev_model.len() && sa_rev_model[i] == 0;
            assert(backward_sa@[z] == 0);
            assert forall|i: int| 0 <= i < backward_sa@.len() implies #[trigger] backward_sa@[i]
                <= text@.len() by {
                assert(sa_rev_model[i] == backward_sa@[i] as int);
            }
        }
        let mut backward_bwt = AlphabetString::<A>::new(text_length + 1);
        let backward_sentinel = Self::backward_bwt_from_sa(&mut backward_bwt, &backward_sa, &text);
        let reversed_occurence_table = OccurenceTable::from_bwt(&backward_bwt, backward_sentinel);

        let mut counts: Vec<usize> = Vec::new();
        let alphabet: A = Default::default();
        let sigma = alphabet.len();
        let mut ci: usize = 0;
        while ci < sigma
            invariant
                counts@.len() == ci,
                ci <= sigma,
                forall|c2: int| 0 <= c2 < ci ==> #[trigger] counts@[c2] == 0,
            decreases sigma - ci,
        {
            counts.push(0);
            ci = ci + 1;
        }
        Self::initialize_counts(&mut counts, &forward_bwt, forward_sentinel);

        let sparse_sa = SparseSuffixArray::from_sa(&forward_sa, sparseness_factor);

        let r = BidirectionalFMIndex {
            text,
            bwt: forward_bwt,
            counts,
            sparse_sa,
            normal_occurence_table,
            reversed_occurence_table,
        };
        proof {
            let n = r.text@.len() as int;
            let t = r.text@;
            assert forall|i: int| 0 <= i <= n && i != r.sent() implies #[trigger] r.bwt@[i] == t[
                sa_model[i] - 1] by {
                if sa_model[i] == 0 {
                    crate::fm_index::lemma_sa_injective(sa_model, t, i, r.sent());
                }
            }
            assert forall|i: int| 0 <= i <= n && i != r.rev_sent() implies
                #[trigger] backward_bwt@[i] == t.reverse()[sa_rev_model[i] - 1] by {
                if sa_rev_model[i] == 0 {
                    crate::fm_index::lemma_sa_injective(sa_rev_model, t.reverse(), i, r.rev_sent());
                }
                assert(t.reverse()[sa_rev_model[i] - 1] == t[n - 1 - (sa_rev_model[i] - 1)]);
            }
            assert(r.models(sa_model, sa_rev_model, backward_bwt@, sparseness_factor as int));
        }
        r
    }

    /// A counts entry plus an occurrence count of either table stays
    /// within the row space: both BWTs hold each symbol exactly as
    /// often as the text does.
    proof fn lemma_counts_occ_bounds(
        self,
        sa: Seq<int>,
        sa_rev: Seq<int>,
        rev_bwt: Seq<u8>,
        f: int,
        c: int,
        i: int,
    )
        requires
            self.models(sa, sa_rev, rev_bwt, f),
            0 <= c < A::sigma(),
            0 <= i <= self.n() + 1,
        ensures
            1 <= self.counts_at(c),
            0 <= self.counts_at(c) + self.occ_fwd(c, i) <= self.n() + 1,
            0 <= self.counts_at(c) + self.occ_rev(c, i) <= self.n() + 1,
    {
        let n = self.n();
        let bwt = self.bwt@;
        let sent = self.sent();
        let t = self.text@;
        lemma_table_counts(self.normal_occurence_table, bwt, c, i);
        lemma_table_counts(self.normal_occurence_table, bwt, c, n + 1);
        lemma_table_counts(self.reversed_occurence_table, rev_bwt, c, i);
        lemma_table_counts(self.reversed_occurence_table, rev_bwt, c, n + 1);
        self.normal_occurence_table.lemma_occ_count_monotone(c, i, n + 1);
        self.reversed_occurence_table.lemma_occ_count_monotone(c, i, n + 1);
        self.normal_occurence_table.lemma_occ_count_bounds(c, i);
        self.reversed_occurence_table.lemma_occ_count_bounds(c, i);
        lemma_bwt_count_is_text_count(sa, t, bwt, sent, c);
        lemma_bwt_count_is_text_count(sa_rev, t.reverse(), rev_bwt, self.rev_sent(), c);
        lemma_text_count_reverse(t, c);
        lemma_below_count_step(bwt, sent, c, n + 1);
        lemma_sym_count_bound(bwt, sent, c + 1, n + 1);
        lemma_sym_count_bound(bwt, sent, c, n + 1);
        lemma_sym_count_bound(rev_bwt, self.rev_sent(), c, n + 1);
    }

    /// Extend the matched string by a symbol on the left.  The forward
    /// range is narrowed through the counts and forward occurrence
    /// tables; the reversed range keeps the same width and shifts by
    /// the number of strictly smaller left extensions.
    pub fn add_char_left(
        &self,
        char_i: usize,
        range_pair: &RangePair,
        range_pair_new: &mut RangePair,
    ) -> (b: bool)
        requires
            self.wf(),
            (char_i as int) < A::sigma(),
            range_pair.normal_range.start <= range_pair.normal_range.end,
            range_pair.normal_range.end as int <= self.n() + 1,
            range_pair.reversed_range.start <= range_pair.reversed_range.end,
            range_pair.reversed_range.end as int <= self.n() + 1,
            range_pair.normal_range.end - range_pair.normal_range.start
                == range_pair.reversed_range.end - range_pair.reversed_range.start,
        ensures
            final(range_pair_new).normal_range.start as int == self.counts_at(char_i as int)
                + self.occ_fwd(char_i as int, range_pair.normal_range.start as int),
            final(range_pair_new).normal_range.end as int == self.counts_at(char_i as int)
                + self.occ_fwd(char_i as int, range_pair.normal_range.end as int),
            final(range_pair_new).reversed_range.start as int == range_pair.reversed_range.start
                + (self.cum_fwd(char_i as int, range_pair.normal_range.end as int) - self.cum_fwd(
                char_i as int,
                range_pair.normal_range.start as int,
            )),
            final(range_pair_new).normal_range.start <= final(range_pair_new).normal_range.end,
            final(range_pair_new).normal_range.end as int <= self.n() + 1,
            final(range_pair_new).reversed_range.start <= final(range_pair_new).reversed_range.end,
            final(range_pair_new).reversed_range.end as int <= self.n() + 1,
            final(range_pair_new).normal_range.end - final(range_pair_new).normal_range.start
                == final(range_pair_new).reversed_range.end - final(range_pair_new).reversed_range.start,
            b == !final(range_pair_new).normal_range.is_empty_spec(),
    {
        let ghost (sa, sa_rev, rev_bwt, f) = choose|sa: Seq<int>, sa_rev: Seq<int>, rev_bwt: Seq<
            u8,
        >, f: int| self.models(sa, sa_rev, rev_bwt, f);
        let ns = range_pair.normal_range.start;
        let ne = range_pair.normal_range.end;
        proof {
            self.lemma_counts_occ_bounds(sa, sa_rev, rev_bwt, f, char_i as int, ns as int);
            self.lemma_counts_occ_bounds(sa, sa_rev, rev_bwt, f, char_i as int, ne as int);
            self.normal_occurence_table.lemma_occ_count_monotone(char_i as int, ns as int, ne as int);
            self.normal_occurence_table.lemma_cum_occ_window(char_i as int, ns as int, ne as int);
            self.normal_occurence_table.lemma_occ_count_bounds(char_i as int, ns as int);
            self.normal_occurence_table.lemma_occ_count_bounds(char_i as int, ne as int);
        }
        let occ_start = self.normal_occurence_table.occ(char_i, ns);
        let occ_end = self.normal_occurence_table.occ(char_i, ne);
        let count = self.counts[char_i];
        range_pair_new.normal_range.start = count + occ_start;
        range_pair_new.normal_range.end = count + occ_end;
        let x = self.normal_occurence_table.cumulative_occ(char_i, ne)
            - self.normal_occurence_table.cumulative_occ(char_i, ns);
        let y = range_pair_new.normal_range.width();
        range_pair_new.reversed_range.start = range_pair.reversed_range.start + x;
        range_pair_new.reversed_range.end = range_pair.reversed_range.start + x + y;
        !range_pair_new.empty()
    }

    /// Extend the matched string by a symbol on the right: the mirror
    /// image of `add_char_left`, working through the reversed
    /// occurrence table and shifting the forward range.
    pub fn add_char_right(
        &self,
        char_i: usize,
        range_pair: &RangePair,
        range_pair_new: &mut RangePair,
    ) -> (b: bool)
        requires
            self.wf(),
            (char_i as int) < A::sigma(),
            range_pair.normal_range.start <= range_pair.normal_range.end,
            range_pair.normal_range.end as int <= self.n() + 1,
            range_pair.reversed_range.start <= range_pair.reversed_range.end,
            range_pair.reversed_range.end as int <= self.n() + 1,
            range_pair.normal_range.end - range_pair.normal_range.start
                == range_pair.reversed_range.end - range_pair.reversed_range.start,
        ensures
            final(range_pair_new).reversed_range.start as int == self.counts_at(char_i as int)
                + self.occ_rev(char_i as int, range_pair.reversed_range.start as int),
            final(range_pair_new).reversed_range.end as int == self.counts_at(char_i as int)
                + self.occ_rev(char_i as int, range_pair.reversed_range.end as int),
            final(range_pair_new).normal_range.start as int == range_pair.normal_range.start + (
            self.cum_rev(char_i as int, range_pair.reversed_range.end as int) - self.cum_rev(
                char_i as int,
                range_pair.reversed_range.start as int,
            )),
            final(range_pair_new).normal_range.start <= final(range_pair_new).normal_range.end,
            final(range_pair_new).normal_range.end as int <= self.n() + 1,
            final(range_pair_new).reversed_range.start <= final(range_pair_new).reversed_range.end,
            final(range_pair_new).reversed_range.end as int <= self.n() + 1,
            final(range_pair_new).normal_range.end - final(range_pair_new).normal_range.start
                == final(range_pair_new).reversed_range.end - final(range_pair_new).reversed_range.start,
            b == !final(range_pair_new).normal_range.is_empty_spec(),
    {
        let ghost (sa, sa_rev, rev_bwt, f) = choose|sa: Seq<int>, sa_rev: Seq<int>, rev_bwt: Seq<
            u8,
        >, f: int| self.models(sa, sa_rev, rev_bwt, f);
        let rs = range_pair.reversed_range.start;
        let re = range_pair.reversed_range.end;
        proof {
            self.lemma_counts_occ_bounds(sa, sa_rev, rev_bwt, f, char_i as int, rs as int);
            self.lemma_counts_occ_bounds(sa, sa_rev, rev_bwt, f, char_i as int, re as int);
            self.reversed_occurence_table.lemma_occ_count_monotone(char_i as int, rs as int, re as int);
            self.reversed_occurence_table.lemma_cum_occ_window(char_i as int, rs as int, re as int);
            self.reversed_occurence_table.lemma_occ_count_bounds(char_i as int, rs as int);
            self.reversed_occurence_table.lemma_occ_count_bounds(char_i as int, re as int);
        }
        let occ_start = self.reversed_occurence_table.occ(char_i, rs);
        let occ_end = self.reversed_occurence_table.occ(char_i, re);
        let count = self.counts[char_i];
        range_pair_new.reversed_range.start = count + occ_start;
        range_pair_new.reversed_range.end = count + occ_end;
        let x = self.reversed_occurence_table.cumulative_occ(char_i, re)
            - self.reversed_occurence_table.cumulative_occ(char_i, rs);
        let y = range_pair_new.reversed_range.width();
        range_pair_new.normal_range.start = range_pair.normal_range.start + x;
        range_pair_new.normal_range.end = range_pair.normal_range.start + x + y;
        !range_pair_new.empty()
    }

    /// In the backward direction, the normal components of the fold
    /// are the raw backward-search fold over the forward components.
    proof fn lemma_bi_backward_normal_is_bs(
        self,
        sa: Seq<int>,
        sa_rev: Seq<int>,
        rev_bwt: Seq<u8>,
        f: int,
        syms: Seq<u8>,
        m: int,
    )
        requires
            self.models(sa, sa_rev, rev_bwt, f),
            0 <= m <= syms.len(),
            forall|q: int| 0 <= q < syms.len() ==> (#[trigger] syms[q] as int) < A::sigma(),
        ensures
            self.bi_range(syms, Direction::BACKWARD, m).0 == bs_range(
                self.counts@,
                self.bwt@,
                self.sent(),
                self.n(),
                syms.reverse(),
                m,
            ).0,
            self.bi_range(syms, Direction::BACKWARD, m).1 == bs_range(
                self.counts@,
                self.bwt@,
                self.sent(),
                self.n(),
                syms.reverse(),
                m,
            ).1,
        decreases m,
    {
        if m > 0 {
            self.lemma_bi_backward_normal_is_bs(sa, sa_rev, rev_bwt, f, syms, m - 1);
            self.lemma_models_parts_ok(sa, sa_rev, rev_bwt, f);
            lemma_bs_range_rows(
                self.text@,
                sa,
                self.bwt@,
                self.sent(),
                self.counts@,
                A::sigma(),
                syms.reverse(),
                m - 1,
            );
            let prev = bs_range(self.counts@, self.bwt@, self.sent(), self.n(), syms.reverse(), m
                - 1);
            let c = syms[m - 1] as int;
            assert(syms.reverse()[syms.len() - m] == syms[m - 1]);
            lemma_table_counts(self.normal_occurence_table, self.bwt@, c, prev.0);
            lemma_table_counts(self.normal_occurence_table, self.bwt@, c, prev.1);
        }
    }

    /// In the forward direction, the reversed components of the fold
    /// are the raw backward-search fold over the reversed components.
    proof fn lemma_bi_forward_reversed_is_bs(
        self,
        sa: Seq<int>,
        sa_rev: Seq<int>,
        rev_bwt: Seq<u8>,
        f: int,
        syms: Seq<u8>,
        m: int,
    )
        requires
            self.models(sa, sa_rev, rev_bwt, f),
            0 <= m <= syms.len(),
            forall|q: int| 0 <= q < syms.len() ==> (#[trigger] syms[q] as int) < A::sigma(),
        ensures
            self.bi_range(syms, Direction::FORWARD, m).2 == bs_range(
                self.counts@,
                rev_bwt,
                self.rev_sent(),
                self.n(),
                syms.reverse(),
                m,
            ).0,
            self.bi_range(syms, Direction::FORWARD, m).3 == bs_range(
                self.counts@,
                rev_bwt,
                self.rev_sent(),
                self.n(),
                syms.reverse(),
                m,
            ).1,
        decreases m,
    {
        if m > 0 {
            self.lemma_bi_forward_reversed_is_bs(sa, sa_rev, rev_bwt, f, syms, m - 1);
            self.lemma_models_parts_ok(sa, sa_rev, rev_bwt, f);
            lemma_bs_range_rows(
                self.text@.reverse(),
                sa_rev,
                rev_bwt,
                self.rev_sent(),
                self.counts@,
                A::sigma(),
                syms.reverse(),
                m - 1,
            );
            let prev = bs_range(self.counts@, rev_bwt, self.rev_sent(), self.n(), syms.reverse(), m
                - 1);
            let c = syms[m - 1] as int;
            assert(syms.reverse()[syms.len() - m] == syms[m - 1]);
            lemma_table_counts(self.reversed_occurence_table, rev_bwt, c, prev.0);
            lemma_table_counts(self.reversed_occurence_table, rev_bwt, c, prev.1);
        }
    }

    /// At every step of either direction the two ranges of the fold
    /// have the same width and stay inside the row space.
    pub proof fn lemma_bi_range_widths(self, syms: Seq<u8>, dir: Direction, m: int)
        requires
            self.wf(),
            0 <= m <= syms.len(),
            forall|q: int| 0 <= q < syms.len() ==> (#[trigger] syms[q] as int) < A::sigma(),
        ensures
            0 <= self.bi_range(syms, dir, m).0 <= self.bi_range(syms, dir, m).1 <= self.n() + 1,
            0 <= self.bi_range(syms, dir, m).2 <= self.bi_range(syms, dir, m).3 <= self.n() + 1,
            self.bi_range(syms, dir, m).1 - self.bi_range(syms, dir, m).0 == self.bi_range(
                syms,
                dir,
                m,
            ).3 - self.bi_range(syms, dir, m).2,
        decreases m,
    {
        let (sa, sa_rev, rev_bwt, f) = choose|
            sa: Seq<int>,
            sa_rev: Seq<int>,
            rev_bwt: Seq<u8>,
            f: int,
        | self.models(sa, sa_rev, rev_bwt, f);
        if m > 0 {
            self.lemma_bi_range_widths(syms, dir, m - 1);
            let prev = self.bi_range(syms, dir, m - 1);
            let c = syms[m - 1] as int;
            self.lemma_counts_occ_bounds(sa, sa_rev, rev_bwt, f, c, prev.0);
            self.lemma_counts_occ_bounds(sa, sa_rev, rev_bwt, f, c, prev.1);
            self.lemma_counts_occ_bounds(sa, sa_rev, rev_bwt, f, c, prev.2);
            self.lemma_counts_occ_bounds(sa, sa_rev, rev_bwt, f, c, prev.3);
            if dir is FORWARD {
                self.reversed_occurence_table.lemma_occ_count_monotone(c, prev.2, prev.3);
                self.reversed_occurence_table.lemma_cum_occ_window(c, prev.2, prev.3);
                self.reversed_occurence_table.lemma_occ_count_bounds(c, prev.2);
                self.reversed_occurence_table.lemma_occ_count_bounds(c, prev.3);
            } else {
                self.normal_occurence_table.lemma_occ_count_monotone(c, prev.0, prev.1);
                self.normal_occurence_table.lemma_cum_occ_window(c, prev.0, prev.1);
                self.normal_occurence_table.lemma_occ_count_bounds(c, prev.0);
                self.normal_occurence_table.lemma_occ_count_bounds(c, prev.1);
            }
        }
    }

    /// One left-extension step on a range-pair 4-tuple

    /// `(normal start, normal end, reversed start, reversed end)`.
    pub open spec fn left_step(self, c: int, pr: (int, int, int, int)) -> (int, int, int, int) {
        let ns2 = self.counts_at(c) + self.occ_fwd(c, pr.0);
        let ne2 = self.counts_at(c) + self.occ_fwd(c, pr.1);
        let x = self.cum_fwd(c, pr.1) - self.cum_fwd(c, pr.0);
        (ns2, ne2, pr.2 + x, pr.2 + x + (ne2 - ns2))
    }

    /// One right-extension step on a range-pair 4-tuple.
    pub open spec fn right_step(self, c: int, pr: (int, int, int, int)) -> (int, int, int, int) {
        let rs2 = self.counts_at(c) + self.occ_rev(c, pr.2);
        let re2 = self.counts_at(c) + self.occ_rev(c, pr.3);
        let x = self.cum_rev(c, pr.3) - self.cum_rev(c, pr.2);
        (pr.0 + x, pr.0 + x + (re2 - rs2), rs2, re2)
    }

    /// The range pair reached after matching the first `m` symbols of
    /// the pattern, read in search order, extending on the side the
    /// direction names.
    pub open spec fn bi_range(self, syms: Seq<u8>, dir: Direction, m: int) -> (int, int, int, int)
        decreases m,
    {
        if m <= 0 {
            (0, self.n() + 1, 0, self.n() + 1)
        } else {
            let prev = self.bi_range(syms, dir, m - 1);
            if dir is FORWARD {
                self.right_step(syms[m - 1] as int, prev)
            } else {
                self.left_step(syms[m - 1] as int, prev)
            }
        }
    }

    /// Every intermediate range pair of the search holds a row.
    pub open spec fn bi_alive(self, syms: Seq<u8>, dir: Direction, m: int) -> bool {
        forall|m2: int|
            1 <= m2 <= m ==> (#[trigger] self.bi_range(syms, dir, m2)).0 < self.bi_range(
                syms,
                dir,
                m2,
            ).1
    }

    /// A fold whose normal range has emptied keeps an empty normal
    /// range however many more symbols are matched, in either
    /// direction.
    proof fn lemma_bi_dead_stays_dead(self, syms: Seq<u8>, dir: Direction, m1: int, m2: int)
        requires
            self.wf(),
            0 <= m1 <= m2 <= syms.len(),
            forall|q: int| 0 <= q < syms.len() ==> (#[trigger] syms[q] as int) < A::sigma(),
            self.bi_range(syms, dir, m1).0 >= self.bi_range(syms, dir, m1).1,
        ensures
            self.bi_range(syms, dir, m2).0 >= self.bi_range(syms, dir, m2).1,
    {
        let (sa, sa_rev, rev_bwt, f) = choose|
            sa: Seq<int>,
            sa_rev: Seq<int>,
            rev_bwt: Seq<u8>,
            f: int,
        | self.models(sa, sa_rev, rev_bwt, f);
        self.lemma_bi_range_widths(syms, dir, m1);
        self.lemma_bi_range_widths(syms, dir, m2);
        if dir is BACKWARD {
            self.lemma_bi_backward_normal_is_bs(sa, sa_rev, rev_bwt, f, syms, m1);
            self.lemma_bi_backward_normal_is_bs(sa, sa_rev, rev_bwt, f, syms, m2);
            crate::fm_index::lemma_bs_range_dead(
                self.counts@,
                self.bwt@,
                self.sent(),
                self.n(),
                syms.reverse(),
                m1,
                m2,
            );
        } else {
            self.lemma_bi_forward_reversed_is_bs(sa, sa_rev, rev_bwt, f, syms, m1);
            self.lemma_bi_forward_reversed_is_bs(sa, sa_rev, rev_bwt, f, syms, m2);
            crate::fm_index::lemma_bs_range_dead(
                self.counts@,
                rev_bwt,
                self.rev_sent(),
                self.n(),
                syms.reverse(),
                m1,
                m2,
            );
        }
    }

    /// In the backward direction, while the search stays alive, the
    /// reversed components of the fold are the occurrence interval of
    /// the reverse of the matched word in the reversed text: the
    /// synchronization invariant of the range pair.
    proof fn lemma_bi_backward_reversed_exact(
        self,
        sa: Seq<int>,
        sa_rev: Seq<int>,
        rev_bwt: Seq<u8>,
        f: int,
        syms: Seq<u8>,
        m: int,
    )
        requires
            self.models(sa, sa_rev, rev_bwt, f),
            0 <= m <= syms.len(),
            forall|q: int| 0 <= q < syms.len() ==> (#[trigger] syms[q] as int) < A::sigma(),
            self.bi_alive(syms, Direction::BACKWARD, m),
        ensures
            self.bi_range(syms, Direction::BACKWARD, m).2 == bs_range(
                self.counts@,
                rev_bwt,
                self.rev_sent(),
                self.n(),
                syms.take(m),
                m,
            ).0,
            self.bi_range(syms, Direction::BACKWARD, m).3 == bs_range(
                self.counts@,
                rev_bwt,
                self.rev_sent(),
                self.n(),
                syms.take(m),
                m,
            ).1,
        decreases m,
    {
        let n = self.n();
        let cnt = self.counts@;
        let bwt = self.bwt@;
        let sent = self.sent();
        let rsent = self.rev_sent();
        let t = self.text@;
        let tr = t.reverse();
        let sigma = A::sigma();
        self.lemma_models_parts_ok(sa, sa_rev, rev_bwt, f);
        if m > 0 {
            self.lemma_bi_backward_reversed_exact(sa, sa_rev, rev_bwt, f, syms, m - 1);
            let c = syms[m - 1];
            let wprev = syms.take(m - 1).reverse();
            let wcur = syms.take(m).reverse();
            assert(wcur =~= seq![c] + wprev);
            assert forall|q: int| 0 <= q < wprev.len() implies (#[trigger] wprev[q] as int)
                < sigma by {
                assert(wprev[q] == syms.take(m - 1)[m - 1 - 1 - q]);
            }
            assert forall|q: int| 0 <= q < wcur.len() implies (#[trigger] wcur[q] as int)
                < sigma by {
                assert(wcur[q] == syms.take(m)[m - 1 - q]);
            }
            self.lemma_bi_backward_normal_is_bs(sa, sa_rev, rev_bwt, f, syms, m - 1);
            self.lemma_bi_backward_normal_is_bs(sa, sa_rev, rev_bwt, f, syms, m);
            assert forall|k: int| 1 <= k <= m - 1 implies (#[trigger] syms.reverse()[
                syms.len() - k]) == wprev[wprev.len() - k] by {
                assert(syms.reverse()[syms.len() - k] == syms[k - 1]);
                assert(wprev[m - 1 - k] == syms.take(m - 1)[k - 1]);
            }
            lemma_bs_range_suffix_stable(cnt, bwt, sent, n, syms.reverse(), wprev, m - 1);
            assert forall|k: int| 1 <= k <= m implies (#[trigger] syms.reverse()[syms.len() - k])
                == wcur[wcur.len() - k] by {
                assert(syms.reverse()[syms.len() - k] == syms[k - 1]);
                assert(wcur[m - k] == syms.take(m)[k - 1]);
            }
            lemma_bs_range_suffix_stable(cnt, bwt, sent, n, syms.reverse(), wcur, m);
            assert(wcur.skip(0) =~= wcur);
            lemma_bs_range_width_counts(t, sa, bwt, sent, cnt, sigma, wcur, m);
            assert(occ_positions(t, wcur).len() >= 1) by {
                assert(self.bi_range(syms, Direction::BACKWARD, m).0 < self.bi_range(
                    syms,
                    Direction::BACKWARD,
                    m,
                ).1);
            }
            lemma_occ_positions_nonempty(t, wcur);
            lemma_sync_step(t, sa, bwt, sent, sa_rev, rev_bwt, rsent, cnt, sigma, wprev, c);
            assert(wcur.reverse() =~= syms.take(m));
            assert(wprev.reverse() =~= syms.take(m - 1));
            assert((seq![c] + wprev).reverse() == wcur.reverse());
            let prev = self.bi_range(syms, Direction::BACKWARD, m - 1);
            lemma_bs_range_rows(t, sa, bwt, sent, cnt, sigma, wprev, m - 1);
            lemma_table_counts(self.normal_occurence_table, bwt, c as int, prev.0);
            lemma_table_counts(self.normal_occurence_table, bwt, c as int, prev.1);
            lemma_cum_parts_split(bwt, sent, c as int, prev.0);
            lemma_cum_parts_split(bwt, sent, c as int, prev.1);
            assert(self.bi_range(syms, Direction::BACKWARD, m).2 == bs_range(
                cnt,
                rev_bwt,
                rsent,
                n,
                syms.take(m),
                m,
            ).0);
            assert(syms.take(m).skip(0) =~= syms.take(m));
            lemma_bs_range_rows(tr, sa_rev, rev_bwt, rsent, cnt, sigma, syms.take(m), m);
            lemma_bs_range_width_counts(tr, sa_rev, rev_bwt, rsent, cnt, sigma, syms.take(m), m);
            lemma_occ_positions_reverse(t, wcur);
        }
    }

    /// In the forward direction, while the search stays alive, the
    /// normal components of the fold are the occurrence interval of
    /// the consumed prefix in the text: the synchronization invariant
    /// mirrored.
    proof fn lemma_bi_forward_normal_exact(
        self,
        sa: Seq<int>,
        sa_rev: Seq<int>,
        rev_bwt: Seq<u8>,
        f: int,
        syms: Seq<u8>,
        m: int,
    )
        requires
            self.models(sa, sa_rev, rev_bwt, f),
            0 <= m <= syms.len(),
            forall|q: int| 0 <= q < syms.len() ==> (#[trigger] syms[q] as int) < A::sigma(),
            self.bi_alive(syms, Direction::FORWARD, m),
        ensures
            self.bi_range(syms, Direction::FORWARD, m).0 == bs_range(
                self.counts@,
                self.bwt@,
                self.sent(),
                self.n(),
                syms.take(m),
                m,
            ).0,
            self.bi_range(syms, Direction::FORWARD, m).1 == bs_range(
                self.counts@,
                self.bwt@,
                self.sent(),
                self.n(),
                syms.take(m),
                m,
            ).1,
        decreases m,
    {
        if m > 0 {
            self.lemma_bi_forward_normal_exact(sa, sa_rev, rev_bwt, f, syms, m - 1);
            self.lemma_bi_forward_normal_step(sa, sa_rev, rev_bwt, f, syms, m);
        }
    }

    /// One step of the mirrored synchronization invariant.
    #[verifier::rlimit(100)]
    proof fn lemma_bi_forward_normal_step(
        self,
        sa: Seq<int>,
        sa_rev: Seq<int>,
        rev_bwt: Seq<u8>,
        f: int,
        syms: Seq<u8>,
        m: int,
    )
        requires
            self.models(sa, sa_rev, rev_bwt, f),
            1 <= m <= syms.len(),
            forall|q: int| 0 <= q < syms.len() ==> (#[trigger] syms[q] as int) < A::sigma(),
            self.bi_alive(syms, Direction::FORWARD, m),
            self.bi_range(syms, Direction::FORWARD, m - 1).0 == bs_range(
                self.counts@,
                self.bwt@,
                self.sent(),
                self.n(),
                syms.take(m - 1),
                m - 1,
            ).0,
            self.bi_range(syms, Direction::FORWARD, m - 1).1 == bs_range(
                self.counts@,
                self.bwt@,
                self.sent(),
                self.n(),
                syms.take(m - 1),
                m - 1,
            ).1,
        ensures
            self.bi_range(syms, Direction::FORWARD, m).0 == bs_range(
                self.counts@,
                self.bwt@,
                self.sent(),
                self.n(),
                syms.take(m),
                m,
            ).0,
            self.bi_range(syms, Direction::FORWARD, m).1 == bs_range(
                self.counts@,
                self.bwt@,
                self.sent(),
                self.n(),
                syms.take(m),
                m,
            ).1,
    {
        let n = self.n();
        let cnt = self.counts@;
        let bwt = self.bwt@;
        let sent = self.sent();
        let rsent = self.rev_sent();
        let t = self.text@;
        let tr = t.reverse();
        let sigma = A::sigma();
        self.lemma_models_parts_ok(sa, sa_rev, rev_bwt, f);
        assert(tr.reverse() =~= t);
        assert(bwt_parts_ok(tr.reverse(), sa, bwt, sent, cnt, sigma));
        let c = syms[m - 1];
        let wprev = syms.take(m - 1).reverse();
        let wcur = syms.take(m).reverse();
        crate::fm_index::lemma_take_rev_facts(syms, m, sigma);
        self.lemma_bi_forward_reversed_is_bs(sa, sa_rev, rev_bwt, f, syms, m - 1);
        self.lemma_bi_forward_reversed_is_bs(sa, sa_rev, rev_bwt, f, syms, m);
        lemma_bs_range_suffix_stable(cnt, rev_bwt, rsent, n, syms.reverse(), wprev, m - 1);
        lemma_bs_range_suffix_stable(cnt, rev_bwt, rsent, n, syms.reverse(), wcur, m);
        lemma_bs_range_width_counts(tr, sa_rev, rev_bwt, rsent, cnt, sigma, wcur, m);
        self.lemma_bi_range_widths(syms, Direction::FORWARD, m);
        assert(occ_positions(tr, wcur).len() >= 1) by {
            assert(self.bi_range(syms, Direction::FORWARD, m).0 < self.bi_range(
                syms,
                Direction::FORWARD,
                m,
            ).1);
        }
        lemma_occ_positions_nonempty(tr, wcur);
        lemma_sync_step(tr, sa_rev, rev_bwt, rsent, sa, bwt, sent, cnt, sigma, wprev, c);
        assert((seq![c] + wprev).reverse() == wcur.reverse());
        let prev = self.bi_range(syms, Direction::FORWARD, m - 1);
        lemma_bs_range_rows(tr, sa_rev, rev_bwt, rsent, cnt, sigma, wprev, m - 1);
        lemma_table_counts(self.reversed_occurence_table, rev_bwt, c as int, prev.2);
        lemma_table_counts(self.reversed_occurence_table, rev_bwt, c as int, prev.3);
        lemma_cum_parts_split(rev_bwt, rsent, c as int, prev.2);
        lemma_cum_parts_split(rev_bwt, rsent, c as int, prev.3);
        assert(self.bi_range(syms, Direction::FORWARD, m).0 == bs_range(
            cnt,
            bwt,
            sent,
            n,
            syms.take(m),
            m,
        ).0);
        lemma_bs_range_rows(t, sa, bwt, sent, cnt, sigma, syms.take(m), m);
        lemma_bs_range_width_counts(t, sa, bwt, sent, cnt, sigma, syms.take(m), m);
        lemma_occ_positions_reverse(t, syms.take(m));
    }

    /// Law: searching in the backward direction is exact on the


    /// forward side.  After the last `m` search-order symbols are
    /// matched, the normal range holds precisely the BWT rows whose
    /// suffixes start with the word those symbols spell (the reverse
    /// of the search order), and both ranges' widths equal the number
    /// of that word's occurrences in the text.
    pub proof fn lemma_backward_search_semantics(self, syms: Seq<u8>, m: int)
        requires
            self.wf(),
            0 <= m <= syms.len(),
            forall|q: int| 0 <= q < syms.len() ==> (#[trigger] syms[q] as int) < A::sigma(),
        ensures
            forall|q: int|
                0 <= q <= self.n() ==> ((self.bi_range(syms, Direction::BACKWARD, m).0 <= q
                    < self.bi_range(syms, Direction::BACKWARD, m).1) == occurs_at(
                    self.text_view(),
                    syms.reverse().skip(syms.len() - m),
                    #[trigger] self.sa_of()[q],
                )),
            occ_positions(self.text_view(), syms.reverse().skip(syms.len() - m)).finite(),
            self.bi_range(syms, Direction::BACKWARD, m).1 - self.bi_range(
                syms,
                Direction::BACKWARD,
                m,
            ).0 == occ_positions(self.text_view(), syms.reverse().skip(syms.len() - m)).len(),
            self.bi_range(syms, Direction::BACKWARD, m).3 - self.bi_range(
                syms,
                Direction::BACKWARD,
                m,
            ).2 == occ_positions(self.text_view(), syms.reverse().skip(syms.len() - m)).len(),
    {
        let (sa, sa_rev, rev_bwt, f) = choose|
            sa: Seq<int>,
            sa_rev: Seq<int>,
            rev_bwt: Seq<u8>,
            f: int,
        | self.models(sa, sa_rev, rev_bwt, f);
        self.lemma_models_sas(sa, sa_rev, rev_bwt, f);
        self.lemma_models_parts_ok(sa, sa_rev, rev_bwt, f);
        assert forall|q: int| 0 <= q < syms.reverse().len() implies (#[trigger] syms.reverse()[
            q] as int) < A::sigma() by {
            assert(syms.reverse()[q] == syms[syms.len() - 1 - q]);
        }
        lemma_bs_range_rows(
            self.text@,
            sa,
            self.bwt@,
            self.sent(),
            self.counts@,
            A::sigma(),
            syms.reverse(),
            m,
        );
        lemma_bs_range_width_counts(
            self.text@,
            sa,
            self.bwt@,
            self.sent(),
            self.counts@,
            A::sigma(),
            syms.reverse(),
            m,
        );
        self.lemma_bi_backward_normal_is_bs(sa, sa_rev, rev_bwt, f, syms, m);
        self.lemma_bi_range_widths(syms, Direction::BACKWARD, m);
    }

    /// Law: searching in the forward direction is exact on the
    /// reversed side.  After `m` symbols of the search order are
    /// matched, the reversed range holds precisely the rows of the
    /// reversed text's BWT whose suffixes start with the reverse of
    /// the consumed prefix, and both ranges' widths equal the number
    /// of occurrences of the consumed prefix in the text.
    pub proof fn lemma_forward_search_semantics(self, syms: Seq<u8>, m: int)
        requires
            self.wf(),
            0 <= m <= syms.len(),
            forall|q: int| 0 <= q < syms.len() ==> (#[trigger] syms[q] as int) < A::sigma(),
        ensures
            forall|q: int|
                0 <= q <= self.n() ==> ((self.bi_range(syms, Direction::FORWARD, m).2 <= q
                    < self.bi_range(syms, Direction::FORWARD, m).3) == occurs_at(
                    self.text_view().reverse(),
                    syms.take(m).reverse(),
                    #[trigger] self.sa_rev_of()[q],
                )),
            occ_positions(self.text_view(), syms.take(m)).finite(),
            self.bi_range(syms, Direction::FORWARD, m).3 - self.bi_range(
                syms,
                Direction::FORWARD,
                m,
            ).2 == occ_positions(self.text_view(), syms.take(m)).len(),
            self.bi_range(syms, Direction::FORWARD, m).1 - self.bi_range(
                syms,
                Direction::FORWARD,
                m,
            ).0 == occ_positions(self.text_view(), syms.take(m)).len(),
    {
        let (sa, sa_rev, rev_bwt, f) = choose|
            sa: Seq<int>,
            sa_rev: Seq<int>,
            rev_bwt: Seq<u8>,
            f: int,
        | self.models(sa, sa_rev, rev_bwt, f);
        self.lemma_models_sas(sa, sa_rev, rev_bwt, f);
        self.lemma_models_parts_ok(sa, sa_rev, rev_bwt, f);
        assert forall|q: int| 0 <= q < syms.reverse().len() implies (#[trigger] syms.reverse()[
            q] as int) < A::sigma() by {
            assert(syms.reverse()[q] == syms[syms.len() - 1 - q]);
        }
        assert forall|q: int| 0 <= q < syms.take(m).len() implies (#[trigger] syms.take(m)[
            q] as int) < A::sigma() by {
            assert(syms.take(m)[q] == syms[q]);
        }
        assert(syms.reverse().skip(syms.len() - m) =~= syms.take(m).reverse());
        lemma_bs_range_rows(
            self.text@.reverse(),
            sa_rev,
            rev_bwt,
            self.rev_sent(),
            self.counts@,
            A::sigma(),
            syms.reverse(),
            m,
        );
        lemma_bs_range_width_counts(
            self.text@.reverse(),
            sa_rev,
            rev_bwt,
            self.rev_sent(),
            self.counts@,
            A::sigma(),
            syms.reverse(),
            m,
        );
        self.lemma_bi_forward_reversed_is_bs(sa, sa_rev, rev_bwt, f, syms, m);
        self.lemma_bi_range_widths(syms, Direction::FORWARD, m);
        lemma_bs_range_width_counts(
            self.text@,
            sa,
            self.bwt@,
            self.sent(),
            self.counts@,
            A::sigma(),
            syms.take(m),
            m,
        );
        assert(syms.take(m).skip(syms.take(m).len() - m) =~= syms.take(m));
        lemma_occ_positions_reverse(self.text@, syms.take(m));
    }

    /// Law: the two directions agree on the number of occurrences —
    /// matching a pattern backward (search order reversed) or forward
    /// yields ranges whose common width is, either way, the number of
    /// occurrences of the pattern in the text; and when the pattern
    /// does not occur, both directions fail the search, so both return
    /// the canonical empty pair.
    pub proof fn lemma_directions_agree_on_width(self, p: Seq<u8>)
        requires
            self.wf(),
            forall|q: int| 0 <= q < p.len() ==> (#[trigger] p[q] as int) < A::sigma(),
        ensures
            self.bi_range(p.reverse(), Direction::BACKWARD, p.len() as int).1 - self.bi_range(
                p.reverse(),
                Direction::BACKWARD,
                p.len() as int,
            ).0 == occ_positions(self.text_view(), p).len(),
            self.bi_range(p, Direction::FORWARD, p.len() as int).1 - self.bi_range(
                p,
                Direction::FORWARD,
                p.len() as int,
            ).0 == occ_positions(self.text_view(), p).len(),
            occ_positions(self.text_view(), p).len() == 0 ==> !self.bi_alive(
                p.reverse(),
                Direction::BACKWARD,
                p.len() as int,
            ) && !self.bi_alive(p, Direction::FORWARD, p.len() as int),
    {
        assert forall|q: int| 0 <= q < p.reverse().len() implies (#[trigger] p.reverse()[
            q] as int) < A::sigma() by {
            assert(p.reverse()[q] == p[p.len() - 1 - q]);
        }
        self.lemma_backward_search_semantics(p.reverse(), p.len() as int);
        assert(p.reverse().reverse().skip(0) =~= p);
        self.lemma_forward_search_semantics(p, p.len() as int);
        assert(p.take(p.len() as int) =~= p);
        if occ_positions(self.text_view(), p).len() == 0 {
            assert((self.bi_range(p.reverse(), Direction::BACKWARD, p.len() as int)).0
                >= self.bi_range(p.reverse(), Direction::BACKWARD, p.len() as int).1);
            assert((self.bi_range(p, Direction::FORWARD, p.len() as int)).0 >= self.bi_range(
                p,
                Direction::FORWARD,
                p.len() as int,
            ).1);
        }
    }

    /// Law: the two directions agree.  When the pattern occurs, both
    /// searches stay alive and produce the identical range pair — the
    /// occurrence intervals of the pattern and of its reverse; when it
    /// does not occur, both fail, so both yield the canonical empty
    /// pair.
    pub proof fn lemma_directions_agree(self, p: Seq<u8>)
        requires
            self.wf(),
            forall|q: int| 0 <= q < p.len() ==> (#[trigger] p[q] as int) < A::sigma(),
        ensures
            occ_positions(self.text_view(), p).len() >= 1 ==> self.bi_alive(
                p.reverse(),
                Direction::BACKWARD,
                p.len() as int,
            ) && self.bi_alive(p, Direction::FORWARD, p.len() as int) && self.bi_range(
                p.reverse(),
                Direction::BACKWARD,
                p.len() as int,
            ) == self.bi_range(p, Direction::FORWARD, p.len() as int),
            occ_positions(self.text_view(), p).len() == 0 ==> !self.bi_alive(
                p.reverse(),
                Direction::BACKWARD,
                p.len() as int,
            ) && !self.bi_alive(p, Direction::FORWARD, p.len() as int),
    {
        let t = self.text@;
        let len = p.len() as int;
        let pr = p.reverse();
        assert forall|q: int| 0 <= q < pr.len() implies (#[trigger] pr[q] as int)
            < A::sigma() by {
            assert(pr[q] == p[p.len() - 1 - q]);
        }
        self.lemma_directions_agree_on_width(p);
        if occ_positions(self.text_view(), p).len() >= 1 {
            self.lemma_backward_search_semantics(pr, len);
            assert(pr.reverse().skip(pr.len() - len) =~= p);
            lemma_occ_positions_nonempty(t, p);
            let v0 = choose|v: int| occurs_at(t, p, v);
            assert forall|m2: int| 1 <= m2 <= len implies (#[trigger] self.bi_range(
                pr,
                Direction::BACKWARD,
                m2,
            )).0 < self.bi_range(pr, Direction::BACKWARD, m2).1 by {
                self.lemma_backward_search_semantics(pr, m2);
                self.lemma_bi_range_widths(pr, Direction::BACKWARD, m2);
                lemma_occurs_sub(t, p, v0, len - m2);
                assert(pr.reverse().skip(pr.len() - m2) =~= p.skip(len - m2));
                assert(occ_positions(t, pr.reverse().skip(pr.len() - m2)).contains(v0 + (len
                    - m2)));
                if occ_positions(t, pr.reverse().skip(pr.len() - m2)).len() == 0 {
                    assert(occ_positions(t, pr.reverse().skip(pr.len() - m2)) =~= Set::empty());
                }
            }
            assert forall|m2: int| 1 <= m2 <= len implies (#[trigger] self.bi_range(
                p,
                Direction::FORWARD,
                m2,
            )).0 < self.bi_range(p, Direction::FORWARD, m2).1 by {
                self.lemma_forward_search_semantics(p, m2);
                self.lemma_bi_range_widths(p, Direction::FORWARD, m2);
                lemma_occurs_sub(t, p, v0, m2);
                assert(occ_positions(t, p.take(m2)).contains(v0));
                if occ_positions(t, p.take(m2)).len() == 0 {
                    assert(occ_positions(t, p.take(m2)) =~= Set::empty());
                }
            }
            let (sa, sa_rev, rev_bwt, f) = choose|
                sa: Seq<int>,
                sa_rev: Seq<int>,
                rev_bwt: Seq<u8>,
                f: int,
            | self.models(sa, sa_rev, rev_bwt, f);
            self.lemma_bi_backward_normal_is_bs(sa, sa_rev, rev_bwt, f, pr, len);
            self.lemma_bi_forward_normal_exact(sa, sa_rev, rev_bwt, f, p, len);
            self.lemma_bi_backward_reversed_exact(sa, sa_rev, rev_bwt, f, pr, len);
            self.lemma_bi_forward_reversed_is_bs(sa, sa_rev, rev_bwt, f, p, len);
            assert(pr.reverse() == p) by {
                assert(pr.reverse() =~= p);
            }
            assert(pr.take(len) == pr) by {
                assert(pr.take(len) =~= pr);
            }
            assert(p.take(len) == p) by {
                assert(p.take(len) =~= p);
            }
        }
    }

    /// Law: the range pair is synchronized (the invariant of the
    /// bidirectional search).  While a backward search stays alive its
    /// reversed range holds exactly the reversed-text BWT rows whose
    /// suffixes start with the reverse of the matched word, and while
    /// a forward search stays alive its normal range holds exactly
    /// the BWT rows whose suffixes start with the consumed prefix.
    pub proof fn lemma_search_pair_synchronized(self, syms: Seq<u8>, m: int)
        requires
            self.wf(),
            0 <= m <= syms.len(),
            forall|q: int| 0 <= q < syms.len() ==> (#[trigger] syms[q] as int) < A::sigma(),
        ensures
            self.bi_alive(syms, Direction::BACKWARD, m) ==> forall|q: int|
                0 <= q <= self.n() ==> ((self.bi_range(syms, Direction::BACKWARD, m).2 <= q
                    < self.bi_range(syms, Direction::BACKWARD, m).3) == occurs_at(
                    self.text_view().reverse(),
                    syms.take(m),
                    #[trigger] self.sa_rev_of()[q],
                )),
            self.bi_alive(syms, Direction::FORWARD, m) ==> forall|q: int|
                0 <= q <= self.n() ==> ((self.bi_range(syms, Direction::FORWARD, m).0 <= q
                    < self.bi_range(syms, Direction::FORWARD, m).1) == occurs_at(
                    self.text_view(),
                    syms.take(m),
                    #[trigger] self.sa_of()[q],
                )),
    {
        let (sa, sa_rev, rev_bwt, f) = choose|
            sa: Seq<int>,
            sa_rev: Seq<int>,
            rev_bwt: Seq<u8>,
            f: int,
        | self.models(sa, sa_rev, rev_bwt, f);
        self.lemma_models_sas(sa, sa_rev, rev_bwt, f);
        self.lemma_models_parts_ok(sa, sa_rev, rev_bwt, f);
        let sigma = A::sigma();
        assert forall|q: int| 0 <= q < syms.take(m).len() implies (#[trigger] syms.take(m)[
            q] as int) < sigma by {
            assert(syms.take(m)[q] == syms[q]);
        }
        assert(syms.take(m).skip(0) =~= syms.take(m));
        if self.bi_alive(syms, Direction::BACKWARD, m) {
            self.lemma_bi_backward_reversed_exact(sa, sa_rev, rev_bwt, f, syms, m);
            lemma_bs_range_rows(
                self.text@.reverse(),
                sa_rev,
                rev_bwt,
                self.rev_sent(),
                self.counts@,
                sigma,
                syms.take(m),
                m,
            );
        }
        if self.bi_alive(syms, Direction::FORWARD, m) {
            self.lemma_bi_forward_normal_exact(sa, sa_rev, rev_bwt, f, syms, m);
            lemma_bs_range_rows(
                self.text@,
                sa,
                self.bwt@,
                self.sent(),
                self.counts@,
                sigma,
                syms.take(m),
                m,
            );
        }
    }

    /// Match a whole pattern: narrow the full range pair symbol by


    /// symbol from the end named by the pattern's direction.  Both
    /// returned ranges have exactly the width of the pattern's
    /// occurrence count in the text — a failed match yields the
    /// canonical empty pair, and the pattern then does not occur.
    pub fn exact_match(&self, pattern: &AlphabetPattern<A>) -> (r: RangePair)
        requires
            self.wf(),
            pattern.wf(),
        ensures
            ({
                let fin = self.bi_range(
                    pattern.syms(),
                    pattern.direction,
                    pattern.syms().len() as int,
                );
                if self.bi_alive(pattern.syms(), pattern.direction, pattern.syms().len() as int) {
                    r.normal_range.start == fin.0 && r.normal_range.end == fin.1
                        && r.reversed_range.start == fin.2 && r.reversed_range.end == fin.3
                } else {
                    r.normal_range.start == 0 && r.normal_range.end == 0
                        && r.reversed_range.start == 0 && r.reversed_range.end == 0
                }
            }),
            r.normal_range.width_spec() == r.reversed_range.width_spec(),
            r.normal_range.width_spec() == occ_positions(
                self.text_view(),
                pattern.pattern@,
            ).len(),
    {
        let ghost syms = pattern.syms();
        let dir = pattern.direction();
        proof {
            assert forall|q: int| 0 <= q < syms.len() implies (#[trigger] syms[q] as int)
                < A::sigma() by {
                assert(syms[q] == pattern.sym(q));
            }
        }
        let n = self.text.len();
        let mut range_pair = RangePair::new(Range::new(0, n + 1), Range::new(0, n + 1));
        let m_total = pattern.len();
        let mut i: usize = 0;
        while i < m_total
            invariant
                self.wf(),
                pattern.wf(),
                syms == pattern.syms(),
                dir == pattern.direction,
                m_total == pattern.pattern_length,
                m_total == syms.len(),
                i <= m_total,
                self.bi_alive(syms, dir, i as int),
                range_pair.normal_range.start as int == self.bi_range(syms, dir, i as int).0,
                range_pair.normal_range.end as int == self.bi_range(syms, dir, i as int).1,
                range_pair.reversed_range.start as int == self.bi_range(syms, dir, i as int).2,
                range_pair.reversed_range.end as int == self.bi_range(syms, dir, i as int).3,
                range_pair.normal_range.start <= range_pair.normal_range.end,
                range_pair.normal_range.end as int <= self.n() + 1,
                range_pair.reversed_range.start <= range_pair.reversed_range.end,
                range_pair.reversed_range.end as int <= self.n() + 1,
                range_pair.normal_range.end - range_pair.normal_range.start
                    == range_pair.reversed_range.end - range_pair.reversed_range.start,
            decreases m_total - i,
        {
            let c = pattern.char_at(i) as usize;
            proof {
                assert(syms[i as int] == pattern.sym(i as int));
            }
            let rc = range_pair.clone();
            let alive = if matches!(dir, Direction::FORWARD) {
                self.add_char_right(c, &rc, &mut range_pair)
            } else {
                self.add_char_left(c, &rc, &mut range_pair)
            };
            if !alive {
                proof {
                    assert((self.bi_range(syms, dir, i as int + 1)).0 >= self.bi_range(
                        syms,
                        dir,
                        i as int + 1,
                    ).1);
                    self.lemma_bi_dead_stays_dead(syms, dir, i as int + 1, m_total as int);
                    self.lemma_bi_range_widths(syms, dir, m_total as int);
                    if dir is BACKWARD {
                        self.lemma_backward_search_semantics(syms, m_total as int);
                        assert(syms.reverse().skip(syms.len() - m_total) =~= pattern.pattern@);
                    } else {
                        self.lemma_forward_search_semantics(syms, m_total as int);
                        assert(syms.take(m_total as int) =~= pattern.pattern@);
                    }
                }
                return RangePair::new(Range::new(0, 0), Range::new(0, 0));
            }
            proof {
                assert forall|m2: int| 1 <= m2 <= i as int + 1 implies (#[trigger] self.bi_range(
                    syms,
                    dir,
                    m2,
                )).0 < self.bi_range(syms, dir, m2).1 by {
                }
            }
            i = i + 1;
        }
        proof {
            if dir is BACKWARD {
                self.lemma_backward_search_semantics(syms, m_total as int);
                assert(syms.reverse().skip(syms.len() - m_total) =~= pattern.pattern@);
            } else {
                self.lemma_forward_search_semantics(syms, m_total as int);
                assert(syms.take(m_total as int) =~= pattern.pattern@);
            }
        }
        range_pair
    }

    /// An index whose stored views equal those of a modelled index is
    /// modelled by the same witnesses.
    proof fn lemma_models_transfer(
        a: Self,
        b: Self,
        sa: Seq<int>,
        sa_rev: Seq<int>,
        rev_bwt: Seq<u8>,
        f: int,
    )
        requires
            a.models(sa, sa_rev, rev_bwt, f),
            b.text@ == a.text@,
            b.bwt@ == a.bwt@,
            b.counts@ == a.counts@,
            b.normal_occurence_table.sentinel == a.normal_occurence_table.sentinel,
            b.reversed_occurence_table.sentinel == a.reversed_occurence_table.sentinel,
            b.normal_occurence_table.table@.len() == a.normal_occurence_table.table@.len(),
            b.reversed_occurence_table.table@.len() == a.reversed_occurence_table.table@.len(),
            forall|c: int|
                0 <= c < A::sigma() ==> (#[trigger] b.normal_occurence_table.table@[c]).wf()
                    && b.normal_occurence_table.table@[c].counts_valid()
                    && b.normal_occurence_table.table@[c]@ == a.normal_occurence_table.table@[c]@,
            forall|c: int|
                0 <= c < A::sigma() ==> (#[trigger] b.reversed_occurence_table.table@[c]).wf()
                    && b.reversed_occurence_table.table@[c].counts_valid()
                    && b.reversed_occurence_table.table@[c]@ == a.reversed_occurence_table.table@[
                    c]@,
            b.sparse_sa.bitvector.wf(),
            b.sparse_sa.bitvector.counts_valid(),
            b.sparse_sa.bitvector@ == a.sparse_sa.bitvector@,
            b.sparse_sa.sparse_sa@ == a.sparse_sa.sparse_sa@,
        ensures
            b.models(sa, sa_rev, rev_bwt, f),
    {
        assert(b.text.wf());
        assert(b.bwt.wf());
        assert(b.normal_occurence_table.wf()) by {
            assert(b.normal_occurence_table.len_spec() == a.normal_occurence_table.len_spec());
        }
        assert(b.reversed_occurence_table.wf()) by {
            assert(b.reversed_occurence_table.len_spec()
                == a.reversed_occurence_table.len_spec());
        }
        assert(b.sparse_sa.models(sa, f));
    }

    /// The suffix array of the indexed text.
    pub closed spec fn sa_of(self) -> Seq<int> {
        (choose|sa: Seq<int>, sa_rev: Seq<int>, rev_bwt: Seq<u8>, f: int|
            self.models(sa, sa_rev, rev_bwt, f)).0
    }

    /// The suffix array of the reversed text.
    pub closed spec fn sa_rev_of(self) -> Seq<int> {
        (choose|sa: Seq<int>, sa_rev: Seq<int>, rev_bwt: Seq<u8>, f: int|
            self.models(sa, sa_rev, rev_bwt, f)).1
    }

    /// Any modelled suffix arrays are the unique ones the accessors
    /// name.
    proof fn lemma_models_sas(self, sa: Seq<int>, sa_rev: Seq<int>, rev_bwt: Seq<u8>, f: int)
        requires
            self.models(sa, sa_rev, rev_bwt, f),
        ensures
            sa == self.sa_of(),
            sa_rev == self.sa_rev_of(),
    {
        let (sa2, sa_rev2, rev_bwt2, f2) = choose|
            sa2: Seq<int>,
            sa_rev2: Seq<int>,
            rev_bwt2: Seq<u8>,
            f2: int,
        | self.models(sa2, sa_rev2, rev_bwt2, f2);
        lemma_sa_unique(sa, sa2, self.text@);
        lemma_sa_unique(sa_rev, sa_rev2, self.text@.reverse());
    }

    /// Both halves of a modelled index fit their suffix arrays: the
    /// forward components directly, and the reversed components with
    /// the shared counts table, whose entries count symbols the two
    /// BWTs hold equally often.
    proof fn lemma_models_parts_ok(self, sa: Seq<int>, sa_rev: Seq<int>, rev_bwt: Seq<u8>, f: int)
        requires
            self.models(sa, sa_rev, rev_bwt, f),
        ensures
            bwt_parts_ok(self.text@, sa, self.bwt@, self.sent(), self.counts@, A::sigma()),
            bwt_parts_ok(
                self.text@.reverse(),
                sa_rev,
                rev_bwt,
                self.rev_sent(),
                self.counts@,
                A::sigma(),
            ),
    {
        A::alphabet_facts();
        let t = self.text@;
        let n = self.n();
        assert forall|i: int| 0 <= i < rev_bwt.len() implies (#[trigger] rev_bwt[i] as int)
            < A::sigma() by {
            if i != self.rev_sent() {
                if sa_rev[i] == 0 {
                    crate::fm_index::lemma_sa_injective(sa_rev, t.reverse(), i, self.rev_sent());
                }
                assert(rev_bwt[i] == t.reverse()[sa_rev[i] - 1]);
                assert(t.reverse()[sa_rev[i] - 1] == t[n - 1 - (sa_rev[i] - 1)]);
            }
        }
        assert forall|c: int| 0 <= c < A::sigma() implies #[trigger] self.counts@[c] as int == 1
            + below_count(rev_bwt, self.rev_sent(), c, n + 1) by {
            assert forall|c2: int| 0 <= c2 < c implies #[trigger] sym_count(
                self.bwt@,
                self.sent(),
                c2,
                n + 1,
            ) == sym_count(rev_bwt, self.rev_sent(), c2, n + 1) by {
                lemma_bwt_count_is_text_count(sa, t, self.bwt@, self.sent(), c2);
                lemma_bwt_count_is_text_count(
                    sa_rev,
                    t.reverse(),
                    rev_bwt,
                    self.rev_sent(),
                    c2,
                );
                lemma_text_count_reverse(t, c2);
            }
            lemma_below_counts_from_syms(
                self.bwt@,
                self.sent(),
                rev_bwt,
                self.rev_sent(),
                n + 1,
                c,
            );
        }
    }

    /// Words each persisted bitvector occupies.

    pub closed spec fn words_per_bitvec(self) -> int {
        (self.n() + 1) / 64 + 1
    }

    /// Number of retained sparse suffix-array entries.
    pub closed spec fn stored_vals(self) -> int {
        self.sparse_sa.sparse_sa@.len() as int
    }

    /// Length of the persisted word stream.
    pub closed spec fn flat_len(self) -> int {
        2 * self.n() + 5 + A::sigma() + self.words_per_bitvec() + self.stored_vals() + 2
            * A::sigma() * self.words_per_bitvec()
    }

    /// The persisted word stream, field by field: text length, text,
    /// BWT, the two sentinels, counts, the sparse presence bitvector's
    /// words, the number of retained entries, the entries, and the
    /// words of every occurrence bitvector of both tables.
    pub closed spec fn flat_at(self, q: int) -> u64 {
        let n = self.n();
        let s = A::sigma();
        let wl = self.words_per_bitvec();
        let o_counts = 2 * n + 4;
        let o_spw = o_counts + s;
        let o_vl = o_spw + wl;
        let o_vals = o_vl + 1;
        let o_tabf = o_vals + self.stored_vals();
        let o_tabr = o_tabf + s * wl;
        if q == 0 {
            n as u64
        } else if q < 1 + n {
            self.text@[q - 1] as u64
        } else if q < 2 * n + 2 {
            self.bwt@[q - (1 + n)] as u64
        } else if q == 2 * n + 2 {
            self.normal_occurence_table.sentinel as u64
        } else if q == 2 * n + 3 {
            self.reversed_occurence_table.sentinel as u64
        } else if q < o_spw {
            self.counts@[q - o_counts] as u64
        } else if q < o_vl {
            self.sparse_sa.bitvector.words_view()[q - o_spw]
        } else if q == o_vl {
            self.stored_vals() as u64
        } else if q < o_tabf {
            self.sparse_sa.sparse_sa@[q - o_vals] as u64
        } else if q < o_tabr {
            self.normal_occurence_table.table@[(q - o_tabf) / wl].words_view()[(q - o_tabf) % wl]
        } else {
            self.reversed_occurence_table.table@[(q - o_tabr) / wl].words_view()[(q - o_tabr) % wl]
        }
    }

    /// The persisted word stream.
    pub closed spec fn flat_of(self) -> Seq<u64> {
        Seq::new(self.flat_len() as nat, |q: int| self.flat_at(q))
    }

    /// The persisted byte stream: the word stream, little endian.
    pub closed spec fn spec_bytes(self) -> Seq<u8> {
        crate::io::enc_words(self.flat_of())
    }

    /// Flatten the index into its persisted word stream.
    fn to_words(&self) -> (r: Vec<u64>)
        requires
            self.wf(),
            self.flat_len() <= usize::MAX,
        ensures
            r@ == self.flat_of(),
    {
        let ghost (sa, sa_rev, rev_bwt, f) = choose|sa: Seq<int>, sa_rev: Seq<int>, rev_bwt: Seq<
            u8,
        >, f: int| self.models(sa, sa_rev, rev_bwt, f);
        proof {
            A::alphabet_facts();
            self.sparse_sa.bitvector.lemma_words_shape();
            assert forall|c: int| 0 <= c < A::sigma() implies (
            #[trigger] self.normal_occurence_table.table@[c]).words_view().len()
                == self.words_per_bitvec() by {
                self.normal_occurence_table.table@[c].lemma_words_shape();
            }
            assert forall|c: int| 0 <= c < A::sigma() implies (
            #[trigger] self.reversed_occurence_table.table@[c]).words_view().len()
                == self.words_per_bitvec() by {
                self.reversed_occurence_table.table@[c].lemma_words_shape();
            }
        }
        let ghost me = *self;
        let n = self.text.len();
        let mut out: Vec<u64> = Vec::new();
        out.push(n as u64);
        let mut i: usize = 0;
        while i < n
            invariant
                me == *self,
                me.models(sa, sa_rev, rev_bwt, f),
                n == me.n(),
                i <= n,
                out@.len() == 1 + i,
                forall|q: int| 0 <= q < out@.len() ==> #[trigger] out@[q] == me.flat_at(q),
            decreases n - i,
        {
            out.push(self.text.get(i) as u64);
            i = i + 1;
        }
        let mut i: usize = 0;
        while i < n + 1
            invariant
                me == *self,
                me.models(sa, sa_rev, rev_bwt, f),
                n == me.n(),
                i <= n + 1,
                out@.len() == 1 + n + i,
                forall|q: int| 0 <= q < out@.len() ==> #[trigger] out@[q] == me.flat_at(q),
            decreases n + 1 - i,
        {
            out.push(self.bwt.get(i) as u64);
            i = i + 1;
        }
        out.push(self.normal_occurence_table.sentinel as u64);
        out.push(self.reversed_occurence_table.sentinel as u64);
        let alphabet: A = Default::default();
        let sigma = alphabet.len();
        let mut c: usize = 0;
        while c < sigma
            invariant
                me == *self,
                me.models(sa, sa_rev, rev_bwt, f),
                n == me.n(),
                sigma == A::sigma(),
                c <= sigma,
                out@.len() == 2 * n + 4 + c,
                forall|q: int| 0 <= q < out@.len() ==> #[trigger] out@[q] == me.flat_at(q),
            decreases sigma - c,
        {
            out.push(self.counts[c] as u64);
            c = c + 1;
        }
        let (_spn, spw) = self.sparse_sa.bitvector.save();
        let mut w: usize = 0;
        while w < spw.len()
            invariant
                me == *self,
                me.models(sa, sa_rev, rev_bwt, f),
                n == me.n(),
                sigma == A::sigma(),
                spw@ == me.sparse_sa.bitvector.words_view(),
                spw@.len() == me.words_per_bitvec(),
                w <= spw@.len(),
                out@.len() == 2 * n + 4 + sigma + w,
                forall|q: int| 0 <= q < out@.len() ==> #[trigger] out@[q] == me.flat_at(q),
            decreases spw@.len() - w,
        {
            out.push(spw[w]);
            w = w + 1;
        }
        let vl = self.sparse_sa.sparse_sa.len();
        out.push(vl as u64);
        let mut q2: usize = 0;
        while q2 < vl
            invariant
                me == *self,
                me.models(sa, sa_rev, rev_bwt, f),
                n == me.n(),
                sigma == A::sigma(),
                vl == me.stored_vals(),
                q2 <= vl,
                out@.len() == 2 * n + 5 + sigma + me.words_per_bitvec() + q2,
                forall|q: int| 0 <= q < out@.len() ==> #[trigger] out@[q] == me.flat_at(q),
            decreases vl - q2,
        {
            out.push(self.sparse_sa.sparse_sa[q2] as u64);
            q2 = q2 + 1;
        }
        let ghost o_tabf = 2 * me.n() + 5 + A::sigma() + me.words_per_bitvec() + me.stored_vals();
        let mut c: usize = 0;
        while c < sigma
            invariant
                me == *self,
                me.models(sa, sa_rev, rev_bwt, f),
                n == me.n(),
                sigma == A::sigma(),
                o_tabf == 2 * me.n() + 5 + A::sigma() + me.words_per_bitvec() + me.stored_vals(),
                c <= sigma,
                forall|c2: int|
                    0 <= c2 < A::sigma() ==> (
                #[trigger] me.normal_occurence_table.table@[c2]).words_view().len()
                        == me.words_per_bitvec(),
                out@.len() == o_tabf + c * me.words_per_bitvec(),
                forall|q: int| 0 <= q < out@.len() ==> #[trigger] out@[q] == me.flat_at(q),
            decreases sigma - c,
        {
            let (_bn, bw) = self.normal_occurence_table.table[c].save();
            let mut w: usize = 0;
            while w < bw.len()
                invariant
                    me == *self,
                    me.models(sa, sa_rev, rev_bwt, f),
                    n == me.n(),
                    sigma == A::sigma(),
                    c < sigma,
                    o_tabf == 2 * me.n() + 5 + A::sigma() + me.words_per_bitvec()
                        + me.stored_vals(),
                    bw@ == me.normal_occurence_table.table@[c as int].words_view(),
                    bw@.len() == me.words_per_bitvec(),
                    w <= bw@.len(),
                    out@.len() == o_tabf + c * me.words_per_bitvec() + w,
                    forall|q: int| 0 <= q < out@.len() ==> #[trigger] out@[q] == me.flat_at(q),
                decreases bw@.len() - w,
            {
                proof {
                    vstd::arithmetic::div_mod::lemma_fundamental_div_mod_converse(
                        (c as int) * me.words_per_bitvec() + w,
                        me.words_per_bitvec(),
                        c as int,
                        w as int,
                    );
                    assert(0 <= (c as int) * me.words_per_bitvec() + w && (c as int)
                        * me.words_per_bitvec() + me.words_per_bitvec() <= A::sigma()
                        * me.words_per_bitvec()) by (nonlinear_arith)
                        requires
                            0 <= (c as int) && (c as int) < A::sigma(),
                            0 <= w < me.words_per_bitvec(),
                    ;
                }
                out.push(bw[w]);
                w = w + 1;
            }
            c = c + 1;
            proof {
                assert(out@.len() == o_tabf + (c - 1) * me.words_per_bitvec()
                    + me.words_per_bitvec());
                assert((c - 1) * me.words_per_bitvec() + me.words_per_bitvec() == c
                    * me.words_per_bitvec()) by (nonlinear_arith);
            }
        }
        let ghost o_tabr = o_tabf + A::sigma() * me.words_per_bitvec();
        let mut c: usize = 0;
        while c < sigma
            invariant
                me == *self,
                me.models(sa, sa_rev, rev_bwt, f),
                n == me.n(),
                sigma == A::sigma(),
                o_tabf == 2 * me.n() + 5 + A::sigma() + me.words_per_bitvec() + me.stored_vals(),
                o_tabr == o_tabf + A::sigma() * me.words_per_bitvec(),
                c <= sigma,
                forall|c2: int|
                    0 <= c2 < A::sigma() ==> (
                #[trigger] me.reversed_occurence_table.table@[c2]).words_view().len()
                        == me.words_per_bitvec(),
                out@.len() == o_tabr + c * me.words_per_bitvec(),
                forall|q: int| 0 <= q < out@.len() ==> #[trigger] out@[q] == me.flat_at(q),
            decreases sigma - c,
        {
            let (_bn, bw) = self.reversed_occurence_table.table[c].save();
            let mut w: usize = 0;
            while w < bw.len()
                invariant
                    me == *self,
                    me.models(sa, sa_rev, rev_bwt, f),
                    n == me.n(),
                    sigma == A::sigma(),
                    c < sigma,
                    o_tabf == 2 * me.n() + 5 + A::sigma() + me.words_per_bitvec()
                        + me.stored_vals(),
                    o_tabr == o_tabf + A::sigma() * me.words_per_bitvec(),
                    bw@ == me.reversed_occurence_table.table@[c as int].words_view(),
                    bw@.len() == me.words_per_bitvec(),
                    w <= bw@.len(),
                    out@.len() == o_tabr + c * me.words_per_bitvec() + w,
                    forall|q: int| 0 <= q < out@.len() ==> #[trigger] out@[q] == me.flat_at(q),
                decreases bw@.len() - w,
            {
                proof {
                    vstd::arithmetic::div_mod::lemma_fundamental_div_mod_converse(
                        (c as int) * me.words_per_bitvec() + w,
                        me.words_per_bitvec(),
                        c as int,
                        w as int,
                    );
                    assert(0 <= (c as int) * me.words_per_bitvec() + w && (c as int)
                        * me.words_per_bitvec() + me.words_per_bitvec() <= A::sigma()
                        * me.words_per_bitvec()) by (nonlinear_arith)
                        requires
                            0 <= (c as int) && (c as int) < A::sigma(),
                            0 <= w < me.words_per_bitvec(),
                    ;
                }
                out.push(bw[w]);
                w = w + 1;
            }
            c = c + 1;
            proof {
                assert((c - 1) * me.words_per_bitvec() + me.words_per_bitvec() == c
                    * me.words_per_bitvec()) by (nonlinear_arith);
            }
        }
        proof {
            assert(2 * A::sigma() * me.words_per_bitvec() == A::sigma() * me.words_per_bitvec()
                + A::sigma() * me.words_per_bitvec()) by (nonlinear_arith);
            assert(out@.len() == me.flat_len());
            assert(out@ =~= me.flat_of());
        }
        out
    }

    /// The rebuilt index `b` answers exactly like `idx`: same text,
    /// same counts table, and same occurrence counts on both tables.
    pub open spec fn answers_like(b: Self, idx: Self) -> bool {
        &&& b.wf()
        &&& b.text_view() == idx.text_view()
        &&& b.n() == idx.n()
        &&& b.sent() == idx.sent()
        &&& b.rev_sent() == idx.rev_sent()
        &&& forall|c: int| 0 <= c < A::sigma() ==> #[trigger] b.counts_at(c) == idx.counts_at(c)
        &&& forall|c: int, i: int|
            0 <= c < A::sigma() && 0 <= i <= idx.n() + 1 ==> #[trigger] b.occ_fwd(c, i)
                == idx.occ_fwd(c, i) && b.cum_fwd(c, i) == idx.cum_fwd(c, i) && b.occ_rev(c, i)
                == idx.occ_rev(c, i) && b.cum_rev(c, i) == idx.cum_rev(c, i)
    }

    /// Shape facts of the persisted stream of a well-formed index.
    proof fn lemma_flat_shape(self)
        requires
            self.wf(),
        ensures
            1 <= self.n() <= 0x7FFF_FFFF,
            A::sigma() >= 1,
            self.words_per_bitvec() >= 1,
            self.stored_vals() >= 0,
            A::sigma() * self.words_per_bitvec() >= 0,
            self.flat_len() == 2 * self.n() + 5 + A::sigma() + self.words_per_bitvec()
                + self.stored_vals() + 2 * (A::sigma() * self.words_per_bitvec()),
            self.flat_len() >= 2 * self.n() + 5,
            self.flat_at(0) == self.n() as u64,
            0 <= self.sent() <= self.n(),
            0 <= self.rev_sent() <= self.n(),
            self.flat_at(2 * self.n() + 2) == self.sent() as u64,
            self.flat_at(2 * self.n() + 3) == self.rev_sent() as u64,
            forall|i: int|
                0 <= i < self.n() ==> #[trigger] self.flat_at(1 + i) == self.text@[i] as u64,
            forall|i: int|
                0 <= i <= self.n() ==> #[trigger] self.flat_at(1 + self.n() + i) == self.bwt@[
                    i] as u64,
            forall|c: int|
                0 <= c < A::sigma() ==> #[trigger] self.flat_at(2 * self.n() + 4 + c)
                    == self.counts@[c] as u64,
            self.flat_at(
                2 * self.n() + 4 + A::sigma() + self.words_per_bitvec(),
            ) == self.stored_vals() as u64,
            forall|q: int|
                0 <= q < self.stored_vals() ==> #[trigger] self.flat_at(
                    2 * self.n() + 5 + A::sigma() + self.words_per_bitvec() + q,
                ) == self.sparse_sa.sparse_sa@[q] as u64,
            forall|q: int|
                0 <= q < self.words_per_bitvec() ==> #[trigger] self.flat_at(
                    2 * self.n() + 4 + A::sigma() + q,
                ) == self.sparse_sa.bitvector.words_view()[q],
    {
        let (sa, sa_rev, rev_bwt, f) = choose|
            sa: Seq<int>,
            sa_rev: Seq<int>,
            rev_bwt: Seq<u8>,
            f: int,
        | self.models(sa, sa_rev, rev_bwt, f);
        A::alphabet_facts();
        assert(A::sigma() * self.words_per_bitvec() >= 0 && (2 * A::sigma())
            * self.words_per_bitvec() == 2 * (A::sigma() * self.words_per_bitvec()))
            by (nonlinear_arith)
            requires
                A::sigma() >= 1,
                self.words_per_bitvec() >= 1,
        ;
    }

    /// The rebuilt components of `from_words` match the index whose
    /// stream was read, so the rebuilt index answers identically.
    proof fn lemma_rebuild_matches(
        built: Self,
        idx: Self,
        v: Seq<u64>,
        n: int,
        s: int,
        wl: int,
        vl: int,
    )
        requires
            idx.wf(),
            v == idx.flat_of(),
            s == A::sigma(),
            n == idx.n(),
            wl == idx.words_per_bitvec(),
            vl == idx.stored_vals(),
            built.text@.len() == n,
            forall|q: int| 0 <= q < n ==> #[trigger] built.text@[q] == v[1 + q] as u8,
            built.bwt@.len() == n + 1,
            forall|q: int| 0 <= q < n + 1 ==> #[trigger] built.bwt@[q] == v[1 + n + q] as u8,
            built.normal_occurence_table.sentinel as u64 == v[2 * n + 2],
            built.reversed_occurence_table.sentinel as u64 == v[2 * n + 3],
            built.counts@.len() == s,
            forall|q: int| 0 <= q < s ==> #[trigger] built.counts@[q] as u64 == v[2 * n + 4 + q],
            built.sparse_sa.bitvector.wf(),
            built.sparse_sa.bitvector.counts_valid(),
            built.sparse_sa.bitvector@.len() == n + 1,
            built.sparse_sa.bitvector.words_view().len() == wl,
            forall|q: int|
                0 <= q < wl ==> #[trigger] built.sparse_sa.bitvector.words_view()[q] == v[2 * n + 4
                    + s + q],
            built.sparse_sa.sparse_sa@.len() == vl,
            forall|q: int|
                0 <= q < vl ==> #[trigger] built.sparse_sa.sparse_sa@[q] as u64 == v[2 * n + 5 + s
                    + wl + q],
            built.normal_occurence_table.table@.len() == s,
            forall|c: int|
                0 <= c < s ==> {
                    let bv = #[trigger] built.normal_occurence_table.table@[c];
                    &&& bv.wf()
                    &&& bv.counts_valid()
                    &&& bv@.len() == n + 1
                    &&& bv.words_view().len() == wl
                    &&& forall|w: int|
                        0 <= w < wl ==> #[trigger] bv.words_view()[w] == v[2 * n + 5 + s + wl + vl
                            + c * wl + w]
                },
            built.reversed_occurence_table.table@.len() == s,
            forall|c: int|
                0 <= c < s ==> {
                    let bv = #[trigger] built.reversed_occurence_table.table@[c];
                    &&& bv.wf()
                    &&& bv.counts_valid()
                    &&& bv@.len() == n + 1
                    &&& bv.words_view().len() == wl
                    &&& forall|w: int|
                        0 <= w < wl ==> #[trigger] bv.words_view()[w] == v[2 * n + 5 + s + wl + vl
                            + s * wl + c * wl + w]
                },
        ensures
            Self::answers_like(built, idx),
    {
        let (sa, sa_rev, rev_bwt, f) = choose|
            sa: Seq<int>,
            sa_rev: Seq<int>,
            rev_bwt: Seq<u8>,
            f: int,
        | idx.models(sa, sa_rev, rev_bwt, f);
        A::alphabet_facts();
        idx.lemma_flat_shape();
        idx.sparse_sa.bitvector.lemma_words_shape();
        assert forall|c: int| 0 <= c < s implies (
        #[trigger] idx.normal_occurence_table.table@[c]).words_view().len() == wl && idx.normal_occurence_table.table@[c]@.len() == n + 1 by {
            idx.normal_occurence_table.table@[c].lemma_words_shape();
        }
        assert forall|c: int| 0 <= c < s implies (
        #[trigger] idx.reversed_occurence_table.table@[c]).words_view().len() == wl && idx.reversed_occurence_table.table@[c]@.len() == n + 1 by {
            idx.reversed_occurence_table.table@[c].lemma_words_shape();
        }
        assert(built.text@ =~= idx.text@) by {
            assert forall|q: int| 0 <= q < n implies #[trigger] built.text@[q] == idx.text@[q] by {
                assert(v[1 + q] == idx.flat_at(1 + q));
            }
        }
        assert(built.bwt@ =~= idx.bwt@) by {
            assert forall|q: int| 0 <= q < n + 1 implies #[trigger] built.bwt@[q] == idx.bwt@[
                q] by {
                assert(v[1 + n + q] == idx.flat_at(1 + n + q));
            }
        }
        assert(built.counts@ =~= idx.counts@) by {
            assert forall|q: int| 0 <= q < s implies #[trigger] built.counts@[q] == idx.counts@[
                q] by {
                assert(v[2 * n + 4 + q] == idx.flat_at(2 * n + 4 + q));
            }
        }
        assert(v[2 * n + 2] == idx.flat_at(2 * n + 2));
        assert(v[2 * n + 3] == idx.flat_at(2 * n + 3));
        built.sparse_sa.bitvector.lemma_words_shape();
        assert(built.sparse_sa.bitvector@ =~= idx.sparse_sa.bitvector@) by {
            assert forall|i: int| 0 <= i < n + 1 implies #[trigger] built.sparse_sa.bitvector@[i]
                == idx.sparse_sa.bitvector@[i] by {
                vstd::arithmetic::div_mod::lemma_fundamental_div_mod(i, 64);
                vstd::arithmetic::div_mod::lemma_div_is_ordered(i, n, 64);
                vstd::arithmetic::div_mod::lemma_div_is_ordered(n, n + 1, 64);
                assert(built.sparse_sa.bitvector.words_view()[i / 64] == v[2 * n + 4 + s + i
                    / 64]);
                assert(v[2 * n + 4 + s + i / 64] == idx.flat_at(2 * n + 4 + s + i / 64));
            }
        }
        assert(built.sparse_sa.sparse_sa@ =~= idx.sparse_sa.sparse_sa@) by {
            assert forall|q: int| 0 <= q < vl implies #[trigger] built.sparse_sa.sparse_sa@[q]
                == idx.sparse_sa.sparse_sa@[q] by {
                assert(v[2 * n + 5 + s + wl + q] == idx.flat_at(2 * n + 5 + s + wl + q));
            }
        }
        let o_tabf = 2 * n + 5 + s + wl + vl;
        assert forall|c: int| 0 <= c < s implies (#[trigger] built.normal_occurence_table.table@[
            c])@ =~= idx.normal_occurence_table.table@[c]@ by {
            assert forall|i: int|
                0 <= i < n + 1 implies #[trigger] built.normal_occurence_table.table@[c]@[i]
                == idx.normal_occurence_table.table@[c]@[i] by {
                built.normal_occurence_table.table@[c].lemma_words_shape();
                idx.normal_occurence_table.table@[c].lemma_words_shape();
                vstd::arithmetic::div_mod::lemma_fundamental_div_mod(i, 64);
                vstd::arithmetic::div_mod::lemma_div_is_ordered(i, n, 64);
                vstd::arithmetic::div_mod::lemma_div_is_ordered(n, n + 1, 64);
                let w = i / 64;
                let q = o_tabf + c * wl + w;
                vstd::arithmetic::div_mod::lemma_fundamental_div_mod_converse(
                    c * wl + w,
                    wl,
                    c,
                    w,
                );
                assert(0 <= c * wl + w && c * wl + wl <= s * wl) by (nonlinear_arith)
                    requires
                        0 <= c < s,
                        0 <= w < wl,
                ;
                assert(built.normal_occurence_table.table@[c].words_view()[w] == v[q]);
                assert(v[q] == idx.flat_at(q));
            }
        }
        let o_tabr = o_tabf + s * wl;
        assert forall|c: int| 0 <= c < s implies (#[trigger] built.reversed_occurence_table.table@[
            c])@ =~= idx.reversed_occurence_table.table@[c]@ by {
            assert forall|i: int|
                0 <= i < n + 1 implies #[trigger] built.reversed_occurence_table.table@[c]@[i]
                == idx.reversed_occurence_table.table@[c]@[i] by {
                built.reversed_occurence_table.table@[c].lemma_words_shape();
                idx.reversed_occurence_table.table@[c].lemma_words_shape();
                vstd::arithmetic::div_mod::lemma_fundamental_div_mod(i, 64);
                vstd::arithmetic::div_mod::lemma_div_is_ordered(i, n, 64);
                vstd::arithmetic::div_mod::lemma_div_is_ordered(n, n + 1, 64);
                let w = i / 64;
                let q = o_tabr + c * wl + w;
                vstd::arithmetic::div_mod::lemma_fundamental_div_mod_converse(
                    c * wl + w,
                    wl,
                    c,
                    w,
                );
                assert(0 <= c * wl + w && c * wl + wl <= s * wl) by (nonlinear_arith)
                    requires
                        0 <= c < s,
                        0 <= w < wl,
                ;
                assert(built.reversed_occurence_table.table@[c].words_view()[w] == v[q]);
                assert(v[q] == idx.flat_at(q));
            }
        }
        Self::lemma_models_transfer(idx, built, sa, sa_rev, rev_bwt, f);
        assert forall|c: int, i: int| 0 <= c < A::sigma() && 0 <= i <= idx.n() + 1 implies
            #[trigger] built.occ_fwd(c, i) == idx.occ_fwd(c, i) && built.cum_fwd(c, i)
            == idx.cum_fwd(c, i) && built.occ_rev(c, i) == idx.occ_rev(c, i) && built.cum_rev(
            c,
            i,
        ) == idx.cum_rev(c, i) by {
            built.normal_occurence_table.lemma_occ_count_congruence(
                idx.normal_occurence_table,
                c,
                i,
            );
            built.reversed_occurence_table.lemma_occ_count_congruence(
                idx.reversed_occurence_table,
                c,
                i,
            );
        }
    }

    /// The size and range checks a persisted word stream must pass:
    /// a plausible text length, section sizes that fit together, and
    /// every field within its type's range.
    pub open spec fn stream_sized_ok(v: Seq<u64>) -> bool {
        &&& v.len() >= 1
        &&& 1 <= v[0] <= 0x7FFF_FFFF
        &&& {
            let n = v[0] as int;
            let s = A::sigma();
            let wl = (n + 1) / 64 + 1;
            let o_vl = 2 * n + 4 + s + wl;
            let base = o_vl + 1 + 2 * (s * wl);
            &&& v.len() >= base
            &&& v[o_vl] == v.len() - base
            &&& (forall|i: int| 0 <= i < n ==> #[trigger] v[1 + i] <= 255)
            &&& (forall|i: int| 0 <= i < n + 1 ==> #[trigger] v[1 + n + i] <= 255)
            &&& v[2 * n + 2] <= v[0]
            &&& v[2 * n + 3] <= v[0]
            &&& (forall|c: int| 0 <= c < s ==> #[trigger] v[2 * n + 4 + c] <= usize::MAX)
            &&& (forall|q: int|
                0 <= q < v.len() - base ==> #[trigger] v[o_vl + 1 + q] <= u32::MAX)
        }
    }

    /// The words of a byte stream, eight little-endian bytes each.
    pub open spec fn words_of(bytes: Seq<u8>) -> Seq<u64> {
        Seq::new((bytes.len() / 8) as nat, |w: int| crate::io::dec_u64(bytes, 8 * w))
    }

    /// Rebuild an index from its persisted word stream.  Streams whose

    /// field sizes do not fit together are rejected; the stream of any
    /// well-formed index is accepted and yields an index that answers
    /// every query identically.
    #[verifier::rlimit(100)]
    fn from_words(v: &Vec<u64>) -> (r: Result<Self, Error>)
        ensures
            forall|idx: Self|
                idx.wf() && v@ == #[trigger] idx.flat_of() ==> (r matches Ok(b)
                    && Self::answers_like(b, idx)),
            r matches Err(e) ==> e == Error::DeserializationMismatch,
            r is Ok <==> Self::stream_sized_ok(v@),
    {
        proof {
            A::alphabet_facts();
        }
        let alphabet: A = Default::default();
        let sigma = alphabet.len();
        let total = v.len();
        if total < 1 {
            proof {
                assert forall|idx: Self| idx.wf() && v@ == #[trigger] idx.flat_of() implies
                    false by {
                    idx.lemma_flat_shape();
                }
            }
            return Err(Error::DeserializationMismatch);
        }
        let n64 = v[0];
        if n64 < 1 || n64 > 0x7FFF_FFFF {
            proof {
                assert forall|idx: Self| idx.wf() && v@ == #[trigger] idx.flat_of() implies
                    false by {
                    idx.lemma_flat_shape();
                    assert(v@[0] == idx.flat_at(0));
                }
            }
            return Err(Error::DeserializationMismatch);
        }
        let n = n64 as usize;
        let wl64 = (n64 + 1) / 64 + 1;
        let s64 = sigma as u64;
        proof {
            assert((n64 + 1) / 64 <= n64 + 1) by (nonlinear_arith)
                requires
                    n64 >= 1,
            ;
            assert(s64 * wl64 <= 512 * (0x7FFF_FFFFu64 + 2)) by (nonlinear_arith)
                requires
                    s64 <= 512,
                    wl64 <= 0x7FFF_FFFFu64 + 2,
            ;
        }
        let o_vl64 = 2 * n64 + 4 + s64 + wl64;
        let base64 = o_vl64 + 1 + 2 * (s64 * wl64);
        if (total as u64) < base64 {
            proof {
                assert forall|idx: Self| idx.wf() && v@ == #[trigger] idx.flat_of() implies
                    false by {
                    idx.lemma_flat_shape();
                    assert(v@[0] == idx.flat_at(0));
                }
            }
            return Err(Error::DeserializationMismatch);
        }
        let vl64 = v[o_vl64 as usize];
        if vl64 != (total as u64) - base64 {
            proof {
                assert forall|idx: Self| idx.wf() && v@ == #[trigger] idx.flat_of() implies
                    false by {
                    idx.lemma_flat_shape();
                    assert(v@[0] == idx.flat_at(0));
                    assert(v@[idx.flat_len() - 1 - 2 * (A::sigma() * idx.words_per_bitvec())
                        - idx.stored_vals()] == idx.flat_at(
                        idx.flat_len() - 1 - 2 * (A::sigma() * idx.words_per_bitvec())
                            - idx.stored_vals(),
                    ));
                }
            }
            return Err(Error::DeserializationMismatch);
        }
        let vl = vl64 as usize;
        let wl = wl64 as usize;
        proof {
            assert(2 * (n as int) + 5 + (sigma as int) + (wl as int) + (vl as int) + 2 * ((
            sigma as int) * (wl as int)) == total as int);
        }

        let mut text_bytes: Vec<u8> = Vec::new();
        let mut i: usize = 0;
        while i < n
            invariant
                i <= n,
                total == v@.len(),
                1 + n <= total,
                n64 == v@[0],
                n == n64 as usize,
                1 <= n64 <= 0x7FFF_FFFF,
                sigma as int == A::sigma(),
                wl as int == (n as int + 1) / 64 + 1,
                text_bytes@.len() == i,
                forall|q: int| 0 <= q < i ==> #[trigger] v@[1 + q] <= 255,
                forall|q: int| 0 <= q < i ==> #[trigger] text_bytes@[q] == v@[1 + q] as u8,
            decreases n - i,
        {
            let x = v[1 + i];
            if x > 255 {
                proof {
                    assert forall|idx: Self| idx.wf() && v@ == #[trigger] idx.flat_of() implies
                        false by {
                        idx.lemma_flat_shape();
                        assert(v@[0] == idx.flat_at(0));
                        assert(v@[1 + i as int] == idx.flat_at(1 + i as int));
                    }
                }
                return Err(Error::DeserializationMismatch);
            }
            text_bytes.push(x as u8);
            i = i + 1;
        }
        let mut bwt_bytes: Vec<u8> = Vec::new();
        let mut i: usize = 0;
        while i < n + 1
            invariant
                i <= n + 1,
                total == v@.len(),
                2 * n + 2 <= total,
                n64 == v@[0],
                n == n64 as usize,
                1 <= n64 <= 0x7FFF_FFFF,
                sigma as int == A::sigma(),
                wl as int == (n as int + 1) / 64 + 1,
                bwt_bytes@.len() == i,
                forall|q: int| 0 <= q < i ==> #[trigger] v@[1 + n + q] <= 255,
                forall|q: int| 0 <= q < i ==> #[trigger] bwt_bytes@[q] == v@[1 + n + q] as u8,
            decreases n + 1 - i,
        {
            let x = v[1 + n + i];
            if x > 255 {
                proof {
                    assert forall|idx: Self| idx.wf() && v@ == #[trigger] idx.flat_of() implies
                        false by {
                        idx.lemma_flat_shape();
                        assert(v@[0] == idx.flat_at(0));
                        assert(v@[1 + n as int + i as int] == idx.flat_at(1 + n as int + i as int));
                    }
                }
                return Err(Error::DeserializationMismatch);
            }
            bwt_bytes.push(x as u8);
            i = i + 1;
        }
        let sf64 = v[2 * n + 2];
        let sr64 = v[2 * n + 3];
        if sf64 > n64 || sr64 > n64 {
            proof {
                assert forall|idx: Self| idx.wf() && v@ == #[trigger] idx.flat_of() implies
                    false by {
                    idx.lemma_flat_shape();
                    assert(v@[0] == idx.flat_at(0));
                    assert(v@[2 * n as int + 2] == idx.flat_at(2 * n as int + 2));
                    assert(v@[2 * n as int + 3] == idx.flat_at(2 * n as int + 3));
                }
            }
            return Err(Error::DeserializationMismatch);
        }
        let mut counts: Vec<usize> = Vec::new();
        let mut c: usize = 0;
        while c < sigma
            invariant
                c <= sigma,
                total == v@.len(),
                2 * n + 4 + sigma <= total,
                n64 == v@[0],
                n == n64 as usize,
                1 <= n64 <= 0x7FFF_FFFF,
                sigma as int == A::sigma(),
                wl as int == (n as int + 1) / 64 + 1,
                counts@.len() == c,
                forall|q: int| 0 <= q < c ==> #[trigger] v@[2 * n + 4 + q] <= usize::MAX,
                forall|q: int| 0 <= q < c ==> #[trigger] counts@[q] == v@[2 * n + 4 + q] as usize,
            decreases sigma - c,
        {
            let x = v[2 * n + 4 + c];
            if x > usize::MAX as u64 {
                proof {
                    assert forall|idx: Self| idx.wf() && v@ == #[trigger] idx.flat_of() implies
                        false by {
                        idx.lemma_flat_shape();
                        assert(v@[0] == idx.flat_at(0));
                        assert(v@[2 * n as int + 4 + c as int] == idx.flat_at(
                            2 * n as int + 4 + c as int,
                        ));
                    }
                }
                return Err(Error::DeserializationMismatch);
            }
            counts.push(x as usize);
            c = c + 1;
        }
        let o_spw = 2 * n + 4 + sigma;
        let mut spw: Vec<u64> = Vec::new();
        let mut w: usize = 0;
        while w < wl
            invariant
                w <= wl,
                total == v@.len(),
                o_spw == 2 * n + 4 + sigma,
                o_spw + wl <= total,
                spw@.len() == w,
                forall|q: int| 0 <= q < w ==> #[trigger] spw@[q] == v@[o_spw + q],
            decreases wl - w,
        {
            spw.push(v[o_spw + w]);
            w = w + 1;
        }
        proof {
            assert((n as int + 1) / 64 + 1 == wl as int);
        }
        let sparse_bv = match Bitvec::from_words(n + 1, spw) {
            Some(bv) => bv,
            None => {
                proof {
                    assert(false);
                }
                return Err(Error::DeserializationMismatch);
            },
        };
        let o_vals = o_spw + wl + 1;
        let mut vals: Vec<u32> = Vec::new();
        let mut q2: usize = 0;
        while q2 < vl
            invariant
                q2 <= vl,
                total == v@.len(),
                o_vals == 2 * n + 5 + sigma + wl,
                o_vals + vl <= total,
                vl as int == v@[2 * n + 4 + sigma + wl] as int,
                n64 == v@[0],
                n == n64 as usize,
                1 <= n64 <= 0x7FFF_FFFF,
                sigma as int == A::sigma(),
                wl as int == (n as int + 1) / 64 + 1,
                vals@.len() == q2,
                forall|q: int| 0 <= q < q2 ==> #[trigger] v@[o_vals + q] <= u32::MAX,
                forall|q: int| 0 <= q < q2 ==> #[trigger] vals@[q] == v@[o_vals + q] as u32,
            decreases vl - q2,
        {
            let x = v[o_vals + q2];
            if x > u32::MAX as u64 {
                proof {
                    assert forall|idx: Self| idx.wf() && v@ == #[trigger] idx.flat_of() implies
                        false by {
                        idx.lemma_flat_shape();
                        assert(v@[0] == idx.flat_at(0));
                        assert(v@[o_vals as int + q2 as int] == idx.flat_at(
                            o_vals as int + q2 as int,
                        ));
                    }
                }
                return Err(Error::DeserializationMismatch);
            }
            vals.push(x as u32);
            q2 = q2 + 1;
        }
        let o_tabf = o_vals + vl;
        let mut table_f: Vec<Bitvec> = Vec::new();
        let mut c: usize = 0;
        while c < sigma
            invariant
                c <= sigma,
                total == v@.len(),
                o_tabf == 2 * n + 5 + sigma + wl + vl,
                o_tabf + 2 * (sigma * wl) <= total,
                wl as int == (n as int + 1) / 64 + 1,
                n + 1 + 64 <= u64::MAX,
                table_f@.len() == c,
                forall|c2: int|
                    0 <= c2 < c ==> {
                        let bv = #[trigger] table_f@[c2];
                        &&& bv.wf()
                        &&& bv.counts_valid()
                        &&& bv@.len() == n + 1
                        &&& bv.words_view().len() == wl
                        &&& forall|w2: int|
                            0 <= w2 < wl ==> #[trigger] bv.words_view()[w2] == v@[o_tabf + c2 * (
                            wl as int) + w2]
                    },
            decreases sigma - c,
        {
            let mut bws: Vec<u64> = Vec::new();
            let mut w: usize = 0;
            proof {
                assert((c as int) * (wl as int) + wl as int <= (sigma as int) * (wl as int) && 0
                    <= (c as int) * (wl as int)) by (nonlinear_arith)
                    requires
                        0 <= (c as int) && (c as int) < sigma as int,
                        0 < wl as int,
                ;
            }
            while w < wl
                invariant
                    w <= wl,
                    total == v@.len(),
                    c < sigma,
                    o_tabf + 2 * (sigma * wl) <= total,
                    (c as int) * (wl as int) + wl as int <= (sigma as int) * (wl as int),
                    bws@.len() == w,
                    forall|q: int|
                        0 <= q < w ==> #[trigger] bws@[q] == v@[o_tabf + (c as int) * (wl as int)
                            + q],
                decreases wl - w,
            {
                bws.push(v[o_tabf + c * wl + w]);
                w = w + 1;
            }
            let bv = match Bitvec::from_words(n + 1, bws) {
                Some(bv) => bv,
                None => {
                    proof {
                        assert(false);
                    }
                    return Err(Error::DeserializationMismatch);
                },
            };
            table_f.push(bv);
            c = c + 1;
        }
        let o_tabr = o_tabf + sigma * wl;
        let mut table_r: Vec<Bitvec> = Vec::new();
        let mut c: usize = 0;
        while c < sigma
            invariant
                c <= sigma,
                total == v@.len(),
                o_tabf == 2 * n + 5 + sigma + wl + vl,
                o_tabr == o_tabf + sigma * wl,
                o_tabf + 2 * (sigma * wl) <= total,
                wl as int == (n as int + 1) / 64 + 1,
                n + 1 + 64 <= u64::MAX,
                table_r@.len() == c,
                forall|c2: int|
                    0 <= c2 < c ==> {
                        let bv = #[trigger] table_r@[c2];
                        &&& bv.wf()
                        &&& bv.counts_valid()
                        &&& bv@.len() == n + 1
                        &&& bv.words_view().len() == wl
                        &&& forall|w2: int|
                            0 <= w2 < wl ==> #[trigger] bv.words_view()[w2] == v@[o_tabr + c2 * (
                            wl as int) + w2]
                    },
            decreases sigma - c,
        {
            let mut bws: Vec<u64> = Vec::new();
            let mut w: usize = 0;
            proof {
                assert((c as int) * (wl as int) + wl as int <= (sigma as int) * (wl as int) && 0
                    <= (c as int) * (wl as int)) by (nonlinear_arith)
                    requires
                        0 <= (c as int) && (c as int) < sigma as int,
                        0 < wl as int,
                ;
            }
            while w < wl
                invariant
                    w <= wl,
                    total == v@.len(),
                    c < sigma,
                    o_tabr == o_tabf + sigma * wl,
                    o_tabf + 2 * (sigma * wl) <= total,
                    (c as int) * (wl as int) + wl as int <= (sigma as int) * (wl as int),
                    bws@.len() == w,
                    forall|q: int|
                        0 <= q < w ==> #[trigger] bws@[q] == v@[o_tabr + (c as int) * (wl as int)
                            + q],
                decreases wl - w,
            {
                bws.push(v[o_tabr + c * wl + w]);
                w = w + 1;
            }
            let bv = match Bitvec::from_words(n + 1, bws) {
                Some(bv) => bv,
                None => {
                    proof {
                        assert(false);
                    }
                    return Err(Error::DeserializationMismatch);
                },
            };
            table_r.push(bv);
            c = c + 1;
        }
        let built = BidirectionalFMIndex {
            text: AlphabetString { bytes: text_bytes, alphabet: Default::default() },
            bwt: AlphabetString { bytes: bwt_bytes, alphabet: Default::default() },
            counts,
            sparse_sa: SparseSuffixArray { bitvector: sparse_bv, sparse_sa: vals },
            normal_occurence_table: OccurenceTable { table: table_f, sentinel: sf64 as usize },
            reversed_occurence_table: OccurenceTable { table: table_r, sentinel: sr64 as usize },
        };
        proof {
            assert forall|idx: Self| idx.wf() && v@ == #[trigger] idx.flat_of() implies
                Self::answers_like(built, idx) by {
                idx.lemma_flat_shape();
                assert(v@[0] == idx.flat_at(0));
                assert(n as int == idx.n());
                assert(wl as int == idx.words_per_bitvec());
                let o_vl = 2 * (n as int) + 4 + A::sigma() + (wl as int);
                assert(idx.stored_vals() <= v@.len());
                assert(v@[o_vl] == idx.flat_at(o_vl));
                assert(vl as int == idx.stored_vals());
                assert forall|c2: int| 0 <= c2 < sigma as int implies {
                    let bv = #[trigger] table_f@[c2];
                    forall|w2: int|
                        0 <= w2 < wl ==> #[trigger] bv.words_view()[w2] == v@[2 * (n as int) + 5
                            + (sigma as int) + (wl as int) + (vl as int) + c2 * (wl as int) + w2]
                } by {
                    assert(o_tabf as int == 2 * (n as int) + 5 + (sigma as int) + (wl as int) + (
                    vl as int));
                }
                assert forall|c2: int| 0 <= c2 < sigma as int implies {
                    let bv = #[trigger] table_r@[c2];
                    forall|w2: int|
                        0 <= w2 < wl ==> #[trigger] bv.words_view()[w2] == v@[2 * (n as int) + 5
                            + (sigma as int) + (wl as int) + (vl as int) + (sigma as int) * (
                        wl as int) + c2 * (wl as int) + w2]
                } by {
                    assert(o_tabr as int == 2 * (n as int) + 5 + (sigma as int) + (wl as int) + (
                    vl as int) + (sigma as int) * (wl as int));
                }
                Self::lemma_rebuild_matches(
                    built,
                    idx,
                    v@,
                    n as int,
                    sigma as int,
                    wl as int,
                    vl as int,
                );
            }
        }
        Ok(built)
    }

    /// Serialize the whole index into a little-endian byte stream that
    /// `from_bin` reads back.
    pub fn to_bin(&self) -> (r: Vec<u8>)
        requires
            self.wf(),
            self.flat_len() * 8 <= usize::MAX,
        ensures
            r@ == self.spec_bytes(),
    {
        proof {
            self.lemma_flat_shape();
            assert(self.flat_len() <= self.flat_len() * 8) by (nonlinear_arith)
                requires
                    self.flat_len() >= 0,
            ;
        }
        let words = self.to_words();
        let mut out: Vec<u8> = Vec::new();
        crate::io::write_words(&mut out, &words);
        out
    }

    /// Serialize the index if its byte stream fits in memory on this
    /// platform; the check that `to_bin` asks of its callers, made
    /// executable.
    pub fn try_to_bin(&self) -> (r: Option<Vec<u8>>)
        requires
            self.wf(),
        ensures
            r is Some <==> self.flat_len() * 8 <= usize::MAX,
            r matches Some(v) ==> v@ == self.spec_bytes(),
    {
        let ghost (sa, sa_rev, rev_bwt, f) = choose|sa: Seq<int>, sa_rev: Seq<int>, rev_bwt: Seq<
            u8,
        >, f: int| self.models(sa, sa_rev, rev_bwt, f);
        proof {
            A::alphabet_facts();
            self.lemma_flat_shape();
            crate::bitvector::lemma_count_bits_bound(
                self.sparse_sa.bitvector@,
                self.n() + 1,
            );
        }
        let n = self.text.len() as u64;
        let alphabet: A = Default::default();
        let s = alphabet.len() as u64;
        let wl = (n + 1) / 64 + 1;
        let vl = self.sparse_sa.sparse_sa.len() as u64;
        proof {
            assert(s * wl <= 512 * (0x7FFF_FFFFu64 + 2)) by (nonlinear_arith)
                requires
                    s <= 512,
                    wl <= 0x7FFF_FFFFu64 + 2,
            ;
        }
        let total = 2 * n + 5 + s + wl + vl + 2 * (s * wl);
        proof {
            assert(2 * (A::sigma() * self.words_per_bitvec()) == 2 * A::sigma()
                * self.words_per_bitvec()) by (nonlinear_arith);
            assert(total as int == self.flat_len());
        }
        if total <= (usize::MAX as u64) / 8 {
            Some(self.to_bin())
        } else {
            None
        }
    }

    /// Law: deserializing the serialization of any well-formed index

    /// succeeds and produces an index that answers every query
    /// identically.  Byte streams whose field sizes do not fit
    /// together are rejected instead.
    pub fn from_bin(bytes: &Vec<u8>) -> (r: Result<Self, Error>)
        ensures
            forall|idx: Self|
                idx.wf() && bytes@ == #[trigger] idx.spec_bytes() ==> (r matches Ok(b)
                    && Self::answers_like(b, idx)),
            r matches Err(e) ==> e == Error::DeserializationMismatch,
            r is Ok <==> (bytes@.len() % 8 == 0 && Self::stream_sized_ok(Self::words_of(bytes@))),
            bytes@.len() % 8 != 0 ==> r is Err,
            bytes@.len() < 8 ==> r is Err,
    {
        match crate::io::read_words(bytes) {
            None => {
                proof {
                    assert forall|idx: Self|
                        idx.wf() && bytes@ == #[trigger] idx.spec_bytes() implies false by {
                        assert(bytes@ == crate::io::enc_words(idx.flat_of()));
                    }
                }
                Err(Error::DeserializationMismatch)
            },
            Some(words) => {
                proof {
                    assert(words@ =~= Self::words_of(bytes@)) by {
                        vstd::arithmetic::div_mod::lemma_fundamental_div_mod(
                            bytes@.len() as int,
                            8,
                        );
                    }
                }
                let r = Self::from_words(&words);
                proof {
                    assert forall|idx: Self|
                        idx.wf() && bytes@ == #[trigger] idx.spec_bytes() implies (r matches Ok(b)
                        && Self::answers_like(b, idx)) by {
                        assert(bytes@ == crate::io::enc_words(idx.flat_of()));
                        assert(words@ == idx.flat_of());
                    }
                }
                r
            },
        }
    }
}

} // verus!
