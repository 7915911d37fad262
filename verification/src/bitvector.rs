use vstd::prelude::*;

verus! {

broadcast use vstd::arithmetic::div_mod::group_div_basics;

/// Whether bit `k` of the word `x` is set.
pub open spec fn bit_set(x: u64, k: int) -> bool {
    (x >> (k as u64)) & 1u64 == 1u64
}

/// Number of set bits among the low `k` bits of the word `x`.
pub open spec fn count_low_bits(x: u64, k: int) -> int
    decreases k,
{
    if k <= 0 {
        0
    } else {
        count_low_bits(x, k - 1) + (if bit_set(x, k - 1) {
            1int
        } else {
            0int
        })
    }
}

/// Number of `true` entries of `bits` in positions `[0, i)`.
pub open spec fn count_bits(bits: Seq<bool>, i: int) -> int
    decreases i,
{
    if i <= 0 {
        0
    } else {
        count_bits(bits, i - 1) + (if bits[i - 1] {
            1int
        } else {
            0int
        })
    }
}

/// Total number of set bits in the words `[a, b)`.
pub open spec fn word_pop_range(words: Seq<u64>, a: int, b: int) -> int
    decreases b - a,
{
    if b <= a {
        0
    } else {
        word_pop_range(words, a, b - 1) + count_low_bits(words[b - 1], 64)
    }
}

/// Extract the 9-bit slice number `t` of a packed level-2 counter word.
pub open spec fn extract9(p: u64, t: int) -> u64 {
    (p >> ((9 * t) as u64)) & 0x1FFu64
}

pub proof fn lemma_count_low_bits_bound(x: u64, k: int)
    ensures
        0 <= count_low_bits(x, k) <= (if k >= 0 {
            k
        } else {
            0
        }),
    decreases k,
{
    if k > 0 {
        lemma_count_low_bits_bound(x, k - 1);
    }
}

pub proof fn lemma_count_bits_bound(bits: Seq<bool>, i: int)
    ensures
        0 <= count_bits(bits, i) <= (if i >= 0 {
            i
        } else {
            0
        }),
    decreases i,
{
    if i > 0 {
        lemma_count_bits_bound(bits, i - 1);
    }
}

/// Prefix counts grow with the prefix.
pub proof fn lemma_count_bits_monotone(bits: Seq<bool>, i: int, j: int)
    requires
        i <= j,
    ensures
        count_bits(bits, i) <= count_bits(bits, j),
    decreases j,
{
    if j > i && j > 0 {
        lemma_count_bits_monotone(bits, i, j - 1);
    }
}

/// Counting the same bits in two sequences that agree below `i`.
pub proof fn lemma_count_bits_congruence(b1: Seq<bool>, b2: Seq<bool>, i: int)
    requires
        forall|j: int| 0 <= j < i ==> b1[j] == b2[j],
    ensures
        count_bits(b1, i) == count_bits(b2, i),
    decreases i,
{
    if i > 0 {
        lemma_count_bits_congruence(b1, b2, i - 1);
    }
}

pub proof fn lemma_word_pop_range_bound(words: Seq<u64>, a: int, b: int)
    ensures
        0 <= word_pop_range(words, a, b) <= (if b >= a {
            64 * (b - a)
        } else {
            0
        }),
    decreases b - a,
{
    if b > a {
        lemma_word_pop_range_bound(words, a, b - 1);
        lemma_count_low_bits_bound(words[b - 1], 64);
    }
}

pub proof fn lemma_word_pop_range_add(words: Seq<u64>, a: int, b: int, c: int)
    requires
        a <= b <= c,
    ensures
        word_pop_range(words, a, c) == word_pop_range(words, a, b) + word_pop_range(words, b, c),
    decreases c - b,
{
    if c > b {
        lemma_word_pop_range_add(words, a, b, c - 1);
    }
}

/// A bit-prefix count decomposes into whole words plus a partial word.
pub proof fn lemma_count_bits_split(bits: Seq<bool>, words: Seq<u64>, p: int)
    requires
        0 <= p,
        forall|i: int| 0 <= i < p ==> bits[i] == bit_set(words[i / 64], i % 64),
    ensures
        count_bits(bits, p) == word_pop_range(words, 0, p / 64) + count_low_bits(
            words[p / 64],
            p % 64,
        ),
    decreases p,
{
    if p > 0 {
        lemma_count_bits_split(bits, words, p - 1);
        if p % 64 == 0 {
            assert((p - 1) / 64 == p / 64 - 1 && (p - 1) % 64 == 63) by {
                vstd::arithmetic::div_mod::lemma_fundamental_div_mod(p, 64);
                vstd::arithmetic::div_mod::lemma_fundamental_div_mod(p - 1, 64);
            }
            assert(count_low_bits(words[p / 64 - 1], 64) == count_low_bits(words[p / 64 - 1], 63)
                + (if bit_set(words[p / 64 - 1], 63) {
                1int
            } else {
                0int
            }));
        } else {
            assert((p - 1) / 64 == p / 64 && (p - 1) % 64 == p % 64 - 1) by {
                vstd::arithmetic::div_mod::lemma_fundamental_div_mod(p, 64);
                vstd::arithmetic::div_mod::lemma_fundamental_div_mod(p - 1, 64);
            }
        }
    }
}

/// Counts bits set in a 64-bit word.
///
/// Relies on `bitintr::Popcnt::popcnt` for `u64`: it returns the population
/// count of its argument (the number of set bits), via the hardware
/// instruction where available.
#[verifier::external_body]
fn popcount_word(x: u64) -> (r: u64)
    ensures
        r == count_low_bits(x, 64),
{
    bitintr::Popcnt::popcnt(x)
}

/// Bit `j` of a word shifted left twice (first by one, then by `63 - b`)
/// comes from bit `j + b - 64` of the original word.
proof fn bv_shift_high(x: u64, b: u64, k: u64)
    by (bit_vector)
    requires
        b < 64,
        k < b,
    ensures
        (((x << 1u64) << ((63 - b) as u64)) >> ((64 - b + k) as u64)) & 1u64 == (x >> k) & 1u64,
{
}

/// The low `64 - b` bits of the doubly shifted word are clear.
proof fn bv_shift_low(x: u64, b: u64, j: u64)
    by (bit_vector)
    requires
        b < 64,
        j + b < 64,
    ensures
        (((x << 1u64) << ((63 - b) as u64)) >> j) & 1u64 == 0u64,
{
}

/// If the low `t` bits of `y` are clear and bits `off..off+m` of `y` copy
/// bits `0..m` of `x`, the counts line up.
proof fn lemma_clb_offset(y: u64, x: u64, off: int, m: int)
    requires
        0 <= off,
        0 <= m,
        off + m <= 64,
        count_low_bits(y, off) == 0,
        forall|k: int| 0 <= k < m ==> bit_set(y, off + k) == bit_set(x, k),
    ensures
        count_low_bits(y, off + m) == count_low_bits(x, m),
    decreases m,
{
    if m > 0 {
        lemma_clb_offset(y, x, off, m - 1);
    }
}

proof fn lemma_clb_zero_prefix(y: u64, t: int)
    requires
        0 <= t <= 64,
        forall|j: int| 0 <= j < t ==> !bit_set(y, j),
    ensures
        count_low_bits(y, t) == 0,
    decreases t,
{
    if t > 0 {
        lemma_clb_zero_prefix(y, t - 1);
    }
}

/// The double shift `(x << 1) << (63 - b)` keeps exactly the low `b` bits
/// of `x`, so its population count is the partial count below `b`.
proof fn lemma_level3_shift(x: u64, b: u64)
    requires
        b < 64,
    ensures
        count_low_bits((x << 1u64) << ((63 - b) as u64), 64) == count_low_bits(x, b as int),
{
    let y = (x << 1u64) << ((63 - b) as u64);
    assert forall|j: int| 0 <= j < 64 - b implies !bit_set(y, j) by {
        bv_shift_low(x, b, j as u64);
    }
    lemma_clb_zero_prefix(y, 64 - b);
    assert forall|k: int| 0 <= k < b implies bit_set(y, 64 - b + k) == bit_set(x, k) by {
        bv_shift_high(x, b, k as u64);
    }
    lemma_clb_offset(y, x, 64 - b, b as int);
}

/// Packing a fresh 9-bit slice at offset `sh` leaves it extractable and
/// keeps the packed word below the next slice boundary.
proof fn bv_pack_new(p: u64, s: u64, sh: u64, sh2: u64)
    by (bit_vector)
    requires
        p < (1u64 << sh),
        s < 512,
        sh <= 54,
        sh2 == sh + 9,
    ensures
        ((p | (s << sh)) >> sh) & 0x1FFu64 == s,
        (p | (s << sh)) < (1u64 << sh2),
{
}

/// Packing a fresh slice at offset `sh` does not disturb a lower slice.
proof fn bv_pack_old(p: u64, s: u64, sh: u64, sh2: u64)
    by (bit_vector)
    requires
        p < (1u64 << sh),
        s < 512,
        sh <= 54,
        sh2 + 9 <= sh,
    ensures
        ((p | (s << sh)) >> sh2) & 0x1FFu64 == (p >> sh2) & 0x1FFu64,
{
}

/// Bitvector with three-level interleaved rank counters.
///
/// Words hold the bits least-significant first; for every super-block of
/// eight words, `counts` holds one cumulative first-level counter followed
/// by one word packing seven 9-bit second-level counters.
#[derive(Clone, PartialEq, Debug)]
pub struct Bitvec {
    /// Size of the bitvector in bits.
    n: usize,

    /// The packed bits.
    bitvector: Vec<u64>,

    /// Interleaved first and second level counts.
    counts: Vec<u64>,
}

impl View for Bitvec {
    type V = Seq<bool>;

    closed spec fn view(&self) -> Seq<bool> {
        Seq::new(self.n as nat, |i: int| bit_set(self.bitvector@[i / 64], i % 64))
    }
}

impl Bitvec {
    /// Shapes of the internal vectors.
    pub closed spec fn wf(self) -> bool {
        &&& self.bitvector@.len() == self.n as int / 64 + 1
        &&& self.counts@.len() == 2 * ((self.bitvector@.len() + 7) / 8)
        &&& self.n + 64 <= u64::MAX
    }

    /// The counters for the super-block of word `w` reflect the bits.
    pub closed spec fn counters_ok_at(self, w: int) -> bool {
        &&& self.counts@[2 * (w / 8)] == word_pop_range(self.bitvector@, 0, 8 * (w / 8))
        &&& (w % 8 != 0 ==> extract9(self.counts@[2 * (w / 8) + 1], w % 8 - 1) == word_pop_range(
            self.bitvector@,
            8 * (w / 8),
            w,
        ))
    }

    /// The counters reflect the current bits, super-block by super-block.
    pub closed spec fn counts_valid(self) -> bool {
        forall|w: int| 0 <= w < self.bitvector@.len() ==> #[trigger] self.counters_ok_at(w)
    }

    /// Number of set bits in positions `[0, i)`; the model of `rank`.
    pub open spec fn rank_spec(self, i: int) -> int {
        count_bits(self@, i)
    }

    /// Create an all-zero bitvector of `n` bits.
    pub fn new(n: usize) -> (r: Self)
        requires
            n + 64 <= u64::MAX,
        ensures
            r.wf(),
            r.counts_valid(),
            r@.len() == n,
            forall|i: int| 0 <= i < n ==> !(#[trigger] r@[i]),
    {
        let n_words = n / 64 + 1;
        let bitvector: Vec<u64> = vec![0; n_words];
        let counts: Vec<u64> = vec![0; 2 * ((n_words + 7) / 8)];
        let r = Bitvec { n, bitvector, counts };
        proof {
            assert forall|i: int| 0 <= i < n implies !(#[trigger] r@[i]) by {
                assert(r.bitvector@[i / 64] == 0);
                let ju = (i % 64) as u64;
                assert((0u64 >> ju) & 1u64 == 0u64) by (bit_vector);
            }
            assert forall|w: int| 0 <= w < r.bitvector@.len() implies #[trigger] r.counters_ok_at(
                w,
            ) by {
                lemma_zero_word_pop_range(r.bitvector@, 0, 8 * (w / 8));
                lemma_zero_word_pop_range(r.bitvector@, 8 * (w / 8), w);
                let ju = (9 * (w % 8 - 1)) as u64;
                assert((0u64 >> ju) & 0x1FFu64 == 0u64) by (bit_vector);
            }
        }
        r
    }

    /// Get the length of the bitvector.
    pub fn len(&self) -> (l: usize)
        ensures
            l == self@.len(),
    {
        self.n
    }

    /// Check if the bit at a given position is set.
    pub fn get(&self, pos: usize) -> (r: bool)
        requires
            self.wf(),
            pos < self@.len(),
        ensures
            r == self@[pos as int],
    {
        let word: usize = pos / 64;
        let bit: usize = pos % 64;
        let x = self.bitvector[word];
        let r = (x & (1u64 << (bit as u64))) != 0;
        proof {
            let b = bit as u64;
            assert((x & (1u64 << b) != 0) == ((x >> b) & 1u64 == 1u64)) by (bit_vector)
                requires
                    b < 64,
            ;
        }
        r
    }


    /// The packed words, as the persistence layer stores them.
    pub closed spec fn words_view(self) -> Seq<u64> {
        self.bitvector@
    }

    /// A well-formed bitvector stores `len / 64 + 1` words, and its
    /// bits are read from them least-significant first.
    pub proof fn lemma_words_shape(self)
        requires
            self.wf(),
        ensures
            self.words_view().len() == self@.len() as int / 64 + 1,
            self@.len() + 64 <= u64::MAX,
            forall|i: int|
                0 <= i < self@.len() ==> #[trigger] self@[i] == bit_set(
                    self.words_view()[i / 64],
                    i % 64,
                ),
    {
    }

    /// The bit length and the packed words, for persistence.
    pub fn save(&self) -> (r: (usize, Vec<u64>))
        requires
            self.wf(),
        ensures
            r.0 == self@.len(),
            r.1@ == self.words_view(),
    {
        let mut words: Vec<u64> = Vec::new();
        let mut w: usize = 0;
        while w < self.bitvector.len()
            invariant
                w <= self.bitvector@.len(),
                words@.len() == w,
                forall|q: int| 0 <= q < w ==> #[trigger] words@[q] == self.bitvector@[q],
            decreases self.bitvector@.len() - w,
        {
            words.push(self.bitvector[w]);
            w = w + 1;
        }
        proof {
            assert(words@ =~= self.bitvector@);
        }
        (self.n, words)
    }

    /// Rebuild a bitvector of `n` bits from saved words, recomputing
    /// the rank counters.
    pub fn from_words(n: usize, words: Vec<u64>) -> (r: Option<Bitvec>)
        ensures
            r is Some <==> (words@.len() == n as int / 64 + 1 && n + 64 <= u64::MAX),
            r matches Some(bv) ==> {
                &&& bv.wf()
                &&& bv.counts_valid()
                &&& bv@.len() == n
                &&& bv.words_view() == words@
                &&& forall|i: int|
                    0 <= i < n ==> #[trigger] bv@[i] == bit_set(words@[i / 64], i % 64)
            },
    {
        if !(n as u64 <= u64::MAX - 64) {
            return None;
        }
        if words.len() != n / 64 + 1 {
            return None;
        }
        let n_words = words.len();
        let counts: Vec<u64> = vec![0; 2 * ((n_words + 7) / 8)];
        let mut bv = Bitvec { n, bitvector: words, counts };
        bv.calculate_counts();
        Some(bv)
    }

    /// Recompute the rank counters so that they reflect the current bits.
    /// Running it again on unchanged bits leaves the counters unchanged.
    pub fn calculate_counts(&mut self)
        requires
            old(self).wf(),
        ensures
            final(self).wf(),
            final(self).counts_valid(),
            final(self)@ == old(self)@,
            final(self).words_view() == old(self).words_view(),
    {
        let ghost words = self.bitvector@;
        let n_words = self.bitvector.len();
        let mut level1: u64 = 0;
        let mut level2: u64 = 0;
        let mut q: usize = 0;
        let mut w: usize = 0;
        proof {
            assert(64 * (n_words as int) <= self.n + 64) by {
                vstd::arithmetic::div_mod::lemma_fundamental_div_mod(self.n as int, 64);
            }
        }
        while w < n_words
            invariant
                self.wf(),
                self.n == old(self).n,
                self.bitvector@ == words,
                n_words == words.len(),
                64 * (n_words as int) <= self.n + 64,
                w <= n_words,
                q == (if w % 8 == 0 {
                    2 * (w / 8)
                } else {
                    2 * (w / 8) + 2
                }),
                (if w % 8 == 0 {
                    level1 + level2 == word_pop_range(words, 0, w as int)
                } else {
                    level1 == word_pop_range(words, 0, 8 * (w as int / 8)) && level2
                        == word_pop_range(words, 8 * (w as int / 8), w as int)
                }),
                level1 <= 64 * (w as int),
                level2 <= 512,
                forall|w2: int| 0 <= w2 < w ==> #[trigger] self.counters_ok_at(w2),
                w % 8 != 0 ==> self.counts@[2 * (w as int / 8) + 1] < (1u64 << ((9 * (w as int % 8
                    - 1)) as u64)),
            decreases n_words - w,
        {
            let ghost oldbv = *self;
            let ghost pre = self.counts@;
            proof {
                vstd::arithmetic::div_mod::lemma_fundamental_div_mod(w as int, 8);
                vstd::arithmetic::div_mod::lemma_fundamental_div_mod(w as int + 1, 8);
                if w >= 1 {
                    vstd::arithmetic::div_mod::lemma_fundamental_div_mod(w as int - 1, 8);
                }
                vstd::arithmetic::div_mod::lemma_fundamental_div_mod(n_words as int + 7, 8);
                lemma_word_pop_range_bound(words, 0, w as int);
                lemma_word_pop_range_bound(words, 8 * (w as int / 8), w as int);
            }
            if w % 8 == 0 {
                level1 = level1 + level2;
                self.counts[q] = level1;
                self.counts[q + 1] = 0;
                level2 = popcount_word(self.bitvector[w]);
                q = q + 2;
                proof {
                    lemma_count_low_bits_bound(words[w as int], 64);
                    assert(word_pop_range(words, w as int, w as int + 1) == count_low_bits(
                        words[w as int],
                        64,
                    ));
                    assert(0u64 < (1u64 << 0u64)) by (bit_vector);
                    assert(self.counts@ == pre.update(2 * (w as int / 8), level1).update(
                        2 * (w as int / 8) + 1,
                        0u64,
                    ));
                    assert forall|w2: int| 0 <= w2 < w + 1 implies #[trigger] self.counters_ok_at(
                        w2,
                    ) by {
                        if w2 < w as int {
                            vstd::arithmetic::div_mod::lemma_fundamental_div_mod(w2, 8);
                            assert(oldbv.counters_ok_at(w2));
                            assert(w2 / 8 < w as int / 8) by {
                                vstd::arithmetic::div_mod::lemma_div_is_ordered(
                                    w2,
                                    w as int - 1,
                                    8,
                                );
                            }
                            assert(self.counts@[2 * (w2 / 8)] == pre[2 * (w2 / 8)]);
                            assert(self.counts@[2 * (w2 / 8) + 1] == pre[2 * (w2 / 8) + 1]);
                        } else {
                            assert(8 * (w2 / 8) == w as int);
                        }
                    }
                }
            } else {
                let sh = ((w % 8 - 1) * 9) as u64;
                let packed = self.counts[q - 1] | (level2 << sh);
                self.counts[q - 1] = packed;
                proof {
                    let p0 = pre[q - 1];
                    assert(self.counts@ == pre.update(2 * (w as int / 8) + 1, packed));
                    bv_pack_new(p0, level2, sh, (sh + 9) as u64);
                    assert forall|t: int| 0 <= t < w as int % 8 - 1 implies #[trigger] extract9(
                        packed,
                        t,
                    ) == extract9(p0, t) by {
                        bv_pack_old(p0, level2, sh, (9 * t) as u64);
                    }
                    assert(extract9(packed, w as int % 8 - 1) == level2);
                    let sb = 8 * (w as int / 8);
                    assert(oldbv.counters_ok_at(sb)) by {
                        assert(0 <= sb < w as int);
                    }
                    assert(sb / 8 == w as int / 8) by {
                        vstd::arithmetic::div_mod::lemma_fundamental_div_mod(sb, 8);
                    }
                    assert(self.counts@[2 * (w as int / 8)] == pre[2 * (w as int / 8)]);
                    assert(self.counters_ok_at(w as int));
                    assert forall|w2: int| 0 <= w2 < w + 1 implies #[trigger] self.counters_ok_at(
                        w2,
                    ) by {
                        if w2 < w as int {
                            vstd::arithmetic::div_mod::lemma_fundamental_div_mod(w2, 8);
                            assert(oldbv.counters_ok_at(w2));
                            if w2 / 8 == w as int / 8 {
                                assert(self.counts@[2 * (w2 / 8)] == pre[2 * (w2 / 8)]);
                                if w2 % 8 != 0 {
                                    assert(w2 % 8 - 1 < w as int % 8 - 1);
                                    assert(extract9(packed, w2 % 8 - 1) == extract9(
                                        p0,
                                        w2 % 8 - 1,
                                    ));
                                }
                            } else {
                                assert(w2 / 8 < w as int / 8) by {
                                    vstd::arithmetic::div_mod::lemma_div_is_ordered(
                                        w2,
                                        w as int,
                                        8,
                                    );
                                }
                                assert(self.counts@[2 * (w2 / 8)] == pre[2 * (w2 / 8)]);
                                assert(self.counts@[2 * (w2 / 8) + 1] == pre[2 * (w2 / 8) + 1]);
                            }
                        }
                    }
                }
                proof {
                    lemma_count_low_bits_bound(words[w as int], 64);
                }
                level2 = level2 + popcount_word(self.bitvector[w]);
                proof {
                    assert(word_pop_range(words, 8 * (w as int / 8), w as int + 1)
                        == word_pop_range(words, 8 * (w as int / 8), w as int) + count_low_bits(
                        words[w as int],
                        64,
                    ));
                    lemma_word_pop_range_add(words, 0, 8 * (w as int / 8), w as int + 1);
                }
            }
            w = w + 1;
        }
    }

    /// First-level count for word `w`: bits in the preceding super-blocks.
    fn level1_counts(&self, w: usize) -> (r: u64)
        requires
            self.wf(),
            self.counts_valid(),
            w < self.bitvector@.len(),
        ensures
            r == word_pop_range(self.bitvector@, 0, 8 * (w as int / 8)),
    {
        proof {
            assert(self.counters_ok_at(w as int));
            vstd::arithmetic::div_mod::lemma_fundamental_div_mod(w as int, 8);
            vstd::arithmetic::div_mod::lemma_fundamental_div_mod(
                self.bitvector@.len() as int + 7,
                8,
            );
        }
        self.counts[(w / 8) * 2]
    }

    /// Second-level count for word `w`: bits from the start of its
    /// super-block up to (excluding) word `w` itself.
    fn level2_counts(&self, w: usize) -> (r: u64)
        requires
            self.wf(),
            self.counts_valid(),
            w < self.bitvector@.len(),
        ensures
            r == word_pop_range(self.bitvector@, 8 * (w as int / 8), w as int),
    {
        proof {
            assert(self.counters_ok_at(w as int));
            vstd::arithmetic::div_mod::lemma_fundamental_div_mod(w as int, 8);
            vstd::arithmetic::div_mod::lemma_fundamental_div_mod(
                self.bitvector@.len() as int + 7,
                8,
            );
        }
        if w % 8 == 0 {
            0
        } else {
            let sh = ((w % 8 - 1) * 9) as u64;
            (self.counts[(w / 8) * 2 + 1] >> sh) & 0x1FF
        }
    }

    /// Third-level count: set bits of word `w` strictly below bit `b`.
    fn level3_counts(&self, w: usize, b: usize) -> (r: u64)
        requires
            self.wf(),
            w < self.bitvector@.len(),
            b < 64,
        ensures
            r == count_low_bits(self.bitvector@[w as int], b as int),
    {
        let x = self.bitvector[w];
        let r = popcount_word((x << 1u64) << ((63 - b) as u64));
        proof {
            lemma_level3_shift(x, b as u64);
        }
        r
    }

    /// Number of set bits in positions `[0, pos)`, in constant time.
    /// The counters must be current (`calculate_counts` after any `set`).
    pub fn rank(&self, pos: usize) -> (r: usize)
        requires
            self.wf(),
            self.counts_valid(),
            pos <= self@.len(),
        ensures
            r == self.rank_spec(pos as int),
    {
        proof {
            vstd::arithmetic::div_mod::lemma_fundamental_div_mod(pos as int, 64);
            vstd::arithmetic::div_mod::lemma_fundamental_div_mod(self.n as int, 64);
            assert(pos as int / 64 <= self.n as int / 64) by {
                vstd::arithmetic::div_mod::lemma_div_is_ordered(pos as int, self.n as int, 64);
            }
        }
        let w = pos / 64;
        let b = pos % 64;
        let l1c = self.level1_counts(w);
        let l2c = self.level2_counts(w);
        let l3c = self.level3_counts(w, b);
        proof {
            let words = self.bitvector@;
            vstd::arithmetic::div_mod::lemma_fundamental_div_mod(w as int, 8);
            lemma_count_bits_split(self@, words, pos as int);
            lemma_word_pop_range_add(words, 0, 8 * (w as int / 8), w as int);
            lemma_count_bits_bound(self@, pos as int);
        }
        (l1c + (l2c + l3c)) as usize
    }

    /// Set the bit at a position to the given value.  The rank counters
    /// are stale afterwards until `calculate_counts` runs again.
    pub fn set(&mut self, pos: usize, value: bool)
        requires
            old(self).wf(),
            pos < old(self)@.len(),
        ensures
            final(self).wf(),
            final(self)@ =~= old(self)@.update(pos as int, value),
    {
        let w: usize = pos / 64;
        let b: usize = pos % 64;
        let x = self.bitvector[w];
        let y = if value {
            x | (1u64 << (b as u64))
        } else {
            x & !(1u64 << (b as u64))
        };
        self.bitvector[w] = y;
        proof {
            let bb = b as u64;
            assert forall|j: int| 0 <= j < 64 implies bit_set(y, j) == (if j == bb as int {
                value
            } else {
                bit_set(x, j)
            }) by {
                let ju = j as u64;
                if value {
                    assert(((x | (1u64 << bb)) >> ju) & 1u64 == (if ju == bb {
                        1u64
                    } else {
                        (x >> ju) & 1u64
                    })) by (bit_vector)
                        requires
                            bb < 64,
                            ju < 64,
                    ;
                } else {
                    assert(((x & !(1u64 << bb)) >> ju) & 1u64 == (if ju == bb {
                        0u64
                    } else {
                        (x >> ju) & 1u64
                    })) by (bit_vector)
                        requires
                            bb < 64,
                            ju < 64,
                    ;
                }
            }
            assert forall|i: int| 0 <= i < self@.len() implies self@[i] == old(self)@.update(
                pos as int,
                value,
            )[i] by {
                vstd::arithmetic::div_mod::lemma_fundamental_div_mod(i, 64);
                vstd::arithmetic::div_mod::lemma_fundamental_div_mod(pos as int, 64);
                if i / 64 == w as int {
                    assert(bit_set(y, i % 64) == (if i == pos as int {
                        value
                    } else {
                        bit_set(x, i % 64)
                    }));
                }
            }
        }
    }
}

proof fn lemma_zero_word_pop_range(words: Seq<u64>, a: int, b: int)
    requires
        forall|i: int| 0 <= i < words.len() ==> words[i] == 0,
        0 <= a,
        b <= words.len(),
    ensures
        word_pop_range(words, a, b) == 0,
    decreases b,
{
    if b > a {
        lemma_zero_word_pop_range(words, a, b - 1);
        assert(count_low_bits(0u64, 64) == 0) by {
            assert forall|j: int| 0 <= j < 64 implies !bit_set(0u64, j) by {
                let ju = j as u64;
                assert((0u64 >> ju) & 1u64 == 0u64) by (bit_vector);
            }
            lemma_clb_zero_prefix(0u64, 64);
        }
    }
}


/// Law: the rank taken at the full length counts every set bit — it
/// equals the number of positions that hold a set bit.
pub proof fn lemma_rank_full_counts_all(bits: Seq<bool>)
    ensures
        Set::new(|j: int| 0 <= j < bits.len() && bits[j]).finite(),
        count_bits(bits, bits.len() as int) == Set::new(
            |j: int| 0 <= j < bits.len() && bits[j],
        ).len(),
{
    lemma_count_bits_set(bits, bits.len() as int);
}

proof fn lemma_count_bits_set(bits: Seq<bool>, i: int)
    requires
        0 <= i <= bits.len(),
    ensures
        Set::new(|j: int| 0 <= j < i && bits[j]).finite(),
        count_bits(bits, i) == Set::new(|j: int| 0 <= j < i && bits[j]).len(),
    decreases i,
{
    if i == 0 {
        assert(Set::new(|j: int| 0 <= j < 0 && bits[j]) =~= Set::empty());
    } else {
        lemma_count_bits_set(bits, i - 1);
        let prev = Set::new(|j: int| 0 <= j < i - 1 && bits[j]);
        if bits[i - 1] {
            assert(Set::new(|j: int| 0 <= j < i && bits[j]) =~= prev.insert(i - 1));
            assert(!prev.contains(i - 1));
        } else {
            assert(Set::new(|j: int| 0 <= j < i && bits[j]) =~= prev);
        }
    }
}

/// Per-symbol rank structure over a Burrows-Wheeler transform.
///
/// For each symbol index `c` it keeps a bitvector whose bit `i` is set
/// exactly when position `i` is not the sentinel slot and the BWT symbol
/// there has index at most `c`; one rank call per symbol then answers
/// occurrence queries.
pub struct OccurenceTable {
    /// One cumulative bitvector per symbol index.
    pub table: Vec<Bitvec>,

    /// Position of the sentinel inside the BWT.
    pub sentinel: usize,
}

impl OccurenceTable {
    /// Number of symbols covered.
    pub open spec fn sigma(self) -> int {
        self.table@.len() as int
    }

    /// Length of the underlying BWT.
    pub open spec fn len_spec(self) -> int {
        self.table@[0]@.len() as int
    }

    /// Structural well-formedness: cumulative bitvectors of equal length
    /// with current counters, clear at the sentinel slot, and monotone in
    /// the symbol index.
    pub open spec fn wf(self) -> bool {
        &&& self.sigma() >= 1
        &&& 0 <= self.sentinel < self.len_spec()
        &&& forall|c: int|
            0 <= c < self.sigma() ==> (#[trigger] self.table@[c]).wf()
                && self.table@[c].counts_valid() && self.table@[c]@.len() == self.len_spec()
        &&& forall|c: int, j: int|
            0 <= c < self.sigma() - 1 && 0 <= j < self.len_spec()
                ==> ((#[trigger] self.table@[c]@[j]) ==> self.table@[c + 1]@[j])
        &&& forall|c: int|
            0 <= c < self.sigma() ==> !(#[trigger] self.table@[c]@[self.sentinel as int])
    }

    /// Whether position `j` of the BWT carries exactly symbol `c`
    /// (and is not the sentinel slot).
    pub open spec fn has_sym(self, c: int, j: int) -> bool {
        self.table@[c]@[j] && (c == 0 || !self.table@[c - 1]@[j])
    }

    /// Whether position `j` sorts strictly below symbol `c` in the order
    /// that places the sentinel first.
    pub open spec fn below_sym(self, c: int, j: int) -> bool {
        j == self.sentinel as int || (c > 0 && self.table@[c - 1]@[j])
    }

    /// Number of positions `j < i`, other than the sentinel, whose BWT
    /// symbol is exactly `c`.
    pub open spec fn occ_count(self, c: int, i: int) -> int
        decreases i,
    {
        if i <= 0 {
            0
        } else {
            self.occ_count(c, i - 1) + (if self.has_sym(c, i - 1) {
                1int
            } else {
                0int
            })
        }
    }

    /// Number of positions `j < i` that sort strictly below symbol `c`,
    /// the sentinel included.
    pub open spec fn cum_count(self, c: int, i: int) -> int
        decreases i,
    {
        if i <= 0 {
            0
        } else {
            self.cum_count(c, i - 1) + (if self.below_sym(c, i - 1) {
                1int
            } else {
                0int
            })
        }
    }

    proof fn lemma_occ_is_rank_diff(self, c: int, i: int)
        requires
            self.wf(),
            0 <= c < self.sigma(),
            0 <= i <= self.len_spec(),
        ensures
            c == 0 ==> self.occ_count(c, i) == count_bits(self.table@[0]@, i),
            c > 0 ==> self.occ_count(c, i) == count_bits(self.table@[c]@, i) - count_bits(
                self.table@[c - 1]@,
                i,
            ),
        decreases i,
    {
        if i > 0 {
            self.lemma_occ_is_rank_diff(c, i - 1);
        }
    }

    proof fn lemma_cum_is_rank_plus_sentinel(self, c: int, i: int)
        requires
            self.wf(),
            0 <= c < self.sigma(),
            0 <= i <= self.len_spec(),
        ensures
            c == 0 ==> self.cum_count(c, i) == (if (self.sentinel as int) < i {
                1int
            } else {
                0int
            }),
            c > 0 ==> self.cum_count(c, i) == count_bits(self.table@[c - 1]@, i) + (if (
            self.sentinel as int) < i {
                1int
            } else {
                0int
            }),
        decreases i,
    {
        if i > 0 {
            self.lemma_cum_is_rank_plus_sentinel(c, i - 1);
        }
    }

    /// Occurrence counts never exceed the number of positions scanned.
    pub proof fn lemma_occ_count_bounds(self, c: int, i: int)
        ensures
            0 <= self.occ_count(c, i) <= (if i >= 0 {
                i
            } else {
                0
            }),
            0 <= self.cum_count(c, i) <= (if i >= 0 {
                i
            } else {
                0
            }),
        decreases i,
    {
        if i > 0 {
            self.lemma_occ_count_bounds(c, i - 1);
        }
    }

    /// Occurrence counts grow with the scanned prefix.
    pub proof fn lemma_occ_count_monotone(self, c: int, i: int, j: int)
        requires
            i <= j,
        ensures
            self.occ_count(c, i) <= self.occ_count(c, j),
            self.cum_count(c, i) <= self.cum_count(c, j),
        decreases j,
    {
        if j > i && j > 0 {
            self.lemma_occ_count_monotone(c, i, j - 1);
        }
    }

    /// Between two cut points, the rows counted by `cum_count` and
    /// `occ_count` together grow by at most one per row: the two kinds
    /// are disjoint.
    pub proof fn lemma_cum_occ_window(self, c: int, s: int, e: int)
        requires
            self.wf(),
            0 <= c < self.sigma(),
            0 <= s <= e <= self.len_spec(),
        ensures
            0 <= (self.cum_count(c, e) + self.occ_count(c, e)) - (self.cum_count(c, s)
                + self.occ_count(c, s)) <= e - s,
        decreases e,
    {
        if e > s {
            self.lemma_cum_occ_window(c, s, e - 1);
            let j = e - 1;
            assert(!(self.has_sym(c, j) && self.below_sym(c, j)));
        }
    }

    /// Occurrence counts depend only on the stored bits: two tables
    /// with equal bitvector views count alike.
    pub proof fn lemma_occ_count_congruence(self, other: OccurenceTable, c: int, i: int)
        requires
            self.sigma() == other.sigma(),
            self.sentinel == other.sentinel,
            0 <= c < self.sigma(),
            forall|c2: int, j: int|
                0 <= c2 < self.sigma() && 0 <= j < self.len_spec()
                    ==> #[trigger] self.table@[c2]@[j] == other.table@[c2]@[j],
            i <= self.len_spec(),
        ensures
            self.occ_count(c, i) == other.occ_count(c, i),
            self.cum_count(c, i) == other.cum_count(c, i),
        decreases i,
    {
        if i > 0 {
            self.lemma_occ_count_congruence(other, c, i - 1);
            assert(self.table@[c]@[i - 1] == other.table@[c]@[i - 1]);
            if c > 0 {
                assert(self.table@[c - 1]@[i - 1] == other.table@[c - 1]@[i - 1]);
            }
        }
    }

    /// Build the table from a BWT and its sentinel position: bit `i` of
    /// bitvector `c` is set when `i` is not the sentinel and the symbol
    /// at `i` has index at most `c`.
    pub fn from_bwt<A: crate::alphabet::Alphabet>(
        bwt: &crate::alphabet::AlphabetString<A>,
        sentinel: usize,
    ) -> (r: Self)
        requires
            bwt.wf(),
            sentinel < bwt@.len(),
            bwt@.len() + 64 <= u64::MAX,
        ensures
            r.wf(),
            r.sentinel == sentinel,
            r.sigma() == A::sigma(),
            r.len_spec() == bwt@.len(),
            forall|c: int, i: int|
                0 <= c < r.sigma() && 0 <= i < r.len_spec() && i != sentinel
                    ==> #[trigger] r.has_sym(c, i) == (bwt@[i] == c),
            forall|c: int, i: int|
                0 <= c < r.sigma() && 0 <= i < r.len_spec() ==> #[trigger] r.table@[c]@[i] == (i
                    != sentinel && bwt@[i] <= c),
    {
        proof {
            A::alphabet_facts();
        }
        let alphabet_length = bwt.alphabet.len();
        let n = bwt.len();
        let mut table: Vec<Bitvec> = Vec::new();
        let mut c: usize = 0;
        while c < alphabet_length
            invariant
                table@.len() == c,
                c <= alphabet_length,
                n == bwt@.len(),
                n + 64 <= u64::MAX,
                forall|c2: int|
                    0 <= c2 < c ==> (#[trigger] table@[c2]).wf() && table@[c2].counts_valid()
                        && table@[c2]@.len() == n && (forall|j: int|
                        0 <= j < n ==> !(#[trigger] table@[c2]@[j])),
            decreases alphabet_length - c,
        {
            table.push(Bitvec::new(n));
            c = c + 1;
        }
        let mut i: usize = 0;
        while i < n
            invariant
                table@.len() == alphabet_length,
                alphabet_length == A::sigma(),
                i <= n,
                n == bwt@.len(),
                bwt.wf(),
                sentinel < n,
                forall|c2: int|
                    0 <= c2 < alphabet_length ==> (#[trigger] table@[c2]).wf() && table@[c2]@.len()
                        == n,
                forall|c2: int, j: int|
                    0 <= c2 < alphabet_length && 0 <= j < n ==> (#[trigger] table@[c2]@[j]) == (j
                        < i && j != sentinel && bwt@[j] <= c2),
            decreases n - i,
        {
            if i != sentinel {
                let ci = bwt.get(i);
                let mut j: usize = ci as usize;
                while j < alphabet_length
                    invariant
                        table@.len() == alphabet_length,
                        i < n,
                        n == bwt@.len(),
                        i != sentinel,
                        sentinel < n,
                        ci == bwt@[i as int],
                        ci as int <= j <= alphabet_length,
                        forall|c2: int|
                            0 <= c2 < alphabet_length ==> (#[trigger] table@[c2]).wf()
                                && table@[c2]@.len() == n,
                        forall|c2: int, j2: int|
                            0 <= c2 < alphabet_length && 0 <= j2 < n && j2 != i ==> (
                            #[trigger] table@[c2]@[j2]) == (j2 < i && j2 != sentinel && bwt@[j2]
                                <= c2),
                        forall|c2: int|
                            0 <= c2 < alphabet_length ==> (#[trigger] table@[c2]@[i as int]) == (
                            ci as int <= c2 < j),
                    decreases alphabet_length - j,
                {
                    let mut bv = table.remove(j);
                    bv.set(i, true);
                    table.insert(j, bv);
                    j = j + 1;
                }
            }
            i = i + 1;
        }
        let mut c2: usize = 0;
        while c2 < alphabet_length
            invariant
                table@.len() == alphabet_length,
                alphabet_length == A::sigma(),
                c2 <= alphabet_length,
                n == bwt@.len(),
                sentinel < n,
                forall|c3: int|
                    0 <= c3 < alphabet_length ==> (#[trigger] table@[c3]).wf() && table@[c3]@.len()
                        == n,
                forall|c3: int|
                    0 <= c3 < c2 ==> (#[trigger] table@[c3]).counts_valid(),
                forall|c3: int, j: int|
                    0 <= c3 < alphabet_length && 0 <= j < n ==> (#[trigger] table@[c3]@[j]) == (j
                        != sentinel && bwt@[j] <= c3),
            decreases alphabet_length - c2,
        {
            let mut bv = table.remove(c2);
            bv.calculate_counts();
            table.insert(c2, bv);
            c2 = c2 + 1;
        }
        let r = Self { table, sentinel };
        proof {
            assert forall|c: int, i: int|
                0 <= c < r.sigma() && 0 <= i < r.len_spec() && i != sentinel implies
                #[trigger] r.has_sym(c, i) == (bwt@[i] == c) by {
                assert(r.table@[c]@[i] == (bwt@[i] <= c));
            }
        }
        r
    }

    /// Number of occurrences of symbol `c` in the first `i` BWT
    /// positions, the sentinel slot excluded.
    pub fn occ(&self, char_i: usize, i: usize) -> (r: usize)
        requires
            self.wf(),
            char_i < self.sigma(),
            i <= self.len_spec(),
        ensures
            r == self.occ_count(char_i as int, i as int),
    {
        proof {
            self.lemma_occ_is_rank_diff(char_i as int, i as int);
            if char_i > 0 {
                lemma_count_bits_pointwise_le(
                    self.table@[char_i as int - 1]@,
                    self.table@[char_i as int]@,
                    i as int,
                );
            }
        }
        if char_i == 0 {
            return self.table[char_i].rank(i);
        }
        return self.table[char_i].rank(i) - self.table[char_i - 1].rank(i);
    }

    /// Number of BWT positions before `i` whose symbol sorts strictly
    /// below `c`, the sentinel included once it has been passed.
    pub fn cumulative_occ(&self, char_i: usize, i: usize) -> (r: usize)
        requires
            self.wf(),
            char_i < self.sigma(),
            i <= self.len_spec(),
        ensures
            r == self.cum_count(char_i as int, i as int),
    {
        proof {
            self.lemma_cum_is_rank_plus_sentinel(char_i as int, i as int);
            self.lemma_occ_count_bounds(char_i as int, i as int);
            lemma_count_bits_bound(self.table@[0]@, i as int);
            if char_i > 0 {
                lemma_count_bits_bound(self.table@[char_i as int - 1]@, i as int);
            }
        }
        if char_i == 0 {
            return if self.sentinel < i {
                1
            } else {
                0
            };
        }
        let base = self.table[char_i - 1].rank(i);
        if self.sentinel < i {
            base + 1
        } else {
            base
        }
    }
}

/// If one bit sequence implies another pointwise, its prefix counts are
/// no larger.
proof fn lemma_count_bits_pointwise_le(b1: Seq<bool>, b2: Seq<bool>, i: int)
    requires
        forall|j: int| 0 <= j < i ==> ((#[trigger] b1[j]) ==> b2[j]),
    ensures
        count_bits(b1, i) <= count_bits(b2, i),
    decreases i,
{
    if i > 0 {
        lemma_count_bits_pointwise_le(b1, b2, i - 1);
    }
}

} // verus!
