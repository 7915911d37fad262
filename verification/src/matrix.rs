use vstd::prelude::*;
use crate::alphabet::{Alphabet, AlphabetIndex, AlphabetPattern};

verus! {

/// The value a cell of the banded matrix holds right after
/// initialization: ascending values on the top row and left column,
/// the saturation value `b + 1` on the two sentinel diagonals flanking
/// the band, and zero elsewhere.
pub open spec fn init_val(m: int, b: int, i: int, j: int) -> int {
    if i == 0 && 0 <= j <= b {
        j
    } else if j == 0 && 0 <= i <= b {
        i
    } else if j == i + b + 1 && 1 <= i && (i <= b || i < m - b - 1) {
        b + 1
    } else if j == i - b - 1 && b + 1 <= i {
        b + 1
    } else {
        0
    }
}

/// Edit-distance dynamic programming confined to a diagonal band of
/// width `2k + 1`, stored packed with one sentinel column on each side
/// of the band.
pub struct BandedMatrix {
    /// Number of rows.
    n: usize,

    /// Number of columns.
    m: usize,

    /// Width parameter of the band (the edit threshold `k`).
    b: usize,

    /// Stored cells per row.
    columns_per_row: usize,

    /// The packed cells.
    matrix: Vec<usize>,
}

impl BandedMatrix {
    /// Number of rows.
    pub closed spec fn rows(self) -> int {
        self.n as int
    }

    /// Number of columns.
    pub closed spec fn cols(self) -> int {
        self.m as int
    }

    /// The band parameter.
    pub closed spec fn band(self) -> int {
        self.b as int
    }

    /// Flat position of cell `(i, j)`.
    pub open spec fn cidx(self, i: int, j: int) -> int {
        i * (2 * self.band() + 3) + j - i + self.band()
    }

    /// Whether `(i, j)` lies in the stored band (the sentinel columns
    /// included).
    pub open spec fn in_band(self, i: int, j: int) -> bool {
        &&& 0 <= i < self.rows()
        &&& i - self.band() - 1 <= j <= i + self.band() + 1
        &&& (i > 0 || j >= -self.band())
    }

    /// Whether flat slot `q` stores some band cell.
    pub open spec fn is_band_slot(self, q: int) -> bool {
        exists|i: int, j: int| self.in_band(i, j) && #[trigger] self.cidx(i, j) == q
    }

    /// The value of cell `(i, j)`.
    pub closed spec fn cell(self, i: int, j: int) -> int {
        self.matrix@[self.cidx(i, j)] as int
    }

    /// Shape of the storage, and the bound that keeps the dynamic
    /// programming free of overflow: a cell in column `j >= 0` never
    /// exceeds `i + j`.
    pub closed spec fn shape_ok(self) -> bool {
        &&& self.cols() >= 1
        &&& self.rows() == self.cols() + self.band()
        &&& self.columns_per_row as int == 2 * self.band() + 3
        &&& self.matrix@.len() == self.rows() * self.columns_per_row
        &&& self.rows() * self.columns_per_row as int <= usize::MAX
    }

    pub closed spec fn wf(self) -> bool {
        &&& self.shape_ok()
        &&& forall|i: int, j: int|
            self.in_band(i, j) && j >= 0 ==> 0 <= #[trigger] self.cell(i, j) <= i + j
    }

    /// Distinct band cells live at distinct flat positions.
    proof fn lemma_cidx_injective(self, i1: int, j1: int, i2: int, j2: int)
        requires
            self.in_band(i1, j1),
            self.in_band(i2, j2),
            self.cidx(i1, j1) == self.cidx(i2, j2),
        ensures
            i1 == i2 && j1 == j2,
    {
        let c = 2 * self.band() + 3;
        let o1 = j1 - i1 + self.band() + 1;
        let o2 = j2 - i2 + self.band() + 1;
        assert(0 <= o1 < c && 0 <= o2 < c);
        assert(i1 * c + o1 == i2 * c + o2);
        assert(i1 == i2) by (nonlinear_arith)
            requires
                i1 * c + o1 == i2 * c + o2,
                0 <= o1 < c,
                0 <= o2 < c,
        ;
    }

    /// Flat positions of band cells are in range.
    proof fn lemma_cidx_bounds(self, i: int, j: int)
        requires
            self.shape_ok(),
            self.in_band(i, j),
        ensures
            0 <= self.cidx(i, j) < self.matrix@.len(),
    {
        let c = 2 * self.band() + 3;
        assert(0 <= i * c + (j - i + self.band() + 1) - 1 && i * c + (j - i + self.band() + 1) - 1
            < self.rows() * c) by (nonlinear_arith)
            requires
                0 <= i < self.rows(),
                1 <= j - i + self.band() + 1 <= c - 1 || (i > 0 && j - i + self.band() + 1 == 0),
                c == 2 * self.band() + 3,
                c >= 3,
        ;
    }

    /// First band column of a row that the update recurrence touches.
    pub open spec fn first_col(self, row: int) -> int {
        if row - self.band() > 1 {
            row - self.band()
        } else {
            1
        }
    }

    /// Last band column of a row that the update recurrence touches.
    pub open spec fn last_col(self, row: int) -> int {
        if self.cols() - 1 < self.band() + row {
            self.cols() - 1
        } else {
            self.band() + row
        }
    }

    /// Create the banded matrix for a pattern of the given size and an
    /// edit threshold `b`, initialized as `init_val` describes.
    pub fn new(pattern_size: usize, b: usize) -> (r: Self)
        requires
            (pattern_size + b + 1) * (2 * b + 3) <= usize::MAX,
        ensures
            r.wf(),
            r.cols() == pattern_size + 1,
            r.rows() == pattern_size + b + 1,
            r.band() == b,
            forall|i: int, j: int|
                r.in_band(i, j) ==> #[trigger] r.cell(i, j) == init_val(r.cols(), r.band(), i, j),
            forall|q: int|
                0 <= q < r.flat().len() && !r.is_band_slot(q) ==> #[trigger] r.flat()[q] == 0,
    {
        proof {
            assert(pattern_size + b + 1 <= usize::MAX && 2 * b + 3 <= usize::MAX)
                by (nonlinear_arith)
                requires
                    (pattern_size as int + b as int + 1) * (2 * b as int + 3) <= usize::MAX,
                    pattern_size >= 0,
                    b >= 0,
            ;
        }
        let n = pattern_size + b + 1;
        let m = pattern_size + 1;
        let columns_per_row = (2 * b + 1) + 2;
        proof {
            assert(n * columns_per_row == (pattern_size + b + 1) * (2 * b + 3)) by (nonlinear_arith)
                requires
                    n == pattern_size + b + 1,
                    columns_per_row == 2 * b + 3,
            ;
        }
        let mut matrix: Vec<usize> = Vec::new();
        let total = n * columns_per_row;
        let mut z: usize = 0;
        while z < total
            invariant
                matrix@.len() == z,
                z <= total,
                forall|q: int| 0 <= q < z ==> #[trigger] matrix@[q] == 0,
            decreases total - z,
        {
            matrix.push(0);
            z = z + 1;
        }
        let mut r = Self { n, m, b, columns_per_row, matrix };
        proof {
            assert forall|i: int, j: int| r.in_band(i, j) implies 0 <= #[trigger] r.cidx(i, j)
                < r.matrix@.len() by {
                r.lemma_cidx_bounds(i, j);
            }
            assert forall|i: int, j: int| r.in_band(i, j) && j >= 0 implies 0 <= #[trigger] r.cell(
                i,
                j,
            ) <= i + j by {
                r.lemma_cidx_bounds(i, j);
            }
        }
        Self::initialize_matrix(&mut r);
        r
    }

    /// Write the initial top row, left column and sentinel diagonals
    /// into a zeroed matrix.
    #[verifier::rlimit(100)]
    pub fn initialize_matrix(r: &mut Self)
        requires
            old(r).wf(),
            forall|i: int, j: int| old(r).in_band(i, j) ==> #[trigger] old(r).cell(i, j) == 0,
        ensures
            final(r).wf(),
            final(r).rows() == old(r).rows(),
            final(r).cols() == old(r).cols(),
            final(r).band() == old(r).band(),
            forall|i: int, j: int|
                final(r).in_band(i, j) ==> #[trigger] final(r).cell(i, j) == init_val(
                    final(r).cols(),
                    final(r).band(),
                    i,
                    j,
                ),
            final(r).flat().len() == old(r).flat().len(),
            forall|q: int|
                0 <= q < final(r).flat().len() && !final(r).is_band_slot(q)
                    ==> #[trigger] final(r).flat()[q] == old(r).flat()[q],
    {
        let ghost flat0 = r.flat();
        let n = r.n;
        let m = r.m;
        let b = r.b;
        let cpr = r.columns_per_row;
        let mut i: usize = 0;
        while i < n
            invariant
                r.wf(),
                n == r.rows(),
                m == r.cols(),
                b == r.band(),
                cpr == r.columns_per_row,
                i <= n,
                forall|i2: int, j2: int|
                    r.in_band(i2, j2) && i2 < i ==> #[trigger] r.cell(i2, j2) == init_val(
                        r.cols(),
                        r.band(),
                        i2,
                        j2,
                    ),
                forall|i2: int, j2: int|
                    r.in_band(i2, j2) && i2 >= i ==> #[trigger] r.cell(i2, j2) == 0,
                forall|q: int|
                    0 <= q < r.flat().len() && !r.is_band_slot(q) ==> #[trigger] r.flat()[q]
                        == flat0[q],
                r.flat().len() == flat0.len(),
            decreases n - i,
        {
            proof {
                assert((i as int) * (cpr as int) + cpr as int <= (n as int) * (cpr as int)
                    && (i as int) * (cpr as int) >= 3 * (i as int) && (n as int) + (b as int) + 2
                    <= (n as int) * (cpr as int)) by (nonlinear_arith)
                    requires
                        i < n,
                        cpr as int == 2 * (b as int) + 3,
                        n as int >= b as int + 1,
                ;
            }
            if i == 0 {
                let mut j: usize = 0;
                while j <= b
                    invariant
                        r.wf(),
                        n == r.rows(),
                        m == r.cols(),
                        b == r.band(),
                        cpr == r.columns_per_row,
                        j <= b + 1,
                        i == 0,
                        n >= 1,
                        forall|i2: int, j2: int|
                            r.in_band(i2, j2) && i2 == 0 && 0 <= j2 < j ==> #[trigger] r.cell(
                                i2,
                                j2,
                            ) == init_val(r.cols(), r.band(), i2, j2),
                        forall|i2: int, j2: int|
                            r.in_band(i2, j2) && !(i2 == 0 && 0 <= j2 < j) ==> #[trigger] r.cell(
                                i2,
                                j2,
                            ) == 0,
                forall|q: int|
                    0 <= q < r.flat().len() && !r.is_band_slot(q) ==> #[trigger] r.flat()[q]
                        == flat0[q],
                r.flat().len() == flat0.len(),
                    decreases b + 1 - j,
                {
                    let ghost pre = *r;
                    proof {
                        r.lemma_cidx_bounds(0, j as int);
                    }
                    let idx = j + b;
                    r.matrix[idx] = j;
                    proof {
                        lemma_frame_one(pre, *r, 0, j as int);
                        assert forall|q: int|
                            0 <= q < r.flat().len() && !r.is_band_slot(q) implies
                            #[trigger] r.flat()[q] == flat0[q] by {
                            if q == pre.cidx(0, j as int) {
                                assert(r.in_band(0, j as int) && r.cidx(0, j as int) == q);
                            } else {
                                assert(r.flat()[q] == pre.flat()[q]);
                                assert(!pre.is_band_slot(q)) by {
                                    if pre.is_band_slot(q) {
                                        let (i2, j2) = choose|i2: int, j2: int|
                                            pre.in_band(i2, j2) && #[trigger] pre.cidx(i2, j2)
                                                == q;
                                        assert(r.in_band(i2, j2) && r.cidx(i2, j2) == q);
                                    }
                                }
                            }
                        }
                    }
                    j = j + 1;
                }
            } else {
                if i <= b {
                    let ghost pre = *r;
                    proof {
                        r.lemma_cidx_bounds(i as int, 0);
                    }
                    let idx = i * cpr + b - i;
                    r.matrix[idx] = i;
                    proof {
                        lemma_frame_one(pre, *r, i as int, 0);
                        assert forall|q: int|
                            0 <= q < r.flat().len() && !r.is_band_slot(q) implies
                            #[trigger] r.flat()[q] == flat0[q] by {
                            if q == pre.cidx(i as int, 0) {
                                assert(r.in_band(i as int, 0) && r.cidx(i as int, 0) == q);
                            } else {
                                assert(r.flat()[q] == pre.flat()[q]);
                                assert(!pre.is_band_slot(q)) by {
                                    if pre.is_band_slot(q) {
                                        let (i2, j2) = choose|i2: int, j2: int|
                                            pre.in_band(i2, j2) && #[trigger] pre.cidx(i2, j2)
                                                == q;
                                        assert(r.in_band(i2, j2) && r.cidx(i2, j2) == q);
                                    }
                                }
                            }
                        }
                    }
                }
                if i <= b || i + b + 1 < m {
                    let ghost pre = *r;
                    proof {
                        r.lemma_cidx_bounds(i as int, i as int + b + 1);
                    }
                    let idx = i * cpr + 2 * b + 1;
                    r.matrix[idx] = b + 1;
                    proof {
                        lemma_frame_one(pre, *r, i as int, i as int + b + 1);
                        assert forall|q: int|
                            0 <= q < r.flat().len() && !r.is_band_slot(q) implies
                            #[trigger] r.flat()[q] == flat0[q] by {
                            if q == pre.cidx(i as int, i as int + b + 1) {
                                assert(r.in_band(i as int, i as int + b + 1) && r.cidx(i as int, i as int + b + 1) == q);
                            } else {
                                assert(r.flat()[q] == pre.flat()[q]);
                                assert(!pre.is_band_slot(q)) by {
                                    if pre.is_band_slot(q) {
                                        let (i2, j2) = choose|i2: int, j2: int|
                                            pre.in_band(i2, j2) && #[trigger] pre.cidx(i2, j2)
                                                == q;
                                        assert(r.in_band(i2, j2) && r.cidx(i2, j2) == q);
                                    }
                                }
                            }
                        }
                    }
                }
                if i >= b + 1 {
                    let ghost pre = *r;
                    proof {
                        r.lemma_cidx_bounds(i as int, i as int - b - 1);
                    }
                    let idx = i * cpr - 1;
                    r.matrix[idx] = b + 1;
                    proof {
                        lemma_frame_one(pre, *r, i as int, i as int - b - 1);
                        assert forall|q: int|
                            0 <= q < r.flat().len() && !r.is_band_slot(q) implies
                            #[trigger] r.flat()[q] == flat0[q] by {
                            if q == pre.cidx(i as int, i as int - b - 1) {
                                assert(r.in_band(i as int, i as int - b - 1) && r.cidx(i as int, i as int - b - 1) == q);
                            } else {
                                assert(r.flat()[q] == pre.flat()[q]);
                                assert(!pre.is_band_slot(q)) by {
                                    if pre.is_band_slot(q) {
                                        let (i2, j2) = choose|i2: int, j2: int|
                                            pre.in_band(i2, j2) && #[trigger] pre.cidx(i2, j2)
                                                == q;
                                        assert(r.in_band(i2, j2) && r.cidx(i2, j2) == q);
                                    }
                                }
                            }
                        }
                    }
                }
            }
            i = i + 1;
        }
    }

/// If the rows up to `w.len()` hold the dynamic program of `w` and
    /// the cells left of the next row's window are still initial, then
    /// updating that row against symbol `c` computes the dynamic
    /// program of `w` extended by `c`.
    pub proof fn lemma_new_row_matches_dp(self, pat: Seq<u8>, w: Seq<u8>, c: u8, j: int)
        requires
            self.wf(),
            pat.len() == self.cols() - 1,
            w.len() as int + 2 <= self.rows(),
            forall|i2: int, j2: int|
                0 <= i2 <= w.len() && self.in_band(i2, j2) && j2 >= 0 ==> #[trigger] self.cell(
                    i2,
                    j2,
                ) == dp_cell(pat, self.band(), w, i2, j2),
            forall|j2: int|
                self.in_band(w.len() as int + 1, j2) && 0 <= j2 < self.first_col(w.len() as int + 1)
                    ==> #[trigger] self.cell(w.len() as int + 1, j2) == init_val(
                    self.cols(),
                    self.band(),
                    w.len() as int + 1,
                    j2,
                ),
            self.first_col(w.len() as int + 1) - 1 <= j <= self.last_col(w.len() as int + 1),
        ensures
            self.new_row_val(pat, w.len() as int + 1, c, j) == dp_cell(
                pat,
                self.band(),
                w.push(c),
                w.len() as int + 1,
                j,
            ),
            self.new_row_min(pat, w.len() as int + 1, c, j) == dp_row_min(
                pat,
                self.band(),
                w.push(c),
                w.len() as int + 1,
                j,
            ),
        decreases j,
    {
        let i = w.len() as int + 1;
        let b = self.band();
        let fc = self.first_col(i);
        if j < fc || j < 1 {
            assert(self.in_band(i, j));
        } else {
            self.lemma_new_row_matches_dp(pat, w, c, j - 1);
            assert(self.in_band(i - 1, j - 1) && self.in_band(i - 1, j));
            lemma_dp_prefix(pat, b, w, w.push(c), i - 1, j - 1);
            lemma_dp_prefix(pat, b, w, w.push(c), i - 1, j);
            assert(w.push(c)[i - 1] == c);
        }
    }

    /// The stored dimensions: rows, columns, band parameter, and

    /// stored cells per row.
    pub fn dimensions(&self) -> (d: (usize, usize, usize, usize))
        requires
            self.shape_ok(),
        ensures
            d.0 as int == self.rows(),
            d.1 as int == self.cols(),
            d.2 as int == self.band(),
            d.3 as int == 2 * self.band() + 3,
    {
        (self.n, self.m, self.b, self.columns_per_row)
    }

    /// Number of stored cells.
    pub fn flat_len(&self) -> (l: usize)
        ensures
            l == self.flat().len(),
    {
        self.matrix.len()
    }

    /// The raw packed storage, position by position.
    pub fn flat_at(&self, q: usize) -> (v: usize)
        requires
            q < self.flat().len(),
        ensures
            v == self.flat()[q as int],
    {
        self.matrix[q]
    }

    /// The packed storage as a sequence.
    pub closed spec fn flat(self) -> Seq<usize> {
        self.matrix@
    }

    /// Read a band cell.
    pub fn cell_value(&self, i: usize, j: usize) -> (v: usize)
        requires
            self.wf(),
            self.in_band(i as int, j as int),
        ensures
            v == self.cell(i as int, j as int),
    {
        let idx = self.cell_pos(i, j);
        proof {
            self.lemma_cidx_bounds(i as int, j as int);
        }
        self.matrix[idx]
    }

    /// Overwrite a band cell; the value must respect the overflow
    /// bound of the dynamic programming.
    pub fn set_cell(&mut self, i: usize, j: usize, v: usize)
        requires
            old(self).wf(),
            old(self).in_band(i as int, j as int),
            v as int <= i + j,
        ensures
            final(self).wf(),
            final(self).rows() == old(self).rows(),
            final(self).cols() == old(self).cols(),
            final(self).band() == old(self).band(),
            final(self).cell(i as int, j as int) == v,
            forall|i2: int, j2: int|
                old(self).in_band(i2, j2) && !(i2 == i as int && j2 == j as int)
                    ==> #[trigger] final(self).cell(i2, j2) == old(self).cell(i2, j2),
    {
        let ghost pre = *self;
        proof {
            self.lemma_cidx_bounds(i as int, j as int);
        }
        let idx = self.cell_pos(i, j);
        self.matrix[idx] = v;
        proof {
            lemma_frame_one(pre, *self, i as int, j as int);
            assert forall|i2: int, j2: int| self.in_band(i2, j2) && j2 >= 0 implies 0
                <= #[trigger] self.cell(i2, j2) <= i2 + j2 by {
                if !(i2 == i as int && j2 == j as int) {
                    assert(self.cell(i2, j2) == pre.cell(i2, j2));
                }
            }
        }
    }

    /// Flat position of band cell `(i, j)`, computed without overflow.
    fn cell_pos(&self, i: usize, j: usize) -> (idx: usize)
        requires
            self.shape_ok(),
            self.in_band(i as int, j as int),
        ensures
            idx as int == self.cidx(i as int, j as int),
    {
        proof {
            let n = self.rows();
            let c = self.columns_per_row as int;
            assert((i as int) * c + c <= n * c && (i as int) * c >= 3 * (i as int) && (
            j as int) + self.band() + 1 <= n * c) by (nonlinear_arith)
                requires
                    0 <= (i as int) && (i as int) < n,
                    c == 2 * self.band() + 3,
                    n >= self.band() + 1,
                    j as int <= (i as int) + self.band() + 1,
            ;
        }
        let o1 = (j + self.b + 1) - i;
        (i * self.columns_per_row + o1) - 1
    }

    /// The relaxation of cell `(row, col)` from its three neighbours:
    /// diagonal plus the mismatch penalty, left plus one, above plus
    /// one.
    pub open spec fn relaxed(self, mismatch: bool, row: int, col: int) -> int {
        let d = self.cell(row - 1, col - 1) + (if mismatch {
            1int
        } else {
            0int
        });
        let h = self.cell(row, col - 1) + 1;
        let v = self.cell(row - 1, col) + 1;
        if d <= h && d <= v {
            d
        } else if h <= v {
            h
        } else {
            v
        }
    }

    /// Relax one cell from its neighbours, store it, and return it.
    pub fn update_cell(&mut self, mismatch: bool, row: usize, column: usize) -> (r: usize)
        requires
            old(self).wf(),
            1 <= row as int && (row as int) < old(self).rows(),
            old(self).first_col(row as int) <= column as int <= old(self).last_col(row as int),
        ensures
            final(self).wf(),
            final(self).rows() == old(self).rows(),
            final(self).cols() == old(self).cols(),
            final(self).band() == old(self).band(),
            r == old(self).relaxed(mismatch, row as int, column as int),
            final(self).cell(row as int, column as int) == r,
            forall|i: int, j: int|
                old(self).in_band(i, j) && !(i == row as int && j == column as int)
                    ==> #[trigger] final(self).cell(i, j) == old(self).cell(i, j),
    {
        let ghost pre = *self;
        proof {
            self.lemma_cidx_bounds(row as int, column as int);
            self.lemma_cidx_bounds(row as int - 1, column as int - 1);
            self.lemma_cidx_bounds(row as int, column as int - 1);
            self.lemma_cidx_bounds(row as int - 1, column as int);
            assert(self.rows() + self.cols() <= self.rows() * (2 * self.band() + 3))
                by (nonlinear_arith)
                requires
                    self.rows() >= self.band() + 1,
                    self.rows() == self.cols() + self.band(),
                    self.cols() >= 1,
                    self.band() >= 0,
            ;
            assert(self.in_band(row as int - 1, column as int - 1));
            assert(self.in_band(row as int, column as int - 1));
            assert(self.in_band(row as int - 1, column as int));
            assert(self.in_band(row as int, column as int));
        }
        let d_pos = self.cell_pos(row - 1, column - 1);
        let h_pos = self.cell_pos(row, column - 1);
        let v_pos = self.cell_pos(row - 1, column);
        let w_pos = self.cell_pos(row, column);
        proof {
            assert(self.matrix@[d_pos as int] as int == self.cell(row as int - 1, column as int
                - 1));
            assert(self.matrix@[h_pos as int] as int == self.cell(row as int, column as int - 1));
            assert(self.matrix@[v_pos as int] as int == self.cell(row as int - 1, column as int));
        }
        let d = self.matrix[d_pos] + (if mismatch {
            1
        } else {
            0
        });
        let h = self.matrix[h_pos] + 1;
        let v = self.matrix[v_pos] + 1;
        let r = if d <= h && d <= v {
            d
        } else if h <= v {
            h
        } else {
            v
        };
        self.matrix[w_pos] = r;
        proof {
            lemma_frame_one(pre, *self, row as int, column as int);
            assert forall|i: int, j: int| self.in_band(i, j) && j >= 0 implies 0 <= #[trigger] self.cell(
                i,
                j,
            ) <= i + j by {
                if !(i == row as int && j == column as int) {
                    assert(self.cell(i, j) == pre.cell(i, j));
                }
            }
        }
        r
    }

    /// First column of the update window in a row.
    pub fn first_column(&self, row: usize) -> (c: usize)
        requires
            self.wf(),
        ensures
            c as int == self.first_col(row as int),
    {
        proof {
            assert(self.band() + 1 <= self.rows() * (2 * self.band() + 3)) by (nonlinear_arith)
                requires
                    self.rows() >= 1,
                    self.band() >= 0,
            ;
        }
        if row > self.b + 1 {
            row - self.b
        } else {
            1
        }
    }

    /// Last column of the update window in a row.
    pub fn last_column(&self, row: usize) -> (c: usize)
        requires
            self.wf(),
            row as int <= self.rows(),
        ensures
            c as int == self.last_col(row as int),
    {
        proof {
            assert(self.rows() + self.band() <= self.rows() * (2 * self.band() + 3))
                by (nonlinear_arith)
                requires
                    self.rows() >= self.band() + 1,
                    self.band() >= 0,
            ;
        }
        let x = self.b + row;
        if self.m - 1 < x {
            self.m - 1
        } else {
            x
        }
    }

    /// The value cell `(row, j)` takes during the row update, defined
    /// left to right along the band of the row.
    pub open spec fn new_row_val(self, pat: Seq<u8>, row: int, c: u8, j: int) -> int
        decreases j,
    {
        if j < self.first_col(row) || j < 1 {
            self.cell(row, j)
        } else {
            let d = self.cell(row - 1, j - 1) + (if pat[j - 1] != c {
                1int
            } else {
                0int
            });
            let h = self.new_row_val(pat, row, c, j - 1) + 1;
            let v = self.cell(row - 1, j) + 1;
            if d <= h && d <= v {
                d
            } else if h <= v {
                h
            } else {
                v
            }
        }
    }

    /// The smallest freshly updated value in the band window of the
    /// row, up to column `j`.
    pub open spec fn new_row_min(self, pat: Seq<u8>, row: int, c: u8, j: int) -> int
        decreases j,
    {
        if j < self.first_col(row) || j < 1 {
            usize::MAX as int
        } else {
            let m0 = self.new_row_min(pat, row, c, j - 1);
            let v = self.new_row_val(pat, row, c, j);
            if v < m0 {
                v
            } else {
                m0
            }
        }
    }

    /// Update one row of the banded DP against the pattern symbol `c`
    /// and report the smallest value the row's band now holds.
    pub fn update_row<A: Alphabet>(
        &mut self,
        pattern: &AlphabetPattern<A>,
        row: usize,
        c: AlphabetIndex,
    ) -> (minimum: usize)
        requires
            old(self).wf(),
            1 <= row as int && (row as int) < old(self).rows(),
            pattern.wf(),
            pattern.pattern_length as int == old(self).cols() - 1,
        ensures
            final(self).wf(),
            final(self).rows() == old(self).rows(),
            final(self).cols() == old(self).cols(),
            final(self).band() == old(self).band(),
            forall|j: int|
                old(self).first_col(row as int) <= j <= old(self).last_col(row as int)
                    ==> #[trigger] final(self).cell(row as int, j) == old(self).new_row_val(
                    pattern.syms(),
                    row as int,
                    c,
                    j,
                ),
            forall|i: int, j: int|
                old(self).in_band(i, j) && !(i == row as int && old(self).first_col(row as int)
                    <= j <= old(self).last_col(row as int)) ==> #[trigger] final(self).cell(i, j)
                    == old(self).cell(i, j),
            minimum == old(self).new_row_min(
                pattern.syms(),
                row as int,
                c,
                old(self).last_col(row as int),
            ),
    {
        let ghost pre = *self;
        let ghost pat = pattern.syms();
        let mut minimum: usize = usize::MAX;
        let fc = self.first_column(row);
        let lc = self.last_column(row);
        let mut j = fc;
        while j <= lc
            invariant
                self.wf(),
                self.rows() == pre.rows(),
                self.cols() == pre.cols(),
                self.band() == pre.band(),
                pre.wf(),
                pattern.wf(),
                pat == pattern.syms(),
                pattern.pattern_length as int == pre.cols() - 1,
                1 <= row as int && (row as int) < pre.rows(),
                fc as int == pre.first_col(row as int),
                lc as int == pre.last_col(row as int),
                fc <= j,
                lc < usize::MAX,
                j as int <= lc as int + 1,
                forall|j2: int|
                    fc as int <= j2 < j as int ==> #[trigger] self.cell(row as int, j2)
                        == pre.new_row_val(pat, row as int, c, j2),
                forall|i: int, j2: int|
                    pre.in_band(i, j2) && !(i == row as int && fc as int <= j2 < j as int)
                        ==> #[trigger] self.cell(i, j2) == pre.cell(i, j2),
                minimum as int == pre.new_row_min(pat, row as int, c, j as int - 1),
            decreases lc as int - j as int + 1,
        {
            let mismatch = c != pattern.char_at(j - 1);
            proof {
                assert(pat[j as int - 1] == pattern.sym(j as int - 1));
                if j > fc {
                    assert(self.cell(row as int, j as int - 1) == pre.new_row_val(
                        pat,
                        row as int,
                        c,
                        j as int - 1,
                    ));
                } else {
                    assert(self.cell(row as int, j as int - 1) == pre.cell(
                        row as int,
                        j as int - 1,
                    ));
                }
            }
            let ghost before = *self;
            let tmp_minimum = self.update_cell(mismatch, row, j);
            proof {
                assert(before.cell(row as int - 1, j as int - 1) == pre.cell(
                    row as int - 1,
                    j as int - 1,
                ));
                assert(before.cell(row as int - 1, j as int) == pre.cell(row as int - 1, j as int));
                assert(self.cell(row as int, j as int) == pre.new_row_val(
                    pat,
                    row as int,
                    c,
                    j as int,
                ));
                assert(pre.new_row_min(pat, row as int, c, j as int) == (if pre.new_row_val(
                    pat,
                    row as int,
                    c,
                    j as int,
                ) < pre.new_row_min(pat, row as int, c, j as int - 1) {
                    pre.new_row_val(pat, row as int, c, j as int)
                } else {
                    pre.new_row_min(pat, row as int, c, j as int - 1)
                }));
            }
            if tmp_minimum < minimum {
                minimum = tmp_minimum;
            }
            j = j + 1;
        }
        minimum
    }

    /// Whether the band of this row reaches the final pattern column.
    pub fn in_final_column(&self, row: usize) -> (r: bool)
        requires
            self.wf(),
            row as int <= self.rows(),
        ensures
            r == (self.last_col(row as int) == self.cols() - 1),
    {
        let lc = self.last_column(row);
        lc == self.m - 1
    }

    /// Read the final-column cell of a row: the edit distance of a
    /// full-pattern alignment ending at this depth.
    pub fn final_column(&self, row: usize) -> (r: usize)
        requires
            self.wf(),
            (row as int) < self.rows(),
            self.last_col(row as int) == self.cols() - 1,
        ensures
            r == self.cell(row as int, self.cols() - 1),
    {
        proof {
            self.lemma_cidx_bounds(row as int, self.cols() - 1);
        }
        let idx = self.cell_pos(row, self.m - 1);
        self.matrix[idx]
    }
}

/// After one write at band cell `(wi, wj)`, every other band cell is
/// unchanged.
proof fn lemma_frame_one(pre: BandedMatrix, post: BandedMatrix, wi: int, wj: int)
    requires
        pre.wf(),
        post.rows() == pre.rows(),
        post.cols() == pre.cols(),
        post.band() == pre.band(),
        post.columns_per_row == pre.columns_per_row,
        pre.in_band(wi, wj),
        post.matrix@ == pre.matrix@.update(pre.cidx(wi, wj), post.matrix@[pre.cidx(wi, wj)]),
        0 <= pre.cidx(wi, wj) < pre.matrix@.len(),
    ensures
        forall|i: int, j: int|
            pre.in_band(i, j) && !(i == wi && j == wj) ==> #[trigger] post.cell(i, j) == pre.cell(
                i,
                j,
            ),
        post.cell(wi, wj) == post.matrix@[pre.cidx(wi, wj)],
        post.matrix@.len() == pre.matrix@.len(),
{
    assert forall|i: int, j: int| pre.in_band(i, j) && !(i == wi && j == wj) implies
        #[trigger] post.cell(i, j) == pre.cell(i, j) by {
        pre.lemma_cidx_bounds(i, j);
        if pre.cidx(i, j) == pre.cidx(wi, wj) {
            pre.lemma_cidx_injective(i, j, wi, wj);
        }
    }
}

/// Mismatch penalty between a pattern symbol and a consumed symbol.
pub open spec fn mis_cost(a: u8, b: u8) -> int {
    if a == b {
        0
    } else {
        1
    }
}

/// The banded edit-distance dynamic program over the pattern `pat`
/// and a consumed path `w`, exactly as the matrix computes it: cells
/// outside the update window of their row keep their initial values,
/// and every cell inside relaxes its three neighbours.
pub open spec fn dp_cell(pat: Seq<u8>, b: int, w: Seq<u8>, i: int, j: int) -> int
    decreases i, j,
{
    let m = pat.len() + 1;
    let fc = if i - b > 1 {
        i - b
    } else {
        1
    };
    let lc = if m - 1 < b + i {
        m - 1
    } else {
        b + i
    };
    if i <= 0 || i > w.len() || j < fc || j > lc {
        init_val(m as int, b, i, j)
    } else {
        let d = dp_cell(pat, b, w, i - 1, j - 1) + mis_cost(pat[j - 1], w[i - 1]);
        let h = dp_cell(pat, b, w, i, j - 1) + 1;
        let v = dp_cell(pat, b, w, i - 1, j) + 1;
        if d <= h && d <= v {
            d
        } else if h <= v {
            h
        } else {
            v
        }
    }
}

/// The smallest dynamic-program value in the band window of row `i`,
/// up to column `j`.
pub open spec fn dp_row_min(pat: Seq<u8>, b: int, w: Seq<u8>, i: int, j: int) -> int
    decreases j,
{
    let fc = if i - b > 1 {
        i - b
    } else {
        1
    };
    if j < fc || j < 1 {
        usize::MAX as int
    } else {
        let m0 = dp_row_min(pat, b, w, i, j - 1);
        let v = dp_cell(pat, b, w, i, j);
        if v < m0 {
            v
        } else {
            m0
        }
    }
}

/// A dynamic-program row depends only on the consumed prefix up to it.
pub proof fn lemma_dp_prefix(pat: Seq<u8>, b: int, w1: Seq<u8>, w2: Seq<u8>, i: int, j: int)
    requires
        0 <= i <= w1.len(),
        i <= w2.len(),
        forall|q: int| 0 <= q < i ==> (#[trigger] w1[q]) == w2[q],
    ensures
        dp_cell(pat, b, w1, i, j) == dp_cell(pat, b, w2, i, j),
    decreases i, j,
{
    if i > 0 && i <= w1.len() {
        let m = pat.len() + 1;
        let fc = if i - b > 1 {
            i - b
        } else {
            1
        };
        let lc = if (m - 1) < b + i {
            m - 1
        } else {
            b + i
        };
        if fc <= j <= lc {
            lemma_dp_prefix(pat, b, w1, w2, i - 1, j - 1);
            lemma_dp_prefix(pat, b, w1, w2, i, j - 1);
            lemma_dp_prefix(pat, b, w1, w2, i - 1, j);
        }
    }
}

pub proof fn lemma_dp_row_min_prefix(pat: Seq<u8>, b: int, w1: Seq<u8>, w2: Seq<u8>, i: int, j: int)
    requires
        0 <= i <= w1.len(),
        i <= w2.len(),
        forall|q: int| 0 <= q < i ==> (#[trigger] w1[q]) == w2[q],
    ensures
        dp_row_min(pat, b, w1, i, j) == dp_row_min(pat, b, w2, i, j),
    decreases j,
{
    let fc = if i - b > 1 {
        i - b
    } else {
        1
    };
    if j >= fc && j >= 1 {
        lemma_dp_row_min_prefix(pat, b, w1, w2, i, j - 1);
        lemma_dp_prefix(pat, b, w1, w2, i, j);
    }
}

/// The row minimum bounds every window cell of its row.
pub proof fn lemma_dp_row_min_le(pat: Seq<u8>, b: int, w: Seq<u8>, i: int, j: int, j2: int)
    requires
        (if i - b > 1 {
            i - b
        } else {
            1
        }) <= j <= j2,
    ensures
        dp_row_min(pat, b, w, i, j2) <= dp_cell(pat, b, w, i, j),
    decreases j2,
{
    if j2 > j {
        lemma_dp_row_min_le(pat, b, w, i, j, j2 - 1);
    }
}

/// In the first `b` rows the window minimum never exceeds the row
/// number: deleting every consumed symbol so far is always on offer.
pub proof fn lemma_dp_row_min_small(pat: Seq<u8>, b: int, w: Seq<u8>, i: int)
    requires
        1 <= i <= w.len(),
        i <= b,
        pat.len() >= 1,
    ensures
        dp_row_min(
            pat,
            b,
            w,
            i,
            if pat.len() < b + i {
                pat.len() as int
            } else {
                b + i
            },
        ) <= i,
{
    let lc = if pat.len() < b + i {
        pat.len() as int
    } else {
        b + i
    };
    assert(dp_cell(pat, b, w, i - 1, 0) == i - 1);
    assert(dp_cell(pat, b, w, i, 1) <= i);
    lemma_dp_row_min_le(pat, b, w, i, 1, lc);
}

/// Once a row's window minimum exceeds the band budget, the next
/// row's does too: every relaxation source is either a window cell of
/// the previous row or a saturated sentinel.
pub proof fn lemma_dp_row_min_step(pat: Seq<u8>, b: int, w: Seq<u8>, i: int, j: int)
    requires
        b + 1 <= i,
        i + 1 <= w.len(),
        pat.len() >= 1,
        0 <= b < usize::MAX,
        dp_row_min(
            pat,
            b,
            w,
            i,
            if pat.len() < b + i {
                pat.len() as int
            } else {
                b + i
            },
        ) > b,
        j <= (if pat.len() < b + i + 1 {
            pat.len() as int
        } else {
            b + i + 1
        }),
    ensures
        j >= i + 1 - b ==> dp_cell(pat, b, w, i + 1, j) > b,
        dp_row_min(pat, b, w, i + 1, j) > b,
    decreases j,
{
    let m = pat.len() + 1;
    let fc1 = i + 1 - b;
    let lc0 = if pat.len() < b + i {
        pat.len() as int
    } else {
        b + i
    };
    if j >= fc1 && j >= 1 {
        lemma_dp_row_min_step(pat, b, w, i, j - 1);
        assert(j - 1 >= (if i - b > 1 {
            i - b
        } else {
            1
        }));
        lemma_dp_row_min_le(pat, b, w, i, j - 1, lc0);
        assert(dp_cell(pat, b, w, i, j - 1) > b);
        if j <= lc0 {
            lemma_dp_row_min_le(pat, b, w, i, j, lc0);
            assert(dp_cell(pat, b, w, i, j) > b);
        } else {
            assert(dp_cell(pat, b, w, i, j) == init_val(m as int, b, i, j));
            assert(dp_cell(pat, b, w, i, j) == b + 1);
        }
        if j - 1 < fc1 {
            assert(dp_cell(pat, b, w, i + 1, j - 1) == init_val(m as int, b, i + 1, j - 1));
            assert(dp_cell(pat, b, w, i + 1, j - 1) == b + 1);
        } else {
            assert(dp_cell(pat, b, w, i + 1, j - 1) > b);
        }
        assert(dp_cell(pat, b, w, i + 1, j) > b);
    } else {
        if j >= 1 {
            lemma_dp_row_min_step(pat, b, w, i, j - 1);
        }
        assert(dp_row_min(pat, b, w, i + 1, j) > b);
    }
}

/// A pruned row stays pruned: once the window minimum exceeds the
/// budget, it exceeds it at every deeper row of the same path.
pub proof fn lemma_dp_row_min_chain(pat: Seq<u8>, b: int, w: Seq<u8>, i: int, i2: int)
    requires
        1 <= i <= i2 <= w.len(),
        pat.len() >= 1,
        0 <= b < usize::MAX,
        dp_row_min(
            pat,
            b,
            w,
            i,
            if pat.len() < b + i {
                pat.len() as int
            } else {
                b + i
            },
        ) > b,
    ensures
        dp_row_min(
            pat,
            b,
            w,
            i2,
            if pat.len() < b + i2 {
                pat.len() as int
            } else {
                b + i2
            },
        ) > b,
    decreases i2 - i,
{
    if i < i2 {
        if i <= b {
            lemma_dp_row_min_small(pat, b, w, i);
            assert(false);
        }
        lemma_dp_row_min_step(
            pat,
            b,
            w,
            i,
            if pat.len() < b + i + 1 {
                pat.len() as int
            } else {
                b + i + 1
            },
        );
        lemma_dp_row_min_chain(pat, b, w, i + 1, i2);
    }
}

} // verus!
