//! Integer matrices and third-order tensors with exact arithmetic.
use vstd::prelude::*;
use crate::proofsys::grid;
use crate::proofsys::grid::{Cube, Grid};

verus! {

/// A matrix of machine integers, row by row.
#[derive(Clone, Debug, PartialEq, Eq)]
pub struct Matrix {
    rows: usize,
    cols: usize,
    data: Vec<i64>,
}

/// A copy of a list of integers.
pub fn copy_ints(s: &[i64]) -> (r: Vec<i64>)
    ensures
        r@ == s@,
{
    let mut r: Vec<i64> = Vec::new();
    let mut i: usize = 0;
    while i < s.len()
        invariant
            i <= s.len(),
            r@ == s@.take(i as int),
        decreases s.len() - i,
    {
        r.push(s[i]);
        assert(s@.take(i + 1) =~= s@.take(i as int).push(s@[i as int]));
        i += 1;
    }
    assert(s@.take(s@.len() as int) =~= s@);
    r
}

/// Compares two lists of integers.
pub fn same_ints(a: &[i64], b: &[i64]) -> (r: bool)
    ensures
        r == (a@ == b@),
        r == (grid::ints(a@) == grid::ints(b@)),
{
    if a.len() != b.len() {
        assert(grid::ints(a@).len() != grid::ints(b@).len());
        return false;
    }
    let mut i: usize = 0;
    while i < a.len()
        invariant
            i <= a.len(),
            a@.len() == b@.len(),
            forall|k: int| 0 <= k < i ==> a@[k] == b@[k],
        decreases a.len() - i,
    {
        if a[i] != b[i] {
            assert(grid::ints(a@)[i as int] != grid::ints(b@)[i as int]);
            return false;
        }
        i += 1;
    }
    assert(a@ =~= b@);
    true
}

/// A list of zeros.
pub fn zero_ints(n: usize) -> (r: Vec<i64>)
    ensures
        r@ == Seq::new(n as nat, |k: int| 0i64),
{
    let mut r: Vec<i64> = Vec::new();
    let mut i: usize = 0;
    while i < n
        invariant
            i <= n,
            r@.len() == i,
            forall|k: int| 0 <= k < i ==> #[trigger] r@[k] == 0,
        decreases n - i,
    {
        r.push(0);
        i += 1;
    }
    assert(r@ =~= Seq::new(n as nat, |k: int| 0i64));
    r
}

impl Matrix {
    /// Number of rows.
    pub closed spec fn height(self) -> nat {
        self.rows as nat
    }

    /// Number of columns.
    pub closed spec fn width(self) -> nat {
        self.cols as nat
    }

    /// The entries row by row.
    pub closed spec fn values(self) -> Seq<i64> {
        self.data@
    }

    /// The ideal matrix.
    pub open spec fn grid(self) -> Grid {
        Grid { rows: self.height(), cols: self.width(), data: grid::ints(self.values()) }
    }

    /// Every row is complete.
    pub open spec fn wf(self) -> bool {
        &&& self.values().len() == self.height() * self.width()
        &&& self.height() <= usize::MAX
        &&& self.width() <= usize::MAX
        &&& self.values().len() <= usize::MAX
    }

    /// The matrix with the given entries.
    pub fn new(rows: usize, cols: usize, data: Vec<i64>) -> (r: Self)
        requires
            rows * cols == data@.len(),
        ensures
            r.wf(),
            r.height() == rows,
            r.width() == cols,
            r.values() == data@,
    {
        assert(data.len() == data@.len());
        Matrix { rows, cols, data }
    }

    /// The zero matrix.
    pub fn zeros(rows: usize, cols: usize) -> (r: Self)
        requires
            rows * cols <= usize::MAX,
        ensures
            r.wf(),
            r.grid() == grid::zero_grid(rows as nat, cols as nat),
            r.height() == rows,
            r.width() == cols,
    {
        let data = zero_ints(rows * cols);
        let r = Matrix { rows, cols, data };
        assert(r.grid() =~= grid::zero_grid(rows as nat, cols as nat));
        r
    }

    pub fn rows(&self) -> (r: usize)
        ensures
            r == self.height(),
    {
        self.rows
    }

    pub fn cols(&self) -> (r: usize)
        ensures
            r == self.width(),
    {
        self.cols
    }

    /// The entries row by row.
    pub fn data(&self) -> (r: &[i64])
        ensures
            r@ == self.values(),
    {
        self.data.as_slice()
    }

    pub fn into_data(self) -> (r: Vec<i64>)
        ensures
            r@ == self.values(),
    {
        self.data
    }

    /// An equal matrix.
    pub fn copy(&self) -> (r: Self)
        ensures
            r.height() == self.height(),
            r.width() == self.width(),
            r.values() == self.values(),
            r.grid() == self.grid(),
            self.wf() ==> r.wf(),
    {
        Matrix { rows: self.rows, cols: self.cols, data: copy_ints(self.data.as_slice()) }
    }

    /// Compares shape and entries.
    pub fn same(&self, other: &Matrix) -> (r: bool)
        ensures
            r == (self.grid() == other.grid()),
    {
        self.rows == other.rows && self.cols == other.cols && same_ints(
            self.data.as_slice(),
            other.data.as_slice(),
        )
    }

    /// The position of row `r` and column `c` lies within the entries.
    pub open spec fn reaches(self, r: int, c: int) -> bool {
        ||| r < self.height() && c < self.width()
        ||| r * self.width() + c < self.values().len()
    }

    /// The entry in row `r` and column `c`.
    pub fn get(&self, r: usize, c: usize) -> (v: i64)
        requires
            self.wf(),
            self.reaches(r as int, c as int),
        ensures
            v as int == self.grid().at(r as int, c as int),
            v == self.values()[r * self.width() + c],
    {
        proof {
            if r < self.height() && c < self.width() {
                grid::lemma_cell(self.height(), self.width(), r as int, c as int);
            }
            assert(0 <= r * self.cols) by (nonlinear_arith);
            assert(self.data.len() == self.data@.len());
        }
        self.data[r * self.cols + c]
    }

    /// Replaces the entry in row `r` and column `c`.
    pub fn set(&mut self, r: usize, c: usize, v: i64)
        requires
            old(self).wf(),
            old(self).reaches(r as int, c as int),
        ensures
            final(self).wf(),
            final(self).height() == old(self).height(),
            final(self).width() == old(self).width(),
            final(self).values() == old(self).values().update(
                r * old(self).width() + c,
                v,
            ),
    {
        proof {
            if r < self.height() && c < self.width() {
                grid::lemma_cell(self.height(), self.width(), r as int, c as int);
            }
            assert(0 <= r * self.cols) by (nonlinear_arith);
            assert(self.data.len() == self.data@.len());
        }
        let k: usize = r * self.cols + c;
        self.data.set(k, v);
    }

    /// Row `r`.
    pub fn row(&self, r: usize) -> (s: &[i64])
        requires
            self.wf(),
            r < self.height(),
        ensures
            grid::ints(s@) == self.grid().row(r as int),
            s@.len() == self.width(),
    {
        proof {
            assert(0 <= r * self.cols && r * self.cols + self.cols <= self.rows * self.cols)
                by (nonlinear_arith)
                requires
                    r < self.rows,
            ;
        }
        let start: usize = r * self.cols;
        let s = vstd::slice::slice_subrange(self.data.as_slice(), start, start + self.cols);
        assert(grid::ints(s@) =~= self.grid().row(r as int));
        s
    }

    /// Adds a vector to every row.
    pub fn add_row_vector(&self, bias: &[i64]) -> (r: Matrix)
        requires
            self.wf(),
            bias@.len() == self.width(),
            grid::add_row(self.grid(), grid::ints(bias@)).fits(),
        ensures
            r.wf(),
            r.grid() == grid::add_row(self.grid(), grid::ints(bias@)),
    {
        let ghost want = grid::add_row(self.grid(), grid::ints(bias@));
        let mut out: Vec<i64> = Vec::new();
        let n: usize = self.data.len();
        let mut k: usize = 0;
        while k < n
            invariant
                k <= n,
                n == self.data@.len(),
                self.wf(),
                bias@.len() == self.cols,
                want == grid::add_row(self.grid(), grid::ints(bias@)),
                want.fits(),
                out@.len() == k,
                forall|i: int| 0 <= i < k ==> #[trigger] out@[i] as int == want.data[i],
            decreases n - k,
        {
            proof {
                grid::lemma_position(self.height(), self.width(), k as int);
                assert(grid::in_i64(want.data[k as int]));
            }
            let v: i64 = self.data[k] + bias[k % self.cols];
            out.push(v);
            k += 1;
        }
        let r = Matrix { rows: self.rows, cols: self.cols, data: out };
        assert(r.grid() =~= want);
        r
    }

    /// The entrywise sum.
    pub fn add_matrix(&self, rhs: &Matrix) -> (r: Matrix)
        requires
            self.wf(),
            rhs.wf(),
            self.height() == rhs.height(),
            self.width() == rhs.width(),
            grid::add_grid(self.grid(), rhs.grid()).fits(),
        ensures
            r.wf(),
            r.grid() == grid::add_grid(self.grid(), rhs.grid()),
    {
        let ghost want = grid::add_grid(self.grid(), rhs.grid());
        let mut out: Vec<i64> = Vec::new();
        let n: usize = self.data.len();
        let mut k: usize = 0;
        while k < n
            invariant
                k <= n,
                n == self.data@.len(),
                n == rhs.data@.len(),
                want == grid::add_grid(self.grid(), rhs.grid()),
                want.fits(),
                out@.len() == k,
                forall|i: int| 0 <= i < k ==> #[trigger] out@[i] as int == want.data[i],
            decreases n - k,
        {
            assert(grid::in_i64(want.data[k as int]));
            out.push(self.data[k] + rhs.data[k]);
            k += 1;
        }
        let r = Matrix { rows: self.rows, cols: self.cols, data: out };
        assert(r.grid() =~= want);
        r
    }

    /// The matrix product.
    pub fn matmul(&self, rhs: &Matrix) -> (r: Matrix)
        requires
            self.wf(),
            rhs.wf(),
            self.width() == rhs.height(),
            self.height() * rhs.width() <= usize::MAX,
            grid::product_fits(self.grid(), rhs.grid()),
        ensures
            r.wf(),
            r.grid() == grid::product(self.grid(), rhs.grid()),
    {
        let ghost (a, b) = (self.grid(), rhs.grid());
        let ghost want = grid::product(a, b);
        let mut out: Vec<i64> = Vec::new();
        let mut i: usize = 0;
        assert(0 * rhs.cols == 0) by (nonlinear_arith);
        while i < self.rows
            invariant
                i <= self.rows,
                self.wf(),
                rhs.wf(),
                self.width() == rhs.height(),
                a == self.grid(),
                b == rhs.grid(),
                want == grid::product(a, b),
                grid::product_fits(a, b),
                out@.len() == i * rhs.cols,
                forall|k: int| 0 <= k < out@.len() ==> #[trigger] out@[k] as int == want.data[k],
            decreases self.rows - i,
        {
            let mut j: usize = 0;
            while j < rhs.cols
                invariant
                    i < self.rows,
                    j <= rhs.cols,
                    self.wf(),
                    rhs.wf(),
                    self.width() == rhs.height(),
                    a == self.grid(),
                    b == rhs.grid(),
                    want == grid::product(a, b),
                    grid::product_fits(a, b),
                    out@.len() == i * rhs.cols + j,
                    forall|k: int|
                        0 <= k < out@.len() ==> #[trigger] out@[k] as int == want.data[k],
                decreases rhs.cols - j,
            {
                let mut acc: i128 = 0;
                let mut k: usize = 0;
                let ghost f = |k: int| a.at(i as int, k) * b.at(k, j as int);
                while k < self.cols
                    invariant
                        i < self.rows,
                        j < rhs.cols,
                        k <= self.cols,
                        self.wf(),
                        rhs.wf(),
                        self.width() == rhs.height(),
                        a == self.grid(),
                        b == rhs.grid(),
                        grid::product_fits(a, b),
                        f == (|k: int| a.at(i as int, k) * b.at(k, j as int)),
                        acc == grid::row_dot(a, b, i as int, j as int, k as nat),
                    decreases self.cols - k,
                {
                    let x: i64 = self.get(i, k);
                    let y: i64 = rhs.get(k, j);
                    proof {
                        lemma_wide_product(x, y);
                        assert(grid::row_dot(a, b, i as int, j as int, (k + 1) as nat)
                            == grid::row_dot(a, b, i as int, j as int, k as nat) + f(k as int));
                        assert(grid::in_i128(
                            grid::row_dot(a, b, i as int, j as int, (k + 1) as nat),
                        ));
                    }
                    acc = acc + (x as i128) * (y as i128);
                    k += 1;
                }
                proof {
                    grid::lemma_cell(a.rows, b.cols, i as int, j as int);
                    assert(want.data[i * rhs.cols + j] == acc);
                    assert(grid::in_i64(want.data[i * rhs.cols + j]));
                }
                out.push(checked_i128_to_i64(acc));
                j += 1;
            }
            assert((i + 1) * rhs.cols == i * rhs.cols + rhs.cols) by (nonlinear_arith);
            i += 1;
        }
        let r = Matrix { rows: self.rows, cols: rhs.cols, data: out };
        assert(out.len() == out@.len());
        assert(r.grid() =~= want);
        r
    }

    /// The product with the transpose of `rhs`.
    pub fn matmul_transposed_rhs(&self, rhs: &Matrix) -> (r: Matrix)
        requires
            self.wf(),
            rhs.wf(),
            self.width() == rhs.width(),
            self.height() * rhs.height() <= usize::MAX,
            grid::product_transposed_fits(self.grid(), rhs.grid()),
        ensures
            r.wf(),
            r.grid() == grid::product_transposed(self.grid(), rhs.grid()),
    {
        let ghost (a, b) = (self.grid(), rhs.grid());
        let ghost want = grid::product_transposed(a, b);
        let mut out: Vec<i64> = Vec::new();
        let mut i: usize = 0;
        assert(0 * rhs.rows == 0) by (nonlinear_arith);
        while i < self.rows
            invariant
                i <= self.rows,
                self.wf(),
                rhs.wf(),
                self.width() == rhs.width(),
                a == self.grid(),
                b == rhs.grid(),
                want == grid::product_transposed(a, b),
                grid::product_transposed_fits(a, b),
                out@.len() == i * rhs.rows,
                forall|k: int| 0 <= k < out@.len() ==> #[trigger] out@[k] as int == want.data[k],
            decreases self.rows - i,
        {
            let mut j: usize = 0;
            while j < rhs.rows
                invariant
                    i < self.rows,
                    j <= rhs.rows,
                    self.wf(),
                    rhs.wf(),
                    self.width() == rhs.width(),
                    a == self.grid(),
                    b == rhs.grid(),
                    want == grid::product_transposed(a, b),
                    grid::product_transposed_fits(a, b),
                    out@.len() == i * rhs.rows + j,
                    forall|k: int|
                        0 <= k < out@.len() ==> #[trigger] out@[k] as int == want.data[k],
                decreases rhs.rows - j,
            {
                let mut acc: i128 = 0;
                let mut k: usize = 0;
                let ghost f = |k: int| a.at(i as int, k) * b.at(j as int, k);
                while k < self.cols
                    invariant
                        i < self.rows,
                        j < rhs.rows,
                        k <= self.cols,
                        self.wf(),
                        rhs.wf(),
                        self.width() == rhs.width(),
                        a == self.grid(),
                        b == rhs.grid(),
                        grid::product_transposed_fits(a, b),
                        f == (|k: int| a.at(i as int, k) * b.at(j as int, k)),
                        acc == grid::rows_dot(a, b, i as int, j as int, k as nat),
                    decreases self.cols - k,
                {
                    let x: i64 = self.get(i, k);
                    let y: i64 = rhs.get(j, k);
                    proof {
                        lemma_wide_product(x, y);
                        assert(grid::rows_dot(a, b, i as int, j as int, (k + 1) as nat)
                            == grid::rows_dot(a, b, i as int, j as int, k as nat) + f(k as int));
                        assert(grid::in_i128(
                            grid::rows_dot(a, b, i as int, j as int, (k + 1) as nat),
                        ));
                    }
                    acc = acc + (x as i128) * (y as i128);
                    k += 1;
                }
                proof {
                    grid::lemma_cell(a.rows, b.rows, i as int, j as int);
                    assert(want.data[i * rhs.rows + j] == acc);
                    assert(grid::in_i64(want.data[i * rhs.rows + j]));
                }
                out.push(checked_i128_to_i64(acc));
                j += 1;
            }
            assert((i + 1) * rhs.rows == i * rhs.rows + rhs.rows) by (nonlinear_arith);
            i += 1;
        }
        let r = Matrix { rows: self.rows, cols: rhs.rows, data: out };
        assert(out.len() == out@.len());
        assert(r.grid() =~= want);
        r
    }

    /// Divides every entry, rounding down.
    pub fn floor_div_const(&self, divisor: i64) -> (r: Matrix)
        requires
            self.wf(),
            divisor > 0,
        ensures
            r.wf(),
            r.grid() == grid::floor_div(self.grid(), divisor as int),
    {
        let ghost want = grid::floor_div(self.grid(), divisor as int);
        let mut out: Vec<i64> = Vec::new();
        let n: usize = self.data.len();
        let mut k: usize = 0;
        while k < n
            invariant
                k <= n,
                n == self.data@.len(),
                divisor > 0,
                want == grid::floor_div(self.grid(), divisor as int),
                out@.len() == k,
                forall|i: int| 0 <= i < k ==> #[trigger] out@[i] as int == want.data[i],
            decreases n - k,
        {
            proof {
                lemma_quotient_fits(self.data@[k as int] as int, divisor as int);
            }
            out.push(floor_div_i128(self.data[k] as i128, divisor as i128));
            k += 1;
        }
        let r = Matrix { rows: self.rows, cols: self.cols, data: out };
        assert(r.grid() =~= want);
        r
    }
}

/// A product of machine integers fits a wide one.
pub proof fn lemma_wide_product(x: i64, y: i64)
    ensures
        grid::in_i128(x * y),
{
    assert(-0x4000_0000_0000_0000_0000_0000_0000_0000 <= x * y
        <= 0x4000_0000_0000_0000_0000_0000_0000_0000) by (nonlinear_arith)
        requires
            -0x8000_0000_0000_0000 <= x <= 0x7fff_ffff_ffff_ffff,
            -0x8000_0000_0000_0000 <= y <= 0x7fff_ffff_ffff_ffff,
    ;
}

/// The quotient of a machine integer fits.
proof fn lemma_quotient_fits(a: int, d: int)
    requires
        grid::in_i64(a),
        d > 0,
    ensures
        grid::in_i64(a / d),
{
    vstd::arithmetic::div_mod::lemma_fundamental_div_mod(a, d);
    let (q, r) = (a / d, a % d);
    assert(i64::MIN <= q <= i64::MAX) by (nonlinear_arith)
        requires
            a == d * q + r,
            0 <= r < d,
            d >= 1,
            i64::MIN <= a <= i64::MAX,
    ;
}

/// A third-order tensor of machine integers.
#[derive(Clone, Debug, PartialEq, Eq)]
pub struct Tensor3 {
    d0: usize,
    d1: usize,
    d2: usize,
    data: Vec<i64>,
}

impl Tensor3 {
    /// The three dimensions.
    pub closed spec fn shape(self) -> (nat, nat, nat) {
        (self.d0 as nat, self.d1 as nat, self.d2 as nat)
    }

    /// The entries, the last index varying fastest.
    pub closed spec fn values(self) -> Seq<i64> {
        self.data@
    }

    /// The entries as a matrix with one row per pair of leading indices.
    pub open spec fn grid(self) -> Grid {
        Grid {
            rows: self.shape().0 * self.shape().1,
            cols: self.shape().2,
            data: grid::ints(self.values()),
        }
    }

    /// The ideal tensor.
    pub open spec fn cube(self) -> Cube {
        Cube {
            d0: self.shape().0,
            d1: self.shape().1,
            d2: self.shape().2,
            data: grid::ints(self.values()),
        }
    }

    /// The position of `(a, b, c)` lies within the entries.
    pub open spec fn reaches(self, a: int, b: int, c: int) -> bool {
        ||| a < self.shape().0 && b < self.shape().1 && c < self.shape().2
        ||| (a * self.shape().1 + b) * self.shape().2 + c < self.values().len()
    }

    /// The entry at `(a, b, c)`.
    pub open spec fn at(self, a: int, b: int, c: int) -> int {
        self.grid().at(a * self.shape().1 + b, c)
    }

    pub open spec fn wf(self) -> bool {
        &&& self.values().len() == self.shape().0 * self.shape().1 * self.shape().2
        &&& self.shape().0 <= usize::MAX
        &&& self.shape().1 <= usize::MAX
        &&& self.shape().2 <= usize::MAX
        &&& self.values().len() <= usize::MAX
    }

    pub fn new(d0: usize, d1: usize, d2: usize, data: Vec<i64>) -> (r: Self)
        requires
            d0 * d1 * d2 == data@.len(),
        ensures
            r.wf(),
            r.shape() == (d0 as nat, d1 as nat, d2 as nat),
            r.values() == data@,
    {
        assert(data.len() == data@.len());
        Tensor3 { d0, d1, d2, data }
    }

    pub fn zeros(d0: usize, d1: usize, d2: usize) -> (r: Self)
        requires
            d0 * d1 <= usize::MAX,
            d0 * d1 * d2 <= usize::MAX,
        ensures
            r.wf(),
            r.shape() == (d0 as nat, d1 as nat, d2 as nat),
            r.grid() == grid::zero_grid((d0 * d1) as nat, d2 as nat),
    {
        let data = zero_ints(d0 * d1 * d2);
        let r = Tensor3 { d0, d1, d2, data };
        assert(r.grid() =~= grid::zero_grid((d0 * d1) as nat, d2 as nat));
        r
    }

    pub fn d0(&self) -> (r: usize)
        ensures
            r == self.shape().0,
    {
        self.d0
    }

    pub fn d1(&self) -> (r: usize)
        ensures
            r == self.shape().1,
    {
        self.d1
    }

    pub fn d2(&self) -> (r: usize)
        ensures
            r == self.shape().2,
    {
        self.d2
    }

    pub fn data(&self) -> (r: &[i64])
        ensures
            r@ == self.values(),
    {
        self.data.as_slice()
    }

    /// Compares shape and entries.
    pub fn same(&self, other: &Tensor3) -> (r: bool)
        ensures
            r == (self.cube() == other.cube()),
    {
        self.d0 == other.d0 && self.d1 == other.d1 && self.d2 == other.d2 && same_ints(
            self.data.as_slice(),
            other.data.as_slice(),
        )
    }

    /// The entry at `(a, b, c)`.
    pub fn get(&self, a: usize, b: usize, c: usize) -> (v: i64)
        requires
            self.wf(),
            self.reaches(a as int, b as int, c as int),
        ensures
            v as int == self.at(a as int, b as int, c as int),
    {
        proof {
            if a < self.shape().0 && b < self.shape().1 && c < self.shape().2 {
                lemma_index(self.d0 as nat, self.d1 as nat, self.d2 as nat, a as int, b as int, c as int);
            }
            let f = a * self.d1 + b;
            assert(0 <= a * self.d1) by (nonlinear_arith);
            if self.d2 == 0 {
                assert(self.d0 * self.d1 * self.d2 == 0) by (nonlinear_arith)
                    requires
                        self.d2 == 0,
                ;
                assert(f * self.d2 == 0) by (nonlinear_arith)
                    requires
                        self.d2 == 0,
                ;
            }
            assert(self.d2 > 0 ==> f <= f * self.d2) by (nonlinear_arith)
                requires
                    f >= 0,
            ;
            assert(0 <= f * self.d2) by (nonlinear_arith)
                requires
                    f >= 0,
            ;
            assert(self.data.len() == self.data@.len());
        }
        self.data[(a * self.d1 + b) * self.d2 + c]
    }

    /// Replaces the entry at `(a, b, c)`.
    pub fn set(&mut self, a: usize, b: usize, c: usize, v: i64)
        requires
            old(self).wf(),
            old(self).reaches(a as int, b as int, c as int),
        ensures
            final(self).wf(),
            final(self).shape() == old(self).shape(),
            final(self).values() == old(self).values().update(
                (a * old(self).shape().1 + b) * old(self).shape().2 + c,
                v,
            ),
    {
        proof {
            if a < self.shape().0 && b < self.shape().1 && c < self.shape().2 {
                lemma_index(self.d0 as nat, self.d1 as nat, self.d2 as nat, a as int, b as int, c as int);
            }
            let f = a * self.d1 + b;
            assert(0 <= a * self.d1) by (nonlinear_arith);
            if self.d2 == 0 {
                assert(self.d0 * self.d1 * self.d2 == 0) by (nonlinear_arith)
                    requires
                        self.d2 == 0,
                ;
                assert(f * self.d2 == 0) by (nonlinear_arith)
                    requires
                        self.d2 == 0,
                ;
            }
            assert(self.d2 > 0 ==> f <= f * self.d2) by (nonlinear_arith)
                requires
                    f >= 0,
            ;
            assert(0 <= f * self.d2) by (nonlinear_arith)
                requires
                    f >= 0,
            ;
            assert(self.data.len() == self.data@.len());
        }
        let k: usize = (a * self.d1 + b) * self.d2 + c;
        self.data.set(k, v);
    }

    /// The matrix at leading index `h`.
    pub fn head_matrix(&self, h: usize) -> (r: Matrix)
        requires
            self.wf(),
            h < self.shape().0,
        ensures
            r.wf(),
            r.grid() == grid::tabulate(
                self.shape().1,
                self.shape().2,
                |i: int, j: int| self.at(h as int, i, j),
            ),
    {
        let ghost want = grid::tabulate(
            self.shape().1,
            self.shape().2,
            |i: int, j: int| self.at(h as int, i, j),
        );
        let mut out: Vec<i64> = Vec::new();
        let mut i: usize = 0;
        assert(0 * self.d2 == 0) by (nonlinear_arith);
        while i < self.d1
            invariant
                i <= self.d1,
                self.wf(),
                h < self.d0,
                want == grid::tabulate(
                    self.shape().1,
                    self.shape().2,
                    |i: int, j: int| self.at(h as int, i, j),
                ),
                out@.len() == i * self.d2,
                forall|k: int| 0 <= k < out@.len() ==> #[trigger] out@[k] as int == want.data[k],
            decreases self.d1 - i,
        {
            let mut j: usize = 0;
            while j < self.d2
                invariant
                    i < self.d1,
                    j <= self.d2,
                    self.wf(),
                    h < self.d0,
                    want == grid::tabulate(
                        self.shape().1,
                        self.shape().2,
                        |i: int, j: int| self.at(h as int, i, j),
                    ),
                    out@.len() == i * self.d2 + j,
                    forall|k: int|
                        0 <= k < out@.len() ==> #[trigger] out@[k] as int == want.data[k],
                decreases self.d2 - j,
            {
                proof {
                    grid::lemma_cell(self.d1 as nat, self.d2 as nat, i as int, j as int);
                }
                out.push(self.get(h, i, j));
                j += 1;
            }
            assert((i + 1) * self.d2 == i * self.d2 + self.d2) by (nonlinear_arith);
            i += 1;
        }
        assert(out.len() == out@.len());
        let r = Matrix::new(self.d1, self.d2, out);
        assert(r.grid() =~= want);
        r
    }
}

/// Position of an entry of a tensor.
pub proof fn lemma_index(d0: nat, d1: nat, d2: nat, a: int, b: int, c: int)
    requires
        0 <= a < d0,
        0 <= b < d1,
        0 <= c < d2,
    ensures
        0 <= a * d1 <= a * d1 + b < d0 * d1,
        a * d1 + b <= d0 * d1 * d2,
        0 <= (a * d1 + b) * d2 <= (a * d1 + b) * d2 + c < d0 * d1 * d2,
{
    grid::lemma_cell(d0, d1, a, b);
    assert(0 <= a * d1) by (nonlinear_arith)
        requires
            0 <= a,
    ;
    let r = a * d1 + b;
    grid::lemma_cell(d0 * d1, d2, r, c);
    assert(0 <= r * d2 && r <= r * d2) by (nonlinear_arith)
        requires
            0 <= r,
            d2 >= 1,
    ;
}

/// Narrows a wide integer.
pub fn checked_i128_to_i64(x: i128) -> (r: i64)
    requires
        grid::in_i64(x as int),
    ensures
        r == x,
{
    x as i64
}

/// The quotient rounded down, for a positive divisor.
pub fn floor_div_i128(a: i128, b: i128) -> (r: i64)
    requires
        b > 0,
        grid::in_i64(a as int / b as int),
    ensures
        r as int == a as int / b as int,
{
    let q: i128 = wide_floor(a, b);
    checked_i128_to_i64(q)
}

/// The quotient of wide integers rounded down.
fn wide_floor(a: i128, b: i128) -> (q: i128)
    requires
        b > 0,
    ensures
        q as int == a as int / b as int,
{
    let d: u128 = b as u128;
    if a >= 0 {
        let u: u128 = a as u128;
        let q: u128 = u / d;
        proof {
            assert(0 <= u / d <= u) by (nonlinear_arith)
                requires
                    d >= 1,
            ;
        }
        q as i128
    } else {
        // a = -(u + 1), so the quotient is -(u / d + 1)
        let u: u128 = (-(a + 1)) as u128;
        let q: u128 = u / d;
        proof {
            let (ui, di) = (u as int, d as int);
            vstd::arithmetic::div_mod::lemma_fundamental_div_mod(ui, di);
            let (k, r) = (ui / di, ui % di);
            assert(0 <= k <= ui) by (nonlinear_arith)
                requires
                    ui == di * k + r,
                    0 <= r < di,
                    ui >= 0,
            ;
            assert(a as int == di * (-(k + 1)) + (di - 1 - r)) by (nonlinear_arith)
                requires
                    a as int == -(ui + 1),
                    ui == di * k + r,
            ;
            assert(di * (-(k + 1)) == (-(k + 1)) * di) by (nonlinear_arith);
            vstd::arithmetic::div_mod::lemma_fundamental_div_mod_converse(
                a as int,
                di,
                -(k + 1),
                di - 1 - r,
            );
        }
        -(q as i128) - 1
    }
}

/// The remainder of division by a positive divisor, never negative.
pub fn euclidean_remainder(a: i128, b: i128) -> (r: i64)
    requires
        b > 0,
        grid::in_i64(a as int / b as int),
        grid::in_i64(a as int % b as int),
        grid::in_i128((a as int / b as int) * b),
    ensures
        r as int == a as int % b as int,
{
    let q: i64 = floor_div_i128(a, b);
    proof {
        let (x, y) = (a as int, b as int);
        vstd::arithmetic::div_mod::lemma_fundamental_div_mod(x, y);
        let (k, r) = (x / y, x % y);
        assert(k * y == y * k) by (nonlinear_arith);
    }
    checked_i128_to_i64(a - (q as i128) * b)
}

/// `y` is the integer nearest to the square root of `n`.
pub open spec fn is_rounded_sqrt(n: int, y: int) -> bool {
    &&& y >= 0
    &&& n <= y * y + y
    &&& n == 0 || y * y - y < n
    &&& n == 0 ==> y == 0
}

/// The integer nearest to the square root.
pub open spec fn rounded_sqrt(n: int) -> int {
    choose|y: int| is_rounded_sqrt(n, y)
}

/// The nearest root is unique.
pub proof fn lemma_rounded_sqrt(n: int, y: int)
    requires
        n >= 0,
        is_rounded_sqrt(n, y),
    ensures
        rounded_sqrt(n) == y,
{
    let x = rounded_sqrt(n);
    assert(is_rounded_sqrt(n, x));
    if n > 0 {
        if x < y {
            assert(x * x + x <= y * y - y) by (nonlinear_arith)
                requires
                    0 <= x,
                    x + 1 <= y,
            ;
        }
        if y < x {
            assert(y * y + y <= x * x - x) by (nonlinear_arith)
                requires
                    0 <= y,
                    y + 1 <= x,
            ;
        }
    }
}

/// The integer nearest to the square root of `n`.
pub fn round_sqrt(n: i128) -> (r: i64)
    requires
        0 <= n <= 0x7fff_ffff_ffff_ffff * 0x7fff_ffff_ffff_ffff + 0x7fff_ffff_ffff_ffff,
    ensures
        r as int == rounded_sqrt(n as int),
        is_rounded_sqrt(n as int, r as int),
{
    // the largest y with y (y - 1) < n, found by bisection
    let mut lo: i128 = 0;
    let mut hi: i128 = 0x7fff_ffff_ffff_ffff;
    while lo < hi
        invariant
            0 <= lo <= hi <= 0x7fff_ffff_ffff_ffff,
            0 <= n <= 0x7fff_ffff_ffff_ffff * 0x7fff_ffff_ffff_ffff + 0x7fff_ffff_ffff_ffff,
            lo == 0 || lo * lo - lo < n,
            n <= hi * hi + hi,
        decreases hi - lo,
    {
        let mid: i128 = lo + half(hi - lo);
        assert(0 <= mid * mid <= 0x3fff_ffff_ffff_ffff_0000_0000_0000_0001) by (nonlinear_arith)
            requires
                0 <= mid <= 0x7fff_ffff_ffff_ffff,
        ;
        if n <= mid * mid + mid {
            hi = mid;
        } else {
            lo = mid + 1;
            assert((mid + 1) * (mid + 1) - (mid + 1) == mid * mid + mid) by (nonlinear_arith);
        }
    }
    proof {
        if n == 0 && lo > 0 {
            assert(lo * lo - lo >= 0) by (nonlinear_arith)
                requires
                    lo >= 1,
            ;
        }
        if lo == 0 {
            assert(0 * 0 + 0 == 0int);
        }
        lemma_rounded_sqrt(n as int, lo as int);
    }
    checked_i128_to_i64(lo)
}

/// Half of a nonnegative integer, rounded down.
fn half(x: i128) -> (r: i128)
    requires
        x >= 0,
    ensures
        r == x as int / 2,
        x > 0 ==> r < x,
{
    let u: u128 = x as u128;
    (u / 2) as i128
}

/// Division by a positive integer: the quotient times the divisor plus the
/// remainder gives the number back, and the remainder lies below the divisor.
pub proof fn law_floor_division(a: int, b: int)
    requires
        b > 0,
    ensures
        a == (a / b) * b + a % b,
        0 <= a % b < b,
{
    vstd::arithmetic::div_mod::lemma_fundamental_div_mod(a, b);
    assert((a / b) * b == b * (a / b)) by (nonlinear_arith);
}

} // verus!
