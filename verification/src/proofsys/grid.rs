//! The mathematics of integer tensors: ideal matrices over the integers.
use vstd::prelude::*;

verus! {

/// `sum_{i < n} f(i)`.
pub open spec fn isum(n: nat, f: spec_fn(int) -> int) -> int
    decreases n,
{
    if n == 0 {
        0
    } else {
        isum((n - 1) as nat, f) + f(n - 1)
    }
}

/// A matrix of integers, row by row.
#[verifier::ext_equal]
pub struct Grid {
    pub rows: nat,
    pub cols: nat,
    pub data: Seq<int>,
}

/// The values of machine integers.
pub open spec fn ints(s: Seq<i64>) -> Seq<int> {
    Seq::new(s.len(), |i: int| s[i] as int)
}

/// The value fits a machine integer.
pub open spec fn in_i64(x: int) -> bool {
    i64::MIN <= x <= i64::MAX
}

/// The value fits a wide machine integer.
pub open spec fn in_i128(x: int) -> bool {
    i128::MIN <= x <= i128::MAX
}

impl Grid {
    /// Every row is complete.
    pub open spec fn wf(self) -> bool {
        self.data.len() == self.rows * self.cols
    }

    /// The entry in row `r` and column `c`.
    pub open spec fn at(self, r: int, c: int) -> int {
        self.data[r * self.cols + c]
    }

    /// Row `r`.
    pub open spec fn row(self, r: int) -> Seq<int> {
        Seq::new(self.cols, |c: int| self.at(r, c))
    }

    /// All entries fit machine integers.
    pub open spec fn fits(self) -> bool {
        forall|k: int| 0 <= k < self.data.len() ==> in_i64(#[trigger] self.data[k])
    }
}

/// The matrix with entries `f(r, c)`.
pub open spec fn tabulate(rows: nat, cols: nat, f: spec_fn(int, int) -> int) -> Grid {
    Grid {
        rows,
        cols,
        data: Seq::new(rows * cols, |k: int| f(k / cols as int, k % cols as int)),
    }
}

/// Position of an entry.
pub proof fn lemma_cell(rows: nat, cols: nat, r: int, c: int)
    requires
        0 <= r < rows,
        0 <= c < cols,
    ensures
        0 <= r * cols + c < rows * cols,
        (r * cols + c) / cols as int == r,
        (r * cols + c) % cols as int == c,
{
    vstd::arithmetic::div_mod::lemma_fundamental_div_mod_converse(
        r * cols + c,
        cols as int,
        r,
        c,
    );
    assert(0 <= r * cols + c < rows * cols) by (nonlinear_arith)
        requires
            0 <= r < rows,
            0 <= c < cols,
    ;
}

/// Every position is the position of an entry.
pub proof fn lemma_position(rows: nat, cols: nat, k: int)
    requires
        0 <= k < rows * cols,
    ensures
        0 <= (k / cols as int) < rows,
        0 <= (k % cols as int) < cols,
        (k / cols as int) * cols + k % cols as int == k,
{
    if cols == 0 {
        assert(rows * cols == 0) by (nonlinear_arith)
            requires
                cols == 0,
        ;
    }
    vstd::arithmetic::div_mod::lemma_fundamental_div_mod(k, cols as int);
    let (r, c) = (k / cols as int, k % cols as int);
    assert(0 <= r < rows) by (nonlinear_arith)
        requires
            k == cols * r + c,
            0 <= k < rows * cols,
            0 <= c < cols,
    ;
    assert(r * cols == cols * r) by (nonlinear_arith);
}

/// Entries of a tabulated matrix.
pub proof fn lemma_tabulate(rows: nat, cols: nat, f: spec_fn(int, int) -> int, r: int, c: int)
    requires
        0 <= r < rows,
        0 <= c < cols,
    ensures
        tabulate(rows, cols, f).at(r, c) == f(r, c),
{
    lemma_cell(rows, cols, r, c);
}

/// Matrices with the same shape and entries are equal.
pub proof fn lemma_grid_equal(a: Grid, b: Grid)
    requires
        a.wf(),
        b.wf(),
        a.rows == b.rows,
        a.cols == b.cols,
        forall|r: int, c: int|
            0 <= r < a.rows && 0 <= c < a.cols ==> #[trigger] a.at(r, c) == b.at(r, c),
    ensures
        a == b,
{
    assert forall|k: int| 0 <= k < a.data.len() implies #[trigger] a.data[k] == b.data[k] by {
        lemma_position(a.rows, a.cols, k);
        assert(a.at(k / a.cols as int, k % a.cols as int) == b.at(
            k / a.cols as int,
            k % a.cols as int,
        ));
    }
    assert(a =~= b);
}

/// The part of an inner product up to `n` terms.
pub open spec fn row_dot(a: Grid, b: Grid, i: int, j: int, n: nat) -> int {
    isum(n, |k: int| a.at(i, k) * b.at(k, j))
}

/// The matrix product.
pub open spec fn product(a: Grid, b: Grid) -> Grid {
    tabulate(a.rows, b.cols, |i: int, j: int| row_dot(a, b, i, j, a.cols))
}

/// The part of an inner product of two rows up to `n` terms.
pub open spec fn rows_dot(a: Grid, b: Grid, i: int, j: int, n: nat) -> int {
    isum(n, |k: int| a.at(i, k) * b.at(j, k))
}

/// The product with the transpose of `b`.
pub open spec fn product_transposed(a: Grid, b: Grid) -> Grid {
    tabulate(a.rows, b.rows, |i: int, j: int| rows_dot(a, b, i, j, a.cols))
}

/// No sum of a product leaves the machine integers.
pub open spec fn product_fits(a: Grid, b: Grid) -> bool {
    &&& forall|i: int, j: int, n: nat|
        0 <= i < a.rows && 0 <= j < b.cols && n <= a.cols ==> in_i128(
            #[trigger] row_dot(a, b, i, j, n),
        )
    &&& product(a, b).fits()
}

/// No sum of a product with a transpose leaves the machine integers.
pub open spec fn product_transposed_fits(a: Grid, b: Grid) -> bool {
    &&& forall|i: int, j: int, n: nat|
        0 <= i < a.rows && 0 <= j < b.rows && n <= a.cols ==> in_i128(
            #[trigger] rows_dot(a, b, i, j, n),
        )
    &&& product_transposed(a, b).fits()
}

/// Every entry divided, rounding down.
pub open spec fn floor_div(a: Grid, d: int) -> Grid {
    Grid { rows: a.rows, cols: a.cols, data: Seq::new(a.data.len(), |k: int| a.data[k] / d) }
}

/// A row vector added to every row.
pub open spec fn add_row(a: Grid, bias: Seq<int>) -> Grid {
    Grid {
        rows: a.rows,
        cols: a.cols,
        data: Seq::new(a.data.len(), |k: int| a.data[k] + bias[k % a.cols as int]),
    }
}

/// The entrywise sum.
pub open spec fn add_grid(a: Grid, b: Grid) -> Grid {
    Grid {
        rows: a.rows,
        cols: a.cols,
        data: Seq::new(a.data.len(), |k: int| a.data[k] + b.data[k]),
    }
}

/// The zero matrix.
pub open spec fn zero_grid(rows: nat, cols: nat) -> Grid {
    Grid { rows, cols, data: Seq::new(rows * cols, |k: int| 0) }
}

/// A third-order tensor of integers, the last index varying fastest.
#[verifier::ext_equal]
pub struct Cube {
    pub d0: nat,
    pub d1: nat,
    pub d2: nat,
    pub data: Seq<int>,
}

/// A matrix as a tensor with one leading index.
pub open spec fn single(g: Grid) -> Cube {
    Cube { d0: 1, d1: g.rows, d2: g.cols, data: g.data }
}

/// Sums of equal terms are equal.
pub proof fn lemma_isum_ext(n: nat, f: spec_fn(int) -> int, g: spec_fn(int) -> int)
    requires
        forall|i: int| 0 <= i < n ==> #[trigger] f(i) == g(i),
    ensures
        isum(n, f) == isum(n, g),
    decreases n,
{
    if n > 0 {
        lemma_isum_ext((n - 1) as nat, f, g);
        assert(f(n - 1) == g(n - 1));
    }
}

/// Sums of nonnegative terms grow.
pub proof fn lemma_isum_grows(m: nat, n: nat, f: spec_fn(int) -> int)
    requires
        m <= n,
        forall|i: int| 0 <= i < n ==> #[trigger] f(i) >= 0,
    ensures
        0 <= isum(m, f) <= isum(n, f),
    decreases n,
{
    if m < n {
        lemma_isum_grows(m, (n - 1) as nat, f);
        assert(f(n - 1) >= 0);
    } else if n > 0 {
        lemma_isum_grows((n - 1) as nat, (n - 1) as nat, f);
        assert(f(n - 1) >= 0);
    }
}

/// A sum of integers is bounded by the sum of their squares.
pub proof fn lemma_isum_squares(n: nat, f: spec_fn(int) -> int)
    ensures
        -isum(n, |i: int| f(i) * f(i)) <= isum(n, f) <= isum(n, |i: int| f(i) * f(i)),
    decreases n,
{
    let s = |i: int| f(i) * f(i);
    if n > 0 {
        lemma_isum_squares((n - 1) as nat, f);
        let x = f(n - 1);
        assert(-(x * x) <= x <= x * x) by (nonlinear_arith);
    }
}

/// `sum (f_i - x)^2 == sum f_i^2 - 2 x sum f_i + n x^2`.
proof fn lemma_isum_shift(n: nat, f: spec_fn(int) -> int, x: int)
    ensures
        isum(n, |i: int| (f(i) - x) * (f(i) - x)) == isum(n, |i: int| f(i) * f(i)) - 2 * x
            * isum(n, f) + n * x * x,
    decreases n,
{
    let d = |i: int| (f(i) - x) * (f(i) - x);
    let s = |i: int| f(i) * f(i);
    if n == 0 {
        assert(2 * x * 0 == 0 && 0 * x * x == 0) by (nonlinear_arith);
    } else {
        let m = (n - 1) as nat;
        lemma_isum_shift(m, f, x);
        let (y, a) = (f(n - 1), isum(m, f));
        assert((y - x) * (y - x) == y * y - 2 * x * y + x * x) by (nonlinear_arith);
        assert(2 * x * (a + y) == 2 * x * a + 2 * x * y) by (nonlinear_arith);
        assert(n * x * x == m * x * x + x * x) by (nonlinear_arith)
            requires
                n == m + 1,
        ;
    }
}

/// The square of a sum is at most the number of terms times the sum of squares.
pub proof fn lemma_cauchy(n: nat, f: spec_fn(int) -> int)
    ensures
        isum(n, f) * isum(n, f) <= isum(n, |i: int| f(i) * f(i)) * n,
    decreases n,
{
    let s = |i: int| f(i) * f(i);
    if n == 0 {
        assert(0 * 0 <= 0int * 0) by (nonlinear_arith);
    } else {
        let m = (n - 1) as nat;
        lemma_cauchy(m, f);
        let x = f(n - 1);
        lemma_isum_shift(m, f, x);
        let d = |i: int| (f(i) - x) * (f(i) - x);
        assert forall|i: int| 0 <= i < m implies #[trigger] d(i) >= 0 by {
            let y = f(i) - x;
            assert(y * y >= 0) by (nonlinear_arith);
        }
        lemma_isum_grows(0, m, d);
        let (a, b) = (isum(m, f), isum(m, s));
        assert((a + x) * (a + x) <= (b + x * x) * n) by (nonlinear_arith)
            requires
                a * a <= b * m,
                b - 2 * x * a + m * x * x >= 0,
                n == m + 1,
        ;
    }
}

} // verus!
