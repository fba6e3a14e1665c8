//! The subset-sum hash: a public matrix `A` with `C` rows hashes a bit vector to
//! the sum of the columns of `A` that its set bits select. The hash is linear, so
//! digests of an encoded matrix can be combined and evaluated later.
use vstd::prelude::*;
use vstd::arithmetic::power2::pow2;
use crate::algebra;
use crate::field::Field;
use crate::multilinear;
use crate::views;

verus! {

/// Number of field elements in a digest.
pub const C: usize = 32;

/// The public matrix, by rows.
#[derive(Debug, Clone)]
pub struct SubsetSumHash<F: Field> {
    pub a: Vec<Vec<F>>,
    pub width: usize,
}

/// A bit as a field element.
pub open spec fn bit<F: Field>(b: bool) -> F {
    if b {
        F::one()
    } else {
        F::zero()
    }
}

/// `a` where the bit is set, zero elsewhere.
pub open spec fn gated<F: Field>(b: bool, a: F) -> F {
    if b {
        a
    } else {
        F::zero()
    }
}

/// The digest of the bit vector `x` under the matrix with the given rows.
pub open spec fn digest<F: Field>(rows: Seq<Seq<F>>, x: Seq<bool>) -> Seq<F> {
    Seq::new(rows.len(), |r: int| algebra::sum(x.len(), |i: int| gated(x[i], rows[r][i])))
}

/// The rows one after the other.
pub open spec fn flat_rows<F: Field>(rows: Seq<Seq<F>>, width: nat) -> Seq<F> {
    Seq::new(rows.len() * width, |k: int| rows[k / width as int][k % width as int])
}

impl<F: Field> SubsetSumHash<F> {
    /// The rows of the matrix.
    pub open spec fn rows(self) -> Seq<Seq<F>> {
        views::nested(self.a@)
    }

    /// The matrix has `C` rows of the stated width.
    pub open spec fn wf(self) -> bool {
        &&& self.a@.len() == C
        &&& forall|r: int| 0 <= r < self.a@.len() ==> (#[trigger] self.a@[r])@.len() == self.width
        &&& forall|r: int|
            0 <= r < self.a@.len() ==> algebra::all_valid((#[trigger] self.a@[r])@)
    }

    /// Samples a matrix uniformly.
    pub fn new(width: usize, rng: &mut rand::rngs::ThreadRng) -> (r: Self)
        ensures
            r.wf(),
            r.width == width,
    {
        let mut a: Vec<Vec<F>> = Vec::new();
        let mut k: usize = 0;
        while k < C
            invariant
                k <= C,
                a@.len() == k,
                forall|r: int| 0 <= r < a@.len() ==> (#[trigger] a@[r])@.len() == width,
                forall|r: int| 0 <= r < a@.len() ==> algebra::all_valid((#[trigger] a@[r])@),
            decreases C - k,
        {
            let mut row: Vec<F> = Vec::new();
            let mut i: usize = 0;
            while i < width
                invariant
                    i <= width,
                    row@.len() == i,
                    algebra::all_valid(row@),
                decreases width - i,
            {
                row.push(F::sample(rng));
                i += 1;
            }
            a.push(row);
            k += 1;
        }
        SubsetSumHash { a, width }
    }

    /// Hashes one bit column.
    pub fn hash_column(&self, x: &[bool]) -> (r: Vec<F>)
        requires
            self.wf(),
            x@.len() == self.width,
        ensures
            r@ == digest(self.rows(), x@),
            algebra::all_valid(r@),
    {
        let ghost rows = self.rows();
        let mut out: Vec<F> = Vec::new();
        let mut r: usize = 0;
        while r < C
            invariant
                r <= C,
                rows == self.rows(),
                self.wf(),
                x@.len() == self.width,
                out@ == digest(rows, x@).take(r as int),
                algebra::all_valid(out@),
            decreases C - r,
        {
            let mut acc = F::new_zero();
            let mut i: usize = 0;
            let ghost f = |i: int| gated(x@[i], rows[r as int][i]);
            assert(self.a@[r as int]@.len() == self.width);
            while i < x.len()
                invariant
                    i <= x.len(),
                    r < C,
                    rows == self.rows(),
                    x@.len() == self.width,
                    self.a@.len() == C,
                    self.a@[r as int]@.len() == self.width,
                    f == (|i: int| gated(x@[i], rows[r as int][i])),
                    acc == algebra::sum(i as nat, f),
                    acc.valid(),
                decreases x.len() - i,
            {
                if x[i] {
                    let ghost before = acc;
                    acc = acc.add(self.a[r][i]);
                    proof {
                        F::law_valid(before, self.a@[r as int]@[i as int]);
                    }
                } else {
                    proof {
                        F::law_add_zero(acc);
                    }
                }
                i += 1;
            }
            out.push(acc);
            assert(digest(rows, x@).take(r + 1) =~= digest(rows, x@).take(r as int).push(
                digest(rows, x@)[r as int],
            ));
            r += 1;
        }
        assert(digest(rows, x@).take(C as int) =~= digest(rows, x@));
        out
    }

    /// Hashes every column; the result is by rows.
    pub fn hash_columns(&self, cols: &[Vec<bool>]) -> (h: Vec<Vec<F>>)
        requires
            self.wf(),
            forall|j: int| 0 <= j < cols@.len() ==> (#[trigger] cols@[j])@.len() == self.width,
        ensures
            h@.len() == C,
            forall|r: int| 0 <= r < C ==> (#[trigger] h@[r])@.len() == cols@.len(),
            forall|r: int, j: int|
                0 <= r < C && 0 <= j < cols@.len() ==> #[trigger] h@[r]@[j] == digest(
                    self.rows(),
                    cols@[j]@,
                )[r],
    {
        let ghost rows = self.rows();
        let mut digests: Vec<Vec<F>> = Vec::new();
        let mut j: usize = 0;
        while j < cols.len()
            invariant
                j <= cols.len(),
                rows == self.rows(),
                self.wf(),
                forall|j: int|
                    0 <= j < cols@.len() ==> (#[trigger] cols@[j])@.len() == self.width,
                digests@.len() == j,
                forall|k: int|
                    0 <= k < j ==> (#[trigger] digests@[k])@ == digest(rows, cols@[k]@),
            decreases cols.len() - j,
        {
            assert(cols@[j as int]@.len() == self.width);
            digests.push(self.hash_column(cols[j].as_slice()));
            j += 1;
        }
        let mut h: Vec<Vec<F>> = Vec::new();
        let mut r: usize = 0;
        while r < C
            invariant
                r <= C,
                rows.len() == C,
                digests@.len() == cols@.len(),
                forall|k: int|
                    0 <= k < cols@.len() ==> (#[trigger] digests@[k])@ == digest(
                        rows,
                        cols@[k]@,
                    ),
                h@.len() == r,
                forall|k: int| 0 <= k < r ==> (#[trigger] h@[k])@.len() == cols@.len(),
                forall|k: int, j: int|
                    0 <= k < r && 0 <= j < cols@.len() ==> #[trigger] h@[k]@[j] == digest(
                        rows,
                        cols@[j]@,
                    )[k],
            decreases C - r,
        {
            let mut row: Vec<F> = Vec::new();
            let mut j: usize = 0;
            while j < digests.len()
                invariant
                    j <= digests.len(),
                    r < C,
                    rows.len() == C,
                    digests@.len() == cols@.len(),
                    forall|k: int|
                        0 <= k < cols@.len() ==> (#[trigger] digests@[k])@ == digest(
                            rows,
                            cols@[k]@,
                        ),
                    row@.len() == j,
                    forall|k: int|
                        0 <= k < j ==> #[trigger] row@[k] == digest(rows, cols@[k]@)[r as int],
                decreases digests.len() - j,
            {
                assert(digests@[j as int]@ == digest(rows, cols@[j as int]@));
                row.push(digests[j][r]);
                j += 1;
            }
            h.push(row);
            r += 1;
        }
        h
    }

    /// The matrix as one multilinear polynomial: the low variables run over the
    /// width, the high ones over the rows.
    pub fn a_mle_flat(&self) -> (r: Vec<F>)
        requires
            self.wf(),
            C * self.width <= usize::MAX,
        ensures
            r@ == flat_rows(self.rows(), self.width as nat),
    {
        let ghost rows = self.rows();
        let w: usize = self.width;
        let ghost flat = flat_rows(rows, w as nat);
        let mut out: Vec<F> = Vec::new();
        let mut r: usize = 0;
        assert(flat.take(0) =~= Seq::<F>::empty());
        assert(0 * w == 0) by (nonlinear_arith);
        while r < C
            invariant
                r <= C,
                w == self.width,
                self.wf(),
                rows == self.rows(),
                flat == flat_rows(rows, w as nat),
                out@ == flat.take(r * w),
            decreases C - r,
        {
            assert(self.a@[r as int]@.len() == w);
            let mut i: usize = 0;
            while i < w
                invariant
                    i <= w,
                    r < C,
                    w == self.width,
                    self.wf(),
                    self.a@[r as int]@.len() == w,
                    rows == self.rows(),
                    flat == flat_rows(rows, w as nat),
                    out@ == flat.take(r * w + i),
                decreases w - i,
            {
                proof {
                    assert(r * w + i < C * w && 0 <= r * w) by (nonlinear_arith)
                        requires
                            r < C,
                            i < w,
                    ;
                    vstd::arithmetic::div_mod::lemma_fundamental_div_mod_converse(
                        r * w + i,
                        w as int,
                        r as int,
                        i as int,
                    );
                }
                out.push(self.a[r][i]);
                assert(flat.take(r * w + i + 1) =~= flat.take(r * w + i).push(
                    flat[r * w + i],
                ));
                i += 1;
            }
            assert((r + 1) * w == r * w + w) by (nonlinear_arith);
            r += 1;
        }
        assert(flat.take(C * w) =~= flat);
        out
    }
}

/// The digest is the product of the matrix with the bit vector.
pub proof fn law_digest_is_product<F: Field>(rows: Seq<Seq<F>>, x: Seq<bool>, r: int)
    requires
        0 <= r < rows.len(),
        rows[r].len() == x.len(),
        algebra::all_valid(rows[r]),
    ensures
        digest(rows, x)[r] == algebra::sum(x.len(), |i: int| rows[r][i] * bit::<F>(x[i])),
{
    let f = |i: int| gated(x[i], rows[r][i]);
    let g = |i: int| rows[r][i] * bit::<F>(x[i]);
    assert forall|i: int| 0 <= i < x.len() implies #[trigger] f(i) == g(i) by {
        assert(rows[r][i].valid());
        if x[i] {
            F::law_mul_one(rows[r][i]);
        } else {
            algebra::mul_zero(rows[r][i]);
        }
    }
    algebra::sum_ext(x.len(), f, g);
}

/// Linearity: the digest of the union of two disjoint bit vectors is the sum of
/// their digests.
pub proof fn law_digest_adds<F: Field>(
    rows: Seq<Seq<F>>,
    x: Seq<bool>,
    y: Seq<bool>,
    r: int,
)
    requires
        0 <= r < rows.len(),
        rows[r].len() == x.len(),
        algebra::all_valid(rows[r]),
        y.len() == x.len(),
        forall|i: int| 0 <= i < x.len() ==> !(#[trigger] x[i] && y[i]),
    ensures
        digest(rows, Seq::new(x.len(), |i: int| x[i] || y[i]))[r] == digest(rows, x)[r]
            + digest(rows, y)[r],
{
    let z = Seq::new(x.len(), |i: int| x[i] || y[i]);
    let f = |i: int| gated(x[i], rows[r][i]);
    let g = |i: int| gated(y[i], rows[r][i]);
    let h = |i: int| gated(z[i], rows[r][i]);
    let fg = |i: int| f(i) + g(i);
    algebra::sum_add(x.len(), f, g);
    assert forall|i: int| 0 <= i < x.len() implies #[trigger] h(i) == fg(i) by {
        assert(rows[r][i].valid());
        assert(!(x[i] && y[i]));
        F::law_valid(rows[r][i], rows[r][i]);
        if x[i] {
            F::law_add_zero(rows[r][i]);
        } else if y[i] {
            algebra::zero_add(rows[r][i]);
        } else {
            F::law_add_zero(F::zero());
        }
    }
    algebra::sum_ext(x.len(), h, fg);
}

/// The flat polynomial folds the width by the low coordinates and the rows by the
/// high ones.
pub proof fn law_flat_eval<F: Field>(rows: Seq<Seq<F>>, col: Seq<F>, row: Seq<F>)
    requires
        rows.len() == pow2(row.len()),
        forall|r: int| 0 <= r < rows.len() ==> (#[trigger] rows[r]).len() == pow2(col.len()),
    ensures
        multilinear::mle(flat_rows(rows, pow2(col.len())), col + row) == multilinear::mle(
            Seq::new(rows.len(), |r: int| multilinear::mle(rows[r], col)),
            row,
        ),
{
    let w = pow2(col.len());
    let flat = flat_rows(rows, w);
    let n = col.len() + row.len();
    vstd::arithmetic::power2::lemma_pow2_pos(col.len());
    vstd::arithmetic::power2::lemma_pow2_adds(col.len(), row.len());
    assert(rows.len() * w == w * rows.len()) by (nonlinear_arith);
    multilinear::lemma_fold_all_concat(flat, col, row);
    let folded = multilinear::fold_all(flat, col);
    multilinear::lemma_fold_all_len(flat, col, n);
    let values = Seq::new(rows.len(), |r: int| multilinear::mle(rows[r], col));
    assert((n - col.len()) as nat == row.len());
    assert forall|r: int| 0 <= r < rows.len() implies #[trigger] folded[r] == values[r] by {
        multilinear::lemma_fold_block(flat, col, n, r);
        assert(rows[r].len() == w);
        let block = flat.subrange(r * w, (r + 1) * w);
        assert((r + 1) * w - r * w == w) by (nonlinear_arith);
        assert forall|i: int| 0 <= i < w implies #[trigger] block[i] == rows[r][i] by {
            vstd::arithmetic::div_mod::lemma_fundamental_div_mod_converse(
                r * w + i,
                w as int,
                r,
                i,
            );
        }
        assert(block =~= rows[r]);
    }
    assert(folded =~= values);
}

} // verus!
