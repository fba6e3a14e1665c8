//! The algebra behind an honest opening.
use vstd::prelude::*;
use vstd::arithmetic::power2::pow2;
use crate::algebra;
use crate::field::{Field, Goldilocks, GoldilocksExt2};
use crate::logup::lookup;
use crate::multilinear;
use crate::pcs::basefold;
use crate::pcs::domain;
use crate::pcs::domain::LeafField;
use crate::pcs::subset_sum;
use crate::polynomial;
use crate::utils::sumcheck;
use super::opening;
use super::tables;
use super::tables::ETA;

verus! {

/// `a^T (M b) == (a^T M) b`.
pub proof fn lemma_assoc<F: Field>(
    m: nat,
    n: nat,
    a: spec_fn(int) -> F,
    b: spec_fn(int) -> F,
    mat: spec_fn(int, int) -> F,
)
    ensures
        algebra::sum(m, |k: int| a(k) * algebra::sum(n, |i: int| mat(k, i) * b(i)))
            == algebra::sum(n, |i: int| algebra::sum(m, |k: int| a(k) * mat(k, i)) * b(i)),
{
    let t = |k: int, i: int| a(k) * (mat(k, i) * b(i));
    let left = |k: int| a(k) * algebra::sum(n, |i: int| mat(k, i) * b(i));
    let l2 = |k: int| algebra::sum(n, |i: int| t(k, i));
    assert forall|k: int| 0 <= k < m implies #[trigger] left(k) == l2(k) by {
        let f = |i: int| mat(k, i) * b(i);
        algebra::sum_scale(n, a(k), f);
        algebra::sum_ext(n, |i: int| a(k) * f(i), |i: int| t(k, i));
    }
    algebra::sum_ext(m, left, l2);
    algebra::sum_swap(m, n, t);
    let right = |i: int| algebra::sum(m, |k: int| a(k) * mat(k, i)) * b(i);
    let r2 = |i: int| algebra::sum(m, |k: int| t(k, i));
    assert forall|i: int| 0 <= i < n implies #[trigger] right(i) == r2(i) by {
        let f = |k: int| a(k) * mat(k, i);
        let s = algebra::sum(m, f);
        F::law_mul_comm(s, b(i));
        algebra::sum_scale(m, b(i), f);
        let g = |k: int| b(i) * f(k);
        let h = |k: int| t(k, i);
        assert forall|k: int| 0 <= k < m implies #[trigger] g(k) == h(k) by {
            F::law_mul_comm(b(i), a(k) * mat(k, i));
            F::law_mul_assoc(a(k), mat(k, i), b(i));
        }
        algebra::sum_ext(m, g, h);
    }
    algebra::sum_ext(n, right, r2);
}

/// `sum_i p_i q_i`.
pub open spec fn dot<F: Field>(p: Seq<F>, q: Seq<F>) -> F {
    algebra::sum(p.len(), |i: int| p[i] * q[i])
}

/// The sum that a product of two tables stands for.
pub proof fn lemma_hypercube_dot(p: Seq<GoldilocksExt2>, q: Seq<GoldilocksExt2>)
    requires
        algebra::all_valid(p),
    ensures
        sumcheck::hypercube_sum(seq![p, q]) == dot(p, q),
{
    let polys = seq![p, q];
    let f = |i: int| sumcheck::vertex_product(polys, i);
    let g = |i: int| p[i] * q[i];
    assert forall|i: int| 0 <= i < p.len() implies #[trigger] f(i) == g(i) by {
        let h = |j: int| polys[j][i];
        assert(algebra::prod(0, h) == GoldilocksExt2::one());
        assert(algebra::prod(1, h) == algebra::prod(0, h) * h(0));
        assert(algebra::prod(2, h) == algebra::prod(1, h) * h(1));
        assert(p[i].valid());
        algebra::one_mul(p[i]);
    }
    algebra::sum_ext(p.len(), f, g);
}

/// The value at a point as a weighted sum, weights first.
pub proof fn lemma_mle_dot(s: Seq<GoldilocksExt2>, point: Seq<GoldilocksExt2>)
    requires
        s.len() == pow2(point.len()),
        algebra::all_valid(s),
    ensures
        multilinear::mle(s, point) == dot(multilinear::eq_table(point), s),
        multilinear::mle(s, point) == dot(s, multilinear::eq_table(point)),
{
    let e = multilinear::eq_table(point);
    multilinear::lemma_mle_sum(s, point);
    multilinear::lemma_eq_table_len(point);
    let f = |i: int| s[i] * e[i];
    let g = |i: int| e[i] * s[i];
    assert forall|i: int| 0 <= i < s.len() implies #[trigger] f(i) == g(i) by {
        GoldilocksExt2::law_mul_comm(s[i], e[i]);
    }
    algebra::sum_ext(s.len(), f, g);
}

/// The rows of a matrix combined with weights.
pub open spec fn combination(
    rows: Seq<Seq<GoldilocksExt2>>,
    weights: Seq<GoldilocksExt2>,
    len: nat,
) -> Seq<GoldilocksExt2> {
    Seq::new(len, |j: int| algebra::sum(rows.len(), |r: int| weights[r] * rows[r][j]))
}

/// Evaluating a matrix is evaluating the combination of its rows.
pub proof fn lemma_rows_eval(
    rows: Seq<Seq<GoldilocksExt2>>,
    col: Seq<GoldilocksExt2>,
    row: Seq<GoldilocksExt2>,
)
    requires
        rows.len() == pow2(row.len()),
        forall|r: int| 0 <= r < rows.len() ==> (#[trigger] rows[r]).len() == pow2(col.len()),
        forall|r: int| 0 <= r < rows.len() ==> algebra::all_valid(#[trigger] rows[r]),
    ensures
        multilinear::mle(subset_sum::flat_rows(rows, pow2(col.len())), col + row)
            == multilinear::mle(
            combination(rows, multilinear::eq_table(row), pow2(col.len())),
            col,
        ),
{
    let e = multilinear::eq_table(row);
    subset_sum::law_flat_eval(rows, col, row);
    let values = Seq::new(rows.len(), |r: int| multilinear::mle(rows[r], col));
    assert(algebra::all_valid(values)) by {
        assert forall|r: int| 0 <= r < values.len() implies (#[trigger] values[r]).valid() by {
            lemma_mle_valid(rows[r], col);
        }
    }
    lemma_mle_dot(values, row);
    multilinear::lemma_eq_table_len(row);
    basefold::lemma_mle_combination(rows, e, rows.len(), col);
    let f = |r: int| e[r] * values[r];
    let g = |r: int| e[r] * multilinear::mle(rows[r], col);
    algebra::sum_ext(rows.len(), f, g);
}

pub proof fn lemma_mle_valid(s: Seq<GoldilocksExt2>, point: Seq<GoldilocksExt2>)
    requires
        s.len() == pow2(point.len()),
        algebra::all_valid(s),
    ensures
        multilinear::mle(s, point).valid(),
{
    multilinear::lemma_fold_all_valid(s, point);
    multilinear::lemma_fold_all_len(s, point, point.len());
    multilinear::lemma_pow2_zero();
    assert(multilinear::fold_all(s, point)[0].valid());
}

/// The products of bits with their complements vanish.
pub proof fn lemma_binary_sum(
    b: Seq<GoldilocksExt2>,
    e: Seq<GoldilocksExt2>,
)
    requires
        forall|i: int|
            0 <= i < b.len() ==> #[trigger] b[i] == GoldilocksExt2::zero() || b[i]
                == GoldilocksExt2::one(),
    ensures
        sumcheck::hypercube_sum(seq![b, opening::minus_one(b), e]) == GoldilocksExt2::zero(),
{
    let polys = seq![b, opening::minus_one(b), e];
    let f = |i: int| sumcheck::vertex_product(polys, i);
    assert forall|i: int| 0 <= i < b.len() implies #[trigger] f(i) == GoldilocksExt2::zero() by {
        let h = |j: int| polys[j][i];
        if b[i] == GoldilocksExt2::zero() {
            assert(h(0) == GoldilocksExt2::zero());
            algebra::prod_zero(3, 0, h);
        } else {
            algebra::sub_self(GoldilocksExt2::one());
            assert(h(1) == GoldilocksExt2::zero());
            algebra::prod_zero(3, 1, h);
        }
    }
    algebra::sum_zero(b.len(), f);
}

/// The value of a table less one.
pub proof fn lemma_mle_minus_one(s: Seq<GoldilocksExt2>, point: Seq<GoldilocksExt2>)
    requires
        s.len() == pow2(point.len()),
    ensures
        multilinear::mle(opening::minus_one(s), point) == multilinear::mle(s, point)
            - GoldilocksExt2::one(),
{
    let one = GoldilocksExt2::one();
    let minus = one.spec_neg();
    let o = lookup::ones::<GoldilocksExt2>(s.len());
    let t = Seq::new(o.len(), |i: int| minus * o[i]);
    let u = Seq::new(s.len(), |i: int| s[i] + t[i]);
    lookup::lemma_mle_ones::<GoldilocksExt2>(point);
    multilinear::lemma_mle_scale(minus, o, point);
    multilinear::lemma_mle_add(s, t, point);
    GoldilocksExt2::law_valid(one, one);
    GoldilocksExt2::law_mul_one(minus);
    assert forall|i: int| 0 <= i < s.len() implies #[trigger] opening::minus_one(s)[i]
        == u[i] by {
        GoldilocksExt2::law_sub(s[i], one);
    }
    assert(opening::minus_one(s) =~= u);
    GoldilocksExt2::law_sub(multilinear::mle(s, point), one);
}

/// A bit in the extension.
pub open spec fn ext_bit(b: bool) -> GoldilocksExt2 {
    subset_sum::bit::<GoldilocksExt2>(b)
}

pub proof fn lemma_gated(b: bool, w: GoldilocksExt2)
    requires
        w.valid(),
    ensures
        subset_sum::gated(b, w) == w * ext_bit(b),
        subset_sum::gated(b, w).valid(),
{
    GoldilocksExt2::law_valid(w, w);
    if b {
        GoldilocksExt2::law_mul_one(w);
    } else {
        algebra::mul_zero(w);
    }
}

pub proof fn lemma_lift_bit(b: bool)
    ensures
        subset_sum::bit::<Goldilocks>(b).lift() == ext_bit(b),
        ext_bit(b).valid(),
{
    domain::lemma_up(Goldilocks::zero(), Goldilocks::one());
    GoldilocksExt2::law_valid(GoldilocksExt2::one(), GoldilocksExt2::one());
}

/// Lifting a sum.
pub proof fn lemma_lift_sum(n: nat, f: spec_fn(int) -> Goldilocks)
    ensures
        algebra::sum(n, f).lift() == algebra::sum(n, |i: int| f(i).lift()),
    decreases n,
{
    domain::lemma_up(Goldilocks::zero(), Goldilocks::one());
    if n > 0 {
        let m = (n - 1) as nat;
        lemma_lift_sum(m, f);
        domain::lemma_up(algebra::sum(m, f), f(n - 1));
    }
}

/// A digest entry as a sum over the bits, in the extension.
pub proof fn lemma_digest_lift(row: Seq<Goldilocks>, x: Seq<bool>)
    requires
        row.len() == x.len(),
        algebra::all_valid(row),
    ensures
        algebra::sum(x.len(), |i: int| subset_sum::gated(x[i], row[i])).lift() == algebra::sum(
            x.len(),
            |i: int| row[i].lift() * ext_bit(x[i]),
        ),
{
    let f = |i: int| subset_sum::gated(x[i], row[i]);
    lemma_lift_sum(x.len(), f);
    let g = |i: int| f(i).lift();
    let h = |i: int| row[i].lift() * ext_bit(x[i]);
    assert forall|i: int| 0 <= i < x.len() implies #[trigger] g(i) == h(i) by {
        assert(row[i].valid());
        domain::lemma_up(row[i], Goldilocks::zero());
        if x[i] {
            GoldilocksExt2::law_mul_one(row[i].lift());
        } else {
            algebra::mul_zero(row[i].lift());
        }
    }
    algebra::sum_ext(x.len(), g, h);
}

/// The combined columns, with the weights in front.
pub proof fn lemma_folded_bits(
    bits: Seq<Seq<bool>>,
    idx: Seq<usize>,
    weights: Seq<GoldilocksExt2>,
    width: nat,
    i: int,
)
    requires
        0 <= i < width,
        weights.len() == idx.len(),
        algebra::all_valid(weights),
    ensures
        tables::folded_bits(bits, idx, weights, width)[i] == algebra::sum(
            idx.len(),
            |k: int| weights[k] * ext_bit(bits[idx[k] as int][i]),
        ),
{
    let f = |k: int| subset_sum::gated(bits[idx[k] as int][i], weights[k]);
    let g = |k: int| weights[k] * ext_bit(bits[idx[k] as int][i]);
    assert forall|k: int| 0 <= k < idx.len() implies #[trigger] f(k) == g(k) by {
        assert(weights[k].valid());
        lemma_gated(bits[idx[k] as int][i], weights[k]);
    }
    algebra::sum_ext(idx.len(), f, g);
}

/// A weighted sum against the combined columns is the combination of the weighted
/// sums against each column.
pub proof fn lemma_columns_dot(
    v: Seq<GoldilocksExt2>,
    bits: Seq<Seq<bool>>,
    idx: Seq<usize>,
    weights: Seq<GoldilocksExt2>,
)
    requires
        weights.len() == idx.len(),
        algebra::all_valid(weights),
    ensures
        dot(v, tables::folded_bits(bits, idx, weights, v.len())) == algebra::sum(
            idx.len(),
            |k: int| weights[k] * column_dot(v, bits[idx[k] as int]),
        ),
{
    let n = v.len();
    let g2 = tables::folded_bits(bits, idx, weights, n);
    let a = |k: int| weights[k];
    let b = |i: int| v[i];
    let mat = |k: int, i: int| ext_bit(bits[idx[k] as int][i]);
    lemma_assoc(idx.len(), n, a, b, mat);
    let left = |k: int| a(k) * algebra::sum(n, |i: int| mat(k, i) * b(i));
    let want = |k: int| weights[k] * column_dot(v, bits[idx[k] as int]);
    assert forall|k: int| 0 <= k < idx.len() implies #[trigger] left(k) == want(k) by {
        let x = bits[idx[k] as int];
        let f = |i: int| mat(k, i) * b(i);
        let h = |i: int| v[i] * ext_bit(x[i]);
        assert forall|i: int| 0 <= i < n implies #[trigger] f(i) == h(i) by {
            GoldilocksExt2::law_mul_comm(ext_bit(x[i]), v[i]);
        }
        algebra::sum_ext(n, f, h);
    }
    algebra::sum_ext(idx.len(), left, want);
    let right = |i: int| algebra::sum(idx.len(), |k: int| a(k) * mat(k, i)) * b(i);
    let have = |i: int| v[i] * g2[i];
    assert forall|i: int| 0 <= i < n implies #[trigger] right(i) == have(i) by {
        lemma_folded_bits(bits, idx, weights, n, i);
        let f = |k: int| a(k) * mat(k, i);
        let h = |k: int| weights[k] * ext_bit(bits[idx[k] as int][i]);
        algebra::sum_ext(idx.len(), f, h);
        GoldilocksExt2::law_mul_comm(g2[i], v[i]);
    }
    algebra::sum_ext(n, right, have);
}

/// `sum_i v_i x_i` for a bit column.
pub open spec fn column_dot(v: Seq<GoldilocksExt2>, x: Seq<bool>) -> GoldilocksExt2 {
    algebra::sum(v.len(), |i: int| v[i] * ext_bit(x[i]))
}

/// The folded hash against a bit column is the folded digest.
pub proof fn lemma_hash_column(
    rows: Seq<Seq<Goldilocks>>,
    alpha: Seq<GoldilocksExt2>,
    x: Seq<bool>,
)
    requires
        forall|r: int| 0 <= r < rows.len() ==> (#[trigger] rows[r]).len() == x.len(),
        forall|r: int| 0 <= r < rows.len() ==> algebra::all_valid(#[trigger] rows[r]),
    ensures
        column_dot(tables::folded_hash(rows, alpha, x.len()), x) == basefold::compress_leaf(
            subset_sum::digest(rows, x),
            alpha,
        ),
{
    let n = x.len();
    let m = rows.len();
    let g1 = tables::folded_hash(rows, alpha, n);
    let a = |r: int| alpha[r];
    let b = |i: int| ext_bit(x[i]);
    let mat = |r: int, i: int| rows[r][i].lift();
    lemma_assoc(m, n, a, b, mat);
    let dg = subset_sum::digest(rows, x);
    let left = |r: int| a(r) * algebra::sum(n, |i: int| mat(r, i) * b(i));
    let want = |r: int| alpha[r] * dg[r].lift();
    assert forall|r: int| 0 <= r < m implies #[trigger] left(r) == want(r) by {
        assert(rows[r].len() == n);
        assert(algebra::all_valid(rows[r]));
        lemma_digest_lift(rows[r], x);
        let f = |i: int| mat(r, i) * b(i);
        let h = |i: int| rows[r][i].lift() * ext_bit(x[i]);
        algebra::sum_ext(n, f, h);
        let u = |i: int| subset_sum::gated(x[i], rows[r][i]);
        assert(dg[r] == algebra::sum(n, u));
    }
    algebra::sum_ext(m, left, want);
    let right = |i: int| algebra::sum(m, |r: int| a(r) * mat(r, i)) * b(i);
    let have = |i: int| g1[i] * ext_bit(x[i]);
    assert forall|i: int| 0 <= i < n implies #[trigger] right(i) == have(i) by {
        let f = |r: int| a(r) * mat(r, i);
        let h = |r: int| alpha[r] * rows[r][i].lift();
        algebra::sum_ext(m, f, h);
    }
    algebra::sum_ext(n, right, have);
}

/// A number below `2^n` is the sum of its bits' weights.
pub open spec fn bit_sum(v: int, n: nat) -> int
    decreases n,
{
    if n == 0 {
        0
    } else {
        bit_sum(v, (n - 1) as nat) + (if tables::bit_of(v, (n - 1) as nat) {
            pow2((n - 1) as nat) as int
        } else {
            0
        })
    }
}

pub proof fn lemma_bit_sum(v: int, n: nat)
    requires
        0 <= v,
    ensures
        bit_sum(v, n) == v % pow2(n) as int,
    decreases n,
{
    multilinear::lemma_pow2_zero();
    if n == 0 {
        assert(v % 1 == 0);
    } else {
        let k = (n - 1) as nat;
        lemma_bit_sum(v, k);
        multilinear::lemma_pow2_step(n);
        vstd::arithmetic::power2::lemma_pow2_pos(k);
        let p = pow2(k) as int;
        vstd::arithmetic::div_mod::lemma_fundamental_div_mod(v, p);
        let q = v / p;
        vstd::arithmetic::div_mod::lemma_fundamental_div_mod(q, 2);
        let (h, b) = (q / 2, q % 2);
        let r = v % p;
        assert(v == (2 * p) * h + (p * b + r)) by (nonlinear_arith)
            requires
                v == p * q + r,
                q == 2 * h + b,
        ;
        assert(0 <= p * b + r < 2 * p) by (nonlinear_arith)
            requires
                0 <= r < p,
                0 <= b <= 1,
        ;
        vstd::arithmetic::div_mod::lemma_fundamental_div_mod_converse(v, 2 * p, h, p * b + r);
        assert(b == 0 ==> p * b == 0) by (nonlinear_arith);
        assert(b == 1 ==> p * b == p) by (nonlinear_arith);
    }
}

/// The bit weights rebuild an element.
pub proof fn lemma_recompose(v: Goldilocks, n: nat)
    requires
        v.valid(),
    ensures
        algebra::sum(
            n,
            |k: int|
                Goldilocks::embed(pow2(k as nat) as int).lift() * ext_bit(
                    tables::bit_of(v@, k as nat),
                ),
        ) == Goldilocks::embed(bit_sum(v@, n)).lift(),
    decreases n,
{
    let f = |k: int|
        Goldilocks::embed(pow2(k as nat) as int).lift() * ext_bit(tables::bit_of(v@, k as nat));
    Goldilocks::law_embed(0, 0);
    domain::lemma_up(Goldilocks::zero(), Goldilocks::one());
    if n > 0 {
        let k = (n - 1) as nat;
        lemma_recompose(v, k);
        let w = pow2(k) as int;
        let e = Goldilocks::embed(w);
        Goldilocks::law_embed(w, 0);
        Goldilocks::law_embed(bit_sum(v@, k), w);
        Goldilocks::law_embed(bit_sum(v@, k), 0);
        domain::lemma_up(e, e);
        domain::lemma_up(Goldilocks::embed(bit_sum(v@, k)), e);
        domain::lemma_up(Goldilocks::embed(bit_sum(v@, k)), Goldilocks::zero());
        if tables::bit_of(v@, k) {
            GoldilocksExt2::law_mul_one(e.lift());
        } else {
            algebra::mul_zero(e.lift());
        }
    }
}

/// Summing over blocks of length `b`.
pub proof fn lemma_sum_blocks<F: Field>(m: nat, b: nat, f: spec_fn(int) -> F)
    ensures
        algebra::sum(b * m, f) == algebra::sum(
            m,
            |i: int| algebra::sum(b, |k: int| f(b * i + k)),
        ),
    decreases m,
{
    let g = |i: int| algebra::sum(b, |k: int| f(b * i + k));
    if m == 0 {
        assert(b * m == 0) by (nonlinear_arith)
            requires
                m == 0,
        ;
    } else {
        let l = (m - 1) as nat;
        lemma_sum_blocks(l, b, f);
        assert(b * m == b * l + b) by (nonlinear_arith)
            requires
                m == l + 1,
        ;
        algebra::sum_split(b * l, b, f);
        let h = |k: int| f(b * l + k);
        let h2 = |k: int| f(b * (m - 1) + k);
        algebra::sum_ext(b, h, h2);
        assert(g(m - 1) == algebra::sum(b, h2));
    }
}

/// The evaluation as a sum over the coefficients.
pub proof fn lemma_eval_sum(c: Seq<GoldilocksExt2>, x: GoldilocksExt2)
    requires
        algebra::all_valid(c),
    ensures
        polynomial::poly_eval(c, x) == algebra::sum(
            c.len(),
            |k: int| domain::pow(x, k as nat) * c[k],
        ),
        polynomial::poly_eval(c, x).valid(),
    decreases c.len(),
{
    let f = |k: int| domain::pow(x, k as nat) * c[k];
    GoldilocksExt2::law_valid(GoldilocksExt2::zero(), GoldilocksExt2::zero());
    if c.len() > 0 {
        let d = c.drop_first();
        let n = d.len();
        assert(algebra::all_valid(d)) by {
            assert forall|i: int| 0 <= i < d.len() implies (#[trigger] d[i]).valid() by {
                assert(c[i + 1].valid());
            }
        }
        lemma_eval_sum(d, x);
        algebra::sum_split(1, n, f);
        let g = |i: int| f(1 + i);
        let h = |k: int| domain::pow(x, k as nat) * d[k];
        algebra::sum_scale(n, x, h);
        let xh = |k: int| x * h(k);
        assert forall|k: int| 0 <= k < n implies #[trigger] g(k) == xh(k) by {
            assert(domain::pow(x, (1 + k) as nat) == x * domain::pow(x, k as nat));
            GoldilocksExt2::law_mul_assoc(x, domain::pow(x, k as nat), d[k]);
        }
        algebra::sum_ext(n, g, xh);
        assert(c[0].valid());
        assert(f(0) == GoldilocksExt2::one() * c[0]);
        algebra::one_mul(c[0]);
        assert(algebra::sum(0, f) == GoldilocksExt2::zero());
        assert(algebra::sum(1, f) == algebra::sum(0, f) + f(0));
        algebra::zero_add(c[0]);
        assert(1 + n == c.len());
        GoldilocksExt2::law_valid(c[0], x * polynomial::poly_eval(d, x));
    }
}

pub proof fn lemma_pow_mul<F: Field>(x: F, a: nat, b: nat)
    ensures
        domain::pow(domain::pow(x, a), b) == domain::pow(x, a * b),
    decreases b,
{
    if b == 0 {
        assert(a * b == 0) by (nonlinear_arith)
            requires
                b == 0,
        ;
    } else {
        let c = (b - 1) as nat;
        lemma_pow_mul(x, a, c);
        assert(a * b == a + a * c) by (nonlinear_arith)
            requires
                b == c + 1,
        ;
        domain::lemma_pow_add(x, a, a * c);
    }
}

/// The generator's exponents count modulo the order.
pub proof fn lemma_root_period(a: nat, e: nat)
    requires
        1 <= a <= 32,
    ensures
        domain::pow(domain::root(a), e) == domain::pow(
            domain::root(a),
            (e as int % pow2(a) as int) as nat,
        ),
{
    let g = domain::root(a);
    let n = pow2(a);
    let h = pow2((a - 1) as nat);
    multilinear::lemma_pow2_step(a);
    vstd::arithmetic::power2::lemma_pow2_pos(a);
    domain::lemma_root_half(a);
    domain::lemma_pow_add(g, h, h);
    assert(h + h == n);
    Goldilocks::law_embed(0, 1);
    Goldilocks::law_embed(1, 0);
    Goldilocks::law_embed(0 - 1, 0 - 1);
    assert((0 - 1) * (0 - 1) == 1);
    assert(domain::pow(g, n) == Goldilocks::one());
    let q = (e as int / n as int) as nat;
    let r = (e as int % n as int) as nat;
    vstd::arithmetic::div_mod::lemma_fundamental_div_mod(e as int, n as int);
    vstd::arithmetic::div_mod::lemma_div_pos_is_pos(e as int, n as int);
    vstd::arithmetic::div_mod::lemma_mod_bound(e as int, n as int);
    lemma_pow_mul(g, n, q);
    domain::lemma_pow_one::<Goldilocks>(q);
    domain::lemma_pow_add(g, n * q, r);
    domain::lemma_pow_valid(g, r);
    algebra::one_mul(domain::pow(g, r));
    assert(n * q + r == e);
}

/// The powers of `y`.
pub open spec fn powers(y: GoldilocksExt2, n: nat) -> Seq<GoldilocksExt2> {
    Seq::new(n, |j: int| domain::pow(y, j as nat))
}

/// The factor of variable `t` in the value of the powers' table.
pub open spec fn power_factor(
    y: GoldilocksExt2,
    r: Seq<GoldilocksExt2>,
    t: int,
) -> GoldilocksExt2 {
    GoldilocksExt2::one() - r[t] + r[t] * domain::pow(y, pow2(t as nat))
}

/// The table of powers evaluates to a product.
pub proof fn lemma_mle_powers(y: GoldilocksExt2, r: Seq<GoldilocksExt2>)
    ensures
        multilinear::mle(powers(y, pow2(r.len())), r) == algebra::prod(
            r.len(),
            |t: int| power_factor(y, r, t),
        ),
    decreases r.len(),
{
    let f = |t: int| power_factor(y, r, t);
    let one = GoldilocksExt2::one();
    multilinear::lemma_pow2_zero();
    if r.len() > 0 {
        multilinear::lemma_pow2_step(r.len());
        let rest = r.drop_first();
        let n = pow2(rest.len());
        let s = powers(y, pow2(r.len()));
        let sq = y * y;
        let c = one - r[0] + r[0] * y;
        let base = powers(sq, n);
        let scaled = Seq::new(base.len(), |i: int| c * base[i]);
        let folded = multilinear::fold_low(s, r[0]);
        assert forall|i: int| 0 <= i < n implies #[trigger] folded[i] == scaled[i] by {
            let p = domain::pow(y, (2 * i) as nat);
            domain::lemma_pow_square(y, i as nat);
            domain::lemma_pow_valid(y, (2 * i) as nat);
            assert(domain::pow(y, (2 * i + 1) as nat) == y * p);
            algebra::lerp_weighted(p, y * p, r[0]);
            algebra::distrib_right(one - r[0], r[0] * y, p);
            GoldilocksExt2::law_mul_assoc(r[0], y, p);
        }
        assert(folded =~= scaled);
        multilinear::lemma_mle_scale(c, base, rest);
        lemma_mle_powers(sq, rest);
        let g = |t: int| power_factor(sq, rest, t);
        let h = |t: int| f(t + 1);
        assert forall|t: int| 0 <= t < rest.len() implies #[trigger] g(t) == h(t) by {
            multilinear::lemma_pow2_step((t + 1) as nat);
            domain::lemma_pow_square(y, pow2(t as nat));
        }
        algebra::prod_ext(rest.len(), g, h);
        GoldilocksExt2::law_valid(one - r[0], r[0] * domain::pow(y, pow2(0)));
        multilinear::lemma_prod_first(r.len(), f);
        assert(domain::pow(y, 1) == y * domain::pow(y, 0));
        assert(f(0) == one - r[0] + r[0] * (y * one));
        lemma_factor_one(r[0], y);
        let f1 = |i: int| f(i + 1);
        algebra::prod_ext(rest.len(), h, f1);
    }
}

proof fn lemma_factor_one(r: GoldilocksExt2, y: GoldilocksExt2)
    ensures
        r * (y * GoldilocksExt2::one()) == r * y,
{
    GoldilocksExt2::law_mul_assoc(r, y, GoldilocksExt2::one());
    GoldilocksExt2::law_valid(r, y);
    GoldilocksExt2::law_mul_one(r * y);
}

/// The encoding of `a` at `r3` is the sum of the coefficients with the encoding
/// weights.
pub proof fn lemma_rs_link(c: Seq<GoldilocksExt2>, r3: Seq<GoldilocksExt2>, a: nat)
    requires
        1 <= a <= 32,
        r3.len() == a,
        algebra::all_valid(c),
    ensures
        dot(c, tables::encoding_weights(r3, a, c.len())) == multilinear::mle(
            domain::codeword(c, a),
            r3,
        ),
        algebra::all_valid(domain::codeword(c, a)),
{
    let ra = domain::codeword(c, a);
    let n = c.len();
    let len = pow2(a);
    let e = multilinear::eq_table(r3);
    let g = domain::up(domain::root(a));
    let w = tables::encoding_weights(r3, a, n);
    let x = |j: int| domain::domain_point(a, j as nat);
    assert forall|j: int| 0 <= j < len implies #[trigger] ra[j] == polynomial::poly_eval(c, x(j))
        && ra[j].valid() by {
        lemma_codeword_point(c, a, j);
        lemma_eval_sum(c, x(j));
    }
    assert(algebra::all_valid(ra));
    lemma_mle_dot(ra, r3);
    multilinear::lemma_eq_table_len(r3);
    let fa = |j: int| e[j];
    let fb = |k: int| c[k];
    let mat = |j: int, k: int| domain::pow(x(j), k as nat);
    lemma_assoc(len, n, fa, fb, mat);
    let left = |j: int| fa(j) * algebra::sum(n, |k: int| mat(j, k) * fb(k));
    let have = |j: int| e[j] * ra[j];
    assert forall|j: int| 0 <= j < len implies #[trigger] left(j) == have(j) by {
        lemma_eval_sum(c, x(j));
        let p = |k: int| mat(j, k) * fb(k);
        let q = |k: int| domain::pow(x(j), k as nat) * c[k];
        algebra::sum_ext(n, p, q);
        assert(ra[j] == polynomial::poly_eval(c, x(j)));
    }
    algebra::sum_ext(len, left, have);
    let right = |k: int| algebra::sum(len, |j: int| fa(j) * mat(j, k)) * fb(k);
    let want = |k: int| c[k] * w[k];
    assert forall|k: int| 0 <= k < n implies #[trigger] right(k) == want(k) by {
        let y = domain::pow(g, k as nat);
        let ps = powers(y, len);
        assert(algebra::all_valid(ps)) by {
            assert forall|j: int| 0 <= j < ps.len() implies (#[trigger] ps[j]).valid() by {
                domain::lemma_pow_valid(y, j as nat);
            }
        }
        let p = |j: int| fa(j) * mat(j, k);
        let q = |j: int| e[j] * ps[j];
        assert forall|j: int| 0 <= j < len implies #[trigger] p(j) == q(j) by {
            lemma_pow_mul(g, j as nat, k as nat);
            lemma_pow_mul(g, k as nat, j as nat);
            assert((j as nat) * (k as nat) == (k as nat) * (j as nat)) by (nonlinear_arith);
        }
        algebra::sum_ext(len, p, q);
        lemma_mle_dot(ps, r3);
        lemma_mle_powers(y, r3);
        let u = |t: int| power_factor(y, r3, t);
        let v = |t: int| tables::rs_factor(r3, a, k, t);
        assert forall|t: int| 0 <= t < a implies #[trigger] u(t) == v(t) by {
            let z = pow2(t as nat);
            lemma_pow_mul(g, k as nat, z);
            assert((k as nat) * z == z * (k as nat)) by (nonlinear_arith);
            domain::lemma_up_pow(domain::root(a), z * (k as nat));
            lemma_root_period(a, z * (k as nat));
            assert(((z * k) % pow2(a) as int) as nat == ((z * (k as nat)) as int % pow2(
                a,
            ) as int) as nat);
        }
        algebra::prod_ext(a, u, v);
        GoldilocksExt2::law_mul_comm(w[k], c[k]);
    }
    algebra::sum_ext(n, right, want);
}

/// A codeword's entry is the value at the domain point.
pub proof fn lemma_codeword_point(c: Seq<GoldilocksExt2>, a: nat, j: int)
    requires
        0 <= j < pow2(a),
    ensures
        domain::codeword(c, a)[j] == polynomial::poly_eval(
            c,
            domain::domain_point(a, j as nat),
        ),
{
    domain::lemma_lift_codeword(c, a, j);
    assert(domain::lift_all(c) =~= c);
}

/// The weights rebuild the encoded combined row from a bit column.
pub proof fn lemma_recon_column(
    f: Seq<Goldilocks>,
    eqz1: Seq<GoldilocksExt2>,
    log_m: nat,
    log_n: nat,
    j: int,
)
    requires
        f.len() == pow2(log_m + log_n),
        eqz1.len() == pow2(log_m),
        0 <= j < pow2(log_n + 1),
    ensures
        column_dot(
            tables::recon_weights(eqz1, super::bit_width(log_m)),
            super::bit_column(f, log_m, log_n, j),
        ) == domain::codeword(
            tables::combined_rows(f, eqz1, pow2(log_m), pow2(log_n)),
            log_n + 1,
        )[j],
{
    let (m, n, a) = (pow2(log_m), pow2(log_n), log_n + 1);
    let width = super::bit_width(log_m);
    let v = tables::recon_weights(eqz1, width);
    let x = super::bit_column(f, log_m, log_n, j);
    let t = |i: int| v[i] * ext_bit(x[i]);
    lemma_sum_blocks(m, ETA as nat, t);
    let block = |i: int| algebra::sum(ETA as nat, |k: int| t(ETA * i + k));
    let point = domain::domain_point(a, j as nat);
    let rows = Seq::new(m, |i: int| domain::lift_all(tables::row_of(f, n, i)));
    let want = |i: int| eqz1[i] * polynomial::poly_eval(rows[i], point);
    assert forall|i: int| 0 <= i < m implies #[trigger] block(i) == want(i) by {
        let row = tables::row_of(f, n, i);
        let entry = super::encoded_row(f, log_n, i)[j];
        lemma_entry_valid(row, domain::pow(domain::root(a), j as nat));
        lemma_recompose(entry, ETA as nat);
        lemma_bit_sum(entry@, ETA as nat);
        vstd::arithmetic::power2::lemma2_to64();
        vstd::arithmetic::power2::lemma2_to64_rest();
        vstd::arithmetic::div_mod::lemma_small_mod(entry@ as nat, pow2(ETA as nat));
        entry.lemma_of_view();
        let e = |k: int|
            Goldilocks::embed(pow2(k as nat) as int).lift() * ext_bit(
                tables::bit_of(entry@, k as nat),
            );
        algebra::sum_scale(ETA as nat, eqz1[i], e);
        let se = |k: int| eqz1[i] * e(k);
        let b = |k: int| t(ETA * i + k);
        assert forall|k: int| 0 <= k < ETA implies #[trigger] b(k) == se(k) by {
            vstd::arithmetic::div_mod::lemma_fundamental_div_mod_converse(
                ETA * i + k,
                ETA as int,
                i,
                k,
            );
            assert(0 <= ETA * i + k < width) by (nonlinear_arith)
                requires
                    width == ETA * m,
                    0 <= i < m,
                    0 <= k < ETA,
            ;
            GoldilocksExt2::law_mul_assoc(
                eqz1[i],
                Goldilocks::embed(pow2(k as nat) as int).lift(),
                ext_bit(tables::bit_of(entry@, k as nat)),
            );
        }
        algebra::sum_ext(ETA as nat, b, se);
        domain::lemma_lift_codeword(row, a, j);
    }
    algebra::sum_ext(m, block, want);
    assert forall|i: int| 0 <= i < rows.len() implies (#[trigger] rows[i]).len() == n by {
    }
    basefold::lemma_eval_combination(rows, eqz1, n, m, point);
    let combo = Seq::new(n, |k: int| algebra::sum(m, |i: int| eqz1[i] * rows[i][k]));
    let a_vec = tables::combined_rows(f, eqz1, m, n);
    assert forall|k: int| 0 <= k < n implies #[trigger] combo[k] == a_vec[k] by {
        let p = |i: int| eqz1[i] * rows[i][k];
        let q = |i: int| eqz1[i] * f[i * n + k].lift();
        algebra::sum_ext(m, p, q);
    }
    assert(combo =~= a_vec);
    lemma_codeword_point(a_vec, a, j);
}

proof fn lemma_entry_valid(c: Seq<Goldilocks>, x: Goldilocks)
    ensures
        polynomial::poly_eval(c, x).valid(),
{
    Goldilocks::law_valid(x, x);
    if c.len() > 0 {
        Goldilocks::law_valid(c[0], x * polynomial::poly_eval(c.drop_first(), x));
    }
}

} // verus!
