//! Univariate polynomials: evaluation, roots, and interpolation through the
//! points `0, 1, .., n - 1`.
use vstd::prelude::*;
use crate::algebra;
use crate::field::Field;
use crate::prime;

verus! {

/// The value at `x` of the polynomial with coefficients `c`, constant term first.
pub open spec fn poly_eval<F: Field>(c: Seq<F>, x: F) -> F
    decreases c.len(),
{
    if c.len() == 0 {
        F::zero()
    } else {
        c[0] + x * poly_eval(c.drop_first(), x)
    }
}

/// `g` is, on canonical arguments, the polynomial with coefficients `c`.
pub open spec fn represents<F: Field>(c: Seq<F>, g: spec_fn(F) -> F) -> bool {
    forall|x: F| x.valid() ==> #[trigger] g(x) == poly_eval(c, x)
}

/// `g` is a polynomial with `n` coefficients.
pub open spec fn is_poly<F: Field>(g: spec_fn(F) -> F, n: nat) -> bool {
    exists|c: Seq<F>| c.len() == n && #[trigger] represents(c, g)
}

pub open spec fn coef_add<F: Field>(c: Seq<F>, d: Seq<F>) -> Seq<F> {
    Seq::new(c.len(), |i: int| c[i] + d[i])
}

pub open spec fn coef_scale<F: Field>(k: F, c: Seq<F>) -> Seq<F> {
    Seq::new(c.len(), |i: int| k * c[i])
}

spec fn coef_shift<F: Field>(c: Seq<F>) -> Seq<F> {
    seq![F::zero()] + c
}

pub proof fn poly_eval_valid<F: Field>(c: Seq<F>, x: F)
    ensures
        poly_eval(c, x).valid(),
{
    F::law_valid(F::zero(), F::zero());
    if c.len() > 0 {
        F::law_valid(c[0], x * poly_eval(c.drop_first(), x));
    }
}

pub proof fn eval_add<F: Field>(c: Seq<F>, d: Seq<F>, x: F)
    requires
        c.len() == d.len(),
    ensures
        poly_eval(coef_add(c, d), x) == poly_eval(c, x) + poly_eval(d, x),
    decreases c.len(),
{
    if c.len() == 0 {
        F::law_valid(F::zero(), F::zero());
        F::law_add_zero(F::zero());
    } else {
        let (c1, d1) = (c.drop_first(), d.drop_first());
        eval_add(c1, d1, x);
        assert(coef_add(c, d).drop_first() =~= coef_add(c1, d1));
        let (u, v) = (poly_eval(c1, x), poly_eval(d1, x));
        F::law_distrib(x, u, v);
        algebra::add_four(c[0], d[0], x * u, x * v);
    }
}

pub proof fn eval_scale<F: Field>(k: F, c: Seq<F>, x: F)
    ensures
        poly_eval(coef_scale(k, c), x) == k * poly_eval(c, x),
    decreases c.len(),
{
    if c.len() == 0 {
        algebra::mul_zero(k);
    } else {
        let c1 = c.drop_first();
        eval_scale(k, c1, x);
        assert(coef_scale(k, c).drop_first() =~= coef_scale(k, c1));
        let u = poly_eval(c1, x);
        F::law_distrib(k, c[0], x * u);
        algebra::mul_swap(k, x, u);
    }
}

proof fn eval_shift<F: Field>(c: Seq<F>, x: F)
    ensures
        poly_eval(coef_shift(c), x) == x * poly_eval(c, x),
{
    assert(coef_shift(c).drop_first() =~= c);
    F::law_valid(x, poly_eval(c, x));
    algebra::zero_add(x * poly_eval(c, x));
}

pub proof fn eval_pad<F: Field>(c: Seq<F>, x: F)
    ensures
        poly_eval(c.push(F::zero()), x) == poly_eval(c, x),
    decreases c.len(),
{
    let d = c.push(F::zero());
    F::law_valid(F::zero(), F::zero());
    if c.len() == 0 {
        assert(d.drop_first() =~= Seq::<F>::empty());
        assert(poly_eval(d.drop_first(), x) == F::zero());
        algebra::mul_zero(x);
        F::law_add_zero(F::zero());
    } else {
        eval_pad(c.drop_first(), x);
        assert(d.drop_first() =~= c.drop_first().push(F::zero()));
    }
}

/// Padding with zero coefficients.
pub proof fn is_poly_extend<F: Field>(g: spec_fn(F) -> F, n: nat, m: nat)
    requires
        is_poly(g, n),
        n <= m,
    ensures
        is_poly(g, m),
    decreases m - n,
{
    if n < m {
        let c = choose|c: Seq<F>| c.len() == n && #[trigger] represents(c, g);
        let d = c.push(F::zero());
        assert forall|x: F| x.valid() implies #[trigger] g(x) == poly_eval(d, x) by {
            eval_pad(c, x);
        }
        assert(represents(d, g));
        is_poly_extend(g, n + 1, m);
    }
}

pub proof fn is_poly_same<F: Field>(f: spec_fn(F) -> F, g: spec_fn(F) -> F, n: nat)
    requires
        is_poly(f, n),
        forall|x: F| x.valid() ==> #[trigger] g(x) == f(x),
    ensures
        is_poly(g, n),
{
    let c = choose|c: Seq<F>| c.len() == n && #[trigger] represents(c, f);
    assert forall|x: F| x.valid() implies #[trigger] g(x) == poly_eval(c, x) by {
        assert(f(x) == poly_eval(c, x));
    }
    assert(represents(c, g));
}

pub proof fn is_poly_const<F: Field>(v: F)
    requires
        v.valid(),
    ensures
        is_poly(|x: F| v, 1),
{
    let g = |x: F| v;
    let c = seq![v];
    assert forall|x: F| x.valid() implies #[trigger] g(x) == poly_eval(c, x) by {
        assert(c.drop_first() =~= Seq::<F>::empty());
        assert(poly_eval(c.drop_first(), x) == F::zero());
        algebra::mul_zero(x);
        algebra::zero_add(v);
    }
    assert(represents(c, g));
}

pub proof fn is_poly_zero<F: Field>(n: nat)
    ensures
        is_poly(|x: F| F::zero(), n),
{
    let g = |x: F| F::zero();
    assert(represents(Seq::<F>::empty(), g));
    is_poly_extend(g, 0, n);
}

pub proof fn is_poly_add<F: Field>(f: spec_fn(F) -> F, g: spec_fn(F) -> F, n: nat)
    requires
        is_poly(f, n),
        is_poly(g, n),
    ensures
        is_poly(|x: F| f(x) + g(x), n),
{
    let h = |x: F| f(x) + g(x);
    let c = choose|c: Seq<F>| c.len() == n && #[trigger] represents(c, f);
    let d = choose|c: Seq<F>| c.len() == n && #[trigger] represents(c, g);
    let e = coef_add(c, d);
    assert forall|x: F| x.valid() implies #[trigger] h(x) == poly_eval(e, x) by {
        eval_add(c, d, x);
        assert(f(x) == poly_eval(c, x));
        assert(g(x) == poly_eval(d, x));
    }
    assert(represents(e, h));
}

pub proof fn is_poly_scale<F: Field>(k: F, g: spec_fn(F) -> F, n: nat)
    requires
        is_poly(g, n),
    ensures
        is_poly(|x: F| k * g(x), n),
{
    let h = |x: F| k * g(x);
    let c = choose|c: Seq<F>| c.len() == n && #[trigger] represents(c, g);
    let e = coef_scale(k, c);
    assert forall|x: F| x.valid() implies #[trigger] h(x) == poly_eval(e, x) by {
        eval_scale(k, c, x);
        assert(g(x) == poly_eval(c, x));
    }
    assert(represents(e, h));
}

/// Multiplying by the indeterminate.
pub proof fn is_poly_shift<F: Field>(g: spec_fn(F) -> F, n: nat)
    requires
        is_poly(g, n),
    ensures
        is_poly(|x: F| x * g(x), n + 1),
{
    let h = |x: F| x * g(x);
    let c = choose|c: Seq<F>| c.len() == n && #[trigger] represents(c, g);
    let e = coef_shift(c);
    assert forall|x: F| x.valid() implies #[trigger] h(x) == poly_eval(e, x) by {
        eval_shift(c, x);
        assert(g(x) == poly_eval(c, x));
    }
    assert(represents(e, h));
}

/// Multiplying by a line raises the degree by one.
pub proof fn is_poly_mul_line<F: Field>(a: F, b: F, g: spec_fn(F) -> F, n: nat)
    requires
        is_poly(g, n),
    ensures
        is_poly(|x: F| g(x) * algebra::lerp(a, b, x), n + 1),
{
    let d = b - a;
    let g1 = |x: F| a * g(x);
    let g2 = |x: F| d * g(x);
    let g3 = |x: F| x * g2(x);
    is_poly_scale(a, g, n);
    is_poly_extend(g1, n, n + 1);
    is_poly_scale(d, g, n);
    is_poly_shift(g2, n);
    let s = |x: F| g1(x) + g3(x);
    is_poly_add(g1, g3, n + 1);
    let h = |x: F| g(x) * algebra::lerp(a, b, x);
    assert forall|x: F| x.valid() implies #[trigger] h(x) == s(x) by {
        F::law_distrib(g(x), a, x * d);
        F::law_mul_comm(g(x), a);
        algebra::mul_swap(g(x), x, d);
        F::law_mul_comm(g(x), d);
    }
    is_poly_same(s, h, n + 1);
}

/// The indeterminate minus a constant is a line.
pub proof fn lemma_minus_is_line<F: Field>(a: F, x: F)
    requires
        a.valid(),
        x.valid(),
    ensures
        x - a == algebra::lerp(F::zero() - a, F::one() - a, x),
{
    let z = F::zero();
    let o = F::one();
    F::law_valid(z, a);
    F::law_valid(o, a);
    // the slope is one
    assert((o - a) - (z - a) == o) by {
        F::law_sub(o, a);
        F::law_sub(z, a);
        F::law_valid(a, a);
        algebra::zero_add(a.spec_neg());
        assert(z - a == a.spec_neg());
        algebra::sub_add(o, a.spec_neg());
    }
    algebra::one_mul(x);
    F::law_add_comm(z - a, x);
    F::law_sub(z, a);
    F::law_sub(x, a);
    F::law_valid(a, a);
    algebra::zero_add(a.spec_neg());
}

pub proof fn is_poly_sum<F: Field>(m: nat, f: spec_fn(int, F) -> F, n: nat)
    requires
        forall|i: int| 0 <= i < m ==> is_poly(#[trigger] curry(f, i), n),
    ensures
        is_poly(|x: F| algebra::sum(m, |i: int| f(i, x)), n),
    decreases m,
{
    let h = |x: F| algebra::sum(m, |i: int| f(i, x));
    if m == 0 {
        is_poly_zero::<F>(n);
        is_poly_same(|x: F| F::zero(), h, n);
    } else {
        let k = (m - 1) as nat;
        is_poly_sum(k, f, n);
        let g = |x: F| algebra::sum(k, |i: int| f(i, x));
        let t = curry(f, m - 1);
        assert(is_poly(t, n));
        is_poly_add(g, t, n);
        is_poly_same(|x: F| g(x) + t(x), h, n);
    }
}

/// `f` with its first argument fixed.
pub open spec fn curry<F: Field>(f: spec_fn(int, F) -> F, i: int) -> spec_fn(F) -> F {
    |x: F| f(i, x)
}

/// The quotient of division by `x - a`.
spec fn quotient<F: Field>(c: Seq<F>, a: F) -> Seq<F>
    decreases c.len(),
{
    if c.len() <= 1 {
        Seq::empty()
    } else {
        let t = c.drop_first();
        coef_add(t, coef_scale(a, quotient(t, a).push(F::zero())))
    }
}

proof fn quotient_len<F: Field>(c: Seq<F>, a: F)
    requires
        c.len() > 0,
    ensures
        quotient(c, a).len() == c.len() - 1,
{
}

/// Division with remainder by `x - a`.
proof fn lemma_division<F: Field>(c: Seq<F>, a: F, x: F)
    requires
        c.len() > 0,
    ensures
        poly_eval(c, x) == poly_eval(c, a) + (x - a) * poly_eval(quotient(c, a), x),
    decreases c.len(),
{
    let t = c.drop_first();
    let q = quotient(c, a);
    F::law_valid(F::zero(), F::zero());
    poly_eval_valid(c, x);
    poly_eval_valid(c, a);
    if c.len() == 1 {
        assert(t =~= Seq::<F>::empty());
        assert(poly_eval(t, x) == F::zero());
        assert(poly_eval(t, a) == F::zero());
        algebra::mul_zero(x);
        algebra::mul_zero(a);
        algebra::mul_zero(x - a);
        F::law_add_zero(poly_eval(c, a));
    } else {
        let q1 = quotient(t, a);
        quotient_len(t, a);
        lemma_division(t, a, x);
        eval_pad(q1, x);
        eval_scale(a, q1.push(F::zero()), x);
        eval_add(t, coef_scale(a, q1.push(F::zero())), x);
        let tx = poly_eval(t, x);
        let ta = poly_eval(t, a);
        let d = x - a;
        let u = d * poly_eval(q1, x);
        // tx = ta + u and q(x) = tx + a q1(x)
        assert(poly_eval(q, x) == tx + a * poly_eval(q1, x));
        F::law_distrib(d, tx, a * poly_eval(q1, x));
        algebra::mul_swap(d, a, poly_eval(q1, x));
        assert(d * poly_eval(q, x) == d * tx + a * u);
        algebra::sub_distrib(tx, x, a);
        assert(d * tx == x * tx - a * tx);
        // a tx = a ta + a u
        F::law_distrib(a, ta, u);
        poly_eval_valid(t, x);
        let (p1, p2, p3) = (x * tx, a * ta, a * u);
        F::law_valid(x, tx);
        F::law_valid(a, ta);
        F::law_valid(a, u);
        // (p1 - (p2 + p3)) + p3 == p1 - p2
        algebra::zero_add(p1);
        assert((p1 - (p2 + p3)) + p3 == p1 - p2) by {
            F::law_sub(p1, p2 + p3);
            algebra::neg_add(p2, p3);
            F::law_sub(p1, p2);
            F::law_add_assoc(p1, p2.spec_neg(), p3.spec_neg());
            F::law_valid(p1, p2);
            F::law_sub(p1 - p2, p3);
            algebra::sub_add(p1 - p2, p3);
        }
        // c0 + p1 == (c0 + p2) + (p1 - p2)
        F::law_add_assoc(c[0], p2, p1 - p2);
        algebra::sub_add(p1, p2);
    }
}

/// A polynomial with at least as many distinct roots as coefficients vanishes
/// everywhere.
pub proof fn lemma_many_roots<F: Field>(c: Seq<F>, roots: Seq<F>, x: F)
    requires
        c.len() <= roots.len(),
        algebra::all_valid(roots),
        roots.no_duplicates(),
        forall|i: int| 0 <= i < roots.len() ==> poly_eval(c, #[trigger] roots[i]) == F::zero(),
    ensures
        poly_eval(c, x) == F::zero(),
    decreases c.len(),
{
    if c.len() > 0 {
        let a = roots.last();
        let rest = roots.drop_last();
        let q = quotient(c, a);
        quotient_len(c, a);
        assert forall|i: int| 0 <= i < rest.len() implies poly_eval(q, #[trigger] rest[i])
            == F::zero() by {
            let b = rest[i];
            assert(b == roots[i]);
            assert(a == roots[roots.len() - 1]);
            assert(b.valid() && a.valid());
            lemma_division(c, a, b);
            let d = b - a;
            let v = poly_eval(q, b);
            F::law_valid(b, a);
            F::law_valid(d, v);
            algebra::zero_add(d * v);
            poly_eval_valid(q, b);
            if v != F::zero() {
                if d == F::zero() {
                    algebra::sub_zero(b, a);
                }
                algebra::mul_nonzero(d, v);
            }
        }
        assert(algebra::all_valid(rest));
        lemma_many_roots(q, rest, x);
        assert(a == roots[roots.len() - 1]);
        lemma_division(c, a, x);
        algebra::mul_zero(x - a);
        F::law_valid(F::zero(), F::zero());
        F::law_add_zero(F::zero());
    }
}

/// Two polynomials with `n` coefficients that agree at `n` distinct points agree
/// everywhere.
pub proof fn lemma_poly_unique<F: Field>(
    f: spec_fn(F) -> F,
    g: spec_fn(F) -> F,
    n: nat,
    nodes: Seq<F>,
    x: F,
)
    requires
        is_poly(f, n),
        is_poly(g, n),
        nodes.len() == n,
        algebra::all_valid(nodes),
        nodes.no_duplicates(),
        forall|i: int| 0 <= i < n ==> f(#[trigger] nodes[i]) == g(nodes[i]),
        x.valid(),
    ensures
        f(x) == g(x),
{
    let c = choose|c: Seq<F>| c.len() == n && #[trigger] represents(c, f);
    let d = choose|c: Seq<F>| c.len() == n && #[trigger] represents(c, g);
    let m = F::zero() - F::one();
    let e = coef_add(c, coef_scale(m, d));
    assert forall|y: F| y.valid() implies #[trigger] poly_eval(e, y) == f(y) - g(y) by {
        eval_scale(m, d, y);
        eval_add(c, coef_scale(m, d), y);
        assert(f(y) == poly_eval(c, y));
        assert(g(y) == poly_eval(d, y));
        poly_eval_valid(d, y);
        let v = g(y);
        algebra::sub_distrib(v, F::zero(), F::one());
        algebra::mul_zero(v);
        algebra::one_mul(v);
        F::law_sub(F::zero(), v);
        F::law_valid(v, v);
        algebra::zero_add(v.spec_neg());
        F::law_sub(f(y), v);
    }
    assert forall|i: int| 0 <= i < n implies poly_eval(e, #[trigger] nodes[i]) == F::zero() by {
        assert(nodes[i].valid());
        algebra::sub_self(f(nodes[i]));
    }
    lemma_many_roots(e, nodes, x);
    assert(poly_eval(e, x) == f(x) - g(x));
    assert(f(x) == poly_eval(c, x));
    assert(g(x) == poly_eval(d, x));
    poly_eval_valid(c, x);
    poly_eval_valid(d, x);
    algebra::sub_zero(f(x), g(x));
}

/// The factor at node `m` of the numerator of the `k`-th Lagrange basis
/// polynomial.
pub open spec fn lagrange_factor<F: Field>(k: int, r: F, m: int) -> F {
    if m == k {
        F::one()
    } else {
        r - F::embed(m)
    }
}

/// `prod_{m != k} (r - m)` over the nodes `0, .., n - 1`.
pub open spec fn lagrange_num<F: Field>(n: nat, k: int, r: F) -> F {
    algebra::prod(n, |m: int| lagrange_factor(k, r, m))
}

/// The value at `r` of the polynomial through the points `(k, evals[k])`.
pub open spec fn interpolation<F: Field>(evals: Seq<F>, r: F) -> F {
    algebra::sum(
        evals.len(),
        |k: int|
            (evals[k] * lagrange_num(evals.len(), k, r)) * lagrange_num(
                evals.len(),
                k,
                F::embed(k),
            ).inv(),
    )
}

/// Distinct small integers have distinct images.
pub proof fn lemma_embed_distinct<F: Field>(i: int, j: int)
    requires
        0 <= i < prime::p(),
        0 <= j < prime::p(),
        i != j,
    ensures
        F::embed(i) != F::embed(j),
        F::embed(i) - F::embed(j) != F::zero(),
{
    F::law_embed(i, j);
    F::law_embed(j, i);
    let d = if i > j { i - j } else { j - i };
    F::law_embed(0, d);
    if F::embed(i) - F::embed(j) == F::zero() {
        algebra::sub_zero(F::embed(i), F::embed(j));
    }
    if F::embed(i) == F::embed(j) {
        algebra::sub_self(F::embed(i));
    }
}

/// The Lagrange denominators do not vanish.
pub proof fn lemma_den_nonzero<F: Field>(n: nat, k: int)
    requires
        0 <= k < n <= prime::p(),
    ensures
        lagrange_num::<F>(n, k, F::embed(k)) != F::zero(),
{
    let f = |m: int| lagrange_factor::<F>(k, F::embed(k), m);
    assert forall|m: int| 0 <= m < n implies (#[trigger] f(m)).valid() && f(m) != F::zero() by {
        F::law_valid(F::embed(k), F::embed(m));
        if m == k {
            F::law_nontrivial();
        } else {
            lemma_embed_distinct::<F>(k, m);
        }
    }
    algebra::prod_nonzero(n, f);
}

proof fn lemma_num_is_poly<F: Field>(j: nat, k: int)
    requires
        0 <= k,
    ensures
        is_poly(
            |x: F| lagrange_num(j, k, x),
            if k < j { j } else { j + 1 },
        ),
    decreases j,
{
    let h = |x: F| lagrange_num(j, k, x);
    if j == 0 {
        F::law_valid(F::zero(), F::zero());
        is_poly_const(F::one());
        is_poly_same(|x: F| F::one(), h, 1);
    } else {
        let i = (j - 1) as nat;
        lemma_num_is_poly::<F>(i, k);
        let g = |x: F| lagrange_num(i, k, x);
        if i == k {
            assert forall|x: F| x.valid() implies #[trigger] h(x) == g(x) by {
                let f = |m: int| lagrange_factor(k, x, m);
                algebra::prod_valid(i, f);
                F::law_mul_one(algebra::prod(i, f));
                assert(h(x) == algebra::prod(j, f));
                assert(algebra::prod(j, f) == algebra::prod(i, f) * f(j - 1));
            }
            is_poly_same(g, h, j);
        } else {
            let n = if k < i { i } else { i + 1 };
            let a = F::embed(i as int);
            F::law_embed(i as int, 0);
            is_poly_mul_line(F::zero() - a, F::one() - a, g, n);
            let s = |x: F| g(x) * algebra::lerp(F::zero() - a, F::one() - a, x);
            assert forall|x: F| x.valid() implies #[trigger] h(x) == s(x) by {
                lemma_minus_is_line(a, x);
                let f = |m: int| lagrange_factor(k, x, m);
                assert(h(x) == algebra::prod(j, f));
                assert(algebra::prod(j, f) == algebra::prod(i, f) * f(j - 1));
            }
            is_poly_same(s, h, n + 1);
        }
    }
}

/// The nodes `0, .., n - 1`.
pub open spec fn nodes<F: Field>(n: nat) -> Seq<F> {
    Seq::new(n, |i: int| F::embed(i))
}

pub proof fn lemma_nodes<F: Field>(n: nat)
    requires
        n <= prime::p(),
    ensures
        algebra::all_valid(nodes::<F>(n)),
        nodes::<F>(n).no_duplicates(),
{
    let s = nodes::<F>(n);
    assert forall|i: int| 0 <= i < s.len() implies (#[trigger] s[i]).valid() by {
        F::law_embed(i, 0);
    }
    assert forall|i: int, j: int| 0 <= i < s.len() && 0 <= j < s.len() && i != j implies s[i]
        != s[j] by {
        lemma_embed_distinct::<F>(i, j);
    }
}

proof fn lemma_interpolation_is_poly<F: Field>(evals: Seq<F>)
    ensures
        is_poly(|x: F| interpolation(evals, x), evals.len()),
{
    let n = evals.len();
    let t = |k: int, x: F|
        (evals[k] * lagrange_num(n, k, x)) * lagrange_num::<F>(n, k, F::embed(k)).inv();
    assert forall|k: int| 0 <= k < n implies is_poly(#[trigger] curry(t, k), n) by {
        lemma_num_is_poly::<F>(n, k);
        let num = |x: F| lagrange_num(n, k, x);
        let inv = lagrange_num::<F>(n, k, F::embed(k)).inv();
        is_poly_scale(evals[k], num, n);
        let g = |x: F| evals[k] * num(x);
        is_poly_scale(inv, g, n);
        let h = |x: F| inv * g(x);
        assert forall|x: F| x.valid() implies #[trigger] curry(t, k)(x) == h(x) by {
            F::law_mul_comm(g(x), inv);
        }
        is_poly_same(h, curry(t, k), n);
    }
    is_poly_sum(n, t, n);
    let s = |x: F| algebra::sum(n, |k: int| t(k, x));
    let g = |x: F| interpolation(evals, x);
    assert forall|x: F| x.valid() implies #[trigger] g(x) == s(x) by {
        let f1 = |k: int|
            (evals[k] * lagrange_num(n, k, x)) * lagrange_num::<F>(n, k, F::embed(k)).inv();
        algebra::sum_ext(n, f1, |k: int| t(k, x));
    }
    is_poly_same(s, g, n);
}

/// The interpolating polynomial goes through its points.
pub proof fn lemma_interpolation_at_node<F: Field>(evals: Seq<F>, j: int)
    requires
        evals.len() <= prime::p(),
        0 <= j < evals.len(),
        evals[j].valid(),
    ensures
        interpolation(evals, F::embed(j)) == evals[j],
{
    let n = evals.len();
    let r = F::embed(j);
    let f = |k: int| (evals[k] * lagrange_num(n, k, r)) * lagrange_num(n, k, F::embed(k)).inv();
    assert forall|k: int| 0 <= k < n && k != j implies #[trigger] f(k) == F::zero() by {
        let g = |m: int| lagrange_factor(k, r, m);
        algebra::sub_self(r);
        assert(g(j) == F::zero());
        algebra::prod_zero(n, j, g);
        algebra::mul_zero(evals[k]);
        algebra::mul_zero(lagrange_num(n, k, F::embed(k)).inv());
    }
    let d = lagrange_num(n, j, r);
    lemma_den_nonzero::<F>(n, j);
    algebra::prod_valid(n, |m: int| lagrange_factor(j, r, m));
    F::law_inv(d);
    F::law_mul_assoc(evals[j], d, d.inv());
    F::law_mul_one(evals[j]);
    algebra::sum_single(n, j, f);
}

/// Interpolation recovers a polynomial with `n` coefficients from its values at
/// the `n` nodes.
pub proof fn lemma_interpolation_exact<F: Field>(g: spec_fn(F) -> F, evals: Seq<F>, r: F)
    requires
        is_poly(g, evals.len()),
        evals.len() <= prime::p(),
        forall|k: int| 0 <= k < evals.len() ==> #[trigger] evals[k] == g(F::embed(k)),
        r.valid(),
    ensures
        interpolation(evals, r) == g(r),
{
    let n = evals.len();
    let h = |x: F| interpolation(evals, x);
    lemma_interpolation_is_poly(evals);
    lemma_nodes::<F>(n);
    let s = nodes::<F>(n);
    assert forall|i: int| 0 <= i < n implies h(#[trigger] s[i]) == g(s[i]) by {
        let c = choose|c: Seq<F>| c.len() == n && #[trigger] represents(c, g);
        assert(s[i].valid());
        assert(g(s[i]) == poly_eval(c, s[i]));
        poly_eval_valid(c, s[i]);
        assert(evals[i] == g(F::embed(i)));
        lemma_interpolation_at_node(evals, i);
    }
    lemma_poly_unique(h, g, n, s, r);
}

} // verus!
