//! Multilinear polynomials given by their values on the boolean hypercube.
//!
//! The value at index `i` belongs to the vertex whose `k`-th coordinate is bit
//! `k` of `i`.
use vstd::prelude::*;
use vstd::arithmetic::power2::{lemma_pow2_pos, lemma_pow2_unfold, pow2};
use crate::algebra;
use crate::field::Field;

verus! {

/// Fixes the variable of the lowest index bit to `r`.
pub open spec fn fold_low<F: Field>(s: Seq<F>, r: F) -> Seq<F> {
    Seq::new(s.len() / 2, |i: int| algebra::lerp(s[2 * i], s[2 * i + 1], r))
}

/// Fixes the variable of the highest index bit to `r`.
pub open spec fn fold_high<F: Field>(s: Seq<F>, r: F) -> Seq<F> {
    Seq::new(s.len() / 2, |i: int| algebra::lerp(s[i], s[i + s.len() / 2], r))
}

/// Fixes the lowest variables, one after the other, to the coordinates of `point`.
pub open spec fn fold_all<F: Field>(s: Seq<F>, point: Seq<F>) -> Seq<F>
    decreases point.len(),
{
    if point.len() == 0 {
        s
    } else {
        fold_all(fold_low(s, point[0]), point.drop_first())
    }
}

/// The value at `point` of the multilinear polynomial with hypercube values `s`.
pub open spec fn mle<F: Field>(s: Seq<F>, point: Seq<F>) -> F {
    fold_all(s, point)[0]
}

/// The hypercube values of `x -> prod_k (point[k] x[k] + (1 - point[k]) (1 - x[k]))`.
pub open spec fn eq_table<F: Field>(point: Seq<F>) -> Seq<F>
    decreases point.len(),
{
    if point.len() == 0 {
        seq![F::one()]
    } else {
        let t = eq_table(point.drop_first());
        Seq::new(
            2 * t.len(),
            |i: int|
                if i % 2 == 0 {
                    (F::one() - point[0]) * t[i / 2]
                } else {
                    point[0] * t[i / 2]
                },
        )
    }
}

/// One factor of the equality polynomial.
pub open spec fn eq_factor<F: Field>(a: F, b: F) -> F {
    a * b + (F::one() - a) * (F::one() - b)
}

/// The equality polynomial at two points, over their common coordinates.
pub open spec fn eq_value<F: Field>(a: Seq<F>, b: Seq<F>) -> F {
    algebra::prod(
        if a.len() <= b.len() { a.len() } else { b.len() },
        |k: int| eq_factor(a[k], b[k]),
    )
}

pub proof fn lemma_pow2_step(n: nat)
    requires
        n > 0,
    ensures
        pow2(n) == 2 * pow2((n - 1) as nat),
        pow2(n) / 2 == pow2((n - 1) as nat),
        pow2((n - 1) as nat) > 0,
{
    lemma_pow2_unfold(n);
    lemma_pow2_pos((n - 1) as nat);
}

pub proof fn lemma_pow2_zero()
    ensures
        pow2(0) == 1,
{
    vstd::arithmetic::power2::lemma2_to64();
}

pub proof fn lemma_pow2_mono(a: nat, b: nat)
    requires
        a <= b,
    ensures
        pow2(a) <= pow2(b),
        pow2(a) > 0,
{
    lemma_pow2_pos(a);
    if a < b {
        vstd::arithmetic::power2::lemma_pow2_strictly_increases(a, b);
    }
}

pub proof fn lemma_eq_table_len<F: Field>(point: Seq<F>)
    ensures
        eq_table(point).len() == pow2(point.len()),
    decreases point.len(),
{
    if point.len() == 0 {
        lemma_pow2_zero();
    } else {
        lemma_eq_table_len(point.drop_first());
        lemma_pow2_step(point.len());
    }
}

pub proof fn lemma_eq_table_valid<F: Field>(point: Seq<F>)
    ensures
        algebra::all_valid(eq_table(point)),
{
    F::law_valid(F::zero(), F::zero());
    if point.len() > 0 {
        let t = eq_table(point.drop_first());
        let e = eq_table(point);
        assert forall|i: int| 0 <= i < e.len() implies (#[trigger] e[i]).valid() by {
            F::law_valid(F::one() - point[0], t[i / 2]);
            F::law_valid(point[0], t[i / 2]);
        }
    }
}

pub proof fn lemma_fold_low_valid<F: Field>(s: Seq<F>, r: F)
    ensures
        algebra::all_valid(fold_low(s, r)),
{
    let t = fold_low(s, r);
    assert forall|i: int| 0 <= i < t.len() implies (#[trigger] t[i]).valid() by {
        F::law_valid(s[2 * i], r * (s[2 * i + 1] - s[2 * i]));
    }
}

pub proof fn lemma_fold_high_valid<F: Field>(s: Seq<F>, r: F)
    ensures
        algebra::all_valid(fold_high(s, r)),
{
    let t = fold_high(s, r);
    assert forall|i: int| 0 <= i < t.len() implies (#[trigger] t[i]).valid() by {
        F::law_valid(s[i], r * (s[i + s.len() / 2] - s[i]));
    }
}

pub proof fn lemma_fold_all_valid<F: Field>(s: Seq<F>, point: Seq<F>)
    requires
        algebra::all_valid(s),
    ensures
        algebra::all_valid(fold_all(s, point)),
    decreases point.len(),
{
    if point.len() > 0 {
        lemma_fold_low_valid(s, point[0]);
        lemma_fold_all_valid(fold_low(s, point[0]), point.drop_first());
    }
}

pub proof fn lemma_fold_all_len<F: Field>(s: Seq<F>, point: Seq<F>, n: nat)
    requires
        s.len() == pow2(n),
        point.len() <= n,
    ensures
        fold_all(s, point).len() == pow2((n - point.len()) as nat),
    decreases point.len(),
{
    if point.len() > 0 {
        lemma_pow2_step(n);
        lemma_fold_all_len(fold_low(s, point[0]), point.drop_first(), (n - 1) as nat);
    }
}

/// Folding by a concatenation folds by its two parts in turn.
pub proof fn lemma_fold_all_concat<F: Field>(s: Seq<F>, p: Seq<F>, q: Seq<F>)
    ensures
        fold_all(s, p + q) == fold_all(fold_all(s, p), q),
    decreases p.len(),
{
    if p.len() == 0 {
        assert(p + q =~= q);
    } else {
        assert((p + q).drop_first() =~= p.drop_first() + q);
        assert((p + q)[0] == p[0]);
        lemma_fold_all_concat(fold_low(s, p[0]), p.drop_first(), q);
    }
}

pub proof fn lemma_fold_all_push<F: Field>(s: Seq<F>, p: Seq<F>, r: F)
    ensures
        fold_all(s, p.push(r)) == fold_low(fold_all(s, p), r),
{
    assert(p.push(r) =~= p + seq![r]);
    lemma_fold_all_concat(s, p, seq![r]);
    let t = fold_all(s, p);
    assert(seq![r].drop_first() =~= Seq::<F>::empty());
    assert(fold_all(fold_low(t, r), Seq::<F>::empty()) == fold_low(t, r));
    assert(fold_all(t, seq![r]) == fold_all(fold_low(t, seq![r][0]), seq![r].drop_first()));
}

/// The value at a point is the sum of the hypercube values weighted by the
/// equality polynomial.
pub proof fn lemma_mle_sum<F: Field>(s: Seq<F>, point: Seq<F>)
    requires
        s.len() == pow2(point.len()),
        algebra::all_valid(s),
    ensures
        mle(s, point) == algebra::sum(s.len(), |i: int| s[i] * eq_table(point)[i]),
    decreases point.len(),
{
    let e = eq_table(point);
    let f = |i: int| s[i] * e[i];
    if point.len() == 0 {
        lemma_pow2_zero();
        assert(s[0].valid());
        algebra::one_mul(s[0]);
        F::law_valid(F::zero(), F::zero());
        assert(algebra::sum(0, f) == F::zero());
        assert(algebra::sum(1, f) == algebra::sum(0, f) + f(0));
        algebra::zero_add(s[0]);
    } else {
        let r = point[0];
        let rest = point.drop_first();
        let t = eq_table(rest);
        let half = fold_low(s, r);
        lemma_pow2_step(point.len());
        lemma_eq_table_len(rest);
        lemma_eq_table_len(point);
        lemma_fold_low_valid(s, r);
        lemma_mle_sum(half, rest);
        let n = half.len();
        algebra::sum_pairs(n, f);
        let g = |i: int| f(2 * i) + f(2 * i + 1);
        let h = |i: int| half[i] * t[i];
        assert forall|i: int| 0 <= i < n implies #[trigger] g(i) == h(i) by {
            let (a, b) = (s[2 * i], s[2 * i + 1]);
            assert(a.valid() && b.valid());
            algebra::lerp_weighted(a, b, r);
            assert((2 * i) / 2 == i && (2 * i + 1) / 2 == i);
            assert(e[2 * i] == (F::one() - r) * t[i]);
            assert(e[2 * i + 1] == r * t[i]);
            algebra::distrib_right((F::one() - r) * a, r * b, t[i]);
            F::law_mul_assoc(F::one() - r, a, t[i]);
            F::law_mul_assoc(r, b, t[i]);
            algebra::mul_swap(F::one() - r, a, t[i]);
            algebra::mul_swap(r, b, t[i]);
        }
        algebra::sum_ext(n, g, h);
    }
}

/// The polynomial takes its tabulated values on the hypercube.
pub proof fn lemma_mle_vertex<F: Field>(s: Seq<F>, bits: Seq<bool>, i: int)
    requires
        s.len() == pow2(bits.len()),
        algebra::all_valid(s),
        i == vertex_index(bits),
    ensures
        0 <= i < s.len(),
        mle(s, vertex(bits)) == s[i],
    decreases bits.len(),
{
    let v = vertex::<F>(bits);
    if bits.len() == 0 {
        lemma_pow2_zero();
    } else {
        let rest = bits.drop_first();
        let j = vertex_index(rest);
        lemma_pow2_step(bits.len());
        let half = fold_low(s, v[0]);
        lemma_fold_low_valid(s, v[0]);
        assert(v.drop_first() =~= vertex::<F>(rest));
        lemma_mle_vertex(half, rest, j);
        assert(s[2 * j].valid() && s[2 * j + 1].valid());
        algebra::lerp_ends(s[2 * j], s[2 * j + 1]);
    }
}

/// The point of the hypercube with the given coordinates.
pub open spec fn vertex<F: Field>(bits: Seq<bool>) -> Seq<F> {
    Seq::new(
        bits.len(),
        |k: int|
            if bits[k] {
                F::one()
            } else {
                F::zero()
            },
    )
}

/// The index of a vertex.
pub open spec fn vertex_index(bits: Seq<bool>) -> int
    decreases bits.len(),
{
    if bits.len() == 0 {
        0
    } else {
        (if bits[0] {
            1int
        } else {
            0int
        }) + 2 * vertex_index(bits.drop_first())
    }
}

proof fn lemma_fold_eq_table<F: Field>(a: Seq<F>, r: F)
    requires
        a.len() > 0,
    ensures
        fold_low(eq_table(a), r) =~= Seq::new(
            eq_table(a.drop_first()).len(),
            |i: int| eq_factor(a[0], r) * eq_table(a.drop_first())[i],
        ),
{
    let t = eq_table(a.drop_first());
    let e = eq_table(a);
    let c = eq_factor(a[0], r);
    assert forall|i: int| 0 <= i < t.len() implies #[trigger] fold_low(e, r)[i] == c * t[i] by {
        let one = F::one();
        let x = a[0];
        let w = t[i];
        assert((2 * i) / 2 == i && (2 * i + 1) / 2 == i);
        assert(e[2 * i] == (one - x) * w);
        assert(e[2 * i + 1] == x * w);
        F::law_valid(one - x, w);
        F::law_valid(one, x);
        algebra::lerp_weighted((one - x) * w, x * w, r);
        F::law_mul_assoc(one - r, one - x, w);
        F::law_mul_assoc(r, x, w);
        algebra::distrib_right((one - r) * (one - x), r * x, w);
        F::law_mul_comm(r, x);
        F::law_mul_comm(one - r, one - x);
        F::law_add_comm((one - r) * (one - x), r * x);
    }
}

/// Scaling all values scales the polynomial.
pub proof fn lemma_mle_scale<F: Field>(k: F, s: Seq<F>, point: Seq<F>)
    requires
        s.len() == pow2(point.len()),
    ensures
        mle(Seq::new(s.len(), |i: int| k * s[i]), point) == k * mle(s, point),
    decreases point.len(),
{
    let t = Seq::new(s.len(), |i: int| k * s[i]);
    lemma_pow2_zero();
    if point.len() > 0 {
        lemma_pow2_step(point.len());
        let half = fold_low(s, point[0]);
        lemma_mle_scale(k, half, point.drop_first());
        let u = Seq::new(half.len(), |i: int| k * half[i]);
        assert forall|i: int| 0 <= i < u.len() implies #[trigger] fold_low(t, point[0])[i]
            == u[i] by {
            algebra::lerp_scale(k, s[2 * i], s[2 * i + 1], point[0]);
        }
        assert(fold_low(t, point[0]) =~= u);
    }
}

/// Adding values adds polynomials.
pub proof fn lemma_mle_add<F: Field>(s: Seq<F>, t: Seq<F>, point: Seq<F>)
    requires
        s.len() == pow2(point.len()),
        t.len() == s.len(),
    ensures
        mle(Seq::new(s.len(), |i: int| s[i] + t[i]), point) == mle(s, point) + mle(t, point),
    decreases point.len(),
{
    let u = Seq::new(s.len(), |i: int| s[i] + t[i]);
    lemma_pow2_zero();
    if point.len() > 0 {
        lemma_pow2_step(point.len());
        let r = point[0];
        let (s1, t1) = (fold_low(s, r), fold_low(t, r));
        lemma_mle_add(s1, t1, point.drop_first());
        let v = Seq::new(s1.len(), |i: int| s1[i] + t1[i]);
        assert forall|i: int| 0 <= i < v.len() implies #[trigger] fold_low(u, r)[i] == v[i] by {
            algebra::lerp_add(s[2 * i], s[2 * i + 1], t[2 * i], t[2 * i + 1], r);
        }
        assert(fold_low(u, r) =~= v);
    }
}

/// The table of the equality polynomial at `a` evaluates at `b` to the equality
/// polynomial of `a` and `b`.
pub proof fn lemma_mle_eq_table<F: Field>(a: Seq<F>, b: Seq<F>)
    requires
        a.len() == b.len(),
    ensures
        mle(eq_table(a), b) == eq_value(a, b),
    decreases a.len(),
{
    lemma_eq_table_len(a);
    if a.len() == 0 {
        lemma_pow2_zero();
    } else {
        let (a1, b1) = (a.drop_first(), b.drop_first());
        let t = eq_table(a1);
        let c = eq_factor(a[0], b[0]);
        lemma_eq_table_len(a1);
        lemma_fold_eq_table(a, b[0]);
        assert(fold_low(eq_table(a), b[0]) =~= Seq::new(t.len(), |i: int| c * t[i]));
        lemma_mle_scale(c, t, b1);
        lemma_mle_eq_table(a1, b1);
        lemma_eq_value_first(a, b);
    }
}

/// The equality polynomial, one coordinate peeled off in front.
pub proof fn lemma_eq_value_first<F: Field>(a: Seq<F>, b: Seq<F>)
    requires
        a.len() == b.len(),
        a.len() > 0,
    ensures
        eq_value(a, b) == eq_factor(a[0], b[0]) * eq_value(a.drop_first(), b.drop_first()),
{
    let (a1, b1) = (a.drop_first(), b.drop_first());
    let f = |k: int| eq_factor(a[k], b[k]);
    F::law_valid(a[0] * b[0], (F::one() - a[0]) * (F::one() - b[0]));
    lemma_prod_first(a.len(), f);
    algebra::prod_ext(a1.len(), |k: int| f(k + 1), |k: int| eq_factor(a1[k], b1[k]));
}

pub proof fn lemma_prod_first<F: Field>(n: nat, f: spec_fn(int) -> F)
    requires
        n > 0,
        f(0).valid(),
    ensures
        algebra::prod(n, f) == f(0) * algebra::prod((n - 1) as nat, |k: int| f(k + 1)),
    decreases n,
{
    let g = |k: int| f(k + 1);
    if n == 1 {
        assert(algebra::prod(0, f) == F::one());
        assert(algebra::prod(0, g) == F::one());
        algebra::one_mul(f(0));
    } else {
        lemma_prod_first((n - 1) as nat, f);
        F::law_mul_assoc(f(0), algebra::prod((n - 2) as nat, g), g(n - 2));
    }
}

/// The order in which two variables are fixed does not matter.
pub proof fn lemma_lerp_swap<F: Field>(x: F, y: F, z: F, w: F, r: F, a: F)
    ensures
        algebra::lerp(algebra::lerp(x, y, r), algebra::lerp(z, w, r), a) == algebra::lerp(
            algebra::lerp(x, z, a),
            algebra::lerp(y, w, a),
            r,
        ),
{
    let m = F::zero() - F::one();
    // lerp(z, w, r) - lerp(x, y, r) == lerp(z - x, w - y, r)
    algebra::sub_four(z, r * (w - z), x, r * (y - x));
    algebra::sub_distrib(r, w - z, y - x);
    assert((w - z) - (y - x) == (w - y) - (z - x)) by {
        F::law_sub(w, z);
        F::law_sub(y, x);
        F::law_sub(w, y);
        F::law_sub(z, x);
        algebra::sub_four(w, z.spec_neg(), y, x.spec_neg());
        F::law_sub(z.spec_neg(), x.spec_neg());
        F::law_sub(w - y, z - x);
        algebra::neg_add(z, x.spec_neg());
    }
    algebra::lerp_scale(a, z - x, w - y, r);
    algebra::lerp_add(x, y, a * (z - x), a * (w - y), r);
}

proof fn lemma_fold_commute<F: Field>(s: Seq<F>, r: F, a: F, n: nat)
    requires
        s.len() == pow2(n),
        n >= 2,
    ensures
        fold_low(fold_high(s, r), a) =~= fold_high(fold_low(s, a), r),
{
    lemma_pow2_step(n);
    lemma_pow2_step((n - 1) as nat);
    let h = s.len() / 2;
    let q = h / 2;
    let left = fold_low(fold_high(s, r), a);
    let right = fold_high(fold_low(s, a), r);
    assert forall|i: int| 0 <= i < q implies #[trigger] left[i] == right[i] by {
        assert(2 * (i + q) == 2 * i + h);
        lemma_lerp_swap(s[2 * i], s[2 * i + h], s[2 * i + 1], s[2 * i + 1 + h], r, a);
    }
}

/// Fixing the highest variable first is the same as giving it as the last
/// coordinate.
pub proof fn lemma_mle_high<F: Field>(s: Seq<F>, q: Seq<F>, r: F)
    requires
        s.len() == pow2(q.len() + 1),
    ensures
        mle(s, q.push(r)) == mle(fold_high(s, r), q),
    decreases q.len(),
{
    let p = q.push(r);
    lemma_pow2_step(q.len() + 1);
    lemma_pow2_zero();
    if q.len() == 0 {
        assert(p.drop_first() =~= Seq::<F>::empty());
        assert(fold_all(fold_low(s, r), p.drop_first()) == fold_low(s, r));
        assert(fold_all(s, p) == fold_all(fold_low(s, p[0]), p.drop_first()));
    } else {
        let a = q[0];
        let q1 = q.drop_first();
        assert(p.drop_first() =~= q1.push(r));
        assert(p[0] == a);
        lemma_fold_commute(s, r, a, q.len() + 1);
        lemma_mle_high(fold_low(s, a), q1, r);
    }
}

/// The block of values that folds to entry `k`.
pub proof fn lemma_fold_block<F: Field>(s: Seq<F>, p: Seq<F>, n: nat, k: int)
    requires
        s.len() == pow2(n),
        p.len() <= n,
        0 <= k < pow2((n - p.len()) as nat),
    ensures
        0 <= k * pow2(p.len()),
        (k + 1) * pow2(p.len()) <= s.len(),
        fold_all(s, p)[k] == mle(
            s.subrange(k * pow2(p.len()), (k + 1) * pow2(p.len())),
            p,
        ),
    decreases p.len(),
{
    let b = pow2(p.len()) as int;
    let m = pow2((n - p.len()) as nat) as int;
    vstd::arithmetic::power2::lemma_pow2_adds(p.len(), (n - p.len()) as nat);
    assert(p.len() + (n - p.len()) as nat == n);
    assert((k + 1) * b <= m * b) by (nonlinear_arith)
        requires
            k + 1 <= m,
            b >= 0,
    ;
    assert(m * b == b * m) by (nonlinear_arith);
    assert(0 <= k * b) by (nonlinear_arith)
        requires
            0 <= k,
            0 <= b,
    ;
    let block = s.subrange(k * b, (k + 1) * b);
    lemma_pow2_zero();
    if p.len() == 0 {
        assert(fold_all(block, p) == block);
        assert(fold_all(s, p) == s);
        assert(k * b == k && (k + 1) * b == k + 1) by (nonlinear_arith)
            requires
                b == 1,
        ;
    } else {
        lemma_pow2_step(n);
        lemma_pow2_step(p.len());
        let h = fold_low(s, p[0]);
        let q = p.drop_first();
        assert((n - 1) as nat - q.len() == n - p.len());
        lemma_fold_block(h, q, (n - 1) as nat, k);
        let c = pow2(q.len()) as int;
        assert(b == 2 * c);
        assert((k + 1) * b - k * b == b) by (nonlinear_arith);
        assert((k + 1) * c - k * c == c) by (nonlinear_arith);
        assert(k * b == 2 * (k * c)) by (nonlinear_arith)
            requires
                b == 2 * c,
        ;
        assert(h.subrange(k * c, (k + 1) * c) =~= fold_low(block, p[0]));
    }
}

} // verus!
