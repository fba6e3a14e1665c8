//! Evaluations of tables that are combinations of others or constant in some variables.
use vstd::prelude::*;
use vstd::arithmetic::div_mod;
use vstd::arithmetic::power2::pow2;
use crate::algebra;
use crate::field::Field;
use crate::multilinear;

verus! {

/// The entry at `i` of the combination of the first `n` tables.
pub open spec fn combined_at<F: Field>(
    n: nat,
    c: spec_fn(int) -> F,
    t: spec_fn(int) -> Seq<F>,
    i: int,
) -> F {
    algebra::sum(n, |j: int| c(j) * t(j)[i])
}

/// The combination of the first `n` tables of length `len`.
pub open spec fn combined<F: Field>(
    n: nat,
    c: spec_fn(int) -> F,
    t: spec_fn(int) -> Seq<F>,
    len: nat,
) -> Seq<F> {
    Seq::new(len, |i: int| combined_at(n, c, t, i))
}

/// The zero table is zero everywhere.
pub proof fn lemma_mle_zero<F: Field>(s: Seq<F>, p: Seq<F>)
    requires
        s.len() == pow2(p.len()),
        forall|i: int| 0 <= i < s.len() ==> #[trigger] s[i] == F::zero(),
    ensures
        multilinear::mle(s, p) == F::zero(),
{
    F::law_valid(F::zero(), F::zero());
    let t = Seq::new(s.len(), |i: int| F::zero() * s[i]);
    assert forall|i: int| 0 <= i < s.len() implies t[i] == s[i] by {
        algebra::mul_zero(F::zero());
    }
    assert(t =~= s);
    multilinear::lemma_mle_scale(F::zero(), s, p);
    algebra::mul_zero(multilinear::mle(s, p));
    F::law_mul_comm(F::zero(), multilinear::mle(s, p));
}

/// Evaluation is linear: a combination of tables evaluates to the combination of their
/// values.
pub proof fn lemma_mle_combined<F: Field>(
    n: nat,
    c: spec_fn(int) -> F,
    t: spec_fn(int) -> Seq<F>,
    p: Seq<F>,
)
    requires
        forall|j: int| 0 <= j < n ==> (#[trigger] t(j)).len() == pow2(p.len()),
    ensures
        multilinear::mle(combined(n, c, t, pow2(p.len())), p) == algebra::sum(
            n,
            |j: int| c(j) * multilinear::mle(t(j), p),
        ),
    decreases n,
{
    let len = pow2(p.len());
    let s = combined(n, c, t, len);
    let f = |j: int| c(j) * multilinear::mle(t(j), p);
    if n == 0 {
        lemma_mle_zero(s, p);
    } else {
        let m = (n - 1) as nat;
        lemma_mle_combined(m, c, t, p);
        let rest = combined(m, c, t, len);
        let last = Seq::new(t(n - 1).len(), |i: int| c(n - 1) * t(n - 1)[i]);
        let both = Seq::new(rest.len(), |i: int| rest[i] + last[i]);
        assert(s =~= both) by {
            assert forall|i: int| 0 <= i < len implies #[trigger] s[i] == both[i] by {
                assert(s[i] == combined_at(n, c, t, i));
                assert(rest[i] == combined_at(m, c, t, i));
            }
        }
        multilinear::lemma_mle_add(rest, last, p);
        multilinear::lemma_mle_scale(c(n - 1), t(n - 1), p);
    }
}

/// A table that repeats each entry of `s` over its first `k` variables.
pub open spec fn stretched<F: Field>(s: Seq<F>, k: nat) -> Seq<F> {
    Seq::new(s.len() * pow2(k), |i: int| s[i / pow2(k) as int])
}

/// The table with the one value `v`.
proof fn lemma_constant<F: Field>(v: F, k: nat)
    ensures
        stretched(seq![v], k) == Seq::new(pow2(k), |i: int| v),
{
    let s = seq![v];
    multilinear::lemma_pow2_mono(0, k);
    assert(s.len() * pow2(k) == pow2(k)) by (nonlinear_arith)
        requires
            s.len() == 1,
    ;
    assert forall|i: int| 0 <= i < pow2(k) implies #[trigger] stretched(s, k)[i] == v by {
        div_mod::lemma_basic_div(i, pow2(k) as int);
    }
    assert(stretched(s, k) =~= Seq::new(pow2(k), |i: int| v));
}

/// A table that does not depend on its first variables evaluates at the others.
pub proof fn lemma_mle_stretched<F: Field>(s: Seq<F>, p: Seq<F>, q: Seq<F>)
    requires
        s.len() == pow2(q.len()),
        algebra::all_valid(s),
    ensures
        multilinear::mle(stretched(s, p.len()), p + q) == multilinear::mle(s, q),
    decreases p.len(),
{
    if p.len() == 0 {
        multilinear::lemma_pow2_zero();
        assert(stretched(s, 0) =~= s);
        assert(p + q =~= q);
    } else {
        let k = p.len();
        let half = (k - 1) as nat;
        let t = stretched(s, k);
        let u = stretched(s, half);
        multilinear::lemma_pow2_step(k);
        let (a, b) = (pow2(k) as int, pow2(half) as int);
        assert(s.len() * pow2(k) == 2 * (s.len() * pow2(half))) by (nonlinear_arith)
            requires
                pow2(k) == 2 * pow2(half),
        ;
        let folded = multilinear::fold_low(t, p[0]);
        assert(folded =~= u) by {
            assert forall|i: int| 0 <= i < u.len() implies #[trigger] folded[i] == u[i] by {
                assert((2 * i) / a == i / b) by {
                    div_mod::lemma_div_denominator(2 * i, 2, b);
                    div_mod::lemma_div_multiples_vanish(i, 2);
                }
                assert((2 * i + 1) / a == i / b) by {
                    div_mod::lemma_div_denominator(2 * i + 1, 2, b);
                }
                let x = s[i / b];
                assert(0 <= i / b < s.len()) by {
                    div_mod::lemma_div_pos_is_pos(i, b);
                    div_mod::lemma_fundamental_div_mod(i, b);
                    assert(i / b < s.len()) by (nonlinear_arith)
                        requires
                            i == b * (i / b) + i % b,
                            0 <= i % b,
                            i < s.len() * b,
                            b > 0,
                    ;
                }
                assert(algebra::lerp(x, x, p[0]) == x) by {
                    lemma_lerp_same(x, p[0]);
                }
            }
        }
        assert((p + q).drop_first() =~= p.drop_first() + q);
        assert((p + q)[0] == p[0]);
        lemma_mle_stretched(s, p.drop_first(), q);
    }
}

/// The extension of a constant table is the constant.
pub proof fn lemma_mle_constant<F: Field>(v: F, p: Seq<F>)
    requires
        v.valid(),
    ensures
        multilinear::mle(Seq::new(pow2(p.len()), |i: int| v), p) == v,
{
    let none = Seq::<F>::empty();
    multilinear::lemma_pow2_zero();
    lemma_constant(v, p.len());
    lemma_mle_stretched(seq![v], p, none);
    assert(p + none =~= p);
    assert(multilinear::fold_all(seq![v], none) == seq![v]);
}

pub proof fn lemma_lerp_same<F: Field>(x: F, r: F)
    requires
        x.valid(),
    ensures
        algebra::lerp(x, x, r) == x,
{
    algebra::sub_self(x);
    algebra::mul_zero(r);
    F::law_mul_comm(r, F::zero());
    F::law_add_zero(x);
    F::law_add_comm(x, F::zero());
}

/// The weights of a point in two parts.
pub proof fn lemma_eq_concat<F: Field>(p: Seq<F>, q: Seq<F>, i: int)
    requires
        0 <= i < pow2(p.len() + q.len()),
    ensures
        0 <= i / pow2(p.len()) as int,
        (i / pow2(p.len()) as int) < pow2(q.len()),
        multilinear::eq_table(p + q)[i] == multilinear::eq_table(p)[i % pow2(p.len()) as int]
            * multilinear::eq_table(q)[i / pow2(p.len()) as int],
    decreases p.len(),
{
    let n = pow2(p.len()) as int;
    multilinear::lemma_pow2_mono(0, p.len());
    vstd::arithmetic::power2::lemma_pow2_adds(p.len(), q.len());
    div_mod::lemma_fundamental_div_mod(i, n);
    div_mod::lemma_div_pos_is_pos(i, n);
    assert((i / n) < pow2(q.len())) by (nonlinear_arith)
        requires
            i == n * (i / n) + i % n,
            0 <= i % n,
            i < n * pow2(q.len()),
            n > 0,
    ;
    multilinear::lemma_eq_table_len(q);
    multilinear::lemma_eq_table_valid(q);
    if p.len() == 0 {
        multilinear::lemma_pow2_zero();
        assert(p + q =~= q);
        div_mod::lemma_div_basics(i);
        algebra::one_mul(multilinear::eq_table(q)[i]);
    } else {
        let h = pow2((p.len() - 1) as nat) as int;
        multilinear::lemma_pow2_step(p.len());
        let p1 = p.drop_first();
        assert((p + q).drop_first() =~= p1 + q);
        assert((p + q)[0] == p[0]);
        vstd::arithmetic::power2::lemma_pow2_adds(p1.len(), q.len());
        multilinear::lemma_eq_table_len(p1);
        multilinear::lemma_eq_table_len(p1 + q);
        multilinear::lemma_eq_table_len(p);
        let j = i / 2;
        assert(0 <= j < pow2(p1.len() + q.len())) by (nonlinear_arith)
            requires
                0 <= i < n * pow2(q.len()),
                n == 2 * h,
                j == i / 2,
                pow2(p1.len() + q.len()) == h * pow2(q.len()),
        ;
        lemma_eq_concat(p1, q, j);
        // i = 2 j + b, so i / n == j / h and i % n == 2 (j % h) + b.
        assert(i / n == j / h) by {
            div_mod::lemma_div_denominator(i, 2, h);
        }
        let e = i % n;
        assert(e == 2 * (j % h) + i % 2) by {
            div_mod::lemma_fundamental_div_mod(j, h);
            assert(n * (i / n) == 2 * (h * (j / h))) by (nonlinear_arith)
                requires
                    n == 2 * h,
                    i / n == j / h,
            ;
        }
        assert(e / 2 == j % h && e % 2 == i % 2);
        let (a, b) = (
            multilinear::eq_table(p1)[j % h],
            multilinear::eq_table(q)[j / h],
        );
        let w = if i % 2 == 0 {
            F::one() - p[0]
        } else {
            p[0]
        };
        assert(multilinear::eq_table(p + q)[i] == w * (a * b));
        assert(multilinear::eq_table(p)[e] == w * a);
        F::law_mul_assoc(w, a, b);
    }
}

/// The weights of a point add up to one.
pub proof fn lemma_eq_sum<F: Field>(p: Seq<F>)
    ensures
        algebra::sum(pow2(p.len()), |i: int| multilinear::eq_table(p)[i]) == F::one(),
{
    let ones = stretched(seq![F::one()], p.len());
    F::law_valid(F::one(), F::one());
    multilinear::lemma_pow2_zero();
    multilinear::lemma_pow2_mono(0, p.len());
    assert(p + Seq::<F>::empty() =~= p);
    lemma_mle_stretched(seq![F::one()], p, Seq::<F>::empty());
    lemma_constant(F::one(), p.len());
    multilinear::lemma_mle_sum(ones, p);
    multilinear::lemma_eq_table_valid(p);
    multilinear::lemma_eq_table_len(p);
    let f = |i: int| ones[i] * multilinear::eq_table(p)[i];
    let g = |i: int| multilinear::eq_table(p)[i];
    assert forall|i: int| 0 <= i < ones.len() implies #[trigger] f(i) == g(i) by {
        algebra::one_mul(multilinear::eq_table(p)[i]);
    }
    algebra::sum_ext(ones.len(), f, g);
}

} // verus!
