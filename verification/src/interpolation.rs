//! Functions that are affine in each coordinate, and the tables that determine them.
//!
//! Such a function of `n` coordinates is the multilinear extension of its values at the
//! vertices. This is how an operand that picks, fixes and repeats coordinates of a
//! committed polynomial is itself the extension of a table.
use vstd::prelude::*;
use vstd::arithmetic::power2::pow2;
use crate::algebra;
use crate::field::Field;
use crate::multilinear;
use crate::tables;

verus! {

/// Between the ends of coordinate `k`, `g` is the line through its values there.
pub open spec fn affine_at<F: Field>(g: spec_fn(Seq<F>) -> F, x: Seq<F>, k: int) -> bool {
    g(x) == algebra::lerp(g(x.update(k, F::zero())), g(x.update(k, F::one())), x[k])
}

/// `g` is affine in each of its `n` coordinates.
pub open spec fn affine_in_each<F: Field>(g: spec_fn(Seq<F>) -> F, n: nat) -> bool {
    forall|x: Seq<F>, k: int|
        x.len() == n && 0 <= k < n ==> #[trigger] affine_at(g, x, k)
}

/// The bits of `i`, the lowest first, as field elements.
pub open spec fn bits_of<F: Field>(i: nat, n: nat) -> Seq<F>
    decreases n,
{
    if n == 0 {
        Seq::empty()
    } else {
        seq![
            if i % 2 == 1 {
                F::one()
            } else {
                F::zero()
            },
        ] + bits_of::<F>(i / 2, (n - 1) as nat)
    }
}

pub proof fn lemma_bits_len<F: Field>(i: nat, n: nat)
    ensures
        bits_of::<F>(i, n).len() == n,
    decreases n,
{
    if n > 0 {
        lemma_bits_len::<F>(i / 2, (n - 1) as nat);
    }
}

/// The values of `g` at the vertices, with the first coordinates set to `p`.
pub open spec fn vertex_values<F: Field>(g: spec_fn(Seq<F>) -> F, p: Seq<F>, n: nat) -> Seq<F> {
    Seq::new(pow2(n), |i: int| g(p + bits_of::<F>(i as nat, n)))
}

/// Interpolation: the extension of the vertex values is the function itself.
pub proof fn lemma_interpolates<F: Field>(g: spec_fn(Seq<F>) -> F, p: Seq<F>, q: Seq<F>)
    requires
        affine_in_each(g, p.len() + q.len()),
    ensures
        multilinear::mle(vertex_values(g, p, q.len()), q) == g(p + q),
    decreases q.len(),
{
    multilinear::lemma_pow2_zero();
    let t = vertex_values(g, p, q.len());
    if q.len() == 0 {
        assert(bits_of::<F>(0, 0) =~= q);
        assert(t[0] == g(p + bits_of::<F>(0, 0)));
        assert(multilinear::fold_all(t, q) == t);
    } else {
        multilinear::lemma_pow2_step(q.len());
        let (m, r) = ((q.len() - 1) as nat, q[0]);
        let next = vertex_values(g, p.push(r), m);
        assert forall|i: int| 0 <= i < pow2(m) implies #[trigger] multilinear::fold_low(t, r)[i]
            == next[i] by {
            let b = bits_of::<F>(i as nat, m);
            lemma_bits_len::<F>(i as nat, m);
            let x = p.push(r) + b;
            let k = p.len() as int;
            assert(affine_at(g, x, k));
            assert(((2 * i) as nat) % 2 == 0 && ((2 * i) as nat) / 2 == i as nat);
            assert(((2 * i + 1) as nat) % 2 == 1 && ((2 * i + 1) as nat) / 2 == i as nat);
            assert(bits_of::<F>((2 * i) as nat, q.len()) == seq![F::zero()] + b);
            assert(bits_of::<F>((2 * i + 1) as nat, q.len()) == seq![F::one()] + b);
            assert(p + (seq![F::zero()] + b) =~= x.update(k, F::zero()));
            assert(p + (seq![F::one()] + b) =~= x.update(k, F::one()));
            assert(t[2 * i] == g(x.update(k, F::zero())));
            assert(t[2 * i + 1] == g(x.update(k, F::one())));
            assert(x[k] == r);
        }
        assert(multilinear::fold_low(t, r) =~= next);
        lemma_interpolates(g, p.push(r), q.drop_first());
        assert(p.push(r) + q.drop_first() =~= p + q);
    }
}

/// A multilinear extension is affine in each coordinate.
pub proof fn lemma_mle_affine<F: Field>(s: Seq<F>, q: Seq<F>, k: int)
    requires
        s.len() == pow2(q.len()),
        algebra::all_valid(s),
        0 <= k < q.len(),
    ensures
        multilinear::mle(s, q) == algebra::lerp(
            multilinear::mle(s, q.update(k, F::zero())),
            multilinear::mle(s, q.update(k, F::one())),
            q[k],
        ),
{
    let (a, b, r) = (q.take(k), q.skip(k + 1), q[k]);
    let s1 = multilinear::fold_all(s, a);
    multilinear::lemma_fold_all_len(s, a, q.len());
    multilinear::lemma_fold_all_valid(s, a);
    multilinear::lemma_pow2_step((q.len() - k) as nat);
    lemma_fold_at(s, q, k, r);
    lemma_fold_at(s, q, k, F::zero());
    lemma_fold_at(s, q, k, F::one());
    let (e, o) = (multilinear::fold_low(s1, F::zero()), multilinear::fold_low(s1, F::one()));
    let w = F::one() - r;
    let (x, y) = (Seq::new(e.len(), |i: int| w * e[i]), Seq::new(o.len(), |i: int| r * o[i]));
    let sum = Seq::new(x.len(), |i: int| x[i] + y[i]);
    assert forall|i: int| 0 <= i < e.len() implies #[trigger] multilinear::fold_low(s1, r)[i]
        == sum[i] by {
        assert(s1[2 * i].valid() && s1[2 * i + 1].valid());
        algebra::lerp_ends(s1[2 * i], s1[2 * i + 1]);
        algebra::lerp_weighted(s1[2 * i], s1[2 * i + 1], r);
    }
    assert(multilinear::fold_low(s1, r) =~= sum);
    assert(e.len() == pow2(b.len()));
    multilinear::lemma_mle_add(x, y, b);
    multilinear::lemma_mle_scale(w, e, b);
    multilinear::lemma_mle_scale(r, o, b);
    multilinear::lemma_fold_low_valid(s1, F::zero());
    multilinear::lemma_fold_all_valid(e, b);
    multilinear::lemma_fold_all_len(e, b, b.len());
    multilinear::lemma_pow2_zero();
    algebra::lerp_weighted(multilinear::mle(e, b), multilinear::mle(o, b), r);
    assert(q.update(k, r) =~= q);
}

/// The extension with coordinate `k` set, folded in three steps.
proof fn lemma_fold_at<F: Field>(s: Seq<F>, q: Seq<F>, k: int, r: F)
    requires
        0 <= k < q.len(),
    ensures
        multilinear::mle(s, q.update(k, r)) == multilinear::mle(
            multilinear::fold_low(multilinear::fold_all(s, q.take(k)), r),
            q.skip(k + 1),
        ),
{
    let (a, b) = (q.take(k), q.skip(k + 1));
    assert(q.update(k, r) =~= a.push(r) + b);
    multilinear::lemma_fold_all_concat(s, a.push(r), b);
    multilinear::lemma_fold_all_push(s, a, r);
}

/// The extension of a table at coordinates `q`, `q0` and `q1` of which all but at most
/// one agree, and that one is `r`, zero and one.
pub open spec fn moves<F: Field>(q: Seq<F>, q0: Seq<F>, q1: Seq<F>, r: F, t: int) -> bool {
    &&& 0 <= t < q.len()
    &&& q[t] == r
    &&& q0 == q.update(t, F::zero())
    &&& q1 == q.update(t, F::one())
}

pub proof fn lemma_mle_moves<F: Field>(s: Seq<F>, q: Seq<F>, q0: Seq<F>, q1: Seq<F>, r: F)
    requires
        s.len() == pow2(q.len()),
        algebra::all_valid(s),
        q0 == q && q1 == q || exists|t: int| moves(q, q0, q1, r, t),
    ensures
        multilinear::mle(s, q) == algebra::lerp(
            multilinear::mle(s, q0),
            multilinear::mle(s, q1),
            r,
        ),
{
    if q0 == q && q1 == q {
        multilinear::lemma_fold_all_valid(s, q);
        multilinear::lemma_fold_all_len(s, q, q.len());
        multilinear::lemma_pow2_zero();
        tables::lemma_lerp_same(multilinear::mle(s, q), r);
    } else {
        let t = choose|t: int| moves(q, q0, q1, r, t);
        lemma_mle_affine(s, q, t);
    }
}

/// `u` on the high variables times `v` on the low ones.
pub open spec fn outer<F: Field>(u: Seq<F>, v: Seq<F>) -> Seq<F> {
    Seq::new(u.len() * v.len(), |i: int| u[i / v.len() as int] * v[i % v.len() as int])
}

/// The extension of an outer product is the product of the extensions.
pub proof fn lemma_mle_outer<F: Field>(u: Seq<F>, v: Seq<F>, p: Seq<F>, q: Seq<F>)
    requires
        v.len() == pow2(p.len()),
        u.len() == pow2(q.len()),
        algebra::all_valid(u),
    ensures
        multilinear::mle(outer(u, v), p + q) == multilinear::mle(u, q) * multilinear::mle(v, p),
{
    let s = outer(u, v);
    let n = p.len() + q.len();
    vstd::arithmetic::power2::lemma_pow2_adds(q.len(), p.len());
    assert(s.len() == pow2(n));
    let m = multilinear::mle(v, p);
    multilinear::lemma_pow2_mono(0, p.len());
    multilinear::lemma_fold_all_concat(s, p, q);
    multilinear::lemma_fold_all_len(s, p, n);
    let f = multilinear::fold_all(s, p);
    let scaled = Seq::new(u.len(), |k: int| m * u[k]);
    assert forall|k: int| 0 <= k < u.len() implies #[trigger] f[k] == scaled[k] by {
        multilinear::lemma_fold_block(s, p, n, k);
        let block = s.subrange(k * pow2(p.len()), (k + 1) * pow2(p.len()));
        let want = Seq::new(v.len(), |i: int| u[k] * v[i]);
        assert((k + 1) * pow2(p.len()) - k * pow2(p.len()) == pow2(p.len())) by (nonlinear_arith);
        assert forall|i: int| 0 <= i < v.len() implies #[trigger] block[i] == want[i] by {
            let b = pow2(p.len()) as int;
            let j = k * b + i;
            assert(j / b == k && j % b == i) by {
                vstd::arithmetic::div_mod::lemma_fundamental_div_mod_converse(j, b, k, i);
            }
        }
        assert(block =~= want);
        multilinear::lemma_mle_scale(u[k], v, p);
        F::law_mul_comm(u[k], m);
    }
    assert(f =~= scaled);
    multilinear::lemma_mle_scale(m, u, q);
    F::law_mul_comm(m, multilinear::mle(u, q));
}

} // verus!
