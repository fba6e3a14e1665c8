//! The tables that prover and verifier build: combined rows, bit columns, folded
//! hash rows, selectors and encoding weights.
use vstd::prelude::*;
use vstd::arithmetic::power2::pow2;
use crate::algebra;
use crate::field::{Field, Goldilocks, GoldilocksExt2};
use crate::multilinear;
use crate::pcs::domain;
use crate::pcs::domain::LeafField;
use crate::pcs::subset_sum;
use crate::utils::poly;
use crate::utils::poly::MlPoly;
use crate::views;

verus! {

/// Bits per base field element.
pub const ETA: usize = 64;

/// The entries in reverse order.
pub fn rev<F: Field>(v: &[F]) -> (r: Vec<F>)
    ensures
        r@ == v@.reverse(),
{
    let mut r: Vec<F> = Vec::new();
    let n: usize = v.len();
    let mut i: usize = 0;
    while i < n
        invariant
            i <= n,
            n == v@.len(),
            r@.len() == i,
            forall|k: int| 0 <= k < i ==> #[trigger] r@[k] == v@[n - 1 - k],
        decreases n - i,
    {
        r.push(v[n - 1 - i]);
        i += 1;
    }
    assert(r@ =~= v@.reverse());
    r
}

/// `low` followed by `high`.
pub fn cat<F: Field>(low: &[F], high: &[F]) -> (r: Vec<F>)
    ensures
        r@ == low@ + high@,
{
    let mut r = poly::copy_slice(low);
    let mut i: usize = 0;
    assert(high@.take(0) =~= Seq::<F>::empty());
    assert(r@ =~= low@ + high@.take(0));
    while i < high.len()
        invariant
            i <= high.len(),
            r@ == low@ + high@.take(i as int),
        decreases high.len() - i,
    {
        r.push(high[i]);
        assert(low@ + high@.take(i + 1) =~= (low@ + high@.take(i as int)).push(
            high@[i as int],
        ));
        i += 1;
    }
    assert(high@.take(high@.len() as int) =~= high@);
    r
}

/// The value at `point` of the multilinear polynomial with the given values.
pub fn mle_eval<F: Field>(vec: &[F], point: &[F]) -> (r: F)
    requires
        vec@.len() == pow2(point@.len()),
    ensures
        r == multilinear::mle(vec@, point@),
{
    MlPoly(poly::copy_slice(vec)).eval(point)
}

/// `sum_j gamma^j eq(points[j])`, tabulated.
pub open spec fn combined_eq<F: Field>(points: Seq<Seq<F>>, gamma: F) -> Seq<F> {
    Seq::new(
        pow2(points[0].len()),
        |i: int|
            algebra::sum(
                points.len(),
                |j: int| domain::pow(gamma, j as nat) * multilinear::eq_table(points[j])[i],
            ),
    )
}

/// Tabulates `sum_j gamma^j eq(points[j])`, which batches several opening points of
/// one polynomial into one product sum.
pub fn combine_eq<F: Field>(points: &[Vec<F>], gamma: F) -> (r: Vec<F>)
    requires
        points@.len() > 0,
        pow2(points@[0]@.len()) <= usize::MAX,
        gamma.valid(),
        forall|j: int|
            0 <= j < points@.len() ==> (#[trigger] points@[j])@.len() == points@[0]@.len(),
    ensures
        r@ == combined_eq(views::nested(points@), gamma),
{
    let ghost pts = views::nested(points@);
    let ghost n = pts[0].len();
    let len: usize = domain::two_power(points[0].len());
    let mut out: Vec<F> = Vec::new();
    let mut i: usize = 0;
    while i < len
        invariant
            i <= len,
            out@.len() == i,
            forall|k: int| 0 <= k < i ==> #[trigger] out@[k] == F::zero(),
        decreases len - i,
    {
        out.push(F::new_zero());
        i += 1;
    }
    let mut g = F::new_one();
    let mut j: usize = 0;
    let ghost term = |i: int, j: int|
        domain::pow(gamma, j as nat) * multilinear::eq_table(pts[j])[i];
    assert forall|i: int| 0 <= i < len implies #[trigger] out@[i] == algebra::sum(
        0,
        |j: int| term(i, j),
    ) by {
    }
    while j < points.len()
        invariant
            j <= points.len(),
            pts == views::nested(points@),
            n == pts[0].len(),
            len == pow2(n),
            gamma.valid(),
            forall|j: int|
                0 <= j < points@.len() ==> (#[trigger] points@[j])@.len() == points@[0]@.len(),
            term == (|i: int, j: int|
                domain::pow(gamma, j as nat) * multilinear::eq_table(pts[j])[i]),
            g == domain::pow(gamma, j as nat),
            out@.len() == len,
            forall|i: int|
                0 <= i < len ==> #[trigger] out@[i] == algebra::sum(
                    j as nat,
                    |j: int| term(i, j),
                ),
        decreases points.len() - j,
    {
        assert(points@[j as int]@.len() == n);
        assert(pts[j as int].len() == n);
        let eqp = MlPoly::new_eq(&points[j]).0;
        proof {
            multilinear::lemma_eq_table_len(pts[j as int]);
        }
        let ghost before = out@;
        let mut i: usize = 0;
        while i < len
            invariant
                i <= len,
                len == pow2(n),
                j < points.len(),
                eqp@ == multilinear::eq_table(pts[j as int]),
                eqp@.len() == len,
                g == domain::pow(gamma, j as nat),
                term == (|i: int, j: int|
                    domain::pow(gamma, j as nat) * multilinear::eq_table(pts[j])[i]),
                before.len() == len,
                out@.len() == len,
                forall|k: int| i <= k < len ==> #[trigger] out@[k] == before[k],
                forall|k: int|
                    0 <= k < len ==> #[trigger] before[k] == algebra::sum(
                        j as nat,
                        |j: int| term(k, j),
                    ),
                forall|k: int|
                    0 <= k < i ==> #[trigger] out@[k] == algebra::sum(
                        (j + 1) as nat,
                        |j: int| term(k, j),
                    ),
            decreases len - i,
        {
            assert(out@[i as int] == before[i as int]);
            let v = out[i].add(g.mul(eqp[i]));
            out.set(i, v);
            proof {
                let f = |j: int| term(i as int, j);
                assert(algebra::sum((j + 1) as nat, f) == algebra::sum(j as nat, f) + f(
                    j as int,
                ));
            }
            i += 1;
        }
        let ghost old_g = g;
        g = g.mul(gamma);
        proof {
            F::law_mul_comm(old_g, gamma);
        }
        j += 1;
    }
    proof {
        let want = combined_eq(pts, gamma);
        assert forall|i: int| 0 <= i < len implies #[trigger] out@[i] == want[i] by {
            algebra::sum_ext(
                pts.len(),
                |j: int| term(i, j),
                |j: int| domain::pow(gamma, j as nat) * multilinear::eq_table(pts[j])[i],
            );
        }
        assert(out@ =~= want);
    }
    out
}

/// `sum_j vals[j] gamma^j`.
pub open spec fn horner_value<F: Field>(vals: Seq<F>, gamma: F) -> F
    decreases vals.len(),
{
    if vals.len() == 0 {
        F::zero()
    } else {
        horner_value(vals.drop_first(), gamma) * gamma + vals[0]
    }
}

/// `sum_j vals[j] gamma^j` by Horner's rule: the combined claim of a batch of
/// openings.
pub fn horner<F: Field>(vals: &[F], gamma: F) -> (r: F)
    ensures
        r == horner_value(vals@, gamma),
{
    let mut acc = F::new_zero();
    let n: usize = vals.len();
    let mut i: usize = n;
    assert(vals@.skip(n as int) =~= Seq::<F>::empty());
    while i > 0
        invariant
            i <= n,
            n == vals@.len(),
            acc == horner_value(vals@.skip(i as int), gamma),
        decreases i,
    {
        let ghost s = vals@.skip(i - 1);
        assert(s.drop_first() =~= vals@.skip(i as int));
        acc = acc.mul(gamma).add(vals[i - 1]);
        i -= 1;
    }
    assert(vals@.skip(0) =~= vals@);
    acc
}

/// `sum_j gamma^j eq(points[j], r)`.
pub open spec fn combined_eq_value<F: Field>(points: Seq<Seq<F>>, gamma: F, r: Seq<F>) -> F {
    algebra::sum(
        points.len(),
        |j: int| domain::pow(gamma, j as nat) * multilinear::eq_value(points[j], r),
    )
}

/// The value at `r` of what `combine_eq` tabulates.
pub fn combine_eq_eval<F: Field>(points: &[Vec<F>], gamma: F, r: &Vec<F>) -> (v: F)
    requires
        gamma.valid(),
    ensures
        v == combined_eq_value(views::nested(points@), gamma, r@),
{
    let ghost pts = views::nested(points@);
    let ghost f = |j: int|
        domain::pow(gamma, j as nat) * multilinear::eq_value(pts[j], r@);
    let mut acc = F::new_zero();
    let mut g = F::new_one();
    let mut j: usize = 0;
    while j < points.len()
        invariant
            j <= points.len(),
            pts == views::nested(points@),
            gamma.valid(),
            f == (|j: int| domain::pow(gamma, j as nat) * multilinear::eq_value(pts[j], r@)),
            g == domain::pow(gamma, j as nat),
            acc == algebra::sum(j as nat, f),
        decreases points.len() - j,
    {
        assert(pts[j as int] == points@[j as int]@);
        acc = acc.add(g.mul(MlPoly::eval_eq(&points[j], r)));
        let ghost old_g = g;
        g = g.mul(gamma);
        proof {
            F::law_mul_comm(old_g, gamma);
        }
        j += 1;
    }
    acc
}

/// Bit `k` of `v`.
pub open spec fn bit_of(v: int, k: nat) -> bool {
    (v / pow2(k) as int) % 2 == 1
}

/// Bit `k` of a machine word.
pub fn word_bit(v: u64, k: usize) -> (r: bool)
    requires
        k < 64,
    ensures
        r == bit_of(v as int, k as nat),
{
    let q: u64 = v >> (k as u64);
    proof {
        vstd::bits::lemma_u64_shr_is_div(v, k as u64);
        assert(q & 1 == q % 2) by (bit_vector);
    }
    q & 1 == 1
}

/// The powers `2^0, .., 2^63` in the base field.
pub fn powers_of_two() -> (r: Vec<Goldilocks>)
    ensures
        r@ == Seq::new(ETA as nat, |k: int| Goldilocks::embed(pow2(k as nat) as int)),
{
    let mut p: Vec<Goldilocks> = Vec::new();
    let mut cur = Goldilocks::new_one();
    let mut k: usize = 0;
    proof {
        multilinear::lemma_pow2_zero();
        Goldilocks::law_embed(0, 0);
    }
    while k < ETA
        invariant
            k <= ETA,
            cur == Goldilocks::embed(pow2(k as nat) as int),
            p@.len() == k,
            forall|i: int|
                0 <= i < k ==> #[trigger] p@[i] == Goldilocks::embed(pow2(i as nat) as int),
        decreases ETA - k,
    {
        p.push(cur);
        proof {
            let v = pow2(k as nat) as int;
            Goldilocks::law_embed(v, v);
            multilinear::lemma_pow2_step((k + 1) as nat);
        }
        cur = cur.add(cur);
        k += 1;
    }
    assert(p@ =~= Seq::new(ETA as nat, |k: int| Goldilocks::embed(pow2(k as nat) as int)));
    p
}

/// Row `i` of a matrix of rows of length `n`.
pub open spec fn row_of<F>(f: Seq<F>, n: nat, i: int) -> Seq<F> {
    Seq::new(n, |j: int| f[i * n + j])
}

/// The rows combined with the given weights.
pub open spec fn combined_rows(
    f: Seq<Goldilocks>,
    weights: Seq<GoldilocksExt2>,
    m: nat,
    n: nat,
) -> Seq<GoldilocksExt2> {
    Seq::new(n, |j: int| algebra::sum(m, |i: int| weights[i] * f[i * n + j].lift()))
}

/// Combines the rows of an `m x n` matrix with the given weights.
pub fn combine_rows(
    f: &Vec<Goldilocks>,
    weights: &Vec<GoldilocksExt2>,
    m: usize,
    n: usize,
) -> (r: Vec<GoldilocksExt2>)
    requires
        f@.len() == m * n,
        weights@.len() == m,
    ensures
        r@ == combined_rows(f@, weights@, m as nat, n as nat),
        algebra::all_valid(r@),
{
    let ghost want = combined_rows(f@, weights@, m as nat, n as nat);
    let mut r: Vec<GoldilocksExt2> = Vec::new();
    let mut j: usize = 0;
    while j < n
        invariant
            j <= n,
            f@.len() == m * n,
            weights@.len() == m,
            want == combined_rows(f@, weights@, m as nat, n as nat),
            r@.len() == j,
            forall|k: int| 0 <= k < j ==> #[trigger] r@[k] == want[k],
            algebra::all_valid(r@),
        decreases n - j,
    {
        let mut acc = GoldilocksExt2::new_zero();
        let ghost g = |i: int| weights@[i] * f@[i * n + j].lift();
        let mut i: usize = 0;
        while i < m
            invariant
                i <= m,
                j < n,
                f@.len() == m * n,
                weights@.len() == m,
                g == (|i: int| weights@[i] * f@[i * n + j].lift()),
                acc == algebra::sum(i as nat, g),
                acc.valid(),
            decreases m - i,
        {
            assert(f.len() == f@.len());
            assert(i * n + j < m * n && 0 <= i * n) by (nonlinear_arith)
                requires
                    i < m,
                    j < n,
            ;
            let v = f[i * n + j].to_ext();
            let ghost before = acc;
            acc = acc.add(weights[i].mul(v));
            proof {
                GoldilocksExt2::law_valid(before, weights@[i as int] * v);
            }
            i += 1;
        }
        proof {
            algebra::sum_ext(
                m as nat,
                g,
                |i: int| weights@[i] * f@[i * (n as nat) + j].lift(),
            );
        }
        r.push(acc);
        j += 1;
    }
    assert(r@ =~= want);
    r
}

/// The opened bit columns as one table, the column varying fastest.
pub open spec fn opened_bits(bits: Seq<Seq<bool>>, idx: Seq<usize>, width: nat) -> Seq<
    Goldilocks,
> {
    Seq::new(
        width * idx.len(),
        |t: int|
            subset_sum::bit::<Goldilocks>(
                bits[idx[t % idx.len() as int] as int][t / idx.len() as int],
            ),
    )
}

/// Builds the table of the opened bit columns.
pub fn open_bits(bits: &Vec<Vec<bool>>, idx: &Vec<usize>, width: usize) -> (r: Vec<Goldilocks>)
    requires
        idx@.len() > 0,
        width * idx@.len() <= usize::MAX,
        forall|k: int| 0 <= k < idx@.len() ==> #[trigger] idx@[k] < bits@.len(),
        forall|j: int| 0 <= j < bits@.len() ==> (#[trigger] bits@[j])@.len() == width,
    ensures
        r@ == opened_bits(views::nested(bits@), idx@, width as nat),
        algebra::all_valid(r@),
{
    let ghost vs = views::nested(bits@);
    let s: usize = idx.len();
    let ghost want = opened_bits(vs, idx@, width as nat);
    let mut r: Vec<Goldilocks> = Vec::new();
    let total: usize = width * s;
    let mut t: usize = 0;
    while t < total
        invariant
            t <= total,
            s == idx@.len(),
            s > 0,
            total == width * s,
            vs == views::nested(bits@),
            forall|k: int| 0 <= k < idx@.len() ==> #[trigger] idx@[k] < bits@.len(),
            forall|j: int| 0 <= j < bits@.len() ==> (#[trigger] bits@[j])@.len() == width,
            want == opened_bits(vs, idx@, width as nat),
            r@.len() == t,
            forall|k: int| 0 <= k < t ==> #[trigger] r@[k] == want[k],
            algebra::all_valid(r@),
        decreases total - t,
    {
        let k: usize = t % s;
        let i: usize = t / s;
        proof {
            vstd::arithmetic::div_mod::lemma_fundamental_div_mod(t as int, s as int);
            assert(i < width) by (nonlinear_arith)
                requires
                    t == s * i + k,
                    t < width * s,
                    k >= 0,
                    s > 0,
            ;
            assert(idx@[k as int] < bits@.len());
            assert(bits@[idx@[k as int] as int]@.len() == width);
        }
        let v = if bits[idx[k]][i] {
            Goldilocks::new_one()
        } else {
            Goldilocks::new_zero()
        };
        r.push(v);
        t += 1;
    }
    assert(r@ =~= want);
    r
}

/// The hash rows folded by the given weights.
pub open spec fn folded_hash(
    rows: Seq<Seq<Goldilocks>>,
    weights: Seq<GoldilocksExt2>,
    width: nat,
) -> Seq<GoldilocksExt2> {
    Seq::new(width, |i: int| algebra::sum(rows.len(), |r: int| weights[r] * rows[r][i].lift()))
}

/// Folds the hash rows by the given weights.
pub fn fold_hash(
    a: &Vec<Vec<Goldilocks>>,
    weights: &Vec<GoldilocksExt2>,
    width: usize,
) -> (r: Vec<GoldilocksExt2>)
    requires
        weights@.len() == a@.len(),
        forall|k: int| 0 <= k < a@.len() ==> (#[trigger] a@[k])@.len() == width,
    ensures
        r@ == folded_hash(views::nested(a@), weights@, width as nat),
        algebra::all_valid(r@),
{
    let ghost rows = views::nested(a@);
    let ghost want = folded_hash(rows, weights@, width as nat);
    let mut out: Vec<GoldilocksExt2> = Vec::new();
    let mut i: usize = 0;
    while i < width
        invariant
            i <= width,
            rows == views::nested(a@),
            weights@.len() == a@.len(),
            forall|k: int| 0 <= k < a@.len() ==> (#[trigger] a@[k])@.len() == width,
            want == folded_hash(rows, weights@, width as nat),
            out@.len() == i,
            forall|k: int| 0 <= k < i ==> #[trigger] out@[k] == want[k],
            algebra::all_valid(out@),
        decreases width - i,
    {
        let mut acc = GoldilocksExt2::new_zero();
        let ghost g = |r: int| weights@[r] * rows[r][i as int].lift();
        let mut r: usize = 0;
        while r < a.len()
            invariant
                r <= a.len(),
                i < width,
                rows == views::nested(a@),
                weights@.len() == a@.len(),
                forall|k: int| 0 <= k < a@.len() ==> (#[trigger] a@[k])@.len() == width,
                g == (|r: int| weights@[r] * rows[r][i as int].lift()),
                acc == algebra::sum(r as nat, g),
                acc.valid(),
            decreases a.len() - r,
        {
            assert(a@[r as int]@.len() == width);
            let v = a[r][i].to_ext();
            let ghost before = acc;
            acc = acc.add(weights[r].mul(v));
            proof {
                GoldilocksExt2::law_valid(before, weights@[r as int] * v);
            }
            r += 1;
        }
        out.push(acc);
        i += 1;
    }
    assert(out@ =~= want);
    out
}

/// The opened bit columns combined with the given weights.
pub open spec fn folded_bits(
    bits: Seq<Seq<bool>>,
    idx: Seq<usize>,
    weights: Seq<GoldilocksExt2>,
    width: nat,
) -> Seq<GoldilocksExt2> {
    Seq::new(
        width,
        |i: int|
            algebra::sum(
                idx.len(),
                |k: int| subset_sum::gated(bits[idx[k] as int][i], weights[k]),
            ),
    )
}

/// Combines the opened bit columns with the given weights.
pub fn fold_bits(
    bits: &Vec<Vec<bool>>,
    idx: &Vec<usize>,
    weights: &Vec<GoldilocksExt2>,
    width: usize,
) -> (r: Vec<GoldilocksExt2>)
    requires
        weights@.len() == idx@.len(),
        forall|k: int| 0 <= k < idx@.len() ==> #[trigger] idx@[k] < bits@.len(),
        forall|j: int| 0 <= j < bits@.len() ==> (#[trigger] bits@[j])@.len() == width,
    ensures
        r@ == folded_bits(views::nested(bits@), idx@, weights@, width as nat),
        algebra::all_valid(r@),
{
    let ghost vs = views::nested(bits@);
    let ghost want = folded_bits(vs, idx@, weights@, width as nat);
    let mut out: Vec<GoldilocksExt2> = Vec::new();
    let mut i: usize = 0;
    while i < width
        invariant
            i <= width,
            vs == views::nested(bits@),
            weights@.len() == idx@.len(),
            forall|k: int| 0 <= k < idx@.len() ==> #[trigger] idx@[k] < bits@.len(),
            forall|j: int| 0 <= j < bits@.len() ==> (#[trigger] bits@[j])@.len() == width,
            want == folded_bits(vs, idx@, weights@, width as nat),
            out@.len() == i,
            forall|k: int| 0 <= k < i ==> #[trigger] out@[k] == want[k],
            algebra::all_valid(out@),
        decreases width - i,
    {
        let mut acc = GoldilocksExt2::new_zero();
        let ghost g = |k: int|
            subset_sum::gated(vs[idx@[k] as int][i as int], weights@[k]);
        let mut k: usize = 0;
        while k < idx.len()
            invariant
                k <= idx.len(),
                i < width,
                vs == views::nested(bits@),
                weights@.len() == idx@.len(),
                forall|k: int| 0 <= k < idx@.len() ==> #[trigger] idx@[k] < bits@.len(),
                forall|j: int| 0 <= j < bits@.len() ==> (#[trigger] bits@[j])@.len() == width,
                g == (|k: int|
                    subset_sum::gated(vs[idx@[k] as int][i as int], weights@[k])),
                acc == algebra::sum(k as nat, g),
                acc.valid(),
            decreases idx.len() - k,
        {
            assert(idx@[k as int] < bits@.len());
            assert(bits@[idx@[k as int] as int]@.len() == width);
            let ghost before = acc;
            if bits[idx[k]][i] {
                acc = acc.add(weights[k]);
                proof {
                    GoldilocksExt2::law_valid(before, weights@[k as int]);
                }
            } else {
                proof {
                    GoldilocksExt2::law_add_zero(acc);
                }
            }
            k += 1;
        }
        out.push(acc);
        i += 1;
    }
    assert(out@ =~= want);
    out
}

/// The weights that rebuild the combined rows from their bits.
pub open spec fn recon_weights(eqz1: Seq<GoldilocksExt2>, width: nat) -> Seq<GoldilocksExt2> {
    Seq::new(
        width,
        |i: int|
            eqz1[i / ETA as int] * Goldilocks::embed(pow2((i % ETA as int) as nat) as int).lift(),
    )
}

/// Builds the weights that rebuild the combined rows from their bits.
pub fn make_recon_weights(eqz1: &Vec<GoldilocksExt2>, m: usize) -> (r: Vec<GoldilocksExt2>)
    requires
        eqz1@.len() == m,
        ETA * m <= usize::MAX,
    ensures
        r@ == recon_weights(eqz1@, (ETA * m) as nat),
        algebra::all_valid(r@),
{
    let powers = powers_of_two();
    let width: usize = ETA * m;
    let ghost want = recon_weights(eqz1@, width as nat);
    let mut out: Vec<GoldilocksExt2> = Vec::new();
    let mut i: usize = 0;
    while i < width
        invariant
            i <= width,
            width == ETA * m,
            eqz1@.len() == m,
            powers@ == Seq::new(ETA as nat, |k: int| Goldilocks::embed(pow2(k as nat) as int)),
            want == recon_weights(eqz1@, width as nat),
            out@.len() == i,
            forall|k: int| 0 <= k < i ==> #[trigger] out@[k] == want[k],
            algebra::all_valid(out@),
        decreases width - i,
    {
        let p = powers[i % ETA].to_ext();
        let v = eqz1[i / ETA].mul(p);
        proof {
            GoldilocksExt2::law_valid(eqz1@[(i / ETA) as int], p);
        }
        out.push(v);
        i += 1;
    }
    assert(out@ =~= want);
    out
}

/// `w` where `i` is `j`, zero elsewhere.
pub open spec fn pick(i: usize, j: int, w: GoldilocksExt2) -> GoldilocksExt2 {
    if i == j {
        w
    } else {
        GoldilocksExt2::zero()
    }
}

/// The sum of the weights whose index is `j`.
pub open spec fn selected(
    idx: Seq<usize>,
    weights: Seq<GoldilocksExt2>,
    j: int,
) -> GoldilocksExt2 {
    algebra::sum(idx.len(), |k: int| pick(idx[k], j, weights[k]))
}

/// `weights[k]` at position `idx[k]`, zero elsewhere.
pub open spec fn selector(
    idx: Seq<usize>,
    weights: Seq<GoldilocksExt2>,
    len: nat,
) -> Seq<GoldilocksExt2> {
    Seq::new(len, |j: int| selected(idx, weights, j))
}

/// No index stands twice.
pub open spec fn distinct(idx: Seq<usize>) -> bool {
    forall|a: int, b: int| 0 <= a < b < idx.len() ==> idx[a] != idx[b]
}

/// Builds the selector of distinct indices.
pub fn make_selector(
    idx: &Vec<usize>,
    weights: &Vec<GoldilocksExt2>,
    len: usize,
) -> (r: Vec<GoldilocksExt2>)
    requires
        distinct(idx@),
        weights@.len() == idx@.len(),
        algebra::all_valid(weights@),
        forall|k: int| 0 <= k < idx@.len() ==> #[trigger] idx@[k] < len,
    ensures
        r@ == selector(idx@, weights@, len as nat),
        algebra::all_valid(r@),
{
    let ghost want = selector(idx@, weights@, len as nat);
    let mut out: Vec<GoldilocksExt2> = Vec::new();
    let mut i: usize = 0;
    while i < len
        invariant
            i <= len,
            out@.len() == i,
            forall|k: int| 0 <= k < i ==> #[trigger] out@[k] == GoldilocksExt2::zero(),
        decreases len - i,
    {
        out.push(GoldilocksExt2::new_zero());
        i += 1;
    }
    let mut k: usize = 0;
    proof {
        GoldilocksExt2::law_valid(GoldilocksExt2::zero(), GoldilocksExt2::zero());
        assert forall|j: int| 0 <= j < len implies #[trigger] out@[j] == selector(
            idx@.take(0),
            weights@,
            len as nat,
        )[j] by {
            assert(algebra::sum(
                0,
                |k: int| pick(idx@.take(0)[k], j, weights@[k]),
            ) == GoldilocksExt2::zero());
        }
    }
    while k < idx.len()
        invariant
            k <= idx.len(),
            out@.len() == len,
            distinct(idx@),
            weights@.len() == idx@.len(),
            algebra::all_valid(weights@),
            algebra::all_valid(out@),
            forall|k: int| 0 <= k < idx@.len() ==> #[trigger] idx@[k] < len,
            forall|j: int|
                0 <= j < len ==> #[trigger] out@[j] == selector(
                    idx@.take(k as int),
                    weights@,
                    len as nat,
                )[j],
        decreases idx.len() - k,
    {
        let ghost before = out@;
        assert(idx@[k as int] < len);
        let p: usize = idx[k];
        out.set(p, weights[k]);
        proof {
            let next = idx@.take(k + 1);
            let prev = idx@.take(k as int);
            assert forall|j: int| 0 <= j < len implies #[trigger] out@[j] == selector(
                next,
                weights@,
                len as nat,
            )[j] by {
                let f = |t: int| pick(next[t], j, weights@[t]);
                let g = |t: int| pick(prev[t], j, weights@[t]);
                algebra::sum_ext(k as nat, f, g);
                assert(algebra::sum((k + 1) as nat, f) == algebra::sum(k as nat, f) + f(
                    k as int,
                ));
                assert(before[j] == selector(prev, weights@, len as nat)[j]);
                assert(weights@[k as int].valid());
                if j == p {
                    assert forall|t: int| 0 <= t < k implies #[trigger] g(t)
                        == GoldilocksExt2::zero() by {
                        assert(idx@[t] != idx@[k as int]);
                    }
                    algebra::sum_zero(k as nat, g);
                    algebra::zero_add(weights@[k as int]);
                } else {
                    assert(before[j].valid());
                    GoldilocksExt2::law_add_zero(before[j]);
                }
            }
        }
        k += 1;
    }
    assert(idx@.take(idx@.len() as int) =~= idx@);
    assert(out@ =~= want);
    out
}

/// The factor of variable `t` in the encoding weight of coefficient `k`.
pub open spec fn rs_factor(r3: Seq<GoldilocksExt2>, a: nat, k: int, t: int) -> GoldilocksExt2 {
    GoldilocksExt2::one() - r3[t] + r3[t] * domain::up(
        domain::pow(domain::root(a), ((pow2(t as nat) * k) % pow2(a) as int) as nat),
    )
}

/// The weights with which the coefficients enter the encoding's value at `r3`.
pub open spec fn encoding_weights(r3: Seq<GoldilocksExt2>, a: nat, n: nat) -> Seq<
    GoldilocksExt2,
> {
    Seq::new(n, |k: int| algebra::prod(a, |t: int| rs_factor(r3, a, k, t)))
}

/// Computes the encoding weights for the domain of order `2^log_len`.
pub fn rs_weights(r3: &[GoldilocksExt2], n: usize, log_len: usize) -> (r: Vec<GoldilocksExt2>)
    requires
        r3@.len() == log_len,
        log_len <= 32,
        n <= pow2(log_len as nat) <= usize::MAX,
    ensures
        r@ == encoding_weights(r3@, log_len as nat, n as nat),
        algebra::all_valid(r@),
{
    let g = domain::two_adic_generator(log_len);
    let two_n: usize = domain::two_power(log_len);
    let one = GoldilocksExt2::new_one();
    let ghost a = log_len as nat;
    let ghost want = encoding_weights(r3@, a, n as nat);
    let mut out: Vec<GoldilocksExt2> = Vec::new();
    let mut k: usize = 0;
    while k < n
        invariant
            k <= n,
            a == log_len,
            r3@.len() == log_len,
            log_len <= 32,
            two_n == pow2(a),
            n <= two_n,
            g == domain::root(a),
            one == GoldilocksExt2::one(),
            want == encoding_weights(r3@, a, n as nat),
            out@.len() == k,
            forall|i: int| 0 <= i < k ==> #[trigger] out@[i] == want[i],
            algebra::all_valid(out@),
        decreases n - k,
    {
        let mut prod = GoldilocksExt2::new_one();
        let ghost f = |t: int| rs_factor(r3@, a, k as int, t);
        let mut t: usize = 0;
        let mut e: usize = k;
        proof {
            vstd::arithmetic::div_mod::lemma_small_mod(k as nat, pow2(a));
            multilinear::lemma_pow2_zero();
            assert(pow2(0) * k == k);
        }
        while t < log_len
            invariant
                t <= log_len,
                k < n,
                n <= two_n,
                a == log_len,
                r3@.len() == log_len,
                log_len <= 32,
                two_n == pow2(a),
                g == domain::root(a),
                one == GoldilocksExt2::one(),
                f == (|t: int| rs_factor(r3@, a, k as int, t)),
                e == (pow2(t as nat) * k) % pow2(a) as int,
                e < two_n,
                prod == algebra::prod(t as nat, f),
                prod.valid(),
            decreases log_len - t,
        {
            let gp = domain::power(g, e).to_ext();
            let factor = one.sub(r3[t]).add(r3[t].mul(gp));
            let ghost before = prod;
            prod = prod.mul(factor);
            proof {
                GoldilocksExt2::law_valid(before, factor);
                multilinear::lemma_pow2_step((t + 1) as nat);
                lemma_double_mod(pow2(t as nat) * k, pow2(a) as int);
                assert(pow2((t + 1) as nat) * k == 2 * (pow2(t as nat) * k)) by (nonlinear_arith)
                    requires
                        pow2((t + 1) as nat) == 2 * pow2(t as nat),
                ;
            }
            e = double_mod(e, two_n);
            t += 1;
        }
        out.push(prod);
        k += 1;
    }
    assert(out@ =~= want);
    out
}

proof fn lemma_double_mod(x: int, m: int)
    requires
        m > 0,
    ensures
        (2 * x) % m == (2 * (x % m)) % m,
{
    vstd::arithmetic::div_mod::lemma_mul_mod_noop_right(2, x, m);
}

/// `2 e mod m` for `e < m`.
fn double_mod(e: usize, m: usize) -> (r: usize)
    requires
        e < m,
    ensures
        r == (2 * e) % m as int,
        r < m,
{
    if e < m - e {
        proof {
            vstd::arithmetic::div_mod::lemma_small_mod((2 * e) as nat, m as nat);
        }
        e + e
    } else {
        proof {
            vstd::arithmetic::div_mod::lemma_mod_add_multiples_vanish(2 * e - m, m as int);
            vstd::arithmetic::div_mod::lemma_small_mod((2 * e - m) as nat, m as nat);
        }
        e - (m - e)
    }
}

} // verus!
