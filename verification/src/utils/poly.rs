//! Multilinear polynomials as vectors of hypercube values.
use vstd::prelude::*;
use vstd::arithmetic::power2::pow2;
use crate::algebra;
use crate::field::Field;
use crate::multilinear;
use crate::tables;

verus! {

/// A multilinear polynomial, given by its values on the boolean hypercube.
#[derive(Debug, Clone)]
pub struct MlPoly<F: Field>(pub Vec<F>);

/// `n` is a power of two.
pub open spec fn is_power_of_two(n: int) -> bool {
    exists|k: nat| n == #[trigger] pow2(k)
}

/// The exponent of a power of two.
pub open spec fn exponent(n: int) -> nat {
    choose|k: nat| n == #[trigger] pow2(k)
}

pub proof fn lemma_exponent(k: nat)
    ensures
        is_power_of_two(pow2(k) as int),
        exponent(pow2(k) as int) == k,
{
    let e = exponent(pow2(k) as int);
    assert(pow2(e) == pow2(k));
    if e < k {
        vstd::arithmetic::power2::lemma_pow2_strictly_increases(e, k);
    }
    if k < e {
        vstd::arithmetic::power2::lemma_pow2_strictly_increases(k, e);
    }
}

/// A copy of a slice.
pub fn copy_slice<F: Field>(s: &[F]) -> (r: Vec<F>)
    ensures
        r@ == s@,
{
    let mut r: Vec<F> = Vec::new();
    let mut i: usize = 0;
    while i < s.len()
        invariant
            i <= s.len(),
            r@ == s@.take(i as int),
        decreases s.len() - i,
    {
        r.push(s[i]);
        assert(s@.take(i + 1) =~= s@.take(i as int).push(s@[i as int]));
        i += 1;
    }
    assert(s@.take(s.len() as int) =~= s@);
    r
}

/// Folds the first `2 * half` entries of `v` in place by `r`.
fn fold_prefix<F: Field>(v: &mut Vec<F>, half: usize, r: F)
    requires
        half <= old(v).len() / 2,
    ensures
        final(v).len() == old(v).len(),
        final(v)@.take(half as int) =~= multilinear::fold_low(old(v)@.take(2 * half), r),
{
    let ghost orig = v@;
    let mut i: usize = 0;
    while i < half
        invariant
            i <= half,
            half <= orig.len() / 2,
            v.len() == orig.len(),
            forall|j: int| 0 <= j < i ==> #[trigger] v@[j] == algebra::lerp(
                orig[2 * j],
                orig[2 * j + 1],
                r,
            ),
            forall|j: int| i <= j < orig.len() ==> #[trigger] v@[j] == orig[j],
        decreases half - i,
    {
        let a = v[i * 2];
        let b = v[i * 2 + 1];
        assert(a == orig[2 * i] && b == orig[2 * i + 1]);
        proof {
            F::law_mul_comm(r, b - a);
        }
        let x = a.add(b.sub(a).mul(r));
        v.set(i, x);
        i += 1;
    }
}

impl<F: Field> MlPoly<F> {
    /// The value at `point`, whose first coordinate belongs to the lowest index bit.
    pub fn eval(self, point: &[F]) -> (r: F)
        requires
            self.0@.len() == pow2(point@.len()),
        ensures
            r == multilinear::mle(self.0@, point@),
    {
        let mut scratch = self.0;
        let ghost s = scratch@;
        let mut cur_len: usize = scratch.len() / 2;
        let mut j: usize = 0;
        assert(s.take(s.len() as int) =~= s);
        let ghost mut size: int = s.len() as int;
        proof {
            assert(point@.take(0) =~= Seq::<F>::empty());
            multilinear::lemma_pow2_zero();
        }
        while j < point.len()
            invariant
                j <= point.len(),
                scratch.len() == s.len(),
                s.len() == pow2(point@.len()),
                size == pow2((point@.len() - j) as nat),
                size <= s.len(),
                cur_len == size / 2,
                scratch@.take(size) == multilinear::fold_all(s, point@.take(j as int)),
            decreases point.len() - j,
        {
            proof {
                multilinear::lemma_pow2_step((point@.len() - j) as nat);
            }
            let ghost before = scratch@;
            fold_prefix(&mut scratch, cur_len, point[j]);
            proof {
                multilinear::lemma_fold_all_push(s, point@.take(j as int), point@[j as int]);
                assert(point@.take(j + 1) =~= point@.take(j as int).push(point@[j as int]));
                assert(before.take(2 * cur_len as int) =~= before.take(size));
                size = cur_len as int;
            }
            cur_len = cur_len / 2;
            j += 1;
        }
        proof {
            assert(point@.take(point@.len() as int) =~= point@);
            multilinear::lemma_pow2_zero();
            assert(scratch@.take(1)[0] == scratch@[0]);
        }
        scratch[0]
    }

    /// Splits by the low index bits: with `c = len / n` parts, part `j` holds the
    /// values at `j, j + c, j + 2c, ..`.
    pub fn split(&self, n: usize) -> (r: Vec<MlPoly<F>>)
        requires
            is_power_of_two(n as int),
            n <= self.0@.len(),
            self.0@.len() % (self.0@.len() / n as nat) == 0,
        ensures
            r@.len() == self.0@.len() / n as nat,
            forall|j: int|
                0 <= j < r@.len() ==> (#[trigger] r@[j]).0@ == Seq::new(
                    self.0@.len() / r@.len(),
                    |k: int| self.0@[k * r@.len() + j],
                ),
    {
        proof {
            let k = choose|k: nat| n as int == #[trigger] pow2(k);
            vstd::arithmetic::power2::lemma_pow2_pos(k);
        }
        let len: usize = self.0.len();
        let chunks: usize = len / n;
        proof {
            vstd::arithmetic::div_mod::lemma_div_non_zero(len as int, n as int);
        }
        let size: usize = len / chunks;
        let ghost s = self.0@;
        proof {
            vstd::arithmetic::div_mod::lemma_fundamental_div_mod(len as int, chunks as int);
            assert(len == size * chunks) by (nonlinear_arith)
                requires
                    len == chunks * size,
            ;
        }
        let mut polies: Vec<MlPoly<F>> = Vec::new();
        let mut j: usize = 0;
        while j < chunks
            invariant
                j <= chunks,
                chunks > 0,
                s == self.0@,
                len == s.len(),
                len == size * chunks,
                size == len / chunks,
                polies@.len() == j,
                forall|i: int|
                    0 <= i < j ==> (#[trigger] polies@[i]).0@ == Seq::new(
                        size as nat,
                        |k: int| s[k * chunks + i],
                    ),
            decreases chunks - j,
        {
            let mut part: Vec<F> = Vec::new();
            let mut k: usize = 0;
            while k < size
                invariant
                    k <= size,
                    j < chunks,
                    s == self.0@,
                    len == s.len(),
                    len == size * chunks,
                    part@ == Seq::new(k as nat, |k: int| s[k * chunks + j]),
                decreases size - k,
            {
                assert(k * chunks + j < size * chunks && k * chunks <= size * chunks) by (nonlinear_arith)
                    requires
                        k < size,
                        j < chunks,
                ;
                part.push(self.0[k * chunks + j]);
                assert(part@ =~= Seq::new((k + 1) as nat, |k: int| s[k * chunks + j]));
                k += 1;
            }
            polies.push(MlPoly(part));
            j += 1;
        }
        polies
    }

    /// Fixes the lowest variables to the coordinates of `point`.
    pub fn fold(&mut self, point: &[F])
        ensures
            final(self).0@ == multilinear::fold_all(old(self).0@, point@),
    {
        let ghost s = self.0@;
        let mut cur_len: usize = self.0.len();
        let mut j: usize = 0;
        proof {
            assert(point@.take(0) =~= Seq::<F>::empty());
            assert(s.take(s.len() as int) =~= s);
        }
        while j < point.len()
            invariant
                j <= point.len(),
                cur_len <= self.0@.len(),
                self.0@.len() == s.len(),
                self.0@.take(cur_len as int) == multilinear::fold_all(s, point@.take(j as int)),
            decreases point.len() - j,
        {
            let ghost before = self.0@;
            let ghost size = cur_len as int;
            cur_len = cur_len / 2;
            fold_prefix(&mut self.0, cur_len, point[j]);
            proof {
                multilinear::lemma_fold_all_push(s, point@.take(j as int), point@[j as int]);
                assert(point@.take(j + 1) =~= point@.take(j as int).push(point@[j as int]));
                assert(multilinear::fold_low(before.take(2 * cur_len as int), point@[j as int])
                    =~= multilinear::fold_low(before.take(size), point@[j as int]));
            }
            j += 1;
        }
        assert(point@.take(point@.len() as int) =~= point@);
        self.0.truncate(cur_len);
    }

    /// The table of the equality polynomial of `point`.
    pub fn new_eq(point: &Vec<F>) -> (r: Self)
        requires
            pow2(point@.len()) <= usize::MAX,
        ensures
            r.0@ == multilinear::eq_table(point@),
    {
        let mut evals: Vec<F> = vec![F::new_one()];
        let n: usize = point.len();
        let mut j: usize = n;
        proof {
            assert(point@.subrange(n as int, n as int) =~= Seq::<F>::empty());
            assert(evals@ =~= multilinear::eq_table(Seq::<F>::empty()));
        }
        while j > 0
            invariant
                j <= n,
                n == point.len(),
                pow2(n as nat) <= usize::MAX,
                evals@ == multilinear::eq_table(point@.subrange(j as int, n as int)),
            decreases j,
        {
            j -= 1;
            let x = point[j];
            let y = F::new_one().sub(x);
            let ghost tail = point@.subrange(j as int, n as int);
            let mut next: Vec<F> = Vec::new();
            let mut i: usize = 0;
            proof {
                assert(tail.drop_first() =~= point@.subrange(j + 1, n as int));
                multilinear::lemma_eq_table_len(tail);
                multilinear::lemma_eq_table_len(tail.drop_first());
                multilinear::lemma_pow2_step(tail.len());
                multilinear::lemma_pow2_mono(tail.len(), n as nat);
            }
            while i < evals.len()
                invariant
                    i <= evals.len(),
                    next@.len() == 2 * i,
                    y == F::one() - x,
                    forall|k: int|
                        0 <= k < 2 * i ==> #[trigger] next@[k] == (if k % 2 == 0 {
                            y * evals@[k / 2]
                        } else {
                            x * evals@[k / 2]
                        }),
                decreases evals.len() - i,
            {
                let e = evals[i];
                next.push(y.mul(e));
                next.push(x.mul(e));
                i += 1;
            }
            evals = next;
            assert(evals@ =~= multilinear::eq_table(tail));
        }
        assert(point@.subrange(0, n as int) =~= point@);
        MlPoly(evals)
    }

    /// The equality polynomial at two points.
    pub fn eval_eq(point1: &Vec<F>, point2: &Vec<F>) -> (r: F)
        ensures
            r == multilinear::eq_value(point1@, point2@),
    {
        let n: usize = if point1.len() <= point2.len() {
            point1.len()
        } else {
            point2.len()
        };
        let mut res = F::new_one();
        let one = F::new_one();
        let mut k: usize = 0;
        let ghost f = |k: int| multilinear::eq_factor(point1@[k], point2@[k]);
        while k < n
            invariant
                k <= n,
                n <= point1.len(),
                n <= point2.len(),
                one == F::one(),
                f == (|k: int| multilinear::eq_factor(point1@[k], point2@[k])),
                res == algebra::prod(k as nat, f),
            decreases n - k,
        {
            let a = point1[k];
            let b = point2[k];
            res = res.mul(a.mul(b).add(one.sub(a).mul(one.sub(b))));
            k += 1;
        }
        res
    }
}

/// Evaluating after folding is evaluating at the longer point.
pub proof fn law_fold_then_eval<F: Field>(s: Seq<F>, p: Seq<F>, q: Seq<F>)
    ensures
        multilinear::mle(multilinear::fold_all(s, p), q) == multilinear::mle(s, p + q),
{
    multilinear::lemma_fold_all_concat(s, p, q);
}

/// A multilinear polynomial is the sum of its hypercube values weighted by the
/// equality polynomial of the point.
pub proof fn law_eval_is_weighted_sum<F: Field>(s: Seq<F>, point: Seq<F>)
    requires
        s.len() == pow2(point.len()),
        algebra::all_valid(s),
    ensures
        multilinear::mle(s, point) == algebra::sum(
            s.len(),
            |i: int| s[i] * multilinear::eq_table(point)[i],
        ),
{
    multilinear::lemma_mle_sum(s, point);
}

/// A multilinear polynomial takes its tabulated values on the hypercube.
pub proof fn law_eval_at_vertex<F: Field>(s: Seq<F>, bits: Seq<bool>)
    requires
        s.len() == pow2(bits.len()),
        algebra::all_valid(s),
    ensures
        0 <= multilinear::vertex_index(bits) < s.len(),
        multilinear::mle(s, multilinear::vertex(bits)) == s[multilinear::vertex_index(bits)],
{
    multilinear::lemma_mle_vertex(s, bits, multilinear::vertex_index(bits));
}

/// Evaluating the equality table of one point at another is the equality
/// polynomial of the two points.
pub proof fn law_eq_table_eval<F: Field>(a: Seq<F>, b: Seq<F>)
    requires
        a.len() == b.len(),
    ensures
        multilinear::mle(multilinear::eq_table(a), b) == multilinear::eq_value(a, b),
{
    multilinear::lemma_mle_eq_table(a, b);
}

/// Splitting by the low variables: where part `j` holds every `2^a`-th value from `j` on,
/// the polynomial at a point is the sum of the parts at the high coordinates, each times
/// the weight of its index at the low ones.
pub proof fn law_split_eval<F: Field>(s: Seq<F>, low: Seq<F>, high: Seq<F>)
    requires
        s.len() == pow2(low.len() + high.len()),
        algebra::all_valid(s),
    ensures
        multilinear::mle(s, low + high) == algebra::sum(
            pow2(low.len()),
            |j: int|
                multilinear::eq_table(low)[j] * multilinear::mle(
                    Seq::new(pow2(high.len()), |k: int| s[k * pow2(low.len()) + j]),
                    high,
                ),
        ),
{
    let (b, m) = (pow2(low.len()), pow2(high.len()));
    let c = |j: int| multilinear::eq_table(low)[j];
    let part = |j: int| Seq::new(m, |k: int| s[k * b + j]);
    tables::lemma_mle_combined(b, c, part, high);
    multilinear::lemma_fold_all_concat(s, low, high);
    multilinear::lemma_fold_all_len(s, low, low.len() + high.len());
    let folded = multilinear::fold_all(s, low);
    let want = tables::combined(b, c, part, m);
    assert(folded =~= want) by {
        assert forall|k: int| 0 <= k < m implies #[trigger] folded[k] == want[k] by {
            multilinear::lemma_fold_block(s, low, low.len() + high.len(), k);
            assert((k + 1) * b == k * b + b) by (nonlinear_arith);
            let block = s.subrange(k * b, (k + 1) * b);
            multilinear::lemma_mle_sum(block, low);
            let f = |i: int| block[i] * multilinear::eq_table(low)[i];
            let g = |j: int| c(j) * part(j)[k];
            assert forall|j: int| 0 <= j < b implies #[trigger] f(j) == g(j) by {
                F::law_mul_comm(block[j], c(j));
            }
            algebra::sum_ext(b, f, g);
        }
    }
    algebra::sum_ext(
        b,
        |j: int| c(j) * multilinear::mle(part(j), high),
        |j: int|
            multilinear::eq_table(low)[j] * multilinear::mle(
                Seq::new(m, |k: int| s[k * b + j]),
                high,
            ),
    );
}

} // verus!
