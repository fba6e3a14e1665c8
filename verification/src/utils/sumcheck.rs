//! Sumcheck for the sum over the boolean hypercube of a product of multilinear
//! polynomials.
use vstd::prelude::*;
use vstd::arithmetic::power2::pow2;
use crate::algebra;
use crate::field::Field;
use crate::multilinear;
use crate::polynomial;
use crate::prime;
use crate::utils::oracle::RandomOracle;
use crate::views;

verus! {

/// A sumcheck proof. Each round message is the round's univariate polynomial of
/// degree `d`, the number of factors, given by its values at `0..=d`.
pub struct SumcheckProof<F: Field> {
    pub round_polys: Vec<Vec<F>>,
    pub final_evals: Vec<F>,
}

impl<F: Field> SumcheckProof<F> {
    /// The round messages.
    pub open spec fn rounds(self) -> Seq<Seq<F>> {
        views::nested(self.round_polys@)
    }

    /// Number of field elements in the proof.
    pub open spec fn element_count(self) -> nat {
        views::total_len(self.rounds()) + self.final_evals@.len()
    }

    /// Size in bytes of all field elements of the proof.
    pub fn size_bytes(&self) -> (r: usize)
        requires
            self.element_count() * F::byte_size() <= usize::MAX,
        ensures
            r == self.element_count() * F::byte_size(),
    {
        let f: usize = F::size();
        let mut acc: usize = 0;
        let mut i: usize = 0;
        let ghost rounds = self.rounds();
        assert(rounds.take(0) =~= Seq::<Seq<F>>::empty());
        assert(views::total_len(rounds.take(0)) == 0);
        while i < self.round_polys.len()
            invariant
                i <= self.round_polys.len(),
                f == F::byte_size(),
                rounds == self.rounds(),
                self.element_count() * F::byte_size() <= usize::MAX,
                acc == views::total_len(rounds.take(i as int)) * f,
            decreases self.round_polys.len() - i,
        {
            let l: usize = self.round_polys[i].len();
            proof {
                let next = rounds.take(i + 1);
                assert(next.drop_last() =~= rounds.take(i as int));
                assert(next.last() == rounds[i as int]);
                views::lemma_total_len_prefix(rounds, i + 1);
                let (a, b) = (views::total_len(rounds.take(i as int)), views::total_len(next));
                assert(b * f == a * f + l * f) by (nonlinear_arith)
                    requires
                        b == a + l,
                ;
                assert(b * f <= self.element_count() * f) by (nonlinear_arith)
                    requires
                        b <= self.element_count(),
                ;
                assert(0 <= a * f) by (nonlinear_arith);
            }
            acc = acc + l * f;
            i += 1;
        }
        proof {
            assert(rounds.take(rounds.len() as int) =~= rounds);
            let (a, b) = (views::total_len(rounds), self.final_evals@.len());
            assert((a + b) * f == a * f + b * f) by (nonlinear_arith);
            assert(0 <= a * f) by (nonlinear_arith);
        }
        acc + self.final_evals.len() * f
    }
}

/// The product of the factors at vertex `i`.
pub open spec fn vertex_product<F: Field>(polys: Seq<Seq<F>>, i: int) -> F {
    algebra::prod(polys.len(), |j: int| polys[j][i])
}

/// `sum_x prod_j polys[j](x)` over the hypercube.
pub open spec fn hypercube_sum<F: Field>(polys: Seq<Seq<F>>) -> F {
    algebra::sum(polys[0].len(), |i: int| vertex_product(polys, i))
}

/// The product of the factors with the high variable set to `t`, at vertex `i` of
/// the other variables.
pub open spec fn line_product<F: Field>(polys: Seq<Seq<F>>, i: int, t: F) -> F {
    let half = (polys[0].len() / 2) as int;
    algebra::prod(polys.len(), |j: int| algebra::lerp(polys[j][i], polys[j][i + half], t))
}

/// The round polynomial: the sum with the high variable set to `t`.
pub open spec fn round_value<F: Field>(polys: Seq<Seq<F>>, t: F) -> F {
    algebra::sum(polys[0].len() / 2, |i: int| line_product(polys, i, t))
}

/// The round message.
pub open spec fn round_message<F: Field>(polys: Seq<Seq<F>>) -> Seq<F> {
    Seq::new(polys.len() + 1, |k: int| round_value(polys, F::embed(k)))
}

/// All factors with the high variable fixed to `r`.
pub open spec fn fold_polys<F: Field>(polys: Seq<Seq<F>>, r: F) -> Seq<Seq<F>> {
    Seq::new(polys.len(), |j: int| multilinear::fold_high(polys[j], r))
}

/// The honest round messages for the challenges `ch`.
pub open spec fn prover_rounds<F: Field>(polys: Seq<Seq<F>>, ch: Seq<F>) -> Seq<Seq<F>>
    decreases ch.len(),
{
    if ch.len() == 0 {
        Seq::empty()
    } else {
        seq![round_message(polys)] + prover_rounds(fold_polys(polys, ch[0]), ch.drop_first())
    }
}

/// The value of each factor at the challenge point. The challenges bind the
/// variables from the highest down.
pub open spec fn prover_finals<F: Field>(polys: Seq<Seq<F>>, ch: Seq<F>) -> Seq<F> {
    Seq::new(polys.len(), |j: int| multilinear::mle(polys[j], ch.reverse()))
}

/// A nonempty list of tables of `2^n` values each.
pub open spec fn polys_shape<F: Field>(polys: Seq<Seq<F>>, n: nat) -> bool {
    &&& polys.len() > 0
    &&& forall|j: int| 0 <= j < polys.len() ==> (#[trigger] polys[j]).len() == pow2(n)
}

/// A round message holds the values at zero and one, and no more values than there are
/// distinct nodes.
pub open spec fn message_fits<F: Field>(message: Seq<F>) -> bool {
    2 <= message.len() <= prime::p()
}

/// The claim left after the round checks, or `None` if one of them fails.
pub open spec fn check_rounds<F: Field>(cur: F, rounds: Seq<Seq<F>>, ch: Seq<F>) -> Option<F>
    decreases rounds.len(),
{
    if rounds.len() == 0 {
        Some(cur)
    } else if !message_fits(rounds[0]) || rounds[0][0] + rounds[0][1] != cur {
        None
    } else {
        check_rounds(
            polynomial::interpolation(rounds[0], ch[0]),
            rounds.drop_first(),
            ch.drop_first(),
        )
    }
}

/// How many rounds pass their check.
pub open spec fn rounds_passed<F: Field>(cur: F, rounds: Seq<Seq<F>>, ch: Seq<F>) -> nat
    decreases rounds.len(),
{
    if rounds.len() == 0 || !message_fits(rounds[0]) || rounds[0][0] + rounds[0][1] != cur {
        0
    } else {
        1 + rounds_passed(
            polynomial::interpolation(rounds[0], ch[0]),
            rounds.drop_first(),
            ch.drop_first(),
        )
    }
}

/// The rounds that pass depend only on as many challenges as there are rounds.
pub proof fn lemma_passed_prefix<F: Field>(
    cur: F,
    rounds: Seq<Seq<F>>,
    ch: Seq<F>,
    longer: Seq<F>,
)
    requires
        ch.len() == rounds.len(),
        longer.len() >= rounds.len(),
        forall|i: int| 0 <= i < ch.len() ==> #[trigger] ch[i] == longer[i],
    ensures
        rounds_passed(cur, rounds, ch) == rounds_passed(cur, rounds, longer),
    decreases rounds.len(),
{
    if rounds.len() > 0 && message_fits(rounds[0]) && rounds[0][0] + rounds[0][1] == cur {
        assert(ch[0] == longer[0]);
        lemma_passed_prefix(
            polynomial::interpolation(rounds[0], ch[0]),
            rounds.drop_first(),
            ch.drop_first(),
            longer.drop_first(),
        );
    }
}

/// No more rounds pass than there are.
pub proof fn lemma_passed_bound<F: Field>(cur: F, rounds: Seq<Seq<F>>, ch: Seq<F>)
    ensures
        rounds_passed(cur, rounds, ch) <= rounds.len(),
        check_rounds(cur, rounds, ch) is Some ==> rounds_passed(cur, rounds, ch) == rounds.len(),
    decreases rounds.len(),
{
    if rounds.len() > 0 && message_fits(rounds[0]) && rounds[0][0] + rounds[0][1] == cur {
        lemma_passed_bound(
            polynomial::interpolation(rounds[0], ch[0]),
            rounds.drop_first(),
            ch.drop_first(),
        );
    }
}

/// The verifier accepts: every round check passes and the final values multiply
/// to the last claim.
pub open spec fn accepted<F: Field>(
    claim: F,
    rounds: Seq<Seq<F>>,
    finals: Seq<F>,
    ch: Seq<F>,
) -> bool {
    check_rounds(claim, rounds, ch) == Some(algebra::prod(finals.len(), |i: int| finals[i]))
}

/// The field elements `0, 1, .., count - 1`.
pub fn eval_points<F: Field>(count: usize) -> (r: Vec<F>)
    ensures
        r@ == polynomial::nodes::<F>(count as nat),
{
    let mut pts: Vec<F> = Vec::new();
    let mut p = F::new_zero();
    let one = F::new_one();
    let mut k: usize = 0;
    proof {
        F::law_embed(0, 0);
    }
    while k < count
        invariant
            k <= count,
            p == F::embed(k as int),
            one == F::one(),
            pts@ == polynomial::nodes::<F>(k as nat),
        decreases count - k,
    {
        pts.push(p);
        proof {
            F::law_embed(k as int, 1);
            F::law_embed(1, 0);
            assert(pts@ =~= polynomial::nodes::<F>((k + 1) as nat));
        }
        p = p.add(one);
        k += 1;
    }
    pts
}

/// The exponent of a power of two.
pub fn log2_exact(len: usize) -> (n: usize)
    requires
        crate::utils::poly::is_power_of_two(len as int),
    ensures
        len == pow2(n as nat),
{
    let mut n: usize = 0;
    let mut cur: usize = len;
    let ghost k = choose|k: nat| len as int == #[trigger] pow2(k);
    proof {
        multilinear::lemma_pow2_zero();
        lemma_exponent_small(k);
    }
    while cur > 1
        invariant
            n <= k,
            k <= 64,
            cur == pow2((k - n) as nat),
        decreases cur,
    {
        proof {
            if k == n {
                multilinear::lemma_pow2_zero();
            }
            multilinear::lemma_pow2_step((k - n) as nat);
        }
        cur = cur / 2;
        n += 1;
    }
    proof {
        if n < k {
            multilinear::lemma_pow2_step((k - n) as nat);
        }
    }
    n
}

pub proof fn lemma_exponent_small(k: nat)
    requires
        pow2(k) <= usize::MAX,
    ensures
        k < 64,
{
    if k >= 64 {
        multilinear::lemma_pow2_mono(64, k);
        vstd::arithmetic::power2::lemma2_to64_rest();
    }
}

/// The exponent of a power of two is unique.
pub proof fn lemma_exponent_unique(m: nat, n: nat)
    requires
        pow2(m) == pow2(n),
    ensures
        m == n,
{
    if m < n {
        vstd::arithmetic::power2::lemma_pow2_strictly_increases(m, n);
    }
    if n < m {
        vstd::arithmetic::power2::lemma_pow2_strictly_increases(n, m);
    }
}

/// The values at `points` of the round polynomial of `polys`.
fn round_evals<F: Field>(polys: &Vec<Vec<F>>, half: usize, points: &Vec<F>) -> (r: Vec<F>)
    requires
        polys.len() > 0,
        half == polys@[0]@.len() / 2,
        forall|j: int| 0 <= j < polys.len() ==> (#[trigger] polys@[j])@.len() == polys@[0]@.len(),
    ensures
        r@ == Seq::new(
            points@.len(),
            |k: int| round_value(views::nested(polys@), points@[k]),
        ),
{
    let ghost vs = views::nested(polys@);
    let mut evals: Vec<F> = Vec::new();
    let mut k: usize = 0;
    while k < points.len()
        invariant
            k <= points.len(),
            polys.len() > 0,
            vs == views::nested(polys@),
            half == polys@[0]@.len() / 2,
            forall|j: int|
                0 <= j < polys.len() ==> (#[trigger] polys@[j])@.len() == polys@[0]@.len(),
            evals@ == Seq::new(k as nat, |k: int| round_value(vs, points@[k])),
        decreases points.len() - k,
    {
        let t = points[k];
        let mut acc = F::new_zero();
        let mut i: usize = 0;
        let ghost f = |i: int| line_product(vs, i, t);
        while i < half
            invariant
                i <= half,
                polys.len() > 0,
                vs == views::nested(polys@),
                half == polys@[0]@.len() / 2,
                forall|j: int|
                    0 <= j < polys.len() ==> (#[trigger] polys@[j])@.len() == polys@[0]@.len(),
                f == (|i: int| line_product(vs, i, t)),
                acc == algebra::sum(i as nat, f),
            decreases half - i,
        {
            let mut prod = F::new_one();
            let mut j: usize = 0;
            let ghost g = |j: int| algebra::lerp(vs[j][i as int], vs[j][i + half], t);
            while j < polys.len()
                invariant
                    j <= polys.len(),
                    i < half,
                    vs == views::nested(polys@),
                    half == polys@[0]@.len() / 2,
                    forall|j: int|
                        0 <= j < polys.len() ==> (#[trigger] polys@[j])@.len() == polys@[0]@.len(),
                    g == (|j: int| algebra::lerp(vs[j][i as int], vs[j][i + half], t)),
                    prod == algebra::prod(j as nat, g),
                decreases polys.len() - j,
            {
                assert(polys@[j as int]@.len() == polys@[0]@.len());
                assert(polys@[j as int].len() == polys@[j as int]@.len());
                let lo = polys[j][i];
                let hi = polys[j][i + half];
                prod = prod.mul(lo.add(t.mul(hi.sub(lo))));
                j += 1;
            }
            assert(prod == line_product(vs, i as int, t));
            acc = acc.add(prod);
            i += 1;
        }
        assert(acc == round_value(vs, t));
        evals.push(acc);
        assert(evals@ =~= Seq::new((k + 1) as nat, |k: int| round_value(vs, points@[k])));
        k += 1;
    }
    evals
}

/// Fixes the high variable of one table to `r`.
fn fold_high_in_place<F: Field>(v: &mut Vec<F>, half: usize, r: F)
    requires
        half == old(v)@.len() / 2,
    ensures
        final(v)@ == multilinear::fold_high(old(v)@, r),
{
    let ghost orig = v@;
    let mut i: usize = 0;
    while i < half
        invariant
            i <= half,
            half == orig.len() / 2,
            v@.len() == orig.len(),
            forall|j: int| 0 <= j < i ==> #[trigger] v@[j] == algebra::lerp(
                orig[j],
                orig[j + half],
                r,
            ),
            forall|j: int| i <= j < orig.len() ==> #[trigger] v@[j] == orig[j],
        decreases half - i,
    {
        assert(v.len() == v@.len());
        let a = v[i];
        let b = v[i + half];
        v.set(i, a.add(r.mul(b.sub(a))));
        i += 1;
    }
    v.truncate(half);
    assert(v@ =~= multilinear::fold_high(orig, r));
}

/// Proves `sum_x prod_j polys[j](x)`. The tables must all have the same power of
/// two as their length. Each round binds the high variable; the challenges come
/// from `oracle`. Returns the proof and the challenges.
pub fn prove<F: Field>(
    polys: Vec<Vec<F>>,
    oracle: &mut RandomOracle<F>,
) -> (r: (SumcheckProof<F>, Vec<F>))
    requires
        polys@.len() < usize::MAX,
        exists|n: nat|
            #![trigger pow2(n)]
            polys_shape(views::nested(polys@), n) && old(oracle).has_fields(n as int),
    ensures
        polys@[0]@.len() == pow2(r.1@.len()),
        r.1@ == old(oracle).upcoming(r.1@.len()),
        r.0.rounds() == prover_rounds(views::nested(polys@), r.1@),
        r.0.final_evals@ == prover_finals(views::nested(polys@), r.1@),
        final(oracle).wf(),
        old(oracle).advanced(*final(oracle), r.1@.len() as int, 0),
{
    let ghost vs = views::nested(polys@);
    let ghost m = choose|n: nat|
        #![trigger pow2(n)]
        polys_shape(vs, n) && oracle.has_fields(n as int);
    let d: usize = polys.len();
    assert(vs[0].len() == pow2(m));
    let n: usize = log2_exact(polys[0].len());
    proof {
        lemma_exponent_unique(m, n as nat);
    }
    let points = eval_points::<F>(d + 1);
    let mut polys = polys;
    let ghost start = *oracle;
    let mut round_polys: Vec<Vec<F>> = Vec::new();
    let mut challenges: Vec<F> = Vec::new();
    let mut i: usize = 0;
    proof {
        lemma_rounds_done(vs);
        assert(oracle.upcoming(0) =~= Seq::<F>::empty());
    }
    while i < n
        invariant
            i <= n,
            d == polys.len(),
            d == vs.len(),
            d > 0,
            polys_shape(vs, n as nat),
            points@ == polynomial::nodes::<F>((d + 1) as nat),
            start.has_fields(n as int),
            oracle.wf(),
            start.advanced(*oracle, i as int, 0),
            challenges@ == start.upcoming(i as nat),
            challenges@.len() == i,
            views::nested(round_polys@) == prover_rounds(vs, challenges@),
            views::nested(polys@) == fold_rounds(vs, challenges@),
            polys_shape(views::nested(polys@), (n - i) as nat),
        decreases n - i,
    {
        let ghost cur = views::nested(polys@);
        proof {
            assert forall|j: int| 0 <= j < polys.len() implies (#[trigger] polys@[j])@.len()
                == polys@[0]@.len() by {
                assert(cur[j].len() == pow2((n - i) as nat));
                assert(cur[0].len() == pow2((n - i) as nat));
            }
            assert(cur[0].len() == pow2((n - i) as nat));
            multilinear::lemma_pow2_step((n - i) as nat);
        }
        let half: usize = polys[0].len() / 2;
        let evals = round_evals(&polys, half, &points);
        assert(evals@ =~= round_message(cur));
        let ghost before = round_polys@;
        round_polys.push(evals);
        let ghost old_ch = challenges@;
        let r = oracle.next_field();
        challenges.push(r);
        proof {
            assert(challenges@ =~= start.upcoming((i + 1) as nat));
            lemma_rounds_push(vs, old_ch, r);
            assert(views::nested(round_polys@) =~= views::nested(before).push(round_message(cur)));
        }
        let mut j: usize = 0;
        while j < polys.len()
            invariant
                j <= polys.len(),
                d == polys.len(),
                cur.len() == d,
                half as nat == cur[0].len() / 2,
                half == pow2((n - i - 1) as nat),
                polys_shape(cur, (n - i) as nat),
                i < n,
                forall|k: int|
                    0 <= k < j ==> (#[trigger] polys@[k])@ == multilinear::fold_high(cur[k], r),
                forall|k: int| j <= k < d ==> (#[trigger] polys@[k])@ == cur[k],
            decreases polys.len() - j,
        {
            assert(cur[j as int].len() == pow2((n - i) as nat));
            assert(cur[0].len() == pow2((n - i) as nat));
            fold_high_in_place(&mut polys[j], half, r);
            j += 1;
        }
        proof {
            assert(views::nested(polys@) =~= fold_polys(cur, r));
            let next = views::nested(polys@);
            assert forall|k: int| 0 <= k < next.len() implies (#[trigger] next[k]).len() == pow2(
                (n - i - 1) as nat,
            ) by {
                assert(cur[k].len() == pow2((n - i) as nat));
                multilinear::lemma_pow2_step((n - i) as nat);
            }
        }
        i += 1;
    }
    let ghost last = views::nested(polys@);
    let mut final_evals: Vec<F> = Vec::new();
    let mut j: usize = 0;
    while j < polys.len()
        invariant
            j <= polys.len(),
            last == views::nested(polys@),
            polys_shape(last, 0),
            final_evals@ == Seq::new(j as nat, |k: int| last[k][0]),
        decreases polys.len() - j,
    {
        proof {
            assert(last[j as int].len() == pow2(0));
            multilinear::lemma_pow2_zero();
        }
        final_evals.push(polys[j][0]);
        assert(final_evals@ =~= Seq::new((j + 1) as nat, |k: int| last[k][0]));
        j += 1;
    }
    proof {
        assert forall|k: int| 0 <= k < d implies last[k][0] == #[trigger] multilinear::mle(
            vs[k],
            challenges@.reverse(),
        ) by {
            assert(vs[k].len() == pow2(n as nat));
            lemma_fold_rounds_value(vs, challenges@, k);
        }
        assert(final_evals@ =~= prover_finals(vs, challenges@));
    }
    (SumcheckProof { round_polys, final_evals }, challenges)
}

/// All factors after the high variables were fixed to `ch` in turn.
pub open spec fn fold_rounds<F: Field>(polys: Seq<Seq<F>>, ch: Seq<F>) -> Seq<Seq<F>>
    decreases ch.len(),
{
    if ch.len() == 0 {
        polys
    } else {
        fold_rounds(fold_polys(polys, ch[0]), ch.drop_first())
    }
}

/// The prover sends one message for every challenge, each with one value more than
/// there are factors.
pub proof fn law_rounds_shape<F: Field>(polys: Seq<Seq<F>>, ch: Seq<F>)
    ensures
        prover_rounds(polys, ch).len() == ch.len(),
        forall|i: int|
            0 <= i < ch.len() ==> (#[trigger] prover_rounds(polys, ch)[i]).len() == polys.len()
                + 1,
    decreases ch.len(),
{
    if ch.len() > 0 {
        let next = fold_polys(polys, ch[0]);
        law_rounds_shape(next, ch.drop_first());
        let rounds = prover_rounds(polys, ch);
        let rest = prover_rounds(next, ch.drop_first());
        assert forall|i: int| 0 <= i < ch.len() implies (#[trigger] rounds[i]).len()
            == polys.len() + 1 by {
            if i > 0 {
                assert(rounds[i] == rest[i - 1]);
            }
        }
    }
}

proof fn lemma_rounds_done<F: Field>(polys: Seq<Seq<F>>)
    ensures
        prover_rounds(polys, Seq::empty()) == Seq::<Seq<F>>::empty(),
        fold_rounds(polys, Seq::empty()) == polys,
{
}

proof fn lemma_rounds_push<F: Field>(polys: Seq<Seq<F>>, ch: Seq<F>, r: F)
    ensures
        prover_rounds(polys, ch.push(r)) == prover_rounds(polys, ch).push(
            round_message(fold_rounds(polys, ch)),
        ),
        fold_rounds(polys, ch.push(r)) == fold_polys(fold_rounds(polys, ch), r),
    decreases ch.len(),
{
    let full = ch.push(r);
    if ch.len() == 0 {
        assert(full.drop_first() =~= Seq::<F>::empty());
        lemma_rounds_done(fold_polys(polys, r));
        lemma_rounds_done(polys);
        assert(ch =~= Seq::<F>::empty());
        assert(prover_rounds(polys, full) =~= seq![round_message(polys)]);
    } else {
        let next = fold_polys(polys, ch[0]);
        assert(full.drop_first() =~= ch.drop_first().push(r));
        assert(full[0] == ch[0]);
        lemma_rounds_push(next, ch.drop_first(), r);
        assert(prover_rounds(polys, full) =~= prover_rounds(polys, ch).push(
            round_message(fold_rounds(polys, ch)),
        ));
    }
}

/// Binding the variables from the highest down evaluates at the reversed point.
proof fn lemma_fold_rounds_value<F: Field>(polys: Seq<Seq<F>>, ch: Seq<F>, j: int)
    requires
        0 <= j < polys.len(),
        polys[j].len() == pow2(ch.len()),
    ensures
        fold_rounds(polys, ch).len() == polys.len(),
        fold_rounds(polys, ch)[j].len() == 1,
        fold_rounds(polys, ch)[j][0] == multilinear::mle(polys[j], ch.reverse()),
    decreases ch.len(),
{
    multilinear::lemma_pow2_zero();
    if ch.len() == 0 {
        assert(ch.reverse() =~= Seq::<F>::empty());
        assert(multilinear::fold_all(polys[j], Seq::<F>::empty()) == polys[j]);
    } else {
        let next = fold_polys(polys, ch[0]);
        let rest = ch.drop_first();
        multilinear::lemma_pow2_step(ch.len());
        assert(next[j].len() == pow2(rest.len()));
        lemma_fold_rounds_value(next, rest, j);
        assert(ch.reverse() =~= rest.reverse().push(ch[0]));
        multilinear::lemma_mle_high(polys[j], rest.reverse(), ch[0]);
    }
}

/// The value at `r` of the polynomial through `(0, evals[0]), (1, evals[1]), ..`.
pub fn interpolate<F: Field>(evals: &[F], r: F) -> (res: F)
    requires
        evals@.len() <= prime::p(),
    ensures
        res == polynomial::interpolation(evals@, r),
        res.valid(),
{
    let n: usize = evals.len();
    let pts = eval_points::<F>(n);
    let mut acc = F::new_zero();
    let mut k: usize = 0;
    let ghost f = |k: int|
        (evals@[k] * polynomial::lagrange_num(evals@.len(), k, r)) * polynomial::lagrange_num(
            evals@.len(),
            k,
            F::embed(k),
        ).inv();
    while k < n
        invariant
            k <= n,
            n == evals@.len(),
            n <= prime::p(),
            pts@ == polynomial::nodes::<F>(n as nat),
            f == (|k: int|
                (evals@[k] * polynomial::lagrange_num(evals@.len(), k, r))
                    * polynomial::lagrange_num(evals@.len(), k, F::embed(k)).inv()),
            acc == algebra::sum(k as nat, f),
            acc.valid(),
        decreases n - k,
    {
        let mut num = F::new_one();
        let mut den = F::new_one();
        let mut m: usize = 0;
        let ghost g = |m: int| polynomial::lagrange_factor(k as int, r, m);
        let ghost h = |m: int| polynomial::lagrange_factor(k as int, F::embed(k as int), m);
        while m < n
            invariant
                m <= n,
                k < n,
                pts@ == polynomial::nodes::<F>(n as nat),
                g == (|m: int| polynomial::lagrange_factor(k as int, r, m)),
                h == (|m: int| polynomial::lagrange_factor(k as int, F::embed(k as int), m)),
                num == algebra::prod(m as nat, g),
                den == algebra::prod(m as nat, h),
                num.valid(),
                den.valid(),
            decreases n - m,
        {
            if m != k {
                num = num.mul(r.sub(pts[m]));
                den = den.mul(pts[k].sub(pts[m]));
            } else {
                proof {
                    F::law_mul_one(num);
                    F::law_mul_one(den);
                }
            }
            m += 1;
        }
        proof {
            polynomial::lemma_den_nonzero::<F>(n as nat, k as int);
        }
        acc = acc.add(evals[k].mul(num).mul(den.inverse()));
        k += 1;
    }
    acc
}

/// Checks a proof against the claimed sum. Returns the challenges on success. A round
/// message that cannot be interpolated is rejected.
/// Only the product of the final values is checked; that they are the values of
/// the factors at the challenge point is left to the caller.
pub fn verify<F: Field>(
    claim: F,
    proof: &SumcheckProof<F>,
    oracle: &mut RandomOracle<F>,
) -> (r: Option<Vec<F>>)
    requires
        old(oracle).has_fields(
            rounds_passed(
                claim,
                proof.rounds(),
                old(oracle).upcoming(proof.round_polys@.len()),
            ) as int,
        ),
    ensures
        r is Some <==> accepted(
            claim,
            proof.rounds(),
            proof.final_evals@,
            old(oracle).upcoming(proof.round_polys@.len()),
        ),
        r is Some ==> r->0@ == old(oracle).upcoming(proof.round_polys@.len()),
        final(oracle).wf(),
        old(oracle).advanced(
            *final(oracle),
            rounds_passed(
                claim,
                proof.rounds(),
                old(oracle).upcoming(proof.round_polys@.len()),
            ) as int,
            0,
        ),
{
    let ghost rounds = proof.rounds();
    let n: usize = proof.round_polys.len();
    let ghost start = *oracle;
    let ghost ch = start.upcoming(n as nat);
    let mut cur = claim;
    let mut challenges: Vec<F> = Vec::new();
    let mut i: usize = 0;
    proof {
        assert(rounds.skip(0) =~= rounds);
        assert(ch.skip(0) =~= ch);
    }
    while i < n
        invariant
            i <= n,
            n == proof.round_polys@.len(),
            rounds == proof.rounds(),
            start == *old(oracle),
            start.has_fields(rounds_passed(claim, rounds, ch) as int),
            oracle.wf(),
            start.advanced(*oracle, i as int, 0),
            ch == start.upcoming(n as nat),
            challenges@ == ch.take(i as int),
            check_rounds(claim, rounds, ch) == check_rounds(
                cur,
                rounds.skip(i as int),
                ch.skip(i as int),
            ),
            rounds_passed(claim, rounds, ch) == i + rounds_passed(
                cur,
                rounds.skip(i as int),
                ch.skip(i as int),
            ),
        decreases n - i,
    {
        let evals = &proof.round_polys[i];
        let ghost rest = rounds.skip(i as int);
        assert(rest[0] == evals@);
        proof {
            assert(rest.drop_first() =~= rounds.skip(i + 1));
            assert(ch.skip(i as int).drop_first() =~= ch.skip(i + 1));
            assert(ch.skip(i as int)[0] == ch[i as int]);
            assert(ch.take(i + 1) =~= ch.take(i as int).push(ch[i as int]));
        }
        if evals.len() < 2 || evals.len() as u64 > prime::MODULUS || !evals[0].add(
            evals[1],
        ).equals(cur) {
            return None;
        }
        let r = oracle.next_field();
        cur = interpolate(evals.as_slice(), r);
        challenges.push(r);
        i += 1;
    }
    assert(ch.take(n as int) =~= ch);
    let mut prod = F::new_one();
    let mut j: usize = 0;
    let ghost f = |i: int| proof.final_evals@[i];
    while j < proof.final_evals.len()
        invariant
            j <= proof.final_evals.len(),
            f == (|i: int| proof.final_evals@[i]),
            prod == algebra::prod(j as nat, f),
        decreases proof.final_evals.len() - j,
    {
        prod = prod.mul(proof.final_evals[j]);
        j += 1;
    }
    if !prod.equals(cur) {
        return None;
    }
    Some(challenges)
}

proof fn lemma_line_product_is_poly<F: Field>(polys: Seq<Seq<F>>, i: int, m: nat)
    ensures
        polynomial::is_poly(
            |t: F|
                algebra::prod(
                    m,
                    |j: int|
                        algebra::lerp(polys[j][i], polys[j][i + (polys[0].len() / 2) as int], t),
                ),
            m + 1,
        ),
    decreases m,
{
    let half = (polys[0].len() / 2) as int;
    let h = |t: F|
        algebra::prod(m, |j: int| algebra::lerp(polys[j][i], polys[j][i + half], t));
    if m == 0 {
        F::law_valid(F::zero(), F::zero());
        polynomial::is_poly_const(F::one());
        polynomial::is_poly_same(|t: F| F::one(), h, 1);
    } else {
        let k = (m - 1) as nat;
        lemma_line_product_is_poly(polys, i, k);
        let g = |t: F|
            algebra::prod(k, |j: int| algebra::lerp(polys[j][i], polys[j][i + half], t));
        let (a, b) = (polys[k as int][i], polys[k as int][i + half]);
        polynomial::is_poly_mul_line(a, b, g, m);
        polynomial::is_poly_same(|t: F| g(t) * algebra::lerp(a, b, t), h, m + 1);
    }
}

proof fn lemma_round_is_poly<F: Field>(polys: Seq<Seq<F>>)
    ensures
        polynomial::is_poly(|t: F| round_value(polys, t), polys.len() + 1),
{
    let half = polys[0].len() / 2;
    let d = polys.len();
    let f = |i: int, t: F| line_product(polys, i, t);
    assert forall|i: int| 0 <= i < half implies polynomial::is_poly(
        #[trigger] polynomial::curry(f, i),
        d + 1,
    ) by {
        lemma_line_product_is_poly(polys, i, d);
        let g = |t: F|
            algebra::prod(
                d,
                |j: int| algebra::lerp(polys[j][i], polys[j][i + (polys[0].len() / 2) as int], t),
            );
        polynomial::is_poly_same(g, polynomial::curry(f, i), d + 1);
    }
    polynomial::is_poly_sum(half, f, d + 1);
    let g = |t: F| algebra::sum(half, |i: int| f(i, t));
    let h = |t: F| round_value(polys, t);
    assert forall|t: F| t.valid() implies #[trigger] h(t) == g(t) by {
        algebra::sum_ext(half, |i: int| line_product(polys, i, t), |i: int| f(i, t));
    }
    polynomial::is_poly_same(g, h, d + 1);
}

/// The round polynomial's values at 0 and 1 add up to the claimed sum.
proof fn lemma_round_ends<F: Field>(polys: Seq<Seq<F>>, n: nat)
    requires
        polys_shape(polys, n),
        n > 0,
        forall|j: int| 0 <= j < polys.len() ==> algebra::all_valid(#[trigger] polys[j]),
    ensures
        round_value(polys, F::zero()) + round_value(polys, F::one()) == hypercube_sum(polys),
{
    let len = polys[0].len();
    let half = len / 2;
    assert(polys[0].len() == pow2(n));
    multilinear::lemma_pow2_step(n);
    let f = |i: int| vertex_product(polys, i);
    let lo = |i: int| line_product(polys, i, F::zero());
    let hi = |i: int| line_product(polys, i, F::one());
    algebra::sum_halves(half, f);
    algebra::sum_add(half, lo, hi);
    let g = |i: int| f(i) + f(i + half);
    let h = |i: int| lo(i) + hi(i);
    assert forall|i: int| 0 <= i < half implies #[trigger] g(i) == h(i) by {
        let k = half as int;
        assert forall|j: int| 0 <= j < polys.len() implies algebra::lerp(
            #[trigger] polys[j][i],
            polys[j][i + k],
            F::zero(),
        ) == polys[j][i] && algebra::lerp(polys[j][i], polys[j][i + k], F::one())
            == polys[j][i + k] by {
            assert(polys[j].len() == pow2(n));
            assert(algebra::all_valid(polys[j]));
            algebra::lerp_ends(polys[j][i], polys[j][i + k]);
        }
        algebra::prod_ext(
            polys.len(),
            |j: int| algebra::lerp(polys[j][i], polys[j][i + k], F::zero()),
            |j: int| polys[j][i],
        );
        algebra::prod_ext(
            polys.len(),
            |j: int| algebra::lerp(polys[j][i], polys[j][i + k], F::one()),
            |j: int| polys[j][i + k],
        );
    }
    algebra::sum_ext(half, g, h);
}

/// Fixing the high variable turns the round polynomial's value into the next sum.
proof fn lemma_round_next<F: Field>(polys: Seq<Seq<F>>, n: nat, r: F)
    requires
        polys_shape(polys, n),
        n > 0,
    ensures
        round_value(polys, r) == hypercube_sum(fold_polys(polys, r)),
        polys_shape(fold_polys(polys, r), (n - 1) as nat),
        forall|j: int|
            0 <= j < polys.len() ==> algebra::all_valid(#[trigger] fold_polys(polys, r)[j]),
{
    let next = fold_polys(polys, r);
    let half = polys[0].len() / 2;
    multilinear::lemma_pow2_step(n);
    assert forall|j: int| 0 <= j < next.len() implies (#[trigger] next[j]).len() == pow2(
        (n - 1) as nat,
    ) && algebra::all_valid(next[j]) by {
        assert(polys[j].len() == pow2(n));
        multilinear::lemma_fold_high_valid(polys[j], r);
    }
    assert(polys[0].len() == pow2(n));
    assert(next[0].len() == half);
    let f = |i: int| line_product(polys, i, r);
    let g = |i: int| vertex_product(next, i);
    assert forall|i: int| 0 <= i < half implies #[trigger] f(i) == g(i) by {
        let k = half as int;
        assert forall|j: int| 0 <= j < polys.len() implies algebra::lerp(
            #[trigger] polys[j][i],
            polys[j][i + k],
            r,
        ) == next[j][i] by {
            assert(polys[j].len() == pow2(n));
        }
        algebra::prod_ext(
            polys.len(),
            |j: int| algebra::lerp(polys[j][i], polys[j][i + k], r),
            |j: int| next[j][i],
        );
    }
    algebra::sum_ext(half, f, g);
}

/// Completeness: the honest proof of the true sum is accepted, whatever the
/// challenges.
pub proof fn law_complete<F: Field>(polys: Seq<Seq<F>>, ch: Seq<F>)
    requires
        polys_shape(polys, ch.len()),
        polys.len() < prime::p(),
        forall|j: int| 0 <= j < polys.len() ==> algebra::all_valid(#[trigger] polys[j]),
        algebra::all_valid(ch),
    ensures
        accepted(
            hypercube_sum(polys),
            prover_rounds(polys, ch),
            prover_finals(polys, ch),
            ch,
        ),
    decreases ch.len(),
{
    let n = ch.len();
    let finals = prover_finals(polys, ch);
    if n == 0 {
        multilinear::lemma_pow2_zero();
        assert(polys[0].len() == pow2(0));
        let f = |i: int| vertex_product(polys, i);
        assert(algebra::sum(0, f) == F::zero());
        assert(algebra::sum(1, f) == algebra::sum(0, f) + f(0));
        algebra::prod_valid(polys.len(), |j: int| polys[j][0]);
        algebra::zero_add(f(0));
        assert(ch.reverse() =~= Seq::<F>::empty());
        assert forall|j: int| 0 <= j < polys.len() implies #[trigger] finals[j]
            == polys[j][0] by {
            assert(multilinear::fold_all(polys[j], Seq::<F>::empty()) == polys[j]);
        }
        algebra::prod_ext(polys.len(), |j: int| finals[j], |j: int| polys[j][0]);
    } else {
        let r = ch[0];
        let rest = ch.drop_first();
        let next = fold_polys(polys, r);
        let msg = round_message(polys);
        let rounds = prover_rounds(polys, ch);
        assert(rounds[0] == msg);
        assert(rounds.drop_first() =~= prover_rounds(next, rest));
        lemma_round_ends(polys, n);
        F::law_embed(0, 0);
        F::law_embed(1, 0);
        assert(msg[0] == round_value(polys, F::zero()));
        assert(msg[1] == round_value(polys, F::one()));
        lemma_round_is_poly(polys);
        let g = |t: F| round_value(polys, t);
        assert(r.valid());
        polynomial::lemma_interpolation_exact(g, msg, r);
        lemma_round_next(polys, n, r);
        assert(algebra::all_valid(rest));
        law_complete(next, rest);
        assert(prover_finals(next, rest) =~= finals) by {
            assert forall|j: int| 0 <= j < polys.len() implies #[trigger] multilinear::mle(
                next[j],
                rest.reverse(),
            ) == multilinear::mle(polys[j], ch.reverse()) by {
                assert(polys[j].len() == pow2(n));
                assert(ch.reverse() =~= rest.reverse().push(r));
                multilinear::lemma_mle_high(polys[j], rest.reverse(), r);
            }
        }
    }
}

/// A proof is accepted for at most one claimed sum.
pub proof fn law_claim_unique<F: Field>(
    c: F,
    d: F,
    rounds: Seq<Seq<F>>,
    finals: Seq<F>,
    ch: Seq<F>,
)
    requires
        accepted(c, rounds, finals, ch),
        accepted(d, rounds, finals, ch),
    ensures
        c == d,
{
}

/// Rejection of another message: of two proofs that differ in one round message only,
/// both are accepted for one claim only if the messages have the same sum and the draw of
/// that round makes their polynomials agree.
pub proof fn law_message_bound<F: Field>(
    claim: F,
    rounds: Seq<Seq<F>>,
    other: Seq<Seq<F>>,
    finals: Seq<F>,
    ch: Seq<F>,
    i: int,
)
    requires
        rounds.len() == other.len(),
        rounds.len() <= ch.len(),
        0 <= i < rounds.len(),
        forall|k: int| 0 <= k < rounds.len() && k != i ==> #[trigger] rounds[k] == other[k],
        accepted(claim, rounds, finals, ch),
        accepted(claim, other, finals, ch),
    ensures
        rounds[i][0] + rounds[i][1] == other[i][0] + other[i][1],
        polynomial::interpolation(rounds[i], ch[i]) == polynomial::interpolation(
            other[i],
            ch[i],
        ),
        message_fits(rounds[i]),
    decreases i,
{
    reveal_with_fuel(check_rounds, 2);
    let (r1, r2) = (rounds.drop_first(), other.drop_first());
    if i == 0 {
        assert(r1 =~= r2) by {
            assert forall|k: int| 0 <= k < r1.len() implies r1[k] == r2[k] by {
                assert(rounds[k + 1] == other[k + 1]);
            }
        }
    } else {
        assert(rounds[0] == other[0]);
        assert forall|k: int| 0 <= k < r1.len() && k != i - 1 implies #[trigger] r1[k]
            == r2[k] by {
            assert(rounds[k + 1] == other[k + 1]);
        }
        law_message_bound(
            polynomial::interpolation(rounds[0], ch[0]),
            r1,
            r2,
            finals,
            ch.drop_first(),
            i - 1,
        );
    }
}

/// Rejection of another round value: of two proofs that differ in one value of one round
/// message, both are accepted for one claim only if the value is neither of the first two
/// and the draw of that round is another of the points that the message is given at.
pub proof fn law_value_bound<F: Field>(
    claim: F,
    rounds: Seq<Seq<F>>,
    finals: Seq<F>,
    ch: Seq<F>,
    i: int,
    j: int,
    v: F,
)
    requires
        0 <= i < rounds.len() <= ch.len(),
        0 <= j < rounds[i].len(),
        algebra::all_valid(rounds[i]),
        v.valid(),
        ch[i].valid(),
        v != rounds[i][j],
        accepted(claim, rounds, finals, ch),
        accepted(claim, rounds.update(i, rounds[i].update(j, v)), finals, ch),
    ensures
        j >= 2,
        exists|m: int| 0 <= m < rounds[i].len() && m != j && ch[i] == #[trigger] F::embed(m),
{
    let other = rounds.update(i, rounds[i].update(j, v));
    law_message_bound(claim, rounds, other, finals, ch, i);
    let (a, b, r) = (rounds[i], other[i], ch[i]);
    let n = a.len();
    assert(a[0].valid() && a[1].valid() && a[j].valid());
    if j == 0 {
        algebra::add_cancel(a[0], b[0], a[1]);
    }
    if j == 1 {
        F::law_add_comm(a[0], a[1]);
        F::law_add_comm(b[0], b[1]);
        algebra::add_cancel(a[1], b[1], a[0]);
    }
    let num = polynomial::lagrange_num(n, j, r);
    let den = polynomial::lagrange_num(n, j, F::embed(j));
    let f = |k: int|
        (a[k] * polynomial::lagrange_num(a.len(), k, r)) * polynomial::lagrange_num(
            a.len(),
            k,
            F::embed(k),
        ).inv();
    let g = |k: int|
        (b[k] * polynomial::lagrange_num(b.len(), k, r)) * polynomial::lagrange_num(
            b.len(),
            k,
            F::embed(k),
        ).inv();
    F::law_valid(a[j] * num, den.inv());
    F::law_valid(b[j] * num, den.inv());
    algebra::sum_changed(n, j, f, g);
    polynomial::lemma_den_nonzero::<F>(n, j);
    let fd = |m: int| polynomial::lagrange_factor(j, F::embed(j), m);
    algebra::prod_valid(n, fd);
    F::law_inv(den);
    F::law_valid(a[j], num);
    F::law_valid(b[j], num);
    F::law_nontrivial();
    if den.inv() == F::zero() {
        algebra::mul_zero(den);
    }
    algebra::mul_cancel(a[j] * num, b[j] * num, den.inv());
    let fr = |m: int| polynomial::lagrange_factor(j, r, m);
    algebra::prod_valid(n, fr);
    if num != F::zero() {
        algebra::mul_cancel(a[j], b[j], num);
    }
    if forall|m: int| 0 <= m < n && m != j ==> r != #[trigger] F::embed(m) {
        assert forall|m: int| 0 <= m < n implies (#[trigger] fr(m)).valid() && fr(m)
            != F::zero() by {
            F::law_valid(r, F::embed(m));
            F::law_embed(m, 0);
            if m != j && r - F::embed(m) == F::zero() {
                algebra::sub_zero(r, F::embed(m));
            }
        }
        algebra::prod_nonzero(n, fr);
    }
}

/// The round trip: the prover's proof is accepted for the sum over the hypercube, and
/// for no other claim.
pub proof fn law_round_trip<F: Field>(polys: Seq<Seq<F>>, ch: Seq<F>, claim: F)
    requires
        polys_shape(polys, ch.len()),
        polys.len() < prime::p(),
        forall|j: int| 0 <= j < polys.len() ==> algebra::all_valid(#[trigger] polys[j]),
        algebra::all_valid(ch),
    ensures
        accepted(claim, prover_rounds(polys, ch), prover_finals(polys, ch), ch) <==> claim
            == hypercube_sum(polys),
{
    law_complete(polys, ch);
    if accepted(claim, prover_rounds(polys, ch), prover_finals(polys, ch), ch) {
        law_claim_unique(
            claim,
            hypercube_sum(polys),
            prover_rounds(polys, ch),
            prover_finals(polys, ch),
            ch,
        );
    }
}

/// A round message meets the round polynomial by chance: they differ somewhere, yet agree
/// at the drawn challenge.
pub open spec fn meets_by_chance<F: Field>(polys: Seq<Seq<F>>, message: Seq<F>, r: F) -> bool {
    &&& polynomial::interpolation(message, r) == round_value(polys, r)
    &&& exists|t: F|
        t.valid() && #[trigger] polynomial::interpolation(message, t) != round_value(polys, t)
}

/// Some round message meets the round polynomial by chance.
pub open spec fn lucky<F: Field>(polys: Seq<Seq<F>>, rounds: Seq<Seq<F>>, ch: Seq<F>) -> bool {
    exists|i: int|
        0 <= i < rounds.len() && #[trigger] meets_by_chance(
            fold_rounds(polys, ch.take(i)),
            rounds[i],
            ch[i],
        )
}

/// Soundness, whoever made the proof: an accepted proof whose final values are those of
/// the factors at the challenge point is one of the true sum over the hypercube, unless
/// some round message, other than the round polynomial, meets it at the drawn challenge.
pub proof fn law_sound<F: Field>(
    claim: F,
    polys: Seq<Seq<F>>,
    rounds: Seq<Seq<F>>,
    finals: Seq<F>,
    ch: Seq<F>,
)
    requires
        polys_shape(polys, ch.len()),
        forall|j: int| 0 <= j < polys.len() ==> algebra::all_valid(#[trigger] polys[j]),
        rounds.len() == ch.len(),
        forall|i: int| 0 <= i < rounds.len() ==> algebra::all_valid(#[trigger] rounds[i]),
        accepted(claim, rounds, finals, ch),
        finals.len() == polys.len(),
        forall|j: int|
            0 <= j < polys.len() ==> #[trigger] finals[j] == multilinear::mle(
                polys[j],
                ch.reverse(),
            ),
    ensures
        claim == algebra::sum(
            pow2(ch.len()),
            |i: int| algebra::prod(polys.len(), |j: int| polys[j][i]),
        ) || lucky(polys, rounds, ch),
    decreases ch.len(),
{
    let n = ch.len();
    let f = |i: int| vertex_product(polys, i);
    let g = |i: int| algebra::prod(polys.len(), |j: int| polys[j][i]);
    assert(polys[0].len() == pow2(n));
    algebra::sum_ext(pow2(n), f, g);
    if n == 0 {
        multilinear::lemma_pow2_zero();
        assert(algebra::sum(0, f) == F::zero());
        assert(algebra::sum(1, f) == algebra::sum(0, f) + f(0));
        algebra::prod_valid(polys.len(), |j: int| polys[j][0]);
        algebra::zero_add(f(0));
        assert(ch.reverse() =~= Seq::<F>::empty());
        assert forall|j: int| 0 <= j < polys.len() implies #[trigger] finals[j]
            == polys[j][0] by {
            assert(multilinear::fold_all(polys[j], Seq::<F>::empty()) == polys[j]);
        }
        algebra::prod_ext(polys.len(), |j: int| finals[j], |j: int| polys[j][0]);
    } else {
        let r = ch[0];
        let rest = ch.drop_first();
        let next = fold_polys(polys, r);
        let msg = rounds[0];
        let later = rounds.drop_first();
        let cur = polynomial::interpolation(msg, r);
        lemma_round_next(polys, n, r);
        assert forall|j: int| 0 <= j < next.len() implies #[trigger] finals[j]
            == multilinear::mle(next[j], rest.reverse()) by {
            assert(polys[j].len() == pow2(n));
            assert(ch.reverse() =~= rest.reverse().push(r));
            multilinear::lemma_mle_high(polys[j], rest.reverse(), r);
        }
        assert forall|i: int| 0 <= i < later.len() implies algebra::all_valid(
            #[trigger] later[i],
        ) by {
            assert(algebra::all_valid(rounds[i + 1]));
        }
        law_sound(cur, next, later, finals, rest);
        let h = |i: int| algebra::prod(next.len(), |j: int| next[j][i]);
        assert(next[0].len() == pow2((n - 1) as nat));
        algebra::sum_ext(pow2((n - 1) as nat), |i: int| vertex_product(next, i), h);
        assert(fold_rounds(polys, ch.take(0)) == polys) by {
            assert(ch.take(0) =~= Seq::<F>::empty());
        }
        if lucky(next, later, rest) {
            let i = choose|i: int|
                0 <= i < later.len() && #[trigger] meets_by_chance(
                    fold_rounds(next, rest.take(i)),
                    later[i],
                    rest[i],
                );
            assert(ch.take(i + 1).drop_first() =~= rest.take(i));
            assert(fold_rounds(polys, ch.take(i + 1)) == fold_rounds(next, rest.take(i)));
            assert(meets_by_chance(fold_rounds(polys, ch.take(i + 1)), rounds[i + 1], ch[i + 1]));
        } else if !meets_by_chance(fold_rounds(polys, ch.take(0)), rounds[0], ch[0]) {
            assert(cur == round_value(polys, r));
            F::law_embed(0, 0);
            F::law_embed(1, 0);
            assert(algebra::all_valid(rounds[0]));
            polynomial::lemma_interpolation_at_node(msg, 0);
            polynomial::lemma_interpolation_at_node(msg, 1);
            assert(polynomial::interpolation(msg, F::zero()) == round_value(polys, F::zero()));
            assert(polynomial::interpolation(msg, F::one()) == round_value(polys, F::one()));
            lemma_round_ends(polys, n);
        }
    }
}

/// All elements of a sumcheck proof: the round messages and the final values.
pub open spec fn elements<F: Field>(p: SumcheckProof<F>) -> Seq<F> {
    views::joined(p.rounds()) + p.final_evals@
}

/// A sumcheck proof is as large as its elements.
pub proof fn law_size<F: Field>(p: SumcheckProof<F>)
    ensures
        p.element_count() == elements(p).len(),
{
    views::lemma_joined(p.rounds());
}

} // verus!
