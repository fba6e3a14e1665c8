//! Fraction sums: proves `sum_i p_i / q_i = num / den` for numerators `p` and
//! denominators `q` over `{0,1}^k`, reducing to one value of `p` and of `q` at a
//! random point.
//!
//! The circuit is a binary tree of fraction additions. A layer is halved by
//! pairing along the low bit:
//!
//! ```text
//!   p'[i] = p[2i] q[2i+1] + p[2i+1] q[2i],    q'[i] = q[2i] q[2i+1].
//! ```
//!
//! Verification walks from the root to the input: each step reduces a claim about
//! one layer at a point to a claim about the next by a sumcheck of degree three.
//! Points are low bit first.
use vstd::prelude::*;
use vstd::arithmetic::power2::pow2;
use crate::algebra;
use crate::field::Field;
use crate::gkr;
use crate::multilinear;
use crate::polynomial;
use crate::utils::oracle::RandomOracle;
use crate::utils::poly;
use crate::utils::sumcheck;

verus! {

/// One layer reduction: the round polynomials at `0, 1, 2, 3`, then the values at
/// the sumcheck point of the numerators' even and odd entries and of the
/// denominators' even and odd entries.
pub struct LayerProof<F: Field> {
    pub round_polys: Vec<[F; 4]>,
    pub leaves: [F; 4],
}

/// A fraction-sum proof: the root fraction and one reduction per layer, from the
/// root to the input.
pub struct FracSumProof<F: Field> {
    pub num: F,
    pub den: F,
    pub layers: Vec<LayerProof<F>>,
}

/// The contents of a layer reduction.
pub struct LayerView<F: Field> {
    pub rounds: Seq<Seq<F>>,
    pub leaves: Seq<F>,
}

impl<F: Field> LayerProof<F> {
    pub open spec fn contents(self) -> LayerView<F> {
        LayerView { rounds: gkr::messages(self.round_polys@), leaves: self.leaves@ }
    }
}

impl<F: Field> FracSumProof<F> {
    /// The contents of all layers.
    pub open spec fn contents(self) -> Seq<LayerView<F>> {
        Seq::new(self.layers@.len(), |i: int| self.layers@[i].contents())
    }

    /// Number of field elements in the first `n` layers.
    pub open spec fn layer_elements(self, n: nat) -> nat
        decreases n,
    {
        if n == 0 {
            0
        } else {
            self.layer_elements((n - 1) as nat) + self.layers@[n - 1].round_polys@.len() * 4 + 4
        }
    }

    /// Number of field elements in the proof.
    pub open spec fn element_count(self) -> nat {
        2 + self.layer_elements(self.layers@.len())
    }

    proof fn lemma_elements_mono(self, i: nat, n: nat)
        requires
            i <= n,
        ensures
            self.layer_elements(i) <= self.layer_elements(n),
        decreases n,
    {
        if i < n {
            self.lemma_elements_mono(i, (n - 1) as nat);
        }
    }

    /// Size in bytes of all field elements of the proof.
    pub fn size_bytes(&self) -> (r: usize)
        requires
            self.element_count() * F::byte_size() <= usize::MAX,
        ensures
            r == self.element_count() * F::byte_size(),
    {
        let f: usize = F::size();
        let n: usize = self.layers.len();
        let mut count: usize = 2;
        let mut i: usize = 0;
        proof {
            assert(self.element_count() <= self.element_count() * F::byte_size())
                by (nonlinear_arith)
                requires
                    F::byte_size() >= 1,
            ;
        }
        while i < n
            invariant
                i <= n,
                n == self.layers@.len(),
                self.element_count() <= usize::MAX,
                count == 2 + self.layer_elements(i as nat),
            decreases n - i,
        {
            proof {
                self.lemma_elements_mono((i + 1) as nat, n as nat);
            }
            count = count + (self.layers[i].round_polys.len() * 4 + 4);
            i += 1;
        }
        count * f
    }
}

/// The numerators of the next layer up.
pub open spec fn up_num<F: Field>(p: Seq<F>, q: Seq<F>) -> Seq<F> {
    Seq::new(p.len() / 2, |i: int| p[2 * i] * q[2 * i + 1] + p[2 * i + 1] * q[2 * i])
}

/// The denominators of the next layer up.
pub open spec fn up_den<F: Field>(q: Seq<F>) -> Seq<F> {
    Seq::new(q.len() / 2, |i: int| q[2 * i] * q[2 * i + 1])
}

/// The denominators `j` layers above the input.
pub open spec fn layer_den<F: Field>(q: Seq<F>, j: nat) -> Seq<F>
    decreases j,
{
    if j == 0 {
        q
    } else {
        up_den(layer_den(q, (j - 1) as nat))
    }
}

/// The numerators `j` layers above the input.
pub open spec fn layer_num<F: Field>(p: Seq<F>, q: Seq<F>, j: nat) -> Seq<F>
    decreases j,
{
    if j == 0 {
        p
    } else {
        up_num(layer_num(p, q, (j - 1) as nat), layer_den(q, (j - 1) as nat))
    }
}

/// Number of challenges read by the first `r` layer reductions.
pub open spec fn offset(r: nat) -> nat
    decreases r,
{
    if r == 0 {
        0
    } else {
        offset((r - 1) as nat) + r + 1
    }
}

/// The combination challenge of layer `r`.
pub open spec fn lambda_at<F: Field>(tape: Seq<F>, r: nat) -> F {
    tape[offset(r) as int]
}

/// The sumcheck challenges of layer `r`.
pub open spec fn inner_at<F: Field>(tape: Seq<F>, r: nat) -> Seq<F> {
    tape.subrange(offset(r) as int + 1, offset(r) as int + 1 + r)
}

/// The last challenge of layer `r`, which merges even and odd entries.
pub open spec fn beta_at<F: Field>(tape: Seq<F>, r: nat) -> F {
    tape[offset(r) as int + 1 + r]
}

/// The point at which the claim about layer `r` stands.
pub open spec fn point_at<F: Field>(tape: Seq<F>, r: nat) -> Seq<F> {
    if r == 0 {
        Seq::empty()
    } else {
        seq![beta_at(tape, (r - 1) as nat)] + inner_at(tape, (r - 1) as nat)
    }
}

/// The summand of the layer sumcheck, of the equality weight and the four split
/// entries.
pub open spec fn combine<F: Field>(lambda: F) -> spec_fn(Seq<F>) -> F {
    |v: Seq<F>| v[0] * ((v[1] * v[4] + v[2] * v[3]) + (lambda * v[3]) * v[4])
}

/// The tables of the layer sumcheck.
pub open spec fn layer_tables<F: Field>(z: Seq<F>, p: Seq<F>, q: Seq<F>) -> Seq<Seq<F>> {
    seq![
        multilinear::eq_table(z),
        gkr::evens(p),
        gkr::odds(p),
        gkr::evens(q),
        gkr::odds(q),
    ]
}

/// The honest reduction of a claim at `z` about the layer above `(p, q)`.
pub open spec fn honest_layer<F: Field>(
    z: Seq<F>,
    lambda: F,
    p: Seq<F>,
    q: Seq<F>,
    zp: Seq<F>,
) -> LayerView<F> {
    LayerView {
        rounds: gkr::low_rounds(layer_tables(z, p, q), combine(lambda), zp),
        leaves: seq![
            multilinear::mle(gkr::evens(p), zp),
            multilinear::mle(gkr::odds(p), zp),
            multilinear::mle(gkr::evens(q), zp),
            multilinear::mle(gkr::odds(q), zp),
        ],
    }
}

/// The honest reductions for inputs of length `2^k`.
pub open spec fn honest_layers<F: Field>(
    p: Seq<F>,
    q: Seq<F>,
    k: nat,
    tape: Seq<F>,
) -> Seq<LayerView<F>> {
    Seq::new(
        k,
        |r: int|
            honest_layer(
                point_at(tape, r as nat),
                lambda_at(tape, r as nat),
                layer_num(p, q, (k - r - 1) as nat),
                layer_den(q, (k - r - 1) as nat),
                inner_at(tape, r as nat),
            ),
    )
}

/// The value claimed for an input vector: the mean of its even and odd parts'
/// values at the last sumcheck point.
pub open spec fn input_claim<F: Field>(s: Seq<F>, k: nat, tape: Seq<F>) -> F {
    if k == 0 {
        s[0]
    } else {
        gkr::mean(
            multilinear::mle(gkr::evens(s), inner_at(tape, (k - 1) as nat)),
            multilinear::mle(gkr::odds(s), inner_at(tape, (k - 1) as nat)),
            beta_at(tape, (k - 1) as nat),
        )
    }
}

/// A layer reduction from the claim `(p, q)` passes its checks.
pub open spec fn layer_accepted<F: Field>(
    layer: LayerView<F>,
    r: nat,
    p: F,
    q: F,
    tape: Seq<F>,
) -> bool {
    let lambda = lambda_at(tape, r);
    let zp = inner_at(tape, r);
    let l = layer.leaves;
    &&& layer.rounds.len() == r
    &&& sumcheck::check_rounds(p + lambda * q, layer.rounds, zp) == Some(
        multilinear::eq_value(point_at(tape, r), zp) * ((l[0] * l[3] + l[1] * l[2]) + (lambda
            * l[2]) * l[3]),
    )
}

/// The claim about layer `r`, or `None` if an earlier reduction fails.
pub open spec fn claim_at<F: Field>(
    num: F,
    den: F,
    layers: Seq<LayerView<F>>,
    tape: Seq<F>,
    r: nat,
) -> Option<(F, F)>
    decreases r,
{
    if r == 0 {
        Some((num, den))
    } else {
        let i = (r - 1) as nat;
        match claim_at(num, den, layers, tape, i) {
            None => None,
            Some((p, q)) => {
                if layer_accepted(layers[i as int], i, p, q, tape) {
                    let l = layers[i as int].leaves;
                    let b = beta_at(tape, i);
                    Some((gkr::mean(l[0], l[1], b), gkr::mean(l[2], l[3], b)))
                } else {
                    None
                }
            },
        }
    }
}

/// What verification returns: the input claim `(point, p(point), q(point))`.
pub open spec fn verified<F: Field>(
    num: F,
    den: F,
    layers: Seq<LayerView<F>>,
    tape: Seq<F>,
) -> Option<(Seq<F>, F, F)> {
    match claim_at(num, den, layers, tape, layers.len()) {
        None => None,
        Some((p, q)) => Some((point_at(tape, layers.len()), p, q)),
    }
}

proof fn lemma_offset_mono(i: nat, k: nat)
    requires
        i < k,
    ensures
        offset(i) + i + 2 <= offset(k),
    decreases k,
{
    if i + 1 < k {
        lemma_offset_mono(i, (k - 1) as nat);
    }
}

pub proof fn lemma_layer_len<F: Field>(p: Seq<F>, q: Seq<F>, k: nat, j: nat)
    requires
        p.len() == pow2(k),
        q.len() == pow2(k),
        j <= k,
    ensures
        layer_num(p, q, j).len() == pow2((k - j) as nat),
        layer_den(q, j).len() == pow2((k - j) as nat),
    decreases j,
{
    if j > 0 {
        lemma_layer_len(p, q, k, (j - 1) as nat);
        multilinear::lemma_pow2_step((k - j + 1) as nat);
    }
}

/// One round's values at 0, 1, 2 and 3.
fn round_message<F: Field>(
    eqv: &Vec<F>,
    a0: &Vec<F>,
    a1: &Vec<F>,
    b0: &Vec<F>,
    b1: &Vec<F>,
    lambda: F,
) -> (r: [F; 4])
    requires
        a0@.len() == eqv@.len(),
        a1@.len() == eqv@.len(),
        b0@.len() == eqv@.len(),
        b1@.len() == eqv@.len(),
    ensures
        r@ == gkr::low_message(seq![eqv@, a0@, a1@, b0@, b1@], combine(lambda)),
{
    let ghost tables = seq![eqv@, a0@, a1@, b0@, b1@];
    let ghost comb = combine(lambda);
    let pts = gkr::four_points::<F>();
    let half: usize = eqv.len() / 2;
    let mut g: [F; 4] = [F::new_zero(); 4];
    let mut t: usize = 0;
    while t < 4
        invariant
            t <= 4,
            half == eqv@.len() / 2,
            eqv@.len() == eqv.len(),
            a0@.len() == eqv@.len(),
            a1@.len() == eqv@.len(),
            b0@.len() == eqv@.len(),
            b1@.len() == eqv@.len(),
            tables == seq![eqv@, a0@, a1@, b0@, b1@],
            comb == combine(lambda),
            pts@ == polynomial::nodes::<F>(4),
            forall|i: int|
                0 <= i < t ==> #[trigger] g@[i] == gkr::low_value(tables, comb, F::embed(i)),
        decreases 4 - t,
    {
        let p = pts[t];
        let mut acc = F::new_zero();
        let mut j: usize = 0;
        let ghost f = |j: int| comb(gkr::line_values(tables, j, p));
        while j < half
            invariant
                j <= half,
                half == eqv@.len() / 2,
                eqv@.len() == eqv.len(),
                a0@.len() == eqv@.len(),
                a1@.len() == eqv@.len(),
                b0@.len() == eqv@.len(),
                b1@.len() == eqv@.len(),
                tables == seq![eqv@, a0@, a1@, b0@, b1@],
                comb == combine(lambda),
                f == (|j: int| comb(gkr::line_values(tables, j, p))),
                acc == algebra::sum(j as nat, f),
            decreases half - j,
        {
            let e = eqv[2 * j].add(p.mul(eqv[2 * j + 1].sub(eqv[2 * j])));
            let av0 = a0[2 * j].add(p.mul(a0[2 * j + 1].sub(a0[2 * j])));
            let av1 = a1[2 * j].add(p.mul(a1[2 * j + 1].sub(a1[2 * j])));
            let bv0 = b0[2 * j].add(p.mul(b0[2 * j + 1].sub(b0[2 * j])));
            let bv1 = b1[2 * j].add(p.mul(b1[2 * j + 1].sub(b1[2 * j])));
            let term = e.mul(av0.mul(bv1).add(av1.mul(bv0)).add(lambda.mul(bv0).mul(bv1)));
            assert(term == f(j as int)) by {
                let v = gkr::line_values(tables, j as int, p);
                assert(v[0] == e && v[1] == av0 && v[2] == av1 && v[3] == bv0 && v[4] == bv1);
            }
            acc = acc.add(term);
            j += 1;
        }
        assert(acc == gkr::low_value(tables, comb, F::embed(t as int)));
        g[t] = acc;
        t += 1;
    }
    assert(g@ =~= gkr::low_message(tables, comb));
    g
}

/// The layer sumcheck. Returns the reduction, the sumcheck point and the four leaf
/// values.
fn prove_layer<F: Field>(
    z: &Vec<F>,
    lambda: F,
    p_next: &Vec<F>,
    q_next: &Vec<F>,
    oracle: &mut RandomOracle<F>,
) -> (res: (LayerProof<F>, Vec<F>))
    requires
        p_next@.len() == pow2(z@.len() + 1),
        q_next@.len() == p_next@.len(),
        old(oracle).has_fields(z@.len() as int),
    ensures
        res.1@ == old(oracle).upcoming(z@.len()),
        res.0.contents() == honest_layer(z@, lambda, p_next@, q_next@, res.1@),
        final(oracle).wf(),
        old(oracle).advanced(*final(oracle), z@.len() as int, 0),
{
    let r: usize = z.len();
    let ghost start = *oracle;
    proof {
        multilinear::lemma_pow2_step(z@.len() + 1);
        multilinear::lemma_eq_table_len(z@);
    }
    let mut a0 = gkr::even_entries(p_next.as_slice());
    let mut a1 = gkr::odd_entries(p_next.as_slice());
    let mut b0 = gkr::even_entries(q_next.as_slice());
    let mut b1 = gkr::odd_entries(q_next.as_slice());
    assert(p_next.len() == p_next@.len());
    let mut eqv = gkr::eq_table(z.as_slice());
    let ghost tables = layer_tables(z@, p_next@, q_next@);
    let ghost comb = combine(lambda);
    let mut round_polys: Vec<[F; 4]> = Vec::new();
    let mut zprime: Vec<F> = Vec::new();
    let mut i: usize = 0;
    proof {
        assert(start.upcoming(0) =~= Seq::<F>::empty());
        assert(gkr::fold_tables_all(tables, Seq::<F>::empty()) =~= tables);
        assert(gkr::messages(round_polys@) =~= Seq::empty());
        assert(gkr::low_rounds(tables, comb, Seq::<F>::empty()) =~= Seq::empty());
    }
    while i < r
        invariant
            i <= r,
            start.has_fields(r as int),
            oracle.wf(),
            start.advanced(*oracle, i as int, 0),
            zprime@ == start.upcoming(i as nat),
            zprime@.len() == i,
            comb == combine(lambda),
            tables.len() == 5,
            gkr::messages(round_polys@) == gkr::low_rounds(tables, comb, zprime@),
            gkr::fold_tables_all(tables, zprime@) == seq![eqv@, a0@, a1@, b0@, b1@],
            eqv@.len() == pow2((r - i) as nat),
            a0@.len() == eqv@.len(),
            a1@.len() == eqv@.len(),
            b0@.len() == eqv@.len(),
            b1@.len() == eqv@.len(),
        decreases r - i,
    {
        let ghost cur = seq![eqv@, a0@, a1@, b0@, b1@];
        let g = round_message(&eqv, &a0, &a1, &b0, &b1, lambda);
        let ghost before = round_polys@;
        let ghost old_ch = zprime@;
        round_polys.push(g);
        let c = oracle.next_field();
        zprime.push(c);
        gkr::fold_low(&mut a0, c);
        gkr::fold_low(&mut a1, c);
        gkr::fold_low(&mut b0, c);
        gkr::fold_low(&mut b1, c);
        gkr::fold_low(&mut eqv, c);
        proof {
            assert(zprime@ =~= start.upcoming((i + 1) as nat));
            gkr::lemma_low_rounds_push(tables, comb, old_ch, c);
            assert(gkr::messages(round_polys@) =~= gkr::messages(before).push(g@));
            assert(gkr::fold_tables(cur, c) =~= seq![eqv@, a0@, a1@, b0@, b1@]);
            multilinear::lemma_pow2_step((r - i) as nat);
        }
        i += 1;
    }
    proof {
        multilinear::lemma_pow2_zero();
        let folded = gkr::fold_tables_all(tables, zprime@);
        assert(folded[1] == a0@ && folded[2] == a1@ && folded[3] == b0@ && folded[4] == b1@);
    }
    let leaves: [F; 4] = [a0[0], a1[0], b0[0], b1[0]];
    let layer = LayerProof { round_polys, leaves };
    proof {
        let h = honest_layer(z@, lambda, p_next@, q_next@, zprime@);
        assert(layer.contents().leaves =~= h.leaves);
    }
    (layer, zprime)
}

/// The next layer up.
fn add_fractions<F: Field>(p: &Vec<F>, q: &Vec<F>) -> (r: (Vec<F>, Vec<F>))
    requires
        p@.len() == q@.len(),
    ensures
        r.0@ == up_num(p@, q@),
        r.1@ == up_den(q@),
{
    let half: usize = p.len() / 2;
    let mut pn: Vec<F> = Vec::new();
    let mut qn: Vec<F> = Vec::new();
    let mut i: usize = 0;
    while i < half
        invariant
            i <= half,
            half == p@.len() / 2,
            p@.len() == q@.len(),
            p@.len() == p.len(),
            pn@.len() == i,
            qn@.len() == i,
            forall|j: int|
                0 <= j < i ==> #[trigger] pn@[j] == p@[2 * j] * q@[2 * j + 1] + p@[2 * j + 1] * q@[2
                    * j],
            forall|j: int| 0 <= j < i ==> #[trigger] qn@[j] == q@[2 * j] * q@[2 * j + 1],
        decreases half - i,
    {
        let (p0, p1) = (p[2 * i], p[2 * i + 1]);
        let (q0, q1) = (q[2 * i], q[2 * i + 1]);
        pn.push(p0.mul(q1).add(p1.mul(q0)));
        qn.push(q0.mul(q1));
        i += 1;
    }
    assert(pn@ =~= up_num(p@, q@));
    assert(qn@ =~= up_den(q@));
    (pn, qn)
}

/// Proves `sum_i p_in[i] / q_in[i] = num / den`. Both inputs must have the same
/// power of two as their length. Returns the proof and the input claim
/// `(point, p_in(point), q_in(point))`.
pub fn prove<F: Field>(
    p_in: &[F],
    q_in: &[F],
    oracle: &mut RandomOracle<F>,
) -> (res: (FracSumProof<F>, Vec<F>, F, F))
    requires
        q_in@.len() == p_in@.len(),
        exists|k: nat|
            #![trigger pow2(k)]
            p_in@.len() == pow2(k) && old(oracle).has_fields(offset(k) as int),
    ensures
        p_in@.len() == pow2(res.1@.len()),
        res.0.num == layer_num(p_in@, q_in@, res.1@.len())[0],
        res.0.den == layer_den(q_in@, res.1@.len())[0],
        res.0.contents() == honest_layers(
            p_in@,
            q_in@,
            res.1@.len(),
            old(oracle).upcoming(offset(res.1@.len())),
        ),
        res.1@ == point_at(old(oracle).upcoming(offset(res.1@.len())), res.1@.len()),
        res.2 == input_claim(p_in@, res.1@.len(), old(oracle).upcoming(offset(res.1@.len()))),
        res.3 == input_claim(q_in@, res.1@.len(), old(oracle).upcoming(offset(res.1@.len()))),
        final(oracle).wf(),
        old(oracle).advanced(*final(oracle), offset(res.1@.len()) as int, 0),
{
    let ghost (p, q) = (p_in@, q_in@);
    let ghost m = choose|k: nat|
        #![trigger pow2(k)]
        p.len() == pow2(k) && oracle.has_fields(offset(k) as int);
    let k: usize = sumcheck::log2_exact(p_in.len());
    proof {
        sumcheck::lemma_exponent_unique(m, k as nat);
        sumcheck::lemma_exponent_small(k as nat);
    }
    let ghost start = *oracle;
    let ghost tape = start.upcoming(offset(k as nat));
    // layer j above the input
    let mut lp: Vec<Vec<F>> = vec![poly::copy_slice(p_in)];
    let mut lq: Vec<Vec<F>> = vec![poly::copy_slice(q_in)];
    let mut j: usize = 0;
    while j < k
        invariant
            j <= k,
            k < 64,
            p.len() == pow2(k as nat),
            q.len() == pow2(k as nat),
            lp@.len() == j + 1,
            lq@.len() == j + 1,
            forall|i: int| 0 <= i <= j ==> (#[trigger] lp@[i])@ == layer_num(p, q, i as nat),
            forall|i: int| 0 <= i <= j ==> (#[trigger] lq@[i])@ == layer_den(q, i as nat),
        decreases k - j,
    {
        proof {
            lemma_layer_len(p, q, k as nat, j as nat);
        }
        let (pn, qn) = add_fractions(&lp[j], &lq[j]);
        assert(layer_num(p, q, (j + 1) as nat) == up_num(
            layer_num(p, q, j as nat),
            layer_den(q, j as nat),
        ));
        assert(layer_den(q, (j + 1) as nat) == up_den(layer_den(q, j as nat)));
        lp.push(pn);
        lq.push(qn);
        j += 1;
    }
    proof {
        lemma_layer_len(p, q, k as nat, k as nat);
        multilinear::lemma_pow2_zero();
    }
    let num = lp[k][0];
    let den = lq[k][0];
    let mut z: Vec<F> = Vec::new();
    let mut layers: Vec<LayerProof<F>> = Vec::new();
    let mut p_cur = num;
    let mut q_cur = den;
    let mut r: usize = 0;
    let ghost honest = honest_layers(p, q, k as nat, tape);
    while r < k
        invariant
            r <= k,
            k < 64,
            p.len() == pow2(k as nat),
            q.len() == pow2(k as nat),
            lp@.len() == k + 1,
            lq@.len() == k + 1,
            forall|i: int| 0 <= i <= k ==> (#[trigger] lp@[i])@ == layer_num(p, q, i as nat),
            forall|i: int| 0 <= i <= k ==> (#[trigger] lq@[i])@ == layer_den(q, i as nat),
            start.has_fields(offset(k as nat) as int),
            tape == start.upcoming(offset(k as nat)),
            oracle.wf(),
            start.advanced(*oracle, offset(r as nat) as int, 0),
            z@ == point_at(tape, r as nat),
            z@.len() == r,
            layers@.len() == r,
            honest == honest_layers(p, q, k as nat, tape),
            forall|i: int| 0 <= i < r ==> (#[trigger] layers@[i]).contents() == honest[i],
            r == k && k > 0 ==> p_cur == input_claim(p, k as nat, tape),
            r == k && k > 0 ==> q_cur == input_claim(q, k as nat, tape),
            k == 0 ==> p_cur == num && q_cur == den,
        decreases k - r,
    {
        proof {
            lemma_offset_mono(r as nat, k as nat);
            lemma_layer_len(p, q, k as nat, (k - r - 1) as nat);
        }
        let ghost here = *oracle;
        let lambda = oracle.next_field();
        let level: usize = k - r - 1;
        let ghost mid = *oracle;
        let (layer, zp) = prove_layer(&z, lambda, &lp[level], &lq[level], oracle);
        assert(zp@ =~= inner_at(tape, r as nat));
        let beta = oracle.next_field();
        assert(lambda == lambda_at(tape, r as nat));
        assert(beta == beta_at(tape, r as nat));
        let a0 = layer.leaves[0];
        let a1 = layer.leaves[1];
        let b0 = layer.leaves[2];
        let b1 = layer.leaves[3];
        proof {
            assert(layer.contents() == honest[r as int]);
            let h = honest[r as int].leaves;
            assert(layer.leaves@ == h);
        }
        p_cur = gkr::weighted_mean(a0, a1, beta);
        q_cur = gkr::weighted_mean(b0, b1, beta);
        let mut next: Vec<F> = vec![beta];
        let ghost zp_view = zp@;
        let mut zp = zp;
        next.append(&mut zp);
        z = next;
        assert(z@ =~= point_at(tape, (r + 1) as nat));
        layers.push(layer);
        assert(offset((r + 1) as nat) == offset(r as nat) + r + 2);
        r += 1;
    }
    let proof = FracSumProof { num, den, layers };
    assert(proof.contents() =~= honest);
    (proof, z, p_cur, q_cur)
}

/// Number of challenges that verification reads from layer `r` on: it stops at the
/// first check that fails.
pub open spec fn read_from<F: Field>(
    num: F,
    den: F,
    layers: Seq<LayerView<F>>,
    tape: Seq<F>,
    r: nat,
) -> nat
    decreases layers.len() - r,
{
    if r >= layers.len() {
        0
    } else {
        match claim_at(num, den, layers, tape, r) {
            None => 0,
            Some((p, q)) => {
                if layer_accepted(layers[r as int], r, p, q, tape) {
                    r + 2 + read_from(num, den, layers, tape, r + 1)
                } else if layers[r as int].rounds.len() != r {
                    1
                } else {
                    1 + sumcheck::rounds_passed(
                        p + lambda_at(tape, r) * q,
                        layers[r as int].rounds,
                        inner_at(tape, r),
                    )
                }
            },
        }
    }
}

/// Number of challenges that verification reads.
pub open spec fn read_count<F: Field>(
    num: F,
    den: F,
    layers: Seq<LayerView<F>>,
    tape: Seq<F>,
) -> nat {
    read_from(num, den, layers, tape, 0)
}

/// An accepted proof reads all its challenges.
pub proof fn lemma_read_all<F: Field>(
    num: F,
    den: F,
    layers: Seq<LayerView<F>>,
    tape: Seq<F>,
    r: nat,
)
    requires
        r <= layers.len(),
        claim_at(num, den, layers, tape, layers.len()) is Some,
    ensures
        offset(r) + read_from(num, den, layers, tape, r) == offset(layers.len()),
    decreases layers.len() - r,
{
    if r < layers.len() {
        lemma_read_all(num, den, layers, tape, r + 1);
        if claim_at(num, den, layers, tape, r + 1) is None {
            lemma_claim_none(num, den, layers, tape, r + 1, layers.len());
        }
    }
}

/// No more challenges are read than an accepted proof reads.
pub proof fn lemma_read_bound<F: Field>(
    num: F,
    den: F,
    layers: Seq<LayerView<F>>,
    tape: Seq<F>,
    r: nat,
)
    requires
        r <= layers.len(),
    ensures
        offset(r) + read_from(num, den, layers, tape, r) <= offset(layers.len()),
    decreases layers.len() - r,
{
    if r < layers.len() {
        lemma_read_bound(num, den, layers, tape, r + 1);
        match claim_at(num, den, layers, tape, r) {
            None => {},
            Some((p, q)) => {
                sumcheck::lemma_passed_bound(
                    p + lambda_at(tape, r) * q,
                    layers[r as int].rounds,
                    inner_at(tape, r),
                );
            },
        }
    }
}

proof fn lemma_claim_none<F: Field>(
    num: F,
    den: F,
    layers: Seq<LayerView<F>>,
    tape: Seq<F>,
    i: nat,
    r: nat,
)
    requires
        i <= r,
        claim_at(num, den, layers, tape, i) is None,
    ensures
        claim_at(num, den, layers, tape, r) is None,
    decreases r,
{
    if i < r {
        lemma_claim_none(num, den, layers, tape, i, (r - 1) as nat);
    }
}

/// Verifies a fraction-sum proof. Returns the input claim `(point, p_in(point),
/// q_in(point))`, or `None` if a layer sumcheck fails. The caller must confirm the
/// two values.
pub fn verify<F: Field>(
    proof: &FracSumProof<F>,
    oracle: &mut RandomOracle<F>,
) -> (res: Option<(Vec<F>, F, F)>)
    requires
        old(oracle).has_fields(
            read_count(
                proof.num,
                proof.den,
                proof.contents(),
                old(oracle).upcoming(offset(proof.layers@.len())),
            ) as int,
        ),
    ensures
        verified(
            proof.num,
            proof.den,
            proof.contents(),
            old(oracle).upcoming(offset(proof.layers@.len())),
        ) == (match res {
            None => None,
            Some((z, p, q)) => Some((z@, p, q)),
        }),
        final(oracle).wf(),
        old(oracle).advanced(
            *final(oracle),
            read_count(
                proof.num,
                proof.den,
                proof.contents(),
                old(oracle).upcoming(offset(proof.layers@.len())),
            ) as int,
            0,
        ),
        res is Some ==> old(oracle).advanced(
            *final(oracle),
            offset(proof.layers@.len()) as int,
            0,
        ),
{
    let k: usize = proof.layers.len();
    let ghost views = proof.contents();
    let ghost start = *oracle;
    let ghost tape = start.upcoming(offset(k as nat));
    let mut z: Vec<F> = Vec::new();
    let mut p_cur = proof.num;
    let mut q_cur = proof.den;
    let mut r: usize = 0;
    let ghost total = read_count(proof.num, proof.den, views, tape);
    while r < k
        invariant
            r <= k,
            k == proof.layers@.len(),
            views == proof.contents(),
            start == *old(oracle),
            start.has_fields(total as int),
            total == read_count(proof.num, proof.den, views, tape),
            tape == start.upcoming(offset(k as nat)),
            total == offset(r as nat) + read_from(proof.num, proof.den, views, tape, r as nat),
            oracle.wf(),
            start.advanced(*oracle, offset(r as nat) as int, 0),
            z@ == point_at(tape, r as nat),
            claim_at(proof.num, proof.den, views, tape, r as nat) == Some((p_cur, q_cur)),
        decreases k - r,
    {
        proof {
            lemma_offset_mono(r as nat, k as nat);
        }
        let lambda = oracle.next_field();
        assert(lambda == lambda_at(tape, r as nat));
        let claim_val = p_cur.add(lambda.mul(q_cur));
        let layer = &proof.layers[r];
        assert(layer.contents() == views[r as int]);
        let ghost rounds = gkr::messages(layer.round_polys@);
        let ghost zp = inner_at(tape, r as nat);
        if layer.round_polys.len() != r {
            proof {
                assert(!layer_accepted(views[r as int], r as nat, p_cur, q_cur, tape));
                assert(claim_at(proof.num, proof.den, views, tape, (r + 1) as nat) is None);
                lemma_claim_none(proof.num, proof.den, views, tape, (r + 1) as nat, k as nat);
            }
            return None;
        }
        let mut cur = claim_val;
        let mut zprime: Vec<F> = Vec::new();
        let mut i: usize = 0;
        proof {
            assert(rounds.skip(0) =~= rounds);
            assert(zp.skip(0) =~= zp);
        }
        while i < r
            invariant
                i <= r,
                r < k,
                k == proof.layers@.len(),
                layer.round_polys@.len() == r,
                layer == proof.layers@[r as int],
                views == proof.contents(),
                rounds == gkr::messages(layer.round_polys@),
                start == *old(oracle),
                start.has_fields(total as int),
                total == read_count(proof.num, proof.den, views, tape),
                tape == start.upcoming(offset(k as nat)),
                offset(r as nat) + r + 2 <= offset(k as nat),
                layer.contents() == views[r as int],
                rounds == views[r as int].rounds,
                total == offset(r as nat) + read_from(proof.num, proof.den, views, tape, r as nat),
                sumcheck::rounds_passed(claim_val, rounds, zp) == i + sumcheck::rounds_passed(
                    cur,
                    rounds.skip(i as int),
                    zp.skip(i as int),
                ),
                zp == inner_at(tape, r as nat),
                zp.len() == r,
                oracle.wf(),
                start.advanced(*oracle, offset(r as nat) as int + 1 + i, 0),
                zprime@ == zp.take(i as int),
                claim_at(proof.num, proof.den, views, tape, r as nat) == Some((p_cur, q_cur)),
                lambda == lambda_at(tape, r as nat),
                claim_val == p_cur + lambda * q_cur,
                sumcheck::check_rounds(claim_val, rounds, zp) == sumcheck::check_rounds(
                    cur,
                    rounds.skip(i as int),
                    zp.skip(i as int),
                ),
            decreases r - i,
        {
            let poly = &layer.round_polys[i];
            let ghost rest = rounds.skip(i as int);
            proof {
                assert(rest[0] == poly@);
                assert(rest.drop_first() =~= rounds.skip(i + 1));
                assert(zp.skip(i as int).drop_first() =~= zp.skip(i + 1));
                assert(zp.skip(i as int)[0] == zp[i as int]);
                assert(zp.take(i + 1) =~= zp.take(i as int).push(zp[i as int]));
            }
            if !poly[0].add(poly[1]).equals(cur) {
                proof {
                    assert(!layer_accepted(views[r as int], r as nat, p_cur, q_cur, tape));
                    assert(claim_at(proof.num, proof.den, views, tape, (r + 1) as nat) is None);
                    lemma_claim_none(proof.num, proof.den, views, tape, (r + 1) as nat, k as nat);
                }
                return None;
            }
            let c = oracle.next_field();
            assert(c == zp[i as int]);
            cur = gkr::interp4(poly, c);
            zprime.push(c);
            i += 1;
        }
        assert(zp.take(r as int) =~= zp);
        assert(sumcheck::rounds_passed(claim_val, rounds, zp) == r);
        let a0 = layer.leaves[0];
        let a1 = layer.leaves[1];
        let b0 = layer.leaves[2];
        let b1 = layer.leaves[3];
        let eqf = gkr::eq_eval(z.as_slice(), zprime.as_slice());
        let expected = eqf.mul(a0.mul(b1).add(a1.mul(b0)).add(lambda.mul(b0).mul(b1)));
        if !cur.equals(expected) {
            proof {
                assert(!layer_accepted(views[r as int], r as nat, p_cur, q_cur, tape));
                assert(claim_at(proof.num, proof.den, views, tape, (r + 1) as nat) is None);
                lemma_claim_none(proof.num, proof.den, views, tape, (r + 1) as nat, k as nat);
            }
            return None;
        }
        assert(layer_accepted(views[r as int], r as nat, p_cur, q_cur, tape));
        let beta = oracle.next_field();
        assert(beta == beta_at(tape, r as nat));
        let mut next: Vec<F> = vec![beta];
        next.append(&mut zprime);
        z = next;
        assert(z@ =~= point_at(tape, (r + 1) as nat));
        p_cur = gkr::weighted_mean(a0, a1, beta);
        q_cur = gkr::weighted_mean(b0, b1, beta);
        assert(offset((r + 1) as nat) == offset(r as nat) + r + 2);
        r += 1;
    }
    Some((z, p_cur, q_cur))
}

proof fn lemma_combine_cubic<F: Field>(lambda: F)
    ensures
        gkr::cubic(combine(lambda), 5),
{
    let comb = combine(lambda);
    assert forall|a: Seq<F>, b: Seq<F>|
        a.len() == 5 && b.len() == 5 implies polynomial::is_poly(
        #[trigger] gkr::along(comb, a, b),
        4,
    ) by {
        let l = |k: int, t: F| algebra::lerp(a[k], b[k], t);
        gkr::lemma_three_lines(a[0], b[0], a[1], b[1], a[4], b[4]);
        gkr::lemma_three_lines(a[0], b[0], a[2], b[2], a[3], b[3]);
        gkr::lemma_three_lines(a[0], b[0], a[3], b[3], a[4], b[4]);
        let t1 = |t: F|
            algebra::lerp(a[0], b[0], t) * (algebra::lerp(a[1], b[1], t) * algebra::lerp(
                a[4],
                b[4],
                t,
            ));
        let t2 = |t: F|
            algebra::lerp(a[0], b[0], t) * (algebra::lerp(a[2], b[2], t) * algebra::lerp(
                a[3],
                b[3],
                t,
            ));
        let t3 = |t: F|
            algebra::lerp(a[0], b[0], t) * (algebra::lerp(a[3], b[3], t) * algebra::lerp(
                a[4],
                b[4],
                t,
            ));
        polynomial::is_poly_scale(lambda, t3, 4);
        let t4 = |t: F| lambda * t3(t);
        polynomial::is_poly_add(t1, t2, 4);
        let t5 = |t: F| t1(t) + t2(t);
        polynomial::is_poly_add(t5, t4, 4);
        let t6 = |t: F| t5(t) + t4(t);
        let g = gkr::along(comb, a, b);
        assert forall|t: F| t.valid() implies #[trigger] g(t) == t6(t) by {
            let v = Seq::new(a.len(), |k: int| algebra::lerp(a[k], b[k], t));
            let (e, x, y, u, w) = (v[0], v[1], v[2], v[3], v[4]);
            F::law_distrib(e, x * w + y * u, (lambda * u) * w);
            F::law_distrib(e, x * w, y * u);
            F::law_mul_assoc(lambda, u, w);
            algebra::mul_swap(e, lambda, u * w);
        }
        polynomial::is_poly_same(t6, g, 4);
    }
}

proof fn lemma_layer_valid<F: Field>(p: Seq<F>, q: Seq<F>, j: nat)
    requires
        algebra::all_valid(p),
        algebra::all_valid(q),
    ensures
        algebra::all_valid(layer_num(p, q, j)),
        algebra::all_valid(layer_den(q, j)),
{
    if j > 0 {
        let (p1, q1) = (layer_num(p, q, (j - 1) as nat), layer_den(q, (j - 1) as nat));
        let (u, v) = (layer_num(p, q, j), layer_den(q, j));
        assert forall|i: int| 0 <= i < u.len() implies (#[trigger] u[i]).valid() by {
            F::law_valid(p1[2 * i] * q1[2 * i + 1], p1[2 * i + 1] * q1[2 * i]);
        }
        assert forall|i: int| 0 <= i < v.len() implies (#[trigger] v[i]).valid() by {
            F::law_valid(q1[2 * i], q1[2 * i + 1]);
        }
    }
}

/// The layer sumcheck sums up the claim about the layer above.
proof fn lemma_layer_sum<F: Field>(z: Seq<F>, lambda: F, p: Seq<F>, q: Seq<F>)
    requires
        p.len() == pow2(z.len() + 1),
        q.len() == p.len(),
        algebra::all_valid(p),
        algebra::all_valid(q),
    ensures
        gkr::table_sum(layer_tables(z, p, q), combine(lambda)) == multilinear::mle(
            up_num(p, q),
            z,
        ) + lambda * multilinear::mle(up_den(q), z),
{
    multilinear::lemma_pow2_step(z.len() + 1);
    multilinear::lemma_eq_table_len(z);
    let e = multilinear::eq_table(z);
    let n = e.len();
    let (u, v) = (up_num(p, q), up_den(q));
    assert forall|i: int| 0 <= i < u.len() implies (#[trigger] u[i]).valid() by {
        F::law_valid(p[2 * i] * q[2 * i + 1], p[2 * i + 1] * q[2 * i]);
    }
    assert forall|i: int| 0 <= i < v.len() implies (#[trigger] v[i]).valid() by {
        F::law_valid(q[2 * i], q[2 * i + 1]);
    }
    multilinear::lemma_mle_sum(u, z);
    multilinear::lemma_mle_sum(v, z);
    let fu = |i: int| u[i] * e[i];
    let fv = |i: int| v[i] * e[i];
    let fl = |i: int| lambda * fv(i);
    algebra::sum_scale(n, lambda, fv);
    algebra::sum_add(n, fu, fl);
    let tables = layer_tables(z, p, q);
    let comb = combine(lambda);
    let f = |i: int| comb(gkr::column(tables, i));
    let g = |i: int| fu(i) + fl(i);
    assert forall|i: int| 0 <= i < n implies #[trigger] f(i) == g(i) by {
        let c = gkr::column(tables, i);
        assert(c[0] == e[i] && c[1] == p[2 * i] && c[2] == p[2 * i + 1] && c[3] == q[2 * i]
            && c[4] == q[2 * i + 1]);
        F::law_mul_assoc(lambda, q[2 * i], q[2 * i + 1]);
        F::law_distrib(e[i], u[i], lambda * v[i]);
        F::law_mul_comm(e[i], u[i]);
        algebra::mul_swap(e[i], lambda, v[i]);
        F::law_mul_comm(e[i], v[i]);
    }
    algebra::sum_ext(n, f, g);
}

/// One honest reduction is accepted and carries the claim to the next layer.
proof fn lemma_layer_complete<F: Field>(
    z: Seq<F>,
    lambda: F,
    p: Seq<F>,
    q: Seq<F>,
    zp: Seq<F>,
)
    requires
        p.len() == pow2(z.len() + 1),
        q.len() == p.len(),
        zp.len() == z.len(),
        algebra::all_valid(p),
        algebra::all_valid(q),
        algebra::all_valid(zp),
    ensures
        ({
            let h = honest_layer(z, lambda, p, q, zp);
            let l = h.leaves;
            &&& h.rounds.len() == z.len()
            &&& sumcheck::check_rounds(
                multilinear::mle(up_num(p, q), z) + lambda * multilinear::mle(up_den(q), z),
                h.rounds,
                zp,
            ) == Some(
                multilinear::eq_value(z, zp) * ((l[0] * l[3] + l[1] * l[2]) + (lambda * l[2])
                    * l[3]),
            )
        }),
{
    let tables = layer_tables(z, p, q);
    let comb = combine(lambda);
    multilinear::lemma_pow2_step(z.len() + 1);
    multilinear::lemma_eq_table_len(z);
    multilinear::lemma_eq_table_valid(z);
    assert(gkr::tables_shape(tables, zp.len())) by {
        assert forall|k: int| 0 <= k < 5 implies (#[trigger] tables[k]).len() == pow2(zp.len())
            && algebra::all_valid(tables[k]) by {
            assert forall|i: int| 0 <= i < tables[k].len() implies (#[trigger] tables[k][i]).valid()
                by {
                if k == 1 {
                    assert(p[2 * i].valid());
                } else if k == 2 {
                    assert(p[2 * i + 1].valid());
                } else if k == 3 {
                    assert(q[2 * i].valid());
                } else if k == 4 {
                    assert(q[2 * i + 1].valid());
                }
            }
        }
    }
    lemma_combine_cubic(lambda);
    assert forall|v: Seq<F>| v.len() == 5 implies (#[trigger] comb(v)).valid() by {
        F::law_valid(v[0], (v[1] * v[4] + v[2] * v[3]) + (lambda * v[3]) * v[4]);
    }
    lemma_layer_sum(z, lambda, p, q);
    gkr::lemma_low_complete(tables, comb, zp);
    multilinear::lemma_mle_eq_table(z, zp);
    gkr::lemma_low_rounds_len(tables, comb, zp);
    let tv = gkr::table_values(tables, zp);
    assert(tv[0] == multilinear::eq_value(z, zp));
}

pub proof fn lemma_point_len<F: Field>(tape: Seq<F>, k: nat)
    requires
        tape.len() == offset(k),
    ensures
        point_at(tape, k).len() == k,
{
    if k > 0 {
        lemma_offset_mono((k - 1) as nat, k);
    }
}

proof fn lemma_claims_true<F: Field>(p: Seq<F>, q: Seq<F>, k: nat, tape: Seq<F>, r: nat)
    requires
        p.len() == pow2(k),
        q.len() == pow2(k),
        algebra::all_valid(p),
        algebra::all_valid(q),
        tape.len() == offset(k),
        algebra::all_valid(tape),
        r <= k,
    ensures
        claim_at(
            layer_num(p, q, k)[0],
            layer_den(q, k)[0],
            honest_layers(p, q, k, tape),
            tape,
            r,
        ) == Some(
            (
                multilinear::mle(layer_num(p, q, (k - r) as nat), point_at(tape, r)),
                multilinear::mle(layer_den(q, (k - r) as nat), point_at(tape, r)),
            ),
        ),
        point_at(tape, r).len() == r,
    decreases r,
{
    if r > 0 {
        let i = (r - 1) as nat;
        lemma_claims_true(p, q, k, tape, i);
        lemma_offset_mono(i, k);
        let j = (k - r) as nat;
        lemma_layer_len(p, q, k, j);
        lemma_layer_valid(p, q, j);
        let (pn, qn) = (layer_num(p, q, j), layer_den(q, j));
        let zp = inner_at(tape, i);
        assert forall|x: int| 0 <= x < zp.len() implies (#[trigger] zp[x]).valid() by {
            assert(tape[offset(i) as int + 1 + x].valid());
        }
        assert(k - i == j + 1);
        assert(layer_num(p, q, (j + 1) as nat) == up_num(pn, qn));
        assert(layer_den(q, (j + 1) as nat) == up_den(qn));
        lemma_layer_complete(point_at(tape, i), lambda_at(tape, i), pn, qn, zp);
        let honest = honest_layers(p, q, k, tape);
        assert(honest[i as int] == honest_layer(
            point_at(tape, i),
            lambda_at(tape, i),
            pn,
            qn,
            zp,
        ));
        gkr::lemma_split_mean(pn, beta_at(tape, i), zp);
        gkr::lemma_split_mean(qn, beta_at(tape, i), zp);
    }
}

/// Completeness: verification accepts the honest proof and returns the true values
/// of `p` and `q` at the final point.
pub proof fn law_complete<F: Field>(p: Seq<F>, q: Seq<F>, k: nat, tape: Seq<F>)
    requires
        p.len() == pow2(k),
        q.len() == pow2(k),
        algebra::all_valid(p),
        algebra::all_valid(q),
        tape.len() == offset(k),
        algebra::all_valid(tape),
    ensures
        verified(
            layer_num(p, q, k)[0],
            layer_den(q, k)[0],
            honest_layers(p, q, k, tape),
            tape,
        ) == Some(
            (
                point_at(tape, k),
                multilinear::mle(p, point_at(tape, k)),
                multilinear::mle(q, point_at(tape, k)),
            ),
        ),
{
    lemma_claims_true(p, q, k, tape, k);
}

/// The prover's input claims are the true values of its inputs.
pub proof fn law_input_claim<F: Field>(s: Seq<F>, k: nat, tape: Seq<F>)
    requires
        s.len() == pow2(k),
        algebra::all_valid(s),
        tape.len() == offset(k),
    ensures
        input_claim(s, k, tape) == multilinear::mle(s, point_at(tape, k)),
{
    if k > 0 {
        let i = (k - 1) as nat;
        lemma_offset_mono(i, k);
        gkr::lemma_split_mean(s, beta_at(tape, i), inner_at(tape, i));
    } else {
        multilinear::lemma_pow2_zero();
        assert(point_at(tape, 0).len() == 0);
        assert(multilinear::fold_all(s, point_at(tape, 0)) == s);
    }
}

/// `1 / (a b) = (1 / a) (1 / b)`.
proof fn lemma_inv_mul<F: Field>(a: F, b: F)
    requires
        a.valid(),
        b.valid(),
        a != F::zero(),
        b != F::zero(),
    ensures
        (a * b).inv() == a.inv() * b.inv(),
{
    F::law_inv(a);
    F::law_inv(b);
    algebra::mul_nonzero(a, b);
    F::law_valid(a, b);
    F::law_inv(a * b);
    let x = a.inv() * b.inv();
    let y = (a * b).inv();
    let c = a * b;
    F::law_valid(a.inv(), b.inv());
    F::law_valid(F::zero(), F::zero());
    algebra::mul_four(a, b, a.inv(), b.inv());
    algebra::one_mul(F::one());
    // both are inverses of c
    algebra::one_mul(x);
    algebra::one_mul(y);
    F::law_mul_assoc(x, c, y);
    F::law_mul_comm(x, c);
}

/// Adding two fractions.
proof fn lemma_fraction_add<F: Field>(p0: F, q0: F, p1: F, q1: F)
    requires
        q0.valid(),
        q1.valid(),
        q0 != F::zero(),
        q1 != F::zero(),
    ensures
        (p0 * q1 + p1 * q0) * (q0 * q1).inv() == p0 * q0.inv() + p1 * q1.inv(),
{
    lemma_inv_mul(q0, q1);
    F::law_inv(q0);
    F::law_inv(q1);
    let (i0, i1) = (q0.inv(), q1.inv());
    algebra::distrib_right(p0 * q1, p1 * q0, i0 * i1);
    algebra::mul_four(p0, q1, i0, i1);
    F::law_mul_comm(i0, i1);
    algebra::mul_four(p1, q0, i1, i0);
    F::law_valid(p0, i0);
    F::law_valid(p1, i1);
    F::law_mul_one(p0 * i0);
    F::law_mul_one(p1 * i1);
}

/// The sum of all fractions.
pub open spec fn fraction_sum<F: Field>(p: Seq<F>, q: Seq<F>) -> F {
    algebra::sum(p.len(), |i: int| p[i] * q[i].inv())
}

proof fn lemma_layer_fraction_sum<F: Field>(p: Seq<F>, q: Seq<F>, k: nat)
    requires
        p.len() == pow2(k),
        q.len() == pow2(k),
        k > 0,
        algebra::all_valid(q),
        forall|i: int| 0 <= i < q.len() ==> #[trigger] q[i] != F::zero(),
    ensures
        fraction_sum(up_num(p, q), up_den(q)) == fraction_sum(p, q),
        algebra::all_valid(up_den(q)),
        forall|i: int| 0 <= i < up_den(q).len() ==> #[trigger] up_den(q)[i] != F::zero(),
{
    multilinear::lemma_pow2_step(k);
    let n = p.len() / 2;
    let (u, v) = (up_num(p, q), up_den(q));
    assert forall|i: int| 0 <= i < v.len() implies (#[trigger] v[i]).valid() && v[i]
        != F::zero() by {
        assert(q[2 * i].valid() && q[2 * i + 1].valid());
        F::law_valid(q[2 * i], q[2 * i + 1]);
        algebra::mul_nonzero(q[2 * i], q[2 * i + 1]);
    }
    let f = |i: int| p[i] * q[i].inv();
    algebra::sum_pairs(n, f);
    let g = |i: int| f(2 * i) + f(2 * i + 1);
    let h = |i: int| u[i] * v[i].inv();
    assert forall|i: int| 0 <= i < n implies #[trigger] g(i) == h(i) by {
        assert(q[2 * i].valid() && q[2 * i + 1].valid());
        lemma_fraction_add(p[2 * i], q[2 * i], p[2 * i + 1], q[2 * i + 1]);
    }
    algebra::sum_ext(n, g, h);
}

proof fn lemma_root_fraction<F: Field>(p: Seq<F>, q: Seq<F>, k: nat, j: nat)
    requires
        p.len() == pow2(k),
        q.len() == pow2(k),
        j <= k,
        algebra::all_valid(q),
        forall|i: int| 0 <= i < q.len() ==> #[trigger] q[i] != F::zero(),
    ensures
        fraction_sum(layer_num(p, q, j), layer_den(q, j)) == fraction_sum(p, q),
        algebra::all_valid(layer_den(q, j)),
        forall|i: int|
            0 <= i < layer_den(q, j).len() ==> #[trigger] layer_den(q, j)[i] != F::zero(),
    decreases j,
{
    if j > 0 {
        let i = (j - 1) as nat;
        lemma_root_fraction(p, q, k, i);
        lemma_layer_len(p, q, k, i);
        lemma_layer_fraction_sum(layer_num(p, q, i), layer_den(q, i), (k - i) as nat);
    }
}

/// The root fraction is the sum of all fractions: `num / den = sum_i p_i / q_i`
/// for nonzero denominators.
pub proof fn law_root_is_sum<F: Field>(p: Seq<F>, q: Seq<F>, k: nat)
    requires
        p.len() == pow2(k),
        q.len() == pow2(k),
        algebra::all_valid(q),
        forall|i: int| 0 <= i < q.len() ==> #[trigger] q[i] != F::zero(),
    ensures
        layer_den(q, k)[0] != F::zero(),
        layer_den(q, k)[0].valid(),
        layer_num(p, q, k)[0] * layer_den(q, k)[0].inv() == fraction_sum(p, q),
{
    lemma_root_fraction(p, q, k, k);
    lemma_layer_len(p, q, k, k);
    multilinear::lemma_pow2_zero();
    let (u, v) = (layer_num(p, q, k), layer_den(q, k));
    let f = |i: int| u[i] * v[i].inv();
    assert(algebra::sum(0, f) == F::zero());
    assert(algebra::sum(1, f) == algebra::sum(0, f) + f(0));
    F::law_valid(u[0], v[0].inv());
    algebra::zero_add(f(0));
    assert(v[0].valid());
}

/// The product of all denominators.
pub open spec fn denominator_product<F: Field>(q: Seq<F>) -> F {
    algebra::prod(q.len(), |j: int| q[j])
}

/// The denominator at `j`, with one in place of that at `i`.
pub open spec fn factor_but<F: Field>(q: Seq<F>, i: int, j: int) -> F {
    if j == i {
        F::one()
    } else {
        q[j]
    }
}

/// The product of all denominators but the one at `i`.
pub open spec fn other_denominators<F: Field>(q: Seq<F>, i: int) -> F {
    algebra::prod(q.len(), |j: int| factor_but(q, i, j))
}

/// The numerator of the sum of all fractions over the common denominator.
pub open spec fn cross_sum<F: Field>(p: Seq<F>, q: Seq<F>) -> F {
    algebra::sum(p.len(), |i: int| p[i] * other_denominators(q, i))
}

/// Leaving out one factor pairs up with the neighbour that stays.
proof fn lemma_others_up<F: Field>(q: Seq<F>, n: nat, i: int)
    requires
        q.len() == 2 * n,
        0 <= i < n,
        algebra::all_valid(q),
    ensures
        other_denominators(q, 2 * i) == q[2 * i + 1] * other_denominators(up_den(q), i),
        other_denominators(q, 2 * i + 1) == q[2 * i] * other_denominators(up_den(q), i),
{
    let v = up_den(q);
    let (a, b) = (2 * i, 2 * i + 1);
    assert(q[a].valid() && q[b].valid());
    algebra::one_mul(q[a]);
    algebra::one_mul(q[b]);
    let w = |j: int| factor_but(v, i, j);
    let fa = |j: int| factor_but(q, a, j);
    let fb = |j: int| factor_but(q, b, j);
    let ga = |j: int| fa(2 * j) * fa(2 * j + 1);
    let gb = |j: int| fb(2 * j) * fb(2 * j + 1);
    algebra::prod_pairs(n, fa);
    algebra::prod_pairs(n, fb);
    algebra::prod_except(n, i, ga, w);
    algebra::prod_except(n, i, gb, w);
}

/// One layer keeps the product of the denominators and the common numerator.
proof fn lemma_layer_cross<F: Field>(p: Seq<F>, q: Seq<F>, n: nat)
    requires
        p.len() == 2 * n,
        q.len() == 2 * n,
        algebra::all_valid(q),
    ensures
        denominator_product(up_den(q)) == denominator_product(q),
        cross_sum(up_num(p, q), up_den(q)) == cross_sum(p, q),
        algebra::all_valid(up_den(q)),
{
    let (u, v) = (up_num(p, q), up_den(q));
    assert forall|i: int| 0 <= i < v.len() implies (#[trigger] v[i]).valid() by {
        F::law_valid(q[2 * i], q[2 * i + 1]);
    }
    let d = |j: int| q[j];
    let dv = |j: int| v[j];
    algebra::prod_pairs(n, d);
    algebra::prod_ext(n, |j: int| d(2 * j) * d(2 * j + 1), dv);
    let f = |i: int| p[i] * other_denominators(q, i);
    let g = |i: int| f(2 * i) + f(2 * i + 1);
    let h = |i: int| u[i] * other_denominators(v, i);
    algebra::sum_pairs(n, f);
    assert forall|i: int| 0 <= i < n implies #[trigger] g(i) == h(i) by {
        lemma_others_up(q, n, i);
        let o = other_denominators(v, i);
        F::law_mul_assoc(p[2 * i], q[2 * i + 1], o);
        F::law_mul_assoc(p[2 * i + 1], q[2 * i], o);
        algebra::distrib_right(p[2 * i] * q[2 * i + 1], p[2 * i + 1] * q[2 * i], o);
    }
    algebra::sum_ext(n, g, h);
}

proof fn lemma_root_cross<F: Field>(p: Seq<F>, q: Seq<F>, k: nat, j: nat)
    requires
        p.len() == pow2(k),
        q.len() == pow2(k),
        j <= k,
        algebra::all_valid(p),
        algebra::all_valid(q),
    ensures
        denominator_product(layer_den(q, j)) == denominator_product(q),
        cross_sum(layer_num(p, q, j), layer_den(q, j)) == cross_sum(p, q),
        algebra::all_valid(layer_num(p, q, j)),
        algebra::all_valid(layer_den(q, j)),
    decreases j,
{
    if j > 0 {
        let i = (j - 1) as nat;
        lemma_root_cross(p, q, k, i);
        lemma_layer_len(p, q, k, i);
        multilinear::lemma_pow2_step((k - i) as nat);
        let (u, v) = (layer_num(p, q, i), layer_den(q, i));
        lemma_layer_cross(u, v, u.len() / 2);
        let up = up_num(u, v);
        assert forall|t: int| 0 <= t < up.len() implies (#[trigger] up[t]).valid() by {
            F::law_valid(u[2 * t] * v[2 * t + 1], u[2 * t + 1] * v[2 * t]);
        }
    }
}

/// The root over the common denominator, for every input: its denominator is the
/// product of all `q_i`, and its numerator the sum of the `p_i`, each times the
/// product of the other denominators.
pub proof fn law_root_cross<F: Field>(p: Seq<F>, q: Seq<F>, k: nat)
    requires
        p.len() == pow2(k),
        q.len() == pow2(k),
        algebra::all_valid(p),
        algebra::all_valid(q),
    ensures
        layer_den(q, k)[0] == denominator_product(q),
        layer_num(p, q, k)[0] == cross_sum(p, q),
{
    lemma_root_cross(p, q, k, k);
    lemma_layer_len(p, q, k, k);
    multilinear::lemma_pow2_zero();
    let (u, v) = (layer_num(p, q, k), layer_den(q, k));
    let d = |j: int| v[j];
    let o = |j: int| factor_but(v, 0, j);
    let f = |i: int| u[i] * other_denominators(v, i);
    assert(u[0].valid() && v[0].valid());
    F::law_valid(F::zero(), F::zero());
    algebra::one_mul(v[0]);
    algebra::one_mul(u[0]);
    algebra::one_mul(F::one());
    algebra::zero_add(u[0]);
    assert(algebra::prod(0, d) == F::one());
    assert(algebra::prod(1, d) == algebra::prod(0, d) * d(0));
    assert(algebra::prod(0, o) == F::one());
    assert(algebra::prod(1, o) == algebra::prod(0, o) * o(0));
    assert(other_denominators(v, 0) == algebra::prod(1, o));
    assert(algebra::sum(0, f) == F::zero());
    assert(algebra::sum(1, f) == algebra::sum(0, f) + f(0));
}

/// A fraction `0 / 0` among the inputs makes the root `0 / 0`.
pub proof fn law_root_absorbs<F: Field>(p: Seq<F>, q: Seq<F>, k: nat, i: int)
    requires
        p.len() == pow2(k),
        q.len() == pow2(k),
        0 <= i < p.len(),
        q[i] == F::zero(),
    ensures
        layer_den(q, k)[0] == F::zero(),
        p[i] == F::zero() ==> layer_num(p, q, k)[0] == F::zero(),
{
    let j = lemma_zero_rises(p, q, k, i, k);
    lemma_layer_len(p, q, k, k);
    multilinear::lemma_pow2_zero();
}

proof fn lemma_zero_rises<F: Field>(p: Seq<F>, q: Seq<F>, k: nat, i: int, j: nat) -> (m: int)
    requires
        p.len() == pow2(k),
        q.len() == pow2(k),
        0 <= i < p.len(),
        q[i] == F::zero(),
        j <= k,
    ensures
        0 <= m < layer_den(q, j).len(),
        layer_den(q, j)[m] == F::zero(),
        p[i] == F::zero() ==> layer_num(p, q, j)[m] == F::zero(),
    decreases j,
{
    if j == 0 {
        i
    } else {
        let l = lemma_zero_rises(p, q, k, i, (j - 1) as nat);
        lemma_layer_len(p, q, k, (j - 1) as nat);
        lemma_layer_len(p, q, k, j);
        multilinear::lemma_pow2_step((k - j + 1) as nat);
        let (p1, q1) = (layer_num(p, q, (j - 1) as nat), layer_den(q, (j - 1) as nat));
        let m = l / 2;
        let (a, b) = (2 * m, 2 * m + 1);
        assert(l == a || l == b);
        F::law_valid(F::zero(), F::zero());
        F::law_add_zero(F::zero());
        algebra::mul_zero(q1[a]);
        algebra::mul_zero(q1[b]);
        algebra::mul_zero(p1[a]);
        algebra::mul_zero(p1[b]);
        m
    }
}

/// The claim that the proof leaves about layer `r`.
pub open spec fn claimed<F: Field>(
    num: F,
    den: F,
    layers: Seq<LayerView<F>>,
    tape: Seq<F>,
    r: nat,
) -> (F, F) {
    if r == 0 {
        (num, den)
    } else {
        let l = layers[r - 1].leaves;
        let b = beta_at(tape, (r - 1) as nat);
        (gkr::mean(l[0], l[1], b), gkr::mean(l[2], l[3], b))
    }
}

/// The values of layer `r` of the tree over `p / q` at the layer's point.
pub open spec fn layer_values<F: Field>(
    p: Seq<F>,
    q: Seq<F>,
    k: nat,
    tape: Seq<F>,
    r: nat,
) -> (F, F) {
    (
        multilinear::mle(layer_num(p, q, (k - r) as nat), point_at(tape, r)),
        multilinear::mle(layer_den(q, (k - r) as nat), point_at(tape, r)),
    )
}

/// Two pairs meet by chance: they differ, yet have one value in common at `r`.
pub open spec fn pairs_meet<F: Field>(a: (F, F), b: (F, F), va: F, vb: F) -> bool {
    a != b && va == vb
}

/// The draws of layer `r` let a false claim pass: the two claims combine to the true
/// combination though one is false, a round message meets the round polynomial by chance,
/// or false leaves have the true mean.
pub open spec fn layer_lucky<F: Field>(
    p: Seq<F>,
    q: Seq<F>,
    k: nat,
    num: F,
    den: F,
    layers: Seq<LayerView<F>>,
    tape: Seq<F>,
    r: nat,
) -> bool {
    let (pn, qn) = (layer_num(p, q, (k - r - 1) as nat), layer_den(q, (k - r - 1) as nat));
    let (z, zp) = (point_at(tape, r), inner_at(tape, r));
    let (lambda, beta) = (lambda_at(tape, r), beta_at(tape, r));
    let l = layers[r as int].leaves;
    let (c, v) = (claimed(num, den, layers, tape, r), layer_values(p, q, k, tape, r));
    let hp = (multilinear::mle(gkr::evens(pn), zp), multilinear::mle(gkr::odds(pn), zp));
    let hq = (multilinear::mle(gkr::evens(qn), zp), multilinear::mle(gkr::odds(qn), zp));
    ||| pairs_meet(c, v, c.0 + lambda * c.1, v.0 + lambda * v.1)
    ||| gkr::lucky(layer_tables(z, pn, qn), combine(lambda), layers[r as int].rounds, zp)
    ||| pairs_meet((l[0], l[1]), hp, gkr::mean(l[0], l[1], beta), gkr::mean(hp.0, hp.1, beta))
    ||| pairs_meet((l[2], l[3]), hq, gkr::mean(l[2], l[3], beta), gkr::mean(hq.0, hq.1, beta))
}

/// The draws let a false claim pass at some layer.
pub open spec fn lucky<F: Field>(
    p: Seq<F>,
    q: Seq<F>,
    k: nat,
    num: F,
    den: F,
    layers: Seq<LayerView<F>>,
    tape: Seq<F>,
) -> bool {
    exists|r: nat| r < k && #[trigger] layer_lucky(p, q, k, num, den, layers, tape, r)
}

/// All round messages hold canonical values.
pub open spec fn messages_valid<F: Field>(layers: Seq<LayerView<F>>) -> bool {
    forall|r: int, i: int|
        0 <= r < layers.len() && 0 <= i < layers[r].rounds.len() ==> algebra::all_valid(
            #[trigger] layers[r].rounds[i],
        )
}

proof fn lemma_layer_sound<F: Field>(
    p: Seq<F>,
    q: Seq<F>,
    k: nat,
    num: F,
    den: F,
    layers: Seq<LayerView<F>>,
    tape: Seq<F>,
    r: nat,
)
    requires
        p.len() == pow2(k),
        q.len() == pow2(k),
        algebra::all_valid(p),
        algebra::all_valid(q),
        layers.len() == k,
        messages_valid(layers),
        tape.len() == offset(k),
        r < k,
        claim_at(num, den, layers, tape, (r + 1) as nat) is Some,
        claimed(num, den, layers, tape, (r + 1) as nat) == layer_values(
            p,
            q,
            k,
            tape,
            (r + 1) as nat,
        ),
    ensures
        claimed(num, den, layers, tape, r) == layer_values(p, q, k, tape, r) || layer_lucky(
            p,
            q,
            k,
            num,
            den,
            layers,
            tape,
            r,
        ),
{
    let j = (k - r - 1) as nat;
    let (pn, qn) = (layer_num(p, q, j), layer_den(q, j));
    let (z, zp) = (point_at(tape, r), inner_at(tape, r));
    let (lambda, beta) = (lambda_at(tape, r), beta_at(tape, r));
    let l = layers[r as int].leaves;
    let rounds = layers[r as int].rounds;
    lemma_layer_len(p, q, k, j);
    lemma_layer_valid(p, q, j);
    lemma_offset_mono(r, k);
    lemma_point_prefix(tape, k, r);
    assert(point_at(tape, (r + 1) as nat) == seq![beta] + zp);
    gkr::lemma_split_mean(pn, beta, zp);
    gkr::lemma_split_mean(qn, beta, zp);
    assert(k - (r + 1) == j);
    assert(claim_at(num, den, layers, tape, r) == Some(claimed(num, den, layers, tape, r)));
    if !layer_lucky(p, q, k, num, den, layers, tape, r) {
        let tables = layer_tables(z, pn, qn);
        let comb = combine(lambda);
        let (c, v) = (claimed(num, den, layers, tape, r), layer_values(p, q, k, tape, r));
        lemma_layer_tables(z, lambda, pn, qn, zp.len());
        multilinear::lemma_mle_eq_table(z, zp);
        let tv = gkr::table_values(tables, zp);
        assert(tv[0] == multilinear::eq_value(z, zp));
        assert(tv[1] == l[0] && tv[2] == l[1] && tv[3] == l[2] && tv[4] == l[3]);
        assert forall|i: int| 0 <= i < rounds.len() implies algebra::all_valid(
            #[trigger] rounds[i],
        ) by {
            assert(algebra::all_valid(layers[r as int].rounds[i]));
        }
        gkr::law_low_sound(c.0 + lambda * c.1, tables, comb, rounds, zp);
        let f = |i: int| comb(Seq::new(tables.len(), |x: int| tables[x][i]));
        let g = |i: int| comb(gkr::column(tables, i));
        assert forall|i: int| 0 <= i < pow2(zp.len()) implies #[trigger] f(i) == g(i) by {
            assert(gkr::column(tables, i) =~= Seq::new(tables.len(), |x: int| tables[x][i]));
        }
        algebra::sum_ext(pow2(zp.len()), f, g);
        lemma_layer_sum(z, lambda, pn, qn);
        assert(layer_num(p, q, (j + 1) as nat) == up_num(pn, qn));
        assert(layer_den(q, (j + 1) as nat) == up_den(qn));
    }
}

proof fn lemma_point_prefix<F: Field>(tape: Seq<F>, k: nat, r: nat)
    requires
        tape.len() == offset(k),
        r < k,
    ensures
        point_at(tape, r).len() == r,
        inner_at(tape, r).len() == r,
{
    lemma_offset_mono(r, k);
    if r > 0 {
        lemma_offset_mono((r - 1) as nat, k);
    }
}

proof fn lemma_layer_tables<F: Field>(z: Seq<F>, lambda: F, p: Seq<F>, q: Seq<F>, n: nat)
    requires
        p.len() == pow2(n + 1),
        q.len() == p.len(),
        z.len() == n,
        algebra::all_valid(p),
        algebra::all_valid(q),
    ensures
        gkr::tables_shape(layer_tables(z, p, q), n),
        layer_tables(z, p, q)[0].len() == pow2(n),
        forall|v: Seq<F>| v.len() == 5 ==> (#[trigger] combine(lambda)(v)).valid(),
{
    let tables = layer_tables(z, p, q);
    multilinear::lemma_pow2_step(n + 1);
    multilinear::lemma_eq_table_len(z);
    multilinear::lemma_eq_table_valid(z);
    assert forall|k: int| 0 <= k < 5 implies (#[trigger] tables[k]).len() == pow2(n)
        && algebra::all_valid(tables[k]) by {
        assert forall|i: int| 0 <= i < tables[k].len() implies (#[trigger] tables[k][i]).valid()
            by {
            if k == 1 {
                assert(p[2 * i].valid());
            } else if k == 2 {
                assert(p[2 * i + 1].valid());
            } else if k == 3 {
                assert(q[2 * i].valid());
            } else if k == 4 {
                assert(q[2 * i + 1].valid());
            }
        }
    }
    let comb = combine(lambda);
    assert forall|v: Seq<F>| v.len() == 5 implies (#[trigger] comb(v)).valid() by {
        F::law_valid(v[0], (v[1] * v[4] + v[2] * v[3]) + (lambda * v[3]) * v[4]);
    }
}

proof fn lemma_sound_from<F: Field>(
    p: Seq<F>,
    q: Seq<F>,
    k: nat,
    num: F,
    den: F,
    layers: Seq<LayerView<F>>,
    tape: Seq<F>,
    r: nat,
)
    requires
        p.len() == pow2(k),
        q.len() == pow2(k),
        algebra::all_valid(p),
        algebra::all_valid(q),
        layers.len() == k,
        messages_valid(layers),
        tape.len() == offset(k),
        r <= k,
        claim_at(num, den, layers, tape, k) is Some,
        claimed(num, den, layers, tape, k) == layer_values(p, q, k, tape, k),
    ensures
        claim_at(num, den, layers, tape, r) is Some,
        claimed(num, den, layers, tape, r) == layer_values(p, q, k, tape, r) || lucky(
            p,
            q,
            k,
            num,
            den,
            layers,
            tape,
        ),
    decreases k - r,
{
    if r < k {
        lemma_sound_from(p, q, k, num, den, layers, tape, (r + 1) as nat);
        if !lucky(p, q, k, num, den, layers, tape) {
            lemma_layer_sound(p, q, k, num, den, layers, tape, r);
        }
    }
}

/// Soundness, whoever made the proof: if the values that verification returns are those
/// of `p` and `q` at the returned point, the proof's root is the fraction that the tree
/// over `p / q` ends in, the sum of all fractions over their common denominator, unless
/// some draw lets a false claim pass.
pub proof fn law_sound<F: Field>(
    p: Seq<F>,
    q: Seq<F>,
    k: nat,
    num: F,
    den: F,
    layers: Seq<LayerView<F>>,
    tape: Seq<F>,
    z: Seq<F>,
)
    requires
        p.len() == pow2(k),
        q.len() == pow2(k),
        algebra::all_valid(p),
        algebra::all_valid(q),
        num.valid(),
        den.valid(),
        layers.len() == k,
        messages_valid(layers),
        tape.len() == offset(k),
        verified(num, den, layers, tape) == Some(
            (z, multilinear::mle(p, z), multilinear::mle(q, z)),
        ),
    ensures
        z.len() == k,
        num == cross_sum(p, q) && den == denominator_product(q) || lucky(
            p,
            q,
            k,
            num,
            den,
            layers,
            tape,
        ),
{
    lemma_point_len(tape, k);
    if k > 0 {
        assert(claim_at(num, den, layers, tape, k) == Some(claimed(num, den, layers, tape, k)));
    }
    lemma_sound_from(p, q, k, num, den, layers, tape, 0);
    let (u, v) = (layer_num(p, q, k), layer_den(q, k));
    assert(multilinear::fold_all(u, point_at(tape, 0)) == u);
    assert(multilinear::fold_all(v, point_at(tape, 0)) == v);
    law_root_cross(p, q, k);
}

pub proof fn lemma_verified_valid<F: Field>(
    num: F,
    den: F,
    layers: Seq<LayerView<F>>,
    tape: Seq<F>,
)
    requires
        num.valid(),
        den.valid(),
    ensures
        match verified(num, den, layers, tape) {
            Some((z, p, q)) => p.valid() && q.valid(),
            None => true,
        },
{
    let k = layers.len();
    if k > 0 {
        let l = layers[k - 1].leaves;
        let b = beta_at(tape, (k - 1) as nat);
        F::law_valid((F::one() - b) * l[0], b * l[1]);
        F::law_valid((F::one() - b) * l[2], b * l[3]);
    }
}

} // verus!
