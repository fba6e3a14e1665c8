//! Batched grand products.
//!
//! A leaf cube is viewed as `2^b` batches of `2^c` factors, the factors on the low
//! variables. Proves that each batch's product equals a public top value,
//! `top[i] = prod_k leaf[i 2^c + k]`, by contracting the `c` product layers and
//! carrying the batch dimension as a free point. What remains is one value of the
//! leaf polynomial. Points are low bit first.
use vstd::prelude::*;
use vstd::arithmetic::power2::pow2;
use crate::algebra;
use crate::field::Field;
use crate::gkr;
use crate::logup::frac_sum;
use crate::multilinear;
use crate::polynomial;
use crate::utils::oracle::RandomOracle;
use crate::utils::poly;
use crate::utils::sumcheck;

verus! {

/// One layer reduction: the round polynomials at `0, 1, 2, 3`, then the values at
/// the sumcheck point of the even and of the odd entries.
pub struct LayerProof<F: Field> {
    pub round_polys: Vec<[F; 4]>,
    pub leaves: [F; 2],
}

/// A grand-product proof: one reduction per product layer, from the top down.
pub struct GrandProdProof<F: Field> {
    pub layers: Vec<LayerProof<F>>,
}

/// The contents of a layer reduction.
pub struct LayerView<F: Field> {
    pub rounds: Seq<Seq<F>>,
    pub leaves: Seq<F>,
}

impl<F: Field> LayerProof<F> {
    pub open spec fn contents(self) -> LayerView<F> {
        LayerView { rounds: gkr::messages(self.round_polys@), leaves: self.leaves@ }
    }
}

impl<F: Field> GrandProdProof<F> {
    /// The contents of all layers.
    pub open spec fn contents(self) -> Seq<LayerView<F>> {
        Seq::new(self.layers@.len(), |i: int| self.layers@[i].contents())
    }

    /// Number of field elements in the first `n` layers.
    pub open spec fn element_count(self, n: nat) -> nat
        decreases n,
    {
        if n == 0 {
            0
        } else {
            self.element_count((n - 1) as nat) + self.layers@[n - 1].round_polys@.len() * 4 + 2
        }
    }

    proof fn lemma_elements_mono(self, i: nat, n: nat)
        requires
            i <= n,
        ensures
            self.element_count(i) <= self.element_count(n),
        decreases n,
    {
        if i < n {
            self.lemma_elements_mono(i, (n - 1) as nat);
        }
    }

    /// Size in bytes of all field elements of the proof.
    pub fn size_bytes(&self) -> (r: usize)
        requires
            self.element_count(self.layers@.len()) * F::byte_size() <= usize::MAX,
        ensures
            r == self.element_count(self.layers@.len()) * F::byte_size(),
    {
        let f: usize = F::size();
        let n: usize = self.layers.len();
        let mut count: usize = 0;
        let mut i: usize = 0;
        proof {
            let c = self.element_count(n as nat);
            assert(c <= c * F::byte_size()) by (nonlinear_arith)
                requires
                    F::byte_size() >= 1,
                    c >= 0,
            ;
        }
        while i < n
            invariant
                i <= n,
                n == self.layers@.len(),
                self.element_count(n as nat) <= usize::MAX,
                count == self.element_count(i as nat),
            decreases n - i,
        {
            proof {
                self.lemma_elements_mono((i + 1) as nat, n as nat);
            }
            count = count + (self.layers[i].round_polys.len() * 4 + 2);
            i += 1;
        }
        count * f
    }
}

/// Number of challenges read up to and with layer reduction `s`, for `b` batch
/// variables.
pub open spec fn offset(b: nat, s: nat) -> nat
    decreases s,
{
    if s == 0 {
        b
    } else {
        offset(b, (s - 1) as nat) + b + s
    }
}

/// The sumcheck challenges of reduction `s`.
pub open spec fn inner_at<F: Field>(tape: Seq<F>, b: nat, s: nat) -> Seq<F> {
    tape.subrange(offset(b, s) as int, offset(b, s) as int + b + s)
}

/// The last challenge of reduction `s`.
pub open spec fn beta_at<F: Field>(tape: Seq<F>, b: nat, s: nat) -> F {
    tape[offset(b, s) as int + b + s]
}

/// The point of the claim before reduction `s`.
pub open spec fn point_at<F: Field>(tape: Seq<F>, b: nat, s: nat) -> Seq<F> {
    if s == 0 {
        tape.subrange(0, b as int)
    } else {
        seq![beta_at(tape, b, (s - 1) as nat)] + inner_at(tape, b, (s - 1) as nat)
    }
}

/// The products of `2^c` neighbours each.
pub open spec fn batch_products<F: Field>(leaf: Seq<F>, c: nat) -> Seq<F> {
    frac_sum::layer_den(leaf, c)
}

/// The summand of the layer sumcheck.
pub open spec fn combine<F: Field>() -> spec_fn(Seq<F>) -> F {
    |v: Seq<F>| (v[0] * v[1]) * v[2]
}

/// The tables of the layer sumcheck.
pub open spec fn layer_tables<F: Field>(z: Seq<F>, parent: Seq<F>) -> Seq<Seq<F>> {
    seq![multilinear::eq_table(z), gkr::evens(parent), gkr::odds(parent)]
}

/// The honest reduction of a claim at `z` about the products of neighbours of
/// `parent`.
pub open spec fn honest_layer<F: Field>(z: Seq<F>, parent: Seq<F>, zp: Seq<F>) -> LayerView<F> {
    LayerView {
        rounds: gkr::low_rounds(layer_tables(z, parent), combine(), zp),
        leaves: seq![
            multilinear::mle(gkr::evens(parent), zp),
            multilinear::mle(gkr::odds(parent), zp),
        ],
    }
}

/// The honest reductions for `2^(b + c)` leaves.
pub open spec fn honest_layers<F: Field>(
    leaf: Seq<F>,
    b: nat,
    c: nat,
    tape: Seq<F>,
) -> Seq<LayerView<F>> {
    Seq::new(
        c,
        |s: int|
            honest_layer(
                point_at(tape, b, s as nat),
                batch_products(leaf, (c - s - 1) as nat),
                inner_at(tape, b, s as nat),
            ),
    )
}

/// `sum_i eq(z, i) vals[i]`.
pub open spec fn weighted_sum<F: Field>(vals: Seq<F>, z: Seq<F>) -> F {
    algebra::sum(vals.len(), |i: int| multilinear::eq_table(z)[i] * vals[i])
}

/// The value claimed for the leaf polynomial.
pub open spec fn leaf_claim<F: Field>(leaf: Seq<F>, b: nat, c: nat, tape: Seq<F>) -> F {
    if c == 0 {
        weighted_sum(leaf, point_at(tape, b, 0))
    } else {
        let zp = inner_at(tape, b, (c - 1) as nat);
        gkr::mean(
            multilinear::mle(gkr::evens(leaf), zp),
            multilinear::mle(gkr::odds(leaf), zp),
            beta_at(tape, b, (c - 1) as nat),
        )
    }
}

/// A reduction from the claim `cur` passes its checks.
pub open spec fn layer_accepted<F: Field>(
    layer: LayerView<F>,
    b: nat,
    s: nat,
    cur: F,
    tape: Seq<F>,
) -> bool {
    let zp = inner_at(tape, b, s);
    &&& layer.rounds.len() == b + s
    &&& sumcheck::check_rounds(cur, layer.rounds, zp) == Some(
        (multilinear::eq_value(point_at(tape, b, s), zp) * layer.leaves[0]) * layer.leaves[1],
    )
}

/// The claim before reduction `s`, or `None` if an earlier one fails.
pub open spec fn claim_at<F: Field>(
    top: Seq<F>,
    layers: Seq<LayerView<F>>,
    b: nat,
    tape: Seq<F>,
    s: nat,
) -> Option<F>
    decreases s,
{
    if s == 0 {
        Some(weighted_sum(top, point_at(tape, b, 0)))
    } else {
        let i = (s - 1) as nat;
        match claim_at(top, layers, b, tape, i) {
            None => None,
            Some(cur) => {
                if layer_accepted(layers[i as int], b, i, cur, tape) {
                    let l = layers[i as int].leaves;
                    Some(gkr::mean(l[0], l[1], beta_at(tape, b, i)))
                } else {
                    None
                }
            },
        }
    }
}

/// What verification returns: the leaf point and the value claimed there.
pub open spec fn verified<F: Field>(
    top: Seq<F>,
    layers: Seq<LayerView<F>>,
    b: nat,
    tape: Seq<F>,
) -> Option<(Seq<F>, F)> {
    match claim_at(top, layers, b, tape, layers.len()) {
        None => None,
        Some(v) => Some((point_at(tape, b, layers.len()), v)),
    }
}

proof fn lemma_offset_mono(b: nat, i: nat, s: nat)
    requires
        i < s,
    ensures
        offset(b, i) + b + i + 1 <= offset(b, s),
    decreases s,
{
    if i + 1 < s {
        lemma_offset_mono(b, i, (s - 1) as nat);
    }
}

proof fn lemma_offset_base(b: nat, s: nat)
    ensures
        b <= offset(b, s),
    decreases s,
{
    if s > 0 {
        lemma_offset_base(b, (s - 1) as nat);
    }
}

/// `sum_i eq(z, i) vals[i]`.
fn eval_mle<F: Field>(vals: &[F], z: &[F]) -> (r: F)
    requires
        vals@.len() == pow2(z@.len()),
    ensures
        r == weighted_sum(vals@, z@),
{
    assert(vals@.len() == vals.len());
    let tab = gkr::eq_table(z);
    proof {
        multilinear::lemma_eq_table_len(z@);
    }
    let mut acc = F::new_zero();
    let mut i: usize = 0;
    let ghost f = |i: int| multilinear::eq_table(z@)[i] * vals@[i];
    while i < vals.len()
        invariant
            i <= vals.len(),
            tab@ == multilinear::eq_table(z@),
            tab@.len() == vals@.len(),
            f == (|i: int| multilinear::eq_table(z@)[i] * vals@[i]),
            acc == algebra::sum(i as nat, f),
        decreases vals.len() - i,
    {
        acc = acc.add(tab[i].mul(vals[i]));
        i += 1;
    }
    acc
}

/// The products of neighbours.
fn multiply_pairs<F: Field>(s: &Vec<F>) -> (r: Vec<F>)
    ensures
        r@ == frac_sum::up_den(s@),
{
    let half: usize = s.len() / 2;
    let mut r: Vec<F> = Vec::new();
    let mut i: usize = 0;
    while i < half
        invariant
            i <= half,
            half == s@.len() / 2,
            s@.len() == s.len(),
            r@ == Seq::new(i as nat, |k: int| s@[2 * k] * s@[2 * k + 1]),
        decreases half - i,
    {
        r.push(s[2 * i].mul(s[2 * i + 1]));
        assert(r@ =~= Seq::new((i + 1) as nat, |k: int| s@[2 * k] * s@[2 * k + 1]));
        i += 1;
    }
    r
}

pub proof fn lemma_products_len<F: Field>(leaf: Seq<F>, n: nat, c: nat)
    requires
        leaf.len() == pow2(n),
        c <= n,
    ensures
        batch_products(leaf, c).len() == pow2((n - c) as nat),
{
    frac_sum::lemma_layer_len(leaf, leaf, n, c);
}

/// Proves the grand products of `leaf`, whose length must be a power of two at
/// least `2^batch_vars`. Returns the proof, the leaf point and the leaf
/// polynomial's value there.
pub fn prove<F: Field>(
    leaf: &[F],
    batch_vars: usize,
    oracle: &mut RandomOracle<F>,
) -> (res: (GrandProdProof<F>, Vec<F>, F))
    requires
        exists|c: nat|
            #![trigger pow2(batch_vars as nat + c)]
            leaf@.len() == pow2(batch_vars as nat + c) && old(oracle).has_fields(
                offset(batch_vars as nat, c) as int,
            ),
    ensures
        leaf@.len() == pow2(batch_vars as nat + res.0.layers@.len()),
        res.0.contents() == honest_layers(
            leaf@,
            batch_vars as nat,
            res.0.layers@.len(),
            old(oracle).upcoming(offset(batch_vars as nat, res.0.layers@.len())),
        ),
        res.1@ == point_at(
            old(oracle).upcoming(offset(batch_vars as nat, res.0.layers@.len())),
            batch_vars as nat,
            res.0.layers@.len(),
        ),
        res.2 == leaf_claim(
            leaf@,
            batch_vars as nat,
            res.0.layers@.len(),
            old(oracle).upcoming(offset(batch_vars as nat, res.0.layers@.len())),
        ),
        final(oracle).wf(),
        old(oracle).advanced(
            *final(oracle),
            offset(batch_vars as nat, res.0.layers@.len()) as int,
            0,
        ),
{
    let ghost b = batch_vars as nat;
    let ghost c = choose|c: nat|
        #![trigger pow2(b + c)]
        leaf@.len() == pow2(b + c) && oracle.has_fields(offset(b, c) as int);
    let total_vars: usize = sumcheck::log2_exact(leaf.len());
    proof {
        sumcheck::lemma_exponent_unique(total_vars as nat, b + c);
        sumcheck::lemma_exponent_small(b + c);
        lemma_offset_base(b, c);
    }
    let col_vars: usize = total_vars - batch_vars;
    let ghost start = *oracle;
    let ghost tape = start.upcoming(offset(b, c));
    let mut tree: Vec<Vec<F>> = vec![poly::copy_slice(leaf)];
    let mut j: usize = 0;
    while j < col_vars
        invariant
            j <= col_vars,
            tree@.len() == j + 1,
            forall|i: int| 0 <= i <= j ==> (#[trigger] tree@[i])@ == batch_products(leaf@, i as nat),
        decreases col_vars - j,
    {
        let next = multiply_pairs(&tree[j]);
        assert(batch_products(leaf@, (j + 1) as nat) == frac_sum::up_den(
            batch_products(leaf@, j as nat),
        ));
        tree.push(next);
        j += 1;
    }
    let mut z = oracle.next_n_fields(batch_vars);
    assert(z@ =~= point_at(tape, b, 0));
    let mut claim = F::new_zero();
    let mut layers: Vec<LayerProof<F>> = Vec::new();
    let mut step: usize = 0;
    let ghost honest = honest_layers(leaf@, b, c, tape);
    while step < col_vars
        invariant
            step <= col_vars,
            col_vars == c,
            b == batch_vars,
            b + c < 64,
            leaf@.len() == pow2(b + c),
            tree@.len() == col_vars + 1,
            forall|i: int|
                0 <= i <= col_vars ==> (#[trigger] tree@[i])@ == batch_products(leaf@, i as nat),
            start.has_fields(offset(b, c) as int),
            tape == start.upcoming(offset(b, c)),
            oracle.wf(),
            start.advanced(*oracle, offset(b, step as nat) as int, 0),
            z@ == point_at(tape, b, step as nat),
            z@.len() == b + step,
            layers@.len() == step,
            honest == honest_layers(leaf@, b, c, tape),
            forall|i: int| 0 <= i < step ==> (#[trigger] layers@[i]).contents() == honest[i],
            step == c && c > 0 ==> claim == leaf_claim(leaf@, b, c, tape),
        decreases col_vars - step,
    {
        proof {
            lemma_offset_mono(b, step as nat, c);
            lemma_products_len(leaf@, b + c, (c - step - 1) as nat);
            assert((b + c - (c - step - 1)) as nat == z@.len() + 1);
        }
        let level: usize = col_vars - step - 1;
        let (layer, zp) = prove_layer(&z, &tree[level], oracle);
        assert(zp@ =~= inner_at(tape, b, step as nat));
        let beta = oracle.next_field();
        assert(beta == beta_at(tape, b, step as nat));
        assert(layer.contents() == honest[step as int]);
        assert(layer.leaves@ == honest[step as int].leaves);
        claim = gkr::weighted_mean(layer.leaves[0], layer.leaves[1], beta);
        let mut next: Vec<F> = vec![beta];
        let mut zp = zp;
        next.append(&mut zp);
        z = next;
        assert(z@ =~= point_at(tape, b, (step + 1) as nat));
        layers.push(layer);
        assert(offset(b, (step + 1) as nat) == offset(b, step as nat) + b + step + 1);
        step += 1;
    }
    let proof = GrandProdProof { layers };
    assert(proof.contents() =~= honest);
    if col_vars == 0 {
        let leaf_eval = eval_mle(leaf, z.as_slice());
        return (proof, z, leaf_eval);
    }
    (proof, z, claim)
}

/// One round's values at 0, 1, 2 and 3.
fn round_message<F: Field>(eqv: &Vec<F>, a0: &Vec<F>, a1: &Vec<F>) -> (r: [F; 4])
    requires
        a0@.len() == eqv@.len(),
        a1@.len() == eqv@.len(),
    ensures
        r@ == gkr::low_message(seq![eqv@, a0@, a1@], combine()),
{
    let ghost tables = seq![eqv@, a0@, a1@];
    let ghost comb = combine::<F>();
    let pts = gkr::four_points::<F>();
    let half: usize = eqv.len() / 2;
    let mut g: [F; 4] = [F::new_zero(); 4];
    let mut t: usize = 0;
    while t < 4
        invariant
            t <= 4,
            half == eqv@.len() / 2,
            eqv@.len() == eqv.len(),
            a0@.len() == eqv@.len(),
            a1@.len() == eqv@.len(),
            tables == seq![eqv@, a0@, a1@],
            comb == combine::<F>(),
            pts@ == polynomial::nodes::<F>(4),
            forall|i: int|
                0 <= i < t ==> #[trigger] g@[i] == gkr::low_value(tables, comb, F::embed(i)),
        decreases 4 - t,
    {
        let p = pts[t];
        let mut acc = F::new_zero();
        let mut j: usize = 0;
        let ghost f = |j: int| comb(gkr::line_values(tables, j, p));
        while j < half
            invariant
                j <= half,
                half == eqv@.len() / 2,
                eqv@.len() == eqv.len(),
                a0@.len() == eqv@.len(),
                a1@.len() == eqv@.len(),
                tables == seq![eqv@, a0@, a1@],
                comb == combine::<F>(),
                f == (|j: int| comb(gkr::line_values(tables, j, p))),
                acc == algebra::sum(j as nat, f),
            decreases half - j,
        {
            let e = eqv[2 * j].add(p.mul(eqv[2 * j + 1].sub(eqv[2 * j])));
            let av0 = a0[2 * j].add(p.mul(a0[2 * j + 1].sub(a0[2 * j])));
            let av1 = a1[2 * j].add(p.mul(a1[2 * j + 1].sub(a1[2 * j])));
            let term = e.mul(av0).mul(av1);
            assert(term == f(j as int)) by {
                let v = gkr::line_values(tables, j as int, p);
                assert(v[0] == e && v[1] == av0 && v[2] == av1);
            }
            acc = acc.add(term);
            j += 1;
        }
        assert(acc == gkr::low_value(tables, comb, F::embed(t as int)));
        g[t] = acc;
        t += 1;
    }
    assert(g@ =~= gkr::low_message(tables, comb));
    g
}

/// The layer sumcheck of `sum_i eq(z, i) parent[2i] parent[2i + 1]`.
fn prove_layer<F: Field>(
    z: &Vec<F>,
    parent: &Vec<F>,
    oracle: &mut RandomOracle<F>,
) -> (res: (LayerProof<F>, Vec<F>))
    requires
        parent@.len() == pow2(z@.len() + 1),
        old(oracle).has_fields(z@.len() as int),
    ensures
        res.1@ == old(oracle).upcoming(z@.len()),
        res.0.contents() == honest_layer(z@, parent@, res.1@),
        final(oracle).wf(),
        old(oracle).advanced(*final(oracle), z@.len() as int, 0),
{
    let r: usize = z.len();
    let ghost start = *oracle;
    proof {
        multilinear::lemma_pow2_step(z@.len() + 1);
        multilinear::lemma_eq_table_len(z@);
    }
    assert(parent.len() == parent@.len());
    let mut a0 = gkr::even_entries(parent.as_slice());
    let mut a1 = gkr::odd_entries(parent.as_slice());
    let mut eqv = gkr::eq_table(z.as_slice());
    let ghost tables = layer_tables(z@, parent@);
    let ghost comb = combine::<F>();
    let mut round_polys: Vec<[F; 4]> = Vec::new();
    let mut zprime: Vec<F> = Vec::new();
    let mut i: usize = 0;
    proof {
        assert(start.upcoming(0) =~= Seq::<F>::empty());
        assert(gkr::fold_tables_all(tables, Seq::<F>::empty()) =~= tables);
        assert(gkr::messages(round_polys@) =~= Seq::empty());
        assert(gkr::low_rounds(tables, comb, Seq::<F>::empty()) =~= Seq::empty());
    }
    while i < r
        invariant
            i <= r,
            start.has_fields(r as int),
            oracle.wf(),
            start.advanced(*oracle, i as int, 0),
            zprime@ == start.upcoming(i as nat),
            zprime@.len() == i,
            comb == combine::<F>(),
            tables.len() == 3,
            gkr::messages(round_polys@) == gkr::low_rounds(tables, comb, zprime@),
            gkr::fold_tables_all(tables, zprime@) == seq![eqv@, a0@, a1@],
            eqv@.len() == pow2((r - i) as nat),
            a0@.len() == eqv@.len(),
            a1@.len() == eqv@.len(),
        decreases r - i,
    {
        let ghost cur = seq![eqv@, a0@, a1@];
        let g = round_message(&eqv, &a0, &a1);
        let ghost before = round_polys@;
        let ghost old_ch = zprime@;
        round_polys.push(g);
        let c = oracle.next_field();
        zprime.push(c);
        gkr::fold_low(&mut a0, c);
        gkr::fold_low(&mut a1, c);
        gkr::fold_low(&mut eqv, c);
        proof {
            assert(zprime@ =~= start.upcoming((i + 1) as nat));
            gkr::lemma_low_rounds_push(tables, comb, old_ch, c);
            assert(gkr::messages(round_polys@) =~= gkr::messages(before).push(g@));
            assert(gkr::fold_tables(cur, c) =~= seq![eqv@, a0@, a1@]);
            multilinear::lemma_pow2_step((r - i) as nat);
        }
        i += 1;
    }
    proof {
        multilinear::lemma_pow2_zero();
        let folded = gkr::fold_tables_all(tables, zprime@);
        assert(folded[1] == a0@ && folded[2] == a1@);
    }
    let leaves: [F; 2] = [a0[0], a1[0]];
    let layer = LayerProof { round_polys, leaves };
    proof {
        let h = honest_layer(z@, parent@, zprime@);
        assert(layer.contents().leaves =~= h.leaves);
    }
    (layer, zprime)
}

/// Number of challenges that verification reads from reduction `s` on: it stops at the
/// first check that fails.
pub open spec fn read_from<F: Field>(
    top: Seq<F>,
    layers: Seq<LayerView<F>>,
    b: nat,
    tape: Seq<F>,
    s: nat,
) -> nat
    decreases layers.len() - s,
{
    if s >= layers.len() {
        0
    } else {
        match claim_at(top, layers, b, tape, s) {
            None => 0,
            Some(cur) => {
                if layer_accepted(layers[s as int], b, s, cur, tape) {
                    b + s + 1 + read_from(top, layers, b, tape, s + 1)
                } else if layers[s as int].rounds.len() != b + s {
                    0
                } else {
                    sumcheck::rounds_passed(cur, layers[s as int].rounds, inner_at(tape, b, s))
                }
            },
        }
    }
}

/// Number of challenges that verification reads.
pub open spec fn read_count<F: Field>(
    top: Seq<F>,
    layers: Seq<LayerView<F>>,
    b: nat,
    tape: Seq<F>,
) -> nat {
    b + read_from(top, layers, b, tape, 0)
}

proof fn lemma_claim_none<F: Field>(
    top: Seq<F>,
    layers: Seq<LayerView<F>>,
    b: nat,
    tape: Seq<F>,
    i: nat,
    s: nat,
)
    requires
        i <= s,
        claim_at(top, layers, b, tape, i) is None,
    ensures
        claim_at(top, layers, b, tape, s) is None,
    decreases s,
{
    if i < s {
        lemma_claim_none(top, layers, b, tape, i, (s - 1) as nat);
    }
}

/// Verifies grand products against the public `top`, whose length must be a power
/// of two. Returns the leaf point and the value claimed there, or `None` if a
/// check fails. The caller must confirm the value.
pub fn verify<F: Field>(
    proof: &GrandProdProof<F>,
    top: &[F],
    oracle: &mut RandomOracle<F>,
) -> (res: Option<(Vec<F>, F)>)
    requires
        poly::is_power_of_two(top@.len() as int),
        old(oracle).has_fields(
            read_count(
                top@,
                proof.contents(),
                poly::exponent(top@.len() as int),
                old(oracle).upcoming(
                    offset(poly::exponent(top@.len() as int), proof.layers@.len()),
                ),
            ) as int,
        ),
    ensures
        verified(
            top@,
            proof.contents(),
            poly::exponent(top@.len() as int),
            old(oracle).upcoming(
                offset(poly::exponent(top@.len() as int), proof.layers@.len()),
            ),
        ) == (match res {
            None => None,
            Some((z, v)) => Some((z@, v)),
        }),
        final(oracle).wf(),
        res is Some ==> old(oracle).advanced(
            *final(oracle),
            offset(poly::exponent(top@.len() as int), proof.layers@.len()) as int,
            0,
        ),
        old(oracle).advanced(
            *final(oracle),
            read_count(
                top@,
                proof.contents(),
                poly::exponent(top@.len() as int),
                old(oracle).upcoming(
                    offset(poly::exponent(top@.len() as int), proof.layers@.len()),
                ),
            ) as int,
            0,
        ),
{
    let batch_vars: usize = sumcheck::log2_exact(top.len());
    let ghost b = batch_vars as nat;
    let k: usize = proof.layers.len();
    proof {
        poly::lemma_exponent(b);
        sumcheck::lemma_exponent_small(b);
        lemma_offset_base(b, k as nat);
    }
    let ghost views = proof.contents();
    let ghost start = *oracle;
    let ghost tape = start.upcoming(offset(b, k as nat));
    let mut z = oracle.next_n_fields(batch_vars);
    assert(z@ =~= point_at(tape, b, 0));
    let mut cur = eval_mle(top, z.as_slice());
    let mut step: usize = 0;
    let ghost total = read_count(top@, views, b, tape);
    assert(offset(b, 0) == b);
    while step < k
        invariant
            step <= k,
            k == proof.layers@.len(),
            b == batch_vars,
            b < 64,
            b == poly::exponent(top@.len() as int),
            views == proof.contents(),
            start == *old(oracle),
            start.has_fields(total as int),
            total == read_count(top@, views, b, tape),
            tape == start.upcoming(offset(b, k as nat)),
            total == offset(b, step as nat) + read_from(top@, views, b, tape, step as nat),
            oracle.wf(),
            start.advanced(*oracle, offset(b, step as nat) as int, 0),
            z@ == point_at(tape, b, step as nat),
            claim_at(top@, views, b, tape, step as nat) == Some(cur),
        decreases k - step,
    {
        proof {
            lemma_offset_mono(b, step as nat, k as nat);
        }
        let layer = &proof.layers[step];
        assert(layer.contents() == views[step as int]);
        let ghost rounds = gkr::messages(layer.round_polys@);
        let ghost zp = inner_at(tape, b, step as nat);
        let n: usize = layer.round_polys.len();
        if n < batch_vars || n - batch_vars != step {
            proof {
                assert(!layer_accepted(views[step as int], b, step as nat, cur, tape));
                assert(claim_at(top@, views, b, tape, (step + 1) as nat) is None);
                lemma_claim_none(top@, views, b, tape, (step + 1) as nat, k as nat);
            }
            return None;
        }
        let mut c_claim = cur;
        let mut zprime: Vec<F> = Vec::new();
        let mut i: usize = 0;
        proof {
            assert(rounds.skip(0) =~= rounds);
            assert(zp.skip(0) =~= zp);
        }
        while i < n
            invariant
                i <= n,
                step < k,
                k == proof.layers@.len(),
                n == b + step,
                b == poly::exponent(top@.len() as int),
                layer.round_polys@.len() == n,
                layer == proof.layers@[step as int],
                views == proof.contents(),
                rounds == gkr::messages(layer.round_polys@),
                start == *old(oracle),
                start.has_fields(total as int),
                total == read_count(top@, views, b, tape),
                tape == start.upcoming(offset(b, k as nat)),
                offset(b, step as nat) + b + step + 1 <= offset(b, k as nat),
                layer.contents() == views[step as int],
                rounds == views[step as int].rounds,
                total == offset(b, step as nat) + read_from(top@, views, b, tape, step as nat),
                sumcheck::rounds_passed(cur, rounds, zp) == i + sumcheck::rounds_passed(
                    c_claim,
                    rounds.skip(i as int),
                    zp.skip(i as int),
                ),
                zp == inner_at(tape, b, step as nat),
                zp.len() == n,
                oracle.wf(),
                start.advanced(*oracle, offset(b, step as nat) as int + i, 0),
                zprime@ == zp.take(i as int),
                claim_at(top@, views, b, tape, step as nat) == Some(cur),
                sumcheck::check_rounds(cur, rounds, zp) == sumcheck::check_rounds(
                    c_claim,
                    rounds.skip(i as int),
                    zp.skip(i as int),
                ),
            decreases n - i,
        {
            let poly = &layer.round_polys[i];
            let ghost rest = rounds.skip(i as int);
            proof {
                assert(rest[0] == poly@);
                assert(rest.drop_first() =~= rounds.skip(i + 1));
                assert(zp.skip(i as int).drop_first() =~= zp.skip(i + 1));
                assert(zp.skip(i as int)[0] == zp[i as int]);
                assert(zp.take(i + 1) =~= zp.take(i as int).push(zp[i as int]));
            }
            if !poly[0].add(poly[1]).equals(c_claim) {
                proof {
                    assert(!layer_accepted(views[step as int], b, step as nat, cur, tape));
                    assert(claim_at(top@, views, b, tape, (step + 1) as nat) is None);
                    lemma_claim_none(top@, views, b, tape, (step + 1) as nat, k as nat);
                }
                return None;
            }
            let c = oracle.next_field();
            assert(c == zp[i as int]);
            c_claim = gkr::interp4(poly, c);
            zprime.push(c);
            i += 1;
        }
        assert(zp.take(n as int) =~= zp);
        assert(sumcheck::rounds_passed(cur, rounds, zp) == n);
        let a0 = layer.leaves[0];
        let a1 = layer.leaves[1];
        let eqf = gkr::eq_eval(z.as_slice(), zprime.as_slice());
        if !c_claim.equals(eqf.mul(a0).mul(a1)) {
            proof {
                assert(!layer_accepted(views[step as int], b, step as nat, cur, tape));
                assert(claim_at(top@, views, b, tape, (step + 1) as nat) is None);
                lemma_claim_none(top@, views, b, tape, (step + 1) as nat, k as nat);
            }
            return None;
        }
        assert(layer_accepted(views[step as int], b, step as nat, cur, tape));
        let beta = oracle.next_field();
        assert(beta == beta_at(tape, b, step as nat));
        cur = gkr::weighted_mean(a0, a1, beta);
        let mut next: Vec<F> = vec![beta];
        next.append(&mut zprime);
        z = next;
        assert(z@ =~= point_at(tape, b, (step + 1) as nat));
        assert(offset(b, (step + 1) as nat) == offset(b, step as nat) + b + step + 1);
        step += 1;
    }
    Some((z, cur))
}

/// The weighted sum is the polynomial's value.
pub proof fn lemma_weighted_sum<F: Field>(vals: Seq<F>, z: Seq<F>)
    requires
        vals.len() == pow2(z.len()),
        algebra::all_valid(vals),
    ensures
        weighted_sum(vals, z) == multilinear::mle(vals, z),
{
    multilinear::lemma_mle_sum(vals, z);
    let e = multilinear::eq_table(z);
    let f = |i: int| e[i] * vals[i];
    let g = |i: int| vals[i] * e[i];
    assert forall|i: int| 0 <= i < vals.len() implies #[trigger] f(i) == g(i) by {
        F::law_mul_comm(e[i], vals[i]);
    }
    algebra::sum_ext(vals.len(), f, g);
}

proof fn lemma_combine_cubic<F: Field>()
    ensures
        gkr::cubic(combine::<F>(), 3),
{
    let comb = combine::<F>();
    assert forall|a: Seq<F>, b: Seq<F>|
        a.len() == 3 && b.len() == 3 implies polynomial::is_poly(
        #[trigger] gkr::along(comb, a, b),
        4,
    ) by {
        gkr::lemma_three_lines(a[0], b[0], a[1], b[1], a[2], b[2]);
        let h = |t: F|
            algebra::lerp(a[0], b[0], t) * (algebra::lerp(a[1], b[1], t) * algebra::lerp(
                a[2],
                b[2],
                t,
            ));
        let g = gkr::along(comb, a, b);
        assert forall|t: F| t.valid() implies #[trigger] g(t) == h(t) by {
            let v = Seq::new(a.len(), |k: int| algebra::lerp(a[k], b[k], t));
            F::law_mul_assoc(v[0], v[1], v[2]);
        }
        polynomial::is_poly_same(h, g, 4);
    }
}

proof fn lemma_layer_complete<F: Field>(z: Seq<F>, parent: Seq<F>, zp: Seq<F>)
    requires
        parent.len() == pow2(z.len() + 1),
        zp.len() == z.len(),
        algebra::all_valid(parent),
        algebra::all_valid(zp),
    ensures
        ({
            let h = honest_layer(z, parent, zp);
            &&& h.rounds.len() == z.len()
            &&& sumcheck::check_rounds(
                multilinear::mle(frac_sum::up_den(parent), z),
                h.rounds,
                zp,
            ) == Some((multilinear::eq_value(z, zp) * h.leaves[0]) * h.leaves[1])
        }),
{
    let tables = layer_tables(z, parent);
    let comb = combine::<F>();
    multilinear::lemma_pow2_step(z.len() + 1);
    multilinear::lemma_eq_table_len(z);
    multilinear::lemma_eq_table_valid(z);
    assert(gkr::tables_shape(tables, zp.len())) by {
        assert forall|k: int| 0 <= k < 3 implies (#[trigger] tables[k]).len() == pow2(zp.len())
            && algebra::all_valid(tables[k]) by {
            assert forall|i: int| 0 <= i < tables[k].len() implies (#[trigger] tables[k][i]).valid()
                by {
                if k == 1 {
                    assert(parent[2 * i].valid());
                } else if k == 2 {
                    assert(parent[2 * i + 1].valid());
                }
            }
        }
    }
    lemma_combine_cubic::<F>();
    assert forall|v: Seq<F>| v.len() == 3 implies (#[trigger] comb(v)).valid() by {
        F::law_valid(v[0] * v[1], v[2]);
    }
    let u = frac_sum::up_den(parent);
    assert forall|i: int| 0 <= i < u.len() implies (#[trigger] u[i]).valid() by {
        F::law_valid(parent[2 * i], parent[2 * i + 1]);
    }
    multilinear::lemma_mle_sum(u, z);
    let e = multilinear::eq_table(z);
    let f = |i: int| comb(gkr::column(tables, i));
    let g = |i: int| u[i] * e[i];
    assert forall|i: int| 0 <= i < e.len() implies #[trigger] f(i) == g(i) by {
        let c = gkr::column(tables, i);
        assert(c[0] == e[i] && c[1] == parent[2 * i] && c[2] == parent[2 * i + 1]);
        F::law_mul_assoc(e[i], parent[2 * i], parent[2 * i + 1]);
        F::law_mul_comm(e[i], u[i]);
    }
    algebra::sum_ext(e.len(), f, g);
    gkr::lemma_low_complete(tables, comb, zp);
    multilinear::lemma_mle_eq_table(z, zp);
    gkr::lemma_low_rounds_len(tables, comb, zp);
    let tv = gkr::table_values(tables, zp);
    assert(tv[0] == multilinear::eq_value(z, zp));
}

proof fn lemma_products_valid<F: Field>(leaf: Seq<F>, c: nat)
    requires
        algebra::all_valid(leaf),
    ensures
        algebra::all_valid(batch_products(leaf, c)),
{
    if c > 0 {
        let q = batch_products(leaf, (c - 1) as nat);
        let v = batch_products(leaf, c);
        assert forall|i: int| 0 <= i < v.len() implies (#[trigger] v[i]).valid() by {
            F::law_valid(q[2 * i], q[2 * i + 1]);
        }
    }
}

proof fn lemma_claims_true<F: Field>(leaf: Seq<F>, b: nat, c: nat, tape: Seq<F>, s: nat)
    requires
        leaf.len() == pow2(b + c),
        algebra::all_valid(leaf),
        tape.len() == offset(b, c),
        algebra::all_valid(tape),
        s <= c,
    ensures
        claim_at(
            batch_products(leaf, c),
            honest_layers(leaf, b, c, tape),
            b,
            tape,
            s,
        ) == Some(
            multilinear::mle(batch_products(leaf, (c - s) as nat), point_at(tape, b, s)),
        ),
        point_at(tape, b, s).len() == b + s,
    decreases s,
{
    lemma_offset_base(b, c);
    if s == 0 {
        lemma_products_len(leaf, b + c, c);
        lemma_products_valid(leaf, c);
        lemma_weighted_sum(batch_products(leaf, c), point_at(tape, b, 0));
    } else {
        let i = (s - 1) as nat;
        lemma_claims_true(leaf, b, c, tape, i);
        lemma_offset_mono(b, i, c);
        let j = (c - s) as nat;
        lemma_products_len(leaf, b + c, j);
        lemma_products_valid(leaf, j);
        let parent = batch_products(leaf, j);
        let zp = inner_at(tape, b, i);
        assert forall|x: int| 0 <= x < zp.len() implies (#[trigger] zp[x]).valid() by {
            assert(tape[offset(b, i) as int + x].valid());
        }
        assert(c - i == j + 1);
        assert(batch_products(leaf, (j + 1) as nat) == frac_sum::up_den(parent));
        assert((b + c - j) as nat == point_at(tape, b, i).len() + 1);
        lemma_layer_complete(point_at(tape, b, i), parent, zp);
        let honest = honest_layers(leaf, b, c, tape);
        assert(honest[i as int] == honest_layer(point_at(tape, b, i), parent, zp));
        gkr::lemma_split_mean(parent, beta_at(tape, b, i), zp);
    }
}

/// Completeness: verification against the true batch products accepts the honest
/// proof and returns the true value of the leaf polynomial.
pub proof fn law_complete<F: Field>(leaf: Seq<F>, b: nat, c: nat, tape: Seq<F>)
    requires
        leaf.len() == pow2(b + c),
        algebra::all_valid(leaf),
        tape.len() == offset(b, c),
        algebra::all_valid(tape),
    ensures
        verified(batch_products(leaf, c), honest_layers(leaf, b, c, tape), b, tape) == Some(
            (point_at(tape, b, c), multilinear::mle(leaf, point_at(tape, b, c))),
        ),
{
    lemma_claims_true(leaf, b, c, tape, c);
}

/// Rejection of other top values: with the honest layers for `leaf`, verification
/// returns a true value of the leaf polynomial only if the first draws make `top` and
/// the true batch products agree in the one value that is checked.
pub proof fn law_top_bound<F: Field>(
    leaf: Seq<F>,
    top: Seq<F>,
    b: nat,
    c: nat,
    tape: Seq<F>,
    v: F,
)
    requires
        leaf.len() == pow2(b + c),
        top.len() == pow2(b),
        algebra::all_valid(leaf),
        algebra::all_valid(top),
        tape.len() == offset(b, c),
        algebra::all_valid(tape),
        verified(top, honest_layers(leaf, b, c, tape), b, tape) == Some(
            (point_at(tape, b, c), v),
        ),
        c == 0 ==> v == multilinear::mle(leaf, point_at(tape, b, c)),
    ensures
        multilinear::mle(top, tape.take(b as int)) == multilinear::mle(
            batch_products(leaf, c),
            tape.take(b as int),
        ),
{
    let layers = honest_layers(leaf, b, c, tape);
    let z = point_at(tape, b, 0);
    lemma_offset_base(b, c);
    lemma_products_len(leaf, b + c, c);
    lemma_products_valid(leaf, c);
    assert(z =~= tape.take(b as int));
    lemma_weighted_sum(top, z);
    lemma_weighted_sum(batch_products(leaf, c), z);
    if c > 0 {
        if claim_at(top, layers, b, tape, 1) is None {
            lemma_claim_none(top, layers, b, tape, 1, c);
        }
        lemma_claims_true(leaf, b, c, tape, 1);
        assert(claim_at(top, layers, b, tape, 0) == Some(weighted_sum(top, z)));
        assert(claim_at(batch_products(leaf, c), layers, b, tape, 0) == Some(
            weighted_sum(batch_products(leaf, c), z),
        ));
        let layer = layers[0];
        assert(layer_accepted(layer, b, 0, weighted_sum(top, z), tape));
        assert(layer_accepted(
            layer,
            b,
            0,
            weighted_sum(batch_products(leaf, c), z),
            tape,
        ));
    }
}

/// The prover's leaf claim is the true value of the leaf polynomial.
pub proof fn law_leaf_claim<F: Field>(leaf: Seq<F>, b: nat, c: nat, tape: Seq<F>)
    requires
        leaf.len() == pow2(b + c),
        algebra::all_valid(leaf),
        tape.len() == offset(b, c),
    ensures
        leaf_claim(leaf, b, c, tape) == multilinear::mle(leaf, point_at(tape, b, c)),
{
    lemma_offset_base(b, c);
    if c == 0 {
        lemma_weighted_sum(leaf, point_at(tape, b, 0));
    } else {
        let i = (c - 1) as nat;
        lemma_offset_mono(b, i, c);
        assert(b + c == inner_at(tape, b, i).len() + 1);
        gkr::lemma_split_mean(leaf, beta_at(tape, b, i), inner_at(tape, b, i));
    }
}

/// The top values are the products over the batches:
/// `top[i] = prod_k leaf[i 2^c + k]`.
pub proof fn law_batch_product<F: Field>(leaf: Seq<F>, b: nat, c: nat, i: int)
    requires
        leaf.len() == pow2(b + c),
        algebra::all_valid(leaf),
        0 <= i < pow2(b),
    ensures
        batch_products(leaf, c)[i] == algebra::prod(
            pow2(c),
            |k: int| leaf[i * pow2(c) + k],
        ),
    decreases c,
{
    let f = |k: int| leaf[i * pow2(c) + k];
    if c == 0 {
        multilinear::lemma_pow2_zero();
        assert(algebra::prod(0, f) == F::one());
        assert(algebra::prod(1, f) == algebra::prod(0, f) * f(0));
        assert(leaf[i].valid());
        algebra::one_mul(leaf[i]);
    } else {
        let d = (c - 1) as nat;
        let h = pow2(d);
        multilinear::lemma_pow2_step(c);
        multilinear::lemma_pow2_step(b + 1);
        assert((b + 1) as nat + d == b + c);
        law_batch_product(leaf, b + 1, d, 2 * i);
        law_batch_product(leaf, b + 1, d, 2 * i + 1);
        lemma_products_len(leaf, b + c, d);
        let f0 = |k: int| leaf[(2 * i) * h + k];
        let f1 = |k: int| leaf[(2 * i + 1) * h + k];
        lemma_prod_split(h, h, f);
        assert(h + h == pow2(c));
        assert forall|k: int| 0 <= k < h implies #[trigger] f(k) == f0(k) by {
            assert(i * (2 * h) + k == (2 * i) * h + k) by (nonlinear_arith);
        }
        algebra::prod_ext(h, f, f0);
        let g = |k: int| f(h + k);
        assert forall|k: int| 0 <= k < h implies #[trigger] g(k) == f1(k) by {
            assert(i * (2 * h) + (h + k) == (2 * i + 1) * h + k) by (nonlinear_arith);
        }
        algebra::prod_ext(h, g, f1);
    }
}

proof fn lemma_prod_split<F: Field>(m: nat, n: nat, f: spec_fn(int) -> F)
    ensures
        algebra::prod(m + n, f) == algebra::prod(m, f) * algebra::prod(n, |k: int| f(m + k)),
    decreases n,
{
    let g = |k: int| f(m + k);
    if n == 0 {
        algebra::prod_valid(m, f);
        F::law_mul_one(algebra::prod(m, f));
    } else {
        lemma_prod_split(m, (n - 1) as nat, f);
        F::law_mul_assoc(algebra::prod(m, f), algebra::prod((n - 1) as nat, g), g(n - 1));
        assert((m + n - 1) as nat == m + (n - 1) as nat);
    }
}

/// The claim that the proof leaves before reduction `s`, with the top claim as the value
/// of `top` at the first draws.
pub open spec fn claimed<F: Field>(
    top: Seq<F>,
    layers: Seq<LayerView<F>>,
    b: nat,
    tape: Seq<F>,
    s: nat,
) -> F {
    if s == 0 {
        multilinear::mle(top, tape.take(b as int))
    } else {
        let l = layers[s - 1].leaves;
        gkr::mean(l[0], l[1], beta_at(tape, b, (s - 1) as nat))
    }
}

/// The draws of reduction `s` let a false claim pass: a round message meets the round
/// polynomial by chance, or false leaves have the true mean.
pub open spec fn layer_lucky<F: Field>(
    leaf: Seq<F>,
    layers: Seq<LayerView<F>>,
    b: nat,
    tape: Seq<F>,
    s: nat,
) -> bool {
    let parent = batch_products(leaf, (layers.len() - s - 1) as nat);
    let (z, zp, beta) = (point_at(tape, b, s), inner_at(tape, b, s), beta_at(tape, b, s));
    let l = layers[s as int].leaves;
    let h = (multilinear::mle(gkr::evens(parent), zp), multilinear::mle(gkr::odds(parent), zp));
    ||| gkr::lucky(layer_tables(z, parent), combine(), layers[s as int].rounds, zp)
    ||| frac_sum::pairs_meet(
        (l[0], l[1]),
        h,
        gkr::mean(l[0], l[1], beta),
        gkr::mean(h.0, h.1, beta),
    )
}

/// The draws let a false claim pass in some reduction.
pub open spec fn lucky<F: Field>(
    leaf: Seq<F>,
    layers: Seq<LayerView<F>>,
    b: nat,
    tape: Seq<F>,
) -> bool {
    exists|s: nat| s < layers.len() && #[trigger] layer_lucky(leaf, layers, b, tape, s)
}

/// All round messages hold canonical values.
pub open spec fn messages_valid<F: Field>(layers: Seq<LayerView<F>>) -> bool {
    forall|r: int, i: int|
        0 <= r < layers.len() && 0 <= i < layers[r].rounds.len() ==> algebra::all_valid(
            #[trigger] layers[r].rounds[i],
        )
}

proof fn lemma_layer_sound<F: Field>(
    leaf: Seq<F>,
    top: Seq<F>,
    layers: Seq<LayerView<F>>,
    b: nat,
    tape: Seq<F>,
    s: nat,
)
    requires
        leaf.len() == pow2(b + layers.len()),
        top.len() == pow2(b),
        algebra::all_valid(leaf),
        algebra::all_valid(top),
        messages_valid(layers),
        tape.len() == offset(b, layers.len()),
        s < layers.len(),
        claim_at(top, layers, b, tape, (s + 1) as nat) is Some,
        claimed(top, layers, b, tape, (s + 1) as nat) == multilinear::mle(
            batch_products(leaf, (layers.len() - s - 1) as nat),
            point_at(tape, b, (s + 1) as nat),
        ),
    ensures
        claimed(top, layers, b, tape, s) == multilinear::mle(
            batch_products(leaf, (layers.len() - s) as nat),
            point_at(tape, b, s),
        ) || layer_lucky(leaf, layers, b, tape, s),
{
    let c = layers.len();
    let j = (c - s - 1) as nat;
    let parent = batch_products(leaf, j);
    let (z, zp, beta) = (point_at(tape, b, s), inner_at(tape, b, s), beta_at(tape, b, s));
    let l = layers[s as int].leaves;
    let rounds = layers[s as int].rounds;
    lemma_products_len(leaf, b + c, j);
    lemma_products_valid(leaf, j);
    lemma_offset_base(b, c);
    lemma_offset_mono(b, s, c);
    if s > 0 {
        lemma_offset_mono(b, (s - 1) as nat, c);
    }
    assert(z.len() == b + s);
    assert(zp.len() == b + s);
    assert((b + c - j) as nat == z.len() + 1);
    assert(point_at(tape, b, (s + 1) as nat) == seq![beta] + zp);
    gkr::lemma_split_mean(parent, beta, zp);
    assert(point_at(tape, b, 0) =~= tape.take(b as int));
    lemma_weighted_sum(top, point_at(tape, b, 0));
    let cur = claimed(top, layers, b, tape, s);
    assert(claim_at(top, layers, b, tape, s) == Some(cur));
    if !layer_lucky(leaf, layers, b, tape, s) {
        let tables = layer_tables(z, parent);
        let comb = combine::<F>();
        multilinear::lemma_pow2_step(z.len() + 1);
        multilinear::lemma_eq_table_len(z);
        multilinear::lemma_eq_table_valid(z);
        assert(gkr::tables_shape(tables, zp.len())) by {
            assert forall|k: int| 0 <= k < 3 implies (#[trigger] tables[k]).len() == pow2(
                zp.len(),
            ) && algebra::all_valid(tables[k]) by {
                assert forall|i: int| 0 <= i < tables[k].len() implies (
                #[trigger] tables[k][i]).valid() by {
                    if k == 1 {
                        assert(parent[2 * i].valid());
                    } else if k == 2 {
                        assert(parent[2 * i + 1].valid());
                    }
                }
            }
        }
        assert forall|v: Seq<F>| v.len() == 3 implies (#[trigger] comb(v)).valid() by {
            F::law_valid(v[0] * v[1], v[2]);
        }
        multilinear::lemma_mle_eq_table(z, zp);
        let tv = gkr::table_values(tables, zp);
        assert(tv[0] == multilinear::eq_value(z, zp));
        assert(tv[1] == l[0] && tv[2] == l[1]);
        assert forall|i: int| 0 <= i < rounds.len() implies algebra::all_valid(
            #[trigger] rounds[i],
        ) by {
            assert(algebra::all_valid(layers[s as int].rounds[i]));
        }
        gkr::law_low_sound(cur, tables, comb, rounds, zp);
        let u = frac_sum::up_den(parent);
        assert forall|i: int| 0 <= i < u.len() implies (#[trigger] u[i]).valid() by {
            F::law_valid(parent[2 * i], parent[2 * i + 1]);
        }
        multilinear::lemma_mle_sum(u, z);
        let e = multilinear::eq_table(z);
        let f = |i: int| comb(Seq::new(tables.len(), |x: int| tables[x][i]));
        let g = |i: int| u[i] * e[i];
        assert forall|i: int| 0 <= i < e.len() implies #[trigger] f(i) == g(i) by {
            let v = Seq::new(tables.len(), |x: int| tables[x][i]);
            assert(v[0] == e[i] && v[1] == parent[2 * i] && v[2] == parent[2 * i + 1]);
            F::law_mul_assoc(e[i], parent[2 * i], parent[2 * i + 1]);
            F::law_mul_comm(e[i], u[i]);
        }
        algebra::sum_ext(e.len(), f, g);
        assert(batch_products(leaf, (j + 1) as nat) == u);
    }
}

proof fn lemma_sound_from<F: Field>(
    leaf: Seq<F>,
    top: Seq<F>,
    layers: Seq<LayerView<F>>,
    b: nat,
    tape: Seq<F>,
    s: nat,
)
    requires
        leaf.len() == pow2(b + layers.len()),
        top.len() == pow2(b),
        algebra::all_valid(leaf),
        algebra::all_valid(top),
        messages_valid(layers),
        tape.len() == offset(b, layers.len()),
        s <= layers.len(),
        claim_at(top, layers, b, tape, layers.len()) is Some,
        claimed(top, layers, b, tape, layers.len()) == multilinear::mle(
            leaf,
            point_at(tape, b, layers.len()),
        ),
    ensures
        claim_at(top, layers, b, tape, s) is Some,
        claimed(top, layers, b, tape, s) == multilinear::mle(
            batch_products(leaf, (layers.len() - s) as nat),
            point_at(tape, b, s),
        ) || lucky(leaf, layers, b, tape),
    decreases layers.len() - s,
{
    if s < layers.len() {
        lemma_sound_from(leaf, top, layers, b, tape, (s + 1) as nat);
        if !lucky(leaf, layers, b, tape) {
            lemma_layer_sound(leaf, top, layers, b, tape, s);
        }
    }
}

/// Soundness, whoever made the proof: if the value that verification returns is that of
/// `leaf` at the returned point, the top values and the products over the batches of
/// `leaf` have one value at the first draws, unless a later draw lets a false claim pass.
pub proof fn law_sound<F: Field>(
    leaf: Seq<F>,
    top: Seq<F>,
    layers: Seq<LayerView<F>>,
    b: nat,
    tape: Seq<F>,
    z: Seq<F>,
)
    requires
        leaf.len() == pow2(b + layers.len()),
        top.len() == pow2(b),
        algebra::all_valid(leaf),
        algebra::all_valid(top),
        messages_valid(layers),
        tape.len() == offset(b, layers.len()),
        verified(top, layers, b, tape) == Some((z, multilinear::mle(leaf, z))),
    ensures
        z.len() == b + layers.len(),
        multilinear::mle(top, tape.take(b as int)) == multilinear::mle(
            Seq::new(
                pow2(b),
                |i: int|
                    algebra::prod(pow2(layers.len()), |k: int| leaf[i * pow2(layers.len()) + k]),
            ),
            tape.take(b as int),
        ) || lucky(leaf, layers, b, tape),
{
    let c = layers.len();
    lemma_offset_base(b, c);
    if c > 0 {
        lemma_offset_mono(b, (c - 1) as nat, c);
    }
    assert(point_at(tape, b, 0) =~= tape.take(b as int));
    lemma_weighted_sum(top, point_at(tape, b, 0));
    assert(claim_at(top, layers, b, tape, c) == Some(claimed(top, layers, b, tape, c)));
    lemma_sound_from(leaf, top, layers, b, tape, 0);
    lemma_products_len(leaf, b + c, c);
    let want = Seq::new(
        pow2(b),
        |i: int| algebra::prod(pow2(c), |k: int| leaf[i * pow2(c) + k]),
    );
    assert forall|i: int| 0 <= i < pow2(b) implies #[trigger] want[i] == batch_products(leaf, c)[i]
        by {
        law_batch_product(leaf, b, c, i);
    }
    assert(want =~= batch_products(leaf, c));
}

} // verus!
