//! Sums over features: the LayerNorm variance and dividend, and the softmax sum.
//!
//! Three relations bind committed tensors to the residual stream:
//! - the variance `D * sum_c x[c]^2 - (sum_c x[c])^2` of every row,
//! - the dividend `gain[c] * (D * x[c] - sum_c x[c])` of every entry,
//! - the softmax sum `sum_k exp[k]` of every real row of a real head.
//!
//! The first two hold only on the hypercube, so each rides on a product sumcheck
//! over all normalizations at once, weighted by powers of a challenge. A sum over
//! all columns is the polynomial at one half in every column variable, times the
//! number of columns.
use vstd::prelude::*;
use vstd::arithmetic::power2::pow2;
use crate::algebra;
use crate::field::Field;
use crate::gkr;
use crate::multilinear;
use crate::pcs::domain;
use crate::proofsys::canonical;
use crate::proofsys::canonical::{Kind, EXP, SUM_EXP, X_OUT};
use crate::proofsys::commit;
use crate::proofsys::commit::{ClaimAccumulator, CommitSet, OracleClaimView};
use crate::proofsys::grid;
use crate::proofsys::grid::Grid;
use crate::proofsys::model::ModelWeights;
use crate::proofsys::protocol::EF;
use crate::proofsys::reduce;
use crate::proofsys::residual;
use crate::proofsys::residual::ResidualSource;
use crate::proofsys::tensor::Matrix;
use crate::proofsys::witness::{Config, Witness};
use crate::utils::oracle::RandomOracle;
use crate::utils::poly;
use crate::utils::poly::MlPoly;
use crate::utils::sumcheck;
use crate::utils::sumcheck::SumcheckProof;
use crate::views;

verus! {

/// One half.
pub open spec fn half() -> EF {
    (EF::one() + EF::one()).inv()
}

/// One half in every variable.
pub open spec fn halves(n: nat) -> Seq<EF> {
    Seq::new(n, |i: int| half())
}

/// One half in every variable.
fn half_point(n: usize) -> (r: Vec<EF>)
    ensures
        r@ == halves(n as nat),
{
    let two = EF::new_one().add(EF::new_one());
    proof {
        EF::law_embed(1, 1);
        EF::law_embed(2, 2);
    }
    let h = two.inverse();
    let mut out: Vec<EF> = Vec::new();
    let mut i: usize = 0;
    while i < n
        invariant
            i <= n,
            h == half(),
            out@ == halves(i as nat),
        decreases n - i,
    {
        out.push(h);
        assert(out@ =~= halves((i + 1) as nat));
        i += 1;
    }
    out
}

/// The powers `1, g, .., g^(n-1)`.
fn power_list(g: EF, n: usize) -> (r: Vec<EF>)
    ensures
        r@ == Seq::new(n as nat, |i: int| domain::pow(g, i as nat)),
{
    let mut out: Vec<EF> = Vec::new();
    let mut cur = EF::new_one();
    let mut i: usize = 0;
    while i < n
        invariant
            i <= n,
            cur == domain::pow(g, i as nat),
            out@ == Seq::new(i as nat, |i: int| domain::pow(g, i as nat)),
        decreases n - i,
    {
        out.push(cur);
        proof {
            assert(out@ =~= Seq::new((i + 1) as nat, |i: int| domain::pow(g, i as nat)));
            algebra::mul_comm(g, cur);
        }
        cur = cur.mul(g);
        i += 1;
    }
    out
}

/// Number of normalizations.
pub open spec fn norm_count(config: Config) -> nat {
    (2 * config.n_layer + 1) as nat
}

/// Variables of the column.
pub open spec fn col_bits(config: Config) -> nat {
    canonical::col_bits(config, Kind::ALn)
}

/// Variables of the row.
pub open spec fn row_bits(config: Config) -> nat {
    canonical::row_bits(config, Kind::ALn)
}

/// Variables of one normalization's element.
pub open spec fn elem_bits(config: Config) -> nat {
    canonical::elem_bits(config, Kind::ALn)
}

/// Variables of the normalization index.
pub open spec fn inst_bits(config: Config) -> nat {
    canonical::inst_bits(config, Kind::ALn)
}

/// The lengths of the tables.
pub proof fn lemma_feature_sizes(config: Config)
    requires
        canonical::sizes_fit(config),
    ensures
        elem_bits(config) == col_bits(config) + row_bits(config),
        elem_bits(config) == canonical::elem_bits(config, Kind::XOut),
        row_bits(config) == canonical::elem_bits(config, Kind::Var),
        inst_bits(config) == canonical::inst_bits(config, Kind::Var),
        pow2(col_bits(config)) <= usize::MAX,
        pow2(row_bits(config)) <= usize::MAX,
        pow2(inst_bits(config)) <= usize::MAX,
        pow2(elem_bits(config)) <= usize::MAX,
        pow2(elem_bits(config) + inst_bits(config)) <= usize::MAX,
        pow2(row_bits(config) + inst_bits(config)) <= usize::MAX,
        pow2(elem_bits(config)) == pow2(row_bits(config)) * pow2(col_bits(config)),
        pow2(elem_bits(config) + inst_bits(config)) == pow2(inst_bits(config)) * pow2(
            elem_bits(config),
        ),
        pow2(row_bits(config) + inst_bits(config)) == pow2(inst_bits(config)) * pow2(
            row_bits(config),
        ),
        pow2(elem_bits(config) + inst_bits(config)) == pow2(row_bits(config) + inst_bits(config))
            * pow2(col_bits(config)),
        norm_count(config) <= pow2(inst_bits(config)),
        0 < pow2(col_bits(config)),
        0 < pow2(row_bits(config)),
        0 < pow2(elem_bits(config)),
        elem_bits(config) + inst_bits(config) < 64,
{
    let (c, r, i) = (col_bits(config), row_bits(config), inst_bits(config));
    canonical::lemma_sizes(config, Kind::ALn);
    multilinear::lemma_pow2_zero();
    commit::lemma_ceil_log(1, 0);
    multilinear::lemma_pow2_mono(0, c);
    multilinear::lemma_pow2_mono(0, r);
    multilinear::lemma_pow2_mono(0, c + r);
    multilinear::lemma_pow2_mono(r + i, c + r + i);
    vstd::arithmetic::power2::lemma_pow2_adds(i, r);
    vstd::arithmetic::power2::lemma_pow2_adds(r + i, c);
    assert(i + r == r + i && r + i + c == c + r + i);
}

/// Element `e` of normalization `i`'s input.
pub open spec fn input_at(
    polys: Map<Seq<char>, Seq<EF>>,
    config: Config,
    x0: Grid,
    i: int,
    e: int,
) -> EF {
    match residual::norm_source(config, i) {
        ResidualSource::XOut(j) => polys[X_OUT@][j * pow2(elem_bits(config)) + e],
        ResidualSource::X0 => residual::embedding_table(config, x0)[e],
    }
}

/// The stacked inputs at position `k`.
pub open spec fn x_at(
    polys: Map<Seq<char>, Seq<EF>>,
    config: Config,
    x0: Grid,
    k: int,
) -> EF {
    let m = pow2(elem_bits(config)) as int;
    if k / m < norm_count(config) {
        input_at(polys, config, x0, k / m, k % m)
    } else {
        EF::zero()
    }
}

/// The inputs of all normalizations, stacked.
pub open spec fn x_table(polys: Map<Seq<char>, Seq<EF>>, config: Config, x0: Grid) -> Seq<EF> {
    Seq::new(
        pow2(elem_bits(config) + inst_bits(config)),
        |k: int| x_at(polys, config, x0, k),
    )
}

/// The sum of row `k`.
pub open spec fn row_sum_at(x: Seq<EF>, cp: nat, k: int) -> EF {
    algebra::sum(cp, |c: int| x[k * cp + c])
}

/// The sums of rows of length `cp`.
pub open spec fn row_sums(x: Seq<EF>, cp: nat, n: nat) -> Seq<EF> {
    Seq::new(n, |k: int| row_sum_at(x, cp, k))
}

/// The weight at position `k` of rows of length `cp`: the equality weight of the
/// row within its block, times a power of `gamma` for the block.
pub open spec fn block_weight_at(rho: Seq<EF>, gamma: EF, cp: nat, k: int) -> EF {
    let rp = pow2(rho.len());
    multilinear::eq_table(rho)[(k / cp as int) % rp as int] * domain::pow(
        gamma,
        ((k / cp as int) / rp as int) as nat,
    )
}

/// The weights of `n` positions.
pub open spec fn block_weights(rho: Seq<EF>, gamma: EF, cp: nat, n: nat) -> Seq<EF> {
    Seq::new(n, |k: int| block_weight_at(rho, gamma, cp, k))
}

/// The gain of normalization `i`.
pub open spec fn gain_of(config: Config, w: ModelWeights, i: int) -> Seq<int> {
    if i == 2 * config.n_layer {
        grid::ints(w.ln_f_g@)
    } else if i % 2 == 0 {
        grid::ints(w.blocks@[i / 2].ln_1_g@)
    } else {
        grid::ints(w.blocks@[i / 2].ln_2_g@)
    }
}

/// The gain at position `k`, repeated over all rows.
pub open spec fn gain_at(config: Config, w: ModelWeights, k: int) -> EF {
    let (i, c) = (k / pow2(elem_bits(config)) as int, k % pow2(col_bits(config)) as int);
    if i < norm_count(config) && c < config.d_model {
        EF::embed(gain_of(config, w, i)[c])
    } else {
        EF::zero()
    }
}

/// The gains of all normalizations.
pub open spec fn gain_table(config: Config, w: ModelWeights) -> Seq<EF> {
    Seq::new(
        pow2(elem_bits(config) + inst_bits(config)),
        |k: int| gain_at(config, w, k),
    )
}

/// `d * x - row sum`.
pub open spec fn centred_table(x: Seq<EF>, sums: Seq<EF>, cp: nat, d: EF) -> Seq<EF> {
    Seq::new(x.len(), |k: int| d * x[k] - sums[k / cp as int])
}

/// `sum_k w[k] * p[k]^2`.
pub open spec fn weighted_squares(w: Seq<EF>, p: Seq<EF>) -> EF {
    algebra::sum(p.len(), |k: int| (w[k] * p[k]) * p[k])
}

/// The normalization inputs at element point `p`.
pub open spec fn inputs_at(
    polys: Map<Seq<char>, Seq<EF>>,
    config: Config,
    x0: Grid,
    p: Seq<EF>,
) -> Seq<EF> {
    Seq::new(
        norm_count(config),
        |i: int| residual::source_value(polys, config, x0, p, residual::norm_source(config, i)),
    )
}

/// The claims left by the first `n` inputs.
pub open spec fn input_claims(config: Config, p: Seq<EF>, vals: Seq<EF>, n: nat) -> Seq<
    OracleClaimView,
>
    decreases n,
{
    if n == 0 {
        Seq::empty()
    } else {
        input_claims(config, p, vals, (n - 1) as nat) + residual::source_claims(
            config,
            p,
            residual::norm_source(config, n - 1),
            vals[n - 1],
        )
    }
}

/// The sent inputs are complete, and agree with the public embedding.
pub open spec fn inputs_ok(config: Config, x0: Grid, p: Seq<EF>, sent: Seq<EF>) -> bool {
    &&& sent.len() == norm_count(config)
    &&& sent[0] == multilinear::mle(residual::embedding_table(config, x0), p)
}

/// The combination with the equality weights of the index point.
pub open spec fn combined(inst: Seq<EF>, vals: Seq<EF>) -> EF {
    algebra::sum(vals.len(), |i: int| multilinear::eq_table(inst)[i] * vals[i])
}

/// The instances of a kind at element point `p`.
pub open spec fn kind_values(
    polys: Map<Seq<char>, Seq<EF>>,
    config: Config,
    kind: Kind,
    p: Seq<EF>,
) -> Seq<EF> {
    Seq::new(
        norm_count(config),
        |i: int| residual::slice_value(polys, config, kind, p, i),
    )
}

/// The claims left by the first `n` instances of a kind.
pub open spec fn kind_claims(
    config: Config,
    kind: Kind,
    p: Seq<EF>,
    vals: Seq<EF>,
    n: nat,
) -> Seq<OracleClaimView>
    decreases n,
{
    if n == 0 {
        Seq::empty()
    } else {
        kind_claims(config, kind, p, vals, (n - 1) as nat).push(
            commit::opening(kind.text(), residual::slice(config, kind, p, n - 1), vals[n - 1]),
        )
    }
}

/// `sum_i gamma^i * vals[i]`.
pub open spec fn gamma_sum(gamma: EF, vals: Seq<EF>) -> EF {
    algebra::sum(vals.len(), |i: int| domain::pow(gamma, i as nat) * vals[i])
}

/// The proof of all three relations.
pub struct SumFeatProof {
    pub q2_claim: EF,
    pub q2: SumcheckProof<EF>,
    pub q2_x: Vec<EF>,
    pub sq_claim: EF,
    pub sq: SumcheckProof<EF>,
    pub sq_x: Vec<EF>,
    pub var_v: Vec<EF>,
    pub aln_claim: EF,
    pub aln: SumcheckProof<EF>,
    pub aln_x: Vec<EF>,
    pub aln_sumx: Vec<EF>,
    pub aln_v: Vec<EF>,
    pub se: SumcheckProof<EF>,
    pub se_sum: EF,
    pub se_exp: EF,
}

/// The variance relation.
pub struct VarPart {
    pub q2_claim: EF,
    pub q2: SumcheckProof<EF>,
    pub q2_x: Vec<EF>,
    pub sq_claim: EF,
    pub sq: SumcheckProof<EF>,
    pub sq_x: Vec<EF>,
    pub var_v: Vec<EF>,
}

/// The dividend relation.
pub struct DividendPart {
    pub claim: EF,
    pub proof: SumcheckProof<EF>,
    pub x: Vec<EF>,
    pub sumx: Vec<EF>,
    pub v: Vec<EF>,
}

/// The softmax sum relation.
pub struct SumExpPart {
    pub proof: SumcheckProof<EF>,
    pub sum: EF,
    pub exp: EF,
}

impl SumFeatProof {
    pub open spec fn var_part(self) -> VarPart {
        VarPart {
            q2_claim: self.q2_claim,
            q2: self.q2,
            q2_x: self.q2_x,
            sq_claim: self.sq_claim,
            sq: self.sq,
            sq_x: self.sq_x,
            var_v: self.var_v,
        }
    }

    pub open spec fn dividend_part(self) -> DividendPart {
        DividendPart {
            claim: self.aln_claim,
            proof: self.aln,
            x: self.aln_x,
            sumx: self.aln_sumx,
            v: self.aln_v,
        }
    }

    pub open spec fn sum_exp_part(self) -> SumExpPart {
        SumExpPart { proof: self.se, sum: self.se_sum, exp: self.se_exp }
    }

    /// Number of field elements.
    pub open spec fn element_count(self) -> nat {
        5 + self.q2.element_count() + self.sq.element_count() + self.aln.element_count()
            + self.se.element_count() + self.q2_x@.len() + self.sq_x@.len() + self.var_v@.len()
            + self.aln_x@.len() + self.aln_sumx@.len() + self.aln_v@.len()
    }

    /// Size in bytes of all field elements.
    pub fn size_bytes(&self) -> (r: usize)
        requires
            self.element_count() * EF::byte_size() <= usize::MAX,
        ensures
            r == self.element_count() * EF::byte_size(),
    {
        let ef: usize = EF::size();
        assert(ef == 16);
        2 * ef + self.q2.size_bytes() + self.sq.size_bytes() + ef * self.q2_x.len() + ef
            * self.sq_x.len() + ef * self.var_v.len() + ef + self.aln.size_bytes() + ef
            * self.aln_x.len() + ef * self.aln_sumx.len() + ef * self.aln_v.len()
            + self.se.size_bytes() + 2 * ef
    }
}

/// The residual outputs are stored.
pub open spec fn inputs_ready(
    polys: Map<Seq<char>, Seq<EF>>,
    config: Config,
    x0: Matrix,
) -> bool {
    &&& canonical::sizes_fit(config)
    &&& residual::holds_kind(polys, config, Kind::XOut)
    &&& x0.wf()
    &&& config.n_layer > 0
    &&& residual::embeds(config, x0.grid())
}

/// The inputs of all normalizations, stacked.
fn gather_x_ln(set: &CommitSet, config: &Config, x0: &Matrix) -> (r: Vec<EF>)
    requires
        inputs_ready(set.kept(), *config, *x0),
    ensures
        r@ == x_table(set.kept(), *config, x0.grid()),
{
    proof {
        canonical::lemma_layout_fits(*config, Kind::ALn);
    }
    let lay = canonical::layout_of(config, Kind::ALn);
    let ghost polys = set.kept();
    proof {
        lemma_feature_sizes(*config);
        canonical::lemma_sizes(*config, Kind::XOut);
    }
    let elem: usize = commit::two_to(lay.elem_vars());
    let total: usize = commit::two_to(lay.num_vars());
    let xout = &set.prover_data(X_OUT).unwrap().0;
    let x0e = residual::x0_elem(config, x0);
    let mut out: Vec<EF> = Vec::new();
    let mut k: usize = 0;
    while k < total
        invariant
            k <= total,
            canonical::sizes_fit(*config),
            config.n_layer > 0,
            elem == pow2(elem_bits(*config)),
            elem > 0,
            xout@ == polys[X_OUT@],
            xout@.len() == pow2(canonical::inst_bits(*config, Kind::XOut)) * elem,
            2 * config.n_layer <= pow2(canonical::inst_bits(*config, Kind::XOut)),
            x0e@ == residual::embedding_table(*config, x0.grid()),
            x0e@.len() == elem,
            out@.len() == k,
            forall|j: int| 0 <= j < k ==> #[trigger] out@[j] == x_at(polys, *config, x0.grid(), j),
        decreases total - k,
    {
        let (i, e): (usize, usize) = (k / elem, k % elem);
        let mut v: EF = EF::new_zero();
        if i <= 2 * config.n_layer {
            v = match residual::ln_input_source(config, i) {
                ResidualSource::XOut(j) => {
                    proof {
                        grid::lemma_cell(
                            pow2(canonical::inst_bits(*config, Kind::XOut)),
                            elem as nat,
                            j as int,
                            e as int,
                        );
                        assert(0 <= j * elem) by (nonlinear_arith);
                    }
                    assert(xout.len() == xout@.len());
                    xout[j * elem + e]
                },
                ResidualSource::X0 => x0e[e],
            };
        }
        out.push(v);
        k += 1;
    }
    assert(out@ =~= x_table(polys, *config, x0.grid()));
    out
}

/// The sums of rows of length `cp`.
fn gather_sum_x(x: &Vec<EF>, cp: usize, n: usize) -> (r: Vec<EF>)
    requires
        x@.len() == n * cp,
    ensures
        r@ == row_sums(x@, cp as nat, n as nat),
{
    let mut out: Vec<EF> = Vec::new();
    let mut k: usize = 0;
    while k < n
        invariant
            k <= n,
            x@.len() == n * cp,
            out@ == row_sums(x@, cp as nat, k as nat),
        decreases n - k,
    {
        let mut s = EF::new_zero();
        let mut c: usize = 0;
        let ghost f = |c: int| x@[k * cp + c];
        while c < cp
            invariant
                c <= cp,
                k < n,
                x@.len() == n * cp,
                f == (|c: int| x@[k * cp + c]),
                s == algebra::sum(c as nat, f),
            decreases cp - c,
        {
            assert(x.len() == x@.len());
            proof {
                grid::lemma_cell(n as nat, cp as nat, k as int, c as int);
                assert(0 <= k * cp) by (nonlinear_arith);
            }
            s = s.add(x[k * cp + c]);
            c += 1;
        }
        out.push(s);
        assert(out@ =~= row_sums(x@, cp as nat, (k + 1) as nat));
        k += 1;
    }
    out
}

/// The weights of `n` positions in rows of length `cp`.
fn weight_eq_gamma(rho: &[EF], gamma: EF, cp: usize, blocks: usize, n: usize) -> (r: Vec<EF>)
    requires
        pow2(rho@.len()) <= usize::MAX,
        cp > 0,
        n == blocks * (pow2(rho@.len()) * cp),
    ensures
        r@ == block_weights(rho@, gamma, cp as nat, n as nat),
{
    let eq = gkr::eq_table(rho);
    let powers = power_list(gamma, blocks);
    let mut out: Vec<EF> = Vec::new();
    let mut k: usize = 0;
    proof {
        multilinear::lemma_eq_table_len(rho@);
        multilinear::lemma_pow2_mono(0, rho@.len());
        multilinear::lemma_pow2_zero();
        let rp = pow2(rho@.len()) as int;
        assert(blocks * (rp * cp) == (blocks * rp) * cp) by (nonlinear_arith);
    }
    let rp: usize = eq.len();
    while k < n
        invariant
            k <= n,
            cp > 0,
            rp > 0,
            rp == pow2(rho@.len()),
            n == (blocks * rp) * cp,
            eq@ == multilinear::eq_table(rho@),
            eq@.len() == rp,
            powers@ == Seq::new(blocks as nat, |i: int| domain::pow(gamma, i as nat)),
            out@ == block_weights(rho@, gamma, cp as nat, k as nat),
        decreases n - k,
    {
        let row: usize = k / cp;
        proof {
            grid::lemma_position((blocks * rp) as nat, cp as nat, k as int);
            grid::lemma_position(blocks as nat, rp as nat, row as int);
        }
        out.push(eq[row % rp].mul(powers[row / rp]));
        assert(out@ =~= block_weights(rho@, gamma, cp as nat, (k + 1) as nat));
        k += 1;
    }
    out
}

/// The gain of a normalization.
fn gain_for<'a>(config: &Config, weights: &'a ModelWeights, i: usize) -> (r: &'a Vec<i64>)
    requires
        weights.wf(*config),
        weights.blocks@.len() == config.n_layer,
        2 * config.n_layer <= usize::MAX,
        i <= 2 * config.n_layer,
    ensures
        grid::ints(r@) == gain_of(*config, *weights, i as int),
        r@.len() == config.d_model,
{
    if i == 2 * config.n_layer {
        return &weights.ln_f_g;
    }
    assert(weights.blocks@[i as int / 2].wf(*config));
    if i % 2 == 0 {
        &weights.blocks[i / 2].ln_1_g
    } else {
        &weights.blocks[i / 2].ln_2_g
    }
}

/// The weights of the model fit its configuration.
pub open spec fn weights_ready(config: Config, w: ModelWeights) -> bool {
    &&& canonical::sizes_fit(config)
    &&& w.wf(config)
    &&& w.blocks@.len() == config.n_layer
}

/// The gains of all normalizations, repeated over all rows.
fn gather_gain(config: &Config, weights: &ModelWeights) -> (r: Vec<EF>)
    requires
        weights_ready(*config, *weights),
    ensures
        r@ == gain_table(*config, *weights),
{
    proof {
        canonical::lemma_layout_fits(*config, Kind::ALn);
    }
    let lay = canonical::layout_of(config, Kind::ALn);
    proof {
        lemma_feature_sizes(*config);
    }
    let elem: usize = commit::two_to(lay.elem_vars());
    let total: usize = commit::two_to(lay.num_vars());
    let cp: usize = lay.col_pow;
    let mut out: Vec<EF> = Vec::new();
    let mut k: usize = 0;
    while k < total
        invariant
            k <= total,
            weights_ready(*config, *weights),
            elem == pow2(elem_bits(*config)),
            elem > 0,
            cp == pow2(col_bits(*config)),
            cp > 0,
            out@.len() == k,
            forall|j: int| 0 <= j < k ==> #[trigger] out@[j] == gain_at(*config, *weights, j),
        decreases total - k,
    {
        let (i, c): (usize, usize) = (k / elem, k % cp);
        let mut v: EF = EF::new_zero();
        if i <= 2 * config.n_layer && c < config.d_model {
            let g = gain_for(config, weights, i);
            assert(grid::ints(g@)[c as int] == g@[c as int] as int);
            v = canonical::ef(g[c]);
        }
        out.push(v);
        k += 1;
    }
    assert(out@ =~= gain_table(*config, *weights));
    out
}

/// `d * x - row sum`.
fn build_g(x: &Vec<EF>, sums: &Vec<EF>, cp: usize, d: EF) -> (r: Vec<EF>)
    requires
        cp > 0,
        x@.len() == sums@.len() * cp,
    ensures
        r@ == centred_table(x@, sums@, cp as nat, d),
{
    let mut out: Vec<EF> = Vec::new();
    let mut k: usize = 0;
    while k < x.len()
        invariant
            k <= x@.len(),
            cp > 0,
            x@.len() == sums@.len() * cp,
            out@.len() == k,
            forall|j: int|
                0 <= j < k ==> #[trigger] out@[j] == d * x@[j] - sums@[j / cp as int],
        decreases x.len() - k,
    {
        proof {
            grid::lemma_position(sums@.len(), cp as nat, k as int);
        }
        assert(sums.len() == sums@.len());
        out.push(d.mul(x[k]).sub(sums[k / cp]));
        k += 1;
    }
    assert(out@ =~= centred_table(x@, sums@, cp as nat, d));
    out
}

/// `sum_k w[k] * p[k]^2`.
fn weighted_self_prod(w: &Vec<EF>, p: &Vec<EF>) -> (r: EF)
    requires
        w@.len() == p@.len(),
    ensures
        r == weighted_squares(w@, p@),
{
    let mut acc = EF::new_zero();
    let mut k: usize = 0;
    let ghost f = |k: int| (w@[k] * p@[k]) * p@[k];
    while k < p.len()
        invariant
            k <= p@.len(),
            w@.len() == p@.len(),
            f == (|k: int| (w@[k] * p@[k]) * p@[k]),
            acc == algebra::sum(k as nat, f),
        decreases p.len() - k,
    {
        assert(w.len() == w@.len());
        acc = acc.add(w[k].mul(p[k]).mul(p[k]));
        k += 1;
    }
    acc
}

/// Opens the inputs of all normalizations at an element point.
fn combine_x_prove(
    set: &CommitSet,
    config: &Config,
    x0: &Matrix,
    elem_point: &[EF],
    acc: &mut ClaimAccumulator,
) -> (r: Vec<EF>)
    requires
        inputs_ready(set.kept(), *config, *x0),
        elem_point@.len() == elem_bits(*config),
    ensures
        r@ == inputs_at(set.kept(), *config, x0.grid(), elem_point@),
        final(acc).contents() == old(acc).contents() + input_claims(
            *config,
            elem_point@,
            r@,
            norm_count(*config),
        ),
{
    let ghost before = acc.contents();
    let ghost goal = inputs_at(set.kept(), *config, x0.grid(), elem_point@);
    let n: usize = 2 * config.n_layer + 1;
    let mut out: Vec<EF> = Vec::new();
    let mut i: usize = 0;
    proof {
        lemma_feature_sizes(*config);
        assert(before + input_claims(*config, elem_point@, goal, 0) =~= before);
    }
    while i < n
        invariant
            i <= n,
            n == norm_count(*config),
            inputs_ready(set.kept(), *config, *x0),
            elem_point@.len() == canonical::elem_bits(*config, Kind::XOut),
            goal == inputs_at(set.kept(), *config, x0.grid(), elem_point@),
            out@ == goal.take(i as int),
            acc.contents() == before + input_claims(*config, elem_point@, goal, i as nat),
        decreases n - i,
    {
        let v = residual::open_x(set, config, x0, elem_point, i, acc);
        out.push(v);
        proof {
            assert(goal[i as int] == v);
            assert(goal.take(i + 1) =~= goal.take(i as int).push(v));
            assert(acc.contents() =~= before + input_claims(
                *config,
                elem_point@,
                goal,
                (i + 1) as nat,
            ));
        }
        i += 1;
    }
    assert(goal.take(n as int) =~= goal);
    out
}

/// Takes the sent inputs at an element point and combines them with the equality
/// weights of the index point. `None` if they are incomplete or disagree with the
/// public embedding.
fn combine_x_verify(
    config: &Config,
    x0: &Matrix,
    elem_point: &[EF],
    inst_point: &[EF],
    sent: &Vec<EF>,
    acc: &mut ClaimAccumulator,
) -> (r: Option<EF>)
    requires
        canonical::sizes_fit(*config),
        x0.wf(),
        sent@.len() == norm_count(*config) ==> config.n_layer > 0 && residual::embeds(
            *config,
            x0.grid(),
        ),
        elem_point@.len() == elem_bits(*config),
        inst_point@.len() == inst_bits(*config),
    ensures
        r == (if inputs_ok(*config, x0.grid(), elem_point@, sent@) {
            Some(combined(inst_point@, sent@))
        } else {
            None
        }),
        r is Some ==> final(acc).contents() == old(acc).contents() + input_claims(
            *config,
            elem_point@,
            sent@,
            norm_count(*config),
        ),
        r is None ==> final(acc).contents() == old(acc).contents(),
{
    let ghost before = acc.contents();
    let n: usize = 2 * config.n_layer + 1;
    if sent.len() != n {
        return None;
    }
    proof {
        lemma_feature_sizes(*config);
        multilinear::lemma_eq_table_len(inst_point@);
        assert(before + input_claims(*config, elem_point@, sent@, 0) =~= before);
    }
    let x0e = residual::x0_elem(config, x0);
    let expected = MlPoly(x0e).eval(elem_point);
    let mut total = EF::new_zero();
    let mut i: usize = 0;
    let ghost f = |i: int| multilinear::eq_table(inst_point@)[i] * sent@[i];
    while i < n
        invariant
            i <= n,
            n == norm_count(*config),
            n == sent@.len(),
            canonical::sizes_fit(*config),
            config.n_layer > 0,
            before == old(acc).contents(),
            norm_count(*config) <= pow2(inst_point@.len()),
            expected == multilinear::mle(
                residual::embedding_table(*config, x0.grid()),
                elem_point@,
            ),
            i > 0 ==> sent@[0] == expected,
            f == (|i: int| multilinear::eq_table(inst_point@)[i] * sent@[i]),
            total == algebra::sum(i as nat, f),
            acc.contents() == before + input_claims(*config, elem_point@, sent@, i as nat),
        decreases n - i,
    {
        let v = sent[i];
        match residual::ln_input_source(config, i) {
            ResidualSource::XOut(j) => {
                residual::claim_slice(config, Kind::XOut, elem_point, j, v, acc);
            },
            ResidualSource::X0 => {
                if !v.equals(expected) {
                    return None;
                }
            },
        }
        proof {
            assert(acc.contents() =~= before + input_claims(
                *config,
                elem_point@,
                sent@,
                (i + 1) as nat,
            ));
            vstd::arithmetic::div_mod::lemma_small_mod(i as nat, pow2(inst_point@.len()));
        }
        total = total.add(commit::eq_at_index(inst_point, i).mul(v));
        i += 1;
    }
    Some(total)
}

/// Opens the instances of a kind at an element point.
fn open_kind(
    set: &CommitSet,
    config: &Config,
    kind: Kind,
    p: &[EF],
    acc: &mut ClaimAccumulator,
) -> (r: Vec<EF>)
    requires
        canonical::sizes_fit(*config),
        residual::holds_kind(set.kept(), *config, kind),
        p@.len() == canonical::elem_bits(*config, kind),
    ensures
        r@ == kind_values(set.kept(), *config, kind, p@),
        final(acc).contents() == old(acc).contents() + kind_claims(
            *config,
            kind,
            p@,
            r@,
            norm_count(*config),
        ),
{
    let ghost before = acc.contents();
    let ghost goal = kind_values(set.kept(), *config, kind, p@);
    let n: usize = 2 * config.n_layer + 1;
    let mut out: Vec<EF> = Vec::new();
    let mut i: usize = 0;
    assert(before + kind_claims(*config, kind, p@, goal, 0) =~= before);
    while i < n
        invariant
            i <= n,
            n == norm_count(*config),
            canonical::sizes_fit(*config),
            residual::holds_kind(set.kept(), *config, kind),
            p@.len() == canonical::elem_bits(*config, kind),
            goal == kind_values(set.kept(), *config, kind, p@),
            out@ == goal.take(i as int),
            acc.contents() == before + kind_claims(*config, kind, p@, goal, i as nat),
        decreases n - i,
    {
        let v = residual::open_slice(set, config, kind, p, i, acc);
        out.push(v);
        proof {
            assert(goal[i as int] == v);
            assert(goal.take(i + 1) =~= goal.take(i as int).push(v));
            assert(acc.contents() =~= before + kind_claims(
                *config,
                kind,
                p@,
                goal,
                (i + 1) as nat,
            ));
        }
        i += 1;
    }
    assert(goal.take(n as int) =~= goal);
    out
}

/// Records the claims on the instances of a kind and combines them with powers of
/// `gamma`.
fn take_kind(
    config: &Config,
    kind: Kind,
    p: &[EF],
    vals: &Vec<EF>,
    gamma: EF,
    acc: &mut ClaimAccumulator,
) -> (r: EF)
    requires
        canonical::sizes_fit(*config),
        vals@.len() == norm_count(*config),
    ensures
        r == gamma_sum(gamma, vals@),
        final(acc).contents() == old(acc).contents() + kind_claims(
            *config,
            kind,
            p@,
            vals@,
            norm_count(*config),
        ),
{
    let ghost before = acc.contents();
    let n: usize = vals.len();
    let powers = power_list(gamma, n);
    let mut total = EF::new_zero();
    let mut i: usize = 0;
    let ghost f = |i: int| domain::pow(gamma, i as nat) * vals@[i];
    assert(before + kind_claims(*config, kind, p@, vals@, 0) =~= before);
    while i < n
        invariant
            i <= n,
            n == vals@.len(),
            canonical::sizes_fit(*config),
            powers@ == Seq::new(n as nat, |i: int| domain::pow(gamma, i as nat)),
            f == (|i: int| domain::pow(gamma, i as nat) * vals@[i]),
            total == algebra::sum(i as nat, f),
            acc.contents() == before + kind_claims(*config, kind, p@, vals@, i as nat),
        decreases n - i,
    {
        let v = vals[i];
        residual::claim_slice(config, kind, p, i, v, acc);
        assert(acc.contents() =~= before + kind_claims(
            *config,
            kind,
            p@,
            vals@,
            (i + 1) as nat,
        ));
        total = total.add(powers[i].mul(v));
        i += 1;
    }
    total
}

/// `sum_i gamma^i * vals[i]`.
fn sum_powers(gamma: EF, vals: &Vec<EF>) -> (r: EF)
    ensures
        r == gamma_sum(gamma, vals@),
{
    let n: usize = vals.len();
    let powers = power_list(gamma, n);
    let mut total = EF::new_zero();
    let mut i: usize = 0;
    let ghost f = |i: int| domain::pow(gamma, i as nat) * vals@[i];
    while i < n
        invariant
            i <= n,
            n == vals@.len(),
            powers@ == Seq::new(n as nat, |i: int| domain::pow(gamma, i as nat)),
            f == (|i: int| domain::pow(gamma, i as nat) * vals@[i]),
            total == algebra::sum(i as nat, f),
        decreases n - i,
    {
        total = total.add(powers[i].mul(vals[i]));
        i += 1;
    }
    total
}

/// The sumcheck has a round for every challenge, is accepted, has `count` final
/// values, and the first is the public weight's.
pub open spec fn weighted_ok(
    claim: EF,
    proof: SumcheckProof<EF>,
    weight: Seq<EF>,
    count: nat,
    ch: Seq<EF>,
) -> bool {
    &&& proof.round_polys@.len() == ch.len()
    &&& sumcheck::accepted(claim, proof.rounds(), proof.final_evals@, ch)
    &&& proof.final_evals@.len() == count
    &&& proof.final_evals@[0] == multilinear::mle(weight, ch.reverse())
}

/// The honest sumcheck over `tables`.
pub open spec fn honest_rounds(
    proof: SumcheckProof<EF>,
    tables: Seq<Seq<EF>>,
    ch: Seq<EF>,
) -> bool {
    &&& proof.rounds() == sumcheck::prover_rounds(tables, ch)
    &&& proof.final_evals@ == sumcheck::prover_finals(tables, ch)
}

/// Checks a sumcheck of `n` rounds whose first factor is a public weight. Returns the
/// point with the lowest variable first.
fn check_weighted(
    claim: EF,
    proof: &SumcheckProof<EF>,
    weight: Vec<EF>,
    n: usize,
    count: usize,
    ahead: Ghost<Seq<EF>>,
    oracle: &mut RandomOracle<EF>,
) -> (r: Option<Vec<EF>>)
    requires
        count > 0,
        weight@.len() == pow2(n as nat),
        ahead@ == old(oracle).upcoming(ahead@.len()),
        ahead@.len() >= proof.round_polys@.len(),
        old(oracle).has_fields(
            sumcheck::rounds_passed(claim, proof.rounds(), ahead@) as int,
        ),
    ensures
        ({
            let ch = old(oracle).upcoming(n as nat);
            &&& r is Some <==> weighted_ok(claim, *proof, weight@, count as nat, ch)
            &&& r is Some ==> r->0@ == ch.reverse() && old(oracle).advanced(
                *final(oracle),
                n as int,
                0,
            )
            &&& final(oracle).wf()
            &&& old(oracle).advanced(
                *final(oracle),
                sumcheck::rounds_passed(claim, proof.rounds(), ahead@) as int,
                0,
            )
        }),
{
    let ghost m = proof.round_polys@.len();
    let ghost ch = oracle.upcoming(m);
    proof {
        assert(proof.rounds().len() == m);
        assert forall|i: int| 0 <= i < m implies #[trigger] ch[i] == ahead@[i] by {}
        sumcheck::lemma_passed_prefix(claim, proof.rounds(), ch, ahead@);
        reduce::lemma_passed(claim, proof.rounds(), proof.final_evals@, ch);
    }
    match sumcheck::verify(claim, proof, oracle) {
        None => None,
        Some(sc) => {
            if proof.final_evals.len() != count {
                return None;
            }
            if proof.round_polys.len() != n {
                return None;
            }
            let open = reduce::low_first(sc.as_slice());
            let w = MlPoly(weight).eval(open.as_slice());
            if !proof.final_evals[0].equals(w) {
                return None;
            }
            Some(open)
        },
    }
}

/// Runs a sumcheck. Returns the point with the lowest variable first.
fn run_sumcheck(
    tables: Vec<Vec<EF>>,
    n: Ghost<nat>,
    oracle: &mut RandomOracle<EF>,
) -> (r: (SumcheckProof<EF>, Vec<EF>))
    requires
        tables@.len() < 16,
        sumcheck::polys_shape(views::nested(tables@), n@),
        old(oracle).has_fields(n@ as int),
    ensures
        honest_rounds(r.0, views::nested(tables@), old(oracle).upcoming(n@)),
        r.1@ == old(oracle).upcoming(n@).reverse(),
        final(oracle).wf(),
        old(oracle).advanced(*final(oracle), n@ as int, 0),
{
    assert(pow2(n@) == pow2(n@));
    let (proof, sc) = sumcheck::prove(tables, oracle);
    proof {
        assert(views::nested(tables@)[0].len() == pow2(n@));
        sumcheck::lemma_exponent_unique(n@, sc@.len());
    }
    let open = reduce::low_first(sc.as_slice());
    (proof, open)
}

/// A part of a point.
fn part(p: &Vec<EF>, from: usize, to: usize) -> (r: Vec<EF>)
    requires
        from <= to <= p@.len(),
    ensures
        r@ == p@.subrange(from as int, to as int),
{
    poly::copy_slice(vstd::slice::slice_subrange(p.as_slice(), from, to))
}

/// The challenges of the variance relation.
pub struct VarDraws {
    pub gamma: EF,
    pub rho: Seq<EF>,
    pub q2: Seq<EF>,
    pub sq: Seq<EF>,
}

/// Number of challenges of the variance relation.
pub open spec fn var_count(config: Config) -> nat {
    1 + row_bits(config) + (elem_bits(config) + inst_bits(config)) + (row_bits(config)
        + inst_bits(config))
}

pub open spec fn var_draws(config: Config, tape: Seq<EF>) -> VarDraws {
    let a = 1 + row_bits(config) as int;
    let b = a + elem_bits(config) + inst_bits(config);
    VarDraws {
        gamma: tape[0],
        rho: tape.subrange(1, a),
        q2: tape.subrange(a, b),
        sq: tape.subrange(b, b + row_bits(config) + inst_bits(config)),
    }
}

/// The element point at which the squares open the inputs.
pub open spec fn square_point(config: Config, q2: Seq<EF>) -> Seq<EF> {
    q2.reverse().take(elem_bits(config) as int)
}

/// The index point at which the squares open the inputs.
pub open spec fn square_index(config: Config, q2: Seq<EF>) -> Seq<EF> {
    q2.reverse().skip(elem_bits(config) as int)
}

/// The element point at which the squared sums open the inputs: one half in every
/// column variable.
pub open spec fn sum_point(config: Config, sq: Seq<EF>) -> Seq<EF> {
    halves(col_bits(config)) + sq.reverse().take(row_bits(config) as int)
}

/// The index point at which the squared sums open the inputs.
pub open spec fn sum_index(config: Config, sq: Seq<EF>) -> Seq<EF> {
    sq.reverse().skip(row_bits(config) as int)
}

/// The weights of the squares.
pub open spec fn square_weights(config: Config, d: VarDraws) -> Seq<EF> {
    block_weights(
        d.rho,
        d.gamma,
        pow2(col_bits(config)),
        pow2(elem_bits(config) + inst_bits(config)),
    )
}

/// The weights of the squared sums.
pub open spec fn sum_weights(config: Config, d: VarDraws) -> Seq<EF> {
    block_weights(d.rho, d.gamma, 1, pow2(row_bits(config) + inst_bits(config)))
}

/// The row sums of the stacked inputs.
pub open spec fn sum_table(polys: Map<Seq<char>, Seq<EF>>, config: Config, x0: Grid) -> Seq<EF> {
    row_sums(
        x_table(polys, config, x0),
        pow2(col_bits(config)),
        pow2(row_bits(config) + inst_bits(config)),
    )
}

/// The honest variance part.
pub open spec fn honest_var(
    part: VarPart,
    polys: Map<Seq<char>, Seq<EF>>,
    config: Config,
    x0: Grid,
    d: VarDraws,
) -> bool {
    let x = x_table(polys, config, x0);
    let s = sum_table(polys, config, x0);
    &&& part.q2_claim == weighted_squares(square_weights(config, d), x)
    &&& honest_rounds(part.q2, seq![square_weights(config, d), x, x], d.q2)
    &&& part.q2_x@ == inputs_at(polys, config, x0, square_point(config, d.q2))
    &&& part.sq_claim == weighted_squares(sum_weights(config, d), s)
    &&& honest_rounds(part.sq, seq![sum_weights(config, d), s, s], d.sq)
    &&& part.sq_x@ == inputs_at(polys, config, x0, sum_point(config, d.sq))
    &&& part.var_v@ == kind_values(polys, config, Kind::Var, d.rho)
}

/// The claims of the variance part.
pub open spec fn var_claims(part: VarPart, config: Config, d: VarDraws) -> Seq<OracleClaimView> {
    let n = norm_count(config);
    input_claims(config, square_point(config, d.q2), part.q2_x@, n) + input_claims(
        config,
        sum_point(config, d.sq),
        part.sq_x@,
        n,
    ) + kind_claims(config, Kind::Var, d.rho, part.var_v@, n)
}

/// The number of columns as a field element.
pub open spec fn column_count(config: Config) -> EF {
    EF::embed(pow2(col_bits(config)) as int)
}

/// The feature count as a field element.
pub open spec fn feature_count(config: Config) -> EF {
    EF::embed(config.d_model as int)
}

/// The variance part is accepted.
pub open spec fn var_accepted(part: VarPart, config: Config, x0: Grid, d: VarDraws) -> bool {
    let opened = combined(square_index(config, d.q2), part.q2_x@);
    let sums = column_count(config) * combined(sum_index(config, d.sq), part.sq_x@);
    &&& part.var_v@.len() == norm_count(config)
    &&& weighted_ok(part.q2_claim, part.q2, square_weights(config, d), 3, d.q2)
    &&& inputs_ok(config, x0, square_point(config, d.q2), part.q2_x@)
    &&& part.q2.final_evals@[1] == opened
    &&& part.q2.final_evals@[2] == opened
    &&& weighted_ok(part.sq_claim, part.sq, sum_weights(config, d), 3, d.sq)
    &&& inputs_ok(config, x0, sum_point(config, d.sq), part.sq_x@)
    &&& part.sq.final_evals@[1] == sums
    &&& part.sq.final_evals@[2] == sums
    &&& gamma_sum(d.gamma, part.var_v@) == feature_count(config) * part.q2_claim - part.sq_claim
}

/// A count as a field element.
fn count_element(n: usize) -> (r: EF)
    ensures
        r == EF::embed(n as int),
        r.valid(),
{
    EF::from_u64(n as u64)
}

/// Proves the variance relation.
fn prove_var(
    set: &CommitSet,
    config: &Config,
    x0: &Matrix,
    x_ln: &Vec<EF>,
    sum_x: &Vec<EF>,
    acc: &mut ClaimAccumulator,
    oracle: &mut RandomOracle<EF>,
) -> (r: VarPart)
    requires
        inputs_ready(set.kept(), *config, *x0),
        residual::holds_kind(set.kept(), *config, Kind::Var),
        x_ln@ == x_table(set.kept(), *config, x0.grid()),
        sum_x@ == sum_table(set.kept(), *config, x0.grid()),
        old(oracle).has_fields(var_count(*config) as int),
    ensures
        ({
            let d = var_draws(*config, old(oracle).upcoming(var_count(*config)));
            &&& honest_var(r, set.kept(), *config, x0.grid(), d)
            &&& final(acc).contents() == old(acc).contents() + var_claims(r, *config, d)
            &&& final(oracle).wf()
            &&& old(oracle).advanced(*final(oracle), var_count(*config) as int, 0)
        }),
{
    let ghost before = acc.contents();
    let ghost start = *oracle;
    let ghost tape = oracle.upcoming(var_count(*config));
    let ghost d = var_draws(*config, tape);
    proof {
        canonical::lemma_layout_fits(*config, Kind::ALn);
    }
    let lay = canonical::layout_of(config, Kind::ALn);
    proof {
        lemma_feature_sizes(*config);
    }
    let (cv, rv, iv): (usize, usize, usize) = (lay.col_vars(), lay.row_vars(), lay.inst_vars());
    let inst_pow: usize = commit::two_to(iv);
    let gamma = oracle.next_field();
    let rho = oracle.next_n_fields(rv);
    proof {
        assert(rho@ =~= d.rho);
        let (rp, cp) = (pow2(row_bits(*config)) as int, pow2(col_bits(*config)) as int);
        assert(rp * 1 == rp);
    }
    let wq2 = weight_eq_gamma(rho.as_slice(), gamma, lay.col_pow, inst_pow, x_ln.len());
    let q2_claim = weighted_self_prod(&wq2, x_ln);
    let ghost mid = *oracle;
    let ghost w2 = wq2@;
    let tables: Vec<Vec<EF>> = vec![
        wq2,
        poly::copy_slice(x_ln.as_slice()),
        poly::copy_slice(x_ln.as_slice()),
    ];
    proof {
        assert(views::nested(tables@) =~= seq![w2, x_ln@, x_ln@]);
        assert(mid.upcoming(elem_bits(*config) + inst_bits(*config)) =~= d.q2);
    }
    let (q2, open) = run_sumcheck(
        tables,
        Ghost(elem_bits(*config) + inst_bits(*config)),
        oracle,
    );
    let p2 = part(&open, 0, cv + rv);
    assert(p2@ =~= square_point(*config, d.q2));
    let q2_x = combine_x_prove(set, config, x0, p2.as_slice(), acc);
    let wsq = weight_eq_gamma(rho.as_slice(), gamma, 1, inst_pow, sum_x.len());
    let sq_claim = weighted_self_prod(&wsq, sum_x);
    let ghost mid2 = *oracle;
    let ghost ws = wsq@;
    let tables2: Vec<Vec<EF>> = vec![
        wsq,
        poly::copy_slice(sum_x.as_slice()),
        poly::copy_slice(sum_x.as_slice()),
    ];
    proof {
        assert(views::nested(tables2@) =~= seq![ws, sum_x@, sum_x@]);
        assert(mid2.upcoming(row_bits(*config) + inst_bits(*config)) =~= d.sq);
    }
    let (sq, opens) = run_sumcheck(
        tables2,
        Ghost(row_bits(*config) + inst_bits(*config)),
        oracle,
    );
    let row_open = part(&opens, 0, rv);
    assert(row_open@ =~= d.sq.reverse().take(rv as int));
    let half_pt = reduce::join(half_point(cv).as_slice(), row_open.as_slice());
    let sq_x = combine_x_prove(set, config, x0, half_pt.as_slice(), acc);
    let var_v = open_kind(set, config, Kind::Var, rho.as_slice(), acc);
    let r = VarPart { q2_claim, q2, q2_x, sq_claim, sq, sq_x, var_v };
    assert(acc.contents() =~= before + var_claims(r, *config, d));
    r
}

/// The claims that the check of the variance part records: it stops where a test
/// fails.
pub open spec fn var_recorded(part: VarPart, config: Config, x0: Grid, d: VarDraws) -> Seq<
    OracleClaimView,
> {
    let n = norm_count(config);
    let opened = combined(square_index(config, d.q2), part.q2_x@);
    let sums = column_count(config) * combined(sum_index(config, d.sq), part.sq_x@);
    let squares = input_claims(config, square_point(config, d.q2), part.q2_x@, n);
    if !(weighted_ok(part.q2_claim, part.q2, square_weights(config, d), 3, d.q2) && inputs_ok(
        config,
        x0,
        square_point(config, d.q2),
        part.q2_x@,
    )) {
        Seq::empty()
    } else if !(part.q2.final_evals@[1] == opened && part.q2.final_evals@[2] == opened
        && weighted_ok(part.sq_claim, part.sq, sum_weights(config, d), 3, d.sq) && inputs_ok(
        config,
        x0,
        sum_point(config, d.sq),
        part.sq_x@,
    )) {
        squares
    } else if !(part.sq.final_evals@[1] == sums && part.sq.final_evals@[2] == sums) {
        squares + input_claims(config, sum_point(config, d.sq), part.sq_x@, n)
    } else {
        var_claims(part, config, d)
    }
}

/// Number of challenges that the check of the variance part reads, from those ahead:
/// it stops where a test fails.
pub open spec fn var_read(part: VarPart, config: Config, x0: Grid, ahead: Seq<EF>) -> nat {
    let d = var_draws(config, ahead);
    let a = 1 + row_bits(config);
    let b = a + elem_bits(config) + inst_bits(config);
    let opened = combined(square_index(config, d.q2), part.q2_x@);
    let first = a + sumcheck::rounds_passed(
        part.q2_claim,
        part.q2.rounds(),
        ahead.skip(a as int),
    );
    if weighted_ok(part.q2_claim, part.q2, square_weights(config, d), 3, d.q2) && inputs_ok(
        config,
        x0,
        square_point(config, d.q2),
        part.q2_x@,
    ) && part.q2.final_evals@[1] == opened && part.q2.final_evals@[2] == opened {
        first + sumcheck::rounds_passed(part.sq_claim, part.sq.rounds(), ahead.skip(b as int))
    } else {
        first
    }
}

/// Challenges that cover the check of the variance part, however many rounds it has.
pub open spec fn var_extent(part: VarPart, config: Config) -> nat {
    var_count(config) + part.q2.round_polys@.len() + part.sq.round_polys@.len()
}

/// Checks the variance relation.
fn verify_var(
    proof: &SumFeatProof,
    config: &Config,
    x0: &Matrix,
    ahead: Ghost<Seq<EF>>,
    acc: &mut ClaimAccumulator,
    oracle: &mut RandomOracle<EF>,
) -> (r: bool)
    requires
        canonical::sizes_fit(*config),
        x0.wf(),
        ({
            let d = var_draws(*config, ahead@);
            weighted_ok(proof.q2_claim, proof.q2, square_weights(*config, d), 3, d.q2)
        }) ==> config.n_layer > 0 && residual::embeds(*config, x0.grid()),
        proof.var_v@.len() == norm_count(*config),
        ahead@ == old(oracle).upcoming(ahead@.len()),
        ahead@.len() >= var_extent(proof.var_part(), *config),
        old(oracle).has_fields(
            var_read(proof.var_part(), *config, x0.grid(), ahead@) as int,
        ),
    ensures
        ({
            let d = var_draws(*config, old(oracle).upcoming(var_count(*config)));
            &&& r == var_accepted(proof.var_part(), *config, x0.grid(), d)
            &&& final(acc).contents() == old(acc).contents() + var_recorded(
                proof.var_part(),
                *config,
                x0.grid(),
                d,
            )
            &&& final(oracle).wf()
            &&& old(oracle).advanced(
                *final(oracle),
                var_read(proof.var_part(), *config, x0.grid(), ahead@) as int,
                0,
            )
            &&& r ==> old(oracle).advanced(*final(oracle), var_count(*config) as int, 0)
        }),
{
    let ghost before = acc.contents();
    let ghost tape = oracle.upcoming(var_count(*config));
    let ghost d = var_draws(*config, tape);
    proof {
        canonical::lemma_layout_fits(*config, Kind::ALn);
    }
    let lay = canonical::layout_of(config, Kind::ALn);
    proof {
        lemma_feature_sizes(*config);
        let e = var_draws(*config, ahead@);
        assert(e.rho =~= d.rho && e.q2 =~= d.q2 && e.sq =~= d.sq && e.gamma == d.gamma);
    }
    let (cv, rv, iv): (usize, usize, usize) = (lay.col_vars(), lay.row_vars(), lay.inst_vars());
    let inst_pow: usize = commit::two_to(iv);
    let gamma = oracle.next_field();
    let rho = oracle.next_n_fields(rv);
    proof {
        assert(rho@ =~= d.rho);
        let rp = pow2(row_bits(*config)) as int;
        assert(rp * 1 == rp);
    }
    let total: usize = commit::two_to(cv + rv + iv);
    let wq2 = weight_eq_gamma(rho.as_slice(), gamma, lay.col_pow, inst_pow, total);
    let ghost mid = *oracle;
    let ghost rest = ahead@.skip(1 + row_bits(*config) as int);
    proof {
        assert(mid.upcoming(elem_bits(*config) + inst_bits(*config)) =~= d.q2);
        assert(mid.upcoming(rest.len()) =~= rest);
    }
    let open = match check_weighted(
        proof.q2_claim,
        &proof.q2,
        wq2,
        cv + rv + iv,
        3,
        Ghost(rest),
        oracle,
    ) {
        None => {
            return false;
        },
        Some(o) => o,
    };
    let p2 = part(&open, 0, cv + rv);
    let i2 = part(&open, cv + rv, open.len());
    assert(p2@ =~= square_point(*config, d.q2));
    assert(i2@ =~= square_index(*config, d.q2));
    let xo = match combine_x_verify(
        config,
        x0,
        p2.as_slice(),
        i2.as_slice(),
        &proof.q2_x,
        acc,
    ) {
        None => {
            return false;
        },
        Some(v) => v,
    };
    if !proof.q2.final_evals[1].equals(xo) || !proof.q2.final_evals[2].equals(xo) {
        return false;
    }
    let ghost acc1 = acc.contents();
    let small: usize = commit::two_to(rv + iv);
    let wsq = weight_eq_gamma(rho.as_slice(), gamma, 1, inst_pow, small);
    let ghost mid2 = *oracle;
    let ghost rest2 = ahead@.skip(
        1 + row_bits(*config) as int + elem_bits(*config) + inst_bits(*config),
    );
    proof {
        assert(mid2.upcoming(row_bits(*config) + inst_bits(*config)) =~= d.sq);
        assert(mid2.upcoming(rest2.len()) =~= rest2);
    }
    let opens = match check_weighted(
        proof.sq_claim,
        &proof.sq,
        wsq,
        rv + iv,
        3,
        Ghost(rest2),
        oracle,
    ) {
        None => {
            return false;
        },
        Some(o) => o,
    };
    let row_open = part(&opens, 0, rv);
    let is = part(&opens, rv, opens.len());
    assert(row_open@ =~= d.sq.reverse().take(rv as int));
    assert(is@ =~= sum_index(*config, d.sq));
    let half_pt = reduce::join(half_point(cv).as_slice(), row_open.as_slice());
    let sxh = match combine_x_verify(
        config,
        x0,
        half_pt.as_slice(),
        is.as_slice(),
        &proof.sq_x,
        acc,
    ) {
        None => {
            return false;
        },
        Some(v) => v,
    };
    let sums = count_element(lay.col_pow).mul(sxh);
    if !proof.sq.final_evals[1].equals(sums) || !proof.sq.final_evals[2].equals(sums) {
        return false;
    }
    let lhs = take_kind(config, Kind::Var, rho.as_slice(), &proof.var_v, gamma, acc);
    let rhs = count_element(config.d_model).mul(proof.q2_claim).sub(proof.sq_claim);
    assert(acc.contents() =~= before + var_claims(proof.var_part(), *config, d));
    lhs.equals(rhs)
}

/// The challenges of the dividend relation.
pub struct DividendDraws {
    pub gamma: EF,
    pub rho: Seq<EF>,
    pub ch: Seq<EF>,
}

/// Number of challenges of the dividend relation.
pub open spec fn dividend_count(config: Config) -> nat {
    1 + elem_bits(config) + (elem_bits(config) + inst_bits(config))
}

pub open spec fn dividend_draws(config: Config, tape: Seq<EF>) -> DividendDraws {
    let a = 1 + elem_bits(config) as int;
    DividendDraws {
        gamma: tape[0],
        rho: tape.subrange(1, a),
        ch: tape.subrange(a, a + elem_bits(config) + inst_bits(config)),
    }
}

/// The weights of the dividends.
pub open spec fn dividend_weights(config: Config, d: DividendDraws) -> Seq<EF> {
    block_weights(d.rho, d.gamma, 1, pow2(elem_bits(config) + inst_bits(config)))
}

/// The element point at which the dividends open the row sums.
pub open spec fn dividend_sum_point(config: Config, ch: Seq<EF>) -> Seq<EF> {
    halves(col_bits(config)) + ch.reverse().subrange(
        col_bits(config) as int,
        elem_bits(config) as int,
    )
}

/// The three factors of the dividend sumcheck.
pub open spec fn dividend_tables(
    polys: Map<Seq<char>, Seq<EF>>,
    config: Config,
    w: ModelWeights,
    x0: Grid,
    d: DividendDraws,
) -> Seq<Seq<EF>> {
    seq![
        dividend_weights(config, d),
        gain_table(config, w),
        centred_table(
            x_table(polys, config, x0),
            sum_table(polys, config, x0),
            pow2(col_bits(config)),
            feature_count(config),
        ),
    ]
}

/// The honest dividend part.
pub open spec fn honest_dividend(
    part: DividendPart,
    polys: Map<Seq<char>, Seq<EF>>,
    config: Config,
    w: ModelWeights,
    x0: Grid,
    d: DividendDraws,
) -> bool {
    &&& part.v@ == kind_values(polys, config, Kind::ALn, d.rho)
    &&& part.claim == gamma_sum(d.gamma, part.v@)
    &&& honest_rounds(part.proof, dividend_tables(polys, config, w, x0, d), d.ch)
    &&& part.x@ == inputs_at(polys, config, x0, square_point(config, d.ch))
    &&& part.sumx@ == inputs_at(polys, config, x0, dividend_sum_point(config, d.ch))
}

/// The claims of the dividend part.
pub open spec fn dividend_claims(part: DividendPart, config: Config, d: DividendDraws) -> Seq<
    OracleClaimView,
> {
    let n = norm_count(config);
    kind_claims(config, Kind::ALn, d.rho, part.v@, n) + input_claims(
        config,
        square_point(config, d.ch),
        part.x@,
        n,
    ) + input_claims(config, dividend_sum_point(config, d.ch), part.sumx@, n)
}

/// The dividend part is accepted.
pub open spec fn dividend_accepted(
    part: DividendPart,
    config: Config,
    w: ModelWeights,
    x0: Grid,
    d: DividendDraws,
) -> bool {
    let index = square_index(config, d.ch);
    &&& part.v@.len() == norm_count(config)
    &&& gamma_sum(d.gamma, part.v@) == part.claim
    &&& weighted_ok(part.claim, part.proof, dividend_weights(config, d), 3, d.ch)
    &&& part.proof.final_evals@[1] == multilinear::mle(gain_table(config, w), d.ch.reverse())
    &&& inputs_ok(config, x0, square_point(config, d.ch), part.x@)
    &&& inputs_ok(config, x0, dividend_sum_point(config, d.ch), part.sumx@)
    &&& part.proof.final_evals@[2] == feature_count(config) * combined(index, part.x@)
        - column_count(config) * combined(index, part.sumx@)
}

/// Proves the dividend relation.
fn prove_dividend(
    set: &CommitSet,
    config: &Config,
    weights: &ModelWeights,
    x0: &Matrix,
    x_ln: &Vec<EF>,
    sum_x: &Vec<EF>,
    acc: &mut ClaimAccumulator,
    oracle: &mut RandomOracle<EF>,
) -> (r: DividendPart)
    requires
        inputs_ready(set.kept(), *config, *x0),
        weights_ready(*config, *weights),
        residual::holds_kind(set.kept(), *config, Kind::ALn),
        x_ln@ == x_table(set.kept(), *config, x0.grid()),
        sum_x@ == sum_table(set.kept(), *config, x0.grid()),
        old(oracle).has_fields(dividend_count(*config) as int),
    ensures
        ({
            let d = dividend_draws(*config, old(oracle).upcoming(dividend_count(*config)));
            &&& honest_dividend(r, set.kept(), *config, *weights, x0.grid(), d)
            &&& final(acc).contents() == old(acc).contents() + dividend_claims(r, *config, d)
            &&& final(oracle).wf()
            &&& old(oracle).advanced(*final(oracle), dividend_count(*config) as int, 0)
        }),
{
    let ghost before = acc.contents();
    let ghost tape = oracle.upcoming(dividend_count(*config));
    let ghost d = dividend_draws(*config, tape);
    proof {
        canonical::lemma_layout_fits(*config, Kind::ALn);
    }
    let lay = canonical::layout_of(config, Kind::ALn);
    proof {
        lemma_feature_sizes(*config);
    }
    let (cv, rv, iv): (usize, usize, usize) = (lay.col_vars(), lay.row_vars(), lay.inst_vars());
    let inst_pow: usize = commit::two_to(iv);
    let gamma = oracle.next_field();
    let rho = oracle.next_n_fields(cv + rv);
    proof {
        assert(rho@ =~= d.rho);
        let m = pow2(elem_bits(*config)) as int;
        assert(m * 1 == m);
    }
    let gain_ln = gather_gain(config, weights);
    let g_ln = build_g(x_ln, sum_x, lay.col_pow, count_element(config.d_model));
    let wa = weight_eq_gamma(rho.as_slice(), gamma, 1, inst_pow, x_ln.len());
    let v = open_kind(set, config, Kind::ALn, rho.as_slice(), acc);
    let claim = sum_powers(gamma, &v);
    let ghost mid = *oracle;
    let ghost (wv, gv, cvv) = (wa@, gain_ln@, g_ln@);
    let tables: Vec<Vec<EF>> = vec![wa, gain_ln, g_ln];
    proof {
        assert(views::nested(tables@) =~= seq![wv, gv, cvv]);
        assert(mid.upcoming(elem_bits(*config) + inst_bits(*config)) =~= d.ch);
    }
    let (proof, open) = run_sumcheck(
        tables,
        Ghost(elem_bits(*config) + inst_bits(*config)),
        oracle,
    );
    let p = part(&open, 0, cv + rv);
    assert(p@ =~= square_point(*config, d.ch));
    let x = combine_x_prove(set, config, x0, p.as_slice(), acc);
    let row_open = part(&open, cv, cv + rv);
    let half_pt = reduce::join(half_point(cv).as_slice(), row_open.as_slice());
    let sumx = combine_x_prove(set, config, x0, half_pt.as_slice(), acc);
    let r = DividendPart { claim, proof, x, sumx, v };
    assert(acc.contents() =~= before + dividend_claims(r, *config, d));
    r
}

/// The claims that the check of the dividend part records: it stops where a test
/// fails.
pub open spec fn dividend_recorded(
    part: DividendPart,
    config: Config,
    w: ModelWeights,
    x0: Grid,
    d: DividendDraws,
) -> Seq<OracleClaimView> {
    let n = norm_count(config);
    let values = kind_claims(config, Kind::ALn, d.rho, part.v@, n);
    let inputs = input_claims(config, square_point(config, d.ch), part.x@, n);
    if !(gamma_sum(d.gamma, part.v@) == part.claim && weighted_ok(
        part.claim,
        part.proof,
        dividend_weights(config, d),
        3,
        d.ch,
    ) && part.proof.final_evals@[1] == multilinear::mle(gain_table(config, w), d.ch.reverse())
        && inputs_ok(config, x0, square_point(config, d.ch), part.x@)) {
        values
    } else if !inputs_ok(config, x0, dividend_sum_point(config, d.ch), part.sumx@) {
        values + inputs
    } else {
        dividend_claims(part, config, d)
    }
}

/// Number of challenges that the check of the dividend part reads, from those ahead:
/// it stops where a test fails.
pub open spec fn dividend_read(part: DividendPart, config: Config, ahead: Seq<EF>) -> nat {
    let a = 1 + elem_bits(config);
    if gamma_sum(ahead[0], part.v@) == part.claim {
        a + sumcheck::rounds_passed(part.claim, part.proof.rounds(), ahead.skip(a as int))
    } else {
        a
    }
}

/// Challenges that cover the check of the dividend part, however many rounds it has.
pub open spec fn dividend_extent(part: DividendPart, config: Config) -> nat {
    dividend_count(config) + part.proof.round_polys@.len()
}

/// Checks the dividend relation.
fn verify_dividend(
    proof: &SumFeatProof,
    config: &Config,
    weights: &ModelWeights,
    x0: &Matrix,
    ahead: Ghost<Seq<EF>>,
    acc: &mut ClaimAccumulator,
    oracle: &mut RandomOracle<EF>,
) -> (r: bool)
    requires
        weights_ready(*config, *weights),
        x0.wf(),
        config.n_layer > 0,
        residual::embeds(*config, x0.grid()),
        proof.aln_v@.len() == norm_count(*config),
        ahead@ == old(oracle).upcoming(ahead@.len()),
        ahead@.len() >= dividend_extent(proof.dividend_part(), *config),
        old(oracle).has_fields(
            dividend_read(proof.dividend_part(), *config, ahead@) as int,
        ),
    ensures
        ({
            let d = dividend_draws(*config, old(oracle).upcoming(dividend_count(*config)));
            &&& r == dividend_accepted(proof.dividend_part(), *config, *weights, x0.grid(), d)
            &&& final(acc).contents() == old(acc).contents() + dividend_recorded(
                proof.dividend_part(),
                *config,
                *weights,
                x0.grid(),
                d,
            )
            &&& final(oracle).wf()
            &&& old(oracle).advanced(
                *final(oracle),
                dividend_read(proof.dividend_part(), *config, ahead@) as int,
                0,
            )
            &&& r ==> old(oracle).advanced(*final(oracle), dividend_count(*config) as int, 0)
        }),
{
    let ghost before = acc.contents();
    let ghost tape = oracle.upcoming(dividend_count(*config));
    let ghost d = dividend_draws(*config, tape);
    proof {
        canonical::lemma_layout_fits(*config, Kind::ALn);
    }
    let lay = canonical::layout_of(config, Kind::ALn);
    proof {
        lemma_feature_sizes(*config);
    }
    let (cv, rv, iv): (usize, usize, usize) = (lay.col_vars(), lay.row_vars(), lay.inst_vars());
    let inst_pow: usize = commit::two_to(iv);
    let gamma = oracle.next_field();
    let rho = oracle.next_n_fields(cv + rv);
    proof {
        assert(rho@ =~= d.rho);
        let m = pow2(elem_bits(*config)) as int;
        assert(m * 1 == m);
    }
    let claim = take_kind(config, Kind::ALn, rho.as_slice(), &proof.aln_v, gamma, acc);
    if !claim.equals(proof.aln_claim) {
        return false;
    }
    let total: usize = commit::two_to(cv + rv + iv);
    let wa = weight_eq_gamma(rho.as_slice(), gamma, 1, inst_pow, total);
    let ghost mid = *oracle;
    let ghost rest = ahead@.skip(1 + elem_bits(*config) as int);
    proof {
        assert(mid.upcoming(elem_bits(*config) + inst_bits(*config)) =~= d.ch);
        assert(mid.upcoming(rest.len()) =~= rest);
    }
    let open = match check_weighted(
        proof.aln_claim,
        &proof.aln,
        wa,
        cv + rv + iv,
        3,
        Ghost(rest),
        oracle,
    ) {
        None => {
            return false;
        },
        Some(o) => o,
    };
    let gain_ln = gather_gain(config, weights);
    let gain_open = MlPoly(gain_ln).eval(open.as_slice());
    if !proof.aln.final_evals[1].equals(gain_open) {
        return false;
    }
    let p = part(&open, 0, cv + rv);
    let index = part(&open, cv + rv, open.len());
    assert(p@ =~= square_point(*config, d.ch));
    assert(index@ =~= square_index(*config, d.ch));
    let ax = match combine_x_verify(
        config,
        x0,
        p.as_slice(),
        index.as_slice(),
        &proof.aln_x,
        acc,
    ) {
        None => {
            return false;
        },
        Some(v) => v,
    };
    let row_open = part(&open, cv, cv + rv);
    let half_pt = reduce::join(half_point(cv).as_slice(), row_open.as_slice());
    let asx = match combine_x_verify(
        config,
        x0,
        half_pt.as_slice(),
        index.as_slice(),
        &proof.aln_sumx,
        acc,
    ) {
        None => {
            return false;
        },
        Some(v) => v,
    };
    let g_open = count_element(config.d_model).mul(ax).sub(count_element(lay.col_pow).mul(asx));
    assert(acc.contents() =~= before + dividend_claims(proof.dividend_part(), *config, d));
    proof.aln.final_evals[2].equals(g_open)
}

/// Variables of the softmax row.
pub open spec fn exp_row_bits(config: Config) -> nat {
    canonical::row_bits(config, Kind::Exp)
}

/// Variables of the softmax key.
pub open spec fn exp_col_bits(config: Config) -> nat {
    canonical::col_bits(config, Kind::Exp)
}

/// Variables of softmax row and head.
pub open spec fn exp_batch_bits(config: Config) -> nat {
    exp_row_bits(config) + canonical::inst_bits(config, Kind::Exp)
}

/// Number of challenges of the softmax sum relation.
pub open spec fn sum_exp_count(config: Config) -> nat {
    1 + exp_batch_bits(config)
}

/// The weight at position `k`: a power of `gamma` on the real rows of real heads.
pub open spec fn real_weight_at(config: Config, gamma: EF, k: int) -> EF {
    let rp = pow2(exp_row_bits(config)) as int;
    if k % rp < config.n_seq && k / rp < config.n_layer * config.n_head {
        domain::pow(gamma, k as nat)
    } else {
        EF::zero()
    }
}

/// The weights of all rows of all heads.
pub open spec fn real_weights(config: Config, gamma: EF) -> Seq<EF> {
    Seq::new(pow2(exp_batch_bits(config)), |k: int| real_weight_at(config, gamma, k))
}

/// The number of keys as a field element.
pub open spec fn key_count(config: Config) -> EF {
    EF::embed(pow2(exp_col_bits(config)) as int)
}

/// The stored sum minus the sum of the exponentials, for every row.
pub open spec fn sum_gap(polys: Map<Seq<char>, Seq<EF>>, config: Config) -> Seq<EF> {
    let folded = multilinear::fold_all(polys[EXP@], halves(exp_col_bits(config)));
    Seq::new(
        pow2(exp_batch_bits(config)),
        |k: int| polys[SUM_EXP@][k] - key_count(config) * folded[k],
    )
}

/// The honest softmax sum part.
pub open spec fn honest_sum_exp(
    part: SumExpPart,
    polys: Map<Seq<char>, Seq<EF>>,
    config: Config,
    tape: Seq<EF>,
) -> bool {
    let ch = tape.skip(1);
    &&& honest_rounds(
        part.proof,
        seq![real_weights(config, tape[0]), sum_gap(polys, config)],
        ch,
    )
    &&& part.sum == multilinear::mle(polys[SUM_EXP@], ch.reverse())
    &&& part.exp == multilinear::mle(
        polys[EXP@],
        halves(exp_col_bits(config)) + ch.reverse(),
    )
}

/// The claims of the softmax sum part.
pub open spec fn sum_exp_claims(part: SumExpPart, config: Config, tape: Seq<EF>) -> Seq<
    OracleClaimView,
> {
    let open = tape.skip(1).reverse();
    seq![
        commit::opening(SUM_EXP@, open, part.sum),
        commit::opening(EXP@, halves(exp_col_bits(config)) + open, part.exp),
    ]
}

/// The softmax sum part is accepted.
pub open spec fn sum_exp_accepted(part: SumExpPart, config: Config, tape: Seq<EF>) -> bool {
    &&& weighted_ok(EF::zero(), part.proof, real_weights(config, tape[0]), 2, tape.skip(1))
    &&& part.proof.final_evals@[1] == part.sum - key_count(config) * part.exp
}

/// The lengths of the softmax tables.
pub proof fn lemma_exp_sizes(config: Config)
    requires
        canonical::sizes_fit(config),
    ensures
        exp_col_bits(config) + exp_batch_bits(config) == canonical::all_bits(config, Kind::Exp),
        exp_batch_bits(config) == canonical::all_bits(config, Kind::SumExp),
        pow2(exp_batch_bits(config)) <= usize::MAX,
        pow2(exp_row_bits(config)) <= usize::MAX,
        0 < pow2(exp_row_bits(config)),
        exp_col_bits(config) + exp_batch_bits(config) < 64,
{
    canonical::lemma_sizes(config, Kind::Exp);
    canonical::lemma_sizes(config, Kind::SumExp);
    multilinear::lemma_pow2_zero();
    commit::lemma_ceil_log(1, 0);
    multilinear::lemma_pow2_mono(0, exp_row_bits(config));
}

/// The weights of all rows of all heads.
fn realrow_gamma(config: &Config, gamma: EF) -> (r: Vec<EF>)
    requires
        canonical::sizes_fit(*config),
    ensures
        r@ == real_weights(*config, gamma),
{
    proof {
        canonical::lemma_layout_fits(*config, Kind::Exp);
    }
    let lay = canonical::layout_of(config, Kind::Exp);
    proof {
        lemma_exp_sizes(*config);
    }
    let rp: usize = lay.row_pow;
    let total: usize = commit::two_to(lay.row_vars() + lay.inst_vars());
    let heads: usize = config.n_layer * config.n_head;
    let mut out: Vec<EF> = Vec::new();
    let mut g = EF::new_one();
    let mut k: usize = 0;
    while k < total
        invariant
            k <= total,
            rp == pow2(exp_row_bits(*config)),
            rp > 0,
            heads == config.n_layer * config.n_head,
            g == domain::pow(gamma, k as nat),
            out@.len() == k,
            forall|j: int| 0 <= j < k ==> #[trigger] out@[j] == real_weight_at(*config, gamma, j),
        decreases total - k,
    {
        let v: EF = if k % rp < config.n_seq && k / rp < heads {
            g
        } else {
            EF::new_zero()
        };
        out.push(v);
        proof {
            algebra::mul_comm(gamma, g);
        }
        g = g.mul(gamma);
        k += 1;
    }
    assert(out@ =~= real_weights(*config, gamma));
    out
}

/// Exponentials and their sums are stored.
pub open spec fn exp_ready(polys: Map<Seq<char>, Seq<EF>>, config: Config) -> bool {
    &&& canonical::sizes_fit(config)
    &&& residual::holds_kind(polys, config, Kind::Exp)
    &&& residual::holds_kind(polys, config, Kind::SumExp)
}

/// The stored sum minus the sum of the exponentials, for every row.
fn build_gap(set: &CommitSet, config: &Config) -> (r: Vec<EF>)
    requires
        exp_ready(set.kept(), *config),
    ensures
        r@ == sum_gap(set.kept(), *config),
{
    let ghost polys = set.kept();
    proof {
        canonical::lemma_layout_fits(*config, Kind::Exp);
    }
    let lay = canonical::layout_of(config, Kind::Exp);
    proof {
        lemma_exp_sizes(*config);
    }
    let exp = &set.prover_data(EXP).unwrap().0;
    let sum_exp = &set.prover_data(SUM_EXP).unwrap().0;
    let mut folded = MlPoly(poly::copy_slice(exp.as_slice()));
    let hp = half_point(lay.col_vars());
    folded.fold(hp.as_slice());
    proof {
        multilinear::lemma_fold_all_len(
            polys[EXP@],
            hp@,
            canonical::all_bits(*config, Kind::Exp),
        );
    }
    let count = count_element(lay.col_pow);
    let mut out: Vec<EF> = Vec::new();
    let mut k: usize = 0;
    while k < sum_exp.len()
        invariant
            k <= sum_exp@.len(),
            sum_exp@ == polys[SUM_EXP@],
            folded.0@ == multilinear::fold_all(polys[EXP@], halves(exp_col_bits(*config))),
            folded.0@.len() == sum_exp@.len(),
            count == key_count(*config),
            out@.len() == k,
            forall|j: int|
                0 <= j < k ==> #[trigger] out@[j] == polys[SUM_EXP@][j] - key_count(*config)
                    * folded.0@[j],
        decreases sum_exp.len() - k,
    {
        assert(folded.0.len() == folded.0@.len());
        out.push(sum_exp[k].sub(count.mul(folded.0[k])));
        k += 1;
    }
    assert(out@ =~= sum_gap(polys, *config));
    out
}

/// Proves the softmax sum relation.
fn prove_sum_exp(
    set: &CommitSet,
    config: &Config,
    acc: &mut ClaimAccumulator,
    oracle: &mut RandomOracle<EF>,
) -> (r: SumExpPart)
    requires
        exp_ready(set.kept(), *config),
        old(oracle).has_fields(sum_exp_count(*config) as int),
    ensures
        ({
            let tape = old(oracle).upcoming(sum_exp_count(*config));
            &&& honest_sum_exp(r, set.kept(), *config, tape)
            &&& final(acc).contents() == old(acc).contents() + sum_exp_claims(r, *config, tape)
            &&& final(oracle).wf()
            &&& old(oracle).advanced(*final(oracle), sum_exp_count(*config) as int, 0)
        }),
{
    let ghost before = acc.contents();
    let ghost tape = oracle.upcoming(sum_exp_count(*config));
    proof {
        canonical::lemma_layout_fits(*config, Kind::Exp);
    }
    let lay = canonical::layout_of(config, Kind::Exp);
    proof {
        lemma_exp_sizes(*config);
    }
    let gap = build_gap(set, config);
    let gamma = oracle.next_field();
    let w = realrow_gamma(config, gamma);
    let ghost mid = *oracle;
    let ghost (wv, gv) = (w@, gap@);
    let tables: Vec<Vec<EF>> = vec![w, gap];
    proof {
        assert(views::nested(tables@) =~= seq![wv, gv]);
        assert(mid.upcoming(exp_batch_bits(*config)) =~= tape.skip(1));
    }
    let (proof, open) = run_sumcheck(tables, Ghost(exp_batch_bits(*config)), oracle);
    let sum = set.evaluate(SUM_EXP, open.as_slice());
    let exp_pt = reduce::join(half_point(lay.col_vars()).as_slice(), open.as_slice());
    acc.open(SUM_EXP, open, sum);
    let exp = set.evaluate(EXP, exp_pt.as_slice());
    acc.open(EXP, exp_pt, exp);
    let r = SumExpPart { proof, sum, exp };
    assert(acc.contents() =~= before + sum_exp_claims(r, *config, tape));
    r
}

/// Number of challenges that the check of the softmax sum part reads, from those
/// ahead.
pub open spec fn sum_exp_read(part: SumExpPart, ahead: Seq<EF>) -> nat {
    1 + sumcheck::rounds_passed(EF::zero(), part.proof.rounds(), ahead.skip(1))
}

/// Challenges that cover the check of the softmax sum part, however many rounds it
/// has.
pub open spec fn sum_exp_extent(part: SumExpPart, config: Config) -> nat {
    sum_exp_count(config) + part.proof.round_polys@.len()
}

/// Checks the softmax sum relation. A rejected proof leaves no claims.
fn verify_sum_exp(
    proof: &SumFeatProof,
    config: &Config,
    ahead: Ghost<Seq<EF>>,
    acc: &mut ClaimAccumulator,
    oracle: &mut RandomOracle<EF>,
) -> (r: bool)
    requires
        canonical::sizes_fit(*config),
        ahead@ == old(oracle).upcoming(ahead@.len()),
        ahead@.len() >= sum_exp_extent(proof.sum_exp_part(), *config),
        old(oracle).has_fields(sum_exp_read(proof.sum_exp_part(), ahead@) as int),
    ensures
        ({
            let tape = old(oracle).upcoming(sum_exp_count(*config));
            &&& r == sum_exp_accepted(proof.sum_exp_part(), *config, tape)
            &&& final(acc).contents() == (if r {
                old(acc).contents() + sum_exp_claims(proof.sum_exp_part(), *config, tape)
            } else {
                old(acc).contents()
            })
            &&& final(oracle).wf()
            &&& old(oracle).advanced(
                *final(oracle),
                sum_exp_read(proof.sum_exp_part(), ahead@) as int,
                0,
            )
            &&& r ==> old(oracle).advanced(*final(oracle), sum_exp_count(*config) as int, 0)
        }),
{
    let ghost before = acc.contents();
    let ghost tape = oracle.upcoming(sum_exp_count(*config));
    proof {
        canonical::lemma_layout_fits(*config, Kind::Exp);
    }
    let lay = canonical::layout_of(config, Kind::Exp);
    proof {
        lemma_exp_sizes(*config);
    }
    let gamma = oracle.next_field();
    let w = realrow_gamma(config, gamma);
    let ghost mid = *oracle;
    let ghost rest = ahead@.skip(1);
    proof {
        assert(mid.upcoming(exp_batch_bits(*config)) =~= tape.skip(1));
        assert(mid.upcoming(rest.len()) =~= rest);
    }
    let rounds: usize = lay.row_vars() + lay.inst_vars();
    let open = match check_weighted(
        EF::new_zero(),
        &proof.se,
        w,
        rounds,
        2,
        Ghost(rest),
        oracle,
    ) {
        None => {
            return false;
        },
        Some(o) => o,
    };
    let d_open = proof.se_sum.sub(count_element(lay.col_pow).mul(proof.se_exp));
    if !proof.se.final_evals[1].equals(d_open) {
        return false;
    }
    let exp_pt = reduce::join(half_point(lay.col_vars()).as_slice(), open.as_slice());
    acc.open(SUM_EXP, open, proof.se_sum);
    acc.open(EXP, exp_pt, proof.se_exp);
    assert(acc.contents() =~= before + sum_exp_claims(proof.sum_exp_part(), *config, tape));
    true
}

/// Number of challenges of all three relations.
pub open spec fn feature_draws(config: Config) -> nat {
    var_count(config) + dividend_count(config) + sum_exp_count(config)
}

/// The challenges of the variance relation.
pub open spec fn var_tape(config: Config, tape: Seq<EF>) -> Seq<EF> {
    tape.take(var_count(config) as int)
}

/// The challenges of the dividend relation.
pub open spec fn dividend_tape(config: Config, tape: Seq<EF>) -> Seq<EF> {
    tape.subrange(
        var_count(config) as int,
        (var_count(config) + dividend_count(config)) as int,
    )
}

/// The challenges of the softmax sum relation.
pub open spec fn sum_exp_tape(config: Config, tape: Seq<EF>) -> Seq<EF> {
    tape.skip((var_count(config) + dividend_count(config)) as int)
}

/// The honest proof with challenges `tape`.
pub open spec fn honest_features(
    proof: SumFeatProof,
    polys: Map<Seq<char>, Seq<EF>>,
    config: Config,
    w: ModelWeights,
    x0: Grid,
    tape: Seq<EF>,
) -> bool {
    &&& honest_var(
        proof.var_part(),
        polys,
        config,
        x0,
        var_draws(config, var_tape(config, tape)),
    )
    &&& honest_dividend(
        proof.dividend_part(),
        polys,
        config,
        w,
        x0,
        dividend_draws(config, dividend_tape(config, tape)),
    )
    &&& honest_sum_exp(proof.sum_exp_part(), polys, config, sum_exp_tape(config, tape))
}

/// The claims of all three relations.
pub open spec fn feature_claims(proof: SumFeatProof, config: Config, tape: Seq<EF>) -> Seq<
    OracleClaimView,
> {
    var_claims(proof.var_part(), config, var_draws(config, var_tape(config, tape)))
        + dividend_claims(
        proof.dividend_part(),
        config,
        dividend_draws(config, dividend_tape(config, tape)),
    ) + sum_exp_claims(proof.sum_exp_part(), config, sum_exp_tape(config, tape))
}

/// The proof is accepted with challenges `tape`.
pub open spec fn features_accepted(
    proof: SumFeatProof,
    config: Config,
    w: ModelWeights,
    x0: Grid,
    tape: Seq<EF>,
) -> bool {
    &&& var_accepted(
        proof.var_part(),
        config,
        x0,
        var_draws(config, var_tape(config, tape)),
    )
    &&& dividend_accepted(
        proof.dividend_part(),
        config,
        w,
        x0,
        dividend_draws(config, dividend_tape(config, tape)),
    )
    &&& sum_exp_accepted(proof.sum_exp_part(), config, sum_exp_tape(config, tape))
}

/// The proof holds one variance and one dividend for every normalization.
pub open spec fn features_shape(proof: SumFeatProof, config: Config) -> bool {
    proof.var_v@.len() == norm_count(config) && proof.aln_v@.len() == norm_count(config)
}

/// The claims that the check records with challenges `tape`: it stops where a test
/// fails.
pub open spec fn features_recorded(
    proof: SumFeatProof,
    config: Config,
    w: ModelWeights,
    x0: Grid,
    tape: Seq<EF>,
) -> Seq<OracleClaimView> {
    let vd = var_draws(config, var_tape(config, tape));
    let dd = dividend_draws(config, dividend_tape(config, tape));
    let variances = var_recorded(proof.var_part(), config, x0, vd);
    let dividends = dividend_recorded(proof.dividend_part(), config, w, x0, dd);
    if !features_shape(proof, config) {
        Seq::empty()
    } else if !var_accepted(proof.var_part(), config, x0, vd) {
        variances
    } else if !(dividend_accepted(proof.dividend_part(), config, w, x0, dd) && sum_exp_accepted(
        proof.sum_exp_part(),
        config,
        sum_exp_tape(config, tape),
    )) {
        variances + dividends
    } else {
        feature_claims(proof, config, tape)
    }
}

/// Number of challenges that the check reads, from those ahead: it stops where a test
/// fails, and reads none if a variance or a dividend is missing.
pub open spec fn features_read(
    proof: SumFeatProof,
    config: Config,
    w: ModelWeights,
    x0: Grid,
    ahead: Seq<EF>,
) -> nat {
    let (v, d) = (var_count(config), dividend_count(config));
    let vd = var_draws(config, var_tape(config, ahead));
    let dd = dividend_draws(config, dividend_tape(config, ahead));
    if !features_shape(proof, config) {
        0
    } else if !var_accepted(proof.var_part(), config, x0, vd) {
        var_read(proof.var_part(), config, x0, ahead)
    } else if !dividend_accepted(proof.dividend_part(), config, w, x0, dd) {
        v + dividend_read(proof.dividend_part(), config, ahead.skip(v as int))
    } else {
        v + d + sum_exp_read(proof.sum_exp_part(), ahead.skip((v + d) as int))
    }
}

/// An accepted sumcheck reads one challenge for every round.
proof fn lemma_weighted_read(
    claim: EF,
    proof: SumcheckProof<EF>,
    weight: Seq<EF>,
    count: nat,
    ch: Seq<EF>,
    ahead: Seq<EF>,
)
    requires
        weighted_ok(claim, proof, weight, count, ch),
        ahead.len() >= ch.len(),
        forall|i: int| 0 <= i < ch.len() ==> #[trigger] ch[i] == ahead[i],
    ensures
        sumcheck::rounds_passed(claim, proof.rounds(), ahead) == ch.len(),
{
    assert(proof.rounds().len() == ch.len());
    sumcheck::lemma_passed_prefix(claim, proof.rounds(), ch, ahead);
    reduce::lemma_passed(claim, proof.rounds(), proof.final_evals@, ch);
}

/// An accepted variance part reads all its challenges.
proof fn lemma_var_read(part: VarPart, config: Config, x0: Grid, ahead: Seq<EF>)
    requires
        ahead.len() >= var_extent(part, config),
        var_accepted(part, config, x0, var_draws(config, var_tape(config, ahead))),
    ensures
        var_read(part, config, x0, ahead) == var_count(config),
{
    let d = var_draws(config, var_tape(config, ahead));
    let e = var_draws(config, ahead);
    assert(e.rho =~= d.rho && e.q2 =~= d.q2 && e.sq =~= d.sq && e.gamma == d.gamma);
    let a = 1 + row_bits(config) as int;
    let b = a + elem_bits(config) + inst_bits(config);
    lemma_weighted_read(
        part.q2_claim,
        part.q2,
        square_weights(config, d),
        3,
        d.q2,
        ahead.skip(a),
    );
    lemma_weighted_read(part.sq_claim, part.sq, sum_weights(config, d), 3, d.sq, ahead.skip(b));
}

/// An accepted dividend part reads all its challenges.
proof fn lemma_dividend_read(
    part: DividendPart,
    config: Config,
    w: ModelWeights,
    x0: Grid,
    tape: Seq<EF>,
    ahead: Seq<EF>,
)
    requires
        ahead.len() >= dividend_extent(part, config),
        tape == ahead.take(dividend_count(config) as int),
        dividend_accepted(part, config, w, x0, dividend_draws(config, tape)),
    ensures
        dividend_read(part, config, ahead) == dividend_count(config),
{
    let d = dividend_draws(config, tape);
    let a = 1 + elem_bits(config) as int;
    assert(d.gamma == ahead[0]);
    lemma_weighted_read(
        part.claim,
        part.proof,
        dividend_weights(config, d),
        3,
        d.ch,
        ahead.skip(a),
    );
}

/// Challenges that cover the check, however many rounds its sumchecks have.
pub open spec fn features_extent(proof: SumFeatProof, config: Config) -> nat {
    var_extent(proof.var_part(), config) + dividend_extent(proof.dividend_part(), config)
        + sum_exp_extent(proof.sum_exp_part(), config)
}

/// All polynomials that the relations open are stored.
pub open spec fn features_ready(polys: Map<Seq<char>, Seq<EF>>, config: Config) -> bool {
    &&& canonical::sizes_fit(config)
    &&& residual::holds_kind(polys, config, Kind::XOut)
    &&& residual::holds_kind(polys, config, Kind::Var)
    &&& residual::holds_kind(polys, config, Kind::ALn)
    &&& residual::holds_kind(polys, config, Kind::Exp)
    &&& residual::holds_kind(polys, config, Kind::SumExp)
}

/// Proves the three relations and records the claims.
#[verifier::rlimit(80)]
pub fn prove_sumfeat(
    set: &CommitSet,
    config: &Config,
    weights: &ModelWeights,
    witness: &Witness,
    acc: &mut ClaimAccumulator,
    oracle: &mut RandomOracle<EF>,
) -> (r: SumFeatProof)
    requires
        features_ready(set.kept(), *config),
        weights_ready(*config, *weights),
        witness.x0.wf(),
        config.n_layer > 0,
        residual::embeds(*config, witness.x0.grid()),
        old(oracle).has_fields(feature_draws(*config) as int),
    ensures
        ({
            let tape = old(oracle).upcoming(feature_draws(*config));
            &&& honest_features(
                r,
                set.kept(),
                *config,
                *weights,
                witness.x0.grid(),
                tape,
            )
            &&& final(acc).contents() == old(acc).contents() + feature_claims(r, *config, tape)
            &&& final(oracle).wf()
            &&& old(oracle).advanced(*final(oracle), feature_draws(*config) as int, 0)
        }),
{
    let ghost before = acc.contents();
    let ghost start = *oracle;
    let ghost tape = oracle.upcoming(feature_draws(*config));
    let x0 = &witness.x0;
    proof {
        canonical::lemma_layout_fits(*config, Kind::ALn);
    }
    let lay = canonical::layout_of(config, Kind::ALn);
    proof {
        lemma_feature_sizes(*config);
        assert(start.upcoming(var_count(*config)) =~= var_tape(*config, tape));
    }
    let x_ln = gather_x_ln(set, config, x0);
    let rows: usize = commit::two_to(lay.row_vars() + lay.inst_vars());
    let sum_x = gather_sum_x(&x_ln, lay.col_pow, rows);
    let v = prove_var(set, config, x0, &x_ln, &sum_x, acc, oracle);
    let ghost mid = *oracle;
    assert(mid.upcoming(dividend_count(*config)) =~= dividend_tape(*config, tape));
    let a = prove_dividend(set, config, weights, x0, &x_ln, &sum_x, acc, oracle);
    let ghost last = *oracle;
    assert(last.upcoming(sum_exp_count(*config)) =~= sum_exp_tape(*config, tape));
    let s = prove_sum_exp(set, config, acc, oracle);
    let ghost (gv, ga, gs) = (v, a, s);
    let r = SumFeatProof {
        q2_claim: v.q2_claim,
        q2: v.q2,
        q2_x: v.q2_x,
        sq_claim: v.sq_claim,
        sq: v.sq,
        sq_x: v.sq_x,
        var_v: v.var_v,
        aln_claim: a.claim,
        aln: a.proof,
        aln_x: a.x,
        aln_sumx: a.sumx,
        aln_v: a.v,
        se: s.proof,
        se_sum: s.sum,
        se_exp: s.exp,
    };
    proof {
        assert(r.var_part() == gv);
        assert(r.dividend_part() == ga);
        assert(r.sum_exp_part() == gs);
        assert(acc.contents() =~= before + feature_claims(r, *config, tape));
    }
    r
}

/// Checks the three relations and records the claims. A proof that lacks a variance
/// or a dividend is rejected before a challenge is read, and a sumcheck with another
/// number of rounds than the layout's is rejected once its round checks are through.
#[verifier::rlimit(80)]
pub fn verify_sumfeat(
    proof: &SumFeatProof,
    set: &CommitSet,
    config: &Config,
    weights: &ModelWeights,
    x0: &Matrix,
    acc: &mut ClaimAccumulator,
    oracle: &mut RandomOracle<EF>,
) -> (r: bool)
    requires
        weights_ready(*config, *weights),
        x0.wf(),
        ({
            let d = var_draws(
                *config,
                old(oracle).upcoming(features_extent(*proof, *config)),
            );
            features_shape(*proof, *config) && weighted_ok(
                proof.q2_claim,
                proof.q2,
                square_weights(*config, d),
                3,
                d.q2,
            )
        }) ==> config.n_layer > 0 && residual::embeds(*config, x0.grid()),
        old(oracle).has_fields(
            features_read(
                *proof,
                *config,
                *weights,
                x0.grid(),
                old(oracle).upcoming(features_extent(*proof, *config)),
            ) as int,
        ),
    ensures
        ({
            let tape = old(oracle).upcoming(feature_draws(*config));
            &&& r == features_accepted(*proof, *config, *weights, x0.grid(), tape)
            &&& final(acc).contents() == old(acc).contents() + features_recorded(
                *proof,
                *config,
                *weights,
                x0.grid(),
                tape,
            )
            &&& r ==> features_recorded(*proof, *config, *weights, x0.grid(), tape)
                == feature_claims(*proof, *config, tape)
            &&& final(oracle).wf()
            &&& old(oracle).advanced(
                *final(oracle),
                features_read(
                    *proof,
                    *config,
                    *weights,
                    x0.grid(),
                    old(oracle).upcoming(features_extent(*proof, *config)),
                ) as int,
                0,
            )
            &&& r ==> old(oracle).advanced(*final(oracle), feature_draws(*config) as int, 0)
        }),
{
    let ghost before = acc.contents();
    let ghost start = *oracle;
    let ghost tape = oracle.upcoming(feature_draws(*config));
    let ghost ahead = oracle.upcoming(features_extent(*proof, *config));
    let ghost (vc, dc) = (var_count(*config), dividend_count(*config));
    proof {
        assert(var_tape(*config, ahead) =~= var_tape(*config, tape));
        assert(dividend_tape(*config, ahead) =~= dividend_tape(*config, tape));
    }
    let n: usize = 2 * config.n_layer + 1;
    if proof.var_v.len() != n || proof.aln_v.len() != n {
        return false;
    }
    proof {
        assert(start.upcoming(var_count(*config)) =~= var_tape(*config, tape));
        let vd = var_draws(*config, var_tape(*config, ahead));
        let e = var_draws(*config, ahead);
        assert(e.rho =~= vd.rho && e.q2 =~= vd.q2 && e.sq =~= vd.sq && e.gamma == vd.gamma);
        if var_accepted(proof.var_part(), *config, x0.grid(), vd) {
            lemma_var_read(proof.var_part(), *config, x0.grid(), ahead);
        }
    }
    if !verify_var(proof, config, x0, Ghost(ahead), acc, oracle) {
        return false;
    }
    let ghost mid = *oracle;
    proof {
        assert(mid.upcoming(dividend_count(*config)) =~= dividend_tape(*config, tape));
        let rest = ahead.skip(vc as int);
        assert(mid.upcoming(rest.len()) =~= rest);
        let dt = dividend_tape(*config, ahead);
        assert(dt =~= rest.take(dc as int));
        if dividend_accepted(
            proof.dividend_part(),
            *config,
            *weights,
            x0.grid(),
            dividend_draws(*config, dt),
        ) {
            lemma_dividend_read(proof.dividend_part(), *config, *weights, x0.grid(), dt, rest);
        }
    }
    if !verify_dividend(proof, config, weights, x0, Ghost(ahead.skip(vc as int)), acc, oracle) {
        return false;
    }
    let ghost last = *oracle;
    let ghost tail = ahead.skip((vc + dc) as int);
    proof {
        assert(last.upcoming(sum_exp_count(*config)) =~= sum_exp_tape(*config, tape));
        assert(last.upcoming(tail.len()) =~= tail);
    }
    let r = verify_sum_exp(proof, config, Ghost(tail), acc, oracle);
    if r {
        assert(acc.contents() =~= before + feature_claims(*proof, *config, tape));
    }
    r
}

/// A power is zero only for a base of zero.
proof fn lemma_pow_nonzero(x: EF, e: nat)
    requires
        x.valid(),
        x != EF::zero(),
    ensures
        domain::pow(x, e) != EF::zero(),
        domain::pow(x, e).valid(),
    decreases e,
{
    EF::law_nontrivial();
    EF::law_valid(x, x);
    if e > 0 {
        lemma_pow_nonzero(x, (e - 1) as nat);
        algebra::mul_nonzero(x, domain::pow(x, (e - 1) as nat));
        EF::law_valid(x, domain::pow(x, (e - 1) as nat));
    }
}

/// Two lists of values that differ in one place have one combination only if the
/// combining challenge is zero and the place is not the first.
proof fn lemma_gamma_changed(gamma: EF, a: Seq<EF>, b: Seq<EF>, i: int)
    requires
        gamma.valid(),
        a.len() == b.len(),
        0 <= i < a.len(),
        a[i].valid(),
        b[i].valid(),
        a[i] != b[i],
        forall|k: int| 0 <= k < a.len() && k != i ==> #[trigger] a[k] == b[k],
        gamma_sum(gamma, a) == gamma_sum(gamma, b),
    ensures
        i > 0,
        gamma == EF::zero(),
{
    let f = |k: int| domain::pow(gamma, k as nat) * a[k];
    let g = |k: int| domain::pow(gamma, k as nat) * b[k];
    let p = domain::pow(gamma, i as nat);
    assert forall|k: int| 0 <= k < a.len() && k != i implies #[trigger] f(k) == g(k) by {
        assert(a[k] == b[k]);
    }
    EF::law_valid(p, a[i]);
    EF::law_valid(p, b[i]);
    algebra::sum_changed(a.len(), i, f, g);
    EF::law_mul_comm(p, a[i]);
    EF::law_mul_comm(p, b[i]);
    if gamma != EF::zero() {
        lemma_pow_nonzero(gamma, i as nat);
        algebra::mul_cancel(a[i], b[i], p);
    }
    if i == 0 {
        EF::law_nontrivial();
        algebra::one_mul(a[i]);
        algebra::one_mul(b[i]);
    }
}

/// Rejection of another softmax sum, whatever the draws: two proofs that agree in the
/// final values of the softmax sumcheck and in the opened exponential are both accepted
/// only if they claim one sum.
pub proof fn law_sum_bound(
    p: SumFeatProof,
    q: SumFeatProof,
    config: Config,
    w: ModelWeights,
    x0: Grid,
    tape: Seq<EF>,
)
    requires
        p.se_sum.valid(),
        q.se_sum.valid(),
        q.se_exp == p.se_exp,
        q.se.final_evals@ == p.se.final_evals@,
        features_accepted(p, config, w, x0, tape),
        features_accepted(q, config, w, x0, tape),
    ensures
        p.se_sum == q.se_sum,
{
    let k = key_count(config) * p.se_exp;
    algebra::sub_add(p.se_sum, k);
    algebra::sub_add(q.se_sum, k);
}

/// Rejection of another variance: two proofs with the same claims that differ in one
/// opened variance are both accepted only if the challenge that combines the variances is
/// drawn as zero, and never if it is the first variance.
pub proof fn law_variance_bound(
    p: SumFeatProof,
    q: SumFeatProof,
    config: Config,
    w: ModelWeights,
    x0: Grid,
    tape: Seq<EF>,
    i: int,
)
    requires
        tape.len() == feature_draws(config),
        algebra::all_valid(tape),
        q.q2_claim == p.q2_claim,
        q.sq_claim == p.sq_claim,
        0 <= i < p.var_v@.len(),
        algebra::all_valid(p.var_v@),
        algebra::all_valid(q.var_v@),
        p.var_v@[i] != q.var_v@[i],
        forall|k: int| 0 <= k < p.var_v@.len() && k != i ==> #[trigger] p.var_v@[k] == q.var_v@[k],
        features_accepted(p, config, w, x0, tape),
        features_accepted(q, config, w, x0, tape),
    ensures
        i > 0,
        var_draws(config, var_tape(config, tape)).gamma == EF::zero(),
{
    let gamma = var_draws(config, var_tape(config, tape)).gamma;
    assert(gamma == tape[0]);
    assert(tape[0].valid());
    assert(p.var_v@[i].valid() && q.var_v@[i].valid());
    lemma_gamma_changed(gamma, p.var_v@, q.var_v@, i);
}

/// Rejection of another dividend: two proofs with the same claim that differ in one
/// opened dividend are both accepted only if the challenge that combines the dividends is
/// drawn as zero, and never if it is the first dividend.
pub proof fn law_dividend_bound(
    p: SumFeatProof,
    q: SumFeatProof,
    config: Config,
    w: ModelWeights,
    x0: Grid,
    tape: Seq<EF>,
    i: int,
)
    requires
        tape.len() == feature_draws(config),
        algebra::all_valid(tape),
        q.aln_claim == p.aln_claim,
        0 <= i < p.aln_v@.len(),
        algebra::all_valid(p.aln_v@),
        algebra::all_valid(q.aln_v@),
        p.aln_v@[i] != q.aln_v@[i],
        forall|k: int| 0 <= k < p.aln_v@.len() && k != i ==> #[trigger] p.aln_v@[k] == q.aln_v@[k],
        features_accepted(p, config, w, x0, tape),
        features_accepted(q, config, w, x0, tape),
    ensures
        i > 0,
        dividend_draws(config, dividend_tape(config, tape)).gamma == EF::zero(),
{
    let gamma = dividend_draws(config, dividend_tape(config, tape)).gamma;
    assert(gamma == tape[var_count(config) as int]);
    assert(tape[var_count(config) as int].valid());
    assert(p.aln_v@[i].valid() && q.aln_v@[i].valid());
    lemma_gamma_changed(gamma, p.aln_v@, q.aln_v@, i);
}

} // verus!
