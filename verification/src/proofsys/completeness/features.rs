//! Completeness of the normalization and softmax sums.
use vstd::prelude::*;
use vstd::arithmetic::div_mod;
use vstd::arithmetic::power2::pow2;
use crate::algebra;
use crate::field::Field;
use crate::multilinear;
use crate::pcs::domain;
use crate::pcs::ligesis::identities;
use crate::proofsys::canonical;
use crate::proofsys::canonical::{Kind, EXP, SUM_EXP, X_OUT};
use crate::proofsys::commit;
use crate::proofsys::completeness;
use crate::proofsys::faithful::operands;
use crate::proofsys::grid;
use crate::proofsys::grid::Grid;
use crate::proofsys::model;
use crate::proofsys::model::ModelWeights;
use crate::proofsys::protocol::EF;
use crate::proofsys::reduce;
use crate::proofsys::residual;
use crate::proofsys::sumfeat;
use crate::proofsys::sumfeat::{DividendDraws, DividendPart, SumExpPart, SumFeatProof, VarDraws, VarPart};
use crate::proofsys::witness::{Config, WitnessView};
use crate::tables;
use crate::utils::sumcheck;
use crate::utils::sumcheck::SumcheckProof;

verus! {

/// Twice one half is one.
proof fn lemma_half()
    ensures
        sumfeat::half().valid(),
        (EF::one() + EF::one()) * sumfeat::half() == EF::one(),
        EF::embed(2) == EF::one() + EF::one(),
{
    EF::law_embed(1, 1);
    EF::law_embed(2, 2);
    EF::law_valid(EF::one(), EF::one());
    EF::law_inv(EF::one() + EF::one());
}

/// Twice the midpoint is the sum.
proof fn lemma_midpoint(a: EF, b: EF)
    requires
        a.valid(),
        b.valid(),
    ensures
        EF::embed(2) * algebra::lerp(a, b, sumfeat::half()) == a + b,
{
    lemma_half();
    let h = sumfeat::half();
    let two = EF::embed(2);
    let d = b - a;
    EF::law_valid(b, a);
    EF::law_distrib(two, a, h * d);
    EF::law_mul_assoc(two, h, d);
    algebra::one_mul(d);
    algebra::distrib_right(EF::one(), EF::one(), a);
    algebra::one_mul(a);
    // two * a + d == a + (a + (b - a)) == a + b.
    EF::law_add_assoc(a, a, d);
    EF::law_add_comm(a, d);
    algebra::sub_add(b, a);
}

/// A table at the midpoint, times its length, is the sum of its entries.
proof fn lemma_halves_sum(s: Seq<EF>, n: nat)
    requires
        s.len() == pow2(n),
        algebra::all_valid(s),
    ensures
        EF::embed(pow2(n) as int) * multilinear::mle(s, sumfeat::halves(n)) == algebra::sum(
            s.len(),
            |i: int| s[i],
        ),
    decreases n,
{
    let f = |i: int| s[i];
    if n == 0 {
        multilinear::lemma_pow2_zero();
        assert(sumfeat::halves(0).len() == 0);
        EF::law_embed(1, 1);
        algebra::one_mul(s[0]);
        reveal_with_fuel(algebra::sum, 2);
        algebra::zero_add(s[0]);
    } else {
        let m = (n - 1) as nat;
        multilinear::lemma_pow2_step(n);
        let p = sumfeat::halves(n);
        let q = sumfeat::halves(m);
        assert(p.drop_first() =~= q);
        let t = multilinear::fold_low(s, sumfeat::half());
        multilinear::lemma_fold_low_valid(s, sumfeat::half());
        let two = EF::embed(2);
        let u = Seq::new(t.len(), |i: int| two * t[i]);
        assert forall|i: int| 0 <= i < u.len() implies (#[trigger] u[i]).valid() by {
            EF::law_valid(two, t[i]);
        }
        lemma_halves_sum(u, m);
        multilinear::lemma_mle_scale(two, t, q);
        let v = multilinear::mle(t, q);
        let k = EF::embed(pow2(m) as int);
        EF::law_embed(pow2(m) as int, 2);
        EF::law_mul_assoc(k, two, v);
        assert(multilinear::mle(s, p) == v);
        assert(pow2(n) as int == pow2(m) as int * 2);
        let g = |i: int| u[i];
        let h = |i: int| f(2 * i) + f(2 * i + 1);
        assert forall|i: int| 0 <= i < u.len() implies #[trigger] g(i) == h(i) by {
            lemma_midpoint(s[2 * i], s[2 * i + 1]);
        }
        algebra::sum_ext(u.len(), g, h);
        algebra::sum_pairs(u.len(), f);
    }
}

/// Row sums are the table with its column variables at the midpoint, times the number of
/// columns.
pub proof fn lemma_row_sums(x: Seq<EF>, c: nat, n: nat, k: int)
    requires
        x.len() == pow2(c + n),
        algebra::all_valid(x),
        0 <= k < pow2(n),
    ensures
        sumfeat::row_sum_at(x, pow2(c), k) == EF::embed(pow2(c) as int) * multilinear::fold_all(
            x,
            sumfeat::halves(c),
        )[k],
{
    let cp = pow2(c);
    vstd::arithmetic::power2::lemma_pow2_adds(c, n);
    multilinear::lemma_fold_block(x, sumfeat::halves(c), c + n, k);
    let block = x.subrange(k * cp, (k + 1) * cp);
    assert((k + 1) * cp == k * cp + cp) by (nonlinear_arith);
    lemma_halves_sum(block, c);
    algebra::sum_ext(cp, |i: int| block[i], |i: int| x[k * cp + i]);
}

/// The table of row sums at a point.
pub proof fn lemma_sums_value(x: Seq<EF>, c: nat, q: Seq<EF>)
    requires
        x.len() == pow2(c + q.len()),
        algebra::all_valid(x),
    ensures
        multilinear::mle(sumfeat::row_sums(x, pow2(c), pow2(q.len())), q) == EF::embed(
            pow2(c) as int,
        ) * multilinear::mle(x, sumfeat::halves(c) + q),
{
    let h = sumfeat::halves(c);
    let f = multilinear::fold_all(x, h);
    let k = EF::embed(pow2(c) as int);
    multilinear::lemma_fold_all_len(x, h, c + q.len());
    multilinear::lemma_fold_all_concat(x, h, q);
    multilinear::lemma_mle_scale(k, f, q);
    let s = sumfeat::row_sums(x, pow2(c), pow2(q.len()));
    let t = Seq::new(f.len(), |i: int| k * f[i]);
    assert(s =~= t) by {
        assert forall|i: int| 0 <= i < t.len() implies #[trigger] s[i] == t[i] by {
            lemma_row_sums(x, c, q.len(), i);
        }
    }
}

/// The sum over three factors.
pub proof fn lemma_hypercube_three(a: Seq<EF>, b: Seq<EF>, c: Seq<EF>)
    requires
        algebra::all_valid(a),
    ensures
        sumcheck::hypercube_sum(seq![a, b, c]) == algebra::sum(
            a.len(),
            |k: int| (a[k] * b[k]) * c[k],
        ),
{
    let polys = seq![a, b, c];
    let f = |i: int| sumcheck::vertex_product(polys, i);
    let g = |k: int| (a[k] * b[k]) * c[k];
    assert forall|i: int| 0 <= i < a.len() implies #[trigger] f(i) == g(i) by {
        let h = |j: int| polys[j][i];
        reveal_with_fuel(algebra::prod, 4);
        algebra::one_mul(a[i]);
        assert(h(0) == a[i] && h(1) == b[i] && h(2) == c[i]);
        algebra::prod_ext(3, h, |j: int| polys[j][i]);
        assert(algebra::prod(3, h) == ((EF::one() * a[i]) * b[i]) * c[i]);
    }
    assert(polys[0] == a);
    algebra::sum_ext(a.len(), f, g);
}

/// Regrouping a sum by blocks.
pub proof fn lemma_blocks(n: nat, m: nat, f: spec_fn(int) -> EF)
    ensures
        algebra::sum(n * m, f) == algebra::sum(
            n,
            |i: int| algebra::sum(m, |e: int| f(i * m + e)),
        ),
    decreases n,
{
    let g = |i: int| algebra::sum(m, |e: int| f(i * m + e));
    if n == 0 {
        assert(n * m == 0) by (nonlinear_arith)
            requires
                n == 0,
        ;
    } else {
        let k = (n - 1) as nat;
        lemma_blocks(k, m, f);
        assert(n * m == k * m + m) by (nonlinear_arith)
            requires
                n == k + 1,
        ;
        algebra::sum_split(k * m, m, f);
        assert(algebra::sum(n * m, f) == algebra::sum(k * m, f) + algebra::sum(
            m,
            |i: int| f((k * m) as int + i),
        ));
        algebra::sum_ext(m, |i: int| f((k * m) as int + i), |e: int| f(k * m + e));
    }
}

/// Weighting a table by the powers of `gamma` over its blocks and by the weights of `rho`
/// within them gives the blocks' values at `rho`, weighted by the powers.
pub proof fn lemma_gamma_blocks(t: Seq<EF>, rho: Seq<EF>, gamma: EF, n: nat, ib: nat, f: spec_fn(int) -> EF)
    requires
        t.len() == pow2(rho.len() + ib),
        algebra::all_valid(t),
        n <= pow2(ib),
        forall|k: int| 0 <= k < t.len() ==> #[trigger] f(k) == sumfeat::block_weight_at(
            rho,
            gamma,
            1,
            k,
        ) * t[k],
        forall|k: int| n * pow2(rho.len()) <= k < t.len() ==> #[trigger] t[k] == EF::zero(),
    ensures
        algebra::sum(t.len(), f) == algebra::sum(
            n,
            |i: int| domain::pow(gamma, i as nat) * commit::block_value(t, rho, i),
        ),
{
    let m = pow2(rho.len());
    let blocks = pow2(ib);
    vstd::arithmetic::power2::lemma_pow2_adds(rho.len(), ib);
    multilinear::lemma_pow2_mono(0, rho.len());
    assert(t.len() == blocks * m) by (nonlinear_arith)
        requires
            t.len() == m * blocks,
    ;
    lemma_blocks(blocks, m, f);
    let g = |i: int| algebra::sum(m, |e: int| f(i * m + e));
    let h = |i: int| domain::pow(gamma, i as nat) * commit::block_value(t, rho, i);
    multilinear::lemma_eq_table_len(rho);
    assert forall|i: int| 0 <= i < blocks implies #[trigger] g(i) == h(i) by {
        completeness::lemma_block_range(m, blocks, i);
        let block = t.subrange(i * m, (i + 1) * m);
        let pw = domain::pow(gamma, i as nat);
        multilinear::lemma_mle_sum(block, rho);
        let a = |e: int| block[e] * multilinear::eq_table(rho)[e];
        let b = |e: int| f(i * m + e);
        let c = |e: int| pw * a(e);
        assert forall|e: int| 0 <= e < m implies #[trigger] b(e) == c(e) by {
            let k = i * m + e;
            div_mod::lemma_fundamental_div_mod_converse(k, m as int, i, e);
            div_mod::lemma_div_basics(k);
            assert(k < (i + 1) * m);
            let w = multilinear::eq_table(rho)[e];
            assert(f(k) == (w * pw) * t[k]);
            EF::law_mul_comm(w, pw);
            EF::law_mul_assoc(pw, w, t[k]);
            EF::law_mul_comm(w, t[k]);
        }
        algebra::sum_ext(m, b, c);
        algebra::sum_scale(m, pw, a);
    }
    algebra::sum_ext(blocks, g, h);
    // Blocks of padding are zero.
    let rest = (blocks - n) as nat;
    algebra::sum_split(n, rest, h);
    let tail = |i: int| h(n + i);
    assert forall|i: int| 0 <= i < rest implies #[trigger] tail(i) == EF::zero() by {
        let j = n + i;
        completeness::lemma_block_range(m, blocks, j);
        let block = t.subrange(j * m, (j + 1) * m);
        assert(n * m <= j * m) by (nonlinear_arith)
            requires
                n <= j,
                0 <= m,
        ;
        tables::lemma_mle_zero(block, rho);
        algebra::mul_zero(domain::pow(gamma, j as nat));
    }
    algebra::sum_zero(rest, tail);
    algebra::sum_valid(n, h);
    EF::law_add_zero(algebra::sum(n, h));
}

/// In a forward pass, normalization `i` is that of the stream before it.
proof fn lemma_norm_at(x0: Grid, w: ModelWeights, config: Config, i: int)
    requires
        config.n_layer > 0,
        w.blocks@.len() == config.n_layer,
        0 <= i < sumfeat::norm_count(config),
    ensures
        ({
            let wit = model::forward_of(x0, w, config);
            let x = completeness::output_input(wit, i);
            let gain = sumfeat::gain_of(config, w, i);
            &&& canonical::norm_at(wit, i).input == x
            &&& canonical::norm_at(wit, i).dividend == grid::tabulate(
                x.rows,
                x.cols,
                |r: int, c: int| model::centred(x, gain, r, c),
            )
            &&& canonical::norm_at(wit, i).var_sum == Seq::new(
                x.rows,
                |r: int| model::variance(x, r),
            )
        }),
{
    let wit = model::forward_of(x0, w, config);
    let n = config.n_layer as int;
    let l = i / 2;
    if i == 2 * n {
        assert((i - 1) / 2 == n - 1 && (i - 1) % 2 == 1);
        assert(wit.blocks[n - 1] == model::block_of(
            model::stream(x0, w, config, (n - 1) as nat),
            w.blocks@[n - 1],
            w,
            config,
        ));
    } else {
        assert(wit.blocks[l] == model::block_of(
            model::stream(x0, w, config, l as nat),
            w.blocks@[l],
            w,
            config,
        ));
        if i % 2 == 0 {
            if i > 0 {
                assert((i - 1) / 2 == l - 1 && (i - 1) % 2 == 1);
                assert(wit.blocks[l - 1] == model::block_of(
                    model::stream(x0, w, config, (l - 1) as nat),
                    w.blocks@[l - 1],
                    w,
                    config,
                ));
            }
        } else {
            assert((i - 1) / 2 == l && (i - 1) % 2 == 0);
        }
    }
}

/// The shape of a normalization's input.
proof fn lemma_input_shape(x0: Grid, w: ModelWeights, config: Config, i: int)
    requires
        model::config_fits(config),
        w.wf(config),
        w.blocks@.len() == config.n_layer,
        canonical::grid_is(x0, config.n_seq as nat, config.d_model as nat),
        0 <= i < sumfeat::norm_count(config),
    ensures
        canonical::grid_is(
            completeness::output_input(model::forward_of(x0, w, config), i),
            config.n_seq as nat,
            config.d_model as nat,
        ),
{
    let wit = model::forward_of(x0, w, config);
    completeness::law_forward_shaped(x0, w, config);
    if i > 0 {
        assert(canonical::block_shaped(wit.blocks[(i - 1) / 2], config));
    }
}

/// The forward pass and the commitments that the features speak of.
pub open spec fn features_committed(
    polys: Map<Seq<char>, Seq<EF>>,
    config: Config,
    w: ModelWeights,
    x0: Grid,
) -> bool {
    let wit = model::forward_of(x0, w, config);
    &&& canonical::sizes_fit(config)
    &&& model::config_fits(config)
    &&& w.wf(config)
    &&& config.n_layer > 0
    &&& w.blocks@.len() == config.n_layer
    &&& canonical::grid_is(x0, config.n_seq as nat, config.d_model as nat)
    &&& completeness::commits_kind(polys, wit, config, Kind::XOut)
    &&& completeness::commits_kind(polys, wit, config, Kind::Var)
    &&& completeness::commits_kind(polys, wit, config, Kind::ALn)
    &&& completeness::commits_kind(polys, wit, config, Kind::Exp)
    &&& completeness::commits_kind(polys, wit, config, Kind::SumExp)
}

/// The entry of the stacked inputs in row `r` and column `c` of normalization `i`.
pub open spec fn input_cell(wit: WitnessView, config: Config, i: int, r: int, c: int) -> int {
    let x = completeness::output_input(wit, i);
    if i < sumfeat::norm_count(config) && r < config.n_seq && c < config.d_model {
        x.at(r, c)
    } else {
        0
    }
}

/// The stacked inputs hold the entries of the stream.
proof fn lemma_x_cell(
    polys: Map<Seq<char>, Seq<EF>>,
    config: Config,
    w: ModelWeights,
    x0: Grid,
    i: int,
    r: int,
    c: int,
)
    requires
        features_committed(polys, config, w, x0),
        0 <= i < pow2(sumfeat::inst_bits(config)),
        0 <= r < pow2(sumfeat::row_bits(config)),
        0 <= c < pow2(sumfeat::col_bits(config)),
    ensures
        ({
            let (rp, cp) = (
                pow2(sumfeat::row_bits(config)),
                pow2(sumfeat::col_bits(config)),
            );
            let k = (i * rp + r) * cp + c;
            let x = sumfeat::x_table(polys, config, x0);
            &&& 0 <= k < x.len()
            &&& k == i * pow2(sumfeat::elem_bits(config)) + (r * cp + c)
            &&& 0 <= r * cp + c < pow2(sumfeat::elem_bits(config))
            &&& x[k] == EF::embed(
                input_cell(model::forward_of(x0, w, config), config, i, r, c),
            )
        }),
{
    let wit = model::forward_of(x0, w, config);
    let (rp, cp) = (pow2(sumfeat::row_bits(config)), pow2(sumfeat::col_bits(config)));
    let m = pow2(sumfeat::elem_bits(config));
    let ip = pow2(sumfeat::inst_bits(config));
    sumfeat::lemma_feature_sizes(config);
    let e = r * cp + c;
    let k = (i * rp + r) * cp + c;
    grid::lemma_cell(rp, cp, r, c);
    assert(k == i * m + e) by (nonlinear_arith)
        requires
            k == (i * rp + r) * cp + c,
            e == r * cp + c,
            m == rp * cp,
    ;
    grid::lemma_cell(ip, m, i, e);
    if i < sumfeat::norm_count(config) {
        lemma_input_shape(x0, w, config, i);
        let g = completeness::output_input(wit, i);
        EF::law_embed(0, 0);
        if i == 0 {
            residual::lemma_embedding(config, x0);
            assert(residual::embedding_table(config, x0)[e] == EF::embed(
                canonical::padded_cell(x0, cp, e),
            ));
        } else {
            let j = i - 1;
            completeness::lemma_kind_table(wit, config, Kind::XOut);
            canonical::lemma_sizes(config, Kind::XOut);
            let gs = canonical::instances_of(wit, config, Kind::XOut);
            canonical::lemma_stacked_cell(gs, rp, cp, 0, j, r, c);
            assert(j * (rp * cp) + (r * cp + c) == j * m + e);
            assert(gs[j] == g);
            assert(residual::norm_source(config, i) == residual::ResidualSource::XOut(j as usize));
            assert(j * m + e < polys[X_OUT@].len()) by {
                grid::lemma_cell(
                    pow2(canonical::inst_bits(config, Kind::XOut)),
                    m,
                    j,
                    e,
                );
            }
            assert(polys[X_OUT@][j * m + e] == EF::embed(
                canonical::stacked_cell(gs, rp, cp, 0, j * (rp * cp) + (r * cp + c)),
            ));
        }
    } else {
        EF::law_embed(0, 0);
    }
}

/// The committed outputs have the layout's length and canonical values, and the embedding
/// has its shape.
pub open spec fn inputs_committed(
    polys: Map<Seq<char>, Seq<EF>>,
    config: Config,
    x0: Grid,
) -> bool {
    &&& canonical::sizes_fit(config)
    &&& config.n_layer > 0
    &&& canonical::grid_is(x0, config.n_seq as nat, config.d_model as nat)
    &&& polys[X_OUT@].len() == pow2(canonical::all_bits(config, Kind::XOut))
    &&& algebra::all_valid(polys[X_OUT@])
}

proof fn lemma_inputs_committed(
    polys: Map<Seq<char>, Seq<EF>>,
    config: Config,
    w: ModelWeights,
    x0: Grid,
)
    requires
        features_committed(polys, config, w, x0),
    ensures
        inputs_committed(polys, config, x0),
{
    completeness::lemma_kind_table(model::forward_of(x0, w, config), config, Kind::XOut);
}

/// The stacked inputs are a table of valid elements.
pub proof fn lemma_x_valid(polys: Map<Seq<char>, Seq<EF>>, config: Config, x0: Grid)
    requires
        inputs_committed(polys, config, x0),
    ensures
        algebra::all_valid(sumfeat::x_table(polys, config, x0)),
{
    let x = sumfeat::x_table(polys, config, x0);
    let m = pow2(sumfeat::elem_bits(config));
    let ip = pow2(sumfeat::inst_bits(config));
    sumfeat::lemma_feature_sizes(config);
    canonical::lemma_sizes(config, Kind::XOut);
    residual::lemma_embedding(config, x0);
    EF::law_embed(0, 0);
    assert forall|k: int| 0 <= k < x.len() implies (#[trigger] x[k]).valid() by {
        grid::lemma_position(ip, m, k);
        let (i, e) = (k / m as int, k % m as int);
        if i == 0 {
            EF::law_embed(
                canonical::padded_cell(
                    x0,
                    pow2(canonical::col_bits(config, Kind::XOut)),
                    e,
                ),
                0,
            );
        } else if i < sumfeat::norm_count(config) {
            grid::lemma_cell(pow2(canonical::inst_bits(config, Kind::XOut)), m, i - 1, e);
            assert(polys[X_OUT@][(i - 1) * m + e].valid());
        }
    }
}

/// The stacked inputs at a point are the combination of the inputs at its element part.
pub proof fn lemma_x_value(
    polys: Map<Seq<char>, Seq<EF>>,
    config: Config,
    x0: Grid,
    p: Seq<EF>,
    inst: Seq<EF>,
)
    requires
        inputs_committed(polys, config, x0),
        p.len() == sumfeat::elem_bits(config),
        inst.len() == sumfeat::inst_bits(config),
    ensures
        multilinear::mle(sumfeat::x_table(polys, config, x0), p + inst) == sumfeat::combined(
            inst,
            sumfeat::inputs_at(polys, config, x0, p),
        ),
{
    let x = sumfeat::x_table(polys, config, x0);
    let m = pow2(sumfeat::elem_bits(config));
    let ip = pow2(sumfeat::inst_bits(config));
    let n = sumfeat::norm_count(config);
    sumfeat::lemma_feature_sizes(config);
    lemma_x_valid(polys, config, x0);
    assert(m * ip == x.len()) by (nonlinear_arith)
        requires
            x.len() == ip * m,
    ;
    commit::law_instance_combination(x, p, inst);
    let vals = sumfeat::inputs_at(polys, config, x0, p);
    let eq = multilinear::eq_table(inst);
    let f = |j: int| commit::block_value(x, p, j) * eq[j];
    let rest = (ip - n) as nat;
    algebra::sum_split(n, rest, f);
    let tail = |i: int| f(n + i);
    assert forall|i: int| 0 <= i < rest implies #[trigger] tail(i) == EF::zero() by {
        let j = n + i;
        completeness::lemma_block_range(m, ip, j);
        let block = x.subrange(j * m, (j + 1) * m);
        assert forall|e: int| 0 <= e < m implies #[trigger] block[e] == EF::zero() by {
            div_mod::lemma_fundamental_div_mod_converse(j * m + e, m as int, j, e);
        }
        tables::lemma_mle_zero(block, p);
        algebra::mul_zero(eq[j]);
        EF::law_mul_comm(EF::zero(), eq[j]);
    }
    algebra::sum_zero(rest, tail);
    algebra::sum_valid(n, f);
    EF::law_add_zero(algebra::sum(n, f));
    let g = |i: int| eq[i] * vals[i];
    assert forall|i: int| 0 <= i < n implies #[trigger] f(i) == g(i) by {
        completeness::lemma_block_range(m, ip, i);
        let block = x.subrange(i * m, (i + 1) * m);
        if i == 0 {
            let t = residual::embedding_table(config, x0);
            assert(i * m == 0);
            assert(block =~= t) by {
                assert forall|e: int| 0 <= e < m implies #[trigger] block[e] == t[e] by {
                    div_mod::lemma_fundamental_div_mod_converse(e, m as int, 0, e);
                    assert(x[e] == sumfeat::x_at(polys, config, x0, e));
                }
            }
        } else {
            let j = i - 1;
            let t = polys[X_OUT@];
            canonical::lemma_sizes(config, Kind::XOut);
            commit::law_instance_slice(
                t,
                p,
                j as nat,
                canonical::inst_bits(config, Kind::XOut),
            );
            let other = t.subrange(j * m, (j + 1) * m);
            assert((j + 1) * m == j * m + m) by (nonlinear_arith);
            assert(block =~= other) by {
                assert forall|e: int| 0 <= e < m implies #[trigger] block[e] == other[e] by {
                    div_mod::lemma_fundamental_div_mod_converse(i * m + e, m as int, i, e);
                }
            }
        }
        EF::law_mul_comm(commit::block_value(x, p, i), eq[i]);
    }
    algebra::sum_ext(n, f, g);
}

/// The openings of the inputs are true.
proof fn lemma_input_claims(
    polys: Map<Seq<char>, Seq<EF>>,
    config: Config,
    x0: Grid,
    p: Seq<EF>,
    n: nat,
)
    requires
        n <= sumfeat::norm_count(config),
    ensures
        commit::all_hold(
            sumfeat::input_claims(config, p, sumfeat::inputs_at(polys, config, x0, p), n),
            polys,
        ),
    decreases n,
{
    if n > 0 {
        lemma_input_claims(polys, config, x0, p, (n - 1) as nat);
    }
}

/// The openings of a kind's instances are true.
proof fn lemma_kind_claims(
    polys: Map<Seq<char>, Seq<EF>>,
    config: Config,
    kind: Kind,
    p: Seq<EF>,
    n: nat,
)
    requires
        n <= sumfeat::norm_count(config),
    ensures
        commit::all_hold(
            sumfeat::kind_claims(
                config,
                kind,
                p,
                sumfeat::kind_values(polys, config, kind, p),
                n,
            ),
            polys,
        ),
    decreases n,
{
    if n > 0 {
        lemma_kind_claims(polys, config, kind, p, (n - 1) as nat);
    }
}

/// Honest rounds of a weighted sum are accepted.
proof fn lemma_weighted(
    claim: EF,
    proof: SumcheckProof<EF>,
    polys: Seq<Seq<EF>>,
    ch: Seq<EF>,
)
    requires
        0 < polys.len() <= 3,
        sumcheck::polys_shape(polys, ch.len()),
        forall|j: int| 0 <= j < polys.len() ==> algebra::all_valid(#[trigger] polys[j]),
        algebra::all_valid(ch),
        claim == sumcheck::hypercube_sum(polys),
        sumfeat::honest_rounds(proof, polys, ch),
    ensures
        sumfeat::weighted_ok(claim, proof, polys[0], polys.len(), ch),
        forall|j: int|
            0 <= j < polys.len() ==> #[trigger] proof.final_evals@[j] == multilinear::mle(
                polys[j],
                ch.reverse(),
            ),
{
    sumcheck::law_complete(polys, ch);
    reduce::lemma_round_count(proof, polys, ch);
}

/// Zero terms at the end do not change a sum.
proof fn lemma_isum_pad(m: nat, n: nat, f: spec_fn(int) -> int)
    requires
        m <= n,
        forall|i: int| m <= i < n ==> #[trigger] f(i) == 0,
    ensures
        grid::isum(n, f) == grid::isum(m, f),
    decreases n,
{
    if m < n {
        lemma_isum_pad(m, (n - 1) as nat, f);
        assert(f(n - 1) == 0);
    }
}

/// The sum of the squares of row `b`.
pub open spec fn square_sum_at(x: Seq<EF>, cp: nat, b: int) -> EF {
    algebra::sum(cp, |c: int| x[b * cp + c] * x[b * cp + c])
}

/// The sums of a row of the stacked inputs.
proof fn lemma_row_totals(
    polys: Map<Seq<char>, Seq<EF>>,
    config: Config,
    w: ModelWeights,
    x0: Grid,
    i: int,
    r: int,
)
    requires
        features_committed(polys, config, w, x0),
        0 <= i < pow2(sumfeat::inst_bits(config)),
        0 <= r < pow2(sumfeat::row_bits(config)),
    ensures
        ({
            let wit = model::forward_of(x0, w, config);
            let (rp, cp) = (
                pow2(sumfeat::row_bits(config)),
                pow2(sumfeat::col_bits(config)),
            );
            let x = sumfeat::x_table(polys, config, x0);
            let g = completeness::output_input(wit, i);
            let is_real = i < sumfeat::norm_count(config) && r < config.n_seq;
            &&& sumfeat::row_sum_at(x, cp, i * rp + r) == EF::embed(
                if is_real {
                    model::row_sum(g, r, config.d_model as nat)
                } else {
                    0
                },
            )
            &&& square_sum_at(x, cp, i * rp + r) == EF::embed(
                if is_real {
                    model::square_sum(g, r, config.d_model as nat)
                } else {
                    0
                },
            )
        }),
{
    let wit = model::forward_of(x0, w, config);
    let (rp, cp) = (pow2(sumfeat::row_bits(config)), pow2(sumfeat::col_bits(config)));
    let x = sumfeat::x_table(polys, config, x0);
    let g = completeness::output_input(wit, i);
    let b = i * rp + r;
    let d = config.d_model as nat;
    sumfeat::lemma_feature_sizes(config);
    canonical::lemma_sizes(config, Kind::ALn);
    let f1 = |c: int| input_cell(wit, config, i, r, c);
    let f2 = |c: int| input_cell(wit, config, i, r, c) * input_cell(wit, config, i, r, c);
    let g1 = |c: int| x[b * cp + c];
    let g2 = |c: int| x[b * cp + c] * x[b * cp + c];
    assert forall|c: int| 0 <= c < cp implies #[trigger] g1(c) == EF::embed(f1(c)) by {
        lemma_x_cell(polys, config, w, x0, i, r, c);
    }
    assert forall|c: int| 0 <= c < cp implies #[trigger] g2(c) == EF::embed(f2(c)) by {
        lemma_x_cell(polys, config, w, x0, i, r, c);
        EF::law_embed(f1(c), f1(c));
    }
    operands::lemma_embed_sum(cp, f1, g1);
    operands::lemma_embed_sum(cp, f2, g2);
    lemma_isum_pad(d, cp, f1);
    lemma_isum_pad(d, cp, f2);
    if i < sumfeat::norm_count(config) && r < config.n_seq {
        grid::lemma_isum_ext(d, f1, |c: int| g.at(r, c));
        grid::lemma_isum_ext(d, f2, |c: int| g.at(r, c) * g.at(r, c));
    } else {
        lemma_isum_pad(0, d, f1);
        lemma_isum_pad(0, d, f2);
    }
}

/// The variance relation holds in every row.
proof fn lemma_variance_cell(
    polys: Map<Seq<char>, Seq<EF>>,
    config: Config,
    w: ModelWeights,
    x0: Grid,
    b: int,
)
    requires
        features_committed(polys, config, w, x0),
        0 <= b < pow2(sumfeat::row_bits(config) + sumfeat::inst_bits(config)),
    ensures
        ({
            let cp = pow2(sumfeat::col_bits(config));
            let x = sumfeat::x_table(polys, config, x0);
            let s = sumfeat::row_sum_at(x, cp, b);
            sumfeat::feature_count(config) * square_sum_at(x, cp, b) - s * s
                == polys[canonical::VAR@][b]
        }),
        b >= sumfeat::norm_count(config) * pow2(sumfeat::row_bits(config))
            ==> polys[canonical::VAR@][b] == EF::zero(),
{
    let wit = model::forward_of(x0, w, config);
    let (rp, cp) = (pow2(sumfeat::row_bits(config)), pow2(sumfeat::col_bits(config)));
    let ip = pow2(sumfeat::inst_bits(config));
    let d = config.d_model as int;
    sumfeat::lemma_feature_sizes(config);
    grid::lemma_position(ip, rp, b);
    let (i, r) = (b / rp as int, b % rp as int);
    lemma_row_totals(polys, config, w, x0, i, r);
    let gs = canonical::instances_of(wit, config, Kind::Var);
    completeness::lemma_kind_table(wit, config, Kind::Var);
    canonical::lemma_sizes(config, Kind::Var);
    multilinear::lemma_pow2_zero();
    commit::lemma_ceil_log(1, 0);
    canonical::lemma_stacked_cell(gs, rp, 1, 0, i, r, 0);
    assert(i * (rp * 1) + (r * 1 + 0) == b) by (nonlinear_arith)
        requires
            i * rp + r == b,
    ;
    let cell = canonical::stacked_cell(gs, rp, 1, 0, b);
    assert(polys[canonical::VAR@][b] == EF::embed(cell));
    let n = sumfeat::norm_count(config);
    let is_real = i < n && r < config.n_seq;
    let g = completeness::output_input(wit, i);
    let (q, s) = if is_real {
        (model::square_sum(g, r, d as nat), model::row_sum(g, r, d as nat))
    } else {
        (0, 0)
    };
    EF::law_embed(d, q);
    EF::law_embed(s, s);
    EF::law_embed(d * q, s * s);
    EF::law_embed(0, 0);
    assert(d * q == q * d) by (nonlinear_arith);
    if i < n {
        assert(gs[i] == canonical::column(canonical::norm_at(wit, i).var_sum));
        lemma_norm_at(x0, w, config, i);
        lemma_input_shape(x0, w, config, i);
    }
    let x = sumfeat::x_table(polys, config, x0);
    assert(square_sum_at(x, cp, b) == EF::embed(q));
    assert(sumfeat::row_sum_at(x, cp, b) == EF::embed(s));
    if is_real {
        assert(cell == model::variance(g, r));
        assert(cell == d * q - s * s);
    } else {
        assert(cell == 0);
        assert(d * q - s * s == 0) by (nonlinear_arith)
            requires
                q == 0,
                s == 0,
        ;
    }
    if b >= n * rp {
        assert(i >= n) by (nonlinear_arith)
            requires
                b == i * rp + r,
                b >= n * rp,
                r < rp,
        ;
    }
}

/// Completeness of the variance relation.
proof fn lemma_var_complete(
    part: VarPart,
    polys: Map<Seq<char>, Seq<EF>>,
    config: Config,
    w: ModelWeights,
    x0: Grid,
    d: VarDraws,
)
    requires
        features_committed(polys, config, w, x0),
        d.rho.len() == sumfeat::row_bits(config),
        d.q2.len() == sumfeat::elem_bits(config) + sumfeat::inst_bits(config),
        d.sq.len() == sumfeat::row_bits(config) + sumfeat::inst_bits(config),
        algebra::all_valid(d.q2),
        algebra::all_valid(d.sq),
        sumfeat::honest_var(part, polys, config, x0, d),
    ensures
        sumfeat::var_accepted(part, config, x0, d),
        commit::all_hold(sumfeat::var_claims(part, config, d), polys),
{
    let n = sumfeat::norm_count(config);
    let x = sumfeat::x_table(polys, config, x0);
    let s = sumfeat::sum_table(polys, config, x0);
    let ws = sumfeat::square_weights(config, d);
    let vs = sumfeat::sum_weights(config, d);
    sumfeat::lemma_feature_sizes(config);
    lemma_inputs_committed(polys, config, w, x0);
    lemma_x_valid(polys, config, x0);
    assert forall|k: int| 0 <= k < ws.len() implies (#[trigger] ws[k]).valid() by {
        lemma_weight_valid(d.rho, d.gamma, pow2(sumfeat::col_bits(config)), k);
    }
    assert forall|k: int| 0 <= k < vs.len() implies (#[trigger] vs[k]).valid() by {
        lemma_weight_valid(d.rho, d.gamma, 1, k);
    }
    assert forall|k: int| 0 <= k < s.len() implies (#[trigger] s[k]).valid() by {
        algebra::sum_valid(
            pow2(sumfeat::col_bits(config)),
            |c: int| x[k * pow2(sumfeat::col_bits(config)) + c],
        );
    }
    let three = seq![ws, x, x];
    assert(three[0] == ws && three[1] == x && three[2] == x);
    lemma_hypercube_three(ws, x, x);
    lemma_weighted(part.q2_claim, part.q2, three, d.q2);
    let four = seq![vs, s, s];
    assert(four[0] == vs && four[1] == s && four[2] == s);
    lemma_hypercube_three(vs, s, s);
    lemma_weighted(part.sq_claim, part.sq, four, d.sq);
    // The openings.
    let (p, index) = (
        sumfeat::square_point(config, d.q2),
        sumfeat::square_index(config, d.q2),
    );
    assert(p + index =~= d.q2.reverse());
    lemma_x_value(polys, config, x0, p, index);
    let (sp, si) = (sumfeat::sum_point(config, d.sq), sumfeat::sum_index(config, d.sq));
    let h = sumfeat::halves(sumfeat::col_bits(config));
    assert(h + d.sq.reverse() =~= sp + si);
    assert(sumfeat::col_bits(config) + d.sq.len() == sumfeat::elem_bits(config)
        + sumfeat::inst_bits(config));
    lemma_sums_value(x, sumfeat::col_bits(config), d.sq.reverse());
    lemma_x_value(polys, config, x0, sp, si);
    assert(part.q2.final_evals@[1] == multilinear::mle(three[1], d.q2.reverse()));
    assert(part.q2.final_evals@[2] == multilinear::mle(three[2], d.q2.reverse()));
    assert(part.sq.final_evals@[1] == multilinear::mle(four[1], d.sq.reverse()));
    assert(part.sq.final_evals@[2] == multilinear::mle(four[2], d.sq.reverse()));
    lemma_variance_sum(polys, config, w, x0, d);
    lemma_input_claims(polys, config, x0, p, n);
    lemma_input_claims(polys, config, x0, sp, n);
    lemma_kind_claims(polys, config, Kind::Var, d.rho, n);
}

pub proof fn lemma_weight_valid(rho: Seq<EF>, gamma: EF, cp: nat, k: int)
    ensures
        sumfeat::block_weight_at(rho, gamma, cp, k).valid(),
{
    let rp = pow2(rho.len());
    EF::law_valid(
        multilinear::eq_table(rho)[(k / cp as int) % rp as int],
        domain::pow(gamma, ((k / cp as int) / rp as int) as nat),
    );
}

/// The variances, weighted, are the weighted squares minus the weighted squared sums.
proof fn lemma_variance_sum(
    polys: Map<Seq<char>, Seq<EF>>,
    config: Config,
    w: ModelWeights,
    x0: Grid,
    d: VarDraws,
)
    requires
        features_committed(polys, config, w, x0),
        d.rho.len() == sumfeat::row_bits(config),
    ensures
        sumfeat::gamma_sum(d.gamma, sumfeat::kind_values(polys, config, Kind::Var, d.rho))
            == sumfeat::feature_count(config) * sumfeat::weighted_squares(
            sumfeat::square_weights(config, d),
            sumfeat::x_table(polys, config, x0),
        ) - sumfeat::weighted_squares(
            sumfeat::sum_weights(config, d),
            sumfeat::sum_table(polys, config, x0),
        ),
{
    let wit = model::forward_of(x0, w, config);
    let x = sumfeat::x_table(polys, config, x0);
    let s = sumfeat::sum_table(polys, config, x0);
    let ws = sumfeat::square_weights(config, d);
    let vs = sumfeat::sum_weights(config, d);
    let cp = pow2(sumfeat::col_bits(config));
    let rows = pow2(sumfeat::row_bits(config) + sumfeat::inst_bits(config));
    let fc = sumfeat::feature_count(config);
    let t = polys[canonical::VAR@];
    let ib = sumfeat::inst_bits(config);
    let n = sumfeat::norm_count(config);
    sumfeat::lemma_feature_sizes(config);
    completeness::lemma_kind_table(wit, config, Kind::Var);
    // Squares by rows.
    let f = |k: int| (ws[k] * x[k]) * x[k];
    lemma_blocks(rows, cp, f);
    let by_row = |b: int| algebra::sum(cp, |e: int| f(b * cp + e));
    let q = |b: int| vs[b] * square_sum_at(x, cp, b);
    assert forall|b: int| 0 <= b < rows implies #[trigger] by_row(b) == q(b) by {
        let a = |c: int| x[b * cp + c] * x[b * cp + c];
        let g = |e: int| f(b * cp + e);
        let h = |c: int| vs[b] * a(c);
        assert forall|c: int| 0 <= c < cp implies #[trigger] g(c) == h(c) by {
            grid::lemma_cell(rows, cp, b, c);
            div_mod::lemma_div_basics(b);
            let k = b * cp + c;
            assert(ws[k] == vs[b]);
            EF::law_mul_assoc(ws[k], x[k], x[k]);
        }
        algebra::sum_ext(cp, g, h);
        algebra::sum_scale(cp, vs[b], a);
    }
    algebra::sum_ext(rows, by_row, q);
    let sq = |b: int| (vs[b] * s[b]) * s[b];
    // Row by row, the difference is the variance.
    let qd = |b: int| fc * q(b);
    algebra::sum_scale(rows, fc, q);
    algebra::sum_sub(rows, qd, sq);
    let diff = |b: int| qd(b) - sq(b);
    let v = |b: int| sumfeat::block_weight_at(d.rho, d.gamma, 1, b) * t[b];
    assert forall|b: int| 0 <= b < rows implies #[trigger] diff(b) == v(b) by {
        lemma_variance_cell(polys, config, w, x0, b);
        let (wt, sqr, sm) = (vs[b], square_sum_at(x, cp, b), s[b]);
        EF::law_mul_assoc(fc, wt, sqr);
        EF::law_mul_comm(fc, wt);
        EF::law_mul_assoc(wt, fc, sqr);
        EF::law_mul_assoc(wt, sm, sm);
        algebra::sub_distrib(wt, fc * sqr, sm * sm);
    }
    algebra::sum_ext(rows, diff, v);
    assert forall|k: int| n * pow2(d.rho.len()) <= k < t.len() implies #[trigger] t[k]
        == EF::zero() by {
        lemma_variance_cell(polys, config, w, x0, k);
    }
    lemma_gamma_blocks(t, d.rho, d.gamma, n, ib, v);
    let vals = sumfeat::kind_values(polys, config, Kind::Var, d.rho);
    let left = |i: int| domain::pow(d.gamma, i as nat) * vals[i];
    let right = |i: int| domain::pow(d.gamma, i as nat) * commit::block_value(t, d.rho, i);
    assert forall|i: int| 0 <= i < n implies #[trigger] left(i) == right(i) by {
        commit::law_instance_slice(t, d.rho, i as nat, ib);
    }
    algebra::sum_ext(n, left, right);
}

/// The gain times the centred entry is the stored dividend.
proof fn lemma_dividend_cell(
    polys: Map<Seq<char>, Seq<EF>>,
    config: Config,
    w: ModelWeights,
    x0: Grid,
    k: int,
)
    requires
        features_committed(polys, config, w, x0),
        0 <= k < pow2(sumfeat::elem_bits(config) + sumfeat::inst_bits(config)),
    ensures
        ({
            let cp = pow2(sumfeat::col_bits(config));
            let x = sumfeat::x_table(polys, config, x0);
            let s = sumfeat::sum_table(polys, config, x0);
            let fc = sumfeat::feature_count(config);
            sumfeat::gain_at(config, w, k) * sumfeat::centred_table(x, s, cp, fc)[k]
                == polys[canonical::A_LN@][k]
        }),
        k >= sumfeat::norm_count(config) * pow2(sumfeat::elem_bits(config))
            ==> polys[canonical::A_LN@][k] == EF::zero(),
{
    let wit = model::forward_of(x0, w, config);
    let (rp, cp) = (pow2(sumfeat::row_bits(config)), pow2(sumfeat::col_bits(config)));
    let m = pow2(sumfeat::elem_bits(config));
    let ip = pow2(sumfeat::inst_bits(config));
    let d = config.d_model as int;
    let n = sumfeat::norm_count(config);
    let x = sumfeat::x_table(polys, config, x0);
    let s = sumfeat::sum_table(polys, config, x0);
    let fc = sumfeat::feature_count(config);
    sumfeat::lemma_feature_sizes(config);
    grid::lemma_position(ip * rp, cp, k);
    let (b, c) = (k / cp as int, k % cp as int);
    grid::lemma_position(ip, rp, b);
    let (i, r) = (b / rp as int, b % rp as int);
    lemma_x_cell(polys, config, w, x0, i, r, c);
    let e = r * cp + c;
    div_mod::lemma_fundamental_div_mod_converse(k, m as int, i, e);
    lemma_row_totals(polys, config, w, x0, i, r);
    assert(s[b] == sumfeat::row_sum_at(x, cp, b));
    let gs = canonical::instances_of(wit, config, Kind::ALn);
    completeness::lemma_kind_table(wit, config, Kind::ALn);
    canonical::lemma_sizes(config, Kind::ALn);
    canonical::lemma_stacked_cell(gs, rp, cp, 0, i, r, c);
    assert(i * (rp * cp) + (r * cp + c) == k);
    let cell = canonical::stacked_cell(gs, rp, cp, 0, k);
    assert(polys[canonical::A_LN@][k] == EF::embed(cell));
    let g = completeness::output_input(wit, i);
    EF::law_embed(0, 0);
    let v = input_cell(wit, config, i, r, c);
    let total = if i < n && r < config.n_seq {
        model::row_sum(g, r, d as nat)
    } else {
        0
    };
    let y = sumfeat::centred_table(x, s, cp, fc)[k];
    EF::law_embed(d, v);
    EF::law_embed(d * v, total);
    assert(y == EF::embed(d * v - total));
    if i < n {
        lemma_norm_at(x0, w, config, i);
        lemma_input_shape(x0, w, config, i);
        assert(gs[i] == canonical::norm_at(wit, i).dividend);
    }
    if i < n && c < d {
        let gain = sumfeat::gain_of(config, w, i)[c];
        EF::law_embed(gain, d * v - total);
        if r < config.n_seq {
            grid::lemma_tabulate(
                config.n_seq as nat,
                d as nat,
                |r: int, c: int| model::centred(g, sumfeat::gain_of(config, w, i), r, c),
                r,
                c,
            );
            assert(cell == gain * (d * v - total));
        } else {
            assert(gain * (d * v - total) == 0) by (nonlinear_arith)
                requires
                    v == 0,
                    total == 0,
            ;
        }
    } else {
        algebra::mul_zero(y);
        EF::law_mul_comm(EF::zero(), y);
        assert(cell == 0);
    }
    if k >= n * m {
        assert(i >= n) by (nonlinear_arith)
            requires
                k == i * m + e,
                k >= n * m,
                e < m,
        ;
    }
}

/// Completeness of the dividend relation.
#[verifier::rlimit(40)]
#[verifier::spinoff_prover]
proof fn lemma_dividend_complete(
    part: DividendPart,
    polys: Map<Seq<char>, Seq<EF>>,
    config: Config,
    w: ModelWeights,
    x0: Grid,
    d: DividendDraws,
)
    requires
        features_committed(polys, config, w, x0),
        d.rho.len() == sumfeat::elem_bits(config),
        d.ch.len() == sumfeat::elem_bits(config) + sumfeat::inst_bits(config),
        algebra::all_valid(d.ch),
        sumfeat::honest_dividend(part, polys, config, w, x0, d),
    ensures
        sumfeat::dividend_accepted(part, config, w, x0, d),
        commit::all_hold(sumfeat::dividend_claims(part, config, d), polys),
{
    let wit = model::forward_of(x0, w, config);
    let n = sumfeat::norm_count(config);
    let cb = sumfeat::col_bits(config);
    let eb = sumfeat::elem_bits(config);
    let cp = pow2(cb);
    let x = sumfeat::x_table(polys, config, x0);
    let s = sumfeat::sum_table(polys, config, x0);
    let fc = sumfeat::feature_count(config);
    let ws = sumfeat::dividend_weights(config, d);
    let gain = sumfeat::gain_table(config, w);
    let y = sumfeat::centred_table(x, s, cp, fc);
    let len = pow2(eb + sumfeat::inst_bits(config));
    let t = polys[canonical::A_LN@];
    sumfeat::lemma_feature_sizes(config);
    lemma_inputs_committed(polys, config, w, x0);
    lemma_x_valid(polys, config, x0);
    completeness::lemma_kind_table(wit, config, Kind::ALn);
    EF::law_embed(0, 0);
    assert forall|k: int| 0 <= k < ws.len() implies (#[trigger] ws[k]).valid() by {
        lemma_weight_valid(d.rho, d.gamma, 1, k);
    }
    assert forall|k: int| 0 <= k < gain.len() implies (#[trigger] gain[k]).valid() by {
        let (i, c) = (k / pow2(eb) as int, k % cp as int);
        EF::law_embed(sumfeat::gain_of(config, w, i)[c], 0);
    }
    assert forall|k: int| 0 <= k < y.len() implies (#[trigger] y[k]).valid() by {
        EF::law_valid(fc * x[k], s[k / cp as int]);
    }
    // The claim is the sum.
    let three = sumfeat::dividend_tables(polys, config, w, x0, d);
    assert(three == seq![ws, gain, y]);
    assert(three[0] == ws && three[1] == gain && three[2] == y);
    lemma_hypercube_three(ws, gain, y);
    let f = |k: int| (ws[k] * gain[k]) * y[k];
    let v = |k: int| sumfeat::block_weight_at(d.rho, d.gamma, 1, k) * t[k];
    assert forall|k: int| 0 <= k < len implies #[trigger] f(k) == v(k) by {
        lemma_dividend_cell(polys, config, w, x0, k);
        EF::law_mul_assoc(ws[k], gain[k], y[k]);
    }
    algebra::sum_ext(len, f, v);
    assert forall|k: int| n * pow2(d.rho.len()) <= k < t.len() implies #[trigger] t[k]
        == EF::zero() by {
        lemma_dividend_cell(polys, config, w, x0, k);
    }
    lemma_gamma_blocks(t, d.rho, d.gamma, n, sumfeat::inst_bits(config), v);
    let vals = sumfeat::kind_values(polys, config, Kind::ALn, d.rho);
    let left = |i: int| domain::pow(d.gamma, i as nat) * vals[i];
    let right = |i: int| domain::pow(d.gamma, i as nat) * commit::block_value(t, d.rho, i);
    assert forall|i: int| 0 <= i < n implies #[trigger] left(i) == right(i) by {
        commit::law_instance_slice(t, d.rho, i as nat, sumfeat::inst_bits(config));
    }
    algebra::sum_ext(n, left, right);
    lemma_weighted(part.claim, part.proof, three, d.ch);
    assert(part.proof.final_evals@[1] == multilinear::mle(three[1], d.ch.reverse()));
    assert(part.proof.final_evals@[2] == multilinear::mle(three[2], d.ch.reverse()));
    // The openings.
    let rev = d.ch.reverse();
    let (p, index) = (
        sumfeat::square_point(config, d.ch),
        sumfeat::square_index(config, d.ch),
    );
    assert(p + index =~= rev);
    lemma_x_value(polys, config, x0, p, index);
    let sp = sumfeat::dividend_sum_point(config, d.ch);
    let (cols, rows) = (rev.take(cb as int), rev.skip(cb as int));
    assert(cols + rows =~= rev);
    assert(sumfeat::halves(cb) + rows =~= sp + index);
    lemma_sums_value(x, cb, rows);
    lemma_x_value(polys, config, x0, sp, index);
    assert forall|k: int| 0 <= k < s.len() implies (#[trigger] s[k]).valid() by {
        algebra::sum_valid(cp, |c: int| x[k * cp + c]);
    }
    let wide = tables::stretched(s, cb);
    tables::lemma_mle_stretched(s, cols, rows);
    let scaled = Seq::new(x.len(), |k: int| fc * x[k]);
    multilinear::lemma_mle_scale(fc, x, rev);
    let sum = Seq::new(y.len(), |k: int| y[k] + wide[k]);
    assert(wide.len() == y.len());
    assert(sum =~= scaled) by {
        assert forall|k: int| 0 <= k < y.len() implies #[trigger] sum[k] == scaled[k] by {
            EF::law_valid(fc, x[k]);
            algebra::sub_add(fc * x[k], s[k / cp as int]);
        }
    }
    multilinear::lemma_mle_add(y, wide, rev);
    commit::lemma_mle_valid(y, rev);
    completeness::lemma_add_sub(multilinear::mle(y, rev), multilinear::mle(wide, rev));
    lemma_kind_claims(polys, config, Kind::ALn, d.rho, n);
    lemma_input_claims(polys, config, x0, p, n);
    lemma_input_claims(polys, config, x0, sp, n);
}

/// The stored exponentials of head `h`.
proof fn lemma_exp_cell(
    polys: Map<Seq<char>, Seq<EF>>,
    wit: WitnessView,
    config: Config,
    h: int,
    r: int,
    c: int,
)
    requires
        canonical::sizes_fit(config),
        completeness::commits_kind(polys, wit, config, Kind::Exp),
        0 <= h < config.n_layer * config.n_head,
        0 <= r < pow2(sumfeat::exp_row_bits(config)),
        0 <= c < pow2(sumfeat::exp_col_bits(config)),
    ensures
        ({
            let (rp, cp) = (
                pow2(sumfeat::exp_row_bits(config)),
                pow2(sumfeat::exp_col_bits(config)),
            );
            let g = canonical::instance_of(wit, config, Kind::Exp, h);
            polys[EXP@][(h * rp + r) * cp + c] == EF::embed(
                if r < g.rows && c < g.cols {
                    g.at(r, c)
                } else {
                    0
                },
            )
        }),
{
    let (rp, cp) = (
        pow2(sumfeat::exp_row_bits(config)),
        pow2(sumfeat::exp_col_bits(config)),
    );
    let ip = pow2(canonical::inst_bits(config, Kind::Exp));
    let es = canonical::instances_of(wit, config, Kind::Exp);
    canonical::lemma_sizes(config, Kind::Exp);
    completeness::lemma_kind_table(wit, config, Kind::Exp);
    canonical::lemma_stacked_cell(es, rp, cp, 0, h, r, c);
    let e = r * cp + c;
    assert((h * rp + r) * cp + c == h * (rp * cp) + e) by (nonlinear_arith)
        requires
            e == r * cp + c,
    ;
    grid::lemma_cell(ip, rp * cp, h, e);
    assert(es[h] == canonical::instance_of(wit, config, Kind::Exp, h));
}

/// On the real rows of real heads the stored sum is the sum of the exponentials.
proof fn lemma_exp_row(
    polys: Map<Seq<char>, Seq<EF>>,
    config: Config,
    w: ModelWeights,
    x0: Grid,
    k: int,
)
    requires
        features_committed(polys, config, w, x0),
        0 <= k < pow2(sumfeat::exp_batch_bits(config)),
        (k % pow2(sumfeat::exp_row_bits(config)) as int) < config.n_seq,
        (k / pow2(sumfeat::exp_row_bits(config)) as int) < config.n_layer * config.n_head,
    ensures
        sumfeat::sum_gap(polys, config)[k] == EF::zero(),
{
    let wit = model::forward_of(x0, w, config);
    let (rp, cp) = (
        pow2(sumfeat::exp_row_bits(config)),
        pow2(sumfeat::exp_col_bits(config)),
    );
    let ip = pow2(canonical::inst_bits(config, Kind::Exp));
    sumfeat::lemma_exp_sizes(config);
    canonical::lemma_sizes(config, Kind::Exp);
    canonical::lemma_sizes(config, Kind::SumExp);
    multilinear::lemma_pow2_zero();
    commit::lemma_ceil_log(1, 0);
    completeness::law_forward_shaped(x0, w, config);
    completeness::lemma_kind_table(wit, config, Kind::Exp);
    completeness::lemma_kind_table(wit, config, Kind::SumExp);
    grid::lemma_position(ip, rp, k);
    let (h, r) = (k / rp as int, k % rp as int);
    let n = config.n_head as int;
    let (l, hd) = (h / n, h % n);
    assert(n > 0) by (nonlinear_arith)
        requires
            0 <= h < config.n_layer * n,
            0 <= config.n_layer,
            0 <= n,
    ;
    div_mod::lemma_fundamental_div_mod(h, n);
    div_mod::lemma_div_pos_is_pos(h, n);
    div_mod::lemma_mod_bound(h, n);
    assert(l < config.n_layer) by (nonlinear_arith)
        requires
            h == n * l + hd,
            0 <= hd,
            h < config.n_layer * n,
            n > 0,
    ;
    let a = wit.blocks[l].attention;
    assert(canonical::block_shaped(wit.blocks[l], config));
    assert(canonical::head_shaped(a, config, hd));
    assert(wit.blocks[l] == model::block_of(
        model::stream(x0, w, config, l as nat),
        w.blocks@[l],
        w,
        config,
    ));
    let sm = model::head_softmax(a.qkv, w, config, hd);
    let sc = model::score_of(a.qkv, config, hd);
    let lut = grid::ints(w.exp_lut@);
    let off = config.table_offset();
    let ns = config.n_seq as nat;
    assert(a.exp[hd] == grid::single(sm.exp));
    assert(a.sum_exp[hd] == sm.sum_exp);
    let es = canonical::instances_of(wit, config, Kind::Exp);
    let ss = canonical::instances_of(wit, config, Kind::SumExp);
    assert(es[h] == canonical::face(a.exp[hd]));
    assert(ss[h] == a.sum_exp[hd]);
    // The stored sum.
    let want = model::exp_sum(sc, lut, off, r, (r + 1) as nat);
    canonical::lemma_stacked_cell(ss, rp, 1, 1, h, r, 0);
    assert(h * (rp * 1) + (r * 1 + 0) == k) by (nonlinear_arith)
        requires
            h * rp + r == k,
    ;
    grid::lemma_tabulate(
        ns,
        1,
        |i: int, j: int| model::exp_sum(sc, lut, off, i, (i + 1) as nat),
        r,
        0,
    );
    assert(polys[SUM_EXP@][k] == EF::embed(want));
    // The sum over the keys.
    let t = polys[EXP@];
    let bb = sumfeat::exp_batch_bits(config);
    lemma_row_sums(t, sumfeat::exp_col_bits(config), bb, k);
    let f = |c: int| if c < ns {
        model::exp_at(sc, lut, off, r, c)
    } else {
        0
    };
    let g = |c: int| t[k * cp + c];
    assert forall|c: int| 0 <= c < cp implies #[trigger] g(c) == EF::embed(f(c)) by {
        lemma_exp_cell(polys, wit, config, h, r, c);
        if c < ns {
            grid::lemma_tabulate(
                ns,
                ns,
                |i: int, j: int| model::exp_at(sc, lut, off, i, j),
                r,
                c,
            );
        }
    }
    operands::lemma_embed_sum(cp, f, g);
    lemma_isum_pad((r + 1) as nat, cp, f);
    grid::lemma_isum_ext((r + 1) as nat, f, |j: int| model::exp_at(sc, lut, off, r, j));
    algebra::sub_self(EF::embed(want));
}

/// Completeness of the softmax sum relation.
proof fn lemma_sum_exp_complete(
    part: SumExpPart,
    polys: Map<Seq<char>, Seq<EF>>,
    config: Config,
    w: ModelWeights,
    x0: Grid,
    tape: Seq<EF>,
)
    requires
        features_committed(polys, config, w, x0),
        tape.len() == sumfeat::sum_exp_count(config),
        algebra::all_valid(tape),
        sumfeat::honest_sum_exp(part, polys, config, tape),
    ensures
        sumfeat::sum_exp_accepted(part, config, tape),
        commit::all_hold(sumfeat::sum_exp_claims(part, config, tape), polys),
{
    let wit = model::forward_of(x0, w, config);
    let ch = tape.skip(1);
    let rev = ch.reverse();
    let cb = sumfeat::exp_col_bits(config);
    let ws = sumfeat::real_weights(config, tape[0]);
    let gap = sumfeat::sum_gap(polys, config);
    let kc = sumfeat::key_count(config);
    let n = pow2(sumfeat::exp_batch_bits(config));
    sumfeat::lemma_exp_sizes(config);
    canonical::lemma_sizes(config, Kind::Exp);
    completeness::lemma_kind_table(wit, config, Kind::Exp);
    completeness::lemma_kind_table(wit, config, Kind::SumExp);
    let folded = multilinear::fold_all(polys[EXP@], sumfeat::halves(cb));
    multilinear::lemma_fold_all_len(
        polys[EXP@],
        sumfeat::halves(cb),
        canonical::all_bits(config, Kind::Exp),
    );
    EF::law_valid(EF::zero(), EF::zero());
    assert forall|k: int| 0 <= k < ws.len() implies (#[trigger] ws[k]).valid() by {
        lemma_pow_valid(tape[0], k as nat);
    }
    assert forall|k: int| 0 <= k < gap.len() implies (#[trigger] gap[k]).valid() by {
        EF::law_valid(polys[SUM_EXP@][k], kc * folded[k]);
    }
    let two = seq![ws, gap];
    assert(two[0] == ws && two[1] == gap);
    identities::lemma_hypercube_dot(ws, gap);
    let f = |k: int| ws[k] * gap[k];
    assert forall|k: int| 0 <= k < n implies #[trigger] f(k) == EF::zero() by {
        let rp = pow2(sumfeat::exp_row_bits(config)) as int;
        if k % rp < config.n_seq && k / rp < config.n_layer * config.n_head {
            lemma_exp_row(polys, config, w, x0, k);
            algebra::mul_zero(ws[k]);
        } else {
            algebra::mul_zero(gap[k]);
            EF::law_mul_comm(EF::zero(), gap[k]);
        }
    }
    algebra::sum_zero(n, f);
    lemma_weighted(EF::zero(), part.proof, two, ch);
    assert(part.proof.final_evals@[1] == multilinear::mle(two[1], rev));
    let t = polys[SUM_EXP@];
    let scaled = Seq::new(folded.len(), |k: int| kc * folded[k]);
    multilinear::lemma_mle_scale(kc, folded, rev);
    multilinear::lemma_fold_all_concat(polys[EXP@], sumfeat::halves(cb), rev);
    let sum = Seq::new(gap.len(), |k: int| gap[k] + scaled[k]);
    assert(sum =~= t) by {
        assert forall|k: int| 0 <= k < n implies #[trigger] sum[k] == t[k] by {
            algebra::sub_add(t[k], kc * folded[k]);
        }
    }
    multilinear::lemma_mle_add(gap, scaled, rev);
    commit::lemma_mle_valid(gap, rev);
    completeness::lemma_add_sub(multilinear::mle(gap, rev), multilinear::mle(scaled, rev));
}

pub proof fn lemma_pow_valid(x: EF, e: nat)
    ensures
        domain::pow(x, e).valid(),
{
    EF::law_valid(EF::one(), EF::one());
    if e > 0 {
        EF::law_valid(x, domain::pow(x, (e - 1) as nat));
    }
}

/// Completeness of the normalization and softmax sums: on the commitments of a forward
/// pass, the honest proof has the shape that the check asks for, it is accepted, and
/// every opening that it claims is true.
#[verifier::rlimit(40)]
pub proof fn law_features_complete(
    proof: SumFeatProof,
    polys: Map<Seq<char>, Seq<EF>>,
    config: Config,
    w: ModelWeights,
    x0: Grid,
    tape: Seq<EF>,
)
    requires
        features_committed(polys, config, w, x0),
        tape.len() == sumfeat::feature_draws(config),
        algebra::all_valid(tape),
        sumfeat::honest_features(proof, polys, config, w, x0, tape),
    ensures
        sumfeat::features_shape(proof, config),
        sumfeat::features_accepted(proof, config, w, x0, tape),
        commit::all_hold(sumfeat::feature_claims(proof, config, tape), polys),
{
    let a = sumfeat::var_draws(config, sumfeat::var_tape(config, tape));
    let b = sumfeat::dividend_draws(config, sumfeat::dividend_tape(config, tape));
    let c = sumfeat::sum_exp_tape(config, tape);
    assert(sumfeat::var_accepted(proof.var_part(), config, x0, a) && commit::all_hold(
        sumfeat::var_claims(proof.var_part(), config, a),
        polys,
    )) by {
        lemma_var_complete(proof.var_part(), polys, config, w, x0, a);
    }
    assert(sumfeat::dividend_accepted(proof.dividend_part(), config, w, x0, b)
        && commit::all_hold(
        sumfeat::dividend_claims(proof.dividend_part(), config, b),
        polys,
    )) by {
        lemma_dividend_complete(proof.dividend_part(), polys, config, w, x0, b);
    }
    assert(sumfeat::sum_exp_accepted(proof.sum_exp_part(), config, c) && commit::all_hold(
        sumfeat::sum_exp_claims(proof.sum_exp_part(), config, c),
        polys,
    )) by {
        lemma_sum_exp_complete(proof.sum_exp_part(), polys, config, w, x0, c);
    }
    commit::lemma_all_hold_join(
        sumfeat::var_claims(proof.var_part(), config, a),
        sumfeat::dividend_claims(proof.dividend_part(), config, b),
        polys,
    );
    commit::lemma_all_hold_join(
        sumfeat::var_claims(proof.var_part(), config, a) + sumfeat::dividend_claims(
            proof.dividend_part(),
            config,
            b,
        ),
        sumfeat::sum_exp_claims(proof.sum_exp_part(), config, c),
        polys,
    );
}

} // verus!
