//! Completeness of the reductions: on the commitments of a forward pass, the honest
//! proofs are accepted and all their openings are true.
use vstd::prelude::*;
use vstd::arithmetic::power2::pow2;
use crate::algebra;
use crate::field::Field;
use crate::multilinear;
use crate::pcs::ligesis::identities;
use crate::proofsys::canonical;
use crate::proofsys::canonical::Kind;
use crate::proofsys::commit;
use crate::proofsys::grandprod;
use crate::proofsys::grid;
use crate::proofsys::grid::Grid;
use crate::proofsys::maxprod;
use crate::proofsys::model;
use crate::proofsys::model::{BlockWeights, ModelWeights};
use crate::proofsys::protocol::EF;
use crate::proofsys::reduce;
use crate::proofsys::residual;
use crate::proofsys::residual::XOutResidualProof;
use crate::proofsys::witness::{Config, WitnessView};
use crate::tables;
use crate::utils::sumcheck;

pub mod features;

verus! {

/// A block's witness has the shapes of the configuration.
proof fn lemma_block_shaped(x: Grid, b: BlockWeights, w: ModelWeights, config: Config)
    requires
        model::config_fits(config),
        b.wf(config),
        canonical::grid_is(x, config.n_seq as nat, config.d_model as nat),
    ensures
        canonical::block_shaped(model::block_of(x, b, w, config), config),
{
    let v = model::block_of(x, b, w, config);
    let a = v.attention;
    assert(b.attn_w.grid().cols == 3 * config.d_model);
    assert(b.attn_proj_w.grid().cols == config.d_model);
    assert(b.fc_w.grid().cols == config.mlp_hidden);
    assert(b.fproj_w.grid().cols == config.d_model);
    assert forall|h: int| 0 <= h < config.n_head implies #[trigger] canonical::head_shaped(
        a,
        config,
        h,
    ) by {
        assert(a.scores[h] == grid::single(model::score_of(a.qkv, config, h)));
        assert(a.exp[h] == grid::single(model::head_softmax(a.qkv, w, config, h).exp));
        assert(a.q_prob[h] == grid::single(model::head_softmax(a.qkv, w, config, h).prob));
        assert(a.q_ao_heads[h] == grid::single(model::head_output(a.qkv, w, config, h)));
    }
}

/// The stream keeps its shape.
proof fn lemma_stream_shaped(x0: Grid, w: ModelWeights, config: Config, k: nat)
    requires
        model::config_fits(config),
        w.wf(config),
        canonical::grid_is(x0, config.n_seq as nat, config.d_model as nat),
        k <= w.blocks@.len(),
    ensures
        canonical::grid_is(
            model::stream(x0, w, config, k),
            config.n_seq as nat,
            config.d_model as nat,
        ),
    decreases k,
{
    if k > 0 {
        let j = (k - 1) as nat;
        lemma_stream_shaped(x0, w, config, j);
        assert(w.blocks@[j as int].wf(config));
        lemma_block_shaped(
            model::stream(x0, w, config, j),
            w.blocks@[j as int],
            w,
            config,
        );
    }
}

/// The witness of a forward pass has the shapes of the configuration, so that it can be
/// committed.
pub proof fn law_forward_shaped(x0: Grid, w: ModelWeights, config: Config)
    requires
        model::config_fits(config),
        w.wf(config),
        w.blocks@.len() == config.n_layer,
        canonical::grid_is(x0, config.n_seq as nat, config.d_model as nat),
    ensures
        canonical::witness_shaped(model::forward_of(x0, w, config), config),
{
    let f = model::forward_of(x0, w, config);
    assert forall|i: int| 0 <= i < f.blocks.len() implies canonical::block_shaped(
        #[trigger] f.blocks[i],
        config,
    ) by {
        lemma_stream_shaped(x0, w, config, i as nat);
        assert(w.blocks@[i].wf(config));
        lemma_block_shaped(
            model::stream(x0, w, config, i as nat),
            w.blocks@[i],
            w,
            config,
        );
    }
    lemma_stream_shaped(x0, w, config, w.blocks@.len());
    assert(w.wte.grid().rows == config.vocab);
}

/// The entry of a padded instance.
pub open spec fn instance_cell(g: Grid, cp: nat, pad: int, k: int) -> int {
    let (r, c) = (k / cp as int, k % cp as int);
    if r < g.rows && c < g.cols {
        g.at(r, c)
    } else {
        pad
    }
}

/// One instance of a kind as a table.
pub open spec fn instance_table(config: Config, kind: Kind, g: Grid) -> Seq<EF> {
    Seq::new(
        pow2(canonical::elem_bits(config, kind)),
        |k: int|
            EF::embed(
                instance_cell(g, pow2(canonical::col_bits(config, kind)), kind.padding(), k),
            ),
    )
}

/// The polynomial of `kind` is that of the witness.
pub open spec fn commits_kind(
    polys: Map<Seq<char>, Seq<EF>>,
    wit: WitnessView,
    config: Config,
    kind: Kind,
) -> bool {
    polys.contains_key(kind.text()) && polys[kind.text()] == canonical::kind_table(
        wit,
        config,
        kind,
    )
}

/// The table of a kind has a power of two of valid entries.
pub proof fn lemma_kind_table(wit: WitnessView, config: Config, kind: Kind)
    requires
        canonical::sizes_fit(config),
    ensures
        canonical::kind_table(wit, config, kind).len() == pow2(canonical::all_bits(config, kind)),
        algebra::all_valid(canonical::kind_table(wit, config, kind)),
{
    canonical::lemma_sizes(config, kind);
    let t = canonical::kind_table(wit, config, kind);
    assert forall|k: int| 0 <= k < t.len() implies (#[trigger] t[k]).valid() by {
        let rp = pow2(canonical::row_bits(config, kind));
        let cp = pow2(canonical::col_bits(config, kind));
        EF::law_embed(
            canonical::stacked_cell(
                canonical::instances_of(wit, config, kind),
                rp,
                cp,
                kind.padding(),
                k,
            ),
            0,
        );
    }
}

/// At the bits of an instance, a kind's polynomial is that instance.
pub proof fn lemma_kind_slice(
    polys: Map<Seq<char>, Seq<EF>>,
    wit: WitnessView,
    config: Config,
    kind: Kind,
    p: Seq<EF>,
    i: int,
)
    requires
        canonical::sizes_fit(config),
        commits_kind(polys, wit, config, kind),
        p.len() == canonical::elem_bits(config, kind),
        0 <= i < canonical::dims(config, kind).0,
    ensures
        residual::slice_value(polys, config, kind, p, i) == multilinear::mle(
            instance_table(config, kind, canonical::instance_of(wit, config, kind, i)),
            p,
        ),
{
    let t = canonical::kind_table(wit, config, kind);
    let rp = pow2(canonical::row_bits(config, kind));
    let cp = pow2(canonical::col_bits(config, kind));
    let ib = canonical::inst_bits(config, kind);
    let n = pow2(p.len());
    let g = canonical::instance_of(wit, config, kind, i);
    let gs = canonical::instances_of(wit, config, kind);
    canonical::lemma_sizes(config, kind);
    lemma_kind_table(wit, config, kind);
    commit::law_instance_slice(t, p, i as nat, ib);
    let block = t.subrange((i * n) as int, ((i + 1) * n) as int);
    assert(n == rp * cp);
    assert((i + 1) * n == i * n + n) by (nonlinear_arith);
    assert(block =~= instance_table(config, kind, g)) by {
        assert forall|e: int| 0 <= e < n implies #[trigger] block[e] == EF::embed(
            instance_cell(g, cp, kind.padding(), e),
        ) by {
            vstd::arithmetic::div_mod::lemma_fundamental_div_mod_converse(
                i * n + e,
                n as int,
                i,
                e,
            );
            assert(gs[i] == g);
            assert(canonical::stacked_cell(gs, rp, cp, kind.padding(), i * n + e)
                == instance_cell(g, cp, kind.padding(), e));
        }
    }
}

/// The input of block output `k`.
pub open spec fn output_input(wit: WitnessView, k: int) -> Grid {
    if k == 0 {
        wit.x0
    } else {
        canonical::output_at(wit, k - 1)
    }
}

/// The projection of block output `k`.
pub open spec fn output_projection(wit: WitnessView, k: int) -> Grid {
    if k % 2 == 0 {
        wit.blocks[k / 2].attention.q_apr
    } else {
        wit.blocks[k / 2].mlp.q_fpr
    }
}

/// In a forward pass, each block output is its input plus its projection plus the bias.
proof fn lemma_output_steps(x0: Grid, w: ModelWeights, config: Config, k: int)
    requires
        w.blocks@.len() == config.n_layer,
        0 <= k < 2 * config.n_layer,
    ensures
        ({
            let wit = model::forward_of(x0, w, config);
            canonical::output_at(wit, k) == grid::add_grid(
                output_input(wit, k),
                grid::add_row(output_projection(wit, k), residual::projection_bias(w, k)),
            )
        }),
{
    let wit = model::forward_of(x0, w, config);
    let l = k / 2;
    assert(wit.blocks[l] == model::block_of(
        model::stream(x0, w, config, l as nat),
        w.blocks@[l],
        w,
        config,
    ));
    if k % 2 == 0 {
        if k > 0 {
            assert((k - 1) / 2 == l - 1 && (k - 1) % 2 == 1);
            assert(wit.blocks[l - 1] == model::block_of(
                model::stream(x0, w, config, (l - 1) as nat),
                w.blocks@[l - 1],
                w,
                config,
            ));
        }
    } else {
        assert((k - 1) / 2 == l && (k - 1) % 2 == 0);
    }
}

/// Tables of three matrices whose entries add up to a fourth add up to its table.
proof fn lemma_tables_add(a: Grid, b: Grid, bias: Seq<int>, config: Config, p: Seq<EF>)
    requires
        canonical::sizes_fit(config),
        canonical::grid_is(a, config.n_seq as nat, config.d_model as nat),
        canonical::grid_is(b, config.n_seq as nat, config.d_model as nat),
        bias.len() == config.d_model,
        p.len() == canonical::elem_bits(config, Kind::XOut),
    ensures
        multilinear::mle(
            instance_table(config, Kind::XOut, grid::add_grid(a, grid::add_row(b, bias))),
            p,
        ) == multilinear::mle(instance_table(config, Kind::XOut, a), p) + multilinear::mle(
            instance_table(config, Kind::XOut, b),
            p,
        ) + multilinear::mle(residual::row_table(config, bias), p),
{
    let kind = Kind::XOut;
    canonical::lemma_sizes(config, kind);
    let cp = pow2(canonical::col_bits(config, kind));
    let sum = grid::add_grid(a, grid::add_row(b, bias));
    let (ta, tb, tr) = (
        instance_table(config, kind, a),
        instance_table(config, kind, b),
        residual::row_table(config, bias),
    );
    let t1 = Seq::new(ta.len(), |i: int| ta[i] + tb[i]);
    let t2 = Seq::new(t1.len(), |i: int| t1[i] + tr[i]);
    let rows = grid::tabulate(config.n_seq as nat, bias.len(), |r: int, c: int| bias[c]);
    assert(instance_table(config, kind, sum) =~= t2) by {
        assert forall|k: int| 0 <= k < t2.len() implies #[trigger] instance_table(
            config,
            kind,
            sum,
        )[k] == t2[k] by {
            let (r, c) = (k / cp as int, k % cp as int);
            let (ca, cb, cr) = (
                instance_cell(a, cp, 0, k),
                instance_cell(b, cp, 0, k),
                canonical::padded_cell(rows, cp, k),
            );
            assert(0 <= r && 0 <= c) by {
                vstd::arithmetic::div_mod::lemma_fundamental_div_mod(k, cp as int);
                vstd::arithmetic::div_mod::lemma_div_pos_is_pos(k, cp as int);
            }
            if r < config.n_seq && c < config.d_model {
                grid::lemma_cell(config.n_seq as nat, config.d_model as nat, r, c);
            }
            EF::law_embed(ca, cb);
            EF::law_embed(ca + cb, cr);
        }
    }
    multilinear::lemma_mle_add(ta, tb, p);
    multilinear::lemma_mle_add(t1, tr, p);
}

/// Completeness of the residual check: on the commitments of a forward pass, the honest
/// proof satisfies every identity, and every opening that it claims is true.
pub proof fn law_residual_complete(
    proof: XOutResidualProof,
    polys: Map<Seq<char>, Seq<EF>>,
    config: Config,
    w: ModelWeights,
    x0: Grid,
    p: Seq<EF>,
)
    requires
        canonical::sizes_fit(config),
        model::config_fits(config),
        w.wf(config),
        w.blocks@.len() == config.n_layer,
        canonical::grid_is(x0, config.n_seq as nat, config.d_model as nat),
        commits_kind(polys, model::forward_of(x0, w, config), config, Kind::XOut),
        commits_kind(polys, model::forward_of(x0, w, config), config, Kind::QApr),
        commits_kind(polys, model::forward_of(x0, w, config), config, Kind::QFpr),
        p.len() == canonical::elem_bits(config, Kind::XOut),
        residual::honest_residual(proof, polys, config, x0, p),
    ensures
        residual::residual_shape(proof, config),
        forall|k: int|
            0 <= k < 2 * config.n_layer ==> #[trigger] residual::residual_identity(
                proof,
                config,
                w,
                x0,
                p,
                k,
            ),
        commit::all_hold(
            residual::residual_claims(
                config,
                p,
                proof.xout@,
                proof.proj@,
                proof.x_in@,
                (2 * config.n_layer) as nat,
            ),
            polys,
        ),
{
    let wit = model::forward_of(x0, w, config);
    law_forward_shaped(x0, w, config);
    assert forall|k: int| 0 <= k < 2 * config.n_layer implies #[trigger] residual::residual_identity(
        proof,
        config,
        w,
        x0,
        p,
        k,
    ) by {
        let l = k / 2;
        let kind = residual::projection_kind(k);
        assert(canonical::block_shaped(wit.blocks[l], config));
        assert(w.blocks@[l].wf(config));
        if k > 0 {
            assert(canonical::block_shaped(wit.blocks[(k - 1) / 2], config));
        }
        lemma_output_steps(x0, w, config, k);
        lemma_kind_slice(polys, wit, config, Kind::XOut, p, k);
        lemma_kind_slice(polys, wit, config, kind, p, l);
        lemma_tables_add(
            output_input(wit, k),
            output_projection(wit, k),
            residual::projection_bias(w, k),
            config,
            p,
        );
        assert(instance_table(config, kind, output_projection(wit, k)) =~= instance_table(
            config,
            Kind::XOut,
            output_projection(wit, k),
        ));
        if k == 0 {
            canonical::lemma_sizes(config, Kind::XOut);
            residual::lemma_embedding(config, x0);
            assert(residual::embedding_table(config, x0) =~= instance_table(
                config,
                Kind::XOut,
                x0,
            ));
        } else {
            lemma_kind_slice(polys, wit, config, Kind::XOut, p, k - 1);
        }
        let (a, b, c) = (
            residual::source_value(polys, config, x0, p, residual::output_source(k)),
            proof.proj@[k],
            multilinear::mle(residual::row_table(config, residual::projection_bias(w, k)), p),
        );
        assert(residual::taken_value(config, x0, p, residual::output_source(k), proof.x_in@[k])
            == a);
    }
    lemma_residual_claims(proof, polys, config, x0, p, (2 * config.n_layer) as nat);
}

/// The openings of an honest residual proof are true.
proof fn lemma_residual_claims(
    proof: XOutResidualProof,
    polys: Map<Seq<char>, Seq<EF>>,
    config: Config,
    x0: Grid,
    p: Seq<EF>,
    n: nat,
)
    requires
        n <= 2 * config.n_layer,
        residual::honest_residual(proof, polys, config, x0, p),
    ensures
        commit::all_hold(
            residual::residual_claims(config, p, proof.xout@, proof.proj@, proof.x_in@, n),
            polys,
        ),
    decreases n,
{
    if n > 0 {
        let k = n - 1;
        lemma_residual_claims(proof, polys, config, x0, p, (n - 1) as nat);
        assert(proof.xout@[k] == residual::slice_value(polys, config, Kind::XOut, p, k));
        assert(proof.proj@[k] == residual::slice_value(
            polys,
            config,
            residual::projection_kind(k),
            p,
            k / 2,
        ));
        assert(proof.x_in@[k] == residual::source_value(
            polys,
            config,
            x0,
            p,
            residual::output_source(k),
        ));
    }
}

/// Combining the blocks of a table with the weights of `head` fixes its last variables
/// at `head`.
pub proof fn lemma_folded(t: Seq<EF>, p: Seq<EF>, head: Seq<EF>)
    requires
        t.len() == pow2(p.len() + head.len()),
        algebra::all_valid(t),
    ensures
        multilinear::mle(
            Seq::new(pow2(p.len()), |i: int| maxprod::folded_at(t, pow2(p.len()), head, i)),
            p,
        ) == multilinear::mle(t, p + head),
{
    let m = pow2(p.len());
    let n = pow2(head.len());
    vstd::arithmetic::power2::lemma_pow2_adds(p.len(), head.len());
    let c = |j: int| multilinear::eq_table(head)[j];
    let b = |j: int| t.subrange(j * m, (j + 1) * m);
    assert forall|j: int| 0 <= j < n implies (#[trigger] b(j)).len() == m by {
        lemma_block_range(m, n, j);
    }
    tables::lemma_mle_combined(n, c, b, p);
    let left = Seq::new(m, |i: int| maxprod::folded_at(t, m, head, i));
    assert(left =~= tables::combined(n, c, b, m)) by {
        assert forall|i: int| 0 <= i < m implies #[trigger] left[i] == tables::combined(
            n,
            c,
            b,
            m,
        )[i] by {
            let f = |h: int| multilinear::eq_table(head)[h] * t[h * m + i];
            let g = |j: int| c(j) * b(j)[i];
            assert forall|j: int| 0 <= j < n implies #[trigger] f(j) == g(j) by {
                lemma_block_range(m, n, j);
            }
            algebra::sum_ext(n, f, g);
        }
    }
    commit::law_instance_combination(t, p, head);
    let f = |j: int| c(j) * multilinear::mle(b(j), p);
    let g = |j: int| commit::block_value(t, p, j) * multilinear::eq_table(head)[j];
    assert forall|j: int| 0 <= j < n implies #[trigger] f(j) == g(j) by {
        EF::law_mul_comm(c(j), multilinear::mle(b(j), p));
    }
    algebra::sum_ext(n, f, g);
}

/// The range of block `j`.
pub proof fn lemma_block_range(m: nat, n: nat, j: int)
    requires
        0 <= j < n,
    ensures
        0 <= j * m,
        (j + 1) * m == j * m + m,
        (j + 1) * m <= m * n,
{
    assert((j + 1) * m == j * m + m) by (nonlinear_arith);
    assert(0 <= j * m) by (nonlinear_arith)
        requires
            0 <= j,
    ;
    assert((j + 1) * m <= m * n) by (nonlinear_arith)
        requires
            j + 1 <= n,
            0 <= m,
    ;
}

/// A product with a zero factor is zero.
proof fn lemma_prod_zero(n: nat, f: spec_fn(int) -> EF, k: int)
    requires
        0 <= k < n,
        f(k) == EF::zero(),
    ensures
        algebra::prod(n, f) == EF::zero(),
    decreases n,
{
    if k == n - 1 {
        algebra::mul_zero(algebra::prod((n - 1) as nat, f));
    } else {
        lemma_prod_zero((n - 1) as nat, f, k);
        algebra::mul_zero(f(n - 1));
        EF::law_mul_comm(EF::zero(), f(n - 1));
    }
}

/// A product of ones is one.
proof fn lemma_prod_one(n: nat, f: spec_fn(int) -> EF)
    requires
        forall|k: int| 0 <= k < n ==> #[trigger] f(k) == EF::one(),
    ensures
        algebra::prod(n, f) == EF::one(),
    decreases n,
{
    if n > 0 {
        lemma_prod_one((n - 1) as nat, f);
        assert(f(n - 1) == EF::one());
        EF::law_valid(EF::one(), EF::one());
        EF::law_mul_one(EF::one());
    }
}

/// The largest score is one of the scores.
proof fn lemma_max_attained(s: Grid, i: int, n: nat) -> (j: int)
    requires
        n > 0,
    ensures
        0 <= j < n,
        model::prefix_max(s, i, n) == s.at(i, j),
    decreases n,
{
    if n == 1 {
        0
    } else if model::prefix_max(s, i, (n - 1) as nat) >= s.at(i, n - 1) {
        lemma_max_attained(s, i, (n - 1) as nat)
    } else {
        n - 1
    }
}

/// In a forward pass every product of a real row vanishes, and every other is one.
proof fn lemma_products_vanish(
    polys: Map<Seq<char>, Seq<EF>>,
    config: Config,
    w: ModelWeights,
    x0: Grid,
    b: int,
)
    requires
        canonical::sizes_fit(config),
        model::config_fits(config),
        w.wf(config),
        w.blocks@.len() == config.n_layer,
        canonical::grid_is(x0, config.n_seq as nat, config.d_model as nat),
        commits_kind(polys, model::forward_of(x0, w, config), config, Kind::QSc),
        commits_kind(polys, model::forward_of(x0, w, config), config, Kind::XMax),
        0 <= b < pow2(maxprod::batch_bits(config)),
    ensures
        ({
            let cp = pow2(maxprod::key_bits(config));
            let leaf = maxprod::leaf_values(polys, config);
            algebra::prod(cp, |k: int| leaf[b * cp + k]) == maxprod::top_values(config)[b]
        }),
{
    let wit = model::forward_of(x0, w, config);
    let cp = pow2(maxprod::key_bits(config));
    let rp = pow2(maxprod::row_bits(config));
    let leaf = maxprod::leaf_values(polys, config);
    let f = |k: int| leaf[b * cp + k];
    maxprod::lemma_max_sizes(config);
    canonical::lemma_sizes(config, Kind::QSc);
    canonical::lemma_sizes(config, Kind::XMax);
    law_forward_shaped(x0, w, config);
    let r = b % rp as int;
    let h = b / rp as int;
    vstd::arithmetic::div_mod::lemma_fundamental_div_mod(b, rp as int);
    vstd::arithmetic::div_mod::lemma_div_pos_is_pos(b, rp as int);
    vstd::arithmetic::div_mod::lemma_mod_bound(b, rp as int);
    assert forall|k: int| 0 <= k < cp implies #[trigger] f(k) == maxprod::leaf_at(
        polys,
        config,
        b * cp + k,
    ) && (b * cp + k) / cp as int == b && (b * cp + k) % cp as int == k by {
        grid::lemma_cell(pow2(maxprod::batch_bits(config)), cp, b, k);
    }
    if r < config.n_seq {
        let heads = canonical::dims(config, Kind::QSc).0;
        // The score that equals the maximum: the first one where both are padding.
        let s = canonical::instance_of(wit, config, Kind::QSc, h);
        let k = if h < heads {
            lemma_max_attained(s, r, (r + 1) as nat)
        } else {
            0
        };
        let i = b * cp + k;
        multilinear::lemma_pow2_zero();
        commit::lemma_ceil_log(1, 0);
        let qs = canonical::instances_of(wit, config, Kind::QSc);
        let xs = canonical::instances_of(wit, config, Kind::XMax);
        assert(b * cp + k == h * (rp * cp) + (r * cp + k)) by (nonlinear_arith)
            requires
                b == rp * h + r,
        ;
        assert(b == h * (rp * 1) + (r * 1 + 0)) by (nonlinear_arith)
            requires
                b == rp * h + r,
        ;
        canonical::lemma_stacked_cell(qs, rp, cp, 0, h, r, k);
        canonical::lemma_stacked_cell(xs, rp, 1, 0, h, r, 0);
        let score = canonical::stacked_cell(qs, rp, cp, 0, i);
        let top = canonical::stacked_cell(xs, rp, 1, 0, b);
        grid::lemma_cell(pow2(maxprod::batch_bits(config)), cp, b, k);
        assert(polys[canonical::Q_SC@][i] == EF::embed(score));
        assert(polys[canonical::X_MAX@][b] == EF::embed(top));
        if h < heads {
            let n = config.n_head as int;
            let (l, hd) = (h / n, h % n);
            assert(n > 0) by (nonlinear_arith)
                requires
                    0 <= h < config.n_layer * n,
                    0 <= config.n_layer,
                    0 <= n,
            ;
            vstd::arithmetic::div_mod::lemma_fundamental_div_mod(h, n);
            vstd::arithmetic::div_mod::lemma_div_pos_is_pos(h, n);
            vstd::arithmetic::div_mod::lemma_mod_bound(h, n);
            assert(l < config.n_layer) by (nonlinear_arith)
                requires
                    h == n * l + hd,
                    0 <= hd,
                    h < config.n_layer * n,
                    n > 0,
            ;
            let a = wit.blocks[l].attention;
            assert(canonical::block_shaped(wit.blocks[l], config));
            assert(canonical::head_shaped(a, config, hd));
            let v = model::block_of(
                model::stream(x0, w, config, l as nat),
                w.blocks@[l],
                w,
                config,
            );
            assert(wit.blocks[l] == v);
            let sc = model::score_of(a.qkv, config, hd);
            assert(a.scores[hd] == grid::single(sc));
            assert(s == sc) by {
                assert(canonical::grid_is(s, config.n_seq as nat, config.n_seq as nat));
            }
            assert(a.x_max[hd] == model::head_softmax(a.qkv, w, config, hd).x_max);
            grid::lemma_tabulate(
                config.n_seq as nat,
                1,
                |i: int, j: int| model::causal_max(sc, i),
                r,
                0,
            );
            assert(qs[h] == s);
            assert(xs[h] == a.x_max[hd]);
            assert(top == score);
        } else {
            assert(top == 0 && score == 0);
        }
        EF::law_embed(top, score);
        algebra::sub_self(EF::embed(top));
        assert(f(k) == EF::zero());
        lemma_prod_zero(cp, f, k);
    } else {
        assert forall|k: int| 0 <= k < cp implies #[trigger] f(k) == EF::one() by {
            assert(f(k) == maxprod::leaf_at(polys, config, b * cp + k));
        }
        lemma_prod_one(cp, f);
    }
}

/// The maximum minus the score of head `j` at position `e`.
pub open spec fn gap(polys: Map<Seq<char>, Seq<EF>>, config: Config, j: int, e: int) -> EF {
    let cp = pow2(maxprod::key_bits(config));
    let rp = pow2(maxprod::row_bits(config));
    polys[canonical::X_MAX@][j * rp + e / cp as int] - polys[canonical::Q_SC@][j * (rp * cp) + e]
}

/// The masked part of head `j`'s leaf value.
pub open spec fn masked_gap(
    polys: Map<Seq<char>, Seq<EF>>,
    config: Config,
    key: Seq<EF>,
    row: Seq<EF>,
    j: int,
) -> EF {
    algebra::sum(
        pow2(maxprod::key_bits(config) + maxprod::row_bits(config)),
        |e: int| maxprod::weight_at(config, key, row, e) * gap(polys, config, j, e),
    )
}

/// One head's leaf polynomial: the masked gaps and the ones off the mask.
proof fn lemma_head_leaf(
    polys: Map<Seq<char>, Seq<EF>>,
    config: Config,
    key: Seq<EF>,
    row: Seq<EF>,
    j: int,
)
    requires
        canonical::sizes_fit(config),
        key.len() == maxprod::key_bits(config),
        row.len() == maxprod::row_bits(config),
        0 <= j < pow2(maxprod::head_bits(config)),
        polys[canonical::Q_SC@].len() == pow2(canonical::all_bits(config, Kind::QSc)),
        algebra::all_valid(polys[canonical::Q_SC@]),
    ensures
        commit::block_value(maxprod::leaf_values(polys, config), key + row, j) == masked_gap(
            polys,
            config,
            key,
            row,
            j,
        ) + maxprod::off_weight(config, key, row),
{
    maxprod::lemma_max_sizes(config);
    let cp = pow2(maxprod::key_bits(config));
    let rp = pow2(maxprod::row_bits(config));
    let n = pow2(maxprod::key_bits(config) + maxprod::row_bits(config));
    let heads = pow2(maxprod::head_bits(config));
    let leaf = maxprod::leaf_values(polys, config);
    let p = key + row;
    lemma_block_range(n, heads, j);
    assert(n * heads == leaf.len()) by (nonlinear_arith)
        requires
            leaf.len() == heads * n,
    ;
    let block = leaf.subrange(j * n, (j + 1) * n);
    assert(n == rp * cp);
    assert forall|e: int| 0 <= e < n implies #[trigger] block[e] == (if maxprod::unmasked(
        config,
        e / cp as int,
        e % cp as int,
    ) {
        gap(polys, config, j, e)
    } else {
        EF::one()
    }) by {
        let (r, k) = (e / cp as int, e % cp as int);
        grid::lemma_position(rp, cp, e);
        let b = j * rp + r;
        assert(j * n + e == b * cp + k) by (nonlinear_arith)
            requires
                n == rp * cp,
                e == r * cp + k,
                b == j * rp + r,
        ;
        vstd::arithmetic::div_mod::lemma_fundamental_div_mod_converse(
            b * cp + k,
            cp as int,
            b,
            k,
        );
        vstd::arithmetic::div_mod::lemma_fundamental_div_mod_converse(b, rp as int, j, r);
        assert(block[e] == maxprod::leaf_at(polys, config, j * n + e));
    }
    EF::law_valid(EF::one(), EF::one());
    assert forall|e: int| 0 <= e < n implies (#[trigger] block[e]).valid() by {
        EF::law_valid(
            polys[canonical::X_MAX@][j * rp + e / cp as int],
            polys[canonical::Q_SC@][j * (rp * cp) + e],
        );
    }
    multilinear::lemma_mle_sum(block, p);
    multilinear::lemma_eq_table_valid(key);
    multilinear::lemma_eq_table_valid(row);
    let f = |e: int| block[e] * multilinear::eq_table(p)[e];
    let a = |e: int| maxprod::weight_at(config, key, row, e) * gap(polys, config, j, e);
    let o = |e: int| maxprod::off_weight_at(config, key, row, e);
    let g = |e: int| a(e) + o(e);
    assert forall|e: int| 0 <= e < n implies #[trigger] f(e) == g(e) by {
        let (r, k) = (e / cp as int, e % cp as int);
        grid::lemma_position(rp, cp, e);
        tables::lemma_eq_concat(key, row, e);
        let w = multilinear::eq_table(key)[k] * multilinear::eq_table(row)[r];
        let d = gap(polys, config, j, e);
        EF::law_valid(multilinear::eq_table(key)[k], multilinear::eq_table(row)[r]);
        EF::law_valid(EF::one(), EF::one());
        EF::law_valid(w, d);
        algebra::one_mul(w);
        algebra::mul_zero(w);
        if maxprod::unmasked(config, r, k) {
            algebra::sub_self(EF::one());
            EF::law_mul_comm(d, w);
            EF::law_add_zero(w * d);
        } else {
            algebra::zero_add(EF::one());
            algebra::mul_zero(d);
            EF::law_mul_comm(EF::zero(), d);
            algebra::zero_add(w);
        }
    }
    algebra::sum_ext(n, f, g);
    algebra::sum_add(n, a, o);
}

/// The leaf polynomial at its point: the sum that the mask sumcheck proves, and the ones
/// off the mask.
pub proof fn lemma_leaf_value(polys: Map<Seq<char>, Seq<EF>>, config: Config, z: Seq<EF>)
    requires
        canonical::sizes_fit(config),
        z.len() == maxprod::key_bits(config) + maxprod::batch_bits(config),
        polys[canonical::Q_SC@].len() == pow2(canonical::all_bits(config, Kind::QSc)),
        algebra::all_valid(polys[canonical::Q_SC@]),
    ensures
        ({
            let (key, row, head) = (
                maxprod::key_part(config, z),
                maxprod::row_part(config, z),
                maxprod::head_part(config, z),
            );
            multilinear::mle(maxprod::leaf_values(polys, config), z) == sumcheck::hypercube_sum(
                seq![
                    maxprod::weights(config, key, row),
                    maxprod::operand(polys, config, head),
                ],
            ) + maxprod::off_weight(config, key, row)
        }),
{
    maxprod::lemma_max_sizes(config);
    let (key, row, head) = (
        maxprod::key_part(config, z),
        maxprod::row_part(config, z),
        maxprod::head_part(config, z),
    );
    let cp = pow2(maxprod::key_bits(config));
    let rp = pow2(maxprod::row_bits(config));
    let n = pow2(maxprod::key_bits(config) + maxprod::row_bits(config));
    let heads = pow2(maxprod::head_bits(config));
    let leaf = maxprod::leaf_values(polys, config);
    let p = key + row;
    assert(p + head =~= z);
    EF::law_valid(EF::one(), EF::one());
    assert forall|i: int| 0 <= i < leaf.len() implies (#[trigger] leaf[i]).valid() by {
        EF::law_valid(
            polys[canonical::X_MAX@][i / cp as int],
            polys[canonical::Q_SC@][i],
        );
    }
    commit::law_instance_combination(leaf, p, head);
    let eqh = |j: int| multilinear::eq_table(head)[j];
    let off = maxprod::off_weight(config, key, row);
    let part = |j: int| masked_gap(polys, config, key, row, j) * eqh(j);
    let rest = |j: int| off * eqh(j);
    let f = |j: int| commit::block_value(leaf, p, j) * multilinear::eq_table(head)[j];
    let g = |j: int| part(j) + rest(j);
    assert forall|j: int| 0 <= j < heads implies #[trigger] f(j) == g(j) by {
        lemma_head_leaf(polys, config, key, row, j);
        algebra::distrib_right(masked_gap(polys, config, key, row, j), off, eqh(j));
    }
    algebra::sum_ext(heads, f, g);
    algebra::sum_add(heads, part, rest);
    algebra::sum_scale(heads, off, eqh);
    tables::lemma_eq_sum(head);
    algebra::sum_ext(heads, eqh, |i: int| multilinear::eq_table(head)[i]);
    algebra::sum_valid(n, |i: int| maxprod::off_weight_at(config, key, row, i));
    EF::law_mul_one(off);
    // Exchange the sums over heads and positions.
    let a = |e: int| maxprod::weight_at(config, key, row, e);
    let mat = |e: int, j: int| gap(polys, config, j, e);
    identities::lemma_assoc(n, heads, a, eqh, mat);
    let cols = |j: int| algebra::sum(n, |e: int| a(e) * mat(e, j)) * eqh(j);
    assert forall|j: int| 0 <= j < heads implies #[trigger] part(j) == cols(j) by {
        algebra::sum_ext(
            n,
            |e: int| maxprod::weight_at(config, key, row, e) * gap(polys, config, j, e),
            |e: int| a(e) * mat(e, j),
        );
    }
    algebra::sum_ext(heads, part, cols);
    let rows = |e: int| a(e) * algebra::sum(heads, |j: int| mat(e, j) * eqh(j));
    let ws = maxprod::weights(config, key, row);
    let ops = maxprod::operand(polys, config, head);
    assert forall|e: int| 0 <= e < n implies (#[trigger] ws[e]).valid() by {
        EF::law_valid(
            multilinear::eq_table(key)[e % cp as int] * multilinear::eq_table(
                row,
            )[e / cp as int],
            maxprod::mask(config, e / cp as int, e % cp as int),
        );
    }
    identities::lemma_hypercube_dot(ws, ops);
    let dots = |e: int| ws[e] * ops[e];
    assert forall|e: int| 0 <= e < n implies #[trigger] dots(e) == rows(e) by {
        lemma_operand(polys, config, head, e);
        algebra::sum_ext(
            heads,
            |j: int| gap(polys, config, j, e) * multilinear::eq_table(head)[j],
            |j: int| mat(e, j) * eqh(j),
        );
    }
    algebra::sum_ext(n, dots, rows);
}

/// The operand at a position is the combination of the heads' gaps.
proof fn lemma_operand(polys: Map<Seq<char>, Seq<EF>>, config: Config, head: Seq<EF>, e: int)
    requires
        canonical::sizes_fit(config),
        head.len() == maxprod::head_bits(config),
        0 <= e < pow2(maxprod::key_bits(config) + maxprod::row_bits(config)),
    ensures
        maxprod::operand_at(polys, config, head, e) == algebra::sum(
            pow2(head.len()),
            |j: int| gap(polys, config, j, e) * multilinear::eq_table(head)[j],
        ),
{
    maxprod::lemma_max_sizes(config);
    let cp = pow2(maxprod::key_bits(config));
    let rp = pow2(maxprod::row_bits(config));
    let n = pow2(maxprod::key_bits(config) + maxprod::row_bits(config));
    let heads = pow2(head.len());
    let xs = |h: int|
        multilinear::eq_table(head)[h] * polys[canonical::X_MAX@][h * rp + e / cp as int];
    let qs = |h: int| multilinear::eq_table(head)[h] * polys[canonical::Q_SC@][h * n + e];
    algebra::sum_sub(heads, xs, qs);
    let f = |h: int| xs(h) - qs(h);
    let g = |j: int| gap(polys, config, j, e) * multilinear::eq_table(head)[j];
    assert forall|h: int| 0 <= h < heads implies #[trigger] f(h) == g(h) by {
        let w = multilinear::eq_table(head)[h];
        algebra::sub_distrib(
            w,
            polys[canonical::X_MAX@][h * rp + e / cp as int],
            polys[canonical::Q_SC@][h * n + e],
        );
        EF::law_mul_comm(w, gap(polys, config, h, e));
    }
    algebra::sum_ext(heads, f, g);
}

/// The operand at a point is the maxima minus the scores.
pub proof fn lemma_operand_value(
    polys: Map<Seq<char>, Seq<EF>>,
    config: Config,
    red: Seq<EF>,
    head: Seq<EF>,
)
    requires
        canonical::sizes_fit(config),
        red.len() == maxprod::key_bits(config) + maxprod::row_bits(config),
        head.len() == maxprod::head_bits(config),
        polys[canonical::Q_SC@].len() == pow2(canonical::all_bits(config, Kind::QSc)),
        polys[canonical::X_MAX@].len() == pow2(canonical::all_bits(config, Kind::XMax)),
        algebra::all_valid(polys[canonical::Q_SC@]),
        algebra::all_valid(polys[canonical::X_MAX@]),
    ensures
        multilinear::mle(maxprod::operand(polys, config, head), red) == multilinear::mle(
            polys[canonical::X_MAX@],
            maxprod::max_point(config, red, head),
        ) - multilinear::mle(polys[canonical::Q_SC@], red + head),
{
    maxprod::lemma_max_sizes(config);
    let kb = maxprod::key_bits(config);
    let cp = pow2(kb);
    let rp = pow2(maxprod::row_bits(config));
    let n = pow2(kb + maxprod::row_bits(config));
    let (key, row) = (red.take(kb as int), red.skip(kb as int));
    let xs = Seq::new(rp, |i: int| maxprod::folded_at(polys[canonical::X_MAX@], rp, head, i));
    let qs = Seq::new(n, |i: int| maxprod::folded_at(polys[canonical::Q_SC@], n, head, i));
    lemma_folded(polys[canonical::X_MAX@], row, head);
    lemma_folded(polys[canonical::Q_SC@], red, head);
    assert forall|i: int| 0 <= i < xs.len() implies (#[trigger] xs[i]).valid() by {
        algebra::sum_valid(
            pow2(head.len()),
            |h: int| multilinear::eq_table(head)[h] * polys[canonical::X_MAX@][h * rp + i],
        );
    }
    let wide = tables::stretched(xs, kb);
    tables::lemma_mle_stretched(xs, key, row);
    assert(key + row =~= red);
    let ops = maxprod::operand(polys, config, head);
    let sum = Seq::new(ops.len(), |i: int| ops[i] + qs[i]);
    assert(sum =~= wide) by {
        assert forall|i: int| 0 <= i < n implies #[trigger] sum[i] == wide[i] by {
            grid::lemma_position(rp, cp, i);
            algebra::sub_add(xs[i / cp as int], qs[i]);
        }
    }
    multilinear::lemma_mle_add(ops, qs, red);
    let (a, b, c) = (
        multilinear::mle(ops, red),
        multilinear::mle(qs, red),
        multilinear::mle(wide, red),
    );
    assert(c == a + b);
    assert forall|i: int| 0 <= i < ops.len() implies (#[trigger] ops[i]).valid() by {
        EF::law_valid(
            maxprod::folded_at(polys[canonical::X_MAX@], rp, head, i / cp as int),
            maxprod::folded_at(polys[canonical::Q_SC@], n, head, i),
        );
    }
    commit::lemma_mle_valid(ops, red);
    lemma_add_sub(a, b);
}

/// `(a + b) - b == a`.
pub proof fn lemma_add_sub(a: EF, b: EF)
    requires
        a.valid(),
    ensures
        (a + b) - b == a,
{
    EF::law_sub(a + b, b);
    EF::law_sub(b, b);
    EF::law_add_assoc(a, b, b.spec_neg());
    EF::law_add_zero(a);
}

/// Completeness of the maximum check: on the commitments of a forward pass, the honest
/// proof has the rounds of the layout, it is accepted, and both openings that it claims
/// are true.
#[verifier::rlimit(40)]
#[verifier::spinoff_prover]
pub proof fn law_softmax_max_complete(
    proof: maxprod::SoftmaxMaxProof,
    polys: Map<Seq<char>, Seq<EF>>,
    config: Config,
    w: ModelWeights,
    x0: Grid,
    tape: Seq<EF>,
)
    requires
        canonical::sizes_fit(config),
        model::config_fits(config),
        w.wf(config),
        w.blocks@.len() == config.n_layer,
        canonical::grid_is(x0, config.n_seq as nat, config.d_model as nat),
        commits_kind(polys, model::forward_of(x0, w, config), config, Kind::QSc),
        commits_kind(polys, model::forward_of(x0, w, config), config, Kind::XMax),
        tape.len() == maxprod::max_draws(config, maxprod::key_bits(config)),
        algebra::all_valid(tape),
        maxprod::honest_max(proof, polys, config, tape),
    ensures
        proof.gp.layers@.len() == maxprod::key_bits(config),
        proof.rs.round_polys@.len() == maxprod::key_bits(config) + maxprod::row_bits(config),
        maxprod::max_accepted(proof, config, tape),
        ({
            let n = maxprod::key_bits(config);
            let z = grandprod::point_at(
                maxprod::product_tape(config, n, tape),
                maxprod::batch_bits(config),
                n,
            );
            commit::all_hold(
                maxprod::max_claims(
                    config,
                    maxprod::mask_tape(config, n, tape).reverse(),
                    maxprod::head_part(config, z),
                    proof.x_max,
                    proof.q_sc,
                ),
                polys,
            )
        }),
{
    let wit = model::forward_of(x0, w, config);
    let n = maxprod::key_bits(config);
    let bb = maxprod::batch_bits(config);
    let gp_tape = maxprod::product_tape(config, n, tape);
    let z = grandprod::point_at(gp_tape, bb, n);
    let ch = maxprod::mask_tape(config, n, tape);
    let (key, row, head) = (
        maxprod::key_part(config, z),
        maxprod::row_part(config, z),
        maxprod::head_part(config, z),
    );
    let leaf = maxprod::leaf_values(polys, config);
    maxprod::lemma_max_sizes(config);
    lemma_kind_table(wit, config, Kind::QSc);
    lemma_kind_table(wit, config, Kind::XMax);
    EF::law_valid(EF::one(), EF::one());
    let cp = pow2(n);
    assert forall|i: int| 0 <= i < leaf.len() implies (#[trigger] leaf[i]).valid() by {
        EF::law_valid(
            polys[canonical::X_MAX@][i / cp as int],
            polys[canonical::Q_SC@][i],
        );
    }
    maxprod::lemma_point_len(gp_tape, bb, n);
    grandprod::law_complete(leaf, bb, n, gp_tape);
    assert(grandprod::batch_products(leaf, n) =~= maxprod::top_values(config)) by {
        grandprod::lemma_products_len(leaf, bb + n, n);
        assert forall|b: int| 0 <= b < pow2(bb) implies #[trigger] grandprod::batch_products(
            leaf,
            n,
        )[b] == maxprod::top_values(config)[b] by {
            grandprod::law_batch_product(leaf, bb, n, b);
            lemma_products_vanish(polys, config, w, x0, b);
        }
    }
    lemma_leaf_value(polys, config, z);
    let ws = maxprod::weights(config, key, row);
    let ops = maxprod::operand(polys, config, head);
    assert forall|e: int| 0 <= e < ws.len() implies (#[trigger] ws[e]).valid() by {
        EF::law_valid(
            multilinear::eq_table(key)[e % cp as int] * multilinear::eq_table(
                row,
            )[e / cp as int],
            maxprod::mask(config, e / cp as int, e % cp as int),
        );
    }
    assert forall|e: int| 0 <= e < ops.len() implies (#[trigger] ops[e]).valid() by {
        EF::law_valid(
            maxprod::folded_at(
                polys[canonical::X_MAX@],
                pow2(maxprod::row_bits(config)),
                head,
                e / cp as int,
            ),
            maxprod::folded_at(
                polys[canonical::Q_SC@],
                pow2(maxprod::key_bits(config) + maxprod::row_bits(config)),
                head,
                e,
            ),
        );
    }
    let both = seq![ws, ops];
    assert(both[0] == ws && both[1] == ops);
    sumcheck::law_complete(both, ch);
    reduce::lemma_round_count(proof.rs, both, ch);
    let v = multilinear::mle(leaf, z);
    let total = sumcheck::hypercube_sum(both);
    algebra::sum_valid(ws.len(), |i: int| sumcheck::vertex_product(both, i));
    lemma_add_sub(total, maxprod::off_weight(config, key, row));
    lemma_operand_value(polys, config, ch.reverse(), head);
    assert(proof.gp.contents().len() == proof.gp.layers@.len());
}

/// Rejection of maxima that are no scores: over any committed maxima and scores, the
/// honest proof is accepted only if the first draws make the products and the expected
/// top values agree in the one value that is checked.
pub proof fn law_softmax_max_bound(
    proof: maxprod::SoftmaxMaxProof,
    polys: Map<Seq<char>, Seq<EF>>,
    config: Config,
    tape: Seq<EF>,
)
    requires
        maxprod::max_ready(polys, config),
        algebra::all_valid(polys[canonical::Q_SC@]),
        algebra::all_valid(polys[canonical::X_MAX@]),
        tape.len() == maxprod::max_draws(config, maxprod::key_bits(config)),
        algebra::all_valid(tape),
        maxprod::honest_max(proof, polys, config, tape),
        maxprod::max_accepted(proof, config, tape),
    ensures
        ({
            let first = tape.take(maxprod::batch_bits(config) as int);
            multilinear::mle(maxprod::top_values(config), first) == multilinear::mle(
                grandprod::batch_products(
                    maxprod::leaf_values(polys, config),
                    maxprod::key_bits(config),
                ),
                first,
            )
        }),
{
    let n = maxprod::key_bits(config);
    let bb = maxprod::batch_bits(config);
    let gp_tape = maxprod::product_tape(config, n, tape);
    let z = grandprod::point_at(gp_tape, bb, n);
    let ch = maxprod::mask_tape(config, n, tape);
    let (key, row, head) = (
        maxprod::key_part(config, z),
        maxprod::row_part(config, z),
        maxprod::head_part(config, z),
    );
    let leaf = maxprod::leaf_values(polys, config);
    let top = maxprod::top_values(config);
    maxprod::lemma_max_sizes(config);
    EF::law_valid(EF::one(), EF::one());
    let cp = pow2(n);
    assert forall|i: int| 0 <= i < leaf.len() implies (#[trigger] leaf[i]).valid() by {
        EF::law_valid(
            polys[canonical::X_MAX@][i / cp as int],
            polys[canonical::Q_SC@][i],
        );
    }
    maxprod::lemma_point_len(gp_tape, bb, n);
    lemma_leaf_value(polys, config, z);
    let ws = maxprod::weights(config, key, row);
    let ops = maxprod::operand(polys, config, head);
    assert forall|e: int| 0 <= e < ws.len() implies (#[trigger] ws[e]).valid() by {
        EF::law_valid(
            multilinear::eq_table(key)[e % cp as int] * multilinear::eq_table(
                row,
            )[e / cp as int],
            maxprod::mask(config, e / cp as int, e % cp as int),
        );
    }
    assert forall|e: int| 0 <= e < ops.len() implies (#[trigger] ops[e]).valid() by {
        EF::law_valid(
            maxprod::folded_at(
                polys[canonical::X_MAX@],
                pow2(maxprod::row_bits(config)),
                head,
                e / cp as int,
            ),
            maxprod::folded_at(
                polys[canonical::Q_SC@],
                pow2(maxprod::key_bits(config) + maxprod::row_bits(config)),
                head,
                e,
            ),
        );
    }
    let both = seq![ws, ops];
    assert(both[0] == ws && both[1] == ops);
    sumcheck::law_complete(both, ch);
    let total = sumcheck::hypercube_sum(both);
    let off = maxprod::off_weight(config, key, row);
    assert(proof.gp.contents().len() == proof.gp.layers@.len());
    let layers = grandprod::honest_layers(leaf, bb, n, gp_tape);
    let (_zv, v) = grandprod::verified(top, layers, bb, gp_tape)->0;
    sumcheck::law_claim_unique(
        v - off,
        total,
        proof.rs.rounds(),
        proof.rs.final_evals@,
        ch,
    );
    if n == 0 {
        grandprod::lemma_weighted_sum(top, z);
        algebra::sum_valid(top.len(), |i: int| multilinear::eq_table(z)[i] * top[i]);
        algebra::sub_add(v, off);
    }
    grandprod::law_top_bound(leaf, top, bb, n, gp_tape, v);
    assert(gp_tape.take(bb as int) =~= tape.take(bb as int));
}

/// Where the committed maximum of a row is none of the row's unmasked scores, the
/// product of the row is not the expected one.
pub proof fn law_foreign_max(polys: Map<Seq<char>, Seq<EF>>, config: Config, b: int)
    requires
        maxprod::max_ready(polys, config),
        algebra::all_valid(polys[canonical::Q_SC@]),
        algebra::all_valid(polys[canonical::X_MAX@]),
        0 <= b < pow2(maxprod::batch_bits(config)),
        (b % pow2(maxprod::row_bits(config)) as int) < config.n_seq,
        forall|k: int|
            0 <= k <= b % pow2(maxprod::row_bits(config)) as int
                ==> #[trigger] polys[canonical::Q_SC@][b * pow2(maxprod::key_bits(config)) + k]
                != polys[canonical::X_MAX@][b],
    ensures
        maxprod::top_values(config)[b] == EF::zero(),
        grandprod::batch_products(
            maxprod::leaf_values(polys, config),
            maxprod::key_bits(config),
        )[b] != EF::zero(),
{
    let cp = pow2(maxprod::key_bits(config));
    let rp = pow2(maxprod::row_bits(config));
    let bb = maxprod::batch_bits(config);
    let leaf = maxprod::leaf_values(polys, config);
    let f = |k: int| leaf[b * cp + k];
    maxprod::lemma_max_sizes(config);
    EF::law_valid(EF::one(), EF::one());
    EF::law_nontrivial();
    assert forall|i: int| 0 <= i < leaf.len() implies (#[trigger] leaf[i]).valid() by {
        EF::law_valid(
            polys[canonical::X_MAX@][i / cp as int],
            polys[canonical::Q_SC@][i],
        );
    }
    assert forall|k: int| 0 <= k < cp implies (#[trigger] f(k)).valid() && f(k)
        != EF::zero() by {
        grid::lemma_cell(pow2(bb), cp, b, k);
        let i = b * cp + k;
        assert(f(k) == maxprod::leaf_at(polys, config, i));
        if maxprod::unmasked(config, b % rp as int, k) {
            assert(polys[canonical::Q_SC@][i] != polys[canonical::X_MAX@][b]);
            if polys[canonical::X_MAX@][b] - polys[canonical::Q_SC@][i] == EF::zero() {
                algebra::sub_zero(polys[canonical::X_MAX@][b], polys[canonical::Q_SC@][i]);
            }
        }
    }
    algebra::prod_nonzero(cp, f);
    grandprod::law_batch_product(leaf, bb, maxprod::key_bits(config), b);
}

} // verus!
