//! The model is causal: what it computes at a position depends on that position and
//! the earlier ones alone.
use vstd::prelude::*;
use crate::proofsys::canonical;
use crate::proofsys::grid;
use crate::proofsys::grid::Grid;
use crate::proofsys::model;
use crate::proofsys::model::{BlockWeights, ModelWeights};
use crate::proofsys::witness::Config;

verus! {

/// Two matrices of one shape agree in their first `n` rows.
pub open spec fn agree(a: Grid, b: Grid, n: nat) -> bool {
    &&& a.wf()
    &&& b.wf()
    &&& a.rows == b.rows
    &&& a.cols == b.cols
    &&& n <= a.rows
    &&& forall|r: int, c: int|
        0 <= r < n && 0 <= c < a.cols ==> #[trigger] a.at(r, c) == b.at(r, c)
}

proof fn lemma_tabulate_agree(
    rows: nat,
    cols: nat,
    f: spec_fn(int, int) -> int,
    g: spec_fn(int, int) -> int,
    n: nat,
)
    requires
        n <= rows,
        forall|r: int, c: int| 0 <= r < n && 0 <= c < cols ==> #[trigger] f(r, c) == g(r, c),
    ensures
        agree(grid::tabulate(rows, cols, f), grid::tabulate(rows, cols, g), n),
{
    let (a, b) = (grid::tabulate(rows, cols, f), grid::tabulate(rows, cols, g));
    assert forall|r: int, c: int| 0 <= r < n && 0 <= c < cols implies #[trigger] a.at(r, c)
        == b.at(r, c) by {
        grid::lemma_tabulate(rows, cols, f, r, c);
        grid::lemma_tabulate(rows, cols, g, r, c);
        assert(f(r, c) == g(r, c));
    }
}

/// A row of a product depends on the same row of the left factor.
proof fn lemma_product_agree(a: Grid, b: Grid, m: Grid, n: nat)
    requires
        agree(a, b, n),
    ensures
        agree(grid::product(a, m), grid::product(b, m), n),
{
    let f = |i: int, j: int| grid::row_dot(a, m, i, j, a.cols);
    let g = |i: int, j: int| grid::row_dot(b, m, i, j, b.cols);
    assert forall|i: int, j: int| 0 <= i < n && 0 <= j < m.cols implies #[trigger] f(i, j) == g(
        i,
        j,
    ) by {
        let x = |k: int| a.at(i, k) * m.at(k, j);
        let y = |k: int| b.at(i, k) * m.at(k, j);
        assert forall|k: int| 0 <= k < a.cols implies #[trigger] x(k) == y(k) by {
            assert(a.at(i, k) == b.at(i, k));
        }
        grid::lemma_isum_ext(a.cols, x, y);
    }
    lemma_tabulate_agree(a.rows, m.cols, f, g, n);
}

/// The same of a product with a transpose.
proof fn lemma_transposed_agree(a: Grid, b: Grid, m: Grid, n: nat)
    requires
        agree(a, b, n),
    ensures
        agree(grid::product_transposed(a, m), grid::product_transposed(b, m), n),
{
    let f = |i: int, j: int| grid::rows_dot(a, m, i, j, a.cols);
    let g = |i: int, j: int| grid::rows_dot(b, m, i, j, b.cols);
    assert forall|i: int, j: int| 0 <= i < n && 0 <= j < m.rows implies #[trigger] f(i, j) == g(
        i,
        j,
    ) by {
        let x = |k: int| a.at(i, k) * m.at(j, k);
        let y = |k: int| b.at(i, k) * m.at(j, k);
        assert forall|k: int| 0 <= k < a.cols implies #[trigger] x(k) == y(k) by {
            assert(a.at(i, k) == b.at(i, k));
        }
        grid::lemma_isum_ext(a.cols, x, y);
    }
    lemma_tabulate_agree(a.rows, m.rows, f, g, n);
}

proof fn lemma_div_agree(a: Grid, b: Grid, d: int, n: nat)
    requires
        agree(a, b, n),
    ensures
        agree(grid::floor_div(a, d), grid::floor_div(b, d), n),
{
    let (x, y) = (grid::floor_div(a, d), grid::floor_div(b, d));
    assert forall|r: int, c: int| 0 <= r < n && 0 <= c < x.cols implies #[trigger] x.at(r, c)
        == y.at(r, c) by {
        grid::lemma_cell(a.rows, a.cols, r, c);
        assert(a.at(r, c) == b.at(r, c));
    }
}

proof fn lemma_row_agree(a: Grid, b: Grid, bias: Seq<int>, n: nat)
    requires
        agree(a, b, n),
    ensures
        agree(grid::add_row(a, bias), grid::add_row(b, bias), n),
{
    let (x, y) = (grid::add_row(a, bias), grid::add_row(b, bias));
    assert forall|r: int, c: int| 0 <= r < n && 0 <= c < x.cols implies #[trigger] x.at(r, c)
        == y.at(r, c) by {
        grid::lemma_cell(a.rows, a.cols, r, c);
        assert(a.at(r, c) == b.at(r, c));
    }
}

proof fn lemma_sum_agree(a: Grid, b: Grid, p: Grid, q: Grid, n: nat)
    requires
        agree(a, b, n),
        agree(p, q, n),
        a.rows == p.rows,
        a.cols == p.cols,
    ensures
        agree(grid::add_grid(a, p), grid::add_grid(b, q), n),
{
    let (x, y) = (grid::add_grid(a, p), grid::add_grid(b, q));
    assert forall|r: int, c: int| 0 <= r < n && 0 <= c < x.cols implies #[trigger] x.at(r, c)
        == y.at(r, c) by {
        grid::lemma_cell(a.rows, a.cols, r, c);
        assert(a.at(r, c) == b.at(r, c));
        assert(p.at(r, c) == q.at(r, c));
    }
}

/// Layer normalization treats the rows one by one.
proof fn lemma_norm_agree(a: Grid, b: Grid, gain: Seq<int>, bias: Seq<int>, n: nat)
    requires
        agree(a, b, n),
    ensures
        agree(
            model::layer_norm_of(a, gain, bias).output,
            model::layer_norm_of(b, gain, bias).output,
            n,
        ),
{
    let f = |r: int, c: int| model::centred(a, gain, r, c) / model::deviation(a, r) + bias[c];
    let g = |r: int, c: int| model::centred(b, gain, r, c) / model::deviation(b, r) + bias[c];
    assert forall|r: int, c: int| 0 <= r < n && 0 <= c < a.cols implies #[trigger] f(r, c) == g(
        r,
        c,
    ) by {
        let (x, y) = (|k: int| a.at(r, k), |k: int| b.at(r, k));
        let (u, v) = (|k: int| a.at(r, k) * a.at(r, k), |k: int| b.at(r, k) * b.at(r, k));
        assert forall|k: int| 0 <= k < a.cols implies #[trigger] x(k) == y(k) && u(k) == v(k) by {
            assert(a.at(r, k) == b.at(r, k));
        }
        assert forall|k: int| 0 <= k < a.cols implies #[trigger] u(k) == v(k) by {
            assert(x(k) == y(k));
        }
        grid::lemma_isum_ext(a.cols, x, y);
        grid::lemma_isum_ext(a.cols, u, v);
        assert(a.at(r, c) == b.at(r, c));
    }
    lemma_tabulate_agree(a.rows, a.cols, f, g, n);
}

/// The scores of the first `n` positions among themselves agree.
pub open spec fn corner_agrees(s: Grid, t: Grid, n: nat) -> bool {
    forall|i: int, j: int| 0 <= i < n && 0 <= j < n ==> #[trigger] s.at(i, j) == t.at(i, j)
}

proof fn lemma_max_agree(s: Grid, t: Grid, n: nat, i: int, k: nat)
    requires
        corner_agrees(s, t, n),
        0 <= i < n,
        k <= n,
    ensures
        model::prefix_max(s, i, k) == model::prefix_max(t, i, k),
    decreases k,
{
    if k <= 1 {
        assert(s.at(i, 0) == t.at(i, 0));
    } else {
        lemma_max_agree(s, t, n, i, (k - 1) as nat);
        assert(s.at(i, k - 1) == t.at(i, k - 1));
    }
}

/// The shares of a position depend on its scores up to itself.
proof fn lemma_share_agree(
    s: Grid,
    t: Grid,
    lut: Seq<int>,
    offset: int,
    scale: int,
    n: nat,
    i: int,
    j: int,
)
    requires
        corner_agrees(s, t, n),
        0 <= i < n,
        0 <= j,
    ensures
        model::share_at(s, lut, offset, scale, i, j) == model::share_at(
            t,
            lut,
            offset,
            scale,
            i,
            j,
        ),
{
    if j <= i {
        lemma_max_agree(s, t, n, i, (i + 1) as nat);
        let f = |k: int| model::exp_at(s, lut, offset, i, k);
        let g = |k: int| model::exp_at(t, lut, offset, i, k);
        assert forall|k: int| 0 <= k < i + 1 implies #[trigger] f(k) == g(k) by {
            assert(s.at(i, k) == t.at(i, k));
        }
        grid::lemma_isum_ext((i + 1) as nat, f, g);
        assert(f(j) == g(j));
    }
}

/// The parts of a head agree where the projected inputs do.
proof fn lemma_head_agree(a: Grid, b: Grid, config: Config, base: int, h: int, n: nat)
    requires
        agree(a, b, n),
        a.rows == config.n_seq,
        0 <= base,
        0 <= h < config.n_head,
        base + config.n_head * config.d_head <= a.cols,
    ensures
        agree(
            model::head_grid(a, config, base, h),
            model::head_grid(b, config, base, h),
            n,
        ),
{
    let f = |s: int, d: int| a.at(s, base + h * config.d_head + d);
    let g = |s: int, d: int| b.at(s, base + h * config.d_head + d);
    assert forall|s: int, d: int| 0 <= s < n && 0 <= d < config.d_head implies #[trigger] f(s, d)
        == g(s, d) by {
        grid::lemma_cell(config.n_head as nat, config.d_head as nat, h, d);
        assert(0 <= h * config.d_head) by (nonlinear_arith)
            requires
                0 <= h,
        ;
        assert(a.at(s, base + h * config.d_head + d) == b.at(s, base + h * config.d_head + d));
    }
    lemma_tabulate_agree(config.n_seq as nat, config.d_head as nat, f, g, n);
}

/// The scores of a head among the first positions agree.
proof fn lemma_scores_agree(a: Grid, b: Grid, config: Config, h: int, n: nat)
    requires
        agree(a, b, n),
        a.rows == config.n_seq,
        a.cols == 3 * config.d_model,
        config.n_head * config.d_head <= config.d_model,
        0 <= h < config.n_head,
    ensures
        corner_agrees(model::score_of(a, config, h), model::score_of(b, config, h), n),
{
    let d = config.d_model as int;
    let (qa, qb) = (model::head_grid(a, config, 0, h), model::head_grid(b, config, 0, h));
    let (ka, kb) = (model::head_grid(a, config, d, h), model::head_grid(b, config, d, h));
    lemma_head_agree(a, b, config, 0, h, n);
    lemma_head_agree(a, b, config, d, h, n);
    let (pa, pb) = (grid::product_transposed(qa, ka), grid::product_transposed(qb, kb));
    let (s, t) = (model::score_of(a, config, h), model::score_of(b, config, h));
    assert forall|i: int, j: int| 0 <= i < n && 0 <= j < n implies #[trigger] s.at(i, j) == t.at(
        i,
        j,
    ) by {
        let x = |k: int| qa.at(i, k) * ka.at(j, k);
        let y = |k: int| qb.at(i, k) * kb.at(j, k);
        assert forall|k: int| 0 <= k < qa.cols implies #[trigger] x(k) == y(k) by {
            assert(qa.at(i, k) == qb.at(i, k));
            assert(ka.at(j, k) == kb.at(j, k));
        }
        grid::lemma_isum_ext(qa.cols, x, y);
        let f = |i: int, j: int| grid::rows_dot(qa, ka, i, j, qa.cols);
        let g = |i: int, j: int| grid::rows_dot(qb, kb, i, j, qb.cols);
        grid::lemma_tabulate(qa.rows, ka.rows, f, i, j);
        grid::lemma_tabulate(qb.rows, kb.rows, g, i, j);
        grid::lemma_cell(qa.rows, ka.rows, i, j);
        assert(pa.at(i, j) == pb.at(i, j));
    }
}

/// The output of a head at a position depends on the earlier positions.
proof fn lemma_output_agree(a: Grid, b: Grid, w: ModelWeights, config: Config, h: int, n: nat)
    requires
        agree(a, b, n),
        a.rows == config.n_seq,
        a.cols == 3 * config.d_model,
        config.n_head * config.d_head <= config.d_model,
        0 <= h < config.n_head,
    ensures
        agree(
            model::head_output(a, w, config, h),
            model::head_output(b, w, config, h),
            n,
        ),
{
    let len = config.n_seq as nat;
    let (s, t) = (model::score_of(a, config, h), model::score_of(b, config, h));
    let (pa, pb) = (
        model::head_softmax(a, w, config, h).prob,
        model::head_softmax(b, w, config, h).prob,
    );
    let base = 2 * config.d_model as int;
    let (va, vb) = (
        model::head_grid(a, config, base, h),
        model::head_grid(b, config, base, h),
    );
    let (lut, offset, scale) = (
        grid::ints(w.exp_lut@),
        config.table_offset(),
        config.scale as int,
    );
    lemma_scores_agree(a, b, config, h, n);
    lemma_head_agree(a, b, config, base, h, n);
    let f = |i: int, j: int| grid::row_dot(pa, va, i, j, pa.cols);
    let g = |i: int, j: int| grid::row_dot(pb, vb, i, j, pb.cols);
    let share_a = |i: int, j: int| model::share_at(s, lut, offset, scale, i, j);
    let share_b = |i: int, j: int| model::share_at(t, lut, offset, scale, i, j);
    assert forall|i: int, j: int| 0 <= i < n && 0 <= j < va.cols implies #[trigger] f(i, j) == g(
        i,
        j,
    ) by {
        let x = |k: int| pa.at(i, k) * va.at(k, j);
        let y = |k: int| pb.at(i, k) * vb.at(k, j);
        assert forall|k: int| 0 <= k < len implies #[trigger] x(k) == y(k) by {
            grid::lemma_tabulate(len, len, share_a, i, k);
            grid::lemma_tabulate(len, len, share_b, i, k);
            lemma_share_agree(s, t, lut, offset, scale, n, i, k);
            assert(pa.at(i, k) == pb.at(i, k));
            if k <= i {
                assert(va.at(k, j) == vb.at(k, j));
            } else {
                assert(pa.at(i, k) == 0);
                assert(0 * va.at(k, j) == 0 * vb.at(k, j)) by (nonlinear_arith);
            }
        }
        grid::lemma_isum_ext(len, x, y);
    }
    lemma_tabulate_agree(len, config.d_head as nat, f, g, n);
    lemma_div_agree(grid::product(pa, va), grid::product(pb, vb), scale, n);
}

/// The heads' outputs side by side.
proof fn lemma_merged_agree(a: Grid, b: Grid, w: ModelWeights, config: Config, n: nat)
    requires
        agree(a, b, n),
        a.rows == config.n_seq,
        a.cols == 3 * config.d_model,
        config.n_head * config.d_head <= config.d_model,
    ensures
        agree(model::merged_heads(a, w, config), model::merged_heads(b, w, config), n),
{
    let f = |i: int, c: int| model::merged_at(a, w, config, i, c);
    let g = |i: int, c: int| model::merged_at(b, w, config, i, c);
    assert forall|i: int, c: int| 0 <= i < n && 0 <= c < config.d_model implies #[trigger] f(i, c)
        == g(i, c) by {
        if c < config.n_head * config.d_head {
            grid::lemma_position(config.n_head as nat, config.d_head as nat, c);
            let (h, d) = (c / config.d_head as int, c % config.d_head as int);
            lemma_output_agree(a, b, w, config, h, n);
            assert(model::head_output(a, w, config, h).at(i, d) == model::head_output(
                b,
                w,
                config,
                h,
            ).at(i, d));
        }
    }
    lemma_tabulate_agree(config.n_seq as nat, config.d_model as nat, f, g, n);
}

/// The stream after the attention of a block.
proof fn lemma_attention_agree(
    x: Grid,
    y: Grid,
    nx: Grid,
    ny: Grid,
    b: BlockWeights,
    w: ModelWeights,
    config: Config,
    n: nat,
)
    requires
        b.wf(config),
        config.n_head * config.d_head <= config.d_model,
        agree(x, y, n),
        x.rows == config.n_seq,
        x.cols == config.d_model,
        agree(nx, ny, n),
        nx.rows == config.n_seq,
    ensures
        agree(
            model::attention_of(x, nx, b, w, config).x_out,
            model::attention_of(y, ny, b, w, config).x_out,
            n,
        ),
{
    let scale = config.scale as int;
    let (pa, pb) = (grid::product(nx, b.attn_w.grid()), grid::product(ny, b.attn_w.grid()));
    lemma_product_agree(nx, ny, b.attn_w.grid(), n);
    lemma_div_agree(pa, pb, scale, n);
    lemma_row_agree(
        model::projected_inputs(nx, b, config),
        model::projected_inputs(ny, b, config),
        grid::ints(b.attn_b@),
        n,
    );
    let (qa, qb) = (model::biased_inputs(nx, b, config), model::biased_inputs(ny, b, config));
    lemma_merged_agree(qa, qb, w, config, n);
    let (ma, mb) = (model::merged_heads(qa, w, config), model::merged_heads(qb, w, config));
    lemma_product_agree(ma, mb, b.attn_proj_w.grid(), n);
    lemma_div_agree(
        grid::product(ma, b.attn_proj_w.grid()),
        grid::product(mb, b.attn_proj_w.grid()),
        scale,
        n,
    );
    let (ra, rb) = (
        model::attention_projection(nx, b, w, config),
        model::attention_projection(ny, b, w, config),
    );
    let bias = grid::ints(b.attn_proj_b@);
    lemma_row_agree(ra, rb, bias, n);
    lemma_sum_agree(x, y, grid::add_row(ra, bias), grid::add_row(rb, bias), n);
}

/// The stream after the feed-forward layer of a block.
proof fn lemma_mlp_agree(
    x: Grid,
    y: Grid,
    nx: Grid,
    ny: Grid,
    b: BlockWeights,
    w: ModelWeights,
    config: Config,
    n: nat,
)
    requires
        b.wf(config),
        agree(x, y, n),
        x.rows == config.n_seq,
        x.cols == config.d_model,
        agree(nx, ny, n),
        nx.rows == config.n_seq,
    ensures
        agree(
            model::mlp_of(x, nx, b, w, config).x_out,
            model::mlp_of(y, ny, b, w, config).x_out,
            n,
        ),
{
    let scale = config.scale as int;
    lemma_product_agree(nx, ny, b.fc_w.grid(), n);
    lemma_div_agree(
        grid::product(nx, b.fc_w.grid()),
        grid::product(ny, b.fc_w.grid()),
        scale,
        n,
    );
    lemma_row_agree(
        model::hidden_product(nx, b, config),
        model::hidden_product(ny, b, config),
        grid::ints(b.fc_b@),
        n,
    );
    let (fa, fb) = (model::hidden_values(nx, b, config), model::hidden_values(ny, b, config));
    let lut = grid::ints(w.gelu_lut@);
    let f = |r: int, c: int| lut[fa.at(r, c) + config.table_offset()];
    let g = |r: int, c: int| lut[fb.at(r, c) + config.table_offset()];
    assert forall|r: int, c: int| 0 <= r < n && 0 <= c < config.mlp_hidden implies #[trigger] f(
        r,
        c,
    ) == g(r, c) by {
        assert(fa.at(r, c) == fb.at(r, c));
    }
    lemma_tabulate_agree(config.n_seq as nat, config.mlp_hidden as nat, f, g, n);
    let (aa, ab) = (model::activations(fa, w, config), model::activations(fb, w, config));
    lemma_product_agree(aa, ab, b.fproj_w.grid(), n);
    let (pa, pb) = (grid::product(aa, b.fproj_w.grid()), grid::product(ab, b.fproj_w.grid()));
    lemma_div_agree(pa, pb, scale, n);
    let (qa, qb) = (grid::floor_div(pa, scale), grid::floor_div(pb, scale));
    let bias = grid::ints(b.fproj_b@);
    lemma_row_agree(qa, qb, bias, n);
    lemma_sum_agree(x, y, grid::add_row(qa, bias), grid::add_row(qb, bias), n);
}

/// One block keeps the agreement.
proof fn lemma_block_agree(
    x: Grid,
    y: Grid,
    b: BlockWeights,
    w: ModelWeights,
    config: Config,
    n: nat,
)
    requires
        b.wf(config),
        config.n_head * config.d_head <= config.d_model,
        agree(x, y, n),
        x.rows == config.n_seq,
        x.cols == config.d_model,
    ensures
        ({
            let (u, v) = (model::block_of(x, b, w, config), model::block_of(y, b, w, config));
            &&& agree(u.attention.x_out, v.attention.x_out, n)
            &&& agree(u.mlp.x_out, v.mlp.x_out, n)
            &&& u.mlp.x_out.rows == config.n_seq
            &&& u.mlp.x_out.cols == config.d_model
        }),
{
    let (g1, b1) = (grid::ints(b.ln_1_g@), grid::ints(b.ln_1_b@));
    let (g2, b2) = (grid::ints(b.ln_2_g@), grid::ints(b.ln_2_b@));
    let (nx, ny) = (
        model::layer_norm_of(x, g1, b1).output,
        model::layer_norm_of(y, g1, b1).output,
    );
    lemma_norm_agree(x, y, g1, b1, n);
    lemma_attention_agree(x, y, nx, ny, b, w, config, n);
    let (u, v) = (
        model::attention_of(x, nx, b, w, config).x_out,
        model::attention_of(y, ny, b, w, config).x_out,
    );
    lemma_norm_agree(u, v, g2, b2, n);
    lemma_mlp_agree(
        u,
        v,
        model::layer_norm_of(u, g2, b2).output,
        model::layer_norm_of(v, g2, b2).output,
        b,
        w,
        config,
        n,
    );
}

proof fn lemma_stream_agree(
    x: Grid,
    y: Grid,
    w: ModelWeights,
    config: Config,
    n: nat,
    k: nat,
)
    requires
        w.wf(config),
        config.n_head * config.d_head <= config.d_model,
        agree(x, y, n),
        x.rows == config.n_seq,
        x.cols == config.d_model,
        k <= w.blocks@.len(),
    ensures
        agree(model::stream(x, w, config, k), model::stream(y, w, config, k), n),
        model::stream(x, w, config, k).rows == config.n_seq,
        model::stream(x, w, config, k).cols == config.d_model,
    decreases k,
{
    if k > 0 {
        let j = (k - 1) as nat;
        lemma_stream_agree(x, y, w, config, n, j);
        lemma_block_agree(
            model::stream(x, w, config, j),
            model::stream(y, w, config, j),
            w.blocks@[j as int],
            w,
            config,
            n,
        );
    }
}

/// Causality of the forward pass: two inputs that agree in their first `n` rows give
/// the same first `n` rows in the stream after every attention and every feed-forward
/// layer, in the final normalization and in the logits.
pub proof fn law_causal(x: Grid, y: Grid, w: ModelWeights, config: Config, n: nat)
    requires
        model::config_fits(config),
        w.wf(config),
        canonical::grid_is(x, config.n_seq as nat, config.d_model as nat),
        agree(x, y, n),
    ensures
        ({
            let (u, v) = (model::forward_of(x, w, config), model::forward_of(y, w, config));
            &&& forall|k: int|
                0 <= k < w.blocks@.len() ==> agree(
                    (#[trigger] u.blocks[k]).attention.x_out,
                    v.blocks[k].attention.x_out,
                    n,
                ) && agree(u.blocks[k].mlp.x_out, v.blocks[k].mlp.x_out, n)
            &&& agree(u.lnf.output, v.lnf.output, n)
            &&& agree(u.q_log, v.q_log, n)
        }),
{
    let (u, v) = (model::forward_of(x, w, config), model::forward_of(y, w, config));
    assert forall|k: int| 0 <= k < w.blocks@.len() implies agree(
        (#[trigger] u.blocks[k]).attention.x_out,
        v.blocks[k].attention.x_out,
        n,
    ) && agree(u.blocks[k].mlp.x_out, v.blocks[k].mlp.x_out, n) by {
        lemma_stream_agree(x, y, w, config, n, k as nat);
        lemma_block_agree(
            model::stream(x, w, config, k as nat),
            model::stream(y, w, config, k as nat),
            w.blocks@[k],
            w,
            config,
            n,
        );
    }
    let m = w.blocks@.len();
    let (p, q) = (model::stream(x, w, config, m), model::stream(y, w, config, m));
    lemma_stream_agree(x, y, w, config, n, m);
    lemma_norm_agree(p, q, grid::ints(w.ln_f_g@), grid::ints(w.ln_f_b@), n);
    let (a, b) = (model::final_norm(p, w).output, model::final_norm(q, w).output);
    lemma_transposed_agree(a, b, w.wte.grid(), n);
    lemma_div_agree(
        grid::product_transposed(a, w.wte.grid()),
        grid::product_transposed(b, w.wte.grid()),
        config.scale as int,
        n,
    );
}

} // verus!
