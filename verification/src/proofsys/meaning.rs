//! What the values of a forward pass are, entry by entry.
//!
//! Every law speaks of the parts of the witness alone: of the values that a step reads
//! and of those that it leaves, and of the weights.
use vstd::prelude::*;
use crate::proofsys::grid;
use crate::proofsys::grid::{Cube, Grid};
use crate::proofsys::model;
use crate::proofsys::model::{BlockWeights, ModelWeights};
use crate::proofsys::piop;
use crate::proofsys::piop::{InferencePiopProof, PublicInput};
use crate::proofsys::tensor;
use crate::proofsys::witness::{
    AttentionView, AttentionWitness, Config, LayerNormView, MlpView, Witness,
};

verus! {

/// `q` is `a / d`, rounded down.
pub open spec fn is_floor(q: int, a: int, d: int) -> bool {
    q * d <= a < q * d + d
}

/// An entry of a tensor with one leading index.
pub open spec fn face_at(c: Cube, i: int, j: int) -> int {
    c.data[i * c.d2 + j]
}

proof fn lemma_floor(a: int, d: int)
    requires
        d > 0,
    ensures
        is_floor(a / d, a, d),
{
    tensor::law_floor_division(a, d);
}

/// An entry of a divided matrix product.
proof fn lemma_quotient(a: Grid, b: Grid, d: int, r: int, c: int)
    requires
        d > 0,
        0 <= r < a.rows,
        0 <= c < b.cols,
    ensures
        is_floor(
            grid::floor_div(grid::product(a, b), d).at(r, c),
            grid::isum(a.cols, |k: int| a.at(r, k) * b.at(k, c)),
            d,
        ),
        grid::floor_div(grid::product(a, b), d).rows == a.rows,
        grid::floor_div(grid::product(a, b), d).cols == b.cols,
        grid::floor_div(grid::product(a, b), d).wf(),
{
    let p = grid::product(a, b);
    let f = |i: int, j: int| grid::row_dot(a, b, i, j, a.cols);
    grid::lemma_tabulate(a.rows, b.cols, f, r, c);
    grid::lemma_cell(a.rows, b.cols, r, c);
    lemma_floor(p.at(r, c), d);
}

/// An entry of a divided product with a transpose.
proof fn lemma_quotient_transposed(a: Grid, b: Grid, d: int, r: int, c: int)
    requires
        d > 0,
        0 <= r < a.rows,
        0 <= c < b.rows,
    ensures
        is_floor(
            grid::floor_div(grid::product_transposed(a, b), d).at(r, c),
            grid::isum(a.cols, |k: int| a.at(r, k) * b.at(c, k)),
            d,
        ),
        grid::floor_div(grid::product_transposed(a, b), d).rows == a.rows,
        grid::floor_div(grid::product_transposed(a, b), d).cols == b.rows,
{
    let p = grid::product_transposed(a, b);
    let f = |i: int, j: int| grid::rows_dot(a, b, i, j, a.cols);
    grid::lemma_tabulate(a.rows, b.rows, f, r, c);
    grid::lemma_cell(a.rows, b.rows, r, c);
    lemma_floor(p.at(r, c), d);
}

proof fn lemma_biased(a: Grid, bias: Seq<int>, r: int, c: int)
    requires
        a.wf(),
        0 <= r < a.rows,
        0 <= c < a.cols,
    ensures
        grid::add_row(a, bias).at(r, c) == a.at(r, c) + bias[c],
{
    grid::lemma_cell(a.rows, a.cols, r, c);
}

/// The largest score that a position may attend to is one of them, and none is larger.
proof fn lemma_prefix_max(s: Grid, i: int, n: nat)
    requires
        n > 0,
    ensures
        forall|k: int| 0 <= k < n ==> #[trigger] s.at(i, k) <= model::prefix_max(s, i, n),
        exists|k: int| 0 <= k < n && #[trigger] s.at(i, k) == model::prefix_max(s, i, n),
    decreases n,
{
    if n == 1 {
        assert(s.at(i, 0) == model::prefix_max(s, i, n));
    } else {
        let m = (n - 1) as nat;
        lemma_prefix_max(s, i, m);
        let k = choose|k: int| 0 <= k < m && #[trigger] s.at(i, k) == model::prefix_max(s, i, m);
        assert(s.at(i, k) <= model::prefix_max(s, i, n));
        assert(s.at(i, n - 1) <= model::prefix_max(s, i, n));
    }
}

/// The causal softmax. In every row the maximum is the largest of the scores up to the
/// position itself. The table value of each of them is the table's entry at that score
/// less the maximum, plus the offset, so scores that differ read entries that lie their
/// difference apart, and the maximum reads the entry at the offset. Later positions get
/// nothing. The sum is that of the row's table values, and each share is the scaled table
/// value over the sum, rounded down.
pub proof fn law_softmax(
    s: Grid,
    lut: Seq<int>,
    offset: int,
    scale: int,
    n: nat,
    i: int,
    j: int,
)
    requires
        0 <= i < n,
        0 <= j < n,
    ensures
        ({
            let v = model::softmax_of(s, lut, offset, scale, n);
            let top = v.x_max.at(i, 0);
            &&& forall|k: int| 0 <= k <= i ==> #[trigger] s.at(i, k) <= top
            &&& exists|k: int| 0 <= k <= i && #[trigger] s.at(i, k) == top
            &&& j <= i ==> v.exp.at(i, j) == lut[s.at(i, j) - top + offset]
            &&& j > i ==> v.exp.at(i, j) == 0 && v.prob.at(i, j) == 0
            &&& v.sum_exp.at(i, 0) == grid::isum((i + 1) as nat, |k: int| v.exp.at(i, k))
            &&& j <= i && v.sum_exp.at(i, 0) > 0 ==> is_floor(
                v.prob.at(i, j),
                v.exp.at(i, j) * scale,
                v.sum_exp.at(i, 0),
            )
        }),
{
    let v = model::softmax_of(s, lut, offset, scale, n);
    let m = |i: int, j: int| model::causal_max(s, i);
    let e = |i: int, j: int| model::exp_at(s, lut, offset, i, j);
    let t = |i: int, j: int| model::exp_sum(s, lut, offset, i, (i + 1) as nat);
    let p = |i: int, j: int| model::share_at(s, lut, offset, scale, i, j);
    grid::lemma_tabulate(n, 1, m, i, 0);
    grid::lemma_tabulate(n, n, e, i, j);
    grid::lemma_tabulate(n, 1, t, i, 0);
    grid::lemma_tabulate(n, n, p, i, j);
    lemma_prefix_max(s, i, (i + 1) as nat);
    assert(v.x_max.at(i, 0) == model::prefix_max(s, i, (i + 1) as nat));
    let f = |k: int| model::exp_at(s, lut, offset, i, k);
    let g = |k: int| v.exp.at(i, k);
    assert forall|k: int| 0 <= k < i + 1 implies #[trigger] f(k) == g(k) by {
        grid::lemma_tabulate(n, n, e, i, k);
    }
    grid::lemma_isum_ext((i + 1) as nat, f, g);
    if j <= i && v.sum_exp.at(i, 0) > 0 {
        lemma_floor(v.exp.at(i, j) * scale, v.sum_exp.at(i, 0));
    }
}

/// Softmax is causal within a row and treats equal scores alike: two score matrices that
/// differ by a constant in row `i` up to position `i` have the same table values there.
pub proof fn law_softmax_shift(
    s: Grid,
    t: Grid,
    k: int,
    lut: Seq<int>,
    offset: int,
    scale: int,
    n: nat,
    i: int,
    j: int,
)
    requires
        0 <= j <= i < n,
        forall|c: int| 0 <= c <= i ==> #[trigger] t.at(i, c) == s.at(i, c) + k,
    ensures
        model::softmax_of(t, lut, offset, scale, n).exp.at(i, j) == model::softmax_of(
            s,
            lut,
            offset,
            scale,
            n,
        ).exp.at(i, j),
{
    law_softmax(s, lut, offset, scale, n, i, j);
    law_softmax(t, lut, offset, scale, n, i, j);
    let (a, b) = (
        model::softmax_of(s, lut, offset, scale, n).x_max.at(i, 0),
        model::softmax_of(t, lut, offset, scale, n).x_max.at(i, 0),
    );
    let x = choose|c: int| 0 <= c <= i && #[trigger] s.at(i, c) == a;
    let y = choose|c: int| 0 <= c <= i && #[trigger] t.at(i, c) == b;
    assert(t.at(i, x) == s.at(i, x) + k);
    assert(t.at(i, y) == s.at(i, y) + k);
    assert(s.at(i, y) <= a);
    assert(t.at(i, x) <= b);
    assert(t.at(i, j) == s.at(i, j) + k);
}

/// What a layer normalization of `x` states of row `r` and its entry in column `c`.
pub open spec fn norm_right(
    x: Grid,
    gain: Seq<int>,
    bias: Seq<int>,
    v: LayerNormView,
    r: int,
    c: int,
) -> bool {
    &&& v.input == x
    &&& v.sum_x[r] == grid::isum(x.cols, |k: int| x.at(r, k))
    &&& v.sum_x2[r] == grid::isum(x.cols, |k: int| x.at(r, k) * x.at(r, k))
    &&& v.var_sum[r] == v.sum_x2[r] * x.cols - v.sum_x[r] * v.sum_x[r]
    &&& v.var_sum[r] >= 0
    &&& v.std[r] >= 1
    &&& v.std[r] * v.std[r] - v.std[r] < v.var_sum[r] + 1 <= v.std[r] * v.std[r]
        + v.std[r]
    &&& v.dividend.at(r, c) == gain[c] * (x.cols * x.at(r, c) - v.sum_x[r])
    &&& is_floor(v.quotient.at(r, c), v.dividend.at(r, c), v.std[r])
    &&& v.output.at(r, c) == v.quotient.at(r, c) + bias[c]
}

/// Layer normalization, entry by entry: the sums of a row and of its squares; the variance
/// `n sum x^2 - (sum x)^2`; the deviation, the rounded root of the variance plus one; the
/// dividend `gain (n x - sum x)`; its quotient by the deviation, rounded down; and the
/// output, the quotient plus the bias.
pub proof fn law_layer_norm(x: Grid, gain: Seq<int>, bias: Seq<int>, r: int, c: int)
    requires
        0 <= r < x.rows,
        0 <= c < x.cols,
    ensures
        norm_right(x, gain, bias, model::layer_norm_of(x, gain, bias), r, c),
        ({
            let v = model::layer_norm_of(x, gain, bias);
            &&& v.sum_x.len() == x.rows && v.sum_x2.len() == x.rows
            &&& v.var_sum.len() == x.rows && v.std.len() == x.rows
        }),
{
    let d = |r: int, c: int| model::centred(x, gain, r, c);
    let q = |r: int, c: int| model::centred(x, gain, r, c) / model::deviation(x, r);
    let o = |r: int, c: int| model::centred(x, gain, r, c) / model::deviation(x, r) + bias[c];
    grid::lemma_tabulate(x.rows, x.cols, d, r, c);
    grid::lemma_tabulate(x.rows, x.cols, q, r, c);
    grid::lemma_tabulate(x.rows, x.cols, o, r, c);
    model::law_deviation_positive(x, r);
    lemma_floor(model::centred(x, gain, r, c), model::deviation(x, r));
}

proof fn lemma_isum_shift(n: nat, f: spec_fn(int) -> int, k: int)
    ensures
        grid::isum(n, |c: int| f(c) + k) == grid::isum(n, f) + n * k,
        grid::isum(n, |c: int| (f(c) + k) * (f(c) + k)) == grid::isum(n, |c: int| f(c) * f(c)) + 2
            * k * grid::isum(n, f) + n * (k * k),
    decreases n,
{
    let g = |c: int| f(c) + k;
    let h = |c: int| (f(c) + k) * (f(c) + k);
    let s = |c: int| f(c) * f(c);
    if n == 0 {
        assert(2 * k * 0 == 0) by (nonlinear_arith);
        assert(0 * k == 0 && 0 * (k * k) == 0) by (nonlinear_arith);
    } else {
        let m = (n - 1) as nat;
        lemma_isum_shift(m, f, k);
        let (a, b) = (f(n - 1), grid::isum(m, f));
        assert((a + k) * (a + k) == a * a + 2 * k * a + k * k) by (nonlinear_arith);
        assert(2 * k * (b + a) == 2 * k * b + 2 * k * a) by (nonlinear_arith);
        assert(n * k == m * k + k) by (nonlinear_arith)
            requires
                n == m + 1,
        ;
        assert(n * (k * k) == m * (k * k) + k * k) by (nonlinear_arith)
            requires
                n == m + 1,
        ;
    }
}

/// Layer normalization does not see a constant that is added to a row.
pub proof fn law_norm_shift(
    x: Grid,
    y: Grid,
    k: int,
    gain: Seq<int>,
    bias: Seq<int>,
    r: int,
    c: int,
)
    requires
        y.rows == x.rows,
        y.cols == x.cols,
        0 <= r < x.rows,
        0 <= c < x.cols,
        forall|j: int| 0 <= j < x.cols ==> #[trigger] y.at(r, j) == x.at(r, j) + k,
    ensures
        model::layer_norm_of(y, gain, bias).output.at(r, c) == model::layer_norm_of(
            x,
            gain,
            bias,
        ).output.at(r, c),
{
    let n = x.cols;
    let f = |j: int| x.at(r, j);
    lemma_isum_shift(n, f, k);
    grid::lemma_isum_ext(n, |j: int| y.at(r, j), |j: int| f(j) + k);
    let sq = |j: int| y.at(r, j) * y.at(r, j);
    let want = |j: int| (f(j) + k) * (f(j) + k);
    assert forall|j: int| 0 <= j < n implies #[trigger] sq(j) == want(j) by {
        assert(y.at(r, j) == x.at(r, j) + k);
    }
    grid::lemma_isum_ext(n, sq, want);
    grid::lemma_isum_ext(n, |j: int| f(j) * f(j), |j: int| x.at(r, j) * x.at(r, j));
    let (s, t) = (model::row_sum(x, r, n), model::square_sum(x, r, n));
    assert(model::row_sum(y, r, n) == s + n * k);
    assert(model::square_sum(y, r, n) == t + 2 * k * s + n * (k * k));
    assert((t + 2 * k * s + n * (k * k)) * n - (s + n * k) * (s + n * k) == t * n - s * s)
        by (nonlinear_arith);
    assert(model::variance(y, r) == model::variance(x, r));
    let v = x.at(r, c);
    assert(n * (v + k) - (s + n * k) == n * v - s) by (nonlinear_arith);
    assert(y.at(r, c) == v + k);
    assert(model::centred(y, gain, r, c) == model::centred(x, gain, r, c));
    let o = |r: int, c: int| model::centred(x, gain, r, c) / model::deviation(x, r) + bias[c];
    let p = |r: int, c: int| model::centred(y, gain, r, c) / model::deviation(y, r) + bias[c];
    grid::lemma_tabulate(x.rows, x.cols, o, r, c);
    grid::lemma_tabulate(x.rows, x.cols, p, r, c);
}

/// What a block reads has the shapes of the configuration.
pub open spec fn inputs_shaped(
    residual: Grid,
    nx: Grid,
    b: BlockWeights,
    config: Config,
) -> bool {
    &&& model::config_fits(config)
    &&& b.wf(config)
    &&& residual.wf() && residual.rows == config.n_seq && residual.cols == config.d_model
    &&& nx.wf() && nx.rows == config.n_seq && nx.cols == config.d_model
}

/// What an attention layer states of an entry of its projected inputs.
pub open spec fn inputs_right(
    nx: Grid,
    b: BlockWeights,
    config: Config,
    v: AttentionView,
    i: int,
    c: int,
) -> bool {
    &&& is_floor(
        v.q_qkv.at(i, c),
        grid::isum(
            config.d_model as nat,
            |k: int| nx.at(i, k) * b.attn_w.grid().at(k, c),
        ),
        config.scale as int,
    )
    &&& v.qkv.at(i, c) == v.q_qkv.at(i, c) + b.attn_b@[c]
}

/// The projection of the attention layer: every entry is the product of the normalized
/// input with the weights over the scale, rounded down, plus the bias of its column.
pub proof fn law_attention_inputs(
    residual: Grid,
    nx: Grid,
    b: BlockWeights,
    w: ModelWeights,
    config: Config,
    i: int,
    c: int,
)
    requires
        inputs_shaped(residual, nx, b, config),
        0 <= i < config.n_seq,
        0 <= c < 3 * config.d_model,
    ensures
        inputs_right(nx, b, config, model::attention_of(residual, nx, b, w, config), i, c),
{
    lemma_quotient(nx, b.attn_w.grid(), config.scale as int, i, c);
    lemma_biased(
        model::projected_inputs(nx, b, config),
        grid::ints(b.attn_b@),
        i,
        c,
    );
}

/// Where part `p`, feature `d` of head `h` stands in the projected inputs.
pub open spec fn head_column(config: Config, p: int, h: int, d: int) -> int {
    p * config.d_model + h * config.d_head + d
}

/// What an attention layer states of a score.
pub open spec fn scores_right(config: Config, v: AttentionView, h: int, i: int, j: int) -> bool {
    is_floor(
        face_at(v.scores[h], i, j),
        grid::isum(
            config.d_head as nat,
            |d: int|
                v.qkv.at(i, head_column(config, 0, h, d)) * v.qkv.at(
                    j,
                    head_column(config, 1, h, d),
                ),
        ),
        config.scale * tensor::rounded_sqrt(config.d_head as int),
    )
}

/// The scores of a head: the products of its queries with its keys over the scaled root
/// of the head dimension, rounded down.
pub proof fn law_attention_scores(
    residual: Grid,
    nx: Grid,
    b: BlockWeights,
    w: ModelWeights,
    config: Config,
    h: int,
    i: int,
    j: int,
)
    requires
        inputs_shaped(residual, nx, b, config),
        0 <= h < config.n_head,
        0 <= i < config.n_seq,
        0 <= j < config.n_seq,
    ensures
        scores_right(config, model::attention_of(residual, nx, b, w, config), h, i, j),
{
    let v = model::attention_of(residual, nx, b, w, config);
    let (n, dh) = (config.n_seq as nat, config.d_head as nat);
    let (q, k) = (
        model::head_grid(v.qkv, config, 0, h),
        model::head_grid(v.qkv, config, config.d_model as int, h),
    );
    lemma_quotient_transposed(q, k, config.score_divisor(), i, j);
    let f = |d: int| q.at(i, d) * k.at(j, d);
    let g = |d: int|
        v.qkv.at(i, head_column(config, 0, h, d)) * v.qkv.at(j, head_column(config, 1, h, d));
    assert forall|d: int| 0 <= d < dh implies #[trigger] f(d) == g(d) by {
        grid::lemma_tabulate(
            n,
            dh,
            |s: int, d: int| v.qkv.at(s, 0 + h * config.d_head + d),
            i,
            d,
        );
        grid::lemma_tabulate(
            n,
            dh,
            |s: int, d: int| v.qkv.at(s, config.d_model as int + h * config.d_head + d),
            j,
            d,
        );
        assert(0 * config.d_model == 0) by (nonlinear_arith);
        assert(1 * config.d_model == config.d_model) by (nonlinear_arith);
    }
    grid::lemma_isum_ext(dh, f, g);
}

/// What an attention layer states of a head and of its outputs.
pub open spec fn heads_right(
    w: ModelWeights,
    config: Config,
    v: AttentionView,
    h: int,
    i: int,
    d: int,
) -> bool {
    let n = config.n_seq as nat;
    let s = model::softmax_of(
        Grid { rows: n, cols: n, data: v.scores[h].data },
        grid::ints(w.exp_lut@),
        config.max_v * config.scale,
        config.scale as int,
        n,
    );
    &&& v.x_max[h] == s.x_max
    &&& v.exp[h].data == s.exp.data
    &&& v.sum_exp[h] == s.sum_exp
    &&& v.q_prob[h].data == s.prob.data
    &&& is_floor(
        face_at(v.q_ao_heads[h], i, d),
        grid::isum(
            n,
            |j: int|
                face_at(v.q_prob[h], i, j) * v.qkv.at(j, head_column(config, 2, h, d)),
        ),
        config.scale as int,
    )
    &&& v.q_ao.at(i, h * config.d_head + d) == face_at(v.q_ao_heads[h], i, d)
}

/// The attention of a head: its maxima, table values, sums and shares are the softmax of
/// its own scores, and its output is the product of the shares with its values over the
/// scale, rounded down.
pub proof fn law_attention_heads(
    residual: Grid,
    nx: Grid,
    b: BlockWeights,
    w: ModelWeights,
    config: Config,
    h: int,
    i: int,
    d: int,
)
    requires
        inputs_shaped(residual, nx, b, config),
        0 <= h < config.n_head,
        0 <= i < config.n_seq,
        0 <= d < config.d_head,
    ensures
        heads_right(w, config, model::attention_of(residual, nx, b, w, config), h, i, d),
{
    let v = model::attention_of(residual, nx, b, w, config);
    let (n, dh) = (config.n_seq as nat, config.d_head as nat);
    let scores = model::score_of(v.qkv, config, h);
    assert(scores =~= Grid { rows: n, cols: n, data: v.scores[h].data });
    let prob = model::head_softmax(v.qkv, w, config, h).prob;
    let vals = model::head_grid(v.qkv, config, 2 * config.d_model, h);
    lemma_quotient(prob, vals, config.scale as int, i, d);
    let f = |j: int| prob.at(i, j) * vals.at(j, d);
    let g = |j: int| face_at(v.q_prob[h], i, j) * v.qkv.at(j, head_column(config, 2, h, d));
    assert forall|j: int| 0 <= j < n implies #[trigger] f(j) == g(j) by {
        grid::lemma_tabulate(
            n,
            dh,
            |s: int, d: int| v.qkv.at(s, 2 * config.d_model + h * config.d_head + d),
            j,
            d,
        );
    }
    grid::lemma_isum_ext(n, f, g);
    let c = h * config.d_head + d;
    grid::lemma_cell(config.n_head as nat, dh, h, d);
    assert(c < config.d_model);
    grid::lemma_tabulate(
        n,
        config.d_model as nat,
        |i: int, c: int| model::merged_at(v.qkv, w, config, i, c),
        i,
        c,
    );
}

/// What an attention layer states of an entry of its output.
pub open spec fn output_right(
    residual: Grid,
    b: BlockWeights,
    config: Config,
    v: AttentionView,
    i: int,
    c: int,
) -> bool {
    &&& is_floor(
        v.q_apr.at(i, c),
        grid::isum(
            config.d_model as nat,
            |k: int| v.q_ao.at(i, k) * b.attn_proj_w.grid().at(k, c),
        ),
        config.scale as int,
    )
    &&& v.x_out.at(i, c) == residual.at(i, c) + v.q_apr.at(i, c) + b.attn_proj_b@[c]
}

/// The output of the attention layer: the heads' outputs projected over the scale, rounded
/// down, and added with the bias to what came in.
pub proof fn law_attention_output(
    residual: Grid,
    nx: Grid,
    b: BlockWeights,
    w: ModelWeights,
    config: Config,
    i: int,
    c: int,
)
    requires
        inputs_shaped(residual, nx, b, config),
        0 <= i < config.n_seq,
        0 <= c < config.d_model,
    ensures
        output_right(residual, b, config, model::attention_of(residual, nx, b, w, config), i, c),
{
    let v = model::attention_of(residual, nx, b, w, config);
    lemma_quotient(v.q_ao, b.attn_proj_w.grid(), config.scale as int, i, c);
    lemma_biased(v.q_apr, grid::ints(b.attn_proj_b@), i, c);
    grid::lemma_cell(config.n_seq as nat, config.d_model as nat, i, c);
}

/// What a feed-forward layer states of a hidden value, of its activation and of an entry of
/// its output.
pub open spec fn mlp_right(
    residual: Grid,
    nx: Grid,
    b: BlockWeights,
    w: ModelWeights,
    config: Config,
    v: MlpView,
    i: int,
    k: int,
    c: int,
) -> bool {
    &&& is_floor(
        v.q_fc.at(i, k),
        grid::isum(
            config.d_model as nat,
            |j: int| nx.at(i, j) * b.fc_w.grid().at(j, k),
        ),
        config.scale as int,
    )
    &&& v.fc.at(i, k) == v.q_fc.at(i, k) + b.fc_b@[k]
    &&& v.act.at(i, k) == w.gelu_lut@[v.fc.at(i, k) + config.max_v * config.scale]
    &&& is_floor(
        v.q_fpr.at(i, c),
        grid::isum(
            config.mlp_hidden as nat,
            |j: int| v.act.at(i, j) * b.fproj_w.grid().at(j, c),
        ),
        config.scale as int,
    )
    &&& v.x_out.at(i, c) == residual.at(i, c) + v.q_fpr.at(i, c) + b.fproj_b@[c]
}

/// The feed-forward layer: the hidden values are the product of the normalized input with
/// the weights over the scale, rounded down, plus the bias; each activation is the table's
/// entry at its own hidden value plus the offset; and the output is the projected
/// activations over the scale, rounded down, added with the bias to what came in.
pub proof fn law_mlp(
    residual: Grid,
    nx: Grid,
    b: BlockWeights,
    w: ModelWeights,
    config: Config,
    i: int,
    k: int,
    c: int,
)
    requires
        inputs_shaped(residual, nx, b, config),
        0 <= i < config.n_seq,
        0 <= k < config.mlp_hidden,
        0 <= c < config.d_model,
        0 <= model::mlp_of(residual, nx, b, w, config).fc.at(i, k) + config.max_v * config.scale
            < w.gelu_lut@.len(),
    ensures
        mlp_right(residual, nx, b, w, config, model::mlp_of(residual, nx, b, w, config), i, k, c),
{
    let v = model::mlp_of(residual, nx, b, w, config);
    lemma_quotient(nx, b.fc_w.grid(), config.scale as int, i, k);
    lemma_biased(v.q_fc, grid::ints(b.fc_b@), i, k);
    grid::lemma_tabulate(
        config.n_seq as nat,
        config.mlp_hidden as nat,
        |r: int, c: int| grid::ints(w.gelu_lut@)[v.fc.at(r, c) + config.table_offset()],
        i,
        k,
    );
    lemma_quotient(v.act, b.fproj_w.grid(), config.scale as int, i, c);
    lemma_biased(v.q_fpr, grid::ints(b.fproj_b@), i, c);
    grid::lemma_cell(config.n_seq as nat, config.d_model as nat, i, c);
}

/// How the steps of a forward pass follow each other: a block normalizes what comes in,
/// attends over it and adds it back, normalizes that and feeds it forward; what it leaves
/// comes into the next block, and what the last leaves, into the final normalization.
pub proof fn law_forward_order(x0: Grid, w: ModelWeights, config: Config, k: int)
    requires
        0 <= k < w.blocks@.len(),
    ensures
        ({
            let v = model::forward_of(x0, w, config);
            let (u, b) = (v.blocks[k], w.blocks@[k]);
            let came = if k == 0 {
                x0
            } else {
                v.blocks[k - 1].mlp.x_out
            };
            &&& v.x0 == x0
            &&& v.blocks.len() == w.blocks@.len()
            &&& u.ln1 == model::layer_norm_of(came, grid::ints(b.ln_1_g@), grid::ints(b.ln_1_b@))
            &&& u.attention == model::attention_of(came, u.ln1.output, b, w, config)
            &&& u.ln2 == model::layer_norm_of(
                u.attention.x_out,
                grid::ints(b.ln_2_g@),
                grid::ints(b.ln_2_b@),
            )
            &&& u.mlp == model::mlp_of(u.attention.x_out, u.ln2.output, b, w, config)
        }),
{
    let v = model::forward_of(x0, w, config);
    if k > 0 {
        assert(v.blocks[k - 1].mlp.x_out == model::stream(x0, w, config, k as nat));
    }
}

/// The logits: the final normalization of what the last block leaves, against the token
/// embeddings, over the scale and rounded down.
pub proof fn law_logits(x0: Grid, w: ModelWeights, config: Config, i: int, t: int)
    requires
        config.scale > 0,
        w.wte.grid().rows == config.vocab,
        x0.rows == config.n_seq,
        x0.cols == config.d_model,
        0 <= i < config.n_seq,
        0 <= t < config.vocab,
    ensures
        ({
            let v = model::forward_of(x0, w, config);
            let n = w.blocks@.len();
            let last = if n == 0 {
                x0
            } else {
                v.blocks[n - 1].mlp.x_out
            };
            &&& v.lnf == model::layer_norm_of(last, grid::ints(w.ln_f_g@), grid::ints(w.ln_f_b@))
            &&& is_floor(
                v.q_log.at(i, t),
                grid::isum(
                    config.d_model as nat,
                    |d: int| v.lnf.output.at(i, d) * w.wte.grid().at(t, d),
                ),
                config.scale as int,
            )
        }),
{
    let v = model::forward_of(x0, w, config);
    let n = w.blocks@.len();
    if n > 0 {
        assert(v.blocks[n - 1].mlp.x_out == model::stream(x0, w, config, n));
    }
    lemma_stream_shape(x0, w, config, n);
    lemma_quotient_transposed(v.lnf.output, w.wte.grid(), config.scale as int, i, t);
}

proof fn lemma_stream_shape(x0: Grid, w: ModelWeights, config: Config, n: nat)
    ensures
        model::stream(x0, w, config, n).rows == x0.rows,
        model::stream(x0, w, config, n).cols == x0.cols,
    decreases n,
{
    if n > 0 {
        lemma_stream_shape(x0, w, config, (n - 1) as nat);
    }
}

/// The embedded input: at every position, the embedding of its own token plus that of the
/// position.
pub proof fn law_embedding(w: ModelWeights, ids: Seq<i64>, pos: int, d: int)
    ensures
        model::embedding(w, ids, pos, d) == w.wte.grid().at(ids[pos] as int, d)
            + w.wpe.grid().at(pos, d),
{
}

/// A checked layer normalization states the values of its input.
pub proof fn law_norm_checked(
    x: Grid,
    gain: Seq<int>,
    bias: Seq<int>,
    v: LayerNormView,
    r: int,
    c: int,
)
    requires
        piop::ln_matches(x, gain, bias, v),
        0 <= r < x.rows,
        0 <= c < x.cols,
    ensures
        norm_right(x, gain, bias, v, r, c),
{
    assert(piop::ln_row_matches(x, v, r));
    assert(piop::ln_entry_matches(x, gain, bias, v, r, c));
    model::law_deviation_positive(x, r);
    lemma_floor(model::centred(x, gain, r, c), model::deviation(x, r));
}

/// A checked attention layer states, of every score, head and output, what follows from
/// the inputs that it states, and these are the projection of the stated normalization.
pub proof fn law_attention_checked(
    config: Config,
    w: ModelWeights,
    residual: Grid,
    nx: Grid,
    b: BlockWeights,
    attn: AttentionWitness,
    h: int,
    i: int,
    j: int,
    d: int,
    c: int,
)
    requires
        inputs_shaped(residual, nx, b, config),
        piop::attention_matches(config, w, residual, nx, b, attn),
        0 <= h < config.n_head,
        0 <= i < config.n_seq,
        0 <= j < config.n_seq,
        0 <= d < config.d_head,
        0 <= c < config.d_model,
    ensures
        forall|k: int|
            0 <= k < 3 * config.d_model ==> #[trigger] inputs_right(
                nx,
                b,
                config,
                attn.contents(),
                i,
                k,
            ),
        scores_right(config, attn.contents(), h, i, j),
        heads_right(w, config, attn.contents(), h, i, d),
        output_right(residual, b, config, attn.contents(), i, c),
{
    let own = piop::first_norm(residual, b).output;
    let v = attn.contents();
    assert(own.wf() && own.rows == config.n_seq && own.cols == config.d_model);
    assert forall|k: int| 0 <= k < 3 * config.d_model implies #[trigger] inputs_right(
        nx,
        b,
        config,
        v,
        i,
        k,
    ) by {
        assert(v.q_qkv == attn.q_qkv.grid());
        assert(v.qkv == attn.qkv.grid());
        law_attention_inputs(residual, nx, b, w, config, i, k);
    }
    law_attention_scores(residual, own, b, w, config, h, i, j);
    law_attention_heads(residual, own, b, w, config, h, i, d);
    law_attention_output(residual, own, b, w, config, i, c);
}

/// A checked feed-forward layer states what follows from the stated normalization, and
/// reads every activation inside the table.
pub proof fn law_mlp_checked(
    config: Config,
    w: ModelWeights,
    residual: Grid,
    nx: Grid,
    b: BlockWeights,
    v: MlpView,
    i: int,
    k: int,
    c: int,
)
    requires
        inputs_shaped(residual, nx, b, config),
        piop::mlp_matches(config, w, residual, nx, b, v),
        0 <= i < config.n_seq,
        0 <= k < config.mlp_hidden,
        0 <= c < config.d_model,
    ensures
        0 <= v.fc.at(i, k) + config.max_v * config.scale < w.gelu_lut@.len(),
        mlp_right(residual, nx, b, w, config, v, i, k, c),
{
    let fc = model::hidden_values(nx, b, config);
    assert(0 <= fc.at(i, k) + config.table_offset() < w.gelu_lut@.len());
    law_mlp(residual, nx, b, w, config, i, k, c);
}

/// A checked witness feeds every step with what the step before it states: the first block
/// reads the input, every other the output of the block before it, the feed-forward layer
/// the output of the attention layer, and the final normalization that of the last block;
/// and its logits are the product of the final normalization with the token embeddings
/// over the scale, rounded down.
pub proof fn law_witness_checked(
    config: Config,
    weights: ModelWeights,
    w: Witness,
    k: int,
    i: int,
    t: int,
)
    requires
        piop::witness_matches(config, weights, w),
        config.scale > 0,
        weights.wte.grid().rows == config.vocab,
        w.lnf.output.grid().rows == config.n_seq,
        w.lnf.output.grid().cols == config.d_model,
        0 <= k < w.blocks@.len(),
        0 <= i < config.n_seq,
        0 <= t < config.vocab,
    ensures
        ({
            let (b, bw) = (w.blocks@[k], weights.blocks@[k]);
            let x = if k == 0 {
                w.x0.grid()
            } else {
                w.blocks@[k - 1].mlp.x_out.grid()
            };
            let y = b.attention.x_out.grid();
            let end = w.blocks@[w.blocks@.len() - 1].mlp.x_out.grid();
            &&& piop::ln_matches(x, grid::ints(bw.ln_1_g@), grid::ints(bw.ln_1_b@), b.ln1.contents())
            &&& piop::attention_matches(config, weights, x, b.ln1.output.grid(), bw, b.attention)
            &&& piop::ln_matches(y, grid::ints(bw.ln_2_g@), grid::ints(bw.ln_2_b@), b.ln2.contents())
            &&& piop::mlp_matches(config, weights, y, b.ln2.output.grid(), bw, b.mlp.contents())
            &&& piop::ln_matches(
                end,
                grid::ints(weights.ln_f_g@),
                grid::ints(weights.ln_f_b@),
                w.lnf.contents(),
            )
        }),
        is_floor(
            w.q_log.grid().at(i, t),
            grid::isum(
                config.d_model as nat,
                |d: int| w.lnf.output.grid().at(i, d) * weights.wte.grid().at(t, d),
            ),
            config.scale as int,
        ),
{
    assert(piop::block_matches(config, weights, w, k));
    lemma_quotient_transposed(
        w.lnf.output.grid(),
        weights.wte.grid(),
        config.scale as int,
        i,
        t,
    );
}

/// An accepted transparent proof is one of the model's own run on the public input, and
/// the public logits are those of that run; so two accepted proofs for one input are for
/// the same logits.
pub proof fn law_accepted_run(
    config: Config,
    weights: ModelWeights,
    public: PublicInput,
    other: PublicInput,
    proof: InferencePiopProof,
    second: InferencePiopProof,
)
    requires
        piop::accepted(config, weights, public, proof),
        piop::accepted(config, weights, other, second),
        public.x0.grid() == other.x0.grid(),
    ensures
        public.logits.grid() == model::forward_of(public.x0.grid(), weights, config).q_log,
        public.logits.grid() == other.logits.grid(),
        proof.witness.contents() == second.witness.contents(),
{
    assert(proof.witness.contents().q_log == proof.witness.q_log.grid());
    assert(second.witness.contents().q_log == second.witness.q_log.grid());
}

} // verus!
