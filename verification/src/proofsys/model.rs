//! The integer model: its weights and its exact forward pass, which generates the
//! witness.
use vstd::prelude::*;
use crate::proofsys::grid;
use crate::proofsys::grid::Grid;
use crate::proofsys::tensor;
use crate::proofsys::tensor::{Matrix, Tensor3};
use crate::proofsys::witness::{
    AttentionView, AttentionWitness, BlockView, BlockWitness, Config, LayerNormView,
    LayerNormWitness, MlpView, MlpWitness, Witness, WitnessView,
};

verus! {

/// Inputs and reference outputs that come with exported weights.
#[derive(Clone, Debug, PartialEq, Eq)]
pub struct ExportedPublicData {
    pub input_ids: Vec<i64>,
    pub x0: Matrix,
    pub logits_int: Matrix,
    pub final_x: Matrix,
}

/// The weights of one block.
#[derive(Clone, Debug, PartialEq, Eq)]
pub struct BlockWeights {
    pub ln_1_g: Vec<i64>,
    pub ln_1_b: Vec<i64>,
    pub attn_w: Matrix,
    pub attn_b: Vec<i64>,
    pub attn_proj_w: Matrix,
    pub attn_proj_b: Vec<i64>,
    pub ln_2_g: Vec<i64>,
    pub ln_2_b: Vec<i64>,
    pub fc_w: Matrix,
    pub fc_b: Vec<i64>,
    pub fproj_w: Matrix,
    pub fproj_b: Vec<i64>,
}

/// The weights of the model and the tables of its nonlinear functions.
#[derive(Clone, Debug, PartialEq, Eq)]
pub struct ModelWeights {
    pub wte: Matrix,
    pub wpe: Matrix,
    pub has_wpe: bool,
    pub ln_f_g: Vec<i64>,
    pub ln_f_b: Vec<i64>,
    pub blocks: Vec<BlockWeights>,
    pub exp_lut: Vec<i64>,
    pub gelu_lut: Vec<i64>,
}

/// A matrix has the given shape.
pub open spec fn has_shape(m: Matrix, rows: nat, cols: nat) -> bool {
    m.wf() && m.height() == rows && m.width() == cols
}

impl BlockWeights {
    /// The weights have the shapes of the configuration.
    pub open spec fn wf(self, config: Config) -> bool {
        let d = config.d_model as nat;
        let h = config.mlp_hidden as nat;
        &&& self.ln_1_g@.len() == d
        &&& self.ln_1_b@.len() == d
        &&& has_shape(self.attn_w, d, 3 * d)
        &&& self.attn_b@.len() == 3 * d
        &&& has_shape(self.attn_proj_w, d, d)
        &&& self.attn_proj_b@.len() == d
        &&& self.ln_2_g@.len() == d
        &&& self.ln_2_b@.len() == d
        &&& has_shape(self.fc_w, d, h)
        &&& self.fc_b@.len() == h
        &&& has_shape(self.fproj_w, h, d)
        &&& self.fproj_b@.len() == d
    }
}

/// The tensors of a configuration can be addressed, and its scales are positive.
pub open spec fn config_fits(config: Config) -> bool {
    &&& config.scale > 0
    &&& grid::in_i64(config.score_divisor())
    &&& config.score_divisor() > 0
    &&& grid::in_i64(config.table_offset())
    &&& config.n_head * config.d_head <= config.d_model
    &&& config.n_head * config.n_seq <= usize::MAX
    &&& config.n_head * config.n_seq * config.d_head <= usize::MAX
    &&& config.n_seq * config.n_seq <= usize::MAX
    &&& config.n_seq * config.d_head <= usize::MAX
    &&& 3 * config.d_model <= usize::MAX
    &&& config.n_seq * (3 * config.d_model) <= usize::MAX
    &&& config.n_seq * config.d_model <= usize::MAX
    &&& config.n_seq * config.mlp_hidden <= usize::MAX
    &&& config.n_seq * config.vocab <= usize::MAX
}

impl ModelWeights {
    /// The weights have the shapes of the configuration.
    pub open spec fn wf(self, config: Config) -> bool {
        let d = config.d_model as nat;
        &&& has_shape(self.wte, config.vocab as nat, d)
        &&& self.wpe.wf()
        &&& self.wpe.width() == d
        &&& self.ln_f_g@.len() == d
        &&& self.ln_f_b@.len() == d
        &&& forall|i: int| 0 <= i < self.blocks@.len() ==> (#[trigger] self.blocks@[i]).wf(config)
    }
}

// layer normalization

/// The sum of the first `n` entries of a row.
pub open spec fn row_sum(x: Grid, r: int, n: nat) -> int {
    grid::isum(n, |c: int| x.at(r, c))
}

/// The sum of the squares of the first `n` entries of a row.
pub open spec fn square_sum(x: Grid, r: int, n: nat) -> int {
    grid::isum(n, |c: int| x.at(r, c) * x.at(r, c))
}

/// The variance of a row, times the square of its length.
pub open spec fn variance(x: Grid, r: int) -> int {
    square_sum(x, r, x.cols) * x.cols - row_sum(x, r, x.cols) * row_sum(x, r, x.cols)
}

/// The rounded deviation of a row.
pub open spec fn deviation(x: Grid, r: int) -> int {
    tensor::rounded_sqrt(variance(x, r) + 1)
}

/// The centred and scaled entry.
pub open spec fn centred(x: Grid, gain: Seq<int>, r: int, c: int) -> int {
    gain[c] * (x.cols * x.at(r, c) - row_sum(x, r, x.cols))
}

/// Layer normalization.
pub open spec fn layer_norm_of(x: Grid, gain: Seq<int>, bias: Seq<int>) -> LayerNormView {
    LayerNormView {
        input: x,
        sum_x: Seq::new(x.rows, |r: int| row_sum(x, r, x.cols)),
        sum_x2: Seq::new(x.rows, |r: int| square_sum(x, r, x.cols)),
        var_sum: Seq::new(x.rows, |r: int| variance(x, r)),
        std: Seq::new(x.rows, |r: int| deviation(x, r)),
        dividend: grid::tabulate(x.rows, x.cols, |r: int, c: int| centred(x, gain, r, c)),
        quotient: grid::tabulate(
            x.rows,
            x.cols,
            |r: int, c: int| centred(x, gain, r, c) / deviation(x, r),
        ),
        output: grid::tabulate(
            x.rows,
            x.cols,
            |r: int, c: int| centred(x, gain, r, c) / deviation(x, r) + bias[c],
        ),
    }
}

/// The sums of a row fit.
pub open spec fn row_fits(x: Grid, r: int) -> bool {
    &&& grid::in_i64(square_sum(x, r, x.cols))
    &&& grid::in_i128(square_sum(x, r, x.cols) * x.cols)
    &&& grid::in_i64(variance(x, r))
}

/// An entry of a layer normalization fits.
pub open spec fn norm_entry_fits(x: Grid, gain: Seq<int>, bias: Seq<int>, r: int, c: int) -> bool {
    &&& grid::in_i128(x.cols * x.at(r, c))
    &&& grid::in_i128(x.cols * x.at(r, c) - row_sum(x, r, x.cols))
    &&& grid::in_i64(centred(x, gain, r, c))
    &&& grid::in_i64(centred(x, gain, r, c) / deviation(x, r) + bias[c])
}

/// No step of a layer normalization leaves the machine integers.
pub open spec fn layer_norm_fits(x: Grid, gain: Seq<int>, bias: Seq<int>) -> bool {
    &&& forall|r: int| 0 <= r < x.rows ==> #[trigger] row_fits(x, r)
    &&& forall|r: int, c: int|
        0 <= r < x.rows && 0 <= c < x.cols ==> #[trigger] norm_entry_fits(x, gain, bias, r, c)
}

/// The variance is never negative, so the deviation is at least one.
pub proof fn law_deviation_positive(x: Grid, r: int)
    ensures
        variance(x, r) >= 0,
        deviation(x, r) >= 1,
        tensor::is_rounded_sqrt(variance(x, r) + 1, deviation(x, r)),
{
    let f = |c: int| x.at(r, c);
    grid::lemma_cauchy(x.cols, f);
    let g = |c: int| f(c) * f(c);
    let h = |c: int| x.at(r, c) * x.at(r, c);
    grid::lemma_isum_ext(x.cols, g, h);
    let n = variance(x, r) + 1;
    lemma_root_exists(n);
    assert(tensor::is_rounded_sqrt(n, tensor::rounded_sqrt(n)));
}

/// Every nonnegative integer has a rounded root.
proof fn lemma_root_exists(n: int)
    requires
        n >= 0,
    ensures
        exists|y: int| tensor::is_rounded_sqrt(n, y),
    decreases n,
{
    if n == 0 {
        assert(tensor::is_rounded_sqrt(0, 0)) by {
            assert(0 * 0 + 0 == 0int);
        }
    } else {
        let m = n - 1;
        lemma_root_exists(m);
        let y = choose|y: int| tensor::is_rounded_sqrt(m, y);
        if n <= y * y + y {
            if n - 1 == 0 {
                assert(0 * 0 + 0 == 0int);
            }
            assert(tensor::is_rounded_sqrt(n, y));
        } else {
            let z = y + 1;
            assert(z * z - z == y * y + y) by (nonlinear_arith)
                requires
                    z == y + 1,
            ;
            assert(z * z + z >= n) by (nonlinear_arith)
                requires
                    z == y + 1,
                    n - 1 <= y * y + y,
                    y >= 0,
            ;
            assert(tensor::is_rounded_sqrt(n, z));
        }
    }
}

/// The bounds on a row's partial sums.
proof fn lemma_row_sums(x: Grid, r: int, k: nat)
    requires
        k <= x.cols,
        row_fits(x, r),
    ensures
        0 <= square_sum(x, r, k) <= i64::MAX,
        grid::in_i64(row_sum(x, r, k)),
        -(i64::MAX) <= row_sum(x, r, k),
{
    let f = |c: int| x.at(r, c);
    let g = |c: int| f(c) * f(c);
    let h = |c: int| x.at(r, c) * x.at(r, c);
    grid::lemma_isum_ext(k, g, h);
    grid::lemma_isum_squares(k, f);
    assert forall|c: int| 0 <= c < x.cols implies #[trigger] h(c) >= 0 by {
        let y = x.at(r, c);
        assert(y * y >= 0) by (nonlinear_arith);
    }
    grid::lemma_isum_grows(k, x.cols, h);
}

/// The two sums of a row.
fn sum_row(x: &Matrix, r: usize) -> (s: (i128, i128))
    requires
        x.wf(),
        r < x.height(),
        row_fits(x.grid(), r as int),
    ensures
        s.0 == row_sum(x.grid(), r as int, x.width()),
        s.1 == square_sum(x.grid(), r as int, x.width()),
{
    let ghost g = x.grid();
    let mut sx: i128 = 0;
    let mut sx2: i128 = 0;
    let n: usize = x.cols();
    let mut c: usize = 0;
    while c < n
        invariant
            c <= n,
            n == x.width(),
            g == x.grid(),
            x.wf(),
            r < x.height(),
            row_fits(g, r as int),
            sx == row_sum(g, r as int, c as nat),
            sx2 == square_sum(g, r as int, c as nat),
        decreases n - c,
    {
        let v: i64 = x.get(r, c);
        proof {
            tensor::lemma_wide_product(v, v);
            lemma_row_sums(g, r as int, (c + 1) as nat);
            lemma_row_sums(g, r as int, c as nat);
            let f = |c: int| g.at(r as int, c);
            let h = |c: int| g.at(r as int, c) * g.at(r as int, c);
            assert(grid::isum((c + 1) as nat, f) == grid::isum(c as nat, f) + f(c as int));
            assert(grid::isum((c + 1) as nat, h) == grid::isum(c as nat, h) + h(c as int));
        }
        sx = sx + v as i128;
        sx2 = sx2 + (v as i128) * (v as i128);
        c += 1;
    }
    (sx, sx2)
}

/// Layer normalization with its witness.
pub fn layer_norm(x: &Matrix, gain: &[i64], bias: &[i64]) -> (ln: LayerNormWitness)
    requires
        x.wf(),
        gain@.len() == x.width(),
        bias@.len() == x.width(),
        layer_norm_fits(x.grid(), grid::ints(gain@), grid::ints(bias@)),
    ensures
        ln.contents() == layer_norm_of(x.grid(), grid::ints(gain@), grid::ints(bias@)),
        ln.wf(),
{
    let ghost g = x.grid();
    let ghost gs = grid::ints(gain@);
    let ghost bs = grid::ints(bias@);
    let ghost want = layer_norm_of(g, gs, bs);
    let rows: usize = x.rows();
    let cols: usize = x.cols();
    let d: i128 = cols as i128;
    let mut sum_x: Vec<i64> = Vec::new();
    let mut sum_x2: Vec<i64> = Vec::new();
    let mut var_sum: Vec<i64> = Vec::new();
    let mut std: Vec<i64> = Vec::new();
    let mut dividend: Vec<i64> = Vec::new();
    let mut quotient: Vec<i64> = Vec::new();
    let mut output: Vec<i64> = Vec::new();
    let mut r: usize = 0;
    assert(0 * cols == 0) by (nonlinear_arith);
    while r < rows
        invariant
            r <= rows,
            rows == x.height(),
            cols == x.width(),
            d == cols,
            x.wf(),
            gain@.len() == cols,
            bias@.len() == cols,
            g == x.grid(),
            gs == grid::ints(gain@),
            bs == grid::ints(bias@),
            layer_norm_fits(g, gs, bs),
            want == layer_norm_of(g, gs, bs),
            sum_x@.len() == r,
            sum_x2@.len() == r,
            var_sum@.len() == r,
            std@.len() == r,
            dividend@.len() == r * cols,
            quotient@.len() == r * cols,
            output@.len() == r * cols,
            forall|k: int| 0 <= k < r ==> #[trigger] sum_x@[k] as int == want.sum_x[k],
            forall|k: int| 0 <= k < r ==> #[trigger] sum_x2@[k] as int == want.sum_x2[k],
            forall|k: int| 0 <= k < r ==> #[trigger] var_sum@[k] as int == want.var_sum[k],
            forall|k: int| 0 <= k < r ==> #[trigger] std@[k] as int == want.std[k],
            forall|k: int|
                0 <= k < dividend@.len() ==> #[trigger] dividend@[k] as int
                    == want.dividend.data[k],
            forall|k: int|
                0 <= k < quotient@.len() ==> #[trigger] quotient@[k] as int
                    == want.quotient.data[k],
            forall|k: int|
                0 <= k < output@.len() ==> #[trigger] output@[k] as int == want.output.data[k],
        decreases rows - r,
    {
        assert(row_fits(g, r as int));
        let (sx, sx2) = sum_row(x, r);
        proof {
            lemma_row_sums(g, r as int, g.cols);
            law_deviation_positive(g, r as int);
            assert(0 <= sx * sx <= 0x4000_0000_0000_0000_0000_0000_0000_0000) by (nonlinear_arith)
                requires
                    -0x8000_0000_0000_0000 <= sx <= 0x7fff_ffff_ffff_ffff,
            ;
        }
        let vs: i128 = sx2 * d - sx * sx;
        let st: i64 = tensor::round_sqrt(vs + 1);
        sum_x.push(tensor::checked_i128_to_i64(sx));
        sum_x2.push(tensor::checked_i128_to_i64(sx2));
        var_sum.push(tensor::checked_i128_to_i64(vs));
        std.push(st);
        let mut c: usize = 0;
        while c < cols
            invariant
                c <= cols,
                r < rows,
                rows == x.height(),
                cols == x.width(),
                d == cols,
                x.wf(),
                gain@.len() == cols,
                bias@.len() == cols,
                g == x.grid(),
                gs == grid::ints(gain@),
                bs == grid::ints(bias@),
                layer_norm_fits(g, gs, bs),
                want == layer_norm_of(g, gs, bs),
                sx == row_sum(g, r as int, g.cols),
                st as int == deviation(g, r as int),
                st >= 1,
                dividend@.len() == r * cols + c,
                quotient@.len() == r * cols + c,
                output@.len() == r * cols + c,
                forall|k: int|
                    0 <= k < dividend@.len() ==> #[trigger] dividend@[k] as int
                        == want.dividend.data[k],
                forall|k: int|
                    0 <= k < quotient@.len() ==> #[trigger] quotient@[k] as int
                        == want.quotient.data[k],
                forall|k: int|
                    0 <= k < output@.len() ==> #[trigger] output@[k] as int
                        == want.output.data[k],
            decreases cols - c,
        {
            assert(norm_entry_fits(g, gs, bs, r as int, c as int));
            let v: i64 = x.get(r, c);
            proof {
                grid::lemma_cell(g.rows, g.cols, r as int, c as int);
                assert(gs[c as int] == gain@[c as int]);
                assert(bs[c as int] == bias@[c as int]);
                assert(d * v == g.cols * g.at(r as int, c as int));
                lemma_quotient_small(centred(g, gs, r as int, c as int), st as int);
            }
            let a: i128 = (gain[c] as i128) * (d * (v as i128) - sx);
            let q: i64 = tensor::floor_div_i128(a, st as i128);
            dividend.push(tensor::checked_i128_to_i64(a));
            quotient.push(q);
            output.push(q + bias[c]);
            c += 1;
        }
        assert((r + 1) * cols == r * cols + cols) by (nonlinear_arith);
        r += 1;
    }
    let ln = LayerNormWitness {
        input: x.copy(),
        sum_x,
        sum_x2,
        var_sum,
        std,
        dividend: Matrix::new(rows, cols, dividend),
        quotient: Matrix::new(rows, cols, quotient),
        output: Matrix::new(rows, cols, output),
    };
    assert(ln.contents() =~~= want);
    ln
}

proof fn lemma_quotient_small(a: int, d: int)
    requires
        grid::in_i64(a),
        d >= 1,
    ensures
        grid::in_i64(a / d),
{
    vstd::arithmetic::div_mod::lemma_fundamental_div_mod(a, d);
    let (q, r) = (a / d, a % d);
    assert(i64::MIN <= q <= i64::MAX) by (nonlinear_arith)
        requires
            a == d * q + r,
            0 <= r < d,
            d >= 1,
            i64::MIN <= a <= i64::MAX,
    ;
}

// softmax

/// The largest score of row `i` among the first `n` columns.
pub open spec fn prefix_max(s: Grid, i: int, n: nat) -> int
    decreases n,
{
    if n <= 1 {
        s.at(i, 0)
    } else {
        let m = prefix_max(s, i, (n - 1) as nat);
        if m >= s.at(i, n - 1) {
            m
        } else {
            s.at(i, n - 1)
        }
    }
}

/// The largest score that position `i` may attend to.
pub open spec fn causal_max(s: Grid, i: int) -> int {
    prefix_max(s, i, (i + 1) as nat)
}

/// The index of a score in the exponential table.
pub open spec fn exp_index(s: Grid, offset: int, i: int, j: int) -> int {
    s.at(i, j) - causal_max(s, i) + offset
}

/// The table value of a score; zero for later positions.
pub open spec fn exp_at(s: Grid, lut: Seq<int>, offset: int, i: int, j: int) -> int {
    if j <= i {
        lut[exp_index(s, offset, i, j)]
    } else {
        0
    }
}

/// The sum of the first `n` table values of row `i`.
pub open spec fn exp_sum(s: Grid, lut: Seq<int>, offset: int, i: int, n: nat) -> int {
    grid::isum(n, |j: int| exp_at(s, lut, offset, i, j))
}

/// The scaled share of position `j` in row `i`.
pub open spec fn share_at(
    s: Grid,
    lut: Seq<int>,
    offset: int,
    scale: int,
    i: int,
    j: int,
) -> int {
    if j <= i {
        (exp_at(s, lut, offset, i, j) * scale) / exp_sum(s, lut, offset, i, (i + 1) as nat)
    } else {
        0
    }
}

/// The maxima, table values, their sums and the shares of a score matrix.
pub struct SoftmaxView {
    pub x_max: Grid,
    pub exp: Grid,
    pub sum_exp: Grid,
    pub prob: Grid,
}

/// The causal softmax of an `n x n` score matrix.
pub open spec fn softmax_of(s: Grid, lut: Seq<int>, offset: int, scale: int, n: nat) -> SoftmaxView {
    SoftmaxView {
        x_max: grid::tabulate(n, 1, |i: int, j: int| causal_max(s, i)),
        exp: grid::tabulate(n, n, |i: int, j: int| exp_at(s, lut, offset, i, j)),
        sum_exp: grid::tabulate(
            n,
            1,
            |i: int, j: int| exp_sum(s, lut, offset, i, (i + 1) as nat),
        ),
        prob: grid::tabulate(n, n, |i: int, j: int| share_at(s, lut, offset, scale, i, j)),
    }
}

/// The table lookup of a score is in range.
pub open spec fn exp_fits(s: Grid, lut: Seq<int>, offset: int, i: int, j: int) -> bool {
    &&& grid::in_i64(s.at(i, j) - causal_max(s, i))
    &&& 0 <= exp_index(s, offset, i, j) < lut.len()
}

/// No step of the softmax fails: the lookups are in range, the sums fit and are
/// positive, and the shares fit.
pub open spec fn softmax_fits(s: Grid, lut: Seq<int>, offset: int, scale: int, n: nat) -> bool {
    &&& forall|i: int, j: int| 0 <= j <= i < n ==> #[trigger] exp_fits(s, lut, offset, i, j)
    &&& forall|i: int, k: nat|
        0 <= i < n && k <= i + 1 ==> grid::in_i64(#[trigger] exp_sum(s, lut, offset, i, k))
    &&& forall|i: int|
        0 <= i < n ==> (#[trigger] exp_sum(s, lut, offset, i, (i + 1) as nat)) > 0
    &&& forall|i: int, j: int|
        0 <= j <= i < n ==> grid::in_i64(#[trigger] share_at(s, lut, offset, scale, i, j))
}

/// The causal softmax of a score matrix, read from the table.
pub fn softmax(scores: &Matrix, weights: &ModelWeights, config: &Config) -> (r: (
    Matrix,
    Tensor3,
    Matrix,
    Tensor3,
))
    requires
        has_shape(*scores, config.n_seq as nat, config.n_seq as nat),
        grid::in_i64(config.table_offset()),
        softmax_fits(
            scores.grid(),
            grid::ints(weights.exp_lut@),
            config.table_offset(),
            config.scale as int,
            config.n_seq as nat,
        ),
    ensures
        ({
            let sm = softmax_of(
                scores.grid(),
                grid::ints(weights.exp_lut@),
                config.table_offset(),
                config.scale as int,
                config.n_seq as nat,
            );
            &&& r.0.grid() == sm.x_max
            &&& r.1.cube() == grid::single(sm.exp)
            &&& r.2.grid() == sm.sum_exp
            &&& r.3.cube() == grid::single(sm.prob)
        }),
        r.0.wf(),
        r.1.wf(),
        r.2.wf(),
        r.3.wf(),
{
    let n: usize = config.n_seq;
    let ghost s = scores.grid();
    let ghost lut = grid::ints(weights.exp_lut@);
    let ghost scale = config.scale as int;
    let offset: i64 = config.max_v * config.scale;
    let ghost sm = softmax_of(s, lut, offset as int, scale, n as nat);
    let mut x_max: Vec<i64> = Vec::new();
    let mut exp: Vec<i64> = Vec::new();
    let mut sum_exp: Vec<i64> = Vec::new();
    let mut probs: Vec<i64> = Vec::new();
    let mut i: usize = 0;
    assert(0 * n == 0) by (nonlinear_arith);
    while i < n
        invariant
            i <= n,
            n == config.n_seq,
            has_shape(*scores, n as nat, n as nat),
            s == scores.grid(),
            lut == grid::ints(weights.exp_lut@),
            offset == config.table_offset(),
            scale == config.scale,
            softmax_fits(s, lut, offset as int, scale, n as nat),
            sm == softmax_of(s, lut, offset as int, scale, n as nat),
            x_max@.len() == i,
            sum_exp@.len() == i,
            exp@.len() == i * n,
            probs@.len() == i * n,
            forall|k: int| 0 <= k < i ==> #[trigger] x_max@[k] as int == causal_max(s, k),
            forall|k: int|
                0 <= k < i ==> #[trigger] sum_exp@[k] as int == exp_sum(
                    s,
                    lut,
                    offset as int,
                    k,
                    (k + 1) as nat,
                ),
            forall|k: int| 0 <= k < exp@.len() ==> #[trigger] exp@[k] as int == sm.exp.data[k],
            forall|k: int|
                0 <= k < probs@.len() ==> #[trigger] probs@[k] as int == sm.prob.data[k],
        decreases n - i,
    {
        let mx: i64 = row_max(scores, i, n);
        x_max.push(mx);
        let row: Vec<i64> = exp_row(scores, &weights.exp_lut, offset, mx, i, n, Ghost(scale));
        let sum: i64 = sum_prefix(&row, Ghost(s), Ghost(lut), Ghost(offset as int), i, n, Ghost(scale));
        sum_exp.push(sum);
        let mut j: usize = 0;
        while j < n
            invariant
                i < n,
                j <= n,
                n == config.n_seq,
                scale == config.scale,
                softmax_fits(s, lut, offset as int, scale, n as nat),
                sm == softmax_of(s, lut, offset as int, scale, n as nat),
                row@.len() == n,
                forall|k: int|
                    0 <= k < n ==> #[trigger] row@[k] as int == exp_at(
                        s,
                        lut,
                        offset as int,
                        i as int,
                        k,
                    ),
                sum as int == exp_sum(s, lut, offset as int, i as int, (i + 1) as nat),
                sum > 0,
                exp@.len() == i * n + j,
                probs@.len() == i * n + j,
                forall|k: int|
                    0 <= k < exp@.len() ==> #[trigger] exp@[k] as int == sm.exp.data[k],
                forall|k: int|
                    0 <= k < probs@.len() ==> #[trigger] probs@[k] as int == sm.prob.data[k],
            decreases n - j,
        {
            proof {
                grid::lemma_cell(n as nat, n as nat, i as int, j as int);
                tensor::lemma_wide_product(row@[j as int], config.scale);
            }
            exp.push(row[j]);
            if j <= i {
                proof {
                    assert(grid::in_i64(
                        share_at(s, lut, offset as int, scale, i as int, j as int),
                    ));
                }
                let p: i64 = tensor::floor_div_i128(
                    (row[j] as i128) * (config.scale as i128),
                    sum as i128,
                );
                probs.push(p);
            } else {
                probs.push(0);
            }
            j += 1;
        }
        assert((i + 1) * n == i * n + n) by (nonlinear_arith);
        i += 1;
    }
    assert(n * 1 == n && 1 * n == n) by (nonlinear_arith);
    let xm = Matrix::new(n, 1, x_max);
    let se = Matrix::new(n, 1, sum_exp);
    proof {
        assert((1 * n) * n == n * n) by (nonlinear_arith);
        assert(exp.len() == exp@.len());
    }
    let ex = Tensor3::new(1, n, n, exp);
    let pr = Tensor3::new(1, n, n, probs);
    proof {
        assert(xm.grid() =~= sm.x_max) by {
            assert forall|k: int| 0 <= k < n implies #[trigger] xm.grid().data[k]
                == sm.x_max.data[k] by {
                assert(k / 1 == k);
                assert(xm.values()[k] == x_max@[k]);
            }
        }
        assert(se.grid() =~= sm.sum_exp) by {
            assert forall|k: int| 0 <= k < n implies #[trigger] se.grid().data[k]
                == sm.sum_exp.data[k] by {
                assert(k / 1 == k);
                assert(se.values()[k] == sum_exp@[k]);
            }
        }
        assert(ex.cube() =~= grid::single(sm.exp));
        assert(pr.cube() =~= grid::single(sm.prob));
    }
    (xm, ex, se, pr)
}

/// The largest score that position `i` may attend to.
fn row_max(scores: &Matrix, i: usize, n: usize) -> (mx: i64)
    requires
        has_shape(*scores, n as nat, n as nat),
        i < n,
    ensures
        mx as int == causal_max(scores.grid(), i as int),
{
    let ghost s = scores.grid();
    let mut mx: i64 = scores.get(i, 0);
    let mut j: usize = 1;
    while j <= i
        invariant
            1 <= j <= i + 1,
            i < n,
            has_shape(*scores, n as nat, n as nat),
            s == scores.grid(),
            mx as int == prefix_max(s, i as int, j as nat),
        decreases i + 1 - j,
    {
        let v: i64 = scores.get(i, j);
        if v > mx {
            mx = v;
        }
        j += 1;
    }
    mx
}

/// The table values of row `i`.
fn exp_row(
    scores: &Matrix,
    exp_lut: &Vec<i64>,
    offset: i64,
    mx: i64,
    i: usize,
    n: usize,
    scale: Ghost<int>,
) -> (row: Vec<i64>)
    requires
        has_shape(*scores, n as nat, n as nat),
        i < n,
        mx as int == causal_max(scores.grid(), i as int),
        softmax_fits(scores.grid(), grid::ints(exp_lut@), offset as int, scale@, n as nat),
    ensures
        row@.len() == n,
        forall|k: int|
            0 <= k < n ==> #[trigger] row@[k] as int == exp_at(
                scores.grid(),
                grid::ints(exp_lut@),
                offset as int,
                i as int,
                k,
            ),
{
    let ghost s = scores.grid();
    let ghost lut = grid::ints(exp_lut@);
    let mut row: Vec<i64> = Vec::new();
    let mut j: usize = 0;
    while j < n
        invariant
            j <= n,
            i < n,
            has_shape(*scores, n as nat, n as nat),
            s == scores.grid(),
            lut == grid::ints(exp_lut@),
            mx as int == causal_max(s, i as int),
            softmax_fits(s, lut, offset as int, scale@, n as nat),
            row@.len() == j,
            forall|k: int|
                0 <= k < j ==> #[trigger] row@[k] as int == exp_at(
                    s,
                    lut,
                    offset as int,
                    i as int,
                    k,
                ),
        decreases n - j,
    {
        if j <= i {
            assert(exp_fits(s, lut, offset as int, i as int, j as int));
            assert(exp_lut.len() == exp_lut@.len());
            let diff: i64 = scores.get(i, j) - mx;
            let idx: i128 = diff as i128 + offset as i128;
            row.push(exp_lut[idx as usize]);
        } else {
            row.push(0);
        }
        j += 1;
    }
    row
}

/// The sum of the table values of row `i`.
fn sum_prefix(
    row: &Vec<i64>,
    s: Ghost<Grid>,
    lut: Ghost<Seq<int>>,
    offset: Ghost<int>,
    i: usize,
    n: usize,
    scale: Ghost<int>,
) -> (sum: i64)
    requires
        i < n,
        row@.len() == n,
        forall|k: int|
            0 <= k < n ==> #[trigger] row@[k] as int == exp_at(s@, lut@, offset@, i as int, k),
        softmax_fits(s@, lut@, offset@, scale@, n as nat),
    ensures
        sum as int == exp_sum(s@, lut@, offset@, i as int, (i + 1) as nat),
        sum > 0,
{
    let mut sum: i64 = 0;
    let mut j: usize = 0;
    let ghost f = |j: int| exp_at(s@, lut@, offset@, i as int, j);
    while j <= i
        invariant
            j <= i + 1,
            i < n,
            row@.len() == n,
            forall|k: int|
                0 <= k < n ==> #[trigger] row@[k] as int == exp_at(
                    s@,
                    lut@,
                    offset@,
                    i as int,
                    k,
                ),
            softmax_fits(s@, lut@, offset@, scale@, n as nat),
            f == (|j: int| exp_at(s@, lut@, offset@, i as int, j)),
            sum as int == exp_sum(s@, lut@, offset@, i as int, j as nat),
        decreases i + 1 - j,
    {
        proof {
            assert(grid::isum((j + 1) as nat, f) == grid::isum(j as nat, f) + f(j as int));
            assert(grid::in_i64(exp_sum(s@, lut@, offset@, i as int, (j + 1) as nat)));
            assert(row@[j as int] as int == f(j as int));
        }
        sum = sum + row[j];
        j += 1;
    }
    sum
}

// attention

/// The part of head `h` in the projected inputs, from column `base` on.
pub open spec fn head_grid(qkv: Grid, config: Config, base: int, h: int) -> Grid {
    grid::tabulate(
        config.n_seq as nat,
        config.d_head as nat,
        |s: int, d: int| qkv.at(s, base + h * config.d_head + d),
    )
}

/// The scores of head `h`.
pub open spec fn score_of(qkv: Grid, config: Config, h: int) -> Grid {
    grid::floor_div(
        grid::product_transposed(
            head_grid(qkv, config, 0, h),
            head_grid(qkv, config, config.d_model as int, h),
        ),
        config.score_divisor(),
    )
}

/// The softmax of head `h`.
pub open spec fn head_softmax(qkv: Grid, w: ModelWeights, config: Config, h: int) -> SoftmaxView {
    softmax_of(
        score_of(qkv, config, h),
        grid::ints(w.exp_lut@),
        config.table_offset(),
        config.scale as int,
        config.n_seq as nat,
    )
}

/// The output of head `h`.
pub open spec fn head_output(qkv: Grid, w: ModelWeights, config: Config, h: int) -> Grid {
    grid::floor_div(
        grid::product(
            head_softmax(qkv, w, config, h).prob,
            head_grid(qkv, config, 2 * config.d_model, h),
        ),
        config.scale as int,
    )
}

/// An entry of the heads' outputs side by side.
pub open spec fn merged_at(qkv: Grid, w: ModelWeights, config: Config, i: int, c: int) -> int {
    if c < config.n_head * config.d_head {
        head_output(qkv, w, config, c / config.d_head as int).at(i, c % config.d_head as int)
    } else {
        0
    }
}

/// The heads' outputs side by side.
pub open spec fn merged_heads(qkv: Grid, w: ModelWeights, config: Config) -> Grid {
    grid::tabulate(
        config.n_seq as nat,
        config.d_model as nat,
        |i: int, c: int| merged_at(qkv, w, config, i, c),
    )
}

/// The projected inputs before the bias.
pub open spec fn projected_inputs(nx: Grid, b: BlockWeights, config: Config) -> Grid {
    grid::floor_div(grid::product(nx, b.attn_w.grid()), config.scale as int)
}

/// The projected inputs.
pub open spec fn biased_inputs(nx: Grid, b: BlockWeights, config: Config) -> Grid {
    grid::add_row(projected_inputs(nx, b, config), grid::ints(b.attn_b@))
}

/// The projected output of the heads.
pub open spec fn attention_projection(
    nx: Grid,
    b: BlockWeights,
    w: ModelWeights,
    config: Config,
) -> Grid {
    grid::floor_div(
        grid::product(
            merged_heads(biased_inputs(nx, b, config), w, config),
            b.attn_proj_w.grid(),
        ),
        config.scale as int,
    )
}

/// The attention layer.
pub open spec fn attention_of(
    residual: Grid,
    nx: Grid,
    b: BlockWeights,
    w: ModelWeights,
    config: Config,
) -> AttentionView {
    let qkv = biased_inputs(nx, b, config);
    let n = config.n_head as nat;
    let q_apr = attention_projection(nx, b, w, config);
    AttentionView {
        q_qkv: projected_inputs(nx, b, config),
        qkv,
        scores: Seq::new(n, |h: int| grid::single(score_of(qkv, config, h))),
        x_max: Seq::new(n, |h: int| head_softmax(qkv, w, config, h).x_max),
        exp: Seq::new(n, |h: int| grid::single(head_softmax(qkv, w, config, h).exp)),
        sum_exp: Seq::new(n, |h: int| head_softmax(qkv, w, config, h).sum_exp),
        q_prob: Seq::new(n, |h: int| grid::single(head_softmax(qkv, w, config, h).prob)),
        q_ao_heads: Seq::new(n, |h: int| grid::single(head_output(qkv, w, config, h))),
        q_ao: merged_heads(qkv, w, config),
        q_apr,
        x_out: grid::add_grid(residual, grid::add_row(q_apr, grid::ints(b.attn_proj_b@))),
    }
}

/// No step of head `h` fails.
pub open spec fn head_fits(qkv: Grid, w: ModelWeights, config: Config, h: int) -> bool {
    &&& grid::product_transposed_fits(
        head_grid(qkv, config, 0, h),
        head_grid(qkv, config, config.d_model as int, h),
    )
    &&& softmax_fits(
        score_of(qkv, config, h),
        grid::ints(w.exp_lut@),
        config.table_offset(),
        config.scale as int,
        config.n_seq as nat,
    )
    &&& grid::product_fits(
        head_softmax(qkv, w, config, h).prob,
        head_grid(qkv, config, 2 * config.d_model, h),
    )
}

/// No step of the attention layer fails.
pub open spec fn attention_fits(
    residual: Grid,
    nx: Grid,
    b: BlockWeights,
    w: ModelWeights,
    config: Config,
) -> bool {
    let qkv = biased_inputs(nx, b, config);
    let q_apr = attention_projection(nx, b, w, config);
    let projected = grid::add_row(q_apr, grid::ints(b.attn_proj_b@));
    &&& grid::product_fits(nx, b.attn_w.grid())
    &&& qkv.fits()
    &&& forall|h: int| 0 <= h < config.n_head ==> #[trigger] head_fits(qkv, w, config, h)
    &&& grid::product_fits(merged_heads(qkv, w, config), b.attn_proj_w.grid())
    &&& projected.fits()
    &&& grid::add_grid(residual, projected).fits()
}

/// The projected inputs hold the queries, keys and values of all heads, and the heads'
/// tensors fit a machine word.
pub open spec fn split_fits(qkv: Matrix, config: Config) -> bool {
    &&& qkv.wf()
    &&& config.n_seq <= qkv.height()
    &&& 2 * config.d_model + config.n_head * config.d_head <= qkv.width()
    &&& config.n_head * config.n_seq <= usize::MAX
    &&& config.n_head * config.n_seq * config.d_head <= usize::MAX
}

/// Splits the projected inputs into the queries, keys and values of the heads.
pub fn split_qkv_heads(qkv: &Matrix, config: &Config) -> (r: (Tensor3, Tensor3, Tensor3))
    requires
        split_fits(*qkv, *config),
    ensures
        is_split(r.0, qkv.grid(), *config, 0),
        is_split(r.1, qkv.grid(), *config, config.d_model as int),
        is_split(r.2, qkv.grid(), *config, 2 * config.d_model),
{
    (
        split_part(qkv, config, 0),
        split_part(qkv, config, config.d_model),
        split_part(qkv, config, 2 * config.d_model),
    )
}

/// `t` holds the heads from column `base` on.
pub open spec fn is_split(t: Tensor3, qkv: Grid, config: Config, base: int) -> bool {
    &&& t.wf()
    &&& t.shape() == (config.n_head as nat, config.n_seq as nat, config.d_head as nat)
    &&& forall|h: int, s: int, d: int|
        0 <= h < config.n_head && 0 <= s < config.n_seq && 0 <= d < config.d_head
            ==> #[trigger] t.at(h, s, d) == qkv.at(s, base + h * config.d_head + d)
}

/// The heads from column `base` on.
fn split_part(qkv: &Matrix, config: &Config, base: usize) -> (t: Tensor3)
    requires
        split_fits(*qkv, *config),
        base <= 2 * config.d_model,
    ensures
        is_split(t, qkv.grid(), *config, base as int),
{
    let (nh, ns, dh) = (config.n_head, config.n_seq, config.d_head);
    let ghost g = qkv.grid();
    let mut data: Vec<i64> = Vec::new();
    let mut h: usize = 0;
    assert((0 * ns) * dh == 0) by (nonlinear_arith);
    while h < nh
        invariant
            h <= nh,
            nh == config.n_head,
            ns == config.n_seq,
            dh == config.d_head,
            split_fits(*qkv, *config),
            base <= 2 * config.d_model,
            g == qkv.grid(),
            data@.len() == (h * ns) * dh,
            forall|a: int, s: int, d: int|
                0 <= a < h && 0 <= s < ns && 0 <= d < dh ==> (#[trigger] data@[(a * ns + s) * dh
                    + d]) as int == g.at(s, base + a * dh + d),
        decreases nh - h,
    {
        let mut s: usize = 0;
        assert((h * ns + 0) * dh == (h * ns) * dh) by (nonlinear_arith);
        while s < ns
            invariant
                h < nh,
                s <= ns,
                nh == config.n_head,
                ns == config.n_seq,
                dh == config.d_head,
                split_fits(*qkv, *config),
                base <= 2 * config.d_model,
                g == qkv.grid(),
                data@.len() == (h * ns + s) * dh,
                forall|a: int, t: int, d: int|
                    0 <= a < h && 0 <= t < ns && 0 <= d < dh ==> (#[trigger] data@[(a * ns + t)
                        * dh + d]) as int == g.at(t, base + a * dh + d),
                forall|t: int, d: int|
                    0 <= t < s && 0 <= d < dh ==> (#[trigger] data@[(h * ns + t) * dh + d]) as int
                        == g.at(t, base + h * dh + d),
            decreases ns - s,
        {
            let mut d: usize = 0;
            while d < dh
                invariant
                    h < nh,
                    s < ns,
                    d <= dh,
                    nh == config.n_head,
                    ns == config.n_seq,
                    dh == config.d_head,
                    split_fits(*qkv, *config),
                    base <= 2 * config.d_model,
                    g == qkv.grid(),
                    data@.len() == (h * ns + s) * dh + d,
                    forall|a: int, t: int, e: int|
                        0 <= a < h && 0 <= t < ns && 0 <= e < dh ==> (#[trigger] data@[(a * ns + t)
                            * dh + e]) as int == g.at(t, base + a * dh + e),
                    forall|t: int, e: int|
                        0 <= t < s && 0 <= e < dh ==> (#[trigger] data@[(h * ns + t) * dh
                            + e]) as int == g.at(t, base + h * dh + e),
                    forall|e: int|
                        0 <= e < d ==> (#[trigger] data@[(h * ns + s) * dh + e]) as int == g.at(
                            s as int,
                            base + h * dh + e,
                        ),
                decreases dh - d,
            {
                proof {
                    grid::lemma_cell(nh as nat, dh as nat, h as int, d as int);
                    assert(0 <= h * dh) by (nonlinear_arith);
                }
                let ghost before = data@;
                data.push(qkv.get(s, base + h * dh + d));
                proof {
                    assert forall|a: int, t: int, e: int|
                        0 <= a < h && 0 <= t < ns && 0 <= e < dh implies (#[trigger] data@[(a * ns
                        + t) * dh + e]) as int == g.at(t, base + a * dh + e) by {
                        lemma_earlier(nh as nat, ns as nat, dh as nat, a, t, e, h as int, s as int);
                        assert(before[(a * ns + t) * dh + e] as int == g.at(t, base + a * dh + e));
                    }
                    assert forall|t: int, e: int| 0 <= t < s && 0 <= e < dh implies (#[trigger] data@[(h
                        * ns + t) * dh + e]) as int == g.at(t, base + h * dh + e) by {
                        lemma_earlier(nh as nat, ns as nat, dh as nat, h as int, t, e, h as int, s as int);
                        assert(before[(h * ns + t) * dh + e] as int == g.at(t, base + h * dh + e));
                    }
                    assert forall|e: int| 0 <= e < d + 1 implies (#[trigger] data@[(h * ns + s) * dh
                        + e]) as int == g.at(s as int, base + h * dh + e) by {
                        assert(0 <= (h * ns + s) * dh) by (nonlinear_arith);
                        if e < d {
                            assert(before[(h * ns + s) * dh + e] as int == g.at(
                                s as int,
                                base + h * dh + e,
                            ));
                        }
                    }
                }
                d += 1;
            }
            assert((h * ns + s + 1) * dh == (h * ns + s) * dh + dh) by (nonlinear_arith);
            s += 1;
        }
        assert((h + 1) * ns == h * ns + ns) by (nonlinear_arith);
        h += 1;
    }
    assert(data.len() == data@.len());
    let t = Tensor3::new(nh, ns, dh, data);
    proof {
        assert forall|h: int, s: int, d: int|
            0 <= h < nh && 0 <= s < ns && 0 <= d < dh implies #[trigger] t.at(h, s, d) == g.at(
            s,
            base + h * dh + d,
        ) by {
            tensor::lemma_index(nh as nat, ns as nat, dh as nat, h, s, d);
            assert(data@[(h * ns + s) * dh + d] as int == g.at(s, base + h * dh + d));
        }
    }
    t
}

/// Earlier entries stand before later rows.
proof fn lemma_earlier(
    nh: nat,
    ns: nat,
    dh: nat,
    a: int,
    t: int,
    e: int,
    h: int,
    s: int,
)
    requires
        0 <= a <= h < nh,
        0 <= t < ns,
        0 <= s < ns,
        0 <= e < dh,
        a < h || t < s,
    ensures
        0 <= (a * ns + t) * dh + e < (h * ns + s) * dh,
{
    assert(a * ns + t + 1 <= h * ns + s && 0 <= a * ns) by (nonlinear_arith)
        requires
            0 <= a <= h,
            0 <= t < ns,
            0 <= s,
            a < h || t < s,
    ;
    let (x, y) = (a * ns + t, h * ns + s);
    assert(0 <= x * dh + e < y * dh) by (nonlinear_arith)
        requires
            0 <= x,
            x + 1 <= y,
            0 <= e < dh,
    ;
}

/// The matrix of one head of a split.
proof fn lemma_head_matrix(t: Tensor3, m: Matrix, qkv: Grid, config: Config, base: int, h: int)
    requires
        is_split(t, qkv, config, base),
        0 <= h < config.n_head,
        m.wf(),
        m.grid() == grid::tabulate(
            t.shape().1,
            t.shape().2,
            |i: int, j: int| t.at(h, i, j),
        ),
    ensures
        m.grid() == head_grid(qkv, config, base, h),
{
    let want = head_grid(qkv, config, base, h);
    assert forall|k: int| 0 <= k < want.data.len() implies #[trigger] m.grid().data[k]
        == want.data[k] by {
        grid::lemma_position(config.n_seq as nat, config.d_head as nat, k);
        let (i, j) = (k / config.d_head as int, k % config.d_head as int);
        assert(t.at(h, i, j) == qkv.at(i, base + h * config.d_head + j));
    }
    assert(m.grid() =~= want);
}

/// The only matrix of a tensor with one leading index.
proof fn lemma_single(t: Tensor3, m: Matrix, g: Grid)
    requires
        t.wf(),
        t.cube() == grid::single(g),
        g.wf(),
        m.wf(),
        m.grid() == grid::tabulate(t.shape().1, t.shape().2, |i: int, j: int| t.at(0, i, j)),
    ensures
        m.grid() == g,
{
    assert(t.shape().0 == t.cube().d0 && t.shape().1 == t.cube().d1 && t.shape().2
        == t.cube().d2);
    assert forall|k: int| 0 <= k < g.data.len() implies #[trigger] m.grid().data[k]
        == g.data[k] by {
        grid::lemma_position(g.rows, g.cols, k);
        let (i, j) = (k / g.cols as int, k % g.cols as int);
        assert(0 * g.rows + i == i) by (nonlinear_arith);
        assert(t.at(0, i, j) == t.grid().data[i * g.cols + j]);
        assert(t.grid().data == g.data);
    }
    assert(m.grid() =~= g);
}

/// The tensors of one head.
struct HeadTensors {
    sc: Tensor3,
    xm: Matrix,
    ex: Tensor3,
    se: Matrix,
    prob: Tensor3,
    ao: Tensor3,
    out: Matrix,
}

impl HeadTensors {
    /// The tensors are those of head `h`.
    spec fn of_head(self, qkv: Grid, w: ModelWeights, config: Config, h: int) -> bool {
        let sm = head_softmax(qkv, w, config, h);
        &&& self.sc.cube() == grid::single(score_of(qkv, config, h))
        &&& self.xm.grid() == sm.x_max
        &&& self.ex.cube() == grid::single(sm.exp)
        &&& self.se.grid() == sm.sum_exp
        &&& self.prob.cube() == grid::single(sm.prob)
        &&& self.ao.cube() == grid::single(head_output(qkv, w, config, h))
        &&& self.out.grid() == head_output(qkv, w, config, h)
        &&& self.sc.wf()
        &&& self.xm.wf()
        &&& self.ex.wf()
        &&& self.se.wf()
        &&& self.prob.wf()
        &&& self.ao.wf()
        &&& self.out.wf()
    }
}

/// Runs one head.
fn run_head(
    heads: &(Tensor3, Tensor3, Tensor3),
    weights: &ModelWeights,
    config: &Config,
    h: usize,
    qkv: Ghost<Grid>,
) -> (r: HeadTensors)
    requires
        config_fits(*config),
        is_split(heads.0, qkv@, *config, 0),
        is_split(heads.1, qkv@, *config, config.d_model as int),
        is_split(heads.2, qkv@, *config, 2 * config.d_model),
        h < config.n_head,
        head_fits(qkv@, *weights, *config, h as int),
    ensures
        r.of_head(qkv@, *weights, *config, h as int),
{
    let n: usize = config.n_seq;
    let dh: usize = config.d_head;
    let q = heads.0.head_matrix(h);
    let k = heads.1.head_matrix(h);
    let v = heads.2.head_matrix(h);
    proof {
        lemma_head_matrix(heads.0, q, qkv@, *config, 0, h as int);
        lemma_head_matrix(heads.1, k, qkv@, *config, config.d_model as int, h as int);
        lemma_head_matrix(heads.2, v, qkv@, *config, 2 * config.d_model, h as int);
        assert(q.height() == n && q.width() == dh && k.height() == n && k.width() == dh
            && v.height() == n && v.width() == dh) by {
            assert(q.grid().rows == n && k.grid().rows == n && v.grid().rows == n);
            assert(q.grid().cols == dh && k.grid().cols == dh && v.grid().cols == dh);
        }
    }
    let sc = q.matmul_transposed_rhs(&k).floor_div_const(config.sqrt_d_scale());
    proof {
        assert(sc.grid() == score_of(qkv@, *config, h as int));
        assert(sc.grid().rows == n && sc.grid().cols == n);
    }
    let (xm, ex, se, prob) = softmax(&sc, weights, config);
    let pm = prob.head_matrix(0);
    proof {
        let sm = head_softmax(qkv@, *weights, *config, h as int);
        lemma_single(prob, pm, sm.prob);
        assert(pm.grid().rows == n && pm.grid().cols == n);
    }
    let out = pm.matmul(&v).floor_div_const(config.scale);
    proof {
        assert(out.grid() == head_output(qkv@, *weights, *config, h as int));
        assert(out.grid().rows == n && out.grid().cols == dh);
        assert(1 * n == n) by (nonlinear_arith);
    }
    let sct = single_tensor(&sc);
    let aot = single_tensor(&out);
    HeadTensors { sc: sct, xm, ex, se, prob, ao: aot, out }
}

/// A matrix as a tensor with one leading index.
fn single_tensor(m: &Matrix) -> (t: Tensor3)
    requires
        m.wf(),
    ensures
        t.wf(),
        t.cube() == grid::single(m.grid()),
{
    proof {
        assert((1 * m.height()) * m.width() == m.height() * m.width()) by (nonlinear_arith);
    }
    Tensor3::new(1, m.rows(), m.cols(), tensor::copy_ints(m.data()))
}

/// Puts the heads' outputs side by side.
fn merge_heads(
    outs: &Vec<Matrix>,
    config: &Config,
    qkv: Ghost<Grid>,
    weights: &ModelWeights,
) -> (r: Matrix)
    requires
        config_fits(*config),
        outs@.len() == config.n_head,
        forall|h: int|
            0 <= h < outs@.len() ==> (#[trigger] outs@[h]).wf() && outs@[h].grid() == head_output(
                qkv@,
                *weights,
                *config,
                h,
            ),
    ensures
        r.wf(),
        r.grid() == merged_heads(qkv@, *weights, *config),
{
    let ghost want = merged_heads(qkv@, *weights, *config);
    let n: usize = config.n_seq;
    let dm: usize = config.d_model;
    let dh: usize = config.d_head;
    assert(config.n_head * config.d_head <= dm);
    let used: usize = used_columns(config);
    let mut data: Vec<i64> = Vec::new();
    let mut i: usize = 0;
    assert(0 * dm == 0) by (nonlinear_arith);
    while i < n
        invariant
            i <= n,
            n == config.n_seq,
            dm == config.d_model,
            dh == config.d_head,
            used == config.n_head * config.d_head,
            config_fits(*config),
            outs@.len() == config.n_head,
            forall|h: int|
                0 <= h < outs@.len() ==> (#[trigger] outs@[h]).wf() && outs@[h].grid()
                    == head_output(qkv@, *weights, *config, h),
            want == merged_heads(qkv@, *weights, *config),
            data@.len() == i * dm,
            forall|k: int| 0 <= k < data@.len() ==> #[trigger] data@[k] as int == want.data[k],
        decreases n - i,
    {
        let mut c: usize = 0;
        while c < dm
            invariant
                i < n,
                c <= dm,
                n == config.n_seq,
                dm == config.d_model,
                dh == config.d_head,
                used == config.n_head * config.d_head,
                config_fits(*config),
                outs@.len() == config.n_head,
                forall|h: int|
                    0 <= h < outs@.len() ==> (#[trigger] outs@[h]).wf() && outs@[h].grid()
                        == head_output(qkv@, *weights, *config, h),
                want == merged_heads(qkv@, *weights, *config),
                data@.len() == i * dm + c,
                forall|k: int|
                    0 <= k < data@.len() ==> #[trigger] data@[k] as int == want.data[k],
            decreases dm - c,
        {
            proof {
                grid::lemma_cell(n as nat, dm as nat, i as int, c as int);
            }
            if c < used {
                proof {
                    grid::lemma_position(config.n_head as nat, dh as nat, c as int);
                    let h = (c / dh) as int;
                    assert(outs@[h].wf());
                    assert(outs@[h].grid() == head_output(qkv@, *weights, *config, h));
                    assert(outs@[h].grid().rows == n && outs@[h].grid().cols == dh);
                }
                data.push(outs[c / dh].get(i, c % dh));
            } else {
                data.push(0);
            }
            c += 1;
        }
        assert((i + 1) * dm == i * dm + dm) by (nonlinear_arith);
        i += 1;
    }
    assert(data.len() == data@.len());
    let r = Matrix::new(n, dm, data);
    assert(r.grid() =~= want);
    r
}

/// The columns that the heads fill.
fn used_columns(config: &Config) -> (r: usize)
    requires
        config.n_head * config.d_head <= config.d_model,
    ensures
        r == config.n_head * config.d_head,
{
    config.n_head * config.d_head
}

/// The attention layer with its witness.
pub fn attention(
    residual: &Matrix,
    nx: &Matrix,
    b: &BlockWeights,
    weights: &ModelWeights,
    config: &Config,
) -> (r: AttentionWitness)
    requires
        config_fits(*config),
        b.wf(*config),
        has_shape(*residual, config.n_seq as nat, config.d_model as nat),
        has_shape(*nx, config.n_seq as nat, config.d_model as nat),
        attention_fits(residual.grid(), nx.grid(), *b, *weights, *config),
    ensures
        r.contents() == attention_of(residual.grid(), nx.grid(), *b, *weights, *config),
        r.wf(),
{
    let ghost want = attention_of(residual.grid(), nx.grid(), *b, *weights, *config);
    let q_qkv = nx.matmul(&b.attn_w).floor_div_const(config.scale);
    assert(q_qkv.grid() == projected_inputs(nx.grid(), *b, *config));
    assert(q_qkv.grid().cols == 3 * config.d_model);
    let qkv = q_qkv.add_row_vector(b.attn_b.as_slice());
    let ghost g = qkv.grid();
    assert(g == biased_inputs(nx.grid(), *b, *config));
    assert(g.rows == config.n_seq && g.cols == 3 * config.d_model);
    let heads = split_qkv_heads(&qkv, config);
    let mut scores: Vec<Tensor3> = Vec::new();
    let mut x_max: Vec<Matrix> = Vec::new();
    let mut exp: Vec<Tensor3> = Vec::new();
    let mut sum_exp: Vec<Matrix> = Vec::new();
    let mut q_prob: Vec<Tensor3> = Vec::new();
    let mut q_ao_heads: Vec<Tensor3> = Vec::new();
    let mut outs: Vec<Matrix> = Vec::new();
    let mut h: usize = 0;
    while h < config.n_head
        invariant
            h <= config.n_head,
            config_fits(*config),
            is_split(heads.0, g, *config, 0),
            is_split(heads.1, g, *config, config.d_model as int),
            is_split(heads.2, g, *config, 2 * config.d_model),
            forall|h: int| 0 <= h < config.n_head ==> #[trigger] head_fits(g, *weights, *config, h),
            scores@.len() == h,
            x_max@.len() == h,
            exp@.len() == h,
            sum_exp@.len() == h,
            q_prob@.len() == h,
            q_ao_heads@.len() == h,
            outs@.len() == h,
            forall|k: int|
                0 <= k < h ==> (#[trigger] scores@[k]).wf() && scores@[k].cube() == grid::single(
                    score_of(g, *config, k),
                ),
            forall|k: int|
                0 <= k < h ==> (#[trigger] x_max@[k]).wf() && x_max@[k].grid() == head_softmax(
                    g,
                    *weights,
                    *config,
                    k,
                ).x_max,
            forall|k: int|
                0 <= k < h ==> (#[trigger] exp@[k]).wf() && exp@[k].cube() == grid::single(
                    head_softmax(g, *weights, *config, k).exp,
                ),
            forall|k: int|
                0 <= k < h ==> (#[trigger] sum_exp@[k]).wf() && sum_exp@[k].grid()
                    == head_softmax(g, *weights, *config, k).sum_exp,
            forall|k: int|
                0 <= k < h ==> (#[trigger] q_prob@[k]).wf() && q_prob@[k].cube() == grid::single(
                    head_softmax(g, *weights, *config, k).prob,
                ),
            forall|k: int|
                0 <= k < h ==> (#[trigger] q_ao_heads@[k]).wf() && q_ao_heads@[k].cube()
                    == grid::single(head_output(g, *weights, *config, k)),
            forall|k: int|
                0 <= k < h ==> (#[trigger] outs@[k]).wf() && outs@[k].grid() == head_output(
                    g,
                    *weights,
                    *config,
                    k,
                ),
        decreases config.n_head - h,
    {
        assert(head_fits(g, *weights, *config, h as int));
        let t = run_head(&heads, weights, config, h, Ghost(g));
        scores.push(t.sc);
        x_max.push(t.xm);
        exp.push(t.ex);
        sum_exp.push(t.se);
        q_prob.push(t.prob);
        q_ao_heads.push(t.ao);
        outs.push(t.out);
        h += 1;
    }
    let merged_ao = merge_heads(&outs, config, Ghost(g), weights);
    assert(merged_ao.grid().rows == config.n_seq && merged_ao.grid().cols == config.d_model);
    let q_apr = merged_ao.matmul(&b.attn_proj_w).floor_div_const(config.scale);
    assert(q_apr.grid().rows == config.n_seq && q_apr.grid().cols == config.d_model);
    let projected = q_apr.add_row_vector(b.attn_proj_b.as_slice());
    assert(projected.grid().rows == config.n_seq && projected.grid().cols == config.d_model);
    let x_out = residual.add_matrix(&projected);
    let r = AttentionWitness {
        q_qkv,
        qkv,
        scores,
        x_max,
        exp,
        sum_exp,
        q_prob,
        q_ao_heads,
        q_ao: merged_ao,
        q_apr,
        x_out,
    };
    proof {
        assert(r.contents().scores =~= want.scores);
        assert(r.contents().x_max =~= want.x_max);
        assert(r.contents().exp =~= want.exp);
        assert(r.contents().sum_exp =~= want.sum_exp);
        assert(r.contents().q_prob =~= want.q_prob);
        assert(r.contents().q_ao_heads =~= want.q_ao_heads);
    }
    r
}

// feed-forward layer

/// The hidden values before the bias.
pub open spec fn hidden_product(nx: Grid, b: BlockWeights, config: Config) -> Grid {
    grid::floor_div(grid::product(nx, b.fc_w.grid()), config.scale as int)
}

/// The hidden values.
pub open spec fn hidden_values(nx: Grid, b: BlockWeights, config: Config) -> Grid {
    grid::add_row(hidden_product(nx, b, config), grid::ints(b.fc_b@))
}

/// The activations: the table's values at the shifted hidden values.
pub open spec fn activations(fc: Grid, w: ModelWeights, config: Config) -> Grid {
    grid::tabulate(
        config.n_seq as nat,
        config.mlp_hidden as nat,
        |r: int, c: int| grid::ints(w.gelu_lut@)[fc.at(r, c) + config.table_offset()],
    )
}

/// The feed-forward layer.
pub open spec fn mlp_of(
    residual: Grid,
    nx: Grid,
    b: BlockWeights,
    w: ModelWeights,
    config: Config,
) -> MlpView {
    let fc = hidden_values(nx, b, config);
    let act = activations(fc, w, config);
    let q_fpr = grid::floor_div(grid::product(act, b.fproj_w.grid()), config.scale as int);
    MlpView {
        q_fc: hidden_product(nx, b, config),
        fc,
        act,
        q_fpr,
        x_out: grid::add_grid(residual, grid::add_row(q_fpr, grid::ints(b.fproj_b@))),
    }
}

/// The activation's table index is in range.
pub open spec fn gelu_fits(fc: Grid, w: ModelWeights, config: Config, r: int, c: int) -> bool {
    &&& grid::in_i64(fc.at(r, c) + config.table_offset())
    &&& 0 <= fc.at(r, c) + config.table_offset() < w.gelu_lut@.len()
}

/// No step of the feed-forward layer fails.
pub open spec fn mlp_fits(
    residual: Grid,
    nx: Grid,
    b: BlockWeights,
    w: ModelWeights,
    config: Config,
) -> bool {
    let fc = hidden_values(nx, b, config);
    let act = activations(fc, w, config);
    let q_fpr = grid::floor_div(grid::product(act, b.fproj_w.grid()), config.scale as int);
    let projected = grid::add_row(q_fpr, grid::ints(b.fproj_b@));
    &&& grid::product_fits(nx, b.fc_w.grid())
    &&& fc.fits()
    &&& forall|r: int, c: int|
        0 <= r < config.n_seq && 0 <= c < config.mlp_hidden ==> #[trigger] gelu_fits(
            fc,
            w,
            config,
            r,
            c,
        )
    &&& grid::product_fits(act, b.fproj_w.grid())
    &&& projected.fits()
    &&& grid::add_grid(residual, projected).fits()
}

/// The activations of the hidden values.
fn activate(fc: &Matrix, weights: &ModelWeights, config: &Config) -> (r: Matrix)
    requires
        config_fits(*config),
        has_shape(*fc, config.n_seq as nat, config.mlp_hidden as nat),
        forall|r: int, c: int|
            0 <= r < config.n_seq && 0 <= c < config.mlp_hidden ==> #[trigger] gelu_fits(
                fc.grid(),
                *weights,
                *config,
                r,
                c,
            ),
    ensures
        r.wf(),
        r.grid() == activations(fc.grid(), *weights, *config),
{
    let ghost g = fc.grid();
    let ghost want = activations(g, *weights, *config);
    let offset: i64 = config.max_v * config.scale;
    let (n, m) = (config.n_seq, config.mlp_hidden);
    let mut data: Vec<i64> = Vec::new();
    let mut r: usize = 0;
    assert(0 * m == 0) by (nonlinear_arith);
    while r < n
        invariant
            r <= n,
            n == config.n_seq,
            m == config.mlp_hidden,
            offset == config.table_offset(),
            has_shape(*fc, n as nat, m as nat),
            g == fc.grid(),
            forall|r: int, c: int|
                0 <= r < n && 0 <= c < m ==> #[trigger] gelu_fits(g, *weights, *config, r, c),
            want == activations(g, *weights, *config),
            data@.len() == r * m,
            forall|k: int| 0 <= k < data@.len() ==> #[trigger] data@[k] as int == want.data[k],
        decreases n - r,
    {
        let mut c: usize = 0;
        while c < m
            invariant
                r < n,
                c <= m,
                n == config.n_seq,
                m == config.mlp_hidden,
                offset == config.table_offset(),
                has_shape(*fc, n as nat, m as nat),
                g == fc.grid(),
                forall|r: int, c: int|
                    0 <= r < n && 0 <= c < m ==> #[trigger] gelu_fits(
                        g,
                        *weights,
                        *config,
                        r,
                        c,
                    ),
                want == activations(g, *weights, *config),
                data@.len() == r * m + c,
                forall|k: int|
                    0 <= k < data@.len() ==> #[trigger] data@[k] as int == want.data[k],
            decreases m - c,
        {
            proof {
                grid::lemma_cell(n as nat, m as nat, r as int, c as int);
                assert(gelu_fits(g, *weights, *config, r as int, c as int));
                assert(weights.gelu_lut.len() == weights.gelu_lut@.len());
            }
            let idx: i64 = fc.get(r, c) + offset;
            data.push(weights.gelu_lut[idx as usize]);
            c += 1;
        }
        assert((r + 1) * m == r * m + m) by (nonlinear_arith);
        r += 1;
    }
    assert(data.len() == data@.len());
    let out = Matrix::new(n, m, data);
    assert(out.grid() =~= want);
    out
}

/// The feed-forward layer with its witness.
pub fn mlp(
    residual: &Matrix,
    nx: &Matrix,
    b: &BlockWeights,
    weights: &ModelWeights,
    config: &Config,
) -> (r: MlpWitness)
    requires
        config_fits(*config),
        b.wf(*config),
        has_shape(*residual, config.n_seq as nat, config.d_model as nat),
        has_shape(*nx, config.n_seq as nat, config.d_model as nat),
        mlp_fits(residual.grid(), nx.grid(), *b, *weights, *config),
    ensures
        r.contents() == mlp_of(residual.grid(), nx.grid(), *b, *weights, *config),
        r.wf(),
{
    let q_fc = nx.matmul(&b.fc_w).floor_div_const(config.scale);
    assert(q_fc.grid().cols == config.mlp_hidden);
    let fc = q_fc.add_row_vector(b.fc_b.as_slice());
    assert(fc.grid() == hidden_values(nx.grid(), *b, *config));
    assert(fc.grid().rows == config.n_seq && fc.grid().cols == config.mlp_hidden);
    let act = activate(&fc, weights, config);
    assert(act.grid().rows == config.n_seq && act.grid().cols == config.mlp_hidden);
    let q_fpr = act.matmul(&b.fproj_w).floor_div_const(config.scale);
    assert(q_fpr.grid().cols == config.d_model);
    let projected = q_fpr.add_row_vector(b.fproj_b.as_slice());
    assert(projected.grid().rows == config.n_seq && projected.grid().cols == config.d_model);
    let x_out = residual.add_matrix(&projected);
    MlpWitness { q_fc, fc, act, q_fpr, x_out }
}

// the model

/// One transformer block on the input `x`.
pub open spec fn block_of(x: Grid, b: BlockWeights, w: ModelWeights, config: Config) -> BlockView {
    let ln1 = layer_norm_of(x, grid::ints(b.ln_1_g@), grid::ints(b.ln_1_b@));
    let attention = attention_of(x, ln1.output, b, w, config);
    let ln2 = layer_norm_of(attention.x_out, grid::ints(b.ln_2_g@), grid::ints(b.ln_2_b@));
    let mlp = mlp_of(attention.x_out, ln2.output, b, w, config);
    BlockView { ln1, attention, ln2, mlp }
}

/// No step of a block fails.
pub open spec fn block_fits(x: Grid, b: BlockWeights, w: ModelWeights, config: Config) -> bool {
    let v = block_of(x, b, w, config);
    &&& layer_norm_fits(x, grid::ints(b.ln_1_g@), grid::ints(b.ln_1_b@))
    &&& attention_fits(x, v.ln1.output, b, w, config)
    &&& layer_norm_fits(v.attention.x_out, grid::ints(b.ln_2_g@), grid::ints(b.ln_2_b@))
    &&& mlp_fits(v.attention.x_out, v.ln2.output, b, w, config)
}

/// The stream after the first `k` blocks.
pub open spec fn stream(x0: Grid, w: ModelWeights, config: Config, k: nat) -> Grid
    decreases k,
{
    if k == 0 {
        x0
    } else {
        let j = (k - 1) as nat;
        block_of(stream(x0, w, config, j), w.blocks@[j as int], w, config).mlp.x_out
    }
}

/// The forward pass.
pub open spec fn forward_of(x0: Grid, w: ModelWeights, config: Config) -> WitnessView {
    let n = w.blocks@.len();
    let last = stream(x0, w, config, n);
    WitnessView {
        x0,
        blocks: Seq::new(
            n,
            |k: int| block_of(stream(x0, w, config, k as nat), w.blocks@[k], w, config),
        ),
        lnf: final_norm(last, w),
        q_log: logits_of(last, w, config),
    }
}

/// No step of the forward pass fails.
pub open spec fn forward_fits(x0: Grid, w: ModelWeights, config: Config) -> bool {
    let n = w.blocks@.len();
    let last = stream(x0, w, config, n);
    &&& forall|k: int|
        0 <= k < n ==> block_fits(
            stream(x0, w, config, k as nat),
            #[trigger] w.blocks@[k],
            w,
            config,
        )
    &&& layer_norm_fits(last, grid::ints(w.ln_f_g@), grid::ints(w.ln_f_b@))
    &&& grid::product_transposed_fits(final_norm(last, w).output, w.wte.grid())
}

/// One transformer block with its witness.
fn run_block(
    x: &Matrix,
    b: &BlockWeights,
    weights: &ModelWeights,
    config: &Config,
) -> (r: BlockWitness)
    requires
        config_fits(*config),
        b.wf(*config),
        has_shape(*x, config.n_seq as nat, config.d_model as nat),
        block_fits(x.grid(), *b, *weights, *config),
    ensures
        r.contents() == block_of(x.grid(), *b, *weights, *config),
        r.wf(),
        has_shape(r.mlp.x_out, config.n_seq as nat, config.d_model as nat),
{
    let ln1 = layer_norm(x, b.ln_1_g.as_slice(), b.ln_1_b.as_slice());
    assert(ln1.contents().output == ln1.output.grid());
    assert(ln1.output.grid().rows == config.n_seq && ln1.output.grid().cols == config.d_model);
    let attn = attention(x, &ln1.output, b, weights, config);
    assert(attn.contents().x_out == attn.x_out.grid());
    assert(attn.x_out.grid().rows == config.n_seq && attn.x_out.grid().cols == config.d_model);
    let ln2 = layer_norm(&attn.x_out, b.ln_2_g.as_slice(), b.ln_2_b.as_slice());
    assert(ln2.contents().output == ln2.output.grid());
    assert(ln2.output.grid().rows == config.n_seq && ln2.output.grid().cols == config.d_model);
    let m = mlp(&attn.x_out, &ln2.output, b, weights, config);
    assert(m.contents().x_out == m.x_out.grid());
    assert(m.x_out.grid().rows == config.n_seq && m.x_out.grid().cols == config.d_model);
    BlockWitness { ln1, attention: attn, ln2, mlp: m }
}

/// The final normalization of a stream.
pub open spec fn final_norm(last: Grid, w: ModelWeights) -> LayerNormView {
    layer_norm_of(last, grid::ints(w.ln_f_g@), grid::ints(w.ln_f_b@))
}

/// The logits of a stream.
pub open spec fn logits_of(last: Grid, w: ModelWeights, config: Config) -> Grid {
    grid::floor_div(
        grid::product_transposed(final_norm(last, w).output, w.wte.grid()),
        config.scale as int,
    )
}

/// The final normalization and the logits.
fn run_output(x: &Matrix, weights: &ModelWeights, config: &Config) -> (r: (
    LayerNormWitness,
    Matrix,
))
    requires
        config_fits(*config),
        weights.wf(*config),
        has_shape(*x, config.n_seq as nat, config.d_model as nat),
        layer_norm_fits(x.grid(), grid::ints(weights.ln_f_g@), grid::ints(weights.ln_f_b@)),
        grid::product_transposed_fits(
            final_norm(x.grid(), *weights).output,
            weights.wte.grid(),
        ),
    ensures
        r.0.contents() == final_norm(x.grid(), *weights),
        r.0.wf(),
        r.1.grid() == logits_of(x.grid(), *weights, *config),
        r.1.wf(),
{
    let lnf = layer_norm(x, weights.ln_f_g.as_slice(), weights.ln_f_b.as_slice());
    assert(lnf.contents().output == lnf.output.grid());
    assert(lnf.output.grid().rows == config.n_seq && lnf.output.grid().cols == config.d_model);
    let q_log = lnf.output.matmul_transposed_rhs(&weights.wte).floor_div_const(config.scale);
    (lnf, q_log)
}

/// Runs the blocks; returns their witnesses and the stream after them.
fn run_blocks(x0: &Matrix, weights: &ModelWeights, config: &Config) -> (r: (
    Vec<BlockWitness>,
    Matrix,
))
    requires
        config_fits(*config),
        weights.wf(*config),
        has_shape(*x0, config.n_seq as nat, config.d_model as nat),
        forward_fits(x0.grid(), *weights, *config),
    ensures
        r.0@.len() == weights.blocks@.len(),
        forall|j: int|
            0 <= j < r.0@.len() ==> (#[trigger] r.0@[j]).wf() && r.0@[j].contents() == block_of(
                stream(x0.grid(), *weights, *config, j as nat),
                weights.blocks@[j],
                *weights,
                *config,
            ),
        has_shape(r.1, config.n_seq as nat, config.d_model as nat),
        r.1.grid() == stream(x0.grid(), *weights, *config, weights.blocks@.len()),
{
    let ghost g0 = x0.grid();
    let mut x = x0.copy();
    let mut blocks: Vec<BlockWitness> = Vec::new();
    let mut k: usize = 0;
    while k < weights.blocks.len()
        invariant
            k <= weights.blocks.len(),
            config_fits(*config),
            weights.wf(*config),
            forward_fits(g0, *weights, *config),
            has_shape(x, config.n_seq as nat, config.d_model as nat),
            x.grid() == stream(g0, *weights, *config, k as nat),
            blocks@.len() == k,
            forall|j: int|
                0 <= j < k ==> (#[trigger] blocks@[j]).wf() && blocks@[j].contents()
                    == block_of(
                    stream(g0, *weights, *config, j as nat),
                    weights.blocks@[j],
                    *weights,
                    *config,
                ),
        decreases weights.blocks.len() - k,
    {
        let b = &weights.blocks[k];
        proof {
            assert(weights.blocks@[k as int].wf(*config));
            assert(block_fits(
                stream(g0, *weights, *config, k as nat),
                weights.blocks@[k as int],
                *weights,
                *config,
            ));
        }
        let block = run_block(&x, b, weights, config);
        x = block.mlp.x_out.copy();
        proof {
            assert(block.contents().mlp.x_out == block.mlp.x_out.grid());
        }
        blocks.push(block);
        k += 1;
    }
    (blocks, x)
}

/// The embedding of a token at a position.
pub open spec fn embedding(w: ModelWeights, ids: Seq<i64>, pos: int, d: int) -> int {
    w.wte.grid().at(ids[pos] as int, d) + w.wpe.grid().at(pos, d)
}

impl ModelWeights {
    /// The embedded input: token embeddings plus position embeddings.
    pub fn x0_from_input_ids(&self, input_ids: &[i64], config: &Config) -> (r: Matrix)
        requires
            self.wte.wf(),
            self.wpe.wf(),
            config.d_model <= self.wte.width(),
            config.d_model <= self.wpe.width(),
            input_ids@.len() == config.n_seq,
            config.n_seq <= self.wpe.height(),
            config.n_seq * config.d_model <= usize::MAX,
            forall|i: int|
                0 <= i < input_ids@.len() ==> 0 <= #[trigger] input_ids@[i] < self.wte.height(),
            forall|i: int, d: int|
                0 <= i < config.n_seq && 0 <= d < config.d_model ==> grid::in_i64(
                    #[trigger] embedding(*self, input_ids@, i, d),
                ),
        ensures
            r.wf(),
            r.grid() == grid::tabulate(
                config.n_seq as nat,
                config.d_model as nat,
                |i: int, d: int| embedding(*self, input_ids@, i, d),
            ),
    {
        let ghost want = grid::tabulate(
            config.n_seq as nat,
            config.d_model as nat,
            |i: int, d: int| embedding(*self, input_ids@, i, d),
        );
        let (n, m) = (config.n_seq, config.d_model);
        let mut data: Vec<i64> = Vec::new();
        let mut i: usize = 0;
        assert(0 * m == 0) by (nonlinear_arith);
        while i < n
            invariant
                i <= n,
                n == config.n_seq,
                m == config.d_model,
                self.wte.wf(),
                self.wpe.wf(),
                m <= self.wte.width(),
                m <= self.wpe.width(),
                input_ids@.len() == n,
                n <= self.wpe.height(),
                forall|i: int|
                    0 <= i < input_ids@.len() ==> 0 <= #[trigger] input_ids@[i]
                        < self.wte.height(),
                forall|i: int, d: int|
                    0 <= i < n && 0 <= d < m ==> grid::in_i64(
                        #[trigger] embedding(*self, input_ids@, i, d),
                    ),
                want == grid::tabulate(
                    n as nat,
                    m as nat,
                    |i: int, d: int| embedding(*self, input_ids@, i, d),
                ),
                data@.len() == i * m,
                forall|k: int| 0 <= k < data@.len() ==> #[trigger] data@[k] as int == want.data[k],
            decreases n - i,
        {
            assert(0 <= input_ids@[i as int] < self.wte.height());
            let tok: usize = input_ids[i] as usize;
            let mut d: usize = 0;
            while d < m
                invariant
                    i < n,
                    d <= m,
                    n == config.n_seq,
                    m == config.d_model,
                    self.wte.wf(),
                    self.wpe.wf(),
                    m <= self.wte.width(),
                    m <= self.wpe.width(),
                    input_ids@.len() == n,
                    n <= self.wpe.height(),
                    tok == input_ids@[i as int],
                    tok < self.wte.height(),
                    forall|i: int, d: int|
                        0 <= i < n && 0 <= d < m ==> grid::in_i64(
                            #[trigger] embedding(*self, input_ids@, i, d),
                        ),
                    want == grid::tabulate(
                        n as nat,
                        m as nat,
                        |i: int, d: int| embedding(*self, input_ids@, i, d),
                    ),
                    data@.len() == i * m + d,
                    forall|k: int|
                        0 <= k < data@.len() ==> #[trigger] data@[k] as int == want.data[k],
                decreases m - d,
            {
                proof {
                    grid::lemma_cell(n as nat, m as nat, i as int, d as int);
                    assert(grid::in_i64(embedding(*self, input_ids@, i as int, d as int)));
                }
                data.push(self.wte.get(tok, d) + self.wpe.get(i, d));
                d += 1;
            }
            assert((i + 1) * m == i * m + m) by (nonlinear_arith);
            i += 1;
        }
        assert(data.len() == data@.len());
        let r = Matrix::new(n, m, data);
        assert(r.grid() =~= want);
        r
    }

    /// The forward pass on the embedded input.
    pub fn forward(&self, x0: Matrix, config: &Config) -> (r: Witness)
        requires
            config_fits(*config),
            self.wf(*config),
            has_shape(x0, config.n_seq as nat, config.d_model as nat),
            forward_fits(x0.grid(), *self, *config),
        ensures
            r.contents() == forward_of(x0.grid(), *self, *config),
            r.wf(),
    {
        let (blocks, x) = run_blocks(&x0, self, config);
        let (lnf, q_log) = run_output(&x, self, config);
        let r = Witness { x0, blocks, lnf, q_log };
        proof {
            let want = forward_of(x0.grid(), *self, *config);
            assert(r.contents().blocks =~= want.blocks);
            assert(r.contents().lnf == want.lnf);
            assert(r.contents().q_log == want.q_log);
        }
        r
    }
}

/// The part, the head and the feature that hold column `c` of the projected inputs.
pub open spec fn split_place(config: Config, c: int) -> (int, int, int) {
    let k = c % config.d_model as int;
    (c / config.d_model as int, k / config.d_head as int, k % config.d_head as int)
}

/// The split moves every entry of the projected inputs to exactly one place: column `c`
/// stands at its part, head and feature, and at no others.
pub proof fn law_split_once(
    parts: Seq<Tensor3>,
    qkv: Grid,
    config: Config,
    s: int,
    c: int,
)
    requires
        parts.len() == 3,
        forall|p: int|
            0 <= p < 3 ==> is_split(#[trigger] parts[p], qkv, config, p * config.d_model),
        config.d_model == config.n_head * config.d_head,
        0 <= s < config.n_seq,
        0 <= c < 3 * config.d_model,
    ensures
        ({
            let (p, h, d) = split_place(config, c);
            &&& 0 <= p < 3 && 0 <= h < config.n_head && 0 <= d < config.d_head
            &&& parts[p].at(h, s, d) == qkv.at(s, c)
            &&& forall|p2: int, h2: int, d2: int|
                0 <= p2 < 3 && 0 <= h2 < config.n_head && 0 <= d2 < config.d_head && p2
                    * config.d_model + h2 * config.d_head + d2 == c ==> (#[trigger] parts[p2].at(
                    h2,
                    s,
                    d2,
                ) == qkv.at(s, c) && (p2, h2, d2) == (p, h, d))
        }),
{
    let (p, h, d) = split_place(config, c);
    grid::lemma_position(3, config.d_model as nat, c);
    grid::lemma_position(config.n_head as nat, config.d_head as nat, c % config.d_model as int);
    assert(is_split(parts[p], qkv, config, p * config.d_model));
    assert(parts[p].at(h, s, d) == qkv.at(s, p * config.d_model + h * config.d_head + d));
    assert forall|p2: int, h2: int, d2: int|
        0 <= p2 < 3 && 0 <= h2 < config.n_head && 0 <= d2 < config.d_head && p2 * config.d_model
            + h2 * config.d_head + d2 == c implies (#[trigger] parts[p2].at(h2, s, d2) == qkv.at(
        s,
        c,
    ) && (p2, h2, d2) == (p, h, d)) by {
        grid::lemma_cell(config.n_head as nat, config.d_head as nat, h2, d2);
        grid::lemma_cell(3, config.d_model as nat, p2, h2 * config.d_head + d2);
        assert(is_split(parts[p2], qkv, config, p2 * config.d_model));
        assert(p2 * config.d_model + (h2 * config.d_head + d2) == c);
    }
}

/// The matrix of a head in the split is the head's part of the projected inputs.
pub proof fn law_split_heads(t: Tensor3, qkv: Grid, config: Config, base: int, h: int)
    requires
        is_split(t, qkv, config, base),
        0 <= h < config.n_head,
    ensures
        grid::tabulate(t.shape().1, t.shape().2, |i: int, j: int| t.at(h, i, j)) == head_grid(
            qkv,
            config,
            base,
            h,
        ),
{
    let (n, k) = (config.n_seq as nat, config.d_head as nat);
    let (a, b) = (
        grid::tabulate(n, k, |i: int, j: int| t.at(h, i, j)),
        head_grid(qkv, config, base, h),
    );
    assert forall|x: int| 0 <= x < n * k implies #[trigger] a.data[x] == b.data[x] by {
        grid::lemma_position(n, k, x);
        let (i, j) = (x / k as int, x % k as int);
        assert(t.at(h, i, j) == qkv.at(i, base + h * config.d_head + j));
    }
    assert(a.data =~= b.data);
}

} // verus!
