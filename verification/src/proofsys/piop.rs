//! The transparent protocol: the proof is the witness, and the verifier checks every
//! step of it and runs the model again.
use vstd::prelude::*;
use crate::proofsys::grid;
use crate::proofsys::grid::Grid;
use crate::proofsys::model;
use crate::proofsys::model::{BlockWeights, ModelWeights};
use crate::proofsys::tensor::Matrix;
use crate::proofsys::witness::{
    AttentionWitness, Config, LayerNormView, LayerNormWitness, MlpView, MlpWitness, Witness,
};

verus! {

/// The claimed input and output of the model.
#[derive(Clone, Debug, PartialEq, Eq)]
pub struct PublicInput {
    pub x0: Matrix,
    pub logits: Matrix,
}

/// The witness, in the clear.
#[derive(Clone, Debug, PartialEq, Eq)]
pub struct InferencePiopProof {
    pub witness: Witness,
}

/// Runs the model and keeps its witness.
pub fn prove(config: &Config, weights: &ModelWeights, x0: Matrix) -> (proof: InferencePiopProof)
    requires
        model::config_fits(*config),
        weights.wf(*config),
        model::has_shape(x0, config.n_seq as nat, config.d_model as nat),
        model::forward_fits(x0.grid(), *weights, *config),
    ensures
        proof.witness.contents() == model::forward_of(x0.grid(), *weights, *config),
        proof.witness.wf(),
{
    let witness = weights.forward(x0, config);
    InferencePiopProof { witness }
}

/// The stated sums, deviation and bracket of row `r` are right.
pub open spec fn ln_row_matches(x: Grid, ln: LayerNormView, r: int) -> bool {
    let st = model::deviation(x, r);
    &&& ln.sum_x[r] == model::row_sum(x, r, x.cols)
    &&& ln.sum_x2[r] == model::square_sum(x, r, x.cols)
    &&& ln.var_sum[r] == model::variance(x, r)
    &&& ln.std[r] == st
    &&& st * st - st <= model::variance(x, r) + 1 <= st * st + st
}

/// The stated dividend, quotient and output of an entry are right.
pub open spec fn ln_entry_matches(
    x: Grid,
    gain: Seq<int>,
    bias: Seq<int>,
    ln: LayerNormView,
    r: int,
    c: int,
) -> bool {
    let a = model::centred(x, gain, r, c);
    let q = a / model::deviation(x, r);
    &&& ln.dividend.at(r, c) == a
    &&& ln.quotient.at(r, c) == q
    &&& ln.output.at(r, c) == q + bias[c]
}

/// The stated layer normalization is that of `x`.
pub open spec fn ln_matches(
    x: Grid,
    gain: Seq<int>,
    bias: Seq<int>,
    ln: LayerNormView,
) -> bool {
    &&& ln.input == x
    &&& forall|r: int| 0 <= r < x.rows ==> #[trigger] ln_row_matches(x, ln, r)
    &&& forall|r: int, c: int|
        0 <= r < x.rows && 0 <= c < x.cols ==> #[trigger] ln_entry_matches(
            x,
            gain,
            bias,
            ln,
            r,
            c,
        )
}

/// The stated tensors are large enough to be compared with those of `x`.
pub open spec fn ln_shape(ln: LayerNormWitness, x: Grid) -> bool {
    &&& ln.wf()
    &&& ln.sum_x@.len() >= x.rows
    &&& ln.sum_x2@.len() >= x.rows
    &&& ln.var_sum@.len() >= x.rows
    &&& ln.std@.len() >= x.rows
    &&& ln.dividend.height() >= x.rows
    &&& ln.dividend.width() >= x.cols
    &&& ln.quotient.height() >= x.rows
    &&& ln.quotient.width() >= x.cols
    &&& ln.output.height() >= x.rows
    &&& ln.output.width() >= x.cols
}

/// The stated layer normalization is of another input, or can be compared with that
/// of `x`.
pub open spec fn ln_checkable(
    x: Grid,
    gain: Seq<int>,
    bias: Seq<int>,
    ln: LayerNormWitness,
) -> bool {
    ln.input.grid() == x ==> {
        &&& gain.len() == x.cols
        &&& bias.len() == x.cols
        &&& model::layer_norm_fits(x, gain, bias)
        &&& ln_shape(ln, x)
    }
}

/// Checks a layer normalization entry by entry; one of another input is rejected
/// before anything is computed.
#[verifier::rlimit(40)]
pub fn verify_ln(input: &Matrix, gain: &[i64], bias: &[i64], ln: &LayerNormWitness) -> (ok: bool)
    requires
        input.wf(),
        ln_checkable(input.grid(), grid::ints(gain@), grid::ints(bias@), *ln),
    ensures
        ok == ln_matches(input.grid(), grid::ints(gain@), grid::ints(bias@), ln.contents()),
{
    let ghost x = input.grid();
    let ghost gs = grid::ints(gain@);
    let ghost bs = grid::ints(bias@);
    let ghost v = ln.contents();
    if !ln.input.same(input) {
        return false;
    }
    let honest = model::layer_norm(input, gain, bias);
    let ghost h = honest.contents();
    let (rows, cols) = (input.rows(), input.cols());
    let mut r: usize = 0;
    proof {
        assert(h.dividend == honest.dividend.grid());
        assert(h.quotient == honest.quotient.grid());
        assert(h.output == honest.output.grid());
        assert(honest.dividend.height() == rows && honest.dividend.width() == cols) by {
            assert(honest.dividend.grid().rows == rows && honest.dividend.grid().cols == cols);
        }
        assert(honest.quotient.height() == rows && honest.quotient.width() == cols) by {
            assert(honest.quotient.grid().rows == rows && honest.quotient.grid().cols == cols);
        }
        assert(honest.output.height() == rows && honest.output.width() == cols) by {
            assert(honest.output.grid().rows == rows && honest.output.grid().cols == cols);
        }
        assert(honest.sum_x@.len() == rows) by {
            assert(h.sum_x.len() == rows);
        }
        assert(honest.sum_x2@.len() == rows) by {
            assert(h.sum_x2.len() == rows);
        }
        assert(honest.var_sum@.len() == rows) by {
            assert(h.var_sum.len() == rows);
        }
        assert(honest.std@.len() == rows) by {
            assert(h.std.len() == rows);
        }
    }
    while r < rows
        invariant
            r <= rows,
            rows == input.height(),
            cols == input.width(),
            x == input.grid(),
            gs == grid::ints(gain@),
            bs == grid::ints(bias@),
            v == ln.contents(),
            h == honest.contents(),
            h == model::layer_norm_of(x, gs, bs),
            ln_shape(*ln, x),
            honest.wf(),
            honest.dividend.height() == rows,
            honest.dividend.width() == cols,
            honest.quotient.height() == rows,
            honest.quotient.width() == cols,
            honest.output.height() == rows,
            honest.output.width() == cols,
            honest.sum_x@.len() == rows,
            honest.sum_x2@.len() == rows,
            honest.var_sum@.len() == rows,
            honest.std@.len() == rows,
            forall|k: int| 0 <= k < r ==> #[trigger] ln_row_matches(x, v, k),
            forall|k: int, c: int|
                0 <= k < r && 0 <= c < cols ==> #[trigger] ln_entry_matches(x, gs, bs, v, k, c),
        decreases rows - r,
    {
        proof {
            model::law_deviation_positive(x, r as int);
            assert(h.sum_x[r as int] == honest.sum_x@[r as int]);
            assert(h.sum_x2[r as int] == honest.sum_x2@[r as int]);
            assert(h.var_sum[r as int] == honest.var_sum@[r as int]);
            assert(h.std[r as int] == honest.std@[r as int]);
            assert(v.sum_x[r as int] == ln.sum_x@[r as int]);
            assert(v.sum_x2[r as int] == ln.sum_x2@[r as int]);
            assert(v.var_sum[r as int] == ln.var_sum@[r as int]);
            assert(v.std[r as int] == ln.std@[r as int]);
        }
        if ln.sum_x[r] != honest.sum_x[r] || ln.sum_x2[r] != honest.sum_x2[r] || ln.var_sum[r]
            != honest.var_sum[r] || ln.std[r] != honest.std[r] {
            assert(!ln_row_matches(x, v, r as int));
            return false;
        }
        assert(ln_row_matches(x, v, r as int));
        let mut c: usize = 0;
        while c < cols
            invariant
                c <= cols,
                r < rows,
                rows == input.height(),
                cols == input.width(),
                x == input.grid(),
                gs == grid::ints(gain@),
                bs == grid::ints(bias@),
                v == ln.contents(),
                h == honest.contents(),
                h == model::layer_norm_of(x, gs, bs),
                ln_shape(*ln, x),
                honest.wf(),
                honest.dividend.height() == rows,
                honest.dividend.width() == cols,
                honest.quotient.height() == rows,
                honest.quotient.width() == cols,
                honest.output.height() == rows,
                honest.output.width() == cols,
                forall|k: int|
                    0 <= k < c ==> #[trigger] ln_entry_matches(x, gs, bs, v, r as int, k),
            decreases cols - c,
        {
            proof {
                lemma_norm_entries(x, gs, bs, r as int, c as int);
            }
            let dv: i64 = honest.dividend.get(r, c);
            let qv: i64 = honest.quotient.get(r, c);
            let ov: i64 = honest.output.get(r, c);
            if ln.dividend.get(r, c) != dv || ln.quotient.get(r, c) != qv || ln.output.get(r, c)
                != ov {
                assert(!ln_entry_matches(x, gs, bs, v, r as int, c as int));
                return false;
            }
            c += 1;
        }
        r += 1;
    }
    true
}

/// The entries of a layer normalization.
proof fn lemma_norm_entries(x: Grid, gain: Seq<int>, bias: Seq<int>, r: int, c: int)
    requires
        0 <= r < x.rows,
        0 <= c < x.cols,
    ensures
        ({
            let h = model::layer_norm_of(x, gain, bias);
            let q = model::centred(x, gain, r, c) / model::deviation(x, r);
            &&& h.dividend.at(r, c) == model::centred(x, gain, r, c)
            &&& h.quotient.at(r, c) == q
            &&& h.output.at(r, c) == q + bias[c]
        }),
{
    grid::lemma_cell(x.rows, x.cols, r, c);
}

/// The stated attention layer can be checked: each step can be computed where the
/// steps before it are right.
pub open spec fn attention_checkable(
    config: Config,
    weights: ModelWeights,
    residual: Grid,
    nx: Grid,
    bw: BlockWeights,
    attn: AttentionWitness,
) -> bool {
    let projected = attn.q_qkv.grid() == model::projected_inputs(nx, bw, config);
    let biased = attn.qkv.grid() == model::biased_inputs(nx, bw, config);
    &&& nx.rows == config.n_seq
    &&& nx.cols == config.d_model
    &&& grid::product_fits(nx, bw.attn_w.grid())
    &&& projected ==> model::biased_inputs(nx, bw, config).fits()
    &&& projected && biased ==> {
        &&& model::layer_norm_fits(residual, grid::ints(bw.ln_1_g@), grid::ints(bw.ln_1_b@))
        &&& model::attention_fits(
            residual,
            first_norm(residual, bw).output,
            bw,
            weights,
            config,
        )
    }
}

/// Checks an attention layer against the one computed from the residual stream.
pub fn verify_attention(
    config: &Config,
    weights: &ModelWeights,
    residual: &Matrix,
    nx: &Matrix,
    bw: &BlockWeights,
    attn: &AttentionWitness,
) -> (ok: bool)
    requires
        model::config_fits(*config),
        bw.wf(*config),
        model::has_shape(*residual, config.n_seq as nat, config.d_model as nat),
        nx.wf(),
        attn.wf(),
        attention_checkable(*config, *weights, residual.grid(), nx.grid(), *bw, *attn),
    ensures
        ok == attention_matches(
            *config,
            *weights,
            residual.grid(),
            nx.grid(),
            *bw,
            *attn,
        ),
{
    let q_qkv = nx.matmul(&bw.attn_w).floor_div_const(config.scale);
    if !attn.q_qkv.same(&q_qkv) {
        return false;
    }
    assert(attn.q_qkv.grid().cols == 3 * config.d_model);
    if !attn.qkv.same(&attn.q_qkv.add_row_vector(bw.attn_b.as_slice())) {
        return false;
    }
    let ln = model::layer_norm(residual, bw.ln_1_g.as_slice(), bw.ln_1_b.as_slice());
    assert(ln.contents().output == ln.output.grid());
    assert(ln.output.grid().rows == config.n_seq && ln.output.grid().cols == config.d_model);
    let got = model::attention(residual, &ln.output, bw, weights, config);
    attn.same(&got)
}

/// The first normalization of a block.
pub open spec fn first_norm(x: Grid, bw: BlockWeights) -> LayerNormView {
    model::layer_norm_of(x, grid::ints(bw.ln_1_g@), grid::ints(bw.ln_1_b@))
}

/// The stated attention layer follows from `nx`, and is the one computed from the
/// residual stream.
pub open spec fn attention_matches(
    config: Config,
    weights: ModelWeights,
    residual: Grid,
    nx: Grid,
    bw: BlockWeights,
    attn: AttentionWitness,
) -> bool {
    &&& attn.q_qkv.grid() == model::projected_inputs(nx, bw, config)
    &&& attn.qkv.grid() == model::biased_inputs(nx, bw, config)
    &&& attn.contents() == model::attention_of(
        residual,
        first_norm(residual, bw).output,
        bw,
        weights,
        config,
    )
}

/// Every table index of the hidden values is in range.
pub open spec fn gelu_in_range(fc: Grid, weights: ModelWeights, config: Config) -> bool {
    forall|r: int, c: int|
        0 <= r < fc.rows && 0 <= c < fc.cols ==> 0 <= #[trigger] fc.at(r, c)
            + config.table_offset() < weights.gelu_lut@.len()
}

/// The stated feed-forward layer is the one computed from `nx`.
pub open spec fn mlp_matches(
    config: Config,
    weights: ModelWeights,
    residual: Grid,
    nx: Grid,
    bw: BlockWeights,
    mlp: MlpView,
) -> bool {
    &&& gelu_in_range(model::hidden_values(nx, bw, config), weights, config)
    &&& mlp == model::mlp_of(residual, nx, bw, weights, config)
}

/// Checks the activations against the table.
fn check_activations(
    config: &Config,
    weights: &ModelWeights,
    fc: &Matrix,
    act: &Matrix,
) -> (ok: bool)
    requires
        model::config_fits(*config),
        model::has_shape(*fc, config.n_seq as nat, config.mlp_hidden as nat),
        model::has_shape(*act, config.n_seq as nat, config.mlp_hidden as nat),
        forall|r: int, c: int|
            0 <= r < config.n_seq && 0 <= c < config.mlp_hidden ==> grid::in_i64(
                #[trigger] fc.grid().at(r, c) + config.table_offset(),
            ),
    ensures
        ok == (gelu_in_range(fc.grid(), *weights, *config) && act.grid() == model::activations(
            fc.grid(),
            *weights,
            *config,
        )),
{
    let ghost g = fc.grid();
    let ghost want = model::activations(g, *weights, *config);
    let offset: i64 = config.max_v * config.scale;
    let (n, m) = (config.n_seq, config.mlp_hidden);
    assert(weights.gelu_lut.len() == weights.gelu_lut@.len());
    let mut r: usize = 0;
    while r < n
        invariant
            r <= n,
            n == config.n_seq,
            m == config.mlp_hidden,
            offset == config.table_offset(),
            model::has_shape(*fc, n as nat, m as nat),
            model::has_shape(*act, n as nat, m as nat),
            g == fc.grid(),
            want == model::activations(g, *weights, *config),
            weights.gelu_lut@.len() <= usize::MAX,
            forall|r: int, c: int|
                0 <= r < n && 0 <= c < m ==> grid::in_i64(#[trigger] g.at(r, c) + offset),
            forall|k: int, c: int|
                0 <= k < r && 0 <= c < m ==> 0 <= #[trigger] g.at(k, c) + offset
                    < weights.gelu_lut@.len(),
            forall|k: int, c: int|
                0 <= k < r && 0 <= c < m ==> #[trigger] act.grid().at(k, c) == want.at(k, c),
        decreases n - r,
    {
        let mut c: usize = 0;
        while c < m
            invariant
                r < n,
                c <= m,
                n == config.n_seq,
                m == config.mlp_hidden,
                offset == config.table_offset(),
                model::has_shape(*fc, n as nat, m as nat),
                model::has_shape(*act, n as nat, m as nat),
                g == fc.grid(),
                want == model::activations(g, *weights, *config),
                weights.gelu_lut@.len() <= usize::MAX,
                forall|r: int, c: int|
                    0 <= r < n && 0 <= c < m ==> grid::in_i64(#[trigger] g.at(r, c) + offset),
                forall|k: int|
                    0 <= k < c ==> 0 <= #[trigger] g.at(r as int, k) + offset
                        < weights.gelu_lut@.len(),
                forall|k: int|
                    0 <= k < c ==> #[trigger] act.grid().at(r as int, k) == want.at(r as int, k),
            decreases m - c,
        {
            proof {
                grid::lemma_cell(n as nat, m as nat, r as int, c as int);
                assert(grid::in_i64(g.at(r as int, c as int) + offset));
            }
            let idx: i64 = fc.get(r, c) + offset;
            if idx < 0 || idx as u64 >= weights.gelu_lut.len() as u64 {
                assert(!(0 <= g.at(r as int, c as int) + offset < weights.gelu_lut@.len()));
                assert(!gelu_in_range(g, *weights, *config));
                return false;
            }
            if act.get(r, c) != weights.gelu_lut[idx as usize] {
                assert(act.grid().at(r as int, c as int) != want.at(r as int, c as int));
                return false;
            }
            c += 1;
        }
        r += 1;
    }
    proof {
        grid::lemma_grid_equal(act.grid(), want);
    }
    true
}

/// Checks a feed-forward layer.
pub fn verify_mlp(
    config: &Config,
    weights: &ModelWeights,
    residual: &Matrix,
    nx: &Matrix,
    bw: &BlockWeights,
    mlp: &MlpWitness,
) -> (ok: bool)
    requires
        model::config_fits(*config),
        bw.wf(*config),
        model::has_shape(*residual, config.n_seq as nat, config.d_model as nat),
        nx.wf(),
        mlp.wf(),
        mlp_checkable(*config, *weights, residual.grid(), nx.grid(), *bw, *mlp),
    ensures
        ok == mlp_matches(
            *config,
            *weights,
            residual.grid(),
            nx.grid(),
            *bw,
            mlp.contents(),
        ),
{
    let ghost want = model::mlp_of(residual.grid(), nx.grid(), *bw, *weights, *config);
    let q_fc = nx.matmul(&bw.fc_w).floor_div_const(config.scale);
    if !mlp.q_fc.same(&q_fc) {
        return false;
    }
    assert(mlp.q_fc.grid().rows == config.n_seq && mlp.q_fc.grid().cols == config.mlp_hidden);
    let fc = mlp.q_fc.add_row_vector(bw.fc_b.as_slice());
    if !mlp.fc.same(&fc) {
        return false;
    }
    assert(fc.grid() == model::hidden_values(nx.grid(), *bw, *config));
    assert(mlp.fc.grid().rows == config.n_seq && mlp.fc.grid().cols == config.mlp_hidden);
    if !check_activations(config, weights, &mlp.fc, &mlp.act) {
        return false;
    }
    assert(mlp.act.grid() == want.act);
    let q_fpr = mlp.act.matmul(&bw.fproj_w).floor_div_const(config.scale);
    if !mlp.q_fpr.same(&q_fpr) {
        return false;
    }
    assert(mlp.q_fpr.grid().rows == config.n_seq && mlp.q_fpr.grid().cols == config.d_model);
    let projected = mlp.q_fpr.add_row_vector(bw.fproj_b.as_slice());
    assert(projected.grid().rows == config.n_seq && projected.grid().cols == config.d_model);
    residual.add_matrix(&projected).same(&mlp.x_out)
}

/// The stated feed-forward layer can be checked: each step can be computed where the
/// steps before it are right.
pub open spec fn mlp_checkable(
    config: Config,
    weights: ModelWeights,
    residual: Grid,
    nx: Grid,
    bw: BlockWeights,
    mlp: MlpWitness,
) -> bool {
    let fc = model::hidden_values(nx, bw, config);
    let v = model::mlp_of(residual, nx, bw, weights, config);
    let projected = grid::add_row(v.q_fpr, grid::ints(bw.fproj_b@));
    &&& nx.rows == config.n_seq
    &&& nx.cols == config.d_model
    &&& grid::product_fits(nx, bw.fc_w.grid())
    &&& mlp.q_fc.grid() == v.q_fc ==> fc.fits()
    &&& mlp.q_fc.grid() == v.q_fc && mlp.fc.grid() == fc ==> {
        &&& model::has_shape(mlp.act, config.n_seq as nat, config.mlp_hidden as nat)
        &&& forall|r: int, c: int|
            0 <= r < config.n_seq && 0 <= c < config.mlp_hidden ==> grid::in_i64(
                #[trigger] fc.at(r, c) + config.table_offset(),
            )
        &&& gelu_in_range(fc, weights, config) && mlp.act.grid() == v.act ==> {
            &&& grid::product_fits(v.act, bw.fproj_w.grid())
            &&& mlp.q_fpr.grid() == v.q_fpr ==> projected.fits() && grid::add_grid(
                residual,
                projected,
            ).fits()
        }
    }
}

/// The stream that a witness states before block `k`.
pub open spec fn stated_stream(w: Witness, k: int) -> Grid {
    if k == 0 {
        w.x0.grid()
    } else {
        w.blocks@[k - 1].mlp.x_out.grid()
    }
}

/// Block `k` of the witness is right, given the stream that it states.
pub open spec fn block_matches(
    config: Config,
    weights: ModelWeights,
    w: Witness,
    k: int,
) -> bool {
    let x = stated_stream(w, k);
    let b = w.blocks@[k];
    let bw = weights.blocks@[k];
    &&& ln_matches(x, grid::ints(bw.ln_1_g@), grid::ints(bw.ln_1_b@), b.ln1.contents())
    &&& attention_matches(config, weights, x, b.ln1.output.grid(), bw, b.attention)
    &&& ln_matches(
        b.attention.x_out.grid(),
        grid::ints(bw.ln_2_g@),
        grid::ints(bw.ln_2_b@),
        b.ln2.contents(),
    )
    &&& mlp_matches(
        config,
        weights,
        b.attention.x_out.grid(),
        b.ln2.output.grid(),
        bw,
        b.mlp.contents(),
    )
}

/// Every step that the witness states is right.
pub open spec fn witness_matches(config: Config, weights: ModelWeights, w: Witness) -> bool {
    let last = stated_stream(w, w.blocks@.len() as int);
    &&& forall|k: int|
        0 <= k < w.blocks@.len() ==> #[trigger] block_matches(config, weights, w, k)
    &&& ln_matches(
        last,
        grid::ints(weights.ln_f_g@),
        grid::ints(weights.ln_f_b@),
        w.lnf.contents(),
    )
    &&& w.q_log.grid() == grid::floor_div(
        grid::product_transposed(w.lnf.output.grid(), weights.wte.grid()),
        config.scale as int,
    )
}

/// The steps of block `k` can be checked, each where those before it are right.
pub open spec fn block_checkable(
    config: Config,
    weights: ModelWeights,
    w: Witness,
    k: int,
) -> bool {
    let x = stated_stream(w, k);
    let b = w.blocks@[k];
    let bw = weights.blocks@[k];
    let y = b.attention.x_out.grid();
    let (g1, b1) = (grid::ints(bw.ln_1_g@), grid::ints(bw.ln_1_b@));
    let (g2, b2) = (grid::ints(bw.ln_2_g@), grid::ints(bw.ln_2_b@));
    let first = ln_matches(x, g1, b1, b.ln1.contents());
    let second = attention_matches(config, weights, x, b.ln1.output.grid(), bw, b.attention);
    let third = ln_matches(y, g2, b2, b.ln2.contents());
    &&& b.wf()
    &&& ln_checkable(x, g1, b1, b.ln1)
    &&& first ==> attention_checkable(
        config,
        weights,
        x,
        b.ln1.output.grid(),
        bw,
        b.attention,
    )
    &&& first && second ==> ln_checkable(y, g2, b2, b.ln2)
    &&& first && second && third ==> mlp_checkable(
        config,
        weights,
        y,
        b.ln2.output.grid(),
        bw,
        b.mlp,
    )
}

/// The first `k` blocks of the witness are right.
pub open spec fn blocks_match(config: Config, weights: ModelWeights, w: Witness, k: int) -> bool {
    forall|j: int| 0 <= j < k ==> #[trigger] block_matches(config, weights, w, j)
}

/// The steps of a witness can be checked, each where those before it are right.
pub open spec fn witness_checkable(config: Config, weights: ModelWeights, w: Witness) -> bool {
    let last = stated_stream(w, w.blocks@.len() as int);
    let (gain, bias) = (grid::ints(weights.ln_f_g@), grid::ints(weights.ln_f_b@));
    &&& w.blocks@.len() <= weights.blocks@.len()
    &&& model::has_shape(w.x0, config.n_seq as nat, config.d_model as nat)
    &&& forall|k: int|
        0 <= k < w.blocks@.len() && blocks_match(config, weights, w, k)
            ==> #[trigger] block_checkable(config, weights, w, k)
    &&& blocks_match(config, weights, w, w.blocks@.len() as int) ==> {
        &&& ln_checkable(last, gain, bias, w.lnf)
        &&& ln_matches(last, gain, bias, w.lnf.contents()) ==> {
            &&& model::has_shape(w.lnf.output, config.n_seq as nat, config.d_model as nat)
            &&& grid::product_transposed_fits(w.lnf.output.grid(), weights.wte.grid())
        }
    }
}

/// Checks block `k` of a witness.
fn verify_block(
    config: &Config,
    weights: &ModelWeights,
    witness: &Witness,
    x: &Matrix,
    k: usize,
) -> (ok: bool)
    requires
        model::config_fits(*config),
        weights.wf(*config),
        k < witness.blocks@.len(),
        witness.blocks@.len() <= weights.blocks@.len(),
        x.grid() == stated_stream(*witness, k as int),
        model::has_shape(*x, config.n_seq as nat, config.d_model as nat),
        block_checkable(*config, *weights, *witness, k as int),
    ensures
        ok == block_matches(*config, *weights, *witness, k as int),
{
    let block = &witness.blocks[k];
    let bw = &weights.blocks[k];
    assert(weights.blocks@[k as int].wf(*config));
    if !verify_ln(x, bw.ln_1_g.as_slice(), bw.ln_1_b.as_slice(), &block.ln1) {
        return false;
    }
    if !verify_attention(config, weights, x, &block.ln1.output, bw, &block.attention) {
        return false;
    }
    if !verify_ln(
        &block.attention.x_out,
        bw.ln_2_g.as_slice(),
        bw.ln_2_b.as_slice(),
        &block.ln2,
    ) {
        return false;
    }
    verify_mlp(
        config,
        weights,
        &block.attention.x_out,
        &block.ln2.output,
        bw,
        &block.mlp,
    )
}

/// Checks every step that a witness states.
pub fn verify_witness(config: &Config, weights: &ModelWeights, witness: &Witness) -> (ok: bool)
    requires
        model::config_fits(*config),
        weights.wf(*config),
        witness_checkable(*config, *weights, *witness),
    ensures
        ok == witness_matches(*config, *weights, *witness),
{
    let mut x = &witness.x0;
    let mut k: usize = 0;
    while k < witness.blocks.len()
        invariant
            k <= witness.blocks.len(),
            model::config_fits(*config),
            weights.wf(*config),
            witness_checkable(*config, *weights, *witness),
            x.grid() == stated_stream(*witness, k as int),
            model::has_shape(*x, config.n_seq as nat, config.d_model as nat),
            blocks_match(*config, *weights, *witness, k as int),
        decreases witness.blocks.len() - k,
    {
        assert(block_checkable(*config, *weights, *witness, k as int));
        if !verify_block(config, weights, witness, x, k) {
            return false;
        }
        x = &witness.blocks[k].mlp.x_out;
        k += 1;
    }
    if !verify_ln(x, weights.ln_f_g.as_slice(), weights.ln_f_b.as_slice(), &witness.lnf) {
        return false;
    }
    let logits = witness.lnf.output.matmul_transposed_rhs(&weights.wte).floor_div_const(
        config.scale,
    );
    witness.q_log.same(&logits)
}

/// The proof is accepted: it states the public input and output, every step of its
/// witness is right, and the witness is that of the model.
pub open spec fn accepted(
    config: Config,
    weights: ModelWeights,
    public: PublicInput,
    proof: InferencePiopProof,
) -> bool {
    &&& proof.witness.x0.grid() == public.x0.grid()
    &&& proof.witness.q_log.grid() == public.logits.grid()
    &&& witness_matches(config, weights, proof.witness)
    &&& proof.witness.contents() == model::forward_of(public.x0.grid(), weights, config)
}

/// Verifies a proof: compares it with the public data, checks every step that it states,
/// and compares it with the model's own witness. A proof of other public data is rejected
/// before a step is checked, and one with a wrong step before the model is run.
pub fn verify(
    config: &Config,
    weights: &ModelWeights,
    public: &PublicInput,
    proof: &InferencePiopProof,
) -> (ok: bool)
    requires
        proof.witness.wf(),
        proof.witness.x0.grid() == public.x0.grid() && proof.witness.q_log.grid()
            == public.logits.grid() ==> {
            &&& model::config_fits(*config)
            &&& weights.wf(*config)
            &&& witness_checkable(*config, *weights, proof.witness)
            &&& witness_matches(*config, *weights, proof.witness) ==> {
                &&& model::has_shape(public.x0, config.n_seq as nat, config.d_model as nat)
                &&& model::forward_fits(public.x0.grid(), *weights, *config)
            }
        },
    ensures
        ok == accepted(*config, *weights, *public, *proof),
{
    if !proof.witness.x0.same(&public.x0) || !proof.witness.q_log.same(&public.logits) {
        return false;
    }
    if !verify_witness(config, weights, &proof.witness) {
        return false;
    }
    let expected = weights.forward(public.x0.copy(), config);
    expected.same(&proof.witness)
}

/// The witness of the forward pass can be checked, and passes every check.
pub proof fn law_honest_witness_passes(
    config: Config,
    weights: ModelWeights,
    x0: Grid,
    w: Witness,
)
    requires
        model::config_fits(config),
        weights.wf(config),
        w.wf(),
        x0.rows == config.n_seq,
        x0.cols == config.d_model,
        model::forward_fits(x0, weights, config),
        w.contents() == model::forward_of(x0, weights, config),
    ensures
        witness_checkable(config, weights, w),
        witness_matches(config, weights, w),
{
    lemma_honest_witness(config, weights, x0, w);
}

/// Completeness: the proof that the prover makes is accepted for the input and its
/// logits.
pub proof fn law_complete(
    config: Config,
    weights: ModelWeights,
    public: PublicInput,
    proof: InferencePiopProof,
)
    requires
        model::config_fits(config),
        weights.wf(config),
        model::has_shape(public.x0, config.n_seq as nat, config.d_model as nat),
        model::forward_fits(public.x0.grid(), weights, config),
        proof.witness.wf(),
        proof.witness.contents() == model::forward_of(public.x0.grid(), weights, config),
        public.logits.grid() == proof.witness.q_log.grid(),
    ensures
        accepted(config, weights, public, proof),
{
    law_honest_witness_passes(config, weights, public.x0.grid(), proof.witness);
    assert(proof.witness.contents().x0 == proof.witness.x0.grid());
}

/// An honest layer normalization has its shape and passes its check.
proof fn lemma_honest_ln(ln: LayerNormWitness, x: Grid, gain: Seq<int>, bias: Seq<int>)
    requires
        ln.wf(),
        ln.contents() == model::layer_norm_of(x, gain, bias),
    ensures
        ln_shape(ln, x),
        ln_matches(x, gain, bias, ln.contents()),
        model::has_shape(ln.output, x.rows, x.cols),
        ln.output.grid() == model::layer_norm_of(x, gain, bias).output,
{
    let v = ln.contents();
    assert(v.sum_x.len() == ln.sum_x@.len());
    assert(v.sum_x2.len() == ln.sum_x2@.len());
    assert(v.var_sum.len() == ln.var_sum@.len());
    assert(v.std.len() == ln.std@.len());
    assert(v.dividend == ln.dividend.grid());
    assert(v.quotient == ln.quotient.grid());
    assert(v.output == ln.output.grid());
    assert forall|r: int| 0 <= r < x.rows implies #[trigger] ln_row_matches(x, v, r) by {
        model::law_deviation_positive(x, r);
    }
    assert forall|r: int, c: int|
        0 <= r < x.rows && 0 <= c < x.cols implies #[trigger] ln_entry_matches(
        x,
        gain,
        bias,
        v,
        r,
        c,
    ) by {
        lemma_norm_entries(x, gain, bias, r, c);
    }
}

/// An honest feed-forward layer can be checked and passes.
proof fn lemma_honest_mlp(
    config: Config,
    weights: ModelWeights,
    residual: Grid,
    nx: Grid,
    bw: BlockWeights,
    mlp: MlpWitness,
)
    requires
        bw.wf(config),
        nx.rows == config.n_seq,
        nx.cols == config.d_model,
        model::mlp_fits(residual, nx, bw, weights, config),
        mlp.wf(),
        mlp.contents() == model::mlp_of(residual, nx, bw, weights, config),
    ensures
        mlp_checkable(config, weights, residual, nx, bw, mlp),
        gelu_in_range(model::hidden_values(nx, bw, config), weights, config),
{
    let fc = model::hidden_values(nx, bw, config);
    assert(mlp.contents().act == mlp.act.grid());
    assert forall|r: int, c: int|
        0 <= r < config.n_seq && 0 <= c < config.mlp_hidden implies grid::in_i64(
        #[trigger] fc.at(r, c) + config.table_offset(),
    ) by {
        assert(model::gelu_fits(fc, weights, config, r, c));
    }
    assert forall|r: int, c: int| 0 <= r < fc.rows && 0 <= c < fc.cols implies 0
        <= #[trigger] fc.at(r, c) + config.table_offset() < weights.gelu_lut@.len() by {
        assert(model::gelu_fits(fc, weights, config, r, c));
    }
}

/// Block `k` of an honest witness can be checked and passes.
#[verifier::rlimit(40)]
proof fn lemma_honest_block(
    config: Config,
    weights: ModelWeights,
    w: Witness,
    x: Grid,
    k: int,
)
    requires
        model::config_fits(config),
        weights.wf(config),
        w.wf(),
        0 <= k < w.blocks@.len(),
        w.blocks@.len() <= weights.blocks@.len(),
        x == stated_stream(w, k),
        x.rows == config.n_seq,
        x.cols == config.d_model,
        model::block_fits(x, weights.blocks@[k], weights, config),
        w.blocks@[k].contents() == model::block_of(x, weights.blocks@[k], weights, config),
    ensures
        block_checkable(config, weights, w, k),
        block_matches(config, weights, w, k),
        w.blocks@[k].mlp.x_out.grid().rows == config.n_seq,
        w.blocks@[k].mlp.x_out.grid().cols == config.d_model,
{
    let b = w.blocks@[k];
    let bw = weights.blocks@[k];
    let v = model::block_of(x, bw, weights, config);
    assert(b.wf());
    assert(bw.wf(config));
    assert(b.contents().ln1 == b.ln1.contents());
    assert(b.contents().attention == b.attention.contents());
    assert(b.contents().ln2 == b.ln2.contents());
    assert(b.contents().mlp == b.mlp.contents());
    lemma_honest_ln(b.ln1, x, grid::ints(bw.ln_1_g@), grid::ints(bw.ln_1_b@));
    let y = b.attention.x_out.grid();
    assert(b.attention.contents().x_out == y);
    assert(y == v.attention.x_out);
    assert(y.rows == x.rows && y.cols == x.cols);
    lemma_honest_ln(b.ln2, y, grid::ints(bw.ln_2_g@), grid::ints(bw.ln_2_b@));
    assert(b.attention.contents().q_qkv == b.attention.q_qkv.grid());
    assert(b.attention.contents().qkv == b.attention.qkv.grid());
    lemma_honest_mlp(config, weights, y, b.ln2.output.grid(), bw, b.mlp);
    assert(b.mlp.contents().act == b.mlp.act.grid());
    assert(b.mlp.contents().x_out == b.mlp.x_out.grid());
}

/// An honest witness can be checked and passes.
proof fn lemma_honest_witness(config: Config, weights: ModelWeights, x0: Grid, w: Witness)
    requires
        model::config_fits(config),
        weights.wf(config),
        w.wf(),
        x0.rows == config.n_seq,
        x0.cols == config.d_model,
        model::forward_fits(x0, weights, config),
        w.contents() == model::forward_of(x0, weights, config),
    ensures
        witness_checkable(config, weights, w),
        witness_matches(config, weights, w),
{
    let v = model::forward_of(x0, weights, config);
    let n = weights.blocks@.len();
    assert(w.contents().x0 == w.x0.grid());
    assert(w.contents().blocks.len() == w.blocks@.len());
    assert(w.blocks@.len() == n);
    lemma_streams(config, weights, x0, w, n as int);
    assert forall|k: int| 0 <= k < n implies #[trigger] block_checkable(config, weights, w, k)
        && block_matches(config, weights, w, k) by {
        lemma_streams(config, weights, x0, w, k);
        assert(model::block_fits(
            model::stream(x0, weights, config, k as nat),
            weights.blocks@[k],
            weights,
            config,
        ));
        assert(w.contents().blocks[k] == w.blocks@[k].contents());
        lemma_honest_block(config, weights, w, stated_stream(w, k), k);
    }
    assert forall|k: int| 0 <= k < n implies #[trigger] block_matches(config, weights, w, k) by {
        assert(block_checkable(config, weights, w, k));
    }
    let last = stated_stream(w, n as int);
    assert(w.contents().lnf == w.lnf.contents());
    lemma_honest_ln(w.lnf, last, grid::ints(weights.ln_f_g@), grid::ints(weights.ln_f_b@));
    assert(w.contents().q_log == w.q_log.grid());
}

/// The streams that an honest witness states.
proof fn lemma_streams(
    config: Config,
    weights: ModelWeights,
    x0: Grid,
    w: Witness,
    k: int,
)
    requires
        model::config_fits(config),
        weights.wf(config),
        w.wf(),
        x0.rows == config.n_seq,
        x0.cols == config.d_model,
        model::forward_fits(x0, weights, config),
        w.contents() == model::forward_of(x0, weights, config),
        0 <= k <= weights.blocks@.len(),
    ensures
        stated_stream(w, k) == model::stream(x0, weights, config, k as nat),
        stated_stream(w, k).rows == config.n_seq,
        stated_stream(w, k).cols == config.d_model,
    decreases k,
{
    assert(w.contents().x0 == w.x0.grid());
    assert(w.contents().blocks.len() == w.blocks@.len());
    if k > 0 {
        let j = k - 1;
        lemma_streams(config, weights, x0, w, j);
        assert(model::block_fits(
            model::stream(x0, weights, config, j as nat),
            weights.blocks@[j],
            weights,
            config,
        ));
        assert(w.contents().blocks[j] == w.blocks@[j].contents());
        lemma_honest_block(config, weights, w, stated_stream(w, j), j);
        assert(w.blocks@[j].contents().mlp == w.blocks@[j].mlp.contents());
        assert(w.blocks@[j].mlp.contents().x_out == w.blocks@[j].mlp.x_out.grid());
    }
}

} // verus!
