//! Every query row of a forward pass is a row of the lookup table.
use vstd::prelude::*;
use vstd::arithmetic::div_mod;
use vstd::arithmetic::power2;
use vstd::arithmetic::power2::pow2;
use crate::algebra;
use crate::field::{Field, Goldilocks, GoldilocksExt2};
use crate::multilinear;
use crate::prime;
use crate::proofsys::canonical;
use crate::proofsys::canonical::Kind;
use crate::proofsys::commit;
use crate::proofsys::completeness;
use crate::proofsys::faithful::commitments;
use crate::proofsys::faithful::completeness::cells;
use crate::proofsys::faithful::completeness::committed;
use crate::proofsys::faithful::completeness::opened;
use crate::proofsys::faithful::completeness::query;
use crate::proofsys::faithful::openings;
use crate::proofsys::faithful::operands;
use crate::proofsys::faithful::segments;
use crate::proofsys::faithful::segments::{CheckView, DescView, Mm, TypeAOp};
use crate::proofsys::faithful::sources;
use crate::proofsys::faithful::table;
use crate::proofsys::faithful::table::{Row, LIMB16_SIZE, RANGE13_SIZE};
use crate::proofsys::faithful::values;
use crate::proofsys::grid;
use crate::proofsys::grid::Grid;
use crate::proofsys::model;
use crate::proofsys::model::ModelWeights;
use crate::proofsys::protocol::EF;
use crate::proofsys::witness::{AttentionView, Config, WitnessView};

verus! {

/// The integer of an embedded number.
proof fn lemma_embedded_residue(v: int)
    requires
        0 <= v < prime::p(),
    ensures
        values::residue(EF::embed(v)) == v,
{
    broadcast use GoldilocksExt2::lemma_pair;
    broadcast use Goldilocks::lemma_of_int;

    div_mod::lemma_small_mod(v as nat, prime::p() as nat);
}

/// The table has fewer rows than the field has elements.
proof fn lemma_table_size(config: Config, w: ModelWeights)
    requires
        table::table_fits(config, w),
    ensures
        table::real_rows(config, w) <= table::table_len(config, w) < prime::p(),
{
    commit::lemma_ceil_pow(table::real_rows(config, w) as int);
    let n = table::table_bits(config, w);
    if n >= 64 {
        multilinear::lemma_pow2_mono(64, n);
        power2::lemma2_to64();
    } else {
        multilinear::lemma_pow2_mono(n, 63);
        power2::lemma2_to64_rest();
    }
}

/// A row whose input and output are the table's is listed.
proof fn lemma_listed(
    d: DescView,
    polys: Map<Seq<char>, Seq<EF>>,
    config: Config,
    w: ModelWeights,
    wit: WitnessView,
    i: int,
    v: int,
    out: int,
)
    requires
        table::table_fits(config, w),
        values::row_input(d, polys, config, w, wit, i) == EF::embed(v),
        values::row_output(d, polys, i) == EF::embed(out),
        0 <= v,
        0 <= d.base,
        d.base + v < table::real_rows(config, w),
        table::row_at(config, w, d.base + v) == (Row { input: v, output: out, ty: d.ty }),
    ensures
        query::row_listed(d, polys, config, w, wit, i),
{
    lemma_table_size(config, w);
    lemma_embedded_residue(v);
}

/// The parts of a position in a kind's polynomial.
spec fn inst_of(config: Config, kind: Kind, i: int) -> int {
    i / pow2(canonical::elem_bits(config, kind)) as int
}

spec fn row_of(config: Config, kind: Kind, i: int) -> int {
    (i % pow2(canonical::elem_bits(config, kind)) as int) / pow2(
        canonical::col_bits(config, kind),
    ) as int
}

spec fn col_of(config: Config, kind: Kind, i: int) -> int {
    (i % pow2(canonical::elem_bits(config, kind)) as int) % pow2(
        canonical::col_bits(config, kind),
    ) as int
}

/// The integer at a position of a kind's polynomial.
spec fn value_of(wit: WitnessView, config: Config, kind: Kind, i: int) -> int {
    let (n, r, c) = (
        inst_of(config, kind, i),
        row_of(config, kind, i),
        col_of(config, kind, i),
    );
    if n < canonical::dims(config, kind).0 {
        cells::entry(canonical::instance_of(wit, config, kind, n), kind.padding(), r, c)
    } else {
        kind.padding()
    }
}

proof fn lemma_value_of(wit: WitnessView, config: Config, kind: Kind, i: int)
    requires
        canonical::sizes_fit(config),
        0 <= i < pow2(canonical::all_bits(config, kind)),
    ensures
        0 <= inst_of(config, kind, i) < pow2(canonical::inst_bits(config, kind)),
        0 <= row_of(config, kind, i) < pow2(canonical::row_bits(config, kind)),
        0 <= col_of(config, kind, i) < pow2(canonical::col_bits(config, kind)),
        i == inst_of(config, kind, i) * pow2(canonical::elem_bits(config, kind)) + (row_of(
            config,
            kind,
            i,
        ) * pow2(canonical::col_bits(config, kind)) + col_of(config, kind, i)),
        canonical::kind_table(wit, config, kind)[i] == EF::embed(value_of(wit, config, kind, i)),
{
    let (cb, rb, ib) = (
        canonical::col_bits(config, kind),
        canonical::row_bits(config, kind),
        canonical::inst_bits(config, kind),
    );
    cells::lemma_row_bound(cb + rb, ib, i);
    cells::lemma_row_bound(cb, rb, i % pow2(cb + rb) as int);
    cells::lemma_kind_entry(
        wit,
        config,
        kind,
        inst_of(config, kind, i),
        row_of(config, kind, i),
        col_of(config, kind, i),
    );
}

/// The shares and the sums of a head lie in the table's ranges.
pub open spec fn head_in_range(config: Config, a: AttentionView, h: int) -> bool {
    &&& forall|r: int, c: int|
        0 <= r < config.n_seq && 0 <= c < config.n_seq ==> 0 <= #[trigger] canonical::face(
            a.q_prob[h],
        ).at(r, c) < RANGE13_SIZE
    &&& forall|r: int|
        0 <= r < config.n_seq ==> #[trigger] a.sum_exp[h].at(r, 0) <= table::softmax_range(config)
}

/// The shares and the sums of all heads lie in the table's ranges.
pub open spec fn heads_in_range(config: Config, wit: WitnessView) -> bool {
    forall|l: int, h: int|
        0 <= l < config.n_layer && 0 <= h < config.n_head ==> #[trigger] head_in_range(
            config,
            wit.blocks[l].attention,
            h,
        )
}

/// The activations' polynomial has padding.
pub open spec fn activations_padded(config: Config) -> bool {
    ||| config.mlp_hidden != commit::ceil_pow(config.mlp_hidden as int)
    ||| config.n_layer != commit::ceil_pow(config.n_layer as int)
}

/// The tables' index zero is not offset below them, and the activation maps zero to zero,
/// if there is padding.
pub open spec fn activation_neutral(config: Config, w: ModelWeights) -> bool {
    &&& config.table_offset() >= 0
    &&& activations_padded(config) ==> config.table_offset() < w.gelu_lut@.len()
        && w.gelu_lut@[config.table_offset()] == 0
}

/// The rows of the shares are listed.
pub proof fn lemma_shares_listed(
    config: Config,
    w: ModelWeights,
    wit: WitnessView,
    polys: Map<Seq<char>, Seq<EF>>,
)
    requires
        segments::segments_fit(config, w),
        canonical::witness_shaped(wit, config),
        heads_in_range(config, wit),
        committed::tensors_committed(config, w, wit, polys),
    ensures
        query::rows_listed(segments::share_desc(config), polys, config, w, wit),
{
    let d = segments::share_desc(config);
    let kind = Kind::QProb;
    assert forall|i: int| 0 <= i < pow2(d.vars) implies #[trigger] query::row_listed(
        d,
        polys,
        config,
        w,
        wit,
        i,
    ) by {
        lemma_value_of(wit, config, kind, i);
        let v = value_of(wit, config, kind, i);
        let n = inst_of(config, kind, i);
        if n < canonical::dims(config, kind).0 {
            grid::lemma_position(config.n_layer as nat, config.n_head as nat, n);
            let (l, h) = (n / config.n_head as int, n % config.n_head as int);
            assert(head_in_range(config, wit.blocks[l].attention, h));
            assert(canonical::block_shaped(wit.blocks[l], config));
            assert(canonical::head_shaped(wit.blocks[l].attention, config, h));
            let (r, c) = (row_of(config, kind, i), col_of(config, kind, i));
            if r < config.n_seq && c < config.n_seq {
                assert(0 <= canonical::face(wit.blocks[l].attention.q_prob[h]).at(r, c)
                    < RANGE13_SIZE);
            }
        }
        assert(polys[kind.text()] == canonical::kind_table(wit, config, kind));
        EF::law_embed(v, 0);
        EF::law_embed(0, 0);
        assert(0 <= v < RANGE13_SIZE);
        lemma_listed(d, polys, config, w, wit, i, v, 0);
    }
}

/// The rows of the limbs are listed.
pub proof fn lemma_limbs_listed(
    config: Config,
    w: ModelWeights,
    wit: WitnessView,
    polys: Map<Seq<char>, Seq<EF>>,
    c: CheckView,
)
    requires
        segments::segments_fit(config, w),
        polys[c.limbs] == commitments::limb_table(c, polys, config),
    ensures
        query::rows_listed(segments::limb_desc(config, c), polys, config, w, wit),
{
    let d = segments::limb_desc(config, c);
    assert forall|i: int| 0 <= i < pow2(d.vars) implies #[trigger] query::row_listed(
        d,
        polys,
        config,
        w,
        wit,
        i,
    ) by {
        let v = commitments::limb_of(
            values::residue(commitments::target_at(c, polys, config, i / 2)),
            i % 2,
        );
        EF::law_embed(v, 0);
        EF::law_embed(0, 0);
        assert(0 <= v < LIMB16_SIZE);
        lemma_listed(d, polys, config, w, wit, i, v, 0);
    }
}

/// The feed-forward bias at a vertex.
proof fn lemma_hidden_bias(config: Config, w: ModelWeights, i: int)
    requires
        segments::segments_fit(config, w),
        0 <= i < pow2(canonical::all_bits(config, Kind::QFc)),
    ensures
        ({
            let (l, c) = (inst_of(config, Kind::QFc, i), col_of(config, Kind::QFc, i));
            sources::fc_bias_view(config, w).at(
                commit::corner(i as nat, canonical::all_bits(config, Kind::QFc)),
            ) == EF::embed(
                if l < config.n_layer && c < config.mlp_hidden {
                    w.blocks@[l].fc_b@[c] as int
                } else {
                    0
                },
            )
        }),
{
    let kind = Kind::QFc;
    let (cb, rb, ib) = (
        canonical::col_bits(config, kind),
        canonical::row_bits(config, kind),
        canonical::inst_bits(config, kind),
    );
    let n = cb + rb + ib;
    let view = sources::fc_bias_view(config, w);
    let (l, c) = (inst_of(config, kind, i), col_of(config, kind, i));
    cells::lemma_row_bound(cb + rb, ib, i);
    cells::lemma_row_bound(cb, rb, i % pow2(cb + rb) as int);
    let bits = commit::index_bits(i as nat, n);
    commit::lemma_index_bits(i as nat, n);
    cells::lemma_bits_split(i as nat, cb + rb, ib);
    cells::lemma_bits_split(i as nat, cb, rb);
    let (low, high) = (commit::index_bits(i as nat, cb), commit::index_bits(l as nat, ib));
    commit::lemma_index_bits(i as nat, cb);
    commit::lemma_index_bits(i as nat, cb + rb);
    commit::lemma_index_bits(l as nat, ib);
    let x = view.chosen(commit::corner(i as nat, n));
    let want = multilinear::vertex::<EF>(low + high);
    assert forall|j: int| 0 <= j < cb + ib implies #[trigger] x[j] == want[j] by {
        if j < cb {
            assert(bits[j] == low[j]);
        } else {
            assert(bits[j + rb] == high[j - cb]);
        }
    }
    assert(x =~= want);
    cells::lemma_index_join(low, high);
    div_mod::lemma_small_mod(l as nat, pow2(ib));
    // the column within a row is the lowest part of the position
    assert(i as nat % pow2(cb) == c) by {
        power2::lemma_pow2_adds(rb, cb);
        let (b, m) = (pow2(cb) as int, pow2(rb) as int);
        assert(b * m == pow2(cb + rb)) by (nonlinear_arith)
            requires
                pow2(rb + cb) == m * b,
                rb + cb == cb + rb,
        ;
        div_mod::lemma_mod_mod(i, b, m);
    }
    let k = c + pow2(cb) * l;
    let (b, m) = (pow2(cb) as int, pow2(ib) as int);
    div_mod::lemma_fundamental_div_mod_converse(k, b, l, c);
    assert forall|j: int| 0 <= j < view.values.len() implies (
    #[trigger] view.values[j]).valid() by {
        EF::law_embed(w.blocks@[j / b].fc_b@[j % b] as int, 0);
        EF::law_valid(EF::zero(), EF::zero());
    }
    EF::law_embed(0, 0);
    values::lemma_vertex_bound(low + high);
    multilinear::lemma_mle_vertex(view.values, low + high, k);
}

/// An activation is the table's value at the shifted hidden value.
spec fn activation_at(
    wit: WitnessView,
    w: ModelWeights,
    config: Config,
    l: int,
    r: int,
    c: int,
) -> bool {
    let m = wit.blocks[l].mlp;
    let v = m.q_fc.at(r, c) + w.blocks@[l].fc_b@[c] + config.table_offset();
    &&& 0 <= v < w.gelu_lut@.len()
    &&& m.act.at(r, c) == w.gelu_lut@[v] as int
}

/// The activations of a forward pass are the table's values.
proof fn lemma_activation(x0: Grid, w: ModelWeights, config: Config, l: int, r: int, c: int)
    requires
        segments::segments_fit(config, w),
        canonical::witness_shaped(model::forward_of(x0, w, config), config),
        model::forward_fits(x0, w, config),
        0 <= l < config.n_layer,
        0 <= r < config.n_seq,
        0 <= c < config.mlp_hidden,
    ensures
        activation_at(model::forward_of(x0, w, config), w, config, l, r, c),
{
    let wit = model::forward_of(x0, w, config);
    let x = model::stream(x0, w, config, l as nat);
    let bw = w.blocks@[l];
    let b = wit.blocks[l];
    assert(b == model::block_of(x, bw, w, config));
    assert(canonical::block_shaped(b, config));
    assert(bw.wf(config));
    assert(model::block_fits(x, bw, w, config));
    let fc = b.mlp.fc;
    assert(model::gelu_fits(fc, w, config, r, c));
    let f = |i: int, j: int| grid::ints(w.gelu_lut@)[fc.at(i, j) + config.table_offset()];
    grid::lemma_tabulate(config.n_seq as nat, config.mlp_hidden as nat, f, r, c);
    grid::lemma_cell(config.n_seq as nat, config.mlp_hidden as nat, r, c);
    assert(fc.at(r, c) == b.mlp.q_fc.at(r, c) + bw.fc_b@[c]);
}

/// The feed-forward bias at a position, zero beyond the hidden values.
spec fn hidden_bias(config: Config, w: ModelWeights, i: int) -> int {
    let (l, c) = (inst_of(config, Kind::QFc, i), col_of(config, Kind::QFc, i));
    if l < config.n_layer && c < config.mlp_hidden {
        w.blocks@[l].fc_b@[c] as int
    } else {
        0
    }
}

/// All activations are the table's values.
spec fn activations_follow(wit: WitnessView, w: ModelWeights, config: Config) -> bool {
    forall|l: int, r: int, c: int|
        0 <= l < config.n_layer && 0 <= r < config.n_seq && 0 <= c < config.mlp_hidden
            ==> #[trigger] activation_at(wit, w, config, l, r, c)
}

/// The hidden values and the activations of a layer have the configured shape.
proof fn lemma_hidden_shape(wit: WitnessView, config: Config, l: int)
    requires
        canonical::witness_shaped(wit, config),
        0 <= l < config.n_layer,
    ensures
        wit.blocks[l].mlp.q_fc.rows == config.n_seq,
        wit.blocks[l].mlp.q_fc.cols == config.mlp_hidden,
        wit.blocks[l].mlp.act.rows == config.n_seq,
        wit.blocks[l].mlp.act.cols == config.mlp_hidden,
{
    assert(canonical::block_shaped(wit.blocks[l], config));
}

/// The activation at every position, padding included, is the table's value.
proof fn lemma_activation_at(config: Config, w: ModelWeights, wit: WitnessView, i: int)
    requires
        segments::segments_fit(config, w),
        canonical::witness_shaped(wit, config),
        committed::rows_filled(config),
        activations_follow(wit, w, config),
        activation_neutral(config, w),
        0 <= i < pow2(canonical::all_bits(config, Kind::QFc)),
    ensures
        ({
            let v = value_of(wit, config, Kind::QFc, i) + config.table_offset() + hidden_bias(
                config,
                w,
                i,
            );
            &&& 0 <= v < w.gelu_lut@.len()
            &&& value_of(wit, config, Kind::Act, i) == w.gelu_lut@[v] as int
        }),
{
    let kind = Kind::QFc;
    lemma_value_of(wit, config, kind, i);
    commit::lemma_ceil_pow(config.n_seq as int);
    commit::lemma_ceil_pow(config.mlp_hidden as int);
    commit::lemma_ceil_pow(config.n_layer as int);
    let (l, r, c) = (
        inst_of(config, kind, i),
        row_of(config, kind, i),
        col_of(config, kind, i),
    );
    if l < config.n_layer {
        lemma_hidden_shape(wit, config, l);
    }
    if l < config.n_layer && r < config.n_seq && c < config.mlp_hidden {
        assert(activation_at(wit, w, config, l, r, c));
    } else {
        assert(activations_padded(config));
    }
}

/// The rows of the activations are listed.
pub proof fn lemma_activations_listed(
    config: Config,
    w: ModelWeights,
    x0: Grid,
    polys: Map<Seq<char>, Seq<EF>>,
)
    requires
        committed::pass_committed(config, w, x0, polys),
        model::forward_fits(x0, w, config),
        activation_neutral(config, w),
    ensures
        query::rows_listed(
            segments::act_desc(config, w),
            polys,
            config,
            w,
            model::forward_of(x0, w, config),
        ),
{
    let wit = model::forward_of(x0, w, config);
    assert forall|l: int, r: int, c: int|
        0 <= l < config.n_layer && 0 <= r < config.n_seq && 0 <= c < config.mlp_hidden implies
        #[trigger] activation_at(wit, w, config, l, r, c) by {
        lemma_activation(x0, w, config, l, r, c);
    }
    lemma_activation_rows(config, w, wit, polys);
}

/// The rows of the activations are listed, if they are the table's values.
proof fn lemma_activation_rows(
    config: Config,
    w: ModelWeights,
    wit: WitnessView,
    polys: Map<Seq<char>, Seq<EF>>,
)
    requires
        segments::segments_fit(config, w),
        canonical::witness_shaped(wit, config),
        committed::rows_filled(config),
        committed::tensors_committed(config, w, wit, polys),
        activations_follow(wit, w, config),
        activation_neutral(config, w),
    ensures
        query::rows_listed(segments::act_desc(config, w), polys, config, w, wit),
{
    let d = segments::act_desc(config, w);
    assert forall|i: int| 0 <= i < pow2(d.vars) implies #[trigger] query::row_listed(
        d,
        polys,
        config,
        w,
        wit,
        i,
    ) by {
        lemma_activation_at(config, w, wit, i);
        let q = value_of(wit, config, Kind::QFc, i);
        let out = value_of(wit, config, Kind::Act, i);
        let v = q + config.table_offset() + hidden_bias(config, w, i);
        lemma_activation_row(config, w, wit, polys, i);
        lemma_listed(d, polys, config, w, wit, i, v, out);
    }
}

/// Input and output of an activation row.
proof fn lemma_activation_row(
    config: Config,
    w: ModelWeights,
    wit: WitnessView,
    polys: Map<Seq<char>, Seq<EF>>,
    i: int,
)
    requires
        segments::segments_fit(config, w),
        config.table_offset() >= 0,
        committed::tensors_committed(config, w, wit, polys),
        0 <= i < pow2(canonical::all_bits(config, Kind::QFc)),
    ensures
        values::row_input(segments::act_desc(config, w), polys, config, w, wit, i) == EF::embed(
            value_of(wit, config, Kind::QFc, i) + config.table_offset() + hidden_bias(
                config,
                w,
                i,
            ),
        ),
        values::row_output(segments::act_desc(config, w), polys, i) == EF::embed(
            value_of(wit, config, Kind::Act, i),
        ),
{
    lemma_value_of(wit, config, Kind::QFc, i);
    lemma_value_of(wit, config, Kind::Act, i);
    lemma_hidden_bias(config, w, i);
    let (q, offset) = (value_of(wit, config, Kind::QFc, i), config.table_offset());
    assert(polys[Kind::QFc.text()] == canonical::kind_table(wit, config, Kind::QFc));
    assert(polys[Kind::Act.text()] == canonical::kind_table(wit, config, Kind::Act));
    EF::law_embed(q, offset);
    EF::law_embed(q + offset, hidden_bias(config, w, i));
}

/// The quotient of a rescaled product is the floor of the division.
proof fn lemma_quotient(x0: Grid, w: ModelWeights, config: Config, op: TypeAOp)
    requires
        model::config_fits(config),
        w.wf(config),
        w.blocks@.len() == config.n_layer,
        segments::op_within(config, op),
    ensures
        values::quotient_grid(model::forward_of(x0, w, config), op) == grid::floor_div(
            values::op_product(config, w, model::forward_of(x0, w, config), op),
            segments::divisor_of(config, op.mm),
        ),
{
    let wit = model::forward_of(x0, w, config);
    let l = op.layer as int;
    let b = wit.blocks[l];
    assert(b == model::block_of(model::stream(x0, w, config, l as nat), w.blocks@[l], w, config));
    assert(0 * config.d_model == 0 && 1 * config.d_model == config.d_model);
    match op.mm {
        Mm::Sc => {
            let g = model::score_of(b.attention.qkv, config, op.head as int);
            assert(canonical::face(b.attention.scores[op.head as int]) == g);
        },
        Mm::Ao => {
            let g = model::head_output(b.attention.qkv, w, config, op.head as int);
            assert(canonical::face(b.attention.q_ao_heads[op.head as int]) == g);
            let p = model::head_softmax(b.attention.qkv, w, config, op.head as int).prob;
            assert(canonical::face(b.attention.q_prob[op.head as int]) == p);
        },
        _ => {},
    }
}

/// The shapes of the factors and of the quotient of a forward pass.
proof fn lemma_quotient_shape(x0: Grid, w: ModelWeights, config: Config, op: TypeAOp)
    requires
        model::config_fits(config),
        w.wf(config),
        w.blocks@.len() == config.n_layer,
        canonical::grid_is(x0, config.n_seq as nat, config.d_model as nat),
        segments::op_within(config, op),
    ensures
        ({
            let wit = model::forward_of(x0, w, config);
            let (k, row, col) = segments::mm_shape(config, op.mm);
            &&& canonical::grid_is(values::quotient_grid(wit, op), row, col)
            &&& values::op_product(config, w, wit, op).rows == row
            &&& values::op_product(config, w, wit, op).cols == col
        }),
{
    let wit = model::forward_of(x0, w, config);
    let l = op.layer as int;
    completeness::law_forward_shaped(x0, w, config);
    assert(canonical::block_shaped(wit.blocks[l], config));
    assert(w.blocks@[l].wf(config));
    assert(canonical::head_shaped(wit.blocks[l].attention, config, op.head as int));
}

/// Each quotient of a forward pass is the floor of its matrix product divided by the
/// product's divisor, in the product's shape, and every remainder lies in
/// `0..divisor`.
pub proof fn law_quotients(x0: Grid, w: ModelWeights, config: Config, op: TypeAOp)
    requires
        model::config_fits(config),
        w.wf(config),
        w.blocks@.len() == config.n_layer,
        canonical::grid_is(x0, config.n_seq as nat, config.d_model as nat),
        segments::op_within(config, op),
    ensures
        ({
            let wit = model::forward_of(x0, w, config);
            let (k, row, col) = segments::mm_shape(config, op.mm);
            let (p, q) = (values::op_product(config, w, wit, op), values::quotient_grid(wit, op));
            let div = segments::divisor_of(config, op.mm);
            &&& canonical::grid_is(q, row, col)
            &&& q == grid::floor_div(p, div)
            &&& forall|r: int, c: int|
                0 <= r < row && 0 <= c < col ==> 0 <= #[trigger] (p.at(r, c)) - div * q.at(r, c) < div
        }),
{
    let wit = model::forward_of(x0, w, config);
    let (k, row, col) = segments::mm_shape(config, op.mm);
    let (p, q) = (values::op_product(config, w, wit, op), values::quotient_grid(wit, op));
    let div = segments::divisor_of(config, op.mm);
    lemma_quotient(x0, w, config, op);
    lemma_quotient_shape(x0, w, config, op);
    assert forall|r: int, c: int| 0 <= r < row && 0 <= c < col implies 0 <= #[trigger] p.at(r, c)
        - div * q.at(r, c) < div by {
        grid::lemma_cell(row, col, r, c);
        assert(q.at(r, c) == p.at(r, c) / div);
        div_mod::lemma_fundamental_div_mod(p.at(r, c), div);
        div_mod::lemma_mod_bound(p.at(r, c), div);
    }
}

/// The rows of the remainders of a matrix product are listed.
pub proof fn lemma_remainders_listed(
    config: Config,
    w: ModelWeights,
    x0: Grid,
    polys: Map<Seq<char>, Seq<EF>>,
    op: TypeAOp,
)
    requires
        segments::segments_fit(config, w),
        canonical::witness_shaped(model::forward_of(x0, w, config), config),
        segments::op_within(config, op),
    ensures
        query::rows_listed(
            segments::product_desc(config, w, op),
            polys,
            config,
            w,
            model::forward_of(x0, w, config),
        ),
{
    let d = segments::product_desc(config, w, op);
    let wit = model::forward_of(x0, w, config);
    let div = segments::divisor_of(config, op.mm);
    let (k, row, col) = segments::mm_shape(config, op.mm);
    let (p, q) = (values::op_product(config, w, wit, op), values::quotient_grid(wit, op));
    values::lemma_op_shapes(config, w, wit, op);
    lemma_quotient(x0, w, config, op);
    assert forall|i: int| 0 <= i < pow2(d.vars) implies #[trigger] query::row_listed(
        d,
        polys,
        config,
        w,
        wit,
        i,
    ) by {
        cells::lemma_row_bound(
            segments::mm_col_bits(config, op.mm),
            segments::mm_row_bits(config, op.mm),
            i,
        );
        let cp = pow2(segments::mm_col_bits(config, op.mm)) as int;
        let (r, c) = (i / cp, i % cp);
        EF::law_embed(0, 0);
        let v = if r < row && c < col {
            p.at(r, c) - div * q.at(r, c)
        } else {
            0
        };
        if r < row && c < col {
            grid::lemma_cell(row, col, r, c);
            assert(q.at(r, c) == p.at(r, c) / div);
            div_mod::lemma_fundamental_div_mod(p.at(r, c), div);
            div_mod::lemma_mod_bound(p.at(r, c), div);
        }
        assert(0 <= v < div);
        lemma_listed(d, polys, config, w, wit, i, v, 0);
    }
}

/// The row sums of a head, repeated over the keys.
proof fn lemma_sums(
    config: Config,
    w: ModelWeights,
    wit: WitnessView,
    polys: Map<Seq<char>, Seq<EF>>,
    inst: nat,
    i: int,
)
    requires
        segments::segments_fit(config, w),
        canonical::witness_shaped(wit, config),
        committed::tensors_committed(config, w, wit, polys),
        inst < config.n_layer * config.n_head,
        0 <= i < pow2(canonical::elem_bits(config, Kind::Exp)),
    ensures
        ({
            let r = i / pow2(canonical::col_bits(config, Kind::Exp)) as int;
            let g = canonical::instance_of(wit, config, Kind::SumExp, inst as int);
            values::vertex_value(
                sources::sums_view(config, inst),
                polys,
                canonical::elem_bits(config, Kind::Exp),
                i,
            ) == EF::embed(
                if r < config.n_seq {
                    g.at(r, 0)
                } else {
                    1
                },
            )
        }),
{
    let kind = Kind::SumExp;
    let (cb, rb) = (
        canonical::col_bits(config, Kind::Exp),
        canonical::row_bits(config, Kind::Exp),
    );
    canonical::lemma_sizes(config, Kind::Exp);
    canonical::lemma_sizes(config, kind);
    cells::lemma_row_bound(cb, rb, i);
    let r = i / pow2(cb) as int;
    cells::lemma_high_position(
        kind.text(),
        cb,
        rb,
        inst,
        canonical::inst_bits(config, kind),
        i,
    );
    multilinear::lemma_pow2_zero();
    commit::lemma_ceil_log(1, 0);
    cells::lemma_kind_entry(wit, config, kind, inst as int, r, 0);
    grid::lemma_position(config.n_layer as nat, config.n_head as nat, inst as int);
    let (l, h) = (inst as int / config.n_head as int, inst as int % config.n_head as int);
    assert(canonical::block_shaped(wit.blocks[l], config));
    assert(canonical::head_shaped(wit.blocks[l].attention, config, h));
    assert(polys[kind.text()] == canonical::kind_table(wit, config, kind));
    assert(r * 1 + 0 == r);
    let v = if r < config.n_seq {
        canonical::instance_of(wit, config, kind, inst as int).at(r, 0)
    } else {
        1
    };
    EF::law_embed(v, 0);
    EF::law_add_zero(EF::embed(v));
}

/// The sums of a head are read from the commitments.
pub proof fn lemma_sums_committed(
    config: Config,
    w: ModelWeights,
    wit: WitnessView,
    polys: Map<Seq<char>, Seq<EF>>,
    inst: nat,
    upper: bool,
)
    requires
        segments::segments_fit(config, w),
        canonical::witness_shaped(wit, config),
        committed::rows_filled(config),
        committed::tensors_committed(config, w, wit, polys),
        inst < config.n_layer * config.n_head,
    ensures
        opened::segment_committed(
            config,
            w,
            wit,
            polys,
            segments::softmax_desc(config, inst, upper),
        ),
{
    let d = segments::softmax_desc(config, inst, upper);
    let op = d.kind->instance;
    let t = values::vertex_table(sources::sums_view(config, inst), polys, d.vars);
    let want = openings::broadcast_sums(config, wit, op);
    let cb = canonical::col_bits(config, Kind::Exp);
    grid::lemma_position(config.n_layer as nat, config.n_head as nat, inst as int);
    assert forall|i: int| 0 <= i < t.len() implies #[trigger] t[i] == want[i] by {
        cells::lemma_row_bound(cb, canonical::row_bits(config, Kind::Exp), i);
        lemma_sums(config, w, wit, polys, inst, i);
    }
    assert(t =~= want);
}

/// The share of a position is the floor of the scaled exponential over the sum.
proof fn lemma_share(x0: Grid, w: ModelWeights, config: Config, l: int, h: int, r: int, c: int)
    requires
        segments::segments_fit(config, w),
        model::forward_fits(x0, w, config),
        0 <= l < config.n_layer,
        0 <= h < config.n_head,
        0 <= r < config.n_seq,
        0 <= c < config.n_seq,
    ensures
        ({
            let a = model::forward_of(x0, w, config).blocks[l].attention;
            let e = canonical::face(a.exp[h]).at(r, c);
            let s = a.sum_exp[h].at(r, 0);
            &&& s > 0
            &&& canonical::face(a.q_prob[h]).at(r, c) == (e * config.scale) / s
        }),
{
    let wit = model::forward_of(x0, w, config);
    let x = model::stream(x0, w, config, l as nat);
    let a = wit.blocks[l].attention;
    assert(wit.blocks[l] == model::block_of(x, w.blocks@[l], w, config));
    assert(model::block_fits(x, w.blocks@[l], w, config));
    assert(model::head_fits(a.qkv, w, config, h));
    let s = model::score_of(a.qkv, config, h);
    let (lut, offset, scale, n) = (
        grid::ints(w.exp_lut@),
        config.table_offset(),
        config.scale as int,
        config.n_seq as nat,
    );
    let sm = model::head_softmax(a.qkv, w, config, h);
    grid::lemma_tabulate(n, n, |i: int, j: int| model::exp_at(s, lut, offset, i, j), r, c);
    grid::lemma_tabulate(
        n,
        n,
        |i: int, j: int| model::share_at(s, lut, offset, scale, i, j),
        r,
        c,
    );
    grid::lemma_tabulate(
        n,
        1,
        |i: int, j: int| model::exp_sum(s, lut, offset, i, (i + 1) as nat),
        r,
        0,
    );
    assert(canonical::face(a.exp[h]) == sm.exp);
    assert(canonical::face(a.q_prob[h]) == sm.prob);
    assert(a.sum_exp[h] == sm.sum_exp);
    let sum = model::exp_sum(s, lut, offset, r, (r + 1) as nat);
    assert(sum > 0);
    if c > r {
        div_mod::lemma_div_basics(sum);
        assert(0 * scale == 0);
    }
}

/// A share is the floor of the scaled exponential over the positive sum.
spec fn share_at(wit: WitnessView, config: Config, l: int, h: int, r: int, c: int) -> bool {
    let a = wit.blocks[l].attention;
    let e = canonical::face(a.exp[h]).at(r, c);
    let s = a.sum_exp[h].at(r, 0);
    &&& s > 0
    &&& canonical::face(a.q_prob[h]).at(r, c) == (e * config.scale) / s
}

/// The negative of an embedded number.
proof fn lemma_negative(x: int)
    ensures
        EF::embed(x).spec_neg() == EF::embed(-x),
{
    let e = EF::embed(x);
    EF::law_embed(x, -x);
    EF::law_embed(-x, 0);
    EF::law_valid(e, e);
    EF::law_sub(e, e);
    algebra::sub_self(e);
    EF::law_add_comm(e, EF::embed(-x));
    EF::law_add_comm(e, e.spec_neg());
    algebra::add_cancel(e.spec_neg(), EF::embed(-x), e);
}

/// Exponential, share and sum at a vertex of a head's polynomials.
spec fn softmax_cell(config: Config, wit: WitnessView, inst: nat, i: int) -> (int, int, int) {
    let cp = pow2(canonical::col_bits(config, Kind::Exp));
    let r = i / cp as int;
    (
        canonical::padded_cell(
            canonical::instance_of(wit, config, Kind::Exp, inst as int),
            cp,
            i,
        ),
        canonical::padded_cell(
            canonical::instance_of(wit, config, Kind::QProb, inst as int),
            cp,
            i,
        ),
        if r < config.n_seq {
            canonical::instance_of(wit, config, Kind::SumExp, inst as int).at(r, 0)
        } else {
            1
        },
    )
}

/// The remainder of the division lies below the sum.
proof fn lemma_softmax_cell(config: Config, wit: WitnessView, l: int, h: int, i: int)
    requires
        canonical::sizes_fit(config),
        canonical::witness_shaped(wit, config),
        heads_in_range(config, wit),
        0 <= l < config.n_layer,
        0 <= h < config.n_head,
        forall|r: int, c: int|
            0 <= r < config.n_seq && 0 <= c < config.n_seq ==> #[trigger] share_at(
                wit,
                config,
                l,
                h,
                r,
                c,
            ),
        0 <= i < pow2(canonical::elem_bits(config, Kind::Exp)),
    ensures
        ({
            let (e, p, s) = softmax_cell(config, wit, (l * config.n_head + h) as nat, i);
            0 <= config.scale * e - p * s < s && s <= table::softmax_range(config)
        }),
{
    let inst = (l * config.n_head + h) as nat;
    committed::lemma_head_instance(config, l, h);
    let cb = canonical::col_bits(config, Kind::Exp);
    cells::lemma_row_bound(cb, canonical::row_bits(config, Kind::Exp), i);
    let (r, c) = (i / pow2(cb) as int, i % pow2(cb) as int);
    let (e, p, s) = softmax_cell(config, wit, inst, i);
    let a = wit.blocks[l].attention;
    assert(canonical::block_shaped(wit.blocks[l], config));
    assert(canonical::head_shaped(a, config, h));
    assert(head_in_range(config, a, h));
    commit::lemma_ceil_pow(config.n_seq * config.scale);
    if r < config.n_seq {
        assert(a.sum_exp[h].at(r, 0) <= table::softmax_range(config));
        assert(share_at(wit, config, l, h, r, 0));
    }
    let k = config.scale as int;
    if r < config.n_seq && c < config.n_seq {
        assert(share_at(wit, config, l, h, r, c));
        div_mod::lemma_fundamental_div_mod(e * k, s);
        div_mod::lemma_mod_bound(e * k, s);
        assert(k * e == e * k && s * p == p * s) by (nonlinear_arith);
    } else {
        assert(e == 0 && p == 0);
        assert(k * 0 == 0 && 0 * s == 0);
    }
}

/// The input of a softmax row.
proof fn lemma_softmax_input(
    config: Config,
    w: ModelWeights,
    wit: WitnessView,
    polys: Map<Seq<char>, Seq<EF>>,
    inst: nat,
    upper: bool,
    i: int,
)
    requires
        segments::segments_fit(config, w),
        canonical::witness_shaped(wit, config),
        committed::tensors_committed(config, w, wit, polys),
        inst < config.n_layer * config.n_head,
        0 <= i < pow2(canonical::elem_bits(config, Kind::Exp)),
    ensures
        ({
            let (e, p, s) = softmax_cell(config, wit, inst, i);
            values::row_input(
                segments::softmax_desc(config, inst, upper),
                polys,
                config,
                w,
                wit,
                i,
            ) == EF::embed(
                if upper {
                    p * s + s - config.scale * e - 1
                } else {
                    config.scale * e - p * s
                },
            )
        }),
{
    let d = segments::softmax_desc(config, inst, upper);
    let n = canonical::elem_bits(config, Kind::Exp);
    let (e, p, s) = softmax_cell(config, wit, inst, i);
    let k = config.scale as int;
    let row = config.n_seq as nat;
    grid::lemma_position(config.n_layer as nat, config.n_head as nat, inst as int);
    let (l, h) = (inst as int / config.n_head as int, inst as int % config.n_head as int);
    assert(canonical::block_shaped(wit.blocks[l], config));
    assert(canonical::head_shaped(wit.blocks[l].attention, config, h));
    assert(polys[Kind::Exp.text()] == canonical::kind_table(wit, config, Kind::Exp));
    assert(polys[Kind::QProb.text()] == canonical::kind_table(wit, config, Kind::QProb));
    committed::lemma_slice_operand(config, wit, polys, Kind::Exp, inst, row, row);
    committed::lemma_slice_operand(config, wit, polys, Kind::QProb, inst, row, row);
    lemma_sums(config, w, wit, polys, inst, i);
    let (exp, prob, sums) = (
        sources::slice_view(config, Kind::Exp, inst),
        sources::slice_view(config, Kind::QProb, inst),
        sources::sums_view(config, inst),
    );
    let sb = canonical::row_bits(config, Kind::Exp);
    operands::lemma_padded_valid(
        canonical::instance_of(wit, config, Kind::Exp, inst as int),
        sb,
        sb,
    );
    operands::lemma_padded_valid(
        canonical::instance_of(wit, config, Kind::QProb, inst as int),
        sb,
        sb,
    );
    let te = values::vertex_table(exp, polys, n);
    let tp = values::vertex_table(prob, polys, n);
    assert(te[i] == EF::embed(e));
    assert(tp[i] == EF::embed(p));
    assert(values::vertex_value(exp, polys, n, i) == te[i]);
    assert(values::vertex_value(prob, polys, n, i) == tp[i]);
    assert(values::vertex_value(sums, polys, n, i) == EF::embed(s));
    EF::law_embed(1, 0);
    EF::law_embed(0, 0);
    lemma_negative(1);
    lemma_negative(k);
    reveal_with_fuel(values::affine, 3);
    if upper {
        EF::law_embed(1, p);
        EF::law_embed(1 * p, s);
        EF::law_embed(p * s, -1);
        EF::law_embed(1, s);
        EF::law_embed(p * s - 1, s);
        EF::law_embed(-k, e);
        EF::law_embed(p * s - 1 + s, (-k) * e);
        assert((-k) * e == -(k * e)) by (nonlinear_arith);
        assert(1 * p == p && 1 * s == s);
    } else {
        EF::law_embed(-1, p);
        EF::law_embed(-1 * p, s);
        assert((-1 * p) * s == -(p * s)) by (nonlinear_arith);
        EF::law_embed(-(p * s), 0);
        EF::law_embed(k, e);
        EF::law_embed(-(p * s), k * e);
    }
}

/// The rows of a head's softmax remainders are listed, if its shares are quotients.
proof fn lemma_softmax_rows(
    config: Config,
    w: ModelWeights,
    wit: WitnessView,
    polys: Map<Seq<char>, Seq<EF>>,
    l: int,
    h: int,
    upper: bool,
)
    requires
        segments::segments_fit(config, w),
        canonical::witness_shaped(wit, config),
        committed::tensors_committed(config, w, wit, polys),
        heads_in_range(config, wit),
        0 <= l < config.n_layer,
        0 <= h < config.n_head,
        forall|r: int, c: int|
            0 <= r < config.n_seq && 0 <= c < config.n_seq ==> #[trigger] share_at(
                wit,
                config,
                l,
                h,
                r,
                c,
            ),
    ensures
        query::rows_listed(
            segments::softmax_desc(config, (l * config.n_head + h) as nat, upper),
            polys,
            config,
            w,
            wit,
        ),
{
    let inst = (l * config.n_head + h) as nat;
    committed::lemma_head_instance(config, l, h);
    let d = segments::softmax_desc(config, inst, upper);
    assert forall|i: int| 0 <= i < pow2(d.vars) implies #[trigger] query::row_listed(
        d,
        polys,
        config,
        w,
        wit,
        i,
    ) by {
        lemma_softmax_cell(config, wit, l, h, i);
        lemma_softmax_input(config, w, wit, polys, inst, upper, i);
        let (e, p, s) = softmax_cell(config, wit, inst, i);
        let v = if upper {
            p * s + s - config.scale * e - 1
        } else {
            config.scale * e - p * s
        };
        EF::law_embed(0, 0);
        lemma_listed(d, polys, config, w, wit, i, v, 0);
    }
}

/// The rows of a head's softmax remainders are listed.
pub proof fn lemma_softmax_listed(
    config: Config,
    w: ModelWeights,
    x0: Grid,
    polys: Map<Seq<char>, Seq<EF>>,
    inst: nat,
    upper: bool,
)
    requires
        committed::pass_committed(config, w, x0, polys),
        model::forward_fits(x0, w, config),
        heads_in_range(config, model::forward_of(x0, w, config)),
        inst < config.n_layer * config.n_head,
    ensures
        query::rows_listed(
            segments::softmax_desc(config, inst, upper),
            polys,
            config,
            w,
            model::forward_of(x0, w, config),
        ),
{
    let wit = model::forward_of(x0, w, config);
    assert(config.n_head > 0) by (nonlinear_arith)
        requires
            inst < config.n_layer * config.n_head,
            0 <= inst,
            0 <= config.n_layer,
    ;
    grid::lemma_position(config.n_layer as nat, config.n_head as nat, inst as int);
    let (l, h) = (inst as int / config.n_head as int, inst as int % config.n_head as int);
    assert forall|r: int, c: int|
        0 <= r < config.n_seq && 0 <= c < config.n_seq implies #[trigger] share_at(
        wit,
        config,
        l,
        h,
        r,
        c,
    ) by {
        lemma_share(x0, w, config, l, h, r, c);
    }
    lemma_softmax_rows(config, w, wit, polys, l, h, upper);
}

/// The exponentials lie between zero and the scale.
pub open spec fn exponentials_bounded(config: Config, w: ModelWeights) -> bool {
    forall|i: int| 0 <= i < w.exp_lut@.len() ==> 0 <= #[trigger] w.exp_lut@[i] <= config.scale
}

/// A sum of at most `n` numbers up to `k`, and one of its terms.
proof fn lemma_sum_bounds(n: nat, f: spec_fn(int) -> int, k: int, j: int)
    requires
        0 <= j < n,
        forall|i: int| 0 <= i < n ==> 0 <= #[trigger] f(i) <= k,
    ensures
        0 <= f(j) <= grid::isum(n, f),
        grid::isum(n, f) <= n * k,
    decreases n,
{
    let m = (n - 1) as nat;
    assert(0 <= f(n - 1) <= k);
    assert(n * k == m * k + k) by (nonlinear_arith)
        requires
            n == m + 1,
    ;
    grid::lemma_isum_grows(m, n, f);
    if j < m {
        lemma_sum_bounds(m, f, k, j);
    } else if m > 0 {
        lemma_sum_bounds(m, f, k, 0);
    }
    assert(0 <= f(j));
    grid::lemma_isum_grows(0, m, f);
}

/// The exponential table's bounds bound the shares and the sums: with shares below the
/// table's range, all heads of a forward pass lie in the table's ranges.
pub proof fn law_heads_in_range(config: Config, w: ModelWeights, x0: Grid)
    requires
        segments::segments_fit(config, w),
        model::forward_fits(x0, w, config),
        exponentials_bounded(config, w),
        config.scale < RANGE13_SIZE,
    ensures
        heads_in_range(config, model::forward_of(x0, w, config)),
{
    let wit = model::forward_of(x0, w, config);
    assert forall|l: int, h: int, r: int, c: int|
        0 <= l < config.n_layer && 0 <= h < config.n_head && 0 <= r < config.n_seq && 0 <= c
            < config.n_seq implies #[trigger] head_bounded(wit, config, l, h, r, c) by {
        lemma_head_bounds(config, w, x0, l, h, r, c);
    }
    lemma_bounded_range(config, wit);
}

/// A share lies between zero and the scale, and its row's sum below that of the
/// largest exponentials.
spec fn head_bounded(wit: WitnessView, config: Config, l: int, h: int, r: int, c: int) -> bool {
    let a = wit.blocks[l].attention;
    &&& 0 <= canonical::face(a.q_prob[h]).at(r, c) <= config.scale
    &&& a.sum_exp[h].at(r, 0) <= config.n_seq * config.scale
}

proof fn lemma_bounded_range(config: Config, wit: WitnessView)
    requires
        config.scale < RANGE13_SIZE,
        forall|l: int, h: int, r: int, c: int|
            0 <= l < config.n_layer && 0 <= h < config.n_head && 0 <= r < config.n_seq && 0 <= c
                < config.n_seq ==> #[trigger] head_bounded(wit, config, l, h, r, c),
    ensures
        heads_in_range(config, wit),
{
    commit::lemma_ceil_pow(config.n_seq * config.scale);
    assert forall|l: int, h: int|
        0 <= l < config.n_layer && 0 <= h < config.n_head implies #[trigger] head_in_range(
        config,
        wit.blocks[l].attention,
        h,
    ) by {
        let a = wit.blocks[l].attention;
        assert forall|r: int, c: int|
            0 <= r < config.n_seq && 0 <= c < config.n_seq implies 0 <= #[trigger] canonical::face(
            a.q_prob[h],
        ).at(r, c) < RANGE13_SIZE by {
            assert(head_bounded(wit, config, l, h, r, c));
        }
        assert forall|r: int| 0 <= r < config.n_seq implies #[trigger] a.sum_exp[h].at(r, 0)
            <= table::softmax_range(config) by {
            assert(head_bounded(wit, config, l, h, r, 0));
        }
    }
}

proof fn lemma_head_bounds(
    config: Config,
    w: ModelWeights,
    x0: Grid,
    l: int,
    h: int,
    r: int,
    c: int,
)
    requires
        segments::segments_fit(config, w),
        model::forward_fits(x0, w, config),
        exponentials_bounded(config, w),
        0 <= l < config.n_layer,
        0 <= h < config.n_head,
        0 <= r < config.n_seq,
        0 <= c < config.n_seq,
    ensures
        head_bounded(model::forward_of(x0, w, config), config, l, h, r, c),
{
    let wit = model::forward_of(x0, w, config);
    let x = model::stream(x0, w, config, l as nat);
    let a = wit.blocks[l].attention;
    lemma_share(x0, w, config, l, h, r, c);
    assert(wit.blocks[l] == model::block_of(x, w.blocks@[l], w, config));
    assert(model::block_fits(x, w.blocks@[l], w, config));
    assert(model::head_fits(a.qkv, w, config, h));
    let s = model::score_of(a.qkv, config, h);
    let (lut, offset, n) = (
        grid::ints(w.exp_lut@),
        config.table_offset(),
        config.n_seq as nat,
    );
    let f = |j: int| model::exp_at(s, lut, offset, r, j);
    let k = config.scale as int;
    let m = (r + 1) as nat;
    assert forall|j: int| 0 <= j < m implies 0 <= #[trigger] f(j) <= k by {
        assert(model::exp_fits(s, lut, offset, r, j));
        let i = model::exp_index(s, offset, r, j);
        assert(0 <= w.exp_lut@[i] <= config.scale);
    }
    let (e, sum) = (canonical::face(a.exp[h]).at(r, c), a.sum_exp[h].at(r, 0));
    grid::lemma_tabulate(n, n, |i: int, j: int| model::exp_at(s, lut, offset, i, j), r, c);
    grid::lemma_tabulate(
        n,
        1,
        |i: int, j: int| model::exp_sum(s, lut, offset, i, (i + 1) as nat),
        r,
        0,
    );
    let sm = model::head_softmax(a.qkv, w, config, h);
    assert(canonical::face(a.exp[h]) == sm.exp);
    assert(a.sum_exp[h] == sm.sum_exp);
    assert(sum == grid::isum(m, f));
    lemma_sum_bounds(m, f, k, 0);
    assert(m * k <= n * k) by (nonlinear_arith)
        requires
            m <= n,
            0 <= k,
    ;
    if c <= r {
        lemma_sum_bounds(m, f, k, c);
        assert(e == f(c));
    } else {
        assert(e == 0);
    }
    assert(0 <= e * k) by (nonlinear_arith)
        requires
            0 <= e,
            0 <= k,
    ;
    assert(e * k <= sum * k) by (nonlinear_arith)
        requires
            e <= sum,
            0 <= k,
    ;
    div_mod::lemma_div_is_ordered(0, e * k, sum);
    div_mod::lemma_div_is_ordered(e * k, sum * k, sum);
    div_mod::lemma_div_multiples_vanish(k, sum);
    div_mod::lemma_div_basics(sum);
}

} // verus!
