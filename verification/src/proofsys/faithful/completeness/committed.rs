//! The operands of a forward pass's matrix products are read from its commitments.
use vstd::prelude::*;
use vstd::arithmetic::div_mod;
use vstd::arithmetic::power2;
use vstd::arithmetic::power2::pow2;
use crate::field::Field;
use crate::multilinear;
use crate::proofsys::canonical;
use crate::proofsys::canonical::{Kind, WeightKind, WTE};
use crate::proofsys::commit;
use crate::proofsys::commit::BiasView;
use crate::proofsys::faithful::completeness::cells;
use crate::proofsys::faithful::completeness::opened;
use crate::proofsys::faithful::operands;
use crate::proofsys::faithful::segments;
use crate::proofsys::faithful::segments::{Mm, TypeAOp};
use crate::proofsys::faithful::sources;
use crate::proofsys::faithful::values;
use crate::proofsys::grid;
use crate::proofsys::grid::Grid;
use crate::proofsys::model;
use crate::proofsys::model::ModelWeights;
use crate::proofsys::protocol::EF;
use crate::proofsys::witness::{Config, WitnessView};

verus! {

/// The heads' columns lie in blocks whose length is a power of two, and fill the
/// model dimension.
pub open spec fn heads_aligned(config: Config) -> bool {
    &&& config.d_head == pow2(sources::head_bits(config))
    &&& config.d_model == config.n_head * config.d_head
}

/// The sequence fills the rows of its polynomials.
pub open spec fn rows_filled(config: Config) -> bool {
    config.n_seq == pow2(sources::seq_bits(config))
}

/// The optional bias over features.
pub open spec fn bias_view(b: Option<Seq<int>>, k: nat) -> Option<BiasView> {
    match b {
        Some(b) => Some(sources::feature_bias_view(b, k)),
        None => None,
    }
}

/// `g` is `q` with the optional bias added to each row.
pub open spec fn biased(g: Grid, q: Grid, b: Option<Seq<int>>, row: nat, k: nat) -> bool {
    &&& g.rows == row
    &&& g.cols == k
    &&& q.rows == row
    &&& q.cols == k
    &&& match b {
        Some(b) => {
            &&& b.len() == k
            &&& row == commit::ceil_pow(row as int)
            &&& forall|r: int, c: int|
                0 <= r < row && 0 <= c < k ==> #[trigger] g.at(r, c) == q.at(r, c) + b[c]
        },
        None => forall|r: int, c: int|
            0 <= r < row && 0 <= c < k ==> #[trigger] g.at(r, c) == q.at(r, c),
    }
}

/// An operand that reads one instance of a kind is the padded matrix.
proof fn lemma_instance_operand(
    config: Config,
    wit: WitnessView,
    polys: Map<Seq<char>, Seq<EF>>,
    kind: Kind,
    inst: nat,
    k: nat,
    row: nat,
    b: Option<Seq<int>>,
    g: Grid,
)
    requires
        canonical::sizes_fit(config),
        polys[kind.text()] == canonical::kind_table(wit, config, kind),
        inst < canonical::dims(config, kind).0,
        kind.padding() == 0,
        commit::ceil_log(k as int) == canonical::col_bits(config, kind),
        commit::ceil_log(row as int) == canonical::row_bits(config, kind),
        biased(g, canonical::instance_of(wit, config, kind, inst as int), b, row, k),
    ensures
        values::vertex_table(
            sources::left_view(config, kind, inst, k, row, bias_view(b, k)),
            polys,
            commit::ceil_log(k as int) + commit::ceil_log(row as int),
        ) == canonical::padded(g, commit::ceil_pow(row as int), commit::ceil_pow(k as int)),
{
    let (kb, rb) = (commit::ceil_log(k as int), commit::ceil_log(row as int));
    let n = kb + rb;
    let src = sources::left_view(config, kind, inst, k, row, bias_view(b, k));
    let t = values::vertex_table(src, polys, n);
    let want = canonical::padded(g, pow2(rb), pow2(kb));
    let q = canonical::instance_of(wit, config, kind, inst as int);
    canonical::lemma_sizes(config, kind);
    commit::lemma_ceil_pow(k as int);
    commit::lemma_ceil_pow(row as int);
    operands::lemma_padded_valid(g, rb, kb);
    assert forall|i: int| 0 <= i < t.len() implies #[trigger] t[i] == want[i] by {
        cells::lemma_row_bound(kb, rb, i);
        let (r, c) = (i / pow2(kb) as int, i % pow2(kb) as int);
        cells::lemma_slice_position(
            kind.text(),
            src.bias,
            n,
            inst,
            canonical::inst_bits(config, kind),
            i,
        );
        cells::lemma_kind_entry(wit, config, kind, inst as int, r, c);
        let x = cells::entry(q, 0, r, c);
        EF::law_embed(x, 0);
        EF::law_embed(0, 0);
        match b {
            Some(v) => {
                cells::lemma_feature_bias(v, k, n, i);
                let y = if c < v.len() {
                    v[c]
                } else {
                    0
                };
                EF::law_embed(x, y);
                assert(x + y == canonical::padded_cell(g, pow2(kb), i));
            },
            None => {
                EF::law_add_zero(EF::embed(x));
                assert(x == canonical::padded_cell(g, pow2(kb), i));
            },
        }
    }
    assert(t =~= want);
}

/// A slice is the operand without a bias.
pub proof fn lemma_slice_operand(
    config: Config,
    wit: WitnessView,
    polys: Map<Seq<char>, Seq<EF>>,
    kind: Kind,
    inst: nat,
    k: nat,
    row: nat,
)
    requires
        canonical::sizes_fit(config),
        polys[kind.text()] == canonical::kind_table(wit, config, kind),
        inst < canonical::dims(config, kind).0,
        kind.padding() == 0,
        commit::ceil_log(k as int) == canonical::col_bits(config, kind),
        commit::ceil_log(row as int) == canonical::row_bits(config, kind),
        canonical::instance_of(wit, config, kind, inst as int).rows == row,
        canonical::instance_of(wit, config, kind, inst as int).cols == k,
    ensures
        values::vertex_table(
            sources::slice_view(config, kind, inst),
            polys,
            commit::ceil_log(k as int) + commit::ceil_log(row as int),
        ) == canonical::padded(
            canonical::instance_of(wit, config, kind, inst as int),
            commit::ceil_pow(row as int),
            commit::ceil_pow(k as int),
        ),
{
    let g = canonical::instance_of(wit, config, kind, inst as int);
    lemma_instance_operand(config, wit, polys, kind, inst, k, row, None, g);
    assert(sources::slice_view(config, kind, inst) == sources::left_view(
        config,
        kind,
        inst,
        k,
        row,
        bias_view(None, k),
    ));
}

/// A weight matrix is the padded matrix.
proof fn lemma_weight_operand(
    polys: Map<Seq<char>, Seq<EF>>,
    name: Seq<char>,
    g: Grid,
    k: nat,
    col: nat,
)
    requires
        polys[name] == canonical::weight_table(g),
        commit::ceil_log(k as int) + commit::ceil_log(col as int) < 64,
        g.rows == k && g.cols == col || g.rows == col && g.cols == k,
    ensures
        values::vertex_table(
            sources::right_view(name, k, col),
            polys,
            commit::ceil_log(k as int) + commit::ceil_log(col as int),
        ) == canonical::padded(
            g,
            commit::ceil_pow(g.rows as int),
            commit::ceil_pow(g.cols as int),
        ),
{
    let n = commit::ceil_log(k as int) + commit::ceil_log(col as int);
    let src = sources::right_view(name, k, col);
    let (rp, cp) = (commit::ceil_pow(g.rows as int), commit::ceil_pow(g.cols as int));
    let t = values::vertex_table(src, polys, n);
    let want = canonical::padded(g, rp, cp);
    power2::lemma_pow2_adds(commit::ceil_log(g.rows as int), commit::ceil_log(g.cols as int));
    multilinear::lemma_pow2_zero();
    commit::lemma_ceil_log(1, 0);
    commit::lemma_index_bits(0, 0);
    assert(src.coords =~= commit::variables(0, n) + commit::constants(
        commit::index_bits(0, 0),
    ));
    let table = canonical::weight_table(g);
    assert(rp * cp == pow2(n));
    assert(table.len() == pow2(n)) by {
        assert(1 * (rp * cp) == rp * cp);
    }
    assert forall|i: int| 0 <= i < t.len() implies #[trigger] t[i] == want[i] by {
        cells::lemma_slice_position(name, None, n, 0, 0, i);
        assert(0 * pow2(n) == 0);
        div_mod::lemma_basic_div(i, (rp * cp) as int);
        div_mod::lemma_small_mod(i as nat, rp * cp);
        EF::law_embed(canonical::padded_cell(g, cp, i), 0);
        EF::law_add_zero(EF::embed(canonical::padded_cell(g, cp, i)));
        grid::lemma_position(rp, cp, i);
    }
    assert(t =~= want);
}

/// The queries, keys or values of one head.
proof fn lemma_head_operand(
    config: Config,
    w: ModelWeights,
    wit: WitnessView,
    polys: Map<Seq<char>, Seq<EF>>,
    layer: int,
    part: int,
    head: int,
)
    requires
        segments::segments_fit(config, w),
        canonical::witness_shaped(wit, config),
        heads_aligned(config),
        rows_filled(config),
        polys[Kind::QQkv.text()] == canonical::kind_table(wit, config, Kind::QQkv),
        0 <= layer < config.n_layer,
        0 <= part < 3,
        0 <= head < config.n_head,
        wit.blocks[layer].attention.qkv == grid::add_row(
            wit.blocks[layer].attention.q_qkv,
            grid::ints(w.blocks@[layer].attn_b@),
        ),
    ensures
        values::vertex_table(
            sources::head_view(config, w, layer, part, head),
            polys,
            sources::head_bits(config) + sources::seq_bits(config),
        ) == canonical::padded(
            values::head_grid(wit.blocks[layer].attention.qkv, config, part, head),
            pow2(sources::seq_bits(config)),
            pow2(sources::head_bits(config)),
        ),
{
    let (dh, sb) = (sources::head_bits(config), sources::seq_bits(config));
    let cb = canonical::col_bits(config, Kind::QQkv);
    let kind = Kind::QQkv;
    let src = sources::head_view(config, w, layer, part, head);
    let (q, qkv) = (
        wit.blocks[layer].attention.q_qkv,
        wit.blocks[layer].attention.qkv,
    );
    let g = values::head_grid(qkv, config, part, head);
    let t = values::vertex_table(src, polys, dh + sb);
    let want = canonical::padded(g, pow2(sb), pow2(dh));
    let bias = sources::head_bias(config, w, layer, part, head);
    let (n, d) = (config.n_head as int, config.d_head as int);
    assert(canonical::block_shaped(wit.blocks[layer], config));
    assert(w.blocks@[layer].wf(config));
    canonical::lemma_sizes(config, kind);
    sources::lemma_head_bits(config);
    sources::lemma_head_range(config, part, head);
    commit::lemma_ceil_pow(config.n_seq as int);
    operands::lemma_padded_valid(g, sb, dh);
    let mid = (part * n + head) as nat;
    let mb = (cb - dh) as nat;
    power2::lemma_pow2_adds(mb, dh);
    multilinear::lemma_pow2_mono(0, dh);
    let base = part * config.d_model + head * d;
    assert(mid * d == base) by (nonlinear_arith)
        requires
            mid == part * n + head,
            base == part * config.d_model + head * d,
            config.d_model == n * d,
    ;
    assert(mid < pow2(mb)) by (nonlinear_arith)
        requires
            mid * d == base,
            base + d <= 3 * config.d_model,
            3 * config.d_model <= pow2(cb),
            pow2(cb) == pow2(mb) * d,
            d > 0,
    ;
    assert forall|i: int| 0 <= i < t.len() implies #[trigger] t[i] == want[i] by {
        cells::lemma_row_bound(dh, sb, i);
        let (r, c) = (i / pow2(dh) as int, i % pow2(dh) as int);
        cells::lemma_part_position(
            kind.text(),
            src.bias,
            dh,
            mid,
            mb,
            sb,
            layer as nat,
            canonical::inst_bits(config, kind),
            i,
        );
        let col = base + c;
        cells::lemma_kind_entry(wit, config, kind, layer, r, col);
        cells::lemma_feature_bias(bias, config.d_head as nat, dh + sb, i);
        let x = cells::entry(q, 0, r, col);
        assert(bias[c] == w.blocks@[layer].attn_b@[col] as int);
        EF::law_embed(x, bias[c]);
        let f = |s: int, e: int| qkv.at(s, part * config.d_model + head * config.d_head + e);
        grid::lemma_tabulate(config.n_seq as nat, config.d_head as nat, f, r, c);
        grid::lemma_cell(config.n_seq as nat, (3 * config.d_model) as nat, r, col);
        assert(qkv.at(r, col) == q.at(r, col) + bias[c]);
        assert(x + bias[c] == canonical::padded_cell(g, pow2(dh), i));
    }
    assert(t =~= want);
}

/// The output of one head among the merged outputs.
proof fn lemma_merged_operand(
    config: Config,
    w: ModelWeights,
    wit: WitnessView,
    polys: Map<Seq<char>, Seq<EF>>,
    layer: int,
    head: int,
)
    requires
        segments::segments_fit(config, w),
        canonical::witness_shaped(wit, config),
        heads_aligned(config),
        polys[Kind::QAo.text()] == canonical::kind_table(wit, config, Kind::QAo),
        0 <= layer < config.n_layer,
        0 <= head < config.n_head,
        wit.blocks[layer].attention.q_ao == model::merged_heads(
            wit.blocks[layer].attention.qkv,
            w,
            config,
        ),
        wit.blocks[layer].attention.q_ao_heads[head] == grid::single(
            model::head_output(wit.blocks[layer].attention.qkv, w, config, head),
        ),
    ensures
        values::vertex_table(
            sources::ao_view(config, layer as nat, head as nat),
            polys,
            sources::head_bits(config) + sources::seq_bits(config),
        ) == canonical::padded(
            canonical::face(wit.blocks[layer].attention.q_ao_heads[head]),
            pow2(sources::seq_bits(config)),
            pow2(sources::head_bits(config)),
        ),
{
    let (dh, sb) = (sources::head_bits(config), sources::seq_bits(config));
    let cb = canonical::col_bits(config, Kind::QAo);
    let kind = Kind::QAo;
    let src = sources::ao_view(config, layer as nat, head as nat);
    let att = wit.blocks[layer].attention;
    let g = canonical::face(att.q_ao_heads[head]);
    let t = values::vertex_table(src, polys, dh + sb);
    let want = canonical::padded(g, pow2(sb), pow2(dh));
    let (n, d) = (config.n_head as int, config.d_head as int);
    assert(canonical::block_shaped(wit.blocks[layer], config));
    assert(canonical::head_shaped(att, config, head));
    canonical::lemma_sizes(config, kind);
    sources::lemma_head_bits(config);
    sources::lemma_head_range(config, 0, head);
    commit::lemma_ceil_pow(config.n_seq as int);
    operands::lemma_padded_valid(g, sb, dh);
    let mb = (cb - dh) as nat;
    power2::lemma_pow2_adds(mb, dh);
    multilinear::lemma_pow2_mono(0, dh);
    assert(head < pow2(mb)) by (nonlinear_arith)
        requires
            head * d + d <= config.d_model,
            config.d_model <= pow2(cb),
            pow2(cb) == pow2(mb) * d,
            d > 0,
    ;
    assert forall|i: int| 0 <= i < t.len() implies #[trigger] t[i] == want[i] by {
        cells::lemma_row_bound(dh, sb, i);
        let (r, c) = (i / pow2(dh) as int, i % pow2(dh) as int);
        cells::lemma_part_position(
            kind.text(),
            None,
            dh,
            head as nat,
            mb,
            sb,
            layer as nat,
            canonical::inst_bits(config, kind),
            i,
        );
        let col = head * d + c;
        cells::lemma_kind_entry(wit, config, kind, layer, r, col);
        let x = cells::entry(att.q_ao, 0, r, col);
        EF::law_embed(x, 0);
        EF::law_add_zero(EF::embed(x));
        if r < config.n_seq {
            let f = |s: int, e: int| model::merged_at(att.qkv, w, config, s, e);
            grid::lemma_tabulate(config.n_seq as nat, config.d_model as nat, f, r, col);
            grid::lemma_cell(config.n_head as nat, config.d_head as nat, head, c);
            assert(att.q_ao.at(r, col) == g.at(r, c));
        }
        assert(x == canonical::padded_cell(g, pow2(dh), i));
    }
    assert(t =~= want);
}

/// A normalization's output is its quotient plus the bias.
proof fn lemma_norm_biased(
    x: Grid,
    gain: Seq<int>,
    b: Seq<i64>,
    config: Config,
)
    requires
        canonical::grid_is(x, config.n_seq as nat, config.d_model as nat),
        b.len() == config.d_model,
        rows_filled(config),
    ensures
        biased(
            model::layer_norm_of(x, gain, grid::ints(b)).output,
            model::layer_norm_of(x, gain, grid::ints(b)).quotient,
            Some(grid::ints(b)),
            config.n_seq as nat,
            config.d_model as nat,
        ),
{
    let v = grid::ints(b);
    let ln = model::layer_norm_of(x, gain, v);
    let f = |r: int, c: int| model::centred(x, gain, r, c) / model::deviation(x, r);
    let g = |r: int, c: int| model::centred(x, gain, r, c) / model::deviation(x, r) + v[c];
    assert forall|r: int, c: int| 0 <= r < x.rows && 0 <= c < x.cols implies #[trigger] ln.output.at(
        r,
        c,
    ) == ln.quotient.at(r, c) + v[c] by {
        grid::lemma_tabulate(x.rows, x.cols, f, r, c);
        grid::lemma_tabulate(x.rows, x.cols, g, r, c);
    }
}

/// The polynomials commit to the witness and to the weights.
pub open spec fn tensors_committed(
    config: Config,
    w: ModelWeights,
    wit: WitnessView,
    polys: Map<Seq<char>, Seq<EF>>,
) -> bool {
    &&& forall|k: Kind| polys[#[trigger] k.text()] == canonical::kind_table(wit, config, k)
    &&& forall|k: WeightKind, l: nat|
        l < w.blocks@.len() ==> polys[#[trigger] k.text(l)] == canonical::weight_table(
            k.matrix(w, l as int),
        )
    &&& polys[WTE@] == canonical::weight_table(w.wte.grid())
}

/// What is asked of a forward pass and of its commitments.
pub open spec fn pass_committed(
    config: Config,
    w: ModelWeights,
    x0: Grid,
    polys: Map<Seq<char>, Seq<EF>>,
) -> bool {
    &&& segments::segments_fit(config, w)
    &&& canonical::grid_is(x0, config.n_seq as nat, config.d_model as nat)
    &&& canonical::witness_shaped(model::forward_of(x0, w, config), config)
    &&& heads_aligned(config)
    &&& rows_filled(config)
    &&& tensors_committed(config, w, model::forward_of(x0, w, config), polys)
}

/// The number of a head's instance.
pub proof fn lemma_head_instance(config: Config, layer: int, head: int)
    requires
        0 <= layer < config.n_layer,
        0 <= head < config.n_head,
    ensures
        0 <= layer * config.n_head + head < config.n_layer * config.n_head,
        (layer * config.n_head + head) / config.n_head as int == layer,
        (layer * config.n_head + head) % config.n_head as int == head,
{
    grid::lemma_cell(config.n_layer as nat, config.n_head as nat, layer, head);
}

/// The left operand of a matrix product is the padded left factor.
proof fn lemma_left_operand(
    config: Config,
    w: ModelWeights,
    x0: Grid,
    polys: Map<Seq<char>, Seq<EF>>,
    op: TypeAOp,
)
    requires
        pass_committed(config, w, x0, polys),
        segments::op_within(config, op),
    ensures
        values::vertex_table(
            segments::left_source(config, w, op),
            polys,
            segments::mm_bits(config, op.mm) + segments::mm_row_bits(config, op.mm),
        ) == canonical::padded(
            values::left_grid(config, w, model::forward_of(x0, w, config), op),
            pow2(segments::mm_row_bits(config, op.mm)),
            pow2(segments::mm_bits(config, op.mm)),
        ),
{
    let wit = model::forward_of(x0, w, config);
    let (k, row, col) = segments::mm_shape(config, op.mm);
    let l = op.layer as int;
    let b = wit.blocks[l];
    let x = model::stream(x0, w, config, l as nat);
    let bw = w.blocks@[l];
    let g = values::left_grid(config, w, wit, op);
    assert(b == model::block_of(x, bw, w, config));
    assert(canonical::block_shaped(b, config));
    assert(bw.wf(config));
    assert((2 * l) / 2 == l && (2 * l) % 2 == 0 && (2 * l + 1) / 2 == l && (2 * l + 1) % 2 == 1);
    match op.mm {
        Mm::Qkv => {
            lemma_norm_biased(b.ln1.input, grid::ints(bw.ln_1_g@), bw.ln_1_b@, config);
            lemma_instance_operand(
                config,
                wit,
                polys,
                Kind::QLn,
                (2 * l) as nat,
                k,
                row,
                Some(grid::ints(bw.ln_1_b@)),
                g,
            );
        },
        Mm::Fc => {
            lemma_norm_biased(b.ln2.input, grid::ints(bw.ln_2_g@), bw.ln_2_b@, config);
            lemma_instance_operand(
                config,
                wit,
                polys,
                Kind::QLn,
                (2 * l + 1) as nat,
                k,
                row,
                Some(grid::ints(bw.ln_2_b@)),
                g,
            );
        },
        Mm::Fpr => {
            lemma_instance_operand(config, wit, polys, Kind::Act, l as nat, k, row, None, g);
        },
        Mm::Apr => {
            lemma_instance_operand(config, wit, polys, Kind::QAo, l as nat, k, row, None, g);
        },
        Mm::Log => {
            lemma_norm_biased(wit.lnf.input, grid::ints(w.ln_f_g@), w.ln_f_b@, config);
            lemma_instance_operand(
                config,
                wit,
                polys,
                Kind::QLn,
                (2 * config.n_layer) as nat,
                k,
                row,
                Some(grid::ints(w.ln_f_b@)),
                g,
            );
        },
        Mm::Sc => {
            lemma_head_operand(config, w, wit, polys, l, 0, op.head as int);
        },
        Mm::Ao => {
            let inst = (op.layer * config.n_head + op.head) as nat;
            lemma_head_instance(config, l, op.head as int);
            assert(canonical::head_shaped(b.attention, config, op.head as int));
            lemma_instance_operand(config, wit, polys, Kind::QProb, inst, k, row, None, g);
        },
    }
}

/// The right operand of a matrix product is the padded right factor.
proof fn lemma_right_operand(
    config: Config,
    w: ModelWeights,
    x0: Grid,
    polys: Map<Seq<char>, Seq<EF>>,
    op: TypeAOp,
)
    requires
        pass_committed(config, w, x0, polys),
        segments::op_within(config, op),
        segments::mm_bits(config, op.mm) + segments::mm_col_bits(config, op.mm) < 64,
    ensures
        values::vertex_table(
            segments::right_source(config, w, op),
            polys,
            segments::mm_bits(config, op.mm) + segments::mm_col_bits(config, op.mm),
        ) == opened::padded_right(
            segments::kind_of_mm(op.mm),
            values::right_grid(config, w, model::forward_of(x0, w, config), op),
            segments::mm_bits(config, op.mm),
            segments::mm_col_bits(config, op.mm),
        ),
{
    let wit = model::forward_of(x0, w, config);
    let (k, row, col) = segments::mm_shape(config, op.mm);
    let l = op.layer as int;
    let g = values::right_grid(config, w, wit, op);
    let b = wit.blocks[l];
    assert(canonical::block_shaped(b, config));
    assert(w.blocks@[l].wf(config));
    match op.mm {
        Mm::Qkv => {
            assert(WeightKind::AttnW.matrix(w, l) == g);
            lemma_weight_operand(polys, WeightKind::AttnW.text(l as nat), g, k, col);
        },
        Mm::Fc => {
            assert(WeightKind::FcW.matrix(w, l) == g);
            lemma_weight_operand(polys, WeightKind::FcW.text(l as nat), g, k, col);
        },
        Mm::Fpr => {
            assert(WeightKind::FprojW.matrix(w, l) == g);
            lemma_weight_operand(polys, WeightKind::FprojW.text(l as nat), g, k, col);
        },
        Mm::Apr => {
            assert(WeightKind::AttnProjW.matrix(w, l) == g);
            lemma_weight_operand(polys, WeightKind::AttnProjW.text(l as nat), g, k, col);
        },
        Mm::Log => {
            lemma_weight_operand(polys, WTE@, g, k, col);
        },
        Mm::Sc => {
            lemma_head_operand(config, w, wit, polys, l, 1, op.head as int);
        },
        Mm::Ao => {
            lemma_head_operand(config, w, wit, polys, l, 2, op.head as int);
        },
    }
}

/// The quotient of a matrix product is the padded quotient.
proof fn lemma_quotient_operand(
    config: Config,
    w: ModelWeights,
    x0: Grid,
    polys: Map<Seq<char>, Seq<EF>>,
    op: TypeAOp,
)
    requires
        pass_committed(config, w, x0, polys),
        segments::op_within(config, op),
        op.mm == Mm::Log ==> op.layer == 0,
    ensures
        values::vertex_table(
            segments::quotient_source(config, op),
            polys,
            segments::mm_col_bits(config, op.mm) + segments::mm_row_bits(config, op.mm),
        ) == canonical::padded(
            values::quotient_grid(model::forward_of(x0, w, config), op),
            pow2(segments::mm_row_bits(config, op.mm)),
            pow2(segments::mm_col_bits(config, op.mm)),
        ),
{
    let wit = model::forward_of(x0, w, config);
    let (k, row, col) = segments::mm_shape(config, op.mm);
    let (l, h) = (op.layer as int, op.head as int);
    let b = wit.blocks[l];
    assert(canonical::block_shaped(b, config));
    match op.mm {
        Mm::Ao => {
            lemma_merged_operand(config, w, wit, polys, l, h);
        },
        Mm::Sc => {
            let inst = (op.layer * config.n_head + op.head) as nat;
            lemma_head_instance(config, l, h);
            assert(canonical::head_shaped(b.attention, config, h));
            lemma_slice_operand(config, wit, polys, Kind::QSc, inst, col, row);
        },
        Mm::Log => {
            lemma_slice_operand(config, wit, polys, Kind::QLog, 0, col, row);
        },
        _ => {
            lemma_slice_operand(
                config,
                wit,
                polys,
                segments::quotient_kind(op.mm),
                op.layer as nat,
                col,
                row,
            );
        },
    }
}

/// The operands of a forward pass's matrix products are read from its commitments.
pub proof fn law_products_committed(
    config: Config,
    w: ModelWeights,
    x0: Grid,
    polys: Map<Seq<char>, Seq<EF>>,
    op: TypeAOp,
)
    requires
        pass_committed(config, w, x0, polys),
        segments::op_within(config, op),
        op.mm == Mm::Log ==> op.layer == 0,
        segments::mm_bits(config, op.mm) + segments::mm_col_bits(config, op.mm) < 64,
    ensures
        opened::product_committed(
            config,
            w,
            model::forward_of(x0, w, config),
            polys,
            op,
            segments::quotient_source(config, op),
            segments::left_source(config, w, op),
            segments::right_source(config, w, op),
        ),
{
    lemma_left_operand(config, w, x0, polys, op);
    lemma_right_operand(config, w, x0, polys, op);
    lemma_quotient_operand(config, w, x0, polys, op);
}

} // verus!
