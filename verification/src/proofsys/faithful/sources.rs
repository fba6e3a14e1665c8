//! How the operands of each check reduce to committed polynomials.
use vstd::prelude::*;
use vstd::arithmetic::power2::pow2;
use crate::field::Field;
use crate::multilinear;
use crate::proofsys::canonical;
use crate::proofsys::canonical::Kind;
use crate::proofsys::commit;
use crate::proofsys::commit::{BiasPoly, BiasView, OracleSource, PointMap, SourceView};
use crate::proofsys::grid;
use crate::proofsys::model;
use crate::proofsys::model::ModelWeights;
use crate::proofsys::protocol::EF;
use crate::proofsys::sumfeat;
use crate::proofsys::witness::Config;

verus! {

/// What the source functions ask of the model.
pub open spec fn sources_fit(config: Config, w: ModelWeights) -> bool {
    &&& sumfeat::weights_ready(config, w)
    &&& model::config_fits(config)
    &&& config.n_layer > 0
    &&& config.n_head > 0
    &&& 3 * config.n_head <= usize::MAX
}

/// Variables of the head dimension.
pub open spec fn head_bits(config: Config) -> nat {
    commit::ceil_log(config.d_head as int)
}

/// Variables of the sequence.
pub open spec fn seq_bits(config: Config) -> nat {
    commit::ceil_log(config.n_seq as int)
}

pub proof fn lemma_ceil_mono(a: int, b: int)
    requires
        a <= b,
    ensures
        commit::ceil_log(a) <= commit::ceil_log(b),
        commit::ceil_pow(a) <= commit::ceil_pow(b),
{
    commit::lemma_ceil_pow(a);
    commit::lemma_ceil_pow(b);
    let (x, y) = (commit::ceil_log(a), commit::ceil_log(b));
    if y < x {
        multilinear::lemma_pow2_mono(y, (x - 1) as nat);
    }
    multilinear::lemma_pow2_mono(commit::ceil_log(a), commit::ceil_log(b));
}

/// The head dimension is a part of the columns of every attention tensor.
pub proof fn lemma_head_bits(config: Config)
    requires
        canonical::sizes_fit(config),
        config.n_head > 0,
        model::config_fits(config),
    ensures
        head_bits(config) <= canonical::col_bits(config, Kind::QAo),
        head_bits(config) <= canonical::col_bits(config, Kind::QQkv),
        head_bits(config) < 64,
        seq_bits(config) < 64,
        seq_bits(config) == canonical::row_bits(config, Kind::QAo),
        seq_bits(config) == canonical::row_bits(config, Kind::QQkv),
{
    assert(config.d_head <= config.n_head * config.d_head) by (nonlinear_arith)
        requires
            config.n_head > 0,
    ;
    lemma_ceil_mono(config.d_head as int, config.d_model as int);
    lemma_ceil_mono(config.d_head as int, 3 * config.d_model);
    canonical::lemma_sizes(config, Kind::QAo);
    canonical::lemma_sizes(config, Kind::QQkv);
}

/// A bias over `k` features.
pub open spec fn feature_bias_view(b: Seq<int>, k: nat) -> BiasView {
    BiasView {
        values: Seq::new(
            commit::ceil_pow(k as int),
            |i: int|
                if i < b.len() {
                    EF::embed(b[i])
                } else {
                    EF::zero()
                },
        ),
        vars: Seq::new(commit::ceil_log(k as int), |i: int| i),
    }
}

/// A bias over `k` features, on the lowest operand variables.
pub fn feature_bias(b: &[i64], k: usize) -> (r: BiasPoly)
    requires
        b@.len() <= commit::ceil_pow(k as int) <= usize::MAX,
    ensures
        r.contents() == feature_bias_view(grid::ints(b@), k as nat),
{
    let ghost goal = feature_bias_view(grid::ints(b@), k as nat);
    let n: usize = commit::pow_ceil(k);
    let mut values: Vec<EF> = Vec::new();
    let mut i: usize = 0;
    while i < n
        invariant
            i <= n,
            n == commit::ceil_pow(k as int),
            goal == feature_bias_view(grid::ints(b@), k as nat),
            values@ == goal.values.take(i as int),
        decreases n - i,
    {
        let v: EF = if i < b.len() {
            canonical::ef(b[i])
        } else {
            EF::new_zero()
        };
        values.push(v);
        assert(goal.values.take(i + 1) =~= goal.values.take(i as int).push(goal.values[i as int]));
        i += 1;
    }
    let vars = ascending(0, commit::log_ceil(k));
    let r = BiasPoly { values, vars };
    assert(r.contents().values =~= goal.values);
    assert(r.contents().vars =~= goal.vars);
    r
}

/// `from, .., from + n - 1`.
fn ascending(from: usize, n: usize) -> (r: Vec<usize>)
    requires
        from + n <= usize::MAX,
    ensures
        commit::positions(r@) == Seq::new(n as nat, |i: int| from + i),
{
    let mut out: Vec<usize> = Vec::new();
    let mut i: usize = 0;
    while i < n
        invariant
            i <= n,
            from + n <= usize::MAX,
            out@.len() == i,
            forall|j: int| 0 <= j < i ==> #[trigger] out@[j] == from + j,
        decreases n - i,
    {
        out.push(from + i);
        i += 1;
    }
    assert(commit::positions(out@) =~= Seq::new(n as nat, |i: int| from + i));
    out
}

/// The feed-forward bias at position `k`: the column on the low variables, the
/// layer above it.
pub open spec fn fc_bias_at(config: Config, w: ModelWeights, k: int) -> EF {
    let cp = pow2(canonical::col_bits(config, Kind::QFc)) as int;
    let (l, c) = (k / cp, k % cp);
    if l < config.n_layer && c < config.mlp_hidden {
        EF::embed(w.blocks@[l].fc_b@[c] as int)
    } else {
        EF::zero()
    }
}

/// The feed-forward biases of all layers, repeated over the rows.
pub open spec fn fc_bias_view(config: Config, w: ModelWeights) -> BiasView {
    let (cb, rb, ib) = (
        canonical::col_bits(config, Kind::QFc),
        canonical::row_bits(config, Kind::QFc),
        canonical::inst_bits(config, Kind::QFc),
    );
    BiasView {
        values: Seq::new(pow2(cb + ib), |k: int| fc_bias_at(config, w, k)),
        vars: Seq::new(
            cb + ib,
            |i: int|
                if i < cb {
                    i
                } else {
                    i + rb
                },
        ),
    }
}

/// The feed-forward biases of all layers, repeated over the rows.
pub fn fc_bias(config: &Config, weights: &ModelWeights) -> (r: BiasPoly)
    requires
        sources_fit(*config, *weights),
    ensures
        r.contents() == fc_bias_view(*config, *weights),
{
    let ghost goal = fc_bias_view(*config, *weights);
    proof {
        canonical::lemma_layout_fits(*config, Kind::QFc);
    }
    let lay = canonical::layout_of(config, Kind::QFc);
    let (cb, rb, ib): (usize, usize, usize) = (lay.col_vars(), lay.row_vars(), lay.inst_vars());
    proof {
        canonical::lemma_sizes(*config, Kind::QFc);
        multilinear::lemma_pow2_mono(
            (cb + ib) as nat,
            canonical::all_bits(*config, Kind::QFc),
        );
        multilinear::lemma_pow2_mono(0, cb as nat);
        multilinear::lemma_pow2_zero();
    }
    let n: usize = commit::two_to(cb + ib);
    let cp: usize = lay.col_pow;
    let mut values: Vec<EF> = Vec::new();
    let mut k: usize = 0;
    while k < n
        invariant
            k <= n,
            sources_fit(*config, *weights),
            cp == pow2(canonical::col_bits(*config, Kind::QFc)),
            cp > 0,
            values@.len() == k,
            forall|j: int| 0 <= j < k ==> #[trigger] values@[j] == fc_bias_at(*config, *weights, j),
        decreases n - k,
    {
        let (l, c): (usize, usize) = (k / cp, k % cp);
        let mut v: EF = EF::new_zero();
        if l < config.n_layer && c < config.mlp_hidden {
            assert(weights.blocks@[l as int].wf(*config));
            let b = &weights.blocks[l];
            assert(b.fc_b.len() == b.fc_b@.len());
            v = canonical::ef(b.fc_b[c]);
        }
        values.push(v);
        k += 1;
    }
    let mut vars = ascending(0, cb);
    let mut high = ascending(cb + rb, ib);
    let ghost (lo, hi) = (vars@, high@);
    vars.append(&mut high);
    let r = BiasPoly { values, vars };
    proof {
        assert(r.contents().values =~= goal.values);
        assert(commit::positions(lo).len() == cb && commit::positions(hi).len() == ib);
        assert(vars@ =~= lo + hi);
        assert forall|i: int| 0 <= i < cb + ib implies #[trigger] r.contents().vars[i]
            == goal.vars[i] by {
            if i < cb {
                assert(commit::positions(lo)[i] == i);
                assert(r.contents().vars[i] == lo[i] as int);
            } else {
                assert(commit::positions(hi)[i - cb] == cb + rb + (i - cb));
                assert(r.contents().vars[i] == hi[i - cb] as int);
            }
        }
        assert(r.contents().vars =~= goal.vars);
    }
    r
}

/// One instance of a kind, over its element variables.
pub open spec fn slice_view(config: Config, kind: Kind, inst: nat) -> SourceView {
    commit::committed_source(
        kind.text(),
        commit::variables(0, canonical::elem_bits(config, kind)) + commit::constants(
            commit::index_bits(inst, canonical::inst_bits(config, kind)),
        ),
    )
}

/// One instance of a kind.
pub fn slice_src(config: &Config, kind: Kind, inst: usize) -> (r: OracleSource)
    requires
        canonical::sizes_fit(*config),
    ensures
        r.contents() == slice_view(*config, kind, inst as nat),
{
    proof {
        canonical::lemma_layout_fits(*config, kind);
    }
    let lay = canonical::layout_of(config, kind);
    OracleSource::committed(
        kind.name(),
        PointMap::identity(lay.elem_vars()).with_const_suffix(inst, lay.inst_vars()),
    )
}

/// A whole polynomial.
pub open spec fn whole_view(config: Config, kind: Kind) -> SourceView {
    commit::committed_source(
        kind.text(),
        commit::variables(0, canonical::all_bits(config, kind)),
    )
}

/// A whole polynomial.
pub fn whole_src(config: &Config, kind: Kind) -> (r: OracleSource)
    requires
        canonical::sizes_fit(*config),
    ensures
        r.contents() == whole_view(*config, kind),
{
    proof {
        canonical::lemma_layout_fits(*config, kind);
    }
    let lay = canonical::layout_of(config, kind);
    OracleSource::committed(kind.name(), PointMap::identity(lay.num_vars()))
}

/// The attention output of one head: a part of the columns of the layer's merged
/// output.
pub open spec fn ao_view(config: Config, layer: nat, head: nat) -> SourceView {
    let dh = head_bits(config);
    let cb = canonical::col_bits(config, Kind::QAo);
    commit::committed_source(
        Kind::QAo.text(),
        commit::variables(0, dh) + commit::constants(
            commit::index_bits(head, (cb - dh) as nat),
        ) + commit::variables(dh, seq_bits(config)) + commit::constants(
            commit::index_bits(layer, canonical::inst_bits(config, Kind::QAo)),
        ),
    )
}

/// The attention output of one head.
pub fn ao_out_slice_src(config: &Config, layer: usize, head: usize) -> (r: OracleSource)
    requires
        canonical::sizes_fit(*config),
        config.n_head > 0,
        model::config_fits(*config),
    ensures
        r.contents() == ao_view(*config, layer as nat, head as nat),
{
    proof {
        canonical::lemma_layout_fits(*config, Kind::QAo);
    }
    let lay = canonical::layout_of(config, Kind::QAo);
    let dh: usize = commit::log_ceil(config.d_head);
    let sv: usize = commit::log_ceil(config.n_seq);
    proof {
        lemma_head_bits(*config);
    }
    let map = PointMap::identity(dh).with_const_suffix(head, lay.col_vars() - dh).with_variables(
        dh,
        sv,
    ).with_const_suffix(layer, lay.inst_vars());
    OracleSource::committed(Kind::QAo.name(), map)
}

/// The left operand of a matrix product: one instance of a kind, with a bias.
pub open spec fn left_view(
    config: Config,
    kind: Kind,
    inst: nat,
    k: nat,
    row: nat,
    bias: Option<BiasView>,
) -> SourceView {
    SourceView {
        oracle: kind.text(),
        coords: commit::variables(
            0,
            commit::ceil_log(k as int) + commit::ceil_log(row as int),
        ) + commit::constants(
            commit::index_bits(inst, canonical::inst_bits(config, kind)),
        ),
        bias,
    }
}

/// The left operand of a matrix product.
pub fn a_source(
    config: &Config,
    kind: Kind,
    inst: usize,
    k: usize,
    row: usize,
    bias: Option<BiasPoly>,
) -> (r: OracleSource)
    requires
        canonical::sizes_fit(*config),
    ensures
        r.contents() == left_view(
            *config,
            kind,
            inst as nat,
            k as nat,
            row as nat,
            match bias {
                Some(b) => Some(b.contents()),
                None => None,
            },
        ),
{
    proof {
        canonical::lemma_layout_fits(*config, kind);
    }
    let iv: usize = canonical::layout_of(config, kind).inst_vars();
    let map = PointMap::identity(
        commit::log_ceil(k) + commit::log_ceil(row),
    ).with_const_suffix(inst, iv);
    let s = OracleSource::committed(kind.name(), map);
    match bias {
        Some(b) => s.with_bias(b),
        None => s,
    }
}

/// The right operand of a matrix product: a weight matrix.
pub open spec fn right_view(name: Seq<char>, k: nat, col: nat) -> SourceView {
    commit::committed_source(
        name,
        commit::variables(0, commit::ceil_log(k as int) + commit::ceil_log(col as int)),
    )
}

/// The right operand of a matrix product.
pub fn b_source(name: &str, k: usize, col: usize) -> (r: OracleSource)
    ensures
        r.contents() == right_view(name@, k as nat, col as nat),
{
    OracleSource::committed(
        name,
        PointMap::identity(commit::log_ceil(k) + commit::log_ceil(col)),
    )
}

/// The input bias of one head's queries, keys or values.
pub open spec fn head_bias(config: Config, w: ModelWeights, layer: int, part: int, head: int) -> Seq<
    int,
> {
    Seq::new(
        config.d_head as nat,
        |d: int|
            w.blocks@[layer].attn_b@[part * config.d_model + head * config.d_head + d] as int,
    )
}

/// The queries, keys or values of one head: a part of the columns of the layer's
/// joint projection, plus the bias.
pub open spec fn head_view(
    config: Config,
    w: ModelWeights,
    layer: int,
    part: int,
    head: int,
) -> SourceView {
    let dh = head_bits(config);
    let cb = canonical::col_bits(config, Kind::QQkv);
    SourceView {
        oracle: Kind::QQkv.text(),
        coords: commit::variables(0, dh) + commit::constants(
            commit::index_bits((part * config.n_head + head) as nat, (cb - dh) as nat),
        ) + commit::variables(dh, seq_bits(config)) + commit::constants(
            commit::index_bits(layer as nat, canonical::inst_bits(config, Kind::QQkv)),
        ),
        bias: Some(
            feature_bias_view(head_bias(config, w, layer, part, head), config.d_head as nat),
        ),
    }
}

/// The queries, keys or values of one head.
pub fn head_slice_src(
    config: &Config,
    weights: &ModelWeights,
    layer: usize,
    part: usize,
    head: usize,
) -> (r: OracleSource)
    requires
        sources_fit(*config, *weights),
        layer < config.n_layer,
        part < 3,
        head < config.n_head,
    ensures
        r.contents() == head_view(*config, *weights, layer as int, part as int, head as int),
{
    proof {
        canonical::lemma_layout_fits(*config, Kind::QQkv);
    }
    let lay = canonical::layout_of(config, Kind::QQkv);
    let dh: usize = commit::log_ceil(config.d_head);
    let sv: usize = commit::log_ceil(config.n_seq);
    proof {
        lemma_head_bits(*config);
        lemma_head_range(*config, part as int, head as int);
        canonical::lemma_sizes(*config, Kind::QAo);
        lemma_ceil_mono(config.d_head as int, config.d_model as int);
        commit::lemma_ceil_pow(config.d_head as int);
        assert(weights.blocks@[layer as int].wf(*config));
    }
    let g: usize = part * config.n_head + head;
    let map = PointMap::identity(dh).with_const_suffix(g, lay.col_vars() - dh).with_variables(
        dh,
        sv,
    ).with_const_suffix(layer, lay.inst_vars());
    let base: usize = part * config.d_model + head * config.d_head;
    let b = weights.blocks[layer].attn_b.as_slice();
    let part_b = vstd::slice::slice_subrange(b, base, base + config.d_head);
    let ghost full = weights.blocks@[layer as int].attn_b@;
    let bias = feature_bias(part_b, config.d_head);
    proof {
        assert(grid::ints(part_b@) =~= head_bias(
            *config,
            *weights,
            layer as int,
            part as int,
            head as int,
        ));
    }
    OracleSource::committed(Kind::QQkv.name(), map).with_bias(bias)
}

/// The columns of one head lie within the joint projection.
pub proof fn lemma_head_range(config: Config, part: int, head: int)
    requires
        canonical::sizes_fit(config),
        model::config_fits(config),
        0 <= part < 3,
        0 <= head < config.n_head,
    ensures
        config.d_head <= config.d_model,
        0 <= part * config.d_model <= 2 * config.d_model,
        0 <= head * config.d_head,
        head * config.d_head + config.d_head <= config.d_model,
        0 <= part * config.d_model + head * config.d_head,
        part * config.d_model + head * config.d_head + config.d_head <= 3 * config.d_model,
        part * config.n_head <= 2 * config.n_head,
        0 <= part * config.n_head + head < 3 * config.n_head,
        config.d_head > 0 ==> 3 * config.n_head <= 3 * config.d_model,
{
    let (n, h, d) = (config.n_head as int, config.d_head as int, config.d_model as int);
    assert(head * h + h <= n * h) by (nonlinear_arith)
        requires
            0 <= head < n,
            0 <= h,
    ;
    assert(h <= n * h) by (nonlinear_arith)
        requires
            n > 0,
            h >= 0,
    ;
    assert(0 <= part * d <= 2 * d) by (nonlinear_arith)
        requires
            0 <= part < 3,
            0 <= d,
    ;
    assert(0 <= part * n <= 2 * n) by (nonlinear_arith)
        requires
            0 <= part < 3,
            0 <= n,
    ;
    assert(0 <= head * h) by (nonlinear_arith)
        requires
            0 <= head,
            0 <= h,
    ;
    if h > 0 {
        assert(n <= n * h) by (nonlinear_arith)
            requires
                h >= 1,
                n >= 0,
        ;
    }
}

/// The softmax sums of one head, repeated over the keys.
pub open spec fn sums_view(config: Config, inst: nat) -> SourceView {
    commit::committed_source(
        Kind::SumExp.text(),
        commit::variables(
            canonical::col_bits(config, Kind::QProb),
            canonical::row_bits(config, Kind::QProb),
        ) + commit::constants(
            commit::index_bits(inst, canonical::inst_bits(config, Kind::SumExp)),
        ),
    )
}

/// The softmax sums of one head, repeated over the keys.
pub fn sum_exp_bc_src(config: &Config, inst: usize) -> (r: OracleSource)
    requires
        canonical::sizes_fit(*config),
    ensures
        r.contents() == sums_view(*config, inst as nat),
{
    proof {
        canonical::lemma_layout_fits(*config, Kind::QProb);
    }
    let qp = canonical::layout_of(config, Kind::QProb);
    proof {
        canonical::lemma_layout_fits(*config, Kind::SumExp);
    }
    let iv: usize = canonical::layout_of(config, Kind::SumExp).inst_vars();
    let map = PointMap(Vec::new()).with_variables(
        qp.col_vars(),
        qp.row_vars(),
    ).with_const_suffix(inst, iv);
    assert(map.0@ =~= commit::variables(
        canonical::col_bits(*config, Kind::QProb),
        canonical::row_bits(*config, Kind::QProb),
    ) + commit::constants(
        commit::index_bits(inst as nat, canonical::inst_bits(*config, Kind::SumExp)),
    ));
    OracleSource::committed(Kind::SumExp.name(), map)
}

/// The deviations of all normalizations, repeated over the features.
pub open spec fn deviations_view(config: Config) -> SourceView {
    commit::committed_source(
        Kind::Std.text(),
        commit::variables(
            canonical::col_bits(config, Kind::ALn),
            canonical::row_bits(config, Kind::ALn) + canonical::inst_bits(config, Kind::ALn),
        ),
    )
}

/// The deviations of all normalizations, repeated over the features.
pub fn std_bc_src(config: &Config) -> (r: OracleSource)
    requires
        canonical::sizes_fit(*config),
    ensures
        r.contents() == deviations_view(*config),
{
    proof {
        canonical::lemma_layout_fits(*config, Kind::ALn);
    }
    let aln = canonical::layout_of(config, Kind::ALn);
    let map = PointMap(Vec::new()).with_variables(
        aln.col_vars(),
        aln.row_vars() + aln.inst_vars(),
    );
    assert(map.0@ =~= commit::variables(
        canonical::col_bits(*config, Kind::ALn),
        canonical::row_bits(*config, Kind::ALn) + canonical::inst_bits(*config, Kind::ALn),
    ));
    OracleSource::committed(Kind::Std.name(), map)
}

} // verus!
