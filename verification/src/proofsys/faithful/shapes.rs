//! The shapes of segments and checks: every operand fits its point, and every
//! opened polynomial has the right number of variables.
use vstd::prelude::*;
use vstd::arithmetic::power2::pow2;
use crate::algebra;
use crate::field::Field;
use crate::multilinear;
use crate::proofsys::canonical;
use crate::proofsys::canonical::{Kind, WeightKind, WTE};
use crate::proofsys::commit;
use crate::proofsys::commit::{BiasView, Coord, SourceView};
use crate::proofsys::faithful::segments;
use crate::proofsys::faithful::segments::{
    CheckView, DescView, LinearView, Mm, SegView, TypeAOp, CHECKS, E, TABLE_IN, TABLE_OUT,
    TABLE_TYPE,
};
use crate::proofsys::faithful::sources;
use crate::proofsys::faithful::table;
use crate::proofsys::grid;
use crate::proofsys::model::ModelWeights;
use crate::proofsys::protocol::EF;
use crate::proofsys::witness::Config;

verus! {

/// Variables of a weight matrix.
pub open spec fn weight_bits(config: Config, kind: WeightKind) -> nat {
    let (d, h) = (config.d_model as int, config.mlp_hidden as int);
    match kind {
        WeightKind::AttnW => commit::ceil_log(d) + commit::ceil_log(3 * d),
        WeightKind::AttnProjW => commit::ceil_log(d) + commit::ceil_log(d),
        WeightKind::FcW => commit::ceil_log(d) + commit::ceil_log(h),
        WeightKind::FprojW => commit::ceil_log(h) + commit::ceil_log(d),
    }
}

pub open spec fn is_kind_poly(config: Config, k: Kind, name: Seq<char>, bits: nat) -> bool {
    name == k.text() && bits == canonical::all_bits(config, k)
}

pub open spec fn is_weight_poly(
    config: Config,
    k: WeightKind,
    l: nat,
    name: Seq<char>,
    bits: nat,
) -> bool {
    name == k.text(l) && l < config.n_layer && bits == weight_bits(config, k)
}

pub open spec fn is_limb_poly(config: Config, i: int, name: Seq<char>, bits: nat) -> bool {
    0 <= i < CHECKS && name == segments::check_at(config, i).limbs && bits
        == canonical::all_bits(config, segments::check_at(config, i).value) + 1
}

/// A polynomial `name` with `bits` variables belongs to the commitments besides the
/// multiplicities.
pub open spec fn named_bits(config: Config, w: ModelWeights, name: Seq<char>, bits: nat) -> bool {
    ||| exists|k: Kind| #[trigger] is_kind_poly(config, k, name, bits)
    ||| exists|k: WeightKind, l: nat| #[trigger] is_weight_poly(config, k, l, name, bits)
    ||| exists|i: int| #[trigger] is_limb_poly(config, i, name, bits)
    ||| name == WTE@ && bits == commit::ceil_log(config.vocab as int) + commit::ceil_log(
        config.d_model as int,
    )
    ||| (name == TABLE_IN@ || name == TABLE_OUT@ || name == TABLE_TYPE@) && bits
        == table::table_bits(config, w)
}

/// All polynomials besides the multiplicities are stored with their numbers of
/// variables.
pub open spec fn ready(polys: Map<Seq<char>, Seq<EF>>, config: Config, w: ModelWeights) -> bool {
    forall|name: Seq<char>, bits: nat| #[trigger]
        named_bits(config, w, name, bits) ==> polys.contains_key(name) && polys[name].len()
            == pow2(bits)
}

/// All polynomials of the protocol are stored with their numbers of variables.
pub open spec fn all_ready(polys: Map<Seq<char>, Seq<EF>>, config: Config, w: ModelWeights) -> bool {
    &&& ready(polys, config, w)
    &&& polys.contains_key(E@)
    &&& polys[E@].len() == pow2(table::table_bits(config, w))
}

/// The values of a bias are field elements.
pub open spec fn bias_valid(bias: Option<BiasView>) -> bool {
    bias is Some ==> algebra::all_valid(bias->0.values)
}

/// Points of length `n` determine the operand, and its polynomial belongs to the
/// commitments.
pub open spec fn source_ok(config: Config, w: ModelWeights, src: SourceView, n: nat) -> bool {
    &&& src.fits(n)
    &&& src.injective()
    &&& bias_valid(src.bias)
    &&& named_bits(config, w, src.oracle, src.coords.len())
}

/// All linear terms are determined by points of length `n`.
pub open spec fn linears_ok(
    config: Config,
    w: ModelWeights,
    linears: Seq<LinearView>,
    n: nat,
) -> bool {
    forall|i: int| 0 <= i < linears.len() ==> source_ok(config, w, (#[trigger] linears[i]).src, n)
}

/// A segment's operands fit.
pub open spec fn segment_ok(config: Config, w: ModelWeights, d: DescView) -> bool {
    &&& d.vars < 64
    &&& match d.kind {
        SegView::Direct { bias, offset, out } => {
            &&& named_bits(config, w, d.oracle_in, d.vars)
            &&& bias is Some ==> bias->0.fits(d.vars) && bias->0.injective()
            &&& bias_valid(bias)
            &&& out is Some ==> named_bits(config, w, out->0, d.vars)
        },
        SegView::TypeA { divisor, mk, q, a, b, op } => {
            &&& segments::op_within(config, op)
            &&& mk == segments::kind_of_mm(op.mm)
            &&& divisor == segments::divisor_of(config, op.mm)
            &&& d.vars == segments::mm_col_bits(config, op.mm) + segments::mm_row_bits(
                config,
                op.mm,
            )
            &&& source_ok(config, w, q, d.vars)
            &&& source_ok(
                config,
                w,
                a,
                segments::mm_bits(config, op.mm) + segments::mm_row_bits(config, op.mm),
            )
            &&& source_ok(
                config,
                w,
                b,
                segments::mm_bits(config, op.mm) + segments::mm_col_bits(config, op.mm),
            )
            &&& segments::mm_bits(config, op.mm) < 64
        },
        SegView::TypeB { left, right, coeff, linears, constant, instance } => {
            &&& source_ok(config, w, left, d.vars)
            &&& source_ok(config, w, right, d.vars)
            &&& linears_ok(config, w, linears, d.vars)
            &&& constant.valid()
            &&& d.vars == canonical::elem_bits(config, Kind::QProb)
            &&& instance.layer < config.n_layer
            &&& instance.head < config.n_head
        },
    }
}

/// A check's operands fit.
pub open spec fn check_ok(config: Config, w: ModelWeights, c: CheckView) -> bool {
    let n = canonical::all_bits(config, c.value);
    &&& named_bits(config, w, c.limbs, n + 1)
    &&& c.prod is Some ==> source_ok(config, w, (c.prod->0).0, n) && source_ok(
        config,
        w,
        (c.prod->0).1,
        n,
    )
    &&& linears_ok(config, w, c.linears, n)
    &&& c.constant.valid()
}

/// A source stays determined by longer points.
pub proof fn lemma_fits_more(src: SourceView, n: nat, m: nat)
    requires
        src.fits(n),
        n <= m,
    ensures
        src.fits(m),
{
    assert forall|i: int| 0 <= i < src.coords.len() implies commit::coord_within(
        #[trigger] src.coords[i],
        m,
    ) by {
        assert(commit::coord_within(src.coords[i], n));
    }
    if src.bias is Some {
        let b = src.bias->0;
        assert forall|i: int| 0 <= i < b.vars.len() implies 0 <= #[trigger] b.vars[i] < m by {
            assert(b.vars[i] < n);
        }
    }
}

proof fn lemma_slice_ok(config: Config, w: ModelWeights, kind: Kind, inst: nat)
    requires
        segments::segments_fit(config, w),
    ensures
        source_ok(
            config,
            w,
            sources::slice_view(config, kind, inst),
            canonical::elem_bits(config, kind),
        ),
{
    let src = sources::slice_view(config, kind, inst);
    let n = canonical::elem_bits(config, kind);
    commit::lemma_index_bits(inst, canonical::inst_bits(config, kind));
    canonical::lemma_sizes(config, kind);
    assert forall|i: int| 0 <= i < src.coords.len() implies commit::coord_within(
        #[trigger] src.coords[i],
        n,
    ) by {
        if i < n {
            assert(src.coords[i] == Coord::Var(i as usize));
        }
    }
    assert(is_kind_poly(config, kind, src.oracle, src.coords.len()));
}

proof fn lemma_whole_ok(config: Config, w: ModelWeights, kind: Kind, n: nat)
    requires
        segments::segments_fit(config, w),
        n == canonical::all_bits(config, kind),
    ensures
        source_ok(config, w, sources::whole_view(config, kind), n),
{
    let src = sources::whole_view(config, kind);
    canonical::lemma_sizes(config, kind);
    assert forall|i: int| 0 <= i < src.coords.len() implies commit::coord_within(
        #[trigger] src.coords[i],
        n,
    ) by {
        assert(src.coords[i] == Coord::Var(i as usize));
    }
    assert(is_kind_poly(config, kind, src.oracle, src.coords.len()));
}

proof fn lemma_bias_fits(b: Seq<int>, k: nat, n: nat)
    requires
        commit::ceil_log(k as int) <= n,
    ensures
        sources::feature_bias_view(b, k).fits(n),
        sources::feature_bias_view(b, k).injective(),
        algebra::all_valid(sources::feature_bias_view(b, k).values),
{
    let v = sources::feature_bias_view(b, k).values;
    assert forall|i: int| 0 <= i < v.len() implies (#[trigger] v[i]).valid() by {
        EF::law_embed(b[i], 0);
        EF::law_valid(EF::zero(), EF::zero());
    }
}

proof fn lemma_left_ok(
    config: Config,
    w: ModelWeights,
    kind: Kind,
    inst: nat,
    k: nat,
    row: nat,
    bias: Option<BiasView>,
)
    requires
        segments::segments_fit(config, w),
        commit::ceil_log(k as int) == canonical::col_bits(config, kind),
        commit::ceil_log(row as int) == canonical::row_bits(config, kind),
        bias is Some ==> bias->0.fits(
            commit::ceil_log(k as int) + commit::ceil_log(row as int),
        ) && bias->0.injective(),
        bias_valid(bias),
    ensures
        source_ok(
            config,
            w,
            sources::left_view(config, kind, inst, k, row, bias),
            commit::ceil_log(k as int) + commit::ceil_log(row as int),
        ),
{
    let src = sources::left_view(config, kind, inst, k, row, bias);
    let n = commit::ceil_log(k as int) + commit::ceil_log(row as int);
    commit::lemma_index_bits(inst, canonical::inst_bits(config, kind));
    canonical::lemma_sizes(config, kind);
    assert forall|i: int| 0 <= i < src.coords.len() implies commit::coord_within(
        #[trigger] src.coords[i],
        n,
    ) by {
        if i < n {
            assert(src.coords[i] == Coord::Var(i as usize));
        }
    }
    assert(is_kind_poly(config, kind, src.oracle, src.coords.len()));
}

proof fn lemma_right_ok(config: Config, w: ModelWeights, name: Seq<char>, k: nat, col: nat)
    requires
        segments::segments_fit(config, w),
        commit::ceil_log(k as int) + commit::ceil_log(col as int) <= usize::MAX,
        named_bits(
            config,
            w,
            name,
            commit::ceil_log(k as int) + commit::ceil_log(col as int),
        ),
    ensures
        source_ok(
            config,
            w,
            sources::right_view(name, k, col),
            commit::ceil_log(k as int) + commit::ceil_log(col as int),
        ),
{
    let src = sources::right_view(name, k, col);
    let n = commit::ceil_log(k as int) + commit::ceil_log(col as int);
    assert forall|i: int| 0 <= i < src.coords.len() implies commit::coord_within(
        #[trigger] src.coords[i],
        n,
    ) by {
        assert(src.coords[i] == Coord::Var(i as usize));
    }
}

/// The coordinates of a part of the columns.
proof fn lemma_part_coords(dh: nat, mid: Seq<bool>, sb: nat, tail: Seq<bool>)
    requires
        dh + sb <= usize::MAX,
    ensures
        ({
            let coords = commit::variables(0, dh) + commit::constants(mid) + commit::variables(
                dh,
                sb,
            ) + commit::constants(tail);
            &&& coords.len() == dh + mid.len() + sb + tail.len()
            &&& commit::coords_within(coords, dh + sb)
        }),
{
    let coords = commit::variables(0, dh) + commit::constants(mid) + commit::variables(dh, sb)
        + commit::constants(tail);
    let n = dh + sb;
    assert forall|i: int| 0 <= i < coords.len() implies commit::coord_within(
        #[trigger] coords[i],
        n,
    ) by {
        if i < dh {
            assert(coords[i] == Coord::Var(i as usize));
        } else if dh + mid.len() <= i < dh + mid.len() + sb {
            assert(coords[i] == Coord::Var((dh + (i - dh - mid.len())) as usize));
        }
    }
}

proof fn lemma_head_ok(config: Config, w: ModelWeights, layer: int, part: int, head: int)
    requires
        segments::segments_fit(config, w),
        0 <= layer,
        0 <= part,
        0 <= head,
    ensures
        source_ok(
            config,
            w,
            sources::head_view(config, w, layer, part, head),
            sources::head_bits(config) + sources::seq_bits(config),
        ),
{
    let src = sources::head_view(config, w, layer, part, head);
    let (dh, sb) = (sources::head_bits(config), sources::seq_bits(config));
    let cb = canonical::col_bits(config, Kind::QQkv);
    let ib = canonical::inst_bits(config, Kind::QQkv);
    sources::lemma_head_bits(config);
    let g = (part * config.n_head + head) as nat;
    commit::lemma_index_bits(g, (cb - dh) as nat);
    commit::lemma_index_bits(layer as nat, ib);
    lemma_part_coords(
        dh,
        commit::index_bits(g, (cb - dh) as nat),
        sb,
        commit::index_bits(layer as nat, ib),
    );
    lemma_bias_fits(
        sources::head_bias(config, w, layer, part, head),
        config.d_head as nat,
        dh + sb,
    );
    assert(is_kind_poly(config, Kind::QQkv, src.oracle, src.coords.len()));
}

proof fn lemma_ao_ok(config: Config, w: ModelWeights, layer: nat, head: nat)
    requires
        segments::segments_fit(config, w),
    ensures
        source_ok(
            config,
            w,
            sources::ao_view(config, layer, head),
            sources::head_bits(config) + sources::seq_bits(config),
        ),
{
    let src = sources::ao_view(config, layer, head);
    let (dh, sb) = (sources::head_bits(config), sources::seq_bits(config));
    let cb = canonical::col_bits(config, Kind::QAo);
    let ib = canonical::inst_bits(config, Kind::QAo);
    sources::lemma_head_bits(config);
    commit::lemma_index_bits(head, (cb - dh) as nat);
    commit::lemma_index_bits(layer, ib);
    lemma_part_coords(
        dh,
        commit::index_bits(head, (cb - dh) as nat),
        sb,
        commit::index_bits(layer, ib),
    );
    assert(is_kind_poly(config, Kind::QAo, src.oracle, src.coords.len()));
}

proof fn lemma_sums_ok(config: Config, w: ModelWeights, inst: nat)
    requires
        segments::segments_fit(config, w),
    ensures
        source_ok(
            config,
            w,
            sources::sums_view(config, inst),
            canonical::elem_bits(config, Kind::Exp),
        ),
{
    let src = sources::sums_view(config, inst);
    let n = canonical::elem_bits(config, Kind::Exp);
    let cb = canonical::col_bits(config, Kind::QProb);
    commit::lemma_index_bits(inst, canonical::inst_bits(config, Kind::SumExp));
    canonical::lemma_sizes(config, Kind::SumExp);
    canonical::lemma_sizes(config, Kind::QProb);
    multilinear::lemma_pow2_zero();
    commit::lemma_ceil_log(1, 0);
    assert forall|i: int| 0 <= i < src.coords.len() implies commit::coord_within(
        #[trigger] src.coords[i],
        n,
    ) by {
        if i < canonical::row_bits(config, Kind::QProb) {
            assert(src.coords[i] == Coord::Var((cb + i) as usize));
        }
    }
    assert(is_kind_poly(config, Kind::SumExp, src.oracle, src.coords.len()));
}

proof fn lemma_deviations_ok(config: Config, w: ModelWeights)
    requires
        segments::segments_fit(config, w),
    ensures
        source_ok(
            config,
            w,
            sources::deviations_view(config),
            canonical::all_bits(config, Kind::ALn),
        ),
{
    let src = sources::deviations_view(config);
    let n = canonical::all_bits(config, Kind::ALn);
    let cb = canonical::col_bits(config, Kind::ALn);
    canonical::lemma_sizes(config, Kind::ALn);
    canonical::lemma_sizes(config, Kind::Std);
    multilinear::lemma_pow2_zero();
    commit::lemma_ceil_log(1, 0);
    assert forall|i: int| 0 <= i < src.coords.len() implies commit::coord_within(
        #[trigger] src.coords[i],
        n,
    ) by {
        assert(src.coords[i] == Coord::Var((cb + i) as usize));
    }
    assert(is_kind_poly(config, Kind::Std, src.oracle, src.coords.len()));
}

proof fn lemma_left_source_ok(config: Config, w: ModelWeights, op: TypeAOp)
    requires
        segments::segments_fit(config, w),
        segments::op_within(config, op),
    ensures
        source_ok(
            config,
            w,
            segments::left_source(config, w, op),
            segments::mm_bits(config, op.mm) + segments::mm_row_bits(config, op.mm),
        ),
{
    let (k, row, col) = segments::mm_shape(config, op.mm);
    let n = segments::mm_bits(config, op.mm) + segments::mm_row_bits(config, op.mm);
    let l = op.layer as int;
    match op.mm {
        Mm::Qkv => {
            let b = grid::ints(w.blocks@[l].ln_1_b@);
            lemma_bias_fits(b, k, n);
            lemma_left_ok(
                config,
                w,
                Kind::QLn,
                (2 * l) as nat,
                k,
                row,
                Some(sources::feature_bias_view(b, k)),
            );
        },
        Mm::Fc => {
            let b = grid::ints(w.blocks@[l].ln_2_b@);
            lemma_bias_fits(b, k, n);
            lemma_left_ok(
                config,
                w,
                Kind::QLn,
                (2 * l + 1) as nat,
                k,
                row,
                Some(sources::feature_bias_view(b, k)),
            );
        },
        Mm::Fpr => {
            lemma_left_ok(config, w, Kind::Act, l as nat, k, row, None);
        },
        Mm::Apr => {
            lemma_left_ok(config, w, Kind::QAo, l as nat, k, row, None);
        },
        Mm::Log => {
            let b = grid::ints(w.ln_f_b@);
            lemma_bias_fits(b, k, n);
            lemma_left_ok(
                config,
                w,
                Kind::QLn,
                (2 * config.n_layer) as nat,
                k,
                row,
                Some(sources::feature_bias_view(b, k)),
            );
        },
        Mm::Sc => {
            lemma_head_ok(config, w, l, 0, op.head as int);
        },
        Mm::Ao => {
            lemma_left_ok(
                config,
                w,
                Kind::QProb,
                (op.layer * config.n_head + op.head) as nat,
                k,
                row,
                None,
            );
        },
    }
}

proof fn lemma_right_source_ok(config: Config, w: ModelWeights, op: TypeAOp)
    requires
        segments::segments_fit(config, w),
        segments::op_within(config, op),
    ensures
        source_ok(
            config,
            w,
            segments::right_source(config, w, op),
            segments::mm_bits(config, op.mm) + segments::mm_col_bits(config, op.mm),
        ),
{
    let (k, row, col) = segments::mm_shape(config, op.mm);
    let n = segments::mm_bits(config, op.mm) + segments::mm_col_bits(config, op.mm);
    let l = op.layer as nat;
    canonical::lemma_sizes(config, Kind::QQkv);
    canonical::lemma_sizes(config, Kind::QAo);
    canonical::lemma_sizes(config, Kind::QFc);
    canonical::lemma_sizes(config, Kind::QLog);
    match op.mm {
        Mm::Qkv => {
            assert(is_weight_poly(
                config,
                WeightKind::AttnW,
                l,
                WeightKind::AttnW.text(l),
                n,
            ));
            lemma_right_ok(config, w, WeightKind::AttnW.text(l), k, col);
        },
        Mm::Fc => {
            assert(is_weight_poly(config, WeightKind::FcW, l, WeightKind::FcW.text(l), n));
            lemma_right_ok(config, w, WeightKind::FcW.text(l), k, col);
        },
        Mm::Fpr => {
            assert(is_weight_poly(
                config,
                WeightKind::FprojW,
                l,
                WeightKind::FprojW.text(l),
                n,
            ));
            lemma_right_ok(config, w, WeightKind::FprojW.text(l), k, col);
        },
        Mm::Apr => {
            assert(is_weight_poly(
                config,
                WeightKind::AttnProjW,
                l,
                WeightKind::AttnProjW.text(l),
                n,
            ));
            lemma_right_ok(config, w, WeightKind::AttnProjW.text(l), k, col);
        },
        Mm::Log => {
            lemma_right_ok(config, w, WTE@, k, col);
        },
        Mm::Sc => {
            lemma_head_ok(config, w, op.layer as int, 1, op.head as int);
        },
        Mm::Ao => {
            lemma_head_ok(config, w, op.layer as int, 2, op.head as int);
        },
    }
}

/// The segment of a matrix product fits.
pub proof fn lemma_product_ok(config: Config, w: ModelWeights, op: TypeAOp)
    requires
        segments::segments_fit(config, w),
        segments::op_within(config, op),
    ensures
        segment_ok(config, w, segments::product_desc(config, w, op)),
{
    lemma_left_source_ok(config, w, op);
    lemma_right_source_ok(config, w, op);
    canonical::lemma_sizes(config, segments::quotient_kind(op.mm));
    canonical::lemma_sizes(config, Kind::QSc);
    canonical::lemma_sizes(config, Kind::QQkv);
    canonical::lemma_sizes(config, Kind::QAo);
    canonical::lemma_sizes(config, Kind::QFc);
    sources::lemma_head_bits(config);
    match op.mm {
        Mm::Ao => {
            lemma_ao_ok(config, w, op.layer as nat, op.head as nat);
        },
        Mm::Sc => {
            lemma_slice_ok(
                config,
                w,
                Kind::QSc,
                (op.layer * config.n_head + op.head) as nat,
            );
        },
        Mm::Log => {
            lemma_slice_ok(config, w, Kind::QLog, 0);
        },
        _ => {
            lemma_slice_ok(config, w, segments::quotient_kind(op.mm), op.layer as nat);
        },
    }
}

proof fn lemma_softmax_ok(config: Config, w: ModelWeights, inst: nat, upper: bool)
    requires
        segments::segments_fit(config, w),
        inst < config.n_layer * config.n_head,
    ensures
        segment_ok(config, w, segments::softmax_desc(config, inst, upper)),
{
    grid::lemma_position(config.n_layer as nat, config.n_head as nat, inst as int);
    EF::law_valid(EF::one(), EF::one());
    lemma_slice_ok(config, w, Kind::QProb, inst);
    lemma_slice_ok(config, w, Kind::Exp, inst);
    lemma_sums_ok(config, w, inst);
    canonical::lemma_sizes(config, Kind::Exp);
}

/// Every check fits.
pub proof fn lemma_check_ok(config: Config, w: ModelWeights, i: int)
    requires
        segments::segments_fit(config, w),
        0 <= i < CHECKS,
    ensures
        check_ok(config, w, segments::check_at(config, i)),
        canonical::all_bits(config, segments::check_at(config, i).value) < 64,
{
    let c = segments::check_at(config, i);
    let n = canonical::all_bits(config, c.value);
    canonical::lemma_sizes(config, c.value);
    EF::law_valid(EF::one(), EF::one());
    EF::law_embed(segments::QUOTIENT_LIMB_OFFSET as int, 0);
    assert(is_limb_poly(config, i, c.limbs, n + 1));
    if i < 2 {
        lemma_whole_ok(config, w, Kind::QLn, n);
        lemma_whole_ok(config, w, Kind::ALn, n);
        lemma_deviations_ok(config, w);
    } else if i < 4 {
        lemma_whole_ok(config, w, Kind::Std, n);
        lemma_whole_ok(config, w, Kind::Var, n);
    } else {
        lemma_whole_ok(config, w, c.value, n);
    }
}

proof fn lemma_direct_ok(config: Config, w: ModelWeights, i: int)
    requires
        segments::segments_fit(config, w),
        0 <= i < segments::direct_descs(config, w).len(),
        forall|k: int|
            0 <= k < CHECKS ==> (#[trigger] canonical::all_bits(
                config,
                segments::check_at(config, k).value,
            )) < 63,
    ensures
        segment_ok(config, w, segments::direct_descs(config, w)[i]),
{
    canonical::lemma_sizes(config, Kind::QProb);
    canonical::lemma_sizes(config, Kind::QFc);
    if i == 0 {
        assert(is_kind_poly(
            config,
            Kind::QProb,
            Kind::QProb.text(),
            canonical::all_bits(config, Kind::QProb),
        ));
    } else if i == 1 {
        let n = canonical::all_bits(config, Kind::QFc);
        assert(is_kind_poly(config, Kind::QFc, Kind::QFc.text(), n));
        assert(is_kind_poly(config, Kind::Act, Kind::Act.text(), n));
        let b = sources::fc_bias_view(config, w);
        assert(b.fits(n));
        assert(b.injective());
        assert forall|k: int| 0 <= k < b.values.len() implies (#[trigger] b.values[k]).valid() by {
            let cp = pow2(canonical::col_bits(config, Kind::QFc)) as int;
            EF::law_embed(w.blocks@[k / cp].fc_b@[k % cp] as int, 0);
            EF::law_valid(EF::zero(), EF::zero());
        }
    } else {
        lemma_check_ok(config, w, i - 2);
        assert(canonical::all_bits(config, segments::check_at(config, i - 2).value) < 63);
    }
}

/// Every listed segment fits, if the limb polynomials do.
proof fn lemma_listed_ok(config: Config, w: ModelWeights, i: int)
    requires
        segments::segments_fit(config, w),
        0 <= i < segments::listed(config, w).len(),
        forall|k: int|
            0 <= k < CHECKS ==> (#[trigger] canonical::all_bits(
                config,
                segments::check_at(config, k).value,
            )) < 63,
    ensures
        segment_ok(config, w, segments::listed(config, w)[i]),
{
    let a = segments::direct_descs(config, w);
    let n = config.n_layer as int;
    let m = a.len();
    if i < m {
        lemma_direct_ok(config, w, i);
        assert(segments::listed(config, w)[i] == a[i]);
    } else if i < m + 4 * n {
        let j = i - m;
        let mm = if j < n {
            Mm::Qkv
        } else if j < 2 * n {
            Mm::Fc
        } else if j < 3 * n {
            Mm::Fpr
        } else {
            Mm::Apr
        };
        let l = if j < n {
            j
        } else if j < 2 * n {
            j - n
        } else if j < 3 * n {
            j - 2 * n
        } else {
            j - 3 * n
        };
        let op = TypeAOp { mm, layer: l as usize, head: 0 };
        lemma_product_ok(config, w, op);
        assert(segments::listed(config, w)[i] == segments::product_desc(config, w, op));
    } else if i == m + 4 * n {
        lemma_product_ok(config, w, TypeAOp { mm: Mm::Log, layer: 0, head: 0 });
    } else {
        let j = i - m - 4 * n - 1;
        let inst = j / 4;
        grid::lemma_position(config.n_layer as nat, config.n_head as nat, inst);
        let (layer, head) = (inst / config.n_head as int, inst % config.n_head as int);
        assert(segments::listed(config, w)[i] == segments::head_desc(config, w, j));
        lemma_product_ok(
            config,
            w,
            TypeAOp { mm: Mm::Sc, layer: layer as usize, head: head as usize },
        );
        lemma_product_ok(
            config,
            w,
            TypeAOp { mm: Mm::Ao, layer: layer as usize, head: head as usize },
        );
        lemma_softmax_ok(config, w, inst as nat, j % 4 == 3);
    }
}

/// All segments fit.
pub open spec fn all_ok(config: Config, w: ModelWeights, s: Seq<DescView>) -> bool {
    forall|i: int| 0 <= i < s.len() ==> segment_ok(config, w, #[trigger] s[i])
}

proof fn lemma_insert_ok(config: Config, w: ModelWeights, s: Seq<DescView>, d: DescView)
    requires
        all_ok(config, w, s),
        segment_ok(config, w, d),
    ensures
        all_ok(config, w, segments::insert_desc(s, d)),
        segments::insert_desc(s, d).len() == s.len() + 1,
    decreases s.len(),
{
    if s.len() > 0 && s.last().vars < d.vars {
        assert(all_ok(config, w, s.drop_last()));
        lemma_insert_ok(config, w, s.drop_last(), d);
        assert(segment_ok(config, w, s[s.len() - 1]));
    }
}

proof fn lemma_sorted_ok(config: Config, w: ModelWeights, s: Seq<DescView>)
    requires
        all_ok(config, w, s),
    ensures
        all_ok(config, w, segments::sorted(s)),
        segments::sorted(s).len() == s.len(),
    decreases s.len(),
{
    if s.len() > 0 {
        assert(all_ok(config, w, s.drop_last()));
        lemma_sorted_ok(config, w, s.drop_last());
        assert(segment_ok(config, w, s[s.len() - 1]));
        lemma_insert_ok(config, w, segments::sorted(s.drop_last()), s.last());
    }
}

/// The limb polynomials fit a machine word.
pub open spec fn limbs_fit(config: Config) -> bool {
    forall|k: int|
        0 <= k < CHECKS ==> pow2(
            (#[trigger] canonical::all_bits(config, segments::check_at(config, k).value) + 1) as nat,
        ) <= usize::MAX
}

/// Every segment of the query fits.
pub proof fn lemma_segments_ok(config: Config, w: ModelWeights)
    requires
        segments::segments_fit(config, w),
        limbs_fit(config),
    ensures
        all_ok(config, w, segments::all_segments(config, w)),
{
    reveal(segments::all_segments);
    assert forall|k: int| 0 <= k < CHECKS implies (#[trigger] canonical::all_bits(
        config,
        segments::check_at(config, k).value,
    )) < 63 by {
        crate::utils::sumcheck::lemma_exponent_small(
            (canonical::all_bits(config, segments::check_at(config, k).value) + 1) as nat,
        );
    }
    let s = segments::listed(config, w);
    assert forall|i: int| 0 <= i < s.len() implies segment_ok(config, w, #[trigger] s[i]) by {
        lemma_listed_ok(config, w, i);
    }
    lemma_sorted_ok(config, w, s);
    let t = segments::sorted(s);
    let p = segments::placed(t);
    assert forall|i: int| 0 <= i < p.len() implies segment_ok(config, w, #[trigger] p[i]) by {
        assert(segment_ok(config, w, t[i]));
    }
}

} // verus!
