//! Completeness for a forward pass: the polynomials that are committed for it commit to
//! a run whose query rows are all rows of the table.
use vstd::prelude::*;
use vstd::arithmetic::power2;
use vstd::arithmetic::power2::pow2;
use crate::algebra;
use crate::field::Field;
use crate::multilinear;
use crate::proofsys::canonical;
use crate::proofsys::canonical::{Kind, WeightKind, WTE};
use crate::proofsys::commit;
use crate::proofsys::completeness;
use crate::proofsys::faithful::commitments;
use crate::proofsys::faithful::completeness::committed;
use crate::proofsys::faithful::completeness::listed;
use crate::proofsys::faithful::completeness::opened;
use crate::proofsys::faithful::completeness::query;
use crate::proofsys::faithful::openings::UnifiedProof;
use crate::proofsys::faithful::protocol;
use crate::proofsys::faithful::segments;
use crate::proofsys::faithful::segments::{
    DescView, LinearView, Mm, SegView, TypeAOp, CHECKS, E, TABLE_IN, TABLE_OUT, TABLE_TYPE,
};
use crate::proofsys::faithful::shapes;
use crate::proofsys::faithful::sources;
use crate::proofsys::faithful::table;
use crate::proofsys::faithful::values;
use crate::proofsys::grid;
use crate::proofsys::grid::Grid;
use crate::proofsys::model;
use crate::proofsys::model::ModelWeights;
use crate::proofsys::protocol::EF;
use crate::proofsys::witness::{Config, Witness, WitnessView};

verus! {

/// Two sets of polynomials hold the same polynomial under a name.
spec fn same_at(a: Map<Seq<char>, Seq<EF>>, b: Map<Seq<char>, Seq<EF>>, name: Seq<char>) -> bool {
    a[name] == b[name]
}

/// All linear terms read polynomials on which two sets agree.
spec fn same_linears(
    a: Map<Seq<char>, Seq<EF>>,
    b: Map<Seq<char>, Seq<EF>>,
    linears: Seq<LinearView>,
) -> bool {
    forall|j: int|
        0 <= j < linears.len() ==> same_at(a, b, (#[trigger] linears[j]).src.oracle)
}

proof fn lemma_same_terms(
    a: Map<Seq<char>, Seq<EF>>,
    b: Map<Seq<char>, Seq<EF>>,
    linears: Seq<LinearView>,
    n: nat,
    i: int,
)
    requires
        same_linears(a, b, linears),
    ensures
        values::vertex_terms(linears, a, n, i) == values::vertex_terms(linears, b, n, i),
{
    let (x, y) = (
        values::vertex_terms(linears, a, n, i),
        values::vertex_terms(linears, b, n, i),
    );
    assert forall|j: int| 0 <= j < x.len() implies #[trigger] x[j] == y[j] by {
        assert(same_at(a, b, linears[j].src.oracle));
    }
    assert(x =~= y);
}

/// Two sets hold the same witness polynomials.
spec fn same_kinds(a: Map<Seq<char>, Seq<EF>>, b: Map<Seq<char>, Seq<EF>>) -> bool {
    forall|k: Kind| same_at(a, b, #[trigger] k.text())
}

/// The values of a check are read from the witness polynomials alone.
proof fn lemma_same_target(
    config: Config,
    a: Map<Seq<char>, Seq<EF>>,
    b: Map<Seq<char>, Seq<EF>>,
    c: int,
    i: int,
)
    requires
        0 <= c < CHECKS,
        same_kinds(a, b),
    ensures
        commitments::target_at(segments::check_at(config, c), a, config, i)
            == commitments::target_at(segments::check_at(config, c), b, config, i),
{
    let v = segments::check_at(config, c);
    assert(same_at(a, b, Kind::QLn.text()));
    assert(same_at(a, b, Kind::ALn.text()));
    assert(same_at(a, b, Kind::Std.text()));
    assert(same_at(a, b, Kind::Var.text()));
    assert(same_at(a, b, v.value.text()));
    assert(same_linears(a, b, v.linears)) by {
        assert forall|j: int| 0 <= j < v.linears.len() implies same_at(
            a,
            b,
            (#[trigger] v.linears[j]).src.oracle,
        ) by {
            if c < 4 {
                assert(j == 0 || j == 1);
            } else {
                assert(j == 0);
            }
        }
    }
    lemma_same_terms(a, b, v.linears, canonical::all_bits(config, v.value), i);
}

/// The limbs of a check are those of its values in any set with the same witness
/// polynomials.
proof fn lemma_same_limbs(
    config: Config,
    a: Map<Seq<char>, Seq<EF>>,
    b: Map<Seq<char>, Seq<EF>>,
    c: int,
)
    requires
        0 <= c < CHECKS,
        same_kinds(a, b),
    ensures
        commitments::limb_table(segments::check_at(config, c), a, config)
            == commitments::limb_table(segments::check_at(config, c), b, config),
        commitments::targets_fit(segments::check_at(config, c), a, config)
            == commitments::targets_fit(segments::check_at(config, c), b, config),
{
    let v = segments::check_at(config, c);
    let (x, y) = (
        commitments::limb_table(v, a, config),
        commitments::limb_table(v, b, config),
    );
    assert forall|k: int| 0 <= k < x.len() implies #[trigger] x[k] == y[k] by {
        lemma_same_target(config, a, b, c, k / 2);
    }
    assert(x =~= y);
    assert forall|i: int| #[trigger]
        commitments::target_fits(v, a, config, i) == commitments::target_fits(
            v,
            b,
            config,
            i,
        ) by {
        lemma_same_target(config, a, b, c, i);
    }
    if commitments::targets_fit(v, a, config) {
        let n = canonical::all_bits(config, v.value);
        assert forall|i: int| 0 <= i < pow2(n) implies #[trigger] commitments::target_fits(
            v,
            b,
            config,
            i,
        ) by {
            assert(commitments::target_fits(v, a, config, i));
        }
    }
}

/// Two sets hold the same polynomials but for the multiplicities.
spec fn same_named(
    config: Config,
    w: ModelWeights,
    a: Map<Seq<char>, Seq<EF>>,
    b: Map<Seq<char>, Seq<EF>>,
) -> bool {
    forall|name: Seq<char>, bits: nat| #[trigger]
        shapes::named_bits(config, w, name, bits) ==> same_at(a, b, name)
}

/// A segment's inputs are read from the polynomials besides the multiplicities.
proof fn lemma_same_input(
    config: Config,
    w: ModelWeights,
    wit: WitnessView,
    a: Map<Seq<char>, Seq<EF>>,
    b: Map<Seq<char>, Seq<EF>>,
    d: DescView,
    i: int,
)
    requires
        shapes::segment_ok(config, w, d),
        same_named(config, w, a, b),
    ensures
        values::row_input(d, a, config, w, wit, i) == values::row_input(d, b, config, w, wit, i),
{
    match d.kind {
        SegView::Direct { bias, offset, out } => {
            assert(same_at(a, b, d.oracle_in));
        },
        SegView::TypeA { divisor, mk, q, a: x, b: y, op } => {},
        SegView::TypeB { left, right, coeff, linears, constant, instance } => {
            assert(same_at(a, b, left.oracle));
            assert(same_at(a, b, right.oracle));
            assert forall|j: int| 0 <= j < linears.len() implies same_at(
                a,
                b,
                (#[trigger] linears[j]).src.oracle,
            ) by {
                assert(shapes::source_ok(config, w, linears[j].src, d.vars));
            }
            lemma_same_terms(a, b, linears, d.vars, i);
        },
    }
}

proof fn lemma_same_indices(
    config: Config,
    w: ModelWeights,
    wit: WitnessView,
    a: Map<Seq<char>, Seq<EF>>,
    b: Map<Seq<char>, Seq<EF>>,
    s: Seq<DescView>,
    n: nat,
)
    requires
        shapes::all_ok(config, w, s),
        same_named(config, w, a, b),
        n <= s.len(),
    ensures
        commitments::all_indices(s, a, config, w, wit, n) == commitments::all_indices(
            s,
            b,
            config,
            w,
            wit,
            n,
        ),
    decreases n,
{
    if n > 0 {
        lemma_same_indices(config, w, wit, a, b, s, (n - 1) as nat);
        let d = s[n - 1];
        let (x, y) = (
            commitments::row_indices(d, a, config, w, wit),
            commitments::row_indices(d, b, config, w, wit),
        );
        assert forall|i: int| 0 <= i < x.len() implies #[trigger] x[i] == y[i] by {
            lemma_same_input(config, w, wit, a, b, d, i);
        }
        assert(x =~= y);
    }
}

/// The multiplicities are counted from the other polynomials.
proof fn lemma_same_multiplicities(
    config: Config,
    w: ModelWeights,
    wit: WitnessView,
    a: Map<Seq<char>, Seq<EF>>,
    b: Map<Seq<char>, Seq<EF>>,
)
    requires
        segments::segments_fit(config, w),
        shapes::limbs_fit(config),
        same_named(config, w, a, b),
    ensures
        commitments::multiplicities(a, config, w, wit) == commitments::multiplicities(
            b,
            config,
            w,
            wit,
        ),
{
    let s = segments::all_segments(config, w);
    shapes::lemma_segments_ok(config, w);
    lemma_same_indices(config, w, wit, a, b, s, s.len());
    assert(commitments::multiplicities(a, config, w, wit) =~= commitments::multiplicities(
        b,
        config,
        w,
        wit,
    ));
}

/// Adding the multiplicities changes no other polynomial.
proof fn lemma_others_kept(config: Config, w: ModelWeights, wit: WitnessView)
    requires
        segments::segments_fit(config, w),
    ensures
        same_named(
            config,
            w,
            commitments::with_limbs(config, w, wit, CHECKS as nat),
            commitments::unified_polys(config, w, wit),
        ),
{
    let a = commitments::with_limbs(config, w, wit, CHECKS as nat);
    let b = commitments::unified_polys(config, w, wit);
    assert forall|name: Seq<char>, bits: nat| #[trigger]
        shapes::named_bits(config, w, name, bits) implies same_at(a, b, name) by {
        commitments::lemma_table_kept(config, w, wit, CHECKS as nat);
        if exists|k: Kind| #[trigger] shapes::is_kind_poly(config, k, name, bits) {
            let k = choose|k: Kind| #[trigger] shapes::is_kind_poly(config, k, name, bits);
            commitments::lemma_kind_kept(config, w, wit, k, CHECKS as nat);
        } else if exists|k: WeightKind, l: nat| #[trigger]
            shapes::is_weight_poly(config, k, l, name, bits) {
            let (k, l) = choose|k: WeightKind, l: nat| #[trigger]
                shapes::is_weight_poly(config, k, l, name, bits);
            commitments::lemma_weight_kept(config, w, wit, k, l, CHECKS as nat);
        } else if exists|i: int| #[trigger] shapes::is_limb_poly(config, i, name, bits) {
            let i = choose|i: int| #[trigger] shapes::is_limb_poly(config, i, name, bits);
            commitments::lemma_limb_kept(config, w, wit, i);
        }
    }
}

/// Adding a valid polynomial keeps a set valid.
proof fn lemma_insert_valid(m: Map<Seq<char>, Seq<EF>>, name: Seq<char>, p: Seq<EF>)
    requires
        opened::polys_valid(m),
        algebra::all_valid(p),
    ensures
        opened::polys_valid(m.insert(name, p)),
{
    let n = m.insert(name, p);
    assert forall|s: Seq<char>| #[trigger] n.contains_key(s) implies algebra::all_valid(n[s]) by {
        if s != name {
            assert(m.contains_key(s));
        }
    }
}

proof fn lemma_weight_valid(g: Grid)
    ensures
        algebra::all_valid(canonical::weight_table(g)),
{
    let t = canonical::weight_table(g);
    let (rp, cp) = (commit::ceil_pow(g.rows as int), commit::ceil_pow(g.cols as int));
    assert forall|i: int| 0 <= i < t.len() implies (#[trigger] t[i]).valid() by {
        EF::law_embed(canonical::stacked_cell(seq![g], rp, cp, 0, i), 0);
    }
}

proof fn lemma_layers_valid(w: ModelWeights, n: nat)
    ensures
        opened::polys_valid(canonical::layer_polys(w, n)),
    decreases n,
{
    if n > 0 {
        let l = (n - 1) as nat;
        lemma_layers_valid(w, l);
        let (a, b, c, d) = (
            WeightKind::AttnW.matrix(w, l as int),
            WeightKind::AttnProjW.matrix(w, l as int),
            WeightKind::FcW.matrix(w, l as int),
            WeightKind::FprojW.matrix(w, l as int),
        );
        lemma_weight_valid(a);
        lemma_weight_valid(b);
        lemma_weight_valid(c);
        lemma_weight_valid(d);
        let m0 = canonical::layer_polys(w, l);
        let m1 = m0.insert(WeightKind::AttnW.text(l), canonical::weight_table(a));
        let m2 = m1.insert(WeightKind::AttnProjW.text(l), canonical::weight_table(b));
        let m3 = m2.insert(WeightKind::FcW.text(l), canonical::weight_table(c));
        lemma_insert_valid(m0, WeightKind::AttnW.text(l), canonical::weight_table(a));
        lemma_insert_valid(m1, WeightKind::AttnProjW.text(l), canonical::weight_table(b));
        lemma_insert_valid(m2, WeightKind::FcW.text(l), canonical::weight_table(c));
        lemma_insert_valid(m3, WeightKind::FprojW.text(l), canonical::weight_table(d));
    }
}

proof fn lemma_columns_valid(config: Config, w: ModelWeights)
    ensures
        algebra::all_valid(table::input_column(config, w)),
        algebra::all_valid(table::output_column(config, w)),
        algebra::all_valid(table::type_column(config, w)),
{
    let (x, y, z) = (
        table::input_column(config, w),
        table::output_column(config, w),
        table::type_column(config, w),
    );
    assert forall|i: int| 0 <= i < x.len() implies (#[trigger] x[i]).valid() by {
        EF::law_embed(table::row_at(config, w, i).input, 0);
    }
    assert forall|i: int| 0 <= i < y.len() implies (#[trigger] y[i]).valid() by {
        EF::law_embed(table::row_at(config, w, i).output, 0);
    }
    assert forall|i: int| 0 <= i < z.len() implies (#[trigger] z[i]).valid() by {
        EF::law_embed(table::row_at(config, w, i).ty, 0);
    }
}

proof fn lemma_base_valid(config: Config, w: ModelWeights, wit: WitnessView)
    requires
        canonical::sizes_fit(config),
    ensures
        opened::polys_valid(commitments::base_polys(config, w, wit)),
{
    let on = canonical::online_polys(wit, config);
    let off = canonical::offline_polys(w);
    lemma_layers_valid(w, w.blocks@.len());
    lemma_weight_valid(w.wte.grid());
    lemma_insert_valid(
        canonical::layer_polys(w, w.blocks@.len()),
        WTE@,
        canonical::weight_table(w.wte.grid()),
    );
    let m = on.union_prefer_right(off);
    assert forall|s: Seq<char>| #[trigger] m.contains_key(s) implies algebra::all_valid(m[s]) by {
        if !off.contains_key(s) {
            assert(on.contains_key(s));
            completeness::lemma_kind_table(wit, config, canonical::kind_of(s));
        }
    }
    lemma_columns_valid(config, w);
    let m1 = m.insert(TABLE_IN@, table::input_column(config, w));
    let m2 = m1.insert(TABLE_OUT@, table::output_column(config, w));
    lemma_insert_valid(m, TABLE_IN@, table::input_column(config, w));
    lemma_insert_valid(m1, TABLE_OUT@, table::output_column(config, w));
    lemma_insert_valid(m2, TABLE_TYPE@, table::type_column(config, w));
}

proof fn lemma_limbs_valid(config: Config, w: ModelWeights, wit: WitnessView, n: nat)
    requires
        canonical::sizes_fit(config),
    ensures
        opened::polys_valid(commitments::with_limbs(config, w, wit, n)),
    decreases n,
{
    if n == 0 {
        lemma_base_valid(config, w, wit);
    } else {
        let before = commitments::with_limbs(config, w, wit, (n - 1) as nat);
        lemma_limbs_valid(config, w, wit, (n - 1) as nat);
        let c = segments::check_at(config, n - 1);
        let t = commitments::limb_table(c, before, config);
        assert forall|k: int| 0 <= k < t.len() implies (#[trigger] t[k]).valid() by {
            EF::law_embed(
                commitments::limb_of(
                    values::residue(commitments::target_at(c, before, config, k / 2)),
                    k % 2,
                ),
                0,
            );
        }
        lemma_insert_valid(before, c.limbs, t);
    }
}

/// All committed polynomials hold field elements.
proof fn lemma_unified_valid(config: Config, w: ModelWeights, wit: WitnessView)
    requires
        canonical::sizes_fit(config),
    ensures
        opened::polys_valid(commitments::unified_polys(config, w, wit)),
{
    lemma_limbs_valid(config, w, wit, CHECKS as nat);
    let limbs = commitments::with_limbs(config, w, wit, CHECKS as nat);
    let t = commitments::multiplicities(limbs, config, w, wit);
    assert forall|j: int| 0 <= j < t.len() implies (#[trigger] t[j]).valid() by {
        EF::law_embed(commitments::multiplicity_at(limbs, config, w, wit, j), 0);
    }
    lemma_insert_valid(limbs, E@, t);
}

/// What the unified proof of a forward pass asks for: the commitments can be made, no
/// step of the pass fails, the sequence fills its rows and the heads' columns are
/// aligned, padding looks up the activation of zero, and the softmax values lie in the
/// table's ranges.
pub open spec fn pass_ready(config: Config, w: ModelWeights, x0: Grid, witness: Witness) -> bool {
    &&& commitments::commit_ready(config, w, witness)
    &&& witness.contents() == model::forward_of(x0, w, config)
    &&& canonical::grid_is(x0, config.n_seq as nat, config.d_model as nat)
    &&& model::forward_fits(x0, w, config)
    &&& committed::heads_aligned(config)
    &&& committed::rows_filled(config)
    &&& listed::activation_neutral(config, w)
    &&& listed::heads_in_range(config, model::forward_of(x0, w, config))
}

/// The committed polynomials hold the witness and the weights.
proof fn lemma_tensors(config: Config, w: ModelWeights, wit: WitnessView)
    ensures
        committed::tensors_committed(config, w, wit, commitments::unified_polys(config, w, wit)),
        super::table_committed(commitments::unified_polys(config, w, wit), config, w),
{
    let u = commitments::unified_polys(config, w, wit);
    assert forall|k: Kind| u[#[trigger] k.text()] == canonical::kind_table(wit, config, k) by {
        commitments::lemma_kind_kept(config, w, wit, k, 0);
    }
    assert forall|k: WeightKind, l: nat| l < w.blocks@.len() implies u[#[trigger] k.text(l)]
        == canonical::weight_table(k.matrix(w, l as int)) by {
        commitments::lemma_weight_kept(config, w, wit, k, l, 0);
    }
    commitments::lemma_table_kept(config, w, wit, 0);
}

/// The limbs of every check are committed.
proof fn lemma_limbs(config: Config, w: ModelWeights, witness: Witness, i: int)
    requires
        commitments::commit_ready(config, w, witness),
        0 <= i < CHECKS,
    ensures
        super::limbs_committed(
            segments::check_at(config, i),
            commitments::unified_polys(config, w, witness.contents()),
            config,
        ),
{
    let wit = witness.contents();
    let u = commitments::unified_polys(config, w, wit);
    let before = commitments::with_limbs(config, w, wit, i as nat);
    assert forall|k: Kind| same_at(before, u, #[trigger] k.text()) by {
        commitments::lemma_kind_kept(config, w, wit, k, i as nat);
    }
    lemma_same_limbs(config, before, u, i);
    commitments::lemma_limb_kept(config, w, wit, i);
    assert(commitments::targets_fit(segments::check_at(config, i), before, config));
}

/// A length that fits a machine word has fewer than 64 variables.
proof fn lemma_word(n: nat)
    requires
        pow2(n) <= usize::MAX,
    ensures
        n < 64,
{
    if n >= 64 {
        multilinear::lemma_pow2_mono(64, n);
        power2::lemma2_to64();
    }
}

/// The columns and the rows of one head fit a machine word.
proof fn lemma_head_word(config: Config)
    requires
        canonical::sizes_fit(config),
        config.n_head > 0,
        model::config_fits(config),
    ensures
        sources::head_bits(config) + sources::seq_bits(config) < 64,
{
    sources::lemma_head_bits(config);
    canonical::lemma_sizes(config, Kind::QAo);
}

/// The right operand of every matrix product fits a machine word.
proof fn lemma_right_word(config: Config, w: ModelWeights, mm: Mm)
    requires
        canonical::sizes_fit(config),
        config.n_head > 0,
        model::config_fits(config),
        forall|k: WeightKind| pow2(#[trigger] shapes::weight_bits(config, k)) <= usize::MAX,
        pow2(
            commit::ceil_log(config.vocab as int) + commit::ceil_log(config.d_model as int),
        ) <= usize::MAX,
    ensures
        segments::mm_bits(config, mm) + segments::mm_col_bits(config, mm) < 64,
{
    match mm {
        Mm::Qkv => lemma_word(shapes::weight_bits(config, WeightKind::AttnW)),
        Mm::Fc => lemma_word(shapes::weight_bits(config, WeightKind::FcW)),
        Mm::Fpr => lemma_word(shapes::weight_bits(config, WeightKind::FprojW)),
        Mm::Apr => lemma_word(shapes::weight_bits(config, WeightKind::AttnProjW)),
        Mm::Log => lemma_word(
            commit::ceil_log(config.vocab as int) + commit::ceil_log(config.d_model as int),
        ),
        Mm::Sc => lemma_head_word(config),
        Mm::Ao => lemma_head_word(config),
    }
}

/// A segment's operands are committed and its rows are listed.
spec fn segment_settled(
    config: Config,
    w: ModelWeights,
    wit: WitnessView,
    polys: Map<Seq<char>, Seq<EF>>,
    d: DescView,
) -> bool {
    &&& opened::segment_committed(config, w, wit, polys, d)
    &&& query::rows_listed(d, polys, config, w, wit)
}

proof fn lemma_product_settled(
    config: Config,
    w: ModelWeights,
    x0: Grid,
    polys: Map<Seq<char>, Seq<EF>>,
    op: TypeAOp,
)
    requires
        commitments::sizes_ready(config, w),
        committed::pass_committed(config, w, x0, polys),
        segments::op_within(config, op),
        op.mm == Mm::Log ==> op.layer == 0,
    ensures
        segment_settled(
            config,
            w,
            model::forward_of(x0, w, config),
            polys,
            segments::product_desc(config, w, op),
        ),
{
    lemma_right_word(config, w, op.mm);
    committed::law_products_committed(config, w, x0, polys, op);
    listed::lemma_remainders_listed(config, w, x0, polys, op);
}

/// What is asked of a forward pass and of the polynomials committed for it.
spec fn pass_settled(
    config: Config,
    w: ModelWeights,
    x0: Grid,
    polys: Map<Seq<char>, Seq<EF>>,
) -> bool {
    &&& commitments::sizes_ready(config, w)
    &&& committed::pass_committed(config, w, x0, polys)
    &&& model::forward_fits(x0, w, config)
    &&& listed::activation_neutral(config, w)
    &&& listed::heads_in_range(config, model::forward_of(x0, w, config))
    &&& forall|i: int|
        0 <= i < CHECKS ==> super::limbs_committed(
            #[trigger] segments::check_at(config, i),
            polys,
            config,
        )
}

/// A segment of the limbs of some check.
spec fn is_limbs(config: Config, d: DescView, c: int) -> bool {
    0 <= c < CHECKS && d == segments::limb_desc(config, segments::check_at(config, c))
}

/// A segment of the remainders of some matrix product.
spec fn is_product(config: Config, w: ModelWeights, d: DescView, op: TypeAOp) -> bool {
    &&& segments::op_within(config, op)
    &&& op.mm == Mm::Log ==> op.layer == 0
    &&& d == segments::product_desc(config, w, op)
}

/// A segment of the softmax remainders of some head.
spec fn is_softmax(config: Config, d: DescView, inst: nat, upper: bool) -> bool {
    inst < config.n_layer * config.n_head && d == segments::softmax_desc(config, inst, upper)
}

/// One of the segments that the layout lists.
spec fn is_listed(config: Config, w: ModelWeights, d: DescView) -> bool {
    ||| d == segments::share_desc(config)
    ||| d == segments::act_desc(config, w)
    ||| exists|c: int| is_limbs(config, d, c)
    ||| exists|op: TypeAOp| is_product(config, w, d, op)
    ||| exists|inst: nat, upper: bool| is_softmax(config, d, inst, upper)
}

#[verifier::rlimit(60)]
#[verifier::spinoff_prover]
proof fn lemma_listed_cases(config: Config, w: ModelWeights, i: int)
    requires
        0 <= i < segments::listed(config, w).len(),
        config.n_layer > 0,
        config.n_head > 0,
    ensures
        is_listed(config, w, segments::listed(config, w)[i]),
{
    let d = segments::listed(config, w)[i];
    let a = segments::direct_descs(config, w);
    let n = config.n_layer as int;
    let m = a.len();
    if i < m {
        assert(d == a[i]);
        if i >= 2 {
            assert(is_limbs(config, d, i - 2));
        }
    } else if i < m + 4 * n {
        let j = i - m;
        let mm = if j < n {
            Mm::Qkv
        } else if j < 2 * n {
            Mm::Fc
        } else if j < 3 * n {
            Mm::Fpr
        } else {
            Mm::Apr
        };
        let l = if j < n {
            j
        } else if j < 2 * n {
            j - n
        } else if j < 3 * n {
            j - 2 * n
        } else {
            j - 3 * n
        };
        assert(is_product(config, w, d, TypeAOp { mm, layer: l as usize, head: 0 }));
    } else if i == m + 4 * n {
        assert(is_product(config, w, d, TypeAOp { mm: Mm::Log, layer: 0, head: 0 }));
    } else {
        let j = i - m - 4 * n - 1;
        let inst = j / 4;
        grid::lemma_position(config.n_layer as nat, config.n_head as nat, inst);
        let (layer, head) = (inst / config.n_head as int, inst % config.n_head as int);
        assert(d == segments::head_desc(config, w, j));
        if j % 4 == 0 {
            let op = TypeAOp { mm: Mm::Sc, layer: layer as usize, head: head as usize };
            assert(is_product(config, w, d, op));
        } else if j % 4 == 1 {
            let op = TypeAOp { mm: Mm::Ao, layer: layer as usize, head: head as usize };
            assert(is_product(config, w, d, op));
        } else {
            assert(is_softmax(config, d, inst as nat, j % 4 == 3));
        }
    }
}

/// Every listed segment is settled.
proof fn lemma_listed_settled(
    config: Config,
    w: ModelWeights,
    x0: Grid,
    polys: Map<Seq<char>, Seq<EF>>,
    d: DescView,
)
    requires
        pass_settled(config, w, x0, polys),
        is_listed(config, w, d),
    ensures
        segment_settled(config, w, model::forward_of(x0, w, config), polys, d),
{
    let wit = model::forward_of(x0, w, config);
    if d == segments::share_desc(config) {
        listed::lemma_shares_listed(config, w, wit, polys);
    } else if d == segments::act_desc(config, w) {
        listed::lemma_activations_listed(config, w, x0, polys);
    } else if exists|c: int| is_limbs(config, d, c) {
        let c = choose|c: int| is_limbs(config, d, c);
        assert(super::limbs_committed(segments::check_at(config, c), polys, config));
        listed::lemma_limbs_listed(config, w, wit, polys, segments::check_at(config, c));
    } else if exists|op: TypeAOp| is_product(config, w, d, op) {
        let op = choose|op: TypeAOp| is_product(config, w, d, op);
        lemma_product_settled(config, w, x0, polys, op);
    } else {
        let (inst, upper) = choose|inst: nat, upper: bool| is_softmax(config, d, inst, upper);
        listed::lemma_softmax_listed(config, w, x0, polys, inst, upper);
        listed::lemma_sums_committed(config, w, wit, polys, inst, upper);
    }
}

/// Where a segment starts does not matter to its operands and rows.
proof fn lemma_at_start(
    config: Config,
    w: ModelWeights,
    wit: WitnessView,
    polys: Map<Seq<char>, Seq<EF>>,
    d: DescView,
    start: nat,
)
    requires
        segment_settled(config, w, wit, polys, d),
    ensures
        segment_settled(config, w, wit, polys, segments::at_start(d, start)),
{
    let e = segments::at_start(d, start);
    assert forall|i: int| 0 <= i < pow2(e.vars) implies #[trigger] query::row_listed(
        e,
        polys,
        config,
        w,
        wit,
        i,
    ) by {
        assert(query::row_listed(d, polys, config, w, wit, i));
    }
}

/// The polynomials that are committed for a forward pass commit to a run whose query
/// rows are all rows of the table.
#[verifier::rlimit(60)]
#[verifier::spinoff_prover]
pub proof fn law_pass_committed(config: Config, w: ModelWeights, x0: Grid, witness: Witness)
    requires
        pass_ready(config, w, x0, witness),
    ensures
        super::run_committed(
            config,
            w,
            model::forward_of(x0, w, config),
            commitments::unified_polys(config, w, model::forward_of(x0, w, config)),
        ),
{
    let wit = model::forward_of(x0, w, config);
    let polys = commitments::unified_polys(config, w, wit);
    let s = segments::all_segments(config, w);
    lemma_tensors(config, w, wit);
    commitments::lemma_ready(config, w, wit);
    lemma_unified_valid(config, w, wit);
    lemma_others_kept(config, w, wit);
    let limbs = commitments::with_limbs(config, w, wit, CHECKS as nat);
    lemma_same_multiplicities(config, w, wit, limbs, polys);
    assert forall|i: int| 0 <= i < CHECKS implies super::limbs_committed(
        #[trigger] segments::check_at(config, i),
        polys,
        config,
    ) by {
        lemma_limbs(config, w, witness, i);
    }
    assert(pass_settled(config, w, x0, polys));
    assert forall|i: int| 0 <= i < s.len() implies segment_settled(
        config,
        w,
        wit,
        polys,
        #[trigger] s[i],
    ) by {
        let l = segments::listed(config, w);
        query::law_sorted(l);
        reveal(segments::all_segments);
        let d = segments::sorted(l)[i];
        assert(l.contains(d));
        let j = choose|j: int| 0 <= j < l.len() && l[j] == d;
        lemma_listed_cases(config, w, j);
        lemma_listed_settled(config, w, x0, polys, d);
        lemma_at_start(config, w, wit, polys, d, s[i].start);
    }
    assert forall|i: int| 0 <= i < s.len() implies opened::segment_committed(
        config,
        w,
        wit,
        polys,
        #[trigger] s[i],
    ) by {
        assert(segment_settled(config, w, wit, polys, s[i]));
    }
    assert forall|i: int| 0 <= i < s.len() implies query::rows_listed(
        #[trigger] s[i],
        polys,
        config,
        w,
        wit,
    ) by {
        assert(segment_settled(config, w, wit, polys, s[i]));
    }
}

/// Completeness for a forward pass: the honest proof over the polynomials committed for
/// it is accepted, whatever the challenges.
pub proof fn law_forward_complete(
    proof: UnifiedProof,
    config: Config,
    w: ModelWeights,
    x0: Grid,
    witness: Witness,
    tape: Seq<EF>,
)
    requires
        pass_ready(config, w, x0, witness),
        tape.len() == protocol::honest_draws(config, w),
        algebra::all_valid(tape),
        protocol::honest_unified(
            proof,
            config,
            w,
            witness.contents(),
            commitments::unified_polys(config, w, witness.contents()),
            tape,
        ),
    ensures
        protocol::unified_draws(proof, config, w) == protocol::honest_draws(config, w),
        protocol::unified_accepted(
            proof,
            config,
            w,
            commitments::unified_polys(config, w, witness.contents()),
            tape,
        ),
{
    law_pass_committed(config, w, x0, witness);
    super::law_unified_complete(
        proof,
        config,
        w,
        witness.contents(),
        commitments::unified_polys(config, w, witness.contents()),
        tape,
    );
}

} // verus!
