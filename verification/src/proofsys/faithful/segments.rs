//! The segments of the lookup query, and the limb checks.
//!
//! A segment is a block of query rows in the layout of its source tensor. Segments
//! are placed one after another, the longest first, so that every segment starts at
//! a multiple of its length.
use vstd::prelude::*;
use vstd::arithmetic::power2::pow2;
use vstd::string::StringExecFns;
use crate::field::Field;
use crate::proofsys::canonical;
use crate::proofsys::canonical::{Kind, WeightKind, WTE};
use crate::proofsys::commit;
use crate::proofsys::commit::{BiasPoly, BiasView, OracleSource, SourceView};
use crate::proofsys::faithful::sources;
use crate::proofsys::faithful::table;
use crate::proofsys::faithful::table::{
    R12_BASE, R13_BASE, R15_BASE, R20_BASE, TYPE_GELU, TYPE_LIMB16, TYPE_RANGE12, TYPE_RANGE13,
    TYPE_RANGE15, TYPE_RANGE20,
};
use crate::proofsys::grid;
use crate::proofsys::model;
use crate::proofsys::model::ModelWeights;
use crate::proofsys::protocol::EF;
use crate::proofsys::reduce::MatmulKind;
use crate::proofsys::witness::Config;

verus! {

/// The multiplicities of the lookup.
pub const E: &'static str = "e";

/// The inputs of the lookup table.
pub const TABLE_IN: &'static str = "table_in";

/// The outputs of the lookup table.
pub const TABLE_OUT: &'static str = "table_out";

/// The types of the lookup table.
pub const TABLE_TYPE: &'static str = "table_type";

/// Limbs of the LayerNorm remainder `r`.
pub const LN_REM_LIMB: &'static str = "ln_rem_limb";

/// Limbs of `std - 1 - r`.
pub const LN_REM_HI_LIMB: &'static str = "ln_rem_hi_limb";

/// Limbs of `var + 1 - (std^2 - std)`.
pub const SQRT_LO_LIMB: &'static str = "sqrt_lo_limb";

/// Limbs of `(std^2 + std) - (var + 1)`.
pub const SQRT_HI_LIMB: &'static str = "sqrt_hi_limb";

/// What is added to a signed quotient before it is split into limbs.
pub const QUOTIENT_LIMB_OFFSET: u64 = 16777216;

/// Limbs of each value.
pub const NUM_LIMBS: usize = 2;

/// The matrix products whose rescaled result is committed.
#[derive(Clone, Copy, Debug, PartialEq, Eq, Structural)]
pub enum Mm {
    Qkv,
    Fc,
    Fpr,
    Apr,
    Log,
    Sc,
    Ao,
}

/// One matrix product of the model.
#[derive(Clone, Copy, Debug, PartialEq, Eq, Structural)]
pub struct TypeAOp {
    pub mm: Mm,
    pub layer: usize,
    pub head: usize,
}

/// Contraction length, rows and columns of a matrix product.
pub struct MmDims {
    pub k: usize,
    pub row: usize,
    pub col: usize,
}

/// Contraction length, rows and columns of a matrix product.
pub open spec fn mm_shape(config: Config, mm: Mm) -> (nat, nat, nat) {
    let (s, d) = (config.n_seq as nat, config.d_model as nat);
    match mm {
        Mm::Qkv => (d, s, 3 * d),
        Mm::Fc => (d, s, config.mlp_hidden as nat),
        Mm::Fpr => (config.mlp_hidden as nat, s, d),
        Mm::Apr => (d, s, d),
        Mm::Log => (d, s, config.vocab as nat),
        Mm::Sc => (config.d_head as nat, s, s),
        Mm::Ao => (s, s, config.d_head as nat),
    }
}

/// Variables of the contraction.
pub open spec fn mm_bits(config: Config, mm: Mm) -> nat {
    commit::ceil_log(mm_shape(config, mm).0 as int)
}

/// Variables of the rows.
pub open spec fn mm_row_bits(config: Config, mm: Mm) -> nat {
    commit::ceil_log(mm_shape(config, mm).1 as int)
}

/// Variables of the columns.
pub open spec fn mm_col_bits(config: Config, mm: Mm) -> nat {
    commit::ceil_log(mm_shape(config, mm).2 as int)
}

pub fn mm_dims(config: &Config, mm: Mm) -> (r: MmDims)
    requires
        3 * config.d_model <= usize::MAX,
    ensures
        r.k == mm_shape(*config, mm).0,
        r.row == mm_shape(*config, mm).1,
        r.col == mm_shape(*config, mm).2,
{
    let (s, d): (usize, usize) = (config.n_seq, config.d_model);
    match mm {
        Mm::Qkv => MmDims { k: d, row: s, col: 3 * d },
        Mm::Fc => MmDims { k: d, row: s, col: config.mlp_hidden },
        Mm::Fpr => MmDims { k: config.mlp_hidden, row: s, col: d },
        Mm::Apr => MmDims { k: d, row: s, col: d },
        Mm::Log => MmDims { k: d, row: s, col: config.vocab },
        Mm::Sc => MmDims { k: config.d_head, row: s, col: s },
        Mm::Ao => MmDims { k: s, row: s, col: config.d_head },
    }
}

/// What the product is divided by.
pub open spec fn divisor_of(config: Config, mm: Mm) -> int {
    match mm {
        Mm::Sc => config.score_divisor(),
        _ => config.scale as int,
    }
}

pub fn mm_divisor(config: &Config, mm: Mm) -> (r: u64)
    requires
        model::config_fits(*config),
    ensures
        r as int == divisor_of(*config, mm),
{
    match mm {
        Mm::Sc => config.sqrt_d_scale() as u64,
        _ => config.scale as u64,
    }
}

/// The table type and start for remainders below `divisor`.
pub open spec fn remainder_range(divisor: int) -> (int, int) {
    if divisor <= 4096 {
        (TYPE_RANGE12 as int, R12_BASE as int)
    } else {
        (TYPE_RANGE15 as int, R15_BASE as int)
    }
}

pub fn const_div_range(divisor: u64) -> (r: (u64, usize))
    requires
        divisor <= 32768,
    ensures
        (r.0 as int, r.1 as int) == remainder_range(divisor as int),
{
    if divisor <= 4096 {
        (TYPE_RANGE12, R12_BASE)
    } else {
        (TYPE_RANGE15, R15_BASE)
    }
}

/// How the right factor is stored.
pub open spec fn kind_of_mm(mm: Mm) -> MatmulKind {
    match mm {
        Mm::Log => MatmulKind::Transposed,
        Mm::Sc => MatmulKind::Transposed,
        _ => MatmulKind::Regular,
    }
}

pub fn mm_kind(mm: Mm) -> (r: MatmulKind)
    ensures
        r == kind_of_mm(mm),
{
    match mm {
        Mm::Log => MatmulKind::Transposed,
        Mm::Sc => MatmulKind::Transposed,
        _ => MatmulKind::Regular,
    }
}

/// A committed operand with a coefficient.
pub struct Linear {
    pub src: OracleSource,
    pub coeff: EF,
}

/// The contents of a linear term.
pub struct LinearView {
    pub src: SourceView,
    pub coeff: EF,
}

impl Linear {
    pub open spec fn contents(self) -> LinearView {
        LinearView { src: self.src.contents(), coeff: self.coeff }
    }
}

pub open spec fn linear_views(s: Seq<Linear>) -> Seq<LinearView> {
    Seq::new(s.len(), |i: int| s[i].contents())
}

/// The head whose softmax divisions a segment checks.
#[derive(Clone, Copy, Debug, PartialEq, Eq)]
pub struct TypeBOp {
    pub layer: usize,
    pub head: usize,
}

/// What the rows of a segment are.
pub enum SegKind {
    /// The input is a committed polynomial plus a bias and an offset; the output is
    /// zero or a committed polynomial.
    Direct { bias: Option<BiasPoly>, offset: u64, out: Option<String> },
    /// The input is the remainder `C - divisor * q` of a rescaled matrix product.
    TypeA {
        divisor: u64,
        mk: MatmulKind,
        q_src: OracleSource,
        a_src: OracleSource,
        b_src: OracleSource,
        op: TypeAOp,
    },
    /// The input is a product of two operands times a coefficient, plus linear terms
    /// and a constant.
    TypeB {
        prod_left: OracleSource,
        prod_right: OracleSource,
        prod_coeff: EF,
        linears: Vec<Linear>,
        constant: EF,
        instance: TypeBOp,
    },
}

/// The contents of a segment's rows.
pub enum SegView {
    Direct { bias: Option<BiasView>, offset: int, out: Option<Seq<char>> },
    TypeA {
        divisor: int,
        mk: MatmulKind,
        q: SourceView,
        a: SourceView,
        b: SourceView,
        op: TypeAOp,
    },
    TypeB {
        left: SourceView,
        right: SourceView,
        coeff: EF,
        linears: Seq<LinearView>,
        constant: EF,
        instance: TypeBOp,
    },
}

pub open spec fn option_bias(b: Option<BiasPoly>) -> Option<BiasView> {
    match b {
        Some(b) => Some(b.contents()),
        None => None,
    }
}

pub open spec fn option_text(s: Option<String>) -> Option<Seq<char>> {
    match s {
        Some(s) => Some(s@),
        None => None,
    }
}

impl SegKind {
    pub open spec fn contents(self) -> SegView {
        match self {
            SegKind::Direct { bias, offset, out } => SegView::Direct {
                bias: option_bias(bias),
                offset: offset as int,
                out: option_text(out),
            },
            SegKind::TypeA { divisor, mk, q_src, a_src, b_src, op } => SegView::TypeA {
                divisor: divisor as int,
                mk,
                q: q_src.contents(),
                a: a_src.contents(),
                b: b_src.contents(),
                op,
            },
            SegKind::TypeB { prod_left, prod_right, prod_coeff, linears, constant, instance } => SegView::TypeB {
                left: prod_left.contents(),
                right: prod_right.contents(),
                coeff: prod_coeff,
                linears: linear_views(linears@),
                constant,
                instance,
            },
        }
    }
}

/// One segment: its source, its table type and where its rows start in the table,
/// its number of variables, and where it starts in the query.
pub struct Descriptor {
    pub oracle_in: String,
    pub ty: u64,
    pub table_base: usize,
    pub vars: usize,
    pub start: usize,
    pub kind: SegKind,
}

/// The contents of a segment.
pub struct DescView {
    pub oracle_in: Seq<char>,
    pub ty: int,
    pub base: int,
    pub vars: nat,
    pub start: nat,
    pub kind: SegView,
}

impl Descriptor {
    pub open spec fn contents(self) -> DescView {
        DescView {
            oracle_in: self.oracle_in@,
            ty: self.ty as int,
            base: self.table_base as int,
            vars: self.vars as nat,
            start: self.start as nat,
            kind: self.kind.contents(),
        }
    }
}

pub open spec fn desc_views(s: Seq<Descriptor>) -> Seq<DescView> {
    Seq::new(s.len(), |i: int| s[i].contents())
}

/// A limb check: the limbs of a committed polynomial recompose to an optional
/// product times a coefficient, plus linear terms and a constant, over the layout of
/// a kind.
pub struct LimbCheckSpec {
    pub limb_oracle: String,
    pub value: Kind,
    pub prod: Option<(OracleSource, OracleSource, EF)>,
    pub linears: Vec<Linear>,
    pub constant: EF,
}

/// The contents of a limb check.
pub struct CheckView {
    pub limbs: Seq<char>,
    pub value: Kind,
    pub prod: Option<(SourceView, SourceView, EF)>,
    pub linears: Seq<LinearView>,
    pub constant: EF,
}

impl LimbCheckSpec {
    pub open spec fn contents(self) -> CheckView {
        CheckView {
            limbs: self.limb_oracle@,
            value: self.value,
            prod: match self.prod {
                Some((l, r, c)) => Some((l.contents(), r.contents(), c)),
                None => None,
            },
            linears: linear_views(self.linears@),
            constant: self.constant,
        }
    }
}

pub open spec fn check_views(s: Seq<LimbCheckSpec>) -> Seq<CheckView> {
    Seq::new(s.len(), |i: int| s[i].contents())
}

/// The name of a quotient's limbs.
pub open spec fn bound_text(kind: Kind) -> Seq<char> {
    kind.text() + "_bound_limb"@
}

pub fn qbound_limb_name(kind: Kind) -> (r: String)
    ensures
        r@ == bound_text(kind),
{
    kind.name().to_owned().concat("_bound_limb")
}

pub open spec fn term(src: SourceView, coeff: EF) -> LinearView {
    LinearView { src, coeff }
}

/// Minus one.
pub open spec fn minus_one() -> EF {
    EF::one().spec_neg()
}

/// `a_ln - q_ln * std`.
pub open spec fn remainder_check(config: Config) -> CheckView {
    CheckView {
        limbs: LN_REM_LIMB@,
        value: Kind::ALn,
        prod: Some(
            (
                sources::whole_view(config, Kind::QLn),
                sources::deviations_view(config),
                minus_one(),
            ),
        ),
        linears: seq![term(sources::whole_view(config, Kind::ALn), EF::one())],
        constant: EF::zero(),
    }
}

/// `q_ln * std + std - a_ln - 1`.
pub open spec fn remainder_high_check(config: Config) -> CheckView {
    CheckView {
        limbs: LN_REM_HI_LIMB@,
        value: Kind::ALn,
        prod: Some(
            (
                sources::whole_view(config, Kind::QLn),
                sources::deviations_view(config),
                EF::one(),
            ),
        ),
        linears: seq![
            term(sources::deviations_view(config), EF::one()),
            term(sources::whole_view(config, Kind::ALn), minus_one()),
        ],
        constant: minus_one(),
    }
}

/// `var + 1 - std^2 + std`.
pub open spec fn root_low_check(config: Config) -> CheckView {
    CheckView {
        limbs: SQRT_LO_LIMB@,
        value: Kind::Std,
        prod: Some(
            (
                sources::whole_view(config, Kind::Std),
                sources::whole_view(config, Kind::Std),
                minus_one(),
            ),
        ),
        linears: seq![
            term(sources::whole_view(config, Kind::Var), EF::one()),
            term(sources::whole_view(config, Kind::Std), EF::one()),
        ],
        constant: EF::one(),
    }
}

/// `std^2 + std - var - 1`.
pub open spec fn root_high_check(config: Config) -> CheckView {
    CheckView {
        limbs: SQRT_HI_LIMB@,
        value: Kind::Std,
        prod: Some(
            (
                sources::whole_view(config, Kind::Std),
                sources::whole_view(config, Kind::Std),
                EF::one(),
            ),
        ),
        linears: seq![
            term(sources::whole_view(config, Kind::Std), EF::one()),
            term(sources::whole_view(config, Kind::Var), minus_one()),
        ],
        constant: minus_one(),
    }
}

/// A quotient plus the offset.
pub open spec fn bound_check(config: Config, kind: Kind) -> CheckView {
    CheckView {
        limbs: bound_text(kind),
        value: kind,
        prod: None,
        linears: seq![term(sources::whole_view(config, kind), EF::one())],
        constant: EF::embed(QUOTIENT_LIMB_OFFSET as int),
    }
}

/// The quotients that are bounded by limbs.
pub open spec fn bounded_kind(i: int) -> Kind {
    if i == 0 {
        Kind::QLn
    } else if i == 1 {
        Kind::QQkv
    } else if i == 2 {
        Kind::QSc
    } else if i == 3 {
        Kind::QAo
    } else if i == 4 {
        Kind::QApr
    } else if i == 5 {
        Kind::QFc
    } else if i == 6 {
        Kind::QFpr
    } else {
        Kind::QLog
    }
}

/// Limb check `i`.
pub open spec fn check_at(config: Config, i: int) -> CheckView {
    if i == 0 {
        remainder_check(config)
    } else if i == 1 {
        remainder_high_check(config)
    } else if i == 2 {
        root_low_check(config)
    } else if i == 3 {
        root_high_check(config)
    } else {
        bound_check(config, bounded_kind(i - 4))
    }
}

/// Number of limb checks.
pub const CHECKS: usize = 12;

/// All limb checks.
pub open spec fn all_checks(config: Config) -> Seq<CheckView> {
    Seq::new(CHECKS as nat, |i: int| check_at(config, i))
}

fn linear(src: OracleSource, coeff: EF) -> (r: Linear)
    ensures
        r.contents() == term(src.contents(), coeff),
{
    Linear { src, coeff }
}

/// Limb check `i`.
fn limb_check(config: &Config, i: usize) -> (r: LimbCheckSpec)
    requires
        canonical::sizes_fit(*config),
        i < CHECKS,
    ensures
        r.contents() == check_at(*config, i as int),
{
    let one = EF::new_one();
    let minus = one.neg();
    let zero = EF::new_zero();
    if i == 0 {
        let linears: Vec<Linear> = vec![linear(sources::whole_src(config, Kind::ALn), one)];
        let r = LimbCheckSpec {
            limb_oracle: LN_REM_LIMB.to_owned(),
            value: Kind::ALn,
            prod: Some(
                (sources::whole_src(config, Kind::QLn), sources::std_bc_src(config), minus),
            ),
            linears,
            constant: zero,
        };
        assert(r.contents().linears =~= check_at(*config, 0).linears);
        r
    } else if i == 1 {
        let linears: Vec<Linear> = vec![
            linear(sources::std_bc_src(config), one),
            linear(sources::whole_src(config, Kind::ALn), minus),
        ];
        let r = LimbCheckSpec {
            limb_oracle: LN_REM_HI_LIMB.to_owned(),
            value: Kind::ALn,
            prod: Some(
                (sources::whole_src(config, Kind::QLn), sources::std_bc_src(config), one),
            ),
            linears,
            constant: minus,
        };
        assert(r.contents().linears =~= check_at(*config, 1).linears);
        r
    } else if i == 2 {
        let linears: Vec<Linear> = vec![
            linear(sources::whole_src(config, Kind::Var), one),
            linear(sources::whole_src(config, Kind::Std), one),
        ];
        let r = LimbCheckSpec {
            limb_oracle: SQRT_LO_LIMB.to_owned(),
            value: Kind::Std,
            prod: Some(
                (
                    sources::whole_src(config, Kind::Std),
                    sources::whole_src(config, Kind::Std),
                    minus,
                ),
            ),
            linears,
            constant: one,
        };
        assert(r.contents().linears =~= check_at(*config, 2).linears);
        r
    } else if i == 3 {
        let linears: Vec<Linear> = vec![
            linear(sources::whole_src(config, Kind::Std), one),
            linear(sources::whole_src(config, Kind::Var), minus),
        ];
        let r = LimbCheckSpec {
            limb_oracle: SQRT_HI_LIMB.to_owned(),
            value: Kind::Std,
            prod: Some(
                (
                    sources::whole_src(config, Kind::Std),
                    sources::whole_src(config, Kind::Std),
                    one,
                ),
            ),
            linears,
            constant: minus,
        };
        assert(r.contents().linears =~= check_at(*config, 3).linears);
        r
    } else {
        let kind = match i {
            4 => Kind::QLn,
            5 => Kind::QQkv,
            6 => Kind::QSc,
            7 => Kind::QAo,
            8 => Kind::QApr,
            9 => Kind::QFc,
            10 => Kind::QFpr,
            _ => Kind::QLog,
        };
        let linears: Vec<Linear> = vec![linear(sources::whole_src(config, kind), one)];
        let r = LimbCheckSpec {
            limb_oracle: qbound_limb_name(kind),
            value: kind,
            prod: None,
            linears,
            constant: EF::from_u64(QUOTIENT_LIMB_OFFSET),
        };
        assert(r.contents().linears =~= check_at(*config, i as int).linears);
        r
    }
}

/// All limb checks, in the order of their proofs.
pub fn limb_checks(config: &Config) -> (r: Vec<LimbCheckSpec>)
    requires
        canonical::sizes_fit(*config),
    ensures
        check_views(r@) == all_checks(*config),
        r@.len() == CHECKS,
{
    let mut out: Vec<LimbCheckSpec> = Vec::new();
    let mut i: usize = 0;
    while i < CHECKS
        invariant
            i <= CHECKS,
            canonical::sizes_fit(*config),
            out@.len() == i,
            forall|j: int| 0 <= j < i ==> (#[trigger] out@[j]).contents() == check_at(*config, j),
        decreases CHECKS - i,
    {
        out.push(limb_check(config, i));
        i += 1;
    }
    assert(check_views(out@) =~= all_checks(*config));
    out
}

/// What the segments ask of the model.
pub open spec fn segments_fit(config: Config, w: ModelWeights) -> bool {
    &&& sources::sources_fit(config, w)
    &&& table::table_fits(config, w)
    &&& config.scale <= 32768
    &&& config.score_divisor() <= 32768
    &&& config.n_layer * config.n_head * 4 <= usize::MAX
}

/// The softmax shares lie in a 13-bit range.
pub open spec fn share_desc(config: Config) -> DescView {
    DescView {
        oracle_in: Kind::QProb.text(),
        ty: TYPE_RANGE13 as int,
        base: R13_BASE as int,
        vars: canonical::all_bits(config, Kind::QProb),
        start: 0,
        kind: SegView::Direct { bias: None, offset: 0, out: None },
    }
}

/// The activation function maps the hidden values to the activations.
pub open spec fn act_desc(config: Config, w: ModelWeights) -> DescView {
    DescView {
        oracle_in: Kind::QFc.text(),
        ty: TYPE_GELU as int,
        base: table::act_base(config) as int,
        vars: canonical::all_bits(config, Kind::QFc),
        start: 0,
        kind: SegView::Direct {
            bias: Some(sources::fc_bias_view(config, w)),
            offset: config.offset_word(),
            out: Some(Kind::Act.text()),
        },
    }
}

/// The limbs of a check lie in a 16-bit range.
pub open spec fn limb_desc(config: Config, check: CheckView) -> DescView {
    DescView {
        oracle_in: check.limbs,
        ty: TYPE_LIMB16 as int,
        base: table::limb_base(config) as int,
        vars: canonical::all_bits(config, check.value) + 1,
        start: 0,
        kind: SegView::Direct { bias: None, offset: 0, out: None },
    }
}

/// The quotient's kind.
pub open spec fn quotient_kind(mm: Mm) -> Kind {
    match mm {
        Mm::Qkv => Kind::QQkv,
        Mm::Fc => Kind::QFc,
        Mm::Fpr => Kind::QFpr,
        Mm::Apr => Kind::QApr,
        Mm::Log => Kind::QLog,
        Mm::Sc => Kind::QSc,
        Mm::Ao => Kind::QAo,
    }
}

/// The left operand of a matrix product.
pub open spec fn left_source(config: Config, w: ModelWeights, op: TypeAOp) -> SourceView {
    let (k, row, col) = mm_shape(config, op.mm);
    let l = op.layer as int;
    let inst = op.layer * config.n_head + op.head;
    match op.mm {
        Mm::Qkv => sources::left_view(
            config,
            Kind::QLn,
            (2 * l) as nat,
            k,
            row,
            Some(sources::feature_bias_view(grid::ints(w.blocks@[l].ln_1_b@), k)),
        ),
        Mm::Fc => sources::left_view(
            config,
            Kind::QLn,
            (2 * l + 1) as nat,
            k,
            row,
            Some(sources::feature_bias_view(grid::ints(w.blocks@[l].ln_2_b@), k)),
        ),
        Mm::Fpr => sources::left_view(config, Kind::Act, l as nat, k, row, None),
        Mm::Apr => sources::left_view(config, Kind::QAo, l as nat, k, row, None),
        Mm::Log => sources::left_view(
            config,
            Kind::QLn,
            (2 * config.n_layer) as nat,
            k,
            row,
            Some(sources::feature_bias_view(grid::ints(w.ln_f_b@), k)),
        ),
        Mm::Sc => sources::head_view(config, w, l, 0, op.head as int),
        Mm::Ao => sources::left_view(config, Kind::QProb, inst as nat, k, row, None),
    }
}

/// The right operand of a matrix product.
pub open spec fn right_source(config: Config, w: ModelWeights, op: TypeAOp) -> SourceView {
    let (k, row, col) = mm_shape(config, op.mm);
    let l = op.layer as int;
    match op.mm {
        Mm::Qkv => sources::right_view(WeightKind::AttnW.text(l as nat), k, col),
        Mm::Fc => sources::right_view(WeightKind::FcW.text(l as nat), k, col),
        Mm::Fpr => sources::right_view(WeightKind::FprojW.text(l as nat), k, col),
        Mm::Apr => sources::right_view(WeightKind::AttnProjW.text(l as nat), k, col),
        Mm::Log => sources::right_view(WTE@, k, col),
        Mm::Sc => sources::head_view(config, w, l, 1, op.head as int),
        Mm::Ao => sources::head_view(config, w, l, 2, op.head as int),
    }
}

/// The quotient of a matrix product.
pub open spec fn quotient_source(config: Config, op: TypeAOp) -> SourceView {
    match op.mm {
        Mm::Ao => sources::ao_view(config, op.layer as nat, op.head as nat),
        Mm::Sc => sources::slice_view(
            config,
            Kind::QSc,
            (op.layer * config.n_head + op.head) as nat,
        ),
        Mm::Log => sources::slice_view(config, Kind::QLog, 0),
        _ => sources::slice_view(config, quotient_kind(op.mm), op.layer as nat),
    }
}

/// The remainders of a rescaled matrix product.
pub open spec fn product_desc(config: Config, w: ModelWeights, op: TypeAOp) -> DescView {
    DescView {
        oracle_in: quotient_kind(op.mm).text(),
        ty: remainder_range(divisor_of(config, op.mm)).0,
        base: remainder_range(divisor_of(config, op.mm)).1,
        vars: mm_col_bits(config, op.mm) + mm_row_bits(config, op.mm),
        start: 0,
        kind: SegView::TypeA {
            divisor: divisor_of(config, op.mm),
            mk: kind_of_mm(op.mm),
            q: quotient_source(config, op),
            a: left_source(config, w, op),
            b: right_source(config, w, op),
            op,
        },
    }
}

/// The scale as a field element.
pub open spec fn scale_element(config: Config) -> EF {
    EF::embed(config.scale as int)
}

/// The remainder of a head's softmax division: `scale * exp - prob * sum` for the
/// lower bound, `prob * sum + sum - scale * exp - 1` for the upper one.
pub open spec fn softmax_desc(config: Config, inst: nat, upper: bool) -> DescView {
    let exp = sources::slice_view(config, Kind::Exp, inst);
    let sums = sources::sums_view(config, inst);
    DescView {
        oracle_in: Kind::Exp.text(),
        ty: TYPE_RANGE20 as int,
        base: R20_BASE as int,
        vars: canonical::elem_bits(config, Kind::Exp),
        start: 0,
        kind: SegView::TypeB {
            left: sources::slice_view(config, Kind::QProb, inst),
            right: sums,
            coeff: if upper {
                EF::one()
            } else {
                minus_one()
            },
            linears: if upper {
                seq![term(sums, EF::one()), term(exp, scale_element(config).spec_neg())]
            } else {
                seq![term(exp, scale_element(config))]
            },
            constant: if upper {
                minus_one()
            } else {
                EF::zero()
            },
            instance: TypeBOp {
                layer: (inst as int / config.n_head as int) as usize,
                head: (inst as int % config.n_head as int) as usize,
            },
        },
    }
}

/// The segments of one product for every layer.
pub open spec fn layer_descs(config: Config, w: ModelWeights, mm: Mm) -> Seq<DescView> {
    Seq::new(
        config.n_layer as nat,
        |l: int| product_desc(config, w, TypeAOp { mm, layer: l as usize, head: 0 }),
    )
}

/// Segment `j` of the heads: scores, outputs and both softmax remainders of each
/// head in turn.
pub open spec fn head_desc(config: Config, w: ModelWeights, j: int) -> DescView {
    let inst = j / 4;
    let (layer, head) = (inst / config.n_head as int, inst % config.n_head as int);
    if j % 4 == 0 {
        product_desc(
            config,
            w,
            TypeAOp { mm: Mm::Sc, layer: layer as usize, head: head as usize },
        )
    } else if j % 4 == 1 {
        product_desc(
            config,
            w,
            TypeAOp { mm: Mm::Ao, layer: layer as usize, head: head as usize },
        )
    } else {
        softmax_desc(config, inst as nat, j % 4 == 3)
    }
}

/// The segments of all heads.
pub open spec fn head_descs(config: Config, w: ModelWeights) -> Seq<DescView> {
    Seq::new(
        (config.n_layer * config.n_head * 4) as nat,
        |j: int| head_desc(config, w, j),
    )
}

/// The first segments: the shares, the activation and the limbs.
pub open spec fn direct_descs(config: Config, w: ModelWeights) -> Seq<DescView> {
    seq![share_desc(config), act_desc(config, w)] + Seq::new(
        CHECKS as nat,
        |i: int| limb_desc(config, check_at(config, i)),
    )
}

/// All segments in the order of their construction.
pub open spec fn listed(config: Config, w: ModelWeights) -> Seq<DescView> {
    direct_descs(config, w) + layer_descs(config, w, Mm::Qkv) + layer_descs(config, w, Mm::Fc)
        + layer_descs(config, w, Mm::Fpr) + layer_descs(config, w, Mm::Apr) + seq![
        product_desc(config, w, TypeAOp { mm: Mm::Log, layer: 0, head: 0 }),
    ] + head_descs(config, w)
}

/// Inserts behind all segments that are at least as long.
pub open spec fn insert_desc(s: Seq<DescView>, d: DescView) -> Seq<DescView>
    decreases s.len(),
{
    if s.len() == 0 || s.last().vars >= d.vars {
        s.push(d)
    } else {
        insert_desc(s.drop_last(), d).push(s.last())
    }
}

/// The longest first; equally long ones keep their order.
pub open spec fn sorted(s: Seq<DescView>) -> Seq<DescView>
    decreases s.len(),
{
    if s.len() == 0 {
        Seq::empty()
    } else {
        insert_desc(sorted(s.drop_last()), s.last())
    }
}

/// The length of the first `n` segments together.
pub open spec fn length_before(s: Seq<DescView>, n: nat) -> nat
    decreases n,
{
    if n == 0 {
        0
    } else {
        length_before(s, (n - 1) as nat) + pow2(s[n - 1].vars)
    }
}

/// A segment at a position of the query.
pub open spec fn at_start(d: DescView, start: nat) -> DescView {
    DescView { start, ..d }
}

/// The segments one after another.
pub open spec fn placed(s: Seq<DescView>) -> Seq<DescView> {
    Seq::new(s.len(), |i: int| at_start(s[i], length_before(s, i as nat)))
}

/// All segments of the query.
#[verifier::opaque]
pub open spec fn all_segments(config: Config, w: ModelWeights) -> Seq<DescView> {
    placed(sorted(listed(config, w)))
}

/// Number of rows of all segments together.
pub open spec fn total_len(config: Config, w: ModelWeights) -> nat {
    length_before(sorted(listed(config, w)), sorted(listed(config, w)).len())
}

/// Variables of the query.
pub open spec fn query_bits(config: Config, w: ModelWeights) -> nat {
    commit::ceil_log(total_len(config, w) as int)
}

/// The query fits a machine word.
pub open spec fn query_fits(config: Config, w: ModelWeights) -> bool {
    &&& segments_fit(config, w)
    &&& pow2(query_bits(config, w)) <= usize::MAX
}

fn direct(
    kind: &str,
    ty: u64,
    table_base: usize,
    vars: usize,
    bias: Option<BiasPoly>,
    offset: u64,
    out: Option<String>,
) -> (r: Descriptor)
    ensures
        r.contents() == (DescView {
            oracle_in: kind@,
            ty: ty as int,
            base: table_base as int,
            vars: vars as nat,
            start: 0,
            kind: SegView::Direct {
                bias: option_bias(bias),
                offset: offset as int,
                out: option_text(out),
            },
        }),
{
    Descriptor {
        oracle_in: kind.to_owned(),
        ty,
        table_base,
        vars,
        start: 0,
        kind: SegKind::Direct { bias, offset, out },
    }
}

/// The instances that a product reads exist.
pub open spec fn op_within(config: Config, op: TypeAOp) -> bool {
    op.layer < config.n_layer && op.head < config.n_head
}

proof fn lemma_inst(config: Config, op: TypeAOp)
    requires
        canonical::sizes_fit(config),
        op_within(config, op),
    ensures
        0 <= op.layer * config.n_head + op.head < config.n_layer * config.n_head,
        0 <= op.layer * config.n_head <= config.n_layer * config.n_head,
{
    grid::lemma_cell(
        config.n_layer as nat,
        config.n_head as nat,
        op.layer as int,
        op.head as int,
    );
    assert(0 <= op.layer * config.n_head) by (nonlinear_arith);
}

/// The operands of a matrix product.
fn operand_sources(config: &Config, weights: &ModelWeights, op: TypeAOp) -> (r: (
    OracleSource,
    OracleSource,
))
    requires
        segments_fit(*config, *weights),
        op_within(*config, op),
    ensures
        r.0.contents() == left_source(*config, *weights, op),
        r.1.contents() == right_source(*config, *weights, op),
{
    let d = mm_dims(config, op.mm);
    let l: usize = op.layer;
    let bw = &weights.blocks[l];
    proof {
        lemma_inst(*config, op);
        assert(bw.wf(*config));
        canonical::lemma_sizes(*config, Kind::QAo);
        commit::lemma_ceil_pow(config.d_model as int);
    }
    let inst: usize = l * config.n_head + op.head;
    match op.mm {
        Mm::Qkv => (
            sources::a_source(
                config,
                Kind::QLn,
                2 * l,
                d.k,
                d.row,
                Some(sources::feature_bias(bw.ln_1_b.as_slice(), d.k)),
            ),
            sources::b_source(canonical::attn_w(l).as_str(), d.k, d.col),
        ),
        Mm::Fc => (
            sources::a_source(
                config,
                Kind::QLn,
                2 * l + 1,
                d.k,
                d.row,
                Some(sources::feature_bias(bw.ln_2_b.as_slice(), d.k)),
            ),
            sources::b_source(canonical::fc_w(l).as_str(), d.k, d.col),
        ),
        Mm::Fpr => (
            sources::a_source(config, Kind::Act, l, d.k, d.row, None),
            sources::b_source(canonical::fproj_w(l).as_str(), d.k, d.col),
        ),
        Mm::Apr => (
            sources::a_source(config, Kind::QAo, l, d.k, d.row, None),
            sources::b_source(canonical::attn_proj_w(l).as_str(), d.k, d.col),
        ),
        Mm::Log => (
            sources::a_source(
                config,
                Kind::QLn,
                2 * config.n_layer,
                d.k,
                d.row,
                Some(sources::feature_bias(weights.ln_f_b.as_slice(), d.k)),
            ),
            sources::b_source(WTE, d.k, d.col),
        ),
        Mm::Sc => (
            sources::head_slice_src(config, weights, l, 0, op.head),
            sources::head_slice_src(config, weights, l, 1, op.head),
        ),
        Mm::Ao => (
            sources::a_source(config, Kind::QProb, inst, d.k, d.row, None),
            sources::head_slice_src(config, weights, l, 2, op.head),
        ),
    }
}

/// The remainders of a rescaled matrix product.
pub fn typea_descriptor(config: &Config, weights: &ModelWeights, op: TypeAOp) -> (r: Descriptor)
    requires
        segments_fit(*config, *weights),
        op_within(*config, op),
    ensures
        r.contents() == product_desc(*config, *weights, op),
{
    let d = mm_dims(config, op.mm);
    let (a_src, b_src) = operand_sources(config, weights, op);
    proof {
        lemma_inst(*config, op);
    }
    let inst: usize = op.layer * config.n_head + op.head;
    let (q_kind, q_src) = match op.mm {
        Mm::Qkv => (Kind::QQkv, sources::slice_src(config, Kind::QQkv, op.layer)),
        Mm::Fc => (Kind::QFc, sources::slice_src(config, Kind::QFc, op.layer)),
        Mm::Fpr => (Kind::QFpr, sources::slice_src(config, Kind::QFpr, op.layer)),
        Mm::Apr => (Kind::QApr, sources::slice_src(config, Kind::QApr, op.layer)),
        Mm::Log => (Kind::QLog, sources::slice_src(config, Kind::QLog, 0)),
        Mm::Sc => (Kind::QSc, sources::slice_src(config, Kind::QSc, inst)),
        Mm::Ao => (Kind::QAo, sources::ao_out_slice_src(config, op.layer, op.head)),
    };
    let divisor: u64 = mm_divisor(config, op.mm);
    let (ty, table_base) = const_div_range(divisor);
    Descriptor {
        oracle_in: q_kind.name().to_owned(),
        ty,
        table_base,
        vars: commit::log_ceil(d.col) + commit::log_ceil(d.row),
        start: 0,
        kind: SegKind::TypeA { divisor, mk: mm_kind(op.mm), q_src, a_src, b_src, op },
    }
}

/// The remainders of a head's softmax division.
pub fn typeb_descriptor(config: &Config, weights: &ModelWeights, inst: usize, upper: bool) -> (r:
    Descriptor)
    requires
        segments_fit(*config, *weights),
    ensures
        r.contents() == softmax_desc(*config, inst as nat, upper),
{
    let one = EF::new_one();
    let scale = canonical::ef(config.scale);
    proof {
        canonical::lemma_layout_fits(*config, Kind::Exp);
    }
    let lay = canonical::layout_of(config, Kind::Exp);
    let linears: Vec<Linear> = if upper {
        vec![
            linear(sources::sum_exp_bc_src(config, inst), one),
            linear(sources::slice_src(config, Kind::Exp, inst), scale.neg()),
        ]
    } else {
        vec![linear(sources::slice_src(config, Kind::Exp, inst), scale)]
    };
    let ghost goal = softmax_desc(*config, inst as nat, upper);
    assert(linear_views(linears@) =~= goal.kind->TypeB_linears);
    Descriptor {
        oracle_in: Kind::Exp.name().to_owned(),
        ty: TYPE_RANGE20,
        table_base: R20_BASE,
        vars: lay.elem_vars(),
        start: 0,
        kind: SegKind::TypeB {
            prod_left: sources::slice_src(config, Kind::QProb, inst),
            prod_right: sources::sum_exp_bc_src(config, inst),
            prod_coeff: if upper {
                one
            } else {
                one.neg()
            },
            linears,
            constant: if upper {
                one.neg()
            } else {
                EF::new_zero()
            },
            instance: TypeBOp { layer: inst / config.n_head, head: inst % config.n_head },
        },
    }
}

proof fn lemma_insert_at(s: Seq<DescView>, d: DescView, pos: int)
    requires
        0 <= pos <= s.len(),
        forall|j: int| pos <= j < s.len() ==> (#[trigger] s[j]).vars < d.vars,
        pos > 0 ==> s[pos - 1].vars >= d.vars,
    ensures
        insert_desc(s, d) == s.insert(pos, d),
    decreases s.len(),
{
    if pos == s.len() {
        assert(s.insert(pos, d) =~= s.push(d));
    } else {
        lemma_insert_at(s.drop_last(), d, pos);
        assert(s.last().vars < d.vars);
        assert(s.insert(pos, d) =~= s.drop_last().insert(pos, d).push(s.last()));
    }
}

/// Inserts behind all segments that are at least as long.
fn insert_sorted(descs: &mut Vec<Descriptor>, d: Descriptor)
    ensures
        desc_views(final(descs)@) == insert_desc(desc_views(old(descs)@), d.contents()),
{
    let ghost before = descs@;
    let mut pos: usize = descs.len();
    while pos > 0 && descs[pos - 1].vars < d.vars
        invariant
            pos <= descs@.len(),
            descs@ == before,
            forall|j: int|
                pos <= j < before.len() ==> (#[trigger] desc_views(before)[j]).vars
                    < d.contents().vars,
        decreases pos,
    {
        pos -= 1;
    }
    let ghost dv = d.contents();
    descs.insert(pos, d);
    proof {
        lemma_insert_at(desc_views(before), dv, pos as int);
        assert(desc_views(descs@) =~= desc_views(before).insert(pos as int, dv));
    }
}

proof fn lemma_sorted_push(s: Seq<DescView>, d: DescView)
    ensures
        sorted(s.push(d)) == insert_desc(sorted(s), d),
{
    assert(s.push(d).drop_last() =~= s);
}

/// Adds a segment behind the listed ones, keeping the sorted order.
fn add_segment(descs: &mut Vec<Descriptor>, d: Descriptor, seen: Ghost<Seq<DescView>>)
    requires
        desc_views(old(descs)@) == sorted(seen@),
    ensures
        desc_views(final(descs)@) == sorted(seen@.push(d.contents())),
{
    proof {
        lemma_sorted_push(seen@, d.contents());
    }
    insert_sorted(descs, d);
}

/// The direct segments, sorted.
fn direct_segments(config: &Config, weights: &ModelWeights) -> (r: Vec<Descriptor>)
    requires
        segments_fit(*config, *weights),
    ensures
        desc_views(r@) == sorted(direct_descs(*config, *weights)),
{
    let ghost goal = direct_descs(*config, *weights);
    let ghost mut seen: Seq<DescView> = Seq::empty();
    let mut descs: Vec<Descriptor> = Vec::new();
    assert(desc_views(descs@) =~= sorted(seen));
    proof {
        canonical::lemma_layout_fits(*config, Kind::QProb);
    }
    let prob = canonical::layout_of(config, Kind::QProb);
    let share = direct(
        Kind::QProb.name(),
        TYPE_RANGE13,
        R13_BASE,
        prob.num_vars(),
        None,
        0,
        None,
    );
    add_segment(&mut descs, share, Ghost(seen));
    proof {
        seen = seen.push(goal[0]);
    }
    proof {
        canonical::lemma_layout_fits(*config, Kind::QFc);
    }
    let fc = canonical::layout_of(config, Kind::QFc);
    let shift: i64 = config.max_v * config.scale;
    assert(shift < 0 ==> shift as u64 == shift + 0x1_0000_0000_0000_0000) by (bit_vector);
    let act = direct(
        Kind::QFc.name(),
        TYPE_GELU,
        table::gelu_base(config, weights),
        fc.num_vars(),
        Some(sources::fc_bias(config, weights)),
        #[verifier::truncate]
        (shift as u64),
        Some(Kind::Act.name().to_owned()),
    );
    add_segment(&mut descs, act, Ghost(seen));
    proof {
        seen = seen.push(goal[1]);
        assert(seen =~= goal.take(2));
    }
    let checks = limb_checks(config);
    let base: usize = table::limb16_base(config, weights);
    let mut i: usize = 0;
    while i < CHECKS
        invariant
            i <= CHECKS,
            segments_fit(*config, *weights),
            goal == direct_descs(*config, *weights),
            base == table::limb_base(*config),
            checks@.len() == CHECKS,
            check_views(checks@) == all_checks(*config),
            seen == goal.take(2 + i),
            desc_views(descs@) == sorted(seen),
        decreases CHECKS - i,
    {
        proof {
            canonical::lemma_layout_fits(*config, checks@[i as int].value);
        }
        let lay = canonical::layout_of(config, checks[i].value);
        let d = direct(
            checks[i].limb_oracle.as_str(),
            TYPE_LIMB16,
            base,
            lay.num_vars() + 1,
            None,
            0,
            None,
        );
        proof {
            assert(checks@[i as int].contents() == check_views(checks@)[i as int]);
            assert(d.contents() == goal[2 + i]);
        }
        add_segment(&mut descs, d, Ghost(seen));
        proof {
            seen = seen.push(goal[2 + i]);
            assert(seen =~= goal.take(2 + i + 1));
        }
        i += 1;
    }
    assert(goal.take(2 + CHECKS) =~= goal);
    descs
}

/// Adds the segments of one product for every layer.
fn add_layers(
    config: &Config,
    weights: &ModelWeights,
    mm: Mm,
    descs: &mut Vec<Descriptor>,
    seen: Ghost<Seq<DescView>>,
)
    requires
        segments_fit(*config, *weights),
        desc_views(old(descs)@) == sorted(seen@),
    ensures
        desc_views(final(descs)@) == sorted(seen@ + layer_descs(*config, *weights, mm)),
{
    let ghost goal = layer_descs(*config, *weights, mm);
    let ghost mut now = seen@;
    assert(now =~= seen@ + goal.take(0));
    let mut l: usize = 0;
    while l < config.n_layer
        invariant
            l <= config.n_layer,
            segments_fit(*config, *weights),
            goal == layer_descs(*config, *weights, mm),
            now == seen@ + goal.take(l as int),
            desc_views(descs@) == sorted(now),
        decreases config.n_layer - l,
    {
        let d = typea_descriptor(config, weights, TypeAOp { mm, layer: l, head: 0 });
        assert(d.contents() == goal[l as int]);
        add_segment(descs, d, Ghost(now));
        proof {
            now = now.push(goal[l as int]);
            assert(now =~= seen@ + goal.take(l + 1));
        }
        l += 1;
    }
    assert(goal.take(l as int) =~= goal);
}

/// Adds the segments of all heads.
fn add_heads(
    config: &Config,
    weights: &ModelWeights,
    descs: &mut Vec<Descriptor>,
    seen: Ghost<Seq<DescView>>,
)
    requires
        segments_fit(*config, *weights),
        desc_views(old(descs)@) == sorted(seen@),
    ensures
        desc_views(final(descs)@) == sorted(seen@ + head_descs(*config, *weights)),
{
    let ghost goal = head_descs(*config, *weights);
    let ghost mut now = seen@;
    assert(now =~= seen@ + goal.take(0));
    let n: usize = config.n_layer * config.n_head * 4;
    let mut j: usize = 0;
    while j < n
        invariant
            j <= n,
            n == config.n_layer * config.n_head * 4,
            segments_fit(*config, *weights),
            goal == head_descs(*config, *weights),
            now == seen@ + goal.take(j as int),
            desc_views(descs@) == sorted(now),
        decreases n - j,
    {
        let inst: usize = j / 4;
        proof {
            grid::lemma_position(
                config.n_layer as nat,
                config.n_head as nat,
                inst as int,
            );
        }
        let (layer, head): (usize, usize) = (inst / config.n_head, inst % config.n_head);
        let d = if j % 4 == 0 {
            typea_descriptor(config, weights, TypeAOp { mm: Mm::Sc, layer, head })
        } else if j % 4 == 1 {
            typea_descriptor(config, weights, TypeAOp { mm: Mm::Ao, layer, head })
        } else {
            typeb_descriptor(config, weights, inst, j % 4 == 3)
        };
        assert(d.contents() == goal[j as int]);
        add_segment(descs, d, Ghost(now));
        proof {
            now = now.push(goal[j as int]);
            assert(now =~= seen@ + goal.take(j + 1));
        }
        j += 1;
    }
    assert(goal.take(j as int) =~= goal);
}

/// Sets the start of every segment.
fn place(descs: &mut Vec<Descriptor>)
    requires
        length_before(desc_views(old(descs)@), old(descs)@.len()) <= usize::MAX,
    ensures
        desc_views(final(descs)@) == placed(desc_views(old(descs)@)),
{
    let ghost before = desc_views(descs@);
    let mut start: usize = 0;
    let mut i: usize = 0;
    while i < descs.len()
        invariant
            i <= descs@.len(),
            descs@.len() == before.len(),
            length_before(before, before.len()) <= usize::MAX,
            start == length_before(before, i as nat),
            forall|j: int|
                0 <= j < i ==> (#[trigger] descs@[j]).contents() == placed(before)[j],
            forall|j: int| i <= j < before.len() ==> (#[trigger] descs@[j]).contents() == before[j],
        decreases descs.len() - i,
    {
        proof {
            lemma_length_mono(before, (i + 1) as nat, before.len());
            assert(descs@[i as int].contents() == before[i as int]);
        }
        let vars: usize = descs[i].vars;
        let ghost old_view = descs@[i as int].contents();
        descs[i].start = start;
        assert(descs@[i as int].contents() == at_start(old_view, start as nat));
        start = start + commit::two_to(vars);
        i += 1;
    }
    assert(desc_views(descs@) =~= placed(before));
}

pub proof fn lemma_length_mono(s: Seq<DescView>, a: nat, b: nat)
    requires
        a <= b,
    ensures
        length_before(s, a) <= length_before(s, b),
        a > 0 ==> pow2(s[a - 1].vars) <= length_before(s, a),
    decreases b - a,
{
    if a < b {
        lemma_length_mono(s, (a + 1) as nat, b);
    }
}

/// All segments of the query.
pub fn descriptors(config: &Config, weights: &ModelWeights) -> (r: Vec<Descriptor>)
    requires
        query_fits(*config, *weights),
    ensures
        desc_views(r@) == all_segments(*config, *weights),
{
    let ghost mut seen = direct_descs(*config, *weights);
    let mut descs = direct_segments(config, weights);
    add_layers(config, weights, Mm::Qkv, &mut descs, Ghost(seen));
    proof {
        seen = seen + layer_descs(*config, *weights, Mm::Qkv);
    }
    add_layers(config, weights, Mm::Fc, &mut descs, Ghost(seen));
    proof {
        seen = seen + layer_descs(*config, *weights, Mm::Fc);
    }
    add_layers(config, weights, Mm::Fpr, &mut descs, Ghost(seen));
    proof {
        seen = seen + layer_descs(*config, *weights, Mm::Fpr);
    }
    add_layers(config, weights, Mm::Apr, &mut descs, Ghost(seen));
    proof {
        seen = seen + layer_descs(*config, *weights, Mm::Apr);
    }
    let logits = typea_descriptor(config, weights, TypeAOp { mm: Mm::Log, layer: 0, head: 0 });
    let ghost lv = logits.contents();
    add_segment(&mut descs, logits, Ghost(seen));
    proof {
        assert(seen.push(lv) =~= seen + seq![lv]);
        seen = seen + seq![lv];
    }
    add_heads(config, weights, &mut descs, Ghost(seen));
    proof {
        commit::lemma_ceil_pow(total_len(*config, *weights) as int);
        assert(desc_views(descs@).len() == descs@.len());
    }
    place(&mut descs);
    proof {
        reveal(all_segments);
    }
    descs
}

} // verus!
