//! The committed polynomials of one inference: one per kind of witness tensor, in a
//! fixed layout.
//!
//! An instance is a matrix padded to powers of two, with the column on the low
//! variables and the row above it. The instances of a kind are stacked with the
//! instance index on the high variables. A vector is a matrix of one column.
//!
//! The instances of the LayerNorm kinds are `ln1, ln2` of each layer in turn, then
//! the final one. Kinds with one instance for each head take the heads layer by
//! layer. The residual outputs are `attention, mlp` of each layer in turn.
use vstd::prelude::*;
use vstd::arithmetic::power2::pow2;
use vstd::string::StringExecFns;
use crate::field::Field;
use crate::multilinear;
use crate::proofsys::commit;
use crate::proofsys::commit::CommitSet;
use crate::proofsys::grid;
use crate::proofsys::grid::{Cube, Grid};
use crate::proofsys::model::ModelWeights;
use crate::proofsys::protocol::EF;
use crate::proofsys::tensor;
use crate::proofsys::tensor::Matrix;
use crate::proofsys::witness::{
    encode_i64, AttentionView, Config, LayerNormView, LayerNormWitness, MlpView, Witness,
    WitnessView,
};

verus! {

pub const Q_LN: &'static str = "q_ln";

pub const A_LN: &'static str = "a_ln";

pub const STD: &'static str = "std";

pub const VAR: &'static str = "var";

pub const Q_QKV: &'static str = "q_qkv";

pub const Q_SC: &'static str = "q_sc";

pub const X_MAX: &'static str = "x_max";

pub const EXP: &'static str = "exp";

pub const SUM_EXP: &'static str = "sum_exp";

pub const Q_PROB: &'static str = "q_prob";

pub const Q_AO: &'static str = "q_ao";

pub const Q_APR: &'static str = "q_apr";

pub const Q_FC: &'static str = "q_fc";

pub const ACT: &'static str = "act";

pub const Q_FPR: &'static str = "q_fpr";

pub const X_OUT: &'static str = "x_out";

pub const Q_LOG: &'static str = "q_log";

/// The token embedding.
pub const WTE: &'static str = "wte";

/// The kinds of committed witness tensors.
#[derive(Clone, Copy, Debug, PartialEq, Eq, Structural)]
pub enum Kind {
    QLn,
    ALn,
    Std,
    Var,
    QQkv,
    QSc,
    XMax,
    Exp,
    SumExp,
    QProb,
    QAo,
    QApr,
    QFc,
    Act,
    QFpr,
    XOut,
    QLog,
}

impl Kind {
    /// The name of the committed polynomial.
    pub open spec fn text(self) -> Seq<char> {
        match self {
            Kind::QLn => Q_LN@,
            Kind::ALn => A_LN@,
            Kind::Std => STD@,
            Kind::Var => VAR@,
            Kind::QQkv => Q_QKV@,
            Kind::QSc => Q_SC@,
            Kind::XMax => X_MAX@,
            Kind::Exp => EXP@,
            Kind::SumExp => SUM_EXP@,
            Kind::QProb => Q_PROB@,
            Kind::QAo => Q_AO@,
            Kind::QApr => Q_APR@,
            Kind::QFc => Q_FC@,
            Kind::Act => ACT@,
            Kind::QFpr => Q_FPR@,
            Kind::XOut => X_OUT@,
            Kind::QLog => Q_LOG@,
        }
    }

    /// The name of the committed polynomial.
    pub fn name(self) -> (r: &'static str)
        ensures
            r@ == self.text(),
    {
        match self {
            Kind::QLn => Q_LN,
            Kind::ALn => A_LN,
            Kind::Std => STD,
            Kind::Var => VAR,
            Kind::QQkv => Q_QKV,
            Kind::QSc => Q_SC,
            Kind::XMax => X_MAX,
            Kind::Exp => EXP,
            Kind::SumExp => SUM_EXP,
            Kind::QProb => Q_PROB,
            Kind::QAo => Q_AO,
            Kind::QApr => Q_APR,
            Kind::QFc => Q_FC,
            Kind::Act => ACT,
            Kind::QFpr => Q_FPR,
            Kind::XOut => X_OUT,
            Kind::QLog => Q_LOG,
        }
    }

    /// The kind's place in the order of the declaration.
    pub open spec fn rank(self) -> int {
        match self {
            Kind::QLn => 0,
            Kind::ALn => 1,
            Kind::Std => 2,
            Kind::Var => 3,
            Kind::QQkv => 4,
            Kind::QSc => 5,
            Kind::XMax => 6,
            Kind::Exp => 7,
            Kind::SumExp => 8,
            Kind::QProb => 9,
            Kind::QAo => 10,
            Kind::QApr => 11,
            Kind::QFc => 12,
            Kind::Act => 13,
            Kind::QFpr => 14,
            Kind::XOut => 15,
            Kind::QLog => 16,
        }
    }

    /// What fills the padding. Deviations and sums stay valid divisors.
    pub open spec fn padding(self) -> int {
        match self {
            Kind::Std => 1,
            Kind::SumExp => 1,
            _ => 0,
        }
    }
}

/// The kind with place `n`.
pub fn kind_at(n: usize) -> (r: Kind)
    requires
        n < 17,
    ensures
        r.rank() == n,
{
    match n {
        0 => Kind::QLn,
        1 => Kind::ALn,
        2 => Kind::Std,
        3 => Kind::Var,
        4 => Kind::QQkv,
        5 => Kind::QSc,
        6 => Kind::XMax,
        7 => Kind::Exp,
        8 => Kind::SumExp,
        9 => Kind::QProb,
        10 => Kind::QAo,
        11 => Kind::QApr,
        12 => Kind::QFc,
        13 => Kind::Act,
        14 => Kind::QFpr,
        15 => Kind::XOut,
        _ => Kind::QLog,
    }
}

/// Length, first and third character of a name.
spec fn signature(s: Seq<char>) -> (nat, char, char) {
    (s.len(), s[0], s[2])
}

/// Different kinds have different names.
pub proof fn lemma_kind_names(a: Kind, b: Kind)
    ensures
        a.text() == b.text() ==> a == b,
        3 <= a.text().len() <= 7,
        a.text()[0] != 'w',
        a.text().len() > 5 ==> a.text()[0] == 'q' || a.text()[0] == 's',
{
    reveal_strlit("q_ln");
    reveal_strlit("a_ln");
    reveal_strlit("std");
    reveal_strlit("var");
    reveal_strlit("q_qkv");
    reveal_strlit("q_sc");
    reveal_strlit("x_max");
    reveal_strlit("exp");
    reveal_strlit("sum_exp");
    reveal_strlit("q_prob");
    reveal_strlit("q_ao");
    reveal_strlit("q_apr");
    reveal_strlit("q_fc");
    reveal_strlit("act");
    reveal_strlit("q_fpr");
    reveal_strlit("x_out");
    reveal_strlit("q_log");
    assert(signature(Q_LN@) == (4nat, 'q', 'l'));
    assert(signature(A_LN@) == (4nat, 'a', 'l'));
    assert(signature(STD@) == (3nat, 's', 'd'));
    assert(signature(VAR@) == (3nat, 'v', 'r'));
    assert(signature(Q_QKV@) == (5nat, 'q', 'q'));
    assert(signature(Q_SC@) == (4nat, 'q', 's'));
    assert(signature(X_MAX@) == (5nat, 'x', 'm'));
    assert(signature(EXP@) == (3nat, 'e', 'p'));
    assert(signature(SUM_EXP@) == (7nat, 's', 'm'));
    assert(signature(Q_PROB@) == (6nat, 'q', 'p'));
    assert(signature(Q_AO@) == (4nat, 'q', 'a'));
    assert(signature(Q_APR@) == (5nat, 'q', 'a'));
    assert(signature(Q_FC@) == (4nat, 'q', 'f'));
    assert(signature(ACT@) == (3nat, 'a', 't'));
    assert(signature(Q_FPR@) == (5nat, 'q', 'f'));
    assert(signature(X_OUT@) == (5nat, 'x', 'o'));
    assert(signature(Q_LOG@) == (5nat, 'q', 'l'));
    assert(signature(a.text()).1 == a.text()[0]);
    if a.text() == b.text() {
        assert(signature(a.text()) == signature(b.text()));
    }
}

/// Some kind has this name.
pub open spec fn is_kind_name(s: Seq<char>) -> bool {
    exists|k: Kind| s == #[trigger] k.text()
}

/// The kind of a name.
pub open spec fn kind_of(s: Seq<char>) -> Kind {
    choose|k: Kind| s == #[trigger] k.text()
}

pub proof fn lemma_kind_of(k: Kind)
    ensures
        is_kind_name(k.text()),
        kind_of(k.text()) == k,
{
    lemma_kind_names(kind_of(k.text()), k);
}

/// The kind of a name.
pub fn find_kind(name: &str) -> (r: Option<Kind>)
    ensures
        r is Some <==> is_kind_name(name@),
        r is Some ==> r->0 == kind_of(name@),
{
    let wanted = name.to_owned();
    let mut n: usize = 0;
    while n < 17
        invariant
            n <= 17,
            wanted@ == name@,
            forall|k: Kind| k.rank() < n ==> #[trigger] k.text() != name@,
        decreases 17 - n,
    {
        let k = kind_at(n);
        if k.name().to_owned() == wanted {
            proof {
                lemma_kind_of(k);
            }
            return Some(k);
        }
        proof {
            assert forall|j: Kind| j.rank() < n + 1 implies #[trigger] j.text() != name@ by {
                if j.rank() == n {
                    assert(j == k);
                }
            }
        }
        n += 1;
    }
    proof {
        assert forall|k: Kind| #[trigger] k.text() != name@ by {
            assert(k.rank() < 17);
        }
    }
    None
}

/// How often 2 divides `n`; the word size for 0.
pub open spec fn twos(n: nat) -> nat
    decreases n,
{
    if n == 0 {
        usize::BITS as nat
    } else if n % 2 == 1 {
        0
    } else {
        1 + twos(n / 2)
    }
}

pub proof fn lemma_twos(k: nat)
    ensures
        twos(pow2(k)) == k,
    decreases k,
{
    multilinear::lemma_pow2_zero();
    if k > 0 {
        multilinear::lemma_pow2_step(k);
        lemma_twos((k - 1) as nat);
    }
}

/// How often 2 divides `n`; the word size for 0.
fn count_twos(n: usize) -> (r: usize)
    ensures
        r == twos(n as nat),
        r <= 64,
{
    if n == 0 {
        return usize::BITS as usize;
    }
    let mut m: usize = n;
    let mut r: usize = 0;
    proof {
        multilinear::lemma_pow2_zero();
        vstd::arithmetic::power2::lemma2_to64_rest();
    }
    while m % 2 == 0
        invariant
            m > 0,
            r < 64,
            m * pow2(r as nat) <= usize::MAX,
            r + twos(m as nat) == twos(n as nat),
            pow2(64) == 0x1_0000_0000_0000_0000,
        decreases m,
    {
        proof {
            let (h, q) = ((m / 2) as int, pow2(r as nat) as int);
            multilinear::lemma_pow2_step((r + 1) as nat);
            assert(h * (2 * q) == (2 * h) * q) by (nonlinear_arith);
            if r + 1 >= 64 {
                multilinear::lemma_pow2_mono(64, (r + 1) as nat);
                assert(h * (2 * q) >= 2 * q) by (nonlinear_arith)
                    requires
                        h >= 1,
                        q >= 0,
                ;
            }
        }
        m = m / 2;
        r += 1;
    }
    r
}

/// The layout of one kind: the number of instances and the padded shape of each.
#[derive(Clone, Copy, Debug, PartialEq, Eq, Structural)]
pub struct TypeLayout {
    pub instances: usize,
    pub row_pow: usize,
    pub col_pow: usize,
}

impl TypeLayout {
    /// Variables of the column.
    pub fn col_vars(&self) -> (r: usize)
        ensures
            r == twos(self.col_pow as nat),
            r <= 64,
    {
        count_twos(self.col_pow)
    }

    /// Variables of the row.
    pub fn row_vars(&self) -> (r: usize)
        ensures
            r == twos(self.row_pow as nat),
            r <= 64,
    {
        count_twos(self.row_pow)
    }

    /// Variables of one instance.
    pub fn elem_vars(&self) -> (r: usize)
        ensures
            r == twos(self.col_pow as nat) + twos(self.row_pow as nat),
            r <= 128,
    {
        self.col_vars() + self.row_vars()
    }

    /// Variables of the instance index.
    pub fn inst_vars(&self) -> (r: usize)
        ensures
            r == commit::ceil_log(self.instances as int),
            r <= 64,
    {
        commit::log_ceil(self.instances)
    }

    /// Variables of the whole polynomial.
    pub fn num_vars(&self) -> (r: usize)
        ensures
            r == commit::ceil_log(self.instances as int) + twos(self.col_pow as nat) + twos(
                self.row_pow as nat,
            ),
            r <= 192,
    {
        self.inst_vars() + self.elem_vars()
    }
}

/// Number of instances, rows and columns of a kind.
pub open spec fn dims(config: Config, kind: Kind) -> (nat, nat, nat) {
    let l = config.n_layer as nat;
    let s = config.n_seq as nat;
    let d = config.d_model as nat;
    let heads = l * config.n_head as nat;
    match kind {
        Kind::QLn => (2 * l + 1, s, d),
        Kind::ALn => (2 * l + 1, s, d),
        Kind::Std => (2 * l + 1, s, 1),
        Kind::Var => (2 * l + 1, s, 1),
        Kind::QQkv => (l, s, 3 * d),
        Kind::QSc => (heads, s, s),
        Kind::Exp => (heads, s, s),
        Kind::QProb => (heads, s, s),
        Kind::XMax => (heads, s, 1),
        Kind::SumExp => (heads, s, 1),
        Kind::QAo => (l, s, d),
        Kind::QApr => (l, s, d),
        Kind::QFpr => (l, s, d),
        Kind::QFc => (l, s, config.mlp_hidden as nat),
        Kind::Act => (l, s, config.mlp_hidden as nat),
        Kind::XOut => (2 * l, s, d),
        Kind::QLog => (1, s, config.vocab as nat),
    }
}

/// Variables of a kind's instance index.
pub open spec fn inst_bits(config: Config, kind: Kind) -> nat {
    commit::ceil_log(dims(config, kind).0 as int)
}

/// Variables of a kind's row.
pub open spec fn row_bits(config: Config, kind: Kind) -> nat {
    commit::ceil_log(dims(config, kind).1 as int)
}

/// Variables of a kind's column.
pub open spec fn col_bits(config: Config, kind: Kind) -> nat {
    commit::ceil_log(dims(config, kind).2 as int)
}

/// Variables of one instance of a kind.
pub open spec fn elem_bits(config: Config, kind: Kind) -> nat {
    col_bits(config, kind) + row_bits(config, kind)
}

/// Variables of a kind's polynomial.
pub open spec fn all_bits(config: Config, kind: Kind) -> nat {
    elem_bits(config, kind) + inst_bits(config, kind)
}

/// Every polynomial's length fits a machine word.
pub open spec fn sizes_fit(config: Config) -> bool {
    &&& 2 * config.n_layer + 1 <= usize::MAX
    &&& config.n_layer * config.n_head <= usize::MAX
    &&& 3 * config.d_model <= usize::MAX
    &&& forall|k: Kind| pow2(#[trigger] all_bits(config, k)) <= usize::MAX
}

/// The padded parts of a kind's length fit too.
pub proof fn lemma_sizes(config: Config, kind: Kind)
    requires
        sizes_fit(config),
    ensures
        pow2(inst_bits(config, kind)) <= usize::MAX,
        pow2(row_bits(config, kind)) <= usize::MAX,
        pow2(col_bits(config, kind)) <= usize::MAX,
        pow2(elem_bits(config, kind)) <= usize::MAX,
        pow2(all_bits(config, kind)) <= usize::MAX,
        pow2(elem_bits(config, kind)) == pow2(row_bits(config, kind)) * pow2(
            col_bits(config, kind),
        ),
        pow2(all_bits(config, kind)) == pow2(inst_bits(config, kind)) * pow2(
            elem_bits(config, kind),
        ),
        dims(config, kind).0 <= pow2(inst_bits(config, kind)),
        dims(config, kind).1 <= pow2(row_bits(config, kind)),
        dims(config, kind).2 <= pow2(col_bits(config, kind)),
        all_bits(config, kind) < 64,
{
    let (i, r, c) = (inst_bits(config, kind), row_bits(config, kind), col_bits(config, kind));
    assert(pow2(all_bits(config, kind)) <= usize::MAX);
    multilinear::lemma_pow2_mono(i, c + r + i);
    multilinear::lemma_pow2_mono(r, c + r + i);
    multilinear::lemma_pow2_mono(c, c + r + i);
    multilinear::lemma_pow2_mono(c + r, c + r + i);
    vstd::arithmetic::power2::lemma_pow2_adds(r, c);
    vstd::arithmetic::power2::lemma_pow2_adds(i, c + r);
    assert(r + c == c + r && i + (c + r) == c + r + i);
    commit::lemma_ceil_pow(dims(config, kind).0 as int);
    commit::lemma_ceil_pow(dims(config, kind).1 as int);
    commit::lemma_ceil_pow(dims(config, kind).2 as int);
    crate::utils::sumcheck::lemma_exponent_small(all_bits(config, kind));
}

/// The counts that every layout is made of, and the padded rows and columns of the
/// kind, fit a machine word.
pub open spec fn layout_fits(config: Config, kind: Kind) -> bool {
    &&& 2 * config.n_layer + 1 <= usize::MAX
    &&& config.n_layer * config.n_head <= usize::MAX
    &&& 3 * config.d_model <= usize::MAX
    &&& pow2(row_bits(config, kind)) <= usize::MAX
    &&& pow2(col_bits(config, kind)) <= usize::MAX
}

/// Where every polynomial's length fits, so does every layout.
pub proof fn lemma_layout_fits(config: Config, kind: Kind)
    requires
        sizes_fit(config),
    ensures
        layout_fits(config, kind),
{
    lemma_sizes(config, kind);
}

/// The layout of a kind.
pub open spec fn is_layout(lay: TypeLayout, config: Config, kind: Kind) -> bool {
    &&& lay.instances == dims(config, kind).0
    &&& lay.row_pow == pow2(row_bits(config, kind))
    &&& lay.col_pow == pow2(col_bits(config, kind))
    &&& twos(lay.row_pow as nat) == row_bits(config, kind)
    &&& twos(lay.col_pow as nat) == col_bits(config, kind)
}

/// The layout of a kind of tensor.
pub fn layout_of(config: &Config, kind: Kind) -> (lay: TypeLayout)
    requires
        layout_fits(*config, kind),
    ensures
        is_layout(lay, *config, kind),
{
    let l: usize = config.n_layer;
    let s: usize = config.n_seq;
    let d: usize = config.d_model;
    let heads: usize = l * config.n_head;
    let (instances, rows, cols): (usize, usize, usize) = match kind {
        Kind::QLn => (2 * l + 1, s, d),
        Kind::ALn => (2 * l + 1, s, d),
        Kind::Std => (2 * l + 1, s, 1),
        Kind::Var => (2 * l + 1, s, 1),
        Kind::QQkv => (l, s, 3 * d),
        Kind::QSc => (heads, s, s),
        Kind::Exp => (heads, s, s),
        Kind::QProb => (heads, s, s),
        Kind::XMax => (heads, s, 1),
        Kind::SumExp => (heads, s, 1),
        Kind::QAo => (l, s, d),
        Kind::QApr => (l, s, d),
        Kind::QFpr => (l, s, d),
        Kind::QFc => (l, s, config.mlp_hidden),
        Kind::Act => (l, s, config.mlp_hidden),
        Kind::XOut => (2 * l, s, d),
        Kind::QLog => (1, s, config.vocab),
    };
    proof {
        lemma_twos(row_bits(*config, kind));
        lemma_twos(col_bits(*config, kind));
    }
    TypeLayout { instances, row_pow: commit::pow_ceil(rows), col_pow: commit::pow_ceil(cols) }
}

/// The layout of a committed kind, from the public configuration alone.
pub fn layout_for(config: &Config, name: &str) -> (lay: TypeLayout)
    requires
        is_kind_name(name@),
        layout_fits(*config, kind_of(name@)),
    ensures
        is_layout(lay, *config, kind_of(name@)),
{
    let kind = find_kind(name).unwrap();
    layout_of(config, kind)
}

/// The integer at position `k` of stacked matrices, each padded to `rp` rows and
/// `cp` columns.
pub open spec fn stacked_cell(gs: Seq<Grid>, rp: nat, cp: nat, pad: int, k: int) -> int {
    let (i, e) = (k / (rp * cp) as int, k % (rp * cp) as int);
    let (r, c) = (e / cp as int, e % cp as int);
    if i < gs.len() && r < gs[i].rows && c < gs[i].cols {
        gs[i].at(r, c)
    } else {
        pad
    }
}

/// Stacked matrices as a polynomial.
pub open spec fn stacked_table(gs: Seq<Grid>, rp: nat, cp: nat, pad: int) -> Seq<EF> {
    Seq::new(
        commit::ceil_pow(gs.len() as int) * (rp * cp),
        |k: int| EF::embed(stacked_cell(gs, rp, cp, pad, k)),
    )
}

/// The image of an integer in the extension field.
pub fn ef(x: i64) -> (r: EF)
    ensures
        r == EF::embed(x as int),
        r.valid(),
{
    EF::from_base(encode_i64(x))
}

/// The matrices' contents.
pub open spec fn grids_of(ms: Seq<Matrix>) -> Seq<Grid> {
    Seq::new(ms.len(), |i: int| ms[i].grid())
}

/// Stacks matrices, filling with `pad`.
fn stack_matrices(ms: &Vec<Matrix>, rp: usize, cp: usize, pad: i64) -> (r: Vec<EF>)
    requires
        rp > 0,
        cp > 0,
        commit::ceil_pow(ms@.len() as int) * (rp * cp) <= usize::MAX,
        forall|i: int| 0 <= i < ms@.len() ==> (#[trigger] ms@[i]).wf(),
    ensures
        r@ == stacked_table(grids_of(ms@), rp as nat, cp as nat, pad as int),
{
    let ghost gs = grids_of(ms@);
    let ghost n = commit::ceil_pow(ms@.len() as int);
    proof {
        commit::lemma_ceil_pow(ms@.len() as int);
        assert(rp * cp > 0) by (nonlinear_arith)
            requires
                rp > 0,
                cp > 0,
        ;
        assert(n <= n * (rp * cp) && rp * cp <= n * (rp * cp)) by (nonlinear_arith)
            requires
                rp * cp > 0,
                n > 0,
        ;
    }
    let elem: usize = rp * cp;
    let total: usize = commit::pow_ceil(ms.len()) * elem;
    let filler = ef(pad);
    let mut out: Vec<EF> = Vec::new();
    let mut k: usize = 0;
    while k < total
        invariant
            k <= total,
            elem == rp * cp,
            elem > 0,
            cp > 0,
            gs == grids_of(ms@),
            filler == EF::embed(pad as int),
            forall|i: int| 0 <= i < ms@.len() ==> (#[trigger] ms@[i]).wf(),
            out@.len() == k,
            forall|j: int|
                0 <= j < k ==> #[trigger] out@[j] == EF::embed(
                    stacked_cell(gs, rp as nat, cp as nat, pad as int, j),
                ),
        decreases total - k,
    {
        let (i, e): (usize, usize) = (k / elem, k % elem);
        let (r, c): (usize, usize) = (e / cp, e % cp);
        let mut v: EF = filler;
        if i < ms.len() {
            assert(ms@[i as int].wf());
            let m = &ms[i];
            if r < m.rows() && c < m.cols() {
                v = ef(m.get(r, c));
            }
        }
        out.push(v);
        k += 1;
    }
    assert(out@ =~= stacked_table(gs, rp as nat, cp as nat, pad as int));
    out
}

/// Position of an entry among stacked matrices.
pub proof fn lemma_stacked_cell(gs: Seq<Grid>, rp: nat, cp: nat, pad: int, i: int, r: int, c: int)
    requires
        0 <= i,
        0 <= r < rp,
        0 <= c < cp,
    ensures
        0 <= r * cp + c < rp * cp,
        0 <= i * (rp * cp) + (r * cp + c) < (i + 1) * (rp * cp),
        stacked_cell(gs, rp, cp, pad, i * (rp * cp) + (r * cp + c)) == (if i < gs.len() && r
            < gs[i].rows && c < gs[i].cols {
            gs[i].at(r, c)
        } else {
            pad
        }),
{
    grid::lemma_cell(rp, cp, r, c);
    let elem = rp * cp;
    grid::lemma_cell((i + 1) as nat, elem, i, r * cp + c);
}

/// The integer at position `k` of a matrix padded with zeros to rows of length `cp`.
pub open spec fn padded_cell(g: Grid, cp: nat, k: int) -> int {
    let (r, c) = (k / cp as int, k % cp as int);
    if r < g.rows && c < g.cols {
        g.at(r, c)
    } else {
        0
    }
}

/// A matrix padded with zeros, as a polynomial.
pub open spec fn padded(g: Grid, rp: nat, cp: nat) -> Seq<EF> {
    Seq::new(rp * cp, |k: int| EF::embed(padded_cell(g, cp, k)))
}

/// The integer at position `k` where entry `(r, c)` of a matrix is written to position
/// `r * cp + c`, row by row, and the last write stays.
pub open spec fn spread_cell(g: Grid, cp: nat, k: int) -> int {
    let r = if (k / cp as int) < g.rows {
        k / cp as int
    } else {
        g.rows - 1
    };
    let c = k - r * cp;
    if g.rows > 0 && c < g.cols {
        g.at(r, c)
    } else {
        0
    }
}

/// A matrix written into zeros in rows of length `cp`, as a polynomial.
pub open spec fn spread(g: Grid, rp: nat, cp: nat) -> Seq<EF> {
    Seq::new(rp * cp, |k: int| EF::embed(spread_cell(g, cp, k)))
}

/// The last entry's position lies within `rp` rows of length `cp`.
pub open spec fn spread_fits(g: Grid, rp: nat, cp: nat) -> bool {
    g.rows > 0 && g.cols > 0 ==> (g.rows - 1) * cp + g.cols <= rp * cp
}

/// The entry that is written last to a position stays there.
pub proof fn law_last_write(g: Grid, cp: nat, r: int, c: int)
    requires
        cp > 0,
        0 <= r < g.rows,
        0 <= c < g.cols,
        forall|s: int| r < s < g.rows ==> #[trigger] (r * cp + c - s * cp) < 0 || r * cp + c - s
            * cp >= g.cols,
    ensures
        spread_cell(g, cp, r * cp + c) == g.at(r, c),
{
    let k = r * cp + c;
    let q = k / cp as int;
    vstd::arithmetic::div_mod::lemma_fundamental_div_mod(k, cp as int);
    vstd::arithmetic::div_mod::lemma_mod_bound(k, cp as int);
    assert(q >= r) by (nonlinear_arith)
        requires
            r * cp + c == cp * q + k % cp as int,
            k % (cp as int) < cp,
            c >= 0,
            cp > 0,
    ;
    let s = if q < g.rows {
        q
    } else {
        g.rows - 1
    };
    if s > r {
        assert(k - s * cp >= 0) by (nonlinear_arith)
            requires
                s <= q,
                k == cp * q + k % cp as int,
                0 <= k % cp as int,
                cp > 0,
        ;
        assert(k - s * cp < g.cols) by (nonlinear_arith)
            requires
                s > r,
                k == r * cp + c,
                c < g.cols,
                cp > 0,
        ;
        assert((r * cp + c - s * cp) < 0 || r * cp + c - s * cp >= g.cols);
    }
}

/// A matrix with no more columns than the rows are long is padded with zeros.
pub proof fn law_spread_padded(g: Grid, rp: nat, cp: nat)
    requires
        cp > 0,
        g.cols <= cp,
    ensures
        spread(g, rp, cp) == padded(g, rp, cp),
{
    assert forall|k: int| 0 <= k < rp * cp implies #[trigger] spread_cell(g, cp, k)
        == padded_cell(g, cp, k) by {
        let q = k / cp as int;
        vstd::arithmetic::div_mod::lemma_fundamental_div_mod(k, cp as int);
        vstd::arithmetic::div_mod::lemma_mod_bound(k, cp as int);
        if q < g.rows {
            assert(k - q * cp == k % cp as int) by (nonlinear_arith)
                requires
                    k == cp * q + k % cp as int,
            ;
        } else if g.rows > 0 {
            assert(k - (g.rows - 1) * cp >= cp) by (nonlinear_arith)
                requires
                    k == cp * q + k % cp as int,
                    0 <= k % cp as int,
                    q >= g.rows,
                    cp > 0,
            ;
        }
        vstd::arithmetic::div_mod::lemma_div_pos_is_pos(k, cp as int);
    }
    assert(spread(g, rp, cp) =~= padded(g, rp, cp));
}

/// Writes a matrix into `row_pow` rows of `col_pow` zeros, entry `(r, c)` to position
/// `r * col_pow + c`.
pub fn pad_matrix(m: &Matrix, row_pow: usize, col_pow: usize) -> (r: Vec<EF>)
    requires
        m.wf(),
        col_pow > 0,
        row_pow * col_pow <= usize::MAX,
        spread_fits(m.grid(), row_pow as nat, col_pow as nat),
    ensures
        r@ == spread(m.grid(), row_pow as nat, col_pow as nat),
{
    let total: usize = row_pow * col_pow;
    let (rows, cols): (usize, usize) = (m.rows(), m.cols());
    let mut out: Vec<EF> = Vec::new();
    let mut k: usize = 0;
    while k < total
        invariant
            k <= total,
            m.wf(),
            col_pow > 0,
            rows == m.grid().rows,
            cols == m.grid().cols,
            out@.len() == k,
            forall|j: int|
                0 <= j < k ==> #[trigger] out@[j] == EF::embed(
                    spread_cell(m.grid(), col_pow as nat, j),
                ),
        decreases total - k,
    {
        let mut v: i64 = 0;
        if rows > 0 {
            let mut r: usize = k / col_pow;
            proof {
                vstd::arithmetic::div_mod::lemma_fundamental_div_mod(k as int, col_pow as int);
                vstd::arithmetic::div_mod::lemma_mod_bound(k as int, col_pow as int);
            }
            if r >= rows {
                r = rows - 1;
            }
            proof {
                let q = k as int / col_pow as int;
                assert(0 <= r * col_pow <= k) by (nonlinear_arith)
                    requires
                        0 <= r <= q,
                        k == col_pow * q + k as int % col_pow as int,
                        0 <= k as int % col_pow as int,
                        col_pow > 0,
                ;
            }
            let c: usize = k - r * col_pow;
            if c < cols {
                v = m.get(r, c);
            }
        }
        out.push(ef(v));
        k += 1;
    }
    assert(out@ =~= spread(m.grid(), row_pow as nat, col_pow as nat));
    out
}

/// A matrix has the given shape.
pub open spec fn grid_is(g: Grid, rows: nat, cols: nat) -> bool {
    g.wf() && g.rows == rows && g.cols == cols
}

/// A tensor with one face has the given shape.
pub open spec fn cube_is(c: Cube, rows: nat, cols: nat) -> bool {
    c.d0 == 1 && c.d1 == rows && c.d2 == cols && c.data.len() == rows * cols
}

/// The face of a tensor with one face.
pub open spec fn face(c: Cube) -> Grid {
    Grid { rows: c.d1, cols: c.d2, data: c.data }
}

/// A vector as a matrix of one column.
pub open spec fn column(v: Seq<int>) -> Grid {
    Grid { rows: v.len(), cols: 1, data: v }
}

/// A normalization witness has the configured shape.
pub open spec fn norm_shaped(ln: LayerNormView, config: Config) -> bool {
    let (s, d) = (config.n_seq as nat, config.d_model as nat);
    &&& grid_is(ln.input, s, d)
    &&& grid_is(ln.dividend, s, d)
    &&& grid_is(ln.quotient, s, d)
    &&& grid_is(ln.output, s, d)
    &&& ln.std.len() == s
    &&& ln.var_sum.len() == s
}

/// The tensors of one attention head have the configured shape.
pub open spec fn head_shaped(a: AttentionView, config: Config, h: int) -> bool {
    let s = config.n_seq as nat;
    &&& cube_is(a.scores[h], s, s)
    &&& cube_is(a.exp[h], s, s)
    &&& cube_is(a.q_prob[h], s, s)
    &&& cube_is(a.q_ao_heads[h], s, config.d_head as nat)
    &&& grid_is(a.x_max[h], s, 1)
    &&& grid_is(a.sum_exp[h], s, 1)
}

/// An attention witness has the configured shape.
pub open spec fn attention_shaped(a: AttentionView, config: Config) -> bool {
    let (s, d, n) = (config.n_seq as nat, config.d_model as nat, config.n_head as nat);
    &&& grid_is(a.q_qkv, s, 3 * d)
    &&& grid_is(a.qkv, s, 3 * d)
    &&& grid_is(a.q_ao, s, d)
    &&& grid_is(a.q_apr, s, d)
    &&& grid_is(a.x_out, s, d)
    &&& a.scores.len() == n
    &&& a.exp.len() == n
    &&& a.q_prob.len() == n
    &&& a.q_ao_heads.len() == n
    &&& a.x_max.len() == n
    &&& a.sum_exp.len() == n
    &&& forall|h: int| 0 <= h < n ==> #[trigger] head_shaped(a, config, h)
}

/// A feed-forward witness has the configured shape.
pub open spec fn mlp_shaped(m: MlpView, config: Config) -> bool {
    let (s, d, h) = (config.n_seq as nat, config.d_model as nat, config.mlp_hidden as nat);
    &&& grid_is(m.q_fc, s, h)
    &&& grid_is(m.fc, s, h)
    &&& grid_is(m.act, s, h)
    &&& grid_is(m.q_fpr, s, d)
    &&& grid_is(m.x_out, s, d)
}

/// A block witness has the configured shape.
pub open spec fn block_shaped(
    b: crate::proofsys::witness::BlockView,
    config: Config,
) -> bool {
    &&& norm_shaped(b.ln1, config)
    &&& attention_shaped(b.attention, config)
    &&& norm_shaped(b.ln2, config)
    &&& mlp_shaped(b.mlp, config)
}

/// Every tensor of the witness has the configured shape.
pub open spec fn witness_shaped(w: WitnessView, config: Config) -> bool {
    let (s, d) = (config.n_seq as nat, config.d_model as nat);
    &&& w.blocks.len() == config.n_layer
    &&& forall|i: int| 0 <= i < w.blocks.len() ==> block_shaped(#[trigger] w.blocks[i], config)
    &&& norm_shaped(w.lnf, config)
    &&& grid_is(w.q_log, s, config.vocab as nat)
    &&& grid_is(w.x0, s, d)
}

/// Normalization `i`: `ln1, ln2` of each layer in turn, then the final one.
pub open spec fn norm_at(w: WitnessView, i: int) -> LayerNormView {
    if i == 2 * w.blocks.len() {
        w.lnf
    } else if i % 2 == 0 {
        w.blocks[i / 2].ln1
    } else {
        w.blocks[i / 2].ln2
    }
}

/// Residual output `i`: attention and feed-forward of each layer in turn.
pub open spec fn output_at(w: WitnessView, i: int) -> Grid {
    if i % 2 == 0 {
        w.blocks[i / 2].attention.x_out
    } else {
        w.blocks[i / 2].mlp.x_out
    }
}

/// Instance `i` of a kind.
pub open spec fn instance_of(w: WitnessView, config: Config, kind: Kind, i: int) -> Grid {
    let n = config.n_head as int;
    match kind {
        Kind::QLn => norm_at(w, i).quotient,
        Kind::ALn => norm_at(w, i).dividend,
        Kind::Std => column(norm_at(w, i).std),
        Kind::Var => column(norm_at(w, i).var_sum),
        Kind::QQkv => w.blocks[i].attention.q_qkv,
        Kind::QSc => face(w.blocks[i / n].attention.scores[i % n]),
        Kind::Exp => face(w.blocks[i / n].attention.exp[i % n]),
        Kind::QProb => face(w.blocks[i / n].attention.q_prob[i % n]),
        Kind::XMax => w.blocks[i / n].attention.x_max[i % n],
        Kind::SumExp => w.blocks[i / n].attention.sum_exp[i % n],
        Kind::QAo => w.blocks[i].attention.q_ao,
        Kind::QApr => w.blocks[i].attention.q_apr,
        Kind::QFpr => w.blocks[i].mlp.q_fpr,
        Kind::QFc => w.blocks[i].mlp.q_fc,
        Kind::Act => w.blocks[i].mlp.act,
        Kind::XOut => output_at(w, i),
        Kind::QLog => w.q_log,
    }
}

/// All instances of a kind.
pub open spec fn instances_of(w: WitnessView, config: Config, kind: Kind) -> Seq<Grid> {
    Seq::new(dims(config, kind).0, |i: int| instance_of(w, config, kind, i))
}

/// The polynomial of a kind.
pub open spec fn kind_table(w: WitnessView, config: Config, kind: Kind) -> Seq<EF> {
    stacked_table(
        instances_of(w, config, kind),
        pow2(row_bits(config, kind)),
        pow2(col_bits(config, kind)),
        kind.padding(),
    )
}

/// All committed witness polynomials, by name.
pub open spec fn online_polys(w: WitnessView, config: Config) -> Map<Seq<char>, Seq<EF>> {
    Map::new(|s: Seq<char>| is_kind_name(s), |s: Seq<char>| kind_table(w, config, kind_of(s)))
}

/// Instances have their kind's shape.
pub proof fn lemma_instance_shape(w: WitnessView, config: Config, kind: Kind, i: int)
    requires
        sizes_fit(config),
        witness_shaped(w, config),
        0 <= i < dims(config, kind).0,
    ensures
        grid_is(instance_of(w, config, kind, i), dims(config, kind).1, dims(config, kind).2),
        dims(config, kind).0 == config.n_layer * config.n_head ==> 0 <= i / (config.n_head as int)
            < config.n_layer && 0 <= i % (config.n_head as int) < config.n_head,
{
    if dims(config, kind).0 == config.n_layer * config.n_head {
        grid::lemma_position(config.n_layer as nat, config.n_head as nat, i);
    }
    let n = config.n_head as int;
    match kind {
        Kind::QLn | Kind::ALn | Kind::Std | Kind::Var => {
            if i < 2 * w.blocks.len() {
                assert(block_shaped(w.blocks[i / 2], config));
            }
        },
        Kind::QSc | Kind::Exp | Kind::QProb | Kind::XMax | Kind::SumExp => {
            assert(block_shaped(w.blocks[i / n], config));
            assert(head_shaped(w.blocks[i / n].attention, config, i % n));
        },
        Kind::XOut => {
            assert(block_shaped(w.blocks[i / 2], config));
        },
        Kind::QLog => {},
        _ => {
            assert(block_shaped(w.blocks[i], config));
        },
    }
}

/// Normalization `i` of the witness.
fn layernorm(witness: &Witness, i: usize) -> (r: &LayerNormWitness)
    requires
        i <= 2 * witness.blocks@.len(),
        witness.wf(),
    ensures
        r.contents() == norm_at(witness.contents(), i as int),
        r.wf(),
{
    if i / 2 >= witness.blocks.len() {
        return &witness.lnf;
    }
    assert(witness.contents().blocks[i as int / 2] == witness.blocks@[i as int / 2].contents());
    let b = &witness.blocks[i / 2];
    if i % 2 == 0 {
        &b.ln1
    } else {
        &b.ln2
    }
}

/// The face of a tensor with one face, as a matrix.
pub fn face_matrix(t: &crate::proofsys::tensor::Tensor3) -> (r: Matrix)
    requires
        t.wf(),
        t.shape().0 == 1,
    ensures
        r.wf(),
        r.grid() == face(t.cube()),
{
    let m = t.head_matrix(0);
    proof {
        let (d1, d2) = (t.shape().1, t.shape().2);
        assert(1 * d1 * d2 == d1 * d2) by (nonlinear_arith);
        assert forall|i: int, j: int| 0 <= i < d1 && 0 <= j < d2 implies #[trigger] m.grid().at(
            i,
            j,
        ) == face(t.cube()).at(i, j) by {
            grid::lemma_tabulate(d1, d2, |i: int, j: int| t.at(0, i, j), i, j);
            assert(0 * d1 + i == i);
        }
        grid::lemma_grid_equal(m.grid(), face(t.cube()));
    }
    m
}

/// A vector as a matrix of one column.
fn column_matrix(v: &Vec<i64>) -> (r: Matrix)
    ensures
        r.wf(),
        r.grid() == column(grid::ints(v@)),
{
    assert(v.len() == v@.len());
    assert(v.len() * 1 == v.len());
    Matrix::new(v.len(), 1, tensor::copy_ints(v.as_slice()))
}

/// Instance `i` of a kind.
fn instance(witness: &Witness, config: &Config, kind: Kind, i: usize) -> (r: Matrix)
    requires
        sizes_fit(*config),
        witness.wf(),
        witness_shaped(witness.contents(), *config),
        i < dims(*config, kind).0,
    ensures
        r.wf(),
        r.grid() == instance_of(witness.contents(), *config, kind, i as int),
{
    let ghost w = witness.contents();
    let n: usize = config.n_head;
    proof {
        lemma_instance_shape(w, *config, kind, i as int);
        assert(w.blocks.len() == witness.blocks@.len());
        assert forall|b: int| 0 <= b < witness.blocks@.len() implies w.blocks[b] == (
        #[trigger] witness.blocks@[b]).contents() && witness.blocks@[b].wf() && block_shaped(
            w.blocks[b],
            *config,
        ) by {
            assert(block_shaped(w.blocks[b], *config));
        }
    }
    match kind {
        Kind::QLn => layernorm(witness, i).quotient.copy(),
        Kind::ALn => layernorm(witness, i).dividend.copy(),
        Kind::Std => column_matrix(&layernorm(witness, i).std),
        Kind::Var => column_matrix(&layernorm(witness, i).var_sum),
        Kind::QQkv => witness.blocks[i].attention.q_qkv.copy(),
        Kind::QSc => {
            let a = &witness.blocks[i / n].attention;
            assert(head_shaped(a.contents(), *config, i as int % n as int));
            face_matrix(&a.scores[i % n])
        },
        Kind::Exp => {
            let a = &witness.blocks[i / n].attention;
            assert(head_shaped(a.contents(), *config, i as int % n as int));
            face_matrix(&a.exp[i % n])
        },
        Kind::QProb => {
            let a = &witness.blocks[i / n].attention;
            assert(head_shaped(a.contents(), *config, i as int % n as int));
            face_matrix(&a.q_prob[i % n])
        },
        Kind::XMax => {
            let a = &witness.blocks[i / n].attention;
            assert(a.contents().x_max.len() == a.x_max@.len());
            a.x_max[i % n].copy()
        },
        Kind::SumExp => {
            let a = &witness.blocks[i / n].attention;
            assert(a.contents().sum_exp.len() == a.sum_exp@.len());
            a.sum_exp[i % n].copy()
        },
        Kind::QAo => witness.blocks[i].attention.q_ao.copy(),
        Kind::QApr => witness.blocks[i].attention.q_apr.copy(),
        Kind::QFpr => witness.blocks[i].mlp.q_fpr.copy(),
        Kind::QFc => witness.blocks[i].mlp.q_fc.copy(),
        Kind::Act => witness.blocks[i].mlp.act.copy(),
        Kind::XOut => {
            let b = &witness.blocks[i / 2];
            if i % 2 == 0 {
                b.attention.x_out.copy()
            } else {
                b.mlp.x_out.copy()
            }
        },
        Kind::QLog => witness.q_log.copy(),
    }
}

/// All instances of a kind.
fn instances(witness: &Witness, config: &Config, kind: Kind) -> (r: Vec<Matrix>)
    requires
        sizes_fit(*config),
        witness.wf(),
        witness_shaped(witness.contents(), *config),
    ensures
        grids_of(r@) == instances_of(witness.contents(), *config, kind),
        forall|i: int| 0 <= i < r@.len() ==> (#[trigger] r@[i]).wf(),
{
    proof {
        lemma_layout_fits(*config, kind);
    }
    let n: usize = layout_of(config, kind).instances;
    let mut out: Vec<Matrix> = Vec::new();
    let mut i: usize = 0;
    while i < n
        invariant
            i <= n,
            n == dims(*config, kind).0,
            sizes_fit(*config),
            witness.wf(),
            witness_shaped(witness.contents(), *config),
            out@.len() == i,
            forall|j: int|
                0 <= j < i ==> (#[trigger] out@[j]).wf() && out@[j].grid() == instance_of(
                    witness.contents(),
                    *config,
                    kind,
                    j,
                ),
        decreases n - i,
    {
        out.push(instance(witness, config, kind, i));
        i += 1;
    }
    assert(grids_of(out@) =~= instances_of(witness.contents(), *config, kind));
    out
}

/// The layout of one committed polynomial.
pub struct NamedLayout {
    pub name: String,
    pub layout: TypeLayout,
}

spec fn layouts_by(entries: Seq<NamedLayout>, n: nat) -> Map<Seq<char>, TypeLayout>
    decreases n,
{
    if n == 0 {
        Map::empty()
    } else {
        layouts_by(entries, (n - 1) as nat).insert(entries[n - 1].name@, entries[n - 1].layout)
    }
}

proof fn lemma_layouts_prefix(a: Seq<NamedLayout>, b: Seq<NamedLayout>, n: nat)
    requires
        n <= a.len(),
        n <= b.len(),
        forall|i: int| 0 <= i < n ==> a[i] == b[i],
    ensures
        layouts_by(a, n) == layouts_by(b, n),
    decreases n,
{
    if n > 0 {
        lemma_layouts_prefix(a, b, (n - 1) as nat);
    }
}

/// Committed polynomials with their layouts.
pub struct Canonical {
    pub set: CommitSet,
    pub layouts: Vec<NamedLayout>,
}

impl Canonical {
    /// The layouts, by name.
    pub closed spec fn layout_map(self) -> Map<Seq<char>, TypeLayout> {
        layouts_by(self.layouts@, self.layouts@.len())
    }

    /// The layout of a committed polynomial.
    pub fn layout(&self, name: &str) -> (r: TypeLayout)
        requires
            self.layout_map().contains_key(name@),
        ensures
            r == self.layout_map()[name@],
    {
        let wanted = name.to_owned();
        let mut i: usize = self.layouts.len();
        loop
            invariant
                i <= self.layouts@.len(),
                wanted@ == name@,
                layouts_by(self.layouts@, i as nat).contains_key(name@),
                self.layout_map()[name@] == layouts_by(self.layouts@, i as nat)[name@],
            decreases i,
        {
            assert(i > 0);
            i -= 1;
            if self.layouts[i].name == wanted {
                return self.layouts[i].layout;
            }
        }
    }

    /// Nothing committed.
    fn empty() -> (r: Self)
        ensures
            r.set.kept() == Map::<Seq<char>, Seq<EF>>::empty(),
            r.set.committed() == Map::<Seq<char>, Seq<EF>>::empty(),
            r.layout_map() == Map::<Seq<char>, TypeLayout>::empty(),
    {
        Canonical { set: CommitSet::new(), layouts: Vec::new() }
    }

    /// Commits stacked matrices under `name`, padded to powers of two in every
    /// direction.
    fn commit_matrices(&mut self, name: &str, ms: &Vec<Matrix>, lay: TypeLayout, pad: i64)
        requires
            lay.row_pow > 0,
            lay.col_pow > 0,
            commit::ceil_pow(ms@.len() as int) * (lay.row_pow * lay.col_pow) <= usize::MAX,
            forall|i: int| 0 <= i < ms@.len() ==> (#[trigger] ms@[i]).wf(),
        ensures
            ({
                let t = stacked_table(
                    grids_of(ms@),
                    lay.row_pow as nat,
                    lay.col_pow as nat,
                    pad as int,
                );
                &&& final(self).set.kept() == old(self).set.kept().insert(name@, t)
                &&& final(self).set.committed() == old(self).set.committed().insert(name@, t)
                &&& final(self).layout_map() == old(self).layout_map().insert(name@, lay)
            }),
    {
        let data = stack_matrices(ms, lay.row_pow, lay.col_pow, pad);
        self.set.commit(name, data);
        let ghost before = self.layouts@;
        self.layouts.push(NamedLayout { name: name.to_owned(), layout: lay });
        proof {
            lemma_layouts_prefix(before, self.layouts@, before.len());
        }
    }

    /// Commits one weight matrix under `name`.
    fn commit_weight(&mut self, name: &str, m: &Matrix)
        requires
            m.wf(),
            weight_fits(m.grid()),
        ensures
            final(self).set.kept() == old(self).set.kept().insert(name@, weight_table(m.grid())),
            final(self).set.committed() == old(self).set.committed().insert(
                name@,
                weight_table(m.grid()),
            ),
            final(self).layout_map() == old(self).layout_map().insert(
                name@,
                weight_layout(m.grid()),
            ),
    {
        let ghost g = m.grid();
        proof {
            lemma_weight_sizes(g);
            multilinear::lemma_pow2_zero();
            commit::lemma_ceil_log(1, 0);
        }
        let lay = TypeLayout {
            instances: 1,
            row_pow: commit::pow_ceil(m.rows()),
            col_pow: commit::pow_ceil(m.cols()),
        };
        let ms: Vec<Matrix> = vec![m.copy()];
        proof {
            assert(grids_of(ms@) =~= seq![g]);
            let e = lay.row_pow * lay.col_pow;
            assert(1 * e == e);
        }
        self.commit_matrices(name, &ms, lay, 0);
    }
}

/// The layouts depend on the recorded entries alone.
pub proof fn lemma_same_layouts(a: Canonical, b: Canonical)
    requires
        a.layouts@ == b.layouts@,
    ensures
        a.layout_map() == b.layout_map(),
{
}

/// The polynomial of one weight matrix.
pub open spec fn weight_table(g: Grid) -> Seq<EF> {
    stacked_table(
        seq![g],
        commit::ceil_pow(g.rows as int),
        commit::ceil_pow(g.cols as int),
        0,
    )
}

/// The layout of one weight matrix.
pub open spec fn weight_layout(g: Grid) -> TypeLayout {
    TypeLayout {
        instances: 1,
        row_pow: commit::ceil_pow(g.rows as int) as usize,
        col_pow: commit::ceil_pow(g.cols as int) as usize,
    }
}

/// The padded weight matrix's length fits a machine word.
pub open spec fn weight_fits(g: Grid) -> bool {
    commit::ceil_pow(g.rows as int) * commit::ceil_pow(g.cols as int) <= usize::MAX
}

proof fn lemma_weight_sizes(g: Grid)
    requires
        weight_fits(g),
    ensures
        commit::ceil_pow(g.rows as int) <= usize::MAX,
        commit::ceil_pow(g.cols as int) <= usize::MAX,
{
    commit::lemma_ceil_pow(g.rows as int);
    commit::lemma_ceil_pow(g.cols as int);
    let (a, b) = (commit::ceil_pow(g.rows as int), commit::ceil_pow(g.cols as int));
    assert(a <= a * b && b <= a * b) by (nonlinear_arith)
        requires
            a > 0,
            b > 0,
    ;
}

/// One decimal digit.
pub open spec fn digit(d: nat) -> Seq<char> {
    if d == 0 {
        "0"@
    } else if d == 1 {
        "1"@
    } else if d == 2 {
        "2"@
    } else if d == 3 {
        "3"@
    } else if d == 4 {
        "4"@
    } else if d == 5 {
        "5"@
    } else if d == 6 {
        "6"@
    } else if d == 7 {
        "7"@
    } else if d == 8 {
        "8"@
    } else {
        "9"@
    }
}

/// Decimal digits, the most significant first.
pub open spec fn decimal(n: nat) -> Seq<char>
    decreases n,
{
    if n < 10 {
        digit(n)
    } else {
        decimal(n / 10) + digit(n % 10)
    }
}

fn digit_text(d: usize) -> (r: &'static str)
    requires
        d < 10,
    ensures
        r@ == digit(d as nat),
{
    match d {
        0 => "0",
        1 => "1",
        2 => "2",
        3 => "3",
        4 => "4",
        5 => "5",
        6 => "6",
        7 => "7",
        8 => "8",
        _ => "9",
    }
}

/// `prefix` followed by the decimal digits of `n`.
pub fn numbered(prefix: &str, n: usize) -> (r: String)
    ensures
        r@ == prefix@ + decimal(n as nat),
    decreases n,
{
    if n < 10 {
        prefix.to_owned().concat(digit_text(n))
    } else {
        let head = numbered(prefix, n / 10);
        let r = head.concat(digit_text(n % 10));
        assert(r@ =~= prefix@ + decimal(n as nat));
        r
    }
}

proof fn lemma_digit(a: nat, b: nat)
    requires
        a < 10,
        b < 10,
    ensures
        digit(a).len() == 1,
        digit(a) == digit(b) ==> a == b,
{
    reveal_strlit("0");
    reveal_strlit("1");
    reveal_strlit("2");
    reveal_strlit("3");
    reveal_strlit("4");
    reveal_strlit("5");
    reveal_strlit("6");
    reveal_strlit("7");
    reveal_strlit("8");
    reveal_strlit("9");
    assert(digit(a)[0] == digit(b)[0] ==> a == b);
}

/// Different numbers have different digits.
pub proof fn lemma_decimal(a: nat, b: nat)
    ensures
        decimal(a).len() > 0,
        decimal(a) == decimal(b) ==> a == b,
    decreases a,
{
    lemma_digit(a % 10, b % 10);
    lemma_digit(b % 10, a % 10);
    if a >= 10 {
        lemma_decimal(a / 10, b / 10);
    }
    if b >= 10 {
        lemma_decimal_len(b / 10);
    }
    if decimal(a) == decimal(b) {
        let (x, y) = (decimal(a), decimal(b));
        assert(x.last() == digit(a % 10)[0]);
        assert(y.last() == digit(b % 10)[0]);
        assert(digit(a % 10) =~= digit(b % 10));
        if a >= 10 && b >= 10 {
            assert(x.drop_last() =~= decimal(a / 10));
            assert(y.drop_last() =~= decimal(b / 10));
        }
    }
}

proof fn lemma_decimal_len(a: nat)
    ensures
        decimal(a).len() > 0,
    decreases a,
{
    lemma_digit(a % 10, 0);
    if a >= 10 {
        lemma_decimal_len(a / 10);
    }
}

/// The attention input weights of a layer.
pub fn attn_w(layer: usize) -> (r: String)
    ensures
        r@ == "attn_w_"@ + decimal(layer as nat),
{
    numbered("attn_w_", layer)
}

/// The attention output weights of a layer.
pub fn attn_proj_w(layer: usize) -> (r: String)
    ensures
        r@ == "attn_proj_w_"@ + decimal(layer as nat),
{
    numbered("attn_proj_w_", layer)
}

/// The feed-forward input weights of a layer.
pub fn fc_w(layer: usize) -> (r: String)
    ensures
        r@ == "fc_w_"@ + decimal(layer as nat),
{
    numbered("fc_w_", layer)
}

/// The feed-forward output weights of a layer.
pub fn fproj_w(layer: usize) -> (r: String)
    ensures
        r@ == "fproj_w_"@ + decimal(layer as nat),
{
    numbered("fproj_w_", layer)
}

/// The kinds of weight matrices.
#[derive(Clone, Copy, Debug, PartialEq, Eq, Structural)]
pub enum WeightKind {
    AttnW,
    AttnProjW,
    FcW,
    FprojW,
}

impl WeightKind {
    /// What the names start with.
    pub open spec fn prefix(self) -> Seq<char> {
        match self {
            WeightKind::AttnW => "attn_w_"@,
            WeightKind::AttnProjW => "attn_proj_w_"@,
            WeightKind::FcW => "fc_w_"@,
            WeightKind::FprojW => "fproj_w_"@,
        }
    }

    /// The name of the matrix of a layer.
    pub open spec fn text(self, layer: nat) -> Seq<char> {
        self.prefix() + decimal(layer)
    }

    /// The matrix of a layer.
    pub open spec fn matrix(self, w: ModelWeights, layer: int) -> Grid {
        match self {
            WeightKind::AttnW => w.blocks@[layer].attn_w.grid(),
            WeightKind::AttnProjW => w.blocks@[layer].attn_proj_w.grid(),
            WeightKind::FcW => w.blocks@[layer].fc_w.grid(),
            WeightKind::FprojW => w.blocks@[layer].fproj_w.grid(),
        }
    }
}

/// Different weight matrices have different names, and none has a kind's name.
pub proof fn lemma_weight_names(a: WeightKind, b: WeightKind, i: nat, j: nat)
    ensures
        a.text(i) == b.text(j) ==> a == b && i == j,
        a.text(i) != WTE@,
        a.text(i).len() > 5,
        a.text(i)[0] == 'a' || a.text(i)[0] == 'f',
        a.text(i)[1] == 't' || a.text(i)[1] == 'c' || a.text(i)[1] == 'p',
{
    reveal_strlit("attn_w_");
    reveal_strlit("attn_proj_w_");
    reveal_strlit("fc_w_");
    reveal_strlit("fproj_w_");
    reveal_strlit("wte");
    lemma_decimal(i, j);
    lemma_decimal_len(i);
    lemma_decimal_len(j);
    let (x, y) = (a.text(i), b.text(j));
    assert(x[0] == a.prefix()[0] && y[0] == b.prefix()[0]);
    assert(x[1] == a.prefix()[1] && y[1] == b.prefix()[1]);
    assert(x[5] == (if a == WeightKind::AttnW {
        'w'
    } else if a == WeightKind::AttnProjW {
        'p'
    } else {
        x[5]
    }));
    assert(y[5] == (if b == WeightKind::AttnW {
        'w'
    } else if b == WeightKind::AttnProjW {
        'p'
    } else {
        y[5]
    }));
    if x == y {
        assert(a == b);
        let n = a.prefix().len() as int;
        assert(x.skip(n) =~= decimal(i));
        assert(y.skip(n) =~= decimal(j));
    }
}

/// The weight polynomials of the first `n` layers, by name.
pub open spec fn layer_polys(w: ModelWeights, n: nat) -> Map<Seq<char>, Seq<EF>>
    decreases n,
{
    if n == 0 {
        Map::empty()
    } else {
        let l = (n - 1) as nat;
        layer_polys(w, l).insert(
            WeightKind::AttnW.text(l),
            weight_table(WeightKind::AttnW.matrix(w, l as int)),
        ).insert(
            WeightKind::AttnProjW.text(l),
            weight_table(WeightKind::AttnProjW.matrix(w, l as int)),
        ).insert(
            WeightKind::FcW.text(l),
            weight_table(WeightKind::FcW.matrix(w, l as int)),
        ).insert(
            WeightKind::FprojW.text(l),
            weight_table(WeightKind::FprojW.matrix(w, l as int)),
        )
    }
}

/// All weight polynomials, by name.
pub open spec fn offline_polys(w: ModelWeights) -> Map<Seq<char>, Seq<EF>> {
    layer_polys(w, w.blocks@.len()).insert(WTE@, weight_table(w.wte.grid()))
}

/// The weight layouts of the first `n` layers, by name.
pub open spec fn layer_layouts(w: ModelWeights, n: nat) -> Map<Seq<char>, TypeLayout>
    decreases n,
{
    if n == 0 {
        Map::empty()
    } else {
        let l = (n - 1) as nat;
        layer_layouts(w, l).insert(
            WeightKind::AttnW.text(l),
            weight_layout(WeightKind::AttnW.matrix(w, l as int)),
        ).insert(
            WeightKind::AttnProjW.text(l),
            weight_layout(WeightKind::AttnProjW.matrix(w, l as int)),
        ).insert(
            WeightKind::FcW.text(l),
            weight_layout(WeightKind::FcW.matrix(w, l as int)),
        ).insert(
            WeightKind::FprojW.text(l),
            weight_layout(WeightKind::FprojW.matrix(w, l as int)),
        )
    }
}

/// All weight matrices of layer `l` fit when padded.
pub open spec fn layer_weights_fit(w: ModelWeights, l: int) -> bool {
    &&& w.blocks@[l].attn_w.wf()
    &&& w.blocks@[l].attn_proj_w.wf()
    &&& w.blocks@[l].fc_w.wf()
    &&& w.blocks@[l].fproj_w.wf()
    &&& weight_fits(w.blocks@[l].attn_w.grid())
    &&& weight_fits(w.blocks@[l].attn_proj_w.grid())
    &&& weight_fits(w.blocks@[l].fc_w.grid())
    &&& weight_fits(w.blocks@[l].fproj_w.grid())
}

/// All weight matrices fit when padded.
pub open spec fn weights_fit(w: ModelWeights) -> bool {
    &&& w.wte.wf()
    &&& weight_fits(w.wte.grid())
    &&& forall|l: int| 0 <= l < w.blocks@.len() ==> #[trigger] layer_weights_fit(w, l)
}

/// Commits the weights.
pub fn build_offline(config: &Config, weights: &ModelWeights) -> (r: Canonical)
    requires
        weights_fit(*weights),
    ensures
        r.set.kept() == offline_polys(*weights),
        r.set.committed() == offline_polys(*weights),
        r.layout_map() == layer_layouts(*weights, weights.blocks@.len()).insert(
            WTE@,
            weight_layout(weights.wte.grid()),
        ),
{
    let mut b = Canonical::empty();
    let mut l: usize = 0;
    while l < weights.blocks.len()
        invariant
            l <= weights.blocks@.len(),
            weights_fit(*weights),
            b.set.kept() == layer_polys(*weights, l as nat),
            b.set.committed() == layer_polys(*weights, l as nat),
            b.layout_map() == layer_layouts(*weights, l as nat),
        decreases weights.blocks.len() - l,
    {
        assert(layer_weights_fit(*weights, l as int));
        let bw = &weights.blocks[l];
        b.commit_weight(attn_w(l).as_str(), &bw.attn_w);
        b.commit_weight(attn_proj_w(l).as_str(), &bw.attn_proj_w);
        b.commit_weight(fc_w(l).as_str(), &bw.fc_w);
        b.commit_weight(fproj_w(l).as_str(), &bw.fproj_w);
        l += 1;
    }
    b.commit_weight(WTE, &weights.wte);
    b
}

/// The polynomials of the kinds before place `n`.
spec fn online_before(w: WitnessView, config: Config, n: int) -> Map<Seq<char>, Seq<EF>> {
    Map::new(
        |s: Seq<char>| is_kind_name(s) && kind_of(s).rank() < n,
        |s: Seq<char>| kind_table(w, config, kind_of(s)),
    )
}

/// Commits every kind of witness tensor. Each kind takes its shape from its instances, so
/// there is a layer and a head.
pub fn build_online(config: &Config, witness: &Witness) -> (r: Canonical)
    requires
        sizes_fit(*config),
        config.n_layer > 0,
        config.n_head > 0,
        witness.wf(),
        witness_shaped(witness.contents(), *config),
    ensures
        r.set.kept() == online_polys(witness.contents(), *config),
        r.set.committed() == online_polys(witness.contents(), *config),
        forall|k: Kind|
            r.layout_map().contains_key(#[trigger] k.text()) && is_layout(
                r.layout_map()[k.text()],
                *config,
                k,
            ),
{
    let ghost w = witness.contents();
    let mut b = Canonical::empty();
    let mut n: usize = 0;
    assert(b.set.kept() =~= online_before(w, *config, 0)) by {
        assert forall|s: Seq<char>| !online_before(w, *config, 0).contains_key(s) by {
        }
    }
    while n < 17
        invariant
            n <= 17,
            sizes_fit(*config),
            witness.wf(),
            w == witness.contents(),
            witness_shaped(w, *config),
            b.set.kept() == online_before(w, *config, n as int),
            b.set.committed() == online_before(w, *config, n as int),
            forall|k: Kind|
                k.rank() < n ==> b.layout_map().contains_key(#[trigger] k.text()) && is_layout(
                    b.layout_map()[k.text()],
                    *config,
                    k,
                ),
        decreases 17 - n,
    {
        let kind = kind_at(n);
        let ms = instances(witness, config, kind);
        proof {
            lemma_layout_fits(*config, kind);
        }
        let lay = layout_of(config, kind);
        let pad: i64 = match kind {
            Kind::Std => 1,
            Kind::SumExp => 1,
            _ => 0,
        };
        let ghost before = b.layout_map();
        proof {
            lemma_sizes(*config, kind);
            lemma_kind_of(kind);
            assert(ms@.len() == grids_of(ms@).len());
            multilinear::lemma_pow2_mono(0, row_bits(*config, kind));
            multilinear::lemma_pow2_mono(0, col_bits(*config, kind));
            multilinear::lemma_pow2_zero();
            assert(lay.row_pow * lay.col_pow == pow2(elem_bits(*config, kind)));
        }
        b.commit_matrices(kind.name(), &ms, lay, pad);
        proof {
            let t = kind_table(w, *config, kind);
            assert(online_before(w, *config, n + 1) =~= online_before(w, *config, n as int).insert(
                kind.text(),
                t,
            )) by {
                assert forall|s: Seq<char>| is_kind_name(s) && kind_of(s).rank() == n implies s
                    == kind.text() by {
                    assert(kind_of(s) == kind);
                }
            }
            assert forall|k: Kind| k.rank() < n + 1 implies b.layout_map().contains_key(
                #[trigger] k.text(),
            ) && is_layout(b.layout_map()[k.text()], *config, k) by {
                lemma_kind_names(k, kind);
                if k.rank() == n {
                    assert(k == kind);
                } else {
                    assert(before.contains_key(k.text()));
                }
            }
        }
        n += 1;
    }
    proof {
        assert(online_before(w, *config, 17) =~= online_polys(w, *config)) by {
            assert forall|k: Kind| k.rank() < 17 by {
            }
        }
        assert forall|k: Kind| b.layout_map().contains_key(#[trigger] k.text()) && is_layout(
            b.layout_map()[k.text()],
            *config,
            k,
        ) by {
            assert(k.rank() < 17);
        }
    }
    b
}

} // verus!
