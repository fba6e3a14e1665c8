//! The public lookup table: ranges, 16-bit limbs and the activation function.
//!
//! A row has an input, an output and a type. The lookup runs over the folded rows
//! `input + alpha * output + alpha^2 * type`.
use vstd::prelude::*;
use vstd::arithmetic::power2::pow2;
use crate::field::Field;
use crate::proofsys::canonical;
use crate::proofsys::commit;
use crate::proofsys::model::ModelWeights;
use crate::proofsys::protocol::EF;
use crate::proofsys::witness::Config;

verus! {

pub const TYPE_GELU: u64 = 2;

pub const TYPE_LIMB16: u64 = 3;

pub const TYPE_RANGE12: u64 = 4;

pub const TYPE_RANGE15: u64 = 5;

pub const TYPE_RANGE13: u64 = 6;

pub const TYPE_RANGE20: u64 = 7;

pub const TYPE_DUMMY: u64 = 99;

pub const RANGE12_SIZE: usize = 4096;

pub const RANGE13_SIZE: usize = 8192;

pub const RANGE15_SIZE: usize = 32768;

pub const LIMB16_SIZE: usize = 65536;

/// Where the rows of each range start.
pub const R12_BASE: usize = 0;

pub const R13_BASE: usize = 4096;

pub const R15_BASE: usize = 12288;

pub const R20_BASE: usize = 45056;

/// Number of rows for the softmax remainders, which lie below the sum of the
/// exponentials.
pub open spec fn softmax_range(config: Config) -> nat {
    commit::ceil_pow(config.n_seq * config.scale)
}

/// Where the limb rows start.
pub open spec fn limb_base(config: Config) -> nat {
    R20_BASE as nat + softmax_range(config)
}

/// Where the activation rows start.
pub open spec fn act_base(config: Config) -> nat {
    limb_base(config) + LIMB16_SIZE as nat
}

/// Number of rows before the padding.
pub open spec fn real_rows(config: Config, w: ModelWeights) -> nat {
    act_base(config) + w.gelu_lut@.len()
}

/// Variables of the table.
pub open spec fn table_bits(config: Config, w: ModelWeights) -> nat {
    commit::ceil_log(real_rows(config, w) as int)
}

/// Number of rows.
pub open spec fn table_len(config: Config, w: ModelWeights) -> nat {
    pow2(table_bits(config, w))
}

/// The table fits a machine word.
pub open spec fn table_fits(config: Config, w: ModelWeights) -> bool {
    &&& config.scale > 0
    &&& config.n_seq * config.scale <= usize::MAX
    &&& table_len(config, w) <= usize::MAX
}

/// One row of the table.
pub struct Row {
    pub input: int,
    pub output: int,
    pub ty: int,
}

/// Row `i`: the ranges in turn, the limbs, the activation values, then padding.
pub open spec fn row_at(config: Config, w: ModelWeights, i: int) -> Row {
    if i < R13_BASE {
        Row { input: i, output: 0, ty: TYPE_RANGE12 as int }
    } else if i < R15_BASE {
        Row { input: i - R13_BASE, output: 0, ty: TYPE_RANGE13 as int }
    } else if i < R20_BASE {
        Row { input: i - R15_BASE, output: 0, ty: TYPE_RANGE15 as int }
    } else if i < limb_base(config) {
        Row { input: i - R20_BASE, output: 0, ty: TYPE_RANGE20 as int }
    } else if i < act_base(config) {
        Row { input: i - limb_base(config), output: 0, ty: TYPE_LIMB16 as int }
    } else if i < real_rows(config, w) {
        Row {
            input: i - act_base(config),
            output: w.gelu_lut@[i - act_base(config)] as int,
            ty: TYPE_GELU as int,
        }
    } else {
        Row { input: i, output: 0, ty: TYPE_DUMMY as int }
    }
}

/// The column of inputs.
pub open spec fn input_column(config: Config, w: ModelWeights) -> Seq<EF> {
    Seq::new(table_len(config, w), |i: int| EF::embed(row_at(config, w, i).input))
}

/// The column of outputs.
pub open spec fn output_column(config: Config, w: ModelWeights) -> Seq<EF> {
    Seq::new(table_len(config, w), |i: int| EF::embed(row_at(config, w, i).output))
}

/// The column of types.
pub open spec fn type_column(config: Config, w: ModelWeights) -> Seq<EF> {
    Seq::new(table_len(config, w), |i: int| EF::embed(row_at(config, w, i).ty))
}

/// `input + alpha * output + alpha^2 * type`.
pub open spec fn fold(alpha: EF, input: EF, output: EF, ty: EF) -> EF {
    (input + alpha * output) + (alpha * alpha) * ty
}

/// The folded table.
pub open spec fn folded_table(alpha: EF, config: Config, w: ModelWeights) -> Seq<EF> {
    Seq::new(
        table_len(config, w),
        |i: int|
            fold(
                alpha,
                EF::embed(row_at(config, w, i).input),
                EF::embed(row_at(config, w, i).output),
                EF::embed(row_at(config, w, i).ty),
            ),
    )
}

/// The image of an unsigned integer.
pub fn ef_u64(x: u64) -> (r: EF)
    ensures
        r == EF::embed(x as int),
        r.valid(),
{
    EF::from_u64(x)
}

/// The folded row.
pub fn fold_row(alpha: EF, input: EF, output: EF, ty: u64) -> (r: EF)
    ensures
        r == fold(alpha, input, output, EF::embed(ty as int)),
        r.valid(),
{
    input.add(alpha.mul(output)).add(alpha.mul(alpha).mul(ef_u64(ty)))
}

/// The parts of the table fit too.
pub proof fn lemma_table_sizes(config: Config, w: ModelWeights)
    requires
        table_fits(config, w),
    ensures
        0 < softmax_range(config),
        config.n_seq * config.scale <= softmax_range(config),
        real_rows(config, w) <= table_len(config, w),
        table_len(config, w) <= usize::MAX,
        table_bits(config, w) < 64,
{
    commit::lemma_ceil_pow(config.n_seq * config.scale);
    commit::lemma_ceil_pow(real_rows(config, w) as int);
    crate::utils::sumcheck::lemma_exponent_small(table_bits(config, w));
}

/// Number of rows for the softmax remainders.
pub fn range_b_size(config: &Config) -> (r: usize)
    requires
        config.scale > 0,
        config.n_seq * config.scale <= usize::MAX,
        softmax_range(*config) <= usize::MAX,
    ensures
        r == softmax_range(*config),
{
    proof {
        assert(config.scale <= usize::MAX || config.n_seq == 0) by (nonlinear_arith)
            requires
                config.n_seq * config.scale <= usize::MAX,
                config.scale > 0,
        ;
    }
    if config.n_seq == 0 {
        proof {
            assert(config.n_seq * config.scale == 0) by (nonlinear_arith)
                requires
                    config.n_seq == 0,
            ;
        }
        return commit::pow_ceil(0);
    }
    commit::pow_ceil(config.n_seq * config.scale as usize)
}

/// Where the limb rows start.
pub fn limb16_base(config: &Config, weights: &ModelWeights) -> (r: usize)
    requires
        table_fits(*config, *weights),
    ensures
        r == limb_base(*config),
{
    proof {
        lemma_table_sizes(*config, *weights);
    }
    R20_BASE + range_b_size(config)
}

/// Where the activation rows start.
pub fn gelu_base(config: &Config, weights: &ModelWeights) -> (r: usize)
    requires
        table_fits(*config, *weights),
    ensures
        r == act_base(*config),
{
    proof {
        lemma_table_sizes(*config, *weights);
    }
    limb16_base(config, weights) + LIMB16_SIZE
}

/// Number of rows.
pub fn table_size(config: &Config, weights: &ModelWeights) -> (r: usize)
    requires
        table_fits(*config, *weights),
    ensures
        r == table_len(*config, *weights),
{
    proof {
        lemma_table_sizes(*config, *weights);
    }
    commit::pow_ceil(gelu_base(config, weights) + weights.gelu_lut.len())
}

/// The three columns of the table.
pub fn table_columns(config: &Config, weights: &ModelWeights) -> (r: (
    Vec<EF>,
    Vec<EF>,
    Vec<EF>,
))
    requires
        table_fits(*config, *weights),
    ensures
        r.0@ == input_column(*config, *weights),
        r.1@ == output_column(*config, *weights),
        r.2@ == type_column(*config, *weights),
{
    proof {
        lemma_table_sizes(*config, *weights);
    }
    let len: usize = table_size(config, weights);
    let limbs: usize = limb16_base(config, weights);
    let acts: usize = gelu_base(config, weights);
    let filled: usize = acts + weights.gelu_lut.len();
    let mut tin: Vec<EF> = Vec::new();
    let mut tout: Vec<EF> = Vec::new();
    let mut tty: Vec<EF> = Vec::new();
    let mut i: usize = 0;
    while i < len
        invariant
            i <= len,
            limbs == limb_base(*config),
            acts == act_base(*config),
            filled == real_rows(*config, *weights),
            R20_BASE <= limbs,
            tin@.len() == i,
            tout@.len() == i,
            tty@.len() == i,
            forall|j: int|
                0 <= j < i ==> #[trigger] tin@[j] == EF::embed(
                    row_at(*config, *weights, j).input,
                ),
            forall|j: int|
                0 <= j < i ==> #[trigger] tout@[j] == EF::embed(
                    row_at(*config, *weights, j).output,
                ),
            forall|j: int|
                0 <= j < i ==> #[trigger] tty@[j] == EF::embed(row_at(*config, *weights, j).ty),
        decreases len - i,
    {
        let (a, o, t): (usize, i64, u64) = if i < R13_BASE {
            (i, 0, TYPE_RANGE12)
        } else if i < R15_BASE {
            (i - R13_BASE, 0, TYPE_RANGE13)
        } else if i < R20_BASE {
            (i - R15_BASE, 0, TYPE_RANGE15)
        } else if i < limbs {
            (i - R20_BASE, 0, TYPE_RANGE20)
        } else if i < acts {
            (i - limbs, 0, TYPE_LIMB16)
        } else if i < filled {
            (i - acts, weights.gelu_lut[i - acts], TYPE_GELU)
        } else {
            (i, 0, TYPE_DUMMY)
        };
        tin.push(ef_u64(a as u64));
        tout.push(canonical::ef(o));
        tty.push(ef_u64(t));
        i += 1;
    }
    assert(tin@ =~= input_column(*config, *weights));
    assert(tout@ =~= output_column(*config, *weights));
    assert(tty@ =~= type_column(*config, *weights));
    (tin, tout, tty)
}

/// The folded table.
pub fn build_table(alpha: EF, config: &Config, weights: &ModelWeights) -> (r: Vec<EF>)
    requires
        table_fits(*config, *weights),
    ensures
        r@ == folded_table(alpha, *config, *weights),
{
    let (tin, tout, tty) = table_columns(config, weights);
    let square = alpha.mul(alpha);
    let mut out: Vec<EF> = Vec::new();
    let mut i: usize = 0;
    while i < tin.len()
        invariant
            i <= tin@.len(),
            tin@ == input_column(*config, *weights),
            tout@ == output_column(*config, *weights),
            tty@ == type_column(*config, *weights),
            square == alpha * alpha,
            out@.len() == i,
            forall|j: int|
                0 <= j < i ==> #[trigger] out@[j] == folded_table(alpha, *config, *weights)[j],
        decreases tin.len() - i,
    {
        assert(tout.len() == tout@.len() && tty.len() == tty@.len());
        out.push(tin[i].add(alpha.mul(tout[i])).add(square.mul(tty[i])));
        i += 1;
    }
    assert(out@ =~= folded_table(alpha, *config, *weights));
    out
}

} // verus!
