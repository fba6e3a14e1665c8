//! The witness of one inference: every intermediate tensor.
use vstd::prelude::*;
use crate::field::{Field, Goldilocks};
use crate::proofsys::grid;
use crate::proofsys::grid::{Cube, Grid};
use crate::proofsys::tensor;
use crate::proofsys::tensor::{Matrix, Tensor3};

verus! {

/// The shape of the model and its fixed-point parameters.
#[derive(Clone, Debug, PartialEq, Eq)]
pub struct Config {
    pub n_layer: usize,
    pub n_seq: usize,
    pub n_head: usize,
    pub d_head: usize,
    pub d_model: usize,
    pub mlp_hidden: usize,
    pub vocab: usize,
    pub scale: i64,
    pub max_v: i64,
}

impl Config {
    /// The small GPT-2 on a sequence of 31 tokens.
    pub fn gpt2_31() -> (r: Self)
        ensures
            r == (Config {
                n_layer: 12,
                n_seq: 31,
                n_head: 12,
                d_head: 64,
                d_model: 768,
                mlp_hidden: 3072,
                vocab: 50257,
                scale: 4096,
                max_v: 200,
            }),
    {
        Config {
            n_layer: 12,
            n_seq: 31,
            n_head: 12,
            d_head: 64,
            d_model: 768,
            mlp_hidden: 3072,
            vocab: 50257,
            scale: 4096,
            max_v: 200,
        }
    }

    /// The divisor of the attention scores.
    pub open spec fn score_divisor(self) -> int {
        self.scale * tensor::rounded_sqrt(self.d_head as int)
    }

    /// The scale times the rounded square root of the head dimension.
    pub fn sqrt_d_scale(&self) -> (r: i64)
        requires
            grid::in_i64(self.score_divisor()),
        ensures
            r as int == self.score_divisor(),
    {
        let root: i64 = tensor::round_sqrt(self.d_head as i128);
        self.scale * root
    }

    /// The offset of the tables' index zero.
    pub open spec fn table_offset(self) -> int {
        self.max_v * self.scale
    }

    /// That offset as an unsigned 64-bit word: a negative one wraps around.
    pub open spec fn offset_word(self) -> int {
        if self.table_offset() < 0 {
            self.table_offset() + 0x1_0000_0000_0000_0000
        } else {
            self.table_offset()
        }
    }
}

/// One layer normalization.
#[derive(Clone, Debug, PartialEq, Eq)]
pub struct LayerNormWitness {
    pub input: Matrix,
    pub sum_x: Vec<i64>,
    pub sum_x2: Vec<i64>,
    pub var_sum: Vec<i64>,
    pub std: Vec<i64>,
    pub dividend: Matrix,
    pub quotient: Matrix,
    pub output: Matrix,
}

/// The contents of a layer normalization.
#[verifier::ext_equal]
pub struct LayerNormView {
    pub input: Grid,
    pub sum_x: Seq<int>,
    pub sum_x2: Seq<int>,
    pub var_sum: Seq<int>,
    pub std: Seq<int>,
    pub dividend: Grid,
    pub quotient: Grid,
    pub output: Grid,
}

impl LayerNormWitness {
    pub open spec fn contents(self) -> LayerNormView {
        LayerNormView {
            input: self.input.grid(),
            sum_x: grid::ints(self.sum_x@),
            sum_x2: grid::ints(self.sum_x2@),
            var_sum: grid::ints(self.var_sum@),
            std: grid::ints(self.std@),
            dividend: self.dividend.grid(),
            quotient: self.quotient.grid(),
            output: self.output.grid(),
        }
    }

    pub open spec fn wf(self) -> bool {
        self.input.wf() && self.dividend.wf() && self.quotient.wf() && self.output.wf()
    }

    /// Compares the contents.
    pub fn same(&self, other: &LayerNormWitness) -> (r: bool)
        ensures
            r == (self.contents() == other.contents()),
    {
        self.input.same(&other.input) && tensor::same_ints(
            self.sum_x.as_slice(),
            other.sum_x.as_slice(),
        ) && tensor::same_ints(self.sum_x2.as_slice(), other.sum_x2.as_slice())
            && tensor::same_ints(self.var_sum.as_slice(), other.var_sum.as_slice())
            && tensor::same_ints(self.std.as_slice(), other.std.as_slice()) && self.dividend.same(
            &other.dividend,
        ) && self.quotient.same(&other.quotient) && self.output.same(&other.output)
    }
}

/// One attention layer.
#[derive(Clone, Debug, PartialEq, Eq)]
pub struct AttentionWitness {
    pub q_qkv: Matrix,
    pub qkv: Matrix,
    pub scores: Vec<Tensor3>,
    pub x_max: Vec<Matrix>,
    pub exp: Vec<Tensor3>,
    pub sum_exp: Vec<Matrix>,
    pub q_prob: Vec<Tensor3>,
    pub q_ao_heads: Vec<Tensor3>,
    pub q_ao: Matrix,
    pub q_apr: Matrix,
    pub x_out: Matrix,
}

/// The contents of an attention layer.
#[verifier::ext_equal]
pub struct AttentionView {
    pub q_qkv: Grid,
    pub qkv: Grid,
    pub scores: Seq<Cube>,
    pub x_max: Seq<Grid>,
    pub exp: Seq<Cube>,
    pub sum_exp: Seq<Grid>,
    pub q_prob: Seq<Cube>,
    pub q_ao_heads: Seq<Cube>,
    pub q_ao: Grid,
    pub q_apr: Grid,
    pub x_out: Grid,
}

/// The ideal tensors of a list.
pub open spec fn cubes(s: Seq<Tensor3>) -> Seq<Cube> {
    Seq::new(s.len(), |i: int| s[i].cube())
}

/// The ideal matrices of a list.
pub open spec fn grids(s: Seq<Matrix>) -> Seq<Grid> {
    Seq::new(s.len(), |i: int| s[i].grid())
}

/// Compares two lists of tensors.
fn same_tensors(a: &Vec<Tensor3>, b: &Vec<Tensor3>) -> (r: bool)
    ensures
        r == (cubes(a@) == cubes(b@)),
{
    if a.len() != b.len() {
        assert(cubes(a@).len() != cubes(b@).len());
        return false;
    }
    let mut i: usize = 0;
    while i < a.len()
        invariant
            i <= a.len(),
            a@.len() == b@.len(),
            forall|k: int| 0 <= k < i ==> (#[trigger] a@[k]).cube() == b@[k].cube(),
        decreases a.len() - i,
    {
        if !a[i].same(&b[i]) {
            assert(cubes(a@)[i as int] != cubes(b@)[i as int]);
            return false;
        }
        i += 1;
    }
    assert(cubes(a@) =~= cubes(b@));
    true
}

/// Compares two lists of matrices.
fn same_matrices(a: &Vec<Matrix>, b: &Vec<Matrix>) -> (r: bool)
    ensures
        r == (grids(a@) == grids(b@)),
{
    if a.len() != b.len() {
        assert(grids(a@).len() != grids(b@).len());
        return false;
    }
    let mut i: usize = 0;
    while i < a.len()
        invariant
            i <= a.len(),
            a@.len() == b@.len(),
            forall|k: int| 0 <= k < i ==> (#[trigger] a@[k]).grid() == b@[k].grid(),
        decreases a.len() - i,
    {
        if !a[i].same(&b[i]) {
            assert(grids(a@)[i as int] != grids(b@)[i as int]);
            return false;
        }
        i += 1;
    }
    assert(grids(a@) =~= grids(b@));
    true
}

impl AttentionWitness {
    pub open spec fn contents(self) -> AttentionView {
        AttentionView {
            q_qkv: self.q_qkv.grid(),
            qkv: self.qkv.grid(),
            scores: cubes(self.scores@),
            x_max: grids(self.x_max@),
            exp: cubes(self.exp@),
            sum_exp: grids(self.sum_exp@),
            q_prob: cubes(self.q_prob@),
            q_ao_heads: cubes(self.q_ao_heads@),
            q_ao: self.q_ao.grid(),
            q_apr: self.q_apr.grid(),
            x_out: self.x_out.grid(),
        }
    }

    pub open spec fn wf(self) -> bool {
        &&& self.q_qkv.wf()
        &&& self.qkv.wf()
        &&& self.q_ao.wf()
        &&& self.q_apr.wf()
        &&& self.x_out.wf()
        &&& forall|i: int| 0 <= i < self.scores@.len() ==> (#[trigger] self.scores@[i]).wf()
        &&& forall|i: int| 0 <= i < self.x_max@.len() ==> (#[trigger] self.x_max@[i]).wf()
        &&& forall|i: int| 0 <= i < self.exp@.len() ==> (#[trigger] self.exp@[i]).wf()
        &&& forall|i: int| 0 <= i < self.sum_exp@.len() ==> (#[trigger] self.sum_exp@[i]).wf()
        &&& forall|i: int| 0 <= i < self.q_prob@.len() ==> (#[trigger] self.q_prob@[i]).wf()
        &&& forall|i: int|
            0 <= i < self.q_ao_heads@.len() ==> (#[trigger] self.q_ao_heads@[i]).wf()
    }

    /// Compares the contents.
    pub fn same(&self, other: &AttentionWitness) -> (r: bool)
        ensures
            r == (self.contents() == other.contents()),
    {
        self.q_qkv.same(&other.q_qkv) && self.qkv.same(&other.qkv) && same_tensors(
            &self.scores,
            &other.scores,
        ) && same_matrices(&self.x_max, &other.x_max) && same_tensors(&self.exp, &other.exp)
            && same_matrices(&self.sum_exp, &other.sum_exp) && same_tensors(
            &self.q_prob,
            &other.q_prob,
        ) && same_tensors(&self.q_ao_heads, &other.q_ao_heads) && self.q_ao.same(&other.q_ao)
            && self.q_apr.same(&other.q_apr) && self.x_out.same(&other.x_out)
    }
}

/// One feed-forward layer.
#[derive(Clone, Debug, PartialEq, Eq)]
pub struct MlpWitness {
    pub q_fc: Matrix,
    pub fc: Matrix,
    pub act: Matrix,
    pub q_fpr: Matrix,
    pub x_out: Matrix,
}

/// The contents of a feed-forward layer.
#[verifier::ext_equal]
pub struct MlpView {
    pub q_fc: Grid,
    pub fc: Grid,
    pub act: Grid,
    pub q_fpr: Grid,
    pub x_out: Grid,
}

impl MlpWitness {
    pub open spec fn contents(self) -> MlpView {
        MlpView {
            q_fc: self.q_fc.grid(),
            fc: self.fc.grid(),
            act: self.act.grid(),
            q_fpr: self.q_fpr.grid(),
            x_out: self.x_out.grid(),
        }
    }

    pub open spec fn wf(self) -> bool {
        self.q_fc.wf() && self.fc.wf() && self.act.wf() && self.q_fpr.wf() && self.x_out.wf()
    }

    /// Compares the contents.
    pub fn same(&self, other: &MlpWitness) -> (r: bool)
        ensures
            r == (self.contents() == other.contents()),
    {
        self.q_fc.same(&other.q_fc) && self.fc.same(&other.fc) && self.act.same(&other.act)
            && self.q_fpr.same(&other.q_fpr) && self.x_out.same(&other.x_out)
    }
}

/// One transformer block.
#[derive(Clone, Debug, PartialEq, Eq)]
pub struct BlockWitness {
    pub ln1: LayerNormWitness,
    pub attention: AttentionWitness,
    pub ln2: LayerNormWitness,
    pub mlp: MlpWitness,
}

/// The contents of a block.
#[verifier::ext_equal]
pub struct BlockView {
    pub ln1: LayerNormView,
    pub attention: AttentionView,
    pub ln2: LayerNormView,
    pub mlp: MlpView,
}

impl BlockWitness {
    pub open spec fn contents(self) -> BlockView {
        BlockView {
            ln1: self.ln1.contents(),
            attention: self.attention.contents(),
            ln2: self.ln2.contents(),
            mlp: self.mlp.contents(),
        }
    }

    pub open spec fn wf(self) -> bool {
        self.ln1.wf() && self.attention.wf() && self.ln2.wf() && self.mlp.wf()
    }

    /// Compares the contents.
    pub fn same(&self, other: &BlockWitness) -> (r: bool)
        ensures
            r == (self.contents() == other.contents()),
    {
        self.ln1.same(&other.ln1) && self.attention.same(&other.attention) && self.ln2.same(
            &other.ln2,
        ) && self.mlp.same(&other.mlp)
    }
}

/// The full witness.
#[derive(Clone, Debug, PartialEq, Eq)]
pub struct Witness {
    pub x0: Matrix,
    pub blocks: Vec<BlockWitness>,
    pub lnf: LayerNormWitness,
    pub q_log: Matrix,
}

/// The contents of a witness.
#[verifier::ext_equal]
pub struct WitnessView {
    pub x0: Grid,
    pub blocks: Seq<BlockView>,
    pub lnf: LayerNormView,
    pub q_log: Grid,
}

/// The contents of a list of blocks.
pub open spec fn block_views(s: Seq<BlockWitness>) -> Seq<BlockView> {
    Seq::new(s.len(), |i: int| s[i].contents())
}

impl Witness {
    pub open spec fn contents(self) -> WitnessView {
        WitnessView {
            x0: self.x0.grid(),
            blocks: block_views(self.blocks@),
            lnf: self.lnf.contents(),
            q_log: self.q_log.grid(),
        }
    }

    pub open spec fn wf(self) -> bool {
        &&& self.x0.wf()
        &&& self.lnf.wf()
        &&& self.q_log.wf()
        &&& forall|i: int| 0 <= i < self.blocks@.len() ==> (#[trigger] self.blocks@[i]).wf()
    }

    /// Compares the contents.
    pub fn same(&self, other: &Witness) -> (r: bool)
        ensures
            r == (self.contents() == other.contents()),
    {
        if !self.x0.same(&other.x0) || !self.lnf.same(&other.lnf) || !self.q_log.same(
            &other.q_log,
        ) {
            return false;
        }
        if self.blocks.len() != other.blocks.len() {
            assert(self.contents().blocks.len() != other.contents().blocks.len());
            return false;
        }
        let mut i: usize = 0;
        while i < self.blocks.len()
            invariant
                i <= self.blocks.len(),
                self.blocks@.len() == other.blocks@.len(),
                forall|k: int|
                    0 <= k < i ==> (#[trigger] self.blocks@[k]).contents()
                        == other.blocks@[k].contents(),
            decreases self.blocks.len() - i,
        {
            if !self.blocks[i].same(&other.blocks[i]) {
                assert(self.contents().blocks[i as int] != other.contents().blocks[i as int]);
                return false;
            }
            i += 1;
        }
        assert(block_views(self.blocks@) =~= block_views(other.blocks@));
        true
    }
}

/// A signed integer in the base field; negatives are additive inverses.
pub fn encode_i64(x: i64) -> (r: Goldilocks)
    ensures
        r == Goldilocks::embed(x as int),
        r.valid(),
{
    proof {
        Goldilocks::law_embed(x as int, 0);
        Goldilocks::law_embed(0, -(x as int));
    }
    if x >= 0 {
        Goldilocks::from_u64(x as u64)
    } else {
        let m: u64 = (-(x as i128)) as u64;
        let v = Goldilocks::from_u64(m);
        proof {
            Goldilocks::law_valid(v, v);
            let z = Goldilocks::zero();
            Goldilocks::law_sub(z, v);
            crate::algebra::zero_add(v.spec_neg());
        }
        v.neg()
    }
}

} // verus!
