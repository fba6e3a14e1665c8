//! Commitments by sixteen interleaved codewords in the extension field.
use core::marker::PhantomData;
use vstd::prelude::*;
use vstd::arithmetic::power2::pow2;
use crate::field::{Field, Goldilocks, GoldilocksExt2};
use crate::multilinear;
use crate::pcs::domain;
use crate::pcs::domain::LeafField;
use crate::polynomial;
use crate::utils::merkle;
use crate::utils::merkle::{Digest, MerkleTreeProver, Serialize};
use crate::utils::poly;
use crate::utils::poly::MlPoly;
use crate::views;

verus! {

/// Number of codewords in a column, and of values in a chunk.
pub const CHUNK: usize = 16;

/// The scheme over a base field and its extension.
#[derive(Debug, Default)]
pub struct Deepfold<BF, EF> {
    marker: PhantomData<(BF, EF)>,
}

/// What the committer keeps: the columns of the codewords and the tree over them.
pub struct DeepfoldProverState<F: Field> {
    codes: Vec<Vec<F>>,
    mt_prover: MerkleTreeProver,
}

/// A commitment: the root over the columns.
pub struct DeepfoldCommit(pub Digest);

impl<F: Field> DeepfoldProverState<F> {
    /// The columns of the codewords.
    pub closed spec fn columns(self) -> Seq<Seq<F>> {
        views::nested(self.codes@)
    }

    /// The leaf digests of the tree.
    pub closed spec fn tree(self) -> Seq<Seq<u8>> {
        self.mt_prover.leaves()
    }

    /// The tree holds the digests of the columns.
    pub open spec fn wf(self) -> bool {
        self.tree() == merkle::leaf_digests(columns_bytes(self.columns()))
    }
}

/// The bytes of each column.
pub open spec fn columns_bytes<F: Field>(columns: Seq<Seq<F>>) -> Seq<Seq<u8>> {
    Seq::new(columns.len(), |i: int| merkle::fields_bytes(columns[i]))
}

/// Chunk `j` of a polynomial: every `len / 16`-th value.
pub open spec fn chunk<F: Field>(s: Seq<F>, j: int) -> Seq<F> {
    Seq::new(CHUNK as nat, |k: int| s[k * (s.len() / CHUNK as nat) + j])
}

/// The columns of the first sixteen chunks' codewords at rate `2^-rate`.
pub open spec fn code_columns<LF: LeafField>(s: Seq<LF>, rate: nat) -> Seq<Seq<GoldilocksExt2>> {
    Seq::new(
        pow2(4 + rate),
        |i: int|
            Seq::new(
                CHUNK as nat,
                |j: int| domain::codeword(chunk(s, j), 4 + rate)[i].lift(),
            ),
    )
}

/// A polynomial can be committed to: it splits into at least sixteen chunks, and
/// their codewords have a domain.
pub open spec fn committable(len: nat, rate: nat) -> bool {
    &&& len >= CHUNK * CHUNK
    &&& len % CHUNK as nat == 0
    &&& 4 + rate <= 32
    &&& pow2(4 + rate) <= usize::MAX
}

/// The state and the commitment belong to the polynomial with values `s`.
pub open spec fn committed<LF: LeafField>(
    state: DeepfoldProverState<GoldilocksExt2>,
    commit: DeepfoldCommit,
    s: Seq<LF>,
    rate: nat,
) -> bool {
    &&& state.wf()
    &&& state.columns() == code_columns(s, rate)
    &&& commit.0@ == merkle::merkle_root(state.tree())
}

impl Deepfold<Goldilocks, GoldilocksExt2> {
    pub fn new() -> Self {
        Deepfold { marker: PhantomData }
    }

    /// Transposes the first sixteen codewords into columns and builds the tree over
    /// them.
    fn to_commit(
        codes: Vec<Vec<GoldilocksExt2>>,
    ) -> (r: (DeepfoldProverState<GoldilocksExt2>, DeepfoldCommit))
        requires
            codes@.len() >= CHUNK,
            codes@[0]@.len() > 0,
            forall|j: int|
                0 <= j < CHUNK ==> (#[trigger] codes@[j])@.len() == codes@[0]@.len(),
        ensures
            r.0.wf(),
            r.0.columns() == Seq::new(
                codes@[0]@.len(),
                |i: int| Seq::new(CHUNK as nat, |j: int| codes@[j]@[i]),
            ),
            r.1.0@ == merkle::merkle_root(r.0.tree()),
    {
        let code_length: usize = codes[0].len();
        let ghost want = Seq::new(
            codes@[0]@.len(),
            |i: int| Seq::new(CHUNK as nat, |j: int| codes@[j]@[i]),
        );
        let mut columns: Vec<Vec<GoldilocksExt2>> = Vec::new();
        let mut leaves: Vec<Vec<u8>> = Vec::new();
        let mut i: usize = 0;
        while i < code_length
            invariant
                i <= code_length,
                code_length == codes@[0]@.len(),
                codes@.len() >= CHUNK,
                forall|j: int|
                    0 <= j < CHUNK ==> (#[trigger] codes@[j])@.len() == codes@[0]@.len(),
                want == Seq::new(
                    codes@[0]@.len(),
                    |i: int| Seq::new(CHUNK as nat, |j: int| codes@[j]@[i]),
                ),
                columns@.len() == i,
                leaves@.len() == i,
                forall|k: int| 0 <= k < i ==> (#[trigger] columns@[k])@ == want[k],
                forall|k: int|
                    0 <= k < i ==> (#[trigger] leaves@[k])@ == merkle::fields_bytes(want[k]),
            decreases code_length - i,
        {
            let mut column: Vec<GoldilocksExt2> = Vec::new();
            let mut j: usize = 0;
            while j < CHUNK
                invariant
                    j <= CHUNK,
                    i < code_length,
                    code_length == codes@[0]@.len(),
                    codes@.len() >= CHUNK,
                    forall|j: int|
                        0 <= j < CHUNK ==> (#[trigger] codes@[j])@.len() == codes@[0]@.len(),
                    column@.len() == j,
                    forall|k: int| 0 <= k < j ==> #[trigger] column@[k] == codes@[k]@[i as int],
                decreases CHUNK - j,
            {
                assert(codes@[j as int]@.len() == code_length);
                column.push(codes[j][i]);
                j += 1;
            }
            assert(column@ =~= want[i as int]);
            leaves.push(Serialize::serialize_fields(column.as_slice()));
            columns.push(column);
            i += 1;
        }
        let mt_prover = MerkleTreeProver::new(&leaves);
        assert(views::nested(columns@) =~= want);
        assert(views::nested(leaves@) =~= columns_bytes(want));
        let commit = mt_prover.commit();
        (DeepfoldProverState { codes: columns, mt_prover }, DeepfoldCommit(commit))
    }

    /// Splits a polynomial, encodes its chunks and lifts the codewords.
    fn encode_chunks<LF: LeafField>(poly: MlPoly<LF>, code_rate: usize) -> (codes: Vec<
        Vec<GoldilocksExt2>,
    >)
        requires
            committable(poly.0@.len(), code_rate as nat),
        ensures
            codes@.len() == poly.0@.len() / CHUNK as nat,
            forall|j: int|
                0 <= j < codes@.len() ==> (#[trigger] codes@[j])@ == domain::lift_all(
                    domain::codeword(chunk(poly.0@, j), (4 + code_rate) as nat),
                ),
    {
        let ghost s = poly.0@;
        let ghost c = s.len() / CHUNK as nat;
        proof {
            vstd::arithmetic::power2::lemma2_to64();
            poly::lemma_exponent(4);
            let (l, k) = (s.len() as int, c as int);
            assert(l == 16 * k);
            vstd::arithmetic::div_mod::lemma_mod_multiples_basic(16, k);
            vstd::arithmetic::div_mod::lemma_div_multiples_vanish(16, k);
            assert(k * 16 == 16 * k);
            multilinear::lemma_pow2_mono(4, (4 + code_rate) as nat);
        }
        let polies = poly.split(CHUNK);
        let mut codes: Vec<Vec<GoldilocksExt2>> = Vec::new();
        let mut j: usize = 0;
        while j < polies.len()
            invariant
                j <= polies.len(),
                s == poly.0@,
                c == s.len() / CHUNK as nat,
                s.len() / c == 16,
                committable(s.len(), code_rate as nat),
                16 <= pow2((4 + code_rate) as nat),
                polies@.len() == c,
                forall|j: int|
                    0 <= j < polies@.len() ==> (#[trigger] polies@[j]).0@ == Seq::new(
                        s.len() / polies@.len(),
                        |k: int| s[k * polies@.len() + j],
                    ),
                codes@.len() == j,
                forall|k: int|
                    0 <= k < j ==> (#[trigger] codes@[k])@ == domain::lift_all(
                        domain::codeword(chunk(s, k), (4 + code_rate) as nat),
                    ),
            decreases polies.len() - j,
        {
            assert(polies@[j as int].0@ =~= chunk(s, j as int));
            let code = domain::rs_encode(&polies[j].0, 4 + code_rate);
            codes.push(lift_code(&code));
            j += 1;
        }
        codes
    }

    /// Commits to a base field polynomial.
    pub fn commit_base(
        poly: MlPoly<Goldilocks>,
        code_rate: usize,
    ) -> (r: (DeepfoldProverState<GoldilocksExt2>, DeepfoldCommit))
        requires
            committable(poly.0@.len(), code_rate as nat),
        ensures
            committed(r.0, r.1, poly.0@, code_rate as nat),
    {
        let ghost s = poly.0@;
        let codes = Self::encode_chunks(poly, code_rate);
        proof {
            vstd::arithmetic::power2::lemma_pow2_pos((4 + code_rate) as nat);
        }
        let r = Self::to_commit(codes);
        proof {
            lemma_columns(s, codes@, code_rate as nat, r.0.columns());
        }
        r
    }

    /// Commits to an extension field polynomial.
    pub fn commit_ext(
        poly: MlPoly<GoldilocksExt2>,
        code_rate: usize,
    ) -> (r: (DeepfoldProverState<GoldilocksExt2>, DeepfoldCommit))
        requires
            committable(poly.0@.len(), code_rate as nat),
        ensures
            committed(r.0, r.1, poly.0@, code_rate as nat),
    {
        let ghost s = poly.0@;
        let codes = Self::encode_chunks(poly, code_rate);
        proof {
            vstd::arithmetic::power2::lemma_pow2_pos((4 + code_rate) as nat);
        }
        let r = Self::to_commit(codes);
        proof {
            lemma_columns(s, codes@, code_rate as nat, r.0.columns());
        }
        r
    }
}

proof fn lemma_columns<LF: LeafField>(
    s: Seq<LF>,
    codes: Seq<Vec<GoldilocksExt2>>,
    rate: nat,
    columns: Seq<Seq<GoldilocksExt2>>,
)
    requires
        codes.len() >= CHUNK,
        forall|j: int|
            0 <= j < codes.len() ==> (#[trigger] codes[j])@ == domain::lift_all(
                domain::codeword(chunk(s, j), 4 + rate),
            ),
        columns == Seq::new(
            codes[0]@.len(),
            |i: int| Seq::new(CHUNK as nat, |j: int| codes[j]@[i]),
        ),
    ensures
        columns == code_columns(s, rate),
{
    let want = code_columns(s, rate);
    assert forall|i: int| 0 <= i < want.len() implies #[trigger] columns[i] == want[i] by {
        assert forall|j: int| 0 <= j < CHUNK implies #[trigger] columns[i][j] == want[i][j] by {
            assert(codes[j]@ == domain::lift_all(domain::codeword(chunk(s, j), 4 + rate)));
        }
        assert(columns[i] =~= want[i]);
    }
    assert(columns =~= want);
}

/// A codeword in the extension.
fn lift_code<LF: LeafField>(code: &Vec<LF>) -> (r: Vec<GoldilocksExt2>)
    ensures
        r@ == domain::lift_all(code@),
{
    let mut r: Vec<GoldilocksExt2> = Vec::new();
    let mut i: usize = 0;
    while i < code.len()
        invariant
            i <= code.len(),
            r@.len() == i,
            forall|k: int| 0 <= k < i ==> #[trigger] r@[k] == code@[k].lift(),
        decreases code.len() - i,
    {
        r.push(code[i].to_ext());
        i += 1;
    }
    assert(r@ =~= domain::lift_all(code@));
    r
}

/// The committed columns: entry `j` of column `i` is the value, at point `i` of the domain,
/// of the polynomial whose sixteen coefficients are the values from `j` on, a sixteenth of
/// all values apart.
pub proof fn law_columns_evaluate<LF: LeafField>(s: Seq<LF>, rate: nat, i: int, j: int)
    requires
        0 <= i < pow2(4 + rate),
        0 <= j < 16,
    ensures
        code_columns(s, rate).len() == pow2(4 + rate),
        code_columns(s, rate)[i].len() == 16,
        code_columns(s, rate)[i][j] == polynomial::poly_eval(
            Seq::new(16, |k: int| s[k * (s.len() / 16) + j]),
            LF::of_base(domain::pow(domain::root(4 + rate), i as nat)),
        ).lift(),
{
    assert(chunk(s, j) =~= Seq::new(16, |k: int| s[k * (s.len() / 16) + j]));
}

} // verus!
