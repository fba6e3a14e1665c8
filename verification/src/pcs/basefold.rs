//! Basefold: a multilinear polynomial commitment by folding Reed-Solomon
//! codewords.
//!
//! A polynomial is split into interleaved chunks by its first variables; the
//! chunks are encoded and committed column by column. An opening compresses the
//! codewords with the equality weights of the first coordinates of the point,
//! reduces the claim one variable at a time and folds the codeword along.
use core::marker::PhantomData;
use std::collections::BTreeMap;
use vstd::prelude::*;
use vstd::arithmetic::power2::pow2;
use crate::algebra;
use crate::field::{Field, Goldilocks, GoldilocksExt2};
use crate::gkr;
use crate::multilinear;
use crate::pcs::domain;
use crate::pcs::domain::LeafField;
use crate::pcs::fri;
use crate::pcs::fri::RoundOpening;
use crate::pcs::leaves;
use crate::polynomial;
use crate::utils::merkle;
use crate::utils::merkle::{Digest, MerkleTreeProver, Serialize};
use crate::utils::oracle::RandomOracle;
use crate::utils::poly;
use crate::utils::poly::MlPoly;
use crate::utils::sumcheck;
use crate::views;

verus! {

/// Number of interleaved codewords of a plain commitment.
pub const INTERLEAVE: usize = 64;

/// Number of variables that select the chunk in a plain commitment.
pub const LOG_INTERLEAVE: usize = 6;

/// The scheme over a base field and its extension.
#[derive(Debug, Default)]
pub struct Basefold<BF, EF> {
    marker: PhantomData<(BF, EF)>,
}

/// What the committer keeps: the interleaved codewords in the leaf field, the tree
/// over their columns, and the polynomial in the extension.
pub struct BasefoldProverState<LF: Field, EF: Field> {
    codes: Vec<Vec<LF>>,
    mt_prover: MerkleTreeProver,
    poly: MlPoly<EF>,
    num_vars: usize,
    code_rate: usize,
    log_interleave: usize,
}

/// A commitment: the root over the codeword columns.
pub struct BasefoldCommit(pub Digest);

/// Part `j` of `2^li` interleaved parts.
pub open spec fn chunk<F: Field>(s: Seq<F>, li: nat, j: int) -> Seq<F> {
    Seq::new(s.len() / pow2(li), |k: int| s[k * pow2(li) + j])
}

/// The digests of the first `len` columns.
pub open spec fn column_digests<F: Field>(codes: Seq<Seq<F>>, len: nat) -> Seq<Seq<u8>> {
    Seq::new(
        len,
        |i: int| merkle::blake3_digest(merkle::fields_bytes(gkr::column(codes, i))),
    )
}

/// The codewords compressed with the given weights.
pub open spec fn compressed<LF: LeafField>(
    codes: Seq<Seq<LF>>,
    weights: Seq<GoldilocksExt2>,
    len: nat,
) -> Seq<GoldilocksExt2> {
    Seq::new(len, |i: int| compress_leaf(gkr::column(codes, i), weights))
}

/// One column compressed with the given weights.
pub open spec fn compress_leaf<LF: LeafField>(
    leaf: Seq<LF>,
    weights: Seq<GoldilocksExt2>,
) -> GoldilocksExt2 {
    algebra::sum(leaf.len(), |j: int| weights[j] * leaf[j].lift())
}

impl<LF: Field, EF: Field> BasefoldProverState<LF, EF> {
    /// The interleaved codewords.
    pub closed spec fn codewords(self) -> Seq<Seq<LF>> {
        views::nested(self.codes@)
    }

    /// The polynomial's hypercube values.
    pub closed spec fn evals(self) -> Seq<EF> {
        self.poly.0@
    }

    /// Number of variables.
    pub closed spec fn vars(self) -> nat {
        self.num_vars as nat
    }

    /// Logarithm of the inverse code rate.
    pub closed spec fn rate(self) -> nat {
        self.code_rate as nat
    }

    /// Number of variables that select the chunk.
    pub closed spec fn interleave(self) -> nat {
        self.log_interleave as nat
    }

    /// Logarithm of the codeword length.
    pub open spec fn log_len(self) -> nat {
        (self.vars() - self.interleave() + self.rate()) as nat
    }

    /// Number of folding rounds.
    pub open spec fn rounds(self) -> nat {
        (self.vars() - self.interleave()) as nat
    }

    /// The leaf digests of the tree.
    pub closed spec fn tree(self) -> Seq<Seq<u8>> {
        self.mt_prover.leaves()
    }

    /// The committed root.
    pub open spec fn root(self) -> Seq<u8> {
        merkle::merkle_root(self.tree())
    }

    pub closed spec fn tree_wf(self) -> bool {
        self.mt_prover.wf()
    }

    pub fn num_vars(&self) -> (r: usize)
        ensures
            r == self.vars(),
    {
        self.num_vars
    }

    pub fn log_interleave(&self) -> (r: usize)
        ensures
            r == self.interleave(),
    {
        self.log_interleave
    }

    pub fn code_rate(&self) -> (r: usize)
        ensures
            r == self.rate(),
    {
        self.code_rate
    }

    /// The committed polynomial's value at `point`.
    pub fn eval(&self, point: &[EF]) -> (r: EF)
        requires
            self.evals().len() == pow2(point@.len()),
        ensures
            r == multilinear::mle(self.evals(), point@),
    {
        MlPoly(poly::copy_slice(self.poly.0.as_slice())).eval(point)
    }
}

impl<LF: LeafField> BasefoldProverState<LF, GoldilocksExt2> {
    /// The codewords encode the chunks of the polynomial, and the tree holds their
    /// columns.
    pub open spec fn wf(self) -> bool {
        &&& self.interleave() <= self.vars()
        &&& self.log_len() <= 32
        &&& self.evals().len() == pow2(self.vars())
        &&& algebra::all_valid(self.evals())
        &&& pow2(self.vars()) <= usize::MAX
        &&& pow2(self.log_len()) <= usize::MAX
        &&& self.rate() <= usize::MAX
        &&& self.codewords().len() == pow2(self.interleave())
        &&& forall|j: int|
            0 <= j < self.codewords().len() ==> (#[trigger] self.codewords()[j]).len() == pow2(
                self.log_len(),
            )
        &&& forall|j: int, i: int|
            0 <= j < self.codewords().len() && 0 <= i < pow2(self.log_len())
                ==> (#[trigger] self.codewords()[j][i]).lift() == fri::encoding(
                chunk(self.evals(), self.interleave(), j),
                self.log_len(),
            )[i]
        &&& self.tree_wf()
        &&& self.tree() == column_digests(self.codewords(), pow2(self.log_len()))
    }
}

/// An opening proof.
pub struct BasefoldProof<LF: Field, EF: Field> {
    /// The two values of each round's line.
    pub reduction_msgs: Vec<(EF, EF)>,
    /// The roots of the folded levels between the first and the last.
    pub fold_roots: Vec<Digest>,
    /// The last level, sent in the clear.
    pub final_codeword: Vec<EF>,
    /// The opened columns of the codewords.
    pub base_opening: RoundOpening<LF>,
    /// The openings of the folded levels.
    pub fold_openings: Vec<RoundOpening<EF>>,
    pub claimed_eval: EF,
    pub num_vars: usize,
    pub code_rate: usize,
    pub log_interleave: usize,
}

/// Number of field elements in the first `n` revealed leaves.
pub open spec fn leaf_elements<F: Field>(values: Map<usize, Vec<F>>, n: nat) -> nat
    decreases n,
{
    if n == 0 {
        0
    } else {
        leaf_elements(values, (n - 1) as nat) + values[leaves::keys_of(values)[n - 1]]@.len()
    }
}

/// Size in bytes of an opening: the proof bytes and the revealed elements.
pub open spec fn opening_size<F: Field>(proof_bytes: Seq<u8>, values: Map<usize, Vec<F>>) -> nat {
    proof_bytes.len() + leaf_elements(values, leaves::keys_of(values).len()) * F::byte_size()
}

/// Size in bytes of the first `n` openings.
pub open spec fn openings_size<F: Field>(ops: Seq<RoundOpening<F>>, n: nat) -> nat
    decreases n,
{
    if n == 0 {
        0
    } else {
        openings_size(ops, (n - 1) as nat) + opening_size(
            ops[n - 1].proof_bytes@,
            ops[n - 1].values@,
        )
    }
}

proof fn lemma_leaf_elements_mono<F: Field>(values: Map<usize, Vec<F>>, i: nat, n: nat)
    requires
        i <= n,
    ensures
        leaf_elements(values, i) <= leaf_elements(values, n),
    decreases n,
{
    if i < n {
        lemma_leaf_elements_mono(values, i, (n - 1) as nat);
    }
}

proof fn lemma_openings_size_mono<F: Field>(ops: Seq<RoundOpening<F>>, i: nat, n: nat)
    requires
        i <= n,
    ensures
        openings_size(ops, i) <= openings_size(ops, n),
    decreases n,
{
    if i < n {
        lemma_openings_size_mono(ops, i, (n - 1) as nat);
        assert(0 <= leaf_elements(
            ops[n - 1].values@,
            leaves::keys_of(ops[n - 1].values@).len(),
        ) * F::byte_size()) by (nonlinear_arith);
    }
}

/// Size in bytes of an opening.
fn opening_bytes<F: Field>(proof_bytes: &Vec<u8>, values: &BTreeMap<usize, Vec<F>>) -> (r: usize)
    requires
        opening_size(proof_bytes@, values@) <= usize::MAX,
    ensures
        r == opening_size(proof_bytes@, values@),
{
    let f: usize = F::size();
    let keys = leaves::positions(values);
    let ghost total = leaf_elements(values@, keys@.len());
    proof {
        assert(total <= total * f) by (nonlinear_arith)
            requires
                f >= 1,
                total >= 0,
        ;
    }
    let mut count: usize = 0;
    let mut i: usize = 0;
    while i < keys.len()
        invariant
            i <= keys.len(),
            keys@ == leaves::keys_of(values@),
            keys@.to_set() == values@.dom(),
            total == leaf_elements(values@, keys@.len()),
            total <= usize::MAX,
            count == leaf_elements(values@, i as nat),
        decreases keys.len() - i,
    {
        assert(keys@.to_set().contains(keys@[i as int]));
        proof {
            lemma_leaf_elements_mono(values@, (i + 1) as nat, keys@.len());
        }
        match leaves::look_up(values, keys[i]) {
            Some(v) => {
                count = count + v.len();
            },
            None => {
                assert(false);
            },
        }
        i += 1;
    }
    proof_bytes.len() + count * f
}

/// Size in bytes of a list of openings.
fn openings_bytes<F: Field>(ops: &Vec<RoundOpening<F>>) -> (r: usize)
    requires
        openings_size(ops@, ops@.len()) <= usize::MAX,
    ensures
        r == openings_size(ops@, ops@.len()),
{
    let mut s: usize = 0;
    let mut i: usize = 0;
    while i < ops.len()
        invariant
            i <= ops.len(),
            openings_size(ops@, ops@.len()) <= usize::MAX,
            s == openings_size(ops@, i as nat),
        decreases ops.len() - i,
    {
        proof {
            lemma_openings_size_mono(ops@, (i + 1) as nat, ops@.len());
        }
        s = s + opening_bytes(&ops[i].proof_bytes, &ops[i].values);
        i += 1;
    }
    s
}

impl<LF: Field, EF: Field> BasefoldProof<LF, EF> {
    /// The claimed value of the polynomial at the opening point.
    pub fn claimed_eval(&self) -> (r: EF)
        ensures
            r == self.claimed_eval,
    {
        self.claimed_eval
    }

    /// Size of the proof in bytes: round messages, roots, final codeword, openings
    /// and the claimed value.
    pub open spec fn byte_count(self) -> nat {
        self.reduction_msgs@.len() * 2 * EF::byte_size() + self.fold_roots@.len() * 32
            + self.final_codeword@.len() * EF::byte_size() + EF::byte_size() + opening_size(
            self.base_opening.proof_bytes@,
            self.base_opening.values@,
        ) + openings_size(self.fold_openings@, self.fold_openings@.len())
    }

    pub fn size_bytes(&self) -> (r: usize)
        requires
            self.byte_count() <= usize::MAX,
        ensures
            r == self.byte_count(),
    {
        let ef: usize = EF::size();
        proof {
            let a = self.reduction_msgs@.len();
            assert(a * 2 <= a * 2 * ef) by (nonlinear_arith)
                requires
                    ef >= 1,
            ;
            assert(0 <= self.final_codeword@.len() * ef) by (nonlinear_arith);
        }
        let s: usize = self.reduction_msgs.len() * 2 * ef + self.fold_roots.len() * 32
            + self.final_codeword.len() * ef + ef;
        s + opening_bytes(&self.base_opening.proof_bytes, &self.base_opening.values)
            + openings_bytes(&self.fold_openings)
    }
}

/// The claim left after the reduction rounds, or `None` if a line does not agree
/// with the claim before it.
pub open spec fn reduction_chain(
    y: GoldilocksExt2,
    msgs: Seq<(GoldilocksExt2, GoldilocksExt2)>,
    zp: Seq<GoldilocksExt2>,
    ch: Seq<GoldilocksExt2>,
) -> Option<GoldilocksExt2>
    decreases ch.len(),
{
    if ch.len() == 0 {
        Some(y)
    } else if gkr::mean(msgs[0].0, msgs[0].1, zp[0]) != y {
        None
    } else {
        reduction_chain(
            gkr::mean(msgs[0].0, msgs[0].1, ch[0]),
            msgs.drop_first(),
            zp.drop_first(),
            ch.drop_first(),
        )
    }
}

/// How many reduction messages agree with the claim before them.
pub open spec fn chain_passed(
    y: GoldilocksExt2,
    msgs: Seq<(GoldilocksExt2, GoldilocksExt2)>,
    zp: Seq<GoldilocksExt2>,
    ch: Seq<GoldilocksExt2>,
) -> nat
    decreases ch.len(),
{
    if ch.len() == 0 || gkr::mean(msgs[0].0, msgs[0].1, zp[0]) != y {
        0
    } else {
        1 + chain_passed(
            gkr::mean(msgs[0].0, msgs[0].1, ch[0]),
            msgs.drop_first(),
            zp.drop_first(),
            ch.drop_first(),
        )
    }
}

/// All messages agree just where a claim is left.
pub proof fn lemma_chain_passed(
    y: GoldilocksExt2,
    msgs: Seq<(GoldilocksExt2, GoldilocksExt2)>,
    zp: Seq<GoldilocksExt2>,
    ch: Seq<GoldilocksExt2>,
)
    ensures
        chain_passed(y, msgs, zp, ch) <= ch.len(),
        reduction_chain(y, msgs, zp, ch) is Some <==> chain_passed(y, msgs, zp, ch) == ch.len(),
    decreases ch.len(),
{
    if ch.len() > 0 && gkr::mean(msgs[0].0, msgs[0].1, zp[0]) == y {
        lemma_chain_passed(
            gkr::mean(msgs[0].0, msgs[0].1, ch[0]),
            msgs.drop_first(),
            zp.drop_first(),
            ch.drop_first(),
        );
    }
}

/// The first `n` folded levels open to their roots, for codewords of length `2^a`.
pub open spec fn folds_accepted(
    ops: Seq<RoundOpening<GoldilocksExt2>>,
    roots: Seq<Digest>,
    a: nat,
    n: int,
) -> bool {
    forall|k: int|
        0 <= k < n ==> fri::opening_accepted(
            (#[trigger] ops[k]).proof_bytes@,
            ops[k].values@,
            roots[k]@,
            pow2((a - k - 1) as nat) as usize,
        )
}

/// The honest line of round `k`: the values at 0 and 1 of the next variable, with
/// the earlier variables at the challenges and the later ones at the point.
pub open spec fn honest_line(
    m: Seq<GoldilocksExt2>,
    zp: Seq<GoldilocksExt2>,
    ch: Seq<GoldilocksExt2>,
    k: int,
) -> (GoldilocksExt2, GoldilocksExt2) {
    let cur = multilinear::fold_all(m, ch.take(k));
    (
        multilinear::mle(gkr::evens(cur), zp.skip(k + 1)),
        multilinear::mle(gkr::odds(cur), zp.skip(k + 1)),
    )
}

/// The level-0 values that the opened columns give.
pub open spec fn first_values<LF: LeafField>(
    values: Map<usize, Vec<LF>>,
    weights: Seq<GoldilocksExt2>,
) -> Map<usize, GoldilocksExt2> {
    Map::new(|p: usize| values.contains_key(p), |p: usize| compress_leaf(values[p]@, weights))
}

impl<LF: LeafField> BasefoldProof<LF, GoldilocksExt2> {
    /// Number of folding rounds.
    pub open spec fn rounds(self) -> nat {
        (self.num_vars - self.log_interleave) as nat
    }

    /// Logarithm of the codeword length.
    pub open spec fn log_len(self) -> nat {
        (self.num_vars - self.log_interleave + self.code_rate) as nat
    }

    /// The query indices for the given integer tape.
    pub open spec fn queries(self, ints: Seq<usize>) -> Seq<usize> {
        fri::query_indices(ints, pow2((self.log_len() - 1) as nat) as int)
    }

    /// The proof's parameters and the point agree.
    pub open spec fn fits(self, point: Seq<GoldilocksExt2>) -> bool {
        point.len() == self.num_vars && self.log_interleave <= self.num_vars
    }

    /// The claim left after the reduction rounds.
    pub open spec fn reduced(
        self,
        point: Seq<GoldilocksExt2>,
        ch: Seq<GoldilocksExt2>,
    ) -> Option<GoldilocksExt2> {
        reduction_chain(
            self.claimed_eval,
            self.reduction_msgs@,
            point.skip(self.log_interleave as int),
            ch,
        )
    }

    /// Number of challenges that verification reads: one for every reduction message up
    /// to the first that breaks the claim.
    pub open spec fn fields_read(
        self,
        point: Seq<GoldilocksExt2>,
        ch: Seq<GoldilocksExt2>,
    ) -> nat {
        if self.fits(point) {
            chain_passed(
                self.claimed_eval,
                self.reduction_msgs@,
                point.skip(self.log_interleave as int),
                ch,
            )
        } else {
            0
        }
    }

    /// Number of integers that verification reads: those of the queries, if no reduction
    /// message breaks the claim.
    pub open spec fn ints_read(
        self,
        point: Seq<GoldilocksExt2>,
        ch: Seq<GoldilocksExt2>,
    ) -> nat {
        if self.fits(point) && self.reduced(point, ch) is Some {
            fri::query_count(self.code_rate as nat)
        } else {
            0
        }
    }

    /// The columns open to the root.
    pub open spec fn base_accepted(self, root: Seq<u8>) -> bool {
        fri::opening_accepted(
            self.base_opening.proof_bytes@,
            self.base_opening.values@,
            root,
            pow2(self.log_len()) as usize,
        )
    }

    /// The proof has each part that verification comes to once the queries are drawn:
    /// whole digests for the columns; if they open to the root, a root, an opening and
    /// whole digests for every folded level whose predecessors open to theirs; and if all
    /// do, a value at every query position, no column longer than the weights, and a
    /// final codeword of full length.
    pub open spec fn complete(self, root: Seq<u8>, base: Seq<usize>) -> bool {
        let (ops, roots, a) = (self.fold_openings@, self.fold_roots@, self.log_len());
        &&& 0 < self.rounds()
        &&& 0 < self.code_rate
        &&& a <= 32
        &&& pow2(a) <= usize::MAX
        &&& self.base_opening.proof_bytes@.len() % 32 == 0
        &&& self.base_accepted(root) ==> forall|k: int|
            0 <= k < self.rounds() - 1 && folds_accepted(ops, roots, a, k) ==> {
                &&& k < ops.len()
                &&& k < roots.len()
                &&& (#[trigger] ops[k]).proof_bytes@.len() % 32 == 0
            }
        &&& self.base_accepted(root) && folds_accepted(ops, roots, a, self.rounds() - 1) ==> {
            &&& self.final_codeword@.len() >= pow2(self.code_rate as nat)
            &&& forall|p: usize| #[trigger]
                self.base_opening.values@.contains_key(p)
                    ==> self.base_opening.values@[p]@.len() <= pow2(self.log_interleave as nat)
            &&& forall|w: Seq<GoldilocksExt2>|
                fri::values_present(
                    #[trigger] first_values(self.base_opening.values@, w),
                    ops,
                    self.rounds(),
                    a,
                    base,
                )
        }
    }

    /// The verifier accepts.
    pub open spec fn accepted(
        self,
        root: Seq<u8>,
        point: Seq<GoldilocksExt2>,
        ch: Seq<GoldilocksExt2>,
        base: Seq<usize>,
    ) -> bool {
        let li = self.log_interleave as int;
        let a = self.log_len();
        let weights = multilinear::eq_table(point.take(li));
        &&& point.len() == self.num_vars
        &&& li <= self.num_vars
        &&& reduction_chain(self.claimed_eval, self.reduction_msgs@, point.skip(li), ch) == Some(
            self.final_codeword@[0],
        )
        &&& fri::opening_accepted(
            self.base_opening.proof_bytes@,
            self.base_opening.values@,
            root,
            pow2(a) as usize,
        )
        &&& forall|k: int|
            0 <= k < self.rounds() - 1 ==> fri::opening_accepted(
                (#[trigger] self.fold_openings@[k]).proof_bytes@,
                self.fold_openings@[k].values@,
                self.fold_roots@[k]@,
                pow2((a - k - 1) as nat) as usize,
            )
        &&& fri::queries_consistent(
            first_values(self.base_opening.values@, weights),
            self.fold_openings@,
            self.final_codeword@,
            ch,
            a,
            base,
        )
        &&& constant(self.final_codeword@)
    }
}

/// All entries are equal to the first.
pub open spec fn constant(s: Seq<GoldilocksExt2>) -> bool {
    forall|i: int| 0 <= i < s.len() ==> #[trigger] s[i] == s[0]
}

/// The columns of the codewords at the given positions, and the tree's proof for
/// them.
pub open spec fn columns_opened<LF: LeafField>(
    proof_bytes: Seq<u8>,
    values: Map<usize, Vec<LF>>,
    state: BasefoldProverState<LF, GoldilocksExt2>,
    base: Seq<usize>,
) -> bool {
    let positions = fri::opened_positions(base, pow2((state.log_len() - 1) as nat) as int);
    &&& proof_bytes == merkle::merkle_path(state.tree(), positions)
    &&& proof_bytes.len() % 32 == 0
    &&& fri::reveals(values, positions, |i: int| gkr::column(state.codewords(), i))
    &&& fri::opening_accepted(
        proof_bytes,
        values,
        state.root(),
        pow2(state.log_len()) as usize,
    )
}

/// The compressed first level of an opening at `point`.
pub open spec fn first_level<LF: LeafField>(
    state: BasefoldProverState<LF, GoldilocksExt2>,
    point: Seq<GoldilocksExt2>,
) -> Seq<GoldilocksExt2> {
    compressed(
        state.codewords(),
        multilinear::eq_table(point.take(state.interleave() as int)),
        pow2(state.log_len()),
    )
}

/// The polynomial with its first variables fixed to the point.
pub open spec fn residual<LF: LeafField>(
    state: BasefoldProverState<LF, GoldilocksExt2>,
    point: Seq<GoldilocksExt2>,
) -> Seq<GoldilocksExt2> {
    multilinear::fold_all(state.evals(), point.take(state.interleave() as int))
}

/// The proof is the honest one for `state` at `point`.
pub open spec fn honest_proof<LF: LeafField>(
    proof: BasefoldProof<LF, GoldilocksExt2>,
    state: BasefoldProverState<LF, GoldilocksExt2>,
    point: Seq<GoldilocksExt2>,
    ch: Seq<GoldilocksExt2>,
    base: Seq<usize>,
) -> bool {
    let li = state.interleave();
    let a = state.log_len();
    let v = first_level(state, point);
    &&& proof.num_vars == state.vars()
    &&& proof.code_rate == state.rate()
    &&& proof.log_interleave == li
    &&& proof.claimed_eval == multilinear::mle(state.evals(), point)
    &&& proof.reduction_msgs@ == Seq::new(
        ch.len(),
        |k: int| honest_line(residual(state, point), point.skip(li as int), ch, k),
    )
    &&& proof.final_codeword@ == fri::level(v, a, ch, ch.len())
    &&& merkle::digest_views(proof.fold_roots@) == fri::level_roots(v, a, ch)
    &&& proof.fold_openings@.len() == fri::level_roots(v, a, ch).len()
    &&& forall|k: int|
        0 <= k < proof.fold_openings@.len() ==> fri::level_opened(
            #[trigger] proof.fold_openings@[k],
            v,
            a,
            ch,
            base,
            (k + 1) as nat,
        )
    &&& columns_opened(
        proof.base_opening.proof_bytes@,
        proof.base_opening.values@,
        state,
        base,
    )
}

/// A weighted sum of polynomials evaluates to the weighted sum of their values.
pub proof fn lemma_eval_combination(
    chunks: Seq<Seq<GoldilocksExt2>>,
    w: Seq<GoldilocksExt2>,
    len: nat,
    m: nat,
    x: GoldilocksExt2,
)
    requires
        m <= chunks.len(),
        forall|j: int| 0 <= j < chunks.len() ==> (#[trigger] chunks[j]).len() == len,
    ensures
        polynomial::poly_eval(
            Seq::new(len, |k: int| algebra::sum(m, |j: int| w[j] * chunks[j][k])),
            x,
        ) == algebra::sum(m, |j: int| w[j] * polynomial::poly_eval(chunks[j], x)),
    decreases m,
{
    let s = Seq::new(len, |k: int| algebra::sum(m, |j: int| w[j] * chunks[j][k]));
    if m == 0 {
        lemma_eval_zero(s, x);
    } else {
        let i = (m - 1) as nat;
        lemma_eval_combination(chunks, w, len, i, x);
        let t = Seq::new(len, |k: int| algebra::sum(i, |j: int| w[j] * chunks[j][k]));
        let last = polynomial::coef_scale(w[i as int], chunks[i as int]);
        assert(chunks[i as int].len() == len);
        assert(s =~= polynomial::coef_add(t, last));
        polynomial::eval_add(t, last, x);
        polynomial::eval_scale(w[i as int], chunks[i as int], x);
    }
}

proof fn lemma_eval_zero(s: Seq<GoldilocksExt2>, x: GoldilocksExt2)
    requires
        forall|k: int| 0 <= k < s.len() ==> #[trigger] s[k] == GoldilocksExt2::zero(),
    ensures
        polynomial::poly_eval(s, x) == GoldilocksExt2::zero(),
    decreases s.len(),
{
    if s.len() > 0 {
        lemma_eval_zero(s.drop_first(), x);
        algebra::mul_zero(x);
        GoldilocksExt2::law_valid(x, x);
        GoldilocksExt2::law_add_zero(GoldilocksExt2::zero());
    }
}

/// The compressed codewords encode the polynomial with its first variables fixed.
pub proof fn lemma_first_level<LF: LeafField>(
    state: BasefoldProverState<LF, GoldilocksExt2>,
    point: Seq<GoldilocksExt2>,
)
    requires
        state.wf(),
        point.len() == state.vars(),
    ensures
        first_level(state, point) == fri::encoding(residual(state, point), state.log_len()),
        residual(state, point).len() == pow2(state.rounds()),
        algebra::all_valid(residual(state, point)),
{
    let (n, li, a) = (state.vars(), state.interleave(), state.log_len());
    let p = point.take(li as int);
    let w = multilinear::eq_table(p);
    let s = state.evals();
    let r = residual(state, point);
    let b = pow2(li);
    multilinear::lemma_eq_table_len(p);
    multilinear::lemma_fold_all_len(s, p, n);
    multilinear::lemma_fold_all_valid(s, p);
    multilinear::lemma_pow2_mono(li, n);
    let len = r.len();
    vstd::arithmetic::power2::lemma_pow2_adds(li, (n - li) as nat);
    assert(li + (n - li) as nat == n);
    assert(s.len() / b == len) by {
        vstd::arithmetic::div_mod::lemma_div_multiples_vanish(len as int, b as int);
        assert(b * len == s.len());
    }
    let chunks = Seq::new(b, |j: int| chunk(s, li, j));
    // each entry of the residual is the weighted sum over the chunks
    assert(r =~= Seq::new(len, |k: int| algebra::sum(b, |j: int| w[j] * chunks[j][k]))) by {
        assert forall|k: int| 0 <= k < len implies #[trigger] r[k] == algebra::sum(
            b,
            |j: int| w[j] * chunks[j][k],
        ) by {
            multilinear::lemma_fold_block(s, p, n, k);
            let block = s.subrange(k * b, (k + 1) * b);
            assert((k + 1) * b - k * b == b) by (nonlinear_arith);
            assert forall|j: int| 0 <= j < block.len() implies (#[trigger] block[j]).valid() by {
                assert(s[k * b + j].valid());
            }
            multilinear::lemma_mle_sum(block, p);
            let f = |j: int| block[j] * w[j];
            let g = |j: int| w[j] * chunks[j][k];
            assert forall|j: int| 0 <= j < b implies #[trigger] f(j) == g(j) by {
                assert(block[j] == s[k * b + j]);
                assert(chunks[j][k] == s[k * b + j]);
                GoldilocksExt2::law_mul_comm(block[j], w[j]);
            }
            algebra::sum_ext(b, f, g);
        }
    }
    let v = first_level(state, point);
    let e = fri::encoding(r, a);
    assert forall|i: int| 0 <= i < pow2(a) implies #[trigger] v[i] == e[i] by {
        let x = domain::domain_point(a, i as nat);
        assert forall|j: int| 0 <= j < chunks.len() implies (#[trigger] chunks[j]).len() == len by {
        }
        lemma_eval_combination(chunks, w, len, b, x);
        let col = gkr::column(state.codewords(), i);
        let f = |j: int| w[j] * col[j].lift();
        let g = |j: int| w[j] * polynomial::poly_eval(chunks[j], x);
        assert forall|j: int| 0 <= j < b implies #[trigger] f(j) == g(j) by {
            assert(state.codewords()[j][i].lift() == fri::encoding(chunk(s, li, j), a)[i]);
        }
        algebra::sum_ext(b, f, g);
    }
    assert(v =~= e);
}

/// The honest lines pass the reduction and end in the value at the challenges.
pub proof fn lemma_reduction_complete(
    m: Seq<GoldilocksExt2>,
    zp: Seq<GoldilocksExt2>,
    ch: Seq<GoldilocksExt2>,
    msgs: Seq<(GoldilocksExt2, GoldilocksExt2)>,
)
    requires
        m.len() == pow2(zp.len()),
        algebra::all_valid(m),
        ch.len() == zp.len(),
        msgs == Seq::new(ch.len(), |k: int| honest_line(m, zp, ch, k)),
    ensures
        reduction_chain(multilinear::mle(m, zp), msgs, zp, ch) == Some(multilinear::mle(m, ch)),
    decreases ch.len(),
{
    if ch.len() == 0 {
        assert(zp =~= ch);
    } else {
        let rest = zp.drop_first();
        let r = ch[0];
        let next = multilinear::fold_low(m, r);
        multilinear::lemma_pow2_step(zp.len());
        multilinear::lemma_fold_low_valid(m, r);
        assert(ch.take(0) =~= Seq::<GoldilocksExt2>::empty());
        assert(zp.skip(1) =~= rest);
        assert(msgs[0] == honest_line(m, zp, ch, 0));
        gkr::lemma_split_mean(m, zp[0], rest);
        assert(seq![zp[0]] + rest =~= zp);
        gkr::lemma_split_mean(m, r, rest);
        assert((seq![r] + rest).drop_first() =~= rest);
        let cr = ch.drop_first();
        let tail = Seq::new(cr.len(), |k: int| honest_line(next, rest, cr, k));
        assert(msgs.drop_first() =~= tail) by {
            assert forall|k: int| 0 <= k < cr.len() implies #[trigger] msgs.drop_first()[k]
                == tail[k] by {
                assert(ch.take(k + 1).drop_first() =~= cr.take(k));
                assert(ch.take(k + 1)[0] == r);
                assert(multilinear::fold_all(m, ch.take(k + 1)) == multilinear::fold_all(
                    next,
                    cr.take(k),
                ));
                assert(zp.skip(k + 2) =~= rest.skip(k + 1));
                assert(msgs[k + 1] == honest_line(m, zp, ch, k + 1));
            }
        }
        lemma_reduction_complete(next, rest, cr, tail);
    }
}

/// The opened columns compress to the first level.
proof fn lemma_first_values<LF: LeafField>(
    values: Map<usize, Vec<LF>>,
    state: BasefoldProverState<LF, GoldilocksExt2>,
    w: Seq<GoldilocksExt2>,
    base: Seq<usize>,
)
    requires
        state.wf(),
        state.log_len() > 0,
        fri::reveals(
            values,
            fri::opened_positions(base, pow2((state.log_len() - 1) as nat) as int),
            |i: int| gkr::column(state.codewords(), i),
        ),
    ensures
        first_values(values, w).dom() == fri::opened_positions(
            base,
            pow2((state.log_len() - 1) as nat) as int,
        ).to_set(),
        forall|p: usize| #[trigger]
            first_values(values, w).contains_key(p) ==> first_values(values, w)[p] == compressed(
                state.codewords(),
                w,
                pow2(state.log_len()),
            )[p as int],
{
    let f = first_values(values, w);
    let half = pow2((state.log_len() - 1) as nat) as int;
    let positions = fri::opened_positions(base, half);
    multilinear::lemma_pow2_step(state.log_len());
    fri::lemma_opened_positions(base, half);
    assert(f.dom() =~= positions.to_set());
    assert forall|p: usize| #[trigger] f.contains_key(p) implies f[p] == compressed(
        state.codewords(),
        w,
        pow2(state.log_len()),
    )[p as int] by {
        assert(values.contains_key(p));
        assert(positions.to_set().contains(p));
        let i = choose|i: int| 0 <= i < positions.len() && positions[i] == p;
        assert(positions[i] < 2 * half);
    }
}

/// Completeness: the honest proof is complete and accepted under the committed
/// root, and claims the polynomial's value.
pub proof fn law_complete<LF: LeafField>(
    proof: BasefoldProof<LF, GoldilocksExt2>,
    state: BasefoldProverState<LF, GoldilocksExt2>,
    point: Seq<GoldilocksExt2>,
    ch: Seq<GoldilocksExt2>,
    base: Seq<usize>,
)
    requires
        state.wf(),
        point.len() == state.vars(),
        state.rounds() > 0,
        state.rate() > 0,
        ch.len() == state.rounds(),
        honest_proof(proof, state, point, ch, base),
    ensures
        proof.complete(state.root(), base),
        proof.accepted(state.root(), point, ch, base),
        proof.claimed_eval == multilinear::mle(state.evals(), point),
{
    let (n, li, a) = (state.vars(), state.interleave(), state.log_len());
    let v = first_level(state, point);
    let m = residual(state, point);
    let p = point.take(li as int);
    let zp = point.skip(li as int);
    let values = proof.base_opening.values@;
    lemma_first_level(state, point);
    multilinear::lemma_pow2_mono(li, n);
    let roots = fri::level_roots(v, a, ch);
    assert(proof.fold_roots@.len() == roots.len()) by {
        assert(merkle::digest_views(proof.fold_roots@).len() == proof.fold_roots@.len());
    }
    // the claim
    multilinear::lemma_fold_all_concat(state.evals(), p, zp);
    assert(p + zp =~= point);
    lemma_reduction_complete(m, zp, ch, proof.reduction_msgs@);
    // the final codeword
    fri::lemma_level_len(v, a, ch, ch.len());
    assert((a - ch.len()) as nat == state.rate());
    multilinear::lemma_pow2_mono(0, state.rate());
    assert forall|i: int| 0 <= i < pow2(state.rate()) implies #[trigger] proof.final_codeword@[i]
        == multilinear::mle(m, ch) by {
        fri::lemma_final_constant(m, ch.len(), a, ch, i);
    }
    // the queries
    assert forall|w: Seq<GoldilocksExt2>|
        fri::values_present(
            #[trigger] first_values(values, w),
            proof.fold_openings@,
            proof.rounds(),
            proof.log_len(),
            base,
        ) by {
        lemma_first_values(values, state, w, base);
        lemma_present(values, proof.fold_openings@, v, ch, a, base, w);
    }
    let w = multilinear::eq_table(p);
    lemma_first_values(values, state, w, base);
    fri::lemma_honest_queries(
        first_values(values, w),
        proof.fold_openings@,
        v,
        ch,
        a,
        base,
    );
    // the openings
    assert forall|k: int| 0 <= k < proof.rounds() - 1 implies fri::opening_accepted(
        (#[trigger] proof.fold_openings@[k]).proof_bytes@,
        proof.fold_openings@[k].values@,
        proof.fold_roots@[k]@,
        pow2((a - k - 1) as nat) as usize,
    ) && proof.fold_openings@[k].proof_bytes@.len() % 32 == 0 by {
        assert(fri::level_opened(proof.fold_openings@[k], v, a, ch, base, (k + 1) as nat));
        assert(merkle::digest_views(proof.fold_roots@)[k] == proof.fold_roots@[k]@);
        assert((a - (k + 1)) as nat == (a - k - 1) as nat);
    }
    assert forall|q: usize| #[trigger] values.contains_key(q) implies values[q]@.len() <= pow2(
        proof.log_interleave as nat,
    ) by {
        let source = |i: int| gkr::column(state.codewords(), i);
        assert(values[q]@ == source(q as int));
    }
}

proof fn lemma_present<LF: LeafField>(
    values: Map<usize, Vec<LF>>,
    folded: Seq<RoundOpening<GoldilocksExt2>>,
    v: Seq<GoldilocksExt2>,
    ch: Seq<GoldilocksExt2>,
    a: nat,
    base: Seq<usize>,
    w: Seq<GoldilocksExt2>,
)
    requires
        a <= 32,
        0 < ch.len() < a,
        pow2(a) <= usize::MAX,
        v.len() == pow2(a),
        first_values(values, w).dom() == fri::opened_positions(
            base,
            pow2((a - 1) as nat) as int,
        ).to_set(),
        folded.len() + 1 == ch.len(),
        forall|k: int|
            0 <= k < folded.len() ==> fri::level_opened(
                #[trigger] folded[k],
                v,
                a,
                ch,
                base,
                (k + 1) as nat,
            ),
    ensures
        fri::values_present(first_values(values, w), folded, ch.len(), a, base),
{
    let first = first_values(values, w);
    let g = Map::new(|p: usize| first.contains_key(p), |p: usize| v[p as int]);
    assert(g.dom() =~= first.dom());
    fri::lemma_honest_queries(g, folded, v, ch, a, base);
    assert forall|p: usize|
        fri::opened_positions(base, pow2((a - 1) as nat) as int).contains(
            p,
        ) implies #[trigger] first.contains_key(p) by {
        assert(g.contains_key(p));
    }
}

/// The columns' digests.
fn hash_columns<LF: LeafField>(codes: &Vec<Vec<LF>>, len: usize) -> (r: Vec<Digest>)
    requires
        forall|j: int| 0 <= j < codes@.len() ==> (#[trigger] codes@[j])@.len() == len,
    ensures
        merkle::digest_views(r@) == column_digests(views::nested(codes@), len as nat),
{
    let ghost vs = views::nested(codes@);
    let mut hashes: Vec<Digest> = Vec::new();
    let mut i: usize = 0;
    while i < len
        invariant
            i <= len,
            vs == views::nested(codes@),
            forall|j: int| 0 <= j < codes@.len() ==> (#[trigger] codes@[j])@.len() == len,
            hashes@.len() == i,
            forall|k: int|
                0 <= k < i ==> (#[trigger] hashes@[k])@ == merkle::blake3_digest(
                    merkle::fields_bytes(gkr::column(vs, k)),
                ),
        decreases len - i,
    {
        let col = read_column(codes, i);
        let bytes = Serialize::serialize_fields(col.as_slice());
        hashes.push(merkle::hash_leaf(bytes.as_slice()));
        i += 1;
    }
    assert(merkle::digest_views(hashes@) =~= column_digests(vs, len as nat));
    hashes
}

/// One column of the codewords.
fn read_column<LF: LeafField>(codes: &Vec<Vec<LF>>, i: usize) -> (r: Vec<LF>)
    requires
        forall|j: int| 0 <= j < codes@.len() ==> i < (#[trigger] codes@[j])@.len(),
    ensures
        r@ == gkr::column(views::nested(codes@), i as int),
{
    let mut col: Vec<LF> = Vec::new();
    let mut j: usize = 0;
    let ghost vs = views::nested(codes@);
    while j < codes.len()
        invariant
            j <= codes.len(),
            vs == views::nested(codes@),
            forall|j: int| 0 <= j < codes@.len() ==> i < (#[trigger] codes@[j])@.len(),
            col@ == Seq::new(j as nat, |k: int| vs[k][i as int]),
        decreases codes.len() - j,
    {
        assert(i < codes@[j as int]@.len());
        col.push(codes[j][i]);
        assert(col@ =~= Seq::new((j + 1) as nat, |k: int| vs[k][i as int]));
        j += 1;
    }
    assert(col@ =~= gkr::column(vs, i as int));
    col
}

/// One column compressed with the given weights.
pub fn compress<LF: LeafField>(leaf: &Vec<LF>, weights: &Vec<GoldilocksExt2>) -> (r: GoldilocksExt2)
    requires
        leaf@.len() <= weights@.len(),
    ensures
        r == compress_leaf(leaf@, weights@),
{
    let mut acc = GoldilocksExt2::new_zero();
    let mut j: usize = 0;
    let ghost f = |j: int| weights@[j] * leaf@[j].lift();
    while j < leaf.len()
        invariant
            j <= leaf.len(),
            leaf@.len() <= weights@.len(),
            f == (|j: int| weights@[j] * leaf@[j].lift()),
            acc == algebra::sum(j as nat, f),
        decreases leaf.len() - j,
    {
        acc = acc.add(weights[j].mul(leaf[j].to_ext()));
        j += 1;
    }
    acc
}

/// The codewords compressed with the given weights.
fn compress_codes<LF: LeafField>(
    codes: &Vec<Vec<LF>>,
    weights: &Vec<GoldilocksExt2>,
    len: usize,
) -> (r: Vec<GoldilocksExt2>)
    requires
        codes@.len() <= weights@.len(),
        forall|j: int| 0 <= j < codes@.len() ==> (#[trigger] codes@[j])@.len() == len,
    ensures
        r@ == compressed(views::nested(codes@), weights@, len as nat),
{
    let ghost vs = views::nested(codes@);
    let mut r: Vec<GoldilocksExt2> = Vec::new();
    let mut i: usize = 0;
    while i < len
        invariant
            i <= len,
            vs == views::nested(codes@),
            codes@.len() <= weights@.len(),
            forall|j: int| 0 <= j < codes@.len() ==> (#[trigger] codes@[j])@.len() == len,
            r@ == Seq::new(i as nat, |k: int| compress_leaf(gkr::column(vs, k), weights@)),
        decreases len - i,
    {
        let col = read_column(codes, i);
        r.push(compress(&col, weights));
        assert(r@ =~= Seq::new((i + 1) as nat, |k: int| compress_leaf(gkr::column(vs, k), weights@)));
        i += 1;
    }
    r
}

/// The level-0 values that the opened columns give.
fn compress_opened<LF: LeafField>(
    values: &BTreeMap<usize, Vec<LF>>,
    weights: &Vec<GoldilocksExt2>,
) -> (r: BTreeMap<usize, GoldilocksExt2>)
    requires
        forall|p: usize| #[trigger] values@.contains_key(p) ==> values@[p]@.len() <= weights@.len(),
    ensures
        r@ == first_values(values@, weights@),
{
    let keys = leaves::positions(values);
    let mut r: BTreeMap<usize, GoldilocksExt2> = BTreeMap::new();
    let mut i: usize = 0;
    let ghost want = first_values(values@, weights@);
    assert(r@.dom() =~= keys@.take(0).to_set());
    while i < keys.len()
        invariant
            i <= keys.len(),
            keys@.to_set() == values@.dom(),
            want == first_values(values@, weights@),
            forall|p: usize| #[trigger]
                values@.contains_key(p) ==> values@[p]@.len() <= weights@.len(),
            r@.dom() == keys@.take(i as int).to_set(),
            forall|p: usize| #[trigger] r@.contains_key(p) ==> r@[p] == want[p],
        decreases keys.len() - i,
    {
        let p: usize = keys[i];
        assert(keys@.to_set().contains(p));
        match leaves::look_up(values, p) {
            Some(leaf) => {
                let c = compress(leaf, weights);
                let ghost before = r@;
                leaves::put(&mut r, p, c);
                proof {
                    fri::lemma_set_push(keys@, i as int);
                    assert(r@.dom() =~= before.dom().insert(p));
                    assert(want.contains_key(p));
                }
            },
            None => {
                assert(false);
            },
        }
        i += 1;
    }
    assert(keys@.take(keys@.len() as int) =~= keys@);
    assert(r@ =~= want);
    r
}

/// Opens the columns at the query positions.
fn open_columns<LF: LeafField>(
    state: &BasefoldProverState<LF, GoldilocksExt2>,
    base: &Vec<usize>,
) -> (r: RoundOpening<LF>)
    requires
        state.wf(),
        state.rate() > 0,
        base@.len() > 0,
    ensures
        columns_opened(r.proof_bytes@, r.values@, *state, base@),
{
    let a: usize = state.num_vars - state.log_interleave + state.code_rate;
    let ghost codes = state.codewords();
    proof {
        multilinear::lemma_pow2_step(a as nat);
        multilinear::lemma_pow2_mono((a - 1) as nat, a as nat);
    }
    let half: usize = domain::two_power(a - 1);
    let positions = fri::level_positions(base, half);
    proof {
        fri::lemma_opened_positions(base@, half as int);
    }
    let proof_bytes = state.mt_prover.open(positions.as_slice());
    let mut values: BTreeMap<usize, Vec<LF>> = BTreeMap::new();
    let ghost source = |i: int| gkr::column(codes, i);
    let mut i: usize = 0;
    assert(values@.dom() =~= positions@.take(0).to_set());
    while i < positions.len()
        invariant
            i <= positions.len(),
            state.wf(),
            codes == state.codewords(),
            codes == views::nested(state.codes@),
            source == (|i: int| gkr::column(codes, i)),
            leaves::below(positions@, pow2(state.log_len()) as int),
            fri::reveals(values@, positions@.take(i as int), source),
        decreases positions.len() - i,
    {
        let p: usize = positions[i];
        assert(positions@[i as int] < pow2(state.log_len()));
        assert forall|j: int| 0 <= j < state.codes@.len() implies p < (#[trigger] state.codes@[j])@.len()
            by {
            assert(codes[j].len() == pow2(state.log_len()));
        }
        let col = read_column(&state.codes, p);
        let ghost before = values@;
        leaves::put(&mut values, p, col);
        proof {
            fri::lemma_set_push(positions@, i as int);
            assert(values@.dom() =~= before.dom().insert(p));
        }
        i += 1;
    }
    assert(positions@.take(positions@.len() as int) =~= positions@);
    proof {
        let total = pow2(a as nat) as usize;
        assert(state.tree().len() == total);
        fri::lemma_opening_accepted(
            proof_bytes@,
            values@,
            positions@,
            source,
            state.tree(),
            total,
        );
    }
    RoundOpening { proof_bytes, values }
}

/// The line of one reduction round.
fn reduction_line(
    m: &Vec<GoldilocksExt2>,
    zp: &Vec<GoldilocksExt2>,
    k: usize,
) -> (r: (GoldilocksExt2, GoldilocksExt2))
    requires
        k < zp@.len(),
        m@.len() == pow2((zp@.len() - k) as nat),
    ensures
        r.0 == multilinear::mle(gkr::evens(m@), zp@.skip(k + 1)),
        r.1 == multilinear::mle(gkr::odds(m@), zp@.skip(k + 1)),
{
    let m0 = gkr::even_entries(m.as_slice());
    let m1 = gkr::odd_entries(m.as_slice());
    assert(zp.len() == zp@.len());
    let rest = vstd::slice::slice_subrange(zp.as_slice(), k + 1, zp.len());
    proof {
        multilinear::lemma_pow2_step((zp@.len() - k) as nat);
        assert(rest@ =~= zp@.skip(k + 1));
    }
    let l0 = MlPoly(m0).eval(rest);
    let l1 = MlPoly(m1).eval(rest);
    (l0, l1)
}

/// The first `n` coordinates.
pub fn first_coordinates(point: &Vec<GoldilocksExt2>, n: usize) -> (r: Vec<GoldilocksExt2>)
    requires
        n <= point@.len(),
    ensures
        r@ == point@.take(n as int),
{
    let r = poly::copy_slice(vstd::slice::slice_subrange(point.as_slice(), 0, n));
    assert(r@ =~= point@.take(n as int));
    r
}

/// The coordinates from `n` on.
pub fn last_coordinates(point: &Vec<GoldilocksExt2>, n: usize) -> (r: Vec<GoldilocksExt2>)
    requires
        n <= point@.len(),
    ensures
        r@ == point@.skip(n as int),
{
    let r = poly::copy_slice(vstd::slice::slice_subrange(point.as_slice(), n, point.len()));
    assert(r@ =~= point@.skip(n as int));
    r
}

impl Basefold<Goldilocks, GoldilocksExt2> {
    pub fn new() -> (r: Self) {
        Basefold { marker: PhantomData }
    }

    /// Commits to codewords: hashes their columns and builds the tree.
    fn to_commit<LF: LeafField>(
        codes: Vec<Vec<LF>>,
        poly: MlPoly<GoldilocksExt2>,
        num_vars: usize,
        code_rate: usize,
        log_interleave: usize,
    ) -> (r: (BasefoldProverState<LF, GoldilocksExt2>, BasefoldCommit))
        requires
            codes@.len() > 0,
            codes@[0]@.len() > 0,
            forall|j: int|
                0 <= j < codes@.len() ==> (#[trigger] codes@[j])@.len() == codes@[0]@.len(),
        ensures
            r.0.codewords() == views::nested(codes@),
            r.0.evals() == poly.0@,
            r.0.vars() == num_vars,
            r.0.rate() == code_rate,
            r.0.interleave() == log_interleave,
            r.0.tree_wf(),
            r.0.tree() == column_digests(views::nested(codes@), codes@[0]@.len()),
            r.1.0@ == r.0.root(),
    {
        let code_length: usize = codes[0].len();
        let leaf_hashes = hash_columns(&codes, code_length);
        let mt_prover = MerkleTreeProver::from_leaf_hashes(leaf_hashes);
        let commit = mt_prover.commit();
        (
            BasefoldProverState { codes, mt_prover, poly, num_vars, code_rate, log_interleave },
            BasefoldCommit(commit),
        )
    }

    /// Commits to a polynomial in the leaf field, split into `2^log_interleave`
    /// interleaved chunks that are encoded at rate `2^-code_rate`.
    fn commit_on_domain<LF: LeafField>(
        poly: MlPoly<LF>,
        code_rate: usize,
        log_interleave: usize,
    ) -> (r: (BasefoldProverState<LF, GoldilocksExt2>, BasefoldCommit))
        requires
            committable(poly.0@.len(), code_rate as nat, log_interleave as nat),
        ensures
            committed(r.0, r.1, poly.0@, code_rate as nat, log_interleave as nat),
    {
        let ghost s = poly.0@;
        let ghost n = poly::exponent(s.len() as int);
        let ghost li = log_interleave as nat;
        let num_vars: usize = sumcheck::log2_exact(poly.0.len());
        proof {
            poly::lemma_exponent(num_vars as nat);
            sumcheck::lemma_exponent_small(n);
            multilinear::lemma_pow2_mono((n - li) as nat, n);
            multilinear::lemma_pow2_mono(li, n);
            vstd::arithmetic::power2::lemma_pow2_adds(li, (n - li) as nat);
            assert(li + (n - li) as nat == n);
            let (b, m) = (pow2(li) as int, pow2((n - li) as nat) as int);
            assert(b * m == m * b) by (nonlinear_arith);
            vstd::arithmetic::div_mod::lemma_div_multiples_vanish(b, m);
            vstd::arithmetic::div_mod::lemma_div_multiples_vanish(m, b);
            vstd::arithmetic::div_mod::lemma_mod_multiples_basic(m, b);
            poly::lemma_exponent((n - li) as nat);
        }
        let rows: usize = domain::two_power(num_vars - log_interleave);
        let polies = poly.split(rows);
        let a: usize = num_vars - log_interleave + code_rate;
        proof {
            multilinear::lemma_pow2_mono((n - li) as nat, a as nat);
        }
        let mut codes: Vec<Vec<LF>> = Vec::new();
        let mut j: usize = 0;
        while j < polies.len()
            invariant
                j <= polies.len(),
                s == poly.0@,
                li <= n,
                polies@.len() == pow2(li),
                a == n - li + code_rate,
                a <= 32,
                pow2(a as nat) <= usize::MAX,
                pow2((n - li) as nat) <= pow2(a as nat),
                s.len() / pow2(li) == pow2((n - li) as nat),
                forall|k: int|
                    0 <= k < polies@.len() ==> (#[trigger] polies@[k]).0@ == chunk(s, li, k),
                codes@.len() == j,
                forall|k: int|
                    0 <= k < j ==> (#[trigger] codes@[k])@ == domain::codeword(
                        chunk(s, li, k),
                        a as nat,
                    ),
            decreases polies.len() - j,
        {
            let code = domain::rs_encode(&polies[j].0, a);
            codes.push(code);
            j += 1;
        }
        let mut lifted: Vec<GoldilocksExt2> = Vec::new();
        let mut i: usize = 0;
        while i < poly.0.len()
            invariant
                i <= poly.0.len(),
                s == poly.0@,
                lifted@.len() == i,
                forall|k: int| 0 <= k < i ==> #[trigger] lifted@[k] == s[k].lift(),
                forall|k: int| 0 <= k < i ==> (#[trigger] lifted@[k]).valid(),
            decreases poly.0.len() - i,
        {
            lifted.push(poly.0[i].to_ext());
            i += 1;
        }
        assert(lifted@ =~= domain::lift_all(s));
        proof {
            multilinear::lemma_pow2_mono(0, a as nat);
            multilinear::lemma_pow2_zero();
        }
        let r = Self::to_commit(codes, MlPoly(lifted), num_vars, code_rate, log_interleave);
        proof {
            let st = r.0;
            let e = st.evals();
            assert forall|j: int, i: int|
                0 <= j < st.codewords().len() && 0 <= i < pow2(
                    st.log_len(),
                ) implies (#[trigger] st.codewords()[j][i]).lift() == fri::encoding(
                chunk(e, li, j),
                st.log_len(),
            )[i] by {
                let c = chunk(s, li, j);
                assert(st.codewords()[j] == domain::codeword(c, a as nat));
                domain::lemma_lift_codeword(c, a as nat, i);
                assert(domain::lift_all(c) =~= chunk(e, li, j)) by {
                    assert forall|k: int| 0 <= k < c.len() implies #[trigger] c[k].lift() == chunk(
                        e,
                        li,
                        j,
                    )[k] by {
                        let b = pow2(li) as int;
                        assert(k * b + j < s.len() && k * b + j >= 0) by (nonlinear_arith)
                            requires
                                0 <= k < pow2((n - li) as nat),
                                0 <= j < b,
                                b * pow2((n - li) as nat) == s.len(),
                        ;
                    }
                }
            }
            assert(st.wf());
            assert(st.codewords() =~= Seq::new(
                pow2(li),
                |j: int| domain::codeword(chunk(s, li, j), st.log_len()),
            ));
        }
        r
    }

    /// Commits to a base field polynomial with the standard interleaving.
    pub fn commit_base(
        poly: MlPoly<Goldilocks>,
        code_rate: usize,
    ) -> (r: (BasefoldProverState<Goldilocks, GoldilocksExt2>, BasefoldCommit))
        requires
            committable(poly.0@.len(), code_rate as nat, LOG_INTERLEAVE as nat),
        ensures
            committed(r.0, r.1, poly.0@, code_rate as nat, LOG_INTERLEAVE as nat),
    {
        Self::commit_base_on_domain(poly, code_rate, LOG_INTERLEAVE)
    }

    /// Commits to several base field polynomials with the same parameters.
    pub fn batch_commit_base_on_domain(
        polies: Vec<MlPoly<Goldilocks>>,
        code_rate: usize,
        log_interleave: usize,
    ) -> (r: Vec<(BasefoldProverState<Goldilocks, GoldilocksExt2>, BasefoldCommit)>)
        requires
            forall|i: int|
                0 <= i < polies@.len() ==> committable(
                    (#[trigger] polies@[i]).0@.len(),
                    code_rate as nat,
                    log_interleave as nat,
                ),
        ensures
            r@.len() == polies@.len(),
            forall|i: int|
                0 <= i < r@.len() ==> committed(
                    (#[trigger] r@[i]).0,
                    r@[i].1,
                    polies@[i].0@,
                    code_rate as nat,
                    log_interleave as nat,
                ),
    {
        let mut r: Vec<(BasefoldProverState<Goldilocks, GoldilocksExt2>, BasefoldCommit)> =
            Vec::new();
        let mut i: usize = 0;
        while i < polies.len()
            invariant
                i <= polies.len(),
                forall|i: int|
                    0 <= i < polies@.len() ==> committable(
                        (#[trigger] polies@[i]).0@.len(),
                        code_rate as nat,
                        log_interleave as nat,
                    ),
                r@.len() == i,
                forall|k: int|
                    0 <= k < i ==> committed(
                        (#[trigger] r@[k]).0,
                        r@[k].1,
                        polies@[k].0@,
                        code_rate as nat,
                        log_interleave as nat,
                    ),
            decreases polies.len() - i,
        {
            let p = MlPoly(poly::copy_slice(polies[i].0.as_slice()));
            r.push(Self::commit_base_on_domain(p, code_rate, log_interleave));
            i += 1;
        }
        r
    }

    /// Commits to an extension field polynomial with the standard interleaving.
    pub fn commit_ext(
        poly: MlPoly<GoldilocksExt2>,
        code_rate: usize,
    ) -> (r: (BasefoldProverState<GoldilocksExt2, GoldilocksExt2>, BasefoldCommit))
        requires
            committable(poly.0@.len(), code_rate as nat, LOG_INTERLEAVE as nat),
        ensures
            committed(r.0, r.1, poly.0@, code_rate as nat, LOG_INTERLEAVE as nat),
    {
        Self::commit_ext_on_domain(poly, code_rate, LOG_INTERLEAVE)
    }

    /// Commits to a base field polynomial split into `2^log_interleave` chunks.
    /// Polynomials with the same `num_vars - log_interleave` share their domain.
    pub fn commit_base_on_domain(
        poly: MlPoly<Goldilocks>,
        code_rate: usize,
        log_interleave: usize,
    ) -> (r: (BasefoldProverState<Goldilocks, GoldilocksExt2>, BasefoldCommit))
        requires
            committable(poly.0@.len(), code_rate as nat, log_interleave as nat),
        ensures
            committed(r.0, r.1, poly.0@, code_rate as nat, log_interleave as nat),
    {
        Self::commit_on_domain(poly, code_rate, log_interleave)
    }

    /// Commits to an extension field polynomial split into `2^log_interleave`
    /// chunks.
    pub fn commit_ext_on_domain(
        poly: MlPoly<GoldilocksExt2>,
        code_rate: usize,
        log_interleave: usize,
    ) -> (r: (BasefoldProverState<GoldilocksExt2, GoldilocksExt2>, BasefoldCommit))
        requires
            committable(poly.0@.len(), code_rate as nat, log_interleave as nat),
        ensures
            committed(r.0, r.1, poly.0@, code_rate as nat, log_interleave as nat),
    {
        Self::commit_on_domain(poly, code_rate, log_interleave)
    }

    /// Opens a commitment at a point.
    pub fn prove<LF: LeafField>(
        state: &BasefoldProverState<LF, GoldilocksExt2>,
        point: Vec<GoldilocksExt2>,
        oracle: &mut RandomOracle<GoldilocksExt2>,
    ) -> (proof: BasefoldProof<LF, GoldilocksExt2>)
        requires
            state.wf(),
            point@.len() == state.vars(),
            state.rate() > 0,
            old(oracle).has_fields(state.rounds() as int),
            old(oracle).has_ints(fri::query_count(state.rate()) as int),
        ensures
            honest_proof(
                proof,
                *state,
                point@,
                old(oracle).upcoming(state.rounds()),
                fri::query_indices(
                    old(oracle).upcoming_ints(fri::query_count(state.rate())),
                    pow2((state.log_len() - 1) as nat) as int,
                ),
            ),
            final(oracle).wf(),
            old(oracle).advanced(
                *final(oracle),
                state.rounds() as int,
                fri::query_count(state.rate()) as int,
            ),
    {
        let n: usize = state.num_vars;
        let li: usize = state.log_interleave;
        let rounds: usize = n - li;
        let a: usize = rounds + state.code_rate;
        let ghost start = *oracle;
        let ghost codes = state.codewords();
        proof {
            multilinear::lemma_pow2_mono(li as nat, n as nat);
            assert(codes[0].len() == pow2(a as nat));
            lemma_first_level(*state, point@);
        }
        let claimed_eval = state.eval(point.as_slice());
        let head = first_coordinates(&point, li);
        let zp = last_coordinates(&point, li);
        let eq4 = MlPoly::new_eq(&head).0;
        proof {
            multilinear::lemma_eq_table_len(head@);
            assert forall|j: int| 0 <= j < state.codes@.len() implies (#[trigger] state.codes@[j])@.len()
                == pow2(a as nat) by {
                assert(codes[j].len() == pow2(a as nat));
            }
        }
        let l: usize = domain::two_power(a);
        let oracle0 = compress_codes(&state.codes, &eq4, l);
        let ghost v = first_level(*state, point@);
        assert(oracle0@ == v);
        let mut m = MlPoly(poly::copy_slice(state.poly.0.as_slice()));
        m.fold(head.as_slice());
        let ghost res = residual(*state, point@);
        assert(m.0@ == res);
        let mut reduction_msgs: Vec<(GoldilocksExt2, GoldilocksExt2)> = Vec::new();
        let mut challenges: Vec<GoldilocksExt2> = Vec::new();
        let mut round: usize = 0;
        let ghost ch = start.upcoming(rounds as nat);
        proof {
            assert(start.upcoming(0) =~= Seq::<GoldilocksExt2>::empty());
            assert(ch.take(0) =~= Seq::<GoldilocksExt2>::empty());
        }
        while round < rounds
            invariant
                round <= rounds,
                rounds == state.rounds(),
                zp@ == point@.skip(li as int),
                zp@.len() == rounds,
                res.len() == pow2(rounds as nat),
                start.has_fields(rounds as int),
                oracle.wf(),
                start.advanced(*oracle, round as int, 0),
                ch == start.upcoming(rounds as nat),
                ch.len() == rounds,
                challenges@ == ch.take(round as int),
                m.0@ == multilinear::fold_all(res, ch.take(round as int)),
                reduction_msgs@ == Seq::new(
                    round as nat,
                    |k: int| honest_line(res, zp@, ch, k),
                ),
            decreases rounds - round,
        {
            proof {
                multilinear::lemma_fold_all_len(res, ch.take(round as int), rounds as nat);
            }
            let line = reduction_line(&m.0, &zp, round);
            reduction_msgs.push(line);
            assert(reduction_msgs@ =~= Seq::new(
                (round + 1) as nat,
                |k: int| honest_line(res, zp@, ch, k),
            ));
            let r = oracle.next_field();
            challenges.push(r);
            let one: Vec<GoldilocksExt2> = vec![r];
            m.fold(one.as_slice());
            proof {
                assert(r == ch[round as int]);
                assert(ch.take(round + 1) =~= ch.take(round as int) + one@);
                assert(ch.take(round + 1) =~= ch.take(round as int).push(r));
                multilinear::lemma_fold_all_concat(res, ch.take(round as int), one@);
            }
            round += 1;
        }
        assert(ch.take(rounds as int) =~= ch);
        let levels = fri::fold_levels(oracle0, a, &challenges);
        let final_codeword = poly::copy_slice(levels[rounds].as_slice());
        let q: usize = fri::query_num(state.code_rate);
        proof {
            multilinear::lemma_pow2_step(a as nat);
        }
        let base = fri::draw_queries(oracle, q, l / 2);
        let base_opening = open_columns(state, &base);
        assert(levels@[0]@ == fri::level(v, a as nat, ch, 0));
        let (fold_roots, fold_openings) = fri::commit_and_open_levels(
            &levels,
            a,
            &challenges,
            &base,
        );
        BasefoldProof {
            reduction_msgs,
            fold_roots,
            final_codeword,
            base_opening,
            fold_openings,
            claimed_eval,
            num_vars: n,
            code_rate: state.code_rate,
            log_interleave: li,
        }
    }

    /// Verifies an opening. A proof whose point or interleaving does not fit is
    /// rejected, and so is one whose reduction messages break the claim. Each part of the
    /// proof is asked for only where the checks before it are passed.
    pub fn verify<LF: LeafField>(
        commit: &BasefoldCommit,
        point: Vec<GoldilocksExt2>,
        proof: &BasefoldProof<LF, GoldilocksExt2>,
        oracle: &mut RandomOracle<GoldilocksExt2>,
    ) -> (r: bool)
        requires
            old(oracle).has_fields(
                proof.fields_read(point@, old(oracle).upcoming(proof.rounds())) as int,
            ),
            proof.fits(point@) ==> {
                &&& pow2(proof.log_interleave as nat) <= usize::MAX
                &&& proof.reduction_msgs@.len() >= proof.rounds()
                    || proof.reduction_msgs@.len() > proof.fields_read(
                    point@,
                    old(oracle).upcoming(proof.rounds()),
                )
            },
            proof.fits(point@) && proof.reduced(
                point@,
                old(oracle).upcoming(proof.rounds()),
            ) is Some ==> {
                &&& old(oracle).has_ints(fri::query_count(proof.code_rate as nat) as int)
                &&& proof.complete(
                    commit.0@,
                    proof.queries(
                        old(oracle).upcoming_ints(fri::query_count(proof.code_rate as nat)),
                    ),
                )
            },
        ensures
            r == proof.accepted(
                commit.0@,
                point@,
                old(oracle).upcoming(proof.rounds()),
                proof.queries(old(oracle).upcoming_ints(fri::query_count(proof.code_rate as nat))),
            ),
            final(oracle).wf(),
            r ==> old(oracle).advanced(
                *final(oracle),
                proof.rounds() as int,
                fri::query_count(proof.code_rate as nat) as int,
            ),
            old(oracle).advanced(
                *final(oracle),
                proof.fields_read(point@, old(oracle).upcoming(proof.rounds())) as int,
                proof.ints_read(point@, old(oracle).upcoming(proof.rounds())) as int,
            ),
    {
        let n: usize = proof.num_vars;
        let li: usize = proof.log_interleave;
        if point.len() != n || n < li {
            return false;
        }
        let rounds: usize = n - li;
        let rate: usize = proof.code_rate;
        let ghost start = *oracle;
        let ghost ch = start.upcoming(rounds as nat);
        let ghost base_spec = proof.queries(
            start.upcoming_ints(fri::query_count(rate as nat)),
        );
        let head = first_coordinates(&point, li);
        let zp = last_coordinates(&point, li);
        let eq4 = MlPoly::new_eq(&head).0;
        proof {
            multilinear::lemma_eq_table_len(head@);
        }
        let ghost passed = proof.fields_read(point@, ch);
        proof {
            lemma_chain_passed(proof.claimed_eval, proof.reduction_msgs@, zp@, ch);
        }
        let mut y = proof.claimed_eval;
        let mut challenges: Vec<GoldilocksExt2> = Vec::new();
        let mut round: usize = 0;
        let ghost msgs = proof.reduction_msgs@;
        proof {
            assert(ch.skip(0) =~= ch);
            assert(ch.take(0) =~= Seq::<GoldilocksExt2>::empty());
            assert(msgs.skip(0) =~= msgs);
            assert(zp@.skip(0) =~= zp@);
        }
        while round < rounds
            invariant
                round <= rounds,
                rounds == proof.rounds(),
                rate == proof.code_rate,
                n == proof.num_vars,
                li == proof.log_interleave,
                li <= n,
                point@.len() == n,
                zp@ == point@.skip(li as int),
                zp@.len() == rounds,
                msgs == proof.reduction_msgs@,
                msgs.len() >= rounds || msgs.len() > passed,
                start == *old(oracle),
                start.has_fields(passed as int),
                passed == proof.fields_read(point@, ch),
                passed == round + chain_passed(
                    y,
                    msgs.skip(round as int),
                    zp@.skip(round as int),
                    ch.skip(round as int),
                ),
                passed == rounds <==> reduction_chain(
                    proof.claimed_eval,
                    msgs,
                    zp@,
                    ch,
                ) is Some,
                oracle.wf(),
                start.advanced(*oracle, round as int, 0),
                ch == start.upcoming(rounds as nat),
                ch.len() == rounds,
                challenges@ == ch.take(round as int),
                base_spec == proof.queries(start.upcoming_ints(fri::query_count(rate as nat))),
                reduction_chain(proof.claimed_eval, msgs, zp@, ch) == reduction_chain(
                    y,
                    msgs.skip(round as int),
                    zp@.skip(round as int),
                    ch.skip(round as int),
                ),
            decreases rounds - round,
        {
            let (l0, l1) = proof.reduction_msgs[round];
            let zi = zp[round];
            proof {
                assert(msgs.skip(round as int)[0] == msgs[round as int]);
                assert(zp@.skip(round as int)[0] == zi);
                assert(ch.skip(round as int)[0] == ch[round as int]);
                assert(msgs.skip(round as int).drop_first() =~= msgs.skip(round + 1));
                assert(zp@.skip(round as int).drop_first() =~= zp@.skip(round + 1));
                assert(ch.skip(round as int).drop_first() =~= ch.skip(round + 1));
                assert(ch.take(round + 1) =~= ch.take(round as int).push(ch[round as int]));
            }
            if !gkr::weighted_mean(l0, l1, zi).equals(y) {
                return false;
            }
            let r = oracle.next_field();
            challenges.push(r);
            y = gkr::weighted_mean(l0, l1, r);
            round += 1;
        }
        assert(ch.take(rounds as int) =~= ch);
        proof {
            assert(ch.skip(rounds as int) =~= Seq::<GoldilocksExt2>::empty());
            assert(reduction_chain(proof.claimed_eval, msgs, zp@, ch) == Some(y));
            assert(proof.reduced(point@, ch) is Some);
            assert(proof.complete(commit.0@, base_spec));
            multilinear::lemma_pow2_step(proof.log_len());
        }
        let a: usize = rounds + rate;
        let l: usize = domain::two_power(a);
        let q: usize = fri::query_num(rate);
        let base = fri::draw_queries(oracle, q, l / 2);
        assert(base@ == base_spec);
        if !fri::check_opening(
            &proof.base_opening.proof_bytes,
            &proof.base_opening.values,
            &commit.0,
            l,
        ) {
            return false;
        }
        let mut k: usize = 1;
        while k < rounds
            invariant
                1 <= k <= rounds,
                rounds == proof.rounds(),
                rate == proof.code_rate,
                li == proof.log_interleave,
                a == rounds + rate,
                a == proof.log_len(),
                point@.len() == proof.num_vars,
                li <= proof.num_vars,
                start == *old(oracle),
                oracle.wf(),
                start.advanced(*oracle, rounds as int, q as int),
                q == fri::query_count(rate as nat),
                ch == start.upcoming(rounds as nat),
                base_spec == proof.queries(start.upcoming_ints(fri::query_count(rate as nat))),
                passed == rounds,
                passed == proof.fields_read(point@, ch),
                proof.fits(point@),
                proof.reduced(point@, ch) is Some,
                proof.complete(commit.0@, base_spec),
                proof.base_accepted(commit.0@),
                forall|j: int|
                    0 <= j < k - 1 ==> fri::opening_accepted(
                        (#[trigger] proof.fold_openings@[j]).proof_bytes@,
                        proof.fold_openings@[j].values@,
                        proof.fold_roots@[j]@,
                        pow2((a - j - 1) as nat) as usize,
                    ),
            decreases rounds - k,
        {
            proof {
                multilinear::lemma_pow2_mono((a - k) as nat, a as nat);
                assert(folds_accepted(
                    proof.fold_openings@,
                    proof.fold_roots@,
                    proof.log_len(),
                    k - 1,
                ));
                assert((a - (k - 1) - 1) as nat == (a - k) as nat);
            }
            let cur_len: usize = domain::two_power(a - k);
            assert(proof.fold_openings@[k - 1].proof_bytes@.len() % 32 == 0);
            if !fri::check_opening(
                &proof.fold_openings[k - 1].proof_bytes,
                &proof.fold_openings[k - 1].values,
                &proof.fold_roots[k - 1],
                cur_len,
            ) {
                return false;
            }
            k += 1;
        }
        proof {
            assert(folds_accepted(
                proof.fold_openings@,
                proof.fold_roots@,
                proof.log_len(),
                proof.rounds() - 1,
            ));
        }
        let first = compress_opened(&proof.base_opening.values, &eq4);
        proof {
            assert(fri::values_present(
                first_values(proof.base_opening.values@, eq4@),
                proof.fold_openings@,
                proof.rounds(),
                proof.log_len(),
                base_spec,
            ));
            assert((a - rounds) as nat == rate as nat);
        }
        if !fri::check_queries(
            &first,
            &proof.fold_openings,
            &proof.final_codeword,
            &challenges,
            a,
            &base,
        ) {
            return false;
        }
        if !all_equal(&proof.final_codeword) {
            return false;
        }
        proof {
            multilinear::lemma_pow2_mono(0, rate as nat);
        }
        if !y.equals(proof.final_codeword[0]) {
            return false;
        }
        true
    }
}

/// All entries are equal to the first.
fn all_equal(s: &Vec<GoldilocksExt2>) -> (r: bool)
    ensures
        r == constant(s@),
{
    let mut i: usize = 0;
    while i < s.len()
        invariant
            i <= s.len(),
            forall|k: int| 0 <= k < i ==> #[trigger] s@[k] == s@[0],
        decreases s.len() - i,
    {
        if !s[i].equals(s[0]) {
            assert(s@[i as int] != s@[0]);
            return false;
        }
        i += 1;
    }
    true
}

/// The length is a power of two that splits into `2^li` chunks, and the codewords
/// are not longer than the largest domain.
pub open spec fn committable(len: nat, rate: nat, li: nat) -> bool {
    let n = poly::exponent(len as int);
    &&& poly::is_power_of_two(len as int)
    &&& li <= n
    &&& n - li + rate <= 32
    &&& pow2((n - li + rate) as nat) <= usize::MAX
}

/// The state and the commitment belong to the polynomial with values `s`.
pub open spec fn committed<LF: LeafField>(
    state: BasefoldProverState<LF, GoldilocksExt2>,
    commit: BasefoldCommit,
    s: Seq<LF>,
    rate: nat,
    li: nat,
) -> bool {
    &&& state.wf()
    &&& state.evals() == domain::lift_all(s)
    &&& state.vars() == poly::exponent(s.len() as int)
    &&& state.rate() == rate
    &&& state.interleave() == li
    &&& state.codewords() == Seq::new(
        pow2(li),
        |j: int| domain::codeword(chunk(s, li, j), state.log_len()),
    )
    &&& commit.0@ == state.root()
}

/// One commitment's opened columns inside a batched proof.
pub struct BaseOpening<LF: Field> {
    pub proof_bytes: Vec<u8>,
    pub values: BTreeMap<usize, Vec<LF>>,
}

/// A batched opening of several commitments on one domain, each at one point. The
/// folding chain and the queries are shared; the round messages and the opened
/// columns are individual. Base field commitments come first, then extension
/// field ones.
pub struct BatchProof<BF: Field, EF: Field> {
    pub reduction_msgs: Vec<Vec<EF>>,
    pub fold_roots: Vec<Digest>,
    pub final_codeword: Vec<EF>,
    pub fold_openings: Vec<RoundOpening<EF>>,
    pub base_bf: Vec<BaseOpening<BF>>,
    pub base_ef: Vec<BaseOpening<EF>>,
    pub code_rate: usize,
    pub log_len: usize,
}

/// Size in bytes of the first `n` column openings.
pub open spec fn base_openings_size<F: Field>(ops: Seq<BaseOpening<F>>, n: nat) -> nat
    decreases n,
{
    if n == 0 {
        0
    } else {
        base_openings_size(ops, (n - 1) as nat) + opening_size(
            ops[n - 1].proof_bytes@,
            ops[n - 1].values@,
        )
    }
}

proof fn lemma_base_openings_mono<F: Field>(ops: Seq<BaseOpening<F>>, i: nat, n: nat)
    requires
        i <= n,
    ensures
        base_openings_size(ops, i) <= base_openings_size(ops, n),
    decreases n,
{
    if i < n {
        lemma_base_openings_mono(ops, i, (n - 1) as nat);
        assert(0 <= leaf_elements(
            ops[n - 1].values@,
            leaves::keys_of(ops[n - 1].values@).len(),
        ) * F::byte_size()) by (nonlinear_arith);
    }
}

/// Size in bytes of a list of column openings.
fn base_openings_bytes<F: Field>(ops: &Vec<BaseOpening<F>>) -> (r: usize)
    requires
        base_openings_size(ops@, ops@.len()) <= usize::MAX,
    ensures
        r == base_openings_size(ops@, ops@.len()),
{
    let mut s: usize = 0;
    let mut i: usize = 0;
    while i < ops.len()
        invariant
            i <= ops.len(),
            base_openings_size(ops@, ops@.len()) <= usize::MAX,
            s == base_openings_size(ops@, i as nat),
        decreases ops.len() - i,
    {
        proof {
            lemma_base_openings_mono(ops@, (i + 1) as nat, ops@.len());
        }
        s = s + opening_bytes(&ops[i].proof_bytes, &ops[i].values);
        i += 1;
    }
    s
}

/// Number of elements of a list of vectors.
pub fn total_elements<F: Field>(v: &Vec<Vec<F>>) -> (r: usize)
    requires
        views::total_len(views::nested(v@)) <= usize::MAX,
    ensures
        r == views::total_len(views::nested(v@)),
{
    let ghost rows = views::nested(v@);
    let mut acc: usize = 0;
    let mut i: usize = 0;
    assert(rows.take(0) =~= Seq::<Seq<F>>::empty());
    while i < v.len()
        invariant
            i <= v.len(),
            rows == views::nested(v@),
            views::total_len(rows) <= usize::MAX,
            acc == views::total_len(rows.take(i as int)),
        decreases v.len() - i,
    {
        proof {
            let next = rows.take(i + 1);
            assert(next.drop_last() =~= rows.take(i as int));
            assert(next.last() == rows[i as int]);
            views::lemma_total_len_prefix(rows, i + 1);
        }
        acc = acc + v[i].len();
        i += 1;
    }
    assert(rows.take(rows.len() as int) =~= rows);
    acc
}

impl<BF: Field, EF: Field> BatchProof<BF, EF> {
    /// Size of the proof in bytes: round messages, roots, final codeword and
    /// openings.
    pub open spec fn byte_count(self) -> nat {
        views::total_len(views::nested(self.reduction_msgs@)) * EF::byte_size()
            + self.fold_roots@.len() * 32 + self.final_codeword@.len() * EF::byte_size()
            + openings_size(self.fold_openings@, self.fold_openings@.len()) + base_openings_size(
            self.base_bf@,
            self.base_bf@.len(),
        ) + base_openings_size(self.base_ef@, self.base_ef@.len())
    }

    pub fn size_bytes(&self) -> (r: usize)
        requires
            self.byte_count() <= usize::MAX,
        ensures
            r == self.byte_count(),
    {
        let ef: usize = EF::size();
        proof {
            let t = views::total_len(views::nested(self.reduction_msgs@));
            assert(t <= t * ef) by (nonlinear_arith)
                requires
                    ef >= 1,
                    t >= 0,
            ;
            assert(0 <= self.final_codeword@.len() * ef) by (nonlinear_arith);
        }
        let s: usize = total_elements(&self.reduction_msgs) * ef + self.fold_roots.len() * 32
            + self.final_codeword.len() * ef;
        s + openings_bytes(&self.fold_openings) + base_openings_bytes(&self.base_bf)
            + base_openings_bytes(&self.base_ef)
    }
}

/// One commitment of a batch together with its opening point.
pub struct ChannelView {
    /// The compressed first level.
    pub first: Seq<GoldilocksExt2>,
    /// The polynomial with its first variables fixed to the point.
    pub res: Seq<GoldilocksExt2>,
    /// The remaining coordinates.
    pub zp: Seq<GoldilocksExt2>,
}

/// The channel of a commitment opened at `point`.
pub open spec fn channel_of<LF: LeafField>(
    state: BasefoldProverState<LF, GoldilocksExt2>,
    point: Seq<GoldilocksExt2>,
) -> ChannelView {
    ChannelView {
        first: first_level(state, point),
        res: residual(state, point),
        zp: point.skip(state.interleave() as int),
    }
}

/// The channels of a batch: base field commitments first.
pub open spec fn channels_of(
    bf: Seq<(&BasefoldProverState<Goldilocks, GoldilocksExt2>, Vec<GoldilocksExt2>)>,
    ef: Seq<(&BasefoldProverState<GoldilocksExt2, GoldilocksExt2>, Vec<GoldilocksExt2>)>,
) -> Seq<ChannelView> {
    Seq::new(bf.len(), |i: int| channel_of(*bf[i].0, bf[i].1@)) + Seq::new(
        ef.len(),
        |i: int| channel_of(*ef[i].0, ef[i].1@),
    )
}

/// The linear combination of the channels' first levels.
pub open spec fn combined_level(
    channels: Seq<ChannelView>,
    coeffs: Seq<GoldilocksExt2>,
    len: nat,
) -> Seq<GoldilocksExt2> {
    Seq::new(
        len,
        |i: int| algebra::sum(channels.len(), |c: int| coeffs[c] * channels[c].first[i]),
    )
}

/// A commitment can take part in a batch on the domain of order `2^a` at the given
/// rate.
pub open spec fn task_fits<LF: LeafField>(
    state: BasefoldProverState<LF, GoldilocksExt2>,
    point: Seq<GoldilocksExt2>,
    a: nat,
    rate: nat,
) -> bool {
    &&& state.wf()
    &&& point.len() == state.vars()
    &&& state.log_len() == a
    &&& state.rate() == rate
}

/// All commitments of a batch share their domain and rate.
pub open spec fn batch_fits(
    bf: Seq<(&BasefoldProverState<Goldilocks, GoldilocksExt2>, Vec<GoldilocksExt2>)>,
    ef: Seq<(&BasefoldProverState<GoldilocksExt2, GoldilocksExt2>, Vec<GoldilocksExt2>)>,
    a: nat,
    rate: nat,
) -> bool {
    &&& bf.len() + ef.len() > 0
    &&& bf.len() + ef.len() <= usize::MAX
    &&& forall|i: int|
        0 <= i < bf.len() ==> task_fits(*(#[trigger] bf[i]).0, bf[i].1@, a, rate)
    &&& forall|i: int|
        0 <= i < ef.len() ==> task_fits(*(#[trigger] ef[i]).0, ef[i].1@, a, rate)
}

/// The domain of the first commitment.
pub open spec fn batch_log_len(
    bf: Seq<(&BasefoldProverState<Goldilocks, GoldilocksExt2>, Vec<GoldilocksExt2>)>,
    ef: Seq<(&BasefoldProverState<GoldilocksExt2, GoldilocksExt2>, Vec<GoldilocksExt2>)>,
) -> nat {
    if bf.len() > 0 {
        bf[0].0.log_len()
    } else {
        ef[0].0.log_len()
    }
}

/// The rate of the first commitment.
pub open spec fn batch_rate(
    bf: Seq<(&BasefoldProverState<Goldilocks, GoldilocksExt2>, Vec<GoldilocksExt2>)>,
    ef: Seq<(&BasefoldProverState<GoldilocksExt2, GoldilocksExt2>, Vec<GoldilocksExt2>)>,
) -> nat {
    if bf.len() > 0 {
        bf[0].0.rate()
    } else {
        ef[0].0.rate()
    }
}

/// The honest messages of one channel: the lines' values at 0.
pub open spec fn honest_msgs(c: ChannelView, ch: Seq<GoldilocksExt2>) -> Seq<GoldilocksExt2> {
    Seq::new(ch.len(), |k: int| honest_line(c.res, c.zp, ch, k).0)
}

/// The batched proof is the honest one.
pub open spec fn honest_batch(
    proof: BatchProof<Goldilocks, GoldilocksExt2>,
    bf: Seq<(&BasefoldProverState<Goldilocks, GoldilocksExt2>, Vec<GoldilocksExt2>)>,
    ef: Seq<(&BasefoldProverState<GoldilocksExt2, GoldilocksExt2>, Vec<GoldilocksExt2>)>,
    coeffs: Seq<GoldilocksExt2>,
    ch: Seq<GoldilocksExt2>,
    base: Seq<usize>,
) -> bool {
    let a = batch_log_len(bf, ef);
    let channels = channels_of(bf, ef);
    let v = combined_level(channels, coeffs, pow2(a));
    &&& proof.code_rate == batch_rate(bf, ef)
    &&& proof.log_len == a
    &&& views::nested(proof.reduction_msgs@) == Seq::new(
        channels.len(),
        |c: int| honest_msgs(channels[c], ch),
    )
    &&& proof.final_codeword@ == fri::level(v, a, ch, ch.len())
    &&& merkle::digest_views(proof.fold_roots@) == fri::level_roots(v, a, ch)
    &&& proof.fold_openings@.len() == fri::level_roots(v, a, ch).len()
    &&& forall|k: int|
        0 <= k < proof.fold_openings@.len() ==> fri::level_opened(
            #[trigger] proof.fold_openings@[k],
            v,
            a,
            ch,
            base,
            (k + 1) as nat,
        )
    &&& proof.base_bf@.len() == bf.len()
    &&& proof.base_ef@.len() == ef.len()
    &&& forall|i: int|
        0 <= i < bf.len() ==> columns_opened(
            (#[trigger] proof.base_bf@[i]).proof_bytes@,
            proof.base_bf@[i].values@,
            *bf[i].0,
            base,
        )
    &&& forall|i: int|
        0 <= i < ef.len() ==> columns_opened(
            (#[trigger] proof.base_ef@[i]).proof_bytes@,
            proof.base_ef@[i].values@,
            *ef[i].0,
            base,
        )
}

/// One claim of a batched verification.
pub struct BatchClaim {
    pub root: Seq<u8>,
    pub point: Seq<GoldilocksExt2>,
    pub value: GoldilocksExt2,
    pub li: nat,
}

/// The contents of a list of claims.
pub open spec fn claim_list(
    v: Seq<(&BasefoldCommit, Vec<GoldilocksExt2>, GoldilocksExt2, usize)>,
) -> Seq<BatchClaim> {
    Seq::new(
        v.len(),
        |i: int|
            BatchClaim { root: v[i].0.0@, point: v[i].1@, value: v[i].2, li: v[i].3 as nat },
    )
}

/// A channel's claim after the reduction rounds, the line's value at 1 recovered
/// from the claim; `None` where a coordinate of the point is zero.
pub open spec fn batch_chain(
    y: GoldilocksExt2,
    msgs: Seq<GoldilocksExt2>,
    zp: Seq<GoldilocksExt2>,
    ch: Seq<GoldilocksExt2>,
) -> Option<GoldilocksExt2>
    decreases ch.len(),
{
    if ch.len() == 0 {
        Some(y)
    } else if zp[0] == GoldilocksExt2::zero() {
        None
    } else {
        let l0 = msgs[0];
        let l1 = (y - (GoldilocksExt2::one() - zp[0]) * l0) * zp[0].inv();
        batch_chain(
            gkr::mean(l0, l1, ch[0]),
            msgs.drop_first(),
            zp.drop_first(),
            ch.drop_first(),
        )
    }
}

/// A claim can be reduced just where no coordinate that the rounds divide by is zero.
pub proof fn lemma_batch_chain_some(
    y: GoldilocksExt2,
    msgs: Seq<GoldilocksExt2>,
    zp: Seq<GoldilocksExt2>,
    ch: Seq<GoldilocksExt2>,
)
    requires
        zp.len() == ch.len(),
    ensures
        batch_chain(y, msgs, zp, ch) is Some <==> forall|k: int|
            0 <= k < zp.len() ==> #[trigger] zp[k] != GoldilocksExt2::zero(),
    decreases ch.len(),
{
    if ch.len() > 0 && zp[0] != GoldilocksExt2::zero() {
        let l0 = msgs[0];
        let l1 = (y - (GoldilocksExt2::one() - zp[0]) * l0) * zp[0].inv();
        let rest = zp.drop_first();
        lemma_batch_chain_some(
            gkr::mean(l0, l1, ch[0]),
            msgs.drop_first(),
            rest,
            ch.drop_first(),
        );
        if forall|k: int| 0 <= k < rest.len() ==> #[trigger] rest[k] != GoldilocksExt2::zero() {
            assert forall|k: int| 0 <= k < zp.len() implies #[trigger] zp[k]
                != GoldilocksExt2::zero() by {
                if k > 0 {
                    assert(rest[k - 1] == zp[k]);
                }
            }
        } else {
            let k = choose|k: int| 0 <= k < rest.len() && rest[k] == GoldilocksExt2::zero();
            assert(zp[k + 1] == GoldilocksExt2::zero());
        }
    }
}

/// Claim `c` has a zero coordinate at round `k`.
pub open spec fn zero_coordinate(claims: Seq<BatchClaim>, c: int, k: int) -> bool {
    claims[c].point[claims[c].li + k] == GoldilocksExt2::zero()
}

/// No claim has a zero coordinate at round `k`.
pub open spec fn divisible(claims: Seq<BatchClaim>, k: int) -> bool {
    forall|c: int| 0 <= c < claims.len() ==> !#[trigger] zero_coordinate(claims, c, k)
}

/// Number of folding challenges that the reduction reads from round `k` on: it stops
/// behind the first that some claim cannot be reduced with.
pub open spec fn reduction_read(claims: Seq<BatchClaim>, rounds: nat, k: nat) -> nat
    decreases rounds - k,
{
    if k >= rounds {
        0
    } else if divisible(claims, k as int) {
        1 + reduction_read(claims, rounds, k + 1)
    } else {
        1
    }
}

/// The columns of the first `n` openings stand at the given positions and open to their
/// roots.
pub open spec fn columns_accepted<LF: Field>(
    ops: Seq<BaseOpening<LF>>,
    roots: Seq<Seq<u8>>,
    positions: Seq<usize>,
    total: usize,
    n: int,
) -> bool {
    forall|i: int|
        0 <= i < n ==> leaves::keys_of((#[trigger] ops[i]).values@) == positions
            && fri::opening_accepted(ops[i].proof_bytes@, ops[i].values@, roots[i], total)
}

/// Every opening that is checked holds whole digests: those whose columns stand at the
/// given positions, if the openings before them are accepted.
pub open spec fn columns_whole<LF: Field>(
    ops: Seq<BaseOpening<LF>>,
    roots: Seq<Seq<u8>>,
    positions: Seq<usize>,
    total: usize,
) -> bool {
    forall|i: int|
        0 <= i < ops.len() && columns_accepted(ops, roots, positions, total, i)
            && leaves::keys_of(ops[i].values@) == positions ==> (#[trigger] ops[i]).proof_bytes@.len()
            % 32 == 0
}

/// A claim's reduced value.
pub open spec fn reduced_claim(
    claim: BatchClaim,
    msgs: Seq<GoldilocksExt2>,
    ch: Seq<GoldilocksExt2>,
) -> Option<GoldilocksExt2> {
    batch_chain(claim.value, msgs, claim.point.skip(claim.li as int), ch)
}

impl BatchProof<Goldilocks, GoldilocksExt2> {
    /// Number of folding rounds.
    pub open spec fn rounds(self) -> nat {
        (self.log_len - self.code_rate) as nat
    }

    /// Number of committed folded levels.
    pub open spec fn folds(self) -> nat {
        if self.rounds() == 0 {
            0
        } else {
            (self.rounds() - 1) as nat
        }
    }

    /// The query indices for the given integer tape.
    pub open spec fn queries(self, ints: Seq<usize>) -> Seq<usize> {
        fri::query_indices(ints, pow2((self.log_len - 1) as nat) as int)
    }

    /// The value of channel `c` at position `p` of its opened columns.
    pub open spec fn channel_value(
        self,
        claims: Seq<BatchClaim>,
        c: int,
        p: usize,
    ) -> GoldilocksExt2 {
        let w = multilinear::eq_table(claims[c].point.take(claims[c].li as int));
        let nb = self.base_bf@.len() as int;
        if c < nb {
            compress_leaf(self.base_bf@[c].values@[p]@, w)
        } else {
            compress_leaf(self.base_ef@[c - nb].values@[p]@, w)
        }
    }

    /// The combined first level at the opened positions.
    pub open spec fn combined_values(
        self,
        claims: Seq<BatchClaim>,
        coeffs: Seq<GoldilocksExt2>,
        positions: Seq<usize>,
    ) -> Map<usize, GoldilocksExt2> {
        Map::new(
            |p: usize| positions.contains(p),
            |p: usize|
                algebra::sum(
                    claims.len(),
                    |c: int| coeffs[c] * self.channel_value(claims, c, p),
                ),
        )
    }

    /// The roots of the base field claims.
    pub open spec fn bf_roots(self, nb: int, claims: Seq<BatchClaim>) -> Seq<Seq<u8>> {
        Seq::new(nb as nat, |i: int| claims[i].root)
    }

    /// The roots of the extension field claims.
    pub open spec fn ef_roots(self, nb: int, claims: Seq<BatchClaim>) -> Seq<Seq<u8>> {
        Seq::new((claims.len() - nb) as nat, |i: int| claims[i + nb].root)
    }

    /// The proof has each part that verification comes to once the queries are drawn:
    /// whole digests for each opening whose predecessors are accepted, and if all are
    /// accepted, columns no longer than the claims' weights, a value at every query
    /// position of the folded levels, and a final codeword of full length.
    pub open spec fn complete(
        self,
        nb: int,
        claims: Seq<BatchClaim>,
        base: Seq<usize>,
    ) -> bool {
        let a = self.log_len as nat;
        let total = pow2(a) as usize;
        let positions = fri::opened_positions(base, pow2((a - 1) as nat) as int);
        let (ops, roots) = (self.fold_openings@, self.fold_roots@);
        &&& 0 < self.code_rate < self.log_len <= 32
        &&& pow2(a) <= usize::MAX
        &&& columns_whole(self.base_bf@, self.bf_roots(nb, claims), positions, total)
        &&& columns_accepted(
            self.base_bf@,
            self.bf_roots(nb, claims),
            positions,
            total,
            self.base_bf@.len() as int,
        ) ==> columns_whole(self.base_ef@, self.ef_roots(nb, claims), positions, total)
        &&& self.bases_accepted(nb, claims, base) ==> forall|k: int|
            0 <= k < ops.len() && folds_accepted(ops, roots, a, k) ==> (
            #[trigger] ops[k]).proof_bytes@.len() % 32 == 0
        &&& self.bases_accepted(nb, claims, base) && folds_accepted(
            ops,
            roots,
            a,
            self.rounds() - 1,
        ) ==> self.queries_covered(claims, base)
    }

    /// The columns are no longer than the claims' weights, the folded levels have a value
    /// at every query position, and the final codeword has full length.
    pub open spec fn queries_covered(self, claims: Seq<BatchClaim>, base: Seq<usize>) -> bool {
        &&& self.final_codeword@.len() >= pow2(self.code_rate as nat)
        &&& forall|i: int, p: usize|
            0 <= i < self.base_bf@.len() && i < claims.len()
                && #[trigger] self.base_bf@[i].values@.contains_key(p)
                ==> self.base_bf@[i].values@[p]@.len() <= pow2(claims[i].li)
        &&& forall|i: int, p: usize|
            0 <= i < self.base_ef@.len() && i + self.base_bf@.len() < claims.len()
                && #[trigger] self.base_ef@[i].values@.contains_key(p)
                ==> self.base_ef@[i].values@[p]@.len() <= pow2(
                claims[i + self.base_bf@.len()].li,
            )
        &&& forall|j: int, p: usize|
            0 <= j < self.fold_openings@.len() && j < self.rounds() - 1 && fri::opened_positions(
                base,
                pow2((self.log_len - j - 2) as nat) as int,
            ).contains(p) ==> #[trigger] self.fold_openings@[j].values@.contains_key(p)
                && self.fold_openings@[j].values@[p]@.len() > 0
    }

    /// Number of challenges that verification reads: none if the proof does not agree
    /// with the claims, else the coefficients and those of the reduction.
    pub open spec fn fields_read(self, nb: int, claims: Seq<BatchClaim>) -> nat {
        if self.shape_fits(nb, claims) {
            claims.len() + reduction_read(claims, self.rounds(), 0)
        } else {
            0
        }
    }

    /// Number of integers that verification reads: those of the queries, if every claim
    /// can be reduced.
    pub open spec fn ints_read(
        self,
        nb: int,
        claims: Seq<BatchClaim>,
        ch: Seq<GoldilocksExt2>,
    ) -> nat {
        if self.shape_fits(nb, claims) && self.reducible(claims, ch) {
            fri::query_count(self.code_rate as nat)
        } else {
            0
        }
    }

    /// The proof and the claims agree in number and length.
    pub open spec fn shape_fits(self, nb: int, claims: Seq<BatchClaim>) -> bool {
        &&& self.reduction_msgs@.len() == claims.len()
        &&& self.base_bf@.len() == nb
        &&& self.base_ef@.len() == claims.len() - nb
        &&& self.fold_roots@.len() == self.folds()
        &&& self.fold_openings@.len() == self.folds()
        &&& forall|c: int|
            0 <= c < claims.len() ==> (#[trigger] claims[c]).point.len() == claims[c].li
                + self.rounds() && self.reduction_msgs@[c]@.len() == self.rounds()
    }

    /// Every claim can be reduced: no coordinate that its reduction divides by is zero.
    pub open spec fn reducible(
        self,
        claims: Seq<BatchClaim>,
        ch: Seq<GoldilocksExt2>,
    ) -> bool {
        forall|c: int|
            0 <= c < claims.len() ==> reduced_claim(
                #[trigger] claims[c],
                self.reduction_msgs@[c]@,
                ch,
            ) is Some
    }

    /// The opened columns stand at the query positions of the committed trees.
    pub open spec fn bases_accepted(
        self,
        nb: int,
        claims: Seq<BatchClaim>,
        base: Seq<usize>,
    ) -> bool {
        let total = pow2(self.log_len as nat) as usize;
        let positions = fri::opened_positions(base, pow2((self.log_len - 1) as nat) as int);
        &&& forall|i: int|
            0 <= i < self.base_bf@.len() ==> leaves::keys_of(
                (#[trigger] self.base_bf@[i]).values@,
            ) == positions && fri::opening_accepted(
                self.base_bf@[i].proof_bytes@,
                self.base_bf@[i].values@,
                claims[i].root,
                total,
            )
        &&& forall|i: int|
            0 <= i < self.base_ef@.len() ==> leaves::keys_of(
                (#[trigger] self.base_ef@[i]).values@,
            ) == positions && fri::opening_accepted(
                self.base_ef@[i].proof_bytes@,
                self.base_ef@[i].values@,
                claims[i + nb].root,
                total,
            )
    }

    /// The verifier accepts.
    pub open spec fn accepted(
        self,
        nb: int,
        claims: Seq<BatchClaim>,
        coeffs: Seq<GoldilocksExt2>,
        ch: Seq<GoldilocksExt2>,
        base: Seq<usize>,
    ) -> bool {
        let a = self.log_len as nat;
        let positions = fri::opened_positions(base, pow2((a - 1) as nat) as int);
        let ys = |c: int| reduced_claim(claims[c], self.reduction_msgs@[c]@, ch);
        &&& self.shape_fits(nb, claims)
        &&& self.reducible(claims, ch)
        &&& self.bases_accepted(nb, claims, base)
        &&& forall|k: int|
            0 <= k < self.rounds() - 1 ==> fri::opening_accepted(
                (#[trigger] self.fold_openings@[k]).proof_bytes@,
                self.fold_openings@[k].values@,
                self.fold_roots@[k]@,
                pow2((a - k - 1) as nat) as usize,
            )
        &&& fri::queries_consistent(
            self.combined_values(claims, coeffs, positions),
            self.fold_openings@,
            self.final_codeword@,
            ch,
            a,
            base,
        )
        &&& constant(self.final_codeword@)
        &&& self.final_codeword@[0] == algebra::sum(
            claims.len(),
            |c: int| coeffs[c] * (ys(c))->0,
        )
    }
}

/// A channel of a batch.
struct Channel {
    first: Vec<GoldilocksExt2>,
    m: Vec<GoldilocksExt2>,
    zp: Vec<GoldilocksExt2>,
}

impl Channel {
    spec fn contents(self) -> ChannelView {
        ChannelView { first: self.first@, res: self.m@, zp: self.zp@ }
    }
}

/// Builds the channel of a commitment opened at `point`.
fn make_channel<LF: LeafField>(
    state: &BasefoldProverState<LF, GoldilocksExt2>,
    point: &Vec<GoldilocksExt2>,
) -> (r: Channel)
    requires
        state.wf(),
        point@.len() == state.vars(),
    ensures
        r.contents() == channel_of(*state, point@),
{
    let li: usize = state.log_interleave;
    let a: usize = state.num_vars - li + state.code_rate;
    let ghost codes = state.codewords();
    let head = first_coordinates(point, li);
    let zp = last_coordinates(point, li);
    proof {
        multilinear::lemma_pow2_mono(li as nat, state.vars());
        multilinear::lemma_eq_table_len(head@);
        assert forall|j: int| 0 <= j < state.codes@.len() implies (#[trigger] state.codes@[j])@.len()
            == pow2(a as nat) by {
            assert(codes[j].len() == pow2(a as nat));
        }
    }
    let eq4 = MlPoly::new_eq(&head).0;
    let d: usize = domain::two_power(a);
    let first = compress_codes(&state.codes, &eq4, d);
    let mut m = MlPoly(poly::copy_slice(state.poly.0.as_slice()));
    m.fold(head.as_slice());
    Channel { first, m: m.0, zp }
}

/// The messages of one channel for the given challenges.
fn channel_messages(c: &Channel, ch: &Vec<GoldilocksExt2>) -> (r: Vec<GoldilocksExt2>)
    requires
        c.contents().zp.len() == ch@.len(),
        c.contents().res.len() == pow2(ch@.len()),
    ensures
        r@ == honest_msgs(c.contents(), ch@),
{
    let rounds: usize = ch.len();
    let mut m = MlPoly(poly::copy_slice(c.m.as_slice()));
    let ghost res = c.m@;
    let mut msgs: Vec<GoldilocksExt2> = Vec::new();
    let mut k: usize = 0;
    assert(ch@.take(0) =~= Seq::<GoldilocksExt2>::empty());
    while k < rounds
        invariant
            k <= rounds,
            rounds == ch@.len(),
            c.zp@.len() == rounds,
            res == c.m@,
            res.len() == pow2(rounds as nat),
            m.0@ == multilinear::fold_all(res, ch@.take(k as int)),
            msgs@ == Seq::new(k as nat, |k: int| honest_line(res, c.zp@, ch@, k).0),
        decreases rounds - k,
    {
        proof {
            multilinear::lemma_fold_all_len(res, ch@.take(k as int), rounds as nat);
        }
        let (l0, _l1) = reduction_line(&m.0, &c.zp, k);
        msgs.push(l0);
        assert(msgs@ =~= Seq::new((k + 1) as nat, |k: int| honest_line(res, c.zp@, ch@, k).0));
        let one: Vec<GoldilocksExt2> = vec![ch[k]];
        m.fold(one.as_slice());
        proof {
            assert(ch@.take(k + 1) =~= ch@.take(k as int) + one@);
            multilinear::lemma_fold_all_concat(res, ch@.take(k as int), one@);
        }
        k += 1;
    }
    msgs
}

/// The linear combination of the channels' first levels.
fn combine_levels(
    channels: &Vec<Channel>,
    coeffs: &Vec<GoldilocksExt2>,
    d: usize,
    views: Ghost<Seq<ChannelView>>,
) -> (r: Vec<GoldilocksExt2>)
    requires
        coeffs@.len() == channels@.len(),
        views@.len() == channels@.len(),
        forall|c: int| 0 <= c < channels@.len() ==> (#[trigger] channels@[c]).contents() == views@[c],
        forall|c: int| 0 <= c < channels@.len() ==> (#[trigger] channels@[c]).first@.len() == d,
    ensures
        r@ == combined_level(views@, coeffs@, d as nat),
{
    let mut r: Vec<GoldilocksExt2> = Vec::new();
    let mut i: usize = 0;
    while i < d
        invariant
            i <= d,
            coeffs@.len() == channels@.len(),
            views@.len() == channels@.len(),
            forall|c: int|
                0 <= c < channels@.len() ==> (#[trigger] channels@[c]).contents() == views@[c],
            forall|c: int|
                0 <= c < channels@.len() ==> (#[trigger] channels@[c]).first@.len() == d,
            r@ == Seq::new(
                i as nat,
                |i: int| algebra::sum(views@.len(), |c: int| coeffs@[c] * views@[c].first[i]),
            ),
        decreases d - i,
    {
        let mut acc = GoldilocksExt2::new_zero();
        let mut c: usize = 0;
        let ghost f = |c: int| coeffs@[c] * views@[c].first[i as int];
        while c < channels.len()
            invariant
                c <= channels.len(),
                i < d,
                coeffs@.len() == channels@.len(),
                views@.len() == channels@.len(),
                forall|c: int|
                    0 <= c < channels@.len() ==> (#[trigger] channels@[c]).contents() == views@[c],
                forall|c: int|
                    0 <= c < channels@.len() ==> (#[trigger] channels@[c]).first@.len() == d,
                f == (|c: int| coeffs@[c] * views@[c].first[i as int]),
                acc == algebra::sum(c as nat, f),
            decreases channels.len() - c,
        {
            assert(channels@[c as int].contents() == views@[c as int]);
            assert(channels@[c as int].first@.len() == d);
            acc = acc.add(coeffs[c].mul(channels[c].first[i]));
            c += 1;
        }
        r.push(acc);
        assert(r@ =~= Seq::new(
            (i + 1) as nat,
            |i: int| algebra::sum(views@.len(), |c: int| coeffs@[c] * views@[c].first[i]),
        ));
        i += 1;
    }
    r
}

/// Recovers a channel's reduced claim.
fn reduce_channel(
    claim: GoldilocksExt2,
    msgs: &Vec<GoldilocksExt2>,
    zp: &Vec<GoldilocksExt2>,
    ch: &Vec<GoldilocksExt2>,
) -> (r: Option<GoldilocksExt2>)
    requires
        msgs@.len() == ch@.len(),
        zp@.len() == ch@.len(),
    ensures
        r == batch_chain(claim, msgs@, zp@, ch@),
{
    let mut y = claim;
    let mut k: usize = 0;
    proof {
        assert(msgs@.skip(0) =~= msgs@);
        assert(zp@.skip(0) =~= zp@);
        assert(ch@.skip(0) =~= ch@);
    }
    while k < ch.len()
        invariant
            k <= ch.len(),
            msgs@.len() == ch@.len(),
            zp@.len() == ch@.len(),
            batch_chain(claim, msgs@, zp@, ch@) == batch_chain(
                y,
                msgs@.skip(k as int),
                zp@.skip(k as int),
                ch@.skip(k as int),
            ),
        decreases ch.len() - k,
    {
        proof {
            assert(msgs@.skip(k as int)[0] == msgs@[k as int]);
            assert(zp@.skip(k as int)[0] == zp@[k as int]);
            assert(ch@.skip(k as int)[0] == ch@[k as int]);
            assert(msgs@.skip(k as int).drop_first() =~= msgs@.skip(k + 1));
            assert(zp@.skip(k as int).drop_first() =~= zp@.skip(k + 1));
            assert(ch@.skip(k as int).drop_first() =~= ch@.skip(k + 1));
        }
        let zi = zp[k];
        if zi.equals(GoldilocksExt2::new_zero()) {
            return None;
        }
        let l0 = msgs[k];
        let l1 = y.sub(GoldilocksExt2::new_one().sub(zi).mul(l0)).mul(zi.inverse());
        y = gkr::weighted_mean(l0, l1, ch[k]);
        k += 1;
    }
    Some(y)
}

/// Compares two position lists.
fn same_positions(a: &Vec<usize>, b: &Vec<usize>) -> (r: bool)
    ensures
        r == (a@ == b@),
{
    if a.len() != b.len() {
        return false;
    }
    let mut i: usize = 0;
    while i < a.len()
        invariant
            i <= a.len(),
            a@.len() == b@.len(),
            forall|k: int| 0 <= k < i ==> a@[k] == b@[k],
        decreases a.len() - i,
    {
        if a[i] != b[i] {
            assert(a@[i as int] != b@[i as int]);
            return false;
        }
        i += 1;
    }
    assert(a@ =~= b@);
    true
}

/// Checks the column openings of a list of claims.
fn check_bases<LF: LeafField>(
    ops: &Vec<BaseOpening<LF>>,
    claims: &[(&BasefoldCommit, Vec<GoldilocksExt2>, GoldilocksExt2, usize)],
    roots: Ghost<Seq<Seq<u8>>>,
    positions: &Vec<usize>,
    total: usize,
) -> (r: bool)
    requires
        ops@.len() == claims@.len(),
        roots@ == Seq::new(claims@.len(), |i: int| claims@[i].0.0@),
        columns_whole(ops@, roots@, positions@, total),
    ensures
        r == columns_accepted(ops@, roots@, positions@, total, ops@.len() as int),
        r == forall|i: int|
            0 <= i < ops@.len() ==> leaves::keys_of((#[trigger] ops@[i]).values@) == positions@
                && fri::opening_accepted(
                ops@[i].proof_bytes@,
                ops@[i].values@,
                claims@[i].0.0@,
                total,
            ),
        r ==> forall|i: int, p: usize|
            0 <= i < ops@.len() && positions@.contains(p)
                ==> #[trigger] ops@[i].values@.contains_key(p),
{
    let mut i: usize = 0;
    while i < ops.len()
        invariant
            i <= ops.len(),
            ops@.len() == claims@.len(),
            roots@ == Seq::new(claims@.len(), |i: int| claims@[i].0.0@),
            columns_whole(ops@, roots@, positions@, total),
            forall|k: int|
                0 <= k < i ==> leaves::keys_of((#[trigger] ops@[k]).values@) == positions@
                    && fri::opening_accepted(
                    ops@[k].proof_bytes@,
                    ops@[k].values@,
                    claims@[k].0.0@,
                    total,
                ),
            forall|k: int, p: usize|
                0 <= k < i && positions@.contains(p)
                    ==> #[trigger] ops@[k].values@.contains_key(p),
        decreases ops.len() - i,
    {
        let op = &ops[i];
        let indices = leaves::positions(&op.values);
        if !same_positions(&indices, positions) {
            assert(leaves::keys_of(ops@[i as int].values@) != positions@);
            return false;
        }
        assert(columns_accepted(ops@, roots@, positions@, total, i as int));
        assert(ops@[i as int].proof_bytes@.len() % 32 == 0);
        if !fri::check_opening(&op.proof_bytes, &op.values, &claims[i].0.0, total) {
            return false;
        }
        assert forall|p: usize| positions@.contains(p) implies #[trigger] ops@[i as int].values@.contains_key(
            p,
        ) by {
            assert(indices@.to_set().contains(p));
        }
        i += 1;
    }
    true
}

impl Basefold<Goldilocks, GoldilocksExt2> {
    /// Opens several commitments on one domain, each at one point, with shared
    /// folding challenges and queries.
    pub fn batch_prove(
        bf_tasks: &[(&BasefoldProverState<Goldilocks, GoldilocksExt2>, Vec<GoldilocksExt2>)],
        ef_tasks: &[(&BasefoldProverState<GoldilocksExt2, GoldilocksExt2>, Vec<GoldilocksExt2>)],
        oracle: &mut RandomOracle<GoldilocksExt2>,
    ) -> (proof: BatchProof<Goldilocks, GoldilocksExt2>)
        requires
            batch_fits(
                bf_tasks@,
                ef_tasks@,
                batch_log_len(bf_tasks@, ef_tasks@),
                batch_rate(bf_tasks@, ef_tasks@),
            ),
            batch_rate(bf_tasks@, ef_tasks@) > 0,
            old(oracle).has_fields(
                bf_tasks@.len() + ef_tasks@.len() + batch_log_len(bf_tasks@, ef_tasks@)
                    - batch_rate(bf_tasks@, ef_tasks@),
            ),
            old(oracle).has_ints(fri::query_count(batch_rate(bf_tasks@, ef_tasks@)) as int),
        ensures
            ({
                let num = bf_tasks@.len() + ef_tasks@.len();
                let (a, rate) = (
                    batch_log_len(bf_tasks@, ef_tasks@),
                    batch_rate(bf_tasks@, ef_tasks@),
                );
                let rounds = (a - rate) as nat;
                let tape = old(oracle).upcoming(num + rounds);
                honest_batch(
                    proof,
                    bf_tasks@,
                    ef_tasks@,
                    tape.take(num as int),
                    tape.skip(num as int),
                    fri::query_indices(
                        old(oracle).upcoming_ints(fri::query_count(rate)),
                        pow2((a - 1) as nat) as int,
                    ),
                )
            }),
            final(oracle).wf(),
            old(oracle).advanced(
                *final(oracle),
                bf_tasks@.len() + ef_tasks@.len() + batch_log_len(bf_tasks@, ef_tasks@)
                    - batch_rate(bf_tasks@, ef_tasks@),
                fri::query_count(batch_rate(bf_tasks@, ef_tasks@)) as int,
            ),
    {
        let ghost a = batch_log_len(bf_tasks@, ef_tasks@);
        let ghost rate = batch_rate(bf_tasks@, ef_tasks@);
        let ghost start = *oracle;
        let (log_len, code_rate): (usize, usize) = if bf_tasks.len() > 0 {
            let s = bf_tasks[0].0;
            (s.num_vars - s.log_interleave + s.code_rate, s.code_rate)
        } else {
            let s = ef_tasks[0].0;
            (s.num_vars - s.log_interleave + s.code_rate, s.code_rate)
        };
        let rounds: usize = log_len - code_rate;
        let num_channels: usize = bf_tasks.len() + ef_tasks.len();
        let ghost tape = start.upcoming((num_channels + rounds) as nat);
        let ghost views_spec = channels_of(bf_tasks@, ef_tasks@);
        let mut channels: Vec<Channel> = Vec::new();
        let mut i: usize = 0;
        while i < bf_tasks.len()
            invariant
                i <= bf_tasks.len(),
                a == batch_log_len(bf_tasks@, ef_tasks@),
                rate == batch_rate(bf_tasks@, ef_tasks@),
                batch_fits(bf_tasks@, ef_tasks@, a, rate),
                views_spec == channels_of(bf_tasks@, ef_tasks@),
                channels@.len() == i,
                forall|c: int|
                    0 <= c < i ==> (#[trigger] channels@[c]).contents() == views_spec[c],
            decreases bf_tasks.len() - i,
        {
            assert(task_fits(*bf_tasks@[i as int].0, bf_tasks@[i as int].1@, a, rate));
            let c = make_channel(bf_tasks[i].0, &bf_tasks[i].1);
            channels.push(c);
            i += 1;
        }
        let mut j: usize = 0;
        while j < ef_tasks.len()
            invariant
                j <= ef_tasks.len(),
                a == batch_log_len(bf_tasks@, ef_tasks@),
                rate == batch_rate(bf_tasks@, ef_tasks@),
                batch_fits(bf_tasks@, ef_tasks@, a, rate),
                views_spec == channels_of(bf_tasks@, ef_tasks@),
                channels@.len() == bf_tasks@.len() + j,
                forall|c: int|
                    0 <= c < channels@.len() ==> (#[trigger] channels@[c]).contents()
                        == views_spec[c],
            decreases ef_tasks.len() - j,
        {
            assert(task_fits(*ef_tasks@[j as int].0, ef_tasks@[j as int].1@, a, rate));
            let c = make_channel(ef_tasks[j].0, &ef_tasks[j].1);
            channels.push(c);
            j += 1;
        }
        proof {
            assert forall|c: int| 0 <= c < views_spec.len() implies (#[trigger] views_spec[c]).first.len()
                == pow2(a) && views_spec[c].res.len() == pow2(rounds as nat)
                && views_spec[c].zp.len() == rounds by {
                lemma_channel_shape(bf_tasks@, ef_tasks@, a, rate, c);
            }
        }
        let coeffs = oracle.next_n_fields(num_channels);
        assert(coeffs@ =~= tape.take(num_channels as int));
        let challenges = oracle.next_n_fields(rounds);
        assert(challenges@ =~= tape.skip(num_channels as int));
        proof {
            lemma_first_task(bf_tasks@, ef_tasks@, a, rate);
        }
        let d: usize = domain::two_power(log_len);
        proof {
            assert forall|c: int| 0 <= c < channels@.len() implies (#[trigger] channels@[c]).first@.len()
                == d by {
                assert(channels@[c].contents() == views_spec[c]);
                assert(views_spec[c].first.len() == pow2(a));
            }
        }
        let combined = combine_levels(&channels, &coeffs, d, Ghost(views_spec));
        let ghost v = combined_level(views_spec, coeffs@, pow2(a));
        let mut reduction_msgs: Vec<Vec<GoldilocksExt2>> = Vec::new();
        let mut c: usize = 0;
        while c < channels.len()
            invariant
                c <= channels.len(),
                channels@.len() == views_spec.len(),
                challenges@.len() == rounds,
                forall|c: int|
                    0 <= c < channels@.len() ==> (#[trigger] channels@[c]).contents()
                        == views_spec[c],
                forall|c: int|
                    0 <= c < views_spec.len() ==> (#[trigger] views_spec[c]).first.len() == pow2(a)
                        && views_spec[c].res.len() == pow2(rounds as nat)
                        && views_spec[c].zp.len() == rounds,
                reduction_msgs@.len() == c,
                forall|k: int|
                    0 <= k < c ==> (#[trigger] reduction_msgs@[k])@ == honest_msgs(
                        views_spec[k],
                        challenges@,
                    ),
            decreases channels.len() - c,
        {
            assert(channels@[c as int].contents() == views_spec[c as int]);
            assert(views_spec[c as int].zp.len() == rounds);
            let msgs = channel_messages(&channels[c], &challenges);
            reduction_msgs.push(msgs);
            c += 1;
        }
        assert(views::nested(reduction_msgs@) =~= Seq::new(
            views_spec.len(),
            |c: int| honest_msgs(views_spec[c], challenges@),
        ));
        let levels = fri::fold_levels(combined, log_len, &challenges);
        let final_codeword = poly::copy_slice(levels[rounds].as_slice());
        let q: usize = fri::query_num(code_rate);
        proof {
            multilinear::lemma_pow2_step(a);
        }
        let base = fri::draw_queries(oracle, q, d / 2);
        let mut base_bf: Vec<BaseOpening<Goldilocks>> = Vec::new();
        let mut x: usize = 0;
        while x < bf_tasks.len()
            invariant
                x <= bf_tasks.len(),
                batch_fits(bf_tasks@, ef_tasks@, a, rate),
                rate > 0,
                base@.len() > 0,
                base_bf@.len() == x,
                forall|k: int|
                    0 <= k < x ==> columns_opened(
                        (#[trigger] base_bf@[k]).proof_bytes@,
                        base_bf@[k].values@,
                        *bf_tasks@[k].0,
                        base@,
                    ),
            decreases bf_tasks.len() - x,
        {
            assert(task_fits(*bf_tasks@[x as int].0, bf_tasks@[x as int].1@, a, rate));
            let op = open_columns(bf_tasks[x].0, &base);
            base_bf.push(BaseOpening { proof_bytes: op.proof_bytes, values: op.values });
            x += 1;
        }
        let mut base_ef: Vec<BaseOpening<GoldilocksExt2>> = Vec::new();
        let mut y: usize = 0;
        while y < ef_tasks.len()
            invariant
                y <= ef_tasks.len(),
                batch_fits(bf_tasks@, ef_tasks@, a, rate),
                rate > 0,
                base@.len() > 0,
                base_ef@.len() == y,
                forall|k: int|
                    0 <= k < y ==> columns_opened(
                        (#[trigger] base_ef@[k]).proof_bytes@,
                        base_ef@[k].values@,
                        *ef_tasks@[k].0,
                        base@,
                    ),
            decreases ef_tasks.len() - y,
        {
            assert(task_fits(*ef_tasks@[y as int].0, ef_tasks@[y as int].1@, a, rate));
            let op = open_columns(ef_tasks[y].0, &base);
            base_ef.push(BaseOpening { proof_bytes: op.proof_bytes, values: op.values });
            y += 1;
        }
        assert(levels@[0]@ == fri::level(v, a, challenges@, 0));
        let (fold_roots, fold_openings) = fri::commit_and_open_levels(
            &levels,
            log_len,
            &challenges,
            &base,
        );
        BatchProof {
            reduction_msgs,
            fold_roots,
            final_codeword,
            fold_openings,
            base_bf,
            base_ef,
            code_rate,
            log_len,
        }
    }
}

proof fn lemma_first_task(
    bf: Seq<(&BasefoldProverState<Goldilocks, GoldilocksExt2>, Vec<GoldilocksExt2>)>,
    ef: Seq<(&BasefoldProverState<GoldilocksExt2, GoldilocksExt2>, Vec<GoldilocksExt2>)>,
    a: nat,
    rate: nat,
)
    requires
        batch_fits(bf, ef, a, rate),
    ensures
        a <= 32,
        rate <= a,
        pow2(a) <= usize::MAX,
{
    if bf.len() > 0 {
        assert(task_fits(*bf[0].0, bf[0].1@, a, rate));
    } else {
        assert(task_fits(*ef[0].0, ef[0].1@, a, rate));
    }
}

proof fn lemma_channel_shape(
    bf: Seq<(&BasefoldProverState<Goldilocks, GoldilocksExt2>, Vec<GoldilocksExt2>)>,
    ef: Seq<(&BasefoldProverState<GoldilocksExt2, GoldilocksExt2>, Vec<GoldilocksExt2>)>,
    a: nat,
    rate: nat,
    c: int,
)
    requires
        batch_fits(bf, ef, a, rate),
        0 <= c < bf.len() + ef.len(),
    ensures
        channels_of(bf, ef)[c].first == fri::encoding(channels_of(bf, ef)[c].res, a),
        channels_of(bf, ef)[c].first.len() == pow2(a),
        channels_of(bf, ef)[c].res.len() == pow2((a - rate) as nat),
        channels_of(bf, ef)[c].zp.len() == a - rate,
        algebra::all_valid(channels_of(bf, ef)[c].res),
{
    if c < bf.len() {
        assert(task_fits(*bf[c].0, bf[c].1@, a, rate));
        lemma_first_level(*bf[c].0, bf[c].1@);
    } else {
        let i = c - bf.len();
        assert(task_fits(*ef[i].0, ef[i].1@, a, rate));
        lemma_first_level(*ef[i].0, ef[i].1@);
    }
}

/// The claims of a batch in order: base field commitments first.
pub open spec fn batch_claims(
    bf: Seq<(&BasefoldCommit, Vec<GoldilocksExt2>, GoldilocksExt2, usize)>,
    ef: Seq<(&BasefoldCommit, Vec<GoldilocksExt2>, GoldilocksExt2, usize)>,
) -> Seq<BatchClaim> {
    claim_list(bf) + claim_list(ef)
}

/// Claim `i` of a list has as many coordinates and messages as the rounds ask for;
/// its messages stand at `from + i`.
pub open spec fn claim_fits(
    claims: Seq<(&BasefoldCommit, Vec<GoldilocksExt2>, GoldilocksExt2, usize)>,
    msgs: Seq<Vec<GoldilocksExt2>>,
    from: int,
    i: int,
    rounds: int,
) -> bool {
    claims[i].1@.len() == claims[i].3 + rounds && msgs[from + i]@.len() == rounds
}

/// Checks the lengths of a list of claims against their messages, which start at
/// channel `from`.
fn claims_fit(
    claims: &[(&BasefoldCommit, Vec<GoldilocksExt2>, GoldilocksExt2, usize)],
    msgs: &Vec<Vec<GoldilocksExt2>>,
    from: usize,
    rounds: usize,
) -> (r: bool)
    requires
        from + claims@.len() <= msgs@.len(),
    ensures
        r == forall|i: int|
            0 <= i < claims@.len() ==> #[trigger] claim_fits(
                claims@,
                msgs@,
                from as int,
                i,
                rounds as int,
            ),
{
    let mut i: usize = 0;
    while i < claims.len()
        invariant
            i <= claims.len(),
            from + claims@.len() <= msgs@.len(),
            msgs@.len() == msgs.len(),
            forall|k: int|
                0 <= k < i ==> #[trigger] claim_fits(
                    claims@,
                    msgs@,
                    from as int,
                    k,
                    rounds as int,
                ),
        decreases claims.len() - i,
    {
        let n: usize = claims[i].1.len();
        let li: usize = claims[i].3;
        if n < li || n - li != rounds || msgs[from + i].len() != rounds {
            assert(!claim_fits(claims@, msgs@, from as int, i as int, rounds as int));
            return false;
        }
        i += 1;
    }
    true
}

/// The equality weights of a list of claims, appended to `out`.
fn push_weights(
    claims: &[(&BasefoldCommit, Vec<GoldilocksExt2>, GoldilocksExt2, usize)],
    out: &mut Vec<Vec<GoldilocksExt2>>,
)
    requires
        forall|i: int|
            0 <= i < claims@.len() ==> (#[trigger] claims@[i]).3 <= claims@[i].1@.len() && pow2(
                claims@[i].3 as nat,
            ) <= usize::MAX,
    ensures
        final(out)@.len() == old(out)@.len() + claims@.len(),
        forall|i: int| 0 <= i < old(out)@.len() ==> #[trigger] final(out)@[i] == old(out)@[i],
        forall|i: int|
            0 <= i < claims@.len() ==> final(out)@[old(out)@.len() + i]@ == multilinear::eq_table(
                (#[trigger] claims@[i]).1@.take(claims@[i].3 as int),
            ),
{
    let ghost start = out@;
    let mut i: usize = 0;
    while i < claims.len()
        invariant
            i <= claims.len(),
            forall|i: int|
                0 <= i < claims@.len() ==> (#[trigger] claims@[i]).3 <= claims@[i].1@.len() && pow2(
                    claims@[i].3 as nat,
                ) <= usize::MAX,
            out@.len() == start.len() + i,
            forall|k: int| 0 <= k < start.len() ==> #[trigger] out@[k] == start[k],
            forall|k: int|
                0 <= k < i ==> out@[start.len() + k]@ == multilinear::eq_table(
                    (#[trigger] claims@[k]).1@.take(claims@[k].3 as int),
                ),
        decreases claims.len() - i,
    {
        let head = first_coordinates(&claims[i].1, claims[i].3);
        out.push(MlPoly::new_eq(&head).0);
        i += 1;
    }
}

/// The reduced claims, appended to `out`; `false` where one cannot be recovered.
fn push_reduced(
    claims: &[(&BasefoldCommit, Vec<GoldilocksExt2>, GoldilocksExt2, usize)],
    msgs: &Vec<Vec<GoldilocksExt2>>,
    from: usize,
    ch: &Vec<GoldilocksExt2>,
    out: &mut Vec<GoldilocksExt2>,
) -> (r: bool)
    requires
        from + claims@.len() <= msgs@.len(),
        old(out)@.len() == from,
        forall|i: int|
            0 <= i < claims@.len() ==> #[trigger] claim_fits(
                claims@,
                msgs@,
                from as int,
                i,
                ch@.len() as int,
            ),
    ensures
        r == forall|i: int|
            0 <= i < claims@.len() ==> reduced_claim(
                #[trigger] claim_list(claims@)[i],
                msgs@[from + i]@,
                ch@,
            ) is Some,
        r ==> final(out)@.len() == from + claims@.len(),
        r ==> forall|i: int| 0 <= i < from ==> #[trigger] final(out)@[i] == old(out)@[i],
        r ==> forall|i: int|
            0 <= i < claims@.len() ==> reduced_claim(
                #[trigger] claim_list(claims@)[i],
                msgs@[from + i]@,
                ch@,
            ) == Some(final(out)@[from + i]),
{
    let ghost start = out@;
    let ghost views = claim_list(claims@);
    let mut i: usize = 0;
    while i < claims.len()
        invariant
            i <= claims.len(),
            from + claims@.len() <= msgs@.len(),
            msgs@.len() == msgs.len(),
            start.len() == from,
            views == claim_list(claims@),
            forall|i: int|
                0 <= i < claims@.len() ==> #[trigger] claim_fits(
                    claims@,
                    msgs@,
                    from as int,
                    i,
                    ch@.len() as int,
                ),
            out@.len() == from + i,
            forall|k: int| 0 <= k < from ==> #[trigger] out@[k] == start[k],
            forall|k: int|
                0 <= k < i ==> reduced_claim(#[trigger] views[k], msgs@[from + k]@, ch@) == Some(
                    out@[from + k],
                ),
        decreases claims.len() - i,
    {
        assert(claim_fits(claims@, msgs@, from as int, i as int, ch@.len() as int));
        let zp = last_coordinates(&claims[i].1, claims[i].3);
        let red = reduce_channel(claims[i].2, &msgs[from + i], &zp, ch);
        assert(red == reduced_claim(views[i as int], msgs@[from + i]@, ch@));
        match red {
            Some(y) => {
                out.push(y);
            },
            None => {
                assert(!(reduced_claim(views[i as int], msgs@[from + i]@, ch@) is Some));
                return false;
            },
        }
        i += 1;
    }
    true
}

/// Adds up the weighted channel values of a list of column openings at one
/// position, continuing from `acc`.
fn add_channels<LF: LeafField>(
    ops: &Vec<BaseOpening<LF>>,
    weights: &Vec<Vec<GoldilocksExt2>>,
    coeffs: &Vec<GoldilocksExt2>,
    from: usize,
    p: usize,
    acc: GoldilocksExt2,
    f: Ghost<spec_fn(int) -> GoldilocksExt2>,
) -> (r: GoldilocksExt2)
    requires
        from + ops@.len() <= weights@.len(),
        from + ops@.len() <= coeffs@.len(),
        acc == algebra::sum(from as nat, f@),
        forall|i: int|
            0 <= i < ops@.len() ==> (#[trigger] ops@[i]).values@.contains_key(p)
                && ops@[i].values@[p]@.len() <= weights@[from + i]@.len() && f@(from + i)
                == coeffs@[from + i] * compress_leaf(
                ops@[i].values@[p]@,
                weights@[from + i]@,
            ),
    ensures
        r == algebra::sum((from + ops@.len()) as nat, f@),
{
    let mut acc = acc;
    let mut i: usize = 0;
    while i < ops.len()
        invariant
            i <= ops.len(),
            from + ops@.len() <= weights@.len(),
            from + ops@.len() <= coeffs@.len(),
            weights@.len() == weights.len(),
            acc == algebra::sum((from + i) as nat, f@),
            forall|i: int|
                0 <= i < ops@.len() ==> (#[trigger] ops@[i]).values@.contains_key(p)
                    && ops@[i].values@[p]@.len() <= weights@[from + i]@.len() && f@(from + i)
                    == coeffs@[from + i] * compress_leaf(
                    ops@[i].values@[p]@,
                    weights@[from + i]@,
                ),
        decreases ops.len() - i,
    {
        assert(ops@[i as int].values@.contains_key(p));
        match leaves::look_up(&ops[i].values, p) {
            Some(leaf) => {
                let v = compress(leaf, &weights[from + i]);
                acc = acc.add(coeffs[from + i].mul(v));
            },
            None => {
                assert(false);
            },
        }
        i += 1;
    }
    acc
}

/// Checks the Merkle openings of the folded levels.
fn check_folds(
    ops: &Vec<RoundOpening<GoldilocksExt2>>,
    roots: &Vec<Digest>,
    a: usize,
    rounds: usize,
) -> (r: bool)
    requires
        0 < rounds <= a <= 32,
        pow2(a as nat) <= usize::MAX,
        ops@.len() == rounds - 1,
        roots@.len() == rounds - 1,
        forall|k: int|
            0 <= k < ops@.len() && folds_accepted(ops@, roots@, a as nat, k) ==> (
            #[trigger] ops@[k]).proof_bytes@.len() % 32 == 0,
    ensures
        r == forall|k: int|
            0 <= k < rounds - 1 ==> fri::opening_accepted(
                (#[trigger] ops@[k]).proof_bytes@,
                ops@[k].values@,
                roots@[k]@,
                pow2((a - k - 1) as nat) as usize,
            ),
{
    let mut k: usize = 0;
    while k < ops.len()
        invariant
            k <= ops.len(),
            0 < rounds <= a <= 32,
            pow2(a as nat) <= usize::MAX,
            ops@.len() == rounds - 1,
            roots@.len() == rounds - 1,
            forall|k: int|
                0 <= k < ops@.len() && folds_accepted(ops@, roots@, a as nat, k) ==> (
                #[trigger] ops@[k]).proof_bytes@.len() % 32 == 0,
            forall|j: int|
                0 <= j < k ==> fri::opening_accepted(
                    (#[trigger] ops@[j]).proof_bytes@,
                    ops@[j].values@,
                    roots@[j]@,
                    pow2((a - j - 1) as nat) as usize,
                ),
        decreases ops.len() - k,
    {
        proof {
            multilinear::lemma_pow2_mono((a - k - 1) as nat, a as nat);
        }
        let cur_len: usize = domain::two_power(a - k - 1);
        assert(folds_accepted(ops@, roots@, a as nat, k as int));
        assert(ops@[k as int].proof_bytes@.len() % 32 == 0);
        if !fri::check_opening(&ops[k].proof_bytes, &ops[k].values, &roots[k], cur_len) {
            return false;
        }
        k += 1;
    }
    true
}

/// Opening `i` of a list has a column at `p`, no longer than its weights, which
/// stand at `from + i`.
pub open spec fn column_fits<LF: Field>(
    ops: Seq<BaseOpening<LF>>,
    weights: Seq<Vec<GoldilocksExt2>>,
    from: int,
    i: int,
    p: usize,
) -> bool {
    ops[i].values@.contains_key(p) && ops[i].values@[p]@.len() <= weights[from + i]@.len()
}

/// The combined first level at the given positions.
fn combine_opened(
    proof: &BatchProof<Goldilocks, GoldilocksExt2>,
    weights: &Vec<Vec<GoldilocksExt2>>,
    coeffs: &Vec<GoldilocksExt2>,
    positions: &Vec<usize>,
    claims: Ghost<Seq<BatchClaim>>,
) -> (r: BTreeMap<usize, GoldilocksExt2>)
    requires
        claims@.len() == proof.base_bf@.len() + proof.base_ef@.len(),
        claims@.len() <= usize::MAX,
        weights@.len() == claims@.len(),
        coeffs@.len() == claims@.len(),
        forall|c: int|
            0 <= c < claims@.len() ==> (#[trigger] weights@[c])@ == multilinear::eq_table(
                claims@[c].point.take(claims@[c].li as int),
            ),
        forall|i: int, p: usize|
            0 <= i < proof.base_bf@.len() && positions@.contains(p) ==> #[trigger] column_fits(
                proof.base_bf@,
                weights@,
                0,
                i,
                p,
            ),
        forall|i: int, p: usize|
            0 <= i < proof.base_ef@.len() && positions@.contains(p) ==> #[trigger] column_fits(
                proof.base_ef@,
                weights@,
                proof.base_bf@.len() as int,
                i,
                p,
            ),
    ensures
        r@ == proof.combined_values(claims@, coeffs@, positions@),
{
    let nb: usize = proof.base_bf.len();
    let mut r: BTreeMap<usize, GoldilocksExt2> = BTreeMap::new();
    let ghost want = proof.combined_values(claims@, coeffs@, positions@);
    let mut i: usize = 0;
    assert(r@.dom() =~= positions@.take(0).to_set());
    while i < positions.len()
        invariant
            i <= positions.len(),
            nb == proof.base_bf@.len(),
            claims@.len() == proof.base_bf@.len() + proof.base_ef@.len(),
            claims@.len() <= usize::MAX,
            weights@.len() == claims@.len(),
            coeffs@.len() == claims@.len(),
            forall|c: int|
                0 <= c < claims@.len() ==> (#[trigger] weights@[c])@ == multilinear::eq_table(
                    claims@[c].point.take(claims@[c].li as int),
                ),
            forall|i: int, p: usize|
                0 <= i < proof.base_bf@.len() && positions@.contains(p)
                    ==> #[trigger] column_fits(proof.base_bf@, weights@, 0, i, p),
            forall|i: int, p: usize|
                0 <= i < proof.base_ef@.len() && positions@.contains(p)
                    ==> #[trigger] column_fits(
                    proof.base_ef@,
                    weights@,
                    proof.base_bf@.len() as int,
                    i,
                    p,
                ),
            want == proof.combined_values(claims@, coeffs@, positions@),
            r@.dom() == positions@.take(i as int).to_set(),
            forall|p: usize| #[trigger] r@.contains_key(p) ==> r@[p] == want[p],
        decreases positions.len() - i,
    {
        let p: usize = positions[i];
        assert(positions@.contains(p));
        let ghost f = |c: int| coeffs@[c] * proof.channel_value(claims@, c, p);
        proof {
            assert forall|k: int| 0 <= k < proof.base_bf@.len() implies (#[trigger] proof.base_bf@[k]).values@.contains_key(
                p,
            ) && proof.base_bf@[k].values@[p]@.len() <= weights@[0 + k]@.len() && f(0 + k)
                == coeffs@[0 + k] * compress_leaf(
                proof.base_bf@[k].values@[p]@,
                weights@[0 + k]@,
            ) by {
                assert(column_fits(proof.base_bf@, weights@, 0, k, p));
                assert(weights@[k]@ == multilinear::eq_table(
                    claims@[k].point.take(claims@[k].li as int),
                ));
            }
            assert forall|k: int| 0 <= k < proof.base_ef@.len() implies (#[trigger] proof.base_ef@[k]).values@.contains_key(
                p,
            ) && proof.base_ef@[k].values@[p]@.len() <= weights@[nb + k]@.len() && f(nb + k)
                == coeffs@[nb + k] * compress_leaf(
                proof.base_ef@[k].values@[p]@,
                weights@[nb + k]@,
            ) by {
                assert(column_fits(proof.base_ef@, weights@, nb as int, k, p));
                assert(weights@[nb + k]@ == multilinear::eq_table(
                    claims@[nb + k].point.take(claims@[nb + k].li as int),
                ));
            }
        }
        let zero = GoldilocksExt2::new_zero();
        let acc = add_channels(&proof.base_bf, weights, coeffs, 0, p, zero, Ghost(f));
        let acc = add_channels(&proof.base_ef, weights, coeffs, nb, p, acc, Ghost(f));
        let ghost before = r@;
        leaves::put(&mut r, p, acc);
        proof {
            fri::lemma_set_push(positions@, i as int);
            assert(r@.dom() =~= before.dom().insert(p));
            assert(want.contains_key(p));
            assert(want[p] == algebra::sum(claims@.len(), f));
        }
        i += 1;
    }
    assert(positions@.take(positions@.len() as int) =~= positions@);
    assert forall|p: usize| r@.dom().contains(p) == want.dom().contains(p) by {
        assert(positions@.to_set().contains(p) == positions@.contains(p));
    }
    assert(r@ =~= want);
    r
}

/// The coefficient-weighted sum of the reduced claims.
fn weighted_claims(
    coeffs: &Vec<GoldilocksExt2>,
    ys: &Vec<GoldilocksExt2>,
) -> (r: GoldilocksExt2)
    requires
        coeffs@.len() == ys@.len(),
    ensures
        r == algebra::sum(ys@.len(), |c: int| coeffs@[c] * ys@[c]),
{
    let mut acc = GoldilocksExt2::new_zero();
    let mut c: usize = 0;
    let ghost f = |c: int| coeffs@[c] * ys@[c];
    while c < ys.len()
        invariant
            c <= ys.len(),
            coeffs@.len() == ys@.len(),
            f == (|c: int| coeffs@[c] * ys@[c]),
            acc == algebra::sum(c as nat, f),
        decreases ys.len() - c,
    {
        acc = acc.add(coeffs[c].mul(ys[c]));
        c += 1;
    }
    acc
}

/// Compares a proof with its claims in number and length.
fn shape_matches(
    bf_claims: &[(&BasefoldCommit, Vec<GoldilocksExt2>, GoldilocksExt2, usize)],
    ef_claims: &[(&BasefoldCommit, Vec<GoldilocksExt2>, GoldilocksExt2, usize)],
    proof: &BatchProof<Goldilocks, GoldilocksExt2>,
) -> (r: bool)
    requires
        bf_claims@.len() + ef_claims@.len() <= usize::MAX,
        proof.code_rate <= proof.log_len,
    ensures
        r == proof.shape_fits(bf_claims@.len() as int, batch_claims(bf_claims@, ef_claims@)),
        r ==> forall|i: int|
            0 <= i < bf_claims@.len() ==> #[trigger] claim_fits(
                bf_claims@,
                proof.reduction_msgs@,
                0,
                i,
                proof.rounds() as int,
            ),
        r ==> forall|i: int|
            0 <= i < ef_claims@.len() ==> #[trigger] claim_fits(
                ef_claims@,
                proof.reduction_msgs@,
                bf_claims@.len() as int,
                i,
                proof.rounds() as int,
            ),
{
    let ghost claims = batch_claims(bf_claims@, ef_claims@);
    let rounds: usize = proof.log_len - proof.code_rate;
    let folds: usize = if rounds == 0 {
        0
    } else {
        rounds - 1
    };
    let num_bf: usize = bf_claims.len();
    let ghost nb = num_bf as int;
    proof {
        assert forall|i: int| 0 <= i < nb implies claims[i] == (#[trigger] claim_list(
            bf_claims@,
        )[i]) && claims[i].point == bf_claims@[i].1@ && claims[i].li == bf_claims@[i].3 by {
        }
        assert forall|i: int| 0 <= i < ef_claims@.len() implies claims[nb + i] == (
        #[trigger] claim_list(ef_claims@)[i]) && claims[nb + i].point == ef_claims@[i].1@
            && claims[nb + i].li == ef_claims@[i].3 by {
        }
    }
    if proof.reduction_msgs.len() != num_bf + ef_claims.len() || proof.base_bf.len() != num_bf
        || proof.base_ef.len() != ef_claims.len() || proof.fold_roots.len() != folds
        || proof.fold_openings.len() != folds {
        return false;
    }
    if !claims_fit(bf_claims, &proof.reduction_msgs, 0, rounds) {
        proof {
            let i = choose|i: int|
                0 <= i < bf_claims@.len() && !#[trigger] claim_fits(
                    bf_claims@,
                    proof.reduction_msgs@,
                    0,
                    i,
                    rounds as int,
                );
            assert(claims[i] == claim_list(bf_claims@)[i]);
            assert(!proof.shape_fits(nb, claims));
        }
        return false;
    }
    if !claims_fit(ef_claims, &proof.reduction_msgs, num_bf, rounds) {
        proof {
            let i = choose|i: int|
                0 <= i < ef_claims@.len() && !#[trigger] claim_fits(
                    ef_claims@,
                    proof.reduction_msgs@,
                    num_bf as int,
                    i,
                    rounds as int,
                );
            assert(claims[nb + i] == claim_list(ef_claims@)[i]);
            assert(!proof.shape_fits(nb, claims));
        }
        return false;
    }
    proof {
        assert forall|c: int| 0 <= c < claims.len() implies (#[trigger] claims[c]).point.len()
            == claims[c].li + proof.rounds() && proof.reduction_msgs@[c]@.len()
            == proof.rounds() by {
            if c < nb {
                assert(claims[c] == claim_list(bf_claims@)[c]);
                assert(claim_fits(bf_claims@, proof.reduction_msgs@, 0, c, rounds as int));
            } else {
                assert(claims[nb + (c - nb)] == claim_list(ef_claims@)[c - nb]);
                assert(claim_fits(ef_claims@, proof.reduction_msgs@, nb, c - nb, rounds as int));
            }
        }
        assert(claims.len() == nb + ef_claims@.len());
        assert(proof.reduction_msgs@.len() == claims.len());
        assert(proof.base_ef@.len() == claims.len() - nb);
        assert(proof.fold_roots@.len() == proof.folds());
        assert(proof.shape_fits(nb, claims));
    }
    true
}

/// A proof that covers its queries has every value that they read.
proof fn lemma_batch_values(
    proof: BatchProof<Goldilocks, GoldilocksExt2>,
    claims: Seq<BatchClaim>,
    base: Seq<usize>,
    first: Map<usize, GoldilocksExt2>,
)
    requires
        proof.queries_covered(claims, base),
        proof.fold_openings@.len() == proof.folds(),
        forall|p: usize|
            fri::opened_positions(base, pow2((proof.log_len - 1) as nat) as int).contains(p)
                ==> #[trigger] first.contains_key(p),
    ensures
        fri::values_present(
            first,
            proof.fold_openings@,
            proof.rounds(),
            proof.log_len as nat,
            base,
        ),
{
    let (folded, rounds, a) = (proof.fold_openings@, proof.rounds(), proof.log_len as nat);
    assert forall|j: int, p: usize|
        0 <= j < rounds - 1 && fri::opened_positions(
            base,
            pow2((a - j - 2) as nat) as int,
        ).contains(p) implies #[trigger] folded[j].values@.contains_key(p)
        && folded[j].values@[p]@.len() > 0 by {
        assert(proof.fold_openings@[j].values@.contains_key(p));
    }
}

/// Some claim of a list has a zero coordinate at round `k`.
fn any_zero(
    claims: &[(&BasefoldCommit, Vec<GoldilocksExt2>, GoldilocksExt2, usize)],
    k: usize,
) -> (r: bool)
    requires
        forall|i: int| 0 <= i < claims@.len() ==> (#[trigger] claims@[i]).3 + k < claims@[i].1@.len(),
    ensures
        r == exists|i: int|
            0 <= i < claims@.len() && #[trigger] zero_coordinate(claim_list(claims@), i, k as int),
{
    let mut i: usize = 0;
    while i < claims.len()
        invariant
            i <= claims.len(),
            forall|i: int|
                0 <= i < claims@.len() ==> (#[trigger] claims@[i]).3 + k < claims@[i].1@.len(),
            forall|j: int|
                0 <= j < i ==> !#[trigger] zero_coordinate(claim_list(claims@), j, k as int),
        decreases claims.len() - i,
    {
        assert(claims@[i as int].3 + k < claims@[i as int].1@.len());
        let n: usize = claims[i].1.len();
        assert(n == claims@[i as int].1@.len());
        let at: usize = claims[i].3 + k;
        if claims[i].1[at].equals(GoldilocksExt2::new_zero()) {
            assert(zero_coordinate(claim_list(claims@), i as int, k as int));
            return true;
        }
        i += 1;
    }
    false
}

/// Every claim can be reduced just where no round meets a zero coordinate.
proof fn lemma_reducible(
    proof: BatchProof<Goldilocks, GoldilocksExt2>,
    nb: int,
    claims: Seq<BatchClaim>,
    ch: Seq<GoldilocksExt2>,
)
    requires
        proof.shape_fits(nb, claims),
        ch.len() == proof.rounds(),
    ensures
        proof.reducible(claims, ch) <==> forall|k: int|
            0 <= k < proof.rounds() ==> #[trigger] divisible(claims, k),
{
    assert forall|c: int| 0 <= c < claims.len() implies (reduced_claim(
        #[trigger] claims[c],
        proof.reduction_msgs@[c]@,
        ch,
    ) is Some <==> forall|k: int|
        0 <= k < proof.rounds() ==> !#[trigger] zero_coordinate(claims, c, k)) by {
        let zp = claims[c].point.skip(claims[c].li as int);
        lemma_batch_chain_some(claims[c].value, proof.reduction_msgs@[c]@, zp, ch);
        assert forall|k: int| 0 <= k < proof.rounds() implies (zp[k] == GoldilocksExt2::zero())
            == #[trigger] zero_coordinate(claims, c, k) by {}
        if forall|k: int| 0 <= k < proof.rounds() ==> !#[trigger] zero_coordinate(claims, c, k) {
            assert forall|k: int| 0 <= k < zp.len() implies #[trigger] zp[k]
                != GoldilocksExt2::zero() by {
                assert(!zero_coordinate(claims, c, k));
            }
        }
    }
    if proof.reducible(claims, ch) {
        assert forall|k: int| 0 <= k < proof.rounds() implies #[trigger] divisible(claims, k) by {
            assert forall|c: int| 0 <= c < claims.len() implies !#[trigger] zero_coordinate(
                claims,
                c,
                k,
            ) by {
                assert(reduced_claim(claims[c], proof.reduction_msgs@[c]@, ch) is Some);
            }
        }
    }
    if forall|k: int| 0 <= k < proof.rounds() ==> #[trigger] divisible(claims, k) {
        assert forall|c: int| 0 <= c < claims.len() implies reduced_claim(
            #[trigger] claims[c],
            proof.reduction_msgs@[c]@,
            ch,
        ) is Some by {
            assert forall|k: int| 0 <= k < proof.rounds() implies !#[trigger] zero_coordinate(
                claims,
                c,
                k,
            ) by {
                assert(divisible(claims, k));
            }
        }
    }
}

impl Basefold<Goldilocks, GoldilocksExt2> {
    /// Verifies a batched opening. Each claim is a commitment, a point, the claimed
    /// value and the commitment's interleaving; base field commitments come first.
    /// A proof that does not agree with the claims in number and length is rejected
    /// before a challenge is read, and a claim that cannot be reduced in the round that
    /// divides by its zero coordinate. Each part of the proof is asked for only where the
    /// checks before it are passed.
    pub fn batch_verify(
        bf_claims: &[(&BasefoldCommit, Vec<GoldilocksExt2>, GoldilocksExt2, usize)],
        ef_claims: &[(&BasefoldCommit, Vec<GoldilocksExt2>, GoldilocksExt2, usize)],
        proof: &BatchProof<Goldilocks, GoldilocksExt2>,
        oracle: &mut RandomOracle<GoldilocksExt2>,
    ) -> (r: bool)
        requires
            old(oracle).has_fields(
                proof.fields_read(
                    bf_claims@.len() as int,
                    batch_claims(bf_claims@, ef_claims@),
                ) as int,
            ),
            bf_claims@.len() + ef_claims@.len() <= usize::MAX,
            proof.code_rate <= proof.log_len,
            proof.shape_fits(bf_claims@.len() as int, batch_claims(bf_claims@, ef_claims@))
                ==> forall|c: int|
                0 <= c < bf_claims@.len() + ef_claims@.len() ==> pow2(
                    (#[trigger] batch_claims(bf_claims@, ef_claims@)[c]).li,
                ) <= usize::MAX,
            proof.shape_fits(bf_claims@.len() as int, batch_claims(bf_claims@, ef_claims@))
                && proof.reducible(
                batch_claims(bf_claims@, ef_claims@),
                old(oracle).upcoming(
                    bf_claims@.len() + ef_claims@.len() + proof.rounds(),
                ).skip((bf_claims@.len() + ef_claims@.len()) as int),
            ) ==> {
                &&& old(oracle).has_ints(fri::query_count(proof.code_rate as nat) as int)
                &&& proof.complete(
                    bf_claims@.len() as int,
                    batch_claims(bf_claims@, ef_claims@),
                    proof.queries(
                        old(oracle).upcoming_ints(fri::query_count(proof.code_rate as nat)),
                    ),
                )
            },
        ensures
            ({
                let num = bf_claims@.len() + ef_claims@.len();
                let tape = old(oracle).upcoming(num + proof.rounds());
                r == proof.accepted(
                    bf_claims@.len() as int,
                    batch_claims(bf_claims@, ef_claims@),
                    tape.take(num as int),
                    tape.skip(num as int),
                    proof.queries(
                        old(oracle).upcoming_ints(fri::query_count(proof.code_rate as nat)),
                    ),
                )
            }),
            final(oracle).wf(),
            r ==> old(oracle).advanced(
                *final(oracle),
                (bf_claims@.len() + ef_claims@.len() + proof.rounds()) as int,
                fri::query_count(proof.code_rate as nat) as int,
            ),
            old(oracle).advanced(
                *final(oracle),
                proof.fields_read(
                    bf_claims@.len() as int,
                    batch_claims(bf_claims@, ef_claims@),
                ) as int,
                proof.ints_read(
                    bf_claims@.len() as int,
                    batch_claims(bf_claims@, ef_claims@),
                    old(oracle).upcoming(
                        bf_claims@.len() + ef_claims@.len() + proof.rounds(),
                    ).skip((bf_claims@.len() + ef_claims@.len()) as int),
                ) as int,
            ),
    {
        let ghost claims = batch_claims(bf_claims@, ef_claims@);
        let ghost start = *oracle;
        let a: usize = proof.log_len;
        let code_rate: usize = proof.code_rate;
        let rounds: usize = a - code_rate;
        let num_bf: usize = bf_claims.len();
        let num_channels: usize = num_bf + ef_claims.len();
        let ghost tape = start.upcoming((num_channels + rounds) as nat);
        let ghost base_spec = proof.queries(
            start.upcoming_ints(fri::query_count(code_rate as nat)),
        );
        if !shape_matches(bf_claims, ef_claims, proof) {
            return false;
        }
        proof {
            assert forall|i: int| 0 <= i < bf_claims@.len() implies claims[i] == (#[trigger] claim_list(bf_claims@)[i])
                && claims[i].point == bf_claims@[i].1@ && claims[i].li == bf_claims@[i].3 by {
            }
            assert forall|i: int| 0 <= i < ef_claims@.len() implies claims[num_bf + i]
                == (#[trigger] claim_list(ef_claims@)[i]) && claims[num_bf + i].point
                == ef_claims@[i].1@ && claims[num_bf + i].li == ef_claims@[i].3 by {
            }
            assert forall|i: int| 0 <= i < bf_claims@.len() implies (#[trigger] bf_claims@[i]).3
                <= bf_claims@[i].1@.len() && pow2(bf_claims@[i].3 as nat) <= usize::MAX by {
                assert(pow2(claims[i].li) <= usize::MAX);
            }
            assert forall|i: int| 0 <= i < ef_claims@.len() implies (#[trigger] ef_claims@[i]).3
                <= ef_claims@[i].1@.len() && pow2(ef_claims@[i].3 as nat) <= usize::MAX by {
                assert(pow2(claims[num_bf + i].li) <= usize::MAX);
            }
        }
        let mut weights: Vec<Vec<GoldilocksExt2>> = Vec::new();
        push_weights(bf_claims, &mut weights);
        let ghost w_bf = weights@;
        push_weights(ef_claims, &mut weights);
        proof {
            assert forall|c: int| 0 <= c < claims.len() implies (#[trigger] weights@[c])@
                == multilinear::eq_table(claims[c].point.take(claims[c].li as int)) by {
                if c < num_bf {
                    assert(weights@[c] == w_bf[c]);
                    assert(bf_claims@[c].1@ == claims[c].point);
                    assert(w_bf[0 + c]@ == multilinear::eq_table(
                        bf_claims@[c].1@.take(bf_claims@[c].3 as int),
                    ));
                } else {
                    let i = c - num_bf;
                    assert(ef_claims@[i].1@ == claims[c].point);
                    assert(weights@[w_bf.len() + i]@ == multilinear::eq_table(
                        ef_claims@[i].1@.take(ef_claims@[i].3 as int),
                    ));
                }
            }
        }
        let coeffs = oracle.next_n_fields(num_channels);
        assert(coeffs@ =~= tape.take(num_channels as int));
        let ghost ch = tape.skip(num_channels as int);
        let ghost total = proof.fields_read(num_bf as int, claims);
        proof {
            lemma_reducible(*proof, num_bf as int, claims, ch);
            assert(ch.take(0) =~= Seq::<GoldilocksExt2>::empty());
        }
        let mut challenges: Vec<GoldilocksExt2> = Vec::new();
        let mut round: usize = 0;
        while round < rounds
            invariant
                round <= rounds,
                rounds == proof.rounds(),
                num_bf == bf_claims@.len(),
                num_channels == num_bf + ef_claims@.len(),
                claims == batch_claims(bf_claims@, ef_claims@),
                claims.len() == num_channels,
                proof.shape_fits(num_bf as int, claims),
                forall|i: int|
                    0 <= i < bf_claims@.len() ==> #[trigger] claim_fits(
                        bf_claims@,
                        proof.reduction_msgs@,
                        0,
                        i,
                        rounds as int,
                    ),
                forall|i: int|
                    0 <= i < ef_claims@.len() ==> #[trigger] claim_fits(
                        ef_claims@,
                        proof.reduction_msgs@,
                        num_bf as int,
                        i,
                        rounds as int,
                    ),
                start == *old(oracle),
                tape == start.upcoming((num_channels + rounds) as nat),
                ch == tape.skip(num_channels as int),
                ch.len() == rounds,
                proof.reducible(claims, ch) <==> forall|k: int|
                    0 <= k < rounds ==> #[trigger] divisible(claims, k),
                total == proof.fields_read(num_bf as int, claims),
                total == num_channels + round + reduction_read(
                    claims,
                    rounds as nat,
                    round as nat,
                ),
                start.has_fields(total as int),
                oracle.wf(),
                start.advanced(*oracle, num_channels + round, 0),
                challenges@ == ch.take(round as int),
                forall|k: int| 0 <= k < round ==> #[trigger] divisible(claims, k),
            decreases rounds - round,
        {
            let r = oracle.next_field();
            challenges.push(r);
            proof {
                assert(r == ch[round as int]);
                assert(ch.take(round + 1) =~= ch.take(round as int).push(r));
                assert forall|i: int| 0 <= i < bf_claims@.len() implies (#[trigger] bf_claims@[i]).3
                    + round < bf_claims@[i].1@.len() by {
                    assert(claim_fits(bf_claims@, proof.reduction_msgs@, 0, i, rounds as int));
                }
                assert forall|i: int| 0 <= i < ef_claims@.len() implies (#[trigger] ef_claims@[i]).3
                    + round < ef_claims@[i].1@.len() by {
                    assert(claim_fits(
                        ef_claims@,
                        proof.reduction_msgs@,
                        num_bf as int,
                        i,
                        rounds as int,
                    ));
                }
                assert forall|i: int| 0 <= i < bf_claims@.len() implies #[trigger] zero_coordinate(
                    claims,
                    i,
                    round as int,
                ) == zero_coordinate(claim_list(bf_claims@), i, round as int) by {
                    assert(claims[i] == claim_list(bf_claims@)[i]);
                }
                assert forall|i: int| 0 <= i < ef_claims@.len() implies zero_coordinate(
                    claims,
                    num_bf + i,
                    round as int,
                ) == #[trigger] zero_coordinate(claim_list(ef_claims@), i, round as int) by {
                    assert(claims[num_bf + i] == claim_list(ef_claims@)[i]);
                }
            }
            if any_zero(bf_claims, round) {
                proof {
                    let i = choose|i: int|
                        0 <= i < bf_claims@.len() && #[trigger] zero_coordinate(
                            claim_list(bf_claims@),
                            i,
                            round as int,
                        );
                    assert(zero_coordinate(claims, i, round as int));
                    assert(!divisible(claims, round as int));
                }
                return false;
            }
            if any_zero(ef_claims, round) {
                proof {
                    let i = choose|i: int|
                        0 <= i < ef_claims@.len() && #[trigger] zero_coordinate(
                            claim_list(ef_claims@),
                            i,
                            round as int,
                        );
                    assert(zero_coordinate(claims, num_bf + i, round as int));
                    assert(!divisible(claims, round as int));
                }
                return false;
            }
            proof {
                assert forall|c: int| 0 <= c < claims.len() implies !#[trigger] zero_coordinate(
                    claims,
                    c,
                    round as int,
                ) by {
                    if c >= num_bf {
                        assert(!zero_coordinate(claim_list(ef_claims@), c - num_bf, round as int));
                    } else {
                        assert(!zero_coordinate(claim_list(bf_claims@), c, round as int));
                    }
                }
            }
            round += 1;
        }
        assert(challenges@ =~= ch);
        assert(proof.reducible(claims, ch));
        let ghost ys_spec = |c: int|
            reduced_claim(claims[c], proof.reduction_msgs@[c]@, challenges@);
        proof {
            assert forall|i: int| 0 <= i < bf_claims@.len() implies reduced_claim(
                #[trigger] claim_list(bf_claims@)[i],
                proof.reduction_msgs@[0 + i]@,
                challenges@,
            ) is Some by {
                assert(claims[i] == claim_list(bf_claims@)[i]);
                assert(reduced_claim(claims[i], proof.reduction_msgs@[i]@, ch) is Some);
            }
            assert forall|i: int| 0 <= i < ef_claims@.len() implies reduced_claim(
                #[trigger] claim_list(ef_claims@)[i],
                proof.reduction_msgs@[num_bf + i]@,
                challenges@,
            ) is Some by {
                assert(claims[num_bf + i] == claim_list(ef_claims@)[i]);
                assert(reduced_claim(
                    claims[num_bf + i],
                    proof.reduction_msgs@[num_bf + i]@,
                    ch,
                ) is Some);
            }
        }
        let mut ys: Vec<GoldilocksExt2> = Vec::new();
        let _red_bf = push_reduced(bf_claims, &proof.reduction_msgs, 0, &challenges, &mut ys);
        let ghost ys_bf = ys@;
        let _red_ef = push_reduced(
            ef_claims,
            &proof.reduction_msgs,
            num_bf,
            &challenges,
            &mut ys,
        );
        proof {
            assert forall|c: int| 0 <= c < claims.len() implies (#[trigger] ys_spec(c)) == Some(
                ys@[c],
            ) by {
                if c < num_bf {
                    assert(claims[c] == claim_list(bf_claims@)[c]);
                    assert(ys@[c] == ys_bf[c]);
                    assert(ys_bf[0 + c] == ys_bf[c]);
                } else {
                    let i = c - num_bf;
                    assert(claims[num_bf + i] == claim_list(ef_claims@)[i]);
                    assert(ys@[num_bf + i] == ys@[c]);
                }
            }
        }
        proof {
            assert(proof.complete(num_bf as int, claims, base_spec));
            multilinear::lemma_pow2_step(a as nat);
        }
        let d: usize = domain::two_power(a);
        let q: usize = fri::query_num(code_rate);
        let base = fri::draw_queries(oracle, q, d / 2);
        assert(base@ == base_spec);
        let base_positions = fri::level_positions(&base, d / 2);
        let ghost (roots_bf, roots_ef) = (
            proof.bf_roots(num_bf as int, claims),
            proof.ef_roots(num_bf as int, claims),
        );
        proof {
            assert(roots_bf =~= Seq::new(bf_claims@.len(), |i: int| bf_claims@[i].0.0@)) by {
                assert forall|i: int| 0 <= i < bf_claims@.len() implies claims[i]
                    == #[trigger] claim_list(bf_claims@)[i] by {}
            }
            assert(roots_ef =~= Seq::new(ef_claims@.len(), |i: int| ef_claims@[i].0.0@)) by {
                assert forall|i: int| 0 <= i < ef_claims@.len() implies claims[num_bf + i]
                    == #[trigger] claim_list(ef_claims@)[i] by {}
            }
        }
        if !check_bases(&proof.base_bf, bf_claims, Ghost(roots_bf), &base_positions, d) {
            proof {
                let i = choose|i: int|
                    0 <= i < proof.base_bf@.len() && !(leaves::keys_of(
                        (#[trigger] proof.base_bf@[i]).values@,
                    ) == base_positions@ && fri::opening_accepted(
                        proof.base_bf@[i].proof_bytes@,
                        proof.base_bf@[i].values@,
                        bf_claims@[i].0.0@,
                        d,
                    ));
                assert(claims[i] == claim_list(bf_claims@)[i]);
                assert(!proof.bases_accepted(num_bf as int, claims, base_spec));
            }
            return false;
        }
        if !check_bases(&proof.base_ef, ef_claims, Ghost(roots_ef), &base_positions, d) {
            proof {
                let i = choose|i: int|
                    0 <= i < proof.base_ef@.len() && !(leaves::keys_of(
                        (#[trigger] proof.base_ef@[i]).values@,
                    ) == base_positions@ && fri::opening_accepted(
                        proof.base_ef@[i].proof_bytes@,
                        proof.base_ef@[i].values@,
                        ef_claims@[i].0.0@,
                        d,
                    ));
                assert(claims[num_bf + i] == claim_list(ef_claims@)[i]);
                assert(!proof.bases_accepted(num_bf as int, claims, base_spec));
            }
            return false;
        }
        proof {
            assert(proof.bases_accepted(num_bf as int, claims, base_spec)) by {
                assert forall|i: int| 0 <= i < proof.base_bf@.len() implies leaves::keys_of(
                    (#[trigger] proof.base_bf@[i]).values@,
                ) == base_positions@ && fri::opening_accepted(
                    proof.base_bf@[i].proof_bytes@,
                    proof.base_bf@[i].values@,
                    claims[i].root,
                    d,
                ) by {
                    assert(claims[i] == claim_list(bf_claims@)[i]);
                }
                assert forall|i: int| 0 <= i < proof.base_ef@.len() implies leaves::keys_of(
                    (#[trigger] proof.base_ef@[i]).values@,
                ) == base_positions@ && fri::opening_accepted(
                    proof.base_ef@[i].proof_bytes@,
                    proof.base_ef@[i].values@,
                    claims[i + num_bf].root,
                    d,
                ) by {
                    assert(claims[num_bf + i] == claim_list(ef_claims@)[i]);
                }
            }
        }
        if !check_folds(&proof.fold_openings, &proof.fold_roots, a, rounds) {
            return false;
        }
        assert(folds_accepted(
            proof.fold_openings@,
            proof.fold_roots@,
            a as nat,
            proof.rounds() - 1,
        ));
        assert(proof.queries_covered(claims, base_spec));
        proof {
            assert forall|i: int, p: usize|
                0 <= i < proof.base_bf@.len() && base_positions@.contains(
                    p,
                ) implies #[trigger] column_fits(proof.base_bf@, weights@, 0, i, p) by {
                assert(proof.base_bf@[i].values@.contains_key(p));
                assert(weights@[i]@ == multilinear::eq_table(
                    claims[i].point.take(claims[i].li as int),
                ));
                multilinear::lemma_eq_table_len(claims[i].point.take(claims[i].li as int));
            }
            assert forall|i: int, p: usize|
                0 <= i < proof.base_ef@.len() && base_positions@.contains(
                    p,
                ) implies #[trigger] column_fits(
                proof.base_ef@,
                weights@,
                proof.base_bf@.len() as int,
                i,
                p,
            ) by {
                let c = num_bf + i;
                assert(proof.base_ef@[i].values@.contains_key(p));
                assert(weights@[c]@ == multilinear::eq_table(
                    claims[c].point.take(claims[c].li as int),
                ));
                multilinear::lemma_eq_table_len(claims[c].point.take(claims[c].li as int));
                assert(claims[i + proof.base_bf@.len()] == claims[c]);
            }
        }
        let first = combine_opened(proof, &weights, &coeffs, &base_positions, Ghost(claims));
        proof {
            fri::lemma_opened_positions(base@, (d / 2) as int);
            assert((a - rounds) as nat == code_rate as nat);
            assert(base_positions@ == fri::opened_positions(base@, (d / 2) as int));
            assert((d / 2) as int == pow2((a - 1) as nat) as int);
            assert forall|p: usize|
                fri::opened_positions(base@, pow2((a - 1) as nat) as int).contains(
                    p,
                ) implies #[trigger] first@.contains_key(p) by {
                assert(base_positions@.contains(p));
            }
            lemma_batch_values(*proof, claims, base@, first@);
            assert(challenges@.len() == proof.rounds());
        }
        if !fri::check_queries(
            &first,
            &proof.fold_openings,
            &proof.final_codeword,
            &challenges,
            a,
            &base,
        ) {
            return false;
        }
        if !all_equal(&proof.final_codeword) {
            return false;
        }
        let combined_claim = weighted_claims(&coeffs, &ys);
        proof {
            multilinear::lemma_pow2_mono(0, code_rate as nat);
            algebra::sum_ext(
                claims.len(),
                |c: int| coeffs@[c] * ys@[c],
                |c: int| coeffs@[c] * (ys_spec(c))->0,
            );
        }
        if !combined_claim.equals(proof.final_codeword[0]) {
            return false;
        }
        true
    }
}

/// The claim that a commitment's polynomial has its own value at `point`.
pub open spec fn task_claim<LF: LeafField>(
    state: BasefoldProverState<LF, GoldilocksExt2>,
    point: Seq<GoldilocksExt2>,
) -> BatchClaim {
    BatchClaim {
        root: state.root(),
        point,
        value: multilinear::mle(state.evals(), point),
        li: state.interleave(),
    }
}

/// The true claims of a batch.
pub open spec fn true_claims(
    bf: Seq<(&BasefoldProverState<Goldilocks, GoldilocksExt2>, Vec<GoldilocksExt2>)>,
    ef: Seq<(&BasefoldProverState<GoldilocksExt2, GoldilocksExt2>, Vec<GoldilocksExt2>)>,
) -> Seq<BatchClaim> {
    Seq::new(bf.len(), |i: int| task_claim(*bf[i].0, bf[i].1@)) + Seq::new(
        ef.len(),
        |i: int| task_claim(*ef[i].0, ef[i].1@),
    )
}

/// The far end of a line, recovered from its near end and its value at `z`.
proof fn lemma_recover_end(l0: GoldilocksExt2, l1: GoldilocksExt2, z: GoldilocksExt2)
    requires
        l1.valid(),
        z.valid(),
        z != GoldilocksExt2::zero(),
    ensures
        (gkr::mean(l0, l1, z) - (GoldilocksExt2::one() - z) * l0) * z.inv() == l1,
{
    let k = (GoldilocksExt2::one() - z) * l0;
    let t = z * l1;
    GoldilocksExt2::law_valid(z, l1);
    GoldilocksExt2::law_add_comm(k, t);
    algebra::sub_add(t, k);
    GoldilocksExt2::law_mul_comm(z, l1);
    GoldilocksExt2::law_mul_assoc(l1, z, z.inv());
    GoldilocksExt2::law_inv(z);
    GoldilocksExt2::law_mul_one(l1);
}

/// The honest messages reduce a true claim to the polynomial's value at the
/// challenges.
proof fn lemma_batch_chain_complete(
    m: Seq<GoldilocksExt2>,
    zp: Seq<GoldilocksExt2>,
    ch: Seq<GoldilocksExt2>,
    msgs: Seq<GoldilocksExt2>,
)
    requires
        m.len() == pow2(zp.len()),
        algebra::all_valid(m),
        algebra::all_valid(zp),
        ch.len() == zp.len(),
        forall|k: int| 0 <= k < zp.len() ==> #[trigger] zp[k] != GoldilocksExt2::zero(),
        msgs == Seq::new(ch.len(), |k: int| honest_line(m, zp, ch, k).0),
    ensures
        batch_chain(multilinear::mle(m, zp), msgs, zp, ch) == Some(multilinear::mle(m, ch)),
    decreases ch.len(),
{
    if ch.len() == 0 {
        assert(zp =~= ch);
    } else {
        let rest = zp.drop_first();
        let r = ch[0];
        let next = multilinear::fold_low(m, r);
        multilinear::lemma_pow2_step(zp.len());
        multilinear::lemma_fold_low_valid(m, r);
        assert(ch.take(0) =~= Seq::<GoldilocksExt2>::empty());
        assert(zp.skip(1) =~= rest);
        let (l0, l1) = honest_line(m, zp, ch, 0);
        assert(msgs[0] == l0);
        gkr::lemma_split_mean(m, zp[0], rest);
        assert(seq![zp[0]] + rest =~= zp);
        gkr::lemma_split_mean(m, r, rest);
        assert((seq![r] + rest).drop_first() =~= rest);
        let odd = gkr::odds(m);
        assert(algebra::all_valid(odd)) by {
            assert forall|i: int| 0 <= i < odd.len() implies (#[trigger] odd[i]).valid() by {
                assert(m[2 * i + 1].valid());
            }
        }
        multilinear::lemma_fold_all_len(odd, rest, rest.len());
        multilinear::lemma_fold_all_valid(odd, rest);
        multilinear::lemma_pow2_zero();
        lemma_recover_end(l0, l1, zp[0]);
        let cr = ch.drop_first();
        let tail = Seq::new(cr.len(), |k: int| honest_line(next, rest, cr, k).0);
        assert(msgs.drop_first() =~= tail) by {
            assert forall|k: int| 0 <= k < cr.len() implies #[trigger] msgs.drop_first()[k]
                == tail[k] by {
                assert(ch.take(k + 1).drop_first() =~= cr.take(k));
                assert(ch.take(k + 1)[0] == r);
                assert(multilinear::fold_all(m, ch.take(k + 1)) == multilinear::fold_all(
                    next,
                    cr.take(k),
                ));
                assert(zp.skip(k + 2) =~= rest.skip(k + 1));
                assert(msgs[k + 1] == honest_line(m, zp, ch, k + 1).0);
            }
        }
        assert(algebra::all_valid(rest)) by {
            assert forall|i: int| 0 <= i < rest.len() implies (#[trigger] rest[i]).valid() by {
                assert(zp[i + 1].valid());
            }
        }
        assert forall|k: int| 0 <= k < rest.len() implies #[trigger] rest[k]
            != GoldilocksExt2::zero() by {
            assert(zp[k + 1] != GoldilocksExt2::zero());
        }
        lemma_batch_chain_complete(next, rest, cr, tail);
    }
}

/// A linear combination of value tables is the combination of the polynomials.
pub proof fn lemma_mle_combination(
    ms: Seq<Seq<GoldilocksExt2>>,
    w: Seq<GoldilocksExt2>,
    m: nat,
    point: Seq<GoldilocksExt2>,
)
    requires
        m <= ms.len(),
        forall|j: int|
            0 <= j < ms.len() ==> (#[trigger] ms[j]).len() == pow2(point.len()),
    ensures
        multilinear::mle(
            Seq::new(pow2(point.len()), |k: int| algebra::sum(m, |j: int| w[j] * ms[j][k])),
            point,
        ) == algebra::sum(m, |j: int| w[j] * multilinear::mle(ms[j], point)),
    decreases m,
{
    let len = pow2(point.len());
    let s = Seq::new(len, |k: int| algebra::sum(m, |j: int| w[j] * ms[j][k]));
    if m == 0 {
        let z = GoldilocksExt2::zero();
        let zs = Seq::new(s.len(), |i: int| z * s[i]);
        assert forall|i: int| 0 <= i < s.len() implies #[trigger] zs[i] == s[i] by {
            algebra::mul_zero(s[i]);
        }
        assert(zs =~= s);
        multilinear::lemma_mle_scale(z, s, point);
        algebra::mul_zero(multilinear::mle(s, point));
    } else {
        let i = (m - 1) as nat;
        lemma_mle_combination(ms, w, i, point);
        let t = Seq::new(len, |k: int| algebra::sum(i, |j: int| w[j] * ms[j][k]));
        let u = ms[i as int];
        let last = Seq::new(u.len(), |k: int| w[i as int] * u[k]);
        assert(u.len() == len);
        let both = Seq::new(t.len(), |k: int| t[k] + last[k]);
        assert(s =~= both);
        multilinear::lemma_mle_add(t, last, point);
        multilinear::lemma_mle_scale(w[i as int], u, point);
        let f = |j: int| w[j] * multilinear::mle(ms[j], point);
        assert(algebra::sum(m, f) == algebra::sum(i, f) + f(i as int));
    }
}

/// What the honest column opening of one commitment gives the verifier.
proof fn lemma_base_opened<LF: LeafField>(
    op: BaseOpening<LF>,
    state: BasefoldProverState<LF, GoldilocksExt2>,
    point: Seq<GoldilocksExt2>,
    base: Seq<usize>,
    p: usize,
)
    requires
        state.wf(),
        state.log_len() > 0,
        point.len() == state.vars(),
        columns_opened(op.proof_bytes@, op.values@, state, base),
    ensures
        ({
            let positions = fri::opened_positions(
                base,
                pow2((state.log_len() - 1) as nat) as int,
            );
            &&& leaves::keys_of(op.values@) == positions
            &&& positions.contains(p) == op.values@.contains_key(p)
            &&& op.values@.contains_key(p) ==> {
                &&& op.values@[p]@.len() == pow2(state.interleave())
                &&& compress_leaf(
                    op.values@[p]@,
                    multilinear::eq_table(point.take(state.interleave() as int)),
                ) == first_level(state, point)[p as int]
                &&& p < pow2(state.log_len())
            }
        }),
{
    let half = pow2((state.log_len() - 1) as nat) as int;
    let positions = fri::opened_positions(base, half);
    multilinear::lemma_pow2_step(state.log_len());
    fri::lemma_opened_positions(base, half);
    leaves::lemma_keys_of(op.values@, positions);
    assert(positions.to_set().contains(p) == positions.contains(p));
    if op.values@.contains_key(p) {
        let w = multilinear::eq_table(point.take(state.interleave() as int));
        lemma_first_values(op.values@, state, w, base);
        assert(first_values(op.values@, w).contains_key(p));
        let i = choose|i: int| 0 <= i < positions.len() && positions[i] == p;
        assert(positions[i] < 2 * half);
        let source = |i: int| gkr::column(state.codewords(), i);
        assert(op.values@[p]@ == source(p as int));
    }
}

/// One channel's reduced claim and opened value.
proof fn lemma_task_value<LF: LeafField>(
    state: BasefoldProverState<LF, GoldilocksExt2>,
    point: Seq<GoldilocksExt2>,
    ch: Seq<GoldilocksExt2>,
)
    requires
        state.wf(),
        point.len() == state.vars(),
        ch.len() == state.rounds(),
        algebra::all_valid(point),
        forall|k: int|
            state.interleave() <= k < point.len() ==> #[trigger] point[k]
                != GoldilocksExt2::zero(),
    ensures
        reduced_claim(
            task_claim(state, point),
            honest_msgs(channel_of(state, point), ch),
            ch,
        ) == Some(multilinear::mle(residual(state, point), ch)),
        residual(state, point).len() == pow2(ch.len()),
{
    let li = state.interleave();
    let (p, zp) = (point.take(li as int), point.skip(li as int));
    let m = residual(state, point);
    lemma_first_level(state, point);
    multilinear::lemma_fold_all_concat(state.evals(), p, zp);
    assert(p + zp =~= point);
    assert(algebra::all_valid(zp)) by {
        assert forall|i: int| 0 <= i < zp.len() implies (#[trigger] zp[i]).valid() by {
            assert(point[i + li].valid());
        }
    }
    assert forall|k: int| 0 <= k < zp.len() implies #[trigger] zp[k]
        != GoldilocksExt2::zero() by {
        assert(point[k + li] != GoldilocksExt2::zero());
    }
    lemma_batch_chain_complete(m, zp, ch, honest_msgs(channel_of(state, point), ch));
}

/// Completeness of batched openings: the honest proof is complete and accepted for
/// the true claims. The coordinates that the reduction divides by must not vanish.
pub proof fn law_batch_complete(
    proof: BatchProof<Goldilocks, GoldilocksExt2>,
    bf: Seq<(&BasefoldProverState<Goldilocks, GoldilocksExt2>, Vec<GoldilocksExt2>)>,
    ef: Seq<(&BasefoldProverState<GoldilocksExt2, GoldilocksExt2>, Vec<GoldilocksExt2>)>,
    coeffs: Seq<GoldilocksExt2>,
    ch: Seq<GoldilocksExt2>,
    base: Seq<usize>,
)
    requires
        batch_fits(bf, ef, batch_log_len(bf, ef), batch_rate(bf, ef)),
        0 < batch_rate(bf, ef) < batch_log_len(bf, ef),
        coeffs.len() == bf.len() + ef.len(),
        ch.len() == batch_log_len(bf, ef) - batch_rate(bf, ef),
        forall|c: int|
            0 <= c < bf.len() + ef.len() ==> algebra::all_valid(
                (#[trigger] true_claims(bf, ef)[c]).point,
            ),
        forall|c: int, k: int|
            0 <= c < bf.len() + ef.len() && true_claims(bf, ef)[c].li <= k < true_claims(
                bf,
                ef,
            )[c].point.len() ==> #[trigger] true_claims(bf, ef)[c].point[k]
                != GoldilocksExt2::zero(),
        honest_batch(proof, bf, ef, coeffs, ch, base),
    ensures
        proof.complete(bf.len() as int, true_claims(bf, ef), base),
        proof.accepted(bf.len() as int, true_claims(bf, ef), coeffs, ch, base),
{
    let (a, rate) = (batch_log_len(bf, ef), batch_rate(bf, ef));
    let claims = true_claims(bf, ef);
    let channels = channels_of(bf, ef);
    let num = channels.len();
    let nb = bf.len() as int;
    let v = combined_level(channels, coeffs, pow2(a));
    let half = pow2((a - 1) as nat) as int;
    let positions = fri::opened_positions(base, half);
    lemma_first_task(bf, ef, a, rate);
    multilinear::lemma_pow2_step(a);
    fri::lemma_opened_positions(base, half);
    assert(proof.reduction_msgs@.len() == views::nested(proof.reduction_msgs@).len());
    assert forall|c: int| 0 <= c < num implies #[trigger] proof.reduction_msgs@[c]@
        == honest_msgs(channels[c], ch) by {
        assert(views::nested(proof.reduction_msgs@)[c] == proof.reduction_msgs@[c]@);
    }
    let ms = Seq::new(num, |c: int| channels[c].res);
    let ys = |c: int| reduced_claim(claims[c], proof.reduction_msgs@[c]@, ch);
    assert forall|c: int| 0 <= c < num implies claims[c].point.len() == claims[c].li + ch.len()
        && pow2(claims[c].li) <= usize::MAX && (#[trigger] ys(c)) == Some(
        multilinear::mle(ms[c], ch),
    ) && ms[c].len() == pow2(ch.len()) by {
        assert(algebra::all_valid(claims[c].point));
        assert(proof.reduction_msgs@[c]@ == honest_msgs(channels[c], ch));
        if c < nb {
            let (state, point) = (*bf[c].0, bf[c].1@);
            assert(task_fits(state, point, a, rate));
            assert forall|k: int| state.interleave() <= k < point.len() implies #[trigger] point[k]
                != GoldilocksExt2::zero() by {
                assert(claims[c].point[k] != GoldilocksExt2::zero());
            }
            lemma_task_value(state, point, ch);
            multilinear::lemma_pow2_mono(state.interleave(), state.vars());
        } else {
            let (state, point) = (*ef[c - nb].0, ef[c - nb].1@);
            assert(task_fits(state, point, a, rate));
            assert forall|k: int| state.interleave() <= k < point.len() implies #[trigger] point[k]
                != GoldilocksExt2::zero() by {
                assert(claims[c].point[k] != GoldilocksExt2::zero());
            }
            lemma_task_value(state, point, ch);
            multilinear::lemma_pow2_mono(state.interleave(), state.vars());
        }
    }
    assert forall|c: int| 0 <= c < claims.len() implies (#[trigger] claims[c]).point.len()
        == claims[c].li + proof.rounds() && proof.reduction_msgs@[c]@.len() == proof.rounds()
        && pow2(claims[c].li) <= usize::MAX by {
        assert(ys(c) == Some(multilinear::mle(ms[c], ch)));
        assert(proof.reduction_msgs@[c]@ == honest_msgs(channels[c], ch));
    }
    let roots = fri::level_roots(v, a, ch);
    assert(proof.fold_roots@.len() == roots.len()) by {
        assert(merkle::digest_views(proof.fold_roots@).len() == proof.fold_roots@.len());
    }
    // the opened columns
    assert forall|i: int| 0 <= i < proof.base_bf@.len() implies leaves::keys_of(
        (#[trigger] proof.base_bf@[i]).values@,
    ) == positions && fri::opening_accepted(
        proof.base_bf@[i].proof_bytes@,
        proof.base_bf@[i].values@,
        claims[i].root,
        pow2(a) as usize,
    ) && proof.base_bf@[i].proof_bytes@.len() % 32 == 0 by {
        assert(task_fits(*bf[i].0, bf[i].1@, a, rate));
        lemma_base_opened(proof.base_bf@[i], *bf[i].0, bf[i].1@, base, 0);
    }
    assert forall|i: int| 0 <= i < proof.base_ef@.len() implies leaves::keys_of(
        (#[trigger] proof.base_ef@[i]).values@,
    ) == positions && fri::opening_accepted(
        proof.base_ef@[i].proof_bytes@,
        proof.base_ef@[i].values@,
        claims[i + nb].root,
        pow2(a) as usize,
    ) && proof.base_ef@[i].proof_bytes@.len() % 32 == 0 by {
        assert(task_fits(*ef[i].0, ef[i].1@, a, rate));
        lemma_base_opened(proof.base_ef@[i], *ef[i].0, ef[i].1@, base, 0);
    }
    assert forall|i: int, p: usize|
        0 <= i < proof.base_bf@.len() && i < claims.len()
            && #[trigger] proof.base_bf@[i].values@.contains_key(
            p,
        ) implies proof.base_bf@[i].values@[p]@.len() <= pow2(claims[i].li) by {
        assert(task_fits(*bf[i].0, bf[i].1@, a, rate));
        lemma_base_opened(proof.base_bf@[i], *bf[i].0, bf[i].1@, base, p);
    }
    assert forall|i: int, p: usize|
        0 <= i < proof.base_ef@.len() && i + proof.base_bf@.len() < claims.len()
            && #[trigger] proof.base_ef@[i].values@.contains_key(
            p,
        ) implies proof.base_ef@[i].values@[p]@.len() <= pow2(
        claims[i + proof.base_bf@.len()].li,
    ) by {
        assert(task_fits(*ef[i].0, ef[i].1@, a, rate));
        lemma_base_opened(proof.base_ef@[i], *ef[i].0, ef[i].1@, base, p);
    }
    // the combined first level
    let first = proof.combined_values(claims, coeffs, positions);
    assert(first.dom() =~= positions.to_set());
    assert forall|p: usize| #[trigger] first.contains_key(p) implies first[p] == v[p as int] by {
        let i = choose|i: int| 0 <= i < positions.len() && positions[i] == p;
        assert(positions[i] < 2 * half);
        let f = |c: int| coeffs[c] * proof.channel_value(claims, c, p);
        let g = |c: int| coeffs[c] * channels[c].first[p as int];
        assert forall|c: int| 0 <= c < num implies #[trigger] f(c) == g(c) by {
            if c < nb {
                assert(task_fits(*bf[c].0, bf[c].1@, a, rate));
                assert(columns_opened(
                    proof.base_bf@[c].proof_bytes@,
                    proof.base_bf@[c].values@,
                    *bf[c].0,
                    base,
                ));
                lemma_base_opened(proof.base_bf@[c], *bf[c].0, bf[c].1@, base, p);
            } else {
                let i = c - nb;
                assert(task_fits(*ef[i].0, ef[i].1@, a, rate));
                assert(columns_opened(
                    proof.base_ef@[i].proof_bytes@,
                    proof.base_ef@[i].values@,
                    *ef[i].0,
                    base,
                ));
                lemma_base_opened(proof.base_ef@[i], *ef[i].0, ef[i].1@, base, p);
            }
        }
        algebra::sum_ext(num, f, g);
    }
    fri::lemma_honest_queries(first, proof.fold_openings@, v, ch, a, base);
    // the folded levels
    assert forall|k: int| 0 <= k < proof.rounds() - 1 implies fri::opening_accepted(
        (#[trigger] proof.fold_openings@[k]).proof_bytes@,
        proof.fold_openings@[k].values@,
        proof.fold_roots@[k]@,
        pow2((a - k - 1) as nat) as usize,
    ) && proof.fold_openings@[k].proof_bytes@.len() % 32 == 0 by {
        assert(fri::level_opened(proof.fold_openings@[k], v, a, ch, base, (k + 1) as nat));
        assert(merkle::digest_views(proof.fold_roots@)[k] == proof.fold_roots@[k]@);
        assert((a - (k + 1)) as nat == (a - k - 1) as nat);
    }
    // the final codeword
    fri::lemma_level_len(v, a, ch, ch.len());
    assert((a - ch.len()) as nat == rate);
    multilinear::lemma_pow2_mono(0, rate);
    lemma_combined_final(bf, ef, coeffs, ch);
    let total = algebra::sum(num, |c: int| coeffs[c] * multilinear::mle(ms[c], ch));
    assert forall|i: int| 0 <= i < pow2(rate) implies #[trigger] proof.final_codeword@[i]
        == total by {
        assert(fri::level(v, a, ch, ch.len())[i] == total);
    }
    let fy = |c: int| coeffs[c] * (ys(c))->0;
    let fm = |c: int| coeffs[c] * multilinear::mle(ms[c], ch);
    assert forall|c: int| 0 <= c < num implies #[trigger] fy(c) == fm(c) by {
        assert(ys(c) == Some(multilinear::mle(ms[c], ch)));
    }
    algebra::sum_ext(num, fy, fm);
    assert(proof.final_codeword@[0] == total);
    assert forall|c: int| 0 <= c < claims.len() implies reduced_claim(
        #[trigger] claims[c],
        proof.reduction_msgs@[c]@,
        ch,
    ) is Some by {
        assert(ys(c) == Some(multilinear::mle(ms[c], ch)));
    }
}

/// The honest folding of the combined first level ends in the combination of the
/// channels' values at the challenges.
proof fn lemma_combined_final(
    bf: Seq<(&BasefoldProverState<Goldilocks, GoldilocksExt2>, Vec<GoldilocksExt2>)>,
    ef: Seq<(&BasefoldProverState<GoldilocksExt2, GoldilocksExt2>, Vec<GoldilocksExt2>)>,
    coeffs: Seq<GoldilocksExt2>,
    ch: Seq<GoldilocksExt2>,
)
    requires
        batch_fits(bf, ef, batch_log_len(bf, ef), batch_rate(bf, ef)),
        ch.len() == batch_log_len(bf, ef) - batch_rate(bf, ef),
    ensures
        ({
            let (a, rate) = (batch_log_len(bf, ef), batch_rate(bf, ef));
            let channels = channels_of(bf, ef);
            let ms = Seq::new(channels.len(), |c: int| channels[c].res);
            let v = combined_level(channels, coeffs, pow2(a));
            forall|i: int|
                0 <= i < pow2(rate) ==> #[trigger] fri::level(v, a, ch, ch.len())[i]
                    == algebra::sum(
                    channels.len(),
                    |c: int| coeffs[c] * multilinear::mle(ms[c], ch),
                )
        }),
{
    let (a, rate) = (batch_log_len(bf, ef), batch_rate(bf, ef));
    let channels = channels_of(bf, ef);
    let num = channels.len();
    let ms = Seq::new(num, |c: int| channels[c].res);
    let v = combined_level(channels, coeffs, pow2(a));
    let len = pow2(ch.len());
    let res = Seq::new(len, |k: int| algebra::sum(num, |c: int| coeffs[c] * ms[c][k]));
    lemma_first_task(bf, ef, a, rate);
    assert forall|c: int| 0 <= c < num implies (#[trigger] ms[c]).len() == len by {
        lemma_channel_shape(bf, ef, a, rate, c);
    }
    assert forall|i: int| 0 <= i < pow2(a) implies #[trigger] v[i] == fri::encoding(res, a)[i] by {
        let x = domain::domain_point(a, i as nat);
        lemma_eval_combination(ms, coeffs, len, num, x);
        let f = |c: int| coeffs[c] * channels[c].first[i];
        let g = |c: int| coeffs[c] * polynomial::poly_eval(ms[c], x);
        assert forall|c: int| 0 <= c < num implies #[trigger] f(c) == g(c) by {
            lemma_channel_shape(bf, ef, a, rate, c);
        }
        algebra::sum_ext(num, f, g);
    }
    assert(v =~= fri::encoding(res, a));
    assert(algebra::all_valid(res)) by {
        assert forall|k: int| 0 <= k < len implies (#[trigger] res[k]).valid() by {
            algebra::sum_valid(num, |c: int| coeffs[c] * ms[c][k]);
        }
    }
    lemma_mle_combination(ms, coeffs, num, ch);
    assert forall|i: int| 0 <= i < pow2(rate) implies #[trigger] fri::level(
        v,
        a,
        ch,
        ch.len(),
    )[i] == algebra::sum(num, |c: int| coeffs[c] * multilinear::mle(ms[c], ch)) by {
        assert((a - ch.len()) as nat == rate);
        fri::lemma_final_constant(res, ch.len(), a, ch, i);
    }
}

/// Lines that agree at two points agree everywhere: here, at zero.
proof fn lemma_two_points(
    a: GoldilocksExt2,
    b: GoldilocksExt2,
    c: GoldilocksExt2,
    d: GoldilocksExt2,
    z: GoldilocksExt2,
    r: GoldilocksExt2,
)
    requires
        a.valid(),
        c.valid(),
        z.valid(),
        r.valid(),
        z != r,
        gkr::mean(a, b, z) == gkr::mean(c, d, z),
        gkr::mean(a, b, r) == gkr::mean(c, d, r),
    ensures
        a == c,
{
    let (s, t) = (b - a, d - c);
    algebra::lerp_weighted(a, b, z);
    algebra::lerp_weighted(a, b, r);
    algebra::lerp_weighted(c, d, z);
    algebra::lerp_weighted(c, d, r);
    algebra::sub_four(a, z * s, a, r * s);
    algebra::sub_four(c, z * t, c, r * t);
    algebra::sub_self(a);
    algebra::sub_self(c);
    GoldilocksExt2::law_valid(z * s, r * s);
    GoldilocksExt2::law_valid(z * t, r * t);
    algebra::zero_add(z * s - r * s);
    algebra::zero_add(z * t - r * t);
    algebra::sub_distrib(s, z, r);
    algebra::sub_distrib(t, z, r);
    GoldilocksExt2::law_mul_comm(z - r, s);
    GoldilocksExt2::law_mul_comm(z - r, t);
    GoldilocksExt2::law_valid(b, a);
    GoldilocksExt2::law_valid(d, c);
    GoldilocksExt2::law_valid(z, r);
    if z - r == GoldilocksExt2::zero() {
        algebra::sub_zero(z, r);
    }
    algebra::mul_cancel(s, t, z - r);
    algebra::add_cancel(a, c, z * s);
}

/// The value at one that the reduction recovers puts the line through the claim.
proof fn lemma_recovered(y: GoldilocksExt2, l0: GoldilocksExt2, z: GoldilocksExt2)
    requires
        y.valid(),
        z.valid(),
        z != GoldilocksExt2::zero(),
    ensures
        gkr::mean(l0, (y - (GoldilocksExt2::one() - z) * l0) * z.inv(), z) == y,
{
    let w = (GoldilocksExt2::one() - z) * l0;
    let u = y - w;
    GoldilocksExt2::law_valid(y, w);
    GoldilocksExt2::law_inv(z);
    GoldilocksExt2::law_mul_comm(u, z.inv());
    GoldilocksExt2::law_mul_assoc(z, z.inv(), u);
    algebra::one_mul(u);
    algebra::sub_add(y, w);
}

/// Two claims that reduce to one value are equal, if no folding challenge is zero.
proof fn lemma_chain_injective(
    y: GoldilocksExt2,
    x: GoldilocksExt2,
    msgs: Seq<GoldilocksExt2>,
    zp: Seq<GoldilocksExt2>,
    ch: Seq<GoldilocksExt2>,
)
    requires
        y.valid(),
        x.valid(),
        zp.len() == ch.len(),
        algebra::all_valid(zp),
        algebra::all_valid(ch),
        batch_chain(y, msgs, zp, ch) is Some,
        batch_chain(y, msgs, zp, ch) == batch_chain(x, msgs, zp, ch),
        forall|k: int| 0 <= k < ch.len() ==> #[trigger] ch[k] != GoldilocksExt2::zero(),
    ensures
        y == x,
    decreases ch.len(),
{
    if ch.len() > 0 {
        let (l0, z, r) = (msgs[0], zp[0], ch[0]);
        let w = (GoldilocksExt2::one() - z) * l0;
        let (l1, m1) = ((y - w) * z.inv(), (x - w) * z.inv());
        let (ny, nx) = (gkr::mean(l0, l1, r), gkr::mean(l0, m1, r));
        let e = (GoldilocksExt2::one() - r) * l0;
        GoldilocksExt2::law_valid(e, r * l1);
        GoldilocksExt2::law_valid(e, r * m1);
        assert(ch[0].valid() && zp[0].valid());
        assert forall|k: int| 0 <= k < ch.drop_first().len() implies #[trigger] ch.drop_first()[k]
            != GoldilocksExt2::zero() by {
            assert(ch[k + 1] != GoldilocksExt2::zero());
        }
        lemma_chain_injective(ny, nx, msgs.drop_first(), zp.drop_first(), ch.drop_first());
        GoldilocksExt2::law_valid(r, l1);
        GoldilocksExt2::law_valid(r, m1);
        GoldilocksExt2::law_add_comm(e, r * l1);
        GoldilocksExt2::law_add_comm(e, r * m1);
        algebra::add_cancel(r * l1, r * m1, e);
        GoldilocksExt2::law_mul_comm(r, l1);
        GoldilocksExt2::law_mul_comm(r, m1);
        GoldilocksExt2::law_valid(y - w, z.inv());
        GoldilocksExt2::law_valid(x - w, z.inv());
        algebra::mul_cancel(l1, m1, r);
        lemma_recovered(y, l0, z);
        lemma_recovered(x, l0, z);
    }
}

/// Two reductions of one claim that differ in the message of round `i` only end in one
/// value only if the draw of that round is the claim's coordinate, or a later one is zero.
proof fn lemma_chain_message(
    y: GoldilocksExt2,
    msgs: Seq<GoldilocksExt2>,
    other: Seq<GoldilocksExt2>,
    zp: Seq<GoldilocksExt2>,
    ch: Seq<GoldilocksExt2>,
    i: int,
)
    requires
        y.valid(),
        msgs.len() == ch.len(),
        other.len() == ch.len(),
        zp.len() == ch.len(),
        algebra::all_valid(msgs),
        algebra::all_valid(other),
        algebra::all_valid(zp),
        algebra::all_valid(ch),
        0 <= i < ch.len(),
        msgs[i] != other[i],
        forall|k: int| 0 <= k < ch.len() && k != i ==> #[trigger] msgs[k] == other[k],
        batch_chain(y, msgs, zp, ch) is Some,
        batch_chain(y, msgs, zp, ch) == batch_chain(y, other, zp, ch),
    ensures
        ch[i] == zp[i] || exists|k: int|
            i < k < ch.len() && #[trigger] ch[k] == GoldilocksExt2::zero(),
    decreases i,
{
    let (rest_m, rest_o) = (msgs.drop_first(), other.drop_first());
    let (rest_z, rest_c) = (zp.drop_first(), ch.drop_first());
    let (z, r) = (zp[0], ch[0]);
    let l1 = (y - (GoldilocksExt2::one() - z) * msgs[0]) * z.inv();
    let m1 = (y - (GoldilocksExt2::one() - z) * other[0]) * z.inv();
    let (ny, nx) = (gkr::mean(msgs[0], l1, r), gkr::mean(other[0], m1, r));
    GoldilocksExt2::law_valid((GoldilocksExt2::one() - r) * msgs[0], r * l1);
    GoldilocksExt2::law_valid((GoldilocksExt2::one() - r) * other[0], r * m1);
    assert(zp[0].valid() && ch[0].valid() && msgs[0].valid() && other[0].valid());
    if i == 0 {
        assert(rest_m =~= rest_o) by {
            assert forall|k: int| 0 <= k < rest_m.len() implies rest_m[k] == rest_o[k] by {
                assert(msgs[k + 1] == other[k + 1]);
            }
        }
        if forall|k: int|
            0 <= k < rest_c.len() ==> #[trigger] rest_c[k] != GoldilocksExt2::zero() {
            lemma_chain_injective(ny, nx, rest_m, rest_z, rest_c);
            lemma_recovered(y, msgs[0], z);
            lemma_recovered(y, other[0], z);
            if z != r {
                lemma_two_points(msgs[0], l1, other[0], m1, z, r);
            }
        } else {
            let k = choose|k: int|
                0 <= k < rest_c.len() && #[trigger] rest_c[k] == GoldilocksExt2::zero();
            assert(ch[k + 1] == GoldilocksExt2::zero());
        }
    } else {
        assert(msgs[0] == other[0]);
        assert forall|k: int| 0 <= k < rest_c.len() && k != i - 1 implies #[trigger] rest_m[k]
            == rest_o[k] by {
            assert(msgs[k + 1] == other[k + 1]);
        }
        lemma_chain_message(ny, rest_m, rest_o, rest_z, rest_c, i - 1);
        if rest_c[i - 1] != rest_z[i - 1] {
            let k = choose|k: int|
                i - 1 < k < rest_c.len() && #[trigger] rest_c[k] == GoldilocksExt2::zero();
            assert(ch[k + 1] == GoldilocksExt2::zero());
        }
    }
}

/// Both final codewords start with the same value, so the weighted claims agree in the
/// one that differs.
proof fn lemma_weighted_claim(
    coeffs: Seq<GoldilocksExt2>,
    ys: Seq<GoldilocksExt2>,
    xs: Seq<GoldilocksExt2>,
    c: int,
)
    requires
        ys.len() == coeffs.len(),
        xs.len() == coeffs.len(),
        algebra::all_valid(coeffs),
        0 <= c < coeffs.len(),
        ys[c].valid(),
        xs[c].valid(),
        forall|i: int| 0 <= i < ys.len() && i != c ==> #[trigger] ys[i] == xs[i],
        algebra::sum(ys.len(), |i: int| coeffs[i] * ys[i]) == algebra::sum(
            xs.len(),
            |i: int| coeffs[i] * xs[i],
        ),
        coeffs[c] != GoldilocksExt2::zero(),
    ensures
        ys[c] == xs[c],
{
    let f = |i: int| coeffs[i] * ys[i];
    let g = |i: int| coeffs[i] * xs[i];
    assert forall|i: int| 0 <= i < ys.len() && i != c implies #[trigger] f(i) == g(i) by {
        assert(ys[i] == xs[i]);
    }
    GoldilocksExt2::law_valid(coeffs[c], ys[c]);
    GoldilocksExt2::law_valid(coeffs[c], xs[c]);
    algebra::sum_changed(ys.len(), c, f, g);
    GoldilocksExt2::law_mul_comm(coeffs[c], ys[c]);
    GoldilocksExt2::law_mul_comm(coeffs[c], xs[c]);
    assert(coeffs[c].valid());
    algebra::mul_cancel(ys[c], xs[c], coeffs[c]);
}

/// The reduced value of a claim is a canonical field element.
proof fn lemma_chain_valid(
    y: GoldilocksExt2,
    msgs: Seq<GoldilocksExt2>,
    zp: Seq<GoldilocksExt2>,
    ch: Seq<GoldilocksExt2>,
)
    requires
        y.valid(),
        batch_chain(y, msgs, zp, ch) is Some,
    ensures
        (batch_chain(y, msgs, zp, ch)->0).valid(),
    decreases ch.len(),
{
    if ch.len() > 0 {
        let l0 = msgs[0];
        let l1 = (y - (GoldilocksExt2::one() - zp[0]) * l0) * zp[0].inv();
        GoldilocksExt2::law_valid((GoldilocksExt2::one() - ch[0]) * l0, ch[0] * l1);
        lemma_chain_valid(
            gkr::mean(l0, l1, ch[0]),
            msgs.drop_first(),
            zp.drop_first(),
            ch.drop_first(),
        );
    }
}

/// What makes both of two batches accepted whose reductions differ in one channel only:
/// the channel's coefficient is zero, or both reductions end in one value.
proof fn lemma_batch_channel(
    proof: BatchProof<Goldilocks, GoldilocksExt2>,
    other: BatchProof<Goldilocks, GoldilocksExt2>,
    nb: int,
    claims: Seq<BatchClaim>,
    changed: Seq<BatchClaim>,
    coeffs: Seq<GoldilocksExt2>,
    ch: Seq<GoldilocksExt2>,
    base: Seq<usize>,
    c: int,
)
    requires
        0 <= c < claims.len(),
        changed.len() == claims.len(),
        coeffs.len() == claims.len(),
        algebra::all_valid(coeffs),
        claims[c].value.valid(),
        changed[c].value.valid(),
        other.final_codeword@ == proof.final_codeword@,
        forall|i: int|
            0 <= i < claims.len() && i != c ==> #[trigger] claims[i] == changed[i]
                && proof.reduction_msgs@[i]@ == other.reduction_msgs@[i]@,
        proof.accepted(nb, claims, coeffs, ch, base),
        other.accepted(nb, changed, coeffs, ch, base),
        coeffs[c] != GoldilocksExt2::zero(),
    ensures
        reduced_claim(claims[c], proof.reduction_msgs@[c]@, ch) is Some,
        reduced_claim(claims[c], proof.reduction_msgs@[c]@, ch) == reduced_claim(
            changed[c],
            other.reduction_msgs@[c]@,
            ch,
        ),
{
    let n = claims.len();
    let ys = Seq::new(n, |i: int| reduced_claim(claims[i], proof.reduction_msgs@[i]@, ch)->0);
    let xs = Seq::new(n, |i: int| reduced_claim(changed[i], other.reduction_msgs@[i]@, ch)->0);
    assert(reduced_claim(claims[c], proof.reduction_msgs@[c]@, ch) is Some);
    assert(reduced_claim(changed[c], other.reduction_msgs@[c]@, ch) is Some);
    lemma_chain_valid(
        claims[c].value,
        proof.reduction_msgs@[c]@,
        claims[c].point.skip(claims[c].li as int),
        ch,
    );
    lemma_chain_valid(
        changed[c].value,
        other.reduction_msgs@[c]@,
        changed[c].point.skip(changed[c].li as int),
        ch,
    );
    let f = |i: int| coeffs[i] * ys[i];
    let g = |i: int| coeffs[i] * xs[i];
    let ya = |i: int| reduced_claim(claims[i], proof.reduction_msgs@[i]@, ch);
    let yb = |i: int| reduced_claim(changed[i], other.reduction_msgs@[i]@, ch);
    let fa = |i: int| coeffs[i] * (ya(i))->0;
    let fb = |i: int| coeffs[i] * (yb(i))->0;
    assert(proof.final_codeword@[0] == algebra::sum(n, fa));
    assert(other.final_codeword@[0] == algebra::sum(n, fb));
    algebra::sum_ext(n, f, fa);
    algebra::sum_ext(n, g, fb);
    assert forall|i: int| 0 <= i < n && i != c implies #[trigger] ys[i] == xs[i] by {
        assert(claims[i] == changed[i]);
    }
    lemma_weighted_claim(coeffs, ys, xs, c);
}

/// Rejection of another claimed value: of two batches that differ in the value of claim
/// `c` only, one proof is accepted for both only if the claim's coefficient or a folding
/// challenge is drawn as zero.
pub proof fn law_claim_bound(
    proof: BatchProof<Goldilocks, GoldilocksExt2>,
    nb: int,
    claims: Seq<BatchClaim>,
    coeffs: Seq<GoldilocksExt2>,
    ch: Seq<GoldilocksExt2>,
    base: Seq<usize>,
    c: int,
    v: GoldilocksExt2,
)
    requires
        0 <= c < claims.len(),
        coeffs.len() == claims.len(),
        ch.len() == proof.rounds(),
        algebra::all_valid(coeffs),
        algebra::all_valid(ch),
        algebra::all_valid(claims[c].point),
        claims[c].value.valid(),
        v.valid(),
        v != claims[c].value,
        proof.accepted(nb, claims, coeffs, ch, base),
        proof.accepted(
            nb,
            claims.update(c, BatchClaim { value: v, ..claims[c] }),
            coeffs,
            ch,
            base,
        ),
    ensures
        coeffs[c] == GoldilocksExt2::zero() || exists|k: int|
            0 <= k < ch.len() && #[trigger] ch[k] == GoldilocksExt2::zero(),
{
    let changed = claims.update(c, BatchClaim { value: v, ..claims[c] });
    let zp = claims[c].point.skip(claims[c].li as int);
    let msgs = proof.reduction_msgs@[c]@;
    if coeffs[c] != GoldilocksExt2::zero() && forall|k: int|
        0 <= k < ch.len() ==> #[trigger] ch[k] != GoldilocksExt2::zero() {
        lemma_batch_channel(proof, proof, nb, claims, changed, coeffs, ch, base, c);
        assert forall|k: int| 0 <= k < zp.len() implies (#[trigger] zp[k]).valid() by {
            assert(claims[c].point[claims[c].li + k].valid());
        }
        lemma_chain_injective(claims[c].value, v, msgs, zp, ch);
    }
}

/// Rejection of another reduction message: of two proofs that differ in the message of
/// claim `c` and round `i` only, both are accepted only if the claim's coefficient is
/// drawn as zero, the round's challenge as the claim's coordinate, or a later challenge
/// as zero.
pub proof fn law_reduction_bound(
    proof: BatchProof<Goldilocks, GoldilocksExt2>,
    other: BatchProof<Goldilocks, GoldilocksExt2>,
    nb: int,
    claims: Seq<BatchClaim>,
    coeffs: Seq<GoldilocksExt2>,
    ch: Seq<GoldilocksExt2>,
    base: Seq<usize>,
    c: int,
    i: int,
)
    requires
        0 <= c < claims.len(),
        0 <= i < ch.len(),
        coeffs.len() == claims.len(),
        ch.len() == proof.rounds(),
        other.rounds() == proof.rounds(),
        algebra::all_valid(coeffs),
        algebra::all_valid(ch),
        algebra::all_valid(claims[c].point),
        algebra::all_valid(proof.reduction_msgs@[c]@),
        algebra::all_valid(other.reduction_msgs@[c]@),
        claims[c].value.valid(),
        other.final_codeword@ == proof.final_codeword@,
        forall|k: int|
            0 <= k < claims.len() && k != c ==> (#[trigger] proof.reduction_msgs@[k])@
                == other.reduction_msgs@[k]@,
        forall|k: int|
            0 <= k < ch.len() && k != i ==> #[trigger] proof.reduction_msgs@[c]@[k]
                == other.reduction_msgs@[c]@[k],
        proof.reduction_msgs@[c]@[i] != other.reduction_msgs@[c]@[i],
        proof.accepted(nb, claims, coeffs, ch, base),
        other.accepted(nb, claims, coeffs, ch, base),
    ensures
        coeffs[c] == GoldilocksExt2::zero() || ch[i] == claims[c].point[claims[c].li + i]
            || exists|k: int| i < k < ch.len() && #[trigger] ch[k] == GoldilocksExt2::zero(),
{
    let zp = claims[c].point.skip(claims[c].li as int);
    if coeffs[c] != GoldilocksExt2::zero() {
        assert forall|k: int| 0 <= k < claims.len() && k != c implies #[trigger] claims[k]
            == claims[k] && proof.reduction_msgs@[k]@ == other.reduction_msgs@[k]@ by {
            assert(proof.reduction_msgs@[k]@ == other.reduction_msgs@[k]@);
        }
        lemma_batch_channel(proof, other, nb, claims, claims, coeffs, ch, base, c);
        assert forall|k: int| 0 <= k < zp.len() implies (#[trigger] zp[k]).valid() by {
            assert(claims[c].point[claims[c].li + k].valid());
        }
        assert(claims[c].point.len() == claims[c].li + proof.rounds());
        assert(proof.reduction_msgs@[c]@.len() == proof.rounds());
        assert(other.reduction_msgs@[c]@.len() == proof.rounds());
        lemma_chain_message(
            claims[c].value,
            proof.reduction_msgs@[c]@,
            other.reduction_msgs@[c]@,
            zp,
            ch,
            i,
        );
    }
}

/// Rejection of another opened column: two proofs that are both accepted open, for every
/// base field claim, to the same committed root at the same positions, whatever columns
/// they show there.
pub proof fn law_columns_bound(
    proof: BatchProof<Goldilocks, GoldilocksExt2>,
    other: BatchProof<Goldilocks, GoldilocksExt2>,
    nb: int,
    claims: Seq<BatchClaim>,
    coeffs: Seq<GoldilocksExt2>,
    ch: Seq<GoldilocksExt2>,
    base: Seq<usize>,
    i: int,
)
    requires
        other.log_len == proof.log_len,
        0 <= i < proof.base_bf@.len(),
        0 <= i < other.base_bf@.len(),
        proof.accepted(nb, claims, coeffs, ch, base),
        other.accepted(nb, claims, coeffs, ch, base),
    ensures
        ({
            let (a, b) = (proof.base_bf@[i], other.base_bf@[i]);
            let total = pow2(proof.log_len as nat) as usize;
            &&& leaves::keys_of(a.values@) == leaves::keys_of(b.values@)
            &&& merkle::opened_root(
                a.proof_bytes@,
                leaves::keys_of(a.values@),
                merkle::leaf_digests(fri::revealed_bytes(a.values@)),
                total,
            ) == Some(claims[i].root)
            &&& merkle::opened_root(
                b.proof_bytes@,
                leaves::keys_of(a.values@),
                merkle::leaf_digests(fri::revealed_bytes(b.values@)),
                total,
            ) == Some(claims[i].root)
        }),
{
    assert(fri::opening_accepted(
        proof.base_bf@[i].proof_bytes@,
        proof.base_bf@[i].values@,
        claims[i].root,
        pow2(proof.log_len as nat) as usize,
    ));
    assert(fri::opening_accepted(
        other.base_bf@[i].proof_bytes@,
        other.base_bf@[i].values@,
        claims[i].root,
        pow2(other.log_len as nat) as usize,
    ));
}

/// The same for the extension field claims, which stand behind the base field ones.
pub proof fn law_ext_columns_bound(
    proof: BatchProof<Goldilocks, GoldilocksExt2>,
    other: BatchProof<Goldilocks, GoldilocksExt2>,
    nb: int,
    claims: Seq<BatchClaim>,
    coeffs: Seq<GoldilocksExt2>,
    ch: Seq<GoldilocksExt2>,
    base: Seq<usize>,
    i: int,
)
    requires
        other.log_len == proof.log_len,
        0 <= i < proof.base_ef@.len(),
        0 <= i < other.base_ef@.len(),
        proof.accepted(nb, claims, coeffs, ch, base),
        other.accepted(nb, claims, coeffs, ch, base),
    ensures
        ({
            let (a, b) = (proof.base_ef@[i], other.base_ef@[i]);
            let total = pow2(proof.log_len as nat) as usize;
            &&& leaves::keys_of(a.values@) == leaves::keys_of(b.values@)
            &&& merkle::opened_root(
                a.proof_bytes@,
                leaves::keys_of(a.values@),
                merkle::leaf_digests(fri::revealed_bytes(a.values@)),
                total,
            ) == Some(claims[i + nb].root)
            &&& merkle::opened_root(
                b.proof_bytes@,
                leaves::keys_of(a.values@),
                merkle::leaf_digests(fri::revealed_bytes(b.values@)),
                total,
            ) == Some(claims[i + nb].root)
        }),
{
    assert(fri::opening_accepted(
        proof.base_ef@[i].proof_bytes@,
        proof.base_ef@[i].values@,
        claims[i + nb].root,
        pow2(proof.log_len as nat) as usize,
    ));
    assert(fri::opening_accepted(
        other.base_ef@[i].proof_bytes@,
        other.base_ef@[i].values@,
        claims[i + nb].root,
        pow2(other.log_len as nat) as usize,
    ));
}

/// The position that query `idx` reads in a codeword of `2^a` entries, or its partner.
pub open spec fn query_place(a: nat, idx: usize, partner: bool) -> usize {
    let half = pow2((a - 1) as nat) as int;
    (idx as int % half + if partner {
        half
    } else {
        0
    }) as usize
}

/// The columns of all claims but `c` have the same weighted sums at position `p`.
pub open spec fn channels_agree(
    proof: BatchProof<Goldilocks, GoldilocksExt2>,
    other: BatchProof<Goldilocks, GoldilocksExt2>,
    claims: Seq<BatchClaim>,
    c: int,
    p: usize,
) -> bool {
    forall|k: int|
        0 <= k < claims.len() && k != c ==> #[trigger] proof.channel_value(claims, k, p)
            == other.channel_value(claims, k, p)
}

/// Rejection of another opened column, by the draws: two proofs that agree in their
/// folded levels and in every column that query `i` reads but one, and whose columns of
/// claim `c` at that one position have other weighted sums, are both accepted only if
/// the claim's coefficient is drawn as zero or the first folding challenge `r` solves
/// `(1 - r) + r t == 0` for the point's twiddle `t`, or for its negative at the partner
/// position.
pub proof fn law_column_changed(
    proof: BatchProof<Goldilocks, GoldilocksExt2>,
    other: BatchProof<Goldilocks, GoldilocksExt2>,
    nb: int,
    claims: Seq<BatchClaim>,
    coeffs: Seq<GoldilocksExt2>,
    ch: Seq<GoldilocksExt2>,
    base: Seq<usize>,
    c: int,
    i: int,
    partner: bool,
)
    requires
        0 <= c < claims.len(),
        0 <= i < base.len(),
        0 < ch.len(),
        0 < proof.log_len,
        pow2(proof.log_len as nat) <= usize::MAX,
        other.log_len == proof.log_len,
        algebra::all_valid(coeffs),
        coeffs.len() == claims.len(),
        other.fold_openings@ == proof.fold_openings@,
        other.final_codeword@ == proof.final_codeword@,
        proof.accepted(nb, claims, coeffs, ch, base),
        other.accepted(nb, claims, coeffs, ch, base),
        ({
            let at = query_place(proof.log_len as nat, base[i], partner);
            let beside = query_place(proof.log_len as nat, base[i], !partner);
            &&& channels_agree(proof, other, claims, c, at)
            &&& channels_agree(proof, other, claims, c, beside)
            &&& proof.channel_value(claims, c, beside) == other.channel_value(claims, c, beside)
            &&& proof.channel_value(claims, c, at) != other.channel_value(claims, c, at)
        }),
    ensures
        ({
            let half = pow2((proof.log_len - 1) as nat) as int;
            let t = fri::twiddle(proof.log_len as nat, (base[i] as int % half) as nat);
            coeffs[c] == GoldilocksExt2::zero() || gkr::mean(
                GoldilocksExt2::one(),
                if partner {
                    t.spec_neg()
                } else {
                    t
                },
                ch[0],
            ) == GoldilocksExt2::zero()
        }),
{
    let a = proof.log_len as nat;
    let half = pow2((a - 1) as nat) as int;
    let positions = fri::opened_positions(base, half);
    let pos = base[i] as int % half;
    let t = fri::twiddle(a, pos as nat);
    let (u, v) = (
        proof.combined_values(claims, coeffs, positions),
        other.combined_values(claims, coeffs, positions),
    );
    let n = claims.len();
    let at = query_place(a, base[i], partner);
    let beside = query_place(a, base[i], !partner);
    multilinear::lemma_pow2_step(a);
    vstd::arithmetic::power2::lemma_pow2_pos((a - 1) as nat);
    fri::lemma_opened_positions(base, half);
    let f = |k: int| coeffs[k] * proof.channel_value(claims, k, at);
    let g = |k: int| coeffs[k] * other.channel_value(claims, k, at);
    let fb = |k: int| coeffs[k] * proof.channel_value(claims, k, beside);
    let gb = |k: int| coeffs[k] * other.channel_value(claims, k, beside);
    assert(u[at] == algebra::sum(n, f));
    assert(v[at] == algebra::sum(n, g));
    assert(u[beside] == algebra::sum(n, fb));
    assert(v[beside] == algebra::sum(n, gb));
    assert forall|k: int| 0 <= k < n implies #[trigger] fb(k) == gb(k) by {
        assert(proof.channel_value(claims, k, beside) == other.channel_value(claims, k, beside));
    }
    algebra::sum_ext(n, fb, gb);
    algebra::sum_valid(n, f);
    algebra::sum_valid(n, g);
    algebra::sum_valid(n, fb);
    assert(fri::fold_consistent(
        u,
        proof.fold_openings@,
        proof.final_codeword@,
        ch,
        a,
        base[i] as int,
        0,
    ));
    assert(fri::fold_consistent(
        v,
        proof.fold_openings@,
        proof.final_codeword@,
        ch,
        a,
        base[i] as int,
        0,
    ));
    if coeffs[c] != GoldilocksExt2::zero() {
        let (x, y) = (proof.channel_value(claims, c, at), other.channel_value(claims, c, at));
        lemma_channel_valid(proof, claims, c, at);
        lemma_channel_valid(other, claims, c, at);
        if u[at] == v[at] {
            GoldilocksExt2::law_valid(coeffs[c], x);
            GoldilocksExt2::law_valid(coeffs[c], y);
            assert forall|k: int| 0 <= k < n && k != c implies #[trigger] f(k) == g(k) by {
                assert(proof.channel_value(claims, k, at) == other.channel_value(claims, k, at));
            }
            algebra::sum_changed(n, c, f, g);
            GoldilocksExt2::law_mul_comm(coeffs[c], x);
            GoldilocksExt2::law_mul_comm(coeffs[c], y);
            algebra::mul_cancel(x, y, coeffs[c]);
        }
        if partner {
            fri::lemma_fold_bound(u[beside], u[at], v[at], ch[0], t);
        } else {
            fri::lemma_fold_bound(u[at], u[beside], v[at], ch[0], t);
        }
    }
}

proof fn lemma_channel_valid(
    proof: BatchProof<Goldilocks, GoldilocksExt2>,
    claims: Seq<BatchClaim>,
    c: int,
    p: usize,
)
    ensures
        proof.channel_value(claims, c, p).valid(),
{
    let w = multilinear::eq_table(claims[c].point.take(claims[c].li as int));
    let nb = proof.base_bf@.len() as int;
    if c < nb {
        let leaf = proof.base_bf@[c].values@[p]@;
        algebra::sum_valid(leaf.len(), |j: int| w[j] * leaf[j].lift());
    } else {
        let leaf = proof.base_ef@[c - nb].values@[p]@;
        algebra::sum_valid(leaf.len(), |j: int| w[j] * leaf[j].lift());
    }
}

} // verus!
