//! Opening proofs: their making and their verification.
use vstd::prelude::*;
use vstd::arithmetic::power2::pow2;
use crate::algebra;
use crate::field::{Field, Goldilocks, GoldilocksExt2};
use crate::multilinear;
use crate::pcs::basefold;
use crate::pcs::basefold::{Basefold, BasefoldCommit, BasefoldProverState, BatchClaim, BatchProof};
use crate::pcs::domain;
use crate::pcs::domain::LeafField;
use crate::pcs::fri;
use crate::pcs::leaves;
use crate::pcs::subset_sum;
use crate::pcs::subset_sum::C;
use crate::utils::merkle;
use crate::utils::merkle::{Digest, MerkleTreeVerifier, Serialize};
use crate::utils::oracle::RandomOracle;
use crate::utils::poly;
use crate::utils::poly::MlPoly;
use crate::utils::sumcheck;
use crate::utils::sumcheck::SumcheckProof;
use crate::views;
use super::tables;
use super::tables::ETA;
use super::{
    CommitData, Ligesis, LigesisCommit, ProvingKey, VerifyingKey, CODE_RATE, COLUMN_DRAWS, LOG_C,
    LOG_COLS, LOG_ETA, NUM_COLS_OPENED,
};

verus! {

/// An opening proof.
pub struct LigesisProof<BF: Field, EF: Field> {
    /// The claimed value.
    pub y: EF,
    /// Commitment to the combined row.
    pub com_a_vec: Digest,
    /// Commitment to the opened bits.
    pub com_i: Digest,
    /// The combination of the encoded combined row at the opened columns.
    pub y4: EF,
    /// The encoded combined row's value at the table point.
    pub y5: EF,
    /// The opened digest columns, by increasing position, and the tree's proof.
    pub h_cols: Vec<Vec<BF>>,
    pub h_open: Vec<u8>,
    pub sc_binary: SumcheckProof<EF>,
    pub sc_hash: SumcheckProof<EF>,
    pub sc_recon: SumcheckProof<EF>,
    pub sc_table: SumcheckProof<EF>,
    pub sc_rslink: SumcheckProof<EF>,
    /// Reductions of the bits' three points and the row's two points to one each.
    pub sc_bi_batch: SumcheckProof<EF>,
    pub sc_a_batch: SumcheckProof<EF>,
    /// The shared opening of the hash matrix, the bits and the combined row.
    pub batch: BatchProof<BF, EF>,
}

/// Number of elements of a sumcheck proof, in bytes.
pub open spec fn sumcheck_bytes<EF: Field>(sc: SumcheckProof<EF>) -> nat {
    sc.element_count() * EF::byte_size()
}

impl<BF: Field, EF: Field> LigesisProof<BF, EF> {
    /// Size of the proof in bytes.
    pub open spec fn byte_count(self) -> nat {
        EF::byte_size() * 3 + 64 + self.h_open@.len() + views::total_len(
            views::nested(self.h_cols@),
        ) * BF::byte_size() + sumcheck_bytes(self.sc_binary) + sumcheck_bytes(self.sc_hash)
            + sumcheck_bytes(self.sc_recon) + sumcheck_bytes(self.sc_table) + sumcheck_bytes(
            self.sc_rslink,
        ) + sumcheck_bytes(self.sc_bi_batch) + sumcheck_bytes(self.sc_a_batch)
            + self.batch.byte_count()
    }

    pub fn size_bytes(&self) -> (r: usize)
        requires
            self.byte_count() <= usize::MAX,
        ensures
            r == self.byte_count(),
    {
        let ef: usize = EF::size();
        let bf: usize = BF::size();
        proof {
            let t = views::total_len(views::nested(self.h_cols@));
            assert(t <= t * bf) by (nonlinear_arith)
                requires
                    bf >= 1,
                    t >= 0,
            ;
        }
        let cols: usize = basefold::total_elements(&self.h_cols);
        let s: usize = ef * 3 + 64 + self.h_open.len() + cols * bf;
        let t: usize = self.sc_binary.size_bytes() + self.sc_hash.size_bytes()
            + self.sc_recon.size_bytes() + self.sc_table.size_bytes()
            + self.sc_rslink.size_bytes() + self.sc_bi_batch.size_bytes()
            + self.sc_a_batch.size_bytes();
        s + t + self.batch.size_bytes()
    }
}

/// How many challenges each sumcheck of an opening reads, and the shared opening's
/// folding rounds.
pub struct Counts {
    pub bin: nat,
    pub hash: nat,
    pub recon: nat,
    pub table: nat,
    pub rs: nat,
    pub bi: nat,
    pub a: nat,
    pub folds: nat,
}

impl Counts {
    /// The counts of an honest opening.
    pub open spec fn of_shape(log_m: nat, log_n: nat) -> Counts {
        Counts {
            bin: 13 + log_m,
            hash: 6 + log_m,
            recon: 6 + log_m,
            table: log_n + 1,
            rs: log_n,
            bi: 13 + log_m,
            a: log_n,
            folds: super::fold_count(log_m, log_n),
        }
    }

    /// Number of field elements that an opening reads.
    pub open spec fn total(self, log_m: nat) -> nat {
        30 + log_m + self.bin + self.hash + self.recon + self.table + self.rs + self.bi + self.a
            + self.folds
    }
}

/// The challenges of an opening.
pub struct Draws {
    /// The opened columns.
    pub idx: Seq<usize>,
    pub alpha1: Seq<GoldilocksExt2>,
    pub alpha2: Seq<GoldilocksExt2>,
    pub bin: Seq<GoldilocksExt2>,
    pub r2: Seq<GoldilocksExt2>,
    pub hash: Seq<GoldilocksExt2>,
    pub recon: Seq<GoldilocksExt2>,
    pub table: Seq<GoldilocksExt2>,
    pub rs: Seq<GoldilocksExt2>,
    pub gamma_bi: GoldilocksExt2,
    pub bi: Seq<GoldilocksExt2>,
    pub gamma_a: GoldilocksExt2,
    pub a: Seq<GoldilocksExt2>,
    pub coeffs: Seq<GoldilocksExt2>,
    pub folds: Seq<GoldilocksExt2>,
    /// The query positions of the shared opening.
    pub base: Seq<usize>,
}

/// `len` entries from position `at`.
pub open spec fn part(tape: Seq<GoldilocksExt2>, at: nat, len: nat) -> Seq<GoldilocksExt2> {
    tape.subrange(at as int, (at + len) as int)
}

/// The challenges on a tape, in the order in which they are read.
pub open spec fn draws(
    log_m: nat,
    log_n: nat,
    c: Counts,
    tape: Seq<GoldilocksExt2>,
    ints: Seq<usize>,
    half: int,
) -> Draws {
    let o2 = 18 + log_m + c.bin;
    let o3 = o2 + 7;
    let o4 = o3 + c.hash;
    let o5 = o4 + c.recon;
    let o6 = o5 + c.table;
    let o7 = o6 + c.rs;
    let o8 = o7 + 1 + c.bi;
    let o9 = o8 + 1 + c.a;
    Draws {
        idx: super::drawn_columns(ints.take(COLUMN_DRAWS as int), pow2(log_n + 1) as int),
        alpha1: part(tape, 0, 13 + log_m),
        alpha2: part(tape, 13 + log_m, 5),
        bin: part(tape, 18 + log_m, c.bin),
        r2: part(tape, o2, 7),
        hash: part(tape, o3, c.hash),
        recon: part(tape, o4, c.recon),
        table: part(tape, o5, c.table),
        rs: part(tape, o6, c.rs),
        gamma_bi: tape[o7 as int],
        bi: part(tape, o7 + 1, c.bi),
        gamma_a: tape[o8 as int],
        a: part(tape, o8 + 1, c.a),
        coeffs: part(tape, o9, 3),
        folds: part(tape, o9 + 3, c.folds),
        base: fri::query_indices(ints.skip(COLUMN_DRAWS as int), half),
    }
}

/// The sumcheck proof is the honest one for the given factors and challenges.
pub open spec fn sumcheck_honest(
    sc: SumcheckProof<GoldilocksExt2>,
    polys: Seq<Seq<GoldilocksExt2>>,
    ch: Seq<GoldilocksExt2>,
) -> bool {
    &&& sc.rounds() == sumcheck::prover_rounds(polys, ch)
    &&& sc.final_evals@ == sumcheck::prover_finals(polys, ch)
}

/// Everything an honest opening is made of.
pub struct Witness {
    /// The rows of the hash matrix.
    pub rows: Seq<Seq<Goldilocks>>,
    /// The committed values.
    pub f: Seq<Goldilocks>,
    pub log_m: nat,
    pub log_n: nat,
    pub z: Seq<GoldilocksExt2>,
}

impl Witness {
    pub open spec fn z2(self) -> Seq<GoldilocksExt2> {
        self.z.take(self.log_n as int)
    }

    /// The weights of the rows.
    pub open spec fn eqz1(self) -> Seq<GoldilocksExt2> {
        multilinear::eq_table(self.z.skip(self.log_n as int))
    }

    pub open spec fn width(self) -> nat {
        super::bit_width(self.log_m)
    }

    pub open spec fn bits(self) -> Seq<Seq<bool>> {
        super::bit_columns(self.f, self.log_m, self.log_n)
    }

    /// The combined row.
    pub open spec fn a_vec(self) -> Seq<GoldilocksExt2> {
        tables::combined_rows(self.f, self.eqz1(), pow2(self.log_m), pow2(self.log_n))
    }

    /// The encoded combined row.
    pub open spec fn ra(self) -> Seq<GoldilocksExt2> {
        domain::codeword(self.a_vec(), self.log_n + 1)
    }

    /// The opened bits in the base field.
    pub open spec fn bi(self, d: Draws) -> Seq<Goldilocks> {
        tables::opened_bits(self.bits(), d.idx, self.width())
    }

    /// The opened bits in the extension.
    pub open spec fn bi_ext(self, d: Draws) -> Seq<GoldilocksExt2> {
        domain::lift_all(self.bi(d))
    }

    pub open spec fn bi_minus(self, d: Draws) -> Seq<GoldilocksExt2> {
        minus_one(self.bi_ext(d))
    }

    /// The hash rows folded.
    pub open spec fn g1(self, d: Draws) -> Seq<GoldilocksExt2> {
        tables::folded_hash(self.rows, multilinear::eq_table(d.alpha2), self.width())
    }

    /// The opened columns combined.
    pub open spec fn g2(self, d: Draws) -> Seq<GoldilocksExt2> {
        tables::folded_bits(self.bits(), d.idx, multilinear::eq_table(d.r2), self.width())
    }

    pub open spec fn v(self) -> Seq<GoldilocksExt2> {
        tables::recon_weights(self.eqz1(), self.width())
    }

    pub open spec fn sel(self, d: Draws) -> Seq<GoldilocksExt2> {
        tables::selector(d.idx, multilinear::eq_table(d.r2), pow2(self.log_n + 1))
    }

    pub open spec fn y4(self, d: Draws) -> GoldilocksExt2 {
        picked_sum(d.idx, multilinear::eq_table(d.r2), self.ra())
    }

    pub open spec fn w(self, d: Draws) -> Seq<GoldilocksExt2> {
        tables::encoding_weights(d.table.reverse(), self.log_n + 1, pow2(self.log_n))
    }

    /// The opened digest columns.
    pub open spec fn h_cols(self, d: Draws) -> Seq<Seq<Goldilocks>> {
        merkle::select(
            super::digest_columns(self.rows, self.bits()),
            leaves::sorted_distinct(d.idx),
        )
    }
}

/// `sum_k weights[k] values[idx[k]]`.
pub open spec fn picked_sum(
    idx: Seq<usize>,
    weights: Seq<GoldilocksExt2>,
    values: Seq<GoldilocksExt2>,
) -> GoldilocksExt2 {
    algebra::sum(idx.len(), |k: int| weights[k] * values[idx[k] as int])
}

/// Every entry less one.
pub open spec fn minus_one(s: Seq<GoldilocksExt2>) -> Seq<GoldilocksExt2> {
    Seq::new(s.len(), |i: int| s[i] - GoldilocksExt2::one())
}

/// The point at which the hash matrix is opened.
pub open spec fn point_a(d: Draws) -> Seq<GoldilocksExt2> {
    d.hash.reverse() + d.alpha2
}

/// The points of the opened bits.
pub open spec fn points_bi(d: Draws) -> Seq<Seq<GoldilocksExt2>> {
    seq![d.bin.reverse(), d.r2 + d.hash.reverse(), d.r2 + d.recon.reverse()]
}

/// The points of the combined row.
pub open spec fn points_a(z2: Seq<GoldilocksExt2>, d: Draws) -> Seq<Seq<GoldilocksExt2>> {
    seq![z2, d.rs.reverse()]
}

/// The proof is the honest one, up to the shared opening.
pub open spec fn honest_parts(
    proof: LigesisProof<Goldilocks, GoldilocksExt2>,
    w: Witness,
    tree: Seq<Seq<u8>>,
    d: Draws,
) -> bool {
    let sorted = leaves::sorted_distinct(d.idx);
    &&& proof.y == multilinear::mle(w.a_vec(), w.z2())
    &&& proof.y4 == w.y4(d)
    &&& proof.y5 == multilinear::mle(w.ra(), d.table.reverse())
    &&& views::nested(proof.h_cols@) == w.h_cols(d)
    &&& proof.h_open@ == merkle::merkle_path(tree, sorted)
    &&& proof.h_open@.len() % 32 == 0
    &&& merkle::opened_root(
        proof.h_open@,
        sorted,
        merkle::select(tree, sorted),
        pow2(w.log_n + 1) as usize,
    ) == Some(merkle::merkle_root(tree))
    &&& sumcheck_honest(
        proof.sc_binary,
        seq![w.bi_ext(d), w.bi_minus(d), multilinear::eq_table(d.alpha1)],
        d.bin,
    )
    &&& sumcheck_honest(proof.sc_hash, seq![w.g1(d), w.g2(d)], d.hash)
    &&& sumcheck_honest(proof.sc_recon, seq![w.v(), w.g2(d)], d.recon)
    &&& sumcheck_honest(proof.sc_table, seq![w.sel(d), w.ra()], d.table)
    &&& sumcheck_honest(proof.sc_rslink, seq![w.a_vec(), w.w(d)], d.rs)
    &&& sumcheck_honest(
        proof.sc_bi_batch,
        seq![w.bi_ext(d), tables::combined_eq(points_bi(d), d.gamma_bi)],
        d.bi,
    )
    &&& sumcheck_honest(
        proof.sc_a_batch,
        seq![w.a_vec(), tables::combined_eq(points_a(w.z2(), d), d.gamma_a)],
        d.a,
    )
}

/// The shared opening is the honest one for the hash matrix, the opened bits and
/// the combined row, whose commitments the proof carries.
pub open spec fn honest_opening(
    proof: LigesisProof<Goldilocks, GoldilocksExt2>,
    w: Witness,
    d: Draws,
    bf: Seq<(&BasefoldProverState<Goldilocks, GoldilocksExt2>, Vec<GoldilocksExt2>)>,
    ef: Seq<(&BasefoldProverState<GoldilocksExt2, GoldilocksExt2>, Vec<GoldilocksExt2>)>,
    a_state: BasefoldProverState<Goldilocks, GoldilocksExt2>,
) -> bool {
    &&& bf.len() == 2
    &&& ef.len() == 1
    &&& *bf[0].0 == a_state
    &&& bf[0].1@ == point_a(d)
    &&& basefold::committed(
        *bf[1].0,
        BasefoldCommit(proof.com_i),
        w.bi(d),
        CODE_RATE as nat,
        super::layers(13 + w.log_m, w.log_m, w.log_n),
    )
    &&& bf[1].1@ == d.bi.reverse()
    &&& basefold::committed(
        *ef[0].0,
        BasefoldCommit(proof.com_a_vec),
        w.a_vec(),
        CODE_RATE as nat,
        super::layers(w.log_n, w.log_m, w.log_n),
    )
    &&& ef[0].1@ == d.a.reverse()
    &&& basefold::honest_batch(proof.batch, bf, ef, d.coeffs, d.folds, d.base)
}

/// The proof is the honest one.
pub open spec fn honest(
    proof: LigesisProof<Goldilocks, GoldilocksExt2>,
    w: Witness,
    tree: Seq<Seq<u8>>,
    d: Draws,
    a_state: BasefoldProverState<Goldilocks, GoldilocksExt2>,
) -> bool {
    &&& honest_parts(proof, w, tree, d)
    &&& exists|
        bf: Seq<(&BasefoldProverState<Goldilocks, GoldilocksExt2>, Vec<GoldilocksExt2>)>,
        ef: Seq<(&BasefoldProverState<GoldilocksExt2, GoldilocksExt2>, Vec<GoldilocksExt2>)>,
    |
        #[trigger] honest_opening(proof, w, d, bf, ef, a_state)
}

/// What is opened after `off` field elements were read.
proof fn lemma_part(
    start: RandomOracle<GoldilocksExt2>,
    now: RandomOracle<GoldilocksExt2>,
    total: nat,
    off: nat,
    n: nat,
    k: int,
)
    requires
        start.has_fields(total as int),
        start.advanced(now, off as int, k),
        off + n <= total,
    ensures
        now.upcoming(n) == part(start.upcoming(total), off, n),
        n > 0 ==> now.fields()[now.fields_pos() as int] == start.upcoming(total)[off as int],
        algebra::all_valid(now.upcoming(n)),
        now.has_fields(n as int) || !now.wf(),
{
    let tape = start.upcoming(total);
    assert(now.upcoming(n) =~= part(tape, off, n));
    assert forall|i: int| 0 <= i < n implies (#[trigger] now.upcoming(n)[i]).valid() by {
        assert(start.fields()[start.fields_pos() + off + i].valid());
    }
}

/// What lies ahead after `off` field elements were read.
proof fn lemma_ahead(
    start: RandomOracle<GoldilocksExt2>,
    now: RandomOracle<GoldilocksExt2>,
    total: nat,
    off: nat,
    n: nat,
    k: int,
)
    requires
        start.advanced(now, off as int, k),
        off + n <= total,
    ensures
        now.upcoming(n) == part(start.upcoming(total), off, n),
        n > 0 ==> now.fields()[now.fields_pos() as int] == start.upcoming(total)[off as int],
{
    assert(now.upcoming(n) =~= part(start.upcoming(total), off, n));
}

/// The sum of weighted values at the given indices.
fn pick_sum(
    idx: &Vec<usize>,
    weights: &Vec<GoldilocksExt2>,
    values: &Vec<GoldilocksExt2>,
) -> (r: GoldilocksExt2)
    requires
        weights@.len() == idx@.len(),
        forall|k: int| 0 <= k < idx@.len() ==> #[trigger] idx@[k] < values@.len(),
    ensures
        r == picked_sum(idx@, weights@, values@),
{
    let mut acc = GoldilocksExt2::new_zero();
    let mut k: usize = 0;
    let ghost f = |k: int| weights@[k] * values@[idx@[k] as int];
    while k < idx.len()
        invariant
            k <= idx.len(),
            weights@.len() == idx@.len(),
            forall|k: int| 0 <= k < idx@.len() ==> #[trigger] idx@[k] < values@.len(),
            f == (|k: int| weights@[k] * values@[idx@[k] as int]),
            acc == algebra::sum(k as nat, f),
        decreases idx.len() - k,
    {
        assert(idx@[k as int] < values@.len());
        acc = acc.add(weights[k].mul(values[idx[k]]));
        k += 1;
    }
    acc
}

/// The lifted table and the table less one.
fn lift_bits(bi: &Vec<Goldilocks>) -> (r: (Vec<GoldilocksExt2>, Vec<GoldilocksExt2>))
    ensures
        r.0@ == domain::lift_all(bi@),
        r.1@ == minus_one(domain::lift_all(bi@)),
{
    let one = GoldilocksExt2::new_one();
    let mut a: Vec<GoldilocksExt2> = Vec::new();
    let mut b: Vec<GoldilocksExt2> = Vec::new();
    let mut i: usize = 0;
    while i < bi.len()
        invariant
            i <= bi.len(),
            one == GoldilocksExt2::one(),
            a@.len() == i,
            b@.len() == i,
            forall|k: int| 0 <= k < i ==> #[trigger] a@[k] == bi@[k].lift(),
            forall|k: int| 0 <= k < i ==> #[trigger] b@[k] == bi@[k].lift() - one,
        decreases bi.len() - i,
    {
        let v = bi[i].to_ext();
        a.push(v);
        b.push(v.sub(one));
        i += 1;
    }
    assert(a@ =~= domain::lift_all(bi@));
    assert(b@ =~= minus_one(domain::lift_all(bi@)));
    (a, b)
}

/// The sorted list of distinct indices has the same length.
pub proof fn lemma_sorted_length(idx: Seq<usize>, b: int)
    requires
        tables::distinct(idx),
        leaves::below(idx, b),
    ensures
        leaves::sorted_distinct(idx).len() == idx.len(),
        leaves::increasing(leaves::sorted_distinct(idx)),
        leaves::below(leaves::sorted_distinct(idx), b),
        forall|v: usize| #[trigger]
            leaves::sorted_distinct(idx).contains(v) <==> idx.contains(v),
{
    let s = leaves::sorted_distinct(idx);
    leaves::lemma_sorted_distinct(idx, b);
    assert(idx.no_duplicates()) by {
        assert forall|i: int, j: int| 0 <= i < idx.len() && 0 <= j < idx.len() && i != j implies idx[i]
            != idx[j] by {
            if i < j {
                assert(idx[i] != idx[j]);
            } else {
                assert(idx[j] != idx[i]);
            }
        }
    }
    assert(s.no_duplicates()) by {
        assert forall|i: int, j: int| 0 <= i < s.len() && 0 <= j < s.len() && i != j implies s[i]
            != s[j] by {
            if i < j {
                assert(s[i] < s[j]);
            } else {
                assert(s[j] < s[i]);
            }
        }
    }
    assert(s.to_set() =~= idx.to_set()) by {
        assert forall|v: usize| s.to_set().contains(v) == idx.to_set().contains(v) by {
            assert(s.contains(v) <==> idx.contains(v));
        }
    }
    s.unique_seq_to_set();
    idx.unique_seq_to_set();
}

/// The selected columns of a matrix given by rows.
fn read_columns(h: &Vec<Vec<Goldilocks>>, positions: &Vec<usize>, len: usize) -> (r: Vec<
    Vec<Goldilocks>,
>)
    requires
        forall|k: int| 0 <= k < h@.len() ==> (#[trigger] h@[k])@.len() == len,
        leaves::below(positions@, len as int),
    ensures
        r@.len() == positions@.len(),
        forall|i: int|
            0 <= i < r@.len() ==> (#[trigger] r@[i])@ == Seq::new(
                h@.len(),
                |k: int| h@[k]@[positions@[i] as int],
            ),
{
    let mut r: Vec<Vec<Goldilocks>> = Vec::new();
    let mut i: usize = 0;
    while i < positions.len()
        invariant
            i <= positions.len(),
            forall|k: int| 0 <= k < h@.len() ==> (#[trigger] h@[k])@.len() == len,
            leaves::below(positions@, len as int),
            r@.len() == i,
            forall|j: int|
                0 <= j < i ==> (#[trigger] r@[j])@ == Seq::new(
                    h@.len(),
                    |k: int| h@[k]@[positions@[j] as int],
                ),
        decreases positions.len() - i,
    {
        assert(positions@[i as int] < len);
        r.push(super::matrix_column(h, positions[i]));
        i += 1;
    }
    r
}

/// Two tables as a list of factors.
fn two_factors(a: Vec<GoldilocksExt2>, b: Vec<GoldilocksExt2>) -> (r: Vec<Vec<GoldilocksExt2>>)
    ensures
        views::nested(r@) == seq![a@, b@],
{
    let r = vec![a, b];
    assert(views::nested(r@) =~= seq![a@, b@]);
    r
}

/// A sumcheck over two tables of `2^n` values, with its contract in terms of the
/// tables.
fn prove_product(
    a: Vec<GoldilocksExt2>,
    b: Vec<GoldilocksExt2>,
    n: Ghost<nat>,
    oracle: &mut RandomOracle<GoldilocksExt2>,
) -> (r: (SumcheckProof<GoldilocksExt2>, Vec<GoldilocksExt2>))
    requires
        a@.len() == pow2(n@),
        b@.len() == pow2(n@),
        old(oracle).has_fields(n@ as int),
    ensures
        r.1@.len() == n@,
        r.1@ == old(oracle).upcoming(n@),
        sumcheck_honest(r.0, seq![a@, b@], r.1@),
        final(oracle).wf(),
        old(oracle).advanced(*final(oracle), n@ as int, 0),
{
    let polys = two_factors(a, b);
    proof {
        let vs = views::nested(polys@);
        assert(sumcheck::polys_shape(vs, n@));
        assert(polys@[0]@ == vs[0]);
    }
    let r = sumcheck::prove(polys, oracle);
    proof {
        sumcheck::lemma_exponent_unique(n@, r.1@.len());
    }
    r
}

/// The three tasks of the shared opening.
pub open spec fn shared_tasks(
    bf: Seq<(&BasefoldProverState<Goldilocks, GoldilocksExt2>, Vec<GoldilocksExt2>)>,
    ef: Seq<(&BasefoldProverState<GoldilocksExt2, GoldilocksExt2>, Vec<GoldilocksExt2>)>,
    a_state: BasefoldProverState<Goldilocks, GoldilocksExt2>,
    bi_state: BasefoldProverState<Goldilocks, GoldilocksExt2>,
    av_state: BasefoldProverState<GoldilocksExt2, GoldilocksExt2>,
    points: (Seq<GoldilocksExt2>, Seq<GoldilocksExt2>, Seq<GoldilocksExt2>),
) -> bool {
    &&& bf.len() == 2
    &&& ef.len() == 1
    &&& *bf[0].0 == a_state
    &&& bf[0].1@ == points.0
    &&& *bf[1].0 == bi_state
    &&& bf[1].1@ == points.1
    &&& *ef[0].0 == av_state
    &&& ef[0].1@ == points.2
}

/// Makes the shared opening.
fn open_shared(
    a_state: &BasefoldProverState<Goldilocks, GoldilocksExt2>,
    bi_state: &BasefoldProverState<Goldilocks, GoldilocksExt2>,
    av_state: &BasefoldProverState<GoldilocksExt2, GoldilocksExt2>,
    points: (Vec<GoldilocksExt2>, Vec<GoldilocksExt2>, Vec<GoldilocksExt2>),
    folds: Ghost<nat>,
    oracle: &mut RandomOracle<GoldilocksExt2>,
) -> (batch: BatchProof<Goldilocks, GoldilocksExt2>)
    requires
        basefold::task_fits(*a_state, points.0@, folds@ + 1, CODE_RATE as nat),
        basefold::task_fits(*bi_state, points.1@, folds@ + 1, CODE_RATE as nat),
        basefold::task_fits(*av_state, points.2@, folds@ + 1, CODE_RATE as nat),
        old(oracle).has_fields(3 + folds@ as int),
        old(oracle).has_ints(100),
    ensures
        exists|
            bf: Seq<(&BasefoldProverState<Goldilocks, GoldilocksExt2>, Vec<GoldilocksExt2>)>,
            ef: Seq<(&BasefoldProverState<GoldilocksExt2, GoldilocksExt2>, Vec<GoldilocksExt2>)>,
        |
            shared_tasks(
                bf,
                ef,
                *a_state,
                *bi_state,
                *av_state,
                (points.0@, points.1@, points.2@),
            ) && #[trigger] basefold::honest_batch(
                batch,
                bf,
                ef,
                old(oracle).upcoming(3 + folds@).take(3),
                old(oracle).upcoming(3 + folds@).skip(3),
                fri::query_indices(old(oracle).upcoming_ints(100), pow2(folds@) as int),
            ),
        final(oracle).wf(),
        old(oracle).advanced(*final(oracle), 3 + folds@ as int, 100),
{
    let ghost a = folds@ + 1;
    let bf_tasks = [(a_state, points.0), (bi_state, points.1)];
    let ef_tasks = [(av_state, points.2)];
    let ghost (bf, ef) = (bf_tasks@, ef_tasks@);
    assert(basefold::batch_fits(bf, ef, a, CODE_RATE as nat));
    assert((a - 1) as nat == folds@);
    Basefold::<Goldilocks, GoldilocksExt2>::batch_prove(&bf_tasks, &ef_tasks, oracle)
}

pub proof fn lemma_flat_len(pk: ProvingKey<Goldilocks, GoldilocksExt2>)
    requires
        pk.wf(),
        super::supported(pk.log_m as nat, pk.log_n as nat),
    ensures
        subset_sum::flat_rows(pk.hash.rows(), pk.hash.width as nat).len() == pow2(
            (11 + pk.log_m) as nat,
        ),
{
    super::lemma_width(pk.log_m as nat);
    let w = pk.hash.width as nat;
    let r = pk.hash.rows().len();
    assert(r == 32);
    assert(r * w == w * 32) by (nonlinear_arith)
        requires
            r == 32,
    ;
    assert(subset_sum::flat_rows(pk.hash.rows(), w).len() == r * w);
}

impl Ligesis<Goldilocks, GoldilocksExt2> {
    /// Opens a commitment at `z`.
    #[verifier::rlimit(60)]
    pub fn prove(
        pk: &ProvingKey<Goldilocks, GoldilocksExt2>,
        data: &CommitData<Goldilocks, GoldilocksExt2>,
        z: Vec<GoldilocksExt2>,
        oracle: &mut RandomOracle<GoldilocksExt2>,
    ) -> (proof: LigesisProof<Goldilocks, GoldilocksExt2>)
        requires
            pk.wf(),
            super::supported(pk.log_m as nat, pk.log_n as nat),
            data.wf(*pk),
            z@.len() == pk.log_m + pk.log_n,
            old(oracle).has_fields(
                Counts::of_shape(pk.log_m as nat, pk.log_n as nat).total(pk.log_m as nat) as int,
            ),
            old(oracle).has_ints(COLUMN_DRAWS + 100),
            super::enough_columns(
                old(oracle).upcoming_ints(COLUMN_DRAWS as nat),
                pow2((pk.log_n + 1) as nat) as int,
            ),
        ensures
            ({
                let (log_m, log_n) = (pk.log_m as nat, pk.log_n as nat);
                let c = Counts::of_shape(log_m, log_n);
                honest(
                    proof,
                    Witness {
                        rows: pk.hash.rows(),
                        f: data.values(),
                        log_m,
                        log_n,
                        z: z@,
                    },
                    data.tree(),
                    draws(
                        log_m,
                        log_n,
                        c,
                        old(oracle).upcoming(c.total(log_m)),
                        old(oracle).upcoming_ints((COLUMN_DRAWS + 100) as nat),
                        pow2(c.folds) as int,
                    ),
                    pk.a_state,
                )
            }),
            final(oracle).wf(),
            old(oracle).advanced(
                *final(oracle),
                Counts::of_shape(pk.log_m as nat, pk.log_n as nat).total(pk.log_m as nat) as int,
                COLUMN_DRAWS + 100,
            ),
    {
        let log_m: usize = pk.log_m;
        let log_n: usize = pk.log_n;
        let ghost start = *oracle;
        let ghost c = Counts::of_shape(log_m as nat, log_n as nat);
        let ghost total = c.total(log_m as nat);
        let ghost tape = start.upcoming(total);
        let ghost ints = start.upcoming_ints((COLUMN_DRAWS + 100) as nat);
        let ghost d = draws(
            log_m as nat,
            log_n as nat,
            c,
            tape,
            ints,
            pow2(c.folds) as int,
        );
        let ghost w = Witness {
            rows: pk.hash.rows(),
            f: data.values(),
            log_m: log_m as nat,
            log_n: log_n as nat,
            z: z@,
        };
        proof {
            super::lemma_width(log_m as nat);
            lemma_sizes(log_m as nat, log_n as nat);
            assert(start.upcoming_ints(COLUMN_DRAWS as nat) =~= ints.take(COLUMN_DRAWS as int));
        }
        let m: usize = domain::two_power(log_m);
        let n: usize = domain::two_power(log_n);
        let two_n: usize = domain::two_power(log_n + 1);
        let width: usize = ETA * m;
        let z2 = basefold::first_coordinates(&z, log_n);
        let z1 = basefold::last_coordinates(&z, log_n);
        let eqz1 = MlPoly::new_eq(&z1).0;
        proof {
            multilinear::lemma_eq_table_len(z1@);
        }
        // the combined row and its encoding
        let a_vec = tables::combine_rows(&data.f, &eqz1, m, n);
        let y = tables::mle_eval(a_vec.as_slice(), z2.as_slice());
        proof {
            poly::lemma_exponent(log_n as nat);
        }
        let (a_vec_state, com_a_vec) =
            Basefold::<Goldilocks, GoldilocksExt2>::commit_ext_on_domain(
            MlPoly(poly::copy_slice(a_vec.as_slice())),
            CODE_RATE,
            super::shared_log_interleave(log_n, log_m, log_n),
        );
        let ra = domain::rs_encode(&a_vec, log_n + 1);
        // the opened columns
        let idx = super::sample_columns(oracle, two_n);
        assert(idx@ == d.idx);
        let sorted_idx = leaves::sort_distinct(&idx);
        proof {
            lemma_sorted_length(idx@, two_n as int);
            lemma_data_shape(*pk, *data);
        }
        let h_open = data.h_merkle.open(sorted_idx.as_slice());
        let h_cols = read_columns(&data.h_matrix, &sorted_idx, two_n);
        proof {
            lemma_opened_columns(*pk, *data, h_cols@, sorted_idx@);
        }
        // the opened bits
        let bi_flat = tables::open_bits(&data.b_cols, &idx, width);
        proof {
            assert(bi_flat@.len() == pow2((13 + log_m) as nat)) by {
                assert(bi_flat@.len() == width as nat * 128nat);
            }
            poly::lemma_exponent((13 + log_m) as nat);
        }
        let bi_vars: usize = LOG_ETA + log_m + LOG_COLS;
        let (bi_state, com_i) = Basefold::<Goldilocks, GoldilocksExt2>::commit_base_on_domain(
            MlPoly(poly::copy_slice(bi_flat.as_slice())),
            CODE_RATE,
            super::shared_log_interleave(bi_vars, log_m, log_n),
        );
        // the binary check
        proof {
            lemma_part(start, *oracle, total, 0, (13 + log_m) as nat, 512);
        }
        let alpha1 = oracle.next_n_fields(LOG_ETA + log_m + LOG_COLS);
        assert(alpha1@ == d.alpha1);
        proof {
            lemma_part(start, *oracle, total, (13 + log_m) as nat, 5, 512);
        }
        let alpha2 = oracle.next_n_fields(LOG_C);
        assert(alpha2@ == d.alpha2);
        let eq_alpha2 = MlPoly::new_eq(&alpha2).0;
        let (bi_ef, bi_minus1) = lift_bits(&bi_flat);
        let eq_alpha1 = MlPoly::new_eq(&alpha1).0;
        proof {
            multilinear::lemma_eq_table_len(alpha1@);
            multilinear::lemma_eq_table_len(alpha2@);
            lemma_part(start, *oracle, total, (18 + log_m) as nat, c.bin, 512);
        }
        let bi_copy = poly::copy_slice(bi_ef.as_slice());
        let ghost factors = seq![bi_ef@, bi_minus1@, eq_alpha1@];
        let polys = vec![bi_ef, bi_minus1, eq_alpha1];
        proof {
            assert(views::nested(polys@) =~= factors);
            assert(sumcheck::polys_shape(factors, c.bin));
            assert(polys@[0]@ == factors[0]);
        }
        let (sc_binary, ch_bin) = sumcheck::prove(polys, oracle);
        proof {
            sumcheck::lemma_exponent_unique(c.bin, ch_bin@.len());
        }
        assert(ch_bin@ == d.bin);
        assert(sumcheck_honest(sc_binary, factors, d.bin));
        let r1 = tables::rev(ch_bin.as_slice());
        // the hash and reconstruction checks
        let ghost o2 = 18 + log_m as nat + c.bin;
        proof {
            lemma_part(start, *oracle, total, o2, 7, 512);
        }
        let r2 = oracle.next_n_fields(LOG_COLS);
        assert(r2@ == d.r2);
        let eq_r2 = MlPoly::new_eq(&r2).0;
        proof {
            multilinear::lemma_eq_table_len(r2@);
            multilinear::lemma_eq_table_valid(r2@);
        }
        let g1 = tables::fold_hash(&pk.hash.a, &eq_alpha2, width);
        let g2 = tables::fold_bits(&data.b_cols, &idx, &eq_r2, width);
        let y4 = pick_sum(&idx, &eq_r2, &ra);
        let v_vec = tables::make_recon_weights(&eqz1, m);
        let ghost o3 = o2 + 7;
        proof {
            lemma_part(start, *oracle, total, o3, c.hash, 512);
        }
        let g2_copy = poly::copy_slice(g2.as_slice());
        let (sc_hash, ch_hash) = prove_product(g1, g2_copy, Ghost(c.hash), oracle);
        assert(ch_hash@ == d.hash);
        let r4 = tables::rev(ch_hash.as_slice());
        let ghost o4 = o3 + c.hash;
        proof {
            lemma_part(start, *oracle, total, o4, c.recon, 512);
        }
        let (sc_recon, ch_recon) = prove_product(v_vec, g2, Ghost(c.recon), oracle);
        assert(ch_recon@ == d.recon);
        let r5 = tables::rev(ch_recon.as_slice());
        let sel = tables::make_selector(&idx, &eq_r2, two_n);
        let ghost o5 = o4 + c.recon;
        proof {
            lemma_part(start, *oracle, total, o5, c.table, 512);
        }
        let ra_copy = poly::copy_slice(ra.as_slice());
        let (sc_table, ch_table) = prove_product(sel, ra_copy, Ghost(c.table), oracle);
        assert(ch_table@ == d.table);
        let r3 = tables::rev(ch_table.as_slice());
        let y5 = tables::mle_eval(ra.as_slice(), r3.as_slice());
        let w_vec = tables::rs_weights(r3.as_slice(), n, log_n + 1);
        let ghost o6 = o5 + c.table;
        proof {
            lemma_part(start, *oracle, total, o6, c.rs, 512);
        }
        let a_copy = poly::copy_slice(a_vec.as_slice());
        let (sc_rslink, ch_rs) = prove_product(a_copy, w_vec, Ghost(c.rs), oracle);
        assert(ch_rs@ == d.rs);
        let p_a = tables::cat(r4.as_slice(), alpha2.as_slice());
        let p_bi_hash = tables::cat(r2.as_slice(), r4.as_slice());
        let p_bi_recon = tables::cat(r2.as_slice(), r5.as_slice());
        let r6 = tables::rev(ch_rs.as_slice());
        // one point for each polynomial
        let ghost o7 = o6 + c.rs;
        proof {
            lemma_part(start, *oracle, total, o7, 1, 512);
        }
        let gamma_bi = oracle.next_field();
        assert(gamma_bi == d.gamma_bi);
        let pts_bi = vec![r1, p_bi_hash, p_bi_recon];
        assert(views::nested(pts_bi@) =~= points_bi(d));
        let g_bi = tables::combine_eq(pts_bi.as_slice(), gamma_bi);
        proof {
            lemma_part(start, *oracle, total, o7 + 1, c.bi, 512);
        }
        let (sc_bi_batch, ch_bi) = prove_product(bi_copy, g_bi, Ghost(c.bi), oracle);
        assert(ch_bi@ == d.bi);
        let r_bi = tables::rev(ch_bi.as_slice());
        let ghost o8 = o7 + 1 + c.bi;
        proof {
            lemma_part(start, *oracle, total, o8, 1, 512);
        }
        let gamma_a = oracle.next_field();
        assert(gamma_a == d.gamma_a);
        let pts_a = vec![z2, r6];
        assert(views::nested(pts_a@) =~= points_a(w.z2(), d));
        let g_a = tables::combine_eq(pts_a.as_slice(), gamma_a);
        proof {
            lemma_part(start, *oracle, total, o8 + 1, c.a, 512);
        }
        let (sc_a_batch, ch_a) = prove_product(a_vec, g_a, Ghost(c.a), oracle);
        assert(ch_a@ == d.a);
        let r_a = tables::rev(ch_a.as_slice());
        // the shared opening
        let ghost o9 = o8 + 1 + c.a;
        proof {
            let rate = CODE_RATE as nat;
            let a = (c.folds + 1) as nat;
            lemma_flat_len(*pk);
            poly::lemma_exponent((11 + log_m) as nat);
            assert(basefold::task_fits(pk.a_state, p_a@, a, rate));
            assert(basefold::task_fits(bi_state, r_bi@, a, rate));
            assert(basefold::task_fits(a_vec_state, r_a@, a, rate));
            lemma_part(start, *oracle, total, o9, (3 + c.folds) as nat, 512);
            assert(oracle.upcoming_ints(100) =~= ints.skip(COLUMN_DRAWS as int));
            let t2 = oracle.upcoming((3 + c.folds) as nat);
            assert(t2.take(3) =~= d.coeffs);
            assert(t2.skip(3) =~= d.folds);
        }
        let ghost points = (p_a@, r_bi@, r_a@);
        let batch = open_shared(
            &pk.a_state,
            &bi_state,
            &a_vec_state,
            (p_a, r_bi, r_a),
            Ghost(c.folds),
            oracle,
        );
        let proof = LigesisProof {
            y,
            com_a_vec: com_a_vec.0,
            com_i: com_i.0,
            y4,
            y5,
            h_cols,
            h_open,
            sc_binary,
            sc_hash,
            sc_recon,
            sc_table,
            sc_rslink,
            sc_bi_batch,
            sc_a_batch,
            batch,
        };
        proof {
            assert(honest_parts(proof, w, data.tree(), d));
            let (bf, ef) = choose|
                bf: Seq<(&BasefoldProverState<Goldilocks, GoldilocksExt2>, Vec<GoldilocksExt2>)>,
                ef: Seq<
                    (&BasefoldProverState<GoldilocksExt2, GoldilocksExt2>, Vec<GoldilocksExt2>),
                >,
            |
                shared_tasks(bf, ef, pk.a_state, bi_state, a_vec_state, points)
                    && #[trigger] basefold::honest_batch(
                    batch,
                    bf,
                    ef,
                    d.coeffs,
                    d.folds,
                    d.base,
                );
            assert(honest_opening(proof, w, d, bf, ef, pk.a_state));
        }
        proof
    }
}

/// Sizes of the tables of a supported shape.
pub proof fn lemma_sizes(log_m: nat, log_n: nat)
    requires
        super::supported(log_m, log_n),
    ensures
        pow2(log_m) <= usize::MAX,
        pow2(log_n) <= usize::MAX,
        0 < pow2(log_n),
        pow2(log_n) * 2 == pow2(log_n + 1),
        pow2(log_m) * pow2(log_n) == pow2(log_m + log_n),
        pow2(7) == 128,
        pow2(5) == 32,
        log_n >= super::fold_count(log_m, log_n),
        11 + log_m >= super::fold_count(log_m, log_n),
{
    vstd::arithmetic::power2::lemma2_to64();
    multilinear::lemma_pow2_mono(log_m, log_m + 13);
    vstd::arithmetic::power2::lemma_pow2_pos(log_n);
    multilinear::lemma_pow2_step(log_n + 1);
    multilinear::lemma_pow2_mono(log_n, log_n + 1);
    vstd::arithmetic::power2::lemma_pow2_adds(log_m, log_n);
}

/// The interleavings of the shared opening can be addressed.
proof fn lemma_layers(log_m: nat, log_n: nat)
    requires
        super::supported(log_m, log_n),
    ensures
        pow2(super::layers(11 + log_m, log_m, log_n)) <= usize::MAX,
        pow2(super::layers(13 + log_m, log_m, log_n)) <= usize::MAX,
        pow2(super::layers(log_n, log_m, log_n)) <= usize::MAX,
{
    lemma_sizes(log_m, log_n);
    multilinear::lemma_pow2_mono(super::layers(11 + log_m, log_m, log_n), 13 + log_m);
    multilinear::lemma_pow2_mono(super::layers(13 + log_m, log_m, log_n), 13 + log_m);
    multilinear::lemma_pow2_mono(super::layers(log_n, log_m, log_n), log_n + 1);
}

/// The committer's tables have the lengths of the shape.
proof fn lemma_data_shape(
    pk: ProvingKey<Goldilocks, GoldilocksExt2>,
    data: CommitData<Goldilocks, GoldilocksExt2>,
)
    requires
        pk.wf(),
        super::supported(pk.log_m as nat, pk.log_n as nat),
        data.wf(pk),
    ensures
        data.b_cols@.len() == pow2((pk.log_n + 1) as nat),
        forall|j: int|
            0 <= j < data.b_cols@.len() ==> (#[trigger] data.b_cols@[j])@.len()
                == super::bit_width(pk.log_m as nat),
        data.h_matrix@.len() == C,
        forall|r: int|
            0 <= r < C ==> (#[trigger] data.h_matrix@[r])@.len() == pow2((pk.log_n + 1) as nat),
        data.tree().len() == pow2((pk.log_n + 1) as nat),
{
    let bits = data.bits();
    assert(bits.len() == data.b_cols@.len());
    assert forall|j: int| 0 <= j < data.b_cols@.len() implies (#[trigger] data.b_cols@[j])@.len()
        == super::bit_width(pk.log_m as nat) by {
        assert(bits[j] == data.b_cols@[j]@);
        assert(bits[j] == super::bit_column(
            data.values(),
            pk.log_m as nat,
            pk.log_n as nat,
            j,
        ));
    }
    assert(data.digest_rows().len() == data.h_matrix@.len());
    assert forall|r: int| 0 <= r < C implies (#[trigger] data.h_matrix@[r])@.len() == pow2(
        (pk.log_n + 1) as nat,
    ) by {
        assert(data.digest_rows()[r] == data.h_matrix@[r]@);
    }
}

/// The columns read from the digest matrix are the digests of the bit columns.
proof fn lemma_opened_columns(
    pk: ProvingKey<Goldilocks, GoldilocksExt2>,
    data: CommitData<Goldilocks, GoldilocksExt2>,
    cols: Seq<Vec<Goldilocks>>,
    positions: Seq<usize>,
)
    requires
        pk.wf(),
        super::supported(pk.log_m as nat, pk.log_n as nat),
        data.wf(pk),
        leaves::below(positions, pow2((pk.log_n + 1) as nat) as int),
        cols.len() == positions.len(),
        forall|i: int|
            0 <= i < cols.len() ==> (#[trigger] cols[i])@ == Seq::new(
                data.h_matrix@.len(),
                |k: int| data.h_matrix@[k]@[positions[i] as int],
            ),
    ensures
        views::nested(cols) == merkle::select(
            super::digest_columns(pk.hash.rows(), data.bits()),
            positions,
        ),
{
    let rows = pk.hash.rows();
    let want = merkle::select(super::digest_columns(rows, data.bits()), positions);
    lemma_data_shape(pk, data);
    assert forall|i: int| 0 <= i < cols.len() implies #[trigger] views::nested(cols)[i]
        == want[i] by {
        let j = positions[i] as int;
        assert(positions[i] < pow2((pk.log_n + 1) as nat));
        assert(cols[i]@.len() == C);
        assert forall|r: int| 0 <= r < C implies #[trigger] cols[i]@[r] == want[i][r] by {
            assert(data.digest_rows()[r] == data.h_matrix@[r]@);
            assert(data.digest_rows()[r][j] == subset_sum::digest(rows, data.bits()[j])[r]);
        }
        assert(cols[i]@ =~= want[i]);
    }
    assert(views::nested(cols) =~= want);
}

/// The sumcheck is accepted for the claim under the given challenges.
pub open spec fn sumcheck_accepted(
    claim: GoldilocksExt2,
    sc: SumcheckProof<GoldilocksExt2>,
    ch: Seq<GoldilocksExt2>,
) -> bool {
    sumcheck::accepted(claim, sc.rounds(), sc.final_evals@, ch)
}

/// Number of challenges that a sumcheck's rounds read: they stop at the first failing
/// check.
pub open spec fn sumcheck_read(
    claim: GoldilocksExt2,
    sc: SumcheckProof<GoldilocksExt2>,
    ch: Seq<GoldilocksExt2>,
) -> nat {
    sumcheck::rounds_passed(claim, sc.rounds(), ch)
}

/// Checks a sumcheck; on success the challenges come back reversed, as a point.
fn check_sumcheck(
    claim: GoldilocksExt2,
    sc: &SumcheckProof<GoldilocksExt2>,
    oracle: &mut RandomOracle<GoldilocksExt2>,
) -> (r: Option<Vec<GoldilocksExt2>>)
    requires
        old(oracle).has_fields(
            sumcheck_read(claim, *sc, old(oracle).upcoming(sc.round_polys@.len())) as int,
        ),
    ensures
        r is Some <==> sumcheck_accepted(
            claim,
            *sc,
            old(oracle).upcoming(sc.round_polys@.len()),
        ),
        r is Some ==> r->0@ == old(oracle).upcoming(sc.round_polys@.len()).reverse(),
        final(oracle).wf(),
        r is Some ==> sumcheck_read(claim, *sc, old(oracle).upcoming(sc.round_polys@.len()))
            == sc.round_polys@.len(),
        old(oracle).advanced(
            *final(oracle),
            sumcheck_read(claim, *sc, old(oracle).upcoming(sc.round_polys@.len())) as int,
            0,
        ),
{
    proof {
        sumcheck::lemma_passed_bound(
            claim,
            sc.rounds(),
            oracle.upcoming(sc.round_polys@.len()),
        );
        assert(sc.rounds().len() == sc.round_polys@.len());
    }
    match sumcheck::verify(claim, sc, oracle) {
        Some(ch) => Some(tables::rev(ch.as_slice())),
        None => None,
    }
}

impl LigesisProof<Goldilocks, GoldilocksExt2> {
    /// The challenge counts that the proof calls for.
    pub open spec fn counts(self) -> Counts {
        Counts {
            bin: self.sc_binary.round_polys@.len(),
            hash: self.sc_hash.round_polys@.len(),
            recon: self.sc_recon.round_polys@.len(),
            table: self.sc_table.round_polys@.len(),
            rs: self.sc_rslink.round_polys@.len(),
            bi: self.sc_bi_batch.round_polys@.len(),
            a: self.sc_a_batch.round_polys@.len(),
            folds: self.batch.rounds(),
        }
    }

    /// Number of queries that the shared opening reads.
    pub open spec fn query_count(self) -> nat {
        fri::query_count(self.batch.code_rate as nat)
    }

    /// The claims of the shared opening.
    pub open spec fn claims(self, com_a: Seq<u8>, log_m: nat, log_n: nat, d: Draws) -> Seq<
        BatchClaim,
    > {
        seq![
            BatchClaim {
                root: com_a,
                point: point_a(d),
                value: self.sc_hash.final_evals@[0],
                li: super::layers(11 + log_m, log_m, log_n),
            },
            BatchClaim {
                root: self.com_i@,
                point: d.bi.reverse(),
                value: self.sc_bi_batch.final_evals@[0],
                li: super::layers(13 + log_m, log_m, log_n),
            },
            BatchClaim {
                root: self.com_a_vec@,
                point: d.a.reverse(),
                value: self.sc_a_batch.final_evals@[0],
                li: super::layers(log_n, log_m, log_n),
            },
        ]
    }

    /// The opened digest columns are as many, and as long, as the verifier asks for.
    pub open spec fn columns_fit(self) -> bool {
        &&& self.h_cols@.len() == NUM_COLS_OPENED
        &&& forall|i: int| 0 <= i < self.h_cols@.len() ==> (#[trigger] self.h_cols@[i])@.len() == C
    }

    /// The hash claim: the opened digest columns combined.
    pub open spec fn hash_claim(self, d: Draws) -> GoldilocksExt2 {
        combined_digests(
            views::nested(self.h_cols@),
            leaves::sorted_distinct(d.idx),
            d.idx,
            multilinear::eq_table(d.r2),
            multilinear::eq_table(d.alpha2),
        )
    }

    /// The opened digest columns are in the committed tree.
    pub open spec fn columns_accepted(self, root: Seq<u8>, log_n: nat, d: Draws) -> bool {
        &&& self.columns_fit()
        &&& merkle::opened_root(
            self.h_open@,
            leaves::sorted_distinct(d.idx),
            merkle::leaf_digests(super::columns_bytes(views::nested(self.h_cols@))),
            pow2(log_n + 1) as usize,
        ) == Some(root)
    }

    /// The check that the committed bits are bits.
    pub open spec fn bits_accepted(self, d: Draws) -> bool {
        let fe = self.sc_binary.final_evals@;
        &&& sumcheck_accepted(GoldilocksExt2::zero(), self.sc_binary, d.bin)
        &&& fe.len() == 3
        &&& fe[1] == fe[0] - GoldilocksExt2::one()
        &&& fe[2] == multilinear::eq_value(d.alpha1, d.bin.reverse())
    }

    /// The check that the opened digest columns are hashes of the committed bits.
    pub open spec fn hash_accepted(self, d: Draws) -> bool {
        &&& sumcheck_accepted(self.hash_claim(d), self.sc_hash, d.hash)
        &&& self.sc_hash.final_evals@.len() == 2
    }

    /// The check that the bits recompose the opened values.
    pub open spec fn recon_accepted(self, log_m: nat, eqz1: Seq<GoldilocksExt2>, d: Draws) -> bool {
        &&& sumcheck_accepted(self.y4, self.sc_recon, d.recon)
        &&& self.sc_recon.final_evals@.len() == 2
        &&& d.recon.len() == 6 + log_m
        &&& self.sc_recon.final_evals@[0] == multilinear::mle(
            tables::recon_weights(eqz1, super::bit_width(log_m)),
            d.recon.reverse(),
        )
    }

    /// The check that the opened values are entries of the encoded row.
    pub open spec fn table_accepted(self, log_n: nat, d: Draws) -> bool {
        let sel = tables::selector(d.idx, multilinear::eq_table(d.r2), pow2(log_n + 1));
        &&& sumcheck_accepted(self.y4, self.sc_table, d.table)
        &&& self.sc_table.final_evals@.len() == 2
        &&& d.table.len() == log_n + 1
        &&& self.sc_table.final_evals@[0] == multilinear::mle(sel, d.table.reverse())
        &&& self.sc_table.final_evals@[1] == self.y5
    }

    /// The check that the encoded row is the encoding of the combined row.
    pub open spec fn link_accepted(self, log_n: nat, d: Draws) -> bool {
        &&& sumcheck_accepted(self.y5, self.sc_rslink, d.rs)
        &&& self.sc_rslink.final_evals@.len() == 2
        &&& d.rs.len() == log_n
        &&& self.sc_rslink.final_evals@[1] == multilinear::mle(
            tables::encoding_weights(d.table.reverse(), log_n + 1, pow2(log_n)),
            d.rs.reverse(),
        )
    }

    /// The verifier's checks of the sumchecks over public tables. A sumcheck has as
    /// many rounds as its table has variables.
    pub open spec fn checks_accepted(
        self,
        log_m: nat,
        log_n: nat,
        z: Seq<GoldilocksExt2>,
        d: Draws,
    ) -> bool {
        &&& self.bits_accepted(d)
        &&& self.hash_accepted(d)
        &&& self.recon_accepted(log_m, multilinear::eq_table(z.skip(log_n as int)), d)
        &&& self.table_accepted(log_n, d)
        &&& self.link_accepted(log_n, d)
    }

    /// Number of challenges that those checks read: they stop at the first that fails.
    pub open spec fn checks_read(
        self,
        log_m: nat,
        log_n: nat,
        z: Seq<GoldilocksExt2>,
        d: Draws,
    ) -> nat {
        let c = self.counts();
        let eqz1 = multilinear::eq_table(z.skip(log_n as int));
        if !self.bits_accepted(d) {
            sumcheck_read(GoldilocksExt2::zero(), self.sc_binary, d.bin)
        } else if !self.hash_accepted(d) {
            c.bin + 7 + sumcheck_read(self.hash_claim(d), self.sc_hash, d.hash)
        } else if !self.recon_accepted(log_m, eqz1, d) {
            c.bin + 7 + c.hash + sumcheck_read(self.y4, self.sc_recon, d.recon)
        } else if !self.table_accepted(log_n, d) {
            c.bin + 7 + c.hash + c.recon + sumcheck_read(self.y4, self.sc_table, d.table)
        } else {
            c.bin + 7 + c.hash + c.recon + c.table + sumcheck_read(
                self.y5,
                self.sc_rslink,
                d.rs,
            )
        }
    }

    /// The claim of the reduction of the bits to one point.
    pub open spec fn claim_bi(self, d: Draws) -> GoldilocksExt2 {
        tables::horner_value(
            seq![
                self.sc_binary.final_evals@[0],
                self.sc_hash.final_evals@[1],
                self.sc_recon.final_evals@[1],
            ],
            d.gamma_bi,
        )
    }

    /// The check of the reduction of the bits to one point.
    pub open spec fn bi_accepted(self, d: Draws) -> bool {
        &&& sumcheck_accepted(self.claim_bi(d), self.sc_bi_batch, d.bi)
        &&& self.sc_bi_batch.final_evals@.len() == 2
        &&& self.sc_bi_batch.final_evals@[1] == tables::combined_eq_value(
            points_bi(d),
            d.gamma_bi,
            d.bi.reverse(),
        )
    }

    /// The claim of the reduction of the combined row to one point.
    pub open spec fn claim_a(self, d: Draws) -> GoldilocksExt2 {
        tables::horner_value(seq![self.y, self.sc_rslink.final_evals@[0]], d.gamma_a)
    }

    /// The check of the reduction of the combined row to one point.
    pub open spec fn a_accepted(self, z2: Seq<GoldilocksExt2>, d: Draws) -> bool {
        &&& sumcheck_accepted(self.claim_a(d), self.sc_a_batch, d.a)
        &&& self.sc_a_batch.final_evals@.len() == 2
        &&& self.sc_a_batch.final_evals@[1] == tables::combined_eq_value(
            points_a(z2, d),
            d.gamma_a,
            d.a.reverse(),
        )
    }

    /// The verifier's checks of the reductions to one point.
    pub open spec fn batches_accepted(self, z2: Seq<GoldilocksExt2>, d: Draws) -> bool {
        self.bi_accepted(d) && self.a_accepted(z2, d)
    }

    /// Number of challenges that those reductions read: they stop at the first check that
    /// fails.
    pub open spec fn batches_read(self, d: Draws) -> nat {
        if !self.bi_accepted(d) {
            1 + sumcheck_read(self.claim_bi(d), self.sc_bi_batch, d.bi)
        } else {
            2 + self.counts().bi + sumcheck_read(self.claim_a(d), self.sc_a_batch, d.a)
        }
    }

    /// All checks before the shared opening are passed.
    pub open spec fn reaches_opening(
        self,
        root: Seq<u8>,
        log_m: nat,
        log_n: nat,
        z: Seq<GoldilocksExt2>,
        d: Draws,
    ) -> bool {
        &&& z.len() == log_m + log_n
        &&& self.columns_accepted(root, log_n, d)
        &&& self.checks_accepted(log_m, log_n, z, d)
        &&& self.batches_accepted(z.take(log_n as int), d)
    }

    /// Number of challenges that verification reads: it stops at the first check that
    /// fails.
    pub open spec fn fields_read(
        self,
        com_a: Seq<u8>,
        root: Seq<u8>,
        log_m: nat,
        log_n: nat,
        z: Seq<GoldilocksExt2>,
        d: Draws,
    ) -> nat {
        let first = 18 + log_m + self.checks_read(log_m, log_n, z, d);
        if z.len() != log_m + log_n || !self.columns_accepted(root, log_n, d) {
            0
        } else if !self.checks_accepted(log_m, log_n, z, d) {
            first
        } else if !self.batches_accepted(z.take(log_n as int), d) {
            first + self.batches_read(d)
        } else {
            first + self.batches_read(d) + self.batch.fields_read(
                2,
                self.claims(com_a, log_m, log_n, d),
            )
        }
    }

    /// Number of integers that verification reads: the draws of the columns, and those of
    /// the queries if the shared opening comes to them.
    pub open spec fn ints_read(
        self,
        com_a: Seq<u8>,
        root: Seq<u8>,
        log_m: nat,
        log_n: nat,
        z: Seq<GoldilocksExt2>,
        d: Draws,
    ) -> nat {
        if z.len() != log_m + log_n {
            0
        } else if self.reaches_opening(root, log_m, log_n, z, d) {
            COLUMN_DRAWS as nat + self.batch.ints_read(
                2,
                self.claims(com_a, log_m, log_n, d),
                d.folds,
            )
        } else {
            COLUMN_DRAWS as nat
        }
    }

    /// The proof has each part that verification comes to: whole digests for columns of
    /// the right shape, and where all checks before it are passed, a shared opening whose
    /// parameters are in range and that is complete if it draws queries.
    pub open spec fn complete(
        self,
        com_a: Seq<u8>,
        root: Seq<u8>,
        log_m: nat,
        log_n: nat,
        z: Seq<GoldilocksExt2>,
        d: Draws,
    ) -> bool {
        let claims = self.claims(com_a, log_m, log_n, d);
        &&& self.columns_fit() ==> self.h_open@.len() % 32 == 0
        &&& self.reaches_opening(root, log_m, log_n, z, d) ==> {
            &&& self.batch.code_rate <= self.batch.log_len
            &&& self.batch.shape_fits(2, claims) && self.batch.reducible(claims, d.folds)
                ==> self.batch.complete(2, claims, d.base)
        }
    }

    /// The verifier accepts.
    pub open spec fn accepted(
        self,
        com_a: Seq<u8>,
        root: Seq<u8>,
        log_m: nat,
        log_n: nat,
        z: Seq<GoldilocksExt2>,
        d: Draws,
    ) -> bool {
        &&& z.len() == log_m + log_n
        &&& self.columns_accepted(root, log_n, d)
        &&& self.checks_accepted(log_m, log_n, z, d)
        &&& self.batches_accepted(z.take(log_n as int), d)
        &&& self.batch.accepted(
            2,
            self.claims(com_a, log_m, log_n, d),
            d.coeffs,
            d.folds,
            d.base,
        )
    }
}

/// No sumcheck of the proof reads more challenges than it has rounds.
proof fn lemma_reads(proof: LigesisProof<Goldilocks, GoldilocksExt2>, d: Draws)
    ensures
        ({
            let c = proof.counts();
            &&& sumcheck_read(GoldilocksExt2::zero(), proof.sc_binary, d.bin) <= c.bin
            &&& sumcheck_read(proof.hash_claim(d), proof.sc_hash, d.hash) <= c.hash
            &&& sumcheck_read(proof.y4, proof.sc_recon, d.recon) <= c.recon
            &&& sumcheck_read(proof.y4, proof.sc_table, d.table) <= c.table
            &&& sumcheck_read(proof.y5, proof.sc_rslink, d.rs) <= c.rs
            &&& sumcheck_read(proof.claim_bi(d), proof.sc_bi_batch, d.bi) <= c.bi
            &&& sumcheck_read(proof.claim_a(d), proof.sc_a_batch, d.a) <= c.a
        }),
{
    let zero = GoldilocksExt2::zero();
    sumcheck::lemma_passed_bound(zero, proof.sc_binary.rounds(), d.bin);
    sumcheck::lemma_passed_bound(proof.hash_claim(d), proof.sc_hash.rounds(), d.hash);
    sumcheck::lemma_passed_bound(proof.y4, proof.sc_recon.rounds(), d.recon);
    sumcheck::lemma_passed_bound(proof.y4, proof.sc_table.rounds(), d.table);
    sumcheck::lemma_passed_bound(proof.y5, proof.sc_rslink.rounds(), d.rs);
    sumcheck::lemma_passed_bound(proof.claim_bi(d), proof.sc_bi_batch.rounds(), d.bi);
    sumcheck::lemma_passed_bound(proof.claim_a(d), proof.sc_a_batch.rounds(), d.a);
}

/// The opened columns, each compressed by `alpha` and combined with `weights`;
/// the columns stand in the order of `sorted`.
pub open spec fn combined_digests(
    cols: Seq<Seq<Goldilocks>>,
    sorted: Seq<usize>,
    idx: Seq<usize>,
    weights: Seq<GoldilocksExt2>,
    alpha: Seq<GoldilocksExt2>,
) -> GoldilocksExt2 {
    algebra::sum(
        idx.len(),
        |k: int| weights[k] * basefold::compress_leaf(cols[sorted.index_of(idx[k])], alpha),
    )
}

/// Position of `x` in an increasing list that holds it.
fn position_in(sorted: &Vec<usize>, x: usize) -> (r: usize)
    requires
        leaves::increasing(sorted@),
        sorted@.contains(x),
    ensures
        r == sorted@.index_of(x),
        r < sorted@.len(),
{
    let ghost t = sorted@.index_of(x);
    let mut i: usize = 0;
    proof {
        let k = choose|k: int| 0 <= k < sorted@.len() && sorted@[k] == x;
        assert(sorted@[k] == x);
        assert(0 <= t < sorted@.len() && sorted@[t] == x);
    }
    while i < sorted.len() && sorted[i] != x
        invariant
            i <= sorted.len(),
            0 <= t < sorted@.len(),
            sorted@[t] == x,
            i <= t,
        decreases sorted.len() - i,
    {
        i += 1;
    }
    proof {
        if i < t {
            assert(sorted@[i as int] < sorted@[t]);
        }
    }
    i
}

/// Combines the opened digest columns.
fn combine_digests(
    cols: &Vec<Vec<Goldilocks>>,
    sorted: &Vec<usize>,
    idx: &Vec<usize>,
    weights: &Vec<GoldilocksExt2>,
    alpha: &Vec<GoldilocksExt2>,
) -> (r: GoldilocksExt2)
    requires
        leaves::increasing(sorted@),
        cols@.len() == sorted@.len(),
        weights@.len() == idx@.len(),
        forall|i: int| 0 <= i < cols@.len() ==> (#[trigger] cols@[i])@.len() == alpha@.len(),
        forall|k: int| 0 <= k < idx@.len() ==> sorted@.contains(#[trigger] idx@[k]),
    ensures
        r == combined_digests(views::nested(cols@), sorted@, idx@, weights@, alpha@),
{
    let ghost cs = views::nested(cols@);
    let ghost f = |k: int|
        weights@[k] * basefold::compress_leaf(cs[sorted@.index_of(idx@[k])], alpha@);
    let mut acc = GoldilocksExt2::new_zero();
    let mut k: usize = 0;
    while k < idx.len()
        invariant
            k <= idx.len(),
            cs == views::nested(cols@),
            leaves::increasing(sorted@),
            cols@.len() == sorted@.len(),
            weights@.len() == idx@.len(),
            forall|i: int| 0 <= i < cols@.len() ==> (#[trigger] cols@[i])@.len() == alpha@.len(),
            forall|k: int| 0 <= k < idx@.len() ==> sorted@.contains(#[trigger] idx@[k]),
            f == (|k: int|
                weights@[k] * basefold::compress_leaf(cs[sorted@.index_of(idx@[k])], alpha@)),
            acc == algebra::sum(k as nat, f),
        decreases idx.len() - k,
    {
        assert(sorted@.contains(idx@[k as int]));
        let p: usize = position_in(sorted, idx[k]);
        assert(cols@[p as int]@.len() == alpha@.len());
        let v = basefold::compress(&cols[p], alpha);
        acc = acc.add(weights[k].mul(v));
        k += 1;
    }
    acc
}

/// Checks the opened digest columns against the committed root.
fn check_columns(
    proof: &LigesisProof<Goldilocks, GoldilocksExt2>,
    root: &Digest,
    sorted: &Vec<usize>,
    two_n: usize,
) -> (r: bool)
    requires
        sorted@.len() == NUM_COLS_OPENED,
        proof.columns_fit() ==> proof.h_open@.len() % 32 == 0,
    ensures
        r == ({
            &&& proof.columns_fit()
            &&& merkle::opened_root(
                proof.h_open@,
                sorted@,
                merkle::leaf_digests(super::columns_bytes(views::nested(proof.h_cols@))),
                two_n,
            ) == Some(root@)
        }),
{
    if proof.h_cols.len() != sorted.len() {
        return false;
    }
    let ghost cs = views::nested(proof.h_cols@);
    let mut leaf_bytes: Vec<Vec<u8>> = Vec::new();
    let mut i: usize = 0;
    while i < proof.h_cols.len()
        invariant
            i <= proof.h_cols.len(),
            cs == views::nested(proof.h_cols@),
            leaf_bytes@.len() == i,
            forall|k: int| 0 <= k < i ==> (#[trigger] proof.h_cols@[k])@.len() == C,
            forall|k: int|
                0 <= k < i ==> (#[trigger] leaf_bytes@[k])@ == merkle::fields_bytes(cs[k]),
        decreases proof.h_cols.len() - i,
    {
        if proof.h_cols[i].len() != C {
            assert(proof.h_cols@[i as int]@.len() != C);
            return false;
        }
        leaf_bytes.push(Serialize::serialize_fields(proof.h_cols[i].as_slice()));
        i += 1;
    }
    assert(views::nested(leaf_bytes@) =~= super::columns_bytes(cs));
    MerkleTreeVerifier::new(two_n, root).verify(
        merkle::copy_bytes(&proof.h_open),
        sorted,
        &leaf_bytes,
    )
}

/// The points that the public checks leave behind.
struct CheckedPoints {
    r1: Vec<GoldilocksExt2>,
    r4: Vec<GoldilocksExt2>,
    r5: Vec<GoldilocksExt2>,
    r6: Vec<GoldilocksExt2>,
}

/// The challenges read before the first sumcheck, and the opened columns.
struct FirstDraws {
    idx: Vec<usize>,
    sorted: Vec<usize>,
    alpha1: Vec<GoldilocksExt2>,
    alpha2: Vec<GoldilocksExt2>,
}

/// Runs the checks of the five sumchecks over public tables.
#[verifier::rlimit(40)]
fn check_public(
    proof: &LigesisProof<Goldilocks, GoldilocksExt2>,
    log_m: usize,
    log_n: usize,
    z: &Vec<GoldilocksExt2>,
    first: &FirstDraws,
    d: Ghost<Draws>,
    start: Ghost<RandomOracle<GoldilocksExt2>>,
    oracle: &mut RandomOracle<GoldilocksExt2>,
) -> (r: Option<(CheckedPoints, Vec<GoldilocksExt2>)>)
    requires
        super::supported(log_m as nat, log_n as nat),
        z@.len() == log_m + log_n,
        proof.columns_fit(),
        first.idx@ == d@.idx,
        first.idx@.len() == NUM_COLS_OPENED,
        tables::distinct(first.idx@),
        leaves::below(first.idx@, pow2((log_n + 1) as nat) as int),
        first.sorted@ == leaves::sorted_distinct(first.idx@),
        first.alpha1@ == d@.alpha1,
        first.alpha2@ == d@.alpha2,
        first.alpha2@.len() == 5,
        start@.advanced(*old(oracle), 18 + log_m, 512),
        old(oracle).has_fields(
            proof.checks_read(log_m as nat, log_n as nat, z@, d@) as int,
        ),
        exists|ints: Seq<usize>, half: int| d@ == #[trigger] draws(
            log_m as nat,
            log_n as nat,
            proof.counts(),
            start@.upcoming(proof.counts().total(log_m as nat)),
            ints,
            half,
        ),
    ensures
        r is Some <==> proof.checks_accepted(log_m as nat, log_n as nat, z@, d@),
        r is Some ==> {
            &&& (r->0).0.r1@ == d@.bin.reverse()
            &&& (r->0).0.r4@ == d@.hash.reverse()
            &&& (r->0).0.r5@ == d@.recon.reverse()
            &&& (r->0).0.r6@ == d@.rs.reverse()
            &&& (r->0).1@ == d@.r2
            &&& start@.advanced(
                *final(oracle),
                (25 + log_m + proof.counts().bin + proof.counts().hash + proof.counts().recon
                    + proof.counts().table + proof.counts().rs) as int,
                512,
            )
        },
        final(oracle).wf(),
        old(oracle).advanced(
            *final(oracle),
            proof.checks_read(log_m as nat, log_n as nat, z@, d@) as int,
            0,
        ),
{
    let ghost c = proof.counts();
    let ghost total = c.total(log_m as nat);
    let ghost st = start@;
    proof {
        super::lemma_width(log_m as nat);
        lemma_sizes(log_m as nat, log_n as nat);
        lemma_sorted_length(first.idx@, pow2((log_n + 1) as nat) as int);
        lemma_reads(*proof, d@);
        lemma_ahead(st, *oracle, total, (18 + log_m) as nat, c.bin, 512);
    }
    let two_n: usize = domain::two_power(log_n + 1);
    let n: usize = domain::two_power(log_n);
    let m: usize = domain::two_power(log_m);
    let zero = GoldilocksExt2::new_zero();
    let one = GoldilocksExt2::new_one();
    let z1 = basefold::last_coordinates(z, log_n);
    let eqz1 = MlPoly::new_eq(&z1).0;
    proof {
        multilinear::lemma_eq_table_len(z1@);
    }
    let r1 = match check_sumcheck(zero, &proof.sc_binary, oracle) {
        Some(v) => v,
        None => {
            return None;
        },
    };
    let fe = &proof.sc_binary.final_evals;
    if fe.len() != 3 {
        return None;
    }
    if !fe[1].equals(fe[0].sub(one)) {
        return None;
    }
    if !fe[2].equals(MlPoly::eval_eq(&first.alpha1, &r1)) {
        return None;
    }
    let ghost o2 = 18 + log_m as nat + c.bin;
    proof {
        lemma_ahead(st, *oracle, total, o2, 7, 512);
    }
    let r2 = oracle.next_n_fields(LOG_COLS);
    assert(r2@ == d@.r2);
    let eq_r2 = MlPoly::new_eq(&r2).0;
    let eq_alpha2 = MlPoly::new_eq(&first.alpha2).0;
    proof {
        multilinear::lemma_eq_table_len(r2@);
        multilinear::lemma_eq_table_valid(r2@);
        multilinear::lemma_eq_table_len(first.alpha2@);
        assert forall|k: int| 0 <= k < first.idx@.len() implies first.sorted@.contains(
            #[trigger] first.idx@[k],
        ) by {
            assert(first.idx@.contains(first.idx@[k]));
        }
    }
    let y2 = combine_digests(&proof.h_cols, &first.sorted, &first.idx, &eq_r2, &eq_alpha2);
    assert(y2 == proof.hash_claim(d@));
    let ghost o3 = o2 + 7;
    proof {
        lemma_ahead(st, *oracle, total, o3, c.hash, 512);
    }
    let r4 = match check_sumcheck(y2, &proof.sc_hash, oracle) {
        Some(v) => v,
        None => {
            return None;
        },
    };
    if proof.sc_hash.final_evals.len() != 2 {
        return None;
    }
    let ghost o4 = o3 + c.hash;
    proof {
        lemma_ahead(st, *oracle, total, o4, c.recon, 512);
    }
    let r5 = match check_sumcheck(proof.y4, &proof.sc_recon, oracle) {
        Some(v) => v,
        None => {
            return None;
        },
    };
    let v_vec = tables::make_recon_weights(&eqz1, m);
    let fe = &proof.sc_recon.final_evals;
    if fe.len() != 2 || r5.len() != LOG_ETA + log_m {
        return None;
    }
    if !fe[0].equals(tables::mle_eval(v_vec.as_slice(), r5.as_slice())) {
        return None;
    }
    let ghost o5 = o4 + c.recon;
    proof {
        lemma_ahead(st, *oracle, total, o5, c.table, 512);
    }
    let r3 = match check_sumcheck(proof.y4, &proof.sc_table, oracle) {
        Some(v) => v,
        None => {
            return None;
        },
    };
    let sel = tables::make_selector(&first.idx, &eq_r2, two_n);
    let fe = &proof.sc_table.final_evals;
    if fe.len() != 2 || r3.len() != log_n + 1 {
        return None;
    }
    if !fe[0].equals(tables::mle_eval(sel.as_slice(), r3.as_slice())) {
        return None;
    }
    if !fe[1].equals(proof.y5) {
        return None;
    }
    let ghost o6 = o5 + c.table;
    proof {
        lemma_ahead(st, *oracle, total, o6, c.rs, 512);
    }
    let r6 = match check_sumcheck(proof.y5, &proof.sc_rslink, oracle) {
        Some(v) => v,
        None => {
            return None;
        },
    };
    let w_vec = tables::rs_weights(r3.as_slice(), n, log_n + 1);
    let fe = &proof.sc_rslink.final_evals;
    if fe.len() != 2 || r6.len() != log_n {
        return None;
    }
    if !fe[1].equals(tables::mle_eval(w_vec.as_slice(), r6.as_slice())) {
        return None;
    }
    Some((CheckedPoints { r1, r4, r5, r6 }, r2))
}

/// Runs the two reductions to one point; on success the reduced points of the bits
/// and of the combined row come back.
fn check_batches(
    proof: &LigesisProof<Goldilocks, GoldilocksExt2>,
    log_m: usize,
    log_n: Ghost<nat>,
    z2: Vec<GoldilocksExt2>,
    points: CheckedPoints,
    r2: &Vec<GoldilocksExt2>,
    d: Ghost<Draws>,
    start: Ghost<RandomOracle<GoldilocksExt2>>,
    oracle: &mut RandomOracle<GoldilocksExt2>,
) -> (r: Option<(Vec<GoldilocksExt2>, Vec<GoldilocksExt2>)>)
    requires
        proof.sc_binary.final_evals@.len() == 3,
        proof.sc_hash.final_evals@.len() == 2,
        proof.sc_recon.final_evals@.len() == 2,
        proof.sc_rslink.final_evals@.len() == 2,
        points.r1@ == d@.bin.reverse(),
        points.r4@ == d@.hash.reverse(),
        points.r5@ == d@.recon.reverse(),
        points.r6@ == d@.rs.reverse(),
        r2@ == d@.r2,
        start@.advanced(
            *old(oracle),
            (25 + log_m + proof.counts().bin + proof.counts().hash + proof.counts().recon
                + proof.counts().table + proof.counts().rs) as int,
            512,
        ),
        old(oracle).has_fields(proof.batches_read(d@) as int),
        exists|ints: Seq<usize>, half: int| d@ == #[trigger] draws(
            log_m as nat,
            log_n@,
            proof.counts(),
            start@.upcoming(proof.counts().total(log_m as nat)),
            ints,
            half,
        ),
    ensures
        r is Some <==> proof.batches_accepted(z2@, d@),
        r is Some ==> {
            &&& (r->0).0@ == d@.bi.reverse()
            &&& (r->0).1@ == d@.a.reverse()
            &&& start@.advanced(
                *final(oracle),
                (27 + log_m + proof.counts().bin + proof.counts().hash + proof.counts().recon
                    + proof.counts().table + proof.counts().rs + proof.counts().bi
                    + proof.counts().a) as int,
                512,
            )
        },
        final(oracle).wf(),
        old(oracle).advanced(*final(oracle), proof.batches_read(d@) as int, 0),
{
    let ghost c = proof.counts();
    let ghost total = c.total(log_m as nat);
    let ghost st = start@;
    let ghost o7 = 25 + log_m as nat + c.bin + c.hash + c.recon + c.table + c.rs;
    let p_bi_hash = tables::cat(r2.as_slice(), points.r4.as_slice());
    let p_bi_recon = tables::cat(r2.as_slice(), points.r5.as_slice());
    proof {
        lemma_reads(*proof, d@);
        lemma_ahead(st, *oracle, total, o7, 1, 512);
    }
    let gamma_bi = oracle.next_field();
    assert(gamma_bi == d@.gamma_bi);
    let bi_pts = vec![points.r1, p_bi_hash, p_bi_recon];
    assert(views::nested(bi_pts@) =~= points_bi(d@));
    let bi_vals = [
        proof.sc_binary.final_evals[0],
        proof.sc_hash.final_evals[1],
        proof.sc_recon.final_evals[1],
    ];
    assert(bi_vals@ =~= seq![
        proof.sc_binary.final_evals@[0],
        proof.sc_hash.final_evals@[1],
        proof.sc_recon.final_evals@[1],
    ]);
    let claim_bi = tables::horner(bi_vals.as_slice(), gamma_bi);
    assert(claim_bi == proof.claim_bi(d@));
    proof {
        lemma_ahead(st, *oracle, total, o7 + 1, c.bi, 512);
    }
    let r_bi = match check_sumcheck(claim_bi, &proof.sc_bi_batch, oracle) {
        Some(v) => v,
        None => {
            return None;
        },
    };
    if proof.sc_bi_batch.final_evals.len() != 2 {
        return None;
    }
    let e_bi = tables::combine_eq_eval(bi_pts.as_slice(), gamma_bi, &r_bi);
    if !proof.sc_bi_batch.final_evals[1].equals(e_bi) {
        return None;
    }
    let ghost o8 = o7 + 1 + c.bi;
    proof {
        lemma_ahead(st, *oracle, total, o8, 1, 512);
    }
    let gamma_a = oracle.next_field();
    assert(gamma_a == d@.gamma_a);
    let a_pts = vec![z2, points.r6];
    assert(views::nested(a_pts@) =~= points_a(z2@, d@));
    let a_vals = [proof.y, proof.sc_rslink.final_evals[0]];
    assert(a_vals@ =~= seq![proof.y, proof.sc_rslink.final_evals@[0]]);
    let claim_a = tables::horner(a_vals.as_slice(), gamma_a);
    assert(claim_a == proof.claim_a(d@));
    proof {
        lemma_ahead(st, *oracle, total, o8 + 1, c.a, 512);
    }
    let r_a = match check_sumcheck(claim_a, &proof.sc_a_batch, oracle) {
        Some(v) => v,
        None => {
            return None;
        },
    };
    if proof.sc_a_batch.final_evals.len() != 2 {
        return None;
    }
    let e_a = tables::combine_eq_eval(a_pts.as_slice(), gamma_a, &r_a);
    if !proof.sc_a_batch.final_evals[1].equals(e_a) {
        return None;
    }
    Some((r_bi, r_a))
}

/// Checks the shared opening of the three committed polynomials.
#[verifier::rlimit(40)]
fn check_shared(
    vk: &VerifyingKey,
    proof: &LigesisProof<Goldilocks, GoldilocksExt2>,
    p_a: Vec<GoldilocksExt2>,
    r_bi: Vec<GoldilocksExt2>,
    r_a: Vec<GoldilocksExt2>,
    d: Ghost<Draws>,
    start: Ghost<RandomOracle<GoldilocksExt2>>,
    oracle: &mut RandomOracle<GoldilocksExt2>,
) -> (r: bool)
    requires
        super::supported(vk.log_m as nat, vk.log_n as nat),
        proof.sc_hash.final_evals@.len() == 2,
        proof.sc_bi_batch.final_evals@.len() == 2,
        proof.sc_a_batch.final_evals@.len() == 2,
        p_a@ == point_a(d@),
        r_bi@ == d@.bi.reverse(),
        r_a@ == d@.a.reverse(),
        start@.advanced(
            *old(oracle),
            (27 + vk.log_m + proof.counts().bin + proof.counts().hash + proof.counts().recon
                + proof.counts().table + proof.counts().rs + proof.counts().bi
                + proof.counts().a) as int,
            COLUMN_DRAWS as int,
        ),
        d@ == draws(
            vk.log_m as nat,
            vk.log_n as nat,
            proof.counts(),
            start@.upcoming(proof.counts().total(vk.log_m as nat)),
            start@.upcoming_ints((COLUMN_DRAWS + proof.query_count()) as nat),
            pow2((proof.batch.log_len - 1) as nat) as int,
        ),
        ({
            let claims = proof.claims(vk.com_a@, vk.log_m as nat, vk.log_n as nat, d@);
            &&& old(oracle).has_fields(proof.batch.fields_read(2, claims) as int)
            &&& old(oracle).has_ints(proof.batch.ints_read(2, claims, d@.folds) as int)
            &&& proof.batch.code_rate <= proof.batch.log_len
            &&& proof.batch.shape_fits(2, claims) && proof.batch.reducible(claims, d@.folds)
                ==> proof.batch.complete(2, claims, d@.base)
        }),
    ensures
        ({
            let claims = proof.claims(vk.com_a@, vk.log_m as nat, vk.log_n as nat, d@);
            &&& r == proof.batch.accepted(2, claims, d@.coeffs, d@.folds, d@.base)
            &&& final(oracle).wf()
            &&& r ==> old(oracle).advanced(
                *final(oracle),
                (3 + proof.batch.rounds()) as int,
                proof.query_count() as int,
            )
            &&& old(oracle).advanced(
                *final(oracle),
                proof.batch.fields_read(2, claims) as int,
                proof.batch.ints_read(2, claims, d@.folds) as int,
            )
        }),
{
    let (log_m, log_n): (usize, usize) = (vk.log_m, vk.log_n);
    let nv_a: usize = LOG_C + LOG_ETA + log_m;
    let nv_bi: usize = LOG_ETA + log_m + LOG_COLS;
    let com_aa = BasefoldCommit(vk.com_a);
    let com_bi = BasefoldCommit(proof.com_i);
    let com_av = BasefoldCommit(proof.com_a_vec);
    let bf_refs = [
        (
            &com_aa,
            p_a,
            proof.sc_hash.final_evals[0],
            super::shared_log_interleave(nv_a, log_m, log_n),
        ),
        (
            &com_bi,
            r_bi,
            proof.sc_bi_batch.final_evals[0],
            super::shared_log_interleave(nv_bi, log_m, log_n),
        ),
    ];
    let ef_refs = [
        (
            &com_av,
            r_a,
            proof.sc_a_batch.final_evals[0],
            super::shared_log_interleave(log_n, log_m, log_n),
        ),
    ];
    proof {
        let claims = proof.claims(vk.com_a@, log_m as nat, log_n as nat, d@);
        assert(basefold::batch_claims(bf_refs@, ef_refs@) =~= claims);
        let c = proof.counts();
        let total = c.total(log_m as nat);
        let o9 = 27 + log_m as nat + c.bin + c.hash + c.recon + c.table + c.rs + c.bi + c.a;
        lemma_ahead(start@, *oracle, total, o9, 3 + c.folds, 512);
        let t2 = oracle.upcoming(3 + c.folds);
        assert(t2.take(3) =~= d@.coeffs);
        assert(t2.skip(3) =~= d@.folds);
        assert(oracle.upcoming_ints(proof.query_count()) =~= start@.upcoming_ints(
            (COLUMN_DRAWS + proof.query_count()) as nat,
        ).skip(COLUMN_DRAWS as int));
        lemma_layers(log_m as nat, log_n as nat);
    }
    Basefold::<Goldilocks, GoldilocksExt2>::batch_verify(
        &bf_refs,
        &ef_refs,
        &proof.batch,
        oracle,
    )
}

impl Ligesis<Goldilocks, GoldilocksExt2> {
    /// Verifies an opening of a commitment at `z`. A point of the wrong length is
    /// rejected before anything is read, and opened columns of the wrong shape once the
    /// columns are drawn.
    #[verifier::rlimit(100)]
    #[verifier::spinoff_prover]
    pub fn verify(
        vk: &VerifyingKey,
        commit: &LigesisCommit,
        z: Vec<GoldilocksExt2>,
        proof: &LigesisProof<Goldilocks, GoldilocksExt2>,
        oracle: &mut RandomOracle<GoldilocksExt2>,
    ) -> (r: bool)
        requires
            super::supported(vk.log_m as nat, vk.log_n as nat),
            old(oracle).wf(),
            z@.len() == vk.log_m + vk.log_n ==> {
                &&& old(oracle).has_ints(COLUMN_DRAWS as int)
                &&& super::enough_columns(
                    old(oracle).upcoming_ints(COLUMN_DRAWS as nat),
                    pow2((vk.log_n + 1) as nat) as int,
                )
            },
            ({
                let (log_m, log_n) = (vk.log_m as nat, vk.log_n as nat);
                let (com_a, root) = (vk.com_a@, commit.0@);
                let d = draws(
                    log_m,
                    log_n,
                    proof.counts(),
                    old(oracle).upcoming(proof.counts().total(log_m)),
                    old(oracle).upcoming_ints((COLUMN_DRAWS + proof.query_count()) as nat),
                    pow2((proof.batch.log_len - 1) as nat) as int,
                );
                &&& old(oracle).has_fields(
                    proof.fields_read(com_a, root, log_m, log_n, z@, d) as int,
                )
                &&& z@.len() == log_m + log_n ==> {
                    &&& old(oracle).has_ints(
                        proof.ints_read(com_a, root, log_m, log_n, z@, d) as int,
                    )
                    &&& proof.complete(com_a, root, log_m, log_n, z@, d)
                }
            }),
        ensures
            r == proof.accepted(
                vk.com_a@,
                commit.0@,
                vk.log_m as nat,
                vk.log_n as nat,
                z@,
                draws(
                    vk.log_m as nat,
                    vk.log_n as nat,
                    proof.counts(),
                    old(oracle).upcoming(proof.counts().total(vk.log_m as nat)),
                    old(oracle).upcoming_ints((COLUMN_DRAWS + proof.query_count()) as nat),
                    pow2((proof.batch.log_len - 1) as nat) as int,
                ),
            ),
            final(oracle).wf(),
            r ==> old(oracle).advanced(
                *final(oracle),
                proof.counts().total(vk.log_m as nat) as int,
                COLUMN_DRAWS + proof.query_count(),
            ),
            ({
                let (log_m, log_n) = (vk.log_m as nat, vk.log_n as nat);
                let (com_a, root) = (vk.com_a@, commit.0@);
                let d = draws(
                    log_m,
                    log_n,
                    proof.counts(),
                    old(oracle).upcoming(proof.counts().total(log_m)),
                    old(oracle).upcoming_ints((COLUMN_DRAWS + proof.query_count()) as nat),
                    pow2((proof.batch.log_len - 1) as nat) as int,
                );
                old(oracle).advanced(
                    *final(oracle),
                    proof.fields_read(com_a, root, log_m, log_n, z@, d) as int,
                    proof.ints_read(com_a, root, log_m, log_n, z@, d) as int,
                )
            }),
    {
        let log_m: usize = vk.log_m;
        let log_n: usize = vk.log_n;
        let ghost start = *oracle;
        let ghost c = proof.counts();
        let ghost total = c.total(log_m as nat);
        let ghost tape = start.upcoming(total);
        let ghost ints = start.upcoming_ints((COLUMN_DRAWS + proof.query_count()) as nat);
        let ghost d = draws(
            log_m as nat,
            log_n as nat,
            c,
            tape,
            ints,
            pow2((proof.batch.log_len - 1) as nat) as int,
        );
        if z.len() < log_n || z.len() - log_n != log_m {
            return false;
        }
        proof {
            lemma_sizes(log_m as nat, log_n as nat);
            assert(start.upcoming_ints(COLUMN_DRAWS as nat) =~= ints.take(COLUMN_DRAWS as int));
        }
        let two_n: usize = domain::two_power(log_n + 1);
        let idx = super::sample_columns(oracle, two_n);
        let sorted = leaves::sort_distinct(&idx);
        proof {
            lemma_sorted_length(idx@, two_n as int);
        }
        if !check_columns(proof, &commit.0, &sorted, two_n) {
            assert(!proof.columns_accepted(commit.0@, log_n as nat, d));
            return false;
        }
        assert(proof.columns_accepted(commit.0@, log_n as nat, d));
        proof {
            lemma_ahead(start, *oracle, total, 0, (13 + log_m) as nat, 512);
        }
        let alpha1 = oracle.next_n_fields(LOG_ETA + log_m + LOG_COLS);
        proof {
            lemma_ahead(start, *oracle, total, (13 + log_m) as nat, 5, 512);
        }
        let alpha2 = oracle.next_n_fields(LOG_C);
        let first = FirstDraws { idx, sorted, alpha1, alpha2 };
        let public = check_public(
            proof,
            log_m,
            log_n,
            &z,
            &first,
            Ghost(d),
            Ghost(start),
            oracle,
        );
        let (points, r2) = match public {
            Some(v) => v,
            None => {
                return false;
            },
        };
        let p_a = tables::cat(points.r4.as_slice(), first.alpha2.as_slice());
        let z2 = basefold::first_coordinates(&z, log_n);
        let reduced = check_batches(
            proof,
            log_m,
            Ghost(log_n as nat),
            z2,
            points,
            &r2,
            Ghost(d),
            Ghost(start),
            oracle,
        );
        let (r_bi, r_a) = match reduced {
            Some(v) => v,
            None => {
                return false;
            },
        };
        check_shared(vk, proof, p_a, r_bi, r_a, Ghost(d), Ghost(start), oracle)
    }
}

/// Two sumchecks differ in the message of round `i` only.
pub open spec fn differ_at(
    a: SumcheckProof<GoldilocksExt2>,
    b: SumcheckProof<GoldilocksExt2>,
    i: int,
) -> bool {
    &&& a.rounds().len() == b.rounds().len()
    &&& 0 <= i < a.rounds().len()
    &&& a.final_evals@ == b.final_evals@
    &&& forall|k: int|
        0 <= k < a.rounds().len() && k != i ==> #[trigger] a.rounds()[k] == b.rounds()[k]
}

/// The messages of round `i` have one sum, and their polynomials agree at the draw.
pub open spec fn agree_at(
    a: SumcheckProof<GoldilocksExt2>,
    b: SumcheckProof<GoldilocksExt2>,
    ch: Seq<GoldilocksExt2>,
    i: int,
) -> bool {
    let (m, n) = (a.rounds()[i], b.rounds()[i]);
    &&& m[0] + m[1] == n[0] + n[1]
    &&& crate::polynomial::interpolation(m, ch[i]) == crate::polynomial::interpolation(n, ch[i])
}

proof fn lemma_differ(
    claim: GoldilocksExt2,
    a: SumcheckProof<GoldilocksExt2>,
    b: SumcheckProof<GoldilocksExt2>,
    ch: Seq<GoldilocksExt2>,
    i: int,
)
    requires
        sumcheck_accepted(claim, a, ch),
        sumcheck_accepted(claim, b, ch),
        a.round_polys@.len() <= ch.len(),
    ensures
        differ_at(a, b, i) ==> agree_at(a, b, ch, i),
{
    assert(a.rounds().len() == a.round_polys@.len());
    if differ_at(a, b, i) {
        sumcheck::law_message_bound(claim, a.rounds(), b.rounds(), a.final_evals@, ch, i);
    }
}

/// Rejection of another round message: of two proofs that differ in one message of one of
/// the seven sumchecks, both are accepted only if the messages have one sum and the draw
/// of that round makes their polynomials agree.
pub proof fn law_message_bound(
    p: LigesisProof<Goldilocks, GoldilocksExt2>,
    q: LigesisProof<Goldilocks, GoldilocksExt2>,
    com_a: Seq<u8>,
    root: Seq<u8>,
    log_m: nat,
    log_n: nat,
    z: Seq<GoldilocksExt2>,
    tape: Seq<GoldilocksExt2>,
    ints: Seq<usize>,
    half: int,
    i: int,
)
    requires
        tape.len() == p.counts().total(log_m),
        q.counts() == p.counts(),
        q.h_cols@ == p.h_cols@,
        q.y == p.y,
        q.y4 == p.y4,
        q.y5 == p.y5,
        q.sc_binary.final_evals@ == p.sc_binary.final_evals@,
        q.sc_hash.final_evals@ == p.sc_hash.final_evals@,
        q.sc_recon.final_evals@ == p.sc_recon.final_evals@,
        q.sc_rslink.final_evals@ == p.sc_rslink.final_evals@,
        p.accepted(com_a, root, log_m, log_n, z, draws(log_m, log_n, p.counts(), tape, ints, half)),
        q.accepted(com_a, root, log_m, log_n, z, draws(log_m, log_n, p.counts(), tape, ints, half)),
    ensures
        ({
            let d = draws(log_m, log_n, p.counts(), tape, ints, half);
            &&& differ_at(p.sc_binary, q.sc_binary, i) ==> agree_at(
                p.sc_binary,
                q.sc_binary,
                d.bin,
                i,
            )
            &&& differ_at(p.sc_hash, q.sc_hash, i) ==> agree_at(p.sc_hash, q.sc_hash, d.hash, i)
            &&& differ_at(p.sc_recon, q.sc_recon, i) ==> agree_at(
                p.sc_recon,
                q.sc_recon,
                d.recon,
                i,
            )
            &&& differ_at(p.sc_table, q.sc_table, i) ==> agree_at(
                p.sc_table,
                q.sc_table,
                d.table,
                i,
            )
            &&& differ_at(p.sc_rslink, q.sc_rslink, i) ==> agree_at(
                p.sc_rslink,
                q.sc_rslink,
                d.rs,
                i,
            )
            &&& differ_at(p.sc_bi_batch, q.sc_bi_batch, i) ==> agree_at(
                p.sc_bi_batch,
                q.sc_bi_batch,
                d.bi,
                i,
            )
            &&& differ_at(p.sc_a_batch, q.sc_a_batch, i) ==> agree_at(
                p.sc_a_batch,
                q.sc_a_batch,
                d.a,
                i,
            )
        }),
{
    let d = draws(log_m, log_n, p.counts(), tape, ints, half);
    let zero = GoldilocksExt2::zero();
    lemma_differ(zero, p.sc_binary, q.sc_binary, d.bin, i);
    lemma_differ(p.hash_claim(d), p.sc_hash, q.sc_hash, d.hash, i);
    lemma_differ(p.y4, p.sc_recon, q.sc_recon, d.recon, i);
    lemma_differ(p.y4, p.sc_table, q.sc_table, d.table, i);
    lemma_differ(p.y5, p.sc_rslink, q.sc_rslink, d.rs, i);
    lemma_differ(p.claim_bi(d), p.sc_bi_batch, q.sc_bi_batch, d.bi, i);
    lemma_differ(p.claim_a(d), p.sc_a_batch, q.sc_a_batch, d.a, i);
}

/// Rejection of another claimed value, whatever the draws: two proofs that agree in the
/// reduction of the combined row are both accepted only if they claim one value.
pub proof fn law_claim_bound(
    p: LigesisProof<Goldilocks, GoldilocksExt2>,
    q: LigesisProof<Goldilocks, GoldilocksExt2>,
    com_a: Seq<u8>,
    root: Seq<u8>,
    log_m: nat,
    log_n: nat,
    z: Seq<GoldilocksExt2>,
    d: Draws,
)
    requires
        p.y.valid(),
        q.y.valid(),
        q.sc_a_batch.rounds() == p.sc_a_batch.rounds(),
        q.sc_a_batch.final_evals@ == p.sc_a_batch.final_evals@,
        q.sc_rslink.final_evals@ == p.sc_rslink.final_evals@,
        p.accepted(com_a, root, log_m, log_n, z, d),
        q.accepted(com_a, root, log_m, log_n, z, d),
    ensures
        p.y == q.y,
{
    sumcheck::law_claim_unique(
        p.claim_a(d),
        q.claim_a(d),
        p.sc_a_batch.rounds(),
        p.sc_a_batch.final_evals@,
        d.a,
    );
    let v = p.sc_rslink.final_evals@[0];
    let (s, t) = (seq![p.y, v], seq![q.y, v]);
    assert(s.drop_first() =~= seq![v]);
    assert(t.drop_first() =~= seq![v]);
    let h = tables::horner_value(seq![v], d.gamma_a) * d.gamma_a;
    GoldilocksExt2::law_add_comm(h, p.y);
    GoldilocksExt2::law_add_comm(h, q.y);
    algebra::add_cancel(p.y, q.y, h);
}

/// Rejection of another opened column: two accepted proofs show columns that both open to
/// the committed root, and if they agree in the hash sumcheck, the draws make their
/// combined columns one value.
pub proof fn law_column_bound(
    p: LigesisProof<Goldilocks, GoldilocksExt2>,
    q: LigesisProof<Goldilocks, GoldilocksExt2>,
    com_a: Seq<u8>,
    root: Seq<u8>,
    log_m: nat,
    log_n: nat,
    z: Seq<GoldilocksExt2>,
    d: Draws,
)
    requires
        p.accepted(com_a, root, log_m, log_n, z, d),
        q.accepted(com_a, root, log_m, log_n, z, d),
    ensures
        merkle::opened_root(
            p.h_open@,
            leaves::sorted_distinct(d.idx),
            merkle::leaf_digests(super::columns_bytes(views::nested(p.h_cols@))),
            pow2(log_n + 1) as usize,
        ) == Some(root),
        merkle::opened_root(
            q.h_open@,
            leaves::sorted_distinct(d.idx),
            merkle::leaf_digests(super::columns_bytes(views::nested(q.h_cols@))),
            pow2(log_n + 1) as usize,
        ) == Some(root),
        p.sc_hash.rounds() == q.sc_hash.rounds() && p.sc_hash.final_evals@
            == q.sc_hash.final_evals@ ==> p.hash_claim(d) == q.hash_claim(d),
{
    if p.sc_hash.rounds() == q.sc_hash.rounds() && p.sc_hash.final_evals@
        == q.sc_hash.final_evals@ {
        sumcheck::law_claim_unique(
            p.hash_claim(d),
            q.hash_claim(d),
            p.sc_hash.rounds(),
            p.sc_hash.final_evals@,
            d.hash,
        );
    }
}

} // verus!
