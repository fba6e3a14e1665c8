//! LigeSIS: a multilinear commitment by a Reed-Solomon encoded matrix whose
//! bit-decomposed columns are hashed with a subset-sum hash.
//!
//! A commitment lays out the values of `f` as an `m x n` matrix, encodes its rows
//! at rate one half, splits the encoding into bits, hashes the bit columns and
//! commits to the digests with a Merkle tree. An opening at `z = (z2, z1)` sends
//! the combination of the rows with the weights of `z1`, opens some columns and
//! shows that they are bits, that their hash is the committed one and that they
//! rebuild the encoding of the combined row. Matrices are flat with the column
//! varying fastest, so a point lists the column coordinates first.
pub mod completeness;
pub mod identities;
pub mod opening;
pub mod soundness;
pub mod tables;

use core::marker::PhantomData;
use vstd::prelude::*;
use vstd::arithmetic::power2::pow2;
use crate::field::{Field, Goldilocks, GoldilocksExt2};
use crate::multilinear;
use crate::pcs::basefold;
use crate::pcs::basefold::{BasefoldCommit, BasefoldProverState, Basefold, LOG_INTERLEAVE};
use crate::pcs::domain;
use crate::pcs::domain::LeafField;
use crate::pcs::leaves;
use crate::pcs::subset_sum;
use crate::pcs::subset_sum::{SubsetSumHash, C};
use crate::utils::merkle;
use crate::utils::merkle::{Digest, MerkleTreeProver, Serialize};
use crate::utils::oracle::RandomOracle;
use crate::utils::poly;
use crate::utils::poly::MlPoly;
use crate::views;
use self::tables::ETA;

pub use self::opening::LigesisProof;

verus! {

/// Logarithm of the inverse rate of the inner commitments.
pub const CODE_RATE: usize = 1;

/// Number of opened columns.
pub const NUM_COLS_OPENED: usize = 128;

/// Logarithm of the number of opened columns.
pub const LOG_COLS: usize = 7;

/// Logarithm of the digest height.
pub const LOG_C: usize = 5;

/// Logarithm of the bits per element.
pub const LOG_ETA: usize = 6;

/// Number of integers read to draw the columns.
pub const COLUMN_DRAWS: usize = 512;

/// The scheme over a base field and its extension.
pub struct Ligesis<BF, EF>(PhantomData<(BF, EF)>);

/// The prover's key: the hash, and the commitment to its matrix.
pub struct ProvingKey<BF: Field, EF: Field> {
    pub hash: SubsetSumHash<BF>,
    pub a_state: BasefoldProverState<BF, EF>,
    pub com_a: Digest,
    pub log_m: usize,
    pub log_n: usize,
}

/// The verifier's key: the commitment to the hash matrix, and the shape.
#[derive(Clone)]
pub struct VerifyingKey {
    pub com_a: Digest,
    pub log_m: usize,
    pub log_n: usize,
    pub width: usize,
}

/// A commitment: the root over the digest columns.
pub struct LigesisCommit(pub Digest);

/// What the committer keeps.
pub struct CommitData<BF: Field, EF: Field> {
    f: Vec<BF>,
    b_cols: Vec<Vec<bool>>,
    h_matrix: Vec<Vec<BF>>,
    h_merkle: MerkleTreeProver,
    marker: PhantomData<EF>,
}

/// Number of variables of the largest committed polynomial.
pub open spec fn most_vars(log_m: nat, log_n: nat) -> nat {
    if log_n <= 13 + log_m {
        13 + log_m
    } else {
        log_n
    }
}

/// Number of variables of the smallest committed polynomial.
pub open spec fn least_vars(log_m: nat, log_n: nat) -> nat {
    if log_n <= 11 + log_m {
        log_n
    } else {
        11 + log_m
    }
}

/// Number of folding rounds of the shared opening.
pub open spec fn fold_count(log_m: nat, log_n: nat) -> nat {
    (most_vars(log_m, log_n) - LOG_INTERLEAVE) as nat
}

/// The interleaving that puts a polynomial on the shared domain.
pub open spec fn layers(vars: nat, log_m: nat, log_n: nat) -> nat {
    (vars - fold_count(log_m, log_n)) as nat
}

/// Keys can be made for the shape: the committed polynomials share one domain, which
/// exists, and the hash matrix fits.
pub open spec fn keyed(log_m: nat, log_n: nat) -> bool {
    &&& most_vars(log_m, log_n) - least_vars(log_m, log_n) <= LOG_INTERLEAVE
    &&& fold_count(log_m, log_n) + 1 <= 32
    &&& pow2(fold_count(log_m, log_n) + 1) <= usize::MAX
    &&& pow2(11 + log_m) <= usize::MAX
    &&& log_m + 13 <= usize::MAX
}

/// The shape can be used: keys can be made for it, its rows can be encoded, and all
/// tables fit.
pub open spec fn supported(log_m: nat, log_n: nat) -> bool {
    &&& keyed(log_m, log_n)
    &&& log_n + 1 <= 32
    &&& pow2(13 + log_m) <= usize::MAX
    &&& pow2(log_n + 1) <= usize::MAX
    &&& pow2(log_m + log_n) <= usize::MAX
}

/// The variable counts of the hash matrix, the opened bits and the combined row.
pub fn committed_vars(log_m: usize, log_n: usize) -> (r: [usize; 3])
    requires
        log_m + 13 <= usize::MAX,
    ensures
        r@ == seq![(11 + log_m) as usize, (13 + log_m) as usize, log_n],
{
    let na: usize = LOG_C + LOG_ETA + log_m;
    let nbi: usize = LOG_ETA + log_m + LOG_COLS;
    let r = [na, nbi, log_n];
    assert(r@ =~= seq![(11 + log_m) as usize, (13 + log_m) as usize, log_n]);
    r
}

/// The largest committed variable count.
pub fn max_committed_vars(log_m: usize, log_n: usize) -> (r: usize)
    requires
        log_m + 13 <= usize::MAX,
    ensures
        r == most_vars(log_m as nat, log_n as nat),
{
    let v = committed_vars(log_m, log_n);
    let hi: usize = if v[0] <= v[1] {
        v[1]
    } else {
        v[0]
    };
    if hi <= v[2] {
        v[2]
    } else {
        hi
    }
}

/// The smallest committed variable count.
pub fn min_committed_vars(log_m: usize, log_n: usize) -> (r: usize)
    requires
        log_m + 13 <= usize::MAX,
    ensures
        r == least_vars(log_m as nat, log_n as nat),
{
    let v = committed_vars(log_m, log_n);
    let lo: usize = if v[0] <= v[1] {
        v[0]
    } else {
        v[1]
    };
    if lo <= v[2] {
        lo
    } else {
        v[2]
    }
}

/// The folding rounds of the shared opening.
pub fn batch_rounds(log_m: usize, log_n: usize) -> (r: usize)
    requires
        log_m + 13 <= usize::MAX,
    ensures
        r == fold_count(log_m as nat, log_n as nat),
{
    max_committed_vars(log_m, log_n) - LOG_INTERLEAVE
}

/// The interleaving that puts a polynomial on the shared domain.
pub fn shared_log_interleave(num_vars: usize, log_m: usize, log_n: usize) -> (r: usize)
    requires
        log_m + 13 <= usize::MAX,
        num_vars >= fold_count(log_m as nat, log_n as nat),
    ensures
        r == layers(num_vars as nat, log_m as nat, log_n as nat),
{
    num_vars - batch_rounds(log_m, log_n)
}

/// Length of a bit column.
pub open spec fn bit_width(log_m: nat) -> nat {
    ETA as nat * pow2(log_m)
}

/// Column `j` of the encoded matrix, in bits.
pub open spec fn bit_column(f: Seq<Goldilocks>, log_m: nat, log_n: nat, j: int) -> Seq<bool> {
    Seq::new(
        bit_width(log_m),
        |t: int|
            tables::bit_of(
                encoded_row(f, log_n, t / ETA as int)[j]@,
                (t % ETA as int) as nat,
            ),
    )
}

/// Row `i` of the matrix, encoded.
pub open spec fn encoded_row(f: Seq<Goldilocks>, log_n: nat, i: int) -> Seq<Goldilocks> {
    domain::codeword(tables::row_of(f, pow2(log_n), i), log_n + 1)
}

/// All columns of the encoded matrix, in bits.
pub open spec fn bit_columns(f: Seq<Goldilocks>, log_m: nat, log_n: nat) -> Seq<Seq<bool>> {
    Seq::new(pow2(log_n + 1), |j: int| bit_column(f, log_m, log_n, j))
}

/// The digests of the columns.
pub open spec fn digest_columns(rows: Seq<Seq<Goldilocks>>, bits: Seq<Seq<bool>>) -> Seq<
    Seq<Goldilocks>,
> {
    Seq::new(bits.len(), |j: int| subset_sum::digest(rows, bits[j]))
}

/// The bytes of each column.
pub open spec fn columns_bytes(cols: Seq<Seq<Goldilocks>>) -> Seq<Seq<u8>> {
    Seq::new(cols.len(), |j: int| merkle::fields_bytes(cols[j]))
}

impl ProvingKey<Goldilocks, GoldilocksExt2> {
    /// The hash has the width of a bit column, and the commitment is to its matrix.
    pub open spec fn wf(self) -> bool {
        &&& keyed(self.log_m as nat, self.log_n as nat)
        &&& self.hash.wf()
        &&& self.hash.width == bit_width(self.log_m as nat)
        &&& basefold::committed(
            self.a_state,
            BasefoldCommit(self.com_a),
            subset_sum::flat_rows(self.hash.rows(), self.hash.width as nat),
            CODE_RATE as nat,
            layers((11 + self.log_m) as nat, self.log_m as nat, self.log_n as nat),
        )
    }
}

impl VerifyingKey {
    /// The key belongs to the prover's key.
    pub open spec fn matches(self, pk: ProvingKey<Goldilocks, GoldilocksExt2>) -> bool {
        &&& self.com_a == pk.com_a
        &&& self.log_m == pk.log_m
        &&& self.log_n == pk.log_n
        &&& self.width == bit_width(pk.log_m as nat)
    }
}

impl CommitData<Goldilocks, GoldilocksExt2> {
    /// The committed values.
    pub closed spec fn values(self) -> Seq<Goldilocks> {
        self.f@
    }

    /// The bit columns.
    pub closed spec fn bits(self) -> Seq<Seq<bool>> {
        views::nested(self.b_cols@)
    }

    /// The digest matrix by rows.
    pub closed spec fn digest_rows(self) -> Seq<Seq<Goldilocks>> {
        views::nested(self.h_matrix@)
    }

    /// The leaf digests of the tree.
    pub closed spec fn tree(self) -> Seq<Seq<u8>> {
        self.h_merkle.leaves()
    }

    pub closed spec fn tree_wf(self) -> bool {
        self.h_merkle.wf()
    }

    /// The committed root.
    pub open spec fn root(self) -> Seq<u8> {
        merkle::merkle_root(self.tree())
    }

    /// The data belong to the committed values under the key.
    pub open spec fn wf(self, pk: ProvingKey<Goldilocks, GoldilocksExt2>) -> bool {
        let (log_m, log_n) = (pk.log_m as nat, pk.log_n as nat);
        let rows = pk.hash.rows();
        &&& self.values().len() == pow2(log_m + log_n)
        &&& self.bits() == bit_columns(self.values(), log_m, log_n)
        &&& self.digest_rows().len() == C
        &&& forall|r: int|
            0 <= r < C ==> (#[trigger] self.digest_rows()[r]).len() == pow2(log_n + 1)
        &&& forall|r: int, j: int|
            0 <= r < C && 0 <= j < pow2(log_n + 1) ==> #[trigger] self.digest_rows()[r][j]
                == subset_sum::digest(rows, self.bits()[j])[r]
        &&& self.tree_wf()
        &&& self.tree() == merkle::leaf_digests(
            columns_bytes(digest_columns(rows, self.bits())),
        )
    }
}

/// The residues of the draws, in order of their first occurrence.
pub open spec fn residues(raw: Seq<usize>, two_n: int) -> Seq<usize>
    decreases raw.len(),
{
    if raw.len() == 0 {
        Seq::empty()
    } else {
        let p = residues(raw.drop_last(), two_n);
        let j = (raw.last() as int % two_n) as usize;
        if p.contains(j) {
            p
        } else {
            p.push(j)
        }
    }
}

pub proof fn lemma_residues(raw: Seq<usize>, two_n: int)
    requires
        0 < two_n <= usize::MAX,
    ensures
        tables::distinct(residues(raw, two_n)),
        forall|i: int|
            0 <= i < residues(raw, two_n).len() ==> #[trigger] residues(raw, two_n)[i] < two_n,
    decreases raw.len(),
{
    if raw.len() > 0 {
        lemma_residues(raw.drop_last(), two_n);
        let p = residues(raw.drop_last(), two_n);
        let j = (raw.last() as int % two_n) as usize;
        vstd::arithmetic::div_mod::lemma_mod_bound(raw.last() as int, two_n);
        assert forall|a: int, b: int|
            0 <= a < b < residues(raw, two_n).len() implies residues(raw, two_n)[a]
            != residues(raw, two_n)[b] by {
            if b == p.len() {
                assert(p[a] != j);
            }
        }
    }
}

proof fn lemma_residues_grow(raw: Seq<usize>, two_n: int, i: int)
    requires
        0 <= i <= raw.len(),
    ensures
        residues(raw.take(i), two_n).len() <= residues(raw, two_n).len(),
        residues(raw, two_n).take(residues(raw.take(i), two_n).len() as int) == residues(
            raw.take(i),
            two_n,
        ),
    decreases raw.len() - i,
{
    if i == raw.len() {
        assert(raw.take(i) =~= raw);
        assert(residues(raw, two_n).take(residues(raw, two_n).len() as int) =~= residues(
            raw,
            two_n,
        ));
    } else {
        lemma_residues_grow(raw, two_n, i + 1);
        let (p, q, r) = (
            residues(raw.take(i), two_n),
            residues(raw.take(i + 1), two_n),
            residues(raw, two_n),
        );
        assert(raw.take(i + 1).drop_last() =~= raw.take(i));
        assert(q.take(p.len() as int) =~= p);
        assert(r.take(p.len() as int) =~= r.take(q.len() as int).take(p.len() as int));
    }
}

/// The opened columns for the given draws.
pub open spec fn drawn_columns(raw: Seq<usize>, two_n: int) -> Seq<usize> {
    residues(raw, two_n).take(NUM_COLS_OPENED as int)
}

/// The draws hold enough distinct columns.
pub open spec fn enough_columns(raw: Seq<usize>, two_n: int) -> bool {
    residues(raw, two_n).len() >= NUM_COLS_OPENED
}

/// Row `i` of the matrix.
fn read_row(f: &Vec<Goldilocks>, n: usize, i: usize, m: usize) -> (r: Vec<Goldilocks>)
    requires
        f@.len() == m * n,
        i < m,
    ensures
        r@ == tables::row_of(f@, n as nat, i as int),
{
    let mut r: Vec<Goldilocks> = Vec::new();
    let mut j: usize = 0;
    assert(f.len() == f@.len());
    while j < n
        invariant
            j <= n,
            i < m,
            f@.len() == m * n,
            f@.len() <= usize::MAX,
            r@.len() == j,
            forall|k: int| 0 <= k < j ==> #[trigger] r@[k] == f@[i * n + k],
        decreases n - j,
    {
        assert(i * n + j < m * n && 0 <= i * n) by (nonlinear_arith)
            requires
                i < m,
                j < n,
        ;
        r.push(f[i * n + j]);
        j += 1;
    }
    assert(r@ =~= tables::row_of(f@, n as nat, i as int));
    r
}

/// The encoded rows of the matrix.
fn encode_rows(f: &Vec<Goldilocks>, log_m: usize, log_n: usize) -> (r: Vec<Vec<Goldilocks>>)
    requires
        supported(log_m as nat, log_n as nat),
        f@.len() == pow2((log_m + log_n) as nat),
    ensures
        r@.len() == pow2(log_m as nat),
        forall|i: int|
            0 <= i < r@.len() ==> (#[trigger] r@[i])@ == encoded_row(f@, log_n as nat, i),
{
    proof {
        multilinear::lemma_pow2_mono(log_m as nat, (log_m + 13) as nat);
        multilinear::lemma_pow2_mono(log_n as nat, (log_n + 1) as nat);
        vstd::arithmetic::power2::lemma_pow2_adds(log_m as nat, log_n as nat);
    }
    let m: usize = domain::two_power(log_m);
    let n: usize = domain::two_power(log_n);
    let mut r: Vec<Vec<Goldilocks>> = Vec::new();
    let mut i: usize = 0;
    while i < m
        invariant
            i <= m,
            m == pow2(log_m as nat),
            n == pow2(log_n as nat),
            f@.len() == m * n,
            log_n + 1 <= 32,
            n <= pow2((log_n + 1) as nat) <= usize::MAX,
            r@.len() == i,
            forall|k: int|
                0 <= k < i ==> (#[trigger] r@[k])@ == encoded_row(f@, log_n as nat, k),
        decreases m - i,
    {
        let row = read_row(f, n, i, m);
        r.push(domain::rs_encode(&row, log_n + 1));
        i += 1;
    }
    r
}

/// The bit columns of the encoded rows.
fn decompose(
    enc: &Vec<Vec<Goldilocks>>,
    f: Ghost<Seq<Goldilocks>>,
    log_m: usize,
    log_n: usize,
) -> (r: Vec<Vec<bool>>)
    requires
        supported(log_m as nat, log_n as nat),
        enc@.len() == pow2(log_m as nat),
        forall|i: int|
            0 <= i < enc@.len() ==> (#[trigger] enc@[i])@ == encoded_row(f@, log_n as nat, i),
    ensures
        views::nested(r@) == bit_columns(f@, log_m as nat, log_n as nat),
{
    let two_n: usize = domain::two_power(log_n + 1);
    proof {
        lemma_width(log_m as nat);
    }
    let width: usize = ETA * enc.len();
    let ghost want = bit_columns(f@, log_m as nat, log_n as nat);
    let mut cols: Vec<Vec<bool>> = Vec::new();
    let mut j: usize = 0;
    while j < two_n
        invariant
            j <= two_n,
            two_n == pow2((log_n + 1) as nat),
            width == ETA * enc@.len(),
            enc@.len() == pow2(log_m as nat),
            forall|i: int|
                0 <= i < enc@.len() ==> (#[trigger] enc@[i])@ == encoded_row(
                    f@,
                    log_n as nat,
                    i,
                ),
            want == bit_columns(f@, log_m as nat, log_n as nat),
            cols@.len() == j,
            forall|k: int| 0 <= k < j ==> (#[trigger] cols@[k])@ == want[k],
        decreases two_n - j,
    {
        let mut col: Vec<bool> = Vec::new();
        let mut t: usize = 0;
        while t < width
            invariant
                t <= width,
                j < two_n,
                two_n == pow2((log_n + 1) as nat),
                width == ETA * enc@.len(),
                enc@.len() == pow2(log_m as nat),
                forall|i: int|
                    0 <= i < enc@.len() ==> (#[trigger] enc@[i])@ == encoded_row(
                        f@,
                        log_n as nat,
                        i,
                    ),
                want == bit_columns(f@, log_m as nat, log_n as nat),
                col@.len() == t,
                forall|k: int| 0 <= k < t ==> #[trigger] col@[k] == want[j as int][k],
            decreases width - t,
        {
            let i: usize = t / ETA;
            assert(enc@[i as int]@ == encoded_row(f@, log_n as nat, i as int));
            let val: u64 = enc[i][j].as_canonical_u64();
            col.push(tables::word_bit(val, t % ETA));
            t += 1;
        }
        assert(col@ =~= want[j as int]);
        cols.push(col);
        j += 1;
    }
    assert(views::nested(cols@) =~= want);
    cols
}

pub proof fn lemma_width(log_m: nat)
    ensures
        bit_width(log_m) == pow2(6 + log_m),
        bit_width(log_m) * 128 == pow2(13 + log_m),
        bit_width(log_m) * 32 == pow2(11 + log_m),
        bit_width(log_m) <= pow2(13 + log_m),
        pow2(log_m) <= bit_width(log_m),
{
    vstd::arithmetic::power2::lemma2_to64();
    vstd::arithmetic::power2::lemma_pow2_adds(6, log_m);
    vstd::arithmetic::power2::lemma_pow2_adds(7, 6 + log_m);
    vstd::arithmetic::power2::lemma_pow2_adds(5, 6 + log_m);
    assert(7 + (6 + log_m) == 13 + log_m);
    assert(5 + (6 + log_m) == 11 + log_m);
}

/// Column `j` of a matrix given by rows.
fn matrix_column(h: &Vec<Vec<Goldilocks>>, j: usize) -> (r: Vec<Goldilocks>)
    requires
        forall|k: int| 0 <= k < h@.len() ==> j < (#[trigger] h@[k])@.len(),
    ensures
        r@ == Seq::new(h@.len(), |k: int| h@[k]@[j as int]),
{
    let mut r: Vec<Goldilocks> = Vec::new();
    let mut k: usize = 0;
    while k < h.len()
        invariant
            k <= h.len(),
            forall|k: int| 0 <= k < h@.len() ==> j < (#[trigger] h@[k])@.len(),
            r@.len() == k,
            forall|i: int| 0 <= i < k ==> #[trigger] r@[i] == h@[i]@[j as int],
        decreases h.len() - k,
    {
        assert(j < h@[k as int]@.len());
        r.push(h[k][j]);
        k += 1;
    }
    assert(r@ =~= Seq::new(h@.len(), |k: int| h@[k]@[j as int]));
    r
}

/// Draws the opened columns: the first distinct residues of the next integers.
pub fn sample_columns(oracle: &mut RandomOracle<GoldilocksExt2>, two_n: usize) -> (r: Vec<
    usize,
>)
    requires
        two_n > 0,
        old(oracle).has_ints(COLUMN_DRAWS as int),
        enough_columns(old(oracle).upcoming_ints(COLUMN_DRAWS as nat), two_n as int),
    ensures
        r@ == drawn_columns(old(oracle).upcoming_ints(COLUMN_DRAWS as nat), two_n as int),
        r@.len() == NUM_COLS_OPENED,
        tables::distinct(r@),
        forall|k: int| 0 <= k < r@.len() ==> #[trigger] r@[k] < two_n,
        final(oracle).wf(),
        old(oracle).advanced(*final(oracle), 0, COLUMN_DRAWS as int),
{
    let raw = oracle.next_n_ints(COLUMN_DRAWS);
    let ghost all = residues(raw@, two_n as int);
    let mut seen: Vec<bool> = Vec::new();
    let mut k: usize = 0;
    while k < two_n
        invariant
            k <= two_n,
            seen@.len() == k,
            forall|i: int| 0 <= i < k ==> !(#[trigger] seen@[i]),
        decreases two_n - k,
    {
        seen.push(false);
        k += 1;
    }
    let mut idx: Vec<usize> = Vec::new();
    let mut i: usize = 0;
    assert(raw@.take(0) =~= Seq::<usize>::empty());
    while i < raw.len() && idx.len() < NUM_COLS_OPENED
        invariant
            i <= raw.len(),
            two_n > 0,
            seen@.len() == two_n,
            idx@ == residues(raw@.take(i as int), two_n as int),
            idx@.len() <= NUM_COLS_OPENED,
            forall|j: int|
                0 <= j < two_n ==> (#[trigger] seen@[j] <==> idx@.contains(j as usize)),
        decreases raw.len() - i,
    {
        let j: usize = raw[i] % two_n;
        proof {
            let next = raw@.take(i + 1);
            assert(next.drop_last() =~= raw@.take(i as int));
            assert(next.last() == raw@[i as int]);
        }
        let ghost before = idx@;
        if !seen[j] {
            seen.set(j, true);
            idx.push(j);
            proof {
                assert forall|v: int| 0 <= v < two_n implies (#[trigger] seen@[v]
                    <==> idx@.contains(v as usize)) by {
                    if before.contains(v as usize) {
                        let t = choose|t: int| 0 <= t < before.len() && before[t] == v as usize;
                        assert(idx@[t] == v as usize);
                    }
                    assert(idx@[before.len() as int] == j);
                    if v != j && idx@.contains(v as usize) {
                        let t = choose|t: int| 0 <= t < idx@.len() && idx@[t] == v as usize;
                        assert(before[t] == v as usize);
                    }
                }
            }
        }
        i += 1;
    }
    proof {
        lemma_residues_grow(raw@, two_n as int, i as int);
        lemma_residues(raw@, two_n as int);
        if i == raw@.len() {
            assert(raw@.take(i as int) =~= raw@);
        }
        assert(idx@.len() == NUM_COLS_OPENED);
        assert forall|k: int| 0 <= k < idx@.len() implies #[trigger] idx@[k] < two_n by {
            assert(idx@[k] == all[k]);
        }
        assert forall|a: int, b: int| 0 <= a < b < idx@.len() implies idx@[a] != idx@[b] by {
            assert(idx@[a] == all[a] && idx@[b] == all[b]);
        }
    }
    idx
}

/// Tells whether the unread integers hold enough distinct columns for an opening.
pub fn columns_available(oracle: &RandomOracle<GoldilocksExt2>, log_n: usize) -> (r: bool)
    requires
        log_n < 32,
        pow2((log_n + 1) as nat) <= usize::MAX,
        oracle.has_ints(COLUMN_DRAWS as int),
    ensures
        r == enough_columns(
            oracle.upcoming_ints(COLUMN_DRAWS as nat),
            pow2((log_n + 1) as nat) as int,
        ),
{
    let two_n: usize = domain::two_power(log_n + 1);
    let raw = oracle.peek_ints(COLUMN_DRAWS);
    let mut idx: Vec<usize> = Vec::new();
    let mut i: usize = 0;
    proof {
        vstd::arithmetic::power2::lemma_pow2_pos((log_n + 1) as nat);
    }
    assert(raw@.take(0) =~= Seq::<usize>::empty());
    while i < raw.len()
        invariant
            i <= raw.len(),
            two_n > 0,
            idx@ == residues(raw@.take(i as int), two_n as int),
        decreases raw.len() - i,
    {
        let j: usize = raw[i] % two_n;
        proof {
            let next = raw@.take(i + 1);
            assert(next.drop_last() =~= raw@.take(i as int));
            assert(next.last() == raw@[i as int]);
        }
        if !holds_index(&idx, j) {
            idx.push(j);
        }
        i += 1;
    }
    assert(raw@.take(i as int) =~= raw@);
    idx.len() >= NUM_COLS_OPENED
}

/// Membership in a list of indices.
fn holds_index(v: &Vec<usize>, x: usize) -> (r: bool)
    ensures
        r == v@.contains(x),
{
    let mut i: usize = 0;
    while i < v.len()
        invariant
            i <= v.len(),
            forall|k: int| 0 <= k < i ==> v@[k] != x,
        decreases v.len() - i,
    {
        if v[i] == x {
            assert(v@[i as int] == x);
            return true;
        }
        i += 1;
    }
    false
}

impl Ligesis<Goldilocks, GoldilocksExt2> {
    /// Samples the hash for an `m x n` layout and commits to its matrix.
    pub fn setup(log_m: usize, log_n: usize, rng: &mut rand::rngs::ThreadRng) -> (r: (
        ProvingKey<Goldilocks, GoldilocksExt2>,
        VerifyingKey,
    ))
        requires
            keyed(log_m as nat, log_n as nat),
        ensures
            r.0.wf(),
            r.0.log_m == log_m,
            r.0.log_n == log_n,
            r.1.matches(r.0),
    {
        proof {
            lemma_width(log_m as nat);
        }
        let m: usize = domain::two_power(log_m);
        let width: usize = ETA * m;
        let hash = SubsetSumHash::<Goldilocks>::new(width, rng);
        let a_vars: usize = LOG_C + LOG_ETA + log_m;
        let li: usize = shared_log_interleave(a_vars, log_m, log_n);
        let flat = hash.a_mle_flat();
        proof {
            assert(flat@.len() == pow2(a_vars as nat)) by {
                assert(flat@.len() == C as nat * width as nat);
            }
            poly::lemma_exponent(a_vars as nat);
        }
        let (a_state, com) = Basefold::<Goldilocks, GoldilocksExt2>::commit_base_on_domain(
            MlPoly(flat),
            CODE_RATE,
            li,
        );
        let vk = VerifyingKey { com_a: com.0, log_m, log_n, width };
        let pk = ProvingKey { hash, a_state, com_a: com.0, log_m, log_n };
        (pk, vk)
    }

    /// Commits to `f`: encodes its rows, splits them into bits, hashes the columns
    /// and builds the tree over the digests.
    pub fn commit(
        pk: &ProvingKey<Goldilocks, GoldilocksExt2>,
        f: MlPoly<Goldilocks>,
    ) -> (r: (LigesisCommit, CommitData<Goldilocks, GoldilocksExt2>))
        requires
            pk.wf(),
            supported(pk.log_m as nat, pk.log_n as nat),
            f.0@.len() == pow2((pk.log_m + pk.log_n) as nat),
        ensures
            r.1.wf(*pk),
            r.1.values() == f.0@,
            r.0.0@ == r.1.root(),
    {
        let f = f.0;
        let ghost (log_m, log_n) = (pk.log_m as nat, pk.log_n as nat);
        let ghost rows = pk.hash.rows();
        let two_n: usize = domain::two_power(pk.log_n + 1);
        let enc = encode_rows(&f, pk.log_m, pk.log_n);
        let b_cols = decompose(&enc, Ghost(f@), pk.log_m, pk.log_n);
        let ghost bits = views::nested(b_cols@);
        proof {
            assert forall|j: int| 0 <= j < b_cols@.len() implies (#[trigger] b_cols@[j])@.len()
                == pk.hash.width by {
                assert(bits.len() == b_cols@.len());
                assert(bits[j] == b_cols@[j]@);
                assert(bit_columns(f@, log_m, log_n)[j] == bit_column(f@, log_m, log_n, j));
            }
        }
        let h_matrix = pk.hash.hash_columns(b_cols.as_slice());
        let ghost cols = digest_columns(rows, bits);
        let mut leaf_bytes: Vec<Vec<u8>> = Vec::new();
        let mut j: usize = 0;
        assert(b_cols@.len() == two_n) by {
            assert(bits.len() == b_cols@.len());
        }
        assert forall|r: int, j: int| 0 <= r < C && 0 <= j < two_n implies #[trigger] h_matrix@[r]@[j]
            == cols[j][r] by {
        }
        while j < two_n
            invariant
                j <= two_n,
                h_matrix@.len() == C,
                rows.len() == C,
                cols == digest_columns(rows, bits),
                cols.len() == two_n,
                forall|r: int| 0 <= r < C ==> (#[trigger] h_matrix@[r])@.len() == two_n,
                forall|r: int, j: int|
                    0 <= r < C && 0 <= j < two_n ==> #[trigger] h_matrix@[r]@[j] == cols[j][r],
                leaf_bytes@.len() == j,
                forall|k: int|
                    0 <= k < j ==> (#[trigger] leaf_bytes@[k])@ == merkle::fields_bytes(cols[k]),
            decreases two_n - j,
        {
            let col = matrix_column(&h_matrix, j);
            assert(col@ =~= cols[j as int]);
            leaf_bytes.push(Serialize::serialize_fields(col.as_slice()));
            j += 1;
        }
        let h_merkle = MerkleTreeProver::new(&leaf_bytes);
        proof {
            assert(views::nested(leaf_bytes@) =~= columns_bytes(cols));
            vstd::arithmetic::power2::lemma_pow2_pos(log_n + 1);
        }
        let com = h_merkle.commit();
        let data = CommitData { f, b_cols, h_matrix, h_merkle, marker: PhantomData };
        proof {
            assert forall|r: int| 0 <= r < C implies (#[trigger] data.digest_rows()[r]).len()
                == pow2(log_n + 1) by {
                assert(data.digest_rows()[r] == h_matrix@[r]@);
            }
            assert forall|r: int, j: int|
                0 <= r < C && 0 <= j < pow2(log_n + 1) implies #[trigger] data.digest_rows()[r][j]
                == subset_sum::digest(rows, bits[j])[r] by {
                assert(data.digest_rows()[r] == h_matrix@[r]@);
                assert(h_matrix@[r]@[j] == cols[j][r]);
            }
        }
        (LigesisCommit(com), data)
    }
}

} // verus!
