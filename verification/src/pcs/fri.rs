//! The folding argument shared by single and batched openings: folding a codeword,
//! committing to the folded codewords, opening them at the queried positions and
//! checking the openings.
use std::collections::BTreeMap;
use vstd::prelude::*;
use vstd::arithmetic::power2::pow2;
use crate::algebra;
use crate::field::{Field, Goldilocks, GoldilocksExt2};
use crate::gkr;
use crate::multilinear;
use crate::pcs::domain;
use crate::pcs::domain::LeafField;
use crate::pcs::leaves;
use crate::polynomial;
use crate::utils::merkle;
use crate::utils::merkle::{Digest, MerkleTreeProver, MerkleTreeVerifier, Serialize};
use crate::utils::oracle::RandomOracle;

verus! {

/// The values at the domain of order `2^a` of the polynomial with coefficients `c`.
pub open spec fn encoding(c: Seq<GoldilocksExt2>, a: nat) -> Seq<GoldilocksExt2> {
    Seq::new(
        pow2(a),
        |i: int| polynomial::poly_eval(c, domain::domain_point(a, i as nat)),
    )
}

/// The inverse of the domain point `i`.
pub open spec fn twiddle(a: nat, i: nat) -> GoldilocksExt2 {
    domain::pow(domain::up(domain::root(a)).inv(), i)
}

/// Folds the values `x` and `y` at a domain point and its negative: with the even
/// part `(x + y) / 2` and the odd part `(x - y) / (2 point)`, the mean of both at
/// `r`.
pub open spec fn fold_pair(
    x: GoldilocksExt2,
    y: GoldilocksExt2,
    r: GoldilocksExt2,
    t: GoldilocksExt2,
) -> GoldilocksExt2 {
    let half = GoldilocksExt2::embed(2).inv();
    gkr::mean((x + y) * half, ((x - y) * t) * half, r)
}

/// The folded codeword, of half the length.
pub open spec fn fold_codeword(
    v: Seq<GoldilocksExt2>,
    a: nat,
    r: GoldilocksExt2,
) -> Seq<GoldilocksExt2> {
    Seq::new(
        v.len() / 2,
        |i: int| fold_pair(v[i], v[i + v.len() / 2], r, twiddle(a, i as nat)),
    )
}

/// The codeword after `k` folds.
pub open spec fn level(
    v: Seq<GoldilocksExt2>,
    a: nat,
    ch: Seq<GoldilocksExt2>,
    k: nat,
) -> Seq<GoldilocksExt2>
    decreases k,
{
    if k == 0 {
        v
    } else {
        fold_codeword(level(v, a, ch, (k - 1) as nat), (a - (k - 1)) as nat, ch[k - 1])
    }
}

pub proof fn lemma_level_len(
    v: Seq<GoldilocksExt2>,
    a: nat,
    ch: Seq<GoldilocksExt2>,
    k: nat,
)
    requires
        v.len() == pow2(a),
        k <= a,
    ensures
        level(v, a, ch, k).len() == pow2((a - k) as nat),
    decreases k,
{
    if k > 0 {
        lemma_level_len(v, a, ch, (k - 1) as nat);
        multilinear::lemma_pow2_step((a - k + 1) as nat);
    }
}

/// Number of queries: each has soundness error `2^-code_rate`.
pub open spec fn query_count(code_rate: nat) -> nat {
    ((100 + code_rate - 1) / code_rate as int) as nat
}

/// Number of queries for the given rate.
pub fn query_num(code_rate: usize) -> (r: usize)
    requires
        0 < code_rate <= usize::MAX - 100,
    ensures
        r == query_count(code_rate as nat),
        r > 0,
{
    let r: usize = (100 + code_rate - 1) / code_rate;
    proof {
        vstd::arithmetic::div_mod::lemma_div_non_zero(100 + code_rate - 1, code_rate as int);
    }
    r
}

/// The two positions of a query at a level whose half length is `half`.
pub open spec fn query_pair(idx: usize, half: int) -> Seq<usize> {
    seq![(idx as int % half) as usize, (idx as int % half + half) as usize]
}

/// The pairs of all queries, one after the other.
pub open spec fn query_pairs(base: Seq<usize>, half: int) -> Seq<usize>
    decreases base.len(),
{
    if base.len() == 0 {
        Seq::empty()
    } else {
        query_pairs(base.drop_last(), half) + query_pair(base.last(), half)
    }
}

/// The opened positions at a level, in increasing order.
pub open spec fn opened_positions(base: Seq<usize>, half: int) -> Seq<usize> {
    leaves::sorted_distinct(query_pairs(base, half))
}

/// The opened positions at a level: for each query the position modulo `half` and
/// its partner.
pub fn level_positions(base: &Vec<usize>, half: usize) -> (r: Vec<usize>)
    requires
        0 < half <= usize::MAX / 2,
    ensures
        r@ == opened_positions(base@, half as int),
{
    let mut positions: Vec<usize> = Vec::new();
    let mut i: usize = 0;
    assert(base@.take(0) =~= Seq::<usize>::empty());
    while i < base.len()
        invariant
            i <= base.len(),
            0 < half <= usize::MAX / 2,
            positions@ == query_pairs(base@.take(i as int), half as int),
        decreases base.len() - i,
    {
        let pos: usize = base[i] % half;
        positions.push(pos);
        positions.push(pos + half);
        proof {
            let t = base@.take(i + 1);
            assert(t.drop_last() =~= base@.take(i as int));
            assert(t.last() == base@[i as int]);
            assert(positions@ =~= query_pairs(t, half as int));
        }
        i += 1;
    }
    assert(base@.take(base@.len() as int) =~= base@);
    leaves::sort_distinct(&positions)
}

pub proof fn lemma_query_pairs(base: Seq<usize>, half: int)
    requires
        0 < half <= usize::MAX / 2,
    ensures
        leaves::below(query_pairs(base, half), 2 * half),
        base.len() > 0 ==> query_pairs(base, half).len() > 0,
        forall|i: int|
            0 <= i < base.len() ==> query_pairs(base, half).contains(
                (#[trigger] base[i] as int % half) as usize,
            ) && query_pairs(base, half).contains((base[i] as int % half + half) as usize),
    decreases base.len(),
{
    if base.len() > 0 {
        let b = base.drop_last();
        lemma_query_pairs(b, half);
        let p = query_pairs(b, half);
        let q = query_pair(base.last(), half);
        let r = query_pairs(base, half);
        vstd::arithmetic::div_mod::lemma_mod_bound(base.last() as int, half);
        assert forall|i: int| 0 <= i < r.len() implies #[trigger] r[i] < 2 * half by {
            if i < p.len() {
                assert(p[i] < 2 * half);
            }
        }
        assert forall|i: int| 0 <= i < base.len() implies r.contains(
            (#[trigger] base[i] as int % half) as usize,
        ) && r.contains((base[i] as int % half + half) as usize) by {
            if i < b.len() {
                let v = (b[i] as int % half) as usize;
                let w = (b[i] as int % half + half) as usize;
                assert(p.contains(v) && p.contains(w));
                let j = choose|j: int| 0 <= j < p.len() && p[j] == v;
                let k = choose|k: int| 0 <= k < p.len() && p[k] == w;
                assert(r[j] == v && r[k] == w);
            } else {
                assert(r[p.len() as int] == q[0]);
                assert(r[p.len() as int + 1] == q[1]);
            }
        }
    }
}

/// Both positions of every query are opened, and all opened positions lie at the
/// level.
pub proof fn lemma_opened_positions(base: Seq<usize>, half: int)
    requires
        0 < half <= usize::MAX / 2,
    ensures
        leaves::increasing(opened_positions(base, half)),
        leaves::below(opened_positions(base, half), 2 * half),
        base.len() > 0 ==> merkle::proper_indices(opened_positions(base, half), 2 * half),
        forall|i: int|
            0 <= i < base.len() ==> opened_positions(base, half).contains(
                (#[trigger] base[i] as int % half) as usize,
            ) && opened_positions(base, half).contains((base[i] as int % half + half) as usize),
{
    lemma_query_pairs(base, half);
    leaves::lemma_sorted_distinct(query_pairs(base, half), 2 * half);
}

/// The query indices drawn from the integer tape: reduced modulo `half`, distinct
/// and sorted.
pub open spec fn query_indices(ints: Seq<usize>, half: int) -> Seq<usize> {
    leaves::sorted_distinct(Seq::new(ints.len(), |i: int| (ints[i] as int % half) as usize))
}

/// Draws the query indices.
pub fn draw_queries(
    oracle: &mut RandomOracle<GoldilocksExt2>,
    q: usize,
    half: usize,
) -> (r: Vec<usize>)
    requires
        old(oracle).has_ints(q as int),
        half > 0,
    ensures
        r@ == query_indices(old(oracle).upcoming_ints(q as nat), half as int),
        q > 0 ==> r@.len() > 0,
        leaves::below(r@, half as int),
        final(oracle).wf(),
        old(oracle).advanced(*final(oracle), 0, q as int),
{
    let drawn = oracle.next_n_ints(q);
    let mut reduced: Vec<usize> = Vec::new();
    let mut i: usize = 0;
    while i < drawn.len()
        invariant
            i <= drawn.len(),
            half > 0,
            reduced@ == Seq::new(i as nat, |k: int| (drawn@[k] as int % half as int) as usize),
        decreases drawn.len() - i,
    {
        reduced.push(drawn[i] % half);
        assert(reduced@ =~= Seq::new(
            (i + 1) as nat,
            |k: int| (drawn@[k] as int % half as int) as usize,
        ));
        i += 1;
    }
    proof {
        leaves::lemma_sorted_distinct(reduced@, half as int);
        assert forall|k: int| 0 <= k < reduced@.len() implies #[trigger] reduced@[k] < half by {
            vstd::arithmetic::div_mod::lemma_mod_bound(drawn@[k] as int, half as int);
        }
        assert(leaves::below(reduced@, half as int));
    }
    leaves::sort_distinct(&reduced)
}

pub proof fn lemma_root_nonzero(k: nat)
    requires
        k <= 32,
    ensures
        domain::root(k) != Goldilocks::zero(),
        domain::up(domain::root(k)) != GoldilocksExt2::zero(),
        domain::up(domain::root(k)).valid(),
    decreases k,
{
    broadcast use GoldilocksExt2::lemma_pair;

    domain::lemma_root_small();
    Goldilocks::law_nontrivial();
    if k > 0 {
        lemma_root_nonzero((k - 1) as nat);
        domain::lemma_root_square(k);
        if domain::root(k) == Goldilocks::zero() {
            algebra::mul_zero(Goldilocks::zero());
        }
    } else {
        Goldilocks::law_valid(Goldilocks::zero(), Goldilocks::zero());
    }
    let u = domain::up(domain::root(k));
    if u == GoldilocksExt2::zero() {
        assert(u.re() == GoldilocksExt2::zero().re());
    }
    domain::lemma_up(domain::root(k), domain::root(k));
}

pub proof fn lemma_two_nonzero()
    ensures
        GoldilocksExt2::embed(2) != GoldilocksExt2::zero(),
        GoldilocksExt2::embed(2).valid(),
        GoldilocksExt2::embed(2) == GoldilocksExt2::one() + GoldilocksExt2::one(),
{
    GoldilocksExt2::law_embed(0, 2);
    GoldilocksExt2::law_embed(1, 1);
    GoldilocksExt2::law_embed(2, 0);
}

/// Folds a codeword on the domain of order `2^a`.
pub fn eq_fold_codeword(
    values: &Vec<GoldilocksExt2>,
    a: usize,
    r: GoldilocksExt2,
) -> (out: Vec<GoldilocksExt2>)
    requires
        a <= 32,
        values@.len() == pow2(a as nat),
    ensures
        out@ == fold_codeword(values@, a as nat, r),
{
    let h: usize = values.len() / 2;
    proof {
        lemma_root_nonzero(a as nat);
        lemma_two_nonzero();
    }
    let g = GoldilocksExt2::from_base(domain::two_adic_generator(a));
    let g_inv = g.inverse();
    let inv2 = GoldilocksExt2::from_u64(2).inverse();
    let mut tw = GoldilocksExt2::new_one();
    let mut out: Vec<GoldilocksExt2> = Vec::new();
    let mut i: usize = 0;
    while i < h
        invariant
            i <= h,
            h == values@.len() / 2,
            values@.len() == values.len(),
            g_inv == domain::up(domain::root(a as nat)).inv(),
            inv2 == GoldilocksExt2::embed(2).inv(),
            tw == domain::pow(g_inv, i as nat),
            out@.len() == i,
            forall|k: int|
                0 <= k < i ==> #[trigger] out@[k] == fold_pair(
                    values@[k],
                    values@[k + h],
                    r,
                    twiddle(a as nat, k as nat),
                ),
        decreases h - i,
    {
        let x = values[i];
        let nx = values[i + h];
        let pe = x.add(nx).mul(inv2);
        let po = x.sub(nx).mul(tw).mul(inv2);
        out.push(gkr::weighted_mean(pe, po, r));
        proof {
            GoldilocksExt2::law_mul_comm(g_inv, tw);
        }
        tw = tw.mul(g_inv);
        i += 1;
    }
    assert(out@ =~= fold_codeword(values@, a as nat, r));
    out
}

/// Folds one pair of a codeword on the domain of order `2^a`.
pub fn eq_fold_at(
    x: GoldilocksExt2,
    y: GoldilocksExt2,
    r: GoldilocksExt2,
    a: usize,
    pos: usize,
) -> (out: GoldilocksExt2)
    requires
        a <= 32,
    ensures
        out == fold_pair(x, y, r, twiddle(a as nat, pos as nat)),
{
    proof {
        lemma_root_nonzero(a as nat);
        lemma_two_nonzero();
    }
    let g = GoldilocksExt2::from_base(domain::two_adic_generator(a));
    let tw = domain::power(g.inverse(), pos);
    let inv2 = GoldilocksExt2::from_u64(2).inverse();
    let pe = x.add(y).mul(inv2);
    let po = x.sub(y).mul(tw).mul(inv2);
    gkr::weighted_mean(pe, po, r)
}

/// All levels of the folding.
pub fn fold_levels(
    start: Vec<GoldilocksExt2>,
    a: usize,
    ch: &Vec<GoldilocksExt2>,
) -> (levels: Vec<Vec<GoldilocksExt2>>)
    requires
        a <= 32,
        start@.len() == pow2(a as nat),
        ch@.len() <= a,
    ensures
        levels@.len() == ch@.len() + 1,
        forall|k: int|
            0 <= k <= ch@.len() ==> (#[trigger] levels@[k])@ == level(
                start@,
                a as nat,
                ch@,
                k as nat,
            ),
{
    let ghost v = start@;
    let mut levels: Vec<Vec<GoldilocksExt2>> = vec![start];
    let mut k: usize = 0;
    while k < ch.len()
        invariant
            k <= ch.len(),
            a <= 32,
            v.len() == pow2(a as nat),
            ch@.len() <= a,
            levels@.len() == k + 1,
            forall|j: int|
                0 <= j <= k ==> (#[trigger] levels@[j])@ == level(v, a as nat, ch@, j as nat),
        decreases ch.len() - k,
    {
        proof {
            lemma_level_len(v, a as nat, ch@, k as nat);
        }
        let next = eq_fold_codeword(&levels[k], a - k, ch[k]);
        assert(level(v, a as nat, ch@, (k + 1) as nat) == fold_codeword(
            level(v, a as nat, ch@, k as nat),
            (a - k) as nat,
            ch@[k as int],
        ));
        levels.push(next);
        k += 1;
    }
    levels
}

/// The leaf digests of a folded codeword: one element per leaf.
pub open spec fn level_digests(v: Seq<GoldilocksExt2>) -> Seq<Seq<u8>> {
    Seq::new(v.len(), |i: int| merkle::blake3_digest(merkle::fields_bytes(seq![v[i]])))
}

/// The tree over a folded codeword.
pub fn level_tree(v: &Vec<GoldilocksExt2>) -> (t: MerkleTreeProver)
    ensures
        t.wf(),
        t.leaves() == level_digests(v@),
{
    let mut hashes: Vec<Digest> = Vec::new();
    let mut i: usize = 0;
    while i < v.len()
        invariant
            i <= v.len(),
            hashes@.len() == i,
            forall|k: int|
                0 <= k < i ==> (#[trigger] hashes@[k])@ == merkle::blake3_digest(
                    merkle::fields_bytes(seq![v@[k]]),
                ),
        decreases v.len() - i,
    {
        let one: Vec<GoldilocksExt2> = vec![v[i]];
        assert(one@ =~= seq![v@[i as int]]);
        let bytes = Serialize::serialize_fields(one.as_slice());
        hashes.push(merkle::hash_leaf(bytes.as_slice()));
        i += 1;
    }
    assert(merkle::digest_views(hashes@) =~= level_digests(v@));
    MerkleTreeProver::from_leaf_hashes(hashes)
}

/// A Merkle opening at one level: the proof bytes and the revealed leaves, keyed by
/// their position. Leaves of level 0 hold a column of the interleaved codewords,
/// leaves of folded levels one element.
pub struct RoundOpening<F: Field> {
    pub proof_bytes: Vec<u8>,
    pub values: BTreeMap<usize, Vec<F>>,
}

/// The bytes of the revealed leaves, in the order of their positions.
pub open spec fn revealed_bytes<F: Field>(values: Map<usize, Vec<F>>) -> Seq<Seq<u8>> {
    Seq::new(
        leaves::keys_of(values).len(),
        |i: int| merkle::fields_bytes(values[leaves::keys_of(values)[i]]@),
    )
}

/// The revealed leaves stand in the tree with the given root and leaf count.
pub open spec fn opening_accepted<F: Field>(
    proof_bytes: Seq<u8>,
    values: Map<usize, Vec<F>>,
    root: Seq<u8>,
    total: usize,
) -> bool {
    merkle::opened_root(
        proof_bytes,
        leaves::keys_of(values),
        merkle::leaf_digests(revealed_bytes(values)),
        total,
    ) == Some(root)
}

/// Checks a Merkle opening.
pub fn check_opening<F: Field>(
    proof_bytes: &Vec<u8>,
    values: &BTreeMap<usize, Vec<F>>,
    root: &Digest,
    total: usize,
) -> (r: bool)
    requires
        proof_bytes@.len() % 32 == 0,
    ensures
        r == opening_accepted(proof_bytes@, values@, root@, total),
{
    let indices = leaves::positions(values);
    let mut hashes: Vec<Digest> = Vec::new();
    let ghost want = merkle::leaf_digests(revealed_bytes(values@));
    let mut i: usize = 0;
    while i < indices.len()
        invariant
            i <= indices.len(),
            indices@ == leaves::keys_of(values@),
            indices@.to_set() == values@.dom(),
            want == merkle::leaf_digests(revealed_bytes(values@)),
            hashes@.len() == i,
            forall|k: int| 0 <= k < i ==> (#[trigger] hashes@[k])@ == want[k],
        decreases indices.len() - i,
    {
        assert(indices@.to_set().contains(indices@[i as int]));
        match leaves::look_up(values, indices[i]) {
            Some(leaf) => {
                let bytes = Serialize::serialize_fields(leaf.as_slice());
                hashes.push(merkle::hash_leaf(bytes.as_slice()));
            },
            None => {
                assert(false);
            },
        }
        i += 1;
    }
    assert(merkle::digest_views(hashes@) =~= want);
    let verifier = MerkleTreeVerifier::new(total, root);
    verifier.verify_digests(merkle::copy_bytes(proof_bytes), &indices, &hashes)
}

/// The revealed leaves are those of `source` at the given positions.
pub open spec fn reveals<F: Field>(
    values: Map<usize, Vec<F>>,
    positions: Seq<usize>,
    source: spec_fn(int) -> Seq<F>,
) -> bool {
    &&& values.dom() == positions.to_set()
    &&& forall|p: usize| #[trigger] values.contains_key(p) ==> values[p]@ == source(p as int)
}

/// An honest opening is accepted.
pub proof fn lemma_opening_accepted<F: Field>(
    path: Seq<u8>,
    values: Map<usize, Vec<F>>,
    positions: Seq<usize>,
    source: spec_fn(int) -> Seq<F>,
    tree: Seq<Seq<u8>>,
    total: usize,
)
    requires
        reveals(values, positions, source),
        merkle::proper_indices(positions, total as int),
        tree.len() == total,
        forall|i: int|
            0 <= i < total ==> #[trigger] tree[i] == merkle::blake3_digest(
                merkle::fields_bytes(source(i)),
            ),
        merkle::opened_root(path, positions, merkle::select(tree, positions), total) == Some(
            merkle::merkle_root(tree),
        ),
    ensures
        opening_accepted(path, values, merkle::merkle_root(tree), total),
{
    leaves::lemma_keys_of(values, positions);
    let got = merkle::leaf_digests(revealed_bytes(values));
    let want = merkle::select(tree, positions);
    assert forall|i: int| 0 <= i < positions.len() implies #[trigger] got[i] == want[i] by {
        let p = positions[i];
        assert(positions.to_set().contains(p));
        assert(values.contains_key(p));
        assert(p < total);
    }
    assert(got =~= want);
}

/// The roots of the folded levels `1, .., rounds - 1`.
pub open spec fn level_roots(
    v: Seq<GoldilocksExt2>,
    a: nat,
    ch: Seq<GoldilocksExt2>,
) -> Seq<Seq<u8>> {
    Seq::new(
        if ch.len() > 0 { (ch.len() - 1) as nat } else { 0 },
        |k: int| merkle::merkle_root(level_digests(level(v, a, ch, (k + 1) as nat))),
    )
}

/// The opening reveals the folded level `k` at the query positions and is
/// accepted under its root.
pub open spec fn level_opened(
    op: RoundOpening<GoldilocksExt2>,
    v: Seq<GoldilocksExt2>,
    a: nat,
    ch: Seq<GoldilocksExt2>,
    base: Seq<usize>,
    k: nat,
) -> bool {
    let lv = level(v, a, ch, k);
    let half = pow2((a - k - 1) as nat) as int;
    &&& op.proof_bytes@ == merkle::merkle_path(
        level_digests(lv),
        opened_positions(base, half),
    )
    &&& op.proof_bytes@.len() % 32 == 0
    &&& reveals(op.values@, opened_positions(base, half), |i: int| seq![lv[i]])
    &&& opening_accepted(
        op.proof_bytes@,
        op.values@,
        merkle::merkle_root(level_digests(lv)),
        pow2((a - k) as nat) as usize,
    )
}

/// Commits to the folded levels `1, .., rounds - 1` and opens them at the queries.
pub fn commit_and_open_levels(
    levels: &Vec<Vec<GoldilocksExt2>>,
    a: usize,
    ch: &Vec<GoldilocksExt2>,
    base: &Vec<usize>,
) -> (r: (Vec<Digest>, Vec<RoundOpening<GoldilocksExt2>>))
    requires
        a <= 32,
        ch@.len() < a,
        base@.len() > 0,
        levels@.len() == ch@.len() + 1,
        levels@[0]@.len() == pow2(a as nat),
        forall|k: int|
            0 <= k <= ch@.len() ==> (#[trigger] levels@[k])@ == level(
                levels@[0]@,
                a as nat,
                ch@,
                k as nat,
            ),
    ensures
        merkle::digest_views(r.0@) == level_roots(levels@[0]@, a as nat, ch@),
        r.1@.len() == level_roots(levels@[0]@, a as nat, ch@).len(),
        forall|k: int|
            0 <= k < r.1@.len() ==> level_opened(
                #[trigger] r.1@[k],
                levels@[0]@,
                a as nat,
                ch@,
                base@,
                (k + 1) as nat,
            ),
{
    let ghost v = levels@[0]@;
    let mut roots: Vec<Digest> = Vec::new();
    let mut openings: Vec<RoundOpening<GoldilocksExt2>> = Vec::new();
    let rounds: usize = ch.len();
    let mut k: usize = 1;
    let ghost want = level_roots(v, a as nat, ch@);
    while k < rounds
        invariant
            1 <= k,
            rounds > 0 ==> k <= rounds,
            rounds == 0 ==> k == 1,
            rounds == ch@.len(),
            a <= 32,
            ch@.len() < a,
            base@.len() > 0,
            v == levels@[0]@,
            v.len() == pow2(a as nat),
            levels@.len() == ch@.len() + 1,
            forall|j: int|
                0 <= j <= ch@.len() ==> (#[trigger] levels@[j])@ == level(
                    v,
                    a as nat,
                    ch@,
                    j as nat,
                ),
            want == level_roots(v, a as nat, ch@),
            roots@.len() == k - 1,
            openings@.len() == k - 1,
            forall|j: int| 0 <= j < k - 1 ==> (#[trigger] roots@[j])@ == want[j],
            forall|j: int|
                0 <= j < k - 1 ==> level_opened(
                    #[trigger] openings@[j],
                    v,
                    a as nat,
                    ch@,
                    base@,
                    (j + 1) as nat,
                ),
        decreases rounds - k,
    {
        let ghost lv = level(v, a as nat, ch@, k as nat);
        proof {
            lemma_level_len(v, a as nat, ch@, k as nat);
            multilinear::lemma_pow2_step((a - k) as nat);
            multilinear::lemma_pow2_mono((a - k) as nat, 32);
        }
        let cur = &levels[k];
        assert(cur@ == lv);
        let tree = level_tree(cur);
        roots.push(tree.commit());
        let len: usize = cur.len();
        let half: usize = len / 2;
        let positions = level_positions(base, half);
        proof {
            lemma_opened_positions(base@, half as int);
        }
        let proof_bytes = tree.open(positions.as_slice());
        let mut values: BTreeMap<usize, Vec<GoldilocksExt2>> = BTreeMap::new();
        let ghost source = |i: int| seq![lv[i]];
        let mut i: usize = 0;
        assert(values@.dom() =~= positions@.take(0).to_set());
        while i < positions.len()
            invariant
                i <= positions.len(),
                cur@ == lv,
                source == (|i: int| seq![lv[i]]),
                leaves::below(positions@, lv.len() as int),
                reveals(values@, positions@.take(i as int), source),
            decreases positions.len() - i,
        {
            let p: usize = positions[i];
            assert(positions@[i as int] < lv.len());
            let one: Vec<GoldilocksExt2> = vec![cur[p]];
            assert(one@ =~= seq![lv[p as int]]);
            let ghost before = values@;
            leaves::put(&mut values, p, one);
            proof {
                lemma_set_push(positions@, i as int);
                assert(values@.dom() =~= before.dom().insert(p));
            }
            i += 1;
        }
        assert(positions@.take(positions@.len() as int) =~= positions@);
        proof {
            assert(level_digests(lv).len() == len);
            lemma_opening_accepted(
                proof_bytes@,
                values@,
                positions@,
                source,
                level_digests(lv),
                len,
            );
        }
        let op = RoundOpening { proof_bytes, values };
        openings.push(op);
        k += 1;
    }
    assert(roots@.len() == want.len());
    assert forall|j: int| 0 <= j < want.len() implies merkle::digest_views(roots@)[j]
        == #[trigger] want[j] by {
        assert(roots@[j]@ == want[j]);
    }
    assert(merkle::digest_views(roots@) =~= want);
    (roots, openings)
}

pub proof fn lemma_set_push(s: Seq<usize>, i: int)
    requires
        0 <= i < s.len(),
    ensures
        s.take(i + 1).to_set() == s.take(i).to_set().insert(s[i]),
{
    let t = s.take(i + 1);
    let u = s.take(i);
    assert forall|v: usize| t.to_set().contains(v) == u.to_set().insert(s[i]).contains(v) by {
        if t.to_set().contains(v) {
            let j = choose|j: int| 0 <= j < t.len() && t[j] == v;
            if j < i {
                assert(u[j] == v);
            }
        }
        if u.to_set().contains(v) {
            let j = choose|j: int| 0 <= j < u.len() && u[j] == v;
            assert(t[j] == v);
        }
        assert(t[i] == s[i]);
    }
    assert(t.to_set() =~= u.to_set().insert(s[i]));
}

/// The value that the openings give for position `p` of level `k`.
pub open spec fn opened_value(
    first: Map<usize, GoldilocksExt2>,
    folded: Seq<RoundOpening<GoldilocksExt2>>,
    k: int,
    p: int,
) -> GoldilocksExt2 {
    if k == 0 {
        first[p as usize]
    } else {
        folded[k - 1].values@[p as usize]@[0]
    }
}

/// The fold of query `idx` at level `k` agrees with the value opened one level on,
/// or with the final codeword.
pub open spec fn fold_consistent(
    first: Map<usize, GoldilocksExt2>,
    folded: Seq<RoundOpening<GoldilocksExt2>>,
    last: Seq<GoldilocksExt2>,
    ch: Seq<GoldilocksExt2>,
    a: nat,
    idx: int,
    k: int,
) -> bool {
    let half = pow2((a - k - 1) as nat) as int;
    let pos = idx % half;
    fold_pair(
        opened_value(first, folded, k, pos),
        opened_value(first, folded, k, pos + half),
        ch[k],
        twiddle((a - k) as nat, pos as nat),
    ) == (if k + 1 == ch.len() {
        last[pos]
    } else {
        opened_value(first, folded, k + 1, pos)
    })
}

/// All queries are consistent at all levels.
pub open spec fn queries_consistent(
    first: Map<usize, GoldilocksExt2>,
    folded: Seq<RoundOpening<GoldilocksExt2>>,
    last: Seq<GoldilocksExt2>,
    ch: Seq<GoldilocksExt2>,
    a: nat,
    base: Seq<usize>,
) -> bool {
    forall|i: int, k: int|
        0 <= i < base.len() && 0 <= k < ch.len() ==> #[trigger] fold_consistent(
            first,
            folded,
            last,
            ch,
            a,
            base[i] as int,
            k,
        )
}

/// The openings hold a value at both positions of every query at every level.
pub open spec fn values_present(
    first: Map<usize, GoldilocksExt2>,
    folded: Seq<RoundOpening<GoldilocksExt2>>,
    rounds: nat,
    a: nat,
    base: Seq<usize>,
) -> bool {
    &&& folded.len() + 1 >= rounds
    &&& forall|p: usize|
        opened_positions(base, pow2((a - 1) as nat) as int).contains(p)
            ==> #[trigger] first.contains_key(p)
    &&& forall|j: int, p: usize|
        0 <= j < rounds - 1 && opened_positions(base, pow2((a - j - 2) as nat) as int).contains(p)
            ==> #[trigger] folded[j].values@.contains_key(p) && folded[j].values@[p]@.len() > 0
}

/// Reads an opened value.
fn value_at(
    first: &BTreeMap<usize, GoldilocksExt2>,
    folded: &Vec<RoundOpening<GoldilocksExt2>>,
    k: usize,
    p: usize,
) -> (r: GoldilocksExt2)
    requires
        k == 0 ==> first@.contains_key(p),
        k > 0 ==> k <= folded@.len() && folded@[k - 1].values@.contains_key(p)
            && folded@[k - 1].values@[p]@.len() > 0,
    ensures
        r == opened_value(first@, folded@, k as int, p as int),
{
    if k == 0 {
        match leaves::look_up(first, p) {
            Some(v) => *v,
            None => GoldilocksExt2::new_zero(),
        }
    } else {
        match leaves::look_up(&folded[k - 1].values, p) {
            Some(v) => v[0],
            None => GoldilocksExt2::new_zero(),
        }
    }
}

/// Checks the fold consistency of all queries.
pub fn check_queries(
    first: &BTreeMap<usize, GoldilocksExt2>,
    folded: &Vec<RoundOpening<GoldilocksExt2>>,
    last: &Vec<GoldilocksExt2>,
    ch: &Vec<GoldilocksExt2>,
    a: usize,
    base: &Vec<usize>,
) -> (r: bool)
    requires
        a <= 32,
        0 < ch@.len() < a,
        last@.len() >= pow2((a - ch@.len()) as nat),
        pow2(a as nat) <= usize::MAX,
        values_present(first@, folded@, ch@.len(), a as nat, base@),
    ensures
        r == queries_consistent(first@, folded@, last@, ch@, a as nat, base@),
{
    let rounds: usize = ch.len();
    let mut i: usize = 0;
    while i < base.len()
        invariant
            i <= base.len(),
            rounds == ch@.len(),
            a <= 32,
            0 < ch@.len() < a,
            last@.len() >= pow2((a - ch@.len()) as nat),
            pow2(a as nat) <= usize::MAX,
            values_present(first@, folded@, ch@.len(), a as nat, base@),
            forall|j: int, k: int|
                0 <= j < i && 0 <= k < ch@.len() ==> #[trigger] fold_consistent(
                    first@,
                    folded@,
                    last@,
                    ch@,
                    a as nat,
                    base@[j] as int,
                    k,
                ),
        decreases base.len() - i,
    {
        let idx: usize = base[i];
        let mut k: usize = 0;
        while k < rounds
            invariant
                i < base.len(),
                idx == base@[i as int],
                k <= rounds,
                rounds == ch@.len(),
                a <= 32,
                0 < ch@.len() < a,
                last@.len() >= pow2((a - ch@.len()) as nat),
                pow2(a as nat) <= usize::MAX,
                values_present(first@, folded@, ch@.len(), a as nat, base@),
                forall|j: int|
                    0 <= j < k ==> #[trigger] fold_consistent(
                        first@,
                        folded@,
                        last@,
                        ch@,
                        a as nat,
                        idx as int,
                        j,
                    ),
            decreases rounds - k,
        {
            proof {
                multilinear::lemma_pow2_step((a - k) as nat);
                multilinear::lemma_pow2_mono((a - k) as nat, a as nat);
                multilinear::lemma_pow2_mono((a - k - 1) as nat, a as nat);
            }
            let half: usize = domain::two_power(a - k - 1);
            let pos: usize = idx % half;
            proof {
                vstd::arithmetic::div_mod::lemma_mod_bound(idx as int, half as int);
                lemma_opened_positions(base@, half as int);
                assert(opened_positions(base@, half as int).contains(
                    (base@[i as int] as int % half as int) as usize,
                ));
                if k > 0 {
                    let j = k - 1;
                    assert((a - j - 2) as nat == (a - k - 1) as nat);
                    assert(folded@[j].values@.contains_key(pos));
                    assert(folded@[j].values@.contains_key((pos + half) as usize));
                } else {
                    assert(first@.contains_key(pos));
                    assert(first@.contains_key((pos + half) as usize));
                }
                if k + 1 < rounds {
                    lemma_next_position(base@, a as nat, k as nat, i as int);
                    assert(folded@[k as int].values@.contains_key(pos));
                }
            }
            let x = value_at(first, folded, k, pos);
            let y = value_at(first, folded, k, pos + half);
            let d = eq_fold_at(x, y, ch[k], a - k, pos);
            let expected = if k + 1 == rounds {
                last[pos]
            } else {
                value_at(first, folded, k + 1, pos)
            };
            if !d.equals(expected) {
                assert(!fold_consistent(
                    first@,
                    folded@,
                    last@,
                    ch@,
                    a as nat,
                    base@[i as int] as int,
                    k as int,
                ));
                return false;
            }
            assert(fold_consistent(first@, folded@, last@, ch@, a as nat, idx as int, k as int));
            k += 1;
        }
        i += 1;
    }
    true
}

/// The position of a query is opened one level on as well.
proof fn lemma_next_position(base: Seq<usize>, a: nat, k: nat, i: int)
    requires
        k + 1 < a,
        a <= 32,
        pow2(a) <= usize::MAX,
        0 <= i < base.len(),
    ensures
        opened_positions(base, pow2((a - k - 2) as nat) as int).contains(
            (base[i] as int % pow2((a - k - 1) as nat) as int) as usize,
        ),
{
    let half = pow2((a - k - 1) as nat) as int;
    let quarter = pow2((a - k - 2) as nat) as int;
    multilinear::lemma_pow2_step((a - k - 1) as nat);
    multilinear::lemma_pow2_mono((a - k - 1) as nat, a);
    lemma_opened_positions(base, quarter);
    let x = base[i] as int;
    // x % (2 q) is x % q or x % q + q
    vstd::arithmetic::div_mod::lemma_mod_breakdown(x, quarter, 2);
    vstd::arithmetic::div_mod::lemma_mod_bound(x, quarter);
    assert(half == quarter * 2);
    let t = (x / quarter) % 2;
    assert(x % half == quarter * t + x % quarter);
    assert(t == 0 || t == 1);
    assert(quarter * 0 == 0 && quarter * 1 == quarter);
    assert(opened_positions(base, quarter).contains((base[i] as int % quarter) as usize));
}

/// The openings reveal the levels of the folding of `v`.
pub proof fn lemma_honest_queries(
    first: Map<usize, GoldilocksExt2>,
    folded: Seq<RoundOpening<GoldilocksExt2>>,
    v: Seq<GoldilocksExt2>,
    ch: Seq<GoldilocksExt2>,
    a: nat,
    base: Seq<usize>,
)
    requires
        a <= 32,
        0 < ch.len() < a,
        pow2(a) <= usize::MAX,
        v.len() == pow2(a),
        first.dom() == opened_positions(base, pow2((a - 1) as nat) as int).to_set(),
        forall|p: usize| #[trigger] first.contains_key(p) ==> first[p] == v[p as int],
        folded.len() + 1 == ch.len(),
        forall|k: int|
            0 <= k < folded.len() ==> level_opened(
                #[trigger] folded[k],
                v,
                a,
                ch,
                base,
                (k + 1) as nat,
            ),
    ensures
        values_present(first, folded, ch.len(), a, base),
        queries_consistent(first, folded, level(v, a, ch, ch.len()), ch, a, base),
{
    let last = level(v, a, ch, ch.len());
    assert forall|p: usize|
        opened_positions(base, pow2((a - 1) as nat) as int).contains(
            p,
        ) implies #[trigger] first.contains_key(p) by {
        assert(opened_positions(base, pow2((a - 1) as nat) as int).to_set().contains(p));
    }
    assert forall|j: int, p: usize|
        0 <= j < ch.len() - 1 && opened_positions(
            base,
            pow2((a - j - 2) as nat) as int,
        ).contains(p) implies #[trigger] folded[j].values@.contains_key(p)
        && folded[j].values@[p]@.len() > 0 by {
        let op = folded[j];
        assert(level_opened(op, v, a, ch, base, (j + 1) as nat));
        assert((a - (j + 1) - 1) as nat == (a - j - 2) as nat);
        assert(opened_positions(base, pow2((a - j - 2) as nat) as int).to_set().contains(p));
        assert(op.values@.contains_key(p));
    }
    assert forall|i: int, k: int|
        0 <= i < base.len() && 0 <= k < ch.len() implies #[trigger] fold_consistent(
        first,
        folded,
        last,
        ch,
        a,
        base[i] as int,
        k,
    ) by {
        let half = pow2((a - k - 1) as nat) as int;
        multilinear::lemma_pow2_step((a - k) as nat);
        multilinear::lemma_pow2_mono((a - k) as nat, a);
        let pos = base[i] as int % half;
        vstd::arithmetic::div_mod::lemma_mod_bound(base[i] as int, half);
        lemma_opened_positions(base, half);
        let lv = level(v, a, ch, k as nat);
        lemma_level_len(v, a, ch, k as nat);
        lemma_value_honest(first, folded, v, ch, a, base, k, pos);
        lemma_value_honest(first, folded, v, ch, a, base, k, pos + half);
        let next = level(v, a, ch, (k + 1) as nat);
        assert(next == fold_codeword(lv, (a - k) as nat, ch[k]));
        assert(next[pos] == fold_pair(
            lv[pos],
            lv[pos + half],
            ch[k],
            twiddle((a - k) as nat, pos as nat),
        ));
        if k + 1 < ch.len() {
            lemma_next_position(base, a, k as nat, i);
            lemma_value_honest(first, folded, v, ch, a, base, k + 1, pos);
        }
    }
}

proof fn lemma_value_honest(
    first: Map<usize, GoldilocksExt2>,
    folded: Seq<RoundOpening<GoldilocksExt2>>,
    v: Seq<GoldilocksExt2>,
    ch: Seq<GoldilocksExt2>,
    a: nat,
    base: Seq<usize>,
    k: int,
    p: int,
)
    requires
        0 <= k < ch.len(),
        ch.len() < a,
        folded.len() + 1 == ch.len(),
        0 <= p <= usize::MAX,
        opened_positions(base, pow2((a - k - 1) as nat) as int).contains(p as usize),
        first.dom() == opened_positions(base, pow2((a - 1) as nat) as int).to_set(),
        forall|p: usize| #[trigger] first.contains_key(p) ==> first[p] == v[p as int],
        forall|k: int|
            0 <= k < folded.len() ==> level_opened(
                #[trigger] folded[k],
                v,
                a,
                ch,
                base,
                (k + 1) as nat,
            ),
    ensures
        opened_value(first, folded, k, p) == level(v, a, ch, k as nat)[p],
{
    let positions = opened_positions(base, pow2((a - k - 1) as nat) as int);
    assert(positions.to_set().contains(p as usize));
    if k == 0 {
        assert(first.contains_key(p as usize));
    } else {
        let op = folded[k - 1];
        assert(level_opened(op, v, a, ch, base, (k - 1 + 1) as nat));
        assert(op.values@.contains_key(p as usize));
    }
}

/// Folding a codeword folds the encoded coefficients.
pub proof fn lemma_fold_encodes(c: Seq<GoldilocksExt2>, m: nat, a: nat, r: GoldilocksExt2)
    requires
        c.len() == pow2(m),
        algebra::all_valid(c),
        1 <= m,
        1 <= a <= 32,
    ensures
        fold_codeword(encoding(c, a), a, r) == encoding(
            multilinear::fold_low(c, r),
            (a - 1) as nat,
        ),
{
    multilinear::lemma_pow2_step(m);
    multilinear::lemma_pow2_step(a);
    let v = encoding(c, a);
    let h = v.len() / 2;
    let left = fold_codeword(v, a, r);
    let right = encoding(multilinear::fold_low(c, r), (a - 1) as nat);
    assert forall|i: int| 0 <= i < h implies #[trigger] left[i] == right[i] by {
        lemma_fold_encodes_at(c, m, a, r, i as nat);
    }
    assert(left =~= right);
}

proof fn lemma_fold_encodes_at(
    c: Seq<GoldilocksExt2>,
    m: nat,
    a: nat,
    r: GoldilocksExt2,
    i: nat,
)
    requires
        c.len() == pow2(m),
        algebra::all_valid(c),
        1 <= m,
        1 <= a <= 32,
        i < pow2((a - 1) as nat),
    ensures
        fold_pair(
            polynomial::poly_eval(c, domain::domain_point(a, i)),
            polynomial::poly_eval(c, domain::domain_point(a, i + pow2((a - 1) as nat))),
            r,
            twiddle(a, i),
        ) == polynomial::poly_eval(
            multilinear::fold_low(c, r),
            domain::domain_point((a - 1) as nat, i),
        ),
{
    let h = pow2((a - 1) as nat);
    let g = domain::up(domain::root(a));
    let x = domain::pow(g, i);
    let m1 = GoldilocksExt2::zero() - GoldilocksExt2::one();
    multilinear::lemma_pow2_step(m);
    let n = pow2((m - 1) as nat);
    domain::lemma_pow_valid(g, i);
    // the partner point is -x
    domain::lemma_pow_add(g, i, h);
    domain::lemma_root_half(a);
    domain::lemma_up_pow(domain::root(a), h);
    domain::lemma_up(Goldilocks::zero(), Goldilocks::one());
    assert(domain::pow(g, h) == m1);
    GoldilocksExt2::law_mul_comm(x, m1);
    assert(domain::domain_point(a, i + h) == m1 * x);
    domain::lemma_even_odd(c, x, n);
    domain::lemma_even_odd_neg(c, x, n);
    let y = x * x;
    let e = polynomial::poly_eval(gkr::evens(c), y);
    let o = polynomial::poly_eval(gkr::odds(c), y);
    polynomial::poly_eval_valid(gkr::evens(c), y);
    polynomial::poly_eval_valid(gkr::odds(c), y);
    let w = x * o;
    let two = GoldilocksExt2::embed(2);
    let half = two.inv();
    let t = twiddle(a, i);
    lemma_two_nonzero();
    GoldilocksExt2::law_inv(two);
    GoldilocksExt2::law_valid(x, o);
    // (e + w) + (e - w) == e two
    assert((e + w) + (e - w) == e * two) by {
        GoldilocksExt2::law_sub(e, w);
        algebra::add_four(e, w, e, w.spec_neg());
        GoldilocksExt2::law_sub(w, w);
        GoldilocksExt2::law_valid(e, e);
        GoldilocksExt2::law_add_zero(e + e);
        GoldilocksExt2::law_distrib(e, GoldilocksExt2::one(), GoldilocksExt2::one());
        GoldilocksExt2::law_mul_one(e);
    }
    // (e + w) - (e - w) == w two
    assert((e + w) - (e - w) == w * two) by {
        GoldilocksExt2::law_sub(e, w);
        algebra::sub_four(e, w, e, w.spec_neg());
        algebra::sub_self(e);
        GoldilocksExt2::law_sub(w, w.spec_neg());
        domain::lemma_neg_neg(w);
        GoldilocksExt2::law_valid(w, w);
        algebra::zero_add(w + w);
        GoldilocksExt2::law_distrib(w, GoldilocksExt2::one(), GoldilocksExt2::one());
        GoldilocksExt2::law_mul_one(w);
    }
    // the even part
    GoldilocksExt2::law_mul_assoc(e, two, half);
    GoldilocksExt2::law_mul_one(e);
    assert((e * two) * half == e);
    // the odd part
    lemma_root_nonzero(a);
    GoldilocksExt2::law_inv(g);
    domain::lemma_pow_product(g, g.inv(), i);
    domain::lemma_pow_one::<GoldilocksExt2>(i);
    assert(x * t == GoldilocksExt2::one());
    assert(((w * two) * t) * half == o) by {
        algebra::mul_swap(w, two, t);
        GoldilocksExt2::law_mul_assoc(w * t, two, half);
        GoldilocksExt2::law_valid(w, t);
        GoldilocksExt2::law_mul_one(w * t);
        algebra::mul_swap(x, o, t);
        algebra::one_mul(o);
    }
    // the folded coefficients
    let (ev, od) = (gkr::evens(c), gkr::odds(c));
    let k = GoldilocksExt2::one() - r;
    let f = multilinear::fold_low(c, r);
    assert forall|j: int| 0 <= j < f.len() implies #[trigger] f[j] == k * ev[j] + r * od[j] by {
        assert(c[2 * j].valid());
        algebra::lerp_weighted(c[2 * j], c[2 * j + 1], r);
    }
    assert(f =~= polynomial::coef_add(
        polynomial::coef_scale(k, ev),
        polynomial::coef_scale(r, od),
    ));
    polynomial::eval_add(polynomial::coef_scale(k, ev), polynomial::coef_scale(r, od), y);
    polynomial::eval_scale(k, ev, y);
    polynomial::eval_scale(r, od, y);
    // the squared point
    domain::lemma_root_square(a);
    domain::lemma_up(domain::root(a), domain::root(a));
    domain::lemma_pow_product(g, g, i);
    assert(domain::domain_point((a - 1) as nat, i) == y);
}

/// Every level encodes the folded coefficients.
pub proof fn lemma_level_encodes(
    c: Seq<GoldilocksExt2>,
    m: nat,
    a: nat,
    ch: Seq<GoldilocksExt2>,
    k: nat,
)
    requires
        c.len() == pow2(m),
        algebra::all_valid(c),
        k <= m,
        k <= ch.len(),
        m <= a <= 32,
    ensures
        level(encoding(c, a), a, ch, k) == encoding(
            multilinear::fold_all(c, ch.take(k as int)),
            (a - k) as nat,
        ),
        multilinear::fold_all(c, ch.take(k as int)).len() == pow2((m - k) as nat),
        algebra::all_valid(multilinear::fold_all(c, ch.take(k as int))),
    decreases k,
{
    if k == 0 {
        assert(ch.take(0) =~= Seq::<GoldilocksExt2>::empty());
    } else {
        let j = (k - 1) as nat;
        lemma_level_encodes(c, m, a, ch, j);
        let p = multilinear::fold_all(c, ch.take(j as int));
        lemma_fold_encodes(p, (m - j) as nat, (a - j) as nat, ch[k - 1]);
        assert(ch.take(k as int) =~= ch.take(j as int).push(ch[k - 1]));
        multilinear::lemma_fold_all_push(c, ch.take(j as int), ch[k - 1]);
        multilinear::lemma_pow2_step((m - j) as nat);
        multilinear::lemma_fold_low_valid(p, ch[k - 1]);
    }
}

/// After all folds the codeword is constant: the polynomial's value at the
/// challenges.
pub proof fn lemma_final_constant(
    c: Seq<GoldilocksExt2>,
    m: nat,
    a: nat,
    ch: Seq<GoldilocksExt2>,
    i: int,
)
    requires
        c.len() == pow2(m),
        algebra::all_valid(c),
        ch.len() == m,
        m <= a <= 32,
        0 <= i < pow2((a - m) as nat),
    ensures
        level(encoding(c, a), a, ch, m)[i] == multilinear::mle(c, ch),
{
    lemma_level_encodes(c, m, a, ch, m);
    assert(ch.take(m as int) =~= ch);
    multilinear::lemma_pow2_zero();
    let f = multilinear::fold_all(c, ch);
    let x = domain::domain_point((a - m) as nat, i as nat);
    assert(f.drop_first() =~= Seq::<GoldilocksExt2>::empty());
    assert(polynomial::poly_eval(f.drop_first(), x) == GoldilocksExt2::zero());
    algebra::mul_zero(x);
    assert(f[0].valid());
    GoldilocksExt2::law_add_zero(f[0]);
}

/// If a shift of both parts of a pair leaves their mean, the mean of the shifts is zero.
proof fn lemma_mean_shift(
    even: (GoldilocksExt2, GoldilocksExt2),
    odd: (GoldilocksExt2, GoldilocksExt2),
    k: GoldilocksExt2,
    s: GoldilocksExt2,
    r: GoldilocksExt2,
)
    requires
        even.0.valid(),
        even.1.valid(),
        k.valid(),
        k != GoldilocksExt2::zero(),
        even.1 + k == even.0,
        odd.1 + k * s == odd.0,
        gkr::mean(even.0, odd.0, r) == gkr::mean(even.1, odd.1, r),
    ensures
        gkr::mean(GoldilocksExt2::one(), s, r) == GoldilocksExt2::zero(),
{
    let (one, zero) = (GoldilocksExt2::one(), GoldilocksExt2::zero());
    let m = algebra::lerp(one, s, r);
    let z = algebra::lerp(k, k * s, r);
    let w = algebra::lerp(even.1, odd.1, r);
    GoldilocksExt2::law_valid(even.1, r * (odd.1 - even.1));
    GoldilocksExt2::law_valid(k, r * (k * s - k));
    GoldilocksExt2::law_valid(one, r * (s - one));
    algebra::lerp_weighted(even.0, odd.0, r);
    algebra::lerp_weighted(even.1, odd.1, r);
    algebra::lerp_weighted(one, s, r);
    algebra::lerp_add(even.1, odd.1, k, k * s, r);
    algebra::zero_add(w);
    GoldilocksExt2::law_add_comm(w, z);
    algebra::add_cancel(z, zero, w);
    algebra::one_mul(k);
    algebra::lerp_scale(k, one, s, r);
    if m != zero {
        algebra::mul_nonzero(k, m);
    }
}

/// The two values at a domain point and its negative bind the fold: if one of them
/// changes and the fold does not, the challenge solves `(1 - r) + r t == 0`, or
/// `(1 - r) - r t == 0` for the second value.
pub proof fn lemma_fold_bound(
    x: GoldilocksExt2,
    y: GoldilocksExt2,
    v: GoldilocksExt2,
    r: GoldilocksExt2,
    t: GoldilocksExt2,
)
    requires
        x.valid(),
        y.valid(),
        v.valid(),
    ensures
        v != x && fold_pair(x, y, r, t) == fold_pair(v, y, r, t) ==> gkr::mean(
            GoldilocksExt2::one(),
            t,
            r,
        ) == GoldilocksExt2::zero(),
        v != y && fold_pair(x, y, r, t) == fold_pair(x, v, r, t) ==> gkr::mean(
            GoldilocksExt2::one(),
            t.spec_neg(),
            r,
        ) == GoldilocksExt2::zero(),
{
    let two = GoldilocksExt2::embed(2);
    let h = two.inv();
    lemma_two_nonzero();
    GoldilocksExt2::law_inv(two);
    if h == GoldilocksExt2::zero() {
        algebra::mul_zero(two);
        GoldilocksExt2::law_nontrivial();
    }
    if v != x && fold_pair(x, y, r, t) == fold_pair(v, y, r, t) {
        let d = x - v;
        let k = d * h;
        GoldilocksExt2::law_valid(x, v);
        GoldilocksExt2::law_valid(d, h);
        GoldilocksExt2::law_valid(x + y, h);
        GoldilocksExt2::law_valid(v + y, h);
        if d == GoldilocksExt2::zero() {
            algebra::sub_zero(x, v);
        }
        algebra::mul_nonzero(d, h);
        algebra::sub_add(x, v);
        // (v + y) + d == x + y
        GoldilocksExt2::law_add_comm(v + y, d);
        GoldilocksExt2::law_add_assoc(d, v, y);
        algebra::distrib_right(v + y, d, h);
        // (v - y) + d == x - y
        GoldilocksExt2::law_sub(v, y);
        GoldilocksExt2::law_sub(x, y);
        GoldilocksExt2::law_add_comm(v - y, d);
        GoldilocksExt2::law_add_assoc(d, v, y.spec_neg());
        algebra::distrib_right(v - y, d, t);
        algebra::distrib_right((v - y) * t, d * t, h);
        // k * t == (d * t) * h
        GoldilocksExt2::law_mul_assoc(d, h, t);
        GoldilocksExt2::law_mul_comm(h, t);
        GoldilocksExt2::law_mul_assoc(d, t, h);
        lemma_mean_shift(
            ((x + y) * h, (v + y) * h),
            (((x - y) * t) * h, ((v - y) * t) * h),
            k,
            t,
            r,
        );
    }
    if v != y && fold_pair(x, y, r, t) == fold_pair(x, v, r, t) {
        let d = y - v;
        let k = d * h;
        let n = t.spec_neg();
        let (o, p) = (((x - y) * t) * h, ((x - v) * t) * h);
        GoldilocksExt2::law_valid(y, v);
        GoldilocksExt2::law_valid(d, h);
        GoldilocksExt2::law_valid(x + y, h);
        GoldilocksExt2::law_valid(x + v, h);
        GoldilocksExt2::law_valid((x - y) * t, h);
        if d == GoldilocksExt2::zero() {
            algebra::sub_zero(y, v);
        }
        algebra::mul_nonzero(d, h);
        algebra::sub_add(y, v);
        // (x + v) + d == x + y
        GoldilocksExt2::law_add_assoc(x, v, d);
        algebra::distrib_right(x + v, d, h);
        // (x - y) + d == x - v
        algebra::sub_add(x, y);
        GoldilocksExt2::law_sub(y, v);
        GoldilocksExt2::law_sub(x, v);
        GoldilocksExt2::law_add_assoc(x - y, y, v.spec_neg());
        algebra::distrib_right(x - y, d, t);
        algebra::distrib_right((x - y) * t, d * t, h);
        // k * t == (d * t) * h, so o + k * t == p and p + k * n == o
        GoldilocksExt2::law_mul_assoc(d, h, t);
        GoldilocksExt2::law_mul_comm(h, t);
        GoldilocksExt2::law_mul_assoc(d, t, h);
        algebra::neg_mul(k, t);
        GoldilocksExt2::law_sub(k * t, k * t);
        GoldilocksExt2::law_add_assoc(o, k * t, k * n);
        GoldilocksExt2::law_add_zero(o);
        lemma_mean_shift(((x + y) * h, (x + v) * h), (o, p), k, n, r);
    }
}

/// The queries are enough for an error of `2^-100`, at `2^-rate` each, and one fewer would
/// not be.
pub proof fn law_query_count(code_rate: nat)
    requires
        code_rate > 0,
    ensures
        query_count(code_rate) * code_rate >= 100,
        (query_count(code_rate) - 1) * code_rate < 100,
{
    let (c, r) = (100 + code_rate - 1, code_rate as int);
    let q = c / r;
    vstd::arithmetic::div_mod::lemma_fundamental_div_mod(c, r);
    vstd::arithmetic::div_mod::lemma_mod_bound(c, r);
    vstd::arithmetic::div_mod::lemma_div_pos_is_pos(c, r);
    assert(q * r == r * q) by (nonlinear_arith);
    assert((q - 1) * r == q * r - r) by (nonlinear_arith);
}

/// The drawn queries are all in the lower half, in increasing order, and a drawn integer
/// that lies there is itself a query.
pub proof fn law_query_indices(ints: Seq<usize>, half: int, v: usize)
    requires
        0 < half <= usize::MAX,
    ensures
        leaves::increasing(query_indices(ints, half)),
        query_indices(ints, half).contains(v) ==> v < half,
        query_indices(ints, half).contains(v) <==> exists|i: int|
            0 <= i < ints.len() && #[trigger] ints[i] as int % half == v,
        v < half && ints.contains(v) ==> query_indices(ints, half).contains(v),
{
    let r = Seq::new(ints.len(), |i: int| (ints[i] as int % half) as usize);
    leaves::lemma_sorted_distinct(r, half);
    assert forall|i: int| 0 <= i < ints.len() implies 0 <= #[trigger] ints[i] as int % half < half
        by {
        vstd::arithmetic::div_mod::lemma_mod_bound(ints[i] as int, half);
    }
    if r.contains(v) {
        let i = choose|i: int| 0 <= i < r.len() && r[i] == v;
        assert(ints[i] as int % half == v);
    }
    if exists|i: int| 0 <= i < ints.len() && #[trigger] ints[i] as int % half == v {
        let i = choose|i: int| 0 <= i < ints.len() && #[trigger] ints[i] as int % half == v;
        assert(r[i] == v);
    }
    if v < half && ints.contains(v) {
        let i = choose|i: int| 0 <= i < ints.len() && ints[i] == v;
        vstd::arithmetic::div_mod::lemma_small_mod(v as nat, half as nat);
        assert(ints[i] as int % half == v);
    }
}

/// The positions that a level opens are the two of every query and no others: the query's
/// position in the lower half, and the one half a level above it.
pub proof fn law_positions_opened(base: Seq<usize>, half: int, v: usize)
    requires
        0 < half <= usize::MAX / 2,
    ensures
        opened_positions(base, half).contains(v) <==> exists|i: int|
            0 <= i < base.len() && (v == #[trigger] base[i] as int % half || v == base[i] as int
                % half + half),
{
    leaves::lemma_sorted_distinct(query_pairs(base, half), 2 * half);
    lemma_pairs_contain(base, half, v);
}

proof fn lemma_pairs_contain(base: Seq<usize>, half: int, v: usize)
    requires
        0 < half <= usize::MAX / 2,
    ensures
        query_pairs(base, half).contains(v) <==> exists|i: int|
            0 <= i < base.len() && (v == #[trigger] base[i] as int % half || v == base[i] as int
                % half + half),
    decreases base.len(),
{
    let all = query_pairs(base, half);
    if base.len() > 0 {
        let t = base.drop_last();
        let before = query_pairs(t, half);
        lemma_pairs_contain(t, half, v);
        let b = base.last();
        let n = before.len() as int;
        vstd::arithmetic::div_mod::lemma_mod_bound(b as int, half);
        assert(all[n] == b as int % half && all[n + 1] == b as int % half + half);
        if all.contains(v) {
            let k = choose|k: int| 0 <= k < all.len() && all[k] == v;
            if k < n {
                assert(before[k] == v);
                let i = choose|i: int|
                    0 <= i < t.len() && (v == #[trigger] t[i] as int % half || v == t[i] as int
                        % half + half);
                assert(base[i] == t[i]);
            } else {
                assert(base[base.len() - 1] == b);
            }
        }
        if exists|i: int|
            0 <= i < base.len() && (v == #[trigger] base[i] as int % half || v == base[i] as int
                % half + half) {
            let i = choose|i: int|
                0 <= i < base.len() && (v == #[trigger] base[i] as int % half || v
                    == base[i] as int % half + half);
            if i < t.len() {
                assert(t[i] == base[i]);
                assert(before.contains(v));
                let k = choose|k: int| 0 <= k < before.len() && before[k] == v;
                assert(all[k] == v);
            } else {
                assert(all[n] == v || all[n + 1] == v);
            }
        }
    }
}

} // verus!
