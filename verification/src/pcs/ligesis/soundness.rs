//! What an accepted opening shows, whoever made it.
//!
//! The shared opening claims a value of the hash matrix, of the opened bits and of the
//! combined row. Where these are true, the sumchecks carry the claimed value back to
//! them: it is the value of the combined row at the column part of the point, the row's
//! encoding agrees with the bits recomposed by the row part of the point, and the opened
//! digest columns are the hashes of the bits, unless a draw lets a false claim pass.
use vstd::prelude::*;
use vstd::arithmetic::power2::pow2;
use crate::algebra;
use crate::field::{Field, Goldilocks, GoldilocksExt2};
use crate::logup::frac_sum;
use crate::multilinear;
use crate::pcs::basefold::BatchClaim;
use crate::pcs::domain;
use crate::pcs::domain::LeafField;
use crate::pcs::leaves;
use crate::pcs::subset_sum;
use crate::polynomial;
use crate::utils::merkle;
use crate::utils::sumcheck;
use crate::utils::sumcheck::SumcheckProof;
use crate::views;
use super::completeness;
use super::identities;
use super::opening;
use super::opening::{Draws, LigesisProof};
use super::tables;

verus! {

/// A sumcheck has a round for every challenge and holds canonical values.
pub open spec fn sumcheck_shaped(
    sc: SumcheckProof<GoldilocksExt2>,
    ch: Seq<GoldilocksExt2>,
) -> bool {
    &&& sc.round_polys@.len() == ch.len()
    &&& forall|i: int|
        0 <= i < sc.rounds().len() ==> algebra::all_valid(#[trigger] sc.rounds()[i])
    &&& algebra::all_valid(sc.final_evals@)
}

/// The proof's sumchecks have their shapes, and its values are canonical.
pub open spec fn proof_shaped(
    proof: LigesisProof<Goldilocks, GoldilocksExt2>,
    d: Draws,
) -> bool {
    &&& sumcheck_shaped(proof.sc_binary, d.bin)
    &&& sumcheck_shaped(proof.sc_hash, d.hash)
    &&& sumcheck_shaped(proof.sc_recon, d.recon)
    &&& sumcheck_shaped(proof.sc_table, d.table)
    &&& sumcheck_shaped(proof.sc_rslink, d.rs)
    &&& sumcheck_shaped(proof.sc_bi_batch, d.bi)
    &&& sumcheck_shaped(proof.sc_a_batch, d.a)
    &&& proof.y.valid()
}

/// An accepted opening of a supported shape.
pub open spec fn accepted_opening(
    proof: LigesisProof<Goldilocks, GoldilocksExt2>,
    com_a: Seq<u8>,
    root: Seq<u8>,
    log_m: nat,
    log_n: nat,
    z: Seq<GoldilocksExt2>,
    d: Draws,
) -> bool {
    &&& super::supported(log_m, log_n)
    &&& completeness::draws_shape(d, log_m, log_n)
    &&& proof_shaped(proof, d)
    &&& proof.accepted(com_a, root, log_m, log_n, z, d)
}

/// The value that the shared opening claims of the combined row is that of `v`.
pub open spec fn row_opened(
    proof: LigesisProof<Goldilocks, GoldilocksExt2>,
    log_n: nat,
    d: Draws,
    v: Seq<GoldilocksExt2>,
) -> bool {
    &&& v.len() == pow2(log_n)
    &&& algebra::all_valid(v)
    &&& proof.sc_a_batch.final_evals@[0] == multilinear::mle(v, d.a.reverse())
}

/// The value that the shared opening claims of the opened bits is that of `b`.
pub open spec fn bits_opened(
    proof: LigesisProof<Goldilocks, GoldilocksExt2>,
    log_m: nat,
    d: Draws,
    b: Seq<GoldilocksExt2>,
) -> bool {
    &&& b.len() == pow2(13 + log_m)
    &&& algebra::all_valid(b)
    &&& proof.sc_bi_batch.final_evals@[0] == multilinear::mle(b, d.bi.reverse())
}

/// The value that the shared opening claims of the hash matrix is that of `rows`.
pub open spec fn matrix_opened(
    proof: LigesisProof<Goldilocks, GoldilocksExt2>,
    log_m: nat,
    d: Draws,
    rows: Seq<Seq<GoldilocksExt2>>,
) -> bool {
    &&& rows.len() == 32
    &&& forall|r: int| 0 <= r < rows.len() ==> (#[trigger] rows[r]).len() == pow2(6 + log_m)
    &&& forall|r: int| 0 <= r < rows.len() ==> algebra::all_valid(#[trigger] rows[r])
    &&& proof.sc_hash.final_evals@[0] == multilinear::mle(
        subset_sum::flat_rows(rows, pow2(6 + log_m)),
        d.hash.reverse() + d.alpha2,
    )
}

/// A sumcheck of two factors is one of their inner product, unless a draw lets a false
/// claim pass.
proof fn lemma_dot_sound(
    claim: GoldilocksExt2,
    sc: SumcheckProof<GoldilocksExt2>,
    p: Seq<GoldilocksExt2>,
    q: Seq<GoldilocksExt2>,
    ch: Seq<GoldilocksExt2>,
)
    requires
        sumcheck_shaped(sc, ch),
        opening::sumcheck_accepted(claim, sc, ch),
        p.len() == pow2(ch.len()),
        q.len() == pow2(ch.len()),
        algebra::all_valid(p),
        algebra::all_valid(q),
        sc.final_evals@.len() == 2,
        sc.final_evals@[0] == multilinear::mle(p, ch.reverse()),
        sc.final_evals@[1] == multilinear::mle(q, ch.reverse()),
    ensures
        claim == algebra::sum(p.len(), |i: int| p[i] * q[i]) || sumcheck::lucky(
            seq![p, q],
            sc.rounds(),
            ch,
        ),
{
    let polys = seq![p, q];
    let finals = sc.final_evals@;
    assert(polys[0] == p && polys[1] == q);
    assert(sumcheck::polys_shape(polys, ch.len()));
    assert(sc.rounds().len() == sc.round_polys@.len());
    assert forall|j: int| 0 <= j < polys.len() implies #[trigger] finals[j] == multilinear::mle(
        polys[j],
        ch.reverse(),
    ) by {
        if j == 0 {
        } else {
            assert(j == 1);
        }
    }
    sumcheck::law_sound(claim, polys, sc.rounds(), finals, ch);
    identities::lemma_hypercube_dot(p, q);
    let f = |i: int| algebra::prod(polys.len(), |j: int| polys[j][i]);
    algebra::sum_ext(p.len(), f, |i: int| sumcheck::vertex_product(polys, i));
}

proof fn lemma_two_powers(f: spec_fn(int) -> GoldilocksExt2)
    requires
        f(0).valid(),
    ensures
        algebra::sum(2, f) == f(0) + f(1),
{
    reveal_with_fuel(algebra::sum, 3);
    algebra::zero_add(f(0));
}

proof fn lemma_eq_value_valid(a: Seq<GoldilocksExt2>, b: Seq<GoldilocksExt2>)
    ensures
        multilinear::eq_value(a, b).valid(),
{
    let n = if a.len() <= b.len() {
        a.len()
    } else {
        b.len()
    };
    algebra::prod_valid(n, |i: int| multilinear::eq_factor(a[i], b[i]));
}

/// `vals[0] + gamma vals[1]`.
proof fn lemma_pair_horner(a: GoldilocksExt2, b: GoldilocksExt2, gamma: GoldilocksExt2)
    requires
        a.valid(),
        b.valid(),
    ensures
        tables::horner_value(seq![a, b], gamma) == a + gamma * b,
{
    reveal_with_fuel(tables::horner_value, 4);
    let s = seq![a, b];
    assert(s.drop_first() =~= seq![b]);
    assert(seq![b].drop_first() =~= Seq::<GoldilocksExt2>::empty());
    algebra::mul_zero(gamma);
    algebra::zero_add(b);
    GoldilocksExt2::law_mul_comm(b, gamma);
    GoldilocksExt2::law_add_comm(gamma * b, a);
}

/// The draws of the reduction of the combined row let a false claim pass.
pub open spec fn row_lucky(
    proof: LigesisProof<Goldilocks, GoldilocksExt2>,
    log_n: nat,
    z: Seq<GoldilocksExt2>,
    d: Draws,
    v: Seq<GoldilocksExt2>,
) -> bool {
    let z2 = z.take(log_n as int);
    let claims = (proof.y, proof.sc_rslink.final_evals@[0]);
    let truth = (multilinear::mle(v, z2), multilinear::mle(v, d.rs.reverse()));
    ||| frac_sum::pairs_meet(
        claims,
        truth,
        claims.0 + d.gamma_a * claims.1,
        truth.0 + d.gamma_a * truth.1,
    )
    ||| sumcheck::lucky(
        seq![v, tables::combined_eq(seq![z2, d.rs.reverse()], d.gamma_a)],
        proof.sc_a_batch.rounds(),
        d.a,
    )
}

/// The claimed value is bound to the point and the combined row: it is the value of the
/// row at the column part of the point, and the link is opened at its own point, unless a
/// draw lets a false claim pass.
pub proof fn law_row_sound(
    proof: LigesisProof<Goldilocks, GoldilocksExt2>,
    com_a: Seq<u8>,
    root: Seq<u8>,
    log_m: nat,
    log_n: nat,
    z: Seq<GoldilocksExt2>,
    d: Draws,
    v: Seq<GoldilocksExt2>,
)
    requires
        accepted_opening(proof, com_a, root, log_m, log_n, z, d),
        row_opened(proof, log_n, d, v),
    ensures
        proof.y == multilinear::mle(v, z.take(log_n as int))
            && proof.sc_rslink.final_evals@[0] == multilinear::mle(v, d.rs.reverse()) || row_lucky(
            proof,
            log_n,
            z,
            d,
            v,
        ),
{
    let z2 = z.take(log_n as int);
    let rs = d.rs.reverse();
    let pts = seq![z2, rs];
    let vals = seq![multilinear::mle(v, z2), multilinear::mle(v, rs)];
    let link = proof.sc_rslink.final_evals@[0];
    assert(pts[0].len() == log_n && pts[1].len() == log_n);
    assert(pts =~= opening::points_a(z2, d));
    assert forall|j: int| 0 <= j < pts.len() implies #[trigger] vals[j] == multilinear::mle(
        v,
        pts[j],
    ) by {
        if j == 0 {
        } else {
            assert(j == 1);
        }
    }
    completeness::lemma_batched_points(v, pts, d.gamma_a, vals, d.a.reverse());
    lemma_dot_sound(
        proof.claim_a(d),
        proof.sc_a_batch,
        v,
        tables::combined_eq(pts, d.gamma_a),
        d.a,
    );
    assert(link.valid());
    identities::lemma_mle_valid(v, z2);
    identities::lemma_mle_valid(v, rs);
    lemma_pair_horner(proof.y, link, d.gamma_a);
    lemma_pair_horner(vals[0], vals[1], d.gamma_a);
    let g = tables::combined_eq(pts, d.gamma_a);
    algebra::sum_ext(v.len(), |i: int| v[i] * g[i], |i: int| v[i] * g[i]);
}

/// One proof that is accepted under the same draws at two points gives the column parts
/// of both the same weight at the reduced point, and the row parts the same weight in the
/// recomposition.
pub proof fn law_point_bound(
    proof: LigesisProof<Goldilocks, GoldilocksExt2>,
    com_a: Seq<u8>,
    root: Seq<u8>,
    log_m: nat,
    log_n: nat,
    z: Seq<GoldilocksExt2>,
    y: Seq<GoldilocksExt2>,
    d: Draws,
)
    requires
        proof.accepted(com_a, root, log_m, log_n, z, d),
        proof.accepted(com_a, root, log_m, log_n, y, d),
    ensures
        multilinear::eq_value(z.take(log_n as int), d.a.reverse()) == multilinear::eq_value(
            y.take(log_n as int),
            d.a.reverse(),
        ),
        multilinear::mle(
            tables::recon_weights(
                multilinear::eq_table(z.skip(log_n as int)),
                super::bit_width(log_m),
            ),
            d.recon.reverse(),
        ) == multilinear::mle(
            tables::recon_weights(
                multilinear::eq_table(y.skip(log_n as int)),
                super::bit_width(log_m),
            ),
            d.recon.reverse(),
        ),
{
    let r = d.a.reverse();
    let (z2, y2, rs) = (z.take(log_n as int), y.take(log_n as int), d.rs.reverse());
    let (pz, py) = (opening::points_a(z2, d), opening::points_a(y2, d));
    let f = |j: int| domain::pow(d.gamma_a, j as nat) * multilinear::eq_value(pz[j], r);
    let g = |j: int| domain::pow(d.gamma_a, j as nat) * multilinear::eq_value(py[j], r);
    let (u, w) = (multilinear::eq_value(z2, r), multilinear::eq_value(y2, r));
    lemma_eq_value_valid(z2, r);
    lemma_eq_value_valid(y2, r);
    assert(f(0) == GoldilocksExt2::one() * u);
    assert(g(0) == GoldilocksExt2::one() * w);
    algebra::one_mul(u);
    algebra::one_mul(w);
    lemma_two_powers(f);
    lemma_two_powers(g);
    assert(pz[1] == py[1]);
    algebra::add_cancel(u, w, f(1));
}

/// The draws of the reduction of the bits let a false claim pass.
pub open spec fn bits_lucky(
    proof: LigesisProof<Goldilocks, GoldilocksExt2>,
    d: Draws,
    b: Seq<GoldilocksExt2>,
) -> bool {
    let points = seq![d.bin.reverse(), d.r2 + d.hash.reverse(), d.r2 + d.recon.reverse()];
    let claims = seq![
        proof.sc_binary.final_evals@[0],
        proof.sc_hash.final_evals@[1],
        proof.sc_recon.final_evals@[1],
    ];
    let truth = Seq::new(3, |j: int| multilinear::mle(b, points[j]));
    ||| claims != truth && tables::horner_value(claims, d.gamma_bi) == tables::horner_value(
        truth,
        d.gamma_bi,
    )
    ||| sumcheck::lucky(
        seq![b, tables::combined_eq(points, d.gamma_bi)],
        proof.sc_bi_batch.rounds(),
        d.bi,
    )
}

/// The values that the three checks of the bits end in are those of one table of bits at
/// the checks' own points, unless a draw lets a false claim pass.
pub proof fn law_bits_sound(
    proof: LigesisProof<Goldilocks, GoldilocksExt2>,
    com_a: Seq<u8>,
    root: Seq<u8>,
    log_m: nat,
    log_n: nat,
    z: Seq<GoldilocksExt2>,
    d: Draws,
    b: Seq<GoldilocksExt2>,
)
    requires
        accepted_opening(proof, com_a, root, log_m, log_n, z, d),
        bits_opened(proof, log_m, d, b),
    ensures
        proof.sc_binary.final_evals@[0] == multilinear::mle(b, d.bin.reverse())
            && proof.sc_hash.final_evals@[1] == multilinear::mle(b, d.r2 + d.hash.reverse())
            && proof.sc_recon.final_evals@[1] == multilinear::mle(b, d.r2 + d.recon.reverse())
            || bits_lucky(proof, d, b),
{
    let pts = seq![d.bin.reverse(), d.r2 + d.hash.reverse(), d.r2 + d.recon.reverse()];
    let truth = Seq::new(3, |j: int| multilinear::mle(b, pts[j]));
    let claims = seq![
        proof.sc_binary.final_evals@[0],
        proof.sc_hash.final_evals@[1],
        proof.sc_recon.final_evals@[1],
    ];
    assert(pts[0].len() == 13 + log_m && pts[1].len() == 13 + log_m && pts[2].len() == 13 + log_m);
    assert(pts =~= opening::points_bi(d));
    completeness::lemma_batched_points(b, pts, d.gamma_bi, truth, d.bi.reverse());
    lemma_dot_sound(
        proof.claim_bi(d),
        proof.sc_bi_batch,
        b,
        tables::combined_eq(pts, d.gamma_bi),
        d.bi,
    );
    let g = tables::combined_eq(pts, d.gamma_bi);
    algebra::sum_ext(b.len(), |i: int| b[i] * g[i], |i: int| b[i] * g[i]);
    if !bits_lucky(proof, d, b) {
        assert(claims == truth);
        assert(claims[0] == truth[0] && claims[1] == truth[1] && claims[2] == truth[2]);
    }
}

/// The draws of one of the checks of the bits let a false claim pass.
pub open spec fn checks_lucky(
    proof: LigesisProof<Goldilocks, GoldilocksExt2>,
    log_m: nat,
    log_n: nat,
    z: Seq<GoldilocksExt2>,
    d: Draws,
    rows: Seq<Seq<GoldilocksExt2>>,
    b: Seq<GoldilocksExt2>,
) -> bool {
    let low = multilinear::fold_all(b, d.r2);
    let less = Seq::new(b.len(), |i: int| b[i] - GoldilocksExt2::one());
    ||| sumcheck::lucky(
        seq![b, less, multilinear::eq_table(d.alpha1)],
        proof.sc_binary.rounds(),
        d.bin,
    )
    ||| sumcheck::lucky(
        seq![
            identities::combination(rows, multilinear::eq_table(d.alpha2), pow2(6 + log_m)),
            low,
        ],
        proof.sc_hash.rounds(),
        d.hash,
    )
    ||| sumcheck::lucky(
        seq![
            tables::recon_weights(
                multilinear::eq_table(z.skip(log_n as int)),
                super::bit_width(log_m),
            ),
            low,
        ],
        proof.sc_recon.rounds(),
        d.recon,
    )
}

/// The weight of bit `i` in the value of the polynomial at a row part `z1` of a point.
pub open spec fn bit_weight(z1: Seq<GoldilocksExt2>, i: int) -> GoldilocksExt2 {
    multilinear::eq_table(z1)[i / 64] * Goldilocks::embed(pow2((i % 64) as nat) as int).lift()
}

/// What the bits show: `b (b - 1)` vanishes at the first draws; the opened digest columns,
/// combined by the draws, are the hash rows, combined alike, against the bits at the
/// drawn columns; and the bits at the drawn columns, weighted by the row part of the
/// point and by their binary places, recompose the claimed entries of the encoded row;
/// unless a draw lets a false claim pass.
pub proof fn law_checks_sound(
    proof: LigesisProof<Goldilocks, GoldilocksExt2>,
    com_a: Seq<u8>,
    root: Seq<u8>,
    log_m: nat,
    log_n: nat,
    z: Seq<GoldilocksExt2>,
    d: Draws,
    rows: Seq<Seq<GoldilocksExt2>>,
    b: Seq<GoldilocksExt2>,
)
    requires
        accepted_opening(proof, com_a, root, log_m, log_n, z, d),
        matrix_opened(proof, log_m, d, rows),
        bits_opened(proof, log_m, d, b),
        !bits_lucky(proof, d, b),
        !checks_lucky(proof, log_m, log_n, z, d, rows, b),
    ensures
        multilinear::mle(
            Seq::new(b.len(), |i: int| b[i] * (b[i] - GoldilocksExt2::one())),
            d.alpha1,
        ) == GoldilocksExt2::zero(),
        algebra::sum(
            d.idx.len(),
            |k: int|
                multilinear::eq_table(d.r2)[k] * algebra::sum(
                    32,
                    |r: int|
                        multilinear::eq_table(d.alpha2)[r] * proof.h_cols@[leaves::sorted_distinct(
                            d.idx,
                        ).index_of(d.idx[k])]@[r].lift(),
                ),
        ) == algebra::sum(
            pow2(6 + log_m),
            |i: int|
                algebra::sum(32, |r: int| multilinear::eq_table(d.alpha2)[r] * rows[r][i])
                    * multilinear::fold_all(b, d.r2)[i],
        ),
        proof.y4 == algebra::sum(
            pow2(6 + log_m),
            |i: int| bit_weight(z.skip(log_n as int), i) * multilinear::fold_all(b, d.r2)[i],
        ),
{
    let low = multilinear::fold_all(b, d.r2);
    let n = pow2(6 + log_m);
    let one = GoldilocksExt2::one();
    super::lemma_width(log_m);
    opening::lemma_sizes(log_m, log_n);
    law_bits_sound(proof, com_a, root, log_m, log_n, z, d, b);
    multilinear::lemma_fold_all_len(b, d.r2, 13 + log_m);
    multilinear::lemma_fold_all_valid(b, d.r2);
    assert((13 + log_m - 7) as nat == 6 + log_m);
    assert(low.len() == n);
    let (hp, rp) = (d.hash.reverse(), d.recon.reverse());
    multilinear::lemma_fold_all_concat(b, d.r2, hp);
    multilinear::lemma_fold_all_concat(b, d.r2, rp);
    // binary
    lemma_binary_sound(proof, log_m, d, b);
    // hash
    let ea = multilinear::eq_table(d.alpha2);
    let g1 = identities::combination(rows, ea, n);
    identities::lemma_rows_eval(rows, hp, d.alpha2);
    assert forall|i: int| 0 <= i < g1.len() implies (#[trigger] g1[i]).valid() by {
        algebra::sum_valid(rows.len(), |r: int| ea[r] * rows[r][i]);
    }
    lemma_dot_sound(proof.hash_claim(d), proof.sc_hash, g1, low, d.hash);
    let f = |i: int| g1[i] * low[i];
    let g = |i: int| algebra::sum(32, |r: int| ea[r] * rows[r][i]) * low[i];
    algebra::sum_ext(n, f, g);
    opening::lemma_sorted_length(d.idx, pow2(log_n + 1) as int);
    assert forall|k: int| 0 <= k < d.idx.len() implies leaves::sorted_distinct(d.idx).contains(
        #[trigger] d.idx[k],
    ) by {
        assert(d.idx.contains(d.idx[k]));
    }
    lemma_hash_claim(proof, d);
    // recomposition
    let z1 = z.skip(log_n as int);
    let v = tables::recon_weights(multilinear::eq_table(z1), super::bit_width(log_m));
    assert forall|i: int| 0 <= i < v.len() implies (#[trigger] v[i]).valid() by {
        GoldilocksExt2::law_valid(
            multilinear::eq_table(z1)[i / 64],
            Goldilocks::embed(pow2((i % 64) as nat) as int).lift(),
        );
    }
    lemma_dot_sound(proof.y4, proof.sc_recon, v, low, d.recon);
    let h = |i: int| bit_weight(z1, i) * low[i];
    algebra::sum_ext(n, |i: int| v[i] * low[i], h);
}

proof fn lemma_hash_claim(proof: LigesisProof<Goldilocks, GoldilocksExt2>, d: Draws)
    requires
        proof.columns_fit(),
        d.idx.len() == super::NUM_COLS_OPENED,
        leaves::sorted_distinct(d.idx).len() == d.idx.len(),
        forall|k: int|
            0 <= k < d.idx.len() ==> leaves::sorted_distinct(d.idx).contains(#[trigger] d.idx[k]),
    ensures
        proof.hash_claim(d) == algebra::sum(
            d.idx.len(),
            |k: int|
                multilinear::eq_table(d.r2)[k] * algebra::sum(
                    32,
                    |r: int|
                        multilinear::eq_table(d.alpha2)[r] * proof.h_cols@[leaves::sorted_distinct(
                            d.idx,
                        ).index_of(d.idx[k])]@[r].lift(),
                ),
        ),
{
    let sorted = leaves::sorted_distinct(d.idx);
    let (e2, ea) = (multilinear::eq_table(d.r2), multilinear::eq_table(d.alpha2));
    let cols = crate::views::nested(proof.h_cols@);
    let f = |k: int|
        e2[k] * crate::pcs::basefold::compress_leaf(cols[sorted.index_of(d.idx[k])], ea);
    let g = |k: int|
        e2[k] * algebra::sum(
            32,
            |r: int| ea[r] * proof.h_cols@[sorted.index_of(d.idx[k])]@[r].lift(),
        );
    assert forall|k: int| 0 <= k < d.idx.len() implies #[trigger] f(k) == g(k) by {
        assert(sorted.contains(d.idx[k]));
        let p = sorted.index_of(d.idx[k]);
        assert(0 <= p < sorted.len());
        let leaf = proof.h_cols@[p]@;
        assert(proof.h_cols@[p]@.len() == super::C);
        assert(cols[p] == leaf);
        algebra::sum_ext(32, |j: int| ea[j] * leaf[j].lift(), |r: int| ea[r] * leaf[r].lift());
    }
    algebra::sum_ext(d.idx.len(), f, g);
}

proof fn lemma_binary_sound(
    proof: LigesisProof<Goldilocks, GoldilocksExt2>,
    log_m: nat,
    d: Draws,
    b: Seq<GoldilocksExt2>,
)
    requires
        proof.bits_accepted(d),
        sumcheck_shaped(proof.sc_binary, d.bin),
        d.bin.len() == 13 + log_m,
        d.alpha1.len() == 13 + log_m,
        b.len() == pow2(13 + log_m),
        algebra::all_valid(b),
        proof.sc_binary.final_evals@[0] == multilinear::mle(b, d.bin.reverse()),
        !sumcheck::lucky(
            seq![
                b,
                Seq::new(b.len(), |i: int| b[i] - GoldilocksExt2::one()),
                multilinear::eq_table(d.alpha1),
            ],
            proof.sc_binary.rounds(),
            d.bin,
        ),
    ensures
        multilinear::mle(
            Seq::new(b.len(), |i: int| b[i] * (b[i] - GoldilocksExt2::one())),
            d.alpha1,
        ) == GoldilocksExt2::zero(),
{
    let one = GoldilocksExt2::one();
    let less = Seq::new(b.len(), |i: int| b[i] - one);
    let e = multilinear::eq_table(d.alpha1);
    let polys = seq![b, less, e];
    let finals = proof.sc_binary.final_evals@;
    let pt = d.bin.reverse();
    multilinear::lemma_eq_table_len(d.alpha1);
    multilinear::lemma_eq_table_valid(d.alpha1);
    assert(less =~= opening::minus_one(b));
    identities::lemma_mle_minus_one(b, pt);
    multilinear::lemma_mle_eq_table(d.alpha1, pt);
    assert forall|i: int| 0 <= i < less.len() implies (#[trigger] less[i]).valid() by {
        GoldilocksExt2::law_valid(b[i], one);
    }
    assert(polys[0] == b && polys[1] == less && polys[2] == e);
    assert(sumcheck::polys_shape(polys, d.bin.len()));
    assert forall|j: int| 0 <= j < polys.len() implies algebra::all_valid(#[trigger] polys[j]) by {
        if j == 0 {
        } else if j == 1 {
        } else {
            assert(j == 2);
        }
    }
    assert forall|j: int| 0 <= j < polys.len() implies #[trigger] finals[j] == multilinear::mle(
        polys[j],
        pt,
    ) by {
        if j == 0 {
        } else if j == 1 {
        } else {
            assert(j == 2);
        }
    }
    assert(proof.sc_binary.rounds().len() == proof.sc_binary.round_polys@.len());
    sumcheck::law_sound(
        GoldilocksExt2::zero(),
        polys,
        proof.sc_binary.rounds(),
        finals,
        d.bin,
    );
    let s = Seq::new(b.len(), |i: int| b[i] * (b[i] - one));
    assert forall|i: int| 0 <= i < s.len() implies (#[trigger] s[i]).valid() by {
        GoldilocksExt2::law_valid(b[i], b[i] - one);
    }
    multilinear::lemma_mle_sum(s, d.alpha1);
    let f = |i: int| algebra::prod(polys.len(), |j: int| polys[j][i]);
    let g = |i: int| s[i] * e[i];
    assert forall|i: int| 0 <= i < b.len() implies #[trigger] f(i) == g(i) by {
        let h = |j: int| polys[j][i];
        assert(algebra::prod(0, h) == one);
        assert(algebra::prod(1, h) == algebra::prod(0, h) * h(0));
        assert(algebra::prod(2, h) == algebra::prod(1, h) * h(1));
        assert(algebra::prod(3, h) == algebra::prod(2, h) * h(2));
        assert(b[i].valid());
        algebra::one_mul(b[i]);
    }
    algebra::sum_ext(b.len(), f, g);
}

/// The draws of the checks of the encoded row let a false claim pass.
pub open spec fn encoding_lucky(
    proof: LigesisProof<Goldilocks, GoldilocksExt2>,
    log_n: nat,
    d: Draws,
    v: Seq<GoldilocksExt2>,
) -> bool {
    ||| sumcheck::lucky(
        seq![
            v,
            tables::encoding_weights(d.table.reverse(), log_n + 1, pow2(log_n)),
        ],
        proof.sc_rslink.rounds(),
        d.rs,
    )
    ||| sumcheck::lucky(
        seq![
            tables::selector(d.idx, multilinear::eq_table(d.r2), pow2(log_n + 1)),
            domain::codeword(v, log_n + 1),
        ],
        proof.sc_table.rounds(),
        d.table,
    )
}

/// The claimed entries are those of the encoded row at the drawn columns, combined by the
/// draws, unless a draw lets a false claim pass.
pub proof fn law_encoding_sound(
    proof: LigesisProof<Goldilocks, GoldilocksExt2>,
    com_a: Seq<u8>,
    root: Seq<u8>,
    log_m: nat,
    log_n: nat,
    z: Seq<GoldilocksExt2>,
    d: Draws,
    v: Seq<GoldilocksExt2>,
)
    requires
        accepted_opening(proof, com_a, root, log_m, log_n, z, d),
        row_opened(proof, log_n, d, v),
        !row_lucky(proof, log_n, z, d, v),
        !encoding_lucky(proof, log_n, d, v),
    ensures
        proof.y4 == algebra::sum(
            d.idx.len(),
            |k: int|
                multilinear::eq_table(d.r2)[k] * domain::codeword(v, log_n + 1)[d.idx[k] as int],
        ),
{
    law_row_sound(proof, com_a, root, log_m, log_n, z, d, v);
    opening::lemma_sizes(log_m, log_n);
    let r3 = d.table.reverse();
    let a = log_n + 1;
    let w = tables::encoding_weights(r3, a, pow2(log_n));
    let ra = domain::codeword(v, a);
    let e2 = multilinear::eq_table(d.r2);
    multilinear::lemma_eq_table_len(d.r2);
    multilinear::lemma_eq_table_valid(d.r2);
    identities::lemma_rs_link(v, r3, a);
    assert forall|k: int| 0 <= k < w.len() implies (#[trigger] w[k]).valid() by {
        algebra::prod_valid(a, |t: int| tables::rs_factor(r3, a, k, t));
    }
    lemma_dot_sound(proof.y5, proof.sc_rslink, v, w, d.rs);
    algebra::sum_ext(v.len(), |i: int| v[i] * w[i], |i: int| v[i] * w[i]);
    completeness::lemma_selector_dot(d.idx, e2, ra);
    let sel = tables::selector(d.idx, e2, pow2(a));
    lemma_dot_sound(proof.y4, proof.sc_table, sel, ra, d.table);
    algebra::sum_ext(sel.len(), |i: int| sel[i] * ra[i], |i: int| sel[i] * ra[i]);
}

/// The drawn columns: as many as are opened, all different, each the residue of a draw,
/// and the first that of the first draw.
pub proof fn law_columns_drawn(raw: Seq<usize>, two_n: int, k: int)
    requires
        0 < two_n <= usize::MAX,
        super::enough_columns(raw, two_n),
        0 <= k < 128,
    ensures
        ({
            let c = super::drawn_columns(raw, two_n);
            &&& c.len() == 128
            &&& forall|a: int, b: int| 0 <= a < b < c.len() ==> c[a] != c[b]
            &&& c[k] < two_n
            &&& exists|i: int| 0 <= i < raw.len() && #[trigger] raw[i] as int % two_n == c[k]
            &&& c[0] == raw[0] as int % two_n
        }),
{
    super::lemma_residues(raw, two_n);
    lemma_residue_of(raw, two_n, k);
}

proof fn lemma_residue_of(raw: Seq<usize>, two_n: int, k: int)
    requires
        0 < two_n <= usize::MAX,
        0 <= k < super::residues(raw, two_n).len(),
    ensures
        raw.len() > 0,
        exists|i: int|
            0 <= i < raw.len() && #[trigger] raw[i] as int % two_n == super::residues(
                raw,
                two_n,
            )[k],
        super::residues(raw, two_n)[0] == raw[0] as int % two_n,
    decreases raw.len(),
{
    let t = raw.drop_last();
    let p = super::residues(t, two_n);
    let j = (raw.last() as int % two_n) as usize;
    vstd::arithmetic::div_mod::lemma_mod_bound(raw.last() as int, two_n);
    if p.len() > 0 {
        lemma_residue_of(t, two_n, 0);
        assert(raw[0] == t[0]);
    }
    if k < p.len() {
        lemma_residue_of(t, two_n, k);
        let i = choose|i: int| 0 <= i < t.len() && #[trigger] t[i] as int % two_n == p[k];
        assert(raw[i] == t[i]);
    } else {
        assert(raw[raw.len() - 1] as int % two_n == j);
        if p.len() == 0 && t.len() > 0 {
            lemma_some_residue(t, two_n);
        }
    }
}

proof fn lemma_some_residue(raw: Seq<usize>, two_n: int)
    requires
        raw.len() > 0,
    ensures
        super::residues(raw, two_n).len() > 0,
    decreases raw.len(),
{
}

/// The number that bits stand for, the least significant first.
pub open spec fn bits_number(b: Seq<bool>) -> int
    decreases b.len(),
{
    if b.len() == 0 {
        0
    } else {
        (if b[0] {
            1int
        } else {
            0int
        }) + 2 * bits_number(b.skip(1))
    }
}

proof fn lemma_bits_number(v: int, n: nat)
    requires
        0 <= v < pow2(n),
    ensures
        bits_number(Seq::new(n, |k: int| tables::bit_of(v, k as nat))) == v,
    decreases n,
{
    let b = Seq::new(n, |k: int| tables::bit_of(v, k as nat));
    multilinear::lemma_pow2_zero();
    if n > 0 {
        let m = (n - 1) as nat;
        multilinear::lemma_pow2_step(n);
        lemma_bits_number(v / 2, m);
        let c = Seq::new(m, |k: int| tables::bit_of(v / 2, k as nat));
        assert(b.skip(1) =~= c) by {
            assert forall|k: int| 0 <= k < m implies #[trigger] b.skip(1)[k] == c[k] by {
                let d = pow2(k as nat);
                multilinear::lemma_pow2_step((k + 1) as nat);
                multilinear::lemma_pow2_mono(0, k as nat);
                vstd::arithmetic::div_mod::lemma_div_denominator(v, 2, d as int);
            }
        }
        vstd::arithmetic::div_mod::lemma_div_basics(v);
        assert(b[0] == (v % 2 == 1));
    }
}

/// The committed bits of column `j` are those of the codewords of all rows there: the 64
/// bits of row `i` stand for the value, at point `j` of the domain, of the polynomial whose
/// coefficients are the row.
pub proof fn law_bits_of_rows(f: Seq<Goldilocks>, log_m: nat, log_n: nat, i: int, j: int)
    requires
        0 <= i < pow2(log_m),
        0 <= j < pow2(log_n + 1),
    ensures
        super::bit_columns(f, log_m, log_n)[j].len() == 64 * pow2(log_m),
        bits_number(super::bit_columns(f, log_m, log_n)[j].subrange(64 * i, 64 * (i + 1)))
            == polynomial::poly_eval(
            Seq::new(pow2(log_n), |k: int| f[i * pow2(log_n) + k]),
            <Goldilocks as LeafField>::of_base(
                domain::pow(domain::root(log_n + 1), j as nat),
            ),
        )@,
{
    let col = super::bit_columns(f, log_m, log_n)[j];
    let row = Seq::new(pow2(log_n), |k: int| f[i * pow2(log_n) + k]);
    assert(row =~= tables::row_of(f, pow2(log_n), i));
    let x = super::encoded_row(f, log_n, i)[j];
    let v = x@;
    polynomial::poly_eval_valid(
        row,
        <Goldilocks as LeafField>::of_base(domain::pow(domain::root(log_n + 1), j as nat)),
    );
    vstd::arithmetic::power2::lemma2_to64();
    vstd::arithmetic::power2::lemma2_to64_rest();
    assert(pow2(64) == 0x1_0000_0000_0000_0000);
    let part = col.subrange(64 * i, 64 * (i + 1));
    let want = Seq::new(64, |k: int| tables::bit_of(v, k as nat));
    assert(part =~= want) by {
        assert forall|k: int| 0 <= k < 64 implies #[trigger] part[k] == want[k] by {
            vstd::arithmetic::div_mod::lemma_fundamental_div_mod_converse(64 * i + k, 64, i, k);
        }
    }
    lemma_bits_number(v, 64);
}

/// What an accepted opening shows beside its sumchecks: as many digest columns as are
/// drawn, each of 32 elements, that stand in the committed tree at the drawn positions;
/// and a shared opening of the hash matrix, of the opened bits and of the combined row,
/// each at the point where its sumcheck ends and with the value that the sumcheck uses.
pub proof fn law_shared_opening(
    proof: LigesisProof<Goldilocks, GoldilocksExt2>,
    com_a: Seq<u8>,
    root: Seq<u8>,
    log_m: nat,
    log_n: nat,
    z: Seq<GoldilocksExt2>,
    d: Draws,
)
    requires
        proof.accepted(com_a, root, log_m, log_n, z, d),
    ensures
        z.len() == log_m + log_n,
        proof.h_cols@.len() == 128,
        forall|i: int| 0 <= i < 128 ==> (#[trigger] proof.h_cols@[i])@.len() == 32,
        merkle::opened_root(
            proof.h_open@,
            leaves::sorted_distinct(d.idx),
            merkle::leaf_digests(super::columns_bytes(views::nested(proof.h_cols@))),
            pow2(log_n + 1) as usize,
        ) == Some(root),
        ({
            let folds = super::fold_count(log_m, log_n);
            proof.batch.accepted(
                2,
                seq![
                    BatchClaim {
                        root: com_a,
                        point: d.hash.reverse() + d.alpha2,
                        value: proof.sc_hash.final_evals@[0],
                        li: (11 + log_m - folds) as nat,
                    },
                    BatchClaim {
                        root: proof.com_i@,
                        point: d.bi.reverse(),
                        value: proof.sc_bi_batch.final_evals@[0],
                        li: (13 + log_m - folds) as nat,
                    },
                    BatchClaim {
                        root: proof.com_a_vec@,
                        point: d.a.reverse(),
                        value: proof.sc_a_batch.final_evals@[0],
                        li: (log_n - folds) as nat,
                    },
                ],
                d.coeffs,
                d.folds,
                d.base,
            )
        }),
{
}

/// The sumchecks over public tables have a round for every variable of their table: the
/// recomposition one for each of the 64 bits of every row, the selection one for the
/// columns of the code, and the link one for the entries of a row.
pub proof fn law_rounds_counted(
    proof: LigesisProof<Goldilocks, GoldilocksExt2>,
    com_a: Seq<u8>,
    root: Seq<u8>,
    log_m: nat,
    log_n: nat,
    z: Seq<GoldilocksExt2>,
    d: Draws,
)
    requires
        proof.accepted(com_a, root, log_m, log_n, z, d),
    ensures
        d.recon.len() == 6 + log_m,
        d.table.len() == log_n + 1,
        d.rs.len() == log_n,
        proof.sc_binary.final_evals@.len() == 3,
        proof.sc_hash.final_evals@.len() == 2,
        proof.sc_recon.final_evals@.len() == 2,
        proof.sc_table.final_evals@.len() == 2,
        proof.sc_rslink.final_evals@.len() == 2,
        proof.sc_bi_batch.final_evals@.len() == 2,
        proof.sc_a_batch.final_evals@.len() == 2,
{
}

} // verus!
