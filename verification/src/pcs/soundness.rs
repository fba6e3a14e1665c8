//! What an accepted Basefold opening shows, whoever made it.
//!
//! The opened columns stand in the committed trees, every query folds the columns, each
//! combined by the weights of the point, down to the final codeword, and the reduction
//! carries the claimed value to the value of the residual polynomial at the challenges.
use vstd::prelude::*;
use vstd::arithmetic::power2::pow2;
use crate::algebra;
use crate::field::{Field, Goldilocks, GoldilocksExt2};
use crate::gkr;
use crate::multilinear;
use crate::pcs::basefold;
use crate::pcs::basefold::{BasefoldProof, BatchClaim, BatchProof};
use crate::pcs::domain::LeafField;
use crate::pcs::fri;
use crate::pcs::leaves;
use crate::utils::merkle;

verus! {

/// Folding two values, without the division by two.
proof fn lemma_fold_doubled(
    x: GoldilocksExt2,
    y: GoldilocksExt2,
    r: GoldilocksExt2,
    t: GoldilocksExt2,
)
    ensures
        GoldilocksExt2::embed(2) * fri::fold_pair(x, y, r, t) == (GoldilocksExt2::one() - r) * (x
            + y) + r * ((x - y) * t),
{
    let two = GoldilocksExt2::embed(2);
    let h = two.inv();
    let k = GoldilocksExt2::one() - r;
    let (s, d) = (x + y, (x - y) * t);
    fri::lemma_two_nonzero();
    GoldilocksExt2::law_inv(two);
    GoldilocksExt2::law_valid(x, y);
    GoldilocksExt2::law_valid(x - y, t);
    GoldilocksExt2::law_distrib(two, k * (s * h), r * (d * h));
    algebra::mul_swap(two, k, s * h);
    algebra::mul_swap(two, r, d * h);
    algebra::mul_swap(two, s, h);
    algebra::mul_swap(two, d, h);
    GoldilocksExt2::law_mul_one(s);
    GoldilocksExt2::law_mul_one(d);
}

/// The value of position `p` at level `k`: the opened column combined with the weights of
/// the point, or the value opened at a folded level.
pub open spec fn level_value<LF: LeafField>(
    proof: BasefoldProof<LF, GoldilocksExt2>,
    point: Seq<GoldilocksExt2>,
    k: int,
    p: int,
) -> GoldilocksExt2 {
    if k == 0 {
        let column = proof.base_opening.values@[p as usize]@;
        algebra::sum(
            column.len(),
            |j: int|
                multilinear::eq_table(point.take(proof.log_interleave as int))[j]
                    * column[j].lift(),
        )
    } else {
        proof.fold_openings@[k - 1].values@[p as usize]@[0]
    }
}

/// The columns of query `idx` are opened.
pub open spec fn columns_present<LF: LeafField>(
    proof: BasefoldProof<LF, GoldilocksExt2>,
    idx: int,
) -> bool {
    let half = pow2((proof.log_len() - 1) as nat) as int;
    &&& proof.base_opening.values@.contains_key((idx % half) as usize)
    &&& proof.base_opening.values@.contains_key((idx % half + half) as usize)
}

/// Every query of an accepted opening folds down: at level `k`, twice the value one level
/// on is `(1 - r) (x + y) + r t (x - y)` for the query's two values `x` and `y`, which
/// are at the first level the opened columns, combined with the weights of the point's
/// first coordinates. The last level on is the final codeword.
pub proof fn law_query_folds<LF: LeafField>(
    proof: BasefoldProof<LF, GoldilocksExt2>,
    root: Seq<u8>,
    point: Seq<GoldilocksExt2>,
    ch: Seq<GoldilocksExt2>,
    base: Seq<usize>,
    i: int,
    k: int,
)
    requires
        proof.accepted(root, point, ch, base),
        0 <= i < base.len(),
        0 <= k < ch.len(),
        k == 0 ==> columns_present(proof, base[i] as int),
    ensures
        ({
            let a = proof.log_len();
            let half = pow2((a - k - 1) as nat) as int;
            let pos = base[i] as int % half;
            let (x, y) = (
                level_value(proof, point, k, pos),
                level_value(proof, point, k, pos + half),
            );
            let t = fri::twiddle((a - k) as nat, pos as nat);
            GoldilocksExt2::embed(2) * (if k + 1 == ch.len() {
                proof.final_codeword@[pos]
            } else {
                level_value(proof, point, k + 1, pos)
            }) == (GoldilocksExt2::one() - ch[k]) * (x + y) + ch[k] * ((x - y) * t)
        }),
{
    let a = proof.log_len();
    let half = pow2((a - k - 1) as nat) as int;
    let pos = base[i] as int % half;
    let weights = multilinear::eq_table(point.take(proof.log_interleave as int));
    let first = basefold::first_values(proof.base_opening.values@, weights);
    assert(fri::fold_consistent(
        first,
        proof.fold_openings@,
        proof.final_codeword@,
        ch,
        a,
        base[i] as int,
        k,
    ));
    let (x, y) = (level_value(proof, point, k, pos), level_value(proof, point, k, pos + half));
    if k == 0 {
        lemma_first_value(proof, point, pos);
        lemma_first_value(proof, point, pos + half);
    }
    lemma_fold_doubled(x, y, ch[k], fri::twiddle((a - k) as nat, pos as nat));
}

proof fn lemma_first_value<LF: LeafField>(
    proof: BasefoldProof<LF, GoldilocksExt2>,
    point: Seq<GoldilocksExt2>,
    p: int,
)
    requires
        proof.base_opening.values@.contains_key(p as usize),
    ensures
        basefold::first_values(
            proof.base_opening.values@,
            multilinear::eq_table(point.take(proof.log_interleave as int)),
        )[p as usize] == level_value(proof, point, 0, p),
        level_value(proof, point, 0, p).valid(),
{
    let w = multilinear::eq_table(point.take(proof.log_interleave as int));
    let column = proof.base_opening.values@[p as usize]@;
    let f = |j: int| w[j] * column[j].lift();
    let g = |j: int|
        multilinear::eq_table(point.take(proof.log_interleave as int))[j] * column[j].lift();
    algebra::sum_ext(column.len(), f, g);
    algebra::sum_valid(column.len(), g);
}

/// Two accepted openings with the same folded levels and final codeword, at points `z`
/// and `y` and under the same draws, fold the combined columns of every query to the same
/// value: changing an opened column or one of the first coordinates leaves a proof
/// accepted only where the folds stay the same.
pub proof fn law_columns_bound<LF: LeafField>(
    proof: BasefoldProof<LF, GoldilocksExt2>,
    other: BasefoldProof<LF, GoldilocksExt2>,
    root: Seq<u8>,
    z: Seq<GoldilocksExt2>,
    y: Seq<GoldilocksExt2>,
    ch: Seq<GoldilocksExt2>,
    base: Seq<usize>,
    i: int,
)
    requires
        proof.accepted(root, z, ch, base),
        other.accepted(root, y, ch, base),
        other.log_len() == proof.log_len(),
        other.fold_openings@ == proof.fold_openings@,
        other.final_codeword@ == proof.final_codeword@,
        0 < ch.len(),
        0 <= i < base.len(),
        columns_present(proof, base[i] as int),
        columns_present(other, base[i] as int),
    ensures
        ({
            let half = pow2((proof.log_len() - 1) as nat) as int;
            let pos = base[i] as int % half;
            let t = fri::twiddle(proof.log_len(), pos as nat);
            let one = GoldilocksExt2::one();
            let (a, b) = (
                level_value(proof, z, 0, pos),
                level_value(proof, z, 0, pos + half),
            );
            let (c, d) = (
                level_value(other, y, 0, pos),
                level_value(other, y, 0, pos + half),
            );
            &&& (one - ch[0]) * (a + b) + ch[0] * ((a - b) * t) == (one - ch[0]) * (c + d) + ch[0]
                * ((c - d) * t)
            &&& b == d && a != c ==> gkr::mean(one, t, ch[0]) == GoldilocksExt2::zero()
            &&& a == c && b != d ==> gkr::mean(one, t.spec_neg(), ch[0]) == GoldilocksExt2::zero()
        }),
{
    let n = proof.log_len();
    let half = pow2((n - 1) as nat) as int;
    let pos = base[i] as int % half;
    let t = fri::twiddle(n, pos as nat);
    law_query_folds(proof, root, z, ch, base, i, 0);
    law_query_folds(other, root, y, ch, base, i, 0);
    let (a, b) = (level_value(proof, z, 0, pos), level_value(proof, z, 0, pos + half));
    let (c, d) = (level_value(other, y, 0, pos), level_value(other, y, 0, pos + half));
    lemma_first_value(proof, z, pos);
    lemma_first_value(proof, z, pos + half);
    lemma_first_value(other, y, pos);
    lemma_first_value(other, y, pos + half);
    assert(fri::fold_consistent(
        basefold::first_values(
            proof.base_opening.values@,
            multilinear::eq_table(z.take(proof.log_interleave as int)),
        ),
        proof.fold_openings@,
        proof.final_codeword@,
        ch,
        n,
        base[i] as int,
        0,
    ));
    assert(fri::fold_consistent(
        basefold::first_values(
            other.base_opening.values@,
            multilinear::eq_table(y.take(other.log_interleave as int)),
        ),
        other.fold_openings@,
        other.final_codeword@,
        ch,
        n,
        base[i] as int,
        0,
    ));
    assert(fri::fold_pair(a, b, ch[0], t) == fri::fold_pair(c, d, ch[0], t));
    fri::lemma_fold_bound(a, b, c, ch[0], t);
    fri::lemma_fold_bound(a, b, d, ch[0], t);
}

/// The openings of an accepted proof stand in their trees, and the final codeword is
/// constant.
pub proof fn law_openings_stand<LF: LeafField>(
    proof: BasefoldProof<LF, GoldilocksExt2>,
    root: Seq<u8>,
    point: Seq<GoldilocksExt2>,
    ch: Seq<GoldilocksExt2>,
    base: Seq<usize>,
)
    requires
        proof.accepted(root, point, ch, base),
    ensures
        point.len() == proof.num_vars,
        merkle::opened_root(
            proof.base_opening.proof_bytes@,
            leaves::keys_of(proof.base_opening.values@),
            merkle::leaf_digests(fri::revealed_bytes(proof.base_opening.values@)),
            pow2(proof.log_len()) as usize,
        ) == Some(root),
        forall|k: int|
            0 <= k < proof.num_vars - proof.log_interleave - 1 ==> merkle::opened_root(
                (#[trigger] proof.fold_openings@[k]).proof_bytes@,
                leaves::keys_of(proof.fold_openings@[k].values@),
                merkle::leaf_digests(fri::revealed_bytes(proof.fold_openings@[k].values@)),
                pow2((proof.log_len() - k - 1) as nat) as usize,
            ) == Some(proof.fold_roots@[k]@),
        forall|i: int, j: int|
            0 <= i < proof.final_codeword@.len() && 0 <= j < proof.final_codeword@.len()
                ==> #[trigger] proof.final_codeword@[i] == #[trigger] proof.final_codeword@[j],
{
    assert forall|k: int|
        0 <= k < proof.num_vars - proof.log_interleave - 1 implies merkle::opened_root(
        (#[trigger] proof.fold_openings@[k]).proof_bytes@,
        leaves::keys_of(proof.fold_openings@[k].values@),
        merkle::leaf_digests(fri::revealed_bytes(proof.fold_openings@[k].values@)),
        pow2((proof.log_len() - k - 1) as nat) as usize,
    ) == Some(proof.fold_roots@[k]@) by {
        assert(fri::opening_accepted(
            proof.fold_openings@[k].proof_bytes@,
            proof.fold_openings@[k].values@,
            proof.fold_roots@[k]@,
            pow2((proof.log_len() - k - 1) as nat) as usize,
        ));
    }
}

/// The true line of round `k` of the polynomial `m`: its values with the earlier
/// variables at the challenges, the next at zero and at one, and the later at the point.
pub open spec fn true_line(
    m: Seq<GoldilocksExt2>,
    zp: Seq<GoldilocksExt2>,
    ch: Seq<GoldilocksExt2>,
    k: int,
) -> (GoldilocksExt2, GoldilocksExt2) {
    (
        multilinear::mle(m, ch.take(k).push(GoldilocksExt2::zero()) + zp.skip(k + 1)),
        multilinear::mle(m, ch.take(k).push(GoldilocksExt2::one()) + zp.skip(k + 1)),
    )
}

/// Some line of the reduction is false, yet meets the true one at the drawn challenge.
pub open spec fn line_lucky(
    m: Seq<GoldilocksExt2>,
    lines: Seq<(GoldilocksExt2, GoldilocksExt2)>,
    zp: Seq<GoldilocksExt2>,
    ch: Seq<GoldilocksExt2>,
) -> bool {
    exists|k: int| 0 <= k < ch.len() && #[trigger] line_meets(m, lines[k], zp, ch, k)
}

pub open spec fn line_meets(
    m: Seq<GoldilocksExt2>,
    line: (GoldilocksExt2, GoldilocksExt2),
    zp: Seq<GoldilocksExt2>,
    ch: Seq<GoldilocksExt2>,
    k: int,
) -> bool {
    let h = true_line(m, zp, ch, k);
    line != h && gkr::mean(line.0, line.1, ch[k]) == gkr::mean(h.0, h.1, ch[k])
}

/// The first true line, and the value at a point from it.
proof fn lemma_first_line(
    m: Seq<GoldilocksExt2>,
    zp: Seq<GoldilocksExt2>,
    ch: Seq<GoldilocksExt2>,
)
    requires
        m.len() == pow2(zp.len()),
        algebra::all_valid(m),
        zp.len() > 0,
        ch.len() == zp.len(),
    ensures
        ({
            let h = true_line(m, zp, ch, 0);
            &&& gkr::mean(h.0, h.1, zp[0]) == multilinear::mle(m, zp)
            &&& gkr::mean(h.0, h.1, ch[0]) == multilinear::mle(
                multilinear::fold_low(m, ch[0]),
                zp.drop_first(),
            )
        }),
{
    let rest = zp.drop_first();
    let (e, o) = (
        multilinear::mle(gkr::evens(m), rest),
        multilinear::mle(gkr::odds(m), rest),
    );
    let (zero, one) = (GoldilocksExt2::zero(), GoldilocksExt2::one());
    multilinear::lemma_pow2_step(zp.len());
    gkr::lemma_split_mean(m, zp[0], rest);
    gkr::lemma_split_mean(m, ch[0], rest);
    gkr::lemma_split_mean(m, zero, rest);
    gkr::lemma_split_mean(m, one, rest);
    assert(seq![zp[0]] + rest =~= zp);
    assert((seq![ch[0]] + rest).drop_first() =~= rest);
    assert(zp.skip(1) =~= rest);
    assert(ch.take(0).push(zero) + zp.skip(1) =~= seq![zero] + rest);
    assert(ch.take(0).push(one) + zp.skip(1) =~= seq![one] + rest);
    lemma_half_valid(m, rest);
    algebra::lerp_weighted(e, o, zero);
    algebra::lerp_weighted(e, o, one);
    algebra::lerp_ends(e, o);
}

proof fn lemma_half_valid(m: Seq<GoldilocksExt2>, rest: Seq<GoldilocksExt2>)
    requires
        m.len() == pow2(rest.len() + 1),
        algebra::all_valid(m),
    ensures
        multilinear::mle(gkr::evens(m), rest).valid(),
        multilinear::mle(gkr::odds(m), rest).valid(),
{
    multilinear::lemma_pow2_step(rest.len() + 1);
    multilinear::lemma_pow2_zero();
    let (e, o) = (gkr::evens(m), gkr::odds(m));
    assert forall|i: int| 0 <= i < e.len() implies (#[trigger] e[i]).valid() by {
        assert(m[2 * i].valid());
    }
    assert forall|i: int| 0 <= i < o.len() implies (#[trigger] o[i]).valid() by {
        assert(m[2 * i + 1].valid());
    }
    multilinear::lemma_fold_all_valid(e, rest);
    multilinear::lemma_fold_all_valid(o, rest);
    multilinear::lemma_fold_all_len(e, rest, rest.len());
    multilinear::lemma_fold_all_len(o, rest, rest.len());
}

/// A later line of the folded polynomial is one of the polynomial.
proof fn lemma_later_line(
    m: Seq<GoldilocksExt2>,
    zp: Seq<GoldilocksExt2>,
    ch: Seq<GoldilocksExt2>,
    k: int,
)
    requires
        zp.len() > 0,
        ch.len() == zp.len(),
        0 <= k < ch.len() - 1,
    ensures
        true_line(multilinear::fold_low(m, ch[0]), zp.drop_first(), ch.drop_first(), k)
            == true_line(m, zp, ch, k + 1),
{
    let (rest, cr) = (zp.drop_first(), ch.drop_first());
    let (zero, one) = (GoldilocksExt2::zero(), GoldilocksExt2::one());
    let (p0, p1) = (
        ch.take(k + 1).push(zero) + zp.skip(k + 2),
        ch.take(k + 1).push(one) + zp.skip(k + 2),
    );
    assert(p0[0] == ch[0] && p1[0] == ch[0]);
    assert(p0.drop_first() =~= cr.take(k).push(zero) + rest.skip(k + 1));
    assert(p1.drop_first() =~= cr.take(k).push(one) + rest.skip(k + 1));
}

proof fn lemma_chain_sound(
    y: GoldilocksExt2,
    msgs: Seq<(GoldilocksExt2, GoldilocksExt2)>,
    m: Seq<GoldilocksExt2>,
    zp: Seq<GoldilocksExt2>,
    ch: Seq<GoldilocksExt2>,
)
    requires
        m.len() == pow2(zp.len()),
        algebra::all_valid(m),
        ch.len() == zp.len(),
        msgs.len() >= ch.len(),
        basefold::reduction_chain(y, msgs, zp, ch) == Some(multilinear::mle(m, ch)),
    ensures
        y == multilinear::mle(m, zp) || line_lucky(m, msgs, zp, ch),
    decreases ch.len(),
{
    if ch.len() == 0 {
        assert(zp =~= ch);
    } else {
        let (rest, cr, mr) = (zp.drop_first(), ch.drop_first(), msgs.drop_first());
        let next = multilinear::fold_low(m, ch[0]);
        multilinear::lemma_pow2_step(zp.len());
        multilinear::lemma_fold_low_valid(m, ch[0]);
        let line = msgs[0];
        lemma_chain_sound(gkr::mean(line.0, line.1, ch[0]), mr, next, rest, cr);
        lemma_first_line(m, zp, ch);
        if line_lucky(next, mr, rest, cr) {
            let k = choose|k: int|
                0 <= k < cr.len() && #[trigger] line_meets(next, mr[k], rest, cr, k);
            lemma_later_line(m, zp, ch, k);
            assert(line_meets(m, msgs[k + 1], zp, ch, k + 1));
        } else if !line_meets(m, msgs[0], zp, ch, 0) {
            assert(line == true_line(m, zp, ch, 0));
        }
    }
}

/// The reduction carries the claimed value: if the final codeword is the value of `m` at
/// the challenges, the claimed value is that of `m` at the point's last coordinates,
/// unless a false line meets the true one at the drawn challenge.
pub proof fn law_reduction_sound<LF: LeafField>(
    proof: BasefoldProof<LF, GoldilocksExt2>,
    root: Seq<u8>,
    point: Seq<GoldilocksExt2>,
    ch: Seq<GoldilocksExt2>,
    base: Seq<usize>,
    m: Seq<GoldilocksExt2>,
)
    requires
        proof.accepted(root, point, ch, base),
        ch.len() == proof.num_vars - proof.log_interleave,
        proof.reduction_msgs@.len() >= ch.len(),
        m.len() == pow2(ch.len()),
        algebra::all_valid(m),
        proof.final_codeword@[0] == multilinear::mle(m, ch),
    ensures
        proof.claimed_eval == multilinear::mle(m, point.skip(proof.log_interleave as int))
            || line_lucky(
            m,
            proof.reduction_msgs@,
            point.skip(proof.log_interleave as int),
            ch,
        ),
{
    lemma_chain_sound(
        proof.claimed_eval,
        proof.reduction_msgs@,
        m,
        point.skip(proof.log_interleave as int),
        ch,
    );
}

/// The value at one of the line through `l0` at zero whose value at `z` is `y`.
pub open spec fn other_end(y: GoldilocksExt2, l0: GoldilocksExt2, z: GoldilocksExt2) -> GoldilocksExt2 {
    (y - (GoldilocksExt2::one() - z) * l0) * z.inv()
}

/// The lines that a claim's reduction messages stand for.
pub open spec fn batch_lines(
    y: GoldilocksExt2,
    msgs: Seq<GoldilocksExt2>,
    zp: Seq<GoldilocksExt2>,
    ch: Seq<GoldilocksExt2>,
) -> Seq<(GoldilocksExt2, GoldilocksExt2)>
    decreases ch.len(),
{
    if ch.len() == 0 {
        Seq::empty()
    } else {
        let l1 = other_end(y, msgs[0], zp[0]);
        seq![(msgs[0], l1)] + batch_lines(
            gkr::mean(msgs[0], l1, ch[0]),
            msgs.drop_first(),
            zp.drop_first(),
            ch.drop_first(),
        )
    }
}

/// The line through `l0` and the recovered end passes through the claim.
proof fn lemma_other_end(y: GoldilocksExt2, l0: GoldilocksExt2, z: GoldilocksExt2)
    requires
        y.valid(),
        z.valid(),
        z != GoldilocksExt2::zero(),
    ensures
        gkr::mean(l0, other_end(y, l0, z), z) == y,
{
    let w = (GoldilocksExt2::one() - z) * l0;
    GoldilocksExt2::law_valid(y, w);
    GoldilocksExt2::law_inv(z);
    algebra::mul_swap(z, y - w, z.inv());
    GoldilocksExt2::law_mul_one(y - w);
    algebra::sub_add(y, w);
}

proof fn lemma_batch_chain_sound(
    y: GoldilocksExt2,
    msgs: Seq<GoldilocksExt2>,
    m: Seq<GoldilocksExt2>,
    zp: Seq<GoldilocksExt2>,
    ch: Seq<GoldilocksExt2>,
)
    requires
        y.valid(),
        algebra::all_valid(zp),
        m.len() == pow2(zp.len()),
        algebra::all_valid(m),
        ch.len() == zp.len(),
        basefold::batch_chain(y, msgs, zp, ch) == Some(multilinear::mle(m, ch)),
    ensures
        y == multilinear::mle(m, zp) || line_lucky(m, batch_lines(y, msgs, zp, ch), zp, ch),
    decreases ch.len(),
{
    if ch.len() == 0 {
        assert(zp =~= ch);
    } else {
        let (rest, cr, mr) = (zp.drop_first(), ch.drop_first(), msgs.drop_first());
        let next = multilinear::fold_low(m, ch[0]);
        multilinear::lemma_pow2_step(zp.len());
        multilinear::lemma_fold_low_valid(m, ch[0]);
        let (l0, l1) = (msgs[0], other_end(y, msgs[0], zp[0]));
        let cur = gkr::mean(l0, l1, ch[0]);
        GoldilocksExt2::law_valid((GoldilocksExt2::one() - ch[0]) * l0, ch[0] * l1);
        assert forall|i: int| 0 <= i < rest.len() implies (#[trigger] rest[i]).valid() by {
            assert(zp[i + 1].valid());
        }
        assert(zp[0].valid());
        lemma_batch_chain_sound(cur, mr, next, rest, cr);
        lemma_first_line(m, zp, ch);
        lemma_other_end(y, l0, zp[0]);
        let lines = batch_lines(y, msgs, zp, ch);
        let later = batch_lines(cur, mr, rest, cr);
        assert(lines == seq![(l0, l1)] + later);
        if line_lucky(next, later, rest, cr) {
            let k = choose|k: int|
                0 <= k < cr.len() && #[trigger] line_meets(next, later[k], rest, cr, k);
            lemma_later_line(m, zp, ch, k);
            lemma_lines_len(cur, mr, rest, cr);
            assert(lines[k + 1] == later[k]);
            assert(line_meets(m, lines[k + 1], zp, ch, k + 1));
        } else if !line_meets(m, lines[0], zp, ch, 0) {
            assert(lines[0] == (l0, l1));
            assert((l0, l1) == true_line(m, zp, ch, 0));
        }
    }
}

proof fn lemma_lines_len(
    y: GoldilocksExt2,
    msgs: Seq<GoldilocksExt2>,
    zp: Seq<GoldilocksExt2>,
    ch: Seq<GoldilocksExt2>,
)
    ensures
        batch_lines(y, msgs, zp, ch).len() == ch.len(),
    decreases ch.len(),
{
    if ch.len() > 0 {
        let l1 = other_end(y, msgs[0], zp[0]);
        lemma_lines_len(
            gkr::mean(msgs[0], l1, ch[0]),
            msgs.drop_first(),
            zp.drop_first(),
            ch.drop_first(),
        );
    }
}

/// The last coordinates of a claim's point, which the reduction binds.
pub open spec fn bound_part(c: BatchClaim) -> Seq<GoldilocksExt2> {
    c.point.skip(c.li as int)
}

/// The draws of a batch let a false claim pass: claims that are left false combine to the
/// true combination, or a false line meets the true one.
pub open spec fn batch_lucky(
    proof: BatchProof<Goldilocks, GoldilocksExt2>,
    claims: Seq<BatchClaim>,
    coeffs: Seq<GoldilocksExt2>,
    ch: Seq<GoldilocksExt2>,
    ms: Seq<Seq<GoldilocksExt2>>,
) -> bool {
    ||| left_meet(proof, claims, coeffs, ch, ms)
    ||| exists|c: int|
        0 <= c < claims.len() && #[trigger] line_lucky(
            ms[c],
            batch_lines(
                claims[c].value,
                proof.reduction_msgs@[c]@,
                bound_part(claims[c]),
                ch,
            ),
            bound_part(claims[c]),
            ch,
        )
}

/// The claims that the reduction leaves are not all true, yet combine to the true
/// combination.
pub open spec fn left_meet(
    proof: BatchProof<Goldilocks, GoldilocksExt2>,
    claims: Seq<BatchClaim>,
    coeffs: Seq<GoldilocksExt2>,
    ch: Seq<GoldilocksExt2>,
    ms: Seq<Seq<GoldilocksExt2>>,
) -> bool {
    let left = Seq::new(
        claims.len(),
        |c: int|
            basefold::batch_chain(
                claims[c].value,
                proof.reduction_msgs@[c]@,
                bound_part(claims[c]),
                ch,
            )->0,
    );
    let truth = Seq::new(claims.len(), |c: int| multilinear::mle(ms[c], ch));
    left != truth && algebra::sum(claims.len(), |c: int| coeffs[c] * left[c]) == algebra::sum(
        claims.len(),
        |c: int| coeffs[c] * truth[c],
    )
}

/// The reduction of a batch carries all claims: if the final codeword is the combination
/// of the values of the polynomials `ms` at the challenges, every claimed value is that
/// of its polynomial at the point's last coordinates, unless a draw lets a false claim
/// pass.
pub proof fn law_batch_sound(
    proof: BatchProof<Goldilocks, GoldilocksExt2>,
    nb: int,
    claims: Seq<BatchClaim>,
    coeffs: Seq<GoldilocksExt2>,
    ch: Seq<GoldilocksExt2>,
    base: Seq<usize>,
    ms: Seq<Seq<GoldilocksExt2>>,
)
    requires
        proof.accepted(nb, claims, coeffs, ch, base),
        ch.len() == proof.rounds(),
        ms.len() == claims.len(),
        forall|c: int|
            0 <= c < claims.len() ==> (#[trigger] ms[c]).len() == pow2(ch.len())
                && algebra::all_valid(ms[c]),
        forall|c: int|
            0 <= c < claims.len() ==> (#[trigger] claims[c]).value.valid() && algebra::all_valid(
                claims[c].point,
            ),
        proof.final_codeword@[0] == algebra::sum(
            claims.len(),
            |c: int| coeffs[c] * multilinear::mle(ms[c], ch),
        ),
    ensures
        (forall|c: int|
            0 <= c < claims.len() ==> (#[trigger] claims[c]).value == multilinear::mle(
                ms[c],
                bound_part(claims[c]),
            )) || batch_lucky(proof, claims, coeffs, ch, ms),
{
    let n = claims.len();
    let left = Seq::new(
        n,
        |c: int|
            basefold::batch_chain(
                claims[c].value,
                proof.reduction_msgs@[c]@,
                bound_part(claims[c]),
                ch,
            )->0,
    );
    let truth = Seq::new(n, |c: int| multilinear::mle(ms[c], ch));
    let f = |c: int| coeffs[c] * left[c];
    let g = |c: int| coeffs[c] * truth[c];
    let ys = |c: int|
        basefold::reduced_claim(claims[c], proof.reduction_msgs@[c]@, ch);
    let h = |c: int| coeffs[c] * (ys(c))->0;
    assert(proof.final_codeword@[0] == algebra::sum(n, h));
    algebra::sum_ext(n, f, h);
    algebra::sum_ext(n, g, |c: int| coeffs[c] * multilinear::mle(ms[c], ch));
    if !batch_lucky(proof, claims, coeffs, ch, ms) {
        assert(!left_meet(proof, claims, coeffs, ch, ms));
        assert(left == truth);
        assert forall|c: int| 0 <= c < n implies (#[trigger] claims[c]).value == multilinear::mle(
            ms[c],
            bound_part(claims[c]),
        ) by {
            let zp = bound_part(claims[c]);
            assert(left[c] == truth[c]);
            assert(basefold::reduced_claim(claims[c], proof.reduction_msgs@[c]@, ch) is Some);
            assert forall|i: int| 0 <= i < zp.len() implies (#[trigger] zp[i]).valid() by {
                assert(claims[c].point[claims[c].li + i].valid());
            }
            assert(ms[c].len() == pow2(ch.len()));
            lemma_batch_chain_sound(
                claims[c].value,
                proof.reduction_msgs@[c]@,
                ms[c],
                zp,
                ch,
            );
            assert(!line_lucky(
                ms[c],
                batch_lines(claims[c].value, proof.reduction_msgs@[c]@, zp, ch),
                zp,
                ch,
            ));
        }
    }
}

/// The value of position `p` of a batch's combined first level: the claims' opened
/// columns, each combined with the weights of its point, combined with the coefficients.
pub open spec fn batch_value(
    proof: BatchProof<Goldilocks, GoldilocksExt2>,
    claims: Seq<BatchClaim>,
    coeffs: Seq<GoldilocksExt2>,
    p: usize,
) -> GoldilocksExt2 {
    algebra::sum(claims.len(), |c: int| coeffs[c] * proof.channel_value(claims, c, p))
}

/// The value of position `p` at level `k` of a batch.
pub open spec fn batch_level(
    proof: BatchProof<Goldilocks, GoldilocksExt2>,
    claims: Seq<BatchClaim>,
    coeffs: Seq<GoldilocksExt2>,
    k: int,
    p: int,
) -> GoldilocksExt2 {
    if k == 0 {
        batch_value(proof, claims, coeffs, p as usize)
    } else {
        proof.fold_openings@[k - 1].values@[p as usize]@[0]
    }
}

/// Every query of an accepted batch folds down, from the claims' columns to the final
/// codeword.
pub proof fn law_batch_query_folds(
    proof: BatchProof<Goldilocks, GoldilocksExt2>,
    nb: int,
    claims: Seq<BatchClaim>,
    coeffs: Seq<GoldilocksExt2>,
    ch: Seq<GoldilocksExt2>,
    base: Seq<usize>,
    i: int,
    k: int,
)
    requires
        proof.accepted(nb, claims, coeffs, ch, base),
        0 < proof.log_len,
        pow2(proof.log_len as nat) <= usize::MAX,
        0 <= i < base.len(),
        0 <= k < ch.len(),
    ensures
        ({
            let half = pow2((proof.log_len - k - 1) as nat) as int;
            let pos = base[i] as int % half;
            let (x, y) = (
                batch_level(proof, claims, coeffs, k, pos),
                batch_level(proof, claims, coeffs, k, pos + half),
            );
            let t = fri::twiddle((proof.log_len - k) as nat, pos as nat);
            GoldilocksExt2::embed(2) * (if k + 1 == ch.len() {
                proof.final_codeword@[pos]
            } else {
                batch_level(proof, claims, coeffs, k + 1, pos)
            }) == (GoldilocksExt2::one() - ch[k]) * (x + y) + ch[k] * ((x - y) * t)
        }),
{
    let a = proof.log_len as nat;
    let half = pow2((a - k - 1) as nat) as int;
    let pos = base[i] as int % half;
    let top = pow2((a - 1) as nat) as int;
    let positions = fri::opened_positions(base, top);
    let first = proof.combined_values(claims, coeffs, positions);
    assert(fri::fold_consistent(
        first,
        proof.fold_openings@,
        proof.final_codeword@,
        ch,
        a,
        base[i] as int,
        k,
    ));
    let (x, y) = (
        batch_level(proof, claims, coeffs, k, pos),
        batch_level(proof, claims, coeffs, k, pos + half),
    );
    if k == 0 {
        multilinear::lemma_pow2_step(a);
        vstd::arithmetic::power2::lemma_pow2_pos((a - 1) as nat);
        fri::lemma_opened_positions(base, top);
        let (p, q) = (pos as usize, (pos + half) as usize);
        assert(positions.contains(p) && positions.contains(q));
        let fp = |c: int| coeffs[c] * proof.channel_value(claims, c, p);
        let fq = |c: int| coeffs[c] * proof.channel_value(claims, c, q);
        assert(first[p] == algebra::sum(claims.len(), fp));
        assert(first[q] == algebra::sum(claims.len(), fq));
    }
    lemma_fold_doubled(x, y, ch[k], fri::twiddle((a - k) as nat, pos as nat));
}

/// The weighted sum of a claim's opened column: with the weights of the first coordinates
/// of the claim's own point.
pub proof fn law_channel_weighted(
    proof: BatchProof<Goldilocks, GoldilocksExt2>,
    claims: Seq<BatchClaim>,
    c: int,
    p: usize,
)
    ensures
        ({
            let w = multilinear::eq_table(claims[c].point.take(claims[c].li as int));
            let nb = proof.base_bf@.len() as int;
            proof.channel_value(claims, c, p) == if c < nb {
                let column = proof.base_bf@[c].values@[p]@;
                algebra::sum(column.len(), |j: int| w[j] * column[j].lift())
            } else {
                let column = proof.base_ef@[c - nb].values@[p]@;
                algebra::sum(column.len(), |j: int| w[j] * column[j].lift())
            }
        }),
{
    let w = multilinear::eq_table(claims[c].point.take(claims[c].li as int));
    let nb = proof.base_bf@.len() as int;
    if c < nb {
        let column = proof.base_bf@[c].values@[p]@;
        let f = |j: int| w[j] * column[j].lift();
        algebra::sum_ext(column.len(), f, |j: int| w[j] * column[j].lift());
    } else {
        let column = proof.base_ef@[c - nb].values@[p]@;
        let f = |j: int| w[j] * column[j].lift();
        algebra::sum_ext(column.len(), f, |j: int| w[j] * column[j].lift());
    }
}

/// The level openings of an accepted batch stand in their trees, the numbers and lengths of
/// claims are those of the proof, and the final codeword is constant.
pub proof fn law_batch_openings_stand(
    proof: BatchProof<Goldilocks, GoldilocksExt2>,
    nb: int,
    claims: Seq<BatchClaim>,
    coeffs: Seq<GoldilocksExt2>,
    ch: Seq<GoldilocksExt2>,
    base: Seq<usize>,
)
    requires
        proof.accepted(nb, claims, coeffs, ch, base),
    ensures
        proof.reduction_msgs@.len() == claims.len(),
        proof.base_bf@.len() == nb,
        proof.base_ef@.len() == claims.len() - nb,
        forall|c: int|
            0 <= c < claims.len() ==> (#[trigger] claims[c]).point.len() == claims[c].li
                + proof.rounds(),
        forall|k: int|
            0 <= k < proof.rounds() - 1 ==> merkle::opened_root(
                (#[trigger] proof.fold_openings@[k]).proof_bytes@,
                leaves::keys_of(proof.fold_openings@[k].values@),
                merkle::leaf_digests(fri::revealed_bytes(proof.fold_openings@[k].values@)),
                pow2((proof.log_len - k - 1) as nat) as usize,
            ) == Some(proof.fold_roots@[k]@),
        forall|i: int, j: int|
            0 <= i < proof.final_codeword@.len() && 0 <= j < proof.final_codeword@.len()
                ==> #[trigger] proof.final_codeword@[i] == #[trigger] proof.final_codeword@[j],
{
    assert forall|k: int| 0 <= k < proof.rounds() - 1 implies merkle::opened_root(
        (#[trigger] proof.fold_openings@[k]).proof_bytes@,
        leaves::keys_of(proof.fold_openings@[k].values@),
        merkle::leaf_digests(fri::revealed_bytes(proof.fold_openings@[k].values@)),
        pow2((proof.log_len - k - 1) as nat) as usize,
    ) == Some(proof.fold_roots@[k]@) by {
        assert(fri::opening_accepted(
            proof.fold_openings@[k].proof_bytes@,
            proof.fold_openings@[k].values@,
            proof.fold_roots@[k]@,
            pow2((proof.log_len - k - 1) as nat) as usize,
        ));
    }
}

/// The opened columns of an accepted batch stand in the trees of their own commitments,
/// base field ones first, at the positions that the drawn queries open and no others.
pub proof fn law_batch_columns_stand(
    proof: BatchProof<Goldilocks, GoldilocksExt2>,
    nb: int,
    claims: Seq<BatchClaim>,
    coeffs: Seq<GoldilocksExt2>,
    ch: Seq<GoldilocksExt2>,
    base: Seq<usize>,
    c: int,
)
    requires
        proof.accepted(nb, claims, coeffs, ch, base),
        0 <= nb <= claims.len(),
        0 <= c < claims.len(),
    ensures
        ({
            let at = fri::opened_positions(base, pow2((proof.log_len - 1) as nat) as int);
            let total = pow2(proof.log_len as nat) as usize;
            &&& c < nb ==> leaves::keys_of(proof.base_bf@[c].values@) == at
                && merkle::opened_root(
                proof.base_bf@[c].proof_bytes@,
                at,
                merkle::leaf_digests(fri::revealed_bytes(proof.base_bf@[c].values@)),
                total,
            ) == Some(claims[c].root)
            &&& c >= nb ==> leaves::keys_of(proof.base_ef@[c - nb].values@) == at
                && merkle::opened_root(
                proof.base_ef@[c - nb].proof_bytes@,
                at,
                merkle::leaf_digests(fri::revealed_bytes(proof.base_ef@[c - nb].values@)),
                total,
            ) == Some(claims[c].root)
        }),
{
    let total = pow2(proof.log_len as nat) as usize;
    if c < nb {
        assert(fri::opening_accepted(
            proof.base_bf@[c].proof_bytes@,
            proof.base_bf@[c].values@,
            claims[c].root,
            total,
        ));
    } else {
        assert(fri::opening_accepted(
            proof.base_ef@[c - nb].proof_bytes@,
            proof.base_ef@[c - nb].values@,
            claims[c - nb + nb].root,
            total,
        ));
    }
}

} // verus!
