//! The sizes of the opening proofs: every proof is as large as the bytes of all that it
//! holds.
use vstd::prelude::*;
use crate::field::Field;
use crate::pcs::basefold;
use crate::pcs::basefold::{BaseOpening, BasefoldProof, BatchProof};
use crate::pcs::fri::RoundOpening;
use crate::pcs::leaves;
use crate::pcs::ligesis::opening::LigesisProof;
use crate::utils::merkle;
use crate::utils::merkle::Digest;
use crate::utils::sumcheck;
use crate::views;

verus! {

/// The revealed elements at the first `n` positions.
pub open spec fn revealed<F: Field>(values: Map<usize, Vec<F>>, n: nat) -> Seq<F>
    decreases n,
{
    if n == 0 {
        Seq::empty()
    } else {
        revealed(values, (n - 1) as nat) + values[leaves::keys_of(values)[n - 1]]@
    }
}

/// The bytes of an opening: the path and the revealed elements.
pub open spec fn opening_bytes<F: Field>(path: Seq<u8>, values: Map<usize, Vec<F>>) -> Seq<u8> {
    path + merkle::fields_bytes(revealed(values, leaves::keys_of(values).len()))
}

proof fn lemma_revealed<F: Field>(values: Map<usize, Vec<F>>, n: nat)
    ensures
        basefold::leaf_elements(values, n) == revealed(values, n).len(),
    decreases n,
{
    if n > 0 {
        lemma_revealed(values, (n - 1) as nat);
    }
}

proof fn lemma_opening<F: Field>(path: Seq<u8>, values: Map<usize, Vec<F>>)
    ensures
        basefold::opening_size(path, values) == opening_bytes(path, values).len(),
{
    let n = leaves::keys_of(values).len();
    lemma_revealed(values, n);
    merkle::lemma_fields_bytes_len(revealed(values, n));
}

/// The bytes of the first `n` level openings.
pub open spec fn level_bytes<F: Field>(s: Seq<RoundOpening<F>>, n: nat) -> Seq<u8>
    decreases n,
{
    if n == 0 {
        Seq::empty()
    } else {
        level_bytes(s, (n - 1) as nat) + opening_bytes(s[n - 1].proof_bytes@, s[n - 1].values@)
    }
}

/// The bytes of the first `n` column openings.
pub open spec fn column_bytes<F: Field>(s: Seq<BaseOpening<F>>, n: nat) -> Seq<u8>
    decreases n,
{
    if n == 0 {
        Seq::empty()
    } else {
        column_bytes(s, (n - 1) as nat) + opening_bytes(s[n - 1].proof_bytes@, s[n - 1].values@)
    }
}

proof fn lemma_levels<F: Field>(s: Seq<RoundOpening<F>>, n: nat)
    ensures
        basefold::openings_size(s, n) == level_bytes(s, n).len(),
    decreases n,
{
    if n > 0 {
        lemma_levels(s, (n - 1) as nat);
        lemma_opening(s[n - 1].proof_bytes@, s[n - 1].values@);
    }
}

proof fn lemma_columns<F: Field>(s: Seq<BaseOpening<F>>, n: nat)
    ensures
        basefold::base_openings_size(s, n) == column_bytes(s, n).len(),
    decreases n,
{
    if n > 0 {
        lemma_columns(s, (n - 1) as nat);
        lemma_opening(s[n - 1].proof_bytes@, s[n - 1].values@);
    }
}

/// The bytes of the first `n` roots.
pub open spec fn root_bytes(s: Seq<Digest>, n: nat) -> Seq<u8>
    decreases n,
{
    if n == 0 {
        Seq::empty()
    } else {
        root_bytes(s, (n - 1) as nat) + s[n - 1]@
    }
}

proof fn lemma_roots(s: Seq<Digest>, n: nat)
    ensures
        root_bytes(s, n).len() == 32 * n,
    decreases n,
{
    if n > 0 {
        lemma_roots(s, (n - 1) as nat);
    }
}

/// The first `n` round messages one after another.
pub open spec fn pair_elements<F: Field>(s: Seq<(F, F)>, n: nat) -> Seq<F>
    decreases n,
{
    if n == 0 {
        Seq::empty()
    } else {
        pair_elements(s, (n - 1) as nat) + seq![s[n - 1].0, s[n - 1].1]
    }
}

proof fn lemma_pairs<F: Field>(s: Seq<(F, F)>, n: nat)
    ensures
        pair_elements(s, n).len() == 2 * n,
    decreases n,
{
    if n > 0 {
        lemma_pairs(s, (n - 1) as nat);
    }
}

/// The bytes of an opening of one commitment.
pub open spec fn single_bytes<LF: Field, EF: Field>(p: BasefoldProof<LF, EF>) -> Seq<u8> {
    merkle::fields_bytes(
        pair_elements(p.reduction_msgs@, p.reduction_msgs@.len()) + p.final_codeword@ + seq![
            p.claimed_eval,
        ],
    ) + root_bytes(p.fold_roots@, p.fold_roots@.len()) + opening_bytes(
        p.base_opening.proof_bytes@,
        p.base_opening.values@,
    ) + level_bytes(p.fold_openings@, p.fold_openings@.len())
}

/// An opening of one commitment is as large as its bytes.
pub proof fn law_single_size<LF: Field, EF: Field>(p: BasefoldProof<LF, EF>)
    ensures
        p.byte_count() == single_bytes(p).len(),
{
    let (a, c, f) = (p.reduction_msgs@.len(), p.final_codeword@.len(), EF::byte_size());
    lemma_pairs(p.reduction_msgs@, a);
    lemma_roots(p.fold_roots@, p.fold_roots@.len());
    lemma_opening(p.base_opening.proof_bytes@, p.base_opening.values@);
    lemma_levels(p.fold_openings@, p.fold_openings@.len());
    merkle::lemma_fields_bytes_len(
        pair_elements(p.reduction_msgs@, a) + p.final_codeword@ + seq![p.claimed_eval],
    );
    assert((2 * a + c + 1) * f == a * 2 * f + c * f + f) by (nonlinear_arith);
}

/// The bytes of a batched opening.
pub open spec fn batch_bytes<BF: Field, EF: Field>(p: BatchProof<BF, EF>) -> Seq<u8> {
    merkle::fields_bytes(
        views::joined(views::nested(p.reduction_msgs@)) + p.final_codeword@,
    ) + root_bytes(p.fold_roots@, p.fold_roots@.len()) + level_bytes(
        p.fold_openings@,
        p.fold_openings@.len(),
    ) + column_bytes(p.base_bf@, p.base_bf@.len()) + column_bytes(p.base_ef@, p.base_ef@.len())
}

/// A batched opening is as large as its bytes.
pub proof fn law_batch_size<BF: Field, EF: Field>(p: BatchProof<BF, EF>)
    ensures
        p.byte_count() == batch_bytes(p).len(),
{
    let rows = views::nested(p.reduction_msgs@);
    let (a, c, f) = (views::total_len(rows), p.final_codeword@.len(), EF::byte_size());
    views::lemma_joined(rows);
    lemma_roots(p.fold_roots@, p.fold_roots@.len());
    lemma_levels(p.fold_openings@, p.fold_openings@.len());
    lemma_columns(p.base_bf@, p.base_bf@.len());
    lemma_columns(p.base_ef@, p.base_ef@.len());
    merkle::lemma_fields_bytes_len(views::joined(rows) + p.final_codeword@);
    assert((a + c) * f == a * f + c * f) by (nonlinear_arith);
}

/// The bytes of an opening of a hashed commitment.
pub open spec fn hashed_bytes<BF: Field, EF: Field>(p: LigesisProof<BF, EF>) -> Seq<u8> {
    merkle::fields_bytes(
        seq![p.y, p.y4, p.y5] + sumcheck::elements(p.sc_binary) + sumcheck::elements(
            p.sc_hash,
        ) + sumcheck::elements(p.sc_recon) + sumcheck::elements(p.sc_table)
            + sumcheck::elements(p.sc_rslink) + sumcheck::elements(p.sc_bi_batch)
            + sumcheck::elements(p.sc_a_batch),
    ) + p.com_a_vec@ + p.com_i@ + p.h_open@ + merkle::fields_bytes(
        views::joined(views::nested(p.h_cols@)),
    ) + batch_bytes(p.batch)
}

/// An opening of a hashed commitment is as large as its bytes.
#[verifier::rlimit(40)]
pub proof fn law_hashed_size<BF: Field, EF: Field>(p: LigesisProof<BF, EF>)
    ensures
        p.byte_count() == hashed_bytes(p).len(),
{
    let f = EF::byte_size();
    sumcheck::law_size(p.sc_binary);
    sumcheck::law_size(p.sc_hash);
    sumcheck::law_size(p.sc_recon);
    sumcheck::law_size(p.sc_table);
    sumcheck::law_size(p.sc_rslink);
    sumcheck::law_size(p.sc_bi_batch);
    sumcheck::law_size(p.sc_a_batch);
    views::lemma_joined(views::nested(p.h_cols@));
    law_batch_size(p.batch);
    merkle::lemma_fields_bytes_len(views::joined(views::nested(p.h_cols@)));
    merkle::lemma_fields_bytes_len(
        seq![p.y, p.y4, p.y5] + sumcheck::elements(p.sc_binary) + sumcheck::elements(
            p.sc_hash,
        ) + sumcheck::elements(p.sc_recon) + sumcheck::elements(p.sc_table)
            + sumcheck::elements(p.sc_rslink) + sumcheck::elements(p.sc_bi_batch)
            + sumcheck::elements(p.sc_a_batch),
    );
    let (a, b, c, d, e, g, h) = (
        p.sc_binary.element_count(),
        p.sc_hash.element_count(),
        p.sc_recon.element_count(),
        p.sc_table.element_count(),
        p.sc_rslink.element_count(),
        p.sc_bi_batch.element_count(),
        p.sc_a_batch.element_count(),
    );
    assert((3 + a + b + c + d + e + g + h) * f == f * 3 + a * f + b * f + c * f + d * f + e * f + g
        * f + h * f) by (nonlinear_arith);
}

} // verus!
