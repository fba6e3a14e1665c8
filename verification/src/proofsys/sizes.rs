//! The sizes of the proofs: every proof is as large as the list of all that it holds.
use vstd::prelude::*;
use crate::field::Field;
use crate::gkr;
use crate::logup::frac_sum::FracSumProof;
use crate::proofsys::faithful::openings;
use crate::proofsys::faithful::openings::{RecompProof, SegmentOpening, UnifiedProof};
use crate::proofsys::grandprod::GrandProdProof;
use crate::proofsys::maxprod::SoftmaxMaxProof;
use crate::proofsys::protocol::EF;
use crate::proofsys::reduce::{MatmulProof, ProdProof};
use crate::proofsys::residual::XOutResidualProof;
use crate::proofsys::sumfeat::SumFeatProof;
use crate::utils::sumcheck;
use crate::views;

verus! {

proof fn lemma_joined_messages<F: Field>(v: Seq<[F; 4]>)
    ensures
        views::joined(gkr::messages(v)).len() == 4 * v.len(),
    decreases v.len(),
{
    let m = gkr::messages(v);
    if v.len() > 0 {
        lemma_joined_messages(v.drop_last());
        assert(m.drop_last() =~= gkr::messages(v.drop_last()));
        assert(m.last() == v.last()@);
    }
}

/// All elements of a fraction sum proof: the root, and of every layer the round messages
/// and the leaves.
pub open spec fn fraction_elements<F: Field>(p: FracSumProof<F>, n: nat) -> Seq<F>
    decreases n,
{
    if n == 0 {
        seq![p.num, p.den]
    } else {
        fraction_elements(p, (n - 1) as nat) + views::joined(gkr::messages(p.layers@[n - 1].round_polys@))
            + p.layers@[n - 1].leaves@
    }
}

proof fn lemma_fraction_size<F: Field>(p: FracSumProof<F>, n: nat)
    ensures
        2 + p.layer_elements(n) == fraction_elements(p, n).len(),
    decreases n,
{
    if n > 0 {
        lemma_fraction_size(p, (n - 1) as nat);
        lemma_joined_messages(p.layers@[n - 1].round_polys@);
    }
}

/// A fraction sum proof is as large as its elements.
pub proof fn law_fraction_size<F: Field>(p: FracSumProof<F>)
    ensures
        p.element_count() == fraction_elements(p, p.layers@.len()).len(),
{
    lemma_fraction_size(p, p.layers@.len());
}

/// All elements of the first `n` layers of a grand product proof: the round messages and
/// the leaves.
pub open spec fn product_elements<F: Field>(p: GrandProdProof<F>, n: nat) -> Seq<F>
    decreases n,
{
    if n == 0 {
        Seq::empty()
    } else {
        product_elements(p, (n - 1) as nat) + views::joined(gkr::messages(p.layers@[n - 1].round_polys@))
            + p.layers@[n - 1].leaves@
    }
}

/// A grand product proof is as large as its elements.
pub proof fn law_product_size<F: Field>(p: GrandProdProof<F>, n: nat)
    ensures
        p.element_count(n) == product_elements(p, n).len(),
    decreases n,
{
    if n > 0 {
        law_product_size(p, (n - 1) as nat);
        lemma_joined_messages(p.layers@[n - 1].round_polys@);
    }
}

/// All elements of a proof of the maxima.
pub open spec fn maximum_elements(p: SoftmaxMaxProof) -> Seq<EF> {
    product_elements(p.gp, p.gp.layers@.len()) + sumcheck::elements(p.rs) + seq![p.x_max, p.q_sc]
}

/// All elements of a proof of the residual stream.
pub open spec fn residual_elements(p: XOutResidualProof) -> Seq<EF> {
    p.xout@ + p.proj@ + p.x_in@
}

/// All elements of a proof of the normalization and softmax sums.
pub open spec fn feature_elements(p: SumFeatProof) -> Seq<EF> {
    seq![p.q2_claim, p.sq_claim, p.aln_claim, p.se_sum, p.se_exp] + sumcheck::elements(p.q2)
        + p.q2_x@ + sumcheck::elements(p.sq) + p.sq_x@ + p.var_v@ + sumcheck::elements(p.aln)
        + p.aln_x@ + p.aln_sumx@ + p.aln_v@ + sumcheck::elements(p.se)
}

/// The proofs of the maxima, of the residual stream and of the sums are as large as their
/// elements.
pub proof fn law_reduction_sizes(m: SoftmaxMaxProof, r: XOutResidualProof, f: SumFeatProof)
    ensures
        m.element_count() == maximum_elements(m).len(),
        r.element_count() == residual_elements(r).len(),
        f.element_count() == feature_elements(f).len(),
{
    law_product_size(m.gp, m.gp.layers@.len());
    sumcheck::law_size(m.rs);
    sumcheck::law_size(f.q2);
    sumcheck::law_size(f.sq);
    sumcheck::law_size(f.aln);
    sumcheck::law_size(f.se);
}

/// All elements of an optional contraction.
pub open spec fn matmul_elements(m: Option<MatmulProof>) -> Seq<EF> {
    match m {
        Some(m) => sumcheck::elements(m.proof).push(m.claimed_eval),
        None => Seq::empty(),
    }
}

/// All elements of an optional pointwise product.
pub open spec fn prod_elements(p: Option<ProdProof>) -> Seq<EF> {
    match p {
        Some(p) => sumcheck::elements(p.proof).push(p.claimed_eval),
        None => Seq::empty(),
    }
}

/// All elements of the openings of the first `n` segments.
pub open spec fn segment_elements(s: Seq<SegmentOpening>, n: nat) -> Seq<EF>
    decreases n,
{
    if n == 0 {
        Seq::empty()
    } else {
        let o = s[n - 1];
        segment_elements(s, (n - 1) as nat) + seq![o.in_value] + (match o.out_value {
            Some(v) => seq![v],
            None => Seq::empty(),
        }) + matmul_elements(o.matmul) + prod_elements(o.prod) + o.linear_openings@
    }
}

/// All elements of the proofs of the first `n` checks.
pub open spec fn check_elements(s: Seq<RecompProof>, n: nat) -> Seq<EF>
    decreases n,
{
    if n == 0 {
        Seq::empty()
    } else {
        let r = s[n - 1];
        check_elements(s, (n - 1) as nat) + prod_elements(r.prod) + r.openings@ + r.limb_values@
    }
}

proof fn lemma_prod_size(p: Option<ProdProof>)
    ensures
        openings::prod_count(p) == prod_elements(p).len(),
{
    match p {
        Some(q) => sumcheck::law_size(q.proof),
        None => {},
    }
}

proof fn lemma_segments_size(s: Seq<SegmentOpening>, n: nat)
    ensures
        openings::openings_count(s, n) == segment_elements(s, n).len(),
    decreases n,
{
    if n > 0 {
        lemma_segments_size(s, (n - 1) as nat);
        lemma_prod_size(s[n - 1].prod);
        match s[n - 1].matmul {
            Some(q) => sumcheck::law_size(q.proof),
            None => {},
        }
    }
}

proof fn lemma_checks_size(s: Seq<RecompProof>, n: nat)
    ensures
        openings::recomps_count(s, n) == check_elements(s, n).len(),
    decreases n,
{
    if n > 0 {
        lemma_checks_size(s, (n - 1) as nat);
        lemma_prod_size(s[n - 1].prod);
    }
}

/// All elements of a unified proof.
pub open spec fn unified_elements(p: UnifiedProof) -> Seq<EF> {
    fraction_elements(p.lookup.query, p.lookup.query.layers@.len()) + fraction_elements(
        p.lookup.table,
        p.lookup.table.layers@.len(),
    ) + segment_elements(p.segment_openings@, p.segment_openings@.len()) + p.table_cols@
        + check_elements(p.recomps@, p.recomps@.len())
}

/// A unified proof is as large as its elements.
pub proof fn law_unified_size(p: UnifiedProof)
    ensures
        p.element_count() == unified_elements(p).len(),
{
    law_fraction_size(p.lookup.query);
    law_fraction_size(p.lookup.table);
    lemma_segments_size(p.segment_openings@, p.segment_openings@.len());
    lemma_checks_size(p.recomps@, p.recomps@.len());
}

} // verus!
