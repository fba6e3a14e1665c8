//! A scheme that binds nothing, for measuring the cost of a protocol without its
//! openings: the commitment is empty and every claim is accepted. The prover still
//! keeps the polynomial.
use core::marker::PhantomData;
use vstd::prelude::*;
use crate::field::Field;
use crate::pcs::scheme::PolyCommitmentScheme;
use crate::utils::oracle::RandomOracle;
use crate::utils::poly::MlPoly;

verus! {

/// The scheme without openings. It is not sound.
#[derive(Debug, Default)]
pub struct NoopPcs<F>(PhantomData<F>);

/// The empty commitment.
#[derive(Debug, Clone, Copy, Default, PartialEq, Eq, Structural)]
pub struct NoopCommit;

impl<F: Field> PolyCommitmentScheme for NoopPcs<F> {
    type Field = F;

    type Commitment = NoopCommit;

    type ProverData = MlPoly<F>;

    type Proof = ();

    open spec fn kept(data: MlPoly<F>) -> Seq<F> {
        data.0@
    }

    open spec fn commits(c: NoopCommit, s: Seq<F>) -> bool {
        true
    }

    open spec fn claims_shape(claims: Seq<(&NoopCommit, Vec<F>, F)>) -> bool {
        true
    }

    /// Every list of claims is accepted.
    open spec fn accepts(claims: Seq<(&NoopCommit, Vec<F>, F)>, proof: ()) -> bool {
        true
    }

    proof fn law_complete(claims: Seq<(&NoopCommit, Vec<F>, F)>, proof: ()) {
    }

    fn commit(poly: MlPoly<F>) -> (r: (MlPoly<F>, NoopCommit))
        ensures
            r.0 == poly,
    {
        (poly, NoopCommit)
    }

    fn batch_prove(tasks: &[(&MlPoly<F>, Vec<F>)], oracle: &mut RandomOracle<F>) -> (r: ())
        ensures
            *final(oracle) == *old(oracle),
    {
        ()
    }

    fn batch_verify(
        claims: &[(&NoopCommit, Vec<F>, F)],
        proof: &(),
        oracle: &mut RandomOracle<F>,
    ) -> (r: bool)
        ensures
            *final(oracle) == *old(oracle),
    {
        true
    }
}

} // verus!
