//! The interface of a batched multilinear commitment scheme, and a transparent
//! scheme whose commitment is the polynomial itself.
use core::marker::PhantomData;
use vstd::prelude::*;
use vstd::arithmetic::power2::pow2;
use crate::algebra;
use crate::field::Field;
use crate::multilinear;
use crate::utils::oracle::RandomOracle;
use crate::utils::poly;
use crate::utils::poly::MlPoly;

verus! {

/// A polynomial commitment scheme over multilinear polynomials in the field
/// `Field`. Points list the lowest variable first. Several committed polynomials,
/// each opened at one point, are proven and verified together.
pub trait PolyCommitmentScheme {
    /// The field of the committed polynomials and the challenges.
    type Field: Field;

    /// What the verifier sees.
    type Commitment;

    /// What the prover keeps.
    type ProverData;

    /// The batched opening proof.
    type Proof;

    /// The polynomial that the prover keeps.
    spec fn kept(data: Self::ProverData) -> Seq<Self::Field>;

    /// `c` is a commitment to the polynomial with values `s`.
    spec fn commits(c: Self::Commitment, s: Seq<Self::Field>) -> bool;

    /// The claims' points have the lengths that their commitments ask for.
    spec fn claims_shape(
        claims: Seq<(&Self::Commitment, Vec<Self::Field>, Self::Field)>,
    ) -> bool;

    /// The verifier accepts the claims.
    spec fn accepts(
        claims: Seq<(&Self::Commitment, Vec<Self::Field>, Self::Field)>,
        proof: Self::Proof,
    ) -> bool;

    /// True claims are accepted.
    proof fn law_complete(
        claims: Seq<(&Self::Commitment, Vec<Self::Field>, Self::Field)>,
        proof: Self::Proof,
    )
        requires
            forall|i: int|
                0 <= i < claims.len() ==> exists|s: Seq<Self::Field>|
                    Self::commits(*(#[trigger] claims[i]).0, s) && claims[i].2
                        == #[trigger] multilinear::mle(s, claims[i].1@),
        ensures
            Self::accepts(claims, proof),
    ;

    /// Commits to a polynomial.
    fn commit(poly: MlPoly<Self::Field>) -> (r: (Self::ProverData, Self::Commitment))
        ensures
            Self::kept(r.0) == poly.0@,
            Self::commits(r.1, poly.0@),
    ;

    /// Opens committed polynomials, each at one point.
    fn batch_prove(
        tasks: &[(&Self::ProverData, Vec<Self::Field>)],
        oracle: &mut RandomOracle<Self::Field>,
    ) -> Self::Proof;

    /// Verifies opening claims.
    fn batch_verify(
        claims: &[(&Self::Commitment, Vec<Self::Field>, Self::Field)],
        proof: &Self::Proof,
        oracle: &mut RandomOracle<Self::Field>,
    ) -> (r: bool)
        requires
            Self::claims_shape(claims@),
        ensures
            r == Self::accepts(claims@, *proof),
    ;
}

/// A transparent scheme: the commitment is the polynomial itself, the opening proof
/// is empty, and verification evaluates the polynomial. It reads nothing from the
/// oracle.
#[derive(Debug, Default)]
pub struct PlaceholderPcs<F>(PhantomData<F>);

/// The full polynomial, sent to the verifier.
pub struct PlaceholderCommit<F: Field>(pub MlPoly<F>);

impl<F: Field> PlaceholderCommit<F> {
    /// The values of the committed polynomial.
    pub open spec fn values(self) -> Seq<F> {
        self.0.0@
    }
}

/// Compares two vectors of field elements.
pub fn same_fields<F: Field>(a: &Vec<F>, b: &Vec<F>) -> (r: bool)
    ensures
        r == (a@ == b@),
{
    if a.len() != b.len() {
        return false;
    }
    let mut i: usize = 0;
    while i < a.len()
        invariant
            i <= a.len(),
            a@.len() == b@.len(),
            forall|k: int| 0 <= k < i ==> a@[k] == b@[k],
        decreases a.len() - i,
    {
        if !a[i].equals(b[i]) {
            assert(a@[i as int] != b@[i as int]);
            return false;
        }
        i += 1;
    }
    assert(a@ =~= b@);
    true
}

/// Commitments are equal when their polynomials have the same values.
impl<F: Field> PartialEq for PlaceholderCommit<F> {
    fn eq(&self, other: &Self) -> (r: bool) {
        same_fields(&self.0.0, &other.0.0)
    }
}

impl<F: Field> vstd::std_specs::cmp::PartialEqSpecImpl for PlaceholderCommit<F> {
    open spec fn obeys_eq_spec() -> bool {
        true
    }

    open spec fn eq_spec(&self, other: &Self) -> bool {
        self.0.0@ == other.0.0@
    }
}

impl<F: Field> Eq for PlaceholderCommit<F> {

}

impl<F: Field> PolyCommitmentScheme for PlaceholderPcs<F> {
    type Field = F;

    type Commitment = PlaceholderCommit<F>;

    type ProverData = MlPoly<F>;

    type Proof = ();

    open spec fn kept(data: MlPoly<F>) -> Seq<F> {
        data.0@
    }

    open spec fn commits(c: PlaceholderCommit<F>, s: Seq<F>) -> bool {
        c.values() == s
    }

    open spec fn claims_shape(claims: Seq<(&PlaceholderCommit<F>, Vec<F>, F)>) -> bool {
        forall|i: int|
            0 <= i < claims.len() ==> (#[trigger] claims[i]).0.values().len() == pow2(
                claims[i].1@.len(),
            )
    }

    /// Every claimed value is the committed polynomial's.
    open spec fn accepts(claims: Seq<(&PlaceholderCommit<F>, Vec<F>, F)>, proof: ()) -> bool {
        forall|i: int|
            0 <= i < claims.len() ==> (#[trigger] claims[i]).2 == multilinear::mle(
                claims[i].0.values(),
                claims[i].1@,
            )
    }

    proof fn law_complete(claims: Seq<(&PlaceholderCommit<F>, Vec<F>, F)>, proof: ()) {
    }

    fn commit(poly: MlPoly<F>) -> (r: (MlPoly<F>, PlaceholderCommit<F>)) {
        (MlPoly(poly::copy_slice(poly.0.as_slice())), PlaceholderCommit(poly))
    }

    fn batch_prove(tasks: &[(&MlPoly<F>, Vec<F>)], oracle: &mut RandomOracle<F>) -> (r: ())
        ensures
            *final(oracle) == *old(oracle),
    {
        ()
    }

    fn batch_verify(
        claims: &[(&PlaceholderCommit<F>, Vec<F>, F)],
        proof: &(),
        oracle: &mut RandomOracle<F>,
    ) -> (r: bool)
        ensures
            *final(oracle) == *old(oracle),
    {
        let mut i: usize = 0;
        while i < claims.len()
            invariant
                i <= claims.len(),
                *oracle == *old(oracle),
                forall|i: int|
                    0 <= i < claims@.len() ==> (#[trigger] claims@[i]).0.values().len() == pow2(
                        claims@[i].1@.len(),
                    ),
                forall|k: int|
                    0 <= k < i ==> (#[trigger] claims@[k]).2 == multilinear::mle(
                        claims@[k].0.values(),
                        claims@[k].1@,
                    ),
            decreases claims.len() - i,
        {
            assert(claims@[i as int].0.values().len() == pow2(claims@[i as int].1@.len()));
            let copy = MlPoly(poly::copy_slice(claims[i].0.0.0.as_slice()));
            let v = copy.eval(claims[i].1.as_slice());
            if !v.equals(claims[i].2) {
                assert(claims@[i as int].2 != multilinear::mle(
                    claims@[i as int].0.values(),
                    claims@[i as int].1@,
                ));
                return false;
            }
            i += 1;
        }
        true
    }
}

/// What the transparent scheme accepts is true: every claimed value is the sum of the
/// committed values, each times its weight at the point.
pub proof fn law_accepted_true<F: Field>(
    claims: Seq<(&PlaceholderCommit<F>, Vec<F>, F)>,
    i: int,
)
    requires
        PlaceholderPcs::<F>::claims_shape(claims),
        PlaceholderPcs::<F>::accepts(claims, ()),
        0 <= i < claims.len(),
        algebra::all_valid(claims[i].0.values()),
    ensures
        claims[i].2 == algebra::sum(
            claims[i].0.values().len(),
            |k: int| claims[i].0.values()[k] * multilinear::eq_table(claims[i].1@)[k],
        ),
{
    multilinear::lemma_mle_sum(claims[i].0.values(), claims[i].1@);
}

} // verus!
