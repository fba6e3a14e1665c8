//! Sumcheck reductions that end in opening claims against committed polynomials.
//!
//! Committed polynomials are evaluated with the lowest variable first, while the
//! sumcheck binds the highest variable first: its challenges are reversed before
//! they open anything.
use vstd::prelude::*;
use vstd::arithmetic::power2::pow2;
use crate::algebra;
use crate::field::Field;
use crate::multilinear;
use crate::proofsys::commit;
use crate::proofsys::commit::{ClaimAccumulator, OracleClaimView, OracleSource, SourceView};
use crate::proofsys::protocol::EF;
use crate::utils::oracle::RandomOracle;
use crate::utils::poly;
use crate::utils::poly::MlPoly;
use crate::utils::sumcheck;
use crate::utils::sumcheck::SumcheckProof;
use crate::views;

verus! {

/// Sumcheck challenges with the lowest variable first.
pub fn low_first(sc: &[EF]) -> (r: Vec<EF>)
    ensures
        r@ == sc@.reverse(),
{
    let mut out: Vec<EF> = Vec::new();
    let mut i: usize = sc.len();
    while i > 0
        invariant
            i <= sc@.len(),
            out@.len() == sc@.len() - i,
            forall|k: int| 0 <= k < out@.len() ==> #[trigger] out@[k] == sc@[sc@.len() - 1 - k],
        decreases i,
    {
        i -= 1;
        out.push(sc[i]);
    }
    assert(out@ =~= sc@.reverse());
    out
}

/// `sum_i a[i] * b[i]`.
pub open spec fn inner(a: Seq<EF>, b: Seq<EF>) -> EF {
    let n = if a.len() <= b.len() {
        a.len()
    } else {
        b.len()
    };
    algebra::sum(n, |i: int| a[i] * b[i])
}

/// The inner product over the shorter length.
pub fn dot(a: &[EF], b: &[EF]) -> (r: EF)
    ensures
        r == inner(a@, b@),
{
    let n: usize = if a.len() <= b.len() {
        a.len()
    } else {
        b.len()
    };
    let mut acc = EF::new_zero();
    let mut i: usize = 0;
    let ghost f = |i: int| a@[i] * b@[i];
    while i < n
        invariant
            i <= n,
            n <= a@.len(),
            n <= b@.len(),
            f == (|i: int| a@[i] * b@[i]),
            acc == algebra::sum(i as nat, f),
        decreases n - i,
    {
        acc = acc.add(a[i].mul(b[i]));
        i += 1;
    }
    acc
}

/// How the right factor of a matrix product is stored.
#[derive(Clone, Copy, Debug, PartialEq, Eq, Structural)]
pub enum MatmulKind {
    /// `C[row, col] = sum_k A[row, k] * B[k, col]`, columns of `B` on the low bits.
    Regular,
    /// `C[row, col] = sum_k A[row, k] * B[col, k]`, `k` on the low bits of `B`.
    Transposed,
}

/// The claimed value of a matrix product at a point, with the sumcheck over the
/// contraction.
pub struct MatmulProof {
    pub claimed_eval: EF,
    pub proof: SumcheckProof<EF>,
}

/// Where the left operand is opened.
pub open spec fn left_point(k: Seq<EF>, row: Seq<EF>) -> Seq<EF> {
    k + row
}

/// Where the right operand is opened.
pub open spec fn right_point(kind: MatmulKind, k: Seq<EF>, col: Seq<EF>) -> Seq<EF> {
    match kind {
        MatmulKind::Regular => col + k,
        MatmulKind::Transposed => k + col,
    }
}

/// Two points in sequence.
pub fn join(a: &[EF], b: &[EF]) -> (r: Vec<EF>)
    ensures
        r@ == a@ + b@,
{
    let mut out = poly::copy_slice(a);
    let mut tail = poly::copy_slice(b);
    out.append(&mut tail);
    out
}

/// The opening points of the two operands for the contraction point `k`.
fn operand_points(kind: MatmulKind, k: &[EF], row_point: &[EF], col_point: &[EF]) -> (r: (
    Vec<EF>,
    Vec<EF>,
))
    ensures
        r.0@ == left_point(k@, row_point@),
        r.1@ == right_point(kind, k@, col_point@),
{
    let a_point = join(k, row_point);
    let b_point = match kind {
        MatmulKind::Regular => join(col_point, k),
        MatmulKind::Transposed => join(k, col_point),
    };
    (a_point, b_point)
}

/// The claims left by a matrix product reduced with challenges `ch`, where the
/// operands took the values `finals`.
pub open spec fn matmul_claims(
    kind: MatmulKind,
    a_src: SourceView,
    b_src: SourceView,
    row: Seq<EF>,
    col: Seq<EF>,
    ch: Seq<EF>,
    finals: Seq<EF>,
) -> Seq<OracleClaimView> {
    let k = ch.reverse();
    seq![
        a_src.claim(left_point(k, row), finals[0]),
        b_src.claim(right_point(kind, k, col), finals[1]),
    ]
}

/// The honest reduction of the contraction of `a` and `b` with challenges `ch`.
pub open spec fn honest_matmul(proof: MatmulProof, a: Seq<EF>, b: Seq<EF>, ch: Seq<EF>) -> bool {
    &&& proof.claimed_eval == inner(a, b)
    &&& proof.proof.rounds() == sumcheck::prover_rounds(seq![a, b], ch)
    &&& proof.proof.final_evals@ == sumcheck::prover_finals(seq![a, b], ch)
}

/// The reduction is accepted with challenges `ch`.
pub open spec fn matmul_accepted(proof: MatmulProof, ch: Seq<EF>) -> bool {
    &&& sumcheck::accepted(
        proof.claimed_eval,
        proof.proof.rounds(),
        proof.proof.final_evals@,
        ch,
    )
    &&& proof.proof.final_evals@.len() == 2
}

/// An honest sumcheck has a round for every challenge.
pub proof fn lemma_round_count(proof: SumcheckProof<EF>, tables: Seq<Seq<EF>>, ch: Seq<EF>)
    requires
        proof.rounds() == sumcheck::prover_rounds(tables, ch),
    ensures
        proof.round_polys@.len() == ch.len(),
{
    sumcheck::law_rounds_shape(tables, ch);
    assert(proof.rounds().len() == proof.round_polys@.len());
}

proof fn lemma_two(a: Vec<EF>, b: Vec<EF>, v: Seq<Vec<EF>>)
    requires
        v == seq![a, b],
    ensures
        views::nested(v) == seq![a@, b@],
{
    assert(views::nested(v) =~= seq![a@, b@]);
}

/// Proves the contraction `sum_k A(row_point, k) * B(k, col_point)` and records the
/// claims on the operands. `avec[k]` and `bvec[k]` are the operands at
/// `row_point` and `col_point`.
pub fn prove_matmul(
    kind: MatmulKind,
    a_src: &OracleSource,
    b_src: &OracleSource,
    avec: Vec<EF>,
    bvec: Vec<EF>,
    row_point: &[EF],
    col_point: &[EF],
    acc: &mut ClaimAccumulator,
    oracle: &mut RandomOracle<EF>,
) -> (r: MatmulProof)
    requires
        avec@.len() == bvec@.len(),
        poly::is_power_of_two(avec@.len() as int),
        old(oracle).has_fields(poly::exponent(avec@.len() as int) as int),
        a_src.contents().fits(poly::exponent(avec@.len() as int) + row_point@.len()),
        b_src.contents().fits(poly::exponent(avec@.len() as int) + col_point@.len()),
    ensures
        ({
            let n = poly::exponent(avec@.len() as int);
            let ch = old(oracle).upcoming(n);
            &&& honest_matmul(r, avec@, bvec@, ch)
            &&& final(acc).contents() == old(acc).contents() + matmul_claims(
                kind,
                a_src.contents(),
                b_src.contents(),
                row_point@,
                col_point@,
                ch,
                r.proof.final_evals@,
            )
            &&& final(oracle).wf()
            &&& old(oracle).advanced(*final(oracle), n as int, 0)
        }),
{
    let ghost before = acc.contents();
    let claimed_eval = dot(avec.as_slice(), bvec.as_slice());
    let ghost n = poly::exponent(avec@.len() as int);
    let ghost (av, bv) = (avec@, bvec@);
    let tables: Vec<Vec<EF>> = vec![avec, bvec];
    proof {
        lemma_two(avec, bvec, tables@);
        assert(avec@.len() == pow2(n));
        assert(sumcheck::polys_shape(seq![av, bv], n));
    }
    let (proof, sc) = sumcheck::prove(tables, oracle);
    proof {
        assert(views::nested(tables@)[0].len() == pow2(n));
        sumcheck::lemma_exponent_unique(n, sc@.len());
    }
    let k = low_first(sc.as_slice());
    let (a_point, b_point) = operand_points(kind, k.as_slice(), row_point, col_point);
    a_src.emit(acc, a_point.as_slice(), proof.final_evals[0]);
    b_src.emit(acc, b_point.as_slice(), proof.final_evals[1]);
    assert(acc.contents() =~= before + matmul_claims(
        kind,
        a_src.contents(),
        b_src.contents(),
        row_point@,
        col_point@,
        sc@,
        proof.final_evals@,
    ));
    MatmulProof { claimed_eval, proof }
}

/// Checks a contraction and records the claims on the operands. Returns the value
/// of the product. A rejected proof leaves no claims.
pub fn verify_matmul(
    kind: MatmulKind,
    a_src: &OracleSource,
    b_src: &OracleSource,
    row_point: &[EF],
    col_point: &[EF],
    proof: &MatmulProof,
    acc: &mut ClaimAccumulator,
    oracle: &mut RandomOracle<EF>,
) -> (r: Option<EF>)
    requires
        old(oracle).has_fields(
            matmul_read(*proof, old(oracle).upcoming(proof.proof.round_polys@.len())) as int,
        ),
        matmul_accepted(*proof, old(oracle).upcoming(proof.proof.round_polys@.len())) ==> {
            &&& a_src.contents().fits(proof.proof.round_polys@.len() + row_point@.len())
            &&& b_src.contents().fits(proof.proof.round_polys@.len() + col_point@.len())
        },
    ensures
        ({
            let n = proof.proof.round_polys@.len();
            let ch = old(oracle).upcoming(n);
            &&& r == (if matmul_accepted(*proof, ch) {
                Some(proof.claimed_eval)
            } else {
                None
            })
            &&& final(acc).contents() == (if r is Some {
                old(acc).contents() + matmul_claims(
                    kind,
                    a_src.contents(),
                    b_src.contents(),
                    row_point@,
                    col_point@,
                    ch,
                    proof.proof.final_evals@,
                )
            } else {
                old(acc).contents()
            })
            &&& final(oracle).wf()
            &&& old(oracle).advanced(*final(oracle), matmul_read(*proof, ch) as int, 0)
            &&& r is Some ==> old(oracle).advanced(*final(oracle), n as int, 0)
        }),
{
    match check_matmul(proof, oracle) {
        None => None,
        Some(sc) => {
            record_matmul(kind, a_src, b_src, row_point, col_point, proof, &sc, acc);
            Some(proof.claimed_eval)
        },
    }
}

/// Checks the sumcheck of a contraction. Returns its challenges.
pub(crate) fn check_matmul(proof: &MatmulProof, oracle: &mut RandomOracle<EF>) -> (r: Option<
    Vec<EF>,
>)
    requires
        old(oracle).has_fields(
            matmul_read(*proof, old(oracle).upcoming(proof.proof.round_polys@.len())) as int,
        ),
    ensures
        ({
            let n = proof.proof.round_polys@.len();
            let ch = old(oracle).upcoming(n);
            &&& r is Some <==> matmul_accepted(*proof, ch)
            &&& r is Some ==> r->0@ == ch
            &&& final(oracle).wf()
            &&& old(oracle).advanced(*final(oracle), matmul_read(*proof, ch) as int, 0)
            &&& r is Some ==> old(oracle).advanced(*final(oracle), n as int, 0)
        }),
{
    proof {
        lemma_passed(
            proof.claimed_eval,
            proof.proof.rounds(),
            proof.proof.final_evals@,
            oracle.upcoming(proof.proof.round_polys@.len()),
        );
    }
    match sumcheck::verify(proof.claimed_eval, &proof.proof, oracle) {
        None => None,
        Some(sc) => {
            if proof.proof.final_evals.len() != 2 {
                return None;
            }
            Some(sc)
        },
    }
}

/// Records the claims of an accepted contraction.
pub(crate) fn record_matmul(
    kind: MatmulKind,
    a_src: &OracleSource,
    b_src: &OracleSource,
    row_point: &[EF],
    col_point: &[EF],
    proof: &MatmulProof,
    sc: &Vec<EF>,
    acc: &mut ClaimAccumulator,
)
    requires
        proof.proof.final_evals@.len() == 2,
        a_src.contents().fits(sc@.len() + row_point@.len()),
        b_src.contents().fits(sc@.len() + col_point@.len()),
    ensures
        final(acc).contents() == old(acc).contents() + matmul_claims(
            kind,
            a_src.contents(),
            b_src.contents(),
            row_point@,
            col_point@,
            sc@,
            proof.proof.final_evals@,
        ),
{
    let ghost before = acc.contents();
    let k = low_first(sc.as_slice());
    let (a_point, b_point) = operand_points(kind, k.as_slice(), row_point, col_point);
    a_src.emit(acc, a_point.as_slice(), proof.proof.final_evals[0]);
    b_src.emit(acc, b_point.as_slice(), proof.proof.final_evals[1]);
    assert(acc.contents() =~= before + matmul_claims(
        kind,
        a_src.contents(),
        b_src.contents(),
        row_point@,
        col_point@,
        sc@,
        proof.proof.final_evals@,
    ));
}

/// Accepted round checks read one challenge each.
pub proof fn lemma_passed(cur: EF, rounds: Seq<Seq<EF>>, finals: Seq<EF>, ch: Seq<EF>)
    ensures
        sumcheck::rounds_passed(cur, rounds, ch) <= rounds.len(),
        sumcheck::accepted(cur, rounds, finals, ch) ==> sumcheck::rounds_passed(cur, rounds, ch)
            == rounds.len(),
    decreases rounds.len(),
{
    if rounds.len() > 0 && rounds[0].len() >= 2 && rounds[0][0] + rounds[0][1] == cur {
        lemma_passed(
            crate::polynomial::interpolation(rounds[0], ch[0]),
            rounds.drop_first(),
            finals,
            ch.drop_first(),
        );
    }
}

/// The claimed value of a pointwise product at a point, with the sumcheck that
/// reduces it.
pub struct ProdProof {
    pub claimed_eval: EF,
    pub proof: SumcheckProof<EF>,
}

/// The pointwise product.
pub open spec fn pointwise(l: Seq<EF>, r: Seq<EF>) -> Seq<EF> {
    Seq::new(l.len(), |i: int| l[i] * r[i])
}

/// The claims left by a pointwise product reduced with challenges `ch`.
pub open spec fn prod_claims(
    left_src: SourceView,
    right_src: SourceView,
    ch: Seq<EF>,
    finals: Seq<EF>,
) -> Seq<OracleClaimView> {
    seq![
        left_src.claim(ch.reverse(), finals[1]),
        right_src.claim(ch.reverse(), finals[2]),
    ]
}

/// The three factors of the product sumcheck.
pub open spec fn prod_tables(point: Seq<EF>, l: Seq<EF>, r: Seq<EF>) -> Seq<Seq<EF>> {
    seq![multilinear::eq_table(point), l, r]
}

/// The honest reduction of the pointwise product of `l` and `r` at `point`.
pub open spec fn honest_prod(
    proof: ProdProof,
    l: Seq<EF>,
    r: Seq<EF>,
    point: Seq<EF>,
    ch: Seq<EF>,
) -> bool {
    &&& proof.claimed_eval == multilinear::mle(pointwise(l, r), point)
    &&& proof.proof.rounds() == sumcheck::prover_rounds(prod_tables(point, l, r), ch)
    &&& proof.proof.final_evals@ == sumcheck::prover_finals(prod_tables(point, l, r), ch)
}

/// Number of challenges that the check of a contraction reads: one for every round up
/// to the first failing check.
pub open spec fn matmul_read(proof: MatmulProof, ch: Seq<EF>) -> nat {
    sumcheck::rounds_passed(proof.claimed_eval, proof.proof.rounds(), ch)
}

/// Number of challenges that the check of a pointwise product reads: one for every
/// round up to the first failing check.
pub open spec fn prod_read(proof: ProdProof, ch: Seq<EF>) -> nat {
    sumcheck::rounds_passed(proof.claimed_eval, proof.proof.rounds(), ch)
}

/// The sumcheck of a pointwise product at `point` has a round for every coordinate and
/// three final values, and it passes.
pub open spec fn prod_rounds_accepted(proof: ProdProof, point: Seq<EF>, ch: Seq<EF>) -> bool {
    &&& proof.proof.round_polys@.len() == point.len()
    &&& sumcheck::accepted(
        proof.claimed_eval,
        proof.proof.rounds(),
        proof.proof.final_evals@,
        ch,
    )
    &&& proof.proof.final_evals@.len() == 3
}

/// The reduction at `point` is accepted with challenges `ch`: the sumcheck has a
/// round for every coordinate, it passes, and its first factor is the equality
/// polynomial of `point`.
pub open spec fn prod_accepted(proof: ProdProof, point: Seq<EF>, ch: Seq<EF>) -> bool {
    &&& proof.proof.round_polys@.len() == point.len()
    &&& sumcheck::accepted(
        proof.claimed_eval,
        proof.proof.rounds(),
        proof.proof.final_evals@,
        ch,
    )
    &&& proof.proof.final_evals@.len() == 3
    &&& proof.proof.final_evals@[0] == multilinear::mle(
        multilinear::eq_table(point),
        ch.reverse(),
    )
}

/// The pointwise product of two vectors.
fn multiply(l: &Vec<EF>, r: &Vec<EF>) -> (p: Vec<EF>)
    requires
        l@.len() == r@.len(),
    ensures
        p@ == pointwise(l@, r@),
{
    let mut out: Vec<EF> = Vec::new();
    let mut i: usize = 0;
    while i < l.len()
        invariant
            i <= l@.len(),
            l@.len() == r@.len(),
            out@ == pointwise(l@, r@).take(i as int),
        decreases l.len() - i,
    {
        assert(r.len() == r@.len());
        out.push(l[i].mul(r[i]));
        assert(pointwise(l@, r@).take(i + 1) =~= pointwise(l@, r@).take(i as int).push(
            pointwise(l@, r@)[i as int],
        ));
        i += 1;
    }
    assert(pointwise(l@, r@).take(i as int) =~= pointwise(l@, r@));
    out
}

/// Proves the value at `eval_point` of the pointwise product of `left` and `right`
/// and records the claims on the factors.
pub fn prove_prod(
    left: Vec<EF>,
    right: Vec<EF>,
    left_src: &OracleSource,
    right_src: &OracleSource,
    eval_point: Vec<EF>,
    acc: &mut ClaimAccumulator,
    oracle: &mut RandomOracle<EF>,
) -> (r: ProdProof)
    requires
        left@.len() == pow2(eval_point@.len()),
        right@.len() == left@.len(),
        old(oracle).has_fields(eval_point@.len() as int),
        left_src.contents().fits(eval_point@.len()),
        right_src.contents().fits(eval_point@.len()),
    ensures
        ({
            let n = eval_point@.len();
            let ch = old(oracle).upcoming(n);
            &&& honest_prod(r, left@, right@, eval_point@, ch)
            &&& final(acc).contents() == old(acc).contents() + prod_claims(
                left_src.contents(),
                right_src.contents(),
                ch,
                r.proof.final_evals@,
            )
            &&& final(oracle).wf()
            &&& old(oracle).advanced(*final(oracle), n as int, 0)
        }),
{
    let ghost before = acc.contents();
    let ghost n = eval_point@.len();
    let ghost tables_spec = prod_tables(eval_point@, left@, right@);
    assert(left.len() == left@.len());
    let product = multiply(&left, &right);
    let claimed_eval = MlPoly(product).eval(eval_point.as_slice());
    let eq = MlPoly::new_eq(&eval_point).0;
    let tables: Vec<Vec<EF>> = vec![eq, left, right];
    proof {
        assert(views::nested(tables@) =~= tables_spec);
        multilinear::lemma_eq_table_len(eval_point@);
        assert(sumcheck::polys_shape(tables_spec, n));
    }
    let (proof, sc) = sumcheck::prove(tables, oracle);
    proof {
        assert(views::nested(tables@)[0].len() == pow2(n));
        sumcheck::lemma_exponent_unique(n, sc@.len());
    }
    let open = low_first(sc.as_slice());
    left_src.emit(acc, open.as_slice(), proof.final_evals[1]);
    right_src.emit(acc, open.as_slice(), proof.final_evals[2]);
    assert(acc.contents() =~= before + prod_claims(
        left_src.contents(),
        right_src.contents(),
        sc@,
        proof.final_evals@,
    ));
    ProdProof { claimed_eval, proof }
}

/// The value of a table at sumcheck challenges.
fn eval_sumcheck_order(evals: Vec<EF>, point: &[EF]) -> (r: EF)
    requires
        evals@.len() == pow2(point@.len()),
    ensures
        r == multilinear::mle(evals@, point@.reverse()),
{
    let open = low_first(point);
    MlPoly(evals).eval(open.as_slice())
}

/// Checks the reduction of a pointwise product at `eval_point` and records the
/// claims on the factors. Returns the value of the product. A rejected proof leaves
/// no claims. One with another number of rounds than the point has coordinates is
/// rejected once its round checks are through.
pub fn verify_prod(
    eval_point: &[EF],
    left_src: &OracleSource,
    right_src: &OracleSource,
    proof: &ProdProof,
    acc: &mut ClaimAccumulator,
    oracle: &mut RandomOracle<EF>,
) -> (r: Option<EF>)
    requires
        old(oracle).has_fields(
            prod_read(*proof, old(oracle).upcoming(proof.proof.round_polys@.len())) as int,
        ),
        prod_rounds_accepted(
            *proof,
            eval_point@,
            old(oracle).upcoming(proof.proof.round_polys@.len()),
        ) ==> pow2(eval_point@.len()) <= usize::MAX,
        prod_accepted(
            *proof,
            eval_point@,
            old(oracle).upcoming(proof.proof.round_polys@.len()),
        ) ==> {
            &&& left_src.contents().fits(eval_point@.len())
            &&& right_src.contents().fits(eval_point@.len())
        },
    ensures
        ({
            let n = proof.proof.round_polys@.len();
            let ch = old(oracle).upcoming(n);
            &&& r == (if prod_accepted(*proof, eval_point@, ch) {
                Some(proof.claimed_eval)
            } else {
                None
            })
            &&& final(acc).contents() == (if r is Some {
                old(acc).contents() + prod_claims(
                    left_src.contents(),
                    right_src.contents(),
                    ch,
                    proof.proof.final_evals@,
                )
            } else {
                old(acc).contents()
            })
            &&& final(oracle).wf()
            &&& old(oracle).advanced(*final(oracle), prod_read(*proof, ch) as int, 0)
            &&& r is Some ==> old(oracle).advanced(
                *final(oracle),
                eval_point@.len() as int,
                0,
            )
        }),
{
    let ghost before = acc.contents();
    let ghost n = proof.proof.round_polys@.len();
    let ghost ch = oracle.upcoming(n);
    proof {
        lemma_passed(
            proof.claimed_eval,
            proof.proof.rounds(),
            proof.proof.final_evals@,
            ch,
        );
    }
    match sumcheck::verify(proof.claimed_eval, &proof.proof, oracle) {
        None => None,
        Some(sc) => {
            if proof.proof.final_evals.len() != 3 {
                return None;
            }
            if proof.proof.round_polys.len() != eval_point.len() {
                return None;
            }
            let point = poly::copy_slice(eval_point);
            proof {
                multilinear::lemma_eq_table_len(eval_point@);
            }
            let eq_terminal = eval_sumcheck_order(MlPoly::new_eq(&point).0, sc.as_slice());
            if !proof.proof.final_evals[0].equals(eq_terminal) {
                return None;
            }
            let open = low_first(sc.as_slice());
            left_src.emit(acc, open.as_slice(), proof.proof.final_evals[1]);
            right_src.emit(acc, open.as_slice(), proof.proof.final_evals[2]);
            assert(acc.contents() =~= before + prod_claims(
                left_src.contents(),
                right_src.contents(),
                sc@,
                proof.proof.final_evals@,
            ));
            Some(proof.claimed_eval)
        },
    }
}

/// A source evaluates the operand table `a` behind a fixed tail of the point.
pub open spec fn source_opens(
    src: SourceView,
    polys: Map<Seq<char>, Seq<EF>>,
    point: Seq<EF>,
    value: EF,
) -> bool {
    &&& src.stored(polys)
    &&& algebra::all_valid(polys[src.oracle])
    &&& src.value(polys, point) == value
}

/// The honest reduction of a contraction is accepted, for the contraction's value.
/// If each operand source takes the operand's value at the challenge point, both
/// claims it leaves are true.
pub proof fn law_matmul_complete(
    proof: MatmulProof,
    kind: MatmulKind,
    a_src: SourceView,
    b_src: SourceView,
    a: Seq<EF>,
    b: Seq<EF>,
    row: Seq<EF>,
    col: Seq<EF>,
    ch: Seq<EF>,
    polys: Map<Seq<char>, Seq<EF>>,
)
    requires
        a.len() == pow2(ch.len()),
        b.len() == pow2(ch.len()),
        algebra::all_valid(a),
        algebra::all_valid(b),
        algebra::all_valid(ch),
        honest_matmul(proof, a, b, ch),
    ensures
        matmul_accepted(proof, ch),
        source_opens(
            a_src,
            polys,
            left_point(ch.reverse(), row),
            multilinear::mle(a, ch.reverse()),
        ) && source_opens(
            b_src,
            polys,
            right_point(kind, ch.reverse(), col),
            multilinear::mle(b, ch.reverse()),
        ) ==> commit::all_hold(
            matmul_claims(kind, a_src, b_src, row, col, ch, proof.proof.final_evals@),
            polys,
        ) && commit::all_stored(
            matmul_claims(kind, a_src, b_src, row, col, ch, proof.proof.final_evals@),
            polys,
        ),
{
    let tables = seq![a, b];
    assert(sumcheck::polys_shape(tables, ch.len()));
    assert forall|j: int| 0 <= j < tables.len() implies algebra::all_valid(#[trigger] tables[j]) by {
    }
    sumcheck::law_complete(tables, ch);
    let f = |i: int| sumcheck::vertex_product(tables, i);
    let g = |i: int| a[i] * b[i];
    assert forall|i: int| 0 <= i < a.len() implies #[trigger] f(i) == g(i) by {
        let h = |j: int| tables[j][i];
        assert(algebra::prod(2, h) == algebra::prod(1, h) * h(1));
        assert(algebra::prod(1, h) == algebra::prod(0, h) * h(0));
        assert(a[i].valid());
        algebra::one_mul(a[i]);
    }
    algebra::sum_ext(a.len(), f, g);
    if source_opens(
        a_src,
        polys,
        left_point(ch.reverse(), row),
        multilinear::mle(a, ch.reverse()),
    ) && source_opens(
        b_src,
        polys,
        right_point(kind, ch.reverse(), col),
        multilinear::mle(b, ch.reverse()),
    ) {
        commit::law_source_claim(a_src, polys, left_point(ch.reverse(), row));
        commit::law_source_claim(b_src, polys, right_point(kind, ch.reverse(), col));
    }
}

/// The honest reduction of a pointwise product is accepted, for the product's
/// value. If both sources take their factor's value at the challenge point, both
/// claims it leaves are true.
pub proof fn law_prod_complete(
    proof: ProdProof,
    left_src: SourceView,
    right_src: SourceView,
    l: Seq<EF>,
    r: Seq<EF>,
    point: Seq<EF>,
    ch: Seq<EF>,
    polys: Map<Seq<char>, Seq<EF>>,
)
    requires
        ch.len() == point.len(),
        l.len() == pow2(point.len()),
        r.len() == l.len(),
        algebra::all_valid(l),
        algebra::all_valid(r),
        algebra::all_valid(ch),
        honest_prod(proof, l, r, point, ch),
    ensures
        prod_accepted(proof, point, ch),
        source_opens(left_src, polys, ch.reverse(), multilinear::mle(l, ch.reverse()))
            && source_opens(right_src, polys, ch.reverse(), multilinear::mle(r, ch.reverse()))
            ==> commit::all_hold(
            prod_claims(left_src, right_src, ch, proof.proof.final_evals@),
            polys,
        ) && commit::all_stored(
            prod_claims(left_src, right_src, ch, proof.proof.final_evals@),
            polys,
        ),
{
    let tables = prod_tables(point, l, r);
    let eq = multilinear::eq_table(point);
    multilinear::lemma_eq_table_len(point);
    multilinear::lemma_eq_table_valid(point);
    assert(sumcheck::polys_shape(tables, ch.len()));
    assert forall|j: int| 0 <= j < tables.len() implies algebra::all_valid(#[trigger] tables[j]) by {
    }
    sumcheck::law_complete(tables, ch);
    lemma_round_count(proof.proof, tables, ch);
    lemma_product_sum(point, l, r);
    if source_opens(left_src, polys, ch.reverse(), multilinear::mle(l, ch.reverse()))
        && source_opens(right_src, polys, ch.reverse(), multilinear::mle(r, ch.reverse())) {
        commit::law_source_claim(left_src, polys, ch.reverse());
        commit::law_source_claim(right_src, polys, ch.reverse());
    }
}

/// The sum of the three factors is the product's value at the point.
proof fn lemma_product_sum(point: Seq<EF>, l: Seq<EF>, r: Seq<EF>)
    requires
        l.len() == pow2(point.len()),
        r.len() == l.len(),
    ensures
        sumcheck::hypercube_sum(prod_tables(point, l, r)) == multilinear::mle(
            pointwise(l, r),
            point,
        ),
{
    let tables = prod_tables(point, l, r);
    let eq = multilinear::eq_table(point);
    let p = pointwise(l, r);
    multilinear::lemma_eq_table_len(point);
    multilinear::lemma_eq_table_valid(point);
    assert forall|i: int| 0 <= i < p.len() implies (#[trigger] p[i]).valid() by {
        EF::law_valid(l[i], r[i]);
    }
    multilinear::lemma_mle_sum(p, point);
    let f = |i: int| sumcheck::vertex_product(tables, i);
    let g = |i: int| p[i] * eq[i];
    assert forall|i: int| 0 <= i < l.len() implies #[trigger] f(i) == g(i) by {
        let h = |j: int| tables[j][i];
        assert(algebra::prod(3, h) == algebra::prod(2, h) * h(2));
        assert(algebra::prod(2, h) == algebra::prod(1, h) * h(1));
        assert(algebra::prod(1, h) == algebra::prod(0, h) * h(0));
        assert(eq[i].valid());
        algebra::one_mul(eq[i]);
        algebra::mul_assoc(eq[i], l[i], r[i]);
        algebra::mul_comm(eq[i], l[i] * r[i]);
    }
    algebra::sum_ext(l.len(), f, g);
}

/// Soundness of a contraction, whoever made the proof: if the final values are those of
/// `a` and `b` at the challenge point, the claimed value is `sum_i a_i b_i`, unless a
/// round message meets the round polynomial by chance.
pub proof fn law_matmul_sound(proof: MatmulProof, a: Seq<EF>, b: Seq<EF>, ch: Seq<EF>)
    requires
        a.len() == pow2(ch.len()),
        b.len() == pow2(ch.len()),
        algebra::all_valid(a),
        algebra::all_valid(b),
        proof.proof.round_polys@.len() == ch.len(),
        forall|i: int|
            0 <= i < ch.len() ==> algebra::all_valid(#[trigger] proof.proof.rounds()[i]),
        matmul_accepted(proof, ch),
        proof.proof.final_evals@[0] == multilinear::mle(a, ch.reverse()),
        proof.proof.final_evals@[1] == multilinear::mle(b, ch.reverse()),
    ensures
        proof.claimed_eval == algebra::sum(a.len(), |i: int| a[i] * b[i]) || sumcheck::lucky(
            seq![a, b],
            proof.proof.rounds(),
            ch,
        ),
{
    let tables = seq![a, b];
    let finals = proof.proof.final_evals@;
    assert(sumcheck::polys_shape(tables, ch.len()));
    assert forall|j: int| 0 <= j < tables.len() implies algebra::all_valid(#[trigger] tables[j]) by {
    }
    assert forall|j: int| 0 <= j < tables.len() implies #[trigger] finals[j] == multilinear::mle(
        tables[j],
        ch.reverse(),
    ) by {
        if j == 0 {
            assert(tables[j] == a);
        } else {
            assert(tables[j] == b);
        }
    }
    sumcheck::law_sound(proof.claimed_eval, tables, proof.proof.rounds(), finals, ch);
    let f = |i: int| algebra::prod(tables.len(), |j: int| tables[j][i]);
    let g = |i: int| a[i] * b[i];
    assert forall|i: int| 0 <= i < a.len() implies #[trigger] f(i) == g(i) by {
        let h = |j: int| tables[j][i];
        assert(algebra::prod(2, h) == algebra::prod(1, h) * h(1));
        assert(algebra::prod(1, h) == algebra::prod(0, h) * h(0));
        assert(a[i].valid());
        algebra::one_mul(a[i]);
    }
    algebra::sum_ext(a.len(), f, g);
}

/// Soundness of a pointwise product, whoever made the proof: if the last two final values
/// are those of `l` and `r` at the challenge point, the claimed value is that of the
/// pointwise product at `point`, unless a round message meets the round polynomial by
/// chance.
pub proof fn law_prod_sound(
    proof: ProdProof,
    l: Seq<EF>,
    r: Seq<EF>,
    point: Seq<EF>,
    ch: Seq<EF>,
)
    requires
        ch.len() == point.len(),
        l.len() == pow2(point.len()),
        r.len() == l.len(),
        algebra::all_valid(l),
        algebra::all_valid(r),
        forall|i: int|
            0 <= i < ch.len() ==> algebra::all_valid(#[trigger] proof.proof.rounds()[i]),
        prod_accepted(proof, point, ch),
        proof.proof.final_evals@[1] == multilinear::mle(l, ch.reverse()),
        proof.proof.final_evals@[2] == multilinear::mle(r, ch.reverse()),
    ensures
        proof.claimed_eval == multilinear::mle(Seq::new(l.len(), |i: int| l[i] * r[i]), point)
            || sumcheck::lucky(
            seq![multilinear::eq_table(point), l, r],
            proof.proof.rounds(),
            ch,
        ),
{
    let eq = multilinear::eq_table(point);
    let tables = seq![eq, l, r];
    let finals = proof.proof.final_evals@;
    multilinear::lemma_eq_table_len(point);
    multilinear::lemma_eq_table_valid(point);
    assert(sumcheck::polys_shape(tables, ch.len()));
    assert forall|j: int| 0 <= j < tables.len() implies algebra::all_valid(#[trigger] tables[j]) by {
    }
    assert forall|j: int| 0 <= j < tables.len() implies #[trigger] finals[j] == multilinear::mle(
        tables[j],
        ch.reverse(),
    ) by {
        if j == 0 {
            assert(tables[j] == eq);
        } else if j == 1 {
            assert(tables[j] == l);
        } else {
            assert(tables[j] == r);
        }
    }
    assert(proof.proof.rounds().len() == proof.proof.round_polys@.len());
    sumcheck::law_sound(proof.claimed_eval, tables, proof.proof.rounds(), finals, ch);
    lemma_product_sum(point, l, r);
    assert(prod_tables(point, l, r) =~= tables);
    let f = |i: int| algebra::prod(tables.len(), |j: int| tables[j][i]);
    algebra::sum_ext(l.len(), f, |i: int| sumcheck::vertex_product(tables, i));
    assert(pointwise(l, r) =~= Seq::new(l.len(), |i: int| l[i] * r[i]));
}

} // verus!
