//! What an accepted unified proof shows of the committed polynomials, whoever made it.
//!
//! Every reduction ends in openings, and the openings of an accepted proof are those of
//! the committed polynomials. So what a check states at its drawn point holds of the
//! polynomials there, unless a draw of its reduction lets a false claim pass.
use vstd::prelude::*;
use vstd::arithmetic::power2::pow2;
use crate::algebra;
use crate::field::Field;
use crate::multilinear;
use crate::proofsys::canonical;
use crate::proofsys::canonical::Kind;
use crate::proofsys::commit;
use crate::proofsys::commit::OracleClaimView;
use crate::proofsys::faithful::commitments;
use crate::proofsys::faithful::completeness::cells;
use crate::proofsys::faithful::completeness::opened;
use crate::proofsys::faithful::openings;
use crate::proofsys::faithful::openings::{RecompProof, UnifiedProof};
use crate::proofsys::faithful::protocol;
use crate::proofsys::faithful::segments;
use crate::proofsys::faithful::segments::{
    CheckView, LinearView, CHECKS, LN_REM_HI_LIMB, LN_REM_LIMB, QUOTIENT_LIMB_OFFSET,
    SQRT_HI_LIMB, SQRT_LO_LIMB,
};
use crate::proofsys::faithful::shapes;
use crate::proofsys::faithful::sources;
use crate::proofsys::faithful::values;
use crate::proofsys::model::ModelWeights;
use crate::proofsys::protocol::EF;
use crate::proofsys::reduce;
use crate::proofsys::witness::Config;
use crate::tables;
use crate::utils::sumcheck;
use crate::utils::sumcheck::SumcheckProof;

verus! {

pub proof fn lemma_affine_sum(start: EF, linears: Seq<LinearView>, vals: Seq<EF>, n: nat)
    requires
        start.valid(),
    ensures
        values::affine(start, linears, vals, n) == start + algebra::sum(
            n,
            |j: int| linears[j].coeff * vals[j],
        ),
    decreases n,
{
    let f = |j: int| linears[j].coeff * vals[j];
    if n == 0 {
        algebra::zero_add(start);
    } else {
        let k = (n - 1) as nat;
        lemma_affine_sum(start, linears, vals, k);
        EF::law_add_assoc(start, algebra::sum(k, f), f(n - 1));
    }
}

/// The limbs of an accepted check stand for its value: the low limb's opening plus 65536
/// times the high limb's opening is the check's constant plus its coefficient times the
/// claimed product plus its linear openings, each times its coefficient.
pub proof fn law_limbs_recompose(config: Config, c: CheckView, r: RecompProof, tape: Seq<EF>)
    requires
        openings::recomp_accepted(config, c, r, tape),
        c.constant.valid(),
        algebra::all_valid(r.limb_values@),
    ensures
        r.limb_values@.len() == 2,
        r.openings@.len() == c.linears.len(),
        (r.prod is Some) == (c.prod is Some),
        r.limb_values@[0] + EF::embed(65536) * r.limb_values@[1] == (match c.prod {
            Some((left, right, coeff)) => c.constant + coeff * (r.prod->0).claimed_eval,
            None => c.constant,
        }) + algebra::sum(c.linears.len(), |j: int| c.linears[j].coeff * r.openings@[j]),
{
    reveal(openings::recomp_accepted);
    let (lo, hi) = (r.limb_values@[0], r.limb_values@[1]);
    assert(lo.valid());
    EF::law_embed(1, 0);
    algebra::one_mul(lo);
    algebra::zero_add(lo);
    let start = match c.prod {
        Some((left, right, coeff)) => c.constant + coeff * (r.prod->0).claimed_eval,
        None => c.constant,
    };
    EF::law_valid(
        c.constant,
        match c.prod {
            Some((left, right, coeff)) => coeff * (r.prod->0).claimed_eval,
            None => EF::zero(),
        },
    );
    lemma_affine_sum(start, c.linears, r.openings@, c.linears.len());
}

/// Two accepted proofs of one check that agree in its product and in its linear openings
/// have the same recomposed limbs.
pub proof fn law_same_limbs(
    config: Config,
    c: CheckView,
    r: RecompProof,
    s: RecompProof,
    tape: Seq<EF>,
    other: Seq<EF>,
)
    requires
        openings::recomp_accepted(config, c, r, tape),
        openings::recomp_accepted(config, c, s, other),
        c.constant.valid(),
        algebra::all_valid(r.limb_values@),
        algebra::all_valid(s.limb_values@),
        c.prod is Some ==> (r.prod->0).claimed_eval == (s.prod->0).claimed_eval,
        r.openings@ == s.openings@,
    ensures
        r.limb_values@[0] + EF::embed(65536) * r.limb_values@[1] == s.limb_values@[0] + EF::embed(
            65536,
        ) * s.limb_values@[1],
{
    law_limbs_recompose(config, c, r, tape);
    law_limbs_recompose(config, c, s, other);
}

/// A sumcheck proof holds canonical values.
pub open spec fn sumcheck_valid(p: SumcheckProof<EF>) -> bool {
    &&& forall|i: int| 0 <= i < p.rounds().len() ==> algebra::all_valid(#[trigger] p.rounds()[i])
    &&& algebra::all_valid(p.final_evals@)
}

/// A check's proof holds canonical values.
pub open spec fn recomp_valid(r: RecompProof) -> bool {
    &&& r.prod is Some ==> sumcheck_valid((r.prod->0).proof)
    &&& algebra::all_valid(r.openings@)
    &&& algebra::all_valid(r.limb_values@)
}

/// What is asked of the model and of the committed polynomials: the sizes of the
/// protocol, and canonical values.
pub open spec fn commitments_sound(
    config: Config,
    w: ModelWeights,
    polys: Map<Seq<char>, Seq<EF>>,
) -> bool {
    &&& segments::segments_fit(config, w)
    &&& shapes::ready(polys, config, w)
    &&& opened::polys_valid(polys)
}

/// A round message of a check's product meets the round polynomial of the committed
/// factors by chance.
pub open spec fn check_lucky(
    config: Config,
    c: CheckView,
    r: RecompProof,
    polys: Map<Seq<char>, Seq<EF>>,
    tape: Seq<EF>,
) -> bool {
    match c.prod {
        Some((left, right, coeff)) => {
            let n = canonical::all_bits(config, c.value);
            sumcheck::lucky(
                seq![
                    multilinear::eq_table(tape.take(n as int)),
                    values::vertex_table(left, polys, n),
                    values::vertex_table(right, polys, n),
                ],
                (r.prod->0).proof.rounds(),
                tape.subrange(n as int, (n + n) as int),
            )
        },
        None => false,
    }
}

/// The values that a table of limbs stands for, with the limb index on the lowest
/// variable.
pub open spec fn recomposed_table(limbs: Seq<EF>) -> Seq<EF> {
    Seq::new(limbs.len() / 2, |i: int| limbs[2 * i] + EF::embed(65536) * limbs[2 * i + 1])
}

pub proof fn lemma_claim_in(
    a: Seq<OracleClaimView>,
    b: Seq<OracleClaimView>,
    polys: Map<Seq<char>, Seq<EF>>,
)
    requires
        commit::all_hold(a + b, polys),
    ensures
        commit::all_hold(a, polys),
        commit::all_hold(b, polys),
{
    assert forall|i: int| 0 <= i < a.len() implies (#[trigger] a[i]).holds(polys) by {
        assert((a + b)[i] == a[i]);
    }
    assert forall|i: int| 0 <= i < b.len() implies (#[trigger] b[i]).holds(polys) by {
        assert((a + b)[a.len() + i] == b[i]);
    }
}

/// Linear openings that hold are those of the operands.
pub proof fn lemma_linears_true(
    linears: Seq<LinearView>,
    p: Seq<EF>,
    vals: Seq<EF>,
    n: nat,
    polys: Map<Seq<char>, Seq<EF>>,
)
    requires
        n <= linears.len(),
        vals.len() == linears.len(),
        algebra::all_valid(vals),
        commit::all_hold(openings::linear_claims(linears, p, vals, n), polys),
    ensures
        forall|j: int| 0 <= j < n ==> #[trigger] vals[j] == linears[j].src.value(polys, p),
    decreases n,
{
    if n > 0 {
        let k = (n - 1) as nat;
        let before = openings::linear_claims(linears, p, vals, k);
        let now = openings::linear_claims(linears, p, vals, n);
        assert(now == before.push(linears[n - 1].src.claim(p, vals[n - 1])));
        assert forall|i: int| 0 <= i < before.len() implies (#[trigger] before[i]).holds(
            polys,
        ) by {
            assert(now[i] == before[i]);
        }
        lemma_linears_true(linears, p, vals, k, polys);
        assert(now[before.len() as int].holds(polys));
        assert(vals[n - 1].valid());
        commit::law_source_bound(linears[n - 1].src, polys, p, vals[n - 1]);
    }
}

/// The extension of a table of limbs at both limbs.
proof fn lemma_limbs_extension(limbs: Seq<EF>, p: Seq<EF>)
    requires
        limbs.len() == pow2(p.len() + 1),
        algebra::all_valid(limbs),
    ensures
        multilinear::mle(limbs, openings::limb_point_at(0, p)) + EF::embed(65536)
            * multilinear::mle(limbs, openings::limb_point_at(1, p)) == multilinear::mle(
            recomposed_table(limbs),
            p,
        ),
{
    multilinear::lemma_pow2_step(p.len() + 1);
    commit::lemma_corner_step(0, 1);
    commit::lemma_corner_step(1, 1);
    commit::lemma_index_bits(0, 0);
    let (z0, z1) = (openings::limb_point_at(0, p), openings::limb_point_at(1, p));
    assert(z0 =~= seq![EF::zero()] + p);
    assert(z1 =~= seq![EF::one()] + p);
    assert(z0.drop_first() =~= p);
    assert(z1.drop_first() =~= p);
    let (lo, hi) = (
        multilinear::fold_low(limbs, EF::zero()),
        multilinear::fold_low(limbs, EF::one()),
    );
    let e = EF::embed(65536);
    let scaled = Seq::new(hi.len(), |i: int| e * hi[i]);
    multilinear::lemma_mle_scale(e, hi, p);
    multilinear::lemma_mle_add(lo, scaled, p);
    let sum = Seq::new(lo.len(), |i: int| lo[i] + scaled[i]);
    let want = recomposed_table(limbs);
    assert forall|i: int| 0 <= i < want.len() implies #[trigger] want[i] == sum[i] by {
        assert(limbs[2 * i].valid() && limbs[2 * i + 1].valid());
        algebra::lerp_ends(limbs[2 * i], limbs[2 * i + 1]);
    }
    assert(want =~= sum);
}

/// What an accepted limb check shows of the committed polynomials: at the drawn point the
/// extension of the committed limbs, recomposed, is that of the values that the check is
/// about, unless a draw lets a false product pass. So limbs that do not recompose to
/// those values are accepted only at points where a polynomial other than zero vanishes.
pub proof fn law_check_sound(
    config: Config,
    w: ModelWeights,
    polys: Map<Seq<char>, Seq<EF>>,
    c: CheckView,
    r: RecompProof,
    tape: Seq<EF>,
)
    requires
        shapes::check_ok(config, w, c),
        commitments_sound(config, w, polys),
        recomp_valid(r),
        tape.len() == openings::check_draws(config, c),
        openings::recomp_accepted(config, c, r, tape),
        commit::all_hold(openings::recomp_claims(config, c, r, tape), polys),
    ensures
        ({
            let n = canonical::all_bits(config, c.value);
            let p = tape.take(n as int);
            multilinear::mle(recomposed_table(polys[c.limbs]), p) == multilinear::mle(
                Seq::new(pow2(n), |i: int| commitments::target_at(c, polys, config, i)),
                p,
            ) || check_lucky(config, c, r, polys, tape)
        }),
{
    let n = canonical::all_bits(config, c.value);
    let p = tape.take(n as int);
    reveal(openings::recomp_claims);
    law_limbs_recompose(config, c, r, tape);
    let lin = openings::linear_claims(c.linears, p, r.openings@, c.linears.len());
    let limbs = seq![
        commit::opening(c.limbs, openings::limb_point_at(0, p), r.limb_values@[0]),
        commit::opening(c.limbs, openings::limb_point_at(1, p), r.limb_values@[1]),
    ];
    let ch = openings::check_challenges(config, c, tape);
    let pc = match c.prod {
        Some((left, right, coeff)) => reduce::prod_claims(
            left,
            right,
            ch,
            (r.prod->0).proof.final_evals@,
        ),
        None => Seq::empty(),
    };
    lemma_claim_in(pc + lin, limbs, polys);
    lemma_claim_in(pc, lin, polys);
    assert(limbs[0].holds(polys) && limbs[1].holds(polys));
    assert(shapes::named_bits(config, w, c.limbs, n + 1));
    assert(polys.contains_key(c.limbs));
    lemma_limbs_extension(polys[c.limbs], p);
    lemma_linears_true(c.linears, p, r.openings@, c.linears.len(), polys);
    let vals = openings::linear_values(c.linears, polys, p);
    assert(r.openings@ =~= vals);
    let goal = Seq::new(pow2(n), |i: int| commitments::target_at(c, polys, config, i));
    match c.prod {
        Some((left, right, coeff)) => {
            let pp = r.prod->0;
            let (l, rr) = (
                values::vertex_table(left, polys, n),
                values::vertex_table(right, polys, n),
            );
            let k = ch.reverse();
            reveal(openings::recomp_accepted);
            let fe = pp.proof.final_evals@;
            assert(pc[0].holds(polys) && pc[1].holds(polys));
            assert(fe[1].valid() && fe[2].valid());
            commit::law_source_bound(left, polys, k, fe[1]);
            commit::law_source_bound(right, polys, k, fe[2]);
            opened::lemma_operand(config, w, left, polys, k);
            opened::lemma_operand(config, w, right, polys, k);
            assert(pp.proof.rounds().len() == pp.proof.round_polys@.len());
            reduce::law_prod_sound(pp, l, rr, p, ch);
            assert(reduce::pointwise(l, rr) =~= Seq::new(l.len(), |i: int| l[i] * rr[i]));
            let start = opened::lemma_product_start(coeff, c.constant, l, rr, p);
            opened::lemma_affine_table(config, w, start, c.linears, polys, p, c.linears.len());
            let have = opened::affine_table(start, c.linears, polys, n, c.linears.len());
            assert forall|i: int| 0 <= i < goal.len() implies #[trigger] goal[i] == have[i] by {
                let (x, y) = (
                    values::vertex_value(left, polys, n, i),
                    values::vertex_value(right, polys, n, i),
                );
                EF::law_mul_assoc(coeff, x, y);
                EF::law_add_comm(coeff * (x * y), c.constant);
            }
            assert(goal =~= have);
            EF::law_add_comm(coeff * multilinear::mle(reduce::pointwise(l, rr), p), c.constant);
            let first = c.constant + coeff * multilinear::mle(reduce::pointwise(l, rr), p);
            EF::law_valid(c.constant, coeff * multilinear::mle(reduce::pointwise(l, rr), p));
            lemma_affine_sum(first, c.linears, vals, c.linears.len());
        },
        None => {
            tables::lemma_mle_constant(c.constant, p);
            let start = Seq::new(pow2(n), |i: int| c.constant);
            opened::lemma_affine_table(config, w, start, c.linears, polys, p, c.linears.len());
            let have = opened::affine_table(start, c.linears, polys, n, c.linears.len());
            assert(goal =~= have);
            lemma_affine_sum(c.constant, c.linears, vals, c.linears.len());
        },
    }
}

/// The challenges of limb check `i`.
pub open spec fn drawn_for_check(
    proof: UnifiedProof,
    config: Config,
    w: ModelWeights,
    tape: Seq<EF>,
    i: int,
) -> Seq<EF> {
    protocol::check_tape(config, protocol::checks_part(proof, config, w, tape), i)
}

/// The point that is drawn for limb check `i`.
pub open spec fn check_point_of(
    proof: UnifiedProof,
    config: Config,
    w: ModelWeights,
    tape: Seq<EF>,
    i: int,
) -> Seq<EF> {
    openings::check_point(
        config,
        segments::check_at(config, i),
        drawn_for_check(proof, config, w, tape, i),
    )
}

/// A draw of limb check `i` lets a false product pass.
pub open spec fn check_of_lucky(
    proof: UnifiedProof,
    config: Config,
    w: ModelWeights,
    polys: Map<Seq<char>, Seq<EF>>,
    tape: Seq<EF>,
    i: int,
) -> bool {
    check_lucky(
        config,
        segments::check_at(config, i),
        proof.recomps@[i],
        polys,
        drawn_for_check(proof, config, w, tape, i),
    )
}

/// An accepted unified proof over sound commitments, with canonical values in its checks.
pub open spec fn accepted_over(
    proof: UnifiedProof,
    config: Config,
    w: ModelWeights,
    polys: Map<Seq<char>, Seq<EF>>,
    tape: Seq<EF>,
) -> bool {
    &&& commitments_sound(config, w, polys)
    &&& tape.len() == protocol::unified_draws(proof, config, w)
    &&& forall|i: int|
        0 <= i < proof.recomps@.len() ==> recomp_valid(#[trigger] proof.recomps@[i])
    &&& protocol::unified_accepted(proof, config, w, polys, tape)
}

proof fn lemma_checks_hold(
    config: Config,
    r: Seq<RecompProof>,
    tape: Seq<EF>,
    n: nat,
    i: int,
    polys: Map<Seq<char>, Seq<EF>>,
)
    requires
        0 <= i < n,
        commit::all_hold(protocol::checks_claims(config, r, tape, n), polys),
    ensures
        commit::all_hold(
            openings::recomp_claims(
                config,
                segments::check_at(config, i),
                r[i],
                protocol::check_tape(config, tape, i),
            ),
            polys,
        ),
    decreases n,
{
    let k = (n - 1) as nat;
    let before = protocol::checks_claims(config, r, tape, k);
    let last = openings::recomp_claims(
        config,
        segments::check_at(config, n - 1),
        r[n - 1],
        protocol::check_tape(config, tape, n - 1),
    );
    assert(protocol::checks_claims(config, r, tape, n) == before + last);
    lemma_claim_in(before, last, polys);
    if i < n - 1 {
        lemma_checks_hold(config, r, tape, k, i, polys);
    }
}

/// The openings of check `i` are among those that hold.
proof fn lemma_check_opened(
    proof: UnifiedProof,
    config: Config,
    w: ModelWeights,
    polys: Map<Seq<char>, Seq<EF>>,
    tape: Seq<EF>,
    i: int,
)
    requires
        accepted_over(proof, config, w, polys, tape),
        0 <= i < CHECKS,
    ensures
        commit::all_hold(
            openings::recomp_claims(
                config,
                segments::check_at(config, i),
                proof.recomps@[i],
                drawn_for_check(proof, config, w, tape, i),
            ),
            polys,
        ),
        drawn_for_check(proof, config, w, tape, i).len() == openings::check_draws(
            config,
            segments::check_at(config, i),
        ),
{
    let s = segments::all_segments(config, w);
    let cl = crate::logup::lookup::lookup_claims(
        proof.lookup,
        protocol::lookup_part(proof, tape),
    )->0;
    let st = protocol::segments_part(proof, config, w, tape);
    let ct = protocol::checks_part(proof, config, w, tape);
    let cols = proof.table_cols@;
    let a = seq![
        commit::opening(segments::TABLE_IN@, cl[2].point, cols[0]),
        commit::opening(segments::TABLE_OUT@, cl[2].point, cols[1]),
        commit::opening(segments::TABLE_TYPE@, cl[2].point, cols[2]),
    ];
    let b = protocol::segments_claims(
        config,
        s,
        proof.segment_openings@,
        cl[0].point,
        st,
        s.len(),
    );
    let c = protocol::checks_claims(config, proof.recomps@, ct, CHECKS as nat);
    let e = seq![commit::opening(segments::E@, cl[1].point, cl[1].value)];
    assert(protocol::unified_claims(proof, config, w, tape) == a + b + c + e);
    lemma_claim_in(a + b + c, e, polys);
    lemma_claim_in(a + b, c, polys);
    lemma_checks_hold(config, proof.recomps@, ct, CHECKS as nat, i, polys);
    protocol::lemma_checks_read(config, (i + 1) as nat, CHECKS as nat);
}

proof fn lemma_accepted_check(
    proof: UnifiedProof,
    config: Config,
    w: ModelWeights,
    polys: Map<Seq<char>, Seq<EF>>,
    tape: Seq<EF>,
    i: int,
)
    requires
        accepted_over(proof, config, w, polys, tape),
        0 <= i < CHECKS,
    ensures
        ({
            let c = segments::check_at(config, i);
            let p = check_point_of(proof, config, w, tape, i);
            multilinear::mle(recomposed_table(polys[c.limbs]), p) == multilinear::mle(
                Seq::new(
                    pow2(canonical::all_bits(config, c.value)),
                    |k: int| commitments::target_at(c, polys, config, k),
                ),
                p,
            ) || check_of_lucky(proof, config, w, polys, tape, i)
        }),
        algebra::all_valid(polys[segments::check_at(config, i).limbs]),
{
    let c = segments::check_at(config, i);
    shapes::lemma_check_ok(config, w, i);
    lemma_check_opened(proof, config, w, polys, tape, i);
    assert(protocol::check_accepted(
        config,
        proof.recomps@,
        protocol::checks_part(proof, config, w, tape),
        i,
    ));
    assert(recomp_valid(proof.recomps@[i]));
    law_check_sound(
        config,
        w,
        polys,
        c,
        proof.recomps@[i],
        drawn_for_check(proof, config, w, tape, i),
    );
    assert(shapes::named_bits(config, w, c.limbs, canonical::all_bits(config, c.value) + 1));
}

/// A whole committed polynomial at a vertex is its entry there.
proof fn lemma_whole_entry(
    config: Config,
    w: ModelWeights,
    polys: Map<Seq<char>, Seq<EF>>,
    kind: Kind,
    i: int,
)
    requires
        commitments_sound(config, w, polys),
        0 <= i < pow2(canonical::all_bits(config, kind)),
    ensures
        values::vertex_value(
            sources::whole_view(config, kind),
            polys,
            canonical::all_bits(config, kind),
            i,
        ) == polys[kind.text()][i],
        polys[kind.text()][i].valid(),
        polys[kind.text()].len() == pow2(canonical::all_bits(config, kind)),
{
    let n = canonical::all_bits(config, kind);
    let src = sources::whole_view(config, kind);
    canonical::lemma_sizes(config, kind);
    assert(shapes::is_kind_poly(config, kind, kind.text(), n));
    assert(shapes::named_bits(config, w, kind.text(), n));
    assert(polys.contains_key(kind.text()));
    multilinear::lemma_pow2_zero();
    cells::lemma_slice_position(kind.text(), None, n, 0, 0, i);
    commit::lemma_index_bits(0, 0);
    assert(commit::variables(0, n) + commit::constants(commit::index_bits(0, 0))
        =~= commit::variables(0, n));
    assert(polys[kind.text()][i].valid());
    algebra::zero_add(polys[kind.text()][i]);
}

/// The deviation that stands behind entry `i` of the normalized values.
proof fn lemma_deviation_entry(
    config: Config,
    w: ModelWeights,
    polys: Map<Seq<char>, Seq<EF>>,
    i: int,
)
    requires
        commitments_sound(config, w, polys),
        0 <= i < pow2(canonical::all_bits(config, Kind::ALn)),
    ensures
        ({
            let k = i / pow2(canonical::col_bits(config, Kind::ALn)) as int;
            &&& 0 <= k < polys[Kind::Std.text()].len()
            &&& polys[Kind::Std.text()][k].valid()
            &&& values::vertex_value(
                sources::deviations_view(config),
                polys,
                canonical::all_bits(config, Kind::ALn),
                i,
            ) == polys[Kind::Std.text()][k]
        }),
{
    let (cb, rb, ib) = (
        canonical::col_bits(config, Kind::ALn),
        canonical::row_bits(config, Kind::ALn),
        canonical::inst_bits(config, Kind::ALn),
    );
    let n = canonical::all_bits(config, Kind::ALn);
    let m = canonical::all_bits(config, Kind::Std);
    canonical::lemma_sizes(config, Kind::ALn);
    canonical::lemma_sizes(config, Kind::Std);
    assert(shapes::is_kind_poly(config, Kind::Std, Kind::Std.text(), m));
    assert(shapes::named_bits(config, w, Kind::Std.text(), m));
    assert(polys.contains_key(Kind::Std.text()));
    multilinear::lemma_pow2_zero();
    commit::lemma_ceil_pow(1);
    assert(canonical::col_bits(config, Kind::Std) == 0) by {
        lemma_one_column();
    }
    assert(m == rb + ib);
    assert(n == cb + (rb + ib));
    cells::lemma_high_position(Kind::Std.text(), cb, rb + ib, 0, 0, i);
    commit::lemma_index_bits(0, 0);
    assert(commit::variables(cb, rb + ib) + commit::constants(commit::index_bits(0, 0))
        =~= commit::variables(cb, rb + ib));
    let k = i / pow2(cb) as int;
    assert(polys[Kind::Std.text()][k].valid());
    algebra::zero_add(polys[Kind::Std.text()][k]);
}

proof fn lemma_one_column()
    ensures
        commit::ceil_log(1) == 0,
{
    multilinear::lemma_pow2_zero();
    commit::lemma_ceil_pow(1);
    if commit::ceil_log(1) > 0 {
        multilinear::lemma_pow2_mono(0, (commit::ceil_log(1) - 1) as nat);
    }
}

/// `-1 * x + y`, and sums with it, as differences.
proof fn lemma_minus(x: EF, y: EF)
    requires
        x.valid(),
        y.valid(),
    ensures
        segments::minus_one() * x == x.spec_neg(),
        y + segments::minus_one() * x == y - x,
        segments::minus_one() * x + y == y - x,
        EF::one() * x == x,
        segments::minus_one() + y == y - EF::one(),
        EF::zero() + x == x,
{
    EF::law_valid(x, y);
    algebra::one_mul(x);
    algebra::neg_mul(EF::one(), x);
    EF::law_sub(y, x);
    EF::law_add_comm(y, x.spec_neg());
    EF::law_sub(y, EF::one());
    EF::law_add_comm(y, EF::one().spec_neg());
    algebra::zero_add(x);
}

/// The two values of a committed root: what is left of `var + 1` above `std^2 - std`, and
/// what is missing up to `std^2 + std`.
proof fn lemma_root_targets(v: EF, s: EF)
    requires
        v.valid(),
        s.valid(),
    ensures
        ((EF::one() + (segments::minus_one() * s) * s) + EF::one() * v) + EF::one() * s == ((v
            + EF::one()) - s * s) + s,
        ((segments::minus_one() + (EF::one() * s) * s) + EF::one() * s) + segments::minus_one() * v
            == ((s * s + s) - v) - EF::one(),
{
    let one = EF::one();
    let m = segments::minus_one();
    EF::law_valid(s, s);
    EF::law_valid(v, s);
    EF::law_valid(one, v);
    lemma_minus(s, s);
    lemma_minus(v, v);
    EF::law_mul_assoc(m, s, s);
    lemma_minus(s * s, one);
    algebra::one_mul(v);
    algebra::one_mul(s);
    // (1 - s s) + v == (v + 1) - s s
    EF::law_sub(one, s * s);
    EF::law_sub(v + one, s * s);
    EF::law_add_comm(one + (s * s).spec_neg(), v);
    EF::law_add_assoc(v, one, (s * s).spec_neg());
    // ((-1 + s s) + s) - v == ((s s + s) - v) - 1
    let t = s * s + s;
    EF::law_valid(s * s, s);
    EF::law_valid(t, v);
    EF::law_add_assoc(m, s * s, s);
    EF::law_valid(m, t);
    lemma_minus(v, m + t);
    EF::law_sub(m + t, v);
    EF::law_sub(t, v);
    EF::law_add_assoc(m, t, v.spec_neg());
    lemma_minus(v, t - v);
}

/// The two values of a committed division: the remainder, and what is missing up to the
/// divisor.
proof fn lemma_division_targets(a: EF, q: EF, d: EF)
    requires
        a.valid(),
        q.valid(),
        d.valid(),
    ensures
        (EF::zero() + (segments::minus_one() * q) * d) + EF::one() * a == a - q * d,
        ((segments::minus_one() + (EF::one() * q) * d) + EF::one() * d) + segments::minus_one() * a
            == ((q * d + d) - a) - EF::one(),
{
    let one = EF::one();
    let m = segments::minus_one();
    EF::law_valid(q, d);
    EF::law_valid(a, q * d);
    EF::law_mul_assoc(m, q, d);
    lemma_minus(q * d, a);
    lemma_minus(q, d);
    lemma_minus(a, d);
    algebra::one_mul(a);
    algebra::one_mul(d);
    algebra::one_mul(q);
    EF::law_valid(m, q * d);
    EF::law_valid(q * d, q * d);
    algebra::zero_add((q * d).spec_neg());
    let t = q * d + d;
    EF::law_valid(q * d, d);
    EF::law_valid(t, a);
    EF::law_add_assoc(m, q * d, d);
    EF::law_valid(m, t);
    lemma_minus(a, m + t);
    EF::law_sub(m + t, a);
    EF::law_sub(t, a);
    EF::law_add_assoc(m, t, a.spec_neg());
    lemma_minus(a, t - a);
}

proof fn lemma_two_terms(start: EF, linears: Seq<LinearView>, vals: Seq<EF>)
    ensures
        values::affine(start, linears, vals, 1) == start + linears[0].coeff * vals[0],
        values::affine(start, linears, vals, 2) == (start + linears[0].coeff * vals[0])
            + linears[1].coeff * vals[1],
{
    reveal_with_fuel(values::affine, 3);
}

proof fn lemma_root_entries(
    config: Config,
    w: ModelWeights,
    polys: Map<Seq<char>, Seq<EF>>,
    i: int,
)
    requires
        commitments_sound(config, w, polys),
        0 <= i < pow2(canonical::all_bits(config, Kind::Std)),
    ensures
        ({
            let (v, s) = (polys[Kind::Var.text()][i], polys[Kind::Std.text()][i]);
            &&& commitments::target_at(segments::check_at(config, 2), polys, config, i) == ((v
                + EF::one()) - s * s) + s
            &&& commitments::target_at(segments::check_at(config, 3), polys, config, i) == ((s * s
                + s) - v) - EF::one()
        }),
{
    let n = canonical::all_bits(config, Kind::Std);
    let (v, s) = (polys[Kind::Var.text()][i], polys[Kind::Std.text()][i]);
    let (c, d) = (segments::check_at(config, 2), segments::check_at(config, 3));
    assert(canonical::all_bits(config, Kind::Var) == n);
    lemma_whole_entry(config, w, polys, Kind::Std, i);
    lemma_whole_entry(config, w, polys, Kind::Var, i);
    lemma_root_targets(v, s);
    let (tc, td) = (
        values::vertex_terms(c.linears, polys, n, i),
        values::vertex_terms(d.linears, polys, n, i),
    );
    assert(tc[0] == v && tc[1] == s);
    assert(td[0] == s && td[1] == v);
    lemma_two_terms(EF::one() + (segments::minus_one() * s) * s, c.linears, tc);
    lemma_two_terms(segments::minus_one() + (EF::one() * s) * s, d.linears, td);
}

proof fn lemma_division_entries(
    config: Config,
    w: ModelWeights,
    polys: Map<Seq<char>, Seq<EF>>,
    i: int,
)
    requires
        commitments_sound(config, w, polys),
        0 <= i < pow2(canonical::all_bits(config, Kind::ALn)),
    ensures
        ({
            let (a, q) = (polys[Kind::ALn.text()][i], polys[Kind::QLn.text()][i]);
            let s = polys[Kind::Std.text()][i / pow2(canonical::col_bits(config, Kind::ALn)) as int];
            &&& commitments::target_at(segments::check_at(config, 0), polys, config, i) == a - q * s
            &&& commitments::target_at(segments::check_at(config, 1), polys, config, i) == ((q * s
                + s) - a) - EF::one()
        }),
{
    let n = canonical::all_bits(config, Kind::ALn);
    let (a, q) = (polys[Kind::ALn.text()][i], polys[Kind::QLn.text()][i]);
    let s = polys[Kind::Std.text()][i / pow2(canonical::col_bits(config, Kind::ALn)) as int];
    let (c, d) = (segments::check_at(config, 0), segments::check_at(config, 1));
    assert(canonical::all_bits(config, Kind::QLn) == n);
    lemma_whole_entry(config, w, polys, Kind::ALn, i);
    lemma_whole_entry(config, w, polys, Kind::QLn, i);
    lemma_deviation_entry(config, w, polys, i);
    lemma_division_targets(a, q, s);
    let (tc, td) = (
        values::vertex_terms(c.linears, polys, n, i),
        values::vertex_terms(d.linears, polys, n, i),
    );
    assert(tc[0] == a);
    assert(td[0] == s && td[1] == a);
    lemma_two_terms(EF::zero() + (segments::minus_one() * q) * s, c.linears, tc);
    lemma_two_terms(segments::minus_one() + (EF::one() * q) * s, d.linears, td);
}

proof fn lemma_bound_entry(
    config: Config,
    w: ModelWeights,
    polys: Map<Seq<char>, Seq<EF>>,
    kind: Kind,
    i: int,
)
    requires
        commitments_sound(config, w, polys),
        0 <= i < pow2(canonical::all_bits(config, kind)),
    ensures
        commitments::target_at(segments::bound_check(config, kind), polys, config, i)
            == polys[kind.text()][i] + EF::embed(0x100_0000),
{
    let n = canonical::all_bits(config, kind);
    let q = polys[kind.text()][i];
    let c = segments::bound_check(config, kind);
    lemma_whole_entry(config, w, polys, kind, i);
    algebra::one_mul(q);
    EF::law_add_comm(q, EF::embed(QUOTIENT_LIMB_OFFSET as int));
    let tc = values::vertex_terms(c.linears, polys, n, i);
    assert(tc[0] == q);
    lemma_two_terms(EF::embed(QUOTIENT_LIMB_OFFSET as int), c.linears, tc);
}

/// The committed roots: the committed limbs of the square root stand, at the drawn points,
/// for `var + 1 - std^2 + std` and for `std^2 + std - var - 1`, entry by entry of the
/// committed variances and deviations, unless a draw lets a false square pass. With limbs
/// in range, `std` is then the rounded root of `var + 1`.
#[verifier::rlimit(40)]
#[verifier::spinoff_prover]
pub proof fn law_roots_sound(
    proof: UnifiedProof,
    config: Config,
    w: ModelWeights,
    polys: Map<Seq<char>, Seq<EF>>,
    tape: Seq<EF>,
)
    requires
        accepted_over(proof, config, w, polys, tape),
    ensures
        ({
            let (var, std) = (polys[Kind::Var.text()], polys[Kind::Std.text()]);
            let p = check_point_of(proof, config, w, tape, 2);
            multilinear::mle(recomposed_table(polys[SQRT_LO_LIMB@]), p) == multilinear::mle(
                Seq::new(
                    std.len(),
                    |i: int| ((var[i] + EF::one()) - std[i] * std[i]) + std[i],
                ),
                p,
            ) || check_of_lucky(proof, config, w, polys, tape, 2)
        }),
        ({
            let (var, std) = (polys[Kind::Var.text()], polys[Kind::Std.text()]);
            let p = check_point_of(proof, config, w, tape, 3);
            multilinear::mle(recomposed_table(polys[SQRT_HI_LIMB@]), p) == multilinear::mle(
                Seq::new(
                    std.len(),
                    |i: int| ((std[i] * std[i] + std[i]) - var[i]) - EF::one(),
                ),
                p,
            ) || check_of_lucky(proof, config, w, polys, tape, 3)
        }),
{
    let n = canonical::all_bits(config, Kind::Std);
    let (var, std) = (polys[Kind::Var.text()], polys[Kind::Std.text()]);
    assert(canonical::all_bits(config, Kind::Var) == n);
    vstd::arithmetic::power2::lemma_pow2_pos(n);
    lemma_whole_entry(config, w, polys, Kind::Std, 0);
    let lo = Seq::new(std.len(), |i: int| ((var[i] + EF::one()) - std[i] * std[i]) + std[i]);
    let hi = Seq::new(std.len(), |i: int| ((std[i] * std[i] + std[i]) - var[i]) - EF::one());
    lemma_accepted_check(proof, config, w, polys, tape, 2);
    lemma_accepted_check(proof, config, w, polys, tape, 3);
    let (c, d) = (segments::check_at(config, 2), segments::check_at(config, 3));
    let tc = Seq::new(pow2(n), |k: int| commitments::target_at(c, polys, config, k));
    let td = Seq::new(pow2(n), |k: int| commitments::target_at(d, polys, config, k));
    assert forall|i: int| 0 <= i < pow2(n) implies #[trigger] tc[i] == lo[i] by {
        lemma_root_entries(config, w, polys, i);
    }
    assert forall|i: int| 0 <= i < pow2(n) implies #[trigger] td[i] == hi[i] by {
        lemma_root_entries(config, w, polys, i);
    }
    assert(tc =~= lo);
    assert(td =~= hi);
}

/// The committed divisions of the layer normalizations: the committed limbs stand, at the
/// drawn points, for the remainder `a - q std` and for `q std + std - a - 1`, with the
/// deviation of the entry's own row, unless a draw lets a false product pass. With limbs
/// in range, `q` is then the floor of `a / std`.
#[verifier::rlimit(40)]
#[verifier::spinoff_prover]
pub proof fn law_divisions_sound(
    proof: UnifiedProof,
    config: Config,
    w: ModelWeights,
    polys: Map<Seq<char>, Seq<EF>>,
    tape: Seq<EF>,
)
    requires
        accepted_over(proof, config, w, polys, tape),
    ensures
        ({
            let (a, q) = (polys[Kind::ALn.text()], polys[Kind::QLn.text()]);
            let std = polys[Kind::Std.text()];
            let cols = pow2(canonical::col_bits(config, Kind::ALn)) as int;
            let p = check_point_of(proof, config, w, tape, 0);
            multilinear::mle(recomposed_table(polys[LN_REM_LIMB@]), p) == multilinear::mle(
                Seq::new(a.len(), |i: int| a[i] - q[i] * std[i / cols]),
                p,
            ) || check_of_lucky(proof, config, w, polys, tape, 0)
        }),
        ({
            let (a, q) = (polys[Kind::ALn.text()], polys[Kind::QLn.text()]);
            let std = polys[Kind::Std.text()];
            let cols = pow2(canonical::col_bits(config, Kind::ALn)) as int;
            let p = check_point_of(proof, config, w, tape, 1);
            multilinear::mle(recomposed_table(polys[LN_REM_HI_LIMB@]), p) == multilinear::mle(
                Seq::new(
                    a.len(),
                    |i: int| ((q[i] * std[i / cols] + std[i / cols]) - a[i]) - EF::one(),
                ),
                p,
            ) || check_of_lucky(proof, config, w, polys, tape, 1)
        }),
{
    let n = canonical::all_bits(config, Kind::ALn);
    let (a, q) = (polys[Kind::ALn.text()], polys[Kind::QLn.text()]);
    let std = polys[Kind::Std.text()];
    let cols = pow2(canonical::col_bits(config, Kind::ALn)) as int;
    assert(canonical::all_bits(config, Kind::QLn) == n);
    vstd::arithmetic::power2::lemma_pow2_pos(n);
    lemma_whole_entry(config, w, polys, Kind::ALn, 0);
    let lo = Seq::new(a.len(), |i: int| a[i] - q[i] * std[i / cols]);
    let hi = Seq::new(
        a.len(),
        |i: int| ((q[i] * std[i / cols] + std[i / cols]) - a[i]) - EF::one(),
    );
    lemma_accepted_check(proof, config, w, polys, tape, 0);
    lemma_accepted_check(proof, config, w, polys, tape, 1);
    let (c, d) = (segments::check_at(config, 0), segments::check_at(config, 1));
    let tc = Seq::new(pow2(n), |k: int| commitments::target_at(c, polys, config, k));
    let td = Seq::new(pow2(n), |k: int| commitments::target_at(d, polys, config, k));
    assert forall|i: int| 0 <= i < pow2(n) implies #[trigger] tc[i] == lo[i] by {
        lemma_division_entries(config, w, polys, i);
    }
    assert forall|i: int| 0 <= i < pow2(n) implies #[trigger] td[i] == hi[i] by {
        lemma_division_entries(config, w, polys, i);
    }
    assert(tc =~= lo);
    assert(td =~= hi);
}

/// Check `i` bounds the committed quotients of `kind`.
pub open spec fn bounds_kind(kind: Kind, i: int) -> bool {
    ||| kind == Kind::QLn && i == 4
    ||| kind == Kind::QQkv && i == 5
    ||| kind == Kind::QSc && i == 6
    ||| kind == Kind::QAo && i == 7
    ||| kind == Kind::QApr && i == 8
    ||| kind == Kind::QFc && i == 9
    ||| kind == Kind::QFpr && i == 10
    ||| kind == Kind::QLog && i == 11
}

/// The committed quotients are bounded: the committed limbs of each of the eight kinds of
/// quotients stand, at the drawn point, for the quotients plus the offset.
#[verifier::rlimit(40)]
#[verifier::spinoff_prover]
pub proof fn law_bounds_sound(
    proof: UnifiedProof,
    config: Config,
    w: ModelWeights,
    polys: Map<Seq<char>, Seq<EF>>,
    tape: Seq<EF>,
    kind: Kind,
    i: int,
)
    requires
        accepted_over(proof, config, w, polys, tape),
        bounds_kind(kind, i),
    ensures
        ({
            let q = polys[kind.text()];
            let p = check_point_of(proof, config, w, tape, i);
            multilinear::mle(recomposed_table(polys[segments::bound_text(kind)]), p)
                == multilinear::mle(
                Seq::new(q.len(), |k: int| q[k] + EF::embed(0x100_0000)),
                p,
            )
        }),
{
    let n = canonical::all_bits(config, kind);
    let q = polys[kind.text()];
    vstd::arithmetic::power2::lemma_pow2_pos(n);
    lemma_whole_entry(config, w, polys, kind, 0);
    lemma_accepted_check(proof, config, w, polys, tape, i);
    let c = segments::check_at(config, i);
    assert(c == segments::bound_check(config, kind));
    let t = Seq::new(pow2(n), |k: int| commitments::target_at(c, polys, config, k));
    let want = Seq::new(q.len(), |k: int| q[k] + EF::embed(0x100_0000));
    assert forall|k: int| 0 <= k < pow2(n) implies #[trigger] t[k] == want[k] by {
        lemma_bound_entry(config, w, polys, kind, k);
    }
    assert(t =~= want);
}

} // verus!
