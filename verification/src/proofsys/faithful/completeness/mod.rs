//! Completeness of the unified proof: what the honest prover sends is accepted.
//!
//! For any set of polynomials that commits to a run: the lookup table, the witness's
//! matrices, the limbs and the multiplicities, with every query row a row of the table.
use vstd::prelude::*;
use crate::algebra;
use crate::field::Field;
use crate::logup::frac_sum;
use crate::logup::lookup;
use crate::multilinear;
use crate::proofsys::canonical;
use crate::proofsys::commit;
use crate::proofsys::faithful::commitments;
use crate::proofsys::faithful::openings;
use crate::proofsys::faithful::openings::UnifiedProof;
use crate::proofsys::faithful::protocol;
use crate::proofsys::faithful::segments;
use crate::proofsys::faithful::segments::{CheckView, CHECKS, E, TABLE_IN, TABLE_OUT, TABLE_TYPE};
use crate::proofsys::faithful::shapes;
use crate::proofsys::faithful::table;
use crate::proofsys::model::ModelWeights;
use crate::proofsys::protocol::EF;
use crate::proofsys::witness::{Config, WitnessView};
use crate::utils::poly;

pub mod cells;
pub mod committed;
pub mod forward;
pub mod limbs;
pub mod listed;
pub mod opened;
pub mod query;

verus! {

/// The limbs of a check are committed, and its values have two limbs.
pub open spec fn limbs_committed(
    c: CheckView,
    polys: Map<Seq<char>, Seq<EF>>,
    config: Config,
) -> bool {
    &&& polys[c.limbs] == commitments::limb_table(c, polys, config)
    &&& commitments::targets_fit(c, polys, config)
}

/// The lookup table is committed.
pub open spec fn table_committed(
    polys: Map<Seq<char>, Seq<EF>>,
    config: Config,
    w: ModelWeights,
) -> bool {
    &&& polys[TABLE_IN@] == table::input_column(config, w)
    &&& polys[TABLE_OUT@] == table::output_column(config, w)
    &&& polys[TABLE_TYPE@] == table::type_column(config, w)
}

/// The polynomials commit to a run whose query rows are all rows of the table.
pub open spec fn run_committed(
    config: Config,
    w: ModelWeights,
    wit: WitnessView,
    polys: Map<Seq<char>, Seq<EF>>,
) -> bool {
    let s = segments::all_segments(config, w);
    &&& segments::query_fits(config, w)
    &&& shapes::limbs_fit(config)
    &&& canonical::witness_shaped(wit, config)
    &&& shapes::all_ready(polys, config, w)
    &&& opened::polys_valid(polys)
    &&& table_committed(polys, config, w)
    &&& polys[E@] == commitments::multiplicities(polys, config, w, wit)
    &&& forall|i: int|
        0 <= i < CHECKS ==> limbs_committed(
            #[trigger] segments::check_at(config, i),
            polys,
            config,
        )
    &&& forall|i: int|
        0 <= i < s.len() ==> opened::segment_committed(config, w, wit, polys, #[trigger] s[i])
    &&& query::all_listed(s, polys, config, w, wit)
}

/// Opening `i` is the honest one's, accepted and true.
spec fn settled(
    proof: UnifiedProof,
    config: Config,
    w: ModelWeights,
    wit: WitnessView,
    polys: Map<Seq<char>, Seq<EF>>,
    tape: Seq<EF>,
    i: int,
) -> bool {
    let s = segments::all_segments(config, w);
    opened::opens_segment(
        config,
        w,
        wit,
        polys,
        s[i],
        proof.segment_openings@[i],
        protocol::query_point(config, w, tape).take(s[i].vars as int),
        protocol::desc_tape(config, s, protocol::segments_tape(config, w, tape), i),
    )
}

/// What is asked of the honest proof and the challenges.
#[verifier::opaque]
spec fn honest_run(
    proof: UnifiedProof,
    config: Config,
    w: ModelWeights,
    wit: WitnessView,
    polys: Map<Seq<char>, Seq<EF>>,
    tape: Seq<EF>,
) -> bool {
    &&& run_committed(config, w, wit, polys)
    &&& tape.len() == protocol::honest_draws(config, w)
    &&& algebra::all_valid(tape)
    &&& protocol::honest_unified(proof, config, w, wit, polys, tape)
}

proof fn lemma_query_point(config: Config, w: ModelWeights, tape: Seq<EF>)
    requires
        tape.len() == protocol::honest_draws(config, w),
        algebra::all_valid(tape),
    ensures
        protocol::query_point(config, w, tape).len() == segments::query_bits(config, w),
        protocol::table_point(config, w, tape).len() == table::table_bits(config, w),
        protocol::lookup_tape(config, w, tape).len() == protocol::lookup_size(config, w),
        algebra::all_valid(protocol::lookup_tape(config, w, tape)),
        protocol::segments_tape(config, w, tape).len() == protocol::segments_size(config, w),
        algebra::all_valid(protocol::segments_tape(config, w, tape)),
        protocol::checks_tape(config, w, tape).len() == protocol::checks_read(
            config,
            CHECKS as nat,
        ),
        algebra::all_valid(protocol::checks_tape(config, w, tape)),
{
    let (mu, nu) = (segments::query_bits(config, w), table::table_bits(config, w));
    let lt = protocol::lookup_tape(config, w, tape);
    frac_sum::lemma_point_len(lookup::query_tape(lt, mu), mu);
    frac_sum::lemma_point_len(lookup::table_tape(lt, mu, nu), nu);
    let st = protocol::segments_tape(config, w, tape);
    let ct = protocol::checks_tape(config, w, tape);
    let a = 1 + protocol::lookup_size(config, w) as int;
    let b = a + protocol::segments_size(config, w);
    assert forall|i: int| 0 <= i < lt.len() implies (#[trigger] lt[i]).valid() by {
        assert(tape[1 + i].valid());
    }
    assert forall|i: int| 0 <= i < st.len() implies (#[trigger] st[i]).valid() by {
        assert(tape[a + i].valid());
    }
    assert forall|i: int| 0 <= i < ct.len() implies (#[trigger] ct[i]).valid() by {
        assert(tape[b + i].valid());
    }
}

/// Every honest opening is accepted.
#[verifier::rlimit(40)]
#[verifier::spinoff_prover]
proof fn lemma_settled(
    proof: UnifiedProof,
    config: Config,
    w: ModelWeights,
    wit: WitnessView,
    polys: Map<Seq<char>, Seq<EF>>,
    tape: Seq<EF>,
    i: int,
)
    requires
        honest_run(proof, config, w, wit, polys, tape),
        0 <= i < segments::all_segments(config, w).len(),
    ensures
        settled(proof, config, w, wit, polys, tape, i),
        protocol::desc_tape(
            config,
            segments::all_segments(config, w),
            protocol::segments_tape(config, w, tape),
            i,
        ).len() == openings::desc_draws(config, segments::all_segments(config, w)[i]),
{
    reveal(honest_run);
    let s = segments::all_segments(config, w);
    let o = proof.segment_openings@;
    let zq = protocol::query_point(config, w, tape);
    let st = protocol::segments_tape(config, w, tape);
    lemma_query_point(config, w, tape);
    shapes::lemma_segments_ok(config, w);
    protocol::lemma_all_within(config, w);
    assert(protocol::within(s[i], zq.len()));
    assert(shapes::segment_ok(config, w, s[i]));
    let ch = protocol::desc_tape(config, s, st, i);
    protocol::lemma_descs_read(config, s, (i + 1) as nat, s.len());
    protocol::lemma_descs_read(config, s, i as nat, (i + 1) as nat);
    assert forall|k: int| 0 <= k < ch.len() implies (#[trigger] ch[k]).valid() by {
        assert(st[protocol::descs_read(config, s, i as nat) + k].valid());
    }
    assert(protocol::honest_at(o, config, w, wit, s, polys, zq, st, i));
    assert(opened::segment_committed(config, w, wit, polys, s[i]));
    opened::law_segment_complete(
        config,
        w,
        wit,
        polys,
        s[i],
        o[i],
        zq.take(s[i].vars as int),
        ch,
    );
}

/// Verification reads the prover's challenges.
proof fn lemma_reads(
    proof: UnifiedProof,
    config: Config,
    w: ModelWeights,
    wit: WitnessView,
    polys: Map<Seq<char>, Seq<EF>>,
    tape: Seq<EF>,
    n: nat,
)
    requires
        honest_run(proof, config, w, wit, polys, tape),
        n <= segments::all_segments(config, w).len(),
    ensures
        protocol::segments_read(
            segments::all_segments(config, w),
            proof.segment_openings@,
            n,
        ) == protocol::descs_read(config, segments::all_segments(config, w), n),
    decreases n,
{
    if n > 0 {
        lemma_reads(proof, config, w, wit, polys, tape, (n - 1) as nat);
        lemma_settled(proof, config, w, wit, polys, tape, n - 1);
    }
}

/// The lookup is accepted with the true values of the query, the multiplicities and
/// the table, and reads the prover's challenges.
proof fn lemma_lookup(
    proof: UnifiedProof,
    config: Config,
    w: ModelWeights,
    wit: WitnessView,
    polys: Map<Seq<char>, Seq<EF>>,
    tape: Seq<EF>,
)
    requires
        honest_run(proof, config, w, wit, polys, tape),
    ensures
        proof.lookup.query.layers@.len() == segments::query_bits(config, w),
        proof.lookup.table.layers@.len() == table::table_bits(config, w),
        ({
            let zq = protocol::query_point(config, w, tape);
            let zt = protocol::table_point(config, w, tape);
            lookup::lookup_claims(proof.lookup, protocol::lookup_tape(config, w, tape)) == Some(
                seq![
                    lookup::ClaimView {
                        poly: lookup::Poly::Query,
                        point: zq,
                        value: multilinear::mle(
                            commitments::query_table(tape[0], polys, config, w, wit),
                            zq,
                        ),
                    },
                    lookup::ClaimView {
                        poly: lookup::Poly::Mult,
                        point: zt,
                        value: multilinear::mle(polys[E@], zt),
                    },
                    lookup::ClaimView {
                        poly: lookup::Poly::Table,
                        point: zt,
                        value: multilinear::mle(
                            table::folded_table(tape[0], config, w),
                            zt,
                        ),
                    },
                ],
            )
        }),
{
    reveal(honest_run);
    let (mu, nu) = (segments::query_bits(config, w), table::table_bits(config, w));
    let alpha = tape[0];
    let lt = protocol::lookup_tape(config, w, tape);
    lemma_query_point(config, w, tape);
    let q = commitments::query_table(alpha, polys, config, w, wit);
    let t = table::folded_table(alpha, config, w);
    query::law_query_extension(
        alpha,
        config,
        w,
        wit,
        polys,
        protocol::query_point(config, w, tape),
    );
    query::law_query_found(alpha, polys, config, w, wit);
    query::law_multiplicities(polys, config, w, wit);
    assert forall|i: int| 0 <= i < t.len() implies (#[trigger] t[i]).valid() by {
        let row = table::row_at(config, w, i);
        EF::law_valid(
            EF::embed(row.input) + alpha * EF::embed(row.output),
            (alpha * alpha) * EF::embed(row.ty),
        );
    }
    let idx = query::query_indices(polys, config, w, wit);
    lookup::law_listed_complete(proof.lookup, q, t, idx, mu, nu, lt);
    poly::lemma_exponent(mu);
    poly::lemma_exponent(nu);
    assert(proof.lookup.query.contents().len() == mu);
    assert(proof.lookup.table.contents().len() == nu);
}

/// What verification adds up from the segments is what the query's rows give.
proof fn lemma_reconstructed(
    proof: UnifiedProof,
    config: Config,
    w: ModelWeights,
    wit: WitnessView,
    polys: Map<Seq<char>, Seq<EF>>,
    tape: Seq<EF>,
    n: nat,
)
    requires
        honest_run(proof, config, w, wit, polys, tape),
        n <= segments::all_segments(config, w).len(),
    ensures
        protocol::reconstructed(
            config,
            tape[0],
            segments::all_segments(config, w),
            proof.segment_openings@,
            protocol::query_point(config, w, tape),
            protocol::segments_tape(config, w, tape),
            n,
        ) == query::shares(
            tape[0],
            segments::all_segments(config, w),
            polys,
            config,
            w,
            wit,
            protocol::query_point(config, w, tape),
            n,
        ),
        commit::all_hold(
            protocol::segments_claims(
                config,
                segments::all_segments(config, w),
                proof.segment_openings@,
                protocol::query_point(config, w, tape),
                protocol::segments_tape(config, w, tape),
                n,
            ),
            polys,
        ),
    decreases n,
{
    reveal(honest_run);
    let s = segments::all_segments(config, w);
    let o = proof.segment_openings@;
    let zq = protocol::query_point(config, w, tape);
    let st = protocol::segments_tape(config, w, tape);
    if n > 0 {
        let m = (n - 1) as nat;
        lemma_reconstructed(proof, config, w, wit, polys, tape, m);
        lemma_settled(proof, config, w, wit, polys, tape, n - 1);
        lemma_reads(proof, config, w, wit, polys, tape, m);
        lemma_reads(proof, config, w, wit, polys, tape, n);
        lemma_query_point(config, w, tape);
        protocol::lemma_all_within(config, w);
        assert(protocol::within(s[n - 1], zq.len()));
        let local = zq.take(s[n - 1].vars as int);
        query::lemma_folded_value(tape[0], s[n - 1], polys, config, w, wit, local);
        commit::lemma_all_hold_join(
            protocol::segments_claims(config, s, o, zq, st, m),
            openings::segment_claims(
                config,
                s[n - 1],
                o[n - 1],
                local,
                protocol::segment_tape(s, o, st, n - 1),
            ),
            polys,
        );
    }
}

/// A limb check is accepted, and its openings are true.
proof fn lemma_check_settled(
    proof: UnifiedProof,
    config: Config,
    w: ModelWeights,
    wit: WitnessView,
    polys: Map<Seq<char>, Seq<EF>>,
    tape: Seq<EF>,
    i: int,
)
    requires
        honest_run(proof, config, w, wit, polys, tape),
        0 <= i < CHECKS,
    ensures
        protocol::check_accepted(
            config,
            proof.recomps@,
            protocol::checks_tape(config, w, tape),
            i,
        ),
        commit::all_hold(
            openings::recomp_claims(
                config,
                segments::check_at(config, i),
                proof.recomps@[i],
                protocol::check_tape(config, protocol::checks_tape(config, w, tape), i),
            ),
            polys,
        ),
{
    reveal(honest_run);
    let ct = protocol::checks_tape(config, w, tape);
    let r = proof.recomps@;
    let c = segments::check_at(config, i);
    let ch = protocol::check_tape(config, ct, i);
    lemma_query_point(config, w, tape);
    protocol::lemma_checks_read(config, (i + 1) as nat, CHECKS as nat);
    protocol::lemma_checks_read(config, i as nat, (i + 1) as nat);
    assert forall|k: int| 0 <= k < ch.len() implies (#[trigger] ch[k]).valid() by {
        assert(ct[protocol::checks_read(config, i as nat) + k].valid());
    }
    shapes::lemma_check_ok(config, w, i);
    assert(protocol::honest_check(r, config, polys, ct, i));
    assert(limbs_committed(segments::check_at(config, i), polys, config));
    limbs::law_check_complete(config, w, polys, c, r[i], ch);
}

/// The limb checks are accepted, and their openings are true.
proof fn lemma_checks(
    proof: UnifiedProof,
    config: Config,
    w: ModelWeights,
    wit: WitnessView,
    polys: Map<Seq<char>, Seq<EF>>,
    tape: Seq<EF>,
    n: nat,
)
    requires
        honest_run(proof, config, w, wit, polys, tape),
        n <= CHECKS,
    ensures
        forall|i: int|
            0 <= i < n ==> #[trigger] protocol::check_accepted(
                config,
                proof.recomps@,
                protocol::checks_tape(config, w, tape),
                i,
            ),
        commit::all_hold(
            protocol::checks_claims(
                config,
                proof.recomps@,
                protocol::checks_tape(config, w, tape),
                n,
            ),
            polys,
        ),
    decreases n,
{
    let ct = protocol::checks_tape(config, w, tape);
    let r = proof.recomps@;
    if n > 0 {
        let m = (n - 1) as nat;
        lemma_checks(proof, config, w, wit, polys, tape, m);
        lemma_check_settled(proof, config, w, wit, polys, tape, n - 1);
        commit::lemma_all_hold_join(
            protocol::checks_claims(config, r, ct, m),
            openings::recomp_claims(
                config,
                segments::check_at(config, n - 1),
                r[n - 1],
                protocol::check_tape(config, ct, n - 1),
            ),
            polys,
        );
    }
}

/// Completeness: if the polynomials commit to a run whose query rows are all rows of
/// the table, the honest proof is accepted, whatever the challenges, and verification
/// reads as many of them as the prover.
#[verifier::rlimit(40)]
pub proof fn law_unified_complete(
    proof: UnifiedProof,
    config: Config,
    w: ModelWeights,
    wit: WitnessView,
    polys: Map<Seq<char>, Seq<EF>>,
    tape: Seq<EF>,
)
    requires
        run_committed(config, w, wit, polys),
        tape.len() == protocol::honest_draws(config, w),
        algebra::all_valid(tape),
        protocol::honest_unified(proof, config, w, wit, polys, tape),
    ensures
        protocol::unified_draws(proof, config, w) == protocol::honest_draws(config, w),
        protocol::unified_accepted(proof, config, w, polys, tape),
{
    reveal(honest_run);
    let s = segments::all_segments(config, w);
    let o = proof.segment_openings@;
    let (zq, zt) = (
        protocol::query_point(config, w, tape),
        protocol::table_point(config, w, tape),
    );
    let st = protocol::segments_tape(config, w, tape);
    let ct = protocol::checks_tape(config, w, tape);
    let alpha = tape[0];
    lemma_query_point(config, w, tape);
    lemma_lookup(proof, config, w, wit, polys, tape);
    lemma_reads(proof, config, w, wit, polys, tape, s.len());
    assert(protocol::lookup_part(proof, tape) =~= protocol::lookup_tape(config, w, tape));
    assert(protocol::segments_part(proof, config, w, tape) =~= st);
    assert(protocol::checks_part(proof, config, w, tape) =~= ct);
    lemma_checks(proof, config, w, wit, polys, tape, CHECKS as nat);
    lemma_reconstructed(proof, config, w, wit, polys, tape, s.len());
    query::law_query_extension(alpha, config, w, wit, polys, zq);
    assert forall|i: int| 0 <= i < s.len() implies #[trigger] protocol::value_at(
        config,
        s,
        o,
        zq,
        st,
        i,
    ) is Some by {
        lemma_settled(proof, config, w, wit, polys, tape, i);
        lemma_reads(proof, config, w, wit, polys, tape, i as nat);
        lemma_reads(proof, config, w, wit, polys, tape, (i + 1) as nat);
    }
    let (x, y, z) = (
        table::input_column(config, w),
        table::output_column(config, w),
        table::type_column(config, w),
    );
    query::lemma_fold_extension(alpha, x, y, z, zt);
    assert(query::folded(alpha, x, y, z) =~= table::folded_table(alpha, config, w));
    let head = seq![
        commit::opening(TABLE_IN@, zt, proof.table_cols@[0]),
        commit::opening(TABLE_OUT@, zt, proof.table_cols@[1]),
        commit::opening(TABLE_TYPE@, zt, proof.table_cols@[2]),
    ];
    assert(commit::all_hold(head, polys));
    let sc = protocol::segments_claims(config, s, o, zq, st, s.len());
    let cc = protocol::checks_claims(config, proof.recomps@, ct, CHECKS as nat);
    let tail = seq![commit::opening(E@, zt, multilinear::mle(polys[E@], zt))];
    assert(commit::all_hold(tail, polys));
    commit::lemma_all_hold_join(head, sc, polys);
    commit::lemma_all_hold_join(head + sc, cc, polys);
    commit::lemma_all_hold_join(head + sc + cc, tail, polys);
}

} // verus!
