//! The unified protocol: one lookup over all segments, the openings that tie its query
//! to the committed polynomials, and the limb checks.
use vstd::prelude::*;
use vstd::arithmetic::power2::pow2;
use crate::algebra;
use crate::field::Field;
use crate::logup::frac_sum;
use crate::logup::lookup;
use crate::logup::lookup::ClaimView;
use crate::multilinear;
use crate::proofsys::canonical;
use crate::proofsys::commit;
use crate::proofsys::commit::{ClaimAccumulator, CommitSet, OracleClaimView};
use crate::proofsys::faithful::commitments;
use crate::proofsys::faithful::openings;
use crate::proofsys::faithful::openings::{RecompProof, SegmentOpening, UnifiedProof};
use crate::proofsys::faithful::segments;
use crate::proofsys::faithful::segments::{
    DescView, Descriptor, LimbCheckSpec, CHECKS, E, TABLE_IN, TABLE_OUT, TABLE_TYPE,
};
use crate::proofsys::faithful::shapes;
use crate::proofsys::faithful::table;
use crate::proofsys::faithful::table::TYPE_RANGE12;
use crate::proofsys::faithful::values;
use crate::proofsys::model::ModelWeights;
use crate::proofsys::protocol::EF;
use crate::proofsys::witness::{Config, Witness, WitnessView};
use crate::utils::oracle::RandomOracle;
use crate::utils::poly;

verus! {

/// Number of challenges read for the first `n` segments.
pub open spec fn segments_read(s: Seq<DescView>, o: Seq<SegmentOpening>, n: nat) -> nat
    decreases n,
{
    if n == 0 {
        0
    } else {
        segments_read(s, o, (n - 1) as nat) + openings::segment_draws(s[n - 1], o[n - 1])
    }
}

pub proof fn lemma_segments_read(s: Seq<DescView>, o: Seq<SegmentOpening>, a: nat, b: nat)
    requires
        a <= b,
    ensures
        segments_read(s, o, a) <= segments_read(s, o, b),
    decreases b - a,
{
    if a < b {
        lemma_segments_read(s, o, (a + 1) as nat, b);
    }
}

/// The challenges of segment `i`.
pub open spec fn segment_tape(
    s: Seq<DescView>,
    o: Seq<SegmentOpening>,
    tape: Seq<EF>,
    i: int,
) -> Seq<EF> {
    tape.subrange(
        segments_read(s, o, i as nat) as int,
        segments_read(s, o, (i + 1) as nat) as int,
    )
}

/// The input of segment `i` at the query point.
pub open spec fn value_at(
    config: Config,
    s: Seq<DescView>,
    o: Seq<SegmentOpening>,
    zq: Seq<EF>,
    tape: Seq<EF>,
    i: int,
) -> Option<EF> {
    openings::segment_value(
        config,
        s[i],
        o[i],
        zq.take(s[i].vars as int),
        segment_tape(s, o, tape, i),
    )
}

/// Number of challenges that the checks of the segments from `i` on read: they stop at
/// the first segment that is rejected.
pub open spec fn segments_used(
    config: Config,
    s: Seq<DescView>,
    o: Seq<SegmentOpening>,
    zq: Seq<EF>,
    tape: Seq<EF>,
    i: nat,
) -> nat
    decreases s.len() - i,
{
    if i >= s.len() {
        0
    } else {
        openings::segment_read(s[i as int], o[i as int], segment_tape(s, o, tape, i as int)) + (
        if value_at(config, s, o, zq, tape, i as int) is Some {
            segments_used(config, s, o, zq, tape, i + 1)
        } else {
            0
        })
    }
}

/// The weight of a segment's block at the query point.
pub open spec fn selector(zq: Seq<EF>, d: DescView) -> EF {
    multilinear::eq_table(zq.skip(d.vars as int))[((d.start / pow2(d.vars)) % pow2(
        (zq.len() - d.vars) as nat,
    )) as int]
}

/// The part of the query's value that the first `n` segments give.
pub open spec fn reconstructed(
    config: Config,
    alpha: EF,
    s: Seq<DescView>,
    o: Seq<SegmentOpening>,
    zq: Seq<EF>,
    tape: Seq<EF>,
    n: nat,
) -> EF
    decreases n,
{
    if n == 0 {
        EF::zero()
    } else {
        reconstructed(config, alpha, s, o, zq, tape, (n - 1) as nat) + selector(zq, s[n - 1])
            * table::fold(
            alpha,
            value_at(config, s, o, zq, tape, n - 1)->0,
            openings::output_value(o[n - 1]),
            EF::embed(s[n - 1].ty),
        )
    }
}

/// `start` and the padding rows `from..from + n` of the query at the query point.
pub open spec fn with_padding(start: EF, alpha: EF, zq: Seq<EF>, from: nat, n: nat) -> EF
    decreases n,
{
    if n == 0 {
        start
    } else {
        with_padding(start, alpha, zq, from, (n - 1) as nat) + multilinear::eq_table(zq)[from + n
            - 1] * commitments::default_row(alpha)
    }
}

/// The claims of the first `n` segments.
pub open spec fn segments_claims(
    config: Config,
    s: Seq<DescView>,
    o: Seq<SegmentOpening>,
    zq: Seq<EF>,
    tape: Seq<EF>,
    n: nat,
) -> Seq<OracleClaimView>
    decreases n,
{
    if n == 0 {
        Seq::empty()
    } else {
        segments_claims(config, s, o, zq, tape, (n - 1) as nat) + openings::segment_claims(
            config,
            s[n - 1],
            o[n - 1],
            zq.take(s[n - 1].vars as int),
            segment_tape(s, o, tape, n - 1),
        )
    }
}

/// Number of challenges read for the first `n` limb checks.
pub open spec fn checks_read(config: Config, n: nat) -> nat
    decreases n,
{
    if n == 0 {
        0
    } else {
        checks_read(config, (n - 1) as nat) + openings::check_draws(
            config,
            segments::check_at(config, n - 1),
        )
    }
}

pub proof fn lemma_checks_read(config: Config, a: nat, b: nat)
    requires
        a <= b,
    ensures
        checks_read(config, a) <= checks_read(config, b),
    decreases b - a,
{
    if a < b {
        lemma_checks_read(config, (a + 1) as nat, b);
    }
}

/// The challenges of limb check `i`.
pub open spec fn check_tape(config: Config, tape: Seq<EF>, i: int) -> Seq<EF> {
    tape.subrange(
        checks_read(config, i as nat) as int,
        checks_read(config, (i + 1) as nat) as int,
    )
}

/// Limb check `i` is accepted.
pub open spec fn check_accepted(
    config: Config,
    r: Seq<RecompProof>,
    tape: Seq<EF>,
    i: int,
) -> bool {
    openings::recomp_accepted(
        config,
        segments::check_at(config, i),
        r[i],
        check_tape(config, tape, i),
    )
}

/// Rounds of the products of the first `n` limb checks.
pub open spec fn recomps_rounds(r: Seq<RecompProof>, n: nat) -> nat
    decreases n,
{
    if n == 0 {
        0
    } else {
        recomps_rounds(r, (n - 1) as nat) + openings::recomp_rounds(r[n - 1])
    }
}

proof fn lemma_recomps_rounds(r: Seq<RecompProof>, i: int, n: nat)
    requires
        0 <= i < n,
    ensures
        openings::recomp_rounds(r[i]) <= recomps_rounds(r, n),
    decreases n,
{
    if i < n - 1 {
        lemma_recomps_rounds(r, i, (n - 1) as nat);
    }
}

/// Number of challenges that the limb checks from `i` on read, from those ahead of the
/// first: they stop at the first check that is rejected.
pub open spec fn checks_used(
    config: Config,
    r: Seq<RecompProof>,
    ahead: Seq<EF>,
    i: nat,
) -> nat
    decreases CHECKS - i,
{
    if i >= CHECKS {
        0
    } else {
        openings::recomp_read(
            config,
            segments::check_at(config, i as int),
            r[i as int],
            ahead.skip(checks_read(config, i) as int),
        ) + (if check_accepted(config, r, ahead, i as int) {
            checks_used(config, r, ahead, i + 1)
        } else {
            0
        })
    }
}

/// The claims of the first `n` limb checks.
pub open spec fn checks_claims(
    config: Config,
    r: Seq<RecompProof>,
    tape: Seq<EF>,
    n: nat,
) -> Seq<OracleClaimView>
    decreases n,
{
    if n == 0 {
        Seq::empty()
    } else {
        checks_claims(config, r, tape, (n - 1) as nat) + openings::recomp_claims(
            config,
            segments::check_at(config, n - 1),
            r[n - 1],
            check_tape(config, tape, n - 1),
        )
    }
}

/// Number of challenges of a lookup proof.
pub open spec fn lookup_read(proof: UnifiedProof) -> nat {
    lookup::lookup_draws(proof.lookup.query.layers@.len(), proof.lookup.table.layers@.len())
}

/// Number of challenges that verification reads.
pub open spec fn unified_draws(proof: UnifiedProof, config: Config, w: ModelWeights) -> nat {
    let s = segments::all_segments(config, w);
    1 + lookup_read(proof) + segments_read(s, proof.segment_openings@, s.len()) + checks_read(
        config,
        CHECKS as nat,
    )
}

/// The challenges of the lookup.
pub open spec fn lookup_part(proof: UnifiedProof, tape: Seq<EF>) -> Seq<EF> {
    tape.subrange(1, (1 + lookup_read(proof)) as int)
}

/// The challenges of the segments.
pub open spec fn segments_part(
    proof: UnifiedProof,
    config: Config,
    w: ModelWeights,
    tape: Seq<EF>,
) -> Seq<EF> {
    let s = segments::all_segments(config, w);
    let from = 1 + lookup_read(proof);
    tape.subrange(
        from as int,
        (from + segments_read(s, proof.segment_openings@, s.len())) as int,
    )
}

/// The challenges of the limb checks.
pub open spec fn checks_part(
    proof: UnifiedProof,
    config: Config,
    w: ModelWeights,
    tape: Seq<EF>,
) -> Seq<EF> {
    let s = segments::all_segments(config, w);
    tape.skip((1 + lookup_read(proof) + segments_read(s, proof.segment_openings@, s.len())) as int)
}

/// The openings of the table columns, of the segments and of the checks, with the
/// multiplicities last.
pub open spec fn requested(
    config: Config,
    s: Seq<DescView>,
    o: Seq<SegmentOpening>,
    r: Seq<RecompProof>,
    cols: Seq<EF>,
    cl: Seq<ClaimView<EF>>,
    st: Seq<EF>,
    ct: Seq<EF>,
) -> Seq<OracleClaimView> {
    seq![
        commit::opening(TABLE_IN@, cl[2].point, cols[0]),
        commit::opening(TABLE_OUT@, cl[2].point, cols[1]),
        commit::opening(TABLE_TYPE@, cl[2].point, cols[2]),
    ] + segments_claims(config, s, o, cl[0].point, st, s.len()) + checks_claims(
        config,
        r,
        ct,
        CHECKS as nat,
    ) + seq![commit::opening(E@, cl[1].point, cl[1].value)]
}

/// The openings that verification requests.
pub open spec fn unified_claims(
    proof: UnifiedProof,
    config: Config,
    w: ModelWeights,
    tape: Seq<EF>,
) -> Seq<OracleClaimView> {
    requested(
        config,
        segments::all_segments(config, w),
        proof.segment_openings@,
        proof.recomps@,
        proof.table_cols@,
        lookup::lookup_claims(proof.lookup, lookup_part(proof, tape))->0,
        segments_part(proof, config, w, tape),
        checks_part(proof, config, w, tape),
    )
}

/// The claims of the lookup agree with the table columns, the segments and the padding.
pub open spec fn lookup_explained(
    proof: UnifiedProof,
    config: Config,
    w: ModelWeights,
    tape: Seq<EF>,
) -> bool {
    let cl = lookup::lookup_claims(proof.lookup, lookup_part(proof, tape))->0;
    &&& cl[2].point.len() == table::table_bits(config, w)
    &&& query_explained(
        proof,
        config,
        w,
        tape[0],
        cl[0].point,
        cl[0].value,
        cl[2].value,
        segments_part(proof, config, w, tape),
    )
}

/// Challenges that cover verification, however many rounds the products of the limb
/// checks have.
pub open spec fn unified_extent(proof: UnifiedProof, config: Config, w: ModelWeights) -> nat {
    unified_draws(proof, config, w) + recomps_rounds(proof.recomps@, proof.recomps@.len())
}

/// Number of challenges that the table columns and the segments read: none if the query
/// point or the table value is wrong.
pub open spec fn explained_used(
    proof: UnifiedProof,
    config: Config,
    w: ModelWeights,
    alpha: EF,
    zq: Seq<EF>,
    table_value: EF,
    tape: Seq<EF>,
) -> nat {
    let cols = proof.table_cols@;
    if zq.len() == segments::query_bits(config, w) && table::fold(
        alpha,
        cols[0],
        cols[1],
        cols[2],
    ) == table_value {
        segments_used(
            config,
            segments::all_segments(config, w),
            proof.segment_openings@,
            zq,
            tape,
            0,
        )
    } else {
        0
    }
}

/// The query's value is what the table columns, the segments and the padding give.
pub open spec fn query_explained(
    proof: UnifiedProof,
    config: Config,
    w: ModelWeights,
    alpha: EF,
    zq: Seq<EF>,
    query_value: EF,
    table_value: EF,
    tape: Seq<EF>,
) -> bool {
    let s = segments::all_segments(config, w);
    let o = proof.segment_openings@;
    let cols = proof.table_cols@;
    &&& zq.len() == segments::query_bits(config, w)
    &&& table::fold(alpha, cols[0], cols[1], cols[2]) == table_value
    &&& forall|i: int| 0 <= i < s.len() ==> #[trigger] value_at(config, s, o, zq, tape, i) is Some
    &&& with_padding(
        reconstructed(config, alpha, s, o, zq, tape, s.len()),
        alpha,
        zq,
        segments::total_len(config, w),
        commitments::padding_rows(config, w) as nat,
    ) == query_value
}

/// Number of challenges that verification reads, from those ahead: it stops at the first
/// check that fails, and reads none if segments are missing.
pub open spec fn unified_read(
    proof: UnifiedProof,
    config: Config,
    w: ModelWeights,
    ahead: Seq<EF>,
) -> nat {
    let lookup_tape = lookup_part(proof, ahead);
    let cl = lookup::lookup_claims(proof.lookup, lookup_tape)->0;
    let st = segments_part(proof, config, w, ahead);
    let first = 1 + lookup::lookup_read(proof.lookup, lookup_tape);
    let second = first + explained_used(
        proof,
        config,
        w,
        ahead[0],
        cl[0].point,
        cl[2].value,
        st,
    );
    if proof.segment_openings@.len() != segments::all_segments(config, w).len() {
        0
    } else if lookup::lookup_claims(proof.lookup, lookup_tape) is None {
        first
    } else if !query_explained(
        proof,
        config,
        w,
        ahead[0],
        cl[0].point,
        cl[0].value,
        cl[2].value,
        st,
    ) || proof.recomps@.len() != CHECKS {
        second
    } else {
        second + checks_used(config, proof.recomps@, checks_part(proof, config, w, ahead), 0)
    }
}

/// What verification accepts, given the challenges and the committed polynomials.
pub open spec fn unified_accepted(
    proof: UnifiedProof,
    config: Config,
    w: ModelWeights,
    polys: Map<Seq<char>, Seq<EF>>,
    tape: Seq<EF>,
) -> bool {
    &&& proof.segment_openings@.len() == segments::all_segments(config, w).len()
    &&& lookup::lookup_claims(proof.lookup, lookup_part(proof, tape)) is Some
    &&& lookup_explained(proof, config, w, tape)
    &&& proof.recomps@.len() == CHECKS
    &&& forall|i: int|
        0 <= i < CHECKS ==> #[trigger] check_accepted(
            config,
            proof.recomps@,
            checks_part(proof, config, w, tape),
            i,
        )
    &&& commit::all_hold(unified_claims(proof, config, w, tape), polys)
}

/// Every segment fits in the query.
pub proof fn lemma_all_within(config: Config, w: ModelWeights)
    requires
        segments::query_fits(config, w),
    ensures
        all_within(segments::all_segments(config, w), segments::query_bits(config, w)),
{
    let s = segments::all_segments(config, w);
    let n = segments::query_bits(config, w);
    commitments::lemma_total(config, w);
    assert forall|i: int| 0 <= i < s.len() implies within(#[trigger] s[i], n) by {
        segments::lemma_length_mono(s, (i + 1) as nat, s.len());
        if s[i].vars > n {
            vstd::arithmetic::power2::lemma_pow2_strictly_increases(n, s[i].vars);
        }
    }
}

/// The weight of a segment's block at the query point.
fn segment_selector(zq: &Vec<EF>, start: usize, vars: usize) -> (r: EF)
    requires
        vars <= zq@.len(),
        pow2(vars as nat) <= usize::MAX,
    ensures
        r == multilinear::eq_table(zq@.skip(vars as int))[((start as nat / pow2(vars as nat))
            % pow2((zq@.len() - vars) as nat)) as int],
{
    let block: usize = commit::two_to(vars);
    let rest = vstd::slice::slice_subrange(zq.as_slice(), vars, zq.len());
    assert(rest@ =~= zq@.skip(vars as int));
    commit::eq_at_index(rest, start / block)
}

/// Checks segment `i`, records its claims, and returns its folded row times its weight.
fn verify_step(
    config: &Config,
    weights: &ModelWeights,
    d: &Descriptor,
    o: &SegmentOpening,
    zq: &Vec<EF>,
    alpha: EF,
    acc: &mut ClaimAccumulator,
    oracle: &mut RandomOracle<EF>,
) -> (r: Option<EF>)
    requires
        segments::segments_fit(*config, *weights),
        shapes::segment_ok(*config, *weights, d.contents()),
        d.vars <= zq@.len(),
        pow2(d.vars as nat) <= usize::MAX,
        old(oracle).has_fields(
            openings::segment_read(
                d.contents(),
                *o,
                old(oracle).upcoming(openings::segment_draws(d.contents(), *o)),
            ) as int,
        ),
    ensures
        ({
            let n = openings::segment_draws(d.contents(), *o);
            let ch = old(oracle).upcoming(n);
            let local = zq@.take(d.vars as int);
            let v = openings::segment_value(*config, d.contents(), *o, local, ch);
            &&& r is Some <==> v is Some
            &&& r is Some ==> r->0 == selector(zq@, d.contents()) * table::fold(
                alpha,
                v->0,
                openings::output_value(*o),
                EF::embed(d.contents().ty),
            )
            &&& r is Some ==> final(acc).contents() == old(acc).contents()
                + openings::segment_claims(*config, d.contents(), *o, local, ch)
            &&& final(oracle).wf()
            &&& old(oracle).advanced(
                *final(oracle),
                openings::segment_read(d.contents(), *o, ch) as int,
                0,
            )
            &&& r is Some ==> old(oracle).advanced(*final(oracle), n as int, 0)
        }),
{
    let local = poly::copy_slice(vstd::slice::slice_subrange(zq.as_slice(), 0, d.vars));
    assert(local@ =~= zq@.take(d.vars as int));
    match openings::verify_segment(config, Ghost(*weights), d, o, &local, acc, oracle) {
        None => None,
        Some(input) => {
            let output: EF = match o.out_value {
                Some(v) => v,
                None => EF::new_zero(),
            };
            let weight = segment_selector(zq, d.start, d.vars);
            Some(weight.mul(table::fold_row(alpha, input, output, d.ty)))
        },
    }
}

/// A segment has at most `n` variables, and its rows can be counted.
pub open spec fn within(d: DescView, n: nat) -> bool {
    d.vars <= n && pow2(d.vars) <= usize::MAX
}

/// All segments have at most `n` variables.
pub open spec fn all_within(s: Seq<DescView>, n: nat) -> bool {
    forall|i: int| 0 <= i < s.len() ==> within(#[trigger] s[i], n)
}

/// Checks all segments and returns the part of the query's value that they give.
fn verify_segments(
    config: &Config,
    weights: &ModelWeights,
    descs: &Vec<Descriptor>,
    opened: &Vec<SegmentOpening>,
    zq: &Vec<EF>,
    alpha: EF,
    acc: &mut ClaimAccumulator,
    oracle: &mut RandomOracle<EF>,
) -> (r: Option<EF>)
    requires
        segments::segments_fit(*config, *weights),
        shapes::all_ok(*config, *weights, segments::desc_views(descs@)),
        opened@.len() == descs@.len(),
        all_within(segments::desc_views(descs@), zq@.len()),
        old(oracle).has_fields(
            segments_used(
                *config,
                segments::desc_views(descs@),
                opened@,
                zq@,
                old(oracle).upcoming(
                    segments_read(segments::desc_views(descs@), opened@, descs@.len()),
                ),
                0,
            ) as int,
        ),
    ensures
        ({
            let s = segments::desc_views(descs@);
            let total = segments_read(s, opened@, s.len());
            let tape = old(oracle).upcoming(total);
            &&& r is Some <==> forall|i: int|
                0 <= i < s.len() ==> #[trigger] value_at(
                    *config,
                    s,
                    opened@,
                    zq@,
                    tape,
                    i,
                ) is Some
            &&& r is Some ==> r->0 == reconstructed(
                *config,
                alpha,
                s,
                opened@,
                zq@,
                tape,
                s.len(),
            )
            &&& r is Some ==> final(acc).contents() == old(acc).contents() + segments_claims(
                *config,
                s,
                opened@,
                zq@,
                tape,
                s.len(),
            )
            &&& final(oracle).wf()
            &&& old(oracle).advanced(
                *final(oracle),
                segments_used(*config, s, opened@, zq@, tape, 0) as int,
                0,
            )
            &&& r is Some ==> old(oracle).advanced(*final(oracle), total as int, 0)
        }),
{
    let ghost s = segments::desc_views(descs@);
    let ghost total = segments_read(s, opened@, s.len());
    let ghost tape = oracle.upcoming(total);
    let ghost used = segments_used(*config, s, opened@, zq@, tape, 0);
    let ghost start = *oracle;
    let ghost before = acc.contents();
    proof {
        assert(before + segments_claims(*config, s, opened@, zq@, tape, 0) =~= before);
    }
    let mut recon: EF = EF::new_zero();
    let mut i: usize = 0;
    while i < descs.len()
        invariant
            i <= descs@.len(),
            s == segments::desc_views(descs@),
            opened@.len() == descs@.len(),
            segments::segments_fit(*config, *weights),
            all_within(s, zq@.len()),
            shapes::all_ok(*config, *weights, s),
            total == segments_read(s, opened@, s.len()),
            tape == start.upcoming(total),
            start == *old(oracle),
            start.has_fields(used as int),
            used == segments_used(*config, s, opened@, zq@, tape, 0),
            used == segments_read(s, opened@, i as nat) + segments_used(
                *config,
                s,
                opened@,
                zq@,
                tape,
                i as nat,
            ),
            before == old(acc).contents(),
            oracle.wf(),
            start.advanced(*oracle, segments_read(s, opened@, i as nat) as int, 0),
            acc.contents() == before + segments_claims(
                *config,
                s,
                opened@,
                zq@,
                tape,
                i as nat,
            ),
            recon == reconstructed(*config, alpha, s, opened@, zq@, tape, i as nat),
            forall|j: int|
                0 <= j < i ==> #[trigger] value_at(
                    *config,
                    s,
                    opened@,
                    zq@,
                    tape,
                    j,
                ) is Some,
        decreases descs@.len() - i,
    {
        let d = &descs[i];
        let ghost mid = *oracle;
            proof {
            assert(s[i as int] == d.contents());
            assert(within(s[i as int], zq@.len()));
            assert(shapes::segment_ok(*config, *weights, s[i as int]));
            lemma_segments_read(s, opened@, (i + 1) as nat, s.len());
            assert(mid.upcoming(openings::segment_draws(s[i as int], opened@[i as int]))
                =~= segment_tape(s, opened@, tape, i as int));
        }
        match verify_step(config, weights, d, &opened[i], zq, alpha, acc, oracle) {
            None => {
                assert(!(value_at(*config, s, opened@, zq@, tape, i as int) is Some));
                return None;
            },
            Some(term) => {
                recon = recon.add(term);
                assert(value_at(*config, s, opened@, zq@, tape, i as int) is Some);
                assert(acc.contents() =~= before + segments_claims(
                    *config,
                    s,
                    opened@,
                    zq@,
                    tape,
                    (i + 1) as nat,
                ));
            },
        }
        i += 1;
    }
    Some(recon)
}

/// Checks all limb checks.
#[verifier::rlimit(60)]
#[verifier::spinoff_prover]
fn verify_checks(
    config: &Config,
    weights: &ModelWeights,
    checks: &Vec<LimbCheckSpec>,
    recomps: &Vec<RecompProof>,
    ahead: Ghost<Seq<EF>>,
    acc: &mut ClaimAccumulator,
    oracle: &mut RandomOracle<EF>,
) -> (r: bool)
    requires
        segments::segments_fit(*config, *weights),
        segments::check_views(checks@) == segments::all_checks(*config),
        recomps@.len() == CHECKS,
        ahead@ == old(oracle).upcoming(ahead@.len()),
        ahead@.len() >= checks_read(*config, CHECKS as nat) + recomps_rounds(
            recomps@,
            CHECKS as nat,
        ),
        old(oracle).has_fields(checks_used(*config, recomps@, ahead@, 0) as int),
    ensures
        ({
            let total = checks_read(*config, CHECKS as nat);
            let tape = old(oracle).upcoming(total);
            &&& r <==> forall|i: int|
                0 <= i < CHECKS ==> #[trigger] check_accepted(*config, recomps@, tape, i)
            &&& r ==> final(acc).contents() == old(acc).contents() + checks_claims(
                *config,
                recomps@,
                tape,
                CHECKS as nat,
            )
            &&& final(oracle).wf()
            &&& old(oracle).advanced(
                *final(oracle),
                checks_used(*config, recomps@, ahead@, 0) as int,
                0,
            )
            &&& r ==> old(oracle).advanced(*final(oracle), total as int, 0)
        }),
{
    let ghost total = checks_read(*config, CHECKS as nat);
    let ghost tape = oracle.upcoming(total);
    let ghost used = checks_used(*config, recomps@, ahead@, 0);
    let ghost start = *oracle;
    let ghost before = acc.contents();
    assert(before + checks_claims(*config, recomps@, tape, 0) =~= before);
    assert(checks@.len() == segments::check_views(checks@).len());
    let mut i: usize = 0;
    while i < CHECKS
        invariant
            i <= CHECKS,
            checks@.len() == CHECKS,
            segments::check_views(checks@) == segments::all_checks(*config),
            recomps@.len() == CHECKS,
            segments::segments_fit(*config, *weights),
            total == checks_read(*config, CHECKS as nat),
            tape == start.upcoming(total),
            start == *old(oracle),
            start.has_fields(used as int),
            used == checks_used(*config, recomps@, ahead@, 0),
            used == checks_read(*config, i as nat) + checks_used(
                *config,
                recomps@,
                ahead@,
                i as nat,
            ),
            ahead@ == start.upcoming(ahead@.len()),
            ahead@.len() >= total + recomps_rounds(recomps@, CHECKS as nat),
            before == old(acc).contents(),
            oracle.wf(),
            start.advanced(*oracle, checks_read(*config, i as nat) as int, 0),
            acc.contents() == before + checks_claims(*config, recomps@, tape, i as nat),
            forall|j: int|
                0 <= j < i ==> #[trigger] check_accepted(*config, recomps@, tape, j),
        decreases CHECKS - i,
    {
        let ghost mid = *oracle;
        let ghost c = segments::check_at(*config, i as int);
        let ghost rest = ahead@.skip(checks_read(*config, i as nat) as int);
        proof {
            lemma_recomps_rounds(recomps@, i as int, CHECKS as nat);
            lemma_checks_read(*config, i as nat, CHECKS as nat);
            assert(mid.upcoming(rest.len()) =~= rest);
            assert(segments::check_views(checks@)[i as int] == c);
            shapes::lemma_check_ok(*config, *weights, i as int);
            lemma_checks_read(*config, (i + 1) as nat, CHECKS as nat);
            assert(mid.upcoming(openings::check_draws(*config, c)) =~= check_tape(
                *config,
                tape,
                i as int,
            ));
            assert(check_tape(*config, ahead@, i as int) =~= check_tape(*config, tape, i as int));
            if check_accepted(*config, recomps@, tape, i as int) {
                openings::lemma_recomp_read(
                    *config,
                    c,
                    recomps@[i as int],
                    check_tape(*config, tape, i as int),
                    rest,
                );
            }
        }
        if !openings::verify_recomp(
            config,
            Ghost(*weights),
            &checks[i],
            &recomps[i],
            Ghost(rest),
            acc,
            oracle,
        ) {
            assert(!check_accepted(*config, recomps@, tape, i as int));
            return false;
        }
        assert(acc.contents() =~= before + checks_claims(
            *config,
            recomps@,
            tape,
            (i + 1) as nat,
        ));
        i += 1;
    }
    true
}

/// Adds the padding rows of the query to `start`.
fn add_padding(start: EF, alpha: EF, zq: &Vec<EF>, from: usize, to: usize) -> (r: EF)
    requires
        from <= to,
        to <= pow2(zq@.len()),
    ensures
        r == with_padding(start, alpha, zq@, from as nat, (to - from) as nat),
{
    let default = table::fold_row(alpha, EF::new_zero(), EF::new_zero(), TYPE_RANGE12);
    let mut v: EF = start;
    let mut idx: usize = from;
    while idx < to
        invariant
            from <= idx <= to,
            to <= pow2(zq@.len()),
            default == commitments::default_row(alpha),
            v == with_padding(start, alpha, zq@, from as nat, (idx - from) as nat),
        decreases to - idx,
    {
        proof {
            vstd::arithmetic::div_mod::lemma_small_mod(idx as nat, pow2(zq@.len()));
        }
        v = v.add(commit::eq_at_index(zq.as_slice(), idx).mul(default));
        idx += 1;
    }
    v
}

/// Number of rows of all segments.
fn total_query_len(descs: &Vec<Descriptor>) -> (r: usize)
    requires
        segments::length_before(segments::desc_views(descs@), descs@.len()) <= usize::MAX,
    ensures
        r == segments::length_before(segments::desc_views(descs@), descs@.len()),
{
    let ghost s = segments::desc_views(descs@);
    let mut n: usize = 0;
    let mut i: usize = 0;
    while i < descs.len()
        invariant
            i <= descs@.len(),
            s == segments::desc_views(descs@),
            segments::length_before(s, descs@.len()) <= usize::MAX,
            n == segments::length_before(s, i as nat),
        decreases descs@.len() - i,
    {
        proof {
            assert(s[i as int] == descs@[i as int].contents());
            segments::lemma_length_mono(s, (i + 1) as nat, descs@.len());
        }
        n = n + commit::two_to(descs[i].vars);
        i += 1;
    }
    n
}

/// The segments' claims are about polynomials of the right size.
proof fn lemma_segments_stored(
    config: Config,
    w: ModelWeights,
    s: Seq<DescView>,
    o: Seq<SegmentOpening>,
    zq: Seq<EF>,
    tape: Seq<EF>,
    n: nat,
    polys: Map<Seq<char>, Seq<EF>>,
)
    requires
        shapes::all_ok(config, w, s),
        shapes::ready(polys, config, w),
        all_within(s, zq.len()),
        n <= s.len(),
    ensures
        commit::all_stored(segments_claims(config, s, o, zq, tape, n), polys),
    decreases n,
{
    if n > 0 {
        lemma_segments_stored(config, w, s, o, zq, tape, (n - 1) as nat, polys);
        assert(within(s[n - 1], zq.len()));
        openings::lemma_segment_stored(
            config,
            w,
            s[n - 1],
            o[n - 1],
            zq.take(s[n - 1].vars as int),
            segment_tape(s, o, tape, n - 1),
            polys,
        );
    }
}

/// The checks' claims are about polynomials of the right size.
proof fn lemma_checks_stored(
    config: Config,
    w: ModelWeights,
    r: Seq<RecompProof>,
    tape: Seq<EF>,
    n: nat,
    polys: Map<Seq<char>, Seq<EF>>,
)
    requires
        segments::segments_fit(config, w),
        shapes::ready(polys, config, w),
        tape.len() == checks_read(config, CHECKS as nat),
        n <= CHECKS,
    ensures
        commit::all_stored(checks_claims(config, r, tape, n), polys),
    decreases n,
{
    if n > 0 {
        lemma_checks_stored(config, w, r, tape, (n - 1) as nat, polys);
        lemma_checks_read(config, n, CHECKS as nat);
        shapes::lemma_check_ok(config, w, n - 1);
        openings::lemma_recomp_stored(
            config,
            w,
            segments::check_at(config, n - 1),
            r[n - 1],
            check_tape(config, tape, n - 1),
            polys,
        );
    }
}

/// Everything that verification requests is stored.
proof fn lemma_requested_stored(
    config: Config,
    w: ModelWeights,
    s: Seq<DescView>,
    o: Seq<SegmentOpening>,
    r: Seq<RecompProof>,
    cols: Seq<EF>,
    cl: Seq<ClaimView<EF>>,
    st: Seq<EF>,
    ct: Seq<EF>,
    polys: Map<Seq<char>, Seq<EF>>,
)
    requires
        segments::segments_fit(config, w),
        shapes::all_ok(config, w, s),
        shapes::all_ready(polys, config, w),
        all_within(s, cl[0].point.len()),
        ct.len() == checks_read(config, CHECKS as nat),
        cl[1].point.len() == table::table_bits(config, w),
        cl[2].point.len() == table::table_bits(config, w),
    ensures
        commit::all_stored(requested(config, s, o, r, cols, cl, st, ct), polys),
{
    lemma_segments_stored(config, w, s, o, cl[0].point, st, s.len(), polys);
    lemma_checks_stored(config, w, r, ct, CHECKS as nat, polys);
    assert(shapes::named_bits(config, w, TABLE_IN@, table::table_bits(config, w)));
    assert(shapes::named_bits(config, w, TABLE_OUT@, table::table_bits(config, w)));
    assert(shapes::named_bits(config, w, TABLE_TYPE@, table::table_bits(config, w)));
}

/// The points of a lookup's claims.
proof fn lemma_table_point(proof: lookup::LookupProof<EF>, tape: Seq<EF>)
    requires
        lookup::lookup_claims(proof, tape) is Some,
        tape.len() == lookup::lookup_draws(proof.query.layers@.len(), proof.table.layers@.len()),
    ensures
        ({
            let cl = lookup::lookup_claims(proof, tape)->0;
            &&& cl.len() == 3
            &&& cl[1].point == cl[2].point
            &&& cl[2].point.len() == proof.table.layers@.len()
        }),
{
    let (mu, nu) = (proof.query.layers@.len(), proof.table.layers@.len());
    frac_sum::lemma_point_len(lookup::table_tape(tape, mu, nu), nu);
}

/// Checks that a lookup's claims are explained by the table columns, the segments and
/// the padding, and records the openings that they rest on.
#[verifier::rlimit(80)]
#[verifier::spinoff_prover]
fn verify_lookup(
    config: &Config,
    weights: &ModelWeights,
    descs: &Vec<Descriptor>,
    proof: &UnifiedProof,
    alpha: EF,
    zq: &Vec<EF>,
    query_value: EF,
    zt: &Vec<EF>,
    table_value: EF,
    acc: &mut ClaimAccumulator,
    oracle: &mut RandomOracle<EF>,
) -> (r: bool)
    requires
        commitments::sizes_ready(*config, *weights),
        segments::desc_views(descs@) == segments::all_segments(*config, *weights),
        proof.segment_openings@.len() == descs@.len(),
        old(oracle).has_fields(
            explained_used(
                *proof,
                *config,
                *weights,
                alpha,
                zq@,
                table_value,
                old(oracle).upcoming(
                    segments_read(
                        segments::desc_views(descs@),
                        proof.segment_openings@,
                        descs@.len(),
                    ),
                ),
            ) as int,
        ),
    ensures
        ({
            let s = segments::desc_views(descs@);
            let o = proof.segment_openings@;
            let total = segments_read(s, o, s.len());
            let tape = old(oracle).upcoming(total);
            &&& r == query_explained(
                *proof,
                *config,
                *weights,
                alpha,
                zq@,
                query_value,
                table_value,
                tape,
            )
            &&& r ==> final(acc).contents() == old(acc).contents() + seq![
                commit::opening(TABLE_IN@, zt@, proof.table_cols@[0]),
                commit::opening(TABLE_OUT@, zt@, proof.table_cols@[1]),
                commit::opening(TABLE_TYPE@, zt@, proof.table_cols@[2]),
            ] + segments_claims(*config, s, o, zq@, tape, s.len())
            &&& final(oracle).wf()
            &&& old(oracle).advanced(
                *final(oracle),
                explained_used(
                    *proof,
                    *config,
                    *weights,
                    alpha,
                    zq@,
                    table_value,
                    tape,
                ) as int,
                0,
            )
            &&& r ==> old(oracle).advanced(*final(oracle), total as int, 0)
        }),
{
    let ghost before = acc.contents();
    let ghost s = segments::desc_views(descs@);
    let ghost start = *oracle;
    proof {
        commitments::lemma_total(*config, *weights);
        commit::lemma_ceil_pow(segments::total_len(*config, *weights) as int);
        shapes::lemma_segments_ok(*config, *weights);
        lemma_all_within(*config, *weights);
    }
    let total: usize = total_query_len(descs);
    if zq.len() != commit::log_ceil(total) {
        return false;
    }
    let tin = proof.table_cols[0];
    let tout = proof.table_cols[1];
    let tty = proof.table_cols[2];
    if !tin.add(alpha.mul(tout)).add(alpha.mul(alpha).mul(tty)).equals(table_value) {
        return false;
    }
    acc.open(TABLE_IN, poly::copy_slice(zt.as_slice()), tin);
    acc.open(TABLE_OUT, poly::copy_slice(zt.as_slice()), tout);
    acc.open(TABLE_TYPE, poly::copy_slice(zt.as_slice()), tty);
    let ghost mid = acc.contents();
    assert(explained_used(
        *proof,
        *config,
        *weights,
        alpha,
        zq@,
        table_value,
        start.upcoming(segments_read(s, proof.segment_openings@, s.len())),
    ) == segments_used(
        *config,
        s,
        proof.segment_openings@,
        zq@,
        start.upcoming(segments_read(s, proof.segment_openings@, s.len())),
        0,
    ));
    match verify_segments(
        config,
        weights,
        descs,
        &proof.segment_openings,
        zq,
        alpha,
        acc,
        oracle,
    ) {
        None => false,
        Some(recon) => {
            let padded: usize = commit::pow_ceil(total);
            let value = add_padding(recon, alpha, zq, total, padded);
            proof {
                assert(mid =~= before + seq![
                    commit::opening(TABLE_IN@, zt@, tin),
                    commit::opening(TABLE_OUT@, zt@, tout),
                    commit::opening(TABLE_TYPE@, zt@, tty),
                ]);
            }
            value.equals(query_value)
        },
    }
}

/// Checks a unified proof against the commitments.
///
/// A reduction with another number of rounds than its operands call for is rejected once
/// its round checks are through, and a lookup with another number of layers than its
/// table before the openings are checked.
#[verifier::rlimit(60)]
pub fn verify(
    set: &CommitSet,
    config: &Config,
    weights: &ModelWeights,
    proof: &UnifiedProof,
    oracle: &mut RandomOracle<EF>,
) -> (r: bool)
    requires
        commitments::sizes_ready(*config, *weights),
        shapes::all_ready(set.committed(), *config, *weights),
        old(oracle).has_fields(
            unified_read(
                *proof,
                *config,
                *weights,
                old(oracle).upcoming(unified_extent(*proof, *config, *weights)),
            ) as int,
        ),
    ensures
        r == unified_accepted(
            *proof,
            *config,
            *weights,
            set.committed(),
            old(oracle).upcoming(unified_draws(*proof, *config, *weights)),
        ),
        final(oracle).wf(),
        r ==> old(oracle).advanced(
            *final(oracle),
            unified_draws(*proof, *config, *weights) as int,
            0,
        ),
        old(oracle).advanced(
            *final(oracle),
            unified_read(
                *proof,
                *config,
                *weights,
                old(oracle).upcoming(unified_extent(*proof, *config, *weights)),
            ) as int,
            0,
        ),
{
    let ghost draws = unified_draws(*proof, *config, *weights);
    let ghost tape = oracle.upcoming(draws);
    let ghost ahead = oracle.upcoming(unified_extent(*proof, *config, *weights));
    let ghost start = *oracle;
    let descs = segments::descriptors(config, weights);
    let ghost s = segments::desc_views(descs@);
    assert(s.len() == descs@.len());
    if proof.segment_openings.len() != descs.len() {
        return false;
    }
    let ghost lookup_tape = lookup_part(*proof, tape);
    let ghost st = segments_part(*proof, *config, *weights, tape);
    proof {
        assert(lookup_part(*proof, ahead) =~= lookup_tape);
        assert(segments_part(*proof, *config, *weights, ahead) =~= st);
        assert(ahead[0] == tape[0]);
        lookup::lemma_lookup_read(proof.lookup, lookup_tape);
    }
    let alpha = oracle.next_field();
    assert(alpha == tape[0]);
    assert(oracle.upcoming(lookup_read(*proof)) =~= lookup_tape);
    let claims = match lookup::verify(&proof.lookup, oracle) {
        None => {
            return false;
        },
        Some(c) => c,
    };
    let ghost cl = lookup::lookup_claims(proof.lookup, lookup_tape)->0;
    proof {
        lemma_table_point(proof.lookup, lookup_tape);
        assert(cl == lookup::claim_views(claims@));
        assert(claims@.len() == 3);
        assert(cl[0] == claims@[0].contents());
        assert(cl[1] == claims@[1].contents());
        assert(cl[2] == claims@[2].contents());
        assert(oracle.upcoming(segments_read(s, proof.segment_openings@, s.len())) =~= st);
    }
    let mut acc = ClaimAccumulator::new();
    if !verify_lookup(
        config,
        weights,
        &descs,
        proof,
        alpha,
        &claims[0].point,
        claims[0].value,
        &claims[2].point,
        claims[2].value,
        &mut acc,
        oracle,
    ) {
        assert(!lookup_explained(*proof, *config, *weights, tape));
        return false;
    }
    if proof.recomps.len() != CHECKS {
        return false;
    }
    let checks = segments::limb_checks(config);
    let ghost ct = checks_part(*proof, *config, *weights, tape);
    let ghost rest = checks_part(*proof, *config, *weights, ahead);
    proof {
        assert(oracle.upcoming(checks_read(*config, CHECKS as nat)) =~= ct);
        assert(oracle.upcoming(rest.len()) =~= rest);
    }
    if !verify_checks(config, weights, &checks, &proof.recomps, Ghost(rest), &mut acc, oracle) {
        return false;
    }
    let rows: usize = table::table_size(config, weights);
    proof {
        let nu = table::table_bits(*config, *weights);
        if nu > 0 {
            multilinear::lemma_pow2_step(nu);
        }
        multilinear::lemma_pow2_zero();
        commit::lemma_ceil_log(pow2(nu) as int, nu);
    }
    if claims[2].point.len() != commit::log_ceil(rows) {
        assert(!lookup_explained(*proof, *config, *weights, tape));
        return false;
    }
    assert(lookup_explained(*proof, *config, *weights, tape));
    acc.open(E, poly::copy_slice(claims[1].point.as_slice()), claims[1].value);
    proof {
        assert(acc.contents() =~= unified_claims(*proof, *config, *weights, tape));
        shapes::lemma_segments_ok(*config, *weights);
        lemma_all_within(*config, *weights);
        lemma_requested_stored(
            *config,
            *weights,
            s,
            proof.segment_openings@,
            proof.recomps@,
            proof.table_cols@,
            cl,
            st,
            ct,
            set.committed(),
        );
    }
    commit::check_claims(set, &acc, &proof.batch, oracle)
}

/// Number of challenges that the prover reads for the first `n` segments.
pub open spec fn descs_read(config: Config, s: Seq<DescView>, n: nat) -> nat
    decreases n,
{
    if n == 0 {
        0
    } else {
        descs_read(config, s, (n - 1) as nat) + openings::desc_draws(config, s[n - 1])
    }
}

pub proof fn lemma_descs_read(config: Config, s: Seq<DescView>, a: nat, b: nat)
    requires
        a <= b,
    ensures
        descs_read(config, s, a) <= descs_read(config, s, b),
    decreases b - a,
{
    if a < b {
        lemma_descs_read(config, s, (a + 1) as nat, b);
    }
}

/// The challenges that the prover reads for segment `i`.
pub open spec fn desc_tape(config: Config, s: Seq<DescView>, tape: Seq<EF>, i: int) -> Seq<EF> {
    tape.subrange(
        descs_read(config, s, i as nat) as int,
        descs_read(config, s, (i + 1) as nat) as int,
    )
}

/// The opening of segment `i` is the honest one.
pub open spec fn honest_at(
    o: Seq<SegmentOpening>,
    config: Config,
    w: ModelWeights,
    wit: WitnessView,
    s: Seq<DescView>,
    polys: Map<Seq<char>, Seq<EF>>,
    zq: Seq<EF>,
    tape: Seq<EF>,
    i: int,
) -> bool {
    openings::honest_opening(
        o[i],
        config,
        w,
        wit,
        s[i],
        polys,
        zq.take(s[i].vars as int),
        desc_tape(config, s, tape, i),
    )
}

/// The proof of limb check `i` is the honest one.
pub open spec fn honest_check(
    r: Seq<RecompProof>,
    config: Config,
    polys: Map<Seq<char>, Seq<EF>>,
    tape: Seq<EF>,
    i: int,
) -> bool {
    openings::honest_recomp(
        r[i],
        config,
        segments::check_at(config, i),
        polys,
        check_tape(config, tape, i),
    )
}

/// Number of challenges of the prover's lookup.
pub open spec fn lookup_size(config: Config, w: ModelWeights) -> nat {
    lookup::lookup_draws(segments::query_bits(config, w), table::table_bits(config, w))
}

/// Number of challenges that the prover reads for the segments.
pub open spec fn segments_size(config: Config, w: ModelWeights) -> nat {
    descs_read(
        config,
        segments::all_segments(config, w),
        segments::all_segments(config, w).len(),
    )
}

/// Number of challenges that the prover reads.
pub open spec fn honest_draws(config: Config, w: ModelWeights) -> nat {
    1 + lookup_size(config, w) + segments_size(config, w) + checks_read(config, CHECKS as nat)
}

/// The prover's challenges for the lookup.
pub open spec fn lookup_tape(config: Config, w: ModelWeights, tape: Seq<EF>) -> Seq<EF> {
    tape.subrange(1, (1 + lookup_size(config, w)) as int)
}

/// The prover's challenges for the segments.
pub open spec fn segments_tape(config: Config, w: ModelWeights, tape: Seq<EF>) -> Seq<EF> {
    let from = 1 + lookup_size(config, w);
    tape.subrange(from as int, (from + segments_size(config, w)) as int)
}

/// The prover's challenges for the limb checks.
pub open spec fn checks_tape(config: Config, w: ModelWeights, tape: Seq<EF>) -> Seq<EF> {
    tape.skip((1 + lookup_size(config, w) + segments_size(config, w)) as int)
}

/// The point at which the query is opened.
pub open spec fn query_point(config: Config, w: ModelWeights, tape: Seq<EF>) -> Seq<EF> {
    let mu = segments::query_bits(config, w);
    frac_sum::point_at(lookup::query_tape(lookup_tape(config, w, tape), mu), mu)
}

/// The point at which the table is opened.
pub open spec fn table_point(config: Config, w: ModelWeights, tape: Seq<EF>) -> Seq<EF> {
    let (mu, nu) = (segments::query_bits(config, w), table::table_bits(config, w));
    frac_sum::point_at(lookup::table_tape(lookup_tape(config, w, tape), mu, nu), nu)
}

/// The proof is the honest one.
pub open spec fn honest_unified(
    proof: UnifiedProof,
    config: Config,
    w: ModelWeights,
    wit: WitnessView,
    polys: Map<Seq<char>, Seq<EF>>,
    tape: Seq<EF>,
) -> bool {
    let s = segments::all_segments(config, w);
    let zt = table_point(config, w, tape);
    &&& lookup::honest_lookup(
        proof.lookup,
        commitments::query_table(tape[0], polys, config, w, wit),
        table::folded_table(tape[0], config, w),
        polys[E@],
        lookup_tape(config, w, tape),
    )
    &&& proof.segment_openings@.len() == s.len()
    &&& forall|i: int|
        0 <= i < s.len() ==> #[trigger] honest_at(
            proof.segment_openings@,
            config,
            w,
            wit,
            s,
            polys,
            query_point(config, w, tape),
            segments_tape(config, w, tape),
            i,
        )
    &&& proof.recomps@.len() == CHECKS
    &&& forall|i: int|
        0 <= i < CHECKS ==> #[trigger] honest_check(
            proof.recomps@,
            config,
            polys,
            checks_tape(config, w, tape),
            i,
        )
    &&& proof.table_cols@ == seq![
        multilinear::mle(polys[TABLE_IN@], zt),
        multilinear::mle(polys[TABLE_OUT@], zt),
        multilinear::mle(polys[TABLE_TYPE@], zt),
    ]
}

/// Opens all segments.
fn prove_segments(
    set: &CommitSet,
    config: &Config,
    weights: &ModelWeights,
    witness: &Witness,
    descs: &Vec<Descriptor>,
    zq: &Vec<EF>,
    acc: &mut ClaimAccumulator,
    oracle: &mut RandomOracle<EF>,
) -> (r: Vec<SegmentOpening>)
    requires
        commitments::all_values_ready(
            segments::desc_views(descs@),
            set.kept(),
            *config,
            *weights,
            *witness,
        ),
        all_within(segments::desc_views(descs@), zq@.len()),
        commit::all_stored(old(acc).contents(), set.kept()),
        old(oracle).has_fields(
            descs_read(*config, segments::desc_views(descs@), descs@.len()) as int,
        ),
    ensures
        ({
            let s = segments::desc_views(descs@);
            let total = descs_read(*config, s, descs@.len());
            let tape = old(oracle).upcoming(total);
            &&& r@.len() == descs@.len()
            &&& forall|i: int|
                0 <= i < s.len() ==> #[trigger] honest_at(
                    r@,
                    *config,
                    *weights,
                    witness.contents(),
                    s,
                    set.kept(),
                    zq@,
                    tape,
                    i,
                )
            &&& final(oracle).wf()
            &&& old(oracle).advanced(*final(oracle), total as int, 0)
        }),
        commit::all_stored(final(acc).contents(), set.kept()),
{
    let ghost s = segments::desc_views(descs@);
    let ghost total = descs_read(*config, s, descs@.len());
    let ghost tape = oracle.upcoming(total);
    let ghost start = *oracle;
    let ghost wit = witness.contents();
    let mut out: Vec<SegmentOpening> = Vec::new();
    let mut i: usize = 0;
    while i < descs.len()
        invariant
            i <= descs@.len(),
            out@.len() == i,
            s == segments::desc_views(descs@),
            wit == witness.contents(),
            commitments::all_values_ready(s, set.kept(), *config, *weights, *witness),
            all_within(s, zq@.len()),
            total == descs_read(*config, s, descs@.len()),
            tape == start.upcoming(total),
            start == *old(oracle),
            start.has_fields(total as int),
            oracle.wf(),
            start.advanced(*oracle, descs_read(*config, s, i as nat) as int, 0),
            commit::all_stored(acc.contents(), set.kept()),
            forall|j: int|
                0 <= j < i ==> #[trigger] honest_at(
                    out@,
                    *config,
                    *weights,
                    wit,
                    s,
                    set.kept(),
                    zq@,
                    tape,
                    j,
                ),
        decreases descs@.len() - i,
    {
        let d = &descs[i];
        let ghost mid = *oracle;
        let ghost kept = out@;
        proof {
            assert(s[i as int] == d.contents());
            assert(within(s[i as int], zq@.len()));
            assert(values::values_ready(s[i as int], set.kept(), *config, *weights, *witness));
            lemma_descs_read(*config, s, (i + 1) as nat, s.len());
            assert(mid.upcoming(openings::desc_draws(*config, s[i as int])) =~= desc_tape(
                *config,
                s,
                tape,
                i as int,
            ));
        }
        let local = poly::copy_slice(vstd::slice::slice_subrange(zq.as_slice(), 0, d.vars));
        assert(local@ =~= zq@.take(d.vars as int));
        let o = openings::prove_segment(
            set,
            config,
            weights,
            witness,
            d,
            &local,
            acc,
            oracle,
        );
        out.push(o);
        proof {
            openings::lemma_segment_stored(
                *config,
                *weights,
                s[i as int],
                o,
                local@,
                desc_tape(*config, s, tape, i as int),
                set.kept(),
            );
            assert forall|j: int| 0 <= j < i + 1 implies #[trigger] honest_at(
                out@,
                *config,
                *weights,
                wit,
                s,
                set.kept(),
                zq@,
                tape,
                j,
            ) by {
                if j < i {
                    assert(honest_at(
                        kept,
                        *config,
                        *weights,
                        wit,
                        s,
                        set.kept(),
                        zq@,
                        tape,
                        j,
                    ));
                }
            }
        }
        i += 1;
    }
    out
}

/// Proves all limb checks.
fn prove_checks(
    set: &CommitSet,
    config: &Config,
    weights: &ModelWeights,
    acc: &mut ClaimAccumulator,
    oracle: &mut RandomOracle<EF>,
) -> (r: Vec<RecompProof>)
    requires
        segments::segments_fit(*config, *weights),
        shapes::ready(set.kept(), *config, *weights),
        commit::all_stored(old(acc).contents(), set.kept()),
        old(oracle).has_fields(checks_read(*config, CHECKS as nat) as int),
    ensures
        ({
            let total = checks_read(*config, CHECKS as nat);
            let tape = old(oracle).upcoming(total);
            &&& r@.len() == CHECKS
            &&& forall|i: int|
                0 <= i < CHECKS ==> #[trigger] honest_check(r@, *config, set.kept(), tape, i)
            &&& final(oracle).wf()
            &&& old(oracle).advanced(*final(oracle), total as int, 0)
        }),
        commit::all_stored(final(acc).contents(), set.kept()),
{
    let ghost total = checks_read(*config, CHECKS as nat);
    let ghost tape = oracle.upcoming(total);
    let ghost start = *oracle;
    let checks = segments::limb_checks(config);
    let mut out: Vec<RecompProof> = Vec::new();
    let mut i: usize = 0;
    while i < CHECKS
        invariant
            i <= CHECKS,
            out@.len() == i,
            checks@.len() == CHECKS,
            segments::check_views(checks@) == segments::all_checks(*config),
            segments::segments_fit(*config, *weights),
            shapes::ready(set.kept(), *config, *weights),
            total == checks_read(*config, CHECKS as nat),
            tape == start.upcoming(total),
            start == *old(oracle),
            start.has_fields(total as int),
            oracle.wf(),
            start.advanced(*oracle, checks_read(*config, i as nat) as int, 0),
            commit::all_stored(acc.contents(), set.kept()),
            forall|j: int|
                0 <= j < i ==> #[trigger] honest_check(out@, *config, set.kept(), tape, j),
        decreases CHECKS - i,
    {
        let ghost mid = *oracle;
        let ghost kept = out@;
        let ghost c = segments::check_at(*config, i as int);
        proof {
            assert(segments::check_views(checks@)[i as int] == c);
            shapes::lemma_check_ok(*config, *weights, i as int);
            lemma_checks_read(*config, (i + 1) as nat, CHECKS as nat);
            assert(mid.upcoming(openings::check_draws(*config, c)) =~= check_tape(
                *config,
                tape,
                i as int,
            ));
        }
        let r = openings::prove_recomp(set, config, weights, &checks[i], acc, oracle);
        out.push(r);
        proof {
            openings::lemma_recomp_stored(
                *config,
                *weights,
                c,
                r,
                check_tape(*config, tape, i as int),
                set.kept(),
            );
            assert forall|j: int| 0 <= j < i + 1 implies #[trigger] honest_check(
                out@,
                *config,
                set.kept(),
                tape,
                j,
            ) by {
                if j < i {
                    assert(honest_check(kept, *config, set.kept(), tape, j));
                }
            }
        }
        i += 1;
    }
    out
}

/// Proves that a forward pass was computed as the configuration prescribes.
///
/// The polynomials must be those of the layout and enough challenges must be left.
#[verifier::rlimit(60)]
pub fn prove(
    set: &CommitSet,
    config: &Config,
    weights: &ModelWeights,
    witness: &Witness,
    oracle: &mut RandomOracle<EF>,
) -> (r: UnifiedProof)
    requires
        commitments::sizes_ready(*config, *weights),
        shapes::all_ready(set.kept(), *config, *weights),
        witness.wf(),
        canonical::witness_shaped(witness.contents(), *config),
        commitments::all_products_fit(*config, *weights, witness.contents()),
        old(oracle).has_fields(honest_draws(*config, *weights) as int),
    ensures
        honest_unified(
            r,
            *config,
            *weights,
            witness.contents(),
            set.kept(),
            old(oracle).upcoming(honest_draws(*config, *weights)),
        ),
        final(oracle).wf(),
        old(oracle).advanced(*final(oracle), honest_draws(*config, *weights) as int, 0),
{
    let ghost draws = honest_draws(*config, *weights);
    let ghost tape = oracle.upcoming(draws);
    let ghost (mu, nu) = (
        segments::query_bits(*config, *weights),
        table::table_bits(*config, *weights),
    );
    let ghost lt = lookup_tape(*config, *weights, tape);
    let descs = segments::descriptors(config, weights);
    let ghost s = segments::desc_views(descs@);
    proof {
        commitments::lemma_values_ready(*config, *weights, *witness, set.kept());
        lemma_all_within(*config, *weights);
        poly::lemma_exponent(mu);
        poly::lemma_exponent(nu);
        frac_sum::lemma_point_len(lookup::query_tape(lt, mu), mu);
        frac_sum::lemma_point_len(lookup::table_tape(lt, mu, nu), nu);
        assert(shapes::named_bits(*config, *weights, TABLE_IN@, nu));
        assert(shapes::named_bits(*config, *weights, TABLE_OUT@, nu));
        assert(shapes::named_bits(*config, *weights, TABLE_TYPE@, nu));
    }
    let alpha = oracle.next_field();
    assert(alpha == tape[0]);
    assert(oracle.upcoming(lookup_size(*config, *weights)) =~= lt);
    let query = commitments::build_query(set, config, weights, witness, &descs, alpha);
    let folded = table::build_table(alpha, config, weights);
    let e = match set.prover_data(E) {
        Some(data) => poly::copy_slice(data.0.as_slice()),
        None => Vec::new(),
    };
    assert(e@ == set.kept()[E@]);
    let (looked, zq, zt) = lookup::prove_with_opening_points(
        query.as_slice(),
        folded.as_slice(),
        e.as_slice(),
        oracle,
    );
    assert(oracle.upcoming(segments_size(*config, *weights)) =~= segments_tape(
        *config,
        *weights,
        tape,
    ));
    let mut acc = ClaimAccumulator::new();
    let segment_openings = prove_segments(
        set,
        config,
        weights,
        witness,
        &descs,
        &zq,
        &mut acc,
        oracle,
    );
    assert(oracle.upcoming(checks_read(*config, CHECKS as nat)) =~= checks_tape(
        *config,
        *weights,
        tape,
    ));
    let recomps = prove_checks(set, config, weights, &mut acc, oracle);
    let tin = set.evaluate(TABLE_IN, zt.as_slice());
    acc.open(TABLE_IN, poly::copy_slice(zt.as_slice()), tin);
    let tout = set.evaluate(TABLE_OUT, zt.as_slice());
    acc.open(TABLE_OUT, poly::copy_slice(zt.as_slice()), tout);
    let tty = set.evaluate(TABLE_TYPE, zt.as_slice());
    acc.open(TABLE_TYPE, poly::copy_slice(zt.as_slice()), tty);
    let mult = set.evaluate(E, zt.as_slice());
    acc.open(E, zt, mult);
    commit::open_claims(set, &acc, oracle);
    let r = UnifiedProof {
        lookup: looked,
        segment_openings,
        recomps,
        table_cols: [tin, tout, tty],
        batch: (),
    };
    assert(r.table_cols@ =~= seq![tin, tout, tty]);
    r
}

/// Rejection of another committed entry: one proof is accepted against two commitments
/// that differ in one entry of one polynomial only if every opening of that polynomial
/// that it requests gives the entry weight zero.
pub proof fn law_commitment_bound(
    proof: UnifiedProof,
    config: Config,
    w: ModelWeights,
    polys: Map<Seq<char>, Seq<EF>>,
    tape: Seq<EF>,
    name: Seq<char>,
    k: int,
    v: EF,
    j: int,
)
    requires
        polys.contains_key(name),
        algebra::all_valid(polys[name]),
        0 <= k < polys[name].len(),
        v.valid(),
        v != polys[name][k],
        unified_accepted(proof, config, w, polys, tape),
        unified_accepted(
            proof,
            config,
            w,
            polys.insert(name, polys[name].update(k, v)),
            tape,
        ),
        0 <= j < unified_claims(proof, config, w, tape).len(),
        unified_claims(proof, config, w, tape)[j].oracle == name,
        unified_claims(proof, config, w, tape)[j].stored(polys),
    ensures
        multilinear::eq_table(unified_claims(proof, config, w, tape)[j].point)[k] == EF::zero(),
{
    let c = unified_claims(proof, config, w, tape)[j];
    let s = polys[name];
    let t = s.update(k, v);
    let changed = polys.insert(name, t);
    assert(c.holds(polys));
    assert(c.holds(changed));
    let e = multilinear::eq_table(c.point);
    multilinear::lemma_eq_table_len(c.point);
    multilinear::lemma_eq_table_valid(c.point);
    assert forall|i: int| 0 <= i < t.len() implies (#[trigger] t[i]).valid() by {
        assert(s[i].valid());
    }
    multilinear::lemma_mle_sum(s, c.point);
    multilinear::lemma_mle_sum(t, c.point);
    let f = |i: int| s[i] * e[i];
    let g = |i: int| t[i] * e[i];
    EF::law_valid(s[k], e[k]);
    EF::law_valid(t[k], e[k]);
    algebra::sum_changed(s.len(), k, f, g);
    assert(s[k].valid() && e[k].valid());
    if e[k] != EF::zero() {
        algebra::mul_cancel(s[k], v, e[k]);
    }
}

/// Every accepted proof opens the three table columns and the multiplicities.
pub proof fn law_table_opened(
    proof: UnifiedProof,
    config: Config,
    w: ModelWeights,
    polys: Map<Seq<char>, Seq<EF>>,
    tape: Seq<EF>,
)
    requires
        unified_accepted(proof, config, w, polys, tape),
    ensures
        ({
            let c = unified_claims(proof, config, w, tape);
            &&& c.len() >= 4
            &&& c[0].oracle == TABLE_IN@
            &&& c[1].oracle == TABLE_OUT@
            &&& c[2].oracle == TABLE_TYPE@
            &&& c.last().oracle == E@
        }),
{
}

/// Every segment that is read off a committed polynomial has that polynomial opened at
/// the segment's part of the query point.
pub proof fn law_segment_opened(
    proof: UnifiedProof,
    config: Config,
    w: ModelWeights,
    polys: Map<Seq<char>, Seq<EF>>,
    tape: Seq<EF>,
    i: int,
) -> (j: int)
    requires
        unified_accepted(proof, config, w, polys, tape),
        0 <= i < segments::all_segments(config, w).len(),
        segments::all_segments(config, w)[i].kind is Direct,
    ensures
        0 <= j < unified_claims(proof, config, w, tape).len(),
        ({
            let s = segments::all_segments(config, w);
            let cl = lookup::lookup_claims(proof.lookup, lookup_part(proof, tape))->0;
            unified_claims(proof, config, w, tape)[j] == commit::opening(
                s[i].oracle_in,
                cl[0].point.take(s[i].vars as int),
                proof.segment_openings@[i].in_value,
            )
        }),
{
    let s = segments::all_segments(config, w);
    let o = proof.segment_openings@;
    let cl = lookup::lookup_claims(proof.lookup, lookup_part(proof, tape))->0;
    let st = segments_part(proof, config, w, tape);
    3 + lemma_segment_claim(config, s, o, cl[0].point, st, i, s.len())
}

proof fn lemma_segment_claim(
    config: Config,
    s: Seq<DescView>,
    o: Seq<SegmentOpening>,
    zq: Seq<EF>,
    tape: Seq<EF>,
    i: int,
    n: nat,
) -> (j: int)
    requires
        0 <= i < n <= s.len(),
        s[i].kind is Direct,
    ensures
        0 <= j < segments_claims(config, s, o, zq, tape, n).len(),
        segments_claims(config, s, o, zq, tape, n)[j] == commit::opening(
            s[i].oracle_in,
            zq.take(s[i].vars as int),
            o[i].in_value,
        ),
    decreases n,
{
    let before = segments_claims(config, s, o, zq, tape, (n - 1) as nat);
    if i == n - 1 {
        reveal(openings::segment_claims);
        before.len() as int
    } else {
        lemma_segment_claim(config, s, o, zq, tape, i, (n - 1) as nat)
    }
}

} // verus!
