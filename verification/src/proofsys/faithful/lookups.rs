//! What the lookup of an accepted unified proof is about, whoever made it.
//!
//! The lookup ends in three claims: about the queries, the multiplicities and the table.
//! The laws say what these claims are of the committed polynomials: the table value is
//! that of the three folded columns, and the query value that of the folded rows of all
//! segments, whose inputs the reductions tie to the committed operands.
use vstd::prelude::*;
use vstd::arithmetic::power2::pow2;
use crate::algebra;
use crate::field::Field;
use crate::logup::lookup;
use crate::multilinear;
use crate::proofsys::commit;
use crate::proofsys::completeness;
use crate::proofsys::faithful::commitments;
use crate::proofsys::faithful::completeness::opened;
use crate::proofsys::faithful::openings;
use crate::proofsys::faithful::openings::{SegmentOpening, UnifiedProof};
use crate::proofsys::faithful::protocol;
use crate::proofsys::faithful::segments;
use crate::proofsys::faithful::segments::{
    DescView, CHECKS, E, TABLE_IN, TABLE_OUT, TABLE_TYPE,
};
use crate::proofsys::faithful::shapes;
use crate::proofsys::faithful::soundness;
use crate::proofsys::faithful::table;
use crate::proofsys::faithful::table::TYPE_RANGE12;
use crate::proofsys::faithful::values;
use crate::proofsys::maxprod;
use crate::proofsys::model::ModelWeights;
use crate::proofsys::protocol::EF;
use crate::proofsys::reduce;
use crate::proofsys::reduce::MatmulKind;
use crate::proofsys::witness::Config;
use crate::utils::sumcheck;

verus! {

/// A segment's opening holds canonical values.
pub open spec fn opening_valid(o: SegmentOpening) -> bool {
    &&& o.in_value.valid()
    &&& o.matmul is Some ==> soundness::sumcheck_valid((o.matmul->0).proof) && (
    o.matmul->0).claimed_eval.valid()
    &&& o.prod is Some ==> soundness::sumcheck_valid((o.prod->0).proof)
    &&& algebra::all_valid(o.linear_openings@)
}

/// A segment over sound commitments whose opening is accepted with value `v`, and whose
/// claims are true.
pub open spec fn segment_opened(
    config: Config,
    w: ModelWeights,
    polys: Map<Seq<char>, Seq<EF>>,
    d: DescView,
    o: SegmentOpening,
    local: Seq<EF>,
    ch: Seq<EF>,
    v: EF,
) -> bool {
    &&& soundness::commitments_sound(config, w, polys)
    &&& shapes::segment_ok(config, w, d)
    &&& opening_valid(o)
    &&& local.len() == d.vars
    &&& ch.len() == openings::segment_draws(d, o)
    &&& openings::segment_value(config, d, o, local, ch) == Some(v)
    &&& commit::all_hold(openings::segment_claims(config, d, o, local, ch), polys)
}

/// A segment that is read off a committed polynomial: its value is the polynomial's at
/// the point, plus the offset and the bias, and an output is opened exactly where the
/// segment has one, with that polynomial's value.
pub proof fn law_direct_sound(
    config: Config,
    w: ModelWeights,
    polys: Map<Seq<char>, Seq<EF>>,
    d: DescView,
    o: SegmentOpening,
    local: Seq<EF>,
    ch: Seq<EF>,
    v: EF,
)
    requires
        segment_opened(config, w, polys, d, o, local, ch, v),
        d.kind is Direct,
    ensures
        v == (match d.kind->bias {
            Some(b) => multilinear::mle(polys[d.oracle_in], local) + EF::embed(d.kind->offset)
                + b.at(local),
            None => multilinear::mle(polys[d.oracle_in], local) + EF::embed(d.kind->offset),
        }),
        match d.kind->out {
            Some(name) => o.out_value == Some(multilinear::mle(polys[name], local)),
            None => o.out_value is None,
        },
{
    reveal(openings::segment_value);
    reveal(openings::segment_claims);
    let claims = openings::segment_claims(config, d, o, local, ch);
    assert(claims[0].holds(polys));
    if d.kind->out is Some {
        assert(claims[1].holds(polys));
    }
}

/// Row `i` of a segment that pairs two operands: the coefficient times their product, plus
/// the constant, plus the linear operands, each times its coefficient.
pub open spec fn pair_row(d: DescView, polys: Map<Seq<char>, Seq<EF>>, i: int) -> EF {
    let linears = d.kind->linears;
    d.kind->coeff * (values::vertex_value(d.kind->left, polys, d.vars, i) * values::vertex_value(
        d.kind->right,
        polys,
        d.vars,
        i,
    )) + d.kind->constant + algebra::sum(
        linears.len(),
        |j: int| linears[j].coeff * values::vertex_value(linears[j].src, polys, d.vars, i),
    )
}

/// A draw of a pair's reduction lets a false product pass.
pub open spec fn pair_lucky(
    polys: Map<Seq<char>, Seq<EF>>,
    d: DescView,
    o: SegmentOpening,
    local: Seq<EF>,
    ch: Seq<EF>,
) -> bool {
    sumcheck::lucky(
        seq![
            multilinear::eq_table(local),
            values::vertex_table(d.kind->left, polys, d.vars),
            values::vertex_table(d.kind->right, polys, d.vars),
        ],
        (o.prod->0).proof.rounds(),
        ch,
    )
}

/// A segment that pairs two committed operands: its value is that of its rows at the
/// point, unless a draw lets a false product pass.
#[verifier::rlimit(40)]
#[verifier::spinoff_prover]
pub proof fn law_pair_sound(
    config: Config,
    w: ModelWeights,
    polys: Map<Seq<char>, Seq<EF>>,
    d: DescView,
    o: SegmentOpening,
    local: Seq<EF>,
    ch: Seq<EF>,
    v: EF,
)
    requires
        segment_opened(config, w, polys, d, o, local, ch, v),
        d.kind is TypeB,
    ensures
        v == multilinear::mle(
            Seq::new(pow2(d.vars), |i: int| pair_row(d, polys, i)),
            local,
        ) || pair_lucky(polys, d, o, local, ch),
{
    reveal(openings::segment_value);
    reveal(openings::segment_claims);
    let (left, right, coeff) = (d.kind->left, d.kind->right, d.kind->coeff);
    let (linears, constant) = (d.kind->linears, d.kind->constant);
    let n = d.vars;
    let proof = o.prod->0;
    let fe = proof.proof.final_evals@;
    let pc = reduce::prod_claims(left, right, ch, fe);
    let lin = openings::linear_claims(linears, local, o.linear_openings@, linears.len());
    soundness::lemma_claim_in(pc, lin, polys);
    assert(pc[0].holds(polys) && pc[1].holds(polys));
    soundness::lemma_linears_true(linears, local, o.linear_openings@, linears.len(), polys);
    let vals = openings::linear_values(linears, polys, local);
    assert(o.linear_openings@ =~= vals);
    let (l, r) = (
        values::vertex_table(left, polys, n),
        values::vertex_table(right, polys, n),
    );
    let k = ch.reverse();
    assert(fe[1].valid() && fe[2].valid());
    commit::law_source_bound(left, polys, k, fe[1]);
    commit::law_source_bound(right, polys, k, fe[2]);
    opened::lemma_operand(config, w, left, polys, k);
    opened::lemma_operand(config, w, right, polys, k);
    assert(proof.proof.rounds().len() == proof.proof.round_polys@.len());
    reduce::law_prod_sound(proof, l, r, local, ch);
    assert(reduce::pointwise(l, r) =~= Seq::new(l.len(), |i: int| l[i] * r[i]));
    let start = opened::lemma_product_start(coeff, constant, l, r, local);
    opened::lemma_affine_table(config, w, start, linears, polys, local, linears.len());
    let have = opened::affine_table(start, linears, polys, n, linears.len());
    let goal = Seq::new(pow2(n), |i: int| pair_row(d, polys, i));
    assert(goal =~= have) by {
        assert forall|i: int| 0 <= i < goal.len() implies #[trigger] goal[i] == have[i] by {
            let terms = values::vertex_terms(linears, polys, n, i);
            EF::law_valid(coeff * (l[i] * r[i]), constant);
            soundness::lemma_affine_sum(start[i], linears, terms, linears.len());
            algebra::sum_ext(
                linears.len(),
                |j: int| linears[j].coeff * terms[j],
                |j: int| linears[j].coeff * values::vertex_value(linears[j].src, polys, n, i),
            );
        }
    }
}

/// A table with its last variables at `p`.
pub open spec fn at_high(t: Seq<EF>, n: nat, p: Seq<EF>) -> Seq<EF> {
    Seq::new(
        pow2(n),
        |i: int|
            algebra::sum(
                pow2(p.len()),
                |h: int| multilinear::eq_table(p)[h] * t[h * pow2(n) + i],
            ),
    )
}

/// A table with its first variables at `p`.
pub open spec fn at_low(t: Seq<EF>, n: nat, p: Seq<EF>) -> Seq<EF> {
    Seq::new(
        pow2(n),
        |i: int|
            multilinear::mle(
                Seq::new(pow2(p.len()), |e: int| t[i * pow2(p.len()) + e]),
                p,
            ),
    )
}

/// The left factor of a matrix product segment with its row at the point, for every
/// contracted index.
pub open spec fn left_row(
    config: Config,
    polys: Map<Seq<char>, Seq<EF>>,
    d: DescView,
    local: Seq<EF>,
) -> Seq<EF> {
    let mm = (d.kind->op).mm;
    let (kb, rb) = (segments::mm_bits(config, mm), segments::mm_row_bits(config, mm));
    at_high(
        values::vertex_table(d.kind->a, polys, kb + rb),
        kb,
        local.skip(segments::mm_col_bits(config, mm) as int),
    )
}

/// The right factor of a matrix product segment with its column at the point, for every
/// contracted index.
pub open spec fn right_column(
    config: Config,
    polys: Map<Seq<char>, Seq<EF>>,
    d: DescView,
    local: Seq<EF>,
) -> Seq<EF> {
    let mm = (d.kind->op).mm;
    let (kb, cb) = (segments::mm_bits(config, mm), segments::mm_col_bits(config, mm));
    let t = values::vertex_table(d.kind->b, polys, kb + cb);
    match d.kind->mk {
        MatmulKind::Regular => at_low(t, kb, local.take(cb as int)),
        MatmulKind::Transposed => at_high(t, kb, local.take(cb as int)),
    }
}

proof fn lemma_at_low(t: Seq<EF>, k: Seq<EF>, p: Seq<EF>)
    requires
        t.len() == pow2(p.len() + k.len()),
        algebra::all_valid(t),
    ensures
        multilinear::mle(at_low(t, k.len(), p), k) == multilinear::mle(t, p + k),
        algebra::all_valid(at_low(t, k.len(), p)),
{
    let n = p.len() + k.len();
    let b = pow2(p.len());
    let folded = multilinear::fold_all(t, p);
    multilinear::lemma_fold_all_concat(t, p, k);
    multilinear::lemma_fold_all_len(t, p, n);
    multilinear::lemma_fold_all_valid(t, p);
    vstd::arithmetic::power2::lemma_pow2_adds(p.len(), k.len());
    let x = at_low(t, k.len(), p);
    assert(x =~= folded) by {
        assert forall|i: int| 0 <= i < x.len() implies #[trigger] x[i] == folded[i] by {
            multilinear::lemma_fold_block(t, p, n, i);
            completeness::lemma_block_range(b, pow2(k.len()), i);
            assert(t.subrange(i * b, (i + 1) * b) =~= Seq::new(b, |e: int| t[i * b + e]));
        }
    }
}

proof fn lemma_at_high(t: Seq<EF>, k: Seq<EF>, p: Seq<EF>)
    requires
        t.len() == pow2(k.len() + p.len()),
        algebra::all_valid(t),
    ensures
        multilinear::mle(at_high(t, k.len(), p), k) == multilinear::mle(t, k + p),
        algebra::all_valid(at_high(t, k.len(), p)),
{
    completeness::lemma_folded(t, k, p);
    let x = at_high(t, k.len(), p);
    assert(x =~= Seq::new(
        pow2(k.len()),
        |i: int| maxprod::folded_at(t, pow2(k.len()), p, i),
    ));
    assert forall|i: int| 0 <= i < x.len() implies (#[trigger] x[i]).valid() by {
        algebra::sum_valid(
            pow2(p.len()),
            |h: int| multilinear::eq_table(p)[h] * t[h * pow2(k.len()) + i],
        );
    }
}

/// A segment of remainders of a matrix product, with a round for every contracted
/// variable: its value is the contraction of the left factor's row with the right factor's
/// column, both at the point, minus the divisor times the quotient there, unless a draw
/// lets a false contraction pass.
#[verifier::rlimit(40)]
#[verifier::spinoff_prover]
pub proof fn law_product_sound(
    config: Config,
    w: ModelWeights,
    polys: Map<Seq<char>, Seq<EF>>,
    d: DescView,
    o: SegmentOpening,
    local: Seq<EF>,
    ch: Seq<EF>,
    v: EF,
)
    requires
        segment_opened(config, w, polys, d, o, local, ch, v),
        d.kind is TypeA,
        ch.len() == segments::mm_bits(config, (d.kind->op).mm),
    ensures
        ({
            let x = left_row(config, polys, d, local);
            let y = right_column(config, polys, d, local);
            ||| v == algebra::sum(x.len(), |k: int| x[k] * y[k]) - EF::embed(d.kind->divisor)
                * multilinear::mle(values::vertex_table(d.kind->q, polys, d.vars), local)
            ||| sumcheck::lucky(seq![x, y], (o.matmul->0).proof.rounds(), ch)
        }),
{
    reveal(openings::segment_value);
    reveal(openings::segment_claims);
    let (op, mk) = (d.kind->op, d.kind->mk);
    let (q, a, b) = (d.kind->q, d.kind->a, d.kind->b);
    let (kb, rb, cb) = (
        segments::mm_bits(config, op.mm),
        segments::mm_row_bits(config, op.mm),
        segments::mm_col_bits(config, op.mm),
    );
    let (row, col) = (
        openings::row_point(config, op, local),
        openings::col_point(config, op, local),
    );
    assert(row =~= local.skip(cb as int));
    let k = ch.reverse();
    let proof = o.matmul->0;
    let fe = proof.proof.final_evals@;
    let mc = reduce::matmul_claims(mk, a, b, row, col, ch, fe);
    soundness::lemma_claim_in(seq![q.claim(local, o.in_value)], mc, polys);
    assert(seq![q.claim(local, o.in_value)][0].holds(polys));
    assert(mc[0].holds(polys) && mc[1].holds(polys));
    let (pa, pb) = (reduce::left_point(k, row), reduce::right_point(mk, k, col));
    assert(fe[0].valid() && fe[1].valid());
    commit::law_source_bound(q, polys, local, o.in_value);
    commit::law_source_bound(a, polys, pa, fe[0]);
    commit::law_source_bound(b, polys, pb, fe[1]);
    assert(pa.len() == kb + rb && pb.len() == kb + cb);
    opened::lemma_operand(config, w, a, polys, pa);
    opened::lemma_operand(config, w, b, polys, pb);
    opened::lemma_operand(config, w, q, polys, local);
    let ta = values::vertex_table(a, polys, kb + rb);
    let tb = values::vertex_table(b, polys, kb + cb);
    lemma_at_high(ta, k, row);
    match mk {
        MatmulKind::Regular => {
            assert(cb + kb == kb + cb);
            lemma_at_low(tb, k, col);
        },
        MatmulKind::Transposed => lemma_at_high(tb, k, col),
    }
    let (x, y) = (
        left_row(config, polys, d, local),
        right_column(config, polys, d, local),
    );
    assert(proof.proof.rounds().len() == proof.proof.round_polys@.len());
    reduce::law_matmul_sound(proof, x, y, ch);
}

proof fn lemma_segments_hold(
    config: Config,
    s: Seq<DescView>,
    o: Seq<SegmentOpening>,
    zq: Seq<EF>,
    tape: Seq<EF>,
    n: nat,
    i: int,
    polys: Map<Seq<char>, Seq<EF>>,
)
    requires
        0 <= i < n,
        commit::all_hold(protocol::segments_claims(config, s, o, zq, tape, n), polys),
    ensures
        commit::all_hold(
            openings::segment_claims(
                config,
                s[i],
                o[i],
                zq.take(s[i].vars as int),
                protocol::segment_tape(s, o, tape, i),
            ),
            polys,
        ),
    decreases n,
{
    let k = (n - 1) as nat;
    let before = protocol::segments_claims(config, s, o, zq, tape, k);
    let last = openings::segment_claims(
        config,
        s[n - 1],
        o[n - 1],
        zq.take(s[n - 1].vars as int),
        protocol::segment_tape(s, o, tape, n - 1),
    );
    soundness::lemma_claim_in(before, last, polys);
    if i < n - 1 {
        lemma_segments_hold(config, s, o, zq, tape, k, i, polys);
    }
}

/// Every segment of an accepted proof is opened with true claims, so the laws above hold
/// of it at its part of the query point.
pub proof fn law_segments_opened(
    proof: UnifiedProof,
    config: Config,
    w: ModelWeights,
    polys: Map<Seq<char>, Seq<EF>>,
    tape: Seq<EF>,
    i: int,
)
    requires
        segments::query_fits(config, w),
        shapes::limbs_fit(config),
        soundness::accepted_over(proof, config, w, polys, tape),
        0 <= i < segments::all_segments(config, w).len(),
        opening_valid(proof.segment_openings@[i]),
    ensures
        ({
            let s = segments::all_segments(config, w);
            let zq = (lookup::lookup_claims(proof.lookup, protocol::lookup_part(proof, tape))->0)[
                0
            ].point;
            let st = protocol::segments_part(proof, config, w, tape);
            let o = proof.segment_openings@;
            let got = protocol::value_at(config, s, o, zq, st, i);
            &&& got is Some
            &&& segment_opened(
                config,
                w,
                polys,
                s[i],
                o[i],
                zq.take(s[i].vars as int),
                protocol::segment_tape(s, o, st, i),
                got->0,
            )
        }),
{
    let s = segments::all_segments(config, w);
    let o = proof.segment_openings@;
    let cl = lookup::lookup_claims(proof.lookup, protocol::lookup_part(proof, tape))->0;
    let zq = cl[0].point;
    let st = protocol::segments_part(proof, config, w, tape);
    let first = seq![
        commit::opening(TABLE_IN@, cl[2].point, proof.table_cols@[0]),
        commit::opening(TABLE_OUT@, cl[2].point, proof.table_cols@[1]),
        commit::opening(TABLE_TYPE@, cl[2].point, proof.table_cols@[2]),
    ];
    let segs = protocol::segments_claims(config, s, o, zq, st, s.len());
    let checks = protocol::checks_claims(
        config,
        proof.recomps@,
        protocol::checks_part(proof, config, w, tape),
        CHECKS as nat,
    );
    let last = seq![commit::opening(E@, cl[1].point, cl[1].value)];
    soundness::lemma_claim_in(first + segs + checks, last, polys);
    soundness::lemma_claim_in(first + segs, checks, polys);
    soundness::lemma_claim_in(first, segs, polys);
    lemma_segments_hold(config, s, o, zq, st, s.len(), i, polys);
    shapes::lemma_segments_ok(config, w);
    assert(shapes::segment_ok(config, w, s[i]));
    protocol::lemma_all_within(config, w);
    assert(protocol::within(s[i], zq.len()));
    assert(protocol::value_at(config, s, o, zq, st, i) is Some);
    protocol::lemma_segments_read(s, o, (i + 1) as nat, s.len());
}

/// What an accepted proof looks up: at the point of the table, the claimed table value is
/// that of the committed inputs, plus the first draw times the outputs, plus its square
/// times the types, and the claimed multiplicity is the committed one; and the claimed
/// query value is the sum, over the segments, of their weight times the input plus the
/// draw times the output plus its square times the type, plus the weights of the padding
/// rows, which have only a type.
#[verifier::rlimit(40)]
#[verifier::spinoff_prover]
pub proof fn law_lookup_explained(
    proof: UnifiedProof,
    config: Config,
    w: ModelWeights,
    polys: Map<Seq<char>, Seq<EF>>,
    tape: Seq<EF>,
)
    requires
        protocol::unified_accepted(proof, config, w, polys, tape),
    ensures
        ({
            let s = segments::all_segments(config, w);
            let o = proof.segment_openings@;
            let cl = lookup::lookup_claims(proof.lookup, protocol::lookup_part(proof, tape))->0;
            let st = protocol::segments_part(proof, config, w, tape);
            let (zq, zt, alpha) = (cl[0].point, cl[2].point, tape[0]);
            &&& cl[2].value == multilinear::mle(polys[TABLE_IN@], zt) + alpha * multilinear::mle(
                polys[TABLE_OUT@],
                zt,
            ) + (alpha * alpha) * multilinear::mle(polys[TABLE_TYPE@], zt)
            &&& cl[1].value == multilinear::mle(polys[E@], cl[1].point)
            &&& cl[0].value == algebra::sum(
                s.len(),
                |i: int|
                    protocol::selector(zq, s[i]) * (protocol::value_at(
                        config,
                        s,
                        o,
                        zq,
                        st,
                        i,
                    )->0 + alpha * openings::output_value(o[i]) + (alpha * alpha) * EF::embed(
                        s[i].ty,
                    )),
            ) + algebra::sum(
                commitments::padding_rows(config, w) as nat,
                |i: int|
                    multilinear::eq_table(zq)[segments::total_len(config, w) + i] * (EF::zero()
                        + alpha * EF::zero() + (alpha * alpha) * EF::embed(
                        TYPE_RANGE12 as int,
                    )),
            )
        }),
{
    let s = segments::all_segments(config, w);
    let o = proof.segment_openings@;
    let cl = lookup::lookup_claims(proof.lookup, protocol::lookup_part(proof, tape))->0;
    let st = protocol::segments_part(proof, config, w, tape);
    let (zq, alpha) = (cl[0].point, tape[0]);
    let claims = protocol::unified_claims(proof, config, w, tape);
    assert(claims[0].holds(polys) && claims[1].holds(polys) && claims[2].holds(polys));
    assert(claims[claims.len() - 1].holds(polys));
    lemma_reconstructed_sum(config, alpha, s, o, zq, st, s.len());
    let f = |i: int|
        protocol::selector(zq, s[i]) * (protocol::value_at(config, s, o, zq, st, i)->0 + alpha
            * openings::output_value(o[i]) + (alpha * alpha) * EF::embed(s[i].ty));
    algebra::sum_valid(s.len(), f);
    lemma_padding_sum(
        protocol::reconstructed(config, alpha, s, o, zq, st, s.len()),
        alpha,
        zq,
        segments::total_len(config, w),
        commitments::padding_rows(config, w) as nat,
    );
}

proof fn lemma_reconstructed_sum(
    config: Config,
    alpha: EF,
    s: Seq<DescView>,
    o: Seq<SegmentOpening>,
    zq: Seq<EF>,
    tape: Seq<EF>,
    n: nat,
)
    ensures
        protocol::reconstructed(config, alpha, s, o, zq, tape, n) == algebra::sum(
            n,
            |i: int|
                protocol::selector(zq, s[i]) * (protocol::value_at(
                    config,
                    s,
                    o,
                    zq,
                    tape,
                    i,
                )->0 + alpha * openings::output_value(o[i]) + (alpha * alpha) * EF::embed(
                    s[i].ty,
                )),
        ),
    decreases n,
{
    if n > 0 {
        lemma_reconstructed_sum(config, alpha, s, o, zq, tape, (n - 1) as nat);
    }
}

proof fn lemma_padding_sum(start: EF, alpha: EF, zq: Seq<EF>, from: nat, n: nat)
    requires
        start.valid(),
    ensures
        protocol::with_padding(start, alpha, zq, from, n) == start + algebra::sum(
            n,
            |i: int|
                multilinear::eq_table(zq)[from + i] * (EF::zero() + alpha * EF::zero() + (alpha
                    * alpha) * EF::embed(TYPE_RANGE12 as int)),
        ),
    decreases n,
{
    let f = |i: int|
        multilinear::eq_table(zq)[from + i] * (EF::zero() + alpha * EF::zero() + (alpha * alpha)
            * EF::embed(TYPE_RANGE12 as int));
    if n == 0 {
        EF::law_add_zero(start);
    } else {
        let m = (n - 1) as nat;
        lemma_padding_sum(start, alpha, zq, from, m);
        EF::law_add_assoc(start, algebra::sum(m, f), f(n - 1));
    }
}

/// An accepted proof opens every segment and checks every limb, its query point has the
/// variables of the query and its table point those of the table, and no matrix product
/// has fewer rounds than contracted variables.
pub proof fn law_parts_counted(
    proof: UnifiedProof,
    config: Config,
    w: ModelWeights,
    polys: Map<Seq<char>, Seq<EF>>,
    tape: Seq<EF>,
    i: int,
)
    requires
        protocol::unified_accepted(proof, config, w, polys, tape),
        0 <= i < segments::all_segments(config, w).len(),
    ensures
        proof.segment_openings@.len() == segments::all_segments(config, w).len(),
        proof.recomps@.len() == CHECKS,
        ({
            let cl = lookup::lookup_claims(proof.lookup, protocol::lookup_part(proof, tape))->0;
            let s = segments::all_segments(config, w)[i];
            let o = proof.segment_openings@[i];
            &&& cl[0].point.len() == segments::query_bits(config, w)
            &&& pow2(cl[2].point.len()) == table::table_len(config, w)
            &&& s.kind is TypeA ==> o.matmul is Some && segments::mm_bits(
                config,
                (s.kind->op).mm,
            ) <= (o.matmul->0).proof.round_polys@.len()
            &&& s.kind is TypeB ==> o.prod is Some && (o.prod->0).proof.round_polys@.len()
                == cl[0].point.take(s.vars as int).len()
        }),
{
    reveal(openings::segment_value);
    let s = segments::all_segments(config, w);
    let o = proof.segment_openings@;
    let cl = lookup::lookup_claims(proof.lookup, protocol::lookup_part(proof, tape))->0;
    let st = protocol::segments_part(proof, config, w, tape);
    assert(protocol::value_at(config, s, o, cl[0].point, st, i) is Some);
}

} // verus!
