//! The honest opening of a segment.
//!
//! Its reduction is accepted, the value that verification computes from it is the
//! extension of the segment's inputs, and the openings it requests are true.
use vstd::prelude::*;
use vstd::arithmetic::power2::pow2;
use crate::algebra;
use crate::field::Field;
use crate::multilinear;
use crate::proofsys::canonical;
use crate::proofsys::commit;
use crate::proofsys::commit::{BiasView, SourceView};
use crate::proofsys::faithful::openings;
use crate::proofsys::faithful::openings::SegmentOpening;
use crate::proofsys::faithful::operands;
use crate::proofsys::faithful::segments;
use crate::proofsys::faithful::segments::{DescView, LinearView, SegView, TypeAOp};
use crate::proofsys::faithful::shapes;
use crate::proofsys::faithful::values;
use crate::proofsys::grid;
use crate::proofsys::grid::Grid;
use crate::proofsys::model::ModelWeights;
use crate::proofsys::protocol::EF;
use crate::proofsys::reduce;
use crate::proofsys::reduce::MatmulKind;
use crate::proofsys::witness::{Config, WitnessView};
use crate::tables;
use crate::utils::sumcheck;

verus! {

/// All stored polynomials hold field elements.
pub open spec fn polys_valid(polys: Map<Seq<char>, Seq<EF>>) -> bool {
    forall|name: Seq<char>| #[trigger]
        polys.contains_key(name) ==> algebra::all_valid(polys[name])
}

/// A right factor padded to `2^kb` contracted and `2^cb` other entries.
pub open spec fn padded_right(mk: MatmulKind, g: Grid, kb: nat, cb: nat) -> Seq<EF> {
    match mk {
        MatmulKind::Regular => canonical::padded(g, pow2(kb), pow2(cb)),
        MatmulKind::Transposed => canonical::padded(g, pow2(cb), pow2(kb)),
    }
}

/// The operands of a matrix product are read from polynomials that hold the
/// witness's matrices.
pub open spec fn product_committed(
    config: Config,
    w: ModelWeights,
    wit: WitnessView,
    polys: Map<Seq<char>, Seq<EF>>,
    op: TypeAOp,
    q: SourceView,
    a: SourceView,
    b: SourceView,
) -> bool {
    let (kb, rb, cb) = (
        segments::mm_bits(config, op.mm),
        segments::mm_row_bits(config, op.mm),
        segments::mm_col_bits(config, op.mm),
    );
    &&& values::vertex_table(q, polys, cb + rb) == canonical::padded(
        values::quotient_grid(wit, op),
        pow2(rb),
        pow2(cb),
    )
    &&& values::vertex_table(a, polys, kb + rb) == canonical::padded(
        values::left_grid(config, w, wit, op),
        pow2(rb),
        pow2(kb),
    )
    &&& values::vertex_table(b, polys, kb + cb) == padded_right(
        segments::kind_of_mm(op.mm),
        values::right_grid(config, w, wit, op),
        kb,
        cb,
    )
}

/// The segment's operands are read from polynomials that hold the witness.
pub open spec fn segment_committed(
    config: Config,
    w: ModelWeights,
    wit: WitnessView,
    polys: Map<Seq<char>, Seq<EF>>,
    d: DescView,
) -> bool {
    match d.kind {
        SegView::Direct { bias, offset, out } => true,
        SegView::TypeA { divisor, mk, q, a, b, op } => product_committed(
            config,
            w,
            wit,
            polys,
            op,
            q,
            a,
            b,
        ),
        SegView::TypeB { left, right, coeff, linears, constant, instance } => {
            values::vertex_table(right, polys, d.vars) == openings::broadcast_sums(
                config,
                wit,
                instance,
            )
        },
    }
}

/// A stored operand at its point.
pub proof fn lemma_operand(
    config: Config,
    w: ModelWeights,
    src: SourceView,
    polys: Map<Seq<char>, Seq<EF>>,
    p: Seq<EF>,
)
    requires
        shapes::source_ok(config, w, src, p.len()),
        shapes::ready(polys, config, w),
        polys_valid(polys),
    ensures
        multilinear::mle(values::vertex_table(src, polys, p.len()), p) == src.value(polys, p),
        algebra::all_valid(values::vertex_table(src, polys, p.len())),
        reduce::source_opens(src, polys, p, src.value(polys, p)),
        src.claim(p, src.value(polys, p)).holds(polys),
{
    values::lemma_stored(config, w, src, p.len(), polys);
    assert(polys.contains_key(src.oracle));
    operands::law_operand_table(src, polys, p);
    commit::law_source_claim(src, polys, p);
}

/// The first `m` linear terms at all vertices.
pub open spec fn affine_table(
    start: Seq<EF>,
    linears: Seq<LinearView>,
    polys: Map<Seq<char>, Seq<EF>>,
    n: nat,
    m: nat,
) -> Seq<EF> {
    Seq::new(
        start.len(),
        |i: int|
            values::affine(start[i], linears, values::vertex_terms(linears, polys, n, i), m),
    )
}

/// The extension of a sum of linear terms.
pub proof fn lemma_affine_table(
    config: Config,
    w: ModelWeights,
    start: Seq<EF>,
    linears: Seq<LinearView>,
    polys: Map<Seq<char>, Seq<EF>>,
    p: Seq<EF>,
    m: nat,
)
    requires
        shapes::linears_ok(config, w, linears, p.len()),
        shapes::ready(polys, config, w),
        polys_valid(polys),
        start.len() == pow2(p.len()),
        m <= linears.len(),
    ensures
        multilinear::mle(affine_table(start, linears, polys, p.len(), m), p) == values::affine(
            multilinear::mle(start, p),
            linears,
            openings::linear_values(linears, polys, p),
            m,
        ),
    decreases m,
{
    let n = p.len();
    let t = affine_table(start, linears, polys, n, m);
    if m == 0 {
        assert(t =~= start);
    } else {
        let k = (m - 1) as nat;
        lemma_affine_table(config, w, start, linears, polys, p, k);
        let before = affine_table(start, linears, polys, n, k);
        let src = linears[m - 1].src;
        let c = linears[m - 1].coeff;
        lemma_operand(config, w, src, polys, p);
        let v = values::vertex_table(src, polys, n);
        let scaled = Seq::new(v.len(), |i: int| c * v[i]);
        multilinear::lemma_mle_scale(c, v, p);
        multilinear::lemma_mle_add(before, scaled, p);
        let sum = Seq::new(before.len(), |i: int| before[i] + scaled[i]);
        assert forall|i: int| 0 <= i < t.len() implies #[trigger] t[i] == sum[i] by {
            let terms = values::vertex_terms(linears, polys, n, i);
            assert(values::affine(start[i], linears, terms, m) == values::affine(
                start[i],
                linears,
                terms,
                k,
            ) + c * terms[m - 1]);
            assert(terms[m - 1] == v[i]);
        }
        assert(t =~= sum);
    }
}

/// The openings of the linear terms are true.
pub proof fn lemma_linears_hold(
    config: Config,
    w: ModelWeights,
    linears: Seq<LinearView>,
    polys: Map<Seq<char>, Seq<EF>>,
    p: Seq<EF>,
    m: nat,
)
    requires
        shapes::linears_ok(config, w, linears, p.len()),
        shapes::ready(polys, config, w),
        polys_valid(polys),
        m <= linears.len(),
    ensures
        commit::all_hold(
            openings::linear_claims(
                linears,
                p,
                openings::linear_values(linears, polys, p),
                m,
            ),
            polys,
        ),
    decreases m,
{
    if m > 0 {
        lemma_linears_hold(config, w, linears, polys, p, (m - 1) as nat);
        lemma_operand(config, w, linears[m - 1].src, polys, p);
    }
}

/// The operand that reads a whole polynomial, with a bias.
spec fn plain(name: Seq<char>, n: nat, bias: Option<BiasView>) -> SourceView {
    SourceView { oracle: name, coords: commit::variables(0, n), bias }
}

/// A polynomial plus a bias at all vertices.
proof fn lemma_plain(
    config: Config,
    w: ModelWeights,
    name: Seq<char>,
    bias: Option<BiasView>,
    polys: Map<Seq<char>, Seq<EF>>,
    p: Seq<EF>,
)
    requires
        shapes::named_bits(config, w, name, p.len()),
        bias is Some ==> bias->0.fits(p.len()) && bias->0.injective(),
        shapes::bias_valid(bias),
        shapes::ready(polys, config, w),
        polys_valid(polys),
        p.len() < 64,
    ensures
        ({
            let src = plain(name, p.len(), bias);
            let t = values::vertex_table(src, polys, p.len());
            &&& polys.contains_key(name)
            &&& polys[name].len() == pow2(p.len())
            &&& algebra::all_valid(polys[name])
            &&& t.len() == pow2(p.len())
            &&& forall|i: int|
                0 <= i < t.len() ==> #[trigger] t[i] == polys[name][i] + src.bias_at(
                    commit::corner(i as nat, p.len()),
                )
            &&& multilinear::mle(t, p) == multilinear::mle(polys[name], p) + src.bias_at(p)
        }),
{
    let n = p.len();
    let src = plain(name, n, bias);
    assert forall|i: int| 0 <= i < n implies #[trigger] src.coords[i] == commit::Coord::Var(
        i as usize,
    ) by {}
    assert(shapes::source_ok(config, w, src, n));
    lemma_operand(config, w, src, polys, p);
    assert(src.target(p) =~= p);
    let t = values::vertex_table(src, polys, n);
    assert forall|i: int| 0 <= i < t.len() implies #[trigger] t[i] == polys[name][i]
        + src.bias_at(commit::corner(i as nat, n)) by {
        let bits = commit::index_bits(i as nat, n);
        commit::lemma_index_bits(i as nat, n);
        assert(values::mapped_bits(src.coords, bits) =~= bits);
        vstd::arithmetic::div_mod::lemma_small_mod(i as nat, pow2(n));
    }
}

/// The honest opening is accepted, with the extensions of the segment's inputs and
/// outputs, and it reads the prover's challenges.
pub open spec fn opens_segment(
    config: Config,
    w: ModelWeights,
    wit: WitnessView,
    polys: Map<Seq<char>, Seq<EF>>,
    d: DescView,
    o: SegmentOpening,
    local: Seq<EF>,
    ch: Seq<EF>,
) -> bool {
    &&& openings::segment_value(config, d, o, local, ch) == Some(
        multilinear::mle(values::row_inputs(d, polys, config, w, wit), local),
    )
    &&& openings::output_value(o) == multilinear::mle(values::row_outputs(d, polys), local)
    &&& commit::all_hold(openings::segment_claims(config, d, o, local, ch), polys)
    &&& openings::segment_draws(d, o) == ch.len()
}

/// What is asked of a segment, its honest opening and its challenges.
pub open spec fn opened(
    config: Config,
    w: ModelWeights,
    wit: WitnessView,
    polys: Map<Seq<char>, Seq<EF>>,
    d: DescView,
    o: SegmentOpening,
    local: Seq<EF>,
    ch: Seq<EF>,
) -> bool {
    &&& segments::segments_fit(config, w)
    &&& shapes::segment_ok(config, w, d)
    &&& shapes::ready(polys, config, w)
    &&& polys_valid(polys)
    &&& canonical::witness_shaped(wit, config)
    &&& segment_committed(config, w, wit, polys, d)
    &&& local.len() == d.vars
    &&& ch.len() == openings::desc_draws(config, d)
    &&& algebra::all_valid(ch)
    &&& openings::honest_opening(o, config, w, wit, d, polys, local, ch)
}

proof fn lemma_direct(
    config: Config,
    w: ModelWeights,
    wit: WitnessView,
    polys: Map<Seq<char>, Seq<EF>>,
    d: DescView,
    o: SegmentOpening,
    local: Seq<EF>,
    ch: Seq<EF>,
)
    requires
        opened(config, w, wit, polys, d, o, local, ch),
        d.kind is Direct,
    ensures
        opens_segment(config, w, wit, polys, d, o, local, ch),
{
    reveal(openings::honest_opening);
    reveal(openings::segment_value);
    reveal(openings::segment_claims);
    let (bias, offset, out) = (d.kind->bias, d.kind->offset, d.kind->out);
    let n = d.vars;
    lemma_plain(config, w, d.oracle_in, bias, polys, local);
    let src = plain(d.oracle_in, n, bias);
    let t = values::vertex_table(src, polys, n);
    let e = EF::embed(offset);
    EF::law_embed(offset, 0);
    EF::law_valid(EF::zero(), EF::zero());
    let c = Seq::new(pow2(n), |i: int| e);
    tables::lemma_mle_constant(e, local);
    multilinear::lemma_mle_add(t, c, local);
    let sum = Seq::new(t.len(), |i: int| t[i] + c[i]);
    let have = values::row_inputs(d, polys, config, w, wit);
    assert forall|i: int| 0 <= i < have.len() implies #[trigger] have[i] == sum[i] by {
        let (x, b) = (polys[d.oracle_in][i], src.bias_at(commit::corner(i as nat, n)));
        assert(x.valid());
        assert(t[i] == x + b);
        lemma_move(x, b, e);
        algebra::zero_add(x);
    }
    assert(have =~= sum);
    let (x, b) = (multilinear::mle(polys[d.oracle_in], local), src.bias_at(local));
    multilinear::lemma_fold_all_valid(polys[d.oracle_in], local);
    multilinear::lemma_fold_all_len(polys[d.oracle_in], local, n);
    multilinear::lemma_pow2_zero();
    lemma_move(x, b, e);
    algebra::zero_add(x);
    let outs = values::row_outputs(d, polys);
    match out {
        Some(name) => {
            assert(shapes::named_bits(config, w, name, n));
            assert(outs =~= polys[name]);
        },
        None => {
            tables::lemma_mle_zero(outs, local);
        },
    }
}

/// `(x + b) + e == (x + e) + b`.
proof fn lemma_move(x: EF, b: EF, e: EF)
    ensures
        (x + b) + e == (x + e) + b,
{
    EF::law_add_assoc(x, b, e);
    EF::law_add_comm(b, e);
    EF::law_add_assoc(x, e, b);
}

proof fn lemma_pair(
    config: Config,
    w: ModelWeights,
    wit: WitnessView,
    polys: Map<Seq<char>, Seq<EF>>,
    d: DescView,
    o: SegmentOpening,
    local: Seq<EF>,
    ch: Seq<EF>,
)
    requires
        opened(config, w, wit, polys, d, o, local, ch),
        d.kind is TypeB,
    ensures
        opens_segment(config, w, wit, polys, d, o, local, ch),
{
    reveal(openings::honest_opening);
    reveal(openings::segment_value);
    reveal(openings::segment_claims);
    let (left, right, coeff) = (d.kind->left, d.kind->right, d.kind->coeff);
    let (linears, constant) = (d.kind->linears, d.kind->constant);
    let n = d.vars;
    let (l, r) = (
        values::vertex_table(left, polys, n),
        values::vertex_table(right, polys, n),
    );
    let proof = o.prod->0;
    let k = ch.reverse();
    lemma_operand(config, w, left, polys, k);
    lemma_operand(config, w, right, polys, k);
    reduce::law_prod_complete(proof, left, right, l, r, local, ch, polys);
    sumcheck::law_rounds_shape(reduce::prod_tables(local, l, r), ch);
    assert(proof.proof.rounds().len() == proof.proof.round_polys@.len());
    lemma_linears_hold(config, w, linears, polys, local, linears.len());
    commit::lemma_all_hold_join(
        reduce::prod_claims(left, right, ch, proof.proof.final_evals@),
        openings::linear_claims(linears, local, o.linear_openings@, linears.len()),
        polys,
    );
    let start = lemma_product_start(coeff, constant, l, r, local);
    lemma_affine_table(config, w, start, linears, polys, local, linears.len());
    let have = values::row_inputs(d, polys, config, w, wit);
    let t = affine_table(start, linears, polys, n, linears.len());
    assert forall|i: int| 0 <= i < have.len() implies #[trigger] have[i] == t[i] by {
        EF::law_mul_assoc(coeff, l[i], r[i]);
    }
    assert(have =~= t);
    tables::lemma_mle_zero(values::row_outputs(d, polys), local);
}

/// A scaled product plus a constant at all vertices.
pub proof fn lemma_product_start(
    coeff: EF,
    constant: EF,
    l: Seq<EF>,
    r: Seq<EF>,
    p: Seq<EF>,
) -> (start: Seq<EF>)
    requires
        l.len() == pow2(p.len()),
        r.len() == l.len(),
        constant.valid(),
    ensures
        start == Seq::new(l.len(), |i: int| coeff * (l[i] * r[i]) + constant),
        multilinear::mle(start, p) == coeff * multilinear::mle(reduce::pointwise(l, r), p)
            + constant,
{
    let pw = reduce::pointwise(l, r);
    let scaled = Seq::new(pw.len(), |i: int| coeff * pw[i]);
    let c = Seq::new(pow2(p.len()), |i: int| constant);
    multilinear::lemma_mle_scale(coeff, pw, p);
    tables::lemma_mle_constant(constant, p);
    multilinear::lemma_mle_add(scaled, c, p);
    let start = Seq::new(l.len(), |i: int| coeff * (l[i] * r[i]) + constant);
    assert(start =~= Seq::new(scaled.len(), |i: int| scaled[i] + c[i]));
    start
}

/// The remainders are the padded product less the scaled quotient.
proof fn lemma_remainders(
    config: Config,
    w: ModelWeights,
    wit: WitnessView,
    polys: Map<Seq<char>, Seq<EF>>,
    d: DescView,
    local: Seq<EF>,
)
    requires
        segments::segments_fit(config, w),
        shapes::segment_ok(config, w, d),
        canonical::witness_shaped(wit, config),
        d.kind is TypeA,
        local.len() == d.vars,
    ensures
        ({
            let op = d.kind->op;
            let (rb, cb) = (
                segments::mm_row_bits(config, op.mm),
                segments::mm_col_bits(config, op.mm),
            );
            multilinear::mle(values::row_inputs(d, polys, config, w, wit), local)
                == multilinear::mle(
                canonical::padded(
                    values::op_product(config, w, wit, op),
                    pow2(rb),
                    pow2(cb),
                ),
                local,
            ) - EF::embed(d.kind->divisor) * multilinear::mle(
                canonical::padded(values::quotient_grid(wit, op), pow2(rb), pow2(cb)),
                local,
            )
        }),
{
    let (op, div) = (d.kind->op, d.kind->divisor);
    let (rb, cb) = (segments::mm_row_bits(config, op.mm), segments::mm_col_bits(config, op.mm));
    let (p, q) = (values::op_product(config, w, wit, op), values::quotient_grid(wit, op));
    values::lemma_op_shapes(config, w, wit, op);
    let (x, y) = (
        canonical::padded(p, pow2(rb), pow2(cb)),
        canonical::padded(q, pow2(rb), pow2(cb)),
    );
    operands::lemma_padded_valid(p, rb, cb);
    operands::lemma_padded_valid(q, rb, cb);
    let e = EF::embed(div);
    let m = e.spec_neg();
    let scaled = Seq::new(y.len(), |i: int| m * y[i]);
    multilinear::lemma_mle_scale(m, y, local);
    multilinear::lemma_mle_add(x, scaled, local);
    let sum = Seq::new(x.len(), |i: int| x[i] + scaled[i]);
    let have = values::row_inputs(d, polys, config, w, wit);
    assert forall|i: int| 0 <= i < have.len() implies #[trigger] have[i] == sum[i] by {
        vstd::arithmetic::power2::lemma_pow2_adds(rb, cb);
        grid::lemma_position(pow2(rb), pow2(cb), i);
        let (r, c) = (i / pow2(cb) as int, i % pow2(cb) as int);
        let (u, v) = (
            canonical::padded_cell(p, pow2(cb), i),
            canonical::padded_cell(q, pow2(cb), i),
        );
        EF::law_embed(div, v);
        EF::law_embed(u - div * v, div * v);
        EF::law_embed(u, 0);
        algebra::neg_mul(e, EF::embed(v));
        EF::law_sub(EF::embed(u), EF::embed(div * v));
        algebra::sub_add(EF::embed(u - div * v), EF::embed(div * v));
        assert(have[i] == EF::embed(u - div * v)) by {
            assert(0 - div * 0 == 0);
        }
    }
    assert(have =~= sum);
    let (a, b) = (multilinear::mle(x, local), multilinear::mle(y, local));
    algebra::neg_mul(e, b);
    EF::law_sub(a, e * b);
}

#[verifier::rlimit(30)]
proof fn lemma_product(
    config: Config,
    w: ModelWeights,
    wit: WitnessView,
    polys: Map<Seq<char>, Seq<EF>>,
    d: DescView,
    o: SegmentOpening,
    local: Seq<EF>,
    ch: Seq<EF>,
)
    requires
        opened(config, w, wit, polys, d, o, local, ch),
        d.kind is TypeA,
    ensures
        opens_segment(config, w, wit, polys, d, o, local, ch),
{
    reveal(openings::honest_opening);
    reveal(openings::segment_value);
    reveal(openings::segment_claims);
    let (op, mk) = (d.kind->op, d.kind->mk);
    let (q, a, b) = (d.kind->q, d.kind->a, d.kind->b);
    let (kb, rb, cb) = (
        segments::mm_bits(config, op.mm),
        segments::mm_row_bits(config, op.mm),
        segments::mm_col_bits(config, op.mm),
    );
    let (ga, gb, gq) = (
        values::left_grid(config, w, wit, op),
        values::right_grid(config, w, wit, op),
        values::quotient_grid(wit, op),
    );
    let (row, col) = (
        openings::row_point(config, op, local),
        openings::col_point(config, op, local),
    );
    let k = ch.reverse();
    values::lemma_op_shapes(config, w, wit, op);
    let shape = segments::mm_shape(config, op.mm);
    commit::lemma_ceil_pow(shape.0 as int);
    commit::lemma_ceil_pow(shape.1 as int);
    commit::lemma_ceil_pow(shape.2 as int);
    assert(col + row =~= local);
    let (x, y) = (
        openings::contracted_rows(ga, row, kb),
        openings::contracted_right(mk, gb, col, kb),
    );
    operands::lemma_contracted_rows(ga, k, row);
    match mk {
        MatmulKind::Regular => operands::lemma_contracted_cols(gb, col, k),
        MatmulKind::Transposed => operands::lemma_contracted_rows(gb, k, col),
    }
    operands::lemma_product_value(mk, ga, gb, row, col, kb);
    let proof = o.matmul->0;
    let (pa, pb) = (reduce::left_point(k, row), reduce::right_point(mk, k, col));
    lemma_operand(config, w, a, polys, pa);
    lemma_operand(config, w, b, polys, pb);
    lemma_operand(config, w, q, polys, local);
    assert(pa.len() == kb + rb && pb.len() == kb + cb);
    reduce::law_matmul_complete(proof, mk, a, b, x, y, row, col, ch, polys);
    sumcheck::law_rounds_shape(seq![x, y], ch);
    assert(proof.proof.rounds().len() == proof.proof.round_polys@.len());
    lemma_remainders(config, w, wit, polys, d, local);
    commit::lemma_all_hold_join(
        seq![q.claim(local, o.in_value)],
        reduce::matmul_claims(mk, a, b, row, col, ch, proof.proof.final_evals@),
        polys,
    );
    tables::lemma_mle_zero(values::row_outputs(d, polys), local);
}

/// The honest opening of a segment is accepted: the value that verification computes
/// is the extension of the segment's inputs, its output that of the outputs, and the
/// openings it requests are true.
pub proof fn law_segment_complete(
    config: Config,
    w: ModelWeights,
    wit: WitnessView,
    polys: Map<Seq<char>, Seq<EF>>,
    d: DescView,
    o: SegmentOpening,
    local: Seq<EF>,
    ch: Seq<EF>,
)
    requires
        opened(config, w, wit, polys, d, o, local, ch),
    ensures
        opens_segment(config, w, wit, polys, d, o, local, ch),
{
    match d.kind {
        SegView::Direct { bias, offset, out } => {
            lemma_direct(config, w, wit, polys, d, o, local, ch);
        },
        SegView::TypeA { divisor, mk, q, a, b, op } => {
            lemma_product(config, w, wit, polys, d, o, local, ch);
        },
        SegView::TypeB { left, right, coeff, linears, constant, instance } => {
            lemma_pair(config, w, wit, polys, d, o, local, ch);
        },
    }
}

} // verus!
