//! What the prover sends for one segment of the lookup query and for one limb check,
//! and what the verifier makes of it.
use vstd::prelude::*;
use vstd::arithmetic::power2::pow2;
use crate::algebra;
use crate::field::Field;
use crate::logup::lookup;
use crate::logup::lookup::LookupProof;
use crate::multilinear;
use crate::proofsys::canonical;
use crate::proofsys::canonical::Kind;
use crate::proofsys::commit;
use crate::proofsys::commit::{ClaimAccumulator, CommitSet, OracleClaimView};
use crate::proofsys::faithful::segments;
use crate::proofsys::faithful::segments::{
    CheckView, DescView, Descriptor, LimbCheckSpec, Linear,
    LinearView, SegKind, SegView, TypeAOp, TypeBOp, NUM_LIMBS,
};
use crate::proofsys::faithful::shapes;
use crate::proofsys::faithful::sources;
use crate::proofsys::faithful::table;
use crate::proofsys::faithful::values;
use crate::proofsys::grid;
use crate::proofsys::grid::Grid;
use crate::proofsys::model::ModelWeights;
use crate::proofsys::protocol::EF;
use crate::proofsys::reduce;
use crate::proofsys::reduce::{MatmulKind, MatmulProof, ProdProof};
use crate::proofsys::tensor::Matrix;
use crate::proofsys::witness::{Config, Witness, WitnessView};
use crate::utils::oracle::RandomOracle;
use crate::utils::poly;
use crate::utils::sumcheck;

verus! {

/// What the prover sends for one segment: the opening of its input (or quotient) and
/// output, the reduction of its matrix product or product, and the openings of its
/// linear terms.
pub struct SegmentOpening {
    pub in_value: EF,
    pub out_value: Option<EF>,
    pub matmul: Option<MatmulProof>,
    pub prod: Option<ProdProof>,
    pub linear_openings: Vec<EF>,
}

/// What the prover sends for one limb check: the reduction of its product, the
/// openings of its linear terms and of its limbs.
pub struct RecompProof {
    pub prod: Option<ProdProof>,
    pub openings: Vec<EF>,
    pub limb_values: Vec<EF>,
}

/// The unified proof.
pub struct UnifiedProof {
    pub lookup: LookupProof<EF>,
    pub segment_openings: Vec<SegmentOpening>,
    pub recomps: Vec<RecompProof>,
    /// The columns of the lookup table at the table point.
    pub table_cols: [EF; 3],
    pub batch: (),
}

/// The element count of an optional reduction.
pub open spec fn matmul_count(m: Option<MatmulProof>) -> nat {
    match m {
        Some(m) => m.proof.element_count() + 1,
        None => 0,
    }
}

pub open spec fn prod_count(p: Option<ProdProof>) -> nat {
    match p {
        Some(p) => p.proof.element_count() + 1,
        None => 0,
    }
}

/// Number of field elements of a segment's opening.
pub open spec fn opening_count(o: SegmentOpening) -> nat {
    1 + (if o.out_value is Some {
        1nat
    } else {
        0nat
    }) + matmul_count(o.matmul) + prod_count(o.prod) + o.linear_openings@.len()
}

/// Number of field elements of a check's proof.
pub open spec fn recomp_count(r: RecompProof) -> nat {
    prod_count(r.prod) + r.openings@.len() + r.limb_values@.len()
}

pub open spec fn openings_count(s: Seq<SegmentOpening>, n: nat) -> nat
    decreases n,
{
    if n == 0 {
        0
    } else {
        openings_count(s, (n - 1) as nat) + opening_count(s[n - 1])
    }
}

pub open spec fn recomps_count(s: Seq<RecompProof>, n: nat) -> nat
    decreases n,
{
    if n == 0 {
        0
    } else {
        recomps_count(s, (n - 1) as nat) + recomp_count(s[n - 1])
    }
}

proof fn lemma_openings_mono(s: Seq<SegmentOpening>, a: nat, b: nat)
    requires
        a <= b,
    ensures
        openings_count(s, a) <= openings_count(s, b),
    decreases b - a,
{
    if a < b {
        lemma_openings_mono(s, (a + 1) as nat, b);
    }
}

proof fn lemma_recomps_mono(s: Seq<RecompProof>, a: nat, b: nat)
    requires
        a <= b,
    ensures
        recomps_count(s, a) <= recomps_count(s, b),
    decreases b - a,
{
    if a < b {
        lemma_recomps_mono(s, (a + 1) as nat, b);
    }
}

impl UnifiedProof {
    /// Number of field elements.
    pub open spec fn element_count(self) -> nat {
        self.lookup.query.element_count() + self.lookup.table.element_count() + openings_count(
            self.segment_openings@,
            self.segment_openings@.len(),
        ) + 3 + recomps_count(self.recomps@, self.recomps@.len())
    }

    /// Size in bytes of all field elements.
    pub fn size_bytes(&self) -> (r: usize)
        requires
            self.element_count() * EF::byte_size() <= usize::MAX,
        ensures
            r == self.element_count() * EF::byte_size(),
    {
        let ef: usize = EF::size();
        assert(ef == 16);
        let ghost so = self.segment_openings@;
        let ghost rs = self.recomps@;
        let ghost base = self.lookup.query.element_count() + self.lookup.table.element_count();
        let mut s: usize = self.lookup.size_bytes();
        let mut i: usize = 0;
        while i < self.segment_openings.len()
            invariant
                i <= so.len(),
                so == self.segment_openings@,
                ef == 16,
                self.element_count() * 16 <= usize::MAX,
                base == self.lookup.query.element_count() + self.lookup.table.element_count(),
                s == (base + openings_count(so, i as nat)) * 16,
            decreases so.len() - i,
        {
            proof {
                lemma_openings_mono(so, (i + 1) as nat, so.len());
            }
            let o = &self.segment_openings[i];
            s = s + ef;
            if o.out_value.is_some() {
                s = s + ef;
            }
            match &o.matmul {
                Some(m) => {
                    s = s + m.proof.size_bytes() + ef;
                },
                None => {},
            }
            match &o.prod {
                Some(p) => {
                    s = s + p.proof.size_bytes() + ef;
                },
                None => {},
            }
            s = s + ef * o.linear_openings.len();
            i += 1;
        }
        s = s + 3 * ef;
        let mut j: usize = 0;
        while j < self.recomps.len()
            invariant
                j <= rs.len(),
                rs == self.recomps@,
                so == self.segment_openings@,
                ef == 16,
                self.element_count() * 16 <= usize::MAX,
                base == self.lookup.query.element_count() + self.lookup.table.element_count(),
                s == (base + openings_count(so, so.len()) + 3 + recomps_count(rs, j as nat))
                    * 16,
            decreases rs.len() - j,
        {
            proof {
                lemma_recomps_mono(rs, (j + 1) as nat, rs.len());
            }
            let r = &self.recomps[j];
            match &r.prod {
                Some(p) => {
                    s = s + p.proof.size_bytes() + ef;
                },
                None => {},
            }
            s = s + ef * (r.openings.len() + r.limb_values.len());
            j += 1;
        }
        s
    }
}

/// The row part of a matrix product segment's point.
pub open spec fn row_point(config: Config, op: TypeAOp, local: Seq<EF>) -> Seq<EF> {
    let cb = segments::mm_col_bits(config, op.mm);
    local.subrange(cb as int, (cb + segments::mm_row_bits(config, op.mm)) as int)
}

/// The column part of a matrix product segment's point.
pub open spec fn col_point(config: Config, op: TypeAOp, local: Seq<EF>) -> Seq<EF> {
    local.take(segments::mm_col_bits(config, op.mm) as int)
}

/// Splits a matrix product segment's point into row and column.
fn typea_points(config: &Config, op: TypeAOp, local: &Vec<EF>) -> (r: (Vec<EF>, Vec<EF>))
    requires
        3 * config.d_model <= usize::MAX,
        local@.len() == segments::mm_col_bits(*config, op.mm) + segments::mm_row_bits(
            *config,
            op.mm,
        ),
    ensures
        r.0@ == row_point(*config, op, local@),
        r.1@ == col_point(*config, op, local@),
{
    let d = segments::mm_dims(config, op.mm);
    let cv: usize = commit::log_ceil(d.col);
    let s = local.as_slice();
    let col = poly::copy_slice(vstd::slice::slice_subrange(s, 0, cv));
    let row = poly::copy_slice(vstd::slice::slice_subrange(s, cv, local.len()));
    assert(col@ =~= col_point(*config, op, local@));
    (row, col)
}

/// The claims left by the first `n` linear terms at point `p`.
pub open spec fn linear_claims(linears: Seq<LinearView>, p: Seq<EF>, vals: Seq<EF>, n: nat) -> Seq<
    OracleClaimView,
>
    decreases n,
{
    if n == 0 {
        Seq::empty()
    } else {
        linear_claims(linears, p, vals, (n - 1) as nat).push(
            linears[n - 1].src.claim(p, vals[n - 1]),
        )
    }
}

/// The linear operands at point `p`.
pub open spec fn linear_values(
    linears: Seq<LinearView>,
    polys: Map<Seq<char>, Seq<EF>>,
    p: Seq<EF>,
) -> Seq<EF> {
    Seq::new(linears.len(), |j: int| linears[j].src.value(polys, p))
}

/// Opens the linear operands at a point.
fn open_linears(
    linears: &Vec<Linear>,
    set: &CommitSet,
    p: &Vec<EF>,
    acc: &mut ClaimAccumulator,
) -> (r: Vec<EF>)
    requires
        values::linears_ready(segments::linear_views(linears@), set.kept(), p@.len()),
    ensures
        r@ == linear_values(segments::linear_views(linears@), set.kept(), p@),
        final(acc).contents() == old(acc).contents() + linear_claims(
            segments::linear_views(linears@),
            p@,
            r@,
            linears@.len(),
        ),
{
    let ghost views = segments::linear_views(linears@);
    let ghost goal = linear_values(views, set.kept(), p@);
    let ghost before = acc.contents();
    let mut out: Vec<EF> = Vec::new();
    let mut j: usize = 0;
    assert(before + linear_claims(views, p@, goal, 0) =~= before);
    while j < linears.len()
        invariant
            j <= linears@.len(),
            views == segments::linear_views(linears@),
            goal == linear_values(views, set.kept(), p@),
            values::linears_ready(views, set.kept(), p@.len()),
            out@ == goal.take(j as int),
            acc.contents() == before + linear_claims(views, p@, goal, j as nat),
        decreases linears.len() - j,
    {
        assert(views[j as int] == linears@[j as int].contents());
        assert(views[j as int].src.fits(p@.len()));
        let v = linears[j].src.value(set, p.as_slice());
        linears[j].src.emit(acc, p.as_slice(), v);
        out.push(v);
        proof {
            assert(goal.take(j + 1) =~= goal.take(j as int).push(v));
            assert(acc.contents() =~= before + linear_claims(views, p@, goal, (j + 1) as nat));
        }
        j += 1;
    }
    assert(goal.take(j as int) =~= goal);
    out
}

/// Takes the openings of the linear operands: records their claims and adds the
/// terms to `start`.
fn take_linears(
    start: EF,
    linears: &Vec<Linear>,
    vals: &Vec<EF>,
    p: &Vec<EF>,
    acc: &mut ClaimAccumulator,
) -> (r: EF)
    requires
        vals@.len() == linears@.len(),
        forall|j: int|
            0 <= j < linears@.len() ==> (#[trigger] segments::linear_views(
                linears@,
            )[j]).src.fits(p@.len()),
    ensures
        r == values::affine(
            start,
            segments::linear_views(linears@),
            vals@,
            linears@.len(),
        ),
        final(acc).contents() == old(acc).contents() + linear_claims(
            segments::linear_views(linears@),
            p@,
            vals@,
            linears@.len(),
        ),
{
    let ghost views = segments::linear_views(linears@);
    let ghost before = acc.contents();
    let mut v: EF = start;
    let mut j: usize = 0;
    assert(before + linear_claims(views, p@, vals@, 0) =~= before);
    while j < linears.len()
        invariant
            j <= linears@.len(),
            views == segments::linear_views(linears@),
            vals@.len() == linears@.len(),
            forall|j: int| 0 <= j < linears@.len() ==> (#[trigger] views[j]).src.fits(p@.len()),
            v == values::affine(start, views, vals@, j as nat),
            acc.contents() == before + linear_claims(views, p@, vals@, j as nat),
        decreases linears.len() - j,
    {
        assert(views[j as int] == linears@[j as int].contents());
        assert(vals.len() == vals@.len());
        let x = vals[j];
        linears[j].src.emit(acc, p.as_slice(), x);
        assert(acc.contents() =~= before + linear_claims(views, p@, vals@, (j + 1) as nat));
        v = v.add(linears[j].coeff.mul(x));
        j += 1;
    }
    v
}

/// Number of challenges that a segment's reduction reads.
pub open spec fn segment_draws(d: DescView, o: SegmentOpening) -> nat {
    match d.kind {
        SegView::Direct { bias, offset, out } => 0,
        SegView::TypeA { divisor, mk, q, a, b, op } => match o.matmul {
            Some(m) => m.proof.round_polys@.len(),
            None => 0,
        },
        SegView::TypeB { left, right, coeff, linears, constant, instance } => match o.prod {
            Some(p) => p.proof.round_polys@.len(),
            None => 0,
        },
    }
}

/// Number of challenges that the check of a segment reads: none if a part is missing,
/// else one for every round of its reduction up to the first failing check.
pub open spec fn segment_read(d: DescView, o: SegmentOpening, ch: Seq<EF>) -> nat {
    match d.kind {
        SegView::Direct { bias, offset, out } => 0,
        SegView::TypeA { divisor, mk, q, a, b, op } => match o.matmul {
            Some(m) => reduce::matmul_read(m, ch),
            None => 0,
        },
        SegView::TypeB { left, right, coeff, linears, constant, instance } => match o.prod {
            Some(p) => if o.linear_openings@.len() == linears.len() {
                reduce::prod_read(p, ch)
            } else {
                0
            },
            None => 0,
        },
    }
}

/// A segment's input at its point, or `None` if its opening is rejected.
#[verifier::opaque]
pub open spec fn segment_value(
    config: Config,
    d: DescView,
    o: SegmentOpening,
    local: Seq<EF>,
    ch: Seq<EF>,
) -> Option<EF> {
    match d.kind {
        SegView::Direct { bias, offset, out } => if (o.out_value is Some) != (out is Some) {
            None
        } else {
            match bias {
                Some(b) => Some(o.in_value + EF::embed(offset) + b.at(local)),
                None => Some(o.in_value + EF::embed(offset)),
            }
        },
        SegView::TypeA { divisor, mk, q, a, b, op } => match o.matmul {
            None => None,
            Some(m) => if segments::mm_bits(config, op.mm) <= m.proof.round_polys@.len()
                && reduce::matmul_accepted(m, ch) {
                Some(m.claimed_eval - EF::embed(divisor) * o.in_value)
            } else {
                None
            },
        },
        SegView::TypeB { left, right, coeff, linears, constant, instance } => match o.prod {
            None => None,
            Some(p) => if o.linear_openings@.len() == linears.len() && reduce::prod_accepted(
                p,
                local,
                ch,
            ) {
                Some(
                    values::affine(
                        coeff * p.claimed_eval + constant,
                        linears,
                        o.linear_openings@,
                        linears.len(),
                    ),
                )
            } else {
                None
            },
        },
    }
}

/// The claims left by a segment.
#[verifier::opaque]
pub open spec fn segment_claims(
    config: Config,
    d: DescView,
    o: SegmentOpening,
    local: Seq<EF>,
    ch: Seq<EF>,
) -> Seq<OracleClaimView> {
    match d.kind {
        SegView::Direct { bias, offset, out } => seq![
            commit::opening(d.oracle_in, local, o.in_value),
        ] + (match (out, o.out_value) {
            (Some(name), Some(v)) => seq![commit::opening(name, local, v)],
            _ => Seq::empty(),
        }),
        SegView::TypeA { divisor, mk, q, a, b, op } => seq![q.claim(local, o.in_value)]
            + reduce::matmul_claims(
            mk,
            a,
            b,
            row_point(config, op, local),
            col_point(config, op, local),
            ch,
            (o.matmul->0).proof.final_evals@,
        ),
        SegView::TypeB { left, right, coeff, linears, constant, instance } => reduce::prod_claims(
            left,
            right,
            ch,
            (o.prod->0).proof.final_evals@,
        ) + linear_claims(linears, local, o.linear_openings@, linears.len()),
    }
}

/// A segment's output at its point.
pub open spec fn output_value(o: SegmentOpening) -> EF {
    match o.out_value {
        Some(v) => v,
        None => EF::zero(),
    }
}

/// Checks one segment's opening and records its claims. Returns its input. A reduction
/// with too few rounds to determine its operands is rejected once its round checks are
/// through.
pub(crate) fn verify_segment(
    config: &Config,
    weights: Ghost<ModelWeights>,
    d: &Descriptor,
    o: &SegmentOpening,
    local: &Vec<EF>,
    acc: &mut ClaimAccumulator,
    oracle: &mut RandomOracle<EF>,
) -> (r: Option<EF>)
    requires
        segments::segments_fit(*config, weights@),
        shapes::segment_ok(*config, weights@, d.contents()),
        local@.len() == d.contents().vars,
        pow2(d.contents().vars) <= usize::MAX,
        old(oracle).has_fields(
            segment_read(
                d.contents(),
                *o,
                old(oracle).upcoming(segment_draws(d.contents(), *o)),
            ) as int,
        ),
    ensures
        ({
            let n = segment_draws(d.contents(), *o);
            let ch = old(oracle).upcoming(n);
            &&& r == segment_value(*config, d.contents(), *o, local@, ch)
            &&& r is Some ==> final(acc).contents() == old(acc).contents() + segment_claims(
                *config,
                d.contents(),
                *o,
                local@,
                ch,
            )
            &&& final(oracle).wf()
            &&& old(oracle).advanced(
                *final(oracle),
                segment_read(d.contents(), *o, ch) as int,
                0,
            )
            &&& r is Some ==> old(oracle).advanced(*final(oracle), n as int, 0)
        }),
{
    proof {
        reveal(segment_value);
        reveal(segment_claims);
    }
    let ghost before = acc.contents();
    let ghost view = d.contents();
    let ghost n = segment_draws(view, *o);
    let ghost ch = oracle.upcoming(n);
    match &d.kind {
        SegKind::Direct { bias, offset, out } => {
            if o.out_value.is_some() != out.is_some() {
                return None;
            }
            acc.open(d.oracle_in.as_str(), poly::copy_slice(local.as_slice()), o.in_value);
            let mut v: EF = o.in_value.add(EF::from_u64(*offset));
            match bias {
                Some(b) => {
                    v = v.add(b.eval(local.as_slice()));
                },
                None => {},
            }
            match (out, o.out_value) {
                (Some(name), Some(val)) => {
                    acc.open(name.as_str(), poly::copy_slice(local.as_slice()), val);
                },
                _ => {},
            }
            assert(acc.contents() =~= before + segment_claims(*config, view, *o, local@, ch));
            Some(v)
        },
        SegKind::TypeA { divisor, mk, q_src, a_src, b_src, op } => {
            let m = match &o.matmul {
                None => {
                    return None;
                },
                Some(m) => m,
            };
            let sc = match reduce::check_matmul(m, oracle) {
                None => {
                    return None;
                },
                Some(sc) => sc,
            };
            let inner: usize = commit::log_ceil(segments::mm_dims(config, op.mm).k);
            if sc.len() < inner {
                return None;
            }
            q_src.emit(acc, local.as_slice(), o.in_value);
            let (row, col) = typea_points(config, *op, local);
            proof {
                shapes::lemma_fits_more(
                    a_src.contents(),
                    segments::mm_bits(*config, op.mm) + segments::mm_row_bits(*config, op.mm),
                    n + row@.len(),
                );
                shapes::lemma_fits_more(
                    b_src.contents(),
                    segments::mm_bits(*config, op.mm) + segments::mm_col_bits(*config, op.mm),
                    n + col@.len(),
                );
            }
            reduce::record_matmul(
                *mk,
                a_src,
                b_src,
                row.as_slice(),
                col.as_slice(),
                m,
                &sc,
                acc,
            );
            assert(acc.contents() =~= before + segment_claims(*config, view, *o, local@, ch));
            Some(m.claimed_eval.sub(EF::from_u64(*divisor).mul(o.in_value)))
        },
        SegKind::TypeB { prod_left, prod_right, prod_coeff, linears, constant, instance } => {
            let p = match &o.prod {
                None => {
                    return None;
                },
                Some(p) => p,
            };
            if o.linear_openings.len() != linears.len() {
                return None;
            }
            proof {
                assert forall|j: int| 0 <= j < linears@.len() implies (
                #[trigger] segments::linear_views(linears@)[j]).src.fits(view.vars) by {
                    assert(shapes::source_ok(
                        *config,
                        weights@,
                        segments::linear_views(linears@)[j].src,
                        view.vars,
                    ));
                }
            }
            match reduce::verify_prod(
                local.as_slice(),
                prod_left,
                prod_right,
                p,
                acc,
                oracle,
            ) {
                None => None,
                Some(qb) => {
                    let start = prod_coeff.mul(qb).add(*constant);
                    let v = take_linears(start, linears, &o.linear_openings, local, acc);
                    assert(acc.contents() =~= before + segment_claims(
                        *config,
                        view,
                        *o,
                        local@,
                        ch,
                    ));
                    Some(v)
                },
            }
        },
    }
}

/// A segment's claims are about polynomials of the right size.
pub proof fn lemma_segment_stored(
    config: Config,
    w: ModelWeights,
    d: DescView,
    o: SegmentOpening,
    local: Seq<EF>,
    ch: Seq<EF>,
    polys: Map<Seq<char>, Seq<EF>>,
)
    requires
        shapes::segment_ok(config, w, d),
        shapes::ready(polys, config, w),
        local.len() == d.vars,
    ensures
        commit::all_stored(segment_claims(config, d, o, local, ch), polys),
{
    reveal(segment_claims);
    match d.kind {
        SegView::Direct { bias, offset, out } => {},
        SegView::TypeA { divisor, mk, q, a, b, op } => {},
        SegView::TypeB { left, right, coeff, linears, constant, instance } => {
            lemma_linear_claims_stored(
                config,
                w,
                linears,
                d.vars,
                local,
                o.linear_openings@,
                linears.len(),
                polys,
            );
        },
    }
}

proof fn lemma_linear_claims_stored(
    config: Config,
    w: ModelWeights,
    linears: Seq<LinearView>,
    n: nat,
    p: Seq<EF>,
    vals: Seq<EF>,
    k: nat,
    polys: Map<Seq<char>, Seq<EF>>,
)
    requires
        shapes::linears_ok(config, w, linears, n),
        shapes::ready(polys, config, w),
        k <= linears.len(),
    ensures
        commit::all_stored(linear_claims(linears, p, vals, k), polys),
    decreases k,
{
    if k > 0 {
        lemma_linear_claims_stored(config, w, linears, n, p, vals, (k - 1) as nat, polys);
        assert(shapes::source_ok(config, w, linears[k - 1].src, n));
    }
}

/// The weight of row `r` times the entry in column `k`.
pub open spec fn row_term(g: Grid, point: Seq<EF>, k: int, r: int) -> EF {
    multilinear::eq_table(point)[r] * EF::embed(g.at(r, k))
}

/// The weight of column `c` times the entry in row `k`.
pub open spec fn col_term(g: Grid, point: Seq<EF>, k: int, c: int) -> EF {
    multilinear::eq_table(point)[c] * EF::embed(g.at(k, c))
}

/// A matrix with its rows contracted at `point`: one value per column, zero-padded to
/// `2^n`.
pub open spec fn contracted_rows(g: Grid, point: Seq<EF>, n: nat) -> Seq<EF> {
    Seq::new(
        pow2(n),
        |k: int|
            if k < g.cols {
                algebra::sum(g.rows, |r: int| row_term(g, point, k, r))
            } else {
                EF::zero()
            },
    )
}

/// A matrix with its columns contracted at `point`: one value per row, zero-padded to
/// `2^n`.
pub open spec fn contracted_cols(g: Grid, point: Seq<EF>, n: nat) -> Seq<EF> {
    Seq::new(
        pow2(n),
        |k: int|
            if k < g.rows {
                algebra::sum(g.cols, |c: int| col_term(g, point, k, c))
            } else {
                EF::zero()
            },
    )
}

/// The right operand of a matrix product contracted at `point`.
pub open spec fn contracted_right(mk: MatmulKind, g: Grid, point: Seq<EF>, n: nat) -> Seq<EF> {
    match mk {
        MatmulKind::Regular => contracted_cols(g, point, n),
        MatmulKind::Transposed => contracted_rows(g, point, n),
    }
}

/// The weights of the first `len` indices at `point`.
fn eq_weights(point: &[EF], len: usize) -> (r: Vec<EF>)
    requires
        len <= pow2(point@.len()),
    ensures
        r@ == multilinear::eq_table(point@).take(len as int),
        r@.len() == len,
        multilinear::eq_table(point@).len() == pow2(point@.len()),
{
    let mut out: Vec<EF> = Vec::new();
    let mut i: usize = 0;
    assert(multilinear::eq_table(point@).len() == pow2(point@.len())) by {
        multilinear::lemma_eq_table_len(point@);
    }
    while i < len
        invariant
            i <= len,
            len <= pow2(point@.len()),
            multilinear::eq_table(point@).len() == pow2(point@.len()),
            out@ == multilinear::eq_table(point@).take(i as int),
        decreases len - i,
    {
        proof {
            vstd::arithmetic::div_mod::lemma_small_mod(i as nat, pow2(point@.len()));
        }
        out.push(commit::eq_at_index(point, i));
        assert(out@ =~= multilinear::eq_table(point@).take(i + 1));
        i += 1;
    }
    out
}

/// Contracts the rows of a matrix at `point`.
fn contract_rows(m: &Matrix, point: &[EF], bits: usize) -> (r: Vec<EF>)
    requires
        m.wf(),
        m.grid().rows <= pow2(point@.len()),
        m.grid().cols <= pow2(bits as nat),
        pow2(bits as nat) <= usize::MAX,
    ensures
        r@ == contracted_rows(m.grid(), point@, bits as nat),
{
    let ghost g = m.grid();
    let ghost goal = contracted_rows(g, point@, bits as nat);
    let size: usize = commit::two_to(bits);
    let weights = eq_weights(point, m.rows());
    let mut out: Vec<EF> = Vec::new();
    let mut k: usize = 0;
    while k < size
        invariant
            k <= size,
            size == pow2(bits as nat),
            g == m.grid(),
            m.wf(),
            goal == contracted_rows(g, point@, bits as nat),
            weights@.len() == g.rows,
            g.rows <= multilinear::eq_table(point@).len(),
            weights@ == multilinear::eq_table(point@).take(g.rows as int),
            out@ == goal.take(k as int),
        decreases size - k,
    {
        let mut v: EF = EF::new_zero();
        if k < m.cols() {
            let ghost f = |r: int| row_term(g, point@, k as int, r);
            let mut r: usize = 0;
            while r < m.rows()
                invariant
                    r <= g.rows,
                    k < g.cols,
                    g == m.grid(),
                    m.wf(),
                    weights@.len() == g.rows,
                    g.rows <= multilinear::eq_table(point@).len(),
                    weights@ == multilinear::eq_table(point@).take(g.rows as int),
                    f == (|r: int| row_term(g, point@, k as int, r)),
                    v == algebra::sum(r as nat, f),
                decreases g.rows - r,
            {
                assert(weights.len() == weights@.len());
                assert(weights@[r as int] == multilinear::eq_table(point@)[r as int]);
                v = v.add(weights[r].mul(canonical::ef(m.get(r, k))));
                assert(f(r as int) == row_term(g, point@, k as int, r as int));
                r += 1;
            }
        }
        out.push(v);
        assert(goal[k as int] == v);
        assert(out@ =~= goal.take(k + 1));
        k += 1;
    }
    assert(goal.take(k as int) =~= goal);
    out
}

/// Contracts the columns of a matrix at `point`.
fn contract_cols(m: &Matrix, point: &[EF], bits: usize) -> (r: Vec<EF>)
    requires
        m.wf(),
        m.grid().cols <= pow2(point@.len()),
        m.grid().rows <= pow2(bits as nat),
        pow2(bits as nat) <= usize::MAX,
    ensures
        r@ == contracted_cols(m.grid(), point@, bits as nat),
{
    let ghost g = m.grid();
    let ghost goal = contracted_cols(g, point@, bits as nat);
    let size: usize = commit::two_to(bits);
    let weights = eq_weights(point, m.cols());
    let mut out: Vec<EF> = Vec::new();
    let mut k: usize = 0;
    while k < size
        invariant
            k <= size,
            size == pow2(bits as nat),
            g == m.grid(),
            m.wf(),
            goal == contracted_cols(g, point@, bits as nat),
            weights@.len() == g.cols,
            g.cols <= multilinear::eq_table(point@).len(),
            weights@ == multilinear::eq_table(point@).take(g.cols as int),
            out@ == goal.take(k as int),
        decreases size - k,
    {
        let mut v: EF = EF::new_zero();
        if k < m.rows() {
            let ghost f = |c: int| col_term(g, point@, k as int, c);
            let mut c: usize = 0;
            while c < m.cols()
                invariant
                    c <= g.cols,
                    k < g.rows,
                    g == m.grid(),
                    m.wf(),
                    weights@.len() == g.cols,
                    g.cols <= multilinear::eq_table(point@).len(),
                    weights@ == multilinear::eq_table(point@).take(g.cols as int),
                    f == (|c: int| col_term(g, point@, k as int, c)),
                    v == algebra::sum(c as nat, f),
                decreases g.cols - c,
            {
                assert(weights.len() == weights@.len());
                assert(weights@[c as int] == multilinear::eq_table(point@)[c as int]);
                v = v.add(weights[c].mul(canonical::ef(m.get(k, c))));
                assert(f(c as int) == col_term(g, point@, k as int, c as int));
                c += 1;
            }
        }
        out.push(v);
        assert(goal[k as int] == v);
        assert(out@ =~= goal.take(k + 1));
        k += 1;
    }
    assert(goal.take(k as int) =~= goal);
    out
}

/// Number of challenges that the prover reads for a segment.
pub open spec fn desc_draws(config: Config, d: DescView) -> nat {
    match d.kind {
        SegView::Direct { bias, offset, out } => 0,
        SegView::TypeA { divisor, mk, q, a, b, op } => segments::mm_bits(config, op.mm),
        SegView::TypeB { left, right, coeff, linears, constant, instance } => d.vars,
    }
}

/// The sum of a head's row in the layout of its shares, zero beyond the sequence.
pub open spec fn broadcast_at(config: Config, wit: WitnessView, op: TypeBOp, i: int) -> EF {
    let cp = pow2(canonical::col_bits(config, Kind::QProb)) as int;
    let (r, c) = (i / cp, i % cp);
    if r < config.n_seq && c < config.n_seq {
        EF::embed(wit.blocks[op.layer as int].attention.sum_exp[op.head as int].at(r, 0))
    } else {
        EF::zero()
    }
}

/// The sums of a head in the layout of its shares.
pub open spec fn broadcast_sums(config: Config, wit: WitnessView, op: TypeBOp) -> Seq<EF> {
    Seq::new(
        pow2(canonical::elem_bits(config, Kind::QProb)),
        |i: int| broadcast_at(config, wit, op, i),
    )
}

/// The sums of a head in the layout of its shares.
pub fn sum_exp_broadcast_vals(
    config: &Config,
    weights: &ModelWeights,
    witness: &Witness,
    op: TypeBOp,
) -> (r: Vec<EF>)
    requires
        segments::segments_fit(*config, *weights),
        witness.wf(),
        canonical::witness_shaped(witness.contents(), *config),
        op.layer < config.n_layer,
        op.head < config.n_head,
    ensures
        r@ == broadcast_sums(*config, witness.contents(), op),
{
    let ghost wit = witness.contents();
    proof {
        canonical::lemma_layout_fits(*config, Kind::QProb);
    }
    let lay = canonical::layout_of(config, Kind::QProb);
    proof {
        canonical::lemma_sizes(*config, Kind::QProb);
        assert(canonical::block_shaped(wit.blocks[op.layer as int], *config));
        assert(canonical::head_shaped(
            wit.blocks[op.layer as int].attention,
            *config,
            op.head as int,
        ));
    }
    let (rp, cp): (usize, usize) = (lay.row_pow, lay.col_pow);
    let n: usize = rp * cp;
    let sums = &witness.blocks[op.layer].attention.sum_exp[op.head];
    let mut out: Vec<EF> = Vec::new();
    let mut i: usize = 0;
    while i < n
        invariant
            i <= n,
            cp > 0,
            cp == pow2(canonical::col_bits(*config, Kind::QProb)),
            sums.wf(),
            sums.grid() == wit.blocks[op.layer as int].attention.sum_exp[op.head as int],
            sums.height() == config.n_seq,
            sums.width() == 1,
            out@.len() == i,
            forall|j: int|
                0 <= j < i ==> #[trigger] out@[j] == broadcast_at(*config, wit, op, j),
        decreases n - i,
    {
        let (r, c): (usize, usize) = (i / cp, i % cp);
        let v = if r < config.n_seq && c < config.n_seq {
            canonical::ef(sums.get(r, 0))
        } else {
            EF::new_zero()
        };
        out.push(v);
        i += 1;
    }
    assert(out@ =~= broadcast_sums(*config, wit, op));
    out
}

/// The opening is the honest one.
#[verifier::opaque]
pub open spec fn honest_opening(
    o: SegmentOpening,
    config: Config,
    w: ModelWeights,
    wit: WitnessView,
    d: DescView,
    polys: Map<Seq<char>, Seq<EF>>,
    local: Seq<EF>,
    ch: Seq<EF>,
) -> bool {
    match d.kind {
        SegView::Direct { bias, offset, out } => {
            &&& o.in_value == multilinear::mle(polys[d.oracle_in], local)
            &&& o.out_value == (match out {
                Some(name) => Some(multilinear::mle(polys[name], local)),
                None => None,
            })
            &&& o.matmul is None
            &&& o.prod is None
            &&& o.linear_openings@ == Seq::<EF>::empty()
        },
        SegView::TypeA { divisor, mk, q, a, b, op } => {
            &&& o.in_value == q.value(polys, local)
            &&& o.out_value is None
            &&& o.matmul is Some
            &&& reduce::honest_matmul(
                o.matmul->0,
                contracted_rows(
                    values::left_grid(config, w, wit, op),
                    row_point(config, op, local),
                    segments::mm_bits(config, op.mm),
                ),
                contracted_right(
                    mk,
                    values::right_grid(config, w, wit, op),
                    col_point(config, op, local),
                    segments::mm_bits(config, op.mm),
                ),
                ch,
            )
            &&& o.prod is None
            &&& o.linear_openings@ == Seq::<EF>::empty()
        },
        SegView::TypeB { left, right, coeff, linears, constant, instance } => {
            &&& o.in_value == EF::zero()
            &&& o.out_value is None
            &&& o.matmul is None
            &&& o.prod is Some
            &&& reduce::honest_prod(
                o.prod->0,
                values::vertex_table(left, polys, d.vars),
                broadcast_sums(config, wit, instance),
                local,
                ch,
            )
            &&& o.linear_openings@ == linear_values(linears, polys, local)
        },
    }
}

/// The contracted dimension of every matrix product fits in memory.
pub proof fn lemma_mm_bits(config: Config, w: ModelWeights, mm: segments::Mm)
    requires
        segments::segments_fit(config, w),
    ensures
        pow2(segments::mm_bits(config, mm)) <= usize::MAX,
        segments::mm_shape(config, mm).0 <= pow2(segments::mm_bits(config, mm)),
        segments::mm_shape(config, mm).1 <= pow2(segments::mm_row_bits(config, mm)),
        segments::mm_shape(config, mm).2 <= pow2(segments::mm_col_bits(config, mm)),
{
    let (k, row, col) = segments::mm_shape(config, mm);
    commit::lemma_ceil_pow(k as int);
    commit::lemma_ceil_pow(row as int);
    commit::lemma_ceil_pow(col as int);
    canonical::lemma_sizes(config, Kind::QLn);
    canonical::lemma_sizes(config, Kind::QFc);
    canonical::lemma_sizes(config, Kind::QSc);
    canonical::lemma_sizes(config, Kind::QAo);
    sources::lemma_head_bits(config);
    crate::utils::poly::lemma_exponent(0);
    if sources::head_bits(config) < canonical::col_bits(config, Kind::QAo) {
        vstd::arithmetic::power2::lemma_pow2_strictly_increases(
            sources::head_bits(config),
            canonical::col_bits(config, Kind::QAo),
        );
    }
}

/// Proves a matrix product segment: its quotient, and the reduction of the product.
fn prove_product(
    set: &CommitSet,
    config: &Config,
    weights: &ModelWeights,
    witness: &Witness,
    d: &Descriptor,
    local: &Vec<EF>,
    acc: &mut ClaimAccumulator,
    oracle: &mut RandomOracle<EF>,
) -> (r: SegmentOpening)
    requires
        values::values_ready(d.contents(), set.kept(), *config, *weights, *witness),
        d.kind is TypeA,
        local@.len() == d.contents().vars,
        old(oracle).has_fields(desc_draws(*config, d.contents()) as int),
    ensures
        ({
            let n = desc_draws(*config, d.contents());
            let ch = old(oracle).upcoming(n);
            &&& honest_opening(
                r,
                *config,
                *weights,
                witness.contents(),
                d.contents(),
                set.kept(),
                local@,
                ch,
            )
            &&& final(acc).contents() == old(acc).contents() + segment_claims(
                *config,
                d.contents(),
                r,
                local@,
                ch,
            )
            &&& final(oracle).wf()
            &&& old(oracle).advanced(*final(oracle), n as int, 0)
        }),
{
    proof {
        reveal(segment_claims);
        reveal(honest_opening);
    }
    let ghost before = acc.contents();
    let ghost view = d.contents();
    match &d.kind {
        SegKind::TypeA { divisor, mk, q_src, a_src, b_src, op } => {
            proof {
                values::lemma_stored(
                    *config,
                    *weights,
                    q_src.contents(),
                    view.vars,
                    set.kept(),
                );
                lemma_mm_bits(*config, *weights, op.mm);
                values::lemma_op_shapes(*config, *weights, witness.contents(), *op);
                poly::lemma_exponent(segments::mm_bits(*config, op.mm));
            }
            let q = q_src.value(set, local.as_slice());
            q_src.emit(acc, local.as_slice(), q);
            let (row, col) = typea_points(config, *op, local);
            let (a, b, _quotient) = values::typea_inputs(*op, config, weights, witness);
            let dims = segments::mm_dims(config, op.mm);
            let bits: usize = commit::log_ceil(dims.k);
            let avec = contract_rows(&a, row.as_slice(), bits);
            let bvec = match mk {
                MatmulKind::Regular => contract_cols(&b, col.as_slice(), bits),
                MatmulKind::Transposed => contract_rows(&b, col.as_slice(), bits),
            };
            let m = reduce::prove_matmul(
                *mk,
                a_src,
                b_src,
                avec,
                bvec,
                row.as_slice(),
                col.as_slice(),
                acc,
                oracle,
            );
            let r = SegmentOpening {
                in_value: q,
                out_value: None,
                matmul: Some(m),
                prod: None,
                linear_openings: Vec::new(),
            };
            assert(acc.contents() =~= before + segment_claims(
                *config,
                view,
                r,
                local@,
                old(oracle).upcoming(desc_draws(*config, view)),
            ));
            r
        },
        _ => {
            assert(false);
            SegmentOpening {
                in_value: EF::new_zero(),
                out_value: None,
                matmul: None,
                prod: None,
                linear_openings: Vec::new(),
            }
        },
    }
}

/// Opens one segment and records its claims.
pub(crate) fn prove_segment(
    set: &CommitSet,
    config: &Config,
    weights: &ModelWeights,
    witness: &Witness,
    d: &Descriptor,
    local: &Vec<EF>,
    acc: &mut ClaimAccumulator,
    oracle: &mut RandomOracle<EF>,
) -> (r: SegmentOpening)
    requires
        values::values_ready(d.contents(), set.kept(), *config, *weights, *witness),
        local@.len() == d.contents().vars,
        old(oracle).has_fields(desc_draws(*config, d.contents()) as int),
    ensures
        ({
            let n = desc_draws(*config, d.contents());
            let ch = old(oracle).upcoming(n);
            &&& honest_opening(
                r,
                *config,
                *weights,
                witness.contents(),
                d.contents(),
                set.kept(),
                local@,
                ch,
            )
            &&& final(acc).contents() == old(acc).contents() + segment_claims(
                *config,
                d.contents(),
                r,
                local@,
                ch,
            )
            &&& final(oracle).wf()
            &&& old(oracle).advanced(*final(oracle), n as int, 0)
        }),
{
    proof {
        reveal(segment_claims);
        reveal(honest_opening);
    }
    let ghost before = acc.contents();
    let ghost view = d.contents();
    let ghost ch = oracle.upcoming(desc_draws(*config, view));
    match &d.kind {
        SegKind::Direct { bias, offset, out } => {
            assert(set.kept()[d.oracle_in@].len() == pow2(local@.len()));
            let v = set.evaluate(d.oracle_in.as_str(), local.as_slice());
            acc.open(d.oracle_in.as_str(), poly::copy_slice(local.as_slice()), v);
            let mut out_value: Option<EF> = None;
            match out {
                Some(name) => {
                    assert(shapes::named_bits(*config, *weights, name@, view.vars));
                    let ov = set.evaluate(name.as_str(), local.as_slice());
                    acc.open(name.as_str(), poly::copy_slice(local.as_slice()), ov);
                    out_value = Some(ov);
                },
                None => {},
            }
            let r = SegmentOpening {
                in_value: v,
                out_value,
                matmul: None,
                prod: None,
                linear_openings: Vec::new(),
            };
            assert(acc.contents() =~= before + segment_claims(*config, view, r, local@, ch));
            r
        },
        SegKind::TypeA { divisor, mk, q_src, a_src, b_src, op } => {
            prove_product(set, config, weights, witness, d, local, acc, oracle)
        },
        SegKind::TypeB { prod_left, prod_right, prod_coeff, linears, constant, instance } => {
            proof {
                values::lemma_stored(
                    *config,
                    *weights,
                    prod_left.contents(),
                    view.vars,
                    set.kept(),
                );
                values::lemma_stored(
                    *config,
                    *weights,
                    prod_right.contents(),
                    view.vars,
                    set.kept(),
                );
                values::lemma_linears_stored(
                    *config,
                    *weights,
                    segments::linear_views(linears@),
                    view.vars,
                    set.kept(),
                );
            }
            let left = values::source_table(prod_left, set, d.vars);
            let right = sum_exp_broadcast_vals(config, weights, witness, *instance);
            let p = reduce::prove_prod(
                left,
                right,
                prod_left,
                prod_right,
                poly::copy_slice(local.as_slice()),
                acc,
                oracle,
            );
            let opened = open_linears(linears, set, local, acc);
            let r = SegmentOpening {
                in_value: EF::new_zero(),
                out_value: None,
                matmul: None,
                prod: Some(p),
                linear_openings: opened,
            };
            assert(acc.contents() =~= before + segment_claims(*config, view, r, local@, ch));
            r
        },
    }
}

/// Number of challenges that a limb check reads.
pub open spec fn check_draws(config: Config, c: CheckView) -> nat {
    let n = canonical::all_bits(config, c.value);
    if c.prod is Some {
        n + n
    } else {
        n
    }
}

/// The point of a check: the first challenges it reads.
pub open spec fn check_point(config: Config, c: CheckView, tape: Seq<EF>) -> Seq<EF> {
    tape.take(canonical::all_bits(config, c.value) as int)
}

/// The challenges of a check's product.
pub open spec fn check_challenges(config: Config, c: CheckView, tape: Seq<EF>) -> Seq<EF> {
    let n = canonical::all_bits(config, c.value) as int;
    tape.subrange(n, n + n)
}

/// The point of a limb polynomial for limb `l` at `p`.
pub open spec fn limb_point_at(l: nat, p: Seq<EF>) -> Seq<EF> {
    commit::corner(l, 1) + p
}

/// The claims left by a check.
#[verifier::opaque]
pub open spec fn recomp_claims(
    config: Config,
    c: CheckView,
    r: RecompProof,
    tape: Seq<EF>,
) -> Seq<OracleClaimView> {
    let p = check_point(config, c, tape);
    (match c.prod {
        Some((left, right, coeff)) => reduce::prod_claims(
            left,
            right,
            check_challenges(config, c, tape),
            (r.prod->0).proof.final_evals@,
        ),
        None => Seq::empty(),
    }) + linear_claims(c.linears, p, r.openings@, c.linears.len()) + seq![
        commit::opening(c.limbs, limb_point_at(0, p), r.limb_values@[0]),
        commit::opening(c.limbs, limb_point_at(1, p), r.limb_values@[1]),
    ]
}

/// The value that a check's limbs must add up to.
pub open spec fn recomp_target(c: CheckView, r: RecompProof) -> EF {
    values::affine(
        (match c.prod {
            Some((left, right, coeff)) => c.constant + coeff * (r.prod->0).claimed_eval,
            None => c.constant,
        }),
        c.linears,
        r.openings@,
        c.linears.len(),
    )
}

/// The value that two limbs stand for.
pub open spec fn recomposed(limbs: Seq<EF>) -> EF {
    EF::zero() + EF::embed(1) * limbs[0] + EF::embed(65536) * limbs[1]
}

/// A check's proof is accepted.
#[verifier::opaque]
pub open spec fn recomp_accepted(
    config: Config,
    c: CheckView,
    r: RecompProof,
    tape: Seq<EF>,
) -> bool {
    &&& (r.prod is Some) == (c.prod is Some)
    &&& r.openings@.len() == c.linears.len()
    &&& r.limb_values@.len() == 2
    &&& c.prod is Some ==> reduce::prod_accepted(
        r.prod->0,
        check_point(config, c, tape),
        check_challenges(config, c, tape),
    )
    &&& recomposed(r.limb_values@) == recomp_target(c, r)
}

/// A check's proof is the honest one.
#[verifier::opaque]
pub open spec fn honest_recomp(
    r: RecompProof,
    config: Config,
    c: CheckView,
    polys: Map<Seq<char>, Seq<EF>>,
    tape: Seq<EF>,
) -> bool {
    let n = canonical::all_bits(config, c.value);
    let p = check_point(config, c, tape);
    &&& (r.prod is Some) == (c.prod is Some)
    &&& match c.prod {
        Some((left, right, coeff)) => reduce::honest_prod(
            r.prod->0,
            values::vertex_table(left, polys, n),
            values::vertex_table(right, polys, n),
            p,
            check_challenges(config, c, tape),
        ),
        None => true,
    }
    &&& r.openings@ == linear_values(c.linears, polys, p)
    &&& r.limb_values@ == seq![
        multilinear::mle(polys[c.limbs], limb_point_at(0, p)),
        multilinear::mle(polys[c.limbs], limb_point_at(1, p)),
    ]
}

/// The limb point of limb `l` at `p`.
fn limb_point(l: usize, p: &Vec<EF>) -> (r: Vec<EF>)
    ensures
        r@ == limb_point_at(l as nat, p@),
{
    let none: Vec<EF> = Vec::new();
    let mut out = commit::instance_slice_point(none.as_slice(), l, 1);
    assert(out@ =~= commit::corner(l as nat, 1));
    let ghost front = out@;
    let mut i: usize = 0;
    while i < p.len()
        invariant
            i <= p@.len(),
            out@ == front + p@.take(i as int),
        decreases p@.len() - i,
    {
        out.push(p[i]);
        assert(out@ =~= front + p@.take(i + 1));
        i += 1;
    }
    assert(p@.take(i as int) =~= p@);
    out
}

/// Proves one limb check and records its claims.
pub(crate) fn prove_recomp(
    set: &CommitSet,
    config: &Config,
    weights: &ModelWeights,
    spec: &LimbCheckSpec,
    acc: &mut ClaimAccumulator,
    oracle: &mut RandomOracle<EF>,
) -> (r: RecompProof)
    requires
        canonical::sizes_fit(*config),
        shapes::check_ok(*config, *weights, spec.contents()),
        shapes::ready(set.kept(), *config, *weights),
        old(oracle).has_fields(check_draws(*config, spec.contents()) as int),
    ensures
        ({
            let n = check_draws(*config, spec.contents());
            let tape = old(oracle).upcoming(n);
            &&& honest_recomp(r, *config, spec.contents(), set.kept(), tape)
            &&& final(acc).contents() == old(acc).contents() + recomp_claims(
                *config,
                spec.contents(),
                r,
                tape,
            )
            &&& final(oracle).wf()
            &&& old(oracle).advanced(*final(oracle), n as int, 0)
        }),
{
    proof {
        reveal(recomp_claims);
        reveal(honest_recomp);
    }
    let ghost before = acc.contents();
    let ghost view = spec.contents();
    let ghost tape = oracle.upcoming(check_draws(*config, view));
    proof {
        canonical::lemma_layout_fits(*config, spec.value);
    }
    let layout = canonical::layout_of(config, spec.value);
    let ghost n = canonical::all_bits(*config, view.value);
    proof {
        canonical::lemma_sizes(*config, view.value);
        values::lemma_linears_stored(*config, *weights, view.linears, n, set.kept());
    }
    let vars: usize = layout.num_vars();
    let p = oracle.next_n_fields(vars);
    assert(p@ =~= check_point(*config, view, tape));
    let mut prod: Option<ProdProof> = None;
    match &spec.prod {
        Some((pl, pr, _coeff)) => {
            proof {
                values::lemma_stored(*config, *weights, pl.contents(), n, set.kept());
                values::lemma_stored(*config, *weights, pr.contents(), n, set.kept());
                assert(oracle.upcoming(n) =~= check_challenges(*config, view, tape));
            }
            let left = values::source_table(pl, set, vars);
            let right = values::source_table(pr, set, vars);
            prod =
            Some(
                reduce::prove_prod(
                    left,
                    right,
                    pl,
                    pr,
                    poly::copy_slice(p.as_slice()),
                    acc,
                    oracle,
                ),
            );
        },
        None => {},
    }
    let openings = open_linears(&spec.linears, set, &p, acc);
    let lo = limb_point(0, &p);
    let hi = limb_point(1, &p);
    proof {
        commit::lemma_index_bits(0, 1);
        commit::lemma_index_bits(1, 1);
    }
    assert(shapes::named_bits(*config, *weights, view.limbs, n + 1));
    let low = set.evaluate(spec.limb_oracle.as_str(), lo.as_slice());
    acc.open(spec.limb_oracle.as_str(), lo, low);
    let high = set.evaluate(spec.limb_oracle.as_str(), hi.as_slice());
    acc.open(spec.limb_oracle.as_str(), hi, high);
    let mut limb_values: Vec<EF> = Vec::new();
    limb_values.push(low);
    limb_values.push(high);
    let r = RecompProof { prod, openings, limb_values };
    assert(r.limb_values@ =~= seq![low, high]);
    assert(acc.contents() =~= before + recomp_claims(*config, view, r, tape));
    r
}

/// Rounds of a check's product.
pub open spec fn recomp_rounds(r: RecompProof) -> nat {
    match r.prod {
        Some(p) => p.proof.round_polys@.len(),
        None => 0,
    }
}

/// Number of challenges that a check reads, from those ahead: those of its point, and if
/// no part is missing, one for every round of its product up to the first failing check.
pub open spec fn recomp_read(
    config: Config,
    c: CheckView,
    r: RecompProof,
    ahead: Seq<EF>,
) -> nat {
    let n = canonical::all_bits(config, c.value);
    if (r.prod is Some) == (c.prod is Some) && r.openings@.len() == c.linears.len()
        && r.limb_values@.len() == 2 && c.prod is Some {
        n + sumcheck::rounds_passed(
            (r.prod->0).claimed_eval,
            (r.prod->0).proof.rounds(),
            ahead.skip(n as int),
        )
    } else {
        n
    }
}

/// An accepted check reads all its challenges.
pub(crate) proof fn lemma_recomp_read(
    config: Config,
    c: CheckView,
    r: RecompProof,
    tape: Seq<EF>,
    ahead: Seq<EF>,
)
    requires
        tape.len() == check_draws(config, c),
        ahead.len() >= tape.len() + recomp_rounds(r),
        forall|i: int| 0 <= i < tape.len() ==> #[trigger] tape[i] == ahead[i],
        recomp_accepted(config, c, r, tape),
    ensures
        recomp_read(config, c, r, ahead) == check_draws(config, c),
{
    reveal(recomp_accepted);
    if c.prod is Some {
        let n = canonical::all_bits(config, c.value) as int;
        let p = r.prod->0;
        let ch = check_challenges(config, c, tape);
        let rest = ahead.skip(n);
        assert forall|i: int| 0 <= i < ch.len() implies #[trigger] ch[i] == rest[i] by {
            assert(tape[n + i] == ahead[n + i]);
        }
        assert(p.proof.rounds().len() == p.proof.round_polys@.len());
        sumcheck::lemma_passed_prefix(p.claimed_eval, p.proof.rounds(), ch, rest);
        reduce::lemma_passed(p.claimed_eval, p.proof.rounds(), p.proof.final_evals@, ch);
    }
}

/// Checks one limb check's proof and records its claims.
pub(crate) fn verify_recomp(
    config: &Config,
    weights: Ghost<ModelWeights>,
    spec: &LimbCheckSpec,
    recomp: &RecompProof,
    ahead: Ghost<Seq<EF>>,
    acc: &mut ClaimAccumulator,
    oracle: &mut RandomOracle<EF>,
) -> (r: bool)
    requires
        canonical::sizes_fit(*config),
        shapes::check_ok(*config, weights@, spec.contents()),
        ahead@ == old(oracle).upcoming(ahead@.len()),
        ahead@.len() >= check_draws(*config, spec.contents()) + recomp_rounds(*recomp),
        old(oracle).has_fields(
            recomp_read(*config, spec.contents(), *recomp, ahead@) as int,
        ),
    ensures
        ({
            let n = check_draws(*config, spec.contents());
            let tape = old(oracle).upcoming(n);
            &&& r == recomp_accepted(*config, spec.contents(), *recomp, tape)
            &&& r ==> final(acc).contents() == old(acc).contents() + recomp_claims(
                *config,
                spec.contents(),
                *recomp,
                tape,
            )
            &&& final(oracle).wf()
            &&& old(oracle).advanced(
                *final(oracle),
                recomp_read(*config, spec.contents(), *recomp, ahead@) as int,
                0,
            )
            &&& r ==> old(oracle).advanced(*final(oracle), n as int, 0)
        }),
{
    proof {
        reveal(recomp_claims);
        reveal(recomp_accepted);
    }
    let ghost before = acc.contents();
    let ghost view = spec.contents();
    let ghost tape = oracle.upcoming(check_draws(*config, view));
    proof {
        canonical::lemma_layout_fits(*config, spec.value);
    }
    let layout = canonical::layout_of(config, spec.value);
    let ghost n = canonical::all_bits(*config, view.value);
    proof {
        canonical::lemma_sizes(*config, view.value);
    }
    let vars: usize = layout.num_vars();
    let p = oracle.next_n_fields(vars);
    assert(p@ =~= check_point(*config, view, tape));
    if recomp.prod.is_some() != spec.prod.is_some() || recomp.openings.len()
        != spec.linears.len() || recomp.limb_values.len() != NUM_LIMBS {
        return false;
    }
    let mut start: EF = spec.constant;
    match (&spec.prod, &recomp.prod) {
        (Some((pl, pr, coeff)), Some(pp)) => {
            proof {
                let m = pp.proof.round_polys@.len();
                let ch = oracle.upcoming(m);
                let rest = ahead@.skip(n as int);
                assert(pp.proof.rounds().len() == m);
                assert forall|i: int| 0 <= i < m implies #[trigger] ch[i] == rest[i] by {}
                sumcheck::lemma_passed_prefix(pp.claimed_eval, pp.proof.rounds(), ch, rest);
                assert(m == n ==> ch =~= check_challenges(*config, view, tape));
            }
            match reduce::verify_prod(p.as_slice(), pl, pr, pp, acc, oracle) {
                None => {
                    return false;
                },
                Some(qb) => {
                    start = start.add(coeff.mul(qb));
                },
            }
        },
        _ => {},
    }
    proof {
        assert forall|j: int| 0 <= j < spec.linears@.len() implies (
        #[trigger] segments::linear_views(spec.linears@)[j]).src.fits(n) by {
            assert(shapes::source_ok(
                *config,
                weights@,
                segments::linear_views(spec.linears@)[j].src,
                n,
            ));
        }
    }
    let target = take_linears(start, &spec.linears, &recomp.openings, &p, acc);
    let low = recomp.limb_values[0];
    let high = recomp.limb_values[1];
    acc.open(spec.limb_oracle.as_str(), limb_point(0, &p), low);
    acc.open(spec.limb_oracle.as_str(), limb_point(1, &p), high);
    assert(acc.contents() =~= before + recomp_claims(*config, view, *recomp, tape));
    let sum = EF::new_zero().add(EF::from_u64(1).mul(low)).add(EF::from_u64(65536).mul(high));
    sum.equals(target)
}

/// A check's claims are about polynomials of the right size.
pub proof fn lemma_recomp_stored(
    config: Config,
    w: ModelWeights,
    c: CheckView,
    r: RecompProof,
    tape: Seq<EF>,
    polys: Map<Seq<char>, Seq<EF>>,
)
    requires
        shapes::check_ok(config, w, c),
        shapes::ready(polys, config, w),
        tape.len() >= canonical::all_bits(config, c.value),
    ensures
        commit::all_stored(recomp_claims(config, c, r, tape), polys),
{
    reveal(recomp_claims);
    let n = canonical::all_bits(config, c.value);
    lemma_linear_claims_stored(
        config,
        w,
        c.linears,
        n,
        check_point(config, c, tape),
        r.openings@,
        c.linears.len(),
        polys,
    );
    commit::lemma_index_bits(0, 1);
    commit::lemma_index_bits(1, 1);
    assert(shapes::named_bits(config, w, c.limbs, n + 1));
}

} // verus!
