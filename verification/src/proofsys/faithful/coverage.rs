//! What the lookup covers: which rows the table has, and which segments the query has.
use vstd::prelude::*;
use vstd::arithmetic::power2::pow2;
use crate::algebra;
use crate::field::Field;
use crate::proofsys::canonical;
use crate::proofsys::canonical::{Kind, ACT, EXP, Q_FC, Q_PROB, SUM_EXP};
use crate::proofsys::commit;
use crate::proofsys::faithful::completeness::cells;
use crate::proofsys::faithful::lookups;
use crate::proofsys::faithful::segments;
use crate::proofsys::faithful::segments::{DescView, Mm, SegView, TypeAOp, CHECKS};
use crate::proofsys::faithful::sources;
use crate::proofsys::faithful::table;
use crate::proofsys::faithful::values;
use crate::proofsys::grid;
use crate::proofsys::model::ModelWeights;
use crate::proofsys::protocol::EF;
use crate::proofsys::reduce::MatmulKind;
use crate::proofsys::tensor;
use crate::proofsys::witness::Config;

verus! {

/// The number of softmax remainders that the table lists: the sequence length times the
/// scale, rounded up to a power of two.
pub open spec fn sum_range(config: Config) -> int {
    commit::ceil_pow(config.n_seq * config.scale) as int
}

/// The rows of the table: those of the four ranges and of the limbs have no output and an
/// input in the range, those of the activation function map an index to the table's entry,
/// and all others have a type of their own.
pub proof fn law_table_rows(config: Config, w: ModelWeights, j: int)
    requires
        0 <= j < table::table_len(config, w),
    ensures
        ({
            let r = table::row_at(config, w, j);
            ||| r.ty == 4 && r.output == 0 && 0 <= r.input < 4096
            ||| r.ty == 6 && r.output == 0 && 0 <= r.input < 8192
            ||| r.ty == 5 && r.output == 0 && 0 <= r.input < 32768
            ||| r.ty == 7 && r.output == 0 && 0 <= r.input < sum_range(config)
            ||| r.ty == 3 && r.output == 0 && 0 <= r.input < 65536
            ||| r.ty == 2 && 0 <= r.input < w.gelu_lut@.len() && r.output
                == w.gelu_lut@[r.input]
            ||| r.ty == 99
        }),
{
}

/// Every value of a range has its row in the table, and so has every index of the
/// activation function.
pub proof fn law_table_lists(config: Config, w: ModelWeights, v: int) -> (j: int)
    requires
        0 <= v,
    ensures
        v < 4096 ==> table::row_at(config, w, v) == (table::Row { input: v, output: 0, ty: 4 }),
        v < 8192 ==> table::row_at(config, w, 4096 + v) == (table::Row {
            input: v,
            output: 0,
            ty: 6,
        }),
        v < 32768 ==> table::row_at(config, w, 12288 + v) == (table::Row {
            input: v,
            output: 0,
            ty: 5,
        }),
        v < sum_range(config) ==> table::row_at(config, w, 45056 + v)
            == (table::Row { input: v, output: 0, ty: 7 }),
        j == 45056 + sum_range(config),
        v < 65536 ==> table::row_at(config, w, j + v) == (table::Row {
            input: v,
            output: 0,
            ty: 3,
        }),
        v < w.gelu_lut@.len() ==> table::row_at(config, w, j + 65536 + v) == (table::Row {
            input: v,
            output: w.gelu_lut@[v] as int,
            ty: 2,
        }),
        j + 65536 + w.gelu_lut@.len() <= table::table_len(config, w),
{
    commit::lemma_ceil_pow(table::real_rows(config, w) as int);
    45056 + sum_range(config)
}

/// Inserting a segment keeps the others and adds it.
proof fn lemma_insert_keeps(s: Seq<DescView>, d: DescView)
    ensures
        segments::insert_desc(s, d).contains(d),
        forall|i: int|
            0 <= i < s.len() ==> segments::insert_desc(s, d).contains(#[trigger] s[i]),
    decreases s.len(),
{
    let r = segments::insert_desc(s, d);
    if s.len() == 0 || s.last().vars >= d.vars {
        assert(r[s.len() as int] == d);
        assert forall|i: int| 0 <= i < s.len() implies r.contains(#[trigger] s[i]) by {
            assert(r[i] == s[i]);
        }
    } else {
        let t = s.drop_last();
        let u = segments::insert_desc(t, d);
        lemma_insert_keeps(t, d);
        let k = choose|k: int| 0 <= k < u.len() && u[k] == d;
        assert(r[k] == d);
        assert forall|i: int| 0 <= i < s.len() implies r.contains(#[trigger] s[i]) by {
            if i < t.len() {
                assert(u.contains(t[i]));
                let k = choose|k: int| 0 <= k < u.len() && u[k] == t[i];
                assert(r[k] == s[i]);
            } else {
                assert(r[u.len() as int] == s[i]);
            }
        }
    }
}

proof fn lemma_sorted_keeps(s: Seq<DescView>, i: int)
    requires
        0 <= i < s.len(),
    ensures
        segments::sorted(s).contains(s[i]),
    decreases s.len(),
{
    let t = s.drop_last();
    let u = segments::sorted(t);
    lemma_insert_keeps(u, s.last());
    if i < t.len() {
        lemma_sorted_keeps(t, i);
        let k = choose|k: int| 0 <= k < u.len() && u[k] == t[i];
        assert(segments::sorted(s).contains(u[k]));
    }
}

/// The query has segment `d`, at whatever row it starts.
pub open spec fn in_query(config: Config, w: ModelWeights, d: DescView) -> bool {
    exists|j: int|
        0 <= j < segments::all_segments(config, w).len() && d == (DescView {
            start: d.start,
            ..#[trigger] segments::all_segments(config, w)[j]
        })
}

proof fn lemma_listed_in(config: Config, w: ModelWeights, i: int)
    requires
        0 <= i < segments::listed(config, w).len(),
    ensures
        in_query(config, w, segments::listed(config, w)[i]),
{
    reveal(segments::all_segments);
    let s = segments::listed(config, w);
    lemma_sorted_keeps(s, i);
    let t = segments::sorted(s);
    let k = choose|k: int| 0 <= k < t.len() && t[k] == s[i];
    let all = segments::all_segments(config, w);
    assert(all[k] == segments::at_start(t[k], segments::length_before(t, k as nat)));
    assert(s[i] == (DescView { start: s[i].start, ..all[k] }));
}

/// What a product is divided by: the scale, and for the scores also the rounded root of
/// the head dimension.
pub open spec fn product_divisor(config: Config, mm: Mm) -> int {
    if mm is Sc {
        config.scale * tensor::rounded_sqrt(config.d_head as int)
    } else {
        config.scale as int
    }
}

/// Every matrix product of the model has a segment of remainders: those of its own
/// operands and quotient, with its own divisor, looked up in a range of 4096 where that
/// holds every remainder below the divisor, and of 32768 otherwise.
#[verifier::rlimit(40)]
#[verifier::spinoff_prover]
pub proof fn law_products_covered(config: Config, w: ModelWeights, op: TypeAOp)
    requires
        op.layer < config.n_layer,
        op.head < config.n_head,
        !(op.mm is Sc || op.mm is Ao) ==> op.head == 0,
        op.mm is Log ==> op.layer == 0,
    ensures
        in_query(
            config,
            w,
            DescView {
                oracle_in: segments::quotient_kind(op.mm).text(),
                ty: if product_divisor(config, op.mm) <= 4096 {
                    4
                } else {
                    5
                },
                base: if product_divisor(config, op.mm) <= 4096 {
                    0
                } else {
                    12288
                },
                vars: segments::mm_col_bits(config, op.mm) + segments::mm_row_bits(config, op.mm),
                start: 0,
                kind: SegView::TypeA {
                    divisor: product_divisor(config, op.mm),
                    mk: if op.mm is Log || op.mm is Sc {
                        MatmulKind::Transposed
                    } else {
                        MatmulKind::Regular
                    },
                    q: segments::quotient_source(config, op),
                    a: segments::left_source(config, w, op),
                    b: segments::right_source(config, w, op),
                    op,
                },
            },
        ),
{
    let n = config.n_layer as int;
    let m = segments::direct_descs(config, w).len() as int;
    let l = op.layer as int;
    let s = segments::listed(config, w);
    let i = match op.mm {
        Mm::Qkv => m + l,
        Mm::Fc => m + n + l,
        Mm::Fpr => m + 2 * n + l,
        Mm::Apr => m + 3 * n + l,
        Mm::Log => m + 4 * n,
        Mm::Sc => m + 4 * n + 1 + 4 * (l * config.n_head + op.head),
        Mm::Ao => m + 4 * n + 1 + 4 * (l * config.n_head + op.head) + 1,
    };
    if op.mm is Sc || op.mm is Ao {
        grid::lemma_cell(config.n_layer as nat, config.n_head as nat, l, op.head as int);
        let inst = l * config.n_head + op.head;
        let j = i - m - 4 * n - 1;
        assert(j / 4 == inst);
        assert((config.n_layer * config.n_head * 4) as nat == segments::head_descs(
            config,
            w,
        ).len());
        assert(s[i] == segments::head_desc(config, w, j));
    }
    assert(s[i] == segments::product_desc(config, w, op));
    lemma_listed_in(config, w, i);
}

/// The shares of every head lie in a range, the activations are those of the hidden
/// values, and the limbs of every check are 16-bit numbers.
#[verifier::rlimit(40)]
#[verifier::spinoff_prover]
pub proof fn law_values_covered(config: Config, w: ModelWeights, c: int)
    requires
        0 <= c < CHECKS,
    ensures
        in_query(
            config,
            w,
            DescView {
                oracle_in: Q_PROB@,
                ty: 6,
                base: 4096,
                vars: canonical::all_bits(config, Kind::QProb),
                start: 0,
                kind: SegView::Direct { bias: None, offset: 0, out: None },
            },
        ),
        in_query(
            config,
            w,
            DescView {
                oracle_in: Q_FC@,
                ty: 2,
                base: 45056 + sum_range(config) + 65536,
                vars: canonical::all_bits(config, Kind::QFc),
                start: 0,
                kind: SegView::Direct {
                    bias: Some(sources::fc_bias_view(config, w)),
                    offset: config.offset_word(),
                    out: Some(ACT@),
                },
            },
        ),
        in_query(
            config,
            w,
            DescView {
                oracle_in: segments::check_at(config, c).limbs,
                ty: 3,
                base: 45056 + sum_range(config),
                vars: canonical::all_bits(config, segments::check_at(config, c).value) + 1,
                start: 0,
                kind: SegView::Direct { bias: None, offset: 0, out: None },
            },
        ),
{
    let s = segments::listed(config, w);
    let a = segments::direct_descs(config, w);
    assert(s[0] == a[0] && s[1] == a[1] && s[2 + c] == a[2 + c]);
    lemma_listed_in(config, w, 0);
    lemma_listed_in(config, w, 1);
    lemma_listed_in(config, w, 2 + c);
}

/// The softmax division of every head has two segments of remainders, both looked up in
/// the range of the sums. The rows of the first are the scaled exponential minus the share
/// times the sum; those of the second are the share times the sum minus one, plus the sum
/// minus the scaled exponential. So where both are in range, the share is the quotient
/// rounded down.
#[verifier::rlimit(60)]
#[verifier::spinoff_prover]
pub proof fn law_softmax_covered(
    config: Config,
    w: ModelWeights,
    polys: Map<Seq<char>, Seq<EF>>,
    inst: nat,
    i: int,
) -> (d: (DescView, DescView))
    requires
        canonical::sizes_fit(config),
        inst < config.n_layer * config.n_head,
        0 <= i < pow2(canonical::elem_bits(config, Kind::Exp)),
    ensures
        in_query(config, w, d.0),
        in_query(config, w, d.1),
        d.0.kind is TypeB && d.0.ty == 7,
        d.1.kind is TypeB && d.1.ty == 7,
        d.0.vars == canonical::elem_bits(config, Kind::Exp),
        d.1.vars == canonical::elem_bits(config, Kind::Exp),
        ({
            let n = pow2(canonical::elem_bits(config, Kind::Exp));
            let (rp, cp) = (
                pow2(canonical::row_bits(config, Kind::Exp)),
                pow2(canonical::col_bits(config, Kind::Exp)) as int,
            );
            let scaled = EF::embed(config.scale as int) * polys[EXP@][inst * n + i];
            let total = polys[SUM_EXP@][inst * rp + i / cp];
            let part = polys[Q_PROB@][inst * n + i] * total;
            entries_valid(polys, inst, n, rp, cp, i) ==> {
                &&& lookups::pair_row(d.0, polys, i) == scaled - part
                &&& lookups::pair_row(d.1, polys, i) == (part - EF::one()) + (total - scaled)
            }
        }),
{
    let n = config.n_layer as int;
    let m = segments::direct_descs(config, w).len() as int;
    let at = m + 4 * n + 1 + 4 * inst;
    let s = segments::listed(config, w);
    assert(segments::head_descs(config, w).len() == (config.n_layer * config.n_head * 4) as nat);
    assert((4 * inst + 2) / 4 == inst && (4 * inst + 3) / 4 == inst);
    assert(s[at + 2] == segments::head_desc(config, w, 4 * inst as int + 2));
    assert(s[at + 3] == segments::head_desc(config, w, 4 * inst as int + 3));
    lemma_listed_in(config, w, at + 2);
    lemma_listed_in(config, w, at + 3);
    let lo = segments::softmax_desc(config, inst, false);
    let hi = segments::softmax_desc(config, inst, true);
    let eb = canonical::elem_bits(config, Kind::Exp);
    let (cb, rb) = (
        canonical::col_bits(config, Kind::Exp),
        canonical::row_bits(config, Kind::Exp),
    );
    canonical::lemma_sizes(config, Kind::Exp);
    canonical::lemma_sizes(config, Kind::QProb);
    canonical::lemma_sizes(config, Kind::SumExp);
    cells::lemma_slice_position(EXP@, None, eb, inst, canonical::inst_bits(config, Kind::Exp), i);
    cells::lemma_slice_position(
        Q_PROB@,
        None,
        eb,
        inst,
        canonical::inst_bits(config, Kind::QProb),
        i,
    );
    cells::lemma_high_position(
        SUM_EXP@,
        cb,
        rb,
        inst,
        canonical::inst_bits(config, Kind::SumExp),
        i,
    );
    let ev = values::vertex_value(sources::slice_view(config, Kind::Exp, inst), polys, eb, i);
    let pv = values::vertex_value(sources::slice_view(config, Kind::QProb, inst), polys, eb, i);
    let sv = values::vertex_value(sources::sums_view(config, inst), polys, eb, i);
    let np = pow2(eb);
    let cp = pow2(cb) as int;
    if entries_valid(polys, inst, np, pow2(rb), cp, i) {
        let e = polys[EXP@][inst * np + i];
        let p = polys[Q_PROB@][inst * np + i];
        let t = polys[SUM_EXP@][inst * pow2(rb) + i / cp];
        EF::law_add_zero(e);
        EF::law_add_zero(p);
        EF::law_add_zero(t);
        assert(ev == e && pv == p && sv == t);
        lemma_rows(config, lo, hi, e, p, t, polys, i);
    }
    (lo, hi)
}

/// The three entries are canonical.
pub open spec fn entries_valid(
    polys: Map<Seq<char>, Seq<EF>>,
    inst: nat,
    n: nat,
    rp: nat,
    cp: int,
    i: int,
) -> bool {
    &&& polys[EXP@][inst * n + i].valid()
    &&& polys[Q_PROB@][inst * n + i].valid()
    &&& polys[SUM_EXP@][inst * rp + i / cp].valid()
}

proof fn lemma_rows(
    config: Config,
    lo: DescView,
    hi: DescView,
    e: EF,
    p: EF,
    t: EF,
    polys: Map<Seq<char>, Seq<EF>>,
    i: int,
)
    requires
        e.valid() && p.valid() && t.valid(),
        lo.kind is TypeB && hi.kind is TypeB,
        lo.kind->coeff == segments::minus_one(),
        lo.kind->constant == EF::zero(),
        lo.kind->linears.len() == 1,
        lo.kind->linears[0].coeff == segments::scale_element(config),
        values::vertex_value(lo.kind->linears[0].src, polys, lo.vars, i) == e,
        values::vertex_value(lo.kind->left, polys, lo.vars, i) == p,
        values::vertex_value(lo.kind->right, polys, lo.vars, i) == t,
        hi.kind->coeff == EF::one(),
        hi.kind->constant == segments::minus_one(),
        hi.kind->linears.len() == 2,
        hi.kind->linears[0].coeff == EF::one(),
        hi.kind->linears[1].coeff == segments::scale_element(config).spec_neg(),
        values::vertex_value(hi.kind->linears[0].src, polys, hi.vars, i) == t,
        values::vertex_value(hi.kind->linears[1].src, polys, hi.vars, i) == e,
        values::vertex_value(hi.kind->left, polys, hi.vars, i) == p,
        values::vertex_value(hi.kind->right, polys, hi.vars, i) == t,
    ensures
        lookups::pair_row(lo, polys, i) == EF::embed(config.scale as int) * e - p * t,
        lookups::pair_row(hi, polys, i) == (p * t - EF::one()) + (t - EF::embed(
            config.scale as int,
        ) * e),
{
    let x = p * t;
    let se = EF::embed(config.scale as int) * e;
    EF::law_valid(p, t);
    EF::law_valid(EF::embed(config.scale as int), e);
    EF::law_valid(EF::one(), EF::one());
    algebra::one_mul(x);
    algebra::one_mul(t);
    algebra::neg_mul(EF::one(), x);
    algebra::neg_mul(EF::embed(config.scale as int), e);
    EF::law_sub(se, x);
    EF::law_sub(x, EF::one());
    EF::law_sub(t, se);
    let f = |j: int|
        lo.kind->linears[j].coeff * values::vertex_value(
            lo.kind->linears[j].src,
            polys,
            lo.vars,
            i,
        );
    assert(algebra::sum(1, f) == algebra::sum(0, f) + f(0));
    algebra::zero_add(se);
    EF::law_valid(x, x);
    EF::law_add_zero(x.spec_neg());
    EF::law_add_comm(x.spec_neg(), se);
    let g = |j: int|
        hi.kind->linears[j].coeff * values::vertex_value(
            hi.kind->linears[j].src,
            polys,
            hi.vars,
            i,
        );
    assert(algebra::sum(2, g) == algebra::sum(1, g) + g(1));
    assert(algebra::sum(1, g) == algebra::sum(0, g) + g(0));
    algebra::zero_add(t);
}

} // verus!
