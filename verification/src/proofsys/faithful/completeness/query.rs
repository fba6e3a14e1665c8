//! The query as a table.
//!
//! The segments lie in the query one after another, the longest first, so each starts
//! at a multiple of its length: the query's extension is the sum of the segments'
//! extensions, each weighted by its block, and of the padding rows.
use vstd::prelude::*;
use vstd::arithmetic::div_mod;
use vstd::arithmetic::power2;
use vstd::arithmetic::power2::pow2;
use crate::algebra;
use crate::field::Field;
use crate::logup::lookup;
use crate::multilinear;
use crate::proofsys::faithful::commitments;
use crate::proofsys::faithful::protocol;
use crate::proofsys::faithful::segments;
use crate::proofsys::faithful::segments::DescView;
use crate::proofsys::faithful::table;
use crate::proofsys::faithful::table::{R12_BASE, TYPE_RANGE12};
use crate::proofsys::faithful::values;
use crate::proofsys::model::ModelWeights;
use crate::proofsys::protocol::EF;
use crate::proofsys::witness::{Config, WitnessView};
use crate::tables;

verus! {

/// No segment is longer than an earlier one.
pub open spec fn descending(s: Seq<DescView>) -> bool {
    forall|i: int, j: int|
        0 <= i <= j < s.len() ==> (#[trigger] s[i]).vars >= (#[trigger] s[j]).vars
}

/// Inserting adds one segment and keeps the others.
proof fn lemma_insert(s: Seq<DescView>, d: DescView)
    ensures
        segments::insert_desc(s, d).len() == s.len() + 1,
        forall|i: int|
            0 <= i < segments::insert_desc(s, d).len() ==> #[trigger] segments::insert_desc(
                s,
                d,
            )[i] == d || s.contains(segments::insert_desc(s, d)[i]),
        descending(s) ==> descending(segments::insert_desc(s, d)),
    decreases s.len(),
{
    let r = segments::insert_desc(s, d);
    if s.len() == 0 || s.last().vars >= d.vars {
        assert forall|i: int| 0 <= i < r.len() implies #[trigger] r[i] == d || s.contains(
            r[i],
        ) by {
            if i < s.len() {
                assert(r[i] == s[i]);
            }
        }
    } else {
        let t = s.drop_last();
        let u = segments::insert_desc(t, d);
        lemma_insert(t, d);
        assert forall|i: int| 0 <= i < r.len() implies #[trigger] r[i] == d || s.contains(
            r[i],
        ) by {
            if i < u.len() {
                assert(r[i] == u[i]);
                if u[i] != d {
                    let k = choose|k: int| 0 <= k < t.len() && t[k] == u[i];
                    assert(s[k] == u[i]);
                }
            } else {
                assert(r[i] == s[s.len() - 1]);
            }
        }
        if descending(s) {
            assert(descending(t));
            assert forall|i: int, j: int| 0 <= i <= j < r.len() implies (#[trigger] r[i]).vars
                >= (#[trigger] r[j]).vars by {
                if j < u.len() {
                    assert(u[i].vars >= u[j].vars);
                } else if i < u.len() {
                    assert(r[i] == u[i]);
                    if u[i] != d {
                        let k = choose|k: int| 0 <= k < t.len() && t[k] == u[i];
                        assert(s[k].vars >= s[s.len() - 1].vars);
                    }
                }
            }
        }
    }
}

/// The sorted segments are the listed ones, the longest first.
pub proof fn law_sorted(s: Seq<DescView>)
    ensures
        segments::sorted(s).len() == s.len(),
        descending(segments::sorted(s)),
        forall|i: int|
            0 <= i < s.len() ==> s.contains(#[trigger] segments::sorted(s)[i]),
    decreases s.len(),
{
    if s.len() > 0 {
        let t = s.drop_last();
        law_sorted(t);
        let u = segments::sorted(t);
        lemma_insert(u, s.last());
        let r = segments::sorted(s);
        assert forall|i: int| 0 <= i < s.len() implies s.contains(#[trigger] r[i]) by {
            if r[i] == s.last() {
                assert(s[s.len() - 1] == r[i]);
            } else {
                assert(u.contains(r[i]));
                let k = choose|k: int| 0 <= k < u.len() && u[k] == r[i];
                assert(t.contains(u[k]));
                let j = choose|j: int| 0 <= j < t.len() && t[j] == u[k];
                assert(s[j] == r[i]);
            }
        }
    }
}

/// The rows before a segment are a multiple of its length, if all before it are at
/// least as long.
proof fn lemma_multiple(s: Seq<DescView>, n: nat, v: nat)
    requires
        n <= s.len(),
        forall|i: int| 0 <= i < n ==> (#[trigger] s[i]).vars >= v,
    ensures
        segments::length_before(s, n) % pow2(v) == 0,
    decreases n,
{
    multilinear::lemma_pow2_mono(0, v);
    multilinear::lemma_pow2_zero();
    if n == 0 {
        div_mod::lemma_small_mod(0, pow2(v));
    } else {
        let m = (n - 1) as nat;
        lemma_multiple(s, m, v);
        let u = s[n - 1].vars;
        assert(u >= v);
        power2::lemma_pow2_adds((u - v) as nat, v);
        let (a, b, c) = (
            segments::length_before(s, m) as int,
            pow2((u - v) as nat) as int,
            pow2(v) as int,
        );
        div_mod::lemma_mod_multiples_vanish(b, a, c);
        assert(c * b + a == a + b * c) by (nonlinear_arith);
    }
}

/// Every segment lies within the query and starts at a multiple of its length.
pub proof fn lemma_aligned(config: Config, w: ModelWeights, i: int)
    requires
        0 <= i < segments::all_segments(config, w).len(),
    ensures
        ({
            let s = segments::all_segments(config, w);
            &&& s[i].start == segments::length_before(s, i as nat)
            &&& s[i].start % pow2(s[i].vars) == 0
            &&& segments::length_before(s, (i + 1) as nat) == s[i].start + pow2(s[i].vars)
            &&& segments::length_before(s, (i + 1) as nat) <= segments::total_len(config, w)
        }),
{
    let s = segments::all_segments(config, w);
    reveal(segments::all_segments);
    let l = segments::sorted(segments::listed(config, w));
    law_sorted(segments::listed(config, w));
    commitments::lemma_placed_length(l, i as nat);
    assert forall|j: int| 0 <= j < i implies (#[trigger] s[j]).vars >= s[i].vars by {
        assert(l[j].vars >= l[i].vars);
    }
    lemma_multiple(s, i as nat, s[i].vars);
    commitments::lemma_total(config, w);
    segments::lemma_length_mono(s, (i + 1) as nat, s.len());
}

/// What a segment's rows add to the query's extension.
pub open spec fn block_share(
    alpha: EF,
    d: DescView,
    polys: Map<Seq<char>, Seq<EF>>,
    config: Config,
    w: ModelWeights,
    wit: WitnessView,
    zq: Seq<EF>,
) -> EF {
    protocol::selector(zq, d) * multilinear::mle(
        commitments::folded_rows(alpha, d, polys, config, w, wit),
        zq.take(d.vars as int),
    )
}

/// What the first `n` segments add to the query's extension.
pub open spec fn shares(
    alpha: EF,
    s: Seq<DescView>,
    polys: Map<Seq<char>, Seq<EF>>,
    config: Config,
    w: ModelWeights,
    wit: WitnessView,
    zq: Seq<EF>,
    n: nat,
) -> EF
    decreases n,
{
    if n == 0 {
        EF::zero()
    } else {
        shares(alpha, s, polys, config, w, wit, zq, (n - 1) as nat) + block_share(
            alpha,
            s[n - 1],
            polys,
            config,
            w,
            wit,
            zq,
        )
    }
}

/// The rows of segment `j` stand in the query behind those before it.
proof fn lemma_query_row(
    alpha: EF,
    s: Seq<DescView>,
    polys: Map<Seq<char>, Seq<EF>>,
    config: Config,
    w: ModelWeights,
    wit: WitnessView,
    n: nat,
    j: int,
    k: int,
)
    requires
        n <= s.len(),
        0 <= j < n,
        0 <= k < pow2(s[j].vars),
    ensures
        commitments::query_rows(alpha, s, polys, config, w, wit, n).len()
            == segments::length_before(s, n),
        segments::length_before(s, j as nat) + k < segments::length_before(s, n),
        commitments::query_rows(alpha, s, polys, config, w, wit, n)[segments::length_before(
            s,
            j as nat,
        ) + k] == commitments::folded_rows(alpha, s[j], polys, config, w, wit)[k],
    decreases n,
{
    let m = (n - 1) as nat;
    lemma_query_len(alpha, s, polys, config, w, wit, m);
    lemma_query_len(alpha, s, polys, config, w, wit, n);
    segments::lemma_length_mono(s, (j + 1) as nat, n);
    assert(segments::length_before(s, (j + 1) as nat) == segments::length_before(s, j as nat)
        + pow2(s[j].vars));
    if j < m {
        lemma_query_row(alpha, s, polys, config, w, wit, m, j, k);
    }
}

proof fn lemma_query_len(
    alpha: EF,
    s: Seq<DescView>,
    polys: Map<Seq<char>, Seq<EF>>,
    config: Config,
    w: ModelWeights,
    wit: WitnessView,
    n: nat,
)
    ensures
        commitments::query_rows(alpha, s, polys, config, w, wit, n).len()
            == segments::length_before(s, n),
    decreases n,
{
    if n > 0 {
        lemma_query_len(alpha, s, polys, config, w, wit, (n - 1) as nat);
    }
}

/// The weight of row `start + k` is the block's times the row's within it.
proof fn lemma_weight(zq: Seq<EF>, d: DescView, k: int)
    requires
        d.vars <= zq.len(),
        d.start % pow2(d.vars) == 0,
        d.start + pow2(d.vars) <= pow2(zq.len()),
        0 <= k < pow2(d.vars),
    ensures
        multilinear::eq_table(zq)[d.start + k] == multilinear::eq_table(
            zq.take(d.vars as int),
        )[k] * protocol::selector(zq, d),
{
    let (p, q) = (zq.take(d.vars as int), zq.skip(d.vars as int));
    assert(p + q =~= zq);
    let b = pow2(d.vars) as int;
    let i = d.start + k;
    tables::lemma_eq_concat(p, q, i);
    let m = d.start as int / b;
    div_mod::lemma_fundamental_div_mod(d.start as int, b);
    assert(i == b * m + k);
    div_mod::lemma_fundamental_div_mod_converse(i, b, m, k);
    div_mod::lemma_small_mod(m as nat, pow2(q.len()));
}

/// The query's rows up to segment `n`, weighted.
proof fn lemma_shares(
    alpha: EF,
    config: Config,
    w: ModelWeights,
    wit: WitnessView,
    polys: Map<Seq<char>, Seq<EF>>,
    zq: Seq<EF>,
    n: nat,
)
    requires
        segments::query_fits(config, w),
        zq.len() == segments::query_bits(config, w),
        n <= segments::all_segments(config, w).len(),
    ensures
        ({
            let s = segments::all_segments(config, w);
            let q = commitments::query_table(alpha, polys, config, w, wit);
            algebra::sum(
                segments::length_before(s, n),
                |i: int| q[i] * multilinear::eq_table(zq)[i],
            ) == shares(alpha, s, polys, config, w, wit, zq, n)
        }),
    decreases n,
{
    let s = segments::all_segments(config, w);
    let q = commitments::query_table(alpha, polys, config, w, wit);
    let eq = multilinear::eq_table(zq);
    let f = |i: int| q[i] * eq[i];
    if n > 0 {
        let m = (n - 1) as nat;
        lemma_shares(alpha, config, w, wit, polys, zq, m);
        let d = s[n - 1];
        lemma_aligned(config, w, n - 1);
        commitments::lemma_total(config, w);
        protocol::lemma_all_within(config, w);
        assert(protocol::within(s[n - 1], zq.len()));
        let b = pow2(d.vars);
        algebra::sum_split(segments::length_before(s, m), b, f);
        let rows = commitments::folded_rows(alpha, d, polys, config, w, wit);
        let loc = zq.take(d.vars as int);
        let sel = protocol::selector(zq, d);
        let g = |k: int| f(d.start + k);
        let h = |k: int| rows[k] * multilinear::eq_table(loc)[k];
        let sh = |k: int| sel * h(k);
        assert forall|k: int| 0 <= k < b implies #[trigger] g(k) == sh(k) by {
            lemma_query_row(alpha, s, polys, config, w, wit, s.len(), n - 1, k);
            lemma_weight(zq, d, k);
            let e = multilinear::eq_table(loc)[k];
            EF::law_mul_assoc(rows[k], e, sel);
            EF::law_mul_comm(rows[k] * e, sel);
        }
        algebra::sum_ext(b, g, sh);
        algebra::sum_ext(b, |i: int| f(segments::length_before(s, m) + i), g);
        algebra::sum_scale(b, sel, h);
        lemma_rows_valid(alpha, d, polys, config, w, wit);
        multilinear::lemma_mle_sum(rows, loc);
        algebra::sum_ext(b, |i: int| rows[i] * multilinear::eq_table(loc)[i], h);
    }
}

proof fn lemma_rows_valid(
    alpha: EF,
    d: DescView,
    polys: Map<Seq<char>, Seq<EF>>,
    config: Config,
    w: ModelWeights,
    wit: WitnessView,
)
    ensures
        algebra::all_valid(commitments::folded_rows(alpha, d, polys, config, w, wit)),
{
    let rows = commitments::folded_rows(alpha, d, polys, config, w, wit);
    assert forall|i: int| 0 <= i < rows.len() implies (#[trigger] rows[i]).valid() by {
        EF::law_valid(
            values::row_input(d, polys, config, w, wit, i) + alpha * values::row_output(
                d,
                polys,
                i,
            ),
            (alpha * alpha) * EF::embed(d.ty),
        );
    }
}

/// The padding rows, weighted.
proof fn lemma_padding(start: EF, alpha: EF, zq: Seq<EF>, from: nat, n: nat)
    requires
        start.valid(),
    ensures
        protocol::with_padding(start, alpha, zq, from, n) == start + algebra::sum(
            n,
            |i: int| multilinear::eq_table(zq)[from + i] * commitments::default_row(alpha),
        ),
    decreases n,
{
    let f = |i: int| multilinear::eq_table(zq)[from + i] * commitments::default_row(alpha);
    if n == 0 {
        EF::law_add_zero(start);
    } else {
        let m = (n - 1) as nat;
        lemma_padding(start, alpha, zq, from, m);
        EF::law_add_assoc(start, algebra::sum(m, f), f(n - 1));
    }
}

/// The query's extension is the sum of the segments' weighted extensions and of the
/// padding rows.
pub proof fn law_query_extension(
    alpha: EF,
    config: Config,
    w: ModelWeights,
    wit: WitnessView,
    polys: Map<Seq<char>, Seq<EF>>,
    zq: Seq<EF>,
)
    requires
        segments::query_fits(config, w),
        zq.len() == segments::query_bits(config, w),
    ensures
        ({
            let s = segments::all_segments(config, w);
            multilinear::mle(commitments::query_table(alpha, polys, config, w, wit), zq)
                == protocol::with_padding(
                shares(alpha, s, polys, config, w, wit, zq, s.len()),
                alpha,
                zq,
                segments::total_len(config, w),
                commitments::padding_rows(config, w) as nat,
            )
        }),
        commitments::query_table(alpha, polys, config, w, wit).len() == pow2(
            segments::query_bits(config, w),
        ),
        algebra::all_valid(commitments::query_table(alpha, polys, config, w, wit)),
{
    let s = segments::all_segments(config, w);
    let q = commitments::query_table(alpha, polys, config, w, wit);
    let eq = multilinear::eq_table(zq);
    let (total, pad) = (
        segments::total_len(config, w),
        commitments::padding_rows(config, w) as nat,
    );
    commitments::lemma_total(config, w);
    lemma_query_len(alpha, s, polys, config, w, wit, s.len());
    lemma_query_valid(alpha, s, polys, config, w, wit, s.len());
    let rows = commitments::query_rows(alpha, s, polys, config, w, wit, s.len());
    let default = commitments::default_row(alpha);
    EF::law_valid(
        EF::zero() + alpha * EF::zero(),
        (alpha * alpha) * EF::embed(TYPE_RANGE12 as int),
    );
    assert forall|i: int| 0 <= i < q.len() implies (#[trigger] q[i]).valid() by {
        if i < total {
            assert(q[i] == rows[i]);
        } else {
            assert(q[i] == default);
        }
    }
    assert(q.len() == total + pad);
    multilinear::lemma_mle_sum(q, zq);
    let f = |i: int| q[i] * eq[i];
    algebra::sum_split(total, pad, f);
    lemma_shares(alpha, config, w, wit, polys, zq, s.len());
    let g = |i: int| f(total + i);
    let h = |i: int| eq[total + i] * default;
    assert forall|i: int| 0 <= i < pad implies #[trigger] g(i) == h(i) by {
        assert(q[total + i] == default);
        EF::law_mul_comm(default, eq[total + i]);
    }
    algebra::sum_ext(pad, g, h);
    algebra::sum_valid(total, f);
    lemma_padding(
        shares(alpha, s, polys, config, w, wit, zq, s.len()),
        alpha,
        zq,
        total,
        pad,
    );
}

proof fn lemma_query_valid(
    alpha: EF,
    s: Seq<DescView>,
    polys: Map<Seq<char>, Seq<EF>>,
    config: Config,
    w: ModelWeights,
    wit: WitnessView,
    n: nat,
)
    ensures
        algebra::all_valid(commitments::query_rows(alpha, s, polys, config, w, wit, n)),
    decreases n,
{
    if n > 0 {
        let m = (n - 1) as nat;
        lemma_query_valid(alpha, s, polys, config, w, wit, m);
        lemma_rows_valid(alpha, s[n - 1], polys, config, w, wit);
        let (x, y) = (
            commitments::query_rows(alpha, s, polys, config, w, wit, m),
            commitments::folded_rows(alpha, s[n - 1], polys, config, w, wit),
        );
        assert forall|i: int| 0 <= i < (x + y).len() implies (#[trigger] (x + y)[i]).valid() by {
            if i < x.len() {
                assert(x[i].valid());
            } else {
                assert(y[i - x.len()].valid());
            }
        }
    }
}

/// The extension of folded rows is the folded extensions.
pub proof fn lemma_folded_value(
    alpha: EF,
    d: DescView,
    polys: Map<Seq<char>, Seq<EF>>,
    config: Config,
    w: ModelWeights,
    wit: WitnessView,
    p: Seq<EF>,
)
    requires
        p.len() == d.vars,
    ensures
        multilinear::mle(commitments::folded_rows(alpha, d, polys, config, w, wit), p)
            == table::fold(
            alpha,
            multilinear::mle(values::row_inputs(d, polys, config, w, wit), p),
            multilinear::mle(values::row_outputs(d, polys), p),
            EF::embed(d.ty),
        ),
{
    let (x, y) = (values::row_inputs(d, polys, config, w, wit), values::row_outputs(d, polys));
    EF::law_embed(d.ty, 0);
    let z = Seq::new(pow2(p.len()), |i: int| EF::embed(d.ty));
    tables::lemma_mle_constant(EF::embed(d.ty), p);
    lemma_fold_extension(alpha, x, y, z, p);
    assert(commitments::folded_rows(alpha, d, polys, config, w, wit) =~= folded(alpha, x, y, z));
}

/// Three columns folded row by row.
pub open spec fn folded(alpha: EF, x: Seq<EF>, y: Seq<EF>, z: Seq<EF>) -> Seq<EF> {
    Seq::new(x.len(), |i: int| table::fold(alpha, x[i], y[i], z[i]))
}

/// Folding columns and extending them can be exchanged.
pub proof fn lemma_fold_extension(alpha: EF, x: Seq<EF>, y: Seq<EF>, z: Seq<EF>, p: Seq<EF>)
    requires
        x.len() == pow2(p.len()),
        y.len() == x.len(),
        z.len() == x.len(),
    ensures
        multilinear::mle(folded(alpha, x, y, z), p) == table::fold(
            alpha,
            multilinear::mle(x, p),
            multilinear::mle(y, p),
            multilinear::mle(z, p),
        ),
{
    let a2 = alpha * alpha;
    let sy = Seq::new(y.len(), |i: int| alpha * y[i]);
    let sz = Seq::new(z.len(), |i: int| a2 * z[i]);
    let xy = Seq::new(x.len(), |i: int| x[i] + sy[i]);
    multilinear::lemma_mle_scale(alpha, y, p);
    multilinear::lemma_mle_scale(a2, z, p);
    multilinear::lemma_mle_add(x, sy, p);
    multilinear::lemma_mle_add(xy, sz, p);
    assert(folded(alpha, x, y, z) =~= Seq::new(xy.len(), |i: int| xy[i] + sz[i]));
}

/// Row `i` of a segment is the table's row at its index.
pub open spec fn row_listed(
    d: DescView,
    polys: Map<Seq<char>, Seq<EF>>,
    config: Config,
    w: ModelWeights,
    wit: WitnessView,
    i: int,
) -> bool {
    let j = commitments::row_index(d, polys, config, w, wit, i);
    &&& 0 <= j < table::table_len(config, w)
    &&& EF::embed(table::row_at(config, w, j).input) == values::row_input(
        d,
        polys,
        config,
        w,
        wit,
        i,
    )
    &&& EF::embed(table::row_at(config, w, j).output) == values::row_output(d, polys, i)
    &&& table::row_at(config, w, j).ty == d.ty
}

/// All rows of a segment are rows of the table.
pub open spec fn rows_listed(
    d: DescView,
    polys: Map<Seq<char>, Seq<EF>>,
    config: Config,
    w: ModelWeights,
    wit: WitnessView,
) -> bool {
    forall|i: int|
        0 <= i < pow2(d.vars) ==> #[trigger] row_listed(d, polys, config, w, wit, i)
}

/// All rows of all segments are rows of the table.
pub open spec fn all_listed(
    s: Seq<DescView>,
    polys: Map<Seq<char>, Seq<EF>>,
    config: Config,
    w: ModelWeights,
    wit: WitnessView,
) -> bool {
    forall|i: int| 0 <= i < s.len() ==> rows_listed(#[trigger] s[i], polys, config, w, wit)
}

/// The table rows of all query rows; the padding rows are the first row.
pub open spec fn query_indices(
    polys: Map<Seq<char>, Seq<EF>>,
    config: Config,
    w: ModelWeights,
    wit: WitnessView,
) -> Seq<int> {
    let s = segments::all_segments(config, w);
    commitments::all_indices(s, polys, config, w, wit, s.len()) + Seq::new(
        commitments::padding_rows(config, w) as nat,
        |i: int| R12_BASE as int,
    )
}

/// The folded rows of the first `n` segments are the folded table's rows at their
/// indices.
proof fn lemma_found(
    alpha: EF,
    s: Seq<DescView>,
    polys: Map<Seq<char>, Seq<EF>>,
    config: Config,
    w: ModelWeights,
    wit: WitnessView,
    n: nat,
)
    requires
        n <= s.len(),
        all_listed(s, polys, config, w, wit),
    ensures
        lookup::found_at(
            commitments::query_rows(alpha, s, polys, config, w, wit, n),
            table::folded_table(alpha, config, w),
            commitments::all_indices(s, polys, config, w, wit, n),
        ),
    decreases n,
{
    if n > 0 {
        let m = (n - 1) as nat;
        lemma_found(alpha, s, polys, config, w, wit, m);
        let d = s[n - 1];
        assert(rows_listed(d, polys, config, w, wit));
        let (x, y) = (
            commitments::query_rows(alpha, s, polys, config, w, wit, m),
            commitments::folded_rows(alpha, d, polys, config, w, wit),
        );
        let (u, v) = (
            commitments::all_indices(s, polys, config, w, wit, m),
            commitments::row_indices(d, polys, config, w, wit),
        );
        let t = table::folded_table(alpha, config, w);
        assert forall|i: int| 0 <= i < (x + y).len() implies 0 <= #[trigger] (u + v)[i] < t.len()
            && (x + y)[i] == t[(u + v)[i]] by {
            if i < x.len() {
                assert(0 <= u[i] < t.len() && x[i] == t[u[i]]);
            } else {
                let k = i - x.len();
                assert(row_listed(d, polys, config, w, wit, k));
                assert(v[k] == commitments::row_index(d, polys, config, w, wit, k));
            }
        }
    }
}

/// Every query row is the folded table's row at its index.
pub proof fn law_query_found(
    alpha: EF,
    polys: Map<Seq<char>, Seq<EF>>,
    config: Config,
    w: ModelWeights,
    wit: WitnessView,
)
    requires
        all_listed(segments::all_segments(config, w), polys, config, w, wit),
    ensures
        lookup::found_at(
            commitments::query_table(alpha, polys, config, w, wit),
            table::folded_table(alpha, config, w),
            query_indices(polys, config, w, wit),
        ),
{
    let s = segments::all_segments(config, w);
    lemma_found(alpha, s, polys, config, w, wit, s.len());
    let t = table::folded_table(alpha, config, w);
    let q = commitments::query_table(alpha, polys, config, w, wit);
    let idx = query_indices(polys, config, w, wit);
    let rows = commitments::query_rows(alpha, s, polys, config, w, wit, s.len());
    let at = commitments::all_indices(s, polys, config, w, wit, s.len());
    multilinear::lemma_pow2_mono(0, table::table_bits(config, w));
    EF::law_embed(0, 0);
    assert forall|i: int| 0 <= i < q.len() implies 0 <= #[trigger] idx[i] < t.len() && q[i]
        == t[idx[i]] by {
        if i < rows.len() {
            assert(idx[i] == at[i] && q[i] == rows[i]);
        } else {
            assert(idx[i] == 0 && q[i] == commitments::default_row(alpha));
            assert(t[0] == commitments::default_row(alpha));
        }
    }
}

/// The multiplicities count how often each table row is meant.
pub proof fn law_multiplicities(
    polys: Map<Seq<char>, Seq<EF>>,
    config: Config,
    w: ModelWeights,
    wit: WitnessView,
)
    ensures
        commitments::multiplicities(polys, config, w, wit) == lookup::tally::<EF>(
            query_indices(polys, config, w, wit),
            table::table_len(config, w),
        ),
{
    let s = segments::all_segments(config, w);
    let at = commitments::all_indices(s, polys, config, w, wit, s.len());
    commitments::lemma_total(config, w);
    let pad = commitments::padding_rows(config, w) as nat;
    let a = commitments::multiplicities(polys, config, w, wit);
    let b = lookup::tally::<EF>(
        query_indices(polys, config, w, wit),
        table::table_len(config, w),
    );
    assert forall|j: int| 0 <= j < a.len() implies #[trigger] a[j] == b[j] by {
        lemma_repeated(at, R12_BASE as int, pad, j);
    }
    assert(a =~= b);
}

/// Occurrences behind `n` copies of `x`.
proof fn lemma_repeated(s: Seq<int>, x: int, n: nat, j: int)
    ensures
        lookup::occurrences(s + Seq::new(n, |i: int| x), j) == lookup::occurrences(s, j) + (if j
            == x {
            n as int
        } else {
            0
        }),
    decreases n,
{
    let t = s + Seq::new(n, |i: int| x);
    if n == 0 {
        assert(t =~= s);
    } else {
        lemma_repeated(s, x, (n - 1) as nat, j);
        assert(t.drop_last() =~= s + Seq::new((n - 1) as nat, |i: int| x));
    }
}

} // verus!
