//! The operands of the reductions as tables.
//!
//! An operand that is read from a commitment is the multilinear extension of its
//! values at the vertices. The contracted factors of a matrix product are extensions
//! of the padded matrices, and their inner product is the padded product's.
use vstd::prelude::*;
use vstd::arithmetic::power2;
use vstd::arithmetic::power2::pow2;
use crate::algebra;
use crate::field::Field;
use crate::interpolation;
use crate::multilinear;
use crate::proofsys::canonical;
use crate::proofsys::commit;
use crate::proofsys::commit::{Coord, SourceView};
use crate::proofsys::faithful::openings;
use crate::proofsys::faithful::values;
use crate::proofsys::grid;
use crate::proofsys::grid::Grid;
use crate::proofsys::protocol::EF;
use crate::proofsys::reduce;
use crate::proofsys::reduce::MatmulKind;
use crate::tables;

verus! {

/// Setting coordinate `k` of the operand point sets at most one coordinate of the
/// committed polynomial's point.
proof fn lemma_target_moves(src: SourceView, x: Seq<EF>, k: int)
    requires
        src.fits(x.len()),
        src.injective(),
        0 <= k < x.len(),
    ensures
        ({
            let (q, q0, q1) = (
                src.target(x),
                src.target(x.update(k, EF::zero())),
                src.target(x.update(k, EF::one())),
            );
            q0 == q && q1 == q || exists|t: int| interpolation::moves(q, q0, q1, x[k], t)
        }),
{
    let (q, q0, q1) = (
        src.target(x),
        src.target(x.update(k, EF::zero())),
        src.target(x.update(k, EF::one())),
    );
    if exists|t: int| 0 <= t < src.coords.len() && #[trigger] src.coords[t] == Coord::Var(
        k as usize,
    ) && k == k as usize {
        let t = choose|t: int|
            0 <= t < src.coords.len() && #[trigger] src.coords[t] == Coord::Var(k as usize) && k
                == k as usize;
        assert forall|i: int| 0 <= i < q.len() && i != t implies #[trigger] q0[i] == q[i] && q1[i]
            == q[i] by {
            assert(src.coords[i] != src.coords[t]);
            assert(commit::coord_within(src.coords[i], x.len()));
        }
        assert(q0 =~= q.update(t, EF::zero()));
        assert(q1 =~= q.update(t, EF::one()));
        assert(interpolation::moves(q, q0, q1, x[k], t));
    } else {
        assert forall|i: int| 0 <= i < q.len() implies #[trigger] q0[i] == q[i] && q1[i]
            == q[i] by {
            assert(commit::coord_within(src.coords[i], x.len()));
            if src.coords[i] is Var && src.coords[i]->Var_0 == k {
                assert(src.coords[i] == Coord::Var(k as usize));
            }
        }
        assert(q0 =~= q);
        assert(q1 =~= q);
    }
}

/// The same for the bias.
proof fn lemma_bias_moves(b: commit::BiasView, x: Seq<EF>, k: int)
    requires
        b.fits(x.len()),
        b.injective(),
        0 <= k < x.len(),
    ensures
        ({
            let (q, q0, q1) = (
                b.chosen(x),
                b.chosen(x.update(k, EF::zero())),
                b.chosen(x.update(k, EF::one())),
            );
            q0 == q && q1 == q || exists|t: int| interpolation::moves(q, q0, q1, x[k], t)
        }),
{
    let (q, q0, q1) = (
        b.chosen(x),
        b.chosen(x.update(k, EF::zero())),
        b.chosen(x.update(k, EF::one())),
    );
    if exists|t: int| 0 <= t < b.vars.len() && #[trigger] b.vars[t] == k {
        let t = choose|t: int| 0 <= t < b.vars.len() && #[trigger] b.vars[t] == k;
        assert forall|i: int| 0 <= i < q.len() && i != t implies #[trigger] q0[i] == q[i] && q1[i]
            == q[i] by {
            assert(b.vars[i] != b.vars[t]);
        }
        assert(q0 =~= q.update(t, EF::zero()));
        assert(q1 =~= q.update(t, EF::one()));
        assert(interpolation::moves(q, q0, q1, x[k], t));
    } else {
        assert(q0 =~= q);
        assert(q1 =~= q);
    }
}

/// An operand is affine in each coordinate of its point.
proof fn lemma_source_affine(src: SourceView, polys: Map<Seq<char>, Seq<EF>>, x: Seq<EF>, k: int)
    requires
        src.fits(x.len()),
        src.injective(),
        src.stored(polys),
        algebra::all_valid(polys[src.oracle]),
        src.bias is Some ==> algebra::all_valid(src.bias->0.values),
        0 <= k < x.len(),
    ensures
        interpolation::affine_at(|y: Seq<EF>| src.value(polys, y), x, k),
{
    let (x0, x1, r) = (x.update(k, EF::zero()), x.update(k, EF::one()), x[k]);
    lemma_target_moves(src, x, k);
    interpolation::lemma_mle_moves(
        polys[src.oracle],
        src.target(x),
        src.target(x0),
        src.target(x1),
        r,
    );
    match src.bias {
        Some(b) => {
            lemma_bias_moves(b, x, k);
            interpolation::lemma_mle_moves(b.values, b.chosen(x), b.chosen(x0), b.chosen(x1), r);
        },
        None => {
            EF::law_valid(EF::zero(), EF::zero());
            tables::lemma_lerp_same(EF::zero(), r);
        },
    }
    algebra::lerp_add(
        multilinear::mle(polys[src.oracle], src.target(x0)),
        multilinear::mle(polys[src.oracle], src.target(x1)),
        src.bias_at(x0),
        src.bias_at(x1),
        r,
    );
}

proof fn lemma_corner_bits(i: nat, n: nat)
    ensures
        commit::corner(i, n) == interpolation::bits_of::<EF>(i, n),
    decreases n,
{
    commit::lemma_index_bits(i, n);
    if n > 0 {
        commit::lemma_corner_step(i, n);
        lemma_corner_bits(i / 2, (n - 1) as nat);
    } else {
        assert(commit::corner(i, n) =~= interpolation::bits_of::<EF>(i, n));
    }
}

/// An operand at a vertex, read from the committed table or evaluated.
pub proof fn lemma_vertex_value(src: SourceView, polys: Map<Seq<char>, Seq<EF>>, n: nat, i: int)
    requires
        src.fits(n),
        src.stored(polys),
        algebra::all_valid(polys[src.oracle]),
        0 <= i < pow2(n),
    ensures
        values::vertex_value(src, polys, n, i) == src.value(polys, commit::corner(i as nat, n)),
        0 <= values::vertex_position(src, n, i) < polys[src.oracle].len(),
{
    let bits = commit::index_bits(i as nat, n);
    commit::lemma_index_bits(i as nat, n);
    let m = values::mapped_bits(src.coords, bits);
    let target = src.target(commit::corner(i as nat, n));
    assert forall|j: int| 0 <= j < target.len() implies #[trigger] target[j]
        == multilinear::vertex::<EF>(m)[j] by {
        assert(commit::coord_within(src.coords[j], n));
    }
    assert(target =~= multilinear::vertex::<EF>(m));
    multilinear::lemma_mle_vertex(
        polys[src.oracle],
        m,
        values::vertex_position(src, n, i),
    );
}

/// An operand is the multilinear extension of its values at the vertices.
pub proof fn law_operand_table(
    src: SourceView,
    polys: Map<Seq<char>, Seq<EF>>,
    p: Seq<EF>,
)
    requires
        src.fits(p.len()),
        src.injective(),
        src.stored(polys),
        algebra::all_valid(polys[src.oracle]),
        src.bias is Some ==> algebra::all_valid(src.bias->0.values),
    ensures
        multilinear::mle(values::vertex_table(src, polys, p.len()), p) == src.value(polys, p),
        algebra::all_valid(values::vertex_table(src, polys, p.len())),
{
    let n = p.len();
    let g = |y: Seq<EF>| src.value(polys, y);
    assert forall|x: Seq<EF>, k: int|
        x.len() == n && 0 <= k < n implies #[trigger] interpolation::affine_at(g, x, k) by {
        lemma_source_affine(src, polys, x, k);
        assert(interpolation::affine_at(|y: Seq<EF>| src.value(polys, y), x, k));
    }
    let none = Seq::<EF>::empty();
    let t = values::vertex_table(src, polys, n);
    let v = interpolation::vertex_values(g, none, n);
    assert forall|i: int| 0 <= i < t.len() implies #[trigger] t[i] == v[i] && t[i].valid() by {
        lemma_vertex_value(src, polys, n, i);
        lemma_corner_bits(i as nat, n);
        assert(none + interpolation::bits_of::<EF>(i as nat, n) =~= commit::corner(i as nat, n));
        EF::law_valid(
            multilinear::mle(polys[src.oracle], src.target(commit::corner(i as nat, n))),
            src.bias_at(commit::corner(i as nat, n)),
        );
    }
    assert(t =~= v);
    interpolation::lemma_interpolates(g, none, p);
    assert(none + p =~= p);
}

/// An entry of a matrix, zero beyond its shape.
pub open spec fn cell(g: Grid, r: int, c: int) -> int {
    if r < g.rows && c < g.cols {
        g.at(r, c)
    } else {
        0
    }
}

/// Column `k` of a matrix, zero-padded to `2^n` entries.
pub open spec fn column_table(g: Grid, n: nat, k: int) -> Seq<EF> {
    Seq::new(pow2(n), |r: int| EF::embed(cell(g, r, k)))
}

/// Row `k` of a matrix, zero-padded to `2^n` entries.
pub open spec fn row_table(g: Grid, n: nat, k: int) -> Seq<EF> {
    Seq::new(pow2(n), |c: int| EF::embed(cell(g, k, c)))
}

/// A sum is not changed by zero terms at its end.
pub proof fn lemma_sum_extend(m: nat, n: nat, f: spec_fn(int) -> EF)
    requires
        m <= n,
        forall|i: int| m <= i < n ==> #[trigger] f(i) == EF::zero(),
    ensures
        algebra::sum(n, f) == algebra::sum(m, f),
    decreases n,
{
    if m < n {
        lemma_sum_extend(m, (n - 1) as nat, f);
        algebra::sum_valid(m, f);
        EF::law_add_zero(algebra::sum(m, f));
    }
}

/// A weighted sum of the entries of a zero-padded vector is its extension.
proof fn lemma_weighted(t: Seq<EF>, p: Seq<EF>, n: nat, f: spec_fn(int) -> EF)
    requires
        t.len() == pow2(p.len()),
        algebra::all_valid(t),
        n <= t.len(),
        forall|i: int| 0 <= i < n ==> #[trigger] f(i) == multilinear::eq_table(p)[i] * t[i],
        forall|i: int| n <= i < t.len() ==> #[trigger] t[i] == EF::zero(),
    ensures
        algebra::sum(n, f) == multilinear::mle(t, p),
{
    multilinear::lemma_mle_sum(t, p);
    let g = |i: int| t[i] * multilinear::eq_table(p)[i];
    assert forall|i: int| n <= i < t.len() implies #[trigger] g(i) == EF::zero() by {
        assert(t[i] == EF::zero());
        algebra::mul_zero(multilinear::eq_table(p)[i]);
    }
    lemma_sum_extend(n, t.len(), g);
    assert forall|i: int| 0 <= i < n implies #[trigger] f(i) == g(i) by {
        EF::law_mul_comm(t[i], multilinear::eq_table(p)[i]);
    }
    algebra::sum_ext(n, f, g);
}

pub proof fn lemma_embedded(n: nat, f: spec_fn(int) -> int)
    ensures
        algebra::all_valid(Seq::new(n, |i: int| EF::embed(f(i)))),
{
    assert forall|i: int| 0 <= i < n implies (#[trigger] EF::embed(f(i))).valid() by {
        EF::law_embed(f(i), 0);
    }
}

proof fn lemma_zero()
    ensures
        EF::embed(0) == EF::zero(),
        EF::embed(1) == EF::one(),
        EF::zero().valid(),
        EF::one().valid(),
{
    EF::law_embed(0, 0);
    EF::law_valid(EF::zero(), EF::zero());
}

/// A matrix with its rows contracted holds the extensions of its columns.
proof fn lemma_contracted_column(g: Grid, row: Seq<EF>, n: nat, k: int)
    requires
        0 <= k < pow2(n),
        g.rows <= pow2(row.len()),
    ensures
        openings::contracted_rows(g, row, n)[k] == multilinear::mle(
            column_table(g, row.len(), k),
            row,
        ),
        algebra::all_valid(column_table(g, row.len(), k)),
{
    let t = column_table(g, row.len(), k);
    lemma_zero();
    lemma_embedded(pow2(row.len()), |r: int| cell(g, r, k));
    assert(t =~= Seq::new(
        pow2(row.len()),
        |i: int| EF::embed((|r: int| cell(g, r, k))(i)),
    ));
    if k < g.cols {
        lemma_weighted(t, row, g.rows, |r: int| openings::row_term(g, row, k, r));
    } else {
        tables::lemma_mle_zero(t, row);
    }
}

/// A matrix with its columns contracted holds the extensions of its rows.
proof fn lemma_contracted_row(g: Grid, col: Seq<EF>, n: nat, k: int)
    requires
        0 <= k < pow2(n),
        g.cols <= pow2(col.len()),
    ensures
        openings::contracted_cols(g, col, n)[k] == multilinear::mle(
            row_table(g, col.len(), k),
            col,
        ),
        algebra::all_valid(row_table(g, col.len(), k)),
{
    let t = row_table(g, col.len(), k);
    lemma_zero();
    lemma_embedded(pow2(col.len()), |c: int| cell(g, k, c));
    assert(t =~= Seq::new(
        pow2(col.len()),
        |i: int| EF::embed((|c: int| cell(g, k, c))(i)),
    ));
    if k < g.rows {
        lemma_weighted(t, col, g.cols, |c: int| openings::col_term(g, col, k, c));
    } else {
        tables::lemma_mle_zero(t, col);
    }
}

/// The entry of a padded matrix in row `r` and column `c`.
pub proof fn lemma_padded(g: Grid, rb: nat, cb: nat, r: int, c: int)
    requires
        0 <= r < pow2(rb),
        0 <= c < pow2(cb),
    ensures
        canonical::padded(g, pow2(rb), pow2(cb)).len() == pow2(cb + rb),
        0 <= r * pow2(cb) + c < pow2(cb + rb),
        (r + 1) * pow2(cb) <= pow2(cb + rb),
        (r * pow2(cb) + c) / pow2(cb) as int == r,
        (r * pow2(cb) + c) % pow2(cb) as int == c,
        canonical::padded(g, pow2(rb), pow2(cb))[r * pow2(cb) + c] == EF::embed(cell(g, r, c)),
{
    grid::lemma_cell(pow2(rb), pow2(cb), r, c);
    power2::lemma_pow2_adds(rb, cb);
    let (x, y) = (pow2(rb) as int, pow2(cb) as int);
    assert((r + 1) * y <= x * y) by (nonlinear_arith)
        requires
            r + 1 <= x,
            0 <= y,
    ;
}

/// All entries of a padded matrix are valid, and there is one for each vertex.
pub proof fn lemma_padded_valid(g: Grid, rb: nat, cb: nat)
    ensures
        algebra::all_valid(canonical::padded(g, pow2(rb), pow2(cb))),
        canonical::padded(g, pow2(rb), pow2(cb)).len() == pow2(cb + rb),
{
    let t = canonical::padded(g, pow2(rb), pow2(cb));
    power2::lemma_pow2_adds(rb, cb);
    assert forall|i: int| 0 <= i < t.len() implies (#[trigger] t[i]).valid() by {
        EF::law_embed(canonical::padded_cell(g, pow2(cb), i), 0);
    }
}

/// Contracting the rows of a matrix leaves its extension at the rows' point.
pub proof fn lemma_contracted_rows(g: Grid, k: Seq<EF>, row: Seq<EF>)
    requires
        g.rows <= pow2(row.len()),
        g.cols <= pow2(k.len()),
    ensures
        multilinear::mle(openings::contracted_rows(g, row, k.len()), k) == multilinear::mle(
            canonical::padded(g, pow2(row.len()), pow2(k.len())),
            k + row,
        ),
        algebra::all_valid(openings::contracted_rows(g, row, k.len())),
{
    let (rb, kb) = (row.len(), k.len());
    let s = canonical::padded(g, pow2(rb), pow2(kb));
    lemma_padded_valid(g, rb, kb);
    commit::law_instance_combination(s, k, row);
    let b = pow2(kb) as int;
    let eq = multilinear::eq_table(row);
    multilinear::lemma_eq_table_len(row);
    let weight = |j: int| eq[j];
    let block = |j: int| s.subrange(j * b, (j + 1) * b);
    assert forall|j: int| 0 <= j < pow2(rb) implies (#[trigger] block(j)).len() == b by {
        multilinear::lemma_pow2_mono(0, kb);
        lemma_padded(g, rb, kb, j, 0);
        assert((j + 1) * b - j * b == b) by (nonlinear_arith);
        assert(0 <= j * b) by (nonlinear_arith)
            requires
                0 <= j,
                0 <= b,
        ;
    }
    tables::lemma_mle_combined(pow2(rb), weight, block, k);
    let t = tables::combined(pow2(rb), weight, block, pow2(kb));
    let have = openings::contracted_rows(g, row, kb);
    assert forall|i: int| 0 <= i < b implies #[trigger] have[i] == t[i] && have[i].valid() by {
        lemma_contracted_column(g, row, kb, i);
        let c = column_table(g, rb, i);
        multilinear::lemma_mle_sum(c, row);
        let f = |r: int| c[r] * eq[r];
        let h = |j: int| weight(j) * block(j)[i];
        assert forall|j: int| 0 <= j < pow2(rb) implies #[trigger] f(j) == h(j) by {
            lemma_padded(g, rb, kb, j, i);
            assert(0 <= j * b) by (nonlinear_arith)
                requires
                    0 <= j,
                    0 <= b,
            ;
            assert((j + 1) * b - j * b == b) by (nonlinear_arith);
            EF::law_mul_comm(c[j], eq[j]);
        }
        algebra::sum_ext(pow2(rb), f, h);
        algebra::sum_valid(pow2(rb), f);
    }
    assert(have =~= t);
    let f = |j: int| commit::block_value(s, k, j) * eq[j];
    let h = |j: int| weight(j) * multilinear::mle(block(j), k);
    assert forall|j: int| 0 <= j < pow2(rb) implies #[trigger] f(j) == h(j) by {
        EF::law_mul_comm(multilinear::mle(block(j), k), eq[j]);
    }
    algebra::sum_ext(pow2(rb), f, h);
}

/// Contracting the columns of a matrix leaves its extension at the columns' point.
pub proof fn lemma_contracted_cols(g: Grid, col: Seq<EF>, k: Seq<EF>)
    requires
        g.rows <= pow2(k.len()),
        g.cols <= pow2(col.len()),
    ensures
        multilinear::mle(openings::contracted_cols(g, col, k.len()), k) == multilinear::mle(
            canonical::padded(g, pow2(k.len()), pow2(col.len())),
            col + k,
        ),
        algebra::all_valid(openings::contracted_cols(g, col, k.len())),
{
    let (kb, cb) = (k.len(), col.len());
    let s = canonical::padded(g, pow2(kb), pow2(cb));
    lemma_padded_valid(g, kb, cb);
    multilinear::lemma_fold_all_concat(s, col, k);
    multilinear::lemma_fold_all_len(s, col, cb + kb);
    multilinear::lemma_fold_all_valid(s, col);
    let f = multilinear::fold_all(s, col);
    let have = openings::contracted_cols(g, col, kb);
    let b = pow2(cb) as int;
    assert forall|i: int| 0 <= i < pow2(kb) implies #[trigger] have[i] == f[i] by {
        lemma_contracted_row(g, col, kb, i);
        multilinear::lemma_fold_block(s, col, cb + kb, i);
        let block = s.subrange(i * b, (i + 1) * b);
        assert((i + 1) * b - i * b == b) by (nonlinear_arith);
        assert forall|c: int| 0 <= c < b implies #[trigger] block[c] == row_table(g, cb, i)[c] by {
            lemma_padded(g, kb, cb, i, c);
        }
        assert(block =~= row_table(g, cb, i));
    }
    assert(have =~= f);
}

/// Entry `(k, c)` of a right factor, zero beyond its shape.
pub open spec fn factor(mk: MatmulKind, g: Grid, k: int, c: int) -> int {
    match mk {
        MatmulKind::Regular => cell(g, k, c),
        MatmulKind::Transposed => cell(g, c, k),
    }
}

/// Row `k` of a right factor, zero-padded to `2^n` entries.
spec fn factor_table(mk: MatmulKind, g: Grid, n: nat, k: int) -> Seq<EF> {
    match mk {
        MatmulKind::Regular => row_table(g, n, k),
        MatmulKind::Transposed => column_table(g, n, k),
    }
}

/// The right factor has `k` contracted entries and at most `c` others.
pub open spec fn right_shaped(mk: MatmulKind, g: Grid, k: nat, c: nat) -> bool {
    match mk {
        MatmulKind::Regular => g.rows == k && g.cols <= c,
        MatmulKind::Transposed => g.cols == k && g.rows <= c,
    }
}

/// An entry of a matrix product is the sum over the contracted entries.
proof fn lemma_product_cell(mk: MatmulKind, a: Grid, b: Grid, r: int, c: int, n: nat)
    requires
        0 <= r,
        0 <= c,
        a.cols <= n,
        right_shaped(mk, b, a.cols, (c + 1 + b.rows + b.cols) as nat),
    ensures
        algebra::sum(n, |k: int| EF::embed(cell(a, r, k)) * EF::embed(factor(mk, b, k, c)))
            == EF::embed(cell(values::product_grid(mk, a, b), r, c)),
{
    let f = |k: int| EF::embed(cell(a, r, k)) * EF::embed(factor(mk, b, k, c));
    let p = values::product_grid(mk, a, b);
    lemma_zero();
    if r < p.rows && c < p.cols {
        let g = |k: int| cell(a, r, k) * factor(mk, b, k, c);
        assert forall|k: int| a.cols <= k < n implies #[trigger] f(k) == EF::zero() by {
            algebra::mul_zero(EF::embed(factor(mk, b, k, c)));
        }
        lemma_sum_extend(a.cols, n, f);
        assert forall|k: int| 0 <= k < a.cols implies #[trigger] f(k) == EF::embed(g(k)) by {
            EF::law_embed(cell(a, r, k), factor(mk, b, k, c));
        }
        lemma_embed_sum(a.cols, g, f);
        match mk {
            MatmulKind::Regular => {
                let dots = |i: int, j: int| grid::row_dot(a, b, i, j, a.cols);
                grid::lemma_tabulate(a.rows, b.cols, dots, r, c);
                grid::lemma_isum_ext(a.cols, |k: int| a.at(r, k) * b.at(k, c), g);
            },
            MatmulKind::Transposed => {
                let dots = |i: int, j: int| grid::rows_dot(a, b, i, j, a.cols);
                grid::lemma_tabulate(a.rows, b.rows, dots, r, c);
                grid::lemma_isum_ext(a.cols, |k: int| a.at(r, k) * b.at(c, k), g);
            },
        }
    } else {
        assert forall|k: int| 0 <= k < n implies #[trigger] f(k) == EF::zero() by {
            algebra::mul_zero(EF::embed(cell(a, r, k)));
            algebra::mul_zero(EF::embed(factor(mk, b, k, c)));
        }
        algebra::sum_zero(n, f);
    }
}

/// A sum of embedded integers.
pub proof fn lemma_embed_sum(n: nat, f: spec_fn(int) -> int, g: spec_fn(int) -> EF)
    requires
        forall|i: int| 0 <= i < n ==> #[trigger] g(i) == EF::embed(f(i)),
    ensures
        algebra::sum(n, g) == EF::embed(grid::isum(n, f)),
    decreases n,
{
    EF::law_embed(0, 0);
    if n > 0 {
        lemma_embed_sum((n - 1) as nat, f, g);
        assert(g(n - 1) == EF::embed(f(n - 1)));
        EF::law_embed(grid::isum((n - 1) as nat, f), f(n - 1));
    }
}

/// The contracted factors' inner product is the padded product's extension.
pub proof fn lemma_product_value(
    mk: MatmulKind,
    a: Grid,
    b: Grid,
    row: Seq<EF>,
    col: Seq<EF>,
    kb: nat,
)
    requires
        a.rows <= pow2(row.len()),
        a.cols <= pow2(kb),
        right_shaped(mk, b, a.cols, pow2(col.len())),
    ensures
        reduce::inner(
            openings::contracted_rows(a, row, kb),
            openings::contracted_right(mk, b, col, kb),
        ) == multilinear::mle(
            canonical::padded(
                values::product_grid(mk, a, b),
                pow2(row.len()),
                pow2(col.len()),
            ),
            col + row,
        ),
{
    let (rb, cb, n) = (row.len(), col.len(), pow2(kb));
    let p = values::product_grid(mk, a, b);
    let s = canonical::padded(p, pow2(rb), pow2(cb));
    lemma_padded_valid(p, rb, cb);
    power2::lemma_pow2_adds(rb, cb);
    let unit = |k: int| EF::one();
    let layer = |k: int| interpolation::outer(column_table(a, rb, k), factor_table(mk, b, cb, k));
    assert forall|k: int| 0 <= k < n implies (#[trigger] layer(k)).len() == pow2(
        (col + row).len(),
    ) by {}
    tables::lemma_mle_combined(n, unit, layer, col + row);
    let t = tables::combined(n, unit, layer, pow2(cb + rb));
    assert forall|i: int| 0 <= i < s.len() implies #[trigger] t[i] == s[i] by {
        grid::lemma_position(pow2(rb), pow2(cb), i);
        let (r, c) = (i / pow2(cb) as int, i % pow2(cb) as int);
        let f = |k: int| unit(k) * layer(k)[i];
        let g = |k: int| EF::embed(cell(a, r, k)) * EF::embed(factor(mk, b, k, c));
        assert forall|k: int| 0 <= k < n implies #[trigger] f(k) == g(k) by {
            let u = column_table(a, rb, k);
            let v = factor_table(mk, b, cb, k);
            assert(layer(k)[i] == u[r] * v[c]);
            EF::law_valid(u[r], v[c]);
            algebra::one_mul(u[r] * v[c]);
        }
        algebra::sum_ext(n, f, g);
        lemma_product_cell(mk, a, b, r, c, n);
    }
    assert(t =~= s);
    let (x, y) = (
        openings::contracted_rows(a, row, kb),
        openings::contracted_right(mk, b, col, kb),
    );
    let f = |k: int| x[k] * y[k];
    let g = |k: int| unit(k) * multilinear::mle(layer(k), col + row);
    assert forall|k: int| 0 <= k < n implies #[trigger] f(k) == g(k) by {
        lemma_contracted_column(a, row, kb, k);
        match mk {
            MatmulKind::Regular => lemma_contracted_row(b, col, kb, k),
            MatmulKind::Transposed => lemma_contracted_column(b, col, kb, k),
        }
        let u = column_table(a, rb, k);
        let v = factor_table(mk, b, cb, k);
        interpolation::lemma_mle_outer(u, v, col, row);
        EF::law_valid(multilinear::mle(u, row), multilinear::mle(v, col));
        algebra::one_mul(multilinear::mle(u, row) * multilinear::mle(v, col));
    }
    algebra::sum_ext(n, f, g);
}

} // verus!
