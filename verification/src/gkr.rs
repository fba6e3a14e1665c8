//! The layer sumcheck of the tree circuits: tables are bound from the low bit up
//! and every round polynomial has degree three.
use vstd::prelude::*;
use vstd::arithmetic::power2::pow2;
use crate::algebra;
use crate::field::Field;
use crate::multilinear;
use crate::polynomial;
use crate::utils::poly;
use crate::utils::poly::MlPoly;
use crate::utils::sumcheck;

verus! {

/// The entries at index `i` of all tables.
pub open spec fn column<F: Field>(tables: Seq<Seq<F>>, i: int) -> Seq<F> {
    Seq::new(tables.len(), |k: int| tables[k][i])
}

/// The entries of all tables with the low bit set to `t`.
pub open spec fn line_values<F: Field>(tables: Seq<Seq<F>>, j: int, t: F) -> Seq<F> {
    Seq::new(tables.len(), |k: int| algebra::lerp(tables[k][2 * j], tables[k][2 * j + 1], t))
}

/// `sum_i comb(tables[..][i])`.
pub open spec fn table_sum<F: Field>(tables: Seq<Seq<F>>, comb: spec_fn(Seq<F>) -> F) -> F {
    algebra::sum(tables[0].len(), |i: int| comb(column(tables, i)))
}

/// The same sum with the low bit set to `t`.
pub open spec fn low_value<F: Field>(
    tables: Seq<Seq<F>>,
    comb: spec_fn(Seq<F>) -> F,
    t: F,
) -> F {
    algebra::sum(tables[0].len() / 2, |j: int| comb(line_values(tables, j, t)))
}

/// The round message: the values at 0, 1, 2 and 3.
pub open spec fn low_message<F: Field>(
    tables: Seq<Seq<F>>,
    comb: spec_fn(Seq<F>) -> F,
) -> Seq<F> {
    Seq::new(4, |k: int| low_value(tables, comb, F::embed(k)))
}

/// All tables with the low bit bound to `c`.
pub open spec fn fold_tables<F: Field>(tables: Seq<Seq<F>>, c: F) -> Seq<Seq<F>> {
    Seq::new(tables.len(), |k: int| multilinear::fold_low(tables[k], c))
}

/// The honest round messages for the challenges `ch`.
pub open spec fn low_rounds<F: Field>(
    tables: Seq<Seq<F>>,
    comb: spec_fn(Seq<F>) -> F,
    ch: Seq<F>,
) -> Seq<Seq<F>>
    decreases ch.len(),
{
    if ch.len() == 0 {
        Seq::empty()
    } else {
        seq![low_message(tables, comb)] + low_rounds(
            fold_tables(tables, ch[0]),
            comb,
            ch.drop_first(),
        )
    }
}

/// All tables after binding the low bits to `ch` in turn.
pub open spec fn fold_tables_all<F: Field>(tables: Seq<Seq<F>>, ch: Seq<F>) -> Seq<Seq<F>> {
    Seq::new(tables.len(), |k: int| multilinear::fold_all(tables[k], ch))
}

/// The values of all tables at a point.
pub open spec fn table_values<F: Field>(tables: Seq<Seq<F>>, ch: Seq<F>) -> Seq<F> {
    Seq::new(tables.len(), |k: int| multilinear::mle(tables[k], ch))
}

/// The weighted mean `(1 - r) a + r b`.
pub open spec fn mean<F: Field>(a: F, b: F, r: F) -> F {
    (F::one() - r) * a + r * b
}

/// The entries at even indices.
pub open spec fn evens<F: Field>(s: Seq<F>) -> Seq<F> {
    Seq::new(s.len() / 2, |i: int| s[2 * i])
}

/// The entries at odd indices.
pub open spec fn odds<F: Field>(s: Seq<F>) -> Seq<F> {
    Seq::new(s.len() / 2, |i: int| s[2 * i + 1])
}

/// The contents of a list of round messages.
pub open spec fn messages<F: Field>(v: Seq<[F; 4]>) -> Seq<Seq<F>> {
    Seq::new(v.len(), |i: int| v[i]@)
}

/// `comb` along a line between two tuples.
pub open spec fn along<F: Field>(
    comb: spec_fn(Seq<F>) -> F,
    a: Seq<F>,
    b: Seq<F>,
) -> spec_fn(F) -> F {
    |t: F| comb(Seq::new(a.len(), |k: int| algebra::lerp(a[k], b[k], t)))
}

/// `comb` is of degree at most three on tuples of length `m`.
pub open spec fn cubic<F: Field>(comb: spec_fn(Seq<F>) -> F, m: nat) -> bool {
    forall|a: Seq<F>, b: Seq<F>|
        a.len() == m && b.len() == m ==> polynomial::is_poly(#[trigger] along(comb, a, b), 4)
}

pub proof fn lemma_low_rounds_push<F: Field>(
    tables: Seq<Seq<F>>,
    comb: spec_fn(Seq<F>) -> F,
    ch: Seq<F>,
    r: F,
)
    ensures
        low_rounds(tables, comb, ch.push(r)) == low_rounds(tables, comb, ch).push(
            low_message(fold_tables_all(tables, ch), comb),
        ),
        fold_tables_all(tables, ch.push(r)) == fold_tables(fold_tables_all(tables, ch), r),
    decreases ch.len(),
{
    let full = ch.push(r);
    assert forall|k: int| 0 <= k < tables.len() implies #[trigger] multilinear::fold_all(
        tables[k],
        full,
    ) == multilinear::fold_low(multilinear::fold_all(tables[k], ch), r) by {
        multilinear::lemma_fold_all_push(tables[k], ch, r);
    }
    assert(fold_tables_all(tables, full) =~= fold_tables(fold_tables_all(tables, ch), r));
    if ch.len() == 0 {
        assert(full.drop_first() =~= Seq::<F>::empty());
        assert(fold_tables_all(tables, ch) =~= tables);
        assert(low_rounds(fold_tables(tables, r), comb, Seq::<F>::empty()) =~= Seq::empty());
        assert(low_rounds(tables, comb, full) =~= seq![low_message(tables, comb)]);
        assert(low_rounds(tables, comb, ch) =~= Seq::empty());
    } else {
        let next = fold_tables(tables, ch[0]);
        assert(full.drop_first() =~= ch.drop_first().push(r));
        assert(full[0] == ch[0]);
        lemma_low_rounds_push(next, comb, ch.drop_first(), r);
        assert(fold_tables_all(next, ch.drop_first()) =~= fold_tables_all(tables, ch));
        assert(low_rounds(tables, comb, full) =~= low_rounds(tables, comb, ch).push(
            low_message(fold_tables_all(tables, ch), comb),
        ));
    }
}

proof fn lemma_low_is_poly<F: Field>(tables: Seq<Seq<F>>, comb: spec_fn(Seq<F>) -> F)
    requires
        cubic(comb, tables.len()),
    ensures
        polynomial::is_poly(|t: F| low_value(tables, comb, t), 4),
{
    let half = tables[0].len() / 2;
    let f = |j: int, t: F| comb(line_values(tables, j, t));
    assert forall|j: int| 0 <= j < half implies polynomial::is_poly(
        #[trigger] polynomial::curry(f, j),
        4,
    ) by {
        let a = column(tables, 2 * j);
        let b = column(tables, 2 * j + 1);
        let g = along(comb, a, b);
        assert(polynomial::is_poly(g, 4));
        assert forall|t: F| t.valid() implies #[trigger] polynomial::curry(f, j)(t) == g(t) by {
            assert(line_values(tables, j, t) =~= Seq::new(
                a.len(),
                |k: int| algebra::lerp(a[k], b[k], t),
            ));
        }
        polynomial::is_poly_same(g, polynomial::curry(f, j), 4);
    }
    polynomial::is_poly_sum(half, f, 4);
    let g = |t: F| algebra::sum(half, |j: int| f(j, t));
    let h = |t: F| low_value(tables, comb, t);
    assert forall|t: F| t.valid() implies #[trigger] h(t) == g(t) by {
        algebra::sum_ext(half, |j: int| comb(line_values(tables, j, t)), |j: int| f(j, t));
    }
    polynomial::is_poly_same(g, h, 4);
}

/// All tables hold `2^n` canonical values.
pub open spec fn tables_shape<F: Field>(tables: Seq<Seq<F>>, n: nat) -> bool {
    &&& tables.len() > 0
    &&& forall|k: int|
        0 <= k < tables.len() ==> (#[trigger] tables[k]).len() == pow2(n) && algebra::all_valid(
            tables[k],
        )
}

proof fn lemma_low_ends<F: Field>(tables: Seq<Seq<F>>, comb: spec_fn(Seq<F>) -> F, n: nat)
    requires
        tables_shape(tables, n),
        n > 0,
    ensures
        low_value(tables, comb, F::zero()) + low_value(tables, comb, F::one()) == table_sum(
            tables,
            comb,
        ),
{
    multilinear::lemma_pow2_step(n);
    assert(tables[0].len() == pow2(n));
    let half = tables[0].len() / 2;
    let f = |i: int| comb(column(tables, i));
    let lo = |j: int| comb(line_values(tables, j, F::zero()));
    let hi = |j: int| comb(line_values(tables, j, F::one()));
    algebra::sum_pairs(half, f);
    algebra::sum_add(half, lo, hi);
    let g = |j: int| f(2 * j) + f(2 * j + 1);
    let h = |j: int| lo(j) + hi(j);
    assert forall|j: int| 0 <= j < half implies #[trigger] g(j) == h(j) by {
        assert forall|k: int| 0 <= k < tables.len() implies algebra::lerp(
            #[trigger] tables[k][2 * j],
            tables[k][2 * j + 1],
            F::zero(),
        ) == tables[k][2 * j] && algebra::lerp(tables[k][2 * j], tables[k][2 * j + 1], F::one())
            == tables[k][2 * j + 1] by {
            assert(tables[k].len() == pow2(n) && algebra::all_valid(tables[k]));
            algebra::lerp_ends(tables[k][2 * j], tables[k][2 * j + 1]);
        }
        assert(line_values(tables, j, F::zero()) =~= column(tables, 2 * j));
        assert(line_values(tables, j, F::one()) =~= column(tables, 2 * j + 1));
    }
    algebra::sum_ext(half, g, h);
}

proof fn lemma_low_next<F: Field>(tables: Seq<Seq<F>>, comb: spec_fn(Seq<F>) -> F, n: nat, c: F)
    requires
        tables_shape(tables, n),
        n > 0,
    ensures
        low_value(tables, comb, c) == table_sum(fold_tables(tables, c), comb),
        tables_shape(fold_tables(tables, c), (n - 1) as nat),
{
    multilinear::lemma_pow2_step(n);
    let next = fold_tables(tables, c);
    assert forall|k: int| 0 <= k < next.len() implies (#[trigger] next[k]).len() == pow2(
        (n - 1) as nat,
    ) && algebra::all_valid(next[k]) by {
        assert(tables[k].len() == pow2(n));
        multilinear::lemma_fold_low_valid(tables[k], c);
    }
    assert(tables[0].len() == pow2(n));
    let half = tables[0].len() / 2;
    assert(next[0].len() == half);
    let f = |j: int| comb(line_values(tables, j, c));
    let g = |i: int| comb(column(next, i));
    assert forall|j: int| 0 <= j < half implies #[trigger] f(j) == g(j) by {
        assert forall|k: int| 0 <= k < tables.len() implies line_values(tables, j, c)[k]
            == #[trigger] column(next, j)[k] by {
            assert(tables[k].len() == pow2(n));
        }
        assert(line_values(tables, j, c) =~= column(next, j));
    }
    algebra::sum_ext(half, f, g);
}

/// Completeness of the layer sumcheck: from the true sum, the honest messages
/// pass every round and leave `comb` of the tables' values at the challenges.
pub proof fn lemma_low_complete<F: Field>(
    tables: Seq<Seq<F>>,
    comb: spec_fn(Seq<F>) -> F,
    ch: Seq<F>,
)
    requires
        tables_shape(tables, ch.len()),
        cubic(comb, tables.len()),
        algebra::all_valid(ch),
        forall|v: Seq<F>| v.len() == tables.len() ==> (#[trigger] comb(v)).valid(),
    ensures
        sumcheck::check_rounds(table_sum(tables, comb), low_rounds(tables, comb, ch), ch) == Some(
            comb(table_values(tables, ch)),
        ),
    decreases ch.len(),
{
    let n = ch.len();
    if n == 0 {
        multilinear::lemma_pow2_zero();
        assert(tables[0].len() == pow2(0));
        let f = |i: int| comb(column(tables, i));
        assert(algebra::sum(0, f) == F::zero());
        assert(algebra::sum(1, f) == algebra::sum(0, f) + f(0));
        assert(column(tables, 0).len() == tables.len());
        algebra::zero_add(f(0));
        assert(table_values(tables, ch) =~= column(tables, 0)) by {
            assert forall|k: int| 0 <= k < tables.len() implies #[trigger] multilinear::mle(
                tables[k],
                ch,
            ) == tables[k][0] by {
                assert(multilinear::fold_all(tables[k], ch) == tables[k]);
            }
        }
    } else {
        let c = ch[0];
        let rest = ch.drop_first();
        let next = fold_tables(tables, c);
        let msg = low_message(tables, comb);
        let rounds = low_rounds(tables, comb, ch);
        assert(rounds[0] == msg);
        assert(rounds.drop_first() =~= low_rounds(next, comb, rest));
        lemma_low_ends(tables, comb, n);
        F::law_embed(0, 0);
        F::law_embed(1, 0);
        assert(msg[0] == low_value(tables, comb, F::zero()));
        assert(msg[1] == low_value(tables, comb, F::one()));
        lemma_low_is_poly(tables, comb);
        let g = |t: F| low_value(tables, comb, t);
        assert(c.valid());
        polynomial::lemma_interpolation_exact(g, msg, c);
        lemma_low_next(tables, comb, n, c);
        assert(algebra::all_valid(rest));
        lemma_low_complete(next, comb, rest);
        assert(table_values(next, rest) =~= table_values(tables, ch));
    }
}

pub proof fn lemma_low_rounds_len<F: Field>(
    tables: Seq<Seq<F>>,
    comb: spec_fn(Seq<F>) -> F,
    ch: Seq<F>,
)
    ensures
        low_rounds(tables, comb, ch).len() == ch.len(),
    decreases ch.len(),
{
    if ch.len() > 0 {
        lemma_low_rounds_len(fold_tables(tables, ch[0]), comb, ch.drop_first());
    }
}

/// A product of three lines has degree three.
pub proof fn lemma_three_lines<F: Field>(a0: F, a1: F, b0: F, b1: F, c0: F, c1: F)
    ensures
        polynomial::is_poly(
            |t: F|
                algebra::lerp(a0, a1, t) * (algebra::lerp(b0, b1, t) * algebra::lerp(c0, c1, t)),
            4,
        ),
{
    let one = |t: F| F::one();
    F::law_valid(F::zero(), F::zero());
    polynomial::is_poly_const(F::one());
    polynomial::is_poly_mul_line(a0, a1, one, 1);
    let g1 = |t: F| one(t) * algebra::lerp(a0, a1, t);
    polynomial::is_poly_mul_line(b0, b1, g1, 2);
    let g2 = |t: F| g1(t) * algebra::lerp(b0, b1, t);
    polynomial::is_poly_mul_line(c0, c1, g2, 3);
    let g3 = |t: F| g2(t) * algebra::lerp(c0, c1, t);
    let h = |t: F|
        algebra::lerp(a0, a1, t) * (algebra::lerp(b0, b1, t) * algebra::lerp(c0, c1, t));
    assert forall|t: F| t.valid() implies #[trigger] h(t) == g3(t) by {
        let (x, y, z) = (
            algebra::lerp(a0, a1, t),
            algebra::lerp(b0, b1, t),
            algebra::lerp(c0, c1, t),
        );
        F::law_valid(a0, t * (a1 - a0));
        algebra::one_mul(x);
        F::law_mul_assoc(x, y, z);
    }
    polynomial::is_poly_same(g3, h, 4);
}

/// A table splits into its entries at even and at odd indices; its value at a
/// point is the mean of theirs.
pub proof fn lemma_split_mean<F: Field>(s: Seq<F>, beta: F, zp: Seq<F>)
    requires
        s.len() == pow2(zp.len() + 1),
        algebra::all_valid(s),
    ensures
        mean(
            multilinear::mle(evens(s), zp),
            multilinear::mle(odds(s), zp),
            beta,
        ) == multilinear::mle(s, seq![beta] + zp),
{
    let p = seq![beta] + zp;
    let (e, o) = (evens(s), odds(s));
    multilinear::lemma_pow2_step(zp.len() + 1);
    assert(p.drop_first() =~= zp);
    let f = multilinear::fold_low(s, beta);
    let k = F::one() - beta;
    let se = Seq::new(e.len(), |i: int| k * e[i]);
    let so = Seq::new(o.len(), |i: int| beta * o[i]);
    assert forall|i: int| 0 <= i < f.len() implies #[trigger] f[i] == se[i] + so[i] by {
        assert(s[2 * i].valid());
        algebra::lerp_weighted(s[2 * i], s[2 * i + 1], beta);
    }
    assert(f =~= Seq::new(se.len(), |i: int| se[i] + so[i]));
    multilinear::lemma_mle_add(se, so, zp);
    multilinear::lemma_mle_scale(k, e, zp);
    multilinear::lemma_mle_scale(beta, o, zp);
}

/// The table of the equality polynomial, low bit first.
pub fn eq_table<F: Field>(z: &[F]) -> (r: Vec<F>)
    requires
        pow2(z@.len()) <= usize::MAX,
    ensures
        r@ == multilinear::eq_table(z@),
{
    MlPoly::new_eq(&poly::copy_slice(z)).0
}

/// The equality polynomial of two points, over their common coordinates.
pub fn eq_eval<F: Field>(z: &[F], zp: &[F]) -> (r: F)
    ensures
        r == multilinear::eq_value(z@, zp@),
{
    MlPoly::eval_eq(&poly::copy_slice(z), &poly::copy_slice(zp))
}

/// Binds the low bit.
pub fn fold_low<F: Field>(arr: &mut Vec<F>, c: F)
    ensures
        final(arr)@ == multilinear::fold_low(old(arr)@, c),
{
    let half: usize = arr.len() / 2;
    let ghost orig = arr@;
    let mut j: usize = 0;
    while j < half
        invariant
            j <= half,
            half == orig.len() / 2,
            arr@.len() == orig.len(),
            arr@.len() == arr.len(),
            forall|k: int| 0 <= k < j ==> #[trigger] arr@[k] == algebra::lerp(
                orig[2 * k],
                orig[2 * k + 1],
                c,
            ),
            forall|k: int| j <= k < orig.len() ==> #[trigger] arr@[k] == orig[k],
        decreases half - j,
    {
        let a = arr[2 * j];
        let b = arr[2 * j + 1];
        arr.set(j, a.add(c.mul(b.sub(a))));
        j += 1;
    }
    arr.truncate(half);
    assert(arr@ =~= multilinear::fold_low(orig, c));
}

/// The value at `x` of the cubic through `(0, evals[0]), .., (3, evals[3])`.
pub fn interp4<F: Field>(evals: &[F; 4], x: F) -> (r: F)
    ensures
        r == polynomial::interpolation(evals@, x),
{
    let v: Vec<F> = vec![evals[0], evals[1], evals[2], evals[3]];
    assert(v@ =~= evals@);
    sumcheck::interpolate(v.as_slice(), x)
}

/// The entries at even indices.
pub fn even_entries<F: Field>(s: &[F]) -> (r: Vec<F>)
    ensures
        r@ == evens(s@),
{
    let half: usize = s.len() / 2;
    let mut r: Vec<F> = Vec::new();
    let mut i: usize = 0;
    while i < half
        invariant
            i <= half,
            half == s@.len() / 2,
            s@.len() == s.len(),
            r@ == Seq::new(i as nat, |k: int| s@[2 * k]),
        decreases half - i,
    {
        r.push(s[2 * i]);
        assert(r@ =~= Seq::new((i + 1) as nat, |k: int| s@[2 * k]));
        i += 1;
    }
    r
}

/// The entries at odd indices.
pub fn odd_entries<F: Field>(s: &[F]) -> (r: Vec<F>)
    ensures
        r@ == odds(s@),
{
    let half: usize = s.len() / 2;
    let mut r: Vec<F> = Vec::new();
    let mut i: usize = 0;
    while i < half
        invariant
            i <= half,
            half == s@.len() / 2,
            s@.len() == s.len(),
            r@ == Seq::new(i as nat, |k: int| s@[2 * k + 1]),
        decreases half - i,
    {
        r.push(s[2 * i + 1]);
        assert(r@ =~= Seq::new((i + 1) as nat, |k: int| s@[2 * k + 1]));
        i += 1;
    }
    r
}

/// The points 0, 1, 2 and 3.
pub fn four_points<F: Field>() -> (r: Vec<F>)
    ensures
        r@ == polynomial::nodes::<F>(4),
{
    sumcheck::eval_points::<F>(4)
}

/// The mean `(1 - r) a + r b`.
pub fn weighted_mean<F: Field>(a: F, b: F, r: F) -> (m: F)
    ensures
        m == mean(a, b, r),
        m.valid(),
{
    F::new_one().sub(r).mul(a).add(r.mul(b))
}

/// A round message meets the round polynomial by chance: they differ somewhere, yet agree
/// at the drawn challenge.
pub open spec fn meets_by_chance<F: Field>(
    tables: Seq<Seq<F>>,
    comb: spec_fn(Seq<F>) -> F,
    message: Seq<F>,
    r: F,
) -> bool {
    &&& polynomial::interpolation(message, r) == low_value(tables, comb, r)
    &&& exists|t: F|
        t.valid() && #[trigger] polynomial::interpolation(message, t) != low_value(
            tables,
            comb,
            t,
        )
}

/// Some round message meets the round polynomial by chance.
pub open spec fn lucky<F: Field>(
    tables: Seq<Seq<F>>,
    comb: spec_fn(Seq<F>) -> F,
    rounds: Seq<Seq<F>>,
    ch: Seq<F>,
) -> bool {
    exists|i: int|
        0 <= i < rounds.len() && #[trigger] meets_by_chance(
            fold_tables_all(tables, ch.take(i)),
            comb,
            rounds[i],
            ch[i],
        )
}

/// Soundness of the layer sumcheck: rounds that leave `comb` of the tables' values at the
/// challenges started from the true sum, unless some message meets the round polynomial
/// by chance.
pub proof fn law_low_sound<F: Field>(
    claim: F,
    tables: Seq<Seq<F>>,
    comb: spec_fn(Seq<F>) -> F,
    rounds: Seq<Seq<F>>,
    ch: Seq<F>,
)
    requires
        tables_shape(tables, ch.len()),
        forall|v: Seq<F>| v.len() == tables.len() ==> (#[trigger] comb(v)).valid(),
        rounds.len() == ch.len(),
        forall|i: int| 0 <= i < rounds.len() ==> algebra::all_valid(#[trigger] rounds[i]),
        sumcheck::check_rounds(claim, rounds, ch) == Some(comb(table_values(tables, ch))),
    ensures
        claim == algebra::sum(
            pow2(ch.len()),
            |i: int| comb(Seq::new(tables.len(), |k: int| tables[k][i])),
        ) || lucky(tables, comb, rounds, ch),
    decreases ch.len(),
{
    let n = ch.len();
    let f = |i: int| comb(column(tables, i));
    let g = |i: int| comb(Seq::new(tables.len(), |k: int| tables[k][i]));
    assert(tables[0].len() == pow2(n));
    assert forall|i: int| 0 <= i < pow2(n) implies #[trigger] f(i) == g(i) by {
        assert(column(tables, i) =~= Seq::new(tables.len(), |k: int| tables[k][i]));
    }
    algebra::sum_ext(pow2(n), f, g);
    if n == 0 {
        multilinear::lemma_pow2_zero();
        assert(algebra::sum(0, f) == F::zero());
        assert(algebra::sum(1, f) == algebra::sum(0, f) + f(0));
        assert(column(tables, 0).len() == tables.len());
        algebra::zero_add(f(0));
        assert(table_values(tables, ch) =~= column(tables, 0)) by {
            assert forall|k: int| 0 <= k < tables.len() implies #[trigger] multilinear::mle(
                tables[k],
                ch,
            ) == tables[k][0] by {
                assert(multilinear::fold_all(tables[k], ch) == tables[k]);
            }
        }
    } else {
        let c = ch[0];
        let rest = ch.drop_first();
        let next = fold_tables(tables, c);
        let msg = rounds[0];
        let later = rounds.drop_first();
        let cur = polynomial::interpolation(msg, c);
        lemma_low_next(tables, comb, n, c);
        assert(table_values(next, rest) =~= table_values(tables, ch));
        assert forall|i: int| 0 <= i < later.len() implies algebra::all_valid(
            #[trigger] later[i],
        ) by {
            assert(algebra::all_valid(rounds[i + 1]));
        }
        law_low_sound(cur, next, comb, later, rest);
        let h = |i: int| comb(Seq::new(next.len(), |k: int| next[k][i]));
        let m = pow2((n - 1) as nat);
        assert(next[0].len() == m);
        assert forall|i: int| 0 <= i < m implies #[trigger] h(i) == comb(column(next, i)) by {
            assert(column(next, i) =~= Seq::new(next.len(), |k: int| next[k][i]));
        }
        algebra::sum_ext(m, |i: int| comb(column(next, i)), h);
        assert(fold_tables_all(tables, ch.take(0)) =~= tables) by {
            assert forall|k: int| 0 <= k < tables.len() implies #[trigger] multilinear::fold_all(
                tables[k],
                ch.take(0),
            ) == tables[k] by {}
        }
        if lucky(next, comb, later, rest) {
            let i = choose|i: int|
                0 <= i < later.len() && #[trigger] meets_by_chance(
                    fold_tables_all(next, rest.take(i)),
                    comb,
                    later[i],
                    rest[i],
                );
            let now = ch.take(i + 1);
            assert(now.drop_first() =~= rest.take(i));
            assert(fold_tables_all(tables, now) =~= fold_tables_all(next, rest.take(i)));
            assert(meets_by_chance(fold_tables_all(tables, now), comb, rounds[i + 1], ch[i + 1]));
        } else if !meets_by_chance(
            fold_tables_all(tables, ch.take(0)),
            comb,
            rounds[0],
            ch[0],
        ) {
            assert(cur == low_value(tables, comb, c));
            F::law_embed(0, 0);
            F::law_embed(1, 0);
            assert(algebra::all_valid(rounds[0]));
            polynomial::lemma_interpolation_at_node(msg, 0);
            polynomial::lemma_interpolation_at_node(msg, 1);
            assert(polynomial::interpolation(msg, F::zero()) == low_value(
                tables,
                comb,
                F::zero(),
            ));
            assert(polynomial::interpolation(msg, F::one()) == low_value(tables, comb, F::one()));
            lemma_low_ends(tables, comb, n);
        }
    }
}

} // verus!
