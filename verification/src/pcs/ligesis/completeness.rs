//! Completeness: an honest opening is accepted.
use vstd::prelude::*;
use vstd::arithmetic::power2::pow2;
use crate::algebra;
use crate::field::{Field, Goldilocks, GoldilocksExt2};
use crate::multilinear;
use crate::pcs::basefold;
use crate::pcs::basefold::BasefoldProverState;
use crate::pcs::domain;
use crate::pcs::domain::LeafField;
use crate::pcs::leaves;
use crate::pcs::subset_sum;
use crate::utils::merkle;
use crate::utils::poly;
use crate::utils::sumcheck;
use crate::utils::sumcheck::SumcheckProof;
use crate::views;
use super::identities;
use super::opening;
use super::opening::{Counts, Draws, LigesisProof, Witness};
use super::tables;
use super::tables::ETA;
use super::{CommitData, ProvingKey, CODE_RATE, COLUMN_DRAWS, NUM_COLS_OPENED};

verus! {

/// An honest sumcheck is accepted for the true sum.
proof fn lemma_sumcheck(
    sc: SumcheckProof<GoldilocksExt2>,
    polys: Seq<Seq<GoldilocksExt2>>,
    ch: Seq<GoldilocksExt2>,
)
    requires
        opening::sumcheck_honest(sc, polys, ch),
        0 < polys.len() < 100,
        forall|j: int| 0 <= j < polys.len() ==> (#[trigger] polys[j]).len() == pow2(ch.len()),
        forall|j: int| 0 <= j < polys.len() ==> algebra::all_valid(#[trigger] polys[j]),
        algebra::all_valid(ch),
    ensures
        opening::sumcheck_accepted(sumcheck::hypercube_sum(polys), sc, ch),
        sc.round_polys@.len() == ch.len(),
        sc.final_evals@.len() == polys.len(),
        forall|j: int|
            0 <= j < polys.len() ==> #[trigger] sc.final_evals@[j] == multilinear::mle(
                polys[j],
                ch.reverse(),
            ),
{
    sumcheck::law_complete(polys, ch);
    sumcheck::law_rounds_shape(polys, ch);
    assert(sc.rounds().len() == sc.round_polys@.len());
}

/// The same for two factors.
proof fn lemma_product_sumcheck(
    sc: SumcheckProof<GoldilocksExt2>,
    p: Seq<GoldilocksExt2>,
    q: Seq<GoldilocksExt2>,
    ch: Seq<GoldilocksExt2>,
)
    requires
        opening::sumcheck_honest(sc, seq![p, q], ch),
        p.len() == pow2(ch.len()),
        q.len() == pow2(ch.len()),
        algebra::all_valid(p),
        algebra::all_valid(q),
        algebra::all_valid(ch),
    ensures
        opening::sumcheck_accepted(identities::dot(p, q), sc, ch),
        sc.round_polys@.len() == ch.len(),
        sc.final_evals@.len() == 2,
        sc.final_evals@[0] == multilinear::mle(p, ch.reverse()),
        sc.final_evals@[1] == multilinear::mle(q, ch.reverse()),
{
    let polys = seq![p, q];
    assert(polys[0] == p && polys[1] == q);
    lemma_sumcheck(sc, polys, ch);
    identities::lemma_hypercube_dot(p, q);
}

/// The selector picks the values at the indices.
pub proof fn lemma_selector_dot(
    idx: Seq<usize>,
    weights: Seq<GoldilocksExt2>,
    values: Seq<GoldilocksExt2>,
)
    requires
        weights.len() == idx.len(),
        algebra::all_valid(weights),
        algebra::all_valid(values),
        leaves::below(idx, values.len() as int),
    ensures
        identities::dot(tables::selector(idx, weights, values.len()), values)
            == opening::picked_sum(idx, weights, values),
        algebra::all_valid(tables::selector(idx, weights, values.len())),
{
    let n = values.len();
    let one = GoldilocksExt2::one();
    let sel = tables::selector(idx, weights, n);
    let a = |k: int| weights[k];
    let b = |j: int| values[j];
    let mat = |k: int, j: int| tables::pick(idx[k], j, one);
    identities::lemma_assoc(idx.len(), n, a, b, mat);
    GoldilocksExt2::law_valid(one, one);
    let left = |k: int| a(k) * algebra::sum(n, |j: int| mat(k, j) * b(j));
    let want = |k: int| weights[k] * values[idx[k] as int];
    assert forall|k: int| 0 <= k < idx.len() implies #[trigger] left(k) == want(k) by {
        let t = idx[k] as int;
        assert(idx[k] < n);
        let f = |j: int| mat(k, j) * b(j);
        assert forall|j: int| 0 <= j < n && j != t implies #[trigger] f(j)
            == GoldilocksExt2::zero() by {
            algebra::mul_zero(values[j]);
        }
        assert(values[t].valid());
        algebra::one_mul(values[t]);
        assert(f(t) == values[t]);
        algebra::sum_single(n, t, f);
    }
    algebra::sum_ext(idx.len(), left, want);
    let right = |j: int| algebra::sum(idx.len(), |k: int| a(k) * mat(k, j)) * b(j);
    let have = |j: int| sel[j] * values[j];
    assert forall|j: int| 0 <= j < n implies #[trigger] right(j) == have(j) by {
        let f = |k: int| a(k) * mat(k, j);
        let g = |k: int| tables::pick(idx[k], j, weights[k]);
        assert forall|k: int| 0 <= k < idx.len() implies #[trigger] f(k) == g(k) by {
            assert(weights[k].valid());
            if idx[k] == j {
                GoldilocksExt2::law_mul_one(weights[k]);
            } else {
                algebra::mul_zero(weights[k]);
            }
        }
        algebra::sum_ext(idx.len(), f, g);
        assert(sel[j] == tables::selected(idx, weights, j));
    }
    algebra::sum_ext(n, right, have);
    assert forall|j: int| 0 <= j < sel.len() implies (#[trigger] sel[j]).valid() by {
        let g = |k: int| tables::pick(idx[k], j, weights[k]);
        algebra::sum_valid(idx.len(), g);
        assert(sel[j] == tables::selected(idx, weights, j));
    }
}

/// Horner's value as a sum.
proof fn lemma_horner_sum(vals: Seq<GoldilocksExt2>, gamma: GoldilocksExt2)
    requires
        algebra::all_valid(vals),
    ensures
        tables::horner_value(vals, gamma) == algebra::sum(
            vals.len(),
            |j: int| domain::pow(gamma, j as nat) * vals[j],
        ),
    decreases vals.len(),
{
    let f = |j: int| domain::pow(gamma, j as nat) * vals[j];
    if vals.len() > 0 {
        let d = vals.drop_first();
        let n = d.len();
        assert(algebra::all_valid(d)) by {
            assert forall|i: int| 0 <= i < d.len() implies (#[trigger] d[i]).valid() by {
                assert(vals[i + 1].valid());
            }
        }
        lemma_horner_sum(d, gamma);
        let h = |j: int| domain::pow(gamma, j as nat) * d[j];
        let s = algebra::sum(n, h);
        algebra::sum_split(1, n, f);
        let g = |i: int| f(1 + i);
        algebra::sum_scale(n, gamma, h);
        let gh = |j: int| gamma * h(j);
        assert forall|j: int| 0 <= j < n implies #[trigger] g(j) == gh(j) by {
            assert(domain::pow(gamma, (1 + j) as nat) == gamma * domain::pow(gamma, j as nat));
            GoldilocksExt2::law_mul_assoc(gamma, domain::pow(gamma, j as nat), d[j]);
        }
        algebra::sum_ext(n, g, gh);
        assert(vals[0].valid());
        assert(f(0) == GoldilocksExt2::one() * vals[0]);
        algebra::one_mul(vals[0]);
        assert(algebra::sum(0, f) == GoldilocksExt2::zero());
        assert(algebra::sum(1, f) == algebra::sum(0, f) + f(0));
        algebra::zero_add(vals[0]);
        GoldilocksExt2::law_mul_comm(s, gamma);
        GoldilocksExt2::law_add_comm(gamma * s, vals[0]);
        assert(1 + n == vals.len());
    }
}

/// The batched claim of several points.
pub proof fn lemma_batched_points(
    s: Seq<GoldilocksExt2>,
    points: Seq<Seq<GoldilocksExt2>>,
    gamma: GoldilocksExt2,
    vals: Seq<GoldilocksExt2>,
    r: Seq<GoldilocksExt2>,
)
    requires
        points.len() > 0,
        vals.len() == points.len(),
        forall|j: int| 0 <= j < points.len() ==> (#[trigger] points[j]).len() == r.len(),
        forall|j: int|
            0 <= j < points.len() ==> #[trigger] vals[j] == multilinear::mle(s, points[j]),
        s.len() == pow2(r.len()),
        algebra::all_valid(s),
    ensures
        identities::dot(s, tables::combined_eq(points, gamma)) == tables::horner_value(
            vals,
            gamma,
        ),
        multilinear::mle(tables::combined_eq(points, gamma), r) == tables::combined_eq_value(
            points,
            gamma,
            r,
        ),
        tables::combined_eq(points, gamma).len() == s.len(),
        algebra::all_valid(tables::combined_eq(points, gamma)),
{
    let g = tables::combined_eq(points, gamma);
    let n = s.len();
    let m = points.len();
    assert(points[0].len() == r.len());
    let es = Seq::new(m, |j: int| multilinear::eq_table(points[j]));
    let ws = Seq::new(m, |j: int| domain::pow(gamma, j as nat));
    assert forall|j: int| 0 <= j < m implies (#[trigger] es[j]).len() == n by {
        assert(points[j].len() == r.len());
        multilinear::lemma_eq_table_len(points[j]);
    }
    let combo = Seq::new(n, |k: int| algebra::sum(m, |j: int| ws[j] * es[j][k]));
    assert forall|k: int| 0 <= k < n implies #[trigger] combo[k] == g[k] by {
        let p = |j: int| ws[j] * es[j][k];
        let q = |j: int|
            domain::pow(gamma, j as nat) * multilinear::eq_table(points[j])[k];
        algebra::sum_ext(m, p, q);
    }
    assert(combo =~= g);
    assert forall|k: int| 0 <= k < n implies (#[trigger] g[k]).valid() by {
        algebra::sum_valid(m, |j: int| ws[j] * es[j][k]);
        assert(combo[k] == g[k]);
    }
    basefold::lemma_mle_combination(es, ws, m, r);
    let u = |j: int| ws[j] * multilinear::mle(es[j], r);
    let v = |j: int| domain::pow(gamma, j as nat) * multilinear::eq_value(points[j], r);
    assert forall|j: int| 0 <= j < m implies #[trigger] u(j) == v(j) by {
        assert(points[j].len() == r.len());
        multilinear::lemma_mle_eq_table(points[j], r);
    }
    algebra::sum_ext(m, u, v);
    // the claim
    let a = |j: int| ws[j];
    let b = |i: int| s[i];
    let mat = |j: int, i: int| es[j][i];
    identities::lemma_assoc(m, n, a, b, mat);
    let left = |j: int| a(j) * algebra::sum(n, |i: int| mat(j, i) * b(i));
    let want = |j: int| domain::pow(gamma, j as nat) * vals[j];
    assert(algebra::all_valid(vals)) by {
        assert forall|j: int| 0 <= j < vals.len() implies (#[trigger] vals[j]).valid() by {
            assert(points[j].len() == r.len());
            assert(vals[j] == multilinear::mle(s, points[j]));
            identities::lemma_mle_valid(s, points[j]);
        }
    }
    assert forall|j: int| 0 <= j < m implies #[trigger] left(j) == want(j) by {
        assert(points[j].len() == r.len());
        assert(vals[j] == multilinear::mle(s, points[j]));
        assert(es[j].len() == n);
        identities::lemma_mle_dot(s, points[j]);
        let p = |i: int| mat(j, i) * b(i);
        let q = |i: int| es[j][i] * s[i];
        algebra::sum_ext(n, p, q);
    }
    algebra::sum_ext(m, left, want);
    lemma_horner_sum(vals, gamma);
    let right = |i: int| algebra::sum(m, |j: int| a(j) * mat(j, i)) * b(i);
    let have = |i: int| s[i] * g[i];
    assert forall|i: int| 0 <= i < n implies #[trigger] right(i) == have(i) by {
        let p = |j: int| a(j) * mat(j, i);
        let q = |j: int| ws[j] * es[j][i];
        algebra::sum_ext(m, p, q);
        assert(combo[i] == g[i]);
        GoldilocksExt2::law_mul_comm(g[i], s[i]);
    }
    algebra::sum_ext(n, right, have);
}

/// The lengths and the canonicity of an opening's challenges.
pub open spec fn draws_shape(d: Draws, log_m: nat, log_n: nat) -> bool {
    &&& d.idx.len() == NUM_COLS_OPENED
    &&& tables::distinct(d.idx)
    &&& leaves::below(d.idx, pow2(log_n + 1) as int)
    &&& d.alpha1.len() == 13 + log_m
    &&& d.alpha2.len() == 5
    &&& d.bin.len() == 13 + log_m
    &&& d.r2.len() == 7
    &&& d.hash.len() == 6 + log_m
    &&& d.recon.len() == 6 + log_m
    &&& d.table.len() == log_n + 1
    &&& d.rs.len() == log_n
    &&& d.bi.len() == 13 + log_m
    &&& d.a.len() == log_n
    &&& d.coeffs.len() == 3
    &&& d.folds.len() == super::fold_count(log_m, log_n)
    &&& algebra::all_valid(d.alpha1)
    &&& algebra::all_valid(d.alpha2)
    &&& algebra::all_valid(d.bin)
    &&& algebra::all_valid(d.r2)
    &&& algebra::all_valid(d.hash)
    &&& algebra::all_valid(d.recon)
    &&& algebra::all_valid(d.table)
    &&& algebra::all_valid(d.rs)
    &&& algebra::all_valid(d.bi)
    &&& algebra::all_valid(d.a)
}

/// A part of a canonical tape is canonical.
proof fn lemma_part_valid(tape: Seq<GoldilocksExt2>, at: nat, len: nat)
    requires
        algebra::all_valid(tape),
        at + len <= tape.len(),
    ensures
        algebra::all_valid(opening::part(tape, at, len)),
        opening::part(tape, at, len).len() == len,
{
    let p = opening::part(tape, at, len);
    assert forall|i: int| 0 <= i < p.len() implies (#[trigger] p[i]).valid() by {
        assert(tape[at + i].valid());
    }
}

/// The challenges read from a canonical tape have their shape.
proof fn lemma_draws_shape(
    log_m: nat,
    log_n: nat,
    tape: Seq<GoldilocksExt2>,
    ints: Seq<usize>,
    half: int,
)
    requires
        super::supported(log_m, log_n),
        algebra::all_valid(tape),
        tape.len() == Counts::of_shape(log_m, log_n).total(log_m),
        super::enough_columns(ints.take(COLUMN_DRAWS as int), pow2(log_n + 1) as int),
    ensures
        draws_shape(
            opening::draws(log_m, log_n, Counts::of_shape(log_m, log_n), tape, ints, half),
            log_m,
            log_n,
        ),
{
    let c = Counts::of_shape(log_m, log_n);
    let o2 = 18 + log_m + c.bin;
    let o3 = o2 + 7;
    let o4 = o3 + c.hash;
    let o5 = o4 + c.recon;
    let o6 = o5 + c.table;
    let o7 = o6 + c.rs;
    let o8 = o7 + 1 + c.bi;
    let o9 = o8 + 1 + c.a;
    lemma_part_valid(tape, 0, 13 + log_m);
    lemma_part_valid(tape, 13 + log_m, 5);
    lemma_part_valid(tape, 18 + log_m, c.bin);
    lemma_part_valid(tape, o2, 7);
    lemma_part_valid(tape, o3, c.hash);
    lemma_part_valid(tape, o4, c.recon);
    lemma_part_valid(tape, o5, c.table);
    lemma_part_valid(tape, o6, c.rs);
    lemma_part_valid(tape, o7 + 1, c.bi);
    lemma_part_valid(tape, o8 + 1, c.a);
    lemma_part_valid(tape, o9, 3);
    lemma_part_valid(tape, o9 + 3, c.folds);
    let raw = ints.take(COLUMN_DRAWS as int);
    let two_n = pow2(log_n + 1) as int;
    vstd::arithmetic::power2::lemma_pow2_pos(log_n + 1);
    super::lemma_residues(raw, two_n);
    let idx = super::drawn_columns(raw, two_n);
    let all = super::residues(raw, two_n);
    assert forall|i: int, j: int| 0 <= i < j < idx.len() implies idx[i] != idx[j] by {
        assert(all[i] != all[j]);
    }
    assert forall|i: int| 0 <= i < idx.len() implies #[trigger] idx[i] < two_n by {
        assert(all[i] < two_n);
    }
}

/// Everything that the completeness proof knows about a witness.
pub open spec fn witness_shape(w: Witness) -> bool {
    &&& super::supported(w.log_m, w.log_n)
    &&& w.f.len() == pow2(w.log_m + w.log_n)
    &&& algebra::all_valid(w.f)
    &&& w.z.len() == w.log_m + w.log_n
    &&& w.rows.len() == 32
    &&& forall|r: int| 0 <= r < w.rows.len() ==> (#[trigger] w.rows[r]).len() == w.width()
    &&& forall|r: int| 0 <= r < w.rows.len() ==> algebra::all_valid(#[trigger] w.rows[r])
}

/// The tables of a witness have their lengths and are canonical.
proof fn lemma_tables(w: Witness, d: Draws)
    requires
        witness_shape(w),
        draws_shape(d, w.log_m, w.log_n),
    ensures
        w.a_vec().len() == pow2(w.log_n),
        algebra::all_valid(w.a_vec()),
        w.ra().len() == pow2(w.log_n + 1),
        algebra::all_valid(w.ra()),
        w.bi(d).len() == pow2(13 + w.log_m),
        w.bi_ext(d).len() == pow2(13 + w.log_m),
        algebra::all_valid(w.bi_ext(d)),
        algebra::all_valid(w.bi_minus(d)),
        w.g1(d).len() == pow2(6 + w.log_m),
        algebra::all_valid(w.g1(d)),
        w.g2(d).len() == pow2(6 + w.log_m),
        algebra::all_valid(w.g2(d)),
        w.v().len() == pow2(6 + w.log_m),
        algebra::all_valid(w.v()),
        w.w(d).len() == pow2(w.log_n),
        algebra::all_valid(w.w(d)),
        w.eqz1().len() == pow2(w.log_m),
        multilinear::eq_table(d.r2).len() == 128,
        algebra::all_valid(multilinear::eq_table(d.r2)),
        multilinear::eq_table(d.alpha1).len() == pow2(13 + w.log_m),
        algebra::all_valid(multilinear::eq_table(d.alpha1)),
        multilinear::eq_table(d.alpha2).len() == 32,
        forall|i: int|
            0 <= i < w.bi_ext(d).len() ==> #[trigger] w.bi_ext(d)[i] == GoldilocksExt2::zero()
                || w.bi_ext(d)[i] == GoldilocksExt2::one(),
{
    let (log_m, log_n) = (w.log_m, w.log_n);
    opening::lemma_sizes(log_m, log_n);
    super::lemma_width(log_m);
    let z1 = w.z.skip(log_n as int);
    multilinear::lemma_eq_table_len(z1);
    multilinear::lemma_eq_table_len(d.r2);
    multilinear::lemma_eq_table_valid(d.r2);
    multilinear::lemma_eq_table_len(d.alpha1);
    multilinear::lemma_eq_table_valid(d.alpha1);
    multilinear::lemma_eq_table_len(d.alpha2);
    let a_vec = w.a_vec();
    assert forall|j: int| 0 <= j < a_vec.len() implies (#[trigger] a_vec[j]).valid() by {
        algebra::sum_valid(
            pow2(log_m),
            |i: int| w.eqz1()[i] * w.f[i * pow2(log_n) + j].lift(),
        );
    }
    let r3 = d.table.reverse();
    identities::lemma_rs_link(a_vec, r3, log_n + 1);
    let bi = w.bi(d);
    let be = w.bi_ext(d);
    assert(bi.len() == w.width() * 128);
    assert forall|i: int| 0 <= i < be.len() implies (#[trigger] be[i]).valid() && (be[i]
        == GoldilocksExt2::zero() || be[i] == GoldilocksExt2::one()) by {
        let x = w.bits()[d.idx[i % d.idx.len() as int] as int][i / d.idx.len() as int];
        identities::lemma_lift_bit(x);
    }
    let bm = w.bi_minus(d);
    assert forall|i: int| 0 <= i < bm.len() implies (#[trigger] bm[i]).valid() by {
        GoldilocksExt2::law_valid(be[i], GoldilocksExt2::one());
    }
    let (g1, g2, v) = (w.g1(d), w.g2(d), w.v());
    assert forall|i: int| 0 <= i < g1.len() implies (#[trigger] g1[i]).valid() by {
        algebra::sum_valid(
            w.rows.len(),
            |r: int| multilinear::eq_table(d.alpha2)[r] * w.rows[r][i].lift(),
        );
    }
    assert forall|i: int| 0 <= i < g2.len() implies (#[trigger] g2[i]).valid() by {
        algebra::sum_valid(
            d.idx.len(),
            |k: int|
                subset_sum::gated(
                    w.bits()[d.idx[k] as int][i],
                    multilinear::eq_table(d.r2)[k],
                ),
        );
    }
    assert forall|i: int| 0 <= i < v.len() implies (#[trigger] v[i]).valid() by {
        GoldilocksExt2::law_valid(
            w.eqz1()[i / ETA as int],
            Goldilocks::embed(pow2((i % ETA as int) as nat) as int).lift(),
        );
    }
    let ww = w.w(d);
    assert forall|k: int| 0 <= k < ww.len() implies (#[trigger] ww[k]).valid() by {
        algebra::prod_valid(log_n + 1, |t: int| tables::rs_factor(r3, log_n + 1, k, t));
    }
}

/// The five public sumchecks of an honest opening pass.
#[verifier::rlimit(40)]
proof fn lemma_checks(
    proof: LigesisProof<Goldilocks, GoldilocksExt2>,
    w: Witness,
    tree: Seq<Seq<u8>>,
    d: Draws,
)
    requires
        witness_shape(w),
        draws_shape(d, w.log_m, w.log_n),
        opening::honest_parts(proof, w, tree, d),
    ensures
        proof.checks_accepted(w.log_m, w.log_n, w.z, d),
        proof.sc_binary.round_polys@.len() == 13 + w.log_m,
        proof.sc_hash.round_polys@.len() == 6 + w.log_m,
        proof.sc_recon.round_polys@.len() == 6 + w.log_m,
        proof.sc_table.round_polys@.len() == w.log_n + 1,
        proof.sc_rslink.round_polys@.len() == w.log_n,
        proof.sc_binary.final_evals@[0] == multilinear::mle(w.bi_ext(d), d.bin.reverse()),
        proof.sc_hash.final_evals@[0] == multilinear::mle(w.g1(d), d.hash.reverse()),
        proof.sc_hash.final_evals@[1] == multilinear::mle(w.g2(d), d.hash.reverse()),
        proof.sc_recon.final_evals@[1] == multilinear::mle(w.g2(d), d.recon.reverse()),
        proof.sc_rslink.final_evals@[0] == multilinear::mle(w.a_vec(), d.rs.reverse()),
{
    let (log_m, log_n) = (w.log_m, w.log_n);
    lemma_tables(w, d);
    opening::lemma_sizes(log_m, log_n);
    super::lemma_width(log_m);
    let e2 = multilinear::eq_table(d.r2);
    let e1 = multilinear::eq_table(d.alpha1);
    let be = w.bi_ext(d);
    // binary
    let factors = seq![be, w.bi_minus(d), e1];
    assert(factors[0] == be && factors[1] == w.bi_minus(d) && factors[2] == e1);
    lemma_sumcheck(proof.sc_binary, factors, d.bin);
    identities::lemma_binary_sum(be, e1);
    identities::lemma_mle_minus_one(be, d.bin.reverse());
    multilinear::lemma_mle_eq_table(d.alpha1, d.bin.reverse());
    // hash
    lemma_product_sumcheck(proof.sc_hash, w.g1(d), w.g2(d), d.hash);
    lemma_hash_claim(proof, w, d);
    // reconstruction
    lemma_product_sumcheck(proof.sc_recon, w.v(), w.g2(d), d.recon);
    identities::lemma_columns_dot(w.v(), w.bits(), d.idx, e2);
    let f = |k: int| e2[k] * identities::column_dot(w.v(), w.bits()[d.idx[k] as int]);
    let g = |k: int| e2[k] * w.ra()[d.idx[k] as int];
    assert forall|k: int| 0 <= k < d.idx.len() implies #[trigger] f(k) == g(k) by {
        let j = d.idx[k] as int;
        assert(d.idx[k] < pow2(log_n + 1));
        assert(w.bits()[j] == super::bit_column(w.f, log_m, log_n, j));
        identities::lemma_recon_column(w.f, w.eqz1(), log_m, log_n, j);
    }
    algebra::sum_ext(d.idx.len(), f, g);
    assert(identities::dot(w.v(), w.g2(d)) == w.y4(d));
    // table
    lemma_selector_dot(d.idx, e2, w.ra());
    lemma_product_sumcheck(proof.sc_table, w.sel(d), w.ra(), d.table);
    // encoding
    identities::lemma_rs_link(w.a_vec(), d.table.reverse(), log_n + 1);
    lemma_product_sumcheck(proof.sc_rslink, w.a_vec(), w.w(d), d.rs);
}

/// The hash claim read off the opened columns is the one proved.
proof fn lemma_hash_claim(
    proof: LigesisProof<Goldilocks, GoldilocksExt2>,
    w: Witness,
    d: Draws,
)
    requires
        witness_shape(w),
        draws_shape(d, w.log_m, w.log_n),
        views::nested(proof.h_cols@) == w.h_cols(d),
    ensures
        proof.hash_claim(d) == identities::dot(w.g1(d), w.g2(d)),
{
    let (log_m, log_n) = (w.log_m, w.log_n);
    lemma_tables(w, d);
    super::lemma_width(log_m);
    let e2 = multilinear::eq_table(d.r2);
    let ea = multilinear::eq_table(d.alpha2);
    let sorted = leaves::sorted_distinct(d.idx);
    opening::lemma_sorted_length(d.idx, pow2(log_n + 1) as int);
    identities::lemma_columns_dot(w.g1(d), w.bits(), d.idx, e2);
    let f = |k: int| e2[k] * identities::column_dot(w.g1(d), w.bits()[d.idx[k] as int]);
    let cols = w.h_cols(d);
    let g = |k: int|
        e2[k] * basefold::compress_leaf(cols[sorted.index_of(d.idx[k])], ea);
    assert forall|k: int| 0 <= k < d.idx.len() implies #[trigger] f(k) == g(k) by {
        let j = d.idx[k] as int;
        assert(d.idx[k] < pow2(log_n + 1));
        let x = w.bits()[j];
        assert(x == super::bit_column(w.f, log_m, log_n, j));
        identities::lemma_hash_column(w.rows, ea, x);
        assert(d.idx.contains(d.idx[k]));
        assert(sorted.contains(d.idx[k]));
        let p = sorted.index_of(d.idx[k]);
        assert(sorted[p] == d.idx[k]);
        assert(cols[p] == subset_sum::digest(w.rows, x));
    }
    algebra::sum_ext(d.idx.len(), f, g);
}

/// The opened bits at a point whose low part is `r2`.
proof fn lemma_bits_point(w: Witness, d: Draws, high: Seq<GoldilocksExt2>)
    requires
        witness_shape(w),
        draws_shape(d, w.log_m, w.log_n),
        high.len() == 6 + w.log_m,
    ensures
        multilinear::mle(w.bi_ext(d), d.r2 + high) == multilinear::mle(w.g2(d), high),
{
    lemma_tables(w, d);
    super::lemma_width(w.log_m);
    let s = d.idx.len();
    let width = w.width();
    let e2 = multilinear::eq_table(d.r2);
    vstd::arithmetic::power2::lemma2_to64();
    let rows = Seq::new(
        width,
        |i: int|
            Seq::new(s, |k: int| identities::ext_bit(w.bits()[d.idx[k] as int][i])),
    );
    let flat = subset_sum::flat_rows(rows, s);
    let be = w.bi_ext(d);
    assert(flat.len() == be.len());
    assert forall|t: int| 0 <= t < be.len() implies #[trigger] be[t] == flat[t] by {
        vstd::arithmetic::div_mod::lemma_fundamental_div_mod(t, s as int);
        let (i, k) = (t / s as int, t % s as int);
        assert(0 <= i < width) by (nonlinear_arith)
            requires
                t == s * i + k,
                0 <= t < width * s,
                0 <= k < s,
        ;
        identities::lemma_lift_bit(w.bits()[d.idx[k] as int][i]);
    }
    assert(be =~= flat);
    subset_sum::law_flat_eval(rows, d.r2, high);
    let values = Seq::new(rows.len(), |i: int| multilinear::mle(rows[i], d.r2));
    let g2 = w.g2(d);
    assert forall|i: int| 0 <= i < width implies #[trigger] values[i] == g2[i] by {
        let row = rows[i];
        assert(algebra::all_valid(row)) by {
            assert forall|k: int| 0 <= k < row.len() implies (#[trigger] row[k]).valid() by {
                identities::lemma_lift_bit(w.bits()[d.idx[k] as int][i]);
            }
        }
        identities::lemma_mle_dot(row, d.r2);
        identities::lemma_folded_bits(w.bits(), d.idx, e2, width, i);
        let f = |k: int| e2[k] * row[k];
        let g = |k: int| e2[k] * identities::ext_bit(w.bits()[d.idx[k] as int][i]);
        algebra::sum_ext(s, f, g);
    }
    assert(values =~= g2);
}

/// The hash matrix at the opened point.
proof fn lemma_matrix_point(w: Witness, d: Draws)
    requires
        witness_shape(w),
        draws_shape(d, w.log_m, w.log_n),
    ensures
        multilinear::mle(
            domain::lift_all(subset_sum::flat_rows(w.rows, w.width())),
            opening::point_a(d),
        ) == multilinear::mle(w.g1(d), d.hash.reverse()),
{
    super::lemma_width(w.log_m);
    vstd::arithmetic::power2::lemma2_to64();
    let width = w.width();
    let col = d.hash.reverse();
    let lifted = Seq::new(w.rows.len(), |r: int| domain::lift_all(w.rows[r]));
    let a = domain::lift_all(subset_sum::flat_rows(w.rows, width));
    let b = subset_sum::flat_rows(lifted, width);
    assert(a.len() == b.len());
    assert forall|t: int| 0 <= t < a.len() implies #[trigger] a[t] == b[t] by {
        vstd::arithmetic::div_mod::lemma_fundamental_div_mod(t, width as int);
        let (i, k) = (t / width as int, t % width as int);
        vstd::arithmetic::power2::lemma_pow2_pos(6 + w.log_m);
        assert(0 <= i < 32) by (nonlinear_arith)
            requires
                t == width * i + k,
                0 <= t < 32 * width,
                0 <= k < width,
        ;
        assert(w.rows[i].len() == width);
    }
    assert(a =~= b);
    assert forall|r: int| 0 <= r < lifted.len() implies (#[trigger] lifted[r]).len() == pow2(
        col.len(),
    ) by {
        assert(w.rows[r].len() == width);
    }
    assert forall|r: int| 0 <= r < lifted.len() implies algebra::all_valid(
        #[trigger] lifted[r],
    ) by {
        let row = w.rows[r];
        assert(algebra::all_valid(row));
        assert forall|i: int| 0 <= i < lifted[r].len() implies (#[trigger] lifted[r][i]).valid() by {
            assert(row[i].valid());
            domain::lemma_up(row[i], row[i]);
        }
    }
    identities::lemma_rows_eval(lifted, col, d.alpha2);
    let combo = identities::combination(lifted, multilinear::eq_table(d.alpha2), width);
    let g1 = w.g1(d);
    assert forall|i: int| 0 <= i < width implies #[trigger] combo[i] == g1[i] by {
        let f = |r: int| multilinear::eq_table(d.alpha2)[r] * lifted[r][i];
        let g = |r: int| multilinear::eq_table(d.alpha2)[r] * w.rows[r][i].lift();
        assert forall|r: int| 0 <= r < w.rows.len() implies #[trigger] f(r) == g(r) by {
            assert(w.rows[r].len() == width);
        }
        algebra::sum_ext(w.rows.len(), f, g);
    }
    assert(combo =~= g1);
}

/// The combined row's value is the committed polynomial's.
proof fn lemma_claimed_value(w: Witness)
    requires
        witness_shape(w),
    ensures
        multilinear::mle(w.a_vec(), w.z2()) == multilinear::mle(domain::lift_all(w.f), w.z),
{
    let (log_m, log_n) = (w.log_m, w.log_n);
    let (m, n) = (pow2(log_m), pow2(log_n));
    opening::lemma_sizes(log_m, log_n);
    let rows = Seq::new(m, |i: int| domain::lift_all(tables::row_of(w.f, n, i)));
    let a = domain::lift_all(w.f);
    let b = subset_sum::flat_rows(rows, n);
    assert(a.len() == b.len());
    assert forall|t: int| 0 <= t < a.len() implies #[trigger] a[t] == b[t] by {
        vstd::arithmetic::div_mod::lemma_fundamental_div_mod(t, n as int);
        let (i, k) = (t / n as int, t % n as int);
        assert(0 <= i < m) by (nonlinear_arith)
            requires
                t == n * i + k,
                0 <= t < m * n,
                0 <= k < n,
        ;
        assert(i * n + k == t) by (nonlinear_arith)
            requires
                t == n * i + k,
        ;
    }
    assert(a =~= b);
    assert forall|r: int| 0 <= r < rows.len() implies algebra::all_valid(#[trigger] rows[r]) by {
        assert forall|j: int| 0 <= j < rows[r].len() implies (#[trigger] rows[r][j]).valid() by {
            assert(0 <= r * n + j < m * n) by (nonlinear_arith)
                requires
                    0 <= r < m,
                    0 <= j < n,
            ;
            assert(w.f[r * n + j].valid());
            domain::lemma_up(w.f[r * n + j], w.f[r * n + j]);
        }
    }
    let z1 = w.z.skip(log_n as int);
    assert(w.z2() + z1 =~= w.z);
    identities::lemma_rows_eval(rows, w.z2(), z1);
    let combo = identities::combination(rows, w.eqz1(), n);
    let a_vec = w.a_vec();
    assert forall|j: int| 0 <= j < n implies #[trigger] combo[j] == a_vec[j] by {
        let f = |i: int| w.eqz1()[i] * rows[i][j];
        let g = |i: int| w.eqz1()[i] * w.f[i * n + j].lift();
        algebra::sum_ext(m, f, g);
    }
    assert(combo =~= a_vec);
}

/// The reductions to one point of an honest opening pass.
proof fn lemma_batches(
    proof: LigesisProof<Goldilocks, GoldilocksExt2>,
    w: Witness,
    tree: Seq<Seq<u8>>,
    d: Draws,
)
    requires
        witness_shape(w),
        draws_shape(d, w.log_m, w.log_n),
        opening::honest_parts(proof, w, tree, d),
    ensures
        proof.batches_accepted(w.z2(), d),
        proof.sc_bi_batch.round_polys@.len() == 13 + w.log_m,
        proof.sc_a_batch.round_polys@.len() == w.log_n,
        proof.sc_bi_batch.final_evals@[0] == multilinear::mle(w.bi_ext(d), d.bi.reverse()),
        proof.sc_a_batch.final_evals@[0] == multilinear::mle(w.a_vec(), d.a.reverse()),
{
    lemma_checks(proof, w, tree, d);
    lemma_tables(w, d);
    let be = w.bi_ext(d);
    let pts = opening::points_bi(d);
    let vals = seq![
        proof.sc_binary.final_evals@[0],
        proof.sc_hash.final_evals@[1],
        proof.sc_recon.final_evals@[1],
    ];
    lemma_bits_point(w, d, d.hash.reverse());
    lemma_bits_point(w, d, d.recon.reverse());
    assert(pts[0].len() == 13 + w.log_m && pts[1].len() == 13 + w.log_m && pts[2].len() == 13
        + w.log_m);
    assert forall|j: int| 0 <= j < pts.len() implies #[trigger] vals[j] == multilinear::mle(
        be,
        pts[j],
    ) by {
        if j == 0 {
        } else if j == 1 {
        } else {
        }
    }
    lemma_batched_points(be, pts, d.gamma_bi, vals, d.bi.reverse());
    lemma_product_sumcheck(
        proof.sc_bi_batch,
        be,
        tables::combined_eq(pts, d.gamma_bi),
        d.bi,
    );
    let a_vec = w.a_vec();
    let apts = opening::points_a(w.z2(), d);
    let avals = seq![proof.y, proof.sc_rslink.final_evals@[0]];
    assert(apts[0].len() == w.log_n && apts[1].len() == w.log_n);
    assert forall|j: int| 0 <= j < apts.len() implies #[trigger] avals[j] == multilinear::mle(
        a_vec,
        apts[j],
    ) by {
        if j == 0 {
        } else {
        }
    }
    lemma_batched_points(a_vec, apts, d.gamma_a, avals, d.a.reverse());
    lemma_product_sumcheck(
        proof.sc_a_batch,
        a_vec,
        tables::combined_eq(apts, d.gamma_a),
        d.a,
    );
}

/// The opened digest columns of an honest opening are accepted.
proof fn lemma_columns(
    proof: LigesisProof<Goldilocks, GoldilocksExt2>,
    w: Witness,
    tree: Seq<Seq<u8>>,
    d: Draws,
)
    requires
        witness_shape(w),
        draws_shape(d, w.log_m, w.log_n),
        opening::honest_parts(proof, w, tree, d),
        tree == merkle::leaf_digests(
            super::columns_bytes(super::digest_columns(w.rows, w.bits())),
        ),
    ensures
        proof.columns_accepted(merkle::merkle_root(tree), w.log_n, d),
{
    let sorted = leaves::sorted_distinct(d.idx);
    opening::lemma_sorted_length(d.idx, pow2(w.log_n + 1) as int);
    let cols = views::nested(proof.h_cols@);
    assert(cols.len() == proof.h_cols@.len());
    let all = super::digest_columns(w.rows, w.bits());
    assert forall|i: int| 0 <= i < cols.len() implies cols[i].len() == 32 && #[trigger] cols[i]
        == all[sorted[i] as int] by {
    }
    assert forall|i: int| 0 <= i < proof.h_cols@.len() implies (#[trigger] proof.h_cols@[i])@.len()
        == 32 by {
        assert(cols[i] == proof.h_cols@[i]@);
    }
    let got = merkle::leaf_digests(super::columns_bytes(cols));
    let want = merkle::select(tree, sorted);
    assert forall|i: int| 0 <= i < got.len() implies #[trigger] got[i] == want[i] by {
        assert(sorted[i] < pow2(w.log_n + 1));
        assert(cols[i] == all[sorted[i] as int]);
    }
    assert(got =~= want);
}

/// The coordinates that the shared opening divides by do not vanish.
pub open spec fn divisible(d: Draws, log_m: nat, log_n: nat) -> bool {
    &&& forall|k: int|
        super::layers(11 + log_m, log_m, log_n) <= k < 11 + log_m ==> #[trigger] opening::point_a(
            d,
        )[k] != GoldilocksExt2::zero()
    &&& forall|k: int|
        super::layers(13 + log_m, log_m, log_n) <= k < 13 + log_m
            ==> #[trigger] d.bi.reverse()[k] != GoldilocksExt2::zero()
    &&& forall|k: int|
        super::layers(log_n, log_m, log_n) <= k < log_n ==> #[trigger] d.a.reverse()[k]
            != GoldilocksExt2::zero()
}

/// The shared opening of an honest proof is complete and accepted.
proof fn lemma_shared(
    proof: LigesisProof<Goldilocks, GoldilocksExt2>,
    w: Witness,
    tree: Seq<Seq<u8>>,
    d: Draws,
    pk: ProvingKey<Goldilocks, GoldilocksExt2>,
)
    requires
        pk.wf(),
        super::supported(pk.log_m as nat, pk.log_n as nat),
        w.rows == pk.hash.rows(),
        w.log_m == pk.log_m,
        w.log_n == pk.log_n,
        witness_shape(w),
        draws_shape(d, w.log_m, w.log_n),
        opening::honest(proof, w, tree, d, pk.a_state),
        divisible(d, w.log_m, w.log_n),
    ensures
        proof.batch.complete(2, proof.claims(pk.com_a@, w.log_m, w.log_n, d), d.base),
        proof.batch.accepted(
            2,
            proof.claims(pk.com_a@, w.log_m, w.log_n, d),
            d.coeffs,
            d.folds,
            d.base,
        ),
        proof.batch.rounds() == d.folds.len(),
        proof.batch.code_rate == 1,
        proof.batch.log_len == d.folds.len() + 1,
{
    let (log_m, log_n) = (w.log_m, w.log_n);
    let (bf, ef) = choose|
        bf: Seq<(&BasefoldProverState<Goldilocks, GoldilocksExt2>, Vec<GoldilocksExt2>)>,
        ef: Seq<(&BasefoldProverState<GoldilocksExt2, GoldilocksExt2>, Vec<GoldilocksExt2>)>,
    |
        #[trigger] opening::honest_opening(proof, w, d, bf, ef, pk.a_state);
    lemma_tables(w, d);
    lemma_batches(proof, w, tree, d);
    lemma_checks(proof, w, tree, d);
    lemma_matrix_point(w, d);
    opening::lemma_sizes(log_m, log_n);
    opening::lemma_flat_len(pk);
    poly::lemma_exponent(11 + log_m);
    poly::lemma_exponent(13 + log_m);
    poly::lemma_exponent(log_n);
    let rate = CODE_RATE as nat;
    let a = (d.folds.len() + 1) as nat;
    assert(basefold::task_fits(*bf[0].0, bf[0].1@, a, rate));
    assert(basefold::task_fits(*bf[1].0, bf[1].1@, a, rate));
    assert(basefold::task_fits(*ef[0].0, ef[0].1@, a, rate));
    assert(basefold::batch_fits(bf, ef, a, rate));
    let claims = proof.claims(pk.com_a@, log_m, log_n, d);
    let want = basefold::true_claims(bf, ef);
    assert(w.width() == pk.hash.width);
    assert(want[0] == basefold::task_claim(*bf[0].0, bf[0].1@));
    assert(want[1] == basefold::task_claim(*bf[1].0, bf[1].1@));
    assert(want[2] == basefold::task_claim(*ef[0].0, ef[0].1@));
    assert(domain::lift_all(w.a_vec()) =~= w.a_vec());
    assert(claims[0] == want[0]);
    assert(claims[1] == want[1]);
    assert(claims[2] == want[2]);
    assert(claims =~= want);
    assert forall|c: int| 0 <= c < 3 implies algebra::all_valid((#[trigger] want[c]).point) by {
        lemma_reverse_valid(d.hash);
        lemma_reverse_valid(d.bi);
        lemma_reverse_valid(d.a);
        if c == 0 {
            let p = opening::point_a(d);
            assert forall|i: int| 0 <= i < p.len() implies (#[trigger] p[i]).valid() by {
                if i < d.hash.len() {
                    assert(d.hash.reverse()[i].valid());
                } else {
                    assert(d.alpha2[i - d.hash.len()].valid());
                }
            }
        } else if c == 1 {
        } else {
        }
    }
    assert forall|c: int, k: int|
        0 <= c < 3 && want[c].li <= k < want[c].point.len() implies #[trigger] want[c].point[k]
        != GoldilocksExt2::zero() by {
        if c == 0 {
            assert(opening::point_a(d)[k] != GoldilocksExt2::zero());
        } else if c == 1 {
            assert(d.bi.reverse()[k] != GoldilocksExt2::zero());
        } else {
            assert(d.a.reverse()[k] != GoldilocksExt2::zero());
        }
    }
    basefold::law_batch_complete(proof.batch, bf, ef, d.coeffs, d.folds, d.base);
}

proof fn lemma_reverse_valid(s: Seq<GoldilocksExt2>)
    requires
        algebra::all_valid(s),
    ensures
        algebra::all_valid(s.reverse()),
{
    let r = s.reverse();
    assert forall|i: int| 0 <= i < r.len() implies (#[trigger] r[i]).valid() by {
        assert(s[s.len() - 1 - i].valid());
    }
}

/// What the prover opens with its keys and its commitment has the shape of an opening.
proof fn lemma_witness_shape(
    pk: ProvingKey<Goldilocks, GoldilocksExt2>,
    data: CommitData<Goldilocks, GoldilocksExt2>,
    z: Seq<GoldilocksExt2>,
)
    requires
        pk.wf(),
        super::supported(pk.log_m as nat, pk.log_n as nat),
        data.wf(pk),
        algebra::all_valid(data.values()),
        z.len() == pk.log_m + pk.log_n,
    ensures
        witness_shape(
            (Witness {
                rows: pk.hash.rows(),
                f: data.values(),
                log_m: pk.log_m as nat,
                log_n: pk.log_n as nat,
                z,
            }),
        ),
{
    let (log_m, log_n) = (pk.log_m as nat, pk.log_n as nat);
    let w = Witness { rows: pk.hash.rows(), f: data.values(), log_m, log_n, z };
    assert forall|r: int| 0 <= r < w.rows.len() implies (#[trigger] w.rows[r]).len()
        == w.width() by {
        assert(pk.hash.a@[r]@.len() == pk.hash.width);
    }
    assert forall|r: int| 0 <= r < w.rows.len() implies algebra::all_valid(
        #[trigger] w.rows[r],
    ) by {
        assert(algebra::all_valid(pk.hash.a@[r]@));
    }
}

/// The value that an opening made by the prover claims is the committed polynomial's
/// at the point, whatever challenges the prover read.
pub proof fn law_claimed_value(
    proof: LigesisProof<Goldilocks, GoldilocksExt2>,
    pk: ProvingKey<Goldilocks, GoldilocksExt2>,
    data: CommitData<Goldilocks, GoldilocksExt2>,
    z: Seq<GoldilocksExt2>,
    d: Draws,
)
    requires
        pk.wf(),
        super::supported(pk.log_m as nat, pk.log_n as nat),
        data.wf(pk),
        algebra::all_valid(data.values()),
        z.len() == pk.log_m + pk.log_n,
        ({
            let (log_m, log_n) = (pk.log_m as nat, pk.log_n as nat);
            let w = Witness { rows: pk.hash.rows(), f: data.values(), log_m, log_n, z };
            opening::honest(proof, w, data.tree(), d, pk.a_state)
        }),
    ensures
        proof.y == multilinear::mle(domain::lift_all(data.values()), z),
{
    let (log_m, log_n) = (pk.log_m as nat, pk.log_n as nat);
    let w = Witness { rows: pk.hash.rows(), f: data.values(), log_m, log_n, z };
    lemma_witness_shape(pk, data, z);
    lemma_claimed_value(w);
}

/// Completeness: an opening made by the prover asks for exactly the challenges that
/// the prover read, is complete and accepted under the committed root, and claims
/// the value of the committed polynomial. The coordinates that the shared opening
/// divides by must not vanish.
pub proof fn law_complete(
    proof: LigesisProof<Goldilocks, GoldilocksExt2>,
    pk: ProvingKey<Goldilocks, GoldilocksExt2>,
    data: CommitData<Goldilocks, GoldilocksExt2>,
    z: Seq<GoldilocksExt2>,
    tape: Seq<GoldilocksExt2>,
    ints: Seq<usize>,
)
    requires
        pk.wf(),
        super::supported(pk.log_m as nat, pk.log_n as nat),
        data.wf(pk),
        algebra::all_valid(data.values()),
        z.len() == pk.log_m + pk.log_n,
        algebra::all_valid(tape),
        tape.len() == Counts::of_shape(pk.log_m as nat, pk.log_n as nat).total(pk.log_m as nat),
        super::enough_columns(
            ints.take(COLUMN_DRAWS as int),
            pow2((pk.log_n + 1) as nat) as int,
        ),
        ({
            let (log_m, log_n) = (pk.log_m as nat, pk.log_n as nat);
            let c = Counts::of_shape(log_m, log_n);
            let d = opening::draws(log_m, log_n, c, tape, ints, pow2(c.folds) as int);
            let w = Witness { rows: pk.hash.rows(), f: data.values(), log_m, log_n, z };
            opening::honest(proof, w, data.tree(), d, pk.a_state) && divisible(d, log_m, log_n)
        }),
    ensures
        ({
            let (log_m, log_n) = (pk.log_m as nat, pk.log_n as nat);
            let c = Counts::of_shape(log_m, log_n);
            let d = opening::draws(
                log_m,
                log_n,
                proof.counts(),
                tape,
                ints,
                pow2((proof.batch.log_len - 1) as nat) as int,
            );
            &&& proof.counts() == c
            &&& proof.query_count() == 100
            &&& proof.complete(pk.com_a@, data.root(), log_m, log_n, z, d)
            &&& proof.accepted(pk.com_a@, data.root(), log_m, log_n, z, d)
            &&& proof.y == multilinear::mle(domain::lift_all(data.values()), z)
        }),
{
    let (log_m, log_n) = (pk.log_m as nat, pk.log_n as nat);
    let c = Counts::of_shape(log_m, log_n);
    let d = opening::draws(log_m, log_n, c, tape, ints, pow2(c.folds) as int);
    let w = Witness { rows: pk.hash.rows(), f: data.values(), log_m, log_n, z };
    let tree = data.tree();
    lemma_draws_shape(log_m, log_n, tape, ints, pow2(c.folds) as int);
    lemma_witness_shape(pk, data, z);
    lemma_checks(proof, w, tree, d);
    lemma_batches(proof, w, tree, d);
    lemma_columns(proof, w, tree, d);
    lemma_shared(proof, w, tree, d, pk);
    law_claimed_value(proof, pk, data, z, d);
    assert(proof.counts() == c);
    assert((proof.batch.log_len - 1) as nat == c.folds);
}

} // verus!
