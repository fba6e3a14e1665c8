//! The softmax maximum, bound by a grand product.
//!
//! For every head and row, the product over the unmasked keys of
//! `x_max - score` is zero, which makes `x_max` one of the scores. All products run
//! in one grand product: the key on the low variables, then the row, then the head.
//! A row of padding has only ones.
//!
//! The grand product leaves the masked leaf polynomial at one point. As the mask is
//! public, one sumcheck over key and row reduces that value to one opening of the
//! maxima and one of the scores.
use vstd::prelude::*;
use vstd::arithmetic::power2::pow2;
use crate::algebra;
use crate::field::Field;
use crate::gkr;
use crate::multilinear;
use crate::proofsys::canonical;
use crate::proofsys::canonical::{Kind, Q_SC, X_MAX};
use crate::proofsys::commit;
use crate::proofsys::commit::{ClaimAccumulator, CommitSet, OracleClaimView};
use crate::proofsys::grandprod;
use crate::proofsys::grandprod::GrandProdProof;
use crate::proofsys::grid;
use crate::proofsys::protocol::EF;
use crate::proofsys::reduce;
use crate::proofsys::residual;
use crate::proofsys::witness::Config;
use crate::utils::oracle::RandomOracle;
use crate::utils::poly;
use crate::utils::poly::MlPoly;
use crate::utils::sumcheck;
use crate::utils::sumcheck::SumcheckProof;
use crate::views;

verus! {

/// Proves that every maximum is one of its row's unmasked scores.
pub struct SoftmaxMaxProof {
    pub gp: GrandProdProof<EF>,
    /// The sumcheck over key and row for the masked leaf value.
    pub rs: SumcheckProof<EF>,
    /// The maxima at the reduced point.
    pub x_max: EF,
    /// The scores at the reduced point.
    pub q_sc: EF,
}

impl SoftmaxMaxProof {
    /// Number of field elements.
    pub open spec fn element_count(self) -> nat {
        self.gp.element_count(self.gp.layers@.len()) + self.rs.element_count() + 2
    }

    /// Size in bytes of all field elements.
    pub fn size_bytes(&self) -> (r: usize)
        requires
            self.element_count() * EF::byte_size() <= usize::MAX,
        ensures
            r == self.element_count() * EF::byte_size(),
    {
        let size: usize = EF::size();
        assert(size == 16);
        self.gp.size_bytes() + self.rs.size_bytes() + 2 * size
    }
}

/// Variables of the key.
pub open spec fn key_bits(config: Config) -> nat {
    canonical::col_bits(config, Kind::QSc)
}

/// Variables of the row.
pub open spec fn row_bits(config: Config) -> nat {
    canonical::row_bits(config, Kind::QSc)
}

/// Variables of the head.
pub open spec fn head_bits(config: Config) -> nat {
    canonical::inst_bits(config, Kind::QSc)
}

/// Variables of row and head: one product for each vertex.
pub open spec fn batch_bits(config: Config) -> nat {
    row_bits(config) + head_bits(config)
}

/// Key `k` counts in row `r`.
pub open spec fn unmasked(config: Config, r: int, k: int) -> bool {
    r < config.n_seq && k <= r
}

/// The mask as a field element.
pub open spec fn mask(config: Config, r: int, k: int) -> EF {
    if unmasked(config, r, k) {
        EF::one()
    } else {
        EF::zero()
    }
}

/// The products: zero in a real row, one in a row of padding.
pub open spec fn top_values(config: Config) -> Seq<EF> {
    Seq::new(
        pow2(batch_bits(config)),
        |b: int|
            if (b % pow2(row_bits(config)) as int) < config.n_seq {
                EF::zero()
            } else {
                EF::one()
            },
    )
}

/// The factor at position `i`.
pub open spec fn leaf_at(polys: Map<Seq<char>, Seq<EF>>, config: Config, i: int) -> EF {
    let cp = pow2(key_bits(config)) as int;
    let rp = pow2(row_bits(config)) as int;
    if unmasked(config, (i / cp) % rp, i % cp) {
        polys[X_MAX@][i / cp] - polys[Q_SC@][i]
    } else {
        EF::one()
    }
}

/// The factors of all products.
pub open spec fn leaf_values(polys: Map<Seq<char>, Seq<EF>>, config: Config) -> Seq<EF> {
    Seq::new(
        pow2(batch_bits(config) + key_bits(config)),
        |i: int| leaf_at(polys, config, i),
    )
}

/// The masked weight of a key and a row.
pub open spec fn weight_at(config: Config, key: Seq<EF>, row: Seq<EF>, i: int) -> EF {
    let cp = pow2(key_bits(config)) as int;
    let (r, k) = (i / cp, i % cp);
    (multilinear::eq_table(key)[k] * multilinear::eq_table(row)[r]) * mask(config, r, k)
}

/// The weight of a key and a row off the mask.
pub open spec fn off_weight_at(config: Config, key: Seq<EF>, row: Seq<EF>, i: int) -> EF {
    let cp = pow2(key_bits(config)) as int;
    let (r, k) = (i / cp, i % cp);
    (multilinear::eq_table(key)[k] * multilinear::eq_table(row)[r]) * (EF::one() - mask(
        config,
        r,
        k,
    ))
}

/// The masked weights of all keys and rows.
pub open spec fn weights(config: Config, key: Seq<EF>, row: Seq<EF>) -> Seq<EF> {
    Seq::new(
        pow2(key_bits(config) + row_bits(config)),
        |i: int| weight_at(config, key, row, i),
    )
}

/// What the ones off the mask add up to.
pub open spec fn off_weight(config: Config, key: Seq<EF>, row: Seq<EF>) -> EF {
    algebra::sum(
        pow2(key_bits(config) + row_bits(config)),
        |i: int| off_weight_at(config, key, row, i),
    )
}

/// A table with several blocks of length `m`, the blocks combined with the equality
/// weights of `head`, at position `i`.
pub open spec fn folded_at(t: Seq<EF>, m: nat, head: Seq<EF>, i: int) -> EF {
    algebra::sum(
        pow2(head.len()),
        |h: int| multilinear::eq_table(head)[h] * t[h * m + i],
    )
}

/// The combined maximum minus the combined score at position `i`.
pub open spec fn operand_at(
    polys: Map<Seq<char>, Seq<EF>>,
    config: Config,
    head: Seq<EF>,
    i: int,
) -> EF {
    let cp = pow2(key_bits(config)) as int;
    folded_at(polys[X_MAX@], pow2(row_bits(config)), head, i / cp) - folded_at(
        polys[Q_SC@],
        pow2(key_bits(config) + row_bits(config)),
        head,
        i,
    )
}

/// The combined maxima minus the combined scores.
pub open spec fn operand(polys: Map<Seq<char>, Seq<EF>>, config: Config, head: Seq<EF>) -> Seq<
    EF,
> {
    Seq::new(
        pow2(key_bits(config) + row_bits(config)),
        |i: int| operand_at(polys, config, head, i),
    )
}

/// The point of the maxima, from the reduced key and row and the head point.
pub open spec fn max_point(config: Config, red: Seq<EF>, head: Seq<EF>) -> Seq<EF> {
    red.skip(key_bits(config) as int) + head
}

/// The claims left behind.
pub open spec fn max_claims(
    config: Config,
    red: Seq<EF>,
    head: Seq<EF>,
    x_max: EF,
    q_sc: EF,
) -> Seq<OracleClaimView> {
    seq![
        commit::opening(X_MAX@, max_point(config, red, head), x_max),
        commit::opening(Q_SC@, red + head, q_sc),
    ]
}

/// The key part of the leaf point.
pub open spec fn key_part(config: Config, z: Seq<EF>) -> Seq<EF> {
    z.take(key_bits(config) as int)
}

/// The row part of the leaf point.
pub open spec fn row_part(config: Config, z: Seq<EF>) -> Seq<EF> {
    z.subrange(key_bits(config) as int, (key_bits(config) + row_bits(config)) as int)
}

/// The head part of the leaf point.
pub open spec fn head_part(config: Config, z: Seq<EF>) -> Seq<EF> {
    z.skip((key_bits(config) + row_bits(config)) as int)
}

/// Challenges read with `layers` product layers.
pub open spec fn max_draws(config: Config, layers: nat) -> nat {
    grandprod::offset(batch_bits(config), layers) + key_bits(config) + row_bits(config)
}

/// The challenges of the grand product.
pub open spec fn product_tape(config: Config, layers: nat, tape: Seq<EF>) -> Seq<EF> {
    tape.take(grandprod::offset(batch_bits(config), layers) as int)
}

/// The challenges of the masked sumcheck.
pub open spec fn mask_tape(config: Config, layers: nat, tape: Seq<EF>) -> Seq<EF> {
    tape.skip(grandprod::offset(batch_bits(config), layers) as int)
}

/// The honest proof with challenges `tape`.
pub open spec fn honest_max(
    proof: SoftmaxMaxProof,
    polys: Map<Seq<char>, Seq<EF>>,
    config: Config,
    tape: Seq<EF>,
) -> bool {
    let n = key_bits(config);
    let gp_tape = product_tape(config, n, tape);
    let z = grandprod::point_at(gp_tape, batch_bits(config), n);
    let head = head_part(config, z);
    let ch = mask_tape(config, n, tape);
    let red = ch.reverse();
    let tables = seq![
        weights(config, key_part(config, z), row_part(config, z)),
        operand(polys, config, head),
    ];
    &&& proof.gp.contents() == grandprod::honest_layers(
        leaf_values(polys, config),
        batch_bits(config),
        n,
        gp_tape,
    )
    &&& proof.rs.rounds() == sumcheck::prover_rounds(tables, ch)
    &&& proof.rs.final_evals@ == sumcheck::prover_finals(tables, ch)
    &&& proof.x_max == multilinear::mle(polys[X_MAX@], max_point(config, red, head))
    &&& proof.q_sc == multilinear::mle(polys[Q_SC@], red + head)
}

/// The proof is accepted with challenges `tape`.
pub open spec fn max_accepted(proof: SoftmaxMaxProof, config: Config, tape: Seq<EF>) -> bool {
    let n = proof.gp.layers@.len();
    let ch = mask_tape(config, n, tape);
    match grandprod::verified(
        top_values(config),
        proof.gp.contents(),
        batch_bits(config),
        product_tape(config, n, tape),
    ) {
        None => false,
        Some((z, v)) => {
            let (key, row) = (key_part(config, z), row_part(config, z));
            &&& z.len() == key_bits(config) + batch_bits(config)
            &&& proof.rs.round_polys@.len() == key_bits(config) + row_bits(config)
            &&& sumcheck::accepted(
                v - off_weight(config, key, row),
                proof.rs.rounds(),
                proof.rs.final_evals@,
                ch,
            )
            &&& proof.rs.final_evals@.len() == 2
            &&& proof.rs.final_evals@[0] == multilinear::mle(
                weights(config, key, row),
                ch.reverse(),
            )
            &&& proof.rs.final_evals@[1] == proof.x_max - proof.q_sc
        },
    }
}

/// Challenges for the product layers and the rounds that the proof has.
pub open spec fn max_extent(proof: SoftmaxMaxProof, config: Config) -> nat {
    grandprod::offset(batch_bits(config), proof.gp.layers@.len()) + proof.rs.round_polys@.len()
}

/// Number of challenges that verification reads: those of the grand product up to its
/// first failing check and, if it is accepted at a point of the scores, one for every
/// round of the masked sumcheck up to the first failing check.
pub open spec fn max_read(proof: SoftmaxMaxProof, config: Config, tape: Seq<EF>) -> nat {
    let n = proof.gp.layers@.len();
    let (top, b) = (top_values(config), batch_bits(config));
    let first = grandprod::read_count(
        top,
        proof.gp.contents(),
        b,
        product_tape(config, n, tape),
    );
    match grandprod::verified(top, proof.gp.contents(), b, product_tape(config, n, tape)) {
        None => first,
        Some((z, v)) => {
            if z.len() != key_bits(config) + b {
                first
            } else {
                first + sumcheck::rounds_passed(
                    v - off_weight(config, key_part(config, z), row_part(config, z)),
                    proof.rs.rounds(),
                    mask_tape(config, n, tape),
                )
            }
        },
    }
}

/// The lengths of the tables.
pub proof fn lemma_max_sizes(config: Config)
    requires
        canonical::sizes_fit(config),
    ensures
        key_bits(config) + batch_bits(config) == canonical::all_bits(config, Kind::QSc),
        batch_bits(config) == canonical::all_bits(config, Kind::XMax),
        pow2(key_bits(config)) <= usize::MAX,
        pow2(row_bits(config)) <= usize::MAX,
        pow2(head_bits(config)) <= usize::MAX,
        pow2(batch_bits(config)) <= usize::MAX,
        pow2(key_bits(config) + row_bits(config)) <= usize::MAX,
        pow2(batch_bits(config) + key_bits(config)) <= usize::MAX,
        pow2(batch_bits(config)) == pow2(head_bits(config)) * pow2(row_bits(config)),
        pow2(key_bits(config) + row_bits(config)) == pow2(row_bits(config)) * pow2(
            key_bits(config),
        ),
        pow2(batch_bits(config) + key_bits(config)) == pow2(batch_bits(config)) * pow2(
            key_bits(config),
        ),
        pow2(batch_bits(config) + key_bits(config)) == pow2(head_bits(config)) * pow2(
            key_bits(config) + row_bits(config),
        ),
        0 < pow2(key_bits(config)),
        0 < pow2(row_bits(config)),
        key_bits(config) + batch_bits(config) < 64,
{
    canonical::lemma_sizes(config, Kind::QSc);
    canonical::lemma_sizes(config, Kind::XMax);
    let (k, r, h) = (key_bits(config), row_bits(config), head_bits(config));
    multilinear::lemma_pow2_zero();
    commit::lemma_ceil_log(1, 0);
    multilinear::lemma_pow2_mono(0, k);
    multilinear::lemma_pow2_mono(0, r);
    vstd::arithmetic::power2::lemma_pow2_adds(h, r);
    vstd::arithmetic::power2::lemma_pow2_adds(r, k);
    vstd::arithmetic::power2::lemma_pow2_adds(r + h, k);
    vstd::arithmetic::power2::lemma_pow2_adds(h, k + r);
    assert(h + r == r + h && r + k == k + r && h + (k + r) == r + h + k);
}

/// The products' values.
fn top_vector(config: &Config) -> (r: Vec<EF>)
    requires
        canonical::sizes_fit(*config),
    ensures
        r@ == top_values(*config),
{
    proof {
        canonical::lemma_layout_fits(*config, Kind::QSc);
    }
    let lay = canonical::layout_of(config, Kind::QSc);
    proof {
        lemma_max_sizes(*config);
    }
    let row_pow: usize = lay.row_pow;
    let total: usize = commit::two_to(lay.row_vars() + lay.inst_vars());
    let mut out: Vec<EF> = Vec::new();
    let mut b: usize = 0;
    while b < total
        invariant
            b <= total,
            row_pow == pow2(row_bits(*config)),
            row_pow > 0,
            out@.len() == b,
            forall|j: int|
                0 <= j < b ==> #[trigger] out@[j] == (if (j % row_pow as int) < config.n_seq {
                    EF::zero()
                } else {
                    EF::one()
                }),
        decreases total - b,
    {
        let v: EF = if b % row_pow < config.n_seq {
            EF::new_zero()
        } else {
            EF::new_one()
        };
        out.push(v);
        b += 1;
    }
    assert(out@ =~= top_values(*config));
    out
}

/// The scores and maxima are stored.
pub open spec fn max_ready(polys: Map<Seq<char>, Seq<EF>>, config: Config) -> bool {
    &&& canonical::sizes_fit(config)
    &&& residual::holds_kind(polys, config, Kind::QSc)
    &&& residual::holds_kind(polys, config, Kind::XMax)
}

/// The factors of all products.
fn build_leaf(set: &CommitSet, config: &Config) -> (r: Vec<EF>)
    requires
        max_ready(set.kept(), *config),
    ensures
        r@ == leaf_values(set.kept(), *config),
{
    proof {
        canonical::lemma_layout_fits(*config, Kind::QSc);
    }
    let lay = canonical::layout_of(config, Kind::QSc);
    let ghost polys = set.kept();
    proof {
        lemma_max_sizes(*config);
    }
    let (rp, cp): (usize, usize) = (lay.row_pow, lay.col_pow);
    let total: usize = commit::two_to(lay.num_vars());
    let q_sc = &set.prover_data(Q_SC).unwrap().0;
    let x_max = &set.prover_data(X_MAX).unwrap().0;
    let mut out: Vec<EF> = Vec::new();
    let mut i: usize = 0;
    while i < total
        invariant
            i <= total,
            total == pow2(batch_bits(*config) + key_bits(*config)),
            pow2(batch_bits(*config) + key_bits(*config)) == pow2(batch_bits(*config)) * pow2(
                key_bits(*config),
            ),
            rp == pow2(row_bits(*config)),
            cp == pow2(key_bits(*config)),
            rp > 0,
            cp > 0,
            q_sc@ == polys[Q_SC@],
            x_max@ == polys[X_MAX@],
            q_sc@.len() == total,
            x_max@.len() == pow2(batch_bits(*config)),
            out@.len() == i,
            forall|j: int| 0 <= j < i ==> #[trigger] out@[j] == leaf_at(polys, *config, j),
        decreases total - i,
    {
        let b: usize = i / cp;
        let (r, k): (usize, usize) = (b % rp, i % cp);
        proof {
            grid::lemma_position(pow2(batch_bits(*config)), cp as nat, i as int);
        }
        let v: EF = if r < config.n_seq && k <= r {
            assert(q_sc.len() == q_sc@.len() && x_max.len() == x_max@.len());
            x_max[b].sub(q_sc[i])
        } else {
            EF::new_one()
        };
        out.push(v);
        i += 1;
    }
    assert(out@ =~= leaf_values(polys, *config));
    out
}

/// The masked weights, and what the ones off the mask add up to.
fn weight_and_const(config: &Config, key_pt: &[EF], row_pt: &[EF]) -> (r: (Vec<EF>, EF))
    requires
        canonical::sizes_fit(*config),
        key_pt@.len() == key_bits(*config),
        row_pt@.len() == row_bits(*config),
    ensures
        r.0@ == weights(*config, key_pt@, row_pt@),
        r.1 == off_weight(*config, key_pt@, row_pt@),
{
    proof {
        canonical::lemma_layout_fits(*config, Kind::QSc);
    }
    let lay = canonical::layout_of(config, Kind::QSc);
    proof {
        lemma_max_sizes(*config);
        multilinear::lemma_eq_table_len(key_pt@);
        multilinear::lemma_eq_table_len(row_pt@);
    }
    let cp: usize = lay.col_pow;
    let total: usize = commit::two_to(lay.elem_vars());
    let eqk = gkr::eq_table(key_pt);
    let eqr = gkr::eq_table(row_pt);
    let one = EF::new_one();
    let mut w: Vec<EF> = Vec::new();
    let mut c = EF::new_zero();
    let mut i: usize = 0;
    let ghost f = |i: int| off_weight_at(*config, key_pt@, row_pt@, i);
    while i < total
        invariant
            i <= total,
            total == pow2(key_bits(*config) + row_bits(*config)),
            total == pow2(row_bits(*config)) * pow2(key_bits(*config)),
            cp == pow2(key_bits(*config)),
            cp > 0,
            one == EF::one(),
            eqk@ == multilinear::eq_table(key_pt@),
            eqr@ == multilinear::eq_table(row_pt@),
            eqk@.len() == cp,
            eqr@.len() == pow2(row_bits(*config)),
            f == (|i: int| off_weight_at(*config, key_pt@, row_pt@, i)),
            c == algebra::sum(i as nat, f),
            w@.len() == i,
            forall|j: int|
                0 <= j < i ==> #[trigger] w@[j] == weight_at(*config, key_pt@, row_pt@, j),
        decreases total - i,
    {
        let (r, k): (usize, usize) = (i / cp, i % cp);
        proof {
            grid::lemma_position(pow2(row_bits(*config)), cp as nat, i as int);
        }
        let m: EF = if r < config.n_seq && k <= r {
            one
        } else {
            EF::new_zero()
        };
        let e = eqk[k].mul(eqr[r]);
        w.push(e.mul(m));
        c = c.add(e.mul(one.sub(m)));
        i += 1;
    }
    assert(w@ =~= weights(*config, key_pt@, row_pt@));
    (w, c)
}

/// The blocks of a table combined with the equality weights of `head`, at one
/// position.
fn fold_heads(t: &Vec<EF>, m: usize, eqh: &Vec<EF>, head: Ghost<Seq<EF>>, i: usize) -> (r: EF)
    requires
        eqh@ == multilinear::eq_table(head@),
        eqh@.len() == pow2(head@.len()),
        t@.len() == pow2(head@.len()) * m,
        i < m,
    ensures
        r == folded_at(t@, m as nat, head@, i as int),
{
    let mut acc = EF::new_zero();
    let mut h: usize = 0;
    let ghost f = |h: int| multilinear::eq_table(head@)[h] * t@[h * m + i];
    while h < eqh.len()
        invariant
            h <= eqh@.len(),
            eqh@ == multilinear::eq_table(head@),
            eqh@.len() == pow2(head@.len()),
            t@.len() == pow2(head@.len()) * m,
            i < m,
            f == (|h: int| multilinear::eq_table(head@)[h] * t@[h * m + i]),
            acc == algebra::sum(h as nat, f),
        decreases eqh.len() - h,
    {
        assert(t.len() == t@.len());
        proof {
            grid::lemma_cell(pow2(head@.len()), m as nat, h as int, i as int);
            assert(0 <= h * m) by (nonlinear_arith);
        }
        acc = acc.add(eqh[h].mul(t[h * m + i]));
        h += 1;
    }
    acc
}

/// The combined maxima minus the combined scores.
fn build_operand(set: &CommitSet, config: &Config, head_pt: &[EF]) -> (r: Vec<EF>)
    requires
        max_ready(set.kept(), *config),
        head_pt@.len() == head_bits(*config),
    ensures
        r@ == operand(set.kept(), *config, head_pt@),
{
    proof {
        canonical::lemma_layout_fits(*config, Kind::QSc);
    }
    let lay = canonical::layout_of(config, Kind::QSc);
    let ghost polys = set.kept();
    proof {
        lemma_max_sizes(*config);
        multilinear::lemma_eq_table_len(head_pt@);
    }
    let (rp, cp): (usize, usize) = (lay.row_pow, lay.col_pow);
    let total: usize = commit::two_to(lay.elem_vars());
    let q_sc = &set.prover_data(Q_SC).unwrap().0;
    let x_max = &set.prover_data(X_MAX).unwrap().0;
    let eqh = gkr::eq_table(head_pt);
    let mut out: Vec<EF> = Vec::new();
    let mut i: usize = 0;
    while i < total
        invariant
            i <= total,
            total == pow2(key_bits(*config) + row_bits(*config)),
            total == pow2(row_bits(*config)) * pow2(key_bits(*config)),
            rp == pow2(row_bits(*config)),
            cp == pow2(key_bits(*config)),
            cp > 0,
            head_pt@.len() == head_bits(*config),
            eqh@ == multilinear::eq_table(head_pt@),
            eqh@.len() == pow2(head_pt@.len()),
            q_sc@ == polys[Q_SC@],
            x_max@ == polys[X_MAX@],
            q_sc@.len() == pow2(head_pt@.len()) * total,
            x_max@.len() == pow2(head_pt@.len()) * rp,
            out@.len() == i,
            forall|j: int|
                0 <= j < i ==> #[trigger] out@[j] == operand_at(polys, *config, head_pt@, j),
        decreases total - i,
    {
        proof {
            grid::lemma_position(pow2(row_bits(*config)), cp as nat, i as int);
        }
        let xrow = fold_heads(x_max, rp, &eqh, Ghost(head_pt@), i / cp);
        let qfold = fold_heads(q_sc, total, &eqh, Ghost(head_pt@), i);
        out.push(xrow.sub(qfold));
        i += 1;
    }
    assert(out@ =~= operand(polys, *config, head_pt@));
    out
}

/// Splits the leaf point into key, row and head.
fn split_point(config: &Config, z: &Vec<EF>) -> (r: (Vec<EF>, Vec<EF>, Vec<EF>))
    requires
        canonical::sizes_fit(*config),
        z@.len() == key_bits(*config) + batch_bits(*config),
    ensures
        r.0@ == key_part(*config, z@),
        r.1@ == row_part(*config, z@),
        r.2@ == head_part(*config, z@),
{
    proof {
        canonical::lemma_layout_fits(*config, Kind::QSc);
    }
    let lay = canonical::layout_of(config, Kind::QSc);
    let (kv, rv): (usize, usize) = (lay.col_vars(), lay.row_vars());
    let s = z.as_slice();
    let key = poly::copy_slice(vstd::slice::slice_subrange(s, 0, kv));
    let row = poly::copy_slice(vstd::slice::slice_subrange(s, kv, kv + rv));
    let head = poly::copy_slice(vstd::slice::slice_subrange(s, kv + rv, z.len()));
    assert(key@ =~= key_part(*config, z@));
    assert(head@ =~= head_part(*config, z@));
    (key, row, head)
}

/// The two opening points.
fn opening_points(config: &Config, red: &Vec<EF>, head: &Vec<EF>) -> (r: (Vec<EF>, Vec<EF>))
    requires
        canonical::sizes_fit(*config),
        red@.len() == key_bits(*config) + row_bits(*config),
    ensures
        r.0@ == max_point(*config, red@, head@),
        r.1@ == red@ + head@,
{
    proof {
        canonical::lemma_layout_fits(*config, Kind::QSc);
    }
    let lay = canonical::layout_of(config, Kind::QSc);
    let kv: usize = lay.col_vars();
    let rprime = poly::copy_slice(
        vstd::slice::slice_subrange(red.as_slice(), kv, red.len()),
    );
    assert(rprime@ =~= red@.skip(kv as int));
    (
        reduce::join(rprime.as_slice(), head.as_slice()),
        reduce::join(red.as_slice(), head.as_slice()),
    )
}

pub proof fn lemma_point_len(tape: Seq<EF>, b: nat, s: nat)
    requires
        tape.len() >= grandprod::offset(b, s),
    ensures
        grandprod::point_at(tape, b, s).len() == b + s,
    decreases s,
{
    lemma_offset_ge(b, s);
}

proof fn lemma_offset_ge(b: nat, s: nat)
    ensures
        grandprod::offset(b, s) >= b,
    decreases s,
{
    if s > 0 {
        lemma_offset_ge(b, (s - 1) as nat);
    }
}

/// Proves that every maximum is one of its row's unmasked scores.
pub fn prove_softmax_max(
    set: &CommitSet,
    config: &Config,
    acc: &mut ClaimAccumulator,
    oracle: &mut RandomOracle<EF>,
) -> (r: SoftmaxMaxProof)
    requires
        max_ready(set.kept(), *config),
        old(oracle).has_fields(max_draws(*config, key_bits(*config)) as int),
    ensures
        ({
            let n = key_bits(*config);
            let tape = old(oracle).upcoming(max_draws(*config, n));
            let z = grandprod::point_at(
                product_tape(*config, n, tape),
                batch_bits(*config),
                n,
            );
            &&& honest_max(r, set.kept(), *config, tape)
            &&& final(acc).contents() == old(acc).contents() + max_claims(
                *config,
                mask_tape(*config, n, tape).reverse(),
                head_part(*config, z),
                r.x_max,
                r.q_sc,
            )
            &&& final(oracle).wf()
            &&& old(oracle).advanced(*final(oracle), max_draws(*config, n) as int, 0)
        }),
{
    let ghost before = acc.contents();
    let ghost polys = set.kept();
    let ghost n = key_bits(*config);
    let ghost b = batch_bits(*config);
    let ghost tape = oracle.upcoming(max_draws(*config, n));
    let ghost start = *oracle;
    proof {
        canonical::lemma_layout_fits(*config, Kind::QSc);
    }
    let lay = canonical::layout_of(config, Kind::QSc);
    proof {
        lemma_max_sizes(*config);
    }
    let batch_vars: usize = lay.row_vars() + lay.inst_vars();
    let leaf = build_leaf(set, config);
    proof {
        assert(leaf@.len() == pow2(batch_vars as nat + n));
    }
    let (gp, leaf_pt, leaf_eval) = grandprod::prove(leaf.as_slice(), batch_vars, oracle);
    proof {
        sumcheck::lemma_exponent_unique(b + n, b + gp.layers@.len());
        assert(start.upcoming(grandprod::offset(b, n)) =~= product_tape(*config, n, tape));
        lemma_point_len(product_tape(*config, n, tape), b, n);
    }
    let (key_pt, row_pt, head_pt) = split_point(config, &leaf_pt);
    let operand_vec = build_operand(set, config, head_pt.as_slice());
    let (weight, _c) = weight_and_const(config, key_pt.as_slice(), row_pt.as_slice());
    let tables: Vec<Vec<EF>> = vec![weight, operand_vec];
    let ghost tables_spec = seq![weight@, operand_vec@];
    proof {
        assert(views::nested(tables@) =~= tables_spec);
        assert(sumcheck::polys_shape(tables_spec, n + row_bits(*config)));
    }
    let (rs, sc) = sumcheck::prove(tables, oracle);
    proof {
        assert(views::nested(tables@)[0].len() == pow2(n + row_bits(*config)));
        sumcheck::lemma_exponent_unique(n + row_bits(*config), sc@.len());
        assert(sc@ =~= mask_tape(*config, n, tape));
    }
    let red = reduce::low_first(sc.as_slice());
    let (xm_pt, qs_pt) = opening_points(config, &red, &head_pt);
    let xm = set.evaluate(X_MAX, xm_pt.as_slice());
    acc.open(X_MAX, xm_pt, xm);
    let qv = set.evaluate(Q_SC, qs_pt.as_slice());
    acc.open(Q_SC, qs_pt, qv);
    assert(acc.contents() =~= before + max_claims(*config, red@, head_pt@, xm, qv));
    SoftmaxMaxProof { gp, rs, x_max: xm, q_sc: qv }
}

/// Checks that every maximum is one of its row's unmasked scores, and records the
/// claims. A rejected proof leaves no claims. A sumcheck with another number of rounds
/// than the scores have variables is rejected once its round checks are through.
pub fn verify_softmax_max(
    proof: &SoftmaxMaxProof,
    set: &CommitSet,
    config: &Config,
    acc: &mut ClaimAccumulator,
    oracle: &mut RandomOracle<EF>,
) -> (r: bool)
    requires
        canonical::sizes_fit(*config),
        old(oracle).has_fields(
            max_read(*proof, *config, old(oracle).upcoming(max_extent(*proof, *config))) as int,
        ),
    ensures
        ({
            let n = proof.gp.layers@.len();
            let tape = old(oracle).upcoming(max_extent(*proof, *config));
            let z = grandprod::point_at(
                product_tape(*config, n, tape),
                batch_bits(*config),
                n,
            );
            &&& r == max_accepted(*proof, *config, tape)
            &&& final(acc).contents() == (if r {
                old(acc).contents() + max_claims(
                    *config,
                    mask_tape(*config, n, tape).reverse(),
                    head_part(*config, z),
                    proof.x_max,
                    proof.q_sc,
                )
            } else {
                old(acc).contents()
            })
            &&& final(oracle).wf()
            &&& old(oracle).advanced(*final(oracle), max_read(*proof, *config, tape) as int, 0)
            &&& r ==> old(oracle).advanced(*final(oracle), max_draws(*config, n) as int, 0)
        }),
{
    let ghost before = acc.contents();
    let ghost n = proof.gp.layers@.len();
    let ghost b = batch_bits(*config);
    let ghost tape = oracle.upcoming(max_extent(*proof, *config));
    let ghost start = *oracle;
    proof {
        canonical::lemma_layout_fits(*config, Kind::QSc);
    }
    let lay = canonical::layout_of(config, Kind::QSc);
    let top = top_vector(config);
    proof {
        lemma_max_sizes(*config);
        poly::lemma_exponent(b);
        assert(start.upcoming(grandprod::offset(b, n)) =~= product_tape(*config, n, tape));
    }
    let (leaf_pt, leaf_eval) = match grandprod::verify(&proof.gp, top.as_slice(), oracle) {
        None => {
            return false;
        },
        Some(pair) => pair,
    };
    let ghost mid = *oracle;
    if leaf_pt.len() != lay.num_vars() {
        return false;
    }
    let (key_pt, row_pt, head_pt) = split_point(config, &leaf_pt);
    let (weight, c) = weight_and_const(config, key_pt.as_slice(), row_pt.as_slice());
    let claim = leaf_eval.sub(c);
    proof {
        assert(mid.upcoming(proof.rs.round_polys@.len()) =~= mask_tape(*config, n, tape));
        reduce::lemma_passed(
            claim,
            proof.rs.rounds(),
            proof.rs.final_evals@,
            mask_tape(*config, n, tape),
        );
    }
    let sc = match sumcheck::verify(claim, &proof.rs, oracle) {
        None => {
            return false;
        },
        Some(sc) => sc,
    };
    if proof.rs.final_evals.len() != 2 {
        return false;
    }
    if proof.rs.round_polys.len() != lay.elem_vars() {
        return false;
    }
    let red = reduce::low_first(sc.as_slice());
    let w = MlPoly(weight).eval(red.as_slice());
    if !proof.rs.final_evals[0].equals(w) {
        return false;
    }
    let d = proof.x_max.sub(proof.q_sc);
    if !proof.rs.final_evals[1].equals(d) {
        return false;
    }
    let (xm_pt, qs_pt) = opening_points(config, &red, &head_pt);
    acc.open(X_MAX, xm_pt, proof.x_max);
    acc.open(Q_SC, qs_pt, proof.q_sc);
    assert(acc.contents() =~= before + max_claims(
        *config,
        red@,
        head_pt@,
        proof.x_max,
        proof.q_sc,
    ));
    true
}

} // verus!
