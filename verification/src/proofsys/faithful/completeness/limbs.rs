//! The honest proof of a limb check.
//!
//! The limbs of a value below `2^32` recompose to it, so the limb polynomials' openings
//! recompose to the value that verification computes, and the check is accepted.
use vstd::prelude::*;
use vstd::arithmetic::power2::pow2;
use crate::algebra;
use crate::field::{Field, Goldilocks, GoldilocksExt2};
use crate::multilinear;
use crate::proofsys::canonical;
use crate::proofsys::commit;
use crate::proofsys::faithful::commitments;
use crate::proofsys::faithful::completeness::opened;
use crate::proofsys::faithful::openings;
use crate::proofsys::faithful::openings::RecompProof;
use crate::proofsys::faithful::segments::CheckView;
use crate::proofsys::faithful::shapes;
use crate::proofsys::faithful::values;
use crate::proofsys::model::ModelWeights;
use crate::proofsys::protocol::EF;
use crate::proofsys::reduce;
use crate::proofsys::witness::Config;
use crate::tables;

verus! {

/// A base field element is the embedding of its integer.
pub proof fn lemma_residue(x: EF)
    requires
        x.valid(),
        values::is_base(x),
    ensures
        EF::embed(values::residue(x)) == x,
        0 <= values::residue(x) < crate::prime::p(),
{
    x.re().lemma_of_view();
    broadcast use GoldilocksExt2::lemma_pair;
    broadcast use Goldilocks::lemma_of_int;

    GoldilocksExt2::lemma_components(EF::embed(values::residue(x)), x);
}

/// What is asked of a check, its honest proof and its challenges.
pub open spec fn checked(
    config: Config,
    w: ModelWeights,
    polys: Map<Seq<char>, Seq<EF>>,
    c: CheckView,
    r: RecompProof,
    tape: Seq<EF>,
) -> bool {
    &&& shapes::check_ok(config, w, c)
    &&& shapes::ready(polys, config, w)
    &&& opened::polys_valid(polys)
    &&& polys[c.limbs] == commitments::limb_table(c, polys, config)
    &&& commitments::targets_fit(c, polys, config)
    &&& tape.len() == openings::check_draws(config, c)
    &&& algebra::all_valid(tape)
    &&& openings::honest_recomp(r, config, c, polys, tape)
}

/// The values that a check's limbs recompose to, at all vertices.
spec fn target_table(c: CheckView, polys: Map<Seq<char>, Seq<EF>>, config: Config) -> Seq<EF> {
    Seq::new(
        pow2(canonical::all_bits(config, c.value)),
        |i: int| commitments::target_at(c, polys, config, i),
    )
}

/// Limb `l` at all vertices.
spec fn limb_values(c: CheckView, polys: Map<Seq<char>, Seq<EF>>, config: Config, l: int) -> Seq<
    EF,
> {
    Seq::new(
        pow2(canonical::all_bits(config, c.value)),
        |i: int|
            EF::embed(
                commitments::limb_of(
                    values::residue(commitments::target_at(c, polys, config, i)),
                    l,
                ),
            ),
    )
}

/// The limb polynomial at one limb.
proof fn lemma_limb(
    c: CheckView,
    polys: Map<Seq<char>, Seq<EF>>,
    config: Config,
    l: nat,
    p: Seq<EF>,
)
    requires
        l < 2,
        p.len() == canonical::all_bits(config, c.value),
    ensures
        multilinear::mle(
            commitments::limb_table(c, polys, config),
            openings::limb_point_at(l, p),
        ) == multilinear::mle(limb_values(c, polys, config, l as int), p),
{
    let t = commitments::limb_table(c, polys, config);
    let n = p.len();
    let x = if l == 1 {
        EF::one()
    } else {
        EF::zero()
    };
    commit::lemma_corner_step(l, 1);
    commit::lemma_index_bits(0, 0);
    assert(commit::corner(l, 1) =~= seq![x]);
    let z = openings::limb_point_at(l, p);
    assert(z.drop_first() =~= p);
    multilinear::lemma_pow2_step(n + 1);
    let half = multilinear::fold_low(t, x);
    let want = limb_values(c, polys, config, l as int);
    assert forall|i: int| 0 <= i < want.len() implies #[trigger] half[i] == want[i] by {
        assert((2 * i) / 2 == i && (2 * i) % 2 == 0);
        assert((2 * i + 1) / 2 == i && (2 * i + 1) % 2 == 1);
        let v = values::residue(commitments::target_at(c, polys, config, i));
        EF::law_embed(commitments::limb_of(v, 0), 0);
        EF::law_embed(commitments::limb_of(v, 1), 0);
        algebra::lerp_ends(t[2 * i], t[2 * i + 1]);
    }
    assert(half =~= want);
}

/// Two limbs recompose to the value.
proof fn lemma_recomposes(x: EF)
    requires
        x.valid(),
        values::is_base(x),
        values::residue(x) < 0x1_0000_0000,
    ensures
        x == EF::embed(commitments::limb_of(values::residue(x), 0)) + EF::embed(65536) * EF::embed(
            commitments::limb_of(values::residue(x), 1),
        ),
{
    lemma_residue(x);
    let t = values::residue(x);
    let (lo, hi) = (commitments::limb_of(t, 0), commitments::limb_of(t, 1));
    assert(lo + 65536 * hi == t);
    EF::law_embed(65536, hi);
    EF::law_embed(lo, 65536 * hi);
}

/// The targets' extension is the value that verification computes.
proof fn lemma_target(
    config: Config,
    w: ModelWeights,
    polys: Map<Seq<char>, Seq<EF>>,
    c: CheckView,
    r: RecompProof,
    tape: Seq<EF>,
)
    requires
        checked(config, w, polys, c, r, tape),
    ensures
        openings::recomp_target(c, r) == multilinear::mle(
            target_table(c, polys, config),
            openings::check_point(config, c, tape),
        ),
{
    reveal(openings::honest_recomp);
    let n = canonical::all_bits(config, c.value);
    let p = openings::check_point(config, c, tape);
    let t = target_table(c, polys, config);
    let start = match c.prod {
        Some((left, right, coeff)) => {
            let (l, rr) = (
                values::vertex_table(left, polys, n),
                values::vertex_table(right, polys, n),
            );
            let start = opened::lemma_product_start(coeff, c.constant, l, rr, p);
            EF::law_add_comm(
                coeff * multilinear::mle(reduce::pointwise(l, rr), p),
                c.constant,
            );
            start
        },
        None => {
            tables::lemma_mle_constant(c.constant, p);
            Seq::new(pow2(n), |i: int| c.constant)
        },
    };
    opened::lemma_affine_table(config, w, start, c.linears, polys, p, c.linears.len());
    let have = opened::affine_table(start, c.linears, polys, n, c.linears.len());
    assert forall|i: int| 0 <= i < t.len() implies #[trigger] t[i] == have[i] by {
        match c.prod {
            Some((left, right, coeff)) => {
                let (x, y) = (
                    values::vertex_value(left, polys, n, i),
                    values::vertex_value(right, polys, n, i),
                );
                EF::law_mul_assoc(coeff, x, y);
                EF::law_add_comm(coeff * (x * y), c.constant);
            },
            None => {},
        }
    }
    assert(t =~= have);
}

/// The honest proof of a limb check is accepted, and the openings it requests are
/// true.
#[verifier::rlimit(20)]
pub proof fn law_check_complete(
    config: Config,
    w: ModelWeights,
    polys: Map<Seq<char>, Seq<EF>>,
    c: CheckView,
    r: RecompProof,
    tape: Seq<EF>,
)
    requires
        checked(config, w, polys, c, r, tape),
    ensures
        openings::recomp_accepted(config, c, r, tape),
        commit::all_hold(openings::recomp_claims(config, c, r, tape), polys),
{
    let n = canonical::all_bits(config, c.value);
    let p = openings::check_point(config, c, tape);
    lemma_target(config, w, polys, c, r, tape);
    lemma_recomposition(config, w, polys, c, r, tape);
    reveal(openings::honest_recomp);
    reveal(openings::recomp_accepted);
    reveal(openings::recomp_claims);
    let limbs = seq![
        commit::opening(c.limbs, openings::limb_point_at(0, p), r.limb_values@[0]),
        commit::opening(c.limbs, openings::limb_point_at(1, p), r.limb_values@[1]),
    ];
    assert(commit::all_hold(limbs, polys));
    let lin = openings::linear_claims(c.linears, p, r.openings@, c.linears.len());
    opened::lemma_linears_hold(config, w, c.linears, polys, p, c.linears.len());
    match c.prod {
        Some((left, right, coeff)) => {
            let ch = openings::check_challenges(config, c, tape);
            assert forall|i: int| 0 <= i < ch.len() implies (#[trigger] ch[i]).valid() by {
                assert(tape[n + i].valid());
            }
            let k = ch.reverse();
            opened::lemma_operand(config, w, left, polys, k);
            opened::lemma_operand(config, w, right, polys, k);
            let (l, rr) = (
                values::vertex_table(left, polys, n),
                values::vertex_table(right, polys, n),
            );
            reduce::law_prod_complete(r.prod->0, left, right, l, rr, p, ch, polys);
            let pc = reduce::prod_claims(left, right, ch, (r.prod->0).proof.final_evals@);
            commit::lemma_all_hold_join(pc, lin, polys);
            commit::lemma_all_hold_join(pc + lin, limbs, polys);
        },
        None => {
            let none = Seq::<commit::OracleClaimView>::empty();
            commit::lemma_all_hold_join(none, lin, polys);
            commit::lemma_all_hold_join(none + lin, limbs, polys);
        },
    }
}

/// The openings of the limbs recompose to the targets' extension.
proof fn lemma_recomposition(
    config: Config,
    w: ModelWeights,
    polys: Map<Seq<char>, Seq<EF>>,
    c: CheckView,
    r: RecompProof,
    tape: Seq<EF>,
)
    requires
        checked(config, w, polys, c, r, tape),
    ensures
        openings::recomposed(r.limb_values@) == multilinear::mle(
            target_table(c, polys, config),
            openings::check_point(config, c, tape),
        ),
{
    reveal(openings::honest_recomp);
    let n = canonical::all_bits(config, c.value);
    let p = openings::check_point(config, c, tape);
    let t = target_table(c, polys, config);
    let (lo, hi) = (limb_values(c, polys, config, 0), limb_values(c, polys, config, 1));
    lemma_limb(c, polys, config, 0, p);
    lemma_limb(c, polys, config, 1, p);
    let e = EF::embed(65536);
    let scaled = Seq::new(hi.len(), |i: int| e * hi[i]);
    multilinear::lemma_mle_scale(e, hi, p);
    multilinear::lemma_mle_add(lo, scaled, p);
    let sum = Seq::new(lo.len(), |i: int| lo[i] + scaled[i]);
    assert forall|i: int| 0 <= i < t.len() implies #[trigger] t[i] == sum[i] by {
        assert(commitments::target_fits(c, polys, config, i));
        lemma_target_valid(config, w, polys, c, i);
        lemma_recomposes(t[i]);
    }
    assert(t =~= sum);
    let m = multilinear::mle(lo, p);
    assert(algebra::all_valid(lo)) by {
        assert forall|i: int| 0 <= i < lo.len() implies (#[trigger] lo[i]).valid() by {
            EF::law_embed(
                commitments::limb_of(
                    values::residue(commitments::target_at(c, polys, config, i)),
                    0,
                ),
                0,
            );
        }
    }
    multilinear::lemma_fold_all_valid(lo, p);
    multilinear::lemma_fold_all_len(lo, p, n);
    multilinear::lemma_pow2_zero();
    EF::law_embed(1, 0);
    algebra::one_mul(m);
    algebra::zero_add(m);
}

/// The targets are field elements.
proof fn lemma_target_valid(
    config: Config,
    w: ModelWeights,
    polys: Map<Seq<char>, Seq<EF>>,
    c: CheckView,
    i: int,
)
    requires
        shapes::check_ok(config, w, c),
        0 <= i < pow2(canonical::all_bits(config, c.value)),
    ensures
        commitments::target_at(c, polys, config, i).valid(),
{
    let n = canonical::all_bits(config, c.value);
    let terms = values::vertex_terms(c.linears, polys, n, i);
    let start = match c.prod {
        Some((l, r, k)) => {
            let v = (k * values::vertex_value(l, polys, n, i)) * values::vertex_value(
                r,
                polys,
                n,
                i,
            );
            EF::law_valid(c.constant, v);
            c.constant + v
        },
        None => c.constant,
    };
    lemma_affine_valid(start, c.linears, terms, c.linears.len());
}

pub proof fn lemma_affine_valid(
    start: EF,
    linears: Seq<crate::proofsys::faithful::segments::LinearView>,
    vals: Seq<EF>,
    n: nat,
)
    requires
        start.valid(),
    ensures
        values::affine(start, linears, vals, n).valid(),
{
    if n > 0 {
        EF::law_valid(
            values::affine(start, linears, vals, (n - 1) as nat),
            linears[n - 1].coeff * vals[n - 1],
        );
    }
}

} // verus!
