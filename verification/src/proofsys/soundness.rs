//! What the accepted checks of the residual stream, of the softmax maxima and of the
//! normalization sums show of the committed polynomials, whoever made the proof.
//!
//! The laws speak of tables of entries. An accepted check whose openings are true fixes
//! one value of such a table at drawn challenges, so a false table passes only where the
//! draws happen to be zeros of a polynomial other than zero.
use vstd::prelude::*;
use vstd::arithmetic::power2::pow2;
use crate::algebra;
use crate::field::Field;
use crate::multilinear;
use crate::pcs::domain;
use crate::proofsys::canonical;
use crate::proofsys::canonical::{
    Kind, A_LN, EXP, Q_APR, Q_FPR, Q_SC, SUM_EXP, VAR, X_MAX, X_OUT,
};
use crate::proofsys::commit;
use crate::proofsys::commit::OracleClaimView;
use crate::proofsys::completeness;
use crate::proofsys::completeness::features;
use crate::proofsys::grandprod;
use crate::proofsys::grid;
use crate::proofsys::grid::Grid;
use crate::proofsys::maxprod;
use crate::proofsys::maxprod::SoftmaxMaxProof;
use crate::proofsys::model::ModelWeights;
use crate::proofsys::protocol::EF;
use crate::proofsys::residual;
use crate::proofsys::residual::XOutResidualProof;
use crate::proofsys::sumfeat;
use crate::proofsys::sumfeat::{DividendDraws, DividendPart, SumFeatProof, VarDraws};
use crate::proofsys::witness::Config;
use crate::tables;
use crate::utils::sumcheck;
use crate::utils::sumcheck::SumcheckProof;

verus! {

/// Entry `e` of the stream before normalization `i`: the embedding at first, the last
/// block output afterwards. Entries outside the embedding are zero.
pub open spec fn stream_entry(
    polys: Map<Seq<char>, Seq<EF>>,
    config: Config,
    x0: Grid,
    i: int,
    e: int,
) -> EF {
    let cp = pow2(canonical::col_bits(config, Kind::XOut)) as int;
    if i > 0 {
        polys[X_OUT@][(i - 1) * pow2(canonical::elem_bits(config, Kind::XOut)) + e]
    } else if e / cp < config.n_seq && e % cp < config.d_model {
        EF::embed(x0.at(e / cp, e % cp))
    } else {
        EF::zero()
    }
}

/// Entry `e` of what block output `k` adds to the stream: in every second output, from
/// the first on, the attention projection, in the others the feed-forward projection,
/// each with its bias in the columns of the real rows.
pub open spec fn step_entry(
    polys: Map<Seq<char>, Seq<EF>>,
    config: Config,
    w: ModelWeights,
    k: int,
    e: int,
) -> EF {
    let cp = pow2(canonical::col_bits(config, Kind::XOut)) as int;
    let at = (k / 2) * pow2(canonical::elem_bits(config, Kind::XOut)) + e;
    let b = w.blocks@[k / 2];
    let (proj, bias) = if k % 2 == 0 {
        (polys[Q_APR@][at], b.attn_proj_b@)
    } else {
        (polys[Q_FPR@][at], b.fproj_b@)
    };
    if e / cp < config.n_seq && e % cp < config.d_model {
        proj + EF::embed(bias[e % cp] as int)
    } else {
        proj
    }
}

/// A committed polynomial has the length of its kind and canonical values.
pub open spec fn kind_sound(polys: Map<Seq<char>, Seq<EF>>, config: Config, kind: Kind) -> bool {
    &&& polys[kind.text()].len() == pow2(canonical::all_bits(config, kind))
    &&& algebra::all_valid(polys[kind.text()])
}

proof fn lemma_residual_opened(
    polys: Map<Seq<char>, Seq<EF>>,
    config: Config,
    p: Seq<EF>,
    xout: Seq<EF>,
    proj: Seq<EF>,
    x_in: Seq<EF>,
    n: nat,
    k: int,
)
    requires
        0 <= k < n <= usize::MAX,
        commit::all_hold(residual::residual_claims(config, p, xout, proj, x_in, n), polys),
    ensures
        xout[k] == residual::slice_value(polys, config, Kind::XOut, p, k),
        proj[k] == residual::slice_value(polys, config, residual::projection_kind(k), p, k / 2),
        k > 0 ==> x_in[k] == residual::slice_value(polys, config, Kind::XOut, p, k - 1),
    decreases n,
{
    let all = residual::residual_claims(config, p, xout, proj, x_in, n);
    let before = residual::residual_claims(config, p, xout, proj, x_in, (n - 1) as nat);
    let m = before.len() as int;
    if k < n - 1 {
        assert forall|i: int| 0 <= i < before.len() implies (#[trigger] before[i]).holds(polys) by {
            assert(all[i] == before[i]);
        }
        lemma_residual_opened(polys, config, p, xout, proj, x_in, (n - 1) as nat, k);
    } else {
        assert(all[m].holds(polys));
        assert(all[m + 1].holds(polys));
        if k > 0 {
            assert(all[m + 2].holds(polys));
        }
    }
}

/// A slice of a kind is the block of its instance.
proof fn lemma_slice(
    polys: Map<Seq<char>, Seq<EF>>,
    config: Config,
    kind: Kind,
    p: Seq<EF>,
    i: int,
)
    requires
        canonical::sizes_fit(config),
        kind_sound(polys, config, kind),
        p.len() == canonical::elem_bits(config, kind),
        0 <= i < canonical::dims(config, kind).0,
    ensures
        residual::slice_value(polys, config, kind, p, i) == multilinear::mle(
            Seq::new(pow2(p.len()), |e: int| polys[kind.text()][i * pow2(p.len()) + e]),
            p,
        ),
{
    let t = polys[kind.text()];
    let n = pow2(p.len());
    canonical::lemma_sizes(config, kind);
    commit::law_instance_slice(t, p, i as nat, canonical::inst_bits(config, kind));
    assert((i + 1) * n == i * n + n) by (nonlinear_arith);
    assert(t.subrange(i * n, (i + 1) * n) =~= Seq::new(n, |e: int| t[i * n + e]));
}

/// Soundness of the residual check: where the openings of an accepted proof are true,
/// every committed block output has, at the drawn point, the value of the sum of the
/// stream before it, its projection and its bias.
#[verifier::rlimit(40)]
#[verifier::spinoff_prover]
pub proof fn law_residual_sound(
    proof: XOutResidualProof,
    polys: Map<Seq<char>, Seq<EF>>,
    config: Config,
    w: ModelWeights,
    x0: Grid,
    p: Seq<EF>,
    k: int,
)
    requires
        canonical::sizes_fit(config),
        w.wf(config),
        w.blocks@.len() == config.n_layer,
        canonical::grid_is(x0, config.n_seq as nat, config.d_model as nat),
        kind_sound(polys, config, Kind::XOut),
        kind_sound(polys, config, Kind::QApr),
        kind_sound(polys, config, Kind::QFpr),
        p.len() == canonical::elem_bits(config, Kind::XOut),
        forall|j: int|
            0 <= j < 2 * config.n_layer ==> #[trigger] residual::residual_identity(
                proof,
                config,
                w,
                x0,
                p,
                j,
            ),
        commit::all_hold(
            residual::residual_claims(
                config,
                p,
                proof.xout@,
                proof.proj@,
                proof.x_in@,
                (2 * config.n_layer) as nat,
            ),
            polys,
        ),
        0 <= k < 2 * config.n_layer,
    ensures
        multilinear::mle(
            Seq::new(pow2(p.len()), |e: int| polys[X_OUT@][k * pow2(p.len()) + e]),
            p,
        ) == multilinear::mle(
            Seq::new(
                pow2(p.len()),
                |e: int|
                    stream_entry(polys, config, x0, k, e) + step_entry(polys, config, w, k, e),
            ),
            p,
        ),
{
    let n = pow2(p.len());
    let kind = residual::projection_kind(k);
    let l = k / 2;
    let bias = residual::projection_bias(w, k);
    let cp = pow2(canonical::col_bits(config, Kind::XOut));
    let rp = pow2(canonical::row_bits(config, Kind::XOut));
    canonical::lemma_sizes(config, Kind::XOut);
    canonical::lemma_sizes(config, kind);
    assert(w.blocks@[l].wf(config));
    lemma_residual_opened(
        polys,
        config,
        p,
        proof.xout@,
        proof.proj@,
        proof.x_in@,
        (2 * config.n_layer) as nat,
        k,
    );
    assert(residual::residual_identity(proof, config, w, x0, p, k));
    lemma_slice(polys, config, Kind::XOut, p, k);
    lemma_slice(polys, config, kind, p, l);
    residual::lemma_embedding(config, x0);
    let ta = Seq::new(n, |e: int| stream_entry(polys, config, x0, k, e));
    let tb = Seq::new(n, |e: int| polys[kind.text()][l * n + e]);
    let tr = residual::row_table(config, bias);
    EF::law_embed(0, 0);
    if k == 0 {
        assert(ta =~= residual::embedding_table(config, x0)) by {
            assert forall|e: int| 0 <= e < n implies #[trigger] ta[e]
                == residual::embedding_table(config, x0)[e] by {
                grid::lemma_position(rp, cp, e);
            }
        }
    } else {
        lemma_slice(polys, config, Kind::XOut, p, k - 1);
        assert(ta =~= Seq::new(n, |e: int| polys[X_OUT@][(k - 1) * n + e]));
    }
    let t1 = Seq::new(n, |e: int| ta[e] + tb[e]);
    let t2 = Seq::new(n, |e: int| t1[e] + tr[e]);
    let want = Seq::new(
        n,
        |e: int| stream_entry(polys, config, x0, k, e) + step_entry(polys, config, w, k, e),
    );
    let rows = grid::tabulate(config.n_seq as nat, bias.len(), |r: int, c: int| bias[c]);
    assert(want =~= t2) by {
        assert forall|e: int| 0 <= e < n implies #[trigger] want[e] == t2[e] by {
            let (r, c) = (e / cp as int, e % cp as int);
            grid::lemma_position(rp, cp, e);
            grid::lemma_cell(pow2(canonical::inst_bits(config, kind)), n, l, e);
            assert(tb[e].valid());
            if r < config.n_seq && c < config.d_model {
                grid::lemma_tabulate(
                    config.n_seq as nat,
                    bias.len(),
                    |r: int, c: int| bias[c],
                    r,
                    c,
                );
                EF::law_add_assoc(ta[e], tb[e], tr[e]);
            } else {
                EF::law_valid(ta[e], tb[e]);
                EF::law_add_zero(ta[e] + tb[e]);
            }
        }
    }
    multilinear::lemma_mle_add(ta, tb, p);
    multilinear::lemma_mle_add(t1, tr, p);
}

/// The factor that key `k` adds to the product of row `b` over all heads: in a real row,
/// the maximum minus the score of a key up to the row itself, and one elsewhere.
pub open spec fn max_factor(
    polys: Map<Seq<char>, Seq<EF>>,
    config: Config,
    b: int,
    k: int,
) -> EF {
    let r = b % pow2(canonical::row_bits(config, Kind::QSc)) as int;
    if r < config.n_seq && k <= r {
        polys[X_MAX@][b] - polys[Q_SC@][b * pow2(canonical::col_bits(config, Kind::QSc)) + k]
    } else {
        EF::one()
    }
}

/// The challenges of the masked sumcheck let a false value pass.
pub open spec fn mask_lucky(
    proof: SoftmaxMaxProof,
    polys: Map<Seq<char>, Seq<EF>>,
    config: Config,
    tape: Seq<EF>,
    z: Seq<EF>,
) -> bool {
    sumcheck::lucky(
        seq![
            maxprod::weights(config, maxprod::key_part(config, z), maxprod::row_part(config, z)),
            maxprod::operand(polys, config, maxprod::head_part(config, z)),
        ],
        proof.rs.rounds(),
        maxprod::mask_tape(config, proof.gp.layers@.len(), tape),
    )
}

/// Soundness of the maximum check: where both openings of an accepted proof are true, the
/// products, over the keys up to each row, of the maximum minus the score agree at the
/// first draws with zero in the real rows and one in the others, unless a later draw lets
/// a false claim pass.
#[verifier::rlimit(60)]
#[verifier::spinoff_prover]
pub proof fn law_softmax_max_sound(
    proof: SoftmaxMaxProof,
    polys: Map<Seq<char>, Seq<EF>>,
    config: Config,
    tape: Seq<EF>,
    z: Seq<EF>,
    v: EF,
)
    requires
        canonical::sizes_fit(config),
        kind_sound(polys, config, Kind::QSc),
        kind_sound(polys, config, Kind::XMax),
        grandprod::messages_valid(proof.gp.contents()),
        forall|i: int|
            0 <= i < proof.rs.rounds().len() ==> algebra::all_valid(
                #[trigger] proof.rs.rounds()[i],
            ),
        v.valid(),
        tape.len() == maxprod::max_draws(config, proof.gp.layers@.len()),
        maxprod::max_accepted(proof, config, tape),
        grandprod::verified(
            maxprod::top_values(config),
            proof.gp.contents(),
            maxprod::batch_bits(config),
            maxprod::product_tape(config, proof.gp.layers@.len(), tape),
        ) == Some((z, v)),
        commit::all_hold(
            maxprod::max_claims(
                config,
                maxprod::mask_tape(config, proof.gp.layers@.len(), tape).reverse(),
                maxprod::head_part(config, z),
                proof.x_max,
                proof.q_sc,
            ),
            polys,
        ),
    ensures
        ({
            let b = canonical::all_bits(config, Kind::XMax);
            let rp = pow2(canonical::row_bits(config, Kind::QSc)) as int;
            ||| multilinear::mle(
                Seq::new(
                    pow2(b),
                    |i: int|
                        if i % rp < config.n_seq {
                            EF::zero()
                        } else {
                            EF::one()
                        },
                ),
                tape.take(b as int),
            ) == multilinear::mle(
                Seq::new(
                    pow2(b),
                    |i: int|
                        algebra::prod(
                            pow2(canonical::col_bits(config, Kind::QSc)),
                            |k: int| max_factor(polys, config, i, k),
                        ),
                ),
                tape.take(b as int),
            )
            ||| grandprod::lucky(
                maxprod::leaf_values(polys, config),
                proof.gp.contents(),
                maxprod::batch_bits(config),
                maxprod::product_tape(config, proof.gp.layers@.len(), tape),
            )
            ||| mask_lucky(proof, polys, config, tape, z)
        }),
{
    let n = proof.gp.layers@.len();
    let bb = maxprod::batch_bits(config);
    let gp_tape = maxprod::product_tape(config, n, tape);
    let ch = maxprod::mask_tape(config, n, tape);
    let (key, row, head) = (
        maxprod::key_part(config, z),
        maxprod::row_part(config, z),
        maxprod::head_part(config, z),
    );
    let leaf = maxprod::leaf_values(polys, config);
    maxprod::lemma_max_sizes(config);
    let cp = pow2(maxprod::key_bits(config));
    let rp = pow2(maxprod::row_bits(config));
    EF::law_valid(EF::one(), EF::one());
    assert forall|i: int| 0 <= i < leaf.len() implies (#[trigger] leaf[i]).valid() by {
        EF::law_valid(polys[X_MAX@][i / cp as int], polys[Q_SC@][i]);
    }
    assert(proof.gp.contents().len() == n);
    maxprod::lemma_point_len(gp_tape, bb, n);
    assert(n == maxprod::key_bits(config));
    lemma_mask_value(proof, polys, config, tape, z, v);
    if !mask_lucky(proof, polys, config, tape, z) {
        let top = maxprod::top_values(config);
        assert forall|i: int| 0 <= i < top.len() implies (#[trigger] top[i]).valid() by {
        }
        grandprod::law_sound(leaf, top, proof.gp.contents(), bb, gp_tape, z);
        assert(gp_tape.take(bb as int) =~= tape.take(bb as int));
        let got = Seq::new(
            pow2(bb),
            |i: int| algebra::prod(pow2(n), |k: int| leaf[i * pow2(n) + k]),
        );
        let want = Seq::new(
            pow2(bb),
            |i: int| algebra::prod(cp, |k: int| max_factor(polys, config, i, k)),
        );
        assert(got =~= want) by {
            assert forall|i: int| 0 <= i < pow2(bb) implies #[trigger] got[i] == want[i] by {
                let f = |k: int| leaf[i * pow2(n) + k];
                let g = |k: int| max_factor(polys, config, i, k);
                assert forall|k: int| 0 <= k < cp implies #[trigger] f(k) == g(k) by {
                    grid::lemma_cell(pow2(bb), cp, i, k);
                }
                algebra::prod_ext(cp, f, g);
            }
        }
        let zeros = Seq::new(
            pow2(bb),
            |i: int|
                if (i % rp as int) < config.n_seq {
                    EF::zero()
                } else {
                    EF::one()
                },
        );
        assert(top =~= zeros);
    }
}

/// The value that the grand product leaves is that of the factors at its point.
#[verifier::rlimit(40)]
#[verifier::spinoff_prover]
proof fn lemma_mask_value(
    proof: SoftmaxMaxProof,
    polys: Map<Seq<char>, Seq<EF>>,
    config: Config,
    tape: Seq<EF>,
    z: Seq<EF>,
    v: EF,
)
    requires
        canonical::sizes_fit(config),
        kind_sound(polys, config, Kind::QSc),
        kind_sound(polys, config, Kind::XMax),
        proof.gp.layers@.len() == maxprod::key_bits(config),
        forall|i: int|
            0 <= i < proof.rs.rounds().len() ==> algebra::all_valid(
                #[trigger] proof.rs.rounds()[i],
            ),
        v.valid(),
        tape.len() == maxprod::max_draws(config, proof.gp.layers@.len()),
        maxprod::max_accepted(proof, config, tape),
        grandprod::verified(
            maxprod::top_values(config),
            proof.gp.contents(),
            maxprod::batch_bits(config),
            maxprod::product_tape(config, proof.gp.layers@.len(), tape),
        ) == Some((z, v)),
        commit::all_hold(
            maxprod::max_claims(
                config,
                maxprod::mask_tape(config, proof.gp.layers@.len(), tape).reverse(),
                maxprod::head_part(config, z),
                proof.x_max,
                proof.q_sc,
            ),
            polys,
        ),
    ensures
        v == multilinear::mle(maxprod::leaf_values(polys, config), z) || mask_lucky(
            proof,
            polys,
            config,
            tape,
            z,
        ),
{
    let n = proof.gp.layers@.len();
    let ch = maxprod::mask_tape(config, n, tape);
    let (key, row, head) = (
        maxprod::key_part(config, z),
        maxprod::row_part(config, z),
        maxprod::head_part(config, z),
    );
    maxprod::lemma_max_sizes(config);
    let cp = pow2(maxprod::key_bits(config));
    completeness::lemma_leaf_value(polys, config, z);
    let ws = maxprod::weights(config, key, row);
    let ops = maxprod::operand(polys, config, head);
    EF::law_valid(EF::one(), EF::one());
    assert forall|e: int| 0 <= e < ws.len() implies (#[trigger] ws[e]).valid() by {
        EF::law_valid(
            multilinear::eq_table(key)[e % cp as int] * multilinear::eq_table(
                row,
            )[e / cp as int],
            maxprod::mask(config, e / cp as int, e % cp as int),
        );
    }
    assert forall|e: int| 0 <= e < ops.len() implies (#[trigger] ops[e]).valid() by {
        EF::law_valid(
            maxprod::folded_at(
                polys[X_MAX@],
                pow2(maxprod::row_bits(config)),
                head,
                e / cp as int,
            ),
            maxprod::folded_at(
                polys[Q_SC@],
                pow2(maxprod::key_bits(config) + maxprod::row_bits(config)),
                head,
                e,
            ),
        );
    }
    let both = seq![ws, ops];
    assert(both[0] == ws && both[1] == ops);
    completeness::lemma_operand_value(polys, config, ch.reverse(), head);
    let claims = maxprod::max_claims(config, ch.reverse(), head, proof.x_max, proof.q_sc);
    assert(claims[0].holds(polys) && claims[1].holds(polys));
    let off = maxprod::off_weight(config, key, row);
    let finals = proof.rs.final_evals@;
    assert(proof.rs.rounds().len() == proof.rs.round_polys@.len());
    assert forall|j: int| 0 <= j < both.len() implies #[trigger] finals[j] == multilinear::mle(
        both[j],
        ch.reverse(),
    ) by {
    }
    sumcheck::law_sound(v - off, both, proof.rs.rounds(), finals, ch);
    let f = |i: int| sumcheck::vertex_product(both, i);
    let g = |i: int| algebra::prod(both.len(), |j: int| both[j][i]);
    algebra::sum_ext(pow2(ch.len()), f, g);
    algebra::sub_add(v, off);
}

proof fn lemma_hold_split(
    a: Seq<OracleClaimView>,
    b: Seq<OracleClaimView>,
    polys: Map<Seq<char>, Seq<EF>>,
)
    requires
        commit::all_hold(a + b, polys),
    ensures
        commit::all_hold(a, polys),
        commit::all_hold(b, polys),
{
    assert forall|i: int| 0 <= i < a.len() implies (#[trigger] a[i]).holds(polys) by {
        assert((a + b)[i] == a[i]);
    }
    assert forall|i: int| 0 <= i < b.len() implies (#[trigger] b[i]).holds(polys) by {
        assert((a + b)[a.len() + i] == b[i]);
    }
}

proof fn lemma_kind_opened(
    polys: Map<Seq<char>, Seq<EF>>,
    config: Config,
    kind: Kind,
    p: Seq<EF>,
    vals: Seq<EF>,
    n: nat,
    k: int,
)
    requires
        0 <= k < n,
        commit::all_hold(sumfeat::kind_claims(config, kind, p, vals, n), polys),
    ensures
        vals[k] == residual::slice_value(polys, config, kind, p, k),
    decreases n,
{
    let all = sumfeat::kind_claims(config, kind, p, vals, n);
    let before = sumfeat::kind_claims(config, kind, p, vals, (n - 1) as nat);
    if k < n - 1 {
        assert forall|i: int| 0 <= i < before.len() implies (#[trigger] before[i]).holds(polys) by {
            assert(all[i] == before[i]);
        }
        lemma_kind_opened(polys, config, kind, p, vals, (n - 1) as nat, k);
    } else {
        assert(all[before.len() as int].holds(polys));
    }
}

proof fn lemma_input_opened(
    polys: Map<Seq<char>, Seq<EF>>,
    config: Config,
    x0: Grid,
    p: Seq<EF>,
    vals: Seq<EF>,
    n: nat,
    k: int,
)
    requires
        0 < k < n <= usize::MAX,
        commit::all_hold(sumfeat::input_claims(config, p, vals, n), polys),
    ensures
        vals[k] == residual::source_value(
            polys,
            config,
            x0,
            p,
            residual::norm_source(config, k),
        ),
    decreases n,
{
    let before = sumfeat::input_claims(config, p, vals, (n - 1) as nat);
    let last = residual::source_claims(
        config,
        p,
        residual::norm_source(config, n - 1),
        vals[n - 1],
    );
    lemma_hold_split(before, last, polys);
    if k < n - 1 {
        lemma_input_opened(polys, config, x0, p, vals, (n - 1) as nat, k);
    } else {
        assert(last[0].holds(polys));
    }
}

/// Sent inputs whose openings are true are the inputs.
proof fn lemma_inputs_true(
    polys: Map<Seq<char>, Seq<EF>>,
    config: Config,
    x0: Grid,
    p: Seq<EF>,
    sent: Seq<EF>,
)
    requires
        canonical::sizes_fit(config),
        sumfeat::inputs_ok(config, x0, p, sent),
        commit::all_hold(
            sumfeat::input_claims(config, p, sent, sumfeat::norm_count(config)),
            polys,
        ),
    ensures
        sent == sumfeat::inputs_at(polys, config, x0, p),
{
    let n = sumfeat::norm_count(config);
    let want = sumfeat::inputs_at(polys, config, x0, p);
    assert forall|k: int| 0 <= k < n implies #[trigger] sent[k] == want[k] by {
        if k > 0 {
            lemma_input_opened(polys, config, x0, p, sent, n, k);
        }
    }
    assert(sent =~= want);
}

/// An accepted sumcheck of three factors whose final values are theirs is one of the sum
/// of the products, unless a round message meets the round polynomial by chance.
proof fn lemma_three_sound(
    claim: EF,
    a: Seq<EF>,
    b: Seq<EF>,
    c: Seq<EF>,
    proof: SumcheckProof<EF>,
    ch: Seq<EF>,
)
    requires
        a.len() == pow2(ch.len()),
        b.len() == a.len(),
        c.len() == a.len(),
        algebra::all_valid(a),
        algebra::all_valid(b),
        algebra::all_valid(c),
        forall|i: int|
            0 <= i < proof.rounds().len() ==> algebra::all_valid(#[trigger] proof.rounds()[i]),
        sumfeat::weighted_ok(claim, proof, a, 3, ch),
        proof.final_evals@[1] == multilinear::mle(b, ch.reverse()),
        proof.final_evals@[2] == multilinear::mle(c, ch.reverse()),
    ensures
        claim == algebra::sum(a.len(), |k: int| (a[k] * b[k]) * c[k]) || sumcheck::lucky(
            seq![a, b, c],
            proof.rounds(),
            ch,
        ),
{
    let polys = seq![a, b, c];
    let finals = proof.final_evals@;
    assert(polys[0] == a && polys[1] == b && polys[2] == c);
    assert(proof.rounds().len() == proof.round_polys@.len());
    assert forall|j: int| 0 <= j < polys.len() implies #[trigger] finals[j] == multilinear::mle(
        polys[j],
        ch.reverse(),
    ) by {
    }
    sumcheck::law_sound(claim, polys, proof.rounds(), finals, ch);
    features::lemma_hypercube_three(a, b, c);
    let f = |i: int| sumcheck::vertex_product(polys, i);
    let g = |i: int| algebra::prod(polys.len(), |j: int| polys[j][i]);
    algebra::sum_ext(pow2(ch.len()), f, g);
}

/// The stacked inputs hold the entries of the streams.
proof fn lemma_x_entry(
    polys: Map<Seq<char>, Seq<EF>>,
    config: Config,
    x0: Grid,
    i: int,
    e: int,
)
    requires
        features::inputs_committed(polys, config, x0),
        0 <= i < pow2(sumfeat::inst_bits(config)),
        0 <= e < pow2(sumfeat::elem_bits(config)),
    ensures
        0 <= i * pow2(sumfeat::elem_bits(config)) + e < sumfeat::x_table(polys, config, x0).len(),
        sumfeat::x_table(polys, config, x0)[i * pow2(sumfeat::elem_bits(config)) + e] == (if i
            < sumfeat::norm_count(config) {
            stream_entry(polys, config, x0, i, e)
        } else {
            EF::zero()
        }),
{
    let m = pow2(sumfeat::elem_bits(config));
    sumfeat::lemma_feature_sizes(config);
    canonical::lemma_sizes(config, Kind::XOut);
    residual::lemma_embedding(config, x0);
    EF::law_embed(0, 0);
    grid::lemma_cell(pow2(sumfeat::inst_bits(config)), m, i, e);
    let rp = pow2(canonical::row_bits(config, Kind::XOut));
    let cp = pow2(canonical::col_bits(config, Kind::XOut));
    grid::lemma_position(rp, cp, e);
}

/// The sum of row `r` of the stream before normalization `i`.
pub open spec fn row_total(
    polys: Map<Seq<char>, Seq<EF>>,
    config: Config,
    x0: Grid,
    i: int,
    r: int,
) -> EF {
    let cp = pow2(canonical::col_bits(config, Kind::XOut));
    algebra::sum(cp, |c: int| stream_entry(polys, config, x0, i, r * cp + c))
}

/// The sum of the squares of row `r` of the stream before normalization `i`.
pub open spec fn row_squares(
    polys: Map<Seq<char>, Seq<EF>>,
    config: Config,
    x0: Grid,
    i: int,
    r: int,
) -> EF {
    let cp = pow2(canonical::col_bits(config, Kind::XOut));
    algebra::sum(
        cp,
        |c: int|
            stream_entry(polys, config, x0, i, r * cp + c) * stream_entry(
                polys,
                config,
                x0,
                i,
                r * cp + c,
            ),
    )
}

/// The variances of normalization `i`: for every row, the number of features times the
/// sum of the squares, minus the square of the sum.
pub open spec fn variance_table(
    polys: Map<Seq<char>, Seq<EF>>,
    config: Config,
    x0: Grid,
    i: int,
) -> Seq<EF> {
    Seq::new(
        pow2(canonical::row_bits(config, Kind::XOut)),
        |r: int|
            EF::embed(config.d_model as int) * row_squares(polys, config, x0, i, r) - row_total(
                polys,
                config,
                x0,
                i,
                r,
            ) * row_total(polys, config, x0, i, r),
    )
}

/// The variances of all rows of all normalizations, from the stacked inputs.
pub open spec fn stacked_variance(x: Seq<EF>, s: Seq<EF>, cp: nat, d: EF) -> Seq<EF> {
    Seq::new(s.len(), |b: int| d * features::square_sum_at(x, cp, b) - s[b] * s[b])
}

/// The block of a normalization in the stacked variances.
#[verifier::rlimit(40)]
#[verifier::spinoff_prover]
proof fn lemma_variance_block(
    polys: Map<Seq<char>, Seq<EF>>,
    config: Config,
    x0: Grid,
    i: int,
)
    requires
        features::inputs_committed(polys, config, x0),
        0 <= i < pow2(sumfeat::inst_bits(config)),
    ensures
        ({
            let rp = pow2(sumfeat::row_bits(config));
            let t = stacked_variance(
                sumfeat::x_table(polys, config, x0),
                sumfeat::sum_table(polys, config, x0),
                pow2(sumfeat::col_bits(config)),
                sumfeat::feature_count(config),
            );
            &&& 0 <= i * rp && (i + 1) * rp <= t.len()
            &&& i < sumfeat::norm_count(config) ==> t.subrange(i * rp, (i + 1) * rp)
                == variance_table(polys, config, x0, i)
            &&& i >= sumfeat::norm_count(config) ==> forall|r: int|
                0 <= r < rp ==> #[trigger] t[i * rp + r] == EF::zero()
        }),
{
    let (rp, cp) = (pow2(sumfeat::row_bits(config)), pow2(sumfeat::col_bits(config)));
    let ip = pow2(sumfeat::inst_bits(config));
    let m = pow2(sumfeat::elem_bits(config));
    let x = sumfeat::x_table(polys, config, x0);
    let s = sumfeat::sum_table(polys, config, x0);
    let d = sumfeat::feature_count(config);
    let t = stacked_variance(x, s, cp, d);
    sumfeat::lemma_feature_sizes(config);
    completeness::lemma_block_range(rp, ip, i);
    assert(rp * ip == ip * rp) by (nonlinear_arith);
    let want = variance_table(polys, config, x0, i);
    assert forall|r: int| 0 <= r < rp implies #[trigger] t[i * rp + r] == (if i
        < sumfeat::norm_count(config) {
        want[r]
    } else {
        EF::zero()
    }) by {
        let b = i * rp + r;
        let f = |c: int| x[b * cp + c];
        let g = |c: int| x[b * cp + c] * x[b * cp + c];
        let fe = |c: int| stream_entry(polys, config, x0, i, r * cp + c);
        let ge = |c: int|
            stream_entry(polys, config, x0, i, r * cp + c) * stream_entry(
                polys,
                config,
                x0,
                i,
                r * cp + c,
            );
        assert forall|c: int| 0 <= c < cp implies x[b * cp + c] == (if i
            < sumfeat::norm_count(config) {
            #[trigger] stream_entry(polys, config, x0, i, r * cp + c)
        } else {
            EF::zero()
        }) by {
            grid::lemma_cell(rp, cp, r, c);
            lemma_x_entry(polys, config, x0, i, r * cp + c);
            assert(b * cp + c == i * m + (r * cp + c)) by (nonlinear_arith)
                requires
                    b == i * rp + r,
                    m == rp * cp,
            ;
        }
        if i < sumfeat::norm_count(config) {
            assert forall|c: int| 0 <= c < cp implies #[trigger] f(c) == fe(c) by {
                assert(stream_entry(polys, config, x0, i, r * cp + c) == fe(c));
            }
            assert forall|c: int| 0 <= c < cp implies #[trigger] g(c) == ge(c) by {
                assert(stream_entry(polys, config, x0, i, r * cp + c) == fe(c));
            }
            algebra::sum_ext(cp, f, fe);
            algebra::sum_ext(cp, g, ge);
        } else {
            EF::law_valid(EF::zero(), EF::zero());
            algebra::mul_zero(EF::zero());
            algebra::mul_zero(d);
            assert forall|c: int| 0 <= c < cp implies #[trigger] f(c) == EF::zero() by {
                assert(stream_entry(polys, config, x0, i, r * cp + c) == fe(c));
            }
            assert forall|c: int| 0 <= c < cp implies #[trigger] g(c) == EF::zero() by {
                assert(stream_entry(polys, config, x0, i, r * cp + c) == fe(c));
            }
            algebra::sum_zero(cp, f);
            algebra::sum_zero(cp, g);
            algebra::sub_self(EF::zero());
        }
    }
    if i < sumfeat::norm_count(config) {
        assert(t.subrange(i * rp, (i + 1) * rp) =~= want) by {
            assert forall|r: int| 0 <= r < rp implies #[trigger] t.subrange(
                i * rp,
                (i + 1) * rp,
            )[r] == want[r] by {
                assert(t.subrange(i * rp, (i + 1) * rp)[r] == t[i * rp + r]);
            }
        }
    }
}

/// The weighted squares minus the weighted squared sums are the variances, weighted.
#[verifier::rlimit(40)]
#[verifier::spinoff_prover]
proof fn lemma_variance_weighted(
    polys: Map<Seq<char>, Seq<EF>>,
    config: Config,
    x0: Grid,
    d: VarDraws,
)
    requires
        features::inputs_committed(polys, config, x0),
        d.rho.len() == sumfeat::row_bits(config),
    ensures
        sumfeat::feature_count(config) * sumfeat::weighted_squares(
            sumfeat::square_weights(config, d),
            sumfeat::x_table(polys, config, x0),
        ) - sumfeat::weighted_squares(
            sumfeat::sum_weights(config, d),
            sumfeat::sum_table(polys, config, x0),
        ) == algebra::sum(
            sumfeat::norm_count(config),
            |i: int|
                domain::pow(d.gamma, i as nat) * multilinear::mle(
                    variance_table(polys, config, x0, i),
                    d.rho,
                ),
        ),
{
    let x = sumfeat::x_table(polys, config, x0);
    let s = sumfeat::sum_table(polys, config, x0);
    let ws = sumfeat::square_weights(config, d);
    let vs = sumfeat::sum_weights(config, d);
    let (rp, cp) = (pow2(sumfeat::row_bits(config)), pow2(sumfeat::col_bits(config)));
    let rows = pow2(sumfeat::row_bits(config) + sumfeat::inst_bits(config));
    let fc = sumfeat::feature_count(config);
    let t = stacked_variance(x, s, cp, fc);
    let ib = sumfeat::inst_bits(config);
    let n = sumfeat::norm_count(config);
    sumfeat::lemma_feature_sizes(config);
    let f = |k: int| (ws[k] * x[k]) * x[k];
    features::lemma_blocks(rows, cp, f);
    let by_row = |b: int| algebra::sum(cp, |e: int| f(b * cp + e));
    let q = |b: int| vs[b] * features::square_sum_at(x, cp, b);
    assert forall|b: int| 0 <= b < rows implies #[trigger] by_row(b) == q(b) by {
        let a = |c: int| x[b * cp + c] * x[b * cp + c];
        let g = |e: int| f(b * cp + e);
        let h = |c: int| vs[b] * a(c);
        assert forall|c: int| 0 <= c < cp implies #[trigger] g(c) == h(c) by {
            grid::lemma_cell(rows, cp, b, c);
            vstd::arithmetic::div_mod::lemma_div_basics(b);
            let k = b * cp + c;
            assert(ws[k] == vs[b]);
            EF::law_mul_assoc(ws[k], x[k], x[k]);
        }
        algebra::sum_ext(cp, g, h);
        algebra::sum_scale(cp, vs[b], a);
    }
    algebra::sum_ext(rows, by_row, q);
    let sq = |b: int| (vs[b] * s[b]) * s[b];
    let qd = |b: int| fc * q(b);
    algebra::sum_scale(rows, fc, q);
    algebra::sum_sub(rows, qd, sq);
    let diff = |b: int| qd(b) - sq(b);
    let v = |b: int| sumfeat::block_weight_at(d.rho, d.gamma, 1, b) * t[b];
    assert forall|b: int| 0 <= b < rows implies #[trigger] diff(b) == v(b) by {
        let (wt, sqr, sm) = (vs[b], features::square_sum_at(x, cp, b), s[b]);
        EF::law_mul_assoc(fc, wt, sqr);
        EF::law_mul_comm(fc, wt);
        EF::law_mul_assoc(wt, fc, sqr);
        EF::law_mul_assoc(wt, sm, sm);
        algebra::sub_distrib(wt, fc * sqr, sm * sm);
    }
    algebra::sum_ext(rows, diff, v);
    assert forall|b: int| 0 <= b < t.len() implies (#[trigger] t[b]).valid() by {
        EF::law_valid(fc * features::square_sum_at(x, cp, b), s[b] * s[b]);
    }
    assert forall|k: int| n * rp <= k < t.len() implies #[trigger] t[k] == EF::zero() by {
        grid::lemma_position(pow2(ib), rp, k);
        let (i, r) = (k / rp as int, k % rp as int);
        assert(i >= n) by (nonlinear_arith)
            requires
                k == i * rp + r,
                k >= n * rp,
                r < rp,
        ;
        lemma_variance_block(polys, config, x0, i);
        assert(t[i * rp + r] == EF::zero());
    }
    features::lemma_gamma_blocks(t, d.rho, d.gamma, n, ib, v);
    let left = |i: int| domain::pow(d.gamma, i as nat) * commit::block_value(t, d.rho, i);
    let right = |i: int|
        domain::pow(d.gamma, i as nat) * multilinear::mle(
            variance_table(polys, config, x0, i),
            d.rho,
        );
    assert forall|i: int| 0 <= i < n implies #[trigger] left(i) == right(i) by {
        lemma_variance_block(polys, config, x0, i);
    }
    algebra::sum_ext(n, left, right);
}

/// All sumchecks of the proof hold canonical values.
pub open spec fn features_valid(proof: SumFeatProof) -> bool {
    &&& forall|i: int|
        0 <= i < proof.q2.rounds().len() ==> algebra::all_valid(#[trigger] proof.q2.rounds()[i])
    &&& forall|i: int|
        0 <= i < proof.sq.rounds().len() ==> algebra::all_valid(#[trigger] proof.sq.rounds()[i])
    &&& forall|i: int|
        0 <= i < proof.aln.rounds().len() ==> algebra::all_valid(
            #[trigger] proof.aln.rounds()[i],
        )
    &&& forall|i: int|
        0 <= i < proof.se.rounds().len() ==> algebra::all_valid(#[trigger] proof.se.rounds()[i])
}

/// The committed polynomials have the sizes of the layout, and the proof is accepted with
/// true openings.
pub open spec fn features_hold(
    proof: SumFeatProof,
    polys: Map<Seq<char>, Seq<EF>>,
    config: Config,
    w: ModelWeights,
    x0: Grid,
    tape: Seq<EF>,
) -> bool {
    &&& features::inputs_committed(polys, config, x0)
    &&& kind_sound(polys, config, Kind::Var)
    &&& kind_sound(polys, config, Kind::ALn)
    &&& kind_sound(polys, config, Kind::Exp)
    &&& kind_sound(polys, config, Kind::SumExp)
    &&& features_valid(proof)
    &&& tape.len() == sumfeat::feature_draws(config)
    &&& algebra::all_valid(tape)
    &&& sumfeat::features_accepted(proof, config, w, x0, tape)
    &&& commit::all_hold(sumfeat::feature_claims(proof, config, tape), polys)
}

/// A draw of the variance relation lets a false sum of squares pass.
pub open spec fn variance_lucky(
    proof: SumFeatProof,
    polys: Map<Seq<char>, Seq<EF>>,
    config: Config,
    x0: Grid,
    tape: Seq<EF>,
) -> bool {
    let d = sumfeat::var_draws(config, sumfeat::var_tape(config, tape));
    let x = sumfeat::x_table(polys, config, x0);
    let s = sumfeat::sum_table(polys, config, x0);
    ||| sumcheck::lucky(
        seq![sumfeat::square_weights(config, d), x, x],
        proof.q2.rounds(),
        d.q2,
    )
    ||| sumcheck::lucky(seq![sumfeat::sum_weights(config, d), s, s], proof.sq.rounds(), d.sq)
}

/// The values of a kind, weighted by the powers of `gamma`.
proof fn lemma_kind_weighted(
    polys: Map<Seq<char>, Seq<EF>>,
    config: Config,
    kind: Kind,
    p: Seq<EF>,
    vals: Seq<EF>,
    gamma: EF,
)
    requires
        canonical::sizes_fit(config),
        kind_sound(polys, config, kind),
        p.len() == canonical::elem_bits(config, kind),
        canonical::dims(config, kind).0 == sumfeat::norm_count(config),
        vals.len() == sumfeat::norm_count(config),
        commit::all_hold(
            sumfeat::kind_claims(config, kind, p, vals, sumfeat::norm_count(config)),
            polys,
        ),
    ensures
        sumfeat::gamma_sum(gamma, vals) == algebra::sum(
            sumfeat::norm_count(config),
            |i: int|
                domain::pow(gamma, i as nat) * multilinear::mle(
                    Seq::new(pow2(p.len()), |e: int| polys[kind.text()][i * pow2(p.len()) + e]),
                    p,
                ),
        ),
{
    let n = sumfeat::norm_count(config);
    let f = |i: int| domain::pow(gamma, i as nat) * vals[i];
    let g = |i: int|
        domain::pow(gamma, i as nat) * multilinear::mle(
            Seq::new(pow2(p.len()), |e: int| polys[kind.text()][i * pow2(p.len()) + e]),
            p,
        );
    assert forall|i: int| 0 <= i < n implies #[trigger] f(i) == g(i) by {
        lemma_kind_opened(polys, config, kind, p, vals, n, i);
        lemma_slice(polys, config, kind, p, i);
    }
    algebra::sum_ext(n, f, g);
}

/// Soundness of the variances: where the openings of an accepted proof are true, the
/// committed variances and those of the streams, each weighted by powers of the first draw
/// and taken at the following draws, have one sum, unless a later draw lets a false sum of
/// squares pass.
#[verifier::rlimit(60)]
#[verifier::spinoff_prover]
pub proof fn law_variance_sound(
    proof: SumFeatProof,
    polys: Map<Seq<char>, Seq<EF>>,
    config: Config,
    w: ModelWeights,
    x0: Grid,
    tape: Seq<EF>,
)
    requires
        features_hold(proof, polys, config, w, x0, tape),
    ensures
        ({
            let b = canonical::row_bits(config, Kind::XOut);
            let rho = tape.subrange(1, 1 + b as int);
            ||| algebra::sum(
                (2 * config.n_layer + 1) as nat,
                |i: int|
                    domain::pow(tape[0], i as nat) * multilinear::mle(
                        Seq::new(pow2(b), |r: int| polys[VAR@][i * pow2(b) + r]),
                        rho,
                    ),
            ) == algebra::sum(
                (2 * config.n_layer + 1) as nat,
                |i: int|
                    domain::pow(tape[0], i as nat) * multilinear::mle(
                        variance_table(polys, config, x0, i),
                        rho,
                    ),
            )
            ||| variance_lucky(proof, polys, config, x0, tape)
        }),
{
    let part = proof.var_part();
    let d = sumfeat::var_draws(config, sumfeat::var_tape(config, tape));
    let n = sumfeat::norm_count(config);
    let x = sumfeat::x_table(polys, config, x0);
    let s = sumfeat::sum_table(polys, config, x0);
    let ws = sumfeat::square_weights(config, d);
    let vs = sumfeat::sum_weights(config, d);
    let b = canonical::row_bits(config, Kind::XOut);
    sumfeat::lemma_feature_sizes(config);
    features::lemma_x_valid(polys, config, x0);
    assert(d.rho =~= tape.subrange(1, 1 + b as int));
    assert(d.gamma == tape[0]);
    let c1 = sumfeat::var_claims(part, config, d);
    let c2 = sumfeat::dividend_claims(
        proof.dividend_part(),
        config,
        sumfeat::dividend_draws(config, sumfeat::dividend_tape(config, tape)),
    );
    let c3 = sumfeat::sum_exp_claims(
        proof.sum_exp_part(),
        config,
        sumfeat::sum_exp_tape(config, tape),
    );
    lemma_hold_split(c1 + c2, c3, polys);
    lemma_hold_split(c1, c2, polys);
    let (p, index) = (
        sumfeat::square_point(config, d.q2),
        sumfeat::square_index(config, d.q2),
    );
    let (sp, si) = (sumfeat::sum_point(config, d.sq), sumfeat::sum_index(config, d.sq));
    let k1 = sumfeat::input_claims(config, p, part.q2_x@, n);
    let k2 = sumfeat::input_claims(config, sp, part.sq_x@, n);
    let k3 = sumfeat::kind_claims(config, Kind::Var, d.rho, part.var_v@, n);
    lemma_hold_split(k1 + k2, k3, polys);
    lemma_hold_split(k1, k2, polys);
    lemma_inputs_true(polys, config, x0, p, part.q2_x@);
    lemma_inputs_true(polys, config, x0, sp, part.sq_x@);
    assert(p + index =~= d.q2.reverse());
    features::lemma_x_value(polys, config, x0, p, index);
    let h = sumfeat::halves(sumfeat::col_bits(config));
    assert(h + d.sq.reverse() =~= sp + si);
    assert(sumfeat::col_bits(config) + d.sq.len() == sumfeat::elem_bits(config)
        + sumfeat::inst_bits(config));
    features::lemma_sums_value(x, sumfeat::col_bits(config), d.sq.reverse());
    features::lemma_x_value(polys, config, x0, sp, si);
    assert forall|k: int| 0 <= k < ws.len() implies (#[trigger] ws[k]).valid() by {
        features::lemma_weight_valid(d.rho, d.gamma, pow2(sumfeat::col_bits(config)), k);
    }
    assert forall|k: int| 0 <= k < vs.len() implies (#[trigger] vs[k]).valid() by {
        features::lemma_weight_valid(d.rho, d.gamma, 1, k);
    }
    assert forall|k: int| 0 <= k < s.len() implies (#[trigger] s[k]).valid() by {
        algebra::sum_valid(
            pow2(sumfeat::col_bits(config)),
            |c: int| x[k * pow2(sumfeat::col_bits(config)) + c],
        );
    }
    lemma_three_sound(part.q2_claim, ws, x, x, part.q2, d.q2);
    lemma_three_sound(part.sq_claim, vs, s, s, part.sq, d.sq);
    if !variance_lucky(proof, polys, config, x0, tape) {
        lemma_variance_weighted(polys, config, x0, d);
        lemma_kind_weighted(polys, config, Kind::Var, d.rho, part.var_v@, d.gamma);
        let f = |i: int|
            domain::pow(d.gamma, i as nat) * multilinear::mle(
                Seq::new(
                    pow2(d.rho.len()),
                    |e: int| polys[Kind::Var.text()][i * pow2(d.rho.len()) + e],
                ),
                d.rho,
            );
        let g = |i: int|
            domain::pow(tape[0], i as nat) * multilinear::mle(
                Seq::new(pow2(b), |r: int| polys[VAR@][i * pow2(b) + r]),
                d.rho,
            );
        assert forall|i: int| 0 <= i < n implies #[trigger] f(i) == g(i) by {
            assert(Seq::new(
                pow2(d.rho.len()),
                |e: int| polys[Kind::Var.text()][i * pow2(d.rho.len()) + e],
            ) =~= Seq::new(pow2(b), |r: int| polys[VAR@][i * pow2(b) + r]));
        }
        algebra::sum_ext(n, f, g);
        let fr = |i: int|
            domain::pow(d.gamma, i as nat) * multilinear::mle(
                variance_table(polys, config, x0, i),
                d.rho,
            );
        let gr = |i: int|
            domain::pow(tape[0], i as nat) * multilinear::mle(
                variance_table(polys, config, x0, i),
                tape.subrange(1, 1 + b as int),
            );
        algebra::sum_ext(n, fr, gr);
    }
}

/// The gain of column `c` in normalization `i`: the final one is the last, and a block has
/// one before its attention and one before its feed-forward layer.
pub open spec fn gain_entry(config: Config, w: ModelWeights, i: int, c: int) -> int {
    if i == 2 * config.n_layer {
        w.ln_f_g@[c] as int
    } else if i % 2 == 0 {
        w.blocks@[i / 2].ln_1_g@[c] as int
    } else {
        w.blocks@[i / 2].ln_2_g@[c] as int
    }
}

/// The dividends of normalization `i`: in the real columns, the gain times the number of
/// features times the entry minus the sum of its row.
pub open spec fn dividend_table(
    polys: Map<Seq<char>, Seq<EF>>,
    config: Config,
    w: ModelWeights,
    x0: Grid,
    i: int,
) -> Seq<EF> {
    let cp = pow2(canonical::col_bits(config, Kind::XOut)) as int;
    Seq::new(
        pow2(canonical::elem_bits(config, Kind::XOut)),
        |e: int|
            if e % cp < config.d_model {
                EF::embed(gain_entry(config, w, i, e % cp)) * (EF::embed(config.d_model as int)
                    * stream_entry(polys, config, x0, i, e) - row_total(
                    polys,
                    config,
                    x0,
                    i,
                    e / cp,
                ))
            } else {
                EF::zero()
            },
    )
}

/// The dividends of all normalizations, from the stacked inputs.
pub open spec fn stacked_dividend(gain: Seq<EF>, y: Seq<EF>) -> Seq<EF> {
    Seq::new(y.len(), |k: int| gain[k] * y[k])
}

/// The block of a normalization in the stacked dividends.
#[verifier::rlimit(40)]
#[verifier::spinoff_prover]
proof fn lemma_dividend_block(
    polys: Map<Seq<char>, Seq<EF>>,
    config: Config,
    w: ModelWeights,
    x0: Grid,
    i: int,
)
    requires
        features::inputs_committed(polys, config, x0),
        w.wf(config),
        w.blocks@.len() == config.n_layer,
        0 <= i < pow2(sumfeat::inst_bits(config)),
    ensures
        ({
            let m = pow2(sumfeat::elem_bits(config));
            let x = sumfeat::x_table(polys, config, x0);
            let y = sumfeat::centred_table(
                x,
                sumfeat::sum_table(polys, config, x0),
                pow2(sumfeat::col_bits(config)),
                sumfeat::feature_count(config),
            );
            let t = stacked_dividend(sumfeat::gain_table(config, w), y);
            &&& 0 <= i * m && (i + 1) * m <= t.len()
            &&& i < sumfeat::norm_count(config) ==> t.subrange(i * m, (i + 1) * m)
                == dividend_table(polys, config, w, x0, i)
            &&& i >= sumfeat::norm_count(config) ==> forall|e: int|
                0 <= e < m ==> #[trigger] t[i * m + e] == EF::zero()
        }),
{
    let (rp, cp) = (pow2(sumfeat::row_bits(config)), pow2(sumfeat::col_bits(config)));
    let ip = pow2(sumfeat::inst_bits(config));
    let m = pow2(sumfeat::elem_bits(config));
    let n = sumfeat::norm_count(config);
    let x = sumfeat::x_table(polys, config, x0);
    let s = sumfeat::sum_table(polys, config, x0);
    let d = sumfeat::feature_count(config);
    let gain = sumfeat::gain_table(config, w);
    let y = sumfeat::centred_table(x, s, cp, d);
    let t = stacked_dividend(gain, y);
    sumfeat::lemma_feature_sizes(config);
    completeness::lemma_block_range(m, ip, i);
    assert(m * ip == ip * m) by (nonlinear_arith);
    let want = dividend_table(polys, config, w, x0, i);
    assert forall|e: int| 0 <= e < m implies #[trigger] t[i * m + e] == (if i < n {
        want[e]
    } else {
        EF::zero()
    }) by {
        let k = i * m + e;
        let (r, c) = (e / cp as int, e % cp as int);
        grid::lemma_position(rp, cp, e);
        lemma_x_entry(polys, config, x0, i, e);
        vstd::arithmetic::div_mod::lemma_fundamental_div_mod_converse(k, m as int, i, e);
        let b = i * rp + r;
        assert(k == b * cp + c) by (nonlinear_arith)
            requires
                k == i * m + e,
                e == r * cp + c,
                m == rp * cp,
                b == i * rp + r,
        ;
        vstd::arithmetic::div_mod::lemma_fundamental_div_mod_converse(k, cp as int, b, c);
        assert(gain[k] == sumfeat::gain_at(config, w, k));
        if i < n && c < config.d_model {
            let f = |c: int| x[b * cp + c];
            let fe = |c: int| stream_entry(polys, config, x0, i, r * cp + c);
            assert forall|c: int| 0 <= c < cp implies #[trigger] f(c) == fe(c) by {
                grid::lemma_cell(rp, cp, r, c);
                lemma_x_entry(polys, config, x0, i, r * cp + c);
                assert(b * cp + c == i * m + (r * cp + c)) by (nonlinear_arith)
                    requires
                        b == i * rp + r,
                        m == rp * cp,
                ;
            }
            algebra::sum_ext(cp, f, fe);
            if i < 2 * config.n_layer {
                assert(w.blocks@[i / 2].wf(config));
            }
            assert(0 <= b < s.len()) by {
                grid::lemma_cell(ip, rp, i, r);
            }
            assert(s[b] == row_total(polys, config, x0, i, r));
        } else {
            algebra::mul_zero(y[k]);
            EF::law_mul_comm(EF::zero(), y[k]);
        }
    }
    if i < n {
        assert(t.subrange(i * m, (i + 1) * m) =~= want) by {
            assert forall|e: int| 0 <= e < m implies #[trigger] t.subrange(
                i * m,
                (i + 1) * m,
            )[e] == want[e] by {
                assert(t.subrange(i * m, (i + 1) * m)[e] == t[i * m + e]);
            }
        }
    }
}

/// The sum over the three factors is the weighted sum of the dividends.
#[verifier::rlimit(40)]
#[verifier::spinoff_prover]
proof fn lemma_dividend_weighted(
    polys: Map<Seq<char>, Seq<EF>>,
    config: Config,
    w: ModelWeights,
    x0: Grid,
    d: DividendDraws,
)
    requires
        features::inputs_committed(polys, config, x0),
        w.wf(config),
        w.blocks@.len() == config.n_layer,
        d.rho.len() == sumfeat::elem_bits(config),
    ensures
        ({
            let ws = sumfeat::dividend_weights(config, d);
            let gain = sumfeat::gain_table(config, w);
            let y = sumfeat::centred_table(
                sumfeat::x_table(polys, config, x0),
                sumfeat::sum_table(polys, config, x0),
                pow2(sumfeat::col_bits(config)),
                sumfeat::feature_count(config),
            );
            algebra::sum(ws.len(), |k: int| (ws[k] * gain[k]) * y[k]) == algebra::sum(
                sumfeat::norm_count(config),
                |i: int|
                    domain::pow(d.gamma, i as nat) * multilinear::mle(
                        dividend_table(polys, config, w, x0, i),
                        d.rho,
                    ),
            )
        }),
{
    let n = sumfeat::norm_count(config);
    let cp = pow2(sumfeat::col_bits(config));
    let m = pow2(sumfeat::elem_bits(config));
    let ib = sumfeat::inst_bits(config);
    let ws = sumfeat::dividend_weights(config, d);
    let gain = sumfeat::gain_table(config, w);
    let y = sumfeat::centred_table(
        sumfeat::x_table(polys, config, x0),
        sumfeat::sum_table(polys, config, x0),
        cp,
        sumfeat::feature_count(config),
    );
    let t = stacked_dividend(gain, y);
    sumfeat::lemma_feature_sizes(config);
    let f = |k: int| (ws[k] * gain[k]) * y[k];
    let v = |k: int| sumfeat::block_weight_at(d.rho, d.gamma, 1, k) * t[k];
    assert forall|k: int| 0 <= k < ws.len() implies #[trigger] f(k) == v(k) by {
        EF::law_mul_assoc(ws[k], gain[k], y[k]);
    }
    algebra::sum_ext(ws.len(), f, v);
    assert forall|k: int| 0 <= k < t.len() implies (#[trigger] t[k]).valid() by {
        EF::law_valid(gain[k], y[k]);
    }
    assert forall|k: int| n * m <= k < t.len() implies #[trigger] t[k] == EF::zero() by {
        grid::lemma_position(pow2(ib), m, k);
        let (i, e) = (k / m as int, k % m as int);
        assert(i >= n) by (nonlinear_arith)
            requires
                k == i * m + e,
                k >= n * m,
                e < m,
        ;
        lemma_dividend_block(polys, config, w, x0, i);
        assert(t[i * m + e] == EF::zero());
    }
    features::lemma_gamma_blocks(t, d.rho, d.gamma, n, ib, v);
    let left = |i: int| domain::pow(d.gamma, i as nat) * commit::block_value(t, d.rho, i);
    let right = |i: int|
        domain::pow(d.gamma, i as nat) * multilinear::mle(
            dividend_table(polys, config, w, x0, i),
            d.rho,
        );
    assert forall|i: int| 0 <= i < n implies #[trigger] left(i) == right(i) by {
        lemma_dividend_block(polys, config, w, x0, i);
    }
    algebra::sum_ext(n, left, right);
}

/// The centred entries at the point of the openings.
#[verifier::rlimit(40)]
#[verifier::spinoff_prover]
proof fn lemma_centred_value(
    part: DividendPart,
    polys: Map<Seq<char>, Seq<EF>>,
    config: Config,
    x0: Grid,
    ch: Seq<EF>,
)
    requires
        features::inputs_committed(polys, config, x0),
        ch.len() == sumfeat::elem_bits(config) + sumfeat::inst_bits(config),
        part.x@ == sumfeat::inputs_at(polys, config, x0, sumfeat::square_point(config, ch)),
        part.sumx@ == sumfeat::inputs_at(
            polys,
            config,
            x0,
            sumfeat::dividend_sum_point(config, ch),
        ),
    ensures
        ({
            let y = sumfeat::centred_table(
                sumfeat::x_table(polys, config, x0),
                sumfeat::sum_table(polys, config, x0),
                pow2(sumfeat::col_bits(config)),
                sumfeat::feature_count(config),
            );
            let index = sumfeat::square_index(config, ch);
            &&& algebra::all_valid(y)
            &&& y.len() == pow2(ch.len())
            &&& multilinear::mle(y, ch.reverse()) == sumfeat::feature_count(config)
                * sumfeat::combined(index, part.x@) - sumfeat::column_count(config)
                * sumfeat::combined(index, part.sumx@)
        }),
{
    let cb = sumfeat::col_bits(config);
    let cp = pow2(cb);
    let x = sumfeat::x_table(polys, config, x0);
    let s = sumfeat::sum_table(polys, config, x0);
    let fc = sumfeat::feature_count(config);
    let y = sumfeat::centred_table(x, s, cp, fc);
    sumfeat::lemma_feature_sizes(config);
    features::lemma_x_valid(polys, config, x0);
    assert forall|k: int| 0 <= k < y.len() implies (#[trigger] y[k]).valid() by {
        EF::law_valid(fc * x[k], s[k / cp as int]);
    }
    let rev = ch.reverse();
    let (p, index) = (sumfeat::square_point(config, ch), sumfeat::square_index(config, ch));
    assert(p + index =~= rev);
    features::lemma_x_value(polys, config, x0, p, index);
    let sp = sumfeat::dividend_sum_point(config, ch);
    let (cols, rows) = (rev.take(cb as int), rev.skip(cb as int));
    assert(cols + rows =~= rev);
    assert(sumfeat::halves(cb) + rows =~= sp + index);
    features::lemma_sums_value(x, cb, rows);
    features::lemma_x_value(polys, config, x0, sp, index);
    assert forall|k: int| 0 <= k < s.len() implies (#[trigger] s[k]).valid() by {
        algebra::sum_valid(cp, |c: int| x[k * cp + c]);
    }
    let wide = tables::stretched(s, cb);
    tables::lemma_mle_stretched(s, cols, rows);
    let scaled = Seq::new(x.len(), |k: int| fc * x[k]);
    multilinear::lemma_mle_scale(fc, x, rev);
    let sum = Seq::new(y.len(), |k: int| y[k] + wide[k]);
    assert(wide.len() == y.len());
    assert(sum =~= scaled) by {
        assert forall|k: int| 0 <= k < y.len() implies #[trigger] sum[k] == scaled[k] by {
            EF::law_valid(fc, x[k]);
            algebra::sub_add(fc * x[k], s[k / cp as int]);
        }
    }
    multilinear::lemma_mle_add(y, wide, rev);
    commit::lemma_mle_valid(y, rev);
    completeness::lemma_add_sub(multilinear::mle(y, rev), multilinear::mle(wide, rev));
}

/// A draw of the dividend relation lets a false sum pass.
pub open spec fn dividend_lucky(
    proof: SumFeatProof,
    polys: Map<Seq<char>, Seq<EF>>,
    config: Config,
    w: ModelWeights,
    x0: Grid,
    tape: Seq<EF>,
) -> bool {
    let d = sumfeat::dividend_draws(config, sumfeat::dividend_tape(config, tape));
    sumcheck::lucky(
        sumfeat::dividend_tables(polys, config, w, x0, d),
        proof.aln.rounds(),
        d.ch,
    )
}

/// Soundness of the dividends: where the openings of an accepted proof are true, the
/// committed dividends and those of the streams, each weighted by powers of the relation's
/// first draw and taken at the following draws, have one sum, unless a later draw lets a
/// false sum pass.
#[verifier::rlimit(60)]
#[verifier::spinoff_prover]
pub proof fn law_dividend_sound(
    proof: SumFeatProof,
    polys: Map<Seq<char>, Seq<EF>>,
    config: Config,
    w: ModelWeights,
    x0: Grid,
    tape: Seq<EF>,
)
    requires
        w.wf(config),
        w.blocks@.len() == config.n_layer,
        features_hold(proof, polys, config, w, x0, tape),
    ensures
        ({
            let b = canonical::elem_bits(config, Kind::XOut);
            let d = sumfeat::dividend_draws(config, sumfeat::dividend_tape(config, tape));
            ||| algebra::sum(
                (2 * config.n_layer + 1) as nat,
                |i: int|
                    domain::pow(d.gamma, i as nat) * multilinear::mle(
                        Seq::new(pow2(b), |e: int| polys[A_LN@][i * pow2(b) + e]),
                        d.rho,
                    ),
            ) == algebra::sum(
                (2 * config.n_layer + 1) as nat,
                |i: int|
                    domain::pow(d.gamma, i as nat) * multilinear::mle(
                        dividend_table(polys, config, w, x0, i),
                        d.rho,
                    ),
            )
            ||| dividend_lucky(proof, polys, config, w, x0, tape)
        }),
{
    let part = proof.dividend_part();
    let d = sumfeat::dividend_draws(config, sumfeat::dividend_tape(config, tape));
    let n = sumfeat::norm_count(config);
    let b = canonical::elem_bits(config, Kind::XOut);
    let ws = sumfeat::dividend_weights(config, d);
    let gain = sumfeat::gain_table(config, w);
    let y = sumfeat::centred_table(
        sumfeat::x_table(polys, config, x0),
        sumfeat::sum_table(polys, config, x0),
        pow2(sumfeat::col_bits(config)),
        sumfeat::feature_count(config),
    );
    sumfeat::lemma_feature_sizes(config);
    let c1 = sumfeat::var_claims(
        proof.var_part(),
        config,
        sumfeat::var_draws(config, sumfeat::var_tape(config, tape)),
    );
    let c2 = sumfeat::dividend_claims(part, config, d);
    let c3 = sumfeat::sum_exp_claims(
        proof.sum_exp_part(),
        config,
        sumfeat::sum_exp_tape(config, tape),
    );
    lemma_hold_split(c1 + c2, c3, polys);
    lemma_hold_split(c1, c2, polys);
    let (p, sp) = (
        sumfeat::square_point(config, d.ch),
        sumfeat::dividend_sum_point(config, d.ch),
    );
    let k1 = sumfeat::kind_claims(config, Kind::ALn, d.rho, part.v@, n);
    let k2 = sumfeat::input_claims(config, p, part.x@, n);
    let k3 = sumfeat::input_claims(config, sp, part.sumx@, n);
    lemma_hold_split(k1 + k2, k3, polys);
    lemma_hold_split(k1, k2, polys);
    lemma_inputs_true(polys, config, x0, p, part.x@);
    lemma_inputs_true(polys, config, x0, sp, part.sumx@);
    lemma_centred_value(part, polys, config, x0, d.ch);
    EF::law_embed(0, 0);
    assert forall|k: int| 0 <= k < ws.len() implies (#[trigger] ws[k]).valid() by {
        features::lemma_weight_valid(d.rho, d.gamma, 1, k);
    }
    assert forall|k: int| 0 <= k < gain.len() implies (#[trigger] gain[k]).valid() by {
        EF::law_embed(
            sumfeat::gain_of(config, w, k / pow2(sumfeat::elem_bits(config)) as int)[k % pow2(
                sumfeat::col_bits(config),
            ) as int],
            0,
        );
    }
    lemma_three_sound(part.claim, ws, gain, y, part.proof, d.ch);
    assert(sumfeat::dividend_tables(polys, config, w, x0, d) =~= seq![ws, gain, y]);
    if !dividend_lucky(proof, polys, config, w, x0, tape) {
        lemma_dividend_weighted(polys, config, w, x0, d);
        lemma_kind_weighted(polys, config, Kind::ALn, d.rho, part.v@, d.gamma);
        let f = |i: int|
            domain::pow(d.gamma, i as nat) * multilinear::mle(
                Seq::new(
                    pow2(d.rho.len()),
                    |e: int| polys[Kind::ALn.text()][i * pow2(d.rho.len()) + e],
                ),
                d.rho,
            );
        let g = |i: int|
            domain::pow(d.gamma, i as nat) * multilinear::mle(
                Seq::new(pow2(b), |e: int| polys[A_LN@][i * pow2(b) + e]),
                d.rho,
            );
        assert forall|i: int| 0 <= i < n implies #[trigger] f(i) == g(i) by {
            assert(Seq::new(
                pow2(d.rho.len()),
                |e: int| polys[Kind::ALn.text()][i * pow2(d.rho.len()) + e],
            ) =~= Seq::new(pow2(b), |e: int| polys[A_LN@][i * pow2(b) + e]));
        }
        algebra::sum_ext(n, f, g);
    }
}

/// What row `k` over all heads adds to the softmax sum relation: in the real rows of real
/// heads, a power of `gamma` times the stored sum minus the sum of the row's exponentials.
pub open spec fn sum_term(
    polys: Map<Seq<char>, Seq<EF>>,
    config: Config,
    gamma: EF,
    k: int,
) -> EF {
    let rp = pow2(canonical::row_bits(config, Kind::Exp)) as int;
    let cp = pow2(canonical::col_bits(config, Kind::Exp));
    if k % rp < config.n_seq && k / rp < config.n_layer * config.n_head {
        domain::pow(gamma, k as nat) * (polys[SUM_EXP@][k] - algebra::sum(
            cp,
            |c: int| polys[EXP@][k * cp + c],
        ))
    } else {
        EF::zero()
    }
}

/// Soundness of the softmax sums: where the openings of an accepted proof are true, the
/// differences between the stored sums and the sums of the exponentials, weighted by powers
/// of the relation's first draw, add up to zero, unless a later draw lets a false sum pass.
#[verifier::rlimit(60)]
#[verifier::spinoff_prover]
pub proof fn law_softmax_sum_sound(
    proof: SumFeatProof,
    polys: Map<Seq<char>, Seq<EF>>,
    config: Config,
    w: ModelWeights,
    x0: Grid,
    tape: Seq<EF>,
)
    requires
        features_hold(proof, polys, config, w, x0, tape),
    ensures
        ({
            let t = sumfeat::sum_exp_tape(config, tape);
            ||| algebra::sum(
                pow2(canonical::all_bits(config, Kind::SumExp)),
                |k: int| sum_term(polys, config, t[0], k),
            ) == EF::zero()
            ||| sumcheck::lucky(
                seq![sumfeat::real_weights(config, t[0]), sumfeat::sum_gap(polys, config)],
                proof.se.rounds(),
                t.skip(1),
            )
        }),
{
    let part = proof.sum_exp_part();
    let t = sumfeat::sum_exp_tape(config, tape);
    let ch = t.skip(1);
    let rev = ch.reverse();
    let cb = sumfeat::exp_col_bits(config);
    let bb = sumfeat::exp_batch_bits(config);
    let cp = pow2(cb);
    let ws = sumfeat::real_weights(config, t[0]);
    let gap = sumfeat::sum_gap(polys, config);
    let kc = sumfeat::key_count(config);
    sumfeat::lemma_feature_sizes(config);
    sumfeat::lemma_exp_sizes(config);
    canonical::lemma_sizes(config, Kind::Exp);
    canonical::lemma_sizes(config, Kind::SumExp);
    let claims = sumfeat::sum_exp_claims(part, config, t);
    let c1 = sumfeat::var_claims(
        proof.var_part(),
        config,
        sumfeat::var_draws(config, sumfeat::var_tape(config, tape)),
    );
    let c2 = sumfeat::dividend_claims(
        proof.dividend_part(),
        config,
        sumfeat::dividend_draws(config, sumfeat::dividend_tape(config, tape)),
    );
    lemma_hold_split(c1 + c2, claims, polys);
    assert(claims[0].holds(polys) && claims[1].holds(polys));
    let folded = multilinear::fold_all(polys[EXP@], sumfeat::halves(cb));
    multilinear::lemma_fold_all_len(
        polys[EXP@],
        sumfeat::halves(cb),
        canonical::all_bits(config, Kind::Exp),
    );
    EF::law_valid(EF::zero(), EF::zero());
    assert forall|k: int| 0 <= k < ws.len() implies (#[trigger] ws[k]).valid() by {
        features::lemma_pow_valid(t[0], k as nat);
    }
    assert forall|k: int| 0 <= k < gap.len() implies (#[trigger] gap[k]).valid() by {
        EF::law_valid(polys[SUM_EXP@][k], kc * folded[k]);
    }
    let scaled = Seq::new(folded.len(), |k: int| kc * folded[k]);
    multilinear::lemma_mle_scale(kc, folded, rev);
    multilinear::lemma_fold_all_concat(polys[EXP@], sumfeat::halves(cb), rev);
    let sum = Seq::new(gap.len(), |k: int| gap[k] + scaled[k]);
    assert(sum =~= polys[SUM_EXP@]) by {
        assert forall|k: int| 0 <= k < gap.len() implies #[trigger] sum[k]
            == polys[SUM_EXP@][k] by {
            algebra::sub_add(polys[SUM_EXP@][k], kc * folded[k]);
        }
    }
    multilinear::lemma_mle_add(gap, scaled, rev);
    commit::lemma_mle_valid(gap, rev);
    completeness::lemma_add_sub(multilinear::mle(gap, rev), multilinear::mle(scaled, rev));
    let two = seq![ws, gap];
    assert(two[0] == ws && two[1] == gap);
    let finals = part.proof.final_evals@;
    assert(part.proof.rounds().len() == part.proof.round_polys@.len());
    assert forall|j: int| 0 <= j < two.len() implies #[trigger] finals[j] == multilinear::mle(
        two[j],
        ch.reverse(),
    ) by {
    }
    sumcheck::law_sound(EF::zero(), two, part.proof.rounds(), finals, ch);
    let f = |i: int| algebra::prod(two.len(), |j: int| two[j][i]);
    let g = |k: int| sum_term(polys, config, t[0], k);
    assert forall|k: int| 0 <= k < pow2(bb) implies #[trigger] f(k) == g(k) by {
        let h = |j: int| two[j][k];
        assert(algebra::prod(2, h) == algebra::prod(1, h) * h(1));
        assert(algebra::prod(1, h) == algebra::prod(0, h) * h(0));
        assert(ws[k].valid());
        algebra::one_mul(ws[k]);
        algebra::prod_ext(2, h, |j: int| two[j][k]);
        assert(f(k) == ws[k] * gap[k]);
        features::lemma_row_sums(polys[EXP@], cb, bb, k);
        algebra::mul_zero(gap[k]);
        EF::law_mul_comm(EF::zero(), gap[k]);
    }
    algebra::sum_ext(pow2(bb), f, g);
}

} // verus!
