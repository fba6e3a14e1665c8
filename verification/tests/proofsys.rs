use ligesis::field::{Field, Goldilocks, GoldilocksExt2};
use ligesis::pcs::scheme::PolyCommitmentScheme;
use ligesis::proofsys::canonical::{
    build_offline, build_online, ef, layout_for, pad_matrix, A_LN, Q_LN, STD, X_OUT,
};
use ligesis::proofsys::commit::{
    check_claims, eq_at_index, instance_slice_point, open_claims, stack_instances, BiasPoly,
    ClaimAccumulator, CommitSet, OracleSource, Pcs, PointMap,
};
use ligesis::proofsys::grandprod;
use ligesis::proofsys::maxprod::{prove_softmax_max, verify_softmax_max};
use ligesis::proofsys::model::{layer_norm, split_qkv_heads, BlockWeights, ModelWeights};
use ligesis::proofsys::piop::{prove, verify, PublicInput};
use ligesis::proofsys::reduce::{
    dot, prove_matmul, prove_prod, verify_matmul, verify_prod, MatmulKind,
};
use ligesis::proofsys::residual::{
    open_x, prove_xout_residual, reconstruct_x, verify_xout_residual, x0_elem,
};
use ligesis::proofsys::sumfeat::{prove_sumfeat, verify_sumfeat};
use ligesis::proofsys::tensor::{euclidean_remainder, floor_div_i128, round_sqrt, Matrix, Tensor3};
use ligesis::proofsys::witness::{encode_i64, Config, Witness};
use ligesis::utils::oracle::RandomOracle;
use ligesis::utils::poly::MlPoly;

type EF = GoldilocksExt2;

fn poly(vals: &[u64]) -> Vec<EF> {
    vals.iter().map(|&v| EF::from_base(Goldilocks::new(v))).collect()
}

fn random(n: usize, rng: &mut rand::rngs::ThreadRng) -> Vec<EF> {
    (0..n).map(|_| EF::sample(rng)).collect()
}

fn luts(cfg: &Config) -> (Vec<i64>, Vec<i64>) {
    let exp_lut = (0..=(cfg.max_v * cfg.scale)).map(|i| if i == 0 { 0 } else { 1 }).collect();
    let gelu_lut =
        (0..=(2 * cfg.max_v * cfg.scale)).map(|i| i - cfg.max_v * cfg.scale).collect();
    (exp_lut, gelu_lut)
}

fn tiny_config() -> Config {
    Config {
        n_layer: 1,
        n_seq: 2,
        n_head: 1,
        d_head: 2,
        d_model: 2,
        mlp_hidden: 3,
        vocab: 4,
        scale: 4,
        max_v: 2,
    }
}

fn tiny_weights(cfg: &Config) -> ModelWeights {
    let (exp_lut, gelu_lut) = luts(cfg);
    ModelWeights {
        wte: Matrix::new(4, 2, vec![1, 0, 0, 1, 1, 1, -1, 2]),
        wpe: Matrix::zeros(1024, 2),
        has_wpe: true,
        ln_f_g: vec![4, 4],
        ln_f_b: vec![0, 0],
        exp_lut,
        gelu_lut,
        blocks: vec![BlockWeights {
            ln_1_g: vec![4, 4],
            ln_1_b: vec![0, 0],
            attn_w: Matrix::new(2, 6, vec![1, 0, 0, 1, 1, 0, 0, 1, 1, 0, 0, 1]),
            attn_b: vec![0; 6],
            attn_proj_w: Matrix::new(2, 2, vec![1, 0, 0, 1]),
            attn_proj_b: vec![0, 0],
            ln_2_g: vec![4, 4],
            ln_2_b: vec![0, 0],
            fc_w: Matrix::new(2, 3, vec![1, 0, 1, 0, 1, -1]),
            fc_b: vec![0, 0, 0],
            fproj_w: Matrix::new(3, 2, vec![1, 0, 0, 1, 1, -1]),
            fproj_b: vec![0, 0],
        }],
    }
}

#[test]
fn signed_floor_division_matches_python_semantics() {
    let cases = [
        (-1, 4096, -1, 4095),
        (-4096, 4096, -1, 0),
        (-4097, 4096, -2, 4095),
        (4097, 4096, 1, 1),
    ];
    for (a, b, q, r) in cases {
        assert_eq!(floor_div_i128(a, b), q);
        assert_eq!(euclidean_remainder(a, b), r);
    }
}

#[test]
fn tiny_end_to_end_piop_accepts_and_rejects_tamper() {
    let cfg = Config {
        n_layer: 1,
        n_seq: 2,
        n_head: 1,
        d_head: 2,
        d_model: 2,
        mlp_hidden: 3,
        vocab: 4,
        scale: 4,
        max_v: 2,
    };
    let weights = tiny_weights(&cfg);
    let x0 = Matrix::new(2, 2, vec![1, -2, 3, 1]);
    let proof = prove(&cfg, &weights, x0.clone());
    let public = PublicInput {
        x0,
        logits: proof.witness.q_log.clone(),
    };
    assert!(verify(&cfg, &weights, &public, &proof));

    let mut bad = proof.clone();
    let tampered = bad.witness.blocks[0].ln1.quotient.get(0, 0) + 1;
    bad.witness.blocks[0].ln1.quotient.set(0, 0, tampered);
    assert!(!verify(&cfg, &weights, &public, &bad));
}

#[test]
fn inference_rejects_other_logits_and_other_inputs() {
    let cfg = tiny_config();
    let weights = tiny_weights(&cfg);
    let x0 = Matrix::new(2, 2, vec![1, -2, 3, 1]);
    let proof = prove(&cfg, &weights, x0.clone());
    let mut logits = proof.witness.q_log.clone();
    let v = logits.get(0, 0);
    logits.set(0, 0, v + 1);
    assert!(!verify(&cfg, &weights, &PublicInput { x0, logits }, &proof));
    let other = PublicInput {
        x0: Matrix::new(2, 2, vec![1, -2, 3, 2]),
        logits: proof.witness.q_log.clone(),
    };
    assert!(!verify(&cfg, &weights, &other, &proof));
}

#[test]
fn roots_are_rounded_to_the_nearest() {
    assert_eq!(round_sqrt(0), 0);
    assert_eq!(round_sqrt(2), 1);
    assert_eq!(round_sqrt(3), 2);
    assert_eq!(round_sqrt(12), 3);
    assert_eq!(round_sqrt(13), 4);
    assert_eq!(round_sqrt(1_000_000_000_000), 1_000_000);
}

#[test]
fn matrix_products_and_quotients() {
    let a = Matrix::new(2, 3, vec![1, 2, 3, 4, 5, 6]);
    let b = Matrix::new(3, 2, vec![1, 0, 0, 1, -1, 2]);
    let c = a.matmul(&b);
    assert_eq!(c, Matrix::new(2, 2, vec![-2, 8, -2, 17]));
    let bt = Matrix::new(2, 3, vec![1, 0, -1, 0, 1, 2]);
    assert_eq!(a.matmul_transposed_rhs(&bt), c);
    assert_eq!(c.floor_div_const(3), Matrix::new(2, 2, vec![-1, 2, -1, 5]));
    assert_eq!(c.add_row_vector(&[1, -1]), Matrix::new(2, 2, vec![-1, 7, -1, 16]));
    assert_eq!(c.row(1), [-2, 17]);
    let t = Tensor3::new(2, 1, 2, vec![1, 2, 3, 4]);
    assert_eq!(t.head_matrix(1), Matrix::new(1, 2, vec![3, 4]));
}

#[test]
fn layer_norm_of_a_known_row() {
    // The row 1, -2 has n * x - sum = 3, -3 and deviation 3.
    let ln = layer_norm(&Matrix::new(1, 2, vec![1, -2]), &[4, 4], &[10, 20]);
    assert_eq!(ln.quotient, Matrix::new(1, 2, vec![4, -4]));
    assert_eq!(ln.output, Matrix::new(1, 2, vec![14, 16]));
}

#[test]
fn input_embeddings_add_token_and_position() {
    let cfg = tiny_config();
    let mut weights = tiny_weights(&cfg);
    weights.wpe.set(1, 0, 100);
    let x0 = weights.x0_from_input_ids(&[3, 2], &cfg);
    assert_eq!(x0, Matrix::new(2, 2, vec![-1, 2, 101, 1]));
}

#[test]
fn signed_values_are_field_elements() {
    assert_eq!(encode_i64(-1), Goldilocks::new(0xffff_ffff_0000_0000));
    assert_eq!(encode_i64(7), Goldilocks::new(7));
    assert_eq!(ef(-3).add(EF::from_u64(3)), EF::new_zero());
}

#[test]
fn instance_slices_match_witness() {
    let cfg = tiny_config();
    let weights = tiny_weights(&cfg);
    let witness = weights.forward(Matrix::new(2, 2, vec![1, -2, 3, 1]), &cfg);
    let canon = build_online(&cfg, &witness);

    let lay = canon.layout(Q_LN);
    let ln2 = &witness.blocks[0].ln2;
    let col = 0usize;
    let row = 1usize;
    let mut elem = Vec::new();
    for bit in 0..lay.col_vars() {
        elem.push(if (col >> bit) & 1 == 1 { EF::new_one() } else { EF::new_zero() });
    }
    for bit in 0..lay.row_vars() {
        elem.push(if (row >> bit) & 1 == 1 { EF::new_one() } else { EF::new_zero() });
    }
    let point = instance_slice_point(&elem, 1, lay.inst_vars());
    let poly = MlPoly(canon.set.commitment(Q_LN).unwrap().0 .0.clone());
    assert_eq!(poly.eval(&point), ef(ln2.quotient.get(row, col)));
}

#[test]
fn offline_commitments_hold_the_weights() {
    let cfg = tiny_config();
    let weights = tiny_weights(&cfg);
    let canon = build_offline(&cfg, &weights);
    let wte = &canon.set.prover_data("wte").unwrap().0;
    assert_eq!(wte[3], ef(1));
    assert_eq!(wte[6], ef(-1));
    // Three columns are padded to four.
    let fc = &canon.set.prover_data("fc_w_0").unwrap().0;
    assert_eq!(fc.len(), 8);
    assert_eq!(fc[4 + 2], ef(-1));
    assert_eq!(fc[3], ef(0));
    assert!(canon.set.prover_data("fc_w_1").is_none());
}

#[test]
fn padding_fills_with_zeros() {
    let m = Matrix::new(1, 3, vec![5, 6, 7]);
    let f = |v: i64| ef(v);
    assert_eq!(
        pad_matrix(&m, 2, 4),
        [f(5), f(6), f(7), f(0), f(0), f(0), f(0), f(0)]
    );
}

#[test]
fn fixed_instance_slice_and_eq_combination_round_trip() {
    let elem_len = 4;
    let w: Vec<Vec<EF>> = vec![
        poly(&[1, 2, 3, 4]),
        poly(&[5, 6, 7, 8]),
        poly(&[9, 10, 11, 12]),
    ];
    let merged = MlPoly(stack_instances(&w, elem_len));
    let inst_vars = 2;
    let elem_point = poly(&[13, 17]);

    for (j, wj) in w.iter().enumerate() {
        let sliced = merged.clone().eval(&instance_slice_point(&elem_point, j, inst_vars));
        assert_eq!(sliced, MlPoly(wj.clone()).eval(&elem_point), "slice {j}");
    }

    let inst_point = poly(&[19, 23]);
    let mut full = elem_point.clone();
    full.extend_from_slice(&inst_point);
    let lhs = merged.clone().eval(&full);
    let rhs = (0..(1usize << inst_vars))
        .map(|j| {
            let wj = w.get(j).cloned().unwrap_or_else(|| vec![EF::new_zero(); elem_len]);
            eq_at_index(&inst_point, j).mul(MlPoly(wj).eval(&elem_point))
        })
        .fold(EF::new_zero(), |a, b| a.add(b));
    assert_eq!(lhs, rhs);
}

#[test]
fn oracle_source_instance_slice_plus_bias_reduces_correctly() {
    let elem_len = 4;
    let w0 = poly(&[1, 2, 3, 4]);
    let w1 = poly(&[5, 6, 7, 8]);
    let merged = MlPoly(stack_instances(&[w0.clone(), w1.clone()], elem_len));

    let bias_vals = poly(&[10, 20]);
    let src = OracleSource::committed("W", PointMap::identity(2).with_const_suffix(1, 1))
        .with_bias(BiasPoly {
            values: bias_vals.clone(),
            vars: vec![0],
        });

    let operand_point = poly(&[6, 9]);
    let operand_value = MlPoly(w1.clone())
        .eval(&operand_point)
        .add(MlPoly(bias_vals).eval(&operand_point[..1]));

    let mut acc = ClaimAccumulator::new();
    src.emit(&mut acc, &operand_point, operand_value);
    assert_eq!(acc.claims.len(), 1);
    let claim = &acc.claims[0];
    assert_eq!(claim.oracle, "W");
    assert_eq!(merged.clone().eval(&claim.point), claim.value);
    assert_eq!(claim.value, MlPoly(w1).eval(&operand_point));
}

#[test]
fn commit_set_round_trips_through_pcs() {
    let mut rng = rand::rng();
    let mut oracle = RandomOracle::<EF>::new(&mut rng);
    let mut set = CommitSet::new();
    let p = poly(&[3, 1, 4, 1, 5, 9, 2, 6]);
    set.commit("q_ln", p.clone());
    let point = poly(&[2, 7, 1]);
    let value = MlPoly(p).eval(&point);

    Pcs::batch_prove(
        &[(set.prover_data("q_ln").unwrap(), point.clone())],
        &mut oracle,
    );
    assert!(Pcs::batch_verify(
        &[(set.commitment("q_ln").unwrap(), point, value)],
        &(),
        &mut oracle,
    ));
}

#[test]
fn later_commitments_replace_earlier_ones() {
    let mut set = CommitSet::new();
    set.commit("a", poly(&[1, 2]));
    set.commit("a", poly(&[3, 4]));
    let mut more = CommitSet::new();
    more.commit("b", poly(&[5]));
    more.commit("a", poly(&[6, 7]));
    assert_eq!(set.prover_data("a").unwrap().0, poly(&[3, 4]));
    set.extend(more);
    assert_eq!(set.prover_data("a").unwrap().0, poly(&[6, 7]));
    assert_eq!(set.evaluate("b", &[]), EF::from_u64(5));
    assert!(set.commitment("c").is_none());
}

#[test]
fn claims_are_checked_against_the_commitments() {
    let mut rng = rand::rng();
    let mut oracle = RandomOracle::<EF>::new(&mut rng);
    let mut set = CommitSet::new();
    set.commit("a", poly(&[1, 2]));
    let mut acc = ClaimAccumulator::new();
    // 1 + x at 10.
    acc.open("a", poly(&[10]), EF::from_u64(11));
    open_claims(&set, &acc, &mut oracle);
    assert!(check_claims(&set, &acc, &(), &mut oracle));
    acc.open("a", poly(&[10]), EF::from_u64(12));
    assert!(!check_claims(&set, &acc, &(), &mut oracle));
}

fn top_of(leaf: &[EF], batch_vars: usize) -> Vec<EF> {
    let col = leaf.len().trailing_zeros() as usize - batch_vars;
    let key_pow = 1usize << col;
    (0..(1usize << batch_vars))
        .map(|b| (0..key_pow).fold(EF::new_one(), |acc, k| acc.mul(leaf[b * key_pow + k])))
        .collect()
}

#[test]
fn grandprod_round_trip() {
    let mut rng = rand::rng();
    for batch_vars in 0..4 {
        for col_vars in 0..5 {
            let n = 1usize << (batch_vars + col_vars);
            let leaf = random(n, &mut rng);
            let top = top_of(&leaf, batch_vars);
            let mut oracle = RandomOracle::<EF>::new(&mut rng);
            let (proof, point, leaf_eval) = grandprod::prove(&leaf, batch_vars, &mut oracle);
            oracle.restart();
            let (vpoint, veval) = grandprod::verify(&proof, &top, &mut oracle).unwrap();
            assert_eq!(point, vpoint, "b{batch_vars} c{col_vars}");
            assert_eq!(leaf_eval, veval);
            assert_eq!(MlPoly(leaf.clone()).eval(&point), leaf_eval);
        }
    }
}

#[test]
fn zero_product_batches() {
    let mut rng = rand::rng();
    let (batch_vars, col_vars) = (3, 4);
    let key_pow = 1usize << col_vars;
    let mut leaf = random(1usize << (batch_vars + col_vars), &mut rng);
    for b in 0..(1usize << batch_vars) {
        leaf[b * key_pow] = EF::new_zero();
    }
    let top = top_of(&leaf, batch_vars);
    assert!(top.iter().all(|&t| t == EF::new_zero()));
    let mut oracle = RandomOracle::<EF>::new(&mut rng);
    let (proof, point, leaf_eval) = grandprod::prove(&leaf, batch_vars, &mut oracle);
    oracle.restart();
    let (_, veval) = grandprod::verify(&proof, &top, &mut oracle).unwrap();
    assert_eq!(leaf_eval, veval);
    assert_eq!(MlPoly(leaf).eval(&point), leaf_eval);
}

#[test]
fn wrong_top_rejected() {
    let mut rng = rand::rng();
    let (batch_vars, col_vars) = (2, 3);
    let leaf = random(1usize << (batch_vars + col_vars), &mut rng);
    let mut top = top_of(&leaf, batch_vars);
    top[1] = EF::new_zero();
    let mut oracle = RandomOracle::<EF>::new(&mut rng);
    let (proof, _, _) = grandprod::prove(&leaf, batch_vars, &mut oracle);
    oracle.restart();
    match grandprod::verify(&proof, &top, &mut oracle) {
        None => {}
        Some((point, veval)) => {
            assert_ne!(MlPoly(leaf).eval(&point), veval);
        }
    }
}

#[test]
fn grandprod_tampered_round_rejected() {
    let mut rng = rand::rng();
    let (batch_vars, col_vars) = (2, 4);
    let leaf = random(1usize << (batch_vars + col_vars), &mut rng);
    let top = top_of(&leaf, batch_vars);
    let mut oracle = RandomOracle::<EF>::new(&mut rng);
    let (mut proof, _, _) = grandprod::prove(&leaf, batch_vars, &mut oracle);
    let old = proof.layers[2].round_polys[1][0];
    proof.layers[2].round_polys[1][0] = old.add(EF::new_one());
    oracle.restart();
    assert!(grandprod::verify(&proof, &top, &mut oracle).is_none());
}

fn eq_weights(point: &[EF], len: usize) -> Vec<EF> {
    (0..len).map(|idx| eq_at_index(point, idx)).collect()
}

fn matrix_poly(m: &Matrix) -> Vec<EF> {
    m.data().iter().map(|&v| ef(v)).collect()
}

fn accepted(set: &CommitSet, vacc: &ClaimAccumulator, oracle: &mut RandomOracle<EF>) -> bool {
    let tasks: Vec<_> = vacc
        .claims
        .iter()
        .map(|cl| (set.prover_data(&cl.oracle).unwrap(), cl.point.clone()))
        .collect();
    Pcs::batch_prove(&tasks, oracle);
    let claims: Vec<_> = vacc
        .claims
        .iter()
        .map(|cl| (set.commitment(&cl.oracle).unwrap(), cl.point.clone(), cl.value))
        .collect();
    Pcs::batch_verify(&claims, &(), oracle)
}

#[test]
fn regular_matmul_reduces_to_canonical_openings() {
    let rows = 4usize;
    let kdim = 8usize;
    let cols = 2usize;
    let a = Matrix::new(rows, kdim, (0..rows * kdim).map(|x| x as i64 - 5).collect());
    let b = Matrix::new(kdim, cols, (0..kdim * cols).map(|x| 2 * x as i64 - 3).collect());
    let c = a.matmul(&b);

    let row_vars = rows.trailing_zeros() as usize;
    let col_vars = cols.trailing_zeros() as usize;
    let row_point: Vec<EF> = (0..row_vars).map(|i| ef(7 + i as i64)).collect();
    let col_point: Vec<EF> = (0..col_vars).map(|i| ef(3 + i as i64)).collect();

    let row_eq = eq_weights(&row_point, rows);
    let col_eq = eq_weights(&col_point, cols);
    let mut avec = vec![EF::new_zero(); kdim];
    let mut bvec = vec![EF::new_zero(); kdim];
    for k in 0..kdim {
        for r in 0..rows {
            avec[k] = avec[k].add(row_eq[r].mul(ef(a.get(r, k))));
        }
        for col in 0..cols {
            bvec[k] = bvec[k].add(col_eq[col].mul(ef(b.get(k, col))));
        }
    }

    let c_point = [col_point.clone(), row_point.clone()].concat();
    let c_eval = MlPoly(matrix_poly(&c)).eval(&c_point);
    assert_eq!(dot(&avec, &bvec), c_eval, "claimed C mismatch");

    let mut set = CommitSet::new();
    set.commit("A", matrix_poly(&a));
    set.commit("B", matrix_poly(&b));

    let mut rng = rand::rng();
    let mut oracle = RandomOracle::<EF>::new(&mut rng);
    let a_src = OracleSource::committed("A", PointMap::identity(row_point.len() + 3));
    let b_src = OracleSource::committed("B", PointMap::identity(col_point.len() + 3));
    let mut acc = ClaimAccumulator::new();
    let mp = prove_matmul(
        MatmulKind::Regular,
        &a_src,
        &b_src,
        avec,
        bvec,
        &row_point,
        &col_point,
        &mut acc,
        &mut oracle,
    );
    assert_eq!(mp.claimed_eval, c_eval);

    oracle.restart();
    let mut vacc = ClaimAccumulator::new();
    let got = verify_matmul(
        MatmulKind::Regular,
        &a_src,
        &b_src,
        &row_point,
        &col_point,
        &mp,
        &mut vacc,
        &mut oracle,
    );
    assert_eq!(got, Some(c_eval));
    assert_eq!(vacc.claims.len(), 2);
    assert!(accepted(&set, &vacc, &mut oracle));
}

#[test]
fn eq_product_reduces_to_canonical_openings() {
    let l = vec![ef(2), ef(-3), ef(5), ef(7)];
    let r = vec![ef(1), ef(4), ef(-2), ef(6)];
    let vars = 2usize;
    let eval_point: Vec<EF> = (0..vars).map(|i| ef(11 + i as i64)).collect();

    let product: Vec<EF> = l.iter().zip(&r).map(|(&a, &b)| a.mul(b)).collect();
    let expected = MlPoly(product).eval(&eval_point);

    let mut set = CommitSet::new();
    set.commit("L", l.clone());
    set.commit("R", r.clone());
    let l_src = OracleSource::committed("L", PointMap::identity(vars));
    let r_src = OracleSource::committed("R", PointMap::identity(vars));

    let mut rng = rand::rng();
    let mut oracle = RandomOracle::<EF>::new(&mut rng);
    let mut acc = ClaimAccumulator::new();
    let mut pp = prove_prod(l, r, &l_src, &r_src, eval_point.clone(), &mut acc, &mut oracle);
    assert_eq!(pp.claimed_eval, expected);

    oracle.restart();
    let mut vacc = ClaimAccumulator::new();
    assert_eq!(
        verify_prod(&eval_point, &l_src, &r_src, &pp, &mut vacc, &mut oracle),
        Some(expected)
    );
    assert!(accepted(&set, &vacc, &mut oracle));

    // A claim that the rounds do not support is rejected and leaves no claims.
    pp.claimed_eval = pp.claimed_eval.add(EF::new_one());
    oracle.restart();
    let mut none = ClaimAccumulator::new();
    assert_eq!(verify_prod(&eval_point, &l_src, &r_src, &pp, &mut none, &mut oracle), None);
    assert_eq!(none.claims.len(), 0);
}

#[test]
fn transposed_matmul_reduces_to_canonical_openings() {
    let rows = 4usize;
    let kdim = 8usize;
    let cols = 2usize;
    let a = Matrix::new(rows, kdim, (0..rows * kdim).map(|x| 3 * x as i64 - 7).collect());
    let bt = Matrix::new(cols, kdim, (0..cols * kdim).map(|x| x as i64 - 4).collect());
    let c = a.matmul_transposed_rhs(&bt);

    let row_vars = rows.trailing_zeros() as usize;
    let col_vars = cols.trailing_zeros() as usize;
    let row_point: Vec<EF> = (0..row_vars).map(|i| ef(2 + i as i64)).collect();
    let col_point: Vec<EF> = (0..col_vars).map(|i| ef(9 + i as i64)).collect();

    let row_eq = eq_weights(&row_point, rows);
    let col_eq = eq_weights(&col_point, cols);
    let mut avec = vec![EF::new_zero(); kdim];
    let mut bvec = vec![EF::new_zero(); kdim];
    for k in 0..kdim {
        for r in 0..rows {
            avec[k] = avec[k].add(row_eq[r].mul(ef(a.get(r, k))));
        }
        for col in 0..cols {
            bvec[k] = bvec[k].add(col_eq[col].mul(ef(bt.get(col, k))));
        }
    }

    let c_point = [col_point.clone(), row_point.clone()].concat();
    let c_eval = MlPoly(matrix_poly(&c)).eval(&c_point);
    assert_eq!(dot(&avec, &bvec), c_eval);

    let mut set = CommitSet::new();
    set.commit("A", matrix_poly(&a));
    set.commit("B", matrix_poly(&bt));

    let mut rng = rand::rng();
    let mut oracle = RandomOracle::<EF>::new(&mut rng);
    let a_src = OracleSource::committed("A", PointMap::identity(row_point.len() + 3));
    let b_src = OracleSource::committed("B", PointMap::identity(col_point.len() + 3));
    let mut acc = ClaimAccumulator::new();
    let mp = prove_matmul(
        MatmulKind::Transposed,
        &a_src,
        &b_src,
        avec,
        bvec,
        &row_point,
        &col_point,
        &mut acc,
        &mut oracle,
    );

    oracle.restart();
    let mut vacc = ClaimAccumulator::new();
    assert_eq!(
        verify_matmul(
            MatmulKind::Transposed,
            &a_src,
            &b_src,
            &row_point,
            &col_point,
            &mp,
            &mut vacc,
            &mut oracle,
        ),
        Some(c_eval)
    );
    assert!(accepted(&set, &vacc, &mut oracle));
}

fn residual_model(n_layer: usize) -> (Config, ModelWeights, Witness) {
    let cfg = Config {
        n_layer,
        n_seq: 3,
        n_head: 1,
        d_head: 2,
        d_model: 2,
        mlp_hidden: 3,
        vocab: 4,
        scale: 4,
        max_v: 8,
    };
    let (exp_lut, gelu_lut) = luts(&cfg);
    let block = || BlockWeights {
        ln_1_g: vec![4, 4],
        ln_1_b: vec![1, -1],
        attn_w: Matrix::new(2, 6, vec![1, 0, 0, 1, 1, 0, 0, 1, 1, 0, 0, 1]),
        attn_b: vec![0; 6],
        attn_proj_w: Matrix::new(2, 2, vec![1, 0, 0, 1]),
        attn_proj_b: vec![1, -1],
        ln_2_g: vec![4, 4],
        ln_2_b: vec![-1, 1],
        fc_w: Matrix::new(2, 3, vec![1, 0, 1, 0, 1, -1]),
        fc_b: vec![1, -1, 2],
        fproj_w: Matrix::new(3, 2, vec![1, 0, 0, 1, 1, -1]),
        fproj_b: vec![2, 0],
    };
    let weights = ModelWeights {
        wte: Matrix::new(4, 2, vec![1, 0, 0, 1, 1, 1, -1, 2]),
        wpe: Matrix::zeros(1024, 2),
        has_wpe: true,
        ln_f_g: vec![4, 4],
        ln_f_b: vec![0, 0],
        exp_lut,
        gelu_lut,
        blocks: (0..n_layer).map(|_| block()).collect(),
    };
    let witness = weights.forward(Matrix::new(3, 2, vec![1, -2, 3, 1, 0, 2]), &cfg);
    (cfg, weights, witness)
}

fn real_ln_input(witness: &Witness, config: &Config, ln_inst: usize) -> Vec<EF> {
    let m = if ln_inst == 2 * config.n_layer {
        &witness.lnf.input
    } else if ln_inst % 2 == 0 {
        &witness.blocks[ln_inst / 2].ln1.input
    } else {
        &witness.blocks[ln_inst / 2].ln2.input
    };
    x0_elem(config, m)
}

#[test]
fn x_opener_matches_layernorm_input() {
    let (cfg, _w, witness) = residual_model(2);
    let canon = build_online(&cfg, &witness);
    let lay = layout_for(&cfg, X_OUT);
    let elem_point: Vec<EF> = (0..lay.elem_vars())
        .map(|i| EF::from_base(Goldilocks::new((7 * i as u64 + 3) % 101)))
        .collect();
    for ln_inst in 0..=2 * cfg.n_layer {
        let mut acc_p = ClaimAccumulator::new();
        let v = open_x(&canon.set, &cfg, &witness.x0, &elem_point, ln_inst, &mut acc_p);
        let expected = MlPoly(real_ln_input(&witness, &cfg, ln_inst)).eval(&elem_point);
        assert_eq!(v, expected, "ln_inst {ln_inst}");
        let mut acc_v = ClaimAccumulator::new();
        let vv = reconstruct_x(&cfg, &witness.x0, &elem_point, ln_inst, v, &mut acc_v);
        assert_eq!(vv, v, "reconstruct ln_inst {ln_inst}");
    }
}

fn xout_residual_roundtrip(n_layer: usize) {
    let (cfg, weights, witness) = residual_model(n_layer);
    let canon = build_online(&cfg, &witness);
    let mut rng = rand::rng();
    let mut oracle = RandomOracle::<EF>::new(&mut rng);
    let mut acc_p = ClaimAccumulator::new();
    let proof = prove_xout_residual(&canon.set, &cfg, &weights, &witness, &mut acc_p, &mut oracle);
    oracle.restart();
    let mut acc_v = ClaimAccumulator::new();
    assert!(verify_xout_residual(&proof, &cfg, &weights, &witness.x0, &mut acc_v, &mut oracle));
    for c in &acc_v.claims {
        assert_eq!(canon.set.evaluate(&c.oracle, &c.point), c.value);
    }
}

#[test]
fn xout_residual_accepts_single_layer() {
    xout_residual_roundtrip(1);
}

#[test]
fn xout_residual_accepts_multi_layer() {
    xout_residual_roundtrip(2);
}

#[test]
fn tampered_xout_rejected() {
    let (cfg, weights, witness) = residual_model(2);
    let canon = build_online(&cfg, &witness);
    let mut rng = rand::rng();
    let mut oracle = RandomOracle::<EF>::new(&mut rng);
    let mut acc_p = ClaimAccumulator::new();
    let mut proof =
        prove_xout_residual(&canon.set, &cfg, &weights, &witness, &mut acc_p, &mut oracle);
    proof.xout[1] = proof.xout[1].add(EF::new_one());
    oracle.restart();
    let mut acc_v = ClaimAccumulator::new();
    assert!(!verify_xout_residual(&proof, &cfg, &weights, &witness.x0, &mut acc_v, &mut oracle));
}

fn attention_model(n_layer: usize) -> (Config, ModelWeights, Witness) {
    let cfg = Config {
        n_layer,
        n_seq: 3,
        n_head: 3,
        d_head: 2,
        d_model: 6,
        mlp_hidden: 5,
        vocab: 4,
        scale: 4,
        max_v: 16,
    };
    let (exp_lut, gelu_lut) = luts(&cfg);
    let mat = |rows: usize, cols: usize, seed: i64| {
        Matrix::new(
            rows,
            cols,
            (0..rows * cols).map(|i| ((i as i64 * seed + 1) % 3) - 1).collect(),
        )
    };
    let block = || BlockWeights {
        ln_1_g: vec![4, 3, 5, 4, 3, 5],
        ln_1_b: vec![1, -1, 0, 1, 0, -1],
        attn_w: mat(6, 18, 1),
        attn_b: vec![0; 18],
        attn_proj_w: mat(6, 6, 2),
        attn_proj_b: vec![1, -1, 0, 1, 0, -1],
        ln_2_g: vec![4, 4, 3, 4, 4, 3],
        ln_2_b: vec![-1, 1, 0, -1, 1, 0],
        fc_w: mat(6, 5, 1),
        fc_b: vec![1, -1, 2, 0, 1],
        fproj_w: mat(5, 6, 2),
        fproj_b: vec![2, 0, -1, 1, 0, -1],
    };
    let weights = ModelWeights {
        wte: mat(4, 6, 1),
        wpe: Matrix::zeros(1024, 6),
        has_wpe: true,
        ln_f_g: vec![4, 4, 4, 4, 4, 4],
        ln_f_b: vec![0, 0, 0, 0, 0, 0],
        exp_lut,
        gelu_lut,
        blocks: (0..n_layer).map(|_| block()).collect(),
    };
    let x0 = Matrix::new(3, 6, (0..18).map(|i| ((i as i64 * 2) % 5) - 2).collect());
    let witness = weights.forward(x0, &cfg);
    (cfg, weights, witness)
}

fn softmax_roundtrip(n_layer: usize) {
    let (cfg, _weights, witness) = attention_model(n_layer);
    let canon = build_online(&cfg, &witness);
    let mut rng = rand::rng();
    let mut oracle = RandomOracle::<EF>::new(&mut rng);
    let mut acc_p = ClaimAccumulator::new();
    let proof = prove_softmax_max(&canon.set, &cfg, &mut acc_p, &mut oracle);
    oracle.restart();
    let mut acc_v = ClaimAccumulator::new();
    assert!(verify_softmax_max(&proof, &canon.set, &cfg, &mut acc_v, &mut oracle));
    for c in &acc_v.claims {
        let got = canon.set.prover_data(&c.oracle).unwrap().clone().eval(&c.point);
        assert_eq!(got, c.value, "claim on {} mismatched", c.oracle);
    }
}

#[test]
fn softmax_max_accepts_single() {
    softmax_roundtrip(1);
}

#[test]
fn softmax_max_accepts_multi() {
    softmax_roundtrip(2);
}

#[test]
fn non_max_rejected() {
    let (cfg, _weights, mut witness) = attention_model(1);
    for h in 0..cfg.n_head {
        for r in 0..cfg.n_seq {
            let v = witness.blocks[0].attention.x_max[h].get(r, 0);
            witness.blocks[0].attention.x_max[h].set(r, 0, v + 1000);
        }
    }
    let canon = build_online(&cfg, &witness);
    let mut rng = rand::rng();
    let mut oracle = RandomOracle::<EF>::new(&mut rng);
    let mut acc_p = ClaimAccumulator::new();
    let proof = prove_softmax_max(&canon.set, &cfg, &mut acc_p, &mut oracle);
    oracle.restart();
    let mut acc_v = ClaimAccumulator::new();
    assert!(!verify_softmax_max(&proof, &canon.set, &cfg, &mut acc_v, &mut oracle));
}

fn sumfeat_roundtrip(n_layer: usize) {
    let (cfg, weights, witness) = attention_model(n_layer);
    let canon = build_online(&cfg, &witness);
    let mut rng = rand::rng();
    let mut oracle = RandomOracle::<EF>::new(&mut rng);
    let mut acc_p = ClaimAccumulator::new();
    let proof = prove_sumfeat(&canon.set, &cfg, &weights, &witness, &mut acc_p, &mut oracle);
    oracle.restart();
    let mut acc_v = ClaimAccumulator::new();
    assert!(verify_sumfeat(
        &proof,
        &canon.set,
        &cfg,
        &weights,
        &witness.x0,
        &mut acc_v,
        &mut oracle
    ));
    for c in &acc_v.claims {
        let got = canon.set.prover_data(&c.oracle).unwrap().clone().eval(&c.point);
        assert_eq!(got, c.value, "claim on {} mismatched", c.oracle);
    }
}

#[test]
fn sumfeat_accepts_single_layer() {
    sumfeat_roundtrip(1);
}

#[test]
fn sumfeat_accepts_multi_layer() {
    sumfeat_roundtrip(2);
}

#[test]
fn tampered_var_rejected() {
    let (cfg, weights, witness) = attention_model(2);
    let canon = build_online(&cfg, &witness);
    let mut rng = rand::rng();
    let mut oracle = RandomOracle::<EF>::new(&mut rng);
    let mut acc_p = ClaimAccumulator::new();
    let mut proof = prove_sumfeat(&canon.set, &cfg, &weights, &witness, &mut acc_p, &mut oracle);
    proof.var_v[1] = proof.var_v[1].add(EF::new_one());
    oracle.restart();
    let mut acc_v = ClaimAccumulator::new();
    assert!(!verify_sumfeat(
        &proof,
        &canon.set,
        &cfg,
        &weights,
        &witness.x0,
        &mut acc_v,
        &mut oracle
    ));
}

#[test]
fn tampered_sum_exp_rejected() {
    let (cfg, weights, witness) = attention_model(2);
    let canon = build_online(&cfg, &witness);
    let mut rng = rand::rng();
    let mut oracle = RandomOracle::<EF>::new(&mut rng);
    let mut acc_p = ClaimAccumulator::new();
    let mut proof = prove_sumfeat(&canon.set, &cfg, &weights, &witness, &mut acc_p, &mut oracle);
    proof.se_sum = proof.se_sum.add(EF::new_one());
    oracle.restart();
    let mut acc_v = ClaimAccumulator::new();
    assert!(!verify_sumfeat(
        &proof,
        &canon.set,
        &cfg,
        &weights,
        &witness.x0,
        &mut acc_v,
        &mut oracle
    ));
}

#[test]
fn layouts_of_the_attention_model() {
    let (cfg, _, _) = attention_model(2);
    let lay = layout_for(&cfg, A_LN);
    assert_eq!((lay.instances, lay.row_pow, lay.col_pow), (5, 4, 8));
    assert_eq!((lay.col_vars(), lay.row_vars(), lay.inst_vars()), (3, 2, 3));
    assert_eq!(lay.elem_vars(), 5);
    assert_eq!(lay.num_vars(), 8);
    assert_eq!(layout_for(&cfg, STD).col_vars(), 0);
}

#[test]
fn inference_of_another_shape_is_rejected() {
    let cfg = tiny_config();
    let weights = tiny_weights(&cfg);
    let proof = prove(&cfg, &weights, Matrix::new(2, 2, vec![1, -2, 3, 1]));
    let public = PublicInput {
        x0: Matrix::new(1, 3, vec![1, i64::MAX, i64::MIN]),
        logits: proof.witness.q_log.clone(),
    };
    assert!(!verify(&cfg, &weights, &public, &proof));
}

#[test]
fn later_inputs_do_not_change_earlier_outputs() {
    let (cfg, weights, _) = residual_model(2);
    let a = weights.forward(Matrix::new(3, 2, vec![1, -2, 3, 1, 0, 2]), &cfg);
    let b = weights.forward(Matrix::new(3, 2, vec![1, -2, 3, 1, 4, -1]), &cfg);
    assert_ne!(a.blocks[0].attention.x_out, b.blocks[0].attention.x_out);
    for r in 0..2 {
        assert_eq!(a.q_log.row(r), b.q_log.row(r));
        assert_eq!(a.lnf.output.row(r), b.lnf.output.row(r));
        for (x, y) in a.blocks.iter().zip(&b.blocks) {
            assert_eq!(x.attention.x_out.row(r), y.attention.x_out.row(r));
            assert_eq!(x.mlp.x_out.row(r), y.mlp.x_out.row(r));
        }
    }
}

#[test]
fn residual_claims_stop_where_the_check_does() {
    let (cfg, weights, witness) = residual_model(2);
    let canon = build_online(&cfg, &witness);
    let mut rng = rand::rng();
    let mut oracle = RandomOracle::<EF>::new(&mut rng);
    let mut acc = ClaimAccumulator::new();
    let mut proof = prove_xout_residual(&canon.set, &cfg, &weights, &witness, &mut acc, &mut oracle);
    let all = acc.claims.len();
    oracle.restart();
    let first = oracle.next_field();

    // A missing entry leaves the claims and the challenges as they were.
    let last = proof.proj.pop().unwrap();
    oracle.restart();
    let mut none = ClaimAccumulator::new();
    assert!(!verify_xout_residual(&proof, &cfg, &weights, &witness.x0, &mut none, &mut oracle));
    assert_eq!(none.claims.len(), 0);
    assert_eq!(oracle.next_field(), first);
    proof.proj.push(last);

    // The first output opens the public input, the later ones three polynomials each.
    proof.proj[1] = proof.proj[1].add(EF::new_one());
    oracle.restart();
    let mut some = ClaimAccumulator::new();
    assert!(!verify_xout_residual(&proof, &cfg, &weights, &witness.x0, &mut some, &mut oracle));
    assert_eq!(some.claims.len(), 2 + 3);
    assert_eq!(all, 2 + 3 + 3 + 3);
}

#[test]
fn feature_claims_stop_where_the_check_does() {
    let (cfg, weights, witness) = attention_model(1);
    let canon = build_online(&cfg, &witness);
    let mut rng = rand::rng();
    let mut oracle = RandomOracle::<EF>::new(&mut rng);
    let mut acc = ClaimAccumulator::new();
    let mut proof = prove_sumfeat(&canon.set, &cfg, &weights, &witness, &mut acc, &mut oracle);
    oracle.restart();
    let first = oracle.next_field();
    let mut run = |proof: &ligesis::proofsys::sumfeat::SumFeatProof| {
        oracle.restart();
        let mut seen = ClaimAccumulator::new();
        let ok = verify_sumfeat(
            proof,
            &canon.set,
            &cfg,
            &weights,
            &witness.x0,
            &mut seen,
            &mut oracle,
        );
        (ok, seen.claims.len(), oracle.next_field() == first)
    };
    // Two inputs are committed and one is public; there are three normalizations.
    assert_eq!(run(&proof), (true, acc.claims.len(), false));
    assert_eq!(acc.claims.len(), 2 + 2 + 3 + 3 + 2 + 2 + 2);

    let last = proof.aln_v.pop().unwrap();
    assert_eq!(run(&proof), (false, 0, true));
    proof.aln_v.push(last);

    let round = proof.q2.round_polys.pop().unwrap();
    assert_eq!(run(&proof), (false, 0, false));
    proof.q2.round_polys.push(round);

    let round = proof.sq.round_polys.pop().unwrap();
    assert_eq!(run(&proof), (false, 2, false));
    proof.sq.round_polys.push(round);

    let round = proof.aln.round_polys.pop().unwrap();
    assert_eq!(run(&proof), (false, 2 + 2 + 3 + 3, false));
    proof.aln.round_polys.push(round);

    let round = proof.se.round_polys.pop().unwrap();
    assert_eq!(run(&proof), (false, 2 + 2 + 3 + 3 + 2 + 2, false));
    proof.se.round_polys.push(round);
    assert_eq!(run(&proof), (true, acc.claims.len(), false));
}

#[test]
fn reductions_with_other_round_counts_are_rejected() {
    let (l, r) = (vec![ef(2), ef(-3), ef(5), ef(7)], vec![ef(1), ef(4), ef(-2), ef(6)]);
    let point = vec![ef(11), ef(12)];
    let src = OracleSource::committed("L", PointMap::identity(2));
    let mut rng = rand::rng();
    let mut oracle = RandomOracle::<EF>::new(&mut rng);
    let mut acc = ClaimAccumulator::new();
    let mut proof = prove_prod(l, r, &src, &src, point.clone(), &mut acc, &mut oracle);
    proof.proof.round_polys.pop();
    oracle.restart();
    let tape = oracle.next_n_fields(3);
    oracle.restart();
    let mut none = ClaimAccumulator::new();
    assert_eq!(verify_prod(&point, &src, &src, &proof, &mut none, &mut oracle), None);
    assert_eq!(none.claims.len(), 0);
    assert_eq!(oracle.next_field(), tape[1]);

    let (cfg, _, witness) = attention_model(1);
    let canon = build_online(&cfg, &witness);
    let mut oracle = RandomOracle::<EF>::new(&mut rng);
    let mut proof = prove_softmax_max(&canon.set, &cfg, &mut acc, &mut oracle);
    let after = oracle.next_field();
    proof.rs.round_polys.pop();
    oracle.restart();
    assert!(!verify_softmax_max(&proof, &canon.set, &cfg, &mut none, &mut oracle));
    assert_eq!(none.claims.len(), 0);
    // One round is missing, so one challenge is left unread.
    oracle.next_field();
    assert_eq!(oracle.next_field(), after);
}

#[test]
fn failed_rounds_stop_the_reading() {
    let (l, r) = (vec![ef(2), ef(-3), ef(5), ef(7)], vec![ef(1), ef(4), ef(-2), ef(6)]);
    let point = vec![ef(11), ef(12)];
    let src = OracleSource::committed("L", PointMap::identity(2));
    let mut rng = rand::rng();
    let mut oracle = RandomOracle::<EF>::new(&mut rng);
    let mut acc = ClaimAccumulator::new();
    let mut proof = prove_prod(l, r, &src, &src, point.clone(), &mut acc, &mut oracle);
    oracle.restart();
    let tape = oracle.next_n_fields(3);
    proof.proof.round_polys[1][0] = proof.proof.round_polys[1][0].add(ef(1));
    oracle.restart();
    assert_eq!(verify_prod(&point, &src, &src, &proof, &mut acc, &mut oracle), None);
    assert_eq!(oracle.next_field(), tape[1]);
    proof.claimed_eval = proof.claimed_eval.add(ef(1));
    oracle.restart();
    assert_eq!(verify_prod(&point, &src, &src, &proof, &mut acc, &mut oracle), None);
    assert_eq!(oracle.next_field(), tape[0]);
}

#[test]
fn wrong_top_values_stop_the_grand_product() {
    let mut rng = rand::rng();
    let leaf = random(8, &mut rng);
    let mut oracle = RandomOracle::<EF>::new(&mut rng);
    let (proof, _, _) = grandprod::prove(&leaf, 1, &mut oracle);
    let mut top = top_of(&leaf, 1);
    top[0] = top[0].add(ef(1));
    oracle.restart();
    let tape = oracle.next_n_fields(2);
    oracle.restart();
    assert!(grandprod::verify(&proof, &top, &mut oracle).is_none());
    assert_eq!(oracle.next_field(), tape[1]);
}

#[test]
fn wide_matrices_spill_into_the_next_row() {
    let m = Matrix::new(2, 3, vec![1, 2, 3, 4, 5, 6]);
    let out = pad_matrix(&m, 4, 2);
    let want: Vec<EF> = [1, 2, 4, 5, 6, 0, 0, 0].iter().map(|&v| ef(v)).collect();
    assert_eq!(out, want);
}

#[test]
fn entries_are_found_by_their_position() {
    let mut m = Matrix::new(2, 3, vec![1, 2, 3, 4, 5, 6]);
    assert_eq!(m.get(0, 4), 5);
    m.set(0, 5, 9);
    assert_eq!(m.get(1, 2), 9);
    let mut t = Tensor3::new(2, 1, 2, vec![1, 2, 3, 4]);
    assert_eq!(t.get(0, 0, 3), 4);
    t.set(0, 1, 0, 7);
    assert_eq!(t.get(1, 0, 0), 7);
}

#[test]
fn residuals_of_no_layers_hold() {
    let (mut cfg, mut weights, witness) = residual_model(1);
    cfg.n_layer = 0;
    weights.blocks.clear();
    let mut rng = rand::rng();
    let mut oracle = RandomOracle::<EF>::new(&mut rng);
    let mut acc = ClaimAccumulator::new();
    let proof = ligesis::proofsys::residual::XOutResidualProof {
        xout: vec![],
        proj: vec![],
        x_in: vec![],
    };
    assert!(verify_xout_residual(&proof, &cfg, &weights, &witness.x0, &mut acc, &mut oracle));
    assert_eq!(acc.claims.len(), 0);
}

#[test]
fn heads_are_split_by_columns() {
    let cfg = Config {
        n_layer: 1,
        n_seq: 2,
        n_head: 2,
        d_head: 2,
        d_model: 4,
        mlp_hidden: 1,
        vocab: 1,
        scale: 1,
        max_v: 1,
    };
    let qkv = Matrix::new(2, 12, (0..24).collect());
    let (q, k, v) = split_qkv_heads(&qkv, &cfg);
    assert_eq!(q.head_matrix(1).data(), &[2, 3, 14, 15]);
    assert_eq!(k.head_matrix(0).data(), &[4, 5, 16, 17]);
    let mut seen = Vec::new();
    for t in [&q, &k, &v] {
        for h in 0..2 {
            for s in 0..2 {
                for d in 0..2 {
                    seen.push(t.get(h, s, d));
                }
            }
        }
    }
    seen.sort();
    assert_eq!(seen, (0..24).collect::<Vec<i64>>());
}
