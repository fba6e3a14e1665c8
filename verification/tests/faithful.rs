use ligesis::field::{Field, GoldilocksExt2};
use ligesis::proofsys::canonical::{
    A_LN, EXP, Q_AO, Q_FC, Q_LN, Q_LOG, Q_PROB, Q_QKV, Q_SC, STD, SUM_EXP, VAR,
};
use ligesis::proofsys::faithful::{
    build_commitments, prove, verify, E, LN_REM_HI_LIMB, LN_REM_LIMB, SQRT_HI_LIMB, SQRT_LO_LIMB,
    TABLE_IN,
};
use ligesis::proofsys::canonical::Kind;
use ligesis::proofsys::faithful::{openings, segments, sources, values};
use ligesis::proofsys::model::{BlockWeights, ModelWeights};
use ligesis::proofsys::tensor::Matrix;
use ligesis::proofsys::witness::{Config, Witness};
use ligesis::utils::oracle::RandomOracle;
use ligesis::utils::poly::MlPoly;

type EF = GoldilocksExt2;

fn tiny() -> (Config, ModelWeights, Witness) {
    let cfg = Config {
        n_layer: 1,
        n_seq: 2,
        n_head: 1,
        d_head: 2,
        d_model: 2,
        mlp_hidden: 3,
        vocab: 4,
        scale: 4,
        max_v: 2,
    };
    let exp_lut = (0..=(cfg.max_v * cfg.scale)).map(|i| if i == 0 { 0 } else { 1 }).collect();
    let gelu_lut =
        (0..=(2 * cfg.max_v * cfg.scale)).map(|i| i - cfg.max_v * cfg.scale).collect();
    let weights = ModelWeights {
        wte: Matrix::new(4, 2, vec![1, 0, 0, 1, 1, 1, -1, 2]),
        wpe: Matrix::zeros(1024, 2),
        has_wpe: true,
        ln_f_g: vec![4, 4],
        ln_f_b: vec![0, 0],
        exp_lut,
        gelu_lut,
        blocks: vec![BlockWeights {
            ln_1_g: vec![4, 4],
            ln_1_b: vec![0, 0],
            attn_w: Matrix::new(2, 6, vec![1, 0, 0, 1, 1, 0, 0, 1, 1, 0, 0, 1]),
            attn_b: vec![0; 6],
            attn_proj_w: Matrix::new(2, 2, vec![1, 0, 0, 1]),
            attn_proj_b: vec![0, 0],
            ln_2_g: vec![4, 4],
            ln_2_b: vec![0, 0],
            fc_w: Matrix::new(2, 3, vec![1, 0, 1, 0, 1, -1]),
            fc_b: vec![1, -1, 2],
            fproj_w: Matrix::new(3, 2, vec![1, 0, 0, 1, 1, -1]),
            fproj_b: vec![0, 0],
        }],
    };
    let witness = weights.forward(Matrix::new(2, 2, vec![1, -2, 3, 1]), &cfg);
    (cfg, weights, witness)
}

fn tiny_multi() -> (Config, ModelWeights, Witness) {
    let (mut cfg, mut weights, _) = tiny();
    cfg.n_layer = 2;
    let block = weights.blocks[0].clone();
    weights.blocks.push(block);
    let witness = weights.forward(Matrix::new(2, 2, vec![1, -2, 3, 1]), &cfg);
    (cfg, weights, witness)
}

#[test]
fn unified_multi_instance_accepts_and_rejects_tamper() {
    let (cfg, weights, witness) = tiny_multi();
    let canon = build_commitments(&cfg, &weights, &witness);

    let mut rng = rand::rng();
    let mut oracle = RandomOracle::<EF>::new(&mut rng);
    let proof = prove(&canon.set, &cfg, &weights, &witness, &mut oracle);
    oracle.restart();
    assert!(verify(&canon.set, &cfg, &weights, &proof, &mut oracle));

    for oracle_name in [Q_QKV, Q_SC, A_LN] {
        let mut bad = build_commitments(&cfg, &weights, &witness);
        let mut q = bad.set.prover_data(oracle_name).unwrap().0.clone();
        q[0] = q[0].add(EF::new_one());
        bad.set.commit(oracle_name, q);
        oracle.restart();
        assert!(
            !verify(&bad.set, &cfg, &weights, &proof, &mut oracle),
            "tamper {oracle_name} not rejected"
        );
    }
}

#[test]
fn unified_typea_accepts_and_rejects_tamper() {
    let (cfg, weights, witness) = tiny();
    let canon = build_commitments(&cfg, &weights, &witness);

    let mut rng = rand::rng();
    let mut oracle = RandomOracle::<EF>::new(&mut rng);
    let proof = prove(&canon.set, &cfg, &weights, &witness, &mut oracle);

    oracle.restart();
    assert!(verify(&canon.set, &cfg, &weights, &proof, &mut oracle));

    for oracle_name in [
        Q_QKV,
        Q_FC,
        Q_LOG,
        Q_SC,
        Q_AO,
        EXP,
        SUM_EXP,
        Q_PROB,
        Q_LN,
        A_LN,
        STD,
        LN_REM_LIMB,
        VAR,
        SQRT_LO_LIMB,
        LN_REM_HI_LIMB,
        SQRT_HI_LIMB,
    ] {
        let mut bad = build_commitments(&cfg, &weights, &witness);
        let mut q = bad.set.prover_data(oracle_name).unwrap().0.clone();
        q[0] = q[0].add(EF::new_one());
        bad.set.commit(oracle_name, q);
        oracle.restart();
        assert!(
            !verify(&bad.set, &cfg, &weights, &proof, &mut oracle),
            "tamper {oracle_name} not rejected"
        );
    }
}

#[test]
fn unified_rejects_a_changed_proof() {
    let (cfg, weights, witness) = tiny();
    let canon = build_commitments(&cfg, &weights, &witness);
    let mut rng = rand::rng();
    let mut oracle = RandomOracle::<EF>::new(&mut rng);
    let mut proof = prove(&canon.set, &cfg, &weights, &witness, &mut oracle);
    assert!(proof.size_bytes() > 0);

    proof.table_cols[1] = proof.table_cols[1].add(EF::new_one());
    oracle.restart();
    assert!(!verify(&canon.set, &cfg, &weights, &proof, &mut oracle));
    proof.table_cols[1] = proof.table_cols[1].sub(EF::new_one());

    proof.segment_openings[0].in_value = proof.segment_openings[0].in_value.add(EF::new_one());
    oracle.restart();
    assert!(!verify(&canon.set, &cfg, &weights, &proof, &mut oracle));
    proof.segment_openings[0].in_value = proof.segment_openings[0].in_value.sub(EF::new_one());

    proof.recomps[3].limb_values[1] = proof.recomps[3].limb_values[1].add(EF::new_one());
    oracle.restart();
    assert!(!verify(&canon.set, &cfg, &weights, &proof, &mut oracle));
    proof.recomps[3].limb_values[1] = proof.recomps[3].limb_values[1].sub(EF::new_one());

    oracle.restart();
    assert!(verify(&canon.set, &cfg, &weights, &proof, &mut oracle));

    let last = proof.recomps.pop().unwrap();
    oracle.restart();
    assert!(!verify(&canon.set, &cfg, &weights, &proof, &mut oracle));
    proof.recomps.push(last);
    proof.segment_openings.pop();
    oracle.restart();
    assert!(!verify(&canon.set, &cfg, &weights, &proof, &mut oracle));
}

#[test]
fn multiplicities_add_up_to_the_query() {
    let (cfg, weights, witness) = tiny();
    let canon = build_commitments(&cfg, &weights, &witness);
    let counts = &canon.set.prover_data(E).unwrap().0;
    let sum = counts.iter().fold(EF::new_zero(), |a, &b| a.add(b));
    let total = sum.coefficient0().as_canonical_u64();
    assert!(total.is_power_of_two());
    assert_eq!(counts.len(), canon.set.prover_data(TABLE_IN).unwrap().0.len());
}

#[test]
fn segments_are_aligned_and_sorted() {
    let (cfg, weights, _) = tiny_multi();
    let descs = segments::descriptors(&cfg, &weights);
    // two direct segments, twelve limb segments, four products per layer, the logits,
    // and four segments for each head
    assert_eq!(descs.len(), 2 + 12 + 4 * 2 + 1 + 4 * 2);
    let mut start = 0;
    for (i, d) in descs.iter().enumerate() {
        assert_eq!(d.start, start);
        assert_eq!(start % (1 << d.vars), 0);
        assert!(i == 0 || descs[i - 1].vars >= d.vars);
        start += 1 << d.vars;
    }
}

#[test]
fn operands_extend_their_vertex_values() {
    let (cfg, weights, witness) = tiny_multi();
    let canon = build_commitments(&cfg, &weights, &witness);
    let mut rng = rand::rng();
    let sums = sources::sum_exp_bc_src(&cfg, 1);
    let head = sources::head_slice_src(&cfg, &weights, 1, 2, 0);
    for (src, vars) in [(sums, 2), (head, 2)] {
        let p: Vec<EF> = (0..vars).map(|_| EF::sample(&mut rng)).collect();
        let table = values::source_table(&src, &canon.set, vars);
        assert_eq!(MlPoly(table).eval(&p), src.value(&canon.set, &p));
    }
}

#[test]
fn sums_are_repeated_over_the_keys() {
    let (cfg, weights, witness) = tiny_multi();
    let canon = build_commitments(&cfg, &weights, &witness);
    let op = segments::TypeBOp { layer: 1, head: 0 };
    let vals = openings::sum_exp_broadcast_vals(&cfg, &weights, &witness, op);
    let sums = &witness.blocks[1].attention.sum_exp[0];
    let want: Vec<EF> = [0, 0, 1, 1].iter().map(|&r| EF::from_u64(sums.get(r, 0) as u64)).collect();
    assert_eq!(vals, want);
    let src = sources::sum_exp_bc_src(&cfg, 1);
    assert_eq!(values::source_table(&src, &canon.set, 2), vals);
}

#[test]
fn shares_stand_in_the_commitment() {
    let (cfg, weights, witness) = tiny();
    let canon = build_commitments(&cfg, &weights, &witness);
    let src = sources::slice_src(&cfg, Kind::QProb, 0);
    let table = values::source_table(&src, &canon.set, 2);
    assert_eq!(table, canon.set.prover_data(Q_PROB).unwrap().0);
}

#[test]
fn unified_rejects_other_round_counts() {
    let (cfg, weights, witness) = tiny();
    let canon = build_commitments(&cfg, &weights, &witness);
    let mut rng = rand::rng();
    let mut oracle = RandomOracle::<EF>::new(&mut rng);
    let mut proof = prove(&canon.set, &cfg, &weights, &witness, &mut oracle);

    let layer = proof.lookup.table.layers.pop().unwrap();
    oracle.restart();
    assert!(!verify(&canon.set, &cfg, &weights, &proof, &mut oracle));
    proof.lookup.table.layers.push(layer);

    for i in 0..proof.segment_openings.len() {
        if let Some(m) = &mut proof.segment_openings[i].matmul {
            let round = m.proof.round_polys.pop().unwrap();
            oracle.restart();
            assert!(!verify(&canon.set, &cfg, &weights, &proof, &mut oracle));
            proof.segment_openings[i].matmul.as_mut().unwrap().proof.round_polys.push(round);
        }
    }

    for i in 0..proof.recomps.len() {
        if let Some(p) = &mut proof.recomps[i].prod {
            let round = p.proof.round_polys.pop().unwrap();
            oracle.restart();
            assert!(!verify(&canon.set, &cfg, &weights, &proof, &mut oracle));
            proof.recomps[i].prod.as_mut().unwrap().proof.round_polys.push(round);
        }
    }

    oracle.restart();
    assert!(verify(&canon.set, &cfg, &weights, &proof, &mut oracle));
}

#[test]
fn quotients_are_floors_of_their_products() {
    let (cfg, weights, witness) = tiny_multi();
    // The scale is 4, and the rounded root of the head dimension is 1.
    for mm in [
        segments::Mm::Qkv,
        segments::Mm::Fc,
        segments::Mm::Fpr,
        segments::Mm::Apr,
        segments::Mm::Log,
        segments::Mm::Sc,
        segments::Mm::Ao,
    ] {
        let op = segments::TypeAOp { mm, layer: 1, head: 0 };
        let (a, b, q) = values::typea_inputs(op, &cfg, &weights, &witness);
        let p = match mm {
            segments::Mm::Log | segments::Mm::Sc => a.matmul_transposed_rhs(&b),
            _ => a.matmul(&b),
        };
        assert_eq!(q, p.floor_div_const(4));
        let dims = segments::mm_dims(&cfg, mm);
        assert_eq!((q.rows(), q.cols()), (dims.row, dims.col));
        for r in 0..q.rows() {
            for c in 0..q.cols() {
                let rem = p.get(r, c) - 4 * q.get(r, c);
                assert!((0..4).contains(&rem));
            }
        }
    }
}
