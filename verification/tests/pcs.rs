use ligesis::field::{Field, Goldilocks, GoldilocksExt2};
use ligesis::pcs::basefold::{
    BaseOpening, Basefold, BasefoldCommit, BasefoldProverState, BatchProof,
};
use ligesis::pcs::deepfold::Deepfold;
use ligesis::pcs::domain::rs_encode;
use ligesis::pcs::fri::RoundOpening;
use ligesis::pcs::ligesis::{columns_available, Ligesis, ProvingKey, VerifyingKey};
use ligesis::pcs::noop::{NoopCommit, NoopPcs};
use ligesis::pcs::scheme::{PlaceholderPcs, PolyCommitmentScheme};
use ligesis::pcs::subset_sum::{SubsetSumHash, C};
use ligesis::utils::oracle::RandomOracle;
use ligesis::utils::poly::MlPoly;
use rand::RngExt;

type EF = GoldilocksExt2;
type B = Basefold<Goldilocks, GoldilocksExt2>;
type LS = Ligesis<Goldilocks, GoldilocksExt2>;
type Rng = rand::rngs::ThreadRng;

fn base(n: usize, rng: &mut Rng) -> Vec<Goldilocks> {
    (0..n).map(|_| Goldilocks::sample(rng)).collect()
}

fn ext(n: usize, rng: &mut Rng) -> Vec<EF> {
    (0..n).map(|_| EF::sample(rng)).collect()
}

fn lift(v: &[Goldilocks]) -> Vec<EF> {
    v.iter().map(|&x| EF::from_base(x)).collect()
}

fn bump(x: &mut EF) {
    *x = x.add(EF::new_one());
}

#[test]
fn it_works() {}

#[test]
fn basefold_prover_can_be_parameterized_by_base_and_extension_fields() {
    let _prover = Basefold::<Goldilocks, GoldilocksExt2>::new();
}

#[test]
fn deepfold_prover_can_be_parameterized_by_base_and_extension_fields() {
    let _prover = Deepfold::<Goldilocks, GoldilocksExt2>::new();
}

#[test]
fn commit_prove_verify_round_trip() {
    let mut rng = rand::rng();
    let n = 12usize;
    let code_rate = 2usize;

    let coeffs = base(1 << n, &mut rng);
    let poly = MlPoly(coeffs.clone());
    let point = ext(n, &mut rng);

    let (state, commit) = B::commit_base(poly, code_rate);

    let mut oracle = RandomOracle::<GoldilocksExt2>::new(&mut rng);
    let proof = B::prove(&state, point.clone(), &mut oracle);

    let expected = MlPoly(lift(&coeffs)).eval(&point);
    assert_eq!(proof.claimed_eval, expected);

    oracle.restart();
    assert!(B::verify(&commit, point.clone(), &proof, &mut oracle));
}

#[test]
fn commit_ext_round_trip() {
    let mut rng = rand::rng();
    let n = 12usize;
    let code_rate = 2usize;

    let coeffs = ext(1 << n, &mut rng);
    let poly = MlPoly(coeffs.clone());
    let point = ext(n, &mut rng);

    let (state, commit) = B::commit_ext(poly, code_rate);

    let mut oracle = RandomOracle::<GoldilocksExt2>::new(&mut rng);
    let proof = B::prove(&state, point.clone(), &mut oracle);
    assert_eq!(proof.claimed_eval, MlPoly(coeffs).eval(&point));

    oracle.restart();
    assert!(B::verify(&commit, point.clone(), &proof, &mut oracle));
}

#[test]
fn tampered_proof_is_rejected() {
    let mut rng = rand::rng();
    let n = 12usize;
    let code_rate = 2usize;

    let coeffs = base(1 << n, &mut rng);
    let poly = MlPoly(coeffs);
    let point = ext(n, &mut rng);

    let (state, commit) = B::commit_base(poly, code_rate);
    let mut oracle = RandomOracle::<GoldilocksExt2>::new(&mut rng);
    let mut proof = B::prove(&state, point.clone(), &mut oracle);

    bump(&mut proof.reduction_msgs[0].0);

    oracle.restart();
    assert!(!B::verify(&commit, point.clone(), &proof, &mut oracle));
}

type Task<LF> = (BasefoldProverState<LF, EF>, BasefoldCommit, Vec<EF>, EF);

fn batch_setup(
    bf_sizes: &[usize],
    ef_sizes: &[usize],
    r: usize,
    code_rate: usize,
    rng: &mut Rng,
) -> (Vec<Task<Goldilocks>>, Vec<Task<EF>>) {
    let mut bf = Vec::new();
    for &n in bf_sizes {
        let coeffs = base(1 << n, rng);
        let point = ext(n, rng);
        let claim = MlPoly(lift(&coeffs)).eval(&point);
        let (state, commit) = B::commit_base_on_domain(MlPoly(coeffs), code_rate, n - r);
        bf.push((state, commit, point, claim));
    }
    let mut ef = Vec::new();
    for &n in ef_sizes {
        let coeffs = ext(1 << n, rng);
        let point = ext(n, rng);
        let claim = MlPoly(coeffs.clone()).eval(&point);
        let (state, commit) = B::commit_ext_on_domain(MlPoly(coeffs), code_rate, n - r);
        ef.push((state, commit, point, claim));
    }
    (bf, ef)
}

#[test]
fn batch_open_mixed_sizes_and_fields_round_trip() {
    let mut rng = rand::rng();
    let code_rate = 1usize;
    let r = 6usize;
    let (bf, ef) = batch_setup(&[12, 10, 9], &[11], r, code_rate, &mut rng);

    let bf_tasks: Vec<_> = bf.iter().map(|(s, _, p, _)| (s, p.clone())).collect();
    let ef_tasks: Vec<_> = ef.iter().map(|(s, _, p, _)| (s, p.clone())).collect();

    let mut oracle = RandomOracle::<GoldilocksExt2>::new(&mut rng);
    let proof = B::batch_prove(&bf_tasks, &ef_tasks, &mut oracle);

    let bf_claims: Vec<_> =
        bf.iter().map(|(_, c, p, v)| (c, p.clone(), *v, p.len() - r)).collect();
    let ef_claims: Vec<_> =
        ef.iter().map(|(_, c, p, v)| (c, p.clone(), *v, p.len() - r)).collect();

    oracle.restart();
    assert!(B::batch_verify(&bf_claims, &ef_claims, &proof, &mut oracle));
}

#[test]
fn batch_open_tampering_is_rejected() {
    let mut rng = rand::rng();
    let code_rate = 1usize;
    let r = 6usize;
    let (bf, ef) = batch_setup(&[12, 10], &[11], r, code_rate, &mut rng);

    let bf_tasks: Vec<_> = bf.iter().map(|(s, _, p, _)| (s, p.clone())).collect();
    let ef_tasks: Vec<_> = ef.iter().map(|(s, _, p, _)| (s, p.clone())).collect();
    let mut oracle = RandomOracle::<GoldilocksExt2>::new(&mut rng);
    let proof = B::batch_prove(&bf_tasks, &ef_tasks, &mut oracle);

    let mk_claims = || {
        let bf_claims: Vec<_> =
            bf.iter().map(|(_, c, p, v)| (c, p.clone(), *v, p.len() - r)).collect::<Vec<_>>();
        let ef_claims: Vec<_> =
            ef.iter().map(|(_, c, p, v)| (c, p.clone(), *v, p.len() - r)).collect::<Vec<_>>();
        (bf_claims, ef_claims)
    };

    {
        let (bc, ec) = mk_claims();
        oracle.restart();
        assert!(B::batch_verify(&bc, &ec, &proof, &mut oracle));
    }
    {
        let mut p = clone_batch_proof(&proof);
        bump(&mut p.reduction_msgs[0][0]);
        let (bc, ec) = mk_claims();
        oracle.restart();
        assert!(!B::batch_verify(&bc, &ec, &p, &mut oracle));
    }
    {
        let (mut bc, ec) = mk_claims();
        bump(&mut bc[0].2);
        oracle.restart();
        assert!(!B::batch_verify(&bc, &ec, &proof, &mut oracle));
    }
    {
        let mut p = clone_batch_proof(&proof);
        let first_key = *p.base_bf[0].values.keys().next().unwrap();
        let opened = p.base_bf[0].values.get_mut(&first_key).unwrap();
        opened[0] = opened[0].add(Goldilocks::new_one());
        let (bc, ec) = mk_claims();
        oracle.restart();
        assert!(!B::batch_verify(&bc, &ec, &p, &mut oracle));
    }
}

fn clone_batch_proof(
    p: &BatchProof<Goldilocks, GoldilocksExt2>,
) -> BatchProof<Goldilocks, GoldilocksExt2> {
    BatchProof {
        reduction_msgs: p.reduction_msgs.clone(),
        fold_roots: p.fold_roots.clone(),
        final_codeword: p.final_codeword.clone(),
        fold_openings: p
            .fold_openings
            .iter()
            .map(|o| RoundOpening { proof_bytes: o.proof_bytes.clone(), values: o.values.clone() })
            .collect(),
        base_bf: p
            .base_bf
            .iter()
            .map(|o| BaseOpening { proof_bytes: o.proof_bytes.clone(), values: o.values.clone() })
            .collect(),
        base_ef: p
            .base_ef
            .iter()
            .map(|o| BaseOpening { proof_bytes: o.proof_bytes.clone(), values: o.values.clone() })
            .collect(),
        code_rate: p.code_rate,
        log_len: p.log_len,
    }
}

#[test]
fn basefold_state_keeps_what_was_committed() {
    let mut rng = rand::rng();
    let coeffs = base(1 << 8, &mut rng);
    let point = ext(8, &mut rng);
    let (state, _) = B::commit_base_on_domain(MlPoly(coeffs.clone()), 1, 3);
    assert_eq!(state.num_vars(), 8);
    assert_eq!(state.log_interleave(), 3);
    assert_eq!(state.code_rate(), 1);
    assert_eq!(state.eval(&point), MlPoly(lift(&coeffs)).eval(&point));
    let several = B::batch_commit_base_on_domain(vec![MlPoly(coeffs.clone())], 1, 3);
    assert_eq!(several.len(), 1);
    assert_eq!(several[0].1 .0, B::commit_base_on_domain(MlPoly(coeffs), 1, 3).1 .0);
}

#[test]
fn encoding_evaluates_on_roots_of_unity() {
    // On 1 and -1, a + b x is a + b and a - b.
    let g = |v: u64| Goldilocks::new(v);
    assert_eq!(rs_encode(&vec![g(10), g(4)], 1), [g(14), g(6)]);
    // A constant has the same value everywhere.
    assert_eq!(rs_encode(&vec![g(3)], 2), [g(3), g(3), g(3), g(3)]);
    let e = EF::new(g(1), g(2));
    assert_eq!(rs_encode(&vec![e, e], 1), [e.add(e), EF::new_zero()]);
    // The evaluations at the fourth roots of unity add up to four times the constant.
    let four = rs_encode(&vec![g(5), g(6), g(7), g(8)], 2);
    let sum = four.iter().fold(Goldilocks::new_zero(), |a, &b| a.add(b));
    assert_eq!(sum, g(20));
}

#[test]
fn deepfold_commitments_bind_the_polynomial() {
    let mut rng = rand::rng();
    let coeffs = base(1 << 8, &mut rng);
    let (_, a) = Deepfold::<Goldilocks, EF>::commit_base(MlPoly(coeffs.clone()), 1);
    let (_, b) = Deepfold::<Goldilocks, EF>::commit_ext(MlPoly(lift(&coeffs)), 1);
    assert_eq!(a.0, b.0);
    let mut other = coeffs;
    other[3] = other[3].add(Goldilocks::new_one());
    let (_, c) = Deepfold::<Goldilocks, EF>::commit_base(MlPoly(other), 1);
    assert_ne!(a.0, c.0);
}

fn setup_commit(
    log_m: usize,
    log_n: usize,
    rng: &mut Rng,
) -> (ProvingKey<Goldilocks, EF>, VerifyingKey, Vec<Goldilocks>, Vec<EF>) {
    let mu = log_m + log_n;
    let f = base(1 << mu, rng);
    let z = ext(mu, rng);
    let (pk, vk) = LS::setup(log_m, log_n, rng);
    (pk, vk, f, z)
}

#[test]
fn ligesis_round_trip() {
    let mut rng = rand::rng();
    let (log_m, log_n) = (3, 10);
    let (pk, vk, f, z) = setup_commit(log_m, log_n, &mut rng);

    let expected = MlPoly(lift(&f)).eval(&z);
    let (commit, data) = LS::commit(&pk, MlPoly(f));

    let mut oracle = RandomOracle::<EF>::new(&mut rng);
    let proof = LS::prove(&pk, &data, z.clone(), &mut oracle);
    assert_eq!(proof.y, expected);

    oracle.restart();
    assert!(LS::verify(&vk, &commit, z, &proof, &mut oracle));
}

#[test]
fn tampered_eval_is_rejected() {
    let mut rng = rand::rng();
    let (log_m, log_n) = (3, 10);
    let (pk, vk, f, z) = setup_commit(log_m, log_n, &mut rng);
    let (commit, data) = LS::commit(&pk, MlPoly(f));

    let mut oracle = RandomOracle::<EF>::new(&mut rng);
    let mut proof = LS::prove(&pk, &data, z.clone(), &mut oracle);
    bump(&mut proof.y);

    oracle.restart();
    assert!(!LS::verify(&vk, &commit, z, &proof, &mut oracle));
}

#[test]
fn tampered_sumcheck_is_rejected() {
    let mut rng = rand::rng();
    let (log_m, log_n) = (3, 10);
    let (pk, vk, f, z) = setup_commit(log_m, log_n, &mut rng);
    let (commit, data) = LS::commit(&pk, MlPoly(f));

    let mut oracle = RandomOracle::<EF>::new(&mut rng);
    let mut proof = LS::prove(&pk, &data, z.clone(), &mut oracle);
    bump(&mut proof.sc_hash.round_polys[0][0]);

    oracle.restart();
    assert!(!LS::verify(&vk, &commit, z, &proof, &mut oracle));
}

#[test]
fn tampered_h_column_is_rejected() {
    let mut rng = rand::rng();
    let (log_m, log_n) = (3, 10);
    let (pk, vk, f, z) = setup_commit(log_m, log_n, &mut rng);
    let (commit, data) = LS::commit(&pk, MlPoly(f));

    let mut oracle = RandomOracle::<EF>::new(&mut rng);
    let mut proof = LS::prove(&pk, &data, z.clone(), &mut oracle);
    proof.h_cols[0][0] = proof.h_cols[0][0].add(Goldilocks::new_one());

    oracle.restart();
    assert!(!LS::verify(&vk, &commit, z, &proof, &mut oracle));
}

#[test]
fn commit_is_empty_and_verify_always_accepts() {
    type F = Goldilocks;
    type Pcs = NoopPcs<F>;
    let mut rng = rand::rng();
    let mut oracle = RandomOracle::<F>::new(&mut rng);

    let poly = MlPoly((0..8).map(|i| F::new(i as u64 + 1)).collect::<Vec<_>>());
    let point: Vec<F> = [5u64, 9, 2].into_iter().map(F::new).collect();
    let (data, commit) = Pcs::commit(poly.clone());

    assert_eq!(data.0, poly.0);
    assert_eq!(commit, NoopCommit);

    Pcs::batch_prove(&[(&data, point.clone())], &mut oracle);
    let bogus = poly.eval(&point).add(F::new(1));
    assert!(Pcs::batch_verify(&[(&commit, point, bogus)], &(), &mut oracle));
}

#[test]
fn batch_open_round_trips_and_rejects_tamper() {
    type F = Goldilocks;
    type Pcs = PlaceholderPcs<F>;
    let mut rng = rand::rng();
    let mut oracle = RandomOracle::<F>::new(&mut rng);

    let poly_a = MlPoly((0..8).map(|i| F::new(i as u64 + 1)).collect::<Vec<_>>());
    let poly_b = MlPoly((0..4).map(|i| F::new(7 * i as u64 + 3)).collect::<Vec<_>>());
    let point_a: Vec<F> = [5u64, 9, 2].into_iter().map(F::new).collect();
    let point_b: Vec<F> = [3u64, 11].into_iter().map(F::new).collect();

    let (data_a, commit_a) = Pcs::commit(poly_a.clone());
    let (data_b, commit_b) = Pcs::commit(poly_b.clone());
    let val_a = poly_a.clone().eval(&point_a);
    let val_b = poly_b.clone().eval(&point_b);

    Pcs::batch_prove(
        &[(&data_a, point_a.clone()), (&data_b, point_b.clone())],
        &mut oracle,
    );

    assert!(Pcs::batch_verify(
        &[
            (&commit_a, point_a.clone(), val_a),
            (&commit_b, point_b.clone(), val_b),
        ],
        &(),
        &mut oracle,
    ));

    assert!(!Pcs::batch_verify(
        &[
            (&commit_a, point_a, val_a.add(F::new(1))),
            (&commit_b, point_b, val_b),
        ],
        &(),
        &mut oracle,
    ));
}

#[test]
fn hash_column_matches_naive_matrix_vector_product() {
    let mut rng = rand::rng();
    let width = 128;
    let h = SubsetSumHash::<Goldilocks>::new(width, &mut rng);
    let x: Vec<bool> = (0..width).map(|_| rng.random::<bool>()).collect();

    let got = h.hash_column(&x);
    for r in 0..C {
        let mut acc = Goldilocks::new_zero();
        for i in 0..width {
            if x[i] {
                acc = acc.add(h.a[r][i]);
            }
        }
        assert_eq!(got[r], acc);
    }
}

#[test]
fn hash_columns_is_columnwise_hash() {
    let mut rng = rand::rng();
    let width = 64;
    let h = SubsetSumHash::<Goldilocks>::new(width, &mut rng);
    let cols: Vec<Vec<bool>> =
        (0..10).map(|_| (0..width).map(|_| rng.random::<bool>()).collect()).collect();
    let hm = h.hash_columns(&cols);
    for (j, col) in cols.iter().enumerate() {
        let d = h.hash_column(col);
        for r in 0..C {
            assert_eq!(hm[r][j], d[r]);
        }
    }
}

#[test]
fn hash_matrix_is_flattened_by_rows() {
    let mut rng = rand::rng();
    let h = SubsetSumHash::<Goldilocks>::new(4, &mut rng);
    let flat = h.a_mle_flat();
    assert_eq!(flat.len(), 4 * C);
    assert_eq!(flat[4 * 5 + 2], h.a[5][2]);
}

#[test]
fn enough_distinct_columns_are_needed() {
    let mut rng = rand::rng();
    let oracle = RandomOracle::<EF>::new(&mut rng);
    assert!(columns_available(&oracle, 10));
    // 64 columns hold no 128 distinct ones
    assert!(!columns_available(&oracle, 5));
}

#[test]
fn batch_claims_of_another_shape_are_rejected_unread() {
    let mut rng = rand::rng();
    let r = 6usize;
    let (bf, ef) = batch_setup(&[9, 8], &[7], r, 1, &mut rng);
    let bf_tasks: Vec<_> = bf.iter().map(|(s, _, p, _)| (s, p.clone())).collect();
    let ef_tasks: Vec<_> = ef.iter().map(|(s, _, p, _)| (s, p.clone())).collect();
    let mut oracle = RandomOracle::<GoldilocksExt2>::new(&mut rng);
    let proof = B::batch_prove(&bf_tasks, &ef_tasks, &mut oracle);
    let bc: Vec<_> = bf.iter().map(|(_, c, p, v)| (c, p.clone(), *v, p.len() - r)).collect();
    let ec: Vec<_> = ef.iter().map(|(_, c, p, v)| (c, p.clone(), *v, p.len() - r)).collect();
    oracle.restart();
    let first = oracle.next_field();

    // one claim fewer
    oracle.restart();
    assert!(!B::batch_verify(&bc[1..], &ec, &proof, &mut oracle));
    assert_eq!(oracle.next_field(), first);

    // a smaller interleaving
    let mut narrow = bc.clone();
    narrow[0].3 -= 1;
    oracle.restart();
    assert!(!B::batch_verify(&narrow, &ec, &proof, &mut oracle));
    assert_eq!(oracle.next_field(), first);

    // a shorter point
    let mut short = ec.clone();
    short[0].1.pop();
    oracle.restart();
    assert!(!B::batch_verify(&bc, &short, &proof, &mut oracle));
    assert_eq!(oracle.next_field(), first);

    // a folded level fewer
    let mut p = clone_batch_proof(&proof);
    p.fold_roots.pop();
    oracle.restart();
    assert!(!B::batch_verify(&bc, &ec, &p, &mut oracle));
    assert_eq!(oracle.next_field(), first);

    oracle.restart();
    assert!(B::batch_verify(&bc, &ec, &proof, &mut oracle));
}

#[test]
fn openings_of_another_shape_are_rejected() {
    let mut rng = rand::rng();
    let (pk, vk, f, z) = setup_commit(3, 10, &mut rng);
    let (commit, data) = LS::commit(&pk, MlPoly(f));
    let mut oracle = RandomOracle::<EF>::new(&mut rng);
    let mut proof = LS::prove(&pk, &data, z.clone(), &mut oracle);

    // a point of the wrong length is rejected before anything is read
    oracle.restart();
    let (first, column) = (oracle.next_field(), oracle.next_int());
    oracle.restart();
    assert!(!LS::verify(&vk, &commit, z[1..].to_vec(), &proof, &mut oracle));
    assert_eq!((oracle.next_field(), oracle.next_int()), (first, column));

    // a column fewer is rejected before a field element is read
    let last = proof.h_cols.pop().unwrap();
    oracle.restart();
    assert!(!LS::verify(&vk, &commit, z.clone(), &proof, &mut oracle));
    assert_eq!(oracle.next_field(), first);
    proof.h_cols.push(last);

    // a round fewer
    let round = proof.sc_recon.round_polys.pop().unwrap();
    oracle.restart();
    assert!(!LS::verify(&vk, &commit, z.clone(), &proof, &mut oracle));
    proof.sc_recon.round_polys.push(round);

    oracle.restart();
    assert!(LS::verify(&vk, &commit, z, &proof, &mut oracle));
}

#[test]
fn irreducible_claims_are_rejected_before_the_openings() {
    let mut rng = rand::rng();
    let r = 6usize;
    let (bf, ef) = batch_setup(&[9], &[7], r, 1, &mut rng);
    let bf_tasks: Vec<_> = bf.iter().map(|(s, _, p, _)| (s, p.clone())).collect();
    let ef_tasks: Vec<_> = ef.iter().map(|(s, _, p, _)| (s, p.clone())).collect();
    let mut oracle = RandomOracle::<GoldilocksExt2>::new(&mut rng);
    let mut proof = B::batch_prove(&bf_tasks, &ef_tasks, &mut oracle);
    let mut bc: Vec<_> = bf.iter().map(|(_, c, p, v)| (c, p.clone(), *v, p.len() - r)).collect();
    let ec: Vec<_> = ef.iter().map(|(_, c, p, v)| (c, p.clone(), *v, p.len() - r)).collect();
    bc[0].1[3] = EF::new_zero();
    proof.base_bf[0].values.clear();
    proof.final_codeword.clear();
    oracle.restart();
    let query = oracle.next_int();
    oracle.restart();
    assert!(!B::batch_verify(&bc, &ec, &proof, &mut oracle));
    assert_eq!(oracle.next_int(), query);
}

#[test]
fn broken_reduction_is_rejected_before_the_openings() {
    let mut rng = rand::rng();
    let poly = MlPoly(base(1 << 8, &mut rng));
    let point = ext(8, &mut rng);
    let (state, commit) = B::commit_base(poly, 1);
    let mut oracle = RandomOracle::<GoldilocksExt2>::new(&mut rng);
    let mut proof = B::prove(&state, point.clone(), &mut oracle);
    bump(&mut proof.claimed_eval);
    proof.base_opening.values.clear();
    proof.fold_openings.clear();
    proof.final_codeword.clear();
    oracle.restart();
    let (first, query) = (oracle.next_field(), oracle.next_int());
    oracle.restart();
    assert!(!B::verify(&commit, point, &proof, &mut oracle));
    assert_eq!((oracle.next_field(), oracle.next_int()), (first, query));
}

#[test]
fn a_zero_coordinate_stops_the_batch_in_its_round() {
    let mut rng = rand::rng();
    let (code_rate, r) = (1usize, 6usize);
    let (bf, ef) = batch_setup(&[12, 10], &[11], r, code_rate, &mut rng);
    let bf_tasks: Vec<_> = bf.iter().map(|(s, _, p, _)| (s, p.clone())).collect();
    let ef_tasks: Vec<_> = ef.iter().map(|(s, _, p, _)| (s, p.clone())).collect();
    let mut oracle = RandomOracle::<GoldilocksExt2>::new(&mut rng);
    let proof = B::batch_prove(&bf_tasks, &ef_tasks, &mut oracle);
    let mut bc: Vec<_> = bf.iter().map(|(_, c, p, v)| (c, p.clone(), *v, p.len() - r)).collect();
    let ec: Vec<_> = ef.iter().map(|(_, c, p, v)| (c, p.clone(), *v, p.len() - r)).collect();
    oracle.restart();
    let tape = oracle.next_n_fields(3 + r + 1);
    let ints = oracle.next_n_ints(1);
    let li = bc[1].3;
    bc[1].1[li + 2] = GoldilocksExt2::new_zero();
    oracle.restart();
    assert!(!B::batch_verify(&bc, &ec, &proof, &mut oracle));
    assert_eq!(oracle.next_field(), tape[3 + 3]);
    assert_eq!(oracle.next_n_ints(1), ints);
}

#[test]
fn a_broken_message_stops_the_opening() {
    let mut rng = rand::rng();
    let point = ext(12, &mut rng);
    let (state, commit) = B::commit_base(MlPoly(base(1 << 12, &mut rng)), 2);
    let mut oracle = RandomOracle::<GoldilocksExt2>::new(&mut rng);
    let mut proof = B::prove(&state, point.clone(), &mut oracle);
    oracle.restart();
    let tape = oracle.next_n_fields(8);
    let ints = oracle.next_n_ints(1);
    bump(&mut proof.reduction_msgs[2].0);
    // The parts behind the broken message are not looked at.
    proof.fold_openings.clear();
    proof.final_codeword.clear();
    oracle.restart();
    assert!(!B::verify(&commit, point, &proof, &mut oracle));
    assert_eq!(oracle.next_field(), tape[2]);
    assert_eq!(oracle.next_n_ints(1), ints);
}
