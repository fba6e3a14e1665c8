use ligesis::field::{Field, Goldilocks, GoldilocksExt2};
use ligesis::utils::merkle::{hash_leaf, MerkleTreeProver, MerkleTreeVerifier, Serialize};
use ligesis::utils::oracle::{RandomOracle, RANDOM_ORACLE_LEN};
use ligesis::utils::poly::MlPoly;
use ligesis::utils::sumcheck::{eval_points, interpolate, prove, verify};

type EF = GoldilocksExt2;

const P: u64 = 0xffff_ffff_0000_0001;

fn hypercube_sum(polys: &[Vec<EF>]) -> EF {
    (0..polys[0].len())
        .map(|i| polys.iter().fold(EF::new_one(), |a, p| a.mul(p[i])))
        .fold(EF::new_zero(), |a, b| a.add(b))
}

fn random_polys(d: usize, n: usize, rng: &mut rand::rngs::ThreadRng) -> Vec<Vec<EF>> {
    (0..d).map(|_| (0..(1usize << n)).map(|_| EF::sample(rng)).collect()).collect()
}

fn leaf(x: u64) -> Vec<u8> {
    Serialize::serialize_fields(&[Goldilocks::new(x * 2), Goldilocks::new(x * 2 + 1)])
}

#[test]
fn product_sumcheck_round_trip() {
    let mut rng = rand::rng();
    let polys = random_polys(3, 10, &mut rng);
    let claim = hypercube_sum(&polys);

    let mut oracle = RandomOracle::<EF>::new(&mut rng);
    let (proof, _challenges) = prove(polys, &mut oracle);

    oracle.restart();
    assert!(verify(claim, &proof, &mut oracle).is_some());

    oracle.restart();
    assert!(verify(claim.add(EF::new_one()), &proof, &mut oracle).is_none());
}

#[test]
fn tampered_round_is_rejected() {
    let mut rng = rand::rng();
    let polys = random_polys(3, 8, &mut rng);
    let claim = hypercube_sum(&polys);

    let mut oracle = RandomOracle::<EF>::new(&mut rng);
    let (mut proof, _) = prove(polys, &mut oracle);
    proof.round_polys[2][3] = proof.round_polys[2][3].add(EF::new_one());

    oracle.restart();
    assert!(verify(claim, &proof, &mut oracle).is_none());
}

#[test]
fn sumcheck_returns_the_challenges_and_opens_the_tables() {
    let mut rng = rand::rng();
    let polys = random_polys(2, 3, &mut rng);
    let claim = hypercube_sum(&polys);
    let mut oracle = RandomOracle::<EF>::new(&mut rng);
    let (proof, challenges) = prove(polys.clone(), &mut oracle);
    assert_eq!(proof.round_polys.len(), 3);
    assert_eq!(proof.round_polys[0].len(), 3);
    assert_eq!(proof.size_bytes(), 16 * (3 * 3 + 2));
    oracle.restart();
    assert_eq!(verify(claim, &proof, &mut oracle).unwrap(), challenges);
    let reversed: Vec<EF> = challenges.iter().rev().cloned().collect();
    for (k, p) in polys.iter().enumerate() {
        assert_eq!(proof.final_evals[k], MlPoly(p.clone()).eval(&reversed));
    }
}

#[test]
fn interpolation_of_a_quadratic() {
    // x^2 + 3 on 0, 1, 2 is 3, 4, 7; at 10 it is 103.
    let evals: Vec<EF> = [3u64, 4, 7].iter().map(|&v| EF::from_u64(v)).collect();
    assert_eq!(interpolate(&evals, EF::from_u64(10)), EF::from_u64(103));
    let points: Vec<EF> = eval_points(4);
    assert_eq!(points[3], EF::from_u64(3));
}

#[test]
fn commit_and_open() {
    let leaf_values: Vec<Vec<u8>> = (0..8).map(leaf).collect();
    let leave_number = leaf_values.len();
    let prover = MerkleTreeProver::new(&leaf_values);
    let root = prover.commit();
    let verifier = MerkleTreeVerifier::new(leave_number, &root);
    let leaf_indices = vec![2, 3];
    let proof_bytes = prover.open(&leaf_indices);
    let open_values = vec![leaf(2), leaf(3)];
    assert!(verifier.verify(proof_bytes, &leaf_indices, &open_values));
}

#[test]
fn merkle_rejects_another_leaf_and_another_root() {
    let leaf_values: Vec<Vec<u8>> = (0..8).map(leaf).collect();
    let prover = MerkleTreeProver::new(&leaf_values);
    assert_eq!(prover.leave_num(), 8);
    let root = prover.commit();
    let verifier = MerkleTreeVerifier::new(8, &root);
    let proof_bytes = prover.open(&[5]);
    assert!(verifier.verify(proof_bytes.clone(), &vec![5], &vec![leaf(5)]));
    assert!(verifier.verify_digests(proof_bytes.clone(), &vec![5], &vec![hash_leaf(&leaf(5))]));
    assert!(!verifier.verify(proof_bytes.clone(), &vec![5], &vec![leaf(6)]));
    assert_eq!(MerkleTreeVerifier::get_root(proof_bytes.clone(), 5, leaf(5), 8), root);
    assert_eq!(MerkleTreeVerifier::root_of(vec![1, 2, 3], 5, leaf(5), 8), None);
    let mut other = root;
    other[0] ^= 1;
    assert!(!MerkleTreeVerifier::new(8, &other).verify(proof_bytes, &vec![5], &vec![leaf(5)]));
    let hashes = leaf_values.iter().map(|l| hash_leaf(l)).collect();
    assert_eq!(MerkleTreeProver::from_leaf_hashes(hashes).commit(), root);
}

#[test]
fn leaf_hash_is_blake3() {
    let empty = hash_leaf(&[]);
    assert_eq!(empty[..4], [0xaf, 0x13, 0x49, 0xb9]);
    assert_eq!(hash_leaf(b"abc"), *blake3::hash(b"abc").as_bytes());
}

#[test]
fn serialize() {
    let values = [Goldilocks::new(42), Goldilocks::new(u64::MAX)];
    let bytes = Serialize::serialize_fields(&values);

    assert_eq!(bytes.len(), values.len() * 8);
    assert_eq!(&bytes[..8], &values[0].as_canonical_u64().to_le_bytes());
}

#[test]
fn serialized_elements_are_canonical() {
    // 2^64 - 1 is 2^32 - 2 modulo the prime.
    assert_eq!(Goldilocks::new(u64::MAX).as_canonical_u64(), 0xffff_fffe);
    let pair = EF::new(Goldilocks::new(7), Goldilocks::new(P + 1));
    let mut bytes = vec![9u8];
    Serialize::serialize_fields_into(&[pair], &mut bytes);
    assert_eq!(bytes, [9, 7, 0, 0, 0, 0, 0, 0, 0, 1, 0, 0, 0, 0, 0, 0, 0]);
}

#[test]
fn base_field_arithmetic() {
    let a = Goldilocks::new(P - 1);
    let b = Goldilocks::new(5);
    assert_eq!(a.add(b), Goldilocks::new(4));
    assert_eq!(b.sub(Goldilocks::new(7)), Goldilocks::new(P - 2));
    assert_eq!(a.mul(b), Goldilocks::new(P - 5));
    assert_eq!(b.neg(), Goldilocks::new(P - 5));
    assert_eq!(Goldilocks::new_zero().neg(), Goldilocks::new_zero());
    // 2 times (P + 1) / 2 is 1.
    assert_eq!(Goldilocks::new(2).inverse(), Goldilocks::new(0x7fff_ffff_8000_0001));
    assert_eq!(Goldilocks::from_u64(u64::MAX), Goldilocks::new(0xffff_fffe));
    assert_eq!(Goldilocks::size(), 8);
    assert!(b.equals(Goldilocks::new(P + 5)));
    assert!(!b.equals(Goldilocks::new(6)));
}

#[test]
fn extension_field_arithmetic() {
    let x = |a: u64, b: u64| EF::new(Goldilocks::new(a), Goldilocks::new(b));
    assert_eq!(x(1, 2).add(x(3, P - 1)), x(4, 1));
    assert_eq!(x(1, 2).sub(x(3, 1)), x(P - 2, 1));
    // The square of the generator is 7.
    assert_eq!(x(0, 1).mul(x(0, 1)), x(7, 0));
    assert_eq!(x(1, 2).mul(x(3, 4)), x(59, 10));
    assert_eq!(x(3, 5).mul(x(3, 5).inverse()), EF::new_one());
    assert_ne!(x(3, 5).inverse(), x(3, 5));
    assert_eq!(EF::from_base(Goldilocks::new(9)).coefficient0(), Goldilocks::new(9));
    assert_eq!(x(3, 5).coefficient1(), Goldilocks::new(5));
    assert_eq!(EF::size(), 16);
}

#[test]
fn multilinear_evaluation() {
    // 1 + 2x + 3y + 4xy on the four vertices, with x the first variable.
    let p: Vec<EF> = [1u64, 3, 4, 10].iter().map(|&v| EF::from_u64(v)).collect();
    let point = [EF::from_u64(5), EF::from_u64(7)];
    assert_eq!(MlPoly(p.clone()).eval(&point), EF::from_u64(1 + 10 + 21 + 140));
    let mut folded = MlPoly(p.clone());
    folded.fold(&point[..1]);
    assert_eq!(folded.eval(&point[1..]), EF::from_u64(172));
    let halves = MlPoly(p).split(2);
    assert_eq!(halves.len(), 2);
    assert_eq!(halves[1].0, [EF::from_u64(3), EF::from_u64(10)]);
    let q = vec![EF::from_u64(2), EF::from_u64(3)];
    let r = vec![EF::from_u64(4), EF::from_u64(6)];
    assert_eq!(MlPoly::new_eq(&q).eval(&r), MlPoly::<EF>::eval_eq(&q, &r));
}

#[test]
fn oracle_repeats_after_a_restart() {
    let mut rng = rand::rng();
    let mut oracle = RandomOracle::<EF>::new(&mut rng);
    let first = oracle.next_field();
    let rest = oracle.next_n_fields(4);
    let peeked = oracle.peek_ints(3);
    assert_eq!(oracle.next_n_ints(3), peeked);
    let one = oracle.next_int();
    oracle.restart();
    let again = oracle.next_n_fields(5);
    assert_eq!(again[0], first);
    assert_eq!(again[1..], rest[..]);
    assert_eq!(oracle.next_n_ints(4), [&peeked[..], &[one]].concat());
    assert_eq!(RANDOM_ORACLE_LEN, 100_000);
    // Fresh randomness does not repeat.
    let mut other = RandomOracle::<EF>::new(&mut rng);
    assert_ne!(other.next_n_fields(5), again);
}

#[test]
fn changed_round_values_are_rejected() {
    let mut rng = rand::rng();
    let polys = random_polys(3, 3, &mut rng);
    let claim = hypercube_sum(&polys);
    let mut oracle = RandomOracle::<EF>::new(&mut rng);
    let (mut proof, ch) = prove(polys, &mut oracle);
    oracle.restart();
    assert_eq!(verify(claim, &proof, &mut oracle), Some(ch));
    oracle.restart();
    assert_eq!(verify(claim.add(EF::new_one()), &proof, &mut oracle), None);
    for round in 0..3 {
        for k in 0..2 {
            let v = proof.round_polys[round][k];
            proof.round_polys[round][k] = v.add(EF::new_one());
            oracle.restart();
            assert_eq!(verify(claim, &proof, &mut oracle), None);
            proof.round_polys[round][k] = v;
        }
    }
}
