use ligesis::field::{Field, Goldilocks, GoldilocksExt2};
use ligesis::logup::frac_sum;
use ligesis::logup::lookup::{
    multiplicity_vector, prove, prove_with_mults, prove_with_opening_points,
    prove_with_query_point, verify, OpeningClaim, Poly,
};
use ligesis::pcs::basefold::Basefold;
use ligesis::utils::oracle::RandomOracle;
use ligesis::utils::poly::MlPoly;
use rand::RngExt;

type EF = GoldilocksExt2;

fn random(n: usize, rng: &mut rand::rngs::ThreadRng) -> Vec<EF> {
    (0..n).map(|_| EF::sample(rng)).collect()
}

fn sum_of_fractions(p: &[EF], q: &[EF]) -> (EF, EF) {
    let mut num = EF::new_zero();
    let mut den = EF::new_one();
    for (&pi, &qi) in p.iter().zip(q) {
        num = num.mul(qi).add(pi.mul(den));
        den = den.mul(qi);
    }
    (num, den)
}

#[test]
fn frac_sum_round_trip() {
    let mut rng = rand::rng();
    for k in 0..8 {
        let n = 1usize << k;
        let p = random(n, &mut rng);
        let q = random(n, &mut rng);

        let mut oracle = RandomOracle::<EF>::new(&mut rng);
        let (proof, point, pe, qe) = frac_sum::prove(&p, &q, &mut oracle);

        let (num, den) = sum_of_fractions(&p, &q);
        assert_eq!(proof.num.mul(den), num.mul(proof.den));

        oracle.restart();
        let (vpoint, vpe, vqe) = frac_sum::verify(&proof, &mut oracle).unwrap();
        assert_eq!(point, vpoint);
        assert_eq!((pe, qe), (vpe, vqe));

        assert_eq!(MlPoly(p.clone()).eval(&point), pe);
        assert_eq!(MlPoly(q.clone()).eval(&point), qe);
    }
}

#[test]
fn tampered_root_rejected() {
    let mut rng = rand::rng();
    let n = 1usize << 6;
    let p = random(n, &mut rng);
    let q = random(n, &mut rng);
    let mut oracle = RandomOracle::<EF>::new(&mut rng);
    let (mut proof, _, _, _) = frac_sum::prove(&p, &q, &mut oracle);
    proof.num = proof.num.add(EF::new_one());
    oracle.restart();
    assert!(frac_sum::verify(&proof, &mut oracle).is_none());
}

#[test]
fn frac_sum_tampered_round_rejected() {
    let mut rng = rand::rng();
    let n = 1usize << 6;
    let p = random(n, &mut rng);
    let q = random(n, &mut rng);
    let mut oracle = RandomOracle::<EF>::new(&mut rng);
    let (mut proof, _, _, _) = frac_sum::prove(&p, &q, &mut oracle);
    let old = proof.layers[4].round_polys[2][1];
    proof.layers[4].round_polys[2][1] = old.add(EF::new_one());
    oracle.restart();
    assert!(frac_sum::verify(&proof, &mut oracle).is_none());
}

#[test]
fn frac_sum_of_two_known_fractions() {
    // 1/2 + 1/3 is 5/6.
    let p = vec![EF::from_u64(1), EF::from_u64(1)];
    let q = vec![EF::from_u64(2), EF::from_u64(3)];
    let mut rng = rand::rng();
    let mut oracle = RandomOracle::<EF>::new(&mut rng);
    let (proof, _, _, _) = frac_sum::prove(&p, &q, &mut oracle);
    assert_eq!(proof.num, EF::from_u64(5));
    assert_eq!(proof.den, EF::from_u64(6));
    assert_eq!(proof.size_bytes(), 16 * (2 + 4));
}

fn check_openings(claims: &[OpeningClaim<EF>], a: &[EF], t: &[EF], e: &[EF]) -> bool {
    claims.iter().all(|c| {
        let poly = match c.poly {
            Poly::Query => a,
            Poly::Table => t,
            Poly::Mult => e,
        };
        MlPoly(poly.to_vec()).eval(&c.point) == c.value
    })
}

fn sample(m: usize, n: usize, rng: &mut rand::rngs::ThreadRng) -> (Vec<EF>, Vec<EF>, Vec<EF>) {
    let t = random(n, rng);
    let a: Vec<EF> = (0..m).map(|_| t[rng.random::<u64>() as usize % n]).collect();
    let e = multiplicity_vector(&a, &t);
    (a, t, e)
}

#[test]
fn lookup_round_trip() {
    let mut rng = rand::rng();
    for (mu, nu) in [(0, 0), (4, 2), (8, 4), (10, 6)] {
        let (a, t, e) = sample(1 << mu, 1 << nu, &mut rng);
        let mut oracle = RandomOracle::<EF>::new(&mut rng);
        let proof = prove(&a, &t, &mut oracle);
        oracle.restart();
        let claims = verify(&proof, &mut oracle).expect("valid lookup verifies");
        assert!(check_openings(&claims, &a, &t, &e));
    }
}

#[test]
fn non_member_rejected() {
    let mut rng = rand::rng();
    let (mut a, t, _e) = sample(1 << 8, 1 << 4, &mut rng);
    a[3] = EF::sample(&mut rng);
    let e = multiplicity_vector(&a, &t);
    let mut oracle = RandomOracle::<EF>::new(&mut rng);
    let proof = prove_with_mults(&a, &t, &e, &mut oracle);
    oracle.restart();
    assert!(verify(&proof, &mut oracle).is_none());
}

#[test]
fn wrong_multiplicity_rejected() {
    let mut rng = rand::rng();
    let (a, t, mut e) = sample(1 << 8, 1 << 4, &mut rng);
    e[2] = e[2].add(EF::new_one());
    let mut oracle = RandomOracle::<EF>::new(&mut rng);
    let proof = prove_with_mults(&a, &t, &e, &mut oracle);
    oracle.restart();
    assert!(verify(&proof, &mut oracle).is_none());
}

#[test]
fn openings_via_basefold() {
    let mut rng = rand::rng();
    let (a, t, e) = sample(1 << 10, 1 << 6, &mut rng);
    let mut oracle = RandomOracle::<EF>::new(&mut rng);
    let proof = prove(&a, &t, &mut oracle);
    oracle.restart();
    let claims = verify(&proof, &mut oracle).expect("valid lookup verifies");

    for c in &claims {
        let poly = match c.poly {
            Poly::Query => &a,
            Poly::Table => &t,
            Poly::Mult => &e,
        };
        let (st, commit) =
            Basefold::<Goldilocks, EF>::commit_ext_on_domain(MlPoly(poly.to_vec()), 1, 0);
        let mut po = RandomOracle::<EF>::new(&mut rng);
        let pf = Basefold::<Goldilocks, EF>::prove::<EF>(&st, c.point.clone(), &mut po);
        assert_eq!(pf.claimed_eval(), c.value);
        po.restart();
        assert!(Basefold::<Goldilocks, EF>::verify::<EF>(&commit, c.point.clone(), &pf, &mut po));
    }
}

#[test]
fn multiplicities_count_first_occurrences() {
    let f = |v: u64| EF::from_u64(v);
    let t = [f(5), f(7), f(5), f(9)];
    let a = [f(7), f(5), f(7), f(5), f(7), f(8), f(9), f(5)];
    assert_eq!(multiplicity_vector(&a, &t), [f(3), f(3), f(0), f(1)]);
}

#[test]
fn opening_points_are_those_of_the_claims() {
    let mut rng = rand::rng();
    let (a, t, e) = sample(1 << 5, 1 << 3, &mut rng);
    let mut oracle = RandomOracle::<EF>::new(&mut rng);
    let (proof, zq, zt) = prove_with_opening_points(&a, &t, &e, &mut oracle);
    oracle.restart();
    let (again, point) = prove_with_query_point(&a, &t, &e, &mut oracle);
    assert_eq!(point, zq);
    assert_eq!(again.size_bytes(), proof.size_bytes());
    oracle.restart();
    let claims = verify(&proof, &mut oracle).unwrap();
    assert_eq!(claims[0].point, zq);
    assert_eq!(claims[1].point, zt);
    assert_eq!(claims[2].point, zt);
}

#[test]
fn repeated_table_entries_are_counted_by_place() {
    // Entries 0 and 2 are equal; the queries mean one or the other.
    let f = |v: u64| EF::from_u64(v);
    let t = vec![f(5), f(7), f(5), f(9)];
    let a = vec![f(5), f(5), f(7), f(5)];
    let mut rng = rand::rng();
    for e in [[1, 1, 2, 0], [3, 1, 0, 0], [0, 1, 3, 0]] {
        let e: Vec<EF> = e.iter().map(|&v| f(v)).collect();
        let mut oracle = RandomOracle::<EF>::new(&mut rng);
        let proof = prove_with_mults(&a, &t, &e, &mut oracle);
        oracle.restart();
        let claims = verify(&proof, &mut oracle).expect("every query is counted once");
        assert!(check_openings(&claims, &a, &t, &e));
    }
}

#[test]
fn frac_sum_root_with_a_zero_denominator() {
    // Over 2, 0, 3, 5 only the fraction with the zero keeps its numerator: 7 * 2 * 3 * 5.
    let p: Vec<EF> = [1u64, 7, 4, 9].iter().map(|&v| EF::from_u64(v)).collect();
    let q: Vec<EF> = [2u64, 0, 3, 5].iter().map(|&v| EF::from_u64(v)).collect();
    let mut rng = rand::rng();
    let mut oracle = RandomOracle::<EF>::new(&mut rng);
    let (proof, _, _, _) = frac_sum::prove(&p, &q, &mut oracle);
    assert_eq!(proof.num, EF::from_u64(210));
    assert_eq!(proof.den, EF::new_zero());
    assert_eq!((proof.num, proof.den), sum_of_fractions(&p, &q));
}

#[test]
fn a_failed_pass_stops_the_reading() {
    let mut rng = rand::rng();
    let t = random(4, &mut rng);
    let a: Vec<EF> = (0..8).map(|i| t[i % 4]).collect();
    let mut oracle = RandomOracle::<EF>::new(&mut rng);
    let mut proof = prove(&a, &t, &mut oracle);
    oracle.restart();
    let tape = oracle.next_n_fields(64);
    let position = |oracle: &mut RandomOracle<EF>| {
        let next = oracle.next_field();
        tape.iter().position(|&v| v == next).unwrap()
    };
    // Pass `k` reads `k (k + 3) / 2` challenges.
    oracle.restart();
    assert!(verify(&proof, &mut oracle).is_some());
    assert_eq!(position(&mut oracle), 1 + 9 + 5);

    let num = proof.query.num;
    proof.query.num = num.add(EF::new_one());
    oracle.restart();
    assert!(verify(&proof, &mut oracle).is_none());
    assert!(position(&mut oracle) < 1 + 9);

    proof.query.num = num;
    proof.table.num = proof.table.num.add(EF::new_one());
    oracle.restart();
    assert!(verify(&proof, &mut oracle).is_none());
    let at = position(&mut oracle);
    assert!(1 + 9 <= at && at < 1 + 9 + 5);
}
