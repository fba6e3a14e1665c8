//! The lookup argument: every query `a_i` lies in the table `t`.
//!
//! At a random `x` membership becomes `sum_i 1/(x - a_i) = sum_j e_j/(x - t_j)`.
//! Two fraction sums, one over the queries and one over the table, give root
//! fractions that are compared by cross-multiplication. Each pass also reduces its
//! input to one value, which leaves three opening claims: the queries, the
//! multiplicities and the table.
use vstd::prelude::*;
use vstd::arithmetic::power2::pow2;
use crate::algebra;
use crate::field::Field;
use crate::logup::frac_sum;
use crate::logup::frac_sum::FracSumProof;
use crate::multilinear;
use crate::utils::oracle::RandomOracle;
use crate::utils::poly;

verus! {

/// Which committed polynomial an opening claim refers to.
#[derive(Clone, Copy, Debug, PartialEq, Eq, Structural)]
pub enum Poly {
    /// The query vector.
    Query,
    /// The table.
    Table,
    /// The multiplicity vector.
    Mult,
}

/// A value to be confirmed: `poly(point) == value`.
#[derive(Clone, Debug)]
pub struct OpeningClaim<F: Field> {
    pub poly: Poly,
    pub point: Vec<F>,
    pub value: F,
}

/// The contents of an opening claim.
pub struct ClaimView<F: Field> {
    pub poly: Poly,
    pub point: Seq<F>,
    pub value: F,
}

impl<F: Field> OpeningClaim<F> {
    pub open spec fn contents(self) -> ClaimView<F> {
        ClaimView { poly: self.poly, point: self.point@, value: self.value }
    }
}

/// The contents of a list of claims.
pub open spec fn claim_views<F: Field>(v: Seq<OpeningClaim<F>>) -> Seq<ClaimView<F>> {
    Seq::new(v.len(), |i: int| v[i].contents())
}

/// A lookup proof: the two fraction sums.
pub struct LookupProof<F: Field> {
    pub query: FracSumProof<F>,
    pub table: FracSumProof<F>,
}

impl<F: Field> LookupProof<F> {
    /// Size in bytes of all field elements of the proof.
    pub fn size_bytes(&self) -> (r: usize)
        requires
            (self.query.element_count() + self.table.element_count()) * F::byte_size()
                <= usize::MAX,
        ensures
            r == (self.query.element_count() + self.table.element_count()) * F::byte_size(),
    {
        proof {
            let (a, b, f) = (
                self.query.element_count(),
                self.table.element_count(),
                F::byte_size(),
            );
            assert((a + b) * f == a * f + b * f) by (nonlinear_arith);
            assert(0 <= a * f && 0 <= b * f) by (nonlinear_arith);
        }
        self.query.size_bytes() + self.table.size_bytes()
    }
}

/// `j` is the first place of `v` in the table.
pub open spec fn first_match<F: Field>(t: Seq<F>, v: F, j: int) -> bool {
    &&& 0 <= j < t.len()
    &&& t[j] == v
    &&& forall|l: int| 0 <= l < j ==> #[trigger] t[l] != v
}

/// How many of the first `n` queries are found at table entry `j`.
pub open spec fn hit_count<F: Field>(a: Seq<F>, t: Seq<F>, j: int, n: nat) -> nat
    decreases n,
{
    if n == 0 {
        0
    } else {
        hit_count(a, t, j, (n - 1) as nat) + (if first_match(t, a[n - 1], j) {
            1nat
        } else {
            0nat
        })
    }
}

/// The multiplicity of each table entry among the queries.
pub open spec fn multiplicity<F: Field>(a: Seq<F>, t: Seq<F>) -> Seq<F> {
    Seq::new(t.len(), |j: int| F::embed(hit_count(a, t, j, a.len()) as int))
}

/// How often `j` occurs.
pub open spec fn occurrences(s: Seq<int>, j: int) -> nat
    decreases s.len(),
{
    if s.len() == 0 {
        0
    } else {
        occurrences(s.drop_last(), j) + (if s.last() == j {
            1nat
        } else {
            0nat
        })
    }
}

/// How often each number below `n` occurs.
pub open spec fn tally<F: Field>(idx: Seq<int>, n: nat) -> Seq<F> {
    Seq::new(n, |j: int| F::embed(occurrences(idx, j) as int))
}

/// Query `i` is the table's entry `idx[i]`.
pub open spec fn found_at<F: Field>(a: Seq<F>, t: Seq<F>, idx: Seq<int>) -> bool {
    &&& idx.len() == a.len()
    &&& forall|i: int|
        0 <= i < a.len() ==> 0 <= #[trigger] idx[i] < t.len() && a[i] == t[idx[i]]
}

/// `n` ones.
pub open spec fn ones<F: Field>(n: nat) -> Seq<F> {
    Seq::new(n, |i: int| F::one())
}

/// `x - s_i` for every entry.
pub open spec fn differences<F: Field>(x: F, s: Seq<F>) -> Seq<F> {
    Seq::new(s.len(), |i: int| x - s[i])
}

/// The challenges of the query pass.
pub open spec fn query_tape<F: Field>(tape: Seq<F>, mu: nat) -> Seq<F> {
    tape.subrange(1, 1 + frac_sum::offset(mu) as int)
}

/// The challenges of the table pass.
pub open spec fn table_tape<F: Field>(tape: Seq<F>, mu: nat, nu: nat) -> Seq<F> {
    tape.subrange(
        1 + frac_sum::offset(mu) as int,
        1 + frac_sum::offset(mu) as int + frac_sum::offset(nu),
    )
}

/// Number of challenges of a lookup of `2^mu` queries in `2^nu` entries.
pub open spec fn lookup_draws(mu: nat, nu: nat) -> nat {
    1 + frac_sum::offset(mu) + frac_sum::offset(nu)
}

/// The fraction-sum proof is the honest one for `p / q`.
pub open spec fn honest_pass<F: Field>(
    proof: FracSumProof<F>,
    p: Seq<F>,
    q: Seq<F>,
    k: nat,
    tape: Seq<F>,
) -> bool {
    &&& proof.num == frac_sum::layer_num(p, q, k)[0]
    &&& proof.den == frac_sum::layer_den(q, k)[0]
    &&& proof.contents() == frac_sum::honest_layers(p, q, k, tape)
}

/// The lookup proof is the honest one.
pub open spec fn honest_lookup<F: Field>(
    proof: LookupProof<F>,
    a: Seq<F>,
    t: Seq<F>,
    e: Seq<F>,
    tape: Seq<F>,
) -> bool {
    let mu = poly::exponent(a.len() as int);
    let nu = poly::exponent(t.len() as int);
    &&& honest_pass(
        proof.query,
        ones(a.len()),
        differences(tape[0], a),
        mu,
        query_tape(tape, mu),
    )
    &&& honest_pass(
        proof.table,
        e,
        differences(tape[0], t),
        nu,
        table_tape(tape, mu, nu),
    )
}

/// What verification returns.
pub open spec fn lookup_claims<F: Field>(
    proof: LookupProof<F>,
    tape: Seq<F>,
) -> Option<Seq<ClaimView<F>>> {
    let (mu, nu) = (proof.query.layers@.len(), proof.table.layers@.len());
    match (
        frac_sum::verified(
            proof.query.num,
            proof.query.den,
            proof.query.contents(),
            query_tape(tape, mu),
        ),
        frac_sum::verified(
            proof.table.num,
            proof.table.den,
            proof.table.contents(),
            table_tape(tape, mu, nu),
        ),
    ) {
        (Some((zq, pq, qq)), Some((zt, pt, qt))) => {
            if pq == F::one() && proof.query.num * proof.table.den == proof.table.num
                * proof.query.den {
                Some(
                    seq![
                        ClaimView { poly: Poly::Query, point: zq, value: tape[0] - qq },
                        ClaimView { poly: Poly::Mult, point: zt, value: pt },
                        ClaimView { poly: Poly::Table, point: zt, value: tape[0] - qt },
                    ],
                )
            } else {
                None
            }
        },
        _ => None,
    }
}

/// Number of challenges that verification reads: the first, those of the query pass up
/// to its first failing check, and, if the query pass is accepted, those of the table
/// pass up to its first failing check.
pub open spec fn lookup_read<F: Field>(proof: LookupProof<F>, tape: Seq<F>) -> nat {
    let (mu, nu) = (proof.query.layers@.len(), proof.table.layers@.len());
    let (tq, tt) = (query_tape(tape, mu), table_tape(tape, mu, nu));
    let (query, table) = (proof.query, proof.table);
    let first = 1 + frac_sum::read_count(query.num, query.den, query.contents(), tq);
    if frac_sum::verified(query.num, query.den, query.contents(), tq) is None {
        first
    } else {
        first + frac_sum::read_count(table.num, table.den, table.contents(), tt)
    }
}

/// An accepted proof reads all its challenges, and no proof reads more.
pub proof fn lemma_lookup_read<F: Field>(proof: LookupProof<F>, tape: Seq<F>)
    ensures
        1 <= lookup_read(proof, tape) <= lookup_draws(
            proof.query.layers@.len(),
            proof.table.layers@.len(),
        ),
        lookup_claims(proof, tape) is Some ==> lookup_read(proof, tape) == lookup_draws(
            proof.query.layers@.len(),
            proof.table.layers@.len(),
        ),
        frac_sum::verified(
            proof.query.num,
            proof.query.den,
            proof.query.contents(),
            query_tape(tape, proof.query.layers@.len()),
        ) is Some ==> frac_sum::read_count(
            proof.query.num,
            proof.query.den,
            proof.query.contents(),
            query_tape(tape, proof.query.layers@.len()),
        ) == frac_sum::offset(proof.query.layers@.len()),
{
    let (mu, nu) = (proof.query.layers@.len(), proof.table.layers@.len());
    let (tq, tt) = (query_tape(tape, mu), table_tape(tape, mu, nu));
    let (query, table) = (proof.query, proof.table);
    frac_sum::lemma_read_bound(query.num, query.den, query.contents(), tq, 0);
    frac_sum::lemma_read_bound(table.num, table.den, table.contents(), tt, 0);
    if frac_sum::verified(query.num, query.den, query.contents(), tq) is Some {
        frac_sum::lemma_read_all(query.num, query.den, query.contents(), tq, 0);
    }
    if frac_sum::verified(table.num, table.den, table.contents(), tt) is Some {
        frac_sum::lemma_read_all(table.num, table.den, table.contents(), tt, 0);
    }
}

/// The place of `v` in the table.
fn position<F: Field>(t: &[F], v: F) -> (r: Option<usize>)
    ensures
        match r {
            Some(j) => first_match(t@, v, j as int),
            None => forall|j: int| 0 <= j < t@.len() ==> #[trigger] t@[j] != v,
        },
{
    let mut j: usize = 0;
    while j < t.len()
        invariant
            j <= t.len(),
            forall|l: int| 0 <= l < j ==> #[trigger] t@[l] != v,
        decreases t.len() - j,
    {
        if t[j].equals(v) {
            return Some(j);
        }
        j += 1;
    }
    None
}

/// The multiplicity of each table entry among the queries, by value. A query that
/// is not in the table counts nowhere.
fn multiplicities<F: Field>(a: &[F], t: &[F]) -> (r: Vec<F>)
    ensures
        r@ == multiplicity(a@, t@),
{
    let mut e: Vec<u64> = Vec::new();
    let mut j: usize = 0;
    while j < t.len()
        invariant
            j <= t.len(),
            e@.len() == j,
            forall|l: int| 0 <= l < j ==> #[trigger] e@[l] == 0,
        decreases t.len() - j,
    {
        e.push(0);
        j += 1;
    }
    let mut i: usize = 0;
    while i < a.len()
        invariant
            i <= a.len(),
            e@.len() == t@.len(),
            forall|l: int|
                0 <= l < t@.len() ==> #[trigger] e@[l] == hit_count(a@, t@, l, i as nat),
            forall|l: int| 0 <= l < t@.len() ==> #[trigger] e@[l] <= i,
        decreases a.len() - i,
    {
        let ghost before = e@;
        match position(t, a[i]) {
            Some(m) => {
                let c: u64 = e[m];
                e.set(m, c + 1);
                proof {
                    assert forall|l: int| 0 <= l < t@.len() implies #[trigger] e@[l] == hit_count(
                        a@,
                        t@,
                        l,
                        (i + 1) as nat,
                    ) by {
                        assert(before[l] == hit_count(a@, t@, l, i as nat));
                        if l < m {
                            assert(t@[l] != a@[i as int]);
                        }
                        if l > m {
                            assert(t@[m as int] == a@[i as int]);
                        }
                    }
                }
            },
            None => {
                proof {
                    assert forall|l: int| 0 <= l < t@.len() implies #[trigger] e@[l] == hit_count(
                        a@,
                        t@,
                        l,
                        (i + 1) as nat,
                    ) by {
                        assert(before[l] == hit_count(a@, t@, l, i as nat));
                        assert(t@[l] != a@[i as int]);
                    }
                }
            },
        }
        i += 1;
    }
    let mut r: Vec<F> = Vec::new();
    let mut k: usize = 0;
    while k < e.len()
        invariant
            k <= e.len(),
            e@.len() == t@.len(),
            forall|l: int|
                0 <= l < t@.len() ==> #[trigger] e@[l] == hit_count(a@, t@, l, a@.len()),
            r@.len() == k,
            forall|l: int| 0 <= l < k ==> #[trigger] r@[l] == F::embed(e@[l] as int),
        decreases e.len() - k,
    {
        r.push(F::from_u64(e[k]));
        k += 1;
    }
    assert(r@ =~= multiplicity(a@, t@));
    r
}

/// The multiplicity vector, for committing to it.
pub fn multiplicity_vector<F: Field>(a: &[F], t: &[F]) -> (r: Vec<F>)
    ensures
        r@ == multiplicity(a@, t@),
{
    multiplicities(a, t)
}

/// Lengths are powers of two and enough challenges are left.
pub open spec fn lookup_ready<F: Field>(
    a: Seq<F>,
    t: Seq<F>,
    oracle: RandomOracle<F>,
) -> bool {
    &&& poly::is_power_of_two(a.len() as int)
    &&& poly::is_power_of_two(t.len() as int)
    &&& oracle.has_fields(
        lookup_draws(
            poly::exponent(a.len() as int),
            poly::exponent(t.len() as int),
        ) as int,
    )
}

/// The challenges that a lookup reads.
pub open spec fn lookup_tape<F: Field>(
    a: Seq<F>,
    t: Seq<F>,
    oracle: RandomOracle<F>,
) -> Seq<F> {
    oracle.upcoming(
        lookup_draws(poly::exponent(a.len() as int), poly::exponent(t.len() as int)),
    )
}

/// Proves that every `a_i` lies in `t`. Both lengths must be powers of two.
pub fn prove<F: Field>(a: &[F], t: &[F], oracle: &mut RandomOracle<F>) -> (r: LookupProof<F>)
    requires
        lookup_ready(a@, t@, *old(oracle)),
    ensures
        honest_lookup(r, a@, t@, multiplicity(a@, t@), lookup_tape(a@, t@, *old(oracle))),
        final(oracle).wf(),
        old(oracle).advanced(*final(oracle), lookup_tape(a@, t@, *old(oracle)).len() as int, 0),
{
    let e = multiplicities(a, t);
    prove_with_mults(a, t, e.as_slice(), oracle)
}

/// As `prove`, with the multiplicities supplied.
pub fn prove_with_mults<F: Field>(
    a: &[F],
    t: &[F],
    e: &[F],
    oracle: &mut RandomOracle<F>,
) -> (r: LookupProof<F>)
    requires
        lookup_ready(a@, t@, *old(oracle)),
        e@.len() == t@.len(),
    ensures
        honest_lookup(r, a@, t@, e@, lookup_tape(a@, t@, *old(oracle))),
        final(oracle).wf(),
        old(oracle).advanced(*final(oracle), lookup_tape(a@, t@, *old(oracle)).len() as int, 0),
{
    prove_with_query_point(a, t, e, oracle).0
}

/// As `prove_with_mults`, also returning the point at which the queries are opened.
pub fn prove_with_query_point<F: Field>(
    a: &[F],
    t: &[F],
    e: &[F],
    oracle: &mut RandomOracle<F>,
) -> (r: (LookupProof<F>, Vec<F>))
    requires
        lookup_ready(a@, t@, *old(oracle)),
        e@.len() == t@.len(),
    ensures
        honest_lookup(r.0, a@, t@, e@, lookup_tape(a@, t@, *old(oracle))),
        r.1@ == frac_sum::point_at(
            query_tape(
                lookup_tape(a@, t@, *old(oracle)),
                poly::exponent(a@.len() as int),
            ),
            poly::exponent(a@.len() as int),
        ),
        final(oracle).wf(),
        old(oracle).advanced(*final(oracle), lookup_tape(a@, t@, *old(oracle)).len() as int, 0),
{
    let (proof, query_point, _table_point) = prove_with_opening_points(a, t, e, oracle);
    (proof, query_point)
}

/// The differences of a challenge and every entry.
fn subtract_all<F: Field>(x: F, s: &[F]) -> (r: Vec<F>)
    ensures
        r@ == differences(x, s@),
{
    let mut r: Vec<F> = Vec::new();
    let mut i: usize = 0;
    while i < s.len()
        invariant
            i <= s.len(),
            r@ == Seq::new(i as nat, |k: int| x - s@[k]),
        decreases s.len() - i,
    {
        r.push(x.sub(s[i]));
        assert(r@ =~= Seq::new((i + 1) as nat, |k: int| x - s@[k]));
        i += 1;
    }
    r
}

/// A vector of ones.
fn all_ones<F: Field>(n: usize) -> (r: Vec<F>)
    ensures
        r@ == ones::<F>(n as nat),
{
    let mut r: Vec<F> = Vec::new();
    let mut i: usize = 0;
    while i < n
        invariant
            i <= n,
            r@ == ones::<F>(i as nat),
        decreases n - i,
    {
        r.push(F::new_one());
        assert(r@ =~= ones::<F>((i + 1) as nat));
        i += 1;
    }
    r
}

/// As `prove_with_query_point`, also returning the point at which the table and the
/// multiplicities are opened.
pub fn prove_with_opening_points<F: Field>(
    a: &[F],
    t: &[F],
    e: &[F],
    oracle: &mut RandomOracle<F>,
) -> (r: (LookupProof<F>, Vec<F>, Vec<F>))
    requires
        lookup_ready(a@, t@, *old(oracle)),
        e@.len() == t@.len(),
    ensures
        honest_lookup(r.0, a@, t@, e@, lookup_tape(a@, t@, *old(oracle))),
        r.1@ == frac_sum::point_at(
            query_tape(
                lookup_tape(a@, t@, *old(oracle)),
                poly::exponent(a@.len() as int),
            ),
            poly::exponent(a@.len() as int),
        ),
        r.2@ == frac_sum::point_at(
            table_tape(
                lookup_tape(a@, t@, *old(oracle)),
                poly::exponent(a@.len() as int),
                poly::exponent(t@.len() as int),
            ),
            poly::exponent(t@.len() as int),
        ),
        final(oracle).wf(),
        old(oracle).advanced(*final(oracle), lookup_tape(a@, t@, *old(oracle)).len() as int, 0),
{
    let ghost mu = poly::exponent(a@.len() as int);
    let ghost nu = poly::exponent(t@.len() as int);
    let ghost start = *oracle;
    let ghost tape = lookup_tape(a@, t@, start);
    assert(a@.len() == pow2(mu) && t@.len() == pow2(nu));
    let alpha = oracle.next_field();
    assert(alpha == tape[0]);
    let pq = all_ones::<F>(a.len());
    let qq = subtract_all(alpha, a);
    let ghost mid = *oracle;
    let (query, zq, _pq_in, _qq_in) = frac_sum::prove(pq.as_slice(), qq.as_slice(), oracle);
    proof {
        poly::lemma_exponent(zq@.len());
        assert(mid.upcoming(frac_sum::offset(mu)) =~= query_tape(tape, mu));
    }
    let qt = subtract_all(alpha, t);
    let ghost mid2 = *oracle;
    let (table, zt, _pt_in, _qt_in) = frac_sum::prove(e, qt.as_slice(), oracle);
    proof {
        poly::lemma_exponent(zt@.len());
        assert(mid2.upcoming(frac_sum::offset(nu)) =~= table_tape(tape, mu, nu));
    }
    (LookupProof { query, table }, zq, zt)
}

/// Verifies a lookup proof. Returns the opening claims, or `None` if a fraction sum
/// fails, the query numerator is not the constant one, or the root fractions
/// differ.
pub fn verify<F: Field>(
    proof: &LookupProof<F>,
    oracle: &mut RandomOracle<F>,
) -> (r: Option<Vec<OpeningClaim<F>>>)
    requires
        old(oracle).has_fields(
            lookup_read(
                *proof,
                old(oracle).upcoming(
                    lookup_draws(proof.query.layers@.len(), proof.table.layers@.len()),
                ),
            ) as int,
        ),
    ensures
        lookup_claims(
            *proof,
            old(oracle).upcoming(
                lookup_draws(proof.query.layers@.len(), proof.table.layers@.len()),
            ),
        ) == (match r {
            Some(v) => Some(claim_views(v@)),
            None => None,
        }),
        final(oracle).wf(),
        old(oracle).advanced(
            *final(oracle),
            lookup_read(
                *proof,
                old(oracle).upcoming(
                    lookup_draws(proof.query.layers@.len(), proof.table.layers@.len()),
                ),
            ) as int,
            0,
        ),
        r is Some ==> old(oracle).advanced(
            *final(oracle),
            lookup_draws(proof.query.layers@.len(), proof.table.layers@.len()) as int,
            0,
        ),
{
    let ghost mu = proof.query.layers@.len();
    let ghost nu = proof.table.layers@.len();
    let ghost start = *oracle;
    let ghost tape = start.upcoming(lookup_draws(mu, nu));
    proof {
        lemma_lookup_read(*proof, tape);
    }
    let alpha = oracle.next_field();
    assert(alpha == tape[0]);
    let ghost mid = *oracle;
    assert(mid.upcoming(frac_sum::offset(mu)) =~= query_tape(tape, mu));
    let (zq, pq_in, qq_in) = match frac_sum::verify(&proof.query, oracle) {
        Some(c) => c,
        None => {
            return None;
        },
    };
    let ghost mid2 = *oracle;
    assert(mid2.upcoming(frac_sum::offset(nu)) =~= table_tape(tape, mu, nu));
    let (zt, pt_in, qt_in) = match frac_sum::verify(&proof.table, oracle) {
        Some(c) => c,
        None => {
            return None;
        },
    };
    if !pq_in.equals(F::new_one()) {
        return None;
    }
    if !proof.query.num.mul(proof.table.den).equals(proof.table.num.mul(proof.query.den)) {
        return None;
    }
    let zt2 = poly::copy_slice(zt.as_slice());
    let claims = vec![
        OpeningClaim { poly: Poly::Query, point: zq, value: alpha.sub(qq_in) },
        OpeningClaim { poly: Poly::Mult, point: zt2, value: pt_in },
        OpeningClaim { poly: Poly::Table, point: zt, value: alpha.sub(qt_in) },
    ];
    proof {
        let want = lookup_claims(*proof, tape)->0;
        assert(claim_views(claims@) =~= want);
    }
    Some(claims)
}

/// The polynomial of `x - s_i` is `x` minus the polynomial of `s_i`.
pub proof fn lemma_mle_differences<F: Field>(x: F, s: Seq<F>, z: Seq<F>)
    requires
        s.len() == pow2(z.len()),
    ensures
        multilinear::mle(differences(x, s), z) == x - multilinear::mle(s, z),
    decreases z.len(),
{
    multilinear::lemma_pow2_zero();
    if z.len() > 0 {
        multilinear::lemma_pow2_step(z.len());
        let r = z[0];
        let half = multilinear::fold_low(s, r);
        lemma_mle_differences(x, half, z.drop_first());
        let d = differences(x, s);
        let want = differences(x, half);
        assert forall|i: int| 0 <= i < half.len() implies #[trigger] multilinear::fold_low(d, r)[i]
            == want[i] by {
            let (a, b) = (s[2 * i], s[2 * i + 1]);
            // (x - b) - (x - a) == -(b - a)
            F::law_sub(x, a);
            F::law_sub(x, b);
            algebra::sub_four(x, b.spec_neg(), x, a.spec_neg());
            algebra::sub_self(x);
            F::law_valid(b.spec_neg(), a.spec_neg());
            algebra::zero_add(b.spec_neg() - a.spec_neg());
            F::law_sub(b.spec_neg(), a.spec_neg());
            F::law_sub(b, a);
            algebra::neg_add(b, a.spec_neg());
            algebra::neg_mul(r, b - a);
            // (x - a) + -(r (b - a)) == x - (a + r (b - a))
            let w = r * (b - a);
            algebra::neg_add(a, w);
            F::law_sub(x, a + w);
            F::law_add_assoc(x, a.spec_neg(), w.spec_neg());
        }
        assert(multilinear::fold_low(d, r) =~= want);
    }
}

pub proof fn lemma_mle_ones<F: Field>(z: Seq<F>)
    ensures
        multilinear::mle(ones::<F>(pow2(z.len())), z) == F::one(),
    decreases z.len(),
{
    multilinear::lemma_pow2_zero();
    if z.len() > 0 {
        multilinear::lemma_pow2_step(z.len());
        let s = ones::<F>(pow2(z.len()));
        let half = ones::<F>(pow2((z.len() - 1) as nat));
        lemma_mle_ones::<F>(z.drop_first());
        assert forall|i: int| 0 <= i < half.len() implies #[trigger] multilinear::fold_low(
            s,
            z[0],
        )[i] == half[i] by {
            algebra::sub_self(F::one());
            algebra::mul_zero(z[0]);
            F::law_valid(F::zero(), F::zero());
            F::law_add_zero(F::one());
        }
        assert(multilinear::fold_low(s, z[0]) =~= half);
    }
}

/// `x - (x - m) == m`.
proof fn lemma_double_difference<F: Field>(x: F, m: F)
    requires
        m.valid(),
    ensures
        x - (x - m) == m,
{
    F::law_valid(x, m);
    F::law_valid(x, x - m);
    // (x - (x - m)) + (x - m) == x + (m - m) == m + (x - m)
    F::law_sub(x, x - m);
    F::law_sub(x, m);
    algebra::neg_add(x, m.spec_neg());
    F::law_sub(m, m);
    F::law_add_assoc(x, x.spec_neg(), m.spec_neg().spec_neg());
    F::law_sub(x, x);
    let n = m.spec_neg();
    F::law_valid(n, n);
    F::law_sub(n, n);
    // -(-m) == m
    F::law_add_comm(n, m);
    F::law_add_comm(n, n.spec_neg());
    algebra::add_cancel(n.spec_neg(), m, n);
    algebra::zero_add(m);
}

/// The query side and the table side of the logarithmic derivative agree.
proof fn lemma_sides_equal<F: Field>(idx: Seq<int>, t: Seq<F>, f: spec_fn(F) -> F)
    requires
        forall|v: F| (#[trigger] f(v)).valid(),
        forall|i: int| 0 <= i < idx.len() ==> 0 <= #[trigger] idx[i] < t.len(),
    ensures
        algebra::sum(idx.len(), |i: int| f(t[idx[i]])) == algebra::sum(
            t.len(),
            |j: int| F::embed(occurrences(idx, j) as int) * f(t[j]),
        ),
    decreases idx.len(),
{
    let lhs = |i: int| f(t[idx[i]]);
    let rhs = |j: int| F::embed(occurrences(idx, j) as int) * f(t[j]);
    if idx.len() == 0 {
        assert forall|j: int| 0 <= j < t.len() implies #[trigger] rhs(j) == F::zero() by {
            F::law_embed(0, 0);
            algebra::mul_zero(f(t[j]));
        }
        algebra::sum_zero(t.len(), rhs);
    } else {
        let rest = idx.drop_last();
        let m = rest.len();
        lemma_sides_equal(rest, t, f);
        algebra::sum_ext(m, lhs, |i: int| f(t[rest[i]]));
        let j0 = idx.last();
        assert(idx[m as int] == j0);
        let old_rhs = |j: int| F::embed(occurrences(rest, j) as int) * f(t[j]);
        let hit = |j: int| if j == j0 { f(t[j]) } else { F::zero() };
        algebra::sum_single(t.len(), j0, hit);
        algebra::sum_add(t.len(), old_rhs, hit);
        let both = |j: int| old_rhs(j) + hit(j);
        assert forall|j: int| 0 <= j < t.len() implies #[trigger] rhs(j) == both(j) by {
            let c = occurrences(rest, j) as int;
            let x = f(t[j]);
            F::law_embed(c, 1);
            F::law_embed(1, 0);
            algebra::distrib_right(F::embed(c), F::embed(1), x);
            algebra::one_mul(x);
            F::law_valid(F::embed(c), x);
            F::law_add_zero(F::embed(c) * x);
        }
        algebra::sum_ext(t.len(), rhs, both);
    }
}

proof fn lemma_first_exists<F: Field>(t: Seq<F>, v: F, w: int) -> (j: int)
    requires
        0 <= w < t.len(),
        t[w] == v,
    ensures
        first_match(t, v, j),
    decreases w,
{
    if exists|l: int| 0 <= l < w && #[trigger] t[l] == v {
        let l = choose|l: int| 0 <= l < w && #[trigger] t[l] == v;
        lemma_first_exists(t, v, l)
    } else {
        w
    }
}

/// The first place of every query in the table.
spec fn places<F: Field>(a: Seq<F>, t: Seq<F>) -> Seq<int> {
    Seq::new(a.len(), |i: int| choose|j: int| first_match(t, a[i], j))
}

/// The multiplicities are how often each place occurs.
proof fn lemma_places<F: Field>(a: Seq<F>, t: Seq<F>)
    requires
        forall|i: int| 0 <= i < a.len() ==> t.contains(#[trigger] a[i]),
    ensures
        places(a, t).len() == a.len(),
        forall|i: int|
            0 <= i < a.len() ==> 0 <= #[trigger] places(a, t)[i] < t.len() && a[i] == t[places(
                a,
                t,
            )[i]],
        multiplicity(a, t) == tally::<F>(places(a, t), t.len()),
{
    let idx = places(a, t);
    assert forall|i: int| 0 <= i < a.len() implies first_match(t, a[i], #[trigger] idx[i]) by {
        assert(t.contains(a[i]));
        let w = choose|w: int| 0 <= w < t.len() && t[w] == a[i];
        let j = lemma_first_exists(t, a[i], w);
    }
    assert forall|j: int| 0 <= j < t.len() implies #[trigger] multiplicity(a, t)[j] == tally::<F>(
        idx,
        t.len(),
    )[j] by {
        lemma_hits(a, t, idx, j, a.len());
        assert(idx.take(a.len() as int) =~= idx);
    }
    assert(multiplicity(a, t) =~= tally::<F>(idx, t.len()));
}

proof fn lemma_hits<F: Field>(a: Seq<F>, t: Seq<F>, idx: Seq<int>, j: int, n: nat)
    requires
        n <= a.len(),
        idx.len() == a.len(),
        forall|i: int| 0 <= i < a.len() ==> first_match(t, a[i], #[trigger] idx[i]),
    ensures
        hit_count(a, t, j, n) == occurrences(idx.take(n as int), j),
    decreases n,
{
    if n > 0 {
        lemma_hits(a, t, idx, j, (n - 1) as nat);
        let s = idx.take(n as int);
        assert(s.drop_last() =~= idx.take(n - 1));
        let j0 = idx[n - 1];
        assert(s.last() == j0);
        assert(first_match(t, a[n - 1], j0));
        if first_match(t, a[n - 1], j) && j < j0 {
            assert(t[j] != a[n - 1]);
        }
        if first_match(t, a[n - 1], j) && j0 < j {
            assert(t[j0] != a[n - 1]);
        }
    }
}

/// Nothing occurs that was not listed.
proof fn lemma_not_listed(idx: Seq<int>, j: int)
    requires
        forall|i: int| 0 <= i < idx.len() ==> #[trigger] idx[i] != j,
    ensures
        occurrences(idx, j) == 0,
    decreases idx.len(),
{
    if idx.len() > 0 {
        lemma_not_listed(idx.drop_last(), j);
        assert(idx[idx.len() - 1] != j);
    }
}

/// Equal fractions cross-multiply to equal products.
proof fn lemma_cross<F: Field>(n1: F, d1: F, n2: F, d2: F)
    requires
        n1.valid(),
        n2.valid(),
        d1.valid(),
        d2.valid(),
        d1 != F::zero(),
        d2 != F::zero(),
        n1 * d1.inv() == n2 * d2.inv(),
    ensures
        n1 * d2 == n2 * d1,
{
    F::law_inv(d1);
    F::law_inv(d2);
    let (i1, i2) = (d1.inv(), d2.inv());
    // n1 d2 == (n1 i1) (d1 d2) == (n2 i2) (d2 d1) == n2 d1
    algebra::mul_four(n1, i1, d1, d2);
    F::law_mul_comm(i1, d1);
    F::law_mul_comm(d1, d2);
    algebra::mul_four(n2, i2, d2, d1);
    F::law_mul_comm(i2, d2);
    F::law_mul_comm(i1, d2);
    // (n1 i1)(d1 d2) = (n1 d1)(i1 d2); use the other pairing
    algebra::mul_four(n1, i1, d2, d1);
    F::law_valid(n1, d2);
    F::law_valid(n2, d1);
    F::law_mul_one(n1 * d2);
    F::law_mul_one(n2 * d1);
    algebra::mul_four(n2, i2, d1, d2);
}

/// The root fractions of both sides agree, for every challenge.
proof fn lemma_roots_agree<F: Field>(
    x: F,
    a: Seq<F>,
    t: Seq<F>,
    idx: Seq<int>,
    mu: nat,
    nu: nat,
)
    requires
        a.len() == pow2(mu),
        t.len() == pow2(nu),
        x.valid(),
        algebra::all_valid(a),
        algebra::all_valid(t),
        found_at(a, t, idx),
    ensures
        ({
            let e = tally::<F>(idx, t.len());
            let (p, q) = (ones::<F>(a.len()), differences(x, a));
            let d = differences(x, t);
            frac_sum::layer_num(p, q, mu)[0] * frac_sum::layer_den(d, nu)[0]
                == frac_sum::layer_num(e, d, nu)[0] * frac_sum::layer_den(q, mu)[0]
        }),
{
    let e = tally::<F>(idx, t.len());
    let (p, q) = (ones::<F>(a.len()), differences(x, a));
    let d = differences(x, t);
    let (nq, dq) = (frac_sum::layer_num(p, q, mu)[0], frac_sum::layer_den(q, mu)[0]);
    let (nt, dt) = (frac_sum::layer_num(e, d, nu)[0], frac_sum::layer_den(d, nu)[0]);
    assert forall|i: int| 0 <= i < q.len() implies (#[trigger] q[i]).valid() by {
        F::law_valid(x, a[i]);
    }
    assert forall|i: int| 0 <= i < d.len() implies (#[trigger] d[i]).valid() by {
        F::law_valid(x, t[i]);
    }
    algebra::sub_self(x);
    if t.contains(x) {
        let j = choose|j: int| 0 <= j < t.len() && t[j] == x;
        assert(d[j] == F::zero());
        frac_sum::law_root_absorbs(e, d, nu, j);
        algebra::mul_zero(nq);
        if a.contains(x) {
            let i = choose|i: int| 0 <= i < a.len() && a[i] == x;
            assert(q[i] == F::zero());
            frac_sum::law_root_absorbs(p, q, mu, i);
            algebra::mul_zero(nt);
        } else {
            assert forall|i: int| 0 <= i < idx.len() implies #[trigger] idx[i] != j by {
                assert(a.contains(a[i]));
            }
            lemma_not_listed(idx, j);
            F::law_embed(0, 0);
            algebra::mul_zero(dq);
        }
    } else {
        assert forall|i: int| 0 <= i < q.len() implies #[trigger] q[i] != F::zero() by {
            assert(t[idx[i]] == a[i]);
            assert(t.contains(t[idx[i]]));
            if x - a[i] == F::zero() {
                assert(a[i].valid());
                algebra::sub_zero(x, a[i]);
            }
        }
        assert forall|i: int| 0 <= i < d.len() implies #[trigger] d[i] != F::zero() by {
            if x - t[i] == F::zero() {
                assert(t[i].valid());
                algebra::sub_zero(x, t[i]);
                assert(t.contains(t[i]));
            }
        }
        frac_sum::law_root_is_sum(p, q, mu);
        frac_sum::law_root_is_sum(e, d, nu);
        let f = |v: F| F::one() * (x - v).inv();
        assert forall|v: F| (#[trigger] f(v)).valid() by {
            F::law_valid(F::one(), (x - v).inv());
        }
        lemma_sides_equal(idx, t, f);
        let u = |i: int| p[i] * q[i].inv();
        let v = |i: int| f(t[idx[i]]);
        assert forall|i: int| 0 <= i < a.len() implies #[trigger] u(i) == v(i) by {
            assert(t[idx[i]] == a[i]);
        }
        algebra::sum_ext(a.len(), u, v);
        let g = |j: int| F::embed(occurrences(idx, j) as int) * f(t[j]);
        let h = |j: int| e[j] * d[j].inv();
        assert forall|j: int| 0 <= j < t.len() implies #[trigger] g(j) == h(j) by {
            assert(d[j].valid() && d[j] != F::zero());
            F::law_inv(d[j]);
            algebra::one_mul(d[j].inv());
        }
        algebra::sum_ext(t.len(), g, h);
        assert forall|i: int| 0 <= i < p.len() implies (#[trigger] p[i]).valid() by {
            F::law_valid(x, x);
        }
        assert forall|i: int| 0 <= i < e.len() implies (#[trigger] e[i]).valid() by {
            F::law_embed(occurrences(idx, i) as int, 0);
        }
        lemma_root_valid(p, q, mu);
        lemma_root_valid(e, d, nu);
        lemma_cross(nq, dq, nt, dt);
    }
}

proof fn lemma_root_valid<F: Field>(p: Seq<F>, q: Seq<F>, k: nat)
    requires
        p.len() == pow2(k),
        q.len() == pow2(k),
        algebra::all_valid(p),
    ensures
        frac_sum::layer_num(p, q, k)[0].valid(),
{
    multilinear::lemma_pow2_zero();
    if k > 0 {
        let (p1, q1) = (
            frac_sum::layer_num(p, q, (k - 1) as nat),
            frac_sum::layer_den(q, (k - 1) as nat),
        );
        frac_sum::lemma_layer_len(p, q, k, (k - 1) as nat);
        multilinear::lemma_pow2_step(1);
        F::law_valid(p1[0] * q1[1], p1[1] * q1[0]);
    } else {
        assert(p[0].valid());
    }
}

/// Completeness: if query `i` is the table's entry `idx[i]`, and the multiplicities
/// count how often each entry is meant, the honest proof is accepted, whatever the
/// challenges, and the opening claims are the true values of the queries, the
/// multiplicities and the table.
pub proof fn law_listed_complete<F: Field>(
    proof: LookupProof<F>,
    a: Seq<F>,
    t: Seq<F>,
    idx: Seq<int>,
    mu: nat,
    nu: nat,
    tape: Seq<F>,
)
    requires
        a.len() == pow2(mu),
        t.len() == pow2(nu),
        algebra::all_valid(a),
        algebra::all_valid(t),
        found_at(a, t, idx),
        tape.len() == lookup_draws(mu, nu),
        algebra::all_valid(tape),
        honest_lookup(proof, a, t, tally::<F>(idx, t.len()), tape),
    ensures
        ({
            let zq = frac_sum::point_at(query_tape(tape, mu), mu);
            let zt = frac_sum::point_at(table_tape(tape, mu, nu), nu);
            lookup_claims(proof, tape) == Some(
                seq![
                    ClaimView { poly: Poly::Query, point: zq, value: multilinear::mle(a, zq) },
                    ClaimView {
                        poly: Poly::Mult,
                        point: zt,
                        value: multilinear::mle(tally::<F>(idx, t.len()), zt),
                    },
                    ClaimView { poly: Poly::Table, point: zt, value: multilinear::mle(t, zt) },
                ],
            )
        }),
{
    poly::lemma_exponent(mu);
    poly::lemma_exponent(nu);
    let e = tally::<F>(idx, t.len());
    let x = tape[0];
    assert(x.valid());
    let (p, q) = (ones::<F>(a.len()), differences(x, a));
    let d = differences(x, t);
    let (tq, tt) = (query_tape(tape, mu), table_tape(tape, mu, nu));
    assert forall|i: int| 0 <= i < p.len() implies (#[trigger] p[i]).valid() by {
        F::law_valid(x, x);
    }
    assert forall|i: int| 0 <= i < q.len() implies (#[trigger] q[i]).valid() by {
        F::law_valid(x, a[i]);
    }
    assert forall|i: int| 0 <= i < d.len() implies (#[trigger] d[i]).valid() by {
        F::law_valid(x, t[i]);
    }
    assert forall|i: int| 0 <= i < e.len() implies (#[trigger] e[i]).valid() by {
        F::law_embed(occurrences(idx, i) as int, 0);
    }
    assert forall|i: int| 0 <= i < tq.len() implies (#[trigger] tq[i]).valid() by {
        assert(tape[1 + i].valid());
    }
    assert forall|i: int| 0 <= i < tt.len() implies (#[trigger] tt[i]).valid() by {
        assert(tape[1 + frac_sum::offset(mu) + i].valid());
    }
    frac_sum::law_complete(p, q, mu, tq);
    frac_sum::law_complete(e, d, nu, tt);
    let zq = frac_sum::point_at(tq, mu);
    let zt = frac_sum::point_at(tt, nu);
    frac_sum::lemma_point_len(tq, mu);
    frac_sum::lemma_point_len(tt, nu);
    lemma_mle_ones::<F>(zq);
    lemma_mle_differences(x, a, zq);
    lemma_mle_differences(x, t, zt);
    multilinear::lemma_fold_all_valid(a, zq);
    multilinear::lemma_fold_all_len(a, zq, mu);
    multilinear::lemma_fold_all_valid(t, zt);
    multilinear::lemma_fold_all_len(t, zt, nu);
    multilinear::lemma_pow2_zero();
    lemma_double_difference(x, multilinear::mle(a, zq));
    lemma_double_difference(x, multilinear::mle(t, zt));
    lemma_roots_agree(x, a, t, idx, mu, nu);
    assert(proof.query.contents().len() == proof.query.layers@.len());
    assert(proof.table.contents().len() == proof.table.layers@.len());
}

/// Which honest proofs are accepted, for any queries, table and multiplicities: those
/// whose first draw makes both sides of the logarithmic derivative agree over the
/// common denominator. A query outside the table, or a wrong multiplicity, is accepted
/// only for such draws.
pub proof fn law_accepts_iff<F: Field>(
    proof: LookupProof<F>,
    a: Seq<F>,
    t: Seq<F>,
    e: Seq<F>,
    mu: nat,
    nu: nat,
    tape: Seq<F>,
)
    requires
        a.len() == pow2(mu),
        t.len() == pow2(nu),
        e.len() == t.len(),
        algebra::all_valid(a),
        algebra::all_valid(t),
        algebra::all_valid(e),
        tape.len() == lookup_draws(mu, nu),
        algebra::all_valid(tape),
        honest_lookup(proof, a, t, e, tape),
    ensures
        lookup_claims(proof, tape) is Some <==> {
            let (q, d) = (differences(tape[0], a), differences(tape[0], t));
            frac_sum::cross_sum(ones::<F>(a.len()), q) * frac_sum::denominator_product(d)
                == frac_sum::cross_sum(e, d) * frac_sum::denominator_product(q)
        },
{
    poly::lemma_exponent(mu);
    poly::lemma_exponent(nu);
    let x = tape[0];
    assert(x.valid());
    let (p, q) = (ones::<F>(a.len()), differences(x, a));
    let d = differences(x, t);
    let (tq, tt) = (query_tape(tape, mu), table_tape(tape, mu, nu));
    assert forall|i: int| 0 <= i < p.len() implies (#[trigger] p[i]).valid() by {
        F::law_valid(x, x);
    }
    assert forall|i: int| 0 <= i < q.len() implies (#[trigger] q[i]).valid() by {
        F::law_valid(x, a[i]);
    }
    assert forall|i: int| 0 <= i < d.len() implies (#[trigger] d[i]).valid() by {
        F::law_valid(x, t[i]);
    }
    assert forall|i: int| 0 <= i < tq.len() implies (#[trigger] tq[i]).valid() by {
        assert(tape[1 + i].valid());
    }
    assert forall|i: int| 0 <= i < tt.len() implies (#[trigger] tt[i]).valid() by {
        assert(tape[1 + frac_sum::offset(mu) + i].valid());
    }
    frac_sum::law_complete(p, q, mu, tq);
    frac_sum::law_complete(e, d, nu, tt);
    frac_sum::law_root_cross(p, q, mu);
    frac_sum::law_root_cross(e, d, nu);
    frac_sum::lemma_point_len(tq, mu);
    lemma_mle_ones::<F>(frac_sum::point_at(tq, mu));
    assert(proof.query.contents().len() == proof.query.layers@.len());
    assert(proof.table.contents().len() == proof.table.layers@.len());
}

/// That condition on the draw is no empty one: if one query alone has a value outside
/// the table, the draw of that value rejects the proof, whatever the multiplicities.
pub proof fn law_foreign_query<F: Field>(
    proof: LookupProof<F>,
    a: Seq<F>,
    t: Seq<F>,
    e: Seq<F>,
    mu: nat,
    nu: nat,
    tape: Seq<F>,
    i: int,
)
    requires
        a.len() == pow2(mu),
        t.len() == pow2(nu),
        e.len() == t.len(),
        algebra::all_valid(a),
        algebra::all_valid(t),
        algebra::all_valid(e),
        tape.len() == lookup_draws(mu, nu),
        algebra::all_valid(tape),
        honest_lookup(proof, a, t, e, tape),
        0 <= i < a.len(),
        tape[0] == a[i],
        !t.contains(a[i]),
        forall|j: int| 0 <= j < a.len() && j != i ==> #[trigger] a[j] != a[i],
    ensures
        lookup_claims(proof, tape) is None,
{
    law_accepts_iff(proof, a, t, e, mu, nu, tape);
    let x = tape[0];
    let (p, q) = (ones::<F>(a.len()), differences(x, a));
    let d = differences(x, t);
    F::law_valid(x, x);
    F::law_nontrivial();
    algebra::sub_self(x);
    assert(q[i] == F::zero());
    let all = |j: int| q[j];
    assert(all(i) == F::zero());
    algebra::prod_zero(q.len(), i, all);
    assert forall|j: int| 0 <= j < t.len() implies (#[trigger] d[j]).valid() && d[j]
        != F::zero() by {
        F::law_valid(x, t[j]);
        assert(t[j].valid() && t.contains(t[j]));
        if x - t[j] == F::zero() {
            algebra::sub_zero(x, t[j]);
        }
    }
    let dd = |j: int| d[j];
    assert forall|j: int| 0 <= j < d.len() implies (#[trigger] dd(j)).valid() && dd(j)
        != F::zero() by {
        assert(d[j].valid());
    }
    algebra::prod_nonzero(d.len(), dd);
    algebra::prod_valid(d.len(), dd);
    let f = |k: int| p[k] * frac_sum::other_denominators(q, k);
    assert forall|k: int| 0 <= k < p.len() && k != i implies #[trigger] f(k) == F::zero() by {
        let o = |j: int| frac_sum::factor_but(q, k, j);
        assert(o(i) == F::zero());
        algebra::prod_zero(q.len(), i, o);
        algebra::mul_zero(p[k]);
    }
    algebra::prod_valid(q.len(), |j: int| frac_sum::factor_but(q, i, j));
    algebra::one_mul(frac_sum::other_denominators(q, i));
    algebra::sum_single(p.len(), i, f);
    let o = |j: int| frac_sum::factor_but(q, i, j);
    assert forall|j: int| 0 <= j < q.len() implies (#[trigger] o(j)).valid() && o(j)
        != F::zero() by {
        if j != i {
            F::law_valid(x, a[j]);
            assert(a[j].valid() && a[j] != a[i]);
            if x - a[j] == F::zero() {
                algebra::sub_zero(x, a[j]);
            }
        }
    }
    algebra::prod_nonzero(q.len(), o);
    algebra::mul_nonzero(
        frac_sum::other_denominators(q, i),
        frac_sum::denominator_product(d),
    );
    algebra::mul_zero(frac_sum::cross_sum(e, d));
}

/// Completeness: if every query lies in the table, the honest proof is accepted,
/// whatever the challenges, and the opening claims are the true values of the queries,
/// the multiplicities and the table.
pub proof fn law_complete<F: Field>(
    proof: LookupProof<F>,
    a: Seq<F>,
    t: Seq<F>,
    mu: nat,
    nu: nat,
    tape: Seq<F>,
)
    requires
        a.len() == pow2(mu),
        t.len() == pow2(nu),
        algebra::all_valid(a),
        algebra::all_valid(t),
        forall|i: int| 0 <= i < a.len() ==> t.contains(#[trigger] a[i]),
        tape.len() == lookup_draws(mu, nu),
        algebra::all_valid(tape),
        honest_lookup(proof, a, t, multiplicity(a, t), tape),
    ensures
        ({
            let zq = frac_sum::point_at(query_tape(tape, mu), mu);
            let zt = frac_sum::point_at(table_tape(tape, mu, nu), nu);
            lookup_claims(proof, tape) == Some(
                seq![
                    ClaimView { poly: Poly::Query, point: zq, value: multilinear::mle(a, zq) },
                    ClaimView {
                        poly: Poly::Mult,
                        point: zt,
                        value: multilinear::mle(multiplicity(a, t), zt),
                    },
                    ClaimView { poly: Poly::Table, point: zt, value: multilinear::mle(t, zt) },
                ],
            )
        }),
{
    lemma_places(a, t);
    law_listed_complete(proof, a, t, places(a, t), mu, nu, tape);
}

/// Every query counts once, whoever made the proof: if verification returns claims, the
/// numerator in which the query pass ends is one, as for numerators that are all one.
pub proof fn law_counts_once<F: Field>(proof: LookupProof<F>, tape: Seq<F>)
    requires
        lookup_claims(proof, tape) is Some,
    ensures
        ({
            let end = frac_sum::verified(
                proof.query.num,
                proof.query.den,
                proof.query.contents(),
                query_tape(tape, proof.query.layers@.len()),
            );
            match end {
                Some((z, p, q)) => p == F::one(),
                None => false,
            }
        }),
{
}

/// Soundness, whoever made the proof: verification returns exactly three claims, about
/// the queries, the multiplicities and the table. If they are true of `a`, `e` and `t`,
/// then `sum_i 1/(x - a_i)` and `sum_j e_j/(x - t_j)` agree over their common denominator
/// at the first draw `x`, unless a draw of one of the passes lets a false claim through.
pub proof fn law_sound<F: Field>(
    proof: LookupProof<F>,
    a: Seq<F>,
    t: Seq<F>,
    e: Seq<F>,
    tape: Seq<F>,
    claims: Seq<ClaimView<F>>,
)
    requires
        a.len() == pow2(proof.query.layers@.len()),
        t.len() == pow2(proof.table.layers@.len()),
        e.len() == t.len(),
        algebra::all_valid(a),
        algebra::all_valid(t),
        algebra::all_valid(e),
        proof.query.num.valid() && proof.query.den.valid(),
        proof.table.num.valid() && proof.table.den.valid(),
        frac_sum::messages_valid(proof.query.contents()),
        frac_sum::messages_valid(proof.table.contents()),
        tape.len() == lookup_draws(proof.query.layers@.len(), proof.table.layers@.len()),
        algebra::all_valid(tape),
        lookup_claims(proof, tape) == Some(claims),
        forall|i: int|
            0 <= i < claims.len() ==> (#[trigger] claims[i]).value == multilinear::mle(
                match claims[i].poly {
                    Poly::Query => a,
                    Poly::Mult => e,
                    Poly::Table => t,
                },
                claims[i].point,
            ),
    ensures
        claims.len() == 3,
        claims[0].poly == Poly::Query,
        claims[1].poly == Poly::Mult,
        claims[2].poly == Poly::Table,
        claims[1].point == claims[2].point,
        ({
            let (mu, nu) = (proof.query.layers@.len(), proof.table.layers@.len());
            let x = tape[0];
            let q = Seq::new(a.len(), |i: int| x - a[i]);
            let d = Seq::new(t.len(), |i: int| x - t[i]);
            let p = Seq::new(a.len(), |i: int| F::one());
            ||| frac_sum::cross_sum(p, q) * frac_sum::denominator_product(d)
                == frac_sum::cross_sum(e, d) * frac_sum::denominator_product(q)
            ||| frac_sum::lucky(
                p,
                q,
                mu,
                proof.query.num,
                proof.query.den,
                proof.query.contents(),
                tape.subrange(1, 1 + frac_sum::offset(mu) as int),
            )
            ||| frac_sum::lucky(
                e,
                d,
                nu,
                proof.table.num,
                proof.table.den,
                proof.table.contents(),
                tape.skip(1 + frac_sum::offset(mu) as int),
            )
        }),
{
    let (mu, nu) = (proof.query.layers@.len(), proof.table.layers@.len());
    let x = tape[0];
    let q = Seq::new(a.len(), |i: int| x - a[i]);
    let d = Seq::new(t.len(), |i: int| x - t[i]);
    let p = Seq::new(a.len(), |i: int| F::one());
    let (tq, tt) = (query_tape(tape, mu), table_tape(tape, mu, nu));
    assert(tt =~= tape.skip(1 + frac_sum::offset(mu) as int));
    assert(q =~= differences(x, a));
    assert(d =~= differences(x, t));
    assert(p =~= ones::<F>(a.len()));
    assert forall|i: int| 0 <= i < p.len() implies (#[trigger] p[i]).valid() by {
        F::law_valid(x, x);
    }
    assert forall|i: int| 0 <= i < q.len() implies (#[trigger] q[i]).valid() by {
        F::law_valid(x, a[i]);
    }
    assert forall|i: int| 0 <= i < d.len() implies (#[trigger] d[i]).valid() by {
        F::law_valid(x, t[i]);
    }
    assert(proof.query.contents().len() == mu);
    assert(proof.table.contents().len() == nu);
    let vq = frac_sum::verified(proof.query.num, proof.query.den, proof.query.contents(), tq);
    let vt = frac_sum::verified(proof.table.num, proof.table.den, proof.table.contents(), tt);
    let (zq, pq, qq) = vq->0;
    let (zt, pt, qt) = vt->0;
    assert(claims[0].value == x - qq && claims[0].point == zq);
    assert(claims[1].value == pt && claims[1].point == zt);
    assert(claims[2].value == x - qt && claims[2].point == zt);
    frac_sum::lemma_point_len(tq, mu);
    frac_sum::lemma_point_len(tt, nu);
    lemma_mle_ones::<F>(zq);
    lemma_mle_differences(x, a, zq);
    lemma_mle_differences(x, t, zt);
    frac_sum::lemma_verified_valid(
        proof.query.num,
        proof.query.den,
        proof.query.contents(),
        tq,
    );
    frac_sum::lemma_verified_valid(
        proof.table.num,
        proof.table.den,
        proof.table.contents(),
        tt,
    );
    lemma_double_difference(x, qq);
    lemma_double_difference(x, qt);
    frac_sum::law_sound(
        p,
        q,
        mu,
        proof.query.num,
        proof.query.den,
        proof.query.contents(),
        tq,
        zq,
    );
    frac_sum::law_sound(
        e,
        d,
        nu,
        proof.table.num,
        proof.table.den,
        proof.table.contents(),
        tt,
        zt,
    );
}

} // verus!
