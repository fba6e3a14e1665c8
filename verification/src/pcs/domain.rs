//! Evaluation domains of two-power order and Reed-Solomon encoding.
use vstd::prelude::*;
use vstd::arithmetic::power2::pow2;
use p3_dft::TwoAdicSubgroupDft;
use p3_field::extension::BinomialExtensionField;
use p3_field::{BasedVectorSpace, PrimeField64, TwoAdicField};
use crate::algebra;
use crate::field::{Field, Goldilocks, GoldilocksExt2};
use crate::gkr;
use crate::multilinear;
use crate::polynomial;
use crate::prime;
use crate::utils::poly;

verus! {

/// `x^e`.
pub open spec fn pow<F: Field>(x: F, e: nat) -> F
    decreases e,
{
    if e == 0 {
        F::one()
    } else {
        x * pow(x, (e - 1) as nat)
    }
}

pub proof fn lemma_pow_valid<F: Field>(x: F, e: nat)
    ensures
        pow(x, e).valid(),
{
    F::law_valid(x, x);
    if e > 0 {
        F::law_valid(x, pow(x, (e - 1) as nat));
    }
}

pub proof fn lemma_pow_add<F: Field>(x: F, a: nat, b: nat)
    ensures
        pow(x, a + b) == pow(x, a) * pow(x, b),
    decreases a,
{
    if a == 0 {
        lemma_pow_valid(x, b);
        algebra::one_mul(pow(x, b));
    } else {
        lemma_pow_add(x, (a - 1) as nat, b);
        assert((a + b - 1) as nat == (a - 1) as nat + b);
        F::law_mul_assoc(x, pow(x, (a - 1) as nat), pow(x, b));
    }
}

pub proof fn lemma_pow_product<F: Field>(x: F, y: F, e: nat)
    ensures
        pow(x * y, e) == pow(x, e) * pow(y, e),
    decreases e,
{
    if e == 0 {
        F::law_valid(x, x);
        algebra::one_mul(F::one());
    } else {
        lemma_pow_product(x, y, (e - 1) as nat);
        algebra::mul_four(x, y, pow(x, (e - 1) as nat), pow(y, (e - 1) as nat));
    }
}

pub proof fn lemma_pow_square<F: Field>(x: F, e: nat)
    ensures
        pow(x * x, e) == pow(x, 2 * e),
        pow(x, 2 * e) == pow(x, e) * pow(x, e),
{
    lemma_pow_product(x, x, e);
    lemma_pow_add(x, e, e);
    assert(e + e == 2 * e);
}

pub proof fn lemma_pow_one<F: Field>(e: nat)
    ensures
        pow(F::one(), e) == F::one(),
    decreases e,
{
    F::law_valid(F::one(), F::one());
    if e > 0 {
        lemma_pow_one::<F>((e - 1) as nat);
        algebra::one_mul(F::one());
    }
}

/// The generator of the subgroup of order `2^k`.
pub open spec fn root(k: nat) -> Goldilocks {
    Goldilocks::embed(
        prime::power_mod(prime::two_power_root(), pow2((32 - k) as nat), prime::p()),
    )
}

proof fn lemma_embed_mod(x: int)
    ensures
        Goldilocks::embed(x % prime::p()) == Goldilocks::embed(x),
{
    Goldilocks::lemma_of_int(x);
    Goldilocks::lemma_of_int(x % prime::p());
    vstd::arithmetic::div_mod::lemma_mod_twice(x, prime::p());
    crate::field::lemma_goldilocks_ext(
        Goldilocks::embed(x % prime::p()),
        Goldilocks::embed(x),
    );
}

pub proof fn lemma_root_square(k: nat)
    requires
        1 <= k <= 32,
    ensures
        root(k) * root(k) == root((k - 1) as nat),
        root(k).valid(),
{
    let g = prime::two_power_root();
    let e = pow2((32 - k) as nat);
    multilinear::lemma_pow2_step((33 - k) as nat);
    assert((32 - (k - 1)) as nat == (33 - k) as nat);
    prime::lemma_power_add(g, e, e, prime::p());
    assert(e + e == pow2((33 - k) as nat));
    let a = prime::power_mod(g, e, prime::p());
    Goldilocks::law_embed(a, a);
    lemma_embed_mod(a * a);
}

pub proof fn lemma_root_small()
    ensures
        root(1) == Goldilocks::zero() - Goldilocks::one(),
        root(0) == Goldilocks::one(),
{
    vstd::arithmetic::power2::lemma2_to64();
    prime::lemma_two_power_root();
    broadcast use Goldilocks::lemma_of_int;

    let m = prime::p();
    vstd::arithmetic::div_mod::lemma_mod_add_multiples_vanish(0 - 1, m);
    assert((m + (0 - 1)) % m == (0 - 1) % m);
    Goldilocks::law_embed(0, 1);
    Goldilocks::law_embed(1, 0);
    assert(root(1) == Goldilocks::embed(m - 1));
    assert(root(1)@ == Goldilocks::embed(0 - 1)@);
    crate::field::lemma_goldilocks_ext(root(1), Goldilocks::embed(0 - 1));
    lemma_root_square(1);
    // (-1) (-1) == 1
    Goldilocks::law_embed(0 - 1, 0 - 1);
    assert((0 - 1) * (0 - 1) == 1);
}

/// The generator's power at half its order is `-1`.
pub proof fn lemma_root_half(k: nat)
    requires
        1 <= k <= 32,
    ensures
        pow(root(k), pow2((k - 1) as nat)) == Goldilocks::zero() - Goldilocks::one(),
    decreases k,
{
    lemma_root_small();
    multilinear::lemma_pow2_zero();
    lemma_root_square(k);
    if k == 1 {
        Goldilocks::law_mul_one(root(1));
        assert(pow(root(1), 0) == Goldilocks::one());
        assert(pow(root(1), 1) == root(1) * pow(root(1), 0));
    } else {
        lemma_root_half((k - 1) as nat);
        multilinear::lemma_pow2_step((k - 1) as nat);
        lemma_pow_square(root(k), pow2((k - 2) as nat));
    }
}

/// The extension's copy of a base field element.
pub open spec fn up(b: Goldilocks) -> GoldilocksExt2 {
    GoldilocksExt2::pair(b, Goldilocks::zero())
}

pub proof fn lemma_up(a: Goldilocks, b: Goldilocks)
    ensures
        up(a + b) == up(a) + up(b),
        up(a - b) == up(a) - up(b),
        up(a * b) == up(a) * up(b),
        up(Goldilocks::zero()) == GoldilocksExt2::zero(),
        up(Goldilocks::one()) == GoldilocksExt2::one(),
        a.valid() ==> up(a).valid(),
{
    broadcast use {Goldilocks::lemma_of_int, GoldilocksExt2::lemma_pair};

    let z = Goldilocks::zero();
    vstd::arithmetic::div_mod::lemma_small_mod(0, prime::p() as nat);
    Goldilocks::law_valid(z, z);
    Goldilocks::law_add_zero(z);
    algebra::zero_add(z);
    let (x, y) = (a@, b@);
    assert(x * y + 7 * (0 * 0) == x * y) by (nonlinear_arith);
    assert(x * 0 + 0 * y == 0) by (nonlinear_arith);
    GoldilocksExt2::lemma_components(up(a * b), up(a) * up(b));
    GoldilocksExt2::lemma_components(up(a + b), up(a) + up(b));
    GoldilocksExt2::lemma_components(up(a - b), up(a) - up(b));
}

pub proof fn lemma_up_pow(a: Goldilocks, e: nat)
    ensures
        up(pow(a, e)) == pow(up(a), e),
    decreases e,
{
    lemma_up(a, a);
    if e > 0 {
        lemma_up_pow(a, (e - 1) as nat);
        lemma_up(a, pow(a, (e - 1) as nat));
    }
}

/// Point `i` of the domain of order `2^a`, in the extension.
pub open spec fn domain_point(a: nat, i: nat) -> GoldilocksExt2 {
    pow(up(root(a)), i)
}

/// A field whose elements can be the symbols of a codeword: the base field or the
/// extension.
pub trait LeafField: Field {
    /// The element in the extension.
    spec fn lift(self) -> GoldilocksExt2;

    /// The copy of a base field element.
    spec fn of_base(b: Goldilocks) -> Self;

    proof fn law_lift(a: Self, b: Self)
        ensures
            (a + b).lift() == a.lift() + b.lift(),
            (a * b).lift() == a.lift() * b.lift(),
            Self::zero().lift() == GoldilocksExt2::zero(),
            a.valid() ==> a.lift().valid(),
    ;

    proof fn law_of_base(b: Goldilocks)
        ensures
            Self::of_base(b).lift() == up(b),
    ;

    fn to_ext(self) -> (r: GoldilocksExt2)
        ensures
            r == self.lift(),
            r.valid(),
    ;

    /// Evaluates the polynomial with the given coefficients on the domain of the
    /// same size.
    fn dft(coeffs: Vec<Self>) -> (r: Vec<Self>)
        requires
            exists|a: nat| a <= 32 && coeffs@.len() == #[trigger] pow2(a),
        ensures
            forall|a: nat|
                coeffs@.len() == #[trigger] pow2(a) ==> r@ == Seq::new(
                    coeffs@.len(),
                    |i: int|
                        polynomial::poly_eval(coeffs@, Self::of_base(pow(root(a), i as nat))),
                ),
    ;
}

/// The values on the domain of order `2^a` of the polynomial with coefficients `c`.
pub open spec fn codeword<LF: LeafField>(c: Seq<LF>, a: nat) -> Seq<LF> {
    Seq::new(
        pow2(a),
        |i: int| polynomial::poly_eval(c, LF::of_base(pow(root(a), i as nat))),
    )
}

/// `p3_dft::Radix2Dit::dft` over `p3_goldilocks::Goldilocks`: the values of the
/// polynomial with the given coefficients at the powers of the subgroup's
/// generator, in order.
#[verifier::external_body]
fn base_dft(coeffs: Vec<Goldilocks>) -> (r: Vec<Goldilocks>)
    requires
        exists|a: nat| a <= 32 && coeffs@.len() == #[trigger] pow2(a),
    ensures
        forall|a: nat|
            coeffs@.len() == #[trigger] pow2(a) ==> r@ == Seq::new(
                coeffs@.len(),
                |i: int| polynomial::poly_eval(coeffs@, pow(root(a), i as nat)),
            ),
{
    let v: Vec<p3_goldilocks::Goldilocks> = coeffs.iter().map(
        |x| p3_goldilocks::Goldilocks::new(x.as_canonical_u64()),
    ).collect();
    let w = p3_dft::Radix2Dit::<p3_goldilocks::Goldilocks>::default().dft(v);
    w.iter().map(|x| Goldilocks::new(x.as_canonical_u64())).collect()
}

/// `p3_dft::Radix2Dit::dft_algebra` over the quadratic extension: the same
/// transform with extension coefficients.
#[verifier::external_body]
fn ext_dft(coeffs: Vec<GoldilocksExt2>) -> (r: Vec<GoldilocksExt2>)
    requires
        exists|a: nat| a <= 32 && coeffs@.len() == #[trigger] pow2(a),
    ensures
        forall|a: nat|
            coeffs@.len() == #[trigger] pow2(a) ==> r@ == Seq::new(
                coeffs@.len(),
                |i: int| polynomial::poly_eval(coeffs@, up(pow(root(a), i as nat))),
            ),
{
    let v: Vec<BinomialExtensionField<p3_goldilocks::Goldilocks, 2>> = coeffs.iter().map(
        |x| BinomialExtensionField::new([
            p3_goldilocks::Goldilocks::new(x.coefficient0().as_canonical_u64()),
            p3_goldilocks::Goldilocks::new(x.coefficient1().as_canonical_u64()),
        ]),
    ).collect();
    let w = p3_dft::Radix2Dit::<p3_goldilocks::Goldilocks>::default().dft_algebra(v);
    w.iter().map(|x: &BinomialExtensionField<p3_goldilocks::Goldilocks, 2>| {
        let c: &[p3_goldilocks::Goldilocks] = x.as_basis_coefficients_slice();
        GoldilocksExt2::new(Goldilocks::new(c[0].as_canonical_u64()), Goldilocks::new(c[1].as_canonical_u64()))
    }).collect()
}

/// `TwoAdicField::two_adic_generator` of `p3_goldilocks::Goldilocks`, which panics
/// beyond 32: the generator of the subgroup of order `2^bits`.
#[verifier::external_body]
pub(crate) fn two_adic_generator(bits: usize) -> (r: Goldilocks)
    requires
        bits <= 32,
    ensures
        r == root(bits as nat),
{
    Goldilocks::new(p3_goldilocks::Goldilocks::two_adic_generator(bits).as_canonical_u64())
}

impl LeafField for Goldilocks {
    open spec fn lift(self) -> GoldilocksExt2 {
        up(self)
    }

    open spec fn of_base(b: Goldilocks) -> Self {
        b
    }

    proof fn law_lift(a: Self, b: Self) {
        lemma_up(a, b);
    }

    proof fn law_of_base(b: Goldilocks) {
    }

    fn to_ext(self) -> (r: GoldilocksExt2) {
        GoldilocksExt2::from_base(self)
    }

    fn dft(coeffs: Vec<Self>) -> (r: Vec<Self>) {
        let r = base_dft(coeffs);
        assert forall|a: nat| coeffs@.len() == #[trigger] pow2(a) implies r@ == Seq::new(
            coeffs@.len(),
            |i: int| polynomial::poly_eval(coeffs@, Self::of_base(pow(root(a), i as nat))),
        ) by {
            assert(r@ =~= Seq::new(
                coeffs@.len(),
                |i: int| polynomial::poly_eval(coeffs@, Self::of_base(pow(root(a), i as nat))),
            ));
        }
        r
    }
}

impl LeafField for GoldilocksExt2 {
    open spec fn lift(self) -> GoldilocksExt2 {
        self
    }

    open spec fn of_base(b: Goldilocks) -> Self {
        up(b)
    }

    proof fn law_lift(a: Self, b: Self) {
    }

    proof fn law_of_base(b: Goldilocks) {
    }

    fn to_ext(self) -> (r: GoldilocksExt2) {
        let r = GoldilocksExt2::new(self.coefficient0(), self.coefficient1());
        proof {
            GoldilocksExt2::lemma_pair(self.re(), self.im());
            GoldilocksExt2::lemma_components(r, self);
        }
        r
    }

    fn dft(coeffs: Vec<Self>) -> (r: Vec<Self>) {
        let r = ext_dft(coeffs);
        assert forall|a: nat| coeffs@.len() == #[trigger] pow2(a) implies r@ == Seq::new(
            coeffs@.len(),
            |i: int| polynomial::poly_eval(coeffs@, Self::of_base(pow(root(a), i as nat))),
        ) by {
            assert(r@ =~= Seq::new(
                coeffs@.len(),
                |i: int| polynomial::poly_eval(coeffs@, Self::of_base(pow(root(a), i as nat))),
            ));
        }
        r
    }
}

/// The lifted entries.
pub open spec fn lift_all<LF: LeafField>(s: Seq<LF>) -> Seq<GoldilocksExt2> {
    Seq::new(s.len(), |i: int| s[i].lift())
}

/// Evaluation commutes with lifting.
pub proof fn lemma_lift_eval<LF: LeafField>(c: Seq<LF>, x: LF)
    ensures
        polynomial::poly_eval(c, x).lift() == polynomial::poly_eval(lift_all(c), x.lift()),
    decreases c.len(),
{
    LF::law_lift(x, x);
    if c.len() > 0 {
        lemma_lift_eval(c.drop_first(), x);
        assert(lift_all(c).drop_first() =~= lift_all(c.drop_first()));
        LF::law_lift(x, polynomial::poly_eval(c.drop_first(), x));
        LF::law_lift(c[0], x * polynomial::poly_eval(c.drop_first(), x));
    }
}

/// A lifted codeword symbol is the lifted polynomial's value at the domain point.
pub proof fn lemma_lift_codeword<LF: LeafField>(c: Seq<LF>, a: nat, i: int)
    requires
        0 <= i < pow2(a),
    ensures
        codeword(c, a)[i].lift() == polynomial::poly_eval(lift_all(c), domain_point(a, i as nat)),
{
    let g = pow(root(a), i as nat);
    lemma_lift_eval(c, LF::of_base(g));
    LF::law_of_base(g);
    lemma_up_pow(root(a), i as nat);
}

/// Encodes `coeffs` as the codeword of length `2^a`.
pub fn rs_encode<LF: LeafField>(coeffs: &Vec<LF>, a: usize) -> (r: Vec<LF>)
    requires
        a <= 32,
        coeffs@.len() <= pow2(a as nat),
        pow2(a as nat) <= usize::MAX,
    ensures
        r@ == codeword(coeffs@, a as nat),
{
    let mut padded = poly::copy_slice(coeffs.as_slice());
    let ghost c = coeffs@;
    let len: usize = two_power(a);
    let zero = LF::new_zero();
    while padded.len() < len
        invariant
            padded@.len() <= len,
            len == pow2(a as nat),
            zero == LF::zero(),
            forall|x: LF|
                #![trigger polynomial::poly_eval(c, x)]
                polynomial::poly_eval(padded@, x) == polynomial::poly_eval(c, x),
        decreases len - padded.len(),
    {
        let ghost before = padded@;
        padded.push(zero);
        proof {
            assert forall|x: LF|
                #![trigger polynomial::poly_eval(c, x)]
                polynomial::poly_eval(padded@, x) == polynomial::poly_eval(c, x) by {
                polynomial::eval_pad(before, x);
            }
        }
    }
    let ghost full = padded@;
    assert(full.len() == pow2(a as nat));
    let r = LF::dft(padded);
    assert(r@ =~= codeword(full, a as nat));
    assert(codeword(full, a as nat) =~= codeword(c, a as nat));
    r
}

/// `2^a`.
pub fn two_power(a: usize) -> (r: usize)
    requires
        pow2(a as nat) <= usize::MAX,
    ensures
        r == pow2(a as nat),
{
    let mut r: usize = 1;
    let mut i: usize = 0;
    proof {
        multilinear::lemma_pow2_zero();
    }
    while i < a
        invariant
            i <= a,
            r == pow2(i as nat),
            pow2(a as nat) <= usize::MAX,
        decreases a - i,
    {
        proof {
            multilinear::lemma_pow2_step((i + 1) as nat);
            multilinear::lemma_pow2_mono((i + 1) as nat, a as nat);
        }
        r = r * 2;
        i += 1;
    }
    r
}

/// `x^e`, by repeated squaring.
pub fn power<F: Field>(x: F, e: usize) -> (r: F)
    ensures
        r == pow(x, e as nat),
        r.valid(),
{
    let mut acc = F::new_one();
    let mut base = x;
    let mut k: usize = e;
    proof {
        lemma_pow_valid(x, e as nat);
        algebra::one_mul(pow(x, e as nat));
    }
    while k > 0
        invariant
            acc * pow(base, k as nat) == pow(x, e as nat),
            acc.valid(),
        decreases k,
    {
        proof {
            let h = (k / 2) as nat;
            lemma_pow_square(base, h);
            if k % 2 == 1 {
                assert(k as nat == 1 + 2 * h);
                assert(pow(base, k as nat) == base * pow(base, 2 * h));
                F::law_mul_assoc(acc, base, pow(base, 2 * h));
            }
        }
        if k % 2 == 1 {
            acc = acc.mul(base);
        }
        base = base.mul(base);
        k = k / 2;
    }
    proof {
        F::law_mul_one(acc);
    }
    acc
}

/// A polynomial splits into its even and odd coefficients:
/// `P(x) = P_e(x^2) + x P_o(x^2)`.
pub proof fn lemma_even_odd<F: Field>(c: Seq<F>, x: F, n: nat)
    requires
        c.len() == 2 * n,
    ensures
        polynomial::poly_eval(c, x) == polynomial::poly_eval(gkr::evens(c), x * x) + x
            * polynomial::poly_eval(gkr::odds(c), x * x),
    decreases n,
{
    let (e, o) = (gkr::evens(c), gkr::odds(c));
    let y = x * x;
    if n == 0 {
        algebra::mul_zero(x);
        F::law_valid(x, x);
        F::law_add_zero(F::zero());
    } else {
        let t = c.drop_first().drop_first();
        assert(t =~= c.subrange(2, c.len() as int));
        lemma_even_odd(t, x, (n - 1) as nat);
        assert(gkr::evens(t) =~= e.drop_first());
        assert(gkr::odds(t) =~= o.drop_first());
        let pe = polynomial::poly_eval(e.drop_first(), y);
        let po = polynomial::poly_eval(o.drop_first(), y);
        let s = polynomial::poly_eval(t, x);
        // P(x) = c0 + x (c1 + x s), s = pe + x po
        assert(polynomial::poly_eval(c.drop_first(), x) == c[1] + x * s);
        assert(e[0] == c[0] && o[0] == c[1]);
        F::law_distrib(x, c[1], x * s);
        F::law_mul_assoc(x, x, s);
        F::law_distrib(y, pe, x * po);
        algebra::mul_swap(y, x, po);
        // x (c1 + y po) = x c1 + x (y po)
        F::law_distrib(x, c[1], y * po);
        let (a, b) = (x * c[1], x * (y * po));
        // c0 + (a + (y pe + b)) == (c0 + y pe) + (a + b)
        algebra::add_four(c[0], y * pe, a, b);
        algebra::add_four(c[0], a, y * pe, b);
        F::law_add_assoc(c[0], a, y * pe + b);
    }
}

/// `(-x) (-x) = x x` and `P(-x) = P_e(x^2) - x P_o(x^2)`.
pub proof fn lemma_even_odd_neg<F: Field>(c: Seq<F>, x: F, n: nat)
    requires
        c.len() == 2 * n,
        x.valid(),
    ensures
        polynomial::poly_eval(c, (F::zero() - F::one()) * x) == polynomial::poly_eval(
            gkr::evens(c),
            x * x,
        ) - x * polynomial::poly_eval(gkr::odds(c), x * x),
{
    let m = F::zero() - F::one();
    let nx = m * x;
    lemma_minus_one::<F>(x);
    // nx = -x
    algebra::neg_mul(x, x.spec_neg());
    algebra::neg_mul(x, x);
    F::law_valid(x, x);
    lemma_neg_neg(x * x);
    lemma_even_odd(c, nx, n);
    let po = polynomial::poly_eval(gkr::odds(c), x * x);
    algebra::neg_mul(x, po);
    F::law_sub(polynomial::poly_eval(gkr::evens(c), x * x), x * po);
}

pub proof fn lemma_minus_one<F: Field>(x: F)
    requires
        x.valid(),
    ensures
        (F::zero() - F::one()) * x == x.spec_neg(),
{
    algebra::sub_distrib(x, F::zero(), F::one());
    algebra::mul_zero(x);
    algebra::one_mul(x);
    F::law_sub(F::zero(), x);
    F::law_valid(x, x);
    algebra::zero_add(x.spec_neg());
}

pub proof fn lemma_neg_neg<F: Field>(a: F)
    requires
        a.valid(),
    ensures
        a.spec_neg().spec_neg() == a,
{
    let n = a.spec_neg();
    F::law_sub(a, a);
    F::law_sub(n, n);
    F::law_valid(n, n);
    F::law_add_comm(n, n.spec_neg());
    algebra::add_cancel(n.spec_neg(), a, n);
}

} // verus!
