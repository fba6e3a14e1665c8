//! The Goldilocks prime field and its quadratic extension.
//!
//! Elements hold canonical integers. The arithmetic itself is done by
//! `p3_goldilocks` and `p3_field`, behind small functions on plain integers whose
//! contracts state the arithmetic modulo `p`; everything above them is proved.
use vstd::prelude::*;
use vstd::arithmetic::div_mod::*;
use p3_field::extension::BinomialExtensionField;
use p3_field::{BasedVectorSpace, Field as P3Field, PrimeField64, RawDataSerializable};
use rand::RngExt;
use crate::prime;

verus! {

#[verifier::external_type_specification]
#[verifier::external_body]
pub struct ExThreadRng(rand::rngs::ThreadRng);

/// A field of the Goldilocks characteristic. The operators `+ - *` in contracts
/// are the field's own.
pub trait Field: Sized + Copy {
    /// The representation is canonical.
    spec fn valid(self) -> bool;

    spec fn zero() -> Self;

    spec fn one() -> Self;

    spec fn spec_add(self, o: Self) -> Self;

    spec fn spec_sub(self, o: Self) -> Self;

    spec fn spec_mul(self, o: Self) -> Self;

    spec fn spec_neg(self) -> Self;

    /// The multiplicative inverse of a nonzero element.
    spec fn inv(self) -> Self;

    /// The image of an integer.
    spec fn embed(n: int) -> Self;

    /// Little-endian canonical bytes.
    spec fn bytes(self) -> Seq<u8>;

    /// Number of bytes of one element.
    spec fn byte_size() -> nat;

    proof fn law_valid(a: Self, b: Self)
        ensures
            Self::zero().valid(),
            Self::one().valid(),
            (a + b).valid(),
            (a - b).valid(),
            (a * b).valid(),
            a.spec_neg().valid(),
    ;

    proof fn law_add_comm(a: Self, b: Self)
        ensures
            a + b == b + a,
    ;

    proof fn law_add_assoc(a: Self, b: Self, c: Self)
        ensures
            (a + b) + c == a + (b + c),
    ;

    proof fn law_add_zero(a: Self)
        requires
            a.valid(),
        ensures
            a + Self::zero() == a,
    ;

    proof fn law_sub(a: Self, b: Self)
        ensures
            a - b == a + b.spec_neg(),
            a + a.spec_neg() == Self::zero(),
    ;

    proof fn law_mul_comm(a: Self, b: Self)
        ensures
            a * b == b * a,
    ;

    proof fn law_mul_assoc(a: Self, b: Self, c: Self)
        ensures
            (a * b) * c == a * (b * c),
    ;

    proof fn law_mul_one(a: Self)
        requires
            a.valid(),
        ensures
            a * Self::one() == a,
    ;

    proof fn law_distrib(a: Self, b: Self, c: Self)
        ensures
            a * (b + c) == a * b + a * c,
    ;

    proof fn law_nontrivial()
        ensures
            Self::one() != Self::zero(),
    ;

    proof fn law_inv(a: Self)
        requires
            a.valid(),
            a != Self::zero(),
        ensures
            a * a.inv() == Self::one(),
            a.inv().valid(),
    ;

    proof fn law_embed(m: int, n: int)
        ensures
            Self::embed(m).valid(),
            Self::embed(m) + Self::embed(n) == Self::embed(m + n),
            Self::embed(m) - Self::embed(n) == Self::embed(m - n),
            Self::embed(m) * Self::embed(n) == Self::embed(m * n),
            Self::embed(0) == Self::zero(),
            Self::embed(1) == Self::one(),
            0 < n < prime::p() ==> Self::embed(n) != Self::zero(),
    ;

    proof fn law_bytes(a: Self)
        ensures
            a.bytes().len() == Self::byte_size(),
    ;

    fn new_zero() -> (r: Self)
        ensures
            r == Self::zero(),
            r.valid(),
    ;

    fn new_one() -> (r: Self)
        ensures
            r == Self::one(),
            r.valid(),
    ;

    fn from_u64(n: u64) -> (r: Self)
        ensures
            r == Self::embed(n as int),
            r.valid(),
    ;

    fn add(self, o: Self) -> (r: Self)
        ensures
            r == self + o,
            r.valid(),
    ;

    fn sub(self, o: Self) -> (r: Self)
        ensures
            r == self - o,
            r.valid(),
    ;

    fn mul(self, o: Self) -> (r: Self)
        ensures
            r == self * o,
            r.valid(),
    ;

    fn neg(self) -> (r: Self)
        ensures
            r == self.spec_neg(),
            r.valid(),
    ;

    fn inverse(self) -> (r: Self)
        requires
            self != Self::zero(),
        ensures
            r == self.inv(),
            r.valid(),
    ;

    fn equals(self, o: Self) -> (r: bool)
        ensures
            r == (self == o),
    ;

    fn to_bytes(self) -> (r: Vec<u8>)
        ensures
            r@ == self.bytes(),
    ;

    fn size() -> (r: usize)
        ensures
            r as nat == Self::byte_size(),
            0 < r <= 16,
    ;

    /// A uniformly random element.
    fn sample(rng: &mut rand::rngs::ThreadRng) -> (r: Self)
        ensures
            r.valid(),
    ;
}

/// The eight little-endian bytes of a 64-bit integer.
pub open spec fn le_bytes(v: u64) -> Seq<u8> {
    Seq::new(8, |i: int| ((v as nat / vstd::arithmetic::power2::pow2((8 * i) as nat)) % 256) as u8)
}

/// `p3_goldilocks::Goldilocks` addition: the canonical form of the sum is the
/// integer sum modulo `p`.
#[verifier::external_body]
fn base_add(a: u64, b: u64) -> (r: u64)
    ensures
        r as int == (a + b) % prime::p(),
{
    (p3_goldilocks::Goldilocks::new(a) + p3_goldilocks::Goldilocks::new(b)).as_canonical_u64()
}

/// `p3_goldilocks::Goldilocks` subtraction, modulo `p`.
#[verifier::external_body]
fn base_sub(a: u64, b: u64) -> (r: u64)
    ensures
        r as int == (a - b) % prime::p(),
{
    (p3_goldilocks::Goldilocks::new(a) - p3_goldilocks::Goldilocks::new(b)).as_canonical_u64()
}

/// `p3_goldilocks::Goldilocks` multiplication, modulo `p`.
#[verifier::external_body]
fn base_mul(a: u64, b: u64) -> (r: u64)
    ensures
        r as int == (a * b) % prime::p(),
{
    (p3_goldilocks::Goldilocks::new(a) * p3_goldilocks::Goldilocks::new(b)).as_canonical_u64()
}

/// `p3_goldilocks::Goldilocks::new` followed by `as_canonical_u64`: reduction
/// modulo `p`.
#[verifier::external_body]
fn base_reduce(a: u64) -> (r: u64)
    ensures
        r as int == (a as int) % prime::p(),
{
    p3_goldilocks::Goldilocks::new(a).as_canonical_u64()
}

/// `p3_field::Field::inverse` on `p3_goldilocks::Goldilocks`, which panics on
/// zero: the product with the argument is 1.
#[verifier::external_body]
fn base_inverse(a: u64) -> (r: u64)
    requires
        (a as int) % prime::p() != 0,
    ensures
        r < prime::p(),
        (a * r) % prime::p() == 1,
{
    p3_goldilocks::Goldilocks::new(a).inverse().as_canonical_u64()
}

/// `RawDataSerializable::into_bytes` of `p3_goldilocks::Goldilocks`: the
/// little-endian bytes of the canonical integer.
#[verifier::external_body]
fn base_bytes(a: u64) -> (r: Vec<u8>)
    requires
        a < prime::p(),
    ensures
        r@ == le_bytes(a),
{
    p3_goldilocks::Goldilocks::new(a).into_bytes().into_iter().collect()
}

/// `rand`'s standard uniform sampling of `p3_goldilocks::Goldilocks`: some
/// canonical element.
#[verifier::external_body]
fn base_sample(rng: &mut rand::rngs::ThreadRng) -> (r: u64)
    ensures
        r < prime::p(),
{
    rng.random::<p3_goldilocks::Goldilocks>().as_canonical_u64()
}

/// Multiplication in `BinomialExtensionField<Goldilocks, 2>`, the quadratic
/// extension by a square root of 7.
#[verifier::external_body]
fn ext_mul(a0: u64, a1: u64, b0: u64, b1: u64) -> (r: (u64, u64))
    ensures
        r.0 as int == (a0 * b0 + 7 * (a1 * b1)) % prime::p(),
        r.1 as int == (a0 * b1 + a1 * b0) % prime::p(),
{
    let a = BinomialExtensionField::<p3_goldilocks::Goldilocks, 2>::new(
        [p3_goldilocks::Goldilocks::new(a0), p3_goldilocks::Goldilocks::new(a1)],
    );
    let b = BinomialExtensionField::<p3_goldilocks::Goldilocks, 2>::new(
        [p3_goldilocks::Goldilocks::new(b0), p3_goldilocks::Goldilocks::new(b1)],
    );
    let c = a * b;
    let s: &[p3_goldilocks::Goldilocks] = c.as_basis_coefficients_slice();
    (s[0].as_canonical_u64(), s[1].as_canonical_u64())
}

/// `p3_field::Field::inverse` in `BinomialExtensionField<Goldilocks, 2>`, which
/// panics on zero: the product with the argument is 1.
#[verifier::external_body]
fn ext_inverse(a0: u64, a1: u64) -> (r: (u64, u64))
    requires
        (a0 as int) % prime::p() != 0 || (a1 as int) % prime::p() != 0,
    ensures
        r.0 < prime::p(),
        r.1 < prime::p(),
        (a0 * r.0 + 7 * (a1 * r.1)) % prime::p() == 1,
        (a0 * r.1 + a1 * r.0) % prime::p() == 0,
{
    let a = BinomialExtensionField::<p3_goldilocks::Goldilocks, 2>::new(
        [p3_goldilocks::Goldilocks::new(a0), p3_goldilocks::Goldilocks::new(a1)],
    );
    let c = a.inverse();
    let s: &[p3_goldilocks::Goldilocks] = c.as_basis_coefficients_slice();
    (s[0].as_canonical_u64(), s[1].as_canonical_u64())
}


/// An element of the Goldilocks field, held as its canonical integer.
#[derive(Clone, Copy, Debug, PartialEq, Eq, Structural)]
pub struct Goldilocks {
    value: u64,
}

impl View for Goldilocks {
    type V = int;

    closed spec fn view(&self) -> int {
        self.value as int
    }
}

/// A canonical element is determined by its integer.
pub broadcast proof fn lemma_goldilocks_ext(a: Goldilocks, b: Goldilocks)
    requires
        #[trigger] a@ == #[trigger] b@,
    ensures
        a == b,
{
}

impl Goldilocks {
    #[verifier::type_invariant]
    spec fn canonical(self) -> bool {
        self.value < prime::p()
    }

    /// The residue of an integer.
    pub closed spec fn of_int(x: int) -> Goldilocks {
        Goldilocks { value: (x % prime::p()) as u64 }
    }

    /// The residue of an integer is its remainder modulo `p`.
    pub broadcast proof fn lemma_of_int(x: int)
        ensures
            (#[trigger] Goldilocks::of_int(x))@ == x % prime::p(),
            0 <= x % prime::p() < prime::p(),
    {
        lemma_mod_bound(x, prime::p());
    }

    pub proof fn lemma_of_view(self)
        requires
            self.valid(),
        ensures
            Goldilocks::of_int(self@) == self,
    {
        lemma_small_mod(self@ as nat, prime::p() as nat);
    }

    /// The residue of `value`.
    pub fn new(value: u64) -> (r: Goldilocks)
        ensures
            r@ == value as int % prime::p(),
            r == Goldilocks::embed(value as int),
            r.valid(),
    {
        proof {
            lemma_mod_bound(value as int, prime::p());
        }
        Goldilocks { value: base_reduce(value) }
    }

    /// The canonical integer of the element.
    pub fn as_canonical_u64(&self) -> (r: u64)
        ensures
            r as int == self@,
            r < prime::p(),
            self.valid(),
    {
        proof {
            use_type_invariant(self);
        }
        self.value
    }
}

proof fn lemma_residue_sum(x: int, y: int)
    ensures
        (x % prime::p() + y) % prime::p() == (x + y) % prime::p(),
        (y + x % prime::p()) % prime::p() == (x + y) % prime::p(),
        (y - x % prime::p()) % prime::p() == (y - x) % prime::p(),
        (x % prime::p() - y) % prime::p() == (x - y) % prime::p(),
        ((x % prime::p()) * y) % prime::p() == (x * y) % prime::p(),
        (y * (x % prime::p())) % prime::p() == (x * y) % prime::p(),
{
    let m = prime::p();
    let q = x / m;
    lemma_fundamental_div_mod(x, m);
    assert(x == m * q + x % m);
    lemma_mod_multiples_vanish(q, x % m + y, m);
    lemma_mod_multiples_vanish(q, x % m - y, m);
    lemma_mod_multiples_vanish(-q, y - x % m, m);
    assert(m * (-q) == -(m * q)) by (nonlinear_arith);
    assert(x * y == m * (q * y) + (x % m) * y) by (nonlinear_arith)
        requires
            x == m * q + x % m,
    ;
    lemma_mod_multiples_vanish(q * y, (x % m) * y, m);
    assert(y * (x % m) == (x % m) * y) by (nonlinear_arith);
}

impl Field for Goldilocks {
    open spec fn valid(self) -> bool {
        0 <= self@ < prime::p()
    }

    open spec fn zero() -> Self {
        Goldilocks::of_int(0)
    }

    open spec fn one() -> Self {
        Goldilocks::of_int(1)
    }

    open spec fn spec_add(self, o: Self) -> Self {
        Goldilocks::of_int(self@ + o@)
    }

    open spec fn spec_sub(self, o: Self) -> Self {
        Goldilocks::of_int(self@ - o@)
    }

    open spec fn spec_mul(self, o: Self) -> Self {
        Goldilocks::of_int(self@ * o@)
    }

    open spec fn spec_neg(self) -> Self {
        Goldilocks::of_int(0 - self@)
    }

    open spec fn inv(self) -> Self {
        choose|b: Goldilocks| b.valid() && #[trigger] (self * b) == Goldilocks::one()
    }

    open spec fn embed(n: int) -> Self {
        Goldilocks::of_int(n)
    }

    open spec fn bytes(self) -> Seq<u8> {
        le_bytes(self@ as u64)
    }

    open spec fn byte_size() -> nat {
        8
    }

    proof fn law_valid(a: Self, b: Self) {
        broadcast use Goldilocks::lemma_of_int;
    }

    proof fn law_add_comm(a: Self, b: Self) {
    }

    proof fn law_add_assoc(a: Self, b: Self, c: Self) {
        broadcast use Goldilocks::lemma_of_int;
        lemma_residue_sum(a@ + b@, c@);
        lemma_residue_sum(b@ + c@, a@);
    }

    proof fn law_add_zero(a: Self) {
        broadcast use Goldilocks::lemma_of_int;
        lemma_small_mod(0, prime::p() as nat);
        a.lemma_of_view();
    }

    proof fn law_sub(a: Self, b: Self) {
        broadcast use Goldilocks::lemma_of_int;
        lemma_residue_sum(0 - b@, a@);
        lemma_residue_sum(0 - a@, a@);
    }

    proof fn law_mul_comm(a: Self, b: Self) {
        assert(a@ * b@ == b@ * a@) by (nonlinear_arith);
    }

    proof fn law_mul_assoc(a: Self, b: Self, c: Self) {
        broadcast use Goldilocks::lemma_of_int;
        lemma_residue_sum(a@ * b@, c@);
        lemma_residue_sum(b@ * c@, a@);
        assert((a@ * b@) * c@ == (b@ * c@) * a@) by (nonlinear_arith);
    }

    proof fn law_mul_one(a: Self) {
        broadcast use Goldilocks::lemma_of_int;
        lemma_small_mod(1, prime::p() as nat);
        a.lemma_of_view();
        assert(a@ * 1 == a@);
    }

    proof fn law_distrib(a: Self, b: Self, c: Self) {
        broadcast use Goldilocks::lemma_of_int;
        lemma_residue_sum(b@ + c@, a@);
        lemma_residue_sum(a@ * b@, (a@ * c@) % prime::p());
        lemma_residue_sum(a@ * c@, a@ * b@);
        assert((b@ + c@) * a@ == a@ * b@ + a@ * c@) by (nonlinear_arith);
    }

    proof fn law_nontrivial() {
        broadcast use Goldilocks::lemma_of_int;
        lemma_small_mod(1, prime::p() as nat);
        lemma_small_mod(0, prime::p() as nat);
    }

    proof fn law_inv(a: Self) {
        broadcast use Goldilocks::lemma_of_int;
        lemma_small_mod(0, prime::p() as nat);
        assert(a@ != 0) by {
            if a@ == 0 {
                a.lemma_of_view();
            }
        }
        let b = prime::lemma_inverse_exists(a@);
        let e = Goldilocks::of_int(b);
        lemma_small_mod(b as nat, prime::p() as nat);
        lemma_small_mod(1, prime::p() as nat);
        assert(e.valid() && a * e == Goldilocks::one());
    }

    proof fn law_embed(m: int, n: int) {
        broadcast use Goldilocks::lemma_of_int;
        let q = prime::p();
        lemma_residue_sum(m, n % q);
        lemma_residue_sum(n, m);
        lemma_residue_sum(n, m % q);
        lemma_residue_sum(m, n);
        assert((m * (n % q)) % q == (n * m) % q);
        assert(m * n == n * m) by (nonlinear_arith);
        if 0 < n < q {
            lemma_small_mod(n as nat, q as nat);
            lemma_small_mod(0, q as nat);
        }
    }

    proof fn law_bytes(a: Self) {
    }

    fn new_zero() -> (r: Self) {
        proof {
            lemma_small_mod(0, prime::p() as nat);
        }
        Goldilocks { value: 0 }
    }

    fn new_one() -> (r: Self) {
        proof {
            lemma_small_mod(1, prime::p() as nat);
        }
        Goldilocks { value: 1 }
    }

    fn from_u64(n: u64) -> (r: Self) {
        Goldilocks::new(n)
    }

    fn add(self, o: Self) -> (r: Self)
        ensures
            r@ == (self@ + o@) % prime::p(),
    {
        proof {
            lemma_mod_bound(self@ + o@, prime::p());
        }
        Goldilocks { value: base_add(self.value, o.value) }
    }

    fn sub(self, o: Self) -> (r: Self)
        ensures
            r@ == (self@ - o@) % prime::p(),
    {
        proof {
            lemma_mod_bound(self@ - o@, prime::p());
        }
        Goldilocks { value: base_sub(self.value, o.value) }
    }

    fn mul(self, o: Self) -> (r: Self)
        ensures
            r@ == (self@ * o@) % prime::p(),
    {
        proof {
            lemma_mod_bound(self@ * o@, prime::p());
        }
        Goldilocks { value: base_mul(self.value, o.value) }
    }

    fn neg(self) -> (r: Self) {
        proof {
            lemma_mod_bound(0 - self@, prime::p());
        }
        Goldilocks { value: base_sub(0, self.value) }
    }

    fn inverse(self) -> (r: Self) {
        proof {
            use_type_invariant(&self);
            broadcast use Goldilocks::lemma_of_int;
            lemma_small_mod(self@ as nat, prime::p() as nat);
            lemma_small_mod(1, prime::p() as nat);
            if self@ == 0 {
                self.lemma_of_view();
            }
        }
        let v: u64 = base_inverse(self.value);
        let r = Goldilocks { value: v };
        proof {
            assert(self * r == Goldilocks::one());
            Self::law_inv(self);
            let c = self.inv();
            Self::law_mul_one(r);
            Self::law_mul_one(c);
            Self::law_mul_assoc(r, self, c);
            Self::law_mul_comm(r, self);
            Self::law_mul_comm(Self::one(), c);
        }
        r
    }

    fn equals(self, o: Self) -> (r: bool) {
        self.value == o.value
    }

    fn to_bytes(self) -> (r: Vec<u8>) {
        proof {
            use_type_invariant(&self);
        }
        base_bytes(self.value)
    }

    fn size() -> (r: usize) {
        8
    }

    fn sample(rng: &mut rand::rngs::ThreadRng) -> (r: Self) {
        Goldilocks { value: base_sample(rng) }
    }
}

/// An element `c0 + c1 * X` of the quadratic extension, with `X * X = 7`.
#[derive(Clone, Copy, Debug, PartialEq, Eq, Structural)]
pub struct GoldilocksExt2 {
    c0: Goldilocks,
    c1: Goldilocks,
}

impl GoldilocksExt2 {
    pub closed spec fn re(self) -> Goldilocks {
        self.c0
    }

    pub closed spec fn im(self) -> Goldilocks {
        self.c1
    }

    pub closed spec fn pair(c0: Goldilocks, c1: Goldilocks) -> GoldilocksExt2 {
        GoldilocksExt2 { c0, c1 }
    }

    pub broadcast proof fn lemma_pair(c0: Goldilocks, c1: Goldilocks)
        ensures
            (#[trigger] GoldilocksExt2::pair(c0, c1)).re() == c0,
            GoldilocksExt2::pair(c0, c1).im() == c1,
    {
    }

    /// An element is determined by its two coefficients.
    pub proof fn lemma_components(a: GoldilocksExt2, b: GoldilocksExt2)
        requires
            a.re() == b.re(),
            a.im() == b.im(),
        ensures
            a == b,
    {
    }

    /// The element `c0 + c1 * X`.
    pub fn new(c0: Goldilocks, c1: Goldilocks) -> (r: GoldilocksExt2)
        ensures
            r == GoldilocksExt2::pair(c0, c1),
            r.valid(),
    {
        proof {
            use_type_invariant(&c0);
            use_type_invariant(&c1);
        }
        GoldilocksExt2 { c0, c1 }
    }

    /// The image of a base field element.
    pub fn from_base(c: Goldilocks) -> (r: GoldilocksExt2)
        ensures
            r == GoldilocksExt2::pair(c, Goldilocks::zero()),
            r.valid(),
    {
        proof {
            use_type_invariant(&c);
        }
        GoldilocksExt2 { c0: c, c1: Goldilocks::new_zero() }
    }

    /// The coefficient of 1.
    pub fn coefficient0(&self) -> (r: Goldilocks)
        ensures
            r == self.re(),
            r.valid(),
    {
        proof {
            use_type_invariant(&self.c0);
        }
        self.c0
    }

    /// The coefficient of `X`.
    pub fn coefficient1(&self) -> (r: Goldilocks)
        ensures
            r == self.im(),
            r.valid(),
    {
        proof {
            use_type_invariant(&self.c1);
        }
        self.c1
    }
}

proof fn lemma_expand(m: int, a: int, s: int, u: int)
    by (nonlinear_arith)
    ensures
        (m * a + s) * u == m * (a * u) + s * u,
{
}

proof fn lemma_scale(k: int, m: int, b: int, t: int)
    by (nonlinear_arith)
    ensures
        k * (m * b + t) == m * (k * b) + k * t,
{
}

proof fn lemma_expand2(a: int, b: int, c: int, d: int, e: int)
    by (nonlinear_arith)
    ensures
        (a * b + 7 * (c * d)) * e == a * b * e + 7 * (c * d * e),
        (a * b + c * d) * e == a * b * e + c * d * e,
{
}

proof fn lemma_triple(a: int, b: int, c: int)
    by (nonlinear_arith)
    ensures
        a * b * c == b * c * a,
        a * b * c == a * c * b,
        a * b * c == c * b * a,
{
}

proof fn lemma_residue_pair(x: int, u: int, y: int, v: int, k: int)
    ensures
        ((x % prime::p()) * u + k * ((y % prime::p()) * v)) % prime::p() == (x * u + k * (y * v))
            % prime::p(),
{
    let m = prime::p();
    lemma_fundamental_div_mod(x, m);
    lemma_fundamental_div_mod(y, m);
    let (a, b, s, t) = (x / m, y / m, x % m, y % m);
    lemma_expand(m, a, s, u);
    lemma_expand(m, b, t, v);
    lemma_scale(k, m, b * v, t * v);
    assert(m * (a * u) + m * (k * (b * v)) == m * (a * u + k * (b * v))) by (nonlinear_arith);
    lemma_mod_multiples_vanish(a * u + k * (b * v), s * u + k * (t * v), m);
}

impl Field for GoldilocksExt2 {
    open spec fn valid(self) -> bool {
        self.re().valid() && self.im().valid()
    }

    open spec fn zero() -> Self {
        GoldilocksExt2::pair(Goldilocks::zero(), Goldilocks::zero())
    }

    open spec fn one() -> Self {
        GoldilocksExt2::pair(Goldilocks::one(), Goldilocks::zero())
    }

    open spec fn spec_add(self, o: Self) -> Self {
        GoldilocksExt2::pair(self.re() + o.re(), self.im() + o.im())
    }

    open spec fn spec_sub(self, o: Self) -> Self {
        GoldilocksExt2::pair(self.re() - o.re(), self.im() - o.im())
    }

    open spec fn spec_mul(self, o: Self) -> Self {
        GoldilocksExt2::pair(
            Goldilocks::of_int(self.re()@ * o.re()@ + 7 * (self.im()@ * o.im()@)),
            Goldilocks::of_int(self.re()@ * o.im()@ + self.im()@ * o.re()@),
        )
    }

    open spec fn spec_neg(self) -> Self {
        GoldilocksExt2::pair(self.re().spec_neg(), self.im().spec_neg())
    }

    open spec fn inv(self) -> Self {
        choose|b: GoldilocksExt2| b.valid() && #[trigger] (self * b) == GoldilocksExt2::one()
    }

    open spec fn embed(n: int) -> Self {
        GoldilocksExt2::pair(Goldilocks::of_int(n), Goldilocks::zero())
    }

    open spec fn bytes(self) -> Seq<u8> {
        self.re().bytes() + self.im().bytes()
    }

    open spec fn byte_size() -> nat {
        16
    }

    proof fn law_valid(a: Self, b: Self) {
        broadcast use Goldilocks::lemma_of_int;
    }

    proof fn law_add_comm(a: Self, b: Self) {
    }

    proof fn law_add_assoc(a: Self, b: Self, c: Self) {
        Goldilocks::law_add_assoc(a.re(), b.re(), c.re());
        Goldilocks::law_add_assoc(a.im(), b.im(), c.im());
    }

    proof fn law_add_zero(a: Self) {
        Goldilocks::law_add_zero(a.re());
        Goldilocks::law_add_zero(a.im());
    }

    proof fn law_sub(a: Self, b: Self) {
        Goldilocks::law_sub(a.re(), b.re());
        Goldilocks::law_sub(a.im(), b.im());
    }

    proof fn law_mul_comm(a: Self, b: Self) {
        let (x, y, u, v) = (a.re()@, a.im()@, b.re()@, b.im()@);
        assert(x * u + 7 * (y * v) == u * x + 7 * (v * y)) by (nonlinear_arith);
        assert(x * v + y * u == u * y + v * x) by (nonlinear_arith);
    }

    proof fn law_mul_assoc(a: Self, b: Self, c: Self) {
        broadcast use Goldilocks::lemma_of_int;
        let m = prime::p();
        let (a0, a1, b0, b1, c0, c1) = (
            a.re()@, a.im()@, b.re()@, b.im()@, c.re()@, c.im()@,
        );
        let x = a0 * b0 + 7 * (a1 * b1);
        let y = a0 * b1 + a1 * b0;
        let u = b0 * c0 + 7 * (b1 * c1);
        let v = b0 * c1 + b1 * c0;
        lemma_residue_pair(x, c0, y, c1, 7);
        lemma_residue_pair(x, c1, y, c0, 1);
        lemma_residue_pair(u, a0, v, a1, 7);
        lemma_residue_pair(v, a0, u, a1, 1);
        lemma_expand2(a0, b0, a1, b1, c0);
        lemma_expand2(a0, b0, a1, b1, c1);
        lemma_expand2(a0, b1, a1, b0, c1);
        lemma_expand2(a0, b1, a1, b0, c0);
        lemma_expand2(b0, c0, b1, c1, a0);
        lemma_expand2(b0, c0, b1, c1, a1);
        lemma_expand2(b0, c1, b1, c0, a1);
        lemma_expand2(b0, c1, b1, c0, a0);
        lemma_triple(a0, b0, c0);
        lemma_triple(a0, b0, c1);
        lemma_triple(a0, b1, c0);
        lemma_triple(a0, b1, c1);
        lemma_triple(a1, b0, c0);
        lemma_triple(a1, b0, c1);
        lemma_triple(a1, b1, c0);
        lemma_triple(a1, b1, c1);
        let ab = a * b;
        let bc = b * c;
        assert((ab * c).re() == (a * bc).re()) by {
            assert(a0 * (u % m) == (u % m) * a0) by (nonlinear_arith);
            assert(a1 * (v % m) == (v % m) * a1) by (nonlinear_arith);
        }
        assert((ab * c).im() == (a * bc).im()) by {
            assert(a0 * (v % m) == (v % m) * a0) by (nonlinear_arith);
            assert(a1 * (u % m) == (u % m) * a1) by (nonlinear_arith);
        }
    }

    proof fn law_mul_one(a: Self) {
        broadcast use Goldilocks::lemma_of_int;
        lemma_small_mod(1, prime::p() as nat);
        lemma_small_mod(0, prime::p() as nat);
        a.re().lemma_of_view();
        a.im().lemma_of_view();
        let (x, y) = (a.re()@, a.im()@);
        assert(x * 1 + 7 * (y * 0) == x) by (nonlinear_arith);
        assert(x * 0 + y * 1 == y) by (nonlinear_arith);
    }

    proof fn law_distrib(a: Self, b: Self, c: Self) {
        broadcast use Goldilocks::lemma_of_int;
        let m = prime::p();
        let (a0, a1, b0, b1, c0, c1) = (
            a.re()@, a.im()@, b.re()@, b.im()@, c.re()@, c.im()@,
        );
        let x = a0 * b0 + 7 * (a1 * b1);
        let y = a0 * c0 + 7 * (a1 * c1);
        let u = a0 * b1 + a1 * b0;
        let v = a0 * c1 + a1 * c0;
        lemma_residue_pair(b0 + c0, a0, b1 + c1, a1, 7);
        lemma_residue_pair(b1 + c1, a0, b0 + c0, a1, 1);
        lemma_residue_sum(x, y % m);
        lemma_residue_sum(y, x);
        lemma_residue_sum(u, v % m);
        lemma_residue_sum(v, u);
        assert((b0 + c0) * a0 + 7 * ((b1 + c1) * a1) == x + y) by (nonlinear_arith)
            requires
                x == a0 * b0 + 7 * (a1 * b1),
                y == a0 * c0 + 7 * (a1 * c1),
        ;
        assert((b1 + c1) * a0 + 1 * ((b0 + c0) * a1) == u + v) by (nonlinear_arith)
            requires
                u == a0 * b1 + a1 * b0,
                v == a0 * c1 + a1 * c0,
        ;
        let s0 = (b0 + c0) % m;
        let s1 = (b1 + c1) % m;
        assert(a0 * s0 + 7 * (a1 * s1) == s0 * a0 + 7 * (s1 * a1)) by (nonlinear_arith);
        assert(a0 * s1 + a1 * s0 == s1 * a0 + 1 * (s0 * a1)) by (nonlinear_arith);
    }

    proof fn law_nontrivial() {
        Goldilocks::law_nontrivial();
        let o = GoldilocksExt2::one();
        let z = GoldilocksExt2::zero();
        assert(o.re() != z.re());
    }

    proof fn law_inv(a: Self) {
        let b = lemma_ext_inverse_exists(a);
        assert(b.valid() && a * b == GoldilocksExt2::one());
    }

    proof fn law_embed(m: int, n: int) {
        broadcast use Goldilocks::lemma_of_int;
        Goldilocks::law_embed(m, n);
        lemma_small_mod(0, prime::p() as nat);
        let z = Goldilocks::zero();
        let q = prime::p();
        Goldilocks::law_add_zero(z);
        assert(z - z == z);
        let (x, y) = (m % q, n % q);
        assert(x * y + 7 * (0 * 0) == x * y) by (nonlinear_arith);
        assert(x * 0 + 0 * y == 0) by (nonlinear_arith);
        if 0 < n < q {
            assert(GoldilocksExt2::embed(n).re() != GoldilocksExt2::zero().re());
        }
    }

    proof fn law_bytes(a: Self) {
    }

    fn new_zero() -> (r: Self) {
        let z = Goldilocks::new_zero();
        GoldilocksExt2 { c0: z, c1: z }
    }

    fn new_one() -> (r: Self) {
        GoldilocksExt2 { c0: Goldilocks::new_one(), c1: Goldilocks::new_zero() }
    }

    fn from_u64(n: u64) -> (r: Self) {
        GoldilocksExt2::from_base(Goldilocks::new(n))
    }

    fn add(self, o: Self) -> (r: Self) {
        GoldilocksExt2 { c0: self.c0.add(o.c0), c1: self.c1.add(o.c1) }
    }

    fn sub(self, o: Self) -> (r: Self) {
        GoldilocksExt2 { c0: self.c0.sub(o.c0), c1: self.c1.sub(o.c1) }
    }

    fn mul(self, o: Self) -> (r: Self) {
        let (x, y) = ext_mul(self.c0.value, self.c1.value, o.c0.value, o.c1.value);
        proof {
            lemma_mod_bound(self.re()@ * o.re()@ + 7 * (self.im()@ * o.im()@), prime::p());
            lemma_mod_bound(self.re()@ * o.im()@ + self.im()@ * o.re()@, prime::p());
        }
        GoldilocksExt2 { c0: Goldilocks { value: x }, c1: Goldilocks { value: y } }
    }

    fn neg(self) -> (r: Self) {
        GoldilocksExt2 { c0: self.c0.neg(), c1: self.c1.neg() }
    }

    fn inverse(self) -> (r: Self) {
        proof {
            use_type_invariant(&self.c0);
            use_type_invariant(&self.c1);
            lemma_small_mod(self.c0@ as nat, prime::p() as nat);
            lemma_small_mod(self.c1@ as nat, prime::p() as nat);
            lemma_small_mod(1, prime::p() as nat);
            lemma_small_mod(0, prime::p() as nat);
            broadcast use Goldilocks::lemma_of_int;
            if self.c0@ == 0 && self.c1@ == 0 {
                self.c0.lemma_of_view();
                self.c1.lemma_of_view();
            }
        }
        let (x, y) = ext_inverse(self.c0.value, self.c1.value);
        let r = GoldilocksExt2 { c0: Goldilocks { value: x }, c1: Goldilocks { value: y } };
        proof {
            assert(self * r == GoldilocksExt2::one());
            Self::law_inv(self);
            let c = self.inv();
            Self::law_mul_one(r);
            Self::law_mul_one(c);
            Self::law_mul_assoc(r, self, c);
            Self::law_mul_comm(r, self);
            Self::law_mul_comm(Self::one(), c);
        }
        r
    }

    fn equals(self, o: Self) -> (r: bool) {
        self.c0.value == o.c0.value && self.c1.value == o.c1.value
    }

    fn to_bytes(self) -> (r: Vec<u8>) {
        let mut r = self.c0.to_bytes();
        let mut t = self.c1.to_bytes();
        r.append(&mut t);
        r
    }

    fn size() -> (r: usize) {
        16
    }

    fn sample(rng: &mut rand::rngs::ThreadRng) -> (r: Self) {
        GoldilocksExt2 { c0: Goldilocks::sample(rng), c1: Goldilocks::sample(rng) }
    }
}

/// Every nonzero element of the extension has an inverse, since its norm
/// `c0^2 - 7 c1^2` is nonzero: 7 is not a square.
proof fn lemma_ext_inverse_exists(a: GoldilocksExt2) -> (b: GoldilocksExt2)
    requires
        a.valid(),
        a != GoldilocksExt2::zero(),
    ensures
        b.valid(),
        a * b == GoldilocksExt2::one(),
{
    broadcast use Goldilocks::lemma_of_int;
    let m = prime::p();
    let (x, y) = (a.re()@, a.im()@);
    lemma_small_mod(0, m as nat);
    lemma_small_mod(1, m as nat);
    if x == 0 && y == 0 {
        a.re().lemma_of_view();
        a.im().lemma_of_view();
        GoldilocksExt2::lemma_components(a, GoldilocksExt2::zero());
    }
    let n = x * x - 7 * (y * y);
    let norm = n % m;
    lemma_mod_bound(n, m);
    if norm == 0 {
        if y == 0 {
            assert(n == x * x) by (nonlinear_arith)
                requires
                    y == 0,
                    n == x * x - 7 * (y * y),
            ;
            prime::lemma_no_zero_divisors(x, x);
        } else {
            let i = prime::lemma_inverse_exists(y);
            let t = (x * i) % m;
            lemma_mod_bound(x * i, m);
            // t^2 = x^2 / y^2 = 7
            lemma_mul_mod_noop(x * i, x * i, m);
            assert((x * i) * (x * i) == n * (i * i) + 7 * ((y * i) * (y * i))) by (nonlinear_arith)
                requires
                    n == x * x - 7 * (y * y),
            ;
            lemma_residue_pair(n, i * i, 0, 0, 0);
            assert(n * (i * i) + 0 * (0 * 0) == n * (i * i)) by (nonlinear_arith);
            assert((n % m) * (i * i) + 0 * ((0int % m) * 0) == 0) by (nonlinear_arith)
                requires
                    n % m == 0,
            ;
            lemma_small_mod(0, m as nat);
            assert((n * (i * i)) % m == 0);
            let w = y * i;
            lemma_mul_mod_noop(w, w, m);
            assert((w * w) % m == 1);
            lemma_mul_mod_noop_right(7, w * w, m);
            lemma_small_mod(7, m as nat);
            lemma_residue_sum(n * (i * i), 7 * (w * w));
            assert((t * t) % m == 7);
            prime::lemma_seven_nonresidue(t);
        }
    }
    let d = prime::lemma_inverse_exists(norm);
    let e0 = (x * d) % m;
    let e1 = (0 - y * d) % m;
    lemma_mod_bound(x * d, m);
    lemma_mod_bound(0 - y * d, m);
    let b = GoldilocksExt2::pair(Goldilocks::of_int(e0), Goldilocks::of_int(e1));
    lemma_small_mod(e0 as nat, m as nat);
    lemma_small_mod(e1 as nat, m as nat);
    lemma_residue_pair(x * d, x, 0 - y * d, y, 7);
    assert((x * d) * x + 7 * ((0 - y * d) * y) == n * d) by (nonlinear_arith)
        requires
            n == x * x - 7 * (y * y),
    ;
    lemma_residue_sum(n, d);
    assert((n * d) % m == 1);
    assert(x * e0 + 7 * (y * e1) == e0 * x + 7 * (e1 * y)) by (nonlinear_arith);
    lemma_residue_pair(0 - y * d, x, x * d, y, 1);
    assert((0 - y * d) * x + 1 * ((x * d) * y) == 0) by (nonlinear_arith);
    assert(x * e1 + y * e0 == e1 * x + 1 * (e0 * y)) by (nonlinear_arith);
    assert((a * b).re() == Goldilocks::one());
    assert((a * b).im() == Goldilocks::zero());
    GoldilocksExt2::lemma_components(a * b, GoldilocksExt2::one());
    b
}

} // verus!
