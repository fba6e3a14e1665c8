//! Number theory of the modulus `2^64 - 2^32 + 1`: it is prime, every nonzero
//! residue is invertible, and 7 has no square root.
use vstd::prelude::*;
use vstd::arithmetic::div_mod::*;
use vstd::arithmetic::mul::*;
use vstd::set_lib::*;

verus! {

/// The modulus of the base field, `2^64 - 2^32 + 1`.
pub const MODULUS: u64 = 0xFFFF_FFFF_0000_0001;

/// The modulus as a mathematical integer.
pub open spec fn p() -> int {
    0xFFFF_FFFF_0000_0001
}

/// `b^e mod m`.
pub open spec fn power_mod(b: int, e: nat, m: int) -> int
    decreases e,
{
    if e == 0 {
        1int % m
    } else {
        (b * power_mod(b, (e - 1) as nat, m)) % m
    }
}

/// `m` divides `a`.
pub open spec fn divides(m: int, a: int) -> bool {
    exists|k: int| a == #[trigger] (m * k)
}

pub proof fn lemma_power_range(b: int, e: nat, m: int)
    requires
        m > 0,
    ensures
        0 <= power_mod(b, e, m) < m,
{
    if e == 0 {
        lemma_mod_bound(1, m);
    } else {
        lemma_mod_bound(b * power_mod(b, (e - 1) as nat, m), m);
    }
}

pub proof fn lemma_power_add(b: int, e: nat, f: nat, m: int)
    requires
        m > 0,
    ensures
        power_mod(b, e + f, m) == (power_mod(b, e, m) * power_mod(b, f, m)) % m,
    decreases e,
{
    let y = power_mod(b, f, m);
    lemma_power_range(b, f, m);
    if e == 0 {
        lemma_mul_mod_noop_left(1, y, m);
        assert(1 * y == y);
        lemma_small_mod(y as nat, m as nat);
    } else {
        let x = power_mod(b, (e - 1) as nat, m);
        lemma_power_add(b, (e - 1) as nat, f, m);
        assert((e + f - 1) as nat == (e - 1) as nat + f);
        assert(power_mod(b, e + f, m) == (b * ((x * y) % m)) % m);
        lemma_mul_mod_noop_right(b, x * y, m);
        lemma_mul_mod_noop_left(b * x, y, m);
        lemma_mul_is_associative(b, x, y);
    }
}

pub proof fn lemma_power_mul(b: int, e: nat, f: nat, m: int)
    requires
        m > 0,
    ensures
        power_mod(b, e * f, m) == power_mod(power_mod(b, e, m), f, m),
    decreases f,
{
    if f == 0 {
        assert(e * f == 0);
    } else {
        lemma_power_mul(b, e, (f - 1) as nat, m);
        assert(e * f == e + e * ((f - 1) as nat)) by (nonlinear_arith)
            requires
                f > 0,
        ;
        lemma_power_add(b, e, e * ((f - 1) as nat), m);
    }
}

proof fn lemma_power_one(e: nat, m: int)
    requires
        m > 1,
    ensures
        power_mod(1, e, m) == 1,
    decreases e,
{
    lemma_small_mod(1, m as nat);
    if e > 0 {
        lemma_power_one((e - 1) as nat, m);
    }
}

/// Powers of `-1`: an odd exponent gives `-1`.
proof fn lemma_power_minus_one_odd(e: nat, m: int)
    requires
        m > 1,
        e % 2 == 1,
    ensures
        power_mod(m - 1, e, m) == m - 1,
    decreases e,
{
    lemma_small_mod(1, m as nat);
    lemma_small_mod((m - 1) as nat, m as nat);
    if e == 1 {
        assert(power_mod(m - 1, 0, m) == 1);
        assert((m - 1) * 1 == m - 1);
    } else {
        lemma_power_minus_one_odd((e - 2) as nat, m);
        let a = power_mod(m - 1, (e - 1) as nat, m);
        assert(a == ((m - 1) * (m - 1)) % m);
        assert((m - 1) * (m - 1) == m * (m - 2) + 1) by (nonlinear_arith);
        lemma_mod_multiples_vanish(m - 2, 1, m);
        assert(a == 1);
        assert((m - 1) * 1 == m - 1);
    }
}

/// Reducing modulo a divisor commutes with taking powers.
proof fn lemma_power_reduce(b: int, e: nat, m: int, q: int)
    requires
        q > 0,
        m > 0,
        divides(q, m),
    ensures
        power_mod(b, e, q) == power_mod(b, e, m) % q,
    decreases e,
{
    let k = choose|k: int| m == #[trigger] (q * k);
    assert(k > 0) by (nonlinear_arith)
        requires
            q * k > 0,
            q > 0,
    ;
    if e == 0 {
        lemma_mod_mod(1, q, k);
    } else {
        let x = power_mod(b, (e - 1) as nat, m);
        lemma_power_reduce(b, (e - 1) as nat, m, q);
        lemma_mod_mod(b * x, q, k);
        lemma_mul_mod_noop_right(b, x, q);
    }
}

proof fn step_square(e: nat, v: int, w: int)
    requires
        power_mod(7, e, p()) == v,
        (v * v) % p() == w,
    ensures
        power_mod(7, 2 * e, p()) == w,
{
    lemma_power_add(7, e, e, p());
}

proof fn step_multiply(e: nat, v: int, f: nat, u: int, w: int)
    requires
        power_mod(7, e, p()) == v,
        power_mod(7, f, p()) == u,
        (v * u) % p() == w,
    ensures
        power_mod(7, e + f, p()) == w,
{
    lemma_power_add(7, e, f, p());
}

/// A generator of the residues of order `2^32`: `7^(2^32 - 1)`.
pub open spec fn two_power_root() -> int {
    1753635133440165772
}

/// `7^((p-1)/2) = -1`.
proof fn lemma_seven_half_power()
    ensures
        power_mod(7, 4294967295, p()) == two_power_root(),
        power_mod(7, 9223372034707292160, p()) == p() - 1,
{
    assert(power_mod(7, 1, p()) == 7) by {
        assert(power_mod(7, 0, p()) == 1);
    }
    step_square(1, 7, 49);
    step_multiply(2, 49, 1, 7, 343);
    step_square(3, 343, 117649);
    step_square(6, 117649, 13841287201);
    step_multiply(12, 13841287201, 3, 343, 4747561509943);
    step_square(15, 4747561509943, 1582037354089406189);
    step_square(30, 1582037354089406189, 6704211459967285318);
    step_square(60, 6704211459967285318, 12536486945555764682);
    step_square(120, 12536486945555764682, 8329639379454877396);
    step_multiply(240, 8329639379454877396, 15, 4747561509943, 8125271997680889877);
    step_square(255, 8125271997680889877, 10915923311382173605);
    step_square(510, 10915923311382173605, 8682737361258234340);
    step_square(1020, 8682737361258234340, 13168992710278412212);
    step_square(2040, 13168992710278412212, 3615243740316660512);
    step_square(4080, 3615243740316660512, 9701552052102210316);
    step_square(8160, 9701552052102210316, 12082995573853045936);
    step_square(16320, 12082995573853045936, 2592469405483382171);
    step_square(32640, 2592469405483382171, 8929377406043347353);
    step_multiply(65280, 8929377406043347353, 255, 8125271997680889877, 12134830135347446949);
    step_square(65535, 12134830135347446949, 618113109518621269);
    step_square(131070, 618113109518621269, 10057574059836717585);
    step_square(262140, 10057574059836717585, 11436575600859740313);
    step_square(524280, 11436575600859740313, 2460531272136303351);
    step_square(1048560, 2460531272136303351, 5287351674330089703);
    step_square(2097120, 5287351674330089703, 2729558173611838869);
    step_square(4194240, 2729558173611838869, 5809869834850305452);
    step_square(8388480, 5809869834850305452, 4380238239217790048);
    step_square(16776960, 4380238239217790048, 10313688370767105378);
    step_square(33553920, 10313688370767105378, 1116132233887293652);
    step_square(67107840, 1116132233887293652, 8201916556687100419);
    step_square(134215680, 8201916556687100419, 9569002298025400893);
    step_square(268431360, 9569002298025400893, 3860342023949954178);
    step_square(536862720, 3860342023949954178, 2518827640559301834);
    step_square(1073725440, 2518827640559301834, 4408381949760333744);
    step_square(2147450880, 4408381949760333744, 5214785644524920463);
    step_multiply(4294901760, 5214785644524920463, 65535, 12134830135347446949, 1753635133440165772);
    step_square(4294967295, 1753635133440165772, 4614640910117430873);
    step_square(8589934590, 4614640910117430873, 9123114210336311365);
    step_square(17179869180, 9123114210336311365, 16116352524544190054);
    step_square(34359738360, 16116352524544190054, 6414415596519834757);
    step_square(68719476720, 6414415596519834757, 1213594585890690845);
    step_square(137438953440, 1213594585890690845, 17096174751763063430);
    step_square(274877906880, 17096174751763063430, 5456943929260765144);
    step_square(549755813760, 5456943929260765144, 9713644485405565297);
    step_square(1099511627520, 9713644485405565297, 16905767614792059275);
    step_square(2199023255040, 16905767614792059275, 5416168637041100469);
    step_square(4398046510080, 5416168637041100469, 17654865857378133588);
    step_square(8796093020160, 17654865857378133588, 3511170319078647661);
    step_square(17592186040320, 3511170319078647661, 18146160046829613826);
    step_square(35184372080640, 18146160046829613826, 9306717745644682924);
    step_square(70368744161280, 9306717745644682924, 12380578893860276750);
    step_square(140737488322560, 12380578893860276750, 6115771955107415310);
    step_square(281474976645120, 6115771955107415310, 17776499369601055404);
    step_square(562949953290240, 17776499369601055404, 16207902636198568418);
    step_square(1125899906580480, 16207902636198568418, 1532612707718625687);
    step_square(2251799813160960, 1532612707718625687, 17492915097719143606);
    step_square(4503599626321920, 17492915097719143606, 455906449640507599);
    step_square(9007199252643840, 455906449640507599, 11353340290879379826);
    step_square(18014398505287680, 11353340290879379826, 1803076106186727246);
    step_square(36028797010575360, 1803076106186727246, 13797081185216407910);
    step_square(72057594021150720, 13797081185216407910, 17870292113338400769);
    step_square(144115188042301440, 17870292113338400769, 549755813888);
    step_square(288230376084602880, 549755813888, 70368744161280);
    step_square(576460752169205760, 70368744161280, 17293822564807737345);
    step_square(1152921504338411520, 17293822564807737345, 18446744069397807105);
    step_square(2305843008676823040, 18446744069397807105, 281474976710656);
    step_square(4611686017353646080, 281474976710656, 18446744069414584320);
}

/// If `e > 0` then `e = 2^s * odd`, and for `e < 2^32` doubling it often enough
/// reaches an odd multiple of `2^31`.
proof fn lemma_odd_multiple(e: nat, n: nat) -> (r: (nat, nat))
    requires
        0 < e < vstd::arithmetic::power2::pow2(n + 1),
    ensures
        e * r.0 == vstd::arithmetic::power2::pow2(n) * r.1,
        r.1 % 2 == 1,
    decreases n,
{
    use_pow2(n);
    if n == 0 {
        vstd::arithmetic::power2::lemma2_to64();
        assert(e == 1);
        (1, 1)
    } else if e % 2 == 0 {
        let half = (e / 2) as nat;
        use_pow2((n - 1) as nat);
        let (a, b) = lemma_odd_multiple(half, (n - 1) as nat);
        let h = vstd::arithmetic::power2::pow2((n - 1) as nat);
        assert(e * a == (2 * h) * b) by (nonlinear_arith)
            requires
                e == 2 * half,
                half * a == h * b,
        ;
        (a, b)
    } else {
        let h = vstd::arithmetic::power2::pow2(n);
        assert(e * h == h * e) by (nonlinear_arith);
        (h, e)
    }
}

proof fn use_pow2(n: nat)
    ensures
        vstd::arithmetic::power2::pow2(n + 1) == 2 * vstd::arithmetic::power2::pow2(n),
{
    vstd::arithmetic::power2::lemma_pow2_unfold(n + 1);
}

/// Every divisor of the modulus other than 1 exceeds `2^32`.
proof fn lemma_divisor_large(q: int)
    requires
        q > 1,
        divides(q, p()),
    ensures
        q > 0x1_0000_0000,
{
    lemma_seven_half_power();
    let h = power_mod(7, 4294967295, q);
    lemma_power_range(7, 4294967295, q);
    lemma_power_mul(7, 4294967295, 0x8000_0000, q);
    assert(4294967295 * 0x8000_0000 == 9223372034707292160nat);
    lemma_power_reduce(7, 9223372034707292160, p(), q);
    let k = choose|k: int| p() == #[trigger] (q * k);
    // -1 modulo the divisor
    assert((p() - 1) % q == q - 1) by {
        assert(p() - 1 == q * (k - 1) + (q - 1)) by (nonlinear_arith)
            requires
                p() == q * k,
        ;
        lemma_mod_multiples_vanish(k - 1, q - 1, q);
        lemma_small_mod((q - 1) as nat, q as nat);
    }
    assert(power_mod(h, 0x8000_0000, q) == q - 1);
    assert(q != 2) by {
        if q == 2 {
            assert(p() == 2 * k);
        }
    }
    // the first 2^32 powers of h are distinct and nonzero
    let n: int = 0x1_0000_0000;
    let f = |i: int| power_mod(h, i as nat, q);
    let dom = set_int_range(0, n);
    lemma_int_range(0, n);
    assert forall|i: int, j: int| 0 <= i < j < n implies #[trigger] f(i) != #[trigger] f(j) by {
        lemma_no_collision(h, i as nat, j as nat, q);
    }
    assert forall|i: int| 0 <= i < n implies 1 <= #[trigger] f(i) < q by {
        lemma_power_range(h, i as nat, q);
        if f(i) == 0 {
            lemma_power_add(h, i as nat, (0x1_0000_0000 - i) as nat, q);
            lemma_h_order(h, q);
            lemma_small_mod(0, q as nat);
        }
    }
    assert(vstd::relations::injective_on(f, dom));
    let img = dom.map(f);
    lemma_map_size(dom, img, f);
    lemma_int_range(1, q);
    assert(img.subset_of(set_int_range(1, q)));
    lemma_len_subset(img, set_int_range(1, q));
}

proof fn lemma_h_order(h: int, q: int)
    requires
        q > 1,
        power_mod(h, 0x8000_0000, q) == q - 1,
    ensures
        power_mod(h, 0x1_0000_0000, q) == 1,
{
    lemma_power_add(h, 0x8000_0000, 0x8000_0000, q);
    assert((q - 1) * (q - 1) == q * (q - 2) + 1) by (nonlinear_arith);
    lemma_mod_multiples_vanish(q - 2, 1, q);
    lemma_small_mod(1, q as nat);
}

proof fn lemma_no_collision(h: int, i: nat, j: nat, q: int)
    requires
        q > 2,
        power_mod(h, 0x8000_0000, q) == q - 1,
        i < j < 0x1_0000_0000,
    ensures
        power_mod(h, i, q) != power_mod(h, j, q),
{
    if power_mod(h, i, q) == power_mod(h, j, q) {
    let e = (j - i) as nat;
    let c = (0x1_0000_0000 - i) as nat;
    lemma_h_order(h, q);
    // multiply both sides by h^(2^32 - i)
    lemma_power_add(h, i, c, q);
    lemma_power_add(h, j, c, q);
    assert(i + c == 0x1_0000_0000);
    assert(j + c == e + 0x1_0000_0000);
    lemma_power_add(h, e, 0x1_0000_0000, q);
    lemma_power_range(h, e, q);
    lemma_small_mod(power_mod(h, e, q) as nat, q as nat);
    assert(power_mod(h, e, q) * 1 == power_mod(h, e, q));
    assert(power_mod(h, e, q) == 1);
    vstd::arithmetic::power2::lemma2_to64();
    let (a, b) = lemma_odd_multiple(e, 31);
    lemma_power_mul(h, e, a, q);
    lemma_power_one(a, q);
    lemma_power_mul(h, 0x8000_0000, b, q);
    lemma_power_minus_one_odd(b, q);
    }
}

/// The generator's power `2^31` is `-1`.
pub proof fn lemma_two_power_root()
    ensures
        power_mod(two_power_root(), 0x8000_0000, p()) == p() - 1,
{
    lemma_seven_half_power();
    lemma_power_mul(7, 4294967295, 0x8000_0000, p());
    assert(4294967295 * 0x8000_0000 == 9223372034707292160nat);
}

/// The modulus is prime: it has no divisor strictly between 1 and itself.
pub proof fn lemma_prime(q: int)
    requires
        1 < q < p(),
    ensures
        !divides(q, p()),
{
    if divides(q, p()) {
        let k = choose|k: int| p() == #[trigger] (q * k);
        lemma_divisor_large(q);
        assert(k > 1) by (nonlinear_arith)
            requires
                p() == q * k,
                1 < q < p(),
        ;
        assert(p() == k * q) by (nonlinear_arith)
            requires
                p() == q * k,
        ;
        lemma_divisor_large(k);
        assert(q * k > p()) by (nonlinear_arith)
            requires
                q > 0x1_0000_0000,
                k > 0x1_0000_0000,
        ;
    }
}

/// A common divisor of `a` and `b` that is an integer combination of them.
proof fn lemma_bezout(a: int, b: int) -> (r: (int, int, int))
    requires
        a > 0,
        b >= 0,
    ensures
        r.0 > 0,
        divides(r.0, a),
        divides(r.0, b),
        a * r.1 + b * r.2 == r.0,
    decreases b,
{
    if b == 0 {
        assert(a == a * 1);
        assert(b == a * 0);
        (a, 1, 0)
    } else {
        lemma_mod_bound(a, b);
        let (g, x, y) = lemma_bezout(b, a % b);
        lemma_fundamental_div_mod(a, b);
        let t = a / b;
        let kb = choose|k: int| b == #[trigger] (g * k);
        let kr = choose|k: int| a % b == #[trigger] (g * k);
        assert(a == g * (kb * t + kr)) by (nonlinear_arith)
            requires
                a == b * t + a % b,
                b == g * kb,
                a % b == g * kr,
        ;
        assert(a * y + b * (x - t * y) == g) by (nonlinear_arith)
            requires
                a == b * t + a % b,
                b * x + (a % b) * y == g,
        ;
        (g, y, x - t * y)
    }
}

/// Every nonzero residue has a multiplicative inverse.
pub proof fn lemma_inverse_exists(a: int) -> (b: int)
    requires
        0 < a < p(),
    ensures
        0 <= b < p(),
        (a * b) % p() == 1,
{
    let (g, x, y) = lemma_bezout(a, p());
    if g != 1 {
        let ka = choose|k: int| a == #[trigger] (g * k);
        assert(g <= a) by (nonlinear_arith)
            requires
                a == g * ka,
                a > 0,
                g > 0,
        ;
        lemma_prime(g);
    }
    let b = x % p();
    lemma_mod_bound(x, p());
    lemma_mul_mod_noop_right(a, x, p());
    assert(a * x == p() * (-y) + 1) by (nonlinear_arith)
        requires
            a * x + p() * y == 1,
    ;
    lemma_mod_multiples_vanish(-y, 1, p());
    b
}

/// A product of two nonzero residues is nonzero.
pub proof fn lemma_no_zero_divisors(a: int, b: int)
    requires
        0 < a < p(),
        0 < b < p(),
    ensures
        (a * b) % p() != 0,
{
    if (a * b) % p() == 0 {
        let c = lemma_inverse_exists(a);
        lemma_mul_mod_noop_right(c, a * b, p());
        assert(c * (a * b) == (a * c) * b) by (nonlinear_arith);
        lemma_mul_mod_noop_left(a * c, b, p());
        assert(1 * b == b);
        assert(c * 0 == 0);
        lemma_small_mod(b as nat, p() as nat);
    }
}

spec fn product_mod(s: Seq<int>) -> int
    decreases s.len(),
{
    if s.len() == 0 {
        1
    } else {
        (product_mod(s.drop_last()) * s.last()) % p()
    }
}

proof fn lemma_product_remove(s: Seq<int>, j: int)
    requires
        0 <= j < s.len(),
    ensures
        product_mod(s) == (product_mod(s.remove(j)) * s[j]) % p(),
    decreases s.len(),
{
    let init = s.drop_last();
    if j == s.len() - 1 {
        assert(s.remove(j) =~= init);
    } else {
        lemma_product_remove(init, j);
        assert(s.remove(j).drop_last() =~= init.remove(j));
        let c = product_mod(init.remove(j));
        let x = s[j];
        let y = s.last();
        assert(s.remove(j).last() == y);
        assert(product_mod(s) == (((c * x) % p()) * y) % p());
        lemma_mul_mod_noop_left(c * x, y, p());
        lemma_mul_mod_noop_left(c * y, x, p());
        assert((c * x) * y == (c * y) * x) by (nonlinear_arith);
    }
}

proof fn lemma_product_permute(s: Seq<int>, t: Seq<int>)
    requires
        s.no_duplicates(),
        t.no_duplicates(),
        s.to_set() == t.to_set(),
    ensures
        product_mod(s) == product_mod(t),
    decreases s.len(),
{
    s.unique_seq_to_set();
    t.unique_seq_to_set();
    if s.len() > 0 {
        let x = s.last();
        assert(s.to_set().contains(x));
        assert(t.to_set().contains(x));
        let j = choose|j: int| 0 <= j < t.len() && t[j] == x;
        let u = t.remove(j);
        assert forall|v: int| s.drop_last().to_set().contains(v) == u.to_set().contains(v) by {
            if s.drop_last().to_set().contains(v) {
                let i = choose|i: int| 0 <= i < s.len() - 1 && s.drop_last()[i] == v;
                assert(s[i] == v);
                assert(s.to_set().contains(v));
                assert(t.to_set().contains(v));
                let l = choose|l: int| 0 <= l < t.len() && t[l] == v;
                assert(l != j);
                if l < j {
                    assert(u[l] == v);
                } else {
                    assert(u[l - 1] == v);
                }
            }
            if u.to_set().contains(v) {
                let l = choose|l: int| 0 <= l < u.len() && u[l] == v;
                let l2 = if l < j { l } else { l + 1 };
                assert(t[l2] == v);
                assert(t.to_set().contains(v));
                assert(s.to_set().contains(v));
                let i = choose|i: int| 0 <= i < s.len() && s[i] == v;
                assert(v != x);
                assert(s.drop_last()[i] == v);
            }
        }
        assert(s.drop_last().to_set() =~= u.to_set());
        lemma_product_permute(s.drop_last(), u);
        lemma_product_remove(t, j);
    }
}

proof fn lemma_product_scaled(a: int, n: nat)
    ensures
        product_mod(Seq::new(n, |i: int| (a * (i + 1)) % p())) == (power_mod(a, n, p())
            * product_mod(Seq::new(n, |i: int| i + 1))) % p(),
    decreases n,
{
    let s = Seq::new(n, |i: int| i + 1);
    let t = Seq::new(n, |i: int| (a * (i + 1)) % p());
    if n == 0 {
        lemma_small_mod(1, p() as nat);
    } else {
        let m = (n - 1) as nat;
        lemma_product_scaled(a, m);
        assert(s.drop_last() =~= Seq::new(m, |i: int| i + 1));
        assert(t.drop_last() =~= Seq::new(m, |i: int| (a * (i + 1)) % p()));
        let w = power_mod(a, m, p());
        let q = product_mod(s.drop_last());
        let k: int = n as int;
        assert(product_mod(t) == (((w * q) % p()) * ((a * k) % p())) % p());
        lemma_mul_mod_noop(w * q, a * k, p());
        assert((w * q) * (a * k) == (a * w) * (q * k)) by (nonlinear_arith);
        lemma_mul_mod_noop(a * w, q * k, p());
    }
}

proof fn lemma_factorial_nonzero(n: nat)
    requires
        n < p(),
    ensures
        0 < product_mod(Seq::new(n, |i: int| i + 1)) < p(),
    decreases n,
{
    let s = Seq::new(n, |i: int| i + 1);
    if n > 0 {
        lemma_factorial_nonzero((n - 1) as nat);
        assert(s.drop_last() =~= Seq::new((n - 1) as nat, |i: int| i + 1));
        lemma_no_zero_divisors(product_mod(s.drop_last()), n as int);
        lemma_mod_bound(product_mod(s.drop_last()) * s.last(), p());
    }
}

/// Fermat: `a^(p-1) = 1` for every nonzero residue.
pub proof fn lemma_fermat(a: int)
    requires
        0 < a < p(),
    ensures
        power_mod(a, (p() - 1) as nat, p()) == 1,
{
    let n = (p() - 1) as nat;
    let s = Seq::new(n, |i: int| i + 1);
    let t = Seq::new(n, |i: int| (a * (i + 1)) % p());
    assert forall|i: int, j: int| 0 <= i < n && 0 <= j < n && i != j implies #[trigger] t[i] != #[trigger] t[j] by {
        if t[i] == t[j] {
            let d = if i > j { i - j } else { j - i };
            lemma_mod_equivalence(a * (i + 1), a * (j + 1), p());
            lemma_mod_equivalence(a * (j + 1), a * (i + 1), p());
            assert(a * (i + 1) - a * (j + 1) == a * (i - j)) by (nonlinear_arith);
            assert(a * (j + 1) - a * (i + 1) == a * (j - i)) by (nonlinear_arith);
            lemma_no_zero_divisors(a, d);
        }
    }
    assert forall|i: int| 0 <= i < n implies 1 <= #[trigger] t[i] < p() by {
        lemma_no_zero_divisors(a, i + 1);
        lemma_mod_bound(a * (i + 1), p());
    }
    let full = set_int_range(1, p());
    lemma_int_range(1, p());
    assert(s.to_set() =~= full) by {
        assert forall|v: int| full.contains(v) implies s.to_set().contains(v) by {
            assert(s[v - 1] == v);
        }
    }
    t.unique_seq_to_set();
    assert(t.to_set().subset_of(full)) by {
        assert forall|v: int| t.to_set().contains(v) implies full.contains(v) by {
            let i = choose|i: int| 0 <= i < t.len() && t[i] == v;
            assert(1 <= t[i] < p());
        }
    }
    vstd::seq_lib::seq_to_set_is_finite(t);
    lemma_subset_equality(t.to_set(), full);
    lemma_product_permute(s, t);
    lemma_product_scaled(a, n);
    lemma_factorial_nonzero(n);
    let f = product_mod(s);
    let w = power_mod(a, n, p());
    lemma_power_range(a, n, p());
    let g = lemma_inverse_exists(f);
    // cancel the factorial
    lemma_mul_mod_noop_left(w * f, g, p());
    assert((w * f) * g == w * (f * g)) by (nonlinear_arith);
    lemma_mul_mod_noop_right(w, f * g, p());
    assert(w * 1 == w);
    lemma_small_mod(w as nat, p() as nat);
}

/// 7 is not a square modulo `p`.
pub proof fn lemma_seven_nonresidue(x: int)
    requires
        0 <= x < p(),
    ensures
        (x * x) % p() != 7,
{
    if (x * x) % p() == 7 {
        assert(x != 0) by {
            if x == 0 {
                assert(x * x == 0);
            }
        }
        let h: nat = 9223372034707292160;
        assert(power_mod(x, 2, p()) == 7) by {
            reveal_with_fuel(power_mod, 3);
            lemma_small_mod(1, p() as nat);
            assert(x * 1 == x);
            lemma_small_mod(x as nat, p() as nat);
        }
        lemma_power_mul(x, 2, h, p());
        assert(2 * h == p() - 1);
        lemma_fermat(x);
        lemma_seven_half_power();
    }
}

} // verus!
