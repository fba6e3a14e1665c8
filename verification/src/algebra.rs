//! Ring identities, finite sums and products over a field.
use vstd::prelude::*;
use crate::field::Field;

verus! {

pub broadcast proof fn add_comm<F: Field>(a: F, b: F)
    ensures
        #[trigger] (a + b) == b + a,
{
    F::law_add_comm(a, b);
}

pub broadcast proof fn add_assoc<F: Field>(a: F, b: F, c: F)
    ensures
        #[trigger] ((a + b) + c) == a + (b + c),
{
    F::law_add_assoc(a, b, c);
}

pub broadcast proof fn mul_comm<F: Field>(a: F, b: F)
    ensures
        #[trigger] (a * b) == b * a,
{
    F::law_mul_comm(a, b);
}

pub broadcast proof fn mul_assoc<F: Field>(a: F, b: F, c: F)
    ensures
        #[trigger] ((a * b) * c) == a * (b * c),
{
    F::law_mul_assoc(a, b, c);
}

pub broadcast group group_ac {
    add_comm,
    add_assoc,
    mul_comm,
    mul_assoc,
}

pub broadcast proof fn valid_add<F: Field>(a: F, b: F)
    ensures
        #[trigger] (a + b).valid(),
{
    F::law_valid(a, b);
}

pub broadcast proof fn valid_sub<F: Field>(a: F, b: F)
    ensures
        #[trigger] (a - b).valid(),
{
    F::law_valid(a, b);
}

pub broadcast proof fn valid_mul<F: Field>(a: F, b: F)
    ensures
        #[trigger] (a * b).valid(),
{
    F::law_valid(a, b);
}

pub broadcast group group_valid {
    valid_add,
    valid_sub,
    valid_mul,
}

/// All elements of a sequence are canonical.
pub open spec fn all_valid<F: Field>(s: Seq<F>) -> bool {
    forall|i: int| 0 <= i < s.len() ==> (#[trigger] s[i]).valid()
}

pub proof fn add_four<F: Field>(a: F, b: F, c: F, d: F)
    ensures
        (a + b) + (c + d) == (a + c) + (b + d),
{
    broadcast use group_ac;
}

pub proof fn mul_four<F: Field>(a: F, b: F, c: F, d: F)
    ensures
        (a * b) * (c * d) == (a * c) * (b * d),
{
    broadcast use group_ac;
}

pub proof fn mul_swap<F: Field>(a: F, b: F, c: F)
    ensures
        a * (b * c) == b * (a * c),
        (a * b) * c == (a * c) * b,
{
    broadcast use group_ac;
}

pub proof fn distrib_right<F: Field>(a: F, b: F, c: F)
    ensures
        (a + b) * c == a * c + b * c,
{
    F::law_distrib(c, a, b);
    F::law_mul_comm(c, a);
    F::law_mul_comm(c, b);
    F::law_mul_comm(c, a + b);
}

pub proof fn zero_add<F: Field>(a: F)
    requires
        a.valid(),
    ensures
        F::zero() + a == a,
        a + F::zero() == a,
        a - F::zero() == a,
{
    F::law_add_zero(a);
    F::law_add_comm(F::zero(), a);
    F::law_sub(a, F::zero());
    F::law_sub(F::zero(), F::zero());
    F::law_valid(F::zero(), F::zero());
    F::law_add_zero(F::zero().spec_neg());
    F::law_add_comm(F::zero().spec_neg(), F::zero());
}

pub proof fn one_mul<F: Field>(a: F)
    requires
        a.valid(),
    ensures
        F::one() * a == a,
        a * F::one() == a,
{
    F::law_mul_one(a);
    F::law_mul_comm(F::one(), a);
}

pub proof fn sub_self<F: Field>(a: F)
    ensures
        a - a == F::zero(),
{
    F::law_sub(a, a);
}

pub proof fn mul_zero<F: Field>(a: F)
    ensures
        a * F::zero() == F::zero(),
        F::zero() * a == F::zero(),
{
    let z = F::zero();
    let w = a * z;
    F::law_valid(a, z);
    F::law_add_zero(z);
    F::law_distrib(a, z, z);
    F::law_sub(w, w);
    F::law_add_assoc(w, w, w.spec_neg());
    F::law_add_zero(w);
    F::law_mul_comm(a, z);
}

/// `(a - b) + b == a`, and what follows from it.
pub proof fn sub_add<F: Field>(a: F, b: F)
    requires
        a.valid(),
    ensures
        (a - b) + b == a,
        (a + b) - b == a,
        b + (a - b) == a,
{
    F::law_sub(a, b);
    F::law_sub(b, b);
    F::law_add_assoc(a, b.spec_neg(), b);
    F::law_add_comm(b.spec_neg(), b);
    F::law_add_zero(a);
    F::law_sub(a + b, b);
    F::law_add_assoc(a, b, b.spec_neg());
    F::law_add_comm(b, a - b);
}

/// Addition can be cancelled.
pub proof fn add_cancel<F: Field>(a: F, b: F, c: F)
    requires
        a.valid(),
        b.valid(),
        a + c == b + c,
    ensures
        a == b,
{
    sub_add(a, c);
    sub_add(b, c);
}

/// A vanishing difference means equality.
pub proof fn sub_zero<F: Field>(a: F, b: F)
    requires
        a.valid(),
        b.valid(),
        a - b == F::zero(),
    ensures
        a == b,
{
    sub_add(a, b);
    zero_add(b);
}

pub proof fn neg_mul<F: Field>(a: F, b: F)
    ensures
        a.spec_neg() * b == (a * b).spec_neg(),
        a * b.spec_neg() == (a * b).spec_neg(),
{
    neg_mul_left(a, b);
    neg_mul_left(b, a);
    F::law_mul_comm(a, b);
    F::law_mul_comm(a, b.spec_neg());
}

proof fn neg_mul_left<F: Field>(a: F, b: F)
    ensures
        a.spec_neg() * b == (a * b).spec_neg(),
{
    let n = a.spec_neg();
    let m = (a * b).spec_neg();
    F::law_valid(n, b);
    F::law_valid(a * b, b);
    F::law_sub(a, a);
    F::law_sub(a * b, a * b);
    distrib_right(a, n, b);
    mul_zero(b);
    F::law_add_comm(a * b, n * b);
    F::law_add_comm(a * b, m);
    add_cancel(n * b, m, a * b);
}

pub proof fn sub_distrib<F: Field>(a: F, b: F, c: F)
    ensures
        a * (b - c) == a * b - a * c,
        (b - c) * a == b * a - c * a,
{
    F::law_sub(b, c);
    F::law_distrib(a, b, c.spec_neg());
    neg_mul(a, c);
    F::law_sub(a * b, a * c);
    F::law_mul_comm(a, b - c);
    F::law_mul_comm(a, b);
    F::law_mul_comm(a, c);
}

/// `-(a + b) == -a + -b`.
pub proof fn neg_add<F: Field>(a: F, b: F)
    ensures
        (a + b).spec_neg() == a.spec_neg() + b.spec_neg(),
{
    let s = a + b;
    let n = a.spec_neg() + b.spec_neg();
    F::law_sub(a, a);
    F::law_sub(b, b);
    F::law_sub(s, s);
    add_four(a, b, a.spec_neg(), b.spec_neg());
    F::law_valid(F::zero(), F::zero());
    F::law_add_zero(F::zero());
    F::law_valid(s, s);
    F::law_valid(a.spec_neg(), b.spec_neg());
    F::law_add_comm(s, n);
    F::law_add_comm(s, s.spec_neg());
    add_cancel(n, s.spec_neg(), s);
}

/// `(a + b) - (c + d) == (a - c) + (b - d)`.
pub proof fn sub_four<F: Field>(a: F, b: F, c: F, d: F)
    ensures
        (a + b) - (c + d) == (a - c) + (b - d),
{
    F::law_sub(a + b, c + d);
    neg_add(c, d);
    F::law_sub(a, c);
    F::law_sub(b, d);
    add_four(a, b, c.spec_neg(), d.spec_neg());
}

/// The value at `r` of the line through `(0, a)` and `(1, b)`.
pub open spec fn lerp<F: Field>(a: F, b: F, r: F) -> F {
    a + r * (b - a)
}

/// A line is also the weighted mean of its two ends.
pub proof fn lerp_weighted<F: Field>(a: F, b: F, r: F)
    requires
        a.valid(),
    ensures
        lerp(a, b, r) == (F::one() - r) * a + r * b,
        lerp(a, b, r) == a + (b - a) * r,
{
    broadcast use group_valid;

    sub_distrib(r, b, a);
    sub_distrib(a, F::one(), r);
    one_mul(a);
    F::law_mul_comm(r, b - a);
    // a + (r b - r a) == (a - r a) + r b
    F::law_sub(r * b, r * a);
    F::law_sub(a, r * a);
    F::law_add_comm(r * b, (r * a).spec_neg());
    F::law_add_assoc(a, (r * a).spec_neg(), r * b);
}

pub proof fn lerp_ends<F: Field>(a: F, b: F)
    requires
        a.valid(),
        b.valid(),
    ensures
        lerp(a, b, F::zero()) == a,
        lerp(a, b, F::one()) == b,
{
    F::law_valid(b, a);
    mul_zero(b - a);
    zero_add(a);
    one_mul(b - a);
    sub_add(b, a);
}

pub proof fn lerp_add<F: Field>(a: F, b: F, c: F, d: F, r: F)
    ensures
        lerp(a, b, r) + lerp(c, d, r) == lerp(a + c, b + d, r),
{
    add_four(a, r * (b - a), c, r * (d - c));
    F::law_distrib(r, b - a, d - c);
    sub_four(b, d, a, c);
}

pub proof fn lerp_scale<F: Field>(k: F, a: F, b: F, r: F)
    ensures
        k * lerp(a, b, r) == lerp(k * a, k * b, r),
{
    F::law_distrib(k, a, r * (b - a));
    mul_swap(k, r, b - a);
    sub_distrib(k, b, a);
}

/// `sum_{i < n} f(i)`.
pub open spec fn sum<F: Field>(n: nat, f: spec_fn(int) -> F) -> F
    decreases n,
{
    if n == 0 {
        F::zero()
    } else {
        sum((n - 1) as nat, f) + f(n - 1)
    }
}

pub proof fn sum_valid<F: Field>(n: nat, f: spec_fn(int) -> F)
    ensures
        sum(n, f).valid(),
{
    F::law_valid(F::zero(), F::zero());
    if n > 0 {
        F::law_valid(sum((n - 1) as nat, f), f(n - 1));
    }
}

pub proof fn sum_ext<F: Field>(n: nat, f: spec_fn(int) -> F, g: spec_fn(int) -> F)
    requires
        forall|i: int| 0 <= i < n ==> #[trigger] f(i) == g(i),
    ensures
        sum(n, f) == sum(n, g),
    decreases n,
{
    if n > 0 {
        sum_ext((n - 1) as nat, f, g);
        assert(f(n - 1) == g(n - 1));
    }
}

pub proof fn sum_add<F: Field>(n: nat, f: spec_fn(int) -> F, g: spec_fn(int) -> F)
    ensures
        sum(n, |i: int| f(i) + g(i)) == sum(n, f) + sum(n, g),
    decreases n,
{
    if n == 0 {
        F::law_valid(F::zero(), F::zero());
        F::law_add_zero(F::zero());
    } else {
        let m = (n - 1) as nat;
        sum_add(m, f, g);
        add_four(sum(m, f), sum(m, g), f(n - 1), g(n - 1));
    }
}

pub proof fn sum_sub<F: Field>(n: nat, f: spec_fn(int) -> F, g: spec_fn(int) -> F)
    ensures
        sum(n, |i: int| f(i) - g(i)) == sum(n, f) - sum(n, g),
    decreases n,
{
    if n == 0 {
        sub_self(F::zero());
    } else {
        let m = (n - 1) as nat;
        sum_sub(m, f, g);
        sub_four(sum(m, f), f(n - 1), sum(m, g), g(n - 1));
    }
}

pub proof fn sum_scale<F: Field>(n: nat, c: F, f: spec_fn(int) -> F)
    ensures
        sum(n, |i: int| c * f(i)) == c * sum(n, f),
    decreases n,
{
    if n == 0 {
        mul_zero(c);
    } else {
        sum_scale((n - 1) as nat, c, f);
        F::law_distrib(c, sum((n - 1) as nat, f), f(n - 1));
    }
}

pub proof fn sum_zero<F: Field>(n: nat, f: spec_fn(int) -> F)
    requires
        forall|i: int| 0 <= i < n ==> #[trigger] f(i) == F::zero(),
    ensures
        sum(n, f) == F::zero(),
    decreases n,
{
    if n > 0 {
        sum_zero((n - 1) as nat, f);
        F::law_valid(F::zero(), F::zero());
        F::law_add_zero(F::zero());
        assert(f(n - 1) == F::zero());
    }
}

/// A sum with a single nonzero term.
pub proof fn sum_single<F: Field>(n: nat, j: int, f: spec_fn(int) -> F)
    requires
        0 <= j < n,
        f(j).valid(),
        forall|i: int| 0 <= i < n && i != j ==> #[trigger] f(i) == F::zero(),
    ensures
        sum(n, f) == f(j),
    decreases n,
{
    let m = (n - 1) as nat;
    if j == n - 1 {
        sum_zero(m, f);
        zero_add(f(j));
    } else {
        sum_single(m, j, f);
        assert(f(n - 1) == F::zero());
        F::law_add_zero(f(j));
    }
}

pub proof fn sum_split<F: Field>(m: nat, n: nat, f: spec_fn(int) -> F)
    ensures
        sum(m + n, f) == sum(m, f) + sum(n, |i: int| f(m + i)),
    decreases n,
{
    let g = |i: int| f(m + i);
    if n == 0 {
        sum_valid(m, f);
        F::law_add_zero(sum(m, f));
    } else {
        sum_split(m, (n - 1) as nat, f);
        F::law_add_assoc(sum(m, f), sum((n - 1) as nat, g), g(n - 1));
        assert((m + n - 1) as nat == m + (n - 1) as nat);
    }
}

/// Grouping consecutive pairs.
pub proof fn sum_pairs<F: Field>(n: nat, f: spec_fn(int) -> F)
    ensures
        sum(2 * n, f) == sum(n, |i: int| f(2 * i) + f(2 * i + 1)),
    decreases n,
{
    if n > 0 {
        let m = (n - 1) as nat;
        sum_pairs(m, f);
        assert((2 * n - 1) as nat == 2 * m + 1);
        assert((2 * n - 2) as nat == 2 * m);
        assert(sum(2 * n, f) == sum((2 * n - 1) as nat, f) + f(2 * n - 1));
        assert(sum((2 * n - 1) as nat, f) == sum((2 * n - 2) as nat, f) + f(2 * n - 2));
        F::law_add_assoc(sum(2 * m, f), f(2 * n - 2), f(2 * n - 1));
    }
}

/// Adding up the two halves.
pub proof fn sum_halves<F: Field>(n: nat, f: spec_fn(int) -> F)
    ensures
        sum(2 * n, f) == sum(n, |i: int| f(i) + f(i + n)),
{
    sum_split(n, n, f);
    let g = |i: int| f(n + i);
    sum_add(n, f, g);
    assert(n + n == 2 * n);
    sum_ext(n, |i: int| f(i) + g(i), |i: int| f(i) + f(i + n));
}

/// Exchanging the order of a double sum.
pub proof fn sum_swap<F: Field>(m: nat, n: nat, f: spec_fn(int, int) -> F)
    ensures
        sum(m, |i: int| sum(n, |j: int| f(i, j))) == sum(n, |j: int| sum(m, |i: int| f(i, j))),
    decreases m,
{
    let inner = |i: int| sum(n, |j: int| f(i, j));
    let outer = |j: int| sum(m, |i: int| f(i, j));
    if m == 0 {
        sum_zero(n, outer);
    } else {
        let k = (m - 1) as nat;
        sum_swap(k, n, f);
        let rest = |j: int| sum(k, |i: int| f(i, j));
        let last = |j: int| f(m - 1, j);
        sum_add(n, rest, last);
        sum_ext(n, outer, |j: int| rest(j) + last(j));
    }
}

/// `prod_{i < n} f(i)`.
pub open spec fn prod<F: Field>(n: nat, f: spec_fn(int) -> F) -> F
    decreases n,
{
    if n == 0 {
        F::one()
    } else {
        prod((n - 1) as nat, f) * f(n - 1)
    }
}

pub proof fn prod_valid<F: Field>(n: nat, f: spec_fn(int) -> F)
    ensures
        prod(n, f).valid(),
{
    F::law_valid(F::zero(), F::zero());
    if n > 0 {
        F::law_valid(prod((n - 1) as nat, f), f(n - 1));
    }
}

pub proof fn prod_ext<F: Field>(n: nat, f: spec_fn(int) -> F, g: spec_fn(int) -> F)
    requires
        forall|i: int| 0 <= i < n ==> #[trigger] f(i) == g(i),
    ensures
        prod(n, f) == prod(n, g),
    decreases n,
{
    if n > 0 {
        prod_ext((n - 1) as nat, f, g);
        assert(f(n - 1) == g(n - 1));
    }
}

pub proof fn prod_mul<F: Field>(n: nat, f: spec_fn(int) -> F, g: spec_fn(int) -> F)
    ensures
        prod(n, |i: int| f(i) * g(i)) == prod(n, f) * prod(n, g),
    decreases n,
{
    if n == 0 {
        F::law_valid(F::zero(), F::zero());
        one_mul(F::one());
    } else {
        let m = (n - 1) as nat;
        prod_mul(m, f, g);
        mul_four(prod(m, f), prod(m, g), f(n - 1), g(n - 1));
    }
}

/// A product taken in pairs.
pub proof fn prod_pairs<F: Field>(n: nat, f: spec_fn(int) -> F)
    ensures
        prod(2 * n, f) == prod(n, |i: int| f(2 * i) * f(2 * i + 1)),
    decreases n,
{
    if n > 0 {
        let m = (n - 1) as nat;
        prod_pairs(m, f);
        assert((2 * n - 1) as nat == 2 * m + 1);
        assert((2 * n - 2) as nat == 2 * m);
        assert(prod(2 * n, f) == prod((2 * n - 1) as nat, f) * f(2 * n - 1));
        assert(prod((2 * n - 1) as nat, f) == prod((2 * n - 2) as nat, f) * f(2 * n - 2));
        F::law_mul_assoc(prod(2 * m, f), f(2 * n - 2), f(2 * n - 1));
    }
}

/// One factor taken out of a product.
pub proof fn prod_except<F: Field>(n: nat, i: int, f: spec_fn(int) -> F, g: spec_fn(int) -> F)
    requires
        0 <= i < n,
        g(i) == F::one(),
        forall|j: int| 0 <= j < n && j != i ==> #[trigger] f(j) == g(j),
    ensures
        prod(n, f) == f(i) * prod(n, g),
    decreases n,
{
    let m = (n - 1) as nat;
    if i == m {
        prod_ext(m, f, g);
        prod_valid(m, g);
        one_mul(prod(m, g));
        F::law_mul_comm(prod(m, g), f(i));
    } else {
        prod_except(m, i, f, g);
        assert(f(n - 1) == g(n - 1));
        F::law_mul_assoc(f(i), prod(m, g), g(n - 1));
    }
}

/// A product with a vanishing factor vanishes.
pub proof fn prod_zero<F: Field>(n: nat, j: int, f: spec_fn(int) -> F)
    requires
        0 <= j < n,
        f(j) == F::zero(),
    ensures
        prod(n, f) == F::zero(),
    decreases n,
{
    if j == n - 1 {
        mul_zero(prod((n - 1) as nat, f));
    } else {
        prod_zero((n - 1) as nat, j, f);
        mul_zero(f(n - 1));
    }
}

/// A product of nonzero canonical elements is nonzero.
pub proof fn mul_nonzero<F: Field>(a: F, b: F)
    requires
        a.valid(),
        b.valid(),
        a != F::zero(),
        b != F::zero(),
    ensures
        a * b != F::zero(),
{
    if a * b == F::zero() {
        F::law_inv(a);
        F::law_mul_assoc(a.inv(), a, b);
        F::law_mul_comm(a.inv(), a);
        one_mul(b);
        mul_zero(a.inv());
    }
}

pub proof fn prod_nonzero<F: Field>(n: nat, f: spec_fn(int) -> F)
    requires
        forall|i: int| 0 <= i < n ==> (#[trigger] f(i)).valid() && f(i) != F::zero(),
    ensures
        prod(n, f) != F::zero(),
    decreases n,
{
    F::law_nontrivial();
    if n > 0 {
        prod_nonzero((n - 1) as nat, f);
        prod_valid((n - 1) as nat, f);
        assert(f(n - 1).valid());
        mul_nonzero(prod((n - 1) as nat, f), f(n - 1));
    }
}

/// Multiplication by a value other than zero can be cancelled.
pub proof fn mul_cancel<F: Field>(a: F, b: F, c: F)
    requires
        a.valid(),
        b.valid(),
        c.valid(),
        c != F::zero(),
        a * c == b * c,
    ensures
        a == b,
{
    F::law_inv(c);
    F::law_mul_assoc(a, c, c.inv());
    F::law_mul_assoc(b, c, c.inv());
    F::law_mul_one(a);
    F::law_mul_one(b);
}

/// Two sums that are equal, with terms that agree everywhere else, agree in the
/// remaining term.
pub proof fn sum_changed<F: Field>(n: nat, j: int, f: spec_fn(int) -> F, g: spec_fn(int) -> F)
    requires
        0 <= j < n,
        f(j).valid(),
        g(j).valid(),
        forall|i: int| 0 <= i < n && i != j ==> #[trigger] f(i) == g(i),
        sum(n, f) == sum(n, g),
    ensures
        f(j) == g(j),
{
    let h = |i: int| f(i) - g(i);
    sum_sub(n, f, g);
    assert forall|i: int| 0 <= i < n && i != j implies #[trigger] h(i) == F::zero() by {
        assert(f(i) == g(i));
        sub_self(f(i));
    }
    F::law_valid(f(j), g(j));
    sum_single(n, j, h);
    sub_self(sum(n, f));
    sub_zero(f(j), g(j));
}

} // verus!
