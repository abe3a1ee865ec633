//! Congruences, greatest common divisors and primes: the facts about integers
//! on which the field and the curve rest.

use vstd::prelude::*;
use vstd::arithmetic::div_mod::*;
use vstd::arithmetic::mul::*;

verus! {

/// `a` and `b` leave the same remainder modulo `p`.
pub open spec fn cong(a: int, b: int, p: int) -> bool {
    a % p == b % p
}

/// `p` is a prime number.
pub open spec fn is_prime(p: int) -> bool {
    p >= 2 && forall|d: int| 1 < d < p ==> #[trigger] (p % d) != 0
}

/// Greatest common divisor, by Euclid's recursion.
pub open spec fn gcd(a: int, b: int) -> int
    decreases b,
{
    if b <= 0 {
        a
    } else {
        gcd(b, a % b)
    }
}

/// The coefficient that Euclid's extended recursion carries for its first
/// remainder: from remainders `r0`, `r1` with coefficients `s0`, `s1` to the
/// coefficient of the last remainder that is not zero.
pub open spec fn euclid_coeff(r0: int, r1: int, s0: int, s1: int) -> int
    decreases r1,
{
    if r1 <= 0 {
        s0
    } else {
        euclid_coeff(r1, r0 % r1, s1, s0 - (r0 / r1) * s1)
    }
}

/// The inverse of `a` modulo `p` as the extended Euclidean algorithm on
/// `(a, p)` yields it: a number `x` below `p` with `a * x` congruent to
/// `gcd(a, p)`.
pub open spec fn inv_mod(a: int, p: int) -> int {
    euclid_coeff(a, p, 1, 0) % p
}

pub proof fn lemma_cong_add(a: int, b: int, c: int, d: int, p: int)
    requires
        p > 0,
        cong(a, b, p),
        cong(c, d, p),
    ensures
        cong(a + c, b + d, p),
{
    lemma_add_mod_noop(a, c, p);
    lemma_add_mod_noop(b, d, p);
}

pub proof fn lemma_cong_sub(a: int, b: int, c: int, d: int, p: int)
    requires
        p > 0,
        cong(a, b, p),
        cong(c, d, p),
    ensures
        cong(a - c, b - d, p),
{
    lemma_sub_mod_noop(a, c, p);
    lemma_sub_mod_noop(b, d, p);
}

pub proof fn lemma_cong_mul(a: int, b: int, c: int, d: int, p: int)
    requires
        p > 0,
        cong(a, b, p),
        cong(c, d, p),
    ensures
        cong(a * c, b * d, p),
{
    lemma_mul_mod_noop(a, c, p);
    lemma_mul_mod_noop(b, d, p);
}

pub proof fn lemma_cong_mod(a: int, p: int)
    requires
        p > 0,
    ensures
        cong(a % p, a, p),
{
    lemma_mod_twice(a, p);
}

/// A multiple of `p` leaves no remainder.
pub proof fn lemma_multiple_cong_zero(k: int, p: int)
    requires
        p > 0,
    ensures
        (k * p) % p == 0,
        (p * k) % p == 0,
{
    lemma_mod_multiples_basic(k, p);
    lemma_mul_is_commutative(k, p);
}

/// What leaves no remainder is a multiple.
pub proof fn lemma_zero_mod_is_multiple(x: int, p: int)
    requires
        p > 0,
        x % p == 0,
    ensures
        x == p * (x / p),
{
    lemma_fundamental_div_mod(x, p);
}

/// Sums and multiples of multiples of `p` are multiples of `p`.
pub proof fn lemma_divisible_combination(x: int, y: int, q: int, p: int)
    requires
        p > 0,
        x % p == 0,
        y % p == 0,
    ensures
        (x - q * y) % p == 0,
        (x + q * y) % p == 0,
{
    lemma_zero_mod_is_multiple(x, p);
    lemma_zero_mod_is_multiple(y, p);
    let u = x / p;
    let v = y / p;
    assert(x - q * y == (u - q * v) * p) by (nonlinear_arith)
        requires
            x == p * u,
            y == p * v,
    ;
    assert(x + q * y == (u + q * v) * p) by (nonlinear_arith)
        requires
            x == p * u,
            y == p * v,
    ;
    lemma_multiple_cong_zero(u - q * v, p);
    lemma_multiple_cong_zero(u + q * v, p);
}

pub proof fn lemma_gcd_positive(a: int, b: int)
    requires
        a >= 0,
        b >= 0,
        a > 0 || b > 0,
    ensures
        gcd(a, b) > 0,
    decreases b,
{
    if b != 0 {
        lemma_mod_bound(a, b);
        lemma_gcd_positive(b, a % b);
    }
}

/// The greatest common divisor divides both of its arguments.
pub proof fn lemma_gcd_divides(a: int, b: int)
    requires
        a >= 0,
        b >= 0,
        a > 0 || b > 0,
    ensures
        a % gcd(a, b) == 0,
        b % gcd(a, b) == 0,
    decreases b,
{
    lemma_gcd_positive(a, b);
    let g = gcd(a, b);
    if b == 0 {
        lemma_mod_self_0(a);
    } else {
        lemma_mod_bound(a, b);
        lemma_gcd_divides(b, a % b);
        // a = b * (a / b) + a % b, and g divides both summands
        lemma_fundamental_div_mod(a, b);
        lemma_divisible_combination(a % b, b, a / b, g);
        assert((a % b) + (a / b) * b == a) by (nonlinear_arith)
            requires
                a == b * (a / b) + (a % b),
        ;
    }
}

/// A prime shares no divisor with a number that it does not divide.
pub proof fn lemma_gcd_prime(a: int, p: int)
    requires
        is_prime(p),
        a >= 0,
        a % p != 0,
    ensures
        gcd(a, p) == 1,
{
    lemma_gcd_positive(a, p);
    lemma_gcd_divides(a, p);
    let g = gcd(a, p);
    if g != 1 {
        if g < p {
            assert(p % g != 0);
        } else {
            if g > p {
                lemma_small_mod(p as nat, g as nat);
            }
            assert(g == p);
        }
    }
}

/// The coefficient that `euclid_coeff` ends with turns `a` into the greatest
/// common divisor of the two remainders, modulo `p`, if the coefficients it
/// started from did so for the remainders themselves.
pub proof fn lemma_euclid_coeff(r0: int, r1: int, s0: int, s1: int, a: int, p: int)
    requires
        p > 0,
        r0 >= 0,
        r1 >= 0,
        (s0 * a - r0) % p == 0,
        (s1 * a - r1) % p == 0,
    ensures
        (euclid_coeff(r0, r1, s0, s1) * a - gcd(r0, r1)) % p == 0,
    decreases r1,
{
    if r1 != 0 {
        let q = r0 / r1;
        let r2 = r0 % r1;
        let s2 = s0 - q * s1;
        lemma_mod_bound(r0, r1);
        lemma_fundamental_div_mod(r0, r1);
        lemma_divisible_combination(s0 * a - r0, s1 * a - r1, q, p);
        assert(s2 * a - r2 == (s0 * a - r0) - q * (s1 * a - r1)) by (nonlinear_arith)
            requires
                s2 == s0 - q * s1,
                r0 == r1 * q + r2,
        ;
        lemma_euclid_coeff(r1, r2, s1, s2, a, p);
    }
}

/// `inv_mod(a, p)` lies below `p`, and its product with `a` is congruent to
/// `gcd(a, p)`.
pub proof fn lemma_inv_mod(a: int, p: int)
    requires
        p > 0,
        a >= 0,
    ensures
        0 <= inv_mod(a, p) < p,
        cong(a * inv_mod(a, p), gcd(a, p), p),
{
    let pi = p;
    let e = euclid_coeff(a, p, 1, 0);
    lemma_mod_bound(e, pi);
    lemma_small_mod(0, p as nat);
    assert(1 * a - a == 0);
    assert(0 * a == 0);
    lemma_mod_self_0(pi);
    assert((0 * a - p) % pi == 0) by {
        lemma_mod_multiples_basic(-1, pi);
    }
    lemma_euclid_coeff(a, p, 1, 0, a, pi);
    lemma_mod_equivalence(e * a, gcd(a, p), pi);
    lemma_mul_mod_noop_left(e, a, pi);
    lemma_mul_is_commutative(a, inv_mod(a, p));
}

/// Modulo a prime, `inv_mod` inverts whatever the prime does not divide.
pub proof fn lemma_inv_mod_prime(a: int, p: int)
    requires
        is_prime(p),
        a >= 0,
        a % p != 0,
    ensures
        0 <= inv_mod(a, p) < p,
        (a * inv_mod(a, p)) % p == 1,
{
    lemma_inv_mod(a, p);
    lemma_gcd_prime(a, p);
    lemma_small_mod(1, p as nat);
}

/// Euclid's lemma: a prime that divides a product divides one of the factors.
pub proof fn lemma_prime_divides_product(x: int, y: int, p: int)
    requires
        is_prime(p),
        (x * y) % p == 0,
    ensures
        x % p == 0 || y % p == 0,
{
    if x % p != 0 {
        lemma_mod_bound(x, p);
        let xr = x % p;
        lemma_mod_twice(x, p);
        lemma_inv_mod_prime(xr, p);
        let i = inv_mod(xr, p);
        // y == y * 1 == y * (x * i) == (x * y) * i == 0, all modulo p
        lemma_mul_mod_noop_left(x, i, p);
        assert((x * i) % p == 1);
        lemma_mul_mod_noop_right(y, x * i, p);
        assert((y * (x * i)) % p == (y * 1) % p);
        assert(y * (x * i) == (x * y) * i) by (nonlinear_arith);
        lemma_mul_mod_noop_left(x * y, i, p);
        assert(((x * y) * i) % p == (0 * i) % p);
        assert(0 * i == 0);
        lemma_small_mod(0, p as nat);
    }
}

/// What divides a divisor divides the number.
pub proof fn lemma_divides_transitive(a: int, b: int, c: int)
    requires
        a > 0,
        b > 0,
        b % a == 0,
        c % b == 0,
    ensures
        c % a == 0,
{
    lemma_zero_mod_is_multiple(b, a);
    lemma_zero_mod_is_multiple(c, b);
    let u = b / a;
    let v = c / b;
    assert(c == (u * v) * a) by (nonlinear_arith)
        requires
            b == a * u,
            c == b * v,
    ;
    lemma_multiple_cong_zero(u * v, a);
}

/// The quotient by a divisor is a divisor too, and the two multiply to the
/// number.
pub proof fn lemma_quotient_divides(n: int, f: int)
    requires
        n > 0,
        f > 0,
        n % f == 0,
    ensures
        n == f * (n / f),
        1 <= n / f <= n,
        n % (n / f) == 0,
{
    lemma_zero_mod_is_multiple(n, f);
    let e = n / f;
    assert(1 <= e <= n) by (nonlinear_arith)
        requires
            n == f * e,
            n > 0,
            f > 0,
    ;
    lemma_multiple_cong_zero(f, e);
}

/// The least divisor above 1 of a number is a prime.
pub proof fn lemma_least_divisor_is_prime(f: int, n: int)
    requires
        n > 0,
        f >= 2,
        n % f == 0,
        forall|d: int| 2 <= d < f ==> #[trigger] (n % d) != 0,
    ensures
        is_prime(f),
{
    assert forall|d: int| 1 < d < f implies #[trigger] (f % d) != 0 by {
        if f % d == 0 {
            lemma_divides_transitive(d, f, n);
            assert(n % d == 0);
        }
    }
}

/// A number above 1 without a divisor from 2 up to its square root is a
/// prime.
pub proof fn lemma_no_divisor_to_root_is_prime(n: int, f: int)
    requires
        n > 1,
        f >= 2,
        f * f > n,
        forall|d: int| 2 <= d < f ==> #[trigger] (n % d) != 0,
    ensures
        is_prime(n),
{
    assert forall|d: int| 1 < d < n implies #[trigger] (n % d) != 0 by {
        if n % d == 0 {
            lemma_quotient_divides(n, d);
            let e = n / d;
            if d >= f {
                assert(e < f && e >= 2) by (nonlinear_arith)
                    requires
                        n == d * e,
                        d >= f,
                        f * f > n,
                        d < n,
                        e >= 1,
                        f >= 2,
                ;
                assert(n % e != 0);
            }
        }
    }
}

/// A prime that divides the product of another prime and a number divides
/// the number.
pub proof fn lemma_prime_divides_cofactor(q: int, f: int, m: int)
    requires
        is_prime(q),
        is_prime(f),
        q != f,
        (f * m) % q == 0,
    ensures
        m % q == 0,
{
    lemma_prime_divides_product(f, m, q);
    if f % q == 0 {
        if q < f {
            assert(f % q != 0);
        } else {
            lemma_small_mod(f as nat, q as nat);
        }
    }
}

/// Every number above 1 has a prime factor.
pub proof fn lemma_prime_factor_exists(e: int) -> (q: int)
    requires
        e > 1,
    ensures
        is_prime(q),
        q <= e,
        e % q == 0,
{
    lemma_least_divisor_from(e, 2)
}

/// The least divisor of `e` from `f` on, if `e` has no divisor from 2 up to
/// `f`, is a prime.
proof fn lemma_least_divisor_from(e: int, f: int) -> (q: int)
    requires
        e > 1,
        2 <= f <= e,
        forall|d: int| 2 <= d < f ==> #[trigger] (e % d) != 0,
    ensures
        is_prime(q),
        q <= e,
        e % q == 0,
    decreases e - f,
{
    if e % f == 0 {
        lemma_least_divisor_is_prime(f, e);
        f
    } else {
        if f == e {
            lemma_mod_self_0(e);
        }
        lemma_least_divisor_from(e, f + 1)
    }
}

/// Whether `p` is a prime, by trial division up to its square root.
pub fn is_prime_number(p: u64) -> (r: bool)
    ensures
        r == is_prime(p as int),
{
    if p < 2 {
        return false;
    }
    let mut f: u64 = 2;
    while f <= p / f
        invariant
            2 <= f,
            2 <= p,
            forall|d: int| 2 <= d < f ==> #[trigger] (p as int % d) != 0,
        decreases p - f,
    {
        proof {
            assert(f * f <= p && 2 * f <= p) by (nonlinear_arith)
                requires
                    f <= p / f,
                    f >= 2,
            ;
        }
        if p % f == 0 {
            return false;
        }
        f = f + 1;
    }
    proof {
        assert((f as int) * (f as int) > p) by (nonlinear_arith)
            requires
                f > p / f,
                f >= 2,
        ;
        lemma_no_divisor_to_root_is_prime(p as int, f as int);
    }
    true
}

} // verus!
