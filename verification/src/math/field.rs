//! Arithmetic modulo a 64-bit modulus, carried out on 128-bit intermediates.

use vstd::prelude::*;
use vstd::arithmetic::div_mod::*;
use vstd::arithmetic::mul::*;
use vstd::arithmetic::power::*;
use vstd::arithmetic::power2::{pow2, lemma_pow2_adds, lemma_pow2_pos, lemma_pow2_unfold, lemma2_to64};
use vstd::bits::{lemma_u64_pow2_no_overflow, lemma_u64_shl_is_mul};
use crate::math::fermat::lemma_euler_values;
use crate::math::number_theory::{
    cong, euclid_coeff, gcd, inv_mod, is_prime, lemma_cong_mod, lemma_cong_mul, lemma_inv_mod,
    lemma_prime_divides_product,
};
use crate::math::residues::{
    is_square_mod, lemma_euler_criterion, lemma_least_non_residue, lemma_non_residue_exists,
};

verus! {

/// `base` to the power `exp`, reduced modulo `p`.
pub open spec fn pow_mod(base: int, exp: nat, p: int) -> int {
    pow(base, exp) % p
}

/// Euler's criterion for `a` modulo `p`: `a` to the power `(p - 1) / 2`.
pub open spec fn euler(a: int, p: int) -> int {
    pow_mod(a, ((p - 1) / 2) as nat, p)
}

/// What is left of `n` when every factor 2 is taken out.
pub open spec fn odd_part(n: int) -> int
    decreases n,
{
    if n <= 0 || n % 2 != 0 {
        n
    } else {
        odd_part(n / 2)
    }
}

/// How many factors 2 the number `n` holds.
pub open spec fn two_adicity(n: int) -> nat
    decreases n,
{
    if n <= 0 || n % 2 != 0 {
        0
    } else {
        1 + two_adicity(n / 2)
    }
}

/// The least `w` with `z <= w <= p` whose Euler criterion is `p - 1`, or
/// `p + 1` if there is none.
pub open spec fn least_non_residue_from(z: int, p: int) -> int
    decreases p + 1 - z,
{
    if z > p {
        z
    } else if euler(z, p) == p - 1 {
        z
    } else {
        least_non_residue_from(z + 1, p)
    }
}

/// How often `t` has to be squared modulo `p` until 1 comes out, counting at
/// most `limit` squarings.
pub open spec fn squarings_to_one(t: int, p: int, limit: nat) -> nat
    decreases limit,
{
    if limit == 0 || t == 1 {
        0
    } else {
        1 + squarings_to_one((t * t) % p, p, (limit - 1) as nat)
    }
}

/// The root that the Tonelli-Shanks iteration reaches from the state
/// `(m, c, t, r)`: while `t` is not 1, with `i` the number of squarings that
/// take `t` to 1 and `b = c^(2^(m - i - 1))`, the state becomes
/// `(i, b^2, t * b^2, r * b)`.
pub open spec fn tonelli_shanks(m: nat, c: int, t: int, r: int, p: int) -> int
    decreases m,
{
    let i = squarings_to_one(t, p, m);
    if t == 1 || i >= m {
        r
    } else {
        let b = pow_mod(c, pow2((m - i - 1) as nat), p);
        let c2 = (b * b) % p;
        tonelli_shanks(i, c2, (t * c2) % p, (r * b) % p, p)
    }
}

/// The square root of `a` modulo the prime `p` that `mod_sqrt` computes:
/// none for a number that fails Euler's criterion; for `p = 3 mod 4` the
/// power `a^((p + 1) / 4)`; else, with `p - 1 = q * 2^s` and `z` the least
/// number with the criterion `p - 1`, what the Tonelli-Shanks iteration
/// reaches from `(s, z^q, a^q, a^((q + 1) / 2))`.
pub open spec fn sqrt_mod(a: int, p: int) -> Option<int> {
    if a == 0 {
        Some(0)
    } else if euler(a, p) != 1 {
        None
    } else if p % 4 == 3 {
        Some(pow_mod(a, ((p + 1) / 4) as nat, p))
    } else {
        let z = least_non_residue_from(2, p);
        let q = odd_part(p - 1);
        Some(
            tonelli_shanks(
                two_adicity(p - 1),
                pow_mod(z, q as nat, p),
                pow_mod(a, q as nat, p),
                pow_mod(a, ((q + 1) / 2) as nat, p),
                p,
            ),
        )
    }
}

/// Absolute value.
pub open spec fn abs(x: int) -> int {
    if x < 0 {
        -x
    } else {
        x
    }
}

/// Sum of `a` and `b` modulo `p`.
pub fn mod_add(a: u64, b: u64, p: u64) -> (r: u64)
    requires
        p > 0,
    ensures
        r == (a + b) % (p as int),
        r < p,
{
    ((a as u128 + b as u128) % (p as u128)) as u64
}

/// Difference of `a` and `b` modulo `p`.
///
/// The subtraction is carried out as `a + p - b`, so `b` may exceed `a` by at
/// most `p`.
pub fn mod_sub(a: u64, b: u64, p: u64) -> (r: u64)
    requires
        p > 0,
        b <= a + p,
    ensures
        r == (a - b) % (p as int),
        r < p,
{
    proof {
        lemma_mod_add_multiples_vanish(a - b, p as int);
    }
    ((a as u128 + p as u128 - b as u128) % (p as u128)) as u64
}

/// Product of `a` and `b` modulo `p`.
pub fn mod_mul(a: u64, b: u64, p: u64) -> (r: u64)
    requires
        p > 0,
    ensures
        r == (a * b) % (p as int),
        r < p,
{
    assert(a * b <= 0xffff_ffff_ffff_ffff * 0xffff_ffff_ffff_ffff) by (nonlinear_arith)
        requires
            a <= 0xffff_ffff_ffff_ffff,
            b <= 0xffff_ffff_ffff_ffff,
    ;
    ((a as u128 * b as u128) % (p as u128)) as u64
}

/// One round of square-and-multiply keeps `acc * b^e` unchanged modulo `p`.
proof fn lemma_pow_mod_step(acc: int, b: int, e: nat, p: int)
    requires
        p > 0,
        e > 0,
    ensures
        e % 2 == 1 ==> cong(((acc * b) % p) * pow((b * b) % p, e / 2), acc * pow(b, e), p),
        e % 2 == 0 ==> cong(acc * pow((b * b) % p, e / 2), acc * pow(b, e), p),
{
    let h = e / 2;
    // pow(b * b, h) == pow(b, 2 * h)
    lemma_square_is_pow2(b);
    lemma_pow_multiplies(b, 2, h);
    lemma_pow_mod_noop(b * b, h, p);
    assert(cong(pow((b * b) % p, h), pow(b, 2 * h), p));
    if e % 2 == 1 {
        assert(e == 2 * h + 1);
        lemma_pow_adds(b, 2 * h, 1);
        lemma_pow1(b);
        lemma_cong_mod(acc * b, p);
        lemma_cong_mul((acc * b) % p, acc * b, pow((b * b) % p, h), pow(b, 2 * h), p);
        assert((acc * b) * pow(b, 2 * h) == acc * (pow(b, 2 * h) * b)) by (nonlinear_arith);
    } else {
        assert(e == 2 * h);
        lemma_cong_mul(acc, acc, pow((b * b) % p, h), pow(b, 2 * h), p);
    }
}

/// `base` to the power `exp` modulo `p`, by square-and-multiply.
pub fn mod_pow(base: u64, exp: u64, p: u64) -> (r: u64)
    requires
        p > 0,
    ensures
        r == pow_mod(base as int, exp as nat, p as int),
        r < p,
{
    if p == 1 {
        return 0;
    }
    let m: u128 = p as u128;
    let mut result: u128 = 1;
    let mut b: u128 = (base % p) as u128;
    let mut e: u64 = exp;
    proof {
        lemma_pow_mod_noop(base as int, exp as nat, p as int);
        lemma_small_mod(1, p as nat);
        lemma_mul_basics(pow(b as int, e as nat));
    }
    while e > 0
        invariant
            m == p,
            p > 1,
            result < m,
            b < m,
            cong(result * pow(b as int, e as nat), pow(base as int, exp as nat), p as int),
        decreases e,
    {
        proof {
            lemma_pow_mod_step(result as int, b as int, e as nat, p as int);
            assert(result * b <= 0xffff_ffff_ffff_ffff * 0xffff_ffff_ffff_ffff && b * b
                <= 0xffff_ffff_ffff_ffff * 0xffff_ffff_ffff_ffff) by (nonlinear_arith)
                requires
                    result <= 0xffff_ffff_ffff_ffff,
                    b <= 0xffff_ffff_ffff_ffff,
            ;
        }
        if e % 2 == 1 {
            result = result * b % m;
        }
        e = e / 2;
        b = b * b % m;
    }
    proof {
        lemma_pow0(b as int);
        lemma_small_mod(result as nat, p as nat);
    }
    result as u64
}

/// Inverse of `a` modulo `p`, by the extended Euclidean algorithm.
///
/// For `a` prime to `p` the result is the inverse. In general its product
/// with `a` is congruent to `gcd(a, p)`.
pub fn mod_inv(a: u64, p: u64) -> (r: u64)
    requires
        p > 0,
        a % p != 0,
    ensures
        r == inv_mod(a as int, p as int),
        r < p,
        cong(a * r, gcd(a as int, p as int), p as int),
        gcd(a as int, p as int) == 1 ==> (a * r) % (p as int) == 1int % (p as int),
{
    let mut old_r: u64 = a;
    let mut r: u64 = p;
    let mut old_s: i128 = 1;
    let mut s: i128 = 0;
    proof {
        lemma_mul_basics(a as int);
        lemma_mul_basics(p as int);
    }
    while r != 0
        invariant
            p > 0,
            euclid_coeff(old_r as int, r as int, old_s as int, s as int) == euclid_coeff(
                a as int,
                p as int,
                1,
                0,
            ),
            (old_s >= 0 && s <= 0) || (old_s <= 0 && s >= 0),
            old_r * abs(s as int) + r * abs(old_s as int) == p,
            abs(old_s as int) <= p,
            abs(s as int) <= p,
        decreases r,
    {
        let q: u64 = old_r / r;
        let next_r: u64 = old_r % r;
        proof {
            lemma_fundamental_div_mod(old_r as int, r as int);
            lemma_euclid_step_bounds(old_r as int, r as int, old_s as int, s as int, p as int);
        }
        let next_s: i128 = old_s - (q as i128) * s;
        old_r = r;
        r = next_r;
        old_s = s;
        s = next_s;
    }
    proof {
        lemma_inv_mod(a as int, p as int);
        if old_s < 0 {
            lemma_mod_add_multiples_vanish(old_s as int, p as int);
        }
    }
    let lifted: i128 = if old_s < 0 {
        old_s + p as i128
    } else {
        old_s
    };
    (lifted as u64) % p
}

/// One division step of the extended Euclidean algorithm keeps the
/// coefficients alternating in sign and bounded by the modulus.
proof fn lemma_euclid_step_bounds(old_r: int, r: int, old_s: int, s: int, p: int)
    requires
        old_r >= 0,
        r > 0,
        p > 0,
        (old_s >= 0 && s <= 0) || (old_s <= 0 && s >= 0),
        old_r * abs(s) + r * abs(old_s) == p,
    ensures
        abs((old_r / r) * s) <= p,
        abs(old_s - (old_r / r) * s) <= p,
        (s >= 0 && old_s - (old_r / r) * s <= 0) || (s <= 0 && old_s - (old_r / r) * s >= 0),
        r * abs(old_s - (old_r / r) * s) + (old_r % r) * abs(s) == p,
{
    let q = old_r / r;
    let m = old_r % r;
    lemma_fundamental_div_mod(old_r, r);
    lemma_mod_bound(old_r, r);
    assert(q >= 0) by (nonlinear_arith)
        requires
            old_r == r * q + m,
            0 <= m < r,
            old_r >= 0,
    ;
    let ns = old_s - q * s;
    assert(abs(ns) == abs(old_s) + q * abs(s) && abs(q * s) == q * abs(s) && ((s >= 0 && ns <= 0)
        || (s <= 0 && ns >= 0))) by (nonlinear_arith)
        requires
            q >= 0,
            ns == old_s - q * s,
            (old_s >= 0 && s <= 0) || (old_s <= 0 && s >= 0),
    ;
    assert(r * abs(ns) + m * abs(s) == p && abs(ns) <= p && q * abs(s) <= p) by (nonlinear_arith)
        requires
            abs(ns) == abs(old_s) + q * abs(s),
            old_r == r * q + m,
            old_r * abs(s) + r * abs(old_s) == p,
            r > 0,
            q >= 0,
            m >= 0,
            abs(s) >= 0,
            abs(old_s) >= 0,
            abs(ns) >= 0,
    ;
}

/// The Legendre symbol of `a` modulo `p`, by Euler's criterion: `a` to the
/// power `(p - 1) / 2`.
///
/// Modulo an odd prime this is 0 for a multiple of `p`, 1 for any other
/// square, and `p - 1` for a number that is no square.
pub fn legendre(a: u64, p: u64) -> (r: u64)
    requires
        p > 0,
    ensures
        r == euler(a as int, p as int),
        r < p,
        is_prime(p as int) && p > 2 ==> {
            &&& r == 0 <==> a % p == 0
            &&& r == 1 <==> a % p != 0 && is_square_mod(a as int, p as int)
            &&& r == p - 1 <==> a % p != 0 && !is_square_mod(a as int, p as int)
        },
{
    proof {
        lemma_pow_mod_noop(a as int, ((p - 1) / 2) as nat, p as int);
        if is_prime(p as int) && p > 2 {
            lemma_euler_values(a as int, p as int);
            if a % p != 0 {
                lemma_euler_criterion(a as int, p as int);
            }
        }
    }
    mod_pow(a % p, (p - 1) / 2, p)
}

/// Squaring doubles the exponent.
pub proof fn lemma_pow_mod_double(x: int, e: nat, p: int)
    requires
        p > 0,
    ensures
        pow_mod(x, 2 * e, p) == (pow_mod(x, e, p) * pow_mod(x, e, p)) % p,
{
    lemma_pow_adds(x, e, e);
    lemma_mul_mod_noop(pow(x, e), pow(x, e), p);
}

/// A power of a power multiplies the exponents.
pub proof fn lemma_pow_mod_pow(x: int, e1: nat, e2: nat, p: int)
    requires
        p > 0,
    ensures
        pow_mod(pow_mod(x, e1, p), e2, p) == pow_mod(x, e1 * e2, p),
{
    lemma_pow_mod_noop(pow(x, e1), e2, p);
    lemma_pow_multiplies(x, e1, e2);
}

/// The power of a product is the product of the powers.
pub proof fn lemma_pow_mod_product(x: int, y: int, e: nat, p: int)
    requires
        p > 0,
    ensures
        pow_mod((x * y) % p, e, p) == (pow_mod(x, e, p) * pow_mod(y, e, p)) % p,
{
    lemma_pow_mod_noop(x * y, e, p);
    lemma_pow_distributes(x, y, e);
    lemma_mul_mod_noop(pow(x, e), pow(y, e), p);
}

/// The next exponent: `x^(e + 1) = x^e * x`.
pub proof fn lemma_pow_mod_succ(x: int, e: nat, p: int)
    requires
        p > 0,
    ensures
        pow_mod(x, e + 1, p) == (pow_mod(x, e, p) * x) % p,
{
    lemma_pow_adds(x, e, 1);
    lemma_pow1(x);
    lemma_mul_mod_noop_left(pow(x, e), x, p);
}

/// Modulo a prime, 1 has the two square roots 1 and `p - 1` only.
pub proof fn lemma_square_root_of_one(x: int, p: int)
    requires
        is_prime(p),
        0 <= x < p,
        (x * x) % p == 1,
    ensures
        x == 1 || x == p - 1,
{
    assert((x - 1) * (x + 1) == x * x - 1) by (nonlinear_arith);
    lemma_small_mod(1, p as nat);
    lemma_mod_equivalence(x * x, 1, p);
    lemma_prime_divides_product(x - 1, x + 1, p);
    if (x - 1) % p == 0 {
        if x == 0 {
            lemma_mod_add_multiples_vanish(-1, p);
            lemma_small_mod((p - 1) as nat, p as nat);
        } else {
            lemma_small_mod((x - 1) as nat, p as nat);
        }
    } else {
        if x + 1 < p {
            lemma_small_mod((x + 1) as nat, p as nat);
        }
    }
}

/// What the squarings of `t` look like when some power `t^(2^k)` with
/// `k < m` is 1 and `t` itself is not: the count `i` of squarings that lead
/// to 1 lies in `1..m`, `t^(2^i)` is 1, and `t^(2^(i - 1))` is `p - 1`.
pub proof fn lemma_squarings_to_one(t: int, p: int, m: nat, k: nat)
    requires
        is_prime(p),
        0 <= t < p,
        t != 1,
        k < m,
        pow_mod(t, pow2(k), p) == 1,
    ensures
        1 <= squarings_to_one(t, p, m) <= k,
        pow_mod(t, pow2(squarings_to_one(t, p, m)), p) == 1,
        pow_mod(t, pow2((squarings_to_one(t, p, m) - 1) as nat), p) == p - 1,
    decreases m,
{
    lemma2_to64();
    lemma_pow1(t);
    lemma_small_mod(t as nat, p as nat);
    assert(pow_mod(t, pow2(0), p) == t);
    assert(k >= 1);
    let t2 = (t * t) % p;
    lemma_mod_bound(t * t, p);
    assert(pow_mod(t, 2, p) == t2) by {
        lemma_pow_mod_double(t, 1, p);
    }
    if t2 == 1 {
        assert(squarings_to_one(t2, p, (m - 1) as nat) == 0);
        lemma_square_root_of_one(t, p);
    } else {
        // t2^(2^(k-1)) == t^(2^k) == 1
        lemma_pow_mod_pow(t, 2, pow2((k - 1) as nat), p);
        lemma_pow2_unfold(k);
        lemma_squarings_to_one(t2, p, (m - 1) as nat, (k - 1) as nat);
        let j = squarings_to_one(t2, p, (m - 1) as nat);
        lemma_pow_mod_pow(t, 2, pow2(j), p);
        lemma_pow2_unfold(j + 1);
        lemma_pow_mod_pow(t, 2, pow2((j - 1) as nat), p);
        lemma_pow2_unfold(j);
    }
}

/// One round of the Tonelli-Shanks iteration keeps what makes it work: `c`
/// is of order `2^m` exactly, `t` of an order that divides `2^(m - 1)`, and
/// `r^2 = a * t`.
pub proof fn lemma_tonelli_shanks_round(a: int, m: nat, c: int, t: int, r: int, p: int)
    requires
        is_prime(p),
        0 <= c < p,
        0 <= t < p,
        0 <= r < p,
        t != 1,
        m >= 1,
        pow_mod(c, pow2((m - 1) as nat), p) == p - 1,
        pow_mod(t, pow2((m - 1) as nat), p) == 1,
        (r * r) % p == (a * t) % p,
    ensures
        ({
            let i = squarings_to_one(t, p, m);
            let b = pow_mod(c, pow2((m - i - 1) as nat), p);
            let c2 = (b * b) % p;
            let t2 = (t * c2) % p;
            let r2 = (r * b) % p;
            &&& 1 <= i < m
            &&& pow_mod(c2, pow2((i - 1) as nat), p) == p - 1
            &&& pow_mod(t2, pow2((i - 1) as nat), p) == 1
            &&& (r2 * r2) % p == (a * t2) % p
        }),
{
    lemma_squarings_to_one(t, p, m, (m - 1) as nat);
    let i = squarings_to_one(t, p, m);
    let e = pow2((m - i - 1) as nat);
    let h = pow2((i - 1) as nat);
    let b = pow_mod(c, e, p);
    let c2 = (b * b) % p;
    let t2 = (t * c2) % p;
    let r2 = (r * b) % p;
    // c2 == c^(2e), and (2e) * h == 2^(m - 1)
    lemma_pow_mod_double(c, e, p);
    lemma_pow_mod_pow(c, 2 * e, h, p);
    lemma_pow2_unfold((m - i) as nat);
    lemma_pow2_adds((m - i) as nat, (i - 1) as nat);
    assert(pow_mod(c2, h, p) == p - 1);
    // t2^h == t^h * c2^h == (p - 1) * (p - 1) == 1
    lemma_pow_mod_product(t, c2, h, p);
    assert(((p - 1) * (p - 1)) % p == 1) by {
        assert((p - 1) * (p - 1) == p * (p - 2) + 1) by (nonlinear_arith);
        lemma_mod_multiples_vanish(p - 2, 1, p);
        lemma_small_mod(1, p as nat);
    }
    // r2^2 == r^2 * b^2 == (a * t) * c2 == a * t2
    assert((r2 * r2) % p == (a * t2) % p) by {
        lemma_mul_mod_noop(r * b, r * b, p);
        assert((r * b) * (r * b) == (r * r) * (b * b)) by (nonlinear_arith);
        lemma_mul_mod_noop(r * r, b * b, p);
        lemma_mul_mod_noop(a * t, c2, p);
        lemma_mod_twice(b * b, p);
        assert((a * t) * c2 == a * (t * c2)) by (nonlinear_arith);
        lemma_mul_mod_noop_right(a, t * c2, p);
    }
}

/// The search for a number with the criterion `p - 1` finds none below the
/// number it starts from.
proof fn lemma_search_goes_up(z: int, p: int)
    ensures
        least_non_residue_from(z, p) >= z,
    decreases p + 1 - z,
{
    if z <= p && euler(z, p) != p - 1 {
        lemma_search_goes_up(z + 1, p);
    }
}

/// A multiple of `2^k` that fits in 64 bits has `k` below 64.
proof fn lemma_exponent_below_64(q: int, k: nat)
    requires
        q >= 1,
        q * pow2(k) < 0x1_0000_0000_0000_0000,
    ensures
        k < 64,
{
    lemma2_to64();
    if k >= 64 {
        lemma_pow2_adds(64, (k - 64) as nat);
        lemma_pow2_pos((k - 64) as nat);
        assert(q * pow2(k) >= pow2(64)) by (nonlinear_arith)
            requires
                q >= 1,
                pow2(k) == pow2(64) * pow2((k - 64) as nat),
                pow2((k - 64) as nat) >= 1,
                pow2(64) >= 1,
        ;
    }
}

/// `n` is its odd part times two to the number of its factors 2.
pub proof fn lemma_odd_part(n: int)
    requires
        n > 0,
    ensures
        odd_part(n) * pow2(two_adicity(n)) == n,
        odd_part(n) % 2 == 1,
        odd_part(n) > 0,
    decreases n,
{
    lemma2_to64();
    if n % 2 == 0 {
        lemma_odd_part(n / 2);
        lemma_pow2_unfold(two_adicity(n));
        assert(odd_part(n / 2) * (2 * pow2(two_adicity(n / 2))) == 2 * (odd_part(n / 2) * pow2(
            two_adicity(n / 2),
        ))) by (nonlinear_arith);
    } else {
        lemma_mul_basics(n);
    }
}

/// Square root of `a` modulo the prime `p`: by the shortcut for `p = 3 mod 4`,
/// else by Tonelli and Shanks.
///
/// There is a root exactly if `a` is a square modulo `p`. Of the two roots
/// of a square other than zero, the result is the one that `sqrt_mod` names.
pub fn mod_sqrt(a: u64, p: u64) -> (root: Option<u64>)
    requires
        is_prime(p as int),
        a < p,
    ensures
        match root {
            Some(v) => sqrt_mod(a as int, p as int) == Some(v as int) && v < p && (v * v) % (
            p as int) == a,
            None => sqrt_mod(a as int, p as int) is None,
        },
        root is None <==> !is_square_mod(a as int, p as int),
{
    proof {
        lemma_small_mod(a as nat, p as nat);
        if p == 2 {
            lemma_pow0(a as int);
            lemma_pow0(2);
            lemma_small_mod(1, 2);
            assert(euler(2, 2) == 1);
        } else {
            lemma_non_residue_exists(p as int);
            lemma_least_non_residue(2, p as int);
            if a != 0 {
                lemma_euler_criterion(a as int, p as int);
            }
        }
    }
    if a == 0 {
        proof {
            lemma_small_mod(0, p as nat);
            assert((0int * 0int) % (p as int) == 0);
        }
        return Some(0);
    }
    let half: u64 = (p - 1) / 2;
    if mod_pow(a, half, p) != 1 {
        return None;
    }
    if p % 4 == 3 {
        let e: u64 = p / 4 + 1;
        let v = mod_pow(a, e, p);
        proof {
            let pi = p as int;
            assert(e == (p + 1) / 4);
            assert(2 * e == half + 1);
            lemma_pow_mod_double(a as int, e as nat, pi);
            lemma_pow_mod_succ(a as int, half as nat, pi);
            lemma_small_mod(a as nat, p as nat);
            lemma_mul_basics(a as int);
            assert((v * v) % pi == (a as int) % pi);
        }
        return Some(v);
    }
    // p - 1 == q * 2^s with q odd

    let mut q: u64 = p - 1;
    let mut s: u64 = 0;
    proof {
        lemma2_to64();
        lemma_mul_basics(q as int);
    }
    while q % 2 == 0
        invariant
            1 <= q < p,
            s < 64,
            q * pow2(s as nat) == p - 1,
            odd_part(q as int) == odd_part(p - 1),
            two_adicity(p - 1) == s + two_adicity(q as int),
        decreases q,
    {
        proof {
            lemma_pow2_unfold((s + 1) as nat);
            assert((q / 2) * (2 * pow2(s as nat)) == q * pow2(s as nat)) by (nonlinear_arith)
                requires
                    q % 2 == 0,
            ;
            lemma_exponent_below_64((q / 2) as int, (s + 1) as nat);
        }
        q = q / 2;
        s = s + 1;
    }
    proof {
        lemma_odd_part(p - 1);
        assert(odd_part(q as int) == q);
        assert(two_adicity(q as int) == 0);
    }
    // the least z with the criterion p - 1

    let mut z: u64 = 2;
    while mod_pow(z, half, p) != p - 1
        invariant
            p > 0,
            half == (p - 1) / 2,
            2 <= z <= least_non_residue_from(2, p as int) <= p,
            least_non_residue_from(2, p as int) == least_non_residue_from(z as int, p as int),
        decreases p - z,
    {
        proof {
            lemma_search_goes_up(z + 1, p as int);
        }
        z = z + 1;
    }
    let mut m: u64 = s;
    let mut c: u64 = mod_pow(z, q, p);
    let mut t: u64 = mod_pow(a, q, p);
    let mut r: u64 = mod_pow(a, (q + 1) / 2, p);
    proof {
        let pi = p as int;
        lemma_small_mod(a as nat, p as nat);
        if s == 0 {
            // only for p == 2, where a == 1
            if p > 2 {
                assert((p as int) % 2 != 0);
            }
            assert(p == 2);
            lemma_pow1(a as int);
            lemma_mul_basics(a as int);
        } else {
            // q * 2^(s - 1) == (p - 1) / 2
            lemma_pow2_unfold(s as nat);
            let h = pow2((s - 1) as nat);
            assert(q * h == half) by (nonlinear_arith)
                requires
                    q * (2 * h) == p - 1,
                    half == (p - 1) / 2,
            ;
            lemma_pow_mod_pow(z as int, q as nat, h, pi);
            lemma_pow_mod_pow(a as int, q as nat, h, pi);
            // r^2 == a^(q + 1) == a^q * a
            lemma_pow_mod_double(a as int, ((q + 1) / 2) as nat, pi);
            lemma_pow_mod_succ(a as int, q as nat, pi);
            lemma_mul_is_commutative(a as int, t as int);
        }
    }
    while t != 1
        invariant
            is_prime(p as int),
            a < p,
            c < p,
            t < p,
            r < p,
            m < 64,
            m >= 1 || t == 1,
            m >= 1 ==> pow_mod(c as int, pow2((m - 1) as nat), p as int) == p - 1,
            m >= 1 ==> pow_mod(t as int, pow2((m - 1) as nat), p as int) == 1,
            (r * r) % (p as int) == (a * t) % (p as int),
            tonelli_shanks(m as nat, c as int, t as int, r as int, p as int) == tonelli_shanks(
                two_adicity(p - 1),
                pow_mod(z as int, odd_part(p - 1) as nat, p as int),
                pow_mod(a as int, odd_part(p - 1) as nat, p as int),
                pow_mod(a as int, ((odd_part(p - 1) + 1) / 2) as nat, p as int),
                p as int,
            ),
        decreases m,
    {
        let mut i: u64 = 1;
        let mut tmp: u64 = mod_mul(t, t, p);
        proof {
            lemma_squarings_to_one(t as int, p as int, m as nat, (m - 1) as nat);
            lemma_tonelli_shanks_round(a as int, m as nat, c as int, t as int, r as int, p as int);
        }
        while tmp != 1
            invariant
                p > 0,
                tmp < p,
                1 <= i < m,
                squarings_to_one(t as int, p as int, m as nat) == i + squarings_to_one(
                    tmp as int,
                    p as int,
                    (m - i) as nat,
                ),
                squarings_to_one(t as int, p as int, m as nat) < m,
            decreases m - i,
        {
            tmp = mod_mul(tmp, tmp, p);
            i = i + 1;
        }
        let shift: u64 = m - i - 1;
        proof {
            lemma_u64_pow2_no_overflow(shift as nat);
            lemma_mul_basics(pow2(shift as nat) as int);
            lemma_u64_shl_is_mul(1, shift);
        }
        let b = mod_pow(c, 1u64 << shift, p);
        m = i;
        c = mod_mul(b, b, p);
        t = mod_mul(t, c, p);
        r = mod_mul(r, b, p);
    }
    proof {
        lemma_mul_basics(a as int);
        lemma_small_mod(a as nat, p as nat);
        assert((r * r) % (p as int) == (a as int) % (p as int));
    }
    Some(r)
}

} // verus!
