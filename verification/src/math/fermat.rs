//! Fermat's little theorem, and what it gives of Euler's criterion.
//!
//! The proof is the one by rearrangement: modulo a prime `p`, multiplying the
//! numbers from 1 to `p - 1` by `a` only permutes them, so their product is
//! the same before and after.

use vstd::prelude::*;
use vstd::arithmetic::div_mod::*;
use vstd::arithmetic::mul::*;
use vstd::arithmetic::power::*;
use crate::math::field::{
    euler, lemma_pow_mod_double, lemma_pow_mod_pow, lemma_square_root_of_one, pow_mod,
};
use crate::math::number_theory::{
    cong, inv_mod, is_prime, lemma_cong_mod, lemma_cong_mul, lemma_inv_mod_prime,
    lemma_prime_divides_product,
};

verus! {

/// The product of the numbers from 1 to `n`.
pub open spec fn factorial(n: nat) -> int
    decreases n,
{
    if n == 0 {
        1
    } else {
        factorial((n - 1) as nat) * n
    }
}

/// The product of the members of a sequence.
pub open spec fn product(s: Seq<int>) -> int
    decreases s.len(),
{
    if s.len() == 0 {
        1
    } else {
        product(s.drop_last()) * s.last()
    }
}

/// `s` holds each number from 1 to its length once, and `t` tells for each
/// of these numbers where it stands in `s`.
pub open spec fn is_rearrangement(s: Seq<int>, t: Seq<int>) -> bool {
    &&& s.len() == t.len()
    &&& forall|i: int| 0 <= i < s.len() ==> 1 <= #[trigger] s[i] <= s.len() && t[s[i] - 1] == i
    &&& forall|j: int| 0 <= j < t.len() ==> 0 <= #[trigger] t[j] < t.len() && s[t[j]] == j + 1
}

/// The multiples of `a` by the numbers from 1 to `n`, reduced modulo `p`.
pub open spec fn multiples(a: int, n: nat, p: int) -> Seq<int> {
    Seq::new(n, |i: int| (a * (i + 1)) % p)
}

/// Putting `w` in the place of one member changes the product in the ratio
/// of the two.
proof fn lemma_product_update(s: Seq<int>, k: int, w: int)
    requires
        0 <= k < s.len(),
    ensures
        product(s.update(k, w)) * s[k] == product(s) * w,
    decreases s.len(),
{
    let u = s.update(k, w);
    if k == s.len() - 1 {
        assert(u.drop_last() =~= s.drop_last());
        let q = product(s.drop_last());
        assert((q * w) * s[k] == (q * s[k]) * w) by (nonlinear_arith);
    } else {
        assert(u.drop_last() =~= s.drop_last().update(k, w));
        lemma_product_update(s.drop_last(), k, w);
        let q0 = product(s.drop_last());
        let q1 = product(s.drop_last().update(k, w));
        let l = s.last();
        assert((q1 * l) * s[k] == (q0 * l) * w) by (nonlinear_arith)
            requires
                q1 * s[k] == q0 * w,
        ;
    }
}

/// The product of a rearrangement of the numbers from 1 to `n` is the
/// factorial of `n`.
proof fn lemma_product_of_rearrangement(s: Seq<int>, t: Seq<int>)
    requires
        is_rearrangement(s, t),
    ensures
        product(s) == factorial(s.len()),
    decreases s.len(),
{
    let n = s.len() as int;
    if n > 0 {
        let k = t[n - 1];
        let v = s[n - 1];
        assert(s[k] == n);
        if k == n - 1 {
            let s1 = s.drop_last();
            let t1 = t.drop_last();
            assert forall|i: int| 0 <= i < s1.len() implies 1 <= #[trigger] s1[i] <= s1.len()
                && t1[s1[i] - 1] == i by {
                assert(s1[i] == s[i]);
                if s[i] == n {
                    assert(t[s[i] - 1] == i);
                }
            }
            assert forall|j: int| 0 <= j < t1.len() implies 0 <= #[trigger] t1[j] < t1.len()
                && s1[t1[j]] == j + 1 by {
                assert(t1[j] == t[j]);
                if t[j] == n - 1 {
                    assert(s[t[j]] == j + 1);
                }
            }
            lemma_product_of_rearrangement(s1, t1);
        } else {
            assert(t[v - 1] == n - 1);
            assert(v != n);
            let u = s.drop_last();
            let s1 = u.update(k, v);
            let t1 = t.drop_last().update(v - 1, k);
            assert forall|i: int| 0 <= i < s1.len() implies 1 <= #[trigger] s1[i] <= s1.len()
                && t1[s1[i] - 1] == i by {
                if i != k {
                    assert(s1[i] == s[i]);
                    assert(t[s[i] - 1] == i);
                }
            }
            assert forall|j: int| 0 <= j < t1.len() implies 0 <= #[trigger] t1[j] < t1.len()
                && s1[t1[j]] == j + 1 by {
                if j != v - 1 {
                    assert(t1[j] == t[j]);
                    assert(s[t[j]] == j + 1);
                }
            }
            lemma_product_of_rearrangement(s1, t1);
            lemma_product_update(u, k, v);
            assert(u[k] == n);
            let f = factorial((n - 1) as nat);
            assert(product(s) == product(u) * v);
            assert(product(s1) == f);
        }
    }
}

/// A prime divides no factorial of a number below it.
proof fn lemma_factorial_prime(n: nat, p: int)
    requires
        is_prime(p),
        n < p,
    ensures
        factorial(n) % p != 0,
    decreases n,
{
    if n == 0 {
        lemma_small_mod(1, p as nat);
    } else {
        lemma_factorial_prime((n - 1) as nat, p);
        lemma_small_mod(n, p as nat);
        if factorial(n) % p == 0 {
            lemma_prime_divides_product(factorial((n - 1) as nat), n as int, p);
        }
    }
}

/// The product of the first `n` multiples of `a` is `a^n * n!` modulo `p`.
proof fn lemma_product_of_multiples(a: int, n: nat, p: int)
    requires
        p > 0,
    ensures
        cong(product(multiples(a, n, p)), pow(a, n) * factorial(n), p),
    decreases n,
{
    if n == 0 {
        lemma_pow0(a);
    } else {
        let m = (n - 1) as nat;
        let s = multiples(a, n, p);
        assert(s.drop_last() =~= multiples(a, m, p));
        lemma_product_of_multiples(a, m, p);
        lemma_cong_mod(a * n, p);
        lemma_cong_mul(product(multiples(a, m, p)), pow(a, m) * factorial(m), s.last(), a * n, p);
        lemma_pow_adds(a, m, 1);
        lemma_pow1(a);
        assert((pow(a, m) * factorial(m)) * (a * n) == (pow(a, m) * a) * (factorial(m) * n))
            by (nonlinear_arith);
    }
}

/// Modulo a prime that does not divide `a`, the multiples of `a` by the
/// numbers from 1 to `p - 1` are a rearrangement of these numbers.
proof fn lemma_multiples_rearrange(a: int, p: int)
    requires
        is_prime(p),
        a % p != 0,
    ensures
        is_rearrangement(
            multiples(a, (p - 1) as nat, p),
            Seq::new((p - 1) as nat, |j: int| (inv_mod(a % p, p) * (j + 1)) % p - 1),
        ),
{
    let n = (p - 1) as nat;
    let inv = inv_mod(a % p, p);
    let s = multiples(a, n, p);
    let t = Seq::new(n, |j: int| (inv * (j + 1)) % p - 1);
    lemma_mod_bound(a, p);
    lemma_mod_twice(a, p);
    lemma_inv_mod_prime(a % p, p);
    lemma_small_mod(1, p as nat);
    // a * inv == 1 modulo p
    lemma_mul_mod_noop_left(a, inv, p);
    assert(cong(a * inv, 1, p));
    assert(inv % p != 0) by {
        if inv % p == 0 {
            lemma_mul_mod_noop_right(a, inv, p);
            assert(a * 0 == 0);
            lemma_small_mod(0, p as nat);
        }
    }
    assert forall|i: int| 0 <= i < s.len() implies 1 <= #[trigger] s[i] <= s.len() && t[s[i] - 1]
        == i by {
        let c = i + 1;
        lemma_small_mod(c as nat, p as nat);
        lemma_mod_bound(a * c, p);
        if (a * c) % p == 0 {
            lemma_prime_divides_product(a, c, p);
        }
        // inv * (a * c) == (a * inv) * c == c
        lemma_mul_mod_noop_right(inv, a * c, p);
        assert(inv * (a * c) == (a * inv) * c) by (nonlinear_arith);
        lemma_cong_mul(a * inv, 1, c, c, p);
        lemma_mul_basics(c);
    }
    assert forall|j: int| 0 <= j < t.len() implies 0 <= #[trigger] t[j] < t.len() && s[t[j]] == j
        + 1 by {
        let c = j + 1;
        lemma_small_mod(c as nat, p as nat);
        lemma_mod_bound(inv * c, p);
        if (inv * c) % p == 0 {
            lemma_prime_divides_product(inv, c, p);
        }
        // a * (inv * c) == (a * inv) * c == c
        lemma_mul_mod_noop_right(a, inv * c, p);
        assert(a * (inv * c) == (a * inv) * c) by (nonlinear_arith);
        lemma_cong_mul(a * inv, 1, c, c, p);
        lemma_mul_basics(c);
    }
}

/// Fermat's little theorem: `a^(p - 1)` is 1 modulo a prime `p` that does
/// not divide `a`.
pub proof fn lemma_fermat(a: int, p: int)
    requires
        is_prime(p),
        a % p != 0,
    ensures
        pow_mod(a, (p - 1) as nat, p) == 1,
{
    let n = (p - 1) as nat;
    let s = multiples(a, n, p);
    let t = Seq::new(n, |j: int| (inv_mod(a % p, p) * (j + 1)) % p - 1);
    lemma_multiples_rearrange(a, p);
    lemma_product_of_rearrangement(s, t);
    lemma_product_of_multiples(a, n, p);
    lemma_factorial_prime(n, p);
    // p divides (a^n - 1) * n! and not n!
    let f = factorial(n);
    let e = pow(a, n);
    lemma_mod_equivalence(e * f, f, p);
    assert(e * f - f == (e - 1) * f) by (nonlinear_arith);
    lemma_prime_divides_product(e - 1, f, p);
    lemma_mod_equivalence(e, 1, p);
    lemma_small_mod(1, p as nat);
}

/// A prime that divides a power divides its base.
pub proof fn lemma_prime_divides_power(a: int, e: nat, p: int)
    requires
        is_prime(p),
        pow(a, e) % p == 0,
    ensures
        a % p == 0,
    decreases e,
{
    if e == 0 {
        lemma_pow0(a);
        lemma_small_mod(1, p as nat);
    } else {
        lemma_pow_adds(a, (e - 1) as nat, 1);
        lemma_pow1(a);
        lemma_prime_divides_product(pow(a, (e - 1) as nat), a, p);
        if a % p != 0 {
            lemma_prime_divides_power(a, (e - 1) as nat, p);
        }
    }
}

/// Euler's criterion takes three values only: 0 for the multiples of the
/// odd prime `p`, and 1 or `p - 1` for every other number.
pub proof fn lemma_euler_values(a: int, p: int)
    requires
        is_prime(p),
        p > 2,
    ensures
        euler(a, p) == 0 <==> a % p == 0,
        euler(a, p) == 0 || euler(a, p) == 1 || euler(a, p) == p - 1,
{
    let h = ((p - 1) / 2) as nat;
    assert(p % 2 != 0);
    assert(2 * h == p - 1);
    lemma_mod_bound(pow(a, h), p);
    if a % p == 0 {
        // a^h == (a mod p)^h == 0^h == 0
        lemma_pow_mod_noop(a, h, p);
        lemma0_pow(h);
        lemma_small_mod(0, p as nat);
    } else {
        if euler(a, p) == 0 {
            lemma_prime_divides_power(a, h, p);
        }
        lemma_fermat(a, p);
        lemma_pow_mod_double(a, h, p);
        lemma_square_root_of_one(euler(a, p), p);
    }
}

/// One half of Euler's criterion: a square that the odd prime `p` does not
/// divide has the criterion 1.
pub proof fn lemma_euler_of_square(y: int, p: int)
    requires
        is_prime(p),
        p > 2,
        y % p != 0,
    ensures
        euler(y * y, p) == 1,
{
    let h = ((p - 1) / 2) as nat;
    assert(p % 2 != 0);
    assert(2 * h == p - 1);
    lemma_fermat(y, p);
    // (y^2)^h == y^(2h)
    lemma_square_is_pow2(y);
    lemma_pow_multiplies(y, 2, h);
}

/// The cube of `g^((p - 1) / 3)` is 1 modulo a prime `p` that is 1 modulo 3
/// and does not divide `g`.
pub proof fn lemma_cube_of_candidate(g: int, p: int)
    requires
        is_prime(p),
        p % 3 == 1,
        g % p != 0,
    ensures
        ({
            let c = pow_mod(g, ((p - 1) / 3) as nat, p);
            (c * c * c) % p == 1
        }),
{
    let k = ((p - 1) / 3) as nat;
    let c = pow_mod(g, k, p);
    assert(3 * k == p - 1);
    lemma_fermat(g, p);
    // c^3 == g^(3k)
    lemma_pow_mod_pow(g, k, 3, p);
    reveal_with_fuel(pow, 4);
    assert(pow(c, 3) == c * c * c) by (nonlinear_arith)
        requires
            pow(c, 3) == c * (c * (c * 1)),
    ;
    assert(k * 3 == p - 1);
}

} // verus!
