//! What follows for the multiples of a point once the addition of points is
//! known to be associative.
//!
//! The sum of two points of the curve is a point of the curve, the point at
//! infinity is the identity, every point has an inverse, and the sum does not
//! depend on the order: all this is proved from the formulas. That the sum of
//! three points does not depend on the bracketing is not proved here. The
//! statements of this file take it as a hypothesis, and say what the
//! multiples that double-and-add computes are worth then.

use vstd::prelude::*;
use vstd::arithmetic::div_mod::*;
use vstd::arithmetic::mul::*;
use crate::math::curve::{
    add_doublings, add_points, cofactor_multiple_is_affine, double_point, has_full_order, negate,
    repeated_sum, scalar_multiple, Point,
};
use crate::math::curve_laws::{
    lemma_add_commutes, lemma_add_inverse, lemma_add_on_curve, lemma_double_on_curve,
    lemma_negate_on_curve, lemma_negate_reduced, lemma_sum_reduced,
};
use crate::math::number_theory::{is_prime, lemma_prime_factor_exists, lemma_quotient_divides};

verus! {

/// The point is a point of the curve `y^2 = x^3 + b` modulo `p`, written the
/// way the group law writes it.
pub open spec fn is_member(pt: Point, b: u64, p: u64) -> bool {
    pt.well_formed(p as int) && pt.on_curve(b as int, p as int)
}

/// The sum of three points of the curve does not depend on the bracketing.
pub open spec fn addition_is_associative(b: u64, p: u64) -> bool {
    forall|x: Point, y: Point, z: Point|
        is_member(x, b, p) && is_member(y, b, p) && is_member(z, b, p) ==> #[trigger] add_points(
            add_points(x, y, p as int),
            z,
            p as int,
        ) == add_points(x, add_points(y, z, p as int), p as int)
}

/// The sum of two points of the curve is a point of the curve.
pub proof fn lemma_sum_is_member(x: Point, y: Point, b: u64, p: u64)
    requires
        is_prime(p as int),
        p > 2,
        is_member(x, b, p),
        is_member(y, b, p),
    ensures
        is_member(add_points(x, y, p as int), b, p),
        is_member(double_point(x, p as int), b, p),
        double_point(x, p as int) == add_points(x, x, p as int),
{
    lemma_add_on_curve(x, y, b, p);
    lemma_double_on_curve(x, b, p);
    lemma_sum_reduced(x, y, p);
}

/// The inverse of a point of the curve is a point of the curve.
pub proof fn lemma_inverse_is_member(x: Point, b: u64, p: u64)
    requires
        p > 0,
        is_member(x, b, p),
    ensures
        is_member(negate(x, p as int), b, p),
{
    lemma_negate_on_curve(x, b, p);
    lemma_negate_reduced(x, p);
}

/// Every multiple of a point of the curve is a point of the curve.
pub proof fn lemma_repeated_sum_is_member(k: nat, x: Point, b: u64, p: u64)
    requires
        is_prime(p as int),
        p > 2,
        is_member(x, b, p),
    ensures
        is_member(repeated_sum(k, x, p as int), b, p),
    decreases k,
{
    if k > 0 {
        lemma_repeated_sum_is_member((k - 1) as nat, x, b, p);
        lemma_sum_is_member(repeated_sum((k - 1) as nat, x, p as int), x, b, p);
    }
}

/// The multiples of a point add up as their factors do.
pub proof fn lemma_repeated_sum_adds(j: nat, k: nat, x: Point, b: u64, p: u64)
    requires
        is_prime(p as int),
        p > 2,
        is_member(x, b, p),
        addition_is_associative(b, p),
    ensures
        add_points(repeated_sum(j, x, p as int), repeated_sum(k, x, p as int), p as int)
            == repeated_sum(j + k, x, p as int),
    decreases k,
{
    let pi = p as int;
    lemma_repeated_sum_is_member(j, x, b, p);
    if k > 0 {
        let k1 = (k - 1) as nat;
        lemma_repeated_sum_is_member(k1, x, b, p);
        lemma_repeated_sum_adds(j, k1, x, b, p);
        // j x + (k1 x + x) == (j x + k1 x) + x
        assert(add_points(add_points(repeated_sum(j, x, pi), repeated_sum(k1, x, pi), pi), x, pi)
            == add_points(
            repeated_sum(j, x, pi),
            add_points(repeated_sum(k1, x, pi), x, pi),
            pi,
        ));
        assert(repeated_sum(j + k, x, pi) == add_points(
            repeated_sum((j + k - 1) as nat, x, pi),
            x,
            pi,
        ));
    }
}

/// The multiples of a multiple are the multiples by the product.
pub proof fn lemma_repeated_sum_multiplies(j: nat, k: nat, x: Point, b: u64, p: u64)
    requires
        is_prime(p as int),
        p > 2,
        is_member(x, b, p),
        addition_is_associative(b, p),
    ensures
        repeated_sum(j, repeated_sum(k, x, p as int), p as int) == repeated_sum(
            j * k,
            x,
            p as int,
        ),
    decreases j,
{
    let pi = p as int;
    if j == 0 {
        assert(0 * k == 0);
    } else {
        let j1 = (j - 1) as nat;
        lemma_repeated_sum_multiplies(j1, k, x, b, p);
        lemma_repeated_sum_adds(j1 * k, k, x, b, p);
        assert(j1 * k + k == j * k) by (nonlinear_arith)
            requires
                j1 == j - 1,
        ;
    }
}

/// Every multiple of the point at infinity is the point at infinity.
pub proof fn lemma_repeated_sum_of_identity(k: nat, p: u64)
    ensures
        repeated_sum(k, Point::at_infinity(), p as int) == Point::at_infinity(),
    decreases k,
{
    if k > 0 {
        lemma_repeated_sum_of_identity((k - 1) as nat, p);
    }
}

/// The multiples of a point whose multiple by `n` is the point at infinity
/// depend on the factor modulo `n` only.
pub proof fn lemma_repeated_sum_is_periodic(k: nat, n: u64, x: Point, b: u64, p: u64)
    requires
        is_prime(p as int),
        p > 2,
        n > 0,
        is_member(x, b, p),
        addition_is_associative(b, p),
        repeated_sum(n as nat, x, p as int) == Point::at_infinity(),
    ensures
        repeated_sum(k, x, p as int) == repeated_sum((k % (n as nat)) as nat, x, p as int),
{
    let pi = p as int;
    let m = n as nat;
    let t = (k / m) as nat;
    let r = (k % m) as nat;
    lemma_fundamental_div_mod(k as int, n as int);
    lemma_mod_bound(k as int, n as int);
    assert(t * m + r == k) by (nonlinear_arith)
        requires
            k == n * (k as int / n as int) + (k as int % n as int),
            t == k as int / n as int,
            r == k as int % n as int,
            m == n,
    ;
    // t * (n x) is the point at infinity, and k x == (t * n) x + r x
    lemma_repeated_sum_multiplies(t, m, x, b, p);
    lemma_repeated_sum_of_identity(t, p);
    lemma_repeated_sum_adds(t * m, r, x, b, p);
    lemma_repeated_sum_is_member(r, x, b, p);
}

/// What double-and-add adds to its accumulator is the multiple of its base.
pub proof fn lemma_add_doublings_is_repeated_sum(
    k: nat,
    base: Point,
    acc: Point,
    b: u64,
    p: u64,
)
    requires
        is_prime(p as int),
        p > 2,
        is_member(base, b, p),
        is_member(acc, b, p),
        addition_is_associative(b, p),
    ensures
        add_doublings(k, base, acc, p as int) == add_points(
            acc,
            repeated_sum(k, base, p as int),
            p as int,
        ),
    decreases k,
{
    let pi = p as int;
    if k > 0 {
        let h = k / 2;
        let twice = double_point(base, pi);
        lemma_sum_is_member(base, base, b, p);
        lemma_sum_is_member(acc, base, b, p);
        let next = if k % 2 == 1 {
            add_points(acc, base, pi)
        } else {
            acc
        };
        lemma_add_doublings_is_repeated_sum(h, twice, next, b, p);
        // h * (2 base) == (2 h) base
        assert(repeated_sum(2, base, pi) == twice) by {
            reveal_with_fuel(repeated_sum, 3);
        }
        lemma_repeated_sum_multiplies(h, 2, base, b, p);
        let even = repeated_sum(h * 2, base, pi);
        lemma_repeated_sum_is_member(h * 2, base, b, p);
        if k % 2 == 1 {
            // (acc + base) + even == acc + (base + even) == acc + (even + base)
            assert(add_points(add_points(acc, base, pi), even, pi) == add_points(
                acc,
                add_points(base, even, pi),
                pi,
            ));
            lemma_add_commutes(base, even, p);
            assert(repeated_sum(k, base, pi) == add_points(
                repeated_sum((k - 1) as nat, base, pi),
                base,
                pi,
            ));
        }
    }
}

/// The multiple that double-and-add computes is the sum of that many copies
/// of the point.
pub proof fn lemma_scalar_multiple_is_repeated_sum(k: nat, x: Point, b: u64, p: u64)
    requires
        is_prime(p as int),
        p > 2,
        is_member(x, b, p),
        addition_is_associative(b, p),
    ensures
        scalar_multiple(k, x, p as int) == repeated_sum(k, x, p as int),
{
    if x.infinity {
        lemma_repeated_sum_of_identity(k, p);
    } else if k != 0 {
        lemma_add_doublings_is_repeated_sum(k, x, Point::at_infinity(), b, p);
        lemma_repeated_sum_is_member(k, x, b, p);
    }
}

/// Adding a point and taking it away again changes nothing.
pub proof fn lemma_add_then_take_away(x: Point, y: Point, b: u64, p: u64)
    requires
        is_prime(p as int),
        p > 2,
        is_member(x, b, p),
        is_member(y, b, p),
        addition_is_associative(b, p),
    ensures
        add_points(add_points(x, y, p as int), negate(y, p as int), p as int) == x,
        add_points(add_points(x, negate(y, p as int), p as int), y, p as int) == x,
{
    let pi = p as int;
    lemma_inverse_is_member(y, b, p);
    lemma_add_inverse(y, p);
    assert(add_points(add_points(x, y, pi), negate(y, pi), pi) == add_points(
        x,
        add_points(y, negate(y, pi), pi),
        pi,
    ));
    assert(add_points(add_points(x, negate(y, pi), pi), y, pi) == add_points(
        x,
        add_points(negate(y, pi), y, pi),
        pi,
    ));
}

/// A curve modulo an odd prime on which addition is associative, and on it
/// a point `g` whose multiple by `n` is the point at infinity.
pub open spec fn is_cyclic(g: Point, n: u64, b: u64, p: u64) -> bool {
    &&& is_prime(p as int)
    &&& p > 2
    &&& n > 0
    &&& is_member(g, b, p)
    &&& addition_is_associative(b, p)
    &&& repeated_sum(n as nat, g, p as int) == Point::at_infinity()
}

/// Multiples of `g` by factors that agree modulo `n` are equal.
pub proof fn lemma_congruent_multiples(x: nat, y: nat, g: Point, n: u64, b: u64, p: u64)
    requires
        is_cyclic(g, n, b, p),
        x as int % n as int == y as int % n as int,
    ensures
        repeated_sum(x, g, p as int) == repeated_sum(y, g, p as int),
{
    lemma_repeated_sum_is_periodic(x, n, g, b, p);
    lemma_repeated_sum_is_periodic(y, n, g, b, p);
}

/// A point that passes the test for a generator has its order exactly: its
/// multiple by no proper divisor of the order is the point at infinity.
/// This holds on a curve on which addition is associative.
pub proof fn lemma_full_order_is_exact(g: Point, n: u64, b: u64, p: u64)
    requires
        is_prime(p as int),
        p > 2,
        is_member(g, b, p),
        addition_is_associative(b, p),
        has_full_order(g, n as int, p as int),
    ensures
        forall|d: int|
            1 <= d < n && n as int % d == 0 ==> !(#[trigger] scalar_multiple(
                d as nat,
                g,
                p as int,
            )).infinity,
{
    let pi = p as int;
    let ni = n as int;
    assert forall|d: int| 1 <= d < n && ni % d == 0 implies !(#[trigger] scalar_multiple(
        d as nat,
        g,
        pi,
    )).infinity by {
        if scalar_multiple(d as nat, g, pi).infinity {
            // n == d * e, and e has a prime factor q: e == q * rest
            lemma_quotient_divides(ni, d);
            let e = ni / d;
            assert(e > 1) by (nonlinear_arith)
                requires
                    ni == d * e,
                    d < ni,
                    d >= 1,
            ;
            let q = lemma_prime_factor_exists(e);
            lemma_quotient_divides(e, q);
            let rest = e / q;
            // n / q == rest * d
            assert(ni == q * (rest * d)) by (nonlinear_arith)
                requires
                    ni == d * e,
                    e == q * rest,
            ;
            lemma_fundamental_div_mod_converse(ni, q, rest * d, 0);
            assert(q <= ni) by (nonlinear_arith)
                requires
                    ni == d * e,
                    q <= e,
                    d >= 1,
                    e >= 1,
            ;
            // (rest * d) g == rest (d g), the point at infinity
            lemma_scalar_multiple_is_repeated_sum(d as nat, g, b, p);
            lemma_repeated_sum_is_member(d as nat, g, b, p);
            lemma_repeated_sum_multiplies(rest as nat, d as nat, g, b, p);
            lemma_repeated_sum_of_identity(rest as nat, p);
            assert(rest * d >= 0) by (nonlinear_arith)
                requires
                    rest >= 1,
                    d >= 1,
            ;
            lemma_scalar_multiple_is_repeated_sum((rest * d) as nat, g, b, p);
            assert(!cofactor_multiple_is_affine(q, g, ni, pi));
        }
    }
}

} // verus!
