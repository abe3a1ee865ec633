//! Points of the curve `y^2 = x^3 + b` over the integers modulo `p`, and the
//! group law on them.

use vstd::prelude::*;
use vstd::arithmetic::div_mod::*;
use vstd::arithmetic::mul::*;
use vstd::arithmetic::power::*;
use vstd::string::*;
use crate::error::ConfigurationError;
use crate::text::{decimal, decimal_string};
use crate::math::field::{
    euler, legendre, mod_add, mod_inv, mod_mul, mod_pow, mod_sqrt, mod_sub, pow_mod, sqrt_mod,
};
use crate::math::curve_laws::{
    lemma_add_on_curve, lemma_double_on_curve, lemma_negate_on_curve,
    lemma_prime_order_is_exact, lemma_scalar_multiple_on_curve,
};
use crate::math::group::{
    addition_is_associative, is_member, lemma_full_order_is_exact,
    lemma_scalar_multiple_is_repeated_sum,
};
use crate::math::residues::{lemma_square_root_count, square_roots_below};
use crate::math::number_theory::{
    inv_mod, is_prime, lemma_divides_transitive, lemma_least_divisor_is_prime,
    lemma_no_divisor_to_root_is_prime, lemma_prime_divides_cofactor, lemma_quotient_divides,
};

verus! {

/// A point in affine coordinates, or the point at infinity.
#[derive(Clone, Copy, Debug, PartialEq, Eq, Hash, Structural)]
pub struct Point {
    pub x: u64,
    pub y: u64,
    pub infinity: bool,
}

impl Point {
    /// The point at infinity, the identity of the group.
    pub open spec fn at_infinity() -> Point {
        Point { x: 0, y: 0, infinity: true }
    }

    /// The affine point `(x, y)`.
    pub open spec fn affine(x: int, y: int) -> Point {
        Point { x: x as u64, y: y as u64, infinity: false }
    }

    /// Both coordinates of an affine point lie below `p`.
    pub open spec fn reduced(self, p: int) -> bool {
        self.infinity || (self.x < p && self.y < p)
    }

    /// The point is written in the one way that the group law writes it:
    /// coordinates below `p`, and zero coordinates at infinity.
    pub open spec fn well_formed(self, p: int) -> bool {
        if self.infinity {
            self.x == 0 && self.y == 0
        } else {
            self.x < p && self.y < p
        }
    }

    /// The point satisfies `y^2 = x^3 + b` modulo `p`, or is at infinity.
    pub open spec fn on_curve(self, b: int, p: int) -> bool {
        self.infinity || (self.y * self.y) % p == curve_rhs(self.x as int, b, p)
    }

    /// The point in words: its coordinates in decimal, or the name of the
    /// point at infinity.
    pub open spec fn text(self) -> Seq<char> {
        if self.infinity {
            "O (punto en el infinito)"@
        } else {
            "("@ + decimal(self.x as nat) + ", "@ + decimal(self.y as nat) + ")"@
        }
    }

    /// The point in words, as `text` gives it.
    pub fn to_string(&self) -> (r: String)
        ensures
            r@ == self.text(),
    {
        if self.infinity {
            String::from_str("O (punto en el infinito)")
        } else {
            let x = decimal_string(self.x);
            let y = decimal_string(self.y);
            String::from_str("(").concat(x.as_str()).concat(", ").concat(y.as_str()).concat(")")
        }
    }

    /// The point at infinity.
    pub fn infinity() -> (r: Self)
        ensures
            r == Point::at_infinity(),
    {
        Point { x: 0, y: 0, infinity: true }
    }

    /// The affine point `(x, y)`.
    pub fn new(x: u64, y: u64) -> (r: Self)
        ensures
            r == (Point { x, y, infinity: false }),
    {
        Point { x, y, infinity: false }
    }
}

/// The right-hand side of the curve equation at `x`: `x^3 + b` modulo `p`.
pub open spec fn curve_rhs(x: int, b: int, p: int) -> int {
    (x * x * x + b) % p
}

/// The point on the line of slope `s` through `(x1, y1)` that the group law
/// gives as the sum, when the line meets the curve again at abscissa `x2`.
pub open spec fn third_point(s: int, x1: int, y1: int, x2: int, p: int) -> Point {
    let x3 = (s * s - x1 - x2) % p;
    let y3 = (s * (x1 - x3) - y1) % p;
    Point::affine(x3, y3)
}

/// Slope of the chord through two points of different abscissa.
pub open spec fn chord_slope(first: Point, second: Point, p: int) -> int {
    (((second.y - first.y) % p) * inv_mod((second.x - first.x) % p, p)) % p
}

/// Slope of the tangent at a point, for a curve without a term in `x`.
pub open spec fn tangent_slope(pt: Point, p: int) -> int {
    (((3 * (pt.x * pt.x)) % p) * inv_mod((2 * pt.y) % p, p)) % p
}

/// The inverse of a point: its mirror image `(x, -y)`.
pub open spec fn negate(pt: Point, p: int) -> Point {
    if pt.infinity {
        Point::at_infinity()
    } else {
        Point::affine(pt.x as int, (0 - pt.y) % p)
    }
}

/// Twice a point.
pub open spec fn double_point(pt: Point, p: int) -> Point {
    if pt.infinity || pt.y == 0 {
        Point::at_infinity()
    } else {
        third_point(tangent_slope(pt, p), pt.x as int, pt.y as int, pt.x as int, p)
    }
}

/// The sum of two points.
pub open spec fn add_points(first: Point, second: Point, p: int) -> Point {
    if first.infinity {
        second
    } else if second.infinity {
        first
    } else if first.x == second.x {
        if first.y == second.y && first.y != 0 {
            double_point(first, p)
        } else {
            Point::at_infinity()
        }
    } else {
        third_point(chord_slope(first, second, p), first.x as int, first.y as int, second.x as int, p)
    }
}

/// The sum of `k` copies of a point, added up one after the other.
pub open spec fn repeated_sum(k: nat, pt: Point, p: int) -> Point
    decreases k,
{
    if k == 0 {
        Point::at_infinity()
    } else {
        add_points(repeated_sum((k - 1) as nat, pt, p), pt, p)
    }
}

/// The sum over the binary digits of `k`, from the lowest up: `acc`, and for
/// each digit 1 at place `i` the point `base` doubled `i` times.
pub open spec fn add_doublings(k: nat, base: Point, acc: Point, p: int) -> Point
    decreases k,
{
    if k == 0 {
        acc
    } else {
        add_doublings(
            k / 2,
            double_point(base, p),
            if k % 2 == 1 {
                add_points(acc, base, p)
            } else {
                acc
            },
            p,
        )
    }
}

/// The multiple `k * pt` as double-and-add computes it.
pub open spec fn scalar_multiple(k: nat, pt: Point, p: int) -> Point {
    if k == 0 || pt.infinity {
        Point::at_infinity()
    } else {
        add_doublings(k, pt, Point::at_infinity(), p)
    }
}

/// How many affine points the count finds above the abscissa `x`: one where
/// `x^3 + b` is zero, two where Euler's criterion calls it a square.
pub open spec fn points_above(x: int, b: int, p: int) -> int {
    let v = curve_rhs(x, b, p);
    if v == 0 {
        1
    } else if euler(v, p) == 1 {
        2
    } else {
        0
    }
}

/// The number of pairs `(x, y)` with `x` below `n` and `y` below `p` that
/// satisfy the curve equation.
pub open spec fn affine_points_below(n: int, b: int, p: int) -> int
    decreases n,
{
    if n <= 0 {
        0
    } else {
        affine_points_below(n - 1, b, p) + square_roots_below(curve_rhs(n - 1, b, p), p, p)
    }
}

/// The point at infinity and the affine points above the abscissas below `n`.
pub open spec fn points_below(n: int, b: int, p: int) -> int
    decreases n,
{
    if n <= 0 {
        1
    } else {
        points_below(n - 1, b, p) + points_above(n - 1, b, p)
    }
}

/// The multiple of `pt` by `order / q` is not the point at infinity.
pub open spec fn cofactor_multiple_is_affine(q: int, pt: Point, order: int, p: int) -> bool {
    !scalar_multiple((order / q) as nat, pt, p).infinity
}

/// The test for a generator: the multiple by `order` is the point at
/// infinity, and for no prime factor `q` of `order` the multiple by
/// `order / q` is.
pub open spec fn has_full_order(pt: Point, order: int, p: int) -> bool {
    &&& scalar_multiple(order as nat, pt, p).infinity
    &&& forall|q: int|
        is_prime(q) && q <= order && order % q == 0 ==> #[trigger] cofactor_multiple_is_affine(
            q,
            pt,
            order,
            p,
        )
}

/// The generator above the abscissa `x`, if there is one: the point `(x, y)`
/// with `y` the square root of `x^3 + b` that `sqrt_mod` gives, if that root
/// is not zero and the point passes the test for a generator.
pub open spec fn generator_above(x: int, b: int, p: int, order: int) -> Option<Point> {
    match sqrt_mod(curve_rhs(x, b, p), p) {
        Some(y) => {
            if y != 0 && has_full_order(Point::affine(x, y), order, p) {
                Some(Point::affine(x, y))
            } else {
                None
            }
        },
        None => None,
    }
}

proof fn lemma_third_point(s: int, x1: int, y1: int, x2: int, p: int)
    requires
        p > 0,
    ensures
        ({
            let ss = (s * s) % p;
            let x3 = (((ss - x1) % p) - x2) % p;
            let y3 = (((s * ((x1 - x3) % p)) % p) - y1) % p;
            &&& 0 <= x3 < p
            &&& 0 <= y3 < p
            &&& third_point(s, x1, y1, x2, p) == Point::affine(x3, y3)
        }),
{
    let ss = (s * s) % p;
    let u = (ss - x1) % p;
    let x3 = (u - x2) % p;
    lemma_small_mod(0, p as nat);
    lemma_mod_bound(u - x2, p);
    lemma_sub_mod_noop(s * s, x1, p);
    lemma_sub_mod_noop(ss, x1, p);
    lemma_mod_twice(s * s, p);
    assert(u == (s * s - x1) % p);
    lemma_sub_mod_noop(s * s - x1, x2, p);
    lemma_sub_mod_noop(u, x2, p);
    lemma_mod_twice(s * s - x1, p);
    assert(x3 == (s * s - x1 - x2) % p);
    let v = (x1 - x3) % p;
    let w = (s * v) % p;
    let y3 = (w - y1) % p;
    lemma_mod_bound(w - y1, p);
    lemma_mul_mod_noop_right(s, x1 - x3, p);
    lemma_sub_mod_noop(s * (x1 - x3), y1, p);
    lemma_sub_mod_noop(w, y1, p);
    lemma_mod_twice(s * (x1 - x3), p);
}

/// Whether the point lies on the curve `y^2 = x^3 + b` modulo `p`.
pub fn is_on_curve(p_point: &Point, b: u64, p: u64) -> (r: bool)
    requires
        p > 0,
    ensures
        r == p_point.on_curve(b as int, p as int),
{
    if p_point.infinity {
        return true;
    }
    let y2 = mod_mul(p_point.y, p_point.y, p);
    let x3 = mod_pow(p_point.x, 3, p);
    let rhs = mod_add(x3, b, p);
    proof {
        let x = p_point.x as int;
        reveal_with_fuel(pow, 4);
        assert(pow(x, 3) == x * x * x) by (nonlinear_arith)
            requires
                pow(x, 3) == x * (x * (x * 1)),
        ;
        lemma_add_mod_noop(x * x * x, b as int, p as int);
        lemma_add_mod_noop(x3 as int, b as int, p as int);
        lemma_mod_twice(x * x * x, p as int);
    }
    y2 == rhs
}

/// Sum of two points.
///
/// The point at infinity on either side gives the other point back, whatever
/// that point and the modulus are. Two affine points need coordinates below an
/// odd modulus.
pub fn point_add(first: &Point, second: &Point, p: u64) -> (r: Point)
    requires
        first.infinity || second.infinity || (p % 2 == 1 && first.reduced(p as int)
            && second.reduced(p as int)),
    ensures
        r == add_points(*first, *second, p as int),
        first.infinity ==> r == *second,
        !first.infinity && second.infinity ==> r == *first,
        first.reduced(p as int) && second.reduced(p as int) ==> r.reduced(p as int),
        first.well_formed(p as int) && second.well_formed(p as int) ==> r.well_formed(p as int),
        forall|b: u64|
            is_prime(p as int) && first.on_curve(b as int, p as int) && second.on_curve(
                b as int,
                p as int,
            ) ==> #[trigger] r.on_curve(b as int, p as int),
{
    proof {
        assert forall|b: u64|
            is_prime(p as int) && first.on_curve(b as int, p as int) && second.on_curve(
                b as int,
                p as int,
            ) implies #[trigger] add_points(*first, *second, p as int).on_curve(
            b as int,
            p as int,
        ) by {
            if !first.infinity && !second.infinity {
                lemma_add_on_curve(*first, *second, b, p);
            }
        }
    }
    if first.infinity {
        return *second;
    }
    if second.infinity {
        return *first;
    }
    if first.x == second.x {
        if first.y == second.y && first.y != 0 {
            return point_double(first, p);
        }
        return Point::infinity();
    }
    let dy = mod_sub(second.y, first.y, p);
    let dx = mod_sub(second.x, first.x, p);
    proof {
        if second.x > first.x {
            lemma_small_mod((second.x - first.x) as nat, p as nat);
        } else {
            lemma_mod_add_multiples_vanish(second.x - first.x, p as int);
            lemma_small_mod((second.x - first.x + p) as nat, p as nat);
        }
        lemma_small_mod(dx as nat, p as nat);
    }
    let slope = mod_mul(dy, mod_inv(dx, p), p);
    let x3 = mod_sub(mod_sub(mod_mul(slope, slope, p), first.x, p), second.x, p);
    let y3 = mod_sub(mod_mul(slope, mod_sub(first.x, x3, p), p), first.y, p);
    proof {
        lemma_third_point(slope as int, first.x as int, first.y as int, second.x as int, p as int);
    }
    let r = Point::new(x3, y3);
    assert(r == add_points(*first, *second, p as int));
    r
}

/// Twice a point.
pub fn point_double(pt: &Point, p: u64) -> (r: Point)
    requires
        p % 2 == 1,
        pt.reduced(p as int),
    ensures
        r == double_point(*pt, p as int),
        r.well_formed(p as int),
        forall|b: u64|
            is_prime(p as int) && pt.on_curve(b as int, p as int) ==> #[trigger] r.on_curve(
                b as int,
                p as int,
            ),
{
    proof {
        assert forall|b: u64|
            is_prime(p as int) && pt.on_curve(b as int, p as int) implies #[trigger] double_point(
            *pt,
            p as int,
        ).on_curve(b as int, p as int) by {
            lemma_double_on_curve(*pt, b, p);
        }
    }
    if pt.infinity || pt.y == 0 {
        return Point::infinity();
    }
    let x2 = mod_mul(pt.x, pt.x, p);
    let num = mod_mul(3, x2, p);
    let den = mod_mul(2, pt.y, p);
    proof {
        let pi = p as int;
        if 2 * pt.y < p {
            lemma_small_mod((2 * pt.y) as nat, p as nat);
        } else {
            lemma_mod_sub_multiples_vanish(2 * pt.y, pi);
            lemma_small_mod((2 * pt.y - p) as nat, p as nat);
        }
        lemma_small_mod(den as nat, p as nat);
        lemma_mul_mod_noop_right(3, pt.x * pt.x, pi);
    }
    let slope = mod_mul(num, mod_inv(den, p), p);
    let x3 = mod_sub(mod_mul(slope, slope, p), mod_mul(2, pt.x, p), p);
    let y3 = mod_sub(mod_mul(slope, mod_sub(pt.x, x3, p), p), pt.y, p);
    proof {
        let pi = p as int;
        let s = slope as int;
        lemma_third_point(s, pt.x as int, pt.y as int, pt.x as int, pi);
        // (s^2 - 2x) and ((s^2 - x) - x) agree modulo p
        let ss = (s * s) % pi;
        let x = pt.x as int;
        lemma_sub_mod_noop_right(ss, 2 * x, pi);
        lemma_small_mod(pt.x as nat, p as nat);
        lemma_sub_mod_noop(ss - x, x, pi);
        assert(((ss - x) % pi - x) % pi == (ss - 2 * x) % pi);
    }
    let r = Point::new(x3, y3);
    assert(r == double_point(*pt, p as int));
    r
}

/// The multiple `k * pt`, by double-and-add from the lowest binary digit up.
///
/// On a curve on which addition is associative this is the sum of `k` copies
/// of the point.
pub fn scalar_mul(k: u64, pt: &Point, p: u64) -> (r: Point)
    requires
        p % 2 == 1,
        pt.reduced(p as int),
    ensures
        r == scalar_multiple(k as nat, *pt, p as int),
        r.well_formed(p as int),
        forall|b: u64|
            is_prime(p as int) && pt.on_curve(b as int, p as int) ==> #[trigger] r.on_curve(
                b as int,
                p as int,
            ),
        forall|b: u64|
            is_prime(p as int) && is_member(*pt, b, p) && #[trigger] addition_is_associative(b, p)
                ==> r == repeated_sum(k as nat, *pt, p as int),
{
    proof {
        assert forall|b: u64|
            is_prime(p as int) && is_member(*pt, b, p) && #[trigger] addition_is_associative(
                b,
                p,
            ) implies scalar_multiple(k as nat, *pt, p as int) == repeated_sum(
            k as nat,
            *pt,
            p as int,
        ) by {
            lemma_scalar_multiple_is_repeated_sum(k as nat, *pt, b, p);
        }
        assert forall|b: u64|
            is_prime(p as int) && pt.on_curve(
                b as int,
                p as int,
            ) implies #[trigger] scalar_multiple(k as nat, *pt, p as int).on_curve(
            b as int,
            p as int,
        ) by {
            lemma_scalar_multiple_on_curve(k as nat, *pt, b, p);
        }
    }
    if k == 0 || pt.infinity {
        return Point::infinity();
    }
    let mut result = Point::infinity();
    let mut base = *pt;
    let mut rest: u64 = k;
    while rest > 0
        invariant
            p % 2 == 1,
            base.reduced(p as int),
            result.well_formed(p as int),
            !base.infinity || base.well_formed(p as int),
            add_doublings(rest as nat, base, result, p as int) == scalar_multiple(
                k as nat,
                *pt,
                p as int,
            ),
        decreases rest,
    {
        if rest % 2 == 1 {
            result = point_add(&result, &base, p);
        }
        base = point_double(&base, p);
        rest = rest / 2;
    }
    result
}

/// The inverse of a point: `(x, p - y)`.
pub fn point_neg(pt: &Point, p: u64) -> (r: Point)
    requires
        p > 0,
        pt.reduced(p as int),
    ensures
        r == negate(*pt, p as int),
        r.well_formed(p as int),
        forall|b: u64|
            pt.on_curve(b as int, p as int) ==> #[trigger] r.on_curve(b as int, p as int),
{
    proof {
        assert forall|b: u64| pt.on_curve(b as int, p as int) implies #[trigger] negate(
            *pt,
            p as int,
        ).on_curve(b as int, p as int) by {
            lemma_negate_on_curve(*pt, b, p);
        }
    }
    if pt.infinity {
        return Point::infinity();
    }
    Point::new(pt.x, mod_sub(0, pt.y, p))
}

/// The number of points of the curve `y^2 = x^3 + b` modulo `p`, the point at
/// infinity among them, counted abscissa by abscissa with Euler's criterion.
///
/// Modulo an odd prime this is the number of solutions of the equation, and
/// one for the point at infinity.
pub fn count_points(b: u64, p: u64) -> (count: u64)
    requires
        p > 0,
        2 * p + 1 <= u64::MAX,
    ensures
        count == points_below(p as int, b as int, p as int),
        is_prime(p as int) && p > 2 ==> count == 1 + affine_points_below(
            p as int,
            b as int,
            p as int,
        ),
{
    let mut count: u64 = 1;
    let mut x: u64 = 0;
    while x < p
        invariant
            x <= p,
            p > 0,
            2 * p + 1 <= u64::MAX,
            count == points_below(x as int, b as int, p as int),
            is_prime(p as int) && p > 2 ==> count == 1 + affine_points_below(
                x as int,
                b as int,
                p as int,
            ),
            count <= 2 * x + 1,
        decreases p - x,
    {
        let rhs = mod_add(mod_pow(x, 3, p), b, p);
        proof {
            let xi = x as int;
            reveal_with_fuel(pow, 4);
            assert(pow(xi, 3) == xi * xi * xi) by (nonlinear_arith)
                requires
                    pow(xi, 3) == xi * (xi * (xi * 1)),
            ;
            lemma_add_mod_noop(xi * xi * xi, b as int, p as int);
            lemma_add_mod_noop(pow_mod(xi, 3, p as int), b as int, p as int);
            lemma_mod_twice(xi * xi * xi, p as int);
            assert(rhs == curve_rhs(xi, b as int, p as int));
            if is_prime(p as int) && p > 2 {
                lemma_square_root_count(rhs as int, p as int);
            }
        }
        if rhs == 0 {
            count = count + 1;
        } else {
            let ls = legendre(rhs, p);
            if ls == 1 {
                count = count + 2;
            }
        }
        x = x + 1;
    }
    count
}

/// Whether `pt` passes the test for a generator of a group of `order`
/// elements. The prime factors of `order` are found by trial division.
pub fn is_generator(pt: &Point, order: u64, p: u64) -> (r: bool)
    requires
        p % 2 == 1,
        pt.reduced(p as int),
    ensures
        r == has_full_order(*pt, order as int, p as int),
{
    if !scalar_mul(order, pt, p).infinity {
        return false;
    }
    if order == 0 {
        return true;
    }
    let mut n: u64 = order;
    let mut f: u64 = 2;
    proof {
        lemma_mod_self_0(order as int);
    }
    while f <= n / f
        invariant
            p % 2 == 1,
            pt.reduced(p as int),
            1 <= n <= order,
            order % n == 0,
            2 <= f,
            forall|d: int| 2 <= d < f ==> #[trigger] (n as int % d) != 0,
            forall|q: int|
                is_prime(q) && q <= order && order as int % q == 0 ==> n as int % q == 0
                    || #[trigger] cofactor_multiple_is_affine(q, *pt, order as int, p as int),
        decreases order - f,
    {
        proof {
            assert(f * f <= n && 2 * f <= n) by (nonlinear_arith)
                requires
                    f <= n / f,
                    f >= 2,
                    n >= 1,
            ;
        }
        if n % f == 0 {
            proof {
                lemma_least_divisor_is_prime(f as int, n as int);
                lemma_divides_transitive(f as int, n as int, order as int);
            }
            if scalar_mul(order / f, pt, p).infinity {
                proof {
                    assert(!cofactor_multiple_is_affine(f as int, *pt, order as int, p as int));
                }
                return false;
            }
            let ghost before: int = n as int;
            while n % f == 0
                invariant
                    is_prime(f as int),
                    1 <= n <= before,
                    before <= order,
                    order % n == 0,
                    cofactor_multiple_is_affine(f as int, *pt, order as int, p as int),
                    forall|d: int| 2 <= d < f ==> #[trigger] (n as int % d) != 0,
                    forall|q: int|
                        is_prime(q) && q <= order && order as int % q == 0 ==> n as int % q == 0
                            || #[trigger] cofactor_multiple_is_affine(
                            q,
                            *pt,
                            order as int,
                            p as int,
                        ),
                decreases n,
            {
                let ghost prev: int = n as int;
                n = n / f;
                proof {
                    lemma_quotient_divides(prev, f as int);
                    lemma_divides_transitive(n as int, prev, order as int);
                    assert forall|d: int| 2 <= d < f implies #[trigger] (n as int % d) != 0 by {
                        if n as int % d == 0 {
                            lemma_divides_transitive(d, n as int, prev);
                        }
                    }
                    assert forall|q: int|
                        is_prime(q) && q <= order && order as int % q == 0 implies n as int % q
                        == 0 || #[trigger] cofactor_multiple_is_affine(
                        q,
                        *pt,
                        order as int,
                        p as int,
                    ) by {
                        if q != f && !cofactor_multiple_is_affine(q, *pt, order as int, p as int) {
                            assert(prev % q == 0);
                            lemma_prime_divides_cofactor(q, f as int, n as int);
                        }
                    }
                    assert(n < prev) by (nonlinear_arith)
                        requires
                            prev == f * n,
                            f >= 2,
                            n >= 1,
                    ;
                }
            }
        }
        f = f + 1;
    }
    proof {
        if n >= 1 {
            assert((f as int) * (f as int) > n) by (nonlinear_arith)
                requires
                    f > n / f,
                    f >= 2,
                    n >= 0,
            ;
        }
    }
    if n > 1 {
        proof {
            lemma_no_divisor_to_root_is_prime(n as int, f as int);
        }
        if scalar_mul(order / n, pt, p).infinity {
            proof {
                assert(!cofactor_multiple_is_affine(n as int, *pt, order as int, p as int));
            }
            return false;
        }
    }
    proof {
        assert forall|q: int|
            is_prime(q) && q <= order && order as int % q == 0 implies #[trigger] cofactor_multiple_is_affine(
            q,
            *pt,
            order as int,
            p as int,
        ) by {
            if !cofactor_multiple_is_affine(q, *pt, order as int, p as int) {
                assert(n as int % q == 0);
                if n == 1 {
                    lemma_small_mod(1, q as nat);
                } else {
                    // q divides the prime n, so q is n
                    if q < n {
                        assert(n as int % q != 0);
                    } else if q > n {
                        lemma_small_mod(n as nat, q as nat);
                    }
                }
            }
        }
    }
    true
}

/// The first point `(x, y)` with `x` from 1 up that generates a group of
/// `order` elements on the curve `y^2 = x^3 + b` modulo the prime `p`.
///
/// For each `x` the ordinate is the square root of `x^3 + b` that `mod_sqrt`
/// gives; a point with ordinate zero is passed over. The multiple of the
/// generator by `order` is the point at infinity, and the multiple by
/// `order / q` is not, for any prime factor `q` of `order`. For a prime
/// `order` that covers every proper divisor; for any other it does on a curve
/// on which addition is associative.
pub fn find_generator(b: u64, p: u64, order: u64) -> (r: Result<Point, ConfigurationError>)
    requires
        is_prime(p as int),
        p > 2,
    ensures
        match r {
            Ok(g) => {
                &&& 1 <= g.x < p
                &&& generator_above(g.x as int, b as int, p as int, order as int) == Some(g)
                &&& forall|x: int|
                    1 <= x < g.x ==> #[trigger] generator_above(
                        x,
                        b as int,
                        p as int,
                        order as int,
                    ) is None
                &&& !g.infinity && g.well_formed(p as int) && g.y != 0
                &&& g.on_curve(b as int, p as int)
                &&& has_full_order(g, order as int, p as int)
                &&& is_prime(order as int) || addition_is_associative(b, p) ==> forall|d: int|
                    1 <= d < order && order as int % d == 0 ==> !(#[trigger] scalar_multiple(
                        d as nat,
                        g,
                        p as int,
                    )).infinity
            },
            Err(e) => {
                &&& e == ConfigurationError::NoGenerator
                &&& forall|x: int|
                    1 <= x < p ==> #[trigger] generator_above(
                        x,
                        b as int,
                        p as int,
                        order as int,
                    ) is None
            },
        },
{
    proof {
        assert((p as int) % 2 != 0);
    }
    let mut x: u64 = 1;
    while x < p
        invariant
            1 <= x <= p,
            is_prime(p as int),
            p % 2 == 1,
            forall|w: int|
                1 <= w < x ==> #[trigger] generator_above(w, b as int, p as int, order as int)
                    is None,
        decreases p - x,
    {
        let rhs = mod_add(mod_pow(x, 3, p), b, p);
        proof {
            let xi = x as int;
            reveal_with_fuel(pow, 4);
            assert(pow(xi, 3) == xi * xi * xi) by (nonlinear_arith)
                requires
                    pow(xi, 3) == xi * (xi * (xi * 1)),
            ;
            lemma_add_mod_noop(xi * xi * xi, b as int, p as int);
            lemma_add_mod_noop(pow_mod(xi, 3, p as int), b as int, p as int);
            lemma_mod_twice(xi * xi * xi, p as int);
            assert(rhs == curve_rhs(xi, b as int, p as int));
        }
        match mod_sqrt(rhs, p) {
            Some(y) => {
                if y != 0 {
                    let pt = Point::new(x, y);
                    if is_generator(&pt, order, p) {
                        proof {
                            if is_prime(order as int) {
                                lemma_prime_order_is_exact(pt, order, p);
                            } else if addition_is_associative(b, p) {
                                lemma_full_order_is_exact(pt, order, b, p);
                            }
                        }
                        return Ok(pt);
                    }
                }
            },
            None => {},
        }
        x = x + 1;
    }
    Err(ConfigurationError::NoGenerator)
}

} // verus!
