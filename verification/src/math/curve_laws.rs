//! What holds of the group law: the sum of two points of the curve is a point
//! of the curve, the point at infinity is the identity, and the mirror image
//! of a point is its inverse.

use vstd::prelude::*;
use vstd::arithmetic::div_mod::*;
use vstd::arithmetic::mul::*;
use crate::math::curve::{
    add_doublings, add_points, chord_slope, double_point, has_full_order, negate,
    scalar_multiple, tangent_slope, third_point, Point,
};
use crate::math::number_theory::{
    cong, inv_mod, is_prime, lemma_cong_add, lemma_cong_mod, lemma_cong_mul, lemma_cong_sub,
    lemma_divisible_combination, lemma_inv_mod_prime, lemma_prime_divides_product,
};

verus! {

/// What the curve equation leaves of the point `(x, y)`: `x^3 + b - y^2`.
pub open spec fn curve_defect(x: int, y: int, b: int) -> int {
    x * x * x + b - y * y
}

/// A point is on the curve exactly if `p` divides its defect.
pub proof fn lemma_on_curve_defect(pt: Point, b: int, p: int)
    requires
        p > 0,
        !pt.infinity,
    ensures
        pt.on_curve(b, p) <==> curve_defect(pt.x as int, pt.y as int, b) % p == 0,
{
    lemma_mod_equivalence(pt.x * pt.x * pt.x + b, pt.y * pt.y, p);
}

/// The line of slope `s` through `(x1, y1)` meets the curve a third time
/// above `s^2 - x1 - x2`: if `p` divides the defect of the point of the
/// line there, the point that the group law gives is on the curve.
proof fn lemma_third_point_on_curve(s: int, x1: int, y1: int, x2: int, b: int, p: int)
    requires
        0 < p <= u64::MAX,
        ({
            let xs = s * s - x1 - x2;
            curve_defect(xs, s * (xs - x1) + y1, b) % p == 0
        }),
    ensures
        third_point(s, x1, y1, x2, p).on_curve(b, p),
{
    let xs = s * s - x1 - x2;
    let ys = s * (xs - x1) + y1;
    let x3 = xs % p;
    let y3 = (s * (x1 - x3) - y1) % p;
    lemma_mod_bound(xs, p);
    lemma_mod_bound(s * (x1 - x3) - y1, p);
    let pt = third_point(s, x1, y1, x2, p);
    assert(pt.x == x3 && pt.y == y3);
    // x3 is xs, and y3 is -ys, modulo p
    lemma_cong_mod(xs, p);
    lemma_cong_mod(s * (x1 - x3) - y1, p);
    lemma_cong_sub(x1, x1, x3, xs, p);
    lemma_cong_mul(s, s, x1 - x3, x1 - xs, p);
    lemma_cong_sub(s * (x1 - x3), s * (x1 - xs), y1, y1, p);
    assert(s * (x1 - xs) - y1 == -ys) by (nonlinear_arith)
        requires
            ys == s * (xs - x1) + y1,
    ;
    assert(cong(y3, -ys, p));
    lemma_cong_mul(y3, -ys, y3, -ys, p);
    assert((-ys) * (-ys) == ys * ys) by (nonlinear_arith);
    assert(cong(y3 * y3, ys * ys, p));
    lemma_cong_mul(x3, xs, x3, xs, p);
    lemma_cong_mul(x3 * x3, xs * xs, x3, xs, p);
    lemma_cong_add(x3 * x3 * x3, xs * xs * xs, b, b, p);
    lemma_mod_equivalence(xs * xs * xs + b, ys * ys, p);
}

/// What a line through `(x1, y1)` adds to the defect: with `l` the ordinate
/// of the line of slope `s` above `t`, the defect of `(t, l)` is that of
/// `(x1, y1)` and a multiple of `t - x1`.
pub open spec fn line_cofactor(s: int, x1: int, y1: int, t: int) -> int {
    t * t + t * x1 + x1 * x1 - s * ((s * (t - x1) + y1) + y1)
}

proof fn lemma_defect_along_line(s: int, x1: int, y1: int, t: int, b: int)
    ensures
        curve_defect(t, s * (t - x1) + y1, b) == curve_defect(x1, y1, b) + (t - x1) * line_cofactor(
            s,
            x1,
            y1,
            t,
        ),
{
    let d = t - x1;
    let l = s * d + y1;
    let q = t * t + t * x1 + x1 * x1;
    let m = s * (l + y1);
    assert(t * t * t - x1 * x1 * x1 == d * q) by (nonlinear_arith)
        requires
            d == t - x1,
            q == t * t + t * x1 + x1 * x1,
    ;
    assert(l * l - y1 * y1 == (l - y1) * (l + y1)) by (nonlinear_arith);
    assert((s * d) * (l + y1) == d * (s * (l + y1))) by (nonlinear_arith);
    assert(l * l - y1 * y1 == d * m);
    assert(d * q - d * m == d * (q - m)) by (nonlinear_arith);
}

/// The cofactors of a line above two abscissas agree if the two and the
/// abscissa that the line starts from add up to the square of its slope.
proof fn lemma_line_cofactors_agree(s: int, x1: int, y1: int, x2: int, xs: int)
    requires
        xs + x1 + x2 == s * s,
    ensures
        line_cofactor(s, x1, y1, xs) == line_cofactor(s, x1, y1, x2),
{
    let w = xs - x2;
    let ls = s * (xs - x1) + y1;
    let l2 = s * (x2 - x1) + y1;
    assert((xs * xs + xs * x1 + x1 * x1) - (x2 * x2 + x2 * x1 + x1 * x1) == w * (xs + x2 + x1))
        by (nonlinear_arith)
        requires
            w == xs - x2,
    ;
    assert(ls - l2 == s * w) by (nonlinear_arith)
        requires
            ls == s * (xs - x1) + y1,
            l2 == s * (x2 - x1) + y1,
            w == xs - x2,
    ;
    assert(s * (ls + y1) - s * (l2 + y1) == s * (ls - l2)) by (nonlinear_arith);
    assert(s * (s * w) == w * (s * s)) by (nonlinear_arith);
    assert(w * (xs + x2 + x1) - w * (s * s) == w * (xs + x2 + x1 - s * s)) by (nonlinear_arith);
    assert(w * (xs + x2 + x1 - s * s) == 0) by (nonlinear_arith)
        requires
            xs + x2 + x1 - s * s == 0,
    ;
}

/// The slope `s = u / v` satisfies `s * v = u` modulo the prime `p`.
pub proof fn lemma_slope(u: int, v: int, p: int)
    requires
        is_prime(p),
        v % p != 0,
    ensures
        ({
            let s = ((u % p) * inv_mod(v % p, p)) % p;
            cong(s * v, u, p)
        }),
{
    let i = inv_mod(v % p, p);
    let s = ((u % p) * i) % p;
    lemma_mod_bound(v, p);
    lemma_mod_twice(v, p);
    lemma_inv_mod_prime(v % p, p);
    // s * v == u * i * v == u * (v * i) == u
    lemma_cong_mod((u % p) * i, p);
    lemma_cong_mod(u, p);
    lemma_cong_mul(u % p, u, i, i, p);
    assert(cong(s, u * i, p));
    lemma_cong_mul(s, u * i, v, v, p);
    assert((u * i) * v == u * (v * i)) by (nonlinear_arith);
    lemma_cong_mod(v, p);
    lemma_cong_mul(v % p, v, i, i, p);
    lemma_small_mod(1, p as nat);
    assert(cong(v * i, 1, p));
    lemma_cong_mul(u, u, v * i, 1, p);
    lemma_mul_basics(u);
}

/// Twice a point of the curve is a point of the curve.
pub proof fn lemma_double_on_curve(pt: Point, b: u64, p: u64)
    requires
        is_prime(p as int),
        p > 2,
        pt.reduced(p as int),
        pt.on_curve(b as int, p as int),
    ensures
        double_point(pt, p as int).on_curve(b as int, p as int),
{
    if !pt.infinity && pt.y != 0 {
        let pi = p as int;
        let bi = b as int;
        let x = pt.x as int;
        let y = pt.y as int;
        let s = tangent_slope(pt, pi);
        // p does not divide 2 * y
        assert((2 * y) % pi != 0) by {
            assert(pi % 2 != 0);
            lemma_small_mod(2, p as nat);
            lemma_small_mod(y as nat, p as nat);
            if (2 * y) % pi == 0 {
                lemma_prime_divides_product(2, y, pi);
            }
        }
        lemma_slope(3 * (x * x), 2 * y, pi);
        assert(cong(s * (2 * y), 3 * (x * x), pi));
        lemma_mod_equivalence(3 * (x * x), s * (2 * y), pi);
        let e2 = 3 * (x * x) - s * (2 * y);
        assert(e2 % pi == 0);
        lemma_on_curve_defect(pt, bi, pi);
        let e1 = curve_defect(x, y, bi);
        // the defect above xs is e1 + e2 * (xs - x)
        let xs = s * s - x - x;
        let d = xs - x;
        let ys = s * d + y;
        assert(xs * xs * xs == x * x * x + 3 * (x * x) * d + 3 * x * (d * d) + d * d * d)
            by (nonlinear_arith)
            requires
                xs == x + d,
        ;
        assert(ys * ys == (s * s) * (d * d) + (s * (2 * y)) * d + y * y) by (nonlinear_arith)
            requires
                ys == s * d + y,
        ;
        assert(3 * x * (d * d) + d * d * d - (s * s) * (d * d) == (d * d) * (3 * x + d - s * s))
            by (nonlinear_arith);
        assert(3 * x + d - s * s == 0);
        assert((d * d) * (3 * x + d - s * s) == 0) by (nonlinear_arith)
            requires
                3 * x + d - s * s == 0,
        ;
        assert(curve_defect(xs, ys, bi) == e1 + d * e2) by (nonlinear_arith)
            requires
                xs * xs * xs == x * x * x + 3 * (x * x) * d + 3 * x * (d * d) + d * d * d,
                ys * ys == (s * s) * (d * d) + (s * (2 * y)) * d + y * y,
                3 * x * (d * d) + d * d * d - (s * s) * (d * d) == 0,
                e1 == x * x * x + bi - y * y,
                e2 == 3 * (x * x) - s * (2 * y),
                curve_defect(xs, ys, bi) == xs * xs * xs + bi - ys * ys,
        ;
        lemma_divisible_combination(e1, e2, d, pi);
        lemma_third_point_on_curve(s, x, y, x, bi, pi);
    }
}

/// The sum of two points of the curve is a point of the curve.
pub proof fn lemma_add_on_curve(first: Point, second: Point, b: u64, p: u64)
    requires
        is_prime(p as int),
        p > 2,
        first.reduced(p as int),
        second.reduced(p as int),
        first.on_curve(b as int, p as int),
        second.on_curve(b as int, p as int),
    ensures
        add_points(first, second, p as int).on_curve(b as int, p as int),
{
    if first.infinity || second.infinity {
    } else if first.x == second.x {
        lemma_double_on_curve(first, b, p);
    } else {
        let pi = p as int;
        let bi = b as int;
        let x1 = first.x as int;
        let y1 = first.y as int;
        let x2 = second.x as int;
        let y2 = second.y as int;
        let s = chord_slope(first, second, pi);
        let e = x2 - x1;
        assert(e % pi != 0) by {
            if e > 0 {
                lemma_small_mod(e as nat, p as nat);
            } else {
                lemma_mod_add_multiples_vanish(e, pi);
                lemma_small_mod((e + pi) as nat, p as nat);
            }
        }
        lemma_slope(y2 - y1, e, pi);
        assert(cong(s * e, y2 - y1, pi));
        lemma_on_curve_defect(first, bi, pi);
        lemma_on_curve_defect(second, bi, pi);
        let f1 = curve_defect(x1, y1, bi);
        // the point of the line above x2 is on the curve: its ordinate is y2 modulo p
        let l2 = s * e + y1;
        lemma_cong_add(s * e, y2 - y1, y1, y1, pi);
        assert(cong(l2, y2, pi));
        lemma_cong_mul(l2, y2, l2, y2, pi);
        lemma_cong_sub(x2 * x2 * x2 + bi, x2 * x2 * x2 + bi, l2 * l2, y2 * y2, pi);
        let f2 = curve_defect(x2, l2, bi);
        assert(f2 % pi == 0);
        // the defects above x2 and above xs are f1 + e * g2 and f1 + d * g2
        let xs = s * s - x1 - x2;
        let d = xs - x1;
        let g2 = line_cofactor(s, x1, y1, x2);
        lemma_defect_along_line(s, x1, y1, x2, bi);
        lemma_defect_along_line(s, x1, y1, xs, bi);
        lemma_line_cofactors_agree(s, x1, y1, x2, xs);
        assert(f2 == f1 + e * g2);
        assert(curve_defect(xs, s * (xs - x1) + y1, bi) == f1 + d * g2);
        // p divides e * g2 and not e, so it divides g2
        lemma_divisible_combination(f2, f1, 1, pi);
        assert(f2 - 1 * f1 == e * g2);
        lemma_prime_divides_product(e, g2, pi);
        assert(g2 % pi == 0);
        lemma_divisible_combination(f1, g2, d, pi);
        lemma_third_point_on_curve(s, x1, y1, x2, bi, pi);
    }
}

/// The mirror image of a point of the curve is a point of the curve.
pub proof fn lemma_negate_on_curve(pt: Point, b: u64, p: u64)
    requires
        p > 0,
        pt.reduced(p as int),
        pt.on_curve(b as int, p as int),
    ensures
        negate(pt, p as int).on_curve(b as int, p as int),
        negate(pt, p as int).well_formed(p as int),
{
    if !pt.infinity {
        let pi = p as int;
        let y = pt.y as int;
        let ny = (0 - y) % pi;
        lemma_mod_bound(0 - y, pi);
        lemma_cong_mod(0 - y, pi);
        lemma_cong_mul(ny, 0 - y, ny, 0 - y, pi);
        assert((0 - y) * (0 - y) == y * y) by (nonlinear_arith);
    }
}

/// The point at infinity is the identity of the group law: added on either
/// side, it gives the other point back. This holds for every modulus and
/// every point, the point at infinity among them, as `Point::infinity`
/// writes it.
pub proof fn lemma_add_identity(pt: Point, p: u64)
    requires
        pt.infinity ==> pt == Point::at_infinity(),
    ensures
        add_points(pt, Point::at_infinity(), p as int) == pt,
        add_points(Point::at_infinity(), pt, p as int) == pt,
{
}

/// The mirror image of a point is its inverse, modulo an odd number.
pub proof fn lemma_add_inverse(pt: Point, p: u64)
    requires
        p % 2 == 1,
        pt.well_formed(p as int),
    ensures
        add_points(pt, negate(pt, p as int), p as int) == Point::at_infinity(),
        add_points(negate(pt, p as int), pt, p as int) == Point::at_infinity(),
{
    if !pt.infinity {
        let pi = p as int;
        let y = pt.y as int;
        if y == 0 {
            lemma_small_mod(0, p as nat);
        } else {
            lemma_mod_add_multiples_vanish(0 - y, pi);
            lemma_small_mod((pi - y) as nat, p as nat);
            assert((0 - y) % pi == pi - y);
        }
    }
}

/// The sum of two points does not depend on their order.
pub proof fn lemma_add_commutes(first: Point, second: Point, p: u64)
    requires
        is_prime(p as int),
        first.well_formed(p as int),
        second.well_formed(p as int),
    ensures
        add_points(first, second, p as int) == add_points(second, first, p as int),
{
    if !first.infinity && !second.infinity && first.x != second.x {
        let pi = p as int;
        let x1 = first.x as int;
        let y1 = first.y as int;
        let x2 = second.x as int;
        let y2 = second.y as int;
        let s = chord_slope(first, second, pi);
        let t = chord_slope(second, first, pi);
        let e = x2 - x1;
        assert(e % pi != 0 && (0 - e) % pi != 0) by {
            if e > 0 {
                lemma_small_mod(e as nat, p as nat);
                lemma_mod_add_multiples_vanish(0 - e, pi);
                lemma_small_mod((pi - e) as nat, p as nat);
            } else {
                lemma_small_mod((0 - e) as nat, p as nat);
                lemma_mod_add_multiples_vanish(e, pi);
                lemma_small_mod((e + pi) as nat, p as nat);
            }
        }
        lemma_slope(y2 - y1, e, pi);
        lemma_slope(y1 - y2, x1 - x2, pi);
        // s * e == y2 - y1 == t * e, so p divides (s - t) * e, and s == t
        lemma_mod_equivalence(s * e, y2 - y1, pi);
        lemma_mod_equivalence(t * (x1 - x2), y1 - y2, pi);
        lemma_divisible_combination(s * e - (y2 - y1), t * (x1 - x2) - (y1 - y2), 1, pi);
        assert((s * e - (y2 - y1)) + 1 * (t * (x1 - x2) - (y1 - y2)) == (s - t) * e)
            by (nonlinear_arith)
            requires
                e == x2 - x1,
        ;
        lemma_prime_divides_product(s - t, e, pi);
        lemma_mod_bound(((y2 - y1) % pi) * inv_mod(e % pi, pi), pi);
        lemma_mod_bound(((y1 - y2) % pi) * inv_mod((x1 - x2) % pi, pi), pi);
        assert(s == t) by {
            if s > t {
                lemma_small_mod((s - t) as nat, p as nat);
            } else if s < t {
                lemma_mod_add_multiples_vanish(s - t, pi);
                lemma_small_mod((s - t + pi) as nat, p as nat);
            }
        }
        // the abscissas agree as they stand; the ordinates differ by s * e - (y2 - y1)
        let x3 = (s * s - x1 - x2) % pi;
        assert(s * s - x2 - x1 == s * s - x1 - x2);
        assert((s * (x2 - x3) - y2) - (s * (x1 - x3) - y1) == s * e - (y2 - y1))
            by (nonlinear_arith)
            requires
                e == x2 - x1,
        ;
        lemma_mod_equivalence(s * (x2 - x3) - y2, s * (x1 - x3) - y1, pi);
    }
}

/// The sum over the binary digits of a number stays on the curve.
pub proof fn lemma_add_doublings_on_curve(k: nat, base: Point, acc: Point, b: u64, p: u64)
    requires
        is_prime(p as int),
        p > 2,
        base.reduced(p as int),
        acc.reduced(p as int),
        base.on_curve(b as int, p as int),
        acc.on_curve(b as int, p as int),
    ensures
        add_doublings(k, base, acc, p as int).on_curve(b as int, p as int),
        add_doublings(k, base, acc, p as int).reduced(p as int),
    decreases k,
{
    if k != 0 {
        lemma_double_on_curve(base, b, p);
        lemma_add_on_curve(acc, base, b, p);
        lemma_sum_reduced(acc, base, p);
        lemma_sum_reduced(base, base, p);
        let next = if k % 2 == 1 {
            add_points(acc, base, p as int)
        } else {
            acc
        };
        lemma_add_doublings_on_curve(k / 2, double_point(base, p as int), next, b, p);
    }
}

/// The coordinates of a sum and of a double lie below the modulus.
pub proof fn lemma_sum_reduced(first: Point, second: Point, p: u64)
    requires
        p > 0,
        first.reduced(p as int),
        second.reduced(p as int),
    ensures
        add_points(first, second, p as int).reduced(p as int),
        double_point(first, p as int).reduced(p as int),
{
    let pi = p as int;
    if !first.infinity {
        let s = tangent_slope(first, pi);
        lemma_mod_bound(s * s - first.x - first.x, pi);
        lemma_mod_bound(s * (first.x - (s * s - first.x - first.x) % pi) - first.y, pi);
        if !second.infinity {
            let c = chord_slope(first, second, pi);
            lemma_mod_bound(c * c - first.x - second.x, pi);
            lemma_mod_bound(c * (first.x - (c * c - first.x - second.x) % pi) - first.y, pi);
        }
    }
}

/// The coordinates of the mirror image of a point lie below the modulus.
pub proof fn lemma_negate_reduced(pt: Point, p: u64)
    requires
        p > 0,
        pt.reduced(p as int),
    ensures
        negate(pt, p as int).well_formed(p as int),
{
    if !pt.infinity {
        lemma_mod_bound(0 - pt.y, p as int);
    }
}

/// The coordinates of a sum over binary digits lie below the modulus.
pub proof fn lemma_add_doublings_reduced(k: nat, base: Point, acc: Point, p: u64)
    requires
        p > 0,
        base.reduced(p as int),
        acc.reduced(p as int),
    ensures
        add_doublings(k, base, acc, p as int).reduced(p as int),
    decreases k,
{
    if k != 0 {
        lemma_sum_reduced(acc, base, p);
        lemma_sum_reduced(base, base, p);
        let next = if k % 2 == 1 {
            add_points(acc, base, p as int)
        } else {
            acc
        };
        lemma_add_doublings_reduced(k / 2, double_point(base, p as int), next, p);
    }
}

/// The coordinates of every multiple of a point lie below the modulus.
pub proof fn lemma_scalar_multiple_reduced(k: nat, pt: Point, p: u64)
    requires
        p > 0,
        pt.reduced(p as int),
    ensures
        scalar_multiple(k, pt, p as int).reduced(p as int),
{
    if k != 0 && !pt.infinity {
        lemma_add_doublings_reduced(k, pt, Point::at_infinity(), p);
    }
}

/// Every multiple of a point of the curve is a point of the curve.
pub proof fn lemma_scalar_multiple_on_curve(k: nat, pt: Point, b: u64, p: u64)
    requires
        is_prime(p as int),
        p > 2,
        pt.reduced(p as int),
        pt.on_curve(b as int, p as int),
    ensures
        scalar_multiple(k, pt, p as int).on_curve(b as int, p as int),
        scalar_multiple(k, pt, p as int).reduced(p as int),
{
    if k != 0 && !pt.infinity {
        lemma_add_doublings_on_curve(k, pt, Point::at_infinity(), b, p);
    }
}

/// In a group of prime order, a point other than the point at infinity
/// that passes the test for a generator has its order exactly: the multiple
/// by the order is the point at infinity, and the multiple by no proper
/// divisor of the order is.
pub proof fn lemma_prime_order_is_exact(g: Point, n: u64, p: u64)
    requires
        is_prime(n as int),
        !g.infinity,
        has_full_order(g, n as int, p as int),
    ensures
        scalar_multiple(n as nat, g, p as int).infinity,
        forall|d: int|
            1 <= d < n && n as int % d == 0 ==> !(#[trigger] scalar_multiple(
                d as nat,
                g,
                p as int,
            )).infinity,
{
    assert forall|d: int| 1 <= d < n && n as int % d == 0 implies !(#[trigger] scalar_multiple(
        d as nat,
        g,
        p as int,
    )).infinity by {
        assert(d == 1);
        reveal_with_fuel(add_doublings, 3);
        assert(scalar_multiple(1, g, p as int) == g);
    }
}

} // verus!
