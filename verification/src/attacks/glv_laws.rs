//! What the searches over orbits find, once the addition of points is known
//! to be associative and the endomorphism to act on the generator as the
//! scalar `lambda`: the logarithm.

use vstd::prelude::*;
use vstd::arithmetic::div_mod::*;
use vstd::arithmetic::mul::*;
use crate::attacks::bsgs::{
    baby_key, baby_point, ceil_sqrt, first_baby, giant_point, giant_stride, glv_giant_steps,
    glv_solution, key_of, lemma_first_baby, lemma_key_tells_points_apart, meeting_log,
};
use crate::attacks::bsgs_laws::{lemma_ceil_sqrt_exists, lemma_giant_point};
use crate::endomorphism::{
    canonical, endo, index_in, is_cube_root_of_unity, least_lambda_from, lemma_index_in,
    lemma_negate_twice, lemma_orbit_abscissas, orbit, orbit_scalars,
};
use crate::math::curve::{
    add_points, chord_slope, negate, repeated_sum, scalar_multiple, tangent_slope, third_point,
    Point,
};
use crate::math::curve_laws::{lemma_add_commutes, lemma_slope};
use crate::math::group::{
    is_cyclic, is_member, lemma_add_then_take_away, lemma_congruent_multiples,
    lemma_inverse_is_member, lemma_repeated_sum_adds, lemma_repeated_sum_is_member,
    lemma_repeated_sum_is_periodic, lemma_repeated_sum_multiplies,
    lemma_scalar_multiple_is_repeated_sum,
};
use crate::math::number_theory::{
    cong, is_prime, lemma_cong_mod, lemma_cong_mul, lemma_cong_sub, lemma_prime_divides_product,
};

verus! {

/// A number that is congruent to zero and lies between `-p` and `p` is
/// zero.
proof fn lemma_small_multiple_is_zero(x: int, p: int)
    requires
        p > 0,
        -p < x < p,
        x % p == 0,
    ensures
        x == 0,
{
    if x > 0 {
        lemma_small_mod(x as nat, p as nat);
    } else if x < 0 {
        lemma_mod_add_multiples_vanish(x, p);
        lemma_small_mod((x + p) as nat, p as nat);
    }
}

/// Division modulo a prime: what a number that `p` does not divide
/// multiplies to the same, is the same.
proof fn lemma_cancel(u: int, v: int, w: int, p: int)
    requires
        is_prime(p),
        w % p != 0,
        cong(u * w, v * w, p),
    ensures
        cong(u, v, p),
{
    lemma_mod_equivalence(u * w, v * w, p);
    assert(u * w - v * w == (u - v) * w) by (nonlinear_arith);
    lemma_prime_divides_product(u - v, w, p);
    lemma_mod_equivalence(u, v, p);
}

/// The point that the group law gives on a line, for abscissas multiplied
/// by `beta` and a slope divided by `beta`, is the image under the
/// endomorphism of the point it gives on the line itself.
proof fn lemma_third_point_scaled(s: int, t: int, x1: int, y1: int, x2: int, beta: int, p: u64)
    requires
        is_cube_root_of_unity(beta, p as int),
        cong(t * beta, s, p as int),
    ensures
        third_point(t, (beta * x1) % (p as int), y1, (beta * x2) % (p as int), p as int) == endo(
            third_point(s, x1, y1, x2, p as int),
            beta,
            p as int,
        ),
{
    let pi = p as int;
    let bx1 = (beta * x1) % pi;
    let bx2 = (beta * x2) % pi;
    let x3 = (s * s - x1 - x2) % pi;
    let y3 = (s * (x1 - x3) - y1) % pi;
    let u3 = (t * t - bx1 - bx2) % pi;
    let v3 = (t * (bx1 - u3) - y1) % pi;
    lemma_mod_bound(s * s - x1 - x2, pi);
    lemma_mod_bound(s * (x1 - x3) - y1, pi);
    lemma_mod_bound(t * t - bx1 - bx2, pi);
    lemma_mod_bound(t * (bx1 - u3) - y1, pi);
    lemma_mod_bound(beta * x3, pi);
    lemma_small_mod(1, p as nat);
    let cube = beta * beta * beta;
    // t^2 == beta * s^2: beta * s^2 == beta * (t * beta)^2 == t^2 * beta^3
    lemma_cong_mul(t * beta, s, t * beta, s, pi);
    lemma_cong_mul(beta, beta, (t * beta) * (t * beta), s * s, pi);
    assert(beta * ((t * beta) * (t * beta)) == (t * t) * cube) by (nonlinear_arith)
        requires
            cube == beta * beta * beta,
    ;
    lemma_cong_mul(t * t, t * t, cube, 1, pi);
    lemma_mul_basics(t * t);
    assert(cong(t * t, beta * (s * s), pi));
    // u3 == beta * x3
    lemma_cong_mod(beta * x1, pi);
    lemma_cong_mod(beta * x2, pi);
    lemma_cong_sub(t * t, beta * (s * s), bx1, beta * x1, pi);
    lemma_cong_sub(t * t - bx1, beta * (s * s) - beta * x1, bx2, beta * x2, pi);
    assert(beta * (s * s) - beta * x1 - beta * x2 == beta * (s * s - x1 - x2)) by (nonlinear_arith);
    lemma_cong_mod(s * s - x1 - x2, pi);
    lemma_cong_mul(beta, beta, x3, s * s - x1 - x2, pi);
    assert(u3 == (beta * x3) % pi);
    // v3 == y3: t * (beta * x1 - beta * x3) == (t * beta) * (x1 - x3) == s * (x1 - x3)
    lemma_cong_mod(t * t - bx1 - bx2, pi);
    assert(cong(u3, beta * x3, pi));
    lemma_cong_sub(bx1, beta * x1, u3, beta * x3, pi);
    lemma_cong_mul(t, t, bx1 - u3, beta * x1 - beta * x3, pi);
    assert(t * (beta * x1 - beta * x3) == (t * beta) * (x1 - x3)) by (nonlinear_arith);
    lemma_cong_mul(t * beta, s, x1 - x3, x1 - x3, pi);
    lemma_cong_sub(t * (bx1 - u3), s * (x1 - x3), y1, y1, pi);
    assert(v3 == y3);
}

/// The endomorphism takes different abscissas to different abscissas.
proof fn lemma_endo_keeps_apart(x1: int, x2: int, beta: int, p: int)
    requires
        is_prime(p),
        is_cube_root_of_unity(beta, p),
        0 <= x1 < p,
        0 <= x2 < p,
        x1 != x2,
    ensures
        (beta * x1) % p != (beta * x2) % p,
        beta % p != 0,
{
    lemma_small_mod(1, p as nat);
    lemma_small_mod(0, p as nat);
    if beta % p == 0 {
        // then beta^3 would be 0
        lemma_mul_mod_noop_left(beta, beta * beta, p);
        assert(beta * (beta * beta) == beta * beta * beta) by (nonlinear_arith);
        assert(0 * (beta * beta) == 0);
    }
    if (beta * x1) % p == (beta * x2) % p {
        lemma_mod_equivalence(beta * x1, beta * x2, p);
        assert(beta * x1 - beta * x2 == beta * (x1 - x2)) by (nonlinear_arith);
        lemma_prime_divides_product(beta, x1 - x2, p);
        lemma_small_multiple_is_zero(x1 - x2, p);
    }
}

/// The endomorphism is compatible with the addition of points:
/// the image of a sum is the sum of the images.
pub proof fn lemma_endo_is_additive(x: Point, y: Point, beta: u64, b: u64, p: u64)
    requires
        is_prime(p as int),
        p > 2,
        is_cube_root_of_unity(beta as int, p as int),
        x.well_formed(p as int),
        y.well_formed(p as int),
    ensures
        endo(add_points(x, y, p as int), beta as int, p as int) == add_points(
            endo(x, beta as int, p as int),
            endo(y, beta as int, p as int),
            p as int,
        ),
{
    let pi = p as int;
    let bi = beta as int;
    if x.infinity || y.infinity {
    } else {
        let x1 = x.x as int;
        let y1 = x.y as int;
        let x2 = y.x as int;
        let y2 = y.y as int;
        let ex = endo(x, bi, pi);
        let ey = endo(y, bi, pi);
        lemma_mod_bound(bi * x1, pi);
        lemma_mod_bound(bi * x2, pi);
        lemma_small_mod(1, p as nat);
        if x1 == x2 {
            if y1 == y2 && y1 != 0 {
                // the tangent: t * (2 y) == 3 (beta x)^2 == beta^2 * (s * (2 y))
                let s = tangent_slope(x, pi);
                let t = tangent_slope(ex, pi);
                let bx = (bi * x1) % pi;
                assert((2 * y1) % pi != 0) by {
                    assert(pi % 2 != 0);
                    lemma_small_mod(2, p as nat);
                    lemma_small_mod(y1 as nat, p as nat);
                    if (2 * y1) % pi == 0 {
                        lemma_prime_divides_product(2, y1, pi);
                    }
                }
                lemma_slope(3 * (x1 * x1), 2 * y1, pi);
                lemma_slope(3 * (bx * bx), 2 * y1, pi);
                lemma_cong_mod(bi * x1, pi);
                lemma_cong_mul(bx, bi * x1, bx, bi * x1, pi);
                lemma_cong_mul(3, 3, bx * bx, (bi * x1) * (bi * x1), pi);
                assert(3 * ((bi * x1) * (bi * x1)) == (bi * bi) * (3 * (x1 * x1))) by (nonlinear_arith);
                lemma_cong_mul(bi * bi, bi * bi, 3 * (x1 * x1), s * (2 * y1), pi);
                // so (t * beta) * (2 y) == beta^3 * (s * (2 y)) == s * (2 y)
                lemma_cong_mul(t * (2 * y1), (bi * bi) * (s * (2 * y1)), bi, bi, pi);
                assert((t * (2 * y1)) * bi == (t * bi) * (2 * y1)) by (nonlinear_arith);
                assert(((bi * bi) * (s * (2 * y1))) * bi == (bi * bi * bi) * (s * (2 * y1)))
                    by (nonlinear_arith);
                lemma_cong_mul(bi * bi * bi, 1, s * (2 * y1), s * (2 * y1), pi);
                lemma_mul_basics(s * (2 * y1));
                assert(cong((t * bi) * (2 * y1), s * (2 * y1), pi));
                lemma_cancel(t * bi, s, 2 * y1, pi);
                lemma_third_point_scaled(s, t, x1, y1, x1, bi, p);
            }
        } else {
            lemma_endo_keeps_apart(x1, x2, bi, pi);
            let s = chord_slope(x, y, pi);
            let t = chord_slope(ex, ey, pi);
            let bx1 = (bi * x1) % pi;
            let bx2 = (bi * x2) % pi;
            let e = x2 - x1;
            assert(e % pi != 0) by {
                if e % pi == 0 {
                    lemma_small_multiple_is_zero(e, pi);
                }
            }
            assert((bx2 - bx1) % pi != 0) by {
                if (bx2 - bx1) % pi == 0 {
                    lemma_small_multiple_is_zero(bx2 - bx1, pi);
                }
            }
            lemma_slope(y2 - y1, e, pi);
            lemma_slope(y2 - y1, bx2 - bx1, pi);
            // t * (beta * e) == t * (bx2 - bx1) == y2 - y1 == s * e
            lemma_cong_mod(bi * x1, pi);
            lemma_cong_mod(bi * x2, pi);
            lemma_cong_sub(bx2, bi * x2, bx1, bi * x1, pi);
            assert(bi * x2 - bi * x1 == bi * e) by (nonlinear_arith)
                requires
                    e == x2 - x1,
            ;
            lemma_cong_mul(t, t, bx2 - bx1, bi * e, pi);
            assert(t * (bi * e) == (t * bi) * e) by (nonlinear_arith);
            assert(cong((t * bi) * e, s * e, pi));
            lemma_cancel(t * bi, s, e, pi);
            lemma_third_point_scaled(s, t, x1, y1, x2, bi, p);
        }
    }
}

/// The endomorphism takes the multiples of a point to the multiples of its
/// image.
pub proof fn lemma_endo_of_multiple(k: nat, x: Point, beta: u64, b: u64, p: u64)
    requires
        is_prime(p as int),
        p > 2,
        is_cube_root_of_unity(beta as int, p as int),
        is_member(x, b, p),
    ensures
        endo(repeated_sum(k, x, p as int), beta as int, p as int) == repeated_sum(
            k,
            endo(x, beta as int, p as int),
            p as int,
        ),
    decreases k,
{
    if k > 0 {
        let k1 = (k - 1) as nat;
        lemma_endo_of_multiple(k1, x, beta, b, p);
        lemma_repeated_sum_is_member(k1, x, b, p);
        lemma_endo_is_additive(repeated_sum(k1, x, p as int), x, beta, b, p);
    }
}

/// The setting of a search over orbits: a cyclic group generated by `g`,
/// a cube root of unity `beta`, and a scalar `lambda` below `n` by which the
/// endomorphism acts on `g`.
pub open spec fn is_glv_setting(g: Point, n: u64, b: u64, p: u64, beta: u64, lambda: u64) -> bool {
    &&& is_cyclic(g, n, b, p)
    &&& is_cube_root_of_unity(beta as int, p as int)
    &&& lambda < n
    &&& endo(g, beta as int, p as int) == repeated_sum(lambda as nat, g, p as int)
}

/// The endomorphism acts on every multiple of the generator as `lambda`.
pub proof fn lemma_endo_on_group(
    k: nat,
    g: Point,
    n: u64,
    b: u64,
    p: u64,
    beta: u64,
    lambda: u64,
)
    requires
        is_glv_setting(g, n, b, p, beta, lambda),
    ensures
        endo(repeated_sum(k, g, p as int), beta as int, p as int) == repeated_sum(
            lambda as nat * k,
            g,
            p as int,
        ),
{
    lemma_endo_of_multiple(k, g, beta, b, p);
    lemma_repeated_sum_multiplies(k, lambda as nat, g, b, p);
    lemma_mul_is_commutative(k as int, lambda as int);
}

/// The inverse of a multiple of the generator is its multiple by `n - 1`.
pub proof fn lemma_negate_on_group(k: nat, g: Point, n: u64, b: u64, p: u64)
    requires
        is_cyclic(g, n, b, p),
    ensures
        negate(repeated_sum(k, g, p as int), p as int) == repeated_sum(
            ((n - 1) * k) as nat,
            g,
            p as int,
        ),
{
    let pi = p as int;
    let x = repeated_sum(k, g, pi);
    let y = repeated_sum(((n - 1) * k) as nat, g, pi);
    lemma_repeated_sum_is_member(k, g, b, p);
    lemma_repeated_sum_is_member(((n - 1) * k) as nat, g, b, p);
    // x + y == (n * k) g, the point at infinity
    lemma_repeated_sum_adds(k, ((n - 1) * k) as nat, g, b, p);
    assert(k + (n - 1) * k == n * k) by (nonlinear_arith);
    lemma_mod_multiples_basic(k as int, n as int);
    lemma_mul_is_commutative(k as int, n as int);
    lemma_small_mod(0, n as nat);
    lemma_congruent_multiples((n * k) as nat, 0, g, n, b, p);
    // y == (y + x) - x == -x
    lemma_add_commutes(x, y, p);
    lemma_add_then_take_away(y, x, b, p);
    lemma_inverse_is_member(x, b, p);
}

/// The member of the orbit of a multiple of the generator at the place
/// `idx` is the multiple by the scalar at that place.
pub proof fn lemma_orbit_on_group(
    k: nat,
    idx: int,
    g: Point,
    n: u64,
    b: u64,
    p: u64,
    beta: u64,
    lambda: u64,
)
    requires
        is_glv_setting(g, n, b, p, beta, lambda),
        0 <= idx < orbit(repeated_sum(k, g, p as int), beta as int, p as int).len(),
    ensures
        0 <= idx < 6,
        orbit_scalars(lambda as int, n as int)[idx] >= 0,
        orbit(repeated_sum(k, g, p as int), beta as int, p as int)[idx] == repeated_sum(
            (orbit_scalars(lambda as int, n as int)[idx] * k) as nat,
            g,
            p as int,
        ),
{
    let pi = p as int;
    let bi = beta as int;
    let ni = n as int;
    let l = lambda as nat;
    let x = repeated_sum(k, g, pi);
    let scalars = orbit_scalars(lambda as int, ni);
    let l2 = (lambda * lambda) % ni;
    lemma_mod_bound(lambda * lambda, ni);
    lemma_repeated_sum_is_member(k, g, b, p);
    assert(scalars[idx] * k >= 0) by (nonlinear_arith)
        requires
            scalars[idx] >= 0,
            k >= 0,
    ;
    if x.infinity {
        lemma_mul_basics(k as int);
    } else {
        // the images under the endomorphism and its square
        let first = endo(x, bi, pi);
        let second = endo(x, (bi * bi) % pi, pi);
        lemma_endo_on_group(k, g, n, b, p, beta, lambda);
        lemma_endo_on_group(l * k, g, n, b, p, beta, lambda);
        assert(second == endo(first, bi, pi)) by {
            lemma_mul_mod_noop_right(bi, bi * x.x, pi);
            lemma_mul_mod_noop_left(bi * bi, x.x as int, pi);
            assert(bi * (bi * x.x) == (bi * bi) * x.x) by (nonlinear_arith);
        }
        assert(l * (l * k) == (l * l) * k) by (nonlinear_arith);
        lemma_mul_mod_noop_left(lambda * lambda, k as int, ni);
        lemma_mod_twice(lambda * lambda, ni);
        lemma_mul_mod_noop_left(l2, k as int, ni);
        assert(l2 * k >= 0 && (l * l) * k >= 0) by (nonlinear_arith)
            requires
                l2 >= 0,
                k >= 0,
                l >= 0,
        ;
        lemma_congruent_multiples((l2 * k) as nat, ((l * l) * k) as nat, g, n, b, p);
        if idx == 0 {
            lemma_mul_basics(k as int);
        } else if idx == 1 {
        } else if idx == 2 {
        } else {
            // the inverses: (n - s) * k == (n - 1) * (s * k) modulo n
            let s: int = if idx == 3 {
                1
            } else if idx == 4 {
                lambda as int
            } else {
                l2
            };
            assert(scalars[idx] == ni - s);
            assert(s * k >= 0 && (ni - s) * k >= 0 && (ni - 1) * (s * k) >= 0) by (nonlinear_arith)
                requires
                    0 <= s < ni || (s == 1 && ni == 1),
                    k >= 0,
                    ni >= 1,
            ;
            lemma_negate_on_group((s * k) as nat, g, n, b, p);
            assert((ni - 1) * (s * k) - (ni - s) * k == ni * (s * k - k)) by (nonlinear_arith);
            lemma_mod_multiples_basic(s * k - k, ni);
            lemma_mul_is_commutative(s * k - k, ni);
            lemma_mod_equivalence((ni - 1) * (s * k), (ni - s) * k, ni);
            lemma_congruent_multiples(
                ((ni - s) * k) as nat,
                ((ni - 1) * (s * k)) as nat,
                g,
                n,
                b,
                p,
            );
            if idx == 3 {
                lemma_mul_basics(k as int);
            }
        }
    }
}

/// The search for a root of `x^2 + x + 1` finds none below the number it
/// starts from, unless it finds none at all.
proof fn lemma_least_lambda_lower(x: int, n: int)
    ensures
        least_lambda_from(x, n) >= x || least_lambda_from(x, n) == n,
    decreases n - x,
{
    if x < n && !crate::endomorphism::is_lambda_root(x, n) {
        lemma_least_lambda_lower(x + 1, n);
    }
}

/// The logarithm that the search over orbits yields is one: the multiple
/// of the generator by it is the point the search started from.
///
/// This holds in the setting of a search over orbits, with `lambda` the
/// scalar that the search uses.
pub proof fn lemma_glv_solution_is_sound(
    i: nat,
    q: Point,
    g: Point,
    n: u64,
    b: u64,
    p: u64,
    beta: u64,
)
    requires
        least_lambda_from(2, n as int) < n,
        is_glv_setting(g, n, b, p, beta, least_lambda_from(2, n as int) as u64),
        is_member(q, b, p),
        glv_solution(i, q, g, n as int, p as int, beta as int) is Some,
    ensures
        0 <= glv_solution(i, q, g, n as int, p as int, beta as int)->0 < n,
        scalar_multiple(
            glv_solution(i, q, g, n as int, p as int, beta as int)->0 as nat,
            g,
            p as int,
        ) == q,
{
    let pi = p as int;
    let bi = beta as int;
    let ni = n as int;
    lemma_least_lambda_lower(2, ni);
    let lambda = least_lambda_from(2, ni) as u64;
    let m = ceil_sqrt(ni, 6) as nat;
    let gamma = giant_point(i, q, giant_stride(m, g, pi), pi);
    let k = glv_solution(i, q, g, ni, pi, bi)->0;
    lemma_giant_point(i, q, g, m, b, p);
    lemma_first_baby(key_of(canonical(gamma, bi, pi)), m, g, pi, Some(bi));
    let j = first_baby(key_of(canonical(gamma, bi, pi)), m, g, pi, Some(bi))->0;
    lemma_repeated_sum_is_member(j, g, b, p);
    lemma_scalar_multiple_is_repeated_sum(j, g, b, p);
    let im = (i * m) as int;
    lemma_mod_bound(im, ni);
    lemma_mod_twice(im, ni);
    // the multiple t of the generator that the giant step is
    let t: int = if gamma.infinity {
        j as int
    } else {
        let idx = index_in(orbit(scalar_multiple(j, g, pi), bi, pi), gamma, 0)->0;
        (orbit_scalars(lambda as int, ni)[idx] * j) % ni
    };
    assert(t >= 0 && k == meeting_log(i as int, m as int, t, ni) && gamma == repeated_sum(
        t as nat,
        g,
        pi,
    )) by {
        if gamma.infinity {
            // the baby step j is at infinity too
            let baby = baby_point(j, g, pi);
            lemma_mod_bound(bi * baby.x, pi);
            lemma_mod_bound(((bi * bi) % pi) * baby.x, pi);
            lemma_mod_bound(0 - baby.y, pi);
            assert(baby_key(j, g, pi, Some(bi)) == key_of(canonical(gamma, bi, pi)));
            assert(baby.infinity);
            assert(gamma == Point::at_infinity());
            assert(baby == Point::at_infinity());
        } else {
            let members = orbit(scalar_multiple(j, g, pi), bi, pi);
            lemma_index_in(members, gamma, 0);
            let idx = index_in(members, gamma, 0)->0;
            lemma_orbit_on_group(j, idx, g, n, b, p, beta, lambda);
            let s = orbit_scalars(lambda as int, ni)[idx];
            assert(s * j >= 0) by (nonlinear_arith)
                requires
                    s >= 0,
                    j >= 0,
            ;
            lemma_mod_bound(s * j, ni);
            lemma_mod_twice(s * j, ni);
            lemma_congruent_multiples(((s * j) % ni) as nat, (s * j) as nat, g, n, b, p);
        }
    }
    // q == t g + (i m) g
    lemma_repeated_sum_adds(t as nat, i * m, g, b, p);
    lemma_mod_bound(im % ni + t, ni);
    lemma_add_mod_noop(im, t, ni);
    lemma_add_mod_noop(im % ni, t, ni);
    assert(k == (t + im) % ni);
    lemma_scalar_multiple_is_repeated_sum(n as nat, g, b, p);
    lemma_repeated_sum_is_periodic((t + im) as nat, n, g, b, p);
    lemma_scalar_multiple_is_repeated_sum(k as nat, g, b, p);
}

/// The multiple of `g` by `k` is `q`, on every curve through both that gives
/// a setting for the search over orbits, with the least root of
/// `x^2 + x + 1` modulo `n` as the scalar of the endomorphism.
pub open spec fn is_logarithm_over_orbits(
    k: u64,
    q: Point,
    g: Point,
    n: u64,
    p: u64,
    beta: u64,
) -> bool {
    forall|b: u64| #[trigger]
        is_glv_setting(g, n, b, p, beta, least_lambda_from(2, n as int) as u64) && is_member(
            q,
            b,
            p,
        ) ==> scalar_multiple(k as nat, g, p as int) == q
}

/// Two affine points with the same least orbit member lie in one orbit:
/// the second stands in the orbit of the first.
pub proof fn lemma_same_canonical_same_orbit(x: Point, y: Point, beta: u64, p: u64) -> (idx: int)
    requires
        is_cube_root_of_unity(beta as int, p as int),
        x.reduced(p as int),
        y.reduced(p as int),
        !x.infinity,
        !y.infinity,
        canonical(x, beta as int, p as int) == canonical(y, beta as int, p as int),
    ensures
        0 <= idx < 6,
        orbit(x, beta as int, p as int).len() == 6,
        orbit(x, beta as int, p as int)[idx] == y,
{
    let pi = p as int;
    let bi = beta as int;
    let b2 = (bi * bi) % pi;
    lemma_orbit_abscissas(x.x as int, bi, pi);
    lemma_orbit_abscissas(y.x as int, bi, pi);
    lemma_negate_twice(x.y as int, pi);
    lemma_negate_twice(y.y as int, pi);
    lemma_mod_bound(bi * x.x, pi);
    lemma_mod_bound(b2 * x.x, pi);
    lemma_mod_bound(bi * y.x, pi);
    lemma_mod_bound(b2 * y.x, pi);
    let o = orbit(x, bi, pi);
    let cx = canonical(x, bi, pi);
    let cy = canonical(y, bi, pi);
    assert(cx.x == cy.x && cx.y == cy.y);
    // the abscissa of y is one of the three of the orbit of x
    let x0 = x.x as int;
    let x1 = (bi * x0) % pi;
    let x2 = (b2 * x0) % pi;
    let y0 = y.x as int;
    assert(y0 == x0 || y0 == x1 || y0 == x2);
    // and its ordinate one of the two
    let u = x.y as int;
    let v = (0 - u) % pi;
    assert(y.y == u || y.y == v);
    if y.y == u {
        if y0 == x0 {
            assert(o[0] == y);
            0
        } else if y0 == x1 {
            assert(o[1] == y);
            1
        } else {
            assert(o[2] == y);
            2
        }
    } else {
        if y0 == x0 {
            assert(o[3] == y);
            3
        } else if y0 == x1 {
            assert(o[4] == y);
            4
        } else {
            assert(o[5] == y);
            5
        }
    }
}

/// The search over orbits finds every point that is a multiple of the
/// generator by a number below `n`: some giant step of its range yields a
/// solution. This holds in the setting of a search over orbits.
pub proof fn lemma_glv_search_is_complete(
    k: nat,
    g: Point,
    n: u64,
    b: u64,
    p: u64,
    beta: u64,
    lambda: u64,
)
    requires
        is_glv_setting(g, n, b, p, beta, lambda),
        k < n,
    ensures
        exists|i: nat|
            i < glv_giant_steps(n as int) && (#[trigger] glv_solution(
                i,
                scalar_multiple(k, g, p as int),
                g,
                n as int,
                p as int,
                beta as int,
            )) is Some,
{
    let pi = p as int;
    let bi = beta as int;
    let ni = n as int;
    let q = scalar_multiple(k, g, pi);
    lemma_ceil_sqrt_exists(ni, 6);
    let m = ceil_sqrt(ni, 6) as nat;
    assert(m >= 1) by {
        if m == 0 {
            assert(6 * 0 * 0 == 0) by (nonlinear_arith);
        }
    }
    // the giant step i == k / m is the baby step k % m
    let i = k / m;
    let j0 = k % m;
    lemma_fundamental_div_mod(k as int, m as int);
    lemma_mod_bound(k as int, m as int);
    assert(i * m + j0 == k) by (nonlinear_arith)
        requires
            k == m * (k as int / m as int) + (k as int % m as int),
            i == k as int / m as int,
            j0 == k as int % m as int,
    ;
    lemma_div_is_ordered(k as int, ni - 1, m as int);
    assert(i < glv_giant_steps(ni));
    lemma_scalar_multiple_is_repeated_sum(k, g, b, p);
    lemma_repeated_sum_is_member(k, g, b, p);
    let gamma = giant_point(i, q, giant_stride(m, g, pi), pi);
    let taken = repeated_sum(i * m, g, pi);
    let baby = repeated_sum(j0, g, pi);
    lemma_giant_point(i, q, g, m, b, p);
    lemma_repeated_sum_is_member(i * m, g, b, p);
    lemma_repeated_sum_is_member(j0, g, b, p);
    lemma_repeated_sum_adds(j0, i * m, g, b, p);
    lemma_add_then_take_away(gamma, taken, b, p);
    lemma_add_then_take_away(baby, taken, b, p);
    assert(gamma == baby);
    // so some baby step has the key of the class of the giant step
    let key = key_of(canonical(gamma, bi, pi));
    lemma_first_baby(key, m, g, pi, Some(bi));
    assert(baby_key(j0, g, pi, Some(bi)) == key);
    let j = first_baby(key, m, g, pi, Some(bi))->0;
    if !gamma.infinity {
        // the first baby step of that class holds the giant step in its orbit
        let first = baby_point(j, g, pi);
        lemma_repeated_sum_is_member(j, g, b, p);
        lemma_scalar_multiple_is_repeated_sum(j, g, b, p);
        lemma_mod_bound(bi * gamma.x, pi);
        lemma_mod_bound(((bi * bi) % pi) * gamma.x, pi);
        lemma_mod_bound(0 - gamma.y, pi);
        if !first.infinity {
            lemma_mod_bound(bi * first.x, pi);
            lemma_mod_bound(((bi * bi) % pi) * first.x, pi);
            lemma_mod_bound(0 - first.y, pi);
        }
        lemma_key_tells_points_apart(
            canonical(first, bi, pi),
            canonical(gamma, bi, pi),
            p,
        );
        assert(!first.infinity);
        assert(canonical(first, bi, pi) == canonical(gamma, bi, pi));
        let idx = lemma_same_canonical_same_orbit(first, gamma, beta, p);
        lemma_index_in(orbit(scalar_multiple(j, g, pi), bi, pi), gamma, 0);
    }
    assert(glv_solution(i, q, g, ni, pi, bi) is Some);
}

/// The point `q` is no multiple of `g` by a number below `n`, on any curve
/// through both that gives a setting for the search over orbits.
pub open spec fn is_no_multiple_over_orbits(q: Point, g: Point, n: u64, p: u64, beta: u64) -> bool {
    forall|b: u64, k: nat| #[trigger]
        is_glv_setting(g, n, b, p, beta, least_lambda_from(2, n as int) as u64) && k < n ==> q
            != #[trigger] scalar_multiple(k, g, p as int)
}

} // verus!
