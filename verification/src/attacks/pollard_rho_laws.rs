//! What the plain walk of Pollard's rho finds, once the addition of points is
//! known to be associative: in a group of prime order, the logarithm.

use vstd::prelude::*;
use vstd::arithmetic::div_mod::*;
use vstd::arithmetic::mul::*;
use crate::attacks::glv_laws::{is_glv_setting, lemma_orbit_on_group};
use crate::attacks::pollard_rho::{
    advance, after_round, canonical_start, collision_log, is_first_meeting, lemma_round,
    perturbed, reduce_state, round_start, step, zone, Course, Walk,
};
use crate::endomorphism::{
    canonical, index_in, lemma_canonical_is_member, lemma_index_in, orbit, orbit_scalars,
};
use crate::math::curve::{repeated_sum, scalar_multiple, Point};
use crate::math::curve_laws::{lemma_add_commutes, lemma_add_identity, lemma_add_inverse};
use crate::math::group::{
    addition_is_associative, is_cyclic, is_member, lemma_add_then_take_away,
    lemma_congruent_multiples, lemma_repeated_sum_adds, lemma_repeated_sum_is_member,
    lemma_repeated_sum_multiplies, lemma_repeated_sum_of_identity,
    lemma_scalar_multiple_is_repeated_sum,
};
use crate::math::number_theory::{inv_mod, is_prime, lemma_inv_mod_prime};

verus! {

/// The state keeps its point in step with its coefficients: with `q` the
/// multiple of `g` by `k0`, the point is `a * g + b * q`.
pub open spec fn tracks(s: (Point, u64, u64), k0: nat, g: Point, p: u64) -> bool {
    s.0 == repeated_sum((s.1 + s.2 * k0) as nat, g, p as int)
}

/// Sums `a + b * k0` with congruent `a` and congruent `b` are congruent.
proof fn lemma_congruent_combinations(a1: int, b1: int, a2: int, b2: int, k0: int, n: int)
    requires
        n > 0,
        a1 % n == a2 % n,
        b1 % n == b2 % n,
    ensures
        (a1 + b1 * k0) % n == (a2 + b2 * k0) % n,
{
    lemma_mul_mod_noop_left(b1, k0, n);
    lemma_mul_mod_noop_left(b2, k0, n);
    lemma_add_mod_noop(a1, b1 * k0, n);
    lemma_add_mod_noop(a2, b2 * k0, n);
}

/// A step of the walk keeps the point in step with the coefficients.
pub proof fn lemma_step_tracks(
    s: (Point, u64, u64),
    k0: nat,
    g: Point,
    n: u64,
    b: u64,
    p: u64,
)
    requires
        is_cyclic(g, n, b, p),
        tracks(s, k0, g, p),
    ensures
        tracks(step(s, g, repeated_sum(k0, g, p as int), n as int, p as int), k0, g, p),
{
    let pi = p as int;
    let ni = n as int;
    let q = repeated_sum(k0, g, pi);
    let (r, a, c) = s;
    let whole = (a + c * k0) as nat;
    let next = step(s, g, q, ni, pi);
    lemma_repeated_sum_is_member(whole, g, b, p);
    lemma_repeated_sum_is_member(k0, g, b, p);
    lemma_mod_bound(c + 1, ni);
    lemma_mod_bound(a + 1, ni);
    lemma_mod_bound(2 * a, ni);
    lemma_mod_bound(2 * c, ni);
    lemma_mod_twice(c + 1, ni);
    lemma_mod_twice(a + 1, ni);
    lemma_mod_twice(2 * a, ni);
    lemma_mod_twice(2 * c, ni);
    if zone(r) == 0 {
        lemma_repeated_sum_adds(whole, k0, g, b, p);
        lemma_congruent_combinations(a as int, (c + 1) % ni, a as int, c + 1, k0 as int, ni);
        assert(a + (c + 1) * k0 == whole + k0) by (nonlinear_arith)
            requires
                whole == a + c * k0,
        ;
        assert(((c + 1) % ni) * k0 >= 0) by (nonlinear_arith)
            requires
                (c + 1) % ni >= 0,
                k0 >= 0,
        ;
        lemma_congruent_multiples(
            (next.1 + next.2 * k0) as nat,
            (whole + k0) as nat,
            g,
            n,
            b,
            p,
        );
    } else if zone(r) == 1 {
        lemma_repeated_sum_adds(whole, whole, g, b, p);
        lemma_congruent_combinations((2 * a) % ni, (2 * c) % ni, 2 * a, 2 * c, k0 as int, ni);
        assert(2 * a + (2 * c) * k0 == whole + whole) by (nonlinear_arith)
            requires
                whole == a + c * k0,
        ;
        assert(((2 * c) % ni) * k0 >= 0) by (nonlinear_arith)
            requires
                (2 * c) % ni >= 0,
                k0 >= 0,
        ;
        lemma_congruent_multiples(
            (next.1 + next.2 * k0) as nat,
            (whole + whole) as nat,
            g,
            n,
            b,
            p,
        );
    } else {
        lemma_congruent_combinations((a + 1) % ni, c as int, a + 1, c as int, k0 as int, ni);
        assert(c * k0 >= 0) by (nonlinear_arith)
            requires
                c >= 0,
                k0 >= 0,
        ;
        lemma_congruent_multiples((next.1 + next.2 * k0) as nat, (whole + 1) as nat, g, n, b, p);
    }
}

/// The perturbation of the plain walk keeps the point in step with the
/// coefficients.
pub proof fn lemma_perturbed_tracks(
    s: (Point, u64, u64),
    k0: nat,
    g: Point,
    n: u64,
    b: u64,
    p: u64,
)
    requires
        is_cyclic(g, n, b, p),
        tracks(s, k0, g, p),
    ensures
        tracks(
            perturbed(s, g, repeated_sum(k0, g, p as int), n as int, p as int, Walk::Plain),
            k0,
            g,
            p,
        ),
{
    let ni = n as int;
    let (r, a, c) = s;
    let whole = (a + c * k0) as nat;
    let next = perturbed(s, g, repeated_sum(k0, g, p as int), ni, p as int, Walk::Plain);
    lemma_mod_bound(a + 1, ni);
    lemma_mod_twice(a + 1, ni);
    lemma_congruent_combinations((a + 1) % ni, c as int, a + 1, c as int, k0 as int, ni);
    assert(c * k0 >= 0) by (nonlinear_arith)
        requires
            c >= 0,
            k0 >= 0,
    ;
    lemma_congruent_multiples((next.1 + next.2 * k0) as nat, (whole + 1) as nat, g, n, b, p);
}

/// The walk is one whose constants fit the group: the plain walk, or a walk
/// over orbits with a cube root of unity `beta` and a scalar `lambda` by
/// which the endomorphism acts on the generator.
pub open spec fn walk_fits_group(walk: Walk, g: Point, n: u64, b: u64, p: u64) -> bool {
    match walk {
        Walk::Plain => true,
        Walk::Canonical { beta, lambda, lambda2 } => is_glv_setting(g, n, b, p, beta, lambda),
    }
}

/// The reduction of a state to the least member of its orbit keeps the
/// point in step with the coefficients.
pub proof fn lemma_reduce_state_tracks(
    s: (Point, u64, u64),
    k0: nat,
    g: Point,
    n: u64,
    b: u64,
    p: u64,
    beta: u64,
    lambda: u64,
)
    requires
        is_glv_setting(g, n, b, p, beta, lambda),
        tracks(s, k0, g, p),
    ensures
        tracks(reduce_state(s, n as int, p as int, beta as int, lambda as int), k0, g, p),
{
    let pi = p as int;
    let ni = n as int;
    let k = k0 as int;
    let (r, a, c) = s;
    assert(c * k >= 0) by (nonlinear_arith)
        requires
            c >= 0,
            k >= 0,
    ;
    let whole = (a + c * k) as nat;
    let members = orbit(r, beta as int, pi);
    let canon = canonical(r, beta as int, pi);
    if !r.infinity {
        lemma_index_in(members, canon, 0);
        match index_in(members, canon, 0) {
            Some(idx) => {
                lemma_orbit_on_group(whole, idx, g, n, b, p, beta, lambda);
                let scalar = orbit_scalars(lambda as int, ni)[idx];
                let next = reduce_state(s, ni, pi, beta as int, lambda as int);
                // (scalar * a) % n + ((scalar * c) % n) * k0 == scalar * whole modulo n
                lemma_mod_bound(scalar * a, ni);
                lemma_mod_bound(scalar * c, ni);
                lemma_mod_twice(scalar * a, ni);
                lemma_mod_twice(scalar * c, ni);
                lemma_congruent_combinations(
                    (scalar * a) % ni,
                    (scalar * c) % ni,
                    scalar * a,
                    scalar * c,
                    k,
                    ni,
                );
                assert(scalar * a + (scalar * c) * k == scalar * whole) by (nonlinear_arith)
                    requires
                        whole == a + c * k,
                ;
                assert(((scalar * c) % ni) * k >= 0 && scalar * whole >= 0) by (nonlinear_arith)
                    requires
                        (scalar * c) % ni >= 0,
                        k >= 0,
                        scalar >= 0,
                        whole >= 0,
                ;
                lemma_congruent_multiples(
                    (next.1 + next.2 * k0) as nat,
                    (scalar * whole) as nat,
                    g,
                    n,
                    b,
                    p,
                );
            },
            None => {},
        }
    }
}

/// A step of a walk whose constants fit the group keeps the point in step
/// with the coefficients, and so does its perturbation.
pub proof fn lemma_advance_tracks(
    s: (Point, u64, u64),
    k0: nat,
    g: Point,
    n: u64,
    b: u64,
    p: u64,
    walk: Walk,
)
    requires
        is_cyclic(g, n, b, p),
        walk_fits_group(walk, g, n, b, p),
        tracks(s, k0, g, p),
    ensures
        tracks(advance(s, g, repeated_sum(k0, g, p as int), n as int, p as int, walk), k0, g, p),
        tracks(
            perturbed(s, g, repeated_sum(k0, g, p as int), n as int, p as int, walk),
            k0,
            g,
            p,
        ),
{
    let q = repeated_sum(k0, g, p as int);
    lemma_step_tracks(s, k0, g, n, b, p);
    match walk {
        Walk::Plain => {
            lemma_perturbed_tracks(s, k0, g, n, b, p);
        },
        Walk::Canonical { beta, lambda, lambda2 } => {
            lemma_reduce_state_tracks(
                step(s, g, q, n as int, p as int),
                k0,
                g,
                n,
                b,
                p,
                beta,
                lambda,
            );
        },
    }
}

/// Tortoise and hare keep their points in step with their coefficients from
/// round to round, if they set out so.
pub proof fn lemma_rounds_track(
    r: nat,
    t0: (Point, u64, u64),
    h0: (Point, u64, u64),
    k0: nat,
    g: Point,
    n: u64,
    b: u64,
    p: u64,
    walk: Walk,
)
    requires
        is_cyclic(g, n, b, p),
        walk_fits_group(walk, g, n, b, p),
        tracks(t0, k0, g, p),
        tracks(h0, k0, g, p),
    ensures
        ({
            let c = Course { g, q: repeated_sum(k0, g, p as int), n, p, walk };
            let start = round_start(r, t0, h0, c);
            let (t1, h1) = after_round(start.0, start.1, c);
            &&& tracks(start.0, k0, g, p)
            &&& tracks(start.1, k0, g, p)
            &&& tracks(t1, k0, g, p)
            &&& tracks(h1, k0, g, p)
        }),
    decreases r,
{
    let c = Course { g, q: repeated_sum(k0, g, p as int), n, p, walk };
    if r == 0 {
        reveal_with_fuel(round_start, 1);
    } else {
        let r1 = (r - 1) as nat;
        lemma_rounds_track(r1, t0, h0, k0, g, n, b, p, walk);
        lemma_round(r1, t0, h0, c);
        let before = round_start(r1, t0, h0, c);
        let (tb, hb) = after_round(before.0, before.1, c);
        if tb.0 == hb.0 {
            lemma_advance_tracks(tb, k0, g, n, b, p, walk);
        }
    }
    let start = round_start(r, t0, h0, c);
    lemma_advance_tracks(start.0, k0, g, n, b, p, walk);
    lemma_advance_tracks(start.1, k0, g, n, b, p, walk);
    lemma_advance_tracks(
        advance(start.1, g, c.q, n as int, p as int, walk),
        k0,
        g,
        n,
        b,
        p,
        walk,
    );
}

/// In a group of prime order, only the multiples by multiples of the order
/// are the point at infinity.
pub proof fn lemma_prime_order_multiples(j: nat, g: Point, n: u64, b: u64, p: u64)
    requires
        is_cyclic(g, n, b, p),
        is_prime(n as int),
        !g.infinity,
        repeated_sum(j, g, p as int) == Point::at_infinity(),
    ensures
        j as int % n as int == 0,
{
    let pi = p as int;
    let ni = n as int;
    if j as int % ni != 0 {
        // with i the inverse of j modulo n, (i * j) g is g, and is i (j g)
        lemma_mod_bound(j as int, ni);
        lemma_mod_twice(j as int, ni);
        lemma_inv_mod_prime(j as int % ni, ni);
        let i = inv_mod(j as int % ni, ni) as nat;
        lemma_repeated_sum_multiplies(i, j, g, b, p);
        lemma_repeated_sum_of_identity(i, p);
        lemma_mul_mod_noop_left(j as int, i as int, ni);
        lemma_mul_is_commutative(i as int, j as int);
        lemma_small_mod(1, n as nat);
        lemma_congruent_multiples(i * j, 1, g, n, b, p);
        assert(repeated_sum(1, g, pi) == g) by {
            reveal_with_fuel(repeated_sum, 2);
        }
    }
}

/// In a group of prime order, equal multiples have factors that agree modulo
/// the order.
pub proof fn lemma_equal_multiples(x: nat, y: nat, g: Point, n: u64, b: u64, p: u64)
    requires
        is_cyclic(g, n, b, p),
        is_prime(n as int),
        !g.infinity,
        repeated_sum(x, g, p as int) == repeated_sum(y, g, p as int),
    ensures
        x as int % n as int == y as int % n as int,
    decreases
            if x >= y {
                0int
            } else {
                1int
            },
{
    let pi = p as int;
    if x < y {
        lemma_equal_multiples(y, x, g, n, b, p);
    } else {
        // x g == y g + (x - y) g, so (x - y) g is the point at infinity
        let d = (x - y) as nat;
        let low = repeated_sum(y, g, pi);
        let rest = repeated_sum(d, g, pi);
        lemma_repeated_sum_is_member(y, g, b, p);
        lemma_repeated_sum_is_member(d, g, b, p);
        lemma_repeated_sum_adds(y, d, g, b, p);
        lemma_add_commutes(low, rest, p);
        lemma_add_then_take_away(rest, low, b, p);
        lemma_add_inverse(low, p);
        assert(rest == Point::at_infinity());
        lemma_prime_order_multiples(d, g, n, b, p);
        lemma_mod_equivalence(x as int, y as int, n as int);
    }
}

/// The logarithm that a meeting of two states gives is the logarithm of
/// `q`, if both states keep their points in step with their coefficients.
pub proof fn lemma_collision_log(
    t: (Point, u64, u64),
    h: (Point, u64, u64),
    k0: nat,
    g: Point,
    n: u64,
    b: u64,
    p: u64,
)
    requires
        is_cyclic(g, n, b, p),
        is_prime(n as int),
        !g.infinity,
        tracks(t, k0, g, p),
        tracks(h, k0, g, p),
        t.0 == h.0,
        collision_log(t, h, n as int) is Some,
    ensures
        collision_log(t, h, n as int)->0 == k0 as int % n as int,
{
    let ni = n as int;
    let k = k0 as int;
    assert(t.2 * k0 >= 0 && h.2 * k0 >= 0) by (nonlinear_arith)
        requires
            t.2 >= 0,
            h.2 >= 0,
            k0 >= 0,
    ;
    lemma_equal_multiples((t.1 + t.2 * k0) as nat, (h.1 + h.2 * k0) as nat, g, n, b, p);
    // (a_t - a_h) == (b_h - b_t) * k0 modulo n
    let delta_a = (t.1 - h.1) % ni;
    let delta_b = (h.2 - t.2) % ni;
    lemma_mod_equivalence(t.1 + t.2 * k, h.1 + h.2 * k, ni);
    assert((t.1 + t.2 * k) - (h.1 + h.2 * k) == (t.1 - h.1) - (h.2 - t.2) * k) by (nonlinear_arith);
    lemma_mod_equivalence(t.1 - h.1, (h.2 - t.2) * k, ni);
    lemma_mul_mod_noop_left(h.2 - t.2, k, ni);
    assert(delta_a == (delta_b * k) % ni);
    // delta_b has an inverse modulo the prime n
    lemma_mod_bound(h.2 - t.2, ni);
    lemma_mod_twice(h.2 - t.2, ni);
    lemma_inv_mod_prime(delta_b, ni);
    let i = inv_mod(delta_b, ni);
    // delta_a * i == (delta_b * k0) * i == (delta_b * i) * k0 == k0 modulo n
    lemma_mul_mod_noop_left(delta_b * k, i, ni);
    assert((delta_b * k) * i == (delta_b * i) * k) by (nonlinear_arith);
    lemma_mul_mod_noop_left(delta_b * i, k, ni);
    lemma_mul_basics(k);
}

/// The logarithm that a walk of Pollard's rho finds is the logarithm of `q`.
///
/// This holds in a group of prime order `n`, for `q` the multiple of the
/// generator by `k0`, for a walk whose constants fit the group and a search
/// that sets out from states that keep their points in step with their
/// coefficients, on a curve on which addition is associative.
pub proof fn lemma_rho_is_sound(
    k: int,
    rounds: nat,
    t0: (Point, u64, u64),
    h0: (Point, u64, u64),
    k0: nat,
    g: Point,
    n: u64,
    b: u64,
    p: u64,
    walk: Walk,
)
    requires
        is_prime(p as int),
        p > 2,
        is_prime(n as int),
        is_member(g, b, p),
        !g.infinity,
        addition_is_associative(b, p),
        scalar_multiple(n as nat, g, p as int).infinity,
        walk_fits_group(walk, g, n, b, p),
        tracks(t0, k0, g, p),
        tracks(h0, k0, g, p),
        is_first_meeting(
            k,
            rounds,
            t0,
            h0,
            (Course { g, q: scalar_multiple(k0, g, p as int), n, p, walk }),
        ),
    ensures
        k == k0 as int % n as int,
        scalar_multiple(k as nat, g, p as int) == scalar_multiple(k0, g, p as int),
{
    let pi = p as int;
    lemma_scalar_multiple_is_repeated_sum(n as nat, g, b, p);
    lemma_repeated_sum_is_member(n as nat, g, b, p);
    lemma_scalar_multiple_is_repeated_sum(k0, g, b, p);
    let c = Course { g, q: repeated_sum(k0, g, pi), n, p, walk };
    let r = (rounds - 1) as nat;
    lemma_rounds_track(r, t0, h0, k0, g, n, b, p, walk);
    lemma_round(r, t0, h0, c);
    let start = round_start(r, t0, h0, c);
    let (t1, h1) = after_round(start.0, start.1, c);
    lemma_collision_log(t1, h1, k0, g, n, b, p);
    lemma_mod_bound(k0 as int, n as int);
    lemma_mod_twice(k0 as int, n as int);
    lemma_congruent_multiples(k as nat, k0, g, n, b, p);
    lemma_scalar_multiple_is_repeated_sum(k as nat, g, b, p);
}

/// The state from which the plain walk starts keeps its point in step with
/// its coefficients.
pub proof fn lemma_plain_start_tracks(k0: nat, g: Point, b: u64, p: u64)
    requires
        is_member(g, b, p),
    ensures
        tracks((g, 1, 0), k0, g, p),
{
    assert(0 * k0 == 0);
    lemma_add_identity(g, p);
    assert(repeated_sum(1, g, p as int) == g) by {
        reveal_with_fuel(repeated_sum, 2);
    }
}

/// The state from which the walk over orbits starts keeps its point in step
/// with its coefficients.
pub proof fn lemma_canonical_start_tracks(
    k0: nat,
    g: Point,
    n: u64,
    b: u64,
    p: u64,
    beta: u64,
    lambda: u64,
)
    requires
        is_glv_setting(g, n, b, p, beta, lambda),
    ensures
        tracks(canonical_start(g, n as int, p as int, beta as int, lambda as int), k0, g, p),
{
    let pi = p as int;
    assert(repeated_sum(1, g, pi) == g) by {
        reveal_with_fuel(repeated_sum, 2);
        lemma_add_identity(g, p);
    }
    let members = orbit(g, beta as int, pi);
    let start = canonical(g, beta as int, pi);
    let i = lemma_canonical_is_member(g, beta, p);
    lemma_index_in(members, start, 0);
    let idx = index_in(members, start, 0)->0;
    lemma_orbit_on_group(1, idx, g, n, b, p, beta, lambda);
    let scalar = orbit_scalars(lambda as int, n as int)[idx];
    lemma_mul_basics(scalar);
    assert(0 * k0 == 0);
}

/// The number `k` is the logarithm of `q` modulo `n`, on every curve
/// through `g` on which addition is associative and `g` generates a group
/// of the prime order `n` that holds `q`.
pub open spec fn is_logarithm_in_prime_group(k: u64, q: Point, g: Point, n: u64, p: u64) -> bool {
    forall|b: u64, k0: nat|
        is_prime(p as int) && p > 2 && is_prime(n as int) && is_member(g, b, p) && !g.infinity
            && #[trigger] addition_is_associative(b, p) && scalar_multiple(
            n as nat,
            g,
            p as int,
        ).infinity && q == #[trigger] scalar_multiple(k0, g, p as int) ==> k == k0 as int
            % n as int
}

/// The number `k` is the logarithm of `q` modulo `n`, on every curve
/// through `g` that gives a setting for the walk over orbits in which `g`
/// generates a group of the prime order `n` that holds `q`.
pub open spec fn is_logarithm_over_orbits_in_prime_group(
    k: u64,
    q: Point,
    g: Point,
    n: u64,
    p: u64,
    beta: u64,
    lambda: u64,
) -> bool {
    forall|b: u64, k0: nat|
        is_prime(n as int) && !g.infinity && #[trigger] is_glv_setting(g, n, b, p, beta, lambda)
            && q == #[trigger] scalar_multiple(k0, g, p as int) ==> k == k0 as int % n as int
}

/// What `is_logarithm_in_prime_group` says of the result of the plain walk.
pub proof fn lemma_plain_walk_finds_logarithm(
    k: u64,
    rounds: nat,
    q: Point,
    g: Point,
    n: u64,
    p: u64,
)
    requires
        is_first_meeting(
            k as int,
            rounds,
            (g, 1, 0),
            (g, 1, 0),
            (Course { g, q, n, p, walk: Walk::Plain }),
        ),
    ensures
        is_logarithm_in_prime_group(k, q, g, n, p),
{
    assert forall|b: u64, k0: nat|
        is_prime(p as int) && p > 2 && is_prime(n as int) && is_member(g, b, p) && !g.infinity
            && #[trigger] addition_is_associative(b, p) && scalar_multiple(
            n as nat,
            g,
            p as int,
        ).infinity && q == #[trigger] scalar_multiple(k0, g, p as int) implies k == k0 as int
        % n as int by {
        lemma_plain_start_tracks(k0, g, b, p);
        lemma_rho_is_sound(k as int, rounds, (g, 1, 0), (g, 1, 0), k0, g, n, b, p, Walk::Plain);
    }
}

/// What `is_logarithm_over_orbits_in_prime_group` says of the result of the
/// walk over orbits.
pub proof fn lemma_canonical_walk_finds_logarithm(
    k: u64,
    rounds: nat,
    q: Point,
    g: Point,
    n: u64,
    p: u64,
    beta: u64,
    lambda: u64,
    lambda2: u64,
)
    requires
        is_first_meeting(
            k as int,
            rounds,
            canonical_start(g, n as int, p as int, beta as int, lambda as int),
            canonical_start(g, n as int, p as int, beta as int, lambda as int),
            (Course { g, q, n, p, walk: Walk::Canonical { beta, lambda, lambda2 } }),
        ),
    ensures
        is_logarithm_over_orbits_in_prime_group(k, q, g, n, p, beta, lambda),
{
    let start = canonical_start(g, n as int, p as int, beta as int, lambda as int);
    assert forall|b: u64, k0: nat|
        is_prime(n as int) && !g.infinity && #[trigger] is_glv_setting(g, n, b, p, beta, lambda)
            && q == #[trigger] scalar_multiple(k0, g, p as int) implies k == k0 as int
        % n as int by {
        lemma_canonical_start_tracks(k0, g, n, b, p, beta, lambda);
        lemma_scalar_multiple_is_repeated_sum(n as nat, g, b, p);
        lemma_rho_is_sound(
            k as int,
            rounds,
            start,
            start,
            k0,
            g,
            n,
            b,
            p,
            Walk::Canonical { beta, lambda, lambda2 },
        );
    }
}

} // verus!
