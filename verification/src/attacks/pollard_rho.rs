//! Pollard's rho: a walk through the group that is bound to run into itself,
//! followed at two speeds until the two followers meet.
//!
//! A state of the walk is a point `r` with two coefficients `a` and `b`, kept
//! so that `r = a * g + b * q`. A meeting of two states with different `b`
//! gives the logarithm of `q`.

use vstd::prelude::*;
use vstd::arithmetic::div_mod::*;
use crate::endomorphism::{
    canonical, canonical_rep, find_lambda, index_in, least_lambda_from, orbit, orbit_scalar,
    orbit_scalars,
};
use crate::attacks::pollard_rho_laws::{
    is_logarithm_in_prime_group, is_logarithm_over_orbits_in_prime_group,
    lemma_canonical_walk_finds_logarithm, lemma_plain_walk_finds_logarithm,
};
use crate::error::SolveError;
use crate::math::curve::{add_points, point_add, Point};
use crate::math::field::{mod_add, mod_inv, mod_mul, mod_sub};
use crate::math::number_theory::inv_mod;

verus! {

/// The logarithm that a run of the walk found, and the number of rounds it
/// took: one step of the tortoise and two of the hare each.
pub struct PollardRhoResult {
    pub k: u64,
    pub iterations: usize,
}

/// How the walk treats the point it has reached.
#[derive(Clone, Copy, Debug, PartialEq, Eq, Structural)]
pub enum Walk {
    /// The point stays as it is.
    Plain,
    /// The point is replaced by the least member of its orbit, and the
    /// coefficients are multiplied by the scalar of the automorphism that
    /// leads there.
    Canonical { beta: u64, lambda: u64, lambda2: u64 },
}

/// The third of the group in which a point lies: `x mod 3`, and 0 for the
/// point at infinity.
pub open spec fn zone(r: Point) -> int {
    if r.infinity {
        0
    } else {
        (r.x % 3) as int
    }
}

/// One step of the walk. In zone 0 the point `q` is added and `b` grows by
/// one, in zone 1 the point is added to itself and both coefficients double,
/// in zone 2 the point `g` is added and `a` grows by one.
pub open spec fn step(s: (Point, u64, u64), g: Point, q: Point, n: int, p: int) -> (
    Point,
    u64,
    u64,
) {
    let (r, a, b) = s;
    if zone(r) == 0 {
        (add_points(r, q, p), a, ((b + 1) % n) as u64)
    } else if zone(r) == 1 {
        (add_points(r, r, p), ((2 * a) % n) as u64, ((2 * b) % n) as u64)
    } else {
        (add_points(r, g, p), ((a + 1) % n) as u64, b)
    }
}

/// A state with its point replaced by the least member of its orbit, and its
/// coefficients multiplied by the scalar of the first automorphism that
/// leads there. A state at infinity stays as it is.
pub open spec fn reduce_state(s: (Point, u64, u64), n: int, p: int, beta: int, lambda: int) -> (
    Point,
    u64,
    u64,
) {
    let (r, a, b) = s;
    if r.infinity {
        s
    } else {
        let canon = canonical(r, beta, p);
        match index_in(orbit(r, beta, p), canon, 0) {
            Some(idx) => {
                let scalar = orbit_scalars(lambda, n)[idx];
                (canon, ((scalar * a) % n) as u64, ((scalar * b) % n) as u64)
            },
            None => s,
        }
    }
}

/// One step of the walk over orbits: a step of the walk, then the reduction
/// of the state that it reached.
pub open spec fn canonical_step(
    s: (Point, u64, u64),
    g: Point,
    q: Point,
    n: int,
    p: int,
    beta: int,
    lambda: int,
) -> (Point, u64, u64) {
    reduce_state(step(s, g, q, n, p), n, p, beta, lambda)
}

/// One step of the walk of the given kind.
pub open spec fn advance(s: (Point, u64, u64), g: Point, q: Point, n: int, p: int, walk: Walk) -> (
    Point,
    u64,
    u64,
) {
    match walk {
        Walk::Plain => step(s, g, q, n, p),
        Walk::Canonical { beta, lambda, lambda2 } => canonical_step(
            s,
            g,
            q,
            n,
            p,
            beta as int,
            lambda as int,
        ),
    }
}

/// The state from which the search goes on after a meeting that gave no
/// logarithm: in the plain walk the tortoise with `g` added and `a` grown by
/// one, in the walk over orbits the tortoise one step on.
pub open spec fn perturbed(s: (Point, u64, u64), g: Point, q: Point, n: int, p: int, walk: Walk) -> (
    Point,
    u64,
    u64,
) {
    match walk {
        Walk::Plain => (add_points(s.0, g, p), ((s.1 + 1) % n) as u64, s.2),
        Walk::Canonical { beta, lambda, lambda2 } => advance(s, g, q, n, p, walk),
    }
}

/// The logarithm that two states at one point give: the difference of their
/// `a` divided by the difference of their `b`, modulo `n`; nothing if the
/// `b` agree modulo `n`.
pub open spec fn collision_log(t: (Point, u64, u64), h: (Point, u64, u64), n: int) -> Option<int> {
    let delta_b = (h.2 - t.2) % n;
    let delta_a = (t.1 - h.1) % n;
    if delta_b == 0 {
        None
    } else {
        Some((delta_a * inv_mod(delta_b, n)) % n)
    }
}

/// What a search runs on: the generator `g`, the point `q` whose logarithm
/// is sought, the group order `n`, the modulus `p` and the kind of walk.
pub struct Course {
    pub g: Point,
    pub q: Point,
    pub n: u64,
    pub p: u64,
    pub walk: Walk,
}

/// The states of tortoise and hare after one more round: the tortoise one
/// step on, the hare two.
pub open spec fn after_round(t: (Point, u64, u64), h: (Point, u64, u64), c: Course) -> (
    (Point, u64, u64),
    (Point, u64, u64),
) {
    (
        advance(t, c.g, c.q, c.n as int, c.p as int, c.walk),
        advance(
            advance(h, c.g, c.q, c.n as int, c.p as int, c.walk),
            c.g,
            c.q,
            c.n as int,
            c.p as int,
            c.walk,
        ),
    )
}

/// The states from which round `r` sets out, counting from 0, when the
/// search started from `t0` and `h0` and no round before gave a logarithm.
/// After a round in which tortoise and hare met, both set out from the
/// perturbed tortoise.
#[verifier::opaque]
pub open spec fn round_start(r: nat, t0: (Point, u64, u64), h0: (Point, u64, u64), c: Course) -> (
    (Point, u64, u64),
    (Point, u64, u64),
)
    decreases r,
{
    if r == 0 {
        (t0, h0)
    } else {
        let before = round_start((r - 1) as nat, t0, h0, c);
        let (t1, h1) = after_round(before.0, before.1, c);
        if t1.0 == h1.0 {
            let t2 = perturbed(t1, c.g, c.q, c.n as int, c.p as int, c.walk);
            (t2, t2)
        } else {
            (t1, h1)
        }
    }
}

/// The logarithm that round `r` gives: that of the meeting of tortoise and
/// hare at its end, if they meet there and their `b` differ.
#[verifier::opaque]
pub open spec fn meeting_at(r: nat, t0: (Point, u64, u64), h0: (Point, u64, u64), c: Course) -> Option<
    int,
> {
    let start = round_start(r, t0, h0, c);
    let (t1, h1) = after_round(start.0, start.1, c);
    if t1.0 == h1.0 {
        collision_log(t1, h1, c.n as int)
    } else {
        None
    }
}

/// The search gives the logarithm `k` after `rounds` rounds: the last of
/// these rounds gives `k`, and none before it gives a logarithm.
pub open spec fn is_first_meeting(
    k: int,
    rounds: nat,
    t0: (Point, u64, u64),
    h0: (Point, u64, u64),
    c: Course,
) -> bool {
    &&& rounds >= 1
    &&& meeting_at((rounds - 1) as nat, t0, h0, c) == Some(k)
    &&& forall|w: nat| w < rounds - 1 ==> (#[trigger] meeting_at(w, t0, h0, c)) is None
}

/// None of the first `rounds` rounds of the search gives a logarithm.
pub open spec fn no_meeting_within(
    rounds: nat,
    t0: (Point, u64, u64),
    h0: (Point, u64, u64),
    c: Course,
) -> bool {
    forall|w: nat| w < rounds ==> (#[trigger] meeting_at(w, t0, h0, c)) is None
}

/// The state from which the walk over orbits starts: the least member of the
/// orbit of `g`, with the scalar that leads there from `g` as `a`.
pub open spec fn canonical_start(g: Point, n: int, p: int, beta: int, lambda: int) -> (
    Point,
    u64,
    u64,
) {
    let start = canonical(g, beta, p);
    match index_in(orbit(g, beta, p), start, 0) {
        Some(idx) => (start, orbit_scalars(lambda, n)[idx] as u64, 0),
        None => (start, 1, 0),
    }
}

/// The walk over orbits in a group of `n` elements: with the least root of
/// `x^2 + x + 1` modulo `n` as the scalar of the endomorphism.
pub open spec fn canonical_walk(n: int, beta: u64) -> Walk {
    let lambda = least_lambda_from(2, n);
    Walk::Canonical { beta, lambda: lambda as u64, lambda2: ((lambda * lambda) % n) as u64 }
}

/// The walk is one that the search can run: its constants fit the group
/// order `n`.
pub open spec fn walk_fits(walk: Walk, n: int) -> bool {
    match walk {
        Walk::Plain => true,
        Walk::Canonical { beta, lambda, lambda2 } => lambda < n && lambda2 == (lambda * lambda)
            % n,
    }
}

/// One step of the walk from the state `(r, a, b)`.
pub fn walk_step(r: &Point, a: u64, b: u64, g: &Point, q: &Point, n: u64, p: u64) -> (s: (
    Point,
    u64,
    u64,
))
    requires
        p % 2 == 1,
        n > 0,
        r.reduced(p as int),
        g.reduced(p as int),
        q.reduced(p as int),
    ensures
        s == step((*r, a, b), *g, *q, n as int, p as int),
        s.0.reduced(p as int),
        a <= n && b <= n ==> s.1 <= n && s.2 <= n,
{
    let partition: u64 = if r.infinity {
        0
    } else {
        r.x % 3
    };
    if partition == 0 {
        let r_new = point_add(r, q, p);
        let b_new = mod_add(b, 1, n);
        (r_new, a, b_new)
    } else if partition == 1 {
        let r_new = point_add(r, r, p);
        let a_new = mod_mul(2, a, n);
        let b_new = mod_mul(2, b, n);
        (r_new, a_new, b_new)
    } else {
        let r_new = point_add(r, g, p);
        let a_new = mod_add(a, 1, n);
        (r_new, a_new, b)
    }
}

/// One step of the walk over orbits from the state `(r, a, b)`.
pub fn walk_step_canonical(
    r: &Point,
    a: u64,
    b: u64,
    g: &Point,
    q: &Point,
    n: u64,
    p: u64,
    beta: u64,
    lambda: u64,
    lambda2: u64,
) -> (s: (Point, u64, u64))
    requires
        p % 2 == 1,
        n > 0,
        r.reduced(p as int),
        g.reduced(p as int),
        q.reduced(p as int),
        lambda < n,
        lambda2 == (lambda * lambda) % (n as int),
    ensures
        s == canonical_step((*r, a, b), *g, *q, n as int, p as int, beta as int, lambda as int),
        s.0.reduced(p as int),
        a <= n && b <= n ==> s.1 <= n && s.2 <= n,
{
    let (r_new, a_new, b_new) = walk_step(r, a, b, g, q, n, p);
    if r_new.infinity {
        return (r_new, a_new, b_new);
    }
    let canon = canonical_rep(&r_new, beta, p);
    match orbit_scalar(&canon, &r_new, beta, p, lambda, lambda2, n) {
        Some(scalar) => {
            let a_canon = mod_mul(scalar, a_new, n);
            let b_canon = mod_mul(scalar, b_new, n);
            (canon, a_canon, b_canon)
        },
        None => (r_new, a_new, b_new),
    }
}

/// One step of the walk of the given kind.
fn advance_state(s: &(Point, u64, u64), g: &Point, q: &Point, n: u64, p: u64, walk: &Walk) -> (r: (
    Point,
    u64,
    u64,
))
    requires
        p % 2 == 1,
        n > 0,
        s.0.reduced(p as int),
        g.reduced(p as int),
        q.reduced(p as int),
        walk_fits(*walk, n as int),
    ensures
        r == advance(*s, *g, *q, n as int, p as int, *walk),
        r.0.reduced(p as int),
        s.1 <= n && s.2 <= n ==> r.1 <= n && r.2 <= n,
{
    match walk {
        Walk::Plain => walk_step(&s.0, s.1, s.2, g, q, n, p),
        Walk::Canonical { beta, lambda, lambda2 } => walk_step_canonical(
            &s.0,
            s.1,
            s.2,
            g,
            q,
            n,
            p,
            *beta,
            *lambda,
            *lambda2,
        ),
    }
}

/// The logarithm that two states at one point give, if their `b` differ
/// modulo `n`.
pub fn resolve_collision(t: &(Point, u64, u64), h: &(Point, u64, u64), n: u64) -> (k: Option<u64>)
    requires
        n > 0,
        t.1 <= n,
        t.2 <= n,
        h.1 <= n,
        h.2 <= n,
    ensures
        match collision_log(*t, *h, n as int) {
            Some(v) => k is Some && k->0 == v,
            None => k is None,
        },
        k is None <==> (h.2 - t.2) % (n as int) == 0,
        k is Some ==> k->0 < n,
{
    let delta_b = mod_sub(h.2, t.2, n);
    if delta_b == 0 {
        return None;
    }
    let delta_a = mod_sub(t.1, h.1, n);
    proof {
        lemma_small_mod(delta_b as nat, n as nat);
    }
    Some(mod_mul(delta_a, mod_inv(delta_b, n), n))
}

/// One round of the search: the tortoise advances one step and the hare two.
/// The result holds the logarithm, if they meet with different `b`, and the
/// states from which the next round sets out: the perturbed tortoise twice
/// after a meeting, else the two states reached.
pub fn rho_round(
    t: &(Point, u64, u64),
    h: &(Point, u64, u64),
    g: &Point,
    q: &Point,
    n: u64,
    p: u64,
    walk: &Walk,
) -> (r: (Option<u64>, (Point, u64, u64), (Point, u64, u64)))
    requires
        p % 2 == 1,
        n > 0,
        t.0.reduced(p as int),
        h.0.reduced(p as int),
        t.1 <= n && t.2 <= n,
        h.1 <= n && h.2 <= n,
        g.reduced(p as int),
        q.reduced(p as int),
        walk_fits(*walk, n as int),
    ensures
        ({
            let c = Course { g: *g, q: *q, n, p, walk: *walk };
            let (t1, h1) = after_round(*t, *h, c);
            if t1.0 == h1.0 {
                match collision_log(t1, h1, n as int) {
                    Some(k) => r.0 is Some && r.0->0 == k && r.0->0 < n,
                    None => r.0 is None && r.1 == perturbed(
                        t1,
                        *g,
                        *q,
                        n as int,
                        p as int,
                        *walk,
                    ) && r.2 == r.1,
                }
            } else {
                r.0 is None && r.1 == t1 && r.2 == h1
            }
        }),
        r.1.0.reduced(p as int),
        r.2.0.reduced(p as int),
        r.1.1 <= n && r.1.2 <= n,
        r.2.1 <= n && r.2.2 <= n,
{
    let t1 = advance_state(t, g, q, n, p, walk);
    let h_mid = advance_state(h, g, q, n, p, walk);
    let h1 = advance_state(&h_mid, g, q, n, p, walk);
    if t1.0 == h1.0 {
        match resolve_collision(&t1, &h1, n) {
            Some(k) => (Some(k), t1, h1),
            None => {
                let t2 = match walk {
                    Walk::Plain => (point_add(&t1.0, g, p), mod_add(t1.1, 1, n), t1.2),
                    Walk::Canonical { .. } => advance_state(&t1, g, q, n, p, walk),
                };
                (None, t2, t2)
            },
        }
    } else {
        (None, t1, h1)
    }
}

/// The search from given states of the tortoise and the hare.
///
/// It ends with the first round that gives a logarithm, or when the counter
/// of rounds is full.
pub fn rho_walk(
    tortoise: (Point, u64, u64),
    hare: (Point, u64, u64),
    g: &Point,
    q: &Point,
    n: u64,
    p: u64,
    walk: Walk,
) -> (r: Result<PollardRhoResult, SolveError>)
    requires
        p % 2 == 1,
        n > 0,
        tortoise.0.reduced(p as int),
        hare.0.reduced(p as int),
        tortoise.1 <= n && tortoise.2 <= n,
        hare.1 <= n && hare.2 <= n,
        g.reduced(p as int),
        q.reduced(p as int),
        walk_fits(walk, n as int),
    ensures
        match r {
            Ok(found) => found.k < n && is_first_meeting(
                found.k as int,
                found.iterations as nat,
                tortoise,
                hare,
                (Course { g: *g, q: *q, n, p, walk }),
            ),
            Err(e) => e == (SolveError::SearchExhausted { steps: usize::MAX as u64 })
                && no_meeting_within(
                usize::MAX as nat,
                tortoise,
                hare,
                (Course { g: *g, q: *q, n, p, walk }),
            ),
        },
{
    let ghost c = Course { g: *g, q: *q, n, p, walk };
    let mut t = tortoise;
    let mut h = hare;
    let mut iterations: usize = 0;
    proof {
        reveal_with_fuel(round_start, 1);
    }
    while iterations < usize::MAX
        invariant
            p % 2 == 1,
            n > 0,
            c == (Course { g: *g, q: *q, n, p, walk }),
            t.0.reduced(p as int),
            h.0.reduced(p as int),
            t.1 <= n && t.2 <= n,
            h.1 <= n && h.2 <= n,
            g.reduced(p as int),
            q.reduced(p as int),
            walk_fits(walk, n as int),
            (t, h) == round_start(iterations as nat, tortoise, hare, c),
            no_meeting_within(iterations as nat, tortoise, hare, c),
        decreases usize::MAX - iterations,
    {
        let ghost round = iterations as nat;
        let (found, t_next, h_next) = rho_round(&t, &h, g, q, n, p, &walk);
        iterations = iterations + 1;
        proof {
            lemma_round(round, tortoise, hare, c);
        }
        match found {
            Some(k) => {
                return Ok(PollardRhoResult { k, iterations });
            },
            None => {},
        }
        t = t_next;
        h = h_next;
    }
    Err(SolveError::SearchExhausted { steps: usize::MAX as u64 })
}

/// How a round and the next one hang together: the round gives what the
/// meeting at its end gives, and the next round sets out from the perturbed
/// tortoise after a meeting, else from the two states reached.
pub proof fn lemma_round(r: nat, t0: (Point, u64, u64), h0: (Point, u64, u64), c: Course)
    ensures
        ({
            let start = round_start(r, t0, h0, c);
            let (t1, h1) = after_round(start.0, start.1, c);
            let next = round_start(r + 1, t0, h0, c);
            &&& meeting_at(r, t0, h0, c) == if t1.0 == h1.0 {
                collision_log(t1, h1, c.n as int)
            } else {
                None
            }
            &&& next == if t1.0 == h1.0 {
                let t2 = perturbed(t1, c.g, c.q, c.n as int, c.p as int, c.walk);
                (t2, t2)
            } else {
                (t1, h1)
            }
        }),
{
    reveal_with_fuel(round_start, 2);
    reveal(meeting_at);
}

/// Pollard's rho on the points themselves: tortoise and hare both start at
/// `g`, that is at `1 * g + 0 * q`.
///
/// In a group of prime order `n` on a curve on which addition is
/// associative, the result is the logarithm of `q`.
pub fn pollard_rho_standard(q: &Point, g: &Point, n: u64, p: u64) -> (r: Result<
    PollardRhoResult,
    SolveError,
>)
    requires
        p % 2 == 1,
        n > 0,
        q.reduced(p as int),
        g.reduced(p as int),
    ensures
        match r {
            Ok(found) => found.k < n && is_logarithm_in_prime_group(found.k, *q, *g, n, p)
                && is_first_meeting(
                found.k as int,
                found.iterations as nat,
                (*g, 1, 0),
                (*g, 1, 0),
                (Course { g: *g, q: *q, n, p, walk: Walk::Plain }),
            ),
            Err(e) => e == (SolveError::SearchExhausted { steps: usize::MAX as u64 })
                && no_meeting_within(
                usize::MAX as nat,
                (*g, 1, 0),
                (*g, 1, 0),
                (Course { g: *g, q: *q, n, p, walk: Walk::Plain }),
            ),
        },
{
    let r = rho_walk((*g, 1, 0), (*g, 1, 0), g, q, n, p, Walk::Plain);
    proof {
        if r is Ok {
            lemma_plain_walk_finds_logarithm(
                r->Ok_0.k,
                r->Ok_0.iterations as nat,
                *q,
                *g,
                n,
                p,
            );
        }
    }
    r
}

/// Pollard's rho on the orbits of the points: after each step the point is
/// replaced by the least member of its orbit. Tortoise and hare both start at
/// the least member of the orbit of `g`.
///
/// In a group of prime order `n` on a curve on which addition is
/// associative, the result is the logarithm of `q`, if `beta` is a cube root
/// of unity and the endomorphism acts on the generator as the least root of
/// `x^2 + x + 1` modulo `n`.
pub fn pollard_rho_glv(q: &Point, g: &Point, n: u64, p: u64, beta: u64) -> (r: Result<
    PollardRhoResult,
    SolveError,
>)
    requires
        p % 2 == 1,
        n > 0,
        q.reduced(p as int),
        g.reduced(p as int),
    ensures
        match r {
            Ok(found) => {
                let start = canonical_start(
                    *g,
                    n as int,
                    p as int,
                    beta as int,
                    least_lambda_from(2, n as int),
                );
                &&& least_lambda_from(2, n as int) < n
                &&& found.k < n
                &&& is_logarithm_over_orbits_in_prime_group(
                    found.k,
                    *q,
                    *g,
                    n,
                    p,
                    beta,
                    least_lambda_from(2, n as int) as u64,
                )
                &&& is_first_meeting(
                    found.k as int,
                    found.iterations as nat,
                    start,
                    start,
                    (Course { g: *g, q: *q, n, p, walk: canonical_walk(n as int, beta) }),
                )
            },
            Err(SolveError::Configuration(e)) => {
                &&& e == crate::error::ConfigurationError::NoLambda
                &&& least_lambda_from(2, n as int) >= n
            },
            Err(SolveError::SearchExhausted { steps }) => {
                let start = canonical_start(
                    *g,
                    n as int,
                    p as int,
                    beta as int,
                    least_lambda_from(2, n as int),
                );
                &&& least_lambda_from(2, n as int) < n
                &&& steps == usize::MAX
                &&& no_meeting_within(
                    usize::MAX as nat,
                    start,
                    start,
                    (Course { g: *g, q: *q, n, p, walk: canonical_walk(n as int, beta) }),
                )
            },
        },
{
    let lambda = match find_lambda(n) {
        Ok(lambda) => lambda,
        Err(e) => {
            return Err(SolveError::Configuration(e));
        },
    };
    let lambda2 = mod_mul(lambda, lambda, n);
    let start = canonical_rep(g, beta, p);
    let a_start: u64 = match orbit_scalar(&start, g, beta, p, lambda, lambda2, n) {
        Some(scalar) => scalar,
        None => 1,
    };
    let r = rho_walk(
        (start, a_start, 0),
        (start, a_start, 0),
        g,
        q,
        n,
        p,
        Walk::Canonical { beta, lambda, lambda2 },
    );
    proof {
        if r is Ok {
            lemma_canonical_walk_finds_logarithm(
                r->Ok_0.k,
                r->Ok_0.iterations as nat,
                *q,
                *g,
                n,
                p,
                beta,
                lambda,
                lambda2,
            );
        }
    }
    r
}

} // verus!
