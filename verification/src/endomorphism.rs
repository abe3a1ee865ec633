//! The automorphisms of the curve `y^2 = x^3 + b`.
//!
//! With `beta` a cube root of unity modulo `p`, the map `(x, y) -> (beta * x, y)`
//! takes the curve to itself. Together with the negation it generates a group of
//! six automorphisms, and the six images of a point form its orbit.

use vstd::prelude::*;
use vstd::arithmetic::div_mod::*;
use vstd::arithmetic::mul::*;
use crate::error::ConfigurationError;
use crate::math::curve::{negate, point_neg, Point};
use crate::math::curve_laws::lemma_negate_on_curve;
use crate::math::field::{mod_add, mod_mul, mod_pow, pow_mod};
use crate::math::fermat::lemma_cube_of_candidate;
use crate::math::number_theory::{
    cong, is_prime, lemma_cong_add, lemma_cong_mod, lemma_cong_mul,
};
use crate::math::residues::lemma_power_not_one_exists;

verus! {

/// What the search for a cube root of unity computes from the base `g`:
/// `g` to the power `(p - 1) / 3`.
pub open spec fn cube_root_candidate(g: int, p: int) -> int {
    pow_mod(g, ((p - 1) / 3) as nat, p)
}

/// `g` is the least base from 2 up whose candidate is not 1.
pub open spec fn is_first_cube_root_base(g: int, p: int) -> bool {
    &&& 2 <= g < p
    &&& cube_root_candidate(g, p) != 1
    &&& forall|h: int| 2 <= h < g ==> #[trigger] cube_root_candidate(h, p) == 1
}

/// `x` is a root of `x^2 + x + 1` modulo `n`.
pub open spec fn is_lambda_root(x: int, n: int) -> bool {
    (x * x + x + 1) % n == 0
}

/// The least root of `x^2 + x + 1` modulo `n` from `x` up, or `n` if there
/// is none.
pub open spec fn least_lambda_from(x: int, n: int) -> int
    decreases n - x,
{
    if x >= n {
        n
    } else if is_lambda_root(x, n) {
        x
    } else {
        least_lambda_from(x + 1, n)
    }
}

/// The image of a point under `(x, y) -> (beta * x, y)`.
pub open spec fn endo(pt: Point, beta: int, p: int) -> Point {
    if pt.infinity {
        Point::at_infinity()
    } else {
        Point { x: ((beta * pt.x) % p) as u64, y: pt.y, infinity: false }
    }
}

/// The orbit of a point: its images under the identity, the endomorphism and
/// its square, and the negatives of these three.
pub open spec fn orbit(pt: Point, beta: int, p: int) -> Seq<Point> {
    if pt.infinity {
        seq![Point::at_infinity()]
    } else {
        let beta2 = (beta * beta) % p;
        seq![
            pt,
            endo(pt, beta, p),
            endo(pt, beta2, p),
            negate(pt, p),
            negate(endo(pt, beta, p), p),
            negate(endo(pt, beta2, p), p),
        ]
    }
}

/// The scalars by which the six automorphisms act, in the order of the
/// orbit: 1, `lambda`, its square, and their negatives modulo `n`.
pub open spec fn orbit_scalars(lambda: int, n: int) -> Seq<int> {
    let lambda2 = (lambda * lambda) % n;
    seq![1, lambda, lambda2, n - 1, n - lambda, n - lambda2]
}

/// The first place from `from` on at which `pt` stands in `members`.
pub open spec fn index_in(members: Seq<Point>, pt: Point, from: int) -> Option<int>
    decreases members.len() - from,
{
    if from < 0 || from >= members.len() {
        None
    } else if members[from] == pt {
        Some(from)
    } else {
        index_in(members, pt, from + 1)
    }
}

/// The order in which the members of an orbit are compared: by `x`, then by
/// `y`.
pub open spec fn lex_less(a: Point, b: Point) -> bool {
    a.x < b.x || (a.x == b.x && a.y < b.y)
}

pub open spec fn min2(a: int, b: int) -> int {
    if a <= b {
        a
    } else {
        b
    }
}

/// The least member of the orbit of a point. The orbit holds every pairing
/// of three abscissas with two ordinates, so its least member has the least
/// of each.
pub open spec fn canonical(pt: Point, beta: int, p: int) -> Point {
    if pt.infinity {
        Point::at_infinity()
    } else {
        let beta2 = (beta * beta) % p;
        let x = min2(pt.x as int, min2((beta * pt.x) % p, (beta2 * pt.x) % p));
        let y = min2(pt.y as int, (0 - pt.y) % p);
        Point::affine(x, y)
    }
}

/// `beta` is a cube root of unity modulo `p`.
pub open spec fn is_cube_root_of_unity(beta: int, p: int) -> bool {
    p > 1 && (beta * beta * beta) % p == 1
}

/// Multiplying by `beta` and by its square permutes the three abscissas of
/// an orbit.
pub proof fn lemma_orbit_abscissas(x: int, beta: int, p: int)
    requires
        is_cube_root_of_unity(beta, p),
        0 <= x < p,
    ensures
        ({
            let beta2 = (beta * beta) % p;
            let x1 = (beta * x) % p;
            let x2 = (beta2 * x) % p;
            &&& (beta * x1) % p == x2
            &&& (beta2 * x1) % p == x
            &&& (beta * x2) % p == x
            &&& (beta2 * x2) % p == x1
        }),
{
    let beta2 = (beta * beta) % p;
    let x1 = (beta * x) % p;
    let x2 = (beta2 * x) % p;
    lemma_small_mod(x as nat, p as nat);
    lemma_small_mod(1, p as nat);
    lemma_cong_mod(beta * beta, p);
    lemma_cong_mod(beta * x, p);
    lemma_cong_mod(beta2 * x, p);
    lemma_cong_mul(beta2, beta * beta, x, x, p);
    assert(cong(x2, (beta * beta) * x, p));
    // beta * x1 == beta * beta * x
    lemma_cong_mul(beta, beta, x1, beta * x, p);
    assert(beta * (beta * x) == (beta * beta) * x) by (nonlinear_arith);
    // beta2 * x1 == beta^3 * x == x
    lemma_cong_mul(beta2, beta * beta, x1, beta * x, p);
    assert((beta * beta) * (beta * x) == (beta * beta * beta) * x) by (nonlinear_arith);
    lemma_cong_mul(beta * beta * beta, 1, x, x, p);
    lemma_mul_basics(x);
    assert(cong((beta * beta * beta) * x, x, p));
    // beta * x2 == beta^3 * x == x
    lemma_cong_mul(beta, beta, x2, (beta * beta) * x, p);
    assert(beta * ((beta * beta) * x) == (beta * beta * beta) * x) by (nonlinear_arith);
    // beta2 * x2 == beta^3 * (beta * x) == beta * x
    lemma_cong_mul(beta2, beta * beta, x2, (beta * beta) * x, p);
    assert((beta * beta) * ((beta * beta) * x) == (beta * beta * beta) * (beta * x))
        by (nonlinear_arith);
    lemma_cong_mul(beta * beta * beta, 1, beta * x, beta * x, p);
    lemma_mul_basics(beta * x);
}

/// The negative of the negative of an ordinate is the ordinate.
pub proof fn lemma_negate_twice(y: int, p: int)
    requires
        0 <= y < p,
    ensures
        (0 - ((0 - y) % p)) % p == y,
        0 <= (0 - y) % p < p,
{
    lemma_mod_bound(0 - y, p);
    if y == 0 {
        lemma_small_mod(0, p as nat);
    } else {
        lemma_mod_add_multiples_vanish(0 - y, p);
        lemma_small_mod((p - y) as nat, p as nat);
        lemma_mod_add_multiples_vanish(0 - (p - y), p);
        lemma_small_mod(y as nat, p as nat);
    }
}

/// Every member of the orbit of a point has the same least member as the
/// point.
pub proof fn lemma_orbit_shares_canonical(pt: Point, beta: u64, p: u64, i: int)
    requires
        is_cube_root_of_unity(beta as int, p as int),
        pt.reduced(p as int),
        0 <= i < orbit(pt, beta as int, p as int).len(),
    ensures
        canonical(orbit(pt, beta as int, p as int)[i], beta as int, p as int) == canonical(
            pt,
            beta as int,
            p as int,
        ),
{
    if !pt.infinity {
        let pi = p as int;
        let bi = beta as int;
        lemma_orbit_abscissas(pt.x as int, bi, pi);
        lemma_negate_twice(pt.y as int, pi);
        lemma_mod_bound(bi * pt.x, pi);
        lemma_mod_bound(((bi * bi) % pi) * pt.x, pi);
        let member = orbit(pt, bi, pi)[i];
        assert(!member.infinity);
    }
}

/// The least member of an orbit is one of its members.
pub proof fn lemma_canonical_is_member(pt: Point, beta: u64, p: u64) -> (i: int)
    requires
        p > 0,
        pt.reduced(p as int),
    ensures
        0 <= i < orbit(pt, beta as int, p as int).len(),
        orbit(pt, beta as int, p as int)[i] == canonical(pt, beta as int, p as int),
{
    let pi = p as int;
    let bi = beta as int;
    let o = orbit(pt, bi, pi);
    let c = canonical(pt, bi, pi);
    if pt.infinity {
        0
    } else {
        lemma_mod_bound(bi * pt.x, pi);
        lemma_mod_bound(((bi * bi) % pi) * pt.x, pi);
        lemma_mod_bound(0 - pt.y, pi);
        if o[0] == c {
            0
        } else if o[1] == c {
            1
        } else if o[2] == c {
            2
        } else if o[3] == c {
            3
        } else if o[4] == c {
            4
        } else {
            assert(o[5] == c);
            5
        }
    }
}

/// `index_in` finds a place exactly if the point stands in the sequence from
/// `from` on, and the place it finds is the first one.
pub proof fn lemma_index_in(members: Seq<Point>, pt: Point, from: int)
    requires
        0 <= from,
    ensures
        match index_in(members, pt, from) {
            Some(idx) => from <= idx < members.len() && members[idx] == pt && forall|w: int|
                from <= w < idx ==> members[w] != pt,
            None => forall|w: int| from <= w < members.len() ==> members[w] != pt,
        },
    decreases members.len() - from,
{
    if from < members.len() && members[from] != pt {
        lemma_index_in(members, pt, from + 1);
    }
}

/// The least member of an orbit is found in the orbit: the walk over orbits
/// always has a scalar by which to multiply its coefficients.
pub proof fn lemma_canonical_has_index(pt: Point, beta: u64, p: u64)
    requires
        p > 0,
        pt.reduced(p as int),
    ensures
        index_in(orbit(pt, beta as int, p as int), canonical(pt, beta as int, p as int), 0)
            is Some,
{
    let i = lemma_canonical_is_member(pt, beta, p);
    lemma_index_in(orbit(pt, beta as int, p as int), canonical(pt, beta as int, p as int), 0);
}

/// No member of an orbit comes before its least member.
pub proof fn lemma_canonical_is_least(pt: Point, beta: u64, p: u64, i: int)
    requires
        p > 0,
        pt.reduced(p as int),
        0 <= i < orbit(pt, beta as int, p as int).len(),
    ensures
        !lex_less(orbit(pt, beta as int, p as int)[i], canonical(pt, beta as int, p as int)),
{
    let pi = p as int;
    let bi = beta as int;
    if !pt.infinity {
        lemma_mod_bound(bi * pt.x, pi);
        lemma_mod_bound(((bi * bi) % pi) * pt.x, pi);
        lemma_mod_bound(0 - pt.y, pi);
    }
}

/// Taking the least member of the orbit twice gives what taking it once
/// gives.
pub proof fn lemma_canonical_idempotent(pt: Point, beta: u64, p: u64)
    requires
        is_cube_root_of_unity(beta as int, p as int),
        pt.reduced(p as int),
    ensures
        canonical(canonical(pt, beta as int, p as int), beta as int, p as int) == canonical(
            pt,
            beta as int,
            p as int,
        ),
{
    let i = lemma_canonical_is_member(pt, beta, p);
    lemma_orbit_shares_canonical(pt, beta, p, i);
}

/// The endomorphism takes the curve to itself.
pub proof fn lemma_endo_on_curve(pt: Point, beta: u64, b: u64, p: u64)
    requires
        is_cube_root_of_unity(beta as int, p as int),
        pt.on_curve(b as int, p as int),
    ensures
        endo(pt, beta as int, p as int).on_curve(b as int, p as int),
{
    if !pt.infinity {
        let pi = p as int;
        let bi = beta as int;
        let x = pt.x as int;
        let ex = (bi * x) % pi;
        lemma_mod_bound(bi * x, pi);
        lemma_small_mod(1, p as nat);
        // ex^3 == beta^3 * x^3 == x^3
        lemma_cong_mod(bi * x, pi);
        lemma_cong_mul(ex, bi * x, ex, bi * x, pi);
        lemma_cong_mul(ex * ex, (bi * x) * (bi * x), ex, bi * x, pi);
        assert((bi * x) * (bi * x) * (bi * x) == (bi * bi * bi) * (x * x * x)) by (nonlinear_arith);
        lemma_cong_mul(bi * bi * bi, 1, x * x * x, x * x * x, pi);
        lemma_mul_basics(x * x * x);
        lemma_cong_add(ex * ex * ex, x * x * x, b as int, b as int, pi);
    }
}

/// Every member of the orbit of a point of the curve is a point of the
/// curve.
pub proof fn lemma_orbit_on_curve(pt: Point, beta: u64, b: u64, p: u64, i: int)
    requires
        is_cube_root_of_unity(beta as int, p as int),
        pt.reduced(p as int),
        pt.on_curve(b as int, p as int),
        0 <= i < orbit(pt, beta as int, p as int).len(),
    ensures
        orbit(pt, beta as int, p as int)[i].on_curve(b as int, p as int),
{
    if !pt.infinity {
        let pi = p as int;
        let beta2 = ((beta * beta) % pi) as u64;
        lemma_mod_bound(beta * beta, pi);
        assert(is_cube_root_of_unity(beta2 as int, pi)) by {
            // (beta^2)^3 == (beta^3)^2 == 1
            let c = beta as int;
            lemma_small_mod(1, p as nat);
            lemma_cong_mod(c * c, pi);
            lemma_cong_mul(beta2 as int, c * c, beta2 as int, c * c, pi);
            lemma_cong_mul(beta2 * beta2, (c * c) * (c * c), beta2 as int, c * c, pi);
            assert((c * c) * (c * c) * (c * c) == (c * c * c) * (c * c * c)) by (nonlinear_arith);
            lemma_cong_mul(c * c * c, 1, c * c * c, 1, pi);
        }
        lemma_endo_on_curve(pt, beta, b, p);
        lemma_endo_on_curve(pt, beta2, b, p);
        lemma_mod_bound(beta * pt.x, pi);
        lemma_mod_bound(beta2 * pt.x, pi);
        lemma_negate_on_curve(pt, b, p);
        lemma_negate_on_curve(endo(pt, beta as int, pi), b, p);
        lemma_negate_on_curve(endo(pt, beta2 as int, pi), b, p);
    }
}

/// A cube root of unity modulo `p` other than 1: `g^((p - 1) / 3)` for the
/// least base `g` from 2 up for which this is not 1.
///
/// Modulo a prime there is one exactly if `p` is 1 modulo 3.
pub fn find_beta(p: u64) -> (r: Result<u64, ConfigurationError>)
    ensures
        is_prime(p as int) ==> (r is Ok <==> p % 3 == 1),
        match r {
            Ok(beta) => {
                &&& p % 3 == 1
                &&& beta < p
                &&& beta != 1
                &&& is_prime(p as int) ==> is_cube_root_of_unity(beta as int, p as int)
                &&& exists|g: int| #[trigger]
                    is_first_cube_root_base(g, p as int) && cube_root_candidate(g, p as int)
                        == beta
            },
            Err(e) => {
                &&& e == ConfigurationError::NoCubeRoot
                &&& p % 3 != 1 || forall|g: int|
                    2 <= g < p ==> #[trigger] cube_root_candidate(g, p as int) == 1
            },
        },
{
    if p % 3 != 1 {
        return Err(ConfigurationError::NoCubeRoot);
    }
    let exp: u64 = (p - 1) / 3;
    let mut g: u64 = 2;
    while g < p
        invariant
            2 <= g,
            p % 3 == 1,
            exp == (p - 1) / 3,
            forall|h: int| 2 <= h < g ==> #[trigger] cube_root_candidate(h, p as int) == 1,
        decreases p - g,
    {
        let candidate = mod_pow(g, exp, p);
        if candidate != 1 {
            proof {
                assert(is_first_cube_root_base(g as int, p as int));
                if is_prime(p as int) {
                    lemma_small_mod(g as nat, p as nat);
                    lemma_cube_of_candidate(g as int, p as int);
                }
            }
            return Ok(candidate);
        }
        g = g + 1;
    }
    proof {
        if is_prime(p as int) {
            if p == 4 {
                assert((p as int) % 2 != 0);
            }
            lemma_power_not_one_exists(exp as nat, p as int);
            let w = choose|w: int| 2 <= w < p && #[trigger] pow_mod(w, exp as nat, p as int) != 1;
            assert(cube_root_candidate(w, p as int) == 1);
        }
    }
    Err(ConfigurationError::NoCubeRoot)
}

/// The least root of `x^2 + x + 1` modulo `n` from 2 up: the scalar by which
/// the endomorphism acts on a group of `n` elements.
pub fn find_lambda(n: u64) -> (r: Result<u64, ConfigurationError>)
    ensures
        match r {
            Ok(lambda) => {
                &&& 2 <= lambda < n
                &&& lambda == least_lambda_from(2, n as int)
                &&& is_lambda_root(lambda as int, n as int)
                &&& forall|x: int| 2 <= x < lambda ==> !#[trigger] is_lambda_root(x, n as int)
            },
            Err(e) => {
                &&& e == ConfigurationError::NoLambda
                &&& least_lambda_from(2, n as int) >= n
                &&& forall|x: int| 2 <= x < n ==> !#[trigger] is_lambda_root(x, n as int)
            },
        },
{
    let mut x: u64 = 2;
    while x < n
        invariant
            2 <= x,
            least_lambda_from(2, n as int) == least_lambda_from(x as int, n as int),
            forall|w: int| 2 <= w < x ==> !#[trigger] is_lambda_root(w, n as int),
        decreases n - x,
    {
        let val = mod_add(mod_add(mod_mul(x, x, n), x, n), 1, n);
        proof {
            let ni = n as int;
            lemma_add_mod_noop(x * x, x as int, ni);
            lemma_add_mod_noop((x * x) % ni, x as int, ni);
            lemma_mod_twice(x * x, ni);
            lemma_add_mod_noop(x * x + x, 1, ni);
            lemma_add_mod_noop((x * x + x) % ni, 1, ni);
            lemma_mod_twice(x * x + x, ni);
        }
        if val == 0 {
            return Ok(x);
        }
        x = x + 1;
    }
    Err(ConfigurationError::NoLambda)
}

/// The image of a point under the endomorphism `(x, y) -> (beta * x, y)`.
pub fn apply_endo(pt: &Point, beta: u64, p: u64) -> (r: Point)
    requires
        p > 0,
    ensures
        r == endo(*pt, beta as int, p as int),
        pt.reduced(p as int) ==> r.well_formed(p as int),
        forall|b: u64|
            is_cube_root_of_unity(beta as int, p as int) && pt.on_curve(b as int, p as int)
                ==> #[trigger] r.on_curve(b as int, p as int),
{
    proof {
        assert forall|b: u64|
            is_cube_root_of_unity(beta as int, p as int) && pt.on_curve(
                b as int,
                p as int,
            ) implies #[trigger] endo(*pt, beta as int, p as int).on_curve(b as int, p as int) by {
            lemma_endo_on_curve(*pt, beta, b, p);
        }
    }
    if pt.infinity {
        return Point::infinity();
    }
    let r = Point::new(mod_mul(beta, pt.x, p), pt.y);
    assert(r == endo(*pt, beta as int, p as int));
    r
}

/// The six images of a point under the automorphisms of the curve, or the
/// point at infinity alone.
pub fn automorphism_orbit(pt: &Point, beta: u64, p: u64) -> (r: Vec<Point>)
    requires
        p > 0,
        pt.reduced(p as int),
    ensures
        r@ == orbit(*pt, beta as int, p as int),
        forall|i: int| 0 <= i < r@.len() ==> (#[trigger] r@[i]).reduced(p as int),
        is_cube_root_of_unity(beta as int, p as int) ==> forall|i: int|
            0 <= i < r@.len() ==> canonical(#[trigger] r@[i], beta as int, p as int) == canonical(
                *pt,
                beta as int,
                p as int,
            ),
{
    proof {
        if is_cube_root_of_unity(beta as int, p as int) {
            let o = orbit(*pt, beta as int, p as int);
            assert forall|i: int| 0 <= i < o.len() implies canonical(
                #[trigger] o[i],
                beta as int,
                p as int,
            ) == canonical(*pt, beta as int, p as int) by {
                lemma_orbit_shares_canonical(*pt, beta, p, i);
            }
        }
    }
    if pt.infinity {
        let r = vec![Point::infinity()];
        assert(r@ =~= orbit(*pt, beta as int, p as int));
        return r;
    }
    let beta2 = mod_mul(beta, beta, p);
    let turned = apply_endo(pt, beta, p);
    let turned_twice = apply_endo(pt, beta2, p);
    let mirrored = point_neg(pt, p);
    let turned_mirrored = point_neg(&turned, p);
    let turned_twice_mirrored = point_neg(&turned_twice, p);
    let r = vec![*pt, turned, turned_twice, mirrored, turned_mirrored, turned_twice_mirrored];
    proof {
        assert(r@ =~= orbit(*pt, beta as int, p as int));
    }
    r
}

/// The scalar of the first automorphism that takes `source` to `target`,
/// with `lambda` the scalar of the endomorphism in a group of `n` elements.
pub fn orbit_scalar(
    target: &Point,
    source: &Point,
    beta: u64,
    p: u64,
    lambda: u64,
    lambda2: u64,
    n: u64,
) -> (r: Option<u64>)
    requires
        p > 0,
        n > 0,
        source.reduced(p as int),
        lambda < n,
        lambda2 == (lambda * lambda) % (n as int),
    ensures
        match index_in(orbit(*source, beta as int, p as int), *target, 0) {
            Some(idx) => r is Some && r->0 == orbit_scalars(lambda as int, n as int)[idx],
            None => r is None,
        },
        r is Some ==> r->0 <= n,
{
    let members = automorphism_orbit(source, beta, p);
    let scalars: [u64; 6] = [1, lambda, lambda2, n - 1, n - lambda, n - lambda2];
    proof {
        let named = orbit_scalars(lambda as int, n as int);
        assert(scalars@[0] == named[0]);
        assert(scalars@[1] == named[1]);
        assert(scalars@[2] == named[2]);
        assert(scalars@[3] == named[3]);
        assert(scalars@[4] == named[4]);
        assert(scalars@[5] == named[5]);
    }
    let mut idx: usize = 0;
    while idx < members.len()
        invariant
            idx <= members@.len() <= 6,
            members@ == orbit(*source, beta as int, p as int),
            index_in(members@, *target, 0) == index_in(members@, *target, idx as int),
            forall|w: int|
                0 <= w < 6 ==> #[trigger] scalars@[w] == orbit_scalars(
                    lambda as int,
                    n as int,
                )[w] && scalars@[w] <= n,
        decreases members@.len() - idx,
    {
        if members[idx] == *target {
            return Some(scalars[idx]);
        }
        idx = idx + 1;
    }
    None
}

/// The least member of the orbit of a point, by `x` and then by `y`.
pub fn canonical_rep(pt: &Point, beta: u64, p: u64) -> (r: Point)
    requires
        p > 0,
        pt.reduced(p as int),
    ensures
        r == canonical(*pt, beta as int, p as int),
        r.well_formed(p as int),
        is_cube_root_of_unity(beta as int, p as int) ==> canonical(r, beta as int, p as int) == r,
        exists|i: int|
            0 <= i < orbit(*pt, beta as int, p as int).len() && orbit(
                *pt,
                beta as int,
                p as int,
            )[i] == r,
        forall|i: int|
            0 <= i < orbit(*pt, beta as int, p as int).len() ==> !lex_less(
                #[trigger] orbit(*pt, beta as int, p as int)[i],
                r,
            ),
{
    proof {
        if is_cube_root_of_unity(beta as int, p as int) {
            lemma_canonical_idempotent(*pt, beta, p);
        }
    }
    if pt.infinity {
        proof {
            assert(orbit(*pt, beta as int, p as int)[0] == Point::at_infinity());
        }
        return Point::infinity();
    }
    let members = automorphism_orbit(pt, beta, p);
    let mut best = members[0];
    let ghost mut at: int = 0;
    let mut i: usize = 1;
    while i < members.len()
        invariant
            1 <= i <= members.len(),
            members@.len() == 6,
            0 <= at < i,
            best == members@[at],
            forall|j: int| 0 <= j < 6 ==> !(#[trigger] members@[j]).infinity,
            forall|j: int| 0 <= j < i ==> !lex_less(#[trigger] members@[j], best),
        decreases members.len() - i,
    {
        let q = members[i];
        if !q.infinity {
            if q.x < best.x || (q.x == best.x && q.y < best.y) {
                best = q;
                proof {
                    at = i as int;
                }
            }
        }
        i = i + 1;
    }
    proof {
        let o = orbit(*pt, beta as int, p as int);
        assert(o[at] == best);
        assert(!lex_less(o[0], best));
        assert(!lex_less(o[1], best));
        assert(!lex_less(o[2], best));
        assert(!lex_less(o[3], best));
        assert(!lex_less(o[4], best));
        assert(!lex_less(o[5], best));
    }
    best
}

} // verus!
