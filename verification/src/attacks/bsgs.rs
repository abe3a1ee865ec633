//! Baby-step giant-step: a table of the first multiples of the generator, and
//! strides through the group until one of them lands in the table.

use std::collections::HashMap;
use vstd::prelude::*;
use vstd::arithmetic::div_mod::*;
use vstd::arithmetic::mul::*;
use crate::endomorphism::{
    canonical, canonical_rep, find_lambda, index_in, least_lambda_from, orbit, orbit_scalar,
    orbit_scalars,
};
use crate::attacks::bsgs_laws::{
    is_logarithm_on_group, is_no_multiple_on_group, lemma_standard_search_is_complete,
    lemma_standard_solution_is_sound,
};
use crate::attacks::glv_laws::{
    is_glv_setting, is_logarithm_over_orbits, is_no_multiple_over_orbits,
    lemma_glv_search_is_complete, lemma_glv_solution_is_sound,
};
use crate::error::SolveError;
use crate::math::group::{addition_is_associative, is_member};
use crate::math::number_theory::is_prime;
use crate::math::curve::{
    add_points, negate, point_add, point_neg, repeated_sum, scalar_mul, scalar_multiple, Point,
};
use crate::math::curve_laws::{
    lemma_negate_reduced, lemma_scalar_multiple_reduced, lemma_sum_reduced,
};
use crate::math::field::{mod_add, mod_mul};

verus! {

broadcast use vstd::std_specs::hash::group_hash_axioms;

/// `m` is the least number whose square, taken `d` times, reaches `n`:
/// the square root of `n / d`, rounded up.
pub open spec fn is_ceil_sqrt(m: int, n: int, d: int) -> bool {
    &&& 0 <= m
    &&& d * m * m >= n
    &&& m == 0 || d * (m - 1) * (m - 1) < n
}

/// The square root of `n / d`, rounded up.
pub open spec fn ceil_sqrt(n: int, d: int) -> int {
    choose|m: int| is_ceil_sqrt(m, n, d)
}

/// The key under which a point is stored: `x * 2^64 + y`, and for the point
/// at infinity the one key that no affine point with an abscissa below the
/// modulus can have.
pub open spec fn key_of(pt: Point) -> u128 {
    if pt.infinity {
        u128::MAX
    } else {
        (pt.x * 0x1_0000_0000_0000_0000 + pt.y) as u128
    }
}

/// The point as it is stored and looked up: itself, or with `Some(beta)` the
/// least member of its orbit.
pub open spec fn folded(pt: Point, fold: Option<int>, p: int) -> Point {
    match fold {
        None => pt,
        Some(beta) => canonical(pt, beta, p),
    }
}

/// The `j`-th baby step: `g` added up `j` times.
pub open spec fn baby_point(j: nat, g: Point, p: int) -> Point {
    repeated_sum(j, g, p)
}

/// The key of the `j`-th baby step.
pub open spec fn baby_key(j: nat, g: Point, p: int, fold: Option<int>) -> u128 {
    key_of(folded(baby_point(j, g, p), fold, p))
}

/// The least `j` below `count` whose baby step has the key `key`.
pub open spec fn first_baby(key: u128, count: nat, g: Point, p: int, fold: Option<int>) -> Option<
    nat,
>
    decreases count,
{
    if count == 0 {
        None
    } else {
        match first_baby(key, (count - 1) as nat, g, p, fold) {
            Some(j) => Some(j),
            None => if baby_key((count - 1) as nat, g, p, fold) == key {
                Some((count - 1) as nat)
            } else {
                None
            },
        }
    }
}

/// The table holds, for each key of the first `count` baby steps, the least
/// index that has it, and nothing else.
pub open spec fn is_baby_table(
    table: Map<u128, u64>,
    count: nat,
    g: Point,
    p: int,
    fold: Option<int>,
) -> bool {
    forall|key: u128|
        match #[trigger] first_baby(key, count, g, p, fold) {
            Some(j) => table.contains_key(key) && table[key] == j,
            None => !table.contains_key(key),
        }
}

/// The `i`-th giant step: `q` with `stride` added `i` times.
pub open spec fn giant_point(i: nat, q: Point, stride: Point, p: int) -> Point
    decreases i,
{
    if i == 0 {
        q
    } else {
        add_points(giant_point((i - 1) as nat, q, stride, p), stride, p)
    }
}

/// The stride of the giant steps: the negative of `m * g`.
pub open spec fn giant_stride(m: nat, g: Point, p: int) -> Point {
    negate(scalar_multiple(m, g, p), p)
}

/// The logarithm that a meeting of giant step `i` with a baby step gives:
/// `i * m + t` modulo `n`, with `t` the baby step's own logarithm.
pub open spec fn meeting_log(i: int, m: int, t: int, n: int) -> int {
    ((i * m) % n + t) % n
}

/// What the `i`-th giant step of the plain search yields: with `j` the first
/// baby step that it meets, the logarithm `i * m + j` modulo `n`.
pub open spec fn standard_solution(i: nat, q: Point, g: Point, n: int, p: int) -> Option<int> {
    let m = ceil_sqrt(n, 1) as nat;
    let gamma = giant_point(i, q, giant_stride(m, g, p), p);
    match first_baby(key_of(gamma), m, g, p, None) {
        Some(j) => Some(meeting_log(i as int, m as int, j as int, n)),
        None => None,
    }
}

/// What a meeting of the point `gamma` with the class of the `j`-th baby step
/// yields at giant step `i`: with `s` the scalar of the first automorphism
/// that takes `j * g` to `gamma`, the logarithm `i * m + s * j` modulo `n`;
/// nothing if no automorphism does.
pub open spec fn orbit_solution(
    i: nat,
    j: nat,
    gamma: Point,
    g: Point,
    m: nat,
    n: int,
    p: int,
    beta: int,
    lambda: int,
) -> Option<int> {
    match index_in(orbit(scalar_multiple(j, g, p), beta, p), gamma, 0) {
        Some(idx) => Some(
            meeting_log(i as int, m as int, (orbit_scalars(lambda, n)[idx] * j) % n, n),
        ),
        None => None,
    }
}

/// What the `i`-th giant step of the search over orbits yields.
pub open spec fn glv_solution(i: nat, q: Point, g: Point, n: int, p: int, beta: int) -> Option<
    int,
> {
    let m = ceil_sqrt(n, 6) as nat;
    let lambda = least_lambda_from(2, n);
    let gamma = giant_point(i, q, giant_stride(m, g, p), p);
    match first_baby(key_of(canonical(gamma, beta, p)), m, g, p, Some(beta)) {
        Some(j) => if gamma.infinity {
            Some(meeting_log(i as int, m as int, j as int, n))
        } else {
            orbit_solution(i, j, gamma, g, m, n, p, beta, lambda)
        },
        None => None,
    }
}

/// The number of giant steps of the search over orbits, for `n` above zero:
/// `n / m` rounded up, and two more.
pub open spec fn glv_giant_steps(n: int) -> int {
    let m = ceil_sqrt(n, 6);
    (n - 1) / m + 3
}

/// Two numbers with the defining property of `is_ceil_sqrt` are equal.
pub proof fn lemma_ceil_sqrt_unique(m1: int, m2: int, n: int, d: int)
    requires
        d >= 1,
        is_ceil_sqrt(m1, n, d),
        is_ceil_sqrt(m2, n, d),
    ensures
        m1 == m2,
{
    if m1 < m2 {
        assert(d * m1 * m1 <= d * (m2 - 1) * (m2 - 1)) by (nonlinear_arith)
            requires
                0 <= m1 <= m2 - 1,
                d >= 1,
        ;
    } else if m2 < m1 {
        assert(d * m2 * m2 <= d * (m1 - 1) * (m1 - 1)) by (nonlinear_arith)
            requires
                0 <= m2 <= m1 - 1,
                d >= 1,
        ;
    }
}

/// Two points with coordinates below `p` have the same key exactly if they
/// are the same point.
pub proof fn lemma_key_tells_points_apart(a: Point, b: Point, p: u64)
    requires
        a.reduced(p as int),
        b.reduced(p as int),
    ensures
        key_of(a) == key_of(b) <==> same_point(a, b),
{
}

/// Two points are the same point of the curve: both at infinity, or both
/// affine with the same coordinates.
pub open spec fn same_point(a: Point, b: Point) -> bool {
    (a.infinity && b.infinity) || (!a.infinity && !b.infinity && a.x == b.x && a.y == b.y)
}

/// The coordinates of every baby step lie below the modulus.
pub proof fn lemma_baby_point_reduced(j: nat, g: Point, p: u64)
    requires
        p > 0,
        g.reduced(p as int),
    ensures
        baby_point(j, g, p as int).reduced(p as int),
    decreases j,
{
    if j > 0 {
        lemma_baby_point_reduced((j - 1) as nat, g, p);
        lemma_sum_reduced(baby_point((j - 1) as nat, g, p as int), g, p);
    }
}

/// The coordinates of every giant step lie below the modulus.
pub proof fn lemma_giant_point_reduced(i: nat, q: Point, stride: Point, p: u64)
    requires
        p > 0,
        q.reduced(p as int),
        stride.reduced(p as int),
    ensures
        giant_point(i, q, stride, p as int).reduced(p as int),
    decreases i,
{
    if i > 0 {
        lemma_giant_point_reduced((i - 1) as nat, q, stride, p);
        lemma_sum_reduced(giant_point((i - 1) as nat, q, stride, p as int), stride, p);
    }
}

/// What a solution of the plain search means: the giant step `i` and a baby
/// step `j` are the same point, no earlier baby step is that point, and the
/// solution is `i * m + j` modulo `n`.
pub proof fn lemma_standard_solution_is_meeting(i: nat, q: Point, g: Point, n: u64, p: u64)
    requires
        p > 0,
        q.reduced(p as int),
        g.reduced(p as int),
        standard_solution(i, q, g, n as int, p as int) is Some,
    ensures
        ({
            let m = ceil_sqrt(n as int, 1) as nat;
            let gamma = giant_point(i, q, giant_stride(m, g, p as int), p as int);
            exists|j: nat|
                {
                    &&& j < m
                    &&& #[trigger] same_point(gamma, baby_point(j, g, p as int))
                    &&& forall|w: nat|
                        w < j ==> !#[trigger] same_point(gamma, baby_point(w, g, p as int))
                    &&& standard_solution(i, q, g, n as int, p as int) == Some(
                        meeting_log(i as int, m as int, j as int, n as int),
                    )
                }
        }),
{
    let pi = p as int;
    let m = ceil_sqrt(n as int, 1) as nat;
    let stride = giant_stride(m, g, pi);
    let gamma = giant_point(i, q, stride, pi);
    lemma_scalar_multiple_reduced(m, g, p);
    lemma_negate_reduced(scalar_multiple(m, g, pi), p);
    lemma_giant_point_reduced(i, q, stride, p);
    lemma_first_baby(key_of(gamma), m, g, pi, None);
    let j = first_baby(key_of(gamma), m, g, pi, None)->0;
    lemma_baby_point_reduced(j, g, p);
    lemma_key_tells_points_apart(gamma, baby_point(j, g, pi), p);
    assert forall|w: nat| w < j implies !#[trigger] same_point(gamma, baby_point(w, g, pi)) by {
        lemma_baby_point_reduced(w, g, p);
        lemma_key_tells_points_apart(gamma, baby_point(w, g, pi), p);
        assert(baby_key(w, g, pi, None) != key_of(gamma));
    }
    assert(same_point(gamma, baby_point(j, g, pi)));
}

/// `first_baby` finds an index exactly if some baby step has the key, and
/// the index it finds is the least one.
pub proof fn lemma_first_baby(key: u128, count: nat, g: Point, p: int, fold: Option<int>)
    ensures
        match first_baby(key, count, g, p, fold) {
            Some(j) => j < count && baby_key(j, g, p, fold) == key && forall|w: nat|
                w < j ==> #[trigger] baby_key(w, g, p, fold) != key,
            None => forall|w: nat| w < count ==> #[trigger] baby_key(w, g, p, fold) != key,
        },
    decreases count,
{
    if count > 0 {
        lemma_first_baby(key, (count - 1) as nat, g, p, fold);
    }
}

/// The square root of `n / d`, rounded up.
pub fn ceil_sqrt_ratio(n: u64, d: u64) -> (m: u64)
    requires
        d >= 1,
    ensures
        is_ceil_sqrt(m as int, n as int, d as int),
        m == ceil_sqrt(n as int, d as int),
        m <= 0x1_0000_0000,
        n >= 1 ==> m >= 1,
{
    let mut lo: u64 = 0;
    let mut hi: u64 = 0x1_0000_0000;
    proof {
        assert(d * 0x1_0000_0000 * 0x1_0000_0000 >= n) by (nonlinear_arith)
            requires
                d >= 1,
                n < 0x1_0000_0000_0000_0000,
        ;
    }
    while lo < hi
        invariant
            d >= 1,
            0 <= lo <= hi <= 0x1_0000_0000,
            d * hi * hi >= n,
            lo == 0 || d * (lo - 1) * (lo - 1) < n,
        decreases hi - lo,
    {
        let mid: u64 = lo + (hi - lo) / 2;
        proof {
            assert(mid * mid <= 0x1_0000_0000 * 0x1_0000_0000) by (nonlinear_arith)
                requires
                    mid <= 0x1_0000_0000,
            ;
            assert(d * (mid * mid) <= 0xffff_ffff_ffff_ffff * (0x1_0000_0000 * 0x1_0000_0000))
                by (nonlinear_arith)
                requires
                    d <= 0xffff_ffff_ffff_ffff,
                    mid * mid <= 0x1_0000_0000 * 0x1_0000_0000,
            ;
            assert(d * (mid * mid) == d * mid * mid) by (nonlinear_arith);
        }
        if (d as u128) * (mid as u128 * mid as u128) >= n as u128 {
            hi = mid;
        } else {
            lo = mid + 1;
        }
    }
    proof {
        assert(is_ceil_sqrt(lo as int, n as int, d as int));
        lemma_ceil_sqrt_unique(lo as int, ceil_sqrt(n as int, d as int), n as int, d as int);
        if lo == 0 {
            assert(d * 0 * 0 == 0) by (nonlinear_arith);
        }
    }
    lo
}

/// The key under which a point is stored and looked up.
pub fn point_key(pt: &Point) -> (key: u128)
    ensures
        key == key_of(*pt),
{
    if pt.infinity {
        u128::MAX
    } else {
        (pt.x as u128) * 0x1_0000_0000_0000_0000 + (pt.y as u128)
    }
}

/// The point as it is stored and looked up: itself, or with `Some(beta)` the
/// least member of its orbit.
pub fn fold_point(pt: &Point, fold: Option<u64>, p: u64) -> (r: Point)
    requires
        p > 0,
        pt.reduced(p as int),
    ensures
        r == folded(
            *pt,
            match fold {
                Some(beta) => Some(beta as int),
                None => None,
            },
            p as int,
        ),
        r.reduced(p as int),
{
    match fold {
        None => *pt,
        Some(beta) => canonical_rep(pt, beta, p),
    }
}

/// The view of a fold in specifications.
pub open spec fn fold_view(fold: Option<u64>) -> Option<int> {
    match fold {
        Some(beta) => Some(beta as int),
        None => None,
    }
}

/// The table of the first `m` baby steps: from the key of each to the least
/// index that has it.
pub fn baby_table(g: &Point, m: u64, p: u64, fold: Option<u64>) -> (table: HashMap<u128, u64>)
    requires
        p % 2 == 1,
        g.reduced(p as int),
    ensures
        is_baby_table(table@, m as nat, *g, p as int, fold_view(fold)),
{
    let mut table: HashMap<u128, u64> = HashMap::new();
    let mut baby = Point::infinity();
    let mut j: u64 = 0;
    while j < m
        invariant
            j <= m,
            p % 2 == 1,
            g.reduced(p as int),
            baby.reduced(p as int),
            baby == baby_point(j as nat, *g, p as int),
            is_baby_table(table@, j as nat, *g, p as int, fold_view(fold)),
        decreases m - j,
    {
        let key = point_key(&fold_point(&baby, fold, p));
        let ghost before = table@;
        if !table.contains_key(&key) {
            table.insert(key, j);
        }
        proof {
            assert(key == baby_key(j as nat, *g, p as int, fold_view(fold)));
            assert forall|k: u128|
                match #[trigger] first_baby(k, (j + 1) as nat, *g, p as int, fold_view(fold)) {
                    Some(w) => table@.contains_key(k) && table@[k] == w,
                    None => !table@.contains_key(k),
                } by {
                let earlier = first_baby(k, j as nat, *g, p as int, fold_view(fold));
                assert(match earlier {
                    Some(w) => before.contains_key(k) && before[k] == w,
                    None => !before.contains_key(k),
                });
            }
        }
        baby = point_add(&baby, g, p);
        j = j + 1;
    }
    table
}

/// Baby-step giant-step on the points themselves.
///
/// The table holds the first `m` multiples of `g`, with `m` the square root
/// of `n` rounded up. The giant steps `q - i * (m * g)` run from `i = 0` to
/// `m`. The first that is found in the table, at the baby step `j`, gives
/// the logarithm `i * m + j` modulo `n` and the count `m + i` of group
/// operations, which has to fit the counter.
///
/// On a curve on which addition is associative, with a generator whose
/// multiple by `n` is the point at infinity, the result is a logarithm of
/// `q`, and the search fails only for a `q` that is no multiple of the
/// generator by a number below `n`.
pub fn bsgs_standard(q: &Point, g: &Point, n: u64, p: u64) -> (r: Result<(u64, usize), SolveError>)
    requires
        p % 2 == 1,
        n > 0,
        q.reduced(p as int),
        g.reduced(p as int),
        2 * ceil_sqrt(n as int, 1) <= usize::MAX,
    ensures
        match r {
            Ok((k, ops)) => {
                let i = ops - ceil_sqrt(n as int, 1);
                &&& k < n
                &&& is_logarithm_on_group(k, *q, *g, n, p)
                &&& 0 <= i <= ceil_sqrt(n as int, 1)
                &&& standard_solution(i as nat, *q, *g, n as int, p as int) == Some(k as int)
                &&& forall|w: nat|
                    w < i ==> (#[trigger] standard_solution(w, *q, *g, n as int, p as int))
                        is None
            },
            Err(e) => {
                &&& e == (SolveError::SearchExhausted { steps: (ceil_sqrt(n as int, 1) + 1) as u64 })
                &&& is_no_multiple_on_group(*q, *g, n, p)
                &&& forall|w: nat|
                    w <= ceil_sqrt(n as int, 1) ==> (#[trigger] standard_solution(
                        w,
                        *q,
                        *g,
                        n as int,
                        p as int,
                    )) is None
            },
        },
{
    let m = ceil_sqrt_ratio(n, 1);
    let table = baby_table(g, m, p, None);
    let factor = scalar_mul(m, g, p);
    let neg_factor = point_neg(&factor, p);
    let mut gamma = *q;
    let mut i: u64 = 0;
    while i <= m
        invariant
            i <= m + 1,
            m == ceil_sqrt(n as int, 1),
            m <= 0x1_0000_0000,
            2 * m <= usize::MAX,
            p % 2 == 1,
            n > 0,
            neg_factor == giant_stride(m as nat, *g, p as int),
            neg_factor.reduced(p as int),
            gamma.reduced(p as int),
            gamma == giant_point(i as nat, *q, neg_factor, p as int),
            is_baby_table(table@, m as nat, *g, p as int, None),
            forall|w: nat|
                w < i ==> (#[trigger] standard_solution(w, *q, *g, n as int, p as int)) is None,
        decreases m + 1 - i,
    {
        let key = point_key(&gamma);
        proof {
            let found = first_baby(key, m as nat, *g, p as int, None);
            assert(match found {
                Some(w) => table@.contains_key(key) && table@[key] == w,
                None => !table@.contains_key(key),
            });
        }
        match table.get(&key) {
            Some(j) => {
                let k = mod_add(mod_mul(i, m, n), *j, n);
                proof {
                    assert forall|b: u64|
                        is_prime(p as int) && p > 2 && is_member(*q, b, p) && is_member(*g, b, p)
                            && #[trigger] addition_is_associative(b, p) && scalar_multiple(
                            n as nat,
                            *g,
                            p as int,
                        ).infinity implies scalar_multiple(k as nat, *g, p as int) == *q by {
                        lemma_standard_solution_is_sound(i as nat, *q, *g, n, b, p);
                    }
                }
                return Ok((k, (m + i) as usize));
            },
            None => {},
        }
        gamma = point_add(&gamma, &neg_factor, p);
        i = i + 1;
    }
    proof {
        assert forall|b: u64, k: nat|
            is_prime(p as int) && p > 2 && is_member(*g, b, p) && #[trigger] addition_is_associative(
                b,
                p,
            ) && k < n implies *q != #[trigger] scalar_multiple(k, *g, p as int) by {
            if *q == scalar_multiple(k, *g, p as int) {
                lemma_standard_search_is_complete(k, *g, n, b, p);
            }
        }
    }
    Err(SolveError::SearchExhausted { steps: m + 1 })
}

/// Baby-step giant-step on the orbits of the points.
///
/// The table holds the least orbit members of the first `m` multiples of
/// `g`, with `m` the square root of `n / 6` rounded up. A giant step
/// `q - i * (m * g)` whose least orbit member is found in the table, at the
/// baby step `j`, lies in the orbit of `j * g`. With `s` the scalar of the
/// first automorphism that takes `j * g` to it, the logarithm is
/// `i * m + s * j` modulo `n`; the step is passed over if no automorphism
/// does. The count of group operations is `m + i`.
///
/// The result is a logarithm of `q` on a curve on which addition is
/// associative, if `beta` is a cube root of unity and the endomorphism acts
/// on the generator as the least root of `x^2 + x + 1` modulo `n`. The
/// search then fails only for a `q` that is no multiple of the generator by
/// a number below `n`.
pub fn bsgs_glv(q: &Point, g: &Point, n: u64, p: u64, beta: u64) -> (r: Result<
    (u64, usize),
    SolveError,
>)
    requires
        p % 2 == 1,
        n > 0,
        q.reduced(p as int),
        g.reduced(p as int),
        ceil_sqrt(n as int, 6) + glv_giant_steps(n as int) <= usize::MAX,
    ensures
        match r {
            Ok((k, ops)) => {
                let i = ops - ceil_sqrt(n as int, 6);
                &&& k < n
                &&& is_logarithm_over_orbits(k, *q, *g, n, p, beta)
                &&& least_lambda_from(2, n as int) < n
                &&& 0 <= i < glv_giant_steps(n as int)
                &&& glv_solution(i as nat, *q, *g, n as int, p as int, beta as int) == Some(
                    k as int,
                )
                &&& forall|w: nat|
                    w < i ==> (#[trigger] glv_solution(
                        w,
                        *q,
                        *g,
                        n as int,
                        p as int,
                        beta as int,
                    )) is None
            },
            Err(SolveError::Configuration(e)) => {
                &&& e == crate::error::ConfigurationError::NoLambda
                &&& least_lambda_from(2, n as int) >= n
            },
            Err(SolveError::SearchExhausted { steps }) => {
                &&& least_lambda_from(2, n as int) < n
                &&& steps == glv_giant_steps(n as int)
                &&& is_no_multiple_over_orbits(*q, *g, n, p, beta)
                &&& forall|w: nat|
                    w < steps ==> (#[trigger] glv_solution(
                        w,
                        *q,
                        *g,
                        n as int,
                        p as int,
                        beta as int,
                    )) is None
            },
        },
{
    let m = ceil_sqrt_ratio(n, 6);
    let table = baby_table(g, m, p, Some(beta));
    let factor = scalar_mul(m, g, p);
    let neg_factor = point_neg(&factor, p);
    let lambda = match find_lambda(n) {
        Ok(lambda) => lambda,
        Err(e) => {
            return Err(SolveError::Configuration(e));
        },
    };
    let lambda2 = mod_mul(lambda, lambda, n);
    let max_giant: u64 = (n - 1) / m + 3;
    let mut gamma = *q;
    let mut i: u64 = 0;
    while i < max_giant
        invariant
            i <= max_giant,
            m == ceil_sqrt(n as int, 6),
            m >= 1,
            max_giant == glv_giant_steps(n as int),
            m + max_giant <= usize::MAX,
            p % 2 == 1,
            n > 0,
            g.reduced(p as int),
            lambda == least_lambda_from(2, n as int),
            lambda < n,
            lambda2 == (lambda * lambda) % (n as int),
            neg_factor == giant_stride(m as nat, *g, p as int),
            neg_factor.reduced(p as int),
            gamma.reduced(p as int),
            gamma == giant_point(i as nat, *q, neg_factor, p as int),
            is_baby_table(table@, m as nat, *g, p as int, Some(beta as int)),
            forall|w: nat|
                w < i ==> (#[trigger] glv_solution(w, *q, *g, n as int, p as int, beta as int))
                    is None,
        decreases max_giant - i,
    {
        let key = point_key(&fold_point(&gamma, Some(beta), p));
        proof {
            let found = first_baby(key, m as nat, *g, p as int, Some(beta as int));
            assert(match found {
                Some(w) => table@.contains_key(key) && table@[key] == w,
                None => !table@.contains_key(key),
            });
        }
        match table.get(&key) {
            Some(j) => {
                if gamma.infinity {
                    let k = mod_add(mod_mul(i, m, n), *j, n);
                    proof {
                        assert forall|b: u64| #[trigger]
                            is_glv_setting(*g, n, b, p, beta, lambda) && is_member(
                                *q,
                                b,
                                p,
                            ) implies scalar_multiple(k as nat, *g, p as int) == *q by {
                            lemma_glv_solution_is_sound(i as nat, *q, *g, n, b, p, beta);
                        }
                    }
                    return Ok((k, (m + i) as usize));
                }
                let jg = scalar_mul(*j, g, p);
                match orbit_scalar(&gamma, &jg, beta, p, lambda, lambda2, n) {
                    Some(s) => {
                        let sj = mod_mul(s, *j, n);
                        let k = mod_add(mod_mul(i, m, n), sj, n);
                        proof {
                            assert forall|b: u64| #[trigger]
                                is_glv_setting(*g, n, b, p, beta, lambda) && is_member(
                                    *q,
                                    b,
                                    p,
                                ) implies scalar_multiple(k as nat, *g, p as int) == *q by {
                                lemma_glv_solution_is_sound(i as nat, *q, *g, n, b, p, beta);
                            }
                        }
                        return Ok((k, (m + i) as usize));
                    },
                    None => {},
                }
            },
            None => {},
        }
        gamma = point_add(&gamma, &neg_factor, p);
        i = i + 1;
    }
    proof {
        assert forall|b: u64, k: nat| #[trigger]
            is_glv_setting(*g, n, b, p, beta, lambda) && k < n implies *q
            != #[trigger] scalar_multiple(k, *g, p as int) by {
            if *q == scalar_multiple(k, *g, p as int) {
                lemma_glv_search_is_complete(k, *g, n, b, p, beta, lambda);
            }
        }
    }
    Err(SolveError::SearchExhausted { steps: max_giant })
}

} // verus!
