//! What the plain baby-step giant-step search finds, once the addition of
//! points is known to be associative: the logarithm, and always.

use vstd::prelude::*;
use vstd::arithmetic::div_mod::*;
use vstd::arithmetic::mul::*;
use crate::attacks::bsgs::{
    baby_key, baby_point, ceil_sqrt, first_baby, giant_point, giant_stride, is_ceil_sqrt, key_of,
    lemma_first_baby, lemma_key_tells_points_apart, meeting_log, same_point, standard_solution,
};
use crate::math::curve::{add_points, repeated_sum, scalar_multiple, Point};
use crate::math::curve_laws::{lemma_add_commutes, lemma_add_identity};
use crate::math::group::{
    addition_is_associative, is_member, lemma_add_then_take_away, lemma_inverse_is_member,
    lemma_repeated_sum_adds, lemma_repeated_sum_is_member, lemma_repeated_sum_is_periodic,
    lemma_scalar_multiple_is_repeated_sum, lemma_sum_is_member,
};
use crate::math::number_theory::is_prime;

verus! {

/// Some number is the square root of `n / d`, rounded up.
pub proof fn lemma_ceil_sqrt_exists(n: int, d: int)
    requires
        d >= 1,
    ensures
        is_ceil_sqrt(ceil_sqrt(n, d), n, d),
{
    assert(d * 0 * 0 == 0) by (nonlinear_arith);
    lemma_ceil_sqrt_from(0, n, d, if n > 0 {
        n as nat
    } else {
        0
    });
}

/// Some number from `m` on is the square root of `n / d`, rounded up, if no
/// number below `m` reaches `n`. The search for it takes at most `gap`
/// steps.
proof fn lemma_ceil_sqrt_from(m: int, n: int, d: int, gap: nat)
    requires
        d >= 1,
        m >= 0,
        m == 0 || d * (m - 1) * (m - 1) < n,
        gap >= n - d * m * m,
    ensures
        exists|r: int| is_ceil_sqrt(r, n, d),
    decreases gap,
{
    if d * m * m >= n {
        assert(is_ceil_sqrt(m, n, d));
    } else {
        let next = m + 1;
        assert(d * next * next > d * m * m && d * (next - 1) * (next - 1) == d * m * m)
            by (nonlinear_arith)
            requires
                d >= 1,
                m >= 0,
                next == m + 1,
        ;
        lemma_ceil_sqrt_from(next, n, d, (gap - 1) as nat);
    }
}

/// A giant step and the multiple of the generator that was taken away to
/// reach it add up to the point the search started from.
pub proof fn lemma_giant_point(i: nat, q: Point, g: Point, m: nat, b: u64, p: u64)
    requires
        is_prime(p as int),
        p > 2,
        is_member(q, b, p),
        is_member(g, b, p),
        addition_is_associative(b, p),
    ensures
        is_member(giant_point(i, q, giant_stride(m, g, p as int), p as int), b, p),
        add_points(
            giant_point(i, q, giant_stride(m, g, p as int), p as int),
            repeated_sum(i * m, g, p as int),
            p as int,
        ) == q,
    decreases i,
{
    let pi = p as int;
    let whole = repeated_sum(m, g, pi);
    let stride = giant_stride(m, g, pi);
    lemma_scalar_multiple_is_repeated_sum(m, g, b, p);
    lemma_repeated_sum_is_member(m, g, b, p);
    lemma_inverse_is_member(whole, b, p);
    if i == 0 {
        assert(0 * m == 0);
        lemma_add_identity(q, p);
    } else {
        let i1 = (i - 1) as nat;
        let before = giant_point(i1, q, stride, pi);
        let taken = repeated_sum(i1 * m, g, pi);
        lemma_giant_point(i1, q, g, m, b, p);
        lemma_repeated_sum_is_member(i1 * m, g, b, p);
        lemma_repeated_sum_adds(i1 * m, m, g, b, p);
        assert(i1 * m + m == i * m) by (nonlinear_arith)
            requires
                i1 == i - 1,
        ;
        lemma_sum_is_member(before, stride, b, p);
        lemma_sum_is_member(before, taken, b, p);
        let here = add_points(before, stride, pi);
        // (before + stride) + (taken + whole) == ((before + stride) + taken) + whole
        assert(add_points(add_points(here, taken, pi), whole, pi) == add_points(
            here,
            add_points(taken, whole, pi),
            pi,
        ));
        // (before + stride) + taken == before + (stride + taken) == before + (taken + stride)
        assert(add_points(add_points(before, stride, pi), taken, pi) == add_points(
            before,
            add_points(stride, taken, pi),
            pi,
        ));
        lemma_add_commutes(stride, taken, p);
        // before + (taken + stride) == (before + taken) + stride == q + stride
        assert(add_points(add_points(before, taken, pi), stride, pi) == add_points(
            before,
            add_points(taken, stride, pi),
            pi,
        ));
        // (q + stride) + whole == q
        lemma_add_then_take_away(q, whole, b, p);
    }
}

/// The logarithm that the plain search yields is one: the multiple of the
/// generator by it is the point the search started from.
///
/// This holds for a generator whose multiple by `n` is the point at
/// infinity, on a curve on which addition is associative.
pub proof fn lemma_standard_solution_is_sound(
    i: nat,
    q: Point,
    g: Point,
    n: u64,
    b: u64,
    p: u64,
)
    requires
        is_prime(p as int),
        p > 2,
        n > 0,
        is_member(q, b, p),
        is_member(g, b, p),
        addition_is_associative(b, p),
        scalar_multiple(n as nat, g, p as int).infinity,
        standard_solution(i, q, g, n as int, p as int) is Some,
    ensures
        0 <= standard_solution(i, q, g, n as int, p as int)->0 < n,
        scalar_multiple(
            standard_solution(i, q, g, n as int, p as int)->0 as nat,
            g,
            p as int,
        ) == q,
{
    let pi = p as int;
    let m = ceil_sqrt(n as int, 1) as nat;
    let gamma = giant_point(i, q, giant_stride(m, g, pi), pi);
    lemma_giant_point(i, q, g, m, b, p);
    lemma_first_baby(key_of(gamma), m, g, pi, None);
    let j = first_baby(key_of(gamma), m, g, pi, None)->0;
    // the giant step is the baby step j
    lemma_repeated_sum_is_member(j, g, b, p);
    lemma_key_tells_points_apart(gamma, baby_point(j, g, pi), p);
    assert(same_point(gamma, baby_point(j, g, pi)));
    assert(gamma == repeated_sum(j, g, pi));
    // q == j g + (i m) g == (j + i m) g
    lemma_repeated_sum_adds(j, i * m, g, b, p);
    let k = meeting_log(i as int, m as int, j as int, n as int);
    let im = (i * m) as int;
    let ji = j as int;
    let ni = n as int;
    lemma_mod_bound(im % ni + ji, ni);
    lemma_add_mod_noop(im, ji, ni);
    lemma_mod_bound(im, ni);
    lemma_mod_twice(im, ni);
    lemma_add_mod_noop(im % ni, ji, ni);
    lemma_mod_bound(ji, ni);
    assert(k == (ji + im) % ni);
    // the multiples of g depend on the factor modulo n only
    lemma_scalar_multiple_is_repeated_sum(n as nat, g, b, p);
    lemma_repeated_sum_is_member(n as nat, g, b, p);
    lemma_repeated_sum_is_periodic(j + i * m, n, g, b, p);
    lemma_scalar_multiple_is_repeated_sum(k as nat, g, b, p);
}

/// The plain search finds every point that is a multiple of the generator
/// by a number below `n`: some giant step up to the last one meets a baby
/// step. This holds on a curve on which addition is associative.
pub proof fn lemma_standard_search_is_complete(k: nat, g: Point, n: u64, b: u64, p: u64)
    requires
        is_prime(p as int),
        p > 2,
        k < n,
        is_member(g, b, p),
        addition_is_associative(b, p),
    ensures
        exists|i: nat|
            i <= ceil_sqrt(n as int, 1) && (#[trigger] standard_solution(
                i,
                scalar_multiple(k, g, p as int),
                g,
                n as int,
                p as int,
            )) is Some,
{
    let pi = p as int;
    let q = scalar_multiple(k, g, pi);
    lemma_ceil_sqrt_exists(n as int, 1);
    let m = ceil_sqrt(n as int, 1) as nat;
    assert(m >= 1) by {
        if m == 0 {
            assert(1 * 0 * 0 == 0) by (nonlinear_arith);
        }
    }
    let i = k / m;
    let j = k % m;
    lemma_fundamental_div_mod(k as int, m as int);
    lemma_mod_bound(k as int, m as int);
    assert(i <= m && i * m + j == k) by (nonlinear_arith)
        requires
            k == m * (k as int / m as int) + (k as int % m as int),
            i == k as int / m as int,
            j == k as int % m as int,
            0 <= j < m,
            k < n,
            1 * m * m >= n,
    ;
    lemma_scalar_multiple_is_repeated_sum(k, g, b, p);
    lemma_repeated_sum_is_member(k, g, b, p);
    let gamma = giant_point(i, q, giant_stride(m, g, pi), pi);
    let taken = repeated_sum(i * m, g, pi);
    let baby = repeated_sum(j, g, pi);
    lemma_giant_point(i, q, g, m, b, p);
    lemma_repeated_sum_is_member(i * m, g, b, p);
    lemma_repeated_sum_is_member(j, g, b, p);
    // gamma + taken == q == baby + taken, so gamma == baby
    lemma_repeated_sum_adds(j, i * m, g, b, p);
    lemma_add_then_take_away(gamma, taken, b, p);
    lemma_add_then_take_away(baby, taken, b, p);
    assert(gamma == baby);
    // so the baby step j has the key of the giant step i
    lemma_first_baby(key_of(gamma), m, g, pi, None);
    assert(baby_key(j, g, pi, None) == key_of(gamma));
    assert(standard_solution(i, q, g, n as int, pi) is Some);
}

/// The multiple of `g` by `k` is `q`, on every curve through both on which
/// addition is associative and the multiple of `g` by `n` is the point at
/// infinity.
pub open spec fn is_logarithm_on_group(k: u64, q: Point, g: Point, n: u64, p: u64) -> bool {
    forall|b: u64|
        is_prime(p as int) && p > 2 && is_member(q, b, p) && is_member(g, b, p)
            && #[trigger] addition_is_associative(b, p) && scalar_multiple(
            n as nat,
            g,
            p as int,
        ).infinity ==> scalar_multiple(k as nat, g, p as int) == q
}

/// The point `q` is no multiple of `g` by a number below `n`, on any curve
/// through both on which addition is associative.
pub open spec fn is_no_multiple_on_group(q: Point, g: Point, n: u64, p: u64) -> bool {
    forall|b: u64, k: nat|
        is_prime(p as int) && p > 2 && is_member(g, b, p) && #[trigger] addition_is_associative(
            b,
            p,
        ) && k < n ==> q != #[trigger] scalar_multiple(k, g, p as int)
}

} // verus!
