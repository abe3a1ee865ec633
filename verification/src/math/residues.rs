//! Squares modulo a prime: how many roots a polynomial can have, and from
//! that the whole of Euler's criterion.

use vstd::prelude::*;
use vstd::arithmetic::div_mod::*;
use vstd::arithmetic::mul::*;
use vstd::arithmetic::power::*;
use crate::math::fermat::{lemma_euler_of_square, lemma_euler_values};
use crate::math::field::{euler, least_non_residue_from, pow_mod};
use crate::math::number_theory::{is_prime, lemma_divisible_combination, lemma_prime_divides_product};

verus! {

/// The value at `x` of the polynomial with the coefficients `c`, highest
/// first, by Horner's rule.
pub open spec fn horner(c: Seq<int>, x: int) -> int
    decreases c.len(),
{
    if c.len() == 0 {
        0
    } else {
        horner(c.drop_last(), x) * x + c.last()
    }
}

/// The quotient of the polynomial `c` by `x - r`: its coefficients are the
/// values that Horner's rule passes through at `r`.
pub open spec fn quotient(c: Seq<int>, r: int) -> Seq<int> {
    Seq::new((c.len() - 1) as nat, |i: int| horner(c.take(i + 1), r))
}

/// The members of `roots` are roots of the polynomial `c` modulo `p`, lie
/// from 0 to `p - 1`, and no two of them are equal.
pub open spec fn are_distinct_roots(roots: Seq<int>, c: Seq<int>, p: int) -> bool {
    &&& forall|i: int| 0 <= i < roots.len() ==> 0 <= #[trigger] roots[i] < p
    &&& forall|i: int| 0 <= i < roots.len() ==> horner(c, #[trigger] roots[i]) % p == 0
    &&& forall|i: int, j: int| 0 <= i < j < roots.len() ==> roots[i] != roots[j]
}

/// The coefficients of `x^h - 1`.
pub open spec fn power_minus_one(h: nat) -> Seq<int> {
    Seq::new(
        h + 1,
        |i: int|
            if i == 0 {
                1int
            } else if i == h {
                -1int
            } else {
                0int
            },
    )
}

/// `a` is a square modulo `p`.
pub open spec fn is_square_mod(a: int, p: int) -> bool {
    exists|y: int| 0 <= y < p && #[trigger] ((y * y) % p) == a % p
}

/// Division with remainder by `x - r`.
pub proof fn lemma_quotient(c: Seq<int>, r: int, x: int)
    requires
        c.len() >= 1,
    ensures
        horner(c, x) == (x - r) * horner(quotient(c, r), x) + horner(c, r),
    decreases c.len(),
{
    let q = quotient(c, r);
    if c.len() == 1 {
        assert(q.len() == 0);
        assert(horner(q, x) == 0);
        assert(horner(c.drop_last(), x) == 0);
        assert(horner(c.drop_last(), r) == 0);
        assert((x - r) * 0 == 0);
        assert(0 * x == 0 && 0 * r == 0);
    } else {
        let c1 = c.drop_last();
        let q1 = quotient(c1, r);
        lemma_quotient(c1, r, x);
        assert(q.drop_last() =~= q1) by {
            assert forall|i: int| 0 <= i < q1.len() implies q.drop_last()[i] == q1[i] by {
                assert(c.take(i + 1) =~= c1.take(i + 1));
            }
        }
        assert(c.take(c.len() - 1) =~= c1);
        assert(q.last() == horner(c1, r));
        let hq1 = horner(q1, x);
        let hc1r = horner(c1, r);
        let a = c.last();
        assert(horner(q, x) == hq1 * x + hc1r);
        assert(horner(c, x) == horner(c1, x) * x + a);
        assert(horner(c, r) == hc1r * r + a);
        assert(((x - r) * hq1 + hc1r) * x + a == (x - r) * (hq1 * x + hc1r) + (hc1r * r + a))
            by (nonlinear_arith);
    }
}

/// A polynomial of degree `d` whose leading coefficient the prime `p` does
/// not divide has at most `d` roots modulo `p`.
pub proof fn lemma_root_bound(c: Seq<int>, roots: Seq<int>, p: int)
    requires
        is_prime(p),
        c.len() >= 1,
        c[0] % p != 0,
        are_distinct_roots(roots, c, p),
    ensures
        roots.len() <= c.len() - 1,
    decreases c.len(),
{
    if roots.len() > 0 {
        let r = roots.last();
        if c.len() == 1 {
            assert(horner(c.drop_last(), r) == 0);
            assert(0 * r == 0);
            assert(horner(c, r) == c[0]);
            assert(horner(c, roots[roots.len() - 1]) % p == 0);
        } else {
            let q = quotient(c, r);
            let rest = roots.drop_last();
            assert(q[0] == c[0]) by {
                assert(horner(c.take(1).drop_last(), r) == 0);
                assert(0 * r == 0);
                assert(c.take(1).last() == c[0]);
            }
            assert(horner(c, roots[roots.len() - 1]) % p == 0);
            assert forall|i: int| 0 <= i < rest.len() implies horner(q, #[trigger] rest[i]) % p
                == 0 by {
                let x = rest[i];
                assert(x == roots[i]);
                lemma_quotient(c, r, x);
                // p divides (x - r) * q(x), and not x - r
                lemma_divisible_combination(horner(c, x), horner(c, r), 1, p);
                assert(horner(c, x) - 1 * horner(c, r) == (x - r) * horner(q, x));
                lemma_prime_divides_product(x - r, horner(q, x), p);
                if (x - r) % p == 0 {
                    assert(roots[i] != roots[roots.len() - 1]);
                    if x > r {
                        lemma_small_mod((x - r) as nat, p as nat);
                    } else {
                        lemma_mod_add_multiples_vanish(x - r, p);
                        lemma_small_mod((x - r + p) as nat, p as nat);
                    }
                }
            }
            assert(are_distinct_roots(rest, q, p)) by {
                assert forall|i: int| 0 <= i < rest.len() implies 0 <= #[trigger] rest[i] < p by {
                    assert(rest[i] == roots[i]);
                }
                assert forall|i: int, j: int| 0 <= i < j < rest.len() implies rest[i]
                    != rest[j] by {
                    assert(roots[i] != roots[j]);
                }
            }
            lemma_root_bound(q, rest, p);
        }
    }
}

/// The polynomial with the coefficients `power_minus_one(h)` is `x^h - 1`.
proof fn lemma_power_minus_one(h: nat, x: int)
    requires
        h >= 1,
    ensures
        horner(power_minus_one(h), x) == pow(x, h) - 1,
{
    let c = power_minus_one(h);
    lemma_leading_one(c.drop_last(), x);
    lemma_pow_adds(x, (h - 1) as nat, 1);
    lemma_pow1(x);
}

/// The polynomial with the coefficients 1, 0, ..., 0 is a power of `x`.
proof fn lemma_leading_one(c: Seq<int>, x: int)
    requires
        c.len() >= 1,
        c[0] == 1,
        forall|i: int| 1 <= i < c.len() ==> c[i] == 0,
    ensures
        horner(c, x) == pow(x, (c.len() - 1) as nat),
    decreases c.len(),
{
    if c.len() == 1 {
        assert(horner(c.drop_last(), x) == 0);
        assert(0 * x == 0);
        lemma_pow0(x);
    } else {
        lemma_leading_one(c.drop_last(), x);
        lemma_pow_adds(x, (c.len() - 2) as nat, 1);
        lemma_pow1(x);
    }
}

/// At most `h` numbers from 0 to `p - 1` have the `h`-th power 1 modulo the
/// prime `p`.
pub proof fn lemma_unit_power_bound(h: nat, roots: Seq<int>, p: int)
    requires
        is_prime(p),
        h >= 1,
        forall|i: int| 0 <= i < roots.len() ==> 0 <= #[trigger] roots[i] < p,
        forall|i: int| 0 <= i < roots.len() ==> pow_mod(#[trigger] roots[i], h, p) == 1,
        forall|i: int, j: int| 0 <= i < j < roots.len() ==> roots[i] != roots[j],
    ensures
        roots.len() <= h,
{
    let c = power_minus_one(h);
    lemma_small_mod(1, p as nat);
    assert forall|i: int| 0 <= i < roots.len() implies horner(c, #[trigger] roots[i]) % p == 0 by {
        let x = roots[i];
        lemma_power_minus_one(h, x);
        assert(pow_mod(x, h, p) == 1);
        lemma_mod_equivalence(pow(x, h), 1, p);
    }
    lemma_root_bound(c, roots, p);
}

/// At most `(p - 1) / 2` numbers from 0 to `p - 1` have the criterion 1.
proof fn lemma_criterion_one_bound(roots: Seq<int>, p: int)
    requires
        is_prime(p),
        p > 2,
        forall|i: int| 0 <= i < roots.len() ==> 0 <= #[trigger] roots[i] < p,
        forall|i: int| 0 <= i < roots.len() ==> euler(#[trigger] roots[i], p) == 1,
        forall|i: int, j: int| 0 <= i < j < roots.len() ==> roots[i] != roots[j],
    ensures
        roots.len() <= (p - 1) / 2,
{
    lemma_unit_power_bound(((p - 1) / 2) as nat, roots, p);
}

/// Below a prime `p` above 3, some number from 2 up has an `h`-th power
/// other than 1, if `h` is less than `p - 1`.
pub proof fn lemma_power_not_one_exists(h: nat, p: int)
    requires
        is_prime(p),
        1 <= h < p - 1,
    ensures
        exists|g: int| 2 <= g < p && #[trigger] pow_mod(g, h, p) != 1,
{
    if forall|g: int| 2 <= g < p ==> #[trigger] pow_mod(g, h, p) == 1 {
        let roots = Seq::new((p - 1) as nat, |i: int| i + 1);
        assert forall|i: int| 0 <= i < roots.len() implies pow_mod(#[trigger] roots[i], h, p)
            == 1 by {
            if roots[i] == 1 {
                lemma1_pow(h);
                lemma_small_mod(1, p as nat);
            }
        }
        lemma_unit_power_bound(h, roots, p);
        assert(false);
    }
}

/// Modulo an odd prime, some number from 2 to `p - 1` has the criterion
/// `p - 1`.
pub proof fn lemma_non_residue_exists(p: int)
    requires
        is_prime(p),
        p > 2,
    ensures
        exists|z: int| 2 <= z < p && #[trigger] euler(z, p) == p - 1,
{
    if forall|z: int| 2 <= z < p ==> #[trigger] euler(z, p) != p - 1 {
        let roots = Seq::new((p - 1) as nat, |i: int| i + 1);
        assert forall|i: int| 0 <= i < roots.len() implies euler(#[trigger] roots[i], p) == 1 by {
            let z = roots[i];
            lemma_small_mod(z as nat, p as nat);
            lemma_euler_values(z, p);
            if z == 1 {
                lemma1_pow(((p - 1) / 2) as nat);
                lemma_small_mod(1, p as nat);
            } else {
                assert(euler(z, p) != p - 1);
            }
        }
        lemma_criterion_one_bound(roots, p);
        assert(false);
    }
}

/// The search for a number with the criterion `p - 1` finds one below an odd
/// prime `p`.
pub proof fn lemma_least_non_residue(z: int, p: int)
    requires
        is_prime(p),
        p > 2,
        2 <= z <= p,
        exists|w: int| z <= w < p && #[trigger] euler(w, p) == p - 1,
    ensures
        z <= least_non_residue_from(z, p) < p,
        euler(least_non_residue_from(z, p), p) == p - 1,
    decreases p - z,
{
    if euler(z, p) != p - 1 {
        let w = choose|w: int| z <= w < p && #[trigger] euler(w, p) == p - 1;
        assert(z + 1 <= w);
        lemma_least_non_residue(z + 1, p);
    }
}

/// The other half of Euler's criterion: a number with the criterion 1 is a
/// square modulo the odd prime `p`.
pub proof fn lemma_criterion_one_is_square(a: int, p: int)
    requires
        is_prime(p),
        p > 2,
        euler(a, p) == 1,
    ensures
        is_square_mod(a, p),
{
    let h = (p - 1) / 2;
    let ar = a % p;
    lemma_mod_bound(a, p);
    assert(euler(ar, p) == 1) by {
        lemma_pow_mod_noop(a, h as nat, p);
    }
    if !is_square_mod(a, p) {
        // the squares of 1, ..., h and a itself: h + 1 numbers with the criterion 1
        let squares = Seq::new(h as nat, |i: int| ((i + 1) * (i + 1)) % p);
        let roots = squares.push(ar);
        assert forall|i: int| 0 <= i < roots.len() implies 0 <= #[trigger] roots[i] < p by {
            if i < h {
                lemma_mod_bound((i + 1) * (i + 1), p);
            }
        }
        assert forall|i: int| 0 <= i < roots.len() implies euler(#[trigger] roots[i], p) == 1 by {
            if i < h {
                let y = i + 1;
                lemma_small_mod(y as nat, p as nat);
                lemma_euler_of_square(y, p);
                lemma_pow_mod_noop(y * y, h as nat, p);
            }
        }
        assert forall|i: int, j: int| 0 <= i < j < roots.len() implies roots[i] != roots[j] by {
            let y = i + 1;
            if j < h {
                let z = j + 1;
                if roots[i] == roots[j] {
                    // p divides z^2 - y^2 == (z - y) * (z + y), both above 0 and below p
                    lemma_mod_equivalence(z * z, y * y, p);
                    assert(z * z - y * y == (z - y) * (z + y)) by (nonlinear_arith);
                    lemma_prime_divides_product(z - y, z + y, p);
                    lemma_small_mod((z - y) as nat, p as nat);
                    lemma_small_mod((z + y) as nat, p as nat);
                }
            } else {
                if roots[i] == roots[j] {
                    assert((y * y) % p == a % p);
                    assert(is_square_mod(a, p));
                }
            }
        }
        lemma_criterion_one_bound(roots, p);
        assert(false);
    }
}

/// Euler's criterion: modulo an odd prime `p`, a number that `p` does not
/// divide is a square exactly if its criterion is 1, and no square exactly
/// if its criterion is `p - 1`.
pub proof fn lemma_euler_criterion(a: int, p: int)
    requires
        is_prime(p),
        p > 2,
        a % p != 0,
    ensures
        euler(a, p) == 1 <==> is_square_mod(a, p),
        euler(a, p) == p - 1 <==> !is_square_mod(a, p),
{
    lemma_euler_values(a, p);
    if euler(a, p) == 1 {
        lemma_criterion_one_is_square(a, p);
    }
    if is_square_mod(a, p) {
        let y = choose|y: int| 0 <= y < p && #[trigger] ((y * y) % p) == a % p;
        if y % p == 0 {
            lemma_small_mod(y as nat, p as nat);
            assert(y == 0);
            assert(0int * 0int == 0);
            lemma_small_mod(0, p as nat);
        }
        lemma_euler_of_square(y, p);
        let h = ((p - 1) / 2) as nat;
        lemma_pow_mod_noop(y * y, h, p);
        lemma_pow_mod_noop(a, h, p);
    }
}

/// How many numbers from 0 to `bound - 1` have a square congruent to `v`
/// modulo `p`.
pub open spec fn square_roots_below(v: int, p: int, bound: int) -> int
    decreases bound,
{
    if bound <= 0 {
        0
    } else {
        square_roots_below(v, p, bound - 1) + if ((bound - 1) * (bound - 1)) % p == v % p {
            1int
        } else {
            0int
        }
    }
}

/// The count of the square roots below `bound`, when the square roots are
/// known to be `r1` and `r2`.
proof fn lemma_count_two_roots(v: int, p: int, r1: int, r2: int, bound: int)
    requires
        0 <= bound <= p,
        forall|y: int| 0 <= y < p ==> (#[trigger] ((y * y) % p) == v % p <==> y == r1 || y == r2),
    ensures
        square_roots_below(v, p, bound) == (if 0 <= r1 < bound {
            1int
        } else {
            0int
        }) + (if 0 <= r2 < bound && r2 != r1 {
            1int
        } else {
            0int
        }),
    decreases bound,
{
    if bound > 0 {
        lemma_count_two_roots(v, p, r1, r2, bound - 1);
        let y = bound - 1;
        assert(((y * y) % p == v % p) <==> (y == r1 || y == r2));
    }
}

/// No number has a square congruent to `v`: the count is zero.
proof fn lemma_count_no_roots(v: int, p: int, bound: int)
    requires
        0 <= bound <= p,
        forall|y: int| 0 <= y < p ==> #[trigger] ((y * y) % p) != v % p,
    ensures
        square_roots_below(v, p, bound) == 0,
    decreases bound,
{
    if bound > 0 {
        lemma_count_no_roots(v, p, bound - 1);
        let y = bound - 1;
        assert(((y * y) % p) != v % p);
    }
}

/// Modulo an odd prime, zero has one square root, a number with the
/// criterion 1 has two, and any other number has none.
pub proof fn lemma_square_root_count(v: int, p: int)
    requires
        is_prime(p),
        p > 2,
        0 <= v < p,
    ensures
        square_roots_below(v, p, p) == if v == 0 {
            1int
        } else if euler(v, p) == 1 {
            2int
        } else {
            0int
        },
{
    lemma_small_mod(v as nat, p as nat);
    if v == 0 {
        assert forall|y: int| 0 <= y < p implies (#[trigger] ((y * y) % p) == v % p <==> y == 0
            || y == 0) by {
            lemma_small_mod(y as nat, p as nat);
            if (y * y) % p == 0 {
                lemma_prime_divides_product(y, y, p);
            }
            if y == 0 {
                assert(0int * 0int == 0);
            }
        }
        lemma_count_two_roots(v, p, 0, 0, p);
    } else {
        lemma_euler_criterion(v, p);
        if euler(v, p) == 1 {
            let r = choose|r: int| 0 <= r < p && #[trigger] ((r * r) % p) == v % p;
            if r == 0 {
                assert(0int * 0int == 0);
                lemma_small_mod(0, p as nat);
            }
            assert(0 < r < p);
            assert forall|y: int| 0 <= y < p implies (#[trigger] ((y * y) % p) == v % p <==> y
                == r || y == p - r) by {
                if (y * y) % p == v % p {
                    // p divides y^2 - r^2 == (y - r) * (y + r)
                    lemma_mod_equivalence(y * y, r * r, p);
                    assert(y * y - r * r == (y - r) * (y + r)) by (nonlinear_arith);
                    lemma_prime_divides_product(y - r, y + r, p);
                    if (y - r) % p == 0 {
                        if y > r {
                            lemma_small_mod((y - r) as nat, p as nat);
                        } else if y < r {
                            lemma_mod_add_multiples_vanish(y - r, p);
                            lemma_small_mod((y - r + p) as nat, p as nat);
                        }
                    } else {
                        if y + r < p {
                            lemma_small_mod((y + r) as nat, p as nat);
                        } else if y + r > p {
                            lemma_mod_sub_multiples_vanish(y + r, p);
                            lemma_small_mod((y + r - p) as nat, p as nat);
                        }
                    }
                }
                if y == p - r {
                    // (p - r)^2 == r^2 + p * (p - 2 * r)
                    assert((p - r) * (p - r) == p * (p - 2 * r) + r * r) by (nonlinear_arith);
                    lemma_mod_multiples_vanish(p - 2 * r, r * r, p);
                }
            }
            assert(p - r != r) by {
                assert(p % 2 != 0);
            }
            lemma_count_two_roots(v, p, r, p - r, p);
        } else {
            assert forall|y: int| 0 <= y < p implies #[trigger] ((y * y) % p) != v % p by {
                if (y * y) % p == v % p {
                    assert(is_square_mod(v, p));
                }
            }
            lemma_count_no_roots(v, p, p);
        }
    }
}

} // verus!
