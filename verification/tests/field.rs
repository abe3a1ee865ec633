use d3_symmetry::math::field::{legendre, mod_add, mod_inv, mod_mul, mod_pow, mod_sqrt, mod_sub};

#[test]
fn mod_add_reduces_the_sum() {
    assert_eq!(mod_add(5, 9, 7), 0);
    assert_eq!(mod_add(3, 3, 7), 6);
    assert_eq!(mod_add(u64::MAX, u64::MAX, u64::MAX), 0);
    assert_eq!(mod_add(u64::MAX, 1, 10), 6);
}

#[test]
fn mod_sub_borrows_the_modulus() {
    assert_eq!(mod_sub(3, 5, 7), 5);
    assert_eq!(mod_sub(5, 3, 7), 2);
    assert_eq!(mod_sub(0, 731, 10477), 9746);
    assert_eq!(mod_sub(0, 0, 10477), 0);
    assert_eq!(mod_sub(4, 4, 5), 0);
}

#[test]
fn mod_mul_uses_wide_products() {
    assert_eq!(mod_mul(3, 4, 5), 2);
    assert_eq!(mod_mul(u64::MAX, u64::MAX, u64::MAX - 1), 1);
    assert_eq!(mod_mul(1 << 63, 4, 10477), ((1u128 << 65) % 10477) as u64);
    assert_eq!(mod_mul(0, 12345, 7), 0);
}

#[test]
fn mod_pow_known_values() {
    assert_eq!(mod_pow(2, 10, 1000), 24);
    assert_eq!(mod_pow(7, 0, 13), 1);
    assert_eq!(mod_pow(0, 0, 13), 1);
    assert_eq!(mod_pow(0, 5, 13), 0);
    assert_eq!(mod_pow(3, 5238, 10477), 1);
    assert_eq!(mod_pow(5, 5238, 10477), 10476);
    assert_eq!(mod_pow(716, 3, 10477), 1);
}

#[test]
fn mod_pow_modulus_one_is_zero() {
    assert_eq!(mod_pow(5, 3, 1), 0);
    assert_eq!(mod_pow(5, 0, 1), 0);
}

#[test]
fn mod_inv_inverts_modulo_a_prime() {
    assert_eq!(mod_inv(3, 7), 5);
    assert_eq!(mod_inv(10, 10477), 7334);
    assert_eq!(mod_mul(10, mod_inv(10, 10477), 10477), 1);
    let mut a = 1;
    while a < 101 {
        assert_eq!(mod_mul(a, mod_inv(a, 101), 101), 1);
        a += 1;
    }
}

#[test]
fn mod_inv_with_a_common_factor_gives_the_gcd() {
    assert_eq!(mod_inv(6, 9), 8);
    assert_eq!(mod_mul(6, mod_inv(6, 9), 9), 3);
    assert_eq!(mod_inv(4, 6), 5);
    assert_eq!(mod_mul(4, mod_inv(4, 6), 6), 2);
}

#[test]
fn mod_sqrt_of_zero_is_zero() {
    assert_eq!(mod_sqrt(0, 7), Some(0));
    assert_eq!(mod_sqrt(0, 13), Some(0));
}

#[test]
fn mod_sqrt_shortcut_for_three_mod_four() {
    assert_eq!(mod_sqrt(2, 7), Some(4));
    assert_eq!(mod_sqrt(3, 7), None);
    assert_eq!(mod_sqrt(1, 7), Some(1));
}

#[test]
fn mod_sqrt_tonelli_shanks() {
    assert_eq!(mod_sqrt(10, 13), Some(7));
    assert_eq!(mod_sqrt(2, 13), None);
    assert_eq!(mod_sqrt(2, 17), Some(6));
    assert_eq!(mod_sqrt(8, 17), Some(12));
    assert_eq!(mod_sqrt(13, 17), Some(8));
    assert_eq!(mod_sqrt(2, 41), Some(17));
    assert_eq!(mod_sqrt(5, 41), Some(28));
    assert_eq!(mod_sqrt(3, 41), None);
    assert_eq!(mod_sqrt(2, 97), Some(83));
    assert_eq!(mod_sqrt(6, 97), Some(54));
    assert_eq!(mod_sqrt(5, 97), None);
    assert_eq!(mod_sqrt(34, 10477), Some(731));
    assert_eq!(mod_sqrt(5, 10477), None);
}

#[test]
fn mod_sqrt_modulo_two() {
    assert_eq!(mod_sqrt(1, 2), Some(1));
    assert_eq!(mod_sqrt(0, 2), Some(0));
}

#[test]
fn mod_sqrt_squares_back() {
    let p = 10477;
    let mut a = 1;
    while a < 300 {
        match mod_sqrt(a, p) {
            Some(r) => {
                assert!(r < p);
                assert_eq!(mod_mul(r, r, p), a);
                assert_eq!(legendre(a, p), 1);
            }
            None => assert_eq!(legendre(a, p), p - 1),
        }
        a += 1;
    }
}

#[test]
fn legendre_symbol_values() {
    assert_eq!(legendre(0, 7), 0);
    assert_eq!(legendre(7, 7), 0);
    assert_eq!(legendre(2, 7), 1);
    assert_eq!(legendre(3, 7), 6);
    assert_eq!(legendre(9, 7), 1);
    assert_eq!(legendre(34, 10477), 1);
    assert_eq!(legendre(5, 10477), 10476);
}
