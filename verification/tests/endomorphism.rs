use d3_symmetry::endomorphism::{
    apply_endo, automorphism_orbit, canonical_rep, find_beta, find_lambda, orbit_scalar,
};
use d3_symmetry::error::ConfigurationError;
use d3_symmetry::math::curve::{is_on_curve, scalar_mul, Point};
use d3_symmetry::math::field::{mod_add, mod_mul, mod_pow};

const P: u64 = 10477;
const B: u64 = 7;
const N: u64 = 10639;
const BETA: u64 = 716;
const LAMBDA: u64 = 1893;

fn generator() -> Point {
    Point::new(3, 731)
}

#[test]
fn cube_root_of_unity() {
    assert_eq!(find_beta(P), Ok(BETA));
    assert_eq!(mod_pow(BETA, 3, P), 1);
    assert_eq!(find_beta(7), Ok(4));
    assert_eq!(find_beta(13), Ok(3));
}

#[test]
fn no_cube_root_unless_modulus_is_one_mod_three() {
    assert_eq!(find_beta(11), Err(ConfigurationError::NoCubeRoot));
    assert_eq!(find_beta(5), Err(ConfigurationError::NoCubeRoot));
    assert_eq!(find_beta(1), Err(ConfigurationError::NoCubeRoot));
}

#[test]
fn lambda_is_a_root_of_the_polynomial() {
    assert_eq!(find_lambda(N), Ok(LAMBDA));
    let square = mod_mul(LAMBDA, LAMBDA, N);
    assert_eq!(mod_add(mod_add(square, LAMBDA, N), 1, N), 0);
    assert_eq!(find_lambda(7), Ok(2));
    assert_eq!(find_lambda(13), Ok(3));
}

#[test]
fn no_lambda_for_an_order_that_does_not_fit() {
    assert_eq!(find_lambda(5), Err(ConfigurationError::NoLambda));
    assert_eq!(find_lambda(3), Err(ConfigurationError::NoLambda));
    assert_eq!(find_lambda(0), Err(ConfigurationError::NoLambda));
}

#[test]
fn endomorphism_acts_as_lambda() {
    let g = generator();
    let image = apply_endo(&g, BETA, P);
    assert_eq!(image, Point::new(2148, 731));
    assert_eq!(image, scalar_mul(LAMBDA, &g, P));
    assert!(is_on_curve(&image, B, P));
    assert_eq!(apply_endo(&Point::infinity(), BETA, P), Point::infinity());
}

#[test]
fn endomorphism_may_act_as_the_square_of_lambda() {
    // y^2 = x^3 + 3 modulo 7: 13 points, generator (1, 2), beta = 4, lambda = 3
    let g = Point::new(1, 2);
    assert_eq!(find_beta(7), Ok(4));
    assert_eq!(find_lambda(13), Ok(3));
    let image = apply_endo(&g, 4, 7);
    assert_eq!(image, Point::new(4, 2));
    assert_eq!(scalar_mul(3, &g, 7), Point::new(2, 2));
    assert_eq!(scalar_mul(9, &g, 7), image);
}

#[test]
fn orbit_of_the_generator() {
    let g = generator();
    let orbit = automorphism_orbit(&g, BETA, P);
    assert_eq!(
        orbit,
        vec![
            Point::new(3, 731),
            Point::new(2148, 731),
            Point::new(8326, 731),
            Point::new(3, 9746),
            Point::new(2148, 9746),
            Point::new(8326, 9746),
        ]
    );
    let scalars = [1, LAMBDA, 8745, N - 1, N - LAMBDA, N - 8745];
    let mut i = 0;
    while i < 6 {
        assert!(is_on_curve(&orbit[i], B, P));
        assert_eq!(orbit[i], scalar_mul(scalars[i], &g, P));
        i += 1;
    }
    assert_eq!(automorphism_orbit(&Point::infinity(), BETA, P), vec![Point::infinity()]);
}

#[test]
fn canonical_representative_is_the_least_member() {
    let g = generator();
    assert_eq!(canonical_rep(&g, BETA, P), Point::new(3, 731));
    let q = Point::new(6142, 7632);
    assert_eq!(canonical_rep(&q, BETA, P), Point::new(6142, 2845));
    assert_eq!(canonical_rep(&Point::infinity(), BETA, P), Point::infinity());
}

#[test]
fn canonical_representative_is_idempotent_and_shared_by_the_orbit() {
    let g = generator();
    let mut k = 0;
    while k < 120 {
        let pt = scalar_mul(k, &g, P);
        let canon = canonical_rep(&pt, BETA, P);
        assert_eq!(canonical_rep(&canon, BETA, P), canon);
        for member in automorphism_orbit(&pt, BETA, P) {
            assert_eq!(canonical_rep(&member, BETA, P), canon);
        }
        k += 1;
    }
}

#[test]
fn orbit_with_a_fixed_abscissa_does_not_break() {
    // x = 0 is fixed by the endomorphism: the orbit has two distinct members
    let pt = Point::new(0, 5);
    let orbit = automorphism_orbit(&pt, BETA, P);
    assert_eq!(orbit.len(), 6);
    assert_eq!(orbit[0], orbit[1]);
    assert_eq!(orbit[0], orbit[2]);
    assert_eq!(canonical_rep(&pt, BETA, P), Point::new(0, 5));
    assert_eq!(canonical_rep(&Point::new(0, P - 5), BETA, P), Point::new(0, 5));
}

#[test]
fn scalar_of_the_automorphism_that_leads_to_a_member() {
    let g = generator();
    let lambda2 = mod_mul(LAMBDA, LAMBDA, N);
    let expected = [1, 1893, 8745, 10638, 8746, 1894];
    let orbit = automorphism_orbit(&g, BETA, P);
    let mut i = 0;
    while i < 6 {
        assert_eq!(orbit_scalar(&orbit[i], &g, BETA, P, LAMBDA, lambda2, N), Some(expected[i]));
        i += 1;
    }
    assert_eq!(orbit_scalar(&Point::new(1, 1), &g, BETA, P, LAMBDA, lambda2, N), None);
}
