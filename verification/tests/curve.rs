use d3_symmetry::error::ConfigurationError;
use d3_symmetry::math::curve::{
    count_points, find_generator, is_generator, is_on_curve, point_add, point_double, point_neg,
    scalar_mul, Point,
};
use d3_symmetry::text::decimal_string;
use d3_symmetry::math::number_theory::is_prime_number;

const P: u64 = 10477;
const B: u64 = 7;
const N: u64 = 10639;

fn generator() -> Point {
    Point::new(3, 731)
}

#[test]
fn point_constructors() {
    assert_eq!(Point::infinity(), Point { x: 0, y: 0, infinity: true });
    assert_eq!(Point::new(3, 731), Point { x: 3, y: 731, infinity: false });
}

#[test]
fn points_in_words() {
    assert_eq!(Point::new(3, 731).to_string(), "(3, 731)");
    assert_eq!(Point::new(0, 10), Point { x: 0, y: 10, infinity: false });
    assert_eq!(Point::new(0, 10).to_string(), "(0, 10)");
    assert_eq!(Point::infinity().to_string(), "O (punto en el infinito)");
    assert_eq!(
        Point::new(u64::MAX, 1).to_string(),
        "(18446744073709551615, 1)"
    );
}

#[test]
fn numbers_in_decimal() {
    assert_eq!(decimal_string(0), "0");
    assert_eq!(decimal_string(9), "9");
    assert_eq!(decimal_string(10), "10");
    assert_eq!(decimal_string(10477), "10477");
    assert_eq!(decimal_string(1234567890), "1234567890");
    assert_eq!(decimal_string(u64::MAX), "18446744073709551615");
}

#[test]
fn primes_by_trial_division() {
    assert!(!is_prime_number(0));
    assert!(!is_prime_number(1));
    assert!(is_prime_number(2));
    assert!(is_prime_number(3));
    assert!(!is_prime_number(4));
    assert!(!is_prime_number(9));
    assert!(is_prime_number(10477));
    assert!(is_prime_number(10639));
    assert!(!is_prime_number(10477 * 3));
    assert!(is_prime_number(1000003));
    assert!(!is_prime_number(1000003 * 1000003));
    assert!(!is_prime_number(u64::MAX));
}

#[test]
fn count_is_the_number_of_solutions() {
    for (b, p) in [(1u64, 7u64), (3, 13), (7, 19), (3, 7), (2, 31)] {
        let mut solutions = 1;
        let mut x = 0;
        while x < p {
            let mut y = 0;
            while y < p {
                if is_on_curve(&Point::new(x, y), b, p) {
                    solutions += 1;
                }
                y += 1;
            }
            x += 1;
        }
        assert_eq!(count_points(b, p), solutions);
    }
}

#[test]
fn membership_of_the_curve() {
    assert!(is_on_curve(&Point::infinity(), B, P));
    assert!(is_on_curve(&generator(), B, P));
    assert!(is_on_curve(&Point::new(3, 9746), B, P));
    assert!(!is_on_curve(&Point::new(3, 732), B, P));
    assert!(!is_on_curve(&Point::new(4, 731), B, P));
}

#[test]
fn addition_with_infinity_is_identity() {
    let g = generator();
    assert_eq!(point_add(&g, &Point::infinity(), P), g);
    assert_eq!(point_add(&Point::infinity(), &g, P), g);
    assert_eq!(point_add(&Point::infinity(), &Point::infinity(), P), Point::infinity());
}

#[test]
fn infinity_is_the_identity_for_every_point_and_modulus() {
    for p in [2u64, 3, 4, 7, 10, 10477, u64::MAX] {
        for pt in [
            Point::infinity(),
            Point::new(0, 0),
            Point::new(1, 1),
            Point::new(3, 731),
            Point::new(u64::MAX, u64::MAX),
        ] {
            assert_eq!(point_add(&pt, &Point::infinity(), p), pt);
            assert_eq!(point_add(&Point::infinity(), &pt, p), pt);
        }
    }
}

#[test]
fn addition_of_the_negative_is_infinity() {
    let g = generator();
    let minus_g = point_neg(&g, P);
    assert_eq!(minus_g, Point::new(3, 9746));
    assert_eq!(point_add(&g, &minus_g, P), Point::infinity());
    assert_eq!(point_neg(&Point::infinity(), P), Point::infinity());
    let mut k = 1;
    while k < 50 {
        let pt = scalar_mul(k, &g, P);
        assert_eq!(point_add(&pt, &point_neg(&pt, P), P), Point::infinity());
        k += 1;
    }
}

#[test]
fn negation_of_a_point_with_ordinate_zero() {
    let pt = Point::new(5, 0);
    assert_eq!(point_neg(&pt, 7), pt);
    assert_eq!(point_add(&pt, &pt, 7), Point::infinity());
    assert_eq!(point_double(&pt, 7), Point::infinity());
}

#[test]
fn doubling_and_chord_formulas() {
    let g = generator();
    let two_g = point_double(&g, P);
    assert_eq!(two_g, Point::new(7626, 5198));
    assert_eq!(point_add(&g, &g, P), two_g);
    assert_eq!(point_add(&two_g, &g, P), Point::new(8679, 2856));
    assert_eq!(point_double(&Point::infinity(), P), Point::infinity());
}

#[test]
fn sums_stay_on_the_curve() {
    let g = generator();
    let mut acc = Point::infinity();
    let mut k = 0;
    while k < 200 {
        acc = point_add(&acc, &g, P);
        assert!(is_on_curve(&acc, B, P));
        assert!(is_on_curve(&point_double(&acc, P), B, P));
        assert_eq!(acc, scalar_mul(k + 1, &g, P));
        k += 1;
    }
}

#[test]
fn scalar_multiples() {
    let g = generator();
    assert_eq!(scalar_mul(0, &g, P), Point::infinity());
    assert_eq!(scalar_mul(1, &g, P), g);
    assert_eq!(scalar_mul(5, &g, P), Point::new(2823, 3402));
    assert_eq!(scalar_mul(7777, &g, P), Point::new(6142, 7632));
    assert_eq!(scalar_mul(N - 1, &g, P), Point::new(3, 9746));
    assert_eq!(scalar_mul(12, &Point::infinity(), P), Point::infinity());
}

#[test]
fn order_of_the_generator_is_exact() {
    let g = generator();
    assert_eq!(scalar_mul(N, &g, P), Point::infinity());
    let mut d = 1;
    while d < N {
        if N % d == 0 {
            assert!(!scalar_mul(d, &g, P).infinity);
        }
        d += 1;
    }
}

#[test]
fn counting_points() {
    assert_eq!(count_points(B, P), N);
    assert_eq!(count_points(1, 7), 12);
    assert_eq!(count_points(3, 13), 9);
    assert_eq!(count_points(7, 19), 12);
}

#[test]
fn generator_of_the_toy_curve() {
    let g = find_generator(B, P, N);
    assert_eq!(g, Ok(generator()));
    assert!(is_generator(&generator(), N, P));
}

#[test]
fn generator_test_rejects_wrong_orders() {
    let g = generator();
    assert!(!is_generator(&g, N - 1, P));
    assert!(!is_generator(&g, 2 * N, P));
    assert!(!is_generator(&Point::infinity(), N, P));
    assert!(is_generator(&Point::infinity(), 1, P));
}

#[test]
fn no_generator_for_an_order_that_does_not_fit() {
    assert_eq!(find_generator(B, P, 5), Err(ConfigurationError::NoGenerator));
    assert_eq!(find_generator(3, 13, 9), Err(ConfigurationError::NoGenerator));
}

fn points_of(b: u64, p: u64) -> Vec<Point> {
    let mut points = vec![Point::infinity()];
    let mut x = 0;
    while x < p {
        let mut y = 0;
        while y < p {
            if is_on_curve(&Point::new(x, y), b, p) {
                points.push(Point::new(x, y));
            }
            y += 1;
        }
        x += 1;
    }
    points
}

#[test]
fn addition_is_associative_and_commutative_on_small_curves() {
    for (b, p) in [(3u64, 7u64), (2, 19), (1, 7), (3, 13)] {
        let points = points_of(b, p);
        assert_eq!(points.len() as u64, count_points(b, p));
        for x in &points {
            for y in &points {
                let sum = point_add(x, y, p);
                assert!(is_on_curve(&sum, b, p));
                assert_eq!(sum, point_add(y, x, p));
                for z in &points {
                    assert_eq!(
                        point_add(&sum, z, p),
                        point_add(x, &point_add(y, z, p), p)
                    );
                }
            }
        }
    }
}

#[test]
fn double_and_add_agrees_with_repeated_addition() {
    for (b, p) in [(3u64, 7u64), (2, 19)] {
        for pt in points_of(b, p) {
            let mut sum = Point::infinity();
            let mut k = 0;
            while k < 40 {
                assert_eq!(scalar_mul(k, &pt, p), sum);
                sum = point_add(&sum, &pt, p);
                k += 1;
            }
        }
    }
}
