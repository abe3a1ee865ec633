use d3_symmetry::attacks::bsgs::{
    baby_table, bsgs_glv, bsgs_standard, ceil_sqrt_ratio, fold_point, point_key,
};
use d3_symmetry::attacks::pollard_rho::{
    pollard_rho_glv, pollard_rho_standard, resolve_collision, rho_round, rho_walk, walk_step,
    walk_step_canonical, Walk,
};
use d3_symmetry::endomorphism::{find_beta, find_lambda};
use d3_symmetry::error::{ConfigurationError, SolveError};
use d3_symmetry::math::curve::{count_points, find_generator, scalar_mul, Point};
use d3_symmetry::math::field::mod_mul;

const P: u64 = 10477;
const B: u64 = 7;
const N: u64 = 10639;
const BETA: u64 = 716;
const LAMBDA: u64 = 1893;

fn generator() -> Point {
    Point::new(3, 731)
}

fn public_point() -> Point {
    scalar_mul(7777 % N, &generator(), P)
}

#[test]
fn toy_curve_parameters() {
    let n = count_points(B, P);
    assert_eq!(n, N);
    assert_eq!(find_generator(B, P, n), Ok(generator()));
    assert_eq!(find_beta(P), Ok(BETA));
    assert_eq!(find_lambda(n), Ok(LAMBDA));
    assert_eq!(public_point(), Point::new(6142, 7632));
}

#[test]
fn bsgs_standard_recovers_the_secret() {
    let found = bsgs_standard(&public_point(), &generator(), N, P);
    assert_eq!(found, Ok((7777, 178)));
}

#[test]
fn bsgs_glv_recovers_the_secret() {
    let found = bsgs_glv(&public_point(), &generator(), N, P, BETA);
    assert_eq!(found, Ok((7777, 58)));
}

#[test]
fn pollard_rho_standard_recovers_the_secret() {
    let g = generator();
    let q = public_point();
    let found = pollard_rho_standard(&q, &g, N, P).ok().unwrap();
    assert_eq!(scalar_mul(found.k, &g, P), q);
    assert_eq!(found.k, 7777);
    assert_eq!(found.iterations, 184);
}

#[test]
fn pollard_rho_glv_recovers_the_secret() {
    let g = generator();
    let q = public_point();
    let found = pollard_rho_glv(&q, &g, N, P, BETA).ok().unwrap();
    assert_eq!(scalar_mul(found.k, &g, P), q);
    assert_eq!(found.k, 7777);
    assert_eq!(found.iterations, 18);
}

#[test]
fn observed_speedup_lies_around_the_square_root_of_six() {
    let g = generator();
    let q = public_point();
    let (_, ops_std) = bsgs_standard(&q, &g, N, P).ok().unwrap();
    let (_, ops_glv) = bsgs_glv(&q, &g, N, P, BETA).ok().unwrap();
    let speedup = ops_std as f64 / ops_glv as f64;
    assert!(speedup > 1.5);
    assert!(speedup < 3.5);
}

#[test]
fn bsgs_on_the_edges_of_the_range() {
    let g = generator();
    let cases: [(u64, usize, usize); 6] = [
        (0, 104, 43),
        (1, 104, 43),
        (2, 104, 43),
        (10638, 206, 43),
        (5000, 152, 44),
        (1893, 122, 43),
    ];
    for (k, ops_std, ops_glv) in cases {
        let q = scalar_mul(k, &g, P);
        assert_eq!(bsgs_standard(&q, &g, N, P), Ok((k, ops_std)));
        assert_eq!(bsgs_glv(&q, &g, N, P, BETA), Ok((k, ops_glv)));
    }
}

#[test]
fn bsgs_finds_every_small_logarithm() {
    let g = generator();
    let mut k = 0;
    while k < 150 {
        let q = scalar_mul(k, &g, P);
        assert_eq!(bsgs_standard(&q, &g, N, P).ok().unwrap().0, k);
        assert_eq!(bsgs_glv(&q, &g, N, P, BETA).ok().unwrap().0, k);
        k += 1;
    }
}

#[test]
fn bsgs_standard_exhausts_its_steps_on_a_wrong_order() {
    let found = bsgs_standard(&public_point(), &generator(), 4, P);
    assert_eq!(found, Err(SolveError::SearchExhausted { steps: 3 }));
}

#[test]
fn bsgs_glv_exhausts_its_steps_on_a_wrong_order() {
    let found = bsgs_glv(&public_point(), &generator(), 7, P, BETA);
    assert_eq!(found, Err(SolveError::SearchExhausted { steps: 6 }));
}

#[test]
fn solvers_over_orbits_need_a_lambda() {
    let g = generator();
    let q = public_point();
    let expected = SolveError::Configuration(ConfigurationError::NoLambda);
    assert_eq!(bsgs_glv(&q, &g, 5, P, BETA), Err(expected));
    assert_eq!(pollard_rho_glv(&q, &g, 5, P, BETA).err(), Some(expected));
}

#[test]
fn rounded_up_square_roots() {
    assert_eq!(ceil_sqrt_ratio(10639, 1), 104);
    assert_eq!(ceil_sqrt_ratio(10639, 6), 43);
    assert_eq!(ceil_sqrt_ratio(0, 1), 0);
    assert_eq!(ceil_sqrt_ratio(1, 1), 1);
    assert_eq!(ceil_sqrt_ratio(16, 1), 4);
    assert_eq!(ceil_sqrt_ratio(17, 1), 5);
    assert_eq!(ceil_sqrt_ratio(6, 6), 1);
    assert_eq!(ceil_sqrt_ratio(7, 6), 2);
    assert_eq!(ceil_sqrt_ratio(u64::MAX, 1), 1 << 32);
    assert_eq!(ceil_sqrt_ratio(u64::MAX, u64::MAX), 1);
}

#[test]
fn keys_tell_points_apart() {
    assert_eq!(point_key(&Point::infinity()), u128::MAX);
    assert_eq!(point_key(&Point::new(0, 0)), 0);
    assert_eq!(point_key(&Point::new(1, 2)), (1u128 << 64) + 2);
    assert_eq!(point_key(&Point::new(2, 1)), (2u128 << 64) + 1);
}

#[test]
fn folding_a_point() {
    let q = public_point();
    assert_eq!(fold_point(&q, None, P), q);
    assert_eq!(fold_point(&q, Some(BETA), P), Point::new(6142, 2845));
}

#[test]
fn baby_table_keeps_the_first_index_of_a_class() {
    let g = generator();
    let plain = baby_table(&g, 104, P, None);
    assert_eq!(plain.len(), 104);
    assert_eq!(plain.get(&u128::MAX), Some(&0));
    assert_eq!(plain.get(&point_key(&g)), Some(&1));
    assert_eq!(plain.get(&point_key(&scalar_mul(103, &g, P))), Some(&103));
    assert_eq!(plain.get(&point_key(&scalar_mul(104, &g, P))), None);
    // over orbits, the whole group of order n falls into the classes of few steps
    let folded = baby_table(&g, 2000, P, Some(BETA));
    assert_eq!(folded.get(&point_key(&g)), Some(&1));
    let lambda_g = fold_point(&scalar_mul(LAMBDA, &g, P), Some(BETA), P);
    assert_eq!(folded.get(&point_key(&lambda_g)), Some(&1));
    assert!(folded.len() < 2000);
}

#[test]
fn walk_steps_by_zone() {
    let g = generator();
    let q = public_point();
    // x = 3: zone 0
    assert_eq!(walk_step(&g, 1, 0, &g, &q, N, P), (Point::new(6847, 2003), 1, 1));
    // x = 4: zone 1
    assert_eq!(
        walk_step(&Point::new(4, 1), 5, 6, &g, &q, N, P),
        (Point::new(568, 7417), 10, 12)
    );
    // x = 5: zone 2
    assert_eq!(
        walk_step(&Point::new(5, 1), 5, 6, &g, &q, N, P),
        (Point::new(7493, 9099), 6, 6)
    );
    // infinity: zone 0
    assert_eq!(walk_step(&Point::infinity(), 5, 6, &g, &q, N, P), (q, 5, 7));
}

#[test]
fn walk_step_over_orbits_rescales_the_coefficients() {
    let g = generator();
    let q = public_point();
    let lambda2 = mod_mul(LAMBDA, LAMBDA, N);
    assert_eq!(
        walk_step_canonical(&g, 1, 0, &g, &q, N, P, BETA, LAMBDA, lambda2),
        (Point::new(4414, 2003), 8745, 8745)
    );
}

#[test]
fn collision_with_equal_coefficients_gives_no_logarithm() {
    let r = generator();
    assert_eq!(resolve_collision(&(r, 5, 9), &(r, 7, 9), N), None);
    assert_eq!(resolve_collision(&(r, 5, 0), &(r, 7, N), N), None);
    // (5 - 7) / (10 - 9) = -2
    assert_eq!(resolve_collision(&(r, 5, 9), &(r, 7, 10), N), Some(N - 2));
    // (7 - 1) / (5 - 2) = 2
    assert_eq!(resolve_collision(&(r, 7, 2), &(r, 1, 5), N), Some(2));
}

#[test]
fn round_without_a_meeting_hands_both_states_on() {
    let g = generator();
    let q = public_point();
    let start = (g, 1, 0);
    let (found, tortoise, hare) = rho_round(&start, &start, &g, &q, N, P, &Walk::Plain);
    assert_eq!(found, None);
    assert_eq!(tortoise, (Point::new(6847, 2003), 1, 1));
    assert_eq!(hare, (Point::new(783, 3789), 2, 2));
}

#[test]
fn round_with_a_degenerate_meeting_perturbs_the_tortoise() {
    let g = generator();
    let q = public_point();
    let hare = (g, 1, 0);
    let tortoise = (Point::new(6847, 2003), 1, 1);
    let (found, next_tortoise, next_hare) = rho_round(&tortoise, &hare, &g, &q, N, P, &Walk::Plain);
    assert_eq!(found, None);
    assert_eq!(next_tortoise, (Point::new(4903, 9609), 3, 2));
    assert_eq!(next_hare, next_tortoise);
}

#[test]
fn round_with_a_meeting_gives_the_logarithm() {
    let g = generator();
    let q = public_point();
    // the hare reaches (783, 3789) with (2, 2) after two steps from g; the
    // tortoise reaches the same point with (10, 18) after one step
    let hare = (g, 1, 0);
    let tortoise = (Point::new(6847, 2003), 5, 9);
    let (found, _, _) = rho_round(&tortoise, &hare, &g, &q, N, P, &Walk::Plain);
    // (10 - 2) / (2 - 18) = -1 / 2
    assert_eq!(found, Some(5319));
    assert_eq!(mod_mul(5319, 2, N), N - 1);
}

#[test]
fn forced_degenerate_collision_still_converges() {
    let g = generator();
    let q = public_point();
    // the tortoise one step ahead of the hare: after one round both stand in
    // the same state, and the meeting gives no logarithm
    let hare = (g, 1, 0);
    let tortoise = walk_step(&g, 1, 0, &g, &q, N, P);
    let found = rho_walk(tortoise, hare, &g, &q, N, P, Walk::Plain).ok().unwrap();
    assert_eq!(scalar_mul(found.k, &g, P), q);
    assert_eq!(found.k, 7777);
    assert_eq!(found.iterations, 139);
}

#[test]
fn forced_degenerate_collision_over_orbits_still_converges() {
    let g = generator();
    let q = public_point();
    let lambda2 = mod_mul(LAMBDA, LAMBDA, N);
    let walk = Walk::Canonical { beta: BETA, lambda: LAMBDA, lambda2 };
    let hare = (g, 1, 0);
    let tortoise = walk_step_canonical(&g, 1, 0, &g, &q, N, P, BETA, LAMBDA, lambda2);
    let found = rho_walk(tortoise, hare, &g, &q, N, P, walk).ok().unwrap();
    assert_eq!(scalar_mul(found.k, &g, P), q);
    assert_eq!(found.k, 7777);
    assert_eq!(found.iterations, 16);
}

#[test]
fn searches_over_orbits_need_beta_to_act_as_lambda() {
    // y^2 = x^3 + 3 modulo 7: 13 points, generator (1, 2), lambda = 3.
    // beta = 2 acts on the generator as lambda, beta = 4 as its square.
    let g = Point::new(1, 2);
    assert_eq!(find_lambda(13), Ok(3));
    assert_eq!(scalar_mul(3, &g, 7), Point::new(2, 2));
    let mut k = 0;
    while k < 13 {
        let q = scalar_mul(k, &g, 7);
        assert_eq!(bsgs_standard(&q, &g, 13, 7).ok().unwrap().0, k);
        assert_eq!(bsgs_glv(&q, &g, 13, 7, 2).ok().unwrap().0, k);
        if k > 0 {
            assert_eq!(pollard_rho_standard(&q, &g, 13, 7).ok().unwrap().k, k);
            assert_eq!(pollard_rho_glv(&q, &g, 13, 7, 2).ok().unwrap().k, k);
        }
        k += 1;
    }
    let q = scalar_mul(3, &g, 7);
    assert_eq!(bsgs_glv(&q, &g, 13, 7, 4), Ok((9, 2)));
}

#[test]
fn search_over_orbits_finds_every_point_of_the_group() {
    // y^2 = x^3 + 3 modulo 7 with beta = 2, which acts as lambda = 3: no point
    // of the group exhausts the search
    let g = Point::new(1, 2);
    let mut k = 0;
    while k < 13 {
        let q = scalar_mul(k, &g, 7);
        assert!(bsgs_glv(&q, &g, 13, 7, 2).is_ok());
        k += 1;
    }
}
