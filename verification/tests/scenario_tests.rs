use tsp_solver::branch_bound::parallel_branch_and_bound;
use tsp_solver::distance_map::DistanceMap;
use tsp_solver::errors::TspError;
use tsp_solver::greedy::get_greedy;
use tsp_solver::point::{Point, Points};
use tsp_solver::priority_bnb::parallel_priority_queue_bnb;
use tsp_solver::query::Usage;
use tsp_solver::solver::solve_tsp;
use tsp_solver::two_opt::get_two_opt;

/// One coordinate unit of the original real-valued inputs, in fixed-point.
const SCALE: i64 = 1_000_000;

fn points_from(coords: &[(i64, i64)]) -> Points {
    let mut points = Vec::new();
    for (id, &(x, y)) in coords.iter().enumerate() {
        points.push(Point { x: x * SCALE, y: y * SCALE, id: id as u32 });
    }
    Points { points }
}

fn assert_permutation(route: &[u32], n: usize) {
    assert_eq!(route.len(), n);
    let mut counts = vec![0usize; n];
    for &v in route {
        assert!((v as usize) < n, "stop {} out of range", v);
        counts[v as usize] += 1;
    }
    for (v, &c) in counts.iter().enumerate() {
        assert_eq!(c, 1, "index {} appears {} times", v, c);
    }
}

#[test]
fn unit_square_greedy_is_optimal() {
    let points = points_from(&[(0, 0), (1, 0), (1, 1), (0, 1)]);
    let map = DistanceMap::new(&points);
    let greedy = get_greedy(&map);
    assert_permutation(&greedy.route, 4);
    assert_eq!(greedy.distance, 4 * 1_000_000);
    let improved = get_two_opt(&map, greedy);
    assert_eq!(improved.distance, 4 * 1_000_000);
}

#[test]
fn unit_square_exact_distance() {
    let points = points_from(&[(0, 0), (1, 0), (1, 1), (0, 1)]);
    let result = solve_tsp(&points, &Usage::SolveOptimal, 0).unwrap();
    assert_permutation(&result.route, 4);
    assert_eq!(result.distance, 4 * 1_000_000);
}

#[test]
fn collinear_points_local_search_converges() {
    let points = points_from(&[(0, 0), (1, 0), (2, 0), (3, 0), (4, 0)]);
    let result = solve_tsp(&points, &Usage::SolveLocal, 0).unwrap();
    assert_permutation(&result.route, 5);
    assert_eq!(result.distance, 8 * 1_000_000);
}

#[test]
fn collinear_points_exact_distance() {
    let points = points_from(&[(0, 0), (1, 0), (2, 0), (3, 0), (4, 0)]);
    let result = solve_tsp(&points, &Usage::SolveOptimal, 0).unwrap();
    assert_eq!(result.distance, 8 * 1_000_000);
}

#[test]
fn empty_input_is_rejected() {
    let points = Points { points: Vec::new() };
    assert!(matches!(solve_tsp(&points, &Usage::SolveLocal, 0), Err(TspError::InvalidInput)));
    assert!(matches!(solve_tsp(&points, &Usage::SolveOptimal, 0), Err(TspError::InvalidInput)));
}

#[test]
fn single_point_is_rejected() {
    let points = points_from(&[(3, 4)]);
    assert!(matches!(solve_tsp(&points, &Usage::SolveLocal, 0), Err(TspError::InvalidInput)));
    assert!(matches!(solve_tsp(&points, &Usage::SolveOptimal, 0), Err(TspError::InvalidInput)));
}

#[test]
fn noncontiguous_ids_are_rejected() {
    let mut points = points_from(&[(0, 0), (1, 0), (2, 0)]);
    points.points[1].id = 7;
    assert!(matches!(solve_tsp(&points, &Usage::SolveLocal, 0), Err(TspError::InvalidInput)));
}

#[test]
fn out_of_range_coordinate_is_rejected() {
    let mut points = points_from(&[(0, 0), (1, 0), (2, 0)]);
    points.points[2].x = 2_000_000_000;
    assert!(matches!(solve_tsp(&points, &Usage::SolveOptimal, 0), Err(TspError::InvalidInput)));
}

#[test]
fn coincident_points_solve_cleanly() {
    let points = points_from(&[(0, 0), (0, 0), (1, 0), (1, 1)]);
    let local = solve_tsp(&points, &Usage::SolveLocal, 0).unwrap();
    assert_permutation(&local.route, 4);
    let optimal = solve_tsp(&points, &Usage::SolveOptimal, 0).unwrap();
    assert_permutation(&optimal.route, 4);
    /* Visit the duplicate pair back to back, walk the two unit edges, and
    close with the diagonal. */
    assert_eq!(optimal.distance, 1_000_000 + 1_000_000 + 1_414_213);
    assert!(local.distance >= optimal.distance);
}

#[test]
fn coincident_points_greedy_terminates() {
    let points = points_from(&[(0, 0), (0, 0), (0, 0), (2, 0)]);
    let map = DistanceMap::new(&points);
    let greedy = get_greedy(&map);
    assert_permutation(&greedy.route, 4);
    assert_eq!(greedy.distance, 4 * 1_000_000);
}

fn exact_searches_agree(coords: &[(i64, i64)]) {
    let points = points_from(coords);
    let n = coords.len();
    let map = DistanceMap::new(&points);
    let greedy = get_greedy(&map);
    let best = get_two_opt(&map, greedy);
    let recursive = parallel_branch_and_bound(&map, best.distance, &best);
    assert_permutation(&recursive.route, n);
    let mut loose_bound = best.distance + 1;
    let queued = parallel_priority_queue_bnb(&map, &mut loose_bound);
    assert!(!queued.route.is_empty(), "queue search found no tour below the loose bound");
    assert_permutation(&queued.route, n);
    assert_eq!(queued.distance, recursive.distance);
}

#[test]
fn exact_searches_agree_on_hexagon() {
    exact_searches_agree(&[(0, 0), (4, 0), (6, 3), (4, 6), (0, 6), (-2, 3)]);
}

#[test]
fn exact_searches_agree_on_scattered_points() {
    exact_searches_agree(&[(0, 0), (9, 1), (3, 7), (5, 2), (8, 8), (1, 4), (6, 5)]);
}

#[test]
fn exact_searches_agree_with_coincident_points() {
    exact_searches_agree(&[(0, 0), (0, 0), (5, 1), (2, 6), (7, 4)]);
}

#[test]
fn local_search_with_time_budget_returns_valid_tour() {
    let points = points_from(&[(0, 0), (9, 1), (3, 7), (5, 2), (8, 8), (1, 4), (6, 5), (2, 2)]);
    let result = solve_tsp(&points, &Usage::SolveLocal, 1).unwrap();
    assert_permutation(&result.route, 8);
    let optimal = solve_tsp(&points, &Usage::SolveOptimal, 0).unwrap();
    assert!(result.distance >= optimal.distance);
}

fn brute_force_optimal(map: &DistanceMap, n: usize) -> u64 {
    fn explore(map: &DistanceMap, fixed: &mut Vec<u32>, rest: &mut Vec<u32>) -> u64 {
        if rest.is_empty() {
            let mut cost = 0u64;
            for w in fixed.windows(2) {
                cost += map.get_distance_from_points(&w[0], &w[1]);
            }
            cost += map.get_distance_from_points(&fixed[fixed.len() - 1], &fixed[0]);
            return cost;
        }
        let mut best = u64::MAX;
        for i in 0..rest.len() {
            let node = rest.remove(i);
            fixed.push(node);
            let cost = explore(map, fixed, rest);
            if cost < best {
                best = cost;
            }
            fixed.pop();
            rest.insert(i, node);
        }
        best
    }
    let mut fixed: Vec<u32> = vec![0];
    let mut rest: Vec<u32> = (1..n as u32).collect();
    explore(map, &mut fixed, &mut rest)
}

#[test]
fn exact_search_matches_brute_force() {
    let cases: &[&[(i64, i64)]] = &[
        &[(0, 0), (4, 0), (6, 3), (4, 6), (0, 6), (-2, 3)],
        &[(0, 0), (9, 1), (3, 7), (5, 2), (8, 8), (1, 4), (6, 5)],
        &[(0, 0), (0, 0), (5, 1), (2, 6), (7, 4)],
        &[(2, 2), (3, 3)],
    ];
    for coords in cases {
        let points = points_from(coords);
        let map = DistanceMap::new(&points);
        let expected = brute_force_optimal(&map, coords.len());
        let result = solve_tsp(&points, &Usage::SolveOptimal, 0).unwrap();
        assert_eq!(result.distance, expected, "on {:?}", coords);
    }
}

#[test]
fn queue_search_finds_optimum_under_loose_bound() {
    let points = points_from(&[(0, 0), (1, 0), (1, 1), (0, 1)]);
    let map = DistanceMap::new(&points);
    let mut bound: u64 = u64::MAX;
    let result = parallel_priority_queue_bnb(&map, &mut bound);
    assert_eq!(bound, u64::MAX);
    assert_permutation(&result.route, 4);
    assert_eq!(result.route[0], 0);
    assert_eq!(result.distance, 4 * 1_000_000);
}

#[test]
fn queue_search_returns_empty_when_bound_already_optimal() {
    let points = points_from(&[(0, 0), (1, 0), (1, 1), (0, 1)]);
    let map = DistanceMap::new(&points);
    let mut bound: u64 = 4 * 1_000_000;
    let result = parallel_priority_queue_bnb(&map, &mut bound);
    assert!(result.route.is_empty());
    assert_eq!(result.distance, 0);
}

#[test]
fn two_opt_returns_optimal_input_unchanged() {
    let points = points_from(&[(0, 0), (1, 0), (1, 1), (0, 1)]);
    let map = DistanceMap::new(&points);
    let square = tsp_solver::solution::Solution { route: vec![0, 1, 2, 3], distance: 4_000_000 };
    let improved = get_two_opt(&map, square);
    assert_eq!(improved.route, vec![0, 1, 2, 3]);
    assert_eq!(improved.distance, 4_000_000);
}

#[test]
fn recursive_search_returns_seed_when_nothing_beats_it() {
    let points = points_from(&[(0, 0), (1, 0), (1, 1), (0, 1)]);
    let map = DistanceMap::new(&points);
    let seed = tsp_solver::solution::Solution { route: vec![0, 1, 2, 3], distance: 4_000_000 };
    let result = parallel_branch_and_bound(&map, seed.distance, &seed);
    assert_eq!(result.route, vec![0, 1, 2, 3]);
    assert_eq!(result.distance, 4_000_000);
}
