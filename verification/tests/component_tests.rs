use tsp_solver::distance_map::{isqrt, DistanceMap, MAX_DIST};
use tsp_solver::errors::TspError;
use tsp_solver::point::{Point, Points};
use tsp_solver::priority_bnb::{calculate_heuristic_estimate, get_heuristic_kruskals};
use tsp_solver::priority_queue_structs::DisjointSet;
use tsp_solver::query::{Usage, UserQuery};
use tsp_solver::solution::Solution;
use tsp_solver::solver::{exhaustion_advisory, get_random_solution, validate_points};

const SCALE: i64 = 1_000_000;

fn points_from(coords: &[(i64, i64)]) -> Points {
    let mut points = Vec::new();
    for (id, &(x, y)) in coords.iter().enumerate() {
        points.push(Point { x: x * SCALE, y: y * SCALE, id: id as u32 });
    }
    Points { points }
}

#[test]
fn isqrt_exact_values() {
    assert_eq!(isqrt(0), 0);
    assert_eq!(isqrt(1), 1);
    assert_eq!(isqrt(2), 1);
    assert_eq!(isqrt(3), 1);
    assert_eq!(isqrt(4), 2);
    assert_eq!(isqrt(999_999), 999);
    assert_eq!(isqrt(1_000_000), 1000);
    assert_eq!(isqrt(2_000_000_000_000), 1_414_213);
    assert_eq!(isqrt(u64::MAX), 4_294_967_295);
}

#[test]
fn cached_distances_are_euclidean() {
    let points = points_from(&[(0, 0), (3, 4), (0, 1)]);
    let map = DistanceMap::new(&points);
    assert_eq!(map.point_count(), 3);
    assert_eq!(map.len(), 3);
    /* A 3-4-5 right triangle, scaled. */
    assert_eq!(map.get_distance_from_points(&0, &1), 5_000_000);
    assert_eq!(map.get_distance_from_points(&1, &0), 5_000_000);
    assert_eq!(map.get_distance_from_points(&0, &2), 1_000_000);
    assert_eq!(map.get_distance_from_points(&2, &2), 0);
    /* The irrational diagonal, floored at the sixth decimal. */
    let diag = points_from(&[(0, 0), (1, 1)]);
    let diag_map = DistanceMap::new(&diag);
    assert_eq!(diag_map.get_distance_from_points(&0, &1), 1_414_213);
    assert!(diag_map.get_distance_from_points(&0, &1) < MAX_DIST);
}

#[test]
fn checked_distance_reports_bad_indices() {
    let points = points_from(&[(0, 0), (3, 4), (0, 1)]);
    let map = DistanceMap::new(&points);
    assert_eq!(map.try_distance(0, 1), Ok(5_000_000));
    assert_eq!(map.try_distance(3, 0), Err(TspError::InfeasibleBound));
    assert_eq!(map.try_distance(1, 9), Err(TspError::InfeasibleBound));
}

#[test]
fn disjoint_set_tracks_components() {
    let mut ds = DisjointSet::new(5);
    for i in 0..5u32 {
        assert_eq!(ds.find(i), i);
    }
    ds.union(0, 1);
    assert_eq!(ds.find(0), ds.find(1));
    assert_ne!(ds.find(0), ds.find(2));
    ds.union(3, 4);
    assert_eq!(ds.find(3), ds.find(4));
    assert_ne!(ds.find(1), ds.find(4));
    ds.union(1, 4);
    assert_eq!(ds.find(0), ds.find(3));
    assert_ne!(ds.find(0), ds.find(2));
}

#[test]
fn kruskal_weight_uses_sorted_edges() {
    /* An isosceles triangle whose first-listed edge is the heaviest: a
    greedy pass in listing order would pick it, the sorted pass must not. */
    let points = Points {
        points: vec![
            Point { x: 0, y: 0, id: 0 },
            Point { x: 3_000_000, y: 0, id: 1 },
            Point { x: 1_500_000, y: 994_987, id: 2 },
        ],
    };
    let map = DistanceMap::new(&points);
    let long_side = map.get_distance_from_points(&0, &1);
    let left_side = map.get_distance_from_points(&0, &2);
    let right_side = map.get_distance_from_points(&1, &2);
    assert_eq!(long_side, 3_000_000);
    assert!(left_side < long_side && right_side < long_side);
    let weight = get_heuristic_kruskals(&map);
    assert_eq!(weight, left_side + right_side);
}

#[test]
fn kruskal_weight_of_tiny_sets_is_zero() {
    let points = points_from(&[(0, 0), (5, 5), (9, 0)]);
    let map = DistanceMap::new(&points);
    assert_eq!(calculate_heuristic_estimate(&map, &vec![]), 0);
    assert_eq!(calculate_heuristic_estimate(&map, &vec![2]), 0);
    assert_eq!(
        calculate_heuristic_estimate(&map, &vec![0, 2]),
        map.get_distance_from_points(&0, &2)
    );
}

fn min_path_cost(map: &DistanceMap, fixed: &mut Vec<u32>, rest: &mut Vec<u32>) -> u64 {
    if rest.is_empty() {
        let mut cost = 0u64;
        for w in fixed.windows(2) {
            cost += map.get_distance_from_points(&w[0], &w[1]);
        }
        return cost;
    }
    let mut best = u64::MAX;
    for i in 0..rest.len() {
        let node = rest.remove(i);
        fixed.push(node);
        let cost = min_path_cost(map, fixed, rest);
        if cost < best {
            best = cost;
        }
        fixed.pop();
        rest.insert(i, node);
    }
    best
}

#[test]
fn spanning_estimate_never_exceeds_best_path() {
    /* Admissibility on small subsets: the spanning-tree weight is at most
    the cheapest way to walk through every member of the subset. */
    let points = points_from(&[(0, 0), (9, 1), (3, 7), (5, 2), (8, 8), (1, 4), (6, 5), (2, 9)]);
    let map = DistanceMap::new(&points);
    let subsets: &[&[u32]] = &[
        &[0, 1],
        &[0, 1, 2],
        &[3, 4, 5, 6],
        &[0, 2, 4, 6],
        &[1, 3, 5, 7],
        &[0, 1, 2, 3, 4],
        &[0, 1, 2, 3, 4, 5, 6, 7],
    ];
    for subset in subsets {
        let subset_vec: Vec<u32> = subset.to_vec();
        let estimate = calculate_heuristic_estimate(&map, &subset_vec);
        let mut fixed: Vec<u32> = Vec::new();
        let mut rest: Vec<u32> = subset_vec.clone();
        let best_path = min_path_cost(&map, &mut fixed, &mut rest);
        assert!(
            estimate <= best_path,
            "estimate {} exceeds best path {} on {:?}",
            estimate,
            best_path,
            subset
        );
    }
}

#[test]
fn random_solution_is_a_permutation() {
    let points = points_from(&[(0, 0), (9, 1), (3, 7), (5, 2), (8, 8), (1, 4)]);
    let map = DistanceMap::new(&points);
    for _ in 0..5 {
        let s = get_random_solution(&map);
        assert_eq!(s.route.len(), 6);
        let mut counts = vec![0usize; 6];
        for &v in &s.route {
            counts[v as usize] += 1;
        }
        assert!(counts.iter().all(|&c| c == 1));
    }
}

#[test]
fn advisory_fires_only_for_large_exact_searches() {
    assert_eq!(exhaustion_advisory(&Usage::SolveOptimal, 21), Some(TspError::Exhausted));
    assert_eq!(exhaustion_advisory(&Usage::SolveOptimal, 100), Some(TspError::Exhausted));
    assert_eq!(exhaustion_advisory(&Usage::SolveOptimal, 20), None);
    assert_eq!(exhaustion_advisory(&Usage::SolveOptimal, 2), None);
    assert_eq!(exhaustion_advisory(&Usage::SolveLocal, 1000), None);
    assert_eq!(exhaustion_advisory(&Usage::Generate, 1000), None);
}

#[test]
fn point_set_validation() {
    assert!(validate_points(&points_from(&[(0, 0), (1, 1)])));
    assert!(!validate_points(&Points { points: Vec::new() }));
    assert!(!validate_points(&points_from(&[(0, 0)])));
    let mut bad_id = points_from(&[(0, 0), (1, 1), (2, 2)]);
    bad_id.points[0].id = 1;
    assert!(!validate_points(&bad_id));
    let mut bad_coord = points_from(&[(0, 0), (1, 1)]);
    bad_coord.points[0].y = -1_000_000_001;
    assert!(!validate_points(&bad_coord));
}

#[test]
fn default_query_values() {
    let q = UserQuery::new();
    assert_eq!(q.usage, Usage::SolveLocal);
    assert_eq!(q.points, 0);
    assert_eq!(q.filename, "points.json");
    assert_eq!(q.time, 60);
    assert_eq!(q.max_points, 1_000_000_000);
}

#[test]
fn empty_solution_and_length() {
    let s = Solution::new();
    assert_eq!(s.len(), 0);
    assert_eq!(s.distance, 0);
    let copy = s.duplicate();
    assert_eq!(copy.len(), 0);
    assert_eq!(copy.distance, 0);
}
