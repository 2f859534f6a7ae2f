use tsp_solver::distance_map::DistanceMap;
use tsp_solver::greedy::get_greedy;
use tsp_solver::point::{Point, Points};
use tsp_solver::solution::Solution;
use tsp_solver::tour::get_solution_length;
use tsp_solver::two_opt::{get_delta, get_two_opt, two_opt_swap};

const SCALE: i64 = 1_000_000;

fn points_from(coords: &[(i64, i64)]) -> Points {
    let mut points = Vec::new();
    for (id, &(x, y)) in coords.iter().enumerate() {
        points.push(Point { x: x * SCALE, y: y * SCALE, id: id as u32 });
    }
    Points { points }
}

fn scattered_map() -> DistanceMap {
    let points = points_from(&[(0, 0), (9, 1), (3, 7), (5, 2), (8, 8), (1, 4), (6, 5)]);
    DistanceMap::new(&points)
}

#[test]
fn tour_length_is_rotation_invariant() {
    let map = scattered_map();
    let route: Vec<u32> = vec![0, 3, 1, 6, 4, 2, 5];
    let (base, complete) = get_solution_length(&map, &route);
    assert!(complete);
    for k in 0..route.len() {
        let rotated: Vec<u32> =
            route[k..].iter().chain(route[..k].iter()).copied().collect();
        let (len, complete) = get_solution_length(&map, &rotated);
        assert!(complete);
        assert_eq!(len, base, "rotation by {} changed the length", k);
    }
}

#[test]
fn tour_length_is_reversal_invariant() {
    let map = scattered_map();
    let route: Vec<u32> = vec![0, 3, 1, 6, 4, 2, 5];
    let (base, _) = get_solution_length(&map, &route);
    let reversed: Vec<u32> = route.iter().rev().copied().collect();
    let (len, complete) = get_solution_length(&map, &reversed);
    assert!(complete);
    assert_eq!(len, base);
}

#[test]
fn partial_route_has_no_closing_edge() {
    let map = scattered_map();
    let partial: Vec<u32> = vec![0, 3, 1];
    let (len, complete) = get_solution_length(&map, &partial);
    assert!(!complete);
    let expected = map.get_distance_from_points(&0, &3) + map.get_distance_from_points(&3, &1);
    assert_eq!(len, expected);
}

#[test]
fn swap_reverses_inner_segment() {
    let mut route: Vec<u32> = vec![0, 1, 2, 3, 4, 5];
    two_opt_swap(&mut route, 1, 4);
    assert_eq!(route, vec![0, 1, 4, 3, 2, 5]);
    let mut edge_route: Vec<u32> = vec![0, 1, 2, 3];
    two_opt_swap(&mut edge_route, 0, 3);
    assert_eq!(edge_route, vec![0, 3, 2, 1]);
}

#[test]
fn delta_accounts_for_swap() {
    let map = scattered_map();
    let route: Vec<u32> = vec![0, 3, 1, 6, 4, 2, 5];
    let (before, _) = get_solution_length(&map, &route);
    let solution = Solution { route: route.clone(), distance: before };
    for i in 0..route.len() {
        for j in (i + 1)..route.len() {
            let delta = get_delta(&map, &solution, i, j);
            let mut swapped = route.clone();
            two_opt_swap(&mut swapped, i, j);
            let (after, _) = get_solution_length(&map, &swapped);
            assert_eq!(after as i64, before as i64 + delta, "at ({}, {})", i, j);
        }
    }
}

#[test]
fn two_opt_uncrosses_the_square() {
    let points = points_from(&[(0, 0), (1, 0), (1, 1), (0, 1)]);
    let map = DistanceMap::new(&points);
    /* The crossing order: both diagonals are used. */
    let crossing: Vec<u32> = vec![0, 2, 1, 3];
    let (crossed_len, _) = get_solution_length(&map, &crossing);
    assert_eq!(crossed_len, 2 * 1_000_000 + 2 * 1_414_213);
    let improved = get_two_opt(&map, Solution { route: crossing, distance: crossed_len });
    assert_eq!(improved.distance, 4 * 1_000_000);
}

#[test]
fn two_opt_never_worsens() {
    let map = scattered_map();
    let candidates: &[&[u32]] = &[
        &[0, 1, 2, 3, 4, 5, 6],
        &[6, 5, 4, 3, 2, 1, 0],
        &[0, 2, 4, 6, 1, 3, 5],
        &[3, 0, 6, 2, 5, 1, 4],
    ];
    for candidate in candidates {
        let route: Vec<u32> = candidate.to_vec();
        let (before, _) = get_solution_length(&map, &route);
        let improved = get_two_opt(&map, Solution { route, distance: before });
        assert!(improved.distance <= before, "2-opt worsened {:?}", candidate);
        let (recheck, complete) = get_solution_length(&map, &improved.route);
        assert!(complete);
        assert_eq!(recheck, improved.distance);
    }
}

#[test]
fn greedy_picks_nearest_with_lowest_index_on_ties() {
    /* Two candidates at distance 1 from the start: the lower index wins. */
    let points = points_from(&[(0, 0), (1, 0), (0, 1), (5, 5)]);
    let map = DistanceMap::new(&points);
    let greedy = get_greedy(&map);
    assert_eq!(greedy.route[0], 0);
    assert_eq!(greedy.route[1], 1);
}
