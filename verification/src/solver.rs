use vstd::prelude::*;

use rand::seq::SliceRandom;

use crate::branch_bound::{get_optimal, lemma_opt_le_any_tour, min_int, opt_tour_len};
use crate::distance_map::DistanceMap;
use crate::errors::TspError;
use crate::greedy::{get_greedy, greedy_route};
use crate::point::{
    ids_contiguous, point_in_range, points_in_range, valid_point_set, Points, MAX_COORD,
    MAX_POINTS,
};
use crate::query::Usage;
use crate::solution::Solution;
use crate::tour::{complete_route, get_solution_length, tour_len};
use crate::two_opt::{get_two_opt, no_improving_move};

verus! {

/// Exact search above this many points is a performance hazard the caller
/// should be warned about.
pub const EXACT_SEARCH_ADVISORY: usize = 20;

#[verifier::external_type_specification]
#[verifier::external_body]
pub struct ExInstant(std::time::Instant);

/// Relies on std::time::Instant::now: an opaque reading of the monotonic
/// clock.  Nothing can be promised of the value.
#[verifier::external_body]
fn clock_now() -> (t: std::time::Instant) {
    std::time::Instant::now()
}

/// Relies on std::time::Instant::elapsed: whole seconds since the reading.
/// The value depends on the clock, so nothing is promised of it.
#[verifier::external_body]
fn seconds_since(start: &std::time::Instant) -> (s: u64) {
    start.elapsed().as_secs()
}

/// Relies on rand's SliceRandom::shuffle: permutes the slice in place, so
/// the elements, as a multiset, are exactly those it started with.
#[verifier::external_body]
fn shuffle_route(route: &mut Vec<u32>)
    ensures
        final(route)@.to_multiset() == old(route)@.to_multiset(),
{
    route.shuffle(&mut rand::rng());
}

/// Return a random tour, used by the restart loop of local search.
pub fn get_random_solution(map: &DistanceMap) -> (s: Solution)
    requires
        map.wf(),
    ensures
        complete_route(s.route@, map.points@.len() as nat),
        s.distance == tour_len(map.points@, s.route@),
{
    let ghost ps = map.points@;
    let ghost n = map.points@.len() as nat;
    let n_exec = map.point_count();
    let mut vec: Vec<u32> = Vec::new();
    let mut t: usize = 0;
    while t < n_exec
        invariant
            t <= n_exec,
            n_exec <= MAX_POINTS,
            vec@.len() == t,
            forall|j: int| 0 <= j < t ==> (#[trigger] vec@[j]) as int == j,
        decreases n_exec - t,
    {
        vec.push(t as u32);
        t += 1;
    }
    let ghost ident = vec@;
    shuffle_route(&mut vec);
    proof {
        broadcast use vstd::seq_lib::group_to_multiset_ensures;

        assert(ident.no_duplicates());
        assert(vec@.len() == ident.len()) by {
            assert(vec@.to_multiset().len() == vec@.len());
            assert(ident.to_multiset().len() == ident.len());
        }
        ident.lemma_multiset_has_no_duplicates();
        vec@.lemma_multiset_has_no_duplicates_conv();
        assert forall|j: int| 0 <= j < vec@.len() implies ((#[trigger] vec@[j]) as nat) < n by {
            let v = vec@[j];
            assert(vec@.contains(v));
            assert(vec@.to_multiset().count(v) > 0);
            assert(ident.to_multiset().count(v) > 0);
            assert(ident.contains(v));
            let j0 = choose|j0: int| 0 <= j0 < ident.len() && ident[j0] == v;
            assert(ident[j0] == v);
        }
        assert(complete_route(vec@, n));
    }
    let (distance, _complete) = get_solution_length(map, &vec);
    Solution { route: vec, distance }
}

/// Whether exact search was requested for a point count large enough to
/// warn the caller off; an advisory, not a refusal.
pub fn exhaustion_advisory(usage: &Usage, point_count: usize) -> (r: Option<TspError>)
    ensures
        r == if *usage == Usage::SolveOptimal && point_count > EXACT_SEARCH_ADVISORY {
            Some(TspError::Exhausted)
        } else {
            None::<TspError>
        },
{
    match usage {
        Usage::SolveOptimal => {
            if point_count > EXACT_SEARCH_ADVISORY {
                Some(TspError::Exhausted)
            } else {
                None
            }
        },
        _ => None,
    }
}

/// Whether the point set is one the solver accepts: at least two points, a
/// size within the exact-arithmetic budget, coordinates in range, and ids
/// contiguous from zero.
pub fn validate_points(points: &Points) -> (ok: bool)
    ensures
        ok == valid_point_set(points.points@),
{
    let n = points.points.len();
    if n < 2 || n > MAX_POINTS {
        return false;
    }
    let mut t: usize = 0;
    while t < n
        invariant
            t <= n,
            n == points.points@.len(),
            forall|j: int|
                0 <= j < t ==> point_in_range(#[trigger] points.points@[j])
                    && points.points@[j].id == j,
        decreases n - t,
    {
        let p = &points.points[t];
        if p.x < -MAX_COORD || p.x > MAX_COORD || p.y < -MAX_COORD || p.y > MAX_COORD {
            return false;
        }
        if p.id as usize != t {
            return false;
        }
        t += 1;
    }
    true
}

/// Solve the problem in the requested mode.
///
/// A point set that fails validation is rejected with `InvalidInput` before
/// any search begins.  In `SolveOptimal` mode the returned tour is exactly
/// the shortest round trip over all permutations.  In `SolveLocal` mode the
/// returned tour is a complete tour on which no 2-opt move improves: the
/// initial greedy tour refined by local search, then the best of the random
/// restarts that fit into the time budget (a budget of 0 runs exactly the
/// one initial improvement pass).
pub fn solve_tsp(points: &Points, usage: &Usage, time: u64) -> (r: Result<Solution, TspError>)
    requires
        *usage == Usage::SolveLocal || *usage == Usage::SolveOptimal,
    ensures
        match r {
            Ok(s) => valid_point_set(points.points@) && complete_route(
                s.route@,
                points.points@.len() as nat,
            ) && s.distance == tour_len(points.points@, s.route@) && (*usage == Usage::SolveOptimal
                ==> s.distance as int == opt_tour_len(points.points@)) && (*usage
                == Usage::SolveLocal ==> no_improving_move(points.points@, s.route@) && (exists|
                g: Seq<u32>,
            |
                complete_route(g, points.points@.len() as nat) && g[0] == 0 && greedy_route(
                    points.points@,
                    g,
                ) && s.distance <= tour_len(points.points@, g))),
            Err(e) => e == TspError::InvalidInput && !valid_point_set(points.points@),
        },
{
    let ghost ps = points.points@;
    let ghost n = points.points@.len() as nat;
    if !validate_points(points) {
        return Err(TspError::InvalidInput);
    }
    let map = DistanceMap::new(points);
    let greedy_solution = get_greedy(&map);
    let ghost groute = greedy_solution.route@;
    let mut best_solution = get_two_opt(&map, greedy_solution);
    let mut bssf: u64 = best_solution.distance;
    match usage {
        Usage::SolveLocal => {
            let start = clock_now();
            let mut tries: u64 = 0;
            while tries < u64::MAX
                invariant
                    map.wf(),
                    ps == map.points@,
                    n == ps.len(),
                    complete_route(best_solution.route@, n),
                    best_solution.distance == tour_len(ps, best_solution.route@),
                    no_improving_move(ps, best_solution.route@),
                    bssf == best_solution.distance,
                    complete_route(groute, n),
                    groute[0] == 0,
                    greedy_route(ps, groute),
                    best_solution.distance <= tour_len(ps, groute),
                ensures
                    complete_route(best_solution.route@, n),
                    best_solution.distance == tour_len(ps, best_solution.route@),
                    no_improving_move(ps, best_solution.route@),
                    best_solution.distance <= tour_len(ps, groute),
                decreases u64::MAX - tries,
            {
                tries += 1;
                let elapsed = seconds_since(&start);
                if elapsed >= time {
                    break ;
                }
                let random_solution = get_random_solution(&map);
                let new_solution = get_two_opt(&map, random_solution);
                if new_solution.distance < bssf {
                    bssf = new_solution.distance;
                    best_solution = new_solution;
                }
            }
            Ok(best_solution)
        },
        _ => {
            let optimal = get_optimal(&map, &mut bssf, &best_solution);
            proof {
                lemma_opt_le_any_tour(ps, best_solution.route@);
                assert(optimal.distance as int == opt_tour_len(ps));
            }
            Ok(optimal)
        },
    }
}

} // verus!
