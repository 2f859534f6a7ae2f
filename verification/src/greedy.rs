use vstd::prelude::*;

use crate::distance_map::{pair_dist, DistanceMap};
use crate::point::{Point, MAX_POINTS};
use crate::solution::Solution;
use crate::tour::{
    complete_route, get_solution_length, lemma_exists_unvisited, route_in_range, tour_len,
    valid_partial_route,
};

verus! {

/// Candidate order for the greedy scan: shorter distance first, ties broken
/// by the lower index.
pub open spec fn lex_le(d1: nat, c1: u32, d2: nat, c2: u32) -> bool {
    d1 < d2 || (d1 == d2 && c1 <= c2)
}

/// After the prefix `route[..k+1]`, the stop `route[k + 1]` is the unvisited
/// index nearest to `route[k]`, ties broken by the lower index.
pub open spec fn greedy_choice_at(ps: Seq<Point>, route: Seq<u32>, k: int) -> bool {
    forall|c: u32|
        (c as nat) < ps.len() && !route.subrange(0, k + 1).contains(c) ==> lex_le(
            pair_dist(ps, route[k] as int, route[k + 1] as int),
            route[k + 1],
            #[trigger] pair_dist(ps, route[k] as int, c as int),
            c,
        )
}

/// Every stop after the first was selected greedily.
pub open spec fn greedy_route(ps: Seq<Point>, route: Seq<u32>) -> bool {
    forall|k: int| 0 <= k < route.len() - 1 ==> #[trigger] greedy_choice_at(ps, route, k)
}

/// Finds the greedy tour: start at index 0 and repeatedly append the
/// nearest unvisited index, ties broken by the lowest index.
pub fn get_greedy(map: &DistanceMap) -> (s: Solution)
    requires
        map.wf(),
        map.num_points >= 1,
    ensures
        complete_route(s.route@, map.points@.len() as nat),
        s.route@[0] == 0,
        greedy_route(map.points@, s.route@),
        s.distance == tour_len(map.points@, s.route@),
{
    let ghost ps = map.points@;
    let n = map.point_count();
    let mut visited: Vec<bool> = Vec::new();
    let mut t: usize = 0;
    while t < n
        invariant
            t <= n,
            visited@.len() == t,
            forall|v: int| 0 <= v < t ==> !(#[trigger] visited@[v]),
        decreases n - t,
    {
        visited.push(false);
        t += 1;
    }
    let mut solution: Vec<u32> = Vec::new();
    solution.push(0);
    visited.set(0, true);
    while solution.len() < n
        invariant
            map.wf(),
            ps == map.points@,
            n == ps.len(),
            1 <= n <= MAX_POINTS,
            1 <= solution@.len() <= n,
            solution@[0] == 0,
            valid_partial_route(solution@, n as nat),
            visited@.len() == n,
            forall|v: int| 0 <= v < n ==> #[trigger] visited@[v] == solution@.contains(v as u32),
            greedy_route(ps, solution@),
        decreases n - solution.len(),
    {
        let current_node: u32 = solution[solution.len() - 1];
        let mut best_node: u32 = 0;
        let mut best_dist: u64 = 0;
        let mut found = false;
        let mut c: u32 = 0;
        proof {
            lemma_exists_unvisited(solution@, n as nat);
        }
        while (c as usize) < n
            invariant
                map.wf(),
                ps == map.points@,
                n == ps.len(),
                n <= MAX_POINTS,
                c <= n as u32,
                visited@.len() == n,
                solution@.len() >= 1,
                valid_partial_route(solution@, n as nat),
                current_node == solution@[solution@.len() - 1],
                forall|v: int| 0 <= v < n ==> #[trigger] visited@[v] == solution@.contains(
                    v as u32,
                ),
                found == exists|v: u32| v < c && !solution@.contains(v),
                found ==> best_node < c && !solution@.contains(best_node) && best_dist
                    == pair_dist(ps, current_node as int, best_node as int),
                found ==> forall|v: u32|
                    v < c && !solution@.contains(v) ==> lex_le(
                        best_dist as nat,
                        best_node,
                        pair_dist(ps, current_node as int, v as int),
                        v,
                    ),
            decreases n - c,
        {
            if !visited[c as usize] {
                let d = map.get_distance_from_points(&current_node, &c);
                if !found || d < best_dist {
                    best_node = c;
                    best_dist = d;
                    found = true;
                }
            }
            c += 1;
        }
        proof {
            let v0 = choose|v: u32| (v as nat) < n && !solution@.contains(v);
            assert(v0 < c && !solution@.contains(v0));
            assert(found);
        }
        let ghost old_solution = solution@;
        solution.push(best_node);
        visited.set(best_node as usize, true);
        proof {
            assert(solution@.drop_last() =~= old_solution);
            assert forall|i: int, j: int|
                0 <= i < j < solution@.len() implies solution@[i] != solution@[j] by {
                if j < solution@.len() - 1 {
                    assert(old_solution[i] != old_solution[j]);
                } else {
                    assert(!old_solution.contains(best_node));
                }
            }
            assert forall|v: int| 0 <= v < n implies #[trigger] visited@[v] == solution@.contains(
                v as u32,
            ) by {
                if v == best_node as int {
                    assert(solution@[solution@.len() - 1] == best_node);
                } else {
                    if solution@.contains(v as u32) {
                        let i = choose|i: int|
                            0 <= i < solution@.len() && solution@[i] == v as u32;
                        assert(old_solution[i] == v as u32);
                    }
                    if old_solution.contains(v as u32) {
                        let i = choose|i: int|
                            0 <= i < old_solution.len() && old_solution[i] == v as u32;
                        assert(solution@[i] == v as u32);
                    }
                }
            }
            assert forall|k: int| 0 <= k < solution@.len() - 1 implies #[trigger] greedy_choice_at(
                ps,
                solution@,
                k,
            ) by {
                if k < solution@.len() - 2 {
                    assert(greedy_choice_at(ps, old_solution, k));
                    assert(solution@.subrange(0, k + 1) =~= old_solution.subrange(0, k + 1));
                    assert(solution@[k] == old_solution[k]);
                    assert(solution@[k + 1] == old_solution[k + 1]);
                } else {
                    assert(solution@.subrange(0, k + 1) =~= old_solution);
                    assert(solution@[k] == current_node);
                    assert(solution@[k + 1] == best_node);
                }
            }
        }
    }
    let (distance, is_complete) = get_solution_length(map, &solution);
    proof {
        assert(is_complete);
    }
    Solution { route: solution, distance }
}

} // verus!
