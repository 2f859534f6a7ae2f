use vstd::prelude::*;

use crate::distance_map::{pair_dist, DistanceMap, MAX_DIST};
use crate::point::{Point, MAX_POINTS};
use crate::solution::Solution;
use crate::tour::{
    complete_route, lemma_complete_route_counts, lemma_path_len_bound, lemma_path_len_push,
    lemma_tour_len_bound, lemma_tour_len_rotated, path_len, rotated, route_in_range, tour_len,
    valid_partial_route,
};

verus! {

pub open spec fn min_int(a: int, b: int) -> int {
    if a <= b {
        a
    } else {
        b
    }
}

/// The length of the best completion of `route` that appends every index of
/// `todo` in some order and then closes the tour.
pub open spec fn best_ext(ps: Seq<Point>, route: Seq<u32>, todo: Seq<u32>) -> int
    decreases todo.len(), todo.len() + 2int,
{
    if todo.len() == 0 {
        tour_len(ps, route) as int
    } else {
        best_ext_from(ps, route, todo, 0)
    }
}

/// The best completion when the next stop is restricted to positions
/// `k..todo.len()` of `todo`.
pub open spec fn best_ext_from(ps: Seq<Point>, route: Seq<u32>, todo: Seq<u32>, k: int) -> int
    decreases todo.len(), todo.len() - k + 1int,
{
    if 0 <= k < todo.len() {
        if k == todo.len() - 1 {
            best_ext(ps, route.push(todo[k]), todo.remove(k))
        } else {
            min_int(
                best_ext(ps, route.push(todo[k]), todo.remove(k)),
                best_ext_from(ps, route, todo, k + 1),
            )
        }
    } else {
        0
    }
}

/// Where position `t` of `route.push(node) + todo.remove(k)` sat inside
/// `route + todo`, for a route of length `l` and the node at `todo[k]`.
spec fn child_pos(l: int, k: int, t: int) -> int {
    if t < l {
        t
    } else if t == l {
        l + k
    } else if t - l - 1 < k {
        t - 1
    } else {
        t
    }
}

/// The canonical order of everything left to visit from the fixed root 0.
pub open spec fn full_todo(n: nat) -> Seq<u32> {
    if n == 0 {
        Seq::empty()
    } else {
        Seq::new((n - 1) as nat, |t: int| (t + 1) as u32)
    }
}

/// The length of the shortest complete tour rooted at index 0; by rotation
/// invariance, the shortest complete tour altogether.
pub open spec fn opt_tour_len(ps: Seq<Point>) -> int {
    best_ext(ps, seq![0u32], full_todo(ps.len() as nat))
}

/// No completion can be cheaper than the path already walked.
pub proof fn lemma_best_ext_ge_path(ps: Seq<Point>, route: Seq<u32>, todo: Seq<u32>)
    requires
        route.len() >= 1,
    ensures
        best_ext(ps, route, todo) >= path_len(ps, route),
    decreases todo.len(), todo.len() + 2int,
{
    if todo.len() == 0 {
    } else {
        lemma_best_ext_from_ge_path(ps, route, todo, 0);
    }
}

proof fn lemma_best_ext_from_ge_path(ps: Seq<Point>, route: Seq<u32>, todo: Seq<u32>, k: int)
    requires
        route.len() >= 1,
        0 <= k < todo.len(),
    ensures
        best_ext_from(ps, route, todo, k) >= path_len(ps, route),
    decreases todo.len(), todo.len() - k + 1int,
{
    lemma_path_len_push(ps, route, todo[k]);
    lemma_best_ext_ge_path(ps, route.push(todo[k]), todo.remove(k));
    if k < todo.len() - 1 {
        lemma_best_ext_from_ge_path(ps, route, todo, k + 1);
    }
}

/// The best completion is no worse than committing to any one next stop.
proof fn lemma_best_ext_from_le_child(ps: Seq<Point>, route: Seq<u32>, todo: Seq<u32>, k: int, c: int)
    requires
        0 <= k <= c < todo.len(),
    ensures
        best_ext_from(ps, route, todo, k) <= best_ext(ps, route.push(todo[c]), todo.remove(c)),
    decreases c - k,
{
    if k < c {
        lemma_best_ext_from_le_child(ps, route, todo, k + 1, c);
    }
}

pub proof fn lemma_best_ext_le_child(ps: Seq<Point>, route: Seq<u32>, todo: Seq<u32>, c: int)
    requires
        0 <= c < todo.len(),
    ensures
        best_ext(ps, route, todo) <= best_ext(ps, route.push(todo[c]), todo.remove(c)),
{
    lemma_best_ext_from_le_child(ps, route, todo, 0, c);
}

/// The best completion really is a lower bound: appending the members of
/// `todo` in any order at all and closing the tour costs at least
/// `best_ext`.
pub proof fn lemma_best_ext_le_completion(
    ps: Seq<Point>,
    prefix: Seq<u32>,
    todo: Seq<u32>,
    rest: Seq<u32>,
)
    requires
        prefix.len() >= 1,
        rest.to_multiset() == todo.to_multiset(),
    ensures
        best_ext(ps, prefix, todo) <= tour_len(ps, prefix + rest) as int,
    decreases rest.len(),
{
    broadcast use vstd::seq_lib::group_to_multiset_ensures;

    if rest.len() == 0 {
        assert(rest.to_multiset().len() == rest.len());
        assert(todo.to_multiset().len() == todo.len());
        assert(todo.len() == 0);
        assert(prefix + rest =~= prefix);
    } else {
        let x = rest[0];
        assert(rest.contains(x));
        assert(todo.to_multiset().count(x) > 0);
        assert(todo.contains(x));
        let c = choose|c: int| 0 <= c < todo.len() && todo[c] == x;
        lemma_best_ext_le_child(ps, prefix, todo, c);
        assert(rest.remove(0) =~= rest.drop_first());
        assert(rest.drop_first().to_multiset() =~= todo.remove(c).to_multiset()) by {
            assert(rest.remove(0).to_multiset() =~= rest.to_multiset().remove(x));
            assert(todo.remove(c).to_multiset() =~= todo.to_multiset().remove(x));
        }
        lemma_best_ext_le_completion(ps, prefix.push(x), todo.remove(c), rest.drop_first());
        assert(prefix.push(x) + rest.drop_first() =~= prefix + rest);
    }
}

/// Two duplicate-free routes over the same indices carry the same multiset.
pub proof fn lemma_no_dup_same_set_multiset(a: Seq<u32>, b: Seq<u32>)
    requires
        a.no_duplicates(),
        b.no_duplicates(),
        forall|v: u32| a.contains(v) <==> b.contains(v),
    ensures
        a.to_multiset() =~= b.to_multiset(),
{
    broadcast use vstd::seq_lib::group_to_multiset_ensures;

    a.lemma_multiset_has_no_duplicates();
    b.lemma_multiset_has_no_duplicates();
    assert forall|v: u32| a.to_multiset().count(v) == b.to_multiset().count(v) by {
        if a.contains(v) {
            assert(a.to_multiset().count(v) == 1);
            assert(b.contains(v));
            assert(b.to_multiset().count(v) == 1);
        } else {
            assert(a.to_multiset().count(v) == 0);
            assert(!b.contains(v));
            assert(b.to_multiset().count(v) == 0);
        }
    }
}

/// Any complete tour rooted at 0 costs at least the optimum.
pub proof fn lemma_opt_le_rooted_tour(ps: Seq<Point>, route: Seq<u32>)
    requires
        complete_route(route, ps.len() as nat),
        1 <= ps.len() <= MAX_POINTS,
        route[0] == 0,
    ensures
        opt_tour_len(ps) <= tour_len(ps, route) as int,
{
    let n = ps.len() as nat;
    let todo = full_todo(n);
    let rest = route.drop_first();
    lemma_complete_route_counts(route, n);
    assert(todo.no_duplicates());
    assert(rest.no_duplicates()) by {
        assert(forall|t: int| 0 <= t < rest.len() ==> rest[t] == route[t + 1]);
    }
    assert forall|v: u32| todo.contains(v) <==> rest.contains(v) by {
        if todo.contains(v) {
            let t = choose|t: int| 0 <= t < todo.len() && todo[t] == v;
            assert(1 <= (v as nat) && (v as nat) < n);
            assert(route.contains(v));
            let i = choose|i: int| 0 <= i < route.len() && route[i] == v;
            assert(i != 0);
            assert(rest[i - 1] == v);
        }
        if rest.contains(v) {
            let t = choose|t: int| 0 <= t < rest.len() && rest[t] == v;
            assert(rest[t] == route[t + 1]);
            assert((v as nat) < n);
            assert(v != 0) by {
                assert(route[0] == 0);
                assert(route[t + 1] == v);
            }
            assert(todo[v as int - 1] == v);
        }
    }
    lemma_no_dup_same_set_multiset(rest, todo);
    lemma_best_ext_le_completion(ps, seq![0u32], todo, rest);
    assert(seq![0u32] + rest =~= route);
}

/// Any complete tour at all costs at least the optimum: rotate it to start
/// at 0 and apply rotation invariance of the tour length.
pub proof fn lemma_opt_le_any_tour(ps: Seq<Point>, route: Seq<u32>)
    requires
        complete_route(route, ps.len() as nat),
        1 <= ps.len() <= MAX_POINTS,
    ensures
        opt_tour_len(ps) <= tour_len(ps, route) as int,
{
    let n = ps.len() as nat;
    lemma_complete_route_counts(route, n);
    assert(route.contains(0u32));
    let k = choose|k: int| 0 <= k < route.len() && route[k] == 0u32;
    let rot = rotated(route, k);
    assert(rot.len() == route.len());
    assert(rot[0] == 0u32);
    assert(forall|t: int|
        0 <= t < rot.len() ==> #[trigger] rot[t] == if t < route.len() - k {
            route[t + k]
        } else {
            route[t - (route.len() - k)]
        });
    assert(complete_route(rot, n)) by {
        assert forall|t: int| 0 <= t < rot.len() implies ((#[trigger] rot[t]) as nat) < n by {
            if t < route.len() - k {
                assert(rot[t] == route[t + k]);
            } else {
                assert(rot[t] == route[t - (route.len() - k)]);
            }
        }
        assert forall|t1: int, t2: int| 0 <= t1 < t2 < rot.len() implies rot[t1] != rot[t2] by {
            if t1 < route.len() - k && t2 >= route.len() - k {
                assert(rot[t1] == route[t1 + k]);
                assert(rot[t2] == route[t2 - (route.len() - k)]);
            }
        }
    }
    lemma_tour_len_rotated(ps, route, k);
    lemma_opt_le_rooted_tour(ps, rot);
}

/// Recursive branch and bound search: explores every completion of the
/// partial solution, keeping `bssf` and the best solution in lock step, and
/// prunes a child only when the path to it already reaches the bound.
fn branch_and_bound_recurse(
    solution: &mut Solution,
    map: &DistanceMap,
    bssf: &mut u64,
    unvisited: &mut Vec<u32>,
    best_solution: &mut Solution,
)
    requires
        map.wf(),
        1 <= old(solution).route@.len(),
        old(solution).route@[0] == 0,
        old(solution).route@.len() + old(unvisited)@.len() == map.points@.len(),
        valid_partial_route(old(solution).route@ + old(unvisited)@, map.points@.len() as nat),
        old(solution).distance == path_len(map.points@, old(solution).route@),
        complete_route(old(best_solution).route@, map.points@.len() as nat),
        old(best_solution).distance == tour_len(map.points@, old(best_solution).route@),
        *old(bssf) == old(best_solution).distance,
    ensures
        final(solution).route@ == old(solution).route@,
        final(solution).distance == old(solution).distance,
        final(unvisited)@ == old(unvisited)@,
        complete_route(final(best_solution).route@, map.points@.len() as nat),
        final(best_solution).distance == tour_len(map.points@, final(best_solution).route@),
        *final(bssf) == final(best_solution).distance,
        *final(bssf) as int == min_int(
            *old(bssf) as int,
            best_ext(map.points@, old(solution).route@, old(unvisited)@),
        ),
        *final(bssf) == *old(bssf) ==> final(best_solution).route@ == old(best_solution).route@,
        final(best_solution).route@ == old(best_solution).route@
            || final(best_solution).route@[0] == 0,
    decreases old(unvisited)@.len(),
{
    let ghost ps = map.points@;
    let ghost n = map.points@.len() as nat;
    let ghost route0 = solution.route@;
    let ghost todo0 = unvisited@;
    let ghost bssf0 = *bssf;
    let ghost best_route0 = best_solution.route@;
    proof {
        assert(route_in_range(route0, n)) by {
            assert(forall|t: int| 0 <= t < route0.len() ==> route0[t] == (route0 + todo0)[t]);
        }
        lemma_path_len_bound(ps, route0);
    }
    /* If it is a complete solution. */
    if unvisited.len() == 0 {
        proof {
            assert(route0 + todo0 =~= route0);
            assert(complete_route(route0, n));
            lemma_tour_len_bound(ps, route0);
        }
        if solution.distance < *bssf {
            let last = solution.route[solution.route.len() - 1];
            let first = solution.route[0];
            let additional_distance = map.get_distance_from_points(&last, &first);
            proof {
                if route0.len() >= 2 {
                    assert(tour_len(ps, route0) == path_len(ps, route0) + pair_dist(
                        ps,
                        route0[route0.len() - 1] as int,
                        route0[0] as int,
                    ));
                } else {
                    assert(n == 1);
                    assert(tour_len(ps, route0) == 0);
                    assert(path_len(ps, route0) == 0);
                    assert(pair_dist(ps, route0[0] as int, route0[0] as int) == 0);
                }
            }
            if solution.distance + additional_distance < *bssf {
                *bssf = solution.distance + additional_distance;
                let updated = solution.duplicate();
                *best_solution = updated;
                best_solution.distance = *bssf;
            }
        } else {
            proof {
                assert(tour_len(ps, route0) >= path_len(ps, route0));
            }
        }
    } else {
        let mut k: usize = unvisited.len();
        while k > 0
            invariant
                map.wf(),
                ps == map.points@,
                n == ps.len(),
                k <= todo0.len(),
                solution.route@ == route0,
                solution.distance == path_len(ps, route0),
                unvisited@ == todo0,
                todo0 == old(unvisited)@,
                route0.len() >= 1,
                route0.len() + todo0.len() == n,
                valid_partial_route(route0 + todo0, n),
                complete_route(best_solution.route@, n),
                best_solution.distance == tour_len(ps, best_solution.route@),
                *bssf == best_solution.distance,
                *bssf <= bssf0,
                route0[0] == 0,
                best_route0 == old(best_solution).route@,
                *bssf == bssf0 ==> best_solution.route@ == best_route0,
                best_solution.route@ == best_route0 || best_solution.route@[0] == 0,
                k == todo0.len() ==> *bssf == bssf0,
                k < todo0.len() ==> *bssf as int == min_int(
                    bssf0 as int,
                    best_ext_from(ps, route0, todo0, k as int),
                ),
            decreases k,
        {
            k = k - 1;
            let ghost bssf_before = *bssf;
            let node = unvisited[k];
            let last = solution.route[solution.route.len() - 1];
            proof {
                assert(route0[route0.len() - 1] == (route0 + todo0)[route0.len() - 1]);
                assert(todo0[k as int] == (route0 + todo0)[route0.len() + k]);
                assert(route_in_range(route0, n)) by {
                    assert(forall|t: int|
                        0 <= t < route0.len() ==> route0[t] == (route0 + todo0)[t]);
                }
                lemma_path_len_bound(ps, route0);
            }
            let additional_distance = map.get_distance_from_points(&node, &last);
            proof {
                crate::distance_map::lemma_pair_dist_sym(ps, node as int, last as int);
                lemma_path_len_push(ps, route0, node);
            }
            if solution.distance + additional_distance < *bssf {
                solution.distance = solution.distance + additional_distance;
                solution.route.push(node);
                let removed = unvisited.remove(k);
                proof {
                    assert(removed == node);
                    assert(solution.route@ =~= route0.push(node));
                    assert(unvisited@ =~= todo0.remove(k as int));
                    let l = route0.len() as int;
                    let merged = route0 + todo0;
                    let newm = route0.push(node) + todo0.remove(k as int);
                    assert(newm =~= solution.route@ + unvisited@);
                    assert(newm.len() == merged.len());
                    assert forall|t: int| 0 <= t < newm.len() implies #[trigger] newm[t]
                        == merged[child_pos(l, k as int, t)] by {
                        if t < l {
                            assert(newm[t] == route0[t]);
                            assert(merged[t] == route0[t]);
                        } else if t == l {
                            assert(newm[t] == node);
                            assert(merged[l + k] == todo0[k as int]);
                        } else if t - l - 1 < k {
                            assert(newm[t] == todo0.remove(k as int)[t - l - 1]);
                            assert(todo0.remove(k as int)[t - l - 1] == todo0[t - l - 1]);
                            assert(merged[t - 1] == todo0[t - 1 - l]);
                        } else {
                            assert(newm[t] == todo0.remove(k as int)[t - l - 1]);
                            assert(todo0.remove(k as int)[t - l - 1] == todo0[t - l]);
                            assert(merged[t] == todo0[t - l]);
                        }
                    }
                    assert forall|t: int| 0 <= t < newm.len() implies 0 <= #[trigger] child_pos(
                        l,
                        k as int,
                        t,
                    ) < merged.len() by {}
                    assert(valid_partial_route(newm, n)) by {
                        assert forall|t1: int, t2: int|
                            0 <= t1 < t2 < newm.len() implies newm[t1] != newm[t2] by {
                            assert(child_pos(l, k as int, t1) != child_pos(l, k as int, t2));
                            assert(merged[child_pos(l, k as int, t1)] != merged[child_pos(
                                l,
                                k as int,
                                t2,
                            )]);
                        }
                        assert forall|t: int| 0 <= t < newm.len() implies ((#[trigger] newm[t])
                            as nat) < n by {
                            assert(newm[t] == merged[child_pos(l, k as int, t)]);
                        }
                    }
                }
                branch_and_bound_recurse(solution, map, bssf, unvisited, best_solution);
                unvisited.insert(k, node);
                let _ = solution.route.pop();
                solution.distance = solution.distance - additional_distance;
                proof {
                    assert(unvisited@ =~= todo0);
                    assert(solution.route@ =~= route0);
                }
            } else {
                proof {
                    lemma_best_ext_ge_path(ps, route0.push(node), todo0.remove(k as int));
                }
            }
            proof {
                assert(best_ext_from(ps, route0, todo0, k as int) == if k as int == todo0.len() - 1 {
                    best_ext(ps, route0.push(todo0[k as int]), todo0.remove(k as int))
                } else {
                    min_int(
                        best_ext(ps, route0.push(todo0[k as int]), todo0.remove(k as int)),
                        best_ext_from(ps, route0, todo0, k as int + 1),
                    )
                });
            }
        }
    }
}

/// Branch and bound from the fixed root 0: returns the best of the handed-in
/// solution and the true optimum over every tour.
pub fn parallel_branch_and_bound(map: &DistanceMap, bssf_input: u64, best_solution: &Solution) -> (s:
    Solution)
    requires
        map.wf(),
        1 <= map.points@.len(),
        complete_route(best_solution.route@, map.points@.len() as nat),
        best_solution.distance == tour_len(map.points@, best_solution.route@),
        bssf_input == best_solution.distance,
    ensures
        complete_route(s.route@, map.points@.len() as nat),
        s.distance == tour_len(map.points@, s.route@),
        s.distance as int == min_int(bssf_input as int, opt_tour_len(map.points@)),
        s.distance == bssf_input ==> s.route@ == best_solution.route@,
        s.distance < bssf_input ==> s.route@[0] == 0,
{
    let ghost ps = map.points@;
    let ghost n = map.points@.len() as nat;
    let mut bssf = bssf_input;
    let mut best = best_solution.duplicate();
    let start_node: u32 = 0;
    let mut unvisited: Vec<u32> = Vec::new();
    let n_exec = map.point_count();
    let mut t: usize = 1;
    while t < n_exec
        invariant
            map.wf(),
            ps == map.points@,
            n == ps.len(),
            n == n_exec,
            n <= MAX_POINTS,
            1 <= t <= n_exec,
            unvisited@.len() == t - 1,
            forall|j: int| 0 <= j < t - 1 ==> (#[trigger] unvisited@[j]) as int == j + 1,
        decreases n_exec - t,
    {
        unvisited.push(t as u32);
        t += 1;
    }
    let mut solution = Solution { route: Vec::new(), distance: 0 };
    solution.route.push(start_node);
    proof {
        assert(unvisited@ =~= full_todo(n));
        assert(solution.route@ =~= seq![0u32]);
        let merged = solution.route@ + unvisited@;
        assert(valid_partial_route(merged, n)) by {
            assert(forall|t2: int| 0 <= t2 < merged.len() ==> (#[trigger] merged[t2]) as int == t2);
        }
    }
    branch_and_bound_recurse(&mut solution, map, &mut bssf, &mut unvisited, &mut best);
    best
}

/// The exact-search entry point.  The priority-queue variant exists as well;
/// this recursive variant is the one selected, as it carries the proof that
/// the result is the optimum.
pub fn get_optimal(map: &DistanceMap, bssf: &mut u64, best_solution: &Solution) -> (s: Solution)
    requires
        map.wf(),
        1 <= map.points@.len(),
        complete_route(best_solution.route@, map.points@.len() as nat),
        best_solution.distance == tour_len(map.points@, best_solution.route@),
        *old(bssf) == best_solution.distance,
    ensures
        *final(bssf) == *old(bssf),
        complete_route(s.route@, map.points@.len() as nat),
        s.distance == tour_len(map.points@, s.route@),
        s.distance as int == min_int(*old(bssf) as int, opt_tour_len(map.points@)),
        s.distance == *old(bssf) ==> s.route@ == best_solution.route@,
        s.distance < *old(bssf) ==> s.route@[0] == 0,
{
    parallel_branch_and_bound(map, *bssf, best_solution)
}

} // verus!
