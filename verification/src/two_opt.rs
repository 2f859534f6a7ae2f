use vstd::prelude::*;

use crate::distance_map::{pair_dist, DistanceMap, MAX_DIST};
use crate::point::{Point, MAX_POINTS};
use crate::solution::Solution;
use crate::tour::{
    complete_route, get_solution_length, lemma_path_len_concat, lemma_path_len_reverse,
    lemma_tour_len_bound, path_len, route_in_range, tour_len, valid_partial_route,
};

verus! {

/// The route after removing the edges leaving positions `v1` and `v2` and
/// reconnecting by reversing the segment between them.
pub open spec fn swapped(route: Seq<u32>, v1: int, v2: int) -> Seq<u32> {
    route.subrange(0, v1 + 1) + route.subrange(v1 + 1, v2 + 1).reverse() + route.subrange(
        v2 + 1,
        route.len() as int,
    )
}

/// Where the stop at position `t` of the swapped route sat in the original.
pub open spec fn swap_index(l: int, v1: int, v2: int, t: int) -> int {
    if t <= v1 {
        t
    } else if t <= v2 {
        v1 + 1 + v2 - t
    } else {
        t
    }
}

/// The change in round-trip length caused by a 2-opt swap at `(i, j)`.
pub open spec fn delta_spec(ps: Seq<Point>, route: Seq<u32>, i: int, j: int) -> int {
    let l = route.len() as int;
    let ni = (i + 1) % l;
    let nj = (j + 1) % l;
    pair_dist(ps, route[ni] as int, route[nj] as int) + pair_dist(
        ps,
        route[i] as int,
        route[j] as int,
    ) - pair_dist(ps, route[i] as int, route[ni] as int) - pair_dist(
        ps,
        route[j] as int,
        route[nj] as int,
    )
}

/// No 2-opt move can shorten the route: the local-optimality statement.
pub open spec fn no_improving_move(ps: Seq<Point>, route: Seq<u32>) -> bool {
    forall|i: int, j: int|
        0 <= i < j < route.len() ==> #[trigger] delta_spec(ps, route, i, j) >= 0
}

/// Each position of the swapped route carries the original stop at the
/// swapped position.
proof fn lemma_swapped_index(route: Seq<u32>, v1: int, v2: int)
    requires
        0 <= v1 < v2 < route.len(),
    ensures
        swapped(route, v1, v2).len() == route.len(),
        forall|t: int|
            0 <= t < route.len() ==> #[trigger] swapped(route, v1, v2)[t] == route[swap_index(
                route.len() as int,
                v1,
                v2,
                t,
            )],
{
    let l = route.len() as int;
    let s = swapped(route, v1, v2);
    assert(s.len() == l);
    assert forall|t: int| 0 <= t < l implies #[trigger] s[t] == route[swap_index(
        l,
        v1,
        v2,
        t,
    )] by {
        let a = route.subrange(0, v1 + 1);
        let rb = route.subrange(v1 + 1, v2 + 1).reverse();
        let c = route.subrange(v2 + 1, l);
        if t <= v1 {
            assert(s[t] == a[t]);
        } else if t <= v2 {
            assert(s[t] == rb[t - (v1 + 1)]);
        } else {
            assert(s[t] == c[t - (v2 + 1)]);
        }
    }
}

/// A 2-opt swap keeps the route a complete tour.
pub proof fn lemma_swapped_complete(route: Seq<u32>, n: nat, v1: int, v2: int)
    requires
        complete_route(route, n),
        0 <= v1 < v2 < route.len(),
    ensures
        complete_route(swapped(route, v1, v2), n),
{
    let l = route.len() as int;
    let s = swapped(route, v1, v2);
    lemma_swapped_index(route, v1, v2);
    assert forall|t1: int, t2: int| 0 <= t1 < t2 < s.len() implies s[t1] != s[t2] by {
        let f1 = swap_index(l, v1, v2, t1);
        let f2 = swap_index(l, v1, v2, t2);
        assert(swap_index(l, v1, v2, f1) == t1);
        assert(swap_index(l, v1, v2, f2) == t2);
        assert(f1 != f2);
    }
}

/// The central accounting fact of 2-opt: swapping at `(i, j)` changes the
/// round-trip length by exactly `delta_spec`.
pub proof fn lemma_two_opt_delta(ps: Seq<Point>, route: Seq<u32>, i: int, j: int)
    requires
        0 <= i < j < route.len(),
    ensures
        tour_len(ps, swapped(route, i, j)) as int == tour_len(ps, route) as int + delta_spec(
            ps,
            route,
            i,
            j,
        ),
{
    let l = route.len() as int;
    let a = route.subrange(0, i + 1);
    let b = route.subrange(i + 1, j + 1);
    let c = route.subrange(j + 1, l);
    let rb = b.reverse();
    let s = swapped(route, i, j);
    lemma_path_len_reverse(ps, b);
    assert(a.len() == i + 1 && b.len() == j - i && rb.len() == j - i);
    assert(a[a.len() - 1] == route[i]);
    assert(b[0] == route[i + 1]);
    assert(b[b.len() - 1] == route[j]);
    assert(rb[0] == route[j]);
    assert(rb[rb.len() - 1] == route[i + 1]);
    if j == l - 1 {
        assert(c.len() == 0);
        assert(route =~= a + b);
        assert(s =~= a + rb);
        lemma_path_len_concat(ps, a, b);
        lemma_path_len_concat(ps, a, rb);
        assert((a + b)[0] == route[0]);
        assert((a + rb)[0] == route[0]);
        assert((a + b)[l - 1] == route[l - 1]);
        assert((a + rb)[l - 1] == route[i + 1]);
        assert((j + 1) % l == 0) by {
            vstd::arithmetic::div_mod::lemma_mod_self_0(l);
        }
        assert((i + 1) % l == i + 1) by {
            vstd::arithmetic::div_mod::lemma_small_mod((i + 1) as nat, l as nat);
        }
    } else {
        assert(c.len() == l - 1 - j >= 1);
        assert(c[0] == route[j + 1]);
        assert(c[c.len() - 1] == route[l - 1]);
        assert(route =~= (a + b) + c);
        assert(s =~= (a + rb) + c);
        lemma_path_len_concat(ps, a, b);
        lemma_path_len_concat(ps, a + b, c);
        lemma_path_len_concat(ps, a, rb);
        lemma_path_len_concat(ps, a + rb, c);
        assert((a + b)[(a + b).len() - 1] == route[j]);
        assert((a + rb)[(a + rb).len() - 1] == route[i + 1]);
        assert(((a + b) + c)[0] == route[0]);
        assert(((a + rb) + c)[0] == route[0]);
        assert(((a + b) + c)[l - 1] == route[l - 1]);
        assert(((a + rb) + c)[l - 1] == route[l - 1]);
        assert((j + 1) % l == j + 1) by {
            vstd::arithmetic::div_mod::lemma_small_mod((j + 1) as nat, l as nat);
        }
        assert((i + 1) % l == i + 1) by {
            vstd::arithmetic::div_mod::lemma_small_mod((i + 1) as nat, l as nat);
        }
    }
}

/// Swap edges leaving positions `v1` and `v2` of the route in place.
pub fn two_opt_swap(route: &mut Vec<u32>, v1: usize, v2: usize)
    requires
        v1 < v2 < old(route)@.len(),
    ensures
        final(route)@ == swapped(old(route)@, v1 as int, v2 as int),
{
    let ghost orig = route@;
    let len = route.len();
    let mut temp_route: Vec<u32> = Vec::new();
    /* 1. Take the route from the start to v1. */
    let mut k: usize = 0;
    while k <= v1
        invariant
            v1 < v2 < orig.len(),
            orig == route@,
            len == orig.len(),
            k <= v1 + 1,
            temp_route@.len() == k,
            forall|t: int| 0 <= t < k ==> temp_route@[t] == orig[t],
        decreases v1 + 1 - k,
    {
        temp_route.push(route[k]);
        k += 1;
    }
    /* 2. Add the segment from v1+1 to v2 in reverse order. */
    let mut k: usize = v2;
    while k > v1
        invariant
            v1 < v2 < orig.len(),
            orig == route@,
            len == orig.len(),
            v1 <= k <= v2,
            temp_route@.len() == v1 + 1 + (v2 - k),
            forall|t: int| 0 <= t <= v1 ==> temp_route@[t] == orig[t],
            forall|t: int|
                v1 < t < temp_route@.len() ==> temp_route@[t] == orig[v1 + 1 + v2 - t],
        decreases k,
    {
        temp_route.push(route[k]);
        k -= 1;
    }
    /* 3. Add the rest of the route from v2+1 to the end. */
    let mut k: usize = v2 + 1;
    while k < len
        invariant
            v1 < v2 < orig.len(),
            orig == route@,
            len == orig.len(),
            v2 + 1 <= k <= len,
            temp_route@.len() == k,
            forall|t: int| 0 <= t <= v1 ==> temp_route@[t] == orig[t],
            forall|t: int| v1 < t <= v2 ==> temp_route@[t] == orig[v1 + 1 + v2 - t],
            forall|t: int| v2 < t < k ==> temp_route@[t] == orig[t],
        decreases len - k,
    {
        temp_route.push(route[k]);
        k += 1;
    }
    proof {
        assert(temp_route@ =~= swapped(orig, v1 as int, v2 as int));
    }
    *route = temp_route;
}

/// Determines the incremental change of swapping the edges at `(i, j)`.
pub fn get_delta(map: &DistanceMap, solution: &Solution, i: usize, j: usize) -> (d: i64)
    requires
        map.wf(),
        i < j < solution.route@.len(),
        route_in_range(solution.route@, map.points@.len() as nat),
    ensures
        d as int == delta_spec(map.points@, solution.route@, i as int, j as int),
{
    let len = solution.route.len();
    let next_i = (i + 1) % len;
    let next_j = (j + 1) % len;
    let old_i_edge = map.get_distance_from_points(&solution.route[i], &solution.route[next_i]);
    let old_j_edge = map.get_distance_from_points(&solution.route[j], &solution.route[next_j]);
    let new_i_edge = map.get_distance_from_points(
        &solution.route[next_i],
        &solution.route[next_j],
    );
    let new_j_edge = map.get_distance_from_points(&solution.route[i], &solution.route[j]);
    (new_i_edge as i64) + (new_j_edge as i64) - (old_i_edge as i64) - (old_j_edge as i64)
}

/// Local search: swap edges until no improving 2-opt move remains, taking
/// the first improvement found on each pass.
pub fn get_two_opt(map: &DistanceMap, solution_input: Solution) -> (s: Solution)
    requires
        map.wf(),
        complete_route(solution_input.route@, map.points@.len() as nat),
    ensures
        complete_route(s.route@, map.points@.len() as nat),
        s.distance == tour_len(map.points@, s.route@),
        s.distance <= tour_len(map.points@, solution_input.route@),
        no_improving_move(map.points@, s.route@),
        no_improving_move(map.points@, solution_input.route@) ==> s.route@
            == solution_input.route@,
{
    let ghost ps = map.points@;
    let ghost n = map.points@.len() as nat;
    let ghost input_route = solution_input.route@;
    let mut solution = solution_input;
    let (fresh_len, _) = get_solution_length(map, &solution.route);
    solution.distance = fresh_len;
    let len = solution.route.len();
    let mut improved = true;
    while improved
        invariant
            map.wf(),
            ps == map.points@,
            n == ps.len(),
            len == solution.route@.len(),
            complete_route(solution.route@, n),
            solution.distance == tour_len(ps, solution.route@),
            tour_len(ps, solution.route@) <= tour_len(ps, input_route),
            no_improving_move(ps, input_route) ==> solution.route@ == input_route,
            !improved ==> no_improving_move(ps, solution.route@),
        decreases solution.distance as int + (if improved {
            1int
        } else {
            0int
        }),
    {
        let ghost entry_dist = solution.distance;
        improved = false;
        let mut i: usize = 0;
        while i < len
            invariant
                map.wf(),
                ps == map.points@,
                n == ps.len(),
                len == solution.route@.len(),
                i <= len,
                complete_route(solution.route@, n),
                solution.distance == tour_len(ps, solution.route@),
                tour_len(ps, solution.route@) <= tour_len(ps, input_route),
                no_improving_move(ps, input_route) ==> solution.route@ == input_route,
                improved ==> solution.distance < entry_dist,
                !improved ==> solution.distance == entry_dist,
                !improved ==> forall|i2: int, j2: int|
                    0 <= i2 < j2 < len && i2 < i ==> #[trigger] delta_spec(
                        ps,
                        solution.route@,
                        i2,
                        j2,
                    ) >= 0,
            decreases len - i,
        {
            if !improved {
                let mut j: usize = i + 1;
                while j < len
                    invariant
                        map.wf(),
                        ps == map.points@,
                        n == ps.len(),
                        len == solution.route@.len(),
                        i < len,
                        i + 1 <= j <= len,
                        complete_route(solution.route@, n),
                        solution.distance == tour_len(ps, solution.route@),
                        tour_len(ps, solution.route@) <= tour_len(ps, input_route),
                        no_improving_move(ps, input_route) ==> solution.route@ == input_route,
                        improved ==> solution.distance < entry_dist,
                        !improved ==> solution.distance == entry_dist,
                        !improved ==> forall|i2: int, j2: int|
                            0 <= i2 < j2 < len && i2 < i ==> #[trigger] delta_spec(
                                ps,
                                solution.route@,
                                i2,
                                j2,
                            ) >= 0,
                        !improved ==> forall|j2: int|
                            i < j2 < j ==> #[trigger] delta_spec(ps, solution.route@, i as int, j2)
                                >= 0,
                    decreases len - j,
                {
                    if !improved {
                        let length_delta = get_delta(map, &solution, i, j);
                        if length_delta < 0 {
                            proof {
                                lemma_two_opt_delta(ps, solution.route@, i as int, j as int);
                                lemma_swapped_complete(solution.route@, n, i as int, j as int);
                                lemma_tour_len_bound(ps, solution.route@);
                                /* An already locally optimal input never reaches
                                this branch: its deltas are all nonnegative. */
                                if no_improving_move(ps, input_route) {
                                    assert(solution.route@ == input_route);
                                    assert(delta_spec(ps, input_route, i as int, j as int) >= 0);
                                    assert(false);
                                }
                            }
                            two_opt_swap(&mut solution.route, i, j);
                            solution.distance = ((solution.distance as i64) + length_delta) as u64;
                            improved = true;
                        }
                    }
                    j += 1;
                }
            }
            i += 1;
        }
    }
    solution
}

} // verus!
