use vstd::prelude::*;

use crate::distance_map::{
    lemma_pair_dist_bound, lemma_pair_dist_sym, pair_dist, DistanceMap, MAX_DIST,
};
use crate::point::{points_in_range, Point, MAX_POINTS};

verus! {

/// Every stop on the route is an index below `n`.
pub open spec fn route_in_range(route: Seq<u32>, n: nat) -> bool {
    forall|k: int| 0 <= k < route.len() ==> ((#[trigger] route[k]) as nat) < n
}

/// A partial route during search: in-range stops, none repeated.
pub open spec fn valid_partial_route(route: Seq<u32>, n: nat) -> bool {
    &&& route_in_range(route, n)
    &&& route.no_duplicates()
}

/// A complete tour: a permutation of all `n` indices.
pub open spec fn complete_route(route: Seq<u32>, n: nat) -> bool {
    &&& valid_partial_route(route, n)
    &&& route.len() == n
}

/// The cost of the open path along the route (no closing edge).
pub open spec fn path_len(ps: Seq<Point>, route: Seq<u32>) -> nat
    decreases route.len(),
{
    if route.len() < 2 {
        0
    } else {
        path_len(ps, route.drop_last()) + pair_dist(
            ps,
            route[route.len() - 2] as int,
            route[route.len() - 1] as int,
        )
    }
}

/// The round-trip cost of the route: the open path plus the closing edge
/// back to the start.
pub open spec fn tour_len(ps: Seq<Point>, route: Seq<u32>) -> nat {
    if route.len() < 2 {
        0
    } else {
        path_len(ps, route) + pair_dist(ps, route[route.len() - 1] as int, route[0] as int)
    }
}

pub proof fn lemma_path_len_push(ps: Seq<Point>, route: Seq<u32>, x: u32)
    ensures
        path_len(ps, route.push(x)) == if route.len() >= 1 {
            path_len(ps, route) + pair_dist(ps, route[route.len() - 1] as int, x as int)
        } else {
            0nat
        },
{
    let r2 = route.push(x);
    assert(r2.drop_last() =~= route);
    if route.len() >= 1 {
        assert(r2[r2.len() - 2] == route[route.len() - 1]);
        assert(r2[r2.len() - 1] == x);
    }
}

pub proof fn lemma_path_len_bound(ps: Seq<Point>, route: Seq<u32>)
    requires
        points_in_range(ps),
        route_in_range(route, ps.len() as nat),
    ensures
        path_len(ps, route) <= route.len() * MAX_DIST,
    decreases route.len(),
{
    if route.len() >= 2 {
        let prefix = route.drop_last();
        assert(route_in_range(prefix, ps.len() as nat)) by {
            assert(forall|k: int| 0 <= k < prefix.len() ==> prefix[k] == route[k]);
        }
        lemma_path_len_bound(ps, prefix);
        lemma_pair_dist_bound(ps, route[route.len() - 2] as int, route[route.len() - 1] as int);
        assert((route.len() - 1) * MAX_DIST + MAX_DIST == route.len() * MAX_DIST)
            by (nonlinear_arith);
    }
}

pub proof fn lemma_tour_len_bound(ps: Seq<Point>, route: Seq<u32>)
    requires
        points_in_range(ps),
        route_in_range(route, ps.len() as nat),
    ensures
        tour_len(ps, route) <= (route.len() + 1) * MAX_DIST,
        path_len(ps, route) <= tour_len(ps, route),
    decreases route.len(),
{
    lemma_path_len_bound(ps, route);
    if route.len() >= 2 {
        lemma_pair_dist_bound(ps, route[route.len() - 1] as int, route[0] as int);
    }
    assert(route.len() * MAX_DIST + MAX_DIST == (route.len() + 1) * MAX_DIST) by (nonlinear_arith);
}

/// Splitting a path at a point splits its cost at the joining edge.
pub proof fn lemma_path_len_concat(ps: Seq<Point>, a: Seq<u32>, b: Seq<u32>)
    requires
        a.len() >= 1,
        b.len() >= 1,
    ensures
        path_len(ps, a + b) == path_len(ps, a) + pair_dist(
            ps,
            a[a.len() - 1] as int,
            b[0] as int,
        ) + path_len(ps, b),
    decreases b.len(),
{
    if b.len() == 1 {
        assert(a + b =~= a.push(b[0]));
        lemma_path_len_push(ps, a, b[0]);
    } else {
        let b2 = b.drop_last();
        lemma_path_len_concat(ps, a, b2);
        assert(a + b =~= (a + b2).push(b[b.len() - 1]));
        lemma_path_len_push(ps, a + b2, b[b.len() - 1]);
        assert((a + b2)[(a + b2).len() - 1] == b[b.len() - 2]);
        assert(b2.push(b[b.len() - 1]) =~= b);
        lemma_path_len_push(ps, b2, b[b.len() - 1]);
    }
}

/// A path's cost may as well be peeled from the front.
pub proof fn lemma_path_len_first(ps: Seq<Point>, route: Seq<u32>)
    requires
        route.len() >= 2,
    ensures
        path_len(ps, route) == pair_dist(ps, route[0] as int, route[1] as int) + path_len(
            ps,
            route.drop_first(),
        ),
    decreases route.len(),
{
    if route.len() == 2 {
        assert(route.drop_first().len() == 1);
        assert(route.drop_last().len() == 1);
        assert(path_len(ps, route.drop_first()) == 0);
        assert(path_len(ps, route.drop_last()) == 0);
        assert(path_len(ps, route) == pair_dist(ps, route[0] as int, route[1] as int));
    } else {
        let rl = route.drop_last();
        lemma_path_len_first(ps, rl);
        assert(route.drop_first().drop_last() =~= rl.drop_first());
        assert(rl[0] == route[0] && rl[1] == route[1]);
        let df = route.drop_first();
        assert(df[df.len() - 2] == route[route.len() - 2]);
        assert(df[df.len() - 1] == route[route.len() - 1]);
        assert(path_len(ps, route) == path_len(ps, rl) + pair_dist(
            ps,
            route[route.len() - 2] as int,
            route[route.len() - 1] as int,
        ));
        assert(path_len(ps, df) == path_len(ps, df.drop_last()) + pair_dist(
            ps,
            df[df.len() - 2] as int,
            df[df.len() - 1] as int,
        ));
    }
}

/// Reversing a route leaves the open-path cost unchanged.
pub proof fn lemma_path_len_reverse(ps: Seq<Point>, route: Seq<u32>)
    ensures
        path_len(ps, route.reverse()) == path_len(ps, route),
    decreases route.len(),
{
    if route.len() >= 2 {
        let rev = route.reverse();
        assert(rev.drop_last() =~= route.drop_first().reverse());
        lemma_path_len_reverse(ps, route.drop_first());
        lemma_path_len_first(ps, route);
        assert(rev[rev.len() - 2] == route[1]);
        assert(rev[rev.len() - 1] == route[0]);
        lemma_pair_dist_sym(ps, route[1] as int, route[0] as int);
    }
}

/// Reversing the direction of travel does not change the total round-trip
/// distance.
pub proof fn lemma_tour_len_reverse(ps: Seq<Point>, route: Seq<u32>)
    ensures
        tour_len(ps, route.reverse()) == tour_len(ps, route),
{
    if route.len() >= 2 {
        let rev = route.reverse();
        lemma_path_len_reverse(ps, route);
        assert(rev[rev.len() - 1] == route[0]);
        assert(rev[0] == route[route.len() - 1]);
        lemma_pair_dist_sym(ps, route[0] as int, route[route.len() - 1] as int);
    }
}

/// The route with its starting point moved `k` places along.
pub open spec fn rotated(route: Seq<u32>, k: int) -> Seq<u32> {
    route.subrange(k, route.len() as int) + route.subrange(0, k)
}

proof fn lemma_tour_len_rotate_one(ps: Seq<Point>, route: Seq<u32>)
    requires
        route.len() >= 1,
    ensures
        tour_len(ps, route.drop_first().push(route[0])) == tour_len(ps, route),
{
    let r2 = route.drop_first().push(route[0]);
    if route.len() == 1 {
        assert(r2.len() == 1);
    } else {
        lemma_path_len_push(ps, route.drop_first(), route[0]);
        lemma_path_len_first(ps, route);
        assert(route.drop_first()[route.drop_first().len() - 1] == route[route.len() - 1]);
        assert(r2[r2.len() - 1] == route[0]);
        assert(r2[0] == route[1]);
    }
}

/// Rotating the starting point does not change the total round-trip
/// distance.
pub proof fn lemma_tour_len_rotated(ps: Seq<Point>, route: Seq<u32>, k: int)
    requires
        0 <= k <= route.len(),
    ensures
        tour_len(ps, rotated(route, k)) == tour_len(ps, route),
    decreases k,
{
    if k == 0 {
        assert(rotated(route, 0) =~= route);
    } else {
        lemma_tour_len_rotated(ps, route, k - 1);
        let prev = rotated(route, k - 1);
        assert(prev.len() == route.len());
        assert(prev[0] == route[k - 1]);
        lemma_tour_len_rotate_one(ps, prev);
        assert(prev.drop_first().push(prev[0]) =~= rotated(route, k));
    }
}

/// The set of `u32` values below `n` has exactly `n` members.
pub proof fn lemma_below_card(n: nat)
    requires
        n <= 0x1_0000_0000,
    ensures
        Set::new(|v: u32| (v as nat) < n).finite(),
        Set::new(|v: u32| (v as nat) < n).len() == n,
    decreases n,
{
    broadcast use vstd::set::group_set_axioms;

    if n == 0 {
        assert(Set::new(|v: u32| (v as nat) < n) =~= Set::empty());
    } else {
        lemma_below_card((n - 1) as nat);
        let prev = Set::new(|v: u32| (v as nat) < n - 1);
        assert(Set::new(|v: u32| (v as nat) < n) =~= prev.insert(((n - 1) as u32)));
        assert(!prev.contains((n - 1) as u32));
    }
}

/// A route that has not yet placed every index leaves some index unvisited.
pub proof fn lemma_exists_unvisited(route: Seq<u32>, n: nat)
    requires
        valid_partial_route(route, n),
        route.len() < n,
        n <= 0x1_0000_0000,
    ensures
        exists|v: u32| (v as nat) < n && !route.contains(v),
{
    broadcast use vstd::set::group_set_axioms;
    broadcast use vstd::seq_lib::seq_to_set_is_finite;

    route.unique_seq_to_set();
    let below = Set::new(|v: u32| (v as nat) < n);
    lemma_below_card(n);
    if forall|v: u32| (v as nat) < n ==> route.contains(v) {
        assert(below.subset_of(route.to_set())) by {
            assert forall|v: u32| below.contains(v) implies route.to_set().contains(v) by {
                assert(route.contains(v));
            }
        }
        vstd::set_lib::lemma_len_subset(below, route.to_set());
    }
}

/// A complete tour visits every index exactly once: the statement that a
/// returned route is a valid permutation.
pub proof fn lemma_complete_route_counts(route: Seq<u32>, n: nat)
    requires
        complete_route(route, n),
        n <= 0x1_0000_0000,
    ensures
        forall|v: u32| (v as nat) < n ==> route.to_multiset().count(v) == 1,
        forall|v: u32| (v as nat) >= n ==> route.to_multiset().count(v) == 0,
        forall|v: u32| (v as nat) < n ==> route.contains(v),
{
    broadcast use vstd::seq_lib::group_to_multiset_ensures;
    broadcast use vstd::set::group_set_axioms;

    route.lemma_multiset_has_no_duplicates();
    route.unique_seq_to_set();
    let below = Set::new(|v: u32| (v as nat) < n);
    lemma_below_card(n);
    assert(route.to_set().subset_of(below)) by {
        assert forall|v: u32| route.to_set().contains(v) implies below.contains(v) by {
            let i = choose|i: int| 0 <= i < route.len() && route[i] == v;
            assert(route[i] == v);
        }
    }
    vstd::set_lib::lemma_subset_equality(route.to_set(), below);
    assert forall|v: u32| (v as nat) < n implies route.contains(v) by {
        assert(below.contains(v));
        assert(route.to_set().contains(v));
    }
    assert forall|v: u32| (v as nat) >= n implies route.to_multiset().count(v) == 0 by {
        if route.to_multiset().count(v) > 0 {
            assert(route.contains(v));
            let i = choose|i: int| 0 <= i < route.len() && route[i] == v;
            assert((route[i] as nat) < n);
        }
    }
}

/// Returns the total length of a given route, and whether the route is
/// complete.  The closing edge is added only for a complete route.
pub fn get_solution_length(map: &DistanceMap, solution: &Vec<u32>) -> (r: (u64, bool))
    requires
        map.wf(),
        route_in_range(solution@, map.points@.len() as nat),
        solution@.len() <= MAX_POINTS,
    ensures
        r.1 == (solution@.len() == map.points@.len()),
        r.1 ==> r.0 == tour_len(map.points@, solution@),
        !r.1 ==> r.0 == path_len(map.points@, solution@),
{
    let ghost ps = map.points@;
    let n = map.point_count();
    let len = solution.len();
    let is_complete = len == n;
    let mut length: u64 = 0;
    let mut k: usize = 1;
    if len >= 2 {
        while k < len
            invariant
                map.wf(),
                ps == map.points@,
                route_in_range(solution@, ps.len() as nat),
                len == solution@.len(),
                2 <= len <= MAX_POINTS,
                1 <= k <= len,
                length == path_len(ps, solution@.subrange(0, k as int)),
            decreases len - k,
        {
            proof {
                let prefix = solution@.subrange(0, k as int);
                assert(route_in_range(prefix, ps.len() as nat)) by {
                    assert(forall|t: int| 0 <= t < prefix.len() ==> prefix[t] == solution@[t]);
                }
                lemma_path_len_bound(ps, prefix);
                lemma_pair_dist_bound(ps, solution@[k as int - 1] as int, solution@[k as int] as int);
                lemma_path_len_push(ps, prefix, solution@[k as int]);
                assert(prefix.push(solution@[k as int]) =~= solution@.subrange(0, k as int + 1));
            }
            let d = map.get_distance_from_points(&solution[k - 1], &solution[k]);
            length = length + d;
            k += 1;
        }
        proof {
            assert(solution@.subrange(0, len as int) =~= solution@);
        }
        if is_complete {
            proof {
                lemma_path_len_bound(ps, solution@);
                lemma_pair_dist_bound(ps, solution@[len - 1] as int, solution@[0] as int);
            }
            let closing = map.get_distance_from_points(
                &solution[len - 1],
                &solution[0],
            );
            length = length + closing;
        }
    }
    (length, is_complete)
}

} // verus!
