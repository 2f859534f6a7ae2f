use vstd::prelude::*;

use rayon::slice::ParallelSliceMut;

use crate::branch_bound::{lemma_opt_le_rooted_tour, min_int, opt_tour_len};
use crate::distance_map::{pair_dist, DistanceMap, MAX_DIST};
use crate::point::{Point, MAX_POINTS};
use crate::priority_queue_structs::{
    lemma_root_count_at_least_one, lemma_root_props, root_count, root_of, same_root, Branch,
    DisjointSet, Edge,
};
use crate::solution::Solution;
use crate::tour::{
    complete_route, get_solution_length, lemma_path_len_bound, lemma_tour_len_bound, path_len,
    route_in_range, tour_len, valid_partial_route,
};

verus! {

/// Every edge of `es` joins two distinct members of `s`.
pub open spec fn edges_within(es: Seq<(u32, u32)>, s: Seq<u32>) -> bool {
    forall|t: int|
        0 <= t < es.len() ==> s.contains((#[trigger] es[t]).0) && s.contains(es[t].1) && es[t].0
            != es[t].1
}

/// The summed cached distance over a list of index pairs.
pub open spec fn sum_pair_dists(ps: Seq<Point>, es: Seq<(u32, u32)>) -> int
    decreases es.len(),
{
    if es.len() == 0 {
        0
    } else {
        sum_pair_dists(ps, es.drop_last()) + pair_dist(
            ps,
            es[es.len() - 1].0 as int,
            es[es.len() - 1].1 as int,
        )
    }
}

proof fn lemma_sum_pair_dists_push(ps: Seq<Point>, es: Seq<(u32, u32)>, e: (u32, u32))
    ensures
        sum_pair_dists(ps, es.push(e)) == sum_pair_dists(ps, es) + pair_dist(
            ps,
            e.0 as int,
            e.1 as int,
        ),
{
    assert(es.push(e).drop_last() =~= es);
    assert(es.push(e)[es.push(e).len() - 1] == e);
}

/// The identity forest: every index its own component.
pub open spec fn identity_parents(n: int) -> Seq<u32> {
    Seq::new(
        if n >= 0 {
            n as nat
        } else {
            0
        },
        |t: int| t as u32,
    )
}

/// Every index of the point set, in order.
pub open spec fn all_indices(n: int) -> Seq<u32> {
    Seq::new(
        if n >= 0 {
            n as nat
        } else {
            0
        },
        |t: int| t as u32,
    )
}

/// A complete ascending-by-distance listing of the unordered pairs of `s`:
/// the edge order Kruskal's algorithm consumes.  Each pair of distinct
/// members appears exactly once, in one orientation.
pub open spec fn valid_sorted_pairs(ps: Seq<Point>, es: Seq<(u32, u32)>, s: Seq<u32>) -> bool {
    &&& edges_within(es, s)
    &&& es.no_duplicates()
    &&& forall|t1: int, t2: int|
        0 <= t1 < t2 < es.len() ==> !((#[trigger] es[t1]).0 == (#[trigger] es[t2]).1 && es[t1].1
            == es[t2].0)
    &&& forall|i: int, j: int|
        #![trigger s[i], s[j]]
        0 <= i < j < s.len() && s[i] != s[j] ==> es.contains((s[i], s[j])) || es.contains(
            (s[j], s[i]),
        )
    &&& forall|t1: int, t2: int|
        0 <= t1 <= t2 < es.len() ==> pair_dist(ps, (#[trigger] es[t1]).0 as int, es[t1].1 as int)
            <= pair_dist(ps, (#[trigger] es[t2]).0 as int, es[t2].1 as int)
}

/// Kruskal's pass at the specification level: consume the listed edges in
/// order from position `i`, merge the endpoints' components whenever their
/// representatives differ (pointing the larger representative at the
/// smaller, exactly as the disjoint set does), and accumulate the weight of
/// every merging edge.
pub open spec fn kruskal_fold(ps: Seq<Point>, es: Seq<(u32, u32)>, i: int, q: Seq<u32>) -> int
    decreases es.len() - i,
{
    if i < 0 || i >= es.len() {
        0
    } else {
        let rx = root_of(q, es[i].0 as int);
        let ry = root_of(q, es[i].1 as int);
        if rx != ry {
            pair_dist(ps, es[i].0 as int, es[i].1 as int) + kruskal_fold(
                ps,
                es,
                i + 1,
                q.update(
                    if rx <= ry {
                        ry
                    } else {
                        rx
                    },
                    (if rx <= ry {
                        rx
                    } else {
                        ry
                    }) as u32,
                ),
            )
        } else {
            kruskal_fold(ps, es, i + 1, q)
        }
    }
}

/// A value sitting at two positions is counted at least twice.
proof fn lemma_dup_indices_count<A>(s: Seq<A>, t1: int, t2: int)
    requires
        0 <= t1 < t2 < s.len(),
        s[t1] == s[t2],
    ensures
        s.to_multiset().count(s[t1]) >= 2,
{
    broadcast use vstd::seq_lib::group_to_multiset_ensures;
    broadcast use vstd::multiset::group_multiset_axioms;

    let x = s[t1];
    let s2 = s.remove(t1);
    assert(s2.to_multiset() =~= s.to_multiset().remove(x));
    assert(s2[t2 - 1] == x);
    assert(s2.contains(x));
    assert(s2.to_multiset().count(x) > 0);
}

/// A value counted at least twice sits at two positions.
proof fn lemma_count_two_indices<A>(s: Seq<A>, x: A)
    requires
        s.to_multiset().count(x) >= 2,
    ensures
        exists|t1: int, t2: int| 0 <= t1 < t2 < s.len() && s[t1] == x && s[t2] == x,
{
    broadcast use vstd::seq_lib::group_to_multiset_ensures;
    broadcast use vstd::multiset::group_multiset_axioms;

    assert(s.contains(x));
    let u1 = choose|u1: int| 0 <= u1 < s.len() && s[u1] == x;
    let s2 = s.remove(u1);
    assert(s2.to_multiset() =~= s.to_multiset().remove(x));
    assert(s2.to_multiset().count(x) > 0);
    assert(s2.contains(x));
    let u2 = choose|u2: int| 0 <= u2 < s2.len() && s2[u2] == x;
    if u2 < u1 {
        assert(s[u2] == x);
        assert(0 <= u2 < u1 < s.len() && s[u2] == x && s[u1] == x);
    } else {
        assert(s[u2 + 1] == x);
        assert(0 <= u1 < u2 + 1 < s.len() && s[u1] == x && s[u2 + 1] == x);
    }
}

spec fn edge_wf(ps: Seq<Point>, s: Seq<u32>, e: Edge) -> bool {
    &&& s.contains(e.node1)
    &&& s.contains(e.node2)
    &&& e.node1 != e.node2
    &&& (e.node1 as nat) < ps.len()
    &&& (e.node2 as nat) < ps.len()
    &&& e.distance == pair_dist(ps, e.node1 as int, e.node2 as int)
    &&& e.distance < MAX_DIST
}

proof fn lemma_mul_le(a: int, b: int, c: int)
    requires
        a <= b,
        0 <= c,
    ensures
        a * c <= b * c,
{
    assert(a * c <= b * c) by (nonlinear_arith)
        requires
            a <= b,
            0 <= c,
    ;
}

/// Edge order used by the spanning-tree estimator: ascending distance.
fn cmp_edge_distance(a: &Edge, b: &Edge) -> (o: core::cmp::Ordering)
    ensures
        (o == core::cmp::Ordering::Less) == (a.distance < b.distance),
        (o == core::cmp::Ordering::Equal) == (a.distance == b.distance),
        (o == core::cmp::Ordering::Greater) == (a.distance > b.distance),
{
    if a.distance < b.distance {
        core::cmp::Ordering::Less
    } else if a.distance == b.distance {
        core::cmp::Ordering::Equal
    } else {
        core::cmp::Ordering::Greater
    }
}

/// Relies on rayon's par_sort_unstable_by: reorders the slice in place by
/// the given comparator, keeping exactly the same elements.
#[verifier::external_body]
fn sort_edges_by_distance(edges: &mut Vec<Edge>)
    ensures
        final(edges)@.len() == old(edges)@.len(),
        final(edges)@.to_multiset() == old(edges)@.to_multiset(),
        forall|t1: int, t2: int|
            0 <= t1 <= t2 < final(edges)@.len() ==> final(edges)@[t1].distance
                <= final(edges)@[t2].distance,
{
    edges.par_sort_unstable_by(|a, b| cmp_edge_distance(a, b));
}

/// Identity parents have themselves as representatives.
proof fn lemma_identity_roots(n: int)
    requires
        0 <= n <= 0xFFFF_FFFF,
    ensures
        crate::priority_queue_structs::parents_wf(identity_parents(n)),
        identity_parents(n).len() == n,
        forall|j: int| 0 <= j < n ==> root_of(identity_parents(n), j) == j,
{
    let q = identity_parents(n);
    assert(forall|j: int| 0 <= j < n ==> (#[trigger] q[j]) as int == j);
    assert forall|j: int| 0 <= j < n implies root_of(q, j) == j by {
        assert(q[j] as int == j);
    }
}

/// Kruskal's algorithm over the pairwise distances of the given index set:
/// collect the edges, sort ascending, and greedily union endpoints whose
/// components differ, accumulating the weight of every merging edge.  The
/// result is exactly the weight of one such pass over a validly sorted
/// listing of the set's pairs, which is also a sum of distances of distinct
/// pairs drawn from the set.
#[verifier::rlimit(100)]
pub fn calculate_heuristic_estimate(map: &DistanceMap, unvisited: &Vec<u32>) -> (w: u64)
    requires
        map.wf(),
        route_in_range(unvisited@, map.points@.len() as nat),
        unvisited@.no_duplicates(),
    ensures
        w as int <= map.points@.len() * MAX_DIST,
        unvisited@.len() <= 1 ==> w == 0,
        exists|es: Seq<(u32, u32)>|
            edges_within(es, unvisited@) && es.no_duplicates() && w as int == sum_pair_dists(
                map.points@,
                es,
            ),
        exists|es: Seq<(u32, u32)>|
            valid_sorted_pairs(map.points@, es, unvisited@) && w as int == kruskal_fold(
                map.points@,
                es,
                0,
                identity_parents(map.points@.len() as int),
            ),
{
    let ghost ps = map.points@;
    let ghost n = map.points@.len() as nat;
    /* Collect edges: one for every unordered pair of the set. */
    let mut edges: Vec<Edge> = Vec::new();
    let ghost mut pos: Seq<(int, int)> = Seq::empty();
    let m = unvisited.len();
    let mut a: usize = 0;
    while a < m
        invariant
            map.wf(),
            ps == map.points@,
            n == ps.len(),
            m == unvisited@.len(),
            a <= m,
            route_in_range(unvisited@, n),
            unvisited@.no_duplicates(),
            forall|t: int| 0 <= t < edges@.len() ==> edge_wf(ps, unvisited@, #[trigger] edges@[t]),
            pos.len() == edges@.len(),
            forall|t: int|
                0 <= t < pos.len() ==> 0 <= (#[trigger] pos[t]).0 < pos[t].1 < m
                    && edges@[t].node1 == unvisited@[pos[t].0] && edges@[t].node2
                    == unvisited@[pos[t].1],
            forall|t: int| 0 <= t < pos.len() ==> (#[trigger] pos[t]).0 < a,
            forall|t1: int, t2: int|
                0 <= t1 < t2 < pos.len() ==> ((#[trigger] pos[t1]).0 < (#[trigger] pos[t2]).0 || (
                pos[t1].0 == pos[t2].0 && pos[t1].1 < pos[t2].1)),
            forall|a2: int, b2: int|
                0 <= a2 < b2 < m && a2 < a ==> #[trigger] pos.contains((a2, b2)),
        decreases m - a,
    {
        let mut b: usize = a + 1;
        while b < m
            invariant
                map.wf(),
                ps == map.points@,
                n == ps.len(),
                m == unvisited@.len(),
                a < m,
                a + 1 <= b <= m,
                route_in_range(unvisited@, n),
                unvisited@.no_duplicates(),
                forall|t: int|
                    0 <= t < edges@.len() ==> edge_wf(ps, unvisited@, #[trigger] edges@[t]),
                pos.len() == edges@.len(),
                forall|t: int|
                    0 <= t < pos.len() ==> 0 <= (#[trigger] pos[t]).0 < pos[t].1 < m
                        && edges@[t].node1 == unvisited@[pos[t].0] && edges@[t].node2
                        == unvisited@[pos[t].1],
                forall|t: int|
                    0 <= t < pos.len() ==> (#[trigger] pos[t]).0 < a || (pos[t].0 == a && pos[t].1
                        < b),
                forall|t1: int, t2: int|
                    0 <= t1 < t2 < pos.len() ==> ((#[trigger] pos[t1]).0 < (#[trigger] pos[t2]).0
                        || (pos[t1].0 == pos[t2].0 && pos[t1].1 < pos[t2].1)),
                forall|a2: int, b2: int|
                    0 <= a2 < b2 < m && (a2 < a || (a2 == a && b2 < b)) ==> #[trigger] pos.contains(
                        (a2, b2),
                    ),
            decreases m - b,
        {
            let node1 = unvisited[a];
            let node2 = unvisited[b];
            let distance = map.get_distance_from_points(&node1, &node2);
            edges.push(Edge { node1, node2, distance });
            proof {
                let ghost old_pos = pos;
                pos = pos.push((a as int, b as int));
                assert(forall|t: int| 0 <= t < old_pos.len() ==> pos[t] == old_pos[t]);
                assert(pos[pos.len() - 1] == (a as int, b as int));
                assert forall|a2: int, b2: int|
                    0 <= a2 < b2 < m && (a2 < a || (a2 == a && b2 < b + 1)) implies
                    #[trigger] pos.contains((a2, b2)) by {
                    if a2 == a as int && b2 == b as int {
                        assert(pos[pos.len() - 1] == (a2, b2));
                    } else {
                        assert(old_pos.contains((a2, b2)));
                        let t = choose|t: int| 0 <= t < old_pos.len() && old_pos[t] == (a2, b2);
                        assert(pos[t] == (a2, b2));
                    }
                }
            }
            b += 1;
        }
        a += 1;
    }
    let ghost pre_sort = edges@;
    sort_edges_by_distance(&mut edges);
    proof {
        broadcast use vstd::seq_lib::group_to_multiset_ensures;

        assert forall|t: int| 0 <= t < edges@.len() implies edge_wf(
            ps,
            unvisited@,
            #[trigger] edges@[t],
        ) by {
            assert(edges@.contains(edges@[t]));
            assert(edges@.to_multiset().count(edges@[t]) > 0);
            assert(pre_sort.to_multiset().count(edges@[t]) > 0);
            assert(pre_sort.contains(edges@[t]));
            let t0 = choose|t0: int| 0 <= t0 < pre_sort.len() && pre_sort[t0] == edges@[t];
            assert(edge_wf(ps, unvisited@, pre_sort[t0]));
        }
    }
    let ghost pairs = edges@.map_values(|e: Edge| (e.node1, e.node2));
    proof {
        broadcast use vstd::seq_lib::group_to_multiset_ensures;

        assert(pairs.len() == edges@.len());
        assert(forall|t: int|
            0 <= t < pairs.len() ==> #[trigger] pairs[t] == (edges@[t].node1, edges@[t].node2));
        /* The construction listed each unordered pair once, in one
        orientation. */
        assert forall|t1: int, t2: int|
            0 <= t1 < t2 < pre_sort.len() implies pre_sort[t1] != pre_sort[t2] && !(
        pre_sort[t1].node1 == pre_sort[t2].node2 && pre_sort[t1].node2 == pre_sort[t2].node1) by {
            let p1 = pos[t1];
            let p2 = pos[t2];
            if pre_sort[t1] == pre_sort[t2] {
                assert(unvisited@[p1.0] == unvisited@[p2.0]);
                assert(p1.0 == p2.0);
                assert(unvisited@[p1.1] == unvisited@[p2.1]);
                assert(p1.1 == p2.1);
                assert(false);
            }
            if pre_sort[t1].node1 == pre_sort[t2].node2 && pre_sort[t1].node2
                == pre_sort[t2].node1 {
                assert(unvisited@[p1.0] == unvisited@[p2.1]);
                assert(p1.0 == p2.1);
                assert(unvisited@[p1.1] == unvisited@[p2.0]);
                assert(p1.1 == p2.0);
                assert(false);
            }
        }
        /* The same holds of the sorted listing, through the multiset. */
        assert forall|t1: int, t2: int|
            0 <= t1 < t2 < pairs.len() implies pairs[t1] != pairs[t2] by {
            if pairs[t1] == pairs[t2] {
                assert(edges@[t1].distance == pair_dist(
                    ps,
                    edges@[t1].node1 as int,
                    edges@[t1].node2 as int,
                ));
                assert(edges@[t1] == edges@[t2]);
                lemma_dup_indices_count(edges@, t1, t2);
                assert(pre_sort.to_multiset().count(edges@[t1]) >= 2);
                lemma_count_two_indices(pre_sort, edges@[t1]);
                let (u1, u2) = choose|u1: int, u2: int|
                    0 <= u1 < u2 < pre_sort.len() && pre_sort[u1] == edges@[t1] && pre_sort[u2]
                        == edges@[t1];
                assert(false);
            }
        }
        assert forall|t1: int, t2: int|
            0 <= t1 < t2 < pairs.len() implies !(pairs[t1].0 == pairs[t2].1 && pairs[t1].1
            == pairs[t2].0) by {
            if pairs[t1].0 == pairs[t2].1 && pairs[t1].1 == pairs[t2].0 {
                let e1 = edges@[t1];
                let e2 = edges@[t2];
                assert(e1.node1 != e1.node2);
                assert(e1 != e2);
                assert(edges@.contains(e1) && edges@.contains(e2));
                assert(pre_sort.to_multiset().count(e1) > 0);
                assert(pre_sort.to_multiset().count(e2) > 0);
                assert(pre_sort.contains(e1) && pre_sort.contains(e2));
                let u1 = choose|u1: int| 0 <= u1 < pre_sort.len() && pre_sort[u1] == e1;
                let u2 = choose|u2: int| 0 <= u2 < pre_sort.len() && pre_sort[u2] == e2;
                assert(u1 != u2);
                if u1 < u2 {
                    assert(pre_sort[u1].node1 == pre_sort[u2].node2 && pre_sort[u1].node2
                        == pre_sort[u2].node1);
                } else {
                    assert(pre_sort[u2].node1 == pre_sort[u1].node2 && pre_sort[u2].node2
                        == pre_sort[u1].node1);
                }
                assert(false);
            }
        }
        assert forall|i: int, j: int|
            #![trigger unvisited@[i], unvisited@[j]]
            0 <= i < j < m && unvisited@[i] != unvisited@[j] implies pairs.contains(
            (unvisited@[i], unvisited@[j]),
        ) || pairs.contains((unvisited@[j], unvisited@[i])) by {
            assert(pos.contains((i, j)));
            let t = choose|t: int| 0 <= t < pos.len() && pos[t] == (i, j);
            let e = pre_sort[t];
            assert(e.node1 == unvisited@[i] && e.node2 == unvisited@[j]);
            assert(pre_sort.contains(e));
            assert(pre_sort.to_multiset().count(e) > 0);
            assert(edges@.to_multiset().count(e) > 0);
            assert(edges@.contains(e));
            let t2 = choose|t2: int| 0 <= t2 < edges@.len() && edges@[t2] == e;
            assert(pairs[t2] == (unvisited@[i], unvisited@[j]));
        }
        assert forall|i: int, j: int|
            #![trigger unvisited@[i], unvisited@[j]]
            0 <= i < j < unvisited@.len() && unvisited@[i] != unvisited@[j] implies pairs.contains(
            (unvisited@[i], unvisited@[j]),
        ) || pairs.contains((unvisited@[j], unvisited@[i])) by {}
        assert forall|t: int| 0 <= t < pairs.len() implies unvisited@.contains(
            (#[trigger] pairs[t]).0,
        ) && unvisited@.contains(pairs[t].1) && pairs[t].0 != pairs[t].1 by {
            assert(edge_wf(ps, unvisited@, edges@[t]));
        }
        assert(valid_sorted_pairs(ps, pairs, unvisited@)) by {
            assert(edges_within(pairs, unvisited@));
            assert forall|t1: int, t2: int|
                0 <= t1 <= t2 < pairs.len() implies pair_dist(
                ps,
                (#[trigger] pairs[t1]).0 as int,
                pairs[t1].1 as int,
            ) <= pair_dist(ps, (#[trigger] pairs[t2]).0 as int, pairs[t2].1 as int) by {
                assert(edge_wf(ps, unvisited@, edges@[t1]));
                assert(edge_wf(ps, unvisited@, edges@[t2]));
                assert(edges@[t1].distance <= edges@[t2].distance);
            }
        }
    }
    /* Create the spanning forest using the disjoint set. */
    let n_exec = map.point_count();
    let mut ds = DisjointSet::new(n_exec);
    let mut mst_weight: u64 = 0;
    let ghost mut acc: Seq<(u32, u32)> = Seq::empty();
    let ghost mut q: Seq<u32> = identity_parents(n as int);
    let mut accepted_count: usize = 0;
    let mut idx: usize = 0;
    proof {
        assert(sum_pair_dists(ps, acc) == 0);
        lemma_identity_roots(n as int);
    }
    while idx < edges.len()
        invariant
            map.wf(),
            ps == map.points@,
            n == ps.len(),
            n == n_exec,
            n <= MAX_POINTS,
            idx <= edges@.len(),
            forall|t: int| 0 <= t < edges@.len() ==> edge_wf(ps, unvisited@, #[trigger] edges@[t]),
            pairs.len() == edges@.len(),
            forall|t: int|
                0 <= t < pairs.len() ==> #[trigger] pairs[t] == (edges@[t].node1, edges@[t].node2),
            ds.wf(),
            crate::priority_queue_structs::parents_wf(ds.parents()),
            ds.parents().len() == n,
            crate::priority_queue_structs::parents_wf(q),
            q.len() == n,
            forall|j: int| 0 <= j < n ==> #[trigger] root_of(ds.parents(), j) == root_of(q, j),
            kruskal_fold(ps, pairs, 0, identity_parents(n as int)) == mst_weight + kruskal_fold(
                ps,
                pairs,
                idx as int,
                q,
            ),
            edges_within(acc, unvisited@),
            forall|t: int|
                0 <= t < acc.len() ==> ((#[trigger] acc[t]).0 as nat) < n && ((acc[t]).1 as nat)
                    < n,
            acc.no_duplicates(),
            acc.len() == accepted_count,
            acc.len() <= idx,
            accepted_count as int == n - root_count(ds.parents()),
            mst_weight as int == sum_pair_dists(ps, acc),
            mst_weight as int <= acc.len() * MAX_DIST,
            forall|t: int|
                0 <= t < acc.len() ==> same_root(
                    ds.parents(),
                    (#[trigger] acc[t]).0 as int,
                    acc[t].1 as int,
                ),
        decreases edges@.len() - idx,
    {
        let ghost p_before = ds.parents();
        let node1 = edges[idx].node1;
        let node2 = edges[idx].node2;
        let dist = edges[idx].distance;
        let x = ds.find(node1);
        let ghost p_mid = ds.parents();
        let y = ds.find(node2);
        let ghost p_now = ds.parents();
        proof {
            assert(root_of(p_now, node1 as int) == root_of(p_before, node1 as int));
            assert(root_of(p_mid, node2 as int) == root_of(p_before, node2 as int));
            assert(root_of(p_now, node2 as int) == root_of(p_mid, node2 as int));
            assert(x as int == root_of(p_now, node1 as int));
            assert(y as int == root_of(p_now, node2 as int));
            lemma_root_props(p_now, node1 as int);
            lemma_root_props(p_now, node2 as int);
            assert(p_now[x as int] as int == x as int);
            assert(p_now[y as int] as int == y as int);
            assert(root_of(p_now, x as int) == x as int);
            assert(root_of(p_now, y as int) == y as int);
            assert forall|j: int| 0 <= j < n implies #[trigger] root_of(p_now, j) == root_of(
                q,
                j,
            ) by {
                assert(root_of(p_mid, j) == root_of(p_before, j));
                assert(root_of(p_now, j) == root_of(p_mid, j));
                assert(root_of(p_before, j) == root_of(q, j));
            }
            assert forall|t: int| 0 <= t < acc.len() implies same_root(
                p_now,
                (#[trigger] acc[t]).0 as int,
                acc[t].1 as int,
            ) by {
                let v0 = acc[t].0;
                let v1 = acc[t].1;
                assert(root_of(p_mid, v0 as int) == root_of(p_before, v0 as int));
                assert(root_of(p_now, v0 as int) == root_of(p_mid, v0 as int));
                assert(root_of(p_mid, v1 as int) == root_of(p_before, v1 as int));
                assert(root_of(p_now, v1 as int) == root_of(p_mid, v1 as int));
                assert(same_root(p_before, v0 as int, v1 as int));
            }
            /* The specification fold sees the same representatives. */
            assert(root_of(q, node1 as int) == x as int);
            assert(root_of(q, node2 as int) == y as int);
            lemma_root_props(q, node1 as int);
            lemma_root_props(q, node2 as int);
            assert(q[x as int] as int == x as int);
            assert(q[y as int] as int == y as int);
        }
        if x != y {
            let ghost big: int = if x <= y {
                y as int
            } else {
                x as int
            };
            let ghost small: int = if x <= y {
                x as int
            } else {
                y as int
            };
            proof {
                assert(!same_root(p_now, node1 as int, node2 as int));
                lemma_root_count_at_least_one(p_now, n as int);
                lemma_mul_le(acc.len() as int, n as int - 1, MAX_DIST as int);
                lemma_sum_pair_dists_push(ps, acc, (node1, node2));
                assert forall|t: int| 0 <= t < acc.len() implies acc[t] != (node1, node2) by {
                    assert(same_root(p_now, (acc[t]).0 as int, (acc[t]).1 as int));
                }
                lemma_mul_le(acc.len() as int + 1, n as int, MAX_DIST as int);
                assert(kruskal_fold(ps, pairs, idx as int, q) == pair_dist(
                    ps,
                    node1 as int,
                    node2 as int,
                ) + kruskal_fold(ps, pairs, idx as int + 1, q.update(big, small as u32)));
            }
            mst_weight = mst_weight + dist;
            ds.union(x, y);
            proof {
                let p_after = ds.parents();
                assert(!same_root(p_now, x as int, y as int));
                assert(same_root(p_now, node1 as int, x as int));
                assert(same_root(p_now, node2 as int, y as int));
                assert(same_root(p_after, node1 as int, node2 as int));
                assert forall|t: int| 0 <= t < acc.len() implies same_root(
                    p_after,
                    (#[trigger] acc[t]).0 as int,
                    acc[t].1 as int,
                ) by {
                    assert(same_root(p_now, (acc[t]).0 as int, (acc[t]).1 as int));
                }
                acc = acc.push((node1, node2));
                assert(forall|t: int|
                    0 <= t < acc.len() - 1 ==> #[trigger] acc[t] == acc.drop_last()[t]);
                /* The executable union and the specification fold link the
                same roots the same way. */
                let q2 = q.update(big, small as u32);
                assert forall|j: int| 0 <= j < n implies root_of(q2, j) == (if root_of(q, j) == big {
                    small
                } else {
                    root_of(q, j)
                }) by {
                    crate::priority_queue_structs::lemma_root_link_pub(q, big, small, j);
                }
                crate::priority_queue_structs::lemma_root_link_pub(q, big, small, 0);
                assert forall|j: int| 0 <= j < n implies #[trigger] root_of(p_after, j)
                    == root_of(q2, j) by {
                    assert(root_of(p_after, j) == (if same_root(p_now, j, x as int) || same_root(
                        p_now,
                        j,
                        y as int,
                    ) {
                        if root_of(p_now, x as int) <= root_of(p_now, y as int) {
                            root_of(p_now, x as int)
                        } else {
                            root_of(p_now, y as int)
                        }
                    } else {
                        root_of(p_now, j)
                    }));
                    assert(root_of(p_now, j) == root_of(q, j));
                }
                q = q2;
            }
            accepted_count += 1;
        } else {
            proof {
                assert(kruskal_fold(ps, pairs, idx as int, q) == kruskal_fold(
                    ps,
                    pairs,
                    idx as int + 1,
                    q,
                ));
            }
        }
        idx += 1;
    }
    proof {
        if unvisited@.len() <= 1 {
            assert(edges@.len() == 0) by {
                if edges@.len() > 0 {
                    let e = edges@[0];
                    assert(edge_wf(ps, unvisited@, e));
                    let t1 = choose|t: int| 0 <= t < unvisited@.len() && unvisited@[t] == e.node1;
                    let t2 = choose|t: int| 0 <= t < unvisited@.len() && unvisited@[t] == e.node2;
                    assert(t1 == 0 && t2 == 0);
                }
            }
            assert(acc.len() == 0);
            assert(sum_pair_dists(ps, acc) == 0);
        }
        if n >= 1 {
            lemma_root_count_at_least_one(ds.parents(), n as int);
        }
        lemma_mul_le(acc.len() as int, n as int, MAX_DIST as int);
        assert(kruskal_fold(ps, pairs, idx as int, q) == 0);
        assert(mst_weight as int == kruskal_fold(ps, pairs, 0, identity_parents(n as int)));
        assert(valid_sorted_pairs(ps, pairs, unvisited@));
    }
    mst_weight
}

/// The spanning-tree estimate over the whole point set, used to seed the
/// root branch of the priority-queue search.
pub fn get_heuristic_kruskals(map: &DistanceMap) -> (w: u64)
    requires
        map.wf(),
    ensures
        w as int <= map.points@.len() * MAX_DIST,
        map.points@.len() <= 1 ==> w == 0,
        exists|es: Seq<(u32, u32)>|
            (forall|t: int|
                0 <= t < es.len() ==> ((#[trigger] es[t]).0 as int) < map.points@.len() && (
                es[t].1 as int) < map.points@.len() && es[t].0 != es[t].1) && es.no_duplicates()
                && w as int == sum_pair_dists(map.points@, es),
        exists|es: Seq<(u32, u32)>|
            valid_sorted_pairs(map.points@, es, all_indices(map.points@.len() as int)) && w as int
                == kruskal_fold(map.points@, es, 0, identity_parents(map.points@.len() as int)),
{
    let n_exec = map.point_count();
    let mut all_nodes: Vec<u32> = Vec::new();
    let mut t: usize = 0;
    while t < n_exec
        invariant
            map.wf(),
            n_exec == map.points@.len(),
            n_exec <= MAX_POINTS,
            t <= n_exec,
            all_nodes@.len() == t,
            forall|j: int| 0 <= j < t ==> (#[trigger] all_nodes@[j]) as int == j,
        decreases n_exec - t,
    {
        all_nodes.push(t as u32);
        t += 1;
    }
    proof {
        assert(route_in_range(all_nodes@, map.points@.len() as nat));
        assert(all_nodes@.no_duplicates());
    }
    let w = calculate_heuristic_estimate(map, &all_nodes);
    proof {
        assert(all_nodes@ =~= all_indices(map.points@.len() as int));
        let es = choose|es: Seq<(u32, u32)>|
            edges_within(es, all_nodes@) && es.no_duplicates() && w as int == sum_pair_dists(
                map.points@,
                es,
            );
        assert forall|t: int| 0 <= t < es.len() implies ((#[trigger] es[t]).0 as int)
            < map.points@.len() && (es[t].1 as int) < map.points@.len() && es[t].0 != es[t].1 by {
            assert(all_nodes@.contains(es[t].0));
            assert(all_nodes@.contains(es[t].1));
            let u0 = choose|u: int| 0 <= u < all_nodes@.len() && all_nodes@[u] == es[t].0;
            let u1 = choose|u: int| 0 <= u < all_nodes@.len() && all_nodes@[u] == es[t].1;
            assert(all_nodes@[u0] == es[t].0);
            assert(all_nodes@[u1] == es[t].1);
        }
    }
    w
}

/// The indices below `m` that the route has not visited, in ascending
/// order: the unvisited set of a partial route.
pub open spec fn asc_complement(route: Seq<u32>, m: int) -> Seq<u32>
    decreases m,
{
    if m <= 0 {
        Seq::empty()
    } else {
        asc_complement(route, m - 1) + if route.contains((m - 1) as u32) {
            Seq::empty()
        } else {
            seq![(m - 1) as u32]
        }
    }
}

proof fn lemma_asc_complement_props(route: Seq<u32>, m: int)
    requires
        m <= 0x1_0000_0000,
    ensures
        forall|t1: int, t2: int|
            0 <= t1 < t2 < asc_complement(route, m).len() ==> asc_complement(route, m)[t1]
                < asc_complement(route, m)[t2],
        forall|v: u32|
            asc_complement(route, m).contains(v) <==> ((v as int) < m && !route.contains(v)),
        forall|t: int|
            0 <= t < asc_complement(route, m).len() ==> (#[trigger] asc_complement(route, m)[t]
                as int) < m,
    decreases m,
{
    if m > 0 {
        lemma_asc_complement_props(route, m - 1);
        let prev = asc_complement(route, m - 1);
        let cur = asc_complement(route, m);
        assert forall|v: u32| cur.contains(v) implies ((v as int) < m && !route.contains(
            v,
        )) by {
            let t = choose|t: int| 0 <= t < cur.len() && cur[t] == v;
            if t < prev.len() {
                assert(prev[t] == v);
                assert(prev.contains(v));
            }
        }
        assert forall|v: u32| (v as int) < m && !route.contains(v) implies cur.contains(v) by {
            if (v as int) < m - 1 {
                assert(prev.contains(v));
                let t = choose|t: int| 0 <= t < prev.len() && prev[t] == v;
                assert(cur[t] == v);
            } else {
                assert(v as int == m - 1);
                assert(cur[cur.len() - 1] == v);
            }
        }
    }
}

/// Two strictly increasing sequences over the same values are the same
/// sequence.
proof fn lemma_increasing_unique(a: Seq<u32>, b: Seq<u32>)
    requires
        forall|t1: int, t2: int| 0 <= t1 < t2 < a.len() ==> a[t1] < a[t2],
        forall|t1: int, t2: int| 0 <= t1 < t2 < b.len() ==> b[t1] < b[t2],
        forall|v: u32| a.contains(v) <==> b.contains(v),
    ensures
        a =~= b,
    decreases a.len(),
{
    if a.len() == 0 {
        if b.len() > 0 {
            assert(b.contains(b[0]));
            assert(a.contains(b[0]));
            let t = choose|t: int| 0 <= t < a.len() && a[t] == b[0];
            assert(false);
        }
    } else {
        assert(a.contains(a[0]));
        assert(b.contains(a[0]));
        let ib = choose|t: int| 0 <= t < b.len() && b[t] == a[0];
        assert(b.contains(b[0]));
        assert(a.contains(b[0]));
        let ia = choose|t: int| 0 <= t < a.len() && a[t] == b[0];
        assert(a[0] == b[0]);
        let a2 = a.drop_first();
        let b2 = b.drop_first();
        assert(forall|t: int| 0 <= t < a2.len() ==> a2[t] == a[t + 1]);
        assert(forall|t: int| 0 <= t < b2.len() ==> b2[t] == b[t + 1]);
        assert forall|v: u32| a2.contains(v) implies b2.contains(v) by {
            let t = choose|t: int| 0 <= t < a2.len() && a2[t] == v;
            assert(a[t + 1] == v);
            assert(a.contains(v));
            assert(a[0] < v);
            assert(b.contains(v));
            let tb = choose|tb: int| 0 <= tb < b.len() && b[tb] == v;
            assert(tb != 0);
            assert(b2[tb - 1] == v);
        }
        assert forall|v: u32| b2.contains(v) implies a2.contains(v) by {
            let t = choose|t: int| 0 <= t < b2.len() && b2[t] == v;
            assert(b[t + 1] == v);
            assert(b.contains(v));
            assert(b[0] < v);
            assert(a.contains(v));
            let ta = choose|ta: int| 0 <= ta < a.len() && a[ta] == v;
            assert(ta != 0);
            assert(a2[ta - 1] == v);
        }
        lemma_increasing_unique(a2, b2);
        assert(a.len() == b.len());
        assert forall|t: int| 0 <= t < a.len() implies a[t] == b[t] by {
            if t > 0 {
                assert(a[t] == a2[t - 1]);
                assert(b[t] == b2[t - 1]);
            }
        }
    }
}

/// Extending a route by one unvisited stop removes exactly that stop from
/// its ascending unvisited set.
proof fn lemma_asc_complement_child(route: Seq<u32>, u: u32, n: int, k: int)
    requires
        0 <= n <= 0x1_0000_0000,
        !route.contains(u),
        (u as int) < n,
        0 <= k < asc_complement(route, n).len(),
        asc_complement(route, n)[k] == u,
    ensures
        asc_complement(route, n).remove(k) =~= asc_complement(route.push(u), n),
{
    lemma_asc_complement_props(route, n);
    lemma_asc_complement_props(route.push(u), n);
    let todo = asc_complement(route, n);
    let a = todo.remove(k);
    let b = asc_complement(route.push(u), n);
    assert forall|v: u32| route.push(u).contains(v) <==> (route.contains(v) || v == u) by {
        if route.push(u).contains(v) {
            let t = choose|t: int| 0 <= t < route.push(u).len() && route.push(u)[t] == v;
            if t < route.len() {
                assert(route[t] == v);
            }
        }
        if route.contains(v) {
            let t = choose|t: int| 0 <= t < route.len() && route[t] == v;
            assert(route.push(u)[t] == v);
        }
        if v == u {
            assert(route.push(u)[route.len() as int] == v);
        }
    }
    assert(forall|t: int|
        0 <= t < a.len() ==> a[t] == (if t < k {
            todo[t]
        } else {
            todo[t + 1]
        }));
    assert forall|t1: int, t2: int| 0 <= t1 < t2 < a.len() implies a[t1] < a[t2] by {}
    assert forall|v: u32| a.contains(v) implies b.contains(v) by {
        let t = choose|t: int| 0 <= t < a.len() && a[t] == v;
        let tt = if t < k {
            t
        } else {
            t + 1
        };
        assert(todo[tt] == v);
        assert(todo.contains(v));
        assert(v != u) by {
            if v == u {
                assert(todo[tt] == todo[k]);
                assert(tt != k);
                if tt < k {
                    assert(todo[tt] < todo[k]);
                } else {
                    assert(todo[k] < todo[tt]);
                }
            }
        }
        assert((v as int) < n && !route.contains(v));
        assert(!route.push(u).contains(v));
        assert(b.contains(v));
    }
    assert forall|v: u32| b.contains(v) implies a.contains(v) by {
        assert((v as int) < n && !route.push(u).contains(v));
        assert(!route.contains(v) && v != u);
        assert(todo.contains(v));
        let t = choose|t: int| 0 <= t < todo.len() && todo[t] == v;
        assert(t != k);
        if t < k {
            assert(a[t] == v);
        } else {
            assert(a[t - 1] == v);
        }
    }
    lemma_increasing_unique(a, b);
}

/// A complete route leaves nothing unvisited.
proof fn lemma_asc_complement_complete(route: Seq<u32>, n: int)
    requires
        0 <= n <= 0x1_0000_0000,
        complete_route(route, n as nat),
    ensures
        asc_complement(route, n) =~= Seq::empty(),
{
    lemma_asc_complement_props(route, n);
    crate::tour::lemma_complete_route_counts(route, n as nat);
    let c = asc_complement(route, n);
    if c.len() > 0 {
        let v = c[0];
        assert(c.contains(v));
        assert((v as int) < n && !route.contains(v));
    }
}

/// The root's unvisited set is every index after 0, in order.
proof fn lemma_asc_complement_root(n: int)
    requires
        1 <= n <= 0x1_0000_0000,
    ensures
        asc_complement(seq![0u32], n) =~= crate::branch_bound::full_todo(n as nat),
{
    lemma_asc_complement_props(seq![0u32], n);
    let f = crate::branch_bound::full_todo(n as nat);
    assert(forall|t: int| 0 <= t < f.len() ==> f[t] == (t + 1) as u32);
    assert forall|v: u32| f.contains(v) implies ((v as int) < n && !seq![0u32].contains(v)) by {
        let t = choose|t: int| 0 <= t < f.len() && f[t] == v;
        assert(v as int == t + 1);
    }
    assert forall|v: u32| ((v as int) < n && !seq![0u32].contains(v)) implies f.contains(v) by {
        assert(seq![0u32][0] == 0u32);
        assert(seq![0u32].contains(0u32));
        assert(v != 0);
        assert(f[v as int - 1] == v);
    }
    assert forall|t1: int, t2: int| 0 <= t1 < t2 < f.len() implies f[t1] < f[t2] by {}
    lemma_increasing_unique(asc_complement(seq![0u32], n), f);
}

/// The minimum over the remaining next-stop choices is attained by one of
/// them.
proof fn lemma_best_ext_from_attained(ps: Seq<Point>, route: Seq<u32>, todo: Seq<u32>, k: int)
    requires
        0 <= k < todo.len(),
    ensures
        exists|c: int|
            k <= c < todo.len() && crate::branch_bound::best_ext_from(ps, route, todo, k)
                == crate::branch_bound::best_ext(ps, route.push(todo[c]), todo.remove(c)),
    decreases todo.len() - k,
{
    if k == todo.len() - 1 {
        assert(crate::branch_bound::best_ext_from(ps, route, todo, k)
            == crate::branch_bound::best_ext(ps, route.push(todo[k]), todo.remove(k)));
    } else {
        let child = crate::branch_bound::best_ext(ps, route.push(todo[k]), todo.remove(k));
        if crate::branch_bound::best_ext_from(ps, route, todo, k) == child {
        } else {
            lemma_best_ext_from_attained(ps, route, todo, k + 1);
        }
    }
}

/// What a queued branch can still achieve: the best completion over its
/// unvisited set.
pub open spec fn branch_future(ps: Seq<Point>, b: Branch, n: int) -> int {
    crate::branch_bound::best_ext(ps, b.route@, asc_complement(b.route@, n))
}

/// A queue entry is well formed: a duplicate-free partial route rooted at 0
/// whose cached cost is the true path cost (the full round trip once the
/// route is complete), and an in-bounds estimate.
pub open spec fn branch_wf(ps: Seq<Point>, b: Branch) -> bool {
    &&& valid_partial_route(b.route@, ps.len() as nat)
    &&& 1 <= b.route@.len() <= ps.len()
    &&& b.route@[0] == 0
    &&& b.total_distance == if b.route@.len() == ps.len() {
        tour_len(ps, b.route@)
    } else {
        path_len(ps, b.route@)
    }
    &&& b.heuristic_estimate as int <= ps.len() * MAX_DIST
}

/// An upper bound on how much work a branch with `k` unvisited nodes can
/// still put on the queue, itself included.
spec fn tree_size(k: nat) -> nat
    decreases k,
{
    if k == 0 {
        1
    } else {
        1 + k * tree_size((k - 1) as nat)
    }
}

spec fn queue_measure(ps: Seq<Point>, q: Seq<Branch>) -> nat
    decreases q.len(),
{
    if q.len() == 0 {
        0
    } else {
        queue_measure(ps, q.drop_last()) + tree_size(
            (ps.len() - q[q.len() - 1].route@.len()) as nat,
        )
    }
}

proof fn lemma_queue_measure_push(ps: Seq<Point>, q: Seq<Branch>, b: Branch)
    ensures
        queue_measure(ps, q.push(b)) == queue_measure(ps, q) + tree_size(
            (ps.len() - b.route@.len()) as nat,
        ),
{
    assert(q.push(b).drop_last() =~= q);
    assert(q.push(b)[q.push(b).len() - 1] == b);
}

proof fn lemma_queue_measure_remove(ps: Seq<Point>, q: Seq<Branch>, m: int)
    requires
        0 <= m < q.len(),
    ensures
        queue_measure(ps, q.remove(m)) == queue_measure(ps, q) - tree_size(
            (ps.len() - q[m].route@.len()) as nat,
        ),
    decreases q.len(),
{
    if m == q.len() - 1 {
        assert(q.remove(m) =~= q.drop_last());
    } else {
        lemma_queue_measure_remove(ps, q.drop_last(), m);
        assert(q.remove(m).drop_last() =~= q.drop_last().remove(m));
        assert(q.remove(m)[q.remove(m).len() - 1] == q[q.len() - 1]);
        assert(q.drop_last()[m] == q[m]);
    }
}

/// How many indices below `m` the route has not visited.
spec fn count_absent(route: Seq<u32>, m: int) -> int
    decreases m,
{
    if m <= 0 {
        0
    } else {
        count_absent(route, m - 1) + if route.contains((m - 1) as u32) {
            0int
        } else {
            1int
        }
    }
}

proof fn lemma_count_absent_push(route: Seq<u32>, x: u32, m: int)
    requires
        !route.contains(x),
        m <= 0x1_0000_0000,
    ensures
        count_absent(route.push(x), m) == count_absent(route, m) - if 0 <= (x as int) < m {
            1int
        } else {
            0int
        },
    decreases m,
{
    if m > 0 {
        lemma_count_absent_push(route, x, m - 1);
        let r2 = route.push(x);
        assert forall|v: u32| r2.contains(v) implies route.contains(v) || v == x by {
            let t = choose|t: int| 0 <= t < r2.len() && r2[t] == v;
            if t < route.len() {
                assert(route[t] == v);
            }
        }
        assert forall|v: u32| route.contains(v) implies r2.contains(v) by {
            let t = choose|t: int| 0 <= t < route.len() && route[t] == v;
            assert(r2[t] == v);
        }
        assert(r2.contains(x)) by {
            assert(r2[route.len() as int] == x);
        }
    }
}

proof fn lemma_count_absent_full(route: Seq<u32>, n: int)
    requires
        route.no_duplicates(),
        route_in_range(route, n as nat),
        0 <= n <= 0x1_0000_0000,
    ensures
        count_absent(route, n) == n - route.len(),
    decreases route.len(),
{
    if route.len() == 0 {
        lemma_count_absent_empty(route, n);
    } else {
        let prefix = route.drop_last();
        let x = route[route.len() - 1];
        assert(route =~= prefix.push(x));
        assert(!prefix.contains(x)) by {
            if prefix.contains(x) {
                let t = choose|t: int| 0 <= t < prefix.len() && prefix[t] == x;
                assert(route[t] == x);
            }
        }
        assert(prefix.no_duplicates()) by {
            assert(forall|t: int| 0 <= t < prefix.len() ==> prefix[t] == route[t]);
        }
        assert(route_in_range(prefix, n as nat)) by {
            assert(forall|t: int| 0 <= t < prefix.len() ==> prefix[t] == route[t]);
        }
        lemma_count_absent_full(prefix, n);
        lemma_count_absent_push(prefix, x, n);
        assert(route.contains(x));
        assert(0 <= (x as int) < n);
    }
}

proof fn lemma_count_absent_empty(route: Seq<u32>, m: int)
    requires
        route.len() == 0,
    ensures
        count_absent(route, m) == if m >= 0 {
            m
        } else {
            0int
        },
    decreases m,
{
    if m > 0 {
        lemma_count_absent_empty(route, m - 1);
    }
}

/// Whether the route already visits the index.
fn route_contains(route: &Vec<u32>, x: u32) -> (r: bool)
    ensures
        r == route@.contains(x),
{
    let mut t: usize = 0;
    let mut found = false;
    while t < route.len()
        invariant
            t <= route@.len(),
            found == exists|j: int| 0 <= j < t && route@[j] == x,
        decreases route@.len() - t,
    {
        if route[t] == x {
            found = true;
            proof {
                assert(route@[t as int] == x);
            }
        }
        t += 1;
    }
    found
}

/// Copies a route.
fn clone_route(route: &Vec<u32>) -> (r: Vec<u32>)
    ensures
        r@ == route@,
{
    let r = route.clone();
    proof {
        assert(r@ =~= route@);
    }
    r
}

/// Priority-queue (best-first) branch and bound: expand the most promising
/// partial tour first.  The spanning-tree estimate steers the expansion
/// order; a child is discarded on the bound comparison alone, so every
/// discard is provably sound.  Returns the optimal tour whenever the
/// optimum beats the input bound, and the empty solution otherwise.
pub fn parallel_priority_queue_bnb(map: &DistanceMap, bssf_input: &mut u64) -> (s: Solution)
    requires
        map.wf(),
        1 <= map.points@.len(),
    ensures
        *final(bssf_input) == *old(bssf_input),
        s.route@.len() == 0 ==> s.distance == 0,
        s.route@.len() != 0 ==> complete_route(s.route@, map.points@.len() as nat) && s.route@[0]
            == 0 && s.distance == tour_len(map.points@, s.route@) && s.distance < *old(bssf_input)
            && opt_tour_len(map.points@) <= s.distance as int,
        opt_tour_len(map.points@) < *old(bssf_input) as int ==> s.route@.len() != 0
            && s.distance as int == opt_tour_len(map.points@),
        opt_tour_len(map.points@) >= *old(bssf_input) as int ==> s.route@.len() == 0,
{
    let ghost ps = map.points@;
    let ghost n = map.points@.len() as nat;
    let ghost bssf0 = *bssf_input;
    let ghost opt = opt_tour_len(ps);
    let n_exec = map.point_count();
    let mut best_solution = Solution::new();
    let mut bssf: u64 = *bssf_input;
    let mut queue: Vec<Branch> = Vec::new();
    let initial_estimate: u64 = get_heuristic_kruskals(map);
    let mut root_route: Vec<u32> = Vec::new();
    root_route.push(0);
    proof {
        assert(root_route@ =~= seq![0u32]);
        assert(path_len(ps, root_route@) == 0);
        if n == 1 {
            assert(tour_len(ps, root_route@) == 0);
        }
    }
    let root_branch = Branch {
        route: root_route,
        total_distance: 0,
        heuristic_estimate: initial_estimate,
    };
    proof {
        lemma_queue_measure_push(ps, queue@, root_branch);
        lemma_asc_complement_root(n as int);
        assert(branch_future(ps, root_branch, n as int) == opt);
    }
    queue.push(root_branch);
    while queue.len() > 0
        invariant
            map.wf(),
            ps == map.points@,
            n == ps.len(),
            n == n_exec,
            1 <= n <= MAX_POINTS,
            bssf0 == *old(bssf_input),
            *bssf_input == bssf0,
            bssf <= bssf0,
            opt == opt_tour_len(ps),
            forall|t: int| 0 <= t < queue@.len() ==> branch_wf(ps, #[trigger] queue@[t]),
            best_solution.route@.len() == 0 ==> best_solution.distance == 0 && bssf == bssf0,
            best_solution.route@.len() != 0 ==> complete_route(best_solution.route@, n)
                && best_solution.route@[0] == 0 && best_solution.distance == tour_len(
                ps,
                best_solution.route@,
            ) && best_solution.distance == bssf && bssf < bssf0 && opt
                <= best_solution.distance as int,
            bssf as int >= min_int(bssf0 as int, opt),
            bssf as int == min_int(bssf0 as int, opt) || (opt < bssf0 as int && exists|t: int|
                0 <= t < queue@.len() && #[trigger] branch_future(ps, queue@[t], n as int) == opt),
        decreases queue_measure(ps, queue@),
    {
        /* Pop the branch with the lowest priority. */
        let mut mindex: usize = 0;
        let mut scan: usize = 1;
        proof {
            lemma_branch_priority_fits(ps, queue@[0]);
        }
        let mut min_priority: u64 = queue[0].total_priority();
        while scan < queue.len()
            invariant
                map.wf(),
                ps == map.points@,
                n == ps.len(),
                n <= MAX_POINTS,
                queue@.len() >= 1,
                forall|t: int| 0 <= t < queue@.len() ==> branch_wf(ps, #[trigger] queue@[t]),
                1 <= scan <= queue@.len(),
                mindex < scan,
                min_priority as int == queue@[mindex as int].total_distance as int
                    + queue@[mindex as int].heuristic_estimate as int,
            decreases queue@.len() - scan,
        {
            proof {
                lemma_branch_priority_fits(ps, queue@[scan as int]);
            }
            let p = queue[scan].total_priority();
            if p < min_priority {
                mindex = scan;
                min_priority = p;
            }
            scan += 1;
        }
        proof {
            lemma_queue_measure_remove(ps, queue@, mindex as int);
        }
        let ghost measure_entry = queue_measure(ps, queue@);
        let ghost q0 = queue@;
        let branch = queue.remove(mindex);
        let ghost popped = branch;
        let ghost popped_route = branch.route@;
        let ghost k = n - branch.route@.len();
        let ghost base = queue_measure(ps, queue@);
        if branch.route.len() == n_exec {
            /* A complete tour: keep it if it beats the bound. */
            let (solution_distance, _complete) = get_solution_length(map, &branch.route);
            proof {
                lemma_opt_le_rooted_tour(ps, popped_route);
                lemma_asc_complement_complete(popped_route, n as int);
                assert(branch_future(ps, popped, n as int) == tour_len(ps, popped_route));
            }
            if solution_distance < bssf {
                bssf = solution_distance;
                best_solution = Solution { route: branch.route, distance: solution_distance };
            }
            proof {
                if bssf as int != min_int(bssf0 as int, opt) {
                    let t = choose|t: int|
                        0 <= t < q0.len() && #[trigger] branch_future(ps, q0[t], n as int) == opt;
                    if t == mindex as int {
                        assert(solution_distance as int == opt);
                        assert(bssf <= solution_distance);
                        assert(bssf as int == min_int(bssf0 as int, opt));
                        assert(false);
                    } else {
                        let t2 = if t < mindex as int {
                            t
                        } else {
                            t - 1
                        };
                        assert(queue@[t2] == q0[t]);
                        assert(branch_future(ps, queue@[t2], n as int) == opt);
                    }
                }
            }
        } else {
            /* Generate child branches for every unvisited node; the bound
            comparison alone decides which survive. */
            let mut node: u32 = 0;
            let ghost parent_route = branch.route@;
            let ghost todo = asc_complement(parent_route, n as int);
            proof {
                assert(tree_size(k as nat) == 1 + k * tree_size((k - 1) as nat));
                assert(count_absent(parent_route, 0) == 0);
                lemma_asc_complement_props(parent_route, n as int);
                /* Translate the queue-level optimum witness into either a
                surviving queue entry or a pending next-stop choice. */
                if bssf as int != min_int(bssf0 as int, opt) {
                    let t = choose|t: int|
                        0 <= t < q0.len() && #[trigger] branch_future(ps, q0[t], n as int) == opt;
                    if t == mindex as int {
                        crate::tour::lemma_exists_unvisited(parent_route, n);
                        let missing = choose|v: u32| (v as nat) < n && !parent_route.contains(v);
                        assert(todo.contains(missing));
                        assert(todo.len() > 0);
                        lemma_best_ext_from_attained(ps, parent_route, todo, 0);
                        let c = choose|c: int|
                            0 <= c < todo.len() && crate::branch_bound::best_ext_from(
                                ps,
                                parent_route,
                                todo,
                                0,
                            ) == crate::branch_bound::best_ext(
                                ps,
                                parent_route.push(todo[c]),
                                todo.remove(c),
                            );
                        assert(crate::branch_bound::best_ext(
                            ps,
                            parent_route.push(todo[c]),
                            todo.remove(c),
                        ) == opt);
                    } else {
                        let t2 = if t < mindex as int {
                            t
                        } else {
                            t - 1
                        };
                        assert(queue@[t2] == q0[t]);
                        assert(branch_future(ps, queue@[t2], n as int) == opt);
                    }
                }
            }
            while (node as usize) < n_exec
                invariant
                    map.wf(),
                    ps == map.points@,
                    n == ps.len(),
                    n == n_exec,
                    1 <= n <= MAX_POINTS,
                    node as int <= n as int,
                    branch_wf(ps, branch),
                    branch.route@ == parent_route,
                    parent_route.len() < n,
                    k == n - parent_route.len(),
                    1 <= k,
                    bssf <= bssf0,
                    opt == opt_tour_len(ps),
                    todo == asc_complement(parent_route, n as int),
                    forall|t: int| 0 <= t < queue@.len() ==> branch_wf(ps, #[trigger] queue@[t]),
                    queue_measure(ps, queue@) <= base + count_absent(parent_route, node as int)
                        * tree_size((k - 1) as nat),
                    bssf as int >= min_int(bssf0 as int, opt),
                    bssf as int == min_int(bssf0 as int, opt) || (opt < bssf0 as int && exists|
                        t: int,
                    |
                        0 <= t < queue@.len() && #[trigger] branch_future(ps, queue@[t], n as int)
                            == opt) || (opt < bssf0 as int && exists|c: int|
                        0 <= c < todo.len() && (todo[c] as int) >= node as int
                            && #[trigger] crate::branch_bound::best_ext(
                            ps,
                            parent_route.push(todo[c]),
                            todo.remove(c),
                        ) == opt),
                decreases n_exec - node,
            {
                proof {
                    lemma_asc_complement_props(parent_route, n as int);
                }
                if !route_contains(&branch.route, node) {
                    let mut new_route = clone_route(&branch.route);
                    new_route.push(node);
                    proof {
                        assert(new_route@.drop_last() =~= parent_route);
                        assert forall|t1: int, t2: int|
                            0 <= t1 < t2 < new_route@.len() implies new_route@[t1]
                            != new_route@[t2] by {
                            if t2 == new_route@.len() - 1 {
                                assert(new_route@[t1] == parent_route[t1]);
                                assert(parent_route.contains(parent_route[t1]));
                            }
                        }
                        assert(valid_partial_route(new_route@, n));
                        lemma_path_len_bound(ps, new_route@);
                        lemma_tour_len_bound(ps, new_route@);
                        lemma_mul_le(new_route@.len() as int + 1, n as int + 1, MAX_DIST as int);
                    }
                    let (new_total_distance, _c) = get_solution_length(map, &new_route);
                    /* A fresh heuristic estimate over the now-smaller
                    unvisited set. */
                    let mut new_unvisited: Vec<u32> = Vec::new();
                    let mut cand: u32 = 0;
                    while (cand as usize) < n_exec
                        invariant
                            map.wf(),
                            ps == map.points@,
                            n == ps.len(),
                            n == n_exec,
                            n <= MAX_POINTS,
                            cand as int <= n as int,
                            new_route@.len() <= n,
                            route_in_range(new_route@, n),
                            forall|t: int|
                                0 <= t < new_unvisited@.len() ==> ((
                                #[trigger] new_unvisited@[t]) as int) < cand as int,
                            forall|t1: int, t2: int|
                                0 <= t1 < t2 < new_unvisited@.len() ==> new_unvisited@[t1]
                                    != new_unvisited@[t2],
                        decreases n_exec - cand,
                    {
                        if !route_contains(&new_route, cand) {
                            proof {
                                assert(forall|t: int|
                                    0 <= t < new_unvisited@.len() ==> ((
                                    #[trigger] new_unvisited@[t]) as int) < cand as int);
                            }
                            new_unvisited.push(cand);
                        }
                        cand += 1;
                    }
                    proof {
                        assert(route_in_range(new_unvisited@, n));
                        assert(new_unvisited@.no_duplicates());
                    }
                    let new_heuristic_estimate = calculate_heuristic_estimate(map, &new_unvisited);
                    proof {
                        lemma_mul_le(n as int, MAX_POINTS as int, MAX_DIST as int);
                        /* The new stop sits somewhere in the pending order. */
                        assert(todo.contains(node));
                        let ghost cn = choose|cn: int| 0 <= cn < todo.len() && todo[cn] == node;
                        lemma_asc_complement_child(parent_route, node, n as int, cn);
                        assert(todo.remove(cn) =~= asc_complement(new_route@, n as int));
                        if new_route@.len() < n {
                            crate::branch_bound::lemma_best_ext_ge_path(
                                ps,
                                new_route@,
                                asc_complement(new_route@, n as int),
                            );
                        } else {
                            lemma_asc_complement_complete(new_route@, n as int);
                        }
                    }
                    if new_total_distance < bssf {
                        let child = Branch {
                            route: new_route,
                            total_distance: new_total_distance,
                            heuristic_estimate: new_heuristic_estimate,
                        };
                        proof {
                            lemma_queue_measure_push(ps, queue@, child);
                            lemma_count_absent_push(parent_route, node, node as int + 1);
                            assert(count_absent(parent_route, node as int + 1) == count_absent(
                                parent_route,
                                node as int,
                            ) + 1);
                            assert((count_absent(parent_route, node as int) + 1) * tree_size(
                                (k - 1) as nat,
                            ) == count_absent(parent_route, node as int) * tree_size(
                                (k - 1) as nat,
                            ) + tree_size((k - 1) as nat)) by (nonlinear_arith);
                            assert((ps.len() - child.route@.len()) as nat == (k - 1) as nat);
                        }
                        let ghost qb = queue@;
                        queue.push(child);
                        proof {
                            assert(forall|t: int| 0 <= t < qb.len() ==> queue@[t] == qb[t]);
                            /* A pending witness at this stop now waits on the
                            queue instead. */
                            if bssf as int != min_int(bssf0 as int, opt) {
                                if exists|t: int|
                                    0 <= t < qb.len() && #[trigger] branch_future(
                                        ps,
                                        qb[t],
                                        n as int,
                                    ) == opt {
                                    let t = choose|t: int|
                                        0 <= t < qb.len() && #[trigger] branch_future(
                                            ps,
                                            qb[t],
                                            n as int,
                                        ) == opt;
                                    assert(branch_future(ps, queue@[t], n as int) == opt);
                                }
                                if exists|c: int|
                                    0 <= c < todo.len() && (todo[c] as int) >= node as int
                                        && #[trigger] crate::branch_bound::best_ext(
                                        ps,
                                        parent_route.push(todo[c]),
                                        todo.remove(c),
                                    ) == opt {
                                    let c = choose|c: int|
                                        0 <= c < todo.len() && (todo[c] as int) >= node as int
                                            && #[trigger] crate::branch_bound::best_ext(
                                            ps,
                                            parent_route.push(todo[c]),
                                            todo.remove(c),
                                        ) == opt;
                                    if todo[c] == node {
                                        let cn = choose|cn: int|
                                            0 <= cn < todo.len() && todo[cn] == node;
                                        assert(cn == c) by {
                                            if cn != c {
                                                if cn < c {
                                                    assert(todo[cn] < todo[c]);
                                                } else {
                                                    assert(todo[c] < todo[cn]);
                                                }
                                            }
                                        }
                                        assert(branch_future(ps, child, n as int) == opt);
                                        assert(queue@[queue@.len() - 1] == child);
                                    } else {
                                        assert((todo[c] as int) >= node as int + 1);
                                    }
                                }
                            }
                        }
                    } else {
                        proof {
                            assert(count_absent(parent_route, node as int + 1) >= count_absent(
                                parent_route,
                                node as int,
                            ));
                            lemma_mul_le(
                                count_absent(parent_route, node as int),
                                count_absent(parent_route, node as int + 1),
                                tree_size((k - 1) as nat) as int,
                            );
                            /* A discarded witness means the bound already
                            equals the optimum. */
                            if bssf as int != min_int(bssf0 as int, opt) {
                                if exists|c: int|
                                    0 <= c < todo.len() && (todo[c] as int) >= node as int
                                        && #[trigger] crate::branch_bound::best_ext(
                                        ps,
                                        parent_route.push(todo[c]),
                                        todo.remove(c),
                                    ) == opt {
                                    let c = choose|c: int|
                                        0 <= c < todo.len() && (todo[c] as int) >= node as int
                                            && #[trigger] crate::branch_bound::best_ext(
                                            ps,
                                            parent_route.push(todo[c]),
                                            todo.remove(c),
                                        ) == opt;
                                    if todo[c] == node {
                                        let cn = choose|cn: int|
                                            0 <= cn < todo.len() && todo[cn] == node;
                                        assert(cn == c) by {
                                            if cn != c {
                                                if cn < c {
                                                    assert(todo[cn] < todo[c]);
                                                } else {
                                                    assert(todo[c] < todo[cn]);
                                                }
                                            }
                                        }
                                        assert(crate::branch_bound::best_ext(
                                            ps,
                                            new_route@,
                                            asc_complement(new_route@, n as int),
                                        ) == opt);
                                        assert(opt >= new_total_distance as int);
                                        assert(bssf as int == min_int(bssf0 as int, opt));
                                        assert(false);
                                    } else {
                                        assert((todo[c] as int) >= node as int + 1);
                                    }
                                }
                            }
                        }
                    }
                } else {
                    proof {
                        assert(count_absent(parent_route, node as int + 1) == count_absent(
                            parent_route,
                            node as int,
                        ));
                        /* A visited stop cannot hold the pending witness. */
                        if bssf as int != min_int(bssf0 as int, opt) {
                            if exists|c: int|
                                0 <= c < todo.len() && (todo[c] as int) >= node as int
                                    && #[trigger] crate::branch_bound::best_ext(
                                    ps,
                                    parent_route.push(todo[c]),
                                    todo.remove(c),
                                ) == opt {
                                let c = choose|c: int|
                                    0 <= c < todo.len() && (todo[c] as int) >= node as int
                                        && #[trigger] crate::branch_bound::best_ext(
                                        ps,
                                        parent_route.push(todo[c]),
                                        todo.remove(c),
                                    ) == opt;
                                assert(todo.contains(todo[c]));
                                assert(!parent_route.contains(todo[c]));
                                assert(todo[c] != node);
                                assert((todo[c] as int) >= node as int + 1);
                            }
                        }
                    }
                }
                node += 1;
            }
            proof {
                lemma_count_absent_full(parent_route, n as int);
                assert(count_absent(parent_route, n as int) == k);
                assert(k * tree_size((k - 1) as nat) == tree_size(k as nat) - 1);
                assert(queue_measure(ps, queue@) <= base + tree_size(k as nat) - 1);
                assert(measure_entry == base + tree_size(k as nat));
                /* No next-stop choice is pending once every index was tried. */
                lemma_asc_complement_props(parent_route, n as int);
                if bssf as int != min_int(bssf0 as int, opt) {
                    if exists|c: int|
                        0 <= c < todo.len() && (todo[c] as int) >= n as int
                            && #[trigger] crate::branch_bound::best_ext(
                            ps,
                            parent_route.push(todo[c]),
                            todo.remove(c),
                        ) == opt {
                        let c = choose|c: int|
                            0 <= c < todo.len() && (todo[c] as int) >= n as int
                                && #[trigger] crate::branch_bound::best_ext(
                                ps,
                                parent_route.push(todo[c]),
                                todo.remove(c),
                            ) == opt;
                        assert((todo[c] as int) < n as int);
                        assert(false);
                    }
                }
            }
        }
    }
    proof {
        assert(bssf as int == min_int(bssf0 as int, opt));
    }
    best_solution
}

/// A well-formed branch's priority fits comfortably in `u64`.
proof fn lemma_branch_priority_fits(ps: Seq<Point>, b: Branch)
    requires
        branch_wf(ps, b),
        ps.len() <= MAX_POINTS,
        crate::point::points_in_range(ps),
    ensures
        b.total_distance as int + b.heuristic_estimate as int <= u64::MAX as int,
{
    lemma_path_len_bound(ps, b.route@);
    lemma_tour_len_bound(ps, b.route@);
    lemma_mul_le(b.route@.len() as int + 1, ps.len() as int + 1, MAX_DIST as int);
    lemma_mul_le(ps.len() as int, MAX_POINTS as int, MAX_DIST as int);
    lemma_mul_le(ps.len() as int + 1, MAX_POINTS as int + 1, MAX_DIST as int);
}


/// The two exact searches settle on the same minimal distance: from the
/// same starting bound, the recursive variant's result and the
/// priority-queue variant's effective result are both exactly the optimum
/// capped at that bound, so they always agree.
pub proof fn lemma_exact_searches_agree(
    ps: Seq<Point>,
    bssf0: u64,
    recursive_distance: u64,
    queue_solution: Solution,
)
    requires
        recursive_distance as int == min_int(bssf0 as int, opt_tour_len(ps)),
        opt_tour_len(ps) < bssf0 as int ==> queue_solution.route@.len() != 0
            && queue_solution.distance as int == opt_tour_len(ps),
        opt_tour_len(ps) >= bssf0 as int ==> queue_solution.route@.len() == 0,
    ensures
        queue_solution.route@.len() != 0 ==> queue_solution.distance == recursive_distance,
        queue_solution.route@.len() == 0 ==> recursive_distance == bssf0,
{
}

} // verus!
