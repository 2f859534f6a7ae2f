use vstd::prelude::*;

verus! {

/// An undirected edge between two point indices, weighted by their cached
/// distance; the unit of work of the spanning-tree estimator.
pub struct Edge {
    pub node1: u32,
    pub node2: u32,
    pub distance: u64,
}

/// A partial tour plus its accumulated cost and heuristic estimate, the unit
/// of work in priority-queue search.
pub struct Branch {
    pub route: Vec<u32>,
    pub total_distance: u64,
    pub heuristic_estimate: u64,
}

impl Branch {
    /// The expansion priority: accumulated cost plus the optimistic estimate
    /// of what remains.  Lower is more promising.
    pub fn total_priority(&self) -> (p: u64)
        requires
            self.total_distance as int + self.heuristic_estimate as int <= u64::MAX as int,
        ensures
            p as int == self.total_distance as int + self.heuristic_estimate as int,
    {
        self.total_distance + self.heuristic_estimate
    }
}

/// The parent array forms a forest: a parent index never exceeds its child,
/// so every chain of parents ends at a self-parented root.
pub open spec fn parents_wf(p: Seq<u32>) -> bool {
    forall|t: int| 0 <= t < p.len() ==> ((#[trigger] p[t]) as int) <= t
}

/// The representative of the component of `i`: the end of its parent chain.
pub open spec fn root_of(p: Seq<u32>, i: int) -> int
    decreases i,
        when 0 <= i < p.len() && parents_wf(p)
{
    if p[i] as int == i {
        i
    } else {
        root_of(p, p[i] as int)
    }
}

/// Two indices are connected exactly when they share a representative.
pub open spec fn same_root(p: Seq<u32>, a: int, b: int) -> bool {
    root_of(p, a) == root_of(p, b)
}

/// How many components the forest currently has, counting self-parented
/// indices below `k`.
pub open spec fn root_count_upto(p: Seq<u32>, k: int) -> int
    decreases k,
{
    if k <= 0 {
        0
    } else {
        root_count_upto(p, k - 1) + if p[k - 1] as int == k - 1 {
            1int
        } else {
            0int
        }
    }
}

pub open spec fn root_count(p: Seq<u32>) -> int {
    root_count_upto(p, p.len() as int)
}

pub proof fn lemma_root_props(p: Seq<u32>, i: int)
    requires
        parents_wf(p),
        0 <= i < p.len(),
    ensures
        0 <= root_of(p, i) <= i,
        p[root_of(p, i)] as int == root_of(p, i),
    decreases i,
{
    if p[i] as int != i {
        lemma_root_props(p, p[i] as int);
    }
}

/// Path compression: pointing `i` straight at its representative changes no
/// representative anywhere.
proof fn lemma_root_compress_rec(p: Seq<u32>, i: int, r: int, j: int)
    requires
        parents_wf(p),
        0 <= i < p.len(),
        r == root_of(p, i),
        0 <= j < p.len(),
    ensures
        parents_wf(p.update(i, r as u32)),
        root_of(p.update(i, r as u32), j) == root_of(p, j),
    decreases j,
{
    lemma_root_props(p, i);
    let p2 = p.update(i, r as u32);
    if j == i {
        if r == i {
            assert(p2 =~= p);
        } else {
            assert(p2[r] == p[r]);
            lemma_root_compress_rec(p, i, r, r);
        }
    } else {
        if p[j] as int == j {
            assert(p2[j] == p[j]);
        } else {
            lemma_root_compress_rec(p, i, r, p[j] as int);
            assert(p2[j] == p[j]);
        }
    }
}

/// Linking root `a` below root `b` sends every member of `a`'s component to
/// `b` and leaves every other index alone.
proof fn lemma_root_link_rec(p: Seq<u32>, a: int, b: int, j: int)
    requires
        parents_wf(p),
        0 <= b < a < p.len(),
        p[a] as int == a,
        p[b] as int == b,
        0 <= j < p.len(),
    ensures
        parents_wf(p.update(a, b as u32)),
        root_of(p.update(a, b as u32), j) == if root_of(p, j) == a {
            b
        } else {
            root_of(p, j)
        },
    decreases j,
{
    let p2 = p.update(a, b as u32);
    if j == a {
        assert(p2[b] == p[b]);
        assert(root_of(p2, a) == root_of(p2, b));
        assert(root_of(p2, b) == b);
    } else {
        if p[j] as int == j {
            assert(p2[j] == p[j]);
        } else {
            lemma_root_link_rec(p, a, b, p[j] as int);
            assert(p2[j] == p[j]);
        }
    }
}

/// Linking root `a` below root `b` sends exactly `a`'s component to `b`
/// and leaves every other representative alone.
pub proof fn lemma_root_link_pub(p: Seq<u32>, a: int, b: int, j: int)
    requires
        parents_wf(p),
        0 <= b < a < p.len(),
        p[a] as int == a,
        p[b] as int == b,
        0 <= j < p.len(),
    ensures
        parents_wf(p.update(a, b as u32)),
        root_of(p.update(a, b as u32), j) == if root_of(p, j) == a {
            b
        } else {
            root_of(p, j)
        },
{
    lemma_root_link_rec(p, a, b, j);
}

/// Un-rooting one index lowers the component count below `k` by exactly one
/// when the index is below `k`.
proof fn lemma_root_count_unroot(p: Seq<u32>, a: int, w: u32, k: int)
    requires
        0 <= a < p.len(),
        p[a] as int == a,
        (w as int) != a,
        k <= p.len(),
    ensures
        root_count_upto(p.update(a, w), k) == root_count_upto(p, k) - if a < k {
            1int
        } else {
            0int
        },
    decreases k,
{
    if k > 0 {
        lemma_root_count_unroot(p, a, w, k - 1);
        let p2 = p.update(a, w);
        if k - 1 != a {
            assert(p2[k - 1] == p[k - 1]);
        }
    }
}

/// With an identity prefix the component count below `k` is `k`.
proof fn lemma_root_count_identity(p: Seq<u32>, k: int)
    requires
        0 <= k <= p.len(),
        forall|j: int| 0 <= j < k ==> (#[trigger] p[j]) as int == j,
    ensures
        root_count_upto(p, k) == k,
    decreases k,
{
    if k > 0 {
        lemma_root_count_identity(p, k - 1);
        assert((#[trigger] p[k - 1]) as int == k - 1);
        assert(root_count_upto(p, k) == root_count_upto(p, k - 1) + 1);
    } else {
        assert(root_count_upto(p, k) == 0);
    }
}

/// Index 0 can never lose its root, so at least one component remains.
pub proof fn lemma_root_count_at_least_one(p: Seq<u32>, k: int)
    requires
        parents_wf(p),
        1 <= k <= p.len(),
    ensures
        root_count_upto(p, k) >= 1,
        root_count_upto(p, k) <= k,
    decreases k,
{
    if k == 1 {
        assert(p[0] as int == 0);
        assert(root_count_upto(p, 0) == 0);
        assert(root_count_upto(p, 1) == 1);
    } else {
        lemma_root_count_at_least_one(p, k - 1);
        assert(root_count_upto(p, k) == root_count_upto(p, k - 1) + if p[k - 1] as int == k - 1 {
            1int
        } else {
            0int
        });
    }
}

/// Disjoint-set structure supporting path-compressed find and union; used
/// only by the spanning-tree lower-bound estimator.
#[derive(Clone)]
pub struct DisjointSet {
    parent: Vec<u32>,
}

impl DisjointSet {
    pub closed spec fn parents(self) -> Seq<u32> {
        self.parent@
    }

    pub closed spec fn wf(self) -> bool {
        parents_wf(self.parent@)
    }

    pub fn new(size: usize) -> (ds: DisjointSet)
        requires
            size <= 0xFFFF_FFFF,
        ensures
            ds.wf(),
            parents_wf(ds.parents()),
            ds.parents().len() == size,
            forall|j: int| 0 <= j < size ==> (#[trigger] ds.parents()[j]) as int == j,
            root_count(ds.parents()) == size,
    {
        let mut parent: Vec<u32> = Vec::new();
        let mut t: usize = 0;
        while t < size
            invariant
                t <= size,
                size <= 0xFFFF_FFFF,
                parent@.len() == t,
                forall|j: int| 0 <= j < t ==> (#[trigger] parent@[j]) as int == j,
            decreases size - t,
        {
            parent.push(t as u32);
            t += 1;
        }
        proof {
            lemma_root_count_identity(parent@, size as int);
        }
        DisjointSet { parent }
    }

    /// Path-compressed find: returns the representative of `i` and may
    /// re-point nodes along the chain at it, changing no component.
    pub fn find(&mut self, i: u32) -> (r: u32)
        requires
            old(self).wf(),
            (i as int) < old(self).parents().len(),
        ensures
            final(self).wf(),
            parents_wf(final(self).parents()),
            final(self).parents().len() == old(self).parents().len(),
            r as int == root_of(old(self).parents(), i as int),
            r <= i,
            forall|j: int|
                0 <= j < old(self).parents().len() ==> root_of(final(self).parents(), j)
                    == root_of(old(self).parents(), j),
            root_count(final(self).parents()) == root_count(old(self).parents()),
        decreases i,
    {
        let ghost p0 = self.parent@;
        let pi = self.parent[i as usize];
        if pi != i {
            let r = self.find(pi);
            let ghost p1 = self.parent@;
            proof {
                lemma_root_props(p0, i as int);
                assert(root_of(p0, i as int) == root_of(p0, pi as int));
                assert(root_of(p1, i as int) == root_of(p0, i as int));
                assert(r as int == root_of(p1, i as int));
                assert forall|j: int| 0 <= j < p1.len() implies root_of(
                    p1.update(i as int, r),
                    j,
                ) == root_of(p1, j) by {
                    lemma_root_compress_rec(p1, i as int, r as int, j);
                }
                lemma_root_compress_rec(p1, i as int, r as int, 0);
                lemma_root_count_same(p1, p1.update(i as int, r), p1.len() as int);
            }
            self.parent.set(i as usize, r);
            r
        } else {
            i
        }
    }

    /// Union by root index: the two components become one, every other
    /// component is untouched, and the component count drops by one exactly
    /// when the arguments were separate.
    pub fn union(&mut self, x: u32, y: u32)
        requires
            old(self).wf(),
            (x as int) < old(self).parents().len(),
            (y as int) < old(self).parents().len(),
        ensures
            final(self).wf(),
            parents_wf(final(self).parents()),
            final(self).parents().len() == old(self).parents().len(),
            forall|a: int, b: int|
                0 <= a < old(self).parents().len() && 0 <= b < old(self).parents().len()
                    ==> (#[trigger] same_root(final(self).parents(), a, b) <==> (same_root(
                    old(self).parents(),
                    a,
                    b,
                ) || (same_root(old(self).parents(), a, x as int) && same_root(
                    old(self).parents(),
                    b,
                    y as int,
                )) || (same_root(old(self).parents(), a, y as int) && same_root(
                    old(self).parents(),
                    b,
                    x as int,
                )))),
            root_count(final(self).parents()) == root_count(old(self).parents()) - if same_root(
                old(self).parents(),
                x as int,
                y as int,
            ) {
                0int
            } else {
                1int
            },
            forall|j: int|
                0 <= j < old(self).parents().len() ==> root_of(final(self).parents(), j) == (
                if same_root(old(self).parents(), j, x as int) || same_root(
                    old(self).parents(),
                    j,
                    y as int,
                ) {
                    if root_of(old(self).parents(), x as int) <= root_of(
                        old(self).parents(),
                        y as int,
                    ) {
                        root_of(old(self).parents(), x as int)
                    } else {
                        root_of(old(self).parents(), y as int)
                    }
                } else {
                    root_of(old(self).parents(), j)
                }),
    {
        let ghost p0 = self.parent@;
        let xset = self.find(x);
        let ghost pmid = self.parent@;
        let yset = self.find(y);
        let ghost p1 = self.parent@;
        let ghost len = p1.len() as int;
        proof {
            assert forall|j: int| 0 <= j < len implies root_of(p1, j) == root_of(p0, j) by {
                assert(root_of(pmid, j) == root_of(p0, j));
                assert(root_of(p1, j) == root_of(pmid, j));
            }
            lemma_root_props(p0, x as int);
            lemma_root_props(p0, y as int);
            assert(root_of(p1, x as int) == root_of(p0, x as int));
            assert(root_of(p1, y as int) == root_of(p0, y as int));
            assert(root_of(p0, xset as int) == xset as int);
            assert(root_of(p0, yset as int) == yset as int);
            assert(root_of(p1, xset as int) == xset as int);
            assert(root_of(p1, yset as int) == yset as int);
            lemma_root_props(p1, xset as int);
            lemma_root_props(p1, yset as int);
            assert(p1[xset as int] as int == xset as int);
            assert(p1[yset as int] as int == yset as int);
        }
        if xset != yset {
            let (hi, lo) = if xset < yset {
                (yset, xset)
            } else {
                (xset, yset)
            };
            proof {
                assert forall|j: int| 0 <= j < len implies root_of(
                    p1.update(hi as int, lo),
                    j,
                ) == (if root_of(p1, j) == hi as int {
                    lo as int
                } else {
                    root_of(p1, j)
                }) by {
                    lemma_root_link_rec(p1, hi as int, lo as int, j);
                }
                lemma_root_link_rec(p1, hi as int, lo as int, 0);
                lemma_root_count_unroot(p1, hi as int, lo, len);
                let pf = p1.update(hi as int, lo);
                assert forall|a: int, b: int|
                    0 <= a < len && 0 <= b < len implies (same_root(pf, a, b) <==> (same_root(
                    p0,
                    a,
                    b,
                ) || (same_root(p0, a, x as int) && same_root(p0, b, y as int)) || (same_root(
                    p0,
                    a,
                    y as int,
                ) && same_root(p0, b, x as int)))) by {
                    lemma_root_props(p0, a);
                    lemma_root_props(p0, b);
                    assert(root_of(pf, a) == if root_of(p1, a) == hi as int {
                        lo as int
                    } else {
                        root_of(p1, a)
                    });
                    assert(root_of(pf, b) == if root_of(p1, b) == hi as int {
                        lo as int
                    } else {
                        root_of(p1, b)
                    });
                    assert(root_of(p1, a) == root_of(p0, a));
                    assert(root_of(p1, b) == root_of(p0, b));
                    lemma_root_props(p1, root_of(p0, a));
                    lemma_root_props(p1, root_of(p0, b));
                }
            }
            self.parent.set(hi as usize, lo);
        } else {
            proof {
                assert forall|a: int, b: int|
                    0 <= a < len && 0 <= b < len implies (same_root(p1, a, b) <==> (same_root(
                    p0,
                    a,
                    b,
                ) || (same_root(p0, a, x as int) && same_root(p0, b, y as int)) || (same_root(
                    p0,
                    a,
                    y as int,
                ) && same_root(p0, b, x as int)))) by {
                    assert(root_of(p1, a) == root_of(p0, a));
                    assert(root_of(p1, b) == root_of(p0, b));
                }
            }
        }
    }
}

/// Two parent arrays with the same root everywhere count the same roots.
proof fn lemma_root_count_same(p1: Seq<u32>, p2: Seq<u32>, k: int)
    requires
        parents_wf(p1),
        parents_wf(p2),
        p1.len() == p2.len(),
        k <= p1.len(),
        forall|j: int| 0 <= j < p1.len() ==> root_of(p1, j) == root_of(p2, j),
    ensures
        root_count_upto(p1, k) == root_count_upto(p2, k),
    decreases k,
{
    if k > 0 {
        lemma_root_count_same(p1, p2, k - 1);
        lemma_root_props(p1, k - 1);
        lemma_root_props(p2, k - 1);
        assert(p1[k - 1] as int == k - 1 <==> root_of(p1, k - 1) == k - 1);
        assert(p2[k - 1] as int == k - 1 <==> root_of(p2, k - 1) == k - 1);
    }
}

} // verus!
