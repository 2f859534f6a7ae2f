use vstd::prelude::*;

use crate::errors::TspError;
use crate::point::{point_in_range, points_in_range, Point, Points, MAX_COORD, MAX_POINTS};

verus! {

/// Strict upper bound on any single pair distance: coordinates are at most
/// `MAX_COORD` in magnitude, so a squared distance is at most
/// `8 * 10^18 < MAX_DIST * MAX_DIST`.
pub const MAX_DIST: u64 = 3_000_000_000;

pub open spec fn sq(a: int) -> int {
    a * a
}

/// The exact squared Euclidean distance between two points.
pub open spec fn sq_dist(p: Point, q: Point) -> int {
    sq(p.x - q.x) + sq(p.y - q.y)
}

pub proof fn lemma_sq_nonneg(a: int)
    ensures
        sq(a) >= 0,
{
    assert(a * a >= 0) by (nonlinear_arith);
}

pub proof fn lemma_sq_monotonic(a: int, b: int)
    requires
        0 <= a <= b,
    ensures
        sq(a) <= sq(b),
{
    assert(a * a <= b * b) by (nonlinear_arith)
        requires
            0 <= a <= b,
    ;
}

pub proof fn lemma_sq_dist_sym(p: Point, q: Point)
    ensures
        sq_dist(p, q) == sq_dist(q, p),
{
    assert((p.x - q.x) * (p.x - q.x) == (q.x - p.x) * (q.x - p.x)) by (nonlinear_arith);
    assert((p.y - q.y) * (p.y - q.y) == (q.y - p.y) * (q.y - p.y)) by (nonlinear_arith);
}

/// The floor of the square root of a natural number.
pub open spec fn isqrt_spec(n: nat) -> nat
    decreases n,
{
    if n == 0 {
        0
    } else {
        let r = isqrt_spec((n - 1) as nat);
        if (r + 1) * (r + 1) <= n {
            (r + 1) as nat
        } else {
            r
        }
    }
}

pub proof fn lemma_isqrt_bounds(n: nat)
    ensures
        isqrt_spec(n) * isqrt_spec(n) <= n,
        n < (isqrt_spec(n) + 1) * (isqrt_spec(n) + 1),
    decreases n,
{
    if n == 0 {
        assert(isqrt_spec(n) == 0);
        assert((isqrt_spec(n) + 1) * (isqrt_spec(n) + 1) == 1) by (nonlinear_arith)
            requires
                isqrt_spec(n) == 0,
        ;
    } else {
        let r = isqrt_spec((n - 1) as nat);
        lemma_isqrt_bounds((n - 1) as nat);
        assert(r * r <= n - 1);
        assert(n - 1 < (r + 1) * (r + 1));
        if (r + 1) * (r + 1) <= n {
            assert(isqrt_spec(n) == r + 1);
            assert(n <= (r + 1) * (r + 1));
            assert((r + 1) * (r + 1) < (r + 2) * (r + 2)) by (nonlinear_arith)
                requires
                    r >= 0,
            ;
        } else {
            assert(isqrt_spec(n) == r);
        }
    }
}

pub proof fn lemma_isqrt_unique(n: nat, r: nat)
    requires
        r * r <= n,
        n < (r + 1) * (r + 1),
    ensures
        r == isqrt_spec(n),
{
    let i = isqrt_spec(n);
    lemma_isqrt_bounds(n);
    if i < r {
        lemma_sq_monotonic(i as int + 1, r as int);
    }
    if r < i {
        lemma_sq_monotonic(r as int + 1, i as int);
    }
}

/// The distance the cache stores for a pair of point indices: zero for a
/// point paired with itself, the floor of the Euclidean distance otherwise.
pub open spec fn pair_dist(ps: Seq<Point>, i: int, j: int) -> nat {
    if i == j {
        0
    } else {
        isqrt_spec(sq_dist(ps[i], ps[j]) as nat)
    }
}

pub proof fn lemma_pair_dist_sym(ps: Seq<Point>, i: int, j: int)
    ensures
        pair_dist(ps, i, j) == pair_dist(ps, j, i),
{
    if i != j {
        lemma_sq_dist_sym(ps[i], ps[j]);
    }
}

pub proof fn lemma_pair_dist_bound(ps: Seq<Point>, i: int, j: int)
    requires
        points_in_range(ps),
        0 <= i < ps.len(),
        0 <= j < ps.len(),
    ensures
        pair_dist(ps, i, j) < MAX_DIST,
{
    if i != j {
        lemma_point_dist_bound(ps[i], ps[j]);
    }
}

pub proof fn lemma_point_dist_bound(p: Point, q: Point)
    requires
        point_in_range(p),
        point_in_range(q),
    ensures
        isqrt_spec(sq_dist(p, q) as nat) < MAX_DIST,
        0 <= sq_dist(p, q) <= 8_000_000_000_000_000_000,
{
    assert(-2_000_000_000 <= p.x - q.x <= 2_000_000_000);
    assert(sq(p.x - q.x) <= 4_000_000_000_000_000_000) by (nonlinear_arith)
        requires
            -2_000_000_000 <= p.x - q.x <= 2_000_000_000,
    ;
    assert(sq(p.y - q.y) <= 4_000_000_000_000_000_000) by (nonlinear_arith)
        requires
            -2_000_000_000 <= p.y - q.y <= 2_000_000_000,
    ;
    lemma_sq_nonneg(p.x - q.x);
    lemma_sq_nonneg(p.y - q.y);
    let n = sq_dist(p, q) as nat;
    let r = isqrt_spec(n);
    lemma_isqrt_bounds(n);
    if r >= MAX_DIST {
        lemma_sq_monotonic(MAX_DIST as int, r as int);
        assert(MAX_DIST as int * MAX_DIST as int == 9_000_000_000_000_000_000) by (nonlinear_arith);
    }
}

/// Exact integer square root: the largest `r` with `r * r <= n`.
pub fn isqrt(n: u64) -> (r: u64)
    ensures
        r == isqrt_spec(n as nat),
{
    let mut lo: u64 = 0;
    let mut hi: u64 = 4_294_967_295;
    while lo < hi
        invariant
            lo <= hi <= 4_294_967_295,
            (lo as int) * (lo as int) <= n as int,
            (n as int) < (hi as int + 1) * (hi as int + 1),
        decreases hi - lo,
    {
        let mid = lo + (hi - lo + 1) / 2;
        assert((mid as int) * (mid as int) <= 4_294_967_295int * 4_294_967_295int)
            by (nonlinear_arith)
            requires
                0 <= mid <= 4_294_967_295,
        ;
        let sqv = mid * mid;
        if sqv <= n {
            lo = mid;
        } else {
            hi = mid - 1;
        }
    }
    proof {
        lemma_isqrt_unique(n as nat, lo as nat);
    }
    lo
}

#[verifier::external_type_specification]
#[verifier::external_body]
#[verifier::reject_recursive_types(K)]
#[verifier::reject_recursive_types(V)]
#[verifier::reject_recursive_types(S)]
pub struct ExDashMap<K, V, S>(dashmap::DashMap<K, V, S>);

/// The mathematical contents of the concurrent pair-distance map.
pub uninterp spec fn dm_contents(m: dashmap::DashMap<(u32, u32), u64>) -> Map<(u32, u32), u64>;

/// Relies on dashmap::DashMap::new: creates an empty map.
#[verifier::external_body]
fn dm_new() -> (m: dashmap::DashMap<(u32, u32), u64>)
    ensures
        forall|k: (u32, u32)| !dm_contents(m).dom().contains(k),
{
    dashmap::DashMap::new()
}

/// Relies on dashmap::DashMap::insert: after the call the map holds `value`
/// under the key, and every other key keeps its binding.
#[verifier::external_body]
fn dm_insert(m: &mut dashmap::DashMap<(u32, u32), u64>, key_low: u32, key_high: u32, value: u64)
    ensures
        dm_contents(*final(m)) == dm_contents(*old(m)).insert((key_low, key_high), value),
{
    m.insert((key_low, key_high), value);
}

/// Relies on dashmap::DashMap::get: returns the stored value for the key, or
/// nothing when the key is absent.
#[verifier::external_body]
fn dm_get(m: &dashmap::DashMap<(u32, u32), u64>, key_low: u32, key_high: u32) -> (r: Option<u64>)
    ensures
        dm_contents(*m).dom().contains((key_low, key_high)) ==> r == Some(
            dm_contents(*m)[(key_low, key_high)],
        ),
        !dm_contents(*m).dom().contains((key_low, key_high)) ==> r == None::<u64>,
{
    m.get(&(key_low, key_high)).map(|v| *v)
}

/// The precomputed cache of every pairwise distance, keyed by the unordered
/// pair of point indices with the smaller index first.  Built once, read-only
/// thereafter.
pub struct DistanceMap {
    pub map: dashmap::DashMap<(u32, u32), u64>,
    pub num_points: u32,
    pub points: Ghost<Seq<Point>>,
}

impl DistanceMap {
    /// The cache is well formed: one entry for every unordered pair of
    /// distinct indices, holding exactly the pair's distance, and no entry
    /// for anything else.
    pub open spec fn wf(self) -> bool {
        &&& self.points@.len() == self.num_points as int
        &&& self.points@.len() <= MAX_POINTS as int
        &&& points_in_range(self.points@)
        &&& forall|i: int, j: int|
            0 <= i < j < self.points@.len() ==> dm_contents(self.map).contains_pair(
                (i as u32, j as u32),
                pair_dist(self.points@, i, j) as u64,
            )
        &&& forall|k: (u32, u32)|
            dm_contents(self.map).dom().contains(k) ==> k.0 < k.1 && (k.1 as int)
                < self.points@.len()
    }

    /// Calculate all pair distances and store them in the map.
    pub fn new(points: &Points) -> (m: DistanceMap)
        requires
            points.points@.len() <= MAX_POINTS,
            points_in_range(points.points@),
        ensures
            m.wf(),
            m.points@ == points.points@,
            m.num_points as int == points.points@.len(),
    {
        let n = points.points.len();
        let ghost ps = points.points@;
        let mut map = dm_new();
        let mut i: usize = 0;
        while i < n
            invariant
                n == ps.len(),
                i <= n,
                n <= MAX_POINTS,
                points_in_range(ps),
                ps == points.points@,
                forall|a: int, b: int|
                    0 <= a < b < n && a < i ==> dm_contents(map).contains_pair(
                        (a as u32, b as u32),
                        pair_dist(ps, a, b) as u64,
                    ),
                forall|k: (u32, u32)|
                    dm_contents(map).dom().contains(k) ==> (k.0 as int) < i && k.0 < k.1 && (
                    k.1 as int) < n,
            decreases n - i,
        {
            let mut j: usize = i + 1;
            while j < n
                invariant
                    n == ps.len(),
                    i < n,
                    i + 1 <= j <= n,
                    n <= MAX_POINTS,
                    points_in_range(ps),
                    ps == points.points@,
                    forall|a: int, b: int|
                        0 <= a < b < n && a < i ==> dm_contents(map).contains_pair(
                            (a as u32, b as u32),
                            pair_dist(ps, a, b) as u64,
                        ),
                    forall|b: int|
                        i < b < j ==> dm_contents(map).contains_pair(
                            (i as u32, b as u32),
                            pair_dist(ps, i as int, b) as u64,
                        ),
                    forall|k: (u32, u32)|
                        dm_contents(map).dom().contains(k) ==> ((k.0 as int) < i || ((k.0 as int)
                            == i && (k.1 as int) < j)) && k.0 < k.1 && (k.1 as int) < n,
                decreases n - j,
            {
                let d = Self::get_distance(&points.points[i], &points.points[j]);
                dm_insert(&mut map, i as u32, j as u32, d);
                j += 1;
            }
            i += 1;
        }
        DistanceMap { map, num_points: n as u32, points: Ghost(ps) }
    }

    pub fn point_count(&self) -> (c: usize)
        ensures
            c == self.num_points as usize,
    {
        self.num_points as usize
    }

    pub fn len(&self) -> (c: usize)
        ensures
            c == self.num_points as usize,
    {
        self.point_count()
    }

    /// The cached distance between two point indices; zero for a point and
    /// itself.
    pub fn get_distance_from_points(&self, point1: &u32, point2: &u32) -> (d: u64)
        requires
            self.wf(),
            (*point1 as int) < self.points@.len(),
            (*point2 as int) < self.points@.len(),
        ensures
            d == pair_dist(self.points@, *point1 as int, *point2 as int),
            d < MAX_DIST,
    {
        /* Return 0 if they are the same point. */
        if *point1 == *point2 {
            return 0;
        }
        /* Find the smaller point. */
        let (smaller, larger) = if *point1 < *point2 {
            (*point1, *point2)
        } else {
            (*point2, *point1)
        };
        proof {
            lemma_pair_dist_sym(self.points@, *point1 as int, *point2 as int);
            lemma_pair_dist_bound(self.points@, *point1 as int, *point2 as int);
        }
        /* Return the precomputed distance; a missing key cannot occur for
        valid indices, and is answered with 0 defensively. */
        match dm_get(&self.map, smaller, larger) {
            Some(d) => d,
            None => 0,
        }
    }

    /// A bounds-checked lookup: out-of-range indices are a programming
    /// defect, reported as `InfeasibleBound` instead of being read.
    pub fn try_distance(&self, point1: u32, point2: u32) -> (r: Result<u64, TspError>)
        requires
            self.wf(),
        ensures
            match r {
                Ok(d) => (point1 as int) < self.points@.len() && (point2 as int)
                    < self.points@.len() && d == pair_dist(
                    self.points@,
                    point1 as int,
                    point2 as int,
                ),
                Err(e) => e == TspError::InfeasibleBound && ((point1 as int) >= self.points@.len()
                    || (point2 as int) >= self.points@.len()),
            },
    {
        if point1 < self.num_points && point2 < self.num_points {
            Ok(self.get_distance_from_points(&point1, &point2))
        } else {
            Err(TspError::InfeasibleBound)
        }
    }

    /// The exact fixed-point Euclidean distance between two points: the
    /// floor of the square root of the squared coordinate differences.
    fn get_distance(point1: &Point, point2: &Point) -> (d: u64)
        requires
            point_in_range(*point1),
            point_in_range(*point2),
        ensures
            d == isqrt_spec(sq_dist(*point1, *point2) as nat),
            d < MAX_DIST,
    {
        let dx = point1.x - point2.x;
        let dy = point1.y - point2.y;
        proof {
            lemma_point_dist_bound(*point1, *point2);
            assert(dx * dx == sq(point1.x - point2.x));
            assert(dy * dy == sq(point1.y - point2.y));
            lemma_sq_nonneg(dx as int);
            lemma_sq_nonneg(dy as int);
        }
        let sx = dx * dx;
        let sy = dy * dy;
        let total = (sx as u64) + (sy as u64);
        isqrt(total)
    }
}

} // verus!
