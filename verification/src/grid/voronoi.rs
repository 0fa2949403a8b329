//! Spherical Delaunay/Voronoi connectivity: which triangles meet at which point.

use vstd::prelude::*;

verus! {

/// Raw spherical Delaunay/Voronoi data, all indexed by point or triangle order.
pub struct Tessellation<P> {
    /// One Voronoi vertex (triangle circumcenter) per Delaunay triangle.
    pub centers: Vec<P>,
    /// Delaunay triangles as triples of point indices.
    pub triangles: Vec<[usize; 3]>,
    /// Per point: indices of adjacent points (cells sharing a Voronoi edge).
    pub neighbors: Vec<Vec<usize>>,
}

/// The corners of `triangle` that are the point `p`, as so many copies of the index `t`.
pub open spec fn corner_hits(triangle: [usize; 3], p: usize, t: u32) -> Seq<u32> {
    let none = Seq::<u32>::empty();
    (if triangle@[0] == p { none.push(t) } else { none })
        + (if triangle@[1] == p { none.push(t) } else { none })
        + (if triangle@[2] == p { none.push(t) } else { none })
}

/// Indices of the triangles that have `p` as a corner, in ascending order.
pub open spec fn incident(triangles: Seq<[usize; 3]>, p: usize) -> Seq<u32>
    decreases triangles.len(),
{
    if triangles.len() == 0 {
        Seq::empty()
    } else {
        incident(triangles.drop_last(), p) + corner_hits(
            triangles.last(),
            p,
            (triangles.len() - 1) as u32,
        )
    }
}

/// How many corners of all triangles are points below `n`.
pub open spec fn incident_total(triangles: Seq<[usize; 3]>, n: nat) -> nat
    decreases n,
{
    if n == 0 {
        0
    } else {
        incident_total(triangles, (n - 1) as nat) + incident(triangles, (n - 1) as usize).len()
    }
}

/// The entries of `around_i` that occur in `around_j`, in their order.
pub open spec fn common(around_i: Seq<u32>, around_j: Seq<u32>) -> Seq<u32>
    decreases around_i.len(),
{
    if around_i.len() == 0 {
        Seq::empty()
    } else if around_j.contains(around_i.last()) {
        common(around_i.drop_last(), around_j).push(around_i.last())
    } else {
        common(around_i.drop_last(), around_j)
    }
}

/// The two triangles on either side of the edge between `i` and `j`, where there are exactly two.
pub open spec fn shared_edge(triangles: Seq<[usize; 3]>, i: usize, j: usize) -> Option<(u32, u32)> {
    let both = common(incident(triangles, i), incident(triangles, j));
    if both.len() == 2 {
        Some((both[0], both[1]))
    } else {
        None
    }
}

/// What the last entry of `adjacency` for point `p` lists, or nothing.
pub open spec fn listed(adjacency: Seq<(usize, Vec<usize>)>, p: usize) -> Seq<usize>
    decreases adjacency.len(),
{
    if adjacency.len() == 0 {
        Seq::empty()
    } else if adjacency.last().0 == p {
        adjacency.last().1@
    } else {
        listed(adjacency.drop_last(), p)
    }
}

impl<P> Tessellation<P> {
    /// All indices are those of the `n` points and of the triangles.
    pub open spec fn wf(&self, n: int) -> bool {
        &&& self.neighbors@.len() == n
        &&& self.triangles@.len() <= self.centers@.len()
        &&& forall|t: int, c: int|
            0 <= t < self.triangles@.len() && 0 <= c < 3 ==> (#[trigger] self.triangles@[t]@[c]) < n
        &&& forall|i: int, k: int|
            0 <= i < n && 0 <= k < self.neighbors@[i]@.len() ==> (#[trigger] self.neighbors@[i]@[k]) < n
    }

    /// Gather the raw output of a triangulation of `n` points. Circumcenters beyond one per
    /// triangle are dropped; `adjacency`, which comes keyed by point in no particular order, is
    /// laid out densely, with nothing for a point that it does not name.
    pub fn assemble(
        n: usize,
        centers: Vec<P>,
        triangles: Vec<[usize; 3]>,
        adjacency: Vec<(usize, Vec<usize>)>,
    ) -> (tess: Self)
        ensures
            tess.triangles@ == triangles@,
            centers@.len() >= triangles@.len() ==> tess.centers@ == centers@.take(
                triangles@.len() as int,
            ),
            centers@.len() < triangles@.len() ==> tess.centers@ == centers@,
            tess.neighbors@.len() == n,
            forall|p: usize| p < n ==> (#[trigger] tess.neighbors@[p as int])@ == listed(adjacency@, p),
    {
        let mut kept_centers = centers;
        if kept_centers.len() > triangles.len() {
            kept_centers.truncate(triangles.len());
        }
        assert(centers@.len() == triangles@.len() ==> centers@.take(triangles@.len() as int) == centers@);
        let mut neighbors: Vec<Vec<usize>> = Vec::new();
        let mut i: usize = 0;
        while i < n
            invariant
                i <= n,
                neighbors@.len() == i,
                forall|p: int| 0 <= p < i ==> (#[trigger] neighbors@[p])@ == Seq::<usize>::empty(),
            decreases n - i,
        {
            neighbors.push(Vec::new());
            i = i + 1;
        }
        let mut k: usize = 0;
        assert(adjacency@.take(0) == Seq::<(usize, Vec<usize>)>::empty());
        while k < adjacency.len()
            invariant
                k <= adjacency@.len(),
                neighbors@.len() == n,
                forall|p: usize|
                    p < n ==> (#[trigger] neighbors@[p as int])@ == listed(adjacency@.take(k as int), p),
            decreases adjacency@.len() - k,
        {
            let ghost upto = adjacency@.take(k + 1);
            assert(upto.drop_last() == adjacency@.take(k as int));
            assert(upto.last() == adjacency@[k as int]);
            let p: usize = adjacency[k].0;
            if p < n {
                let list: Vec<usize> = copied(&adjacency[k].1);
                neighbors.set(p, list);
            }
            k = k + 1;
        }
        assert(adjacency@.take(k as int) == adjacency@);
        Tessellation { centers: kept_centers, triangles, neighbors }
    }

    /// For each of the `n` points, the triangles that meet there, in ascending order.
    pub fn incidence(&self, n: usize) -> (out: Vec<Vec<u32>>)
        requires
            self.wf(n as int),
            self.triangles@.len() <= u32::MAX,
        ensures
            out@.len() == n,
            forall|p: usize| p < n ==> (#[trigger] out@[p as int])@ == incident(self.triangles@, p),
    {
        let mut out: Vec<Vec<u32>> = Vec::new();
        let mut i: usize = 0;
        while i < n
            invariant
                i <= n,
                out@.len() == i,
                forall|p: int| 0 <= p < i ==> (#[trigger] out@[p])@ == Seq::<u32>::empty(),
            decreases n - i,
        {
            out.push(Vec::new());
            i = i + 1;
        }
        let mut t: usize = 0;
        assert(self.triangles@.take(0) == Seq::<[usize; 3]>::empty());
        while t < self.triangles.len()
            invariant
                self.wf(n as int),
                t <= self.triangles@.len() <= u32::MAX,
                out@.len() == n,
                forall|p: usize|
                    p < n ==> (#[trigger] out@[p as int])@ == incident(self.triangles@.take(t as int), p),
            decreases self.triangles@.len() - t,
        {
            let ghost upto = self.triangles@.take(t + 1);
            assert(upto.drop_last() == self.triangles@.take(t as int));
            assert(upto.last() == self.triangles@[t as int]);
            let tri: [usize; 3] = self.triangles[t];
            let ghost before = out@;
            assert(tri@[0] < n && tri@[1] < n && tri@[2] < n);
            out[tri[0]].push(t as u32);
            out[tri[1]].push(t as u32);
            out[tri[2]].push(t as u32);
            assert forall|p: usize| p < n implies (#[trigger] out@[p as int])@ == incident(upto, p) by {
                assert(out@[p as int]@ =~= before[p as int]@ + corner_hits(tri, p, t as u32));
            }
            t = t + 1;
        }
        assert(self.triangles@.take(t as int) == self.triangles@);
        out
    }
}

/// A copy of `list`.
fn copied(list: &Vec<usize>) -> (out: Vec<usize>)
    ensures
        out@ == list@,
{
    let mut out: Vec<usize> = Vec::new();
    let mut k: usize = 0;
    while k < list.len()
        invariant
            k <= list@.len(),
            out@ == list@.take(k as int),
        decreases list@.len() - k,
    {
        out.push(list[k]);
        k = k + 1;
        assert(list@.take(k as int) == list@.take(k - 1).push(list@[k - 1]));
    }
    assert(list@.take(k as int) == list@);
    out
}

/// The two triangles on either side of an edge, from the triangles around its two ends.
pub(crate) fn shared_triangles(around_i: &Vec<u32>, around_j: &Vec<u32>) -> (out: Option<(u32, u32)>)
    ensures
        ({
            let both = common(around_i@, around_j@);
            out == if both.len() == 2 {
                Some((both[0], both[1]))
            } else {
                None::<(u32, u32)>
            }
        }),
{
    let mut both: Vec<u32> = Vec::new();
    let mut k: usize = 0;
    assert(around_i@.take(0) == Seq::<u32>::empty());
    while k < around_i.len()
        invariant
            k <= around_i@.len(),
            both@ == common(around_i@.take(k as int), around_j@),
        decreases around_i@.len() - k,
    {
        let ghost upto = around_i@.take(k + 1);
        assert(upto.drop_last() == around_i@.take(k as int));
        let t: u32 = around_i[k];
        let mut m: usize = 0;
        let mut found: bool = false;
        while m < around_j.len()
            invariant
                m <= around_j@.len(),
                found <==> around_j@.take(m as int).contains(t),
            decreases around_j@.len() - m,
        {
            assert(around_j@.take(m + 1) == around_j@.take(m as int).push(around_j@[m as int]));
            if around_j[m] == t {
                found = true;
                assert(around_j@.take(m + 1)[m as int] == t);
            } else if found {
                proof {
                    let a = around_j@.take(m as int).index_of(t);
                    assert(around_j@.take(m + 1)[a] == t);
                }
            }
            m = m + 1;
        }
        assert(around_j@.take(m as int) == around_j@);
        if found {
            both.push(t);
        }
        k = k + 1;
    }
    assert(around_i@.take(k as int) == around_i@);
    if both.len() == 2 {
        Some((both[0], both[1]))
    } else {
        None
    }
}

/// Number of corners of `triangle` that are points below `n`.
spec fn corners_below(triangle: [usize; 3], n: nat) -> nat {
    (if triangle@[0] < n { 1nat } else { 0 }) + (if triangle@[1] < n { 1nat } else { 0 }) + (
    if triangle@[2] < n { 1nat } else { 0 })
}

proof fn lemma_incident_total_step(triangles: Seq<[usize; 3]>, n: nat)
    requires
        triangles.len() > 0,
        n <= usize::MAX + 1,
    ensures
        incident_total(triangles, n) == incident_total(triangles.drop_last(), n) + corners_below(
            triangles.last(),
            n,
        ),
    decreases n,
{
    if n > 0 {
        lemma_incident_total_step(triangles, (n - 1) as nat);
        let p = (n - 1) as usize;
        let hits = corner_hits(triangles.last(), p, (triangles.len() - 1) as u32);
        assert(hits.len() == corners_below(triangles.last(), n) - corners_below(
            triangles.last(),
            (n - 1) as nat,
        ));
    }
}

/// Every triangle has three corners: counted over all points they are three per triangle.
pub proof fn lemma_incident_total(triangles: Seq<[usize; 3]>, n: nat)
    requires
        n <= usize::MAX,
        forall|t: int, c: int|
            0 <= t < triangles.len() && 0 <= c < 3 ==> (#[trigger] triangles[t]@[c]) < n,
    ensures
        incident_total(triangles, n) == 3 * triangles.len(),
    decreases triangles.len(),
{
    if triangles.len() == 0 {
        lemma_incident_total_empty(triangles, n);
    } else {
        lemma_incident_total_step(triangles, n);
        let less = triangles.drop_last();
        assert forall|t: int, c: int| 0 <= t < less.len() && 0 <= c < 3 implies (#[trigger] less[t]@[c]) < n by {
            assert(less[t] == triangles[t]);
            assert(triangles[t]@[c] < n);
        }
        lemma_incident_total(less, n);
        let last = triangles.len() - 1;
        assert(triangles[last]@[0] < n && triangles[last]@[1] < n && triangles[last]@[2] < n);
    }
}

proof fn lemma_incident_total_empty(triangles: Seq<[usize; 3]>, n: nat)
    requires
        triangles.len() == 0,
    ensures
        incident_total(triangles, n) == 0,
    decreases n,
{
    if n > 0 {
        lemma_incident_total_empty(triangles, (n - 1) as nat);
    }
}

/// Only indices of triangles are incident to a point.
pub proof fn lemma_incident_bound(triangles: Seq<[usize; 3]>, p: usize)
    requires
        triangles.len() <= u32::MAX,
    ensures
        forall|k: int|
            0 <= k < incident(triangles, p).len() ==> #[trigger] incident(triangles, p)[k] < triangles.len(),
    decreases triangles.len(),
{
    if triangles.len() > 0 {
        lemma_incident_bound(triangles.drop_last(), p);
        let less = incident(triangles.drop_last(), p);
        let hits = corner_hits(triangles.last(), p, (triangles.len() - 1) as u32);
        assert forall|k: int| 0 <= k < (less + hits).len() implies #[trigger] (less + hits)[k] < triangles.len() by {
            if k >= less.len() {
                assert((less + hits)[k] == hits[k - less.len()]);
            }
        }
    }
}

pub proof fn lemma_incident_total_monotone(triangles: Seq<[usize; 3]>, a: nat, b: nat)
    requires
        a <= b,
    ensures
        incident_total(triangles, a) <= incident_total(triangles, b),
    decreases b,
{
    if a < b {
        lemma_incident_total_monotone(triangles, a, (b - 1) as nat);
    }
}

/// Every triangle has three different corners.
pub open spec fn proper(triangles: Seq<[usize; 3]>) -> bool {
    forall|t: int|
        0 <= t < triangles.len() ==> (#[trigger] triangles[t])@[0] != triangles[t]@[1] && triangles[t]@[1]
            != triangles[t]@[2] && triangles[t]@[0] != triangles[t]@[2]
}

/// Each entry is greater than those before it.
spec fn ascends(list: Seq<u32>) -> bool {
    forall|a: int, b: int| 0 <= a < b < list.len() ==> #[trigger] list[a] < #[trigger] list[b]
}

proof fn lemma_incident_ascends(triangles: Seq<[usize; 3]>, p: usize)
    requires
        proper(triangles),
        triangles.len() <= u32::MAX,
    ensures
        ascends(incident(triangles, p)),
    decreases triangles.len(),
{
    if triangles.len() > 0 {
        let less = triangles.drop_last();
        assert forall|t: int| 0 <= t < less.len() implies (#[trigger] less[t])@[0] != less[t]@[1] && less[t]@[1]
            != less[t]@[2] && less[t]@[0] != less[t]@[2] by {
            assert(less[t] == triangles[t]);
        }
        lemma_incident_ascends(less, p);
        lemma_incident_bound(less, p);
        let last = triangles.len() - 1;
        assert(triangles.last() == triangles[last]);
        let hits = corner_hits(triangles.last(), p, last as u32);
        assert(hits.len() <= 1);
    }
}

/// Where `x` ascends, so does what it has in common with `y`, which is what both hold.
proof fn lemma_common(x: Seq<u32>, y: Seq<u32>, t: u32)
    requires
        ascends(x),
    ensures
        ascends(common(x, y)),
        common(x, y).contains(t) <==> x.contains(t) && y.contains(t),
        forall|k: int| 0 <= k < common(x, y).len() ==> x.contains(#[trigger] common(x, y)[k]),
    decreases x.len(),
{
    if x.len() > 0 {
        let less = x.drop_last();
        let last = x.last();
        let before = common(less, y);
        let after = common(x, y);
        assert(ascends(less)) by {
            assert forall|a: int, b: int| 0 <= a < b < less.len() implies #[trigger] less[a]
                < #[trigger] less[b] by {
                assert(x[a] < x[b]);
            }
        }
        lemma_common(less, y, t);
        assert(x[x.len() - 1] == last);
        assert forall|k: int| 0 <= k < before.len() implies #[trigger] before[k] < last && x.contains(before[k]) by {
            let m = less.index_of(before[k]);
            assert(x[m] < x[x.len() - 1]);
            assert(x[m] == before[k]);
        }
        assert(x.contains(t) <==> less.contains(t) || t == last) by {
            if less.contains(t) {
                let m = less.index_of(t);
                assert(x[m] == t);
            }
            if x.contains(t) && t != last {
                let m = x.index_of(t);
                assert(less[m] == t);
            }
        }
        if y.contains(last) {
            assert(after == before.push(last));
            assert(after.contains(t) <==> before.contains(t) || t == last) by {
                if before.contains(t) {
                    let m = before.index_of(t);
                    assert(after[m] == t);
                }
                if t == last {
                    assert(after[before.len() as int] == t);
                }
                if after.contains(t) && t != last {
                    let m = after.index_of(t);
                    assert(before[m] == t);
                }
            }
        }
    }
}

/// Two ascending lists that hold the same entries are the same list.
proof fn lemma_ascending_lists_agree(x: Seq<u32>, y: Seq<u32>)
    requires
        ascends(x),
        ascends(y),
        forall|t: u32| x.contains(t) <==> #[trigger] y.contains(t),
    ensures
        x == y,
    decreases x.len(),
{
    if x.len() == 0 {
        if y.len() > 0 {
            assert(y.contains(y[0]));
        }
        assert(x =~= y);
    } else {
        assert(x.contains(x[0]));
        assert(y.contains(x[0]));
        let a = x.last();
        let b = y.last();
        assert(x.contains(x[x.len() - 1]));
        assert(y.contains(y[y.len() - 1]));
        let i = y.index_of(a);
        let j = x.index_of(b);
        assert(y.contains(a) && x.contains(b));
        if i < y.len() - 1 {
            assert(y[i] < y[y.len() - 1]);
        }
        if j < x.len() - 1 {
            assert(x[j] < x[x.len() - 1]);
        }
        assert(a == b);
        let p = x.drop_last();
        let q = y.drop_last();
        assert forall|t: u32| p.contains(t) <==> #[trigger] q.contains(t) by {
            if p.contains(t) {
                let m = p.index_of(t);
                assert(x[m] < x[x.len() - 1]);
                assert(x[m] == t);
                assert(x.contains(t));
                assert(y.contains(t));
                let k = y.index_of(t);
                assert(q[k] == t);
            }
            if q.contains(t) {
                let m = q.index_of(t);
                assert(y[m] < y[y.len() - 1]);
                assert(y[m] == t);
                assert(y.contains(t));
                assert(x.contains(t));
                let k = x.index_of(t);
                assert(p[k] == t);
            }
        }
        assert forall|c: int, d: int| 0 <= c < d < p.len() implies #[trigger] p[c] < #[trigger] p[d] by {
            assert(x[c] < x[d]);
        }
        assert forall|c: int, d: int| 0 <= c < d < q.len() implies #[trigger] q[c] < #[trigger] q[d] by {
            assert(y[c] < y[d]);
        }
        lemma_ascending_lists_agree(p, q);
        assert(x =~= p.push(a));
        assert(y =~= q.push(b));
    }
}

/// An edge is the same from both its ends: the two triangles on either side of it, in their order, do
/// not depend on which end is named first.
pub proof fn law_shared_edge_is_symmetric(triangles: Seq<[usize; 3]>, i: usize, j: usize)
    requires
        proper(triangles),
        triangles.len() <= u32::MAX,
    ensures
        shared_edge(triangles, i, j) == shared_edge(triangles, j, i),
{
    let x = incident(triangles, i);
    let y = incident(triangles, j);
    lemma_incident_ascends(triangles, i);
    lemma_incident_ascends(triangles, j);
    lemma_common(x, y, 0);
    lemma_common(y, x, 0);
    assert forall|t: u32| common(x, y).contains(t) <==> #[trigger] common(y, x).contains(t) by {
        lemma_common(x, y, t);
        lemma_common(y, x, t);
    }
    lemma_ascending_lists_agree(common(x, y), common(y, x));
}

} // verus!
