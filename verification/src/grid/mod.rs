//! Near-uniform spherical grid: the substrate every simulation layer runs on.
//!
//! Storage is flat compressed-sparse-row (CSR): one array of offsets, and one array that holds
//! the rows end to end. The geometry itself (positions, coordinates, areas, conductances) is
//! carried by value and computed by the kernels that [`Grid::new`] is handed.

pub mod voronoi;

use crate::order::{is_stable_order, spec_value_key, stable_order, value_key};
use vstd::prelude::*;
use voronoi::{
    common, incident, incident_total, lemma_incident_bound, lemma_incident_total,
    lemma_incident_total_monotone, law_shared_edge_is_symmetric, proper, shared_edge, shared_triangles,
    Tessellation,
};

verus! {

/// `start` holds the offsets of `n` rows laid end to end in `total` entries.
pub open spec fn is_csr(start: Seq<u32>, n: int, total: int) -> bool {
    &&& start.len() == n + 1
    &&& start[0] == 0
    &&& start[n] == total
    &&& forall|i: int, j: int| 0 <= i <= j <= n ==> #[trigger] start[i] <= #[trigger] start[j]
}

/// Row `i` of the entries `data`.
pub open spec fn row<T>(start: Seq<u32>, data: Seq<T>, i: int) -> Seq<T> {
    data.subrange(start[i] as int, start[i + 1] as int)
}

/// A spherical grid of `n` cells. `P` is a position on the sphere, `L` a coordinate pair and `A`
/// a scalar.
pub struct Grid<P, L, A> {
    /// Number of cells.
    pub n: usize,
    /// Cell-center unit vectors (also the outward surface normals).
    pub centers: Vec<P>,
    /// Cell centers as (longitude, latitude) in degrees.
    pub lonlat_deg: Vec<L>,
    /// Cell areas in steradians.
    pub areas: Vec<A>,
    /// Offsets into `adj` and `adj_weight`, length `n + 1`.
    pub adj_start: Vec<u32>,
    /// Flattened neighbor cell indices.
    pub adj: Vec<u32>,
    /// Per-edge diffusion conductance.
    pub adj_weight: Vec<A>,
    /// Offsets into `ring_verts`, length `n + 1`.
    pub ring_start: Vec<u32>,
    /// Flattened cell-polygon vertices, ordered around each cell.
    pub ring_verts: Vec<P>,
}

/// The neighbors that a cell keeps: all that are listed, in their order, but the cell itself.
pub open spec fn kept(listed: Seq<usize>, cell: usize) -> Seq<u32>
    decreases listed.len(),
{
    if listed.len() == 0 {
        Seq::empty()
    } else if listed.last() == cell {
        kept(listed.drop_last(), cell)
    } else {
        kept(listed.drop_last(), cell).push(listed.last() as u32)
    }
}

/// Sum of the lengths of the first `k` rows of `rows`.
pub open spec fn rows_total(rows: Seq<Vec<usize>>, k: nat) -> nat
    decreases k,
{
    if k == 0 {
        0
    } else {
        rows_total(rows, (k - 1) as nat) + rows[k - 1]@.len()
    }
}

/// `ring` is the cell's polygon: the vertices `verts` in stable ascending order of their azimuths
/// about the cell, each azimuth being what `azimuth` gave for that vertex.
pub open spec fn is_ring<P, F: Fn(usize, P) -> i32>(
    azimuth: F,
    cell: usize,
    verts: Seq<P>,
    ring: Seq<P>,
) -> bool {
    exists|keys: Seq<i32>, order: Seq<usize>|
        {
            &&& keys.len() == verts.len()
            &&& forall|k: int|
                0 <= k < verts.len() ==> call_ensures(azimuth, (cell, verts[k]), #[trigger] keys[k])
            &&& #[trigger] is_stable_order(keys, order)
            &&& ring == Seq::new(order.len(), |k: int| verts[order[k] as int])
        }
}

/// How the area of a cell is measured: the sectors of its fan are added up, one per polygon edge,
/// and the sum is finished.
pub struct Fan<A, F, G> {
    /// No area.
    pub zero: A,
    /// The sum so far with one sector more: the cell's center and the two ends of the edge.
    pub sector: F,
    /// The area, from the sum of its sectors.
    pub whole: G,
}

impl<A, F, G> Fan<A, F, G> {
    /// `sums` add up the first `k` sectors of the fan around `center` with polygon `ring`.
    pub open spec fn are_sums<P>(&self, center: P, ring: Seq<P>, k: int, sums: Seq<A>) -> bool where
        F: Fn(A, P, P, P) -> A,
     {
        &&& sums.len() == k + 1
        &&& sums[0] == self.zero
        &&& forall|m: int|
            0 <= m < k ==> call_ensures(
                self.sector,
                (sums[m], center, (#[trigger] side(ring, m)).0, side(ring, m).1),
                sums[m + 1],
            )
    }

    /// `a` is the area of the cell around `center` with polygon `ring`.
    pub open spec fn is_area<P>(&self, center: P, ring: Seq<P>, a: A) -> bool where
        F: Fn(A, P, P, P) -> A,
        G: Fn(A) -> A,
     {
        exists|sums: Seq<A>| #[trigger]
            self.are_sums(center, ring, ring.len() as int, sums) && call_ensures(
                self.whole,
                (sums.last(),),
                a,
            )
    }

    /// The area of the cell around `center` with polygon `ring`.
    fn area<P: Copy>(&self, center: P, ring: &Vec<P>) -> (a: A) where
        A: Copy,
        F: Fn(A, P, P, P) -> A,
        G: Fn(A) -> A,

        requires
            forall|t: A, c: P, p: P, q: P| #[trigger] call_requires(self.sector, (t, c, p, q)),
            forall|t: A| #[trigger] call_requires(self.whole, (t,)),
        ensures
            self.is_area(center, ring@, a),
    {
        let mut sum: A = self.zero;
        let ghost mut sums: Seq<A> = seq![sum];
        let mut k: usize = 0;
        while k < ring.len()
            invariant
                forall|t: A, c: P, p: P, q: P| #[trigger] call_requires(self.sector, (t, c, p, q)),
                k <= ring@.len(),
                self.are_sums(center, ring@, k as int, sums),
                sums.last() == sum,
            decreases ring@.len() - k,
        {
            let next: usize = if k + 1 < ring.len() {
                k + 1
            } else {
                0
            };
            let ghost before = sums;
            assert(side(ring@, k as int) == (ring@[k as int], ring@[next as int]));
            sum = (self.sector)(sum, center, ring[k], ring[next]);
            proof {
                sums = before.push(sum);
                assert forall|m: int| 0 <= m < k + 1 implies call_ensures(
                    self.sector,
                    (sums[m], center, (#[trigger] side(ring@, m)).0, side(ring@, m).1),
                    sums[m + 1],
                ) by {
                    if m < k {
                        assert(sums[m] == before[m] && sums[m + 1] == before[m + 1]);
                    }
                }
            }
            k = k + 1;
        }
        (self.whole)(sum)
    }
}

/// Edge `k` of a polygon: its two ends.
pub open spec fn side<P>(ring: Seq<P>, k: int) -> (P, P) {
    (ring[k], ring[wrapped(k + 1, ring.len() as int)])
}

/// Index `k` on a ring of `m` corners, the first following the last.
pub open spec fn wrapped(k: int, m: int) -> int {
    if k < m {
        k
    } else {
        k - m
    }
}

/// The Voronoi vertices around `cell`, in triangle order.
pub open spec fn corner_verts<P>(tess: Tessellation<P>, cell: usize) -> Seq<P> {
    let around = incident(tess.triangles@, cell);
    Seq::new(around.len(), |k: int| tess.centers@[around[k] as int])
}

/// The two Voronoi vertices of the edge between `i` and `j`, where exactly two triangles share it.
pub open spec fn edge_verts<P>(tess: Tessellation<P>, i: usize, j: usize) -> Option<(P, P)> {
    match shared_edge(tess.triangles@, i, j) {
        Some((a, b)) => Some((tess.centers@[a as int], tess.centers@[b as int])),
        None => None,
    }
}

impl<P, L, A> Grid<P, L, A> {
    /// Every array has its length, the offsets are monotone, and every neighbor is a cell.
    pub open spec fn wf(&self) -> bool {
        &&& self.n <= u32::MAX
        &&& self.centers@.len() == self.n
        &&& self.lonlat_deg@.len() == self.n
        &&& self.areas@.len() == self.n
        &&& is_csr(self.adj_start@, self.n as int, self.adj@.len() as int)
        &&& self.adj_weight@.len() == self.adj@.len()
        &&& is_csr(self.ring_start@, self.n as int, self.ring_verts@.len() as int)
        &&& forall|k: int| 0 <= k < self.adj@.len() ==> #[trigger] self.adj@[k] < self.n
    }

    /// Neighbor indices of cell `i`.
    pub open spec fn neighbors_of(&self, i: int) -> Seq<u32> {
        row(self.adj_start@, self.adj@, i)
    }

    /// Conductances of cell `i`, parallel to its neighbors.
    pub open spec fn weights_of(&self, i: int) -> Seq<A> {
        row(self.adj_start@, self.adj_weight@, i)
    }

    /// Polygon of cell `i`.
    pub open spec fn ring_of(&self, i: int) -> Seq<P> {
        row(self.ring_start@, self.ring_verts@, i)
    }

    /// The neighbor lists of all cells.
    pub open spec fn links(&self) -> Seq<Seq<u32>> {
        Seq::new(self.n as nat, |i: int| self.neighbors_of(i))
    }

    /// Every entry of every neighbor list is a cell.
    pub proof fn lemma_links(&self)
        requires
            self.wf(),
        ensures
            self.links().len() == self.n,
            forall|a: int, k: int|
                0 <= a < self.n && 0 <= k < self.links()[a].len() ==> (#[trigger] self.links()[a][k])
                    < self.n,
    {
        assert forall|a: int, k: int| 0 <= a < self.n && 0 <= k < self.links()[a].len() implies (
        #[trigger] self.links()[a][k]) < self.n by {
            assert(self.adj_start@[a] <= self.adj_start@[a + 1]);
            assert(self.adj_start@[a + 1] <= self.adj_start@[self.n as int]);
            assert(self.links()[a][k] == self.adj@[self.adj_start@[a] + k]);
        }
    }

    /// Neighbor indices of cell `i`.
    pub fn neighbors(&self, i: usize) -> (out: &[u32])
        requires
            self.wf(),
            i < self.n,
        ensures
            out@ == self.neighbors_of(i as int),
            forall|k: int| 0 <= k < out@.len() ==> #[trigger] out@[k] < self.n,
    {
        let lo: usize = self.adj_start[i] as usize;
        let hi: usize = self.adj_start[i + 1] as usize;
        assert(self.adj_start@[i as int] <= self.adj_start@[i + 1]);
        assert(self.adj_start@[i + 1] <= self.adj_start@[self.n as int]);
        vstd::slice::slice_subrange(self.adj.as_slice(), lo, hi)
    }

    /// Per-edge conductance weights for cell `i` (parallel to [`Self::neighbors`]).
    pub fn neighbor_weights(&self, i: usize) -> (out: &[A])
        requires
            self.wf(),
            i < self.n,
        ensures
            out@ == self.weights_of(i as int),
            out@.len() == self.neighbors_of(i as int).len(),
    {
        let lo: usize = self.adj_start[i] as usize;
        let hi: usize = self.adj_start[i + 1] as usize;
        assert(self.adj_start@[i as int] <= self.adj_start@[i + 1]);
        assert(self.adj_start@[i + 1] <= self.adj_start@[self.n as int]);
        vstd::slice::slice_subrange(self.adj_weight.as_slice(), lo, hi)
    }

    /// Polygon vertices of cell `i`, ordered around it.
    pub fn ring(&self, i: usize) -> (out: &[P])
        requires
            self.wf(),
            i < self.n,
        ensures
            out@ == self.ring_of(i as int),
    {
        let lo: usize = self.ring_start[i] as usize;
        let hi: usize = self.ring_start[i + 1] as usize;
        assert(self.ring_start@[i as int] <= self.ring_start@[i + 1]);
        assert(self.ring_start@[i + 1] <= self.ring_start@[self.n as int]);
        vstd::slice::slice_subrange(self.ring_verts.as_slice(), lo, hi)
    }
}

/// `cell` is the first of the cells that lie closest to `to`: `closeness` gave how close each one
/// lies as the pattern of a real, `patterns`.
pub open spec fn is_nearest<P, F: Fn(P, P) -> u32>(
    centers: Seq<P>,
    closeness: F,
    to: P,
    patterns: Seq<u32>,
    cell: int,
) -> bool {
    &&& patterns.len() == centers.len()
    &&& forall|i: int|
        0 <= i < centers.len() ==> call_ensures(closeness, (to, centers[i]), #[trigger] patterns[i])
    &&& 0 <= cell < centers.len()
    &&& forall|i: int|
        0 <= i < cell ==> spec_value_key(#[trigger] patterns[i]) < spec_value_key(patterns[cell])
    &&& forall|i: int|
        0 <= i < centers.len() ==> spec_value_key(#[trigger] patterns[i]) <= spec_value_key(
            patterns[cell],
        )
}

impl<P: Copy, L, A> Grid<P, L, A> {
    /// The cell whose center is closest to `to`, the first of them where several are; `closeness`
    /// tells how close two positions are.
    pub fn nearest_cell<F: Fn(P, P) -> u32>(&self, to: P, closeness: &F) -> (cell: usize)
        requires
            self.wf(),
            self.n > 0,
            forall|p: P, q: P| #[trigger] call_requires(*closeness, (p, q)),
        ensures
            cell < self.n,
            exists|patterns: Seq<u32>| #[trigger]
                is_nearest(self.centers@, *closeness, to, patterns, cell as int),
    {
        let mut cell: usize = 0;
        let first: u32 = closeness(to, self.centers[0]);
        let mut best: i32 = value_key(first);
        let ghost mut patterns: Seq<u32> = seq![first];
        let mut i: usize = 1;
        while i < self.n
            invariant
                self.wf(),
                forall|p: P, q: P| #[trigger] call_requires(*closeness, (p, q)),
                1 <= i <= self.n,
                cell < i,
                patterns.len() == i,
                forall|k: int|
                    0 <= k < i ==> call_ensures(*closeness, (to, self.centers@[k]), #[trigger] patterns[k]),
                best == spec_value_key(patterns[cell as int]),
                forall|k: int| 0 <= k < cell ==> spec_value_key(#[trigger] patterns[k]) < best,
                forall|k: int| 0 <= k < i ==> spec_value_key(#[trigger] patterns[k]) <= best,
            decreases self.n - i,
        {
            let pattern: u32 = closeness(to, self.centers[i]);
            let key: i32 = value_key(pattern);
            proof {
                patterns = patterns.push(pattern);
            }
            if key > best {
                best = key;
                cell = i;
            }
            i = i + 1;
        }
        assert(is_nearest(self.centers@, *closeness, to, patterns, cell as int));
        cell
    }
}

/// Row `i` is not touched when entries are appended behind it.
proof fn lemma_row_stays<T>(start: Seq<u32>, data: Seq<T>, more: Seq<T>, i: int)
    requires
        0 <= i < start.len() - 1,
        start[i] <= start[i + 1] <= data.len() <= more.len(),
        more.take(data.len() as int) == data,
    ensures
        row(start, more, i) == row(start, data, i),
{
    assert forall|k: int| start[i] <= k < start[i + 1] implies more[k] == data[k] by {
        assert(more.take(data.len() as int)[k] == data[k]);
    }
    assert(row(start, more, i) =~= row(start, data, i));
}

/// The polygon of one cell: its vertices in stable ascending order of azimuth.
fn order_ring<P: Copy, F: Fn(usize, P) -> i32>(azimuth: &F, cell: usize, verts: &Vec<P>) -> (ring: Vec<P>)
    requires
        forall|p: P| #[trigger] call_requires(*azimuth, (cell, p)),
    ensures
        is_ring(*azimuth, cell, verts@, ring@),
        ring@.len() == verts@.len(),
{
    let mut keys: Vec<i32> = Vec::new();
    let mut k: usize = 0;
    while k < verts.len()
        invariant
            k <= verts@.len(),
            keys@.len() == k,
            forall|p: P| #[trigger] call_requires(*azimuth, (cell, p)),
            forall|m: int|
                0 <= m < k ==> call_ensures(*azimuth, (cell, verts@[m]), #[trigger] keys@[m]),
        decreases verts@.len() - k,
    {
        keys.push(azimuth(cell, verts[k]));
        k = k + 1;
    }
    let order: Vec<usize> = stable_order(&keys);
    let mut ring: Vec<P> = Vec::new();
    let mut m: usize = 0;
    while m < order.len()
        invariant
            m <= order@.len(),
            order@.len() == verts@.len(),
            is_stable_order(keys@, order@),
            keys@.len() == verts@.len(),
            ring@ == Seq::new(m as nat, |k: int| verts@[order@[k] as int]),
        decreases order@.len() - m,
    {
        ring.push(verts[order[m]]);
        m = m + 1;
        assert(ring@ =~= Seq::new(m as nat, |k: int| verts@[order@[k] as int]));
    }
    assert(is_stable_order(keys@, order@));
    ring
}

/// The render rings of all cells in CSR form, and the cell areas.
fn build_rings<P: Copy, A: Copy, F: Fn(usize, P) -> i32, G: Fn(A, P, P, P) -> A, K: Fn(A) -> A>(
    n: usize,
    centers: &Vec<P>,
    tess: &Tessellation<P>,
    around: &Vec<Vec<u32>>,
    azimuth: &F,
    fan: &Fan<A, G, K>,
) -> (out: (Vec<u32>, Vec<P>, Vec<A>))
    requires
        centers@.len() == n,
        n <= u32::MAX,
        tess.wf(n as int),
        3 * tess.triangles@.len() <= u32::MAX,
        around@.len() == n,
        forall|p: usize| p < n ==> (#[trigger] around@[p as int])@ == incident(tess.triangles@, p),
        forall|i: usize, p: P| i < n ==> #[trigger] call_requires(*azimuth, (i, p)),
        forall|t: A, c: P, p: P, q: P| #[trigger] call_requires(fan.sector, (t, c, p, q)),
        forall|t: A| #[trigger] call_requires(fan.whole, (t,)),
    ensures
        is_csr(out.0@, n as int, out.1@.len() as int),
        out.2@.len() == n,
        out.1@.len() == 3 * tess.triangles@.len(),
        forall|i: usize|
            i < n ==> is_ring(
                *azimuth,
                i,
                corner_verts(*tess, i),
                #[trigger] row(out.0@, out.1@, i as int),
            ) && fan.is_area(centers@[i as int], row(out.0@, out.1@, i as int), out.2@[i as int]),
{
    let mut start: Vec<u32> = Vec::new();
    let mut verts: Vec<P> = Vec::new();
    let mut areas: Vec<A> = Vec::new();
    start.push(0);
    let mut i: usize = 0;
    proof {
        lemma_incident_total(tess.triangles@, n as nat);
    }
    while i < n
        invariant
            i <= n <= u32::MAX,
            tess.wf(n as int),
            3 * tess.triangles@.len() <= u32::MAX,
            incident_total(tess.triangles@, n as nat) == 3 * tess.triangles@.len(),
            around@.len() == n,
            forall|p: usize| p < n ==> (#[trigger] around@[p as int])@ == incident(tess.triangles@, p),
            forall|c: usize, p: P| c < n ==> #[trigger] call_requires(*azimuth, (c, p)),
            centers@.len() == n,
            forall|t: A, c: P, p: P, q: P| #[trigger] call_requires(fan.sector, (t, c, p, q)),
            forall|t: A| #[trigger] call_requires(fan.whole, (t,)),
            is_csr(start@, i as int, verts@.len() as int),
            verts@.len() == incident_total(tess.triangles@, i as nat),
            areas@.len() == i,
            forall|c: usize|
                c < i ==> is_ring(
                    *azimuth,
                    c,
                    corner_verts(*tess, c),
                    #[trigger] row(start@, verts@, c as int),
                ) && fan.is_area(centers@[c as int], row(start@, verts@, c as int), areas@[c as int]),
        decreases n - i,
    {
        let mut corners: Vec<P> = Vec::new();
        let mut k: usize = 0;
        proof {
            lemma_incident_bound(tess.triangles@, i);
            lemma_incident_total_monotone(tess.triangles@, (i + 1) as nat, n as nat);
        }
        while k < around[i as usize].len()
            invariant
                i < n,
                around@.len() == n,
                k <= around@[i as int]@.len(),
                around@[i as int]@ == incident(tess.triangles@, i),
                tess.wf(n as int),
                forall|m: int|
                    0 <= m < around@[i as int]@.len() ==> (#[trigger] around@[i as int]@[m])
                        < tess.triangles@.len(),
                corners@ == corner_verts(*tess, i).take(k as int),
            decreases around@[i as int]@.len() - k,
        {
            corners.push(tess.centers[around[i][k] as usize]);
            k = k + 1;
            assert(corners@ =~= corner_verts(*tess, i).take(k as int));
        }
        assert(corners@ =~= corner_verts(*tess, i));
        let ring: Vec<P> = order_ring(azimuth, i, &corners);
        let a: A = fan.area(centers[i], &ring);
        areas.push(a);
        let ghost old_start = start@;
        let ghost old_verts = verts@;
        let mut m: usize = 0;
        while m < ring.len()
            invariant
                m <= ring@.len(),
                verts@ == old_verts + ring@.take(m as int),
            decreases ring@.len() - m,
        {
            verts.push(ring[m]);
            m = m + 1;
            assert(verts@ =~= old_verts + ring@.take(m as int));
        }
        assert(verts@ == old_verts + ring@);
        assert(incident_total(tess.triangles@, (i + 1) as nat) == verts@.len());
        start.push(verts.len() as u32);
        i = i + 1;
        proof {
            assert(row(start@, verts@, i - 1) =~= ring@);
            assert forall|c: usize| c < i implies is_ring(
                *azimuth,
                c,
                corner_verts(*tess, c),
                #[trigger] row(start@, verts@, c as int),
            ) && fan.is_area(centers@[c as int], row(start@, verts@, c as int), areas@[c as int]) by {
                if c < i - 1 {
                    assert(row(old_start, old_verts, c as int) == row(start@, old_verts, c as int));
                    assert(old_start[c + 1] <= old_start[i - 1]);
                    assert(old_start[c as int] <= old_start[c + 1]);
                    assert(verts@.take(old_verts.len() as int) =~= old_verts);
                    lemma_row_stays(start@, old_verts, verts@, c as int);
                }
            }
        }
    }
    (start, verts, areas)
}

/// The adjacency of all cells in CSR form, with its conductances.
fn build_adjacency<P: Copy, A, F: Fn(usize, usize, Option<(P, P)>) -> A>(
    n: usize,
    tess: &Tessellation<P>,
    around: &Vec<Vec<u32>>,
    weight: &F,
) -> (out: (Vec<u32>, Vec<u32>, Vec<A>))
    requires
        n <= u32::MAX,
        tess.wf(n as int),
        tess.triangles@.len() <= u32::MAX,
        rows_total(tess.neighbors@, n as nat) <= u32::MAX,
        around@.len() == n,
        forall|p: usize| p < n ==> (#[trigger] around@[p as int])@ == incident(tess.triangles@, p),
        forall|i: usize, j: usize, e: Option<(P, P)>|
            i < n && j < n ==> #[trigger] call_requires(*weight, (i, j, e)),
    ensures
        is_csr(out.0@, n as int, out.1@.len() as int),
        out.2@.len() == out.1@.len(),
        forall|k: int| 0 <= k < out.1@.len() ==> #[trigger] out.1@[k] < n,
        forall|i: usize|
            i < n ==> #[trigger] row(out.0@, out.1@, i as int) == kept(tess.neighbors@[i as int]@, i),
        forall|i: usize|
            i < n ==> weights_given(*weight, *tess, i, row(out.0@, out.1@, i as int), #[trigger] row(out.0@, out.2@, i as int)),
{
    let mut start: Vec<u32> = Vec::new();
    let mut adj: Vec<u32> = Vec::new();
    let mut weights: Vec<A> = Vec::new();
    start.push(0);
    let mut i: usize = 0;
    while i < n
        invariant
            i <= n <= u32::MAX,
            tess.wf(n as int),
            tess.triangles@.len() <= u32::MAX,
            rows_total(tess.neighbors@, n as nat) <= u32::MAX,
            around@.len() == n,
            forall|p: usize| p < n ==> (#[trigger] around@[p as int])@ == incident(tess.triangles@, p),
            forall|c: usize, j: usize, e: Option<(P, P)>|
                c < n && j < n ==> #[trigger] call_requires(*weight, (c, j, e)),
            is_csr(start@, i as int, adj@.len() as int),
            weights@.len() == adj@.len(),
            adj@.len() <= rows_total(tess.neighbors@, i as nat),
            forall|k: int| 0 <= k < adj@.len() ==> #[trigger] adj@[k] < n,
            forall|c: usize|
                c < i ==> #[trigger] row(start@, adj@, c as int) == kept(tess.neighbors@[c as int]@, c),
            forall|c: usize|
                c < i ==> weights_given(*weight, *tess, c, row(start@, adj@, c as int), #[trigger] row(start@, weights@, c as int)),
        decreases n - i,
    {
        let ghost old_start = start@;
        let ghost old_adj = adj@;
        let ghost old_weights = weights@;
        let ghost list = tess.neighbors@[i as int]@;
        let mut k: usize = 0;
        assert(list.take(0) == Seq::<usize>::empty());
        while k < tess.neighbors[i].len()
            invariant
                i < n <= u32::MAX,
                tess.wf(n as int),
                tess.triangles@.len() <= u32::MAX,
                list == tess.neighbors@[i as int]@,
                k <= list.len(),
                around@.len() == n,
                forall|p: usize| p < n ==> (#[trigger] around@[p as int])@ == incident(tess.triangles@, p),
                forall|c: usize, j: usize, e: Option<(P, P)>|
                    c < n && j < n ==> #[trigger] call_requires(*weight, (c, j, e)),
                adj@ == old_adj + kept(list.take(k as int), i),
                weights@.len() == adj@.len(),
                old_weights.len() == old_adj.len(),
                weights@.take(old_weights.len() as int) == old_weights,
                adj@.len() <= old_adj.len() + k,
                forall|m: int| 0 <= m < adj@.len() ==> #[trigger] adj@[m] < n,
                forall|m: int|
                    old_adj.len() <= m < adj@.len() ==> call_ensures(
                        *weight,
                        (i, adj@[m] as usize, edge_verts(*tess, i, adj@[m] as usize)),
                        #[trigger] weights@[m],
                    ),
            decreases list.len() - k,
        {
            let j: usize = tess.neighbors[i][k];
            assert(tess.neighbors@[i as int]@[k as int] < n);
            let ghost upto = list.take(k + 1);
            assert(upto.drop_last() == list.take(k as int));
            assert(upto.last() == j);
            let ghost prior_adj = adj@;
            let ghost prior = weights@;
            if j != i {
                let edge: Option<(P, P)> = match shared_triangles(&around[i], &around[j]) {
                    Some((a, b)) => {
                        proof {
                            lemma_incident_bound(tess.triangles@, i);
                            lemma_common_from_first(
                                incident(tess.triangles@, i),
                                incident(tess.triangles@, j),
                                tess.triangles@.len() as int,
                            );
                        }
                        Some((tess.centers[a as usize], tess.centers[b as usize]))
                    },
                    None => None,
                };
                let w: A = weight(i, j, edge);
                adj.push(j as u32);
                weights.push(w);
                assert(weights@.take(old_weights.len() as int) =~= prior.take(old_weights.len() as int));
                assert(adj@ =~= old_adj + kept(upto, i));
            }
            k = k + 1;
            assert forall|m: int| old_adj.len() <= m < adj@.len() implies call_ensures(
                *weight,
                (i, adj@[m] as usize, edge_verts(*tess, i, adj@[m] as usize)),
                #[trigger] weights@[m],
            ) by {
                if m < prior.len() {
                    assert(adj@[m] == prior_adj[m]);
                    assert(weights@[m] == prior[m]);
                }
            }
        }
        assert(list.take(k as int) == list);
        proof {
            lemma_rows_total_monotone(tess.neighbors@, (i + 1) as nat, n as nat);
        }
        assert(adj@.len() <= rows_total(tess.neighbors@, (i + 1) as nat));
        start.push(adj.len() as u32);
        i = i + 1;
        proof {
            assert(row(start@, adj@, i - 1) =~= kept(list, (i - 1) as usize));
            assert(adj@.take(old_adj.len() as int) =~= old_adj);
            assert forall|c: usize| c < i implies #[trigger] row(start@, adj@, c as int) == kept(
                tess.neighbors@[c as int]@,
                c,
            ) by {
                if c < i - 1 {
                    assert(row(old_start, old_adj, c as int) == row(start@, old_adj, c as int));
                    assert(old_start[c + 1] <= old_start[i - 1]);
                    assert(old_start[c as int] <= old_start[c + 1]);
                    lemma_row_stays(start@, old_adj, adj@, c as int);
                }
            }
            assert forall|c: usize| c < i implies weights_given(
                *weight,
                *tess,
                c,
                row(start@, adj@, c as int),
                #[trigger] row(start@, weights@, c as int),
            ) by {
                if c < i - 1 {
                    assert(row(old_start, old_adj, c as int) == row(start@, old_adj, c as int));
                    assert(row(old_start, old_weights, c as int) == row(start@, old_weights, c as int));
                    assert(old_start[c + 1] <= old_start[i - 1]);
                    assert(old_start[c as int] <= old_start[c + 1]);
                    lemma_row_stays(start@, old_adj, adj@, c as int);
                    lemma_row_stays(start@, old_weights, weights@, c as int);
                }
            }
        }
    }
    (start, adj, weights)
}

/// `given` holds, for each of `cell`'s neighbors in turn, what `weight` gave for that edge.
pub open spec fn weights_given<P, A, F: Fn(usize, usize, Option<(P, P)>) -> A>(
    weight: F,
    tess: Tessellation<P>,
    cell: usize,
    neighbors: Seq<u32>,
    given: Seq<A>,
) -> bool {
    &&& given.len() == neighbors.len()
    &&& forall|k: int|
        0 <= k < neighbors.len() ==> call_ensures(
            weight,
            (cell, neighbors[k] as usize, edge_verts(tess, cell, neighbors[k] as usize)),
            #[trigger] given[k],
        )
}

proof fn lemma_rows_total_monotone(rows: Seq<Vec<usize>>, a: nat, b: nat)
    requires
        a <= b,
    ensures
        rows_total(rows, a) <= rows_total(rows, b),
    decreases b,
{
    if a < b {
        lemma_rows_total_monotone(rows, a, (b - 1) as nat);
    }
}

/// What is common to two lists comes out of the first.
proof fn lemma_common_from_first(first: Seq<u32>, second: Seq<u32>, bound: int)
    requires
        forall|k: int| 0 <= k < first.len() ==> #[trigger] first[k] < bound,
    ensures
        forall|k: int| 0 <= k < common(first, second).len() ==> #[trigger] common(first, second)[k] < bound,
    decreases first.len(),
{
    if first.len() > 0 {
        let less = common(first.drop_last(), second);
        lemma_common_from_first(first.drop_last(), second, bound);
        assert(first[first.len() - 1] < bound);
        assert forall|k: int| 0 <= k < common(first, second).len() implies #[trigger] common(first, second)[k]
            < bound by {
            if k < less.len() {
                assert(common(first, second)[k] == less[k]);
            }
        }
    }
}

impl<P: Copy, L, A: Copy> Grid<P, L, A> {
    /// Build the grid over `centers` from their tessellation. `azimuth` orders a cell's Voronoi
    /// vertices around it, `fan` measures the finished polygon, and `weight` gives the
    /// conductance of an edge from the two Voronoi vertices at its ends, or from none where the
    /// adjacency is degenerate.
    pub fn new<F, G, K, H>(
        centers: Vec<P>,
        lonlat_deg: Vec<L>,
        tess: &Tessellation<P>,
        azimuth: &F,
        fan: &Fan<A, G, K>,
        weight: &H,
    ) -> (grid: Self) where
        F: Fn(usize, P) -> i32,
        G: Fn(A, P, P, P) -> A,
        K: Fn(A) -> A,
        H: Fn(usize, usize, Option<(P, P)>) -> A,

        requires
            centers@.len() <= u32::MAX,
            lonlat_deg@.len() == centers@.len(),
            tess.wf(centers@.len() as int),
            3 * tess.triangles@.len() <= u32::MAX,
            rows_total(tess.neighbors@, centers@.len()) <= u32::MAX,
            forall|i: usize, p: P| i < centers@.len() ==> #[trigger] call_requires(*azimuth, (i, p)),
            forall|t: A, c: P, p: P, q: P| #[trigger] call_requires(fan.sector, (t, c, p, q)),
            forall|t: A| #[trigger] call_requires(fan.whole, (t,)),
            forall|i: usize, j: usize, e: Option<(P, P)>|
                i < centers@.len() && j < centers@.len() ==> #[trigger] call_requires(*weight, (i, j, e)),
        ensures
            grid.wf(),
            grid.centers@ == centers@,
            grid.lonlat_deg@ == lonlat_deg@,
            grid.ring_verts@.len() == 3 * tess.triangles@.len(),
            forall|i: usize|
                i < grid.n ==> is_ring(
                    *azimuth,
                    i,
                    corner_verts(*tess, i),
                    #[trigger] grid.ring_of(i as int),
                ) && fan.is_area(centers@[i as int], grid.ring_of(i as int), grid.areas@[i as int]),
            forall|i: usize|
                i < grid.n ==> #[trigger] grid.neighbors_of(i as int) == kept(
                    tess.neighbors@[i as int]@,
                    i,
                ),
            forall|i: usize|
                i < grid.n ==> weights_given(
                    *weight,
                    *tess,
                    i,
                    grid.neighbors_of(i as int),
                    #[trigger] grid.weights_of(i as int),
                ),
    {
        let n: usize = centers.len();
        let around: Vec<Vec<u32>> = tess.incidence(n);
        let (ring_start, ring_verts, areas) = build_rings(n, &centers, tess, &around, azimuth, fan);
        let (adj_start, adj, adj_weight) = build_adjacency(n, tess, &around, weight);
        let grid = Grid {
            n,
            centers,
            lonlat_deg,
            areas,
            adj_start,
            adj,
            adj_weight,
            ring_start,
            ring_verts,
        };
        proof {
            assert forall|i: usize| i < grid.n implies is_ring(
                *azimuth,
                i,
                corner_verts(*tess, i),
                #[trigger] grid.ring_of(i as int),
            ) && fan.is_area(centers@[i as int], grid.ring_of(i as int), grid.areas@[i as int]) by {
                assert(grid.ring_of(i as int) == row(ring_start@, ring_verts@, i as int));
            }
            assert forall|i: usize| i < grid.n implies #[trigger] grid.neighbors_of(i as int) == kept(
                tess.neighbors@[i as int]@,
                i,
            ) by {
                assert(grid.neighbors_of(i as int) == row(adj_start@, adj@, i as int));
            }
            assert forall|i: usize| i < grid.n implies weights_given(
                *weight,
                *tess,
                i,
                grid.neighbors_of(i as int),
                #[trigger] grid.weights_of(i as int),
            ) by {
                assert(grid.weights_of(i as int) == row(adj_start@, adj_weight@, i as int));
            }
        }
        grid
    }
}

/// A cell keeps exactly the neighbors that are listed for it and are not itself.
pub proof fn lemma_kept_contains(listed: Seq<usize>, cell: usize, j: usize)
    requires
        forall|k: int| 0 <= k < listed.len() ==> #[trigger] listed[k] <= u32::MAX,
        j <= u32::MAX,
    ensures
        kept(listed, cell).contains(j as u32) <==> listed.contains(j) && j != cell,
    decreases listed.len(),
{
    if listed.len() > 0 {
        let less = listed.drop_last();
        let last = listed.last();
        assert(last == listed[listed.len() - 1]);
        lemma_kept_contains(less, cell, j);
        assert(listed.contains(j) <==> less.contains(j) || last == j) by {
            if less.contains(j) {
                let a = less.index_of(j);
                assert(listed[a] == j);
            }
            if listed.contains(j) && last != j {
                let a = listed.index_of(j);
                assert(less[a] == j);
            }
        }
        if last != cell {
            let shorter = kept(less, cell);
            let whole = kept(listed, cell);
            assert(whole == shorter.push(last as u32));
            assert(whole.contains(j as u32) <==> shorter.contains(j as u32) || last == j) by {
                if shorter.contains(j as u32) {
                    let a = shorter.index_of(j as u32);
                    assert(whole[a] == j as u32);
                }
                if last == j {
                    assert(whole[shorter.len() as int] == j as u32);
                }
                if whole.contains(j as u32) && last != j {
                    let a = whole.index_of(j as u32);
                    assert(shorter[a] == j as u32);
                }
            }
        }
    }
}

/// Adjacency is symmetric: where the tessellation lists every adjacency from both sides, each
/// cell that is a neighbor of another has that other as its own neighbor, and no cell neighbors
/// itself.
pub proof fn law_adjacency_is_symmetric<P>(tess: Tessellation<P>, n: int, i: usize, j: usize)
    requires
        n <= u32::MAX,
        tess.wf(n),
        i < n,
        j < n,
        forall|a: usize, b: usize|
            a < n && b < n && #[trigger] tess.neighbors@[a as int]@.contains(b)
                ==> tess.neighbors@[b as int]@.contains(a),
    ensures
        kept(tess.neighbors@[i as int]@, i).contains(j as u32) ==> kept(
            tess.neighbors@[j as int]@,
            j,
        ).contains(i as u32),
        !kept(tess.neighbors@[i as int]@, i).contains(i as u32),
{
    assert forall|k: int| 0 <= k < tess.neighbors@[i as int]@.len() implies #[trigger] tess.neighbors@[i as int]@[k]
        <= u32::MAX by {
        assert(tess.neighbors@[i as int]@[k] < n);
    }
    assert forall|k: int| 0 <= k < tess.neighbors@[j as int]@.len() implies #[trigger] tess.neighbors@[j as int]@[k]
        <= u32::MAX by {
        assert(tess.neighbors@[j as int]@[k] < n);
    }
    lemma_kept_contains(tess.neighbors@[i as int]@, i, j);
    lemma_kept_contains(tess.neighbors@[j as int]@, j, i);
    lemma_kept_contains(tess.neighbors@[i as int]@, i, i);
}

/// No area is negative, where a finished fan is never measured as negative.
pub proof fn law_areas_are_not_negative<P, L, A, G: Fn(A, P, P, P) -> A, K: Fn(A) -> A>(
    grid: &Grid<P, L, A>,
    fan: Fan<A, G, K>,
    negative: spec_fn(A) -> bool,
    i: int,
)
    requires
        forall|t: A, a: A| #[trigger] call_ensures(fan.whole, (t,), a) ==> !negative(a),
        fan.is_area(grid.centers@[i], grid.ring_of(i), grid.areas@[i]),
    ensures
        !negative(grid.areas@[i]),
{
}

/// The ends of an edge in space are the same from both its cells.
pub proof fn law_edge_is_symmetric<P>(tess: Tessellation<P>, i: usize, j: usize)
    requires
        proper(tess.triangles@),
        tess.triangles@.len() <= u32::MAX,
    ensures
        edge_verts(tess, i, j) == edge_verts(tess, j, i),
{
    law_shared_edge_is_symmetric(tess.triangles@, i, j);
}

/// An edge has one conductance: where the weight of an edge does not depend on which of its cells is
/// named first, two neighbors hold the same weight for each other.
pub proof fn law_conductance_is_symmetric<P, L, A, F: Fn(usize, usize, Option<(P, P)>) -> A>(
    grid: &Grid<P, L, A>,
    tess: Tessellation<P>,
    weight: F,
    i: usize,
    j: usize,
    k: int,
    m: int,
)
    requires
        proper(tess.triangles@),
        tess.triangles@.len() <= u32::MAX,
        forall|a: usize, b: usize, e: Option<(P, P)>, x: A, y: A|
            #[trigger] call_ensures(weight, (a, b, e), x) && #[trigger] call_ensures(weight, (b, a, e), y)
                ==> x == y,
        weights_given(weight, tess, i, grid.neighbors_of(i as int), grid.weights_of(i as int)),
        weights_given(weight, tess, j, grid.neighbors_of(j as int), grid.weights_of(j as int)),
        0 <= k < grid.neighbors_of(i as int).len(),
        0 <= m < grid.neighbors_of(j as int).len(),
        grid.neighbors_of(i as int)[k] == j,
        grid.neighbors_of(j as int)[m] == i,
    ensures
        grid.weights_of(i as int)[k] == grid.weights_of(j as int)[m],
{
    law_edge_is_symmetric(tess, i, j);
    let e = edge_verts(tess, i, j);
    assert(call_ensures(weight, (i, j, e), grid.weights_of(i as int)[k]));
    assert(call_ensures(weight, (j, i, e), grid.weights_of(j as int)[m]));
}

} // verus!
