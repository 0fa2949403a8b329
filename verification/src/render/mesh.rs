//! The renderable triangle mesh of the cells, and the arrow fields over it.
//!
//! Each cell becomes a fan of triangles `(center, ring[k], ring[k + 1])`. Every vertex of a cell
//! carries that cell's index, so that the whole cell can be colored by its data.

use crate::grid::{is_nearest, wrapped, Grid};
use crate::order::{at_most, spec_at_most, INFINITY};
use vstd::prelude::*;

verus! {

/// Pattern of the speed that counts as none: 1e-6.
pub const STILL: u32 = 0x3586_37BD;

/// One mesh vertex: a position on the unit sphere plus the index of the cell it belongs to.
#[verifier::ext_equal]
pub struct Vertex<P> {
    pub pos: P,
    pub cell: u32,
}

/// Vertex `k` of the fan around `center` with polygon `ring`: three to each edge of the polygon.
pub open spec fn fan_vertex<P>(center: P, ring: Seq<P>, cell: u32, k: int) -> Vertex<P> {
    let edge = k / 3;
    Vertex {
        pos: if k % 3 == 0 {
            center
        } else if k % 3 == 1 {
            ring[edge]
        } else {
            ring[wrapped(edge + 1, ring.len() as int)]
        },
        cell,
    }
}

/// The triangles of one cell; none where its polygon has fewer than three corners.
pub open spec fn fan<P>(center: P, ring: Seq<P>, cell: u32) -> Seq<Vertex<P>> {
    if ring.len() < 3 {
        Seq::empty()
    } else {
        Seq::new(3 * ring.len(), |k: int| fan_vertex(center, ring, cell, k))
    }
}

/// The triangles of the first `k` cells.
pub open spec fn mesh_of<P, L, A>(grid: &Grid<P, L, A>, k: nat) -> Seq<Vertex<P>>
    decreases k,
{
    if k == 0 {
        Seq::empty()
    } else {
        mesh_of(grid, (k - 1) as nat) + fan(grid.centers@[k - 1], grid.ring_of(k - 1), (k - 1) as u32)
    }
}

/// Expand the grid's cells into a non-indexed triangle list.
pub fn build_mesh<P: Copy, L, A>(grid: &Grid<P, L, A>) -> (verts: Vec<Vertex<P>>)
    requires
        grid.wf(),
    ensures
        verts@ == mesh_of(grid, grid.n as nat),
{
    let mut verts: Vec<Vertex<P>> = Vec::new();
    let mut i: usize = 0;
    while i < grid.n
        invariant
            grid.wf(),
            i <= grid.n,
            verts@ == mesh_of(grid, i as nat),
        decreases grid.n - i,
    {
        let center: P = grid.centers[i];
        let ring: &[P] = grid.ring(i);
        let m: usize = ring.len();
        let cell: u32 = i as u32;
        let ghost before = verts@;
        let ghost whole = fan(center, ring@, cell);
        if m >= 3 {
            let mut k: usize = 0;
            assert(whole.take(0) =~= Seq::<Vertex<P>>::empty());
            while k < m
                invariant
                    k <= m,
                    m == ring@.len(),
                    m >= 3,
                    whole == fan(center, ring@, cell),
                    verts@ == before + whole.take(3 * k as int),
                decreases m - k,
            {
                let next: usize = if k + 1 < m {
                    k + 1
                } else {
                    0
                };
                verts.push(Vertex { pos: center, cell });
                verts.push(Vertex { pos: ring[k], cell });
                verts.push(Vertex { pos: ring[next], cell });
                proof {
                    let j = 3 * k as int;
                    assert(whole[j] == (Vertex { pos: center, cell }));
                    assert(whole[j + 1] == (Vertex { pos: ring@[k as int], cell }));
                    assert(whole[j + 2] == (Vertex { pos: ring@[next as int], cell }));
                    assert(verts@ =~= before + whole.take(j + 3));
                }
                k = k + 1;
            }
            assert(whole.take(3 * m as int) =~= whole);
        } else {
            assert(before + whole =~= before);
        }
        i = i + 1;
    }
    verts
}

/// The mesh is made of whole triangles, each vertex belongs to a cell, and where every cell has a
/// polygon there are as many triangles as there are polygon edges.
pub proof fn law_mesh_is_whole_triangles<P, L, A>(grid: &Grid<P, L, A>, k: nat)
    requires
        grid.wf(),
        k <= grid.n,
    ensures
        mesh_of(grid, k).len() % 3 == 0,
        forall|j: int| 0 <= j < mesh_of(grid, k).len() ==> (#[trigger] mesh_of(grid, k)[j]).cell < k,
        (forall|i: int| 0 <= i < k ==> (#[trigger] grid.ring_of(i)).len() >= 3) ==> mesh_of(grid, k).len()
            == 3 * grid.ring_start@[k as int],
    decreases k,
{
    if k > 0 {
        let i = (k - 1) as nat;
        law_mesh_is_whole_triangles(grid, i);
        let before = mesh_of(grid, i);
        let ring = grid.ring_of(i as int);
        let one = fan(grid.centers@[i as int], ring, i as u32);
        assert(grid.ring_start@[i as int] <= grid.ring_start@[k as int]);
        assert(grid.ring_start@[k as int] <= grid.ring_start@[grid.n as int]);
        assert(ring.len() == grid.ring_start@[k as int] - grid.ring_start@[i as int]);
        assert(one.len() % 3 == 0);
        assert forall|j: int| 0 <= j < mesh_of(grid, k).len() implies (#[trigger] mesh_of(grid, k)[j]).cell < k by {
            if j < before.len() {
                assert(before[j].cell < i);
            }
        }
        if forall|c: int| 0 <= c < k ==> (#[trigger] grid.ring_of(c)).len() >= 3 {
            assert(forall|c: int| 0 <= c < i ==> (#[trigger] grid.ring_of(c)).len() >= 3);
            assert(grid.ring_of(i as int).len() >= 3);
        }
    }
}

/// Each cell's center, as the map projection wants it: what `convert` gives for its coordinates.
pub fn build_cell_centers<P, L: Copy, A, C, F: Fn(L) -> C>(grid: &Grid<P, L, A>, convert: &F) -> (out: Vec<C>)
    requires
        grid.wf(),
        forall|l: L| #[trigger] call_requires(*convert, (l,)),
    ensures
        out@.len() == grid.n,
        forall|i: int|
            0 <= i < grid.n ==> call_ensures(*convert, (grid.lonlat_deg@[i],), #[trigger] out@[i]),
{
    let mut out: Vec<C> = Vec::new();
    let mut i: usize = 0;
    while i < grid.n
        invariant
            grid.wf(),
            forall|l: L| #[trigger] call_requires(*convert, (l,)),
            i <= grid.n,
            out@.len() == i,
            forall|k: int|
                0 <= k < i ==> call_ensures(*convert, (grid.lonlat_deg@[k],), #[trigger] out@[k]),
        decreases grid.n - i,
    {
        out.push(convert(grid.lonlat_deg[i]));
        i = i + 1;
    }
    out
}

/// The cells of a list without repeats: each where it comes first.
pub open spec fn distinct_cells(cells: Seq<u32>) -> Seq<u32>
    decreases cells.len(),
{
    if cells.len() == 0 {
        Seq::empty()
    } else {
        let before = distinct_cells(cells.drop_last());
        if before.contains(cells.last()) {
            before
        } else {
            before.push(cells.last())
        }
    }
}

/// How many directions are laid out for `target` arrows on a grid of `n` cells.
pub open spec fn sample_count(n: usize, target: usize) -> usize {
    if target < n {
        target
    } else {
        n
    }
}

/// `cells` are the cells nearest to each of the directions laid out.
pub open spec fn are_nearest_cells<P, F: Fn(usize, usize) -> P, G: Fn(P, P) -> u32>(
    centers: Seq<P>,
    direction: F,
    closeness: G,
    count: usize,
    cells: Seq<u32>,
) -> bool {
    forall|k: int|
        0 <= k < cells.len() ==> is_snapped(centers, direction, closeness, count, k, #[trigger] cells[k])
}

/// `cell` is the cell nearest to direction `k`.
pub open spec fn is_snapped<P, F: Fn(usize, usize) -> P, G: Fn(P, P) -> u32>(
    centers: Seq<P>,
    direction: F,
    closeness: G,
    count: usize,
    k: int,
    cell: u32,
) -> bool {
    exists|to: P, patterns: Seq<u32>|
        {
            &&& #[trigger] call_ensures(direction, (k as usize, count), to)
            &&& #[trigger] is_nearest(centers, closeness, to, patterns, cell as int)
        }
}

/// Pick about `target` cells spread evenly over the sphere to anchor an arrow field: lay down evenly
/// spaced directions, snap each to its nearest cell, and drop the repeats. `direction` gives the
/// direction of a number out of so many.
pub fn arrow_sample_cells<P: Copy, L, A, F: Fn(usize, usize) -> P, G: Fn(P, P) -> u32>(
    grid: &Grid<P, L, A>,
    target: usize,
    direction: &F,
    closeness: &G,
) -> (out: Vec<u32>)
    requires
        grid.wf(),
        grid.n == 0 || target == 0 || sample_count(grid.n, target) >= 4,
        forall|k: usize, n: usize| k < n && n >= 4 ==> #[trigger] call_requires(*direction, (k, n)),
        forall|p: P, q: P| #[trigger] call_requires(*closeness, (p, q)),
    ensures
        exists|cells: Seq<u32>|
            {
                &&& cells.len() == sample_count(grid.n, target)
                &&& #[trigger] are_nearest_cells(
                    grid.centers@,
                    *direction,
                    *closeness,
                    sample_count(grid.n, target),
                    cells,
                )
                &&& out@ == distinct_cells(cells)
            },
        forall|a: int| 0 <= a < out@.len() ==> #[trigger] out@[a] < grid.n,
{
    let ghost mut cells: Seq<u32> = Seq::empty();
    let mut out: Vec<u32> = Vec::new();
    let count: usize = if target < grid.n {
        target
    } else {
        grid.n
    };
    let mut seen: Vec<bool> = Vec::new();
    let mut i: usize = 0;
    while i < grid.n
        invariant
            i <= grid.n,
            seen@.len() == i,
            forall|c: int| 0 <= c < i ==> !#[trigger] seen@[c],
        decreases grid.n - i,
    {
        seen.push(false);
        i = i + 1;
    }
    let mut k: usize = 0;
    while k < count
        invariant
            grid.wf(),
            count == sample_count(grid.n, target),
            count == 0 || count >= 4,
            forall|k: usize, n: usize| k < n && n >= 4 ==> #[trigger] call_requires(*direction, (k, n)),
            forall|p: P, q: P| #[trigger] call_requires(*closeness, (p, q)),
            k <= count,
            cells.len() == k,
            are_nearest_cells(grid.centers@, *direction, *closeness, count, cells),
            out@ == distinct_cells(cells),
            forall|a: int| 0 <= a < out@.len() ==> #[trigger] out@[a] < grid.n,
            seen@.len() == grid.n,
            forall|c: int| 0 <= c < grid.n ==> (#[trigger] seen@[c] <==> out@.contains(c as u32)),
        decreases count - k,
    {
        let to: P = direction(k, count);
        let cell: usize = grid.nearest_cell(to, closeness);
        let ghost prior = out@;
        proof {
            let longer = cells.push(cell as u32);
            assert(longer.drop_last() =~= cells);
            assert(is_snapped(grid.centers@, *direction, *closeness, count, k as int, cell as u32));
            assert forall|m: int| 0 <= m < longer.len() implies is_snapped(
                grid.centers@,
                *direction,
                *closeness,
                count,
                m,
                #[trigger] longer[m],
            ) by {
                if m < k {
                    assert(longer[m] == cells[m]);
                }
            }
            cells = longer;
        }
        if !seen[cell] {
            seen.set(cell, true);
            out.push(cell as u32);
            assert forall|c: int| 0 <= c < grid.n implies (#[trigger] seen@[c] <==> out@.contains(c as u32)) by {
                assert(out@[prior.len() as int] == cell as u32);
                if c != cell {
                    if prior.contains(c as u32) {
                        let a = prior.index_of(c as u32);
                        assert(out@[a] == c as u32);
                    }
                    if out@.contains(c as u32) {
                        let a = out@.index_of(c as u32);
                        assert(prior[a] == c as u32);
                    }
                }
            }
        }
        k = k + 1;
    }
    out
}

/// No cell is sampled twice, there are no more samples than directions, and every direction's cell
/// is among them.
pub proof fn law_samples_are_distinct(cells: Seq<u32>)
    ensures
        distinct_cells(cells).no_duplicates(),
        distinct_cells(cells).len() <= cells.len(),
        forall|c: u32| distinct_cells(cells).contains(c) <==> #[trigger] cells.contains(c),
    decreases cells.len(),
{
    if cells.len() > 0 {
        let less = cells.drop_last();
        law_samples_are_distinct(less);
        let before = distinct_cells(less);
        let after = distinct_cells(cells);
        let last = cells.last();
        assert forall|c: u32| after.contains(c) <==> #[trigger] cells.contains(c) by {
            if cells.contains(c) {
                let a = cells.index_of(c);
                if a < less.len() {
                    assert(less[a] == c);
                    assert(less.contains(c));
                    assert(before.contains(c));
                    let b = before.index_of(c);
                    assert(after[b] == c);
                } else {
                    if !before.contains(last) {
                        assert(after[before.len() as int] == c);
                    }
                }
            }
            if after.contains(c) {
                let b = after.index_of(c);
                if b < before.len() {
                    assert(before[b] == c);
                    assert(before.contains(c));
                    assert(less.contains(c));
                    let a = less.index_of(c);
                    assert(cells[a] == c);
                } else {
                    assert(cells[cells.len() - 1] == c);
                }
            }
        }
    }
}

/// The four points of an arrow: where it starts, its tip, and the ends of its two barbs.
pub struct Arrow<P> {
    pub base: P,
    pub tip: P,
    pub left: P,
    pub right: P,
}

/// The line list of one arrow: its shaft and its two barbs.
pub open spec fn arrow_lines<P>(arrow: Option<Arrow<P>>) -> Seq<P> {
    match arrow {
        Some(a) => seq![a.base, a.tip, a.tip, a.left, a.tip, a.right],
        None => Seq::empty(),
    }
}

/// The line lists of `arrows`, one after the other.
pub open spec fn all_lines<P>(arrows: Seq<Option<Arrow<P>>>) -> Seq<P>
    decreases arrows.len(),
{
    if arrows.len() == 0 {
        Seq::empty()
    } else {
        all_lines(arrows.drop_last()) + arrow_lines(arrows.last())
    }
}

/// The greatest of the numbers among `speeds`, at least [`STILL`].
pub open spec fn top_speed(speeds: Seq<u32>) -> u32
    decreases speeds.len(),
{
    if speeds.len() == 0 {
        STILL
    } else {
        let before = top_speed(speeds.drop_last());
        if before < speeds.last() <= INFINITY {
            speeds.last()
        } else {
            before
        }
    }
}

/// `arrow` is the arrow of a cell at `p` with field `v` of the given speed: none where it is still,
/// else what `draw` gave.
pub open spec fn is_arrow<P, V, G: Fn(P, V, u32) -> Option<Arrow<P>>>(
    draw: G,
    p: P,
    v: V,
    speed: u32,
    top: u32,
    arrow: Option<Arrow<P>>,
) -> bool {
    if spec_at_most(speed, STILL) {
        arrow is None
    } else {
        call_ensures(draw, (p, v, top), arrow)
    }
}

/// `arrows` are the arrows of `field` at the cells `samples`, whose speeds are `speeds`.
pub open spec fn are_arrows<P, V, G: Fn(P, V, u32) -> Option<Arrow<P>>>(
    centers: Seq<P>,
    field: Seq<V>,
    samples: Seq<u32>,
    draw: G,
    speeds: Seq<u32>,
    arrows: Seq<Option<Arrow<P>>>,
) -> bool {
    &&& arrows.len() == samples.len()
    &&& forall|k: int|
        0 <= k < samples.len() ==> is_arrow(
            draw,
            centers[samples[k] as int],
            field[samples[k] as int],
            speeds[k],
            top_speed(speeds),
            #[trigger] arrows[k],
        )
}

/// `lines` is the arrow field of `field` at the cells `samples`.
pub open spec fn is_arrow_field<P, V, F: Fn(V) -> u32, G: Fn(P, V, u32) -> Option<Arrow<P>>>(
    centers: Seq<P>,
    field: Seq<V>,
    samples: Seq<u32>,
    speed: F,
    draw: G,
    lines: Seq<P>,
) -> bool {
    exists|speeds: Seq<u32>, arrows: Seq<Option<Arrow<P>>>|
        {
            &&& speeds.len() == samples.len()
            &&& forall|k: int|
                0 <= k < samples.len() ==> call_ensures(
                    speed,
                    (field[samples[k] as int],),
                    #[trigger] speeds[k],
                )
            &&& #[trigger] are_arrows(centers, field, samples, draw, speeds, arrows)
            &&& lines == all_lines(arrows)
        }
}

/// Build a motion-arrow line list (vertex pairs) at a set of sample cells. Arrow length scales with
/// each cell's speed relative to the fastest among the samples. Empty when there is no field or no
/// samples.
pub fn build_arrows_at<P: Copy, L, A, V: Copy, F: Fn(V) -> u32, G: Fn(P, V, u32) -> Option<Arrow<P>>>(
    grid: &Grid<P, L, A>,
    field: &Vec<V>,
    samples: &Vec<u32>,
    speed: &F,
    draw: &G,
) -> (out: Vec<P>)
    requires
        grid.wf(),
        field@.len() > 0 ==> forall|k: int|
            0 <= k < samples@.len() ==> #[trigger] samples@[k] < grid.n && samples@[k] < field@.len(),
        forall|v: V| #[trigger] call_requires(*speed, (v,)),
        forall|p: P, v: V, t: u32| #[trigger] call_requires(*draw, (p, v, t)),
    ensures
        field@.len() == 0 || samples@.len() == 0 ==> out@.len() == 0,
        field@.len() > 0 && samples@.len() > 0 ==> is_arrow_field(
            grid.centers@,
            field@,
            samples@,
            *speed,
            *draw,
            out@,
        ),
{
    let mut out: Vec<P> = Vec::new();
    if field.len() == 0 || samples.len() == 0 {
        return out;
    }
    let mut speeds: Vec<u32> = Vec::new();
    let mut top: u32 = STILL;
    let mut k: usize = 0;
    while k < samples.len()
        invariant
            forall|v: V| #[trigger] call_requires(*speed, (v,)),
            forall|m: int|
                0 <= m < samples@.len() ==> #[trigger] samples@[m] < grid.n && samples@[m] < field@.len(),
            k <= samples@.len(),
            speeds@.len() == k,
            forall|m: int|
                0 <= m < k ==> call_ensures(
                    *speed,
                    (field@[samples@[m] as int],),
                    #[trigger] speeds@[m],
                ),
            top == top_speed(speeds@),
        decreases samples@.len() - k,
    {
        let ghost before = speeds@;
        assert(samples@[k as int] < field@.len());
        let s: u32 = speed(field[samples[k] as usize]);
        speeds.push(s);
        assert(speeds@.drop_last() =~= before);
        if s > top && s <= INFINITY {
            top = s;
        }
        k = k + 1;
    }
    let ghost mut arrows: Seq<Option<Arrow<P>>> = Seq::empty();
    let mut i: usize = 0;
    while i < samples.len()
        invariant
            grid.wf(),
            forall|p: P, v: V, t: u32| #[trigger] call_requires(*draw, (p, v, t)),
            forall|m: int|
                0 <= m < samples@.len() ==> #[trigger] samples@[m] < grid.n && samples@[m] < field@.len(),
            i <= samples@.len(),
            speeds@.len() == samples@.len(),
            top == top_speed(speeds@),
            arrows.len() == i,
            forall|m: int|
                0 <= m < i ==> is_arrow(
                    *draw,
                    grid.centers@[samples@[m] as int],
                    field@[samples@[m] as int],
                    speeds@[m],
                    top,
                    #[trigger] arrows[m],
                ),
            out@ == all_lines(arrows),
        decreases samples@.len() - i,
    {
        assert(samples@[i as int] < grid.n);
        let c: usize = samples[i] as usize;
        let arrow: Option<Arrow<P>> = if at_most(speeds[i], STILL) {
            None
        } else {
            draw(grid.centers[c], field[c], top)
        };
        let ghost before = out@;
        let ghost longer = arrows.push(arrow);
        assert(longer.drop_last() =~= arrows);
        match arrow {
            Some(a) => {
                out.push(a.base);
                out.push(a.tip);
                out.push(a.tip);
                out.push(a.left);
                out.push(a.tip);
                out.push(a.right);
                assert(out@ =~= before + seq![a.base, a.tip, a.tip, a.left, a.tip, a.right]);
            },
            None => {
                assert(out@ =~= before + Seq::<P>::empty());
            },
        }
        proof {
            assert forall|m: int| 0 <= m < longer.len() implies is_arrow(
                *draw,
                grid.centers@[samples@[m] as int],
                field@[samples@[m] as int],
                speeds@[m],
                top,
                #[trigger] longer[m],
            ) by {
                if m < i {
                    assert(longer[m] == arrows[m]);
                }
            }
            arrows = longer;
        }
        i = i + 1;
    }
    assert(are_arrows(grid.centers@, field@, samples@, *draw, speeds@, arrows));
    out
}

/// An arrow field is made of whole line segments, six vertices to an arrow.
pub proof fn law_arrows_are_whole_segments<P>(arrows: Seq<Option<Arrow<P>>>)
    ensures
        all_lines(arrows).len() % 6 == 0,
        all_lines(arrows).len() <= 6 * arrows.len(),
    decreases arrows.len(),
{
    if arrows.len() > 0 {
        law_arrows_are_whole_segments(arrows.drop_last());
    }
}

/// Build an arrow field that samples about `target` evenly spread cells: [`arrow_sample_cells`] and
/// then [`build_arrows_at`]. Empty where there is no velocity or no cell; else every cell that is
/// sampled has a velocity.
pub fn build_arrows<P: Copy, L, A, V: Copy, F, G, H, K>(
    grid: &Grid<P, L, A>,
    velocity: &Vec<V>,
    target: usize,
    direction: &F,
    closeness: &G,
    speed: &H,
    draw: &K,
) -> (out: Vec<P>) where
    F: Fn(usize, usize) -> P,
    G: Fn(P, P) -> u32,
    H: Fn(V) -> u32,
    K: Fn(P, V, u32) -> Option<Arrow<P>>,

    requires
        grid.wf(),
        velocity@.len() == 0 || forall|k: int, cell: u32|
            0 <= k < sample_count(grid.n, target) && #[trigger] is_snapped(
                grid.centers@,
                *direction,
                *closeness,
                sample_count(grid.n, target),
                k,
                cell,
            ) ==> cell < velocity@.len(),
        velocity@.len() == 0 || grid.n == 0 || target == 0 || sample_count(grid.n, target) >= 4,
        forall|k: usize, n: usize| k < n && n >= 4 ==> #[trigger] call_requires(*direction, (k, n)),
        forall|p: P, q: P| #[trigger] call_requires(*closeness, (p, q)),
        forall|v: V| #[trigger] call_requires(*speed, (v,)),
        forall|p: P, v: V, t: u32| #[trigger] call_requires(*draw, (p, v, t)),
    ensures
        velocity@.len() == 0 || grid.n == 0 || target == 0 ==> out@.len() == 0,
        velocity@.len() > 0 && grid.n > 0 && target > 0 ==> exists|cells: Seq<u32>|
            {
                &&& cells.len() == sample_count(grid.n, target)
                &&& #[trigger] are_nearest_cells(
                    grid.centers@,
                    *direction,
                    *closeness,
                    sample_count(grid.n, target),
                    cells,
                )
                &&& is_arrow_field(
                    grid.centers@,
                    velocity@,
                    distinct_cells(cells),
                    *speed,
                    *draw,
                    out@,
                )
            },
{
    if velocity.len() == 0 || grid.n == 0 {
        return Vec::new();
    }
    let samples: Vec<u32> = arrow_sample_cells(grid, target, direction, closeness);
    proof {
        let cells = choose|cells: Seq<u32>|
            {
                &&& cells.len() == sample_count(grid.n, target)
                &&& #[trigger] are_nearest_cells(
                    grid.centers@,
                    *direction,
                    *closeness,
                    sample_count(grid.n, target),
                    cells,
                )
                &&& samples@ == distinct_cells(cells)
            };
        law_samples_are_distinct(cells);
        if target > 0 {
            assert(cells.contains(cells[0]));
            assert(samples@.contains(cells[0]));
        }
        assert forall|k: int| 0 <= k < samples@.len() implies #[trigger] samples@[k] < velocity@.len() by {
            assert(samples@.contains(samples@[k]));
            assert(cells.contains(samples@[k]));
            let m = cells.index_of(samples@[k]);
            assert(is_snapped(
                grid.centers@,
                *direction,
                *closeness,
                sample_count(grid.n, target),
                m,
                cells[m],
            ));
        }
    }
    build_arrows_at(grid, velocity, &samples, speed, draw)
}

} // verus!
