//! Spreading an effect away from the cells that cause it: a shortest-path sweep over the grid.
//!
//! Every cell gets the distance to its nearest source and carries that source's intensity, out to
//! a bound. Distances are patterns of non-negative reals, which compare as the integers they are;
//! intensities are patterns of reals, of which those at or below zero do not count. What a step along an edge
//! adds to a distance is the caller's kernel.

use crate::grid::Grid;
use crate::order::{
    at_most, below, is_number, number, spec_at_most, spec_below, INFINITY, ZERO,
};
use crate::queue::{is_first, Entry, Queue};
use crate::sim::growth::edge;
use vstd::multiset::Multiset;
use vstd::prelude::*;

verus! {

/// A source of this intensity counts: the intensity is not at or below zero. One that is no number
/// counts, as a source that brings nothing.
pub open spec fn counts(intensity: u32) -> bool {
    !spec_at_most(intensity, ZERO)
}

/// Cell `c` is a source: an intensity that counts is listed for it.
pub open spec fn is_source(sources: Seq<(usize, u32)>, c: int) -> bool {
    exists|a: int| 0 <= a < sources.len() && (#[trigger] sources[a]).0 == c && counts(sources[a].1)
}

/// A list with one source more.
proof fn lemma_source_added(sources: Seq<(usize, u32)>, c: int)
    requires
        sources.len() > 0,
    ensures
        is_source(sources, c) <==> is_source(sources.drop_last(), c) || (sources.last().0 == c && counts(
            sources.last().1,
        )),
{
    let less = sources.drop_last();
    assert(sources.last() == sources[sources.len() - 1]);
    if is_source(less, c) {
        let a = choose|a: int| 0 <= a < less.len() && (#[trigger] less[a]).0 == c && counts(less[a].1);
        assert(sources[a] == less[a]);
    }
    if is_source(sources, c) {
        let a = choose|a: int|
            0 <= a < sources.len() && (#[trigger] sources[a]).0 == c && counts(sources[a].1);
        if a < less.len() {
            assert(less[a] == sources[a]);
        }
    }
}

/// Strongest intensity that counts of those listed for cell `c`, zero where there is none.
pub open spec fn strongest(sources: Seq<(usize, u32)>, c: int) -> u32
    decreases sources.len(),
{
    if sources.len() == 0 {
        ZERO
    } else {
        let before = strongest(sources.drop_last(), c);
        if sources.last().0 == c && counts(sources.last().1) && spec_below(before, sources.last().1) {
            sources.last().1
        } else {
            before
        }
    }
}

/// A cell's intensity is the greatest of the numbers above zero listed for it, and zero where there is
/// none: a source at or below zero has no effect.
pub proof fn law_only_positive_sources_count(sources: Seq<(usize, u32)>, c: int)
    ensures
        strongest(sources, c) == ZERO || (spec_below(ZERO, strongest(sources, c)) && sources.contains(
            (c as usize, strongest(sources, c)),
        )),
        strongest(sources, c) != ZERO ==> is_source(sources, c),
        forall|a: int|
            0 <= a < sources.len() && (#[trigger] sources[a]).0 == c && is_number(sources[a].1)
                ==> spec_at_most(sources[a].1, strongest(sources, c)),
    decreases sources.len(),
{
    if sources.len() > 0 {
        let less = sources.drop_last();
        law_only_positive_sources_count(less, c);
        let before = strongest(less, c);
        assert(sources.last() == sources[sources.len() - 1]);
        if less.contains((c as usize, before)) {
            let a = less.index_of((c as usize, before));
            assert(sources[a] == (c as usize, before));
        }
        assert forall|a: int|
            0 <= a < sources.len() && (#[trigger] sources[a]).0 == c && is_number(
                sources[a].1,
            ) implies spec_at_most(sources[a].1, strongest(sources, c)) by {
            if a < less.len() {
                assert(less[a] == sources[a]);
            }
        }
        lemma_source_added(sources, c);
    }
}

/// First place at which `sources` lists `cell`, or its length.
pub open spec fn place_of(sources: Seq<(usize, u32)>, cell: usize) -> nat
    decreases sources.len(),
{
    if sources.len() == 0 {
        0
    } else if sources[0].0 == cell {
        0
    } else {
        1 + place_of(sources.drop_first(), cell)
    }
}

/// The stronger of what is held and what is given; what is given where nothing real is held.
pub open spec fn stronger(held: u32, given: u32) -> u32 {
    if !is_number(held) || spec_below(held, given) {
        given
    } else {
        held
    }
}

/// `sources` with a source recorded at `cell`: one that does not count is left out, and a cell that
/// is listed already keeps the stronger of the two.
pub open spec fn with_source(sources: Seq<(usize, u32)>, cell: usize, intensity: u32) -> Seq<(usize, u32)> {
    let at = place_of(sources, cell) as int;
    if !counts(intensity) {
        sources
    } else if at < sources.len() {
        sources.update(at, (cell, stronger(sources[at].1, intensity)))
    } else {
        sources.push((cell, intensity))
    }
}

/// No cell is listed twice, and every source counts.
pub open spec fn distinct_sources(sources: Seq<(usize, u32)>) -> bool {
    &&& forall|a: int, b: int|
        0 <= a < b < sources.len() ==> (#[trigger] sources[a]).0 != (#[trigger] sources[b]).0
    &&& forall|a: int| 0 <= a < sources.len() ==> counts((#[trigger] sources[a]).1)
}

pub(crate) proof fn lemma_place(sources: Seq<(usize, u32)>, cell: usize)
    ensures
        place_of(sources, cell) <= sources.len(),
        place_of(sources, cell) < sources.len() ==> sources[place_of(sources, cell) as int].0 == cell,
        forall|a: int| 0 <= a < place_of(sources, cell) ==> (#[trigger] sources[a]).0 != cell,
    decreases sources.len(),
{
    if sources.len() > 0 && sources[0].0 != cell {
        let rest = sources.drop_first();
        lemma_place(rest, cell);
        assert forall|a: int| 0 <= a < place_of(sources, cell) implies (#[trigger] sources[a]).0 != cell by {
            if a > 0 {
                assert(rest[a - 1] == sources[a]);
            }
        }
    }
}

/// Record a boundary source, keeping the strongest intensity if the cell already has one.
pub fn set_source(sources: &mut Vec<(usize, u32)>, cell: usize, intensity: u32)
    ensures
        final(sources)@ == with_source(old(sources)@, cell, intensity),
{
    if at_most(intensity, ZERO) {
        return ;
    }
    proof {
        lemma_place(sources@, cell);
    }
    let mut a: usize = 0;
    while a < sources.len()
        invariant_except_break
            a <= sources@.len(),
            forall|b: int| 0 <= b < a ==> (#[trigger] sources@[b]).0 != cell,
        invariant
            sources@ == old(sources)@,
        ensures
            a <= sources@.len(),
            a < sources@.len() ==> sources@[a as int].0 == cell,
            forall|b: int| 0 <= b < a ==> (#[trigger] sources@[b]).0 != cell,
        decreases sources@.len() - a,
    {
        if sources[a].0 == cell {
            break ;
        }
        a = a + 1;
    }
    proof {
        lemma_place(sources@, cell);
        let at = place_of(sources@, cell);
        if at < a {
            assert(sources@[at as int].0 != cell);
        }
        if a < at {
            assert(sources@[a as int].0 != cell);
        }
    }
    if a < sources.len() {
        let held: u32 = sources[a].1;
        let keep: u32 = if !number(held) || below(held, intensity) {
            intensity
        } else {
            held
        };
        sources.set(a, (cell, keep));
    } else {
        sources.push((cell, intensity));
    }
}

/// Recording a source keeps the list free of repeats and of sources that do not count, and makes the
/// cell's intensity the stronger of what it had and what was recorded; one that does not count
/// changes nothing.
pub proof fn law_set_source_keeps_the_strongest(sources: Seq<(usize, u32)>, cell: usize, intensity: u32)
    requires
        distinct_sources(sources),
    ensures
        distinct_sources(with_source(sources, cell, intensity)),
        forall|c: int|
            #[trigger] strongest(with_source(sources, cell, intensity), c) == if c == cell && counts(
                intensity,
            ) && spec_below(strongest(sources, c), intensity) {
                intensity
            } else {
                strongest(sources, c)
            },
{
    lemma_place(sources, cell);
    let at = place_of(sources, cell) as int;
    let next = with_source(sources, cell, intensity);
    assert forall|a: int, b: int| 0 <= a < b < next.len() implies (#[trigger] next[a]).0 != (
    #[trigger] next[b]).0 by {
        if b < sources.len() {
            assert(sources[a].0 != sources[b].0);
        } else {
            assert(sources[a].0 != cell);
        }
    }
    assert forall|c: int| #[trigger]
        strongest(next, c) == if c == cell && counts(intensity) && spec_below(
            strongest(sources, c),
            intensity,
        ) {
            intensity
        } else {
            strongest(sources, c)
        } by {
        if counts(intensity) && at < sources.len() {
            lemma_strongest_at(sources, at, c);
            lemma_strongest_at(next, at, c);
        } else if counts(intensity) {
            assert(next.drop_last() =~= sources);
        }
    }
}

/// Where no cell is listed twice, the strongest intensity of a listed cell is the one listed, if it is
/// a number.
proof fn lemma_strongest_at(sources: Seq<(usize, u32)>, at: int, c: int)
    requires
        distinct_sources(sources),
        0 <= at < sources.len(),
    ensures
        c == sources[at].0 ==> strongest(sources, c) == if is_number(sources[at].1) {
            sources[at].1
        } else {
            ZERO
        },
        c != sources[at].0 ==> forall|i: u32|
            strongest(#[trigger] sources.update(at, (sources[at].0, i)), c) == strongest(sources, c),
    decreases sources.len(),
{
    let less = sources.drop_last();
    assert(distinct_sources(less)) by {
        assert forall|a: int, b: int| 0 <= a < b < less.len() implies (#[trigger] less[a]).0 != (
        #[trigger] less[b]).0 by {
            assert(sources[a].0 != sources[b].0);
        }
        assert forall|a: int| 0 <= a < less.len() implies counts((#[trigger] less[a]).1) by {
            assert(counts(sources[a].1));
        }
    }
    if at == sources.len() - 1 {
        if c == sources[at].0 {
            assert forall|a: int| 0 <= a < less.len() implies (#[trigger] less[a]).0 != c by {
                assert(sources[a].0 != sources[at].0);
            }
            lemma_strongest_absent(less, c);
            assert(counts(sources[at].1));
        } else {
            assert forall|i: u32|
                strongest(#[trigger] sources.update(at, (sources[at].0, i)), c) == strongest(sources, c) by {
                assert(sources.update(at, (sources[at].0, i)).drop_last() =~= less);
            }
        }
    } else {
        lemma_strongest_at(less, at, c);
        assert(sources[at].0 != sources[sources.len() - 1].0);
        if c != sources[at].0 {
            assert forall|i: u32|
                strongest(#[trigger] sources.update(at, (sources[at].0, i)), c) == strongest(sources, c) by {
                assert(sources.update(at, (sources[at].0, i)).drop_last() =~= less.update(
                    at,
                    (less[at].0, i),
                ));
            }
        }
    }
}

proof fn lemma_strongest_absent(sources: Seq<(usize, u32)>, c: int)
    requires
        forall|a: int| 0 <= a < sources.len() ==> (#[trigger] sources[a]).0 != c,
    ensures
        strongest(sources, c) == ZERO,
    decreases sources.len(),
{
    if sources.len() > 0 {
        let less = sources.drop_last();
        assert forall|a: int| 0 <= a < less.len() implies (#[trigger] less[a]).0 != c by {
            assert(sources[a].0 != c);
        }
        assert(sources[sources.len() - 1].0 != c);
        lemma_strongest_absent(less, c);
    }
}

/// What a sweep runs over: the neighbor lists, the cell positions, the kernel that adds the length
/// of an edge to a distance, and the bound.
pub struct Ground<P, F> {
    pub adj: Seq<Seq<u32>>,
    pub centers: Seq<P>,
    pub extend: F,
    pub bound: u32,
}

/// How far a sweep has got: each cell's distance and intensity, and the entries that wait.
#[verifier::ext_equal]
pub struct Spread {
    pub dist: Seq<u32>,
    pub intensity: Seq<u32>,
    pub waiting: Multiset<Entry>,
}

/// Distances before the first step: zero at the cells that have a source, infinite elsewhere.
pub open spec fn first_dist(sources: Seq<(usize, u32)>, n: nat) -> Seq<u32> {
    Seq::new(
        n,
        |c: int|
            if is_source(sources, c) {
                ZERO
            } else {
                INFINITY
            },
    )
}

/// Intensities before the first step.
pub open spec fn first_intensity(sources: Seq<(usize, u32)>, n: nat) -> Seq<u32> {
    Seq::new(n, |c: int| strongest(sources, c))
}

/// The entries of the first `k` sources whose cells lie at distance zero.
pub open spec fn first_waiting(sources: Seq<(usize, u32)>, k: nat) -> Multiset<Entry>
    decreases k,
{
    if k == 0 {
        Multiset::empty()
    } else {
        let before = first_waiting(sources, (k - 1) as nat);
        let c = sources[k - 1].0;
        if is_source(sources, c as int) {
            before.insert(
                Entry { dist: ZERO, cell: c as u32, intensity: strongest(sources, c as int) },
            )
        } else {
            before
        }
    }
}

/// The state before the first step.
pub open spec fn first_spread(sources: Seq<(usize, u32)>, n: nat) -> Spread {
    Spread {
        dist: first_dist(sources, n),
        intensity: first_intensity(sources, n),
        waiting: first_waiting(sources, sources.len()),
    }
}

/// A distance lies within the bound: it is no negative number and not above it.
pub open spec fn within(d: u32, bound: u32) -> bool {
    d <= INFINITY && spec_at_most(d, bound)
}

/// `st` once the neighbors `nbs`, reached at the distances `reach`, have been offered what `from`
/// carries: each takes it if that brings it nearer and the bound allows it.
pub open spec fn relaxed(st: Spread, from: Entry, nbs: Seq<u32>, reach: Seq<u32>, bound: u32) -> Spread
    decreases nbs.len(),
{
    if nbs.len() == 0 {
        st
    } else {
        let before = relaxed(st, from, nbs.drop_last(), reach, bound);
        let j = nbs.last() as int;
        let d = reach[nbs.len() - 1];
        if d < before.dist[j] && within(d, bound) {
            Spread {
                dist: before.dist.update(j, d),
                intensity: before.intensity.update(j, from.intensity),
                waiting: before.waiting.insert(
                    Entry { dist: d, cell: nbs.last(), intensity: from.intensity },
                ),
            }
        } else {
            before
        }
    }
}

/// `st` without `e` waiting.
pub open spec fn taken(st: Spread, e: Entry) -> Spread {
    Spread { dist: st.dist, intensity: st.intensity, waiting: st.waiting.remove(e) }
}

impl<P, F: Fn(u32, P, P) -> u32> Ground<P, F> {
    /// Sizes agree and every listed neighbor is a cell.
    pub open spec fn wf(&self) -> bool {
        &&& self.adj.len() == self.centers.len()
        &&& self.adj.len() <= u32::MAX
        &&& forall|a: int, k: int|
            0 <= a < self.adj.len() && 0 <= k < self.adj[a].len() ==> (#[trigger] self.adj[a][k])
                < self.adj.len()
    }

    /// `to` is a distance that the kernel gave for a step from `a`, itself at `from`, to `b`.
    pub open spec fn extends(&self, from: u32, a: int, b: int, to: u32) -> bool {
        call_ensures(self.extend, (from, self.centers[a], self.centers[b]), to)
    }

    /// `reach` are the distances at which the neighbors of `e`'s cell are reached from it.
    pub open spec fn are_reached(&self, e: Entry, reach: Seq<u32>) -> bool {
        let nbs = self.adj[e.cell as int];
        &&& reach.len() == nbs.len()
        &&& forall|k: int|
            0 <= k < nbs.len() ==> self.extends(
                e.dist,
                e.cell as int,
                nbs[k] as int,
                #[trigger] reach[k],
            )
    }

    /// `e`, the first waiting entry, is stale: it is taken out and nothing else happens.
    pub open spec fn drops(&self, st: Spread, e: Entry, next: Spread) -> bool {
        &&& is_first(st.waiting, e)
        &&& e.dist > st.dist[e.cell as int]
        &&& next == taken(st, e)
    }

    /// `e`, the first waiting entry, is taken out, and its cell's neighbors, reached at `reach`,
    /// are offered what it carries.
    pub open spec fn offers(&self, st: Spread, e: Entry, reach: Seq<u32>, next: Spread) -> bool {
        &&& is_first(st.waiting, e)
        &&& e.dist <= st.dist[e.cell as int]
        &&& self.are_reached(e, reach)
        &&& next == relaxed(taken(st, e), e, self.adj[e.cell as int], reach, self.bound)
    }

    /// One step of a sweep.
    pub open spec fn is_step(&self, st: Spread, next: Spread) -> bool {
        ||| exists|e: Entry| #[trigger] self.drops(st, e, next)
        ||| exists|e: Entry, reach: Seq<u32>| #[trigger] self.offers(st, e, reach, next)
    }

    /// `run` is a whole sweep from `sources`: it starts with them, each state follows from the one
    /// before, and in the last nothing waits.
    pub open spec fn is_run(&self, sources: Seq<(usize, u32)>, run: Seq<Spread>) -> bool {
        &&& run.len() > 0
        &&& run[0] == first_spread(sources, self.adj.len())
        &&& forall|k: int| 0 <= k < run.len() - 1 ==> self.is_step(#[trigger] run[k], run[k + 1])
        &&& run.last().waiting.len() == 0
    }

    /// `route` goes along edges, and `lens` are the distances that the kernel adds up along it,
    /// none beyond the bound.
    pub open spec fn is_route(&self, route: Seq<int>, lens: Seq<u32>) -> bool {
        &&& 0 < route.len() == lens.len()
        &&& lens[0] == ZERO
        &&& forall|i: int| 0 <= i < route.len() ==> 0 <= #[trigger] route[i] < self.adj.len()
        &&& forall|i: int|
            0 <= i < route.len() - 1 ==> edge(self.adj, #[trigger] route[i], route[i + 1])
                && self.extends(lens[i], route[i], route[i + 1], lens[i + 1]) && within(
                lens[i + 1],
                self.bound,
            )
    }

    /// A route of length `d` leads to `c` from a source of the given intensity.
    pub open spec fn is_reached(&self, sources: Seq<(usize, u32)>, c: int, d: u32, intensity: u32) -> bool {
        exists|route: Seq<int>, lens: Seq<u32>|
            {
                &&& #[trigger] self.is_route(route, lens)
                &&& route.last() == c
                &&& lens.last() == d
                &&& is_source(sources, route[0])
                &&& strongest(sources, route[0]) == intensity
            }
    }

    /// The `k`-th neighbor of `c` cannot be brought nearer through `c`.
    pub open spec fn is_slack(&self, dist: Seq<u32>, c: int, k: int) -> bool {
        let j = self.adj[c][k] as int;
        exists|d: u32| #[trigger] self.extends(dist[c], c, j, d) && (dist[j] <= d || !within(
            d,
            self.bound,
        ))
    }

    /// No neighbor of `c` can be brought nearer through `c`.
    pub open spec fn is_closed(&self, dist: Seq<u32>, c: int) -> bool {
        forall|k: int| 0 <= k < self.adj[c].len() ==> #[trigger] self.is_slack(dist, c, k)
    }

    /// `dist` and `intensity` are what spreads from `sources`: a source lies at distance zero with
    /// its own intensity; every finite distance is the length of a route from a source whose
    /// intensity the cell carries; no edge brings a cell nearer; and a cell that nothing reaches
    /// carries nothing.
    pub open spec fn is_influence(
        &self,
        sources: Seq<(usize, u32)>,
        dist: Seq<u32>,
        intensity: Seq<u32>,
    ) -> bool {
        &&& dist.len() == self.adj.len()
        &&& intensity.len() == self.adj.len()
        &&& forall|c: int|
            0 <= c < dist.len() && is_source(sources, c) ==> #[trigger] dist[c] == ZERO && intensity[c]
                == strongest(sources, c)
        &&& forall|c: int|
            0 <= c < dist.len() && #[trigger] dist[c] != INFINITY ==> dist[c] < INFINITY && self.is_reached(
                sources,
                c,
                dist[c],
                intensity[c],
            ) && self.is_closed(dist, c)
        &&& forall|c: int|
            0 <= c < dist.len() && #[trigger] dist[c] == INFINITY ==> intensity[c] == ZERO
    }

    /// What every state of a sweep keeps.
    pub open spec fn kept(&self, sources: Seq<(usize, u32)>, st: Spread) -> bool {
        &&& st.dist.len() == self.adj.len()
        &&& st.intensity.len() == self.adj.len()
        &&& forall|c: int|
            0 <= c < st.dist.len() && is_source(sources, c) ==> #[trigger] st.dist[c] == ZERO
                && st.intensity[c] == strongest(sources, c)
        &&& forall|c: int|
            0 <= c < st.dist.len() ==> #[trigger] st.dist[c] <= INFINITY && (if st.dist[c] == INFINITY {
                st.intensity[c] == ZERO
            } else {
                &&& self.is_reached(sources, c, st.dist[c], st.intensity[c])
                &&& st.waiting.contains(
                    Entry { dist: st.dist[c], cell: c as u32, intensity: st.intensity[c] },
                ) || self.is_closed(st.dist, c)
            })
        &&& forall|e: Entry| #[trigger]
            st.waiting.contains(e) ==> {
                &&& e.cell < self.adj.len()
                &&& e.dist >= st.dist[e.cell as int]
                &&& e.dist < INFINITY
                &&& self.is_reached(sources, e.cell as int, e.dist, e.intensity)
            }
    }

    proof fn lemma_first_kept(&self, sources: Seq<(usize, u32)>)
        requires
            self.wf(),
            forall|a: int| 0 <= a < sources.len() ==> (#[trigger] sources[a]).0 < self.adj.len(),
        ensures
            self.kept(sources, first_spread(sources, self.adj.len())),
    {
        let st = first_spread(sources, self.adj.len());
        assert forall|c: int| !is_source(sources, c) implies #[trigger] strongest(sources, c) == ZERO by {
            law_only_positive_sources_count(sources, c);
        }
        assert forall|c: int| 0 <= c < self.adj.len() && is_source(sources, c) implies self.is_reached(
            sources,
            c,
            ZERO,
            #[trigger] strongest(sources, c),
        ) by {
            let route = seq![c];
            let lens = seq![ZERO];
            assert(self.is_route(route, lens));
            assert(route.last() == c && lens.last() == ZERO && route[0] == c);
        }
        assert forall|e: Entry| #[trigger] st.waiting.contains(e) implies e.cell < self.adj.len() && e.dist
            == ZERO && e.intensity == strongest(sources, e.cell as int) && is_source(sources, e.cell as int) by {
            self.lemma_first_waiting(sources, sources.len(), e);
        }
        assert forall|c: int| 0 <= c < self.adj.len() && is_source(sources, c) implies st.waiting.contains(
            Entry { dist: ZERO, cell: c as u32, intensity: #[trigger] strongest(sources, c) },
        ) by {
            let a = choose|a: int|
                0 <= a < sources.len() && (#[trigger] sources[a]).0 == c && counts(sources[a].1);
            self.lemma_first_listed(sources, sources.len(), a);
        }
    }

    proof fn lemma_first_waiting(&self, sources: Seq<(usize, u32)>, k: nat, e: Entry)
        requires
            self.wf(),
            k <= sources.len(),
            forall|a: int| 0 <= a < sources.len() ==> (#[trigger] sources[a]).0 < self.adj.len(),
            first_waiting(sources, k).contains(e),
        ensures
            e.cell < self.adj.len(),
            e.dist == ZERO,
            e.intensity == strongest(sources, e.cell as int),
            is_source(sources, e.cell as int),
        decreases k,
    {
        if k > 0 {
            let before = first_waiting(sources, (k - 1) as nat);
            assert(sources[k - 1].0 < self.adj.len());
            if before.contains(e) {
                self.lemma_first_waiting(sources, (k - 1) as nat, e);
            }
        }
    }

    proof fn lemma_first_listed(&self, sources: Seq<(usize, u32)>, k: nat, a: int)
        requires
            0 <= a < k <= sources.len(),
            is_source(sources, sources[a].0 as int),
        ensures
            first_waiting(sources, k).contains(
                Entry {
                    dist: ZERO,
                    cell: sources[a].0 as u32,
                    intensity: strongest(sources, sources[a].0 as int),
                },
            ),
        decreases k,
    {
        if a < k - 1 {
            self.lemma_first_listed(sources, (k - 1) as nat, a);
        }
    }

    /// A route to `e`'s cell goes on to a neighbor.
    proof fn lemma_route_extends(&self, sources: Seq<(usize, u32)>, e: Entry, j: int, d: u32)
        requires
            self.wf(),
            self.is_reached(sources, e.cell as int, e.dist, e.intensity),
            e.cell < self.adj.len(),
            0 <= j < self.adj.len(),
            edge(self.adj, e.cell as int, j),
            self.extends(e.dist, e.cell as int, j, d),
            within(d, self.bound),
        ensures
            self.is_reached(sources, j, d, e.intensity),
    {
        let (route, lens) = choose|route: Seq<int>, lens: Seq<u32>|
            {
                &&& #[trigger] self.is_route(route, lens)
                &&& route.last() == e.cell as int
                &&& lens.last() == e.dist
                &&& is_source(sources, route[0])
                &&& strongest(sources, route[0]) == e.intensity
            };
        let longer = route.push(j);
        let more = lens.push(d);
        assert forall|i: int| 0 <= i < longer.len() - 1 implies edge(
            self.adj,
            #[trigger] longer[i],
            longer[i + 1],
        ) && self.extends(more[i], longer[i], longer[i + 1], more[i + 1]) && within(
            more[i + 1],
            self.bound,
        ) by {
            if i < route.len() - 1 {
                assert(edge(self.adj, route[i], route[i + 1]));
                assert(longer[i] == route[i] && longer[i + 1] == route[i + 1]);
                assert(more[i] == lens[i] && more[i + 1] == lens[i + 1]);
            } else {
                assert(longer[i] == e.cell && longer[i + 1] == j && more[i] == e.dist && more[i + 1] == d);
            }
        }
        assert(longer.last() == j && more.last() == d && longer[0] == route[0]);
        assert(self.is_route(longer, more));
    }

    /// Offering the first `m` neighbors keeps everything, but that `e`'s own cell, if it is no
    /// nearer, is closed only towards those `m`.
    proof fn lemma_relaxed_kept(
        &self,
        sources: Seq<(usize, u32)>,
        st: Spread,
        e: Entry,
        reach: Seq<u32>,
        m: int,
    )
        requires
            self.wf(),
            self.kept(sources, st),
            is_first(st.waiting, e),
            e.dist <= st.dist[e.cell as int],
            self.are_reached(e, reach),
            0 <= m <= self.adj[e.cell as int].len(),
        ensures
            ({
                let at = relaxed(taken(st, e), e, self.adj[e.cell as int].take(m), reach, self.bound);
                let own = e.cell as int;
                &&& self.kept_but(sources, at, own)
                &&& at.dist[own] <= e.dist
                &&& forall|k: int|
                    0 <= k < m ==> at.dist[(#[trigger] self.adj[own][k]) as int] <= reach[k] || !within(
                        reach[k],
                        self.bound,
                    )
                &&& at.waiting.contains(
                    Entry { dist: at.dist[own], cell: e.cell, intensity: at.intensity[own] },
                ) || at.dist[own] == e.dist
                &&& forall|c: int| 0 <= c < at.dist.len() ==> #[trigger] at.dist[c] <= st.dist[c]
            }),
        decreases m,
    {
        let own = e.cell as int;
        let nbs = self.adj[own];
        let popped = taken(st, e);
        let at = relaxed(popped, e, nbs.take(m), reach, self.bound);
        assert(st.waiting.contains(e));
        if m == 0 {
            assert(at == popped);
            assert(st.dist[own] == e.dist);
            assert forall|x: Entry| #[trigger] at.waiting.contains(x) implies st.waiting.contains(x) by {}
            assert forall|x: Entry| #[trigger] st.waiting.contains(x) && x != e implies at.waiting.contains(x) by {}
            assert(self.kept_but(sources, at, own));
        } else {
            self.lemma_relaxed_kept(sources, st, e, reach, m - 1);
            let before = relaxed(popped, e, nbs.take(m - 1), reach, self.bound);
            assert(nbs.take(m).drop_last() =~= nbs.take(m - 1));
            let j = nbs[m - 1] as int;
            let d = reach[m - 1];
            assert(nbs.take(m).last() == nbs[m - 1]);
            assert(self.adj[own][m - 1] < self.adj.len());
            assert(self.extends(e.dist, own, j, d));
            if d < before.dist[j] && within(d, self.bound) {
                let added = Entry { dist: d, cell: nbs[m - 1], intensity: e.intensity };
                assert(at.dist == before.dist.update(j, d));
                assert(edge(self.adj, own, j));
                self.lemma_route_extends(sources, e, j, d);
                assert(at.waiting.contains(added));
                assert forall|x: Entry| #[trigger] before.waiting.contains(x) implies at.waiting.contains(x) by {}
                assert forall|x: Entry| #[trigger] at.waiting.contains(x) implies before.waiting.contains(x) || x
                    == added by {}
                assert forall|c: int|
                    0 <= c < at.dist.len() && c != j && self.is_closed(before.dist, c) implies #[trigger] self.is_closed(
                    at.dist,
                    c,
                ) by {
                    assert forall|k: int| 0 <= k < self.adj[c].len() implies #[trigger] self.is_slack(
                        at.dist,
                        c,
                        k,
                    ) by {
                        assert(self.is_slack(before.dist, c, k));
                        let b = self.adj[c][k] as int;
                        let x = choose|x: u32| #[trigger]
                            self.extends(before.dist[c], c, b, x) && (before.dist[b] <= x || !within(
                                x,
                                self.bound,
                            ));
                        assert(self.extends(at.dist[c], c, b, x));
                    }
                }
                assert(!is_source(sources, j));
                assert forall|c: int| 0 <= c < at.dist.len() && is_source(sources, c) implies #[trigger] at.dist[c]
                    == ZERO && at.intensity[c] == strongest(sources, c) by {
                    assert(before.dist[c] == ZERO);
                    assert(c != j);
                }
                assert(self.kept_but(sources, at, own));
            }
        }
    }

    /// As [`Self::kept`], without a claim on what waits for cell `own`.
    spec fn kept_but(&self, sources: Seq<(usize, u32)>, st: Spread, own: int) -> bool {
        &&& st.dist.len() == self.adj.len()
        &&& st.intensity.len() == self.adj.len()
        &&& forall|c: int|
            0 <= c < st.dist.len() && is_source(sources, c) ==> #[trigger] st.dist[c] == ZERO
                && st.intensity[c] == strongest(sources, c)
        &&& forall|c: int|
            0 <= c < st.dist.len() ==> #[trigger] st.dist[c] <= INFINITY && (if st.dist[c] == INFINITY {
                st.intensity[c] == ZERO
            } else {
                &&& self.is_reached(sources, c, st.dist[c], st.intensity[c])
                &&& c == own || st.waiting.contains(
                    Entry { dist: st.dist[c], cell: c as u32, intensity: st.intensity[c] },
                ) || self.is_closed(st.dist, c)
            })
        &&& forall|e: Entry| #[trigger]
            st.waiting.contains(e) ==> {
                &&& e.cell < self.adj.len()
                &&& e.dist >= st.dist[e.cell as int]
                &&& e.dist < INFINITY
                &&& self.is_reached(sources, e.cell as int, e.dist, e.intensity)
            }
    }

    /// Every step keeps what a sweep keeps.
    proof fn lemma_step_keeps(&self, sources: Seq<(usize, u32)>, st: Spread, next: Spread)
        requires
            self.wf(),
            self.kept(sources, st),
            self.is_step(st, next),
        ensures
            self.kept(sources, next),
    {
        if exists|e: Entry| #[trigger] self.drops(st, e, next) {
            let e = choose|e: Entry| #[trigger] self.drops(st, e, next);
            assert(st.waiting.contains(e));
            assert forall|x: Entry| #[trigger] next.waiting.contains(x) implies st.waiting.contains(x) by {}
            assert forall|x: Entry| #[trigger]
                st.waiting.contains(x) && x != e implies next.waiting.contains(x) by {}
        } else {
            let (e, reach) = choose|e: Entry, reach: Seq<u32>| #[trigger] self.offers(st, e, reach, next);
            let own = e.cell as int;
            let m = self.adj[own].len() as int;
            assert(st.waiting.contains(e));
            self.lemma_relaxed_kept(sources, st, e, reach, m);
            assert(self.adj[own].take(m) =~= self.adj[own]);
            if next.dist[own] == e.dist {
                assert forall|k: int| 0 <= k < self.adj[own].len() implies #[trigger] self.is_slack(
                    next.dist,
                    own,
                    k,
                ) by {
                    let j = self.adj[own][k] as int;
                    assert(self.extends(next.dist[own], own, j, reach[k]));
                }
            }
        }
    }

    /// What a sweep keeps holds of each state of a run.
    proof fn lemma_run_keeps(&self, sources: Seq<(usize, u32)>, run: Seq<Spread>, k: int)
        requires
            self.wf(),
            forall|a: int| 0 <= a < sources.len() ==> (#[trigger] sources[a]).0 < self.adj.len(),
            run.len() > 0,
            run[0] == first_spread(sources, self.adj.len()),
            forall|i: int| 0 <= i < run.len() - 1 ==> self.is_step(#[trigger] run[i], run[i + 1]),
            0 <= k < run.len(),
        ensures
            self.kept(sources, run[k]),
        decreases k,
    {
        if k == 0 {
            self.lemma_first_kept(sources);
        } else {
            self.lemma_run_keeps(sources, run, k - 1);
            assert(self.is_step(run[k - 1], run[k - 1 + 1]));
            self.lemma_step_keeps(sources, run[k - 1], run[k]);
        }
    }
}

/// Sum of all distances.
spec fn dist_total(dist: Seq<u32>) -> nat
    decreases dist.len(),
{
    if dist.len() == 0 {
        0
    } else {
        dist_total(dist.drop_last()) + dist.last() as nat
    }
}

proof fn lemma_dist_total_update(dist: Seq<u32>, c: int, d: u32)
    requires
        0 <= c < dist.len(),
    ensures
        dist_total(dist.update(c, d)) + dist[c] == dist_total(dist) + d,
    decreases dist.len(),
{
    let later = dist.update(c, d);
    if c == dist.len() - 1 {
        assert(later.drop_last() =~= dist.drop_last());
    } else {
        lemma_dist_total_update(dist.drop_last(), c, d);
        assert(later.drop_last() =~= dist.drop_last().update(c, d));
    }
}

/// Offering neighbors either changes nothing or brings some cell nearer.
proof fn lemma_relaxed_progress(st: Spread, from: Entry, nbs: Seq<u32>, reach: Seq<u32>, bound: u32)
    requires
        st.intensity.len() == st.dist.len(),
        forall|k: int| 0 <= k < nbs.len() ==> #[trigger] nbs[k] < st.dist.len(),
    ensures
        ({
            let next = relaxed(st, from, nbs, reach, bound);
            &&& next.dist.len() == st.dist.len()
            &&& next.intensity.len() == st.intensity.len()
            &&& next == st || dist_total(next.dist) < dist_total(st.dist)
        }),
    decreases nbs.len(),
{
    if nbs.len() > 0 {
        let less = nbs.drop_last();
        assert forall|k: int| 0 <= k < less.len() implies #[trigger] less[k] < st.dist.len() by {
            assert(nbs[k] < st.dist.len());
        }
        lemma_relaxed_progress(st, from, less, reach, bound);
        let before = relaxed(st, from, less, reach, bound);
        let j = nbs.last() as int;
        assert(nbs[nbs.len() - 1] < st.dist.len());
        lemma_dist_total_update(before.dist, j, reach[nbs.len() - 1]);
    }
}

/// Per-cell result of spreading a boundary effect outward: the distance to the nearest source
/// cell, and that source's intensity. Cells that nothing reaches stay at an infinite distance with
/// no intensity.
pub struct Influence {
    pub dist: Vec<u32>,
    pub intensity: Vec<u32>,
}

/// A sweep in progress.
struct Sweep {
    dist: Vec<u32>,
    intensity: Vec<u32>,
    queue: Queue,
}

/// The ground that a sweep over `grid` runs on.
pub open spec fn ground<P, L, A, F>(grid: &Grid<P, L, A>, extend: F, bound: u32) -> Ground<P, F> {
    Ground { adj: grid.links(), centers: grid.centers@, extend, bound }
}

impl Sweep {
    /// The state that the sweep is in.
    spec fn view(&self) -> Spread {
        Spread { dist: self.dist@, intensity: self.intensity@, waiting: self.queue@ }
    }

    /// The state before the first step.
    fn start(n: usize, sources: &Vec<(usize, u32)>) -> (sweep: Self)
        requires
            forall|a: int| 0 <= a < sources@.len() ==> (#[trigger] sources@[a]).0 < n,
            n <= u32::MAX,
        ensures
            sweep@ == first_spread(sources@, n as nat),
            sweep.queue.wf(),
    {
        let mut dist: Vec<u32> = Vec::new();
        let mut intensity: Vec<u32> = Vec::new();
        let mut c: usize = 0;
        while c < n
            invariant
                c <= n,
                dist@ == Seq::new(c as nat, |i: int| INFINITY),
                intensity@ == Seq::new(c as nat, |i: int| ZERO),
            decreases n - c,
        {
            dist.push(INFINITY);
            intensity.push(ZERO);
            c = c + 1;
            assert(dist@ =~= Seq::new(c as nat, |i: int| INFINITY));
            assert(intensity@ =~= Seq::new(c as nat, |i: int| ZERO));
        }
        let mut a: usize = 0;
        assert(sources@.take(0) =~= Seq::<(usize, u32)>::empty());
        assert(dist@ =~= first_dist(sources@.take(0), n as nat));
        assert(intensity@ =~= first_intensity(sources@.take(0), n as nat));
        while a < sources.len()
            invariant
                a <= sources@.len(),
                forall|b: int| 0 <= b < sources@.len() ==> (#[trigger] sources@[b]).0 < n,
                dist@ == first_dist(sources@.take(a as int), n as nat),
                intensity@ == first_intensity(sources@.take(a as int), n as nat),
            decreases sources@.len() - a,
        {
            let (cell, given): (usize, u32) = sources[a];
            assert(sources@[a as int].0 < n);
            let ghost longer = sources@.take(a + 1);
            assert(longer.drop_last() =~= sources@.take(a as int));
            assert(longer.last() == (cell, given));
            if !at_most(given, ZERO) {
                dist.set(cell, ZERO);
                if below(intensity[cell], given) {
                    intensity.set(cell, given);
                }
            }
            assert(dist@ =~= first_dist(longer, n as nat)) by {
                assert forall|k: int| 0 <= k < n implies dist@[k] == first_dist(longer, n as nat)[k] by {
                    lemma_source_added(longer, k);
                }
            }
            assert(intensity@ =~= first_intensity(longer, n as nat));
            a = a + 1;
        }
        assert(sources@.take(a as int) =~= sources@);
        let mut queue = Queue::new();
        let mut b: usize = 0;
        while b < sources.len()
            invariant
                b <= sources@.len(),
                n <= u32::MAX,
                forall|k: int| 0 <= k < sources@.len() ==> (#[trigger] sources@[k]).0 < n,
                dist@ == first_dist(sources@, n as nat),
                intensity@ == first_intensity(sources@, n as nat),
                queue.wf(),
                queue@ == first_waiting(sources@, b as nat),
            decreases sources@.len() - b,
        {
            let cell: usize = sources[b].0;
            assert(sources@[b as int].0 < n);
            if dist[cell] == ZERO {
                queue.push(Entry { dist: ZERO, cell: cell as u32, intensity: intensity[cell] });
            }
            b = b + 1;
        }
        let sweep = Sweep { dist, intensity, queue };
        assert(sweep@ =~= first_spread(sources@, n as nat));
        sweep
    }

    /// Offer the neighbors of `e`'s cell what `e` carries.
    fn offer<P: Copy, L, A, F: Fn(u32, P, P) -> u32>(
        &mut self,
        grid: &Grid<P, L, A>,
        extend: &F,
        bound: u32,
        e: Entry,
    ) -> (reach: Ghost<Seq<u32>>)
        requires
            grid.wf(),
            old(self).queue.wf(),
            old(self).dist@.len() == grid.n,
            old(self).intensity@.len() == grid.n,
            e.cell < grid.n,
            forall|d: u32, p: P, q: P| #[trigger] call_requires(*extend, (d, p, q)),
        ensures
            final(self).queue.wf(),
            ground(grid, *extend, bound).are_reached(e, reach@),
            final(self)@ == relaxed(
                old(self)@,
                e,
                grid.links()[e.cell as int],
                reach@,
                bound,
            ),
    {
        let ghost on = ground(grid, *extend, bound);
        let ghost first = self@;
        let ghost mut reach: Seq<u32> = Seq::empty();
        let cell: usize = e.cell as usize;
        let nbs: &[u32] = grid.neighbors(cell);
        assert(grid.links()[cell as int] == nbs@);
        let mut k: usize = 0;
        assert(nbs@.take(0) =~= Seq::<u32>::empty());
        while k < nbs.len()
            invariant
                k <= nbs@.len(),
                grid.wf(),
                on == ground(grid, *extend, bound),
                cell == e.cell,
                cell < grid.n,
                grid.links()[cell as int] == nbs@,
                forall|m: int| 0 <= m < nbs@.len() ==> #[trigger] nbs@[m] < grid.n,
                forall|d: u32, p: P, q: P| #[trigger] call_requires(*extend, (d, p, q)),
                self.queue.wf(),
                self.dist@.len() == grid.n,
                self.intensity@.len() == grid.n,
                reach.len() == k,
                forall|m: int|
                    0 <= m < k ==> on.extends(e.dist, cell as int, nbs@[m] as int, #[trigger] reach[m]),
                self@ == relaxed(first, e, nbs@.take(k as int), reach, bound),
            decreases nbs@.len() - k,
        {
            let jn: u32 = nbs[k];
            let j: usize = jn as usize;
            let d: u32 = extend(e.dist, grid.centers[cell], grid.centers[j]);
            let ghost upto = nbs@.take(k + 1);
            let ghost longer = reach.push(d);
            proof {
                assert(upto.drop_last() =~= nbs@.take(k as int));
                assert(upto.last() == jn);
                lemma_reach_prefix(first, e, nbs@.take(k as int), reach, longer, bound);
                assert forall|m: int| 0 <= m < k + 1 implies on.extends(
                    e.dist,
                    cell as int,
                    nbs@[m] as int,
                    #[trigger] longer[m],
                ) by {
                    if m < k {
                        assert(longer[m] == reach[m]);
                    }
                }
            }
            if d < self.dist[j] && d <= INFINITY && at_most(d, bound) {
                self.dist.set(j, d);
                self.intensity.set(j, e.intensity);
                self.queue.push(Entry { dist: d, cell: jn, intensity: e.intensity });
            }
            assert(self@ =~= relaxed(first, e, upto, longer, bound));
            proof {
                reach = longer;
            }
            k = k + 1;
        }
        assert(nbs@.take(k as int) =~= nbs@);
        Ghost(reach)
    }
}

/// Offering neighbors reads no distance beyond theirs.
proof fn lemma_reach_prefix(st: Spread, from: Entry, nbs: Seq<u32>, short: Seq<u32>, long: Seq<u32>, bound: u32)
    requires
        nbs.len() <= short.len() <= long.len(),
        forall|k: int| 0 <= k < nbs.len() ==> short[k] == long[k],
    ensures
        relaxed(st, from, nbs, short, bound) == relaxed(st, from, nbs, long, bound),
    decreases nbs.len(),
{
    if nbs.len() > 0 {
        lemma_reach_prefix(st, from, nbs.drop_last(), short, long, bound);
    }
}

/// Multi-source shortest-path sweep over the grid adjacency: each cell gets the distance to its
/// nearest source and carries that source's intensity. Bounded, so that a sparse boundary does not
/// sweep the whole globe.
pub fn influence<P: Copy, L, A, F: Fn(u32, P, P) -> u32>(
    grid: &Grid<P, L, A>,
    sources: &Vec<(usize, u32)>,
    bound: u32,
    extend: &F,
) -> (out: Influence)
    requires
        grid.wf(),
        forall|a: int| 0 <= a < sources@.len() ==> (#[trigger] sources@[a]).0 < grid.n,
        forall|d: u32, p: P, q: P| #[trigger] call_requires(*extend, (d, p, q)),
    ensures
        ground(grid, *extend, bound).is_influence(sources@, out.dist@, out.intensity@),
        exists|run: Seq<Spread>| #[trigger]
            ground(grid, *extend, bound).is_run(sources@, run) && run.last().dist == out.dist@
                && run.last().intensity == out.intensity@,
{
    let ghost on = ground(grid, *extend, bound);
    proof {
        grid.lemma_links();
    }
    let mut sweep = Sweep::start(grid.n, sources);
    let ghost mut run: Seq<Spread> = seq![sweep@];
    loop
        invariant
            grid.wf(),
            on == ground(grid, *extend, bound),
            on.wf(),
            forall|a: int| 0 <= a < sources@.len() ==> (#[trigger] sources@[a]).0 < on.adj.len(),
            forall|d: u32, p: P, q: P| #[trigger] call_requires(*extend, (d, p, q)),
            sweep.queue.wf(),
            run.len() > 0,
            run[0] == first_spread(sources@, on.adj.len()),
            forall|k: int| 0 <= k < run.len() - 1 ==> on.is_step(#[trigger] run[k], run[k + 1]),
            run.last() == sweep@,
        ensures
            sweep@.waiting.len() == 0,
        decreases dist_total(sweep.dist@), sweep.queue@.len(),
    {
        let ghost before = sweep@;
        proof {
            on.lemma_run_keeps(sources@, run, run.len() - 1);
        }
        match sweep.queue.pop() {
            None => {
                assert(sweep@ =~= before);
                break ;
            },
            Some(e) => {
                assert(before.waiting.contains(e));
                assert(sweep@ =~= taken(before, e));
                let ghost popped = sweep@;
                if e.dist > sweep.dist[e.cell as usize] {
                    assert(on.drops(before, e, sweep@));
                } else {
                    let Ghost(reach) = sweep.offer(grid, extend, bound, e);
                    proof {
                        let nbs = on.adj[e.cell as int];
                        assert forall|k: int| 0 <= k < nbs.len() implies #[trigger] nbs[k] < popped.dist.len() by {
                            assert(on.adj[e.cell as int][k] < on.adj.len());
                        }
                        lemma_relaxed_progress(popped, e, nbs, reach, bound);
                        assert(on.offers(before, e, reach, sweep@));
                    }
                }
                proof {
                    let longer = run.push(sweep@);
                    assert forall|k: int| 0 <= k < longer.len() - 1 implies on.is_step(
                        #[trigger] longer[k],
                        longer[k + 1],
                    ) by {
                        if k < run.len() - 1 {
                            assert(on.is_step(run[k], run[k + 1]));
                            assert(longer[k] == run[k] && longer[k + 1] == run[k + 1]);
                        } else {
                            assert(longer[k] == before && longer[k + 1] == sweep@);
                        }
                    }
                    run = longer;
                }
            },
        }
    }
    proof {
        on.lemma_run_keeps(sources@, run, run.len() - 1);
        let end = run.last();
        assert(on.is_run(sources@, run));
        assert forall|e: Entry| !#[trigger] end.waiting.contains(e) by {
            vstd::multiset::lemma_multiset_empty_len(end.waiting);
        }
        assert forall|c: int| 0 <= c < end.dist.len() && #[trigger] end.dist[c] != INFINITY implies on.is_closed(
            end.dist,
            c,
        ) by {
            assert(!end.waiting.contains(
                Entry { dist: end.dist[c], cell: c as u32, intensity: end.intensity[c] },
            ));
        }
    }
    Influence { dist: sweep.dist, intensity: sweep.intensity }
}

impl<P, F: Fn(u32, P, P) -> u32> Ground<P, F> {
    /// A longer way to the start of an edge is no shorter way to its end.
    pub open spec fn monotone(&self) -> bool {
        forall|a: u32, b: u32, p: P, q: P, x: u32, y: u32|
            a <= b && #[trigger] call_ensures(self.extend, (a, p, q), x) && #[trigger] call_ensures(
                self.extend,
                (b, p, q),
                y,
            ) ==> x <= y
    }

    /// The kernel is a function: the same edge and distance give the same result every time.
    pub open spec fn repeatable(&self) -> bool {
        forall|a: u32, p: P, q: P, x: u32, y: u32|
            #[trigger] call_ensures(self.extend, (a, p, q), x) && #[trigger] call_ensures(
                self.extend,
                (a, p, q),
                y,
            ) ==> x == y
    }

    /// Where steps along edges are monotone, a cell's distance is the least there is: no finite route
    /// within the bound from any source is shorter, so the route that the distance belongs to
    /// comes from a nearest source.
    pub proof fn law_influence_is_nearest(
        &self,
        sources: Seq<(usize, u32)>,
        dist: Seq<u32>,
        intensity: Seq<u32>,
        route: Seq<int>,
        lens: Seq<u32>,
    )
        requires
            self.wf(),
            self.monotone(),
            self.is_influence(sources, dist, intensity),
            self.is_route(route, lens),
            forall|i: int| 0 <= i < lens.len() ==> #[trigger] lens[i] < INFINITY,
            is_source(sources, route[0]),
        ensures
            dist[route.last()] <= lens.last(),
        decreases route.len(),
    {
        if route.len() == 1 {
            assert(0 <= route[0] < self.adj.len());
            assert(dist[route[0]] == ZERO);
        } else {
            let less = route.drop_last();
            let short = lens.drop_last();
            assert forall|i: int| 0 <= i < less.len() implies 0 <= #[trigger] less[i] < self.adj.len() by {
                assert(less[i] == route[i]);
            }
            assert forall|i: int| 0 <= i < less.len() - 1 implies edge(
                self.adj,
                #[trigger] less[i],
                less[i + 1],
            ) && self.extends(short[i], less[i], less[i + 1], short[i + 1]) && within(
                short[i + 1],
                self.bound,
            ) by {
                assert(edge(self.adj, route[i], route[i + 1]));
                assert(less[i] == route[i] && less[i + 1] == route[i + 1]);
            }
            assert(less[0] == route[0]);
            self.law_influence_is_nearest(sources, dist, intensity, less, short);
            let m = route.len() - 2;
            let c = route[m];
            let j = route[m + 1];
            assert(less.last() == c && short.last() == lens[m]);
            assert(edge(self.adj, route[m], route[m + 1]));
            assert(0 <= route[m] < self.adj.len());
            assert(lens[m] < INFINITY);
            assert(dist[c] != INFINITY);
            let k = choose|k: int| 0 <= k < self.adj[c].len() && #[trigger] self.adj[c][k] == j;
            assert(self.is_slack(dist, c, k));
            let d = choose|d: u32| #[trigger]
                self.extends(dist[c], c, j, d) && (dist[j] <= d || !within(
            d,
            self.bound,
        ));
            assert(d <= lens[m + 1]);
        }
    }

    /// A sweep is deterministic: where the kernel is a function, two sweeps from the same sources
    /// go through the same states.
    pub proof fn law_sources_fix_the_sweep(
        &self,
        sources: Seq<(usize, u32)>,
        first: Seq<Spread>,
        second: Seq<Spread>,
    )
        requires
            self.repeatable(),
            self.is_run(sources, first),
            self.is_run(sources, second),
        ensures
            first == second,
    {
        let m = if first.len() <= second.len() {
            first.len() as int
        } else {
            second.len() as int
        };
        assert forall|k: int| 0 <= k < m implies first[k] == second[k] by {
            self.lemma_runs_agree(sources, first, second, k);
        }
        if m < first.len() {
            assert(self.is_step(first[m - 1], first[m - 1 + 1]));
            lemma_step_needs_an_entry(*self, first[m - 1], first[m]);
        }
        if m < second.len() {
            assert(self.is_step(second[m - 1], second[m - 1 + 1]));
            lemma_step_needs_an_entry(*self, second[m - 1], second[m]);
        }
        assert(first =~= second);
    }

    proof fn lemma_runs_agree(
        &self,
        sources: Seq<(usize, u32)>,
        first: Seq<Spread>,
        second: Seq<Spread>,
        k: int,
    )
        requires
            self.repeatable(),
            self.is_run(sources, first),
            self.is_run(sources, second),
            0 <= k < first.len(),
            k < second.len(),
        ensures
            first[k] == second[k],
        decreases k,
    {
        if k > 0 {
            self.lemma_runs_agree(sources, first, second, k - 1);
            assert(self.is_step(first[k - 1], first[k - 1 + 1]));
            assert(self.is_step(second[k - 1], second[k - 1 + 1]));
            self.lemma_step_is_one(first[k - 1], first[k], second[k]);
        }
    }

    proof fn lemma_step_is_one(&self, st: Spread, x: Spread, y: Spread)
        requires
            self.repeatable(),
            self.is_step(st, x),
            self.is_step(st, y),
        ensures
            x == y,
    {
        let d = choose|e: Entry| is_first(st.waiting, e);
        assert(forall|e: Entry| #[trigger] is_first(st.waiting, e) ==> st.waiting.contains(e));
        if exists|e: Entry, reach: Seq<u32>| #[trigger] self.offers(st, e, reach, x) {
            let (e, reach) = choose|e: Entry, reach: Seq<u32>| #[trigger] self.offers(st, e, reach, x);
            assert(d == e);
            if exists|f: Entry, more: Seq<u32>| #[trigger] self.offers(st, f, more, y) {
                let (f, more) = choose|f: Entry, more: Seq<u32>| #[trigger] self.offers(st, f, more, y);
                assert(e == f);
                assert forall|k: int| 0 <= k < reach.len() implies reach[k] == more[k] by {
                    let j = self.adj[e.cell as int][k] as int;
                    assert(self.extends(e.dist, e.cell as int, j, reach[k]));
                    assert(self.extends(e.dist, e.cell as int, j, more[k]));
                }
                assert(reach =~= more);
            } else {
                let f = choose|f: Entry| #[trigger] self.drops(st, f, y);
                assert(e == f);
            }
        } else {
            let e = choose|e: Entry| #[trigger] self.drops(st, e, x);
            assert(d == e);
            if exists|f: Entry| #[trigger] self.drops(st, f, y) {
                let f = choose|f: Entry| #[trigger] self.drops(st, f, y);
                assert(e == f);
            } else {
                let (f, more) = choose|f: Entry, more: Seq<u32>| #[trigger] self.offers(st, f, more, y);
                assert(e == f);
            }
        }
    }
}

proof fn lemma_step_needs_an_entry<P, F: Fn(u32, P, P) -> u32>(on: Ground<P, F>, st: Spread, next: Spread)
    requires
        on.is_step(st, next),
    ensures
        st.waiting.len() > 0,
{
    let e = choose|e: Entry| is_first(st.waiting, e);
    if exists|f: Entry| #[trigger] on.drops(st, f, next) {
        let f = choose|f: Entry| #[trigger] on.drops(st, f, next);
        assert(is_first(st.waiting, f));
    } else {
        let (f, reach) = choose|f: Entry, reach: Seq<u32>| #[trigger] on.offers(st, f, reach, next);
        assert(is_first(st.waiting, f));
    }
    assert(st.waiting.contains(e));
    vstd::multiset::lemma_multiset_empty_len(st.waiting);
}

} // verus!
