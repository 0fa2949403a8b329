//! Reach: how far an effect spreads from its sources, and whose intensity it carries.

use crate::order::{is_number, law_comparisons_are_those_of_reals, value};
use crate::sim::growth::edge;
use crate::sim::influence::{is_source, law_only_positive_sources_count, strongest, within, Ground};
use vstd::prelude::*;

verus! {

impl<P, F: Fn(u32, P, P) -> u32> Ground<P, F> {
    /// An effect spreads no farther than the bound and from sources alone: a cell that it reaches carries
    /// the intensity of some source, at a distance within the bound unless the cell is a source itself;
    /// and no neighbor of a cell that it reaches could be reached nearer through that cell.
    pub proof fn law_effects_stay_within_the_bound(
        &self,
        sources: Seq<(usize, u32)>,
        dist: Seq<u32>,
        intensity: Seq<u32>,
        c: int,
        k: int,
    )
        requires
            self.is_influence(sources, dist, intensity),
            0 <= c < dist.len(),
            dist[c] != 0x7F80_0000,
            0 <= k < self.adj[c].len(),
        ensures
            exists|s: int| #[trigger]
                is_source(sources, s) && strongest(sources, s) == intensity[c] && (s == c || (is_number(
                    dist[c],
                ) && is_number(self.bound) && value(dist[c]) <= value(self.bound))),
            exists|d: u32| #[trigger]
                call_ensures(
                    self.extend,
                    (dist[c], self.centers[c], self.centers[self.adj[c][k] as int]),
                    d,
                ) && (dist[self.adj[c][k] as int] <= d || d > 0x7F80_0000 || !(is_number(self.bound)
                    && value(d) <= value(self.bound))),
    {
        assert(self.is_reached(sources, c, dist[c], intensity[c]));
        let (route, lens) = choose|route: Seq<int>, lens: Seq<u32>|
            {
                &&& #[trigger] self.is_route(route, lens)
                &&& route.last() == c
                &&& lens.last() == dist[c]
                &&& is_source(sources, route[0])
                &&& strongest(sources, route[0]) == intensity[c]
            };
        if route.len() > 1 {
            let m = route.len() - 2;
            assert(edge(self.adj, route[m], route[m + 1]));
            assert(within(lens[m + 1], self.bound));
            assert(lens[m + 1] == dist[c]);
            law_comparisons_are_those_of_reals(dist[c], self.bound);
        }
        assert(is_source(sources, route[0]));
        assert(self.is_closed(dist, c));
        assert(self.is_slack(dist, c, k));
        let j = self.adj[c][k] as int;
        let d = choose|d: u32| #[trigger]
            self.extends(dist[c], c, j, d) && (dist[j] <= d || !within(d, self.bound));
        law_comparisons_are_those_of_reals(d, self.bound);
        assert(call_ensures(self.extend, (dist[c], self.centers[c], self.centers[j]), d));
    }

    /// A source lies at no distance, and carries the greatest of the intensities listed for it.
    pub proof fn law_sources_lie_at_no_distance(
        &self,
        sources: Seq<(usize, u32)>,
        dist: Seq<u32>,
        intensity: Seq<u32>,
        a: int,
    )
        requires
            self.is_influence(sources, dist, intensity),
            0 <= a < sources.len(),
            sources[a].0 < dist.len(),
            is_number(sources[a].1),
            value(sources[a].1) > 0,
        ensures
            dist[sources[a].0 as int] == 0,
            is_number(intensity[sources[a].0 as int]),
            value(intensity[sources[a].0 as int]) >= value(sources[a].1),
            sources.contains((sources[a].0, intensity[sources[a].0 as int])),
    {
        let c = sources[a].0 as int;
        law_comparisons_are_those_of_reals(sources[a].1, 0);
        assert(is_source(sources, c));
        assert(dist[c] == 0);
        law_only_positive_sources_count(sources, c);
        law_comparisons_are_those_of_reals(sources[a].1, strongest(sources, c));
        law_comparisons_are_those_of_reals(0, strongest(sources, c));
    }
}

} // verus!
