//! Relief: which cells the plates thicken, thin, lift and cut, and which they leave alone.

use crate::grid::Grid;
use crate::laws::boundaries::{closes, opens, Drift};
use crate::order::{is_number, law_comparisons_are_those_of_reals, value, INFINITY};
use crate::sim::elevation::{
    are_deformed, are_heights, at_least, is_applied, is_cell_height, is_deformed, is_height, is_reach, is_shaped,
    lemma_reach_is_one, Reach, Tectonics,
};
use crate::sim::influence::{ground, is_source, strongest};
use crate::sim::margin::{
    is_classified, law_classification_is_one, BoundaryKind, Effect, Mosaic, Motion, Sources,
};
use crate::sim::terrain::Terrain;
use vstd::prelude::*;

verus! {

/// The continental fraction is at least one half: continental crust.
pub open spec fn is_continental(fraction: u32) -> bool {
    is_number(fraction) && value(fraction) >= value(0x3F00_0000)
}

/// `y` is what `effect` makes of `x` at distance `d` from a source of intensity `s`: nothing else than
/// `x` where no source is within reach.
pub open spec fn works<H: Fn(Effect, u32, u32, u32) -> u32>(
    apply: H,
    effect: Effect,
    d: u32,
    s: u32,
    x: u32,
    y: u32,
) -> bool {
    if d == 0x7F80_0000 {
        y == x
    } else {
        call_ensures(apply, (effect, x, d, s), y)
    }
}

/// A crust that plates have shaped: what it was made from, and what came of it.
pub struct Sculpture<'a, P, L, A, M, V, F, G, H, I> {
    pub grid: &'a Grid<P, L, A>,
    pub terrain: &'a Terrain<M, V>,
    pub by: &'a Tectonics<F, G, H, I>,
    /// Continental fractions.
    pub fractions: Seq<u32>,
    /// Thickness before the plates shaped it.
    pub base: Seq<u32>,
    pub density: Seq<u32>,
    pub boundary: Seq<BoundaryKind>,
    /// Thickness after.
    pub thickness: Seq<u32>,
    /// Dry heights.
    pub heights: Seq<u32>,
}

/// Where the sources of each effect reach.
pub struct Reaches {
    pub orogeny: Reach,
    pub rift: Reach,
    pub ridge: Reach,
    pub trench: Reach,
}

impl<'a, P, L, A, M, V, F, G, H, I> Sculpture<'a, P, L, A, M, V, F, G, H, I> where
    F: Fn(P, P, V, V) -> Option<Motion>,
    G: Fn(u32, P, P) -> u32,
    H: Fn(Effect, u32, u32, u32) -> u32,
    I: Fn(u32, u32) -> u32,
 {
    /// The plates made the crust so.
    pub open spec fn is_made(&self) -> bool {
        &&& is_shaped(
            self.grid,
            self.terrain,
            self.by,
            self.fractions,
            self.base,
            self.density,
            self.boundary,
            self.thickness,
            self.heights,
        )
        &&& self.fractions.len() == self.grid.n
        &&& self.base.len() == self.grid.n
    }

    /// The plates and how they move.
    pub open spec fn drift(&self) -> Drift<P, V, F> {
        Drift {
            on: Mosaic {
                adj: self.grid.links(),
                plate_id: self.terrain.plate_id@,
                fraction: self.fractions,
            },
            centers: self.grid.centers@,
            velocity: self.terrain.velocity@,
            motion: self.by.motion,
        }
    }

    /// The sources reach this far: orogeny over 600 km, rifts over 1250 km, ridges over 4500 km and
    /// trenches over 750 km, in radians of a planet of 6371 km.
    pub open spec fn spread(&self, sources: Sources, to: Reaches) -> bool {
        &&& is_reach(self.grid, self.by.extend, sources.orogeny, 0x3DC0_DFBC, to.orogeny)
        &&& is_reach(self.grid, self.by.extend, sources.rift, 0x3E48_E90E, to.rift)
        &&& is_reach(self.grid, self.by.extend, sources.ridge, 0x3F34_D1C0, to.ridge)
        &&& is_reach(self.grid, self.by.extend, sources.trench, 0x3DF1_17AB, to.trench)
    }

    proof fn lemma_parts(&self) -> (parts: (Sources, Reaches))
        requires
            self.is_made(),
        ensures
            self.drift().gives(self.boundary, parts.0),
            self.spread(parts.0, parts.1),
            self.thickness.len() == self.grid.n,
            self.heights.len() == self.grid.n,
            forall|i: int|
                0 <= i < self.grid.n ==> is_deformed(
                    self.by.apply,
                    parts.1.orogeny,
                    parts.1.rift,
                    i,
                    self.base[i],
                    #[trigger] self.thickness[i],
                ),
            forall|i: int|
                0 <= i < self.grid.n ==> is_cell_height(
                    self.by.column,
                    self.by.apply,
                    parts.1.ridge,
                    parts.1.trench,
                    self.fractions,
                    self.thickness,
                    self.density,
                    i,
                    #[trigger] self.heights[i],
                ),
    {
        reveal(is_shaped);
        let d = self.drift();
        let (sources, orogeny, rift, ridge, trench) = choose|
            sources: Sources,
            orogeny: Reach,
            rift: Reach,
            ridge: Reach,
            trench: Reach,
        |
            {
                &&& is_classified(d.on, d.centers, d.velocity, d.motion, self.boundary, sources)
                &&& #[trigger] is_reach(self.grid, self.by.extend, sources.orogeny, 0x3DC0_DFBC, orogeny)
                &&& #[trigger] is_reach(self.grid, self.by.extend, sources.rift, 0x3E48_E90E, rift)
                &&& #[trigger] is_reach(self.grid, self.by.extend, sources.ridge, 0x3F34_D1C0, ridge)
                &&& #[trigger] is_reach(self.grid, self.by.extend, sources.trench, 0x3DF1_17AB, trench)
                &&& are_deformed(
                    self.by.apply,
                    orogeny,
                    rift,
                    self.base,
                    self.thickness,
                )
                &&& are_heights(
                    self.by.column,
                    self.by.apply,
                    ridge,
                    trench,
                    self.fractions,
                    self.thickness,
                    self.density,
                    self.heights,
                )
            };
        (sources, Reaches { orogeny, rift, ridge, trench })
    }

    /// Ridges and trenches act on oceanic crust only: a cell of continental crust stands as high as its
    /// column floats, whatever reaches it.
    pub proof fn law_continents_stand_on_their_columns(&self, i: int)
        requires
            self.is_made(),
            0 <= i < self.grid.n,
            is_continental(self.fractions[i]),
        ensures
            call_ensures(self.by.column, (self.thickness[i], self.density[i]), self.heights[i]),
    {
        let (sources, to) = self.lemma_parts();
        law_comparisons_are_those_of_reals(0x3F00_0000, self.fractions[i]);
        assert(is_cell_height(
            self.by.column,
            self.by.apply,
            to.ridge,
            to.trench,
            self.fractions,
            self.thickness,
            self.density,
            i,
            self.heights[i],
        ));
    }

    /// Every effect acts where its own sources reach, and nowhere else: orogeny and then rifting change
    /// the thickness of a cell's crust, which is never left below four kilometres; ridges and then
    /// trenches change the height at which the column of an oceanic cell would float.
    pub proof fn law_effects_act_where_they_reach(&self, sources: Sources, to: Reaches, i: int)
        requires
            self.by.repeatable(),
            self.is_made(),
            self.drift().gives(self.boundary, sources),
            self.spread(sources, to),
            0 <= i < self.grid.n,
        ensures
            exists|thick: u32, thin: u32|
                {
                    &&& #[trigger] works(
                        self.by.apply,
                        Effect::Orogeny,
                        to.orogeny.dist[i],
                        to.orogeny.intensity[i],
                        self.base[i],
                        thick,
                    )
                    &&& #[trigger] works(
                        self.by.apply,
                        Effect::Rift,
                        to.rift.dist[i],
                        to.rift.intensity[i],
                        thick,
                        thin,
                    )
                    &&& self.thickness[i] == if is_number(thin) && value(thin) >= value(0x4080_0000) {
                        thin
                    } else {
                        0x4080_0000
                    }
                },
            !is_continental(self.fractions[i]) ==> exists|column: u32, lifted: u32|
                {
                    &&& call_ensures(self.by.column, (self.thickness[i], self.density[i]), column)
                    &&& #[trigger] works(
                        self.by.apply,
                        Effect::Ridge,
                        to.ridge.dist[i],
                        to.ridge.intensity[i],
                        column,
                        lifted,
                    )
                    &&& works(
                        self.by.apply,
                        Effect::Trench,
                        to.trench.dist[i],
                        to.trench.intensity[i],
                        lifted,
                        self.heights[i],
                    )
                },
    {
        let (sources2, too) = self.lemma_parts();
        let d = self.drift();
        law_classification_is_one(
            d.on,
            d.centers,
            d.velocity,
            d.motion,
            (self.boundary, sources),
            (self.boundary, sources2),
        );
        let extend = self.by.extend;
        lemma_reach_is_one(self.grid, extend, sources.orogeny, 0x3DC0_DFBC, to.orogeny, too.orogeny);
        lemma_reach_is_one(self.grid, extend, sources.rift, 0x3E48_E90E, to.rift, too.rift);
        lemma_reach_is_one(self.grid, extend, sources.ridge, 0x3F34_D1C0, to.ridge, too.ridge);
        lemma_reach_is_one(self.grid, extend, sources.trench, 0x3DF1_17AB, to.trench, too.trench);
        law_comparisons_are_those_of_reals(0x3F00_0000, self.fractions[i]);
        let apply = self.by.apply;
        assert(is_deformed(apply, to.orogeny, to.rift, i, self.base[i], self.thickness[i]));
        let (thick, thin) = choose|thick: u32, thin: u32|
            {
                &&& #[trigger] is_applied(apply, Effect::Orogeny, to.orogeny, i, self.base[i], thick)
                &&& #[trigger] is_applied(apply, Effect::Rift, to.rift, i, thick, thin)
                &&& self.thickness[i] == at_least(thin, 0x4080_0000)
            };
        law_comparisons_are_those_of_reals(0x4080_0000, thin);
        assert(works(
            apply,
            Effect::Orogeny,
            to.orogeny.dist[i],
            to.orogeny.intensity[i],
            self.base[i],
            thick,
        ));
        assert(works(apply, Effect::Rift, to.rift.dist[i], to.rift.intensity[i], thick, thin));
        assert(is_cell_height(
            self.by.column,
            apply,
            to.ridge,
            to.trench,
            self.fractions,
            self.thickness,
            self.density,
            i,
            self.heights[i],
        ));
        let column = choose|column: u32| #[trigger]
            call_ensures(self.by.column, (self.thickness[i], self.density[i]), column) && is_height(
                apply,
                to.ridge,
                to.trench,
                self.fractions[i],
                i,
                column,
                self.heights[i],
            );
        if !is_continental(self.fractions[i]) {
            let lifted = choose|lifted: u32| #[trigger]
                is_applied(apply, Effect::Ridge, to.ridge, i, column, lifted) && is_applied(
                    apply,
                    Effect::Trench,
                    to.trench,
                    i,
                    lifted,
                    self.heights[i],
                );
            assert(works(
                apply,
                Effect::Ridge,
                to.ridge.dist[i],
                to.ridge.intensity[i],
                column,
                lifted,
            ));
        }
    }

    /// Where no sources are, nothing is reached.
    proof fn lemma_no_sources(&self, sources: Seq<(usize, u32)>, bound: u32, reach: Reach, i: int)
        requires
            is_reach(self.grid, self.by.extend, sources, bound, reach),
            sources.len() == 0,
            0 <= i < self.grid.n,
        ensures
            reach.dist[i] == INFINITY,
    {
        let on = ground(self.grid, self.by.extend, bound);
        if reach.dist[i] != INFINITY {
            assert(on.is_reached(sources, i, reach.dist[i], reach.intensity[i]));
            let (route, lens) = choose|route: Seq<int>, lens: Seq<u32>|
                {
                    &&& #[trigger] on.is_route(route, lens)
                    &&& route.last() == i
                    &&& lens.last() == reach.dist[i]
                    &&& is_source(sources, route[0])
                    &&& strongest(sources, route[0]) == reach.intensity[i]
                };
            assert(is_source(sources, route[0]));
        }
    }

    /// `effect` never makes more of anything.
    pub open spec fn lowers(&self, effect: Effect) -> bool {
        forall|x: u32, d: u32, s: u32, y: u32|
            is_number(x) && #[trigger] call_ensures(self.by.apply, (effect, x, d, s), y) ==> is_number(y)
                && value(y) <= value(x)
    }

    /// `effect` never makes less of anything.
    pub open spec fn raises(&self, effect: Effect) -> bool {
        forall|x: u32, d: u32, s: u32, y: u32|
            is_number(x) && #[trigger] call_ensures(self.by.apply, (effect, x, d, s), y) ==> is_number(y)
                && value(y) >= value(x)
    }

    /// Where no plates close anywhere, no mountains rise and no trenches are cut: no crust is thicker
    /// than it was, but for the floor, and no oceanic cell lies lower than its column floats.
    pub proof fn law_no_mountains_without_closing_plates(&self, i: int)
        requires
            self.is_made(),
            self.grid.n <= usize::MAX,
            self.lowers(Effect::Rift),
            self.raises(Effect::Ridge),
            forall|c: int, k: int, m: Motion| #[trigger]
                self.drift().is_motion(c, k, Some(m)) ==> !closes(m),
            0 <= i < self.grid.n,
            is_number(self.base[i]),
        ensures
            is_number(self.thickness[i]),
            value(self.thickness[i]) <= value(self.base[i]) || self.thickness[i] == 0x4080_0000,
            exists|column: u32|
                #![trigger call_ensures(self.by.column, (self.thickness[i], self.density[i]), column)]
                call_ensures(self.by.column, (self.thickness[i], self.density[i]), column) && (is_number(
                    column,
                ) ==> value(self.heights[i]) >= value(column)),
    {
        let (sources, to) = self.lemma_parts();
        let apply = self.by.apply;
        self.drift().law_sources_have_their_cause(self.boundary, sources);
        if sources.orogeny.len() > 0 {
            let e = sources.orogeny[0];
            assert(self.drift().is_caused(Effect::Orogeny, e.0 as int, e.1));
        }
        if sources.trench.len() > 0 {
            let e = sources.trench[0];
            assert(self.drift().is_caused(Effect::Trench, e.0 as int, e.1));
        }
        self.lemma_no_sources(sources.orogeny, 0x3DC0_DFBC, to.orogeny, i);
        self.lemma_no_sources(sources.trench, 0x3DF1_17AB, to.trench, i);
        assert(is_deformed(apply, to.orogeny, to.rift, i, self.base[i], self.thickness[i]));
        let (thick, thin) = choose|thick: u32, thin: u32|
            {
                &&& #[trigger] is_applied(apply, Effect::Orogeny, to.orogeny, i, self.base[i], thick)
                &&& #[trigger] is_applied(apply, Effect::Rift, to.rift, i, thick, thin)
                &&& self.thickness[i] == at_least(thin, 0x4080_0000)
            };
        self.lemma_column(to, i);
    }

    /// Where no plates separate anywhere, no rifts thin the crust and no ridges lift the sea floor: no
    /// crust is thinner than it was, and no cell stands higher than its column floats.
    pub proof fn law_no_ridges_without_separating_plates(&self, i: int)
        requires
            self.is_made(),
            self.grid.n <= usize::MAX,
            self.raises(Effect::Orogeny),
            self.lowers(Effect::Trench),
            forall|c: int, k: int, m: Motion| #[trigger]
                self.drift().is_motion(c, k, Some(m)) ==> !opens(m),
            0 <= i < self.grid.n,
            is_number(self.base[i]),
        ensures
            is_number(self.thickness[i]),
            value(self.thickness[i]) >= value(self.base[i]),
            exists|column: u32|
                #![trigger call_ensures(self.by.column, (self.thickness[i], self.density[i]), column)]
                call_ensures(self.by.column, (self.thickness[i], self.density[i]), column) && (is_number(
                    column,
                ) ==> value(self.heights[i]) <= value(column)),
    {
        let (sources, to) = self.lemma_parts();
        let apply = self.by.apply;
        self.drift().law_sources_have_their_cause(self.boundary, sources);
        if sources.rift.len() > 0 {
            let e = sources.rift[0];
            assert(self.drift().is_caused(Effect::Rift, e.0 as int, e.1));
        }
        if sources.ridge.len() > 0 {
            let e = sources.ridge[0];
            assert(self.drift().is_caused(Effect::Ridge, e.0 as int, e.1));
        }
        self.lemma_no_sources(sources.rift, 0x3E48_E90E, to.rift, i);
        self.lemma_no_sources(sources.ridge, 0x3F34_D1C0, to.ridge, i);
        assert(is_deformed(apply, to.orogeny, to.rift, i, self.base[i], self.thickness[i]));
        let (thick, thin) = choose|thick: u32, thin: u32|
            {
                &&& #[trigger] is_applied(apply, Effect::Orogeny, to.orogeny, i, self.base[i], thick)
                &&& #[trigger] is_applied(apply, Effect::Rift, to.rift, i, thick, thin)
                &&& self.thickness[i] == at_least(thin, 0x4080_0000)
            };
        law_comparisons_are_those_of_reals(0x4080_0000, thin);
        self.lemma_column(to, i);
    }

    proof fn lemma_column(&self, to: Reaches, i: int)
        requires
            0 <= i < self.grid.n,
            is_cell_height(
                self.by.column,
                self.by.apply,
                to.ridge,
                to.trench,
                self.fractions,
                self.thickness,
                self.density,
                i,
                self.heights[i],
            ),
        ensures
            exists|column: u32|
                #![trigger call_ensures(self.by.column, (self.thickness[i], self.density[i]), column)]
                {
                    &&& call_ensures(self.by.column, (self.thickness[i], self.density[i]), column)
                    &&& is_height(
                        self.by.apply,
                        to.ridge,
                        to.trench,
                        self.fractions[i],
                        i,
                        column,
                        self.heights[i],
                    )
                },
    {
    }
}

} // verus!
