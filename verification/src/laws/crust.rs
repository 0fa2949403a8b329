//! The crust before and after tectonics: what the noise of a seed makes of each cell, and where the
//! land lies once the water is poured.

use crate::fold::{is_fold, is_running};
use crate::grid::Grid;
use crate::laws::relief::Sculpture;
use crate::order::{is_number, law_comparisons_are_those_of_reals, value};
use crate::rng::stepped;
use crate::sim::elevation::{
    after_waves, are_fractions, are_crusts, are_land_sums, are_samples, is_elevation, is_flooded, is_generated,
    is_land, is_seeded, is_tuned, lemma_samples_are_one, lemma_tuned_is_one, waves, Band, Crust, Noise,
    Shore, WaveDraw,
};
use crate::sim::flood::{is_surface, Flood, Measure};
use crate::sim::geology::CrustModel;
use crate::sim::margin::{Effect, Motion};
use crate::sim::terrain::{unit, Terrain};
use vstd::prelude::*;

verus! {

/// State of the generator after `k` words drawn from `seed`.
pub open spec fn words(seed: u64, k: nat) -> u64
    decreases k,
{
    if k == 0 {
        seed
    } else {
        stepped(words(seed, (k - 1) as nat))
    }
}

/// The waves `drawn` are what the words of `seed` from number `from` on give: three words to a wave, its
/// direction's height and angle and its phase, and `per_octave` waves to an octave.
pub open spec fn are_drawn(drawn: Seq<WaveDraw>, seed: u64, from: nat, per_octave: nat) -> bool {
    forall|m: int|
        0 <= m < drawn.len() ==> {
            &&& (#[trigger] drawn[m]).octave == m / per_octave as int
            &&& drawn[m].z == unit(words(seed, (from + 3 * m + 1) as nat))
            &&& drawn[m].theta == unit(words(seed, (from + 3 * m + 2) as nat))
            &&& drawn[m].phase == unit(words(seed, (from + 3 * m + 3) as nat))
        }
}

proof fn lemma_after_waves(seed: u64, from: nat, k: nat)
    ensures
        after_waves(words(seed, from), k) == words(seed, from + 3 * k),
    decreases k,
{
    if k > 0 {
        lemma_after_waves(seed, from, (k - 1) as nat);
        let j = (from + 3 * (k - 1)) as nat;
        assert(words(seed, j + 1) == stepped(words(seed, j)));
        assert(words(seed, j + 2) == stepped(words(seed, j + 1)));
        assert(words(seed, j + 3) == stepped(words(seed, j + 2)));
    }
}

/// Waves drawn one after the other take three words each.
pub proof fn law_a_wave_takes_three_words(seed: u64, from: nat, octaves: u32, per_octave: u32)
    requires
        per_octave > 0,
    ensures
        waves(words(seed, from), octaves, per_octave).len() == octaves * per_octave,
        are_drawn(waves(words(seed, from), octaves, per_octave), seed, from, per_octave as nat),
        after_waves(words(seed, from), (octaves * per_octave) as nat) == words(
            seed,
            (from + 3 * (octaves * per_octave)) as nat,
        ),
{
    let drawn = waves(words(seed, from), octaves, per_octave);
    assert forall|m: int| 0 <= m < drawn.len() implies {
        &&& (#[trigger] drawn[m]).octave == m / per_octave as int
        &&& drawn[m].z == unit(words(seed, (from + 3 * m + 1) as nat))
        &&& drawn[m].theta == unit(words(seed, (from + 3 * m + 2) as nat))
        &&& drawn[m].phase == unit(words(seed, (from + 3 * m + 3) as nat))
    } by {
        lemma_after_waves(seed, from, m as nat);
        let j = (from + 3 * m) as nat;
        assert(words(seed, j + 1) == stepped(words(seed, j)));
        assert(words(seed, j + 2) == stepped(words(seed, j + 1)));
        assert(words(seed, j + 3) == stepped(words(seed, j + 2)));
        assert(0 <= m / (per_octave as int) < octaves) by (nonlinear_arith)
            requires
                0 <= m < octaves * per_octave,
                per_octave > 0,
        ;
    }
    assert(octaves * per_octave >= 0) by (nonlinear_arith);
    lemma_after_waves(seed, from, (octaves * per_octave) as nat);
}

/// Crust type follows the noise of the seed: where the formulas are functions, a cell's continental
/// fraction is what its own craton noise makes of the threshold at which the chosen area lies above,
/// and its crust what that fraction and its own relief noise make. The craton noise is of the first
/// seventy waves that the seed gives, fourteen to an octave, and the relief noise of the next
/// forty-eight, twelve to an octave.
pub proof fn law_crust_follows_the_noise<P, L, A, N, T, B, C, D, E, X, Y, Z>(
    grid: &Grid<P, L, A>,
    seed: u64,
    by: &Noise<B, C, D, E>,
    measure: &Measure<A, T, X, Y, Z>,
    fractions: Seq<u32>,
    base: Seq<u32>,
    density: Seq<u32>,
    coarse: (Vec<WaveDraw>, N, Seq<u32>, u32),
    fine: (Vec<WaveDraw>, N, Seq<u32>),
    i: int,
) where
    B: Fn(Band, Vec<WaveDraw>) -> N,
    C: Fn(&N, P) -> u32,
    D: Fn(u32, u32) -> u32,
    E: Fn(u32, u32) -> (u32, u32),
    X: Fn(T, A) -> T,
    Y: Fn(T) -> T,
    Z: Fn(T, T) -> bool,

    requires
        by.repeatable(),
        measure.repeatable(),
        measure.areas@.len() == grid.centers@.len(),
        is_seeded(grid, seed, by, measure, fractions, base, density),
        coarse.0@.len() == 70,
        are_drawn(coarse.0@, seed, 0, 14),
        call_ensures(by.tune, (Band::Craton, coarse.0), coarse.1),
        coarse.2.len() == grid.centers@.len(),
        forall|c: int|
            0 <= c < coarse.2.len() ==> call_ensures(
                by.sample,
                (&coarse.1, grid.centers@[c]),
                #[trigger] coarse.2[c],
            ),
        measure.is_quantile(coarse.2, coarse.3),
        fine.0@.len() == 48,
        are_drawn(fine.0@, seed, 210, 12),
        call_ensures(by.tune, (Band::Relief, fine.0), fine.1),
        fine.2.len() == grid.centers@.len(),
        forall|c: int|
            0 <= c < fine.2.len() ==> call_ensures(
                by.sample,
                (&fine.1, grid.centers@[c]),
                #[trigger] fine.2[c],
            ),
        0 <= i < grid.centers@.len(),
    ensures
        call_ensures(by.fraction, (coarse.3, coarse.2[i]), fractions[i]),
        call_ensures(by.crust, (fractions[i], fine.2[i]), (base[i], density[i])),
{
    reveal(is_seeded);
    assert(words(seed, 0) == seed);
    law_a_wave_takes_three_words(seed, 0, 5, 14);
    law_a_wave_takes_three_words(seed, 210, 4, 12);
    let one = waves(seed, 5, 14);
    let two = waves(words(seed, 210), 4, 12);
    lemma_same_waves(one, coarse.0@, seed, 0, 14);
    lemma_same_waves(two, fine.0@, seed, 210, 12);
    assert(after_waves(seed, 70) == words(seed, 210));
    let (craton, relief, raw, bumps, tau) = choose|
        craton: N,
        relief: N,
        raw: Seq<u32>,
        bumps: Seq<u32>,
        tau: u32,
    |
        {
            &&& is_tuned(by.tune, Band::Craton, one, craton)
            &&& is_tuned(by.tune, Band::Relief, two, relief)
            &&& #[trigger] are_samples(by.sample, &craton, grid.centers@, raw)
            &&& #[trigger] are_samples(by.sample, &relief, grid.centers@, bumps)
            &&& #[trigger] measure.is_quantile(raw, tau)
            &&& are_fractions(by.fraction, tau, raw, fractions)
            &&& are_crusts(by.crust, fractions, bumps, base, density)
        };
    assert(is_tuned(by.tune, Band::Craton, one, coarse.1));
    assert(is_tuned(by.tune, Band::Relief, two, fine.1));
    lemma_tuned_is_one(by, Band::Craton, one, craton, coarse.1);
    lemma_tuned_is_one(by, Band::Relief, two, relief, fine.1);
    lemma_samples_are_one(by, &craton, grid.centers@, raw, coarse.2);
    lemma_samples_are_one(by, &relief, grid.centers@, bumps, fine.2);
    measure.law_quantile_is_one(raw, tau, coarse.3);
    assert(call_ensures(by.fraction, (tau, raw[i]), fractions[i]));
    assert(call_ensures(by.crust, (fractions[i], bumps[i]), (base[i], density[i])));
}

proof fn lemma_same_waves(x: Seq<WaveDraw>, y: Seq<WaveDraw>, seed: u64, from: nat, per_octave: nat)
    requires
        x.len() == y.len(),
        are_drawn(x, seed, from, per_octave),
        are_drawn(y, seed, from, per_octave),
    ensures
        x == y,
{
    assert forall|m: int| 0 <= m < x.len() implies x[m] == y[m] by {
        assert(x[m].octave == y[m].octave);
    }
    assert(x =~= y);
}

/// A cell stands as high over the sea as its rock does: a column that is not under water keeps its dry
/// height, and one under water lies as deep as the water presses it.
pub proof fn law_water_presses_what_it_covers<A, T, J, K, X, Y, Z, FF, FG, FH, FI, FJ, FK>(
    by: &Shore<J, K>,
    measure: &Measure<A, T, X, Y, Z>,
    flood: &Flood<A, T, FF, FG, FH, FI, FJ, FK>,
    heights: Seq<u32>,
    sea_level: u32,
    elevation: Seq<u32>,
    land_fraction: u32,
    i: int,
) where
    J: Fn(u32, u32) -> u32,
    K: Fn(T, T) -> u32,
    X: Fn(T, A) -> T,
    Y: Fn(T) -> T,
    Z: Fn(T, T) -> bool,
    FF: Fn(u32, u32) -> u32,
    FG: Fn(T, u32, u32, A) -> T,
    FH: Fn(T) -> bool,
    FI: Fn(u32, u32) -> bool,
    FJ: Fn(u32, u32) -> u32,
    FK: Fn(u32, u32) -> u32,

    requires
        is_flooded(by, measure, flood, heights, sea_level, elevation, land_fraction),
        0 <= i < heights.len(),
        is_number(heights[i]),
        is_number(sea_level),
    ensures
        flood.is_sea_level(heights, sea_level),
        value(heights[i]) >= value(sea_level) ==> call_ensures(
            by.rise,
            (heights[i], sea_level),
            elevation[i],
        ),
        value(heights[i]) < value(sea_level) ==> exists|r: u32| #[trigger]
            call_ensures(flood.loaded, (heights[i], sea_level), r) && call_ensures(
                by.rise,
                (r, sea_level),
                elevation[i],
            ),
{
    reveal(is_flooded);
    law_comparisons_are_those_of_reals(sea_level, heights[i]);
    assert(is_elevation(flood.loaded, by.rise, heights[i], sea_level, elevation[i]));
    let r = choose|r: u32| #[trigger]
        is_surface(flood.loaded, heights[i], sea_level, r) && call_ensures(
            by.rise,
            (r, sea_level),
            elevation[i],
        );
}

/// Area of those of the first `n` cells that `counts` picks.
pub open spec fn area_of<A>(area: spec_fn(A) -> int, areas: Seq<A>, counts: spec_fn(int) -> bool, n: nat) -> int
    decreases n,
{
    if n == 0 {
        0
    } else {
        area_of(area, areas, counts, (n - 1) as nat) + if counts(n - 1) {
            area(areas[n - 1])
        } else {
            0
        }
    }
}

/// The land fraction is that of the area above the sea: where areas add up exactly, it is the portion
/// that the area of the cells above zero is of the area of all.
pub proof fn law_land_is_what_stands_above_the_sea<A, T, J, K, X, Y, Z, FF, FG, FH, FI, FJ, FK>(
    by: &Shore<J, K>,
    measure: &Measure<A, T, X, Y, Z>,
    flood: &Flood<A, T, FF, FG, FH, FI, FJ, FK>,
    heights: Seq<u32>,
    sea_level: u32,
    elevation: Seq<u32>,
    land_fraction: u32,
    area: spec_fn(A) -> int,
    sum: spec_fn(T) -> int,
) where
    J: Fn(u32, u32) -> u32,
    K: Fn(T, T) -> u32,
    X: Fn(T, A) -> T,
    Y: Fn(T) -> T,
    Z: Fn(T, T) -> bool,
    FF: Fn(u32, u32) -> u32,
    FG: Fn(T, u32, u32, A) -> T,
    FH: Fn(T) -> bool,
    FI: Fn(u32, u32) -> bool,
    FJ: Fn(u32, u32) -> u32,
    FK: Fn(u32, u32) -> u32,

    requires
        is_flooded(by, measure, flood, heights, sea_level, elevation, land_fraction),
        heights.len() == measure.areas@.len(),
        sum(measure.zero) == 0,
        forall|t: T, a: A, u: T| #[trigger]
            call_ensures(measure.plus, (t, a), u) ==> sum(u) == sum(t) + area(a),
    ensures
        exists|land: T, whole: T|
            {
                &&& #[trigger] call_ensures(by.portion, (land, whole), land_fraction)
                &&& sum(land) == area_of(
                    area,
                    measure.areas@,
                    |i: int| is_number(elevation[i]) && value(elevation[i]) > 0,
                    measure.areas@.len(),
                )
                &&& sum(whole) == area_of(area, measure.areas@, |i: int| true, measure.areas@.len())
            },
{
    reveal(is_flooded);
    let areas = measure.areas@;
    let (land, whole) = choose|land: T, whole: T|
        {
            &&& is_land(measure.plus, measure.zero, areas, elevation, land)
            &&& is_fold(measure.plus, measure.zero, areas, whole)
            &&& #[trigger] call_ensures(by.portion, (land, whole), land_fraction)
        };
    let n = elevation.len() as int;
    let sums = choose|sums: Seq<T>| #[trigger]
        are_land_sums(measure.plus, measure.zero, areas, elevation, n, sums) && sums.last() == land;
    lemma_land_area(measure.plus, measure.zero, areas, elevation, n, sums, area, sum, n);
    let all = choose|sums: Seq<T>| #[trigger]
        is_running(measure.plus, measure.zero, areas, sums) && sums.last() == whole;
    lemma_whole_area(measure.plus, measure.zero, areas, all, area, sum, areas.len() as int);
    assert(call_ensures(by.portion, (land, whole), land_fraction));
}

proof fn lemma_land_area<A, T, F: Fn(T, A) -> T>(
    plus: F,
    zero: T,
    areas: Seq<A>,
    elevation: Seq<u32>,
    n: int,
    sums: Seq<T>,
    area: spec_fn(A) -> int,
    sum: spec_fn(T) -> int,
    k: int,
)
    requires
        are_land_sums(plus, zero, areas, elevation, n, sums),
        0 <= k <= n,
        sum(zero) == 0,
        forall|t: T, a: A, u: T| #[trigger] call_ensures(plus, (t, a), u) ==> sum(u) == sum(t) + area(a),
    ensures
        sum(sums[k]) == area_of(
            area,
            areas,
            |i: int| is_number(elevation[i]) && value(elevation[i]) > 0,
            k as nat,
        ),
    decreases k,
{
    if k > 0 {
        lemma_land_area(plus, zero, areas, elevation, n, sums, area, sum, k - 1);
        let e = elevation[k - 1];
        law_comparisons_are_those_of_reals(0, e);
        assert(sums[k - 1 + 1] == sums[k]);
    }
}

pub(crate) proof fn lemma_whole_area<A, T, F: Fn(T, A) -> T>(
    plus: F,
    zero: T,
    areas: Seq<A>,
    sums: Seq<T>,
    area: spec_fn(A) -> int,
    sum: spec_fn(T) -> int,
    k: int,
)
    requires
        is_running(plus, zero, areas, sums),
        0 <= k <= areas.len(),
        sum(zero) == 0,
        forall|t: T, a: A, u: T| #[trigger] call_ensures(plus, (t, a), u) ==> sum(u) == sum(t) + area(a),
    ensures
        sum(sums[k]) == area_of(area, areas, |i: int| true, k as nat),
    decreases k,
{
    if k > 0 {
        lemma_whole_area(plus, zero, areas, sums, area, sum, k - 1);
        let a = areas[k - 1];
        assert(call_ensures(plus, (sums[k - 1], a), sums[k - 1 + 1]));
    }
}

impl<'a, A, T, B, C, D, E, F, G, H, I, J, K, X, Y, Z, FF, FG, FH, FI, FJ, FK> CrustModel<
    'a,
    A,
    T,
    B,
    C,
    D,
    E,
    F,
    G,
    H,
    I,
    J,
    K,
    X,
    Y,
    Z,
    FF,
    FG,
    FH,
    FI,
    FJ,
    FK,
> where
    D: Fn(u32, u32) -> u32,
    E: Fn(u32, u32) -> (u32, u32),
    H: Fn(Effect, u32, u32, u32) -> u32,
    I: Fn(u32, u32) -> u32,
    J: Fn(u32, u32) -> u32,
    K: Fn(T, T) -> u32,
    X: Fn(T, A) -> T,
    Y: Fn(T) -> T,
    Z: Fn(T, T) -> bool,
    FF: Fn(u32, u32) -> u32,
    FG: Fn(T, u32, u32, A) -> T,
    FH: Fn(T) -> bool,
    FI: Fn(u32, u32) -> bool,
    FJ: Fn(u32, u32) -> u32,
    FK: Fn(u32, u32) -> u32,
 {
    /// A crust is what its noise, then its plates, then its water make of it, each of what came before:
    /// the fractions and densities are those that the noise gave, the boundaries and the thickness those
    /// that the plates left, and the sea is poured over the dry heights that came of it.
    pub proof fn law_a_crust_is_seeded_shaped_and_flooded<P, L, M, V, N>(
        &self,
        grid: &Grid<P, L, A>,
        terrain: &Terrain<M, V>,
        seed: u64,
        crust: &Crust,
    ) -> (made: (Seq<u32>, Seq<u32>)) where
        B: Fn(Band, Vec<WaveDraw>) -> N,
        C: Fn(&N, P) -> u32,
        F: Fn(P, P, V, V) -> Option<Motion>,
        G: Fn(u32, P, P) -> u32,

        requires
            grid.wf(),
            self.makes::<P, L, M, V, N>(grid, terrain, seed, crust),
        ensures
            is_seeded(
                grid,
                seed,
                &self.noise,
                &self.measure,
                crust.continental_fraction@,
                made.0,
                crust.density@,
            ),
            (Sculpture {
                grid,
                terrain,
                by: &self.tectonics,
                fractions: crust.continental_fraction@,
                base: made.0,
                density: crust.density@,
                boundary: crust.boundary@,
                thickness: crust.thickness_km@,
                heights: made.1,
            }).is_made(),
            is_flooded(
                &self.shore,
                &self.measure,
                &self.flood,
                made.1,
                crust.sea_level,
                crust.elevation@,
                crust.land_fraction,
            ),
    {
        let (base, heights) = choose|base: Seq<u32>, heights: Seq<u32>| #[trigger]
            is_generated(
                grid,
                terrain,
                seed,
                &self.noise,
                &self.tectonics,
                &self.shore,
                &self.measure,
                &self.flood,
                crust,
                base,
                heights,
            );
        reveal(is_seeded);
        (base, heights)
    }
}

} // verus!
