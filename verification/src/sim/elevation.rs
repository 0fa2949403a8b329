//! Terrain elevation: a static height field built on top of the tectonic plates.
//!
//! Continents are cut out of a plate-independent noise field by area; every cell is a crust column
//! that floats on the mantle; plate boundaries thicken, thin, lift or bend it; and a fixed volume of
//! water is poured over the result, from which the sea level emerges. All reals are carried as
//! their patterns (see [`crate::order`]), and the formulas come in as kernels ([`Noise`],
//! [`Tectonics`], [`Shore`], [`Measure`], [`Flood`]); what is decided here is which cell gets which
//! effect, in which order.
//!
//! Generation is deterministic in the seed, as far as the kernels are.

use crate::fold::{fold, is_fold};
use crate::grid::Grid;
use crate::order::{
    at_most, below, is_number, number, spec_at_most, spec_below, spec_value_key, value_key, HALF, INFINITY,
    ZERO,
};
use crate::rng::{stepped, Rng};
use crate::sim::flood::{is_surface, rock_surface, Flood, Measure};
use crate::sim::influence::{ground, influence, Influence, Spread};
use crate::sim::margin::{
    are_margin_motions, is_classified, is_interior, law_classification_is_one, sound, BoundaryKind, Effect, Margins,
    Mosaic, Motion, Sources,
};
use crate::sim::terrain::{unit, Terrain};
use vstd::prelude::*;

verus! {

/// Octaves of the craton noise, and waves in each.
pub const CRATON_OCTAVES: u32 = 5;

pub const CRATON_WAVES: u32 = 14;

/// Octaves of the relief noise, and waves in each.
pub const RELIEF_OCTAVES: u32 = 4;

pub const RELIEF_WAVES: u32 = 12;

/// Pattern of the floor on crust thickness after rift thinning: 4 km, so a column never inverts.
pub const MIN_THICKNESS: u32 = 0x4080_0000;

/// Patterns of the distances, in radians, that the effects reach: four orogenic half-widths
/// (4 x 150 km), five rift shoulders (5 x 250 km), three ridge flanks (3 x 1500 km) and five trench
/// falloffs (5 x 150 km), at a radius of 6371 km.
pub const OROGENY_REACH: u32 = 0x3DC0_DFBC;

pub const RIFT_REACH: u32 = 0x3E48_E90E;

pub const RIDGE_REACH: u32 = 0x3F34_D1C0;

pub const TRENCH_REACH: u32 = 0x3DF1_17AB;

/// The uniform draws that one plane wave of the noise is made from, each out of 2^24.
#[derive(Clone, Copy, Debug)]
pub struct WaveDraw {
    /// Band of the wave: its frequency and amplitude go by this.
    pub octave: u32,
    /// Height of its direction.
    pub z: u32,
    /// Azimuth of its direction.
    pub theta: u32,
    /// Its phase.
    pub phase: u32,
}

/// Which noise field waves are for.
#[derive(Clone, Copy, Debug, PartialEq, Eq, Structural)]
pub enum Band {
    /// Continent-scale features.
    Craton,
    /// Highlands and basins within continents.
    Relief,
}

/// What one wave draw gives, and the state it leaves.
pub open spec fn wave_draw(octave: u32, rng: u64) -> (WaveDraw, u64) {
    let a = stepped(rng);
    let b = stepped(a);
    let c = stepped(b);
    (WaveDraw { octave, z: unit(a), theta: unit(b), phase: unit(c) }, c)
}

/// The state after `k` wave draws.
pub open spec fn after_waves(rng: u64, k: nat) -> u64
    decreases k,
{
    if k == 0 {
        rng
    } else {
        wave_draw(0, after_waves(rng, (k - 1) as nat)).1
    }
}

/// The waves of `octaves` bands of `per_octave` each, drawn one after the other from `rng`.
pub open spec fn waves(rng: u64, octaves: u32, per_octave: u32) -> Seq<WaveDraw> {
    Seq::new(
        (octaves * per_octave) as nat,
        |m: int| wave_draw((m / per_octave as int) as u32, after_waves(rng, m as nat)).0,
    )
}

/// Draw the waves of `octaves` bands of `per_octave` each.
pub fn draw_waves(rng: &mut Rng, octaves: u32, per_octave: u32) -> (out: Vec<WaveDraw>)
    ensures
        out@ == waves(old(rng).state(), octaves, per_octave),
        final(rng).state() == after_waves(old(rng).state(), (octaves * per_octave) as nat),
{
    let ghost first = rng.state();
    let ghost width = per_octave as int;
    let ghost all = waves(first, octaves, per_octave);
    let mut out: Vec<WaveDraw> = Vec::new();
    let mut octave: u32 = 0;
    while octave < octaves
        invariant
            octave <= octaves,
            width == per_octave,
            all == waves(first, octaves, per_octave),
            out@.len() == octave * width,
            rng.state() == after_waves(first, out@.len()),
            forall|m: int| 0 <= m < out@.len() ==> #[trigger] out@[m] == all[m],
            octave * width <= octaves * width,
        decreases octaves - octave,
    {
        let mut k: u32 = 0;
        assert((octave + 1) * width <= octaves * width) by (nonlinear_arith)
            requires
                octave + 1 <= octaves,
                width >= 0,
        ;
        assert((octave + 1) * width == octave * width + width) by (nonlinear_arith);
        while k < per_octave
            invariant
                k <= per_octave,
                octave < octaves,
                width == per_octave,
                all == waves(first, octaves, per_octave),
                out@.len() == octave * width + k,
                octave * width + width <= octaves * width,
                rng.state() == after_waves(first, out@.len()),
                forall|m: int| 0 <= m < out@.len() ==> #[trigger] out@[m] == all[m],
            decreases per_octave - k,
        {
            let ghost m = out@.len() as int;
            let ghost before = rng.state();
            let z: u32 = rng.unit_draw();
            let theta: u32 = rng.unit_draw();
            let phase: u32 = rng.unit_draw();
            out.push(WaveDraw { octave, z, theta, phase });
            proof {
                assert(m / width == octave) by (nonlinear_arith)
                    requires
                        m == octave * width + k,
                        0 <= k < width,
                ;
                assert(m < octaves * width);
                assert(out@[m] == wave_draw(octave, before).0);
                assert(out@[m] == all[m]);
                assert(out@.len() - 1 == m);
            }
            k = k + 1;
        }
        octave = octave + 1;
    }
    assert(octave * width == octaves * per_octave);
    assert(out@ =~= all);
    out
}

/// The greater of `x` and the number `floor`; `floor` where `x` is no number.
pub open spec fn at_least(x: u32, floor: u32) -> u32 {
    if !is_number(x) || spec_value_key(x) < spec_value_key(floor) {
        floor
    } else {
        x
    }
}

pub fn floored(x: u32, floor: u32) -> (out: u32)
    ensures
        out == at_least(x, floor),
{
    if !number(x) || value_key(x) < value_key(floor) {
        floor
    } else {
        x
    }
}

/// The formulas that continents are made by.
pub struct Noise<B, C, D, E> {
    /// A noise field from its waves.
    pub tune: B,
    /// The noise field at a position.
    pub sample: C,
    /// The continental fraction, from the threshold and the craton noise.
    pub fraction: D,
    /// Crust thickness (km) and density, from the continental fraction and the relief noise.
    pub crust: E,
}

/// The formulas that plates shape the crust by.
pub struct Tectonics<F, G, H, I> {
    /// Relative motion across a margin, from two positions and two velocities; none where there is
    /// no direction from the one to the other.
    pub motion: F,
    /// A distance with one edge more: the distance, and the edge's two ends.
    pub extend: G,
    /// What an effect makes of a thickness (orogeny, rift) or a height (ridge, trench), at a
    /// distance from a source of some intensity.
    pub apply: H,
    /// Dry height of a column of some thickness and density: isostasy.
    pub column: I,
}

/// The formulas of the coast.
pub struct Shore<J, K> {
    /// Height of a surface over the sea.
    pub rise: J,
    /// The fraction that one area is of another.
    pub portion: K,
}

/// `field` is the noise field that `tune` made of `drawn`.
pub open spec fn is_tuned<N, B: Fn(Band, Vec<WaveDraw>) -> N>(
    tune: B,
    band: Band,
    drawn: Seq<WaveDraw>,
    field: N,
) -> bool {
    exists|held: Vec<WaveDraw>| held@ == drawn && #[trigger] call_ensures(tune, (band, held), field)
}

/// `values` are the noise field at each of `centers`.
pub open spec fn are_samples<N, P, C: Fn(&N, P) -> u32>(
    sample: C,
    field: &N,
    centers: Seq<P>,
    values: Seq<u32>,
) -> bool {
    &&& values.len() == centers.len()
    &&& forall|i: int|
        0 <= i < values.len() ==> call_ensures(sample, (field, centers[i]), #[trigger] values[i])
}

/// `fractions` are the continental fractions of cells with craton noise `raw`, over threshold
/// `tau`.
pub open spec fn are_fractions<D: Fn(u32, u32) -> u32>(
    fraction: D,
    tau: u32,
    raw: Seq<u32>,
    fractions: Seq<u32>,
) -> bool {
    &&& fractions.len() == raw.len()
    &&& forall|i: int|
        0 <= i < raw.len() ==> call_ensures(fraction, (tau, raw[i]), #[trigger] fractions[i])
}

/// `thickness` and `density` are what each cell's continental fraction and relief make.
pub open spec fn are_crusts<E: Fn(u32, u32) -> (u32, u32)>(
    crust: E,
    fractions: Seq<u32>,
    relief: Seq<u32>,
    thickness: Seq<u32>,
    density: Seq<u32>,
) -> bool {
    &&& thickness.len() == fractions.len()
    &&& density.len() == fractions.len()
    &&& forall|i: int|
        0 <= i < fractions.len() ==> call_ensures(
            crust,
            (#[trigger] fractions[i], relief[i]),
            (thickness[i], density[i]),
        )
}

/// How far each cell lies from the nearest source of an effect, and that source's intensity.
pub struct Reach {
    pub dist: Seq<u32>,
    pub intensity: Seq<u32>,
}

impl Influence {
    /// The two fields of the influence.
    pub open spec fn reach(&self) -> Reach {
        Reach { dist: self.dist@, intensity: self.intensity@ }
    }
}

/// `reach` is what spreads from `sources` over `grid`, out to `bound`.
pub open spec fn is_reach<P, L, A, G: Fn(u32, P, P) -> u32>(
    grid: &Grid<P, L, A>,
    extend: G,
    sources: Seq<(usize, u32)>,
    bound: u32,
    reach: Reach,
) -> bool {
    &&& ground(grid, extend, bound).is_influence(sources, reach.dist, reach.intensity)
    &&& exists|run: Seq<Spread>| #[trigger]
        ground(grid, extend, bound).is_run(sources, run) && run.last().dist == reach.dist
            && run.last().intensity == reach.intensity
}

/// `y` is what the effect makes of `x` at cell `i`, which is left alone where the effect does not
/// reach.
pub open spec fn is_applied<H: Fn(Effect, u32, u32, u32) -> u32>(
    apply: H,
    effect: Effect,
    reach: Reach,
    i: int,
    x: u32,
    y: u32,
) -> bool {
    if reach.dist[i] < INFINITY {
        call_ensures(apply, (effect, x, reach.dist[i], reach.intensity[i]), y)
    } else {
        y == x
    }
}

/// `after` is the thickness `before` at cell `i` with the orogeny added and the rift taken off, at
/// least the floor.
pub open spec fn is_deformed<H: Fn(Effect, u32, u32, u32) -> u32>(
    apply: H,
    orogeny: Reach,
    rift: Reach,
    i: int,
    before: u32,
    after: u32,
) -> bool {
    exists|thick: u32, thin: u32|
        {
            &&& #[trigger] is_applied(apply, Effect::Orogeny, orogeny, i, before, thick)
            &&& #[trigger] is_applied(apply, Effect::Rift, rift, i, thick, thin)
            &&& after == at_least(thin, MIN_THICKNESS)
        }
}

/// `after` are the thicknesses `before` of all cells once the plates have shaped them.
pub open spec fn are_deformed<H: Fn(Effect, u32, u32, u32) -> u32>(
    apply: H,
    orogeny: Reach,
    rift: Reach,
    before: Seq<u32>,
    after: Seq<u32>,
) -> bool {
    &&& after.len() == before.len()
    &&& forall|i: int|
        0 <= i < after.len() ==> is_deformed(
            apply,
            orogeny,
            rift,
            i,
            before[i],
            #[trigger] after[i],
        )
}

/// `height` is the dry height of cell `i`: its column's, and on oceanic crust with the ridge lifted
/// and the trench cut.
pub open spec fn is_height<H: Fn(Effect, u32, u32, u32) -> u32>(
    apply: H,
    ridge: Reach,
    trench: Reach,
    fraction: u32,
    i: int,
    base: u32,
    height: u32,
) -> bool {
    if spec_at_most(HALF, fraction) {
        height == base
    } else {
        exists|lifted: u32| #[trigger]
            is_applied(apply, Effect::Ridge, ridge, i, base, lifted) && is_applied(
                apply,
                Effect::Trench,
                trench,
                i,
                lifted,
                height,
            )
    }
}

/// `height` is the height of cell `i` over a sea at `s`, its dry height being `dry`.
pub open spec fn is_elevation<F: Fn(u32, u32) -> u32, J: Fn(u32, u32) -> u32>(
    loaded: F,
    rise: J,
    dry: u32,
    s: u32,
    height: u32,
) -> bool {
    exists|r: u32| #[trigger] is_surface(loaded, dry, s, r) && call_ensures(rise, (r, s), height)
}

/// `sums` are the areas of the cells that stand above the sea, as they add up.
pub open spec fn are_land_sums<A, T, F: Fn(T, A) -> T>(
    plus: F,
    zero: T,
    areas: Seq<A>,
    elevation: Seq<u32>,
    n: int,
    sums: Seq<T>,
) -> bool {
    &&& sums.len() == n + 1
    &&& sums[0] == zero
    &&& forall|i: int|
        0 <= i < n ==> if spec_below(ZERO, #[trigger] elevation[i]) {
            call_ensures(plus, (sums[i], areas[i]), sums[i + 1])
        } else {
            sums[i + 1] == sums[i]
        }
}

/// `land` is the area of the cells that stand above the sea.
pub open spec fn is_land<A, T, F: Fn(T, A) -> T>(
    plus: F,
    zero: T,
    areas: Seq<A>,
    elevation: Seq<u32>,
    land: T,
) -> bool {
    exists|sums: Seq<T>| #[trigger]
        are_land_sums(plus, zero, areas, elevation, elevation.len() as int, sums) && sums.last() == land
}

/// The noise field at every cell.
fn sample_all<N, P: Copy, C: Fn(&N, P) -> u32>(sample: &C, field: &N, centers: &Vec<P>) -> (values: Vec<u32>)
    requires
        forall|n: &N, p: P| #[trigger] call_requires(*sample, (n, p)),
    ensures
        are_samples(*sample, field, centers@, values@),
{
    let mut values: Vec<u32> = Vec::new();
    let mut i: usize = 0;
    while i < centers.len()
        invariant
            i <= centers@.len(),
            values@.len() == i,
            forall|n: &N, p: P| #[trigger] call_requires(*sample, (n, p)),
            forall|k: int|
                0 <= k < i ==> call_ensures(*sample, (field, centers@[k]), #[trigger] values@[k]),
        decreases centers@.len() - i,
    {
        values.push(sample(field, centers[i]));
        i = i + 1;
    }
    values
}

/// The continental fraction of every cell.
fn fraction_all<D: Fn(u32, u32) -> u32>(fraction: &D, tau: u32, raw: &Vec<u32>) -> (fractions: Vec<u32>)
    requires
        forall|t: u32, x: u32| #[trigger] call_requires(*fraction, (t, x)),
    ensures
        are_fractions(*fraction, tau, raw@, fractions@),
{
    let mut fractions: Vec<u32> = Vec::new();
    let mut i: usize = 0;
    while i < raw.len()
        invariant
            i <= raw@.len(),
            fractions@.len() == i,
            forall|t: u32, x: u32| #[trigger] call_requires(*fraction, (t, x)),
            forall|k: int|
                0 <= k < i ==> call_ensures(*fraction, (tau, raw@[k]), #[trigger] fractions@[k]),
        decreases raw@.len() - i,
    {
        fractions.push(fraction(tau, raw[i]));
        i = i + 1;
    }
    fractions
}

/// The crust thickness and density of every cell, before tectonics.
fn crust_all<E: Fn(u32, u32) -> (u32, u32)>(crust: &E, fractions: &Vec<u32>, relief: &Vec<u32>) -> (out: (
    Vec<u32>,
    Vec<u32>,
))
    requires
        forall|f: u32, r: u32| #[trigger] call_requires(*crust, (f, r)),
        fractions@.len() == relief@.len(),
    ensures
        are_crusts(*crust, fractions@, relief@, out.0@, out.1@),
{
    let mut thickness: Vec<u32> = Vec::new();
    let mut density: Vec<u32> = Vec::new();
    let mut i: usize = 0;
    while i < fractions.len()
        invariant
            i <= fractions@.len(),
            fractions@.len() == relief@.len(),
            thickness@.len() == i,
            density@.len() == i,
            forall|f: u32, r: u32| #[trigger] call_requires(*crust, (f, r)),
            forall|k: int|
                0 <= k < i ==> call_ensures(
                    *crust,
                    (#[trigger] fractions@[k], relief@[k]),
                    (thickness@[k], density@[k]),
                ),
        decreases fractions@.len() - i,
    {
        let (t, d): (u32, u32) = crust(fractions[i], relief[i]);
        thickness.push(t);
        density.push(d);
        i = i + 1;
    }
    (thickness, density)
}

/// What an effect makes of `x` at cell `i`.
fn apply_at<H: Fn(Effect, u32, u32, u32) -> u32>(
    apply: &H,
    effect: Effect,
    reach: &Influence,
    i: usize,
    x: u32,
) -> (y: u32)
    requires
        forall|e: Effect, a: u32, d: u32, s: u32| #[trigger] call_requires(*apply, (e, a, d, s)),
        i < reach.dist@.len(),
        i < reach.intensity@.len(),
    ensures
        is_applied(*apply, effect, reach.reach(), i as int, x, y),
{
    if reach.dist[i] < INFINITY {
        apply(effect, x, reach.dist[i], reach.intensity[i])
    } else {
        x
    }
}

/// The crust thickness of every cell after tectonics.
fn deform_all<H: Fn(Effect, u32, u32, u32) -> u32>(
    apply: &H,
    orogeny: &Influence,
    rift: &Influence,
    before: &Vec<u32>,
) -> (after: Vec<u32>)
    requires
        forall|e: Effect, a: u32, d: u32, s: u32| #[trigger] call_requires(*apply, (e, a, d, s)),
        orogeny.dist@.len() == before@.len(),
        orogeny.intensity@.len() == before@.len(),
        rift.dist@.len() == before@.len(),
        rift.intensity@.len() == before@.len(),
    ensures
        are_deformed(*apply, orogeny.reach(), rift.reach(), before@, after@),
{
    let mut after: Vec<u32> = Vec::new();
    let mut i: usize = 0;
    while i < before.len()
        invariant
            forall|e: Effect, a: u32, d: u32, s: u32| #[trigger] call_requires(*apply, (e, a, d, s)),
            orogeny.dist@.len() == before@.len(),
            orogeny.intensity@.len() == before@.len(),
            rift.dist@.len() == before@.len(),
            rift.intensity@.len() == before@.len(),
            i <= before@.len(),
            after@.len() == i,
            forall|k: int|
                0 <= k < i ==> is_deformed(
                    *apply,
                    orogeny.reach(),
                    rift.reach(),
                    k,
                    before@[k],
                    #[trigger] after@[k],
                ),
        decreases before@.len() - i,
    {
        let thick: u32 = apply_at(apply, Effect::Orogeny, orogeny, i, before[i]);
        let thin: u32 = apply_at(apply, Effect::Rift, rift, i, thick);
        after.push(floored(thin, MIN_THICKNESS));
        i = i + 1;
    }
    after
}

/// The dry height of every cell.
fn height_all<I: Fn(u32, u32) -> u32, H: Fn(Effect, u32, u32, u32) -> u32>(
    column: &I,
    apply: &H,
    ridge: &Influence,
    trench: &Influence,
    fractions: &Vec<u32>,
    thickness: &Vec<u32>,
    density: &Vec<u32>,
) -> (heights: Vec<u32>)
    requires
        forall|t: u32, d: u32| #[trigger] call_requires(*column, (t, d)),
        forall|e: Effect, a: u32, d: u32, s: u32| #[trigger] call_requires(*apply, (e, a, d, s)),
        ridge.dist@.len() == fractions@.len(),
        ridge.intensity@.len() == fractions@.len(),
        trench.dist@.len() == fractions@.len(),
        trench.intensity@.len() == fractions@.len(),
        thickness@.len() == fractions@.len(),
        density@.len() == fractions@.len(),
    ensures
        are_heights(
            *column,
            *apply,
            ridge.reach(),
            trench.reach(),
            fractions@,
            thickness@,
            density@,
            heights@,
        ),
{
    let mut heights: Vec<u32> = Vec::new();
    let mut i: usize = 0;
    while i < fractions.len()
        invariant
            forall|t: u32, d: u32| #[trigger] call_requires(*column, (t, d)),
            forall|e: Effect, a: u32, d: u32, s: u32| #[trigger] call_requires(*apply, (e, a, d, s)),
            ridge.dist@.len() == fractions@.len(),
            ridge.intensity@.len() == fractions@.len(),
            trench.dist@.len() == fractions@.len(),
            trench.intensity@.len() == fractions@.len(),
            thickness@.len() == fractions@.len(),
            density@.len() == fractions@.len(),
            i <= fractions@.len(),
            heights@.len() == i,
            forall|k: int|
                0 <= k < i ==> is_cell_height(
                    *column,
                    *apply,
                    ridge.reach(),
                    trench.reach(),
                    fractions@,
                    thickness@,
                    density@,
                    k,
                    #[trigger] heights@[k],
                ),
        decreases fractions@.len() - i,
    {
        let base: u32 = column(thickness[i], density[i]);
        let mut height: u32 = base;
        if !at_most(HALF, fractions[i]) {
            let lifted: u32 = apply_at(apply, Effect::Ridge, ridge, i, base);
            height = apply_at(apply, Effect::Trench, trench, i, lifted);
        }
        assert(is_height(*apply, ridge.reach(), trench.reach(), fractions@[i as int], i as int, base, height));
        heights.push(height);
        i = i + 1;
    }
    heights
}

/// `height` is the dry height of cell `i`.
pub open spec fn is_cell_height<I: Fn(u32, u32) -> u32, H: Fn(Effect, u32, u32, u32) -> u32>(
    column: I,
    apply: H,
    ridge: Reach,
    trench: Reach,
    fractions: Seq<u32>,
    thickness: Seq<u32>,
    density: Seq<u32>,
    i: int,
    height: u32,
) -> bool {
    exists|base: u32| #[trigger]
        call_ensures(column, (thickness[i], density[i]), base) && is_height(
            apply,
            ridge,
            trench,
            fractions[i],
            i,
            base,
            height,
        )
}

/// `heights` are the dry heights of all cells.
pub open spec fn are_heights<I: Fn(u32, u32) -> u32, H: Fn(Effect, u32, u32, u32) -> u32>(
    column: I,
    apply: H,
    ridge: Reach,
    trench: Reach,
    fractions: Seq<u32>,
    thickness: Seq<u32>,
    density: Seq<u32>,
    heights: Seq<u32>,
) -> bool {
    &&& heights.len() == fractions.len()
    &&& forall|i: int|
        0 <= i < heights.len() ==> is_cell_height(
            column,
            apply,
            ridge,
            trench,
            fractions,
            thickness,
            density,
            i,
            #[trigger] heights[i],
        )
}

/// The elevation of every cell over a sea at `s`.
fn elevation_all<F: Fn(u32, u32) -> u32, J: Fn(u32, u32) -> u32>(
    loaded: &F,
    rise: &J,
    heights: &Vec<u32>,
    s: u32,
) -> (elevation: Vec<u32>)
    requires
        forall|e: u32, l: u32| #[trigger] call_requires(*loaded, (e, l)),
        forall|r: u32, l: u32| #[trigger] call_requires(*rise, (r, l)),
    ensures
        elevation@.len() == heights@.len(),
        forall|i: int|
            0 <= i < elevation@.len() ==> is_elevation(
                *loaded,
                *rise,
                heights@[i],
                s,
                #[trigger] elevation@[i],
            ),
{
    let mut elevation: Vec<u32> = Vec::new();
    let mut i: usize = 0;
    while i < heights.len()
        invariant
            forall|e: u32, l: u32| #[trigger] call_requires(*loaded, (e, l)),
            forall|r: u32, l: u32| #[trigger] call_requires(*rise, (r, l)),
            i <= heights@.len(),
            elevation@.len() == i,
            forall|k: int|
                0 <= k < i ==> is_elevation(*loaded, *rise, heights@[k], s, #[trigger] elevation@[k]),
        decreases heights@.len() - i,
    {
        let r: u32 = rock_surface(loaded, heights[i], s);
        elevation.push(rise(r, s));
        i = i + 1;
    }
    elevation
}

/// The area of the cells that stand above the sea.
fn land_area<A: Copy, T: Copy, F: Fn(T, A) -> T>(
    plus: &F,
    zero: T,
    areas: &Vec<A>,
    elevation: &Vec<u32>,
) -> (land: T)
    requires
        forall|t: T, a: A| #[trigger] call_requires(*plus, (t, a)),
        areas@.len() >= elevation@.len(),
    ensures
        is_land(*plus, zero, areas@, elevation@, land),
{
    let mut land: T = zero;
    let ghost mut sums: Seq<T> = seq![zero];
    let mut i: usize = 0;
    while i < elevation.len()
        invariant
            forall|t: T, a: A| #[trigger] call_requires(*plus, (t, a)),
            areas@.len() >= elevation@.len(),
            i <= elevation@.len(),
            are_land_sums(*plus, zero, areas@, elevation@, i as int, sums),
            sums.last() == land,
        decreases elevation@.len() - i,
    {
        if below(ZERO, elevation[i]) {
            land = plus(land, areas[i]);
        }
        proof {
            sums = sums.push(land);
        }
        i = i + 1;
    }
    land
}

/// The elevation layer over a grid: per-cell crust state plus the flooded height field.
pub struct Crust {
    /// Continental fraction per cell (0 is pure oceanic crust, 1 thick continental).
    pub continental_fraction: Vec<u32>,
    /// Crust thickness per cell (km), after tectonic thickening and thinning.
    pub thickness_km: Vec<u32>,
    /// Crust density per cell.
    pub density: Vec<u32>,
    /// Coarse plate-boundary classification per cell.
    pub boundary: Vec<BoundaryKind>,
    /// Surface elevation per cell in metres relative to sea level (negative is ocean floor).
    pub elevation: Vec<u32>,
    /// Emergent sea-surface height above the mantle datum, metres.
    pub sea_level: u32,
    /// Emergent fraction of surface area above sea level.
    pub land_fraction: u32,
}

/// What the noise that `seed` gives makes of the cells: their continental fraction, and the
/// thickness and density of their crust before tectonics.
#[verifier::opaque]
pub open spec fn is_seeded<P, L, A, N, T, B, C, D, E, X, Y, Z>(
    grid: &Grid<P, L, A>,
    seed: u64,
    by: &Noise<B, C, D, E>,
    measure: &Measure<A, T, X, Y, Z>,
    fractions: Seq<u32>,
    base: Seq<u32>,
    density: Seq<u32>,
) -> bool where
    B: Fn(Band, Vec<WaveDraw>) -> N,
    C: Fn(&N, P) -> u32,
    D: Fn(u32, u32) -> u32,
    E: Fn(u32, u32) -> (u32, u32),
    X: Fn(T, A) -> T,
    Y: Fn(T) -> T,
    Z: Fn(T, T) -> bool,
 {
    let second = after_waves(seed, (CRATON_OCTAVES * CRATON_WAVES) as nat);
    exists|craton: N, relief: N, raw: Seq<u32>, bumps: Seq<u32>, tau: u32|
        {
            &&& is_tuned(by.tune, Band::Craton, waves(seed, CRATON_OCTAVES, CRATON_WAVES), craton)
            &&& is_tuned(by.tune, Band::Relief, waves(second, RELIEF_OCTAVES, RELIEF_WAVES), relief)
            &&& #[trigger] are_samples(by.sample, &craton, grid.centers@, raw)
            &&& #[trigger] are_samples(by.sample, &relief, grid.centers@, bumps)
            &&& #[trigger] measure.is_quantile(raw, tau)
            &&& are_fractions(by.fraction, tau, raw, fractions)
            &&& are_crusts(by.crust, fractions, bumps, base, density)
        }
}

/// What the plates make of the crust: the boundaries, and, as far as their effects reach, the
/// thickness and the dry height of each cell.
#[verifier::opaque]
pub open spec fn is_shaped<P, L, A, M, V, F, G, H, I>(
    grid: &Grid<P, L, A>,
    terrain: &Terrain<M, V>,
    by: &Tectonics<F, G, H, I>,
    fractions: Seq<u32>,
    base: Seq<u32>,
    density: Seq<u32>,
    boundary: Seq<BoundaryKind>,
    thickness: Seq<u32>,
    heights: Seq<u32>,
) -> bool where
    F: Fn(P, P, V, V) -> Option<Motion>,
    G: Fn(u32, P, P) -> u32,
    H: Fn(Effect, u32, u32, u32) -> u32,
    I: Fn(u32, u32) -> u32,
 {
    let on = Mosaic { adj: grid.links(), plate_id: terrain.plate_id@, fraction: fractions };
    exists|sources: Sources, orogeny: Reach, rift: Reach, ridge: Reach, trench: Reach|
        {
            &&& is_classified(on, grid.centers@, terrain.velocity@, by.motion, boundary, sources)
            &&& #[trigger] is_reach(grid, by.extend, sources.orogeny, OROGENY_REACH, orogeny)
            &&& #[trigger] is_reach(grid, by.extend, sources.rift, RIFT_REACH, rift)
            &&& #[trigger] is_reach(grid, by.extend, sources.ridge, RIDGE_REACH, ridge)
            &&& #[trigger] is_reach(grid, by.extend, sources.trench, TRENCH_REACH, trench)
            &&& are_deformed(by.apply, orogeny, rift, base, thickness)
            &&& are_heights(by.column, by.apply, ridge, trench, fractions, thickness, density, heights)
        }
}

/// The sea that the volume of water makes of the dry heights, and the land it leaves.
#[verifier::opaque]
pub open spec fn is_flooded<A, T, J, K, X, Y, Z, FF, FG, FH, FI, FJ, FK>(
    by: &Shore<J, K>,
    measure: &Measure<A, T, X, Y, Z>,
    flood: &Flood<A, T, FF, FG, FH, FI, FJ, FK>,
    heights: Seq<u32>,
    sea_level: u32,
    elevation: Seq<u32>,
    land_fraction: u32,
) -> bool where
    J: Fn(u32, u32) -> u32,
    K: Fn(T, T) -> u32,
    X: Fn(T, A) -> T,
    Y: Fn(T) -> T,
    Z: Fn(T, T) -> bool,
    FF: Fn(u32, u32) -> u32,
    FG: Fn(T, u32, u32, A) -> T,
    FH: Fn(T) -> bool,
    FI: Fn(u32, u32) -> bool,
    FJ: Fn(u32, u32) -> u32,
    FK: Fn(u32, u32) -> u32,
 {
    &&& flood.is_sea_level(heights, sea_level)
    &&& elevation.len() == heights.len()
    &&& forall|i: int|
        0 <= i < heights.len() ==> is_elevation(
            flood.loaded,
            by.rise,
            heights[i],
            sea_level,
            #[trigger] elevation[i],
        )
    &&& exists|land: T, whole: T|
        {
            &&& is_land(measure.plus, measure.zero, measure.areas@, elevation, land)
            &&& is_fold(measure.plus, measure.zero, measure.areas@, whole)
            &&& #[trigger] call_ensures(by.portion, (land, whole), land_fraction)
        }
}

/// Continental fraction, thickness and density of the crust before tectonics.
fn seed_crust<P: Copy, L, A: Copy, N, T: Copy, B, C, D, E, X, Y, Z>(
    grid: &Grid<P, L, A>,
    seed: u64,
    by: &Noise<B, C, D, E>,
    measure: &Measure<A, T, X, Y, Z>,
) -> (out: (Vec<u32>, Vec<u32>, Vec<u32>)) where
    B: Fn(Band, Vec<WaveDraw>) -> N,
    C: Fn(&N, P) -> u32,
    D: Fn(u32, u32) -> u32,
    E: Fn(u32, u32) -> (u32, u32),
    X: Fn(T, A) -> T,
    Y: Fn(T) -> T,
    Z: Fn(T, T) -> bool,

    requires
        grid.wf(),
        measure.areas@.len() == grid.n,
        measure.total(),
        forall|b: Band, w: Vec<WaveDraw>| #[trigger] call_requires(by.tune, (b, w)),
        forall|n: &N, p: P| #[trigger] call_requires(by.sample, (n, p)),
        forall|t: u32, x: u32| #[trigger] call_requires(by.fraction, (t, x)),
        forall|f: u32, r: u32| #[trigger] call_requires(by.crust, (f, r)),
    ensures
        is_seeded(grid, seed, by, measure, out.0@, out.1@, out.2@),
        out.0@.len() == grid.n,
        out.1@.len() == grid.n,
        out.2@.len() == grid.n,
{
    let mut rng: Rng = Rng::new(seed);
    // Plate-independent by construction: the fields are sampled in space, not per plate.
    let drawn: Vec<WaveDraw> = draw_waves(&mut rng, CRATON_OCTAVES, CRATON_WAVES);
    let craton: N = (by.tune)(Band::Craton, drawn);
    let more: Vec<WaveDraw> = draw_waves(&mut rng, RELIEF_OCTAVES, RELIEF_WAVES);
    let relief: N = (by.tune)(Band::Relief, more);
    let raw: Vec<u32> = sample_all(&by.sample, &craton, &grid.centers);
    let bumps: Vec<u32> = sample_all(&by.sample, &relief, &grid.centers);
    // The threshold is calibrated on area, not on a fixed noise value.
    let tau: u32 = measure.area_quantile(&raw);
    let fractions: Vec<u32> = fraction_all(&by.fraction, tau, &raw);
    let (base, density): (Vec<u32>, Vec<u32>) = crust_all(&by.crust, &fractions, &bumps);
    assert(is_seeded(grid, seed, by, measure, fractions@, base@, density@)) by {
        reveal(is_seeded);
        let second = after_waves(seed, (CRATON_OCTAVES * CRATON_WAVES) as nat);
        assert(is_tuned(by.tune, Band::Craton, waves(seed, CRATON_OCTAVES, CRATON_WAVES), craton));
        assert(is_tuned(by.tune, Band::Relief, waves(second, RELIEF_OCTAVES, RELIEF_WAVES), relief));
    }
    (fractions, base, density)
}

/// One effect spread from its sources.
fn spread<P: Copy, L, A, G: Fn(u32, P, P) -> u32>(
    grid: &Grid<P, L, A>,
    sources: &Vec<(usize, u32)>,
    bound: u32,
    extend: &G,
) -> (out: Influence)
    requires
        grid.wf(),
        forall|a: int| 0 <= a < sources@.len() ==> (#[trigger] sources@[a]).0 < grid.n,
        forall|d: u32, p: P, q: P| #[trigger] call_requires(*extend, (d, p, q)),
    ensures
        is_reach(grid, *extend, sources@, bound, out.reach()),
        out.dist@.len() == grid.n,
        out.intensity@.len() == grid.n,
{
    proof {
        grid.lemma_links();
    }
    influence(grid, sources, bound, extend)
}

/// Boundaries, thickness after tectonics and dry height.
fn shape_crust<P: Copy, L, A, M, V: Copy, F, G, H, I>(
    grid: &Grid<P, L, A>,
    terrain: &Terrain<M, V>,
    by: &Tectonics<F, G, H, I>,
    fractions: &Vec<u32>,
    base: &Vec<u32>,
    density: &Vec<u32>,
) -> (out: (Vec<BoundaryKind>, Vec<u32>, Vec<u32>)) where
    F: Fn(P, P, V, V) -> Option<Motion>,
    G: Fn(u32, P, P) -> u32,
    H: Fn(Effect, u32, u32, u32) -> u32,
    I: Fn(u32, u32) -> u32,

    requires
        grid.wf(),
        terrain.plate_id@.len() >= grid.n,
        terrain.velocity@.len() >= grid.n,
        fractions@.len() == grid.n,
        base@.len() == grid.n,
        density@.len() == grid.n,
        forall|p: P, q: P, v: V, w: V| #[trigger] call_requires(by.motion, (p, q, v, w)),
        forall|d: u32, p: P, q: P| #[trigger] call_requires(by.extend, (d, p, q)),
        forall|e: Effect, a: u32, d: u32, s: u32| #[trigger] call_requires(by.apply, (e, a, d, s)),
        forall|t: u32, d: u32| #[trigger] call_requires(by.column, (t, d)),
    ensures
        is_shaped(grid, terrain, by, fractions@, base@, density@, out.0@, out.1@, out.2@),
        out.0@.len() == grid.n,
        out.1@.len() == grid.n,
        out.2@.len() == grid.n,
        forall|i: int|
            0 <= i < grid.n ==> spec_at_most(MIN_THICKNESS, #[trigger] out.1@[i]),
        forall|i: int|
            0 <= i < grid.n ==> (#[trigger] out.0@[i] == BoundaryKind::Interior <==> is_interior(
                grid.links(),
                terrain.plate_id@,
                i,
            )),
{
    let ghost on = Mosaic { adj: grid.links(), plate_id: terrain.plate_id@, fraction: fractions@ };
    proof {
        grid.lemma_links();
    }
    let margins: Margins = Margins::classify(grid, &terrain.plate_id, &terrain.velocity, fractions, &by.motion);
    let ghost sources = margins.sources();
    proof {
        let motions = choose|motions: Seq<Seq<Option<Motion>>>|
            {
                &&& #[trigger] are_margin_motions(on, grid.centers@, terrain.velocity@, by.motion, motions)
                &&& margins.boundary@ == Seq::new(on.adj.len(), |i: int| on.kind_of(motions, i))
                &&& sources == on.sources_after(motions, on.adj.len())
            };
        on.law_sources_are_distinct(motions, on.adj.len());
        assert(sound(sources, grid.n as nat));
    }
    let orogeny: Influence = spread(grid, &margins.orogeny, OROGENY_REACH, &by.extend);
    let rift: Influence = spread(grid, &margins.rift, RIFT_REACH, &by.extend);
    let ridge: Influence = spread(grid, &margins.ridge, RIDGE_REACH, &by.extend);
    let trench: Influence = spread(grid, &margins.trench, TRENCH_REACH, &by.extend);
    // Thickening and thinning are compensated isostatically; ridges and trenches come on top.
    let thickness: Vec<u32> = deform_all(&by.apply, &orogeny, &rift, base);
    let heights: Vec<u32> = height_all(
        &by.column,
        &by.apply,
        &ridge,
        &trench,
        fractions,
        &thickness,
        density,
    );
    assert(is_shaped(
        grid,
        terrain,
        by,
        fractions@,
        base@,
        density@,
        margins.boundary@,
        thickness@,
        heights@,
    )) by {
        reveal(is_shaped);
        assert(is_reach(grid, by.extend, sources.orogeny, OROGENY_REACH, orogeny.reach()));
        assert(is_reach(grid, by.extend, sources.rift, RIFT_REACH, rift.reach()));
        assert(is_reach(grid, by.extend, sources.ridge, RIDGE_REACH, ridge.reach()));
        assert(is_reach(grid, by.extend, sources.trench, TRENCH_REACH, trench.reach()));
    }
    assert forall|i: int| 0 <= i < grid.n implies spec_at_most(MIN_THICKNESS, #[trigger] thickness@[i]) by {
        assert(is_deformed(by.apply, orogeny.reach(), rift.reach(), i, base@[i], thickness@[i]));
    }
    (margins.boundary, thickness, heights)
}

/// Sea level, elevation and land fraction.
fn flood_crust<A: Copy, T: Copy, J, K, X, Y, Z, FF, FG, FH, FI, FJ, FK>(
    by: &Shore<J, K>,
    measure: &Measure<A, T, X, Y, Z>,
    flood: &Flood<A, T, FF, FG, FH, FI, FJ, FK>,
    heights: &Vec<u32>,
) -> (out: (u32, Vec<u32>, u32)) where
    J: Fn(u32, u32) -> u32,
    K: Fn(T, T) -> u32,
    X: Fn(T, A) -> T,
    Y: Fn(T) -> T,
    Z: Fn(T, T) -> bool,
    FF: Fn(u32, u32) -> u32,
    FG: Fn(T, u32, u32, A) -> T,
    FH: Fn(T) -> bool,
    FI: Fn(u32, u32) -> bool,
    FJ: Fn(u32, u32) -> u32,
    FK: Fn(u32, u32) -> u32,

    requires
        measure.total(),
        flood.total(),
        measure.areas@.len() == heights@.len(),
        flood.areas@.len() == heights@.len(),
        forall|r: u32, s: u32| #[trigger] call_requires(by.rise, (r, s)),
        forall|a: T, b: T| #[trigger] call_requires(by.portion, (a, b)),
    ensures
        is_flooded(by, measure, flood, heights@, out.0, out.1@, out.2),
        out.1@.len() == heights@.len(),
{
    let sea_level: u32 = flood.solve_sea_level(heights);
    let elevation: Vec<u32> = elevation_all(&flood.loaded, &by.rise, heights, sea_level);
    let land: T = land_area(&measure.plus, measure.zero, measure.areas, &elevation);
    let whole: T = fold(&measure.plus, measure.zero, measure.areas);
    let land_fraction: u32 = (by.portion)(land, whole);
    assert(is_flooded(by, measure, flood, heights@, sea_level, elevation@, land_fraction)) by {
        reveal(is_flooded);
    }
    (sea_level, elevation, land_fraction)
}

impl Crust {
    /// An empty crust (no cells), used before generation.
    pub fn empty() -> (crust: Self)
        ensures
            crust.is_empty(),
    {
        Crust {
            continental_fraction: Vec::new(),
            thickness_km: Vec::new(),
            density: Vec::new(),
            boundary: Vec::new(),
            elevation: Vec::new(),
            sea_level: ZERO,
            land_fraction: ZERO,
        }
    }

    /// No cells, no sea and no land.
    pub open spec fn is_empty(&self) -> bool {
        &&& self.continental_fraction@.len() == 0
        &&& self.thickness_km@.len() == 0
        &&& self.density@.len() == 0
        &&& self.boundary@.len() == 0
        &&& self.elevation@.len() == 0
        &&& self.sea_level == ZERO
        &&& self.land_fraction == ZERO
    }

    /// Generate the elevation field over `grid` from its plates. A grid without cells has an empty
    /// crust; elsewhere the noise that the seed gives, the plates and the flood follow one another.
    pub fn generate_with<
        P: Copy,
        L,
        A: Copy,
        M,
        V: Copy,
        N,
        T: Copy,
        B,
        C,
        D,
        E,
        F,
        G,
        H,
        I,
        J,
        K,
        X,
        Y,
        Z,
        FF,
        FG,
        FH,
        FI,
        FJ,
        FK,
    >(
        grid: &Grid<P, L, A>,
        terrain: &Terrain<M, V>,
        seed: u64,
        noise: &Noise<B, C, D, E>,
        tectonics: &Tectonics<F, G, H, I>,
        shore: &Shore<J, K>,
        measure: &Measure<A, T, X, Y, Z>,
        flood: &Flood<A, T, FF, FG, FH, FI, FJ, FK>,
    ) -> (crust: Self) where
        B: Fn(Band, Vec<WaveDraw>) -> N,
        C: Fn(&N, P) -> u32,
        D: Fn(u32, u32) -> u32,
        E: Fn(u32, u32) -> (u32, u32),
        F: Fn(P, P, V, V) -> Option<Motion>,
        G: Fn(u32, P, P) -> u32,
        H: Fn(Effect, u32, u32, u32) -> u32,
        I: Fn(u32, u32) -> u32,
        J: Fn(u32, u32) -> u32,
        K: Fn(T, T) -> u32,
        X: Fn(T, A) -> T,
        Y: Fn(T) -> T,
        Z: Fn(T, T) -> bool,
        FF: Fn(u32, u32) -> u32,
        FG: Fn(T, u32, u32, A) -> T,
        FH: Fn(T) -> bool,
        FI: Fn(u32, u32) -> bool,
        FJ: Fn(u32, u32) -> u32,
        FK: Fn(u32, u32) -> u32,

        requires
            grid.wf(),
            terrain.plate_id@.len() >= grid.n,
            terrain.velocity@.len() >= grid.n,
            measure.areas@ == grid.areas@,
            flood.areas@ == grid.areas@,
            measure.total(),
            flood.total(),
            forall|b: Band, w: Vec<WaveDraw>| #[trigger] call_requires(noise.tune, (b, w)),
            forall|n: &N, p: P| #[trigger] call_requires(noise.sample, (n, p)),
            forall|t: u32, x: u32| #[trigger] call_requires(noise.fraction, (t, x)),
            forall|f: u32, r: u32| #[trigger] call_requires(noise.crust, (f, r)),
            forall|p: P, q: P, v: V, w: V| #[trigger] call_requires(tectonics.motion, (p, q, v, w)),
            forall|d: u32, p: P, q: P| #[trigger] call_requires(tectonics.extend, (d, p, q)),
            forall|e: Effect, a: u32, d: u32, s: u32| #[trigger]
                call_requires(tectonics.apply, (e, a, d, s)),
            forall|t: u32, d: u32| #[trigger] call_requires(tectonics.column, (t, d)),
            forall|r: u32, s: u32| #[trigger] call_requires(shore.rise, (r, s)),
            forall|a: T, b: T| #[trigger] call_requires(shore.portion, (a, b)),
        ensures
            grid.n == 0 ==> crust.is_empty(),
            grid.n > 0 ==> exists|base: Seq<u32>, heights: Seq<u32>| #[trigger]
                is_generated(
                    grid,
                    terrain,
                    seed,
                    noise,
                    tectonics,
                    shore,
                    measure,
                    flood,
                    &crust,
                    base,
                    heights,
                ),
            crust.continental_fraction@.len() == grid.n,
            crust.thickness_km@.len() == grid.n,
            crust.density@.len() == grid.n,
            crust.boundary@.len() == grid.n,
            crust.elevation@.len() == grid.n,
            forall|i: int|
                0 <= i < grid.n ==> spec_at_most(MIN_THICKNESS, #[trigger] crust.thickness_km@[i]),
            forall|i: int|
                0 <= i < grid.n ==> (#[trigger] crust.boundary@[i] == BoundaryKind::Interior
                    <==> is_interior(grid.links(), terrain.plate_id@, i)),
    {
        if grid.n == 0 {
            return Crust::empty();
        }
        let (continental_fraction, base, density) = seed_crust(grid, seed, noise, measure);
        let (boundary, thickness_km, heights) = shape_crust(
            grid,
            terrain,
            tectonics,
            &continental_fraction,
            &base,
            &density,
        );
        let (sea_level, elevation, land_fraction) = flood_crust(shore, measure, flood, &heights);
        let ghost first = base@;
        let ghost dry = heights@;
        let crust = Crust {
            continental_fraction,
            thickness_km,
            density,
            boundary,
            elevation,
            sea_level,
            land_fraction,
        };
        assert(is_generated(
            grid,
            terrain,
            seed,
            noise,
            tectonics,
            shore,
            measure,
            flood,
            &crust,
            first,
            dry,
        ));
        crust
    }
}

impl<B, C, D, E> Noise<B, C, D, E> {
    /// The formulas are functions.
    pub open spec fn repeatable<P, N>(&self) -> bool where
        B: Fn(Band, Vec<WaveDraw>) -> N,
        C: Fn(&N, P) -> u32,
        D: Fn(u32, u32) -> u32,
        E: Fn(u32, u32) -> (u32, u32),
     {
        &&& forall|b: Band, v: Vec<WaveDraw>, w: Vec<WaveDraw>, x: N, y: N|
            #[trigger] call_ensures(self.tune, (b, v), x) && #[trigger] call_ensures(
                self.tune,
                (b, w),
                y,
            ) && v@ == w@ ==> x == y
        &&& forall|f: &N, p: P, x: u32, y: u32|
            #[trigger] call_ensures(self.sample, (f, p), x) && #[trigger] call_ensures(
                self.sample,
                (f, p),
                y,
            ) ==> x == y
        &&& forall|a: u32, b: u32, x: u32, y: u32|
            #[trigger] call_ensures(self.fraction, (a, b), x) && #[trigger] call_ensures(
                self.fraction,
                (a, b),
                y,
            ) ==> x == y
        &&& forall|a: u32, b: u32, x: (u32, u32), y: (u32, u32)|
            #[trigger] call_ensures(self.crust, (a, b), x) && #[trigger] call_ensures(
                self.crust,
                (a, b),
                y,
            ) ==> x == y
    }
}

impl<F, G, H, I> Tectonics<F, G, H, I> {
    /// The formulas are functions.
    pub open spec fn repeatable<P, V>(&self) -> bool where
        F: Fn(P, P, V, V) -> Option<Motion>,
        G: Fn(u32, P, P) -> u32,
        H: Fn(Effect, u32, u32, u32) -> u32,
        I: Fn(u32, u32) -> u32,
     {
        &&& forall|p: P, q: P, v: V, w: V, x: Option<Motion>, y: Option<Motion>|
            #[trigger] call_ensures(self.motion, (p, q, v, w), x) && #[trigger] call_ensures(
                self.motion,
                (p, q, v, w),
                y,
            ) ==> x == y
        &&& forall|d: u32, p: P, q: P, x: u32, y: u32|
            #[trigger] call_ensures(self.extend, (d, p, q), x) && #[trigger] call_ensures(
                self.extend,
                (d, p, q),
                y,
            ) ==> x == y
        &&& functional_effects(self.apply)
        &&& forall|a: u32, b: u32, x: u32, y: u32|
            #[trigger] call_ensures(self.column, (a, b), x) && #[trigger] call_ensures(
                self.column,
                (a, b),
                y,
            ) ==> x == y
    }
}

/// What an effect makes of something is a function.
pub open spec fn functional_effects<H: Fn(Effect, u32, u32, u32) -> u32>(apply: H) -> bool {
    forall|e: Effect, a: u32, d: u32, s: u32, x: u32, y: u32|
        #[trigger] call_ensures(apply, (e, a, d, s), x) && #[trigger] call_ensures(
            apply,
            (e, a, d, s),
            y,
        ) ==> x == y
}

impl<J, K> Shore<J, K> {
    /// The formulas are functions.
    pub open spec fn repeatable<T>(&self) -> bool where J: Fn(u32, u32) -> u32, K: Fn(T, T) -> u32 {
        &&& forall|a: u32, b: u32, x: u32, y: u32|
            #[trigger] call_ensures(self.rise, (a, b), x) && #[trigger] call_ensures(
                self.rise,
                (a, b),
                y,
            ) ==> x == y
        &&& forall|a: T, b: T, x: u32, y: u32|
            #[trigger] call_ensures(self.portion, (a, b), x) && #[trigger] call_ensures(
                self.portion,
                (a, b),
                y,
            ) ==> x == y
    }
}

/// A seed gives one crust before tectonics.
proof fn lemma_seeded_is_one<P, L, A, N, T, B, C, D, E, X, Y, Z>(
    grid: &Grid<P, L, A>,
    seed: u64,
    by: &Noise<B, C, D, E>,
    measure: &Measure<A, T, X, Y, Z>,
    first: (Seq<u32>, Seq<u32>, Seq<u32>),
    second: (Seq<u32>, Seq<u32>, Seq<u32>),
) where
    B: Fn(Band, Vec<WaveDraw>) -> N,
    C: Fn(&N, P) -> u32,
    D: Fn(u32, u32) -> u32,
    E: Fn(u32, u32) -> (u32, u32),
    X: Fn(T, A) -> T,
    Y: Fn(T) -> T,
    Z: Fn(T, T) -> bool,

    requires
        by.repeatable(),
        measure.repeatable(),
        measure.areas@.len() == grid.centers@.len(),
        is_seeded(grid, seed, by, measure, first.0, first.1, first.2),
        is_seeded(grid, seed, by, measure, second.0, second.1, second.2),
    ensures
        first == second,
{
    reveal(is_seeded);
    let second_rng = after_waves(seed, (CRATON_OCTAVES * CRATON_WAVES) as nat);
    let one = waves(seed, CRATON_OCTAVES, CRATON_WAVES);
    let two = waves(second_rng, RELIEF_OCTAVES, RELIEF_WAVES);
    let (craton, relief, raw, bumps, tau) = choose|
        craton: N,
        relief: N,
        raw: Seq<u32>,
        bumps: Seq<u32>,
        tau: u32,
    |
        {
            &&& is_tuned(by.tune, Band::Craton, one, craton)
            &&& is_tuned(by.tune, Band::Relief, two, relief)
            &&& #[trigger] are_samples(by.sample, &craton, grid.centers@, raw)
            &&& #[trigger] are_samples(by.sample, &relief, grid.centers@, bumps)
            &&& #[trigger] measure.is_quantile(raw, tau)
            &&& are_fractions(by.fraction, tau, raw, first.0)
            &&& are_crusts(by.crust, first.0, bumps, first.1, first.2)
        };
    let (craton2, relief2, raw2, bumps2, tau2) = choose|
        craton: N,
        relief: N,
        raw: Seq<u32>,
        bumps: Seq<u32>,
        tau: u32,
    |
        {
            &&& is_tuned(by.tune, Band::Craton, one, craton)
            &&& is_tuned(by.tune, Band::Relief, two, relief)
            &&& #[trigger] are_samples(by.sample, &craton, grid.centers@, raw)
            &&& #[trigger] are_samples(by.sample, &relief, grid.centers@, bumps)
            &&& #[trigger] measure.is_quantile(raw, tau)
            &&& are_fractions(by.fraction, tau, raw, second.0)
            &&& are_crusts(by.crust, second.0, bumps, second.1, second.2)
        };
    lemma_tuned_is_one(by, Band::Craton, one, craton, craton2);
    lemma_tuned_is_one(by, Band::Relief, two, relief, relief2);
    lemma_samples_are_one(by, &craton, grid.centers@, raw, raw2);
    lemma_samples_are_one(by, &relief, grid.centers@, bumps, bumps2);
    measure.law_quantile_is_one(raw, tau, tau2);
    assert forall|i: int| 0 <= i < raw.len() implies first.0[i] == second.0[i] by {
        assert(call_ensures(by.fraction, (tau, raw[i]), first.0[i]));
        assert(call_ensures(by.fraction, (tau, raw[i]), second.0[i]));
    }
    assert(first.0 =~= second.0);
    assert forall|i: int| 0 <= i < raw.len() implies first.1[i] == second.1[i] && first.2[i] == second.2[i] by {
        assert(call_ensures(by.crust, (first.0[i], bumps[i]), (first.1[i], first.2[i])));
        assert(call_ensures(by.crust, (second.0[i], bumps[i]), (second.1[i], second.2[i])));
    }
    assert(first.1 =~= second.1);
    assert(first.2 =~= second.2);
}

pub(crate) proof fn lemma_tuned_is_one<P, N, B, C, D, E>(
    by: &Noise<B, C, D, E>,
    band: Band,
    drawn: Seq<WaveDraw>,
    x: N,
    y: N,
) where
    B: Fn(Band, Vec<WaveDraw>) -> N,
    C: Fn(&N, P) -> u32,
    D: Fn(u32, u32) -> u32,
    E: Fn(u32, u32) -> (u32, u32),

    requires
        by.repeatable(),
        is_tuned(by.tune, band, drawn, x),
        is_tuned(by.tune, band, drawn, y),
    ensures
        x == y,
{
    let v = choose|held: Vec<WaveDraw>| held@ == drawn && #[trigger] call_ensures(by.tune, (band, held), x);
    let w = choose|held: Vec<WaveDraw>| held@ == drawn && #[trigger] call_ensures(by.tune, (band, held), y);
    assert(call_ensures(by.tune, (band, v), x));
    assert(call_ensures(by.tune, (band, w), y));
}

pub(crate) proof fn lemma_samples_are_one<P, N, B, C, D, E>(
    by: &Noise<B, C, D, E>,
    field: &N,
    centers: Seq<P>,
    x: Seq<u32>,
    y: Seq<u32>,
) where
    B: Fn(Band, Vec<WaveDraw>) -> N,
    C: Fn(&N, P) -> u32,
    D: Fn(u32, u32) -> u32,
    E: Fn(u32, u32) -> (u32, u32),

    requires
        by.repeatable(),
        are_samples(by.sample, field, centers, x),
        are_samples(by.sample, field, centers, y),
    ensures
        x == y,
{
    assert forall|i: int| 0 <= i < x.len() implies x[i] == y[i] by {
        assert(call_ensures(by.sample, (field, centers[i]), x[i]));
        assert(call_ensures(by.sample, (field, centers[i]), y[i]));
    }
    assert(x =~= y);
}

pub(crate) proof fn lemma_reach_is_one<P, L, A, G: Fn(u32, P, P) -> u32>(
    grid: &Grid<P, L, A>,
    extend: G,
    sources: Seq<(usize, u32)>,
    bound: u32,
    x: Reach,
    y: Reach,
)
    requires
        ground(grid, extend, bound).repeatable(),
        is_reach(grid, extend, sources, bound, x),
        is_reach(grid, extend, sources, bound, y),
    ensures
        x == y,
{
    let on = ground(grid, extend, bound);
    let first = choose|run: Seq<Spread>| #[trigger]
        on.is_run(sources, run) && run.last().dist == x.dist && run.last().intensity == x.intensity;
    let second = choose|run: Seq<Spread>| #[trigger]
        on.is_run(sources, run) && run.last().dist == y.dist && run.last().intensity == y.intensity;
    on.law_sources_fix_the_sweep(sources, first, second);
}

proof fn lemma_deformed_is_one<H: Fn(Effect, u32, u32, u32) -> u32>(
    apply: H,
    orogeny: Reach,
    rift: Reach,
    i: int,
    before: u32,
    x: u32,
    y: u32,
)
    requires
        functional_effects(apply),
        is_deformed(apply, orogeny, rift, i, before, x),
        is_deformed(apply, orogeny, rift, i, before, y),
    ensures
        x == y,
{
    let (a, b) = choose|thick: u32, thin: u32|
        {
            &&& #[trigger] is_applied(apply, Effect::Orogeny, orogeny, i, before, thick)
            &&& #[trigger] is_applied(apply, Effect::Rift, rift, i, thick, thin)
            &&& x == at_least(thin, MIN_THICKNESS)
        };
    let (c, d) = choose|thick: u32, thin: u32|
        {
            &&& #[trigger] is_applied(apply, Effect::Orogeny, orogeny, i, before, thick)
            &&& #[trigger] is_applied(apply, Effect::Rift, rift, i, thick, thin)
            &&& y == at_least(thin, MIN_THICKNESS)
        };
    assert(a == c);
    assert(b == d);
}

proof fn lemma_height_is_one<H: Fn(Effect, u32, u32, u32) -> u32>(
    apply: H,
    ridge: Reach,
    trench: Reach,
    fraction: u32,
    i: int,
    base: u32,
    x: u32,
    y: u32,
)
    requires
        functional_effects(apply),
        is_height(apply, ridge, trench, fraction, i, base, x),
        is_height(apply, ridge, trench, fraction, i, base, y),
    ensures
        x == y,
{
    if !spec_at_most(HALF, fraction) {
        let a = choose|lifted: u32| #[trigger]
            is_applied(apply, Effect::Ridge, ridge, i, base, lifted) && is_applied(
                apply,
                Effect::Trench,
                trench,
                i,
                lifted,
                x,
            );
        let b = choose|lifted: u32| #[trigger]
            is_applied(apply, Effect::Ridge, ridge, i, base, lifted) && is_applied(
                apply,
                Effect::Trench,
                trench,
                i,
                lifted,
                y,
            );
        assert(a == b);
    }
}

/// Plates shape a crust in one way.
proof fn lemma_shaped_is_one<P, L, A, M, V, F, G, H, I>(
    grid: &Grid<P, L, A>,
    terrain: &Terrain<M, V>,
    by: &Tectonics<F, G, H, I>,
    fractions: Seq<u32>,
    base: Seq<u32>,
    density: Seq<u32>,
    first: (Seq<BoundaryKind>, Seq<u32>, Seq<u32>),
    second: (Seq<BoundaryKind>, Seq<u32>, Seq<u32>),
) where
    F: Fn(P, P, V, V) -> Option<Motion>,
    G: Fn(u32, P, P) -> u32,
    H: Fn(Effect, u32, u32, u32) -> u32,
    I: Fn(u32, u32) -> u32,

    requires
        by.repeatable(),
        is_shaped(grid, terrain, by, fractions, base, density, first.0, first.1, first.2),
        is_shaped(grid, terrain, by, fractions, base, density, second.0, second.1, second.2),
    ensures
        first == second,
{
    reveal(is_shaped);
    let on = Mosaic { adj: grid.links(), plate_id: terrain.plate_id@, fraction: fractions };
    let (sources, orogeny, rift, ridge, trench) = choose|
        sources: Sources,
        orogeny: Reach,
        rift: Reach,
        ridge: Reach,
        trench: Reach,
    |
        {
            &&& is_classified(on, grid.centers@, terrain.velocity@, by.motion, first.0, sources)
            &&& #[trigger] is_reach(grid, by.extend, sources.orogeny, OROGENY_REACH, orogeny)
            &&& #[trigger] is_reach(grid, by.extend, sources.rift, RIFT_REACH, rift)
            &&& #[trigger] is_reach(grid, by.extend, sources.ridge, RIDGE_REACH, ridge)
            &&& #[trigger] is_reach(grid, by.extend, sources.trench, TRENCH_REACH, trench)
            &&& are_deformed(by.apply, orogeny, rift, base, first.1)
            &&& are_heights(by.column, by.apply, ridge, trench, fractions, first.1, density, first.2)
        };
    let (sources2, orogeny2, rift2, ridge2, trench2) = choose|
        sources: Sources,
        orogeny: Reach,
        rift: Reach,
        ridge: Reach,
        trench: Reach,
    |
        {
            &&& is_classified(on, grid.centers@, terrain.velocity@, by.motion, second.0, sources)
            &&& #[trigger] is_reach(grid, by.extend, sources.orogeny, OROGENY_REACH, orogeny)
            &&& #[trigger] is_reach(grid, by.extend, sources.rift, RIFT_REACH, rift)
            &&& #[trigger] is_reach(grid, by.extend, sources.ridge, RIDGE_REACH, ridge)
            &&& #[trigger] is_reach(grid, by.extend, sources.trench, TRENCH_REACH, trench)
            &&& are_deformed(by.apply, orogeny, rift, base, second.1)
            &&& are_heights(by.column, by.apply, ridge, trench, fractions, second.1, density, second.2)
        };
    law_classification_is_one(
        on,
        grid.centers@,
        terrain.velocity@,
        by.motion,
        (first.0, sources),
        (second.0, sources2),
    );
    lemma_reach_is_one(grid, by.extend, sources.orogeny, OROGENY_REACH, orogeny, orogeny2);
    lemma_reach_is_one(grid, by.extend, sources.rift, RIFT_REACH, rift, rift2);
    lemma_reach_is_one(grid, by.extend, sources.ridge, RIDGE_REACH, ridge, ridge2);
    lemma_reach_is_one(grid, by.extend, sources.trench, TRENCH_REACH, trench, trench2);
    assert forall|i: int| 0 <= i < base.len() implies first.1[i] == second.1[i] by {
        assert(is_deformed(by.apply, orogeny, rift, i, base[i], first.1[i]));
        assert(is_deformed(by.apply, orogeny, rift, i, base[i], second.1[i]));
        lemma_deformed_is_one(by.apply, orogeny, rift, i, base[i], first.1[i], second.1[i]);
    }
    assert(first.1 =~= second.1);
    assert forall|i: int| 0 <= i < fractions.len() implies first.2[i] == second.2[i] by {
        let thickness = first.1;
        assert(is_cell_height(by.column, by.apply, ridge, trench, fractions, thickness, density, i, first.2[i]));
        assert(is_cell_height(by.column, by.apply, ridge, trench, fractions, thickness, density, i, second.2[i]));
        let a = choose|b: u32| #[trigger]
            call_ensures(by.column, (thickness[i], density[i]), b) && is_height(
                by.apply,
                ridge,
                trench,
                fractions[i],
                i,
                b,
                first.2[i],
            );
        let c = choose|b: u32| #[trigger]
            call_ensures(by.column, (thickness[i], density[i]), b) && is_height(
                by.apply,
                ridge,
                trench,
                fractions[i],
                i,
                b,
                second.2[i],
            );
        assert(a == c);
        lemma_height_is_one(by.apply, ridge, trench, fractions[i], i, a, first.2[i], second.2[i]);
    }
    assert(first.2 =~= second.2);
}

proof fn lemma_land_sums_agree<A, T, F: Fn(T, A) -> T>(
    plus: F,
    zero: T,
    areas: Seq<A>,
    elevation: Seq<u32>,
    n: int,
    x: Seq<T>,
    y: Seq<T>,
    i: int,
)
    requires
        forall|t: T, a: A, b: T, c: T|
            #[trigger] call_ensures(plus, (t, a), b) && #[trigger] call_ensures(plus, (t, a), c) ==> b
                == c,
        are_land_sums(plus, zero, areas, elevation, n, x),
        are_land_sums(plus, zero, areas, elevation, n, y),
        0 <= i <= n,
    ensures
        x[i] == y[i],
    decreases i,
{
    if i > 0 {
        lemma_land_sums_agree(plus, zero, areas, elevation, n, x, y, i - 1);
        let e = elevation[i - 1];
    }
}

/// A flood comes to one sea.
proof fn lemma_flooded_is_one<A, T, J, K, X, Y, Z, FF, FG, FH, FI, FJ, FK>(
    by: &Shore<J, K>,
    measure: &Measure<A, T, X, Y, Z>,
    flood: &Flood<A, T, FF, FG, FH, FI, FJ, FK>,
    heights: Seq<u32>,
    first: (u32, Seq<u32>, u32),
    second: (u32, Seq<u32>, u32),
) where
    J: Fn(u32, u32) -> u32,
    K: Fn(T, T) -> u32,
    X: Fn(T, A) -> T,
    Y: Fn(T) -> T,
    Z: Fn(T, T) -> bool,
    FF: Fn(u32, u32) -> u32,
    FG: Fn(T, u32, u32, A) -> T,
    FH: Fn(T) -> bool,
    FI: Fn(u32, u32) -> bool,
    FJ: Fn(u32, u32) -> u32,
    FK: Fn(u32, u32) -> u32,

    requires
        by.repeatable(),
        measure.repeatable(),
        flood.repeatable(),
        is_flooded(by, measure, flood, heights, first.0, first.1, first.2),
        is_flooded(by, measure, flood, heights, second.0, second.1, second.2),
    ensures
        first == second,
{
    reveal(is_flooded);
    let s = first.0;
    flood.law_sea_level_is_one(heights, s, second.0);
    assert forall|i: int| 0 <= i < heights.len() implies first.1[i] == second.1[i] by {
        assert(is_elevation(flood.loaded, by.rise, heights[i], s, first.1[i]));
        assert(is_elevation(flood.loaded, by.rise, heights[i], s, second.1[i]));
        let a = choose|r: u32| #[trigger]
            is_surface(flood.loaded, heights[i], s, r) && call_ensures(by.rise, (r, s), first.1[i]);
        let b = choose|r: u32| #[trigger]
            is_surface(flood.loaded, heights[i], s, r) && call_ensures(by.rise, (r, s), second.1[i]);
        assert(a == b);
    }
    assert(first.1 =~= second.1);
    let (land, whole) = choose|land: T, whole: T|
        {
            &&& is_land(measure.plus, measure.zero, measure.areas@, first.1, land)
            &&& is_fold(measure.plus, measure.zero, measure.areas@, whole)
            &&& #[trigger] call_ensures(by.portion, (land, whole), first.2)
        };
    let (land2, whole2) = choose|land: T, whole: T|
        {
            &&& is_land(measure.plus, measure.zero, measure.areas@, second.1, land)
            &&& is_fold(measure.plus, measure.zero, measure.areas@, whole)
            &&& #[trigger] call_ensures(by.portion, (land, whole), second.2)
        };
    let n = first.1.len() as int;
    let x = choose|sums: Seq<T>| #[trigger]
        are_land_sums(measure.plus, measure.zero, measure.areas@, first.1, n, sums) && sums.last() == land;
    let y = choose|sums: Seq<T>| #[trigger]
        are_land_sums(measure.plus, measure.zero, measure.areas@, first.1, n, sums) && sums.last() == land2;
    lemma_land_sums_agree(measure.plus, measure.zero, measure.areas@, first.1, n, x, y, n);
    crate::fold::lemma_fold_is_one(measure.plus, measure.zero, measure.areas@, whole, whole2);
}

/// Generation is deterministic in the seed: where the formulas are functions, two crusts of one
/// grid with the same plates from the same seed are the same in every field.
pub proof fn law_a_seed_fixes_the_crust<P, L, A, M, V, N, T, B, C, D, E, F, G, H, I, J, K, X, Y, Z, FF, FG, FH, FI, FJ, FK>(
    grid: &Grid<P, L, A>,
    terrain: &Terrain<M, V>,
    seed: u64,
    noise: &Noise<B, C, D, E>,
    tectonics: &Tectonics<F, G, H, I>,
    shore: &Shore<J, K>,
    measure: &Measure<A, T, X, Y, Z>,
    flood: &Flood<A, T, FF, FG, FH, FI, FJ, FK>,
    first: (&Crust, Seq<u32>, Seq<u32>),
    second: (&Crust, Seq<u32>, Seq<u32>),
) where
    B: Fn(Band, Vec<WaveDraw>) -> N,
    C: Fn(&N, P) -> u32,
    D: Fn(u32, u32) -> u32,
    E: Fn(u32, u32) -> (u32, u32),
    F: Fn(P, P, V, V) -> Option<Motion>,
    G: Fn(u32, P, P) -> u32,
    H: Fn(Effect, u32, u32, u32) -> u32,
    I: Fn(u32, u32) -> u32,
    J: Fn(u32, u32) -> u32,
    K: Fn(T, T) -> u32,
    X: Fn(T, A) -> T,
    Y: Fn(T) -> T,
    Z: Fn(T, T) -> bool,
    FF: Fn(u32, u32) -> u32,
    FG: Fn(T, u32, u32, A) -> T,
    FH: Fn(T) -> bool,
    FI: Fn(u32, u32) -> bool,
    FJ: Fn(u32, u32) -> u32,
    FK: Fn(u32, u32) -> u32,

    requires
        grid.wf(),
        measure.areas@ == grid.areas@,
        noise.repeatable(),
        tectonics.repeatable(),
        shore.repeatable(),
        measure.repeatable(),
        flood.repeatable(),
        is_generated(grid, terrain, seed, noise, tectonics, shore, measure, flood, first.0, first.1, first.2),
        is_generated(grid, terrain, seed, noise, tectonics, shore, measure, flood, second.0, second.1, second.2),
    ensures
        first.0.continental_fraction@ == second.0.continental_fraction@,
        first.0.thickness_km@ == second.0.thickness_km@,
        first.0.density@ == second.0.density@,
        first.0.boundary@ == second.0.boundary@,
        first.0.elevation@ == second.0.elevation@,
        first.0.sea_level == second.0.sea_level,
        first.0.land_fraction == second.0.land_fraction,
{
    let a = first.0;
    let b = second.0;
    lemma_seeded_is_one(
        grid,
        seed,
        noise,
        measure,
        (a.continental_fraction@, first.1, a.density@),
        (b.continental_fraction@, second.1, b.density@),
    );
    lemma_shaped_is_one(
        grid,
        terrain,
        tectonics,
        a.continental_fraction@,
        first.1,
        a.density@,
        (a.boundary@, a.thickness_km@, first.2),
        (b.boundary@, b.thickness_km@, second.2),
    );
    lemma_flooded_is_one(
        shore,
        measure,
        flood,
        first.2,
        (a.sea_level, a.elevation@, a.land_fraction),
        (b.sea_level, b.elevation@, b.land_fraction),
    );
}

/// `crust` is what the noise of `seed`, then the plates, then the flood make of `grid`: `base` is
/// the thickness before tectonics, and `heights` are the dry heights.
pub open spec fn is_generated<P, L, A, M, V, N, T, B, C, D, E, F, G, H, I, J, K, X, Y, Z, FF, FG, FH, FI, FJ, FK>(
    grid: &Grid<P, L, A>,
    terrain: &Terrain<M, V>,
    seed: u64,
    noise: &Noise<B, C, D, E>,
    tectonics: &Tectonics<F, G, H, I>,
    shore: &Shore<J, K>,
    measure: &Measure<A, T, X, Y, Z>,
    flood: &Flood<A, T, FF, FG, FH, FI, FJ, FK>,
    crust: &Crust,
    base: Seq<u32>,
    heights: Seq<u32>,
) -> bool where
    B: Fn(Band, Vec<WaveDraw>) -> N,
    C: Fn(&N, P) -> u32,
    D: Fn(u32, u32) -> u32,
    E: Fn(u32, u32) -> (u32, u32),
    F: Fn(P, P, V, V) -> Option<Motion>,
    G: Fn(u32, P, P) -> u32,
    H: Fn(Effect, u32, u32, u32) -> u32,
    I: Fn(u32, u32) -> u32,
    J: Fn(u32, u32) -> u32,
    K: Fn(T, T) -> u32,
    X: Fn(T, A) -> T,
    Y: Fn(T) -> T,
    Z: Fn(T, T) -> bool,
    FF: Fn(u32, u32) -> u32,
    FG: Fn(T, u32, u32, A) -> T,
    FH: Fn(T) -> bool,
    FI: Fn(u32, u32) -> bool,
    FJ: Fn(u32, u32) -> u32,
    FK: Fn(u32, u32) -> u32,
 {
    &&& is_seeded(grid, seed, noise, measure, crust.continental_fraction@, base, crust.density@)
    &&& is_shaped(
        grid,
        terrain,
        tectonics,
        crust.continental_fraction@,
        base,
        crust.density@,
        crust.boundary@,
        crust.thickness_km@,
        heights,
    )
    &&& is_flooded(
        shore,
        measure,
        flood,
        heights,
        crust.sea_level,
        crust.elevation@,
        crust.land_fraction,
    )
}

} // verus!
