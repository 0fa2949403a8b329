//! Winds: one field per atmosphere layer, tangent to the sphere.
//!
//! A layer's wind is seeded from an instantaneous balance ([`compute`]) and then carried forward by
//! its momentum ([`Momentum::step`]). The zonal mean over latitude bands is kept apart from the
//! eddies ([`zonal_means`]), and the strength of the belts follows the simulated contrast between
//! equator and poles ([`gradient_factor`]). Per-cell passes run in parallel over the cells; which
//! cells and which neighbors enter what is decided here, and the formulas are the caller's.

use crate::grid::Grid;
use crate::kernel::{is_function1, is_function2, is_function3, is_function6};
use crate::order::{below, spec_below};
use crate::par::par_map;
use vstd::prelude::*;

verus! {

/// Pattern of the latitude, in degrees, below which a cell belongs to the equatorial belt: 15.
pub const EQUATOR_BAND: u32 = 0x4170_0000;

/// Pattern of the latitude, in degrees, above which a cell belongs to a polar cap: 75.
pub const POLE_BAND: u32 = 0x4296_0000;

/// Number of latitude bands that separate the zonal mean from the eddies.
pub const ZONAL_BANDS: usize = 60;

/// Pattern of the fastest wind, in metres per second: 120. A step slows what is faster.
pub const MAX_WIND: u32 = 0x42F0_0000;

/// Normalized height of a wind layer in a column: 0 at the surface layer, 1 at the top, as a
/// numerator and a denominator. A single-layer column sits at the surface.
pub open spec fn spec_layer_height(layer: usize, n_layers: usize) -> (usize, usize) {
    if n_layers <= 1 {
        (0, 1)
    } else {
        (layer, (n_layers - 1) as usize)
    }
}

/// See [`spec_layer_height`].
pub fn layer_height(layer: usize, n_layers: usize) -> (h: (usize, usize))
    ensures
        h == spec_layer_height(layer, n_layers),
        h.1 > 0,
{
    if n_layers <= 1 {
        (0, 1)
    } else {
        (layer, n_layers - 1)
    }
}

/// The heights of a column run from 0 at the surface layer to 1 at the top and rise on the way.
pub proof fn law_heights_span_the_column(n_layers: usize, a: usize, b: usize)
    requires
        a < b < n_layers,
    ensures
        spec_layer_height(0, n_layers).0 == 0,
        spec_layer_height((n_layers - 1) as usize, n_layers).0 == spec_layer_height(
            (n_layers - 1) as usize,
            n_layers,
        ).1,
        spec_layer_height(a, n_layers).0 < spec_layer_height(b, n_layers).0,
        spec_layer_height(a, n_layers).1 == spec_layer_height(b, n_layers).1,
{
}

/// The belts of latitude that the climate gradient is read off.
#[derive(Clone, Copy, Debug, PartialEq, Eq, Structural)]
pub enum Zone {
    Equator,
    Between,
    Pole,
}

/// The zone of a cell, from the pattern of its latitude without sign.
pub open spec fn spec_zone(latitude: u32) -> Zone {
    if spec_below(latitude, EQUATOR_BAND) {
        Zone::Equator
    } else if spec_below(POLE_BAND, latitude) {
        Zone::Pole
    } else {
        Zone::Between
    }
}

/// See [`spec_zone`].
pub fn zone(latitude: u32) -> (out: Zone)
    ensures
        out == spec_zone(latitude),
{
    if below(latitude, EQUATOR_BAND) {
        Zone::Equator
    } else if below(POLE_BAND, latitude) {
        Zone::Pole
    } else {
        Zone::Between
    }
}

/// The arithmetic of the climate gradient.
pub struct Contrast<S, T, F, G, H, I> {
    /// Nothing gathered.
    pub zero: T,
    /// The gradient where a zone has no area.
    pub one: S,
    /// Latitude of a cell, in degrees without sign, as a pattern.
    pub latitude: F,
    /// What is gathered with one cell more: its value and its area.
    pub gather: G,
    /// What is gathered has no area.
    pub void: H,
    /// The gradient, from what the equator and the poles have gathered.
    pub ratio: I,
}

/// `sums` gather the cells of `zone` among the first `n`.
pub open spec fn are_zone_sums<S, A, T, G: Fn(T, S, A) -> T>(
    gather: G,
    zero: T,
    latitudes: Seq<u32>,
    field: Seq<S>,
    areas: Seq<A>,
    zone: Zone,
    n: int,
    sums: Seq<T>,
) -> bool {
    &&& sums.len() == n + 1
    &&& sums[0] == zero
    &&& forall|i: int|
        0 <= i < n ==> if spec_zone(#[trigger] latitudes[i]) == zone {
            call_ensures(gather, (sums[i], field[i], areas[i]), sums[i + 1])
        } else {
            sums[i + 1] == sums[i]
        }
}

/// `factor` is what comes of the cells at the given `latitudes` when the equator and the poles gather
/// theirs as `equator` and `pole`.
pub open spec fn is_contrast<P, L, A, S, T, F, G, H, I>(
    grid: &Grid<P, L, A>,
    field: Seq<S>,
    by: Contrast<S, T, F, G, H, I>,
    latitudes: Seq<u32>,
    equator: Seq<T>,
    pole: Seq<T>,
    factor: S,
) -> bool where F: Fn(L) -> u32, G: Fn(T, S, A) -> T, H: Fn(T) -> bool, I: Fn(T, T) -> S {
    &&& latitudes.len() == grid.n
    &&& forall|i: int|
        0 <= i < grid.n ==> call_ensures(
            by.latitude,
            (grid.lonlat_deg@[i],),
            #[trigger] latitudes[i],
        )
    &&& are_zone_sums(
        by.gather,
        by.zero,
        latitudes,
        field,
        grid.areas@,
        Zone::Equator,
        grid.n as int,
        equator,
    )
    &&& are_zone_sums(
        by.gather,
        by.zero,
        latitudes,
        field,
        grid.areas@,
        Zone::Pole,
        grid.n as int,
        pole,
    )
    &&& {
        ||| call_ensures(by.void, (equator.last(),), true) && factor == by.one
        ||| call_ensures(by.void, (equator.last(),), false) && call_ensures(
            by.void,
            (pole.last(),),
            true,
        ) && factor == by.one
        ||| call_ensures(by.void, (equator.last(),), false) && call_ensures(
            by.void,
            (pole.last(),),
            false,
        ) && call_ensures(by.ratio, (equator.last(), pole.last()), factor)
    }
}

/// `factor` is the climate gradient of `field`: what the equator and the poles gather set against
/// each other, and `one` where either has no area.
pub open spec fn is_gradient_factor<P, L, A, S, T, F, G, H, I>(
    grid: &Grid<P, L, A>,
    field: Seq<S>,
    by: Contrast<S, T, F, G, H, I>,
    factor: S,
) -> bool where F: Fn(L) -> u32, G: Fn(T, S, A) -> T, H: Fn(T) -> bool, I: Fn(T, T) -> S {
    exists|latitudes: Seq<u32>, equator: Seq<T>, pole: Seq<T>| #[trigger]
        is_contrast(grid, field, by, latitudes, equator, pole, factor)
}

/// Area-weighted contrast between the equator and the poles of the current field.
pub fn gradient_factor<P, L: Copy, A: Copy, S: Copy, T: Copy, F, G, H, I>(
    grid: &Grid<P, L, A>,
    field: &Vec<S>,
    by: &Contrast<S, T, F, G, H, I>,
) -> (factor: S) where F: Fn(L) -> u32, G: Fn(T, S, A) -> T, H: Fn(T) -> bool, I: Fn(T, T) -> S
    requires
        grid.wf(),
        field@.len() >= grid.n,
        forall|l: L| #[trigger] call_requires(by.latitude, (l,)),
        forall|t: T, s: S, a: A| #[trigger] call_requires(by.gather, (t, s, a)),
        forall|t: T| #[trigger] call_requires(by.void, (t,)),
        forall|t: T, u: T| #[trigger] call_requires(by.ratio, (t, u)),
    ensures
        is_gradient_factor(grid, field@, *by, factor),
{
    let mut equator: T = by.zero;
    let mut pole: T = by.zero;
    let ghost mut latitudes: Seq<u32> = Seq::empty();
    let ghost mut low: Seq<T> = seq![by.zero];
    let ghost mut high: Seq<T> = seq![by.zero];
    let mut i: usize = 0;
    while i < grid.n
        invariant
            grid.wf(),
            field@.len() >= grid.n,
            forall|l: L| #[trigger] call_requires(by.latitude, (l,)),
            forall|t: T, s: S, a: A| #[trigger] call_requires(by.gather, (t, s, a)),
            i <= grid.n,
            latitudes.len() == i,
            forall|k: int|
                0 <= k < i ==> call_ensures(by.latitude, (grid.lonlat_deg@[k],), #[trigger] latitudes[k]),
            are_zone_sums(by.gather, by.zero, latitudes, field@, grid.areas@, Zone::Equator, i as int, low),
            are_zone_sums(by.gather, by.zero, latitudes, field@, grid.areas@, Zone::Pole, i as int, high),
            low.last() == equator,
            high.last() == pole,
        decreases grid.n - i,
    {
        let latitude: u32 = (by.latitude)(grid.lonlat_deg[i]);
        match zone(latitude) {
            Zone::Equator => {
                equator = (by.gather)(equator, field[i], grid.areas[i]);
            },
            Zone::Pole => {
                pole = (by.gather)(pole, field[i], grid.areas[i]);
            },
            Zone::Between => {},
        }
        proof {
            let prior = latitudes;
            latitudes = latitudes.push(latitude);
            assert(forall|k: int| 0 <= k < i ==> #[trigger] latitudes[k] == prior[k]);
            low = low.push(equator);
            high = high.push(pole);
        }
        i = i + 1;
    }
    assert(are_zone_sums(by.gather, by.zero, latitudes, field@, grid.areas@, Zone::Equator, grid.n as int, low));
    assert(are_zone_sums(by.gather, by.zero, latitudes, field@, grid.areas@, Zone::Pole, grid.n as int, high));
    let factor: S = if (by.void)(equator) || (by.void)(pole) {
        by.one
    } else {
        (by.ratio)(equator, pole)
    };
    assert(is_contrast(grid, field@, *by, latitudes, low, high, factor));
    factor
}

/// `sums` fold the first `k` neighbors of cell `i` into the fit of a gradient.
pub open spec fn are_fit_sums<P, L, A, S, T, C, F: Fn(C, T, P, P, S, S) -> T>(
    grid: &Grid<P, L, A>,
    field: Seq<S>,
    fit: F,
    zero: T,
    at: C,
    i: int,
    k: int,
    sums: Seq<T>,
) -> bool {
    let nbs = grid.neighbors_of(i);
    &&& sums.len() == k + 1
    &&& sums[0] == zero
    &&& forall|m: int|
        0 <= m < k ==> call_ensures(
            fit,
            (
                at,
                sums[m],
                grid.centers@[i],
                grid.centers@[nbs[m] as int],
                field[i],
                field[#[trigger] nbs[m] as int],
            ),
            sums[m + 1],
        )
}

/// `slope` is the gradient of `field` at cell `i`: what `solve` makes of the fit over all the
/// cell's neighbors.
pub open spec fn is_gradient<P, L, A, S, T, V, C, F: Fn(C, T, P, P, S, S) -> T, G: Fn(P, T) -> V>(
    grid: &Grid<P, L, A>,
    field: Seq<S>,
    fit: F,
    solve: G,
    zero: T,
    at: C,
    i: int,
    slope: V,
) -> bool {
    exists|sums: Seq<T>| #[trigger]
        are_fit_sums(grid, field, fit, zero, at, i, grid.neighbors_of(i).len() as int, sums) && call_ensures(
            solve,
            (grid.centers@[i], sums.last()),
            slope,
        )
}

/// The gradient of `field` at cell `i`.
fn gradient_at<
    P: Copy,
    L,
    A,
    S: Copy,
    T: Copy,
    V,
    C: Copy,
    F: Fn(C, T, P, P, S, S) -> T,
    G: Fn(P, T) -> V,
>(
    grid: &Grid<P, L, A>,
    field: &Vec<S>,
    fit: &F,
    solve: &G,
    zero: T,
    at: C,
    i: usize,
) -> (slope: V)
    requires
        grid.wf(),
        field@.len() >= grid.n,
        i < grid.n,
        forall|t: T, p: P, q: P, a: S, b: S| #[trigger] call_requires(*fit, (at, t, p, q, a, b)),
        forall|p: P, t: T| #[trigger] call_requires(*solve, (p, t)),
    ensures
        is_gradient(grid, field@, *fit, *solve, zero, at, i as int, slope),
{
    let nbs: &[u32] = grid.neighbors(i);
    let mut sum: T = zero;
    let ghost mut sums: Seq<T> = seq![zero];
    let mut k: usize = 0;
    while k < nbs.len()
        invariant
            grid.wf(),
            field@.len() >= grid.n,
            i < grid.n,
            k <= nbs@.len(),
            nbs@ == grid.neighbors_of(i as int),
            forall|m: int| 0 <= m < nbs@.len() ==> #[trigger] nbs@[m] < grid.n,
            forall|t: T, p: P, q: P, a: S, b: S| #[trigger] call_requires(*fit, (at, t, p, q, a, b)),
            are_fit_sums(grid, field@, *fit, zero, at, i as int, k as int, sums),
            sums.last() == sum,
        decreases nbs@.len() - k,
    {
        let j: usize = nbs[k] as usize;
        sum = fit(at, sum, grid.centers[i], grid.centers[j], field[i], field[j]);
        proof {
            sums = sums.push(sum);
        }
        k = k + 1;
    }
    solve(grid.centers[i], sum)
}

/// Tangent-plane gradient of a per-cell field at every cell, by a fit over each cell's neighbors.
pub fn gradients<P, L, A, S, T, V, C, F, G>(
    grid: &Grid<P, L, A>,
    field: &Vec<S>,
    fit: &F,
    solve: &G,
    zero: T,
    at: C,
) -> (slopes: Vec<V>) where
    P: Copy + Sync,
    L: Sync,
    A: Sync,
    S: Copy + Sync,
    T: Copy + Send + Sync,
    V: Send,
    C: Copy + Sync,
    F: Fn(C, T, P, P, S, S) -> T + Sync,
    G: Fn(P, T) -> V + Sync,

    requires
        grid.wf(),
        field@.len() >= grid.n,
        forall|t: T, p: P, q: P, a: S, b: S| #[trigger] call_requires(*fit, (at, t, p, q, a, b)),
        forall|p: P, t: T| #[trigger] call_requires(*solve, (p, t)),
    ensures
        slopes@.len() == grid.n,
        forall|i: int|
            0 <= i < grid.n ==> is_gradient(
                grid,
                field@,
                *fit,
                *solve,
                zero,
                at,
                i,
                #[trigger] slopes@[i],
            ),
{
    let cell = |i: usize| -> (r: V)
        requires
            grid.wf(),
            field@.len() >= grid.n,
            i < grid.n,
            forall|t: T, p: P, q: P, a: S, b: S| #[trigger] call_requires(*fit, (at, t, p, q, a, b)),
            forall|p: P, t: T| #[trigger] call_requires(*solve, (p, t)),
        ensures
            is_gradient(grid, field@, *fit, *solve, zero, at, i as int, r),
        { gradient_at(grid, field, fit, solve, zero, at, i) };
    let slopes: Vec<V> = par_map(grid.n, cell);
    assert forall|i: int| 0 <= i < grid.n implies is_gradient(
        grid,
        field@,
        *fit,
        *solve,
        zero,
        at,
        i,
        #[trigger] slopes@[i],
    ) by {
        assert(call_ensures(cell, (i as usize,), slopes@[(i as usize) as int]));
    }
    slopes
}

/// The instantaneous balance wind of a layer, which seeds its field: at each cell, what `calm` gives
/// for the layer's height, the position and the temperature gradient there.
pub fn compute<P, L, A, V, C, F>(
    grid: &Grid<P, L, A>,
    grad: &Vec<V>,
    layer: usize,
    n_layers: usize,
    calm: &F,
    at: C,
) -> (winds: Vec<V>) where
    P: Copy + Sync,
    L: Sync,
    A: Sync,
    V: Copy + Send + Sync,
    C: Copy + Sync,
    F: Fn(C, (usize, usize), P, V) -> V + Sync,

    requires
        grid.wf(),
        grad@.len() >= grid.n,
        forall|h: (usize, usize), p: P, g: V| #[trigger] call_requires(*calm, (at, h, p, g)),
    ensures
        winds@.len() == grid.n,
        forall|i: int|
            0 <= i < grid.n ==> call_ensures(
                *calm,
                (at, spec_layer_height(layer, n_layers), grid.centers@[i], grad@[i]),
                #[trigger] winds@[i],
            ),
{
    let h: (usize, usize) = layer_height(layer, n_layers);
    let cell = |i: usize| -> (r: V)
        requires
            grid.wf(),
            grad@.len() >= grid.n,
            i < grid.n,
            forall|h: (usize, usize), p: P, g: V| #[trigger] call_requires(*calm, (at, h, p, g)),
        ensures
            call_ensures(*calm, (at, h, grid.centers@[i as int], grad@[i as int]), r),
        { calm(at, h, grid.centers[i], grad[i]) };
    let winds: Vec<V> = par_map(grid.n, cell);
    assert forall|i: int| 0 <= i < grid.n implies call_ensures(
        *calm,
        (at, spec_layer_height(layer, n_layers), grid.centers@[i], grad@[i]),
        #[trigger] winds@[i],
    ) by {
        assert(call_ensures(cell, (i as usize,), winds@[(i as usize) as int]));
    }
    winds
}

/// The band of a cell whose latitude falls on band `raw`: the poles belong to the last one.
pub open spec fn spec_band(raw: usize) -> int {
    if raw < ZONAL_BANDS {
        raw as int
    } else {
        ZONAL_BANDS - 1
    }
}

/// See [`spec_band`].
pub fn band(raw: usize) -> (b: usize)
    ensures
        b == spec_band(raw),
        b < ZONAL_BANDS,
{
    if raw < ZONAL_BANDS {
        raw
    } else {
        ZONAL_BANDS - 1
    }
}

/// `sums` gather the cells of band `b` among the first `n`; `raws` are where the cells' latitudes
/// fall.
pub open spec fn are_band_sums<P, L, A, V, B, C, F: Fn(C, B, P, V, V, A) -> B>(
    grid: &Grid<P, L, A>,
    wind: Seq<V>,
    grad: Seq<V>,
    join: F,
    zero: B,
    at: C,
    raws: Seq<usize>,
    b: int,
    n: int,
    sums: Seq<B>,
) -> bool {
    &&& sums.len() == n + 1
    &&& sums[0] == zero
    &&& forall|i: int|
        0 <= i < n ==> if spec_band(#[trigger] raws[i]) == b {
            call_ensures(
                join,
                (at, sums[i], grid.centers@[i], wind[i], grad[i], grid.areas@[i]),
                sums[i + 1],
            )
        } else {
            sums[i + 1] == sums[i]
        }
}

/// `means` are the zonal means of the bands: what `mean` makes of what each band gathers.
pub open spec fn are_zonal_means<P, L, A, V, B, C, E, F, G>(
    grid: &Grid<P, L, A>,
    wind: Seq<V>,
    grad: Seq<V>,
    by: Zones<B, E, F, G>,
    at: C,
    raws: Seq<usize>,
    means: Seq<B>,
) -> bool where E: Fn(P) -> usize, F: Fn(C, B, P, V, V, A) -> B, G: Fn(B) -> B {
    &&& raws.len() == grid.n
    &&& forall|i: int|
        0 <= i < grid.n ==> call_ensures(by.band, (grid.centers@[i],), #[trigger] raws[i])
    &&& means.len() == ZONAL_BANDS
    &&& forall|b: int|
        0 <= b < ZONAL_BANDS ==> is_band_mean(grid, wind, grad, by, at, raws, b, #[trigger] means[b])
}

/// `mean` is the zonal mean of band `b`.
pub open spec fn is_band_mean<P, L, A, V, B, C, E, F, G>(
    grid: &Grid<P, L, A>,
    wind: Seq<V>,
    grad: Seq<V>,
    by: Zones<B, E, F, G>,
    at: C,
    raws: Seq<usize>,
    b: int,
    mean: B,
) -> bool where E: Fn(P) -> usize, F: Fn(C, B, P, V, V, A) -> B, G: Fn(B) -> B {
    exists|sums: Seq<B>| #[trigger]
        are_band_sums(grid, wind, grad, by.join, by.zero, at, raws, b, grid.n as int, sums) && call_ensures(
            by.mean,
            (sums.last(),),
            mean,
        )
}

/// The arithmetic of zonal means.
pub struct Zones<B, E, F, G> {
    /// Nothing gathered.
    pub zero: B,
    /// Where the latitude of a position falls, counted in bands from the south pole.
    pub band: E,
    /// What a band has gathered with one cell more: its position, wind, gradient and area.
    pub join: F,
    /// The means of what a band has gathered.
    pub mean: G,
}

/// Per-band zonal means of the wind and of the forcing, and the band of each cell.
pub fn zonal_means<P: Copy, L, A: Copy, V: Copy, B: Copy, C: Copy, E, F, G>(
    grid: &Grid<P, L, A>,
    wind: &Vec<V>,
    grad: &Vec<V>,
    by: &Zones<B, E, F, G>,
    at: C,
) -> (out: (Vec<usize>, Vec<B>)) where E: Fn(P) -> usize, F: Fn(C, B, P, V, V, A) -> B, G: Fn(B) -> B
    requires
        grid.wf(),
        wind@.len() >= grid.n,
        grad@.len() >= grid.n,
        forall|p: P| #[trigger] call_requires(by.band, (p,)),
        forall|t: B, p: P, v: V, g: V, a: A| #[trigger] call_requires(by.join, (at, t, p, v, g, a)),
        forall|t: B| #[trigger] call_requires(by.mean, (t,)),
    ensures
        are_zonal_means(grid, wind@, grad@, *by, at, out.0@, out.1@),
{
    let mut raws: Vec<usize> = Vec::new();
    let mut sums: Vec<B> = Vec::new();
    let ghost mut runs: Seq<Seq<B>> = Seq::new(ZONAL_BANDS as nat, |b: int| seq![by.zero]);
    let mut b: usize = 0;
    while b < ZONAL_BANDS
        invariant
            b <= ZONAL_BANDS,
            sums@.len() == b,
            forall|k: int| 0 <= k < b ==> #[trigger] sums@[k] == by.zero,
        decreases ZONAL_BANDS - b,
    {
        sums.push(by.zero);
        b = b + 1;
    }
    let mut i: usize = 0;
    while i < grid.n
        invariant
            grid.wf(),
            wind@.len() >= grid.n,
            grad@.len() >= grid.n,
            forall|p: P| #[trigger] call_requires(by.band, (p,)),
            forall|t: B, p: P, v: V, g: V, a: A| #[trigger] call_requires(by.join, (at, t, p, v, g, a)),
            i <= grid.n,
            raws@.len() == i,
            sums@.len() == ZONAL_BANDS,
            runs.len() == ZONAL_BANDS,
            forall|k: int|
                0 <= k < i ==> call_ensures(by.band, (grid.centers@[k],), #[trigger] raws@[k]),
            forall|k: int|
                0 <= k < ZONAL_BANDS ==> (#[trigger] runs[k]).last() == sums@[k] && are_band_sums(
                    grid,
                    wind@,
                    grad@,
                    by.join,
                    by.zero,
                    at,
                    raws@,
                    k,
                    i as int,
                    runs[k],
                ),
        decreases grid.n - i,
    {
        let raw: usize = (by.band)(grid.centers[i]);
        let place: usize = band(raw);
        let ghost prior = raws@;
        let ghost before = sums@;
        let joined: B = (by.join)(at, sums[place], grid.centers[i], wind[i], grad[i], grid.areas[i]);
        sums.set(place, joined);
        raws.push(raw);
        proof {
            let old_runs = runs;
            runs = Seq::new(ZONAL_BANDS as nat, |k: int| old_runs[k].push(sums@[k]));
            assert forall|k: int| 0 <= k < ZONAL_BANDS implies (#[trigger] runs[k]).last() == sums@[k]
                && are_band_sums(
                grid,
                wind@,
                grad@,
                by.join,
                by.zero,
                at,
                raws@,
                k,
                i + 1,
                runs[k],
            ) by {
                let longer = old_runs[k].push(sums@[k]);
                assert(runs[k] == longer);
                assert(old_runs[k].last() == before[k]);
                assert forall|m: int| 0 <= m < i + 1 implies if spec_band(#[trigger] raws@[m]) == k {
                    call_ensures(
                        by.join,
                        (at, longer[m], grid.centers@[m], wind@[m], grad@[m], grid.areas@[m]),
                        longer[m + 1],
                    )
                } else {
                    longer[m + 1] == longer[m]
                } by {
                    if m < i {
                        assert(raws@[m] == prior[m]);
                    }
                }
            }
        }
        i = i + 1;
    }
    let mut means: Vec<B> = Vec::new();
    b = 0;
    while b < ZONAL_BANDS
        invariant
            forall|t: B| #[trigger] call_requires(by.mean, (t,)),
            b <= ZONAL_BANDS,
            sums@.len() == ZONAL_BANDS,
            runs.len() == ZONAL_BANDS,
            forall|k: int|
                0 <= k < ZONAL_BANDS ==> (#[trigger] runs[k]).last() == sums@[k] && are_band_sums(
                    grid,
                    wind@,
                    grad@,
                    by.join,
                    by.zero,
                    at,
                    raws@,
                    k,
                    grid.n as int,
                    runs[k],
                ),
            means@.len() == b,
            forall|k: int|
                0 <= k < b ==> is_band_mean(grid, wind@, grad@, *by, at, raws@, k, #[trigger] means@[k]),
        decreases ZONAL_BANDS - b,
    {
        means.push((by.mean)(sums[b]));
        assert(runs[b as int].last() == sums@[b as int]);
        b = b + 1;
    }
    (raws, means)
}

/// What one step of a cell's wind is made from.
pub struct Parcel<P, A, V, B, T> {
    /// Normalized height of the layer.
    pub height: (usize, usize),
    /// The layer is the lowest, which feels the full surface friction.
    pub surface: bool,
    pub position: P,
    pub area: A,
    pub wind: V,
    pub grad: V,
    /// What the neighbors bring: momentum carried over the edges, and viscosity.
    pub flow: T,
    /// Zonal means of the cell's band.
    pub mean: B,
    /// Wind of the layer below, which this one is drawn towards.
    pub below: Option<V>,
}

/// The formulas of momentum. `C` is what they may depend on besides: the climate and the step.
pub struct Dynamics<B, T, E, F, G, H, I, J, K, M> {
    pub zones: Zones<B, E, F, G>,
    /// Nothing brought by neighbors.
    pub still: T,
    /// What the neighbors bring with one more: the two positions, the two winds and the edge's
    /// conductance.
    pub carry: H,
    /// The wind that the forces make of a cell's wind over the step.
    pub push: I,
    pub limits: Limits<J, K, M>,
}

/// The formulas that keep a wind on the sphere and within [`MAX_WIND`].
pub struct Limits<J, K, M> {
    /// The part of a wind that is tangent to the sphere at a position.
    pub flatten: J,
    /// Pattern of the speed of a wind.
    pub speed: K,
    /// A wind of the given speed, slowed to another speed.
    pub slow: M,
}

impl<J, K, M> Limits<J, K, M> {
    /// `out` is the wind `v` at `p` kept within the limits: its tangent part, slowed to [`MAX_WIND`] if
    /// that is faster.
    pub open spec fn is_limited<P, V>(&self, p: P, v: V, out: V) -> bool where
        J: Fn(P, V) -> V,
        K: Fn(V) -> u32,
        M: Fn(V, u32, u32) -> V,
     {
        exists|flat: V, speed: u32|
            {
                &&& call_ensures(self.flatten, (p, v), flat)
                &&& #[trigger] call_ensures(self.speed, (flat,), speed)
                &&& if spec_below(MAX_WIND, speed) {
                    call_ensures(self.slow, (flat, speed, MAX_WIND), out)
                } else {
                    out == flat
                }
            }
    }

    /// The formulas take every wind.
    pub open spec fn total<P, V>(&self) -> bool where
        J: Fn(P, V) -> V,
        K: Fn(V) -> u32,
        M: Fn(V, u32, u32) -> V,
     {
        &&& forall|p: P, v: V| #[trigger] call_requires(self.flatten, (p, v))
        &&& forall|v: V| #[trigger] call_requires(self.speed, (v,))
        &&& forall|v: V, from: u32, to: u32| #[trigger] call_requires(self.slow, (v, from, to))
    }

    /// The wind `v` at `p` kept within the limits.
    pub fn limited<P, V: Copy>(&self, p: P, v: V) -> (out: V) where
        J: Fn(P, V) -> V,
        K: Fn(V) -> u32,
        M: Fn(V, u32, u32) -> V,

        requires
            self.total::<P, V>(),
        ensures
            self.is_limited(p, v, out),
    {
        let flat: V = (self.flatten)(p, v);
        let speed: u32 = (self.speed)(flat);
        assert(call_ensures(self.speed, (flat,), speed));
        if below(MAX_WIND, speed) {
            (self.slow)(flat, speed, MAX_WIND)
        } else {
            flat
        }
    }

    /// A limited wind is tangent to the sphere, where flattening makes a wind tangent and slowing keeps
    /// it so.
    pub proof fn law_limited_winds_are_tangent<P, V>(
        &self,
        tangent: spec_fn(P, V) -> bool,
        p: P,
        v: V,
        out: V,
    ) where J: Fn(P, V) -> V, K: Fn(V) -> u32, M: Fn(V, u32, u32) -> V
        requires
            forall|a: V, b: V| #[trigger] call_ensures(self.flatten, (p, a), b) ==> tangent(p, b),
            forall|a: V, from: u32, to: u32, b: V|
                tangent(p, a) && #[trigger] call_ensures(self.slow, (a, from, to), b) ==> tangent(p, b),
            self.is_limited(p, v, out),
        ensures
            tangent(p, out),
    {
    }

    /// A limited wind is no faster than [`MAX_WIND`], where slowing a wind brings it there: no speed
    /// found of it is above.
    pub proof fn law_limited_winds_keep_the_cap<P, V>(&self, p: P, v: V, out: V, speed: u32) where
        J: Fn(P, V) -> V,
        K: Fn(V) -> u32,
        M: Fn(V, u32, u32) -> V,

        requires
            is_function1(self.speed),
            forall|a: V, from: u32, b: V, s: u32|
                #[trigger] call_ensures(self.slow, (a, from, MAX_WIND), b) && #[trigger] call_ensures(
                    self.speed,
                    (b,),
                    s,
                ) ==> !spec_below(MAX_WIND, s),
            self.is_limited(p, v, out),
            call_ensures(self.speed, (out,), speed),
        ensures
            !spec_below(MAX_WIND, speed),
    {
    }
}

/// A step of one layer's wind: what it reads, what the formulas depend on, and the formulas.
pub struct Momentum<'a, P, L, A, V, B, T, C, E, F, G, H, I, J, K, M> {
    pub grid: &'a Grid<P, L, A>,
    /// The layer's wind.
    pub wind: &'a Vec<V>,
    /// The gradient that drives it.
    pub grad: &'a Vec<V>,
    /// The wind of the layer below, as already stepped; none for the lowest layer.
    pub below: Option<&'a Vec<V>>,
    pub layer: usize,
    pub n_layers: usize,
    pub at: C,
    pub by: &'a Dynamics<B, T, E, F, G, H, I, J, K, M>,
}

impl<'a, P, L, A, V, B, T, C, E, F, G, H, I, J, K, M> Momentum<'a, P, L, A, V, B, T, C, E, F, G, H, I, J, K, M> where
    E: Fn(P) -> usize,
    F: Fn(C, B, P, V, V, A) -> B,
    G: Fn(B) -> B,
    H: Fn(T, P, P, V, V, A) -> T,
    I: Fn(C, Parcel<P, A, V, B, T>) -> V,
    J: Fn(P, V) -> V,
    K: Fn(V) -> u32,
    M: Fn(V, u32, u32) -> V,
 {
    /// Every cell has a value in each field, and the formulas take every value.
    pub open spec fn wf(&self) -> bool {
        &&& self.grid.wf()
        &&& self.wind@.len() >= self.grid.n
        &&& self.grad@.len() >= self.grid.n
        &&& match self.below {
            Some(below) => below@.len() >= self.grid.n,
            None => true,
        }
        &&& forall|p: P| #[trigger] call_requires(self.by.zones.band, (p,))
        &&& forall|t: B, p: P, v: V, g: V, a: A| #[trigger]
            call_requires(self.by.zones.join, (self.at, t, p, v, g, a))
        &&& forall|t: B| #[trigger] call_requires(self.by.zones.mean, (t,))
        &&& forall|t: T, p: P, q: P, v: V, w: V, a: A| #[trigger]
            call_requires(self.by.carry, (t, p, q, v, w, a))
        &&& forall|c: Parcel<P, A, V, B, T>| #[trigger] call_requires(self.by.push, (self.at, c))
        &&& self.by.limits.total::<P, V>()
    }

    /// `sums` gather what the first `k` neighbors of cell `i` bring.
    pub open spec fn are_flow_sums(&self, i: int, k: int, sums: Seq<T>) -> bool {
        let nbs = self.grid.neighbors_of(i);
        &&& sums.len() == k + 1
        &&& sums[0] == self.by.still
        &&& forall|m: int|
            0 <= m < k ==> call_ensures(
                self.by.carry,
                (
                    sums[m],
                    self.grid.centers@[i],
                    self.grid.centers@[nbs[m] as int],
                    self.wind@[i],
                    self.wind@[#[trigger] nbs[m] as int],
                    self.grid.weights_of(i)[m],
                ),
                sums[m + 1],
            )
    }

    /// `flow` is what the neighbors of cell `i` bring.
    pub open spec fn is_flow(&self, i: int, flow: T) -> bool {
        exists|sums: Seq<T>| #[trigger]
            self.are_flow_sums(i, self.grid.neighbors_of(i).len() as int, sums) && sums.last() == flow
    }

    /// `c` is what the step of cell `i` is made from.
    pub open spec fn is_parcel(
        &self,
        raws: Seq<usize>,
        means: Seq<B>,
        i: int,
        c: Parcel<P, A, V, B, T>,
    ) -> bool {
        &&& c.height == spec_layer_height(self.layer, self.n_layers)
        &&& c.surface == (self.layer == 0)
        &&& c.position == self.grid.centers@[i]
        &&& c.area == self.grid.areas@[i]
        &&& c.wind == self.wind@[i]
        &&& c.grad == self.grad@[i]
        &&& self.is_flow(i, c.flow)
        &&& c.mean == means[spec_band(raws[i])]
        &&& c.below == match self.below {
            Some(below) => Some(below@[i]),
            None => None,
        }
    }

    /// `out` is the wind of cell `i` after the step, given where latitudes fall and the means of
    /// the bands: what the forces make of it, kept within the limits.
    pub open spec fn is_pushed(&self, raws: Seq<usize>, means: Seq<B>, i: int, out: V) -> bool {
        exists|c: Parcel<P, A, V, B, T>, free: V|
            {
                &&& self.is_parcel(raws, means, i, c)
                &&& #[trigger] call_ensures(self.by.push, (self.at, c), free)
                &&& self.by.limits.is_limited(self.grid.centers@[i], free, out)
            }
    }

    /// `out` is the layer's wind after the step.
    pub open spec fn is_step(&self, out: Seq<V>) -> bool {
        exists|raws: Seq<usize>, means: Seq<B>|
            {
                &&& #[trigger] are_zonal_means(
                    self.grid,
                    self.wind@,
                    self.grad@,
                    self.by.zones,
                    self.at,
                    raws,
                    means,
                )
                &&& out.len() == self.grid.n
                &&& forall|i: int|
                    0 <= i < out.len() ==> self.is_pushed(raws, means, i, #[trigger] out[i])
            }
    }

    /// What the neighbors of cell `i` bring.
    fn flow(&self, i: usize) -> (flow: T) where P: Copy, A: Copy, V: Copy, T: Copy
        requires
            self.wf(),
            i < self.grid.n,
        ensures
            self.is_flow(i as int, flow),
    {
        let nbs: &[u32] = self.grid.neighbors(i);
        let weights: &[A] = self.grid.neighbor_weights(i);
        let mut flow: T = self.by.still;
        let ghost mut sums: Seq<T> = seq![flow];
        let mut k: usize = 0;
        while k < nbs.len()
            invariant
                self.wf(),
                i < self.grid.n,
                k <= nbs@.len(),
                nbs@ == self.grid.neighbors_of(i as int),
                weights@ == self.grid.weights_of(i as int),
                weights@.len() == nbs@.len(),
                forall|m: int| 0 <= m < nbs@.len() ==> #[trigger] nbs@[m] < self.grid.n,
                self.are_flow_sums(i as int, k as int, sums),
                sums.last() == flow,
            decreases nbs@.len() - k,
        {
            let j: usize = nbs[k] as usize;
            flow = (self.by.carry)(
                flow,
                self.grid.centers[i],
                self.grid.centers[j],
                self.wind[i],
                self.wind[j],
                weights[k],
            );
            proof {
                sums = sums.push(flow);
            }
            k = k + 1;
        }
        flow
    }

    /// The wind of cell `i` after the step.
    fn pushed(&self, raws: &Vec<usize>, means: &Vec<B>, i: usize) -> (out: V) where
        P: Copy,
        A: Copy,
        V: Copy,
        T: Copy,
        B: Copy,
        C: Copy,

        requires
            self.wf(),
            i < self.grid.n,
            raws@.len() == self.grid.n,
            means@.len() == ZONAL_BANDS,
        ensures
            self.is_pushed(raws@, means@, i as int, out),
    {
        let flow: T = self.flow(i);
        let below: Option<V> = match self.below {
            Some(below) => Some(below[i]),
            None => None,
        };
        let c = Parcel {
            height: layer_height(self.layer, self.n_layers),
            surface: self.layer == 0,
            position: self.grid.centers[i],
            area: self.grid.areas[i],
            wind: self.wind[i],
            grad: self.grad[i],
            flow,
            mean: means[band(raws[i])],
            below,
        };
        let free: V = (self.by.push)(self.at, c);
        assert(call_ensures(self.by.push, (self.at, c), free));
        self.by.limits.limited(self.grid.centers[i], free)
    }

    /// Advance the layer's wind one step.
    pub fn step(&self) -> (out: Vec<V>) where
        P: Copy + Sync,
        L: Sync,
        A: Copy + Sync,
        V: Copy + Send + Sync,
        B: Copy + Sync,
        T: Copy + Sync,
        C: Copy + Sync,
        E: Sync,
        F: Sync,
        G: Sync,
        H: Sync,
        I: Sync,
        J: Sync,
        K: Sync,
        M: Sync,

        requires
            self.wf(),
        ensures
            self.is_step(out@),
            out@.len() == self.grid.n,
    {
        let (raws, means) = zonal_means(self.grid, self.wind, self.grad, &self.by.zones, self.at);
        let cell = |i: usize| -> (r: V)
            requires
                self.wf(),
                i < self.grid.n,
                raws@.len() == self.grid.n,
                means@.len() == ZONAL_BANDS,
            ensures
                self.is_pushed(raws@, means@, i as int, r),
            { self.pushed(&raws, &means, i) };
        let out: Vec<V> = par_map(self.grid.n, cell);
        assert(are_zonal_means(self.grid, self.wind@, self.grad@, self.by.zones, self.at, raws@, means@));
        assert forall|i: int| 0 <= i < out@.len() implies self.is_pushed(
            raws@,
            means@,
            i,
            #[trigger] out@[i],
        ) by {
            assert(call_ensures(cell, (i as usize,), out@[(i as usize) as int]));
        }
        out
    }
}

proof fn lemma_zone_sums_agree<S, A, T, G: Fn(T, S, A) -> T>(
    gather: G,
    zero: T,
    latitudes: Seq<u32>,
    field: Seq<S>,
    areas: Seq<A>,
    zone: Zone,
    n: int,
    x: Seq<T>,
    y: Seq<T>,
    i: int,
)
    requires
        is_function3(gather),
        are_zone_sums(gather, zero, latitudes, field, areas, zone, n, x),
        are_zone_sums(gather, zero, latitudes, field, areas, zone, n, y),
        0 <= i <= n,
    ensures
        x[i] == y[i],
    decreases i,
{
    if i > 0 {
        lemma_zone_sums_agree(gather, zero, latitudes, field, areas, zone, n, x, y, i - 1);
        let l = latitudes[i - 1];
        if spec_zone(l) == zone {
            assert(call_ensures(gather, (x[i - 1], field[i - 1], areas[i - 1]), x[i - 1 + 1]));
            assert(call_ensures(gather, (y[i - 1], field[i - 1], areas[i - 1]), y[i - 1 + 1]));
        }
    }
}

impl<S, T, F, G, H, I> Contrast<S, T, F, G, H, I> {
    /// The arithmetic is a function.
    pub open spec fn repeatable<L, A>(&self) -> bool where
        F: Fn(L) -> u32,
        G: Fn(T, S, A) -> T,
        H: Fn(T) -> bool,
        I: Fn(T, T) -> S,
     {
        &&& is_function1(self.latitude)
        &&& is_function3(self.gather)
        &&& is_function1(self.void)
        &&& is_function2(self.ratio)
    }
}

/// Where the arithmetic is a function, a field has one climate gradient.
pub proof fn law_gradient_factor_is_one<P, L, A, S, T, F, G, H, I>(
    grid: &Grid<P, L, A>,
    field: Seq<S>,
    by: Contrast<S, T, F, G, H, I>,
    x: S,
    y: S,
) where F: Fn(L) -> u32, G: Fn(T, S, A) -> T, H: Fn(T) -> bool, I: Fn(T, T) -> S
    requires
        by.repeatable::<L, A>(),
        is_gradient_factor(grid, field, by, x),
        is_gradient_factor(grid, field, by, y),
    ensures
        x == y,
{
    let (la, ea, pa) = choose|latitudes: Seq<u32>, equator: Seq<T>, pole: Seq<T>|
        is_contrast(grid, field, by, latitudes, equator, pole, x);
    let (lb, eb, pb) = choose|latitudes: Seq<u32>, equator: Seq<T>, pole: Seq<T>|
        is_contrast(grid, field, by, latitudes, equator, pole, y);
    assert forall|i: int| 0 <= i < grid.n implies la[i] == lb[i] by {
        assert(call_ensures(by.latitude, (grid.lonlat_deg@[i],), la[i]));
        assert(call_ensures(by.latitude, (grid.lonlat_deg@[i],), lb[i]));
    }
    assert(la =~= lb);
    let n = grid.n as int;
    lemma_zone_sums_agree(by.gather, by.zero, la, field, grid.areas@, Zone::Equator, n, ea, eb, n);
    lemma_zone_sums_agree(by.gather, by.zero, la, field, grid.areas@, Zone::Pole, n, pa, pb, n);
    assert(ea.last() == eb.last() && pa.last() == pb.last());
}

proof fn lemma_fit_sums_agree<P, L, A, S, T, C, F: Fn(C, T, P, P, S, S) -> T>(
    grid: &Grid<P, L, A>,
    field: Seq<S>,
    fit: F,
    zero: T,
    at: C,
    i: int,
    n: int,
    x: Seq<T>,
    y: Seq<T>,
    k: int,
)
    requires
        is_function6(fit),
        are_fit_sums(grid, field, fit, zero, at, i, n, x),
        are_fit_sums(grid, field, fit, zero, at, i, n, y),
        0 <= k <= n,
    ensures
        x[k] == y[k],
    decreases k,
{
    if k > 0 {
        lemma_fit_sums_agree(grid, field, fit, zero, at, i, n, x, y, k - 1);
        let j = grid.neighbors_of(i)[k - 1] as int;
        let p = grid.centers@[i];
        let q = grid.centers@[j];
        assert(call_ensures(fit, (at, x[k - 1], p, q, field[i], field[j]), x[k - 1 + 1]));
        assert(call_ensures(fit, (at, y[k - 1], p, q, field[i], field[j]), y[k - 1 + 1]));
    }
}

/// Where the fit and its solution are functions, a field has one gradient at a cell.
pub proof fn law_gradient_is_one<P, L, A, S, T, V, C, F, G>(
    grid: &Grid<P, L, A>,
    field: Seq<S>,
    fit: F,
    solve: G,
    zero: T,
    at: C,
    i: int,
    x: V,
    y: V,
) where F: Fn(C, T, P, P, S, S) -> T, G: Fn(P, T) -> V
    requires
        is_function6(fit),
        is_function2(solve),
        is_gradient(grid, field, fit, solve, zero, at, i, x),
        is_gradient(grid, field, fit, solve, zero, at, i, y),
    ensures
        x == y,
{
    let n = grid.neighbors_of(i).len() as int;
    let a = choose|sums: Seq<T>| #[trigger]
        are_fit_sums(grid, field, fit, zero, at, i, n, sums) && call_ensures(
            solve,
            (grid.centers@[i], sums.last()),
            x,
        );
    let b = choose|sums: Seq<T>| #[trigger]
        are_fit_sums(grid, field, fit, zero, at, i, n, sums) && call_ensures(
            solve,
            (grid.centers@[i], sums.last()),
            y,
        );
    lemma_fit_sums_agree(grid, field, fit, zero, at, i, n, a, b, n);
    assert(a.last() == b.last());
}

impl<B, T, E, F, G, H, I, J, K, M> Dynamics<B, T, E, F, G, H, I, J, K, M> {
    /// The formulas are functions.
    pub open spec fn repeatable<P, A, V, C>(&self) -> bool where
        E: Fn(P) -> usize,
        F: Fn(C, B, P, V, V, A) -> B,
        G: Fn(B) -> B,
        H: Fn(T, P, P, V, V, A) -> T,
        I: Fn(C, Parcel<P, A, V, B, T>) -> V,
        J: Fn(P, V) -> V,
        K: Fn(V) -> u32,
        M: Fn(V, u32, u32) -> V,
     {
        &&& is_function1(self.zones.band)
        &&& is_function6(self.zones.join)
        &&& is_function1(self.zones.mean)
        &&& is_function6(self.carry)
        &&& is_function2(self.push)
        &&& is_function2(self.limits.flatten)
        &&& is_function1(self.limits.speed)
        &&& is_function3(self.limits.slow)
    }
}

/// Two winds that may be missing hold the same values.
pub open spec fn same_below<V>(x: Option<&Vec<V>>, y: Option<&Vec<V>>) -> bool {
    match (x, y) {
        (Some(a), Some(b)) => a@ == b@,
        (None, None) => true,
        _ => false,
    }
}

proof fn lemma_band_sums_agree<P, L, A, V, B, C, F: Fn(C, B, P, V, V, A) -> B>(
    grid: &Grid<P, L, A>,
    wind: Seq<V>,
    grad: Seq<V>,
    join: F,
    zero: B,
    at: C,
    raws: Seq<usize>,
    b: int,
    n: int,
    x: Seq<B>,
    y: Seq<B>,
    i: int,
)
    requires
        is_function6(join),
        are_band_sums(grid, wind, grad, join, zero, at, raws, b, n, x),
        are_band_sums(grid, wind, grad, join, zero, at, raws, b, n, y),
        0 <= i <= n,
    ensures
        x[i] == y[i],
    decreases i,
{
    if i > 0 {
        lemma_band_sums_agree(grid, wind, grad, join, zero, at, raws, b, n, x, y, i - 1);
        let m = i - 1;
        let raw = raws[i - 1];
        if spec_band(raw) == b {
            let p = grid.centers@[m];
            let a = grid.areas@[m];
            assert(call_ensures(join, (at, x[m], p, wind[m], grad[m], a), x[m + 1]));
            assert(call_ensures(join, (at, y[m], p, wind[m], grad[m], a), y[m + 1]));
        }
    }
}

impl<'a, P, L, A, V, B, T, C, E, F, G, H, I, J, K, M> Momentum<'a, P, L, A, V, B, T, C, E, F, G, H, I, J, K, M> where
    E: Fn(P) -> usize,
    F: Fn(C, B, P, V, V, A) -> B,
    G: Fn(B) -> B,
    H: Fn(T, P, P, V, V, A) -> T,
    I: Fn(C, Parcel<P, A, V, B, T>) -> V,
    J: Fn(P, V) -> V,
    K: Fn(V) -> u32,
    M: Fn(V, u32, u32) -> V,
 {
    /// The two steps go by the same formulas at the same moment and read the same.
    pub open spec fn alike(&self, other: &Self) -> bool {
        &&& self.grid == other.grid
        &&& self.wind@ == other.wind@
        &&& self.grad@ == other.grad@
        &&& same_below(self.below, other.below)
        &&& self.layer == other.layer
        &&& self.n_layers == other.n_layers
        &&& self.at == other.at
        &&& self.by == other.by
    }

    proof fn lemma_flow_sums_agree(&self, other: &Self, i: int, n: int, x: Seq<T>, y: Seq<T>, k: int)
        requires
            self.by.repeatable::<P, A, V, C>(),
            self.alike(other),
            self.are_flow_sums(i, n, x),
            other.are_flow_sums(i, n, y),
            0 <= k <= n,
        ensures
            x[k] == y[k],
        decreases k,
    {
        if k > 0 {
            self.lemma_flow_sums_agree(other, i, n, x, y, k - 1);
            let j = self.grid.neighbors_of(i)[k - 1] as int;
            let p = self.grid.centers@[i];
            let q = self.grid.centers@[j];
            let u = self.wind@[i];
            let v = self.wind@[j];
            let w = self.grid.weights_of(i)[k - 1];
            assert(call_ensures(self.by.carry, (x[k - 1], p, q, u, v, w), x[k - 1 + 1]));
            assert(call_ensures(self.by.carry, (y[k - 1], p, q, u, v, w), y[k - 1 + 1]));
        }
    }

    proof fn lemma_pushed_is_one(
        &self,
        other: &Self,
        raws: Seq<usize>,
        means: Seq<B>,
        i: int,
        x: V,
        y: V,
    )
        requires
            self.by.repeatable::<P, A, V, C>(),
            self.alike(other),
            self.is_pushed(raws, means, i, x),
            other.is_pushed(raws, means, i, y),
        ensures
            x == y,
    {
        let (a, u) = choose|c: Parcel<P, A, V, B, T>, free: V|
            {
                &&& self.is_parcel(raws, means, i, c)
                &&& #[trigger] call_ensures(self.by.push, (self.at, c), free)
                &&& self.by.limits.is_limited(self.grid.centers@[i], free, x)
            };
        let (b, v) = choose|c: Parcel<P, A, V, B, T>, free: V|
            {
                &&& other.is_parcel(raws, means, i, c)
                &&& #[trigger] call_ensures(other.by.push, (other.at, c), free)
                &&& other.by.limits.is_limited(other.grid.centers@[i], free, y)
            };
        let n = self.grid.neighbors_of(i).len() as int;
        let p = choose|sums: Seq<T>| #[trigger] self.are_flow_sums(i, n, sums) && sums.last() == a.flow;
        let q = choose|sums: Seq<T>| #[trigger] other.are_flow_sums(i, n, sums) && sums.last() == b.flow;
        self.lemma_flow_sums_agree(other, i, n, p, q, n);
        assert(a.flow == b.flow);
        assert(a.below == b.below);
        assert(a == b);
        assert(u == v);
        let limits = self.by.limits;
        let at = self.grid.centers@[i];
        let (fa, sa) = choose|flat: V, speed: u32|
            {
                &&& call_ensures(limits.flatten, (at, u), flat)
                &&& #[trigger] call_ensures(limits.speed, (flat,), speed)
                &&& if spec_below(MAX_WIND, speed) {
                    call_ensures(limits.slow, (flat, speed, MAX_WIND), x)
                } else {
                    x == flat
                }
            };
        let (fb, sb) = choose|flat: V, speed: u32|
            {
                &&& call_ensures(limits.flatten, (at, u), flat)
                &&& #[trigger] call_ensures(limits.speed, (flat,), speed)
                &&& if spec_below(MAX_WIND, speed) {
                    call_ensures(limits.slow, (flat, speed, MAX_WIND), y)
                } else {
                    y == flat
                }
            };
        assert(fa == fb && sa == sb);
    }

    /// Winds stay on the sphere and within the cap: where flattening makes a wind tangent, and slowing
    /// keeps it so and brings it to [`MAX_WIND`], every wind after the step is tangent and none is
    /// found to be faster.
    pub proof fn law_step_keeps_the_limits(
        &self,
        tangent: spec_fn(P, V) -> bool,
        out: Seq<V>,
        i: int,
        speed: u32,
    )
        requires
            self.is_step(out),
            0 <= i < out.len(),
            forall|p: P, a: V, b: V| #[trigger]
                call_ensures(self.by.limits.flatten, (p, a), b) ==> tangent(p, b),
            forall|p: P, a: V, from: u32, to: u32, b: V|
                #[trigger] tangent(p, a) && #[trigger] call_ensures(
                    self.by.limits.slow,
                    (a, from, to),
                    b,
                ) ==> tangent(p, b),
            is_function1(self.by.limits.speed),
            forall|a: V, from: u32, b: V, s: u32|
                #[trigger] call_ensures(self.by.limits.slow, (a, from, MAX_WIND), b)
                    && #[trigger] call_ensures(self.by.limits.speed, (b,), s) ==> !spec_below(MAX_WIND, s),
            call_ensures(self.by.limits.speed, (out[i],), speed),
        ensures
            tangent(self.grid.centers@[i], out[i]),
            !spec_below(MAX_WIND, speed),
    {
        let (raws, means) = choose|raws: Seq<usize>, means: Seq<B>|
            {
                &&& #[trigger] are_zonal_means(
                    self.grid,
                    self.wind@,
                    self.grad@,
                    self.by.zones,
                    self.at,
                    raws,
                    means,
                )
                &&& out.len() == self.grid.n
                &&& forall|k: int| 0 <= k < out.len() ==> self.is_pushed(raws, means, k, #[trigger] out[k])
            };
        assert(self.is_pushed(raws, means, i, out[i]));
        let p = self.grid.centers@[i];
        let (c, free) = choose|c: Parcel<P, A, V, B, T>, free: V|
            {
                &&& self.is_parcel(raws, means, i, c)
                &&& #[trigger] call_ensures(self.by.push, (self.at, c), free)
                &&& self.by.limits.is_limited(p, free, out[i])
            };
        self.by.limits.law_limited_winds_are_tangent(tangent, p, free, out[i]);
        self.by.limits.law_limited_winds_keep_the_cap(p, free, out[i], speed);
    }

    /// A step has one result: where the formulas are functions, two steps that read the same leave the
    /// same wind.
    pub proof fn law_step_is_one(&self, other: &Self, x: Seq<V>, y: Seq<V>)
        requires
            self.by.repeatable::<P, A, V, C>(),
            self.alike(other),
            self.is_step(x),
            other.is_step(y),
        ensures
            x == y,
    {
        let (ra, ma) = choose|raws: Seq<usize>, means: Seq<B>|
            {
                &&& #[trigger] are_zonal_means(
                    self.grid,
                    self.wind@,
                    self.grad@,
                    self.by.zones,
                    self.at,
                    raws,
                    means,
                )
                &&& x.len() == self.grid.n
                &&& forall|i: int| 0 <= i < x.len() ==> self.is_pushed(raws, means, i, #[trigger] x[i])
            };
        let (rb, mb) = choose|raws: Seq<usize>, means: Seq<B>|
            {
                &&& #[trigger] are_zonal_means(
                    other.grid,
                    other.wind@,
                    other.grad@,
                    other.by.zones,
                    other.at,
                    raws,
                    means,
                )
                &&& y.len() == other.grid.n
                &&& forall|i: int| 0 <= i < y.len() ==> other.is_pushed(raws, means, i, #[trigger] y[i])
            };
        let zones = self.by.zones;
        let n = self.grid.n as int;
        assert forall|i: int| 0 <= i < n implies ra[i] == rb[i] by {
            assert(call_ensures(zones.band, (self.grid.centers@[i],), ra[i]));
            assert(call_ensures(zones.band, (self.grid.centers@[i],), rb[i]));
        }
        assert(ra =~= rb);
        assert forall|b: int| 0 <= b < ZONAL_BANDS implies ma[b] == mb[b] by {
            assert(is_band_mean(self.grid, self.wind@, self.grad@, zones, self.at, ra, b, ma[b]));
            assert(is_band_mean(self.grid, self.wind@, self.grad@, zones, self.at, ra, b, mb[b]));
            let p = choose|sums: Seq<B>| #[trigger]
                are_band_sums(
                    self.grid,
                    self.wind@,
                    self.grad@,
                    zones.join,
                    zones.zero,
                    self.at,
                    ra,
                    b,
                    n,
                    sums,
                ) && call_ensures(zones.mean, (sums.last(),), ma[b]);
            let q = choose|sums: Seq<B>| #[trigger]
                are_band_sums(
                    self.grid,
                    self.wind@,
                    self.grad@,
                    zones.join,
                    zones.zero,
                    self.at,
                    ra,
                    b,
                    n,
                    sums,
                ) && call_ensures(zones.mean, (sums.last(),), mb[b]);
            lemma_band_sums_agree(
                self.grid,
                self.wind@,
                self.grad@,
                zones.join,
                zones.zero,
                self.at,
                ra,
                b,
                n,
                p,
                q,
                n,
            );
            assert(p.last() == q.last());
        }
        assert(ma =~= mb);
        assert forall|i: int| 0 <= i < x.len() implies x[i] == y[i] by {
            assert(self.is_pushed(ra, ma, i, x[i]));
            assert(other.is_pushed(ra, ma, i, y[i]));
            self.lemma_pushed_is_one(other, ra, ma, i, x[i], y[i]);
        }
        assert(x =~= y);
    }
}

} // verus!
