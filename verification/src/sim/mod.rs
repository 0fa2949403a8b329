//! Climate simulation over a grid: the surface, a column of atmosphere layers and their winds,
//! with the geology they stand on.
//!
//! [`Sim`] is the state. [`weather::Weather`] advances it, in steps no longer than a bound; every
//! step reads a stable snapshot and writes new fields.

pub mod elevation;
pub mod flood;
pub mod geology;
pub mod growth;
pub mod influence;
pub mod margin;
pub mod temperature;
pub mod terrain;
pub mod weather;
pub mod wind;

use crate::order::{
    below, is_number, law_comparisons_are_those_of_reals, spec_below, value, ZERO,
};
use elevation::Crust;
use temperature::{are_layers, same_layers};
use terrain::Terrain;
use vstd::prelude::*;

verus! {

/// Hard cap on the number of atmosphere layers.
pub const MAX_LAYERS: usize = 16;

/// Tunable climate parameters; `S` is a scalar.
#[derive(Clone, Copy, Debug)]
pub struct Climate<S> {
    /// Peak solar flux at the subsolar point.
    pub solar_constant: S,
    /// Fraction of incoming sunlight reflected.
    pub albedo: S,
    /// Thermal emissivity for outgoing radiation.
    pub emissivity: S,
    /// Areal heat capacity of land surface. Applied to cells with elevation at or above zero.
    pub heat_capacity: S,
    /// Areal heat capacity of ocean surface. Applied to cells with elevation below zero.
    pub heat_capacity_ocean: S,
    /// Lateral heat-conduction coefficient.
    pub diffusivity: S,
    /// Axial tilt (radians).
    pub obliquity: S,
    /// Length of one day in simulation seconds.
    pub day_seconds: S,
    /// Length of one year in simulation seconds.
    pub year_seconds: S,
    /// Planet radius (m).
    pub planet_radius: S,
    /// Nominal peak speed of the zonal-mean belts.
    pub trade_wind_speed: S,
    /// Nominal peak speed of the meridional surface branch of the overturning cells.
    pub meridional_wind_speed: S,
    /// Nominal peak speed of the upper-tropospheric subtropical jet.
    pub jet_wind_speed: S,
    /// Pressure-gradient acceleration per unit temperature gradient.
    pub geostrophic_coeff: S,
    /// Linear surface-friction coefficient.
    pub wind_friction: S,
    /// Relaxation rate pulling the wind toward the belts.
    pub wind_relax: S,
    /// Eddy viscosity.
    pub wind_viscosity: S,
    /// Drag on the wind layers above the lowest.
    pub wind_friction_upper: S,
    /// Rate at which a wind layer is relaxed toward the one below.
    pub vertical_wind_coupling: S,
    /// Extra lateral heat conductance of mid-latitude eddies.
    pub eddy_diffusivity: S,
    /// Number of atmosphere layers stacked above the surface.
    pub n_layers: usize,
    /// Total emissivity of the column.
    pub atm_emissivity_total: S,
    /// Ratio of a layer's emissivity to that of the layer below.
    pub atm_emissivity_decay: S,
    /// Total heat capacity of the column.
    pub atm_heat_capacity_total: S,
    /// Ratio of a layer's heat capacity to that of the layer below.
    pub atm_heat_capacity_decay: S,
    /// Convective exchange of the bottom link.
    pub convection_coeff: S,
    /// Ratio of a link's exchange to that of the link below.
    pub convection_decay: S,
    /// Total convective lapse from the surface to the top layer.
    pub convection_lapse: S,
    /// Whether the air layers are carried by their winds.
    pub atm_advection: bool,
    /// Lateral heat conductance within the atmosphere.
    pub atm_diffusivity: S,
}

/// How many layers a column of `wanted` layers has: at least one.
pub open spec fn layer_count(wanted: usize) -> usize {
    if wanted < 1 {
        1
    } else {
        wanted
    }
}

/// Climate simulation state over a grid. `S` is a scalar, `V` a vector tangent to the sphere, `M` a
/// plate's motion and `D` a time.
pub struct Sim<S, V, M, D> {
    pub climate: Climate<S>,
    /// Accumulated simulation time.
    pub time: D,
    /// Tectonic plates and their motion. Empty until [`Sim::generate_terrain`] runs.
    pub terrain: Terrain<M, V>,
    /// Crust and elevation field, derived from the plates. Empty until [`Sim::generate_terrain`].
    pub crust: Crust,
    /// Surface temperature per cell.
    pub temp: Vec<S>,
    /// Surface heat capacity per cell: that of the ocean below sea level, of land above.
    pub heat_cap: Vec<S>,
    /// Number of atmosphere layers, fixed at construction.
    pub n_layers: usize,
    /// Temperatures of each layer, the lowest first.
    pub atm: Vec<Vec<S>>,
    /// Wind of each layer.
    pub wind_layers: Vec<Vec<V>>,
    /// Gradient of the surface temperature.
    pub grad_s: Vec<V>,
    /// Gradient of each layer's temperature.
    pub grads: Vec<Vec<V>>,
    /// Convective flux from the surface into the lowest layer, per cell.
    pub conv: Vec<S>,
    /// Whether the winds have been seeded.
    pub wind_seeded: bool,
}

/// A field with the same value at every cell.
fn uniform<T: Copy>(n: usize, value: T) -> (field: Vec<T>)
    ensures
        field@ == Seq::new(n as nat, |i: int| value),
{
    let mut field: Vec<T> = Vec::new();
    let mut i: usize = 0;
    while i < n
        invariant
            i <= n,
            field@ == Seq::new(i as nat, |k: int| value),
        decreases n - i,
    {
        field.push(value);
        i = i + 1;
        assert(field@ =~= Seq::new(i as nat, |k: int| value));
    }
    field
}

/// `layers` fields with the same value at every cell.
fn uniform_layers<T: Copy>(layers: usize, n: usize, value: T) -> (fields: Vec<Vec<T>>)
    ensures
        fields@.len() == layers,
        forall|l: int| 0 <= l < layers ==> (#[trigger] fields@[l])@ == Seq::new(n as nat, |i: int| value),
{
    let mut fields: Vec<Vec<T>> = Vec::new();
    let mut l: usize = 0;
    while l < layers
        invariant
            l <= layers,
            fields@.len() == l,
            forall|k: int| 0 <= k < l ==> (#[trigger] fields@[k])@ == Seq::new(n as nat, |i: int| value),
        decreases layers - l,
    {
        fields.push(uniform(n, value));
        l = l + 1;
    }
    fields
}

/// The heat capacities `caps` once the land-sea mask of `elevation` is applied to them: that of the
/// ocean below sea level, of land at or above it; cells without an elevation keep theirs.
pub open spec fn masked<S>(caps: Seq<S>, elevation: Seq<u32>, land: S, ocean: S) -> Seq<S> {
    Seq::new(
        caps.len(),
        |i: int|
            if i < elevation.len() {
                if spec_below(elevation[i], ZERO) {
                    ocean
                } else {
                    land
                }
            } else {
                caps[i]
            },
    )
}

impl<S, V, M, D> Sim<S, V, M, D> {
    /// Every field has a value for each of `n` cells, and the column its layers.
    pub open spec fn wf(&self, n: nat) -> bool {
        &&& 0 < self.n_layers <= MAX_LAYERS
        &&& self.temp@.len() == n
        &&& self.heat_cap@.len() == n
        &&& are_layers(self.atm@, self.n_layers as nat, n)
        &&& are_layers(self.wind_layers@, self.n_layers as nat, n)
        &&& self.grad_s@.len() == n
        &&& are_layers(self.grads@, self.n_layers as nat, n)
        &&& self.conv@.len() == n
    }

    /// The two simulations have the same climate, time and weather: every field that an advance reads
    /// or writes holds the same.
    pub open spec fn same_weather(&self, other: &Self) -> bool {
        &&& self.climate == other.climate
        &&& self.time == other.time
        &&& self.temp@ == other.temp@
        &&& self.heat_cap@ == other.heat_cap@
        &&& self.n_layers == other.n_layers
        &&& same_layers(self.atm@, other.atm@)
        &&& same_layers(self.wind_layers@, other.wind_layers@)
        &&& self.grad_s@ == other.grad_s@
        &&& same_layers(self.grads@, other.grads@)
        &&& self.conv@ == other.conv@
        &&& self.wind_seeded == other.wind_seeded
    }

    /// Nothing but the weather differs from `before`: the climate, the geology, the heat
    /// capacities and the number of layers are the same.
    pub open spec fn same_planet(&self, before: &Self) -> bool {
        &&& self.climate == before.climate
        &&& self.terrain == before.terrain
        &&& self.crust == before.crust
        &&& self.heat_cap == before.heat_cap
        &&& self.n_layers == before.n_layers
    }
}

impl<S: Copy, V: Copy, M: Copy, D> Sim<S, V, M, D> {
    /// Create a simulation of `n` cells with a uniform surface temperature at time `start`, the air
    /// of each layer as cold as `lapse` has it (from the surface temperature, the layer and the
    /// number of layers), no wind, no flux and no geology: the whole surface is land.
    pub fn new<F: Fn(S, usize, usize) -> S>(
        n: usize,
        climate: Climate<S>,
        initial_temp: S,
        start: D,
        still: V,
        no_flux: S,
        lapse: &F,
    ) -> (sim: Self)
        requires
            layer_count(climate.n_layers) <= MAX_LAYERS,
            forall|t: S, l: usize, k: usize| #[trigger] call_requires(*lapse, (t, l, k)),
        ensures
            sim.wf(n as nat),
            sim.climate == climate,
            sim.time == start,
            sim.terrain.plate_id@.len() == 0,
            sim.terrain.plates@.len() == 0,
            sim.terrain.velocity@.len() == 0,
            sim.crust.is_empty(),
            sim.n_layers == layer_count(climate.n_layers),
            sim.temp@ == Seq::new(n as nat, |i: int| initial_temp),
            sim.heat_cap@ == Seq::new(n as nat, |i: int| climate.heat_capacity),
            forall|l: int|
                0 <= l < sim.n_layers ==> #[trigger] is_air_start(
                    *lapse,
                    initial_temp,
                    l as usize,
                    sim.n_layers,
                    n as nat,
                    sim.atm@[l]@,
                ),
            forall|l: int|
                0 <= l < sim.n_layers ==> (#[trigger] sim.wind_layers@[l])@ == Seq::new(
                    n as nat,
                    |i: int| still,
                ),
            sim.grad_s@ == Seq::new(n as nat, |i: int| still),
            forall|l: int|
                0 <= l < sim.n_layers ==> (#[trigger] sim.grads@[l])@ == Seq::new(
                    n as nat,
                    |i: int| still,
                ),
            sim.conv@ == Seq::new(n as nat, |i: int| no_flux),
            !sim.wind_seeded,
    {
        let layers: usize = if climate.n_layers < 1 {
            1
        } else {
            climate.n_layers
        };
        let mut atm: Vec<Vec<S>> = Vec::new();
        let mut l: usize = 0;
        while l < layers
            invariant
                l <= layers,
                forall|t: S, l: usize, k: usize| #[trigger] call_requires(*lapse, (t, l, k)),
                are_layers(atm@, l as nat, n as nat),
                forall|k: int|
                    0 <= k < l ==> #[trigger] is_air_start(
                        *lapse,
                        initial_temp,
                        k as usize,
                        layers,
                        n as nat,
                        atm@[k]@,
                    ),
            decreases layers - l,
        {
            let ghost before = atm@;
            let cold: S = lapse(initial_temp, l, layers);
            let row: Vec<S> = uniform(n, cold);
            assert(is_air_start(*lapse, initial_temp, l, layers, n as nat, row@));
            atm.push(row);
            l = l + 1;
            assert forall|k: int| 0 <= k < l implies #[trigger] is_air_start(
                *lapse,
                initial_temp,
                k as usize,
                layers,
                n as nat,
                atm@[k]@,
            ) by {
                if k < l - 1 {
                    assert(is_air_start(*lapse, initial_temp, k as usize, layers, n as nat, before[k]@));
                }
            }
            assert forall|k: int| 0 <= k < l implies (#[trigger] atm@[k])@.len() == n by {
                if k < l - 1 {
                    assert(before[k]@.len() == n);
                }
            }
        }
        Sim {
            climate,
            time: start,
            terrain: Terrain::empty(),
            crust: Crust::empty(),
            temp: uniform(n, initial_temp),
            heat_cap: uniform(n, climate.heat_capacity),
            n_layers: layers,
            atm,
            wind_layers: uniform_layers(layers, n, still),
            grad_s: uniform(n, still),
            grads: uniform_layers(layers, n, still),
            conv: uniform(n, no_flux),
            wind_seeded: false,
        }
    }

    /// Set each cell's surface heat capacity from its elevation.
    pub(crate) fn recompute_heat_capacity(&mut self)
        ensures
            final(self).heat_cap@ == masked(
                old(self).heat_cap@,
                old(self).crust.elevation@,
                old(self).climate.heat_capacity,
                old(self).climate.heat_capacity_ocean,
            ),
            final(self).climate == old(self).climate,
            final(self).time == old(self).time,
            final(self).terrain == old(self).terrain,
            final(self).crust == old(self).crust,
            final(self).temp == old(self).temp,
            final(self).n_layers == old(self).n_layers,
            final(self).atm == old(self).atm,
            final(self).wind_layers == old(self).wind_layers,
            final(self).grad_s == old(self).grad_s,
            final(self).grads == old(self).grads,
            final(self).conv == old(self).conv,
            final(self).wind_seeded == old(self).wind_seeded,
    {
        let land: S = self.climate.heat_capacity;
        let ocean: S = self.climate.heat_capacity_ocean;
        let mut caps: Vec<S> = Vec::new();
        let ghost want = masked(self.heat_cap@, self.crust.elevation@, land, ocean);
        let mut i: usize = 0;
        while i < self.heat_cap.len()
            invariant
                i <= self.heat_cap@.len(),
                *self == *old(self),
                want == masked(self.heat_cap@, self.crust.elevation@, land, ocean),
                caps@ == want.take(i as int),
            decreases self.heat_cap@.len() - i,
        {
            if i < self.crust.elevation.len() {
                caps.push(if below(self.crust.elevation[i], ZERO) { ocean } else { land });
            } else {
                caps.push(self.heat_cap[i]);
            }
            i = i + 1;
            assert(caps@ =~= want.take(i as int));
        }
        assert(want.take(i as int) =~= want);
        self.heat_cap = caps;
    }

    /// Current per-cell surface temperatures.
    pub fn temperatures(&self) -> (out: &[S])
        ensures
            out@ == self.temp@,
    {
        self.temp.as_slice()
    }

    /// Number of atmosphere layers.
    pub fn n_layers(&self) -> (n: usize)
        ensures
            n == self.n_layers,
    {
        self.n_layers
    }

    /// Current per-cell temperatures of atmosphere `layer`, the lowest being 0.
    pub fn atmosphere_temperatures(&self, layer: usize) -> (out: &[S])
        requires
            layer < self.atm@.len(),
        ensures
            out@ == self.atm@[layer as int]@,
    {
        self.atm[layer].as_slice()
    }

    /// Current per-cell temperatures of the lowest atmosphere layer.
    pub fn lower_atmosphere_temperatures(&self) -> (out: &[S])
        requires
            self.atm@.len() > 0,
        ensures
            out@ == self.atm@[0]@,
    {
        self.atm[0].as_slice()
    }

    /// Current per-cell temperatures of the top atmosphere layer.
    pub fn upper_atmosphere_temperatures(&self) -> (out: &[S])
        requires
            0 < self.n_layers <= self.atm@.len(),
        ensures
            out@ == self.atm@[self.n_layers - 1]@,
    {
        self.atm[self.n_layers - 1].as_slice()
    }

    /// Per-cell surface elevation, as patterns.
    pub fn elevations(&self) -> (out: &[u32])
        ensures
            out@ == self.crust.elevation@,
    {
        self.crust.elevation.as_slice()
    }

    /// Current per-cell wind of atmosphere `layer`.
    pub fn layer_winds(&self, layer: usize) -> (out: &[V])
        requires
            layer < self.wind_layers@.len(),
        ensures
            out@ == self.wind_layers@[layer as int]@,
    {
        self.wind_layers[layer].as_slice()
    }

    /// Current per-cell surface (lowest-layer) wind.
    pub fn winds(&self) -> (out: &[V])
        requires
            self.wind_layers@.len() > 0,
        ensures
            out@ == self.wind_layers@[0]@,
    {
        self.wind_layers[0].as_slice()
    }

    /// Current per-cell top-layer wind.
    pub fn winds_hi(&self) -> (out: &[V])
        requires
            0 < self.n_layers <= self.wind_layers@.len(),
        ensures
            out@ == self.wind_layers@[self.n_layers - 1]@,
    {
        self.wind_layers[self.n_layers - 1].as_slice()
    }

    /// Current per-cell convective heat flux.
    pub fn convection(&self) -> (out: &[S])
        ensures
            out@ == self.conv@,
    {
        self.conv.as_slice()
    }
}

/// `row` is layer `l` of a new column of `layers`: `n` cells, all as cold as `lapse` has it.
pub open spec fn is_air_start<S, F: Fn(S, usize, usize) -> S>(
    lapse: F,
    initial_temp: S,
    l: usize,
    layers: usize,
    n: nat,
    row: Seq<S>,
) -> bool {
    exists|cold: S| #[trigger]
        call_ensures(lapse, (initial_temp, l, layers), cold) && row == Seq::new(n, |i: int| cold)
}

/// Land and sea are told apart by the sign of the elevation alone, and every cell with an elevation
/// gets one of the two capacities.
pub proof fn law_capacity_follows_land_and_sea<S>(
    caps: Seq<S>,
    elevation: Seq<u32>,
    land: S,
    ocean: S,
    i: int,
)
    requires
        0 <= i < caps.len(),
        i < elevation.len(),
    ensures
        masked(caps, elevation, land, ocean).len() == caps.len(),
        masked(caps, elevation, land, ocean)[i] == if is_number(elevation[i]) && value(elevation[i]) < 0 {
            ocean
        } else {
            land
        },
{
    law_comparisons_are_those_of_reals(elevation[i], ZERO);
    assert(value(ZERO) == 0);
}

} // verus!
