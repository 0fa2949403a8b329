//! Whole planets: grids, plates, crust and climate in single precision.
#![allow(dead_code)]

use d3_geo_voronoi_rs::delaunay::Delaunay;
use ecology_simulator::grid::{Fan, Grid as CoreGrid};
use ecology_simulator::grid::voronoi::Tessellation;
use ecology_simulator::order::value_key;
use ecology_simulator::sim::{Climate as CoreClimate, MAX_LAYERS, Sim as CoreSim, wind};
use ecology_simulator::sim::elevation::{Band, Crust, Noise, Shore, Tectonics, WaveDraw};
use ecology_simulator::sim::flood::{Flood, Measure};
use ecology_simulator::sim::geology::{CrustModel, PlateModel};
use ecology_simulator::sim::margin::{BoundaryKind, Effect, Motion};
use ecology_simulator::sim::temperature::{AirFlux, Beam, Physics, SkinFlux};
use ecology_simulator::sim::terrain::{PlateDraw, SizeDraw, SizeModel as CoreSizeModel, Terrain as CoreTerrain, Weighing};
use ecology_simulator::sim::weather::{Arith, MAX_SUBSTEP, Moment, Weather};
use ecology_simulator::sim::wind::{Contrast, Dynamics, Limits, Parcel, ZONAL_BANDS, Zones};
use geo_types::Coord;
use glam::{DVec3, Vec2, Vec3};
use std::marker::PhantomData;

/// A grid of unit vectors, with coordinates in degrees and single-precision areas.
pub type Grid = CoreGrid<Vec3, Vec2, f32>;

/// The golden angle, by which successive points of the lattice are turned in longitude.
pub const GOLDEN_ANGLE: f64 = 2.399_963_229_728_653;

/// Point `i` of a lattice of `n` near-uniformly distributed unit vectors. Floating point.
pub fn fibonacci_point(i: usize, n: usize) -> DVec3 {
    let z = 1.0 - (2.0 * i as f64 + 1.0) / n as f64;
    let r = (1.0 - z * z).max(0.0).sqrt();
    let theta = GOLDEN_ANGLE * i as f64;
    let (s, c) = theta.sin_cos();
    DVec3::new(r * c, r * s, z)
}

/// `n` near-uniformly distributed unit vectors on the sphere.
pub fn fibonacci_sphere(n: usize) -> Vec<DVec3> {
    assert!(n >= 4, "need at least 4 points to tessellate a sphere");
    (0..n).map(|i| fibonacci_point(i, n)).collect()
}

/// A unit vector as (longitude, latitude) in degrees. Floating point.
pub fn to_lonlat_deg(p: DVec3) -> Coord<f64> {
    let lat = p.z.clamp(-1.0, 1.0).asin().to_degrees();
    let lon = p.y.atan2(p.x).to_degrees();
    Coord { x: lon, y: lat }
}

/// Inverse of [`to_lonlat_deg`]. Floating point.
pub fn from_lonlat_deg(c: Coord<f64>) -> DVec3 {
    let lon = c.x.to_radians();
    let lat = c.y.to_radians();
    let (sin_lat, cos_lat) = lat.sin_cos();
    let (sin_lon, cos_lon) = lon.sin_cos();
    DVec3::new(cos_lat * cos_lon, cos_lat * sin_lon, sin_lat)
}

/// Tessellate the sphere over `points` (assumed unit vectors). The triangulation itself is floating
/// point; what comes out of it is gathered by the library.
pub fn tessellate(points: &[DVec3]) -> Tessellation<DVec3> {
    let coords: Vec<Coord<f64>> = points.iter().copied().map(to_lonlat_deg).collect();
    let delaunay = Delaunay::<f64>::try_from(&coords)
        .expect("Delaunay triangulation failed (need >= 4 non-degenerate points)");
    let centers: Vec<DVec3> =
        delaunay.centers.iter().map(|c| from_lonlat_deg(*c).normalize()).collect();
    let triangles: Vec<[usize; 3]> = delaunay.triangles.iter().copied().collect();
    let adjacency: Vec<(usize, Vec<usize>)> =
        delaunay.neighbors.iter().map(|(&cell, adj)| (cell, adj.clone())).collect();
    Tessellation::assemble(points.len(), centers, triangles, adjacency)
}

/// Great-circle angle between two unit vectors (robust near 0 and pi). Floating point.
pub fn arc(a: Vec3, b: Vec3) -> f32 {
    a.cross(b).length().atan2(a.dot(b))
}

/// Signed area of the spherical triangle (a, b, c). Floating point.
pub fn spherical_triangle_area(a: Vec3, b: Vec3, c: Vec3) -> f32 {
    let triple = a.dot(b.cross(c));
    let den = 1.0 + a.dot(b) + b.dot(c) + c.dot(a);
    2.0 * triple.atan2(den)
}

/// Azimuth of `p` around the normal `nrm`, from an arbitrary but fixed direction. Floating point.
pub fn azimuth(nrm: Vec3, p: Vec3) -> f32 {
    let seed = if nrm.x.abs() < 0.9 { Vec3::X } else { Vec3::Y };
    let u = seed.cross(nrm).normalize();
    let v = nrm.cross(u);
    p.dot(v).atan2(p.dot(u))
}

/// Center-to-center distance of two neighboring cells, in radians. Floating point.
pub fn neighbor_dist(a: Vec3, b: Vec3) -> f32 {
    arc(a, b).max(1e-6)
}

/// Build a grid of `n` near-uniform cells.
pub fn build_grid(n: usize) -> Grid {
    let points = fibonacci_sphere(n);
    let raw = tessellate(&points);
    assert!(raw.triangles.len() <= raw.centers.len(), "a triangle has no circumcenter");
    assert!(raw.triangles.iter().flatten().all(|&p| p < n), "triangle corner out of range");
    assert!(raw.neighbors.iter().flatten().all(|&p| p < n), "neighbor out of range");
    let edges: usize = raw.neighbors.iter().map(|adj| adj.len()).sum();
    assert!(n <= u32::MAX as usize && edges <= u32::MAX as usize, "grid too large");
    assert!(raw.triangles.len() <= u32::MAX as usize / 3, "grid too large");

    let centers: Vec<Vec3> = points.iter().map(|p| p.as_vec3().normalize()).collect();
    let lonlat_deg: Vec<Vec2> = points
        .iter()
        .map(|p| {
            let c = to_lonlat_deg(*p);
            Vec2::new(c.x as f32, c.y as f32)
        })
        .collect();
    let tess = Tessellation {
        centers: raw.centers.iter().map(|v| v.as_vec3().normalize()).collect(),
        triangles: raw.triangles,
        neighbors: raw.neighbors,
    };
    let normals = centers.clone();
    let around = |cell: usize, p: Vec3| value_key(azimuth(normals[cell], p).to_bits());
    let fan = Fan {
        zero: 0.0f32,
        sector: |sum: f32, c: Vec3, a: Vec3, b: Vec3| sum + spherical_triangle_area(c, a, b),
        whole: |sum: f32| sum.abs(),
    };
    let weight = |i: usize, j: usize, edge: Option<(Vec3, Vec3)>| {
        let dist = neighbor_dist(normals[i], normals[j]);
        match edge {
            Some((a, b)) => arc(a, b) / dist,
            None => 1.0 / dist,
        }
    };
    Grid::new(centers, lonlat_deg, &tess, &around, &fan, &weight)
}

/// How plate growth weights are drawn.
pub type SizeModel = CoreSizeModel<f32>;

/// Plates with their motions and surface velocities.
pub type Terrain = CoreTerrain<Plate, Vec3>;

/// Base plate angular speed (rad/s).
const BASE_RATE: f32 = 1.0;
/// Upper clamp on a plate's growth weight.
const MAX_WEIGHT: f32 = 1.0e4;
/// Lognormal sigma of the default model, fitted to the catalogue of Earth's plates.
const DEFAULT_SIGMA: f32 = 1.56;

/// One rigid plate: a rotation of the sphere about `axis` at signed angular speed `rate`.
#[derive(Clone, Copy, Debug)]
pub struct Plate {
    /// Euler pole: unit axis the plate rotates about.
    pub axis: Vec3,
    /// Signed angular speed about `axis` (rad/s).
    pub rate: f32,
}

impl Plate {
    /// Surface velocity this plate imparts at unit position `p`. Floating point.
    pub fn velocity_at(&self, p: Vec3) -> Vec3 {
        (self.axis * self.rate).cross(p)
    }
}

/// A draw out of 2^24 as a number in [0, 1). Floating point.
pub fn unit(draw: u32) -> f32 {
    draw as f32 / (1u64 << 24) as f32
}

/// The unit vector of two uniform draws. Floating point.
pub fn unit_vec(z: u32, theta: u32) -> Vec3 {
    let z = unit(z) * 2.0 - 1.0;
    let theta = unit(theta) * std::f32::consts::TAU;
    let r = (1.0 - z * z).max(0.0).sqrt();
    Vec3::new(r * theta.cos(), r * theta.sin(), z)
}

/// The growth weight of a draw. Floating point.
pub fn growth_weight(draw: SizeDraw<f32>) -> f32 {
    match draw {
        SizeDraw::Pareto { exponent, u } => {
            unit(u).max(1e-6).powf(-1.0 / exponent.max(0.1)).min(MAX_WEIGHT)
        }
        SizeDraw::Lognormal { sigma, u1, u2 } => {
            let z = (-2.0 * unit(u1).max(1e-6).ln()).sqrt() * (std::f32::consts::TAU * unit(u2)).cos();
            (sigma * z).exp().min(MAX_WEIGHT)
        }
    }
}

/// The motion of a draw. Floating point.
pub fn plate_motion(draw: PlateDraw) -> Plate {
    let mag = 0.3 + 0.7 * unit(draw.magnitude);
    let sign = if draw.forward { 1.0 } else { -1.0 };
    Plate { axis: unit_vec(draw.z, draw.theta), rate: BASE_RATE * mag * sign }
}

/// The formulas that make plates of some size model. Floating point.
pub fn plate_model(
    sizes: SizeModel,
) -> PlateModel<
    f32,
    f32,
    impl Fn(SizeDraw<f32>) -> f32,
    impl Fn(f32, f32) -> f32,
    impl Fn(f32, f32) -> f32,
    impl Fn(u32, f32) -> f32,
    impl Fn(f32) -> bool,
    impl Fn(PlateDraw) -> Plate,
    impl Fn(Plate, Vec3) -> Vec3,
> {
    PlateModel {
        sizes,
        weigh: growth_weight,
        by: Weighing {
            zero: 0.0f32,
            plus: |a: f32, b: f32| a + b,
            minus: |a: f32, b: f32| a - b,
            share: |u: u32, total: f32| unit(u) * total,
            positive: |x: f32| !(x <= 0.0),
        },
        motion: plate_motion,
        velocity_at: |plate: Plate, p: Vec3| plate.velocity_at(p),
    }
}

/// Partition `grid` into plates with an explicit size model.
pub fn generate_plates_with(grid: &Grid, num_plates: usize, seed: u64, model: SizeModel) -> Terrain {
    assert!(grid.n > 0, "a grid without cells has no plates");
    let with = plate_model(model);
    Terrain::generate_with(
        grid,
        num_plates,
        seed,
        with.sizes,
        &with.weigh,
        &with.by,
        &with.motion,
        &with.velocity_at,
    )
}

/// The size model tuned to Earth's plates.
pub const DEFAULT_SIZE_MODEL: SizeModel = SizeModel::Lognormal(DEFAULT_SIGMA);

/// Partition `grid` into plates with the size model tuned to Earth's.
pub fn generate_plates(grid: &Grid, num_plates: usize, seed: u64) -> Terrain {
    generate_plates_with(grid, num_plates, seed, DEFAULT_SIZE_MODEL)
}

/// Upper-mantle density the crust floats on (kg/m3).
pub const RHO_MANTLE: f32 = 3300.0;
/// Continental crust density.
const RHO_CONT: f32 = 2800.0;
/// Oceanic crust density.
const RHO_OCEAN: f32 = 2900.0;
/// Sea-water density.
const RHO_WATER: f32 = 1030.0;
/// Mean Earth radius (m).
const EARTH_RADIUS_M: f32 = 6.371e6;
/// Oceanic crust thickness (km).
const T_OCEAN_KM: f32 = 7.0;
/// Floor on crust thickness (km) before tectonics.
const MIN_THICKNESS_KM: f32 = 4.0;
/// Standard deviation (km) of the intra-continental thickness noise.
const CONT_RELIEF_KM: f32 = 3.5;
/// Width of the smooth transition between land and ocean crust.
const MARGIN_WIDTH: f32 = 0.6;
/// Maximum crustal thickening (km) at a full-rate convergent margin.
const OROG_THICKEN_KM: f32 = 38.0;
/// Maximum crustal thinning (km) at a full-rate continental rift.
const RIFT_THIN_KM: f32 = 14.0;
/// Mid-ocean-ridge crest height (m) above the abyssal plain.
const RIDGE_AMP_M: f32 = 3000.0;
/// Extra depth (m) of a subduction trench at the boundary.
const TRENCH_DEPTH_M: f32 = 4500.0;

/// Mean Earth radius (km): divides a distance on the ground into radians.
const EARTH_RADIUS_KM: f32 = EARTH_RADIUS_M / 1000.0;
/// Orogenic belt half-width (radians).
const L_OROG: f32 = 150.0 / EARTH_RADIUS_KM;
/// Ridge flank length.
const L_RIDGE: f32 = 1500.0 / EARTH_RADIUS_KM;
/// Trench falloff.
const L_TRENCH: f32 = 150.0 / EARTH_RADIUS_KM;
/// Continental-rift shoulder width.
const L_RIFT: f32 = 250.0 / EARTH_RADIUS_KM;

/// Earth's ocean volume normalised into the unit-sphere `depth * area` measure.
pub const EARTH_WATER_VOLUME: f32 = 1.335e18 / (EARTH_RADIUS_M * EARTH_RADIUS_M);

/// Tunable generation parameters.
#[derive(Clone, Copy, Debug)]
pub struct Params {
    /// Ocean water budget in unit-sphere measure (metres times steradian).
    pub water_volume: f32,
    /// Target fraction of surface area underlain by continental crust.
    pub continental_area: f32,
    /// Mean continental crust thickness (km) before tectonics.
    pub mean_cont_thickness_km: f32,
}

impl Default for Params {
    fn default() -> Self {
        Self {
            water_volume: EARTH_WATER_VOLUME,
            continental_area: 0.40,
            mean_cont_thickness_km: 37.0,
        }
    }
}

/// Coherent scalar noise on the unit sphere: a sum of plane-wave sinusoids over several octaves.
pub struct SphereNoise {
    waves: Vec<Wave>,
    norm: f32,
}

struct Wave {
    dir: Vec3,
    freq: f32,
    phase: f32,
    amp: f32,
}

impl SphereNoise {
    /// The field of the drawn waves. Floating point.
    pub fn tuned(band: Band, draws: &[WaveDraw]) -> Self {
        let (base_freq, lacunarity, persistence) = match band {
            Band::Craton => (1.7f32, 2.0f32, 0.55f32),
            Band::Relief => (5.0, 2.0, 0.5),
        };
        let mut power = 0.0f32;
        let waves = draws
            .iter()
            .map(|d| {
                let freq = base_freq * lacunarity.powi(d.octave as i32);
                let amp = persistence.powi(d.octave as i32);
                power += 0.5 * amp * amp;
                Wave {
                    dir: unit_vec(d.z, d.theta),
                    freq,
                    phase: unit(d.phase) * std::f32::consts::TAU,
                    amp,
                }
            })
            .collect();
        Self { waves, norm: 1.0 / power.sqrt().max(1e-6) }
    }

    /// Sample the field at unit position `p`. Floating point.
    pub fn sample(&self, p: Vec3) -> f32 {
        let mut s = 0.0f32;
        for w in &self.waves {
            s += w.amp * (w.freq * w.dir.dot(p) + w.phase).sin();
        }
        s * self.norm
    }
}

/// Hermite smoothstep from 0 (at `edge0`) to 1 (at `edge1`). Floating point.
pub fn smoothstep(edge0: f32, edge1: f32, x: f32) -> f32 {
    let t = ((x - edge0) / (edge1 - edge0).max(1e-6)).clamp(0.0, 1.0);
    t * t * (3.0 - 2.0 * t)
}

/// Relative motion across a margin, from two positions and two velocities. Floating point.
pub fn margin_motion(pi: Vec3, pj: Vec3, vi: Vec3, vj: Vec3) -> Option<Motion> {
    let d = pj - pi;
    let nrm = (d - pi * d.dot(pi)).normalize_or_zero();
    if nrm == Vec3::ZERO {
        return None;
    }
    let dv = vi - vj;
    let closing = dv.dot(nrm);
    let shear = (dv - nrm * closing).length();
    Some(Motion { closing: closing.to_bits(), shear: shear.to_bits() })
}

/// What an effect makes of a thickness or a height. Floating point.
pub fn apply_effect(effect: Effect, x: f32, dist: f32, intensity: f32) -> f32 {
    match effect {
        Effect::Orogeny => x + OROG_THICKEN_KM * intensity * (-dist / L_OROG).exp(),
        Effect::Rift => x - RIFT_THIN_KM * intensity * (-dist / L_RIFT).exp(),
        Effect::Ridge => {
            let age = (dist / L_RIDGE).clamp(0.0, 1.0);
            x + RIDGE_AMP_M * intensity * (1.0 - age.sqrt())
        }
        Effect::Trench => x - TRENCH_DEPTH_M * intensity * (-dist / L_TRENCH).exp(),
    }
}

/// The real of a pattern.
fn unpack(pattern: u32) -> f32 {
    f32::from_bits(pattern)
}

/// The formulas that make the crust of `grid`. Floating point.
pub fn crust_model<'a>(
    grid: &'a Grid,
    params: Params,
) -> CrustModel<
    'a,
    f32,
    f64,
    impl Fn(Band, Vec<WaveDraw>) -> SphereNoise,
    impl Fn(&SphereNoise, Vec3) -> u32,
    impl Fn(u32, u32) -> u32,
    impl Fn(u32, u32) -> (u32, u32),
    impl Fn(Vec3, Vec3, Vec3, Vec3) -> Option<Motion>,
    impl Fn(u32, Vec3, Vec3) -> u32,
    impl Fn(Effect, u32, u32, u32) -> u32,
    impl Fn(u32, u32) -> u32,
    impl Fn(u32, u32) -> u32,
    impl Fn(f64, f64) -> u32,
    impl Fn(f64, f32) -> f64,
    impl Fn(f64) -> f64,
    impl Fn(f64, f64) -> bool,
    impl Fn(u32, u32) -> u32,
    impl Fn(f64, u32, u32, f32) -> f64,
    impl Fn(f64) -> bool,
    impl Fn(u32, u32) -> bool,
    impl Fn(u32, u32) -> u32,
    impl Fn(u32, u32) -> u32,
> {
    let frac = params.continental_area;
    let k = RHO_WATER / RHO_MANTLE;
    let target = params.water_volume as f64;
    CrustModel {
        noise: Noise {
            tune: |band: Band, waves: Vec<WaveDraw>| SphereNoise::tuned(band, &waves),
            sample: |field: &SphereNoise, p: Vec3| field.sample(p).to_bits(),
            fraction: |tau: u32, raw: u32| {
                smoothstep(unpack(tau) - MARGIN_WIDTH, unpack(tau) + MARGIN_WIDTH, unpack(raw)).to_bits()
            },
            crust: move |phi: u32, relief: u32| {
                let phi = unpack(phi);
                let base = T_OCEAN_KM + phi * (params.mean_cont_thickness_km - T_OCEAN_KM);
                let bump = phi * CONT_RELIEF_KM * unpack(relief);
                let thickness = (base + bump).max(MIN_THICKNESS_KM);
                let density = RHO_OCEAN + phi * (RHO_CONT - RHO_OCEAN);
                (thickness.to_bits(), density.to_bits())
            },
        },
        tectonics: Tectonics {
            motion: margin_motion,
            extend: |d: u32, p: Vec3, q: Vec3| (unpack(d) + arc(p, q)).to_bits(),
            apply: |effect: Effect, x: u32, dist: u32, intensity: u32| {
                apply_effect(effect, unpack(x), unpack(dist), unpack(intensity)).to_bits()
            },
            column: |t: u32, d: u32| (unpack(t) * 1000.0 * (1.0 - unpack(d) / RHO_MANTLE)).to_bits(),
        },
        shore: Shore {
            rise: |r: u32, s: u32| (unpack(r) - unpack(s)).to_bits(),
            portion: |land: f64, whole: f64| ((land / whole) as f32).to_bits(),
        },
        measure: Measure {
            areas: &grid.areas,
            zero: 0.0f64,
            plus: |t: f64, a: f32| t + a as f64,
            goal: move |all: f64| (1.0 - frac.clamp(0.0, 1.0) as f64) * all,
            met: |acc: f64, target: f64| acc >= target,
        },
        flood: Flood {
            areas: &grid.areas,
            zero: 0.0f64,
            loaded: move |e: u32, s: u32| ((unpack(e) - k * unpack(s)) / (1.0 - k)).to_bits(),
            pour: |v: f64, s: u32, r: u32, a: f32| v + (unpack(s) - unpack(r)) as f64 * a as f64,
            short: move |v: f64| v < target,
            open: |lo: u32, hi: u32| unpack(hi) < unpack(lo) + 1.0e6,
            raise: |lo: u32, hi: u32| (unpack(hi) + (unpack(hi) - unpack(lo)).max(1000.0)).to_bits(),
            middle: |lo: u32, hi: u32| (0.5 * (unpack(lo) + unpack(hi))).to_bits(),
        },
    }
}

/// Generate the elevation field over `grid` from its plates, with explicit parameters.
pub fn generate_crust_with(grid: &Grid, terrain: &Terrain, seed: u64, params: Params) -> Crust {
    assert!(terrain.plate_id.len() >= grid.n, "the plates belong to a smaller grid");
    assert!(terrain.velocity.len() >= grid.n, "the plates belong to a smaller grid");
    let by = crust_model(grid, params);
    Crust::generate_with(
        grid,
        terrain,
        seed,
        &by.noise,
        &by.tectonics,
        &by.shore,
        &by.measure,
        &by.flood,
    )
}

/// Generate the elevation field with the Earth-anchored defaults.
pub fn generate_crust(grid: &Grid, terrain: &Terrain, seed: u64) -> Crust {
    generate_crust_with(grid, terrain, seed, Params::default())
}

/// Climate parameters in single precision.
pub type Climate = CoreClimate<f32>;

/// Reference equator-to-pole temperature contrast (K) at which the belts blow at nominal speed.
pub const REFERENCE_GRADIENT: f32 = 50.0;
/// Latitude of the subtropical jet maximum (radians).
const JET_LAT: f32 = std::f32::consts::FRAC_PI_6;
/// Gaussian half-width (radians) of the subtropical jet.
const JET_WIDTH: f32 = 0.35;

/// Orthonormal surface frame at a cell normal `n`: (east, north). Floating point.
pub fn east_north(n: Vec3) -> (Vec3, Vec3) {
    let north = (Vec3::Z - n * n.z).normalize_or_zero();
    let north = if north.length_squared() > 0.5 {
        north
    } else {
        // At a pole, pick any tangent direction.
        Vec3::X.cross(n).normalize_or_zero()
    };
    let east = north.cross(n).normalize_or_zero();
    (east, north)
}

/// Normal equations of a gradient fit: the matrix `[a b; b c]` and the right-hand side.
#[derive(Clone, Copy, Debug, Default)]
pub struct Fit {
    /// East and north at the cell, once there is a neighbor.
    frame: Option<(Vec3, Vec3)>,
    a: f32,
    b: f32,
    c: f32,
    rx: f32,
    ry: f32,
}

/// The fit with one neighbor more. Floating point.
pub fn fit_neighbor(fit: Fit, n: Vec3, pj: Vec3, ti: f32, tj: f32, radius: f32) -> Fit {
    let dir = (pj - n * pj.dot(n)).normalize_or_zero();
    if dir.length_squared() < 0.5 {
        return fit;
    }
    let (east, north) = fit.frame.unwrap_or_else(|| east_north(n));
    let d = dir * (neighbor_dist(n, pj) * radius);
    let (dx, dy) = (d.dot(east), d.dot(north));
    let dt = tj - ti;
    Fit {
        frame: Some((east, north)),
        a: fit.a + dx * dx,
        b: fit.b + dx * dy,
        c: fit.c + dy * dy,
        rx: fit.rx + dx * dt,
        ry: fit.ry + dy * dt,
    }
}

/// The gradient of a fit at normal `n`, zero where there are too few neighbors. Floating point.
pub fn solve_fit(n: Vec3, fit: Fit) -> Vec3 {
    let det = fit.a * fit.c - fit.b * fit.b;
    if det.abs() < 1e-12 {
        return Vec3::ZERO;
    }
    let (east, north) = fit.frame.unwrap_or_else(|| east_north(n));
    let gx = (fit.c * fit.rx - fit.b * fit.ry) / det;
    let gy = (fit.a * fit.ry - fit.b * fit.rx) / det;
    east * gx + north * gy
}

/// A height given as a fraction. Floating point.
pub fn height(h: (usize, usize)) -> f32 {
    h.0 as f32 / h.1 as f32
}

/// The zonal-mean belt target for a wind layer at normalized height `h`. Floating point.
pub fn belt_for_layer(h: f32, n: Vec3, east: Vec3, north: Vec3, climate: &Climate, gradient: f32) -> Vec3 {
    let lat = n.z.clamp(-1.0, 1.0).asin();
    let shape = (6.0 * lat.abs()).sin();
    let zonal_surface = -climate.trade_wind_speed * shape;
    let d = (lat.abs() - JET_LAT) / JET_WIDTH;
    let zonal_jet = climate.jet_wind_speed * (-d * d).exp();
    let zonal = zonal_surface * (1.0 - h) + zonal_jet * h;
    let poleward = climate.meridional_wind_speed * shape * lat.signum() * (2.0 * h - 1.0);
    (east * zonal + north * poleward) * gradient
}

/// The wind perturbation of a steady balance of pressure gradient, Coriolis force and friction.
/// Floating point.
pub fn geostrophic_wind(n: Vec3, grad_t: Vec3, climate: &Climate) -> Vec3 {
    let lat = n.z.clamp(-1.0, 1.0).asin();
    let omega = std::f32::consts::TAU / climate.day_seconds;
    let f = 2.0 * omega * lat.sin();
    let r = climate.wind_friction;
    let denom = r * r + f * f;
    if denom < 1e-20 {
        return Vec3::ZERO;
    }
    let accel = grad_t * climate.geostrophic_coeff;
    (accel * r - n.cross(accel) * f) / denom
}

/// The instantaneous balance wind at one cell. Floating point.
pub fn calm_wind(climate: &Climate, gradient: f32, h: (usize, usize), n: Vec3, grad_t: Vec3) -> Vec3 {
    let (east, north) = east_north(n);
    let v = belt_for_layer(height(h), n, east, north, climate, gradient) + geostrophic_wind(n, grad_t, climate);
    v - n * v.dot(n)
}

/// Where the latitude of a cell normal falls, counted in bands from the south pole. Floating point.
pub fn band_position(n: Vec3) -> usize {
    let lat = n.z.clamp(-1.0, 1.0).asin();
    let t = (lat / std::f32::consts::PI + 0.5).clamp(0.0, 1.0);
    (t * ZONAL_BANDS as f32) as usize
}

/// East and north components, summed or averaged over a latitude band.
#[derive(Clone, Copy, Debug, Default)]
pub struct Zonal {
    wind_e: f32,
    wind_n: f32,
    press_e: f32,
    press_n: f32,
    area: f32,
}

/// A band's sums with one cell more. Floating point.
pub fn join_band(z: Zonal, n: Vec3, u: Vec3, grad_t: Vec3, a: f32, k: f32) -> Zonal {
    let (east, north) = east_north(n);
    let press = grad_t * k;
    Zonal {
        wind_e: z.wind_e + u.dot(east) * a,
        wind_n: z.wind_n + u.dot(north) * a,
        press_e: z.press_e + press.dot(east) * a,
        press_n: z.press_n + press.dot(north) * a,
        area: z.area + a,
    }
}

/// The means of a band's sums. Floating point.
pub fn band_mean(z: Zonal) -> Zonal {
    if z.area > 0.0 {
        let inv = 1.0 / z.area;
        Zonal {
            wind_e: z.wind_e * inv,
            wind_n: z.wind_n * inv,
            press_e: z.press_e * inv,
            press_n: z.press_n * inv,
            area: z.area,
        }
    } else {
        z
    }
}

/// Momentum carried over a cell's edges, and the velocity Laplacian.
#[derive(Clone, Copy, Debug)]
pub struct Flow {
    adv: Vec3,
    lap: Vec3,
}

/// Nothing carried.
pub const STILL_FLOW: Flow = Flow { adv: Vec3::ZERO, lap: Vec3::ZERO };

/// The flow with one neighbor more: upwinded edge fluxes and viscosity. Floating point.
pub fn carry_neighbor(flow: Flow, n: Vec3, cj: Vec3, ui: Vec3, uj: Vec3, w: f32) -> Flow {
    let mut next = flow;
    next.lap += w * (uj - ui);
    let dir = (cj - n * cj.dot(n)).normalize_or_zero();
    if dir.length_squared() > 0.5 {
        let edge_arc = w * neighbor_dist(n, cj);
        let vel = 0.5 * (ui + uj).dot(dir);
        let u_up = if vel >= 0.0 { ui } else { uj };
        next.adv += edge_arc * vel * u_up;
    }
    next
}

/// The wind of a cell that the forces make over a step. Floating point.
pub fn push_wind(climate: &Climate, gradient: f32, dt: f32, c: Parcel<Vec3, f32, Vec3, Zonal, Flow>) -> Vec3 {
    let n = c.position;
    let ui = c.wind;
    let (east, north) = east_north(n);
    let belt = belt_for_layer(height(c.height), n, east, north, climate, gradient);
    let friction = if c.surface { climate.wind_friction } else { climate.wind_friction_upper };
    let omega = std::f32::consts::TAU / climate.day_seconds;
    let adv = c.flow.adv / (c.area * climate.planet_radius);
    let coriolis = n.cross(ui) * (2.0 * omega * n.z);
    let pressure =
        c.grad * climate.geostrophic_coeff - (c.mean.press_e * east + c.mean.press_n * north);
    let zonal_correction = ((belt.dot(east) - c.mean.wind_e) * east
        + (belt.dot(north) - c.mean.wind_n) * north)
        * climate.wind_relax;
    let drag = -ui * friction;
    let vertical = match c.below {
        Some(other) => (other - ui) * climate.vertical_wind_coupling,
        None => Vec3::ZERO,
    };
    let accel = -adv - coriolis
        + pressure
        + zonal_correction
        + drag
        + c.flow.lap * climate.wind_viscosity
        + vertical;
    ui + accel * dt
}

/// Keeping a wind tangent to the sphere and within a speed. Floating point.
pub fn wind_limits() -> Limits<fn(Vec3, Vec3) -> Vec3, fn(Vec3) -> u32, fn(Vec3, u32, u32) -> Vec3> {
    Limits {
        flatten: |n, u| u - n * u.dot(n),
        speed: |u| u.length().to_bits(),
        slow: |u, from, to| u * (f32::from_bits(to) / f32::from_bits(from)),
    }
}

/// The simulation in single precision, with double-precision time.
pub type Sim = CoreSim<f32, Vec3, Plate, f64>;

/// Stefan-Boltzmann constant (W m-2 K-4).
pub const STEFAN_BOLTZMANN: f32 = 5.670_374_4e-8;
/// Lowest temperature a cell is allowed to reach (K).
pub const TEMP_FLOOR: f32 = 2.7;
/// Latitude (radians) of the storm-track peak.
const STORM_TRACK_LAT: f32 = 0.873;
/// Gaussian half-width (radians) of the storm-track band.
const STORM_TRACK_WIDTH: f32 = 0.52;

/// Roughly Earth-like parameters.
pub fn default_climate() -> Climate {
    Climate {
        solar_constant: 1361.0,
        albedo: 0.3,
        emissivity: 1.0,
        heat_capacity: 4.0e5,
        heat_capacity_ocean: 2.9e8,
        diffusivity: 25.0,
        obliquity: 23.44_f32.to_radians(),
        day_seconds: 86_400.0,
        year_seconds: 86_400.0 * 365.25,
        planet_radius: 6.371e6,
        trade_wind_speed: 9.0,
        meridional_wind_speed: 3.0,
        jet_wind_speed: 30.0,
        geostrophic_coeff: 60.0,
        wind_friction: 8.0e-6,
        wind_relax: 3.0e-5,
        wind_viscosity: 2.0e-4,
        wind_friction_upper: 8.0e-6,
        vertical_wind_coupling: 1.5e-5,
        eddy_diffusivity: 150.0,
        n_layers: 3,
        atm_emissivity_total: 1.22,
        atm_emissivity_decay: 0.694,
        atm_heat_capacity_total: 1.0e7,
        atm_heat_capacity_decay: 0.667,
        convection_coeff: 35.0,
        convection_decay: 0.1,
        convection_lapse: 66.0,
        atm_diffusivity: 15.0,
        atm_advection: true,
    }
}

/// A simulation of `n` cells at a uniform starting temperature.
pub fn new_sim(n: usize, climate: Climate, initial_temp: f32) -> Sim {
    let layers = climate.n_layers.max(1);
    assert!(layers <= MAX_LAYERS, "n_layers {layers} exceeds MAX_LAYERS {MAX_LAYERS}");
    let lapse = |t: f32, l: usize, k: usize| t - (l as f32 + 1.0) * (climate.convection_lapse / k as f32);
    Sim::new(n, climate, initial_temp, 0.0, Vec3::ZERO, 0.0, &lapse)
}

/// Generate the plates and the elevation field of a simulation.
pub fn generate_terrain(sim: &mut Sim, grid: &Grid, num_plates: usize, seed: u64) {
    assert!(grid.n > 0, "a grid without cells has no plates");
    let plates = plate_model(DEFAULT_SIZE_MODEL);
    let crust = crust_model(grid, Params::default());
    sim.generate_terrain(grid, num_plates, seed, &plates, &crust);
}

/// Unit direction toward the sun in the planet's frame at the given time. Floating point.
pub fn sun_direction(c: &Climate, time: f64) -> Vec3 {
    let lon = -std::f32::consts::TAU * (time / c.day_seconds as f64) as f32;
    let decl = c.obliquity * (std::f32::consts::TAU * (time / c.year_seconds as f64) as f32).sin();
    let (s_decl, c_decl) = decl.sin_cos();
    let (s_lon, c_lon) = lon.sin_cos();
    Vec3::new(c_decl * c_lon, c_decl * s_lon, s_decl)
}

/// Mid-to-high-latitude eddy-transport profile. Floating point.
fn storm_track(sin_lat: f32) -> f32 {
    let lat = sin_lat.clamp(-1.0, 1.0).asin();
    let d = (lat.abs() - STORM_TRACK_LAT) / STORM_TRACK_WIDTH;
    (-d * d).exp()
}

/// Per-cell lateral conductance. Floating point.
fn conductance(climate: &Climate, gradient: f32, sin_lat: f32) -> f32 {
    climate.diffusivity + climate.eddy_diffusivity * gradient * storm_track(sin_lat)
}

/// The arithmetic of column profiles.
pub fn profile_arith() -> Arith<f32, fn(f32, f32) -> f32, fn(f32, f32) -> f32, fn(f32, f32) -> f32> {
    Arith {
        zero: 0.0,
        one: 1.0,
        plus: |a, b| a + b,
        times: |a, b| a * b,
        scale: |total, sum| if sum > 0.0 { total / sum } else { 0.0 },
    }
}

/// The climate gradient's arithmetic: sums of temperature times area, and of area.
pub fn belt_contrast() -> Contrast<
    f32,
    (f64, f64),
    fn(Vec2) -> u32,
    fn((f64, f64), f32, f32) -> (f64, f64),
    fn((f64, f64)) -> bool,
    fn((f64, f64), (f64, f64)) -> f32,
> {
    Contrast {
        zero: (0.0, 0.0),
        one: 1.0,
        latitude: |lonlat| lonlat.y.abs().to_bits(),
        gather: |sum, t, a| (sum.0 + t as f64 * a as f64, sum.1 + a as f64),
        void: |sum| sum.1 <= 0.0,
        ratio: |eq, pole| {
            let contrast = (eq.0 / eq.1 - pole.0 / pole.1) as f32;
            (contrast / REFERENCE_GRADIENT).clamp(0.0, 2.0)
        },
    }
}

/// What the formulas of a step depend on.
type Now = Moment<f32, f64>;

/// Advance the simulation by `sim_seconds`.
pub fn advance(sim: &mut Sim, grid: &Grid, sim_seconds: f32) {
    let layers = sim.n_layers;
    let flat = |len: usize| len == grid.n;
    let fits = 0 < layers
        && layers <= MAX_LAYERS
        && [sim.temp.len(), sim.heat_cap.len(), sim.grad_s.len(), sim.conv.len()].into_iter().all(flat)
        && [sim.atm.len(), sim.wind_layers.len(), sim.grads.len()].into_iter().all(|len| len == layers)
        && sim.atm.iter().map(Vec::len).all(flat)
        && sim.wind_layers.iter().map(Vec::len).all(flat)
        && sim.grads.iter().map(Vec::len).all(flat);
    assert!(fits, "the simulation belongs to another grid");
    let weather = Weather {
        grid,
        of: PhantomData,
        arith: profile_arith(),
        clear: |e: f32| 1.0 - e,
        contrast: belt_contrast(),
        unfit: Fit::default(),
        fit: |at: Now, fit: Fit, n: Vec3, pj: Vec3, ti: f32, tj: f32| {
            fit_neighbor(fit, n, pj, ti, tj, at.climate.planet_radius)
        },
        solve: solve_fit,
        calm: |at: Now, h: (usize, usize), n: Vec3, g: Vec3| calm_wind(&at.climate, at.gradient, h, n, g),
        dynamics: Dynamics {
            zones: Zones {
                zero: Zonal::default(),
                band: band_position,
                join: |at: Now, z: Zonal, n: Vec3, u: Vec3, g: Vec3, a: f32| {
                    join_band(z, n, u, g, a, at.climate.geostrophic_coeff)
                },
                mean: band_mean,
            },
            still: STILL_FLOW,
            carry: carry_neighbor,
            push: |at: Now, c: Parcel<Vec3, f32, Vec3, Zonal, Flow>| {
                push_wind(&at.climate, at.gradient, f32::from_bits(at.dt), c)
            },
            limits: wind_limits(),
        },
        quiet: (0.0f64, 0.0f64),
        tally: |sum: (f64, f64), u: Vec3, g: Vec3, a: f32| {
            (sum.0 + (-u.dot(g)) as f64 * a as f64, sum.1 + a as f64)
        },
        mean_drift: |sum: (f64, f64)| (sum.0 / sum.1) as f32,
        physics: Physics {
            beam: Beam {
                zero: 0.0f32,
                pass: |tau: f32, x: f32, b: f32| tau * x + b,
                keep: |e: f32, up: f32, down: f32, b: f32| e * (up + down) - 2.0 * b,
            },
            emit: |e: f32, t: f32| e * STEFAN_BOLTZMANN * t * t * t * t,
            glow: |at: Now, t: f32| at.climate.emissivity * STEFAN_BOLTZMANN * t * t * t * t,
            vent: |k: f32, excess: f32| k * excess,
            excess: |at: Now, below: f32, above: f32| {
                below - above - at.climate.convection_lapse / at.layers as f32
            },
            flows: |excess: f32| excess > 0.0,
            light: |at: Now, n: Vec3| {
                let absorb = (1.0 - at.climate.albedo) * at.climate.solar_constant;
                absorb * n.dot(sun_direction(&at.climate, at.time)).max(0.0)
            },
            conduct: |at: Now, n: Vec3| conductance(&at.climate, at.gradient, n.z),
            mix_skin: |sum: f32, ds_i: f32, ds_j: f32, w: f32, tj: f32, ti: f32| {
                sum + 0.5 * (ds_i + ds_j) * w * (tj - ti)
            },
            warm_skin: |at: Now, f: SkinFlux<f32>| {
                let flux = f.light + (f.down - f.glow) - f.vent + f.mixed;
                f.temp + f32::from_bits(at.dt) * flux / f.capacity
            },
            mix_air: |at: Now, sum: f32, w: f32, tj: f32, ti: f32| {
                sum + at.climate.atm_diffusivity * w * (tj - ti)
            },
            drift: |u: Vec3, g: Vec3, mean: f32| -u.dot(g) - mean,
            warm_air: |at: Now, f: AirFlux<f32>| {
                let flux = f.net + f.below - f.above + f.mixed;
                let inv_c = 1.0 / f.capacity;
                f.temp + f32::from_bits(at.dt) * (flux * inv_c + f.drift)
            },
            floor: TEMP_FLOOR,
            under: |t: f32, floor: f32| !(t >= floor),
        },
        later: |t: f64, dt: u32| t + f32::from_bits(dt) as f64,
        minus: |left: u32, dt: u32| (f32::from_bits(left) - f32::from_bits(dt)).to_bits(),
    };
    sim.advance(&weather, sim_seconds.to_bits());
}

// Planets.

const RADIUS: f32 = 6.371e6;

fn gen_world(n: usize, seed: u64) -> (Grid, Terrain, Crust) {
    let g = build_grid(n);
    let t = generate_plates(&g, 12, seed);
    let c = generate_crust(&g, &t, seed);
    (g, t, c)
}

fn reals(patterns: &[u32]) -> Vec<f32> {
    patterns.iter().map(|&b| f32::from_bits(b)).collect()
}

fn field_gradients(g: &Grid, field: &Vec<f32>, radius: f32) -> Vec<Vec3> {
    let fit = |r: f32, fit: Fit, n: Vec3, pj: Vec3, ti: f32, tj: f32| fit_neighbor(fit, n, pj, ti, tj, r);
    wind::gradients(g, field, &fit, &solve_fit, Fit::default(), radius)
}

fn balance_wind(g: &Grid, climate: &Climate, gradient: f32, grad: &Vec<Vec3>, layer: usize, n: usize) -> Vec<Vec3> {
    let calm = |c: (Climate, f32), h: (usize, usize), p: Vec3, v: Vec3| calm_wind(&c.0, c.1, h, p, v);
    wind::compute(g, grad, layer, n, &calm, (*climate, gradient))
}

fn belt_wind(n: Vec3, east: Vec3, north: Vec3, climate: &Climate, gradient: f32) -> Vec3 {
    belt_for_layer(height(wind::layer_height(0, 2)), n, east, north, climate, gradient)
}

fn belt_wind_upper(n: Vec3, east: Vec3, north: Vec3, climate: &Climate, gradient: f32) -> Vec3 {
    belt_for_layer(height(wind::layer_height(1, 2)), n, east, north, climate, gradient)
}

fn profile(total: f32, decay: f32, n: usize) -> Vec<f32> {
    profile_arith().geometric_profile(total, decay, n)
}

#[test]
fn areas_sum_to_four_pi() {
    let g = build_grid(8000);
    let total: f64 = g.areas.iter().map(|&a| a as f64).sum();
    let expected = 4.0 * std::f64::consts::PI;
    let rel_err = (total - expected).abs() / expected;
    assert!(rel_err < 1e-3, "area sum {total} vs 4π {expected} (rel err {rel_err})");
}

#[test]
fn adjacency_is_symmetric() {
    let g = build_grid(4000);
    for i in 0..g.n {
        for &j in g.neighbors(i) {
            let j = j as usize;
            assert!(g.neighbors(j).contains(&(i as u32)), "edge {i}->{j} not mirrored {j}->{i}");
        }
    }
}

#[test]
fn neighbor_counts_are_reasonable() {
    let g = build_grid(4000);
    let mut min = usize::MAX;
    let mut max = 0;
    for i in 0..g.n {
        let d = g.neighbors(i).len();
        min = min.min(d);
        max = max.max(d);
    }
    assert!(min >= 4, "min degree {min} too low");
    assert!(max <= 10, "max degree {max} too high");
}

#[test]
fn csr_offsets_are_monotonic() {
    let g = build_grid(2000);
    assert_eq!(g.adj_start.len(), g.n + 1);
    assert_eq!(g.ring_start.len(), g.n + 1);
    assert!(g.adj_start.windows(2).all(|w| w[0] <= w[1]));
    assert!(g.ring_start.windows(2).all(|w| w[0] <= w[1]));
    assert_eq!(*g.adj_start.last().unwrap() as usize, g.adj.len());
    assert_eq!(*g.ring_start.last().unwrap() as usize, g.ring_verts.len());
}

#[test]
fn tessellation_is_well_formed() {
    let pts = fibonacci_sphere(2000);
    let t = tessellate(&pts);
    assert_eq!(t.neighbors.len(), pts.len());
    assert_eq!(t.triangles.len(), 2 * pts.len() - 4);
    assert_eq!(t.centers.len(), t.triangles.len());
    for (i, adj) in t.neighbors.iter().enumerate() {
        assert!(!adj.is_empty(), "cell {i} has no neighbors");
    }
    let centers: Vec<DVec3> = pts.iter().map(|p| p.normalize()).collect();
    for (tri, c) in t.triangles.iter().zip(&t.centers) {
        for &p in tri {
            assert!(c.dot(centers[p]) > 0.5, "circumcenter far from its triangle corner");
        }
    }
}

#[test]
fn lonlat_roundtrip() {
    for p in fibonacci_sphere(2000) {
        let back = from_lonlat_deg(to_lonlat_deg(p));
        assert!((p - back).length() < 1e-9, "roundtrip drift for {p:?}");
    }
}

#[test]
fn every_cell_is_assigned_to_a_valid_plate() {
    let g = build_grid(2000);
    let t = generate_plates(&g, 10, 42);
    assert_eq!(t.plate_id.len(), g.n);
    assert_eq!(t.plates.len(), 10);
    assert!(t.plate_id.iter().all(|&id| (id as usize) < t.plates.len()));
    for p in 0..t.plates.len() as u32 {
        assert!(t.plate_id.contains(&p), "plate {p} claimed no cells");
    }
}

#[test]
fn velocity_is_tangent_to_the_surface() {
    let g = build_grid(2000);
    let t = generate_plates(&g, 8, 7);
    for i in 0..g.n {
        assert!(t.velocity[i].dot(g.centers[i]).abs() < 1e-5);
    }
}

#[test]
fn terrain_generation_is_deterministic() {
    let g = build_grid(1500);
    let a = generate_plates(&g, 12, 12345);
    let b = generate_plates(&g, 12, 12345);
    assert_eq!(a.plate_id, b.plate_id);
    let c = generate_plates(&g, 12, 99999);
    assert_ne!(a.plate_id, c.plate_id);
}

#[test]
fn plates_are_contiguous() {
    let g = build_grid(1500);
    let t = generate_plates(&g, 12, 5);
    for p in 0..t.plates.len() as u32 {
        let cells: Vec<usize> = (0..g.n).filter(|&i| t.plate_id[i] == p).collect();
        let mut seen = vec![false; g.n];
        let mut stack = vec![cells[0]];
        seen[cells[0]] = true;
        let mut count = 0;
        while let Some(i) = stack.pop() {
            count += 1;
            for &j in g.neighbors(i) {
                let j = j as usize;
                if t.plate_id[j] == p && !seen[j] {
                    seen[j] = true;
                    stack.push(j);
                }
            }
        }
        assert_eq!(count, cells.len(), "plate {p} is in pieces");
    }
}

#[test]
fn plate_counts_are_held_to_the_grid() {
    let g = build_grid(20);
    assert_eq!(generate_plates(&g, 0, 3).plates.len(), 1);
    assert_eq!(generate_plates(&g, 500, 3).plates.len(), 20);
    let pareto = generate_plates_with(&g, 3, 3, SizeModel::Pareto(1.2));
    assert_eq!(pareto.plates.len(), 3);
}

#[test]
fn elevation_generation_is_deterministic() {
    let g = build_grid(2000);
    let t = generate_plates(&g, 12, 7);
    let a = generate_crust(&g, &t, 99);
    let b = generate_crust(&g, &t, 99);
    assert_eq!(a.elevation, b.elevation);
    assert_eq!(a.continental_fraction, b.continental_fraction);
    let c = generate_crust(&g, &t, 100);
    assert_ne!(a.elevation, c.elevation);
}

#[test]
fn elevations_are_finite_and_split_around_sea_level() {
    let (_, _, c) = gen_world(4000, 1);
    let elevation = reals(&c.elevation);
    assert!(elevation.iter().all(|e| e.is_finite()));
    assert!(elevation.iter().any(|&e| e > 0.0), "no land");
    assert!(elevation.iter().any(|&e| e < 0.0), "no ocean");
    let max_land = elevation.iter().cloned().fold(f32::MIN, f32::max);
    let min_sea = elevation.iter().cloned().fold(f32::MAX, f32::min);
    assert!(max_land > 0.0 && min_sea < 0.0);
}

#[test]
fn continental_coverage_matches_target() {
    let g = build_grid(8000);
    let t = generate_plates(&g, 12, 3);
    let c = generate_crust(&g, &t, 3);
    let total: f64 = g.areas.iter().map(|&a| a as f64).sum();
    let cont: f64 = (0..g.n)
        .filter(|&i| f32::from_bits(c.continental_fraction[i]) > 0.5)
        .map(|i| g.areas[i] as f64)
        .sum();
    let frac = cont / total;
    assert!((0.30..0.50).contains(&frac), "continental area fraction {frac}");
}

#[test]
fn water_volume_is_conserved() {
    let g = build_grid(4000);
    let t = generate_plates(&g, 12, 5);
    let params = Params::default();
    let c = generate_crust_with(&g, &t, 5, params);
    let elevation = reals(&c.elevation);
    let mut v = 0.0f64;
    for i in 0..g.n {
        if elevation[i] < 0.0 {
            v += (-elevation[i]) as f64 * g.areas[i] as f64;
        }
    }
    let rel = (v - params.water_volume as f64).abs() / params.water_volume as f64;
    assert!(rel < 0.02, "water volume off by {rel} (got {v}, want {})", params.water_volume);
}

#[test]
fn land_fraction_is_plausible() {
    let (_, _, c) = gen_world(8000, 2);
    let land_fraction = f32::from_bits(c.land_fraction);
    assert!((0.10..0.55).contains(&land_fraction), "land fraction {} implausible", land_fraction);
}

#[test]
fn thicker_lighter_crust_stands_higher() {
    let (_, _, c) = gen_world(4000, 8);
    let (thickness, density, elevation) =
        (reals(&c.thickness_km), reals(&c.density), reals(&c.elevation));
    let mut pairs: Vec<(f32, f32)> = (0..elevation.len())
        .map(|i| (thickness[i] * (1.0 - density[i] / RHO_MANTLE), elevation[i]))
        .collect();
    pairs.sort_by(|a, b| a.0.total_cmp(&b.0));
    let lo = &pairs[..pairs.len() / 10];
    let hi = &pairs[pairs.len() * 9 / 10..];
    let lo_mean = lo.iter().map(|p| p.1).sum::<f32>() / lo.len() as f32;
    let hi_mean = hi.iter().map(|p| p.1).sum::<f32>() / hi.len() as f32;
    assert!(hi_mean > lo_mean, "isostasy inverted: {hi_mean} !> {lo_mean}");
}

#[test]
fn columns_never_thin_out_below_the_floor() {
    let (_, _, c) = gen_world(1000, 4);
    assert!(reals(&c.thickness_km).iter().all(|&t| t >= 4.0));
    assert_eq!(c.boundary.len(), 1000);
    assert!(c.boundary.iter().any(|&b| b == BoundaryKind::Convergent));
    assert!(c.boundary.iter().any(|&b| b == BoundaryKind::Divergent));
    assert!(c.boundary.iter().any(|&b| b == BoundaryKind::Interior));
}

#[test]
fn interior_cells_are_those_among_their_own_plate() {
    let (g, t, c) = gen_world(1000, 6);
    for i in 0..g.n {
        let inside = g.neighbors(i).iter().all(|&j| t.plate_id[j as usize] == t.plate_id[i]);
        assert_eq!(c.boundary[i] == BoundaryKind::Interior, inside, "cell {i}");
    }
}

#[test]
fn a_planet_at_rest_still_has_boundaries() {
    let g = build_grid(600);
    let mut t = generate_plates(&g, 9, 3);
    for v in t.velocity.iter_mut() {
        *v = Vec3::ZERO;
    }
    let c = generate_crust(&g, &t, 3);
    for i in 0..g.n {
        let inside = g.neighbors(i).iter().all(|&j| t.plate_id[j as usize] == t.plate_id[i]);
        let want = if inside { BoundaryKind::Interior } else { BoundaryKind::Transform };
        assert_eq!(c.boundary[i], want, "cell {i}");
    }
}

#[test]
fn plates_may_reach_beyond_the_grid() {
    let g = build_grid(200);
    let mut t = generate_plates(&g, 6, 5);
    let c = generate_crust(&g, &t, 5);
    t.plate_id.push(1);
    t.velocity.push(Vec3::X);
    let d = generate_crust(&g, &t, 5);
    assert_eq!(c.elevation, d.elevation);
    assert_eq!(c.boundary, d.boundary);
}

#[test]
fn an_edge_has_one_conductance() {
    let g = build_grid(700);
    for i in 0..g.n {
        for (k, &j) in g.neighbors(i).iter().enumerate() {
            let j = j as usize;
            let back = g.neighbors(j).iter().position(|&m| m as usize == i).unwrap();
            assert_eq!(g.neighbor_weights(i)[k], g.neighbor_weights(j)[back], "edge {i}-{j}");
        }
    }
}

#[test]
fn sun_direction_is_unit_and_sweeps() {
    let sim = new_sim(10, default_climate(), 255.0);
    let s0 = sun_direction(&sim.climate, 0.0);
    assert!((s0.length() - 1.0).abs() < 1e-5);
    let s_quarter = sun_direction(&sim.climate, (sim.climate.day_seconds / 4.0) as f64);
    assert!(s0.dot(s_quarter).abs() < 0.1, "quarter-day sun should be ~orthogonal");
    let s_full = sun_direction(&sim.climate, sim.climate.day_seconds as f64);
    assert!(s0.dot(s_full) > 0.999, "full-day sun should return to start");
}

#[test]
fn subsolar_cell_approaches_radiative_equilibrium() {
    let g = build_grid(600);
    let mut climate = default_climate();
    climate.diffusivity = 0.0;
    climate.eddy_diffusivity = 0.0;
    climate.trade_wind_speed = 0.0;
    climate.meridional_wind_speed = 0.0;
    climate.geostrophic_coeff = 0.0;
    climate.atm_emissivity_total = 0.0;
    climate.convection_coeff = 0.0;
    climate.day_seconds = 1.0e12;
    climate.year_seconds = 1.0e15;
    let mut sim = new_sim(g.n, climate, 200.0);
    for _ in 0..4000 {
        advance(&mut sim, &g, f32::from_bits(MAX_SUBSTEP));
    }
    let sun = sun_direction(&sim.climate, 0.0);
    let (best, _) = g
        .centers
        .iter()
        .enumerate()
        .map(|(i, c)| (i, c.dot(sun)))
        .max_by(|a, b| a.1.partial_cmp(&b.1).unwrap())
        .unwrap();
    let cos = g.centers[best].dot(sun).max(0.0);
    let absorbed = (1.0 - climate.albedo) * climate.solar_constant * cos;
    let expected = (absorbed / (climate.emissivity * STEFAN_BOLTZMANN)).powf(0.25);
    let got = sim.temperatures()[best];
    assert!(
        (got - expected).abs() / expected < 0.02,
        "subsolar cell {got}K vs equilibrium {expected}K",
    );
}

#[test]
fn diffusion_substep_is_stable() {
    let g = build_grid(8000);
    let c = default_climate();
    let max_wsum = (0..g.n)
        .map(|i| g.neighbor_weights(i).iter().sum::<f32>())
        .fold(0.0f32, f32::max);
    let max_d = c.diffusivity + c.eddy_diffusivity * 2.0;
    let factor = f32::from_bits(MAX_SUBSTEP) * max_d * max_wsum / c.heat_capacity;
    assert!(factor < 1.0, "diffusion CFL factor {factor} (max Σw = {max_wsum}, D = {max_d}) is unstable");
}

#[test]
fn temperatures_stay_finite_and_bounded_over_a_day() {
    let g = build_grid(1500);
    let mut sim = new_sim(g.n, default_climate(), 255.0);
    let day = sim.climate.day_seconds;
    for _ in 0..200 {
        advance(&mut sim, &g, day * 2.0 / 200.0);
    }
    for &t in sim.temperatures() {
        assert!(t.is_finite(), "temperature went non-finite");
        assert!((TEMP_FLOOR..600.0).contains(&t), "temperature out of range: {t}");
    }
}

#[test]
fn geometric_profile_reduces_to_old_two_layer_values() {
    let e = profile(1.22, 0.694, 2);
    assert!((e[0] - 0.72).abs() < 0.01 && (e[1] - 0.50).abs() < 0.01, "emissivity {e:?}");
    let c = profile(1.0e7, 0.667, 2);
    assert!((c[0] - 6.0e6).abs() < 5e4 && (c[1] - 4.0e6).abs() < 5e4, "heat cap {c:?}");
    for n in 1..=8 {
        let p = profile(1.22, 0.7, n);
        assert!((p.iter().sum::<f32>() - 1.22).abs() < 1e-4, "n={n} sum {:?}", p);
    }
}

fn mean_surface_temp(layers: usize, days: f32, steps: usize) -> f32 {
    let g = build_grid(400);
    let mut climate = default_climate();
    climate.n_layers = layers;
    let mut sim = new_sim(g.n, climate, 260.0);
    let total = climate.day_seconds * days;
    for _ in 0..steps {
        advance(&mut sim, &g, total / steps as f32);
    }
    sim.temperatures().iter().sum::<f32>() / g.n as f32
}

#[test]
fn surface_climate_is_roughly_layer_count_invariant() {
    let t2 = mean_surface_temp(2, 10.0, 130);
    let t4 = mean_surface_temp(4, 10.0, 130);
    assert!((t2 - t4).abs() < 12.0, "N=2 {t2:.1}K vs N=4 {t4:.1}K differ too much");
    for (n, t) in [(2, t2), (4, t4)] {
        assert!((250.0..320.0).contains(&t), "N={n} surface mean {t:.1}K implausible");
    }
}

#[test]
fn column_builds_a_monotonic_lapse() {
    let g = build_grid(1200);
    let climate = default_climate();
    let mut sim = new_sim(g.n, climate, 260.0);
    let day = climate.day_seconds;
    for _ in 0..150 {
        advance(&mut sim, &g, day * 5.0 / 150.0);
    }
    let mean = |t: &[f32]| t.iter().sum::<f32>() / t.len() as f32;
    let mut prev = mean(sim.temperatures());
    for l in 0..sim.n_layers() {
        let tl = mean(sim.atmosphere_temperatures(l));
        assert!(tl < prev, "layer {l} mean {tl:.1}K not colder than the body below {prev:.1}K");
        prev = tl;
    }
}

#[test]
fn frame_is_orthonormal_and_tangent() {
    for n in [
        Vec3::new(1.0, 0.0, 0.0),
        Vec3::new(0.0, 1.0, 0.3).normalize(),
        Vec3::new(0.4, -0.7, 0.5).normalize(),
    ] {
        let (e, no) = east_north(n);
        assert!((e.length() - 1.0).abs() < 1e-5);
        assert!((no.length() - 1.0).abs() < 1e-5);
        assert!(e.dot(n).abs() < 1e-5, "east not tangent");
        assert!(no.dot(n).abs() < 1e-5, "north not tangent");
        assert!(e.dot(no).abs() < 1e-5, "east·north not 0");
        assert!((e.cross(no) - n).length() < 1e-4, "frame not right-handed");
        assert!(no.z > 0.0, "north should have a +Z component off the equator");
    }
}

#[test]
fn gradient_matches_analytic_latitude_field() {
    let g = build_grid(6000);
    let field: Vec<f32> = g.centers.iter().map(|c| 100.0 * c.z).collect();
    let grad = field_gradients(&g, &field, RADIUS);
    for i in 0..g.n {
        let n = g.centers[i];
        let lat = n.z.asin();
        if !(10.0..70.0).contains(&lat.abs().to_degrees()) {
            continue;
        }
        let (east, north) = east_north(n);
        let expected = 100.0 * lat.cos() / RADIUS;
        let got_north = grad[i].dot(north);
        let got_east = grad[i].dot(east);
        assert!(
            (got_north - expected).abs() < 0.15 * expected,
            "lat {:.1}°: north grad {got_north:.3e} vs {expected:.3e}",
            lat.to_degrees(),
        );
        assert!(
            got_east.abs() < 0.15 * grad[i].length(),
            "lat {:.1}°: spurious east grad {got_east:.3e} vs |∇| {:.3e}",
            lat.to_degrees(),
            grad[i].length(),
        );
    }
}

#[test]
fn belts_have_earthlike_sign_pattern() {
    let climate = default_climate();
    for lat_deg in [-75.0, -45.0, -15.0, 15.0, 45.0, 75.0f32] {
        let lat = lat_deg.to_radians();
        let n = Vec3::new(lat.cos(), 0.0, lat.sin());
        let (east, north) = east_north(n);
        let w = belt_wind(n, east, north, &climate, 1.0);
        let zonal = w.dot(east);
        let band = lat_deg.abs();
        if band < 30.0 || band > 60.0 {
            assert!(zonal < 0.0, "{lat_deg}° should be easterly, got {zonal}");
        } else {
            assert!(zonal > 0.0, "{lat_deg}° should be westerly, got {zonal}");
        }
    }
}

#[test]
fn northern_trades_are_northeasterly() {
    let climate = default_climate();
    let lat = 15.0_f32.to_radians();
    let n = Vec3::new(lat.cos(), 0.0, lat.sin());
    let (east, north) = east_north(n);
    let w = belt_wind(n, east, north, &climate, 1.0);
    assert!(w.dot(east) < 0.0, "trade should blow westward");
    assert!(w.dot(north) < 0.0, "trade should blow equatorward (southward in N)");
}

#[test]
fn wind_field_is_tangent() {
    let g = build_grid(4000);
    let climate = default_climate();
    let temp: Vec<f32> = g.centers.iter().map(|c| 300.0 - 50.0 * c.z.abs()).collect();
    let grad = field_gradients(&g, &temp, RADIUS);
    let gfac = wind::gradient_factor(&g, &temp, &belt_contrast());
    let winds = balance_wind(&g, &climate, gfac, &grad, 0, 2);
    for i in 0..g.n {
        assert!(winds[i].dot(g.centers[i]).abs() < 1e-3, "wind not tangent at {i}");
        assert!(winds[i].is_finite(), "non-finite wind at {i}");
    }
}

#[test]
fn geostrophic_perturbation_is_significant_and_equator_safe() {
    let climate = default_climate();
    let grad_mag = 5.0e-6;
    let lat = 35.0_f32.to_radians();
    let n = Vec3::new(lat.cos(), 0.0, lat.sin());
    let (_e, north) = east_north(n);
    let w = geostrophic_wind(n, north * grad_mag, &climate);
    assert!(
        (1.0..15.0).contains(&w.length()),
        "mid-lat geostrophic wind {} m/s out of expected few-m/s range",
        w.length(),
    );
    let n_eq = Vec3::new(1.0, 0.0, 0.0);
    let (_e2, north_eq) = east_north(n_eq);
    let w_eq = geostrophic_wind(n_eq, north_eq * grad_mag, &climate);
    assert!(w_eq.is_finite(), "equator wind non-finite");
    assert!(w_eq.length() > 0.1, "equator wind should be a real down-gradient flow");
}

#[test]
fn flat_climate_is_calm() {
    let g = build_grid(2000);
    let climate = default_climate();
    let temp = vec![288.0f32; g.n];
    let grad = field_gradients(&g, &temp, RADIUS);
    let gfac = wind::gradient_factor(&g, &temp, &belt_contrast());
    let winds = balance_wind(&g, &climate, gfac, &grad, 0, 2);
    for w in &winds {
        assert!(w.length() < 1e-3, "uniform climate should be calm, got {}", w.length());
    }
}

#[test]
fn upper_belt_is_westerly_jet_peaking_at_30() {
    let climate = default_climate();
    let mut peak_lat = 0.0f32;
    let mut peak_u = 0.0f32;
    for lat_deg in (-85..=85).step_by(5) {
        let lat = (lat_deg as f32).to_radians();
        let n = Vec3::new(lat.cos(), 0.0, lat.sin());
        let (east, north) = east_north(n);
        let u = belt_wind_upper(n, east, north, &climate, 1.0).dot(east);
        assert!(u >= 0.0, "upper zonal flow should be westerly at {lat_deg}°, got {u}");
        if u > peak_u {
            peak_u = u;
            peak_lat = (lat_deg as f32).abs();
        }
    }
    assert!(peak_u > 1.0, "subtropical jet should be a real flow, got {peak_u} m/s");
    assert!(
        (peak_lat - 30.0).abs() <= 5.0,
        "subtropical jet should peak near 30°, peaked at {peak_lat}°",
    );
}

#[test]
fn upper_meridional_opposes_surface() {
    let climate = default_climate();
    for lat_deg in [-75.0, -45.0, -15.0, 15.0, 45.0, 75.0f32] {
        let lat = lat_deg.to_radians();
        let n = Vec3::new(lat.cos(), 0.0, lat.sin());
        let (east, north) = east_north(n);
        let surf = belt_wind(n, east, north, &climate, 1.0).dot(north);
        let upper = belt_wind_upper(n, east, north, &climate, 1.0).dot(north);
        assert!(
            surf * upper < 0.0,
            "{lat_deg}°: surface ({surf:.2}) and upper ({upper:.2}) meridional flow should oppose",
        );
    }
}

#[test]
fn nothing_happens_without_time() {
    let g = build_grid(40);
    let mut sim = new_sim(g.n, default_climate(), 260.0);
    advance(&mut sim, &g, 0.0);
    advance(&mut sim, &g, -5.0);
    assert_eq!(sim.time, 0.0);
    assert!(!sim.wind_seeded);
    assert!(sim.winds().iter().all(|w| *w == Vec3::ZERO));
    advance(&mut sim, &g, 400.0);
    assert_eq!(sim.time, 400.0);
    assert!(sim.wind_seeded);
    assert!(sim.winds().iter().any(|w| *w != Vec3::ZERO));
    assert!(sim.convection().len() == g.n);
}

#[test]
fn a_long_advance_is_the_same_as_its_substeps() {
    let g = build_grid(40);
    let mut whole = new_sim(g.n, default_climate(), 260.0);
    let mut parts = new_sim(g.n, default_climate(), 260.0);
    advance(&mut whole, &g, 400.0);
    advance(&mut parts, &g, 150.0);
    advance(&mut parts, &g, 150.0);
    advance(&mut parts, &g, 100.0);
    assert_eq!(whole.temperatures(), parts.temperatures());
    assert_eq!(whole.winds_hi(), parts.winds_hi());
    assert_eq!(whole.upper_atmosphere_temperatures(), parts.upper_atmosphere_temperatures());
    assert_eq!(whole.lower_atmosphere_temperatures(), parts.atmosphere_temperatures(0));
    assert_eq!(whole.layer_winds(0), parts.winds());
}

#[test]
fn whole_substeps_at_once_are_whole_substeps_in_turn() {
    let g = build_grid(60);
    let mut whole = new_sim(g.n, default_climate(), 250.0);
    let mut parts = new_sim(g.n, default_climate(), 250.0);
    advance(&mut whole, &g, 4.0 * f32::from_bits(MAX_SUBSTEP));
    for _ in 0..4 {
        advance(&mut parts, &g, f32::from_bits(MAX_SUBSTEP));
    }
    assert_eq!(whole.time, 600.0);
    assert_eq!(parts.time, 600.0);
    assert_eq!(whole.temp, parts.temp);
    assert_eq!(whole.atm, parts.atm);
    assert_eq!(whole.wind_layers, parts.wind_layers);
    assert_eq!(whole.grad_s, parts.grad_s);
    assert_eq!(whole.grads, parts.grads);
    assert_eq!(whole.conv, parts.conv);
}

#[test]
fn the_skin_is_not_advected() {
    let g = build_grid(200);
    let mut climate = default_climate();
    let mut blown = new_sim(g.n, climate, 300.0);
    climate.atm_advection = false;
    let mut calm = new_sim(g.n, climate, 300.0);
    for i in 0..g.n {
        let bump = 15.0 * g.centers[i].x;
        for sim in [&mut blown, &mut calm] {
            sim.temp[i] += 60.0 + bump;
            sim.atm[0][i] += bump;
        }
    }
    advance(&mut blown, &g, 150.0);
    advance(&mut calm, &g, 150.0);
    assert_eq!(blown.temperatures(), calm.temperatures());
    assert_eq!(blown.convection(), calm.convection());
    assert!(blown.convection().iter().any(|&h| h > 0.0));
    assert!(blown.convection().iter().all(|&h| h >= 0.0));
    assert_ne!(blown.lower_atmosphere_temperatures(), calm.lower_atmosphere_temperatures());
}

#[test]
fn no_temperature_falls_below_the_floor() {
    let g = build_grid(50);
    let mut climate = default_climate();
    climate.solar_constant = 0.0;
    climate.heat_capacity = 10.0;
    let mut sim = new_sim(g.n, climate, 250.0);
    sim.atm[1][4] = f32::NAN;
    advance(&mut sim, &g, 150.0);
    assert!(sim.temperatures().iter().all(|&t| t >= TEMP_FLOOR));
    assert_eq!(sim.temperatures()[9], TEMP_FLOOR);
    for l in 0..sim.n_layers() {
        assert!(sim.atmosphere_temperatures(l).iter().all(|&t| t >= TEMP_FLOOR));
    }
}

#[test]
fn a_link_passes_nothing_within_the_lapse() {
    let g = build_grid(50);
    let mut sim = new_sim(g.n, default_climate(), 250.0);
    // Each layer starts colder by exactly the lapse of one link.
    advance(&mut sim, &g, 1.0);
    assert!(sim.convection().iter().all(|&h| h == 0.0));
    for t in sim.temp.iter_mut() {
        *t = 290.0;
    }
    let air = sim.atm[0][7];
    advance(&mut sim, &g, 1.0);
    assert_eq!(sim.convection()[7], 35.0 * (290.0 - air - 22.0));
}

#[test]
fn an_elevation_that_is_no_number_is_land() {
    let g = build_grid(40);
    let mut sim = new_sim(g.n, default_climate(), 260.0);
    let plates = plate_model(DEFAULT_SIZE_MODEL);
    let made = crust_model(&g, Params::default());
    let crust = CrustModel {
        noise: made.noise,
        tectonics: made.tectonics,
        shore: Shore {
            rise: |r: u32, s: u32| {
                if f32::from_bits(r) < f32::from_bits(s) { (-1.0f32).to_bits() } else { (-f32::NAN).to_bits() }
            },
            portion: made.shore.portion,
        },
        measure: made.measure,
        flood: made.flood,
    };
    sim.generate_terrain(&g, 4, 1, &plates, &crust);
    let lost = sim.elevations().iter().filter(|&&e| f32::from_bits(e).is_nan()).count();
    assert!(0 < lost && lost < g.n);
    for (&cap, &elev) in sim.heat_cap.iter().zip(sim.elevations()) {
        assert_eq!(cap, if f32::from_bits(elev).is_nan() { 4.0e5 } else { 2.9e8 });
    }
}

#[test]
fn a_seed_fixes_the_planet() {
    let g = build_grid(300);
    let mut sim = new_sim(g.n, default_climate(), 260.0);
    generate_terrain(&mut sim, &g, 9, 21);
    let (t, c) = (generate_plates(&g, 9, 21), generate_crust(&g, &generate_plates(&g, 9, 21), 21));
    assert_eq!(sim.terrain.plate_id, t.plate_id);
    assert_eq!(sim.terrain.velocity, t.velocity);
    assert_eq!(sim.crust.elevation, c.elevation);
    assert_eq!(sim.crust.boundary, c.boundary);
    assert_eq!(sim.crust.sea_level, c.sea_level);
    let before = sim.crust.elevation.clone();
    generate_terrain(&mut sim, &g, 9, 22);
    assert_ne!(sim.crust.elevation, before);
}

#[test]
fn winds_stay_on_the_sphere_and_within_the_cap() {
    let limits = wind_limits();
    let (p, fast) = (Vec3::Z, Vec3::new(300.0, 400.0, 50.0));
    assert_eq!(limits.limited(p, fast), Vec3::new(300.0, 400.0, 0.0) * (120.0 / 500.0));
    assert_eq!(limits.limited(p, Vec3::new(72.0, 96.0, 9.0)), Vec3::new(72.0, 96.0, 0.0));
    assert_eq!(limits.limited(p, Vec3::new(-3.0, 4.0, 9.0)), Vec3::new(-3.0, 4.0, 0.0));
    assert!(limits.limited(p, Vec3::splat(f32::NAN)).is_nan());
    assert_eq!(f32::from_bits(wind::MAX_WIND), 120.0);
    // A step slows a gale.
    let g = build_grid(100);
    let mut sim = new_sim(g.n, default_climate(), 260.0);
    sim.wind_seeded = true;
    for l in 0..sim.n_layers() {
        for i in 0..g.n {
            sim.wind_layers[l][i] = 900.0 * Vec3::Z.cross(g.centers[i]) + 5.0 * g.centers[i];
        }
    }
    advance(&mut sim, &g, 150.0);
    for l in 0..sim.n_layers() {
        for (u, p) in sim.layer_winds(l).iter().zip(&g.centers) {
            assert!(u.length() < 120.001, "wind of {}", u.length());
            assert!(u.dot(*p).abs() < 1e-3);
        }
    }
    assert!(sim.winds().iter().any(|u| u.length() > 119.9));
}

#[test]
fn no_area_is_negative() {
    let g = build_grid(500);
    assert!(g.areas.iter().all(|&a| a >= 0.0));
}

#[test]
fn fields_may_reach_beyond_the_grid() {
    let g = build_grid(60);
    let field: Vec<f32> = g.centers.iter().map(|p| 250.0 + 30.0 * p.z).collect();
    let mut longer = field.clone();
    longer.push(1.0e9);
    let flat = wind::gradient_factor(&g, &field, &belt_contrast());
    assert_eq!(flat, wind::gradient_factor(&g, &longer, &belt_contrast()));
    assert_eq!(field_gradients(&g, &field, RADIUS), field_gradients(&g, &longer, RADIUS));
}

#[test]
fn terrain_sets_the_heat_capacity_of_land_and_sea() {
    let g = build_grid(500);
    let mut sim = new_sim(g.n, default_climate(), 260.0);
    assert!(sim.heat_cap.iter().all(|&c| c == sim.climate.heat_capacity));
    generate_terrain(&mut sim, &g, 8, 11);
    assert_eq!(sim.terrain.plates.len(), 8);
    for (&cap, &elev) in sim.heat_cap.iter().zip(sim.elevations()) {
        let want = if f32::from_bits(elev) < 0.0 { 2.9e8 } else { 4.0e5 };
        assert_eq!(cap, want);
    }
}

#[test]
fn a_new_column_is_colder_layer_by_layer() {
    let mut climate = default_climate();
    climate.n_layers = 0;
    assert_eq!(new_sim(3, climate, 288.0).n_layers(), 1);
    climate.n_layers = 3;
    let sim = new_sim(3, climate, 288.0);
    assert_eq!(sim.temperatures(), &[288.0; 3]);
    for l in 0..3 {
        assert_eq!(sim.atmosphere_temperatures(l), &[288.0 - 22.0 * (l as f32 + 1.0); 3]);
    }
}

#[test]
fn one_cell_without_neighbors_warms_by_its_own_balance() {
    // A lone cell under the sun at time zero: nothing mixes and nothing blows.
    let g = Grid {
        n: 1,
        centers: vec![Vec3::X],
        lonlat_deg: vec![Vec2::ZERO],
        areas: vec![12.566f32],
        adj_start: vec![0, 0],
        adj: vec![],
        adj_weight: vec![],
        ring_start: vec![0, 0],
        ring_verts: vec![],
    };
    let mut climate = default_climate();
    climate.atm_emissivity_total = 0.0;
    climate.convection_coeff = 0.0;
    let mut sim = new_sim(1, climate, 300.0);
    advance(&mut sim, &g, 100.0);
    let light = (1.0 - 0.3f32) * 1361.0 * Vec3::X.dot(sun_direction(&climate, 0.0)).max(0.0);
    let glow = 1.0 * STEFAN_BOLTZMANN * 300.0 * 300.0 * 300.0 * 300.0;
    let expected = 300.0 + 100.0 * (light + (0.0 - glow) - 0.0 + 0.0) / 4.0e5f32;
    assert_eq!(sim.temperatures()[0], expected);
}

#[test]
fn advection_only_moves_heat() {
    let g = build_grid(300);
    let mut climate = default_climate();
    // Nothing but the wind acts on the air.
    climate.atm_emissivity_total = 0.0;
    climate.convection_coeff = 0.0;
    climate.atm_diffusivity = 0.0;
    let mut sim = new_sim(g.n, climate, 260.0);
    for l in 0..sim.n_layers() {
        for i in 0..g.n {
            sim.atm[l][i] += 20.0 * g.centers[i].x + 10.0 * g.centers[i].z;
        }
    }
    let mean = |field: &[f32]| {
        let total: f64 = g.areas.iter().map(|&a| a as f64).sum();
        field.iter().zip(&g.areas).map(|(&t, &a)| t as f64 * a as f64).sum::<f64>() / total
    };
    let before: Vec<Vec<f32>> = sim.atm.clone();
    advance(&mut sim, &g, 3000.0);
    for l in 0..sim.n_layers() {
        assert_ne!(sim.atmosphere_temperatures(l), &before[l][..], "layer {l} did not move");
        let drift = mean(sim.atmosphere_temperatures(l)) - mean(&before[l]);
        assert!(drift.abs() < 1e-3, "layer {l} mean drifted by {drift}");
    }
}

#[test]
fn links_hand_on_what_they_take() {
    let g = build_grid(50);
    let mut climate = default_climate();
    // Nothing but convection acts.
    climate.solar_constant = 0.0;
    climate.emissivity = 0.0;
    climate.atm_emissivity_total = 0.0;
    climate.diffusivity = 0.0;
    climate.eddy_diffusivity = 0.0;
    climate.atm_diffusivity = 0.0;
    climate.atm_advection = false;
    let mut sim = new_sim(g.n, climate, 300.0);
    for t in sim.temp.iter_mut() {
        *t = 340.0;
    }
    let caps = profile(climate.atm_heat_capacity_total, climate.atm_heat_capacity_decay, 3);
    let energy = |sim: &Sim, i: usize| {
        let skin = climate.heat_capacity as f64 * sim.temp[i] as f64;
        let air: f64 = (0..3).map(|l| caps[l] as f64 * sim.atm[l][i] as f64).sum();
        skin + air
    };
    let before = energy(&sim, 7);
    advance(&mut sim, &g, 100.0);
    assert!(sim.convection()[7] > 0.0);
    assert!(sim.temperatures()[7] < 340.0);
    assert!(sim.lower_atmosphere_temperatures()[7] > 278.0);
    let after = energy(&sim, 7);
    assert!((after - before).abs() / before < 1e-6, "energy went from {before} to {after}");
}

#[test]
fn all_points_are_unit_vectors() {
    for p in fibonacci_sphere(5000) {
        assert!((p.length() - 1.0).abs() < 1e-9, "point not on unit sphere: {p:?}");
    }
}

#[test]
fn count_matches() {
    assert_eq!(fibonacci_sphere(1234).len(), 1234);
}

#[test]
fn roughly_centered() {
    let pts = fibonacci_sphere(20_000);
    let mean: DVec3 = pts.iter().copied().sum::<DVec3>() / pts.len() as f64;
    assert!(mean.length() < 1e-2, "centroid too far from origin: {}", mean.length());
}
