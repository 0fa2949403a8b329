//! Views of a planet: cameras, picking, mesh and arrows.
#![allow(dead_code)]

use d3_geo_voronoi_rs::delaunay::Delaunay;
use ecology_simulator::grid::{Fan, Grid as CoreGrid};
use ecology_simulator::grid::voronoi::Tessellation;
use ecology_simulator::order::value_key;
use ecology_simulator::render::mesh as lines;
use ecology_simulator::render::camera::{Winkel, footprint_outline, winkel_tripel_inverse as invert};
use ecology_simulator::render::mesh::{Arrow, build_mesh};
use ecology_simulator::render::pick::ray_sphere as first_hit;
use geo_types::Coord;
use glam::{DVec3, Mat4, Vec2, Vec3, Vec4};
use std::f32::consts::{FRAC_PI_2, PI};

/// A grid of unit vectors, with coordinates in degrees and single-precision areas.
pub type Grid = CoreGrid<Vec3, Vec2, f32>;

/// The golden angle, by which successive points of the lattice are turned in longitude.
pub const GOLDEN_ANGLE: f64 = 2.399_963_229_728_653;

/// Point `i` of a lattice of `n` near-uniformly distributed unit vectors. Floating point.
pub fn fibonacci_point(i: usize, n: usize) -> DVec3 {
    let z = 1.0 - (2.0 * i as f64 + 1.0) / n as f64;
    let r = (1.0 - z * z).max(0.0).sqrt();
    let theta = GOLDEN_ANGLE * i as f64;
    let (s, c) = theta.sin_cos();
    DVec3::new(r * c, r * s, z)
}

/// `n` near-uniformly distributed unit vectors on the sphere.
pub fn fibonacci_sphere(n: usize) -> Vec<DVec3> {
    assert!(n >= 4, "need at least 4 points to tessellate a sphere");
    (0..n).map(|i| fibonacci_point(i, n)).collect()
}

/// A unit vector as (longitude, latitude) in degrees. Floating point.
pub fn to_lonlat_deg(p: DVec3) -> Coord<f64> {
    let lat = p.z.clamp(-1.0, 1.0).asin().to_degrees();
    let lon = p.y.atan2(p.x).to_degrees();
    Coord { x: lon, y: lat }
}

/// Inverse of [`to_lonlat_deg`]. Floating point.
pub fn from_lonlat_deg(c: Coord<f64>) -> DVec3 {
    let lon = c.x.to_radians();
    let lat = c.y.to_radians();
    let (sin_lat, cos_lat) = lat.sin_cos();
    let (sin_lon, cos_lon) = lon.sin_cos();
    DVec3::new(cos_lat * cos_lon, cos_lat * sin_lon, sin_lat)
}

/// Tessellate the sphere over `points` (assumed unit vectors). The triangulation itself is floating
/// point; what comes out of it is gathered by the library.
pub fn tessellate(points: &[DVec3]) -> Tessellation<DVec3> {
    let coords: Vec<Coord<f64>> = points.iter().copied().map(to_lonlat_deg).collect();
    let delaunay = Delaunay::<f64>::try_from(&coords)
        .expect("Delaunay triangulation failed (need >= 4 non-degenerate points)");
    let centers: Vec<DVec3> =
        delaunay.centers.iter().map(|c| from_lonlat_deg(*c).normalize()).collect();
    let triangles: Vec<[usize; 3]> = delaunay.triangles.iter().copied().collect();
    let adjacency: Vec<(usize, Vec<usize>)> =
        delaunay.neighbors.iter().map(|(&cell, adj)| (cell, adj.clone())).collect();
    Tessellation::assemble(points.len(), centers, triangles, adjacency)
}

/// Great-circle angle between two unit vectors (robust near 0 and pi). Floating point.
pub fn arc(a: Vec3, b: Vec3) -> f32 {
    a.cross(b).length().atan2(a.dot(b))
}

/// Signed area of the spherical triangle (a, b, c). Floating point.
pub fn spherical_triangle_area(a: Vec3, b: Vec3, c: Vec3) -> f32 {
    let triple = a.dot(b.cross(c));
    let den = 1.0 + a.dot(b) + b.dot(c) + c.dot(a);
    2.0 * triple.atan2(den)
}

/// Azimuth of `p` around the normal `nrm`, from an arbitrary but fixed direction. Floating point.
pub fn azimuth(nrm: Vec3, p: Vec3) -> f32 {
    let seed = if nrm.x.abs() < 0.9 { Vec3::X } else { Vec3::Y };
    let u = seed.cross(nrm).normalize();
    let v = nrm.cross(u);
    p.dot(v).atan2(p.dot(u))
}

/// Center-to-center distance of two neighboring cells, in radians. Floating point.
pub fn neighbor_dist(a: Vec3, b: Vec3) -> f32 {
    arc(a, b).max(1e-6)
}

/// Build a grid of `n` near-uniform cells.
pub fn build_grid(n: usize) -> Grid {
    let points = fibonacci_sphere(n);
    let raw = tessellate(&points);
    assert!(raw.triangles.len() <= raw.centers.len(), "a triangle has no circumcenter");
    assert!(raw.triangles.iter().flatten().all(|&p| p < n), "triangle corner out of range");
    assert!(raw.neighbors.iter().flatten().all(|&p| p < n), "neighbor out of range");
    let edges: usize = raw.neighbors.iter().map(|adj| adj.len()).sum();
    assert!(n <= u32::MAX as usize && edges <= u32::MAX as usize, "grid too large");
    assert!(raw.triangles.len() <= u32::MAX as usize / 3, "grid too large");

    let centers: Vec<Vec3> = points.iter().map(|p| p.as_vec3().normalize()).collect();
    let lonlat_deg: Vec<Vec2> = points
        .iter()
        .map(|p| {
            let c = to_lonlat_deg(*p);
            Vec2::new(c.x as f32, c.y as f32)
        })
        .collect();
    let tess = Tessellation {
        centers: raw.centers.iter().map(|v| v.as_vec3().normalize()).collect(),
        triangles: raw.triangles,
        neighbors: raw.neighbors,
    };
    let normals = centers.clone();
    let around = |cell: usize, p: Vec3| value_key(azimuth(normals[cell], p).to_bits());
    let fan = Fan {
        zero: 0.0f32,
        sector: |sum: f32, c: Vec3, a: Vec3, b: Vec3| sum + spherical_triangle_area(c, a, b),
        whole: |sum: f32| sum.abs(),
    };
    let weight = |i: usize, j: usize, edge: Option<(Vec3, Vec3)>| {
        let dist = neighbor_dist(normals[i], normals[j]);
        match edge {
            Some((a, b)) => arc(a, b) / dist,
            None => 1.0 / dist,
        }
    };
    Grid::new(centers, lonlat_deg, &tess, &around, &fan, &weight)
}

/// Slightly outside the unit sphere, so overlay lines sit just above the cell surface.
const OVERLAY_RADIUS: f32 = 1.012;
/// World-space length of the longest motion arrow.
const ARROW_LEN: f32 = 0.06;

/// Cell centers as (longitude, latitude) in radians.
pub fn build_cell_centers(grid: &Grid) -> Vec<Vec2> {
    lines::build_cell_centers(grid, &|ll: Vec2| Vec2::new(ll.x.to_radians(), ll.y.to_radians()))
}

/// Direction `k` of `n` evenly spread ones.
fn direction(k: usize, n: usize) -> Vec3 {
    fibonacci_point(k, n).as_vec3()
}

/// How close two unit vectors are.
fn closeness(a: Vec3, b: Vec3) -> u32 {
    a.dot(b).to_bits()
}

/// Length of a vector.
fn speed(v: Vec3) -> u32 {
    v.length().to_bits()
}

/// The arrow for tangent vector `v` at cell center `p`; `top` sets the length scale. None for
/// vectors that are not tangent.
fn draw(p: Vec3, v: Vec3, top: u32) -> Option<Arrow<Vec3>> {
    let dir = (v - p * v.dot(p)).normalize_or_zero();
    if dir.length_squared() <= 0.5 {
        return None;
    }
    let len = ARROW_LEN * (v.length() / f32::from_bits(top)).clamp(0.25, 1.0);
    let tip = (p + dir * len).normalize();
    let side = p.cross(dir).normalize_or_zero();
    let back = -dir;
    let (s, cth) = 0.45f32.sin_cos();
    let barb_len = len * 0.4;
    Some(Arrow {
        base: p * OVERLAY_RADIUS,
        tip: tip * OVERLAY_RADIUS,
        left: (tip + (back * cth + side * s) * barb_len).normalize() * OVERLAY_RADIUS,
        right: (tip + (back * cth - side * s) * barb_len).normalize() * OVERLAY_RADIUS,
    })
}

/// The cell nearest to a direction.
pub fn nearest_cell(grid: &Grid, to: Vec3) -> usize {
    assert!(grid.n > 0, "a grid without cells has no nearest one");
    grid.nearest_cell(to, &closeness)
}

/// About `target` cells spread evenly over the sphere.
pub fn arrow_sample_cells(grid: &Grid, target: usize) -> Vec<u32> {
    let count = target.min(grid.n);
    assert!(count == 0 || count >= 4, "need at least 4 points to tessellate a sphere");
    lines::arrow_sample_cells(grid, target, &direction, &closeness)
}

/// A motion-arrow line list at a set of sample cells.
pub fn build_arrows_at(grid: &Grid, field: &Vec<Vec3>, samples: &Vec<u32>) -> Vec<Vec3> {
    assert!(
        field.is_empty() || samples.iter().all(|&i| (i as usize) < grid.n.min(field.len())),
        "a sample is no cell of the field",
    );
    lines::build_arrows_at(grid, field, samples, &speed, &draw)
}

/// An arrow field that samples about `target` evenly spread cells.
pub fn build_arrows(grid: &Grid, velocity: &Vec<Vec3>, target: usize) -> Vec<Vec3> {
    if velocity.is_empty() || grid.n == 0 {
        return Vec::new();
    }
    let cells = arrow_sample_cells(grid, target);
    assert!(cells.iter().all(|&c| (c as usize) < velocity.len()), "a sampled cell has no velocity");
    lines::build_arrows(grid, velocity, target, &direction, &closeness, &speed, &draw)
}

/// Half-extents of the projected map (world units).
pub const WINKEL_HALF_W: f32 = 1.0 + std::f32::consts::FRAC_PI_2;
pub const WINKEL_HALF_H: f32 = std::f32::consts::FRAC_PI_2;
/// Standard-parallel cosine.
const WINKEL_COS_PHI1: f32 = std::f32::consts::FRAC_2_PI;
/// A small empty border so the map does not touch the canvas edges.
const WINKEL_MARGIN: f32 = 1.04;

/// Forward Winkel Tripel: (longitude, latitude) in radians to map (x, y) in world units.
pub fn winkel_tripel(lon: f32, lat: f32) -> Vec2 {
    let half_lon = 0.5 * lon;
    let alpha = (lat.cos() * half_lon.cos()).clamp(-1.0, 1.0).acos();
    let d = if alpha.abs() < 1e-7 { 1.0 } else { alpha / alpha.sin() };
    let x = 0.5 * (lon * WINKEL_COS_PHI1 + 2.0 * lat.cos() * half_lon.sin() * d);
    let y = 0.5 * (lat + lat.sin() * d);
    Vec2::new(x, y)
}

/// Central differences of the projection: of x by longitude and latitude, then of y. Floating point.
fn winkel_slope(lon: f32, lat: f32) -> [f32; 4] {
    let eps = 1e-4;
    let fl = winkel_tripel(lon + eps, lat);
    let fr = winkel_tripel(lon - eps, lat);
    let fu = winkel_tripel(lon, lat + eps);
    let fd = winkel_tripel(lon, lat - eps);
    [
        (fl.x - fr.x) / (2.0 * eps),
        (fu.x - fd.x) / (2.0 * eps),
        (fl.y - fr.y) / (2.0 * eps),
        (fu.y - fd.y) / (2.0 * eps),
    ]
}

/// The determinant of a slope. Floating point.
fn winkel_det(j: [f32; 4]) -> f32 {
    j[0] * j[3] - j[1] * j[2]
}

/// Inverse Winkel Tripel: map (x, y) to (longitude, latitude) in radians, or `None` if the point is
/// off the map (or the iteration fails to converge).
pub fn winkel_tripel_inverse(x: f32, y: f32) -> Option<(f32, f32)> {
    let unpack = |c: (u32, u32)| (f32::from_bits(c.0), f32::from_bits(c.1));
    let by = Winkel {
        project: |c: (u32, u32)| {
            let (lon, lat) = unpack(c);
            let f = winkel_tripel(lon, lat);
            (f.x.to_bits(), f.y.to_bits())
        },
        miss: |place: (u32, u32), to: (u32, u32)| {
            let (f, t) = (unpack(place), unpack(to));
            let (dx, dy) = (f.0 - t.0, f.1 - t.1);
            (dx * dx + dy * dy).to_bits()
        },
        slope: |c: (u32, u32)| {
            let (lon, lat) = unpack(c);
            winkel_slope(lon, lat)
        },
        det: |j: [f32; 4]| winkel_det(j).to_bits(),
        newton: |j: [f32; 4], c: (u32, u32), place: (u32, u32), to: (u32, u32)| {
            let ((lon, lat), f, t) = (unpack(c), unpack(place), unpack(to));
            let (dx, dy, det) = (f.0 - t.0, f.1 - t.1, winkel_det(j));
            let lon = lon - (j[3] * dx - j[1] * dy) / det;
            let lat = lat - (-j[2] * dx + j[0] * dy) / det;
            (lon.to_bits(), lat.to_bits())
        },
    };
    invert(&by, x.to_bits(), y.to_bits()).map(unpack)
}

/// Orthographic view-projection that fits the whole map into a viewport of the given aspect ratio.
pub fn winkel_view_proj(aspect: f32) -> Mat4 {
    let hw = WINKEL_HALF_W * WINKEL_MARGIN;
    let hh = WINKEL_HALF_H * WINKEL_MARGIN;
    let map_aspect = hw / hh;
    let aspect = aspect.max(1e-3);
    let (vw, vh) = if aspect >= map_aspect { (hh * aspect, hh) } else { (hw, hw / aspect) };
    Mat4::orthographic_rh(-vw, vw, -vh, vh, -1.0, 1.0)
}

/// Up vector that stays stable except exactly at the poles.
fn stable_up(dir: Vec3) -> Vec3 {
    if dir.z.abs() > 0.999 { Vec3::Y } else { Vec3::Z }
}

/// Orbit camera that frames the whole planet.
#[derive(Clone, Copy, Debug)]
pub struct OrbitCamera {
    pub azimuth: f32,
    pub elevation: f32,
    pub distance: f32,
    pub fov_y: f32,
}

impl Default for OrbitCamera {
    fn default() -> Self {
        Self { azimuth: 0.0, elevation: 0.35, distance: 2.6, fov_y: 45f32.to_radians() }
    }
}

impl OrbitCamera {
    pub fn eye(&self) -> Vec3 {
        let (se, ce) = self.elevation.sin_cos();
        let (sa, ca) = self.azimuth.sin_cos();
        self.distance * Vec3::new(ce * ca, ce * sa, se)
    }

    pub fn view_proj(&self, aspect: f32) -> Mat4 {
        let eye = self.eye();
        let view = Mat4::look_at_rh(eye, Vec3::ZERO, stable_up(eye.normalize()));
        let proj = Mat4::perspective_rh(self.fov_y, aspect.max(1e-3), 0.05, 10.0);
        proj * view
    }
}

/// Close-up camera aimed at a target point on the surface.
#[derive(Clone, Copy, Debug)]
pub struct SurfaceCamera {
    pub target: Vec3,
    pub height: f32,
    pub fov_y: f32,
}

impl Default for SurfaceCamera {
    fn default() -> Self {
        Self { target: Vec3::X, height: 0.3, fov_y: 12f32.to_radians() }
    }
}

impl SurfaceCamera {
    pub fn eye(&self) -> Vec3 {
        self.target.normalize() * (1.0 + self.height)
    }

    /// Orthonormal surface frame at the target: (outward normal, east, north).
    pub fn basis(&self) -> (Vec3, Vec3, Vec3) {
        let n = self.target.normalize();
        let east = Vec3::Z.cross(n);
        let east = if east.length_squared() < 1e-8 { Vec3::X } else { east.normalize() };
        let north = n.cross(east);
        (n, east, north)
    }

    /// Move the target across the surface by small angles east / north.
    pub fn pan(&mut self, d_east: f32, d_north: f32) {
        let (n, east, north) = self.basis();
        self.target = (n + east * d_east + north * d_north).normalize();
    }

    /// Half-extent of the view's footprint on the surface.
    fn footprint_extent(&self) -> f32 {
        self.height * (self.fov_y * 0.5).tan()
    }

    /// A closed line loop outlining the region this camera frames.
    pub fn footprint_outline(&self, segments: usize) -> Vec<Vec3> {
        let (n, east, north) = self.basis();
        let s = self.footprint_extent();
        let lift = 1.004;
        let corner = |sx: f32, sy: f32| (n + east * (s * sx) + north * (s * sy)).normalize();
        let corners = (corner(-1.0, -1.0), corner(1.0, -1.0), corner(1.0, 1.0), corner(-1.0, 1.0));
        let along = |a: Vec3, b: Vec3, k: usize| {
            a.lerp(b, k as f32 / segments as f32).normalize() * lift
        };
        footprint_outline(&along, &|p: Vec3| p * lift, corners, segments)
    }

    pub fn view_proj(&self, aspect: f32) -> Mat4 {
        let surf = self.target.normalize();
        let eye = surf * (1.0 + self.height);
        let view = Mat4::look_at_rh(eye, surf, stable_up(surf));
        let proj = Mat4::perspective_rh(self.fov_y, aspect.max(1e-3), 0.01, 10.0);
        proj * view
    }
}

/// Intersect the ray through `ndc` with the unit sphere at the origin, returning the hit point
/// nearest the camera, or `None` if the ray misses.
pub fn ray_sphere(view_proj: Mat4, eye: Vec3, ndc: Vec2) -> Option<Vec3> {
    let inv = view_proj.inverse();
    let unproject = |z: f32| {
        let p = inv * Vec4::new(ndc.x, ndc.y, z, 1.0);
        p.truncate() / p.w
    };
    let near = unproject(0.0);
    let far = unproject(1.0);
    let dir = (far - near).normalize();
    let b = dir.dot(eye);
    let c = eye.length_squared() - 1.0;
    let disc = b * b - c;
    let roots = |disc: u32| {
        let sqrt_disc = f32::from_bits(disc).sqrt();
        ((-b - sqrt_disc).to_bits(), (-b + sqrt_disc).to_bits())
    };
    let at = |t: u32| (eye + dir * f32::from_bits(t)).normalize();
    first_hit(disc.to_bits(), &roots, &at)
}

/// The surface point under `ndc` on the flat map, or `None` off the map.
pub fn unproject_winkel(view_proj: Mat4, ndc: Vec2) -> Option<Vec3> {
    let p = view_proj.inverse() * Vec4::new(ndc.x, ndc.y, 0.5, 1.0);
    let (lon, lat) = winkel_tripel_inverse(p.x / p.w, p.y / p.w)?;
    Some(Vec3::new(lat.cos() * lon.cos(), lat.cos() * lon.sin(), lat.sin()))
}

// Views.

#[test]
fn winkel_inverse_roundtrips() {
    for i in -8..=8 {
        for j in -4..=4 {
            let lon = i as f32 / 9.0 * PI;
            let lat = j as f32 / 5.0 * FRAC_PI_2;
            let p = winkel_tripel(lon, lat);
            let (lon2, lat2) = winkel_tripel_inverse(p.x, p.y)
                .unwrap_or_else(|| panic!("no inverse for lon={lon} lat={lat}"));
            assert!((lon - lon2).abs() < 1e-3, "lon {lon} vs {lon2}");
            assert!((lat - lat2).abs() < 1e-3, "lat {lat} vs {lat2}");
        }
    }
    assert!(winkel_tripel_inverse(WINKEL_HALF_W + 1.0, 0.0).is_none());
}

#[test]
fn only_places_on_the_map_have_a_solution() {
    for bad in [f32::NAN, f32::INFINITY, f32::NEG_INFINITY] {
        assert_eq!(winkel_tripel_inverse(bad, 0.3), None);
        assert_eq!(winkel_tripel_inverse(0.3, bad), None);
    }
    assert_eq!(winkel_tripel_inverse(40.0, 40.0), None);
    for (x, y) in [(0.0f32, 0.0f32), (1.2, -0.7), (-2.0, 0.9)] {
        let (lon, lat) = winkel_tripel_inverse(x, y).unwrap();
        assert!(lon.abs() <= PI && lat.abs() <= FRAC_PI_2);
        assert!((winkel_tripel(lon, lat) - Vec2::new(x, y)).length_squared() < 1e-12);
    }
}

#[test]
fn center_ray_hits_point_facing_camera() {
    let cam = OrbitCamera::default();
    let hit = ray_sphere(cam.view_proj(1.5), cam.eye(), Vec2::ZERO)
        .expect("center of screen should hit the sphere");
    let facing = cam.eye().normalize();
    assert!(hit.dot(facing) > 0.999, "hit {hit:?} should face the camera");
}

#[test]
fn corner_ray_misses() {
    let cam = OrbitCamera::default();
    assert!(ray_sphere(cam.view_proj(1.0), cam.eye(), Vec2::new(1.0, 1.0)).is_none());
}

#[test]
fn surface_center_ray_hits_target() {
    let cam = SurfaceCamera::default();
    let hit = ray_sphere(cam.view_proj(1.0), cam.eye(), Vec2::ZERO)
        .expect("zoom center should hit the sphere");
    assert!(hit.dot(cam.target.normalize()) > 0.999);
}

#[test]
fn footprint_outline_is_a_closed_loop_above_the_surface() {
    let outline = SurfaceCamera::default().footprint_outline(12);
    assert_eq!(outline.len(), 49);
    assert!((outline[0] - outline[48]).length() < 1e-6);
    assert!(outline.iter().all(|p| (p.length() - 1.004).abs() < 1e-5));
    let lone = SurfaceCamera::default().footprint_outline(0);
    assert_eq!(lone.len(), 1);
}

#[test]
fn mesh_is_three_verts_per_triangle() {
    let g = build_grid(2000);
    let mesh = build_mesh(&g);
    assert_eq!(mesh.len() % 3, 0, "vertex count must be a multiple of 3");
    let edges: usize = (0..g.n)
        .map(|i| (g.ring_start[i + 1] - g.ring_start[i]) as usize)
        .sum();
    assert_eq!(mesh.len(), edges * 3);
    assert!(mesh.iter().all(|v| (v.cell as usize) < g.n));
}

#[test]
fn mesh_skips_cells_without_a_polygon() {
    let g = Grid {
        n: 2,
        centers: vec![Vec3::X, Vec3::Y],
        lonlat_deg: vec![Vec2::ZERO, Vec2::ZERO],
        areas: vec![1.0, 1.0],
        adj_start: vec![0, 0, 0],
        adj: vec![],
        adj_weight: vec![],
        ring_start: vec![0, 2, 5],
        ring_verts: vec![Vec3::X, Vec3::Y, Vec3::X, Vec3::Y, Vec3::Z],
    };
    let mesh = build_mesh(&g);
    assert_eq!(mesh.len(), 9);
    let want = [Vec3::Y, Vec3::X, Vec3::Y, Vec3::Y, Vec3::Y, Vec3::Z, Vec3::Y, Vec3::Z, Vec3::X];
    for (v, p) in mesh.iter().zip(want) {
        assert_eq!(v.pos, p);
        assert_eq!(v.cell, 1);
    }
}

#[test]
fn arrows_are_line_segments_above_the_surface() {
    let g = build_grid(2000);
    let vel: Vec<Vec3> = g.centers.iter().map(|&p| Vec3::Z.cross(p)).collect();
    let arrows = build_arrows(&g, &vel, 200);
    assert!(!arrows.is_empty());
    // Three segments per arrow: 6 vertices.
    assert_eq!(arrows.len() % 6, 0);
    assert!(arrows.iter().all(|p| (p.length() - OVERLAY_RADIUS).abs() < 1e-4));
    assert!(build_arrows(&g, &Vec::new(), 200).is_empty());
}

#[test]
fn arrows_take_a_field_beyond_the_grid() {
    let g = build_grid(300);
    let mut vel: Vec<Vec3> = g.centers.iter().map(|&p| Vec3::Z.cross(p)).collect();
    let arrows = build_arrows(&g, &vel, 50);
    vel.push(Vec3::X);
    assert_eq!(build_arrows(&g, &vel, 50), arrows);
    // Only the cells that are sampled need a velocity.
    let last = *arrow_sample_cells(&g, 50).iter().max().unwrap() as usize;
    assert_eq!(build_arrows(&g, &vel[..=last].to_vec(), 50), arrows);
    vel[0] = Vec3::splat(f32::NAN);
    assert!(build_arrows_at(&g, &vel, &vec![0]).iter().all(|p| p.is_nan()));
}

#[test]
fn samples_are_distinct_and_nearest() {
    let g = build_grid(300);
    let samples = arrow_sample_cells(&g, 200);
    assert!(samples.len() <= 200);
    let mut sorted = samples.clone();
    sorted.sort();
    sorted.dedup();
    assert_eq!(sorted.len(), samples.len());
    for i in 0..g.n {
        assert_eq!(nearest_cell(&g, g.centers[i]), i);
    }
    assert!(arrow_sample_cells(&g, 0).is_empty());
    assert_eq!(arrow_sample_cells(&g, 5000).len(), 300);
}

#[test]
fn arrows_of_a_still_field_are_none() {
    let g = build_grid(100);
    let samples = arrow_sample_cells(&g, 20);
    assert!(build_arrows_at(&g, &vec![Vec3::ZERO; 100], &samples).is_empty());
    assert!(build_arrows_at(&g, &vec![Vec3::X; 100], &Vec::new()).is_empty());
    let centers = build_cell_centers(&g);
    assert_eq!(centers.len(), 100);
    assert_eq!(centers[7].y, g.lonlat_deg[7].y.to_radians());
}

#[test]
fn orbit_eye_is_at_distance() {
    let c = OrbitCamera::default();
    assert!((c.eye().length() - c.distance).abs() < 1e-5);
}

#[test]
fn matrices_are_finite() {
    let vp = OrbitCamera::default().view_proj(1.5);
    assert!(vp.to_cols_array().iter().all(|x| x.is_finite()));
    let vp2 = SurfaceCamera::default().view_proj(1.5);
    assert!(vp2.to_cols_array().iter().all(|x| x.is_finite()));
    assert!(winkel_view_proj(1.6).to_cols_array().iter().all(|x| x.is_finite()));
}
