//! The library on small, exact inputs.

use ecology_simulator::engine::{
    frame_time, lens, pick_info, spread_seed, Controls, Lens, DEFAULT_TIME_SCALE, MAX_FRAME, PLATE_SEED,
};
use ecology_simulator::fold::fold;
use ecology_simulator::grid::voronoi::Tessellation;
use ecology_simulator::grid::{Fan, Grid};
use ecology_simulator::order::{at_most, below, number, stable_order, total_key, value_key, INFINITY, ONE};
use ecology_simulator::queue::{Entry, Queue};
use ecology_simulator::render::camera::{
    clamped, footprint_outline, winkel_tripel_inverse, Winkel, EAST, EAST_RAIL, NEWTON_STEPS, NORTH, NORTH_RAIL,
    SINGULAR, SOUTH, TOLERANCE, WEST,
};
use ecology_simulator::render::pick::ray_sphere;
use ecology_simulator::render::view::{
    attempt, frame_action, Acquired, Attempt, DrawPlan, FrameAction, Power, Scene,
};
use ecology_simulator::render::{Layer, Projection};
use ecology_simulator::rng::Rng;
use ecology_simulator::sim::elevation::{draw_waves, floored, Crust};
use ecology_simulator::sim::flood::{rock_surface, Flood, Measure};
use ecology_simulator::sim::growth::{Growth, UNASSIGNED};
use ecology_simulator::sim::influence::{influence, set_source};
use ecology_simulator::sim::margin::{effect, BoundaryKind, Effect, Margins, Motion};
use ecology_simulator::sim::temperature::Beam;
use ecology_simulator::sim::terrain::{PlateDraw, SizeDraw, SizeModel, Terrain, Weighing};
use ecology_simulator::sim::weather::Arith;
use ecology_simulator::sim::wind::{
    band, gradient_factor, layer_height, zonal_means, zone, Contrast, Zone, Zones, ZONAL_BANDS,
};

/// A line of cells, each next to the one before and the one after; positions and coordinates are
/// the cells' numbers.
fn line(n: usize) -> Grid<i64, i64, i64> {
    let mut adj = Vec::new();
    let mut adj_start = vec![0u32];
    for i in 0..n {
        if i > 0 {
            adj.push(i as u32 - 1);
        }
        if i + 1 < n {
            adj.push(i as u32 + 1);
        }
        adj_start.push(adj.len() as u32);
    }
    Grid {
        n,
        centers: (0..n as i64).collect(),
        lonlat_deg: (0..n as i64).collect(),
        areas: vec![1; n],
        adj_weight: vec![1; adj.len()],
        adj,
        adj_start,
        ring_start: vec![0; n + 1],
        ring_verts: vec![],
    }
}

fn bits(x: f32) -> u32 {
    x.to_bits()
}

fn check_edges(high: u32, low: u32, edge: f32) {
    assert_eq!((unpack(high), unpack(low)), (edge, -edge));
}

fn unpack(b: u32) -> f32 {
    f32::from_bits(b)
}

#[test]
fn generator_draws_the_known_stream() {
    let mut rng = Rng::new(0);
    assert_eq!(rng.next_u64(), 0xE220_A839_7B1D_CDAF);
    assert_eq!(rng.next_u64(), 0x6E78_9E6A_A1B9_65F4);
    assert_eq!(rng.next_u64(), 0x06C4_5D18_8009_454F);
    let mut again = Rng::new(0);
    assert_eq!(again.unit_draw(), 0xE220A8);
    assert_eq!(again.index_below(10), (0x6E78_9E6A_A1B9_65F4u64 % 10) as usize);
}

#[test]
fn different_states_draw_different_words() {
    let mut seen: Vec<u64> = (0..500u64).map(|s| Rng::new(s).next_u64()).collect();
    seen.sort();
    seen.dedup();
    assert_eq!(seen.len(), 500);
}

#[test]
fn draws_follow_the_stream_in_order() {
    let mut a = Rng::new(9);
    let mut b = Rng::new(9);
    let words: Vec<u64> = (0..12).map(|_| b.next_u64()).collect();
    match SizeModel::Pareto(2u8).draw(&mut a) {
        SizeDraw::Pareto { exponent, u } => {
            assert_eq!(exponent, 2);
            assert_eq!(u as u64, words[0] >> 40);
        }
        _ => panic!("a Pareto model draws a Pareto weight"),
    }
    match SizeModel::Lognormal(5u8).draw(&mut a) {
        SizeDraw::Lognormal { sigma, u1, u2 } => {
            assert_eq!(sigma, 5);
            assert_eq!(u1 as u64, words[1] >> 40);
            assert_eq!(u2 as u64, words[2] >> 40);
        }
        _ => panic!("a lognormal model draws a lognormal weight"),
    }
    let plate = PlateDraw::draw(&mut a);
    assert_eq!(plate.z as u64, words[3] >> 40);
    assert_eq!(plate.theta as u64, words[4] >> 40);
    assert_eq!(plate.magnitude as u64, words[5] >> 40);
    assert_eq!(plate.forward, words[6] & 1 == 0);
}

#[test]
fn waves_are_drawn_band_by_band() {
    let mut a = Rng::new(3);
    let mut b = Rng::new(3);
    let waves = draw_waves(&mut a, 2, 3);
    assert_eq!(waves.len(), 6);
    for (m, w) in waves.iter().enumerate() {
        assert_eq!(w.octave as usize, m / 3);
        assert_eq!(w.z, b.unit_draw());
        assert_eq!(w.theta, b.unit_draw());
        assert_eq!(w.phase, b.unit_draw());
    }
    assert_eq!(a.next_u64(), b.next_u64());
    assert!(draw_waves(&mut a, 4, 0).is_empty());
}

#[test]
fn keys_compare_as_reals_do() {
    let xs = [-f32::INFINITY, -8000.0, -1.5, -1e-40, -0.0, 0.0, 1e-40, 0.04, 1.0, 3e38, f32::INFINITY];
    for a in xs {
        for b in xs {
            assert_eq!(value_key(bits(a)) < value_key(bits(b)), a < b, "{a} {b}");
            assert_eq!(value_key(bits(a)) == value_key(bits(b)), a == b, "{a} {b}");
            assert_eq!(
                total_key(bits(a)).cmp(&total_key(bits(b))),
                a.total_cmp(&b),
                "{a} {b}",
            );
        }
    }
}

#[test]
fn comparisons_are_those_of_reals() {
    let xs = [f32::NEG_INFINITY, -2.5, -0.0, 0.0, 1.0e-40, 1.0, f32::INFINITY, f32::NAN, -f32::NAN];
    for a in xs {
        for b in xs {
            assert_eq!(below(bits(a), bits(b)), a < b, "{a} < {b}");
            assert_eq!(at_most(bits(a), bits(b)), a <= b, "{a} <= {b}");
        }
        assert_eq!(number(bits(a)), !a.is_nan());
    }
}

#[test]
fn stable_order_keeps_equal_keys_in_place() {
    assert_eq!(stable_order(&vec![3, 1, 2, 1, 3, -5]), vec![5, 1, 3, 2, 0, 4]);
    assert_eq!(stable_order(&vec![]), Vec::<usize>::new());
    let keys: Vec<i32> = (0..100).map(|i| (i * 37) % 11).collect();
    let mut want: Vec<usize> = (0..100).collect();
    want.sort_by_key(|&i| keys[i]);
    assert_eq!(stable_order(&keys), want);
}

#[test]
fn folds_run_left_to_right() {
    assert_eq!(fold(&|t: i64, a: i64| 10 * t + a, 7, &vec![1, 2, 3]), 7123);
}

#[test]
fn queue_gives_the_nearest_first() {
    let e = |dist: u32, cell: u32, intensity: u32| Entry { dist, cell, intensity };
    let mut q = Queue::new();
    assert_eq!(q.pop(), None);
    for x in [e(5, 1, 0), e(2, 9, 0), e(2, 3, 1), e(7, 0, 0), e(0, 4, 2), e(2, 3, 0)] {
        q.push(x);
    }
    let mut out = Vec::new();
    while let Some(x) = q.pop() {
        out.push(x);
    }
    assert_eq!(
        out,
        vec![e(0, 4, 2), e(2, 3, 0), e(2, 3, 1), e(2, 9, 0), e(5, 1, 0), e(7, 0, 0)],
    );
}

#[test]
fn assembling_a_tessellation_drops_spare_centers() {
    let t = Tessellation::assemble(
        3,
        vec![10, 20, 30],
        vec![[0, 1, 2], [2, 1, 0]],
        vec![(2, vec![0, 1]), (7, vec![1]), (0, vec![1]), (0, vec![2])],
    );
    assert_eq!(t.centers, vec![10, 20]);
    assert_eq!(t.neighbors, vec![vec![2], vec![], vec![0, 1]]);
    assert_eq!(t.incidence(3), vec![vec![0, 1], vec![0, 1], vec![0, 1]]);
}

#[test]
fn a_grid_orders_its_rings_and_drops_self_links() {
    let tess = Tessellation::assemble(
        3,
        vec![30i64, 10, 20],
        vec![[0, 1, 2], [0, 1, 2], [0, 2, 2]],
        vec![(0, vec![1, 0, 2]), (1, vec![0]), (2, vec![])],
    );
    let fan = Fan {
        zero: 0i64,
        sector: |sum: i64, c: i64, a: i64, b: i64| 100 * sum + c + a / 10 + b / 10,
        whole: |sum: i64| sum + 1,
    };
    let g = Grid::new(
        vec![0i64, 1, 2],
        vec![(), (), ()],
        &tess,
        &|_cell: usize, p: i64| p as i32,
        &fan,
        &|i: usize, j: usize, e: Option<(i64, i64)>| match e {
            Some((a, b)) => a + b,
            None => (i * 10 + j) as i64,
        },
    );
    // Cell 0 meets all three triangles, whose vertices are ordered by azimuth.
    assert_eq!(g.ring(0), &[10, 20, 30]);
    assert_eq!(g.ring(1), &[10, 30]);
    assert_eq!(g.ring(2), &[10, 20, 20, 30]);
    // The fan closes from the last corner back to the first.
    assert_eq!(g.areas[0], (100 * (100 * (1 + 2) + (2 + 3)) + (3 + 1)) + 1);
    assert_eq!(g.neighbors(0), &[1, 2]);
    assert_eq!(g.neighbors(1), &[0]);
    assert!(g.neighbors(2).is_empty());
    // Two triangles share the edge 0-1; three share 0-2, which is degenerate.
    assert_eq!(g.neighbor_weights(0), &[40, 2]);
    assert_eq!(g.neighbor_weights(1), &[40]);
}

#[test]
fn nearest_cell_is_the_first_of_the_closest() {
    let g = line(6);
    let closeness = |a: i64, b: i64| bits(-((a - b).abs() as f32));
    assert_eq!(g.nearest_cell(4, &closeness), 4);
    assert_eq!(g.nearest_cell(-3, &closeness), 0);
    let flat = |_a: i64, _b: i64| bits(1.0);
    assert_eq!(g.nearest_cell(4, &flat), 0);
}

#[test]
fn planting_and_growing_claim_cells_once() {
    let g = line(8);
    let mut growth = Growth::plant(&g, 2, Rng::new(1));
    let seeds: Vec<usize> = (0..8).filter(|&c| growth.plate_id[c] != UNASSIGNED).collect();
    assert_eq!(seeds.len(), 2);
    let before = growth.plate_id.clone();
    for _ in 0..40 {
        let mask = growth.growing();
        for p in 0..2 {
            if mask[p] {
                growth.grow_plate(&g, p);
            }
        }
    }
    assert_eq!(growth.growing(), vec![false, false]);
    let ids = growth.settle();
    // Claims are final, every cell is claimed, and each plate is one stretch of the line.
    for c in seeds {
        assert_eq!(ids[c], before[c]);
    }
    assert!(growth.plate_id.iter().all(|&p| p < 2));
    assert_eq!(ids.windows(2).filter(|w| w[0] != w[1]).count(), 1);
}

#[test]
fn strays_go_to_the_first_plate() {
    let mut g = line(4);
    // Cut the line in two: nothing leads from the first half to the second.
    g.adj = vec![1, 0, 3, 2];
    g.adj_start = vec![0, 1, 2, 3, 4];
    g.adj_weight = vec![1; 4];
    let weigh = |_d: SizeDraw<u8>| 1i64;
    let by = Weighing {
        zero: 0i64,
        plus: |a: i64, b: i64| a + b,
        minus: |a: i64, b: i64| a - b,
        share: |u: u32, t: i64| (u as i64 * t) >> 24,
        positive: |x: i64| x > 0,
    };
    let motion = |d: PlateDraw| d.forward;
    let velocity_at = |m: bool, p: i64| if m { p } else { -p };
    let t = Terrain::generate_with(&g, 1, 4, SizeModel::Pareto(1u8), &weigh, &by, &motion, &velocity_at);
    assert_eq!(t.plate_id, vec![0, 0, 0, 0]);
    let sign = if t.plates[0] { 1 } else { -1 };
    assert_eq!(t.velocity, vec![0, sign, 2 * sign, 3 * sign]);
    let again = Terrain::generate_with(&g, 1, 4, SizeModel::Pareto(1u8), &weigh, &by, &motion, &velocity_at);
    assert_eq!(again.plates, t.plates);
    let none = Terrain::<u8, u8>::empty();
    assert!(none.plate_id.is_empty() && none.plates.is_empty() && none.velocity.is_empty());
}

#[test]
fn weightless_plates_do_not_grow() {
    let g = line(5);
    let weigh = |_d: SizeDraw<u8>| 0i64;
    let by = Weighing {
        zero: 0i64,
        plus: |a: i64, b: i64| a + b,
        minus: |a: i64, b: i64| a - b,
        share: |_u: u32, t: i64| t,
        positive: |x: i64| x > 0,
    };
    let t = Terrain::generate_with(
        &g,
        3,
        8,
        SizeModel::Lognormal(1u8),
        &weigh,
        &by,
        &|_d: PlateDraw| 0u8,
        &|_m: u8, p: i64| p,
    );
    // The three seeds keep their cells; the rest is left over and goes to plate 0.
    assert_eq!(t.plate_id.iter().filter(|&&p| p == 1).count(), 1);
    assert_eq!(t.plate_id.iter().filter(|&&p| p == 2).count(), 1);
    assert_eq!(t.plate_id.iter().filter(|&&p| p == 0).count(), 3);
}

#[test]
fn sources_keep_the_strongest_intensity() {
    let mut s = Vec::new();
    set_source(&mut s, 3, 5);
    set_source(&mut s, 1, 0);
    set_source(&mut s, 3, 4);
    set_source(&mut s, 2, 7);
    set_source(&mut s, 3, 9);
    assert_eq!(s, vec![(3, 9), (2, 7)]);
}

#[test]
fn intensities_at_or_below_zero_are_no_sources() {
    let mut s = Vec::new();
    for x in [-1.0, -0.0, 0.0, f32::NEG_INFINITY] {
        set_source(&mut s, 4, bits(x));
    }
    assert!(s.is_empty());
    set_source(&mut s, 4, bits(0.5));
    set_source(&mut s, 4, bits(-2.0));
    assert_eq!(s, vec![(4, bits(0.5))]);
    let g = line(4);
    let extend = |d: u32, p: i64, q: i64| bits(unpack(d) + (p - q).abs() as f32);
    let bad = vec![(0usize, bits(-1.0)), (1, bits(-0.0)), (2, 0)];
    let out = influence(&g, &bad, bits(9.0), &extend);
    assert!(out.dist.iter().all(|&d| d == INFINITY));
    assert!(out.intensity.iter().all(|&i| i == 0));
    let mixed = vec![(0usize, bits(-1.0)), (3, bits(0.25))];
    let out = influence(&g, &mixed, bits(9.0), &extend);
    assert_eq!(out.dist, vec![bits(3.0), bits(2.0), bits(1.0), 0]);
    assert!(out.intensity.iter().all(|&i| i == bits(0.25)));
}

#[test]
fn an_intensity_that_is_no_number_brings_nothing() {
    let nan = bits(f32::NAN);
    let mut s = Vec::new();
    set_source(&mut s, 2, nan);
    assert_eq!(s, vec![(2, nan)]);
    // A number replaces it, and it replaces no number.
    set_source(&mut s, 2, bits(0.5));
    set_source(&mut s, 2, nan);
    assert_eq!(s, vec![(2, bits(0.5))]);
    let g = line(4);
    let extend = |d: u32, p: i64, q: i64| bits(unpack(d) + (p - q).abs() as f32);
    let out = influence(&g, &vec![(0usize, nan), (3, bits(0.25))], bits(9.0), &extend);
    assert_eq!(out.dist, vec![0, bits(1.0), bits(1.0), 0]);
    assert_eq!(out.intensity, vec![0, 0, bits(0.25), bits(0.25)]);
}

#[test]
fn influence_reaches_the_nearest_source_within_the_bound() {
    let g = line(10);
    let extend = |d: u32, p: i64, q: i64| bits(unpack(d) + (p - q).abs() as f32);
    let sources = vec![(0usize, bits(0.25)), (7, bits(0.5)), (9, 0)];
    let out = influence(&g, &sources, bits(3.0), &extend);
    let dist: Vec<f32> = out.dist.iter().map(|&d| unpack(d)).collect();
    let inf = f32::INFINITY;
    assert_eq!(dist, vec![0.0, 1.0, 2.0, 3.0, 3.0, 2.0, 1.0, 0.0, 1.0, 2.0]);
    let intensity: Vec<f32> = out.intensity.iter().map(|&d| unpack(d)).collect();
    assert_eq!(intensity, vec![0.25, 0.25, 0.25, 0.25, 0.5, 0.5, 0.5, 0.5, 0.5, 0.5]);
    let short = influence(&g, &sources, bits(1.0), &extend);
    assert_eq!(unpack(short.dist[2]), inf);
    assert_eq!(short.intensity[2], 0);
    assert_eq!(short.dist[3], INFINITY);
    let none = influence(&g, &Vec::new(), bits(9.0), &extend);
    assert!(none.dist.iter().all(|&d| d == INFINITY));
    let again = influence(&g, &sources, bits(3.0), &extend);
    assert_eq!(again.dist, out.dist);
    assert_eq!(again.intensity, out.intensity);
}

#[test]
fn margins_are_told_apart_by_their_closing_rate() {
    let m = |closing: f32, shear: f32| Motion { closing: bits(closing), shear: bits(shear) };
    assert_eq!(m(0.041, 2.0).kind(), BoundaryKind::Convergent);
    assert_eq!(m(0.04, 2.0).kind(), BoundaryKind::Transform);
    assert_eq!(m(-0.04, 2.0).kind(), BoundaryKind::Transform);
    assert_eq!(m(-0.041, 2.0).kind(), BoundaryKind::Divergent);
    assert_eq!(m(-3.0, 2.0).speed(), bits(3.0));
    assert_eq!(m(-1.0, 2.0).speed(), bits(2.0));
    assert_eq!(m(-3.0, 2.0).rate(), ONE);
    assert_eq!(m(-0.5, 2.0).rate(), bits(0.5));
    let (land, sea) = (bits(0.9), bits(0.1));
    assert_eq!(effect(BoundaryKind::Convergent, land, land), Some(Effect::Orogeny));
    assert_eq!(effect(BoundaryKind::Convergent, land, sea), Some(Effect::Orogeny));
    assert_eq!(effect(BoundaryKind::Convergent, sea, land), Some(Effect::Trench));
    assert_eq!(effect(BoundaryKind::Divergent, sea, land), Some(Effect::Ridge));
    assert_eq!(effect(BoundaryKind::Divergent, land, sea), Some(Effect::Rift));
    assert_eq!(effect(BoundaryKind::Transform, land, sea), None);
    assert_eq!(BoundaryKind::Interior.index(), 0);
    assert_eq!(BoundaryKind::Transform.index(), 3);
}

#[test]
fn boundaries_are_classified_by_their_fastest_margin() {
    let g = line(5);
    let plate_id = vec![0u32, 0, 1, 2, 2];
    let velocity = vec![0.0f32, 0.0, -0.5, 0.25, 0.0];
    let fraction = vec![bits(0.9), bits(0.9), bits(0.1), bits(0.1), bits(0.1)];
    let motion = |p: i64, q: i64, v: f32, w: f32| {
        if p + q == 7 {
            return None;
        }
        let closing = (v - w) * (q - p) as f32;
        Some(Motion { closing: bits(closing), shear: 0 })
    };
    let m = Margins::classify(&g, &plate_id, &velocity, &fraction, &motion);
    assert_eq!(
        m.boundary,
        vec![
            BoundaryKind::Interior,
            BoundaryKind::Convergent,
            BoundaryKind::Divergent,
            BoundaryKind::Divergent,
            BoundaryKind::Interior,
        ],
    );
    // Cell 2 first subducts under cell 1, then opens faster towards cell 3.
    assert_eq!(m.orogeny, vec![(1, bits(0.5))]);
    assert_eq!(m.trench, vec![(2, bits(0.5))]);
    assert_eq!(m.ridge, vec![(2, bits(0.75)), (3, bits(0.75))]);
    assert!(m.rift.is_empty());
}

#[test]
fn a_boundary_at_rest_is_a_transform() {
    let g = line(4);
    let fraction = vec![bits(0.9); 4];
    let kinds = |plate_id: Vec<u32>, between: Option<Motion>| {
        let motion = |_p: i64, _q: i64, _v: i64, _w: i64| between;
        Margins::classify(&g, &plate_id, &vec![0i64; 4], &fraction, &motion)
    };
    let (inside, slip) = (BoundaryKind::Interior, BoundaryKind::Transform);
    let still = Some(Motion { closing: 0, shear: 0 });
    let lost = Some(Motion { closing: bits(f32::NAN), shear: bits(f32::NAN) });
    for between in [None, still, lost] {
        let m = kinds(vec![0, 0, 1, 1], between);
        assert_eq!(m.boundary, vec![inside, slip, slip, inside]);
        assert!(m.orogeny.is_empty() && m.trench.is_empty());
        assert!(m.ridge.is_empty() && m.rift.is_empty());
        assert_eq!(kinds(vec![2; 4], between).boundary, vec![inside; 4]);
    }
}

#[test]
fn the_first_of_the_fastest_margins_sets_the_kind() {
    let g = line(3);
    let fraction = vec![bits(0.1); 3];
    let plate_id = vec![0u32, 1, 2];
    let kind = |left: f32, right: f32| {
        let motion = move |p: i64, q: i64, _v: i64, _w: i64| {
            let closing = if p + q == 1 { left } else { right };
            Some(Motion { closing: bits(closing), shear: 0 })
        };
        Margins::classify(&g, &plate_id, &vec![0i64; 3], &fraction, &motion).boundary[1]
    };
    assert_eq!(kind(1.0, -1.0), BoundaryKind::Convergent);
    assert_eq!(kind(-1.0, 1.0), BoundaryKind::Divergent);
    assert_eq!(kind(1.0, -1.5), BoundaryKind::Divergent);
    assert_eq!(kind(0.01, 0.5), BoundaryKind::Convergent);
    // The boundary list may be read beyond the grid.
    let longer = vec![0u32, 1, 2, 9];
    let motion = |_p: i64, _q: i64, _v: i64, _w: i64| None;
    let m = Margins::classify(&g, &longer, &vec![0i64; 5], &fraction, &motion);
    assert_eq!(m.boundary, vec![BoundaryKind::Transform; 3]);
}

#[test]
fn area_quantile_cuts_at_the_goal() {
    let areas = vec![1i64, 2, 3, 4];
    let values = vec![bits(5.0), bits(-2.0), bits(0.5), bits(9.0)];
    let quantile = |goal: i64| {
        Measure {
            areas: &areas,
            zero: 0i64,
            plus: |t: i64, a: i64| t + a,
            goal: |_all: i64| goal,
            met: |acc: i64, target: i64| acc >= target,
        }
        .area_quantile(&values)
    };
    // In ascending order: -2 (area 2), 0.5 (3), 5 (1), 9 (4).
    assert_eq!(unpack(quantile(0)), -2.0);
    assert_eq!(unpack(quantile(2)), -2.0);
    assert_eq!(unpack(quantile(3)), 0.5);
    assert_eq!(unpack(quantile(6)), 5.0);
    assert_eq!(unpack(quantile(7)), 9.0);
    assert_eq!(unpack(quantile(99)), 9.0);
    let none: Vec<i64> = vec![];
    let empty = Measure {
        areas: &none,
        zero: 0i64,
        plus: |t: i64, a: i64| t + a,
        goal: |all: i64| all,
        met: |acc: i64, target: i64| acc >= target,
    };
    assert_eq!(empty.area_quantile(&vec![]), 0);
}

#[test]
fn sea_level_holds_the_water() {
    let areas = vec![1.0f32, 1.0, 2.0];
    let heights = vec![bits(0.0), bits(10.0), bits(20.0)];
    let level = |target: f64| {
        let flood = Flood {
            areas: &areas,
            zero: 0.0f64,
            loaded: |e: u32, _s: u32| e,
            pour: |v: f64, s: u32, r: u32, a: f32| v + (unpack(s) - unpack(r)) as f64 * a as f64,
            short: |v: f64| v < target,
            open: |lo: u32, hi: u32| unpack(hi) < unpack(lo) + 1.0e6,
            raise: |lo: u32, hi: u32| bits(unpack(hi) + (unpack(hi) - unpack(lo)).max(1000.0)),
            middle: |lo: u32, hi: u32| bits(0.5 * (unpack(lo) + unpack(hi))),
        };
        unpack(flood.solve_sea_level(&heights))
    };
    assert!((level(5.0) - 5.0).abs() < 1e-4);
    assert!((level(20.0) - 15.0).abs() < 1e-4);
    // More water than the topography holds below its peak: everything drowns.
    assert!((level(70.0) - 30.0).abs() < 1e-3);
    assert!((level(430.0) - 120.0).abs() < 1e-3);
    let flood = Flood {
        areas: &areas,
        zero: 0.0f64,
        loaded: |e: u32, _s: u32| e,
        pour: |v: f64, s: u32, r: u32, a: f32| v + (unpack(s) - unpack(r)) as f64 * a as f64,
        short: |v: f64| v < 1.0,
        open: |_lo: u32, _hi: u32| false,
        raise: |_lo: u32, hi: u32| hi,
        middle: |lo: u32, hi: u32| bits(0.5 * (unpack(lo) + unpack(hi))),
    };
    assert_eq!(flood.water_volume_at(&heights, bits(15.0)), 20.0);
    assert_eq!(flood.water_volume_at(&heights, bits(-1.0)), 0.0);
    // The sea at the lowest column is empty.
    assert_eq!(flood.water_volume_at(&heights, bits(0.0)), 0.0);
    // The volume never falls as the sea rises.
    let volumes: Vec<f64> =
        (-4..60).map(|s| flood.water_volume_at(&heights, bits(0.5 * s as f32))).collect();
    assert!(volumes.windows(2).all(|w| w[0] <= w[1]));
}

#[test]
fn submerged_columns_ride_lower() {
    let loaded = |e: u32, s: u32| bits(unpack(e) - 0.5 * (unpack(s) - unpack(e)));
    assert_eq!(unpack(rock_surface(&loaded, bits(3.0), bits(2.0))), 3.0);
    assert_eq!(unpack(rock_surface(&loaded, bits(2.0), bits(2.0))), 2.0);
    assert_eq!(unpack(rock_surface(&loaded, bits(1.0), bits(2.0))), 0.5);
    assert_eq!(unpack(rock_surface(&loaded, bits(-1.0), bits(-0.5))), -1.25);
}

#[test]
fn floors_replace_what_is_no_number() {
    assert_eq!(unpack(floored(bits(3.0), bits(4.0))), 4.0);
    assert_eq!(unpack(floored(bits(5.0), bits(4.0))), 5.0);
    assert_eq!(unpack(floored(bits(-1.0), bits(0.0))), 0.0);
    assert_eq!(unpack(floored(bits(f32::NAN), bits(4.0))), 4.0);
}

#[test]
fn an_empty_crust_has_nothing() {
    let c = Crust::empty();
    assert!(c.elevation.is_empty() && c.boundary.is_empty() && c.thickness_km.is_empty());
    assert_eq!((c.sea_level, c.land_fraction), (0, 0));
}

#[test]
fn a_column_conserves_energy() {
    // Exact arithmetic in thousandths.
    let beam = Beam {
        zero: 0i64,
        pass: |tau: i64, x: i64, b: i64| tau * x / 1000 + b,
        keep: |e: i64, up: i64, down: i64, b: i64| e * (up + down) / 1000 - 2 * b,
    };
    let glow = 8_000_000;
    let b = vec![2_000_000, 1_000_000];
    let emis = vec![500, 250];
    let tau = vec![500, 750];
    let (net, down) = beam.longwave_column(glow, &b, &emis, &tau);
    // Up: 8000, 6000, 5500 thousands; down: 0, 1000, 2500 thousands.
    assert_eq!(down, 2_500_000);
    assert_eq!(net, vec![500_000, -500_000]);
    let to_space = 5_500_000;
    assert_eq!(net.iter().sum::<i64>() + (down - glow), -to_space);
}

#[test]
fn a_profile_keeps_the_whole() {
    // Weights 1, 1/2, 1/4 in quarters.
    let arith = Arith {
        zero: 0i64,
        one: 4,
        plus: |a: i64, b: i64| a + b,
        times: |a: i64, b: i64| a * b / 4,
        scale: |whole: i64, sum: i64| if sum > 0 { 4 * whole / sum } else { 0 },
    };
    assert_eq!(arith.geometric_profile(70, 2, 3), vec![40, 20, 10]);
    assert_eq!(arith.geometric_profile(70, 2, 0), Vec::<i64>::new());
}

#[test]
fn heights_span_the_column() {
    assert_eq!(layer_height(0, 1), (0, 1));
    assert_eq!(layer_height(0, 4), (0, 3));
    assert_eq!(layer_height(2, 4), (2, 3));
    assert_eq!(layer_height(3, 4), (3, 3));
}

#[test]
fn zones_and_bands_have_sharp_edges() {
    assert_eq!(zone(bits(14.99)), Zone::Equator);
    assert_eq!(zone(bits(15.0)), Zone::Between);
    assert_eq!(zone(bits(75.0)), Zone::Between);
    assert_eq!(zone(bits(75.01)), Zone::Pole);
    assert_eq!(zone(bits(f32::NAN)), Zone::Between);
    assert_eq!(zone(bits(-f32::NAN)), Zone::Between);
    assert_eq!(band(0), 0);
    assert_eq!(band(59), 59);
    assert_eq!(band(60), 59);
}

#[test]
fn gradient_compares_equator_and_poles() {
    let mut g = line(4);
    let by = Contrast {
        zero: (0i64, 0i64),
        one: 1i64,
        latitude: |l: i64| bits(l as f32),
        gather: |sum: (i64, i64), t: i64, a: i64| (sum.0 + t * a, sum.1 + a),
        void: |sum: (i64, i64)| sum.1 <= 0,
        ratio: |eq: (i64, i64), pole: (i64, i64)| eq.0 / eq.1 - pole.0 / pole.1,
    };
    g.lonlat_deg = vec![0, 40, 80, 10];
    g.areas = vec![1, 1, 1, 3];
    assert_eq!(gradient_factor(&g, &vec![30, 99, 5, 10], &by), 15 - 5);
    g.lonlat_deg = vec![0, 40, 50, 10];
    assert_eq!(gradient_factor(&g, &vec![30, 99, 5, 10], &by), 1);
}

#[test]
fn bands_gather_their_own_cells() {
    let mut g = line(4);
    g.areas = vec![1, 2, 3, 4];
    let zones = Zones {
        zero: 0i64,
        band: |p: i64| if p == 3 { 100 } else { (p % 2) as usize },
        join: |k: i64, b: i64, p: i64, v: i64, w: i64, a: i64| b + k * a * (v + w) + p,
        mean: |b: i64| -b,
    };
    let (raws, means) = zonal_means(&g, &vec![1, 1, 1, 1], &vec![0, 0, 0, 1], &zones, 10);
    assert_eq!(raws, vec![0, 1, 0, 100]);
    assert_eq!(means.len(), ZONAL_BANDS);
    assert_eq!(means[0], -(10 + 30 + 2));
    assert_eq!(means[1], -(20 + 1));
    assert_eq!(means[2], 0);
    assert_eq!(means[59], -(10 * 4 * 2 + 3));
}

#[test]
fn ids_name_projections_and_layers() {
    assert_eq!(Projection::from_str("sphere"), Some(Projection::Sphere));
    assert_eq!(Projection::from_str("winkel"), Some(Projection::WinkelTripel));
    assert_eq!(Projection::from_str("Sphere"), None);
    assert_eq!(Projection::from_str(""), None);
    assert_eq!(Projection::default(), Projection::Sphere);
    assert_eq!(Projection::Sphere.index(), 0);
    assert_eq!(Projection::WinkelTripel.index(), 1);
    assert_eq!(Layer::from_str("temperature"), Some(Layer::Temperature));
    assert_eq!(Layer::from_str("plates"), Some(Layer::Plates));
    assert_eq!(Layer::from_str("elevation"), Some(Layer::Elevation));
    assert_eq!(Layer::from_str("plate"), None);
    assert_eq!(Layer::Temperature.index(), 0);
    assert_eq!(Layer::Plates.index(), 1);
    assert_eq!(Layer::Elevation.index(), 2);
    let range = |l: Layer| (unpack(l.range().0), unpack(l.range().1));
    assert_eq!(range(Layer::Temperature), (210.0, 350.0));
    assert_eq!(range(Layer::Plates), (0.0, 1.0));
    assert_eq!(range(Layer::Elevation), (-8000.0, 6000.0));
}

#[test]
fn adapters_are_asked_for_in_order() {
    assert_eq!(attempt(0), Some(Attempt { power: Power::High, fallback: false }));
    assert_eq!(attempt(1), Some(Attempt { power: Power::Any, fallback: false }));
    assert_eq!(attempt(2), Some(Attempt { power: Power::Low, fallback: false }));
    assert_eq!(attempt(3), Some(Attempt { power: Power::Low, fallback: true }));
    assert_eq!(attempt(4), None);
    assert_eq!(frame_action(Acquired::Texture), FrameAction::Draw);
    assert_eq!(frame_action(Acquired::Timeout), FrameAction::Skip);
    assert_eq!(frame_action(Acquired::Lost), FrameAction::Reconfigure);
}

#[test]
fn overlays_are_independent() {
    let mut s = Scene::new((0, 5), (640, 480), 99);
    assert_eq!((s.views[0].width, s.views[0].height), (1, 5));
    assert_eq!(s.aspect(1), (640, 480));
    assert_eq!(s.aspect(2), (1, 1));
    s.set_overlay(1, "sunlight", false);
    s.set_overlay(1, "motion", true);
    s.set_overlay(1, "unknown", true);
    s.set_overlay(7, "graticule", false);
    assert!(!s.views[1].show_sunlight && s.views[1].show_graticule && s.views[1].show_motion);
    assert!(s.views[0].show_sunlight && s.views[0].show_graticule && !s.views[0].show_motion);
    s.set_layer(0, Layer::Elevation);
    s.set_highlight(0, Some(3));
    let u = s.uniform(0, Projection::WinkelTripel);
    assert_eq!((unpack(u.low), unpack(u.high)), (-8000.0, 6000.0));
    assert_eq!((u.layer, u.projection, u.highlight), (2, 1, Some(3)));
    assert!(u.sunlight && u.graticule);
    assert!(s.resize(0, 0, 7));
    assert_eq!((s.views[0].width, s.views[0].height), (1, 7));
    assert!(!s.resize(2, 4, 4));
}

#[test]
fn frames_draw_what_is_there() {
    let mut s = Scene::new((10, 10), (10, 10), 99);
    assert_eq!(s.draw_plan(0), DrawPlan { cells: 99, arrows: 0, marker: 0 });
    assert_eq!(s.set_marker(49), 49);
    assert_eq!(s.set_arrows(5000), 4096);
    assert_eq!(s.draw_plan(0), DrawPlan { cells: 99, arrows: 0, marker: 49 });
    assert_eq!(s.draw_plan(1), DrawPlan { cells: 99, arrows: 0, marker: 0 });
    s.set_overlay(1, "motion", true);
    assert_eq!(s.draw_plan(1), DrawPlan { cells: 99, arrows: 4096, marker: 0 });
    assert_eq!(s.set_marker(100), 64);
    assert_eq!(s.set_marker(1), 1);
    assert_eq!(s.set_arrows(1), 1);
    assert_eq!(s.draw_plan(0).marker, 0);
    assert_eq!(s.draw_plan(1).arrows, 0);
}

#[test]
fn inversion_stops_at_a_solution_or_gives_up() {
    // The map is the globe itself, and a step goes so far towards the place.
    let solve = |pace: f32, det: f32, x: f32, y: f32| {
        let by = Winkel {
            project: |c: (u32, u32)| c,
            miss: |a: (u32, u32), b: (u32, u32)| {
                let (dx, dy) = (unpack(a.0) - unpack(b.0), unpack(a.1) - unpack(b.1));
                bits(dx * dx + dy * dy)
            },
            slope: |_c: (u32, u32)| det,
            det: |d: f32| bits(d),
            newton: |_d: f32, c: (u32, u32), a: (u32, u32), b: (u32, u32)| {
                let go = |c: u32, a: u32, b: u32| bits(unpack(c) + pace * (unpack(b) - unpack(a)));
                (go(c.0, a.0, b.0), go(c.1, a.1, b.1))
            },
        };
        winkel_tripel_inverse(&by, bits(x), bits(y)).map(|c| (unpack(c.0), unpack(c.1)))
    };
    assert_eq!(solve(1.0, 1.0, 2.0, -1.5), Some((2.0, -1.5)));
    // Off the globe the guesses stay at its edge.
    assert_eq!(solve(1.0, 1.0, 4.0, 0.0), None);
    assert_eq!(solve(1.0, 1.0, 0.0, 1.6), None);
    assert_eq!(solve(1.0, 1.0, f32::NAN, 0.0), None);
    assert_eq!(solve(1.0, 1.0, 0.0, f32::INFINITY), None);
    let turned = |start: f32, pace: f32, det: f32| {
        let by = Winkel {
            project: |c: (u32, u32)| (bits(unpack(c.0) - start), c.1),
            miss: |a: (u32, u32), b: (u32, u32)| {
                let (dx, dy) = (unpack(a.0) - unpack(b.0), unpack(a.1) - unpack(b.1));
                bits(dx * dx + dy * dy)
            },
            slope: |_c: (u32, u32)| det,
            det: |d: f32| bits(d),
            newton: |_d: f32, c: (u32, u32), a: (u32, u32), b: (u32, u32)| {
                (bits(unpack(c.0) - pace * (unpack(a.0) - unpack(b.0))), c.1)
            },
        };
        winkel_tripel_inverse(&by, 0, 0).map(|c| unpack(c.0))
    };
    assert_eq!(turned(1.0, 1.0, 1.0), Some(1.0));
    // Halving the way takes twenty steps to the tolerance; a hundredth of it takes too many.
    assert!((turned(1.0, 0.5, 1.0).unwrap() - 1.0).abs() < 1e-6);
    assert_eq!(turned(1.0, 0.01, 1.0), None);
    // A singular step ends it; a determinant that is no number does not.
    assert_eq!(turned(1.0, 1.0, 0.9e-9), None);
    assert_eq!(turned(1.0, 1.0, -0.9e-9), None);
    assert_eq!(turned(1.0, 1.0, f32::NAN), Some(1.0));
    assert_eq!(NEWTON_STEPS, 30);
}

#[test]
fn limits_of_the_map_are_those_of_the_globe() {
    check_edges(EAST, WEST, std::f32::consts::PI);
    check_edges(NORTH, SOUTH, std::f32::consts::FRAC_PI_2);
    assert_eq!(unpack(EAST_RAIL), std::f32::consts::PI + 1e-3);
    assert_eq!(unpack(NORTH_RAIL), std::f32::consts::FRAC_PI_2 + 1e-3);
    assert_eq!(unpack(TOLERANCE), 1e-12);
    assert_eq!(unpack(SINGULAR), 1e-9);
    assert_eq!(clamped(bits(9.0), SOUTH, NORTH), NORTH);
    assert_eq!(clamped(bits(-9.0), SOUTH, NORTH), SOUTH);
    assert_eq!(clamped(bits(-0.5), SOUTH, NORTH), bits(-0.5));
    assert!(unpack(clamped(bits(f32::NAN), SOUTH, NORTH)).is_nan());
}

#[test]
fn outlines_go_round_four_corners() {
    let along = |a: i64, b: i64, k: usize| a + (b - a) * k as i64 / 2;
    let out = footprint_outline(&along, &|p: i64| p + 1000, (0, 10, 20, 30), 2);
    assert_eq!(out, vec![0, 5, 10, 15, 20, 25, 30, 15, 1000]);
}

#[test]
fn rays_hit_the_nearer_root_in_front() {
    let at = |t: u32| unpack(t);
    let roots = |near: f32, far: f32| move |_d: u32| (bits(near), bits(far));
    assert_eq!(ray_sphere(bits(-0.1), &roots(1.0, 2.0), &at), None);
    assert_eq!(ray_sphere(bits(1.0), &roots(1.0, 2.0), &at), Some(1.0));
    assert_eq!(ray_sphere(bits(1.0), &roots(-1.0, 2.0), &at), Some(2.0));
    assert_eq!(ray_sphere(bits(1.0), &roots(-2.0, -1.0), &at), None);
    assert_eq!(ray_sphere(bits(0.0), &roots(0.0, 0.0), &at), Some(0.0));
    assert_eq!(ray_sphere(bits(f32::NAN), &roots(f32::NAN, 2.0), &at), Some(2.0));
    assert!(ray_sphere(bits(f32::NAN), &roots(f32::NAN, f32::NAN), &at).unwrap().is_nan());
}

#[test]
fn seeds_are_spread_apart() {
    assert_eq!(spread_seed(0), PLATE_SEED);
    assert_eq!(spread_seed(1), 0x9E37_79B9_7F4A_7C15 ^ 0xC0FFEE);
    let mut seen: Vec<u64> = (0..1000).map(spread_seed).collect();
    seen.sort();
    seen.dedup();
    assert_eq!(seen.len(), 1000);
}

#[test]
fn frame_times_are_held() {
    assert_eq!(unpack(frame_time(bits(0.05))), 0.05);
    assert_eq!(unpack(frame_time(bits(-3.0))), 0.0);
    assert_eq!(frame_time(bits(9.0)), MAX_FRAME);
    assert_eq!(unpack(MAX_FRAME), 0.1);
    assert!(unpack(frame_time(bits(f32::NAN))).is_nan());
}

#[test]
fn controls_follow_the_user() {
    let mut c = Controls::new();
    assert_eq!(unpack(c.time_scale), 5_000.0);
    assert_eq!(c.time_scale, DEFAULT_TIME_SCALE);
    assert!(c.tick());
    assert!(!c.tick());
    assert_eq!(c.frame, 2);
    c.set_time_scale(bits(-4.0));
    assert_eq!(unpack(c.time_scale), 0.0);
    c.set_time_scale(bits(60.0));
    assert_eq!(unpack(c.time_scale), 60.0);
    c.set_projection(1, "winkel");
    c.set_projection(0, "flat");
    c.set_projection(5, "winkel");
    assert_eq!(c.projection_of(0), Some(Projection::Sphere));
    assert_eq!(c.projection_of(1), Some(Projection::WinkelTripel));
    assert_eq!(c.projection_of(2), None);
    assert_eq!(lens(0), Some(Lens::Globe));
    assert_eq!(lens(1), Some(Lens::Zoom));
    assert_eq!(lens(2), None);
}

#[test]
fn hovering_reads_what_there_is() {
    let temps = vec![10i64, 20, 30];
    let lonlat = vec!['a', 'b', 'c'];
    let info = pick_info(1, &temps, &lonlat, &vec![7, 8], &vec![]);
    assert_eq!((info.cell, info.temp, info.lonlat, info.plate, info.elev), (1, 20, 'b', 8, 0));
    let bare = pick_info(2, &temps, &lonlat, &vec![7, 8], &vec![1, 2, bits(-5.0)]);
    assert_eq!((bare.plate, unpack(bare.elev)), (0, -5.0));
}
