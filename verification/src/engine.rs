//! What the engine decides between the user interface, the simulation and the views.

use crate::order::{is_number, number, spec_value_key, value_key, ZERO};
use crate::render::Projection;
use crate::rng::GOLDEN_GAMMA;
use crate::sim::elevation::{at_least, floored};
use vstd::prelude::*;

verus! {

/// Number of grid cells.
pub const GRID_CELLS: usize = 16_384;

/// Number of continental plates the terrain generator carves the planet into.
pub const NUM_PLATES: usize = 52;

/// Seed for deterministic plate generation.
pub const PLATE_SEED: u64 = 0xC0FFEE;

/// Roughly how many cells to sample for the arrow fields.
pub const ARROW_SAMPLES: usize = 600;

/// Samples per side of the zoomed view's outline.
pub const OUTLINE_SEGMENTS: usize = 12;

/// Pattern of the initial fast-forward factor: 5000 simulation seconds per real second.
pub const DEFAULT_TIME_SCALE: u32 = 0x459C_4000;

/// Pattern of the longest frame, in seconds, that the simulation follows: 0.1.
pub const MAX_FRAME: u32 = 0x3DCC_CCCD;

/// The 64-bit seed that a 32-bit seed of the user interface is spread to.
pub open spec fn spec_spread_seed(seed: u32) -> u64 {
    (seed as u64).wrapping_mul(GOLDEN_GAMMA) ^ PLATE_SEED
}

/// Spread a 32-bit seed across the 64-bit generator space.
pub fn spread_seed(seed: u32) -> (out: u64)
    ensures
        out == spec_spread_seed(seed),
{
    (seed as u64).wrapping_mul(GOLDEN_GAMMA) ^ PLATE_SEED
}

/// Different seeds of the user interface make different planets' seeds, and seed zero is that of
/// the first planet.
pub proof fn law_seeds_are_spread_apart(a: u32, b: u32)
    ensures
        spec_spread_seed(0) == PLATE_SEED,
        spec_spread_seed(a) == spec_spread_seed(b) ==> a == b,
{
    let x = (a as u64).wrapping_mul(GOLDEN_GAMMA);
    let y = (b as u64).wrapping_mul(GOLDEN_GAMMA);
    let p = PLATE_SEED;
    assert(x ^ p == y ^ p ==> x == y) by (bit_vector);
    assert((0 as u64).wrapping_mul(GOLDEN_GAMMA) == 0);
    assert(0u64 ^ p == p) by (bit_vector);
    if x == y {
        crate::rng::lemma_gamma_cancels(a as u64, b as u64);
    }
}

/// The frame time that the simulation follows: `dt` held between zero and [`MAX_FRAME`], so that a
/// stall cannot make the simulation jump.
pub open spec fn spec_frame_time(dt: u32) -> u32 {
    if !is_number(dt) {
        dt
    } else if spec_value_key(dt) < 0 {
        ZERO
    } else if spec_value_key(dt) > MAX_FRAME {
        MAX_FRAME
    } else {
        dt
    }
}

/// See [`spec_frame_time`].
pub fn frame_time(dt: u32) -> (out: u32)
    ensures
        out == spec_frame_time(dt),
{
    if !number(dt) {
        dt
    } else if value_key(dt) < 0 {
        ZERO
    } else if value_key(dt) > MAX_FRAME as i32 {
        MAX_FRAME
    } else {
        dt
    }
}

/// No stall makes the simulation jump, and time never runs backwards: the frame time of a number
/// lies between zero and the longest frame, and is the number itself where that does.
pub proof fn law_frame_time_is_held(dt: u32)
    requires
        is_number(dt),
    ensures
        0 <= spec_value_key(spec_frame_time(dt)) <= MAX_FRAME,
        0 <= spec_value_key(dt) <= MAX_FRAME ==> spec_frame_time(dt) == dt,
{
}

/// Which camera a view looks through.
#[derive(Clone, Copy, Debug, PartialEq, Eq, Structural)]
pub enum Lens {
    /// The orbiting globe camera.
    Globe,
    /// The close-up camera.
    Zoom,
}

/// The camera of a view: 0 is the globe, 1 the zoomed view, and there is no other.
pub open spec fn spec_lens(view: usize) -> Option<Lens> {
    if view == 0 {
        Some(Lens::Globe)
    } else if view == 1 {
        Some(Lens::Zoom)
    } else {
        None
    }
}

/// See [`spec_lens`].
pub fn lens(view: usize) -> (out: Option<Lens>)
    ensures
        out == spec_lens(view),
{
    if view == 0 {
        Some(Lens::Globe)
    } else if view == 1 {
        Some(Lens::Zoom)
    } else {
        None
    }
}

/// Details about the cell under the cursor.
#[derive(Clone, Copy, Debug)]
pub struct PickInfo<S, L> {
    pub cell: u32,
    pub temp: S,
    pub lonlat: L,
    pub plate: u32,
    /// Surface elevation in metres relative to sea level, as a pattern.
    pub elev: u32,
}

/// The details of cell `idx`: its plate and elevation are zero where there is no geology.
pub fn pick_info<S: Copy, L: Copy>(
    idx: usize,
    temps: &Vec<S>,
    lonlat: &Vec<L>,
    plate_id: &Vec<u32>,
    elevation: &Vec<u32>,
) -> (info: PickInfo<S, L>)
    requires
        idx < temps@.len(),
        idx < lonlat@.len(),
        idx <= u32::MAX,
    ensures
        info.cell == idx,
        info.temp == temps@[idx as int],
        info.lonlat == lonlat@[idx as int],
        info.plate == if idx < plate_id@.len() {
            plate_id@[idx as int]
        } else {
            0
        },
        info.elev == if idx < elevation@.len() {
            elevation@[idx as int]
        } else {
            ZERO
        },
{
    PickInfo {
        cell: idx as u32,
        temp: temps[idx],
        lonlat: lonlat[idx],
        plate: if idx < plate_id.len() { plate_id[idx] } else { 0 },
        elev: if idx < elevation.len() { elevation[idx] } else { ZERO },
    }
}

/// The engine's own settings.
pub struct Controls {
    /// Screen projection of the globe view and of the zoomed view.
    pub projection: (Projection, Projection),
    /// Simulation seconds advanced per real second, as a pattern; 0 is paused.
    pub time_scale: u32,
    /// Frames drawn so far.
    pub frame: u64,
}

impl Controls {
    /// The settings before the first frame.
    pub fn new() -> (controls: Self)
        ensures
            controls.projection == (Projection::Sphere, Projection::Sphere),
            controls.time_scale == DEFAULT_TIME_SCALE,
            controls.frame == 0,
    {
        Controls {
            projection: (Projection::Sphere, Projection::Sphere),
            time_scale: DEFAULT_TIME_SCALE,
            frame: 0,
        }
    }

    /// The projection of a view, if there is such a view.
    pub open spec fn spec_projection_of(&self, view: usize) -> Option<Projection> {
        match spec_lens(view) {
            Some(Lens::Globe) => Some(self.projection.0),
            Some(Lens::Zoom) => Some(self.projection.1),
            None => None,
        }
    }

    /// The projection of a view, if there is such a view.
    pub fn projection_of(&self, view: usize) -> (out: Option<Projection>)
        ensures
            out == self.spec_projection_of(view),
    {
        match lens(view) {
            Some(Lens::Globe) => Some(self.projection.0),
            Some(Lens::Zoom) => Some(self.projection.1),
            None => None,
        }
    }

    /// Select the screen projection for a view by its id; an unknown view or id changes nothing.
    pub fn set_projection(&mut self, view: usize, kind: &str)
        ensures
            forall|v: usize| #[trigger]
                final(self).spec_projection_of(v) == if v == view && spec_lens(view) is Some
                    && Projection::named(kind@) is Some {
                    Projection::named(kind@)
                } else {
                    old(self).spec_projection_of(v)
                },
            final(self).time_scale == old(self).time_scale,
            final(self).frame == old(self).frame,
    {
        match (lens(view), Projection::from_str(kind)) {
            (Some(Lens::Globe), Some(p)) => {
                self.projection = (p, self.projection.1);
            },
            (Some(Lens::Zoom), Some(p)) => {
                self.projection = (self.projection.0, p);
            },
            _ => {},
        }
    }

    /// Set the fast-forward factor, at least zero.
    pub fn set_time_scale(&mut self, scale: u32)
        ensures
            final(self).time_scale == at_least(scale, ZERO),
            final(self).projection == old(self).projection,
            final(self).frame == old(self).frame,
    {
        self.time_scale = floored(scale, ZERO);
    }

    /// Count a frame; whether it is the first.
    pub fn tick(&mut self) -> (first: bool)
        requires
            old(self).frame < u64::MAX,
        ensures
            final(self).frame == old(self).frame + 1,
            first == (old(self).frame == 0),
            final(self).projection == old(self).projection,
            final(self).time_scale == old(self).time_scale,
    {
        self.frame = self.frame + 1;
        self.frame == 1
    }
}

} // verus!
