//! The state of the views and what each frame draws of them. The device that draws is the caller's.

use crate::render::{same_text, Layer, Projection};
use vstd::prelude::*;

verus! {

/// Max vertices in the zoom-footprint outline line strip.
pub const MARKER_CAPACITY: usize = 64;

/// Max vertices in an arrow line list.
pub const ARROW_CAPACITY: usize = 4096;

/// Which kind of graphics adapter to ask for.
#[derive(Clone, Copy, Debug, PartialEq, Eq, Structural)]
pub enum Power {
    High,
    Any,
    Low,
}

/// One request for a graphics adapter.
#[derive(Clone, Copy, Debug, PartialEq, Eq, Structural)]
pub struct Attempt {
    pub power: Power,
    /// Ask for a software adapter.
    pub fallback: bool,
}

/// The request to make after `failed` of them have failed: high performance, then the default, then
/// low power, then a software adapter, and then none.
pub open spec fn spec_attempt(failed: usize) -> Option<Attempt> {
    if failed == 0 {
        Some(Attempt { power: Power::High, fallback: false })
    } else if failed == 1 {
        Some(Attempt { power: Power::Any, fallback: false })
    } else if failed == 2 {
        Some(Attempt { power: Power::Low, fallback: false })
    } else if failed == 3 {
        Some(Attempt { power: Power::Low, fallback: true })
    } else {
        None
    }
}

/// See [`spec_attempt`].
pub fn attempt(failed: usize) -> (out: Option<Attempt>)
    ensures
        out == spec_attempt(failed),
{
    if failed == 0 {
        Some(Attempt { power: Power::High, fallback: false })
    } else if failed == 1 {
        Some(Attempt { power: Power::Any, fallback: false })
    } else if failed == 2 {
        Some(Attempt { power: Power::Low, fallback: false })
    } else if failed == 3 {
        Some(Attempt { power: Power::Low, fallback: true })
    } else {
        None
    }
}

/// What asking a surface for its next texture came to.
#[derive(Clone, Copy, Debug, PartialEq, Eq, Structural)]
pub enum Acquired {
    /// A texture, though perhaps not the best one.
    Texture,
    /// None in time.
    Timeout,
    /// None, and the surface has to be configured again.
    Lost,
}

/// What to do with a view in this frame.
#[derive(Clone, Copy, Debug, PartialEq, Eq, Structural)]
pub enum FrameAction {
    Draw,
    Skip,
    Reconfigure,
}

/// What an acquisition calls for.
pub open spec fn spec_frame_action(got: Acquired) -> FrameAction {
    match got {
        Acquired::Texture => FrameAction::Draw,
        Acquired::Timeout => FrameAction::Skip,
        Acquired::Lost => FrameAction::Reconfigure,
    }
}

/// See [`spec_frame_action`].
pub fn frame_action(got: Acquired) -> (out: FrameAction)
    ensures
        out == spec_frame_action(got),
{
    match got {
        Acquired::Texture => FrameAction::Draw,
        Acquired::Timeout => FrameAction::Skip,
        Acquired::Lost => FrameAction::Reconfigure,
    }
}

/// The greater of `x` and 1.
pub open spec fn at_least_one(x: u32) -> u32 {
    if x < 1 {
        1
    } else {
        x
    }
}

/// The smaller of the two.
pub open spec fn capped(n: nat, capacity: usize) -> nat {
    if n < capacity {
        n
    } else {
        capacity as nat
    }
}

/// What one view shows.
#[derive(Clone, Copy, Debug, PartialEq, Eq, Structural)]
pub struct ViewState {
    pub width: u32,
    pub height: u32,
    pub layer: Layer,
    pub show_sunlight: bool,
    pub show_graticule: bool,
    pub show_motion: bool,
    /// Cell highlighted by the cursor hovering this view, if any.
    pub highlight: Option<u32>,
}

/// A view as it starts out on a canvas of the given size.
pub open spec fn first_view(width: u32, height: u32) -> ViewState {
    ViewState {
        width: at_least_one(width),
        height: at_least_one(height),
        layer: Layer::Temperature,
        show_sunlight: true,
        show_graticule: true,
        show_motion: false,
        highlight: None,
    }
}

impl ViewState {
    fn sized(width: u32, height: u32) -> (view: ViewState)
        ensures
            view == first_view(width, height),
    {
        ViewState {
            width: if width < 1 { 1 } else { width },
            height: if height < 1 { 1 } else { height },
            layer: Layer::Temperature,
            show_sunlight: true,
            show_graticule: true,
            show_motion: false,
            highlight: None,
        }
    }

    /// The view with the overlay of the given id switched; other ids switch nothing.
    pub open spec fn with_overlay(self, which: Seq<char>, enabled: bool) -> ViewState {
        if which == "sunlight"@ {
            ViewState { show_sunlight: enabled, ..self }
        } else if which == "graticule"@ {
            ViewState { show_graticule: enabled, ..self }
        } else if which == "motion"@ {
            ViewState { show_motion: enabled, ..self }
        } else {
            self
        }
    }
}

/// The numbers that a view hands to the shader.
#[derive(Clone, Copy, Debug, PartialEq, Eq, Structural)]
pub struct Uniform {
    /// Ends of the layer's data range, as patterns.
    pub low: u32,
    pub high: u32,
    pub sunlight: bool,
    pub graticule: bool,
    /// Hovered cell, if any.
    pub highlight: Option<u32>,
    pub layer: u32,
    pub projection: u32,
}

/// What a frame draws of a view: how many vertices of the cell mesh, and of the arrows and the
/// marker, none where they are not drawn.
#[derive(Clone, Copy, Debug, PartialEq, Eq, Structural)]
pub struct DrawPlan {
    pub cells: u32,
    pub arrows: u32,
    pub marker: u32,
}

/// The views, and how much of each buffer is filled. Index 0 is the globe, 1 the zoomed view.
pub struct Scene {
    pub views: Vec<ViewState>,
    pub vertex_count: u32,
    pub marker_count: u32,
    pub arrow_count: u32,
}

impl Scene {
    /// Two views on canvases of the given sizes, nothing but the cell mesh to draw.
    pub fn new(first: (u32, u32), second: (u32, u32), vertex_count: u32) -> (scene: Self)
        ensures
            scene.views@ == seq![first_view(first.0, first.1), first_view(second.0, second.1)],
            scene.vertex_count == vertex_count,
            scene.marker_count == 0,
            scene.arrow_count == 0,
    {
        let mut views: Vec<ViewState> = Vec::new();
        views.push(ViewState::sized(first.0, first.1));
        views.push(ViewState::sized(second.0, second.1));
        assert(views@ =~= seq![first_view(first.0, first.1), first_view(second.0, second.1)]);
        Scene { views, vertex_count, marker_count: 0, arrow_count: 0 }
    }

    /// All but the views is as in `before`.
    pub open spec fn same_buffers(&self, before: &Self) -> bool {
        &&& self.vertex_count == before.vertex_count
        &&& self.marker_count == before.marker_count
        &&& self.arrow_count == before.arrow_count
    }

    /// The views `before` with that of index `view` put to `to`; there may be none of that index.
    pub open spec fn with_view(before: Seq<ViewState>, view: usize, to: ViewState) -> Seq<ViewState> {
        if view < before.len() {
            before.update(view as int, to)
        } else {
            before
        }
    }

    /// Resize a view; a side is never shorter than one. Whether there is such a view.
    pub fn resize(&mut self, view: usize, width: u32, height: u32) -> (found: bool)
        ensures
            found == (view < old(self).views@.len()),
            final(self).views@ == Scene::with_view(
                old(self).views@,
                view,
                ViewState {
                    width: at_least_one(width),
                    height: at_least_one(height),
                    ..old(self).views@[view as int]
                },
            ),
            final(self).same_buffers(old(self)),
    {
        if view < self.views.len() {
            let mut v: ViewState = self.views[view];
            v.width = if width < 1 { 1 } else { width };
            v.height = if height < 1 { 1 } else { height };
            self.views.set(view, v);
            true
        } else {
            false
        }
    }

    /// Select the layer of a view.
    pub fn set_layer(&mut self, view: usize, layer: Layer)
        ensures
            final(self).views@ == Scene::with_view(
                old(self).views@,
                view,
                ViewState { layer, ..old(self).views@[view as int] },
            ),
            final(self).same_buffers(old(self)),
    {
        if view < self.views.len() {
            let mut v: ViewState = self.views[view];
            v.layer = layer;
            self.views.set(view, v);
        }
    }

    /// Toggle an overlay ("sunlight", "graticule" or "motion") for a view.
    pub fn set_overlay(&mut self, view: usize, which: &str, enabled: bool)
        ensures
            final(self).views@ == Scene::with_view(
                old(self).views@,
                view,
                old(self).views@[view as int].with_overlay(which@, enabled),
            ),
            final(self).same_buffers(old(self)),
    {
        if view < self.views.len() {
            let mut v: ViewState = self.views[view];
            if same_text(which, "sunlight") {
                v.show_sunlight = enabled;
            } else if same_text(which, "graticule") {
                v.show_graticule = enabled;
            } else if same_text(which, "motion") {
                v.show_motion = enabled;
            }
            self.views.set(view, v);
        }
    }

    /// Set (or clear) the cell highlighted by the cursor hovering a view.
    pub fn set_highlight(&mut self, view: usize, cell: Option<u32>)
        ensures
            final(self).views@ == Scene::with_view(
                old(self).views@,
                view,
                ViewState { highlight: cell, ..old(self).views@[view as int] },
            ),
            final(self).same_buffers(old(self)),
    {
        if view < self.views.len() {
            let mut v: ViewState = self.views[view];
            v.highlight = cell;
            self.views.set(view, v);
        }
    }

    /// Take note of an outline of `points` vertices; the result is how many of them fit, and are
    /// to be uploaded.
    pub fn set_marker(&mut self, points: usize) -> (n: usize)
        ensures
            n == capped(points as nat, MARKER_CAPACITY),
            final(self).marker_count == n,
            final(self).views == old(self).views,
            final(self).vertex_count == old(self).vertex_count,
            final(self).arrow_count == old(self).arrow_count,
    {
        let n: usize = if points < MARKER_CAPACITY {
            points
        } else {
            MARKER_CAPACITY
        };
        self.marker_count = n as u32;
        n
    }

    /// Take note of an arrow field of `points` vertices; the result is how many of them fit, and
    /// are to be uploaded.
    pub fn set_arrows(&mut self, points: usize) -> (n: usize)
        ensures
            n == capped(points as nat, ARROW_CAPACITY),
            final(self).arrow_count == n,
            final(self).views == old(self).views,
            final(self).vertex_count == old(self).vertex_count,
            final(self).marker_count == old(self).marker_count,
    {
        let n: usize = if points < ARROW_CAPACITY {
            points
        } else {
            ARROW_CAPACITY
        };
        self.arrow_count = n as u32;
        n
    }

    /// Width and height of a view, the height at least one; one to one where there is no such view.
    pub fn aspect(&self, view: usize) -> (ratio: (u32, u32))
        ensures
            ratio == if view < self.views@.len() {
                (self.views@[view as int].width, at_least_one(self.views@[view as int].height))
            } else {
                (1u32, 1u32)
            },
            ratio.1 > 0,
    {
        if view < self.views.len() {
            let v: ViewState = self.views[view];
            (v.width, if v.height < 1 { 1 } else { v.height })
        } else {
            (1, 1)
        }
    }

    /// What a view hands to the shader under a projection.
    pub open spec fn spec_uniform(view: ViewState, projection: Projection) -> Uniform {
        Uniform {
            low: view.layer.spec_range().0,
            high: view.layer.spec_range().1,
            sunlight: view.show_sunlight,
            graticule: view.show_graticule,
            highlight: view.highlight,
            layer: view.layer.spec_index(),
            projection: projection.spec_index(),
        }
    }

    /// What view `view` hands to the shader.
    pub fn uniform(&self, view: usize, projection: Projection) -> (out: Uniform)
        requires
            view < self.views@.len(),
        ensures
            out == Scene::spec_uniform(self.views@[view as int], projection),
    {
        let v: ViewState = self.views[view];
        let (low, high): (u32, u32) = v.layer.range();
        Uniform {
            low,
            high,
            sunlight: v.show_sunlight,
            graticule: v.show_graticule,
            highlight: v.highlight,
            layer: v.layer.index(),
            projection: projection.index(),
        }
    }

    /// What a frame draws of view `view`: the cells always; the arrows where the motion overlay is
    /// on and there is a line of them; the marker on the globe alone, where there is a line of it.
    pub open spec fn spec_draw_plan(&self, view: usize) -> DrawPlan {
        DrawPlan {
            cells: self.vertex_count,
            arrows: if self.views@[view as int].show_motion && self.arrow_count > 1 {
                self.arrow_count
            } else {
                0
            },
            marker: if view == 0 && self.marker_count > 1 {
                self.marker_count
            } else {
                0
            },
        }
    }

    /// See [`Scene::spec_draw_plan`].
    pub fn draw_plan(&self, view: usize) -> (plan: DrawPlan)
        requires
            view < self.views@.len(),
        ensures
            plan == self.spec_draw_plan(view),
    {
        DrawPlan {
            cells: self.vertex_count,
            arrows: if self.views[view].show_motion && self.arrow_count > 1 {
                self.arrow_count
            } else {
                0
            },
            marker: if view == 0 && self.marker_count > 1 {
                self.marker_count
            } else {
                0
            },
        }
    }
}

/// Overlays are independent: switching one leaves the others, and the rest of the view, as they
/// are, and an unknown id switches nothing.
pub proof fn law_overlays_are_independent(view: ViewState, which: Seq<char>, enabled: bool)
    ensures
        ({
            let after = view.with_overlay(which, enabled);
            &&& which != "sunlight"@ ==> after.show_sunlight == view.show_sunlight
            &&& which != "graticule"@ ==> after.show_graticule == view.show_graticule
            &&& which != "motion"@ ==> after.show_motion == view.show_motion
            &&& which == "sunlight"@ ==> after.show_sunlight == enabled
            &&& which == "graticule"@ ==> after.show_graticule == enabled
            &&& which == "motion"@ ==> after.show_motion == enabled
            &&& after.layer == view.layer
            &&& after.highlight == view.highlight
            &&& after.width == view.width
            &&& after.height == view.height
        }),
{
    reveal_strlit("sunlight");
    reveal_strlit("graticule");
    reveal_strlit("motion");
    assert("sunlight"@[0] != "graticule"@[0]);
    assert("sunlight"@[0] != "motion"@[0]);
    assert("graticule"@[0] != "motion"@[0]);
}

} // verus!
