//! Pictures: which arrows a field has, and what the overlays of a view switch.

use crate::order::{is_number, law_comparisons_are_those_of_reals, value, INFINITY};
use crate::render::mesh::{are_arrows, is_arrow, top_speed, Arrow};
use crate::render::view::{first_view, Scene, ViewState};
use crate::render::{Layer, Projection};
use vstd::prelude::*;

verus! {

/// Arrows are scaled by the fastest of the samples: no speed that is a number is above the top one, and
/// that is one of them, or a millionth where all are slower.
pub proof fn law_the_top_speed_is_the_fastest(speeds: Seq<u32>, k: int)
    requires
        forall|j: int| 0 <= j < speeds.len() ==> #[trigger] speeds[j] < 0x8000_0000,
        0 <= k < speeds.len(),
    ensures
        is_number(top_speed(speeds)),
        is_number(speeds[k]) ==> value(speeds[k]) <= value(top_speed(speeds)),
        value(top_speed(speeds)) >= value(0x3586_37BD),
        top_speed(speeds) == 0x3586_37BD || speeds.contains(top_speed(speeds)),
{
    lemma_top(speeds, k);
    law_comparisons_are_those_of_reals(speeds[k], top_speed(speeds));
    law_comparisons_are_those_of_reals(0x3586_37BD, top_speed(speeds));
}

proof fn lemma_top(speeds: Seq<u32>, k: int)
    requires
        forall|j: int| 0 <= j < speeds.len() ==> #[trigger] speeds[j] < 0x8000_0000,
    ensures
        0x3586_37BD <= top_speed(speeds) <= INFINITY,
        0 <= k < speeds.len() && speeds[k] <= INFINITY ==> speeds[k] <= top_speed(speeds),
        top_speed(speeds) == 0x3586_37BD || speeds.contains(top_speed(speeds)),
    decreases speeds.len(),
{
    if speeds.len() > 0 {
        let less = speeds.drop_last();
        assert forall|j: int| 0 <= j < less.len() implies #[trigger] less[j] < 0x8000_0000 by {
            assert(less[j] == speeds[j]);
        }
        lemma_top(less, k);
        assert(speeds.last() == speeds[speeds.len() - 1]);
        if less.contains(top_speed(less)) {
            let a = less.index_of(top_speed(less));
            assert(speeds[a] == top_speed(less));
        }
        if 0 <= k < less.len() {
            assert(less[k] == speeds[k]);
        }
    }
}

/// A sampled cell has the arrow of its own place and its own wind, on the scale of all of them, and none
/// where it hardly moves.
pub proof fn law_arrows_show_their_own_cell<P, V, G: Fn(P, V, u32) -> Option<Arrow<P>>>(
    centers: Seq<P>,
    field: Seq<V>,
    samples: Seq<u32>,
    draw: G,
    speeds: Seq<u32>,
    arrows: Seq<Option<Arrow<P>>>,
    k: int,
)
    requires
        are_arrows(centers, field, samples, draw, speeds, arrows),
        0 <= k < samples.len(),
    ensures
        is_number(speeds[k]) && value(speeds[k]) <= value(0x3586_37BD) ==> arrows[k] is None,
        is_number(speeds[k]) && value(speeds[k]) > value(0x3586_37BD) ==> call_ensures(
            draw,
            (centers[samples[k] as int], field[samples[k] as int], top_speed(speeds)),
            arrows[k],
        ),
{
    law_comparisons_are_those_of_reals(speeds[k], 0x3586_37BD);
    assert(is_arrow(
        draw,
        centers[samples[k] as int],
        field[samples[k] as int],
        speeds[k],
        top_speed(speeds),
        arrows[k],
    ));
}

/// An overlay reaches the shader as it was switched, and no other does: sunlight and graticule each their
/// own part, and motion none, which is drawn as lines instead.
pub proof fn law_overlays_reach_the_shader(view: ViewState, projection: Projection, enabled: bool)
    ensures
        ({
            let was = Scene::spec_uniform(view, projection);
            let sun = Scene::spec_uniform(view.with_overlay("sunlight"@, enabled), projection);
            let lines = Scene::spec_uniform(view.with_overlay("graticule"@, enabled), projection);
            let motion = Scene::spec_uniform(view.with_overlay("motion"@, enabled), projection);
            &&& sun.sunlight == enabled && sun.graticule == was.graticule
            &&& lines.graticule == enabled && lines.sunlight == was.sunlight
            &&& motion.sunlight == was.sunlight && motion.graticule == was.graticule
            &&& sun.layer == was.layer && lines.layer == was.layer && motion.layer == was.layer
            &&& sun.highlight == was.highlight && was.highlight == view.highlight
        }),
{
    reveal_strlit("sunlight");
    reveal_strlit("graticule");
    reveal_strlit("motion");
    assert("sunlight"@[0] != "graticule"@[0]);
    assert("sunlight"@[0] != "motion"@[0]);
    assert("graticule"@[0] != "motion"@[0]);
}

/// Each layer and each projection has its own shader: views that show different layers, or the same under
/// different projections, hand over different numbers, and only a change of layer changes the range.
pub proof fn law_layers_and_projections_show(a: ViewState, b: ViewState, p: Projection, q: Projection)
    ensures
        Scene::spec_uniform(a, p).layer == Scene::spec_uniform(b, q).layer <==> a.layer == b.layer,
        Scene::spec_uniform(a, p).projection == Scene::spec_uniform(b, q).projection <==> p == q,
        a.layer == b.layer ==> Scene::spec_uniform(a, p).low == Scene::spec_uniform(b, q).low
            && Scene::spec_uniform(a, p).high == Scene::spec_uniform(b, q).high,
        a.layer == Layer::Temperature ==> Scene::spec_uniform(a, p).low == 0x4352_0000 && Scene::spec_uniform(
            a,
            p,
        ).high == 0x43AF_0000,
{
}

/// The motion of a view is drawn where it is switched on, and only in that view; the marker is drawn on
/// the globe.
pub proof fn law_motion_is_drawn_where_it_is_on(scene: &Scene, view: usize)
    requires
        view < scene.views@.len(),
    ensures
        scene.spec_draw_plan(view).cells == scene.vertex_count,
        scene.spec_draw_plan(view).arrows > 0 ==> scene.views@[view as int].show_motion
            && scene.spec_draw_plan(view).arrows == scene.arrow_count,
        scene.views@[view as int].show_motion && scene.arrow_count >= 2 ==> scene.spec_draw_plan(
            view,
        ).arrows == scene.arrow_count,
        scene.spec_draw_plan(view).marker > 0 ==> view == 0,
        view == 0 && scene.marker_count >= 2 ==> scene.spec_draw_plan(view).marker == scene.marker_count,
{
}

/// A view starts with the temperature in sunlight under a graticule, without motion, on a canvas of at
/// least one pixel each way.
pub proof fn law_a_view_starts_lit(width: u32, height: u32)
    ensures
        first_view(width, height).layer == Layer::Temperature,
        first_view(width, height).show_sunlight && first_view(width, height).show_graticule,
        !first_view(width, height).show_motion,
        first_view(width, height).highlight is None,
        first_view(width, height).width >= 1 && first_view(width, height).height >= 1,
        width >= 1 ==> first_view(width, height).width == width,
        height >= 1 ==> first_view(width, height).height == height,
{
}

} // verus!
