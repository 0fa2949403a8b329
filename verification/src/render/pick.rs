//! Picking: which of the two places where a ray meets the unit sphere is the one that is seen.

use crate::order::{at_most, below, spec_at_most, spec_below, ZERO};
use vstd::prelude::*;

verus! {

/// The root at which a ray is seen to meet the sphere: the nearer one unless it lies behind the eye,
/// else the farther one.
pub open spec fn seen_root(near: u32, far: u32) -> u32 {
    if spec_at_most(ZERO, near) {
        near
    } else {
        far
    }
}

/// `out` is where a ray hits: nowhere where the discriminant is negative or both roots lie behind the
/// eye, else at the root that is seen.
pub open spec fn is_hit<V, F: Fn(u32) -> (u32, u32), G: Fn(u32) -> V>(
    disc: u32,
    roots: F,
    at: G,
    out: Option<V>,
) -> bool {
    if spec_below(disc, ZERO) {
        out is None
    } else {
        exists|near: u32, far: u32|
            {
                &&& #[trigger] call_ensures(roots, (disc,), (near, far))
                &&& if spec_below(seen_root(near, far), ZERO) {
                    out is None
                } else {
                    out is Some && call_ensures(at, (seen_root(near, far),), out->0)
                }
            }
    }
}

/// The hit point nearest the eye, or `None` if the ray misses. `disc` is the discriminant of the
/// ray's equation, `roots` gives the distances to its two roots, the nearer first, and `at` the
/// point at a distance.
pub fn ray_sphere<V, F: Fn(u32) -> (u32, u32), G: Fn(u32) -> V>(
    disc: u32,
    roots: &F,
    at: &G,
) -> (out: Option<V>)
    requires
        forall|d: u32| #[trigger] call_requires(*roots, (d,)),
        forall|t: u32| #[trigger] call_requires(*at, (t,)),
    ensures
        is_hit(disc, *roots, *at, out),
{
    if below(disc, ZERO) {
        return None;
    }
    let (near, far): (u32, u32) = roots(disc);
    assert(call_ensures(*roots, (disc,), (near, far)));
    let t: u32 = if at_most(ZERO, near) {
        near
    } else {
        far
    };
    if below(t, ZERO) {
        return None;
    }
    Some(at(t))
}

} // verus!
