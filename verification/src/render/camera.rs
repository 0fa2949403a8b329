//! Structure of the camera computations: the outline of what the zoomed view frames, and the
//! iteration that inverts a map projection.

use crate::order::{at_most, below, spec_at_most, spec_below, unsigned, without_sign};
use vstd::prelude::*;

verus! {

/// Newton steps that an inversion may take.
pub const NEWTON_STEPS: usize = 30;

/// Pattern of the squared distance, in world units, within which a guess is a solution: 1e-12.
pub const TOLERANCE: u32 = 0x2B8C_BCCC;

/// Pattern of the determinant below which a step is singular: 1e-9.
pub const SINGULAR: u32 = 0x3089_705F;

/// Pattern of the greatest longitude, in radians.
pub const EAST: u32 = 0x4049_0FDB;

/// Pattern of the least longitude.
pub const WEST: u32 = 0xC049_0FDB;

/// Pattern of the greatest latitude, in radians.
pub const NORTH: u32 = 0x3FC9_0FDB;

/// Pattern of the least latitude.
pub const SOUTH: u32 = 0xBFC9_0FDB;

/// Pattern of how far east or west a solution may lie: a thousandth beyond [`EAST`].
pub const EAST_RAIL: u32 = 0x4049_203D;

/// Pattern of how far north or south a solution may lie: a thousandth beyond [`NORTH`].
pub const NORTH_RAIL: u32 = 0x3FC9_30A0;

/// Formulas of a map projection. Longitudes and latitudes, in radians, and places on the map are
/// pairs of patterns.
pub struct Winkel<F, G, H, I, J> {
    /// The place on the map of a longitude and latitude.
    pub project: F,
    /// Squared distance of two places on the map.
    pub miss: G,
    /// How the place changes with longitude and latitude.
    pub slope: H,
    /// Determinant of a slope.
    pub det: I,
    /// The next guess: from the slope, the guess, its place and the place that is looked for.
    pub newton: J,
}

/// What one look at a guess tells.
pub enum Guess {
    /// The guess is the solution.
    Found,
    /// There is none: the step is singular, or the solution lies off the map.
    Off,
    /// The next guess.
    Next((u32, u32)),
}

/// `x` held between `low` and `high`; what is no number stays as it is.
pub open spec fn spec_clamped(x: u32, low: u32, high: u32) -> u32 {
    if spec_below(x, low) {
        low
    } else if spec_below(high, x) {
        high
    } else {
        x
    }
}

/// See [`spec_clamped`].
pub fn clamped(x: u32, low: u32, high: u32) -> (out: u32)
    ensures
        out == spec_clamped(x, low, high),
{
    if below(x, low) {
        low
    } else if below(high, x) {
        high
    } else {
        x
    }
}

/// A longitude and latitude held on the globe.
pub open spec fn on_globe(c: (u32, u32)) -> (u32, u32) {
    (spec_clamped(c.0, WEST, EAST), spec_clamped(c.1, SOUTH, NORTH))
}

/// A solution does not lie beyond the rails.
pub open spec fn within_rails(c: (u32, u32)) -> bool {
    spec_at_most(unsigned(c.0), EAST_RAIL) && spec_at_most(unsigned(c.1), NORTH_RAIL)
}

impl<F, G, H, I, J> Winkel<F, G, H, I, J> {
    /// The formulas take every value.
    pub open spec fn total<T>(&self) -> bool where
        F: Fn((u32, u32)) -> (u32, u32),
        G: Fn((u32, u32), (u32, u32)) -> u32,
        H: Fn((u32, u32)) -> T,
        I: Fn(T) -> u32,
        J: Fn(T, (u32, u32), (u32, u32), (u32, u32)) -> (u32, u32),
     {
        &&& forall|c: (u32, u32)| #[trigger] call_requires(self.project, (c,))
        &&& forall|a: (u32, u32), b: (u32, u32)| #[trigger] call_requires(self.miss, (a, b))
        &&& forall|c: (u32, u32)| #[trigger] call_requires(self.slope, (c,))
        &&& forall|t: T| #[trigger] call_requires(self.det, (t,))
        &&& forall|t: T, c: (u32, u32), a: (u32, u32), b: (u32, u32)| #[trigger]
            call_requires(self.newton, (t, c, a, b))
    }

    /// The place of `guess` lies within the tolerance of `to`.
    pub open spec fn hits(&self, to: (u32, u32), guess: (u32, u32)) -> bool where
        F: Fn((u32, u32)) -> (u32, u32),
        G: Fn((u32, u32), (u32, u32)) -> u32,
     {
        exists|place: (u32, u32), miss: u32|
            {
                &&& call_ensures(self.project, (guess,), place)
                &&& #[trigger] call_ensures(self.miss, (place, to), miss)
                &&& spec_below(miss, TOLERANCE)
            }
    }

    /// `out` is what a look at `guess` tells of the place `to`: a guess within the tolerance is the
    /// solution unless it lies beyond the rails; else a step that is not singular leads to the next
    /// guess, held on the globe.
    pub open spec fn is_look<T>(&self, to: (u32, u32), guess: (u32, u32), out: Guess) -> bool where
        F: Fn((u32, u32)) -> (u32, u32),
        G: Fn((u32, u32), (u32, u32)) -> u32,
        H: Fn((u32, u32)) -> T,
        I: Fn(T) -> u32,
        J: Fn(T, (u32, u32), (u32, u32), (u32, u32)) -> (u32, u32),
     {
        exists|place: (u32, u32), miss: u32|
            {
                &&& call_ensures(self.project, (guess,), place)
                &&& #[trigger] call_ensures(self.miss, (place, to), miss)
                &&& if spec_below(miss, TOLERANCE) {
                    out == if within_rails(guess) {
                        Guess::Found
                    } else {
                        Guess::Off
                    }
                } else {
                    self.is_newton::<T>(to, guess, place, out)
                }
            }
    }

    /// `out` is what a step from `guess`, whose place is `place`, leads to.
    pub open spec fn is_newton<T>(
        &self,
        to: (u32, u32),
        guess: (u32, u32),
        place: (u32, u32),
        out: Guess,
    ) -> bool where
        F: Fn((u32, u32)) -> (u32, u32),
        G: Fn((u32, u32), (u32, u32)) -> u32,
        H: Fn((u32, u32)) -> T,
        I: Fn(T) -> u32,
        J: Fn(T, (u32, u32), (u32, u32), (u32, u32)) -> (u32, u32),
     {
        exists|slope: T, det: u32|
            {
                &&& call_ensures(self.slope, (guess,), slope)
                &&& #[trigger] call_ensures(self.det, (slope,), det)
                &&& if spec_below(unsigned(det), SINGULAR) {
                    out is Off
                } else {
                    exists|next: (u32, u32)| #[trigger]
                        call_ensures(self.newton, (slope, guess, place, to), next) && out == Guess::Next(
                            on_globe(next),
                        )
                }
            }
    }

    /// `guesses` are the guesses made for the place `to`: the first is the place itself, and each other
    /// follows from a look at the one before it.
    pub open spec fn are_guesses<T>(&self, to: (u32, u32), guesses: Seq<(u32, u32)>) -> bool where
        F: Fn((u32, u32)) -> (u32, u32),
        G: Fn((u32, u32), (u32, u32)) -> u32,
        H: Fn((u32, u32)) -> T,
        I: Fn(T) -> u32,
        J: Fn(T, (u32, u32), (u32, u32), (u32, u32)) -> (u32, u32),
     {
        &&& guesses.len() > 0
        &&& guesses[0] == on_globe(to)
        &&& forall|k: int|
            0 <= k < guesses.len() - 1 ==> self.is_look::<T>(
                to,
                #[trigger] guesses[k],
                Guess::Next(guesses[k + 1]),
            )
    }

    /// `out` is what the iteration for the place `to` comes to: the guess that a look finds to be the
    /// solution, and nothing where a look says there is none or the steps run out.
    pub open spec fn is_inverse<T>(&self, to: (u32, u32), out: Option<(u32, u32)>) -> bool where
        F: Fn((u32, u32)) -> (u32, u32),
        G: Fn((u32, u32), (u32, u32)) -> u32,
        H: Fn((u32, u32)) -> T,
        I: Fn(T) -> u32,
        J: Fn(T, (u32, u32), (u32, u32), (u32, u32)) -> (u32, u32),
     {
        exists|guesses: Seq<(u32, u32)>|
            {
                &&& #[trigger] self.are_guesses::<T>(to, guesses)
                &&& match out {
                    Some(c) => guesses.len() <= NEWTON_STEPS && guesses.last() == c && self.is_look::<T>(
                        to,
                        c,
                        Guess::Found,
                    ),
                    None => guesses.len() == NEWTON_STEPS + 1 || (guesses.len() <= NEWTON_STEPS
                        && self.is_look::<T>(to, guesses.last(), Guess::Off)),
                }
            }
    }

    /// A look at `guess`.
    fn look<T: Copy>(&self, to: (u32, u32), guess: (u32, u32)) -> (out: Guess) where
        F: Fn((u32, u32)) -> (u32, u32),
        G: Fn((u32, u32), (u32, u32)) -> u32,
        H: Fn((u32, u32)) -> T,
        I: Fn(T) -> u32,
        J: Fn(T, (u32, u32), (u32, u32), (u32, u32)) -> (u32, u32),

        requires
            self.total::<T>(),
        ensures
            self.is_look::<T>(to, guess, out),
    {
        let place: (u32, u32) = (self.project)(guess);
        let miss: u32 = (self.miss)(place, to);
        assert(call_ensures(self.miss, (place, to), miss));
        if below(miss, TOLERANCE) {
            if at_most(without_sign(guess.0), EAST_RAIL) && at_most(without_sign(guess.1), NORTH_RAIL) {
                return Guess::Found;
            }
            return Guess::Off;
        }
        let slope: T = (self.slope)(guess);
        let det: u32 = (self.det)(slope);
        assert(call_ensures(self.det, (slope,), det));
        let out: Guess = if below(without_sign(det), SINGULAR) {
            Guess::Off
        } else {
            let next: (u32, u32) = (self.newton)(slope, guess, place, to);
            assert(call_ensures(self.newton, (slope, guess, place, to), next));
            Guess::Next((clamped(next.0, WEST, EAST), clamped(next.1, SOUTH, NORTH)))
        };
        assert(self.is_newton::<T>(to, guess, place, out));
        out
    }

    /// No guess lies off the globe, whatever it is if it is no number.
    proof fn lemma_guesses_stay<T>(&self, to: (u32, u32), guesses: Seq<(u32, u32)>, k: int) where
        F: Fn((u32, u32)) -> (u32, u32),
        G: Fn((u32, u32), (u32, u32)) -> u32,
        H: Fn((u32, u32)) -> T,
        I: Fn(T) -> u32,
        J: Fn(T, (u32, u32), (u32, u32), (u32, u32)) -> (u32, u32),

        requires
            self.are_guesses::<T>(to, guesses),
            0 <= k < guesses.len(),
        ensures
            exists|c: (u32, u32)| guesses[k] == #[trigger] on_globe(c),
    {
        if k > 0 {
            assert(self.is_look::<T>(to, guesses[k - 1], Guess::Next(guesses[k - 1 + 1])));
        } else {
            assert(guesses[0] == on_globe(to));
        }
    }

    /// A solution lies on the globe, and its place within the tolerance of the place that was looked
    /// for.
    pub proof fn law_solutions_are_near<T>(&self, to: (u32, u32), out: (u32, u32)) where
        F: Fn((u32, u32)) -> (u32, u32),
        G: Fn((u32, u32), (u32, u32)) -> u32,
        H: Fn((u32, u32)) -> T,
        I: Fn(T) -> u32,
        J: Fn(T, (u32, u32), (u32, u32), (u32, u32)) -> (u32, u32),

        requires
            self.is_inverse::<T>(to, Some(out)),
        ensures
            spec_at_most(unsigned(out.0), EAST),
            spec_at_most(unsigned(out.1), NORTH),
            self.hits(to, out),
    {
        let guesses = choose|guesses: Seq<(u32, u32)>|
            {
                &&& #[trigger] self.are_guesses::<T>(to, guesses)
                &&& guesses.len() <= NEWTON_STEPS && guesses.last() == out && self.is_look::<T>(
                    to,
                    out,
                    Guess::Found,
                )
            };
        self.lemma_guesses_stay::<T>(to, guesses, guesses.len() - 1);
        let (place, miss) = choose|place: (u32, u32), miss: u32|
            {
                &&& call_ensures(self.project, (out,), place)
                &&& #[trigger] call_ensures(self.miss, (place, to), miss)
                &&& if spec_below(miss, TOLERANCE) {
                    Guess::Found == if within_rails(out) {
                        Guess::Found
                    } else {
                        Guess::Off
                    }
                } else {
                    self.is_newton::<T>(to, out, place, Guess::Found)
                }
            };
        assert(spec_below(miss, TOLERANCE));
    }

    /// A place that nothing on the map comes near has no solution: one whose distance from every place
    /// is infinite or no number, as where it is infinite or no number itself.
    pub proof fn law_no_solution_without_a_hit<T>(&self, to: (u32, u32), out: Option<(u32, u32)>) where
        F: Fn((u32, u32)) -> (u32, u32),
        G: Fn((u32, u32), (u32, u32)) -> u32,
        H: Fn((u32, u32)) -> T,
        I: Fn(T) -> u32,
        J: Fn(T, (u32, u32), (u32, u32), (u32, u32)) -> (u32, u32),

        requires
            self.is_inverse::<T>(to, out),
            forall|place: (u32, u32), miss: u32| #[trigger]
                call_ensures(self.miss, (place, to), miss) ==> !spec_below(miss, TOLERANCE),
        ensures
            out is None,
    {
        if let Some(c) = out {
            self.law_solutions_are_near::<T>(to, c);
        }
    }
}

/// The longitude and latitude of the place `(x, y)` on the map, or nothing if it is off the map or the
/// iteration does not converge. The projection has no closed-form inverse, so this is Newton's method
/// from the place itself.
pub fn winkel_tripel_inverse<T: Copy, F, G, H, I, J>(by: &Winkel<F, G, H, I, J>, x: u32, y: u32) -> (out:
    Option<(u32, u32)>) where
    F: Fn((u32, u32)) -> (u32, u32),
    G: Fn((u32, u32), (u32, u32)) -> u32,
    H: Fn((u32, u32)) -> T,
    I: Fn(T) -> u32,
    J: Fn(T, (u32, u32), (u32, u32), (u32, u32)) -> (u32, u32),

    requires
        by.total::<T>(),
    ensures
        by.is_inverse::<T>((x, y), out),
        match out {
            Some(c) => spec_at_most(unsigned(c.0), EAST) && spec_at_most(unsigned(c.1), NORTH)
                && by.hits((x, y), c),
            None => true,
        },
{
    let to: (u32, u32) = (x, y);
    let mut guess: (u32, u32) = (clamped(x, WEST, EAST), clamped(y, SOUTH, NORTH));
    let ghost mut guesses: Seq<(u32, u32)> = seq![guess];
    let mut k: usize = 0;
    while k < NEWTON_STEPS
        invariant
            by.total::<T>(),
            to == (x, y),
            k <= NEWTON_STEPS,
            by.are_guesses::<T>(to, guesses),
            guesses.len() == k + 1,
            guesses.last() == guess,
        decreases NEWTON_STEPS - k,
    {
        match by.look::<T>(to, guess) {
            Guess::Found => {
                assert(by.is_inverse::<T>(to, Some(guess)));
                proof {
                    by.law_solutions_are_near::<T>(to, guess);
                }
                return Some(guess);
            },
            Guess::Off => {
                return None;
            },
            Guess::Next(c) => {
                proof {
                    let longer = guesses.push(c);
                    assert forall|m: int| 0 <= m < longer.len() - 1 implies by.is_look::<T>(
                        to,
                        #[trigger] longer[m],
                        Guess::Next(longer[m + 1]),
                    ) by {
                        if m < guesses.len() - 1 {
                            assert(longer[m] == guesses[m] && longer[m + 1] == guesses[m + 1]);
                        }
                    }
                    guesses = longer;
                }
                guess = c;
            },
        }
        k = k + 1;
    }
    None
}

/// `out` is the outline through `corners`: `segments` points along each side, the side from the
/// last corner back to the first included, and the first corner again to close the loop.
pub open spec fn is_outline<P, F: Fn(P, P, usize) -> P, G: Fn(P) -> P>(
    along: F,
    lift: G,
    corners: (P, P, P, P),
    segments: nat,
    out: Seq<P>,
) -> bool {
    &&& out.len() == 4 * segments + 1
    &&& forall|k: int|
        0 <= k < segments ==> call_ensures(along, (corners.0, corners.1, k as usize), #[trigger] out[k])
    &&& forall|k: int|
        segments <= k < 2 * segments ==> call_ensures(
            along,
            (corners.1, corners.2, (k - segments) as usize),
            #[trigger] out[k],
        )
    &&& forall|k: int|
        2 * segments <= k < 3 * segments ==> call_ensures(
            along,
            (corners.2, corners.3, (k - 2 * segments) as usize),
            #[trigger] out[k],
        )
    &&& forall|k: int|
        3 * segments <= k < 4 * segments ==> call_ensures(
            along,
            (corners.3, corners.0, (k - 3 * segments) as usize),
            #[trigger] out[k],
        )
    &&& call_ensures(lift, (corners.0,), out[4 * segments as int])
}

/// Append the points of one side.
fn push_side<P: Copy, F: Fn(P, P, usize) -> P>(along: &F, a: P, b: P, segments: usize, out: &mut Vec<P>)
    requires
        forall|p: P, q: P, k: usize| #[trigger] call_requires(*along, (p, q, k)),
    ensures
        final(out)@.len() == old(out)@.len() + segments,
        forall|k: int| 0 <= k < old(out)@.len() ==> #[trigger] final(out)@[k] == old(out)@[k],
        forall|k: int|
            old(out)@.len() <= k < old(out)@.len() + segments ==> call_ensures(
                *along,
                (a, b, (k - old(out)@.len()) as usize),
                #[trigger] final(out)@[k],
            ),
{
    let ghost first = out@;
    let mut k: usize = 0;
    while k < segments
        invariant
            forall|p: P, q: P, k: usize| #[trigger] call_requires(*along, (p, q, k)),
            k <= segments,
            out@.len() == first.len() + k,
            forall|m: int| 0 <= m < first.len() ==> #[trigger] out@[m] == first[m],
            forall|m: int|
                first.len() <= m < first.len() + k ==> call_ensures(
                    *along,
                    (a, b, (m - first.len()) as usize),
                    #[trigger] out@[m],
                ),
        decreases segments - k,
    {
        out.push(along(a, b, k));
        k = k + 1;
    }
}

/// A closed line loop through four corners. `along` gives the point at a step from one corner to
/// the next, and `lift` lifts a corner off the surface.
pub fn footprint_outline<P: Copy, F: Fn(P, P, usize) -> P, G: Fn(P) -> P>(
    along: &F,
    lift: &G,
    corners: (P, P, P, P),
    segments: usize,
) -> (out: Vec<P>)
    requires
        forall|p: P, q: P, k: usize| #[trigger] call_requires(*along, (p, q, k)),
        forall|p: P| #[trigger] call_requires(*lift, (p,)),
    ensures
        is_outline(*along, *lift, corners, segments as nat, out@),
{
    let mut out: Vec<P> = Vec::new();
    push_side(along, corners.0, corners.1, segments, &mut out);
    push_side(along, corners.1, corners.2, segments, &mut out);
    push_side(along, corners.2, corners.3, segments, &mut out);
    push_side(along, corners.3, corners.0, segments, &mut out);
    out.push(lift(corners.0));
    out
}

} // verus!
