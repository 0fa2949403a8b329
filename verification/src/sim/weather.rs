//! Advancing the climate: sub-steps, and the order of what happens in each.
//!
//! A step reads the temperature gradients, seeds the winds the first time, carries each wind layer
//! forward from the bottom up, so that each is drawn towards the already-moved layer below it, and
//! then balances the energy of every cell. The formulas are the caller's ([`Weather`]).

use crate::fold::{fold, is_fold, is_running, lemma_fold_is_one};
use crate::grid::Grid;
use crate::kernel::{is_function1, is_function2, is_function4, is_function6};
use crate::order::{INFINITY, ZERO};
use crate::sim::temperature::{
    are_layers, same_layers, total_of, AirFlux, Balance, Physics, SkinFlux, Snapshot, Stepped,
};
use crate::sim::wind::{
    compute, gradient_factor, gradients, is_gradient, is_gradient_factor, law_gradient_factor_is_one,
    law_gradient_is_one, spec_layer_height, Contrast, Dynamics, Momentum, Parcel,
};
use crate::sim::{Climate, Sim};
use vstd::prelude::*;

verus! {

/// Pattern of the longest step, in simulation seconds: 150.
pub const MAX_SUBSTEP: u32 = 0x4316_0000;

/// `links` is a chain: it starts with `first`, and each link is the one before it times `ratio`.
pub open spec fn is_chain<S, F: Fn(S, S) -> S>(times: F, first: S, ratio: S, links: Seq<S>) -> bool {
    &&& links.len() > 0 ==> links[0] == first
    &&& forall|k: int|
        0 <= k < links.len() - 1 ==> call_ensures(times, (#[trigger] links[k], ratio), links[k + 1])
}

proof fn lemma_chains_agree<S, F: Fn(S, S) -> S>(
    times: F,
    first: S,
    ratio: S,
    x: Seq<S>,
    y: Seq<S>,
    k: int,
)
    requires
        is_function2(times),
        is_chain(times, first, ratio, x),
        is_chain(times, first, ratio, y),
        0 <= k < x.len(),
        k < y.len(),
    ensures
        x[k] == y[k],
    decreases k,
{
    if k > 0 {
        lemma_chains_agree(times, first, ratio, x, y, k - 1);
        assert(call_ensures(times, (x[k - 1], ratio), x[k - 1 + 1]));
        assert(call_ensures(times, (y[k - 1], ratio), y[k - 1 + 1]));
    }
}

/// There is one chain of a length.
proof fn lemma_chain_is_one<S, F: Fn(S, S) -> S>(times: F, first: S, ratio: S, x: Seq<S>, y: Seq<S>)
    requires
        is_function2(times),
        is_chain(times, first, ratio, x),
        is_chain(times, first, ratio, y),
        x.len() == y.len(),
    ensures
        x == y,
{
    assert forall|k: int| 0 <= k < x.len() implies x[k] == y[k] by {
        lemma_chains_agree(times, first, ratio, x, y, k);
    }
    assert(x =~= y);
}

/// The chain of `n` links.
fn chain<S: Copy, F: Fn(S, S) -> S>(times: &F, first: S, ratio: S, n: usize) -> (links: Vec<S>)
    requires
        forall|a: S, b: S| #[trigger] call_requires(*times, (a, b)),
    ensures
        links@.len() == n,
        is_chain(*times, first, ratio, links@),
{
    let mut links: Vec<S> = Vec::new();
    let mut link: S = first;
    let mut k: usize = 0;
    while k < n
        invariant
            k <= n,
            links@.len() == k,
            forall|a: S, b: S| #[trigger] call_requires(*times, (a, b)),
            is_chain(*times, first, ratio, links@),
            k == 0 ==> link == first,
            k > 0 ==> call_ensures(*times, (links@[k - 1], ratio), link),
        decreases n - k,
    {
        let ghost before = links@;
        links.push(link);
        assert forall|m: int| 0 <= m < links@.len() - 1 implies call_ensures(
            *times,
            (#[trigger] links@[m], ratio),
            links@[m + 1],
        ) by {
            if m < before.len() - 1 {
                assert(links@[m] == before[m] && links@[m + 1] == before[m + 1]);
            }
        }
        link = times(link, ratio);
        k = k + 1;
    }
    links
}

/// The arithmetic of a column's profile.
pub struct Arith<S, F, G, H> {
    pub zero: S,
    pub one: S,
    pub plus: F,
    pub times: G,
    /// What to scale weights of the given sum by, for them to sum to the given total. Takes the
    /// total and the sum.
    pub scale: H,
}

impl<S, F, G, H> Arith<S, F, G, H> where
    F: Fn(S, S) -> S,
    G: Fn(S, S) -> S,
    H: Fn(S, S) -> S,
 {
    /// The operations take every value.
    pub open spec fn total(&self) -> bool {
        &&& forall|a: S, b: S| #[trigger] call_requires(self.plus, (a, b))
        &&& forall|a: S, b: S| #[trigger] call_requires(self.times, (a, b))
        &&& forall|a: S, b: S| #[trigger] call_requires(self.scale, (a, b))
    }

    /// `profile` splits `whole` geometrically over its layers: weights that start with one and
    /// decay, each scaled by what their sum asks for.
    pub open spec fn is_profile(&self, whole: S, decay: S, profile: Seq<S>) -> bool {
        exists|weights: Seq<S>, sum: S, scale: S|
            {
                &&& weights.len() == profile.len()
                &&& #[trigger] is_chain(self.times, self.one, decay, weights)
                &&& is_fold(self.plus, self.zero, weights, sum)
                &&& #[trigger] call_ensures(self.scale, (whole, sum), scale)
                &&& self.is_scaled(weights, scale, profile)
            }
    }

    /// `profile` are the weights, each times `scale`.
    pub open spec fn is_scaled(&self, weights: Seq<S>, scale: S, profile: Seq<S>) -> bool {
        &&& profile.len() == weights.len()
        &&& forall|l: int|
            0 <= l < profile.len() ==> call_ensures(
                self.times,
                (weights[l], scale),
                #[trigger] profile[l],
            )
    }

    /// Split a column's whole over `n` layers by a geometric profile, the lowest layer the largest,
    /// so that the layers sum to the whole.
    pub fn geometric_profile(&self, whole: S, decay: S, n: usize) -> (profile: Vec<S>) where S: Copy
        requires
            self.total(),
        ensures
            profile@.len() == n,
            self.is_profile(whole, decay, profile@),
    {
        let weights: Vec<S> = chain(&self.times, self.one, decay, n);
        let sum: S = fold(&self.plus, self.zero, &weights);
        let scale: S = (self.scale)(whole, sum);
        let mut profile: Vec<S> = Vec::new();
        let mut l: usize = 0;
        while l < n
            invariant
                self.total(),
                l <= n,
                weights@.len() == n,
                profile@.len() == l,
                forall|k: int|
                    0 <= k < l ==> call_ensures(self.times, (weights@[k], scale), #[trigger] profile@[k]),
            decreases n - l,
        {
            profile.push((self.times)(weights[l], scale));
            l = l + 1;
        }
        assert(self.is_scaled(weights@, scale, profile@));
        profile
    }

    /// A whole has one profile.
    proof fn lemma_profile_is_one(&self, whole: S, decay: S, x: Seq<S>, y: Seq<S>)
        requires
            is_function2(self.plus),
            is_function2(self.times),
            is_function2(self.scale),
            x.len() == y.len(),
            self.is_profile(whole, decay, x),
            self.is_profile(whole, decay, y),
        ensures
            x == y,
    {
        let (wa, sa, ka) = choose|weights: Seq<S>, sum: S, scale: S|
            {
                &&& weights.len() == x.len()
                &&& #[trigger] is_chain(self.times, self.one, decay, weights)
                &&& is_fold(self.plus, self.zero, weights, sum)
                &&& #[trigger] call_ensures(self.scale, (whole, sum), scale)
                &&& self.is_scaled(weights, scale, x)
            };
        let (wb, sb, kb) = choose|weights: Seq<S>, sum: S, scale: S|
            {
                &&& weights.len() == y.len()
                &&& #[trigger] is_chain(self.times, self.one, decay, weights)
                &&& is_fold(self.plus, self.zero, weights, sum)
                &&& #[trigger] call_ensures(self.scale, (whole, sum), scale)
                &&& self.is_scaled(weights, scale, y)
            };
        lemma_chain_is_one(self.times, self.one, decay, wa, wb);
        lemma_fold_is_one(self.plus, self.zero, wa, sa, sb);
        assert(ka == kb);
        assert forall|l: int| 0 <= l < x.len() implies x[l] == y[l] by {
            assert(call_ensures(self.times, (wa[l], ka), x[l]));
            assert(call_ensures(self.times, (wa[l], ka), y[l]));
        }
        assert(x =~= y);
    }

    /// The arithmetic is exact for the values `val` of the scalars, in units in which `unit` is one.
    pub open spec fn exact(&self, val: spec_fn(S) -> int, unit: int) -> bool {
        &&& val(self.zero) == 0
        &&& val(self.one) == unit
        &&& forall|a: S, b: S, c: S| #[trigger]
            call_ensures(self.plus, (a, b), c) ==> val(c) == val(a) + val(b)
        &&& forall|a: S, b: S, c: S| #[trigger]
            call_ensures(self.times, (a, b), c) ==> unit * val(c) == val(a) * val(b)
        &&& forall|a: S, b: S, c: S| #[trigger]
            call_ensures(self.scale, (a, b), c) ==> val(c) * val(b) == unit * val(a)
    }

    /// A profile keeps the whole: where the arithmetic is exact, the layers sum to it, however many
    /// there are.
    pub proof fn law_profile_keeps_the_whole(
        &self,
        val: spec_fn(S) -> int,
        unit: int,
        whole: S,
        decay: S,
        profile: Seq<S>,
    )
        requires
            unit != 0,
            self.exact(val, unit),
            self.is_profile(whole, decay, profile),
        ensures
            total_of(val, profile) == val(whole),
    {
        let (weights, sum, scale) = choose|weights: Seq<S>, sum: S, scale: S|
            {
                &&& weights.len() == profile.len()
                &&& #[trigger] is_chain(self.times, self.one, decay, weights)
                &&& is_fold(self.plus, self.zero, weights, sum)
                &&& #[trigger] call_ensures(self.scale, (whole, sum), scale)
                &&& self.is_scaled(weights, scale, profile)
            };
        let sums = choose|sums: Seq<S>| #[trigger]
            is_running(self.plus, self.zero, weights, sums) && sums.last() == sum;
        self.lemma_scaled_sum(val, unit, weights, scale, profile, sums, weights.len() as int);
        assert(profile.take(weights.len() as int) =~= profile);
        let t = total_of(val, profile);
        let w = val(whole);
        assert(unit * t == unit * w);
        assert(t == w) by (nonlinear_arith)
            requires
                unit * t == unit * w,
                unit != 0,
        ;
    }

    proof fn lemma_scaled_sum(
        &self,
        val: spec_fn(S) -> int,
        unit: int,
        weights: Seq<S>,
        scale: S,
        profile: Seq<S>,
        sums: Seq<S>,
        k: int,
    )
        requires
            self.exact(val, unit),
            self.is_scaled(weights, scale, profile),
            is_running(self.plus, self.zero, weights, sums),
            0 <= k <= weights.len(),
        ensures
            unit * total_of(val, profile.take(k)) == val(scale) * val(sums[k]),
        decreases k,
    {
        if k > 0 {
            let l = k - 1;
            self.lemma_scaled_sum(val, unit, weights, scale, profile, sums, l);
            assert(profile.take(k).drop_last() =~= profile.take(l));
            assert(profile.take(k).last() == profile[l]);
            assert(call_ensures(self.times, (weights[l], scale), profile[l]));
            assert(call_ensures(self.plus, (sums[l], weights[l]), sums[l + 1]));
            let before = total_of(val, profile.take(l));
            let p = val(profile[l]);
            let s = val(scale);
            let a = val(sums[l]);
            let w = val(weights[l]);
            assert(unit * (before + p) == unit * before + unit * p) by (nonlinear_arith);
            assert(s * (a + w) == s * a + w * s) by (nonlinear_arith);
        } else {
            assert(profile.take(0) =~= Seq::<S>::empty());
            assert(val(scale) * 0 == 0);
        }
    }
}

/// What the formulas of a step depend on.
#[derive(Clone, Copy, Debug)]
pub struct Moment<S, D> {
    pub climate: Climate<S>,
    /// Time at the start of the step.
    pub time: D,
    /// Length of the step, as a pattern.
    pub dt: u32,
    /// The climate gradient at the start of the step.
    pub gradient: S,
    /// Layers of the simulated column.
    pub layers: usize,
}

/// What is left of an advance calls for a step: a positive number of seconds.
pub open spec fn is_left(seconds: u32) -> bool {
    0 < seconds <= INFINITY
}

/// The step that is taken when `seconds` are left.
pub open spec fn chunk(seconds: u32) -> u32 {
    if seconds < MAX_SUBSTEP {
        seconds
    } else {
        MAX_SUBSTEP
    }
}

/// The formulas of the climate over a grid.
pub struct Weather<
    'a,
    P,
    Lc,
    A,
    S,
    V,
    D,
    T,
    U,
    B,
    X,
    W,
    FA,
    FB,
    FC,
    FD,
    GA,
    GB,
    GC,
    GD,
    HA,
    HB,
    HC,
    IA,
    IB,
    IC,
    ID,
    IE,
    IF,
    IG,
    IH,
    JA,
    JB,
    KA,
    KB,
    KC,
    KD,
    KE,
    KM,
    KN,
    KF,
    KL,
    KG,
    KH,
    KI,
    KJ,
    KK,
    KO,
    LA,
    LB,
> {
    pub grid: &'a Grid<P, Lc, A>,
    /// Winds are of type `V` and times of type `D`.
    pub of: core::marker::PhantomData<(V, D)>,
    /// Profiles of the column.
    pub arith: Arith<S, FA, FB, FC>,
    /// Transmission of a layer, from its emissivity.
    pub clear: FD,
    /// The climate gradient.
    pub contrast: Contrast<S, T, GA, GB, GC, GD>,
    /// Nothing fitted.
    pub unfit: U,
    /// The fit of a gradient with one neighbor more: the two positions and the two values.
    pub fit: HA,
    /// The gradient at a position, from its fit.
    pub solve: HB,
    /// The balance wind that seeds a layer, from its height, the position and the gradient.
    pub calm: HC,
    /// The momentum of the winds.
    pub dynamics: Dynamics<B, X, IA, IB, IC, ID, IE, IF, IG, IH>,
    /// No tendency gathered.
    pub quiet: W,
    /// The advective tendency of a layer with one cell more: its wind, gradient and area.
    pub tally: JA,
    /// The mean of the tendency gathered.
    pub mean_drift: JB,
    /// The energy balance.
    pub physics: Physics<S, KA, KB, KC, KD, KE, KM, KN, KF, KL, KG, KH, KI, KJ, KK, KO>,
    /// The time a step later.
    pub later: LA,
    /// What is left of a number of seconds once a step is taken off.
    pub minus: LB,
}

impl<
    'a,
    P,
    Lc,
    A,
    S,
    V,
    D,
    T,
    U,
    B,
    X,
    W,
    FA,
    FB,
    FC,
    FD,
    GA,
    GB,
    GC,
    GD,
    HA,
    HB,
    HC,
    IA,
    IB,
    IC,
    ID,
    IE,
    IF,
    IG,
    IH,
    JA,
    JB,
    KA,
    KB,
    KC,
    KD,
    KE,
    KM,
    KN,
    KF,
    KL,
    KG,
    KH,
    KI,
    KJ,
    KK,
    KO,
    LA,
    LB,
> Weather<
    'a,
    P,
    Lc,
    A,
    S,
    V,
    D,
    T,
    U,
    B,
    X,
    W,
    FA,
    FB,
    FC,
    FD,
    GA,
    GB,
    GC,
    GD,
    HA,
    HB,
    HC,
    IA,
    IB,
    IC,
    ID,
    IE,
    IF,
    IG,
    IH,
    JA,
    JB,
    KA,
    KB,
    KC,
    KD,
    KE,
    KM,
    KN,
    KF,
    KL,
    KG,
    KH,
    KI,
    KJ,
    KK,
    KO,
    LA,
    LB,
> where
    P: Copy + Sync,
    Lc: Copy + Sync,
    A: Copy + Sync,
    S: Copy + Send + Sync,
    V: Copy + Send + Sync,
    D: Copy + Sync,
    T: Copy,
    U: Copy + Send + Sync,
    B: Copy + Sync,
    X: Copy + Sync,
    W: Copy,
    FA: Fn(S, S) -> S + Sync,
    FB: Fn(S, S) -> S + Sync,
    FC: Fn(S, S) -> S + Sync,
    FD: Fn(S) -> S + Sync,
    GA: Fn(Lc) -> u32 + Sync,
    GB: Fn(T, S, A) -> T + Sync,
    GC: Fn(T) -> bool + Sync,
    GD: Fn(T, T) -> S + Sync,
    HA: Fn(Moment<S, D>, U, P, P, S, S) -> U + Sync,
    HB: Fn(P, U) -> V + Sync,
    HC: Fn(Moment<S, D>, (usize, usize), P, V) -> V + Sync,
    IA: Fn(P) -> usize + Sync,
    IB: Fn(Moment<S, D>, B, P, V, V, A) -> B + Sync,
    IC: Fn(B) -> B + Sync,
    ID: Fn(X, P, P, V, V, A) -> X + Sync,
    IE: Fn(Moment<S, D>, Parcel<P, A, V, B, X>) -> V + Sync,
    IF: Fn(P, V) -> V + Sync,
    IG: Fn(V) -> u32 + Sync,
    IH: Fn(V, u32, u32) -> V + Sync,
    JA: Fn(W, V, V, A) -> W + Sync,
    JB: Fn(W) -> S + Sync,
    KA: Fn(S, S, S) -> S + Sync,
    KB: Fn(S, S, S, S) -> S + Sync,
    KC: Fn(S, S) -> S + Sync,
    KD: Fn(Moment<S, D>, S) -> S + Sync,
    KE: Fn(S, S) -> S + Sync,
    KM: Fn(Moment<S, D>, S, S) -> S + Sync,
    KN: Fn(S) -> bool + Sync,
    KF: Fn(Moment<S, D>, P) -> S + Sync,
    KL: Fn(Moment<S, D>, P) -> S + Sync,
    KG: Fn(S, S, S, A, S, S) -> S + Sync,
    KH: Fn(Moment<S, D>, SkinFlux<S>) -> S + Sync,
    KI: Fn(Moment<S, D>, S, A, S, S) -> S + Sync,
    KJ: Fn(V, V, S) -> S + Sync,
    KK: Fn(Moment<S, D>, AirFlux<S>) -> S + Sync,
    KO: Fn(S, S) -> bool + Sync,
    LA: Fn(D, u32) -> D + Sync,
    LB: Fn(u32, u32) -> u32 + Sync,
 {
    /// The grid is sound and the formulas take every value.
    pub open spec fn wf(&self) -> bool {
        &&& self.grid.wf()
        &&& self.arith.total()
        &&& forall|e: S| #[trigger] call_requires(self.clear, (e,))
        &&& forall|l: Lc| #[trigger] call_requires(self.contrast.latitude, (l,))
        &&& forall|t: T, s: S, a: A| #[trigger] call_requires(self.contrast.gather, (t, s, a))
        &&& forall|t: T| #[trigger] call_requires(self.contrast.void, (t,))
        &&& forall|t: T, u: T| #[trigger] call_requires(self.contrast.ratio, (t, u))
        &&& forall|p: P, u: U| #[trigger] call_requires(self.solve, (p, u))
        &&& forall|p: P| #[trigger] call_requires(self.dynamics.zones.band, (p,))
        &&& forall|b: B| #[trigger] call_requires(self.dynamics.zones.mean, (b,))
        &&& forall|x: X, p: P, q: P, v: V, w: V, a: A| #[trigger]
            call_requires(self.dynamics.carry, (x, p, q, v, w, a))
        &&& self.dynamics.limits.total::<P, V>()
        &&& forall|w: W, v: V, g: V, a: A| #[trigger] call_requires(self.tally, (w, v, g, a))
        &&& forall|w: W| #[trigger] call_requires(self.mean_drift, (w,))
        &&& self.physics.beam.total()
        &&& forall|e: S, t: S| #[trigger] call_requires(self.physics.emit, (e, t))
        &&& forall|s: S, c: S, d: S, w: A, t: S, u: S| #[trigger]
            call_requires(self.physics.mix_skin, (s, c, d, w, t, u))
        &&& forall|k: S, x: S| #[trigger] call_requires(self.physics.vent, (k, x))
        &&& forall|x: S| #[trigger] call_requires(self.physics.flows, (x,))
        &&& forall|t: S, u: S| #[trigger] call_requires(self.physics.under, (t, u))
        &&& forall|v: V, g: V, c: S| #[trigger] call_requires(self.physics.drift, (v, g, c))
        &&& forall|d: D, dt: u32| #[trigger] call_requires(self.later, (d, dt))
        &&& forall|r: u32, dt: u32| #[trigger] call_requires(self.minus, (r, dt))
        &&& forall|at: Moment<S, D>| #[trigger] self.takes(at)
    }

    /// The formulas that depend on the moment take every value at `at`.
    pub open spec fn takes(&self, at: Moment<S, D>) -> bool {
        &&& forall|u: U, p: P, q: P, a: S, b: S| #[trigger] call_requires(self.fit, (at, u, p, q, a, b))
        &&& forall|h: (usize, usize), p: P, g: V| #[trigger] call_requires(self.calm, (at, h, p, g))
        &&& forall|b: B, p: P, v: V, g: V, a: A| #[trigger]
            call_requires(self.dynamics.zones.join, (at, b, p, v, g, a))
        &&& forall|c: Parcel<P, A, V, B, X>| #[trigger] call_requires(self.dynamics.push, (at, c))
        &&& forall|t: S| #[trigger] call_requires(self.physics.glow, (at, t))
        &&& forall|t: S, u: S| #[trigger] call_requires(self.physics.excess, (at, t, u))
        &&& forall|p: P| #[trigger] call_requires(self.physics.light, (at, p))
        &&& forall|p: P| #[trigger] call_requires(self.physics.conduct, (at, p))
        &&& forall|f: SkinFlux<S>| #[trigger] call_requires(self.physics.warm_skin, (at, f))
        &&& forall|s: S, w: A, t: S, u: S| #[trigger]
            call_requires(self.physics.mix_air, (at, s, w, t, u))
        &&& forall|f: AirFlux<S>| #[trigger] call_requires(self.physics.warm_air, (at, f))
    }

    /// `slopes` are the gradients of `field`.
    pub open spec fn are_slopes(&self, at: Moment<S, D>, field: Seq<S>, slopes: Seq<V>) -> bool {
        &&& slopes.len() == self.grid.n
        &&& forall|i: int|
            0 <= i < slopes.len() ==> is_gradient(
                self.grid,
                field,
                self.fit,
                self.solve,
                self.unfit,
                at,
                i,
                #[trigger] slopes[i],
            )
    }

    /// The gradient that drives the wind of layer `l`: that of the surface under the lowest, the
    /// layer's own aloft.
    pub open spec fn drive(grad_s: Vec<V>, grads: Seq<Vec<V>>, l: int) -> Vec<V> {
        if l == 0 {
            grad_s
        } else {
            grads[l]
        }
    }

    /// `winds` is the balance wind of layer `l` under the gradient `grad`.
    pub open spec fn is_calm(&self, at: Moment<S, D>, l: int, layers: int, grad: Seq<V>, winds: Seq<V>) -> bool {
        &&& winds.len() == self.grid.n
        &&& forall|i: int|
            0 <= i < winds.len() ==> call_ensures(
                self.calm,
                (at, spec_layer_height(l as usize, layers as usize), self.grid.centers@[i], grad[i]),
                #[trigger] winds[i],
            )
    }

    /// The step of wind layer `l`, out of `layers`: its wind is `wind`, and `below` is the layer
    /// below it as already stepped.
    pub open spec fn momentum<'b>(
        &'b self,
        at: Moment<S, D>,
        l: int,
        layers: int,
        wind: &'b Vec<V>,
        grad: &'b Vec<V>,
        below: Option<&'b Vec<V>>,
    ) -> Momentum<'b, P, Lc, A, V, B, X, Moment<S, D>, IA, IB, IC, ID, IE, IF, IG, IH> {
        Momentum {
            grid: self.grid,
            wind,
            grad,
            below,
            layer: l as usize,
            n_layers: layers as usize,
            at,
            by: &self.dynamics,
        }
    }

    /// `winds[l]` is where layer `l` stands after the step, from `first[l]`.
    pub open spec fn is_blown(
        &self,
        at: Moment<S, D>,
        grad_s: Vec<V>,
        grads: Seq<Vec<V>>,
        first: Seq<Vec<V>>,
        winds: Seq<Vec<V>>,
        l: int,
    ) -> bool {
        self.momentum(
            at,
            l,
            grads.len() as int,
            &first[l],
            &Self::drive(grad_s, grads, l),
            if l == 0 {
                None
            } else {
                Some(&winds[l - 1])
            },
        ).is_step(winds[l]@)
    }

    /// `sums` gather the advective tendency of a layer over the first `n` cells.
    pub open spec fn are_tallies(&self, wind: Seq<V>, grad: Seq<V>, n: int, sums: Seq<W>) -> bool {
        &&& sums.len() == n + 1
        &&& sums[0] == self.quiet
        &&& forall|i: int|
            0 <= i < n ==> call_ensures(
                self.tally,
                (sums[i], #[trigger] wind[i], grad[i], self.grid.areas@[i]),
                sums[i + 1],
            )
    }

    /// `mean` is the mean advective tendency of a layer.
    pub open spec fn is_mean_drift(&self, wind: Seq<V>, grad: Seq<V>, mean: S) -> bool {
        exists|sums: Seq<W>| #[trigger]
            self.are_tallies(wind, grad, self.grid.n as int, sums) && call_ensures(
                self.mean_drift,
                (sums.last(),),
                mean,
            )
    }

    /// `means` are the mean advective tendencies of the layers, zero where nothing is advected.
    pub open spec fn are_mean_drifts(
        &self,
        advect: bool,
        winds: Seq<Vec<V>>,
        grads: Seq<Vec<V>>,
        means: Seq<S>,
    ) -> bool {
        &&& means.len() == winds.len()
        &&& forall|l: int|
            0 <= l < means.len() ==> if advect {
                self.is_mean_drift(winds[l]@, grads[l]@, #[trigger] means[l])
            } else {
                means[l] == self.arith.zero
            }
    }

    /// What the layers and links of the column are given, from the climate's totals: emissivity and
    /// heat capacity by a geometric profile, transmission from the emissivity, and a chain of
    /// convective links.
    pub open spec fn is_column(
        &self,
        climate: Climate<S>,
        layers: int,
        emis: Seq<S>,
        capacity: Seq<S>,
        tau: Seq<S>,
        kappa: Seq<S>,
    ) -> bool {
        &&& emis.len() == layers
        &&& self.arith.is_profile(climate.atm_emissivity_total, climate.atm_emissivity_decay, emis)
        &&& capacity.len() == layers
        &&& self.arith.is_profile(
            climate.atm_heat_capacity_total,
            climate.atm_heat_capacity_decay,
            capacity,
        )
        &&& tau.len() == layers
        &&& forall|l: int|
            0 <= l < layers ==> call_ensures(self.clear, (#[trigger] emis[l],), tau[l])
        &&& kappa.len() == layers
        &&& is_chain(self.arith.times, climate.convection_coeff, climate.convection_decay, kappa)
    }

    /// The winds of `before` as a step of it finds them: seeded from the balance wind if they were
    /// not yet.
    pub open spec fn are_first_winds<M>(
        &self,
        before: Sim<S, V, M, D>,
        at: Moment<S, D>,
        grad_s: Vec<V>,
        grads: Seq<Vec<V>>,
        first: Seq<Vec<V>>,
    ) -> bool {
        if before.wind_seeded {
            first == before.wind_layers@
        } else {
            &&& first.len() == before.n_layers
            &&& forall|l: int|
                0 <= l < first.len() ==> #[trigger] self.is_calm(
                    at,
                    l,
                    before.n_layers as int,
                    Self::drive(grad_s, grads, l)@,
                    first[l]@,
                )
        }
    }

    /// The moment of a step of `dt` from `before`, given the climate gradient.
    pub open spec fn moment<M>(before: Sim<S, V, M, D>, dt: u32, gradient: S) -> Moment<S, D> {
        Moment {
            climate: before.climate,
            time: before.time,
            dt,
            gradient,
            layers: before.n_layers,
        }
    }

    /// `skin`, `vented` and `air` are the fields of `before` after the energy balance of the step,
    /// under the given gradients and winds.
    pub open spec fn is_heated<M>(
        &self,
        before: Sim<S, V, M, D>,
        at: Moment<S, D>,
        grads: Vec<Vec<V>>,
        winds: Vec<Vec<V>>,
        skin: Seq<S>,
        vented: Seq<S>,
        air: Seq<Vec<S>>,
    ) -> bool {
        exists|emis: Vec<S>, capacity: Vec<S>, tau: Vec<S>, kappa: Vec<S>, means: Vec<S>| #[trigger]
            self.is_heated_by(
                before,
                at,
                grads,
                winds,
                skin,
                vented,
                air,
                emis,
                capacity,
                tau,
                kappa,
                means,
            )
    }

    /// As [`Self::is_heated`], for what the column is given and the mean tendencies of the layers.
    pub open spec fn is_heated_by<M>(
        &self,
        before: Sim<S, V, M, D>,
        at: Moment<S, D>,
        grads: Vec<Vec<V>>,
        winds: Vec<Vec<V>>,
        skin: Seq<S>,
        vented: Seq<S>,
        air: Seq<Vec<S>>,
        emis: Vec<S>,
        capacity: Vec<S>,
        tau: Vec<S>,
        kappa: Vec<S>,
        means: Vec<S>,
    ) -> bool {
        &&& self.is_column(
            before.climate,
            before.n_layers as int,
            emis@,
            capacity@,
            tau@,
            kappa@,
        )
        &&& self.are_mean_drifts(before.climate.atm_advection, winds@, grads@, means@)
        &&& self.balance_of(
            before,
            at,
            grads,
            winds,
            emis,
            capacity,
            tau,
            kappa,
            means,
        ).is_step(skin, vented, air)
    }

    /// The energy balance of a step from `before`.
    pub open spec fn balance_of<M>(
        &self,
        before: Sim<S, V, M, D>,
        at: Moment<S, D>,
        grads: Vec<Vec<V>>,
        winds: Vec<Vec<V>>,
        emis: Vec<S>,
        capacity: Vec<S>,
        tau: Vec<S>,
        kappa: Vec<S>,
        means: Vec<S>,
    ) -> Balance<
        '_,
        P,
        Lc,
        A,
        S,
        V,
        Moment<S, D>,
        KA,
        KB,
        KC,
        KD,
        KE,
        KM,
        KN,
        KF,
        KL,
        KG,
        KH,
        KI,
        KJ,
        KK,
        KO,
    > {
        Balance {
            now: Snapshot {
                grid: self.grid,
                skin: &before.temp,
                air: &before.atm,
                emis: &emis,
                tau: &tau,
                kappa: &kappa,
                skin_capacity: &before.heat_cap,
                air_capacity: &capacity,
                winds: &winds,
                grads: &grads,
                correction: &means,
                advect: before.climate.atm_advection,
            },
            at,
            by: &self.physics,
        }
    }

    /// `after` is `before` one step of `dt` later.
    pub open spec fn is_substep<M>(&self, before: Sim<S, V, M, D>, dt: u32, after: Sim<S, V, M, D>) -> bool {
        exists|gradient: S, first: Seq<Vec<V>>| #[trigger]
            self.is_substep_by(before, dt, after, gradient, first)
    }

    /// As [`Self::is_substep`], for the climate gradient and the winds that the step starts from.
    #[verifier::opaque]
    pub open spec fn is_substep_by<M>(
        &self,
        before: Sim<S, V, M, D>,
        dt: u32,
        after: Sim<S, V, M, D>,
        gradient: S,
        first: Seq<Vec<V>>,
    ) -> bool {
        &&& is_gradient_factor(self.grid, before.temp@, self.contrast, gradient)
        &&& self.are_slopes(Self::moment(before, dt, gradient), before.temp@, after.grad_s@)
        &&& after.grads@.len() == before.n_layers
        &&& forall|l: int|
            0 <= l < before.n_layers ==> self.are_slopes(
                Self::moment(before, dt, gradient),
                before.atm@[l]@,
                (#[trigger] after.grads@[l])@,
            )
        &&& self.are_first_winds(
            before,
            Self::moment(before, dt, gradient),
            after.grad_s,
            after.grads@,
            first,
        )
        &&& after.wind_layers@.len() == before.n_layers
        &&& forall|l: int|
            0 <= l < before.n_layers ==> #[trigger] self.is_blown(
                Self::moment(before, dt, gradient),
                after.grad_s,
                after.grads@,
                first,
                after.wind_layers@,
                l,
            )
        &&& self.is_heated(
            before,
            Self::moment(before, dt, gradient),
            after.grads,
            after.wind_layers,
            after.temp@,
            after.conv@,
            after.atm@,
        )
        &&& call_ensures(self.later, (before.time, dt), after.time)
        &&& after.wind_seeded
        &&& after.same_planet(&before)
    }

    /// `sims` and `lefts` are the states and the seconds left through an advance: as long as a
    /// positive number is left, and less than before, a step is taken and taken off.
    pub open spec fn is_advance<M>(
        &self,
        seconds: u32,
        sims: Seq<Sim<S, V, M, D>>,
        lefts: Seq<u32>,
    ) -> bool {
        &&& 0 < sims.len() == lefts.len()
        &&& lefts[0] == seconds
        &&& forall|k: int|
            0 <= k < lefts.len() - 1 ==> is_left(#[trigger] lefts[k]) && call_ensures(
                self.minus,
                (lefts[k], chunk(lefts[k])),
                lefts[k + 1],
            ) && self.is_substep(sims[k], chunk(lefts[k]), sims[k + 1]) && (k > 0 ==> lefts[k]
                < lefts[k - 1])
        &&& !is_left(lefts.last()) || (lefts.len() > 1 && lefts.last() >= lefts[lefts.len() - 2])
    }

    /// Advection's arithmetic is exact: for the tendencies `tend` of a wind along a gradient, the
    /// weights `weight` of areas, what has been gathered of both (`num`, `den`), and the values
    /// `val` of scalars, in units in which `one` is one.
    pub open spec fn carries_exactly(
        &self,
        tend: spec_fn(V, V) -> int,
        weight: spec_fn(A) -> int,
        num: spec_fn(W) -> int,
        den: spec_fn(W) -> int,
        val: spec_fn(S) -> int,
        one: int,
    ) -> bool {
        &&& num(self.quiet) == 0
        &&& den(self.quiet) == 0
        &&& forall|w: W, u: V, g: V, a: A, x: W| #[trigger]
            call_ensures(self.tally, (w, u, g, a), x) ==> num(x) == num(w) + tend(u, g) * weight(a)
                && den(x) == den(w) + weight(a)
        &&& forall|w: W, m: S| #[trigger]
            call_ensures(self.mean_drift, (w,), m) ==> val(m) * den(w) == one * num(w)
        &&& forall|u: V, g: V, m: S, d: S| #[trigger]
            call_ensures(self.physics.drift, (u, g, m), d) ==> val(d) == one * tend(u, g) - val(m)
    }

    /// Sum of the values of `drifts` over the first `n` cells, each times the weight of its area.
    pub open spec fn drift_total(
        &self,
        weight: spec_fn(A) -> int,
        val: spec_fn(S) -> int,
        drifts: Seq<S>,
        n: nat,
    ) -> int
        decreases n,
    {
        if n == 0 {
            0
        } else {
            self.drift_total(weight, val, drifts, (n - 1) as nat) + weight(self.grid.areas@[n - 1])
                * val(drifts[n - 1])
        }
    }

    /// Advection only moves heat around: where its arithmetic is exact, the tendencies that a
    /// layer's wind brings to its cells, less their mean, sum to nothing over the planet.
    pub proof fn law_advection_only_moves_heat(
        &self,
        tend: spec_fn(V, V) -> int,
        weight: spec_fn(A) -> int,
        num: spec_fn(W) -> int,
        den: spec_fn(W) -> int,
        val: spec_fn(S) -> int,
        one: int,
        wind: Seq<V>,
        grad: Seq<V>,
        mean: S,
        drifts: Seq<S>,
    )
        requires
            self.carries_exactly(tend, weight, num, den, val, one),
            self.is_mean_drift(wind, grad, mean),
            forall|i: int|
                0 <= i < self.grid.n ==> call_ensures(
                    self.physics.drift,
                    (wind[i], grad[i], mean),
                    #[trigger] drifts[i],
                ),
        ensures
            self.drift_total(weight, val, drifts, self.grid.n as nat) == 0,
    {
        let n = self.grid.n as int;
        let sums = choose|sums: Seq<W>| #[trigger]
            self.are_tallies(wind, grad, n, sums) && call_ensures(self.mean_drift, (sums.last(),), mean);
        self.lemma_drifts_sum(tend, weight, num, den, val, one, wind, grad, mean, drifts, sums, n as nat);
        assert(sums.last() == sums[n]);
    }

    proof fn lemma_drifts_sum(
        &self,
        tend: spec_fn(V, V) -> int,
        weight: spec_fn(A) -> int,
        num: spec_fn(W) -> int,
        den: spec_fn(W) -> int,
        val: spec_fn(S) -> int,
        one: int,
        wind: Seq<V>,
        grad: Seq<V>,
        mean: S,
        drifts: Seq<S>,
        sums: Seq<W>,
        k: nat,
    )
        requires
            self.carries_exactly(tend, weight, num, den, val, one),
            self.are_tallies(wind, grad, self.grid.n as int, sums),
            forall|i: int|
                0 <= i < self.grid.n ==> call_ensures(
                    self.physics.drift,
                    (wind[i], grad[i], mean),
                    #[trigger] drifts[i],
                ),
            k <= self.grid.n,
        ensures
            self.drift_total(weight, val, drifts, k) == one * num(sums[k as int]) - val(mean) * den(
                sums[k as int],
            ),
        decreases k,
    {
        let m = val(mean);
        if k == 0 {
            assert(one * 0 - m * 0 == 0) by (nonlinear_arith);
        } else {
            let i = k - 1;
            self.lemma_drifts_sum(
                tend,
                weight,
                num,
                den,
                val,
                one,
                wind,
                grad,
                mean,
                drifts,
                sums,
                i as nat,
            );
            let t = tend(wind[i], grad[i]);
            let w = weight(self.grid.areas@[i]);
            let a = num(sums[i]);
            let b = den(sums[i]);
            assert(call_ensures(
                self.tally,
                (sums[i], wind[i], grad[i], self.grid.areas@[i]),
                sums[i + 1],
            ));
            assert(call_ensures(self.physics.drift, (wind[i], grad[i], mean), drifts[i]));
            assert(w * (one * t - m) == one * (t * w) - m * w) by (nonlinear_arith);
            assert(one * (a + t * w) == one * a + one * (t * w)) by (nonlinear_arith);
            assert(m * (b + w) == m * b + m * w) by (nonlinear_arith);
        }
    }

    /// Sum of the values of the first `k` steps of an advance.
    pub open spec fn steps_total(val: spec_fn(u32) -> int, lefts: Seq<u32>, k: nat) -> int
        decreases k,
    {
        if k == 0 {
            0
        } else {
            Self::steps_total(val, lefts, (k - 1) as nat) + val(chunk(lefts[k - 1]))
        }
    }

    /// No step is longer than the bound, and the steps of an advance add up: where taking a step
    /// off what is left is exact for the values `val`, the steps taken so far and what is left sum
    /// to the whole.
    pub proof fn law_steps_add_up<M>(
        &self,
        val: spec_fn(u32) -> int,
        seconds: u32,
        sims: Seq<Sim<S, V, M, D>>,
        lefts: Seq<u32>,
        k: nat,
    )
        requires
            forall|left: u32, dt: u32, rest: u32| #[trigger]
                call_ensures(self.minus, (left, dt), rest) ==> val(rest) == val(left) - val(dt),
            self.is_advance(seconds, sims, lefts),
            k < lefts.len(),
        ensures
            Self::steps_total(val, lefts, k) + val(lefts[k as int]) == val(seconds),
            chunk(lefts[k as int]) <= MAX_SUBSTEP,
            chunk(lefts[k as int]) <= lefts[k as int],
        decreases k,
    {
        if k > 0 {
            self.law_steps_add_up(val, seconds, sims, lefts, (k - 1) as nat);
            assert(is_left(lefts[k - 1]));
            assert(call_ensures(self.minus, (lefts[k - 1], chunk(lefts[k - 1])), lefts[k - 1 + 1]));
        }
    }

    /// The formulas are functions: what they are given settles what they return.
    pub open spec fn repeatable(&self) -> bool {
        &&& is_function2(self.arith.plus)
        &&& is_function2(self.arith.times)
        &&& is_function2(self.arith.scale)
        &&& is_function1(self.clear)
        &&& self.contrast.repeatable::<Lc, A>()
        &&& is_function6(self.fit)
        &&& is_function2(self.solve)
        &&& is_function4(self.calm)
        &&& self.dynamics.repeatable::<P, A, V, Moment<S, D>>()
        &&& is_function4(self.tally)
        &&& is_function1(self.mean_drift)
        &&& self.physics.repeatable::<P, A, V, Moment<S, D>>()
        &&& is_function2(self.later)
        &&& is_function2(self.minus)
    }

    proof fn lemma_slopes_are_one(&self, at: Moment<S, D>, field: Seq<S>, x: Seq<V>, y: Seq<V>)
        requires
            self.repeatable(),
            self.are_slopes(at, field, x),
            self.are_slopes(at, field, y),
        ensures
            x == y,
    {
        assert forall|i: int| 0 <= i < x.len() implies x[i] == y[i] by {
            assert(is_gradient(self.grid, field, self.fit, self.solve, self.unfit, at, i, x[i]));
            assert(is_gradient(self.grid, field, self.fit, self.solve, self.unfit, at, i, y[i]));
            law_gradient_is_one(self.grid, field, self.fit, self.solve, self.unfit, at, i, x[i], y[i]);
        }
        assert(x =~= y);
    }

    proof fn lemma_column_is_one(
        &self,
        climate: Climate<S>,
        layers: int,
        first: (Seq<S>, Seq<S>, Seq<S>, Seq<S>),
        second: (Seq<S>, Seq<S>, Seq<S>, Seq<S>),
    )
        requires
            self.repeatable(),
            self.is_column(climate, layers, first.0, first.1, first.2, first.3),
            self.is_column(climate, layers, second.0, second.1, second.2, second.3),
        ensures
            first == second,
    {
        self.arith.lemma_profile_is_one(
            climate.atm_emissivity_total,
            climate.atm_emissivity_decay,
            first.0,
            second.0,
        );
        self.arith.lemma_profile_is_one(
            climate.atm_heat_capacity_total,
            climate.atm_heat_capacity_decay,
            first.1,
            second.1,
        );
        assert forall|l: int| 0 <= l < layers implies first.2[l] == second.2[l] by {
            assert(call_ensures(self.clear, (first.0[l],), first.2[l]));
            assert(call_ensures(self.clear, (second.0[l],), second.2[l]));
        }
        assert(first.2 =~= second.2);
        lemma_chain_is_one(
            self.arith.times,
            climate.convection_coeff,
            climate.convection_decay,
            first.3,
            second.3,
        );
    }

    proof fn lemma_tallies_agree(
        &self,
        wind: Seq<V>,
        grad: Seq<V>,
        n: int,
        x: Seq<W>,
        y: Seq<W>,
        i: int,
    )
        requires
            self.repeatable(),
            self.are_tallies(wind, grad, n, x),
            self.are_tallies(wind, grad, n, y),
            0 <= i <= n,
        ensures
            x[i] == y[i],
        decreases i,
    {
        if i > 0 {
            self.lemma_tallies_agree(wind, grad, n, x, y, i - 1);
            let m = i - 1;
            let a = self.grid.areas@[m];
            assert(call_ensures(self.tally, (x[m], wind[m], grad[m], a), x[m + 1]));
            assert(call_ensures(self.tally, (y[m], wind[m], grad[m], a), y[m + 1]));
        }
    }

    proof fn lemma_mean_drifts_are_one(
        &self,
        advect: bool,
        winds: (Seq<Vec<V>>, Seq<Vec<V>>),
        grads: (Seq<Vec<V>>, Seq<Vec<V>>),
        x: Seq<S>,
        y: Seq<S>,
    )
        requires
            self.repeatable(),
            same_layers(winds.0, winds.1),
            same_layers(grads.0, grads.1),
            winds.0.len() == grads.0.len(),
            self.are_mean_drifts(advect, winds.0, grads.0, x),
            self.are_mean_drifts(advect, winds.1, grads.1, y),
        ensures
            x == y,
    {
        assert forall|l: int| 0 <= l < x.len() implies x[l] == y[l] by {
            if advect {
                let wind = winds.0[l]@;
                let grad = grads.0[l]@;
                assert(winds.1[l]@ == wind && grads.1[l]@ == grad);
                assert(self.is_mean_drift(wind, grad, x[l]));
                assert(self.is_mean_drift(wind, grad, y[l]));
                let n = self.grid.n as int;
                let p = choose|sums: Seq<W>| #[trigger]
                    self.are_tallies(wind, grad, n, sums) && call_ensures(
                        self.mean_drift,
                        (sums.last(),),
                        x[l],
                    );
                let q = choose|sums: Seq<W>| #[trigger]
                    self.are_tallies(wind, grad, n, sums) && call_ensures(
                        self.mean_drift,
                        (sums.last(),),
                        y[l],
                    );
                self.lemma_tallies_agree(wind, grad, n, p, q, n);
                assert(p.last() == q.last());
            } else {
                assert(x[l] == self.arith.zero && y[l] == self.arith.zero);
            }
        }
        assert(x =~= y);
    }

    proof fn lemma_drives_agree(
        grad_s: (Vec<V>, Vec<V>),
        grads: (Seq<Vec<V>>, Seq<Vec<V>>),
        l: int,
    )
        requires
            grad_s.0@ == grad_s.1@,
            same_layers(grads.0, grads.1),
            0 <= l < grads.0.len(),
        ensures
            Self::drive(grad_s.0, grads.0, l)@ == Self::drive(grad_s.1, grads.1, l)@,
    {
        assert(grads.0[l]@ == grads.1[l]@);
    }

    proof fn lemma_first_winds_are_one<M>(
        &self,
        a: Sim<S, V, M, D>,
        b: Sim<S, V, M, D>,
        at: Moment<S, D>,
        grad_s: (Vec<V>, Vec<V>),
        grads: (Seq<Vec<V>>, Seq<Vec<V>>),
        x: Seq<Vec<V>>,
        y: Seq<Vec<V>>,
    )
        requires
            self.repeatable(),
            a.same_weather(&b),
            grad_s.0@ == grad_s.1@,
            same_layers(grads.0, grads.1),
            grads.0.len() == a.n_layers,
            self.are_first_winds(a, at, grad_s.0, grads.0, x),
            self.are_first_winds(b, at, grad_s.1, grads.1, y),
        ensures
            same_layers(x, y),
    {
        if !a.wind_seeded {
            assert forall|l: int| 0 <= l < x.len() implies (#[trigger] x[l])@ == y[l]@ by {
                Self::lemma_drives_agree(grad_s, grads, l);
                let grad = Self::drive(grad_s.0, grads.0, l)@;
                let n = a.n_layers as int;
                assert(self.is_calm(at, l, n, grad, x[l]@));
                assert(self.is_calm(at, l, n, Self::drive(grad_s.1, grads.1, l)@, y[l]@));
                let h = spec_layer_height(l as usize, n as usize);
                assert forall|i: int| 0 <= i < x[l]@.len() implies x[l]@[i] == y[l]@[i] by {
                    let p = self.grid.centers@[i];
                    assert(call_ensures(self.calm, (at, h, p, grad[i]), x[l]@[i]));
                    assert(call_ensures(self.calm, (at, h, p, grad[i]), y[l]@[i]));
                }
                assert(x[l]@ =~= y[l]@);
            }
        }
    }

    proof fn lemma_blown_is_one(
        &self,
        at: Moment<S, D>,
        grad_s: (Vec<V>, Vec<V>),
        grads: (Seq<Vec<V>>, Seq<Vec<V>>),
        first: (Seq<Vec<V>>, Seq<Vec<V>>),
        x: Seq<Vec<V>>,
        y: Seq<Vec<V>>,
        l: int,
    )
        requires
            self.repeatable(),
            grad_s.0@ == grad_s.1@,
            same_layers(grads.0, grads.1),
            same_layers(first.0, first.1),
            first.0.len() == grads.0.len(),
            0 <= l < grads.0.len(),
            forall|k: int|
                0 <= k < grads.0.len() ==> #[trigger] self.is_blown(
                    at,
                    grad_s.0,
                    grads.0,
                    first.0,
                    x,
                    k,
                ),
            forall|k: int|
                0 <= k < grads.1.len() ==> #[trigger] self.is_blown(
                    at,
                    grad_s.1,
                    grads.1,
                    first.1,
                    y,
                    k,
                ),
        ensures
            x[l]@ == y[l]@,
        decreases l,
    {
        if l > 0 {
            self.lemma_blown_is_one(at, grad_s, grads, first, x, y, l - 1);
        }
        Self::lemma_drives_agree(grad_s, grads, l);
        assert(first.0[l]@ == first.1[l]@);
        assert(self.is_blown(at, grad_s.0, grads.0, first.0, x, l));
        assert(self.is_blown(at, grad_s.1, grads.1, first.1, y, l));
        let n = grads.0.len() as int;
        let below_x = if l == 0 {
            None
        } else {
            Some(&x[l - 1])
        };
        let below_y = if l == 0 {
            None
        } else {
            Some(&y[l - 1])
        };
        let p = self.momentum(at, l, n, &first.0[l], &Self::drive(grad_s.0, grads.0, l), below_x);
        let q = self.momentum(at, l, n, &first.1[l], &Self::drive(grad_s.1, grads.1, l), below_y);
        p.law_step_is_one(&q, x[l]@, y[l]@);
    }

    /// What a step leaves has a value per cell in every field.
    proof fn lemma_substep_keeps_wf<M>(&self, before: Sim<S, V, M, D>, dt: u32, after: Sim<S, V, M, D>)
        requires
            before.wf(self.grid.n as nat),
            self.is_substep(before, dt, after),
        ensures
            after.wf(self.grid.n as nat),
            after.same_planet(&before),
    {
        let n = self.grid.n as nat;
        let (gradient, first) = choose|gradient: S, first: Seq<Vec<V>>| #[trigger]
            self.is_substep_by(before, dt, after, gradient, first);
        reveal(Weather::is_substep_by);
        let at = Self::moment(before, dt, gradient);
        assert forall|l: int| 0 <= l < before.n_layers implies (#[trigger] after.grads@[l])@.len() == n by {
            assert(self.are_slopes(at, before.atm@[l]@, after.grads@[l]@));
        }
        assert forall|l: int| 0 <= l < before.n_layers implies (#[trigger] after.wind_layers@[l])@.len()
            == n by {
            assert(self.is_blown(at, after.grad_s, after.grads@, first, after.wind_layers@, l));
        }
        let (emis, capacity, tau, kappa, means) = choose|
            emis: Vec<S>,
            capacity: Vec<S>,
            tau: Vec<S>,
            kappa: Vec<S>,
            means: Vec<S>,
        | #[trigger]
            self.is_heated_by(
                before,
                at,
                after.grads,
                after.wind_layers,
                after.temp@,
                after.conv@,
                after.atm@,
                emis,
                capacity,
                tau,
                kappa,
                means,
            );
        let step = self.balance_of(
            before,
            at,
            after.grads,
            after.wind_layers,
            emis,
            capacity,
            tau,
            kappa,
            means,
        );
        assert forall|l: int| 0 <= l < before.n_layers implies (#[trigger] after.atm@[l])@.len() == n by {
            assert(step.is_air_layer(l, after.atm@[l]@));
        }
    }

    /// A step has one result: where the formulas are functions, two states alike in their weather are
    /// alike in it a step later.
    pub proof fn law_substep_is_one<M>(
        &self,
        a: Sim<S, V, M, D>,
        b: Sim<S, V, M, D>,
        dt: u32,
        x: Sim<S, V, M, D>,
        y: Sim<S, V, M, D>,
    )
        requires
            self.grid.wf(),
            self.repeatable(),
            a.wf(self.grid.n as nat),
            a.same_weather(&b),
            self.is_substep(a, dt, x),
            self.is_substep(b, dt, y),
        ensures
            x.same_weather(&y),
            x.wf(self.grid.n as nat),
    {
        let n = self.grid.n as nat;
        self.lemma_substep_keeps_wf(a, dt, x);
        let (ga, fa) = choose|gradient: S, first: Seq<Vec<V>>| #[trigger]
            self.is_substep_by(a, dt, x, gradient, first);
        let (gb, fb) = choose|gradient: S, first: Seq<Vec<V>>| #[trigger]
            self.is_substep_by(b, dt, y, gradient, first);
        reveal(Weather::is_substep_by);
        law_gradient_factor_is_one(self.grid, a.temp@, self.contrast, ga, gb);
        let at = Self::moment(a, dt, ga);
        assert(at == Self::moment(b, dt, gb));
        self.lemma_slopes_are_one(at, a.temp@, x.grad_s@, y.grad_s@);
        assert forall|l: int| 0 <= l < x.grads@.len() implies (#[trigger] x.grads@[l])@ == y.grads@[l]@ by {
            assert(a.atm@[l]@ == b.atm@[l]@);
            assert(self.are_slopes(at, a.atm@[l]@, x.grads@[l]@));
            assert(self.are_slopes(at, b.atm@[l]@, y.grads@[l]@));
            self.lemma_slopes_are_one(at, a.atm@[l]@, x.grads@[l]@, y.grads@[l]@);
        }
        let grad_s = (x.grad_s, y.grad_s);
        let grads = (x.grads@, y.grads@);
        self.lemma_first_winds_are_one(a, b, at, grad_s, grads, fa, fb);
        assert(fa.len() == a.n_layers);
        assert forall|l: int| 0 <= l < x.wind_layers@.len() implies (#[trigger] x.wind_layers@[l])@
            == y.wind_layers@[l]@ by {
            self.lemma_blown_is_one(
                at,
                grad_s,
                grads,
                (fa, fb),
                x.wind_layers@,
                y.wind_layers@,
                l,
            );
        }
        let (ea, ca, ta, ka, ma) = choose|
            emis: Vec<S>,
            capacity: Vec<S>,
            tau: Vec<S>,
            kappa: Vec<S>,
            means: Vec<S>,
        | #[trigger]
            self.is_heated_by(
                a,
                at,
                x.grads,
                x.wind_layers,
                x.temp@,
                x.conv@,
                x.atm@,
                emis,
                capacity,
                tau,
                kappa,
                means,
            );
        let (eb, cb, tb, kb, mb) = choose|
            emis: Vec<S>,
            capacity: Vec<S>,
            tau: Vec<S>,
            kappa: Vec<S>,
            means: Vec<S>,
        | #[trigger]
            self.is_heated_by(
                b,
                at,
                y.grads,
                y.wind_layers,
                y.temp@,
                y.conv@,
                y.atm@,
                emis,
                capacity,
                tau,
                kappa,
                means,
            );
        self.lemma_column_is_one(
            a.climate,
            a.n_layers as int,
            (ea@, ca@, ta@, ka@),
            (eb@, cb@, tb@, kb@),
        );
        self.lemma_mean_drifts_are_one(
            a.climate.atm_advection,
            (x.wind_layers@, y.wind_layers@),
            grads,
            ma@,
            mb@,
        );
        let p = self.balance_of(a, at, x.grads, x.wind_layers, ea, ca, ta, ka, ma);
        let q = self.balance_of(b, at, y.grads, y.wind_layers, eb, cb, tb, kb, mb);
        p.law_step_is_one(&q, (x.temp@, x.conv@, x.atm@), (y.temp@, y.conv@, y.atm@));
    }

    proof fn lemma_advances_agree<M>(
        &self,
        seconds: u32,
        first: (Seq<Sim<S, V, M, D>>, Seq<u32>),
        second: (Seq<Sim<S, V, M, D>>, Seq<u32>),
        k: int,
    )
        requires
            self.grid.wf(),
            self.repeatable(),
            first.0[0].wf(self.grid.n as nat),
            first.0[0].same_weather(&second.0[0]),
            self.is_advance(seconds, first.0, first.1),
            self.is_advance(seconds, second.0, second.1),
            0 <= k < first.1.len(),
            k < second.1.len(),
        ensures
            first.1[k] == second.1[k],
            first.0[k].same_weather(&second.0[k]),
            first.0[k].wf(self.grid.n as nat),
        decreases k,
    {
        if k > 0 {
            self.lemma_advances_agree(seconds, first, second, k - 1);
            let left = first.1[k - 1];
            assert(is_left(first.1[k - 1]));
            assert(is_left(second.1[k - 1]));
            assert(call_ensures(self.minus, (left, chunk(left)), first.1[k - 1 + 1]));
            assert(call_ensures(self.minus, (left, chunk(left)), second.1[k - 1 + 1]));
            self.law_substep_is_one(
                first.0[k - 1],
                second.0[k - 1],
                chunk(left),
                first.0[k],
                second.0[k],
            );
        }
    }

    /// An advance has one result: where the formulas are functions, two simulations alike in their
    /// weather are alike in it after they are advanced by the same time.
    #[verifier::rlimit(30)]
    pub proof fn law_advance_is_one<M>(
        &self,
        seconds: u32,
        first: (Seq<Sim<S, V, M, D>>, Seq<u32>),
        second: (Seq<Sim<S, V, M, D>>, Seq<u32>),
    )
        requires
            self.grid.wf(),
            self.repeatable(),
            first.0[0].wf(self.grid.n as nat),
            first.0[0].same_weather(&second.0[0]),
            self.is_advance(seconds, first.0, first.1),
            self.is_advance(seconds, second.0, second.1),
        ensures
            first.0.last().same_weather(&second.0.last()),
            first.1 == second.1,
    {
        let m = if first.1.len() <= second.1.len() {
            first.1.len() as int
        } else {
            second.1.len() as int
        };
        assert forall|k: int| 0 <= k < m implies first.1[k] == second.1[k] by {
            self.lemma_advances_agree(seconds, first, second, k);
        }
        self.lemma_advances_agree(seconds, first, second, m - 1);
        if m < first.1.len() {
            assert(is_left(first.1[m - 1]));
            if m > 1 {
                assert(first.1[m - 1] < first.1[m - 1 - 1]);
            }
        }
        if m < second.1.len() {
            assert(is_left(second.1[m - 1]));
            if m > 1 {
                assert(second.1[m - 1] < second.1[m - 1 - 1]);
            }
        }
        assert(first.1 =~= second.1);
    }

    /// `wholes` are numbers of seconds, from none up, of which each is one whole sub-step more than the
    /// one before it.
    pub open spec fn are_wholes(&self, wholes: Seq<u32>) -> bool {
        &&& wholes.len() > 1
        &&& wholes[0] == ZERO
        &&& wholes[1] == MAX_SUBSTEP
        &&& forall|j: int|
            0 <= j < wholes.len() - 1 ==> (#[trigger] wholes[j]) < wholes[j + 1] && wholes[j + 1]
                <= INFINITY
        &&& forall|j: int, rest: u32|
            0 <= j < wholes.len() - 1 && #[trigger] call_ensures(
                self.minus,
                (wholes[j + 1], MAX_SUBSTEP),
                rest,
            ) ==> rest == wholes[j]
    }

    proof fn lemma_wholes_rise(&self, wholes: Seq<u32>, i: int, j: int)
        requires
            self.are_wholes(wholes),
            0 <= i <= j < wholes.len(),
        ensures
            wholes[i] <= wholes[j],
        decreases j - i,
    {
        if i < j {
            self.lemma_wholes_rise(wholes, i, j - 1);
            assert(wholes[j - 1] < wholes[j - 1 + 1]);
        }
    }

    /// An advance by `n` whole sub-steps takes `n` of them, each the longest there is.
    proof fn lemma_whole_advance<M>(
        &self,
        wholes: Seq<u32>,
        n: int,
        sims: Seq<Sim<S, V, M, D>>,
        lefts: Seq<u32>,
        k: int,
    )
        requires
            self.are_wholes(wholes),
            0 < n < wholes.len(),
            self.is_advance(wholes[n], sims, lefts),
            0 <= k <= n,
        ensures
            k < lefts.len(),
            lefts[k] == wholes[n - k],
            k < n ==> chunk(lefts[k]) == MAX_SUBSTEP,
            k == n ==> lefts.len() == n + 1,
        decreases k,
    {
        if k > 0 {
            self.lemma_whole_advance(wholes, n, sims, lefts, k - 1);
            let m = k - 1;
            assert(wholes[n - k] < wholes[n - k + 1]);
            // Something is left after `m` steps, and less than before, so there is another.
            if m == lefts.len() - 1 {
                if m > 0 {
                    self.lemma_whole_advance(wholes, n, sims, lefts, m - 1);
                    assert(wholes[n - m] < wholes[n - m + 1]);
                    assert(lefts[lefts.len() - 2] == lefts[m - 1]);
                }
                assert(is_left(lefts.last()));
            }
            assert(is_left(lefts[m]));
            assert(call_ensures(self.minus, (lefts[m], chunk(lefts[m])), lefts[m + 1]));
            assert(lefts[m] == wholes[n - k + 1]);
            assert(call_ensures(self.minus, (wholes[n - k + 1], MAX_SUBSTEP), lefts[k]));
        }
        if k < n {
            self.lemma_wholes_rise(wholes, 1, n - k);
        } else if k < lefts.len() - 1 {
            assert(is_left(lefts[k]));
        }
    }

    /// A long advance is its sub-steps: where the formulas are functions, advancing at once by as many
    /// whole sub-steps as one likes, and advancing by one of them as many times, end in the same
    /// weather at the same time. `turns` are the states of the second way, the first of them included.
    pub proof fn law_long_advance_is_its_substeps<M>(
        &self,
        wholes: Seq<u32>,
        sims: Seq<Sim<S, V, M, D>>,
        lefts: Seq<u32>,
        turns: Seq<Sim<S, V, M, D>>,
    )
        requires
            self.grid.wf(),
            self.repeatable(),
            self.are_wholes(wholes),
            self.is_advance(wholes.last(), sims, lefts),
            sims[0].wf(self.grid.n as nat),
            turns.len() == wholes.len(),
            sims[0].same_weather(&turns[0]),
            forall|k: int| 0 <= k < turns.len() - 1 ==> #[trigger] self.is_turn(turns[k], turns[k + 1]),
        ensures
            sims.len() == turns.len(),
            sims.last().same_weather(&turns.last()),
    {
        let n = wholes.len() - 1;
        self.lemma_whole_advance(wholes, n, sims, lefts, n);
        self.lemma_turns_agree(wholes, sims, lefts, turns, n);
    }

    /// `after` is `before` advanced by one whole sub-step.
    pub open spec fn is_turn<M>(&self, before: Sim<S, V, M, D>, after: Sim<S, V, M, D>) -> bool {
        exists|sims: Seq<Sim<S, V, M, D>>, lefts: Seq<u32>| #[trigger]
            self.is_advance(MAX_SUBSTEP, sims, lefts) && sims[0] == before && sims.last() == after
    }

    proof fn lemma_turns_agree<M>(
        &self,
        wholes: Seq<u32>,
        sims: Seq<Sim<S, V, M, D>>,
        lefts: Seq<u32>,
        turns: Seq<Sim<S, V, M, D>>,
        k: int,
    )
        requires
            self.grid.wf(),
            self.repeatable(),
            self.are_wholes(wholes),
            self.is_advance(wholes.last(), sims, lefts),
            lefts.len() == wholes.len(),
            sims[0].wf(self.grid.n as nat),
            turns.len() == wholes.len(),
            sims[0].same_weather(&turns[0]),
            forall|j: int| 0 <= j < turns.len() - 1 ==> #[trigger] self.is_turn(turns[j], turns[j + 1]),
            0 <= k < turns.len(),
        ensures
            sims[k].same_weather(&turns[k]),
            sims[k].wf(self.grid.n as nat),
        decreases k,
    {
        if k > 0 {
            let m = k - 1;
            let n = wholes.len() - 1;
            self.lemma_turns_agree(wholes, sims, lefts, turns, m);
            self.lemma_whole_advance(wholes, n, sims, lefts, m);
            assert(is_left(lefts[m]));
            assert(self.is_turn(turns[m], turns[m + 1]));
            self.lemma_turn_is_a_substep(wholes, turns[m], turns[m + 1]);
            assert(self.is_substep(sims[m], chunk(lefts[m]), sims[m + 1]));
            self.law_substep_is_one(sims[m], turns[m], MAX_SUBSTEP, sims[k], turns[k]);
        }
    }

    /// A long advance goes through whole sub-steps: whatever the formulas, each state of an advance by
    /// whole sub-steps is the one before it advanced by a single one.
    #[verifier::rlimit(30)]
    pub proof fn law_long_advance_goes_in_turns<M>(
        &self,
        wholes: Seq<u32>,
        sims: Seq<Sim<S, V, M, D>>,
        lefts: Seq<u32>,
        k: int,
    )
        requires
            self.are_wholes(wholes),
            self.is_advance(wholes.last(), sims, lefts),
            0 <= k < wholes.len() - 1,
        ensures
            sims.len() == wholes.len(),
            self.is_turn(sims[k], sims[k + 1]),
    {
        let n = wholes.len() - 1;
        self.lemma_whole_advance(wholes, n, sims, lefts, n);
        self.lemma_whole_advance(wholes, n, sims, lefts, n - 1);
        self.lemma_whole_advance(wholes, n, sims, lefts, k);
        assert(is_left(lefts[n - 1]));
        assert(call_ensures(self.minus, (lefts[n - 1], chunk(lefts[n - 1])), lefts[n - 1 + 1]));
        assert(is_left(lefts[k]));
        let ss = seq![sims[k], sims[k + 1]];
        let ls = seq![MAX_SUBSTEP, ZERO];
        assert(self.is_advance(MAX_SUBSTEP, ss, ls));
        assert(ss.last() == sims[k + 1]);
    }

    /// A whole sub-step taken off `j + 1` of them may leave `j`.
    pub open spec fn leaves_one_less(&self, wholes: Seq<u32>, j: int) -> bool {
        call_ensures(self.minus, (wholes[j + 1], MAX_SUBSTEP), wholes[j])
    }

    proof fn lemma_turn_is_a_substep<M>(
        &self,
        wholes: Seq<u32>,
        before: Sim<S, V, M, D>,
        after: Sim<S, V, M, D>,
    )
        requires
            self.are_wholes(wholes),
            self.is_turn(before, after),
        ensures
            self.is_substep(before, MAX_SUBSTEP, after),
    {
        let (ss, ls) = choose|ss: Seq<Sim<S, V, M, D>>, ls: Seq<u32>| #[trigger]
            self.is_advance(MAX_SUBSTEP, ss, ls) && ss[0] == before && ss.last() == after;
        self.lemma_whole_advance(wholes, 1, ss, ls, 0);
        self.lemma_whole_advance(wholes, 1, ss, ls, 1);
        assert(is_left(ls[0]));
        assert(self.is_substep(ss[0], chunk(ls[0]), ss[1]));
    }

    proof fn lemma_wholes_are_left(&self, wholes: Seq<u32>, j: int)
        requires
            self.are_wholes(wholes),
            0 < j < wholes.len(),
        ensures
            is_left(wholes[j]),
            chunk(wholes[j]) == MAX_SUBSTEP,
            wholes[j - 1] < wholes[j],
    {
        assert(wholes[j - 1] < wholes[j - 1 + 1]);
        self.lemma_wholes_rise(wholes, 1, j);
    }

    /// Whole sub-steps in turn make a long advance: whatever the formulas, where a whole sub-step taken
    /// off a number of them leaves one less, advances by a single one, taken in turn, are what an
    /// advance by all of them may go through.
    #[verifier::rlimit(30)]
    pub proof fn law_turns_make_a_long_advance<M>(
        &self,
        wholes: Seq<u32>,
        turns: Seq<Sim<S, V, M, D>>,
        lefts: Seq<u32>,
    )
        requires
            self.are_wholes(wholes),
            forall|j: int| 0 <= j < wholes.len() - 1 ==> #[trigger] self.leaves_one_less(wholes, j),
            lefts == wholes.reverse(),
            turns.len() == wholes.len(),
            forall|k: int| 0 <= k < turns.len() - 1 ==> #[trigger] self.is_turn(turns[k], turns[k + 1]),
        ensures
            self.is_advance(wholes.last(), turns, lefts),
    {
        let n = wholes.len() - 1;
        assert forall|k: int| 0 <= k < lefts.len() - 1 implies is_left(#[trigger] lefts[k]) && call_ensures(
            self.minus,
            (lefts[k], chunk(lefts[k])),
            lefts[k + 1],
        ) && self.is_substep(turns[k], chunk(lefts[k]), turns[k + 1]) && (k > 0 ==> lefts[k] < lefts[k
            - 1]) by {
            assert(lefts[k] == wholes[n - k] && lefts[k + 1] == wholes[n - k - 1]);
            assert(self.leaves_one_less(wholes, n - k - 1));
            self.lemma_wholes_are_left(wholes, n - k);
            if k > 0 {
                self.lemma_wholes_are_left(wholes, n - k + 1);
            }
            assert(self.is_turn(turns[k], turns[k + 1]));
            self.lemma_turn_is_a_substep(wholes, turns[k], turns[k + 1]);
        }
        assert(lefts.last() == wholes[0]);
    }

    /// Time adds up: where the clock is exact for the values `clock` of times and `val` of steps, the
    /// time after so many steps of an advance is the time before it and those steps.
    pub proof fn law_time_adds_up<M>(
        &self,
        clock: spec_fn(D) -> int,
        val: spec_fn(u32) -> int,
        seconds: u32,
        sims: Seq<Sim<S, V, M, D>>,
        lefts: Seq<u32>,
        k: nat,
    )
        requires
            forall|t: D, dt: u32, u: D| #[trigger]
                call_ensures(self.later, (t, dt), u) ==> clock(u) == clock(t) + val(dt),
            self.is_advance(seconds, sims, lefts),
            k < lefts.len(),
        ensures
            clock(sims[k as int].time) == clock(sims[0].time) + Self::steps_total(val, lefts, k),
        decreases k,
    {
        if k > 0 {
            let m = k - 1;
            self.law_time_adds_up(clock, val, seconds, sims, lefts, m as nat);
            assert(is_left(lefts[m]));
            assert(self.is_substep(sims[m], chunk(lefts[m]), sims[m + 1]));
            let (gradient, first) = choose|gradient: S, first: Seq<Vec<V>>| #[trigger]
                self.is_substep_by(sims[m], chunk(lefts[m]), sims[m + 1], gradient, first);
            reveal(Weather::is_substep_by);
            assert(call_ensures(self.later, (sims[m].time, chunk(lefts[m])), sims[m + 1].time));
        }
    }

    /// Gradients of each of `fields`.
    fn slopes_all(&self, at: Moment<S, D>, fields: &Vec<Vec<S>>) -> (out: Vec<Vec<V>>)
        requires
            self.wf(),
            are_layers(fields@, fields@.len(), self.grid.n as nat),
        ensures
            are_layers(out@, fields@.len(), self.grid.n as nat),
            forall|l: int|
                0 <= l < fields@.len() ==> self.are_slopes(at, fields@[l]@, (#[trigger] out@[l])@),
    {
        let mut out: Vec<Vec<V>> = Vec::new();
        let mut l: usize = 0;
        while l < fields.len()
            invariant
                self.wf(),
                are_layers(fields@, fields@.len(), self.grid.n as nat),
                l <= fields@.len(),
                are_layers(out@, l as nat, self.grid.n as nat),
                forall|k: int| 0 <= k < l ==> self.are_slopes(at, fields@[k]@, (#[trigger] out@[k])@),
            decreases fields@.len() - l,
        {
            assert(self.takes(at));
            assert(fields@[l as int]@.len() == self.grid.n);
            let row: Vec<V> = gradients(self.grid, &fields[l], &self.fit, &self.solve, self.unfit, at);
            out.push(row);
            l = l + 1;
        }
        out
    }

    /// The winds that a step starts from.
    fn seed_winds(&self, at: Moment<S, D>, grad_s: &Vec<V>, grads: &Vec<Vec<V>>) -> (out: Vec<Vec<V>>)
        requires
            self.wf(),
            grad_s@.len() == self.grid.n,
            are_layers(grads@, grads@.len(), self.grid.n as nat),
        ensures
            are_layers(out@, grads@.len(), self.grid.n as nat),
            forall|l: int|
                0 <= l < grads@.len() ==> #[trigger] self.is_calm(
                    at,
                    l,
                    grads@.len() as int,
                    Self::drive(*grad_s, grads@, l)@,
                    out@[l]@,
                ),
    {
        let layers: usize = grads.len();
        let mut out: Vec<Vec<V>> = Vec::new();
        let mut l: usize = 0;
        while l < layers
            invariant
                self.wf(),
                layers == grads@.len(),
                grad_s@.len() == self.grid.n,
                are_layers(grads@, grads@.len(), self.grid.n as nat),
                l <= layers,
                are_layers(out@, l as nat, self.grid.n as nat),
                forall|k: int|
                    0 <= k < l ==> #[trigger] self.is_calm(
                        at,
                        k,
                        layers as int,
                        Self::drive(*grad_s, grads@, k)@,
                        out@[k]@,
                    ),
            decreases layers - l,
        {
            assert(self.takes(at));
            assert(grads@[l as int]@.len() == self.grid.n);
            let ghost before = out@;
            let drive: &Vec<V> = if l == 0 {
                grad_s
            } else {
                &grads[l]
            };
            let row: Vec<V> = compute(self.grid, drive, l, layers, &self.calm, at);
            assert(self.is_calm(at, l as int, layers as int, Self::drive(*grad_s, grads@, l as int)@, row@));
            out.push(row);
            l = l + 1;
            assert forall|k: int| 0 <= k < l implies #[trigger] self.is_calm(
                at,
                k,
                layers as int,
                Self::drive(*grad_s, grads@, k)@,
                out@[k]@,
            ) by {
                if k < l - 1 {
                    assert(self.is_calm(at, k, layers as int, Self::drive(*grad_s, grads@, k)@, before[k]@));
                }
            }
        }
        out
    }

    /// Step each wind layer, from the bottom up.
    fn blow(&self, at: Moment<S, D>, grad_s: &Vec<V>, grads: &Vec<Vec<V>>, first: &Vec<Vec<V>>) -> (out: Vec<
        Vec<V>,
    >)
        requires
            self.wf(),
            grad_s@.len() == self.grid.n,
            are_layers(grads@, grads@.len(), self.grid.n as nat),
            are_layers(first@, grads@.len(), self.grid.n as nat),
        ensures
            are_layers(out@, grads@.len(), self.grid.n as nat),
            forall|l: int|
                0 <= l < grads@.len() ==> #[trigger] self.is_blown(at, *grad_s, grads@, first@, out@, l),
    {
        let layers: usize = grads.len();
        let mut out: Vec<Vec<V>> = Vec::new();
        let mut l: usize = 0;
        while l < layers
            invariant
                self.wf(),
                layers == grads@.len(),
                grad_s@.len() == self.grid.n,
                are_layers(grads@, grads@.len(), self.grid.n as nat),
                are_layers(first@, grads@.len(), self.grid.n as nat),
                l <= layers,
                are_layers(out@, l as nat, self.grid.n as nat),
                forall|k: int|
                    0 <= k < l ==> #[trigger] self.is_blown(at, *grad_s, grads@, first@, out@, k),
            decreases layers - l,
        {
            assert(self.takes(at));
            assert(grads@[l as int]@.len() == self.grid.n);
            assert(first@[l as int]@.len() == self.grid.n);
            let ghost before = out@;
            let row: Vec<V> = {
                let grad: &Vec<V> = if l == 0 {
                    grad_s
                } else {
                    &grads[l]
                };
                let below: Option<&Vec<V>> = if l == 0 {
                    None
                } else {
                    assert(out@[l - 1]@.len() == self.grid.n);
                    Some(&out[l - 1])
                };
                let step = Momentum {
                    grid: self.grid,
                    wind: &first[l],
                    grad,
                    below,
                    layer: l,
                    n_layers: layers,
                    at,
                    by: &self.dynamics,
                };
                step.step()
            };
            out.push(row);
            proof {
                assert forall|k: int| 0 <= k < l + 1 implies #[trigger] self.is_blown(
                    at,
                    *grad_s,
                    grads@,
                    first@,
                    out@,
                    k,
                ) by {
                    if k < l {
                        assert(self.is_blown(at, *grad_s, grads@, first@, before, k));
                        assert(out@[k] == before[k]);
                        if k > 0 {
                            assert(out@[k - 1] == before[k - 1]);
                        }
                    } else if k > 0 {
                        assert(out@[k - 1] == before[k - 1]);
                    }
                }
            }
            l = l + 1;
        }
        out
    }

    /// Mean advective tendency of one layer.
    fn drift_of(&self, wind: &Vec<V>, grad: &Vec<V>) -> (mean: S)
        requires
            self.wf(),
            wind@.len() == self.grid.n,
            grad@.len() == self.grid.n,
        ensures
            self.is_mean_drift(wind@, grad@, mean),
    {
        let mut sum: W = self.quiet;
        let ghost mut sums: Seq<W> = seq![sum];
        let mut i: usize = 0;
        while i < self.grid.n
            invariant
                self.wf(),
                wind@.len() == self.grid.n,
                grad@.len() == self.grid.n,
                i <= self.grid.n,
                self.are_tallies(wind@, grad@, i as int, sums),
                sums.last() == sum,
            decreases self.grid.n - i,
        {
            sum = (self.tally)(sum, wind[i], grad[i], self.grid.areas[i]);
            proof {
                sums = sums.push(sum);
            }
            i = i + 1;
        }
        (self.mean_drift)(sum)
    }

    /// Mean advective tendency of each layer.
    fn drifts(&self, advect: bool, winds: &Vec<Vec<V>>, grads: &Vec<Vec<V>>) -> (means: Vec<S>)
        requires
            self.wf(),
            are_layers(winds@, winds@.len(), self.grid.n as nat),
            are_layers(grads@, winds@.len(), self.grid.n as nat),
        ensures
            self.are_mean_drifts(advect, winds@, grads@, means@),
    {
        let mut means: Vec<S> = Vec::new();
        let mut l: usize = 0;
        while l < winds.len()
            invariant
                self.wf(),
                are_layers(winds@, winds@.len(), self.grid.n as nat),
                are_layers(grads@, winds@.len(), self.grid.n as nat),
                l <= winds@.len(),
                means@.len() == l,
                forall|k: int|
                    0 <= k < l ==> if advect {
                        self.is_mean_drift(winds@[k]@, grads@[k]@, #[trigger] means@[k])
                    } else {
                        means@[k] == self.arith.zero
                    },
            decreases winds@.len() - l,
        {
            assert(winds@[l as int]@.len() == self.grid.n);
            assert(grads@[l as int]@.len() == self.grid.n);
            if advect {
                means.push(self.drift_of(&winds[l], &grads[l]));
            } else {
                means.push(self.arith.zero);
            }
            l = l + 1;
        }
        means
    }

    /// Transmission of each layer.
    fn clear_all(&self, emis: &Vec<S>) -> (tau: Vec<S>)
        requires
            self.wf(),
        ensures
            tau@.len() == emis@.len(),
            forall|l: int| 0 <= l < emis@.len() ==> call_ensures(self.clear, (#[trigger] emis@[l],), tau@[l]),
    {
        let mut tau: Vec<S> = Vec::new();
        let mut l: usize = 0;
        while l < emis.len()
            invariant
                self.wf(),
                l <= emis@.len(),
                tau@.len() == l,
                forall|k: int| 0 <= k < l ==> call_ensures(self.clear, (#[trigger] emis@[k],), tau@[k]),
            decreases emis@.len() - l,
        {
            tau.push((self.clear)(emis[l]));
            l = l + 1;
        }
        tau
    }

    /// The energy balance of a step, once the winds have moved.
    fn balance<M>(
        &self,
        sim: &Sim<S, V, M, D>,
        at: Moment<S, D>,
        grads: &Vec<Vec<V>>,
        winds: &Vec<Vec<V>>,
    ) -> (out: Stepped<S>)
        requires
            self.wf(),
            sim.wf(self.grid.n as nat),
            are_layers(grads@, sim.n_layers as nat, self.grid.n as nat),
            are_layers(winds@, sim.n_layers as nat, self.grid.n as nat),
        ensures
            self.is_heated(*sim, at, *grads, *winds, out.skin@, out.vented@, out.air@),
            out.skin@.len() == self.grid.n,
            out.vented@.len() == self.grid.n,
            are_layers(out.air@, sim.n_layers as nat, self.grid.n as nat),
    {
        let n: usize = sim.n_layers;
        let c: Climate<S> = sim.climate;
        let emis: Vec<S> = self.arith.geometric_profile(c.atm_emissivity_total, c.atm_emissivity_decay, n);
        let capacity: Vec<S> = self.arith.geometric_profile(
            c.atm_heat_capacity_total,
            c.atm_heat_capacity_decay,
            n,
        );
        let tau: Vec<S> = self.clear_all(&emis);
        let kappa: Vec<S> = chain(&self.arith.times, c.convection_coeff, c.convection_decay, n);
        let means: Vec<S> = self.drifts(c.atm_advection, winds, grads);
        assert(self.takes(at));
        let step = Balance {
            now: Snapshot {
                grid: self.grid,
                skin: &sim.temp,
                air: &sim.atm,
                emis: &emis,
                tau: &tau,
                kappa: &kappa,
                skin_capacity: &sim.heat_cap,
                air_capacity: &capacity,
                winds,
                grads,
                correction: &means,
                advect: c.atm_advection,
            },
            at,
            by: &self.physics,
        };
        let out: Stepped<S> = step.step();
        proof {
            assert(self.is_heated_by(
                *sim,
                at,
                *grads,
                *winds,
                out.skin@,
                out.vented@,
                out.air@,
                emis,
                capacity,
                tau,
                kappa,
                means,
            ));
            assert forall|l: int| 0 <= l < n implies (#[trigger] out.air@[l])@.len() == self.grid.n by {
                assert(step.is_air_layer(l, out.air@[l]@));
            }
        }
        out
    }

    /// One step of `dt`.
    fn substep<M>(&self, sim: &mut Sim<S, V, M, D>, dt: u32)
        requires
            self.wf(),
            old(sim).wf(self.grid.n as nat),
        ensures
            self.is_substep(*old(sim), dt, *final(sim)),
            final(sim).wf(self.grid.n as nat),
            final(sim).same_planet(old(sim)),
    {
        let ghost before = *sim;
        let gradient: S = gradient_factor(self.grid, &sim.temp, &self.contrast);
        let at: Moment<S, D> = Moment {
            climate: sim.climate,
            time: sim.time,
            dt,
            gradient,
            layers: sim.n_layers,
        };
        assert(self.takes(at));
        let grad_s: Vec<V> = gradients(self.grid, &sim.temp, &self.fit, &self.solve, self.unfit, at);
        let grads: Vec<Vec<V>> = self.slopes_all(at, &sim.atm);
        // The winds start from a balance, the first time, rather than from rest.
        if !sim.wind_seeded {
            let seeded: Vec<Vec<V>> = self.seed_winds(at, &grad_s, &grads);
            sim.wind_layers = seeded;
            sim.wind_seeded = true;
        }
        let ghost first = sim.wind_layers@;
        assert(self.are_first_winds(before, at, grad_s, grads@, first));
        let winds: Vec<Vec<V>> = self.blow(at, &grad_s, &grads, &sim.wind_layers);
        let stepped: Stepped<S> = self.balance(&*sim, at, &grads, &winds);
        proof {
            let (emis, capacity, tau, kappa, means) = choose|
                emis: Vec<S>,
                capacity: Vec<S>,
                tau: Vec<S>,
                kappa: Vec<S>,
                means: Vec<S>,
            | #[trigger]
                self.is_heated_by(
                    *sim,
                    at,
                    grads,
                    winds,
                    stepped.skin@,
                    stepped.vented@,
                    stepped.air@,
                    emis,
                    capacity,
                    tau,
                    kappa,
                    means,
                );
            assert(self.is_heated_by(
                before,
                at,
                grads,
                winds,
                stepped.skin@,
                stepped.vented@,
                stepped.air@,
                emis,
                capacity,
                tau,
                kappa,
                means,
            ));
        }
        let time: D = (self.later)(sim.time, dt);
        sim.grad_s = grad_s;
        sim.grads = grads;
        sim.wind_layers = winds;
        sim.temp = stepped.skin;
        sim.conv = stepped.vented;
        sim.atm = stepped.air;
        sim.time = time;
        assert(self.are_first_winds(
            before,
            Self::moment(before, dt, gradient),
            sim.grad_s,
            sim.grads@,
            first,
        ));
        assert(self.is_substep_by(before, dt, *sim, gradient, first)) by {
            reveal(Weather::is_substep_by);
        }
    }

    /// Advance the simulation by `seconds`, in steps of at most [`MAX_SUBSTEP`]. Nothing happens
    /// unless `seconds` is a positive number.
    pub fn advance<M>(&self, sim: &mut Sim<S, V, M, D>, seconds: u32)
        requires
            self.wf(),
            old(sim).wf(self.grid.n as nat),
        ensures
            exists|sims: Seq<Sim<S, V, M, D>>, lefts: Seq<u32>| #[trigger]
                self.is_advance(seconds, sims, lefts) && sims[0] == *old(sim) && sims.last() == *final(sim),
            final(sim).wf(self.grid.n as nat),
            final(sim).same_planet(old(sim)),
    {
        let ghost first = *sim;
        let mut left: u32 = seconds;
        let mut again: bool = true;
        let ghost mut sims: Seq<Sim<S, V, M, D>> = seq![first];
        let ghost mut lefts: Seq<u32> = seq![seconds];
        while again && 0 < left && left <= INFINITY
            invariant
                self.wf(),
                sim.wf(self.grid.n as nat),
                sim.same_planet(&first),
                0 < sims.len() == lefts.len(),
                sims[0] == first,
                sims.last() == *sim,
                lefts[0] == seconds,
                lefts.last() == left,
                forall|k: int|
                    0 <= k < lefts.len() - 1 ==> is_left(#[trigger] lefts[k]) && call_ensures(
                        self.minus,
                        (lefts[k], chunk(lefts[k])),
                        lefts[k + 1],
                    ) && self.is_substep(sims[k], chunk(lefts[k]), sims[k + 1]) && (k > 0 ==> lefts[k]
                        < lefts[k - 1]),
                again <==> lefts.len() == 1 || left < lefts[lefts.len() - 2],
            decreases (if again { left + 1 } else { 0 }),
        {
            let dt: u32 = if left < MAX_SUBSTEP {
                left
            } else {
                MAX_SUBSTEP
            };
            let ghost before = *sim;
            self.substep(sim, dt);
            let rest: u32 = (self.minus)(left, dt);
            again = rest < left;
            proof {
                let m = lefts.len() as int;
                let more = sims.push(*sim);
                let fewer = lefts.push(rest);
                assert forall|k: int| 0 <= k < fewer.len() - 1 implies is_left(#[trigger] fewer[k])
                    && call_ensures(self.minus, (fewer[k], chunk(fewer[k])), fewer[k + 1])
                    && self.is_substep(more[k], chunk(fewer[k]), more[k + 1]) && (k > 0 ==> fewer[k]
                    < fewer[k - 1]) by {
                    if k < m - 1 {
                        assert(fewer[k] == lefts[k] && fewer[k + 1] == lefts[k + 1]);
                        assert(more[k] == sims[k] && more[k + 1] == sims[k + 1]);
                        if k > 0 {
                            assert(fewer[k - 1] == lefts[k - 1]);
                        }
                    } else {
                        assert(fewer[k] == left && more[k] == before);
                        if k > 0 {
                            assert(fewer[k - 1] == lefts[k - 1]);
                        }
                    }
                }
                sims = more;
                lefts = fewer;
                assert(lefts[lefts.len() - 2] == left);
            }
            left = rest;
        }
        assert(self.is_advance(seconds, sims, lefts));
    }
}

impl<S, V, M, D> Sim<S, V, M, D> {
    /// Advance the simulation by `seconds`, sub-stepping: see [`Weather::advance`].
    pub fn advance<
        P,
        Lc,
        A,
        T,
        U,
        B,
        X,
        W,
        FA,
        FB,
        FC,
        FD,
        GA,
        GB,
        GC,
        GD,
        HA,
        HB,
        HC,
        IA,
        IB,
        IC,
        ID,
        IE,
        IF,
        IG,
        IH,
        JA,
        JB,
        KA,
        KB,
        KC,
        KD,
        KE,
        KM,
        KN,
        KF,
        KL,
        KG,
        KH,
        KI,
        KJ,
        KK,
        KO,
        LA,
        LB,
    >(
        &mut self,
        weather: &Weather<
            P,
            Lc,
            A,
            S,
            V,
            D,
            T,
            U,
            B,
            X,
            W,
            FA,
            FB,
            FC,
            FD,
            GA,
            GB,
            GC,
            GD,
            HA,
            HB,
            HC,
            IA,
            IB,
            IC,
            ID,
            IE,
            IF,
            IG,
            IH,
            JA,
            JB,
            KA,
            KB,
            KC,
            KD,
            KE,
            KM,
            KN,
            KF,
            KL,
            KG,
            KH,
            KI,
            KJ,
            KK,
            KO,
            LA,
            LB,
        >,
        seconds: u32,
    ) where
        P: Copy + Sync,
        Lc: Copy + Sync,
        A: Copy + Sync,
        S: Copy + Send + Sync,
        V: Copy + Send + Sync,
        D: Copy + Sync,
        T: Copy,
        U: Copy + Send + Sync,
        B: Copy + Sync,
        X: Copy + Sync,
        W: Copy,
        FA: Fn(S, S) -> S + Sync,
        FB: Fn(S, S) -> S + Sync,
        FC: Fn(S, S) -> S + Sync,
        FD: Fn(S) -> S + Sync,
        GA: Fn(Lc) -> u32 + Sync,
        GB: Fn(T, S, A) -> T + Sync,
        GC: Fn(T) -> bool + Sync,
        GD: Fn(T, T) -> S + Sync,
        HA: Fn(Moment<S, D>, U, P, P, S, S) -> U + Sync,
        HB: Fn(P, U) -> V + Sync,
        HC: Fn(Moment<S, D>, (usize, usize), P, V) -> V + Sync,
        IA: Fn(P) -> usize + Sync,
        IB: Fn(Moment<S, D>, B, P, V, V, A) -> B + Sync,
        IC: Fn(B) -> B + Sync,
        ID: Fn(X, P, P, V, V, A) -> X + Sync,
        IE: Fn(Moment<S, D>, Parcel<P, A, V, B, X>) -> V + Sync,
        IF: Fn(P, V) -> V + Sync,
        IG: Fn(V) -> u32 + Sync,
        IH: Fn(V, u32, u32) -> V + Sync,
        JA: Fn(W, V, V, A) -> W + Sync,
        JB: Fn(W) -> S + Sync,
        KA: Fn(S, S, S) -> S + Sync,
        KB: Fn(S, S, S, S) -> S + Sync,
        KC: Fn(S, S) -> S + Sync,
        KD: Fn(Moment<S, D>, S) -> S + Sync,
        KE: Fn(S, S) -> S + Sync,
        KM: Fn(Moment<S, D>, S, S) -> S + Sync,
        KN: Fn(S) -> bool + Sync,
        KF: Fn(Moment<S, D>, P) -> S + Sync,
        KL: Fn(Moment<S, D>, P) -> S + Sync,
        KG: Fn(S, S, S, A, S, S) -> S + Sync,
        KH: Fn(Moment<S, D>, SkinFlux<S>) -> S + Sync,
        KI: Fn(Moment<S, D>, S, A, S, S) -> S + Sync,
        KJ: Fn(V, V, S) -> S + Sync,
        KK: Fn(Moment<S, D>, AirFlux<S>) -> S + Sync,
        KO: Fn(S, S) -> bool + Sync,
        LA: Fn(D, u32) -> D + Sync,
        LB: Fn(u32, u32) -> u32 + Sync,

        requires
            weather.wf(),
            old(self).wf(weather.grid.n as nat),
        ensures
            exists|sims: Seq<Self>, lefts: Seq<u32>| #[trigger]
                weather.is_advance(seconds, sims, lefts) && sims[0] == *old(self) && sims.last()
                    == *final(self),
            final(self).wf(weather.grid.n as nat),
            final(self).same_planet(old(self)),
    {
        weather.advance(self, seconds)
    }
}

} // verus!
