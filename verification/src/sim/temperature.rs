//! The per-cell grey-column energy balance, run in parallel over the cells.
//!
//! Each cell carries a skin temperature and a column of atmosphere layers, the lowest first. A layer
//! absorbs and emits a fraction of the longwave beam; the beams are followed in two sweeps through
//! the column, up from the surface and down from space ([`Beam::longwave_column`]). A convective
//! chain vents heat upward link by link. Heat is mixed laterally over the cell's neighbors, and each
//! layer is carried by its own wind. A step reads a [`Snapshot`] and writes new fields, so a
//! neighbor's value is never that of a half-done step.

use crate::grid::Grid;
use crate::kernel::{
    is_function1, is_function2, is_function3, is_function4, is_function5, is_function6,
};
use crate::par::par_map;
use vstd::prelude::*;

verus! {

/// The arithmetic of the longwave beams.
pub struct Beam<S, F, G> {
    /// No flux.
    pub zero: S,
    /// A beam on the far side of a layer: what the layer lets through of it, and its emission.
    /// Takes the transmission, the beam and the emission.
    pub pass: F,
    /// Net longwave that a layer absorbs: its emissivity, the upward beam that enters below, the
    /// downward beam that enters above, and its emission to both sides.
    pub keep: G,
}

impl<S, F, G> Beam<S, F, G> where F: Fn(S, S, S) -> S, G: Fn(S, S, S, S) -> S {
    /// The operations take every value.
    pub open spec fn total(&self) -> bool {
        &&& forall|t: S, x: S, b: S| #[trigger] call_requires(self.pass, (t, x, b))
        &&& forall|e: S, u: S, d: S, b: S| #[trigger] call_requires(self.keep, (e, u, d, b))
    }

    /// `up` is the upward beam at each interface: the surface's emission at the lowest, and above
    /// each layer what that layer passes on.
    pub open spec fn is_up(&self, glow: S, b: Seq<S>, tau: Seq<S>, up: Seq<S>) -> bool {
        &&& up.len() == b.len() + 1
        &&& up[0] == glow
        &&& forall|l: int|
            0 <= l < b.len() ==> call_ensures(self.pass, (tau[l], up[l], #[trigger] b[l]), up[l + 1])
    }

    /// `down` is the downward beam at each interface: none from space at the highest, and below
    /// each layer what that layer passes on.
    pub open spec fn is_down(&self, b: Seq<S>, tau: Seq<S>, down: Seq<S>) -> bool {
        &&& down.len() == b.len() + 1
        &&& down[b.len() as int] == self.zero
        &&& forall|l: int|
            0 <= l < b.len() ==> call_ensures(self.pass, (tau[l], down[l + 1], #[trigger] b[l]), down[l])
    }

    /// `net` is what each layer absorbs of the beams `up` and `down`.
    pub open spec fn is_net(
        &self,
        b: Seq<S>,
        emis: Seq<S>,
        up: Seq<S>,
        down: Seq<S>,
        net: Seq<S>,
    ) -> bool {
        &&& net.len() == b.len()
        &&& forall|l: int|
            0 <= l < b.len() ==> call_ensures(
                self.keep,
                (emis[l], up[l], down[l + 1], #[trigger] b[l]),
                net[l],
            )
    }

    /// `net` and `ground` are what the beams of a column bring: net to each layer, and downward to
    /// the surface.
    pub open spec fn is_longwave(
        &self,
        glow: S,
        b: Seq<S>,
        emis: Seq<S>,
        tau: Seq<S>,
        net: Seq<S>,
        ground: S,
    ) -> bool {
        exists|up: Seq<S>, down: Seq<S>|
            {
                &&& #[trigger] self.is_up(glow, b, tau, up)
                &&& #[trigger] self.is_down(b, tau, down)
                &&& self.is_net(b, emis, up, down, net)
                &&& ground == down[0]
            }
    }

    /// Grey longwave for a column of layers over the surface: the net longwave that each layer
    /// absorbs, and the downward flux that reaches the surface. `glow` is the surface's emission
    /// and `b` are the layers'.
    pub fn longwave_column(&self, glow: S, b: &Vec<S>, emis: &Vec<S>, tau: &Vec<S>) -> (out: (
        Vec<S>,
        S,
    )) where S: Copy
        requires
            self.total(),
            emis@.len() == b@.len(),
            tau@.len() == b@.len(),
        ensures
            self.is_longwave(glow, b@, emis@, tau@, out.0@, out.1),
            out.0@.len() == b@.len(),
    {
        let n: usize = b.len();
        let mut up: Vec<S> = Vec::new();
        let mut beam: S = glow;
        up.push(beam);
        let mut l: usize = 0;
        while l < n
            invariant
                self.total(),
                l <= n,
                n == b@.len(),
                tau@.len() == n,
                up@.len() == l + 1,
                up@[0] == glow,
                up@[l as int] == beam,
                forall|k: int|
                    0 <= k < l ==> call_ensures(self.pass, (tau@[k], up@[k], #[trigger] b@[k]), up@[k + 1]),
            decreases n - l,
        {
            beam = (self.pass)(tau[l], beam, b[l]);
            up.push(beam);
            l = l + 1;
        }
        // The downward beam, gathered from the top.
        let mut falling: Vec<S> = Vec::new();
        beam = self.zero;
        falling.push(beam);
        let mut m: usize = 0;
        while m < n
            invariant
                self.total(),
                m <= n,
                n == b@.len(),
                tau@.len() == n,
                falling@.len() == m + 1,
                falling@[0] == self.zero,
                falling@[m as int] == beam,
                forall|k: int|
                    n - m <= k < n ==> call_ensures(
                        self.pass,
                        (tau@[k], falling@[n - 1 - k], #[trigger] b@[k]),
                        falling@[n - k],
                    ),
            decreases n - m,
        {
            let k: usize = n - 1 - m;
            beam = (self.pass)(tau[k], beam, b[k]);
            falling.push(beam);
            m = m + 1;
        }
        let ghost down = Seq::new((n + 1) as nat, |k: int| falling@[n - k]);
        let mut net: Vec<S> = Vec::new();
        l = 0;
        while l < n
            invariant
                self.total(),
                l <= n,
                n == b@.len(),
                emis@.len() == n,
                up@.len() == n + 1,
                falling@.len() == n + 1,
                down == Seq::new((n + 1) as nat, |k: int| falling@[n - k]),
                net@.len() == l,
                forall|k: int|
                    0 <= k < l ==> call_ensures(
                        self.keep,
                        (emis@[k], up@[k], down[k + 1], #[trigger] b@[k]),
                        net@[k],
                    ),
            decreases n - l,
        {
            net.push((self.keep)(emis[l], up[l], falling[n - 1 - l], b[l]));
            l = l + 1;
        }
        assert(self.is_up(glow, b@, tau@, up@));
        assert(self.is_down(b@, tau@, down));
        (net, beam)
    }

    /// The beams' arithmetic is exact for the values `val` of the scalars: layer `l` lets through
    /// what it does not absorb, `tau = one - emis`, in units in which `one` is everything.
    pub open spec fn exact(&self, val: spec_fn(S) -> int, one: int) -> bool {
        &&& val(self.zero) == 0
        &&& forall|t: S, x: S, b: S, y: S| #[trigger]
            call_ensures(self.pass, (t, x, b), y) ==> one * val(y) == val(t) * val(x) + one * val(b)
        &&& forall|e: S, u: S, d: S, b: S, y: S| #[trigger]
            call_ensures(self.keep, (e, u, d, b), y) ==> one * val(y) == val(e) * (val(u) + val(d))
                - 2 * one * val(b)
    }

    /// A column conserves energy: where the arithmetic is exact, what the layers absorb and what
    /// the surface gains over its own emission sum to minus the beam that leaves to space.
    pub proof fn law_column_conserves_energy(
        &self,
        val: spec_fn(S) -> int,
        one: int,
        glow: S,
        b: Seq<S>,
        emis: Seq<S>,
        tau: Seq<S>,
        up: Seq<S>,
        down: Seq<S>,
        net: Seq<S>,
    )
        requires
            one != 0,
            self.exact(val, one),
            emis.len() == b.len(),
            tau.len() == b.len(),
            forall|l: int| 0 <= l < b.len() ==> val(#[trigger] tau[l]) == one - val(emis[l]),
            self.is_up(glow, b, tau, up),
            self.is_down(b, tau, down),
            self.is_net(b, emis, up, down, net),
        ensures
            total_of(val, net) + (val(down[0]) - val(glow)) == -val(up[b.len() as int]),
    {
        self.lemma_layers_telescope(val, one, glow, b, emis, tau, up, down, net, b.len() as int);
        assert(net.take(b.len() as int) =~= net);
        let total = total_of(val, net);
        let left = val(up[0]) - val(up[b.len() as int]) + val(down[b.len() as int]) - val(down[0]);
        assert(total == left) by (nonlinear_arith)
            requires
                one * total == one * left,
                one != 0,
        ;
    }

    proof fn lemma_layers_telescope(
        &self,
        val: spec_fn(S) -> int,
        one: int,
        glow: S,
        b: Seq<S>,
        emis: Seq<S>,
        tau: Seq<S>,
        up: Seq<S>,
        down: Seq<S>,
        net: Seq<S>,
        k: int,
    )
        requires
            self.exact(val, one),
            emis.len() == b.len(),
            tau.len() == b.len(),
            forall|l: int| 0 <= l < b.len() ==> val(#[trigger] tau[l]) == one - val(emis[l]),
            self.is_up(glow, b, tau, up),
            self.is_down(b, tau, down),
            self.is_net(b, emis, up, down, net),
            0 <= k <= b.len(),
        ensures
            one * total_of(val, net.take(k)) == one * (val(up[0]) - val(up[k]) + val(down[k]) - val(
                down[0],
            )),
        decreases k,
    {
        if k > 0 {
            let l = k - 1;
            self.lemma_layers_telescope(val, one, glow, b, emis, tau, up, down, net, l);
            assert(net.take(k).drop_last() =~= net.take(l));
            assert(net.take(k).last() == net[l]);
            let e = val(emis[l]);
            let u = val(up[l]);
            let d = val(down[k]);
            let x = val(b[l]);
            assert(val(tau[l]) == one - e);
            assert(call_ensures(self.pass, (tau[l], up[l], b[l]), up[l + 1]));
            assert(call_ensures(self.pass, (tau[l], down[l + 1], b[l]), down[l]));
            assert(call_ensures(self.keep, (emis[l], up[l], down[l + 1], b[l]), net[l]));
            let before = total_of(val, net.take(l));
            let after = total_of(val, net.take(k));
            assert(after == before + val(net[l]));
            let u2 = val(up[k]);
            let d0 = val(down[l]);
            let n0 = val(net[l]);
            let u0 = val(up[0]);
            let dz = val(down[0]);
            assert(one * after == one * before + one * n0) by (nonlinear_arith)
                requires
                    after == before + n0,
            ;
            assert(e * (u + d) == e * u + e * d) by (nonlinear_arith);
            assert((one - e) * u == one * u - e * u) by (nonlinear_arith);
            assert((one - e) * d == one * d - e * d) by (nonlinear_arith);
            assert(2 * one * x == 2 * (one * x)) by (nonlinear_arith);
            assert(one * (u0 - u + d0 - dz) == one * u0 - one * u + one * d0 - one * dz)
                by (nonlinear_arith);
            assert(one * (u0 - u2 + d - dz) == one * u0 - one * u2 + one * d - one * dz)
                by (nonlinear_arith);
        } else {
            assert(net.take(0) =~= Seq::<S>::empty());
        }
    }
}

/// Sum of the values of `items`.
pub open spec fn total_of<S>(val: spec_fn(S) -> int, items: Seq<S>) -> int
    decreases items.len(),
{
    if items.len() == 0 {
        0
    } else {
        total_of(val, items.drop_last()) + val(items.last())
    }
}

/// What a step reads: the fields as they stand, and what goes with each layer and link.
pub struct Snapshot<'a, P, L, A, S, V> {
    pub grid: &'a Grid<P, L, A>,
    /// Skin temperature per cell.
    pub skin: &'a Vec<S>,
    /// Temperatures of each layer, the lowest first.
    pub air: &'a Vec<Vec<S>>,
    /// Emissivity of each layer.
    pub emis: &'a Vec<S>,
    /// Transmission of each layer.
    pub tau: &'a Vec<S>,
    /// Convective exchange of the link below each layer.
    pub kappa: &'a Vec<S>,
    /// Heat capacity of the skin per cell.
    pub skin_capacity: &'a Vec<S>,
    /// Heat capacity of each layer.
    pub air_capacity: &'a Vec<S>,
    /// Wind of each layer.
    pub winds: &'a Vec<Vec<V>>,
    /// Temperature gradient of each layer.
    pub grads: &'a Vec<Vec<V>>,
    /// Mean advective tendency of each layer, taken off so that advection only moves heat around.
    pub correction: &'a Vec<S>,
    /// Whether layers are carried by their winds.
    pub advect: bool,
}

/// `fields` are `layers` fields of `n` cells each.
pub open spec fn are_layers<T>(fields: Seq<Vec<T>>, layers: nat, n: nat) -> bool {
    &&& fields.len() == layers
    &&& forall|l: int| 0 <= l < layers ==> (#[trigger] fields[l])@.len() == n
}

impl<'a, P, L, A, S, V> Snapshot<'a, P, L, A, S, V> {
    /// Every field has a value per cell, and there is at least one layer.
    pub open spec fn wf(&self) -> bool {
        let n = self.grid.n as nat;
        let layers = self.air@.len();
        &&& self.grid.wf()
        &&& layers > 0
        &&& self.skin@.len() == n
        &&& self.skin_capacity@.len() == n
        &&& are_layers(self.air@, layers, n)
        &&& are_layers(self.winds@, layers, n)
        &&& are_layers(self.grads@, layers, n)
        &&& self.emis@.len() == layers
        &&& self.tau@.len() == layers
        &&& self.kappa@.len() == layers
        &&& self.air_capacity@.len() == layers
        &&& self.correction@.len() == layers
    }

    /// Temperatures of the layers over cell `i`.
    pub open spec fn column(&self, i: int) -> Seq<S> {
        Seq::new(self.air@.len(), |l: int| self.air@[l]@[i])
    }
}

/// What changes a cell's skin temperature.
pub struct SkinFlux<S> {
    /// Temperature now.
    pub temp: S,
    /// Sunlight absorbed.
    pub light: S,
    /// Longwave from the atmosphere.
    pub down: S,
    /// Longwave emitted.
    pub glow: S,
    /// Convection into the lowest layer.
    pub vent: S,
    /// Lateral mixing.
    pub mixed: S,
    /// Heat capacity.
    pub capacity: S,
}

/// What changes a layer's temperature over a cell.
pub struct AirFlux<S> {
    /// Temperature now.
    pub temp: S,
    /// Net longwave absorbed.
    pub net: S,
    /// Convection from below.
    pub below: S,
    /// Convection to above.
    pub above: S,
    /// Lateral mixing.
    pub mixed: S,
    /// Tendency of advection.
    pub drift: S,
    /// Heat capacity.
    pub capacity: S,
}

/// The formulas of the energy balance. `C` is what they all may depend on: the climate, the time and
/// the length of the step.
pub struct Physics<S, F, G, H, I, J, X, Y, K, U, M, N, O, Q, R, T> {
    pub beam: Beam<S, F, G>,
    /// Emission of a layer, from its emissivity and temperature.
    pub emit: H,
    /// Emission of the skin, from its temperature.
    pub glow: I,
    /// Convective flux of a link, from its exchange and by how much it is too warm below.
    pub vent: J,
    /// By how much a link is too warm below, from the temperatures below and above.
    pub excess: X,
    /// An excess is above zero: the link vents.
    pub flows: Y,
    /// Sunlight absorbed at a position.
    pub light: K,
    /// Lateral conductance of the skin at a position.
    pub conduct: U,
    /// Lateral mixing of the skin with one neighbor more: the sum so far, the cell's lateral
    /// conductance and the neighbor's, the edge's conductance, the neighbor's temperature and the
    /// cell's own.
    pub mix_skin: M,
    /// Skin temperature after the step.
    pub warm_skin: N,
    /// Lateral mixing of a layer with one neighbor more: the sum so far, the edge's conductance,
    /// the neighbor's temperature and the cell's own.
    pub mix_air: O,
    /// Advective tendency, from the wind, the gradient and the layer's mean tendency.
    pub drift: Q,
    /// Layer temperature after the step.
    pub warm_air: R,
    /// Lowest temperature that a cell may reach.
    pub floor: S,
    /// A temperature is not at or above the other.
    pub under: T,
}

/// A step of the energy balance: what it reads, what the formulas depend on, and the formulas.
pub struct Balance<'a, P, L, A, S, V, C, F, G, H, I, J, X, Y, K, U, M, N, O, Q, R, T> {
    pub now: Snapshot<'a, P, L, A, S, V>,
    pub at: C,
    pub by: &'a Physics<S, F, G, H, I, J, X, Y, K, U, M, N, O, Q, R, T>,
}

/// The fields after a step.
pub struct Stepped<S> {
    pub skin: Vec<S>,
    /// Convective flux from the skin into the lowest layer.
    pub vented: Vec<S>,
    pub air: Vec<Vec<S>>,
}

impl<'a, P, L, A, S, V, C, F, G, H, I, J, X, Y, K, U, M, N, O, Q, R, T> Balance<
    'a,
    P,
    L,
    A,
    S,
    V,
    C,
    F,
    G,
    H,
    I,
    J,
    X,
    Y,
    K,
    U,
    M,
    N,
    O,
    Q,
    R,
    T,
> where
    F: Fn(S, S, S) -> S,
    G: Fn(S, S, S, S) -> S,
    H: Fn(S, S) -> S,
    I: Fn(C, S) -> S,
    J: Fn(S, S) -> S,
    X: Fn(C, S, S) -> S,
    Y: Fn(S) -> bool,
    K: Fn(C, P) -> S,
    U: Fn(C, P) -> S,
    M: Fn(S, S, S, A, S, S) -> S,
    N: Fn(C, SkinFlux<S>) -> S,
    O: Fn(C, S, A, S, S) -> S,
    Q: Fn(V, V, S) -> S,
    R: Fn(C, AirFlux<S>) -> S,
    T: Fn(S, S) -> bool,
 {
    /// The snapshot is sound and the formulas take every value.
    pub open spec fn wf(&self) -> bool {
        &&& self.now.wf()
        &&& self.by.beam.total()
        &&& forall|e: S, t: S| #[trigger] call_requires(self.by.emit, (e, t))
        &&& forall|t: S| #[trigger] call_requires(self.by.glow, (self.at, t))
        &&& forall|k: S, x: S| #[trigger] call_requires(self.by.vent, (k, x))
        &&& forall|t: S, u: S| #[trigger] call_requires(self.by.excess, (self.at, t, u))
        &&& forall|x: S| #[trigger] call_requires(self.by.flows, (x,))
        &&& forall|t: S, u: S| #[trigger] call_requires(self.by.under, (t, u))
        &&& forall|p: P| #[trigger] call_requires(self.by.light, (self.at, p))
        &&& forall|p: P| #[trigger] call_requires(self.by.conduct, (self.at, p))
        &&& forall|s: S, c: S, d: S, w: A, t: S, u: S| #[trigger]
            call_requires(self.by.mix_skin, (s, c, d, w, t, u))
        &&& forall|f: SkinFlux<S>| #[trigger] call_requires(self.by.warm_skin, (self.at, f))
        &&& forall|s: S, w: A, t: S, u: S| #[trigger] call_requires(self.by.mix_air, (self.at, s, w, t, u))
        &&& forall|v: V, g: V, c: S| #[trigger] call_requires(self.by.drift, (v, g, c))
        &&& forall|f: AirFlux<S>| #[trigger] call_requires(self.by.warm_air, (self.at, f))
    }

    /// `b` are the emissions of layers of temperatures `column`.
    pub open spec fn are_emissions(&self, column: Seq<S>, b: Seq<S>) -> bool {
        &&& b.len() == column.len()
        &&& forall|l: int|
            0 <= l < b.len() ==> call_ensures(self.by.emit, (self.now.emis@[l], column[l]), #[trigger] b[l])
    }

    /// `glow`, `net` and `down` are the longwave of cell `i`: the skin's emission, what each layer
    /// absorbs net, and what reaches the skin.
    pub open spec fn is_radiation(&self, i: int, glow: S, net: Seq<S>, down: S) -> bool {
        &&& call_ensures(self.by.glow, (self.at, self.now.skin@[i]), glow)
        &&& exists|b: Seq<S>| #[trigger]
            self.are_emissions(self.now.column(i), b) && self.by.beam.is_longwave(
                glow,
                b,
                self.now.emis@,
                self.now.tau@,
                net,
                down,
            )
    }

    /// `lateral` are the lateral conductances of the skin at all cells.
    pub open spec fn are_conductances(&self, lateral: Seq<S>) -> bool {
        &&& lateral.len() == self.now.grid.n
        &&& forall|i: int|
            0 <= i < lateral.len() ==> call_ensures(
                self.by.conduct,
                (self.at, self.now.grid.centers@[i]),
                #[trigger] lateral[i],
            )
    }

    /// `sums` add up the skin's lateral mixing over the first `k` neighbors of cell `i`.
    pub open spec fn are_skin_sums(&self, lateral: Seq<S>, i: int, k: int, sums: Seq<S>) -> bool {
        let nbs = self.now.grid.neighbors_of(i);
        &&& sums.len() == k + 1
        &&& sums[0] == self.by.beam.zero
        &&& forall|m: int|
            0 <= m < k ==> call_ensures(
                self.by.mix_skin,
                (
                    sums[m],
                    lateral[i],
                    lateral[nbs[m] as int],
                    self.now.grid.weights_of(i)[m],
                    self.now.skin@[#[trigger] nbs[m] as int],
                    self.now.skin@[i],
                ),
                sums[m + 1],
            )
    }

    /// `mixed` is the skin's lateral mixing at cell `i`.
    pub open spec fn is_skin_mix(&self, lateral: Seq<S>, i: int, mixed: S) -> bool {
        exists|sums: Seq<S>| #[trigger]
            self.are_skin_sums(lateral, i, self.now.grid.neighbors_of(i).len() as int, sums)
                && sums.last() == mixed
    }

    /// `sums` add up the lateral mixing of layer `l` over the first `k` neighbors of cell `i`.
    pub open spec fn are_air_sums(&self, l: int, i: int, k: int, sums: Seq<S>) -> bool {
        let nbs = self.now.grid.neighbors_of(i);
        &&& sums.len() == k + 1
        &&& sums[0] == self.by.beam.zero
        &&& forall|m: int|
            0 <= m < k ==> call_ensures(
                self.by.mix_air,
                (
                    self.at,
                    sums[m],
                    self.now.grid.weights_of(i)[m],
                    self.now.air@[l]@[#[trigger] nbs[m] as int],
                    self.now.air@[l]@[i],
                ),
                sums[m + 1],
            )
    }

    /// `mixed` is the lateral mixing of layer `l` at cell `i`.
    pub open spec fn is_air_mix(&self, l: int, i: int, mixed: S) -> bool {
        exists|sums: Seq<S>| #[trigger]
            self.are_air_sums(l, i, self.now.grid.neighbors_of(i).len() as int, sums) && sums.last()
                == mixed
    }

    /// `flux` is the convection through a link between bodies of the given temperatures: none unless
    /// the one below is too warm.
    pub open spec fn is_link_flux(&self, kappa: S, lower: S, upper: S, flux: S) -> bool {
        exists|x: S, e: S|
            {
                &&& call_ensures(self.by.excess, (self.at, lower, upper), x)
                &&& #[trigger] self.is_surplus(x, e)
                &&& call_ensures(self.by.vent, (kappa, e), flux)
            }
    }

    /// `e` is the excess `x` if it flows, and nothing otherwise.
    pub open spec fn is_surplus(&self, x: S, e: S) -> bool {
        ||| call_ensures(self.by.flows, (x,), true) && e == x
        ||| call_ensures(self.by.flows, (x,), false) && e == self.by.beam.zero
    }

    /// `flux` is the convection through the link below layer `l` at cell `i`, from the skin or the
    /// layer below; there is none through the link above the top layer.
    pub open spec fn is_vent(&self, l: int, i: int, flux: S) -> bool {
        if l >= self.now.air@.len() {
            flux == self.by.beam.zero
        } else if l == 0 {
            self.is_link_flux(self.now.kappa@[0], self.now.skin@[i], self.now.air@[0]@[i], flux)
        } else {
            self.is_link_flux(
                self.now.kappa@[l],
                self.now.air@[l - 1]@[i],
                self.now.air@[l]@[i],
                flux,
            )
        }
    }

    /// `out` is the temperature `warmed`, held at the floor.
    pub open spec fn is_held(&self, warmed: S, out: S) -> bool {
        ||| call_ensures(self.by.under, (warmed, self.by.floor), true) && out == self.by.floor
        ||| call_ensures(self.by.under, (warmed, self.by.floor), false) && out == warmed
    }

    /// `tendency` is what the wind of layer `l` brings to cell `i`, nothing where layers are not
    /// carried.
    pub open spec fn is_drift(&self, l: int, i: int, tendency: S) -> bool {
        if self.now.advect {
            call_ensures(
                self.by.drift,
                (self.now.winds@[l]@[i], self.now.grads@[l]@[i], self.now.correction@[l]),
                tendency,
            )
        } else {
            tendency == self.by.beam.zero
        }
    }

    /// `out` is the skin temperature of cell `i` after the step, and the convective flux off it.
    pub open spec fn is_skin_cell(&self, lateral: Seq<S>, i: int, out: (S, S)) -> bool {
        exists|f: SkinFlux<S>, net: Seq<S>, warmed: S|
            {
                &&& f.temp == self.now.skin@[i]
                &&& f.capacity == self.now.skin_capacity@[i]
                &&& f.vent == out.1
                &&& call_ensures(self.by.light, (self.at, self.now.grid.centers@[i]), f.light)
                &&& #[trigger] self.is_radiation(i, f.glow, net, f.down)
                &&& self.is_vent(0, i, f.vent)
                &&& self.is_skin_mix(lateral, i, f.mixed)
                &&& #[trigger] call_ensures(self.by.warm_skin, (self.at, f), warmed)
                &&& self.is_held(warmed, out.0)
            }
    }

    /// `out` is the temperature of layer `l` over cell `i` after the step.
    pub open spec fn is_air_cell(&self, l: int, i: int, out: S) -> bool {
        exists|f: AirFlux<S>, glow: S, net: Seq<S>, down: S, warmed: S|
            {
                &&& f.temp == self.now.air@[l]@[i]
                &&& f.capacity == self.now.air_capacity@[l]
                &&& #[trigger] self.is_radiation(i, glow, net, down)
                &&& f.net == net[l]
                &&& self.is_vent(l, i, f.below)
                &&& self.is_vent(l + 1, i, f.above)
                &&& self.is_air_mix(l, i, f.mixed)
                &&& self.is_drift(l, i, f.drift)
                &&& #[trigger] call_ensures(self.by.warm_air, (self.at, f), warmed)
                &&& self.is_held(warmed, out)
            }
    }

    /// Longwave of cell `i`.
    fn radiation(&self, i: usize) -> (out: (S, Vec<S>, S)) where S: Copy, C: Copy
        requires
            self.wf(),
            i < self.now.grid.n,
        ensures
            self.is_radiation(i as int, out.0, out.1@, out.2),
            out.1@.len() == self.now.air@.len(),
    {
        let layers: usize = self.now.air.len();
        let mut b: Vec<S> = Vec::new();
        let mut l: usize = 0;
        while l < layers
            invariant
                self.wf(),
                i < self.now.grid.n,
                l <= layers,
                layers == self.now.air@.len(),
                b@.len() == l,
                forall|k: int|
                    0 <= k < l ==> call_ensures(
                        self.by.emit,
                        (self.now.emis@[k], self.now.column(i as int)[k]),
                        #[trigger] b@[k],
                    ),
            decreases layers - l,
        {
            assert(self.now.air@[l as int]@.len() == self.now.grid.n);
            b.push((self.by.emit)(self.now.emis[l], self.now.air[l][i]));
            l = l + 1;
        }
        assert(self.are_emissions(self.now.column(i as int), b@));
        let glow: S = (self.by.glow)(self.at, self.now.skin[i]);
        let (net, down) = self.by.beam.longwave_column(glow, &b, self.now.emis, self.now.tau);
        (glow, net, down)
    }

    /// Convection through the link below layer `l` at cell `i`.
    fn vent_flux(&self, l: usize, i: usize) -> (flux: S) where S: Copy, C: Copy
        requires
            self.wf(),
            i < self.now.grid.n,
        ensures
            self.is_vent(l as int, i as int, flux),
    {
        if l >= self.now.air.len() {
            self.by.beam.zero
        } else {
            assert(self.now.air@[l as int]@.len() == self.now.grid.n);
            if l == 0 {
                self.link_flux(self.now.kappa[0], self.now.skin[i], self.now.air[0][i])
            } else {
                assert(self.now.air@[l - 1]@.len() == self.now.grid.n);
                self.link_flux(self.now.kappa[l], self.now.air[l - 1][i], self.now.air[l][i])
            }
        }
    }

    /// Convection through one link.
    fn link_flux(&self, kappa: S, lower: S, upper: S) -> (flux: S) where S: Copy, C: Copy
        requires
            self.wf(),
        ensures
            self.is_link_flux(kappa, lower, upper, flux),
    {
        let x: S = (self.by.excess)(self.at, lower, upper);
        let e: S = if (self.by.flows)(x) {
            x
        } else {
            self.by.beam.zero
        };
        assert(self.is_surplus(x, e));
        (self.by.vent)(kappa, e)
    }

    /// A temperature held at the floor.
    fn held(&self, warmed: S) -> (out: S) where S: Copy
        requires
            self.wf(),
        ensures
            self.is_held(warmed, out),
    {
        if (self.by.under)(warmed, self.by.floor) {
            self.by.floor
        } else {
            warmed
        }
    }

    /// Lateral mixing of the skin at cell `i`.
    fn skin_mix(&self, lateral: &Vec<S>, i: usize) -> (mixed: S) where S: Copy, A: Copy
        requires
            self.wf(),
            i < self.now.grid.n,
            lateral@.len() == self.now.grid.n,
        ensures
            self.is_skin_mix(lateral@, i as int, mixed),
    {
        let nbs: &[u32] = self.now.grid.neighbors(i);
        let weights: &[A] = self.now.grid.neighbor_weights(i);
        let mut mixed: S = self.by.beam.zero;
        let ghost mut sums: Seq<S> = seq![mixed];
        let mut k: usize = 0;
        while k < nbs.len()
            invariant
                self.wf(),
                i < self.now.grid.n,
                lateral@.len() == self.now.grid.n,
                k <= nbs@.len(),
                nbs@ == self.now.grid.neighbors_of(i as int),
                weights@ == self.now.grid.weights_of(i as int),
                weights@.len() == nbs@.len(),
                forall|m: int| 0 <= m < nbs@.len() ==> #[trigger] nbs@[m] < self.now.grid.n,
                self.are_skin_sums(lateral@, i as int, k as int, sums),
                sums.last() == mixed,
            decreases nbs@.len() - k,
        {
            let j: usize = nbs[k] as usize;
            mixed = (self.by.mix_skin)(
                mixed,
                lateral[i],
                lateral[j],
                weights[k],
                self.now.skin[j],
                self.now.skin[i],
            );
            proof {
                sums = sums.push(mixed);
            }
            k = k + 1;
        }
        mixed
    }

    /// Lateral mixing of layer `l` at cell `i`.
    fn air_mix(&self, l: usize, i: usize) -> (mixed: S) where S: Copy, A: Copy, C: Copy
        requires
            self.wf(),
            i < self.now.grid.n,
            l < self.now.air@.len(),
        ensures
            self.is_air_mix(l as int, i as int, mixed),
    {
        let nbs: &[u32] = self.now.grid.neighbors(i);
        let weights: &[A] = self.now.grid.neighbor_weights(i);
        let field: &Vec<S> = &self.now.air[l];
        let mut mixed: S = self.by.beam.zero;
        let ghost mut sums: Seq<S> = seq![mixed];
        let mut k: usize = 0;
        while k < nbs.len()
            invariant
                self.wf(),
                i < self.now.grid.n,
                l < self.now.air@.len(),
                field@ == self.now.air@[l as int]@,
                field@.len() == self.now.grid.n,
                k <= nbs@.len(),
                nbs@ == self.now.grid.neighbors_of(i as int),
                weights@ == self.now.grid.weights_of(i as int),
                weights@.len() == nbs@.len(),
                forall|m: int| 0 <= m < nbs@.len() ==> #[trigger] nbs@[m] < self.now.grid.n,
                self.are_air_sums(l as int, i as int, k as int, sums),
                sums.last() == mixed,
            decreases nbs@.len() - k,
        {
            let j: usize = nbs[k] as usize;
            mixed = (self.by.mix_air)(self.at, mixed, weights[k], field[j], field[i]);
            proof {
                sums = sums.push(mixed);
            }
            k = k + 1;
        }
        mixed
    }

    /// Skin temperature of cell `i` after the step, and the convective flux off it, given the
    /// cell's longwave. The skin is not advected.
    fn skin_cell(&self, lateral: &Vec<S>, i: usize, glow: S, net: &Vec<S>, down: S) -> (out: (S, S)) where
        S: Copy,
        P: Copy,
        A: Copy,
        C: Copy,

        requires
            self.wf(),
            i < self.now.grid.n,
            lateral@.len() == self.now.grid.n,
            self.is_radiation(i as int, glow, net@, down),
        ensures
            self.is_skin_cell(lateral@, i as int, out),
    {
        let vent: S = self.vent_flux(0, i);
        let light: S = (self.by.light)(self.at, self.now.grid.centers[i]);
        let mixed: S = self.skin_mix(lateral, i);
        let f = SkinFlux {
            temp: self.now.skin[i],
            light,
            down,
            glow,
            vent,
            mixed,
            capacity: self.now.skin_capacity[i],
        };
        let warmed: S = (self.by.warm_skin)(self.at, f);
        let out: (S, S) = (self.held(warmed), vent);
        assert(self.is_radiation(i as int, f.glow, net@, f.down));
        assert(call_ensures(self.by.warm_skin, (self.at, f), warmed));
        out
    }

    /// Temperature of layer `l` over cell `i` after the step, given the cell's longwave.
    fn air_cell(&self, l: usize, i: usize, glow: S, net: &Vec<S>, down: S) -> (out: S) where
        S: Copy,
        A: Copy,
        V: Copy,
        C: Copy,

        requires
            self.wf(),
            i < self.now.grid.n,
            l < self.now.air@.len(),
            net@.len() == self.now.air@.len(),
            self.is_radiation(i as int, glow, net@, down),
        ensures
            self.is_air_cell(l as int, i as int, out),
    {
        let below: S = self.vent_flux(l, i);
        let layers: usize = self.now.air.len();
        assert(l < layers);
        let above: S = self.vent_flux(l + 1, i);
        let mixed: S = self.air_mix(l, i);
        assert(self.now.air@[l as int]@.len() == self.now.grid.n);
        assert(self.now.winds@[l as int]@.len() == self.now.grid.n);
        assert(self.now.grads@[l as int]@.len() == self.now.grid.n);
        let drift: S = if self.now.advect {
            (self.by.drift)(self.now.winds[l][i], self.now.grads[l][i], self.now.correction[l])
        } else {
            self.by.beam.zero
        };
        let f = AirFlux {
            temp: self.now.air[l][i],
            net: net[l],
            below,
            above,
            mixed,
            drift,
            capacity: self.now.air_capacity[l],
        };
        let warmed: S = (self.by.warm_air)(self.at, f);
        assert(self.is_radiation(i as int, glow, net@, down));
        assert(call_ensures(self.by.warm_air, (self.at, f), warmed));
        self.held(warmed)
    }

    /// Everything over cell `i` after the step.
    pub open spec fn is_cell(&self, lateral: Seq<S>, i: int, out: CellStep<S>) -> bool {
        &&& self.is_skin_cell(lateral, i, (out.skin, out.vented))
        &&& out.air@.len() == self.now.air@.len()
        &&& forall|l: int| 0 <= l < out.air@.len() ==> self.is_air_cell(l, i, #[trigger] out.air@[l])
    }

    /// Everything over cell `i` after the step. The longwave is worked out once for the column.
    fn cell(&self, lateral: &Vec<S>, i: usize) -> (out: CellStep<S>) where
        S: Copy,
        P: Copy,
        A: Copy,
        V: Copy,
        C: Copy,

        requires
            self.wf(),
            i < self.now.grid.n,
            lateral@.len() == self.now.grid.n,
        ensures
            self.is_cell(lateral@, i as int, out),
    {
        let (glow, net, down) = self.radiation(i);
        let (skin, vented): (S, S) = self.skin_cell(lateral, i, glow, &net, down);
        let layers: usize = self.now.air.len();
        let mut air: Vec<S> = Vec::with_capacity(layers);
        let mut l: usize = 0;
        while l < layers
            invariant
                self.wf(),
                i < self.now.grid.n,
                l <= layers,
                layers == self.now.air@.len(),
                net@.len() == layers,
                self.is_radiation(i as int, glow, net@, down),
                air@.len() == l,
                forall|k: int| 0 <= k < l ==> self.is_air_cell(k, i as int, #[trigger] air@[k]),
            decreases layers - l,
        {
            air.push(self.air_cell(l, i, glow, &net, down));
            l = l + 1;
        }
        CellStep { skin, vented, air }
    }
}

/// Everything over one cell after a step.
pub struct CellStep<S> {
    pub skin: S,
    pub vented: S,
    /// Temperatures of the layers, the lowest first.
    pub air: Vec<S>,
}

impl<'a, P, L, A, S, V, C, F, G, H, I, J, X, Y, K, U, M, N, O, Q, R, T> Balance<
    'a,
    P,
    L,
    A,
    S,
    V,
    C,
    F,
    G,
    H,
    I,
    J,
    X,
    Y,
    K,
    U,
    M,
    N,
    O,
    Q,
    R,
    T,
> where
    P: Copy + Sync,
    L: Sync,
    A: Copy + Sync,
    S: Copy + Send + Sync,
    V: Copy + Sync,
    C: Copy + Sync,
    F: Fn(S, S, S) -> S + Sync,
    G: Fn(S, S, S, S) -> S + Sync,
    H: Fn(S, S) -> S + Sync,
    I: Fn(C, S) -> S + Sync,
    J: Fn(S, S) -> S + Sync,
    X: Fn(C, S, S) -> S + Sync,
    Y: Fn(S) -> bool + Sync,
    K: Fn(C, P) -> S + Sync,
    U: Fn(C, P) -> S + Sync,
    M: Fn(S, S, S, A, S, S) -> S + Sync,
    N: Fn(C, SkinFlux<S>) -> S + Sync,
    O: Fn(C, S, A, S, S) -> S + Sync,
    Q: Fn(V, V, S) -> S + Sync,
    R: Fn(C, AirFlux<S>) -> S + Sync,
    T: Fn(S, S) -> bool + Sync,
 {
    /// Advance the skin and the layers one step: one parallel pass for the lateral conductances,
    /// and one for the cells.
    pub fn step(&self) -> (out: Stepped<S>)
        requires
            self.wf(),
        ensures
            self.is_step(out.skin@, out.vented@, out.air@),
    {
        let n: usize = self.now.grid.n;
        let conduct_at = |i: usize| -> (r: S)
            requires
                self.wf(),
                i < self.now.grid.n,
            ensures
                call_ensures(self.by.conduct, (self.at, self.now.grid.centers@[i as int]), r),
            { (self.by.conduct)(self.at, self.now.grid.centers[i]) };
        let lateral: Vec<S> = par_map(n, conduct_at);
        assert(self.are_conductances(lateral@)) by {
            assert forall|i: int| 0 <= i < n implies call_ensures(
                self.by.conduct,
                (self.at, self.now.grid.centers@[i]),
                #[trigger] lateral@[i],
            ) by {
                assert(call_ensures(conduct_at, (i as usize,), lateral@[(i as usize) as int]));
            }
        }
        let cell_at = |i: usize| -> (r: CellStep<S>)
            requires
                self.wf(),
                i < self.now.grid.n,
                lateral@.len() == self.now.grid.n,
            ensures
                self.is_cell(lateral@, i as int, r),
            { self.cell(&lateral, i) };
        let cells: Vec<CellStep<S>> = par_map(n, cell_at);
        assert forall|i: int| 0 <= i < n implies self.is_cell(lateral@, i, #[trigger] cells@[i]) by {
            assert(call_ensures(cell_at, (i as usize,), cells@[(i as usize) as int]));
        }
        let mut skin: Vec<S> = Vec::with_capacity(n);
        let mut vented: Vec<S> = Vec::with_capacity(n);
        let mut i: usize = 0;
        while i < n
            invariant
                i <= n,
                n == self.now.grid.n,
                cells@.len() == n,
                forall|k: int| 0 <= k < n ==> self.is_cell(lateral@, k, #[trigger] cells@[k]),
                skin@.len() == i,
                vented@.len() == i,
                forall|k: int|
                    0 <= k < i ==> self.is_skin_cell(lateral@, k, (#[trigger] skin@[k], vented@[k])),
            decreases n - i,
        {
            assert(self.is_cell(lateral@, i as int, cells@[i as int]));
            skin.push(cells[i].skin);
            vented.push(cells[i].vented);
            i = i + 1;
        }
        let layers: usize = self.now.air.len();
        let mut air: Vec<Vec<S>> = Vec::with_capacity(layers);
        let mut l: usize = 0;
        while l < layers
            invariant
                self.wf(),
                n == self.now.grid.n,
                cells@.len() == n,
                forall|k: int| 0 <= k < n ==> self.is_cell(lateral@, k, #[trigger] cells@[k]),
                l <= layers,
                layers == self.now.air@.len(),
                air@.len() == l,
                forall|k: int| 0 <= k < l ==> #[trigger] self.is_air_layer(k, air@[k]@),
            decreases layers - l,
        {
            let ghost before = air@;
            let mut row: Vec<S> = Vec::with_capacity(n);
            let mut c: usize = 0;
            while c < n
                invariant
                    n == self.now.grid.n,
                    cells@.len() == n,
                    forall|k: int| 0 <= k < n ==> self.is_cell(lateral@, k, #[trigger] cells@[k]),
                    l < self.now.air@.len(),
                    c <= n,
                    row@.len() == c,
                    forall|k: int| 0 <= k < c ==> self.is_air_cell(l as int, k, #[trigger] row@[k]),
                decreases n - c,
            {
                assert(self.is_cell(lateral@, c as int, cells@[c as int]));
                row.push(cells[c].air[l]);
                c = c + 1;
            }
            assert(self.is_air_layer(l as int, row@));
            air.push(row);
            l = l + 1;
            assert forall|k: int| 0 <= k < l implies #[trigger] self.is_air_layer(k, air@[k]@) by {
                if k < l - 1 {
                    assert(self.is_air_layer(k, before[k]@));
                }
            }
        }
        Stepped { skin, vented, air }
    }

    /// `row` is layer `l` after the step.
    pub open spec fn is_air_layer(&self, l: int, row: Seq<S>) -> bool {
        &&& row.len() == self.now.grid.n
        &&& forall|i: int| 0 <= i < row.len() ==> self.is_air_cell(l, i, #[trigger] row[i])
    }

    /// `skin`, `vented` and `air` are the fields after the step.
    pub open spec fn is_step(&self, skin: Seq<S>, vented: Seq<S>, air: Seq<Vec<S>>) -> bool {
        &&& skin.len() == self.now.grid.n
        &&& vented.len() == self.now.grid.n
        &&& exists|lateral: Seq<S>|
            {
                &&& #[trigger] self.are_conductances(lateral)
                &&& forall|i: int|
                    0 <= i < skin.len() ==> self.is_skin_cell(
                        lateral,
                        i,
                        (#[trigger] skin[i], vented[i]),
                    )
            }
        &&& air.len() == self.now.air@.len()
        &&& forall|l: int| 0 <= l < air.len() ==> #[trigger] self.is_air_layer(l, air[l]@)
    }
}

impl<S, F, G> Beam<S, F, G> where F: Fn(S, S, S) -> S, G: Fn(S, S, S, S) -> S {
    /// The arithmetic is a function.
    pub open spec fn repeatable(&self) -> bool {
        is_function3(self.pass) && is_function4(self.keep)
    }

    proof fn lemma_up_agrees(&self, glow: S, b: Seq<S>, tau: Seq<S>, x: Seq<S>, y: Seq<S>, l: int)
        requires
            self.repeatable(),
            self.is_up(glow, b, tau, x),
            self.is_up(glow, b, tau, y),
            0 <= l <= b.len(),
        ensures
            x[l] == y[l],
        decreases l,
    {
        if l > 0 {
            self.lemma_up_agrees(glow, b, tau, x, y, l - 1);
            assert(call_ensures(self.pass, (tau[l - 1], x[l - 1], b[l - 1]), x[l - 1 + 1]));
            assert(call_ensures(self.pass, (tau[l - 1], y[l - 1], b[l - 1]), y[l - 1 + 1]));
        }
    }

    proof fn lemma_down_agrees(&self, b: Seq<S>, tau: Seq<S>, x: Seq<S>, y: Seq<S>, l: int)
        requires
            self.repeatable(),
            self.is_down(b, tau, x),
            self.is_down(b, tau, y),
            0 <= l <= b.len(),
        ensures
            x[l] == y[l],
        decreases b.len() - l,
    {
        if l < b.len() {
            self.lemma_down_agrees(b, tau, x, y, l + 1);
            assert(call_ensures(self.pass, (tau[l], x[l + 1], b[l]), x[l]));
            assert(call_ensures(self.pass, (tau[l], y[l + 1], b[l]), y[l]));
        }
    }

    /// A column has one longwave.
    proof fn lemma_longwave_is_one(
        &self,
        glow: S,
        b: Seq<S>,
        emis: Seq<S>,
        tau: Seq<S>,
        first: (Seq<S>, S),
        second: (Seq<S>, S),
    )
        requires
            self.repeatable(),
            self.is_longwave(glow, b, emis, tau, first.0, first.1),
            self.is_longwave(glow, b, emis, tau, second.0, second.1),
        ensures
            first == second,
    {
        let (up, down) = choose|up: Seq<S>, down: Seq<S>|
            {
                &&& #[trigger] self.is_up(glow, b, tau, up)
                &&& #[trigger] self.is_down(b, tau, down)
                &&& self.is_net(b, emis, up, down, first.0)
                &&& first.1 == down[0]
            };
        let (up2, down2) = choose|up: Seq<S>, down: Seq<S>|
            {
                &&& #[trigger] self.is_up(glow, b, tau, up)
                &&& #[trigger] self.is_down(b, tau, down)
                &&& self.is_net(b, emis, up, down, second.0)
                &&& second.1 == down[0]
            };
        assert forall|l: int| 0 <= l < b.len() implies first.0[l] == second.0[l] by {
            self.lemma_up_agrees(glow, b, tau, up, up2, l);
            self.lemma_down_agrees(b, tau, down, down2, l + 1);
            assert(call_ensures(self.keep, (emis[l], up[l], down[l + 1], b[l]), first.0[l]));
            assert(call_ensures(self.keep, (emis[l], up2[l], down2[l + 1], b[l]), second.0[l]));
        }
        assert(first.0 =~= second.0);
        self.lemma_down_agrees(b, tau, down, down2, 0);
    }
}

/// Two sets of fields hold the same values.
pub open spec fn same_layers<T>(x: Seq<Vec<T>>, y: Seq<Vec<T>>) -> bool {
    &&& x.len() == y.len()
    &&& forall|l: int| 0 <= l < x.len() ==> (#[trigger] x[l])@ == y[l]@
}

impl<'a, P, L, A, S, V> Snapshot<'a, P, L, A, S, V> {
    /// The two snapshots hold the same, but perhaps for the winds, the gradients and what else
    /// belongs to advection, and for the heat capacities of the layers.
    pub open spec fn same_but_air(&self, other: &Self) -> bool {
        &&& self.grid == other.grid
        &&& self.skin@ == other.skin@
        &&& same_layers(self.air@, other.air@)
        &&& self.emis@ == other.emis@
        &&& self.tau@ == other.tau@
        &&& self.kappa@ == other.kappa@
        &&& self.skin_capacity@ == other.skin_capacity@
    }

    /// The two snapshots hold the same.
    pub open spec fn same(&self, other: &Self) -> bool {
        &&& self.same_but_air(other)
        &&& self.air_capacity@ == other.air_capacity@
        &&& same_layers(self.winds@, other.winds@)
        &&& same_layers(self.grads@, other.grads@)
        &&& self.correction@ == other.correction@
        &&& self.advect == other.advect
    }
}

impl<S, F, G, H, I, J, X, Y, K, U, M, N, O, Q, R, T> Physics<
    S,
    F,
    G,
    H,
    I,
    J,
    X,
    Y,
    K,
    U,
    M,
    N,
    O,
    Q,
    R,
    T,
> {
    /// The formulas are functions.
    pub open spec fn repeatable<P, A, V, C>(&self) -> bool where
        F: Fn(S, S, S) -> S,
        G: Fn(S, S, S, S) -> S,
        H: Fn(S, S) -> S,
        I: Fn(C, S) -> S,
        J: Fn(S, S) -> S,
        X: Fn(C, S, S) -> S,
        Y: Fn(S) -> bool,
        K: Fn(C, P) -> S,
        U: Fn(C, P) -> S,
        M: Fn(S, S, S, A, S, S) -> S,
        N: Fn(C, SkinFlux<S>) -> S,
        O: Fn(C, S, A, S, S) -> S,
        Q: Fn(V, V, S) -> S,
        R: Fn(C, AirFlux<S>) -> S,
        T: Fn(S, S) -> bool,
     {
        &&& self.beam.repeatable()
        &&& is_function2(self.emit)
        &&& is_function2(self.glow)
        &&& is_function2(self.vent)
        &&& is_function3(self.excess)
        &&& is_function1(self.flows)
        &&& is_function2(self.light)
        &&& is_function2(self.conduct)
        &&& is_function6(self.mix_skin)
        &&& is_function2(self.warm_skin)
        &&& is_function5(self.mix_air)
        &&& is_function3(self.drift)
        &&& is_function2(self.warm_air)
        &&& is_function2(self.under)
    }
}

impl<'a, P, L, A, S, V, C, F, G, H, I, J, X, Y, K, U, M, N, O, Q, R, T> Balance<
    'a,
    P,
    L,
    A,
    S,
    V,
    C,
    F,
    G,
    H,
    I,
    J,
    X,
    Y,
    K,
    U,
    M,
    N,
    O,
    Q,
    R,
    T,
> where
    P: Copy + Sync,
    L: Sync,
    A: Copy + Sync,
    S: Copy + Send + Sync,
    V: Copy + Sync,
    C: Copy + Sync,
    F: Fn(S, S, S) -> S + Sync,
    G: Fn(S, S, S, S) -> S + Sync,
    H: Fn(S, S) -> S + Sync,
    I: Fn(C, S) -> S + Sync,
    J: Fn(S, S) -> S + Sync,
    X: Fn(C, S, S) -> S + Sync,
    Y: Fn(S) -> bool + Sync,
    K: Fn(C, P) -> S + Sync,
    U: Fn(C, P) -> S + Sync,
    M: Fn(S, S, S, A, S, S) -> S + Sync,
    N: Fn(C, SkinFlux<S>) -> S + Sync,
    O: Fn(C, S, A, S, S) -> S + Sync,
    Q: Fn(V, V, S) -> S + Sync,
    R: Fn(C, AirFlux<S>) -> S + Sync,
    T: Fn(S, S) -> bool + Sync,
 {
    /// The two steps go by the same formulas at the same moment, and read the same, but perhaps for
    /// what belongs to advection and for the heat capacities of the layers.
    pub open spec fn alike_but_air(&self, other: &Self) -> bool {
        self.by == other.by && self.at == other.at && self.now.same_but_air(&other.now)
    }

    /// No temperature falls under the floor: what is at the floor is the floor itself.
    pub proof fn law_step_keeps_the_floor(&self, skin: Seq<S>, vented: Seq<S>, air: Seq<Vec<S>>)
        requires
            self.is_step(skin, vented, air),
        ensures
            forall|i: int|
                0 <= i < skin.len() ==> #[trigger] skin[i] == self.by.floor || call_ensures(
                    self.by.under,
                    (skin[i], self.by.floor),
                    false,
                ),
            forall|l: int, i: int|
                0 <= l < air.len() && 0 <= i < air[l]@.len() ==> #[trigger] air[l]@[i] == self.by.floor
                    || call_ensures(self.by.under, (air[l]@[i], self.by.floor), false),
    {
        let lateral = choose|lateral: Seq<S>|
            {
                &&& #[trigger] self.are_conductances(lateral)
                &&& forall|i: int|
                    0 <= i < skin.len() ==> self.is_skin_cell(
                        lateral,
                        i,
                        (#[trigger] skin[i], vented[i]),
                    )
            };
        assert forall|i: int| 0 <= i < skin.len() implies #[trigger] skin[i] == self.by.floor || call_ensures(
            self.by.under,
            (skin[i], self.by.floor),
            false,
        ) by {
            assert(self.is_skin_cell(lateral, i, (skin[i], vented[i])));
        }
        assert forall|l: int, i: int| 0 <= l < air.len() && 0 <= i < air[l]@.len() implies #[trigger] air[l]@[i]
            == self.by.floor || call_ensures(self.by.under, (air[l]@[i], self.by.floor), false) by {
            assert(self.is_air_layer(l, air[l]@));
            assert(self.is_air_cell(l, i, air[l]@[i]));
        }
    }

    /// Convection sets in beyond the lapse alone: where no excess vents nothing, a link that is not too
    /// warm below passes nothing.
    pub proof fn law_no_flux_without_excess(&self, kappa: S, lower: S, upper: S, flux: S)
        requires
            self.is_link_flux(kappa, lower, upper, flux),
            forall|h: S| #[trigger]
                call_ensures(self.by.vent, (kappa, self.by.beam.zero), h) ==> h == self.by.beam.zero,
            forall|x: S| #[trigger]
                call_ensures(self.by.excess, (self.at, lower, upper), x) ==> !call_ensures(
                    self.by.flows,
                    (x,),
                    true,
                ),
        ensures
            flux == self.by.beam.zero,
    {
    }

    /// What a step says it vented off the skin of a cell went through the lowest link.
    proof fn lemma_vented_is_the_lowest_link(
        &self,
        skin: Seq<S>,
        vented: Seq<S>,
        air: Seq<Vec<S>>,
        i: int,
    )
        requires
            self.is_step(skin, vented, air),
            0 <= i < vented.len(),
        ensures
            self.is_vent(0, i, vented[i]),
    {
        let lateral = choose|lateral: Seq<S>|
            {
                &&& #[trigger] self.are_conductances(lateral)
                &&& forall|k: int|
                    0 <= k < skin.len() ==> self.is_skin_cell(
                        lateral,
                        k,
                        (#[trigger] skin[k], vented[k]),
                    )
            };
        assert(self.is_skin_cell(lateral, i, (skin[i], vented[i])));
    }

    /// A step vents nothing off a skin that is not too warm for the air over it, where no excess vents
    /// nothing.
    pub proof fn law_step_vents_excess_alone(
        &self,
        skin: Seq<S>,
        vented: Seq<S>,
        air: Seq<Vec<S>>,
        i: int,
    )
        requires
            self.is_step(skin, vented, air),
            self.now.air@.len() > 0,
            0 <= i < vented.len(),
            forall|h: S| #[trigger]
                call_ensures(self.by.vent, (self.now.kappa@[0], self.by.beam.zero), h) ==> h
                    == self.by.beam.zero,
            forall|x: S| #[trigger]
                call_ensures(self.by.excess, (self.at, self.now.skin@[i], self.now.air@[0]@[i]), x)
                    ==> !call_ensures(self.by.flows, (x,), true),
        ensures
            vented[i] == self.by.beam.zero,
    {
        self.lemma_vented_is_the_lowest_link(skin, vented, air, i);
        self.law_no_flux_without_excess(
            self.now.kappa@[0],
            self.now.skin@[i],
            self.now.air@[0]@[i],
            vented[i],
        );
    }

    /// Convection only cools the skin: where an excess that flows is not negative, and neither is what
    /// an exchange that is not negative vents of one, no flux off the skin is negative.
    pub proof fn law_step_vents_upward(
        &self,
        negative: spec_fn(S) -> bool,
        skin: Seq<S>,
        vented: Seq<S>,
        air: Seq<Vec<S>>,
        i: int,
    )
        requires
            self.is_step(skin, vented, air),
            self.now.air@.len() > 0,
            0 <= i < vented.len(),
            !negative(self.by.beam.zero),
            !negative(self.now.kappa@[0]),
            forall|x: S| #[trigger] call_ensures(self.by.flows, (x,), true) ==> !negative(x),
            forall|k: S, e: S, h: S|
                !negative(k) && !negative(e) && #[trigger] call_ensures(self.by.vent, (k, e), h)
                    ==> !negative(h),
        ensures
            !negative(vented[i]),
    {
        self.lemma_vented_is_the_lowest_link(skin, vented, air, i);
    }

    proof fn lemma_link_flux_is_one(&self, kappa: S, lower: S, upper: S, x: S, y: S)
        requires
            self.by.repeatable::<P, A, V, C>(),
            self.is_link_flux(kappa, lower, upper, x),
            self.is_link_flux(kappa, lower, upper, y),
        ensures
            x == y,
    {
        let (a, e) = choose|a: S, e: S|
            {
                &&& call_ensures(self.by.excess, (self.at, lower, upper), a)
                &&& #[trigger] self.is_surplus(a, e)
                &&& call_ensures(self.by.vent, (kappa, e), x)
            };
        let (b, f) = choose|b: S, f: S|
            {
                &&& call_ensures(self.by.excess, (self.at, lower, upper), b)
                &&& #[trigger] self.is_surplus(b, f)
                &&& call_ensures(self.by.vent, (kappa, f), y)
            };
        assert(a == b);
        assert(e == f);
    }

    /// A convective link hands on what it takes: where the formulas are functions, what the body below
    /// a link loses is what the layer above it gains.
    pub proof fn law_links_hand_on_what_they_take(&self, other: &Self, l: int, i: int, lost: S, gained: S)
        requires
            self.by.repeatable::<P, A, V, C>(),
            self.now.wf(),
            self.alike_but_air(other),
            0 <= l,
            0 <= i < self.now.grid.n,
            self.is_vent(l, i, lost),
            other.is_vent(l, i, gained),
        ensures
            lost == gained,
    {
        if l < self.now.air@.len() {
            assert(self.now.air@[l]@ == other.now.air@[l]@);
            if l == 0 {
                assert(self.now.air@[0]@ == other.now.air@[0]@);
                self.lemma_link_flux_is_one(
                    self.now.kappa@[0],
                    self.now.skin@[i],
                    self.now.air@[0]@[i],
                    lost,
                    gained,
                );
            } else {
                assert(self.now.air@[l - 1]@ == other.now.air@[l - 1]@);
                self.lemma_link_flux_is_one(
                    self.now.kappa@[l],
                    self.now.air@[l - 1]@[i],
                    self.now.air@[l]@[i],
                    lost,
                    gained,
                );
            }
        }
    }

    proof fn lemma_radiation_is_one(
        &self,
        other: &Self,
        i: int,
        first: (S, Seq<S>, S),
        second: (S, Seq<S>, S),
    )
        requires
            self.by.repeatable::<P, A, V, C>(),
            self.now.wf(),
            self.alike_but_air(other),
            0 <= i < self.now.grid.n,
            self.is_radiation(i, first.0, first.1, first.2),
            other.is_radiation(i, second.0, second.1, second.2),
        ensures
            first == second,
    {
        let column = self.now.column(i);
        assert(column =~= other.now.column(i)) by {
            assert forall|l: int| 0 <= l < column.len() implies column[l] == other.now.column(i)[l] by {
                assert(self.now.air@[l]@ == other.now.air@[l]@);
            }
        }
        assert(first.0 == second.0);
        let emis = self.now.emis@;
        let tau = self.now.tau@;
        let b = choose|b: Seq<S>| #[trigger]
            self.are_emissions(column, b) && self.by.beam.is_longwave(first.0, b, emis, tau, first.1, first.2);
        let c = choose|b: Seq<S>| #[trigger]
            other.are_emissions(column, b) && self.by.beam.is_longwave(
                first.0,
                b,
                emis,
                tau,
                second.1,
                second.2,
            );
        assert forall|l: int| 0 <= l < b.len() implies b[l] == c[l] by {
            assert(call_ensures(self.by.emit, (emis[l], column[l]), b[l]));
            assert(call_ensures(self.by.emit, (emis[l], column[l]), c[l]));
        }
        assert(b =~= c);
        self.by.beam.lemma_longwave_is_one(
            first.0,
            b,
            emis,
            tau,
            (first.1, first.2),
            (second.1, second.2),
        );
    }

    proof fn lemma_skin_sums_agree(
        &self,
        other: &Self,
        lateral: Seq<S>,
        i: int,
        n: int,
        x: Seq<S>,
        y: Seq<S>,
        k: int,
    )
        requires
            self.by.repeatable::<P, A, V, C>(),
            self.alike_but_air(other),
            self.are_skin_sums(lateral, i, n, x),
            other.are_skin_sums(lateral, i, n, y),
            0 <= k <= n,
        ensures
            x[k] == y[k],
        decreases k,
    {
        if k > 0 {
            self.lemma_skin_sums_agree(other, lateral, i, n, x, y, k - 1);
            let nbs = self.now.grid.neighbors_of(i);
            let j = nbs[k - 1] as int;
            let w = self.now.grid.weights_of(i)[k - 1];
            let t = self.now.skin@[j];
            let u = self.now.skin@[i];
            assert(call_ensures(
                self.by.mix_skin,
                (x[k - 1], lateral[i], lateral[j], w, t, u),
                x[k - 1 + 1],
            ));
            assert(call_ensures(
                self.by.mix_skin,
                (y[k - 1], lateral[i], lateral[j], w, t, u),
                y[k - 1 + 1],
            ));
        }
    }

    proof fn lemma_held_is_one(&self, warmed: S, x: S, y: S)
        requires
            self.by.repeatable::<P, A, V, C>(),
            self.is_held(warmed, x),
            self.is_held(warmed, y),
        ensures
            x == y,
    {
    }

    proof fn lemma_skin_cell_is_one(&self, other: &Self, lateral: Seq<S>, i: int, x: (S, S), y: (S, S))
        requires
            self.by.repeatable::<P, A, V, C>(),
            self.now.wf(),
            self.alike_but_air(other),
            0 <= i < self.now.grid.n,
            self.is_skin_cell(lateral, i, x),
            other.is_skin_cell(lateral, i, y),
        ensures
            x == y,
    {
        let (f, net, warmed) = choose|f: SkinFlux<S>, net: Seq<S>, warmed: S|
            {
                &&& f.temp == self.now.skin@[i]
                &&& f.capacity == self.now.skin_capacity@[i]
                &&& f.vent == x.1
                &&& call_ensures(self.by.light, (self.at, self.now.grid.centers@[i]), f.light)
                &&& #[trigger] self.is_radiation(i, f.glow, net, f.down)
                &&& self.is_vent(0, i, f.vent)
                &&& self.is_skin_mix(lateral, i, f.mixed)
                &&& #[trigger] call_ensures(self.by.warm_skin, (self.at, f), warmed)
                &&& self.is_held(warmed, x.0)
            };
        let (g, net2, warmed2) = choose|f: SkinFlux<S>, net: Seq<S>, warmed: S|
            {
                &&& f.temp == other.now.skin@[i]
                &&& f.capacity == other.now.skin_capacity@[i]
                &&& f.vent == y.1
                &&& call_ensures(other.by.light, (other.at, other.now.grid.centers@[i]), f.light)
                &&& #[trigger] other.is_radiation(i, f.glow, net, f.down)
                &&& other.is_vent(0, i, f.vent)
                &&& other.is_skin_mix(lateral, i, f.mixed)
                &&& #[trigger] call_ensures(other.by.warm_skin, (other.at, f), warmed)
                &&& other.is_held(warmed, y.0)
            };
        self.lemma_radiation_is_one(other, i, (f.glow, net, f.down), (g.glow, net2, g.down));
        self.law_links_hand_on_what_they_take(other, 0, i, f.vent, g.vent);
        let n = self.now.grid.neighbors_of(i).len() as int;
        let p = choose|sums: Seq<S>| #[trigger]
            self.are_skin_sums(lateral, i, n, sums) && sums.last() == f.mixed;
        let q = choose|sums: Seq<S>| #[trigger]
            other.are_skin_sums(lateral, i, n, sums) && sums.last() == g.mixed;
        self.lemma_skin_sums_agree(other, lateral, i, n, p, q, n);
        assert(f.light == g.light);
        assert(f == g);
        assert(warmed == warmed2);
        self.lemma_held_is_one(warmed, x.0, y.0);
    }

    /// What may become of a skin does not depend on the winds: whatever the formulas, the skin and the
    /// flux off it that one step leaves, beside the layers that another leaves, are what that other
    /// step may leave, if the two differ only in the winds, the gradients, the corrections, whether
    /// layers are carried at all, and the heat capacities of the layers.
    pub proof fn law_winds_leave_the_skin_alone(
        &self,
        other: &Self,
        first: (Seq<S>, Seq<S>, Seq<Vec<S>>),
        second: (Seq<S>, Seq<S>, Seq<Vec<S>>),
    )
        requires
            self.now.wf(),
            self.alike_but_air(other),
            self.is_step(first.0, first.1, first.2),
            other.is_step(second.0, second.1, second.2),
        ensures
            other.is_step(first.0, first.1, second.2),
    {
        let lateral = choose|lateral: Seq<S>|
            {
                &&& #[trigger] self.are_conductances(lateral)
                &&& forall|i: int|
                    0 <= i < first.0.len() ==> self.is_skin_cell(
                        lateral,
                        i,
                        (#[trigger] first.0[i], first.1[i]),
                    )
            };
        assert(other.are_conductances(lateral));
        assert forall|i: int| 0 <= i < first.0.len() implies other.is_skin_cell(
            lateral,
            i,
            (#[trigger] first.0[i], first.1[i]),
        ) by {
            assert(self.is_skin_cell(lateral, i, (first.0[i], first.1[i])));
            self.lemma_skin_cell_is_shared(other, lateral, i, (first.0[i], first.1[i]));
        }
    }

    proof fn lemma_skin_cell_is_shared(&self, other: &Self, lateral: Seq<S>, i: int, out: (S, S))
        requires
            self.now.wf(),
            self.alike_but_air(other),
            0 <= i < self.now.grid.n,
            self.is_skin_cell(lateral, i, out),
        ensures
            other.is_skin_cell(lateral, i, out),
    {
        let (f, net, warmed) = choose|f: SkinFlux<S>, net: Seq<S>, warmed: S|
            {
                &&& f.temp == self.now.skin@[i]
                &&& f.capacity == self.now.skin_capacity@[i]
                &&& f.vent == out.1
                &&& call_ensures(self.by.light, (self.at, self.now.grid.centers@[i]), f.light)
                &&& #[trigger] self.is_radiation(i, f.glow, net, f.down)
                &&& self.is_vent(0, i, f.vent)
                &&& self.is_skin_mix(lateral, i, f.mixed)
                &&& #[trigger] call_ensures(self.by.warm_skin, (self.at, f), warmed)
                &&& self.is_held(warmed, out.0)
            };
        let column = self.now.column(i);
        assert(column =~= other.now.column(i)) by {
            assert forall|l: int| 0 <= l < column.len() implies column[l] == other.now.column(i)[l] by {
                assert(self.now.air@[l]@ == other.now.air@[l]@);
            }
        }
        let b = choose|b: Seq<S>| #[trigger]
            self.are_emissions(column, b) && self.by.beam.is_longwave(
                f.glow,
                b,
                self.now.emis@,
                self.now.tau@,
                net,
                f.down,
            );
        assert(other.are_emissions(other.now.column(i), b));
        assert(other.is_radiation(i, f.glow, net, f.down));
        assert(other.is_vent(0, i, f.vent)) by {
            if self.now.air@.len() > 0 {
                assert(self.now.air@[0]@ == other.now.air@[0]@);
                let (x, e) = choose|x: S, e: S|
                    {
                        &&& call_ensures(
                            self.by.excess,
                            (self.at, self.now.skin@[i], self.now.air@[0]@[i]),
                            x,
                        )
                        &&& #[trigger] self.is_surplus(x, e)
                        &&& call_ensures(self.by.vent, (self.now.kappa@[0], e), f.vent)
                    };
                assert(other.is_surplus(x, e));
            }
        }
        let n = self.now.grid.neighbors_of(i).len() as int;
        let sums = choose|sums: Seq<S>| #[trigger]
            self.are_skin_sums(lateral, i, n, sums) && sums.last() == f.mixed;
        assert(other.are_skin_sums(lateral, i, n, sums));
        assert(other.is_skin_mix(lateral, i, f.mixed));
        assert(call_ensures(other.by.warm_skin, (other.at, f), warmed));
    }

    /// The skin is not advected: where the formulas are functions, two steps that differ only in the
    /// winds, the gradients, the corrections, whether layers are carried at all, and the heat
    /// capacities of the layers leave the same skin and vent the same off it.
    pub proof fn law_skin_is_not_advected(
        &self,
        other: &Self,
        first: (Seq<S>, Seq<S>, Seq<Vec<S>>),
        second: (Seq<S>, Seq<S>, Seq<Vec<S>>),
    )
        requires
            self.by.repeatable::<P, A, V, C>(),
            self.now.wf(),
            self.alike_but_air(other),
            self.is_step(first.0, first.1, first.2),
            other.is_step(second.0, second.1, second.2),
        ensures
            first.0 == second.0,
            first.1 == second.1,
    {
        let x = choose|lateral: Seq<S>|
            {
                &&& #[trigger] self.are_conductances(lateral)
                &&& forall|i: int|
                    0 <= i < first.0.len() ==> self.is_skin_cell(
                        lateral,
                        i,
                        (#[trigger] first.0[i], first.1[i]),
                    )
            };
        let y = choose|lateral: Seq<S>|
            {
                &&& #[trigger] other.are_conductances(lateral)
                &&& forall|i: int|
                    0 <= i < second.0.len() ==> other.is_skin_cell(
                        lateral,
                        i,
                        (#[trigger] second.0[i], second.1[i]),
                    )
            };
        assert forall|i: int| 0 <= i < x.len() implies x[i] == y[i] by {
            assert(call_ensures(self.by.conduct, (self.at, self.now.grid.centers@[i]), x[i]));
            assert(call_ensures(self.by.conduct, (self.at, self.now.grid.centers@[i]), y[i]));
        }
        assert(x =~= y);
        assert forall|i: int| 0 <= i < first.0.len() implies first.0[i] == second.0[i] && first.1[i]
            == second.1[i] by {
            assert(self.is_skin_cell(x, i, (first.0[i], first.1[i])));
            assert(other.is_skin_cell(x, i, (second.0[i], second.1[i])));
            self.lemma_skin_cell_is_one(
                other,
                x,
                i,
                (first.0[i], first.1[i]),
                (second.0[i], second.1[i]),
            );
        }
        assert(first.0 =~= second.0);
        assert(first.1 =~= second.1);
    }

    proof fn lemma_air_sums_agree(
        &self,
        other: &Self,
        l: int,
        i: int,
        n: int,
        x: Seq<S>,
        y: Seq<S>,
        k: int,
    )
        requires
            self.by.repeatable::<P, A, V, C>(),
            self.alike_but_air(other),
            0 <= l < self.now.air@.len(),
            self.are_air_sums(l, i, n, x),
            other.are_air_sums(l, i, n, y),
            0 <= k <= n,
        ensures
            x[k] == y[k],
        decreases k,
    {
        if k > 0 {
            self.lemma_air_sums_agree(other, l, i, n, x, y, k - 1);
            let nbs = self.now.grid.neighbors_of(i);
            let j = nbs[k - 1] as int;
            let w = self.now.grid.weights_of(i)[k - 1];
            assert(self.now.air@[l]@ == other.now.air@[l]@);
            let t = self.now.air@[l]@[j];
            let u = self.now.air@[l]@[i];
            assert(call_ensures(self.by.mix_air, (self.at, x[k - 1], w, t, u), x[k - 1 + 1]));
            assert(call_ensures(self.by.mix_air, (self.at, y[k - 1], w, t, u), y[k - 1 + 1]));
        }
    }

    proof fn lemma_air_cell_is_one(&self, other: &Self, l: int, i: int, x: S, y: S)
        requires
            self.by.repeatable::<P, A, V, C>(),
            self.now.wf(),
            self.alike_but_air(other),
            self.now.same(&other.now),
            0 <= l < self.now.air@.len(),
            0 <= i < self.now.grid.n,
            self.is_air_cell(l, i, x),
            other.is_air_cell(l, i, y),
        ensures
            x == y,
    {
        let (f, glow, net, down, warmed) = choose|
            f: AirFlux<S>,
            glow: S,
            net: Seq<S>,
            down: S,
            warmed: S,
        |
            {
                &&& f.temp == self.now.air@[l]@[i]
                &&& f.capacity == self.now.air_capacity@[l]
                &&& #[trigger] self.is_radiation(i, glow, net, down)
                &&& f.net == net[l]
                &&& self.is_vent(l, i, f.below)
                &&& self.is_vent(l + 1, i, f.above)
                &&& self.is_air_mix(l, i, f.mixed)
                &&& self.is_drift(l, i, f.drift)
                &&& #[trigger] call_ensures(self.by.warm_air, (self.at, f), warmed)
                &&& self.is_held(warmed, x)
            };
        let (g, glow2, net2, down2, warmed2) = choose|
            f: AirFlux<S>,
            glow: S,
            net: Seq<S>,
            down: S,
            warmed: S,
        |
            {
                &&& f.temp == other.now.air@[l]@[i]
                &&& f.capacity == other.now.air_capacity@[l]
                &&& #[trigger] other.is_radiation(i, glow, net, down)
                &&& f.net == net[l]
                &&& other.is_vent(l, i, f.below)
                &&& other.is_vent(l + 1, i, f.above)
                &&& other.is_air_mix(l, i, f.mixed)
                &&& other.is_drift(l, i, f.drift)
                &&& #[trigger] call_ensures(other.by.warm_air, (other.at, f), warmed)
                &&& other.is_held(warmed, y)
            };
        assert(self.now.air@[l]@ == other.now.air@[l]@);
        assert(self.now.winds@[l]@ == other.now.winds@[l]@);
        assert(self.now.grads@[l]@ == other.now.grads@[l]@);
        self.lemma_radiation_is_one(other, i, (glow, net, down), (glow2, net2, down2));
        self.law_links_hand_on_what_they_take(other, l, i, f.below, g.below);
        self.law_links_hand_on_what_they_take(other, l + 1, i, f.above, g.above);
        let n = self.now.grid.neighbors_of(i).len() as int;
        let p = choose|sums: Seq<S>| #[trigger]
            self.are_air_sums(l, i, n, sums) && sums.last() == f.mixed;
        let q = choose|sums: Seq<S>| #[trigger]
            other.are_air_sums(l, i, n, sums) && sums.last() == g.mixed;
        self.lemma_air_sums_agree(other, l, i, n, p, q, n);
        assert(f.drift == g.drift);
        assert(f == g);
        assert(warmed == warmed2);
        self.lemma_held_is_one(warmed, x, y);
    }

    /// A step has one result: where the formulas are functions, two steps that read the same leave the
    /// same.
    pub proof fn law_step_is_one(
        &self,
        other: &Self,
        first: (Seq<S>, Seq<S>, Seq<Vec<S>>),
        second: (Seq<S>, Seq<S>, Seq<Vec<S>>),
    )
        requires
            self.by.repeatable::<P, A, V, C>(),
            self.now.wf(),
            self.alike_but_air(other),
            self.now.same(&other.now),
            self.is_step(first.0, first.1, first.2),
            other.is_step(second.0, second.1, second.2),
        ensures
            first.0 == second.0,
            first.1 == second.1,
            same_layers(first.2, second.2),
    {
        self.law_skin_is_not_advected(other, first, second);
        assert forall|l: int| 0 <= l < first.2.len() implies (#[trigger] first.2[l])@ == second.2[l]@ by {
            assert(self.is_air_layer(l, first.2[l]@));
            assert(other.is_air_layer(l, second.2[l]@));
            let x = first.2[l]@;
            let y = second.2[l]@;
            assert forall|i: int| 0 <= i < x.len() implies x[i] == y[i] by {
                assert(self.is_air_cell(l, i, x[i]));
                assert(other.is_air_cell(l, i, y[i]));
                self.lemma_air_cell_is_one(other, l, i, x[i], y[i]);
            }
            assert(x =~= y);
        }
    }
}

} // verus!
