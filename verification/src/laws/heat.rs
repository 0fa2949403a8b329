//! Heat: what warms and cools each part of a column in one step, and how strongly its convective links
//! act.

use crate::sim::temperature::{AirFlux, Balance, SkinFlux};
use vstd::prelude::*;

verus! {

impl<'a, P, L, A, S, V, C, F, G, H, I, J, X, Y, K, U, M, N, O, Q, R, T> Balance<
    'a,
    P,
    L,
    A,
    S,
    V,
    C,
    F,
    G,
    H,
    I,
    J,
    X,
    Y,
    K,
    U,
    M,
    N,
    O,
    Q,
    R,
    T,
> where
    P: Copy + Sync,
    L: Sync,
    A: Copy + Sync,
    S: Copy + Send + Sync,
    V: Copy + Sync,
    C: Copy + Sync,
    F: Fn(S, S, S) -> S + Sync,
    G: Fn(S, S, S, S) -> S + Sync,
    H: Fn(S, S) -> S + Sync,
    I: Fn(C, S) -> S + Sync,
    J: Fn(S, S) -> S + Sync,
    X: Fn(C, S, S) -> S + Sync,
    Y: Fn(S) -> bool + Sync,
    K: Fn(C, P) -> S + Sync,
    U: Fn(C, P) -> S + Sync,
    M: Fn(S, S, S, A, S, S) -> S + Sync,
    N: Fn(C, SkinFlux<S>) -> S + Sync,
    O: Fn(C, S, A, S, S) -> S + Sync,
    Q: Fn(V, V, S) -> S + Sync,
    R: Fn(C, AirFlux<S>) -> S + Sync,
    T: Fn(S, S) -> bool + Sync,
 {
    /// Temperature of what lies under link `l` at cell `i`: the skin under the lowest, else a layer.
    pub open spec fn under_link(&self, l: int, i: int) -> S {
        if l == 0 {
            self.now.skin@[i]
        } else {
            self.now.air@[l - 1]@[i]
        }
    }

    /// The excess over link `l` at cell `i` is `e`, whenever it is worked out, and it flows.
    pub open spec fn exceeds_by(&self, l: int, i: int, e: S) -> bool {
        &&& forall|x: S| #[trigger]
            call_ensures(self.by.excess, (self.at, self.under_link(l, i), self.now.air@[l]@[i]), x) ==> x
                == e
        &&& !call_ensures(self.by.flows, (e,), false)
    }

    /// Higher links are weaker where their exchange is: where the flux grows strictly with the exchange,
    /// of two links with the same excess the one with the smaller exchange carries strictly less.
    pub proof fn law_weaker_links_carry_less(
        &self,
        rank: spec_fn(S) -> int,
        weak: (int, int, S),
        strong: (int, int, S),
        e: S,
    )
        requires
            0 <= weak.0 < self.now.air@.len(),
            0 <= strong.0 < self.now.air@.len(),
            self.is_vent(weak.0, weak.1, weak.2),
            self.is_vent(strong.0, strong.1, strong.2),
            self.exceeds_by(weak.0, weak.1, e),
            self.exceeds_by(strong.0, strong.1, e),
            rank(self.now.kappa@[weak.0]) < rank(self.now.kappa@[strong.0]),
            forall|k: S, j: S, x: S, y: S|
                rank(k) < rank(j) && #[trigger] call_ensures(self.by.vent, (k, e), x)
                    && #[trigger] call_ensures(self.by.vent, (j, e), y) ==> rank(x) < rank(y),
        ensures
            rank(weak.2) < rank(strong.2),
    {
        self.lemma_vent(weak.0, weak.1, weak.2);
        self.lemma_vent(strong.0, strong.1, strong.2);
    }

    /// In a column whose links weaken with height, no two links with the same excess carry the same.
    pub proof fn law_links_of_a_decaying_chain_differ(
        &self,
        rank: spec_fn(S) -> int,
        low: (int, S),
        high: (int, S),
        i: int,
        e: S,
    )
        requires
            0 <= low.0 < high.0 < self.now.air@.len(),
            forall|l: int, m: int|
                0 <= l < m < self.now.air@.len() ==> rank(#[trigger] self.now.kappa@[m]) < rank(
                    #[trigger] self.now.kappa@[l],
                ),
            self.is_vent(low.0, i, low.1),
            self.is_vent(high.0, i, high.1),
            self.exceeds_by(low.0, i, e),
            self.exceeds_by(high.0, i, e),
            forall|k: S, j: S, x: S, y: S|
                rank(k) < rank(j) && #[trigger] call_ensures(self.by.vent, (k, e), x)
                    && #[trigger] call_ensures(self.by.vent, (j, e), y) ==> rank(x) < rank(y),
        ensures
            rank(high.1) < rank(low.1),
    {
        self.law_weaker_links_carry_less(rank, (high.0, i, high.1), (low.0, i, low.1), e);
    }

    /// Nothing leaves through the top of the column by convection.
    pub proof fn law_nothing_leaves_the_top(&self, i: int, flux: S)
        requires
            self.is_vent(self.now.air@.len() as int, i, flux),
        ensures
            flux == self.by.beam.zero,
    {
    }

    proof fn lemma_vent(&self, l: int, i: int, flux: S)
        requires
            0 <= l < self.now.air@.len(),
            self.is_vent(l, i, flux),
        ensures
            self.is_carried(l, i, flux),
    {
        let (x, e) = choose|x: S, e: S|
            {
                &&& call_ensures(self.by.excess, (self.at, self.under_link(l, i), self.now.air@[l]@[i]), x)
                &&& #[trigger] self.is_surplus(x, e)
                &&& call_ensures(self.by.vent, (self.now.kappa@[l], e), flux)
            };
        assert(call_ensures(self.by.vent, (self.now.kappa@[l], e), flux));
    }

    /// Link `l` at cell `i` carries `flux`: what its own exchange makes of its excess, or of none.
    pub open spec fn is_carried(&self, l: int, i: int, flux: S) -> bool {
        exists|x: S, e: S|
            {
                &&& #[trigger] call_ensures(
                    self.by.excess,
                    (self.at, self.under_link(l, i), self.now.air@[l]@[i]),
                    x,
                )
                &&& e == x && call_ensures(self.by.flows, (x,), true) || e == self.by.beam.zero
                    && call_ensures(self.by.flows, (x,), false)
                &&& #[trigger] call_ensures(self.by.vent, (self.now.kappa@[l], e), flux)
            }
    }

    /// `b`, `up` and `down` are the beams over cell `i`: what each layer emits, what goes up from the
    /// skin through each interface, and what comes down, nothing from space.
    pub open spec fn are_beams(&self, i: int, b: Seq<S>, up: Seq<S>, down: Seq<S>) -> bool {
        let n = self.now.air@.len();
        &&& b.len() == n
        &&& up.len() == n + 1
        &&& down.len() == n + 1
        &&& call_ensures(self.by.glow, (self.at, self.now.skin@[i]), up[0])
        &&& down[n as int] == self.by.beam.zero
        &&& forall|l: int|
            0 <= l < n ==> call_ensures(
                self.by.emit,
                (self.now.emis@[l], self.now.air@[l]@[i]),
                #[trigger] b[l],
            )
        &&& forall|l: int|
            0 <= l < n ==> call_ensures(
                self.by.beam.pass,
                (self.now.tau@[l], up[l], #[trigger] b[l]),
                up[l + 1],
            )
        &&& forall|l: int|
            0 <= l < n ==> call_ensures(
                self.by.beam.pass,
                (self.now.tau@[l], down[l + 1], #[trigger] b[l]),
                down[l],
            )
    }

    /// `after` is `warmed`, unless that is under the floor: then it is the floor.
    pub open spec fn is_floored(&self, warmed: S, after: S) -> bool {
        ||| call_ensures(self.by.under, (warmed, self.by.floor), true) && after == self.by.floor
        ||| call_ensures(self.by.under, (warmed, self.by.floor), false) && after == warmed
    }

    /// `after` is the temperature of layer `l` over cell `i` once it has taken in `f`.
    pub open spec fn takes_in_air(&self, l: int, i: int, f: AirFlux<S>, after: S) -> bool {
        &&& f.temp == self.now.air@[l]@[i]
        &&& f.capacity == self.now.air_capacity@[l]
        &&& self.is_carried(l, i, f.below)
        &&& l + 1 < self.now.air@.len() ==> self.is_carried(l + 1, i, f.above)
        &&& l + 1 == self.now.air@.len() ==> f.above == self.by.beam.zero
        &&& exists|b: Seq<S>, up: Seq<S>, down: Seq<S>| #[trigger]
            self.are_beams(i, b, up, down) && call_ensures(
                self.by.beam.keep,
                (self.now.emis@[l], up[l], down[l + 1], b[l]),
                f.net,
            )
        &&& self.now.advect ==> call_ensures(
            self.by.drift,
            (self.now.winds@[l]@[i], self.now.grads@[l]@[i], self.now.correction@[l]),
            f.drift,
        )
        &&& !self.now.advect ==> f.drift == self.by.beam.zero
        &&& exists|sums: Seq<S>| #[trigger]
            self.mixes_air(l, i, sums) && sums.last() == f.mixed
        &&& exists|warmed: S| #[trigger]
            call_ensures(self.by.warm_air, (self.at, f), warmed) && self.is_floored(warmed, after)
    }

    /// `sums` mix layer `l` over cell `i` with that over each neighbor in turn.
    pub open spec fn mixes_air(&self, l: int, i: int, sums: Seq<S>) -> bool {
        let nbs = self.now.grid.neighbors_of(i);
        &&& sums.len() == nbs.len() + 1
        &&& sums[0] == self.by.beam.zero
        &&& forall|k: int|
            0 <= k < nbs.len() ==> call_ensures(
                self.by.mix_air,
                (
                    self.at,
                    sums[k],
                    self.now.grid.weights_of(i)[k],
                    self.now.air@[l]@[#[trigger] nbs[k] as int],
                    self.now.air@[l]@[i],
                ),
                sums[k + 1],
            )
    }

    /// `sums` mix the skin of cell `i` with that of each neighbor in turn, by the conductances of both.
    pub open spec fn mixes_skin(&self, lateral: Seq<S>, i: int, sums: Seq<S>) -> bool {
        let nbs = self.now.grid.neighbors_of(i);
        &&& sums.len() == nbs.len() + 1
        &&& sums[0] == self.by.beam.zero
        &&& forall|k: int|
            0 <= k < nbs.len() ==> call_ensures(
                self.by.mix_skin,
                (
                    sums[k],
                    lateral[i],
                    lateral[nbs[k] as int],
                    self.now.grid.weights_of(i)[k],
                    self.now.skin@[#[trigger] nbs[k] as int],
                    self.now.skin@[i],
                ),
                sums[k + 1],
            )
    }

    /// `after` is the skin temperature of cell `i` once it has taken in `f`.
    pub open spec fn takes_in_skin(&self, i: int, f: SkinFlux<S>, after: S) -> bool {
        &&& f.temp == self.now.skin@[i]
        &&& f.capacity == self.now.skin_capacity@[i]
        &&& call_ensures(self.by.light, (self.at, self.now.grid.centers@[i]), f.light)
        &&& self.is_carried(0, i, f.vent)
        &&& exists|b: Seq<S>, up: Seq<S>, down: Seq<S>| #[trigger]
            self.are_beams(i, b, up, down) && f.glow == up[0] && f.down == down[0]
        &&& exists|lateral: Seq<S>, sums: Seq<S>|
            {
                &&& lateral.len() == self.now.grid.n
                &&& forall|c: int|
                    0 <= c < lateral.len() ==> call_ensures(
                        self.by.conduct,
                        (self.at, self.now.grid.centers@[c]),
                        #[trigger] lateral[c],
                    )
                &&& #[trigger] self.mixes_skin(lateral, i, sums)
                &&& sums.last() == f.mixed
            }
        &&& exists|warmed: S| #[trigger]
            call_ensures(self.by.warm_skin, (self.at, f), warmed) && self.is_floored(warmed, after)
    }

    /// A layer takes in what its own lower link brings, loses what the link over it takes, the top one
    /// nothing, and keeps of the beams on its two faces what its own emissivity holds; it is mixed with
    /// itself over the neighbors and carried by its own wind along its own gradient.
    pub proof fn law_a_layer_takes_in_its_own(
        &self,
        skin: Seq<S>,
        vented: Seq<S>,
        air: Seq<Vec<S>>,
        l: int,
        i: int,
    )
        requires
            self.is_step(skin, vented, air),
            0 <= l < self.now.air@.len(),
            0 <= i < self.now.grid.n,
        ensures
            exists|f: AirFlux<S>| #[trigger] self.takes_in_air(l, i, f, air[l]@[i]),
    {
        assert(self.is_air_layer(l, air[l]@));
        assert(self.is_air_cell(l, i, air[l]@[i]));
        let out = air[l]@[i];
        let (f, glow, net, down, warmed) = choose|f: AirFlux<S>, glow: S, net: Seq<S>, down: S, warmed: S|
            {
                &&& f.temp == self.now.air@[l]@[i]
                &&& f.capacity == self.now.air_capacity@[l]
                &&& #[trigger] self.is_radiation(i, glow, net, down)
                &&& f.net == net[l]
                &&& self.is_vent(l, i, f.below)
                &&& self.is_vent(l + 1, i, f.above)
                &&& self.is_air_mix(l, i, f.mixed)
                &&& self.is_drift(l, i, f.drift)
                &&& #[trigger] call_ensures(self.by.warm_air, (self.at, f), warmed)
                &&& self.is_held(warmed, out)
            };
        self.lemma_vent(l, i, f.below);
        if l + 1 < self.now.air@.len() {
            self.lemma_vent(l + 1, i, f.above);
        }
        let (b, up, dn) = self.lemma_beams(i, glow, net, down);
        assert(self.are_beams(i, b, up, dn));
        let sums = choose|sums: Seq<S>| #[trigger]
            self.are_air_sums(l, i, self.now.grid.neighbors_of(i).len() as int, sums) && sums.last()
                == f.mixed;
        assert(self.mixes_air(l, i, sums));
        assert(self.is_floored(warmed, out));
        assert(self.takes_in_air(l, i, f, out));
    }

    /// The skin takes in its sunlight and what comes down on it, loses its glow and what the lowest link
    /// takes, which is what the step says it vented, and is mixed with its neighbors.
    pub proof fn law_the_skin_takes_in_its_own(
        &self,
        skin: Seq<S>,
        vented: Seq<S>,
        air: Seq<Vec<S>>,
        i: int,
    )
        requires
            self.is_step(skin, vented, air),
            self.now.air@.len() > 0,
            0 <= i < self.now.grid.n,
        ensures
            exists|f: SkinFlux<S>| #[trigger] self.takes_in_skin(i, f, skin[i]) && f.vent == vented[i],
    {
        let lateral = choose|lateral: Seq<S>|
            {
                &&& #[trigger] self.are_conductances(lateral)
                &&& forall|k: int|
                    0 <= k < skin.len() ==> self.is_skin_cell(
                        lateral,
                        k,
                        (#[trigger] skin[k], vented[k]),
                    )
            };
        let out = (skin[i], vented[i]);
        assert(self.is_skin_cell(lateral, i, (skin[i], vented[i])));
        let (f, net, warmed) = choose|f: SkinFlux<S>, net: Seq<S>, warmed: S|
            {
                &&& f.temp == self.now.skin@[i]
                &&& f.capacity == self.now.skin_capacity@[i]
                &&& f.vent == out.1
                &&& call_ensures(self.by.light, (self.at, self.now.grid.centers@[i]), f.light)
                &&& #[trigger] self.is_radiation(i, f.glow, net, f.down)
                &&& self.is_vent(0, i, f.vent)
                &&& self.is_skin_mix(lateral, i, f.mixed)
                &&& #[trigger] call_ensures(self.by.warm_skin, (self.at, f), warmed)
                &&& self.is_held(warmed, out.0)
            };
        self.lemma_vent(0, i, f.vent);
        let (b, up, dn) = self.lemma_beams(i, f.glow, net, f.down);
        assert(self.are_beams(i, b, up, dn));
        let sums = choose|sums: Seq<S>| #[trigger]
            self.are_skin_sums(lateral, i, self.now.grid.neighbors_of(i).len() as int, sums)
                && sums.last() == f.mixed;
        assert(self.mixes_skin(lateral, i, sums));
        assert(self.is_floored(warmed, skin[i]));
        assert(self.takes_in_skin(i, f, skin[i]));
    }

    proof fn lemma_beams(&self, i: int, glow: S, net: Seq<S>, ground: S) -> (beams: (Seq<S>, Seq<S>, Seq<S>))
        requires
            self.is_radiation(i, glow, net, ground),
        ensures
            self.are_beams(i, beams.0, beams.1, beams.2),
            beams.1[0] == glow,
            beams.2[0] == ground,
            forall|l: int|
                0 <= l < self.now.air@.len() ==> call_ensures(
                    self.by.beam.keep,
                    (self.now.emis@[l], beams.1[l], beams.2[l + 1], beams.0[l]),
                    #[trigger] net[l],
                ),
    {
        let emis = self.now.emis@;
        let tau = self.now.tau@;
        let b = choose|b: Seq<S>| #[trigger]
            self.are_emissions(self.now.column(i), b) && self.by.beam.is_longwave(
                glow,
                b,
                emis,
                tau,
                net,
                ground,
            );
        let (up, down) = choose|up: Seq<S>, down: Seq<S>|
            {
                &&& #[trigger] self.by.beam.is_up(glow, b, tau, up)
                &&& #[trigger] self.by.beam.is_down(b, tau, down)
                &&& self.by.beam.is_net(b, emis, up, down, net)
                &&& ground == down[0]
            };
        (b, up, down)
    }
}

} // verus!
