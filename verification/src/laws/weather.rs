//! A sub-step of the weather: which fields it reads for what, and in which order.

use crate::sim::temperature::{AirFlux, Balance, SkinFlux, Snapshot};
use crate::sim::weather::{Moment, Weather};
use crate::sim::wind::{are_fit_sums, is_gradient, is_gradient_factor, Momentum, Parcel};
use crate::sim::Sim;
use vstd::prelude::*;

verus! {

impl<
    'a,
    P,
    Lc,
    A,
    S,
    V,
    D,
    T,
    U,
    B,
    X,
    W,
    FA,
    FB,
    FC,
    FD,
    GA,
    GB,
    GC,
    GD,
    HA,
    HB,
    HC,
    IA,
    IB,
    IC,
    ID,
    IE,
    IF,
    IG,
    IH,
    JA,
    JB,
    KA,
    KB,
    KC,
    KD,
    KE,
    KM,
    KN,
    KF,
    KL,
    KG,
    KH,
    KI,
    KJ,
    KK,
    KO,
    LA,
    LB,
> Weather<
    'a,
    P,
    Lc,
    A,
    S,
    V,
    D,
    T,
    U,
    B,
    X,
    W,
    FA,
    FB,
    FC,
    FD,
    GA,
    GB,
    GC,
    GD,
    HA,
    HB,
    HC,
    IA,
    IB,
    IC,
    ID,
    IE,
    IF,
    IG,
    IH,
    JA,
    JB,
    KA,
    KB,
    KC,
    KD,
    KE,
    KM,
    KN,
    KF,
    KL,
    KG,
    KH,
    KI,
    KJ,
    KK,
    KO,
    LA,
    LB,
> where
    P: Copy + Sync,
    Lc: Copy + Sync,
    A: Copy + Sync,
    S: Copy + Send + Sync,
    V: Copy + Send + Sync,
    D: Copy + Sync,
    T: Copy,
    U: Copy + Send + Sync,
    B: Copy + Sync,
    X: Copy + Sync,
    W: Copy,
    FA: Fn(S, S) -> S + Sync,
    FB: Fn(S, S) -> S + Sync,
    FC: Fn(S, S) -> S + Sync,
    FD: Fn(S) -> S + Sync,
    GA: Fn(Lc) -> u32 + Sync,
    GB: Fn(T, S, A) -> T + Sync,
    GC: Fn(T) -> bool + Sync,
    GD: Fn(T, T) -> S + Sync,
    HA: Fn(Moment<S, D>, U, P, P, S, S) -> U + Sync,
    HB: Fn(P, U) -> V + Sync,
    HC: Fn(Moment<S, D>, (usize, usize), P, V) -> V + Sync,
    IA: Fn(P) -> usize + Sync,
    IB: Fn(Moment<S, D>, B, P, V, V, A) -> B + Sync,
    IC: Fn(B) -> B + Sync,
    ID: Fn(X, P, P, V, V, A) -> X + Sync,
    IE: Fn(Moment<S, D>, Parcel<P, A, V, B, X>) -> V + Sync,
    IF: Fn(P, V) -> V + Sync,
    IG: Fn(V) -> u32 + Sync,
    IH: Fn(V, u32, u32) -> V + Sync,
    JA: Fn(W, V, V, A) -> W + Sync,
    JB: Fn(W) -> S + Sync,
    KA: Fn(S, S, S) -> S + Sync,
    KB: Fn(S, S, S, S) -> S + Sync,
    KC: Fn(S, S) -> S + Sync,
    KD: Fn(Moment<S, D>, S) -> S + Sync,
    KE: Fn(S, S) -> S + Sync,
    KM: Fn(Moment<S, D>, S, S) -> S + Sync,
    KN: Fn(S) -> bool + Sync,
    KF: Fn(Moment<S, D>, P) -> S + Sync,
    KL: Fn(Moment<S, D>, P) -> S + Sync,
    KG: Fn(S, S, S, A, S, S) -> S + Sync,
    KH: Fn(Moment<S, D>, SkinFlux<S>) -> S + Sync,
    KI: Fn(Moment<S, D>, S, A, S, S) -> S + Sync,
    KJ: Fn(V, V, S) -> S + Sync,
    KK: Fn(Moment<S, D>, AirFlux<S>) -> S + Sync,
    KO: Fn(S, S) -> bool + Sync,
    LA: Fn(D, u32) -> D + Sync,
    LB: Fn(u32, u32) -> u32 + Sync,
 {
    /// What the formulas of a step of `dt` from `before` depend on: its climate, its time and its layers,
    /// and the climate gradient.
    pub open spec fn now<M>(before: Sim<S, V, M, D>, dt: u32, gradient: S) -> Moment<S, D> {
        Moment {
            climate: before.climate,
            time: before.time,
            dt,
            gradient,
            layers: before.n_layers,
        }
    }

    /// `slope` is the gradient of `field` at cell `i`, fitted over the cell's neighbors in turn.
    pub open spec fn slopes_at(&self, at: Moment<S, D>, field: Seq<S>, i: int, slope: V) -> bool {
        let nbs = self.grid.neighbors_of(i);
        exists|sums: Seq<U>|
            {
                &&& sums.len() == nbs.len() + 1
                &&& sums[0] == self.unfit
                &&& forall|k: int|
                    0 <= k < nbs.len() ==> call_ensures(
                        self.fit,
                        (
                            at,
                            sums[k],
                            self.grid.centers@[i],
                            self.grid.centers@[nbs[k] as int],
                            field[i],
                            field[#[trigger] nbs[k] as int],
                        ),
                        sums[k + 1],
                    )
                &&& #[trigger] call_ensures(self.solve, (self.grid.centers@[i], sums.last()), slope)
            }
    }

    /// The gradient that drives the wind of layer `l`: that of the surface for the lowest, its own aloft.
    pub open spec fn driving<M>(after: Sim<S, V, M, D>, l: int) -> Vec<V> {
        if l == 0 {
            after.grad_s
        } else {
            after.grads@[l]
        }
    }

    /// A wind from rest is balanced at its layer's height: `wind` is what the balance gives at a height
    /// that is to the top as the layer is to the top layer.
    pub open spec fn is_balanced(&self, at: Moment<S, D>, l: int, n: int, i: int, slope: V, wind: V) -> bool {
        exists|h: (usize, usize)|
            {
                &&& h.1 > 0
                &&& n > 1 ==> h.0 * (n - 1) == l * h.1
                &&& n <= 1 ==> h.0 == 0
                &&& #[trigger] call_ensures(self.calm, (at, h, self.grid.centers@[i], slope), wind)
            }
    }

    /// `sums` gather over all cells how a layer's wind carries its heat.
    pub open spec fn gathers(&self, wind: Seq<V>, slopes: Seq<V>, sums: Seq<W>) -> bool {
        &&& sums.len() == self.grid.n + 1
        &&& sums[0] == self.quiet
        &&& forall|i: int|
            0 <= i < self.grid.n ==> call_ensures(
                self.tally,
                (sums[i], #[trigger] wind[i], slopes[i], self.grid.areas@[i]),
                sums[i + 1],
            )
    }

    /// `mean` is what a layer's wind along its gradient would warm it by on the mean over all cells.
    pub open spec fn is_mean_warming(&self, wind: Seq<V>, slopes: Seq<V>, mean: S) -> bool {
        exists|sums: Seq<W>| #[trigger]
            self.gathers(wind, slopes, sums) && call_ensures(self.mean_drift, (sums.last(),), mean)
    }

    /// `gradient` is the climate gradient of a step from `before` to `after`, and `first` are the winds
    /// that it starts from.
    pub open spec fn blows<M>(
        &self,
        before: Sim<S, V, M, D>,
        dt: u32,
        after: Sim<S, V, M, D>,
        gradient: S,
        first: Seq<Vec<V>>,
    ) -> bool {
        let at = Self::now(before, dt, gradient);
        let n = before.n_layers as int;
        &&& is_gradient_factor(self.grid, before.temp@, self.contrast, gradient)
        &&& forall|i: int|
            0 <= i < self.grid.n ==> self.slopes_at(at, before.temp@, i, #[trigger] after.grad_s@[i])
        &&& forall|l: int, i: int|
            0 <= l < n && 0 <= i < self.grid.n ==> self.slopes_at(
                at,
                before.atm@[l]@,
                i,
                #[trigger] after.grads@[l]@[i],
            )
        &&& before.wind_seeded ==> first == before.wind_layers@
        &&& !before.wind_seeded ==> forall|l: int, i: int|
            0 <= l < n && 0 <= i < self.grid.n ==> self.is_balanced(
                at,
                l,
                n,
                i,
                Self::driving(after, l)@[i],
                #[trigger] first[l]@[i],
            )
        &&& forall|l: int|
            0 <= l < n ==> (Momentum {
                grid: self.grid,
                wind: &first[l],
                grad: &Self::driving(after, l),
                below: if l == 0 {
                    None
                } else {
                    Some(&after.wind_layers@[l - 1])
                },
                layer: l as usize,
                n_layers: n as usize,
                at,
                by: &self.dynamics,
            }).is_step((#[trigger] after.wind_layers@[l])@)
    }

    /// A sub-step reads the gradients of what was before it, starts the winds from those that blow, or
    /// from balance the first time, and drives each layer by its own gradient, the lowest by that of the
    /// surface, and by the layer below as already stepped.
    pub proof fn law_winds_follow_the_gradients<M>(
        &self,
        before: Sim<S, V, M, D>,
        dt: u32,
        after: Sim<S, V, M, D>,
    )
        requires
            self.is_substep(before, dt, after),
        ensures
            exists|gradient: S, first: Seq<Vec<V>>| #[trigger]
                self.blows(before, dt, after, gradient, first),
            call_ensures(self.later, (before.time, dt), after.time),
            after.wind_seeded,
            after.climate == before.climate,
            after.heat_cap == before.heat_cap,
            after.n_layers == before.n_layers,
    {
        let (gradient, first) = choose|gradient: S, first: Seq<Vec<V>>| #[trigger]
            self.is_substep_by(before, dt, after, gradient, first);
        reveal(Weather::is_substep_by);
        let at = Self::now(before, dt, gradient);
        let n = before.n_layers as int;
        assert forall|i: int| 0 <= i < self.grid.n implies self.slopes_at(
            at,
            before.temp@,
            i,
            #[trigger] after.grad_s@[i],
        ) by {
            self.lemma_slope(at, before.temp@, i, after.grad_s@[i]);
        }
        assert forall|l: int, i: int| 0 <= l < n && 0 <= i < self.grid.n implies self.slopes_at(
            at,
            before.atm@[l]@,
            i,
            #[trigger] after.grads@[l]@[i],
        ) by {
            assert(self.are_slopes(at, before.atm@[l]@, after.grads@[l]@));
            self.lemma_slope(at, before.atm@[l]@, i, after.grads@[l]@[i]);
        }
        if !before.wind_seeded {
            assert forall|l: int, i: int| 0 <= l < n && 0 <= i < self.grid.n implies self.is_balanced(
                at,
                l,
                n,
                i,
                Self::driving(after, l)@[i],
                #[trigger] first[l]@[i],
            ) by {
                assert(self.is_calm(at, l, n, Self::drive(after.grad_s, after.grads@, l)@, first[l]@));
                let h: (usize, usize) = if n <= 1 {
                    (0, 1)
                } else {
                    (l as usize, (n - 1) as usize)
                };
                let slope = Self::driving(after, l)@[i];
                assert(call_ensures(self.calm, (at, h, self.grid.centers@[i], slope), first[l]@[i]));
                if n > 1 {
                    assert(h.0 * (n - 1) == l * h.1);
                }
            }
        }
        assert forall|l: int| 0 <= l < n implies (Momentum {
            grid: self.grid,
            wind: &first[l],
            grad: &Self::driving(after, l),
            below: if l == 0 {
                None
            } else {
                Some(&after.wind_layers@[l - 1])
            },
            layer: l as usize,
            n_layers: n as usize,
            at,
            by: &self.dynamics,
        }).is_step((#[trigger] after.wind_layers@[l])@) by {
            assert(self.is_blown(at, after.grad_s, after.grads@, first, after.wind_layers@, l));
        }
        assert(self.blows(before, dt, after, gradient, first));
    }

    proof fn lemma_slope(&self, at: Moment<S, D>, field: Seq<S>, i: int, slope: V)
        requires
            is_gradient(self.grid, field, self.fit, self.solve, self.unfit, at, i, slope),
        ensures
            self.slopes_at(at, field, i, slope),
    {
        let n = self.grid.neighbors_of(i).len() as int;
        let sums = choose|sums: Seq<U>| #[trigger]
            are_fit_sums(self.grid, field, self.fit, self.unfit, at, i, n, sums) && call_ensures(
                self.solve,
                (self.grid.centers@[i], sums.last()),
                slope,
            );
        assert(call_ensures(self.solve, (self.grid.centers@[i], sums.last()), slope));
    }

    /// What a column is given of its climate, for a step: emissivities and capacities that fall off from
    /// their totals, what each layer lets through of the beam, links that start at the full exchange and
    /// fall off link by link, and the mean by which each layer's wind would warm it.
    pub open spec fn is_given<M>(
        &self,
        before: Sim<S, V, M, D>,
        after: Sim<S, V, M, D>,
        emis: Vec<S>,
        capacity: Vec<S>,
        tau: Vec<S>,
        kappa: Vec<S>,
        means: Vec<S>,
    ) -> bool {
        let n = before.n_layers as int;
        let c = before.climate;
        &&& emis@.len() == n && capacity@.len() == n && tau@.len() == n && kappa@.len() == n && means@.len()
            == n
        &&& self.arith.is_profile(c.atm_emissivity_total, c.atm_emissivity_decay, emis@)
        &&& self.arith.is_profile(c.atm_heat_capacity_total, c.atm_heat_capacity_decay, capacity@)
        &&& forall|l: int| 0 <= l < n ==> call_ensures(self.clear, (emis@[l],), #[trigger] tau@[l])
        &&& n > 0 ==> kappa@[0] == c.convection_coeff
        &&& forall|l: int|
            0 <= l < n - 1 ==> call_ensures(
                self.arith.times,
                (#[trigger] kappa@[l], c.convection_decay),
                kappa@[l + 1],
            )
        &&& forall|l: int|
            0 <= l < n ==> if c.atm_advection {
                self.is_mean_warming(after.wind_layers@[l]@, after.grads@[l]@, #[trigger] means@[l])
            } else {
                means@[l] == self.arith.zero
            }
    }

    /// A sub-step warms what was before it, at the climate gradient `gradient`, under the winds and
    /// gradients that the step has come to.
    pub open spec fn warms<M>(
        &self,
        before: Sim<S, V, M, D>,
        dt: u32,
        after: Sim<S, V, M, D>,
        gradient: S,
    ) -> bool {
        exists|emis: Vec<S>, capacity: Vec<S>, tau: Vec<S>, kappa: Vec<S>, means: Vec<S>|
            {
                &&& #[trigger] self.is_given(before, after, emis, capacity, tau, kappa, means)
                &&& (Balance {
                    now: Snapshot {
                        grid: self.grid,
                        skin: &before.temp,
                        air: &before.atm,
                        emis: &emis,
                        tau: &tau,
                        kappa: &kappa,
                        skin_capacity: &before.heat_cap,
                        air_capacity: &capacity,
                        winds: &after.wind_layers,
                        grads: &after.grads,
                        correction: &means,
                        advect: before.climate.atm_advection,
                    },
                    at: Self::now(before, dt, gradient),
                    by: &self.physics,
                }).is_step(after.temp@, after.conv@, after.atm@)
            }
    }

    /// A sub-step warms the temperatures that it found, by a column made of the climate's totals, and
    /// carries each layer by the wind that it has just stepped.
    pub proof fn law_heat_follows_the_climate<M>(
        &self,
        before: Sim<S, V, M, D>,
        dt: u32,
        after: Sim<S, V, M, D>,
    )
        requires
            self.is_substep(before, dt, after),
        ensures
            exists|gradient: S|
                #![trigger self.warms(before, dt, after, gradient)]
                is_gradient_factor(self.grid, before.temp@, self.contrast, gradient) && self.warms(
                    before,
                    dt,
                    after,
                    gradient,
                ),
    {
        let (gradient, first) = choose|gradient: S, first: Seq<Vec<V>>| #[trigger]
            self.is_substep_by(before, dt, after, gradient, first);
        reveal(Weather::is_substep_by);
        let at = Self::now(before, dt, gradient);
        let (emis, capacity, tau, kappa, means) = choose|
            emis: Vec<S>,
            capacity: Vec<S>,
            tau: Vec<S>,
            kappa: Vec<S>,
            means: Vec<S>,
        | #[trigger]
            self.is_heated_by(
                before,
                at,
                after.grads,
                after.wind_layers,
                after.temp@,
                after.conv@,
                after.atm@,
                emis,
                capacity,
                tau,
                kappa,
                means,
            );
        let n = before.n_layers as int;
        let c = before.climate;
        assert forall|l: int| 0 <= l < n implies call_ensures(self.clear, (emis@[l],), #[trigger] tau@[l]) by {
            assert(call_ensures(self.clear, (emis@[l],), tau@[l]));
        }
        assert forall|l: int| 0 <= l < n implies if c.atm_advection {
            self.is_mean_warming(after.wind_layers@[l]@, after.grads@[l]@, #[trigger] means@[l])
        } else {
            means@[l] == self.arith.zero
        } by {
            if c.atm_advection {
                let wind = after.wind_layers@[l]@;
                let grad = after.grads@[l]@;
                assert(self.is_mean_drift(wind, grad, means@[l]));
                let sums = choose|sums: Seq<W>| #[trigger]
                    self.are_tallies(wind, grad, self.grid.n as int, sums) && call_ensures(
                        self.mean_drift,
                        (sums.last(),),
                        means@[l],
                    );
                assert(self.gathers(wind, grad, sums));
            } else {
                assert(means@[l] == self.arith.zero);
            }
        }
        assert(self.is_given(before, after, emis, capacity, tau, kappa, means));
        assert(self.warms(before, dt, after, gradient));
    }
}

} // verus!
