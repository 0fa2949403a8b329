//! Winds: what drives each cell of each layer, and at which height of the column.

use crate::order::{is_number, law_comparisons_are_those_of_reals, spec_below, value};
use crate::sim::wind::{are_band_sums, are_zonal_means, is_band_mean, Momentum, Parcel};
use vstd::prelude::*;

verus! {

/// The band, of sixty, that a latitude falls into; what lies beyond the last falls into it.
pub open spec fn band_of(raw: usize) -> int {
    if raw < 60 {
        raw as int
    } else {
        59
    }
}

impl<'a, P, L, A, V, B, T, C, E, F, G, H, I, J, K, M> Momentum<'a, P, L, A, V, B, T, C, E, F, G, H, I, J, K, M> where
    E: Fn(P) -> usize,
    F: Fn(C, B, P, V, V, A) -> B,
    G: Fn(B) -> B,
    H: Fn(T, P, P, V, V, A) -> T,
    I: Fn(C, Parcel<P, A, V, B, T>) -> V,
    J: Fn(P, V) -> V,
    K: Fn(V) -> u32,
    M: Fn(V, u32, u32) -> V,
 {
    /// The parcel is one of this layer's: as high in the column, counted from the surface to the top, as
    /// the layer is among the layers.
    pub open spec fn is_at_height(&self, c: Parcel<P, A, V, B, T>) -> bool {
        &&& c.height.1 > 0
        &&& self.n_layers > 1 ==> c.height.0 * (self.n_layers - 1) == self.layer * c.height.1
        &&& self.n_layers <= 1 ==> c.height.0 == 0
    }

    /// `sums` gather what each neighbor of cell `i` brings to it in turn.
    pub open spec fn brings(&self, i: int, sums: Seq<T>) -> bool {
        let nbs = self.grid.neighbors_of(i);
        &&& sums.len() == nbs.len() + 1
        &&& sums[0] == self.by.still
        &&& forall|k: int|
            0 <= k < nbs.len() ==> call_ensures(
                self.by.carry,
                (
                    sums[k],
                    self.grid.centers@[i],
                    self.grid.centers@[nbs[k] as int],
                    self.wind@[i],
                    self.wind@[#[trigger] nbs[k] as int],
                    self.grid.weights_of(i)[k],
                ),
                sums[k + 1],
            )
    }

    /// `sums` gather the winds and gradients of the cells of band `b`, each by its area.
    pub open spec fn gathers_band(&self, raws: Seq<usize>, b: int, sums: Seq<B>) -> bool {
        &&& sums.len() == self.grid.n + 1
        &&& sums[0] == self.by.zones.zero
        &&& forall|c: int|
            0 <= c < self.grid.n && band_of(#[trigger] raws[c]) == b ==> call_ensures(
                self.by.zones.join,
                (self.at, sums[c], self.grid.centers@[c], self.wind@[c], self.grad@[c], self.grid.areas@[c]),
                sums[c + 1],
            )
        &&& forall|c: int|
            0 <= c < self.grid.n && band_of(#[trigger] raws[c]) != b ==> sums[c + 1] == sums[c]
    }

    /// `means` are the means of sixty bands, of the cells whose latitude falls into each as `raws` has
    /// it.
    pub open spec fn are_means(&self, raws: Seq<usize>, means: Seq<B>) -> bool {
        &&& raws.len() == self.grid.n
        &&& means.len() == 60
        &&& forall|c: int|
            0 <= c < self.grid.n ==> call_ensures(
                self.by.zones.band,
                (self.grid.centers@[c],),
                #[trigger] raws[c],
            )
        &&& forall|b: int|
            0 <= b < 60 ==> self.is_mean_of(raws, b, #[trigger] means[b])
    }

    /// `mean` is what the sums over band `b` come to.
    pub open spec fn is_mean_of(&self, raws: Seq<usize>, b: int, mean: B) -> bool {
        exists|sums: Seq<B>| #[trigger]
            self.gathers_band(raws, b, sums) && call_ensures(self.by.zones.mean, (sums.last(),), mean)
    }

    proof fn lemma_means(&self, raws: Seq<usize>, means: Seq<B>)
        requires
            are_zonal_means(
                self.grid,
                self.wind@,
                self.grad@,
                self.by.zones,
                self.at,
                raws,
                means,
            ),
        ensures
            self.are_means(raws, means),
    {
        assert forall|b: int| 0 <= b < 60 implies self.is_mean_of(raws, b, #[trigger] means[b]) by {
            let z = self.by.zones;
            let n = self.grid.n as int;
            assert(is_band_mean(self.grid, self.wind@, self.grad@, z, self.at, raws, b, means[b]));
            let sums = choose|sums: Seq<B>| #[trigger]
                are_band_sums(
                    self.grid,
                    self.wind@,
                    self.grad@,
                    z.join,
                    z.zero,
                    self.at,
                    raws,
                    b,
                    n,
                    sums,
                ) && call_ensures(z.mean, (sums.last(),), means[b]);
            assert(self.gathers_band(raws, b, sums));
        }
    }

    /// `c` is what the forces on cell `i` are worked out from: the cell's own place, area, wind and
    /// gradient, what its neighbors bring, the means of its own band, and the wind of the layer below.
    pub open spec fn is_own(&self, i: int, c: Parcel<P, A, V, B, T>) -> bool {
        &&& self.is_at_height(c)
        &&& c.surface <==> self.layer == 0
        &&& c.position == self.grid.centers@[i]
        &&& c.area == self.grid.areas@[i]
        &&& c.wind == self.wind@[i]
        &&& c.grad == self.grad@[i]
        &&& exists|sums: Seq<T>| #[trigger] self.brings(i, sums) && sums.last() == c.flow
        &&& exists|raws: Seq<usize>, means: Seq<B>|
            {
                &&& #[trigger] self.are_means(raws, means)
                &&& c.mean == means[band_of(raws[i])]
            }
        &&& self.below is Some ==> c.below == Some(self.below->0@[i])
        &&& self.below is None ==> c.below is None
    }

    /// `out` is the wind `free` at cell `i` without what points off the sphere, and no faster than 120
    /// metres per second.
    pub open spec fn is_kept(&self, i: int, free: V, out: V) -> bool {
        exists|flat: V, speed: u32|
            {
                &&& call_ensures(self.by.limits.flatten, (self.grid.centers@[i], free), flat)
                &&& #[trigger] call_ensures(self.by.limits.speed, (flat,), speed)
                &&& is_number(speed) && value(speed) > value(0x42F0_0000) ==> call_ensures(
                    self.by.limits.slow,
                    (flat, speed, 0x42F0_0000),
                    out,
                )
                &&& !(is_number(speed) && value(speed) > value(0x42F0_0000)) ==> out == flat
            }
    }

    /// Every wind is stepped by what is its own: its layer's height, the cell's place, wind, gradient
    /// and neighbors, its band's means, and the layer below.
    pub proof fn law_a_wind_is_pushed_by_its_own(&self, out: Seq<V>, i: int)
        requires
            self.is_step(out),
            0 <= i < out.len(),
            self.layer < self.n_layers,
        ensures
            exists|c: Parcel<P, A, V, B, T>, free: V|
                {
                    &&& self.is_own(i, c)
                    &&& #[trigger] call_ensures(self.by.push, (self.at, c), free)
                    &&& self.is_kept(i, free, out[i])
                },
    {
        let (c, free) = self.lemma_pushed(out, i);
        assert(call_ensures(self.by.push, (self.at, c), free));
    }

    proof fn lemma_pushed(&self, out: Seq<V>, i: int) -> (made: (Parcel<P, A, V, B, T>, V))
        requires
            self.is_step(out),
            0 <= i < out.len(),
            self.layer < self.n_layers,
        ensures
            self.is_own(i, made.0),
            call_ensures(self.by.push, (self.at, made.0), made.1),
            self.is_kept(i, made.1, out[i]),
    {
        let (raws, means) = choose|raws: Seq<usize>, means: Seq<B>|
            {
                &&& #[trigger] are_zonal_means(
                    self.grid,
                    self.wind@,
                    self.grad@,
                    self.by.zones,
                    self.at,
                    raws,
                    means,
                )
                &&& out.len() == self.grid.n
                &&& forall|k: int| 0 <= k < out.len() ==> self.is_pushed(raws, means, k, #[trigger] out[k])
            };
        assert(self.is_pushed(raws, means, i, out[i]));
        let (c, free) = choose|c: Parcel<P, A, V, B, T>, free: V|
            {
                &&& self.is_parcel(raws, means, i, c)
                &&& #[trigger] call_ensures(self.by.push, (self.at, c), free)
                &&& self.by.limits.is_limited(self.grid.centers@[i], free, out[i])
            };
        assert(self.is_at_height(c)) by {
            if self.n_layers > 1 {
                assert(c.height.1 == self.n_layers - 1 && c.height.0 == self.layer);
            }
        }
        let n = self.grid.neighbors_of(i).len() as int;
        let sums = choose|sums: Seq<T>| #[trigger] self.are_flow_sums(i, n, sums) && sums.last() == c.flow;
        assert(self.brings(i, sums));
        self.lemma_means(raws, means);
        let (flat, speed) = choose|flat: V, speed: u32|
            {
                &&& call_ensures(self.by.limits.flatten, (self.grid.centers@[i], free), flat)
                &&& #[trigger] call_ensures(self.by.limits.speed, (flat,), speed)
                &&& if spec_below(0x42F0_0000, speed) {
                    call_ensures(self.by.limits.slow, (flat, speed, 0x42F0_0000), out[i])
                } else {
                    out[i] == flat
                }
            };
        law_comparisons_are_those_of_reals(0x42F0_0000, speed);
        assert(call_ensures(self.by.limits.speed, (flat,), speed));
        (c, free)
    }

    /// The layers of a column are pushed at different heights, from zero at the surface to one at the
    /// top, the higher layer at the greater height.
    pub proof fn law_higher_layers_are_pushed_higher(&self, other: &Self, out: Seq<V>, over: Seq<V>, i: int)
        requires
            self.is_step(out),
            other.is_step(over),
            self.n_layers == other.n_layers,
            self.layer < other.layer < other.n_layers,
            0 <= i < out.len(),
            i < over.len(),
        ensures
            exists|c: Parcel<P, A, V, B, T>, d: Parcel<P, A, V, B, T>, u: V, v: V|
                {
                    &&& #[trigger] call_ensures(self.by.push, (self.at, c), u)
                    &&& self.is_kept(i, u, out[i])
                    &&& #[trigger] call_ensures(other.by.push, (other.at, d), v)
                    &&& other.is_kept(i, v, over[i])
                    &&& c.height.0 * d.height.1 < d.height.0 * c.height.1
                    &&& self.layer == 0 ==> c.height.0 == 0
                    &&& other.layer == other.n_layers - 1 ==> d.height.0 == d.height.1
                    &&& !d.surface
                },
    {
        let (c, u) = self.lemma_pushed(out, i);
        let (d, v) = other.lemma_pushed(over, i);
        let n = self.n_layers - 1;
        let (a, b, p, q) = (c.height.0 as int, c.height.1 as int, d.height.0 as int, d.height.1 as int);
        let (l, m) = (self.layer as int, other.layer as int);
        assert(a * q < p * b) by (nonlinear_arith)
            requires
                a * n == l * b,
                p * n == m * q,
                l < m,
                b > 0,
                q > 0,
                n > 0,
        {
            assert(n * (a * q) == (a * n) * q);
            assert(n * (p * b) == (p * n) * b);
            assert((l * b) * q < (m * q) * b);
        }
        if l == 0 {
            assert(a == 0) by (nonlinear_arith)
                requires
                    a * n == 0 * b,
                    n > 0,
            ;
        }
        if m == n {
            assert(p == q) by (nonlinear_arith)
                requires
                    p * n == n * q,
                    n > 0,
            ;
        }
        assert(call_ensures(self.by.push, (self.at, c), u));
        assert(call_ensures(other.by.push, (other.at, d), v));
    }
}

} // verus!
