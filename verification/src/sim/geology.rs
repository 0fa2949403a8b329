//! Geology of a whole planet: the plates first, the crust that they imply after them, and the heat
//! capacities of the land and sea that come out.

use crate::grid::Grid;
use crate::kernel::{is_function1, is_function2};
use crate::order::spec_at_most;
use crate::sim::elevation::{
    is_generated, is_shaped, law_a_seed_fixes_the_crust, Band, Crust, Noise, Shore, Tectonics, WaveDraw, MIN_THICKNESS,
};
use crate::sim::flood::{Flood, Measure};
use crate::sim::growth::{settled, GrowthState};
use crate::sim::margin::{is_interior, BoundaryKind, Effect, Motion};
use crate::sim::terrain::{
    are_motions, are_velocities, is_fill, law_a_fill_fixes_the_motions, law_a_seed_fixes_the_fill, plate_count, PlateDraw, SizeDraw, SizeModel, Terrain, Weighing,
};
use crate::sim::{masked, Sim};
use vstd::prelude::*;

verus! {

/// What plates are made by.
pub struct PlateModel<R, W, E, F, G, H, Q, X, Y> {
    /// How growth weights are drawn.
    pub sizes: SizeModel<R>,
    /// The weight of a draw.
    pub weigh: E,
    /// The arithmetic that plates are picked by.
    pub by: Weighing<W, F, G, H, Q>,
    /// The motion of a draw.
    pub motion: X,
    /// Surface velocity of a motion at a position.
    pub velocity_at: Y,
}

impl<R, W, E, F, G, H, Q, X, Y> PlateModel<R, W, E, F, G, H, Q, X, Y> {
    /// The formulas take every value.
    pub open spec fn total<M, P, V>(&self) -> bool where
        E: Fn(SizeDraw<R>) -> W,
        F: Fn(W, W) -> W,
        G: Fn(W, W) -> W,
        H: Fn(u32, W) -> W,
        Q: Fn(W) -> bool,
        X: Fn(PlateDraw) -> M,
        Y: Fn(M, P) -> V,
     {
        &&& self.by.total()
        &&& forall|d: SizeDraw<R>| #[trigger] call_requires(self.weigh, (d,))
        &&& forall|d: PlateDraw| #[trigger] call_requires(self.motion, (d,))
        &&& forall|m: M, p: P| #[trigger] call_requires(self.velocity_at, (m, p))
    }

    /// `terrain` is what the model makes of `grid` and `seed`: a fill of the grid by as many plates as
    /// it can hold of `num_plates`, a motion for each, and the velocities that follow.
    pub open spec fn makes<P, L, A, M, V>(
        &self,
        grid: &Grid<P, L, A>,
        num_plates: usize,
        seed: u64,
        terrain: &Terrain<M, V>,
    ) -> bool where
        E: Fn(SizeDraw<R>) -> W,
        F: Fn(W, W) -> W,
        G: Fn(W, W) -> W,
        H: Fn(u32, W) -> W,
        Q: Fn(W) -> bool,
        X: Fn(PlateDraw) -> M,
        Y: Fn(M, P) -> V,
     {
        &&& terrain.plates@.len() == plate_count(grid.n as nat, num_plates as nat)
        &&& terrain.plate_id@.len() == grid.n
        &&& terrain.velocity@.len() == grid.n
        &&& exists|attempts: nat, weights: Seq<W>, picks: Seq<usize>, end: GrowthState|
            {
                &&& #[trigger] is_fill(
                    grid.links(),
                    terrain.plates@.len(),
                    seed,
                    self.sizes,
                    self.weigh,
                    self.by,
                    attempts,
                    weights,
                    picks,
                    end,
                )
                &&& terrain.plate_id@ == settled(end.ids)
                &&& are_motions(self.motion, end.rng, terrain.plates@)
            }
        &&& are_velocities(
            self.velocity_at,
            terrain.plate_id@,
            terrain.plates@,
            grid.centers@,
            terrain.velocity@,
        )
    }
}

impl<R, W, E, F, G, H, Q, X, Y> PlateModel<R, W, E, F, G, H, Q, X, Y> {
    /// The formulas are functions.
    pub open spec fn repeatable<M, P, V>(&self) -> bool where
        E: Fn(SizeDraw<R>) -> W,
        F: Fn(W, W) -> W,
        G: Fn(W, W) -> W,
        H: Fn(u32, W) -> W,
        Q: Fn(W) -> bool,
        X: Fn(PlateDraw) -> M,
        Y: Fn(M, P) -> V,
     {
        &&& self.by.repeatable()
        &&& is_function1(self.weigh)
        &&& is_function1(self.motion)
        &&& is_function2(self.velocity_at)
    }

    /// A seed fixes the plates: where the formulas are functions, two terrains made of one grid from
    /// one seed are the same in every field.
    pub proof fn law_a_seed_fixes_the_plates<P, L, A, M, V>(
        &self,
        grid: &Grid<P, L, A>,
        num_plates: usize,
        seed: u64,
        first: &Terrain<M, V>,
        second: &Terrain<M, V>,
    ) where
        E: Fn(SizeDraw<R>) -> W,
        F: Fn(W, W) -> W,
        G: Fn(W, W) -> W,
        H: Fn(u32, W) -> W,
        Q: Fn(W) -> bool,
        X: Fn(PlateDraw) -> M,
        Y: Fn(M, P) -> V,

        requires
            self.repeatable::<M, P, V>(),
            self.makes(grid, num_plates, seed, first),
            self.makes(grid, num_plates, seed, second),
        ensures
            first.plate_id@ == second.plate_id@,
            first.plates@ == second.plates@,
            first.velocity@ == second.velocity@,
    {
        let plates = first.plates@.len();
        let adj = grid.links();
        let (na, wa, pa, ea) = choose|attempts: nat, weights: Seq<W>, picks: Seq<usize>, end: GrowthState|
            {
                &&& #[trigger] is_fill(
                    adj,
                    plates,
                    seed,
                    self.sizes,
                    self.weigh,
                    self.by,
                    attempts,
                    weights,
                    picks,
                    end,
                )
                &&& first.plate_id@ == settled(end.ids)
                &&& are_motions(self.motion, end.rng, first.plates@)
            };
        let (nb, wb, pb, eb) = choose|attempts: nat, weights: Seq<W>, picks: Seq<usize>, end: GrowthState|
            {
                &&& #[trigger] is_fill(
                    adj,
                    plates,
                    seed,
                    self.sizes,
                    self.weigh,
                    self.by,
                    attempts,
                    weights,
                    picks,
                    end,
                )
                &&& second.plate_id@ == settled(end.ids)
                &&& are_motions(self.motion, end.rng, second.plates@)
            };
        law_a_seed_fixes_the_fill(
            adj,
            plates,
            seed,
            self.sizes,
            self.weigh,
            self.by,
            (na, wa, pa, ea),
            (nb, wb, pb, eb),
        );
        law_a_fill_fixes_the_motions(
            self.motion,
            self.velocity_at,
            ea.rng,
            first.plate_id@,
            grid.centers@,
            (first.plates@, first.velocity@),
            (second.plates@, second.velocity@),
        );
    }
}

/// What the crust is made by.
pub struct CrustModel<'a, A, T, B, C, D, E, F, G, H, I, J, K, X, Y, Z, FF, FG, FH, FI, FJ, FK> {
    pub noise: Noise<B, C, D, E>,
    pub tectonics: Tectonics<F, G, H, I>,
    pub shore: Shore<J, K>,
    pub measure: Measure<'a, A, T, X, Y, Z>,
    pub flood: Flood<'a, A, T, FF, FG, FH, FI, FJ, FK>,
}

impl<'a, A, T, B, C, D, E, F, G, H, I, J, K, X, Y, Z, FF, FG, FH, FI, FJ, FK> CrustModel<
    'a,
    A,
    T,
    B,
    C,
    D,
    E,
    F,
    G,
    H,
    I,
    J,
    K,
    X,
    Y,
    Z,
    FF,
    FG,
    FH,
    FI,
    FJ,
    FK,
> where
    D: Fn(u32, u32) -> u32,
    E: Fn(u32, u32) -> (u32, u32),
    H: Fn(Effect, u32, u32, u32) -> u32,
    I: Fn(u32, u32) -> u32,
    J: Fn(u32, u32) -> u32,
    K: Fn(T, T) -> u32,
    X: Fn(T, A) -> T,
    Y: Fn(T) -> T,
    Z: Fn(T, T) -> bool,
    FF: Fn(u32, u32) -> u32,
    FG: Fn(T, u32, u32, A) -> T,
    FH: Fn(T) -> bool,
    FI: Fn(u32, u32) -> bool,
    FJ: Fn(u32, u32) -> u32,
    FK: Fn(u32, u32) -> u32,
 {
    /// The model measures the cells of `grid`, and its formulas take every value.
    pub open spec fn fits<P, L, V, N>(&self, grid: &Grid<P, L, A>) -> bool where
        B: Fn(Band, Vec<WaveDraw>) -> N,
        C: Fn(&N, P) -> u32,
        F: Fn(P, P, V, V) -> Option<Motion>,
        G: Fn(u32, P, P) -> u32,
     {
        &&& self.measure.areas@ == grid.areas@
        &&& self.flood.areas@ == grid.areas@
        &&& self.measure.total()
        &&& self.flood.total()
        &&& forall|b: Band, w: Vec<WaveDraw>| #[trigger] call_requires(self.noise.tune, (b, w))
        &&& forall|n: &N, p: P| #[trigger] call_requires(self.noise.sample, (n, p))
        &&& forall|t: u32, x: u32| #[trigger] call_requires(self.noise.fraction, (t, x))
        &&& forall|f: u32, r: u32| #[trigger] call_requires(self.noise.crust, (f, r))
        &&& forall|p: P, q: P, v: V, w: V| #[trigger]
            call_requires(self.tectonics.motion, (p, q, v, w))
        &&& forall|d: u32, p: P, q: P| #[trigger] call_requires(self.tectonics.extend, (d, p, q))
        &&& forall|e: Effect, a: u32, d: u32, s: u32| #[trigger]
            call_requires(self.tectonics.apply, (e, a, d, s))
        &&& forall|t: u32, d: u32| #[trigger] call_requires(self.tectonics.column, (t, d))
        &&& forall|r: u32, s: u32| #[trigger] call_requires(self.shore.rise, (r, s))
        &&& forall|a: T, b: T| #[trigger] call_requires(self.shore.portion, (a, b))
    }

    /// `crust` is what the model makes of the plates of `grid` and `seed`.
    pub open spec fn makes<P, L, M, V, N>(
        &self,
        grid: &Grid<P, L, A>,
        terrain: &Terrain<M, V>,
        seed: u64,
        crust: &Crust,
    ) -> bool where
        B: Fn(Band, Vec<WaveDraw>) -> N,
        C: Fn(&N, P) -> u32,
        F: Fn(P, P, V, V) -> Option<Motion>,
        G: Fn(u32, P, P) -> u32,
     {
        exists|base: Seq<u32>, heights: Seq<u32>| #[trigger]
            is_generated(
                grid,
                terrain,
                seed,
                &self.noise,
                &self.tectonics,
                &self.shore,
                &self.measure,
                &self.flood,
                crust,
                base,
                heights,
            )
    }

    /// The formulas are functions.
    pub open spec fn repeatable<P, V, N>(&self) -> bool where
        B: Fn(Band, Vec<WaveDraw>) -> N,
        C: Fn(&N, P) -> u32,
        F: Fn(P, P, V, V) -> Option<Motion>,
        G: Fn(u32, P, P) -> u32,
     {
        &&& self.noise.repeatable::<P, N>()
        &&& self.tectonics.repeatable::<P, V>()
        &&& self.shore.repeatable::<T>()
        &&& self.measure.repeatable()
        &&& self.flood.repeatable()
    }

    /// A seed and the plates fix the crust: where the formulas are functions, two crusts made of one
    /// grid from one seed, over plates that lie and move alike, are the same in every field.
    pub proof fn law_plates_and_seed_fix_the_crust<P, L, M, V, N>(
        &self,
        grid: &Grid<P, L, A>,
        terrains: (&Terrain<M, V>, &Terrain<M, V>),
        seed: u64,
        first: &Crust,
        second: &Crust,
    ) where
        B: Fn(Band, Vec<WaveDraw>) -> N,
        C: Fn(&N, P) -> u32,
        F: Fn(P, P, V, V) -> Option<Motion>,
        G: Fn(u32, P, P) -> u32,

        requires
            grid.wf(),
            self.measure.areas@ == grid.areas@,
            self.repeatable::<P, V, N>(),
            terrains.0.plate_id@ == terrains.1.plate_id@,
            terrains.0.velocity@ == terrains.1.velocity@,
            self.makes::<P, L, M, V, N>(grid, terrains.0, seed, first),
            self.makes::<P, L, M, V, N>(grid, terrains.1, seed, second),
        ensures
            first.continental_fraction@ == second.continental_fraction@,
            first.thickness_km@ == second.thickness_km@,
            first.density@ == second.density@,
            first.boundary@ == second.boundary@,
            first.elevation@ == second.elevation@,
            first.sea_level == second.sea_level,
            first.land_fraction == second.land_fraction,
    {
        let (ba, ha) = choose|base: Seq<u32>, heights: Seq<u32>| #[trigger]
            is_generated(
                grid,
                terrains.0,
                seed,
                &self.noise,
                &self.tectonics,
                &self.shore,
                &self.measure,
                &self.flood,
                first,
                base,
                heights,
            );
        let (bb, hb) = choose|base: Seq<u32>, heights: Seq<u32>| #[trigger]
            is_generated(
                grid,
                terrains.1,
                seed,
                &self.noise,
                &self.tectonics,
                &self.shore,
                &self.measure,
                &self.flood,
                second,
                base,
                heights,
            );
        assert(is_shaped(
            grid,
            terrains.0,
            &self.tectonics,
            second.continental_fraction@,
            bb,
            second.density@,
            second.boundary@,
            second.thickness_km@,
            hb,
        )) by {
            reveal(is_shaped);
        }
        law_a_seed_fixes_the_crust(
            grid,
            terrains.0,
            seed,
            &self.noise,
            &self.tectonics,
            &self.shore,
            &self.measure,
            &self.flood,
            (first, ba, ha),
            (second, bb, hb),
        );
    }
}

impl<S: Copy, V: Copy, M: Copy, D> Sim<S, V, M, D> {
    /// Generate the tectonic plates and the elevation field they imply over `grid`. The crust is
    /// derived from the plates, from the same seed, and the heat capacities follow its land and
    /// sea.
    pub fn generate_terrain<
        P: Copy,
        L,
        A: Copy,
        N,
        R: Copy,
        W: Copy,
        T: Copy,
        PA,
        PB,
        PC,
        PD,
        PE,
        PF,
        PG,
        CA,
        CB,
        CC,
        CD,
        CE,
        CF,
        CG,
        CH,
        CI,
        CJ,
        CK,
        CL,
        CM,
        CN,
        CO,
        CP,
        CQ,
        CR,
        CS,
    >(
        &mut self,
        grid: &Grid<P, L, A>,
        num_plates: usize,
        seed: u64,
        plates: &PlateModel<R, W, PA, PB, PC, PD, PE, PF, PG>,
        crust: &CrustModel<
            A,
            T,
            CA,
            CB,
            CC,
            CD,
            CE,
            CF,
            CG,
            CH,
            CI,
            CJ,
            CK,
            CL,
            CM,
            CN,
            CO,
            CP,
            CQ,
            CR,
            CS,
        >,
    ) where
        PA: Fn(SizeDraw<R>) -> W,
        PB: Fn(W, W) -> W,
        PC: Fn(W, W) -> W,
        PD: Fn(u32, W) -> W,
        PE: Fn(W) -> bool,
        PF: Fn(PlateDraw) -> M,
        PG: Fn(M, P) -> V,
        CA: Fn(Band, Vec<WaveDraw>) -> N,
        CB: Fn(&N, P) -> u32,
        CC: Fn(u32, u32) -> u32,
        CD: Fn(u32, u32) -> (u32, u32),
        CE: Fn(P, P, V, V) -> Option<Motion>,
        CF: Fn(u32, P, P) -> u32,
        CG: Fn(Effect, u32, u32, u32) -> u32,
        CH: Fn(u32, u32) -> u32,
        CI: Fn(u32, u32) -> u32,
        CJ: Fn(T, T) -> u32,
        CK: Fn(T, A) -> T,
        CL: Fn(T) -> T,
        CM: Fn(T, T) -> bool,
        CN: Fn(u32, u32) -> u32,
        CO: Fn(T, u32, u32, A) -> T,
        CP: Fn(T) -> bool,
        CQ: Fn(u32, u32) -> bool,
        CR: Fn(u32, u32) -> u32,
        CS: Fn(u32, u32) -> u32,

        requires
            grid.wf(),
            grid.n > 0,
            plates.total::<M, P, V>(),
            crust.fits::<P, L, V, N>(grid),
        ensures
            plates.makes(grid, num_plates, seed, &final(self).terrain),
            crust.makes::<P, L, M, V, N>(grid, &final(self).terrain, seed, &final(self).crust),
            forall|c: int|
                0 <= c < grid.n ==> (#[trigger] final(self).terrain.plate_id@[c])
                    < final(self).terrain.plates@.len(),
            forall|p: u32|
                p < final(self).terrain.plates@.len()
                    ==> #[trigger] final(self).terrain.plate_id@.contains(p),
            final(self).crust.continental_fraction@.len() == grid.n,
            final(self).crust.thickness_km@.len() == grid.n,
            final(self).crust.density@.len() == grid.n,
            final(self).crust.boundary@.len() == grid.n,
            final(self).crust.elevation@.len() == grid.n,
            forall|i: int|
                0 <= i < grid.n ==> spec_at_most(
                    MIN_THICKNESS,
                    #[trigger] final(self).crust.thickness_km@[i],
                ),
            forall|i: int|
                0 <= i < grid.n ==> (#[trigger] final(self).crust.boundary@[i] == BoundaryKind::Interior
                    <==> is_interior(grid.links(), final(self).terrain.plate_id@, i)),
            final(self).heat_cap@ == masked(
                old(self).heat_cap@,
                final(self).crust.elevation@,
                old(self).climate.heat_capacity,
                old(self).climate.heat_capacity_ocean,
            ),
            final(self).climate == old(self).climate,
            final(self).time == old(self).time,
            final(self).temp == old(self).temp,
            final(self).n_layers == old(self).n_layers,
            final(self).atm == old(self).atm,
            final(self).wind_layers == old(self).wind_layers,
            final(self).grad_s == old(self).grad_s,
            final(self).grads == old(self).grads,
            final(self).conv == old(self).conv,
            final(self).wind_seeded == old(self).wind_seeded,
    {
        let terrain: Terrain<M, V> = Terrain::generate_with(
            grid,
            num_plates,
            seed,
            plates.sizes,
            &plates.weigh,
            &plates.by,
            &plates.motion,
            &plates.velocity_at,
        );
        let made: Crust = Crust::generate_with(
            grid,
            &terrain,
            seed,
            &crust.noise,
            &crust.tectonics,
            &crust.shore,
            &crust.measure,
            &crust.flood,
        );
        self.terrain = terrain;
        self.crust = made;
        self.recompute_heat_capacity();
    }
}

} // verus!
