//! Continental plates: a partition of the grid into rigid tectonic plates, each carrying a
//! direction of motion.
//!
//! Generation is deterministic from a seed. Plates are grown by a randomized flood fill over the
//! grid adjacency graph: a seed cell per plate is dropped, then a plate is picked with probability
//! proportional to its growth weight and claims one random cell of its frontier, until nothing can
//! grow. The weights, and the arithmetic on them, are the caller's ([`Weighing`]); so are the
//! motions drawn for the plates.

use crate::grid::Grid;
use crate::rng::{mixed, stepped, Rng};
use crate::sim::growth::{
    blank, frontier_total, growing, is_graph, is_walk, joined, kept_up,
    law_no_frontier_means_all_reachable_claimed, law_planting_keeps_plates_contiguous,
    law_rounds_keep_plates_contiguous, lemma_drawn_keeps, lemma_grow_keeps, lemma_grow_progress,
    lemma_kept_contiguous, lemma_kept_shape, open_count, plant_run, round, rounds, seeded, settled,
    Growth, GrowthState, UNASSIGNED,
};
use vstd::prelude::*;

verus! {

/// How plate growth-rate weights are drawn, which sets the shape of the plate-size distribution.
#[derive(Clone, Copy, Debug)]
pub enum SizeModel<R> {
    /// Pareto weights `u^(-1/exponent)`: a power-law tail.
    Pareto(R),
    /// Lognormal weights `exp(sigma*z)`, `z` standard normal: a lighter extreme tail.
    Lognormal(R),
}

/// The uniform draws that one weight is made from, each a numerator out of 2^24.
#[derive(Clone, Copy, Debug)]
pub enum SizeDraw<R> {
    /// One draw, for a Pareto weight.
    Pareto { exponent: R, u: u32 },
    /// Two draws, for the normal sample of a lognormal weight.
    Lognormal { sigma: R, u1: u32, u2: u32 },
}

/// The uniform draws that one plate's motion is made from.
#[derive(Clone, Copy, Debug)]
pub struct PlateDraw {
    /// Height of the Euler pole, out of 2^24.
    pub z: u32,
    /// Azimuth of the Euler pole, out of 2^24.
    pub theta: u32,
    /// Magnitude of the angular speed, out of 2^24.
    pub magnitude: u32,
    /// Spin direction.
    pub forward: bool,
}

/// Numerator, out of 2^24, of the uniform draw made when the state has just become `rng`.
pub open spec fn unit(rng: u64) -> u32 {
    (mixed(rng) >> 40) as u32
}

/// What one weight draw gives, and the state it leaves.
pub open spec fn size_draw<R>(model: SizeModel<R>, rng: u64) -> (SizeDraw<R>, u64) {
    let a = stepped(rng);
    let b = stepped(a);
    match model {
        SizeModel::Pareto(exponent) => (SizeDraw::Pareto { exponent, u: unit(a) }, a),
        SizeModel::Lognormal(sigma) => (SizeDraw::Lognormal { sigma, u1: unit(a), u2: unit(b) }, b),
    }
}

/// The state after `k` weight draws.
pub open spec fn after_sizes<R>(model: SizeModel<R>, rng: u64, k: nat) -> u64
    decreases k,
{
    if k == 0 {
        rng
    } else {
        size_draw(model, after_sizes(model, rng, (k - 1) as nat)).1
    }
}

/// What one motion draw gives, and the state it leaves.
pub open spec fn plate_draw(rng: u64) -> (PlateDraw, u64) {
    let a = stepped(rng);
    let b = stepped(a);
    let c = stepped(b);
    let d = stepped(c);
    (
        PlateDraw {
            z: unit(a),
            theta: unit(b),
            magnitude: unit(c),
            forward: mixed(d) & 1 == 0,
        },
        d,
    )
}

/// The state after `k` motion draws.
pub open spec fn after_plates(rng: u64, k: nat) -> u64
    decreases k,
{
    if k == 0 {
        rng
    } else {
        plate_draw(after_plates(rng, (k - 1) as nat)).1
    }
}

impl<R: Copy> SizeModel<R> {
    /// Draw what the next weight is made from.
    pub fn draw(self, rng: &mut Rng) -> (out: SizeDraw<R>)
        ensures
            (out, final(rng).state()) == size_draw(self, old(rng).state()),
    {
        match self {
            SizeModel::Pareto(exponent) => {
                let u: u32 = rng.unit_draw();
                SizeDraw::Pareto { exponent, u }
            },
            SizeModel::Lognormal(sigma) => {
                let u1: u32 = rng.unit_draw();
                let u2: u32 = rng.unit_draw();
                SizeDraw::Lognormal { sigma, u1, u2 }
            },
        }
    }
}

impl PlateDraw {
    /// Draw what the next plate's motion is made from.
    pub fn draw(rng: &mut Rng) -> (out: Self)
        ensures
            (out, final(rng).state()) == plate_draw(old(rng).state()),
    {
        let z: u32 = rng.unit_draw();
        let theta: u32 = rng.unit_draw();
        let magnitude: u32 = rng.unit_draw();
        let word: u64 = rng.next_u64();
        PlateDraw { z, theta, magnitude, forward: word & 1 == 0 }
    }
}

/// The arithmetic that plates are picked by.
pub struct Weighing<W, F, G, H, Q> {
    /// Where a sum starts.
    pub zero: W,
    /// Sum of two weights.
    pub plus: F,
    /// What is left of the first when the second is taken off.
    pub minus: G,
    /// The given part, out of 2^24, of a weight.
    pub share: H,
    /// The weight is above zero.
    pub positive: Q,
}

impl<W, F, G, H, Q> Weighing<W, F, G, H, Q> where
    F: Fn(W, W) -> W,
    G: Fn(W, W) -> W,
    H: Fn(u32, W) -> W,
    Q: Fn(W) -> bool,
 {
    /// The operations take every weight.
    pub open spec fn total(&self) -> bool {
        &&& forall|a: W, b: W| #[trigger] call_requires(self.plus, (a, b))
        &&& forall|a: W, b: W| #[trigger] call_requires(self.minus, (a, b))
        &&& forall|u: u32, a: W| #[trigger] call_requires(self.share, (u, a))
        &&& forall|a: W| #[trigger] call_requires(self.positive, (a,))
    }

    /// The operations are functions: the same weights give the same result every time.
    pub open spec fn repeatable(&self) -> bool {
        &&& forall|a: W, b: W, x: W, y: W|
            #[trigger] call_ensures(self.plus, (a, b), x) && #[trigger] call_ensures(
                self.plus,
                (a, b),
                y,
            ) ==> x == y
        &&& forall|a: W, b: W, x: W, y: W|
            #[trigger] call_ensures(self.minus, (a, b), x) && #[trigger] call_ensures(
                self.minus,
                (a, b),
                y,
            ) ==> x == y
        &&& forall|u: u32, a: W, x: W, y: W|
            #[trigger] call_ensures(self.share, (u, a), x) && #[trigger] call_ensures(
                self.share,
                (u, a),
                y,
            ) ==> x == y
        &&& forall|a: W|
            !(#[trigger] call_ensures(self.positive, (a,), true) && call_ensures(
                self.positive,
                (a,),
                false,
            ))
    }

    /// `sums` are the running sums of the weights of the first `k` plates, those that cannot grow
    /// adding nothing.
    pub open spec fn are_sums(&self, weights: Seq<W>, mask: Seq<bool>, k: int, sums: Seq<W>) -> bool {
        &&& sums.len() == k + 1
        &&& sums[0] == self.zero
        &&& forall|i: int|
            #![trigger mask[i]]
            0 <= i < k ==> if mask[i] {
                call_ensures(self.plus, (sums[i], weights[i]), sums[i + 1])
            } else {
                sums[i + 1] == sums[i]
            }
    }

    /// `t` is the sum of the weights of the plates that can grow, added up in order.
    pub open spec fn is_sum(&self, weights: Seq<W>, mask: Seq<bool>, t: W) -> bool {
        exists|sums: Seq<W>| #[trigger]
            self.are_sums(weights, mask, mask.len() as int, sums) && sums.last() == t
    }

    /// `rests` are what is left of `target` as the first `k` plates take their weight off it, those
    /// that cannot grow taking nothing and none of the others using it up.
    pub open spec fn are_rests(
        &self,
        weights: Seq<W>,
        mask: Seq<bool>,
        target: W,
        k: int,
        rests: Seq<W>,
    ) -> bool {
        &&& rests.len() == k + 1
        &&& rests[0] == target
        &&& forall|i: int|
            #![trigger mask[i]]
            0 <= i < k ==> if mask[i] {
                call_ensures(self.minus, (rests[i], weights[i]), rests[i + 1]) && call_ensures(
                    self.positive,
                    (rests[i + 1],),
                    true,
                )
            } else {
                rests[i + 1] == rests[i]
            }
    }

    /// `p` is the plate whose weight uses the target up, or, where rounding leaves some of it
    /// after every plate, the last plate that can grow.
    pub open spec fn is_pick(&self, weights: Seq<W>, mask: Seq<bool>, target: W, p: int) -> bool {
        &&& 0 <= p < mask.len()
        &&& mask[p]
        &&& {
            ||| exists|rests: Seq<W>, rest: W|
                {
                    &&& #[trigger] self.are_rests(weights, mask, target, p, rests)
                    &&& #[trigger] call_ensures(self.minus, (rests[p], weights[p]), rest)
                    &&& call_ensures(self.positive, (rest,), false)
                }
            ||| {
                &&& exists|rests: Seq<W>| #[trigger]
                    self.are_rests(weights, mask, target, mask.len() as int, rests)
                &&& forall|q: int| p < q < mask.len() ==> !#[trigger] mask[q]
            }
        }
    }

    /// The plate picked in a round that starts from `st`.
    pub open spec fn is_round(&self, weights: Seq<W>, st: GrowthState, p: int) -> bool {
        exists|t: W, target: W|
            {
                &&& #[trigger] self.is_sum(weights, growing(st), t)
                &&& call_ensures(self.positive, (t,), true)
                &&& #[trigger] call_ensures(self.share, (unit(stepped(st.rng)), t), target)
                &&& self.is_pick(weights, growing(st), target, p)
            }
    }

    /// Growth is over: no plate can grow, or those that can have no weight.
    pub open spec fn is_over(&self, weights: Seq<W>, st: GrowthState) -> bool {
        ||| forall|p: int| 0 <= p < st.frontier.len() ==> (#[trigger] st.frontier[p]).len() == 0
        ||| exists|t: W| #[trigger]
            self.is_sum(weights, growing(st), t) && call_ensures(
                self.positive,
                (t,),
                false,
            )
    }

    /// Sum of the weights of the plates that can grow.
    fn sum(&self, weights: &Vec<W>, mask: &Vec<bool>) -> (t: W) where W: Copy
        requires
            self.total(),
            weights@.len() == mask@.len(),
        ensures
            self.is_sum(weights@, mask@, t),
    {
        let mut t: W = self.zero;
        let mut p: usize = 0;
        let ghost mut sums: Seq<W> = seq![t];
        while p < mask.len()
            invariant
                self.total(),
                p <= mask@.len(),
                weights@.len() == mask@.len(),
                self.are_sums(weights@, mask@, p as int, sums),
                sums.last() == t,
            decreases mask@.len() - p,
        {
            if mask[p] {
                t = (self.plus)(t, weights[p]);
            }
            proof {
                sums = sums.push(t);
            }
            p = p + 1;
        }
        t
    }

    /// The plate that `target` falls on.
    fn pick(&self, weights: &Vec<W>, mask: &Vec<bool>, target: W) -> (chosen: usize) where W: Copy
        requires
            self.total(),
            weights@.len() == mask@.len(),
            exists|p: int| 0 <= p < mask@.len() && #[trigger] mask@[p],
        ensures
            self.is_pick(weights@, mask@, target, chosen as int),
    {
        let mut rest: W = target;
        let mut p: usize = 0;
        let mut last: usize = 0;
        let ghost mut rests: Seq<W> = seq![target];
        while p < mask.len()
            invariant
                self.total(),
                p <= mask@.len(),
                weights@.len() == mask@.len(),
                self.are_rests(weights@, mask@, target, p as int, rests),
                rests.last() == rest,
                forall|q: int| last < q < p ==> !#[trigger] mask@[q],
                (exists|q: int| 0 <= q < p && #[trigger] mask@[q]) ==> last < p && mask@[last as int],
            decreases mask@.len() - p,
        {
            if mask[p] {
                rest = (self.minus)(rest, weights[p]);
                if !(self.positive)(rest) {
                    assert(call_ensures(self.minus, (rests[p as int], weights@[p as int]), rest));
                    return p;
                }
                last = p;
            }
            proof {
                rests = rests.push(rest);
            }
            p = p + 1;
        }
        last
    }
}

/// The tectonic partition of a grid: which plate each cell belongs to, the plates' motions, and
/// the per-cell surface velocity those motions produce.
pub struct Terrain<M, V> {
    /// Plate index per cell (parallel to the grid's cells).
    pub plate_id: Vec<u32>,
    /// The plates' motions, indexed by the ids in `plate_id`.
    pub plates: Vec<M>,
    /// Per-cell tectonic surface velocity.
    pub velocity: Vec<V>,
}

/// How many plates a grid of `n` cells is carved into when `wanted` are asked for.
pub open spec fn plate_count(n: nat, wanted: nat) -> nat {
    if wanted < 1 {
        1
    } else if wanted > n {
        n
    } else {
        wanted
    }
}

/// `weights` are what `weigh` gave for as many weight draws from `rng`.
pub open spec fn are_weights<R, W, E: Fn(SizeDraw<R>) -> W>(
    model: SizeModel<R>,
    weigh: E,
    rng: u64,
    weights: Seq<W>,
) -> bool {
    forall|p: int|
        0 <= p < weights.len() ==> call_ensures(
            weigh,
            (size_draw(model, after_sizes(model, rng, p as nat)).0,),
            #[trigger] weights[p],
        )
}

/// The state that growth starts from once the seeds are planted and the weights are drawn.
pub open spec fn grown_from<R>(model: SizeModel<R>, planted: GrowthState, plates: nat) -> GrowthState {
    GrowthState {
        ids: planted.ids,
        frontier: planted.frontier,
        rng: after_sizes(model, planted.rng, plates),
    }
}

/// `end` is where a whole fill from `seed` ends: `attempts` attempts plant a seed per plate, the
/// weights are drawn, and a round for each of `picks` leads to where growth is over.
#[verifier::opaque]
pub open spec fn is_fill<R, W, E, F, G, H, Q>(
    adj: Seq<Seq<u32>>,
    plates: nat,
    seed: u64,
    model: SizeModel<R>,
    weigh: E,
    by: Weighing<W, F, G, H, Q>,
    attempts: nat,
    weights: Seq<W>,
    picks: Seq<usize>,
    end: GrowthState,
) -> bool where
    E: Fn(SizeDraw<R>) -> W,
    F: Fn(W, W) -> W,
    G: Fn(W, W) -> W,
    H: Fn(u32, W) -> W,
    Q: Fn(W) -> bool,
 {
    let (planted, count) = plant_run(adj, plates, blank(adj.len(), plates, seed), attempts);
    let begin = grown_from(model, planted, plates);
    &&& count == plates
    &&& weights.len() == plates
    &&& are_weights(model, weigh, planted.rng, weights)
    &&& are_rounds(adj, weights, by, begin, picks)
    &&& end == rounds(adj, begin, picks)
    &&& by.is_over(weights, end)
}

/// `motions` are what `motion` gave for as many motion draws from `rng`.
pub open spec fn are_motions<M, E: Fn(PlateDraw) -> M>(motion: E, rng: u64, motions: Seq<M>) -> bool {
    forall|p: int|
        0 <= p < motions.len() ==> call_ensures(
            motion,
            (plate_draw(after_plates(rng, p as nat)).0,),
            #[trigger] motions[p],
        )
}

/// Each cell moves as its plate does at the cell's position.
pub open spec fn are_velocities<M, V, P, E: Fn(M, P) -> V>(
    velocity_at: E,
    plate_id: Seq<u32>,
    plates: Seq<M>,
    centers: Seq<P>,
    velocity: Seq<V>,
) -> bool {
    forall|c: int|
        0 <= c < velocity.len() ==> call_ensures(
            velocity_at,
            (plates[plate_id[c] as int], centers[c]),
            #[trigger] velocity[c],
        )
}

/// Draw a growth weight for each of `plates` plates.
fn draw_weights<R: Copy, W, E: Fn(SizeDraw<R>) -> W>(
    model: SizeModel<R>,
    weigh: &E,
    rng: &mut Rng,
    plates: usize,
) -> (weights: Vec<W>)
    requires
        forall|d: SizeDraw<R>| #[trigger] call_requires(*weigh, (d,)),
    ensures
        weights@.len() == plates,
        are_weights(model, *weigh, old(rng).state(), weights@),
        final(rng).state() == after_sizes(model, old(rng).state(), plates as nat),
{
    let ghost first = rng.state();
    let mut weights: Vec<W> = Vec::new();
    while weights.len() < plates
        invariant
            weights@.len() <= plates,
            forall|d: SizeDraw<R>| #[trigger] call_requires(*weigh, (d,)),
            rng.state() == after_sizes(model, first, weights@.len()),
            are_weights(model, *weigh, first, weights@),
        decreases plates - weights@.len(),
    {
        let ghost prior = weights@;
        let d: SizeDraw<R> = model.draw(rng);
        weights.push(weigh(d));
        assert forall|p: int| 0 <= p < weights@.len() implies call_ensures(
            *weigh,
            (size_draw(model, after_sizes(model, first, p as nat)).0,),
            #[trigger] weights@[p],
        ) by {
            if p < prior.len() {
                assert(weights@[p] == prior[p]);
            }
        }
    }
    weights
}

/// Draw a motion for each of `plates` plates.
fn draw_motions<M, E: Fn(PlateDraw) -> M>(motion: &E, rng: &mut Rng, plates: usize) -> (motions: Vec<M>)
    requires
        forall|d: PlateDraw| #[trigger] call_requires(*motion, (d,)),
    ensures
        motions@.len() == plates,
        are_motions(*motion, old(rng).state(), motions@),
        final(rng).state() == after_plates(old(rng).state(), plates as nat),
{
    let ghost first = rng.state();
    let mut motions: Vec<M> = Vec::new();
    while motions.len() < plates
        invariant
            motions@.len() <= plates,
            forall|d: PlateDraw| #[trigger] call_requires(*motion, (d,)),
            rng.state() == after_plates(first, motions@.len()),
            are_motions(*motion, first, motions@),
        decreases plates - motions@.len(),
    {
        let ghost prior = motions@;
        let d: PlateDraw = PlateDraw::draw(rng);
        motions.push(motion(d));
        assert forall|p: int| 0 <= p < motions@.len() implies call_ensures(
            *motion,
            (plate_draw(after_plates(first, p as nat)).0,),
            #[trigger] motions@[p],
        ) by {
            if p < prior.len() {
                assert(motions@[p] == prior[p]);
            }
        }
    }
    motions
}

/// The surface velocity of each cell, from its plate's motion.
fn cell_velocities<M: Copy, V, P: Copy, E: Fn(M, P) -> V>(
    velocity_at: &E,
    plate_id: &Vec<u32>,
    plates: &Vec<M>,
    centers: &Vec<P>,
) -> (velocity: Vec<V>)
    requires
        forall|m: M, p: P| #[trigger] call_requires(*velocity_at, (m, p)),
        plate_id@.len() == centers@.len(),
        forall|c: int| 0 <= c < plate_id@.len() ==> #[trigger] plate_id@[c] < plates@.len(),
    ensures
        velocity@.len() == centers@.len(),
        are_velocities(*velocity_at, plate_id@, plates@, centers@, velocity@),
{
    let mut velocity: Vec<V> = Vec::new();
    let mut c: usize = 0;
    while c < centers.len()
        invariant
            c <= centers@.len(),
            velocity@.len() == c,
            plate_id@.len() == centers@.len(),
            forall|i: int| 0 <= i < plate_id@.len() ==> #[trigger] plate_id@[i] < plates@.len(),
            forall|m: M, p: P| #[trigger] call_requires(*velocity_at, (m, p)),
            are_velocities(*velocity_at, plate_id@, plates@, centers@, velocity@),
        decreases centers@.len() - c,
    {
        let ghost prior = velocity@;
        velocity.push(velocity_at(plates[plate_id[c] as usize], centers[c]));
        c = c + 1;
        assert forall|i: int| 0 <= i < velocity@.len() implies call_ensures(
            *velocity_at,
            (plates@[plate_id@[i] as int], centers@[i]),
            #[trigger] velocity@[i],
        ) by {
            if i < prior.len() {
                assert(velocity@[i] == prior[i]);
            }
        }
    }
    velocity
}

/// Whether any of the flags is set.
fn any_set(mask: &Vec<bool>) -> (any: bool)
    ensures
        any <==> exists|q: int| 0 <= q < mask@.len() && #[trigger] mask@[q],
{
    let mut p: usize = 0;
    while p < mask.len()
        invariant
            p <= mask@.len(),
            forall|q: int| 0 <= q < p ==> !#[trigger] mask@[q],
        decreases mask@.len() - p,
    {
        if mask[p] {
            return true;
        }
        p = p + 1;
    }
    false
}

/// One round: pick a growing plate with probability proportional to its weight and grow it.
/// Where growth is over nothing changes, and the result is `None`.
fn play_round<P, L, A, W: Copy, F, G, H, Q>(
    grid: &Grid<P, L, A>,
    growth: &mut Growth,
    weights: &Vec<W>,
    by: &Weighing<W, F, G, H, Q>,
    Ghost(seeds): Ghost<Seq<int>>,
) -> (chosen: Option<usize>) where
    F: Fn(W, W) -> W,
    G: Fn(W, W) -> W,
    H: Fn(u32, W) -> W,
    Q: Fn(W) -> bool,

    requires
        grid.wf(),
        by.total(),
        seeds.len() == weights@.len(),
        kept_up(grid.links(), old(growth)@, weights@.len(), seeds),
    ensures
        kept_up(grid.links(), final(growth)@, weights@.len(), seeds),
        match chosen {
            Some(p) => {
                &&& p < weights@.len()
                &&& by.is_round(weights@, old(growth)@, p as int)
                &&& final(growth)@ == round(grid.links(), old(growth)@, p as int)
                &&& open_count(final(growth)@.ids) < open_count(old(growth)@.ids) || (open_count(
                    final(growth)@.ids,
                ) == open_count(old(growth)@.ids) && frontier_total(final(growth)@.frontier)
                    < frontier_total(old(growth)@.frontier))
            },
            None => final(growth)@ == old(growth)@ && by.is_over(weights@, old(growth)@),
        },
{
    let ghost before = growth@;
    let ghost adj = grid.links();
    let ghost plates = weights@.len();
    proof {
        lemma_kept_shape(adj, before, plates, seeds);
    }
    assert(before.ids.len() == growth.plate_id@.len());
    assert(before.frontier.len() == growth.frontier@.len());
    let mask: Vec<bool> = growth.growing();
    if !any_set(&mask) {
        assert forall|q: int| 0 <= q < before.frontier.len() implies (#[trigger] before.frontier[q]).len()
            == 0 by {
            assert(!mask@[q]);
        }
        return None;
    }
    let sum: W = by.sum(weights, &mask);
    if !(by.positive)(sum) {
        return None;
    }
    let u: u32 = growth.rng.unit_draw();
    let target: W = (by.share)(u, sum);
    let chosen: usize = by.pick(weights, &mask, target);
    let ghost drawn = GrowthState {
        ids: before.ids,
        frontier: before.frontier,
        rng: stepped(before.rng),
    };
    proof {
        assert(growth@ =~= drawn);
        lemma_drawn_keeps(adj, before, plates, seeds, stepped(before.rng));
        assert(mask@[chosen as int]);
        assert(before.frontier[chosen as int].len() > 0);
        assert(drawn.frontier[chosen as int] == growth.frontier@[chosen as int]@);
        assert(growth.frontier@[chosen as int].len() <= usize::MAX);
        lemma_grow_progress(adj, drawn, plates, seeds, chosen as int);
        lemma_grow_keeps(adj, drawn, plates, seeds, chosen as int);
        assert forall|k: int| 0 <= k < growth.frontier@[chosen as int]@.len() implies (
        #[trigger] growth.frontier@[chosen as int]@[k]) < grid.n by {
            assert(drawn.frontier[chosen as int][k] < adj.len());
        }
        assert(by.is_sum(weights@, growing(before), sum));
        assert(by.is_pick(weights@, growing(before), target, chosen as int));
        assert(call_ensures(by.share, (unit(stepped(before.rng)), sum), target));
    }
    growth.grow_plate(grid, chosen);
    Some(chosen)
}

/// Each of `picks` is the plate that its round picks, from `begin` on.
pub open spec fn are_rounds<W, F, G, H, Q>(
    adj: Seq<Seq<u32>>,
    weights: Seq<W>,
    by: Weighing<W, F, G, H, Q>,
    begin: GrowthState,
    picks: Seq<usize>,
) -> bool where F: Fn(W, W) -> W, G: Fn(W, W) -> W, H: Fn(u32, W) -> W, Q: Fn(W) -> bool {
    forall|m: int|
        0 <= m < picks.len() ==> #[trigger] picks[m] < weights.len() && by.is_round(
            weights,
            rounds(adj, begin, picks.take(m)),
            picks[m] as int,
        )
}

/// Grow until no plate can.
fn grow_all<P, L, A, W: Copy, F, G, H, Q>(
    grid: &Grid<P, L, A>,
    growth: &mut Growth,
    weights: &Vec<W>,
    by: &Weighing<W, F, G, H, Q>,
    Ghost(seeds): Ghost<Seq<int>>,
) where F: Fn(W, W) -> W, G: Fn(W, W) -> W, H: Fn(u32, W) -> W, Q: Fn(W) -> bool
    requires
        grid.wf(),
        by.total(),
        seeds.len() == weights@.len(),
        kept_up(grid.links(), old(growth)@, weights@.len(), seeds),
    ensures
        kept_up(grid.links(), final(growth)@, weights@.len(), seeds),
        by.is_over(weights@, final(growth)@),
        exists|picks: Seq<usize>|
            final(growth)@ == rounds(grid.links(), old(growth)@, picks) && #[trigger] are_rounds(
                grid.links(),
                weights@,
                *by,
                old(growth)@,
                picks,
            ),
{
    let ghost begin = growth@;
    let ghost adj = grid.links();
    let ghost mut picks: Seq<usize> = Seq::empty();
    loop
        invariant
            grid.wf(),
            adj == grid.links(),
            by.total(),
            seeds.len() == weights@.len(),
            growth@ == rounds(adj, begin, picks),
            kept_up(adj, growth@, weights@.len(), seeds),
            are_rounds(adj, weights@, *by, begin, picks),
        ensures
            by.is_over(weights@, growth@),
        decreases open_count(growth@.ids), frontier_total(growth@.frontier),
    {
        match play_round(grid, growth, weights, by, Ghost(seeds)) {
            None => {
                break ;
            },
            Some(chosen) => {
                proof {
                    let longer = picks.push(chosen);
                    assert(longer.drop_last() == picks);
                    assert forall|m: int| 0 <= m < longer.len() implies #[trigger] longer[m]
                        < weights@.len() && by.is_round(
                        weights@,
                        rounds(adj, begin, longer.take(m)),
                        longer[m] as int,
                    ) by {
                        if m < picks.len() {
                            assert(longer.take(m) == picks.take(m));
                            assert(longer[m] == picks[m]);
                        } else {
                            assert(longer.take(m) == picks);
                        }
                    }
                    picks = longer;
                }
            },
        }
    }
}

/// The whole fill: plant a seed per plate, draw the weights, and grow until no plate can. Gives the
/// partition and the generator as the fill leaves it.
fn partition<P, L, A, R: Copy, W: Copy, E, F, G, H, Q>(
    grid: &Grid<P, L, A>,
    plates: usize,
    seed: u64,
    model: SizeModel<R>,
    weigh: &E,
    by: &Weighing<W, F, G, H, Q>,
) -> (out: (Vec<u32>, Rng)) where
    E: Fn(SizeDraw<R>) -> W,
    F: Fn(W, W) -> W,
    G: Fn(W, W) -> W,
    H: Fn(u32, W) -> W,
    Q: Fn(W) -> bool,

    requires
        grid.wf(),
        0 < plates <= grid.n,
        by.total(),
        forall|d: SizeDraw<R>| #[trigger] call_requires(*weigh, (d,)),
    ensures
        out.0@.len() == grid.n,
        forall|c: int| 0 <= c < grid.n ==> #[trigger] out.0@[c] < plates,
        forall|p: u32| p < plates ==> #[trigger] out.0@.contains(p),
        exists|attempts: nat, weights: Seq<W>, picks: Seq<usize>, end: GrowthState|
            {
                &&& #[trigger] is_fill(
                    grid.links(),
                    plates as nat,
                    seed,
                    model,
                    *weigh,
                    *by,
                    attempts,
                    weights,
                    picks,
                    end,
                )
                &&& out.0@ == settled(end.ids)
                &&& out.1.state() == end.rng
            },
{
    let n: usize = grid.n;
    let ghost adj = grid.links();
    proof {
        grid.lemma_links();
    }

    // Plant one distinct seed cell per plate.
    let mut growth: Growth = Growth::plant(grid, plates, Rng::new(seed));
    let ghost first = blank(n as nat, plates as nat, seed);
    let ghost planted = growth@;
    let ghost attempts = choose|attempts: nat| #[trigger]
        plant_run(adj, plates as nat, first, attempts) == (planted, plates as nat);
    proof {
        law_planting_keeps_plates_contiguous(adj, plates as nat, seed, attempts);
    }
    let ghost seeds = choose|seeds: Seq<int>|
        seeds.len() == plates && #[trigger] kept_up(adj, planted, plates as nat, seeds);

    let weights: Vec<W> = draw_weights(model, weigh, &mut growth.rng, plates);
    let ghost begin = grown_from(model, planted, plates as nat);
    assert(growth@ =~= begin);
    proof {
        lemma_drawn_keeps(adj, planted, plates as nat, seeds, begin.rng);
    }

    // Grow until every reachable cell is claimed.
    grow_all(grid, &mut growth, &weights, by, Ghost(seeds));
    let ghost end = growth@;
    let ghost picks = choose|picks: Seq<usize>|
        end == rounds(adj, begin, picks) && #[trigger] are_rounds(adj, weights@, *by, begin, picks);
    assert(is_fill(adj, plates as nat, seed, model, *weigh, *by, attempts, weights@, picks, end)) by {
        reveal(is_fill);
    }
    let plate_id: Vec<u32> = growth.settle();
    proof {
        lemma_kept_shape(adj, end, plates as nat, seeds);
        assert forall|c: int| 0 <= c < n implies #[trigger] plate_id@[c] < plates by {
            assert(end.ids[c] == UNASSIGNED || end.ids[c] < plates);
        }
        assert forall|p: u32| p < plates implies #[trigger] plate_id@.contains(p) by {
            let c = seeds[p as int];
            assert(end.ids[c] == p);
            assert(plate_id@[c] == p);
        }
    }
    let rng: Rng = growth.rng;
    (plate_id, rng)
}

impl<W, F, G, H, Q> Weighing<W, F, G, H, Q> where
    F: Fn(W, W) -> W,
    G: Fn(W, W) -> W,
    H: Fn(u32, W) -> W,
    Q: Fn(W) -> bool,
 {
    proof fn lemma_sums_agree(&self, weights: Seq<W>, mask: Seq<bool>, k: int, x: Seq<W>, y: Seq<W>, i: int)
        requires
            self.repeatable(),
            0 <= i <= k <= mask.len(),
            self.are_sums(weights, mask, k, x),
            self.are_sums(weights, mask, k, y),
        ensures
            x[i] == y[i],
        decreases i,
    {
        if i > 0 {
            self.lemma_sums_agree(weights, mask, k, x, y, i - 1);
            let on = mask[i - 1];
        }
    }

    proof fn lemma_rests_agree(
        &self,
        weights: Seq<W>,
        mask: Seq<bool>,
        target: W,
        j: int,
        k: int,
        x: Seq<W>,
        y: Seq<W>,
        i: int,
    )
        requires
            self.repeatable(),
            0 <= i <= j,
            i <= k,
            j <= mask.len(),
            k <= mask.len(),
            self.are_rests(weights, mask, target, j, x),
            self.are_rests(weights, mask, target, k, y),
        ensures
            x[i] == y[i],
        decreases i,
    {
        if i > 0 {
            self.lemma_rests_agree(weights, mask, target, j, k, x, y, i - 1);
            let on = mask[i - 1];
        }
    }

    /// No plate behind one that uses the target up is picked.
    proof fn lemma_pick_is_first(&self, weights: Seq<W>, mask: Seq<bool>, target: W, p: int, q: int)
        requires
            self.repeatable(),
            self.is_pick(weights, mask, target, p),
            self.is_pick(weights, mask, target, q),
        ensures
            p >= q,
    {
        if p < q {
            assert(mask[q]);
            // Plate `p` uses the target up: the other choice leaves no plate after `p` that can grow.
            let (rests, rest) = choose|rests: Seq<W>, rest: W|
                {
                    &&& #[trigger] self.are_rests(weights, mask, target, p, rests)
                    &&& #[trigger] call_ensures(self.minus, (rests[p], weights[p]), rest)
                    &&& call_ensures(self.positive, (rest,), false)
                };
            let (k, later) = if exists|rests: Seq<W>, rest: W|
                {
                    &&& #[trigger] self.are_rests(weights, mask, target, q, rests)
                    &&& #[trigger] call_ensures(self.minus, (rests[q], weights[q]), rest)
                    &&& call_ensures(self.positive, (rest,), false)
                } {
                let (later, last) = choose|rests: Seq<W>, rest: W|
                    {
                        &&& #[trigger] self.are_rests(weights, mask, target, q, rests)
                        &&& #[trigger] call_ensures(self.minus, (rests[q], weights[q]), rest)
                        &&& call_ensures(self.positive, (rest,), false)
                    };
                (q, later)
            } else {
                (
                    mask.len() as int,
                    choose|rests: Seq<W>| #[trigger]
                        self.are_rests(weights, mask, target, mask.len() as int, rests),
                )
            };
            assert(self.are_rests(weights, mask, target, k, later));
            self.lemma_rests_agree(weights, mask, target, p, k, rests, later, p);
            assert(mask[p]);
            assert(call_ensures(self.minus, (later[p], weights[p]), later[p + 1]));
            assert(later[p + 1] == rest);
        }
    }

    /// A round picks one plate only.
    proof fn lemma_round_is_one(&self, weights: Seq<W>, st: GrowthState, p: int, q: int)
        requires
            self.repeatable(),
            self.is_round(weights, st, p),
            self.is_round(weights, st, q),
        ensures
            p == q,
    {
        let mask = growing(st);
        let u = unit(stepped(st.rng));
        let (t, target) = choose|t: W, target: W|
            {
                &&& #[trigger] self.is_sum(weights, mask, t)
                &&& call_ensures(self.positive, (t,), true)
                &&& #[trigger] call_ensures(self.share, (u, t), target)
                &&& self.is_pick(weights, mask, target, p)
            };
        let (s, other) = choose|t: W, target: W|
            {
                &&& #[trigger] self.is_sum(weights, mask, t)
                &&& call_ensures(self.positive, (t,), true)
                &&& #[trigger] call_ensures(self.share, (u, t), target)
                &&& self.is_pick(weights, mask, target, q)
            };
        self.lemma_sum_is_one(weights, mask, s, t);
        assert(other == target);
        self.lemma_pick_is_first(weights, mask, target, p, q);
        self.lemma_pick_is_first(weights, mask, target, q, p);
    }

    proof fn lemma_sum_is_one(&self, weights: Seq<W>, mask: Seq<bool>, s: W, t: W)
        requires
            self.repeatable(),
            self.is_sum(weights, mask, s),
            self.is_sum(weights, mask, t),
        ensures
            s == t,
    {
        let k = mask.len() as int;
        let x = choose|sums: Seq<W>| #[trigger] self.are_sums(weights, mask, k, sums) && sums.last() == s;
        let y = choose|sums: Seq<W>| #[trigger] self.are_sums(weights, mask, k, sums) && sums.last() == t;
        self.lemma_sums_agree(weights, mask, k, x, y, k);
    }

    /// Where growth is over, no round is played.
    proof fn lemma_over_means_no_round(&self, weights: Seq<W>, st: GrowthState, p: int)
        requires
            self.repeatable(),
            self.is_over(weights, st),
        ensures
            !self.is_round(weights, st, p),
    {
        if self.is_round(weights, st, p) {
            let mask = growing(st);
            let (t, target) = choose|t: W, target: W|
                {
                    &&& #[trigger] self.is_sum(weights, mask, t)
                    &&& call_ensures(self.positive, (t,), true)
                    &&& #[trigger] call_ensures(self.share, (unit(stepped(st.rng)), t), target)
                    &&& self.is_pick(weights, mask, target, p)
                };
            assert(mask[p] && st.frontier[p].len() > 0);
            let s = choose|t: W| #[trigger]
                self.is_sum(weights, mask, t) && call_ensures(self.positive, (t,), false);
            self.lemma_sum_is_one(weights, mask, s, t);
        }
    }

    /// Two sequences of rounds from one state pick the same plates as far as both go.
    proof fn lemma_rounds_agree(
        &self,
        adj: Seq<Seq<u32>>,
        weights: Seq<W>,
        begin: GrowthState,
        x: Seq<usize>,
        y: Seq<usize>,
        m: int,
    )
        requires
            self.repeatable(),
            are_rounds(adj, weights, *self, begin, x),
            are_rounds(adj, weights, *self, begin, y),
            0 <= m <= x.len(),
            m <= y.len(),
        ensures
            x.take(m) == y.take(m),
        decreases m,
    {
        if m > 0 {
            self.lemma_rounds_agree(adj, weights, begin, x, y, m - 1);
            let st = rounds(adj, begin, x.take(m - 1));
            let p = x[m - 1];
            let q = y[m - 1];
            self.lemma_round_is_one(weights, st, p as int, q as int);
            assert(x.take(m) =~= x.take(m - 1).push(p));
            assert(y.take(m) =~= y.take(m - 1).push(q));
        } else {
            assert(x.take(0) =~= y.take(0));
        }
    }
}

/// Once every plate is planted, further attempts change nothing.
proof fn lemma_planted_stays(adj: Seq<Seq<u32>>, plates: nat, st: GrowthState, a: nat, b: nat)
    requires
        a <= b,
        plant_run(adj, plates, st, a).1 == plates,
    ensures
        plant_run(adj, plates, st, b) == plant_run(adj, plates, st, a),
    decreases b - a,
{
    if a < b {
        lemma_planted_stays(adj, plates, st, a, (b - 1) as nat);
    }
}

/// Plates are deterministic from a seed: where the weights and the arithmetic on them are
/// functions, two fills of one grid from one seed end alike.
pub proof fn law_a_seed_fixes_the_fill<R, W, E, F, G, H, Q>(
    adj: Seq<Seq<u32>>,
    plates: nat,
    seed: u64,
    model: SizeModel<R>,
    weigh: E,
    by: Weighing<W, F, G, H, Q>,
    first: (nat, Seq<W>, Seq<usize>, GrowthState),
    second: (nat, Seq<W>, Seq<usize>, GrowthState),
) where
    E: Fn(SizeDraw<R>) -> W,
    F: Fn(W, W) -> W,
    G: Fn(W, W) -> W,
    H: Fn(u32, W) -> W,
    Q: Fn(W) -> bool,

    requires
        by.repeatable(),
        forall|d: SizeDraw<R>, x: W, y: W|
            #[trigger] call_ensures(weigh, (d,), x) && #[trigger] call_ensures(weigh, (d,), y) ==> x
                == y,
        is_fill(adj, plates, seed, model, weigh, by, first.0, first.1, first.2, first.3),
        is_fill(adj, plates, seed, model, weigh, by, second.0, second.1, second.2, second.3),
    ensures
        first.1 == second.1,
        first.2 == second.2,
        first.3 == second.3,
{
    reveal(is_fill);
    let start = blank(adj.len(), plates, seed);
    if first.0 <= second.0 {
        lemma_planted_stays(adj, plates, start, first.0, second.0);
    } else {
        lemma_planted_stays(adj, plates, start, second.0, first.0);
    }
    let planted = plant_run(adj, plates, start, first.0).0;
    let begin = grown_from(model, planted, plates);
    assert forall|p: int| 0 <= p < plates implies first.1[p] == second.1[p] by {
        let d = size_draw(model, after_sizes(model, planted.rng, p as nat)).0;
        assert(call_ensures(weigh, (d,), first.1[p]));
        assert(call_ensures(weigh, (d,), second.1[p]));
    }
    assert(first.1 =~= second.1);
    let x = first.2;
    let y = second.2;
    let m = if x.len() <= y.len() { x.len() as int } else { y.len() as int };
    by.lemma_rounds_agree(adj, first.1, begin, x, y, m);
    if m < x.len() {
        assert(y.take(m) =~= y);
        assert(x[m] < first.1.len());
        by.lemma_over_means_no_round(first.1, second.3, x[m] as int);
    }
    if m < y.len() {
        assert(x.take(m) =~= x);
        assert(y[m] < first.1.len());
        by.lemma_over_means_no_round(first.1, first.3, y[m] as int);
    }
    assert(x.take(m) =~= x);
    assert(y.take(m) =~= y);
}

/// Where the motions and the velocities they impart are functions, a fill fixes them too: the
/// plates of one partition, drawn from one state, move alike.
pub proof fn law_a_fill_fixes_the_motions<M, V, P, S, T>(
    motion: S,
    velocity_at: T,
    rng: u64,
    plate_id: Seq<u32>,
    centers: Seq<P>,
    first: (Seq<M>, Seq<V>),
    second: (Seq<M>, Seq<V>),
) where S: Fn(PlateDraw) -> M, T: Fn(M, P) -> V
    requires
        forall|d: PlateDraw, x: M, y: M|
            #[trigger] call_ensures(motion, (d,), x) && #[trigger] call_ensures(motion, (d,), y) ==> x
                == y,
        forall|m: M, p: P, x: V, y: V|
            #[trigger] call_ensures(velocity_at, (m, p), x) && #[trigger] call_ensures(
                velocity_at,
                (m, p),
                y,
            ) ==> x == y,
        first.0.len() == second.0.len(),
        first.1.len() == second.1.len(),
        are_motions(motion, rng, first.0),
        are_motions(motion, rng, second.0),
        are_velocities(velocity_at, plate_id, first.0, centers, first.1),
        are_velocities(velocity_at, plate_id, second.0, centers, second.1),
    ensures
        first == second,
{
    assert forall|p: int| 0 <= p < first.0.len() implies first.0[p] == second.0[p] by {
        let d = plate_draw(after_plates(rng, p as nat)).0;
        assert(call_ensures(motion, (d,), first.0[p]));
        assert(call_ensures(motion, (d,), second.0[p]));
    }
    assert(first.0 =~= second.0);
    assert forall|c: int| 0 <= c < first.1.len() implies first.1[c] == second.1[c] by {
        let m = first.0[plate_id[c] as int];
        assert(call_ensures(velocity_at, (m, centers[c]), first.1[c]));
        assert(call_ensures(velocity_at, (m, centers[c]), second.1[c]));
    }
    assert(first.1 =~= second.1);
}

/// Some walk along edges leads from `a` to `b`.
pub open spec fn walkable(adj: Seq<Seq<u32>>, a: int, b: int) -> bool {
    exists|walk: Seq<int>| #[trigger] is_walk(adj, walk, a, b)
}

/// Every cell can be reached from every other.
pub open spec fn connected(adj: Seq<Seq<u32>>) -> bool {
    forall|a: int, b: int|
        0 <= a < adj.len() && 0 <= b < adj.len() ==> #[trigger] walkable(adj, a, b)
}

impl<W, F, G, H, Q> Weighing<W, F, G, H, Q> where
    F: Fn(W, W) -> W,
    G: Fn(W, W) -> W,
    H: Fn(u32, W) -> W,
    Q: Fn(W) -> bool,
 {
    /// Weights of which `weighs` holds are above zero, and so is what they add up to.
    pub open spec fn adds_weight(&self, weighs: spec_fn(W) -> bool) -> bool {
        &&& forall|a: W, b: W, c: W| #[trigger]
            call_ensures(self.plus, (a, b), c) && (a == self.zero || weighs(a)) && weighs(b) ==> weighs(
                c,
            )
        &&& forall|a: W| weighs(a) ==> !#[trigger] call_ensures(self.positive, (a,), false)
    }

    /// Where a plate can grow, the weights of those that can add up to something.
    proof fn lemma_sums_weigh(
        &self,
        weighs: spec_fn(W) -> bool,
        weights: Seq<W>,
        mask: Seq<bool>,
        sums: Seq<W>,
        k: int,
    )
        requires
            self.adds_weight(weighs),
            weights.len() == mask.len(),
            forall|p: int| 0 <= p < weights.len() ==> weighs(#[trigger] weights[p]),
            self.are_sums(weights, mask, mask.len() as int, sums),
            0 <= k <= mask.len(),
        ensures
            sums[k] == self.zero || weighs(sums[k]),
            (exists|p: int| 0 <= p < k && #[trigger] mask[p]) ==> weighs(sums[k]),
        decreases k,
    {
        if k > 0 {
            self.lemma_sums_weigh(weighs, weights, mask, sums, k - 1);
            let on = mask[k - 1];
            assert(weighs(weights[k - 1]));
            if on {
                assert(call_ensures(self.plus, (sums[k - 1], weights[k - 1]), sums[k - 1 + 1]));
            } else if exists|p: int| 0 <= p < k && #[trigger] mask[p] {
                let p = choose|p: int| 0 <= p < k && #[trigger] mask[p];
                assert(0 <= p < k - 1 && mask[p]);
            }
        }
    }

    /// Growth by weights above zero is over only when no plate can grow.
    pub proof fn law_growth_ends_without_frontier(
        &self,
        weighs: spec_fn(W) -> bool,
        weights: Seq<W>,
        st: GrowthState,
    )
        requires
            self.adds_weight(weighs),
            weights.len() == st.frontier.len(),
            forall|p: int| 0 <= p < weights.len() ==> weighs(#[trigger] weights[p]),
            self.is_over(weights, st),
        ensures
            forall|p: int| 0 <= p < st.frontier.len() ==> (#[trigger] st.frontier[p]).len() == 0,
    {
        let mask = growing(st);
        if !(forall|p: int| 0 <= p < st.frontier.len() ==> (#[trigger] st.frontier[p]).len() == 0) {
            let p = choose|p: int| 0 <= p < st.frontier.len() && (#[trigger] st.frontier[p]).len() != 0;
            assert(mask[p]);
            let t = choose|t: W| #[trigger]
                self.is_sum(weights, mask, t) && call_ensures(self.positive, (t,), false);
            let sums = choose|sums: Seq<W>| #[trigger]
                self.are_sums(weights, mask, mask.len() as int, sums) && sums.last() == t;
            self.lemma_sums_weigh(weighs, weights, mask, sums, mask.len() as int);
        }
    }
}

/// On a connected grid a fill by weights above zero leaves no stray: every cell was claimed by a
/// plate that borders it, so each plate is one contiguous piece around its seed.
pub proof fn law_plates_are_contiguous<R, W, E, F, G, H, Q>(
    adj: Seq<Seq<u32>>,
    plates: nat,
    seed: u64,
    model: SizeModel<R>,
    weigh: E,
    by: Weighing<W, F, G, H, Q>,
    attempts: nat,
    weights: Seq<W>,
    picks: Seq<usize>,
    end: GrowthState,
    weighs: spec_fn(W) -> bool,
) where
    E: Fn(SizeDraw<R>) -> W,
    F: Fn(W, W) -> W,
    G: Fn(W, W) -> W,
    H: Fn(u32, W) -> W,
    Q: Fn(W) -> bool,

    requires
        is_graph(adj),
        connected(adj),
        0 < plates <= adj.len() <= u32::MAX,
        is_fill(adj, plates, seed, model, weigh, by, attempts, weights, picks, end),
        by.adds_weight(weighs),
        forall|p: int| 0 <= p < weights.len() ==> weighs(#[trigger] weights[p]),
    ensures
        settled(end.ids) == end.ids,
        exists|seeds: Seq<int>|
            {
                &&& seeds.len() == plates
                &&& #[trigger] seeded(end, seeds)
                &&& forall|c: int|
                    0 <= c < end.ids.len() ==> (#[trigger] end.ids[c]) < plates && joined(
                        adj,
                        end.ids,
                        seeds[end.ids[c] as int],
                        c,
                    )
            },
{
    reveal(is_fill);
    law_planting_keeps_plates_contiguous(adj, plates, seed, attempts);
    let planted = plant_run(adj, plates, blank(adj.len(), plates, seed), attempts).0;
    let begin = grown_from(model, planted, plates);
    let seeds = choose|seeds: Seq<int>|
        seeds.len() == plates && #[trigger] kept_up(adj, planted, plates, seeds);
    lemma_drawn_keeps(adj, planted, plates, seeds, begin.rng);
    assert(forall|m: int| 0 <= m < picks.len() ==> #[trigger] picks[m] < weights.len());
    law_rounds_keep_plates_contiguous(adj, begin, plates, seeds, picks);
    lemma_kept_shape(adj, end, plates, seeds);
    lemma_kept_contiguous(adj, end, plates, seeds);
    by.law_growth_ends_without_frontier(weighs, weights, end);
    let s = seeds[0];
    assert(end.ids[s] == 0);
    assert forall|c: int| 0 <= c < end.ids.len() implies #[trigger] end.ids[c] != UNASSIGNED by {
        assert(walkable(adj, s, c));
        let walk = choose|walk: Seq<int>| #[trigger] is_walk(adj, walk, s, c);
        law_no_frontier_means_all_reachable_claimed(adj, end, plates, seeds, walk, s, c);
    }
    assert(settled(end.ids) =~= end.ids);
}

impl<M: Copy, V> Terrain<M, V> {
    /// An empty terrain (no plates), used before generation.
    pub fn empty() -> (terrain: Self)
        ensures
            terrain.plate_id@.len() == 0,
            terrain.plates@.len() == 0,
            terrain.velocity@.len() == 0,
    {
        Terrain { plate_id: Vec::new(), plates: Vec::new(), velocity: Vec::new() }
    }

    /// Partition `grid` into `num_plates` plates (at least one, at most one per cell) by randomized
    /// weighted flood fill, give each plate a motion, and precompute the per-cell surface velocity.
    /// Deterministic in `seed` as far as the operations handed in are.
    pub fn generate_with<P: Copy, L, A, R: Copy, W: Copy, E, F, G, H, Q, S, T>(
        grid: &Grid<P, L, A>,
        num_plates: usize,
        seed: u64,
        model: SizeModel<R>,
        weigh: &E,
        by: &Weighing<W, F, G, H, Q>,
        motion: &S,
        velocity_at: &T,
    ) -> (terrain: Self) where
        E: Fn(SizeDraw<R>) -> W,
        F: Fn(W, W) -> W,
        G: Fn(W, W) -> W,
        H: Fn(u32, W) -> W,
        Q: Fn(W) -> bool,
        S: Fn(PlateDraw) -> M,
        T: Fn(M, P) -> V,

        requires
            grid.wf(),
            grid.n > 0,
            by.total(),
            forall|d: SizeDraw<R>| #[trigger] call_requires(*weigh, (d,)),
            forall|d: PlateDraw| #[trigger] call_requires(*motion, (d,)),
            forall|m: M, p: P| #[trigger] call_requires(*velocity_at, (m, p)),
        ensures
            terrain.plates@.len() == plate_count(grid.n as nat, num_plates as nat),
            terrain.plate_id@.len() == grid.n,
            terrain.velocity@.len() == grid.n,
            forall|c: int|
                0 <= c < grid.n ==> #[trigger] terrain.plate_id@[c] < terrain.plates@.len(),
            forall|p: u32| p < terrain.plates@.len() ==> #[trigger] terrain.plate_id@.contains(p),
            exists|attempts: nat, weights: Seq<W>, picks: Seq<usize>, end: GrowthState|
                {
                    &&& #[trigger] is_fill(
                        grid.links(),
                        terrain.plates@.len(),
                        seed,
                        model,
                        *weigh,
                        *by,
                        attempts,
                        weights,
                        picks,
                        end,
                    )
                    &&& terrain.plate_id@ == settled(end.ids)
                    &&& are_motions(*motion, end.rng, terrain.plates@)
                },
            are_velocities(
                *velocity_at,
                terrain.plate_id@,
                terrain.plates@,
                grid.centers@,
                terrain.velocity@,
            ),
    {
        let n: usize = grid.n;
        let plates: usize = if num_plates < 1 {
            1
        } else if num_plates > n {
            n
        } else {
            num_plates
        };
        let (plate_id, mut rng) = partition(grid, plates, seed, model, weigh, by);
        let ghost filled = rng.state();
        // Give each plate a motion, and each cell the velocity that follows from it.
        let motions: Vec<M> = draw_motions(motion, &mut rng, plates);
        let velocity: Vec<V> = cell_velocities(velocity_at, &plate_id, &motions, &grid.centers);
        let terrain = Terrain { plate_id, plates: motions, velocity };
        proof {
            let (attempts, weights, picks, end) = choose|
                attempts: nat,
                weights: Seq<W>,
                picks: Seq<usize>,
                end: GrowthState,
            |
                {
                    &&& #[trigger] is_fill(
                        grid.links(),
                        plates as nat,
                        seed,
                        model,
                        *weigh,
                        *by,
                        attempts,
                        weights,
                        picks,
                        end,
                    )
                    &&& terrain.plate_id@ == settled(end.ids)
                    &&& filled == end.rng
                };
            assert(terrain.plates@.len() == plates as nat);
            assert(are_motions(*motion, end.rng, terrain.plates@));
            assert(terrain.plate_id@ == settled(end.ids));
            assert(is_fill(
                grid.links(),
                terrain.plates@.len(),
                seed,
                model,
                *weigh,
                *by,
                attempts,
                weights,
                picks,
                end,
            ));
        }
        terrain
    }
}

} // verus!
