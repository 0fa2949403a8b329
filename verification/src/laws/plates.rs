//! Plates: how often a plate is picked to grow, which cell it then takes, and how its cells move.

use crate::grid::Grid;
use crate::laws::crust::words;
use crate::rng::{mixed, stepped};
use crate::sim::geology::PlateModel;
use crate::sim::growth::{
    blank, claim, grow, growing, open_cells, plant_attempt, plant_run, round, rounds, settled, swap_removed, GrowthState,
    UNASSIGNED,
};
use crate::sim::terrain::{
    after_plates, after_sizes, are_motions, are_weights, grown_from, is_fill, plate_draw, size_draw, unit, PlateDraw, SizeDraw, SizeModel,
    Terrain, Weighing,
};
use vstd::prelude::*;

verus! {

/// What the first `k` plates that can still grow weigh together.
pub open spec fn weight_of<W>(val: spec_fn(W) -> int, weights: Seq<W>, frontier: Seq<Seq<u32>>, k: nat) -> int
    decreases k,
{
    if k == 0 {
        0
    } else {
        weight_of(val, weights, frontier, (k - 1) as nat) + if frontier[k - 1].len() > 0 {
            val(weights[k - 1])
        } else {
            0
        }
    }
}

/// Weights that are positive add up.
proof fn lemma_weight_rises<W>(
    val: spec_fn(W) -> int,
    weights: Seq<W>,
    frontier: Seq<Seq<u32>>,
    j: nat,
    k: nat,
)
    requires
        j <= k <= frontier.len(),
        forall|q: int|
            0 <= q < frontier.len() && (#[trigger] frontier[q]).len() > 0 ==> val(weights[q]) > 0,
    ensures
        weight_of(val, weights, frontier, j) <= weight_of(val, weights, frontier, k),
        (exists|q: int| j <= q < k && (#[trigger] frontier[q]).len() > 0) ==> weight_of(
            val,
            weights,
            frontier,
            j,
        ) < weight_of(val, weights, frontier, k),
    decreases k - j,
{
    if j < k {
        lemma_weight_rises(val, weights, frontier, j, (k - 1) as nat);
        let last = frontier[k - 1];
        if exists|q: int| j <= q < k && (#[trigger] frontier[q]).len() > 0 {
            let q = choose|q: int| j <= q < k && (#[trigger] frontier[q]).len() > 0;
            assert(frontier[q].len() > 0);
        }
    }
}

impl<W, F, G, H, Q> Weighing<W, F, G, H, Q> where
    F: Fn(W, W) -> W,
    G: Fn(W, W) -> W,
    H: Fn(u32, W) -> W,
    Q: Fn(W) -> bool,
 {
    /// The arithmetic is exact for the values `val` of weights; shares are counted in 2^24.
    pub open spec fn weighs_exactly(&self, val: spec_fn(W) -> int) -> bool {
        &&& val(self.zero) == 0
        &&& forall|a: W, b: W, c: W| #[trigger]
            call_ensures(self.plus, (a, b), c) ==> val(c) == val(a) + val(b)
        &&& forall|a: W, b: W, c: W| #[trigger]
            call_ensures(self.minus, (a, b), c) ==> val(c) == val(a) - val(b)
        &&& forall|u: u32, a: W, c: W| #[trigger]
            call_ensures(self.share, (u, a), c) ==> val(c) * 0x100_0000 == u * val(a)
        &&& forall|a: W| #[trigger] call_ensures(self.positive, (a,), true) ==> val(a) > 0
        &&& forall|a: W| #[trigger] call_ensures(self.positive, (a,), false) ==> val(a) <= 0
    }

    /// A plate is picked as often as it weighs: where weights add up exactly, the plate that a round
    /// picks is the one on whose part of the growing plates' weight the draw falls, out of 2^24, when
    /// their weights are laid end to end. So of all draws, a part as large as its weight falls on it.
    pub proof fn law_plates_are_picked_by_weight(
        &self,
        val: spec_fn(W) -> int,
        weights: Seq<W>,
        st: GrowthState,
        p: int,
    )
        requires
            self.weighs_exactly(val),
            weights.len() == st.frontier.len(),
            forall|q: int|
                0 <= q < st.frontier.len() && (#[trigger] st.frontier[q]).len() > 0 ==> val(weights[q]) > 0,
            self.is_round(weights, st, p),
        ensures
            0 <= p < st.frontier.len(),
            st.frontier[p].len() > 0,
            ({
                let u = mixed(stepped(st.rng)) >> 40;
                let all = weight_of(val, weights, st.frontier, st.frontier.len());
                let before = weight_of(val, weights, st.frontier, p as nat);
                &&& u * all <= 0x100_0000 * (before + val(weights[p]))
                &&& before > 0 ==> 0x100_0000 * before < u * all
            }),
    {
        let mask = growing(st);
        let n = mask.len() as int;
        let u = unit(stepped(st.rng));
        let z = mixed(stepped(st.rng));
        assert(z >> 40 < 0x100_0000) by (bit_vector);
        let (t, target) = choose|t: W, target: W|
            {
                &&& #[trigger] self.is_sum(weights, mask, t)
                &&& call_ensures(self.positive, (t,), true)
                &&& #[trigger] call_ensures(self.share, (u, t), target)
                &&& self.is_pick(weights, mask, target, p)
            };
        let sums = choose|sums: Seq<W>| #[trigger] self.are_sums(weights, mask, n, sums) && sums.last() == t;
        self.lemma_sums(val, weights, st, sums, n, n);
        let all = weight_of(val, weights, st.frontier, st.frontier.len());
        let before = weight_of(val, weights, st.frontier, p as nat);
        assert(val(t) == all);
        assert(mask[p]);
        if exists|rests: Seq<W>, rest: W|
            {
                &&& #[trigger] self.are_rests(weights, mask, target, p, rests)
                &&& #[trigger] call_ensures(self.minus, (rests[p], weights[p]), rest)
                &&& call_ensures(self.positive, (rest,), false)
            } {
            let (rests, rest) = choose|rests: Seq<W>, rest: W|
                {
                    &&& #[trigger] self.are_rests(weights, mask, target, p, rests)
                    &&& #[trigger] call_ensures(self.minus, (rests[p], weights[p]), rest)
                    &&& call_ensures(self.positive, (rest,), false)
                };
            self.lemma_rests(val, weights, st, target, rests, p, p);
        } else {
            let rests = choose|rests: Seq<W>| #[trigger] self.are_rests(weights, mask, target, n, rests);
            self.lemma_rests(val, weights, st, target, rests, n, n);
            lemma_weight_rises(val, weights, st.frontier, 0, n as nat);
            assert(st.frontier[p].len() > 0);
            assert(val(target) * 0x100_0000 == u * all);
            assert(u * all < 0x100_0000 * all) by (nonlinear_arith)
                requires
                    u < 0x100_0000,
                    all > 0,
            ;
        }
    }

    proof fn lemma_sums(&self, val: spec_fn(W) -> int, weights: Seq<W>, st: GrowthState, sums: Seq<W>, n: int, k: int)
        requires
            self.weighs_exactly(val),
            self.are_sums(weights, growing(st), n, sums),
            0 <= k <= n == st.frontier.len(),
        ensures
            val(sums[k]) == weight_of(val, weights, st.frontier, k as nat),
        decreases k,
    {
        if k > 0 {
            self.lemma_sums(val, weights, st, sums, n, k - 1);
            let grows = growing(st)[k - 1];
            assert(sums[k - 1 + 1] == sums[k]);
        }
    }

    proof fn lemma_rests(
        &self,
        val: spec_fn(W) -> int,
        weights: Seq<W>,
        st: GrowthState,
        target: W,
        rests: Seq<W>,
        n: int,
        k: int,
    )
        requires
            self.weighs_exactly(val),
            self.are_rests(weights, growing(st), target, n, rests),
            0 <= k <= n <= st.frontier.len(),
        ensures
            val(rests[k]) == val(target) - weight_of(val, weights, st.frontier, k as nat),
            (exists|q: int| 0 <= q < k && (#[trigger] st.frontier[q]).len() > 0) ==> val(rests[k]) > 0,
            !(exists|q: int| 0 <= q < k && (#[trigger] st.frontier[q]).len() > 0) ==> weight_of(
                val,
                weights,
                st.frontier,
                k as nat,
            ) == 0,
        decreases k,
    {
        if k > 0 {
            self.lemma_rests(val, weights, st, target, rests, n, k - 1);
            let grows = growing(st)[k - 1];
            assert(rests[k - 1 + 1] == rests[k]);
            if exists|q: int| 0 <= q < k && (#[trigger] st.frontier[q]).len() > 0 {
                if !grows {
                    let q = choose|q: int| 0 <= q < k && (#[trigger] st.frontier[q]).len() > 0;
                    assert(st.frontier[q].len() > 0);
                }
            } else {
                assert(!(st.frontier[k - 1].len() > 0));
                if exists|q: int| 0 <= q < k - 1 && (#[trigger] st.frontier[q]).len() > 0 {
                    let q = choose|q: int| 0 <= q < k - 1 && (#[trigger] st.frontier[q]).len() > 0;
                    assert(st.frontier[q].len() > 0);
                }
            }
        }
    }
}

/// A round takes one cell off the frontier of the plate that grows: the word after the one that picked
/// the plate names it, by its remainder, and if it is unclaimed the plate has it. No other plate's
/// frontier changes, and the plate's own loses the cell and gains the cell's unclaimed neighbors.
pub proof fn law_a_round_claims_the_cell_drawn(adj: Seq<Seq<u32>>, st: GrowthState, p: int)
    requires
        0 <= p < st.frontier.len(),
        0 < st.frontier[p].len() <= u32::MAX,
    ensures
        ({
            let list = st.frontier[p];
            let k = (mixed(stepped(stepped(st.rng))) % (list.len() as u64)) as int;
            let after = round(adj, st, p);
            st.ids[list[k] as int] == UNASSIGNED ==> {
                &&& after.ids == st.ids.update(list[k] as int, p as u32)
                &&& after.rng == stepped(stepped(st.rng))
                &&& forall|q: int|
                    0 <= q < st.frontier.len() && q != p ==> #[trigger] after.frontier[q] == st.frontier[q]
                &&& after.frontier[p] == list.update(k, list.last()).drop_last() + open_cells(
                    after.ids,
                    adj[list[k] as int],
                )
            }
        }),
{
    let list = st.frontier[p];
    let begin = GrowthState { ids: st.ids, frontier: st.frontier, rng: stepped(st.rng) };
    let rng = stepped(begin.rng);
    let k = (mixed(rng) % (list.len() as u64)) as int;
    assert(0 <= k < list.len());
    assert(round(adj, st, p) == grow(adj, begin, p));
    let taken = GrowthState {
        ids: st.ids,
        frontier: st.frontier.update(p, swap_removed(list, k)),
        rng,
    };
    if st.ids[list[k] as int] == UNASSIGNED {
        assert(grow(adj, begin, p) == claim(adj, taken, p, list[k] as int));
    }
}

/// `after` comes of `st` by plate `p` taking one unclaimed cell of `list`, or, where there is none, by
/// running dry.
pub open spec fn grows_by_one(st: GrowthState, p: int, after: GrowthState, list: Seq<u32>) -> bool {
    ||| exists|c: u32| #[trigger]
        list.contains(c) && st.ids[c as int] == UNASSIGNED && after.ids == st.ids.update(c as int, p as u32)
    ||| {
        &&& after.ids == st.ids
        &&& after.frontier[p].len() == 0
        &&& forall|c: u32| #[trigger] list.contains(c) ==> st.ids[c as int] != UNASSIGNED
    }
}

proof fn lemma_grow(adj: Seq<Seq<u32>>, st: GrowthState, p: int)
    requires
        0 <= p < st.frontier.len(),
        st.frontier[p].len() <= u64::MAX,
    ensures
        grows_by_one(st, p, grow(adj, st, p), st.frontier[p]),
    decreases st.frontier[p].len(),
{
    let list = st.frontier[p];
    let after = grow(adj, st, p);
    if list.len() > 0 {
        let rng = stepped(st.rng);
        let k = (mixed(rng) % (list.len() as u64)) as int;
        assert(0 <= k < list.len());
        let left = swap_removed(list, k);
        let taken = GrowthState { ids: st.ids, frontier: st.frontier.update(p, left), rng };
        assert(list.contains(list[k]));
        if st.ids[list[k] as int] == UNASSIGNED {
            assert(after == claim(adj, taken, p, list[k] as int));
        } else {
            assert(after == grow(adj, taken, p));
            lemma_grow(adj, taken, p);
            lemma_swap_removed(list, k);
            if exists|c: u32| #[trigger]
                left.contains(c) && st.ids[c as int] == UNASSIGNED && after.ids == st.ids.update(
                    c as int,
                    p as u32,
                ) {
                let c = choose|c: u32| #[trigger]
                    left.contains(c) && st.ids[c as int] == UNASSIGNED && after.ids == st.ids.update(
                        c as int,
                        p as u32,
                    );
                assert(list.contains(c));
            } else {
                assert forall|c: u32| #[trigger] list.contains(c) implies st.ids[c as int] != UNASSIGNED by {
                    if c != list[k] {
                        assert(left.contains(c));
                    }
                }
            }
        }
    }
}

proof fn lemma_swap_removed(list: Seq<u32>, k: int)
    requires
        0 <= k < list.len(),
    ensures
        forall|c: u32| #[trigger] swap_removed(list, k).contains(c) ==> list.contains(c),
        forall|c: u32| #[trigger] list.contains(c) && c != list[k] ==> swap_removed(list, k).contains(c),
{
    let left = swap_removed(list, k);
    assert forall|c: u32| #[trigger] left.contains(c) implies list.contains(c) by {
        let a = left.index_of(c);
        if a == k {
            assert(list[list.len() - 1] == c);
        } else {
            assert(list[a] == c);
        }
    }
    assert forall|c: u32| #[trigger] list.contains(c) && c != list[k] implies left.contains(c) by {
        let a = list.index_of(c);
        if a == list.len() - 1 {
            assert(left[k] == c);
        } else {
            assert(left[a] == c);
        }
    }
}

/// A round grows its plate by one cell: whatever is drawn, the plate ends up with one cell of its frontier
/// that was unclaimed, unless there is none, and then its frontier has run dry; no other cell changes
/// hands.
pub proof fn law_a_round_grows_a_plate_by_one(adj: Seq<Seq<u32>>, st: GrowthState, p: int)
    requires
        0 <= p < st.frontier.len(),
        st.frontier[p].len() <= u64::MAX,
    ensures
        grows_by_one(st, p, round(adj, st, p), st.frontier[p]),
{
    let begin = GrowthState { ids: st.ids, frontier: st.frontier, rng: stepped(st.rng) };
    lemma_grow(adj, begin, p);
}

/// The cells that join a frontier are those of a list that nobody has claimed: all of them and no
/// others.
pub proof fn law_a_frontier_gains_the_unclaimed(ids: Seq<u32>, cells: Seq<u32>, c: u32)
    ensures
        open_cells(ids, cells).contains(c) <==> cells.contains(c) && ids[c as int] == UNASSIGNED,
    decreases cells.len(),
{
    if cells.len() > 0 {
        let less = cells.drop_last();
        law_a_frontier_gains_the_unclaimed(ids, less, c);
        assert(cells.last() == cells[cells.len() - 1]);
        let before = open_cells(ids, less);
        let after = open_cells(ids, cells);
        if less.contains(c) {
            let a = less.index_of(c);
            assert(cells[a] == c);
        }
        if cells.contains(c) && c != cells.last() {
            let a = cells.index_of(c);
            assert(less[a] == c);
        }
        if before.contains(c) {
            let a = before.index_of(c);
            assert(after[a] == c);
        }
        if c == cells.last() && ids[c as int] == UNASSIGNED {
            assert(after[before.len() as int] == c);
        }
        if after.contains(c) && !before.contains(c) {
            let a = after.index_of(c);
            if a < before.len() {
                assert(before[a] == c);
            }
        }
    }
}

proof fn lemma_after_plates(rng: u64, k: nat)
    ensures
        after_plates(rng, k) == words(rng, 4 * k),
    decreases k,
{
    if k > 0 {
        lemma_after_plates(rng, (k - 1) as nat);
        let j = (4 * (k - 1)) as nat;
        assert(words(rng, j + 1) == stepped(words(rng, j)));
        assert(words(rng, j + 2) == stepped(words(rng, j + 1)));
        assert(words(rng, j + 3) == stepped(words(rng, j + 2)));
        assert(words(rng, j + 4) == stepped(words(rng, j + 3)));
    }
}

/// The motions of plates take four words each: the height and the angle of the pole, how fast, and
/// which way round.
pub proof fn law_a_motion_takes_four_words<M, E: Fn(PlateDraw) -> M>(motion: E, rng: u64, motions: Seq<M>, p: int)
    requires
        are_motions(motion, rng, motions),
        0 <= p < motions.len(),
    ensures
        call_ensures(
            motion,
            (
                PlateDraw {
                    z: (mixed(words(rng, (4 * p + 1) as nat)) >> 40) as u32,
                    theta: (mixed(words(rng, (4 * p + 2) as nat)) >> 40) as u32,
                    magnitude: (mixed(words(rng, (4 * p + 3) as nat)) >> 40) as u32,
                    forward: mixed(words(rng, (4 * p + 4) as nat)) & 1 == 0,
                },
            ),
            motions[p],
        ),
{
    lemma_after_plates(rng, p as nat);
    let j = (4 * p) as nat;
    assert(words(rng, j + 1) == stepped(words(rng, j)));
    assert(words(rng, j + 2) == stepped(words(rng, j + 1)));
    assert(words(rng, j + 3) == stepped(words(rng, j + 2)));
    assert(words(rng, j + 4) == stepped(words(rng, j + 3)));
    assert(call_ensures(motion, (plate_draw(after_plates(rng, p as nat)).0,), motions[p]));
}

proof fn lemma_after_sizes<R>(model: SizeModel<R>, rng: u64, k: nat)
    ensures
        model is Pareto ==> after_sizes(model, rng, k) == words(rng, k),
        model is Lognormal ==> after_sizes(model, rng, k) == words(rng, 2 * k),
    decreases k,
{
    if k > 0 {
        lemma_after_sizes(model, rng, (k - 1) as nat);
        let j = (2 * (k - 1)) as nat;
        assert(words(rng, j + 1) == stepped(words(rng, j)));
        assert(words(rng, j + 2) == stepped(words(rng, j + 1)));
    }
}

/// The weight of a plate takes one word under a power law and two under a lognormal one, each plate its
/// own.
pub proof fn law_a_weight_takes_its_own_words<R, W, E: Fn(SizeDraw<R>) -> W>(
    model: SizeModel<R>,
    weigh: E,
    rng: u64,
    weights: Seq<W>,
    p: int,
)
    requires
        are_weights(model, weigh, rng, weights),
        0 <= p < weights.len(),
    ensures
        call_ensures(
            weigh,
            (
                match model {
                    SizeModel::Pareto(exponent) => SizeDraw::Pareto {
                        exponent,
                        u: (mixed(words(rng, (p + 1) as nat)) >> 40) as u32,
                    },
                    SizeModel::Lognormal(sigma) => SizeDraw::Lognormal {
                        sigma,
                        u1: (mixed(words(rng, (2 * p + 1) as nat)) >> 40) as u32,
                        u2: (mixed(words(rng, (2 * p + 2) as nat)) >> 40) as u32,
                    },
                },
            ),
            weights[p],
        ),
{
    lemma_after_sizes(model, rng, p as nat);
    let j = (2 * p) as nat;
    assert(words(rng, j + 1) == stepped(words(rng, j)));
    assert(words(rng, j + 2) == stepped(words(rng, j + 1)));
    assert(words(rng, (p + 1) as nat) == stepped(words(rng, p as nat)));
    assert(call_ensures(weigh, (size_draw(model, after_sizes(model, rng, p as nat)).0,), weights[p]));
}

/// An attempt at planting draws one word, whose remainder names a cell: unclaimed, it becomes the seed of
/// the next plate, and its unclaimed neighbors that plate's frontier; claimed, nothing else happens.
pub proof fn law_a_seed_falls_where_the_word_names(
    adj: Seq<Seq<u32>>,
    plates: nat,
    st: GrowthState,
    planted: nat,
)
    requires
        planted < plates == st.frontier.len(),
        0 < st.ids.len() <= u32::MAX,
    ensures
        ({
            let c = (mixed(stepped(st.rng)) % (st.ids.len() as u64)) as int;
            let (after, count) = plant_attempt(adj, plates, st, planted);
            &&& after.rng == stepped(st.rng)
            &&& st.ids[c] == UNASSIGNED ==> {
                &&& count == planted + 1
                &&& after.ids == st.ids.update(c, planted as u32)
                &&& after.frontier == st.frontier.update(
                    planted as int,
                    st.frontier[planted as int] + open_cells(after.ids, adj[c]),
                )
            }
            &&& st.ids[c] != UNASSIGNED ==> count == planted && after.ids == st.ids && after.frontier
                == st.frontier
        }),
{
}

proof fn lemma_planting_draws(adj: Seq<Seq<u32>>, plates: nat, seed: u64, st: GrowthState, attempts: nat) -> (k: nat)
    requires
        st.rng == seed,
    ensures
        k <= attempts,
        plant_run(adj, plates, st, attempts).0.rng == words(seed, k),
    decreases attempts,
{
    if attempts == 0 {
        0
    } else {
        let j = lemma_planting_draws(adj, plates, seed, st, (attempts - 1) as nat);
        let (before, planted) = plant_run(adj, plates, st, (attempts - 1) as nat);
        assert(words(seed, j + 1) == stepped(words(seed, j)));
        if planted >= plates {
            j
        } else {
            j + 1
        }
    }
}

/// A fill draws its weights after its seeds, and picks its first plate after its weights: the words go
/// on where the one left off.
pub proof fn law_a_fill_plants_then_weighs_then_grows<R, W, E, F, G, H, Q>(
    adj: Seq<Seq<u32>>,
    plates: nat,
    seed: u64,
    model: SizeModel<R>,
    weigh: E,
    by: Weighing<W, F, G, H, Q>,
    attempts: nat,
    weights: Seq<W>,
    picks: Seq<usize>,
    end: GrowthState,
) -> (made: (nat, GrowthState)) where
    E: Fn(SizeDraw<R>) -> W,
    F: Fn(W, W) -> W,
    G: Fn(W, W) -> W,
    H: Fn(u32, W) -> W,
    Q: Fn(W) -> bool,

    requires
        is_fill(adj, plates, seed, model, weigh, by, attempts, weights, picks, end),
    ensures
        made.0 <= attempts,
        weights.len() == plates,
        are_weights(model, weigh, words(seed, made.0), weights),
        model is Pareto ==> made.1.rng == words(seed, made.0 + plates),
        model is Lognormal ==> made.1.rng == words(seed, made.0 + 2 * plates),
        picks.len() > 0 ==> by.is_round(weights, made.1, picks[0] as int),
        end == rounds(adj, made.1, picks),
        by.is_over(weights, end),
{
    reveal(is_fill);
    let start = blank(adj.len(), plates, seed);
    let k = lemma_planting_draws(adj, plates, seed, start, attempts);
    let planted = plant_run(adj, plates, start, attempts).0;
    let begin = grown_from(model, planted, plates);
    lemma_after_sizes(model, words(seed, k), plates);
    lemma_words_go_on(seed, k, plates);
    lemma_words_go_on(seed, k, 2 * plates);
    if picks.len() > 0 {
        assert(picks[0] < weights.len());
        assert(picks.take(0) =~= Seq::<usize>::empty());
        assert(rounds(adj, begin, picks.take(0)) == begin);
    }
    (k, begin)
}

proof fn lemma_words_go_on(seed: u64, j: nat, k: nat)
    ensures
        words(words(seed, j), k) == words(seed, j + k),
    decreases k,
{
    if k > 0 {
        lemma_words_go_on(seed, j, (k - 1) as nat);
    }
}

impl<R, W, E, F, G, H, Q, X, Y> PlateModel<R, W, E, F, G, H, Q, X, Y> {
    /// Plates are rigid: every cell moves as the motion of its own plate has it at the cell's own place.
    pub proof fn law_cells_move_with_their_plate<P, L, A, M, V>(
        &self,
        grid: &Grid<P, L, A>,
        num_plates: usize,
        seed: u64,
        terrain: &Terrain<M, V>,
        c: int,
    ) where
        E: Fn(SizeDraw<R>) -> W,
        F: Fn(W, W) -> W,
        G: Fn(W, W) -> W,
        H: Fn(u32, W) -> W,
        Q: Fn(W) -> bool,
        X: Fn(PlateDraw) -> M,
        Y: Fn(M, P) -> V,

        requires
            self.makes(grid, num_plates, seed, terrain),
            0 <= c < grid.n,
        ensures
            call_ensures(
                self.velocity_at,
                (terrain.plates@[terrain.plate_id@[c] as int], grid.centers@[c]),
                terrain.velocity@[c],
            ),
            1 <= terrain.plates@.len(),
            num_plates <= grid.n && num_plates >= 1 ==> terrain.plates@.len() == num_plates,
            num_plates > grid.n ==> terrain.plates@.len() == grid.n,
    {
        assert(call_ensures(
            self.velocity_at,
            (terrain.plates@[terrain.plate_id@[c] as int], grid.centers@[c]),
            terrain.velocity@[c],
        ));
    }

    /// Plates get their motions after the fill: the words that they take go on where the fill left off.
    pub proof fn law_motions_follow_the_fill<P, L, A, M, V>(
        &self,
        grid: &Grid<P, L, A>,
        num_plates: usize,
        seed: u64,
        terrain: &Terrain<M, V>,
    ) -> (end: GrowthState) where
        E: Fn(SizeDraw<R>) -> W,
        F: Fn(W, W) -> W,
        G: Fn(W, W) -> W,
        H: Fn(u32, W) -> W,
        Q: Fn(W) -> bool,
        X: Fn(PlateDraw) -> M,
        Y: Fn(M, P) -> V,

        requires
            self.makes(grid, num_plates, seed, terrain),
        ensures
            exists|attempts: nat, weights: Seq<W>, picks: Seq<usize>| #[trigger]
                is_fill(
                    grid.links(),
                    terrain.plates@.len(),
                    seed,
                    self.sizes,
                    self.weigh,
                    self.by,
                    attempts,
                    weights,
                    picks,
                    end,
                ),
            forall|c: int|
                0 <= c < terrain.plate_id@.len() ==> #[trigger] terrain.plate_id@[c] == if end.ids[c]
                    == UNASSIGNED {
                    0
                } else {
                    end.ids[c]
                },
            forall|p: int|
                0 <= p < terrain.plates@.len() ==> call_ensures(
                    self.motion,
                    (
                        PlateDraw {
                            z: (mixed(words(end.rng, (4 * p + 1) as nat)) >> 40) as u32,
                            theta: (mixed(words(end.rng, (4 * p + 2) as nat)) >> 40) as u32,
                            magnitude: (mixed(words(end.rng, (4 * p + 3) as nat)) >> 40) as u32,
                            forward: mixed(words(end.rng, (4 * p + 4) as nat)) & 1 == 0,
                        },
                    ),
                    #[trigger] terrain.plates@[p],
                ),
    {
        let (attempts, weights, picks, end) = choose|
            attempts: nat,
            weights: Seq<W>,
            picks: Seq<usize>,
            end: GrowthState,
        |
            {
                &&& #[trigger] is_fill(
                    grid.links(),
                    terrain.plates@.len(),
                    seed,
                    self.sizes,
                    self.weigh,
                    self.by,
                    attempts,
                    weights,
                    picks,
                    end,
                )
                &&& terrain.plate_id@ == settled(end.ids)
                &&& are_motions(self.motion, end.rng, terrain.plates@)
            };
        assert forall|p: int| 0 <= p < terrain.plates@.len() implies call_ensures(
            self.motion,
            (
                PlateDraw {
                    z: (mixed(words(end.rng, (4 * p + 1) as nat)) >> 40) as u32,
                    theta: (mixed(words(end.rng, (4 * p + 2) as nat)) >> 40) as u32,
                    magnitude: (mixed(words(end.rng, (4 * p + 3) as nat)) >> 40) as u32,
                    forward: mixed(words(end.rng, (4 * p + 4) as nat)) & 1 == 0,
                },
            ),
            #[trigger] terrain.plates@[p],
        ) by {
            law_a_motion_takes_four_words(self.motion, end.rng, terrain.plates@, p);
        }
        end
    }
}

} // verus!
