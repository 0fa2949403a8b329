//! Randomized flood fill: growing plates over an adjacency graph, one cell at a time.
//!
//! The fill is described by [`GrowthState`] and the functions that advance it; [`Growth`] is the
//! structure that runs them. The laws at the end say what every fill keeps, whatever plates are
//! picked and whatever is drawn.

use crate::grid::Grid;
use crate::rng::{draws_until, lemma_draw_countdown, mixed, stepped, Rng};
use vstd::prelude::*;

verus! {

/// Mark of a cell that no plate has claimed yet.
pub const UNASSIGNED: u32 = u32::MAX;

/// How far a fill has got: the plate of each cell, each plate's frontier of cells to claim next
/// (stale entries included), and the state of the generator.
#[verifier::ext_equal]
pub struct GrowthState {
    pub ids: Seq<u32>,
    pub frontier: Seq<Seq<u32>>,
    pub rng: u64,
}

/// Nothing claimed, no frontier.
pub open spec fn blank(n: nat, plates: nat, rng: u64) -> GrowthState {
    GrowthState {
        ids: Seq::new(n, |c: int| UNASSIGNED),
        frontier: Seq::new(plates, |p: int| Seq::<u32>::empty()),
        rng,
    }
}

/// The cells of `cells` that are still unclaimed, in their order.
pub open spec fn open_cells(ids: Seq<u32>, cells: Seq<u32>) -> Seq<u32>
    decreases cells.len(),
{
    if cells.len() == 0 {
        Seq::empty()
    } else if ids[cells.last() as int] == UNASSIGNED {
        open_cells(ids, cells.drop_last()).push(cells.last())
    } else {
        open_cells(ids, cells.drop_last())
    }
}

/// Plate `p` claims `cell`: its unclaimed neighbors join the plate's frontier.
pub open spec fn claim(adj: Seq<Seq<u32>>, st: GrowthState, p: int, cell: int) -> GrowthState {
    let ids = st.ids.update(cell, p as u32);
    GrowthState {
        ids,
        frontier: st.frontier.update(p, st.frontier[p] + open_cells(ids, adj[cell])),
        rng: st.rng,
    }
}

/// One attempt at planting the next seed: draw a cell, and claim it if it is unclaimed. Nothing
/// happens once all `plates` are planted.
pub open spec fn plant_attempt(
    adj: Seq<Seq<u32>>,
    plates: nat,
    st: GrowthState,
    planted: nat,
) -> (GrowthState, nat) {
    if planted >= plates {
        (st, planted)
    } else {
        let rng = stepped(st.rng);
        let cell = (mixed(rng) % (st.ids.len() as u64)) as int;
        let drawn = GrowthState { ids: st.ids, frontier: st.frontier, rng };
        if st.ids[cell] == UNASSIGNED {
            (claim(adj, drawn, planted as int, cell), planted + 1)
        } else {
            (drawn, planted)
        }
    }
}

/// The state, and how many plates are planted, after `attempts` attempts.
pub open spec fn plant_run(
    adj: Seq<Seq<u32>>,
    plates: nat,
    st: GrowthState,
    attempts: nat,
) -> (GrowthState, nat)
    decreases attempts,
{
    if attempts == 0 {
        (st, 0)
    } else {
        let (before, planted) = plant_run(adj, plates, st, (attempts - 1) as nat);
        plant_attempt(adj, plates, before, planted)
    }
}

/// `list` without its `k`-th entry, whose place the last entry takes.
pub open spec fn swap_removed(list: Seq<u32>, k: int) -> Seq<u32> {
    list.update(k, list.last()).drop_last()
}

/// Plate `p` grows by one cell: frontier cells are drawn and taken out until one is unclaimed,
/// which the plate then claims, or until the frontier has run dry.
pub open spec fn grow(adj: Seq<Seq<u32>>, st: GrowthState, p: int) -> GrowthState
    decreases st.frontier[p].len(),
    when 0 <= p < st.frontier.len()
{
    let list = st.frontier[p];
    if list.len() == 0 {
        st
    } else {
        let rng = stepped(st.rng);
        let k = (mixed(rng) % (list.len() as u64)) as int;
        if 0 <= k < list.len() {
            let cell = list[k] as int;
            let taken = GrowthState {
                ids: st.ids,
                frontier: st.frontier.update(p, swap_removed(list, k)),
                rng,
            };
            if st.ids[cell] == UNASSIGNED {
                claim(adj, taken, p, cell)
            } else {
                grow(adj, taken, p)
            }
        } else {
            st
        }
    }
}

/// One round of growth: the word that picks the plate is drawn, then plate `p` grows.
pub open spec fn round(adj: Seq<Seq<u32>>, st: GrowthState, p: int) -> GrowthState {
    grow(adj, GrowthState { ids: st.ids, frontier: st.frontier, rng: stepped(st.rng) }, p)
}

/// The state after a round for each of `picks` in turn.
pub open spec fn rounds(adj: Seq<Seq<u32>>, st: GrowthState, picks: Seq<usize>) -> GrowthState
    decreases picks.len(),
{
    if picks.len() == 0 {
        st
    } else {
        round(adj, rounds(adj, st, picks.drop_last()), picks.last() as int)
    }
}

/// Plates that can still grow.
pub open spec fn growing(st: GrowthState) -> Seq<bool> {
    Seq::new(st.frontier.len(), |p: int| st.frontier[p].len() > 0)
}

/// The partition with every unclaimed stray given to plate 0.
pub open spec fn settled(ids: Seq<u32>) -> Seq<u32> {
    Seq::new(
        ids.len(),
        |c: int|
            if ids[c] == UNASSIGNED {
                0u32
            } else {
                ids[c]
            },
    )
}

/// `b` is listed as a neighbor of `a`.
pub open spec fn edge(adj: Seq<Seq<u32>>, a: int, b: int) -> bool {
    0 <= a < adj.len() && exists|k: int| 0 <= k < adj[a].len() && #[trigger] adj[a][k] == b
}

/// Every listed neighbor is a cell.
pub open spec fn is_graph(adj: Seq<Seq<u32>>) -> bool {
    forall|a: int, k: int|
        0 <= a < adj.len() && 0 <= k < adj[a].len() ==> (#[trigger] adj[a][k]) < adj.len()
}

/// `path` walks along edges from `from` to `to` without leaving `from`'s plate.
pub open spec fn is_path(adj: Seq<Seq<u32>>, ids: Seq<u32>, path: Seq<int>, from: int, to: int) -> bool {
    &&& path.len() > 0
    &&& path[0] == from
    &&& path.last() == to
    &&& forall|i: int| 0 <= i < path.len() ==> 0 <= #[trigger] path[i] < ids.len() && ids[path[i]] == ids[from]
    &&& forall|i: int| 0 <= i < path.len() - 1 ==> edge(adj, #[trigger] path[i], path[i + 1])
}

/// `to` can be reached from `from` inside one plate.
pub open spec fn joined(adj: Seq<Seq<u32>>, ids: Seq<u32>, from: int, to: int) -> bool {
    exists|path: Seq<int>| is_path(adj, ids, path, from, to)
}

/// Sizes and index ranges of a fill of `plates` plates.
pub open spec fn shaped(adj: Seq<Seq<u32>>, st: GrowthState, plates: nat) -> bool {
    &&& is_graph(adj)
    &&& st.ids.len() == adj.len()
    &&& adj.len() <= u32::MAX
    &&& plates <= adj.len()
    &&& st.frontier.len() == plates
    &&& forall|c: int|
        0 <= c < st.ids.len() ==> #[trigger] st.ids[c] == UNASSIGNED || st.ids[c] < plates
    &&& forall|p: int, k: int|
        0 <= p < plates && 0 <= k < st.frontier[p].len() ==> (#[trigger] st.frontier[p][k]) < adj.len()
}

/// Each plate planted so far holds its seed.
pub open spec fn seeded(st: GrowthState, seeds: Seq<int>) -> bool {
    forall|p: int|
        0 <= p < seeds.len() ==> 0 <= #[trigger] seeds[p] < st.ids.len() && st.ids[seeds[p]] == p
}

/// Every claimed cell can be reached from its plate's seed inside the plate.
pub open spec fn contiguous(adj: Seq<Seq<u32>>, st: GrowthState, seeds: Seq<int>) -> bool {
    forall|c: int|
        0 <= c < st.ids.len() && #[trigger] st.ids[c] != UNASSIGNED ==> st.ids[c] < seeds.len()
            && joined(adj, st.ids, seeds[st.ids[c] as int], c)
}

/// Every frontier cell borders its plate.
pub open spec fn bordering(adj: Seq<Seq<u32>>, st: GrowthState) -> bool {
    forall|p: int, k: int|
        0 <= p < st.frontier.len() && 0 <= k < st.frontier[p].len() ==> touches(
            adj,
            st.ids,
            p,
            #[trigger] st.frontier[p][k] as int,
        )
}

/// A cell of plate `p` lists `b` as a neighbor.
pub open spec fn touches(adj: Seq<Seq<u32>>, ids: Seq<u32>, p: int, b: int) -> bool {
    exists|a: int| 0 <= a < ids.len() && ids[a] == p && #[trigger] edge(adj, a, b)
}

/// Every unclaimed cell that borders a claimed one, but for `skip`, is on that plate's frontier.
pub open spec fn covered(adj: Seq<Seq<u32>>, st: GrowthState, skip: int) -> bool {
    forall|a: int, b: int|
        #![trigger edge(adj, a, b)]
        0 <= a < st.ids.len() && st.ids[a] != UNASSIGNED && edge(adj, a, b) && 0 <= b < st.ids.len()
            && st.ids[b] == UNASSIGNED && b != skip ==> st.frontier[st.ids[a] as int].contains(b as u32)
}

/// What every fill keeps.
#[verifier::opaque]
pub open spec fn kept_up(adj: Seq<Seq<u32>>, st: GrowthState, plates: nat, seeds: Seq<int>) -> bool {
    &&& shaped(adj, st, plates)
    &&& seeds.len() <= plates
    &&& seeded(st, seeds)
    &&& contiguous(adj, st, seeds)
    &&& bordering(adj, st)
    &&& covered(adj, st, -1)
}

/// What is kept fixes the sizes and the seeds.
pub proof fn lemma_kept_shape(adj: Seq<Seq<u32>>, st: GrowthState, plates: nat, seeds: Seq<int>)
    requires
        kept_up(adj, st, plates, seeds),
    ensures
        shaped(adj, st, plates),
        seeded(st, seeds),
{
    reveal(kept_up);
}

/// What is kept holds each plate together.
pub proof fn lemma_kept_contiguous(adj: Seq<Seq<u32>>, st: GrowthState, plates: nat, seeds: Seq<int>)
    requires
        kept_up(adj, st, plates, seeds),
    ensures
        contiguous(adj, st, seeds),
{
    reveal(kept_up);
}

/// Drawing a word changes nothing of what a fill keeps.
pub proof fn lemma_drawn_keeps(adj: Seq<Seq<u32>>, st: GrowthState, plates: nat, seeds: Seq<int>, rng: u64)
    requires
        kept_up(adj, st, plates, seeds),
    ensures
        kept_up(adj, GrowthState { ids: st.ids, frontier: st.frontier, rng }, plates, seeds),
{
    reveal(kept_up);
}

proof fn lemma_open_cells(ids: Seq<u32>, cells: Seq<u32>, b: u32)
    ensures
        open_cells(ids, cells).contains(b) <==> cells.contains(b) && ids[b as int] == UNASSIGNED,
        open_cells(ids, cells).len() <= cells.len(),
    decreases cells.len(),
{
    if cells.len() > 0 {
        let less = cells.drop_last();
        lemma_open_cells(ids, less, b);
        let shorter = open_cells(ids, less);
        let whole = open_cells(ids, cells);
        assert(cells.contains(b) <==> less.contains(b) || cells.last() == b) by {
            if less.contains(b) {
                let a = less.index_of(b);
                assert(cells[a] == b);
            }
            if cells.contains(b) && cells.last() != b {
                let a = cells.index_of(b);
                assert(less[a] == b);
            }
        }
        if ids[cells.last() as int] == UNASSIGNED {
            assert(whole == shorter.push(cells.last()));
            assert(whole.contains(b) <==> shorter.contains(b) || cells.last() == b) by {
                if shorter.contains(b) {
                    let a = shorter.index_of(b);
                    assert(whole[a] == b);
                }
                if cells.last() == b {
                    assert(whole[shorter.len() as int] == b);
                }
                if whole.contains(b) && cells.last() != b {
                    let a = whole.index_of(b);
                    assert(shorter[a] == b);
                }
            }
        }
    }
}

proof fn lemma_swap_removed(list: Seq<u32>, k: int, x: u32)
    requires
        0 <= k < list.len(),
    ensures
        swap_removed(list, k).len() == list.len() - 1,
        list.contains(x) && x != list[k] ==> swap_removed(list, k).contains(x),
        forall|m: int| 0 <= m < list.len() - 1 ==> list.contains(#[trigger] swap_removed(list, k)[m]),
{
    let cut = swap_removed(list, k);
    assert forall|m: int| 0 <= m < list.len() - 1 implies list.contains(#[trigger] cut[m]) by {
        if m == k {
            assert(cut[m] == list[list.len() - 1]);
        } else {
            assert(cut[m] == list[m]);
        }
    }
    if list.contains(x) && x != list[k] {
        let a = list.index_of(x);
        if a == list.len() - 1 {
            assert(cut[k] == x);
        } else {
            assert(cut[a] == x);
        }
    }
}

/// Taking a frontier entry out keeps everything but, for that entry's cell, the coverage.
proof fn lemma_take(adj: Seq<Seq<u32>>, st: GrowthState, plates: nat, seeds: Seq<int>, p: int, k: int, rng: u64)
    requires
        kept_up(adj, st, plates, seeds),
        0 <= p < plates,
        0 <= k < st.frontier[p].len(),
    ensures
        ({
            let taken = GrowthState {
                ids: st.ids,
                frontier: st.frontier.update(p, swap_removed(st.frontier[p], k)),
                rng,
            };
            &&& shaped(adj, taken, plates)
            &&& seeded(taken, seeds)
            &&& contiguous(adj, taken, seeds)
            &&& bordering(adj, taken)
            &&& covered(adj, taken, st.frontier[p][k] as int)
            &&& st.ids[st.frontier[p][k] as int] != UNASSIGNED ==> covered(adj, taken, -1)
        }),
{
    reveal(kept_up);
    let list = st.frontier[p];
    let cut = swap_removed(list, k);
    let taken = GrowthState { ids: st.ids, frontier: st.frontier.update(p, cut), rng };
    lemma_swap_removed(list, k, 0);
    assert forall|q: int, m: int| 0 <= q < plates && 0 <= m < taken.frontier[q].len() implies (
    #[trigger] taken.frontier[q][m]) < adj.len() by {
        if q == p {
            assert(list.contains(cut[m]));
            let a = list.index_of(cut[m]);
            assert(st.frontier[p][a] < adj.len());
        } else {
            assert(st.frontier[q][m] < adj.len());
        }
    }
    assert forall|q: int, m: int| 0 <= q < taken.frontier.len() && 0 <= m < taken.frontier[q].len() implies touches(
        adj,
        taken.ids,
        q,
        #[trigger] taken.frontier[q][m] as int,
    ) by {
        if q == p {
            assert(list.contains(cut[m]));
            let a = list.index_of(cut[m]);
            assert(touches(adj, st.ids, p, st.frontier[p][a] as int));
        } else {
            assert(touches(adj, st.ids, q, st.frontier[q][m] as int));
        }
    }
    assert forall|a: int, b: int|
        #![trigger edge(adj, a, b)]
        0 <= a < taken.ids.len() && taken.ids[a] != UNASSIGNED && edge(adj, a, b) && 0 <= b < taken.ids.len()
            && taken.ids[b] == UNASSIGNED && b != list[k] as int implies taken.frontier[taken.ids[a] as int].contains(
        b as u32,
    ) by {
        lemma_swap_removed(list, k, b as u32);
        assert(st.frontier[st.ids[a] as int].contains(b as u32));
    }
}

/// A claim of an unclaimed cell by a plate that borders it, or as the seed of the next plate,
/// keeps everything.
proof fn lemma_claim(
    adj: Seq<Seq<u32>>,
    st: GrowthState,
    plates: nat,
    seeds: Seq<int>,
    p: int,
    cell: int,
    new_seeds: Seq<int>,
)
    requires
        shaped(adj, st, plates),
        seeds.len() <= plates,
        seeded(st, seeds),
        contiguous(adj, st, seeds),
        bordering(adj, st),
        covered(adj, st, cell),
        0 <= p < plates,
        0 <= cell < st.ids.len(),
        st.ids[cell] == UNASSIGNED,
        (new_seeds == seeds && p < seeds.len() && touches(adj, st.ids, p, cell)) || (p == seeds.len()
            && new_seeds == seeds.push(cell)),
    ensures
        kept_up(adj, claim(adj, st, p, cell), plates, new_seeds),
{
    reveal(kept_up);
    let next = claim(adj, st, p, cell);
    let ids = next.ids;
    let joins = open_cells(ids, adj[cell]);
    assert forall|q: int, m: int| 0 <= q < plates && 0 <= m < next.frontier[q].len() implies (
    #[trigger] next.frontier[q][m]) < adj.len() && touches(adj, ids, q, next.frontier[q][m] as int) by {
        let old_list = st.frontier[q];
        if q == p && m >= old_list.len() {
            let b = joins[m - old_list.len()];
            assert(next.frontier[q][m] == b);
            lemma_open_cells(ids, adj[cell], b);
            assert(joins.contains(b));
            let a = adj[cell].index_of(b);
            assert(adj[cell][a] == b);
            assert(edge(adj, cell, b as int));
            assert(ids[cell] == p);
        } else {
            assert(next.frontier[q][m] == old_list[m]);
            assert(touches(adj, st.ids, q, old_list[m] as int));
            let a = choose|a: int|
                0 <= a < st.ids.len() && st.ids[a] == q && #[trigger] edge(adj, a, old_list[m] as int);
            assert(a != cell);
            assert(ids[a] == q);
        }
    }
    assert(shaped(adj, next, plates));
    assert forall|q: int| 0 <= q < new_seeds.len() implies 0 <= #[trigger] new_seeds[q] < ids.len()
        && ids[new_seeds[q]] == q by {
        if q < seeds.len() {
            assert(new_seeds[q] == seeds[q]);
            assert(st.ids[seeds[q]] == q);
        }
    }
    assert forall|c: int| 0 <= c < ids.len() && #[trigger] ids[c] != UNASSIGNED implies ids[c] < new_seeds.len()
        && joined(adj, ids, new_seeds[ids[c] as int], c) by {
        if c != cell {
            assert(st.ids[c] == ids[c]);
            let s = seeds[ids[c] as int];
            assert(joined(adj, st.ids, s, c));
            assert(new_seeds[ids[c] as int] == s);
            lemma_join_survives(adj, st.ids, cell, p, s, c);
        } else if p == seeds.len() {
            let path = seq![cell];
            assert(is_path(adj, ids, path, cell, cell));
        } else {
            let a = choose|a: int| 0 <= a < st.ids.len() && st.ids[a] == p && #[trigger] edge(adj, a, cell);
            let s = seeds[p];
            assert(st.ids[a] != UNASSIGNED);
            assert(joined(adj, st.ids, s, a));
            lemma_join_survives(adj, st.ids, cell, p, s, a);
            let path = choose|path: Seq<int>| is_path(adj, ids, path, s, a);
            let longer = path.push(cell);
            assert(ids[s] == p) by {
                assert(path[0] == s);
                assert(st.ids[seeds[p]] == p);
            }
            assert forall|i: int| 0 <= i < longer.len() - 1 implies edge(adj, #[trigger] longer[i], longer[i + 1]) by {
                if i < path.len() - 1 {
                    assert(edge(adj, path[i], path[i + 1]));
                }
            }
            assert(is_path(adj, ids, longer, s, cell));
        }
    }
    assert forall|a: int, b: int|
        #![trigger edge(adj, a, b)]
        0 <= a < ids.len() && ids[a] != UNASSIGNED && edge(adj, a, b) && 0 <= b < ids.len() && ids[b]
            == UNASSIGNED && b != -1 implies next.frontier[ids[a] as int].contains(b as u32) by {
        assert(b != cell);
        if a == cell {
            let k = choose|k: int| 0 <= k < adj[a].len() && #[trigger] adj[a][k] == b;
            assert(adj[cell].contains(b as u32));
            lemma_open_cells(ids, adj[cell], b as u32);
            let m = joins.index_of(b as u32);
            assert(next.frontier[p][st.frontier[p].len() + m] == b as u32);
        } else {
            let q = st.ids[a] as int;
            assert(st.frontier[q].contains(b as u32));
            let m = st.frontier[q].index_of(b as u32);
            assert(next.frontier[q][m] == b as u32);
        }
    }
}

/// A path inside a plate is not broken when another, unclaimed cell is claimed.
proof fn lemma_join_survives(adj: Seq<Seq<u32>>, ids: Seq<u32>, cell: int, p: int, from: int, to: int)
    requires
        joined(adj, ids, from, to),
        0 <= cell < ids.len(),
        ids[cell] == UNASSIGNED,
        0 <= to < ids.len(),
        ids[to] != UNASSIGNED,
    ensures
        joined(adj, ids.update(cell, p as u32), from, to),
{
    let path = choose|path: Seq<int>| is_path(adj, ids, path, from, to);
    let later = ids.update(cell, p as u32);
    assert(path[path.len() - 1] == to);
    assert(ids[from] == ids[to]);
    assert(path[0] == from);
    assert forall|i: int| 0 <= i < path.len() implies 0 <= #[trigger] path[i] < later.len() && later[path[i]]
        == later[from] by {
        assert(ids[path[i]] == ids[from]);
    }
    assert(is_path(adj, later, path, from, to));
}

/// Growing a plate keeps everything.
pub proof fn lemma_grow_keeps(adj: Seq<Seq<u32>>, st: GrowthState, plates: nat, seeds: Seq<int>, p: int)
    requires
        kept_up(adj, st, plates, seeds),
        0 <= p < seeds.len(),
    ensures
        kept_up(adj, grow(adj, st, p), plates, seeds),
    decreases st.frontier[p].len(),
{
    reveal(kept_up);
    let list = st.frontier[p];
    if list.len() > 0 {
        let rng = stepped(st.rng);
        let k = (mixed(rng) % (list.len() as u64)) as int;
        if 0 <= k < list.len() {
            let cell = list[k] as int;
            let taken = GrowthState {
                ids: st.ids,
                frontier: st.frontier.update(p, swap_removed(list, k)),
                rng,
            };
            lemma_take(adj, st, plates, seeds, p, k, rng);
            assert(st.frontier[p][k] < adj.len());
            if st.ids[cell] == UNASSIGNED {
                assert(touches(adj, st.ids, p, st.frontier[p][k] as int));
                lemma_claim(adj, taken, plates, seeds, p, cell, seeds);
            } else {
                lemma_swap_removed(list, k, 0);
                lemma_grow_keeps(adj, taken, plates, seeds, p);
            }
        }
    }
}

/// A claimed cell stays with its plate while a plate grows.
proof fn lemma_grow_is_final(
    adj: Seq<Seq<u32>>,
    st: GrowthState,
    plates: nat,
    seeds: Seq<int>,
    p: int,
    c: int,
)
    requires
        kept_up(adj, st, plates, seeds),
        0 <= p < seeds.len(),
        0 <= c < st.ids.len(),
        st.ids[c] != UNASSIGNED,
    ensures
        grow(adj, st, p).ids[c] == st.ids[c],
    decreases st.frontier[p].len(),
{
    reveal(kept_up);
    let list = st.frontier[p];
    if list.len() > 0 {
        let rng = stepped(st.rng);
        let k = (mixed(rng) % (list.len() as u64)) as int;
        if 0 <= k < list.len() {
            let taken = GrowthState {
                ids: st.ids,
                frontier: st.frontier.update(p, swap_removed(list, k)),
                rng,
            };
            assert(st.frontier[p][k] < adj.len());
            if st.ids[list[k] as int] != UNASSIGNED {
                lemma_take(adj, st, plates, seeds, p, k, rng);
                lemma_swap_removed(list, k, 0);
                lemma_grow_is_final(adj, taken, plates, seeds, p, c);
            }
        }
    }
}

/// Every sequence of rounds keeps what the fill keeps: each plate stays contiguous around its
/// seed, and every unclaimed cell that borders a plate stays on that plate's frontier.
pub proof fn law_rounds_keep_plates_contiguous(
    adj: Seq<Seq<u32>>,
    st: GrowthState,
    plates: nat,
    seeds: Seq<int>,
    picks: Seq<usize>,
)
    requires
        kept_up(adj, st, plates, seeds),
        forall|m: int| 0 <= m < picks.len() ==> #[trigger] picks[m] < seeds.len(),
    ensures
        kept_up(adj, rounds(adj, st, picks), plates, seeds),
    decreases picks.len(),
{
    reveal(kept_up);
    if picks.len() > 0 {
        let less = picks.drop_last();
        assert forall|m: int| 0 <= m < less.len() implies #[trigger] less[m] < seeds.len() by {
            assert(less[m] == picks[m]);
        }
        law_rounds_keep_plates_contiguous(adj, st, plates, seeds, less);
        let before = rounds(adj, st, less);
        let drawn = GrowthState { ids: before.ids, frontier: before.frontier, rng: stepped(before.rng) };
        assert(picks[picks.len() - 1] < seeds.len());
        assert(kept_up(adj, drawn, plates, seeds));
        lemma_grow_keeps(adj, drawn, plates, seeds, picks.last() as int);
    }
}

/// A cell, once claimed, keeps its plate through every later round.
pub proof fn law_claims_are_final(
    adj: Seq<Seq<u32>>,
    st: GrowthState,
    plates: nat,
    seeds: Seq<int>,
    picks: Seq<usize>,
    c: int,
)
    requires
        kept_up(adj, st, plates, seeds),
        forall|m: int| 0 <= m < picks.len() ==> #[trigger] picks[m] < seeds.len(),
        0 <= c < st.ids.len(),
        st.ids[c] != UNASSIGNED,
    ensures
        rounds(adj, st, picks).ids[c] == st.ids[c],
    decreases picks.len(),
{
    reveal(kept_up);
    if picks.len() > 0 {
        let less = picks.drop_last();
        assert forall|m: int| 0 <= m < less.len() implies #[trigger] less[m] < seeds.len() by {
            assert(less[m] == picks[m]);
        }
        law_claims_are_final(adj, st, plates, seeds, less, c);
        law_rounds_keep_plates_contiguous(adj, st, plates, seeds, less);
        let before = rounds(adj, st, less);
        let drawn = GrowthState { ids: before.ids, frontier: before.frontier, rng: stepped(before.rng) };
        assert(picks[picks.len() - 1] < seeds.len());
        assert(kept_up(adj, drawn, plates, seeds));
        lemma_grow_is_final(adj, drawn, plates, seeds, picks.last() as int, c);
    }
}

/// `walk` goes along edges from `from` to `to`.
pub open spec fn is_walk(adj: Seq<Seq<u32>>, walk: Seq<int>, from: int, to: int) -> bool {
    &&& walk.len() > 0
    &&& walk[0] == from
    &&& walk.last() == to
    &&& forall|i: int| 0 <= i < walk.len() ==> 0 <= #[trigger] walk[i] < adj.len()
    &&& forall|i: int| 0 <= i < walk.len() - 1 ==> edge(adj, #[trigger] walk[i], walk[i + 1])
}

/// When no plate can grow, every cell that a walk along edges reaches from a claimed cell is
/// claimed; on a connected grid that is every cell.
pub proof fn law_no_frontier_means_all_reachable_claimed(
    adj: Seq<Seq<u32>>,
    st: GrowthState,
    plates: nat,
    seeds: Seq<int>,
    walk: Seq<int>,
    from: int,
    to: int,
)
    requires
        kept_up(adj, st, plates, seeds),
        forall|p: int| 0 <= p < plates ==> (#[trigger] st.frontier[p]).len() == 0,
        is_walk(adj, walk, from, to),
        st.ids[from] != UNASSIGNED,
    ensures
        st.ids[to] != UNASSIGNED,
    decreases walk.len(),
{
    reveal(kept_up);
    if walk.len() > 1 {
        let less = walk.drop_last();
        let mid = less.last();
        assert(mid == walk[walk.len() - 2]);
        assert forall|i: int| 0 <= i < less.len() implies 0 <= #[trigger] less[i] < adj.len() by {
            assert(less[i] == walk[i]);
        }
        assert forall|i: int| 0 <= i < less.len() - 1 implies edge(adj, #[trigger] less[i], less[i + 1]) by {
            assert(less[i] == walk[i] && less[i + 1] == walk[i + 1]);
        }
        law_no_frontier_means_all_reachable_claimed(adj, st, plates, seeds, less, from, mid);
        assert(edge(adj, walk[walk.len() - 2], walk[walk.len() - 1]));
        if st.ids[to] == UNASSIGNED {
            assert(0 <= mid < st.ids.len());
            assert(0 <= walk[walk.len() - 1] < adj.len());
            assert(st.frontier[st.ids[mid] as int].contains(to as u32));
            assert(st.frontier[st.ids[mid] as int].len() == 0);
        }
    }
}

/// Number of unclaimed cells.
pub open spec fn open_count(ids: Seq<u32>) -> nat
    decreases ids.len(),
{
    if ids.len() == 0 {
        0
    } else {
        open_count(ids.drop_last()) + if ids.last() == UNASSIGNED {
            1nat
        } else {
            0
        }
    }
}

/// Some unclaimed cell, where there is one.
spec fn open_witness(ids: Seq<u32>) -> int {
    choose|c: int| 0 <= c < ids.len() && ids[c] == UNASSIGNED
}

proof fn lemma_open_count_blank(ids: Seq<u32>)
    requires
        forall|c: int| 0 <= c < ids.len() ==> #[trigger] ids[c] == UNASSIGNED,
    ensures
        open_count(ids) == ids.len(),
    decreases ids.len(),
{
    if ids.len() > 0 {
        let less = ids.drop_last();
        assert forall|c: int| 0 <= c < less.len() implies #[trigger] less[c] == UNASSIGNED by {
            assert(ids[c] == UNASSIGNED);
        }
        assert(ids[ids.len() - 1] == UNASSIGNED);
        lemma_open_count_blank(less);
    }
}

proof fn lemma_open_count_claim(ids: Seq<u32>, cell: int, p: u32)
    requires
        0 <= cell < ids.len(),
        ids[cell] == UNASSIGNED,
        p != UNASSIGNED,
    ensures
        open_count(ids.update(cell, p)) + 1 == open_count(ids),
    decreases ids.len(),
{
    let later = ids.update(cell, p);
    if cell == ids.len() - 1 {
        assert(later.drop_last() == ids.drop_last());
    } else {
        lemma_open_count_claim(ids.drop_last(), cell, p);
        assert(later.drop_last() == ids.drop_last().update(cell, p));
    }
}

proof fn lemma_open_witness(ids: Seq<u32>)
    requires
        open_count(ids) > 0,
    ensures
        0 <= open_witness(ids) < ids.len(),
        ids[open_witness(ids)] == UNASSIGNED,
    decreases ids.len(),
{
    lemma_open_exists(ids);
}

proof fn lemma_open_exists(ids: Seq<u32>)
    requires
        open_count(ids) > 0,
    ensures
        exists|c: int| 0 <= c < ids.len() && #[trigger] ids[c] == UNASSIGNED,
    decreases ids.len(),
{
    if ids.last() == UNASSIGNED {
        assert(ids[ids.len() - 1] == UNASSIGNED);
    } else {
        lemma_open_exists(ids.drop_last());
        let c = choose|c: int| 0 <= c < ids.drop_last().len() && #[trigger] ids.drop_last()[c] == UNASSIGNED;
        assert(ids[c] == UNASSIGNED);
    }
}

/// Number of frontier entries over all plates.
pub open spec fn frontier_total(frontier: Seq<Seq<u32>>) -> nat
    decreases frontier.len(),
{
    if frontier.len() == 0 {
        0
    } else {
        frontier_total(frontier.drop_last()) + frontier.last().len()
    }
}

proof fn lemma_frontier_total_update(frontier: Seq<Seq<u32>>, p: int, list: Seq<u32>)
    requires
        0 <= p < frontier.len(),
    ensures
        frontier_total(frontier.update(p, list)) + frontier[p].len() == frontier_total(frontier)
            + list.len(),
    decreases frontier.len(),
{
    let later = frontier.update(p, list);
    if p == frontier.len() - 1 {
        assert(later.drop_last() == frontier.drop_last());
    } else {
        lemma_frontier_total_update(frontier.drop_last(), p, list);
        assert(later.drop_last() == frontier.drop_last().update(p, list));
    }
}

/// Growing a plate that can grow makes progress: either a cell is claimed, or only stale entries
/// leave the frontier.
pub proof fn lemma_grow_progress(
    adj: Seq<Seq<u32>>,
    st: GrowthState,
    plates: nat,
    seeds: Seq<int>,
    p: int,
)
    requires
        kept_up(adj, st, plates, seeds),
        0 <= p < seeds.len(),
        0 < st.frontier[p].len() <= u64::MAX,
    ensures
        ({
            let next = grow(adj, st, p);
            open_count(next.ids) < open_count(st.ids) || (next.ids == st.ids && frontier_total(
                next.frontier,
            ) < frontier_total(st.frontier))
        }),
    decreases st.frontier[p].len(),
{
    reveal(kept_up);
    let list = st.frontier[p];
    let rng = stepped(st.rng);
    let k = (mixed(rng) % (list.len() as u64)) as int;
    assert(0 <= k < list.len());
    let cell = list[k] as int;
    let cut = swap_removed(list, k);
    let taken = GrowthState { ids: st.ids, frontier: st.frontier.update(p, cut), rng };
    assert(st.frontier[p][k] < adj.len());
    lemma_take(adj, st, plates, seeds, p, k, rng);
    lemma_swap_removed(list, k, 0);
    lemma_frontier_total_update(st.frontier, p, cut);
    assert(taken.frontier[p] == cut);
    if st.ids[cell] == UNASSIGNED {
        assert(grow(adj, st, p) == claim(adj, taken, p, cell));
        lemma_open_count_claim(st.ids, cell, p as u32);
    } else {
        assert(grow(adj, st, p) == grow(adj, taken, p));
        if cut.len() > 0 {
            lemma_grow_progress(adj, taken, plates, seeds, p);
        } else {
            assert(grow(adj, taken, p) == taken);
        }
    }
}

/// However many attempts are made, as many plates as are planted have a seed each, and what the
/// fill keeps holds of them.
pub proof fn law_planting_keeps_plates_contiguous(
    adj: Seq<Seq<u32>>,
    plates: nat,
    rng: u64,
    attempts: nat,
)
    requires
        is_graph(adj),
        0 < plates <= adj.len() <= u32::MAX,
    ensures
        ({
            let (st, planted) = plant_run(adj, plates, blank(adj.len(), plates, rng), attempts);
            &&& planted <= plates
            &&& open_count(st.ids) == adj.len() - planted
            &&& exists|seeds: Seq<int>|
                seeds.len() == planted && #[trigger] kept_up(adj, st, plates, seeds)
        }),
    decreases attempts,
{
    reveal(kept_up);
    let start = blank(adj.len(), plates, rng);
    if attempts == 0 {
        lemma_open_count_blank(start.ids);
        let none = Seq::<int>::empty();
        assert(kept_up(adj, start, plates, none));
    } else {
        law_planting_keeps_plates_contiguous(adj, plates, rng, (attempts - 1) as nat);
        let (before, planted) = plant_run(adj, plates, start, (attempts - 1) as nat);
        let seeds = choose|seeds: Seq<int>|
            seeds.len() == planted && #[trigger] kept_up(adj, before, plates, seeds);
        if planted < plates {
            lemma_plant_attempt(adj, plates, before, planted, seeds);
        }
    }
}

/// One attempt keeps what the fill keeps, with a seed more if it planted one.
proof fn lemma_plant_attempt(
    adj: Seq<Seq<u32>>,
    plates: nat,
    st: GrowthState,
    planted: nat,
    seeds: Seq<int>,
)
    requires
        kept_up(adj, st, plates, seeds),
        seeds.len() == planted,
        planted < plates,
        open_count(st.ids) == adj.len() - planted,
    ensures
        ({
            let (next, count) = plant_attempt(adj, plates, st, planted);
            &&& count <= plates
            &&& open_count(next.ids) == adj.len() - count
            &&& exists|more: Seq<int>| more.len() == count && #[trigger] kept_up(adj, next, plates, more)
        }),
{
    reveal(kept_up);
    let rng = stepped(st.rng);
    let cell = (mixed(rng) % (st.ids.len() as u64)) as int;
    assert(0 <= cell < st.ids.len());
    let drawn = GrowthState { ids: st.ids, frontier: st.frontier, rng };
    assert(kept_up(adj, drawn, plates, seeds));
    if st.ids[cell] == UNASSIGNED {
        let more = seeds.push(cell);
        assert(covered(adj, drawn, cell));
        lemma_claim(adj, drawn, plates, seeds, planted as int, cell, more);
        lemma_open_count_claim(st.ids, cell, planted as u32);
    }
}

/// A fill in progress.
pub struct Growth {
    /// Plate index per cell, [`UNASSIGNED`] where there is none yet.
    pub plate_id: Vec<u32>,
    /// Per plate, cells next to it that it may claim next.
    pub frontier: Vec<Vec<u32>>,
    /// The generator that picks cells.
    pub rng: Rng,
}

impl View for Growth {
    type V = GrowthState;

    open spec fn view(&self) -> GrowthState {
        GrowthState {
            ids: self.plate_id@,
            frontier: Seq::new(self.frontier@.len(), |p: int| self.frontier@[p]@),
            rng: self.rng.state(),
        }
    }
}

impl Growth {
    /// A fill with nothing claimed.
    fn start(n: usize, plates: usize, rng: Rng) -> (growth: Self)
        ensures
            growth@ == blank(n as nat, plates as nat, rng.state()),
    {
        let mut plate_id: Vec<u32> = Vec::new();
        let mut c: usize = 0;
        while c < n
            invariant
                c <= n,
                plate_id@ == Seq::new(c as nat, |i: int| UNASSIGNED),
            decreases n - c,
        {
            plate_id.push(UNASSIGNED);
            c = c + 1;
            assert(plate_id@ =~= Seq::new(c as nat, |i: int| UNASSIGNED));
        }
        let mut frontier: Vec<Vec<u32>> = Vec::new();
        let mut p: usize = 0;
        while p < plates
            invariant
                p <= plates,
                frontier@.len() == p,
                forall|q: int| 0 <= q < p ==> (#[trigger] frontier@[q])@ == Seq::<u32>::empty(),
            decreases plates - p,
        {
            frontier.push(Vec::new());
            p = p + 1;
        }
        let growth = Growth { plate_id, frontier, rng };
        assert(growth@ =~= blank(n as nat, plates as nat, rng.state()));
        growth
    }

    /// Plate `p` claims `cell`.
    fn claim_cell<P, L, A>(&mut self, grid: &Grid<P, L, A>, p: usize, cell: usize)
        requires
            grid.wf(),
            old(self).plate_id@.len() == grid.n,
            p < old(self).frontier@.len(),
            p < u32::MAX,
            cell < grid.n,
        ensures
            final(self)@ == claim(grid.links(), old(self)@, p as int, cell as int),
    {
        let ghost before = self@;
        self.plate_id.set(cell, p as u32);
        let nbs: &[u32] = grid.neighbors(cell);
        let ghost ids = self.plate_id@;
        let mut k: usize = 0;
        assert(nbs@.take(0) == Seq::<u32>::empty());
        assert(before.frontier[p as int] + open_cells(ids, nbs@.take(0)) == before.frontier[p as int]);
        assert(before.frontier.update(p as int, before.frontier[p as int]) == before.frontier);
        while k < nbs.len()
            invariant
                k <= nbs@.len(),
                grid.wf(),
                forall|m: int| 0 <= m < nbs@.len() ==> #[trigger] nbs@[m] < grid.n,
                self.plate_id@ == ids,
                ids.len() == grid.n,
                p < self.frontier@.len(),
                self.frontier@.len() == before.frontier.len(),
                self@.frontier == before.frontier.update(
                    p as int,
                    before.frontier[p as int] + open_cells(ids, nbs@.take(k as int)),
                ),
                self.rng.state() == before.rng,
            decreases nbs@.len() - k,
        {
            let nb: u32 = nbs[k];
            let ghost upto = nbs@.take(k + 1);
            assert(upto.drop_last() == nbs@.take(k as int));
            assert(upto.last() == nb);
            let ghost prior = self@.frontier;
            assert(prior[p as int] == before.frontier[p as int] + open_cells(ids, nbs@.take(k as int)));
            if self.plate_id[nb as usize] == UNASSIGNED {
                self.frontier[p].push(nb);
                assert(self@.frontier =~= prior.update(p as int, prior[p as int].push(nb)));
                assert(prior[p as int].push(nb) =~= before.frontier[p as int] + open_cells(ids, upto));
            }
            assert(self@.frontier =~= before.frontier.update(
                p as int,
                before.frontier[p as int] + open_cells(ids, upto),
            ));
            k = k + 1;
        }
        assert(nbs@.take(k as int) == nbs@);
        assert(grid.links()[cell as int] == nbs@);
        assert(self@ =~= claim(grid.links(), before, p as int, cell as int));
    }

    /// Plant one distinct, randomly drawn seed cell per plate.
    pub fn plant<P, L, A>(grid: &Grid<P, L, A>, plates: usize, rng: Rng) -> (growth: Self)
        requires
            grid.wf(),
            0 < plates <= grid.n,
        ensures
            exists|attempts: nat| #[trigger]
                plant_run(
                    grid.links(),
                    plates as nat,
                    blank(grid.n as nat, plates as nat, rng.state()),
                    attempts,
                ) == (growth@, plates as nat),
    {
        let n: usize = grid.n;
        let ghost adj = grid.links();
        let ghost first = blank(n as nat, plates as nat, rng.state());
        let ghost seed = rng.state();
        let mut growth = Growth::start(n, plates, rng);
        assert(growth@.frontier.len() == growth.frontier@.len());
        assert(growth@.ids.len() == growth.plate_id@.len());
        let mut planted: usize = 0;
        let ghost mut attempts: nat = 0;
        proof {
            grid.lemma_links();
        }
        while planted < plates
            invariant
                grid.wf(),
                n == grid.n,
                adj == grid.links(),
                is_graph(adj),
                adj.len() == n,
                0 < plates <= n <= u32::MAX,
                planted <= plates,
                first == blank(n as nat, plates as nat, seed),
                plant_run(adj, plates as nat, first, attempts) == (growth@, planted as nat),
                growth.plate_id@.len() == n,
                growth.frontier@.len() == plates,
            decreases
                plates - planted,
                draws_until(growth.rng.state(), open_witness(growth.plate_id@) as u64),
        {
            let ghost before = growth@;
            proof {
                law_planting_keeps_plates_contiguous(adj, plates as nat, seed, attempts);
                lemma_open_witness(before.ids);
                lemma_draw_countdown(before.rng, open_witness(before.ids) as u64);
            }
            let c: usize = growth.rng.index_below(n);
            assert(growth@ =~= GrowthState {
                ids: before.ids,
                frontier: before.frontier,
                rng: stepped(before.rng),
            });
            if growth.plate_id[c] == UNASSIGNED {
                growth.claim_cell(grid, planted, c);
                planted = planted + 1;
            } else {
                proof {
                    // The awaited cell was not drawn, or it would have been unclaimed.
                    let w = open_witness(before.ids);
                    if mixed(stepped(before.rng)) == w as u64 {
                        vstd::arithmetic::div_mod::lemma_small_mod(w as nat, n as nat);
                        assert(c == w);
                    }
                }
            }
            proof {
                attempts = attempts + 1;
                assert(growth@.frontier.len() == growth.frontier@.len());
                assert(growth@.ids.len() == growth.plate_id@.len());
            }
        }
        growth
    }

    /// Plate `p` claims one random cell of its frontier; stale entries drawn on the way are
    /// dropped.
    pub fn grow_plate<P, L, A>(&mut self, grid: &Grid<P, L, A>, p: usize)
        requires
            grid.wf(),
            old(self).plate_id@.len() == grid.n,
            p < old(self).frontier@.len() <= u32::MAX,
            forall|k: int|
                0 <= k < old(self).frontier@[p as int]@.len() ==> (#[trigger] old(self).frontier@[p as int]@[k])
                    < grid.n,
        ensures
            final(self)@ == grow(grid.links(), old(self)@, p as int),
    {
        let ghost first = self@;
        let ghost adj = grid.links();
        while self.frontier[p].len() > 0
            invariant_except_break
                grid.wf(),
                adj == grid.links(),
                self.plate_id@.len() == grid.n,
                p < self.frontier@.len() <= u32::MAX,
                forall|k: int|
                    0 <= k < self.frontier@[p as int]@.len() ==> (#[trigger] self.frontier@[p as int]@[k])
                        < grid.n,
                grow(adj, self@, p as int) == grow(adj, first, p as int),
            ensures
                self@ == grow(adj, first, p as int),
            decreases self.frontier@[p as int]@.len(),
        {
            let ghost before = self@;
            let ghost list = before.frontier[p as int];
            let len: usize = self.frontier[p].len();
            let k: usize = self.rng.index_below(len);
            let cell: usize = self.frontier[p].swap_remove(k) as usize;
            let ghost taken = GrowthState {
                ids: before.ids,
                frontier: before.frontier.update(p as int, swap_removed(list, k as int)),
                rng: stepped(before.rng),
            };
            assert(self@.frontier =~= taken.frontier);
            assert(self@ =~= taken);
            proof {
                lemma_swap_removed(list, k as int, 0);
                assert forall|m: int| 0 <= m < self.frontier@[p as int]@.len() implies (
                #[trigger] self.frontier@[p as int]@[m]) < grid.n by {
                    let x = swap_removed(list, k as int)[m];
                    assert(list.contains(x));
                    let a = list.index_of(x);
                    assert(list[a] < grid.n);
                }
            }
            if self.plate_id[cell] != UNASSIGNED {
                continue ;
            }
            self.claim_cell(grid, p, cell);
            break ;
        }
    }

    /// Which plates can still grow.
    pub fn growing(&self) -> (mask: Vec<bool>)
        ensures
            mask@ == growing(self@),
    {
        let mut mask: Vec<bool> = Vec::new();
        let mut p: usize = 0;
        while p < self.frontier.len()
            invariant
                p <= self.frontier@.len(),
                mask@ == growing(self@).take(p as int),
            decreases self.frontier@.len() - p,
        {
            mask.push(self.frontier[p].len() > 0);
            p = p + 1;
            assert(mask@ =~= growing(self@).take(p as int));
        }
        assert(growing(self@).take(p as int) =~= growing(self@));
        mask
    }

    /// The partition, with every unclaimed stray given to plate 0.
    pub fn settle(&self) -> (ids: Vec<u32>)
        ensures
            ids@ == settled(self@.ids),
    {
        let mut ids: Vec<u32> = Vec::new();
        let mut c: usize = 0;
        while c < self.plate_id.len()
            invariant
                c <= self.plate_id@.len(),
                ids@ == settled(self@.ids).take(c as int),
            decreases self.plate_id@.len() - c,
        {
            let id: u32 = self.plate_id[c];
            ids.push(if id == UNASSIGNED { 0 } else { id });
            c = c + 1;
            assert(ids@ =~= settled(self@.ids).take(c as int));
        }
        assert(settled(self@.ids).take(c as int) =~= settled(self@.ids));
        ids
    }
}

} // verus!
