//! Plate boundaries: what happens where two plates meet, and which cells it starts from.
//!
//! Relative plate motion across a boundary is split into a closing rate and a shear rate, which
//! classifies every boundary cell as convergent, divergent or transform. Each classified margin
//! also records its cell as the source of an effect that is then spread over the surface.
//! Rates and fractions are patterns of reals.

use crate::grid::Grid;
use crate::order::{
    at_most, below, is_number, number, spec_at_most, spec_below, spec_value_key, unsigned, without_sign, HALF, ONE, ZERO,
};
use crate::sim::influence::{
    distinct_sources, law_set_source_keeps_the_strongest, set_source, with_source,
};
use vstd::prelude::*;

verus! {

/// Pattern of the closing rate below which a margin counts as transform: 0.04 of the reference
/// plate speed.
pub const CLOSING_EPS: u32 = 0x3D23_D70A;

/// Pattern of the closing rate above which a margin counts as transform: -0.04.
pub const OPENING_EPS: u32 = 0xBD23_D70A;

/// Coarse plate-boundary classification per cell. The finer subtype (orogeny, arc or trench, ridge
/// or rift) only affects how elevation is built.
#[derive(Clone, Copy, Debug, PartialEq, Eq, Structural)]
pub enum BoundaryKind {
    /// Cell is in a plate interior (no differing-plate neighbor).
    Interior,
    /// Plates approaching: orogeny, volcanic arc, or trench.
    Convergent,
    /// Plates separating: mid-ocean ridge or continental rift.
    Divergent,
    /// Plates sliding past: little vertical relief.
    Transform,
}

impl BoundaryKind {
    /// The number of the kind.
    pub open spec fn spec_index(self) -> u8 {
        match self {
            BoundaryKind::Interior => 0,
            BoundaryKind::Convergent => 1,
            BoundaryKind::Divergent => 2,
            BoundaryKind::Transform => 3,
        }
    }

    /// The number of the kind.
    pub fn index(self) -> (i: u8)
        ensures
            i == self.spec_index(),
    {
        match self {
            BoundaryKind::Interior => 0,
            BoundaryKind::Convergent => 1,
            BoundaryKind::Divergent => 2,
            BoundaryKind::Transform => 3,
        }
    }
}

/// What a margin does to its cell.
#[derive(Clone, Copy, Debug, PartialEq, Eq, Structural)]
pub enum Effect {
    /// Crustal thickening: a collision, or a volcanic arc over a subducting plate.
    Orogeny,
    /// Crustal thinning of a continent.
    Rift,
    /// Thermal buoyancy of young ocean floor.
    Ridge,
    /// Flexural moat on the subducting side.
    Trench,
}

/// Relative motion across a margin, in units of the reference plate speed.
#[derive(Clone, Copy, Debug)]
pub struct Motion {
    /// Rate of approach, negative where the plates separate.
    pub closing: u32,
    /// Rate of sliding past each other.
    pub shear: u32,
}

impl Motion {
    /// The greater of the two rates; the one that is a number where the other is none.
    pub open spec fn spec_speed(self) -> u32 {
        let closing = unsigned(self.closing);
        if !is_number(self.shear) || spec_below(self.shear, closing) {
            closing
        } else {
            self.shear
        }
    }

    /// The closing or opening rate, at most one.
    pub open spec fn spec_rate(self) -> u32 {
        if unsigned(self.closing) < ONE {
            unsigned(self.closing)
        } else {
            ONE
        }
    }

    /// What the margin is: one whose plates neither close nor open, or whose closing rate is no
    /// number, slides.
    pub open spec fn spec_kind(self) -> BoundaryKind {
        if spec_below(CLOSING_EPS, self.closing) {
            BoundaryKind::Convergent
        } else if spec_below(self.closing, OPENING_EPS) {
            BoundaryKind::Divergent
        } else {
            BoundaryKind::Transform
        }
    }

    /// The greater of the two rates.
    pub fn speed(self) -> (out: u32)
        ensures
            out == self.spec_speed(),
    {
        let closing: u32 = without_sign(self.closing);
        if !number(self.shear) || below(self.shear, closing) {
            closing
        } else {
            self.shear
        }
    }

    /// The closing or opening rate, at most one.
    pub fn rate(self) -> (out: u32)
        ensures
            out == self.spec_rate(),
            out <= ONE,
    {
        let closing: u32 = without_sign(self.closing);
        if closing < ONE {
            closing
        } else {
            ONE
        }
    }

    /// What the margin is.
    pub fn kind(self) -> (out: BoundaryKind)
        ensures
            out == self.spec_kind(),
    {
        if below(CLOSING_EPS, self.closing) {
            BoundaryKind::Convergent
        } else if below(self.closing, OPENING_EPS) {
            BoundaryKind::Divergent
        } else {
            BoundaryKind::Transform
        }
    }
}

/// A margin at `speed` is faster than what `best` holds.
pub open spec fn spec_outpaces(speed: u32, best: u32) -> bool {
    !spec_at_most(speed, best)
}

/// What a margin of the given kind does to a cell whose continental fraction is `own` when the
/// cell across is of fraction `other`. Two continents that close on each other pile up; else the
/// more oceanic side subducts and the other one overrides. An opening margin is a ridge in oceanic
/// crust and a rift in continental crust.
pub open spec fn spec_effect(kind: BoundaryKind, own: u32, other: u32) -> Option<Effect> {
    match kind {
        BoundaryKind::Convergent => if spec_below(HALF, own) && spec_below(HALF, other) {
            Some(Effect::Orogeny)
        } else if spec_below(own, other) {
            Some(Effect::Trench)
        } else {
            Some(Effect::Orogeny)
        },
        BoundaryKind::Divergent => if spec_below(own, HALF) {
            Some(Effect::Ridge)
        } else {
            Some(Effect::Rift)
        },
        _ => None,
    }
}

/// See [`spec_effect`].
pub fn effect(kind: BoundaryKind, own: u32, other: u32) -> (out: Option<Effect>)
    ensures
        out == spec_effect(kind, own, other),
{
    match kind {
        BoundaryKind::Convergent => if below(HALF, own) && below(HALF, other) {
            Some(Effect::Orogeny)
        } else if below(own, other) {
            Some(Effect::Trench)
        } else {
            Some(Effect::Orogeny)
        },
        BoundaryKind::Divergent => if below(own, HALF) {
            Some(Effect::Ridge)
        } else {
            Some(Effect::Rift)
        },
        _ => None,
    }
}

/// The sources of each effect, as recorded so far.
#[verifier::ext_equal]
pub struct Sources {
    pub orogeny: Seq<(usize, u32)>,
    pub rift: Seq<(usize, u32)>,
    pub ridge: Seq<(usize, u32)>,
    pub trench: Seq<(usize, u32)>,
}

/// `s` with a source of the given effect, if any, recorded at `cell`.
pub open spec fn recorded(s: Sources, effect: Option<Effect>, cell: usize, rate: u32) -> Sources {
    match effect {
        Some(Effect::Orogeny) => Sources { orogeny: with_source(s.orogeny, cell, rate), ..s },
        Some(Effect::Rift) => Sources { rift: with_source(s.rift, cell, rate), ..s },
        Some(Effect::Ridge) => Sources { ridge: with_source(s.ridge, cell, rate), ..s },
        Some(Effect::Trench) => Sources { trench: with_source(s.trench, cell, rate), ..s },
        None => s,
    }
}

/// A cell whose margins are being looked at: the kind and the speed of the fastest so far, and the
/// sources of all cells.
#[verifier::ext_equal]
pub struct CellState {
    pub kind: BoundaryKind,
    pub best: u32,
    pub sources: Sources,
}

/// `st` once a margin is met that is no faster than those before it: a cell that was no boundary yet
/// has plates that slide, if at all.
pub open spec fn at_rest(st: CellState) -> CellState {
    if st.kind == BoundaryKind::Interior {
        CellState { kind: BoundaryKind::Transform, ..st }
    } else {
        st
    }
}

/// What boundaries are read off: the neighbor lists, the plates of the cells, and their
/// continental fractions.
pub struct Mosaic {
    pub adj: Seq<Seq<u32>>,
    pub plate_id: Seq<u32>,
    pub fraction: Seq<u32>,
}

impl Mosaic {
    /// Every cell has a plate and a fraction, and every listed neighbor is a cell.
    pub open spec fn wf(&self) -> bool {
        &&& self.plate_id.len() >= self.adj.len()
        &&& self.fraction.len() >= self.adj.len()
        &&& forall|a: int, k: int|
            0 <= a < self.adj.len() && 0 <= k < self.adj[a].len() ==> (#[trigger] self.adj[a][k])
                < self.adj.len()
    }

    /// The state of cell `i` once its first `k` neighbors are seen: a margin that is faster than
    /// all before it sets the kind and records its effect, and one that is not still makes the cell
    /// a boundary. `motions` holds the motion towards each neighbor, none where the direction to it
    /// has no length.
    pub open spec fn cell_after(
        &self,
        i: int,
        sources: Sources,
        motions: Seq<Option<Motion>>,
        k: nat,
    ) -> CellState
        decreases k,
    {
        if k == 0 {
            CellState { kind: BoundaryKind::Interior, best: ZERO, sources }
        } else {
            let st = self.cell_after(i, sources, motions, (k - 1) as nat);
            let j = self.adj[i][k - 1] as int;
            if self.plate_id[j] == self.plate_id[i] {
                st
            } else {
                match motions[k - 1] {
                    None => at_rest(st),
                    Some(m) => if !spec_outpaces(m.spec_speed(), st.best) {
                        at_rest(st)
                    } else {
                        CellState {
                            kind: m.spec_kind(),
                            best: m.spec_speed(),
                            sources: recorded(
                                st.sources,
                                spec_effect(m.spec_kind(), self.fraction[i], self.fraction[j]),
                                i as usize,
                                m.spec_rate(),
                            ),
                        }
                    },
                }
            }
        }
    }

    /// The state of cell `i` once all its neighbors are seen.
    pub open spec fn cell_done(&self, i: int, sources: Sources, motions: Seq<Option<Motion>>) -> CellState {
        self.cell_after(i, sources, motions, self.adj[i].len())
    }

    /// The sources recorded by the first `n` cells.
    pub open spec fn sources_after(&self, motions: Seq<Seq<Option<Motion>>>, n: nat) -> Sources
        decreases n,
    {
        if n == 0 {
            Sources {
                orogeny: Seq::empty(),
                rift: Seq::empty(),
                ridge: Seq::empty(),
                trench: Seq::empty(),
            }
        } else {
            self.cell_done(
                n - 1,
                self.sources_after(motions, (n - 1) as nat),
                motions[n - 1],
            ).sources
        }
    }

    /// The kind of cell `i`.
    pub open spec fn kind_of(&self, motions: Seq<Seq<Option<Motion>>>, i: int) -> BoundaryKind {
        self.cell_done(i, self.sources_after(motions, i as nat), motions[i]).kind
    }

    /// The plates of `i` and its `k`-th neighbor differ.
    pub open spec fn is_margin(&self, i: int, k: int) -> bool {
        self.plate_id[self.adj[i][k] as int] != self.plate_id[i]
    }
}

/// `motions` are what `motion` gave for each margin: for each cell and each neighbor of another
/// plate, from the two positions and the two velocities.
pub open spec fn are_margin_motions<P, V, F: Fn(P, P, V, V) -> Option<Motion>>(
    on: Mosaic,
    centers: Seq<P>,
    velocity: Seq<V>,
    motion: F,
    motions: Seq<Seq<Option<Motion>>>,
) -> bool {
    &&& motions.len() == on.adj.len()
    &&& forall|i: int| 0 <= i < motions.len() ==> #[trigger] are_cell_motions(
        on,
        centers,
        velocity,
        motion,
        i,
        motions[i],
    )
}

/// As [`are_margin_motions`], for cell `i`.
pub open spec fn are_cell_motions<P, V, F: Fn(P, P, V, V) -> Option<Motion>>(
    on: Mosaic,
    centers: Seq<P>,
    velocity: Seq<V>,
    motion: F,
    i: int,
    row: Seq<Option<Motion>>,
) -> bool {
    &&& row.len() == on.adj[i].len()
    &&& forall|k: int|
        0 <= k < row.len() && on.is_margin(i, k) ==> call_ensures(
            motion,
            (
                centers[i],
                centers[on.adj[i][k] as int],
                velocity[i],
                velocity[on.adj[i][k] as int],
            ),
            #[trigger] row[k],
        )
}

/// Plate boundaries: the kind of each cell and the sources of each effect.
pub struct Margins {
    pub boundary: Vec<BoundaryKind>,
    pub orogeny: Vec<(usize, u32)>,
    pub rift: Vec<(usize, u32)>,
    pub ridge: Vec<(usize, u32)>,
    pub trench: Vec<(usize, u32)>,
}

impl Margins {
    /// The sources of each effect.
    pub open spec fn sources(&self) -> Sources {
        Sources {
            orogeny: self.orogeny@,
            rift: self.rift@,
            ridge: self.ridge@,
            trench: self.trench@,
        }
    }

    /// Record a source of the given effect, if any.
    fn record(&mut self, effect: Option<Effect>, cell: usize, rate: u32)
        ensures
            final(self).boundary == old(self).boundary,
            final(self).sources() == recorded(old(self).sources(), effect, cell, rate),
    {
        match effect {
            Some(Effect::Orogeny) => set_source(&mut self.orogeny, cell, rate),
            Some(Effect::Rift) => set_source(&mut self.rift, cell, rate),
            Some(Effect::Ridge) => set_source(&mut self.ridge, cell, rate),
            Some(Effect::Trench) => set_source(&mut self.trench, cell, rate),
            None => {},
        }
        assert(self.sources() =~= recorded(old(self).sources(), effect, cell, rate));
    }

    /// Look at the margins of cell `i`.
    fn look<P: Copy, L, A, V: Copy, F: Fn(P, P, V, V) -> Option<Motion>>(
        &mut self,
        grid: &Grid<P, L, A>,
        plate_id: &Vec<u32>,
        velocity: &Vec<V>,
        fraction: &Vec<u32>,
        motion: &F,
        i: usize,
        Ghost(on): Ghost<Mosaic>,
    ) -> (motions: Ghost<Seq<Option<Motion>>>)
        requires
            grid.wf(),
            on == (Mosaic { adj: grid.links(), plate_id: plate_id@, fraction: fraction@ }),
            on.wf(),
            velocity@.len() >= grid.n,
            i < grid.n,
            forall|p: P, q: P, v: V, w: V| #[trigger] call_requires(*motion, (p, q, v, w)),
        ensures
            are_cell_motions(on, grid.centers@, velocity@, *motion, i as int, motions@),
            final(self).sources() == on.cell_done(i as int, old(self).sources(), motions@).sources,
            final(self).boundary@ == old(self).boundary@.push(
                on.cell_done(i as int, old(self).sources(), motions@).kind,
            ),
    {
        let ghost first = self.sources();
        let ghost mut seen: Seq<Option<Motion>> = Seq::empty();
        let mut kind: BoundaryKind = BoundaryKind::Interior;
        let mut best: u32 = ZERO;
        let nbs: &[u32] = grid.neighbors(i);
        assert(on.adj[i as int] == nbs@);
        let mut k: usize = 0;
        while k < nbs.len()
            invariant
                k <= nbs@.len(),
                grid.wf(),
                on == (Mosaic { adj: grid.links(), plate_id: plate_id@, fraction: fraction@ }),
                on.wf(),
                on.adj.len() == grid.n,
                velocity@.len() >= grid.n,
                i < grid.n,
                on.adj[i as int] == nbs@,
                forall|m: int| 0 <= m < nbs@.len() ==> #[trigger] nbs@[m] < grid.n,
                forall|p: P, q: P, v: V, w: V| #[trigger] call_requires(*motion, (p, q, v, w)),
                seen.len() == k,
                forall|m: int|
                    0 <= m < k && on.is_margin(i as int, m) ==> call_ensures(
                        *motion,
                        (
                            grid.centers@[i as int],
                            grid.centers@[nbs@[m] as int],
                            velocity@[i as int],
                            velocity@[nbs@[m] as int],
                        ),
                        #[trigger] seen[m],
                    ),
                self.boundary == old(self).boundary,
                (CellState { kind, best, sources: self.sources() }) == on.cell_after(
                    i as int,
                    first,
                    seen,
                    k as nat,
                ),
            decreases nbs@.len() - k,
        {
            let j: usize = nbs[k] as usize;
            let ghost prior = seen;
            let ghost before = self.sources();
            if plate_id[j] == plate_id[i] {
                proof {
                    seen = prior.push(None);
                    on.lemma_motions_prefix(i as int, first, prior, seen, k as nat);
                }
            } else {
                let m: Option<Motion> = motion(grid.centers[i], grid.centers[j], velocity[i], velocity[j]);
                proof {
                    seen = prior.push(m);
                    on.lemma_motions_prefix(i as int, first, prior, seen, k as nat);
                }
                let mut faster: bool = false;
                if let Some(m) = m {
                    let speed: u32 = m.speed();
                    if !at_most(speed, best) {
                        faster = true;
                        best = speed;
                        kind = m.kind();
                        self.record(effect(kind, fraction[i], fraction[j]), i, m.rate());
                    }
                }
                if !faster && kind == BoundaryKind::Interior {
                    kind = BoundaryKind::Transform;
                }
            }
            assert forall|m: int| 0 <= m < k + 1 && on.is_margin(i as int, m) implies call_ensures(
                *motion,
                (
                    grid.centers@[i as int],
                    grid.centers@[nbs@[m] as int],
                    velocity@[i as int],
                    velocity@[nbs@[m] as int],
                ),
                #[trigger] seen[m],
            ) by {
                if m < k {
                    assert(seen[m] == prior[m]);
                }
            }
            k = k + 1;
            assert(seen[k - 1] == seen[prior.len() as int]);
        }
        self.boundary.push(kind);
        Ghost(seen)
    }

    /// Classify the plate boundaries of `grid` and collect the sources of each effect.
    pub fn classify<P: Copy, L, A, V: Copy, F: Fn(P, P, V, V) -> Option<Motion>>(
        grid: &Grid<P, L, A>,
        plate_id: &Vec<u32>,
        velocity: &Vec<V>,
        fraction: &Vec<u32>,
        motion: &F,
    ) -> (out: Margins)
        requires
            grid.wf(),
            plate_id@.len() >= grid.n,
            velocity@.len() >= grid.n,
            fraction@.len() >= grid.n,
            forall|p: P, q: P, v: V, w: V| #[trigger] call_requires(*motion, (p, q, v, w)),
        ensures
            is_classified(
                Mosaic { adj: grid.links(), plate_id: plate_id@, fraction: fraction@ },
                grid.centers@,
                velocity@,
                *motion,
                out.boundary@,
                out.sources(),
            ),
            out.boundary@.len() == grid.n,
            forall|i: int|
                0 <= i < grid.n ==> (#[trigger] out.boundary@[i] == BoundaryKind::Interior
                    <==> is_interior(grid.links(), plate_id@, i)),
    {
        let ghost on = Mosaic { adj: grid.links(), plate_id: plate_id@, fraction: fraction@ };
        proof {
            grid.lemma_links();
        }
        let mut out = Margins {
            boundary: Vec::new(),
            orogeny: Vec::new(),
            rift: Vec::new(),
            ridge: Vec::new(),
            trench: Vec::new(),
        };
        let ghost mut motions: Seq<Seq<Option<Motion>>> = Seq::empty();
        assert(out.sources() =~= on.sources_after(motions, 0));
        let mut i: usize = 0;
        while i < grid.n
            invariant
                grid.wf(),
                i <= grid.n,
                on == (Mosaic { adj: grid.links(), plate_id: plate_id@, fraction: fraction@ }),
                on.wf(),
                on.adj.len() == grid.n,
                velocity@.len() >= grid.n,
                forall|p: P, q: P, v: V, w: V| #[trigger] call_requires(*motion, (p, q, v, w)),
                motions.len() == i,
                forall|c: int|
                    0 <= c < i ==> #[trigger] are_cell_motions(
                        on,
                        grid.centers@,
                        velocity@,
                        *motion,
                        c,
                        motions[c],
                    ),
                out.sources() == on.sources_after(motions, i as nat),
                out.boundary@.len() == i,
                forall|c: int| 0 <= c < i ==> #[trigger] out.boundary@[c] == on.kind_of(motions, c),
            decreases grid.n - i,
        {
            let ghost prior = motions;
            let ghost before = out.boundary@;
            let Ghost(row) = out.look(grid, plate_id, velocity, fraction, motion, i, Ghost(on));
            proof {
                motions = prior.push(row);
                assert forall|c: nat| c <= i implies #[trigger] on.sources_after(motions, c)
                    == on.sources_after(prior, c) by {
                    on.lemma_sources_prefix(prior, motions, c);
                }
                assert(on.sources_after(motions, i as nat) == on.sources_after(prior, i as nat));
                assert(motions[i as int] == row);
                assert((i + 1 - 1) as nat == i as nat);
                assert(out.sources() == on.sources_after(motions, (i + 1) as nat));
                assert forall|c: int| 0 <= c < i + 1 implies #[trigger] are_cell_motions(
                    on,
                    grid.centers@,
                    velocity@,
                    *motion,
                    c,
                    motions[c],
                ) by {
                    if c < i {
                        assert(are_cell_motions(on, grid.centers@, velocity@, *motion, c, prior[c]));
                    }
                }
                assert forall|c: int| 0 <= c < i + 1 implies #[trigger] out.boundary@[c] == on.kind_of(
                    motions,
                    c,
                ) by {
                    if c < i {
                        assert(before[c] == on.kind_of(prior, c));
                        assert(motions[c] == prior[c]);
                        assert(on.sources_after(motions, c as nat) == on.sources_after(prior, c as nat));
                    }
                }
            }
            i = i + 1;
        }
        assert(is_classified(on, grid.centers@, velocity@, *motion, out.boundary@, out.sources())) by {
            assert(are_margin_motions(on, grid.centers@, velocity@, *motion, motions));
            assert(out.boundary@ =~= Seq::new(on.adj.len(), |i: int| on.kind_of(motions, i)));
        }
        assert forall|i: int| 0 <= i < grid.n implies (#[trigger] out.boundary@[i]
            == BoundaryKind::Interior <==> is_interior(grid.links(), plate_id@, i)) by {
            assert(out.boundary@[i] == on.kind_of(motions, i));
            on.law_interior_is_without_margins(motions, i);
        }
        out
    }
}

/// All neighbors of cell `i` belong to its own plate.
pub open spec fn is_interior(adj: Seq<Seq<u32>>, plate_id: Seq<u32>, i: int) -> bool {
    forall|k: int| 0 <= k < adj[i].len() ==> plate_id[#[trigger] adj[i][k] as int] == plate_id[i]
}

/// `boundary` and `sources` are what the plates' motions make of the boundaries.
pub open spec fn is_classified<P, V, F: Fn(P, P, V, V) -> Option<Motion>>(
    on: Mosaic,
    centers: Seq<P>,
    velocity: Seq<V>,
    motion: F,
    boundary: Seq<BoundaryKind>,
    sources: Sources,
) -> bool {
    exists|motions: Seq<Seq<Option<Motion>>>|
        {
            &&& #[trigger] are_margin_motions(on, centers, velocity, motion, motions)
            &&& boundary == Seq::new(on.adj.len(), |i: int| on.kind_of(motions, i))
            &&& sources == on.sources_after(motions, on.adj.len())
        }
}

impl Mosaic {
    proof fn lemma_motions_prefix(
        &self,
        i: int,
        sources: Sources,
        short: Seq<Option<Motion>>,
        long: Seq<Option<Motion>>,
        k: nat,
    )
        requires
            k <= short.len() <= long.len(),
            forall|m: int| 0 <= m < k ==> short[m] == long[m],
        ensures
            self.cell_after(i, sources, short, k) == self.cell_after(i, sources, long, k),
        decreases k,
    {
        if k > 0 {
            self.lemma_motions_prefix(i, sources, short, long, (k - 1) as nat);
        }
    }

    proof fn lemma_sources_prefix(
        &self,
        short: Seq<Seq<Option<Motion>>>,
        long: Seq<Seq<Option<Motion>>>,
        n: nat,
    )
        requires
            n <= short.len() <= long.len(),
            forall|m: int| 0 <= m < n ==> short[m] == long[m],
        ensures
            self.sources_after(short, n) == self.sources_after(long, n),
        decreases n,
    {
        if n > 0 {
            self.lemma_sources_prefix(short, long, (n - 1) as nat);
        }
    }

    /// A cell's state depends on the motions across its margins alone.
    proof fn lemma_cell_reads_margins(
        &self,
        i: int,
        sources: Sources,
        x: Seq<Option<Motion>>,
        y: Seq<Option<Motion>>,
        k: nat,
    )
        requires
            forall|m: int| 0 <= m < k && self.is_margin(i, m) ==> #[trigger] x[m] == y[m],
        ensures
            self.cell_after(i, sources, x, k) == self.cell_after(i, sources, y, k),
        decreases k,
    {
        if k > 0 {
            self.lemma_cell_reads_margins(i, sources, x, y, (k - 1) as nat);
            if self.is_margin(i, k - 1) {
                assert(x[k - 1] == y[k - 1]);
            }
        }
    }

    proof fn lemma_sources_read_margins(
        &self,
        x: Seq<Seq<Option<Motion>>>,
        y: Seq<Seq<Option<Motion>>>,
        n: nat,
    )
        requires
            n <= self.adj.len(),
            forall|i: int, m: int|
                0 <= i < n && 0 <= m < self.adj[i].len() && self.is_margin(i, m) ==> #[trigger] x[i][m]
                    == y[i][m],
        ensures
            self.sources_after(x, n) == self.sources_after(y, n),
        decreases n,
    {
        if n > 0 {
            let i = n - 1;
            self.lemma_sources_read_margins(x, y, (n - 1) as nat);
            assert forall|m: int| 0 <= m < self.adj[i].len() && self.is_margin(i, m) implies #[trigger] x[i][m]
                == y[i][m] by {}
            self.lemma_cell_reads_margins(
                i,
                self.sources_after(x, (n - 1) as nat),
                x[i],
                y[i],
                self.adj[i].len(),
            );
        }
    }

    /// A cell whose neighbors all belong to its own plate is no boundary and the source of no
    /// effect.
    pub proof fn law_interior_cells_are_no_boundary(
        &self,
        i: int,
        sources: Sources,
        motions: Seq<Option<Motion>>,
        k: nat,
    )
        requires
            k <= self.adj[i].len(),
            forall|m: int| 0 <= m < k ==> !#[trigger] self.is_margin(i, m),
        ensures
            self.cell_after(i, sources, motions, k).kind == BoundaryKind::Interior,
            self.cell_after(i, sources, motions, k).sources == sources,
        decreases k,
    {
        if k > 0 {
            self.law_interior_cells_are_no_boundary(i, sources, motions, (k - 1) as nat);
            assert(!self.is_margin(i, k - 1));
        }
    }

    /// A cell that has met a margin is a boundary, whatever the motion across it.
    proof fn lemma_margin_is_boundary(
        &self,
        i: int,
        sources: Sources,
        motions: Seq<Option<Motion>>,
        k: nat,
        m: int,
    )
        requires
            0 <= m < k,
            self.is_margin(i, m),
        ensures
            self.cell_after(i, sources, motions, k).kind != BoundaryKind::Interior,
        decreases k,
    {
        if m < k - 1 {
            self.lemma_margin_is_boundary(i, sources, motions, (k - 1) as nat, m);
        }
    }

    /// The cells that are no boundary are those without a neighbor of another plate, and no others:
    /// every boundary cell is classified, however its plates move.
    pub proof fn law_interior_is_without_margins(&self, motions: Seq<Seq<Option<Motion>>>, i: int)
        ensures
            self.kind_of(motions, i) == BoundaryKind::Interior <==> (forall|k: int|
                0 <= k < self.adj[i].len() ==> !#[trigger] self.is_margin(i, k)),
            self.kind_of(motions, i) == BoundaryKind::Interior <==> is_interior(
                self.adj,
                self.plate_id,
                i,
            ),
    {
        let sources = self.sources_after(motions, i as nat);
        let n = self.adj[i].len();
        if forall|k: int| 0 <= k < n ==> !#[trigger] self.is_margin(i, k) {
            self.law_interior_cells_are_no_boundary(i, sources, motions[i], n);
            assert forall|k: int| 0 <= k < n implies self.plate_id[#[trigger] self.adj[i][k] as int]
                == self.plate_id[i] by {
                assert(!self.is_margin(i, k));
            }
        } else {
            let k = choose|k: int| 0 <= k < n && #[trigger] self.is_margin(i, k);
            self.lemma_margin_is_boundary(i, sources, motions[i], n, k);
            assert(self.plate_id[self.adj[i][k] as int] != self.plate_id[i]);
        }
    }

    /// The motions across the first `k` margins of cell `i` are numbers.
    pub open spec fn are_numbers(&self, i: int, motions: Seq<Option<Motion>>, k: int) -> bool {
        forall|m: int|
            #![trigger motions[m]]
            0 <= m < k && self.is_margin(i, m) && motions[m] is Some ==> is_number(
                motions[m]->0.closing,
            ) && is_number(motions[m]->0.shear)
    }

    /// Speed of the margin towards the `m`-th neighbor, counted in the smallest positive real.
    pub open spec fn pace(motions: Seq<Option<Motion>>, m: int) -> int {
        spec_value_key(motions[m]->0.spec_speed())
    }

    /// What is held of the margins seen is the greatest of their speeds; while that is none, no
    /// margin has closed or opened.
    pub(crate) proof fn lemma_best_is_greatest(
        &self,
        i: int,
        sources: Sources,
        motions: Seq<Option<Motion>>,
        k: nat,
    )
        requires
            self.are_numbers(i, motions, k as int),
        ensures
            ({
                let st = self.cell_after(i, sources, motions, k);
                &&& is_number(st.best)
                &&& spec_value_key(st.best) >= 0
                &&& forall|m: int|
                    #![trigger motions[m]]
                    0 <= m < k && self.is_margin(i, m) && motions[m] is Some ==> Self::pace(motions, m)
                        <= spec_value_key(st.best)
                &&& spec_value_key(st.best) == 0 ==> st.kind == BoundaryKind::Interior || st.kind
                    == BoundaryKind::Transform
                &&& spec_value_key(st.best) > 0 ==> exists|m: int|
                    #![trigger motions[m]]
                    0 <= m < k && self.is_margin(i, m) && motions[m] is Some && Self::pace(motions, m)
                        == spec_value_key(st.best)
            }),
        decreases k,
    {
        if k > 0 {
            let less = (k - 1) as nat;
            self.lemma_best_is_greatest(i, sources, motions, less);
            let before = self.cell_after(i, sources, motions, less);
            let st = self.cell_after(i, sources, motions, k);
            let last = motions[k - 1];
            if spec_value_key(st.best) > 0 && st.best == before.best {
                let m = choose|m: int|
                    #![trigger motions[m]]
                    0 <= m < less && self.is_margin(i, m) && motions[m] is Some && Self::pace(motions, m)
                        == spec_value_key(before.best);
                assert(motions[m] is Some);
            }
        }
    }

    /// The kind of a boundary is that of its fastest margin, the first among equals; a cell none of
    /// whose margins has a direction slides.
    pub proof fn law_kind_is_that_of_the_fastest(
        &self,
        i: int,
        sources: Sources,
        motions: Seq<Option<Motion>>,
        k: nat,
        f: int,
    )
        requires
            self.are_numbers(i, motions, k as int),
            0 <= f < k,
            self.is_margin(i, f),
            motions[f] is Some ==> forall|m: int|
                #![trigger motions[m]]
                0 <= m < k && self.is_margin(i, m) && motions[m] is Some ==> Self::pace(motions, m)
                    <= Self::pace(motions, f) && (m < f ==> Self::pace(motions, m) < Self::pace(
                    motions,
                    f,
                )),
            motions[f] is None ==> forall|m: int|
                #![trigger motions[m]]
                0 <= m < k && self.is_margin(i, m) ==> motions[m] is None,
        ensures
            self.cell_after(i, sources, motions, k).kind == match motions[f] {
                Some(m) => m.spec_kind(),
                None => BoundaryKind::Transform,
            },
        decreases k,
    {
        let less = (k - 1) as nat;
        let before = self.cell_after(i, sources, motions, less);
        self.lemma_best_is_greatest(i, sources, motions, less);
        if spec_value_key(before.best) > 0 {
            let m = choose|m: int|
                #![trigger motions[m]]
                0 <= m < less && self.is_margin(i, m) && motions[m] is Some && Self::pace(motions, m)
                    == spec_value_key(before.best);
            assert(motions[m] is Some);
        }
        if f < k - 1 {
            self.law_kind_is_that_of_the_fastest(i, sources, motions, less, f);
            self.lemma_margin_is_boundary(i, sources, motions, less, f);
            let last = motions[k - 1];
            assert(motions[f] is Some ==> Self::pace(motions, f) <= spec_value_key(before.best));
        } else {
            assert(f == k - 1);
        }
    }

    /// Whatever the motions, no effect lists a cell twice or a source without intensity, no
    /// intensity is above one, and every source is a cell.
    pub proof fn law_sources_are_distinct(&self, motions: Seq<Seq<Option<Motion>>>, n: nat)
        requires
            n <= self.adj.len(),
            n <= usize::MAX,
        ensures
            sound(self.sources_after(motions, n), n),
        decreases n,
    {
        if n > 0 {
            self.law_sources_are_distinct(motions, (n - 1) as nat);
            let before = self.sources_after(motions, (n - 1) as nat);
            self.lemma_cell_sound(n - 1, before, motions[n - 1], self.adj[n - 1].len());
        }
    }

    proof fn lemma_cell_sound(&self, i: int, sources: Sources, motions: Seq<Option<Motion>>, k: nat)
        requires
            sound(sources, i as nat),
            0 <= i < usize::MAX,
            k <= self.adj[i].len(),
        ensures
            sound(self.cell_after(i, sources, motions, k).sources, (i + 1) as nat),
        decreases k,
    {
        if k > 0 {
            self.lemma_cell_sound(i, sources, motions, (k - 1) as nat);
            let st = self.cell_after(i, sources, motions, (k - 1) as nat);
            match motions[k - 1] {
                None => {},
                Some(m) => {
                    let rate = m.spec_rate();
                    lemma_recorded_sound(st.sources.orogeny, i as usize, rate, (i + 1) as nat);
                    lemma_recorded_sound(st.sources.rift, i as usize, rate, (i + 1) as nat);
                    lemma_recorded_sound(st.sources.ridge, i as usize, rate, (i + 1) as nat);
                    lemma_recorded_sound(st.sources.trench, i as usize, rate, (i + 1) as nat);
                },
            }
        } else {
            lemma_sound_grows(sources, i as nat);
        }
    }
}

/// Where the motion across a margin is a function of the two positions and velocities, plates have
/// one classification.
pub proof fn law_classification_is_one<P, V, F: Fn(P, P, V, V) -> Option<Motion>>(
    on: Mosaic,
    centers: Seq<P>,
    velocity: Seq<V>,
    motion: F,
    first: (Seq<BoundaryKind>, Sources),
    second: (Seq<BoundaryKind>, Sources),
)
    requires
        forall|p: P, q: P, v: V, w: V, x: Option<Motion>, y: Option<Motion>|
            #[trigger] call_ensures(motion, (p, q, v, w), x) && #[trigger] call_ensures(
                motion,
                (p, q, v, w),
                y,
            ) ==> x == y,
        is_classified(on, centers, velocity, motion, first.0, first.1),
        is_classified(on, centers, velocity, motion, second.0, second.1),
    ensures
        first == second,
{
    let n = on.adj.len();
    let x = choose|motions: Seq<Seq<Option<Motion>>>|
        {
            &&& #[trigger] are_margin_motions(on, centers, velocity, motion, motions)
            &&& first.0 == Seq::new(n, |i: int| on.kind_of(motions, i))
            &&& first.1 == on.sources_after(motions, n)
        };
    let y = choose|motions: Seq<Seq<Option<Motion>>>|
        {
            &&& #[trigger] are_margin_motions(on, centers, velocity, motion, motions)
            &&& second.0 == Seq::new(n, |i: int| on.kind_of(motions, i))
            &&& second.1 == on.sources_after(motions, n)
        };
    assert forall|i: int, m: int|
        0 <= i < n && 0 <= m < on.adj[i].len() && on.is_margin(i, m) implies #[trigger] x[i][m] == y[i][m] by {
        assert(are_cell_motions(on, centers, velocity, motion, i, x[i]));
        assert(are_cell_motions(on, centers, velocity, motion, i, y[i]));
        let j = on.adj[i][m] as int;
        assert(call_ensures(motion, (centers[i], centers[j], velocity[i], velocity[j]), x[i][m]));
        assert(call_ensures(motion, (centers[i], centers[j], velocity[i], velocity[j]), y[i][m]));
    }
    on.lemma_sources_read_margins(x, y, n);
    assert forall|i: int| 0 <= i < n implies on.kind_of(x, i) == on.kind_of(y, i) by {
        assert forall|c: int, m: int|
            0 <= c < i && 0 <= m < on.adj[c].len() && on.is_margin(c, m) implies #[trigger] x[c][m] == y[c][m] by {}
        on.lemma_sources_read_margins(x, y, i as nat);
        assert forall|m: int| 0 <= m < on.adj[i].len() && on.is_margin(i, m) implies #[trigger] x[i][m]
            == y[i][m] by {}
        on.lemma_cell_reads_margins(i, on.sources_after(x, i as nat), x[i], y[i], on.adj[i].len());
    }
    assert(first.0 =~= second.0);
}

/// A list of sources among the first `n` cells: none twice, each with an intensity up to one.
pub open spec fn sound_list(list: Seq<(usize, u32)>, n: nat) -> bool {
    &&& distinct_sources(list)
    &&& forall|a: int| 0 <= a < list.len() ==> (#[trigger] list[a]).0 < n && list[a].1 <= ONE
}

/// All four lists are sound.
pub open spec fn sound(s: Sources, n: nat) -> bool {
    &&& sound_list(s.orogeny, n)
    &&& sound_list(s.rift, n)
    &&& sound_list(s.ridge, n)
    &&& sound_list(s.trench, n)
}

proof fn lemma_sound_grows(s: Sources, n: nat)
    requires
        sound(s, n),
    ensures
        sound(s, n + 1),
{
}

proof fn lemma_recorded_sound(list: Seq<(usize, u32)>, cell: usize, rate: u32, n: nat)
    requires
        sound_list(list, n),
        cell < n,
        rate <= ONE,
    ensures
        sound_list(with_source(list, cell, rate), n),
{
    law_set_source_keeps_the_strongest(list, cell, rate);
    let next = with_source(list, cell, rate);
    assert forall|a: int| 0 <= a < next.len() implies (#[trigger] next[a]).0 < n && next[a].1 <= ONE by {
        if a < list.len() {
            assert(list[a].0 < n && list[a].1 <= ONE);
        }
    }
}

} // verus!
