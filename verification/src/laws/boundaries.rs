//! Plate boundaries: which motions make which kind of boundary, and which cells become the sources of
//! which effect.

use crate::kernel::is_function4;
use crate::order::{
    is_number, law_comparisons_are_those_of_reals, spec_at_most, spec_value_key, unsigned, value, ONE, ZERO,
};
use crate::sim::influence::{counts, lemma_place, place_of, stronger, with_source};
use crate::sim::margin::{
    are_cell_motions, are_margin_motions, is_classified, recorded, spec_effect, spec_outpaces, BoundaryKind, Effect, Mosaic, Motion, Sources,
};
use vstd::prelude::*;

verus! {

/// The plates close on each other: faster than 0.04 of the reference speed.
pub open spec fn closes(m: Motion) -> bool {
    is_number(m.closing) && value(m.closing) > value(0x3D23_D70A)
}

/// The plates separate: faster than 0.04 of the reference speed.
pub open spec fn opens(m: Motion) -> bool {
    is_number(m.closing) && value(m.closing) < -value(0x3D23_D70A)
}

/// The greater of the two rates of a motion, whichever way it goes.
pub open spec fn swiftness(m: Motion) -> int {
    let closing = if value(m.closing) < 0 {
        -value(m.closing)
    } else {
        value(m.closing)
    };
    if value(m.shear) < closing {
        closing
    } else {
        value(m.shear)
    }
}

/// The rate at which plates close or separate, at most one.
pub open spec fn intensity_of(m: Motion) -> int {
    let closing = if value(m.closing) < 0 {
        -value(m.closing)
    } else {
        value(m.closing)
    };
    if closing < value(0x3F80_0000) {
        closing
    } else {
        value(0x3F80_0000)
    }
}

/// The continental fraction is above one half.
pub open spec fn is_land(fraction: u32) -> bool {
    is_number(fraction) && value(fraction) > value(0x3F00_0000)
}

/// The continental fraction is below one half.
pub open spec fn is_sea(fraction: u32) -> bool {
    is_number(fraction) && value(fraction) < value(0x3F00_0000)
}

/// The first fraction is below the second.
pub open spec fn is_denser(own: u32, other: u32) -> bool {
    is_number(own) && is_number(other) && value(own) < value(other)
}

/// What moves, and by which formula.
pub struct Drift<P, V, F> {
    pub on: Mosaic,
    pub centers: Seq<P>,
    pub velocity: Seq<V>,
    pub motion: F,
}

impl<P, V, F: Fn(P, P, V, V) -> Option<Motion>> Drift<P, V, F> {
    /// The `k`-th neighbor of cell `i` belongs to another plate, and `m` is a motion across.
    pub open spec fn is_motion(&self, i: int, k: int, m: Option<Motion>) -> bool {
        let j = self.on.adj[i][k] as int;
        &&& 0 <= k < self.on.adj[i].len()
        &&& self.on.plate_id[j] != self.on.plate_id[i]
        &&& call_ensures(
            self.motion,
            (self.centers[i], self.centers[j], self.velocity[i], self.velocity[j]),
            m,
        )
    }

    /// Continental fraction across the `k`-th edge of cell `i`.
    pub open spec fn across(&self, i: int, k: int) -> u32 {
        self.on.fraction[self.on.adj[i][k] as int]
    }

    /// `boundary` and `sources` are what classifying the boundaries comes to.
    pub open spec fn gives(&self, boundary: Seq<BoundaryKind>, sources: Sources) -> bool {
        is_classified(self.on, self.centers, self.velocity, self.motion, boundary, sources)
    }

    /// The motion towards the `k`-th neighbor is the first of the swiftest across margins of cell `i`.
    pub open spec fn is_swiftest(&self, i: int, k: int, m: Motion) -> bool {
        &&& self.is_motion(i, k, Some(m))
        &&& is_number(m.closing)
        &&& is_number(m.shear)
        &&& forall|j: int, o: Motion| #[trigger]
            self.is_motion(i, j, Some(o)) ==> is_number(o.closing) && is_number(o.shear) && swiftness(o)
                <= swiftness(m) && (j < k ==> swiftness(o) < swiftness(m))
    }

    /// `row` holds a motion across each margin of cell `i`.
    pub open spec fn is_row(&self, i: int, row: Seq<Option<Motion>>) -> bool {
        &&& row.len() == self.on.adj[i].len()
        &&& forall|j: int|
            0 <= j < row.len() && self.on.plate_id[self.on.adj[i][j] as int] != self.on.plate_id[i]
                ==> self.is_motion(i, j, #[trigger] row[j])
    }

    /// The motion towards the `k`-th neighbor is there and swifter than all before it; what is no number
    /// cannot be told.
    pub open spec fn leads(&self, i: int, row: Seq<Option<Motion>>, k: int) -> bool {
        &&& 0 <= k < row.len()
        &&& self.on.plate_id[self.on.adj[i][k] as int] != self.on.plate_id[i]
        &&& row[k] is Some
        &&& (forall|j: int|
            0 <= j <= k && self.is_motion(i, j, row[j]) && (#[trigger] row[j]) is Some ==> is_number(
                row[j]->0.closing,
            ) && is_number(row[j]->0.shear)) ==> swiftness(row[k]->0) > 0 && forall|j: int|
            0 <= j < k && self.is_motion(i, j, row[j]) && (#[trigger] row[j]) is Some ==> swiftness(
                row[j]->0,
            ) < swiftness(row[k]->0)
    }

    /// A margin of cell `i` that is swifter than those before it makes it a source of `effect` of
    /// intensity `x`.
    pub open spec fn is_caused(&self, effect: Effect, i: int, x: u32) -> bool {
        exists|row: Seq<Option<Motion>>, k: int|
            {
                &&& self.is_row(i, row)
                &&& #[trigger] self.leads(i, row, k)
                &&& self.does(effect, i, k, row[k]->0, x)
            }
    }

    /// What motion `m` across the `k`-th edge does to cell `i` is `effect`, of intensity `x`.
    pub open spec fn does(&self, effect: Effect, i: int, k: int, m: Motion, x: u32) -> bool {
        &&& is_number(x)
        &&& value(x) == intensity_of(m)
        &&& match effect {
            Effect::Orogeny => closes(m) && (is_land(self.on.fraction[i]) && is_land(self.across(i, k))
                || !is_denser(self.on.fraction[i], self.across(i, k))),
            Effect::Trench => closes(m) && is_denser(self.on.fraction[i], self.across(i, k)) && !(is_land(
                self.on.fraction[i],
            ) && is_land(self.across(i, k))),
            Effect::Ridge => opens(m) && is_sea(self.on.fraction[i]),
            Effect::Rift => opens(m) && !is_sea(self.on.fraction[i]),
        }
    }

    /// Every source listed for `effect` is caused.
    pub open spec fn are_caused(&self, effect: Effect, list: Seq<(usize, u32)>) -> bool {
        forall|a: int|
            0 <= a < list.len() ==> self.is_caused(effect, (#[trigger] list[a]).0 as int, list[a].1)
    }

    /// The sources of every effect have their cause: a mountain belt rises only where plates close, on
    /// two continents or on the side that does not sink; a trench lies only where plates close, on the
    /// side of the smaller continental fraction; a ridge only where plates separate in oceanic crust,
    /// and a rift where they separate in other crust. Each is as intense as the motion is fast, up to
    /// one.
    pub proof fn law_sources_have_their_cause(&self, boundary: Seq<BoundaryKind>, sources: Sources)
        requires
            self.on.adj.len() <= usize::MAX,
            self.gives(boundary, sources),
        ensures
            self.are_caused(Effect::Orogeny, sources.orogeny),
            self.are_caused(Effect::Trench, sources.trench),
            self.are_caused(Effect::Ridge, sources.ridge),
            self.are_caused(Effect::Rift, sources.rift),
    {
        let motions = choose|motions: Seq<Seq<Option<Motion>>>|
            {
                &&& #[trigger] are_margin_motions(
                    self.on,
                    self.centers,
                    self.velocity,
                    self.motion,
                    motions,
                )
                &&& boundary == Seq::new(self.on.adj.len(), |i: int| self.on.kind_of(motions, i))
                &&& sources == self.on.sources_after(motions, self.on.adj.len())
            };
        self.lemma_all_caused(motions, self.on.adj.len());
    }

    spec fn all_caused(&self, s: Sources) -> bool {
        &&& self.are_caused(Effect::Orogeny, s.orogeny)
        &&& self.are_caused(Effect::Trench, s.trench)
        &&& self.are_caused(Effect::Ridge, s.ridge)
        &&& self.are_caused(Effect::Rift, s.rift)
    }

    proof fn lemma_all_caused(&self, motions: Seq<Seq<Option<Motion>>>, n: nat)
        requires
            self.on.adj.len() <= usize::MAX,
            n <= self.on.adj.len(),
            are_margin_motions(self.on, self.centers, self.velocity, self.motion, motions),
        ensures
            self.all_caused(self.on.sources_after(motions, n)),
        decreases n,
    {
        if n > 0 {
            self.lemma_all_caused(motions, (n - 1) as nat);
            assert(are_cell_motions(
                self.on,
                self.centers,
                self.velocity,
                self.motion,
                n - 1,
                motions[n - 1],
            ));
            self.lemma_cell_caused(
                n - 1,
                self.on.sources_after(motions, (n - 1) as nat),
                motions[n - 1],
                self.on.adj[n - 1].len(),
            );
        }
    }

    proof fn lemma_cell_caused(&self, i: int, sources: Sources, row: Seq<Option<Motion>>, k: nat)
        requires
            0 <= i < self.on.adj.len() <= usize::MAX,
            k <= self.on.adj[i].len(),
            self.all_caused(sources),
            are_cell_motions(self.on, self.centers, self.velocity, self.motion, i, row),
        ensures
            self.all_caused(self.on.cell_after(i, sources, row, k).sources),
        decreases k,
    {
        if k > 0 {
            self.lemma_cell_caused(i, sources, row, (k - 1) as nat);
            let st = self.on.cell_after(i, sources, row, (k - 1) as nat);
            let next = self.on.cell_after(i, sources, row, k);
            if self.on.is_margin(i, k - 1) {
                if let Some(m) = row[k - 1] {
                    assert(self.is_motion(i, k - 1, Some(m)));
                    assert(self.is_row(i, row)) by {
                        assert forall|j: int|
                            0 <= j < row.len() && self.on.plate_id[self.on.adj[i][j] as int]
                                != self.on.plate_id[i] implies self.is_motion(i, j, #[trigger] row[j]) by {
                            assert(self.on.is_margin(i, j));
                        }
                    }
                    if spec_outpaces(m.spec_speed(), st.best) {
                        self.lemma_leads(i, sources, row, (k - 1) as nat, m);
                    }
                    let own = self.on.fraction[i];
                    let other = self.across(i, k - 1);
                    law_comparisons_are_those_of_reals(0x3D23_D70A, m.closing);
                    law_comparisons_are_those_of_reals(m.closing, 0xBD23_D70A);
                    law_comparisons_are_those_of_reals(0x3F00_0000, own);
                    law_comparisons_are_those_of_reals(0x3F00_0000, other);
                    law_comparisons_are_those_of_reals(own, 0x3F00_0000);
                    law_comparisons_are_those_of_reals(own, other);
                    lemma_rate(m);
                    let rate = m.spec_rate();
                    lemma_entries(st.sources.orogeny, i as usize, rate);
                    lemma_entries(st.sources.trench, i as usize, rate);
                    lemma_entries(st.sources.ridge, i as usize, rate);
                    lemma_entries(st.sources.rift, i as usize, rate);
                    self.lemma_list_caused(Effect::Orogeny, st.sources.orogeny, next.sources.orogeny, i, rate);
                    self.lemma_list_caused(Effect::Trench, st.sources.trench, next.sources.trench, i, rate);
                    self.lemma_list_caused(Effect::Ridge, st.sources.ridge, next.sources.ridge, i, rate);
                    self.lemma_list_caused(Effect::Rift, st.sources.rift, next.sources.rift, i, rate);
                }
            }
        }
    }

    proof fn lemma_leads(&self, i: int, sources: Sources, row: Seq<Option<Motion>>, k: nat, m: Motion)
        requires
            0 <= i < self.on.adj.len(),
            k < self.on.adj[i].len() == row.len(),
            self.is_row(i, row),
            self.on.is_margin(i, k as int),
            row[k as int] == Some(m),
            spec_outpaces(m.spec_speed(), self.on.cell_after(i, sources, row, k).best),
        ensures
            self.leads(i, row, k as int),
    {
        let st = self.on.cell_after(i, sources, row, k);
        if forall|j: int|
            0 <= j <= k && self.is_motion(i, j, row[j]) && (#[trigger] row[j]) is Some ==> is_number(
                row[j]->0.closing,
            ) && is_number(row[j]->0.shear) {
            assert(self.is_motion(i, k as int, row[k as int]));
            assert(self.on.are_numbers(i, row, k as int));
            self.on.lemma_best_is_greatest(i, sources, row, k);
            lemma_speed(m);
            law_comparisons_are_those_of_reals(st.best, m.spec_speed());
            law_comparisons_are_those_of_reals(ZERO, st.best);
            assert forall|j: int| 0 <= j < k && self.is_motion(i, j, row[j]) && (#[trigger] row[j]) is Some implies swiftness(
                row[j]->0,
            ) < swiftness(m) by {
                assert(Mosaic::pace(row, j) <= spec_value_key(st.best));
                lemma_pace(row[j]->0, m);
            }
        }
    }

    proof fn lemma_list_caused(
        &self,
        effect: Effect,
        list: Seq<(usize, u32)>,
        next: Seq<(usize, u32)>,
        i: int,
        rate: u32,
    )
        requires
            0 <= i <= usize::MAX,
            self.are_caused(effect, list),
            next == list || next == with_source(list, i as usize, rate) && self.is_caused(effect, i, rate),
        ensures
            self.are_caused(effect, next),
    {
        lemma_entries(list, i as usize, rate);
        assert forall|a: int| 0 <= a < next.len() implies self.is_caused(
            effect,
            (#[trigger] next[a]).0 as int,
            next[a].1,
        ) by {
            if next != list && next[a] != (i as usize, rate) {
                let b = list.index_of(next[a]);
                assert(list[b] == next[a]);
            } else if next == list {
                assert(list[a] == next[a]);
            }
        }
    }

    /// Cell `i` is listed with at least the intensity of `m`.
    pub open spec fn is_listed(list: Seq<(usize, u32)>, i: int, m: Motion) -> bool {
        exists|a: int|
            0 <= a < list.len() && (#[trigger] list[a]).0 == i && is_number(list[a].1) && value(list[a].1)
                >= intensity_of(m)
    }

    /// The swiftest margin of a cell decides: where the motion across a margin is a function, the cell
    /// is a boundary of the kind of the first of its swiftest margins, and a source of what that margin
    /// does, at least as intense as it is fast.
    pub proof fn law_the_swiftest_margin_decides(
        &self,
        boundary: Seq<BoundaryKind>,
        sources: Sources,
        i: int,
        k: int,
        m: Motion,
    )
        requires
            is_function4(self.motion),
            self.on.adj.len() <= usize::MAX,
            self.gives(boundary, sources),
            0 <= i < self.on.adj.len(),
            self.is_swiftest(i, k, m),
        ensures
            closes(m) <==> boundary[i] == BoundaryKind::Convergent,
            opens(m) <==> boundary[i] == BoundaryKind::Divergent,
            !closes(m) && !opens(m) <==> boundary[i] == BoundaryKind::Transform,
            closes(m) && is_land(self.on.fraction[i]) && is_land(self.across(i, k)) ==> Self::is_listed(
                sources.orogeny,
                i,
                m,
            ),
            closes(m) && !is_denser(self.on.fraction[i], self.across(i, k)) ==> Self::is_listed(
                sources.orogeny,
                i,
                m,
            ),
            closes(m) && is_denser(self.on.fraction[i], self.across(i, k)) && !(is_land(self.on.fraction[i])
                && is_land(self.across(i, k))) ==> Self::is_listed(sources.trench, i, m),
            opens(m) && is_sea(self.on.fraction[i]) ==> Self::is_listed(sources.ridge, i, m),
            opens(m) && !is_sea(self.on.fraction[i]) ==> Self::is_listed(sources.rift, i, m),
    {
        let motions = choose|motions: Seq<Seq<Option<Motion>>>|
            {
                &&& #[trigger] are_margin_motions(
                    self.on,
                    self.centers,
                    self.velocity,
                    self.motion,
                    motions,
                )
                &&& boundary == Seq::new(self.on.adj.len(), |c: int| self.on.kind_of(motions, c))
                &&& sources == self.on.sources_after(motions, self.on.adj.len())
            };
        assert(are_cell_motions(
            self.on,
            self.centers,
            self.velocity,
            self.motion,
            i,
            motions[i],
        ));
        let row = motions[i];
        assert(self.on.is_margin(i, k));
        assert(row[k] == Some(m));
        assert forall|j: int| 0 <= j < row.len() && self.on.is_margin(i, j) && (#[trigger] row[j]) is Some implies {
            &&& is_number(row[j]->0.closing)
            &&& is_number(row[j]->0.shear)
            &&& Mosaic::pace(row, j) <= Mosaic::pace(row, k)
            &&& j < k ==> Mosaic::pace(row, j) < Mosaic::pace(row, k)
        } by {
            assert(self.is_motion(i, j, row[j]));
            lemma_pace(row[j]->0, m);
        }
        let before = self.on.sources_after(motions, i as nat);
        let own = self.on.fraction[i];
        let other = self.across(i, k);
        law_comparisons_are_those_of_reals(0x3D23_D70A, m.closing);
        law_comparisons_are_those_of_reals(m.closing, 0xBD23_D70A);
        law_comparisons_are_those_of_reals(0x3F00_0000, own);
        law_comparisons_are_those_of_reals(0x3F00_0000, other);
        law_comparisons_are_those_of_reals(own, 0x3F00_0000);
        law_comparisons_are_those_of_reals(own, other);
        self.on.law_kind_is_that_of_the_fastest(i, before, row, self.on.adj[i].len(), k);
        assert(boundary[i] == m.spec_kind());
        if closes(m) || opens(m) {
            lemma_rate(m);
            lemma_rate_counts(m);
            self.lemma_swiftest_listed(i, before, row, self.on.adj[i].len(), k, m);
            let done = self.on.cell_done(i, before, row).sources;
            assert(done == self.on.sources_after(motions, (i + 1) as nat));
            self.lemma_listed_stays(motions, i, m, self.on.adj.len());
        }
    }

    /// Every margin of a cell that is swifter than those before it makes the cell a source of what it
    /// does, at least as intense as it is fast, where the motion across a margin is a function.
    pub proof fn law_leading_margins_are_sources(
        &self,
        boundary: Seq<BoundaryKind>,
        sources: Sources,
        i: int,
        row: Seq<Option<Motion>>,
        k: int,
        effect: Effect,
        x: u32,
    )
        requires
            is_function4(self.motion),
            self.on.adj.len() <= usize::MAX,
            self.gives(boundary, sources),
            0 <= i < self.on.adj.len(),
            self.is_row(i, row),
            self.leads(i, row, k),
            forall|j: int|
                0 <= j <= k && self.is_motion(i, j, row[j]) && (#[trigger] row[j]) is Some ==> is_number(
                    row[j]->0.closing,
                ) && is_number(row[j]->0.shear),
            self.does(effect, i, k, row[k]->0, x),
        ensures
            Self::is_listed(
                match effect {
                    Effect::Orogeny => sources.orogeny,
                    Effect::Trench => sources.trench,
                    Effect::Ridge => sources.ridge,
                    Effect::Rift => sources.rift,
                },
                i,
                row[k]->0,
            ),
    {
        let motions = choose|motions: Seq<Seq<Option<Motion>>>|
            {
                &&& #[trigger] are_margin_motions(
                    self.on,
                    self.centers,
                    self.velocity,
                    self.motion,
                    motions,
                )
                &&& boundary == Seq::new(self.on.adj.len(), |c: int| self.on.kind_of(motions, c))
                &&& sources == self.on.sources_after(motions, self.on.adj.len())
            };
        assert(are_cell_motions(
            self.on,
            self.centers,
            self.velocity,
            self.motion,
            i,
            motions[i],
        ));
        let had = motions[i];
        let m = row[k]->0;
        assert forall|j: int| 0 <= j < row.len() && self.on.is_margin(i, j) implies #[trigger] row[j] == had[j] by {
            assert(self.is_motion(i, j, row[j]));
            assert(self.is_motion(i, j, had[j]));
        }
        assert(self.on.is_margin(i, k));
        assert(self.is_motion(i, k, row[k]));
        assert(had[k] == Some(m));
        assert forall|j: int|
            0 <= j < k + 1 && self.on.is_margin(i, j) && (#[trigger] had[j]) is Some implies {
            &&& is_number(had[j]->0.closing)
            &&& is_number(had[j]->0.shear)
            &&& Mosaic::pace(had, j) <= Mosaic::pace(had, k)
            &&& j < k ==> Mosaic::pace(had, j) < Mosaic::pace(had, k)
        } by {
            assert(row[j] == had[j]);
            assert(self.is_motion(i, j, row[j]));
            lemma_pace(had[j]->0, m);
        }
        let before = self.on.sources_after(motions, i as nat);
        let own = self.on.fraction[i];
        let other = self.across(i, k);
        law_comparisons_are_those_of_reals(0x3D23_D70A, m.closing);
        law_comparisons_are_those_of_reals(m.closing, 0xBD23_D70A);
        law_comparisons_are_those_of_reals(0x3F00_0000, own);
        law_comparisons_are_those_of_reals(0x3F00_0000, other);
        law_comparisons_are_those_of_reals(own, 0x3F00_0000);
        law_comparisons_are_those_of_reals(own, other);
        lemma_rate(m);
        lemma_rate_counts(m);
        self.lemma_swiftest_listed(i, before, had, (k + 1) as nat, k, m);
        self.lemma_listed_on(i, before, had, self.on.adj[i].len(), (k + 1) as nat, k, m);
        assert(self.on.cell_done(i, before, had).sources == self.on.sources_after(motions, (i + 1) as nat));
        self.lemma_listed_stays(motions, i, m, self.on.adj.len());
    }

    /// What a cell records later leaves it listed.
    proof fn lemma_listed_on(
        &self,
        i: int,
        sources: Sources,
        row: Seq<Option<Motion>>,
        n: nat,
        from: nat,
        k: int,
        m: Motion,
    )
        requires
            0 <= i < self.on.adj.len() <= usize::MAX,
            from <= n,
            self.is_recorded(self.on.cell_after(i, sources, row, from).sources, i, k, m),
        ensures
            self.is_recorded(self.on.cell_after(i, sources, row, n).sources, i, k, m),
        decreases n,
    {
        if n > from {
            self.lemma_listed_on(i, sources, row, (n - 1) as nat, from, k, m);
            let st = self.on.cell_after(i, sources, row, (n - 1) as nat).sources;
            if let Some(o) = row[n - 1] {
                let rate = o.spec_rate();
                Self::lemma_same_leaves(st.orogeny, i as usize, rate, m);
                Self::lemma_same_leaves(st.trench, i as usize, rate, m);
                Self::lemma_same_leaves(st.ridge, i as usize, rate, m);
                Self::lemma_same_leaves(st.rift, i as usize, rate, m);
            }
        }
    }

    proof fn lemma_same_leaves(list: Seq<(usize, u32)>, cell: usize, rate: u32, m: Motion)
        ensures
            Self::is_listed(list, cell as int, m) ==> Self::is_listed(
                with_source(list, cell, rate),
                cell as int,
                m,
            ),
    {
        lemma_place(list, cell);
        if Self::is_listed(list, cell as int, m) {
            let a = choose|a: int|
                0 <= a < list.len() && (#[trigger] list[a]).0 == cell && is_number(list[a].1) && value(
                    list[a].1,
                ) >= intensity_of(m);
            let next = with_source(list, cell, rate);
            let at = place_of(list, cell) as int;
            if a == at && counts(rate) {
                law_comparisons_are_those_of_reals(list[a].1, rate);
                assert(next[a] == (cell, stronger(list[a].1, rate)));
            } else {
                assert(next[a] == list[a]);
            }
        }
    }

    /// The effect of `m` at cell `i` lists the cell.
    spec fn is_recorded(&self, s: Sources, i: int, k: int, m: Motion) -> bool {
        match spec_effect(m.spec_kind(), self.on.fraction[i], self.across(i, k)) {
            Some(Effect::Orogeny) => Self::is_listed(s.orogeny, i, m),
            Some(Effect::Trench) => Self::is_listed(s.trench, i, m),
            Some(Effect::Ridge) => Self::is_listed(s.ridge, i, m),
            Some(Effect::Rift) => Self::is_listed(s.rift, i, m),
            None => true,
        }
    }

    proof fn lemma_swiftest_listed(
        &self,
        i: int,
        sources: Sources,
        row: Seq<Option<Motion>>,
        n: nat,
        k: int,
        m: Motion,
    )
        requires
            0 <= i < self.on.adj.len() <= usize::MAX,
            0 <= k < n <= self.on.adj[i].len(),
            self.on.is_margin(i, k),
            row[k] == Some(m),
            counts(m.spec_rate()),
            is_number(m.spec_rate()),
            value(m.spec_rate()) == intensity_of(m),
            spec_value_key(m.spec_speed()) > 0,
            is_number(m.spec_speed()),
            forall|j: int|
                0 <= j < n && self.on.is_margin(i, j) && (#[trigger] row[j]) is Some ==> {
                    &&& is_number(row[j]->0.closing)
                    &&& is_number(row[j]->0.shear)
                    &&& Mosaic::pace(row, j) <= Mosaic::pace(row, k)
                    &&& j < k ==> Mosaic::pace(row, j) < Mosaic::pace(row, k)
                },
        ensures
            self.is_recorded(self.on.cell_after(i, sources, row, n).sources, i, k, m),
        decreases n,
    {
        let less = (n - 1) as nat;
        let st = self.on.cell_after(i, sources, row, less);
        self.on.lemma_best_is_greatest(i, sources, row, less);
        if spec_value_key(st.best) > 0 {
            let j = choose|j: int|
                #![trigger row[j]]
                0 <= j < less && self.on.is_margin(i, j) && row[j] is Some && Mosaic::pace(row, j)
                    == spec_value_key(st.best);
            assert(row[j] is Some);
        }
        if k < n - 1 {
            self.lemma_swiftest_listed(i, sources, row, less, k, m);
            assert(row[k] is Some);
            let last = row[n - 1];
        } else {
            let rate = m.spec_rate();
            lemma_with_source_lists(st.sources.orogeny, i as usize, rate);
            lemma_with_source_lists(st.sources.trench, i as usize, rate);
            lemma_with_source_lists(st.sources.ridge, i as usize, rate);
            lemma_with_source_lists(st.sources.rift, i as usize, rate);
            assert(self.on.cell_after(i, sources, row, n).sources == recorded(
                st.sources,
                spec_effect(m.spec_kind(), self.on.fraction[i], self.across(i, k)),
                i as usize,
                rate,
            ));
            let next = self.on.cell_after(i, sources, row, n).sources;
            Self::lemma_listed(next.orogeny, i, m);
            Self::lemma_listed(next.trench, i, m);
            Self::lemma_listed(next.ridge, i, m);
            Self::lemma_listed(next.rift, i, m);
        }
    }

    proof fn lemma_listed(list: Seq<(usize, u32)>, i: int, m: Motion)
        requires
            is_number(m.spec_rate()),
            value(m.spec_rate()) == intensity_of(m),
        ensures
            (exists|a: int|
                0 <= a < list.len() && (#[trigger] list[a]).0 == i && spec_at_most(
                    m.spec_rate(),
                    list[a].1,
                )) ==> Self::is_listed(list, i, m),
    {
        if exists|a: int|
            0 <= a < list.len() && (#[trigger] list[a]).0 == i && spec_at_most(m.spec_rate(), list[a].1) {
            let a = choose|a: int|
                0 <= a < list.len() && (#[trigger] list[a]).0 == i && spec_at_most(
                    m.spec_rate(),
                    list[a].1,
                );
            law_comparisons_are_those_of_reals(m.spec_rate(), list[a].1);
            assert(list[a].0 == i);
        }
    }

    /// What other cells record leaves the sources of a cell as they are.
    proof fn lemma_listed_stays(&self, motions: Seq<Seq<Option<Motion>>>, i: int, m: Motion, n: nat)
        requires
            0 <= i < n <= self.on.adj.len() <= usize::MAX,
        ensures
            ({
                let s = self.on.sources_after(motions, (i + 1) as nat);
                let t = self.on.sources_after(motions, n);
                &&& Self::is_listed(s.orogeny, i, m) ==> Self::is_listed(t.orogeny, i, m)
                &&& Self::is_listed(s.trench, i, m) ==> Self::is_listed(t.trench, i, m)
                &&& Self::is_listed(s.ridge, i, m) ==> Self::is_listed(t.ridge, i, m)
                &&& Self::is_listed(s.rift, i, m) ==> Self::is_listed(t.rift, i, m)
            }),
        decreases n,
    {
        if n > i + 1 {
            self.lemma_listed_stays(motions, i, m, (n - 1) as nat);
            self.lemma_others_leave(
                n - 1,
                self.on.sources_after(motions, (n - 1) as nat),
                motions[n - 1],
                self.on.adj[n - 1].len(),
                i,
                m,
            );
        }
    }

    proof fn lemma_others_leave(
        &self,
        c: int,
        sources: Sources,
        row: Seq<Option<Motion>>,
        n: nat,
        i: int,
        m: Motion,
    )
        requires
            0 <= i < c < self.on.adj.len() <= usize::MAX,
        ensures
            ({
                let t = self.on.cell_after(c, sources, row, n).sources;
                &&& Self::is_listed(sources.orogeny, i, m) ==> Self::is_listed(t.orogeny, i, m)
                &&& Self::is_listed(sources.trench, i, m) ==> Self::is_listed(t.trench, i, m)
                &&& Self::is_listed(sources.ridge, i, m) ==> Self::is_listed(t.ridge, i, m)
                &&& Self::is_listed(sources.rift, i, m) ==> Self::is_listed(t.rift, i, m)
            }),
        decreases n,
    {
        if n > 0 {
            self.lemma_others_leave(c, sources, row, (n - 1) as nat, i, m);
            let st = self.on.cell_after(c, sources, row, (n - 1) as nat).sources;
            if let Some(o) = row[n - 1] {
                let rate = o.spec_rate();
                Self::lemma_other_leaves(st.orogeny, c as usize, rate, i, m);
                Self::lemma_other_leaves(st.trench, c as usize, rate, i, m);
                Self::lemma_other_leaves(st.ridge, c as usize, rate, i, m);
                Self::lemma_other_leaves(st.rift, c as usize, rate, i, m);
            }
        }
    }

    proof fn lemma_other_leaves(list: Seq<(usize, u32)>, cell: usize, rate: u32, i: int, m: Motion)
        requires
            i != cell,
        ensures
            Self::is_listed(list, i, m) ==> Self::is_listed(with_source(list, cell, rate), i, m),
    {
        lemma_place(list, cell);
        if Self::is_listed(list, i, m) {
            let a = choose|a: int|
                0 <= a < list.len() && (#[trigger] list[a]).0 == i && is_number(list[a].1) && value(
                    list[a].1,
                ) >= intensity_of(m);
            assert(with_source(list, cell, rate)[a] == list[a]);
        }
    }
}

/// A recorded source that counts is listed, at least as strong as given.
proof fn lemma_with_source_lists(list: Seq<(usize, u32)>, cell: usize, rate: u32)
    requires
        counts(rate),
        is_number(rate),
    ensures
        exists|a: int|
            0 <= a < with_source(list, cell, rate).len() && (#[trigger] with_source(list, cell, rate)[a]).0
                == cell && spec_at_most(rate, with_source(list, cell, rate)[a].1),
{
    lemma_place(list, cell);
    let next = with_source(list, cell, rate);
    let at = place_of(list, cell) as int;
    if at < list.len() {
        assert(next[at] == (cell, stronger(list[at].1, rate)));
    } else {
        assert(next[list.len() as int] == (cell, rate));
    }
}

/// The speed of a motion is its swiftness.
proof fn lemma_pace(a: Motion, b: Motion)
    requires
        is_number(a.closing),
        is_number(a.shear),
        is_number(b.closing),
        is_number(b.shear),
    ensures
        swiftness(a) <= swiftness(b) <==> spec_value_key(a.spec_speed()) <= spec_value_key(b.spec_speed()),
        swiftness(a) < swiftness(b) <==> spec_value_key(a.spec_speed()) < spec_value_key(b.spec_speed()),
{
    lemma_speed(a);
    lemma_speed(b);
    law_comparisons_are_those_of_reals(a.spec_speed(), b.spec_speed());
}

proof fn lemma_speed(m: Motion)
    requires
        is_number(m.closing),
        is_number(m.shear),
    ensures
        is_number(m.spec_speed()),
        value(m.spec_speed()) == swiftness(m),
{
    law_comparisons_are_those_of_reals(m.shear, unsigned(m.closing));
}

/// Plates that close or separate do so at a rate that counts.
proof fn lemma_rate_counts(m: Motion)
    requires
        closes(m) || opens(m),
        is_number(m.shear),
    ensures
        counts(m.spec_rate()),
        spec_value_key(m.spec_speed()) > 0,
        is_number(m.spec_speed()),
{
    lemma_rate(m);
    lemma_speed(m);
    law_comparisons_are_those_of_reals(0x3D23_D70A, unsigned(m.closing));
    law_comparisons_are_those_of_reals(ZERO, 0x3D23_D70A);
    law_comparisons_are_those_of_reals(m.spec_rate(), ZERO);
    law_comparisons_are_those_of_reals(ZERO, m.spec_speed());
    law_comparisons_are_those_of_reals(ZERO, ONE);
}

/// What a list holds once a source is recorded: what it held, or the source.
proof fn lemma_entries(list: Seq<(usize, u32)>, cell: usize, rate: u32)
    ensures
        forall|a: int|
            0 <= a < with_source(list, cell, rate).len() ==> (#[trigger] with_source(list, cell, rate)[a]) == (
            cell,
            rate,
        ) || list.contains(with_source(list, cell, rate)[a]),
{
    let next = with_source(list, cell, rate);
    lemma_place(list, cell);
    assert forall|a: int| 0 <= a < next.len() implies (#[trigger] next[a]) == (cell, rate) || list.contains(
        next[a],
    ) by {
        if a < list.len() {
            assert(list.contains(list[a]));
        }
    }
}

/// The rate of a motion whose plates close or separate is its intensity.
proof fn lemma_rate(m: Motion)
    ensures
        is_number(m.closing) ==> is_number(m.spec_rate()) && value(m.spec_rate()) == intensity_of(m),
{
    law_comparisons_are_those_of_reals(unsigned(m.closing), ONE);
}

} // verus!
