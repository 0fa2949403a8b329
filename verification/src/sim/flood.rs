//! Flooding a height field with a fixed volume of water, and the area quantile that continents
//! are cut out with.
//!
//! The sea level, and with it the land, emerges from pouring a given volume over the topography:
//! [`Flood::solve_sea_level`] brackets the level and bisects. Heights are patterns of reals; the
//! arithmetic on them and on volumes is the caller's.

use crate::fold::{
    fold, is_fold, is_running, lemma_fold_is_one, lemma_running_is_one, lemma_running_prefix,
    lemma_running_step,
};
use crate::order::{
    at_most, below, is_number, is_stable_order, law_stable_order_is_unique, number, spec_at_most,
    spec_below, spec_total_key, spec_value_key, stable_order, total_key, value_key, INFINITY, ZERO,
};
use vstd::prelude::*;

verus! {

/// Bisection steps that the sea level is narrowed by.
pub const BISECTIONS: usize = 100;

/// The total-order keys of `values`.
pub open spec fn total_keys(values: Seq<u32>) -> Seq<i32> {
    Seq::new(values.len(), |i: int| spec_total_key(values[i]) as i32)
}

/// `items` in the given order.
pub open spec fn arranged<A>(items: Seq<A>, order: Seq<usize>) -> Seq<A> {
    Seq::new(order.len(), |k: int| items[order[k] as int])
}

/// The arithmetic of an area quantile.
pub struct Measure<'a, A, T, F, G, H> {
    /// Areas of the cells.
    pub areas: &'a Vec<A>,
    /// No area.
    pub zero: T,
    /// An accumulated area and one cell's area more.
    pub plus: F,
    /// The area to accumulate, out of the total.
    pub goal: G,
    /// The first area is at least the second.
    pub met: H,
}

impl<'a, A, T, F, G, H> Measure<'a, A, T, F, G, H> where
    F: Fn(T, A) -> T,
    G: Fn(T) -> T,
    H: Fn(T, T) -> bool,
 {
    /// The operations take every value.
    pub open spec fn total(&self) -> bool {
        &&& forall|t: T, a: A| #[trigger] call_requires(self.plus, (t, a))
        &&& forall|t: T| #[trigger] call_requires(self.goal, (t,))
        &&& forall|t: T, u: T| #[trigger] call_requires(self.met, (t, u))
    }

    /// The first `m` cells of `order`, whose areas add up as `accs`, are the least that meet the
    /// target, or all that there are.
    pub open spec fn is_cut(
        &self,
        order: Seq<usize>,
        target: T,
        accs: Seq<T>,
        m: int,
    ) -> bool {
        &&& 0 <= m <= order.len()
        &&& is_running(self.plus, self.zero, arranged(self.areas@, order).take(m), accs)
        &&& forall|k: int|
            1 <= k < m ==> call_ensures(self.met, (#[trigger] accs[k], target), false)
        &&& if m > 0 {
            call_ensures(self.met, (accs[m], target), true) || (m == order.len() && call_ensures(
                self.met,
                (accs[m], target),
                false,
            ))
        } else {
            order.len() == 0
        }
    }

    /// `v` is the area-weighted quantile of `values`: with the cells in ascending order of value
    /// (stable, total order of reals) and their areas accumulated, it is the value of the cell at
    /// which the goal is met, of the last cell where it never is, and zero where there is none.
    pub open spec fn is_quantile(&self, values: Seq<u32>, v: u32) -> bool {
        exists|all: T, target: T, order: Seq<usize>, accs: Seq<T>, m: int|
            {
                &&& is_fold(self.plus, self.zero, self.areas@, all)
                &&& #[trigger] call_ensures(self.goal, (all,), target)
                &&& is_stable_order(total_keys(values), order)
                &&& #[trigger] self.is_cut( order, target, accs, m)
                &&& v == if m > 0 {
                    values[order[m - 1] as int]
                } else {
                    ZERO
                }
            }
    }

    /// The operations are functions.
    pub open spec fn repeatable(&self) -> bool {
        &&& forall|t: T, a: A, x: T, y: T|
            #[trigger] call_ensures(self.plus, (t, a), x) && #[trigger] call_ensures(
                self.plus,
                (t, a),
                y,
            ) ==> x == y
        &&& forall|t: T, x: T, y: T|
            #[trigger] call_ensures(self.goal, (t,), x) && #[trigger] call_ensures(self.goal, (t,), y)
                ==> x == y
        &&& forall|t: T, u: T|
            !(#[trigger] call_ensures(self.met, (t, u), true) && call_ensures(self.met, (t, u), false))
    }

    /// Where the operations are functions, a list of values has one quantile.
    pub proof fn law_quantile_is_one(&self, values: Seq<u32>, v: u32, w: u32)
        requires
            self.repeatable(),
            values.len() <= self.areas@.len(),
            self.is_quantile(values, v),
            self.is_quantile(values, w),
        ensures
            v == w,
    {
        let (all, target, order, accs, m) = choose|
            all: T,
            target: T,
            order: Seq<usize>,
            accs: Seq<T>,
            m: int,
        |
            {
                &&& is_fold(self.plus, self.zero, self.areas@, all)
                &&& #[trigger] call_ensures(self.goal, (all,), target)
                &&& is_stable_order(total_keys(values), order)
                &&& #[trigger] self.is_cut(order, target, accs, m)
                &&& v == if m > 0 {
                    values[order[m - 1] as int]
                } else {
                    ZERO
                }
            };
        let (all2, target2, order2, accs2, m2) = choose|
            all: T,
            target: T,
            order: Seq<usize>,
            accs: Seq<T>,
            m: int,
        |
            {
                &&& is_fold(self.plus, self.zero, self.areas@, all)
                &&& #[trigger] call_ensures(self.goal, (all,), target)
                &&& is_stable_order(total_keys(values), order)
                &&& #[trigger] self.is_cut(order, target, accs, m)
                &&& w == if m > 0 {
                    values[order[m - 1] as int]
                } else {
                    ZERO
                }
            };
        lemma_fold_is_one(self.plus, self.zero, self.areas@, all, all2);
        assert(target == target2);
        law_stable_order_is_unique(total_keys(values), order, order2);
        self.lemma_cut_is_first(order, target, accs, m, accs2, m2);
        self.lemma_cut_is_first(order, target, accs2, m2, accs, m);
    }

    /// No cut goes further than another.
    proof fn lemma_cut_is_first(
        &self,
        order: Seq<usize>,
        target: T,
        accs: Seq<T>,
        m: int,
        accs2: Seq<T>,
        m2: int,
    )
        requires
            self.repeatable(),
            self.is_cut(order, target, accs, m),
            self.is_cut(order, target, accs2, m2),
        ensures
            m >= m2,
    {
        if m < m2 {
            let along = arranged(self.areas@, order);
            assert(along.take(m2).take(m) =~= along.take(m));
            lemma_running_prefix(self.plus, self.zero, along.take(m2), accs2, m);
            lemma_running_is_one(self.plus, self.zero, along.take(m), accs, accs2.take(m + 1), m);
            assert(accs2[m] == accs[m]);
            assert(m > 0);
            assert(call_ensures(self.met, (accs2[m], target), false));
        }
    }

    /// The value such that the total area of the cells above it is the wanted fraction of the
    /// whole.
    pub fn area_quantile(&self, values: &Vec<u32>) -> (v: u32) where T: Copy, A: Copy
        requires
            self.total(),
            values@.len() <= self.areas@.len(),
        ensures
            self.is_quantile(values@, v),
    {
        let all: T = fold(&self.plus, self.zero, self.areas);
        let target: T = (self.goal)(all);
        let mut keys: Vec<i32> = Vec::new();
        let mut i: usize = 0;
        while i < values.len()
            invariant
                i <= values@.len(),
                keys@ == total_keys(values@).take(i as int),
            decreases values@.len() - i,
        {
            keys.push(total_key(values[i]));
            i = i + 1;
            assert(keys@ =~= total_keys(values@).take(i as int));
        }
        assert(total_keys(values@).take(i as int) =~= total_keys(values@));
        let order: Vec<usize> = stable_order(&keys);
        let ghost along = arranged(self.areas@, order@);
        let mut acc: T = self.zero;
        let ghost mut accs: Seq<T> = seq![acc];
        let mut m: usize = 0;
        assert(along.take(0) =~= Seq::<A>::empty());
        while m < order.len()
            invariant
                self.total(),
                m <= order@.len(),
                values@.len() <= self.areas@.len(),
                order@.len() == values@.len(),
                is_fold(self.plus, self.zero, self.areas@, all),
                call_ensures(self.goal, (all,), target),
                is_stable_order(total_keys(values@), order@),
                along == arranged(self.areas@, order@),
                is_running(self.plus, self.zero, along.take(m as int), accs),
                accs.last() == acc,
                forall|k: int|
                    1 <= k <= m ==> call_ensures(self.met, (#[trigger] accs[k], target), false),
            decreases order@.len() - m,
        {
            let c: usize = order[m];
            acc = (self.plus)(acc, self.areas[c]);
            proof {
                lemma_running_step(self.plus, self.zero, along.take(m as int), accs, along[m as int], acc);
                assert(along.take(m as int).push(along[m as int]) =~= along.take(m + 1));
                let prior = accs;
                accs = accs.push(acc);
                assert forall|k: int| 1 <= k <= m implies call_ensures(
                    self.met,
                    (#[trigger] accs[k], target),
                    false,
                ) by {
                    assert(accs[k] == prior[k]);
                }
            }
            m = m + 1;
            if (self.met)(acc, target) {
                assert(self.is_cut(order@, target, accs, m as int));
                return values[c];
            }
            assert(accs[m as int] == acc);
        }
        assert(self.is_cut(order@, target, accs, m as int));
        if m > 0 {
            values[order[m - 1]]
        } else {
            ZERO
        }
    }
}

/// `r` is the surface of the rock column of dry height `e` under a sea at `s`: a column that
/// stands out of the water keeps its dry height, and one under water rides lower by its load.
pub open spec fn is_surface<F: Fn(u32, u32) -> u32>(loaded: F, e: u32, s: u32, r: u32) -> bool {
    if spec_at_most(s, e) {
        r == e
    } else {
        call_ensures(loaded, (e, s), r)
    }
}

/// Water-loaded rock-surface height of a column whose dry height is `e`, given a sea surface `s`.
pub fn rock_surface<F: Fn(u32, u32) -> u32>(loaded: &F, e: u32, s: u32) -> (r: u32)
    requires
        call_requires(*loaded, (e, s)),
    ensures
        is_surface(*loaded, e, s, r),
{
    if at_most(s, e) {
        e
    } else {
        loaded(e, s)
    }
}

/// The lowest number of `values`, the first of those that are equal; infinity where there is none.
pub open spec fn lowest(values: Seq<u32>) -> u32
    decreases values.len(),
{
    if values.len() == 0 {
        INFINITY
    } else {
        let before = lowest(values.drop_last());
        if is_number(values.last()) && spec_value_key(values.last()) < spec_value_key(before) {
            values.last()
        } else {
            before
        }
    }
}

/// Pattern of negative infinity.
pub const NEG_INFINITY: u32 = 0xFF80_0000;

/// The highest number of `values`, the first of those that are equal; negative infinity where there
/// is none.
pub open spec fn highest(values: Seq<u32>) -> u32
    decreases values.len(),
{
    if values.len() == 0 {
        NEG_INFINITY
    } else {
        let before = highest(values.drop_last());
        if is_number(values.last()) && spec_value_key(values.last()) > spec_value_key(before) {
            values.last()
        } else {
            before
        }
    }
}

/// Lowest and highest number of `values`.
fn extremes(values: &Vec<u32>) -> (out: (u32, u32))
    ensures
        out == (lowest(values@), highest(values@)),
{
    let mut lo: u32 = INFINITY;
    let mut hi: u32 = NEG_INFINITY;
    let mut i: usize = 0;
    assert(values@.take(0) =~= Seq::<u32>::empty());
    while i < values.len()
        invariant
            i <= values@.len(),
            lo == lowest(values@.take(i as int)),
            hi == highest(values@.take(i as int)),
        decreases values@.len() - i,
    {
        let x: u32 = values[i];
        assert(values@.take(i + 1).drop_last() =~= values@.take(i as int));
        let counts: bool = number(x);
        if counts && value_key(x) < value_key(lo) {
            lo = x;
        }
        if counts && value_key(x) > value_key(hi) {
            hi = x;
        }
        i = i + 1;
    }
    assert(values@.take(i as int) =~= values@);
    (lo, hi)
}

/// The lowest and the highest number of a list bound all its numbers, and are on the list unless
/// they are infinite.
pub proof fn law_extremes_bound(values: Seq<u32>, i: int)
    requires
        0 <= i < values.len(),
        is_number(values[i]),
    ensures
        spec_value_key(lowest(values)) <= spec_value_key(values[i]) <= spec_value_key(highest(values)),
        values.contains(lowest(values)) || lowest(values) == INFINITY,
        values.contains(highest(values)) || highest(values) == NEG_INFINITY,
    decreases values.len(),
{
    lemma_extremes_listed(values);
    let less = values.drop_last();
    if i < less.len() {
        assert(less[i] == values[i]);
        law_extremes_bound(less, i);
    } else {
        assert(values.last() == values[i]);
    }
}

proof fn lemma_extremes_listed(values: Seq<u32>)
    ensures
        values.contains(lowest(values)) || lowest(values) == INFINITY,
        values.contains(highest(values)) || highest(values) == NEG_INFINITY,
    decreases values.len(),
{
    if values.len() > 0 {
        let less = values.drop_last();
        lemma_extremes_listed(less);
        assert(values.contains(values[values.len() - 1]));
        assert forall|x: u32| less.contains(x) implies values.contains(x) by {
            let k = less.index_of(x);
            assert(values[k] == x);
        }
        assert(lowest(values) == values.last() || lowest(values) == lowest(less));
        assert(highest(values) == values.last() || highest(values) == highest(less));
    }
}

/// The arithmetic of a flood.
pub struct Flood<'a, A, T, F, G, H, I, J, K> {
    /// Areas of the columns.
    pub areas: &'a Vec<A>,
    /// No water.
    pub zero: T,
    /// Surface of a submerged column: its dry height, the sea level.
    pub loaded: F,
    /// The volume so far with one submerged column more: the volume, the sea level, the column's
    /// surface, its area.
    pub pour: G,
    /// The volume is less than what there is to pour.
    pub short: H,
    /// The upper level may still be raised over the lower one.
    pub open: I,
    /// The next upper level to try, from the lower and the upper one.
    pub raise: J,
    /// Halfway between two levels.
    pub middle: K,
}

impl<'a, A, T, F, G, H, I, J, K> Flood<'a, A, T, F, G, H, I, J, K> where
    F: Fn(u32, u32) -> u32,
    G: Fn(T, u32, u32, A) -> T,
    H: Fn(T) -> bool,
    I: Fn(u32, u32) -> bool,
    J: Fn(u32, u32) -> u32,
    K: Fn(u32, u32) -> u32,
 {
    /// The operations take every value.
    pub open spec fn total(&self) -> bool {
        &&& forall|e: u32, s: u32| #[trigger] call_requires(self.loaded, (e, s))
        &&& forall|v: T, s: u32, r: u32, a: A| #[trigger] call_requires(self.pour, (v, s, r, a))
        &&& forall|v: T| #[trigger] call_requires(self.short, (v,))
        &&& forall|lo: u32, hi: u32| #[trigger] call_requires(self.open, (lo, hi))
        &&& forall|lo: u32, hi: u32| #[trigger] call_requires(self.raise, (lo, hi))
        &&& forall|lo: u32, hi: u32| #[trigger] call_requires(self.middle, (lo, hi))
    }

    /// `after` is `before` with the water over column `i` added: that of a submerged column, and
    /// none over one that stands out.
    pub open spec fn is_poured(&self, e: u32, a: A, s: u32, before: T, after: T) -> bool {
        if spec_below(e, s) {
            exists|r: u32| #[trigger]
                call_ensures(self.loaded, (e, s), r) && call_ensures(self.pour, (before, s, r, a), after)
        } else {
            after == before
        }
    }

    /// `volumes` are the successive volumes as the first `n` columns are gone through.
    pub open spec fn are_volumes(
        &self,
        heights: Seq<u32>,
        s: u32,
        n: int,
        volumes: Seq<T>,
    ) -> bool {
        &&& volumes.len() == n + 1
        &&& volumes[0] == self.zero
        &&& forall|i: int|
            0 <= i < n ==> self.is_poured(
                #[trigger] heights[i],
                self.areas@[i],
                s,
                volumes[i],
                volumes[i + 1],
            )
    }

    /// `v` is the volume that a sea at `s` holds over the topography.
    pub open spec fn is_volume(&self, heights: Seq<u32>, s: u32, v: T) -> bool {
        exists|volumes: Seq<T>| #[trigger]
            self.are_volumes(heights, s, heights.len() as int, volumes) && volumes.last() == v
    }

    /// Whether a sea at `s` holds less than there is to pour: `yes` is what was found.
    pub open spec fn is_short(&self, heights: Seq<u32>, s: u32, yes: bool) -> bool {
        exists|v: T| #[trigger]
            self.is_volume(heights, s, v) && call_ensures(self.short, (v,), yes)
    }

    /// `his` are the upper levels tried over `lo`: from the highest column on, raised as long as
    /// the sea there falls short and may be raised.
    pub open spec fn are_lifts(&self, heights: Seq<u32>, lo: u32, his: Seq<u32>) -> bool {
        &&& his.len() > 0
        &&& his[0] == highest(heights)
        &&& forall|k: int|
            0 <= k < his.len() - 1 ==> #[trigger] self.is_lift(heights, lo, his[k], his[k + 1])
    }

    /// `next` is the level tried after `hi`.
    pub open spec fn is_lift(&self, heights: Seq<u32>, lo: u32, hi: u32, next: u32) -> bool {
        &&& self.is_short(heights, hi, true)
        &&& call_ensures(self.open, (lo, hi), true)
        &&& call_ensures(self.raise, (lo, hi), next)
        &&& spec_value_key(hi) < spec_value_key(next)
    }

    /// `hi` is not raised any further: the sea there holds enough, or it may not be raised, or
    /// raising gets no higher.
    pub open spec fn is_upper(&self, heights: Seq<u32>, lo: u32, hi: u32) -> bool {
        self.is_short(heights, hi, false) || self.gave_out(lo, hi)
    }

    /// `next` is the half of the bracket `at` in which the level lies.
    pub open spec fn is_half(
        &self,
        heights: Seq<u32>,
        at: (u32, u32),
        next: (u32, u32),
    ) -> bool {
        exists|mid: u32| #[trigger]
            call_ensures(self.middle, (at.0, at.1), mid) && ((self.is_short(heights, mid, true) && next
                == (mid, at.1)) || (self.is_short(heights, mid, false) && next == (at.0, mid)))
    }

    /// `brackets` are the successive halves from the bracket `first`.
    pub open spec fn are_halves(
        &self,
        heights: Seq<u32>,
        first: (u32, u32),
        brackets: Seq<(u32, u32)>,
    ) -> bool {
        &&& brackets.len() > 0
        &&& brackets[0] == first
        &&& forall|k: int|
            0 <= k < brackets.len() - 1 ==> #[trigger] self.is_half(
                heights,
                brackets[k],
                brackets[k + 1],
            )
    }

    /// `s` is the sea level found: halfway between the ends of the bracket that bisection leaves,
    /// which starts from the lowest column and the first upper level that is high enough.
    pub open spec fn is_sea_level(&self, heights: Seq<u32>, s: u32) -> bool {
        exists|his: Seq<u32>, brackets: Seq<(u32, u32)>|
            {
                &&& #[trigger] self.are_lifts(heights, lowest(heights), his)
                &&& self.is_upper(heights, lowest(heights), his.last())
                &&& #[trigger] self.are_halves(
                    heights,
                    (lowest(heights), his.last()),
                    brackets,
                )
                &&& brackets.len() == BISECTIONS + 1
                &&& call_ensures(self.middle, (brackets.last().0, brackets.last().1), s)
            }
    }

    /// Total water volume held by a sea at `s` over the topography.
    pub fn water_volume_at(&self, heights: &Vec<u32>, s: u32) -> (v: T) where
        T: Copy,
        A: Copy,

        requires
            self.total(),
            heights@.len() <= self.areas@.len(),
        ensures
            self.is_volume(heights@, s, v),
    {
        let mut v: T = self.zero;
        let ghost mut volumes: Seq<T> = seq![v];
        let mut i: usize = 0;
        while i < heights.len()
            invariant
                self.total(),
                heights@.len() <= self.areas@.len(),
                i <= heights@.len(),
                self.are_volumes(heights@, s, i as int, volumes),
                volumes.last() == v,
            decreases heights@.len() - i,
        {
            let ghost before = v;
            if below(heights[i], s) {
                let r: u32 = rock_surface(&self.loaded, heights[i], s);
                assert(call_ensures(self.loaded, (heights@[i as int], s), r));
                v = (self.pour)(v, s, r, self.areas[i]);
            }
            assert(self.is_poured(heights@[i as int], self.areas@[i as int], s, before, v));
            proof {
                let longer = volumes.push(v);
                assert forall|k: int| 0 <= k < i + 1 implies self.is_poured(
                    #[trigger] heights@[k],
                    self.areas@[k],
                    s,
                    longer[k],
                    longer[k + 1],
                ) by {
                    if k < i {
                        assert(self.is_poured(heights@[k], self.areas@[k], s, volumes[k], volumes[k + 1]));
                    }
                }
                volumes = longer;
            }
            i = i + 1;
        }
        v
    }

    /// Whether a sea at `s` holds less than there is to pour.
    fn falls_short(&self, heights: &Vec<u32>, s: u32) -> (yes: bool) where
        T: Copy,
        A: Copy,

        requires
            self.total(),
            heights@.len() <= self.areas@.len(),
        ensures
            self.is_short(heights@, s, yes),
    {
        let v: T = self.water_volume_at(heights, s);
        (self.short)(v)
    }

    /// The first upper level that is high enough, or can be raised no further.
    fn upper_level(&self, heights: &Vec<u32>, lo: u32, top: u32) -> (hi: u32) where
        T: Copy,
        A: Copy,

        requires
            self.total(),
            heights@.len() <= self.areas@.len(),
            top == highest(heights@),
        ensures
            self.is_upper(heights@, lo, hi),
            exists|his: Seq<u32>| #[trigger]
                self.are_lifts(heights@, lo, his) && his.last() == hi,
    {
        let mut hi: u32 = top;
        let ghost mut his: Seq<u32> = seq![hi];
        loop
            invariant
                self.total(),
                heights@.len() <= self.areas@.len(),
                self.are_lifts(heights@, lo, his),
                his.last() == hi,
            ensures
                self.is_upper(heights@, lo, hi),
            decreases i32::MAX - spec_value_key(hi),
        {
            if !self.falls_short(heights, hi) {
                break ;
            }
            if !(self.open)(lo, hi) {
                break ;
            }
            let next: u32 = (self.raise)(lo, hi);
            if value_key(next) <= value_key(hi) {
                break ;
            }
            proof {
                let longer = his.push(next);
                assert forall|k: int| 0 <= k < longer.len() - 1 implies #[trigger] self.is_lift(
                    heights@,
                    lo,
                    longer[k],
                    longer[k + 1],
                ) by {
                    if k < his.len() - 1 {
                        assert(self.is_lift(heights@, lo, his[k], his[k + 1]));
                    } else {
                        assert(longer[k] == hi && longer[k + 1] == next);
                    }
                }
                his = longer;
            }
            hi = next;
        }
        hi
    }

    /// Find the sea level that holds the volume there is to pour, by bisection.
    pub fn solve_sea_level(&self, heights: &Vec<u32>) -> (s: u32) where T: Copy, A: Copy
        requires
            self.total(),
            heights@.len() <= self.areas@.len(),
        ensures
            self.is_sea_level(heights@, s),
    {
        let (low, high) = extremes(heights);
        let first: u32 = self.upper_level(heights, low, high);
        let ghost his = choose|his: Seq<u32>| #[trigger]
            self.are_lifts(heights@, low, his) && his.last() == first;
        let mut lo: u32 = low;
        let mut hi: u32 = first;
        let ghost mut brackets: Seq<(u32, u32)> = seq![(lo, hi)];
        let mut k: usize = 0;
        while k < BISECTIONS
            invariant
                self.total(),
                heights@.len() <= self.areas@.len(),
                k <= BISECTIONS,
                self.are_halves(heights@, (low, first), brackets),
                brackets.len() == k + 1,
                brackets.last() == (lo, hi),
            decreases BISECTIONS - k,
        {
            let mid: u32 = (self.middle)(lo, hi);
            let ghost at = (lo, hi);
            assert(call_ensures(self.middle, (at.0, at.1), mid));
            if self.falls_short(heights, mid) {
                lo = mid;
            } else {
                hi = mid;
            }
            proof {
                assert(self.is_half(heights@, at, (lo, hi)));
                let longer = brackets.push((lo, hi));
                assert forall|i: int| 0 <= i < longer.len() - 1 implies #[trigger] self.is_half(
                    heights@,
                    longer[i],
                    longer[i + 1],
                ) by {
                    if i < brackets.len() - 1 {
                        assert(self.is_half(heights@, brackets[i], brackets[i + 1]));
                    } else {
                        assert(longer[i] == at && longer[i + 1] == (lo, hi));
                    }
                }
                brackets = longer;
            }
            k = k + 1;
        }
        assert(self.are_lifts(heights@, lowest(heights@), his));
        assert(self.are_halves(heights@, (lowest(heights@), his.last()), brackets));
        (self.middle)(lo, hi)
    }

    /// The operations are functions.
    pub open spec fn repeatable(&self) -> bool {
        &&& forall|e: u32, s: u32, x: u32, y: u32|
            #[trigger] call_ensures(self.loaded, (e, s), x) && #[trigger] call_ensures(
                self.loaded,
                (e, s),
                y,
            ) ==> x == y
        &&& forall|v: T, s: u32, r: u32, a: A, x: T, y: T|
            #[trigger] call_ensures(self.pour, (v, s, r, a), x) && #[trigger] call_ensures(
                self.pour,
                (v, s, r, a),
                y,
            ) ==> x == y
        &&& forall|v: T|
            !(#[trigger] call_ensures(self.short, (v,), true) && call_ensures(self.short, (v,), false))
        &&& forall|lo: u32, hi: u32|
            !(#[trigger] call_ensures(self.open, (lo, hi), true) && call_ensures(
                self.open,
                (lo, hi),
                false,
            ))
        &&& forall|lo: u32, hi: u32, x: u32, y: u32|
            #[trigger] call_ensures(self.raise, (lo, hi), x) && #[trigger] call_ensures(
                self.raise,
                (lo, hi),
                y,
            ) ==> x == y
        &&& forall|lo: u32, hi: u32, x: u32, y: u32|
            #[trigger] call_ensures(self.middle, (lo, hi), x) && #[trigger] call_ensures(
                self.middle,
                (lo, hi),
                y,
            ) ==> x == y
    }

    proof fn lemma_volumes_agree(&self, heights: Seq<u32>, s: u32, n: int, x: Seq<T>, y: Seq<T>, i: int)
        requires
            self.repeatable(),
            self.are_volumes(heights, s, n, x),
            self.are_volumes(heights, s, n, y),
            0 <= i <= n <= heights.len(),
        ensures
            x[i] == y[i],
        decreases i,
    {
        if i > 0 {
            self.lemma_volumes_agree(heights, s, n, x, y, i - 1);
            let e = heights[i - 1];
            let a = self.areas@[i - 1];
            assert(self.is_poured(heights[i - 1], a, s, x[i - 1], x[i - 1 + 1]));
            assert(self.is_poured(heights[i - 1], a, s, y[i - 1], y[i - 1 + 1]));
            if spec_below(e, s) {
                let r = choose|r: u32| #[trigger]
                    call_ensures(self.loaded, (e, s), r) && call_ensures(
                        self.pour,
                        (x[i - 1], s, r, a),
                        x[i],
                    );
                let q = choose|r: u32| #[trigger]
                    call_ensures(self.loaded, (e, s), r) && call_ensures(
                        self.pour,
                        (y[i - 1], s, r, a),
                        y[i],
                    );
                assert(r == q);
            }
        }
    }

    /// A sea is not both short and not short of water.
    proof fn lemma_short_is_one(&self, heights: Seq<u32>, s: u32)
        requires
            self.repeatable(),
        ensures
            !(self.is_short(heights, s, true) && self.is_short(heights, s, false)),
    {
        if self.is_short(heights, s, true) && self.is_short(heights, s, false) {
            let v = choose|v: T| #[trigger]
                self.is_volume(heights, s, v) && call_ensures(self.short, (v,), true);
            let w = choose|v: T| #[trigger]
                self.is_volume(heights, s, v) && call_ensures(self.short, (v,), false);
            let n = heights.len() as int;
            let x = choose|volumes: Seq<T>| #[trigger]
                self.are_volumes(heights, s, n, volumes) && volumes.last() == v;
            let y = choose|volumes: Seq<T>| #[trigger]
                self.are_volumes(heights, s, n, volumes) && volumes.last() == w;
            self.lemma_volumes_agree(heights, s, n, x, y, n);
        }
    }

    proof fn lemma_lifts_agree(&self, heights: Seq<u32>, lo: u32, x: Seq<u32>, y: Seq<u32>, k: int)
        requires
            self.repeatable(),
            self.are_lifts(heights, lo, x),
            self.are_lifts(heights, lo, y),
            0 <= k < x.len(),
            k < y.len(),
        ensures
            x[k] == y[k],
        decreases k,
    {
        if k > 0 {
            self.lemma_lifts_agree(heights, lo, x, y, k - 1);
            assert(self.is_lift(heights, lo, x[k - 1], x[k - 1 + 1]));
            assert(self.is_lift(heights, lo, y[k - 1], y[k - 1 + 1]));
        }
    }

    /// A level that is raised no further has no next one.
    proof fn lemma_upper_has_no_lift(&self, heights: Seq<u32>, lo: u32, hi: u32, next: u32)
        requires
            self.repeatable(),
            self.is_upper(heights, lo, hi),
        ensures
            !self.is_lift(heights, lo, hi, next),
    {
        self.lemma_short_is_one(heights, hi);
    }

    proof fn lemma_halves_agree(
        &self,
        heights: Seq<u32>,
        first: (u32, u32),
        x: Seq<(u32, u32)>,
        y: Seq<(u32, u32)>,
        k: int,
    )
        requires
            self.repeatable(),
            self.are_halves(heights, first, x),
            self.are_halves(heights, first, y),
            0 <= k < x.len(),
            k < y.len(),
        ensures
            x[k] == y[k],
        decreases k,
    {
        if k > 0 {
            self.lemma_halves_agree(heights, first, x, y, k - 1);
            let at = x[k - 1];
            assert(self.is_half(heights, x[k - 1], x[k - 1 + 1]));
            assert(self.is_half(heights, y[k - 1], y[k - 1 + 1]));
            let mid = choose|mid: u32| #[trigger]
                call_ensures(self.middle, (at.0, at.1), mid) && ((self.is_short(heights, mid, true)
                    && x[k] == (mid, at.1)) || (self.is_short(heights, mid, false) && x[k] == (
                    at.0,
                    mid,
                )));
            self.lemma_short_is_one(heights, mid);
        }
    }

    /// Where the operations are functions, a topography has one sea level.
    pub proof fn law_sea_level_is_one(&self, heights: Seq<u32>, s: u32, t: u32)
        requires
            self.repeatable(),
            self.is_sea_level(heights, s),
            self.is_sea_level(heights, t),
        ensures
            s == t,
    {
        let lo = lowest(heights);
        let (his, brackets) = choose|his: Seq<u32>, brackets: Seq<(u32, u32)>|
            {
                &&& #[trigger] self.are_lifts(heights, lo, his)
                &&& self.is_upper(heights, lo, his.last())
                &&& #[trigger] self.are_halves(heights, (lo, his.last()), brackets)
                &&& brackets.len() == BISECTIONS + 1
                &&& call_ensures(self.middle, (brackets.last().0, brackets.last().1), s)
            };
        let (his2, brackets2) = choose|his: Seq<u32>, brackets: Seq<(u32, u32)>|
            {
                &&& #[trigger] self.are_lifts(heights, lo, his)
                &&& self.is_upper(heights, lo, his.last())
                &&& #[trigger] self.are_halves(heights, (lo, his.last()), brackets)
                &&& brackets.len() == BISECTIONS + 1
                &&& call_ensures(self.middle, (brackets.last().0, brackets.last().1), t)
            };
        let m = if his.len() <= his2.len() {
            his.len() as int
        } else {
            his2.len() as int
        };
        self.lemma_lifts_agree(heights, lo, his, his2, m - 1);
        if m < his.len() {
            assert(self.is_lift(heights, lo, his[m - 1], his[m - 1 + 1]));
            self.lemma_upper_has_no_lift(heights, lo, his2.last(), his[m]);
        }
        if m < his2.len() {
            assert(self.is_lift(heights, lo, his2[m - 1], his2[m - 1 + 1]));
            self.lemma_upper_has_no_lift(heights, lo, his.last(), his2[m]);
        }
        assert(his.last() == his2.last());
        let last = BISECTIONS as int;
        self.lemma_halves_agree(heights, (lo, his.last()), brackets, brackets2, last);
    }

    /// The water over a column counts for `val` as its depth for `at` times the weight of its area,
    /// neither is negative, and the sea gets no shallower as it rises.
    pub open spec fn deepens(
        &self,
        val: spec_fn(T) -> int,
        at: spec_fn(u32) -> int,
        weight: spec_fn(A) -> int,
    ) -> bool {
        &&& forall|v: T, s: u32, r: u32, a: A, w: T| #[trigger]
            call_ensures(self.pour, (v, s, r, a), w) ==> val(w) == val(v) + (at(s) - at(r)) * weight(a)
        &&& forall|a: A| #[trigger] weight(a) >= 0
        &&& forall|e: u32, s: u32, r: u32| #[trigger]
            call_ensures(self.loaded, (e, s), r) && spec_below(e, s) ==> at(r)
                <= at(s)
        &&& forall|e: u32, s: u32, t: u32, r: u32, q: u32|
            #[trigger] call_ensures(self.loaded, (e, s), r) && #[trigger] call_ensures(
                self.loaded,
                (e, t),
                q,
            ) && spec_below(e, s) && spec_at_most(s, t) ==> at(s) - at(r) <= at(t)
                - at(q)
    }

    /// The volume that the sea holds never falls as the sea rises, which is what lets a volume be
    /// turned into a level by bisection.
    pub proof fn law_volume_rises_with_the_sea(
        &self,
        val: spec_fn(T) -> int,
        at: spec_fn(u32) -> int,
        weight: spec_fn(A) -> int,
        heights: Seq<u32>,
        s: u32,
        t: u32,
        n: int,
        low: Seq<T>,
        high: Seq<T>,
    )
        requires
            self.deepens(val, at, weight),
            spec_at_most(s, t),
            0 <= n <= heights.len(),
            self.are_volumes(heights, s, heights.len() as int, low),
            self.are_volumes(heights, t, heights.len() as int, high),
        ensures
            val(low[n]) <= val(high[n]),
        decreases n,
    {
        if n > 0 {
            self.law_volume_rises_with_the_sea(val, at, weight, heights, s, t, n - 1, low, high);
            let e = heights[n - 1];
            let a = self.areas@[n - 1];
            let w = weight(a);
            assert(self.is_poured(heights[n - 1], a, s, low[n - 1], low[n - 1 + 1]));
            assert(self.is_poured(heights[n - 1], a, t, high[n - 1], high[n - 1 + 1]));
            if spec_below(e, t) {
                let q = choose|r: u32| #[trigger]
                    call_ensures(self.loaded, (e, t), r) && call_ensures(
                        self.pour,
                        (high[n - 1], t, r, a),
                        high[n],
                    );
                let deep = at(t) - at(q);
                assert(0 <= deep * w) by (nonlinear_arith)
                    requires
                        deep >= 0,
                        w >= 0,
                ;
                if spec_below(e, s) {
                    let r = choose|r: u32| #[trigger]
                        call_ensures(self.loaded, (e, s), r) && call_ensures(
                            self.pour,
                            (low[n - 1], s, r, a),
                            low[n],
                        );
                    let shallow = at(s) - at(r);
                    assert(shallow * w <= deep * w) by (nonlinear_arith)
                        requires
                            shallow <= deep,
                            w >= 0,
                    ;
                }
            }
        }
    }

    /// Raising `hi` any further over `lo` gave out: it may not be raised, or raising gets no higher.
    pub open spec fn gave_out(&self, lo: u32, hi: u32) -> bool {
        ||| call_ensures(self.open, (lo, hi), false)
        ||| exists|next: u32| #[trigger]
            call_ensures(self.raise, (lo, hi), next) && spec_value_key(next) <= spec_value_key(hi)
    }

    /// A sea at the lowest column covers nothing: it is empty.
    pub proof fn law_lowest_sea_is_empty(&self, heights: Seq<u32>, volumes: Seq<T>, n: int)
        requires
            0 <= n <= heights.len(),
            self.are_volumes(heights, lowest(heights), heights.len() as int, volumes),
        ensures
            volumes[n] == self.zero,
        decreases n,
    {
        if n > 0 {
            self.law_lowest_sea_is_empty(heights, volumes, n - 1);
            if is_number(heights[n - 1]) {
                law_extremes_bound(heights, n - 1);
            }
            assert(!spec_below(heights[n - 1], lowest(heights)));
            assert(self.is_poured(
                heights[n - 1],
                self.areas@[n - 1],
                lowest(heights),
                volumes[n - 1],
                volumes[n - 1 + 1],
            ));
        }
    }

    /// Where there is any water to pour, a sea at the lowest column falls short of it.
    pub proof fn law_lowest_sea_falls_short(&self, heights: Seq<u32>)
        requires
            call_ensures(self.short, (self.zero,), true),
        ensures
            self.is_short(heights, lowest(heights), true),
    {
        let s = lowest(heights);
        let volumes = Seq::new((heights.len() + 1) as nat, |k: int| self.zero);
        assert forall|i: int| 0 <= i < heights.len() implies self.is_poured(
            #[trigger] heights[i],
            self.areas@[i],
            s,
            volumes[i],
            volumes[i + 1],
        ) by {
            if is_number(heights[i]) {
                law_extremes_bound(heights, i);
            }
        }
        assert(self.are_volumes(heights, s, heights.len() as int, volumes));
        assert(volumes.last() == self.zero);
        assert(self.is_volume(heights, s, self.zero));
    }

    /// Bisection never lets the level out of its bracket: where the lower end of the first bracket
    /// falls short, so does that of every later one, and the upper end of every bracket is the first
    /// one or does not fall short.
    pub proof fn law_bisection_brackets_the_level(
        &self,
        heights: Seq<u32>,
        first: (u32, u32),
        brackets: Seq<(u32, u32)>,
        k: int,
    )
        requires
            self.are_halves(heights, first, brackets),
            self.is_short(heights, first.0, true),
            0 <= k < brackets.len(),
        ensures
            self.is_short(heights, brackets[k].0, true),
            brackets[k].1 == first.1 || self.is_short(heights, brackets[k].1, false),
        decreases k,
    {
        if k > 0 {
            self.law_bisection_brackets_the_level(heights, first, brackets, k - 1);
            assert(self.is_half(heights, brackets[k - 1], brackets[k - 1 + 1]));
        }
    }

    /// The sea level found holds the water there is: it lies halfway between a level that falls short
    /// of it and one that does not, or, where even the highest level that may be tried holds too
    /// little, one that could be raised no further.
    pub proof fn law_sea_level_is_bracketed(&self, heights: Seq<u32>, s: u32)
        requires
            call_ensures(self.short, (self.zero,), true),
            self.is_sea_level(heights, s),
        ensures
            exists|lo: u32, hi: u32|
                {
                    &&& #[trigger] call_ensures(self.middle, (lo, hi), s)
                    &&& self.is_short(heights, lo, true)
                    &&& self.is_short(heights, hi, false) || self.gave_out(lowest(heights), hi)
                },
    {
        let first = lowest(heights);
        let (his, brackets) = choose|his: Seq<u32>, brackets: Seq<(u32, u32)>|
            {
                &&& #[trigger] self.are_lifts(heights, first, his)
                &&& self.is_upper(heights, first, his.last())
                &&& #[trigger] self.are_halves(heights, (first, his.last()), brackets)
                &&& brackets.len() == BISECTIONS + 1
                &&& call_ensures(self.middle, (brackets.last().0, brackets.last().1), s)
            };
        self.law_lowest_sea_falls_short(heights);
        self.law_bisection_brackets_the_level(
            heights,
            (first, his.last()),
            brackets,
            brackets.len() - 1,
        );
        let (lo, hi) = brackets.last();
        assert(call_ensures(self.middle, (lo, hi), s));
    }
}

} // verus!
