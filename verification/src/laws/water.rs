//! Water and area: which cells a share of the area cuts off, how much water a sea holds, and how closely
//! its level is found.

use crate::fold::{is_fold, is_running};
use crate::laws::crust::{area_of, lemma_whole_area};
use crate::order::{is_number, is_stable_order, law_comparisons_are_those_of_reals, spec_total_key, value};
use crate::sim::flood::{arranged, lowest, total_keys, Flood, Measure};
use vstd::arithmetic::power2::{lemma2_to64, lemma_pow2_unfold, pow2};
use vstd::prelude::*;

verus! {

/// Area of the first `k` cells in the given order.
pub open spec fn area_along<A>(area: spec_fn(A) -> int, areas: Seq<A>, order: Seq<usize>, k: nat) -> int
    decreases k,
{
    if k == 0 {
        0
    } else {
        area_along(area, areas, order, (k - 1) as nat) + area(areas[order[k - 1] as int])
    }
}

impl<'a, A, T, F, G, H> Measure<'a, A, T, F, G, H> where
    F: Fn(T, A) -> T,
    G: Fn(T) -> T,
    H: Fn(T, T) -> bool,
 {
    /// A quantile cuts the area where the goal is met: where areas add up exactly, the cells in ascending
    /// order that come before the one whose value it is fall short of the goal, which is set for the area
    /// of all, and with that one they do not, unless it is the last; each of those before has no greater
    /// value, and each after no smaller one.
    pub proof fn law_a_quantile_cuts_the_area(
        &self,
        area: spec_fn(A) -> int,
        sum: spec_fn(T) -> int,
        values: Seq<u32>,
        v: u32,
    )
        requires
            self.is_quantile(values, v),
            0 < values.len() <= self.areas@.len(),
            sum(self.zero) == 0,
            forall|t: T, a: A, u: T| #[trigger]
                call_ensures(self.plus, (t, a), u) ==> sum(u) == sum(t) + area(a),
            forall|t: T, u: T| #[trigger] call_ensures(self.met, (t, u), true) ==> sum(t) >= sum(u),
            forall|t: T, u: T| #[trigger] call_ensures(self.met, (t, u), false) ==> sum(t) < sum(u),
        ensures
            exists|all: T, goal: T, order: Seq<usize>, m: int|
                {
                    &&& sum(all) == area_of(area, self.areas@, |i: int| true, self.areas@.len())
                    &&& #[trigger] call_ensures(self.goal, (all,), goal)
                    &&& order.len() == values.len()
                    &&& order.no_duplicates()
                    &&& 0 <= m < order.len()
                    &&& v == values[#[trigger] order[m] as int]
                    &&& forall|j: int|
                        0 <= j < order.len() ==> (#[trigger] order[j]) < values.len() && if j < m {
                            spec_total_key(values[order[j] as int]) <= spec_total_key(v)
                        } else {
                            spec_total_key(values[order[j] as int]) >= spec_total_key(v)
                        }
                    &&& m > 0 ==> area_along(area, self.areas@, order, m as nat) < sum(goal)
                    &&& m < order.len() - 1 ==> area_along(area, self.areas@, order, (m + 1) as nat) >= sum(
                        goal,
                    )
                },
    {
        let (all, target, order, accs, m) = choose|
            all: T,
            target: T,
            order: Seq<usize>,
            accs: Seq<T>,
            m: int,
        |
            {
                &&& is_fold(self.plus, self.zero, self.areas@, all)
                &&& #[trigger] call_ensures(self.goal, (all,), target)
                &&& is_stable_order(total_keys(values), order)
                &&& #[trigger] self.is_cut(order, target, accs, m)
                &&& v == if m > 0 {
                    values[order[m - 1] as int]
                } else {
                    0
                }
            };
        let sums = choose|sums: Seq<T>| #[trigger]
            is_running(self.plus, self.zero, self.areas@, sums) && sums.last() == all;
        lemma_whole_area(
            self.plus,
            self.zero,
            self.areas@,
            sums,
            area,
            sum,
            self.areas@.len() as int,
        );
        let keys = total_keys(values);
        assert(order.len() == values.len());
        assert forall|j: int| 0 <= j < order.len() implies (#[trigger] order[j]) < values.len() by {
            assert(keys.len() == values.len());
        }
        self.lemma_along(area, sum, order, accs, target, m, m);
        self.lemma_along(area, sum, order, accs, target, m, m - 1);
        let at = m - 1;
        assert forall|j: int| 0 <= j < order.len() implies (#[trigger] order[j]) < values.len() && if j < at {
            spec_total_key(values[order[j] as int]) <= spec_total_key(v)
        } else {
            spec_total_key(values[order[j] as int]) >= spec_total_key(v)
        } by {
            let a = order[j];
            let b = order[at];
            assert(keys[a as int] == spec_total_key(values[a as int]));
            assert(keys[b as int] == spec_total_key(values[b as int]));
        }
        assert(order.no_duplicates()) by {
            assert forall|i: int, j: int| 0 <= i < order.len() && 0 <= j < order.len() && i != j implies order[i]
                != order[j] by {
                if i < j {
                    assert(order[i] != order[j]);
                } else {
                    assert(order[j] != order[i]);
                }
            }
        }
        assert(call_ensures(self.goal, (all,), target));
        assert(v == values[order[at] as int]);
    }

    proof fn lemma_along(
        &self,
        area: spec_fn(A) -> int,
        sum: spec_fn(T) -> int,
        order: Seq<usize>,
        accs: Seq<T>,
        target: T,
        m: int,
        k: int,
    )
        requires
            self.is_cut(order, target, accs, m),
            0 <= k <= m,
            sum(self.zero) == 0,
            forall|t: T, a: A, u: T| #[trigger]
                call_ensures(self.plus, (t, a), u) ==> sum(u) == sum(t) + area(a),
        ensures
            sum(accs[k]) == area_along(area, self.areas@, order, k as nat),
        decreases k,
    {
        if k > 0 {
            self.lemma_along(area, sum, order, accs, target, m, k - 1);
            let laid = arranged(self.areas@, order).take(m);
            assert(laid[k - 1] == self.areas@[order[k - 1] as int]);
            assert(call_ensures(self.plus, (accs[k - 1], laid[k - 1]), accs[k - 1 + 1]));
        }
    }
}

impl<'a, A, T, F, G, H, I, J, K> Flood<'a, A, T, F, G, H, I, J, K> where
    F: Fn(u32, u32) -> u32,
    G: Fn(T, u32, u32, A) -> T,
    H: Fn(T) -> bool,
    I: Fn(u32, u32) -> bool,
    J: Fn(u32, u32) -> u32,
    K: Fn(u32, u32) -> u32,
 {
    /// What the sea at `s` holds over the first `n` columns, whose rock lies at `rock` where it is under
    /// water: the water over each column that lies below it.
    pub open spec fn held(
        &self,
        over: spec_fn(u32, u32, A) -> int,
        heights: Seq<u32>,
        rock: Seq<u32>,
        s: u32,
        n: nat,
    ) -> int
        decreases n,
    {
        if n == 0 {
            0
        } else {
            self.held(over, heights, rock, s, (n - 1) as nat) + if is_number(heights[n - 1]) && is_number(s)
                && value(heights[n - 1]) < value(s) {
                over(s, rock[n - 1], self.areas@[n - 1])
            } else {
                0
            }
        }
    }

    /// A sea holds the water over what lies below it, and nothing over what stands out: where pouring is
    /// exact, the volume is the sum of the water over every column lower than the sea, each pressed down
    /// by its load.
    pub proof fn law_a_sea_holds_what_lies_below(
        &self,
        amount: spec_fn(T) -> int,
        over: spec_fn(u32, u32, A) -> int,
        heights: Seq<u32>,
        s: u32,
        v: T,
    )
        requires
            self.is_volume(heights, s, v),
            amount(self.zero) == 0,
            forall|t: T, l: u32, r: u32, a: A, u: T| #[trigger]
                call_ensures(self.pour, (t, l, r, a), u) ==> amount(u) == amount(t) + over(l, r, a),
        ensures
            exists|rock: Seq<u32>|
                {
                    &&& rock.len() == heights.len()
                    &&& forall|i: int|
                        0 <= i < heights.len() && is_number(heights[i]) && is_number(s) && value(heights[i])
                            < value(s) ==> call_ensures(self.loaded, (heights[i], s), #[trigger] rock[i])
                    &&& amount(v) == #[trigger] self.held(over, heights, rock, s, heights.len())
                },
    {
        let n = heights.len() as int;
        let volumes = choose|volumes: Seq<T>| #[trigger]
            self.are_volumes(heights, s, n, volumes) && volumes.last() == v;
        let rock = self.lemma_held(amount, over, heights, s, volumes, n, n);
        assert(amount(v) == self.held(over, heights, rock, s, heights.len()));
    }

    proof fn lemma_held(
        &self,
        amount: spec_fn(T) -> int,
        over: spec_fn(u32, u32, A) -> int,
        heights: Seq<u32>,
        s: u32,
        volumes: Seq<T>,
        n: int,
        k: int,
    ) -> (rock: Seq<u32>)
        requires
            self.are_volumes(heights, s, n, volumes),
            0 <= k <= n <= heights.len(),
            amount(self.zero) == 0,
            forall|t: T, l: u32, r: u32, a: A, u: T| #[trigger]
                call_ensures(self.pour, (t, l, r, a), u) ==> amount(u) == amount(t) + over(l, r, a),
        ensures
            rock.len() == k,
            forall|i: int|
                0 <= i < k && is_number(heights[i]) && is_number(s) && value(heights[i]) < value(s)
                    ==> call_ensures(self.loaded, (heights[i], s), #[trigger] rock[i]),
            amount(volumes[k]) == self.held(over, heights, rock, s, k as nat),
        decreases k,
    {
        if k == 0 {
            Seq::empty()
        } else {
            let less = self.lemma_held(amount, over, heights, s, volumes, n, k - 1);
            let e = heights[k - 1];
            let a = self.areas@[k - 1];
            law_comparisons_are_those_of_reals(e, s);
            assert(self.is_poured(heights[k - 1], a, s, volumes[k - 1], volumes[k - 1 + 1]));
            let r = choose|r: u32| #[trigger]
                call_ensures(self.loaded, (e, s), r) && call_ensures(
                    self.pour,
                    (volumes[k - 1], s, r, a),
                    volumes[k],
                );
            let rock = less.push(r);
            self.lemma_held_prefix(over, heights, less, rock, s, (k - 1) as nat);
            rock
        }
    }

    proof fn lemma_held_prefix(
        &self,
        over: spec_fn(u32, u32, A) -> int,
        heights: Seq<u32>,
        short: Seq<u32>,
        long: Seq<u32>,
        s: u32,
        n: nat,
    )
        requires
            n <= short.len() <= long.len(),
            forall|i: int| 0 <= i < n ==> #[trigger] short[i] == long[i],
        ensures
            self.held(over, heights, short, s, n) == self.held(over, heights, long, s, n),
        decreases n,
    {
        if n > 0 {
            self.lemma_held_prefix(over, heights, short, long, s, (n - 1) as nat);
            assert(short[n - 1] == long[n - 1]);
        }
    }

    /// The sea level is found to a hundred halvings: where the middle of two levels is exact, it is the
    /// middle of two levels 2^100 times closer to each other than the lowest column and the highest
    /// level tried.
    pub proof fn law_the_level_is_halved_a_hundred_times(
        &self,
        val: spec_fn(u32) -> int,
        heights: Seq<u32>,
        s: u32,
    )
        requires
            self.is_sea_level(heights, s),
            forall|a: u32, b: u32, m: u32| #[trigger]
                call_ensures(self.middle, (a, b), m) ==> 2 * val(m) == val(a) + val(b),
        ensures
            exists|lo: u32, hi: u32, top: u32|
                {
                    &&& #[trigger] call_ensures(self.middle, (lo, hi), s)
                    &&& #[trigger] self.is_upper(heights, lowest(heights), top)
                    &&& pow2(100) * (val(hi) - val(lo)) == val(top) - val(lowest(heights))
                },
    {
        let first = lowest(heights);
        let (his, brackets) = choose|his: Seq<u32>, brackets: Seq<(u32, u32)>|
            {
                &&& #[trigger] self.are_lifts(heights, first, his)
                &&& self.is_upper(heights, first, his.last())
                &&& #[trigger] self.are_halves(heights, (first, his.last()), brackets)
                &&& brackets.len() == 101
                &&& call_ensures(self.middle, (brackets.last().0, brackets.last().1), s)
            };
        self.lemma_halved(val, heights, (first, his.last()), brackets, 100);
        let (lo, hi) = brackets.last();
        assert(call_ensures(self.middle, (lo, hi), s));
        assert(self.is_upper(heights, first, his.last()));
    }

    proof fn lemma_halved(
        &self,
        val: spec_fn(u32) -> int,
        heights: Seq<u32>,
        first: (u32, u32),
        brackets: Seq<(u32, u32)>,
        k: int,
    )
        requires
            self.are_halves(heights, first, brackets),
            0 <= k < brackets.len(),
            forall|a: u32, b: u32, m: u32| #[trigger]
                call_ensures(self.middle, (a, b), m) ==> 2 * val(m) == val(a) + val(b),
        ensures
            pow2(k as nat) * (val(brackets[k].1) - val(brackets[k].0)) == val(first.1) - val(first.0),
        decreases k,
    {
        if k == 0 {
            lemma2_to64();
            let width = val(brackets[0].1) - val(brackets[0].0);
            assert(pow2(0) * width == width) by (nonlinear_arith)
                requires
                    pow2(0) == 1,
            ;
        } else {
            self.lemma_halved(val, heights, first, brackets, k - 1);
            assert(self.is_half(heights, brackets[k - 1], brackets[k - 1 + 1]));
            lemma_pow2_unfold(k as nat);
            let was = val(brackets[k - 1].1) - val(brackets[k - 1].0);
            let now = val(brackets[k].1) - val(brackets[k].0);
            assert(2 * now == was);
            let p = pow2((k - 1) as nat) as int;
            let q = pow2(k as nat) as int;
            assert(q * now == p * was) by (nonlinear_arith)
                requires
                    q == 2 * p,
                    2 * now == was,
            ;
        }
    }
}

} // verus!
