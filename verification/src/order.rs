//! Real numbers ordered by their bit patterns.
//!
//! The planet's fields are 32-bit binary reals. What the discrete passes do with them is compare
//! them, and the pattern of a real carries its order: among the non-negative ones the patterns
//! are ordered as the numbers are ([`law_patterns_are_ordered`]), and [`value_key`] extends that
//! to both signs ([`law_value_key_orders_values`]). So a real goes into a pass as its pattern, is
//! compared there as an integer, and comes out as the same real, with nothing rounded on the way.

use vstd::arithmetic::power2::{lemma_pow2_pos, lemma_pow2_unfold, pow2};
use vstd::prelude::*;

verus! {

/// Pattern of the real 0.
pub const ZERO: u32 = 0;

/// Pattern of the real 1.
pub const ONE: u32 = 0x3F80_0000;

/// Pattern of the real 1/2.
pub const HALF: u32 = 0x3F00_0000;

/// Pattern of positive infinity; every larger pattern below [`SIGN`] is no number.
pub const INFINITY: u32 = 0x7F80_0000;

/// The sign bit: patterns from here on are the negative ones.
pub const SIGN: u32 = 0x8000_0000;

/// What a non-negative pattern stands for, counted in the smallest positive real. Infinity counts
/// as the next number after the largest finite one.
pub open spec fn magnitude(pattern: u32) -> nat {
    let exponent = (pattern / 0x80_0000) as nat;
    let fraction = (pattern % 0x80_0000) as nat;
    if exponent == 0 {
        fraction
    } else {
        (0x80_0000 + fraction) * pow2((exponent - 1) as nat)
    }
}

/// What a pattern of either sign stands for, counted in the smallest positive real.
pub open spec fn value(pattern: u32) -> int {
    if pattern < SIGN {
        magnitude(pattern) as int
    } else {
        -(magnitude((pattern - SIGN) as u32) as int)
    }
}

/// The pattern stands for a number or an infinity.
pub open spec fn is_number(pattern: u32) -> bool {
    pattern <= INFINITY || SIGN <= pattern <= SIGN + INFINITY
}

/// Whether the pattern stands for a number or an infinity.
pub fn number(pattern: u32) -> (yes: bool)
    ensures
        yes == is_number(pattern),
{
    pattern <= INFINITY || (SIGN <= pattern && pattern <= SIGN + INFINITY)
}

/// The integer by which patterns compare as the reals they stand for: both zeros are equal.
pub open spec fn spec_value_key(pattern: u32) -> int {
    if pattern < SIGN {
        pattern as int
    } else {
        SIGN - pattern
    }
}

/// The integer by which patterns compare in the total order of reals, where the negative zero
/// lies below the positive one.
pub open spec fn spec_total_key(pattern: u32) -> int {
    if pattern < SIGN {
        pattern as int
    } else {
        SIGN - pattern - 1
    }
}

/// See [`spec_value_key`].
pub fn value_key(pattern: u32) -> (key: i32)
    ensures
        key == spec_value_key(pattern),
{
    if pattern < SIGN {
        pattern as i32
    } else {
        0 - ((pattern - SIGN) as i32)
    }
}

/// See [`spec_total_key`].
pub fn total_key(pattern: u32) -> (key: i32)
    ensures
        key == spec_total_key(pattern),
{
    if pattern < SIGN {
        pattern as i32
    } else {
        -1 - ((pattern - SIGN) as i32)
    }
}

/// The pattern without its sign.
pub open spec fn unsigned(pattern: u32) -> u32 {
    if pattern < SIGN {
        pattern
    } else {
        (pattern - SIGN) as u32
    }
}

/// See [`unsigned`].
pub fn without_sign(pattern: u32) -> (out: u32)
    ensures
        out == unsigned(pattern),
{
    if pattern < SIGN {
        pattern
    } else {
        pattern - SIGN
    }
}

/// `a` is a number below the number `b`.
pub open spec fn spec_below(a: u32, b: u32) -> bool {
    is_number(a) && is_number(b) && spec_value_key(a) < spec_value_key(b)
}

/// `a` is a number at or below the number `b`.
pub open spec fn spec_at_most(a: u32, b: u32) -> bool {
    is_number(a) && is_number(b) && spec_value_key(a) <= spec_value_key(b)
}

/// See [`spec_below`].
pub fn below(a: u32, b: u32) -> (yes: bool)
    ensures
        yes == spec_below(a, b),
{
    number(a) && number(b) && value_key(a) < value_key(b)
}

/// See [`spec_at_most`].
pub fn at_most(a: u32, b: u32) -> (yes: bool)
    ensures
        yes == spec_at_most(a, b),
{
    number(a) && number(b) && value_key(a) <= value_key(b)
}

/// Comparing patterns is comparing the reals they stand for; what is no number is neither below,
/// at, nor above anything.
pub proof fn law_comparisons_are_those_of_reals(a: u32, b: u32)
    ensures
        spec_below(a, b) <==> is_number(a) && is_number(b) && value(a) < value(b),
        spec_at_most(a, b) <==> is_number(a) && is_number(b) && value(a) <= value(b),
{
    if is_number(a) && is_number(b) {
        law_value_key_orders_values(a, b);
    }
}

proof fn lemma_magnitude_step(a: u32)
    requires
        a < INFINITY,
    ensures
        magnitude(a) < magnitude((a + 1) as u32),
{
    let e = (a / 0x80_0000) as nat;
    let f = (a % 0x80_0000) as nat;
    let b = (a + 1) as u32;
    if e > 0 {
        lemma_pow2_pos((e - 1) as nat);
    }
    if f + 1 < 0x80_0000 {
        assert(b / 0x80_0000 == e && b % 0x80_0000 == f + 1);
        if e > 0 {
            let p = pow2((e - 1) as nat);
            assert((0x80_0000 + f + 1) * p == (0x80_0000 + f) * p + p) by (nonlinear_arith);
        }
    } else {
        assert(b / 0x80_0000 == e + 1 && b % 0x80_0000 == 0);
        if e == 0 {
            vstd::arithmetic::power2::lemma2_to64();
            assert(magnitude(b) == 0x80_0000 * pow2(0));
        } else {
            lemma_pow2_unfold(e);
            let p = pow2((e - 1) as nat);
            assert(magnitude(b) == 0x80_0000 * (2 * p));
            assert((0x80_0000 + 0x7f_ffff) * p < 0x80_0000 * (2 * p)) by (nonlinear_arith)
                requires
                    p > 0,
            ;
        }
    }
}

/// Non-negative reals are ordered as their patterns are, infinity above every finite one.
pub proof fn law_patterns_are_ordered(a: u32, b: u32)
    requires
        a <= INFINITY,
        b <= INFINITY,
    ensures
        a < b <==> magnitude(a) < magnitude(b),
        a == b <==> magnitude(a) == magnitude(b),
{
    if a < b {
        lemma_patterns_increase(a, b);
    } else if b < a {
        lemma_patterns_increase(b, a);
    }
}

proof fn lemma_patterns_increase(a: u32, b: u32)
    requires
        a < b <= INFINITY,
    ensures
        magnitude(a) < magnitude(b),
    decreases b - a,
{
    let c = (b - 1) as u32;
    lemma_magnitude_step(c);
    if a < c {
        lemma_patterns_increase(a, c);
    }
}

/// Keys compare as the reals do, whatever their signs: equal keys for equal reals, a smaller key
/// for a smaller real.
pub proof fn law_value_key_orders_values(a: u32, b: u32)
    requires
        is_number(a),
        is_number(b),
    ensures
        spec_value_key(a) < spec_value_key(b) <==> value(a) < value(b),
        spec_value_key(a) == spec_value_key(b) <==> value(a) == value(b),
{
    let ma = if a < SIGN { a } else { (a - SIGN) as u32 };
    let mb = if b < SIGN { b } else { (b - SIGN) as u32 };
    law_patterns_are_ordered(ma, mb);
    law_patterns_are_ordered(0, ma);
    law_patterns_are_ordered(0, mb);
    assert(magnitude(0) == 0);
}

/// The total key refines the value key: it never reverses it, and it tells all patterns apart.
pub proof fn law_total_key_refines(a: u32, b: u32)
    ensures
        spec_value_key(a) < spec_value_key(b) ==> spec_total_key(a) < spec_total_key(b),
        spec_total_key(a) == spec_total_key(b) <==> a == b,
{
}

/// Index `i` comes before index `j` when `keys` are put in stable ascending order.
pub open spec fn before(keys: Seq<i32>, i: int, j: int) -> bool {
    keys[i] < keys[j] || (keys[i] == keys[j] && i < j)
}

/// `order` lists indices of `keys`, each strictly before the next in stable ascending order.
pub open spec fn in_order(keys: Seq<i32>, order: Seq<usize>) -> bool {
    &&& forall|a: int| 0 <= a < order.len() ==> #[trigger] order[a] < keys.len()
    &&& forall|a: int, b: int|
        0 <= a < b < order.len() ==> before(keys, #[trigger] order[a] as int, #[trigger] order[b] as int)
}

/// `order` is the stable ascending order of all of `keys`: it holds every index once, and stands
/// in order.
pub open spec fn is_stable_order(keys: Seq<i32>, order: Seq<usize>) -> bool {
    &&& order.len() == keys.len()
    &&& in_order(keys, order)
    &&& forall|i: usize| i < keys.len() ==> #[trigger] order.contains(i)
}

/// Merge two ordered runs of indices.
fn merge(keys: &Vec<i32>, left: &Vec<usize>, right: &Vec<usize>) -> (out: Vec<usize>)
    requires
        in_order(keys@, left@),
        in_order(keys@, right@),
        forall|a: int, b: int|
            0 <= a < left@.len() && 0 <= b < right@.len() ==> #[trigger] left@[a] != #[trigger] right@[b],
        left@.len() + right@.len() <= usize::MAX,
    ensures
        in_order(keys@, out@),
        out@.len() == left@.len() + right@.len(),
        forall|i: usize| left@.contains(i) || right@.contains(i) ==> #[trigger] out@.contains(i),
        forall|a: int|
            0 <= a < out@.len() ==> left@.contains(#[trigger] out@[a]) || right@.contains(out@[a]),
{
    let mut out: Vec<usize> = Vec::new();
    let mut l: usize = 0;
    let mut r: usize = 0;
    while l < left.len() || r < right.len()
        invariant
            in_order(keys@, left@),
            in_order(keys@, right@),
            forall|a: int, b: int|
                0 <= a < left@.len() && 0 <= b < right@.len() ==> #[trigger] left@[a] != #[trigger] right@[b],
            l <= left@.len(),
            r <= right@.len(),
            left@.len() + right@.len() <= usize::MAX,
            out@.len() == l + r,
            in_order(keys@, out@),
            forall|a: int, b: int|
                0 <= a < out@.len() && l <= b < left@.len() ==> before(
                    keys@,
                    #[trigger] out@[a] as int,
                    #[trigger] left@[b] as int,
                ),
            forall|a: int, b: int|
                0 <= a < out@.len() && r <= b < right@.len() ==> before(
                    keys@,
                    #[trigger] out@[a] as int,
                    #[trigger] right@[b] as int,
                ),
            forall|b: int| 0 <= b < l ==> out@.contains(#[trigger] left@[b]),
            forall|b: int| 0 <= b < r ==> out@.contains(#[trigger] right@[b]),
            forall|a: int|
                0 <= a < out@.len() ==> left@.contains(#[trigger] out@[a]) || right@.contains(out@[a]),
        decreases left@.len() - l + right@.len() - r,
    {
        let take_left: bool = if l == left.len() {
            false
        } else if r == right.len() {
            true
        } else {
            let i: usize = left[l];
            let j: usize = right[r];
            keys[i] < keys[j] || (keys[i] == keys[j] && i < j)
        };
        let ghost prior = out@;
        if take_left {
            out.push(left[l]);
            assert(out@[prior.len() as int] == left@[l as int]);
            l = l + 1;
        } else {
            out.push(right[r]);
            assert(out@[prior.len() as int] == right@[r as int]);
            r = r + 1;
        }
        assert forall|i: usize| prior.contains(i) implies out@.contains(i) by {
            let a = prior.index_of(i);
            assert(out@[a] == i);
        }
    }
    out
}

/// Indices `lo..hi` of `keys` in stable ascending order.
fn order_range(keys: &Vec<i32>, lo: usize, hi: usize) -> (out: Vec<usize>)
    requires
        lo <= hi <= keys@.len(),
    ensures
        out@.len() == hi - lo,
        in_order(keys@, out@),
        forall|i: usize| lo <= i < hi ==> #[trigger] out@.contains(i),
        forall|a: int| 0 <= a < out@.len() ==> lo <= #[trigger] out@[a] < hi,
    decreases hi - lo,
{
    if hi - lo <= 1 {
        let mut out: Vec<usize> = Vec::new();
        if lo < hi {
            out.push(lo);
            assert(out@[0] == lo);
        }
        return out;
    }
    let mid: usize = lo + (hi - lo) / 2;
    let left = order_range(keys, lo, mid);
    let right = order_range(keys, mid, hi);
    merge(keys, &left, &right)
}

/// All indices of `keys` in stable ascending order.
pub fn stable_order(keys: &Vec<i32>) -> (order: Vec<usize>)
    ensures
        is_stable_order(keys@, order@),
{
    order_range(keys, 0, keys.len())
}

/// The stable order is unique: two lists that both are it are the same list.
pub proof fn law_stable_order_is_unique(keys: Seq<i32>, first: Seq<usize>, second: Seq<usize>)
    requires
        is_stable_order(keys, first),
        is_stable_order(keys, second),
    ensures
        first == second,
{
    lemma_orders_agree(keys, first, second, keys.len() as int);
    assert(first.take(keys.len() as int) == first);
    assert(second.take(keys.len() as int) == second);
}

proof fn lemma_orders_agree(keys: Seq<i32>, first: Seq<usize>, second: Seq<usize>, n: int)
    requires
        is_stable_order(keys, first),
        is_stable_order(keys, second),
        0 <= n <= keys.len(),
    ensures
        first.take(n) == second.take(n),
    decreases n,
{
    if n > 0 {
        lemma_orders_agree(keys, first, second, n - 1);
        let m = n - 1;
        assert forall|a: int| 0 <= a < m implies first[a] == second[a] by {
            assert(first.take(m)[a] == second.take(m)[a]);
        }
        // The n-th entries: each occurs in the other list, and not among the first ones.
        let p = second.index_of(first[m]);
        assert(second.contains(first[m]));
        let q = first.index_of(second[m]);
        assert(first.contains(second[m]));
        assert(second[p] == first[m] && first[q] == second[m]);
        if p < m {
            assert(first[p] == first[m]);
            assert(before(keys, first[p] as int, first[m] as int));
        }
        if q < m {
            assert(second[q] == second[m]);
            assert(before(keys, second[q] as int, second[m] as int));
        }
        if p > m && q > m {
            assert(before(keys, second[m] as int, second[p] as int));
            assert(before(keys, first[m] as int, first[q] as int));
        }
        assert(first.take(n) =~= second.take(n));
    }
}

} // verus!
