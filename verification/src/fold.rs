//! Folding a list with a step that the caller gives.

use vstd::prelude::*;

verus! {

/// `sums` are the successive values of folding `items` from `zero`: the first is `zero`, and each
/// next one is what `step` gave for the one before it and the next item.
pub open spec fn is_running<T, A, F: Fn(T, A) -> T>(step: F, zero: T, items: Seq<A>, sums: Seq<T>) -> bool {
    &&& sums.len() == items.len() + 1
    &&& sums[0] == zero
    &&& forall|i: int|
        0 <= i < items.len() ==> call_ensures(step, (sums[i], #[trigger] items[i]), sums[i + 1])
}

/// `total` is what folding `items` from `zero` comes to.
pub open spec fn is_fold<T, A, F: Fn(T, A) -> T>(step: F, zero: T, items: Seq<A>, total: T) -> bool {
    exists|sums: Seq<T>| #[trigger] is_running(step, zero, items, sums) && sums.last() == total
}

/// Fold `items` from `zero`.
pub fn fold<T: Copy, A: Copy, F: Fn(T, A) -> T>(step: &F, zero: T, items: &Vec<A>) -> (total: T)
    requires
        forall|t: T, a: A| #[trigger] call_requires(*step, (t, a)),
    ensures
        is_fold(*step, zero, items@, total),
{
    let mut total: T = zero;
    let ghost mut sums: Seq<T> = seq![zero];
    let mut i: usize = 0;
    assert(items@.take(0) =~= Seq::<A>::empty());
    while i < items.len()
        invariant
            i <= items@.len(),
            forall|t: T, a: A| #[trigger] call_requires(*step, (t, a)),
            is_running(*step, zero, items@.take(i as int), sums),
            sums.last() == total,
        decreases items@.len() - i,
    {
        total = step(total, items[i]);
        proof {
            lemma_running_step(*step, zero, items@.take(i as int), sums, items@[i as int], total);
            assert(items@.take(i as int).push(items@[i as int]) =~= items@.take(i + 1));
            sums = sums.push(total);
        }
        i = i + 1;
    }
    assert(items@.take(i as int) =~= items@);
    total
}

/// One more item.
pub proof fn lemma_running_step<T, A, F: Fn(T, A) -> T>(
    step: F,
    zero: T,
    items: Seq<A>,
    sums: Seq<T>,
    item: A,
    next: T,
)
    requires
        is_running(step, zero, items, sums),
        call_ensures(step, (sums.last(), item), next),
    ensures
        is_running(step, zero, items.push(item), sums.push(next)),
{
    let more = items.push(item);
    let longer = sums.push(next);
    assert forall|i: int| 0 <= i < more.len() implies call_ensures(
        step,
        (longer[i], #[trigger] more[i]),
        longer[i + 1],
    ) by {
        if i < items.len() {
            assert(more[i] == items[i]);
        }
    }
}

/// Where the step is a function, the successive values are fixed.
pub proof fn lemma_running_is_one<T, A, F: Fn(T, A) -> T>(
    step: F,
    zero: T,
    items: Seq<A>,
    x: Seq<T>,
    y: Seq<T>,
    i: int,
)
    requires
        forall|t: T, a: A, b: T, c: T|
            #[trigger] call_ensures(step, (t, a), b) && #[trigger] call_ensures(step, (t, a), c) ==> b
                == c,
        is_running(step, zero, items, x),
        is_running(step, zero, items, y),
        0 <= i <= items.len(),
    ensures
        x[i] == y[i],
    decreases i,
{
    if i > 0 {
        lemma_running_is_one(step, zero, items, x, y, i - 1);
        assert(call_ensures(step, (x[i - 1], items[i - 1]), x[i - 1 + 1]));
        assert(call_ensures(step, (y[i - 1], items[i - 1]), y[i - 1 + 1]));
    }
}

/// Where the step is a function, a fold comes to one value.
pub proof fn lemma_fold_is_one<T, A, F: Fn(T, A) -> T>(step: F, zero: T, items: Seq<A>, t: T, u: T)
    requires
        forall|t: T, a: A, b: T, c: T|
            #[trigger] call_ensures(step, (t, a), b) && #[trigger] call_ensures(step, (t, a), c) ==> b
                == c,
        is_fold(step, zero, items, t),
        is_fold(step, zero, items, u),
    ensures
        t == u,
{
    let x = choose|sums: Seq<T>| #[trigger] is_running(step, zero, items, sums) && sums.last() == t;
    let y = choose|sums: Seq<T>| #[trigger] is_running(step, zero, items, sums) && sums.last() == u;
    lemma_running_is_one(step, zero, items, x, y, items.len() as int);
}

/// The first values are those of folding the first items.
pub proof fn lemma_running_prefix<T, A, F: Fn(T, A) -> T>(
    step: F,
    zero: T,
    items: Seq<A>,
    sums: Seq<T>,
    m: int,
)
    requires
        is_running(step, zero, items, sums),
        0 <= m <= items.len(),
    ensures
        is_running(step, zero, items.take(m), sums.take(m + 1)),
{
    let less = items.take(m);
    let short = sums.take(m + 1);
    assert forall|i: int| 0 <= i < less.len() implies call_ensures(
        step,
        (short[i], #[trigger] less[i]),
        short[i + 1],
    ) by {
        assert(less[i] == items[i]);
    }
}

} // verus!
