//! A priority queue of cells by distance: a binary heap, nearest first.

use vstd::multiset::Multiset;
use vstd::prelude::*;
use vstd::seq_lib::{to_multiset_build, to_multiset_contains, to_multiset_remove, to_multiset_update};

verus! {

/// A cell waiting at a distance, with the intensity that it carries. Distance and intensity are
/// patterns of non-negative reals.
#[derive(Clone, Copy, Debug, PartialEq, Eq, Structural)]
pub struct Entry {
    pub dist: u32,
    pub cell: u32,
    pub intensity: u32,
}

/// `a` leaves the queue no later than `b`: by distance, then by cell index. Entries alike in both
/// go by intensity, which makes the order total.
pub open spec fn ahead(a: Entry, b: Entry) -> bool {
    a.dist < b.dist || (a.dist == b.dist && (a.cell < b.cell || (a.cell == b.cell && a.intensity
        <= b.intensity)))
}

fn is_ahead(a: &Entry, b: &Entry) -> (yes: bool)
    ensures
        yes == ahead(*a, *b),
{
    a.dist < b.dist || (a.dist == b.dist && (a.cell < b.cell || (a.cell == b.cell && a.intensity
        <= b.intensity)))
}

/// Index of the parent of `i`.
pub open spec fn parent(i: int) -> int {
    (i - 1) / 2
}

/// Every entry is behind its parent.
pub open spec fn is_heap(items: Seq<Entry>) -> bool {
    forall|i: int| 0 < i < items.len() ==> ahead(items[parent(i)], #[trigger] items[i])
}

/// `e` is the entry of `all` that leaves first.
pub open spec fn is_first(all: Multiset<Entry>, e: Entry) -> bool {
    all.contains(e) && forall|x: Entry| #[trigger] all.contains(x) ==> ahead(e, x)
}

/// The queue.
pub struct Queue {
    items: Vec<Entry>,
}

impl View for Queue {
    type V = Multiset<Entry>;

    closed spec fn view(&self) -> Multiset<Entry> {
        self.items@.to_multiset()
    }
}

/// The first item of a heap is ahead of all.
proof fn lemma_root_is_first(items: Seq<Entry>, i: int)
    requires
        is_heap(items),
        0 <= i < items.len(),
    ensures
        ahead(items[0], items[i]),
    decreases i,
{
    if i > 0 {
        lemma_root_is_first(items, parent(i));
    }
}

/// Exchanging two items keeps the contents.
proof fn lemma_swap_keeps(items: Seq<Entry>, i: int, j: int)
    requires
        0 <= i < items.len(),
        0 <= j < items.len(),
        i != j,
    ensures
        items.update(i, items[j]).update(j, items[i]).to_multiset() == items.to_multiset(),
{
    let half = items.update(i, items[j]);
    to_multiset_update(items, i, items[j]);
    to_multiset_update(half, j, items[i]);
    to_multiset_contains(items, items[i]);
    assert(items.contains(items[i]));
    assert(half.update(j, items[i]).to_multiset() =~= items.to_multiset());
}

impl Queue {
    /// The items stand as a heap.
    pub closed spec fn wf(&self) -> bool {
        is_heap(self.items@)
    }

    /// An empty queue.
    pub fn new() -> (queue: Self)
        ensures
            queue.wf(),
            queue@ == Multiset::<Entry>::empty(),
    {
        let queue = Queue { items: Vec::new() };
        proof {
            let none = queue.items@;
            none.to_multiset_ensures();
            assert(queue@ =~= Multiset::<Entry>::empty());
        }
        queue
    }

    /// Add an entry.
    pub fn push(&mut self, entry: Entry)
        requires
            old(self).wf(),
        ensures
            final(self).wf(),
            final(self)@ == old(self)@.insert(entry),
    {
        let ghost first = self.items@;
        let mut i: usize = self.items.len();
        self.items.push(entry);
        proof {
            to_multiset_build(first, entry);
        }
        while i > 0
            invariant
                i < self.items@.len(),
                self.items@.to_multiset() == first.to_multiset().insert(entry),
                forall|j: int|
                    0 < j < self.items@.len() && j != i ==> ahead(
                        self.items@[parent(j)],
                        #[trigger] self.items@[j],
                    ),
                forall|j: int|
                    0 < i && 0 < j < self.items@.len() && parent(j) == i ==> ahead(
                        self.items@[parent(i as int)],
                        #[trigger] self.items@[j],
                    ),
            ensures
                is_heap(self.items@),
                self.items@.to_multiset() == first.to_multiset().insert(entry),
            decreases i,
        {
            let p: usize = (i - 1) / 2;
            if is_ahead(&self.items[p], &self.items[i]) {
                break ;
            }
            let ghost before = self.items@;
            let upper: Entry = self.items[p];
            let lower: Entry = self.items[i];
            self.items.set(p, lower);
            self.items.set(i, upper);
            proof {
                lemma_swap_keeps(before, p as int, i as int);
            }
            i = p;
        }
    }

    /// Take out the entry that is ahead of all others; `None` when the queue is empty.
    pub fn pop(&mut self) -> (out: Option<Entry>)
        requires
            old(self).wf(),
        ensures
            final(self).wf(),
            match out {
                None => old(self)@.len() == 0 && final(self)@ == old(self)@,
                Some(e) => is_first(old(self)@, e) && final(self)@ == old(self)@.remove(e),
            },
    {
        let ghost first = self.items@;
        proof {
            first.to_multiset_ensures();
        }
        if self.items.len() == 0 {
            return None;
        }
        let top: Entry = self.items.swap_remove(0);
        proof {
            assert forall|x: Entry| #[trigger] first.to_multiset().contains(x) implies ahead(top, x) by {
                to_multiset_contains(first, x);
                let i = first.index_of(x);
                lemma_root_is_first(first, i);
            }
            to_multiset_contains(first, top);
            assert(first.contains(first[0]));
            lemma_swap_remove(first);
        }
        let n: usize = self.items.len();
        let ghost rest = first.to_multiset().remove(top);
        let mut i: usize = 0;
        assert forall|j: int| 0 < j < n && parent(j) != 0 implies ahead(
            self.items@[parent(j)],
            #[trigger] self.items@[j],
        ) by {
            assert(ahead(first[parent(j)], first[j]));
        }
        while i < n / 2
            invariant
                n == self.items@.len(),
                self.items@.to_multiset() == rest,
                forall|j: int|
                    0 < j < n && parent(j) != i ==> ahead(
                        self.items@[parent(j)],
                        #[trigger] self.items@[j],
                    ),
                forall|j: int|
                    0 < i && 0 < j < n && parent(j) == i ==> ahead(
                        self.items@[parent(i as int)],
                        #[trigger] self.items@[j],
                    ),
            ensures
                is_heap(self.items@),
                self.items@.to_multiset() == rest,
            decreases n - i,
        {
            let left: usize = 2 * i + 1;
            let right: usize = left + 1;
            let child: usize = if right < n && is_ahead(&self.items[right], &self.items[left]) {
                right
            } else {
                left
            };
            let ghost before = self.items@;
            assert(forall|j: int| 0 < j < n && parent(j) == i ==> j == left || j == right);
            if is_ahead(&self.items[i], &self.items[child]) {
                assert forall|j: int| 0 < j < n implies ahead(before[parent(j)], #[trigger] before[j]) by {
                    if parent(j) == i {
                        assert(ahead(before[child as int], before[j]));
                    }
                }
                break ;
            }
            let upper: Entry = self.items[i];
            let lower: Entry = self.items[child];
            self.items.set(i, lower);
            self.items.set(child, upper);
            proof {
                lemma_swap_keeps(before, i as int, child as int);
                assert forall|j: int| 0 < j < n && parent(j) != child implies ahead(
                    self.items@[parent(j)],
                    #[trigger] self.items@[j],
                ) by {
                    if parent(j) == i {
                        assert(ahead(before[child as int], before[j]));
                    } else {
                        assert(ahead(before[parent(j)], before[j]));
                    }
                }
                assert forall|j: int| 0 < j < n && parent(j) == child implies ahead(
                    self.items@[parent(child as int)],
                    #[trigger] self.items@[j],
                ) by {
                    assert(ahead(before[parent(j)], before[j]));
                }
            }
            i = child;
        }
        Some(top)
    }
}

/// Taking the first item out with the last one in its place takes out just that item.
proof fn lemma_swap_remove(items: Seq<Entry>)
    requires
        items.len() > 0,
    ensures
        items.update(0, items.last()).drop_last().to_multiset() == items.to_multiset().remove(items[0]),
{
    let last = items.last();
    let moved = items.update(0, last);
    let n = items.len() as int;
    to_multiset_update(items, 0, last);
    to_multiset_remove(moved, n - 1);
    assert(moved.drop_last() =~= moved.remove(n - 1));
    assert(moved[n - 1] == last);
    to_multiset_contains(items, items[0]);
    assert(items.contains(items[0]));
    assert(moved.drop_last().to_multiset() =~= items.to_multiset().remove(items[0]));
}

} // verus!
