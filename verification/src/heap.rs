//! A binary max-heap of entries: the farthest entry stands on top.
use vstd::prelude::*;
use vstd::multiset::Multiset;
use crate::single::{ascending, nearer, nearest_first, rank, Entry};
use crate::single::lemma_ascending_is_sorted;

verus! {

/// Entries kept so that the farthest of them is at hand.
pub struct MaxHeap {
    items: Vec<Entry>,
}

/// Whether the item at `i` is no farther than the item above it.
spec fn below_parent(s: Seq<Entry>, i: int) -> bool {
    rank(s[i]) <= rank(s[(i - 1) / 2])
}

/// Whether the first `end` items form a heap.
spec fn is_heap(s: Seq<Entry>, end: int) -> bool {
    forall|i: int| 0 < i < end ==> #[trigger] below_parent(s, i)
}

/// Whether the first `end` items form a heap but for the item at `hole`, which
/// may be nearer than the items below it.
spec fn is_heap_but_below(s: Seq<Entry>, end: int, hole: int) -> bool {
    &&& forall|i: int| 0 < i < end && (i - 1) / 2 != hole ==> #[trigger] below_parent(s, i)
    &&& forall|i: int|
        0 < i < end && (i - 1) / 2 == hole && hole > 0 ==> rank(#[trigger] s[i]) <= rank(
            s[(hole - 1) / 2],
        )
}

/// Whether the items form a heap but for the item at `hole`, which may be
/// farther than the item above it.
spec fn is_heap_but_above(s: Seq<Entry>, hole: int) -> bool {
    &&& forall|i: int| 0 < i < s.len() && i != hole ==> #[trigger] below_parent(s, i)
    &&& forall|i: int|
        0 < i < s.len() && (i - 1) / 2 == hole && hole > 0 ==> rank(#[trigger] s[i]) <= rank(
            s[(hole - 1) / 2],
        )
}

proof fn lemma_top_is_farthest(s: Seq<Entry>, end: int, i: int)
    requires
        is_heap(s, end),
        0 <= i < end <= s.len(),
    ensures
        rank(s[i]) <= rank(s[0]),
    decreases i,
{
    if i > 0 {
        assert(below_parent(s, i));
        lemma_top_is_farthest(s, end, (i - 1) / 2);
    }
}

spec fn swapped(s: Seq<Entry>, i: int, j: int) -> Seq<Entry> {
    s.update(i, s[j]).update(j, s[i])
}

proof fn lemma_swap_keeps_entries(s: Seq<Entry>, i: int, j: int)
    requires
        0 <= i < s.len(),
        0 <= j < s.len(),
    ensures
        swapped(s, i, j).to_multiset() == s.to_multiset(),
{
    broadcast use vstd::seq_lib::group_to_multiset_ensures;
    broadcast use vstd::multiset::group_multiset_axioms;

    let t = s.update(i, s[j]);
    vstd::seq_lib::to_multiset_update(s, i, s[j]);
    vstd::seq_lib::to_multiset_update(t, j, s[i]);
    assert(s.to_multiset().count(s[i]) > 0);
    assert(s.to_multiset().count(s[j]) > 0);
    assert(swapped(s, i, j).to_multiset() =~= s.to_multiset());
}

/// Exchanges two items.
fn swap_items(items: &mut Vec<Entry>, i: usize, j: usize)
    requires
        i < old(items).len(),
        j < old(items).len(),
    ensures
        final(items)@ == swapped(old(items)@, i as int, j as int),
        final(items)@.to_multiset() == old(items)@.to_multiset(),
{
    proof {
        lemma_swap_keeps_entries(items@, i as int, j as int);
    }
    let x: Entry = items[i];
    let y: Entry = items[j];
    items.set(i, y);
    items.set(j, x);
}

/// Where the farthest of the items below the hole, `child`, takes its place, the
/// hole moves down.
proof fn lemma_hole_moves_down(s: Seq<Entry>, end: int, hole: int, child: int)
    requires
        0 <= hole < child < end <= s.len(),
        (child - 1) / 2 == hole,
        is_heap_but_below(s, end, hole),
        rank(s[hole]) < rank(s[child]),
        forall|i: int|
            0 < i < end && (i - 1) / 2 == hole ==> rank(#[trigger] s[i]) <= rank(s[child]),
    ensures
        is_heap_but_below(swapped(s, hole, child), end, child),
{
    let after = swapped(s, hole, child);
    assert forall|i: int| 0 < i < end && (i - 1) / 2 != child implies #[trigger] below_parent(
        after,
        i,
    ) by {
        if (i - 1) / 2 == hole {
            assert(rank(s[i]) <= rank(s[child]));
        } else {
            assert(below_parent(s, i));
            if i == hole {
                assert(rank(s[child]) <= rank(s[(hole - 1) / 2]));
            }
        }
    }
    assert forall|i: int| 0 < i < end && (i - 1) / 2 == child implies rank(#[trigger] after[i])
        <= rank(after[(child - 1) / 2]) by {
        assert(below_parent(s, i));
    }
}

/// An item that is no nearer than the items below it leaves no hole.
proof fn lemma_hole_is_filled(s: Seq<Entry>, end: int, hole: int)
    requires
        0 <= hole < end <= s.len(),
        is_heap_but_below(s, end, hole),
        forall|i: int|
            0 < i < end && (i - 1) / 2 == hole ==> rank(#[trigger] s[i]) <= rank(s[hole]),
    ensures
        is_heap(s, end),
{
    assert forall|i: int| 0 < i < end implies #[trigger] below_parent(s, i) by {
        if (i - 1) / 2 == hole {
            assert(rank(s[i]) <= rank(s[hole]));
        }
    }
}

/// Exchanging two of the first items keeps the first items.
proof fn lemma_swap_keeps_first(s: Seq<Entry>, end: int, i: int, j: int)
    requires
        0 <= i < end <= s.len(),
        0 <= j < end,
    ensures
        swapped(s, i, j).take(end).to_multiset() == s.take(end).to_multiset(),
{
    lemma_swap_keeps_entries(s.take(end), i, j);
    assert(swapped(s, i, j).take(end) =~= swapped(s.take(end), i, j));
}

/// Moves the top item down until the first `end` items form a heap again.
fn sift_down(items: &mut Vec<Entry>, end: usize)
    requires
        0 < end <= old(items).len(),
        is_heap_but_below(old(items)@, end as int, 0),
    ensures
        final(items).len() == old(items).len(),
        is_heap(final(items)@, end as int),
        final(items)@.to_multiset() == old(items)@.to_multiset(),
        final(items)@.take(end as int).to_multiset() == old(items)@.take(end as int).to_multiset(),
        forall|i: int| end <= i < final(items).len() ==> final(items)@[i] == old(items)@[i],
{
    let ghost start = items@;
    let mut hole: usize = 0;
    let mut done: bool = false;
    while !done
        invariant
            hole < end <= items.len(),
            items.len() == start.len(),
            !done ==> is_heap_but_below(items@, end as int, hole as int),
            done ==> is_heap(items@, end as int),
            items@.to_multiset() == start.to_multiset(),
            items@.take(end as int).to_multiset() == start.take(end as int).to_multiset(),
            forall|i: int| end <= i < items.len() ==> items@[i] == start[i],
        decreases (if done { 0int } else { 1int }), end - hole,
    {
        if hole >= end / 2 {
            proof {
                lemma_hole_is_filled(items@, end as int, hole as int);
            }
            done = true;
        } else {
            let left: usize = 2 * hole + 1;
            let child: usize = if left + 1 < end && nearer(items[left], items[left + 1]) {
                left + 1
            } else {
                left
            };
            assert forall|i: int| 0 < i < end && (i - 1) / 2 == hole implies rank(
                #[trigger] items@[i],
            ) <= rank(items@[child as int]) by {
                assert(i == left || i == left + 1);
            }
            if nearer(items[hole], items[child]) {
                proof {
                    lemma_hole_moves_down(items@, end as int, hole as int, child as int);
                    lemma_swap_keeps_first(items@, end as int, hole as int, child as int);
                }
                swap_items(items, hole, child);
                hole = child;
            } else {
                proof {
                    lemma_hole_is_filled(items@, end as int, hole as int);
                }
                done = true;
            }
        }
    }
}

impl MaxHeap {
    /// The entries in the heap.
    pub closed spec fn view(&self) -> Multiset<Entry> {
        self.items@.to_multiset()
    }

    #[verifier::type_invariant]
    spec fn well_formed(&self) -> bool {
        is_heap(self.items@, self.items@.len() as int)
    }

    /// An empty heap.
    pub fn new() -> (heap: MaxHeap)
        ensures
            heap@ == Multiset::<Entry>::empty(),
    {
        let heap = MaxHeap { items: Vec::new() };
        proof {
            broadcast use vstd::seq_lib::group_to_multiset_ensures;
            broadcast use vstd::multiset::group_multiset_axioms;

            assert(heap.items@.to_multiset() =~= Multiset::<Entry>::empty());
        }
        heap
    }

    /// The number of entries.
    pub fn len(&self) -> (len: usize)
        ensures
            len == self@.len(),
    {
        proof {
            broadcast use vstd::seq_lib::group_to_multiset_ensures;
        }
        self.items.len()
    }

    /// The farthest entry, if there is one.
    pub fn peek(&self) -> (top: Option<Entry>)
        ensures
            top is None <==> self@.len() == 0,
            top matches Some(t) ==> self@.contains(t) && forall|e: Entry| #[trigger]
                self@.contains(e) ==> rank(e) <= rank(t),
    {
        proof {
            use_type_invariant(self);
            broadcast use vstd::seq_lib::group_to_multiset_ensures;
        }
        if self.items.len() == 0 {
            None
        } else {
            proof {
                let s = self.items@;
                assert(s.contains(s[0]));
                assert forall|e: Entry| #[trigger] self@.contains(e) implies rank(e) <= rank(s[0]) by {
                    assert(s.contains(e));
                    let i = choose|i: int| 0 <= i < s.len() && s[i] == e;
                    lemma_top_is_farthest(s, s.len() as int, i);
                }
            }
            Some(self.items[0])
        }
    }

    /// Adds an entry.
    pub fn push(&mut self, entry: Entry)
        ensures
            final(self)@ == old(self)@.insert(entry),
    {
        proof {
            use_type_invariant(&*self);
            broadcast use vstd::seq_lib::group_to_multiset_ensures;
        }
        let ghost before = self.items@;
        let mut items: Vec<Entry> = Vec::new();
        std::mem::swap(&mut items, &mut self.items);
        items.push(entry);
        let mut hole: usize = items.len() - 1;
        assert forall|i: int| 0 < i < items@.len() && i != hole implies #[trigger] below_parent(
            items@,
            i,
        ) by {
            assert(below_parent(before, i));
        }
        let mut done: bool = false;
        while !done
            invariant
                hole < items.len(),
                !done ==> is_heap_but_above(items@, hole as int),
                done ==> is_heap(items@, items@.len() as int),
                items@.to_multiset() == before.push(entry).to_multiset(),
            decreases (if done { 0int } else { 1int }), hole,
        {
            if hole == 0 {
                done = true;
            } else {
                let parent: usize = (hole - 1) / 2;
                if nearer(items[parent], items[hole]) {
                    let ghost s = items@;
                    swap_items(&mut items, hole, parent);
                    proof {
                        let t = items@;
                        assert forall|i: int| 0 < i < t.len() && i != parent implies
                            #[trigger] below_parent(t, i) by {
                            assert(i != hole ==> below_parent(s, i));
                        }
                        assert forall|i: int|
                            0 < i < t.len() && (i - 1) / 2 == parent && parent > 0 implies rank(
                            #[trigger] t[i],
                        ) <= rank(t[(parent - 1) / 2]) by {
                            assert(below_parent(s, parent as int));
                            assert(i != hole ==> below_parent(s, i));
                        }
                    }
                    hole = parent;
                } else {
                    assert(below_parent(items@, hole as int));
                    done = true;
                }
            }
        }
        self.items = items;
    }

    /// Removes the farthest entry, if there is one.
    pub fn pop(&mut self) -> (top: Option<Entry>)
        ensures
            top is None <==> old(self)@.len() == 0,
            top is None ==> final(self)@ == old(self)@,
            top matches Some(t) ==> {
                &&& old(self)@.contains(t)
                &&& forall|e: Entry| #[trigger] old(self)@.contains(e) ==> rank(e) <= rank(t)
                &&& final(self)@ == old(self)@.remove(t)
            },
    {
        proof {
            use_type_invariant(&*self);
            broadcast use vstd::seq_lib::group_to_multiset_ensures;
            broadcast use vstd::multiset::group_multiset_axioms;
        }
        let ghost before = self.items@;
        proof {
            assert forall|e: Entry| #[trigger] before.to_multiset().contains(e) implies rank(e)
                <= rank(before[0]) by {
                assert(before.contains(e));
                let i = choose|i: int| 0 <= i < before.len() && before[i] == e;
                lemma_top_is_farthest(before, before.len() as int, i);
            }
            if before.len() > 0 {
                assert(before.contains(before[0]));
            }
        }
        let mut items: Vec<Entry> = Vec::new();
        std::mem::swap(&mut items, &mut self.items);
        let result = match items.pop() {
            None => None,
            Some(last) => {
                proof {
                    assert(before.drop_last().push(last) =~= before);
                    assert(before.to_multiset() == items@.to_multiset().insert(last));
                }
                if items.len() == 0 {
                    assert(items@.to_multiset() =~= before.to_multiset().remove(last));
                    Some(last)
                } else {
                    let first: Entry = items[0];
                    let ghost rest = items@;
                    items.set(0, last);
                    proof {
                        vstd::seq_lib::to_multiset_update(rest, 0, last);
                        assert(items@.to_multiset() =~= before.to_multiset().remove(first));
                        assert forall|i: int|
                            0 < i < items@.len() && (i - 1) / 2 != 0 implies #[trigger] below_parent(
                            items@,
                            i,
                        ) by {
                            assert(below_parent(before, i));
                        }
                    }
                    let end: usize = items.len();
                    sift_down(&mut items, end);
                    Some(first)
                }
            },
        };
        self.items = items;
        result
    }

    /// The entries in ascending order.
    pub fn into_sorted_vec(self) -> (sorted: Vec<Entry>)
        ensures
            ascending(sorted@),
            sorted@.to_multiset() == self@,
    {
        proof {
            use_type_invariant(&self);
        }
        let mut items = self.items;
        let mut end: usize = items.len();
        while end > 1
            invariant
                end <= items.len(),
                is_heap(items@, end as int),
                items@.to_multiset() == self.items@.to_multiset(),
                forall|i: int, j: int|
                    end <= j < items.len() && 0 <= i < j ==> rank(#[trigger] items@[i]) <= rank(
                        #[trigger] items@[j],
                    ),
            decreases end,
        {
            end = end - 1;
            let ghost s = items@;
            swap_items(&mut items, 0, end);
            let ghost t = items@;
            proof {
                assert forall|i: int| 0 < i < end && (i - 1) / 2 != 0 implies #[trigger] below_parent(
                    t,
                    i,
                ) by {
                    assert(below_parent(s, i));
                }
                assert forall|i: int| 0 <= i <= end implies rank(#[trigger] t[i]) <= rank(t[end as int]) by {
                    let k = if i == 0 { end as int } else if i == end { 0 } else { i };
                    lemma_top_is_farthest(s, end + 1, k);
                }
                assert forall|i: int, j: int| end <= j < t.len() && 0 <= i < j implies rank(
                    #[trigger] t[i],
                ) <= rank(#[trigger] t[j]) by {
                    if j > end {
                        assert(t[j] == s[j]);
                        let k = if i == 0 { end as int } else if i == end { 0 } else { i };
                        assert(t[i] == s[k]);
                    }
                }
            }
            sift_down(&mut items, end);
            proof {
                broadcast use vstd::seq_lib::group_to_multiset_ensures;

                let u = items@;
                assert forall|i: int, j: int| end <= j < u.len() && 0 <= i < j implies rank(
                    #[trigger] u[i],
                ) <= rank(#[trigger] u[j]) by {
                    if i < end {
                        let a = u.take(end as int);
                        let b = t.take(end as int);
                        assert(a.contains(a[i]));
                        assert(b.to_multiset().count(a[i]) > 0);
                        assert(b.contains(a[i]));
                        let k = choose|k: int| 0 <= k < b.len() && b[k] == a[i];
                        assert(t[k] == u[i]);
                    }
                }
            }
        }
        items
    }
}

/// Sorts entries nearest first.
pub fn sort_entries(entries: Vec<Entry>) -> (sorted: Vec<Entry>)
    ensures
        sorted@ == nearest_first(entries@),
{
    let mut heap = MaxHeap::new();
    let mut i: usize = 0;
    proof {
        broadcast use vstd::seq_lib::group_to_multiset_ensures;
        broadcast use vstd::multiset::group_multiset_axioms;

        assert(entries@.take(0).to_multiset() =~= Multiset::<Entry>::empty());
    }
    while i < entries.len()
        invariant
            i <= entries.len(),
            heap@ == entries@.take(i as int).to_multiset(),
        decreases entries.len() - i,
    {
        proof {
            broadcast use vstd::seq_lib::group_to_multiset_ensures;

            assert(entries@.take(i + 1) =~= entries@.take(i as int).push(entries@[i as int]));
        }
        heap.push(entries[i]);
        i = i + 1;
    }
    let sorted = heap.into_sorted_vec();
    proof {
        assert(entries@.take(i as int) =~= entries@);
        lemma_ascending_is_sorted(sorted@, entries@);
    }
    sorted
}

} // verus!
