//! A binary min-heap of `(distance, node)` entries.
//!
//! The queue hands out its entries smallest first, by distance and then by
//! node index. Its model is the multiset of the entries it holds.

use vstd::prelude::*;
use vstd::multiset::Multiset;
use vstd::seq_lib::{to_multiset_build, to_multiset_update};

verus! {

/// An entry of the queue: a tentative distance and the node it belongs to.
pub type Entry = (u32, u16);

/// The order of the queue: by distance, then by node index.
pub open spec fn entry_le(a: Entry, b: Entry) -> bool {
    a.0 < b.0 || (a.0 == b.0 && a.1 <= b.1)
}

/// `e` is in `m`, and nothing in `m` is smaller.
pub open spec fn is_least(m: Multiset<Entry>, e: Entry) -> bool {
    &&& m.count(e) > 0
    &&& forall|x: Entry| #[trigger] m.count(x) > 0 ==> entry_le(e, x)
}

/// The position of the parent of the entry at position `k`.
pub open spec fn parent(k: int) -> int {
    (k - 1) / 2
}

/// Every entry but the root is no smaller than its parent, except that the
/// entry at `hole` is not compared with its parent.
pub open spec fn ordered_above(items: Seq<Entry>, hole: int) -> bool {
    forall|k: int| 0 < k < items.len() && k != hole ==> entry_le(items[parent(k)], #[trigger] items[k])
}

/// Every entry but the root is no smaller than its parent, except that the
/// children of the entry at `hole` are not compared with it.
pub open spec fn ordered_below(items: Seq<Entry>, hole: int) -> bool {
    forall|k: int|
        0 < k < items.len() && parent(k) != hole ==> entry_le(items[parent(k)], #[trigger] items[k])
}

/// The heap order.
pub open spec fn heap_ordered(items: Seq<Entry>) -> bool {
    ordered_above(items, 0)
}

/// The children of `hole` are no smaller than the parent of `hole`.
pub open spec fn bridged(items: Seq<Entry>, hole: int) -> bool {
    hole > 0 ==> forall|k: int|
        0 < k < items.len() && parent(k) == hole ==> entry_le(
            items[parent(hole)],
            #[trigger] items[k],
        )
}

fn le(a: Entry, b: Entry) -> (r: bool)
    ensures
        r == entry_le(a, b),
{
    a.0 < b.0 || (a.0 == b.0 && a.1 <= b.1)
}

/// In a heap the root is no larger than any entry.
proof fn lemma_root_is_least(items: Seq<Entry>, k: int)
    requires
        heap_ordered(items),
        0 <= k < items.len(),
    ensures
        entry_le(items[0], items[k]),
    decreases k,
{
    if k > 0 {
        lemma_root_is_least(items, parent(k));
        assert(entry_le(items[parent(k)], items[k]));
    }
}

proof fn lemma_swap_keeps_entries(items: Seq<Entry>, i: int, j: int)
    requires
        0 <= i < items.len(),
        0 <= j < items.len(),
    ensures
        items.update(i, items[j]).update(j, items[i]).to_multiset() == items.to_multiset(),
{
    let mid = items.update(i, items[j]);
    to_multiset_update(items, i, items[j]);
    to_multiset_update(mid, j, items[i]);
    if i == j {
        assert(mid == items);
        assert(mid.update(j, items[i]) == items);
    } else {
        broadcast use vstd::multiset::group_multiset_axioms;

        assert(mid[j] == items[j]);
        vstd::seq_lib::to_multiset_contains(items, items[i]);
        vstd::seq_lib::to_multiset_contains(items, items[j]);
        assert(items.contains(items[i]) && items.contains(items[j]));
        assert(items.to_multiset().insert(items[j]).remove(items[i]).insert(items[i]).remove(
            items[j],
        ) =~= items.to_multiset());
    }
}

/// Moves the last entry up until its parent is no larger.
fn sift_up(items: &mut Vec<Entry>)
    requires
        old(items)@.len() > 0,
        ordered_above(old(items)@, old(items)@.len() - 1),
    ensures
        heap_ordered(final(items)@),
        final(items)@.to_multiset() == old(items)@.to_multiset(),
{
    let mut i: usize = items.len() - 1;
    while i > 0
        invariant
            i < items@.len(),
            items@.len() == old(items)@.len(),
            ordered_above(items@, i as int),
            bridged(items@, i as int),
            items@.to_multiset() == old(items)@.to_multiset(),
        ensures
            heap_ordered(items@),
            items@.to_multiset() == old(items)@.to_multiset(),
        decreases i,
    {
        let p: usize = (i - 1) / 2;
        let child = items[i];
        let above = items[p];
        if le(above, child) {
            break;
        }
        proof {
            lemma_swap_keeps_entries(items@, p as int, i as int);
        }
        let ghost before = items@;
        items[p] = child;
        items[i] = above;
        proof {
            let now = items@;
            assert(now == before.update(p as int, child).update(i as int, above));
            assert(entry_le(child, above));
            assert forall|k: int| 0 < k < now.len() && k != p implies entry_le(
                now[parent(k)],
                #[trigger] now[k],
            ) by {
                if k == i {
                } else if parent(k) == i {
                    assert(entry_le(before[parent(i as int)], before[k]));
                } else if parent(k) == p {
                    assert(entry_le(before[parent(k)], before[k]));
                } else {
                    assert(entry_le(before[parent(k)], before[k]));
                }
            }
            assert(bridged(now, p as int)) by {
                if p > 0 {
                    assert forall|k: int| 0 < k < now.len() && parent(k) == p implies entry_le(
                        now[parent(p as int)],
                        #[trigger] now[k],
                    ) by {
                        assert(entry_le(before[parent(p as int)], before[p as int]));
                        if k != i {
                            assert(entry_le(before[parent(k)], before[k]));
                        }
                    }
                }
            }
        }
        i = p;
    }
}

/// Moves the root down until neither child is smaller.
fn sift_down(items: &mut Vec<Entry>)
    requires
        ordered_below(old(items)@, 0),
    ensures
        heap_ordered(final(items)@),
        final(items)@.to_multiset() == old(items)@.to_multiset(),
{
    let n: usize = items.len();
    let mut i: usize = 0;
    while i < n / 2
        invariant
            n == items@.len(),
            items@.len() == old(items)@.len(),
            ordered_below(items@, i as int),
            bridged(items@, i as int),
            items@.to_multiset() == old(items)@.to_multiset(),
        ensures
            heap_ordered(items@),
            items@.to_multiset() == old(items)@.to_multiset(),
        decreases n - i,
    {
        let left: usize = 2 * i + 1;
        let right: usize = left + 1;
        let mut m: usize = left;
        if right < n && !le(items[left], items[right]) {
            m = right;
        }
        let top = items[i];
        let least = items[m];
        if le(top, least) {
            proof {
                assert forall|k: int| 0 < k < items@.len() implies entry_le(
                    items@[parent(k)],
                    #[trigger] items@[k],
                ) by {
                    if parent(k) == i {
                        assert(k == left || k == right);
                    }
                }
            }
            break;
        }
        proof {
            lemma_swap_keeps_entries(items@, i as int, m as int);
        }
        let ghost before = items@;
        items[i] = least;
        items[m] = top;
        proof {
            let now = items@;
            assert(now == before.update(i as int, least).update(m as int, top));
            assert(parent(m as int) == i);
            assert forall|k: int| 0 < k < now.len() && parent(k) != m implies entry_le(
                now[parent(k)],
                #[trigger] now[k],
            ) by {
                if parent(k) == i {
                    assert(k == left || k == right);
                } else if k == i {
                    assert(entry_le(before[parent(i as int)], before[m as int]));
                } else {
                    assert(entry_le(before[parent(k)], before[k]));
                }
            }
            assert(bridged(now, m as int)) by {
                assert forall|k: int| 0 < k < now.len() && parent(k) == m implies entry_le(
                    now[parent(m as int)],
                    #[trigger] now[k],
                ) by {
                    assert(entry_le(before[parent(k)], before[k]));
                }
            }
        }
        i = m;
    }
    proof {
        if i >= n / 2 {
            assert forall|k: int| 0 < k < items@.len() implies entry_le(
                items@[parent(k)],
                #[trigger] items@[k],
            ) by {
                assert(parent(k) != i);
            }
        }
    }
}

/// A priority queue that returns its smallest entry first.
pub struct MinQueue {
    items: Vec<Entry>,
}

impl View for MinQueue {
    type V = Multiset<Entry>;

    closed spec fn view(&self) -> Multiset<Entry> {
        self.items@.to_multiset()
    }
}

impl MinQueue {
    #[verifier::type_invariant]
    spec fn inv(&self) -> bool {
        heap_ordered(self.items@)
    }

    /// The empty queue.
    pub fn new() -> (q: Self)
        ensures
            q@ == Multiset::<Entry>::empty(),
    {
        let items: Vec<Entry> = Vec::new();
        assert(items@.to_multiset() =~= Multiset::<Entry>::empty()) by {
            broadcast use vstd::seq_lib::group_to_multiset_ensures;

            assert(items@.to_multiset().len() == 0);
        }
        MinQueue { items }
    }

    /// The number of entries held.
    pub fn len(&self) -> (n: usize)
        ensures
            n == self@.len(),
    {
        proof {
            vstd::seq_lib::to_multiset_len(self.items@);
        }
        self.items.len()
    }

    /// Whether the queue holds no entry.
    pub fn is_empty(&self) -> (b: bool)
        ensures
            b == (self@.len() == 0),
    {
        self.len() == 0
    }

    /// Adds one entry.
    pub fn push(&mut self, entry: Entry)
        ensures
            final(self)@ == old(self)@.insert(entry),
    {
        proof {
            use_type_invariant(&*self);
            to_multiset_build(self.items@, entry);
        }
        let mut items: Vec<Entry> = Vec::new();
        core::mem::swap(&mut items, &mut self.items);
        items.push(entry);
        sift_up(&mut items);
        self.items = items;
    }

    /// Removes and returns a smallest entry, or returns `None` when the queue is empty.
    pub fn pop(&mut self) -> (r: Option<Entry>)
        ensures
            match r {
                Some(e) => is_least(old(self)@, e) && final(self)@ == old(self)@.remove(e),
                None => old(self)@.len() == 0 && final(self)@ == old(self)@,
            },
    {
        proof {
            use_type_invariant(&*self);
            vstd::seq_lib::to_multiset_len(self.items@);
        }
        let ghost before = self.items@;
        if self.items.len() == 0 {
            return None;
        }
        let mut items: Vec<Entry> = Vec::new();
        core::mem::swap(&mut items, &mut self.items);
        let last = items.pop().unwrap();
        proof {
            assert(before == items@.push(last));
            to_multiset_build(items@, last);
            assert forall|x: Entry| before.to_multiset().count(x) > 0 implies entry_le(
                before[0],
                x,
            ) by {
                vstd::seq_lib::to_multiset_contains(before, x);
                let k = choose|k: int| 0 <= k < before.len() && before[k] == x;
                lemma_root_is_least(before, k);
            }
            vstd::seq_lib::to_multiset_contains(before, before[0]);
            assert(before.contains(before[0]));
        }
        if items.len() == 0 {
            proof {
                assert(items@.to_multiset() =~= before.to_multiset().remove(last));
            }
            self.items = items;
            return Some(last);
        }
        let top = items[0];
        let ghost shorter = items@;
        items[0] = last;
        proof {
            to_multiset_update(shorter, 0, last);
            assert(items@.to_multiset() =~= before.to_multiset().remove(top));
            assert forall|k: int| 0 < k < items@.len() && parent(k) != 0 implies entry_le(
                items@[parent(k)],
                #[trigger] items@[k],
            ) by {
                assert(entry_le(before[parent(k)], before[k]));
            }
        }
        sift_down(&mut items);
        self.items = items;
        Some(top)
    }
}

} // verus!
