use crate::record::{entry_le, lemma_entry_le_transitive, lemma_entry_order_total, Entry, Item};
use vstd::multiset::{lemma_multiset_empty_len, Multiset};
use vstd::prelude::*;
use vstd::seq_lib::{to_multiset_build, to_multiset_contains, to_multiset_len, to_multiset_remove,
    to_multiset_update};

verus! {

/// `x` is in `m`, and nothing in `m` comes before it.
pub open spec fn is_least(x: Entry, m: Multiset<Entry>) -> bool {
    m.count(x) > 0 && forall|y: Entry| m.count(y) > 0 ==> entry_le(x, y)
}

/// The queued records that a sequence of items stands for, in the same order.
pub open spec fn entries(s: Seq<Item>) -> Seq<Entry> {
    s.map_values(|item: Item| item@)
}

/// The slot above slot `i` in the implicit binary tree.
pub open spec fn parent(i: int) -> int {
    (i - 1) / 2
}

/// Every slot but the root holds an item that is not below its parent's.
pub open spec fn heap_ordered(s: Seq<Entry>) -> bool {
    forall|i: int| #![trigger s[i]] 0 < i < s.len() ==> entry_le(s[parent(i)], s[i])
}

/// In an ordered heap nothing comes before the root.
proof fn lemma_root_is_least(s: Seq<Entry>, i: int)
    requires
        heap_ordered(s),
        0 <= i < s.len(),
    ensures
        entry_le(s[0], s[i]),
    decreases i,
{
    if i == 0 {
        lemma_entry_order_total(s[0], s[0]);
    } else {
        lemma_root_is_least(s, parent(i));
        assert(entry_le(s[parent(i)], s[i]));
        lemma_entry_le_transitive(s[0], s[parent(i)], s[i]);
    }
}

proof fn lemma_root_is_least_of_all(s: Seq<Entry>)
    requires
        heap_ordered(s),
        s.len() > 0,
    ensures
        is_least(s[0], s.to_multiset()),
{
    to_multiset_contains(s, s[0]);
    assert(s.contains(s[0]));
    assert forall|y: Entry| s.to_multiset().count(y) > 0 implies entry_le(s[0], y) by {
        to_multiset_contains(s, y);
        let i = choose|i: int| 0 <= i < s.len() && s[i] == y;
        lemma_root_is_least(s, i);
    }
}

/// Exchanging two slots keeps what the sequence holds.
proof fn lemma_exchange_keeps_contents(s: Seq<Entry>, i: int, j: int)
    requires
        0 <= i < s.len(),
        0 <= j < s.len(),
    ensures
        s.update(i, s[j]).update(j, s[i]).to_multiset() == s.to_multiset(),
{
    let t = s.update(i, s[j]);
    to_multiset_update(s, i, s[j]);
    to_multiset_update(t, j, s[i]);
    to_multiset_contains(s, s[i]);
    to_multiset_contains(s, s[j]);
    assert(s.contains(s[i]));
    assert(s.contains(s[j]));
    assert(t.update(j, s[i]).to_multiset() =~= s.to_multiset());
}

fn copy_item(item: &Item) -> (r: Item)
    ensures
        r == *item,
{
    Item { rec: item.rec.duplicate(), g: item.g, seq: item.seq }
}

fn exchange(v: &mut Vec<Item>, i: usize, j: usize)
    requires
        i < old(v).len(),
        j < old(v).len(),
    ensures
        entries(final(v)@) == entries(old(v)@).update(i as int, old(v)@[j as int]@).update(
            j as int,
            old(v)@[i as int]@,
        ),
        entries(final(v)@).to_multiset() == entries(old(v)@).to_multiset(),
        final(v)@.len() == old(v)@.len(),
{
    proof {
        lemma_exchange_keeps_contents(entries(v@), i as int, j as int);
    }
    let mut held = copy_item(&v[j]);
    v.set_and_swap(i, &mut held);
    v.set(j, held);
    assert(entries(v@) =~= entries(old(v)@).update(i as int, old(v)@[j as int]@).update(
        j as int,
        old(v)@[i as int]@,
    ));
}

/// The heap order holds at every slot but `k`, and the children of `k` are
/// not below the parent of `k`: the item in slot `k` may still have to rise.
spec fn ordered_but_above(s: Seq<Entry>, k: int) -> bool {
    &&& forall|i: int|
        #![trigger s[i]]
        0 < i < s.len() && i != k ==> entry_le(s[parent(i)], s[i])
    &&& forall|i: int|
        #![trigger s[i]]
        0 < i < s.len() && parent(i) == k && k > 0 ==> entry_le(s[parent(k)], s[i])
}

/// The heap order holds at every slot but the children of `k`, and these are
/// not below the parent of `k`: the item in slot `k` may still have to sink.
spec fn ordered_but_below(s: Seq<Entry>, k: int) -> bool {
    &&& forall|i: int|
        #![trigger s[i]]
        0 < i < s.len() && parent(i) != k ==> entry_le(s[parent(i)], s[i])
    &&& forall|i: int|
        #![trigger s[i]]
        0 < i < s.len() && parent(i) == k && k > 0 ==> entry_le(s[parent(k)], s[i])
}

/// Lets the item in the last slot rise until its parent is not above it.
fn sift_up(v: &mut Vec<Item>)
    requires
        old(v).len() > 0,
        heap_ordered(entries(old(v)@).drop_last()),
    ensures
        heap_ordered(entries(final(v)@)),
        entries(final(v)@).to_multiset() == entries(old(v)@).to_multiset(),
        final(v)@.len() == old(v)@.len(),
{
    let mut k: usize = v.len() - 1;
    proof {
        let s = entries(v@);
        assert forall|i: int| #![trigger s[i]] 0 < i < s.len() && i != k implies entry_le(
            s[parent(i)],
            s[i],
        ) by {
            assert(s.drop_last()[i] == s[i]);
            assert(s.drop_last()[parent(i)] == s[parent(i)]);
        }
    }
    while k > 0
        invariant
            k < v@.len(),
            v@.len() == old(v)@.len(),
            entries(v@).to_multiset() == entries(old(v)@).to_multiset(),
            ordered_but_above(entries(v@), k as int),
        ensures
            heap_ordered(entries(v@)),
            v@.len() == old(v)@.len(),
            entries(v@).to_multiset() == entries(old(v)@).to_multiset(),
        decreases k,
    {
        let p: usize = (k - 1) / 2;
        let ghost before = entries(v@);
        if !v[k].precedes(&v[p]) {
            assert(entry_le(before[parent(k as int)], before[k as int]));
            break ;
        }
        exchange(v, k, p);
        proof {
            let s = entries(v@);
            lemma_entry_order_total(before[k as int], before[p as int]);
            assert forall|i: int| #![trigger s[i]] 0 < i < s.len() && i != p implies entry_le(
                s[parent(i)],
                s[i],
            ) by {
                if i == k {
                } else if parent(i) == k {
                    assert(entry_le(before[parent(k as int)], before[i]));
                } else if parent(i) == p {
                    assert(entry_le(before[p as int], before[i]));
                    lemma_entry_le_transitive(before[k as int], before[p as int], before[i]);
                } else {
                    assert(entry_le(before[parent(i)], before[i]));
                }
            }
            assert forall|i: int|
                #![trigger s[i]]
                0 < i < s.len() && parent(i) == p && p > 0 implies entry_le(
                s[parent(p as int)],
                s[i],
            ) by {
                assert(entry_le(before[parent(p as int)], before[p as int]));
                if i != k {
                    assert(entry_le(before[p as int], before[i]));
                    lemma_entry_le_transitive(
                        before[parent(p as int)],
                        before[p as int],
                        before[i],
                    );
                }
            }
        }
        k = p;
    }
}

/// Lets the item in the root sink until neither child is below it.
fn sift_down(v: &mut Vec<Item>)
    requires
        ordered_but_below(entries(old(v)@), 0),
    ensures
        heap_ordered(entries(final(v)@)),
        entries(final(v)@).to_multiset() == entries(old(v)@).to_multiset(),
        final(v)@.len() == old(v)@.len(),
{
    let n: usize = v.len();
    let mut k: usize = 0;
    while n >= 2 && k <= (n - 2) / 2
        invariant
            n == v@.len(),
            k < n || n == 0,
            v@.len() == old(v)@.len(),
            entries(v@).to_multiset() == entries(old(v)@).to_multiset(),
            ordered_but_below(entries(v@), k as int),
        ensures
            heap_ordered(entries(v@)),
            v@.len() == old(v)@.len(),
            entries(v@).to_multiset() == entries(old(v)@).to_multiset(),
        decreases n - k,
    {
        let left: usize = 2 * k + 1;
        let right: usize = left + 1;
        let c: usize = if right < n && v[right].precedes(&v[left]) {
            right
        } else {
            left
        };
        let ghost before = entries(v@);
        proof {
            lemma_entry_order_total(before[left as int], before[right as int]);
            lemma_entry_order_total(before[c as int], before[c as int]);
            assert(forall|i: int|
                #![trigger before[i]]
                0 < i < before.len() && parent(i) == k ==> i == left || i == right);
        }
        if !v[c].precedes(&v[k]) {
            assert forall|i: int| #![trigger before[i]] 0 < i < before.len() implies entry_le(
                before[parent(i)],
                before[i],
            ) by {
                if parent(i) == k && i != c {
                    lemma_entry_le_transitive(before[k as int], before[c as int], before[i]);
                }
            }
            break ;
        }
        exchange(v, k, c);
        proof {
            let s = entries(v@);
            lemma_entry_order_total(before[c as int], before[k as int]);
            assert forall|i: int|
                #![trigger s[i]]
                0 < i < s.len() && parent(i) != c implies entry_le(s[parent(i)], s[i]) by {
                if i == c {
                } else if parent(i) == k {
                } else if i == k {
                    assert(entry_le(before[parent(k as int)], before[c as int]));
                } else {
                    assert(entry_le(before[parent(i)], before[i]));
                }
            }
            assert forall|i: int|
                #![trigger s[i]]
                0 < i < s.len() && parent(i) == c && c > 0 implies entry_le(
                s[parent(c as int)],
                s[i],
            ) by {
                assert(entry_le(before[parent(i)], before[i]));
            }
        }
        k = c;
    }
    proof {
        let s = entries(v@);
        if !(n >= 2 && k <= (n - 2) / 2) {
            assert forall|i: int| #![trigger s[i]] 0 < i < s.len() implies entry_le(
                s[parent(i)],
                s[i],
            ) by {
                assert(parent(i) != k);
            }
        }
    }
}

/// A priority queue of items that hands out the least item first, in the
/// order of `entry_lt`. Its view is the multiset of the queued records that
/// its items stand for.
pub struct MinHeap {
    slots: Vec<Item>,
}

impl View for MinHeap {
    type V = Multiset<Entry>;

    closed spec fn view(&self) -> Multiset<Entry> {
        entries(self.slots@).to_multiset()
    }
}

impl MinHeap {
    /// The slots are in heap order. Every queue made by `new` and changed only
    /// by `push` and `pop` is well formed.
    pub closed spec fn wf(&self) -> bool {
        heap_ordered(entries(self.slots@))
    }

    pub fn new() -> (heap: Self)
        ensures
            heap.wf(),
            heap@ == Multiset::<Entry>::empty(),
    {
        let heap = MinHeap { slots: Vec::new() };
        proof {
            to_multiset_len(entries(heap.slots@));
            lemma_multiset_empty_len(entries(heap.slots@).to_multiset());
        }
        heap
    }

    pub fn len(&self) -> (n: usize)
        ensures
            n == self@.len(),
    {
        proof {
            to_multiset_len(entries(self.slots@));
        }
        self.slots.len()
    }

    pub fn is_empty(&self) -> (b: bool)
        ensures
            b == (self@.len() == 0),
    {
        proof {
            to_multiset_len(entries(self.slots@));
        }
        self.slots.len() == 0
    }

    /// The least item, left in the queue.
    pub fn peek(&self) -> (r: Option<&Item>)
        requires
            self.wf(),
        ensures
            r is None <==> self@.len() == 0,
            r matches Some(x) ==> is_least(x@, self@),
    {
        proof {
            to_multiset_len(entries(self.slots@));
        }
        if self.slots.len() == 0 {
            None
        } else {
            proof {
                lemma_root_is_least_of_all(entries(self.slots@));
            }
            Some(&self.slots[0])
        }
    }

    /// Puts `item` into the queue.
    pub fn push(&mut self, item: Item)
        requires
            old(self).wf(),
        ensures
            final(self).wf(),
            final(self)@ == old(self)@.insert(item@),
    {
        proof {
            to_multiset_build(entries(self.slots@), item@);
        }
        let ghost before = entries(self.slots@);
        self.slots.push(item);
        assert(entries(self.slots@) =~= before.push(item@));
        assert(entries(self.slots@).drop_last() =~= before);
        sift_up(&mut self.slots);
    }

    /// Takes the least item out.
    pub fn pop(&mut self) -> (r: Option<Item>)
        requires
            old(self).wf(),
        ensures
            final(self).wf(),
            r is None <==> old(self)@.len() == 0,
            r is None ==> final(self)@ == old(self)@,
            r matches Some(x) ==> is_least(x@, old(self)@) && final(self)@ == old(self)@.remove(
                x@,
            ),
    {
        proof {
            to_multiset_len(entries(self.slots@));
        }
        let ghost before = entries(self.slots@);
        let n: usize = self.slots.len();
        if n == 0 {
            return None;
        }
        proof {
            lemma_root_is_least_of_all(before);
        }
        exchange(&mut self.slots, 0, n - 1);
        let ghost held = self.slots@;
        let ghost swapped = entries(held);
        let least = self.slots.pop().unwrap();
        proof {
            assert(least == held[n - 1]);
            assert(swapped[n - 1] == least@);
            assert(least@ == before[0]);
            assert(entries(self.slots@) =~= swapped.remove(n - 1));
            to_multiset_remove(swapped, n - 1);
            let s = entries(self.slots@);
            assert forall|i: int|
                #![trigger s[i]]
                0 < i < s.len() && parent(i) != 0 implies entry_le(s[parent(i)], s[i]) by {
                assert(entry_le(before[parent(i)], before[i]));
            }
        }
        sift_down(&mut self.slots);
        Some(least)
    }
}

} // verus!
