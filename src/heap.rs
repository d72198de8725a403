//! The min-max heap container.
use vstd::prelude::*;
use vstd::multiset::Multiset;
use crate::key::Key;
use crate::navigation::{lemma_levels_up, lemma_top_levels, parent_of};
use crate::order::{
    dominates, is_below, is_greatest, is_least, is_minmax_heap, lemma_heap_greatest,
    lemma_heap_least, lemma_root_least, node_ok,
};
use crate::sift::{bubble_up, node_ok_except, trickle_down, trickle_inv};

verus! {

broadcast use vstd::seq_lib::group_to_multiset_ensures;

/// A double-ended priority queue: an array read as a complete binary tree
/// whose even depths bound their subtrees from below and whose odd depths
/// bound them from above.
#[derive(Debug)]
pub struct MinMaxHeap<T> {
    data: Vec<T>,
}

impl<T: Key> View for MinMaxHeap<T> {
    type V = Multiset<T>;

    /// The elements held, with their multiplicities.
    closed spec fn view(&self) -> Multiset<T> {
        self.data@.to_multiset()
    }
}

proof fn lemma_swap_remove_multiset<T>(s: Seq<T>, i: int)
    requires
        0 <= i < s.len(),
    ensures
        s.update(i, s.last()).drop_last().to_multiset() == s.to_multiset().remove(s[i]),
{
    broadcast use vstd::seq_lib::to_multiset_update;
    broadcast use vstd::multiset::group_multiset_properties;

    let t = s.update(i, s.last());
    assert(t.drop_last() =~= t.remove(t.len() - 1));
    assert(s.contains(s[i]));
    assert(t.contains(t[t.len() - 1]));
    assert(t.to_multiset() == s.to_multiset().insert(s.last()).remove(s[i]));
    assert(t.to_multiset().remove(s.last()) =~= s.to_multiset().remove(s[i]));
}

proof fn lemma_prefix_heap<T: Key>(s: Seq<T>, t: Seq<T>)
    requires
        is_minmax_heap(s),
        t.len() <= s.len(),
        forall|k: int| 0 <= k < t.len() ==> t[k] == s[k],
    ensures
        is_minmax_heap(t),
{
    assert forall|j: int| 0 <= j < t.len() implies #[trigger] node_ok(t, j) by {
        assert(node_ok(s, j));
        lemma_levels_up(j);
    }
}

proof fn lemma_trickle_start<T: Key>(s: Seq<T>, i: int)
    requires
        is_minmax_heap(s),
        0 <= i <= 2,
        i < s.len() - 1,
    ensures
        trickle_inv(s.update(i, s.last()).drop_last(), i),
{
    let t = s.update(i, s.last()).drop_last();
    lemma_top_levels();
    lemma_root_least(s, s.len() - 1);
    assert forall|j: int| 0 <= j < t.len() implies #[trigger] node_ok_except(t, j, i) by {
        assert(node_ok(s, j));
        lemma_levels_up(j);
    }
    assert forall|j: int| 0 <= j < t.len() && #[trigger] is_below(i, j) implies {
        &&& (i > 0 ==> dominates(t, parent_of(i), j))
        &&& (i > 2 ==> dominates(t, parent_of(parent_of(i)), j))
    } by {
        lemma_root_least(s, j);
    }
}

/// Slot of the element that `peek_max` shows: the root when it is alone,
/// else the greater of the root's children, the left one on a tie.
pub open spec fn max_slot<T: Key>(s: Seq<T>) -> int {
    if s.len() <= 1 {
        0
    } else if s.len() == 2 || !(s[1].key() < s[2].key()) {
        1
    } else {
        2
    }
}

impl<T: Key> MinMaxHeap<T> {
    /// The array satisfies the min-max heap property.
    pub closed spec fn wf(&self) -> bool {
        is_minmax_heap(self.data@)
    }

    /// The element at the root, which `peek_min` shows and `pop_min` removes.
    pub closed spec fn min_elem(&self) -> T {
        self.data@[0]
    }

    /// The element that `peek_max` shows and `pop_max` removes.
    pub closed spec fn max_elem(&self) -> T {
        self.data@[max_slot(self.data@)]
    }

    /// An empty heap.
    pub fn new() -> (r: Self)
        ensures
            r.wf(),
            r@ == Multiset::<T>::empty(),
    {
        let r = MinMaxHeap { data: Vec::new() };
        proof {
            assert(r.data@ =~= Seq::<T>::empty());
        }
        r
    }

    /// An empty heap with room for `len` elements before it grows.
    pub fn with_capacity(len: usize) -> (r: Self)
        ensures
            r.wf(),
            r@ == Multiset::<T>::empty(),
    {
        let r = MinMaxHeap { data: Vec::with_capacity(len) };
        proof {
            assert(r.data@ =~= Seq::<T>::empty());
        }
        r
    }

    /// A heap holding the elements of `v`, inserted one after another in
    /// order.
    pub fn from(v: &Vec<T>) -> (r: Self)
        ensures
            r.wf(),
            r@ == v@.to_multiset(),
            r@.len() == v@.len(),
    {
        let mut heap = MinMaxHeap::new();
        let mut i: usize = 0;
        while i < v.len()
            invariant
                i <= v.len(),
                heap.wf(),
                heap@ == v@.subrange(0, i as int).to_multiset(),
            decreases v.len() - i,
        {
            proof {
                assert(v@.subrange(0, i + 1) =~= v@.subrange(0, i as int).push(v@[i as int]));
            }
            heap.push(v[i]);
            i = i + 1;
        }
        proof {
            assert(v@.subrange(0, v@.len() as int) =~= v@);
        }
        heap
    }

    /// Whether the heap holds no element.
    pub fn is_empty(&self) -> (r: bool)
        ensures
            r == (self@.len() == 0),
    {
        self.data.is_empty()
    }

    /// Number of elements in the heap.
    pub fn len(&self) -> (r: usize)
        ensures
            r == self@.len(),
    {
        self.data.len()
    }

    /// Whether the heap holds no element; the same as `is_empty`.
    pub fn empty(&self) -> (r: bool)
        ensures
            r == (self@.len() == 0),
    {
        self.is_empty()
    }

    /// Number of elements in the heap; the same as `len`.
    pub fn size(&self) -> (r: usize)
        ensures
            r == self@.len(),
    {
        self.len()
    }

    /// Inserts `value`.
    pub fn push(&mut self, value: T)
        requires
            old(self).wf(),
        ensures
            final(self).wf(),
            final(self)@ == old(self)@.insert(value),
            final(self)@.len() == old(self)@.len() + 1,
    {
        let ghost s = self.data@;
        self.data.push(value);
        let index = self.data.len() - 1;
        assert forall|j: int| 0 <= j < index implies #[trigger] node_ok(self.data@, j) by {
            assert(node_ok(s, j));
            lemma_levels_up(j);
        }
        bubble_up(&mut self.data, index);
    }

    /// A least element, or `None` when the heap is empty.
    pub fn peek_min(&self) -> (r: Option<T>)
        requires
            self.wf(),
        ensures
            r is None <==> self@.len() == 0,
            r is Some ==> is_least(r->Some_0, self@),
            self@.len() > 0 ==> r == Some(self.min_elem()),
    {
        if self.is_empty() {
            return None;
        }
        proof {
            lemma_heap_least(self.data@);
        }
        Some(self.data[0])
    }

    /// Position of a greatest element: the root when it is alone, else the
    /// greater of the root's children, the left one on a tie.
    fn max_index(&self) -> (m: usize)
        requires
            self.wf(),
            self@.len() > 0,
        ensures
            m < self@.len(),
            m <= 2,
            m == max_slot(self.data@),
            is_greatest(self.data@[m as int], self@),
    {
        let n = self.data.len();
        let m: usize = if n == 1 {
            0
        } else if n == 2 {
            1
        } else if self.data[1].less_than(&self.data[2]) {
            2
        } else {
            1
        };
        proof {
            lemma_heap_greatest(self.data@, m as int);
        }
        m
    }

    /// A greatest element, or `None` when the heap is empty.
    pub fn peek_max(&self) -> (r: Option<T>)
        requires
            self.wf(),
        ensures
            r is None <==> self@.len() == 0,
            r is Some ==> is_greatest(r->Some_0, self@),
            self@.len() > 0 ==> r == Some(self.max_elem()),
    {
        if self.is_empty() {
            return None;
        }
        let m = self.max_index();
        Some(self.data[m])
    }

    /// Removes and returns the element at `index`, one of the first three
    /// positions, and restores the heap property.
    fn delete_element(&mut self, index: usize) -> (removed: T)
        requires
            old(self).wf(),
            index < old(self)@.len(),
            index <= 2,
        ensures
            final(self).wf(),
            removed == old(self).data@[index as int],
            final(self)@ == old(self)@.remove(removed),
            index == old(self).data@.len() - 1 ==> final(self).data@ == old(self).data@.drop_last(),
    {
        let ghost s = self.data@;
        proof {
            lemma_swap_remove_multiset(s, index as int);
        }
        let removed = self.data.swap_remove(index);
        proof {
            if index == s.len() - 1 {
                assert(s.update(index as int, s.last()) =~= s);
            }
        }
        if index < self.data.len() {
            proof {
                lemma_trickle_start(s, index as int);
            }
            trickle_down(&mut self.data, index);
        } else {
            proof {
                lemma_prefix_heap(s, self.data@);
            }
        }
        removed
    }

    /// Removes and returns a least element, or returns `None` when the heap
    /// is empty.
    pub fn pop_min(&mut self) -> (r: Option<T>)
        requires
            old(self).wf(),
        ensures
            final(self).wf(),
            r is None <==> old(self)@.len() == 0,
            r is None ==> final(self)@ == old(self)@,
            r is Some ==> final(self)@.len() == old(self)@.len() - 1,
            old(self)@.len() > 0 ==> r == Some(old(self).min_elem()),
            r is Some ==> is_least(r->Some_0, old(self)@) && final(self)@ == old(self)@.remove(
                r->Some_0,
            ),
            r is Some ==> forall|y: T| #[trigger]
                final(self)@.count(y) > 0 ==> r->Some_0.key() <= y.key(),
    {
        if self.is_empty() {
            return None;
        }
        proof {
            lemma_heap_least(self.data@);
        }
        let min = self.delete_element(0);
        proof {
            broadcast use vstd::multiset::group_multiset_properties;

            assert forall|y: T| #[trigger] self@.count(y) > 0 implies min.key() <= y.key() by {
                assert(old(self)@.count(y) > 0);
            }
        }
        Some(min)
    }

    /// Removes and returns a greatest element, or returns `None` when the
    /// heap is empty.
    pub fn pop_max(&mut self) -> (r: Option<T>)
        requires
            old(self).wf(),
        ensures
            final(self).wf(),
            r is None <==> old(self)@.len() == 0,
            r is None ==> final(self)@ == old(self)@,
            r is Some ==> final(self)@.len() == old(self)@.len() - 1,
            old(self)@.len() > 0 ==> r == Some(old(self).max_elem()),
            r is Some ==> is_greatest(r->Some_0, old(self)@) && final(self)@
                == old(self)@.remove(r->Some_0),
            r is Some ==> forall|y: T| #[trigger]
                final(self)@.count(y) > 0 ==> y.key() <= r->Some_0.key(),
    {
        if self.is_empty() {
            return None;
        }
        let m = self.max_index();
        let max = self.delete_element(m);
        proof {
            broadcast use vstd::multiset::group_multiset_properties;

            assert forall|y: T| #[trigger] self@.count(y) > 0 implies y.key() <= max.key() by {
                assert(old(self)@.count(y) > 0);
            }
        }
        Some(max)
    }

    /// Removes every element.
    pub fn clear(&mut self)
        ensures
            final(self).wf(),
            final(self)@ == Multiset::<T>::empty(),
            final(self)@.len() == 0,
    {
        self.data.clear();
        proof {
            assert(self.data@ =~= Seq::<T>::empty());
        }
    }

    /// Removes every element; the same as `clear`.
    pub fn erase(&mut self)
        ensures
            final(self).wf(),
            final(self)@ == Multiset::<T>::empty(),
            final(self)@.len() == 0,
    {
        self.clear();
    }
}

} // verus!
