//! Properties of a heap's observable behaviour across several calls.
use vstd::prelude::*;
use vstd::multiset::Multiset;
use crate::key::Key;
use crate::order::{is_greatest, is_least};
use crate::heap::MinMaxHeap;

verus! {

broadcast use vstd::seq_lib::group_to_multiset_ensures;

/// `out` is what successive calls of `pop_min` return, in order, starting
/// from a heap holding `m`: each value is a least element of what is left.
pub open spec fn drains_least_first<T: Key>(m: Multiset<T>, out: Seq<T>) -> bool
    decreases out.len(),
{
    out.len() == 0 || (is_least(out[0], m) && drains_least_first(m.remove(out[0]), out.drop_first()))
}

/// `out` is what successive calls of `pop_max` return, in order, starting
/// from a heap holding `m`: each value is a greatest element of what is left.
pub open spec fn drains_greatest_first<T: Key>(m: Multiset<T>, out: Seq<T>) -> bool
    decreases out.len(),
{
    out.len() == 0 || (is_greatest(out[0], m) && drains_greatest_first(
        m.remove(out[0]),
        out.drop_first(),
    ))
}

/// The least element of a heap built from a sequence is an element of the
/// sequence, and no element of the sequence is less.
pub proof fn lemma_least_of_sequence<T: Key>(v: Seq<T>, x: T)
    requires
        is_least(x, v.to_multiset()),
    ensures
        v.contains(x),
        forall|i: int| 0 <= i < v.len() ==> x.key() <= #[trigger] v[i].key(),
{
    assert forall|i: int| 0 <= i < v.len() implies x.key() <= #[trigger] v[i].key() by {
        assert(v.contains(v[i]));
        assert(v.to_multiset().count(v[i]) > 0);
    }
}

/// The greatest element of a heap built from a sequence is an element of the
/// sequence, and no element of the sequence is greater.
pub proof fn lemma_greatest_of_sequence<T: Key>(v: Seq<T>, x: T)
    requires
        is_greatest(x, v.to_multiset()),
    ensures
        v.contains(x),
        forall|i: int| 0 <= i < v.len() ==> #[trigger] v[i].key() <= x.key(),
{
    assert forall|i: int| 0 <= i < v.len() implies #[trigger] v[i].key() <= x.key() by {
        assert(v.contains(v[i]));
        assert(v.to_multiset().count(v[i]) > 0);
    }
}

proof fn lemma_remove_cancel<T>(a: Multiset<T>, b: Multiset<T>, x: T)
    requires
        a.count(x) > 0,
        b.count(x) > 0,
        a.remove(x).subset_of(b.remove(x)),
    ensures
        a.subset_of(b),
        a.remove(x) == b.remove(x) ==> a == b,
{
    broadcast use vstd::multiset::group_multiset_axioms;

    assert forall|y: T| a.count(y) <= b.count(y) by {
        assert(a.remove(x).count(y) <= b.remove(x).count(y));
    }
    if a.remove(x) == b.remove(x) {
        assert forall|y: T| a.count(y) == b.count(y) by {
            assert(a.remove(x).count(y) == b.remove(x).count(y));
        }
        assert(a =~= b);
    }
}

/// Popping least elements yields them in non-decreasing order, each taken
/// from the heap, and popping until empty yields exactly the heap's elements.
pub proof fn lemma_pop_min_sorted<T: Key>(m: Multiset<T>, out: Seq<T>)
    requires
        drains_least_first(m, out),
    ensures
        forall|a: int, b: int| 0 <= a <= b < out.len() ==> out[a].key() <= out[b].key(),
        forall|k: int| 0 <= k < out.len() ==> m.count(#[trigger] out[k]) > 0,
        out.to_multiset().subset_of(m),
        out.len() == m.len() ==> out.to_multiset() == m,
    decreases out.len(),
{
    broadcast use vstd::multiset::group_multiset_properties;

    if out.len() > 0 {
        let rest = m.remove(out[0]);
        lemma_pop_min_sorted(rest, out.drop_first());
        assert(out.drop_first().to_multiset() == out.to_multiset().remove(out[0])) by {
            assert(out.drop_first() =~= out.remove(0));
        }
        assert forall|k: int| 0 <= k < out.len() implies m.count(#[trigger] out[k]) > 0 by {
            if k > 0 {
                assert(out[k] == out.drop_first()[k - 1]);
            }
        }
        assert forall|a: int, b: int| 0 <= a <= b < out.len() implies out[a].key()
            <= out[b].key() by {
            if a > 0 {
                assert(out[a] == out.drop_first()[a - 1]);
                assert(out[b] == out.drop_first()[b - 1]);
            } else {
                assert(m.count(out[b]) > 0);
            }
        }
        assert(out.contains(out[0]));
        assert(out.to_multiset().count(out[0]) > 0);
        if out.len() == m.len() {
            assert(rest.len() == m.len() - 1);
        }
        lemma_remove_cancel(out.to_multiset(), m, out[0]);
    }
}

/// Popping greatest elements yields them in non-increasing order, each taken
/// from the heap, and popping until empty yields exactly the heap's elements.
pub proof fn lemma_pop_max_sorted<T: Key>(m: Multiset<T>, out: Seq<T>)
    requires
        drains_greatest_first(m, out),
    ensures
        forall|a: int, b: int| 0 <= a <= b < out.len() ==> out[b].key() <= out[a].key(),
        forall|k: int| 0 <= k < out.len() ==> m.count(#[trigger] out[k]) > 0,
        out.to_multiset().subset_of(m),
        out.len() == m.len() ==> out.to_multiset() == m,
    decreases out.len(),
{
    broadcast use vstd::multiset::group_multiset_properties;

    if out.len() > 0 {
        let rest = m.remove(out[0]);
        lemma_pop_max_sorted(rest, out.drop_first());
        assert(out.drop_first().to_multiset() == out.to_multiset().remove(out[0])) by {
            assert(out.drop_first() =~= out.remove(0));
        }
        assert forall|k: int| 0 <= k < out.len() implies m.count(#[trigger] out[k]) > 0 by {
            if k > 0 {
                assert(out[k] == out.drop_first()[k - 1]);
            }
        }
        assert forall|a: int, b: int| 0 <= a <= b < out.len() implies out[b].key()
            <= out[a].key() by {
            if a > 0 {
                assert(out[a] == out.drop_first()[a - 1]);
                assert(out[b] == out.drop_first()[b - 1]);
            } else {
                assert(m.count(out[b]) > 0);
            }
        }
        assert(out.contains(out[0]));
        assert(out.to_multiset().count(out[0]) > 0);
        if out.len() == m.len() {
            assert(rest.len() == m.len() - 1);
        }
        lemma_remove_cancel(out.to_multiset(), m, out[0]);
    }
}


/// Calls `pop_min` until the heap is empty and returns the values in the
/// order they came: non-decreasing by key, and exactly the heap's elements.
pub fn drain_min<T: Key>(heap: &mut MinMaxHeap<T>) -> (out: Vec<T>)
    requires
        old(heap).wf(),
    ensures
        final(heap).wf(),
        final(heap)@.len() == 0,
        out@.to_multiset() == old(heap)@,
        forall|a: int, b: int| 0 <= a <= b < out@.len() ==> out@[a].key() <= out@[b].key(),
{
    let mut out: Vec<T> = Vec::new();
    loop
        invariant
            heap.wf(),
            out@.to_multiset().add(heap@) == old(heap)@,
            forall|a: int, b: int| 0 <= a <= b < out@.len() ==> out@[a].key() <= out@[b].key(),
            out@.len() > 0 ==> forall|y: T| #[trigger] heap@.count(y) > 0 ==> out@[out@.len() - 1].key() <= y.key(),
        ensures
            heap.wf(),
            heap@.len() == 0,
            out@.to_multiset().add(heap@) == old(heap)@,
            forall|a: int, b: int| 0 <= a <= b < out@.len() ==> out@[a].key() <= out@[b].key(),
        decreases heap@.len(),
    {
        let ghost before = heap@;
        let ghost prev = out@;
        match heap.pop_min() {
            None => break,
            Some(x) => {
                out.push(x);
                proof {
                    broadcast use vstd::multiset::group_multiset_properties;

                    assert(out@.to_multiset() == prev.to_multiset().insert(x));
                    assert(out@.to_multiset().add(heap@) =~= prev.to_multiset().add(before));
                    assert forall|a: int, b: int| 0 <= a <= b < out@.len() implies out@[a].key() <= out@[b].key() by {
                        if b == out@.len() - 1 && a < b {
                            assert(out@[a] == prev[a]);
                            assert(before.count(x) > 0);
                        }
                    }
                    assert forall|y: T| #[trigger] heap@.count(y) > 0 implies out@[out@.len() - 1].key() <= y.key() by {
                        assert(before.count(y) > 0);
                    }
                }
            },
        }
    }
    proof {
        broadcast use vstd::multiset::group_multiset_properties;

        assert(heap@ =~= Multiset::empty());
        assert(out@.to_multiset().add(heap@) =~= out@.to_multiset());
    }
    out
}

/// Calls `pop_max` until the heap is empty and returns the values in the
/// order they came: non-increasing by key, and exactly the heap's elements.
pub fn drain_max<T: Key>(heap: &mut MinMaxHeap<T>) -> (out: Vec<T>)
    requires
        old(heap).wf(),
    ensures
        final(heap).wf(),
        final(heap)@.len() == 0,
        out@.to_multiset() == old(heap)@,
        forall|a: int, b: int| 0 <= a <= b < out@.len() ==> out@[b].key() <= out@[a].key(),
{
    let mut out: Vec<T> = Vec::new();
    loop
        invariant
            heap.wf(),
            out@.to_multiset().add(heap@) == old(heap)@,
            forall|a: int, b: int| 0 <= a <= b < out@.len() ==> out@[b].key() <= out@[a].key(),
            out@.len() > 0 ==> forall|y: T| #[trigger] heap@.count(y) > 0 ==> y.key() <= out@[out@.len() - 1].key(),
        ensures
            heap.wf(),
            heap@.len() == 0,
            out@.to_multiset().add(heap@) == old(heap)@,
            forall|a: int, b: int| 0 <= a <= b < out@.len() ==> out@[b].key() <= out@[a].key(),
        decreases heap@.len(),
    {
        let ghost before = heap@;
        let ghost prev = out@;
        match heap.pop_max() {
            None => break,
            Some(x) => {
                out.push(x);
                proof {
                    broadcast use vstd::multiset::group_multiset_properties;

                    assert(out@.to_multiset() == prev.to_multiset().insert(x));
                    assert(out@.to_multiset().add(heap@) =~= prev.to_multiset().add(before));
                    assert forall|a: int, b: int| 0 <= a <= b < out@.len() implies out@[b].key() <= out@[a].key() by {
                        if b == out@.len() - 1 && a < b {
                            assert(out@[a] == prev[a]);
                            assert(before.count(x) > 0);
                        }
                    }
                    assert forall|y: T| #[trigger] heap@.count(y) > 0 implies y.key() <= out@[out@.len() - 1].key() by {
                        assert(before.count(y) > 0);
                    }
                }
            },
        }
    }
    proof {
        broadcast use vstd::multiset::group_multiset_properties;

        assert(heap@ =~= Multiset::empty());
        assert(out@.to_multiset().add(heap@) =~= out@.to_multiset());
    }
    out
}

} // verus!
