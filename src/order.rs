//! The min-max heap property of an array, and what follows from it.
use vstd::prelude::*;
use vstd::multiset::Multiset;
use crate::key::Key;
use crate::navigation::{lemma_parent_level, lemma_top_levels, min_level, parent_of};

verus! {

/// The node at `a`, an ancestor of `b`, bounds `b` as its level requires:
/// from below on a min level, from above on a max level.
pub open spec fn dominates<T: Key>(s: Seq<T>, a: int, b: int) -> bool {
    if min_level(a) {
        s[a].key() <= s[b].key()
    } else {
        s[a].key() >= s[b].key()
    }
}

/// `j` is a child or a grandchild of `i`.
pub open spec fn is_below(i: int, j: int) -> bool {
    j > 0 && (parent_of(j) == i || (j > 2 && parent_of(parent_of(j)) == i))
}

/// The node at `j` is bounded by its parent and by its grandparent.
pub open spec fn node_ok<T: Key>(s: Seq<T>, j: int) -> bool {
    &&& (j > 0 ==> dominates(s, parent_of(j), j))
    &&& (j > 2 ==> dominates(s, parent_of(parent_of(j)), j))
}

/// Every node is bounded by its parent and grandparent. By transitivity
/// this makes every node on a min level a lower bound of its subtree and
/// every node on a max level an upper bound of its subtree.
pub open spec fn is_minmax_heap<T: Key>(s: Seq<T>) -> bool {
    forall|j: int| 0 <= j < s.len() ==> #[trigger] node_ok(s, j)
}

/// `x` is in `m` and no element of `m` has a smaller key.
pub open spec fn is_least<T: Key>(x: T, m: Multiset<T>) -> bool {
    &&& m.count(x) > 0
    &&& forall|y: T| #[trigger] m.count(y) > 0 ==> x.key() <= y.key()
}

/// `x` is in `m` and no element of `m` has a greater key.
pub open spec fn is_greatest<T: Key>(x: T, m: Multiset<T>) -> bool {
    &&& m.count(x) > 0
    &&& forall|y: T| #[trigger] m.count(y) > 0 ==> y.key() <= x.key()
}

/// The children of `i` are `2i+1` and `2i+2`; its grandchildren `4i+3` to `4i+6`.
pub proof fn lemma_below_range(i: int, j: int)
    requires
        i >= 0,
    ensures
        (j > 0 && parent_of(j) == i) <==> (j == 2 * i + 1 || j == 2 * i + 2),
        is_below(i, j) <==> (2 * i + 1 <= j <= 2 * i + 2 || 4 * i + 3 <= j <= 4 * i + 6),
{
}

/// The root holds a least key.
pub proof fn lemma_root_least<T: Key>(s: Seq<T>, k: int)
    requires
        is_minmax_heap(s),
        0 <= k < s.len(),
    ensures
        s[0].key() <= s[k].key(),
    decreases k,
{
    if k > 0 {
        lemma_top_levels();
        lemma_parent_level(k);
        let p = parent_of(k);
        assert(node_ok(s, k));
        if min_level(k) {
            lemma_parent_level(p);
            lemma_root_least(s, parent_of(p));
        } else {
            lemma_root_least(s, p);
        }
    }
}

/// Every node below the root is bounded above by one of the root's children.
pub proof fn lemma_top_greatest<T: Key>(s: Seq<T>, k: int)
    requires
        is_minmax_heap(s),
        1 <= k < s.len(),
    ensures
        s[k].key() <= s[1].key() || (s.len() > 2 && s[k].key() <= s[2].key()),
    decreases k,
{
    if k > 2 {
        lemma_top_levels();
        lemma_parent_level(k);
        let p = parent_of(k);
        assert(node_ok(s, k));
        if min_level(k) {
            lemma_top_greatest(s, p);
        } else {
            lemma_parent_level(p);
            lemma_top_greatest(s, parent_of(p));
        }
    }
}

/// The least element of a heap's array is the one at the root.
pub proof fn lemma_heap_least<T: Key>(s: Seq<T>)
    requires
        is_minmax_heap(s),
        s.len() > 0,
    ensures
        is_least(s[0], s.to_multiset()),
{
    broadcast use vstd::seq_lib::group_to_multiset_ensures;

    assert(s.contains(s[0]));
    assert forall|y: T| #[trigger] s.to_multiset().count(y) > 0 implies s[0].key() <= y.key() by {
        assert(s.contains(y));
        let k = choose|k: int| 0 <= k < s.len() && s[k] == y;
        lemma_root_least(s, k);
    }
}

/// The greatest element of a heap's array is the root when it is alone,
/// else the greater of the root's children.
pub proof fn lemma_heap_greatest<T: Key>(s: Seq<T>, m: int)
    requires
        is_minmax_heap(s),
        0 <= m < s.len(),
        s.len() == 1 ==> m == 0,
        s.len() == 2 ==> m == 1,
        s.len() > 2 ==> (m == 1 || m == 2) && s[1].key() <= s[m].key() && s[2].key() <= s[m].key(),
    ensures
        is_greatest(s[m], s.to_multiset()),
{
    broadcast use vstd::seq_lib::group_to_multiset_ensures;

    assert(s.contains(s[m]));
    assert forall|y: T| #[trigger] s.to_multiset().count(y) > 0 implies y.key() <= s[m].key() by {
        assert(s.contains(y));
        let k = choose|k: int| 0 <= k < s.len() && s[k] == y;
        lemma_root_least(s, m);
        if k > 0 {
            lemma_top_greatest(s, k);
        }
    }
}

} // verus!
