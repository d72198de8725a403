//! The two restoring walks of a min-max heap: up from a new leaf after an
//! insertion, and down from a refilled slot after a removal.
use vstd::prelude::*;
use crate::key::Key;
use crate::navigation::{
    is_on_min_level, lemma_levels_up, lemma_parent_level, min_level, parent, parent_of,
};
use crate::order::{dominates, is_below, is_minmax_heap, lemma_below_range, node_ok};

verus! {

/// `s` with the values at `a` and `b` exchanged.
pub open spec fn swapped<T>(s: Seq<T>, a: int, b: int) -> Seq<T> {
    s.update(a, s[b]).update(b, s[a])
}

proof fn lemma_swap_multiset<T>(s: Seq<T>, a: int, b: int)
    requires
        0 <= a < s.len(),
        0 <= b < s.len(),
    ensures
        swapped(s, a, b).to_multiset() == s.to_multiset(),
{
    broadcast use vstd::seq_lib::to_multiset_update;
    broadcast use vstd::multiset::group_multiset_properties;

    let m = s.to_multiset();
    let s1 = s.update(a, s[b]);
    assert(s1[b] == s[b]);
    assert(s.contains(s[a]));
    vstd::seq_lib::to_multiset_contains(s, s[a]);
    let m1 = m.insert(s[b]).remove(s[a]);
    assert(s1.to_multiset() == m1);
    assert(swapped(s, a, b).to_multiset() == m1.insert(s[a]).remove(s[b]));
    assert(m1.insert(s[a]).remove(s[b]) =~= m);
}

/// Exchanges the values at positions `a` and `b`.
fn swap_at<T: Key>(v: &mut Vec<T>, a: usize, b: usize)
    requires
        a < old(v).len(),
        b < old(v).len(),
    ensures
        final(v)@ == swapped(old(v)@, a as int, b as int),
        final(v)@.to_multiset() == old(v)@.to_multiset(),
{
    let x = v[a];
    let y = v[b];
    v.set(a, y);
    v.set(b, x);
    proof {
        lemma_swap_multiset(old(v)@, a as int, b as int);
    }
}

/// While walking up: every node is in place but the one at `i`, which may
/// still break the bound of its grandparent; and that grandparent already
/// bounds the children and grandchildren of `i`.
pub open spec fn bubble_inv<T: Key>(s: Seq<T>, i: int) -> bool {
    &&& 0 <= i < s.len()
    &&& forall|j: int| 0 <= j < s.len() && j != i ==> #[trigger] node_ok(s, j)
    &&& (i > 0 ==> dominates(s, parent_of(i), i))
    &&& (i > 2 ==> forall|j: int|
        0 <= j < s.len() && #[trigger] is_below(i, j) ==> dominates(
            s,
            parent_of(parent_of(i)),
            j,
        ))
}

proof fn lemma_bubble_start<T: Key>(s: Seq<T>, n: int, t: Seq<T>, i: int)
    requires
        n > 0,
        s.len() == n + 1,
        forall|j: int| 0 <= j < n ==> #[trigger] node_ok(s, j),
        (dominates(s, parent_of(n), n) && t == s && i == n) || (!dominates(s, parent_of(n), n)
            && t == swapped(s, parent_of(n), n) && i == parent_of(n)),
    ensures
        bubble_inv(t, i),
{
    let p = parent_of(n);
    lemma_parent_level(n);
    assert(node_ok(s, p));
    if p > 0 {
        lemma_parent_level(p);
    }
    if p > 2 {
        lemma_parent_level(parent_of(p));
    }
    assert forall|j: int| 0 <= j < t.len() && j != i implies #[trigger] node_ok(t, j) by {
        lemma_below_range(p, j);
        if j > 0 {
            lemma_parent_level(j);
            if parent_of(j) > 0 {
                lemma_parent_level(parent_of(j));
            }
        }
        if j < n {
            assert(node_ok(s, j));
        }
    }
    if i > 2 {
        assert forall|j: int| 0 <= j < t.len() && #[trigger] is_below(i, j) implies dominates(
            t,
            parent_of(parent_of(i)),
            j,
        ) by {
            lemma_below_range(i, j);
            lemma_parent_level(j);
            if j < n {
                assert(node_ok(s, j));
            }
        }
    }
}

proof fn lemma_bubble_step<T: Key>(s: Seq<T>, i: int)
    requires
        bubble_inv(s, i),
        i > 2,
        !dominates(s, parent_of(parent_of(i)), i),
    ensures
        bubble_inv(swapped(s, parent_of(parent_of(i)), i), parent_of(parent_of(i))),
{
    let p = parent_of(i);
    let g = parent_of(p);
    let t = swapped(s, g, i);
    lemma_parent_level(i);
    lemma_parent_level(p);
    assert(node_ok(s, p));
    assert(node_ok(s, g));
    if g > 0 {
        lemma_parent_level(g);
    }
    if g > 2 {
        lemma_parent_level(parent_of(g));
    }
    assert forall|j: int| 0 <= j < t.len() && j != g implies #[trigger] node_ok(t, j) by {
        if j > 0 {
            lemma_parent_level(j);
            if parent_of(j) > 0 {
                lemma_parent_level(parent_of(j));
            }
        }
        if j != i {
            assert(node_ok(s, j));
        }
        if is_below(i, j) {
            assert(dominates(s, g, j));
        }
    }
    if g > 2 {
        assert forall|j: int| 0 <= j < t.len() && #[trigger] is_below(g, j) implies dominates(
            t,
            parent_of(parent_of(g)),
            j,
        ) by {
            lemma_parent_level(j);
            if parent_of(j) > 0 {
                lemma_parent_level(parent_of(j));
            }
            if j != i {
                assert(node_ok(s, j));
            }
            if parent_of(j) > 0 && parent_of(j) != i {
                assert(node_ok(s, parent_of(j)));
            }
        }
    }
}

/// `j` is `i` or is reached from `i` by moving to the grandparent, repeatedly.
pub open spec fn on_gchain(i: int, j: int) -> bool
    decreases i,
{
    if i < 0 {
        false
    } else if j == i {
        true
    } else if i > 2 {
        on_gchain(parent_of(parent_of(i)), j)
    } else {
        false
    }
}

proof fn lemma_gchain_step(s: int, i: int)
    requires
        on_gchain(s, i),
        i > 2,
    ensures
        on_gchain(s, parent_of(parent_of(i))),
    decreases s,
{
    lemma_levels_up(i);
    lemma_levels_up(s);
    let gi = parent_of(parent_of(i));
    assert(on_gchain(gi, gi));
    if s != i {
        let gs = parent_of(parent_of(s));
        assert(on_gchain(gs, i));
        lemma_gchain_step(gs, i);
        assert(on_gchain(gs, gi));
    }
}

/// The parent of a node's ancestor is an ancestor of that node too.
proof fn lemma_subtree_up(a: int, d: int)
    requires
        a > 0,
        in_subtree(a, d),
    ensures
        in_subtree(parent_of(a), d),
    decreases d,
{
    lemma_levels_up(a);
    lemma_levels_up(d);
    let pa = parent_of(a);
    assert(in_subtree(pa, pa));
    if d != a {
        assert(in_subtree(a, parent_of(d)));
        lemma_subtree_up(a, parent_of(d));
        assert(in_subtree(pa, parent_of(d)));
    }
}

proof fn lemma_gchain_ancestors(s: int, d: int, j: int)
    requires
        s >= 0,
        in_subtree(s, d),
        on_gchain(s, j),
    ensures
        in_subtree(j, d),
    decreases s,
{
    if j != s {
        lemma_levels_up(s);
        let g = parent_of(parent_of(s));
        lemma_subtree_up(s, d);
        lemma_subtree_up(parent_of(s), d);
        lemma_gchain_ancestors(g, d, j);
    }
}

/// Moves the value at `index` up along its grandparents while it breaks the
/// bound of the grandparent, whose level is of the same kind as its own.
/// Only slots on that grandparent chain change, and the chain is in order
/// afterwards.
fn bubble_up_grand<T: Key>(v: &mut Vec<T>, index: usize, seek_max: bool)
    requires
        bubble_inv(old(v)@, index as int),
        seek_max == !min_level(index as int),
    ensures
        is_minmax_heap(final(v)@),
        final(v)@.to_multiset() == old(v)@.to_multiset(),
        final(v)@.len() == old(v)@.len(),
        forall|j: int|
            0 <= j < old(v)@.len() && !#[trigger] on_gchain(index as int, j) ==> final(v)@[j]
                == old(v)@[j],
        forall|c: int|
            0 <= c < old(v)@.len() && c > 2 && #[trigger] on_gchain(index as int, c) ==> dominates(
                final(v)@,
                parent_of(parent_of(c)),
                c,
            ),
{
    let mut i = index;
    let ghost o = v@;
    while i > 2
        invariant
            bubble_inv(v@, i as int),
            v@.to_multiset() == old(v)@.to_multiset(),
            seek_max == !min_level(i as int),
            o == old(v)@,
            v@.len() == o.len(),
            on_gchain(index as int, i as int),
            forall|j: int| 0 <= j < o.len() && !#[trigger] on_gchain(index as int, j) ==> v@[j] == o[j],
        ensures
            bubble_inv(v@, i as int),
            v@.to_multiset() == old(v)@.to_multiset(),
            v@.len() == o.len(),
            forall|j: int| 0 <= j < o.len() && !#[trigger] on_gchain(index as int, j) ==> v@[j] == o[j],
            i > 2 ==> dominates(v@, parent_of(parent_of(i as int)), i as int),
        decreases i,
    {
        let g = parent(parent(i));
        proof {
            lemma_parent_level(i as int);
            lemma_parent_level(parent_of(i as int));
            lemma_gchain_step(index as int, i as int);
        }
        let violated = if seek_max {
            v[g].less_than(&v[i])
        } else {
            v[i].less_than(&v[g])
        };
        if !violated {
            break;
        }
        proof {
            lemma_bubble_step(v@, i as int);
        }
        swap_at(v, g, i);
        i = g;
    }
    assert(node_ok(v@, i as int));
    assert forall|c: int| 0 <= c < o.len() && c > 2 && #[trigger] on_gchain(index as int, c) implies dominates(v@, parent_of(parent_of(c)), c) by {
        assert(node_ok(v@, c));
    }
}

/// Restores the heap property after a value was appended at `index`, the
/// last position, moving it up along ancestors of the kind of level that it
/// belongs on. Only `index` and its ancestors change.
pub fn bubble_up<T: Key>(v: &mut Vec<T>, index: usize)
    requires
        index + 1 == old(v).len(),
        forall|j: int| 0 <= j < index ==> #[trigger] node_ok(old(v)@, j),
    ensures
        is_minmax_heap(final(v)@),
        final(v)@.to_multiset() == old(v)@.to_multiset(),
        final(v)@.len() == old(v)@.len(),
        forall|j: int|
            0 <= j < old(v)@.len() && !#[trigger] in_subtree(j, index as int) ==> final(v)@[j]
                == old(v)@[j],
        index == 0 ==> final(v)@ == old(v)@,
{
    if index == 0 {
        assert(node_ok(v@, 0));
        return;
    }
    let p = parent(index);
    let mut i: usize;
    proof {
        lemma_parent_level(index as int);
        assert(in_subtree(index as int, index as int));
        assert(in_subtree(p as int, p as int));
        assert(in_subtree(p as int, index as int));
    }
    if is_on_min_level(index) {
        if v[p].less_than(&v[index]) {
            swap_at(v, p, index);
            i = p;
        } else {
            i = index;
        }
    } else {
        if v[index].less_than(&v[p]) {
            swap_at(v, p, index);
            i = p;
        } else {
            i = index;
        }
    }
    proof {
        lemma_bubble_start(old(v)@, index as int, v@, i as int);
    }
    let ghost mid = v@;
    let seek_max = !is_on_min_level(i);
    bubble_up_grand(v, i, seek_max);
    proof {
        assert forall|j: int| 0 <= j < old(v)@.len() && !#[trigger] in_subtree(j, index as int) implies v@[j] == old(v)@[j] by {
            if on_gchain(i as int, j) {
                lemma_gchain_ancestors(i as int, index as int, j);
            }
            assert(j != p && j != index);
        }
    }
}

/// The value at `a` comes no later than the one at `b` in the direction
/// that a level of the given kind looks for: least first on a min level,
/// greatest first on a max level.
pub open spec fn ranks<T: Key>(s: Seq<T>, on_min: bool, a: int, b: int) -> bool {
    if on_min {
        s[a].key() <= s[b].key()
    } else {
        s[a].key() >= s[b].key()
    }
}

/// The node at `j` is bounded by its parent and grandparent, except where
/// that ancestor is `i`.
pub open spec fn node_ok_except<T: Key>(s: Seq<T>, j: int, i: int) -> bool {
    &&& (j > 0 && parent_of(j) != i ==> dominates(s, parent_of(j), j))
    &&& (j > 2 && parent_of(parent_of(j)) != i ==> dominates(s, parent_of(parent_of(j)), j))
}

/// While walking down: every bound holds but those that the node at `i`
/// owes its children and grandchildren; and the parent and grandparent of
/// `i` already bound those children and grandchildren.
pub open spec fn trickle_inv<T: Key>(s: Seq<T>, i: int) -> bool {
    &&& 0 <= i < s.len()
    &&& forall|j: int| 0 <= j < s.len() ==> #[trigger] node_ok_except(s, j, i)
    &&& forall|j: int|
        0 <= j < s.len() && #[trigger] is_below(i, j) ==> {
            &&& (i > 0 ==> dominates(s, parent_of(i), j))
            &&& (i > 2 ==> dominates(s, parent_of(parent_of(i)), j))
        }
}

/// `m` is `i` or one of its children or grandchildren below `bound`, and its
/// value comes first, for the kind of level of `i`, among `i` and those of
/// its children and grandchildren below `bound`; where `m` is not `i` it
/// comes strictly before the value at `i`.
pub open spec fn picked<T: Key>(s: Seq<T>, i: int, m: int, bound: int) -> bool {
    &&& 0 <= m < s.len()
    &&& (m == i || (is_below(i, m) && m < bound))
    &&& ranks(s, min_level(i), m, i)
    &&& (m != i ==> !ranks(s, min_level(i), i, m))
    &&& forall|j: int|
        0 <= j < s.len() && j < bound && #[trigger] is_below(i, j) ==> ranks(s, min_level(i), m, j)
}

/// Whether the value at `a` comes strictly before the one at `b` in the
/// direction of the search.
fn better<T: Key>(v: &Vec<T>, a: usize, b: usize, seek_max: bool) -> (r: bool)
    requires
        a < v.len(),
        b < v.len(),
    ensures
        r == !ranks(v@, !seek_max, b as int, a as int),
{
    if seek_max {
        v[b].less_than(&v[a])
    } else {
        v[a].less_than(&v[b])
    }
}

/// Finds among `i`, its children and its grandchildren the position whose
/// value a level of the kind of `i` wants on top; ties go to the position
/// examined first.
fn pick_extreme<T: Key>(v: &Vec<T>, i: usize, seek_max: bool) -> (m: usize)
    requires
        i < v.len(),
        seek_max == !min_level(i as int),
    ensures
        picked(v@, i as int, m as int, v@.len() as int),
{
    let n = v.len();
    let mut m = i;
    if i < n / 2 {
        let left = 2 * i + 1;
        if better(v, left, m, seek_max) {
            m = left;
        }
        assert(picked(v@, i as int, m as int, left + 1)) by {
            assert forall|j: int| 0 <= j < v@.len() && j < left + 1 && #[trigger] is_below(i as int, j) implies ranks(v@, min_level(i as int), m as int, j) by {
                lemma_below_range(i as int, j);
            }
            lemma_below_range(i as int, m as int);
        }
        if left + 1 < n && better(v, left + 1, m, seek_max) {
            m = left + 1;
        }
        assert(picked(v@, i as int, m as int, left + 2)) by {
            assert forall|j: int| 0 <= j < v@.len() && j < left + 2 && #[trigger] is_below(i as int, j) implies ranks(v@, min_level(i as int), m as int, j) by {
                lemma_below_range(i as int, j);
            }
            lemma_below_range(i as int, m as int);
        }
        if left < n / 2 {
            let lg = 2 * left + 1;
            let mut k: usize = 0;
            while k < 4 && k < n - lg
                invariant
                    n == v.len(),
                    lg == 4 * i + 3,
                    lg < n,
                    k <= 4,
                    k <= n - lg,
                    seek_max == !min_level(i as int),
                    picked(v@, i as int, m as int, lg + k),
                decreases 4 - k,
            {
                if better(v, lg + k, m, seek_max) {
                    m = lg + k;
                }
                assert(picked(v@, i as int, m as int, lg + k + 1)) by {
                    assert forall|j: int| 0 <= j < v@.len() && j < lg + k + 1 && #[trigger] is_below(i as int, j) implies ranks(v@, min_level(i as int), m as int, j) by {
                        lemma_below_range(i as int, j);
                    }
                    lemma_below_range(i as int, (lg + k) as int);
                    lemma_below_range(i as int, m as int);
                }
                k = k + 1;
            }
            assert forall|j: int| 0 <= j < v@.len() && #[trigger] is_below(i as int, j) implies j < lg + k by {
                lemma_below_range(i as int, j);
            }
        } else {
            assert forall|j: int| 0 <= j < v@.len() && #[trigger] is_below(i as int, j) implies j < left + 2 by {
                lemma_below_range(i as int, j);
            }
        }
    } else {
        assert forall|j: int| 0 <= j < v@.len() && #[trigger] is_below(i as int, j) implies false by {
            lemma_below_range(i as int, j);
        }
    }
    m
}

proof fn lemma_trickle_done<T: Key>(s: Seq<T>, i: int)
    requires
        trickle_inv(s, i),
        picked(s, i, i, s.len() as int),
    ensures
        is_minmax_heap(s),
{
    assert forall|j: int| 0 <= j < s.len() implies #[trigger] node_ok(s, j) by {
        lemma_levels_up(j);
        assert(node_ok_except(s, j, i));
        if is_below(i, j) {
            assert(ranks(s, min_level(i), i, j));
        }
    }
}

proof fn lemma_trickle_child<T: Key>(s: Seq<T>, i: int, m: int)
    requires
        trickle_inv(s, i),
        picked(s, i, m, s.len() as int),
        m > 0,
        parent_of(m) == i,
    ensures
        is_minmax_heap(swapped(s, i, m)),
{
    let t = swapped(s, i, m);
    lemma_levels_up(m);
    lemma_levels_up(i);
    assert(node_ok_except(s, i, i));
    assert(is_below(i, m));
    assert forall|j: int| 0 <= j < t.len() implies #[trigger] node_ok(t, j) by {
        lemma_levels_up(j);
        lemma_below_range(i, j);
        assert(node_ok_except(s, j, i));
        if is_below(i, j) {
            assert(ranks(s, min_level(i), m, j));
        }
        if j > 0 && parent_of(j) > 0 {
            assert(node_ok_except(s, parent_of(j), i));
        }
    }
}

proof fn lemma_trickle_grandchild<T: Key>(s: Seq<T>, i: int, m: int, u: Seq<T>)
    requires
        trickle_inv(s, i),
        picked(s, i, m, s.len() as int),
        m > 2,
        parent_of(parent_of(m)) == i,
        ({
            let t = swapped(s, i, m);
            (dominates(t, parent_of(m), m) && u == t) || (!dominates(t, parent_of(m), m) && u
                == swapped(t, parent_of(m), m))
        }),
    ensures
        trickle_inv(u, m),
{
    let t = swapped(s, i, m);
    let pm = parent_of(m);
    lemma_levels_up(m);
    lemma_levels_up(pm);
    lemma_levels_up(i);
    assert(node_ok_except(s, i, i));
    assert(node_ok_except(s, pm, i));
    assert(node_ok_except(s, m, i));
    assert(is_below(i, m));
    assert(is_below(i, pm));
    assert forall|j: int| 0 <= j < u.len() implies #[trigger] node_ok_except(u, j, m) by {
        lemma_levels_up(j);
        lemma_below_range(i, j);
        assert(node_ok_except(s, j, i));
        if is_below(i, j) {
            assert(ranks(s, min_level(i), m, j));
        }
        if j > 0 && parent_of(j) > 0 {
            assert(node_ok_except(s, parent_of(j), i));
            if is_below(i, parent_of(j)) {
                assert(ranks(s, min_level(i), m, parent_of(j)));
            }
        }
    }
    assert forall|j: int| 0 <= j < u.len() && #[trigger] is_below(m, j) implies {
        &&& (m > 0 ==> dominates(u, parent_of(m), j))
        &&& (m > 2 ==> dominates(u, parent_of(parent_of(m)), j))
    } by {
        lemma_levels_up(j);
        lemma_below_range(m, j);
        assert(node_ok_except(s, j, i));
        if j > 0 && parent_of(j) > 0 {
            assert(node_ok_except(s, parent_of(j), i));
        }
    }
}

/// `d` is `a` or a descendant of `a`.
pub open spec fn in_subtree(a: int, d: int) -> bool
    decreases d,
{
    if d < a || d < 0 {
        false
    } else if d == a {
        true
    } else if d == 0 {
        false
    } else {
        in_subtree(a, parent_of(d))
    }
}

/// Some slot of the subtree rooted at `a` holds `x`.
pub open spec fn subtree_has<T>(s: Seq<T>, a: int, x: T) -> bool {
    exists|k: int| 0 <= k < s.len() && in_subtree(a, k) && s[k] == x
}

/// Children and grandchildren of a node of the subtree rooted at `a` are in
/// that subtree.
proof fn lemma_subtree_below(a: int, i: int, m: int)
    requires
        a >= 0,
        in_subtree(a, i),
        is_below(i, m),
    ensures
        in_subtree(a, m),
{
    lemma_levels_up(m);
    if parent_of(m) != i {
        lemma_levels_up(parent_of(m));
        assert(in_subtree(a, parent_of(m)));
    }
}

/// In a heap, a node ranks first, for its kind of level, over its whole
/// subtree.
pub proof fn lemma_subtree_ranked<T: Key>(s: Seq<T>, a: int, d: int)
    requires
        is_minmax_heap(s),
        0 <= a,
        0 <= d < s.len(),
        in_subtree(a, d),
    ensures
        ranks(s, min_level(a), a, d),
    decreases d,
{
    if d != a {
        let p = parent_of(d);
        lemma_levels_up(d);
        assert(node_ok(s, d));
        if p == a {
        } else {
            lemma_levels_up(p);
            let g = parent_of(p);
            assert(in_subtree(a, p));
            assert(in_subtree(a, g));
            lemma_subtree_ranked(s, a, p);
            lemma_subtree_ranked(s, a, g);
        }
    }
}

/// Exchanging two slots of a subtree keeps the values that it holds.
#[verifier::rlimit(100)]
proof fn lemma_swap_in_subtree<T>(s: Seq<T>, o: Seq<T>, a: int, p: int, q: int)
    requires
        0 <= p < s.len(),
        0 <= q < s.len(),
        in_subtree(a, p),
        in_subtree(a, q),
        forall|j: int| 0 <= j < o.len() && #[trigger] in_subtree(a, j) ==> subtree_has(s, a, o[j]),
        forall|k: int| 0 <= k < s.len() && #[trigger] in_subtree(a, k) ==> subtree_has(o, a, s[k]),
    ensures
        forall|j: int|
            0 <= j < o.len() && #[trigger] in_subtree(a, j) ==> subtree_has(swapped(s, p, q), a, o[j]),
        forall|k: int|
            0 <= k < s.len() && #[trigger] in_subtree(a, k) ==> subtree_has(o, a, swapped(s, p, q)[k]),
{
    let t = swapped(s, p, q);
    assert forall|j: int| 0 <= j < o.len() && #[trigger] in_subtree(a, j) implies subtree_has(t, a, o[j]) by {
        let k = choose|k: int| 0 <= k < s.len() && in_subtree(a, k) && s[k] == o[j];
        if k == p {
            assert(t[q] == o[j]);
        } else if k == q {
            assert(t[p] == o[j]);
        } else {
            assert(t[k] == o[j]);
        }
    }
    assert forall|k: int| 0 <= k < s.len() && #[trigger] in_subtree(a, k) implies subtree_has(o, a, t[k]) by {
        if k == p {
            assert(subtree_has(o, a, s[q]));
        } else if k == q {
            assert(subtree_has(o, a, s[p]));
        } else {
            assert(subtree_has(o, a, s[k]));
        }
    }
}

/// `s` differs from `o` only inside the subtree rooted at `a`, and that
/// subtree holds the same values in both.
#[verifier::opaque]
pub open spec fn kept<T>(o: Seq<T>, s: Seq<T>, a: int) -> bool {
    &&& s.len() == o.len()
    &&& forall|j: int| 0 <= j < o.len() && !#[trigger] in_subtree(a, j) ==> s[j] == o[j]
    &&& forall|j: int| 0 <= j < o.len() && #[trigger] in_subtree(a, j) ==> subtree_has(s, a, o[j])
    &&& forall|k: int| 0 <= k < s.len() && #[trigger] in_subtree(a, k) ==> subtree_has(o, a, s[k])
}

proof fn lemma_kept_start<T>(o: Seq<T>, a: int)
    ensures
        kept(o, o, a),
{
    reveal(kept);
    assert forall|j: int| 0 <= j < o.len() && #[trigger] in_subtree(a, j) implies subtree_has(o, a, o[j]) by {
        assert(o[j] == o[j]);
    }
}

#[verifier::rlimit(100)]
proof fn lemma_kept_swap<T>(o: Seq<T>, s: Seq<T>, a: int, p: int, q: int)
    requires
        kept(o, s, a),
        0 <= p < s.len(),
        0 <= q < s.len(),
        in_subtree(a, p),
        in_subtree(a, q),
    ensures
        kept(o, swapped(s, p, q), a),
{
    reveal(kept);
    let t = swapped(s, p, q);
    lemma_swap_in_subtree(s, o, a, p, q);
    assert forall|j: int| 0 <= j < o.len() && !#[trigger] in_subtree(a, j) implies t[j] == o[j] by {
        assert(j != p && j != q);
        assert(s[j] == o[j]);
    }
}

/// Restores the heap property when the only bounds that fail are those that
/// the node at `index` owes its children and grandchildren, moving its value
/// down two levels at a time. Only slots of the subtree rooted at `index`
/// change, and the value left at `index` is the least (on a min level) or
/// the greatest (on a max level) of the values that the subtree held.
#[verifier::rlimit(100)]
pub fn trickle_down<T: Key>(v: &mut Vec<T>, index: usize)
    requires
        trickle_inv(old(v)@, index as int),
    ensures
        is_minmax_heap(final(v)@),
        final(v)@.to_multiset() == old(v)@.to_multiset(),
        final(v)@.len() == old(v)@.len(),
        forall|j: int|
            0 <= j < old(v)@.len() && !#[trigger] in_subtree(index as int, j) ==> final(v)@[j]
                == old(v)@[j],
        picked(old(v)@, index as int, index as int, old(v)@.len() as int) ==> final(v)@ == old(
            v,
        )@,
        subtree_has(old(v)@, index as int, final(v)@[index as int]),
        forall|j: int|
            0 <= j < old(v)@.len() && #[trigger] in_subtree(index as int, j) ==> if min_level(
                index as int,
            ) {
                final(v)@[index as int].key() <= old(v)@[j].key()
            } else {
                final(v)@[index as int].key() >= old(v)@[j].key()
            },
{
    let mut i = index;
    let n = v.len();
    assert(index < n);
    let seek_max = !is_on_min_level(index);
    let ghost o = v@;
    assert(in_subtree(index as int, index as int));
    proof {
        lemma_kept_start(o, index as int);
    }
    loop
        invariant_except_break
            trickle_inv(v@, i as int),
            seek_max == !min_level(i as int),
        invariant
            v@.to_multiset() == old(v)@.to_multiset(),
            o == old(v)@,
            v@.len() == n,
            in_subtree(index as int, i as int),
            kept(o, v@, index as int),
            picked(o, index as int, index as int, n as int) ==> v@ == o && i == index,
        ensures
            is_minmax_heap(v@),
        decreases v@.len() - i,
    {
        let m = pick_extreme(v, i, seek_max);
        if m == i {
            proof {
                lemma_trickle_done(v@, i as int);
            }
            break;
        }
        proof {
            lemma_below_range(i as int, m as int);
            lemma_subtree_below(index as int, i as int, m as int);
            if picked(o, index as int, index as int, n as int) {
                assert(ranks(v@, min_level(i as int), i as int, m as int));
            }
            lemma_kept_swap(o, v@, index as int, i as int, m as int);
        }
        let left = 2 * i + 1;
        if m - left <= 1 {
            proof {
                lemma_trickle_child(v@, i as int, m as int);
            }
            swap_at(v, i, m);
            break;
        }
        let ghost s0 = v@;
        swap_at(v, i, m);
        let pm = parent(m);
        proof {
            lemma_levels_up(m as int);
            assert(is_below(i as int, pm as int));
            lemma_subtree_below(index as int, i as int, pm as int);
            lemma_kept_swap(o, v@, index as int, pm as int, m as int);
        }
        let violated = if seek_max {
            v[m].less_than(&v[pm])
        } else {
            v[pm].less_than(&v[m])
        };
        if violated {
            swap_at(v, pm, m);
        }
        proof {
            lemma_trickle_grandchild(s0, i as int, m as int, v@);
        }
        i = m;
    }
    proof {
        reveal(kept);
        assert(subtree_has(o, index as int, v@[index as int]));
        assert forall|j: int| 0 <= j < o.len() && #[trigger] in_subtree(index as int, j) implies (if min_level(index as int) {
            v@[index as int].key() <= o[j].key()
        } else {
            v@[index as int].key() >= o[j].key()
        }) by {
            let k = choose|k: int| 0 <= k < v@.len() && in_subtree(index as int, k) && v@[k] == o[j];
            lemma_subtree_ranked(v@, index as int, k);
        }
    }
}

} // verus!
