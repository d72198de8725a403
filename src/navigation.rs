//! Index arithmetic of the implicit complete binary tree.
use vstd::prelude::*;

verus! {

/// Number of binary digits of `v` (zero has none).
pub open spec fn bit_len(v: nat) -> nat
    decreases v,
{
    if v == 0 {
        0
    } else {
        1 + bit_len(v / 2)
    }
}

/// Position of the parent of `i` in the array (meaningful for `i > 0`).
pub open spec fn parent_of(i: int) -> int {
    (i - 1) / 2
}

/// Whether index `i` lies on a level whose nodes bound their descendants from below.
/// The root's depth is zero; the depth of `i` is `bit_len(i + 1) - 1`.
pub open spec fn min_level(i: int) -> bool {
    bit_len((i + 1) as nat) % 2 == 1
}

/// Moving to the parent flips the kind of level.
pub proof fn lemma_parent_level(j: int)
    requires
        j > 0,
    ensures
        min_level(parent_of(j)) == !min_level(j),
        0 <= parent_of(j) < j,
{
    assert((j + 1) / 2 == parent_of(j) + 1);
    assert(bit_len((j + 1) as nat) == 1 + bit_len(((j + 1) / 2) as nat));
}

/// Levels of a node's parent and grandparent.
pub proof fn lemma_levels_up(j: int)
    ensures
        j > 0 ==> min_level(parent_of(j)) == !min_level(j) && 0 <= parent_of(j) < j,
        j > 2 ==> min_level(parent_of(parent_of(j))) == min_level(j) && 0 <= parent_of(
            parent_of(j),
        ) < parent_of(j),
{
    if j > 0 {
        lemma_parent_level(j);
        if parent_of(j) > 0 {
            lemma_parent_level(parent_of(j));
        }
    }
}

/// The root sits on a min level; its children sit on max levels.
pub proof fn lemma_top_levels()
    ensures
        min_level(0),
        !min_level(1),
        !min_level(2),
{
    reveal_with_fuel(bit_len, 3);
}

/// Bit length of `value`, or `None` for zero.
pub fn log2(value: usize) -> (r: Option<usize>)
    ensures
        value == 0 ==> r is None,
        value != 0 ==> r == Some(bit_len(value as nat) as usize),
{
    if value == 0 {
        return None;
    }
    let mut v: usize = value;
    let mut res: usize = 0;
    proof {
        lemma_bit_len_le(value as nat);
    }
    while v != 0
        invariant
            res + bit_len(v as nat) == bit_len(value as nat),
            bit_len(value as nat) <= value,
        decreases v,
    {
        assert(v >> 1usize == v / 2) by (bit_vector);
        v = v >> 1;
        res = res + 1;
    }
    Some(res)
}

/// A number has no more binary digits than its value.
pub proof fn lemma_bit_len_le(v: nat)
    ensures
        bit_len(v) <= v,
    decreases v,
{
    if v > 0 {
        lemma_bit_len_le(v / 2);
    }
}

/// Position of the parent of `index`.
pub fn parent(index: usize) -> (r: usize)
    requires
        index > 0,
    ensures
        r == parent_of(index as int),
{
    (index - 1) / 2
}

/// Position of the left child of `index`.
pub fn left_child(index: usize) -> (r: usize)
    requires
        2 * index + 1 <= usize::MAX,
    ensures
        r == 2 * index + 1,
{
    2 * index + 1
}

/// Position of the right child of `index`.
pub fn right_child(index: usize) -> (r: usize)
    requires
        2 * index + 2 <= usize::MAX,
    ensures
        r == 2 * index + 2,
{
    2 * index + 2
}

/// Whether `index` lies on a min level (an even depth).
pub fn is_on_min_level(index: usize) -> (r: bool)
    requires
        index < usize::MAX,
    ensures
        r == min_level(index as int),
{
    proof {
        lemma_bit_len_le((index + 1) as nat);
    }
    let bits = log2(index + 1).unwrap();
    bits % 2 == 1
}

/// Whether `index` lies on a max level (an odd depth).
pub fn is_on_max_level(index: usize) -> (r: bool)
    requires
        index < usize::MAX,
    ensures
        r == !min_level(index as int),
{
    !is_on_min_level(index)
}

} // verus!
