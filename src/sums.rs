//! Child sums of a k-ary tree laid out in an array, and how they move when a
//! node is overwritten or appended.

use crate::layout::{
    child_of, is_leaf, lemma_appended_leaf, lemma_child_above, lemma_child_iff_parent,
    lemma_first_child, lemma_parent_below, lemma_second_child, parent_of,
};
use vstd::prelude::*;

verus! {

/// The weight of node `t`, or zero past the end of the array.
pub open spec fn weight_at(s: Seq<u128>, t: int) -> int {
    if 0 <= t < s.len() {
        s[t] as int
    } else {
        0
    }
}

/// The sum of the first `n` child slots of node `i`.
pub open spec fn child_sum(s: Seq<u128>, k: int, i: int, n: int) -> int
    decreases n,
{
    if n <= 0 {
        0
    } else {
        child_sum(s, k, i, n - 1) + weight_at(s, child_of(k, i, n))
    }
}

/// A leaf, or an internal node whose weight is the sum of its children.
pub open spec fn sum_holds(s: Seq<u128>, k: int, i: int) -> bool {
    is_leaf(k, s.len() as int, i) || s[i] as int == child_sum(s, k, i, k)
}

pub proof fn lemma_child_sum_nonneg(s: Seq<u128>, k: int, i: int, n: int)
    ensures
        child_sum(s, k, i, n) >= 0,
    decreases n,
{
    if n > 0 {
        lemma_child_sum_nonneg(s, k, i, n - 1);
    }
}

/// Every child in range weighs at most the sum.
pub proof fn lemma_child_sum_ge(s: Seq<u128>, k: int, i: int, n: int, j: int)
    requires
        1 <= j <= n,
    ensures
        child_sum(s, k, i, n) >= weight_at(s, child_of(k, i, j)),
    decreases n,
{
    lemma_child_sum_nonneg(s, k, i, n - 1);
    if j < n {
        lemma_child_sum_ge(s, k, i, n - 1, j);
    }
}

/// Slots past the end of the array add nothing.
pub proof fn lemma_child_sum_tail(s: Seq<u128>, k: int, i: int, n: int, j: int)
    requires
        k >= 1,
        i >= 0,
        1 <= j <= n + 1,
        child_of(k, i, j) >= s.len(),
    ensures
        child_sum(s, k, i, n) == child_sum(s, k, i, j - 1),
    decreases n,
{
    if n >= j {
        lemma_child_sum_tail(s, k, i, n - 1, j);
    }
}

/// Overwriting node `c` moves the child sums of its parent alone.
pub proof fn lemma_child_sum_update(s: Seq<u128>, k: int, i: int, n: int, c: int, v: u128)
    requires
        k >= 1,
        i >= 0,
        0 <= n <= k,
        0 <= c < s.len(),
    ensures
        child_sum(s.update(c, v), k, i, n) == child_sum(s, k, i, n) + (if k * i + 1 <= c <= k * i
            + n {
            v - s[c]
        } else {
            0
        }),
    decreases n,
{
    if n > 0 {
        lemma_child_sum_update(s, k, i, n - 1, c, v);
    }
}

/// Appending a node adds its weight to the sums of its parent alone.
pub proof fn lemma_child_sum_push(s: Seq<u128>, k: int, i: int, n: int, v: u128)
    requires
        k >= 1,
        i >= 0,
        0 <= n <= k,
    ensures
        child_sum(s.push(v), k, i, n) == child_sum(s, k, i, n) + (if k * i + 1 <= s.len() <= k * i
            + n {
            v as int
        } else {
            0
        }),
    decreases n,
{
    if n > 0 {
        lemma_child_sum_push(s, k, i, n - 1, v);
    }
}

/// Where the sums hold below node `x`, no node outweighs the root.
pub proof fn lemma_below_root(s: Seq<u128>, k: int, x: int)
    requires
        k >= 1,
        0 <= x < s.len(),
        forall|i: int| 0 <= i < x ==> #[trigger] sum_holds(s, k, i),
    ensures
        s[x] <= s[0],
    decreases x,
{
    if x > 0 {
        let p = parent_of(k, x);
        lemma_parent_below(k, x);
        lemma_child_iff_parent(k, p, x);
        assert(sum_holds(s, k, p));
        lemma_child_sum_ge(s, k, p, k, x - k * p);
        lemma_below_root(s, k, p);
    }
}

} // verus!

verus! {

/// After a leaf `x` is overwritten, the sums hold but at its parent, which is
/// short of the change.
pub proof fn lemma_leaf_overwrite(s: Seq<u128>, k: int, x: int, v: u128)
    requires
        k >= 2,
        1 <= x < s.len(),
        is_leaf(k, s.len() as int, x),
        forall|i: int| 0 <= i < s.len() ==> #[trigger] sum_holds(s, k, i),
    ensures
        forall|i: int|
            0 <= i < s.len() && i != parent_of(k, x) ==> #[trigger] sum_holds(s.update(x, v), k, i),
        child_sum(s.update(x, v), k, parent_of(k, x), k) == s.update(x, v)[parent_of(k, x)] + (v
            - s[x]),
{
    let s2 = s.update(x, v);
    lemma_parent_below(k, x);
    assert forall|i: int| 0 <= i < s.len() && i != parent_of(k, x) implies #[trigger] sum_holds(s2, k, i) by {
        lemma_child_sum_update(s, k, i, k, x, v);
        lemma_child_iff_parent(k, i, x);
        assert(sum_holds(s, k, i));
    }
    let p = parent_of(k, x);
    lemma_child_sum_update(s, k, p, k, x, v);
    lemma_child_iff_parent(k, p, x);
    assert(sum_holds(s, k, p));
}

/// Appending a node that is no first child leaves the sums holding but at its
/// parent, which is short of the new weight.
pub proof fn lemma_push_sums(s: Seq<u128>, k: int, v: u128)
    requires
        k >= 2,
        s.len() >= 1,
        s.len() == 1 ==> s[0] == 0,
        !(s.len() != 1 && (s.len() - 1) % k == 0),
        forall|i: int| 0 <= i < s.len() ==> #[trigger] sum_holds(s, k, i),
    ensures
        forall|i: int|
            0 <= i <= s.len() && i != parent_of(k, s.len() as int) ==> #[trigger] sum_holds(
                s.push(v),
                k,
                i,
            ),
        child_sum(s.push(v), k, parent_of(k, s.len() as int), k) == s.push(v)[parent_of(
            k,
            s.len() as int,
        )] + v,
{
    let l = s.len() as int;
    let s2 = s.push(v);
    lemma_first_child(k, l);
    lemma_appended_leaf(k, l);
    assert forall|i: int| 0 <= i <= l && i != parent_of(k, l) implies #[trigger] sum_holds(s2, k, i) by {
        lemma_child_sum_push(s, k, i, k, v);
        lemma_child_iff_parent(k, i, l);
        if i < l {
            assert(sum_holds(s, k, i));
        }
    }
    let q = parent_of(k, l);
    lemma_parent_below(k, l);
    lemma_child_sum_push(s, k, q, k, v);
    lemma_child_iff_parent(k, q, l);
    if is_leaf(k, l, q) {
        lemma_child_sum_tail(s, k, q, k, 1);
    } else {
        assert(sum_holds(s, k, q));
    }
}

/// Appending a first child and, after it, its parent's old weight turns the
/// parent into an inner node that is short of the first child's weight.
pub proof fn lemma_split_sums(s: Seq<u128>, k: int, p: int, v: u128)
    requires
        k >= 2,
        p >= 1,
        s.len() == k * p + 1,
        forall|i: int| 0 <= i < s.len() ==> #[trigger] sum_holds(s, k, i),
    ensures
        forall|i: int|
            0 <= i < s.len() + 2 && i != p ==> #[trigger] sum_holds(s.push(v).push(s[p]), k, i),
        child_sum(s.push(v).push(s[p]), k, p, k) == s[p] + v,
        p < s.len(),
{
    let l = s.len() as int;
    lemma_child_above(k, p, 1);
    let s2 = s.push(v);
    let s3 = s2.push(s[p]);
    lemma_appended_leaf(k, l);
    lemma_child_iff_parent(k, p, l);
    assert forall|i: int| 0 <= i < l + 2 && i != p implies #[trigger] sum_holds(s3, k, i) by {
        lemma_child_sum_push(s, k, i, k, v);
        lemma_child_sum_push(s2, k, i, k, s[p]);
        lemma_child_iff_parent(k, i, l);
        lemma_child_iff_parent(k, i, l + 1);
        lemma_child_iff_parent(k, p, l + 1);
        lemma_second_child(k, p, i);
        if i < l {
            assert(sum_holds(s, k, i));
            if k * i + 1 == l {
                assert(i == p) by (nonlinear_arith)
                    requires
                        k * i + 1 == k * p + 1,
                        k >= 2,
                ;
            }
        } else {
            lemma_appended_leaf(k, i);
        }
    }
    lemma_child_sum_push(s, k, p, k, v);
    lemma_child_sum_push(s2, k, p, k, s[p]);
    lemma_child_iff_parent(k, p, l + 1);
    lemma_child_sum_tail(s, k, p, k, 1);
}

} // verus!
