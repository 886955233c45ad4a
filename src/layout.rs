//! Index arithmetic of a k-ary tree stored in an array: node 0 is the root,
//! and node `i > 0` is a child of node `(i - 1) / k`.

use vstd::prelude::*;

verus! {

/// The parent of node `i > 0`.
pub open spec fn parent_of(k: int, i: int) -> int {
    (i - 1) / k
}

/// The index of the `j`-th child of node `i`, counting from 1.
pub open spec fn child_of(k: int, i: int, j: int) -> int {
    k * i + j
}

/// Whether node `i` has no child within an array of `len` nodes.
pub open spec fn is_leaf(k: int, len: int, i: int) -> bool {
    k * i + 1 >= len
}

/// The parent of node `i > 0`.
pub fn parent(k: usize, i: usize) -> (p: usize)
    requires
        k >= 1,
        i >= 1,
    ensures
        p == parent_of(k as int, i as int),
        p < i,
{
    proof {
        lemma_parent_below(k as int, i as int);
    }
    (i - 1) / k
}

/// Whether node `i` has a child within an array of `len` nodes.
pub fn has_child(k: usize, i: usize, len: usize) -> (r: bool)
    ensures
        r == !is_leaf(k as int, len as int, i as int),
{
    proof {
        lemma_product_fits(k as int, i as int);
    }
    (k as u128) * (i as u128) + 1 < len as u128
}

proof fn lemma_product_fits(a: int, b: int)
    requires
        0 <= a <= usize::MAX,
        0 <= b <= usize::MAX,
    ensures
        a * b + 1 <= u128::MAX,
{
    assert(a * b <= usize::MAX as int * usize::MAX as int) by (nonlinear_arith)
        requires
            0 <= a <= usize::MAX,
            0 <= b <= usize::MAX,
    ;
}

pub proof fn lemma_parent_below(k: int, i: int)
    requires
        k >= 1,
        i >= 1,
    ensures
        0 <= parent_of(k, i) < i,
{
    assert(0 <= (i - 1) / k <= i - 1) by (nonlinear_arith)
        requires
            k >= 1,
            i >= 1,
    ;
}

/// Node `c` is among the children of node `i` exactly when `i` is its parent.
pub proof fn lemma_child_iff_parent(k: int, i: int, c: int)
    requires
        k >= 1,
        i >= 0,
        c >= 1,
    ensures
        (k * i + 1 <= c <= k * i + k) <==> parent_of(k, c) == i,
{
    let p = (c - 1) / k;
    let r = (c - 1) % k;
    assert(c - 1 == k * p + r && 0 <= r < k) by (nonlinear_arith)
        requires
            k >= 1,
            c >= 1,
            p == (c - 1) / k,
            r == (c - 1) % k,
    ;
    if k * i + 1 <= c <= k * i + k {
        assert(p == i) by (nonlinear_arith)
            requires
                c - 1 == k * p + r,
                0 <= r < k,
                k * i <= c - 1 < k * i + k,
        ;
    }
    if p == i {
        assert(k * i + 1 <= c <= k * i + k) by (nonlinear_arith)
            requires
                c - 1 == k * p + r,
                0 <= r < k,
                p == i,
        ;
    }
}

/// A child lies past its parent.
pub proof fn lemma_child_above(k: int, i: int, j: int)
    requires
        k >= 1,
        i >= 0,
        j >= 1,
    ensures
        k * i + j > i,
{
    assert(k * i >= i) by (nonlinear_arith)
        requires
            k >= 1,
            i >= 0,
    ;
}

} // verus!

verus! {

/// Node `c` is the first child of its parent exactly when `(c - 1) % k == 0`.
pub proof fn lemma_first_child(k: int, c: int)
    requires
        k >= 1,
        c >= 1,
    ensures
        ((c - 1) % k == 0) <==> c == k * parent_of(k, c) + 1,
        forall|i: int| i >= 0 && #[trigger] (k * i) + 1 == c ==> (c - 1) % k == 0,
{
    let p = (c - 1) / k;
    let r = (c - 1) % k;
    assert(c - 1 == k * p + r && 0 <= r < k) by (nonlinear_arith)
        requires
            k >= 1,
            c >= 1,
            p == (c - 1) / k,
            r == (c - 1) % k,
    ;
    assert forall|i: int| i >= 0 && #[trigger] (k * i) + 1 == c implies (c - 1) % k == 0 by {
        lemma_child_iff_parent(k, i, c);
    }
}

/// The slot after a first child is the first child of no node.
pub proof fn lemma_second_child(k: int, p: int, i: int)
    requires
        k >= 2,
        p >= 0,
    ensures
        k * i + 1 != k * p + 2,
{
    assert(k * i + 1 != k * p + 2) by (nonlinear_arith)
        requires
            k >= 2,
    ;
}

/// A new node appended after node `l >= 1` has no child yet.
pub proof fn lemma_appended_leaf(k: int, l: int)
    requires
        k >= 2,
        l >= 1,
    ensures
        k * l + 1 >= l + 2,
{
    assert(k * l >= 2 * l) by (nonlinear_arith)
        requires
            k >= 2,
            l >= 1,
    ;
}

} // verus!

verus! {

/// The first leaf lies within the array, and is the smallest leaf.
pub proof fn lemma_first_leaf_bound(k: int, len: int)
    requires
        k >= 2,
        len >= 1,
    ensures
        len >= 2 ==> 1 <= (len - 2) / k + 1 < len,
        len >= 2 ==> is_leaf(k, len, (len - 2) / k + 1),
        len >= 2 ==> !is_leaf(k, len, (len - 2) / k),
{
    if len >= 2 {
        let q = (len - 2) / k;
        let r = (len - 2) % k;
        assert(len - 2 == k * q + r && 0 <= r < k && 0 <= q) by (nonlinear_arith)
            requires
                k >= 1,
                len >= 2,
                q == (len - 2) / k,
                r == (len - 2) % k,
        ;
        assert(q + 1 < len && k * (q + 1) + 1 >= len) by (nonlinear_arith)
            requires
                len - 2 == k * q + r,
                0 <= r < k,
                0 <= q,
                k >= 2,
        ;
    }
}

} // verus!

verus! {

/// Whether node `a` is a strict ancestor of node `i`.
pub open spec fn is_above(k: int, a: int, i: int) -> bool
    decreases i,
{
    if i > 0 && k >= 1 {
        let p = parent_of(k, i);
        p == a || (0 <= p < i && is_above(k, a, p))
    } else {
        false
    }
}

/// A strict ancestor lies before its descendant.
pub proof fn lemma_above_before(k: int, a: int, i: int)
    requires
        is_above(k, a, i),
    ensures
        0 <= a < i,
    decreases i,
{
    lemma_parent_below(k, i);
    let p = parent_of(k, i);
    if p != a {
        lemma_above_before(k, a, p);
    }
}

/// The parent of `i` or of an ancestor of `i` is an ancestor of `i`.
pub proof fn lemma_above_step(k: int, c: int, i: int)
    requires
        k >= 1,
        c > 0,
        c == i || is_above(k, c, i),
    ensures
        is_above(k, parent_of(k, c), i),
    decreases i,
{
    lemma_parent_below(k, i);
    if c != i {
        let p = parent_of(k, i);
        if p != c {
            lemma_above_step(k, c, p);
        }
    }
}

} // verus!
