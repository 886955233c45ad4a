//! Laws that relate the operations of a tree to each other.

use crate::stakes::{stake_in, with_stake};
use crate::layout::child_of;
use crate::sums::{child_sum, weight_at};
use crate::tree::{more_after, page, scan_children, SortitionSumTree};
use vstd::prelude::*;

verus! {

/// After an identifier is given a nonzero stake, its stake reads back as that
/// value.
pub proof fn law_set_then_stake(m: Map<u128, u128>, id: u128, value: u128)
    requires
        value != 0,
    ensures
        stake_in(with_stake(m, id, value), id) == value,
{
}

/// After an identifier is given stake zero, its stake reads back as zero.
pub proof fn law_remove_then_stake(m: Map<u128, u128>, id: u128)
    ensures
        stake_in(with_stake(m, id, 0), id) == 0,
{
}

/// Removing an active identifier frees its leaf, and the next insertion of an
/// inactive identifier reuses that very leaf: the node array does not grow.
pub proof fn law_removal_frees_slot(
    t0: SortitionSumTree,
    t1: SortitionSumTree,
    t2: SortitionSumTree,
    id: u128,
    other: u128,
    value: u128,
)
    requires
        t0@.contains_key(id),
        SortitionSumTree::set_outcome(t0, t1, 0, id),
        !t1@.contains_key(other),
        value != 0,
        SortitionSumTree::set_outcome(t1, t2, value, other),
    ensures
        stake_in(t1@, id) == 0,
        t1.node_values().len() == t0.node_values().len(),
        t2.node_values().len() == t0.node_values().len(),
        t2.slot_map()[other] == t0.slot_map()[id],
        stake_in(t2@, other) == value,
{
}

/// The sum of the page sizes in `counts`.
pub open spec fn count_sum(counts: Seq<int>) -> int
    decreases counts.len(),
{
    if counts.len() == 0 {
        0
    } else {
        counts[0] + count_sum(counts.drop_first())
    }
}

/// The concatenation of the pages asked for with the sizes in `counts`, each
/// starting where the one before ended, for as long as the one before
/// reported that leaves remain.
pub open spec fn pages_by(l: Seq<u128>, cursor: int, counts: Seq<int>) -> Seq<u128>
    decreases counts.len(),
{
    if counts.len() == 0 {
        Seq::empty()
    } else if more_after(l, cursor, counts[0]) {
        page(l, cursor, counts[0]) + pages_by(
            l,
            cursor + page(l, cursor, counts[0]).len(),
            counts.drop_first(),
        )
    } else {
        page(l, cursor, counts[0])
    }
}

/// Paging through the leaves from `cursor` with positive page sizes of any
/// kind, advancing by the number of leaves each page returned, yields every
/// leaf from `cursor` on exactly once, in index order, once the sizes reach
/// the end; the last page is the only one that reports no leaves remaining.
pub proof fn law_pages_cover_leaves(l: Seq<u128>, cursor: int, counts: Seq<int>)
    requires
        0 <= cursor <= l.len(),
        forall|i: int| 0 <= i < counts.len() ==> #[trigger] counts[i] > 0,
        cursor + count_sum(counts) >= l.len(),
    ensures
        pages_by(l, cursor, counts) == l.subrange(cursor, l.len() as int),
    decreases counts.len(),
{
    if counts.len() == 0 {
        assert(l.subrange(cursor, l.len() as int) =~= Seq::<u128>::empty());
    } else {
        let n = counts[0];
        assert(counts[0] > 0);
        if more_after(l, cursor, n) {
            let rest = counts.drop_first();
            assert forall|i: int| 0 <= i < rest.len() implies #[trigger] rest[i] > 0 by {
                assert(rest[i] == counts[i + 1]);
            }
            law_pages_cover_leaves(l, cursor + n, rest);
            assert(page(l, cursor, n) + l.subrange(cursor + n, l.len() as int) =~= l.subrange(
                cursor,
                l.len() as int,
            ));
        } else {
            assert(page(l, cursor, n) =~= l.subrange(cursor, l.len() as int));
        }
    }
}

/// A page reports no leaves remaining exactly when it reaches the last leaf.
pub proof fn law_last_page(l: Seq<u128>, cursor: int, count: int)
    requires
        0 <= cursor <= l.len(),
        count >= 0,
    ensures
        !more_after(l, cursor, count) <==> page(l, cursor, count) == l.subrange(
            cursor,
            l.len() as int,
        ),
{
    if more_after(l, cursor, count) {
        assert(page(l, cursor, count).len() < l.subrange(cursor, l.len() as int).len());
    } else {
        assert(page(l, cursor, count) =~= l.subrange(cursor, l.len() as int));
    }
}

/// Pages of any positive sizes from cursor zero cover all leaves of a tree.
pub proof fn law_pages_cover_tree(t: SortitionSumTree, counts: Seq<int>)
    requires
        forall|i: int| 0 <= i < counts.len() ==> #[trigger] counts[i] > 0,
        count_sum(counts) >= t.leaves().len(),
    ensures
        pages_by(t.leaves(), 0, counts) == t.leaves(),
{
    law_pages_cover_leaves(t.leaves(), 0, counts);
    assert(t.leaves().subrange(0, t.leaves().len() as int) =~= t.leaves());
}

} // verus!

verus! {

proof fn lemma_child_sum_mono(s: Seq<u128>, k: int, i: int, a: int, b: int)
    requires
        0 <= a <= b,
    ensures
        child_sum(s, k, i, a) <= child_sum(s, k, i, b),
    decreases b,
{
    if a < b {
        lemma_child_sum_mono(s, k, i, a, b - 1);
    }
}

proof fn lemma_scan_from(s: Seq<u128>, k: int, i: int, r: int, j: int, t: int)
    requires
        1 <= t <= j <= k,
        child_sum(s, k, i, j - 1) <= r < child_sum(s, k, i, j),
    ensures
        scan_children(s, k, i, r - child_sum(s, k, i, t - 1), t) == (
            child_of(k, i, j),
            r - child_sum(s, k, i, j - 1),
        ),
    decreases j - t,
{
    if t < j {
        lemma_child_sum_mono(s, k, i, t, j - 1);
        lemma_scan_from(s, k, i, r, j, t + 1);
    }
}

/// The children of a node stand for consecutive intervals of their weights,
/// in index order: a draw that reaches node `i` with `r` left moves to its
/// `j`-th child exactly for the `r` in `[sum of the first j - 1 children,
/// sum of the first j)`, an interval as wide as that child's weight, and
/// goes on with `r` taken relative to the start of that interval.
pub proof fn law_children_are_intervals(s: Seq<u128>, k: int, i: int, r: int, j: int)
    requires
        1 <= j <= k,
        child_sum(s, k, i, j - 1) <= r < child_sum(s, k, i, j),
    ensures
        scan_children(s, k, i, r, 1) == (child_of(k, i, j), r - child_sum(s, k, i, j - 1)),
        child_sum(s, k, i, j) - child_sum(s, k, i, j - 1) == weight_at(s, child_of(k, i, j)),
{
    lemma_scan_from(s, k, i, r, j, 1);
}

} // verus!
