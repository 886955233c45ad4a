//! One sortition sum tree: a k-ary tree of stakes in an array, whose leaves
//! hold the stakes of active identifiers and whose inner nodes hold the sums
//! below them.

use crate::layout::{
    child_of, has_child, is_above, is_leaf, lemma_above_before, lemma_above_step, lemma_appended_leaf, lemma_child_above, lemma_child_iff_parent,
    lemma_first_child, lemma_first_leaf_bound, lemma_parent_below, lemma_second_child, parent,
    parent_of,
};
use crate::slots::SlotMap;
use crate::stakes::{lemma_total_with_stake, stake_in, stake_total, with_stake};
use crate::sums::{
    child_sum, lemma_below_root, lemma_child_sum_nonneg, lemma_child_sum_tail,
    lemma_child_sum_update, lemma_leaf_overwrite, lemma_push_sums, lemma_split_sums, sum_holds,
    weight_at,
};
use vstd::prelude::*;

verus! {

/// A tree with branching factor `k`, its node array, the stack of freed
/// leaves and the bijection between active identifiers and their leaves.
pub struct SortitionSumTree {
    k: usize,
    stack: Vec<usize>,
    nodes: Vec<u128>,
    slots: SlotMap,
}

/// A leaf position other than the root.
pub open spec fn slot_ok(s: Seq<u128>, k: int, x: int) -> bool {
    1 <= x < s.len() && is_leaf(k, s.len() as int, x)
}

/// Scanning the children of node `i` from the `j`-th on with `r` left: the
/// first child whose weight exceeds what is left, and what is left then.
pub open spec fn scan_children(s: Seq<u128>, k: int, i: int, r: int, j: int) -> (int, int)
    decreases k + 1 - j,
{
    if j < 1 || j > k {
        (i, r)
    } else if r >= weight_at(s, child_of(k, i, j)) {
        scan_children(s, k, i, r - weight_at(s, child_of(k, i, j)), j + 1)
    } else {
        (child_of(k, i, j), r)
    }
}

/// The leaf reached from node `i` with `r` left: children stand for
/// consecutive intervals of their weights, and the descent follows the one
/// that holds `r`.
pub open spec fn descend(s: Seq<u128>, k: int, i: int, r: int) -> int
    decreases s.len() - i,
{
    if 0 <= i < s.len() && !is_leaf(k, s.len() as int, i) {
        let (c, r2) = scan_children(s, k, i, r, 1);
        if i < c < s.len() {
            descend(s, k, c, r2)
        } else {
            i
        }
    } else {
        i
    }
}

/// The index of the first leaf: the smallest `i` with `k * i + 1 >= len`.
pub open spec fn first_leaf(k: int, len: int) -> int {
    if len <= 1 {
        0
    } else {
        (len - 2) / k + 1
    }
}

/// The page of `count` items of `l` that starts at `cursor`.
pub open spec fn page(l: Seq<u128>, cursor: int, count: int) -> Seq<u128> {
    l.subrange(
        if cursor < l.len() { cursor } else { l.len() as int },
        if cursor + count < l.len() { cursor + count } else { l.len() as int },
    )
}

/// Whether items of `l` remain after the page of `count` at `cursor`.
pub open spec fn more_after(l: Seq<u128>, cursor: int, count: int) -> bool {
    cursor + count < l.len()
}

impl View for SortitionSumTree {
    type V = Map<u128, u128>;

    /// The stake of each active identifier.
    closed spec fn view(&self) -> Map<u128, u128> {
        self.slots@.map_values(|x: usize| self.nodes@[x as int])
    }
}

impl SortitionSumTree {
    /// The branching factor.
    pub closed spec fn branching(&self) -> nat {
        self.k as nat
    }

    /// The node array.
    pub closed spec fn node_values(&self) -> Seq<u128> {
        self.nodes@
    }

    /// The freed leaves, the last one on top.
    pub closed spec fn free_slots(&self) -> Seq<usize> {
        self.stack@
    }

    /// The weight at the root.
    pub open spec fn total(&self) -> int {
        self.node_values()[0] as int
    }

    /// Everything that holds of a tree but the sums.
    pub closed spec fn shape_ok(&self) -> bool {
        let s = self.nodes@;
        let k = self.k as int;
        &&& k >= 2
        &&& s.len() >= 1
        &&& self.slots.wf()
        &&& forall|id: u128| #[trigger]
            self.slots@.contains_key(id) ==> slot_ok(s, k, self.slots@[id] as int) && s[self.slots@[id] as int] > 0
        &&& forall|x: usize| #[trigger]
            self.slots.ids().contains_key(x) ==> slot_ok(s, k, x as int)
        &&& forall|t: int|
            0 <= t < self.stack@.len() ==> slot_ok(s, k, #[trigger] self.stack@[t] as int)
                && s[self.stack@[t] as int] == 0 && !self.slots.ids().contains_key(self.stack@[t])
        &&& self.stack@.no_duplicates()
        &&& forall|x: usize|
            slot_ok(s, k, x as int) ==> #[trigger] self.slots.ids().contains_key(x)
                || self.stack@.contains(x)
    }

    /// A well-formed tree: every inner node holds the sum of its children, and
    /// the root holds the sum of all stakes.
    pub closed spec fn wf(&self) -> bool {
        &&& self.shape_ok()
        &&& forall|i: int| 0 <= i < self.nodes@.len() ==> #[trigger] sum_holds(self.nodes@, self.k as int, i)
        &&& self.nodes@[0] == stake_total(self@)
    }

    /// A tree whose node `cur` has changed by `d` while its ancestors have
    /// not been told yet.
    pub closed spec fn pending(&self, cur: int, d: int) -> bool {
        let s = self.nodes@;
        let k = self.k as int;
        &&& self.shape_ok()
        &&& 0 <= cur < s.len()
        &&& forall|i: int|
            0 <= i < s.len() && (cur == 0 || i != parent_of(k, cur)) ==> #[trigger] sum_holds(s, k, i)
        &&& cur != 0 ==> child_sum(s, k, parent_of(k, cur), k) == s[parent_of(k, cur)] + d
        &&& s[0] + (if cur != 0 { d } else { 0 }) == stake_total(self@)
        &&& stake_total(self@) <= u128::MAX
    }

    /// The stakes have the active identifiers as their finite domain.
    proof fn lemma_view_finite(&self)
        requires
            self.shape_ok(),
        ensures
            self@.dom().finite(),
            self@.dom() == self.slots@.dom(),
    {
        self.slots.lemma_inverse();
        assert(self@.dom() =~= self.slots@.dom());
    }

    /// A tree of a single node holds no stake.
    proof fn lemma_root_only_empty(&self)
        requires
            self.shape_ok(),
            self.nodes@.len() == 1,
        ensures
            self@ == Map::<u128, u128>::empty(),
            stake_total(self@) == 0,
    {
        self.lemma_view_finite();
        assert(self@.dom() =~= Set::<u128>::empty()) by {
            assert forall|id: u128| !self@.dom().contains(id) by {
                if self.slots@.contains_key(id) {
                    assert(slot_ok(self.nodes@, self.k as int, self.slots@[id] as int));
                }
            }
        }
        assert(self@ =~= Map::<u128, u128>::empty());
    }

    /// What `set(value, id)` makes of tree `t`: `id` gets the stake, a
    /// removed identifier's leaf goes on top of the free stack, and an
    /// insertion takes the top of that stack or else appends one or two nodes.
    pub open spec fn set_outcome(t: Self, n: Self, value: u128, id: u128) -> bool {
        let len = t.node_values().len() as int;
        let k = t.branching() as int;
        let top = t.free_slots().last();
        let p = parent_of(k, len);
        let split = len != 1 && (len - 1) % k == 0;
        &&& n@ == with_stake(t@, id, value)
        &&& n.branching() == t.branching()
        &&& stake_in(t@, id) == value ==> n == t
        &&& t@.contains_key(id) && value != 0 ==> n.node_values().len() == len && n.free_slots()
            == t.free_slots() && n.slot_map() == t.slot_map() && n.id_map() == t.id_map()
            && Self::keeps_leaves(t, n, t.slot_map()[id] as int)
        &&& t@.contains_key(id) && value == 0 ==> n.node_values().len() == len && n.free_slots()
            == t.free_slots().push(t.slot_map()[id]) && n.node_values()[t.slot_map()[id] as int] == 0
            && n.slot_map() == t.slot_map().remove(id) && n.id_map() == t.id_map().remove(
            t.slot_map()[id],
        ) && Self::keeps_leaves(t, n, t.slot_map()[id] as int)
        &&& !t@.contains_key(id) && value != 0 && t.free_slots().len() > 0 ==> n.node_values().len()
            == len && n.free_slots() == t.free_slots().drop_last() && n.slot_map()
            == t.slot_map().insert(id, top) && n.id_map() == t.id_map().insert(top, id)
            && Self::keeps_leaves(t, n, top as int)
        &&& !t@.contains_key(id) && value != 0 && t.free_slots().len() == 0 ==> n.free_slots().len()
            == 0 && n.node_values()[len] == value && Self::keeps_leaves(t, n, -1)
        &&& !t@.contains_key(id) && value != 0 && t.free_slots().len() == 0 && !split
            ==> n.node_values().len() == len + 1 && n.slot_map() == t.slot_map().insert(
            id,
            len as usize,
        ) && n.id_map() == t.id_map().insert(len as usize, id)
        &&& !t@.contains_key(id) && value != 0 && t.free_slots().len() == 0 && split
            ==> n.node_values().len() == len + 2 && n.node_values()[len + 1] == t.node_values()[p]
            && n.slot_map() == t.slot_map().insert(t.id_at(p), (len + 1) as usize).insert(
            id,
            len as usize,
        ) && n.id_map() == t.id_map().remove(p as usize).insert(
            (len + 1) as usize,
            t.id_at(p),
        ).insert(len as usize, id)
    }

    /// The leaf node of each active identifier.
    pub closed spec fn slot_map(&self) -> Map<u128, usize> {
        self.slots@
    }

    /// The active identifier of each bound leaf.
    pub closed spec fn id_map(&self) -> Map<usize, u128> {
        self.slots.ids()
    }

    /// Every node of `t` but `x` that is a leaf of `n` weighs the same in both.
    pub open spec fn keeps_leaves(t: Self, n: Self, x: int) -> bool {
        forall|i: int|
            0 <= i < t.node_values().len() && i != x && is_leaf(
                n.branching() as int,
                n.node_values().len() as int,
                i,
            ) ==> #[trigger] n.node_values()[i] == t.node_values()[i]
    }

    /// In a well-formed tree the root holds the sum of the stakes of all
    /// active identifiers.
    pub proof fn lemma_root_is_total(&self)
        requires
            self.wf(),
        ensures
            self.total() == stake_total(self@),
    {
    }

    /// What a well-formed tree guarantees: every inner node holds the sum of
    /// its children; the active identifiers and their leaves are in
    /// bijection, each leaf holding its identifier's positive stake; the
    /// free leaves are distinct, unbound and of weight zero; and every leaf
    /// but the root is bound or free.
    pub proof fn lemma_wf_facts(&self)
        requires
            self.wf(),
        ensures
            self.branching() >= 2,
            self.node_values().len() >= 1,
            self.total() == stake_total(self@),
            self@.dom().finite(),
            self@.dom() == self.slot_map().dom(),
            forall|i: int|
                0 <= i < self.node_values().len() ==> #[trigger] sum_holds(
                    self.node_values(),
                    self.branching() as int,
                    i,
                ),
            forall|id: u128| #[trigger]
                self@.contains_key(id) ==> self@[id] > 0 && self.node_values()[self.slot_map()[id] as int]
                    == self@[id] && self.id_map().contains_key(self.slot_map()[id])
                    && self.id_at(self.slot_map()[id] as int) == id && slot_ok(
                    self.node_values(),
                    self.branching() as int,
                    self.slot_map()[id] as int,
                ),
            forall|x: usize| #[trigger]
                self.id_map().contains_key(x) ==> self.slot_map().contains_key(self.id_map()[x])
                    && self.slot_map()[self.id_map()[x]] == x,
            forall|t: int|
                0 <= t < self.free_slots().len() ==> slot_ok(
                    self.node_values(),
                    self.branching() as int,
                    #[trigger] self.free_slots()[t] as int,
                ) && self.node_values()[self.free_slots()[t] as int] == 0 && !self.id_map().contains_key(
                    self.free_slots()[t],
                ),
            self.free_slots().no_duplicates(),
            forall|x: usize|
                slot_ok(self.node_values(), self.branching() as int, x as int)
                    ==> #[trigger] self.id_map().contains_key(x) || self.free_slots().contains(x),
    {
        self.lemma_view_finite();
        self.slots.lemma_inverse();
    }

    /// A well-formed tree is pending at any node with no change: the state in
    /// which `update_parents` may be called with a zero amount.
    pub proof fn lemma_wf_pending(&self, i: int)
        requires
            self.wf(),
            0 <= i < self.node_values().len(),
        ensures
            self.pending(i, 0),
    {
        if i != 0 {
            let k = self.k as int;
            lemma_parent_below(k, i);
            lemma_child_iff_parent(k, parent_of(k, i), i);
            assert(sum_holds(self.nodes@, k, parent_of(k, i)));
        }
    }

    /// A new tree with branching factor `k` and a root of weight zero.
    pub fn new(k: usize) -> (r: SortitionSumTree)
        requires
            k >= 2,
        ensures
            r.wf(),
            r@ == Map::<u128, u128>::empty(),
            r.branching() == k,
            r.node_values() == seq![0u128],
            r.free_slots() == Seq::<usize>::empty(),
            r.slot_map() == Map::<u128, usize>::empty(),
            r.id_map() == Map::<usize, u128>::empty(),
    {
        let mut nodes: Vec<u128> = Vec::new();
        nodes.push(0);
        let r = SortitionSumTree { k, stack: Vec::new(), nodes, slots: SlotMap::new() };
        proof {
            assert(r.nodes@ =~= seq![0u128]);
            r.lemma_root_only_empty();
            assert(sum_holds(r.nodes@, k as int, 0));
        }
        r
    }

    /// The weight at the root: the sum of all stakes.
    pub fn total_stake(&self) -> (r: u128)
        requires
            self.wf(),
        ensures
            r == self.total(),
            r == stake_total(self@),
    {
        self.nodes[0]
    }

    /// The stake of `id`, zero when it has none.
    pub fn stake_of(&self, id: u128) -> (r: u128)
        requires
            self.wf(),
        ensures
            r == stake_in(self@, id),
    {
        match self.slots.index_of(id) {
            Some(x) => {
                proof {
                    assert(slot_ok(self.nodes@, self.k as int, self.slots@[id] as int));
                }
                self.nodes[x]
            },
            None => 0,
        }
    }

    /// Adds (`plus_or_minus`) or subtracts `value` at every ancestor of node
    /// `tree_index`, up to and including the root, which restores the sums
    /// after that node changed by the same amount.
    pub fn update_parents(&mut self, tree_index: usize, plus_or_minus: bool, value: u128)
        requires
            old(self).pending(tree_index as int, if plus_or_minus { value as int } else { -value }),
        ensures
            final(self).wf(),
            final(self)@ == old(self)@,
            final(self).branching() == old(self).branching(),
            final(self).free_slots() == old(self).free_slots(),
            final(self).slot_map() == old(self).slot_map(),
            final(self).id_map() == old(self).id_map(),
            final(self).node_values().len() == old(self).node_values().len(),
            forall|x: int|
                is_leaf(old(self).branching() as int, old(self).node_values().len() as int, x)
                    && 0 <= x < old(self).node_values().len() ==> #[trigger] final(self).node_values()[x]
                    == old(self).node_values()[x],
            forall|x: int|
                0 <= x < old(self).node_values().len() ==> #[trigger] final(self).node_values()[x]
                    == old(self).node_values()[x] + if is_above(
                    old(self).branching() as int,
                    x,
                    tree_index as int,
                ) {
                    if plus_or_minus {
                        value as int
                    } else {
                        -value
                    }
                } else {
                    0
                },
            tree_index == 0 || value == 0 ==> final(self).node_values() == old(self).node_values(),
    {
        let ghost d: int = if plus_or_minus { value as int } else { -value };
        let ghost k = self.k as int;
        let ghost len = self.nodes@.len();
        let ghost s0 = self.nodes@;
        let mut cur = tree_index;
        while cur != 0
            invariant
                self.pending(cur as int, d),
                d == (if plus_or_minus { value as int } else { -value }),
                k == self.k,
                self.nodes@.len() == len,
                s0 == old(self).nodes@,
                self@ == old(self)@,
                len == s0.len(),
                self.stack@ == old(self).stack@,
                self.slots == old(self).slots,
                forall|x: int| is_leaf(k, len as int, x) && 0 <= x < len ==> #[trigger] self.nodes@[x] == s0[x],
                cur == tree_index || is_above(k, cur as int, tree_index as int),
                forall|x: int|
                    0 <= x < len ==> #[trigger] self.nodes@[x] == s0[x] + if is_above(k, x, tree_index as int)
                        && !is_above(k, x, cur as int) {
                        d
                    } else {
                        0
                    },
            decreases cur,
        {
            let p = parent(self.k, cur);
            let ghost s = self.nodes@;
            proof {
                lemma_child_iff_parent(k, p as int, cur as int);
                lemma_child_sum_nonneg(s, k, p as int, k);
                assert forall|i: int| 0 <= i < p implies #[trigger] sum_holds(s, k, i) by {
                    lemma_parent_below(k, cur as int);
                }
                lemma_below_root(s, k, p as int);
            }
            let w = self.nodes[p];
            let nw = if plus_or_minus { w + value } else { w - value };
            self.nodes.set(p, nw);
            proof {
                let s2 = self.nodes@;
                assert(s2 == s.update(p as int, nw));
                assert forall|i: int|
                    0 <= i < len && (p == 0 || i != parent_of(k, p as int)) implies #[trigger] sum_holds(s2, k, i) by {
                    lemma_child_sum_update(s, k, i, k, p as int, nw);
                    if p != 0 {
                        lemma_child_iff_parent(k, i, p as int);
                    }
                    if i != p {
                        assert(sum_holds(s, k, i));
                    }
                }
                if p != 0 {
                    let q = parent_of(k, p as int);
                    lemma_parent_below(k, p as int);
                    lemma_child_iff_parent(k, q, p as int);
                    lemma_child_sum_update(s, k, q, k, p as int, nw);
                    assert(sum_holds(s, k, q));
                }
                assert forall|id: u128| #[trigger] self.slots@.contains_key(id) implies self.nodes@[self.slots@[id] as int] == s0[self.slots@[id] as int] by {
                    assert(slot_ok(s, k, self.slots@[id] as int));
                }
                assert(self@ =~= old(self)@);
                lemma_above_step(k, cur as int, tree_index as int);
                assert forall|x: int| 0 <= x < len implies #[trigger] s2[x] == s0[x] + if is_above(k, x, tree_index as int)
                    && !is_above(k, x, p as int) {
                    d
                } else {
                    0
                } by {
                    assert(s[x] == s0[x] + if is_above(k, x, tree_index as int) && !is_above(k, x, cur as int) {
                        d
                    } else {
                        0
                    });
                    if x == p {
                        if is_above(k, p as int, p as int) {
                            lemma_above_before(k, p as int, p as int);
                        }
                    }
                }
                assert forall|t: int| 0 <= t < self.stack@.len() implies #[trigger] s2[self.stack@[t] as int] == 0 by {
                    assert(slot_ok(s, k, self.stack@[t] as int));
                }
                assert(self.shape_ok());
                if p != 0 {
                    let q = parent_of(k, p as int);
                    assert(child_sum(s2, k, q, k) == s2[q] + d);
                }
                assert(s2[0] + (if p != 0 { d } else { 0 }) == stake_total(self@));
            }
            cur = p;
        }
        proof {
            if tree_index == 0 || value == 0 {
                assert(self.nodes@ =~= s0);
            }
        }
    }

    /// Gives `id` the stake `value`: inserts, updates or, for zero, removes it.
    /// A removed identifier's leaf goes on the free stack; an insertion takes
    /// the top of that stack, or appends a leaf when it is empty.
    pub fn set(&mut self, value: u128, id: u128)
        requires
            old(self).wf(),
            stake_total(with_stake(old(self)@, id, value)) <= u128::MAX,
            old(self).node_values().len() + 2 <= usize::MAX,
        ensures
            final(self).wf(),
            Self::set_outcome(*old(self), *final(self), value, id),
    {
        let ghost k = self.k as int;
        let ghost s = self.nodes@;
        let ghost m = self@;
        proof {
            self.lemma_view_finite();
            lemma_total_with_stake(m, id, value);
            self.slots.lemma_inverse();
        }
        match self.slots.index_of(id) {
            Some(x) => {
                proof {
                    assert(slot_ok(s, k, x as int));
                    lemma_parent_below(k, x as int);
                }
                let w = self.nodes[x];
                if value == 0 {
                    self.nodes.set(x, 0);
                    self.stack.push(x);
                    self.slots.unbind(id);
                    proof {
                        lemma_leaf_overwrite(s, k, x as int, 0);
                        self.lemma_remove_shape(old(self), x, id);
                        assert(self@ =~= m.remove(id));
                    }
                    let ghost mid = self.nodes@;
                    self.update_parents(x, false, w);
                    proof {
                        assert forall|i: int| 0 <= i < s.len() && i != x && is_leaf(k, s.len() as int, i) implies #[trigger] self.nodes@[i] == s[i] by {
                            assert(mid[i] == s[i]);
                        }
                        assert(self.nodes@[x as int] == mid[x as int]);
                        assert(m[id] == w);
                        let (t, n) = (*old(self), *self);
                        assert(n@ == with_stake(t@, id, value));
                        assert(stake_in(t@, id) != value);
                        assert(n.node_values().len() == t.node_values().len());
                        assert(n.free_slots() == t.free_slots().push(t.slot_map()[id]));
                        assert(n.slot_map() == t.slot_map().remove(id));
                        assert(n.id_map() == t.id_map().remove(t.slot_map()[id]));
                        assert(Self::keeps_leaves(t, n, t.slot_map()[id] as int));
                        assert(Self::set_outcome(*old(self), *self, value, id));
                    }
                } else if value != w {
                    let plus_or_minus = w <= value;
                    let amount = if plus_or_minus { value - w } else { w - value };
                    self.nodes.set(x, value);
                    proof {
                        lemma_leaf_overwrite(s, k, x as int, value);
                        assert forall|t: int| 0 <= t < self.stack@.len() implies #[trigger] self.nodes@[self.stack@[t] as int] == 0 by {
                            assert(slot_ok(s, k, self.stack@[t] as int));
                        }
                        assert forall|i: u128| #[trigger] self.slots@.contains_key(i) implies self.nodes@[self.slots@[i] as int] > 0 by {
                            assert(slot_ok(s, k, self.slots@[i] as int));
                        }
                        assert(self.shape_ok());
                        assert(self@ =~= m.insert(id, value));
                    }
                    let ghost mid = self.nodes@;
                    self.update_parents(x, plus_or_minus, amount);
                    proof {
                        assert forall|i: int| 0 <= i < s.len() && i != x && is_leaf(k, s.len() as int, i) implies #[trigger] self.nodes@[i] == s[i] by {
                            assert(mid[i] == s[i]);
                        }
                        assert(m[id] == w);
                        assert(Self::set_outcome(*old(self), *self, value, id));
                    }
                } else {
                    proof {
                        assert(m.insert(id, value) =~= m);
                        assert(Self::set_outcome(*old(self), *self, value, id));
                    }
                }
            },
            None => {
                if value != 0 {
                    let x: usize;
                    let ghost mut split: bool = false;
                    let ghost mut p: usize = 0;
                    let ghost mut parent_id: u128 = 0;
                    if self.stack.len() == 0 {
                        x = self.nodes.len();
                        self.nodes.push(value);
                        if x != 1 && (x - 1) % self.k == 0 {
                            let q = parent(self.k, x);
                            proof {
                                lemma_first_child(k, x as int);
                                lemma_parent_below(k, x as int);
                                assert(x as int == k * (q as int) + 1);
                                if q == 0 {
                                    assert(k * 0 == 0);
                                }
                                assert(q >= 1 && q < x);
                                assert(is_leaf(k, s.len() as int, q as int));
                                assert(slot_ok(s, k, q as int));
                            }
                            let pid = self.slots.id_at(q).unwrap();
                            let pw = self.nodes[q];
                            self.nodes.push(pw);
                            self.slots.unbind(pid);
                            self.slots.bind(pid, x + 1);
                            proof {
                                split = true;
                                p = q;
                                parent_id = pid;
                                old(self).slots.lemma_inverse();
                                assert(self.slots@ =~= old(self).slots@.insert(pid, (x + 1) as usize));
                            }
                        }
                    } else {
                        x = self.stack.pop().unwrap();
                        proof {
                            assert(x == old(self).stack@[old(self).stack@.len() - 1]);
                            assert(slot_ok(s, k, x as int));
                        }
                        self.nodes.set(x, value);
                    }
                    self.slots.bind(id, x);
                    proof {
                        if old(self).stack@.len() > 0 {
                            self.lemma_pop_shape(old(self), x, id, value);
                        } else if split {
                            self.lemma_split_shape(old(self), p, parent_id, id, value);
                        } else {
                            self.lemma_append_shape(old(self), id, value);
                        }
                    }
                    let ghost mid = self.nodes@;
                    self.update_parents(x, true, value);
                    proof {
                        let n = self.nodes@;
                        assert forall|i: int| 0 <= i < s.len() && i != x && is_leaf(k, n.len() as int, i) implies #[trigger] n[i] == s[i] by {
                            assert(mid[i] == s[i]);
                        }
                        lemma_appended_leaf(k, s.len() as int);
                        assert(n[x as int] == mid[x as int]);
                        if n.len() == s.len() + 2 {
                            lemma_appended_leaf(k, s.len() as int + 1);
                            assert(n[s.len() as int + 1] == mid[s.len() as int + 1]);
                        }
                        assert(Self::set_outcome(*old(self), *self, value, id));
                    }
                } else {
                    proof {
                        assert(m.remove(id) =~= m);
                        assert(Self::set_outcome(*old(self), *self, value, id));
                    }
                }
            },
        }
    }

    /// Zeroing an identifier's leaf and pushing it on the free stack leaves
    /// the tree pending at that leaf.
    proof fn lemma_remove_shape(&self, old: &Self, x: usize, id: u128)
        requires
            old.wf(),
            self.k == old.k,
            self.slots.wf(),
            old.slots@.contains_key(id),
            old.slots@[id] == x,
            self.nodes@ == old.nodes@.update(x as int, 0),
            self.stack@ == old.stack@.push(x),
            self.slots@ == old.slots@.remove(id),
            self.slots.ids() == old.slots.ids().remove(x),
        ensures
            self.shape_ok(),
            self@ == old@.remove(id),
            self.pending(x as int, -(old@[id] as int)),
    {
        let k = self.k as int;
        let s = old.nodes@;
        old.slots.lemma_inverse();
        old.lemma_view_finite();
        assert(slot_ok(s, k, x as int));
        assert forall|i: u128| #[trigger] self.slots@.contains_key(i) implies slot_ok(self.nodes@, k, self.slots@[i] as int) && self.nodes@[self.slots@[i] as int] > 0 by {
            assert(old.slots@.contains_key(i));
        }
        assert forall|t: int| 0 <= t < self.stack@.len() implies slot_ok(self.nodes@, k, #[trigger] self.stack@[t] as int)
            && self.nodes@[self.stack@[t] as int] == 0 && !self.slots.ids().contains_key(self.stack@[t]) by {
            if t < old.stack@.len() {
                assert(old.stack@[t] == self.stack@[t]);
            }
        }
        assert(!old.stack@.contains(x)) by {
            if old.stack@.contains(x) {
                let t = choose|t: int| 0 <= t < old.stack@.len() && old.stack@[t] == x;
                assert(slot_ok(s, k, old.stack@[t] as int));
            }
        }
        assert forall|y: usize| slot_ok(self.nodes@, k, y as int) implies #[trigger] self.slots.ids().contains_key(y)
            || self.stack@.contains(y) by {
            if y == x {
                assert(self.stack@[self.stack@.len() - 1] == x);
            } else if old.stack@.contains(y) {
                let t = choose|t: int| 0 <= t < old.stack@.len() && old.stack@[t] == y;
                assert(self.stack@[t] == y);
            }
        }
        assert(self.shape_ok());
        assert(self@ =~= old@.remove(id));
        lemma_leaf_overwrite(s, k, x as int, 0);
        lemma_total_with_stake(old@, id, 0);
    }

    /// Filling the leaf on top of the free stack leaves the tree pending at
    /// that leaf.
    proof fn lemma_pop_shape(&self, old: &Self, x: usize, id: u128, v: u128)
        requires
            old.wf(),
            v > 0,
            self.k == old.k,
            self.slots.wf(),
            !old.slots@.contains_key(id),
            old.stack@.len() > 0,
            x == old.stack@[old.stack@.len() - 1],
            self.stack@ == old.stack@.drop_last(),
            self.nodes@ == old.nodes@.update(x as int, v),
            self.slots@ == old.slots@.insert(id, x),
            self.slots.ids() == old.slots.ids().insert(x, id),
            stake_total(old@.insert(id, v)) <= u128::MAX,
        ensures
            self@ == old@.insert(id, v),
            self.pending(x as int, v as int),
    {
        let k = self.k as int;
        let s = old.nodes@;
        old.slots.lemma_inverse();
        old.lemma_view_finite();
        let top = old.stack@.len() - 1;
        assert(slot_ok(s, k, old.stack@[top] as int));
        assert forall|i: u128| #[trigger] self.slots@.contains_key(i) implies slot_ok(self.nodes@, k, self.slots@[i] as int) && self.nodes@[self.slots@[i] as int] > 0 by {
            if i != id {
                assert(old.slots@.contains_key(i));
            }
        }
        assert forall|t: int| 0 <= t < self.stack@.len() implies slot_ok(self.nodes@, k, #[trigger] self.stack@[t] as int)
            && self.nodes@[self.stack@[t] as int] == 0 && !self.slots.ids().contains_key(self.stack@[t]) by {
            assert(old.stack@[t] == self.stack@[t]);
            assert(old.stack@[t] != old.stack@[top]);
        }
        assert forall|y: usize| slot_ok(self.nodes@, k, y as int) implies #[trigger] self.slots.ids().contains_key(y)
            || self.stack@.contains(y) by {
            if y != x && old.stack@.contains(y) {
                let t = choose|t: int| 0 <= t < old.stack@.len() && old.stack@[t] == y;
                assert(self.stack@[t] == y);
            }
        }
        assert(self.shape_ok());
        assert(self@ =~= old@.insert(id, v));
        lemma_leaf_overwrite(s, k, x as int, v);
        lemma_total_with_stake(old@, id, v);
    }

    /// Appending a leaf that is no first child leaves the tree pending at it.
    proof fn lemma_append_shape(&self, old: &Self, id: u128, v: u128)
        requires
            old.wf(),
            v > 0,
            self.k == old.k,
            self.slots.wf(),
            !old.slots@.contains_key(id),
            old.stack@.len() == 0,
            old.nodes@.len() + 2 <= usize::MAX,
            self.stack@ == old.stack@,
            !(old.nodes@.len() != 1 && (old.nodes@.len() - 1) % (old.k as int) == 0),
            self.nodes@ == old.nodes@.push(v),
            self.slots@ == old.slots@.insert(id, old.nodes@.len() as usize),
            self.slots.ids() == old.slots.ids().insert(old.nodes@.len() as usize, id),
            stake_total(old@.insert(id, v)) <= u128::MAX,
        ensures
            self@ == old@.insert(id, v),
            self.pending(old.nodes@.len() as int, v as int),
    {
        let k = self.k as int;
        let s = old.nodes@;
        let l = s.len() as int;
        old.slots.lemma_inverse();
        old.lemma_view_finite();
        lemma_first_child(k, l);
        lemma_appended_leaf(k, l);
        if l == 1 {
            old.lemma_root_only_empty();
        }
        assert forall|y: int| slot_ok(s, k, y) implies slot_ok(self.nodes@, k, y) by {
            if k * y + 1 == l {
                lemma_parent_below(k, l);
            }
        }
        assert forall|i: u128| #[trigger] self.slots@.contains_key(i) implies slot_ok(self.nodes@, k, self.slots@[i] as int) && self.nodes@[self.slots@[i] as int] > 0 by {
            if i != id {
                assert(old.slots@.contains_key(i));
            }
        }
        assert forall|x: usize| #[trigger] self.slots.ids().contains_key(x) implies slot_ok(self.nodes@, k, x as int) by {
            if x != l {
                assert(old.slots.ids().contains_key(x));
            }
        }
        assert forall|y: usize| slot_ok(self.nodes@, k, y as int) implies #[trigger] self.slots.ids().contains_key(y)
            || self.stack@.contains(y) by {
            if y != l {
                assert(slot_ok(s, k, y as int));
                assert(old.slots.ids().contains_key(y));
            }
        }
        assert(self.shape_ok());
        assert(self@ =~= old@.insert(id, v));
        lemma_push_sums(s, k, v);
        lemma_total_with_stake(old@, id, v);
    }

    /// Appending a first child and moving its parent's identifier to the
    /// node after it leaves the tree pending at the first child.
    proof fn lemma_split_shape(&self, old: &Self, p: usize, pid: u128, id: u128, v: u128)
        requires
            old.wf(),
            v > 0,
            self.k == old.k,
            self.slots.wf(),
            !old.slots@.contains_key(id),
            old.stack@.len() == 0,
            old.nodes@.len() + 2 <= usize::MAX,
            self.stack@ == old.stack@,
            p >= 1,
            old.nodes@.len() == (old.k as int) * p + 1,
            old.slots.ids().contains_key(p),
            old.slots.ids()[p] == pid,
            self.nodes@ == old.nodes@.push(v).push(old.nodes@[p as int]),
            self.slots@ == old.slots@.remove(pid).insert(pid, (old.nodes@.len() + 1) as usize).insert(
                id,
                old.nodes@.len() as usize,
            ),
            self.slots.ids() == old.slots.ids().remove(p).insert(
                (old.nodes@.len() + 1) as usize,
                pid,
            ).insert(old.nodes@.len() as usize, id),
            stake_total(old@.insert(id, v)) <= u128::MAX,
        ensures
            self@ == old@.insert(id, v),
            self.pending(old.nodes@.len() as int, v as int),
    {
        let k = self.k as int;
        let s = old.nodes@;
        let l = s.len() as int;
        let s3 = self.nodes@;
        old.slots.lemma_inverse();
        old.lemma_view_finite();
        lemma_appended_leaf(k, l);
        lemma_appended_leaf(k, l + 1);
        lemma_child_above(k, p as int, 1);
        assert forall|y: int| slot_ok(s, k, y) && y != p implies slot_ok(s3, k, y) by {
            lemma_second_child(k, p as int, y);
            if k * y + 1 == l {
                assert(y == p) by (nonlinear_arith)
                    requires
                        k * y + 1 == k * p + 1,
                        k >= 2,
                ;
            }
        }
        assert forall|i: u128| #[trigger] self.slots@.contains_key(i) implies slot_ok(s3, k, self.slots@[i] as int) && s3[self.slots@[i] as int] > 0 by {
            if i != id && i != pid {
                assert(old.slots@.contains_key(i));
                assert(old.slots.ids().contains_key(old.slots@[i]));
            }
            if i == pid {
                assert(old.slots@.contains_key(pid));
            }
        }
        assert forall|x: usize| #[trigger] self.slots.ids().contains_key(x) implies slot_ok(s3, k, x as int) by {
            if x != l && x != l + 1 {
                assert(old.slots.ids().contains_key(x));
            }
        }
        assert forall|y: usize| slot_ok(s3, k, y as int) implies #[trigger] self.slots.ids().contains_key(y)
            || self.stack@.contains(y) by {
            if y != l && y != l + 1 {
                assert(y < l);
                if y == p {
                    assert(!is_leaf(k, s3.len() as int, p as int));
                }
                assert(slot_ok(s, k, y as int));
                assert(old.slots.ids().contains_key(y));
            }
        }
        assert(self.shape_ok());
        assert forall|i: u128| #[trigger] self@.contains_key(i) <==> old@.insert(id, v).contains_key(i) by {}
        assert forall|i: u128| #[trigger] self@.contains_key(i) implies self@[i] == old@.insert(id, v)[i] by {
            if i != id && i != pid {
                assert(old.slots@.contains_key(i));
                assert(old.slots@[i] != p);
                assert(slot_ok(s, k, old.slots@[i] as int));
            }
        }
        assert(self@ =~= old@.insert(id, v));
        lemma_split_sums(s, k, p as int, v);
        lemma_child_iff_parent(k, p as int, l);
        lemma_total_with_stake(old@, id, v);
    }

    /// The identifier bound to leaf `x`.
    pub open spec fn id_at(&self, x: int) -> u128 {
        self.id_map()[x as usize]
    }

    /// The identifier that `drawn_number` selects in a tree of positive
    /// weight.
    pub open spec fn drawn(&self, drawn_number: u128) -> u128 {
        self.id_at(
            descend(
                self.node_values(),
                self.branching() as int,
                0,
                drawn_number as int % self.total(),
            ),
        )
    }

    /// The leaf weights from the first leaf on, in index order. A tree that
    /// is only a root has one leaf, the root itself.
    pub open spec fn leaves(&self) -> Seq<u128> {
        self.node_values().subrange(
            first_leaf(self.branching() as int, self.node_values().len() as int),
            self.node_values().len() as int,
        )
    }

    /// Draws the identifier whose interval holds `drawn_number` modulo the
    /// total weight; `None` when the total weight is zero.
    pub fn draw(&self, drawn_number: u128) -> (r: Option<u128>)
        requires
            self.wf(),
        ensures
            self.total() == 0 ==> r.is_none(),
            self.total() != 0 ==> r == Some(self.drawn(drawn_number)),
            r matches Some(id) ==> self@.contains_key(id) && self@[id] > 0,
    {
        let total = self.nodes[0];
        if total == 0 {
            return None;
        }
        let ghost s = self.nodes@;
        let ghost k = self.k as int;
        let ghost r0 = drawn_number as int % total as int;
        let len = self.nodes.len();
        let mut i: usize = 0;
        let mut rem: u128 = drawn_number % total;
        while has_child(self.k, i, len)
            invariant
                self.wf(),
                s == self.nodes@,
                k == self.k,
                len == s.len(),
                i < len,
                rem < s[i as int],
                descend(s, k, 0, r0) == descend(s, k, i as int, rem as int),
            decreases len - i,
        {
            let ghost rem_i = rem as int;
            let ghost i0 = i as int;
            proof {
                assert(sum_holds(s, k, i0));
            }
            let mut j: usize = 1;
            loop
                invariant_except_break
                    i0 == i,
                invariant
                    self.wf(),
                    s == self.nodes@,
                    k == self.k,
                    len == s.len(),
                    i < len,
                    !is_leaf(k, len as int, i0),
                    1 <= j <= k,
                    rem_i == rem + child_sum(s, k, i0, j - 1),
                    rem_i < child_sum(s, k, i0, k),
                    scan_children(s, k, i0, rem_i, 1) == scan_children(s, k, i0, rem as int, j as int),
                ensures
                    i0 < i < len,
                    rem < s[i as int],
                    scan_children(s, k, i0, rem_i, 1) == (i as int, rem as int),
                decreases k - j,
            {
                proof {
                    lemma_child_sum_nonneg(s, k, i0, j - 1);
                    if child_of(k, i0, j as int) >= len {
                        lemma_child_sum_tail(s, k, i0, k, j as int);
                    }
                    lemma_child_above(k, i0, j as int);
                }
                let c = self.k * i + j;
                let w = self.nodes[c];
                if rem >= w {
                    rem = rem - w;
                    proof {
                        if j as int == k {
                            lemma_child_sum_nonneg(s, k, i0, k);
                        }
                    }
                    j = j + 1;
                } else {
                    i = c;
                    break;
                }
            }
        }
        proof {
            if i == 0 {
                assert(k * 0 == 0);
                self.lemma_root_only_empty();
            }
            assert(slot_ok(s, k, i as int));
            if !self.slots.ids().contains_key(i) {
                let t = choose|t: int| 0 <= t < self.stack@.len() && self.stack@[t] == i;
                assert(slot_ok(s, k, self.stack@[t] as int));
            }
            self.slots.lemma_inverse();
        }
        Some(self.slots.id_at(i).unwrap())
    }

    /// Up to `count` leaf weights from the `cursor`-th leaf on: the index of
    /// the first leaf, the page, and whether leaves remain after it.
    pub fn query_leaves(&self, cursor: usize, count: usize) -> (r: (usize, Vec<u128>, bool))
        requires
            self.wf(),
        ensures
            r.0 == first_leaf(self.branching() as int, self.node_values().len() as int),
            r.1@ == page(self.leaves(), cursor as int, count as int),
            r.2 == more_after(self.leaves(), cursor as int, count as int),
    {
        let len = self.nodes.len();
        let start: usize = if len == 1 { 0 } else { (len - 2) / self.k + 1 };
        proof {
            lemma_first_leaf_bound(self.k as int, len as int);
        }
        let avail = len - start;
        let lo: usize = if cursor < avail { start + cursor } else { len };
        let hi: usize = if count < len - lo { lo + count } else { len };
        let mut values: Vec<u128> = Vec::new();
        let mut j: usize = lo;
        while j < hi
            invariant
                lo <= j <= hi <= len,
                len == self.nodes@.len(),
                values@ == self.nodes@.subrange(lo as int, j as int),
            decreases hi - j,
        {
            values.push(self.nodes[j]);
            j = j + 1;
        }
        let has_more = count < len - lo;
        proof {
            assert(values@ =~= page(self.leaves(), cursor as int, count as int));
        }
        (start, values, has_more)
    }
}

} // verus!
