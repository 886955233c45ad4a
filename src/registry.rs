//! A registry of sortition sum trees under caller-chosen keys. Every operation
//! names its tree by key and fails with `NotFound` when there is none.

use crate::layout::is_above;
use crate::stakes::{stake_in, stake_total, with_stake};
use crate::tree::{first_leaf, more_after, page, SortitionSumTree};
use std::collections::HashMap;
use vstd::prelude::*;

verus! {

broadcast use vstd::std_specs::hash::group_hash_axioms;

/// Why an operation of the registry failed.
#[derive(Debug, Clone, Copy, PartialEq, Eq, Structural)]
pub enum SortitionError {
    /// No tree stands under the key.
    NotFound,
    /// A tree already stands under the key.
    AlreadyExists,
    /// The tree holds no weight to draw from.
    EmptyTree,
}

/// The trees, by key.
pub struct SortitionSumTrees {
    sortition_sum_trees: HashMap<u128, SortitionSumTree>,
}

impl SortitionSumTrees {
    /// The trees, by key.
    pub closed spec fn trees(&self) -> Map<u128, SortitionSumTree> {
        self.sortition_sum_trees@
    }

    /// Every tree but the one under `key` is well formed.
    pub open spec fn wf_except(&self, key: u128) -> bool {
        forall|other: u128| #[trigger]
            self.trees().contains_key(other) && other != key ==> self.trees()[other].wf()
    }

    /// Every tree is well formed.
    pub open spec fn wf(&self) -> bool {
        forall|other: u128| #[trigger] self.trees().contains_key(other) ==> self.trees()[other].wf()
    }

    /// An empty registry.
    pub fn new() -> (r: SortitionSumTrees)
        ensures
            r.wf(),
            r.trees() == Map::<u128, SortitionSumTree>::empty(),
    {
        SortitionSumTrees { sortition_sum_trees: HashMap::new() }
    }

    /// Creates under `key` an empty tree with branching factor `k`, whose
    /// node array is a root of weight zero. A key in use is refused.
    pub fn create_tree(&mut self, key: u128, k: usize) -> (r: Result<(), SortitionError>)
        requires
            old(self).wf(),
            k >= 2,
        ensures
            final(self).wf(),
            old(self).trees().contains_key(key) ==> r == Err::<(), SortitionError>(
                SortitionError::AlreadyExists,
            ) && final(self).trees() == old(self).trees(),
            !old(self).trees().contains_key(key) ==> r is Ok && final(self).trees().dom()
                == old(self).trees().dom().insert(key) && final(self).trees().remove(key)
                == old(self).trees() && final(self).trees()[key]@ == Map::<u128, u128>::empty()
                && final(self).trees()[key].branching() == k && final(self).trees()[key].node_values()
                == seq![0u128] && final(self).trees()[key].free_slots() == Seq::<usize>::empty()
                && final(self).trees()[key].slot_map() == Map::<u128, usize>::empty()
                && final(self).trees()[key].id_map() == Map::<usize, u128>::empty(),
    {
        if self.sortition_sum_trees.contains_key(&key) {
            return Err(SortitionError::AlreadyExists);
        }
        let tree = SortitionSumTree::new(k);
        self.sortition_sum_trees.insert(key, tree);
        proof {
            assert(self.trees().remove(key) =~= old(self).trees());
            assert(self.trees().dom() =~= old(self).trees().dom().insert(key));
        }
        Ok(())
    }

    /// Propagates a change of `value` at node `tree_index` of the tree under
    /// `key` to every ancestor of that node, adding when `plus_or_minus`
    /// holds and subtracting otherwise.
    pub fn update_parents(
        &mut self,
        key: u128,
        tree_index: usize,
        plus_or_minus: bool,
        value: u128,
    ) -> (r: Result<(), SortitionError>)
        requires
            old(self).wf_except(key),
            old(self).trees().contains_key(key) ==> old(self).trees()[key].pending(
                tree_index as int,
                if plus_or_minus { value as int } else { -value },
            ),
        ensures
            final(self).wf(),
            !old(self).trees().contains_key(key) ==> r == Err::<(), SortitionError>(
                SortitionError::NotFound,
            ) && final(self).trees() == old(self).trees(),
            old(self).trees().contains_key(key) ==> r is Ok && final(self).trees().dom()
                == old(self).trees().dom() && final(self).trees().remove(key) == old(self).trees().remove(key) && final(self).trees()[key]@ == old(self).trees()[key]@
                && final(self).trees()[key].node_values().len() == old(self).trees()[key].node_values().len() && SortitionSumTree::keeps_leaves(
                old(self).trees()[key],
                final(self).trees()[key],
                -1,
            ),
            old(self).trees().contains_key(key) ==> final(self).trees()[key].branching() == old(self).trees()[key].branching() && final(self).trees()[key].free_slots() == old(self).trees()[key].free_slots() && final(self).trees()[key].slot_map() == old(self).trees()[key].slot_map() && final(self).trees()[key].id_map() == old(self).trees()[key].id_map(),
            old(self).trees().contains_key(key) ==> forall|x: int|
                0 <= x < old(self).trees()[key].node_values().len()
                    ==> #[trigger] final(self).trees()[key].node_values()[x]
                    == old(self).trees()[key].node_values()[x] + if is_above(
                    old(self).trees()[key].branching() as int,
                    x,
                    tree_index as int,
                ) {
                    if plus_or_minus {
                        value as int
                    } else {
                        -value
                    }
                } else {
                    0
                },
            old(self).trees().contains_key(key) && (tree_index == 0 || value == 0) ==> final(self).trees()[key].node_values() == old(self).trees()[key].node_values(),
    {
        match self.sortition_sum_trees.remove(&key) {
            Some(mut tree) => {
                tree.update_parents(tree_index, plus_or_minus, value);
                self.sortition_sum_trees.insert(key, tree);
                proof {
                    assert(self.trees().remove(key) =~= old(self).trees().remove(key));
                    assert(self.trees().dom() =~= old(self).trees().dom());
                }
                Ok(())
            },
            None => {
                proof {
                    assert(self.trees() =~= old(self).trees());
                }
                Err(SortitionError::NotFound)
            },
        }
    }

    /// Gives `id` the stake `value` in the tree under `key`; a zero value
    /// removes it.
    pub fn set(&mut self, key: u128, value: u128, id: u128) -> (r: Result<(), SortitionError>)
        requires
            old(self).wf(),
            old(self).trees().contains_key(key) ==> stake_total(
                with_stake(old(self).trees()[key]@, id, value),
            ) <= u128::MAX && old(self).trees()[key].node_values().len() + 2 <= usize::MAX,
        ensures
            final(self).wf(),
            !old(self).trees().contains_key(key) ==> r == Err::<(), SortitionError>(
                SortitionError::NotFound,
            ) && final(self).trees() == old(self).trees(),
            old(self).trees().contains_key(key) ==> r is Ok && final(self).trees().dom()
                == old(self).trees().dom() && final(self).trees().remove(key) == old(self).trees().remove(key) && SortitionSumTree::set_outcome(
                old(self).trees()[key],
                final(self).trees()[key],
                value,
                id,
            ),
            old(self).trees().contains_key(key) && stake_in(old(self).trees()[key]@, id) == value
                ==> final(self).trees() == old(self).trees(),
    {
        match self.sortition_sum_trees.remove(&key) {
            Some(mut tree) => {
                tree.set(value, id);
                self.sortition_sum_trees.insert(key, tree);
                proof {
                    if stake_in(old(self).trees()[key]@, id) == value {
                        assert(self.trees() =~= old(self).trees());
                    }
                    assert(self.trees().remove(key) =~= old(self).trees().remove(key));
                    assert(self.trees().dom() =~= old(self).trees().dom());
                }
                Ok(())
            },
            None => {
                proof {
                    assert(self.trees() =~= old(self).trees());
                }
                Err(SortitionError::NotFound)
            },
        }
    }

    /// The stake of `id` in the tree under `key`, zero when it has none.
    pub fn stake_of(&self, key: u128, id: u128) -> (r: Result<u128, SortitionError>)
        requires
            self.wf(),
        ensures
            !self.trees().contains_key(key) ==> r == Err::<u128, SortitionError>(
                SortitionError::NotFound,
            ),
            self.trees().contains_key(key) ==> r == Ok::<u128, SortitionError>(
                stake_in(self.trees()[key]@, id),
            ),
    {
        match self.sortition_sum_trees.get(&key) {
            Some(tree) => {
                proof {
                    assert(self.trees().contains_key(key));
                }
                Ok(tree.stake_of(id))
            },
            None => Err(SortitionError::NotFound),
        }
    }

    /// The total weight of the tree under `key`: the sum of its stakes.
    pub fn total_stake(&self, key: u128) -> (r: Result<u128, SortitionError>)
        requires
            self.wf(),
        ensures
            !self.trees().contains_key(key) ==> r == Err::<u128, SortitionError>(
                SortitionError::NotFound,
            ),
            self.trees().contains_key(key) ==> r == Ok::<u128, SortitionError>(
                stake_total(self.trees()[key]@) as u128,
            ),
    {
        match self.sortition_sum_trees.get(&key) {
            Some(tree) => {
                proof {
                    assert(self.trees().contains_key(key));
                }
                Ok(tree.total_stake())
            },
            None => Err(SortitionError::NotFound),
        }
    }

    /// Draws an identifier from the tree under `key` by `drawn_number`.
    pub fn draw(&self, key: u128, drawn_number: u128) -> (r: Result<u128, SortitionError>)
        requires
            self.wf(),
        ensures
            !self.trees().contains_key(key) ==> r == Err::<u128, SortitionError>(
                SortitionError::NotFound,
            ),
            self.trees().contains_key(key) && self.trees()[key].total() == 0 ==> r == Err::<
                u128,
                SortitionError,
            >(SortitionError::EmptyTree),
            self.trees().contains_key(key) && self.trees()[key].total() != 0 ==> r == Ok::<
                u128,
                SortitionError,
            >(self.trees()[key].drawn(drawn_number)),
            r matches Ok(id) ==> self.trees()[key]@.contains_key(id) && self.trees()[key]@[id] > 0,
    {
        match self.sortition_sum_trees.get(&key) {
            Some(tree) => {
                proof {
                    assert(self.trees().contains_key(key));
                }
                match tree.draw(drawn_number) {
                    Some(id) => Ok(id),
                    None => Err(SortitionError::EmptyTree),
                }
            },
            None => Err(SortitionError::NotFound),
        }
    }

    /// A page of the leaf weights of the tree under `key`: the index of the
    /// first leaf, up to `count` weights from the `cursor`-th leaf on, and
    /// whether leaves remain after them.
    pub fn query_leaves(&self, key: u128, cursor: usize, count: usize) -> (r: Result<
        (usize, Vec<u128>, bool),
        SortitionError,
    >)
        requires
            self.wf(),
        ensures
            !self.trees().contains_key(key) ==> r is Err && r->Err_0 == SortitionError::NotFound,
            self.trees().contains_key(key) ==> r is Ok && r->Ok_0.0 == first_leaf(
                self.trees()[key].branching() as int,
                self.trees()[key].node_values().len() as int,
            ) && r->Ok_0.1@ == page(self.trees()[key].leaves(), cursor as int, count as int)
                && r->Ok_0.2 == more_after(self.trees()[key].leaves(), cursor as int, count as int),
    {
        match self.sortition_sum_trees.get(&key) {
            Some(tree) => {
                proof {
                    assert(self.trees().contains_key(key));
                }
                Ok(tree.query_leaves(cursor, count))
            },
            None => Err(SortitionError::NotFound),
        }
    }
}

} // verus!
