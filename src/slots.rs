//! A bijection between active identifiers and the node indices that hold
//! their stakes, kept as two hash maps that always mirror each other.

use std::collections::HashMap;
use vstd::prelude::*;

verus! {

broadcast use vstd::std_specs::hash::group_hash_axioms;

/// Identifier to index, and index to identifier.
pub struct SlotMap {
    index_of_id: HashMap<u128, usize>,
    id_of_index: HashMap<usize, u128>,
}

impl View for SlotMap {
    type V = Map<u128, usize>;

    closed spec fn view(&self) -> Map<u128, usize> {
        self.index_of_id@
    }
}

impl SlotMap {
    /// The reverse direction, from index to identifier.
    pub closed spec fn ids(&self) -> Map<usize, u128> {
        self.id_of_index@
    }

    /// The two directions are inverse to each other.
    pub closed spec fn wf(&self) -> bool {
        &&& forall|id: u128| #[trigger]
            self.index_of_id@.contains_key(id) ==> self.id_of_index@.contains_key(
                self.index_of_id@[id],
            ) && self.id_of_index@[self.index_of_id@[id]] == id
        &&& forall|i: usize| #[trigger]
            self.id_of_index@.contains_key(i) ==> self.index_of_id@.contains_key(
                self.id_of_index@[i],
            ) && self.index_of_id@[self.id_of_index@[i]] == i
    }

    pub proof fn lemma_inverse(&self)
        requires
            self.wf(),
        ensures
            self@.dom().finite(),
            forall|id: u128| #[trigger]
                self@.contains_key(id) ==> self.ids().contains_key(self@[id])
                    && self.ids()[self@[id]] == id,
            forall|i: usize| #[trigger]
                self.ids().contains_key(i) ==> self@.contains_key(self.ids()[i])
                    && self@[self.ids()[i]] == i,
    {
        vstd::std_specs::hash::axiom_hashmap_view_finite_dom(self.index_of_id);
    }

    pub fn new() -> (r: SlotMap)
        ensures
            r.wf(),
            r@ == Map::<u128, usize>::empty(),
            r.ids() == Map::<usize, u128>::empty(),
    {
        SlotMap { index_of_id: HashMap::new(), id_of_index: HashMap::new() }
    }

    pub fn index_of(&self, id: u128) -> (r: Option<usize>)
        ensures
            r == (if self@.contains_key(id) {
                Some(self@[id])
            } else {
                None
            }),
    {
        match self.index_of_id.get(&id) {
            Some(i) => Some(*i),
            None => None,
        }
    }

    pub fn id_at(&self, i: usize) -> (r: Option<u128>)
        ensures
            r == (if self.ids().contains_key(i) {
                Some(self.ids()[i])
            } else {
                None
            }),
    {
        match self.id_of_index.get(&i) {
            Some(id) => Some(*id),
            None => None,
        }
    }

    /// Binds a free identifier to a free index.
    pub fn bind(&mut self, id: u128, i: usize)
        requires
            old(self).wf(),
            !old(self)@.contains_key(id),
            !old(self).ids().contains_key(i),
        ensures
            final(self).wf(),
            final(self)@ == old(self)@.insert(id, i),
            final(self).ids() == old(self).ids().insert(i, id),
    {
        self.index_of_id.insert(id, i);
        self.id_of_index.insert(i, id);
    }

    /// Unbinds an identifier together with its index.
    pub fn unbind(&mut self, id: u128)
        requires
            old(self).wf(),
            old(self)@.contains_key(id),
        ensures
            final(self).wf(),
            final(self)@ == old(self)@.remove(id),
            final(self).ids() == old(self).ids().remove(old(self)@[id]),
    {
        let i = *self.index_of_id.get(&id).unwrap();
        self.index_of_id.remove(&id);
        self.id_of_index.remove(&i);
    }
}

} // verus!
