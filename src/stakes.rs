//! The mathematical model of a tree's content: a finite map from identifier to
//! stake, and the sum of all stakes in it.

use vstd::prelude::*;

verus! {

/// The sum of all stakes in `m`.
pub open spec fn stake_total(m: Map<u128, u128>) -> int
    decreases m.dom().len(),
{
    if m.dom().finite() && m.dom().len() > 0 {
        let id = m.dom().choose();
        m[id] + stake_total(m.remove(id))
    } else {
        0
    }
}

/// The stake of `id` in `m`: zero when `id` has none.
pub open spec fn stake_in(m: Map<u128, u128>, id: u128) -> u128 {
    if m.contains_key(id) {
        m[id]
    } else {
        0
    }
}

/// The stakes after `id` is given `value`: a zero value removes it.
pub open spec fn with_stake(m: Map<u128, u128>, id: u128, value: u128) -> Map<u128, u128> {
    if value == 0 {
        m.remove(id)
    } else {
        m.insert(id, value)
    }
}

/// Taking one entry out of the map takes its stake out of the total.
pub proof fn lemma_total_remove(m: Map<u128, u128>, id: u128)
    requires
        m.dom().finite(),
        m.contains_key(id),
    ensures
        stake_total(m) == m[id] + stake_total(m.remove(id)),
    decreases m.dom().len(),
{
    let c = m.dom().choose();
    assert(m.dom().contains(c));
    if c != id {
        let mc = m.remove(c);
        let mi = m.remove(id);
        lemma_total_remove(mc, id);
        lemma_total_remove(mi, c);
        assert(mc.remove(id) =~= mi.remove(c));
    } else {
        assert(m.remove(c) =~= m.remove(id));
    }
}

/// How the total moves when one identifier is given a new stake.
pub proof fn lemma_total_with_stake(m: Map<u128, u128>, id: u128, value: u128)
    requires
        m.dom().finite(),
    ensures
        with_stake(m, id, value).dom().finite(),
        stake_total(with_stake(m, id, value)) == stake_total(m) - stake_in(m, id) + value,
{
    let r = m.remove(id);
    if m.contains_key(id) {
        lemma_total_remove(m, id);
    } else {
        assert(r =~= m);
    }
    if value != 0 {
        let n = m.insert(id, value);
        lemma_total_remove(n, id);
        assert(n.remove(id) =~= r);
    }
}

} // verus!
