//! A map from addresses to values, kept in the ascending order of its keys.

use crate::address::Address;
use crate::address_set::{
    ascending, lemma_index_of, lemma_insert_ascending, lemma_rank_bounds, rank, AddressSet,
};
use vstd::prelude::*;

verus! {

/// A map from addresses to values. The value of `keys.items[i]` is
/// `values[i]`.
#[derive(Debug)]
pub struct AddressMap<V> {
    pub keys: AddressSet,
    pub values: Vec<V>,
}

impl<V> View for AddressMap<V> {
    type V = Map<Address, V>;

    open spec fn view(&self) -> Map<Address, V> {
        Map::new(
            |k: Address| self.keys.items@.contains(k),
            |k: Address| self.values@[self.keys.items@.index_of(k)],
        )
    }
}

impl<V> AddressMap<V> {
    /// The keys stand in ascending order, and each has its value.
    pub open spec fn wf(self) -> bool {
        &&& self.keys.wf()
        &&& self.values@.len() == self.keys.items@.len()
    }

    /// The map without entries.
    pub fn new() -> (r: AddressMap<V>)
        ensures
            r.wf(),
            r.keys.items@.len() == 0,
            r@ == Map::<Address, V>::empty(),
    {
        let r = AddressMap { keys: AddressSet::new(), values: Vec::new() };
        assert(r@ =~= Map::<Address, V>::empty());
        r
    }

    /// The number of entries.
    pub fn len(&self) -> (r: usize)
        ensures
            r == self.keys.items@.len(),
    {
        self.keys.len()
    }

    /// The index at which `key` stands, if the map holds it.
    pub fn position(&self, key: &Address) -> (r: Option<usize>)
        requires
            self.wf(),
        ensures
            r is Some <==> self@.contains_key(*key),
            r is Some ==> r.unwrap() < self.keys.items@.len() && self.keys.items@[r.unwrap() as int]
                == *key && self.keys.items@.index_of(*key) == r.unwrap(),
    {
        let r = self.keys.position(key);
        proof {
            if r is Some {
                lemma_index_of(self.keys.items@, r.unwrap() as int);
            }
        }
        r
    }

    /// The value of `key`, if the map holds it.
    pub fn get(&self, key: &Address) -> (r: Option<&V>)
        requires
            self.wf(),
        ensures
            r is Some <==> self@.contains_key(*key),
            r is Some ==> *r.unwrap() == self@[*key],
    {
        match self.position(key) {
            Some(i) => Some(&self.values[i]),
            None => None,
        }
    }

    /// Gives `key` the value `value`, whether or not it had one.
    pub fn insert(&mut self, key: Address, value: V)
        requires
            old(self).wf(),
        ensures
            final(self).wf(),
            final(self)@ == old(self)@.insert(key, value),
            old(self)@.contains_key(key) ==> final(self).keys.items@ == old(self).keys.items@,
            old(self)@.contains_key(key) ==> final(self).values@ == old(self).values@.update(
                rank(old(self).keys.items@, key) as int,
                value,
            ),
            !old(self)@.contains_key(key) ==> final(self).keys.items@ == old(self).keys.items@.insert(
                rank(old(self).keys.items@, key) as int,
                key,
            ),
            !old(self)@.contains_key(key) ==> final(self).values@ == old(self).values@.insert(
                rank(old(self).keys.items@, key) as int,
                value,
            ),
    {
        let ghost before = *self;
        let found = self.keys.search(&key);
        if found.0 {
            self.values.set(found.1, value);
            proof {
                lemma_update_view(before, *self, key, value);
            }
        } else {
            self.keys.items.insert(found.1, key);
            self.values.insert(found.1, value);
            proof {
                lemma_insert_view(before, *self, key, value);
            }
        }
    }
}

/// The entry at index `i` of a well-formed map, seen through its view.
pub proof fn lemma_entry<V>(m: AddressMap<V>, i: int)
    requires
        m.wf(),
        0 <= i < m.keys.items@.len(),
    ensures
        m@.contains_key(m.keys.items@[i]),
        m@[m.keys.items@[i]] == m.values@[i],
        m.keys.items@.index_of(m.keys.items@[i]) == i,
{
    lemma_index_of(m.keys.items@, i);
}

/// A key of the view of a well-formed map stands at some index.
pub proof fn lemma_key_index<V>(m: AddressMap<V>, key: Address)
    requires
        m.wf(),
        m@.contains_key(key),
    ensures
        0 <= m.keys.items@.index_of(key) < m.keys.items@.len(),
        m.keys.items@[m.keys.items@.index_of(key)] == key,
        m@[key] == m.values@[m.keys.items@.index_of(key)],
{
}

proof fn lemma_update_view<V>(before: AddressMap<V>, after: AddressMap<V>, key: Address, value: V)
    requires
        before.wf(),
        before.keys.items@.contains(key),
        after.keys.items@ == before.keys.items@,
        after.values@ == before.values@.update(rank(before.keys.items@, key) as int, value),
    ensures
        after.wf(),
        after@ == before@.insert(key, value),
{
    let s = before.keys.items@;
    let p = s.index_of(key);
    crate::address_set::lemma_rank_at(s, p);
    assert forall|a: Address| after@.contains_key(a) implies #[trigger] after@[a] == before@.insert(
        key,
        value,
    )[a] by {
        let i = s.index_of(a);
        if a != key {
            assert(i != p);
        }
    }
    assert(after@ =~= before@.insert(key, value));
}

proof fn lemma_insert_view<V>(before: AddressMap<V>, after: AddressMap<V>, key: Address, value: V)
    requires
        before.wf(),
        !before.keys.items@.contains(key),
        after.keys.items@ == before.keys.items@.insert(rank(before.keys.items@, key) as int, key),
        after.values@ == before.values@.insert(rank(before.keys.items@, key) as int, value),
    ensures
        after.wf(),
        after@ == before@.insert(key, value),
{
    let s = before.keys.items@;
    let n = rank(s, key) as int;
    let t = after.keys.items@;
    lemma_rank_bounds(s, key);
    lemma_insert_ascending(s, key);
    assert(ascending(t));
    assert forall|a: Address| #[trigger] t.contains(a) <==> (a == key || s.contains(a)) by {
        assert(t.to_set().contains(a) <==> s.to_set().insert(key).contains(a));
    }
    assert forall|a: Address| after@.contains_key(a) implies #[trigger] after@[a] == before@.insert(
        key,
        value,
    )[a] by {
        if a == key {
            assert(t[n] == key);
            lemma_index_of(t, n);
        } else {
            let i = s.index_of(a);
            if i < n {
                assert(t[i] == a);
                lemma_index_of(t, i);
            } else {
                assert(t[i + 1] == a);
                lemma_index_of(t, i + 1);
            }
        }
    }
    assert(after@ =~= before@.insert(key, value));
}

} // verus!
