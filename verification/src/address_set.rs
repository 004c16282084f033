//! A set of addresses, kept as a vector in ascending order.

use crate::address::{
    lemma_precedes_asymmetric, lemma_precedes_irreflexive, lemma_precedes_transitive, Address,
    Place,
};
use vstd::prelude::*;

verus! {

/// Each address of `s` precedes every later one.
pub open spec fn ascending(s: Seq<Address>) -> bool {
    forall|i: int, j: int| 0 <= i < j < s.len() ==> #[trigger] s[i].precedes(s[j])
}

/// The number of addresses of `s` that precede `key`. In an ascending
/// sequence this is the index at which `key` stands or would be put.
pub open spec fn rank(s: Seq<Address>, key: Address) -> nat
    decreases s.len(),
{
    if s.len() == 0 {
        0
    } else if s.last().precedes(key) {
        rank(s.drop_last(), key) + 1
    } else {
        rank(s.drop_last(), key)
    }
}

/// `key` is one of the first `n` addresses of `s`.
pub open spec fn among(s: Seq<Address>, n: int, key: Address) -> bool {
    exists|j: int| 0 <= j < n && j < s.len() && #[trigger] s[j] == key
}

/// A set of addresses.
#[derive(Debug)]
pub struct AddressSet {
    pub items: Vec<Address>,
}

impl View for AddressSet {
    type V = Set<Address>;

    open spec fn view(&self) -> Set<Address> {
        self.items@.to_set()
    }
}

impl AddressSet {
    /// The items stand in ascending order, so none occurs twice.
    pub open spec fn wf(self) -> bool {
        ascending(self.items@)
    }

    /// The empty set.
    pub fn new() -> (r: AddressSet)
        ensures
            r.wf(),
            r.items@ == Seq::<Address>::empty(),
            r@ == Set::<Address>::empty(),
    {
        let r = AddressSet { items: Vec::new() };
        assert(r@ =~= Set::<Address>::empty());
        r
    }

    /// The number of addresses in the set.
    pub fn len(&self) -> (r: usize)
        ensures
            r == self.items@.len(),
    {
        self.items.len()
    }

    /// Looks for `key`. The second part of the result is the rank of `key`:
    /// the index at which it stands if the first part is `true`, and the index
    /// at which it would have to be put if not.
    pub fn search(&self, key: &Address) -> (r: (bool, usize))
        requires
            self.wf(),
        ensures
            r.0 <==> self@.contains(*key),
            r.1 == rank(self.items@, *key),
            r.1 <= self.items@.len(),
            r.0 ==> r.1 < self.items@.len() && self.items@[r.1 as int] == *key,
    {
        let mut lo: usize = 0;
        let mut hi: usize = self.items.len();
        while lo < hi
            invariant
                self.wf(),
                0 <= lo <= hi <= self.items@.len(),
                forall|i: int| 0 <= i < lo ==> (#[trigger] self.items@[i]).precedes(*key),
                forall|i: int| hi <= i < self.items@.len() ==> key.precedes(#[trigger] self.items@[i]),
            decreases hi - lo,
        {
            let mid: usize = lo + (hi - lo) / 2;
            match self.items[mid].place(key) {
                Place::Before => {
                    proof {
                        assert forall|i: int| 0 <= i < mid + 1 implies (#[trigger] self.items@[i]).precedes(
                            *key,
                        ) by {
                            if i < mid {
                                assert(self.items@[i].precedes(self.items@[mid as int]));
                                lemma_precedes_transitive(self.items@[i], self.items@[mid as int], *key);
                            }
                        }
                    }
                    lo = mid + 1;
                },
                Place::Same => {
                    proof {
                        lemma_rank_at(self.items@, mid as int);
                        assert(self.items@.contains(*key));
                    }
                    return (true, mid);
                },
                Place::After => {
                    proof {
                        assert forall|i: int| mid <= i < self.items@.len() implies key.precedes(
                            #[trigger] self.items@[i],
                        ) by {
                            if mid < i {
                                assert(self.items@[mid as int].precedes(self.items@[i]));
                                lemma_precedes_transitive(*key, self.items@[mid as int], self.items@[i]);
                            }
                        }
                    }
                    hi = mid;
                },
            }
        }
        proof {
            lemma_rank_split(self.items@, *key, lo as int);
            if self.items@.contains(*key) {
                let i = self.items@.index_of(*key);
                lemma_precedes_irreflexive(*key);
            }
        }
        (false, lo)
    }

    /// Whether `key` is in the set.
    pub fn contains(&self, key: &Address) -> (r: bool)
        requires
            self.wf(),
        ensures
            r <==> self@.contains(*key),
    {
        self.search(key).0
    }

    /// The index at which `key` stands, if it is in the set.
    pub fn position(&self, key: &Address) -> (r: Option<usize>)
        requires
            self.wf(),
        ensures
            r is Some <==> self@.contains(*key),
            r is Some ==> r.unwrap() == rank(self.items@, *key) && r.unwrap() < self.items@.len()
                && self.items@[r.unwrap() as int] == *key,
    {
        let found = self.search(key);
        if found.0 {
            Some(found.1)
        } else {
            None
        }
    }

    /// Puts `key` into the set, at its rank, and says whether it was new.
    pub fn insert(&mut self, key: Address) -> (r: bool)
        requires
            old(self).wf(),
        ensures
            final(self).wf(),
            final(self)@ == old(self)@.insert(key),
            r <==> !old(self)@.contains(key),
            r ==> final(self).items@ == old(self).items@.insert(
                rank(old(self).items@, key) as int,
                key,
            ),
            !r ==> final(self).items@ == old(self).items@,
    {
        let found = self.search(&key);
        if found.0 {
            assert(self@ =~= self@.insert(key));
            return false;
        }
        proof {
            lemma_insert_ascending(self.items@, key);
        }
        self.items.insert(found.1, key);
        true
    }

    /// A copy of the set.
    pub fn copy(&self) -> (r: AddressSet)
        ensures
            r.items@ == self.items@,
            r@ == self@,
            r.wf() == self.wf(),
    {
        let mut items: Vec<Address> = Vec::new();
        let mut i: usize = 0;
        while i < self.items.len()
            invariant
                0 <= i <= self.items@.len(),
                items@ == self.items@.take(i as int),
            decreases self.items@.len() - i,
        {
            items.push(self.items[i]);
            assert(items@ =~= self.items@.take(i + 1));
            i = i + 1;
        }
        assert(items@ =~= self.items@);
        AddressSet { items }
    }
}

/// One address more is among the first `n + 1` than among the first `n`.
pub proof fn lemma_among_step(s: Seq<Address>, n: int, key: Address)
    requires
        0 <= n < s.len(),
    ensures
        among(s, n + 1, key) <==> among(s, n, key) || s[n] == key,
{
    if among(s, n + 1, key) {
        let j = choose|j: int| 0 <= j < n + 1 && j < s.len() && #[trigger] s[j] == key;
        if j < n {
            assert(among(s, n, key));
        }
    }
    if among(s, n, key) {
        let j = choose|j: int| 0 <= j < n && j < s.len() && #[trigger] s[j] == key;
        assert(0 <= j < n + 1 && s[j] == key);
    }
    if s[n] == key {
        assert(0 <= n < n + 1 && s[n] == key);
    }
}

/// To be among all addresses of `s` is to be in the set of its items.
pub proof fn lemma_among_all(s: Seq<Address>, key: Address)
    ensures
        among(s, s.len() as int, key) <==> s.contains(key),
        among(s, s.len() as int, key) <==> s.to_set().contains(key),
        !among(s, 0, key),
{
    if among(s, s.len() as int, key) {
        let j = choose|j: int| 0 <= j < s.len() && j < s.len() && #[trigger] s[j] == key;
        assert(s.contains(key));
    }
    if s.contains(key) {
        let j = s.index_of(key);
        assert(0 <= j < s.len() && s[j] == key);
    }
}

/// In an ascending sequence no address occurs twice.
pub proof fn lemma_ascending_distinct(s: Seq<Address>, i: int, j: int)
    requires
        ascending(s),
        0 <= i < s.len(),
        0 <= j < s.len(),
        s[i] == s[j],
    ensures
        i == j,
{
    if i < j {
        assert(s[i].precedes(s[j]));
        lemma_precedes_irreflexive(s[i]);
    }
    if j < i {
        assert(s[j].precedes(s[i]));
        lemma_precedes_irreflexive(s[i]);
    }
}

/// In an ascending sequence `index_of` finds each item where it stands.
pub proof fn lemma_index_of(s: Seq<Address>, i: int)
    requires
        ascending(s),
        0 <= i < s.len(),
    ensures
        s.contains(s[i]),
        s.index_of(s[i]) == i,
{
    let j = s.index_of(s[i]);
    lemma_ascending_distinct(s, i, j);
}

/// An ascending sequence has as many items as the set of them.
pub proof fn lemma_ascending_len(s: Seq<Address>)
    requires
        ascending(s),
    ensures
        s.no_duplicates(),
        s.to_set().finite(),
        s.to_set().len() == s.len(),
{
    assert forall|i: int, j: int| 0 <= i < s.len() && 0 <= j < s.len() && i != j implies s[i]
        != s[j] by {
        if s[i] == s[j] {
            lemma_ascending_distinct(s, i, j);
        }
    }
    s.unique_seq_to_set();
    vstd::seq_lib::seq_to_set_is_finite(s);
}

/// If the first `n` items precede `key` and no later one does, the rank of
/// `key` is `n`.
pub proof fn lemma_rank_split(s: Seq<Address>, key: Address, n: int)
    requires
        0 <= n <= s.len(),
        forall|i: int| 0 <= i < n ==> (#[trigger] s[i]).precedes(key),
        forall|i: int| n <= i < s.len() ==> !(#[trigger] s[i]).precedes(key),
    ensures
        rank(s, key) == n,
    decreases s.len(),
{
    if s.len() > 0 {
        let t = s.drop_last();
        if n == s.len() {
            assert(s.last() == s[n - 1]);
            lemma_rank_split(t, key, n - 1);
        } else {
            assert(s.last() == s[s.len() - 1]);
            lemma_rank_split(t, key, n);
        }
    }
}

/// In an ascending sequence the rank of an item is its index.
pub proof fn lemma_rank_at(s: Seq<Address>, i: int)
    requires
        ascending(s),
        0 <= i < s.len(),
    ensures
        rank(s, s[i]) == i,
{
    assert forall|j: int| i <= j < s.len() implies !(#[trigger] s[j]).precedes(s[i]) by {
        if i < j {
            assert(s[i].precedes(s[j]));
            lemma_precedes_asymmetric(s[i], s[j]);
        } else {
            lemma_precedes_irreflexive(s[i]);
        }
    }
    assert forall|j: int| 0 <= j < i implies (#[trigger] s[j]).precedes(s[i]) by {
        assert(s[j].precedes(s[i]));
    }
    lemma_rank_split(s, s[i], i);
}

/// The items before the rank of `key` precede it; of the others none does.
pub proof fn lemma_rank_bounds(s: Seq<Address>, key: Address)
    requires
        ascending(s),
    ensures
        rank(s, key) <= s.len(),
        forall|i: int| 0 <= i < rank(s, key) ==> (#[trigger] s[i]).precedes(key),
        forall|i: int| rank(s, key) <= i < s.len() ==> !(#[trigger] s[i]).precedes(key),
    decreases s.len(),
{
    if s.len() > 0 {
        let t = s.drop_last();
        assert(ascending(t)) by {
            assert forall|i: int, j: int| 0 <= i < j < t.len() implies #[trigger] t[i].precedes(
                t[j],
            ) by {
                assert(s[i].precedes(s[j]));
            }
        }
        lemma_rank_bounds(t, key);
        let n = s.len() - 1;
        if s.last().precedes(key) {
            let r = rank(t, key) as int;
            if r < n {
                assert(!t[r].precedes(key));
                assert(s[r].precedes(s[n]));
                lemma_precedes_transitive(s[r], s[n], key);
            }
            assert forall|i: int| 0 <= i < rank(s, key) implies (#[trigger] s[i]).precedes(
                key,
            ) by {
                if i < n {
                    assert(s[i].precedes(s[n]));
                    lemma_precedes_transitive(s[i], s[n], key);
                }
            }
        } else {
            assert forall|i: int| 0 <= i < rank(s, key) implies (#[trigger] s[i]).precedes(
                key,
            ) by {
                assert(t[i].precedes(key));
            }
            assert forall|i: int| rank(s, key) <= i < s.len() implies !(#[trigger] s[i]).precedes(
                key,
            ) by {
                if i < n {
                    assert(!t[i].precedes(key));
                }
            }
        }
    }
}

/// Putting a new address at its rank keeps the sequence ascending, and adds
/// that address to the set of its items.
pub proof fn lemma_insert_ascending(s: Seq<Address>, key: Address)
    requires
        ascending(s),
        !s.contains(key),
    ensures
        ascending(s.insert(rank(s, key) as int, key)),
        s.insert(rank(s, key) as int, key).to_set() == s.to_set().insert(key),
{
    lemma_rank_bounds(s, key);
    let n = rank(s, key) as int;
    let t = s.insert(n, key);
    assert forall|i: int| n <= i < s.len() implies key.precedes(#[trigger] s[i]) by {
        assert(s.contains(s[i]));
        crate::address::lemma_precedes_total(key, s[i]);
    }
    assert forall|i: int, j: int| 0 <= i < j < t.len() implies #[trigger] t[i].precedes(t[j]) by {
        if j < n {
            assert(s[i].precedes(s[j]));
        } else if j == n {
            assert(s[i].precedes(key));
        } else if i < n {
            assert(s[i].precedes(s[j - 1]));
        } else if i == n {
            assert(key.precedes(s[j - 1]));
        } else {
            assert(s[i - 1].precedes(s[j - 1]));
        }
    }
    assert forall|a: Address| t.to_set().contains(a) <==> s.to_set().insert(key).contains(
        a,
    ) by {
        if t.contains(a) {
            let i = t.index_of(a);
            if i < n {
                assert(s[i] == a);
            } else if i > n {
                assert(s[i - 1] == a);
            }
        }
        if s.contains(a) {
            let i = s.index_of(a);
            if i < n {
                assert(t[i] == a);
            } else {
                assert(t[i + 1] == a);
            }
        }
        if a == key {
            assert(t[n] == a);
        }
    }
    assert(t.to_set() =~= s.to_set().insert(key));
}

} // verus!
