//! Fixed-point weights and scores, and maps that hold them.

use crate::address::Address;
use crate::address_map::AddressMap;
use crate::address_set::{lemma_rank_at, lemma_rank_bounds, rank};
use vstd::prelude::*;

verus! {

/// The fixed-point number that stands for one whole: a weight or score `w`
/// is the real number `w / UNIT`.
pub const UNIT: u64 = 1_000_000;

/// The sum of the numbers of `s`.
pub open spec fn sum(s: Seq<u64>) -> nat
    decreases s.len(),
{
    if s.len() == 0 {
        0
    } else {
        sum(s.drop_last()) + s.last() as nat
    }
}

/// The amount that `m` holds for `key`: nothing where it has no entry.
pub open spec fn amount(m: Map<Address, u64>, key: Address) -> nat {
    if m.contains_key(key) {
        m[key] as nat
    } else {
        0
    }
}

impl AddressMap<u64> {
    /// The sum of all values of the map.
    pub open spec fn total(self) -> nat {
        sum(self.values@)
    }

    /// Adds `value` to what the map holds for `key`, if the sum is still a
    /// `u64`; otherwise the map stays as it is.
    pub fn credit(&mut self, key: Address, value: u64) -> (r: bool)
        requires
            old(self).wf(),
        ensures
            final(self).wf(),
            r <==> amount(old(self)@, key) + value <= u64::MAX,
            r ==> final(self)@ == old(self)@.insert(
                key,
                (amount(old(self)@, key) + value) as u64,
            ),
            r ==> final(self).total() == old(self).total() + value,
            !r ==> *final(self) == *old(self),
    {
        let ghost before = *self;
        match self.position(&key) {
            Some(i) => {
                let held: u64 = self.values[i];
                match held.checked_add(value) {
                    Some(next) => {
                        proof {
                            lemma_rank_at(self.keys.items@, i as int);
                            lemma_sum_update(self.values@, i as int, next);
                        }
                        self.insert(key, next);
                        true
                    },
                    None => false,
                }
            },
            None => {
                proof {
                    lemma_rank_bounds(self.keys.items@, key);
                    lemma_sum_insert(self.values@, rank(self.keys.items@, key) as int, value);
                }
                self.insert(key, value);
                true
            },
        }
    }

    /// A copy of the map.
    pub fn copy(&self) -> (r: AddressMap<u64>)
        ensures
            r.keys.items@ == self.keys.items@,
            r.values@ == self.values@,
            r@ == self@,
            r.wf() == self.wf(),
    {
        let mut values: Vec<u64> = Vec::new();
        let mut i: usize = 0;
        while i < self.values.len()
            invariant
                0 <= i <= self.values@.len(),
                values@ == self.values@.take(i as int),
            decreases self.values@.len() - i,
        {
            values.push(self.values[i]);
            assert(values@ =~= self.values@.take(i + 1));
            i = i + 1;
        }
        assert(values@ =~= self.values@);
        let r = AddressMap { keys: self.keys.copy(), values };
        assert(r@ =~= self@);
        r
    }
}

/// Putting a number into a sequence adds it to the sum.
pub proof fn lemma_sum_insert(s: Seq<u64>, i: int, v: u64)
    requires
        0 <= i <= s.len(),
    ensures
        sum(s.insert(i, v)) == sum(s) + v,
    decreases s.len(),
{
    let t = s.insert(i, v);
    if i == s.len() {
        assert(t.drop_last() =~= s);
    } else {
        assert(t.drop_last() =~= s.drop_last().insert(i, v));
        assert(t.last() == s.last());
        lemma_sum_insert(s.drop_last(), i, v);
    }
}

/// Replacing a number of a sequence changes the sum by the difference.
pub proof fn lemma_sum_update(s: Seq<u64>, i: int, v: u64)
    requires
        0 <= i < s.len(),
    ensures
        sum(s.update(i, v)) + s[i] == sum(s) + v,
    decreases s.len(),
{
    let t = s.update(i, v);
    if i == s.len() - 1 {
        assert(t.drop_last() =~= s.drop_last());
    } else {
        assert(t.drop_last() =~= s.drop_last().update(i, v));
        assert(t.last() == s.last());
        lemma_sum_update(s.drop_last(), i, v);
    }
}

/// No number of a sequence is larger than the sum.
pub proof fn lemma_sum_bounds(s: Seq<u64>, i: int)
    requires
        0 <= i < s.len(),
    ensures
        s[i] <= sum(s),
    decreases s.len(),
{
    if i < s.len() - 1 {
        lemma_sum_bounds(s.drop_last(), i);
    }
}

} // verus!
