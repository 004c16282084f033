//! Which nodes the delegates reach by their votes, and the graph cut down to
//! those.

use crate::address::Address;
use crate::address_map::{lemma_entry, lemma_key_index, AddressMap};
use crate::address_set::{among, lemma_among_all, lemma_among_step, AddressSet};
use crate::vote_data::{lemma_row_wf, Votes};
use vstd::prelude::*;

verus! {

/// The targets of the first `n` rows.
pub open spec fn targets_upto(rows: Seq<AddressMap<u64>>, n: int) -> Set<Address>
    decreases n,
{
    if n <= 0 {
        Set::empty()
    } else {
        targets_upto(rows, n - 1).union(rows[n - 1].keys@)
    }
}

impl AddressSet {
    /// The addresses that are in both sets.
    pub fn intersection(&self, other: &AddressSet) -> (r: AddressSet)
        requires
            self.wf(),
            other.wf(),
        ensures
            r.wf(),
            r@ == self@.intersect(other@),
    {
        let mut r: AddressSet = AddressSet::new();
        let mut i: usize = 0;
        while i < self.items.len()
            invariant
                self.wf(),
                other.wf(),
                r.wf(),
                0 <= i <= self.items@.len(),
                forall|a: Address| #[trigger]
                    r@.contains(a) <==> among(self.items@, i as int, a) && other@.contains(a),
            decreases self.items@.len() - i,
        {
            let key: Address = self.items[i];
            if other.contains(&key) {
                r.insert(key);
            }
            proof {
                assert forall|a: Address| #[trigger]
                    r@.contains(a) <==> among(self.items@, i + 1, a) && other@.contains(a) by {
                    lemma_among_step(self.items@, i as int, a);
                }
            }
            i = i + 1;
        }
        proof {
            assert forall|a: Address| #[trigger]
                r@.contains(a) <==> self@.intersect(other@).contains(a) by {
                lemma_among_all(self.items@, a);
            }
            assert(r@ =~= self@.intersect(other@));
        }
        r
    }
}

impl Votes {
    /// `source` casts a vote for `target`.
    pub open spec fn votes_for(self, source: Address, target: Address) -> bool {
        self.row(source).contains_key(target)
    }

    /// `a` is a delegate, or votes lead to it from a delegate in `n` steps or
    /// fewer.
    pub open spec fn reachable_within(self, a: Address, n: nat) -> bool
        decreases n,
    {
        if n == 0 {
            self.delegates@.contains(a)
        } else {
            self.reachable_within(a, (n - 1) as nat) || exists|b: Address|
                self.reachable_within(b, (n - 1) as nat) && #[trigger] self.votes_for(b, a)
        }
    }

    /// `a` is a delegate, or votes lead to it from a delegate.
    pub open spec fn reachable(self, a: Address) -> bool {
        exists|n: nat| self.reachable_within(a, n)
    }

    /// The nodes that the delegates reach.
    pub open spec fn reachable_set(self) -> Set<Address> {
        Set::new(|a: Address| self.reachable(a))
    }

    /// The delegates and all targets of votes.
    pub open spec fn universe(self) -> Set<Address> {
        self.delegates@.union(
            targets_upto(self.source_target_map.values@, self.source_target_map.values@.len() as int),
        )
    }

    /// The set of the nodes that the delegates reach: the delegates
    /// themselves, the targets of their votes, the targets of the votes of
    /// those, and so on.
    pub fn white_list(&self) -> (r: AddressSet)
        requires
            self.wf(),
        ensures
            r.wf(),
            r@ == self.reachable_set(),
    {
        let mut reached: AddressSet = self.delegates.copy();
        let mut stack: Vec<Address> = Vec::new();
        let mut i: usize = 0;
        while i < self.delegates.items.len()
            invariant
                0 <= i <= self.delegates.items@.len(),
                stack@ =~= self.delegates.items@.take(i as int),
            decreases self.delegates.items@.len() - i,
        {
            stack.push(self.delegates.items[i]);
            i = i + 1;
        }
        proof {
            assert(stack@ =~= self.delegates.items@);
            lemma_universe_finite(*self);
            assert forall|a: Address| reached@.contains(a) implies self.reachable(a) by {
                assert(self.reachable_within(a, 0));
            }
        }
        while stack.len() > 0
            invariant
                self.wf(),
                reached.wf(),
                self.universe().finite(),
                reached@.subset_of(self.universe()),
                forall|a: Address| reached@.contains(a) ==> self.reachable(a),
                forall|a: Address| self.delegates@.contains(a) ==> reached@.contains(a),
                forall|k: int| 0 <= k < stack@.len() ==> reached@.contains(#[trigger] stack@[k]),
                forall|x: Address, b: Address|
                    reached@.contains(x) && !stack@.contains(x) && #[trigger] self.votes_for(x, b)
                        ==> reached@.contains(b),
            decreases self.universe().difference(reached@).len(), stack@.len(),
        {
            let ghost stack_before = stack@;
            let ghost count = self.universe().difference(reached@).len();
            let a: Address = stack.pop().unwrap();
            let ghost base = stack@;
            proof {
                assert(stack_before =~= base.push(a));
                assert(stack_before[stack_before.len() - 1] == a);
                assert(reached@.contains(a));
                assert forall|k: int| 0 <= k < base.len() implies reached@.contains(
                    #[trigger] base[k],
                ) by {
                    assert(stack_before[k] == base[k]);
                }
                assert forall|x: Address| !base.contains(x) && x != a implies !stack_before.contains(
                    x,
                ) by {
                    if stack_before.contains(x) {
                        let p = stack_before.index_of(x);
                        if p < base.len() {
                            assert(base[p] == x);
                        }
                    }
                }
            }
            match self.source_target_map.get(&a) {
                Some(row) => {
                    proof {
                        lemma_row_wf(self.source_target_map, a);
                    }
                    let mut j: usize = 0;
                    while j < row.keys.items.len()
                        invariant
                            self.wf(),
                            reached.wf(),
                            row.wf(),
                            self.source_target_map@.contains_key(a),
                            *row == self.source_target_map@[a],
                            self.universe().finite(),
                            reached@.subset_of(self.universe()),
                            forall|a: Address| reached@.contains(a) ==> self.reachable(a),
                            forall|a: Address| self.delegates@.contains(a) ==> reached@.contains(a),
                            forall|k: int|
                                0 <= k < stack@.len() ==> reached@.contains(#[trigger] stack@[k]),
                            forall|x: Address, b: Address|
                                reached@.contains(x) && !stack@.contains(x) && x != a
                                    && #[trigger] self.votes_for(x, b) ==> reached@.contains(b),
                            self.reachable(a),
                            0 <= j <= row.keys.items@.len(),
                            forall|q: int|
                                0 <= q < j ==> reached@.contains(#[trigger] row.keys.items@[q]),
                            base.len() <= stack@.len(),
                            self.universe().difference(reached@).len() + (stack@.len()
                                - base.len()) == count,
                        decreases row.keys.items@.len() - j,
                    {
                        let target: Address = row.keys.items[j];
                        let ghost reached_before = reached@;
                        let ghost stack_now = stack@;
                        proof {
                            lemma_entry(*row, j as int);
                            assert(self.votes_for(a, target));
                            lemma_target_in_universe(*self, a, target);
                            lemma_reachable_step(*self, a, target);
                        }
                        if reached.insert(target) {
                            stack.push(target);
                            proof {
                                let u = self.universe();
                                assert(u.difference(reached@) =~= u.difference(
                                    reached_before,
                                ).remove(target));
                                assert(u.difference(reached_before).contains(target));
                                assert(stack@ =~= stack_now.push(target));
                                assert(stack@[stack@.len() - 1] == target);
                                assert(stack@.contains(target));
                                assert forall|x: Address| !stack@.contains(x) implies !stack_now.contains(
                                    x,
                                ) by {
                                    if stack_now.contains(x) {
                                        let p = stack_now.index_of(x);
                                        assert(stack@[p] == x);
                                    }
                                }
                                assert forall|k: int| 0 <= k < stack@.len() implies reached@.contains(
                                    #[trigger] stack@[k],
                                ) by {
                                    if k < stack_now.len() {
                                        assert(stack_now[k] == stack@[k]);
                                        assert(reached_before.contains(stack_now[k]));
                                    }
                                }
                                assert forall|x: Address, b: Address|
                                    reached@.contains(x) && !stack@.contains(x) && x != a
                                        && #[trigger] self.votes_for(x, b) implies reached@.contains(
                                    b,
                                ) by {
                                    assert(x != target);
                                    assert(reached_before.contains(x));
                                    assert(!stack_now.contains(x));
                                    assert(reached_before.contains(b));
                                }
                            }
                        }
                        j = j + 1;
                    }
                    proof {
                        assert forall|b: Address| self.votes_for(a, b) implies reached@.contains(
                            b,
                        ) by {
                            lemma_key_index(*row, b);
                            let q = row.keys.items@.index_of(b);
                            assert(reached@.contains(row.keys.items@[q]));
                        }
                    }
                },
                None => {
                    proof {
                        assert(self.row(a) =~= Map::<Address, u64>::empty());
                    }
                },
            }
        }
        proof {
            assert forall|a: Address| #[trigger]
                reached@.contains(a) <==> self.reachable_set().contains(a) by {
                if self.reachable(a) {
                    let n = choose|n: nat| self.reachable_within(a, n);
                    lemma_closed_holds_reachable(*self, reached@, a, n);
                }
            }
            assert(reached@ =~= self.reachable_set());
        }
        reached
    }

    /// Keeps, of the intermediaries and of the policies, those that the
    /// delegates reach. The delegates and the votes stay as they are.
    pub fn strip_addresses(&mut self)
        requires
            old(self).wf(),
        ensures
            final(self).wf(),
            final(self).intermediaries@ == old(self).intermediaries@.intersect(
                old(self).reachable_set(),
            ),
            final(self).policies@ == old(self).policies@.intersect(old(self).reachable_set()),
            final(self).delegates == old(self).delegates,
            final(self).source_target_map == old(self).source_target_map,
    {
        let white_list: AddressSet = self.white_list();
        let intermediaries: AddressSet = self.intermediaries.intersection(&white_list);
        let policies: AddressSet = self.policies.intersection(&white_list);
        self.intermediaries = intermediaries;
        self.policies = policies;
    }
}

/// The targets of the first `n` rows are finitely many.
pub proof fn lemma_targets_upto_finite(rows: Seq<AddressMap<u64>>, n: int)
    requires
        n <= rows.len(),
    ensures
        targets_upto(rows, n).finite(),
    decreases n,
{
    if n > 0 {
        lemma_targets_upto_finite(rows, n - 1);
        vstd::seq_lib::seq_to_set_is_finite(rows[n - 1].keys.items@);
    }
}

/// A target of one of the first `n` rows is among their targets.
pub proof fn lemma_targets_upto_contains(
    rows: Seq<AddressMap<u64>>,
    n: int,
    i: int,
    target: Address,
)
    requires
        0 <= i < n <= rows.len(),
        rows[i].keys@.contains(target),
    ensures
        targets_upto(rows, n).contains(target),
    decreases n,
{
    if i < n - 1 {
        lemma_targets_upto_contains(rows, n - 1, i, target);
    }
}

/// The delegates and the targets of all votes are finitely many.
pub proof fn lemma_universe_finite(data: Votes)
    ensures
        data.universe().finite(),
{
    vstd::seq_lib::seq_to_set_is_finite(data.delegates.items@);
    lemma_targets_upto_finite(
        data.source_target_map.values@,
        data.source_target_map.values@.len() as int,
    );
}

/// The target of a vote is one of the targets of all votes.
pub proof fn lemma_target_in_universe(data: Votes, source: Address, target: Address)
    requires
        data.wf(),
        data.votes_for(source, target),
    ensures
        data.universe().contains(target),
{
    let m = data.source_target_map;
    lemma_key_index(m, source);
    let i = m.keys.items@.index_of(source);
    assert(m.values@[i].wf());
    lemma_key_index(m.values@[i], target);
    assert(m.values@[i].keys.items@.contains(target));
    lemma_targets_upto_contains(m.values@, m.values@.len() as int, i, target);
}

/// The target of a vote of a node that the delegates reach is reached too.
pub proof fn lemma_reachable_step(data: Votes, source: Address, target: Address)
    requires
        data.reachable(source),
        data.votes_for(source, target),
    ensures
        data.reachable(target),
{
    let n = choose|n: nat| data.reachable_within(source, n);
    assert(data.reachable_within(target, n + 1));
}

/// A set that holds the delegates, and with each node the targets of its
/// votes, holds every node that the delegates reach.
pub proof fn lemma_closed_holds_reachable(data: Votes, s: Set<Address>, a: Address, n: nat)
    requires
        forall|d: Address| data.delegates@.contains(d) ==> s.contains(d),
        forall|x: Address, b: Address| s.contains(x) && #[trigger] data.votes_for(x, b) ==> s.contains(b),
        data.reachable_within(a, n),
    ensures
        s.contains(a),
    decreases n,
{
    if n > 0 {
        if data.reachable_within(a, (n - 1) as nat) {
            lemma_closed_holds_reachable(data, s, a, (n - 1) as nat);
        } else {
            let b = choose|b: Address|
                data.reachable_within(b, (n - 1) as nat) && #[trigger] data.votes_for(b, a);
            lemma_closed_holds_reachable(data, s, b, (n - 1) as nat);
        }
    }
}

} // verus!
