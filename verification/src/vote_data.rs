//! The delegation graph and the operations that reshape it.

use crate::address::Address;
use crate::address_map::{lemma_entry, lemma_key_index, AddressMap};
use crate::address_set::{among, lemma_among_all, lemma_among_step, rank, AddressSet};
use crate::matrix::Matrix;
use crate::rounding::{
    close_shares, lemma_above, lemma_below, lemma_carry, lemma_cumulative, lemma_normalized_bound,
    lemma_normalized_close, lemma_normalized_fixed, lemma_normalized_sum, lemma_share_at_bound,
    normalized, prefix, share_at,
};
use crate::weight::{sum, UNIT};
use vstd::arithmetic::div_mod::lemma_mod_pos_bound;
use vstd::prelude::*;

verus! {

/// The votes of every source.
pub type SourceTargetMap = AddressMap<AddressMap<u64>>;

/// A delegation graph: three sets of nodes, and the weighted votes that the
/// sources cast for their targets.
#[derive(Debug)]
pub struct Votes {
    pub delegates: AddressSet,
    pub intermediaries: AddressSet,
    pub policies: AddressSet,
    pub source_target_map: SourceTargetMap,
}

impl AddressMap<u64> {
    /// The entries of the map whose keys are in `keep`.
    pub fn restricted_to(&self, keep: &AddressSet) -> (r: AddressMap<u64>)
        requires
            self.wf(),
            keep.wf(),
        ensures
            r.wf(),
            r@ == self@.restrict(keep@),
    {
        let mut r: AddressMap<u64> = AddressMap::new();
        let mut i: usize = 0;
        while i < self.keys.items.len()
            invariant
                self.wf(),
                keep.wf(),
                r.wf(),
                0 <= i <= self.keys.items@.len(),
                forall|k: Address|
                    #[trigger] r@.contains_key(k) <==> keep@.contains(k) && among(
                        self.keys.items@,
                        i as int,
                        k,
                    ),
                forall|k: Address|
                    #[trigger] r@.contains_key(k) ==> self@.contains_key(k) && r@[k] == self@[k],
            decreases self.keys.items@.len() - i,
        {
            let key: Address = self.keys.items[i];
            let ghost before = r;
            proof {
                lemma_entry(*self, i as int);
            }
            if keep.contains(&key) {
                r.insert(key, self.values[i]);
            }
            proof {
                assert forall|k: Address|
                    #[trigger] r@.contains_key(k) <==> keep@.contains(k) && among(
                        self.keys.items@,
                        i + 1,
                        k,
                    ) by {
                    lemma_among_step(self.keys.items@, i as int, k);
                }
            }
            i = i + 1;
        }
        proof {
            assert forall|k: Address| #[trigger]
                r@.contains_key(k) <==> self@.restrict(keep@).contains_key(k) by {
                lemma_among_all(self.keys.items@, k);
            }
            assert(r@ =~= self@.restrict(keep@));
        }
        r
    }

    /// The sum of the weights of the map.
    pub fn sum_of_values(&self) -> (r: u128)
        ensures
            r == self.total(),
    {
        let mut acc: u128 = 0;
        let mut i: usize = 0;
        while i < self.values.len()
            invariant
                0 <= i <= self.values@.len(),
                acc == sum(self.values@.take(i as int)),
                acc <= i * 0xffff_ffff_ffff_ffff,
            decreases self.values@.len() - i,
        {
            proof {
                assert(self.values@.take(i + 1).drop_last() =~= self.values@.take(i as int));
                assert(i * 0xffff_ffff_ffff_ffff + 0xffff_ffff_ffff_ffff <= 0xffff_ffff_ffff_ffff
                    * 0xffff_ffff_ffff_ffff + 0xffff_ffff_ffff_ffff) by (nonlinear_arith)
                    requires
                        i <= 0xffff_ffff_ffff_ffff,
                ;
            }
            acc = acc + self.values[i] as u128;
            i = i + 1;
        }
        proof {
            assert(self.values@.take(i as int) =~= self.values@);
        }
        acc
    }

    /// The same targets, each weight replaced by its share in the sum of all.
    /// The shares add up to exactly one whole: what one share loses by being
    /// rounded down, a later one gets. Weights that add up to nothing are
    /// kept.
    pub fn normalized_row(&self) -> (r: AddressMap<u64>)
        ensures
            r.keys.items@ == self.keys.items@,
            r.values@ == normalized(self.values@),
            r.wf() == self.wf(),
            sum(self.values@) > 0 ==> sum(r.values@) == UNIT,
    {
        let total: u128 = self.sum_of_values();
        if total == 0 {
            return self.copy();
        }
        let mut values: Vec<u64> = Vec::new();
        let mut rest: u128 = 0;
        let mut i: usize = 0;
        proof {
            lemma_cumulative(self.values@, 0, 0);
            lemma_below(0, total as int);
        }
        while i < self.values.len()
            invariant
                0 <= i <= self.values@.len(),
                total == sum(self.values@),
                total > 0,
                rest < total,
                rest == (prefix(self.values@, i as int) as int * UNIT as int) % (total as int),
                values@.len() == i,
                forall|j: int| 0 <= j < i ==> values@[j] == share_at(self.values@, j),
            decreases self.values@.len() - i,
        {
            let weight: u64 = self.values[i];
            let ghost t = total as int;
            let ghost p = prefix(self.values@, i as int) as int * UNIT as int;
            proof {
                assert(weight as int * 1_000_000 <= 0xffff_ffff_ffff_ffff * 1_000_000)
                    by (nonlinear_arith)
                    requires
                        weight <= 0xffff_ffff_ffff_ffff,
                ;
            }
            let x: u128 = weight as u128 * UNIT as u128;
            proof {
                assert(0 <= p) by (nonlinear_arith)
                    requires
                        p == prefix(self.values@, i as int) as int * UNIT as int,
                ;
                assert(prefix(self.values@, i + 1) as int * UNIT as int == p + x)
                    by (nonlinear_arith)
                    requires
                        prefix(self.values@, i + 1) == prefix(self.values@, i as int) + weight,
                        p == prefix(self.values@, i as int) as int * UNIT as int,
                        x == weight as int * UNIT as int,
                ;
                lemma_carry(p, x as int, t);
                lemma_share_at_bound(self.values@, i as int);
                lemma_cumulative(self.values@, i as int, i + 1);
                lemma_cumulative(self.values@, i + 1, i + 1);
            }
            let gap: u128 = total - rest;
            let part: u128;
            if x < gap {
                proof {
                    lemma_below(rest + x, t);
                }
                part = 0;
                rest = rest + x;
            } else {
                let over: u128 = x - gap;
                proof {
                    lemma_above(over as int, t);
                    lemma_mod_pos_bound(over as int, t);
                }
                part = 1 + over / total;
                rest = over % total;
            }
            values.push(part as u64);
            i = i + 1;
        }
        proof {
            assert(values@ =~= normalized(self.values@));
            lemma_normalized_sum(self.values@);
        }
        AddressMap { keys: self.keys.copy(), values }
    }
}

impl Default for Votes {
    /// The graph without nodes and votes.
    fn default() -> (r: Votes)
        ensures
            r.wf(),
            r.delegates@ == Set::<Address>::empty(),
            r.intermediaries@ == Set::<Address>::empty(),
            r.policies@ == Set::<Address>::empty(),
            r.edges() == Map::<Address, Map<Address, u64>>::empty(),
            r.delegates.items@.len() == 0,
            r.intermediaries.items@.len() == 0,
            r.policies.items@.len() == 0,
            r.source_target_map.keys.items@.len() == 0,
    {
        Votes::new()
    }
}

impl Votes {
    /// The node sets and the map of votes are in order, and so is each row of
    /// the map.
    pub open spec fn wf(self) -> bool {
        &&& self.delegates.wf()
        &&& self.intermediaries.wf()
        &&& self.policies.wf()
        &&& rows_wf(self.source_target_map)
    }

    /// The votes that `source` casts: a weight for each of its targets.
    pub open spec fn row(self, source: Address) -> Map<Address, u64> {
        row_of(self.source_target_map, source)
    }

    /// The weights that `source` gives, in the order of its targets.
    pub open spec fn weights(self, source: Address) -> Seq<u64> {
        if self.source_target_map@.contains_key(source) {
            self.source_target_map@[source].values@
        } else {
            Seq::empty()
        }
    }

    /// The targets that `source` votes for, in the order of addresses.
    pub open spec fn targets(self, source: Address) -> Seq<Address> {
        if self.source_target_map@.contains_key(source) {
            self.source_target_map@[source].keys.items@
        } else {
            Seq::empty()
        }
    }

    /// The weights of `source` add up to nothing although it has targets, so
    /// that it has no shares.
    pub open spec fn undefined_shares(self, source: Address) -> bool {
        &&& self.source_target_map@.contains_key(source)
        &&& self.weights(source).len() > 0
        &&& sum(self.weights(source)) == 0
    }

    /// The votes of all sources, as a map of maps.
    pub open spec fn edges(self) -> Map<Address, Map<Address, u64>> {
        edges_of(self.source_target_map)
    }

    /// The votes of the delegates alone, as far as their targets are in `keep`.
    /// A delegate without votes has an empty row.
    pub open spec fn restricted(self, keep: Set<Address>) -> Map<Address, Map<Address, u64>> {
        Map::new(|s: Address| self.delegates@.contains(s), |s: Address| self.row(s).restrict(keep))
    }

    /// The number of nodes, each set counted for itself: the size of the
    /// transition matrix.
    pub open spec fn size(self) -> int {
        (self.delegates.items@.len() + self.intermediaries.items@.len()
            + self.policies.items@.len()) as int
    }

    /// The number of delegates and intermediaries: the nodes that can vote.
    pub open spec fn sources(self) -> int {
        (self.delegates.items@.len() + self.intermediaries.items@.len()) as int
    }

    /// The node with index `r`: the delegates come first, then the
    /// intermediaries, then the policies, each set in the order of addresses.
    pub open spec fn node_at(self, r: int) -> Address {
        if r < self.delegates.items@.len() {
            self.delegates.items@[r]
        } else if r < self.sources() {
            self.intermediaries.items@[r - self.delegates.items@.len()]
        } else {
            self.policies.items@[r - self.sources()]
        }
    }

    /// The node with index `r` is in none of the sets that come before the
    /// set in which `r` counts it. A node that is in more than one set gets
    /// votes at its first index only.
    pub open spec fn placed(self, r: int) -> bool {
        if r < self.delegates.items@.len() {
            true
        } else if r < self.sources() {
            !self.delegates@.contains(self.node_at(r))
        } else {
            !self.delegates@.contains(self.node_at(r)) && !self.intermediaries@.contains(
                self.node_at(r),
            )
        }
    }

    /// `a` is a delegate, an intermediary or a policy.
    pub open spec fn is_node(self, a: Address) -> bool {
        self.delegates@.contains(a) || self.intermediaries@.contains(a) || self.policies@.contains(
            a,
        )
    }

    /// The first index of the node `a`.
    pub open spec fn index_of(self, a: Address) -> int {
        if self.delegates@.contains(a) {
            self.delegates.items@.index_of(a)
        } else if self.intermediaries@.contains(a) {
            self.delegates.items@.len() + self.intermediaries.items@.index_of(a)
        } else {
            self.sources() + self.policies.items@.index_of(a)
        }
    }

    /// The entry of the transition matrix in row `r` and column `c`. The
    /// column of a delegate or an intermediary holds the weights of its votes,
    /// each in the row of its target. The column of a policy holds one whole in
    /// its own row: what has reached a policy stays there.
    pub open spec fn transition(self, r: int, c: int) -> nat {
        if c >= self.sources() {
            if r == c {
                UNIT as nat
            } else {
                0
            }
        } else if self.placed(r) && self.row(self.node_at(c)).contains_key(self.node_at(r)) {
            self.row(self.node_at(c))[self.node_at(r)] as nat
        } else {
            0
        }
    }

    /// The transition matrix of the graph.
    pub open spec fn transition_matrix(self) -> Seq<Seq<nat>> {
        Seq::new(
            self.size() as nat,
            |r: int| Seq::new(self.size() as nat, |c: int| self.transition(r, c)),
        )
    }

    /// The node with index `r`.
    pub fn node(&self, r: usize) -> (a: Address)
        requires
            r < self.size(),
        ensures
            a == self.node_at(r as int),
    {
        let d: usize = self.delegates.len();
        if r < d {
            self.delegates.items[r]
        } else if r - d < self.intermediaries.len() {
            self.intermediaries.items[r - d]
        } else {
            self.policies.items[r - d - self.intermediaries.len()]
        }
    }

    /// The transition matrix of the graph: square, with one row and one
    /// column for each node, the delegates first, then the intermediaries,
    /// then the policies. A vote for an address that is no node has no row
    /// and is left out.
    pub fn create_matrix(&self) -> (m: Matrix)
        requires
            self.wf(),
            self.size() <= usize::MAX,
        ensures
            m.wf(self.size()),
            m@ == self.transition_matrix(),
    {
        let d: usize = self.delegates.len();
        let sources: usize = d + self.intermediaries.len();
        let n: usize = sources + self.policies.len();
        let mut rows: Vec<Vec<u64>> = Vec::new();
        let mut r: usize = 0;
        while r < n
            invariant
                self.wf(),
                d == self.delegates.items@.len(),
                sources == self.sources(),
                n == self.size(),
                0 <= r <= n,
                rows@.len() == r,
                forall|p: int| 0 <= p < r ==> (#[trigger] rows@[p])@.len() == n,
                forall|p: int, q: int|
                    0 <= p < r && 0 <= q < n ==> #[trigger] rows@[p]@[q] as nat
                        == self.transition(p, q),
            decreases n - r,
        {
            let target: Address = self.node(r);
            let placed: bool = if r < d {
                true
            } else if r < sources {
                !self.delegates.contains(&target)
            } else {
                !self.delegates.contains(&target) && !self.intermediaries.contains(&target)
            };
            let mut row: Vec<u64> = Vec::new();
            let mut c: usize = 0;
            while c < n
                invariant
                    self.wf(),
                    d == self.delegates.items@.len(),
                    sources == self.sources(),
                    n == self.size(),
                    0 <= r < n,
                    0 <= c <= n,
                    target == self.node_at(r as int),
                    placed == self.placed(r as int),
                    row@.len() == c,
                    forall|q: int|
                        0 <= q < c ==> #[trigger] row@[q] as nat == self.transition(r as int, q),
                decreases n - c,
            {
                let v: u64 = if c >= sources {
                    if r == c {
                        UNIT
                    } else {
                        0
                    }
                } else if !placed {
                    0
                } else {
                    let source: Address = self.node(c);
                    match self.source_target_map.get(&source) {
                        Some(votes) => {
                            proof {
                                lemma_row_wf(self.source_target_map, source);
                            }
                            match votes.get(&target) {
                                Some(w) => *w,
                                None => 0,
                            }
                        },
                        None => 0,
                    }
                };
                row.push(v);
                c = c + 1;
            }
            rows.push(row);
            r = r + 1;
        }
        let m = Matrix { rows };
        proof {
            assert forall|p: int| 0 <= p < n implies #[trigger] m@[p]
                =~= self.transition_matrix()[p] by {}
            assert(m@ =~= self.transition_matrix());
        }
        m
    }

    /// The graph without nodes and votes.
    pub fn new() -> (r: Votes)
        ensures
            r.wf(),
            r.delegates@ == Set::<Address>::empty(),
            r.intermediaries@ == Set::<Address>::empty(),
            r.policies@ == Set::<Address>::empty(),
            r.edges() == Map::<Address, Map<Address, u64>>::empty(),
            r.delegates.items@.len() == 0,
            r.intermediaries.items@.len() == 0,
            r.policies.items@.len() == 0,
            r.source_target_map.keys.items@.len() == 0,
    {
        let r = Votes {
            delegates: AddressSet::new(),
            intermediaries: AddressSet::new(),
            policies: AddressSet::new(),
            source_target_map: AddressMap::new(),
        };
        assert(r.edges() =~= Map::<Address, Map<Address, u64>>::empty());
        r
    }

    /// Makes `address` a delegate, and says whether it was none before.
    pub fn add_delegate(&mut self, address: Address) -> (r: bool)
        requires
            old(self).wf(),
        ensures
            final(self).wf(),
            final(self).delegates@ == old(self).delegates@.insert(address),
            r <==> !old(self).delegates@.contains(address),
            r ==> final(self).delegates.items@ == old(self).delegates.items@.insert(
                rank(old(self).delegates.items@, address) as int,
                address,
            ),
            !r ==> final(self).delegates.items@ == old(self).delegates.items@,
            final(self).intermediaries == old(self).intermediaries,
            final(self).policies == old(self).policies,
            final(self).source_target_map == old(self).source_target_map,
    {
        self.delegates.insert(address)
    }

    /// Makes `address` an intermediary, and says whether it was none before.
    pub fn add_intermediary(&mut self, address: Address) -> (r: bool)
        requires
            old(self).wf(),
        ensures
            final(self).wf(),
            final(self).intermediaries@ == old(self).intermediaries@.insert(address),
            r <==> !old(self).intermediaries@.contains(address),
            r ==> final(self).intermediaries.items@ == old(self).intermediaries.items@.insert(
                rank(old(self).intermediaries.items@, address) as int,
                address,
            ),
            !r ==> final(self).intermediaries.items@ == old(self).intermediaries.items@,
            final(self).delegates == old(self).delegates,
            final(self).policies == old(self).policies,
            final(self).source_target_map == old(self).source_target_map,
    {
        self.intermediaries.insert(address)
    }

    /// Makes `address` a policy, and says whether it was none before.
    pub fn add_policy(&mut self, address: Address) -> (r: bool)
        requires
            old(self).wf(),
        ensures
            final(self).wf(),
            final(self).policies@ == old(self).policies@.insert(address),
            r <==> !old(self).policies@.contains(address),
            r ==> final(self).policies.items@ == old(self).policies.items@.insert(
                rank(old(self).policies.items@, address) as int,
                address,
            ),
            !r ==> final(self).policies.items@ == old(self).policies.items@,
            final(self).delegates == old(self).delegates,
            final(self).intermediaries == old(self).intermediaries,
            final(self).source_target_map == old(self).source_target_map,
    {
        self.policies.insert(address)
    }

    /// Gives `source` the votes `targets`, in place of those it had.
    pub fn set_votes(&mut self, source: Address, targets: AddressMap<u64>)
        requires
            old(self).wf(),
            targets.wf(),
        ensures
            final(self).wf(),
            final(self).edges() == old(self).edges().insert(source, targets@),
            final(self).row(source) == targets@,
            final(self).targets(source) == targets.keys.items@,
            final(self).weights(source) == targets.values@,
            forall|s: Address| s != source ==> #[trigger] final(self).row(s) == old(self).row(s),
            forall|s: Address|
                s != source ==> #[trigger] final(self).targets(s) == old(self).targets(s),
            forall|s: Address|
                s != source ==> #[trigger] final(self).weights(s) == old(self).weights(s),
            final(self).delegates == old(self).delegates,
            final(self).intermediaries == old(self).intermediaries,
            final(self).policies == old(self).policies,
    {
        let ghost before = self.source_target_map;
        self.source_target_map.insert(source, targets);
        proof {
            lemma_rows_insert(before, self.source_target_map, source, targets);
            assert forall|s: Address| s != source implies #[trigger] row_of(
                self.source_target_map,
                s,
            ) == row_of(before, s) by {}
        }
    }

    /// A copy of the graph.
    pub fn copy(&self) -> (r: Votes)
        requires
            self.wf(),
        ensures
            r.wf(),
            r.delegates.items@ == self.delegates.items@,
            r.intermediaries.items@ == self.intermediaries.items@,
            r.policies.items@ == self.policies.items@,
            r.delegates@ == self.delegates@,
            r.intermediaries@ == self.intermediaries@,
            r.policies@ == self.policies@,
            r.edges() == self.edges(),
    {
        let mut rows: Vec<AddressMap<u64>> = Vec::new();
        let mut i: usize = 0;
        while i < self.source_target_map.values.len()
            invariant
                self.wf(),
                0 <= i <= self.source_target_map.values@.len(),
                rows@.len() == i,
                forall|j: int| 0 <= j < i ==> (#[trigger] rows@[j]).wf(),
                forall|j: int|
                    0 <= j < i ==> (#[trigger] rows@[j])@ == self.source_target_map.values@[j]@,
            decreases self.source_target_map.values@.len() - i,
        {
            assert(self.source_target_map.values@[i as int].wf());
            rows.push(self.source_target_map.values[i].copy());
            i = i + 1;
        }
        let r = Votes {
            delegates: self.delegates.copy(),
            intermediaries: self.intermediaries.copy(),
            policies: self.policies.copy(),
            source_target_map: AddressMap { keys: self.source_target_map.keys.copy(), values: rows },
        };
        proof {
            assert forall|s: Address| r.source_target_map@.contains_key(s) implies (
            #[trigger] r.source_target_map@[s])@ == self.source_target_map@[s]@ by {
                let j = r.source_target_map.keys.items@.index_of(s);
                assert(rows@[j]@ == self.source_target_map.values@[j]@);
            }
            assert(r.edges() =~= self.edges());
        }
        r
    }

    /// Lets `source` vote for `target` with `weight`, in place of the weight
    /// it gave that target before. The other votes stay.
    pub fn add_vote(&mut self, source: Address, target: Address, weight: u64)
        requires
            old(self).wf(),
        ensures
            final(self).wf(),
            final(self).edges() == old(self).edges().insert(
                source,
                old(self).row(source).insert(target, weight),
            ),
            final(self).row(source) == old(self).row(source).insert(target, weight),
            old(self).row(source).contains_key(target) ==> final(self).targets(source)
                == old(self).targets(source),
            old(self).row(source).contains_key(target) ==> final(self).weights(source)
                == old(self).weights(source).update(
                rank(old(self).targets(source), target) as int,
                weight,
            ),
            !old(self).row(source).contains_key(target) ==> final(self).targets(source)
                == old(self).targets(source).insert(
                rank(old(self).targets(source), target) as int,
                target,
            ),
            !old(self).row(source).contains_key(target) ==> final(self).weights(source)
                == old(self).weights(source).insert(
                rank(old(self).targets(source), target) as int,
                weight,
            ),
            forall|s: Address| s != source ==> #[trigger] final(self).row(s) == old(self).row(s),
            forall|s: Address|
                s != source ==> #[trigger] final(self).targets(s) == old(self).targets(s),
            forall|s: Address|
                s != source ==> #[trigger] final(self).weights(s) == old(self).weights(s),
            final(self).delegates == old(self).delegates,
            final(self).intermediaries == old(self).intermediaries,
            final(self).policies == old(self).policies,
    {
        let mut targets: AddressMap<u64> = match self.source_target_map.get(&source) {
            Some(held) => {
                proof {
                    lemma_row_wf(self.source_target_map, source);
                }
                held.copy()
            },
            None => AddressMap::new(),
        };
        targets.insert(target, weight);
        self.set_votes(source, targets);
    }

    /// The number of nodes of the graph, each set counted for itself.
    pub fn count_address(&self) -> (r: usize)
        requires
            self.delegates.items@.len() + self.intermediaries.items@.len()
                + self.policies.items@.len() <= usize::MAX,
        ensures
            r == self.delegates.items@.len() + self.intermediaries.items@.len()
                + self.policies.items@.len(),
    {
        self.delegates.len() + self.intermediaries.len() + self.policies.len()
    }

    /// Keeps, of the votes, those that a delegate casts for a policy.
    pub fn delegates_to_policies(&mut self)
        requires
            old(self).wf(),
        ensures
            final(self).wf(),
            final(self).edges() == old(self).restricted(old(self).policies@),
            final(self).delegates == old(self).delegates,
            final(self).intermediaries == old(self).intermediaries,
            final(self).policies == old(self).policies,
    {
        let rows = restricted_rows(&self.delegates, &self.source_target_map, &self.policies);
        self.source_target_map = rows;
    }

    /// Keeps, of the votes, those that a delegate casts for a delegate.
    pub fn delegates_to_delegates(&mut self)
        requires
            old(self).wf(),
        ensures
            final(self).wf(),
            final(self).edges() == old(self).restricted(old(self).delegates@),
            final(self).delegates == old(self).delegates,
            final(self).intermediaries == old(self).intermediaries,
            final(self).policies == old(self).policies,
    {
        let rows = restricted_rows(&self.delegates, &self.source_target_map, &self.delegates);
        self.source_target_map = rows;
    }

    /// Keeps, of the votes, those that a delegate casts for an intermediary.
    pub fn delegates_to_intermediaries(&mut self)
        requires
            old(self).wf(),
        ensures
            final(self).wf(),
            final(self).edges() == old(self).restricted(old(self).intermediaries@),
            final(self).delegates == old(self).delegates,
            final(self).intermediaries == old(self).intermediaries,
            final(self).policies == old(self).policies,
    {
        let rows = restricted_rows(&self.delegates, &self.source_target_map, &self.intermediaries);
        self.source_target_map = rows;
    }

    /// Replaces each weight by its share in the sum of its source's weights,
    /// so that the weights of each source add up to exactly one whole. A
    /// source whose weights add up to nothing has no shares: its weights are
    /// kept, and it is among the sources that are returned.
    pub fn normalize(&mut self) -> (undefined: AddressSet)
        requires
            old(self).wf(),
        ensures
            final(self).wf(),
            normalizes(*old(self), *final(self)),
            shares_whole(*old(self), *final(self)),
            is_normalized(*final(self)),
            undefined.wf(),
            forall|s: Address| #[trigger] undefined@.contains(s) <==> old(self).undefined_shares(s),
    {
        let ghost before = *self;
        let mut rows: Vec<AddressMap<u64>> = Vec::new();
        let mut undefined: AddressSet = AddressSet::new();
        let mut i: usize = 0;
        while i < self.source_target_map.values.len()
            invariant
                *self == before,
                self.wf(),
                undefined.wf(),
                0 <= i <= self.source_target_map.values@.len(),
                rows@.len() == i,
                forall|j: int|
                    0 <= j < i ==> (#[trigger] rows@[j]).keys.items@
                        == self.source_target_map.values@[j].keys.items@,
                forall|j: int|
                    0 <= j < i ==> (#[trigger] rows@[j]).values@ == normalized(
                        self.source_target_map.values@[j].values@,
                    ),
                forall|j: int| 0 <= j < i ==> (#[trigger] rows@[j]).wf(),
                forall|j: int|
                    0 <= j < i ==> sum((#[trigger] rows@[j]).values@) == UNIT || sum(
                        rows@[j].values@,
                    ) == 0,
                forall|s: Address| #[trigger]
                    undefined@.contains(s) <==> undefined_among(self.source_target_map, i as int, s),
            decreases self.source_target_map.values@.len() - i,
        {
            assert(self.source_target_map.values@[i as int].wf());
            let row = self.source_target_map.values[i].normalized_row();
            let total: u128 = self.source_target_map.values[i].sum_of_values();
            if total == 0 && self.source_target_map.values[i].values.len() > 0 {
                undefined.insert(self.source_target_map.keys.items[i]);
            }
            proof {
                assert forall|s: Address| #[trigger]
                    undefined@.contains(s) <==> undefined_among(self.source_target_map, i + 1, s) by {
                    lemma_undefined_among_step(self.source_target_map, i as int, s);
                }
            }
            rows.push(row);
            i = i + 1;
        }
        proof {
            assert forall|s: Address| #[trigger]
                undefined@.contains(s) <==> before.undefined_shares(s) by {
                lemma_undefined_among_all(before.source_target_map, s);
            }
        }
        let keys = self.source_target_map.keys.copy();
        self.source_target_map = AddressMap { keys, values: rows };
        proof {
            lemma_normalizes_whole(before, *self);
        }
        undefined
    }
}

/// One of the first `n` sources of `m` is `source`, and its weights add up
/// to nothing although it has targets.
pub open spec fn undefined_among(m: AddressMap<AddressMap<u64>>, n: int, source: Address) -> bool {
    exists|j: int|
        0 <= j < n && j < m.keys.items@.len() && #[trigger] m.keys.items@[j] == source
            && m.values@[j].values@.len() > 0 && sum(m.values@[j].values@) == 0
}

proof fn lemma_undefined_among_step(m: AddressMap<AddressMap<u64>>, n: int, source: Address)
    requires
        0 <= n < m.keys.items@.len(),
    ensures
        undefined_among(m, n + 1, source) <==> undefined_among(m, n, source) || (m.keys.items@[n]
            == source && m.values@[n].values@.len() > 0 && sum(m.values@[n].values@) == 0),
{
    if undefined_among(m, n + 1, source) {
        let j = choose|j: int|
            0 <= j < n + 1 && j < m.keys.items@.len() && #[trigger] m.keys.items@[j] == source
                && m.values@[j].values@.len() > 0 && sum(m.values@[j].values@) == 0;
        if j < n {
            assert(undefined_among(m, n, source));
        }
    }
    if undefined_among(m, n, source) {
        let j = choose|j: int|
            0 <= j < n && j < m.keys.items@.len() && #[trigger] m.keys.items@[j] == source
                && m.values@[j].values@.len() > 0 && sum(m.values@[j].values@) == 0;
        assert(0 <= j < n + 1 && m.keys.items@[j] == source);
    }
    if m.keys.items@[n] == source && m.values@[n].values@.len() > 0 && sum(m.values@[n].values@)
        == 0 {
        assert(0 <= n < n + 1 && m.keys.items@[n] == source);
    }
}

proof fn lemma_undefined_among_all(m: AddressMap<AddressMap<u64>>, source: Address)
    requires
        m.wf(),
    ensures
        undefined_among(m, m.keys.items@.len() as int, source) <==> m@.contains_key(source)
            && m@[source].values@.len() > 0 && sum(m@[source].values@) == 0,
{
    if undefined_among(m, m.keys.items@.len() as int, source) {
        let j = choose|j: int|
            0 <= j < m.keys.items@.len() && j < m.keys.items@.len()
                && #[trigger] m.keys.items@[j] == source && m.values@[j].values@.len() > 0 && sum(
                m.values@[j].values@,
            ) == 0;
        lemma_entry(m, j);
    }
    if m@.contains_key(source) {
        lemma_key_index(m, source);
        let j = m.keys.items@.index_of(source);
        assert(0 <= j < m.keys.items@.len() && m.keys.items@[j] == source);
    }
}

/// `after` is `before` with each weight replaced by its share in the sum of
/// the weights of its source. Nodes, sources and targets are the same.
pub open spec fn normalizes(before: Votes, after: Votes) -> bool {
    &&& after.delegates == before.delegates
    &&& after.intermediaries == before.intermediaries
    &&& after.policies == before.policies
    &&& after.source_target_map.keys.items@ == before.source_target_map.keys.items@
    &&& after.source_target_map.values@.len() == before.source_target_map.values@.len()
    &&& forall|i: int|
        0 <= i < before.source_target_map.values@.len() ==> (
        #[trigger] after.source_target_map.values@[i]).keys.items@
            == before.source_target_map.values@[i].keys.items@
    &&& forall|i: int|
        0 <= i < before.source_target_map.values@.len() ==> (
        #[trigger] after.source_target_map.values@[i]).values@ == normalized(
            before.source_target_map.values@[i].values@,
        )
}

/// Where the weights of a source of `before` add up to more than nothing,
/// its weights in `after` add up to exactly one whole, and each is within
/// one millionth of the exact quotient of the weight by the sum.
pub open spec fn shares_whole(before: Votes, after: Votes) -> bool {
    forall|i: int|
        0 <= i < before.source_target_map.values@.len() && i
            < after.source_target_map.values@.len() && sum(
            before.source_target_map.values@[i].values@,
        ) > 0 ==> sum((#[trigger] after.source_target_map.values@[i]).values@) == UNIT
            && close_shares(
            before.source_target_map.values@[i].values@,
            after.source_target_map.values@[i].values@,
        )
}

/// Normalizing gives each source that has any weight to give exactly one
/// whole in all, in shares within one millionth of the exact quotients; so a
/// normalized graph is one in which every source gives one whole or nothing.
pub proof fn lemma_normalizes_whole(before: Votes, after: Votes)
    requires
        normalizes(before, after),
    ensures
        shares_whole(before, after),
        is_normalized(after),
{
    assert forall|i: int| 0 <= i < after.source_target_map.values@.len() implies sum(
        (#[trigger] after.source_target_map.values@[i]).values@,
    ) == UNIT || sum(after.source_target_map.values@[i].values@) == 0 by {
        let weights = before.source_target_map.values@[i].values@;
        if sum(weights) > 0 {
            lemma_normalized_sum(weights);
        }
    }
    assert forall|i: int|
        0 <= i < before.source_target_map.values@.len() && sum(
            before.source_target_map.values@[i].values@,
        ) > 0 implies sum((#[trigger] after.source_target_map.values@[i]).values@) == UNIT
        && close_shares(
        before.source_target_map.values@[i].values@,
        after.source_target_map.values@[i].values@,
    ) by {
        let weights = before.source_target_map.values@[i].values@;
        lemma_normalized_sum(weights);
        lemma_normalized_close(weights);
    }
}

/// To normalize a second time changes nothing.
pub proof fn lemma_normalize_twice(first: Votes, second: Votes, third: Votes)
    requires
        first.wf(),
        second.wf(),
        third.wf(),
        normalizes(first, second),
        normalizes(second, third),
    ensures
        third.edges() == second.edges(),
        forall|i: int|
            0 <= i < second.source_target_map.values@.len() ==> (
            #[trigger] third.source_target_map.values@[i]).values@
                == second.source_target_map.values@[i].values@,
{
    lemma_normalizes_whole(first, second);
    lemma_normalize_idempotent(second, third);
}

/// Every source gives one whole in all, or nothing.
pub open spec fn is_normalized(data: Votes) -> bool {
    forall|i: int|
        0 <= i < data.source_target_map.values@.len() ==> sum(
            (#[trigger] data.source_target_map.values@[i]).values@,
        ) == UNIT || sum(data.source_target_map.values@[i].values@) == 0
}

/// Normalizing is idempotent: a graph in which every source gives one whole
/// in all (or nothing) is left as it is, weight by weight.
pub proof fn lemma_normalize_idempotent(before: Votes, after: Votes)
    requires
        before.wf(),
        after.wf(),
        is_normalized(before),
        normalizes(before, after),
    ensures
        after.source_target_map.keys.items@ == before.source_target_map.keys.items@,
        forall|i: int|
            0 <= i < before.source_target_map.values@.len() ==> (
            #[trigger] after.source_target_map.values@[i]).keys.items@
                == before.source_target_map.values@[i].keys.items@,
        forall|i: int|
            0 <= i < before.source_target_map.values@.len() ==> (
            #[trigger] after.source_target_map.values@[i]).values@
                == before.source_target_map.values@[i].values@,
        after.edges() == before.edges(),
{
    assert forall|i: int| 0 <= i < before.source_target_map.values@.len() implies (
    #[trigger] after.source_target_map.values@[i]).values@
        == before.source_target_map.values@[i].values@ by {
        lemma_normalized_fixed(before.source_target_map.values@[i].values@);
    }
    assert forall|s: Address| after.source_target_map@.contains_key(s) implies (
    #[trigger] after.source_target_map@[s])@ == before.source_target_map@[s]@ by {
        let i = after.source_target_map.keys.items@.index_of(s);
        assert(0 <= i < after.source_target_map.keys.items@.len());
        assert(after.source_target_map.values@[i].values@
            == before.source_target_map.values@[i].values@);
        assert(after.source_target_map.values@[i]@ =~= before.source_target_map.values@[i]@);
    }
    assert(after.edges() =~= before.edges());
}

/// The weight of a vote for a node stands in the column of its source and
/// in the row of the first index of its target.
pub proof fn lemma_transition_of_vote(data: Votes, c: int, target: Address)
    requires
        data.wf(),
        0 <= c < data.sources(),
        data.row(data.node_at(c)).contains_key(target),
        data.is_node(target),
    ensures
        0 <= data.index_of(target) < data.size(),
        data.node_at(data.index_of(target)) == target,
        data.placed(data.index_of(target)),
        data.transition(data.index_of(target), c) == data.row(data.node_at(c))[target],
{
}

/// After normalizing, the weights of each source add up to one whole at
/// most.
pub proof fn lemma_normalized_weights_bounded(before: Votes, after: Votes, source: Address)
    requires
        before.wf(),
        after.wf(),
        normalizes(before, after),
    ensures
        sum(after.weights(source)) <= UNIT,
{
    if after.source_target_map@.contains_key(source) {
        lemma_key_index(after.source_target_map, source);
        let j = after.source_target_map.keys.items@.index_of(source);
        lemma_normalized_bound(before.source_target_map.values@[j].values@);
        assert(after.source_target_map.values@[j].values@ == normalized(
            before.source_target_map.values@[j].values@,
        ));
    }
}

/// To keep the votes for the targets in `keep` a second time changes nothing.
pub proof fn lemma_restriction_idempotent(before: Votes, after: Votes, keep: Set<Address>)
    requires
        after.delegates@ == before.delegates@,
        after.edges() == before.restricted(keep),
    ensures
        after.restricted(keep) == after.edges(),
{
    assert forall|s: Address| after.delegates@.contains(s) implies #[trigger] after.row(s).restrict(
        keep,
    ) == after.edges()[s] by {
        assert(after.edges().contains_key(s));
        assert(after.edges()[s] == before.row(s).restrict(keep));
        assert(after.row(s) == after.edges()[s]);
        assert(after.row(s).restrict(keep) =~= after.row(s));
    }
    assert(after.restricted(keep) =~= after.edges());
}

/// Where no node is in two of the three sets, the votes that a delegate
/// casts for delegates, for intermediaries and for policies share no target,
/// and together they are its votes for nodes.
pub proof fn lemma_restrictions_partition(data: Votes, source: Address)
    requires
        data.delegates@.contains(source),
        data.delegates@.disjoint(data.intermediaries@),
        data.delegates@.disjoint(data.policies@),
        data.intermediaries@.disjoint(data.policies@),
    ensures
        data.restricted(data.delegates@)[source].dom().disjoint(
            data.restricted(data.intermediaries@)[source].dom(),
        ),
        data.restricted(data.delegates@)[source].dom().disjoint(
            data.restricted(data.policies@)[source].dom(),
        ),
        data.restricted(data.intermediaries@)[source].dom().disjoint(
            data.restricted(data.policies@)[source].dom(),
        ),
        data.restricted(data.delegates@)[source].union_prefer_right(
            data.restricted(data.intermediaries@)[source],
        ).union_prefer_right(data.restricted(data.policies@)[source]) == data.row(source).restrict(
            data.delegates@.union(data.intermediaries@).union(data.policies@),
        ),
{
    let to_delegates = data.restricted(data.delegates@)[source];
    let to_intermediaries = data.restricted(data.intermediaries@)[source];
    let to_policies = data.restricted(data.policies@)[source];
    let all = data.delegates@.union(data.intermediaries@).union(data.policies@);
    assert(to_delegates == data.row(source).restrict(data.delegates@));
    assert(to_intermediaries == data.row(source).restrict(data.intermediaries@));
    assert(to_policies == data.row(source).restrict(data.policies@));
    assert(to_delegates.union_prefer_right(to_intermediaries).union_prefer_right(to_policies)
        =~= data.row(source).restrict(all));
}

/// The map of votes is in order, and so is each of its rows.
pub open spec fn rows_wf(m: AddressMap<AddressMap<u64>>) -> bool {
    &&& m.wf()
    &&& forall|i: int| 0 <= i < m.values@.len() ==> (#[trigger] m.values@[i]).wf()
}

/// The votes of `source` in `m`: none where it has no row.
pub open spec fn row_of(m: AddressMap<AddressMap<u64>>, source: Address) -> Map<Address, u64> {
    if m@.contains_key(source) {
        m@[source]@
    } else {
        Map::empty()
    }
}

/// The rows of `m`, each as a map.
pub open spec fn edges_of(m: AddressMap<AddressMap<u64>>) -> Map<Address, Map<Address, u64>> {
    Map::new(|s: Address| m@.contains_key(s), |s: Address| m@[s]@)
}

/// In a map of votes that is in order, each row that it holds is in order.
pub proof fn lemma_row_wf(m: AddressMap<AddressMap<u64>>, source: Address)
    requires
        rows_wf(m),
        m@.contains_key(source),
    ensures
        m@[source].wf(),
{
    let i = m.keys.items@.index_of(source);
    assert(m.values@[i].wf());
}

/// Putting a row that is in order into a map of votes keeps the map in order.
pub proof fn lemma_rows_insert(
    before: AddressMap<AddressMap<u64>>,
    after: AddressMap<AddressMap<u64>>,
    source: Address,
    targets: AddressMap<u64>,
)
    requires
        rows_wf(before),
        targets.wf(),
        after.wf(),
        after@ == before@.insert(source, targets),
    ensures
        rows_wf(after),
        edges_of(after) == edges_of(before).insert(source, targets@),
{
    assert forall|i: int| 0 <= i < after.values@.len() implies (#[trigger] after.values@[i]).wf() by {
        lemma_entry(after, i);
        let k = after.keys.items@[i];
        if k != source {
            assert(before@.contains_key(k));
            lemma_row_wf(before, k);
        }
    }
    assert(edges_of(after) =~= edges_of(before).insert(source, targets@));
}

/// For each delegate, the votes that it casts for targets in `keep`.
fn restricted_rows(
    delegates: &AddressSet,
    votes: &AddressMap<AddressMap<u64>>,
    keep: &AddressSet,
) -> (r: AddressMap<AddressMap<u64>>)
    requires
        delegates.wf(),
        keep.wf(),
        rows_wf(*votes),
    ensures
        rows_wf(r),
        edges_of(r) == Map::new(
            |s: Address| delegates@.contains(s),
            |s: Address| row_of(*votes, s).restrict(keep@),
        ),
{
    let mut r: AddressMap<AddressMap<u64>> = AddressMap::new();
    let mut i: usize = 0;
    while i < delegates.items.len()
        invariant
            delegates.wf(),
            keep.wf(),
            rows_wf(*votes),
            rows_wf(r),
            0 <= i <= delegates.items@.len(),
            forall|s: Address|
                #[trigger] r@.contains_key(s) <==> among(delegates.items@, i as int, s),
            forall|s: Address|
                #[trigger] r@.contains_key(s) ==> r@[s]@ == row_of(*votes, s).restrict(keep@),
        decreases delegates.items@.len() - i,
    {
        let delegate: Address = delegates.items[i];
        let ghost before = r;
        let row: AddressMap<u64> = match votes.get(&delegate) {
            Some(held) => {
                proof {
                    lemma_row_wf(*votes, delegate);
                }
                held.restricted_to(keep)
            },
            None => {
                let empty: AddressMap<u64> = AddressMap::new();
                assert(empty@ =~= row_of(*votes, delegate).restrict(keep@));
                empty
            },
        };
        r.insert(delegate, row);
        proof {
            lemma_rows_insert(before, r, delegate, row);
            assert forall|a: Address|
                #[trigger] r@.contains_key(a) <==> among(delegates.items@, i + 1, a) by {
                lemma_among_step(delegates.items@, i as int, a);
            }
        }
        i = i + 1;
    }
    proof {
        assert forall|a: Address| #[trigger] r@.contains_key(a) <==> delegates@.contains(a) by {
            lemma_among_all(delegates.items@, a);
        }
        assert(edges_of(r) =~= Map::new(
            |s: Address| delegates@.contains(s),
            |s: Address| row_of(*votes, s).restrict(keep@),
        ));
    }
    r
}

} // verus!
