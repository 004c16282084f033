//! The majority rule: each delegate votes for the target it weighs most.

use crate::address::Address;
use crate::address_map::AddressMap;
use crate::address_set::{among, lemma_among_all, lemma_among_step, lemma_ascending_len};
use crate::rules::{Rule, VoteOutcome};
use crate::vote_data::{edges_of, lemma_row_wf, lemma_rows_insert, rows_wf, Votes};
use crate::weight::{amount, UNIT};
use vstd::prelude::*;

verus! {

/// The majority rule.
pub struct Majority {}

/// The weight at index `p` is the greatest of `weights`, and the first of
/// those that are as great.
pub open spec fn is_favorite(weights: Seq<u64>, p: int) -> bool {
    &&& 0 <= p < weights.len()
    &&& forall|q: int| 0 <= q < weights.len() ==> weights[q] <= weights[p]
    &&& forall|q: int| 0 <= q < p ==> weights[q] < weights[p]
}

/// The index of the first greatest weight.
pub open spec fn favorite_index(weights: Seq<u64>) -> int {
    choose|p: int| is_favorite(weights, p)
}

/// The target that `delegate` weighs most; of several that it weighs the
/// same, the one whose address comes first. A delegate without votes has
/// none.
pub open spec fn favorite_of(data: Votes, delegate: Address) -> Option<Address> {
    favorite_in(data.source_target_map, delegate)
}

/// The target that `delegate` weighs most in the votes `votes`.
pub open spec fn favorite_in(votes: AddressMap<AddressMap<u64>>, delegate: Address) -> Option<
    Address,
> {
    if votes@.contains_key(delegate) && votes@[delegate].values@.len() > 0 {
        Some(votes@[delegate].keys.items@[favorite_index(votes@[delegate].values@)])
    } else {
        None
    }
}

/// The number of the first `n` delegates whose favorite is `target`.
pub open spec fn preferences(data: Votes, n: int, target: Address) -> nat
    decreases n,
{
    if n <= 0 {
        0
    } else {
        preferences(data, n - 1, target) + if favorite_of(data, data.delegates.items@[n - 1])
            == Some(target) {
            1nat
        } else {
            0nat
        }
    }
}

/// The number of the first `n` delegates that have a favorite.
pub open spec fn voters(data: Votes, n: int) -> nat
    decreases n,
{
    if n <= 0 {
        0
    } else {
        voters(data, n - 1) + if favorite_of(data, data.delegates.items@[n - 1]) is Some {
            1nat
        } else {
            0nat
        }
    }
}

/// The votes in which each delegate that has a favorite gives it one whole,
/// and nothing else is left.
pub open spec fn favorites(data: Votes) -> Map<Address, Map<Address, u64>> {
    Map::new(
        |s: Address| data.delegates@.contains(s) && favorite_of(data, s) is Some,
        |s: Address| Map::<Address, u64>::empty().insert(favorite_of(data, s).unwrap(), UNIT),
    )
}

/// The index of the favorite among the votes of `row`, if it has any votes.
pub fn favorite(row: &AddressMap<u64>) -> (r: Option<usize>)
    requires
        row.wf(),
    ensures
        r is None <==> row.values@.len() == 0,
        r is Some ==> is_favorite(row.values@, r.unwrap() as int),
        r is Some ==> r.unwrap() == favorite_index(row.values@),
{
    if row.values.len() == 0 {
        return None;
    }
    let mut best: usize = 0;
    let mut j: usize = 1;
    while j < row.values.len()
        invariant
            0 <= best < j <= row.values@.len(),
            forall|q: int| 0 <= q < j ==> row.values@[q] <= row.values@[best as int],
            forall|q: int| 0 <= q < best ==> row.values@[q] < row.values@[best as int],
        decreases row.values@.len() - j,
    {
        if row.values[best] < row.values[j] {
            best = j;
        }
        j = j + 1;
    }
    proof {
        lemma_favorite_unique(row.values@, best as int, favorite_index(row.values@));
    }
    Some(best)
}

/// The favorite of `delegate` in the votes `votes`, if it has one.
fn favorite_target(votes: &AddressMap<AddressMap<u64>>, delegate: &Address) -> (r: Option<Address>)
    requires
        rows_wf(*votes),
    ensures
        r == favorite_in(*votes, *delegate),
{
    match votes.get(delegate) {
        Some(row) => {
            proof {
                lemma_row_wf(*votes, *delegate);
            }
            match favorite(row) {
                Some(p) => Some(row.keys.items[p]),
                None => None,
            }
        },
        None => None,
    }
}

impl Majority {
    /// Leaves each delegate one vote only: one whole for its favorite. A
    /// delegate without votes is left without a row, and so is every source
    /// that is no delegate.
    pub fn single_favorite(data: &mut Votes)
        requires
            old(data).wf(),
        ensures
            final(data).wf(),
            final(data).edges() == favorites(*old(data)),
            final(data).delegates == old(data).delegates,
            final(data).intermediaries == old(data).intermediaries,
            final(data).policies == old(data).policies,
    {
        let ghost before = *data;
        let mut rows: AddressMap<AddressMap<u64>> = AddressMap::new();
        let mut i: usize = 0;
        while i < data.delegates.items.len()
            invariant
                *data == before,
                before.wf(),
                rows_wf(rows),
                0 <= i <= before.delegates.items@.len(),
                forall|s: Address| #[trigger]
                    rows@.contains_key(s) <==> among(before.delegates.items@, i as int, s)
                        && favorite_of(before, s) is Some,
                forall|s: Address| #[trigger]
                    rows@.contains_key(s) ==> rows@[s]@ == Map::<Address, u64>::empty().insert(
                        favorite_of(before, s).unwrap(),
                        UNIT,
                    ),
            decreases before.delegates.items@.len() - i,
        {
            let delegate: Address = data.delegates.items[i];
            let ghost held = rows;
            match favorite_target(&data.source_target_map, &delegate) {
                Some(target) => {
                    let mut row: AddressMap<u64> = AddressMap::new();
                    row.insert(target, UNIT);
                    rows.insert(delegate, row);
                    proof {
                        lemma_rows_insert(held, rows, delegate, row);
                    }
                },
                None => {},
            }
            proof {
                assert forall|s: Address| #[trigger]
                    rows@.contains_key(s) <==> among(before.delegates.items@, i + 1, s)
                        && favorite_of(before, s) is Some by {
                    lemma_among_step(before.delegates.items@, i as int, s);
                }
            }
            i = i + 1;
        }
        proof {
            assert forall|s: Address| #[trigger]
                rows@.contains_key(s) <==> favorites(before).contains_key(s) by {
                lemma_among_all(before.delegates.items@, s);
            }
            assert(edges_of(rows) =~= favorites(before));
        }
        data.source_target_map = rows;
    }
}

impl Rule for Majority {
    /// Counts, for each target, the delegates whose favorite it is. The score
    /// of a target is that count, as a fixed-point number; a target that is
    /// nobody's favorite has no score.
    fn calculate(data: &Votes) -> (r: Option<VoteOutcome>)
        ensures
            r is Some <==> forall|t: Address|
                (#[trigger] preferences(*data, data.delegates.items@.len() as int, t)) * UNIT
                    <= u64::MAX,
            r is Some ==> r.unwrap() is SimpleOutcome,
            r is Some ==> r.unwrap().scores().wf(),
            r is Some ==> forall|t: Address| #[trigger]
                amount(r.unwrap().scores()@, t) == preferences(
                    *data,
                    data.delegates.items@.len() as int,
                    t,
                ) * UNIT,
            r is Some ==> forall|t: Address| #[trigger]
                r.unwrap().scores()@.contains_key(t) <==> preferences(
                    *data,
                    data.delegates.items@.len() as int,
                    t,
                ) > 0,
            r is Some ==> r.unwrap().scores().total() == voters(
                *data,
                data.delegates.items@.len() as int,
            ) * UNIT,
            r is Some ==> r.unwrap().scores().total() <= data.delegates@.len() * UNIT,
            data.delegates.items@.len() * UNIT <= u64::MAX ==> r is Some,
    {
        let mut scores: AddressMap<u64> = AddressMap::new();
        let mut i: usize = 0;
        assert(scores.total() == 0);
        while i < data.delegates.items.len()
            invariant
                data.wf(),
                scores.wf(),
                0 <= i <= data.delegates.items@.len(),
                forall|t: Address| #[trigger]
                    amount(scores@, t) == preferences(*data, i as int, t) * UNIT,
                forall|t: Address| #[trigger]
                    scores@.contains_key(t) <==> preferences(*data, i as int, t) > 0,
                scores.total() == voters(*data, i as int) * UNIT,
            decreases data.delegates.items@.len() - i,
        {
            let delegate: Address = data.delegates.items[i];
            let ghost before = scores;
            match favorite_target(&data.source_target_map, &delegate) {
                Some(target) => {
                    if !scores.credit(target, UNIT) {
                        proof {
                            lemma_preferences_grow(
                                *data,
                                i + 1,
                                data.delegates.items@.len() as int,
                                target,
                            );
                            lemma_preferences_bound(
                                *data,
                                data.delegates.items@.len() as int,
                                target,
                            );
                            assert(amount(before@, target) == preferences(
                                *data,
                                i as int,
                                target,
                            ) * UNIT);
                            assert(preferences(
                                *data,
                                data.delegates.items@.len() as int,
                                target,
                            ) * UNIT > u64::MAX);
                        }
                        return None;
                    }
                    proof {
                        assert forall|t: Address| #[trigger]
                            amount(scores@, t) == preferences(*data, i + 1, t) * UNIT by {
                            assert(amount(before@, t) == preferences(*data, i as int, t) * UNIT);
                        }
                        assert forall|t: Address| #[trigger]
                            scores@.contains_key(t) <==> preferences(*data, i + 1, t) > 0 by {
                            assert(before@.contains_key(t) <==> preferences(*data, i as int, t)
                                > 0);
                        }
                    }
                },
                None => {},
            }
            i = i + 1;
        }
        proof {
            assert forall|t: Address|
                (#[trigger] preferences(*data, data.delegates.items@.len() as int, t)) * UNIT
                    <= u64::MAX by {
                assert(amount(scores@, t) == preferences(
                    *data,
                    data.delegates.items@.len() as int,
                    t,
                ) * UNIT);
            }
            lemma_voters_bound(*data, data.delegates.items@.len() as int);
            lemma_ascending_len(data.delegates.items@);
        }
        Some(VoteOutcome::SimpleOutcome(scores))
    }
}

/// A sequence has one favorite at most.
pub proof fn lemma_favorite_unique(weights: Seq<u64>, p: int, q: int)
    requires
        is_favorite(weights, p),
        weights.len() > 0,
    ensures
        is_favorite(weights, favorite_index(weights)),
        q == favorite_index(weights) ==> p == q,
{
    let f = favorite_index(weights);
    if p < f {
        assert(weights[p] < weights[f]);
    }
    if f < p {
        assert(weights[f] < weights[p]);
    }
}

/// No target is the favorite of more delegates than there are.
pub proof fn lemma_preferences_bound(data: Votes, n: int, target: Address)
    requires
        0 <= n,
    ensures
        preferences(data, n, target) <= n,
    decreases n,
{
    if n > 0 {
        lemma_preferences_bound(data, n - 1, target);
    }
}

/// The count of preferences for a target does not fall as delegates are
/// added.
pub proof fn lemma_preferences_grow(data: Votes, n: int, m: int, target: Address)
    requires
        n <= m,
    ensures
        preferences(data, n, target) <= preferences(data, m, target),
    decreases m - n,
{
    if n < m {
        lemma_preferences_grow(data, n, m - 1, target);
    }
}

/// There are no more voters than delegates.
pub proof fn lemma_voters_bound(data: Votes, n: int)
    requires
        0 <= n,
    ensures
        voters(data, n) <= n,
    decreases n,
{
    if n > 0 {
        lemma_voters_bound(data, n - 1);
    }
}

} // verus!
