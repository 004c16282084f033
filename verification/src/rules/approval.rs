//! The approval rule: each weight above one half is one vote.

use crate::address::Address;
use crate::address_map::{lemma_entry, lemma_key_index, AddressMap};
use crate::address_set::{lemma_ascending_distinct, lemma_ascending_len};
use crate::rules::{Rule, VoteOutcome};
use crate::vote_data::{lemma_normalized_weights_bounded, lemma_row_wf, normalizes, Votes};
use crate::weight::{amount, sum, UNIT};
use vstd::prelude::*;

verus! {

/// The weight that a vote has to exceed to count as an approval: one half.
pub const APPROVAL_THRESHOLD: u64 = 500_000;

/// The approval rule.
pub struct Approval {}

/// The votes `row` approve of `target`.
pub open spec fn approved(row: Map<Address, u64>, target: Address, threshold: u64) -> bool {
    row.contains_key(target) && row[target] > threshold
}

/// The number of the first `n` delegates that approve of `target`.
pub open spec fn approvals(data: Votes, n: int, target: Address, threshold: u64) -> nat
    decreases n,
{
    if n <= 0 {
        0
    } else {
        approvals(data, n - 1, target, threshold) + if approved(
            data.row(data.delegates.items@[n - 1]),
            target,
            threshold,
        ) {
            1nat
        } else {
            0nat
        }
    }
}

/// The number of the first `n` weights that are approvals.
pub open spec fn approved_weights(weights: Seq<u64>, n: int, threshold: u64) -> nat
    decreases n,
{
    if n <= 0 {
        0
    } else {
        approved_weights(weights, n - 1, threshold) + if weights[n - 1] > threshold {
            1nat
        } else {
            0nat
        }
    }
}

/// The number of approvals that the first `n` delegates give, all targets
/// together.
pub open spec fn ballots(data: Votes, n: int, threshold: u64) -> nat
    decreases n,
{
    if n <= 0 {
        0
    } else {
        let weights = data.weights(data.delegates.items@[n - 1]);
        ballots(data, n - 1, threshold) + approved_weights(weights, weights.len() as int, threshold)
    }
}

/// Each delegate approves of one target at most, as it does when its weights
/// add up to no more than one whole.
pub open spec fn single_approvals(data: Votes, threshold: u64) -> bool {
    forall|i: int|
        0 <= i < data.delegates.items@.len() ==> approved_weights(
            #[trigger] data.weights(data.delegates.items@[i]),
            data.weights(data.delegates.items@[i]).len() as int,
            threshold,
        ) <= 1
}

/// One of the first `n` votes of `row` is an approval of `target`.
pub open spec fn approved_among(
    row: AddressMap<u64>,
    n: int,
    target: Address,
    threshold: u64,
) -> bool {
    exists|j: int|
        0 <= j < n && j < row.keys.items@.len() && #[trigger] row.keys.items@[j] == target
            && row.values@[j] > threshold
}

/// One for a truth, nothing for a falsehood.
pub open spec fn unit_if(b: bool) -> nat {
    if b {
        1
    } else {
        0
    }
}

impl Approval {
    /// Counts, for each target, the delegates that give it a weight above
    /// `threshold`. The score of a target is that count, as a fixed-point
    /// number; a target that nobody approves of has no score.
    pub fn with_threshold(data: &Votes, threshold: u64) -> (r: Option<VoteOutcome>)
        requires
            data.wf(),
        ensures
            r is Some <==> forall|t: Address|
                (#[trigger] approvals(*data, data.delegates.items@.len() as int, t, threshold))
                    * UNIT <= u64::MAX,
            r is Some ==> r.unwrap() is SimpleOutcome,
            r is Some ==> r.unwrap().scores().wf(),
            r is Some ==> forall|t: Address| #[trigger]
                amount(r.unwrap().scores()@, t) == approvals(
                    *data,
                    data.delegates.items@.len() as int,
                    t,
                    threshold,
                ) * UNIT,
            r is Some ==> forall|t: Address| #[trigger]
                r.unwrap().scores()@.contains_key(t) <==> approvals(
                    *data,
                    data.delegates.items@.len() as int,
                    t,
                    threshold,
                ) > 0,
            r is Some ==> r.unwrap().scores().total() == ballots(
                *data,
                data.delegates.items@.len() as int,
                threshold,
            ) * UNIT,
            r is Some && single_approvals(*data, threshold) ==> r.unwrap().scores().total()
                <= data.delegates@.len() * UNIT,
            data.delegates.items@.len() * UNIT <= u64::MAX ==> r is Some,
    {
        let mut scores: AddressMap<u64> = AddressMap::new();
        let mut i: usize = 0;
        assert(scores.total() == 0);
        while i < data.delegates.items.len()
            invariant
                data.wf(),
                scores.wf(),
                0 <= i <= data.delegates.items@.len(),
                forall|t: Address| #[trigger]
                    amount(scores@, t) == approvals(*data, i as int, t, threshold) * UNIT,
                forall|t: Address| #[trigger]
                    scores@.contains_key(t) <==> approvals(*data, i as int, t, threshold) > 0,
                scores.total() == ballots(*data, i as int, threshold) * UNIT,
            decreases data.delegates.items@.len() - i,
        {
            let delegate: Address = data.delegates.items[i];
            match data.source_target_map.get(&delegate) {
                Some(row) => {
                    proof {
                        lemma_row_wf(data.source_target_map, delegate);
                    }
                    let mut j: usize = 0;
                    while j < row.keys.items.len()
                        invariant
                            data.wf(),
                            scores.wf(),
                            row.wf(),
                            0 <= i < data.delegates.items@.len(),
                            delegate == data.delegates.items@[i as int],
                            data.source_target_map@.contains_key(delegate),
                            *row == data.source_target_map@[delegate],
                            0 <= j <= row.keys.items@.len(),
                            forall|t: Address| #[trigger]
                                amount(scores@, t) == (approvals(*data, i as int, t, threshold) + unit_if(
                                    approved_among(*row, j as int, t, threshold),
                                )) * UNIT,
                            forall|t: Address| #[trigger]
                                scores@.contains_key(t) <==> approvals(*data, i as int, t, threshold)
                                    + unit_if(approved_among(*row, j as int, t, threshold)) > 0,
                            scores.total() == (ballots(*data, i as int, threshold) + approved_weights(
                                row.values@,
                                j as int,
                                threshold,
                            )) * UNIT,
                        decreases row.keys.items@.len() - j,
                    {
                        let target: Address = row.keys.items[j];
                        let ghost before = scores;
                        proof {
                            lemma_approved_among_new(*row, j as int, threshold);
                            assert forall|t: Address|
                                approved_among(*row, j + 1, t, threshold) <==> approved_among(
                                    *row,
                                    j as int,
                                    t,
                                    threshold,
                                ) || (t == target && row.values@[j as int]
                                    > threshold) by {
                                lemma_approved_among_step(*row, j as int, t, threshold);
                            }
                        }
                        if row.values[j] > threshold {
                            if !scores.credit(target, UNIT) {
                                proof {
                                    lemma_approved_among_all(*row, target, threshold);
                                    lemma_approvals_bound(
                                        *data,
                                        data.delegates.items@.len() as int,
                                        target,
                                        threshold,
                                    );
                                    assert(approved_among(*row, j + 1, target, threshold));
                                    lemma_approved_among_grows(
                                        *row,
                                        j + 1,
                                        row.keys.items@.len() as int,
                                        target,
                                        threshold,
                                    );
                                    assert(approved(data.row(delegate), target, threshold));
                                    lemma_approvals_grow(
                                        *data,
                                        i + 1,
                                        data.delegates.items@.len() as int,
                                        target,
                                        threshold,
                                    );
                                    assert(amount(before@, target) == approvals(
                                        *data,
                                        i as int,
                                        target,
                                        threshold,
                                    ) * UNIT);
                                    assert(approvals(
                                        *data,
                                        data.delegates.items@.len() as int,
                                        target,
                                        threshold,
                                    ) * UNIT > u64::MAX);
                                }
                                return None;
                            }
                            proof {
                                assert forall|t: Address| #[trigger]
                                    amount(scores@, t) == (approvals(*data, i as int, t, threshold) + unit_if(
                                        approved_among(*row, j + 1, t, threshold),
                                    )) * UNIT by {
                                    assert(amount(before@, t) == (approvals(*data, i as int, t, threshold)
                                        + unit_if(approved_among(*row, j as int, t, threshold))) * UNIT);
                                }
                                assert forall|t: Address| #[trigger]
                                    scores@.contains_key(t) <==> approvals(*data, i as int, t, threshold)
                                        + unit_if(approved_among(*row, j + 1, t, threshold)) > 0 by {
                                    assert(before@.contains_key(t) <==> approvals(
                                        *data,
                                        i as int,
                                        t,
                                        threshold,
                                    ) + unit_if(approved_among(*row, j as int, t, threshold)) > 0);
                                }
                            }
                        }
                        j = j + 1;
                    }
                    proof {
                        assert forall|t: Address|
                            approved_among(*row, j as int, t, threshold) <==> approved(
                                data.row(delegate),
                                t,
                                threshold,
                            ) by {
                            lemma_approved_among_all(*row, t, threshold);
                        }
                        assert(data.weights(delegate) == row.values@);
                    }
                },
                None => {
                    proof {
                        assert(data.row(delegate) =~= Map::<Address, u64>::empty());
                        assert(data.weights(delegate).len() == 0);
                    }
                },
            }
            i = i + 1;
        }
        proof {
            assert forall|t: Address|
                (#[trigger] approvals(*data, data.delegates.items@.len() as int, t, threshold))
                    * UNIT <= u64::MAX by {
                assert(amount(scores@, t) == approvals(
                    *data,
                    data.delegates.items@.len() as int,
                    t,
                    threshold,
                ) * UNIT);
            }
            lemma_ascending_len(data.delegates.items@);
            if single_approvals(*data, threshold) {
                lemma_ballots_bound(*data, data.delegates.items@.len() as int, threshold);
            }
        }
        Some(VoteOutcome::SimpleOutcome(scores))
    }
}

impl Rule for Approval {
    /// Counts, for each target, the delegates that give it a weight above one
    /// half. The score of a target is that count, as a fixed-point number;
    /// a target that nobody approves of has no score.
    fn calculate(data: &Votes) -> (r: Option<VoteOutcome>)
        ensures
            r is Some <==> forall|t: Address|
                (#[trigger] approvals(
                    *data,
                    data.delegates.items@.len() as int,
                    t,
                    APPROVAL_THRESHOLD,
                )) * UNIT <= u64::MAX,
            r is Some ==> r.unwrap() is SimpleOutcome,
            r is Some ==> r.unwrap().scores().wf(),
            r is Some ==> forall|t: Address| #[trigger]
                amount(r.unwrap().scores()@, t) == approvals(
                    *data,
                    data.delegates.items@.len() as int,
                    t,
                    APPROVAL_THRESHOLD,
                ) * UNIT,
            r is Some ==> forall|t: Address| #[trigger]
                r.unwrap().scores()@.contains_key(t) <==> approvals(
                    *data,
                    data.delegates.items@.len() as int,
                    t,
                    APPROVAL_THRESHOLD,
                ) > 0,
            r is Some ==> r.unwrap().scores().total() == ballots(
                *data,
                data.delegates.items@.len() as int,
                APPROVAL_THRESHOLD,
            ) * UNIT,
            r is Some && single_approvals(*data, APPROVAL_THRESHOLD)
                ==> r.unwrap().scores().total() <= data.delegates@.len() * UNIT,
            data.delegates.items@.len() * UNIT <= u64::MAX ==> r is Some,
    {
        Approval::with_threshold(data, APPROVAL_THRESHOLD)
    }
}

/// One vote more is among the first `n + 1` than among the first `n`.
pub proof fn lemma_approved_among_step(
    row: AddressMap<u64>,
    n: int,
    target: Address,
    threshold: u64,
)
    requires
        0 <= n < row.keys.items@.len(),
    ensures
        approved_among(row, n + 1, target, threshold) <==> approved_among(
            row,
            n,
            target,
            threshold,
        ) || (row.keys.items@[n] == target && row.values@[n] > threshold),
{
    if approved_among(row, n + 1, target, threshold) {
        let j = choose|j: int|
            0 <= j < n + 1 && j < row.keys.items@.len() && #[trigger] row.keys.items@[j] == target
                && row.values@[j] > threshold;
        if j < n {
            assert(approved_among(row, n, target, threshold));
        }
    }
    if approved_among(row, n, target, threshold) {
        let j = choose|j: int|
            0 <= j < n && j < row.keys.items@.len() && #[trigger] row.keys.items@[j] == target
                && row.values@[j] > threshold;
        assert(0 <= j < n + 1 && row.keys.items@[j] == target);
    }
    if row.keys.items@[n] == target && row.values@[n] > threshold {
        assert(0 <= n < n + 1 && row.keys.items@[n] == target);
    }
}

/// An approval among the first `n` votes is among the first `m`, for `m`
/// past `n`.
pub proof fn lemma_approved_among_grows(
    row: AddressMap<u64>,
    n: int,
    m: int,
    target: Address,
    threshold: u64,
)
    requires
        n <= m,
        approved_among(row, n, target, threshold),
    ensures
        approved_among(row, m, target, threshold),
{
    let j = choose|j: int|
        0 <= j < n && j < row.keys.items@.len() && #[trigger] row.keys.items@[j] == target
            && row.values@[j] > threshold;
    assert(0 <= j < m && row.keys.items@[j] == target);
}

/// The target of the vote at index `n` is the target of no earlier vote.
pub proof fn lemma_approved_among_new(row: AddressMap<u64>, n: int, threshold: u64)
    requires
        row.wf(),
        0 <= n < row.keys.items@.len(),
    ensures
        !approved_among(row, n, row.keys.items@[n], threshold),
{
    if approved_among(row, n, row.keys.items@[n], threshold) {
        let j = choose|j: int|
            0 <= j < n && j < row.keys.items@.len() && #[trigger] row.keys.items@[j]
                == row.keys.items@[n] && row.values@[j] > threshold;
        lemma_ascending_distinct(row.keys.items@, j, n);
    }
}

/// To be approved among all votes of a row is to be approved by the row.
pub proof fn lemma_approved_among_all(row: AddressMap<u64>, target: Address, threshold: u64)
    requires
        row.wf(),
    ensures
        approved_among(row, row.keys.items@.len() as int, target, threshold) <==> approved(
            row@,
            target,
            threshold,
        ),
{
    if approved_among(row, row.keys.items@.len() as int, target, threshold) {
        let j = choose|j: int|
            0 <= j < row.keys.items@.len() && j < row.keys.items@.len()
                && #[trigger] row.keys.items@[j] == target && row.values@[j]
                > threshold;
        lemma_entry(row, j);
    }
    if approved(row@, target, threshold) {
        lemma_key_index(row, target);
        let j = row.keys.items@.index_of(target);
        assert(0 <= j < row.keys.items@.len() && row.keys.items@[j] == target);
    }
}

/// No target has more approvals than there are delegates.
pub proof fn lemma_approvals_bound(data: Votes, n: int, target: Address, threshold: u64)
    requires
        0 <= n,
    ensures
        approvals(data, n, target, threshold) <= n,
    decreases n,
{
    if n > 0 {
        lemma_approvals_bound(data, n - 1, target, threshold);
    }
}

/// The count of approvals of a target does not fall as delegates are added.
pub proof fn lemma_approvals_grow(data: Votes, n: int, m: int, target: Address, threshold: u64)
    requires
        n <= m,
    ensures
        approvals(data, n, target, threshold) <= approvals(data, m, target, threshold),
    decreases m - n,
{
    if n < m {
        lemma_approvals_grow(data, n, m - 1, target, threshold);
    }
}

/// The first `n` weights add up to more than one half for each approval
/// among them.
pub proof fn lemma_approved_weights_sum(weights: Seq<u64>, n: int, threshold: u64)
    requires
        0 <= n <= weights.len(),
    ensures
        approved_weights(weights, n, threshold) * (threshold + 1) <= sum(weights.take(n)),
    decreases n,
{
    let t = threshold as int;
    if n > 0 {
        lemma_approved_weights_sum(weights, n - 1, threshold);
        assert(weights.take(n).drop_last() =~= weights.take(n - 1));
        assert(weights.take(n).last() == weights[n - 1]);
        let c = approved_weights(weights, n - 1, threshold) as int;
        assert((c + 1) * (t + 1) == c * (t + 1) + (t + 1)) by (nonlinear_arith);
    } else {
        assert(0 * (t + 1) == 0) by (nonlinear_arith);
    }
}

/// Where the weights of each delegate add up to one whole at most, as they
/// do after normalizing, and the threshold is one half or more, each delegate
/// approves of one target at most.
pub proof fn lemma_normalized_single_approvals(data: Votes, threshold: u64)
    requires
        2 * threshold >= UNIT,
        forall|i: int|
            0 <= i < data.delegates.items@.len() ==> sum(
                #[trigger] data.weights(data.delegates.items@[i]),
            ) <= UNIT,
    ensures
        single_approvals(data, threshold),
{
    assert forall|i: int| 0 <= i < data.delegates.items@.len() implies approved_weights(
        #[trigger] data.weights(data.delegates.items@[i]),
        data.weights(data.delegates.items@[i]).len() as int,
        threshold,
    ) <= 1 by {
        let weights = data.weights(data.delegates.items@[i]);
        lemma_approved_weights_sum(weights, weights.len() as int, threshold);
        assert(weights.take(weights.len() as int) =~= weights);
        let c = approved_weights(weights, weights.len() as int, threshold) as int;
        let t = threshold as int;
        let u = UNIT as int;
        assert(c <= 1) by (nonlinear_arith)
            requires
                c * (t + 1) <= u,
                2 * t >= u,
                0 <= c,
                0 <= t,
        ;
    }
}

/// After normalizing, each delegate approves of one target at most, so that
/// the approvals of such a graph are no more than its delegates.
pub proof fn lemma_normalized_graph_single_approvals(before: Votes, after: Votes)
    requires
        before.wf(),
        after.wf(),
        normalizes(before, after),
    ensures
        single_approvals(after, APPROVAL_THRESHOLD),
{
    assert forall|i: int| 0 <= i < after.delegates.items@.len() implies sum(
        #[trigger] after.weights(after.delegates.items@[i]),
    ) <= UNIT by {
        lemma_normalized_weights_bounded(before, after, after.delegates.items@[i]);
    }
    lemma_normalized_single_approvals(after, APPROVAL_THRESHOLD);
}

/// Where each delegate approves of one target at most, there are no more
/// approvals than delegates.
pub proof fn lemma_ballots_bound(data: Votes, n: int, threshold: u64)
    requires
        single_approvals(data, threshold),
        0 <= n <= data.delegates.items@.len(),
    ensures
        ballots(data, n, threshold) <= n,
    decreases n,
{
    if n > 0 {
        lemma_ballots_bound(data, n - 1, threshold);
        let weights = data.weights(data.delegates.items@[n - 1]);
        assert(approved_weights(weights, weights.len() as int, threshold) <= 1);
    }
}

} // verus!
