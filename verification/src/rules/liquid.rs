//! The liquid rule: weight flows along the votes until it rests with the
//! policies, computed by the power method.

use crate::address::Address;
use crate::address_map::AddressMap;
use crate::matrix::{
    balanced, block_sum, column_sum, conserving, fits, flows, lemma_block_balanced,
    lemma_column_none, lemma_power_balanced, lemma_power_bounded, lemma_power_support,
    lemma_series_bounded, lemma_span_sum_bound, lemma_span_sum_holds, power, series, span_sum,
    Matrix, ITERATIONS,
};
use crate::rules::{Rule, VoteOutcome};
use crate::conservation::lemma_conserving;
use crate::vote_data::{lemma_normalized_weights_bounded, normalizes, Votes};
use crate::weight::{sum, UNIT};
use vstd::prelude::*;

verus! {

/// The liquid rule.
#[derive(Debug)]
pub struct LiquidDemocracy {}

/// The powers of `m` up to the power `steps`, and their sums, have entries
/// that fit.
pub open spec fn iterates_fit(m: Seq<Seq<nat>>, steps: nat) -> bool {
    &&& forall|k: nat| 1 <= k <= steps ==> fits(#[trigger] power(m, k))
    &&& forall|k: nat| 1 <= k <= steps ==> fits(#[trigger] series(m, k))
}

/// The score of the policy with index `p` among the policies: the weight
/// that has come to it from all delegates, after `steps` steps.
pub open spec fn score_of(data: Votes, steps: nat, p: int) -> nat {
    span_sum(
        power(data.transition_matrix(), steps)[data.sources() + p],
        0,
        data.delegates.items@.len() as int,
    )
}

/// What the node with index `i` has received over `steps` steps from the nodes
/// that can vote, itself included.
pub open spec fn reach_of(data: Votes, steps: nat, i: int) -> nat {
    span_sum(series(data.transition_matrix(), steps)[i], 0, data.sources())
}

/// The influence of the node with index `i`: what it has received over all
/// steps, divided by what it has received from itself.
pub open spec fn influence_of(data: Votes, steps: nat, i: int) -> nat {
    (reach_of(data, steps, i) * UNIT / (series(data.transition_matrix(), steps)[i][i]
        as int)) as nat
}

/// No number of the computation leaves the range of the fixed-point numbers.
pub open spec fn liquid_fits(data: Votes, steps: nat) -> bool {
    &&& data.size() <= usize::MAX
    &&& iterates_fit(data.transition_matrix(), steps)
    &&& forall|p: int|
        0 <= p < data.policies.items@.len() ==> #[trigger] score_of(data, steps, p) <= u64::MAX
    &&& forall|i: int| 0 <= i < data.sources() ==> #[trigger] reach_of(data, steps, i) <= u64::MAX
    &&& forall|i: int|
        0 <= i < data.sources() ==> #[trigger] influence_of(data, steps, i) <= u64::MAX
}

/// After `steps` steps nothing that a delegate had is with a delegate or an
/// intermediary: every walk of `steps` votes that starts at a delegate ends
/// at a policy.
pub open spec fn settled(data: Votes, steps: nat) -> bool {
    forall|c: int, r: int|
        0 <= c < data.delegates.items@.len() && 0 <= r < data.sources() ==> !#[trigger] flows(
            data.transition_matrix(),
            c,
            r,
            steps,
        )
}

/// No later index among the nodes that can vote holds the node of index `i`.
pub open spec fn last_occurrence(data: Votes, i: int) -> bool {
    forall|j: int| i < j < data.sources() ==> #[trigger] data.node_at(j) != data.node_at(i)
}

/// The node `a` has one of the first `n` indices.
pub open spec fn indexed_among(data: Votes, n: int, a: Address) -> bool {
    exists|j: int| 0 <= j < n && #[trigger] data.node_at(j) == a
}

/// The power of `m` after `steps` steps and the sum of all powers up to it,
/// if every entry on the way fits.
pub fn power_series(m: &Matrix, steps: usize) -> (r: Option<(Matrix, Matrix)>)
    requires
        m.wf(m.rows@.len() as int),
    ensures
        r is Some <==> iterates_fit(m@, steps as nat),
        r is Some ==> r.unwrap().0.wf(m.rows@.len() as int),
        r is Some ==> r.unwrap().1.wf(m.rows@.len() as int),
        r is Some ==> r.unwrap().0@ == power(m@, steps as nat),
        r is Some ==> r.unwrap().1@ == series(m@, steps as nat),
        r is Some ==> forall|i: int|
            0 <= i < m.rows@.len() ==> #[trigger] r.unwrap().1@[i][i] >= UNIT,
{
    let n: usize = m.size();
    let mut a: Matrix = Matrix::identity(n);
    let mut sum: Matrix = Matrix::identity(n);
    let mut k: usize = 0;
    while k < steps
        invariant
            n == m.rows@.len(),
            m.wf(n as int),
            a.wf(n as int),
            sum.wf(n as int),
            0 <= k <= steps,
            a@ == power(m@, k as nat),
            sum@ == series(m@, k as nat),
            iterates_fit(m@, k as nat),
            forall|i: int| 0 <= i < n ==> #[trigger] sum@[i][i] >= UNIT,
        decreases steps - k,
    {
        let next: Matrix = match a.multiply(m) {
            Some(x) => x,
            None => {
                proof {
                    assert(!fits(power(m@, (k + 1) as nat)));
                }
                return None;
            },
        };
        let total: Matrix = match sum.plus(&next) {
            Some(x) => x,
            None => {
                proof {
                    assert(!fits(series(m@, (k + 1) as nat)));
                }
                return None;
            },
        };
        proof {
            assert(next@ == power(m@, (k + 1) as nat));
            assert(total@ == series(m@, (k + 1) as nat));
            lemma_matrix_fits(next);
            lemma_matrix_fits(total);
            assert forall|i: int| 0 <= i < n implies #[trigger] total@[i][i] >= UNIT by {
                assert(total@[i][i] == sum@[i][i] + next@[i][i]);
            }
        }
        a = next;
        sum = total;
        k = k + 1;
    }
    Some((a, sum))
}

/// The entries of a matrix fit.
pub proof fn lemma_matrix_fits(m: Matrix)
    ensures
        fits(m@),
{
}

impl LiquidDemocracy {
    /// Lets the weight flow for `steps` steps, without loss: where every node
    /// passes on all that it has, and after `steps` steps all that the
    /// delegates had is with policies, the scores add up to one whole for each
    /// delegate. The scores are what
    /// has then come to each policy from the delegates; the influences say,
    /// for each delegate and intermediary, how much it has received over all
    /// steps for each part that it has received from itself. The keys of the
    /// scores are the policies, those of the influences the delegates and
    /// intermediaries. Of a node that is both, the influence is that of the
    /// intermediary.
    pub fn with_iterations(data: &Votes, steps: usize) -> (r: Option<VoteOutcome>)
        requires
            data.wf(),
        ensures
            r is Some <==> liquid_fits(*data, steps as nat),
            r is Some && balanced(data.transition_matrix()) && settled(*data, steps as nat)
                ==> r.unwrap().scores().total() == data.delegates.items@.len() * UNIT,
            r is Some ==> r.unwrap().influences() is Some,
            r is Some ==> r.unwrap().scores().wf(),
            r is Some ==> r.unwrap().scores().keys.items@ == data.policies.items@,
            r is Some ==> r.unwrap().scores()@.dom() == data.policies@,
            r is Some ==> forall|p: int|
                0 <= p < data.policies.items@.len() ==> #[trigger] r.unwrap().scores().values@[p]
                    == score_of(*data, steps as nat, p),
            r is Some ==> r.unwrap().influences().unwrap().wf(),
            r is Some ==> r.unwrap().influences().unwrap()@.dom() == data.delegates@.union(
                data.intermediaries@,
            ),
            r is Some ==> forall|a: Address| #[trigger]
                r.unwrap().influences().unwrap()@.contains_key(a) ==> r.unwrap().influences().unwrap()@[a]
                    >= UNIT,
            r is Some ==> forall|i: int|
                0 <= i < data.sources() && last_occurrence(*data, i)
                    ==> r.unwrap().influences().unwrap()@[#[trigger] data.node_at(i)]
                    == influence_of(*data, steps as nat, i),
    {
        let d: usize = data.delegates.len();
        let sources: usize = match d.checked_add(data.intermediaries.len()) {
            Some(x) => x,
            None => {
                return None;
            },
        };
        let n: usize = match sources.checked_add(data.policies.len()) {
            Some(x) => x,
            None => {
                return None;
            },
        };
        let m: Matrix = data.create_matrix();
        let (a, sum) = match power_series(&m, steps) {
            Some(pair) => pair,
            None => {
                return None;
            },
        };
        let mut values: Vec<u64> = Vec::new();
        let mut p: usize = 0;
        while p < data.policies.items.len()
            invariant
                data.wf(),
                d == data.delegates.items@.len(),
                sources == data.sources(),
                n == data.size(),
                a.wf(n as int),
                a@ == power(data.transition_matrix(), steps as nat),
                0 <= p <= data.policies.items@.len(),
                values@.len() == p,
                forall|q: int|
                    0 <= q < p ==> #[trigger] values@[q] == score_of(*data, steps as nat, q),
            decreases data.policies.items@.len() - p,
        {
            match a.row_sum(sources + p, 0, d) {
                Some(v) => {
                    values.push(v);
                },
                None => {
                    proof {
                        assert(score_of(*data, steps as nat, p as int) > u64::MAX);
                    }
                    return None;
                },
            }
            p = p + 1;
        }
        let scores: AddressMap<u64> = AddressMap { keys: data.policies.copy(), values };
        let mut influences: AddressMap<u64> = AddressMap::new();
        let mut i: usize = 0;
        while i < sources
            invariant
                data.wf(),
                d == data.delegates.items@.len(),
                sources == data.sources(),
                n == data.size(),
                sum.wf(n as int),
                sum@ == series(data.transition_matrix(), steps as nat),
                forall|q: int| 0 <= q < n ==> #[trigger] sum@[q][q] >= UNIT,
                influences.wf(),
                0 <= i <= sources,
                forall|q: int|
                    0 <= q < i ==> #[trigger] reach_of(*data, steps as nat, q) <= u64::MAX,
                forall|q: int|
                    0 <= q < i ==> #[trigger] influence_of(*data, steps as nat, q) <= u64::MAX,
                forall|a: Address| #[trigger]
                    influences@.contains_key(a) <==> indexed_among(*data, i as int, a),
                forall|a: Address| #[trigger] influences@.contains_key(a) ==> influences@[a] >= UNIT,
                forall|q: int|
                    0 <= q < i && (forall|j: int|
                        q < j < i ==> #[trigger] data.node_at(j) != data.node_at(q))
                        ==> influences@[#[trigger] data.node_at(q)] == influence_of(
                        *data,
                        steps as nat,
                        q,
                    ),
            decreases sources - i,
        {
            let reach: u64 = match sum.row_sum(i, 0, sources) {
                Some(v) => v,
                None => {
                    proof {
                        assert(reach_of(*data, steps as nat, i as int) > u64::MAX);
                    }
                    return None;
                },
            };
            let own: u64 = sum.get(i, i);
            proof {
                assert(sum@[i as int][i as int] >= UNIT);
                lemma_span_sum_holds(sum@[i as int], 0, sources as int, i as int);
                lemma_quotient_at_least_one(reach as int, own as int);
                assert(reach as u128 * UNIT as u128 <= 0xffff_ffff_ffff_ffff * 1_000_000)
                    by (nonlinear_arith)
                    requires
                        reach <= 0xffff_ffff_ffff_ffff,
                        UNIT == 1_000_000,
                ;
            }
            let quotient: u128 = reach as u128 * UNIT as u128 / own as u128;
            if quotient > u64::MAX as u128 {
                proof {
                    assert(influence_of(*data, steps as nat, i as int) > u64::MAX);
                }
                return None;
            }
            let node: Address = data.node(i);
            let ghost before = influences;
            influences.insert(node, quotient as u64);
            proof {
                assert(influence_of(*data, steps as nat, i as int) == quotient);
                assert forall|a: Address| #[trigger]
                    influences@.contains_key(a) <==> indexed_among(*data, i + 1, a) by {
                    lemma_indexed_among_step(*data, i as int, a);
                }
                assert forall|q: int|
                    0 <= q < i + 1 && (forall|j: int|
                        q < j < i + 1 ==> #[trigger] data.node_at(j) != data.node_at(
                            q,
                        )) implies influences@[#[trigger] data.node_at(q)] == influence_of(
                    *data, steps as nat,
                    q,
                ) by {
                    if q < i {
                        assert(data.node_at(i as int) != data.node_at(q));
                        assert(forall|j: int|
                            q < j < i ==> #[trigger] data.node_at(j) != data.node_at(q));
                        assert(before@[data.node_at(q)] == influence_of(*data, steps as nat, q));
                    }
                }
            }
            i = i + 1;
        }
        proof {
            assert forall|a: Address| #[trigger]
                influences@.dom().contains(a) <==> data.delegates@.union(
                    data.intermediaries@,
                ).contains(a) by {
                lemma_indexed_among_all(*data, a);
            }
            assert(influences@.dom() =~= data.delegates@.union(data.intermediaries@));
            assert(iterates_fit(data.transition_matrix(), steps as nat));
            assert forall|p: int| 0 <= p < data.policies.items@.len() implies #[trigger] score_of(
                *data, steps as nat,
                p,
            ) <= u64::MAX by {
                assert(values@[p] == score_of(*data, steps as nat, p));
            }
            assert(liquid_fits(*data, steps as nat));
            if balanced(data.transition_matrix()) && settled(*data, steps as nat) {
                lemma_scores_total(*data, steps as nat, scores.values@);
            }
            assert(scores@.dom() =~= data.policies@);
            assert forall|i: int|
                0 <= i < data.sources() && last_occurrence(
                    *data,
                    i,
                ) implies influences@[#[trigger] data.node_at(i)] == influence_of(
                    *data,
                    steps as nat,
                    i,
                ) by {
                assert(forall|j: int|
                    i < j < sources ==> #[trigger] data.node_at(j) != data.node_at(i));
            }
        }
        Some(VoteOutcome::OutcomeAndInfluences(scores, influences))
    }
}

impl Rule for LiquidDemocracy {
    /// Lets the weight flow for a fixed number of steps. The scores are what
    /// has then come to each policy from the delegates; the influences say,
    /// for each delegate and intermediary, how much it has received over all
    /// steps for each part that it has received from itself. The keys of the
    /// scores are the policies, those of the influences the delegates and
    /// intermediaries. Of a node that is both, the influence is that of the
    /// intermediary.
    fn calculate(data: &Votes) -> (r: Option<VoteOutcome>)
        ensures
            r is Some <==> liquid_fits(*data, ITERATIONS as nat),
            r is Some && balanced(data.transition_matrix()) && settled(*data, ITERATIONS as nat)
                ==> r.unwrap().scores().total() == data.delegates.items@.len() * UNIT,
            r is Some ==> r.unwrap().influences() is Some,
            r is Some ==> r.unwrap().scores().wf(),
            r is Some ==> r.unwrap().scores().keys.items@ == data.policies.items@,
            r is Some ==> r.unwrap().scores()@.dom() == data.policies@,
            r is Some ==> forall|p: int|
                0 <= p < data.policies.items@.len() ==> #[trigger] r.unwrap().scores().values@[p]
                    == score_of(*data, ITERATIONS as nat, p),
            r is Some ==> r.unwrap().influences().unwrap().wf(),
            r is Some ==> r.unwrap().influences().unwrap()@.dom() == data.delegates@.union(
                data.intermediaries@,
            ),
            r is Some ==> forall|a: Address| #[trigger]
                r.unwrap().influences().unwrap()@.contains_key(a) ==> r.unwrap().influences().unwrap()@[a]
                    >= UNIT,
            r is Some ==> forall|i: int|
                0 <= i < data.sources() && last_occurrence(*data, i)
                    ==> r.unwrap().influences().unwrap()@[#[trigger] data.node_at(i)]
                    == influence_of(*data, ITERATIONS as nat, i),
    {
        LiquidDemocracy::with_iterations(data, ITERATIONS)
    }
}

proof fn lemma_scores_block(data: Votes, steps: nat, scores: Seq<u64>, p: int)
    requires
        0 <= p <= scores.len(),
        forall|q: int| 0 <= q < scores.len() ==> #[trigger] scores[q] == score_of(data, steps, q),
    ensures
        sum(scores.take(p)) == block_sum(
            power(data.transition_matrix(), steps),
            data.sources(),
            p,
            data.delegates.items@.len() as int,
        ),
    decreases p,
{
    if p > 0 {
        lemma_scores_block(data, steps, scores, p - 1);
        assert(scores.take(p).drop_last() =~= scores.take(p - 1));
        assert(scores.take(p).last() == scores[p - 1]);
    }
}

/// Where each node passes on all that it has and, after `steps` steps,
/// nothing that a delegate had is with a delegate or an intermediary, the
/// scores add up to one whole for each delegate: no weight is lost and none
/// is made.
pub proof fn lemma_scores_total(data: Votes, steps: nat, scores: Seq<u64>)
    requires
        scores.len() == data.policies.items@.len(),
        forall|q: int| 0 <= q < scores.len() ==> #[trigger] scores[q] == score_of(data, steps, q),
        balanced(data.transition_matrix()),
        settled(data, steps),
    ensures
        sum(scores) == data.delegates.items@.len() * UNIT,
{
    let m = data.transition_matrix();
    let a = power(m, steps);
    let n = data.size();
    let sources = data.sources();
    let d = data.delegates.items@.len() as int;
    assert(m.len() == n);
    lemma_power_balanced(m, steps);
    assert forall|c: int| 0 <= c < d implies #[trigger] column_sum(a, c, sources) == 0 by {
        assert forall|r: int| 0 <= r < sources implies #[trigger] a[r][c] == 0 by {
            if a[r][c] > 0 {
                lemma_power_support(m, steps, r, c);
                assert(flows(m, c, r, steps));
            }
        }
        lemma_column_none(a, c, sources);
    }
    assert forall|c: int| 0 <= c < d implies #[trigger] column_sum(a, c, a.len() as int)
        == UNIT by {}
    lemma_block_balanced(a, sources, d);
    lemma_scores_block(data, steps, scores, scores.len() as int);
    assert(scores.take(scores.len() as int) =~= scores);
}

/// The rule has a result where no node passes on more than it has, as it is
/// after normalizing, and the numbers of nodes and of steps are not so large
/// that their product with one whole leaves the range.
pub proof fn lemma_liquid_fits(data: Votes, steps: nat)
    requires
        data.size() <= usize::MAX,
        conserving(data.transition_matrix()),
        (steps + 1) * UNIT <= u64::MAX,
        data.sources() * (steps + 1) * UNIT <= u64::MAX,
    ensures
        liquid_fits(data, steps),
{
    let m = data.transition_matrix();
    let n = data.size();
    let sources = data.sources();
    let d = data.delegates.items@.len() as int;
    let top = ((steps + 1) * UNIT) as nat;
    assert(m.len() == n);
    assert forall|k: nat| 1 <= k <= steps implies fits(#[trigger] power(m, k)) by {
        lemma_power_bounded(m, k);
    }
    assert forall|k: nat| 1 <= k <= steps implies fits(#[trigger] series(m, k)) by {
        lemma_series_bounded(m, k);
    }
    lemma_power_bounded(m, steps);
    lemma_series_bounded(m, steps);
    assert(d * UNIT <= sources * (steps + 1) * UNIT) by (nonlinear_arith)
        requires
            0 <= d <= sources,
            0 <= steps,
            UNIT == 1_000_000,
    ;
    assert forall|p: int| 0 <= p < data.policies.items@.len() implies #[trigger] score_of(
        data,
        steps,
        p,
    ) <= u64::MAX by {
        let row = power(m, steps)[sources + p];
        assert forall|j: int| 0 <= j < d implies #[trigger] row[j] <= UNIT as nat by {
            assert(power(m, steps)[sources + p][j] <= UNIT);
        }
        lemma_span_sum_bound(row, 0, d, UNIT as nat);
    }
    assert forall|i: int| 0 <= i < sources implies #[trigger] reach_of(data, steps, i) <= u64::MAX
        && influence_of(data, steps, i) <= u64::MAX by {
        let row = series(m, steps)[i];
        assert forall|j: int| 0 <= j < sources implies #[trigger] row[j] <= top by {
            assert(series(m, steps)[i][j] <= top);
        }
        lemma_span_sum_bound(row, 0, sources, top);
        assert(sources * top == sources * (steps + 1) * UNIT) by (nonlinear_arith)
            requires
                top == (steps + 1) * UNIT,
        ;
        let reach = reach_of(data, steps, i) as int;
        let own = series(m, steps)[i][i] as int;
        assert(own >= UNIT);
        assert(reach * 1_000_000 / own <= reach) by (nonlinear_arith)
            requires
                0 <= reach,
                own >= 1_000_000,
        ;
    }
}

/// After normalizing, the rule has a result, unless the numbers of nodes and
/// of steps are so large that their product with one whole leaves the range.
pub proof fn lemma_normalized_liquid_fits(before: Votes, after: Votes, steps: nat)
    requires
        before.wf(),
        after.wf(),
        normalizes(before, after),
        after.size() <= usize::MAX,
        (steps + 1) * UNIT <= u64::MAX,
        after.sources() * (steps + 1) * UNIT <= u64::MAX,
    ensures
        liquid_fits(after, steps),
{
    assert forall|c: int| 0 <= c < after.sources() implies sum(
        #[trigger] after.weights(after.node_at(c)),
    ) <= UNIT by {
        lemma_normalized_weights_bounded(before, after, after.node_at(c));
    }
    lemma_conserving(after);
    lemma_liquid_fits(after, steps);
}

/// What has as much as its divisor or more has a quotient of one whole or
/// more: a node has at least the influence that it has on itself.
pub proof fn lemma_quotient_at_least_one(reach: int, own: int)
    requires
        0 < own <= reach,
    ensures
        reach * UNIT / own >= UNIT,
{
    let u = UNIT as int;
    assert(own * u <= reach * u) by (nonlinear_arith)
        requires
            own <= reach,
            u > 0,
    ;
    assert(u * own == own * u) by (nonlinear_arith);
    vstd::arithmetic::div_mod::lemma_div_is_ordered(own * u, reach * u, own);
    vstd::arithmetic::div_mod::lemma_div_by_multiple(u, own);
}

/// One node more has one of the first `n + 1` indices than has one of the
/// first `n`.
pub proof fn lemma_indexed_among_step(data: Votes, n: int, a: Address)
    requires
        0 <= n,
    ensures
        indexed_among(data, n + 1, a) <==> indexed_among(data, n, a) || data.node_at(n) == a,
{
    if indexed_among(data, n + 1, a) {
        let j = choose|j: int| 0 <= j < n + 1 && #[trigger] data.node_at(j) == a;
        if j < n {
            assert(indexed_among(data, n, a));
        }
    }
    if indexed_among(data, n, a) {
        let j = choose|j: int| 0 <= j < n && #[trigger] data.node_at(j) == a;
        assert(0 <= j < n + 1 && data.node_at(j) == a);
    }
    if data.node_at(n) == a {
        assert(0 <= n < n + 1 && data.node_at(n) == a);
    }
}

/// The nodes with an index below the number of delegates and intermediaries
/// are the delegates and the intermediaries.
pub proof fn lemma_indexed_among_all(data: Votes, a: Address)
    ensures
        indexed_among(data, data.sources(), a) <==> data.delegates@.contains(a)
            || data.intermediaries@.contains(a),
{
    let d = data.delegates.items@.len() as int;
    if indexed_among(data, data.sources(), a) {
        let j = choose|j: int| 0 <= j < data.sources() && #[trigger] data.node_at(j) == a;
        if j < d {
            assert(data.delegates.items@.contains(a));
        } else {
            assert(data.intermediaries.items@[j - d] == a);
            assert(data.intermediaries.items@.contains(a));
        }
    }
    if data.delegates@.contains(a) {
        let j = data.delegates.items@.index_of(a);
        assert(0 <= j < data.sources() && data.node_at(j) == a);
    }
    if data.intermediaries@.contains(a) {
        let j = data.intermediaries.items@.index_of(a);
        assert(0 <= j + d < data.sources() && data.node_at(j + d) == a);
    }
}

} // verus!
