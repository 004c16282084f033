//! Why no node of a normalized graph passes on more than it has, and why it
//! passes on all of it where its votes are for nodes: the columns of the
//! transition matrix add up to one whole at most, and then to exactly one.

use crate::address::Address;
use crate::address_set::{
    among, ascending, lemma_among_all, lemma_among_step, lemma_ascending_distinct, lemma_index_of,
};
use crate::matrix::{balanced, column_sum, conserving};
use crate::address_map::{lemma_entry, lemma_key_index};
use crate::rounding::{lemma_normalized_sum, normalized};
use crate::vote_data::{lemma_row_wf, normalizes, Votes};
use crate::weight::{sum, UNIT};
use vstd::prelude::*;

verus! {

/// The weight that the first `m` votes of a source put into row `r` of the
/// transition matrix.
pub open spec fn placed_weight(
    data: Votes,
    targets: Seq<Address>,
    weights: Seq<u64>,
    m: int,
    r: int,
) -> nat
    decreases m,
{
    if m <= 0 {
        0
    } else if targets[m - 1] == data.node_at(r) && data.placed(r) {
        weights[m - 1] as nat
    } else {
        placed_weight(data, targets, weights, m - 1, r)
    }
}

/// The weight that the first `m` votes of a source put into the first `k`
/// rows of the transition matrix.
pub open spec fn placed_sum(
    data: Votes,
    targets: Seq<Address>,
    weights: Seq<u64>,
    m: int,
    k: int,
) -> nat
    decreases k,
{
    if k <= 0 {
        0
    } else {
        placed_sum(data, targets, weights, m, k - 1) + placed_weight(
            data,
            targets,
            weights,
            m,
            k - 1,
        )
    }
}

/// The number of the first `k` rows in which votes for `target` are put.
pub open spec fn hits(data: Votes, target: Address, k: int) -> nat
    decreases k,
{
    if k <= 0 {
        0
    } else {
        hits(data, target, k - 1) + if data.node_at(k - 1) == target && data.placed(k - 1) {
            1nat
        } else {
            0nat
        }
    }
}

/// Every source gives one whole in all at most.
pub open spec fn sources_bounded(data: Votes) -> bool {
    forall|c: int|
        0 <= c < data.sources() ==> sum(#[trigger] data.weights(data.node_at(c))) <= UNIT
}

/// A node has one row only in which votes for it are put.
pub proof fn lemma_placed_once(data: Votes, r1: int, r2: int)
    requires
        data.wf(),
        0 <= r1 < r2 < data.size(),
        data.node_at(r1) == data.node_at(r2),
    ensures
        !data.placed(r2),
{
    let d = data.delegates.items@.len() as int;
    let s = data.sources();
    if r2 < d {
        lemma_ascending_distinct(data.delegates.items@, r1, r2);
    } else if r2 < s {
        if r1 < d {
            assert(data.delegates.items@.contains(data.delegates.items@[r1]));
        } else {
            lemma_ascending_distinct(data.intermediaries.items@, r1 - d, r2 - d);
        }
    } else {
        if r1 < d {
            assert(data.delegates.items@.contains(data.delegates.items@[r1]));
        } else if r1 < s {
            assert(data.intermediaries.items@.contains(data.intermediaries.items@[r1 - d]));
        } else {
            lemma_ascending_distinct(data.policies.items@, r1 - s, r2 - s);
        }
    }
}

/// Where votes for a node are put in one of the first `k` rows, there is
/// such a row.
proof fn lemma_hit_exists(data: Votes, target: Address, k: int)
    requires
        hits(data, target, k) >= 1,
    ensures
        exists|r: int| 0 <= r < k && #[trigger] data.node_at(r) == target && data.placed(r),
    decreases k,
{
    if k > 0 {
        if data.node_at(k - 1) == target && data.placed(k - 1) {
            assert(0 <= k - 1 < k && data.node_at(k - 1) == target);
        } else {
            lemma_hit_exists(data, target, k - 1);
            let r = choose|r: int|
                0 <= r < k - 1 && #[trigger] data.node_at(r) == target && data.placed(r);
            assert(0 <= r < k && data.node_at(r) == target);
        }
    }
}

/// Votes for a node are put in one row at most.
pub proof fn lemma_hits_once(data: Votes, target: Address, k: int)
    requires
        data.wf(),
        0 <= k <= data.size(),
    ensures
        hits(data, target, k) <= 1,
    decreases k,
{
    if k > 0 {
        lemma_hits_once(data, target, k - 1);
        if hits(data, target, k - 1) >= 1 && data.node_at(k - 1) == target {
            lemma_hit_exists(data, target, k - 1);
            let r = choose|r: int|
                0 <= r < k - 1 && #[trigger] data.node_at(r) == target && data.placed(r);
            lemma_placed_once(data, r, k - 1);
        }
    }
}

proof fn lemma_placed_sum_step(
    data: Votes,
    targets: Seq<Address>,
    weights: Seq<u64>,
    m: int,
    k: int,
)
    requires
        1 <= m,
        0 <= k,
    ensures
        placed_sum(data, targets, weights, m, k) <= placed_sum(data, targets, weights, m - 1, k)
            + hits(data, targets[m - 1], k) * weights[m - 1],
    decreases k,
{
    let w = weights[m - 1] as int;
    if k > 0 {
        lemma_placed_sum_step(data, targets, weights, m, k - 1);
        let h = hits(data, targets[m - 1], k - 1) as int;
        assert((h + 1) * w == h * w + w) by (nonlinear_arith);
    } else {
        assert(0 * w == 0) by (nonlinear_arith);
    }
}

proof fn lemma_placed_sum_none(data: Votes, targets: Seq<Address>, weights: Seq<u64>, k: int)
    ensures
        placed_sum(data, targets, weights, 0, k) == 0,
    decreases k,
{
    if k > 0 {
        lemma_placed_sum_none(data, targets, weights, k - 1);
    }
}

/// The votes of a source put no more into the matrix than their weights add
/// up to.
pub proof fn lemma_placed_sum_bound(
    data: Votes,
    targets: Seq<Address>,
    weights: Seq<u64>,
    m: int,
    k: int,
)
    requires
        data.wf(),
        0 <= k <= data.size(),
        0 <= m <= weights.len(),
    ensures
        placed_sum(data, targets, weights, m, k) <= sum(weights.take(m)),
    decreases m,
{
    if m > 0 {
        lemma_placed_sum_bound(data, targets, weights, m - 1, k);
        lemma_placed_sum_step(data, targets, weights, m, k);
        lemma_hits_once(data, targets[m - 1], k);
        let h = hits(data, targets[m - 1], k) as int;
        let w = weights[m - 1] as int;
        assert(h * w <= w) by (nonlinear_arith)
            requires
                0 <= h <= 1,
                0 <= w,
        ;
        assert(weights.take(m).drop_last() =~= weights.take(m - 1));
        assert(weights.take(m).last() == weights[m - 1]);
    } else {
        lemma_placed_sum_none(data, targets, weights, k);
    }
}

proof fn lemma_placed_weight_among(
    data: Votes,
    targets: Seq<Address>,
    weights: Seq<u64>,
    m: int,
    r: int,
)
    requires
        ascending(targets),
        weights.len() == targets.len(),
        0 <= m <= targets.len(),
    ensures
        placed_weight(data, targets, weights, m, r) == if data.placed(r) && among(
            targets,
            m,
            data.node_at(r),
        ) {
            weights[targets.index_of(data.node_at(r))] as nat
        } else {
            0
        },
    decreases m,
{
    if m > 0 {
        lemma_placed_weight_among(data, targets, weights, m - 1, r);
        lemma_among_step(targets, m - 1, data.node_at(r));
        if targets[m - 1] == data.node_at(r) {
            lemma_index_of(targets, m - 1);
        }
    } else {
        lemma_among_all(targets, data.node_at(r));
    }
}

/// An entry of the transition matrix in the column of a source is what the
/// votes of that source put there.
pub proof fn lemma_transition_placed(data: Votes, r: int, c: int)
    requires
        data.wf(),
        0 <= c < data.sources(),
    ensures
        data.transition(r, c) == placed_weight(
            data,
            data.targets(data.node_at(c)),
            data.weights(data.node_at(c)),
            data.weights(data.node_at(c)).len() as int,
            r,
        ),
{
    let source = data.node_at(c);
    let targets = data.targets(source);
    let weights = data.weights(source);
    if data.source_target_map@.contains_key(source) {
        lemma_row_wf(data.source_target_map, source);
        lemma_placed_weight_among(data, targets, weights, targets.len() as int, r);
        lemma_among_all(targets, data.node_at(r));
    } else {
        assert(data.row(source) =~= Map::<Address, u64>::empty());
    }
}

proof fn lemma_column_of_source(data: Votes, c: int, k: int)
    requires
        data.wf(),
        0 <= c < data.sources(),
        0 <= k <= data.size(),
    ensures
        column_sum(data.transition_matrix(), c, k) == placed_sum(
            data,
            data.targets(data.node_at(c)),
            data.weights(data.node_at(c)),
            data.weights(data.node_at(c)).len() as int,
            k,
        ),
    decreases k,
{
    if k > 0 {
        lemma_column_of_source(data, c, k - 1);
        lemma_transition_placed(data, k - 1, c);
        assert(data.transition_matrix()[k - 1][c] == data.transition(k - 1, c));
    }
}

proof fn lemma_column_of_policy(data: Votes, c: int, k: int)
    requires
        data.sources() <= c < data.size(),
        0 <= k <= data.size(),
    ensures
        column_sum(data.transition_matrix(), c, k) == if c < k {
            UNIT as nat
        } else {
            0
        },
    decreases k,
{
    if k > 0 {
        lemma_column_of_policy(data, c, k - 1);
        assert(data.transition_matrix()[k - 1][c] == data.transition(k - 1, c));
    }
}

/// Every vote of a delegate or an intermediary is for a node.
pub open spec fn closed(data: Votes) -> bool {
    forall|c: int, j: int|
        0 <= c < data.sources() && 0 <= j < data.targets(data.node_at(c)).len() ==> data.is_node(
            #[trigger] data.targets(data.node_at(c))[j],
        )
}

/// Every delegate and every intermediary gives exactly one whole in all.
pub open spec fn sources_whole(data: Votes) -> bool {
    forall|c: int|
        0 <= c < data.sources() ==> sum(#[trigger] data.weights(data.node_at(c))) == UNIT
}

/// A node has its first index, and votes for it are put in the row of that
/// index.
pub proof fn lemma_index_of_node(data: Votes, a: Address)
    requires
        data.wf(),
        data.is_node(a),
    ensures
        0 <= data.index_of(a) < data.size(),
        data.node_at(data.index_of(a)) == a,
        data.placed(data.index_of(a)),
{
}

proof fn lemma_hits_grow(data: Votes, target: Address, k: int, end: int)
    requires
        k <= end,
    ensures
        hits(data, target, k) <= hits(data, target, end),
    decreases end - k,
{
    if k < end {
        lemma_hits_grow(data, target, k, end - 1);
    }
}

/// Votes for a node are put in exactly one row.
pub proof fn lemma_hits_node(data: Votes, target: Address)
    requires
        data.wf(),
        data.is_node(target),
    ensures
        hits(data, target, data.size()) == 1,
{
    lemma_index_of_node(data, target);
    let r = data.index_of(target);
    assert(hits(data, target, r + 1) >= 1);
    lemma_hits_grow(data, target, r + 1, data.size());
    lemma_hits_once(data, target, data.size());
}

proof fn lemma_placed_sum_exact_step(
    data: Votes,
    targets: Seq<Address>,
    weights: Seq<u64>,
    m: int,
    k: int,
)
    requires
        ascending(targets),
        weights.len() == targets.len(),
        1 <= m <= targets.len(),
        0 <= k,
    ensures
        placed_sum(data, targets, weights, m, k) == placed_sum(data, targets, weights, m - 1, k)
            + hits(data, targets[m - 1], k) * weights[m - 1],
    decreases k,
{
    let w = weights[m - 1] as int;
    if k > 0 {
        lemma_placed_sum_exact_step(data, targets, weights, m, k - 1);
        let h = hits(data, targets[m - 1], k - 1) as int;
        assert((h + 1) * w == h * w + w) by (nonlinear_arith);
        if targets[m - 1] == data.node_at(k - 1) && data.placed(k - 1) {
            lemma_placed_weight_among(data, targets, weights, m - 1, k - 1);
            if among(targets, m - 1, targets[m - 1]) {
                let j = choose|j: int|
                    0 <= j < m - 1 && j < targets.len() && #[trigger] targets[j] == targets[m - 1];
                lemma_ascending_distinct(targets, j, m - 1);
            }
        }
    } else {
        assert(0 * w == 0) by (nonlinear_arith);
    }
}

/// Votes for nodes put into the matrix exactly what their weights add up to.
pub proof fn lemma_placed_sum_exact(
    data: Votes,
    targets: Seq<Address>,
    weights: Seq<u64>,
    m: int,
)
    requires
        data.wf(),
        ascending(targets),
        weights.len() == targets.len(),
        0 <= m <= targets.len(),
        forall|j: int| 0 <= j < m ==> data.is_node(#[trigger] targets[j]),
    ensures
        placed_sum(data, targets, weights, m, data.size()) == sum(weights.take(m)),
    decreases m,
{
    if m > 0 {
        lemma_placed_sum_exact(data, targets, weights, m - 1);
        lemma_placed_sum_exact_step(data, targets, weights, m, data.size());
        assert(data.is_node(targets[m - 1]));
        lemma_hits_node(data, targets[m - 1]);
        let h = hits(data, targets[m - 1], data.size()) as int;
        let w = weights[m - 1] as int;
        assert(h * w == w) by (nonlinear_arith)
            requires
                h == 1,
        ;
        assert(weights.take(m).drop_last() =~= weights.take(m - 1));
        assert(weights.take(m).last() == weights[m - 1]);
    } else {
        lemma_placed_sum_none(data, targets, weights, data.size());
    }
}

/// Where every vote of a delegate or an intermediary is for a node, and each
/// of them gives exactly one whole in all, every column of the transition
/// matrix adds up to exactly one whole.
pub proof fn lemma_balanced(data: Votes)
    requires
        data.wf(),
        closed(data),
        sources_whole(data),
    ensures
        balanced(data.transition_matrix()),
{
    let m = data.transition_matrix();
    let n = data.size();
    assert(m.len() == n);
    assert forall|c: int| 0 <= c < m.len() implies #[trigger] column_sum(m, c, m.len() as int)
        == UNIT by {
        if c < data.sources() {
            let source = data.node_at(c);
            let targets = data.targets(source);
            let weights = data.weights(source);
            assert(sum(data.weights(data.node_at(c))) == UNIT);
            if data.source_target_map@.contains_key(source) {
                lemma_row_wf(data.source_target_map, source);
            }
            assert forall|j: int| 0 <= j < targets.len() implies data.is_node(
                #[trigger] targets[j],
            ) by {
                assert(data.is_node(data.targets(data.node_at(c))[j]));
            }
            lemma_column_of_source(data, c, n);
            lemma_placed_sum_exact(data, targets, weights, weights.len() as int);
            assert(weights.take(weights.len() as int) =~= weights);
        } else {
            lemma_column_of_policy(data, c, n);
        }
    }
}

/// After normalizing a graph in which every delegate and every intermediary
/// has weight to give, and gives it to nodes, every column of the transition
/// matrix adds up to exactly one whole.
pub proof fn lemma_normalized_balanced(before: Votes, after: Votes)
    requires
        before.wf(),
        after.wf(),
        normalizes(before, after),
        closed(after),
        forall|c: int|
            0 <= c < after.sources() ==> sum(#[trigger] before.weights(after.node_at(c))) > 0,
    ensures
        balanced(after.transition_matrix()),
{
    assert forall|c: int| 0 <= c < after.sources() implies sum(
        #[trigger] after.weights(after.node_at(c)),
    ) == UNIT by {
        let source = after.node_at(c);
        assert(sum(before.weights(after.node_at(c))) > 0);
        assert(before.source_target_map@.contains_key(source));
        lemma_key_index(before.source_target_map, source);
        let j = before.source_target_map.keys.items@.index_of(source);
        assert(after.source_target_map.keys.items@[j] == source);
        lemma_entry(after.source_target_map, j);
        assert(after.source_target_map.values@[j].values@ == normalized(
            before.source_target_map.values@[j].values@,
        ));
        lemma_normalized_sum(before.source_target_map.values@[j].values@);
    }
    lemma_balanced(after);
}

/// Where every delegate and every intermediary gives one whole in all at
/// most, as they do after normalizing, no column of the transition matrix
/// adds up to more than one whole.
pub proof fn lemma_conserving(data: Votes)
    requires
        data.wf(),
        sources_bounded(data),
    ensures
        conserving(data.transition_matrix()),
{
    let m = data.transition_matrix();
    let n = data.size();
    assert(m.len() == n);
    assert forall|c: int| 0 <= c < m.len() implies #[trigger] column_sum(m, c, m.len() as int)
        <= UNIT by {
        if c < data.sources() {
            let source = data.node_at(c);
            let weights = data.weights(source);
            if data.source_target_map@.contains_key(source) {
                lemma_row_wf(data.source_target_map, source);
            }
            lemma_column_of_source(data, c, n);
            lemma_placed_sum_bound(
                data,
                data.targets(source),
                weights,
                weights.len() as int,
                n,
            );
            assert(weights.take(weights.len() as int) =~= weights);
            assert(sum(data.weights(data.node_at(c))) <= UNIT);
        } else {
            lemma_column_of_policy(data, c, n);
        }
    }
}

} // verus!
