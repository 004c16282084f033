//! The Borda rule: each delegate ranks its targets by weight, and a target
//! gets the points of its rank.

use crate::address::Address;
use crate::address_map::AddressMap;
use crate::rules::{Rule, VoteOutcome};
use crate::vote_data::{lemma_row_wf, Votes};
use crate::weight::{amount, UNIT};
use vstd::prelude::*;

verus! {

/// Half a point, as a fixed-point number.
pub const HALF_POINT: u64 = 500_000;

/// The Borda rule.
pub struct Borda {}

/// The number of the first `n` weights that are greater than `w`.
pub open spec fn above(weights: Seq<u64>, n: int, w: u64) -> nat
    decreases n,
{
    if n <= 0 {
        0
    } else {
        above(weights, n - 1, w) + if weights[n - 1] > w {
            1nat
        } else {
            0nat
        }
    }
}

/// The number of the first `n` weights that are equal to `w`.
pub open spec fn level(weights: Seq<u64>, n: int, w: u64) -> nat
    decreases n,
{
    if n <= 0 {
        0
    } else {
        level(weights, n - 1, w) + if weights[n - 1] == w {
            1nat
        } else {
            0nat
        }
    }
}

/// The number of the first `n` weights that are less than `w`.
pub open spec fn below(weights: Seq<u64>, n: int, w: u64) -> nat
    decreases n,
{
    if n <= 0 {
        0
    } else {
        below(weights, n - 1, w) + if weights[n - 1] < w {
            1nat
        } else {
            0nat
        }
    }
}

/// The points of the target at index `idx`, as a fixed-point number. Of `n`
/// targets the one with the greatest weight gets `n` points, the next one
/// point less, down to one point. Targets of equal weight share the points
/// of the ranks that they take together: with `a` targets above them and
/// `k` of them, each gets the mean of `n - a`, ..., `n - a - k + 1`, which is
/// `(2 * n - 2 * a - k + 1) / 2`.
pub open spec fn points(weights: Seq<u64>, idx: int) -> nat {
    let n = weights.len() as int;
    ((2 * n + 1 - 2 * above(weights, n, weights[idx]) - level(weights, n, weights[idx]))
        * HALF_POINT) as nat
}

/// The points that `target` has from the first `n` votes of a row.
pub open spec fn row_points(
    targets: Seq<Address>,
    weights: Seq<u64>,
    n: int,
    target: Address,
) -> nat
    decreases n,
{
    if n <= 0 {
        0
    } else {
        row_points(targets, weights, n - 1, target) + if targets[n - 1] == target {
            points(weights, n - 1)
        } else {
            0nat
        }
    }
}

/// The points that the first `n` votes of a row give, all targets together.
pub open spec fn row_total(weights: Seq<u64>, n: int) -> nat
    decreases n,
{
    if n <= 0 {
        0
    } else {
        row_total(weights, n - 1) + points(weights, n - 1)
    }
}

/// The points that `target` has from the first `n` delegates.
pub open spec fn borda_score(data: Votes, n: int, target: Address) -> nat
    decreases n,
{
    if n <= 0 {
        0
    } else {
        let delegate = data.delegates.items@[n - 1];
        borda_score(data, n - 1, target) + row_points(
            data.targets(delegate),
            data.weights(delegate),
            data.weights(delegate).len() as int,
            target,
        )
    }
}

/// The sum `1 + 2 + ... + n`.
pub open spec fn triangle(n: nat) -> nat
    decreases n,
{
    if n == 0 {
        0
    } else {
        triangle((n - 1) as nat) + n
    }
}

/// The sum, over the first `n` delegates, of `1 + 2 + ... + k`, where `k` is
/// the number of targets of the delegate.
pub open spec fn rank_total(data: Votes, n: int) -> nat
    decreases n,
{
    if n <= 0 {
        0
    } else {
        rank_total(data, n - 1) + triangle(data.weights(data.delegates.items@[n - 1]).len())
    }
}

/// The points of the vote at index `idx`, if they fit the fixed-point range.
pub fn points_at(weights: &Vec<u64>, idx: usize) -> (r: Option<u64>)
    requires
        idx < weights@.len(),
    ensures
        r is Some <==> points(weights@, idx as int) <= u64::MAX,
        r is Some ==> r.unwrap() == points(weights@, idx as int),
{
    let w: u64 = weights[idx];
    let mut higher: usize = 0;
    let mut equal: usize = 0;
    let mut q: usize = 0;
    while q < weights.len()
        invariant
            0 <= q <= weights@.len(),
            idx < weights@.len(),
            w == weights@[idx as int],
            higher == above(weights@, q as int, w),
            equal == level(weights@, q as int, w),
            higher + equal <= q,
        decreases weights@.len() - q,
    {
        if weights[q] > w {
            higher = higher + 1;
        } else if weights[q] == w {
            equal = equal + 1;
        }
        q = q + 1;
    }
    proof {
        lemma_level_positive(weights@, idx as int, weights@.len() as int);
    }
    let n: u128 = weights.len() as u128;
    let halves: u128 = 2 * n + 1 - 2 * (higher as u128) - equal as u128;
    assert(halves * 500_000 <= 0x2_0000_0000_0000_0000 * 500_000) by (nonlinear_arith)
        requires
            halves <= 0x2_0000_0000_0000_0000,
    ;
    let scaled: u128 = halves * (HALF_POINT as u128);
    if scaled > u64::MAX as u128 {
        None
    } else {
        Some(scaled as u64)
    }
}

impl Rule for Borda {
    /// Gives each target the points of its rank with each delegate, and adds
    /// them up. A target that no delegate votes for has no score. All scores
    /// together are `1 + 2 + ... + k` points for each delegate with `k`
    /// targets.
    fn calculate(data: &Votes) -> (r: Option<VoteOutcome>)
        ensures
            r is Some <==> forall|t: Address|
                #[trigger] borda_score(*data, data.delegates.items@.len() as int, t) <= u64::MAX,
            r is Some ==> r.unwrap() is SimpleOutcome,
            r is Some ==> r.unwrap().scores().wf(),
            r is Some ==> forall|t: Address| #[trigger]
                amount(r.unwrap().scores()@, t) == borda_score(
                    *data,
                    data.delegates.items@.len() as int,
                    t,
                ),
            r is Some ==> forall|t: Address| #[trigger]
                r.unwrap().scores()@.contains_key(t) <==> borda_score(
                    *data,
                    data.delegates.items@.len() as int,
                    t,
                ) > 0,
            r is Some ==> r.unwrap().scores().total() == rank_total(
                *data,
                data.delegates.items@.len() as int,
            ) * UNIT,
            rank_total(*data, data.delegates.items@.len() as int) * UNIT <= u64::MAX ==> r is Some,
    {
        let mut scores: AddressMap<u64> = AddressMap::new();
        let mut i: usize = 0;
        assert(scores.total() == 0);
        while i < data.delegates.items.len()
            invariant
                data.wf(),
                scores.wf(),
                0 <= i <= data.delegates.items@.len(),
                forall|t: Address| #[trigger] amount(scores@, t) == borda_score(*data, i as int, t),
                forall|t: Address| #[trigger]
                    scores@.contains_key(t) <==> borda_score(*data, i as int, t) > 0,
                scores.total() == rank_total(*data, i as int) * UNIT,
            decreases data.delegates.items@.len() - i,
        {
            let delegate: Address = data.delegates.items[i];
            match data.source_target_map.get(&delegate) {
                Some(row) => {
                    proof {
                        lemma_row_wf(data.source_target_map, delegate);
                    }
                    let mut j: usize = 0;
                    while j < row.keys.items.len()
                        invariant
                            data.wf(),
                            scores.wf(),
                            row.wf(),
                            0 <= i < data.delegates.items@.len(),
                            delegate == data.delegates.items@[i as int],
                            data.targets(delegate) == row.keys.items@,
                            data.weights(delegate) == row.values@,
                            0 <= j <= row.keys.items@.len(),
                            forall|t: Address| #[trigger]
                                amount(scores@, t) == borda_score(*data, i as int, t) + row_points(
                                    row.keys.items@,
                                    row.values@,
                                    j as int,
                                    t,
                                ),
                            forall|t: Address| #[trigger]
                                scores@.contains_key(t) <==> borda_score(*data, i as int, t)
                                    + row_points(row.keys.items@, row.values@, j as int, t) > 0,
                            scores.total() == rank_total(*data, i as int) * UNIT + row_total(
                                row.values@,
                                j as int,
                            ),
                        decreases row.keys.items@.len() - j,
                    {
                        let target: Address = row.keys.items[j];
                        let ghost before = scores;
                        let ghost full = row.keys.items@.len() as int;
                        let ghost all = data.delegates.items@.len() as int;
                        proof {
                            lemma_points_positive(row.values@, j as int);
                            lemma_row_points_grow(
                                row.keys.items@,
                                row.values@,
                                j + 1,
                                full,
                                target,
                            );
                            lemma_borda_score_grows(*data, i + 1, all, target);
                            lemma_borda_score_bound(*data, all, target);
                            assert(amount(before@, target) == borda_score(*data, i as int, target)
                                + row_points(row.keys.items@, row.values@, j as int, target));
                        }
                        let gained: u64 = match points_at(&row.values, j) {
                            Some(p) => p,
                            None => {
                                return None;
                            },
                        };
                        if !scores.credit(target, gained) {
                            return None;
                        }
                        proof {
                            assert forall|t: Address| #[trigger]
                                amount(scores@, t) == borda_score(*data, i as int, t) + row_points(
                                    row.keys.items@,
                                    row.values@,
                                    j + 1,
                                    t,
                                ) by {
                                assert(amount(before@, t) == borda_score(*data, i as int, t)
                                    + row_points(row.keys.items@, row.values@, j as int, t));
                            }
                            assert forall|t: Address| #[trigger]
                                scores@.contains_key(t) <==> borda_score(*data, i as int, t)
                                    + row_points(row.keys.items@, row.values@, j + 1, t) > 0 by {
                                assert(before@.contains_key(t) <==> borda_score(*data, i as int, t)
                                    + row_points(row.keys.items@, row.values@, j as int, t) > 0);
                            }
                        }
                        j = j + 1;
                    }
                    proof {
                        lemma_row_total(row.values@);
                    }
                },
                None => {
                    proof {
                        assert(data.weights(delegate).len() == 0);
                        assert(triangle(0) == 0);
                    }
                },
            }
            i = i + 1;
        }
        proof {
            assert forall|t: Address|
                #[trigger] borda_score(*data, data.delegates.items@.len() as int, t)
                    <= u64::MAX by {
                assert(amount(scores@, t) == borda_score(
                    *data,
                    data.delegates.items@.len() as int,
                    t,
                ));
            }
        }
        Some(VoteOutcome::SimpleOutcome(scores))
    }
}

/// A weight of the sequence is on its own level.
pub proof fn lemma_level_positive(weights: Seq<u64>, idx: int, n: int)
    requires
        0 <= idx < n <= weights.len(),
    ensures
        level(weights, n, weights[idx]) >= 1,
        above(weights, n, weights[idx]) + level(weights, n, weights[idx]) <= n,
    decreases n,
{
    lemma_counts(weights, n, weights[idx]);
    if idx < n - 1 {
        lemma_level_positive(weights, idx, n - 1);
    }
}

/// Each of the first `n` weights is above `w`, equal to it or below it.
pub proof fn lemma_counts(weights: Seq<u64>, n: int, w: u64)
    requires
        0 <= n,
    ensures
        above(weights, n, w) + level(weights, n, w) + below(weights, n, w) == n,
    decreases n,
{
    if n > 0 {
        lemma_counts(weights, n - 1, w);
    }
}

/// Every vote gets one point at least.
pub proof fn lemma_points_positive(weights: Seq<u64>, idx: int)
    requires
        0 <= idx < weights.len(),
    ensures
        points(weights, idx) >= 2 * HALF_POINT,
        points(weights, idx) == (2 * weights.len() + 1 - 2 * above(
            weights,
            weights.len() as int,
            weights[idx],
        ) - level(weights, weights.len() as int, weights[idx])) * HALF_POINT,
{
    lemma_level_positive(weights, idx, weights.len() as int);
}

/// The points of a target do not fall as votes of the row are added.
pub proof fn lemma_row_points_grow(
    targets: Seq<Address>,
    weights: Seq<u64>,
    n: int,
    m: int,
    target: Address,
)
    requires
        n <= m,
    ensures
        row_points(targets, weights, n, target) <= row_points(targets, weights, m, target),
    decreases m - n,
{
    if n < m {
        lemma_row_points_grow(targets, weights, n, m - 1, target);
    }
}

/// A target has no more points from a row than the row gives in all.
pub proof fn lemma_row_points_bound(
    targets: Seq<Address>,
    weights: Seq<u64>,
    n: int,
    target: Address,
)
    ensures
        row_points(targets, weights, n, target) <= row_total(weights, n),
    decreases n,
{
    if n > 0 {
        lemma_row_points_bound(targets, weights, n - 1, target);
    }
}

/// A target has no more points than the delegates give in all.
pub proof fn lemma_borda_score_bound(data: Votes, n: int, target: Address)
    ensures
        borda_score(data, n, target) <= rank_total(data, n) * UNIT,
    decreases n,
{
    if n > 0 {
        lemma_borda_score_bound(data, n - 1, target);
        let delegate = data.delegates.items@[n - 1];
        let weights = data.weights(delegate);
        lemma_row_points_bound(data.targets(delegate), weights, weights.len() as int, target);
        lemma_row_total(weights);
        let before = rank_total(data, n - 1) as int;
        let gained = triangle(weights.len()) as int;
        assert((before + gained) * UNIT == before * UNIT + gained * UNIT) by (nonlinear_arith);
    }
}

/// The points of a target do not fall as delegates are added.
pub proof fn lemma_borda_score_grows(data: Votes, n: int, m: int, target: Address)
    requires
        n <= m,
    ensures
        borda_score(data, n, target) <= borda_score(data, m, target),
    decreases m - n,
{
    if n < m {
        lemma_borda_score_grows(data, n, m - 1, target);
    }
}

/// Twice the sum `1 + 2 + ... + n` is `n * (n + 1)`.
pub proof fn lemma_triangle(n: nat)
    ensures
        2 * triangle(n) == n * (n + 1),
    decreases n,
{
    if n > 0 {
        let m = n as int;
        lemma_triangle((n - 1) as nat);
        assert(2 * triangle((n - 1) as nat) == (m - 1) * m);
        assert(triangle(n) == triangle((n - 1) as nat) + m);
        assert((m - 1) * m + 2 * m == m * (m + 1)) by (nonlinear_arith);
    } else {
        assert(n * (n + 1) == 0) by (nonlinear_arith)
            requires
                n == 0,
        ;
    }
}

/// For each of the first `m` weights, twice the number of the first `k`
/// weights above it and the number of those equal to it, all added up.
pub open spec fn cross(weights: Seq<u64>, m: int, k: int) -> nat
    decreases m,
{
    if m <= 0 {
        0
    } else {
        cross(weights, m - 1, k) + 2 * above(weights, k, weights[m - 1]) + level(
            weights,
            k,
            weights[m - 1],
        )
    }
}

proof fn lemma_cross_step(weights: Seq<u64>, m: int, k: int)
    requires
        0 <= m,
        0 <= k < weights.len(),
    ensures
        cross(weights, m, k + 1) == cross(weights, m, k) + 2 * below(weights, m, weights[k])
            + level(weights, m, weights[k]),
    decreases m,
{
    if m > 0 {
        lemma_cross_step(weights, m - 1, k);
    }
}

proof fn lemma_cross_square(weights: Seq<u64>, k: int)
    requires
        0 <= k <= weights.len(),
    ensures
        cross(weights, k, k) == k * k,
    decreases k,
{
    if k > 0 {
        let w = weights[k - 1];
        lemma_cross_square(weights, k - 1);
        lemma_cross_step(weights, k - 1, k - 1);
        lemma_counts(weights, k - 1, w);
        assert(above(weights, k, w) == above(weights, k - 1, w));
        assert(level(weights, k, w) == level(weights, k - 1, w) + 1);
        assert(cross(weights, k, k) == cross(weights, k - 1, k) + 2 * above(weights, k, w)
            + level(weights, k, w));
        assert(cross(weights, k - 1, k - 1) == (k - 1) * (k - 1));
        assert(cross(weights, k, k) == (k - 1) * (k - 1) + 2 * (k - 1) + 1);
        assert((k - 1) * (k - 1) + 2 * (k - 1) + 1 == k * k) by (nonlinear_arith);
    } else {
        assert(k * k == 0) by (nonlinear_arith)
            requires
                k == 0,
        ;
    }
}

proof fn lemma_row_total_cross(weights: Seq<u64>, m: int)
    requires
        0 <= m <= weights.len(),
    ensures
        row_total(weights, m) + cross(weights, m, weights.len() as int) * HALF_POINT == m * (2
            * weights.len() + 1) * HALF_POINT,
    decreases m,
{
    let n = weights.len() as int;
    if m > 0 {
        lemma_row_total_cross(weights, m - 1);
        lemma_points_positive(weights, m - 1);
        let a = above(weights, n, weights[m - 1]) as int;
        let e = level(weights, n, weights[m - 1]) as int;
        let c = cross(weights, m - 1, n) as int;
        let h = HALF_POINT as int;
        let p = points(weights, m - 1) as int;
        let r = row_total(weights, m - 1) as int;
        assert(cross(weights, m, n) == c + 2 * a + e);
        assert(p == (2 * n + 1 - 2 * a - e) * h);
        assert(row_total(weights, m) == r + p);
        assert(r + c * h == (m - 1) * (2 * n + 1) * h);
        assert(r + p + (c + 2 * a + e) * h == m * (2 * n + 1) * h) by (nonlinear_arith)
            requires
                p == (2 * n + 1 - 2 * a - e) * h,
                r + c * h == (m - 1) * (2 * n + 1) * h,
        ;
    } else {
        assert(m * (2 * n + 1) * HALF_POINT == 0) by (nonlinear_arith)
            requires
                m == 0,
        ;
        assert(cross(weights, m, n) * HALF_POINT == 0) by (nonlinear_arith)
            requires
                cross(weights, m, n) == 0,
        ;
    }
}

/// The votes of a row give `1 + 2 + ... + n` points in all, where `n` is the
/// number of its targets: sharing the points of tied ranks moves points, and
/// makes or loses none.
pub proof fn lemma_row_total(weights: Seq<u64>)
    ensures
        row_total(weights, weights.len() as int) == triangle(weights.len()) * UNIT,
{
    let n = weights.len() as int;
    lemma_row_total_cross(weights, n);
    lemma_cross_square(weights, n);
    lemma_triangle(weights.len());
    let t = triangle(weights.len()) as int;
    let total = row_total(weights, n) as int;
    let c = cross(weights, n, n) as int;
    assert(n * (n + 1) == 2 * t);
    assert(total + c * 500_000 == n * (2 * n + 1) * 500_000);
    assert(c == n * n);
    assert(total == t * 1_000_000) by (nonlinear_arith)
        requires
            n * (n + 1) == 2 * t,
            total + c * 500_000 == n * (2 * n + 1) * 500_000,
            c == n * n,
    ;
}

} // verus!
