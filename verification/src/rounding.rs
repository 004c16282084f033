//! Shares that add up: rounding in which what one number loses by being
//! rounded down goes to a later one.

use crate::weight::{sum, UNIT};
use vstd::arithmetic::div_mod::{
    lemma_div_by_multiple, lemma_div_is_ordered, lemma_fundamental_div_mod,
    lemma_fundamental_div_mod_converse_div, lemma_fundamental_div_mod_converse_mod,
    lemma_mod_pos_bound,
};
use vstd::prelude::*;

verus! {

/// The sum of the first `n` numbers of `s`.
pub open spec fn prefix(s: Seq<u64>, n: int) -> nat
    decreases n,
{
    if n <= 0 {
        0
    } else {
        prefix(s, n - 1) + s[n - 1] as nat
    }
}

/// The share of the first `n` weights in the sum of all, rounded down.
pub open spec fn cumulative(weights: Seq<u64>, n: int) -> nat {
    (prefix(weights, n) as int * UNIT as int / sum(weights) as int) as nat
}

/// The share of the weight at index `j`: what the share of the first `j + 1`
/// weights has more than that of the first `j`. It is the quotient of the
/// weight by the sum, rounded down or up, and what the shares before it have
/// lost by rounding decides which.
pub open spec fn share_at(weights: Seq<u64>, j: int) -> nat {
    (cumulative(weights, j + 1) - cumulative(weights, j)) as nat
}

/// The weights of one source, each replaced by its share in their sum. Where
/// the sum is zero there are no shares, and the weights are kept.
pub open spec fn normalized(weights: Seq<u64>) -> Seq<u64> {
    if sum(weights) == 0 {
        weights
    } else {
        Seq::new(weights.len(), |j: int| share_at(weights, j) as u64)
    }
}

/// Each of `shares` is the quotient of its weight by the sum of `weights`,
/// rounded down or up: it is within one millionth of the exact quotient.
pub open spec fn close_shares(weights: Seq<u64>, shares: Seq<u64>) -> bool {
    &&& shares.len() == weights.len()
    &&& forall|j: int|
        0 <= j < weights.len() ==> weights[j] as int * UNIT as int / sum(weights) as int
            <= #[trigger] shares[j] <= weights[j] as int * UNIT as int / sum(weights) as int + 1
}

/// The quotient and the remainder of a sum, from the remainder of its first
/// part.
pub proof fn lemma_carry(p: int, x: int, t: int)
    requires
        0 <= p,
        0 <= x,
        0 < t,
    ensures
        0 <= p % t < t,
        (p + x) / t == p / t + (p % t + x) / t,
        (p + x) % t == (p % t + x) % t,
{
    lemma_fundamental_div_mod(p, t);
    lemma_mod_pos_bound(p, t);
    let s = p % t + x;
    lemma_fundamental_div_mod(s, t);
    lemma_mod_pos_bound(s, t);
    let q = p / t + s / t;
    assert(p + x == q * t + s % t) by (nonlinear_arith)
        requires
            p == t * (p / t) + p % t,
            s == t * (s / t) + s % t,
            s == p % t + x,
            q == p / t + s / t,
    ;
    lemma_fundamental_div_mod_converse_div(p + x, t, q, s % t);
    lemma_fundamental_div_mod_converse_mod(p + x, t, q, s % t);
}

/// The quotient and the remainder of a number below the divisor.
pub proof fn lemma_below(s: int, t: int)
    requires
        0 <= s < t,
    ensures
        s / t == 0,
        s % t == s,
{
    assert(s == 0 * t + s) by (nonlinear_arith);
    lemma_fundamental_div_mod_converse_div(s, t, 0, s);
    lemma_fundamental_div_mod_converse_mod(s, t, 0, s);
}

/// The quotient and the remainder of a number that is the divisor and more.
pub proof fn lemma_above(y: int, t: int)
    requires
        0 <= y,
        0 < t,
    ensures
        (t + y) / t == 1 + y / t,
        (t + y) % t == y % t,
        0 <= y / t <= y,
{
    lemma_fundamental_div_mod(y, t);
    lemma_mod_pos_bound(y, t);
    let q = 1 + y / t;
    assert(t + y == q * t + y % t) by (nonlinear_arith)
        requires
            y == t * (y / t) + y % t,
            q == 1 + y / t,
    ;
    lemma_fundamental_div_mod_converse_div(t + y, t, q, y % t);
    lemma_fundamental_div_mod_converse_mod(t + y, t, q, y % t);
    assert(0 <= y / t <= y) by (nonlinear_arith)
        requires
            y == t * (y / t) + y % t,
            0 <= y % t < t,
            0 <= y,
            0 < t,
    ;
}

/// The sum of the first `n` numbers is the sum of that part of the sequence.
pub proof fn lemma_prefix_sum(s: Seq<u64>, n: int)
    requires
        0 <= n <= s.len(),
    ensures
        prefix(s, n) == sum(s.take(n)),
        n == s.len() ==> prefix(s, n) == sum(s),
    decreases n,
{
    if n > 0 {
        lemma_prefix_sum(s, n - 1);
        assert(s.take(n).drop_last() =~= s.take(n - 1));
        assert(s.take(n).last() == s[n - 1]);
    }
    if n == s.len() {
        assert(s.take(n) =~= s);
    }
}

/// The sum of the first numbers does not fall as numbers are added.
pub proof fn lemma_prefix_grows(s: Seq<u64>, n: int, m: int)
    requires
        n <= m,
    ensures
        prefix(s, n) <= prefix(s, m),
    decreases m - n,
{
    if n < m {
        lemma_prefix_grows(s, n, m - 1);
    }
}

/// The share of the first weights grows with their number, from nothing to
/// one whole.
pub proof fn lemma_cumulative(weights: Seq<u64>, n: int, m: int)
    requires
        sum(weights) > 0,
        0 <= n <= m <= weights.len(),
    ensures
        cumulative(weights, 0) == 0,
        cumulative(weights, n) <= cumulative(weights, m),
        cumulative(weights, weights.len() as int) == UNIT,
        cumulative(weights, n) == prefix(weights, n) as int * UNIT as int / sum(weights) as int,
{
    let t = sum(weights) as int;
    let u = UNIT as int;
    let a = prefix(weights, n) as int;
    let b = prefix(weights, m) as int;
    lemma_prefix_grows(weights, n, m);
    lemma_prefix_sum(weights, weights.len() as int);
    assert(0 <= a * u <= b * u) by (nonlinear_arith)
        requires
            0 <= a <= b,
            u > 0,
    ;
    lemma_div_is_ordered(a * u, b * u, t);
    lemma_div_is_ordered(0, a * u, t);
    lemma_below(0, t);
    assert(prefix(weights, 0) as int * u == 0) by (nonlinear_arith)
        requires
            prefix(weights, 0) == 0,
    ;
    assert(t * u == u * t) by (nonlinear_arith);
    lemma_div_by_multiple(u, t);
}

/// A share is one whole at most.
pub proof fn lemma_share_at_bound(weights: Seq<u64>, j: int)
    requires
        sum(weights) > 0,
        0 <= j < weights.len(),
    ensures
        share_at(weights, j) <= UNIT,
        share_at(weights, j) == cumulative(weights, j + 1) - cumulative(weights, j),
{
    lemma_cumulative(weights, j, j + 1);
    lemma_cumulative(weights, j + 1, weights.len() as int);
}

/// A share is the quotient of the weight by the sum, rounded down or up: it
/// is within one millionth of the exact quotient.
pub proof fn lemma_share_at_close(weights: Seq<u64>, j: int)
    requires
        sum(weights) > 0,
        0 <= j < weights.len(),
    ensures
        weights[j] as int * UNIT as int / sum(weights) as int <= share_at(weights, j),
        share_at(weights, j) <= weights[j] as int * UNIT as int / sum(weights) as int + 1,
{
    let t = sum(weights) as int;
    let u = UNIT as int;
    let p = prefix(weights, j) as int * u;
    let x = weights[j] as int * u;
    lemma_share_at_bound(weights, j);
    lemma_cumulative(weights, j, j + 1);
    lemma_cumulative(weights, j + 1, j + 1);
    assert(0 <= p && 0 <= x) by (nonlinear_arith)
        requires
            p == prefix(weights, j) as int * u,
            x == weights[j] as int * u,
            u > 0,
    ;
    assert(prefix(weights, j + 1) as int * u == p + x) by (nonlinear_arith)
        requires
            prefix(weights, j + 1) == prefix(weights, j) + weights[j],
            p == prefix(weights, j) as int * u,
            x == weights[j] as int * u,
    ;
    lemma_carry(p, x, t);
    lemma_div_is_ordered(x, p % t + x, t);
    lemma_div_is_ordered(p % t + x, t + x, t);
    lemma_above(x, t);
}

/// The first `n` shares add up to the share of the first `n` weights.
pub proof fn lemma_normalized_prefix(weights: Seq<u64>, n: int)
    requires
        sum(weights) > 0,
        0 <= n <= weights.len(),
    ensures
        prefix(normalized(weights), n) == cumulative(weights, n),
    decreases n,
{
    lemma_cumulative(weights, 0, n);
    if n > 0 {
        lemma_normalized_prefix(weights, n - 1);
        lemma_share_at_bound(weights, n - 1);
    }
}

/// The shares of weights with a positive sum add up to exactly one whole.
pub proof fn lemma_normalized_sum(weights: Seq<u64>)
    requires
        sum(weights) > 0,
    ensures
        sum(normalized(weights)) == UNIT,
{
    let n = weights.len() as int;
    lemma_normalized_prefix(weights, n);
    lemma_cumulative(weights, n, n);
    lemma_prefix_sum(normalized(weights), n);
}

/// The shares of weights with a positive sum are within one millionth of
/// the exact quotients.
pub proof fn lemma_normalized_close(weights: Seq<u64>)
    requires
        sum(weights) > 0,
    ensures
        close_shares(weights, normalized(weights)),
{
    assert forall|j: int| 0 <= j < weights.len() implies weights[j] as int * UNIT as int / sum(
        weights,
    ) as int <= #[trigger] normalized(weights)[j] <= weights[j] as int * UNIT as int / sum(
        weights,
    ) as int + 1 by {
        lemma_share_at_close(weights, j);
        lemma_share_at_bound(weights, j);
    }
}

/// Shares add up to one whole at most.
pub proof fn lemma_normalized_bound(weights: Seq<u64>)
    ensures
        sum(normalized(weights)) <= UNIT,
{
    if sum(weights) > 0 {
        lemma_normalized_sum(weights);
    }
}

/// Weights that add up to one whole, or to nothing, are their own shares.
pub proof fn lemma_normalized_fixed(weights: Seq<u64>)
    requires
        sum(weights) == UNIT || sum(weights) == 0,
    ensures
        normalized(weights) == weights,
{
    if sum(weights) == UNIT {
        assert forall|j: int| 0 <= j < weights.len() implies normalized(weights)[j]
            == weights[j] by {
            lemma_share_at_bound(weights, j);
            lemma_div_by_multiple(prefix(weights, j) as int, UNIT as int);
            lemma_div_by_multiple(prefix(weights, j + 1) as int, UNIT as int);
        }
        assert(normalized(weights) =~= weights);
    }
}

} // verus!
