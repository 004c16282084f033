use turnout::address::Address;
use turnout::address_map::AddressMap;
use turnout::rules::{Approval, Borda, LiquidDemocracy, Majority, Rule, VoteOutcome};
use turnout::vote_data::Votes;
use turnout::weight::UNIT;

fn addr(n: u8) -> Address {
    let mut bytes = [0u8; 32];
    bytes[31] = n;
    Address::from_bytes(bytes)
}

fn score(outcome: &VoteOutcome, target: &Address) -> Option<u64> {
    outcome.get_scores().get(target).copied()
}

fn total(scores: &AddressMap<u64>) -> u128 {
    scores.values.iter().map(|v| *v as u128).sum()
}

/// Two delegates that give all their weight to one policy.
fn two_for_one() -> (Votes, Address) {
    let (d1, d2, p) = (addr(1), addr(2), addr(9));
    let mut votes = Votes::new();
    votes.add_delegate(d1);
    votes.add_delegate(d2);
    votes.add_policy(p);
    votes.add_vote(d1, p, UNIT);
    votes.add_vote(d2, p, UNIT);
    (votes, p)
}

#[test]
fn majority_counts_one_vote_for_each_delegate() {
    let (votes, p) = two_for_one();
    let outcome = Majority::calculate(&votes).unwrap();
    assert!(matches!(outcome, VoteOutcome::SimpleOutcome(_)));
    assert_eq!(score(&outcome, &p), Some(2 * UNIT));
    assert_eq!(outcome.get_scores().len(), 1);
    assert!(outcome.get_influences().is_none());
}

#[test]
fn approval_counts_one_vote_for_each_delegate() {
    let (votes, p) = two_for_one();
    let outcome = Approval::calculate(&votes).unwrap();
    assert!(matches!(outcome, VoteOutcome::SimpleOutcome(_)));
    assert_eq!(score(&outcome, &p), Some(2 * UNIT));
    assert_eq!(outcome.get_scores().len(), 1);
}

#[test]
fn borda_gives_one_point_for_a_single_target() {
    let (votes, p) = two_for_one();
    let outcome = Borda::calculate(&votes).unwrap();
    assert!(matches!(outcome, VoteOutcome::SimpleOutcome(_)));
    assert_eq!(score(&outcome, &p), Some(2 * UNIT));
    assert_eq!(outcome.get_scores().len(), 1);
}

#[test]
fn borda_splits_the_points_of_a_tie() {
    let (d, a, b) = (addr(1), addr(2), addr(3));
    let mut votes = Votes::new();
    votes.add_delegate(d);
    votes.add_policy(a);
    votes.add_policy(b);
    votes.add_vote(d, a, UNIT / 2);
    votes.add_vote(d, b, UNIT / 2);
    let outcome = Borda::calculate(&votes).unwrap();
    assert_eq!(score(&outcome, &a), Some(1_500_000));
    assert_eq!(score(&outcome, &b), Some(1_500_000));
    assert_eq!(total(outcome.get_scores()), 3 * UNIT as u128);
}

#[test]
fn borda_ranks_by_weight() {
    let (d, a, b, c) = (addr(1), addr(2), addr(3), addr(4));
    let mut votes = Votes::new();
    votes.add_delegate(d);
    votes.add_vote(d, a, 100_000);
    votes.add_vote(d, b, 600_000);
    votes.add_vote(d, c, 300_000);
    let outcome = Borda::calculate(&votes).unwrap();
    assert_eq!(score(&outcome, &a), Some(UNIT));
    assert_eq!(score(&outcome, &b), Some(3 * UNIT));
    assert_eq!(score(&outcome, &c), Some(2 * UNIT));
}

#[test]
fn borda_shares_the_ranks_of_a_tie_below_a_leader() {
    let (d, a, b, c, e) = (addr(1), addr(2), addr(3), addr(4), addr(5));
    let mut votes = Votes::new();
    votes.add_delegate(d);
    votes.add_vote(d, a, 400_000);
    votes.add_vote(d, b, 200_000);
    votes.add_vote(d, c, 200_000);
    votes.add_vote(d, e, 200_000);
    let outcome = Borda::calculate(&votes).unwrap();
    assert_eq!(score(&outcome, &a), Some(4 * UNIT));
    assert_eq!(score(&outcome, &b), Some(2 * UNIT));
    assert_eq!(score(&outcome, &c), Some(2 * UNIT));
    assert_eq!(score(&outcome, &e), Some(2 * UNIT));
    assert_eq!(total(outcome.get_scores()), 10 * UNIT as u128);
}

#[test]
fn borda_total_is_the_sum_of_the_ranks() {
    let mut votes = Votes::new();
    for d in 1..=3u8 {
        votes.add_delegate(addr(d));
    }
    // three targets, two of them tied
    votes.add_vote(addr(1), addr(10), 500_000);
    votes.add_vote(addr(1), addr(11), 250_000);
    votes.add_vote(addr(1), addr(12), 250_000);
    // two targets
    votes.add_vote(addr(2), addr(10), 1);
    votes.add_vote(addr(2), addr(12), 2);
    // one target; the third delegate has four, all tied
    for t in 10..14u8 {
        votes.add_vote(addr(3), addr(t), 7);
    }
    let outcome = Borda::calculate(&votes).unwrap();
    // 1+2+3, 1+2 and 1+2+3+4 points
    assert_eq!(total(outcome.get_scores()), (6 + 3 + 10) * UNIT as u128);
    assert_eq!(score(&outcome, &addr(10)), Some(3 * UNIT + UNIT + 2_500_000));
    assert_eq!(score(&outcome, &addr(11)), Some(1_500_000 + 2_500_000));
    assert_eq!(score(&outcome, &addr(12)), Some(1_500_000 + 2 * UNIT + 2_500_000));
    assert_eq!(score(&outcome, &addr(13)), Some(2_500_000));
}

#[test]
fn borda_counts_the_delegates_only() {
    let (d, i, p) = (addr(1), addr(2), addr(3));
    let mut votes = Votes::new();
    votes.add_delegate(d);
    votes.add_intermediary(i);
    votes.add_vote(d, i, UNIT);
    votes.add_vote(i, p, UNIT);
    let outcome = Borda::calculate(&votes).unwrap();
    assert_eq!(score(&outcome, &i), Some(UNIT));
    assert_eq!(score(&outcome, &p), None);
}

#[test]
fn approval_needs_more_than_one_half() {
    let (d1, d2, a, b) = (addr(1), addr(2), addr(3), addr(4));
    let mut votes = Votes::new();
    votes.add_delegate(d1);
    votes.add_delegate(d2);
    votes.add_vote(d1, a, 500_000);
    votes.add_vote(d1, b, 500_000);
    votes.add_vote(d2, a, 500_001);
    votes.add_vote(d2, b, 499_999);
    let outcome = Approval::calculate(&votes).unwrap();
    assert_eq!(score(&outcome, &a), Some(UNIT));
    assert_eq!(score(&outcome, &b), None);
    assert_eq!(outcome.get_scores().len(), 1);
}

#[test]
fn approval_total_is_at_most_the_number_of_delegates() {
    let mut votes = Votes::new();
    for d in 1..=4u8 {
        votes.add_delegate(addr(d));
    }
    votes.add_vote(addr(1), addr(10), 700_000);
    votes.add_vote(addr(1), addr(11), 300_000);
    votes.add_vote(addr(2), addr(11), 900_000);
    votes.add_vote(addr(2), addr(10), 100_000);
    votes.add_vote(addr(3), addr(10), 500_000);
    votes.add_vote(addr(3), addr(11), 500_000);
    let outcome = Approval::calculate(&votes).unwrap();
    assert_eq!(score(&outcome, &addr(10)), Some(UNIT));
    assert_eq!(score(&outcome, &addr(11)), Some(UNIT));
    assert!(total(outcome.get_scores()) <= 4 * UNIT as u128);
    for v in outcome.get_scores().values.iter() {
        assert_eq!(v % UNIT, 0);
    }
}

#[test]
fn approval_counts_each_weight_above_one_half_where_weights_are_not_shares() {
    let (d, a, b) = (addr(1), addr(2), addr(3));
    let mut votes = Votes::new();
    votes.add_delegate(d);
    votes.add_vote(d, a, 900_000);
    votes.add_vote(d, b, 800_000);
    let outcome = Approval::calculate(&votes).unwrap();
    assert_eq!(total(outcome.get_scores()), 2 * UNIT as u128);
}

#[test]
fn approval_ignores_sources_that_are_no_delegates() {
    let (d, i, p) = (addr(1), addr(2), addr(3));
    let mut votes = Votes::new();
    votes.add_delegate(d);
    votes.add_intermediary(i);
    votes.add_vote(i, p, UNIT);
    let outcome = Approval::calculate(&votes).unwrap();
    assert_eq!(outcome.get_scores().len(), 0);
}

#[test]
fn majority_takes_the_greatest_weight() {
    let (d1, d2, d3, a, b) = (addr(1), addr(2), addr(3), addr(4), addr(5));
    let mut votes = Votes::new();
    votes.add_delegate(d1);
    votes.add_delegate(d2);
    votes.add_delegate(d3);
    votes.add_vote(d1, a, 300_000);
    votes.add_vote(d1, b, 700_000);
    votes.add_vote(d2, a, 600_000);
    votes.add_vote(d2, b, 400_000);
    let outcome = Majority::calculate(&votes).unwrap();
    assert_eq!(score(&outcome, &a), Some(UNIT));
    assert_eq!(score(&outcome, &b), Some(UNIT));
    // the third delegate abstains
    assert_eq!(total(outcome.get_scores()), 2 * UNIT as u128);
    assert!(total(outcome.get_scores()) <= 3 * UNIT as u128);
}

#[test]
fn majority_breaks_a_tie_by_the_order_of_addresses() {
    let (d, a, b) = (addr(1), addr(7), addr(5));
    let mut votes = Votes::new();
    votes.add_delegate(d);
    votes.add_vote(d, a, 500_000);
    votes.add_vote(d, b, 500_000);
    let outcome = Majority::calculate(&votes).unwrap();
    assert_eq!(score(&outcome, &b), Some(UNIT));
    assert_eq!(score(&outcome, &a), None);
}

#[test]
fn majority_takes_a_weight_of_zero_where_there_is_no_other() {
    let (d, a) = (addr(1), addr(2));
    let mut votes = Votes::new();
    votes.add_delegate(d);
    votes.add_vote(d, a, 0);
    let outcome = Majority::calculate(&votes).unwrap();
    assert_eq!(score(&outcome, &a), Some(UNIT));
}

#[test]
fn single_favorite_leaves_one_vote_for_each_delegate() {
    let (d1, d2, i, a, b) = (addr(1), addr(2), addr(3), addr(4), addr(5));
    let mut votes = Votes::new();
    votes.add_delegate(d1);
    votes.add_delegate(d2);
    votes.add_intermediary(i);
    votes.add_vote(d1, a, 300_000);
    votes.add_vote(d1, b, 700_000);
    votes.add_vote(i, a, UNIT);
    Majority::single_favorite(&mut votes);
    assert_eq!(votes.source_target_map.len(), 1);
    let row = votes.source_target_map.get(&d1).unwrap();
    assert_eq!(row.len(), 1);
    assert_eq!(row.get(&b).copied(), Some(UNIT));
    assert!(votes.source_target_map.get(&d2).is_none());
    assert!(votes.source_target_map.get(&i).is_none());
    assert_eq!(votes.delegates.len(), 2);
    assert_eq!(votes.intermediaries.len(), 1);
}

#[test]
fn liquid_passes_the_weight_on_to_the_policy() {
    let (d, i, p) = (addr(1), addr(2), addr(3));
    let mut votes = Votes::new();
    votes.add_delegate(d);
    votes.add_intermediary(i);
    votes.add_policy(p);
    votes.add_vote(d, i, UNIT);
    votes.add_vote(i, p, UNIT);
    let outcome = LiquidDemocracy::calculate(&votes).unwrap();
    assert!(matches!(outcome, VoteOutcome::OutcomeAndInfluences(_, _)));
    assert_eq!(score(&outcome, &p), Some(UNIT));
    assert_eq!(outcome.get_scores().len(), 1);
    let influences = outcome.get_influences().unwrap();
    assert_eq!(influences.len(), 2);
    assert_eq!(influences.get(&d).copied(), Some(UNIT));
    assert_eq!(influences.get(&i).copied(), Some(2 * UNIT));
    assert!(influences.get(&p).is_none());
}

#[test]
fn liquid_splits_the_weight_of_a_delegate() {
    let (d1, d2, p1, p2) = (addr(1), addr(2), addr(3), addr(4));
    let mut votes = Votes::new();
    votes.add_delegate(d1);
    votes.add_delegate(d2);
    votes.add_policy(p1);
    votes.add_policy(p2);
    votes.add_vote(d1, p1, 250_000);
    votes.add_vote(d1, p2, 750_000);
    votes.add_vote(d2, p2, UNIT);
    let outcome = LiquidDemocracy::calculate(&votes).unwrap();
    assert_eq!(score(&outcome, &p1), Some(250_000));
    assert_eq!(score(&outcome, &p2), Some(1_750_000));
    let influences = outcome.get_influences().unwrap();
    assert_eq!(influences.get(&d1).copied(), Some(UNIT));
    assert_eq!(influences.get(&d2).copied(), Some(UNIT));
}

#[test]
fn liquid_keys_are_the_policies_and_the_voters() {
    let mut votes = Votes::new();
    votes.add_delegate(addr(1));
    votes.add_delegate(addr(2));
    votes.add_intermediary(addr(3));
    votes.add_policy(addr(4));
    votes.add_policy(addr(5));
    votes.add_vote(addr(1), addr(3), UNIT);
    votes.add_vote(addr(3), addr(4), UNIT);
    let outcome = LiquidDemocracy::calculate(&votes).unwrap();
    assert_eq!(outcome.get_scores().keys.items, vec![addr(4), addr(5)]);
    assert_eq!(
        outcome.get_influences().unwrap().keys.items,
        vec![addr(1), addr(2), addr(3)]
    );
    assert_eq!(score(&outcome, &addr(4)), Some(UNIT));
    assert_eq!(score(&outcome, &addr(5)), Some(0));
}

#[test]
fn liquid_gives_up_where_the_weights_grow_out_of_range() {
    let d = addr(1);
    let mut votes = Votes::new();
    votes.add_delegate(d);
    votes.add_vote(d, d, 1_000 * UNIT);
    assert!(LiquidDemocracy::calculate(&votes).is_none());
}

#[test]
fn liquid_of_the_empty_graph_is_empty() {
    let votes = Votes::new();
    let outcome = LiquidDemocracy::calculate(&votes).unwrap();
    assert_eq!(outcome.get_scores().len(), 0);
    assert_eq!(outcome.get_influences().unwrap().len(), 0);
}

#[test]
fn rules_of_the_empty_graph_give_no_scores() {
    let votes = Votes::new();
    assert_eq!(Approval::calculate(&votes).unwrap().get_scores().len(), 0);
    assert_eq!(Borda::calculate(&votes).unwrap().get_scores().len(), 0);
    assert_eq!(Majority::calculate(&votes).unwrap().get_scores().len(), 0);
}

#[test]
fn approval_takes_the_threshold_that_it_is_given() {
    let (d, a, b) = (addr(1), addr(2), addr(3));
    let mut votes = Votes::new();
    votes.add_delegate(d);
    votes.add_vote(d, a, 300_000);
    votes.add_vote(d, b, 700_000);
    let low = Approval::with_threshold(&votes, 299_999).unwrap();
    assert_eq!(score(&low, &a), Some(UNIT));
    assert_eq!(score(&low, &b), Some(UNIT));
    let exact = Approval::with_threshold(&votes, 300_000).unwrap();
    assert_eq!(score(&exact, &a), None);
    assert_eq!(score(&exact, &b), Some(UNIT));
    let high = Approval::with_threshold(&votes, 700_000).unwrap();
    assert_eq!(high.get_scores().len(), 0);
}

#[test]
fn liquid_moves_the_weight_one_vote_in_each_step() {
    let (d, i, p) = (addr(1), addr(2), addr(3));
    let mut votes = Votes::new();
    votes.add_delegate(d);
    votes.add_intermediary(i);
    votes.add_policy(p);
    votes.add_vote(d, i, UNIT);
    votes.add_vote(i, p, UNIT);
    let none = LiquidDemocracy::with_iterations(&votes, 0).unwrap();
    assert_eq!(score(&none, &p), Some(0));
    let one = LiquidDemocracy::with_iterations(&votes, 1).unwrap();
    assert_eq!(score(&one, &p), Some(0));
    assert_eq!(one.get_influences().unwrap().get(&i).copied(), Some(2 * UNIT));
    let two = LiquidDemocracy::with_iterations(&votes, 2).unwrap();
    assert_eq!(score(&two, &p), Some(UNIT));
    assert_eq!(two.get_influences().unwrap().get(&d).copied(), Some(UNIT));
}

#[test]
fn liquid_counts_what_comes_back_to_a_node() {
    // two delegates that pass half of their weight to each other
    let (d1, d2, p) = (addr(1), addr(2), addr(3));
    let mut votes = Votes::new();
    votes.add_delegate(d1);
    votes.add_delegate(d2);
    votes.add_policy(p);
    votes.add_vote(d1, d2, 500_000);
    votes.add_vote(d1, p, 500_000);
    votes.add_vote(d2, d1, 500_000);
    votes.add_vote(d2, p, 500_000);
    let two = LiquidDemocracy::with_iterations(&votes, 2).unwrap();
    // after two steps a quarter is back with each delegate
    assert_eq!(score(&two, &p), Some(1_500_000));
    // each has received 1 + 1/4 from itself and 1/2 from the other
    let influences = two.get_influences().unwrap();
    assert_eq!(influences.get(&d1).copied(), Some(1_400_000));
    assert_eq!(influences.get(&d2).copied(), Some(1_400_000));
    let all = LiquidDemocracy::calculate(&votes).unwrap();
    // in the end all of it is with the policy
    assert_eq!(score(&all, &p), Some(2 * UNIT));
}

#[test]
fn liquid_loses_no_weight_to_rounding() {
    let (d, i, p1, p2) = (addr(1), addr(2), addr(3), addr(4));
    let mut votes = Votes::new();
    votes.add_delegate(d);
    votes.add_intermediary(i);
    votes.add_policy(p1);
    votes.add_policy(p2);
    votes.add_vote(d, i, 1);
    votes.add_vote(d, p1, 999_999);
    votes.add_vote(i, p1, 1);
    votes.add_vote(i, p2, 999_999);
    let outcome = LiquidDemocracy::calculate(&votes).unwrap();
    assert_eq!(score(&outcome, &p1), Some(999_999));
    assert_eq!(score(&outcome, &p2), Some(1));
    assert_eq!(total(outcome.get_scores()), UNIT as u128);
    let two = LiquidDemocracy::with_iterations(&votes, 2).unwrap();
    assert_eq!(total(two.get_scores()), UNIT as u128);
}

#[test]
fn liquid_scores_add_up_to_the_delegates() {
    // five delegates, three intermediaries in a chain, two policies
    let mut votes = Votes::new();
    for d in 1..=5u8 {
        votes.add_delegate(addr(d));
        votes.add_vote(addr(d), addr(11), d as u64);
        votes.add_vote(addr(d), addr(12), 3);
        votes.add_vote(addr(d), addr(21), 7);
    }
    for i in 11..=13u8 {
        votes.add_intermediary(addr(i));
    }
    votes.add_policy(addr(21));
    votes.add_policy(addr(22));
    votes.add_vote(addr(11), addr(12), 1);
    votes.add_vote(addr(11), addr(13), 1);
    votes.add_vote(addr(11), addr(21), 1);
    votes.add_vote(addr(12), addr(13), 2);
    votes.add_vote(addr(12), addr(22), 5);
    votes.add_vote(addr(13), addr(21), 1);
    votes.add_vote(addr(13), addr(22), 2);
    assert_eq!(votes.normalize().len(), 0);
    let outcome = LiquidDemocracy::calculate(&votes).unwrap();
    assert_eq!(total(outcome.get_scores()), 5 * UNIT as u128);
    // after one step some weight is still on its way
    let one = LiquidDemocracy::with_iterations(&votes, 1).unwrap();
    assert!(total(one.get_scores()) < 5 * UNIT as u128);
    let three = LiquidDemocracy::with_iterations(&votes, 3).unwrap();
    assert!(total(three.get_scores()) < 5 * UNIT as u128);
    let four = LiquidDemocracy::with_iterations(&votes, 4).unwrap();
    assert_eq!(total(four.get_scores()), 5 * UNIT as u128);
}
