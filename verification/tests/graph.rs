use turnout::address::Address;
use turnout::address_map::AddressMap;
use turnout::address_set::AddressSet;
use turnout::matrix::Matrix;
use turnout::rules::liquid::power_series;
use turnout::vote_data::Votes;
use turnout::weight::UNIT;

fn addr(n: u8) -> Address {
    let mut bytes = [0u8; 32];
    bytes[31] = n;
    Address::from_bytes(bytes)
}

fn weight(votes: &Votes, source: u8, target: u8) -> Option<u64> {
    votes
        .source_target_map
        .get(&addr(source))
        .and_then(|row| row.get(&addr(target)).copied())
}

/// One delegate, two intermediaries and two policies; the second
/// intermediary and the second policy are out of the delegate's reach.
fn sample() -> Votes {
    let mut votes = Votes::new();
    votes.add_delegate(addr(1));
    votes.add_intermediary(addr(2));
    votes.add_intermediary(addr(3));
    votes.add_policy(addr(4));
    votes.add_policy(addr(5));
    votes.add_vote(addr(1), addr(2), 400_000);
    votes.add_vote(addr(1), addr(4), 600_000);
    votes.add_vote(addr(2), addr(4), UNIT);
    votes.add_vote(addr(3), addr(5), UNIT);
    votes
}

#[test]
fn set_keeps_its_items_in_order_and_once() {
    let mut set = AddressSet::new();
    assert!(set.insert(addr(5)));
    assert!(set.insert(addr(1)));
    assert!(set.insert(addr(3)));
    assert!(!set.insert(addr(5)));
    assert_eq!(set.items, vec![addr(1), addr(3), addr(5)]);
    assert_eq!(set.len(), 3);
    assert!(set.contains(&addr(3)));
    assert!(!set.contains(&addr(2)));
    assert_eq!(set.position(&addr(5)), Some(2));
    assert_eq!(set.position(&addr(4)), None);
    assert_eq!(set.search(&addr(4)), (false, 2));
    assert_eq!(set.search(&addr(9)), (false, 3));
    assert_eq!(set.search(&addr(1)), (true, 0));
}

#[test]
fn set_intersection_keeps_the_common_items() {
    let mut a = AddressSet::new();
    let mut b = AddressSet::new();
    for n in [1u8, 2, 3, 4] {
        a.insert(addr(n));
    }
    for n in [4u8, 2, 9] {
        b.insert(addr(n));
    }
    assert_eq!(a.intersection(&b).items, vec![addr(2), addr(4)]);
    assert_eq!(a.copy().items, a.items);
}

#[test]
fn map_replaces_the_value_of_a_key() {
    let mut map: AddressMap<u64> = AddressMap::new();
    map.insert(addr(2), 20);
    map.insert(addr(1), 10);
    map.insert(addr(2), 21);
    assert_eq!(map.len(), 2);
    assert_eq!(map.keys.items, vec![addr(1), addr(2)]);
    assert_eq!(map.values, vec![10, 21]);
    assert_eq!(map.get(&addr(2)).copied(), Some(21));
    assert_eq!(map.get(&addr(3)), None);
    assert_eq!(map.position(&addr(2)), Some(1));
}

#[test]
fn credit_adds_to_what_is_held() {
    let mut map: AddressMap<u64> = AddressMap::new();
    assert!(map.credit(addr(1), 5));
    assert!(map.credit(addr(1), 7));
    assert_eq!(map.get(&addr(1)).copied(), Some(12));
    assert!(map.credit(addr(2), u64::MAX));
    assert!(!map.credit(addr(2), 1));
    assert_eq!(map.get(&addr(2)).copied(), Some(u64::MAX));
    assert_eq!(map.sum_of_values(), 12 + u64::MAX as u128);
    assert_eq!(map.copy().values, map.values);
}

#[test]
fn count_address_counts_each_set() {
    let votes = sample();
    assert_eq!(votes.count_address(), 5);
    assert_eq!(Votes::new().count_address(), 0);
}

#[test]
fn add_vote_replaces_the_weight_of_a_target() {
    let mut votes = sample();
    votes.add_vote(addr(1), addr(2), 1);
    assert_eq!(weight(&votes, 1, 2), Some(1));
    assert_eq!(weight(&votes, 1, 4), Some(600_000));
    let mut row: AddressMap<u64> = AddressMap::new();
    row.insert(addr(5), 9);
    votes.set_votes(addr(1), row);
    assert_eq!(weight(&votes, 1, 5), Some(9));
    assert_eq!(weight(&votes, 1, 2), None);
}

#[test]
fn delegates_to_policies_keeps_votes_of_delegates_for_policies() {
    let mut votes = sample();
    votes.add_delegate(addr(6));
    votes.delegates_to_policies();
    assert_eq!(votes.source_target_map.keys.items, vec![addr(1), addr(6)]);
    assert_eq!(weight(&votes, 1, 4), Some(600_000));
    assert_eq!(weight(&votes, 1, 2), None);
    assert_eq!(votes.source_target_map.get(&addr(6)).unwrap().len(), 0);
    assert_eq!(votes.delegates.len(), 2);
    assert_eq!(votes.intermediaries.len(), 2);
    assert_eq!(votes.policies.len(), 2);
}

#[test]
fn delegates_to_intermediaries_keeps_votes_for_intermediaries() {
    let mut votes = sample();
    votes.delegates_to_intermediaries();
    assert_eq!(votes.source_target_map.keys.items, vec![addr(1)]);
    assert_eq!(weight(&votes, 1, 2), Some(400_000));
    assert_eq!(weight(&votes, 1, 4), None);
}

#[test]
fn delegates_to_delegates_keeps_votes_for_delegates() {
    let mut votes = sample();
    votes.add_delegate(addr(6));
    votes.add_vote(addr(6), addr(1), 3);
    votes.add_vote(addr(6), addr(4), 4);
    votes.delegates_to_delegates();
    assert_eq!(votes.source_target_map.keys.items, vec![addr(1), addr(6)]);
    assert_eq!(votes.source_target_map.get(&addr(1)).unwrap().len(), 0);
    assert_eq!(weight(&votes, 6, 1), Some(3));
    assert_eq!(weight(&votes, 6, 4), None);
}

#[test]
fn restriction_is_idempotent() {
    let mut once = sample();
    once.delegates_to_policies();
    let mut twice = sample();
    twice.delegates_to_policies();
    twice.delegates_to_policies();
    assert_eq!(once.source_target_map.keys.items, twice.source_target_map.keys.items);
    for (a, b) in once
        .source_target_map
        .values
        .iter()
        .zip(twice.source_target_map.values.iter())
    {
        assert_eq!(a.keys.items, b.keys.items);
        assert_eq!(a.values, b.values);
    }
}

#[test]
fn restrictions_part_the_votes_of_a_delegate() {
    let mut to_delegates = sample();
    to_delegates.add_vote(addr(1), addr(1), 7);
    let mut to_intermediaries = sample();
    to_intermediaries.add_vote(addr(1), addr(1), 7);
    let mut to_policies = sample();
    to_policies.add_vote(addr(1), addr(1), 7);
    to_delegates.delegates_to_delegates();
    to_intermediaries.delegates_to_intermediaries();
    to_policies.delegates_to_policies();
    let rows = [
        to_delegates.source_target_map.get(&addr(1)).unwrap(),
        to_intermediaries.source_target_map.get(&addr(1)).unwrap(),
        to_policies.source_target_map.get(&addr(1)).unwrap(),
    ];
    assert_eq!(rows[0].keys.items, vec![addr(1)]);
    assert_eq!(rows[1].keys.items, vec![addr(2)]);
    assert_eq!(rows[2].keys.items, vec![addr(4)]);
    assert_eq!(rows[0].values, vec![7]);
    assert_eq!(rows[1].values, vec![400_000]);
    assert_eq!(rows[2].values, vec![600_000]);
}

#[test]
fn normalize_replaces_weights_by_shares() {
    let mut votes = Votes::new();
    votes.add_delegate(addr(1));
    votes.add_vote(addr(1), addr(2), 1);
    votes.add_vote(addr(1), addr(3), 3);
    votes.add_vote(addr(4), addr(2), 5);
    votes.add_vote(addr(4), addr(3), 5);
    votes.add_vote(addr(4), addr(5), 5);
    votes.normalize();
    assert_eq!(weight(&votes, 1, 2), Some(250_000));
    assert_eq!(weight(&votes, 1, 3), Some(750_000));
    // what the first shares lose by rounding goes to the last
    assert_eq!(weight(&votes, 4, 2), Some(333_333));
    assert_eq!(weight(&votes, 4, 3), Some(333_333));
    assert_eq!(weight(&votes, 4, 5), Some(333_334));
    assert_eq!(votes.delegates.len(), 1);
}

#[test]
fn normalize_returns_the_sources_without_shares() {
    let mut votes = Votes::new();
    votes.add_delegate(addr(1));
    votes.add_vote(addr(1), addr(2), 0);
    votes.add_vote(addr(1), addr(3), 0);
    votes.add_vote(addr(4), addr(2), 7);
    votes.add_vote(addr(6), addr(2), 0);
    votes.set_votes(addr(5), AddressMap::new());
    let undefined = votes.normalize();
    assert_eq!(undefined.items, vec![addr(1), addr(6)]);
    // such votes are kept, with the weights that they had
    assert_eq!(weight(&votes, 1, 2), Some(0));
    assert_eq!(weight(&votes, 1, 3), Some(0));
    assert_eq!(weight(&votes, 6, 2), Some(0));
    assert_eq!(weight(&votes, 4, 2), Some(UNIT));
    assert_eq!(votes.source_target_map.get(&addr(5)).unwrap().len(), 0);
    assert_eq!(votes.source_target_map.len(), 4);
    assert_eq!(sample().normalize().len(), 0);
}

#[test]
fn normalize_gives_each_source_exactly_one_whole() {
    let rows: [&[u64]; 6] = [
        &[1, 1, 4],
        &[5, 5, 5],
        &[1, 1, 1, 1, 1, 1, 1],
        &[u64::MAX, 1, u64::MAX - 1],
        &[0, 0, 3],
        &[999_999, 1, 999_999],
    ];
    let mut votes = Votes::new();
    for (s, row) in rows.iter().enumerate() {
        for (t, w) in row.iter().enumerate() {
            votes.add_vote(addr(s as u8), addr(100 + t as u8), *w);
        }
    }
    assert_eq!(votes.normalize().len(), 0);
    for (s, row) in rows.iter().enumerate() {
        let held = votes.source_target_map.get(&addr(s as u8)).unwrap();
        assert_eq!(held.sum_of_values(), UNIT as u128);
        let total: u128 = row.iter().map(|w| *w as u128).sum();
        for (t, w) in row.iter().enumerate() {
            let exact = *w as u128 * UNIT as u128 / total;
            let share = held.values[t] as u128;
            assert!(exact <= share && share <= exact + 1);
        }
    }
    assert_eq!(weight(&votes, 0, 100), Some(166_666));
    assert_eq!(weight(&votes, 0, 101), Some(166_667));
    assert_eq!(weight(&votes, 0, 102), Some(666_667));
    assert_eq!(weight(&votes, 4, 102), Some(UNIT));
}

#[test]
fn normalize_twice_is_normalize_once() {
    let mut votes = Votes::new();
    votes.add_vote(addr(1), addr(2), 1);
    votes.add_vote(addr(1), addr(3), 1);
    votes.add_vote(addr(1), addr(4), 4);
    votes.add_vote(addr(5), addr(2), 7);
    votes.add_vote(addr(5), addr(3), 11);
    votes.add_vote(addr(5), addr(4), 13);
    votes.normalize();
    let once = votes.copy();
    votes.normalize();
    for (a, b) in once
        .source_target_map
        .values
        .iter()
        .zip(votes.source_target_map.values.iter())
    {
        assert_eq!(a.keys.items, b.keys.items);
        assert_eq!(a.values, b.values);
    }
    assert_eq!(weight(&votes, 1, 4), Some(666_667));
}

#[test]
fn normalize_is_idempotent_on_shares() {
    let mut votes = sample();
    votes.normalize();
    assert_eq!(weight(&votes, 1, 2), Some(400_000));
    assert_eq!(weight(&votes, 1, 4), Some(600_000));
    assert_eq!(weight(&votes, 2, 4), Some(UNIT));
    votes.normalize();
    assert_eq!(weight(&votes, 1, 2), Some(400_000));
    assert_eq!(weight(&votes, 1, 4), Some(600_000));
    assert_eq!(weight(&votes, 3, 5), Some(UNIT));
}

#[test]
fn normalize_takes_large_weights() {
    let mut votes = Votes::new();
    votes.add_vote(addr(1), addr(2), u64::MAX);
    votes.add_vote(addr(1), addr(3), u64::MAX);
    votes.normalize();
    assert_eq!(weight(&votes, 1, 2), Some(500_000));
    assert_eq!(weight(&votes, 1, 3), Some(500_000));
}

#[test]
fn white_list_holds_what_the_delegates_reach() {
    let votes = sample();
    assert_eq!(votes.white_list().items, vec![addr(1), addr(2), addr(4)]);
}

#[test]
fn white_list_follows_a_cycle_once() {
    let mut votes = Votes::new();
    votes.add_delegate(addr(1));
    votes.add_vote(addr(1), addr(2), 1);
    votes.add_vote(addr(2), addr(1), 1);
    votes.add_vote(addr(2), addr(2), 1);
    votes.add_vote(addr(2), addr(3), 1);
    votes.add_vote(addr(4), addr(5), 1);
    assert_eq!(votes.white_list().items, vec![addr(1), addr(2), addr(3)]);
}

#[test]
fn strip_addresses_drops_nodes_out_of_reach() {
    let mut votes = sample();
    votes.strip_addresses();
    assert_eq!(votes.delegates.items, vec![addr(1)]);
    assert_eq!(votes.intermediaries.items, vec![addr(2)]);
    assert_eq!(votes.policies.items, vec![addr(4)]);
    // the votes stay, also those of the node that was dropped
    assert_eq!(weight(&votes, 3, 5), Some(UNIT));
    assert_eq!(votes.source_target_map.len(), 3);
}

#[test]
fn create_matrix_puts_each_weight_in_the_row_of_its_target() {
    let votes = sample();
    let m = votes.create_matrix();
    assert_eq!(m.size(), 5);
    assert_eq!(
        m.rows,
        vec![
            vec![0, 0, 0, 0, 0],
            vec![400_000, 0, 0, 0, 0],
            vec![0, 0, 0, 0, 0],
            vec![600_000, UNIT, 0, UNIT, 0],
            vec![0, 0, UNIT, 0, UNIT],
        ]
    );
    assert_eq!(m.get(3, 0), 600_000);
    assert_eq!(votes.node(0), addr(1));
    assert_eq!(votes.node(2), addr(3));
    assert_eq!(votes.node(4), addr(5));
}

#[test]
fn create_matrix_leaves_out_votes_for_addresses_that_are_no_nodes() {
    let mut votes = Votes::new();
    votes.add_delegate(addr(1));
    votes.add_policy(addr(2));
    votes.add_vote(addr(1), addr(2), 1);
    votes.add_vote(addr(1), addr(3), 2);
    assert_eq!(votes.create_matrix().rows, vec![vec![0, 0], vec![1, UNIT]]);
}

#[test]
fn create_matrix_puts_a_node_of_two_sets_at_its_first_index() {
    let mut votes = Votes::new();
    votes.add_delegate(addr(1));
    votes.add_intermediary(addr(1));
    votes.add_policy(addr(2));
    votes.add_vote(addr(1), addr(1), 5);
    assert_eq!(
        votes.create_matrix().rows,
        vec![vec![5, 5, 0], vec![0, 0, 0], vec![0, 0, UNIT]]
    );
}

#[test]
fn matrix_product_is_scaled_by_one_whole() {
    let a = Matrix { rows: vec![vec![UNIT, 500_000], vec![0, 2 * UNIT]] };
    let b = Matrix { rows: vec![vec![3, 4 * UNIT], vec![UNIT, 1]] };
    let p = a.multiply(&b).unwrap();
    assert_eq!(p.rows, vec![vec![500_003, 4 * UNIT], vec![2 * UNIT, 2]]);
    let s = a.plus(&b).unwrap();
    assert_eq!(s.rows, vec![vec![UNIT + 3, 4_500_000], vec![UNIT, 2 * UNIT + 1]]);
    assert_eq!(Matrix::identity(2).rows, vec![vec![UNIT, 0], vec![0, UNIT]]);
    assert_eq!(a.multiply(&Matrix::identity(2)).unwrap().rows, a.rows);
    assert_eq!(s.row_sum(0, 0, 2), Some(5_500_003));
    assert_eq!(s.row_sum(0, 1, 2), Some(4_500_000));
    assert_eq!(s.row_sum(1, 1, 1), Some(0));
}

#[test]
fn matrix_operations_give_up_out_of_range() {
    let big = Matrix { rows: vec![vec![u64::MAX]] };
    assert!(big.plus(&Matrix::identity(1)).is_none());
    assert!(big.multiply(&big).is_none());
    let wide = Matrix { rows: vec![vec![u64::MAX, 1], vec![0, 0]] };
    assert_eq!(wide.row_sum(0, 0, 2), None);
    assert_eq!(wide.row_sum(0, 0, 1), Some(u64::MAX));
}

#[test]
fn power_series_adds_up_the_powers() {
    // one node that keeps half of what it has
    let m = Matrix { rows: vec![vec![500_000]] };
    let (last, sum) = power_series(&m, 100).unwrap();
    assert_eq!(last.rows, vec![vec![0]]);
    // 1 + 1/2 + 1/4 + ..., each power rounded down
    let mut expected = 0u64;
    let mut power = UNIT;
    for _ in 0..=100 {
        expected += power;
        power = power * 500_000 / UNIT;
    }
    assert_eq!(sum.rows, vec![vec![expected]]);
    assert_eq!(expected, 1_999_993);
    assert!(power_series(&Matrix { rows: vec![vec![2 * UNIT]] }, 100).is_none());
}

#[test]
fn copy_gives_the_same_graph() {
    let votes = sample();
    let copy = votes.copy();
    assert_eq!(copy.delegates.items, votes.delegates.items);
    assert_eq!(copy.intermediaries.items, votes.intermediaries.items);
    assert_eq!(copy.policies.items, votes.policies.items);
    assert_eq!(copy.source_target_map.keys.items, votes.source_target_map.keys.items);
    assert_eq!(weight(&copy, 1, 4), Some(600_000));
    assert_eq!(weight(&copy, 3, 5), Some(UNIT));
    assert_eq!(Votes::default().count_address(), 0);
}

#[test]
fn matrix_product_keeps_the_sums_of_the_columns() {
    // the columns of both add up to one whole
    let a = Matrix {
        rows: vec![
            vec![333_333, 1, 0],
            vec![333_333, 999_998, 0],
            vec![333_334, 1, UNIT],
        ],
    };
    let b = Matrix {
        rows: vec![
            vec![142_857, 500_000, 1],
            vec![142_857, 499_999, 1],
            vec![714_286, 1, 999_998],
        ],
    };
    let p = a.multiply(&b).unwrap();
    for c in 0..3 {
        let sum: u64 = p.rows.iter().map(|row| row[c]).sum();
        assert_eq!(sum, UNIT);
    }
    // each entry is its exact value rounded down or up
    for r in 0..3 {
        for c in 0..3 {
            let exact: u128 =
                (0..3).map(|k| a.rows[r][k] as u128 * b.rows[k][c] as u128).sum::<u128>();
            let low = (exact / UNIT as u128) as u64;
            assert!(low <= p.rows[r][c] && p.rows[r][c] <= low + 1);
        }
    }
    // 333333 * 142857 + 142857 = 47619595238 + 142857 millionths of a millionth
    assert_eq!(p.rows[0][0], 47_619);
    let (last, _) = power_series(&b, 100).unwrap();
    for c in 0..3 {
        let sum: u64 = last.rows.iter().map(|row| row[c]).sum();
        assert_eq!(sum, UNIT);
    }
}
