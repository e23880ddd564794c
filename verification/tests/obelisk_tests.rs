use uiasub_code_benchmark::obelisk::expand_stone;
use uiasub_code_benchmark::obelisk::expand_stone_brute;
use uiasub_code_benchmark::obelisk::next_stones;
use uiasub_code_benchmark::obelisk::obelisk_count;
use uiasub_code_benchmark::obelisk::ExpansionError;
use uiasub_code_benchmark::reference_obelisk_count;

#[test]
fn expand_zero_rounds_is_one_stone() {
    for &x in [0u128, 1, 7, 10, 1000, 123456789, u128::MAX].iter() {
        assert_eq!(expand_stone(x, 0), Ok(1));
        assert_eq!(expand_stone_brute(x, 0), Ok(1));
    }
}

#[test]
fn expand_seven_one_round_is_four() {
    assert_eq!(expand_stone(7, 1), Ok(4));
    assert_eq!(expand_stone_brute(7, 1), Ok(4));
}

#[test]
fn expand_zero_one_round_is_one() {
    assert_eq!(expand_stone(0, 1), Ok(1));
}

#[test]
fn thousand_splits_into_ten_and_zero() {
    assert_eq!(next_stones(1000), vec![10, 0]);
    assert_eq!(expand_stone(1000, 1), Ok(2));
}

#[test]
fn next_stones_follows_rule_priority() {
    assert_eq!(next_stones(7), vec![3, 2, 3, 2]);
    assert_eq!(next_stones(0), vec![1]);
    assert_eq!(next_stones(12), vec![1, 2]);
    assert_eq!(next_stones(8949), vec![89, 49]);
    assert_eq!(next_stones(3), vec![3 * 2024]);
    assert_eq!(next_stones(981038), vec![981, 38]);
}

#[test]
fn memoized_and_brute_force_agree_for_small_rounds() {
    let stones: [u128; 8] = [2, 72, 8949, 0, 981038, 86311, 7, 1000];
    for t in 0..=6usize {
        for &s in stones.iter() {
            assert_eq!(expand_stone(s, t), expand_stone_brute(s, t), "stone {} rounds {}", s, t);
        }
    }
}

#[test]
fn two_initial_stones_one_round() {
    // 0 becomes {1}: one stone; 1 has an odd digit count, so it becomes
    // {2024}: one stone. Total: two stones.
    let stones = [0u128, 1u128];
    assert_eq!(reference_obelisk_count(&stones, 1), 2);
    assert_eq!(obelisk_count(&stones, 1), Ok(2));
}

#[test]
fn empty_stone_list_counts_zero() {
    let stones: [u128; 0] = [];
    assert_eq!(obelisk_count(&stones, 5), Ok(0));
}

#[test]
fn deep_expansion_matches_across_engines() {
    let stones: [u128; 6] = [2, 72, 8949, 0, 981038, 86311];
    let total: u128 = stones
        .iter()
        .map(|&s| expand_stone_brute(s, 6).unwrap())
        .sum();
    let mut per_stone: u128 = 0;
    for &s in stones.iter() {
        per_stone += expand_stone(s, 6).unwrap();
    }
    assert_eq!(per_stone, total);
    assert_eq!(obelisk_count(&stones, 6), Ok(total));
}

#[test]
fn memoized_engine_handles_many_rounds() {
    // Far beyond what brute force could do: exercises the memo table.
    let stones: [u128; 2] = [0, 1];
    let r = obelisk_count(&stones, 40);
    assert!(r.is_ok());
    assert!(r.unwrap() > 1000);
}

#[test]
fn value_overflow_is_reported() {
    // The largest 128-bit value has an odd digit count, so one round
    // multiplies it by 2024, which cannot be represented.
    assert_eq!(expand_stone(u128::MAX, 1), Err(ExpansionError::CountOverflow));
    let stones = [u128::MAX];
    assert_eq!(obelisk_count(&stones, 1), Err(ExpansionError::CountOverflow));
}
