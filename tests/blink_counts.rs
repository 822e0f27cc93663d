use std::collections::HashMap;

use stones::blink::{blink, digit_count, total, KEY_SHIFT, LIMIT};

fn count(times: u8, stone: i64) -> i64 {
    let mut cache: HashMap<u64, i64> = HashMap::new();
    blink(times, stone, &mut cache).unwrap()
}

#[test]
fn digit_count_at_powers_of_ten() {
    assert_eq!(digit_count(0), 1);
    assert_eq!(digit_count(1), 1);
    assert_eq!(digit_count(9), 1);
    assert_eq!(digit_count(10), 2);
    assert_eq!(digit_count(99), 2);
    assert_eq!(digit_count(100), 3);
    assert_eq!(digit_count(999), 3);
    assert_eq!(digit_count(1000), 4);
    assert_eq!(digit_count(1_000_000_000_000_000_000), 19);
    assert_eq!(digit_count(u64::MAX), 20);
}

#[test]
fn no_blink_counts_one() {
    for v in [0i64, 1, 7, 10, 125, 253000, LIMIT] {
        assert_eq!(count(0, v), 1);
    }
}

#[test]
fn zero_counts_as_one_a_blink_later() {
    for n in 1u8..=30 {
        assert_eq!(count(n, 0), count(n - 1, 1));
    }
}

#[test]
fn even_digits_split_into_halves() {
    assert_eq!(count(1, 1000), 2);
    assert_eq!(count(1, 10), 2);
    assert_eq!(count(1, 253000), 2);
    for n in 1u8..=30 {
        assert_eq!(count(n, 1000), count(n - 1, 10) + count(n - 1, 0));
        assert_eq!(count(n, 253000), count(n - 1, 253) + count(n - 1, 0));
    }
}

#[test]
fn odd_digits_multiply_by_2024() {
    assert_eq!(count(1, 125), 1);
    assert_eq!(count(1, 7), 1);
    for n in 1u8..=30 {
        assert_eq!(count(n, 125), count(n - 1, 253000));
        assert_eq!(count(n, 1), count(n - 1, 2024));
    }
}

#[test]
fn second_call_hits_the_memo() {
    let mut cache: HashMap<u64, i64> = HashMap::new();
    let first = blink(25, 125, &mut cache);
    let filed = cache.len();
    assert!(filed > 0);
    let key = 25u64 * KEY_SHIFT + 125;
    assert_eq!(cache.get(&key).copied(), first);
    let second = blink(25, 125, &mut cache);
    assert_eq!(first, second);
    assert_eq!(cache.len(), filed);
}

#[test]
fn memo_shared_between_stones() {
    let mut cache: HashMap<u64, i64> = HashMap::new();
    let a = blink(25, 125, &mut cache).unwrap();
    let b = blink(25, 17, &mut cache).unwrap();
    assert_eq!(a, count(25, 125));
    assert_eq!(b, count(25, 17));
    assert_eq!(Some(a + b), total(25, &vec![125, 17]));
}

#[test]
fn example_row_small_rounds() {
    let row = vec![125i64, 17];
    assert_eq!(count(1, 125) + count(1, 17), 3);
    assert_eq!(total(1, &row), Some(3));
    assert_eq!(total(2, &row), Some(4));
    assert_eq!(total(3, &row), Some(5));
    assert_eq!(total(4, &row), Some(9));
    assert_eq!(total(5, &row), Some(13));
    assert_eq!(total(6, &row), Some(22));
}

#[test]
fn example_row_twenty_five_rounds() {
    assert_eq!(total(25, &vec![125, 17]), Some(55312));
}

#[test]
fn seventy_five_rounds_stay_small_in_memory() {
    let row = vec![125i64, 17, 0, 1, 2024, 99999];
    let mut cache: HashMap<u64, i64> = HashMap::new();
    let mut sum: i64 = 0;
    for &v in &row {
        sum += blink(75, v, &mut cache).unwrap();
    }
    assert_eq!(total(75, &row), Some(sum));
    assert!(sum > 1_000_000_000_000);
    assert!(cache.len() < 300_000);
}

#[test]
fn empty_row_counts_nothing() {
    assert_eq!(total(0, &vec![]), Some(0));
    assert_eq!(total(75, &vec![]), Some(0));
}

#[test]
fn row_with_no_blink_counts_its_stones() {
    assert_eq!(total(0, &vec![3, 0, 99, 1000]), Some(4));
}

#[test]
fn product_beyond_limit_is_refused() {
    let mut cache: HashMap<u64, i64> = HashMap::new();
    assert_eq!(blink(1, LIMIT, &mut cache), None);
    assert!(cache.is_empty());
    assert_eq!(total(1, &vec![1, LIMIT]), None);
}

#[test]
fn large_numbers_skip_the_memo() {
    let big: i64 = 100_000_000_000_000_000;
    assert!(big as u64 >= KEY_SHIFT);
    let mut cache: HashMap<u64, i64> = HashMap::new();
    assert_eq!(blink(1, big, &mut cache), Some(2));
    assert!(cache.is_empty());
    assert_eq!(blink(2, big, &mut cache), Some(count(1, 100_000_000) + count(1, 0)));
}

#[test]
fn example_row_seventy_five_rounds() {
    assert_eq!(total(75, &vec![125, 17]), Some(65601038650482));
}

#[test]
fn no_blink_leaves_the_memo_alone() {
    let mut cache: HashMap<u64, i64> = HashMap::new();
    blink(3, 125, &mut cache).unwrap();
    let before = cache.clone();
    assert_eq!(blink(0, 0, &mut cache), Some(1));
    assert_eq!(blink(0, 125, &mut cache), Some(1));
    assert_eq!(cache, before);
}

#[test]
fn filed_keys_have_blinks_left_within_the_call() {
    let mut cache: HashMap<u64, i64> = HashMap::new();
    blink(10, 125, &mut cache).unwrap();
    assert!(!cache.is_empty());
    for &k in cache.keys() {
        let left = k / KEY_SHIFT;
        assert!(1 <= left && left <= 10);
    }
    assert!(cache.contains_key(&(10 * KEY_SHIFT + 125)));
    assert!(cache.contains_key(&(9 * KEY_SHIFT + 253000)));
    assert!(cache.contains_key(&(8 * KEY_SHIFT + 253)));
}
