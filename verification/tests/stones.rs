use puzzles::stones::{count_all, split_point, Stone};
use std::collections::HashMap;

fn total(stones: &[u64], k: usize) -> usize {
    let mut cache = HashMap::new();
    stones.iter().map(|s| Stone(*s).blink_k(k, &mut cache).unwrap()).sum()
}

#[test]
fn no_blink_leaves_one_stone() {
    assert_eq!(total(&[0], 0), 1);
    assert_eq!(total(&[125], 0), 1);
}

#[test]
fn one_blink() {
    assert_eq!(total(&[0], 1), 1);
    assert_eq!(total(&[1], 1), 1);
    assert_eq!(total(&[10], 1), 2);
    assert_eq!(total(&[99], 1), 2);
    assert_eq!(total(&[999], 1), 1);
    assert_eq!(total(&[0, 1, 10, 99, 999], 1), 7);
}

#[test]
fn known_totals() {
    assert_eq!(total(&[125, 17], 6), 22);
    assert_eq!(total(&[125, 17], 25), 55312);
}

#[test]
fn count_is_the_sum_over_the_successors() {
    for k in 1..12 {
        assert_eq!(total(&[1000], k), total(&[10], k - 1) + total(&[0], k - 1));
        assert_eq!(total(&[0], k), total(&[1], k - 1));
        assert_eq!(total(&[7], k), total(&[14168], k - 1));
    }
}

#[test]
fn cache_keeps_what_was_counted() {
    let mut cache = HashMap::new();
    let first = Stone(125).blink_k(25, &mut cache).unwrap();
    assert!(!cache.is_empty());
    let again = Stone(125).blink_k(25, &mut cache).unwrap();
    assert_eq!(first, again);
}

#[test]
fn a_stone_too_large_gives_none() {
    let mut cache = HashMap::new();
    assert_eq!(Stone(99_999_999_999_999_999).blink_k(1, &mut cache), None);
}

#[test]
fn digits_and_half_power() {
    assert_eq!(split_point(0), (1, 1));
    assert_eq!(split_point(9), (1, 1));
    assert_eq!(split_point(10), (2, 10));
    assert_eq!(split_point(253000), (6, 1000));
    assert_eq!(split_point(u64::MAX), (20, 10_000_000_000));
}

#[test]
fn counting_all_stones() {
    let stones = vec![Stone(125), Stone(17)];
    let mut cache = HashMap::new();
    assert_eq!(count_all(&stones, 0, &mut cache), Some(2));
    assert_eq!(count_all(&stones, 6, &mut cache), Some(22));
    assert_eq!(count_all(&stones, 25, &mut cache), Some(55312));
    assert_eq!(count_all(&Vec::new(), 25, &mut cache), Some(0));
    assert_eq!(count_all(&vec![Stone(u64::MAX)], 1, &mut cache), Some(2));
    assert_eq!(count_all(&vec![Stone(1), Stone(99_999_999_999_999_999)], 1, &mut cache), None);
}

#[test]
fn the_cache_holds_the_count_of_the_call() {
    let mut cache: HashMap<u128, usize> = HashMap::new();
    assert_eq!(Stone(17).blink_k(0, &mut cache), Some(1));
    assert!(cache.is_empty());
    assert_eq!(Stone(17).blink_k(1, &mut cache), Some(2));
    assert_eq!(cache.get(&puzzles::stones::cache_key(17, 1)), Some(&2));
    let before = cache.clone();
    assert_eq!(Stone(125).blink_k(6, &mut cache), Some(7));
    assert_eq!(cache.get(&puzzles::stones::cache_key(125, 6)), Some(&7));
    for (key, value) in before.iter() {
        assert_eq!(cache.get(key), Some(value));
    }
    let held = cache.clone();
    assert_eq!(Stone(125).blink_k(0, &mut cache), Some(1));
    assert_eq!(cache, held);
}
