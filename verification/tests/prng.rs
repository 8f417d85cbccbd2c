use puzzles::prng::{best_bananas, sum_of_secrets, Changes, Prng};

#[test]
fn mix_and_prune_follow_the_examples() {
    let mut prng = Prng::from(42);
    prng.mix(15);
    assert_eq!(prng.secret, 37);
    let mut prng = Prng::from(100000000);
    prng.prune();
    assert_eq!(prng.secret, 16113920);
}

#[test]
fn evolve_gives_the_known_sequence() {
    let mut prng = Prng::from(123);
    let expected = [
        15887950u64, 16495136, 527345, 704524, 1553684, 12683156, 11100544, 12249484, 7753432,
        5908254,
    ];
    for e in expected {
        prng.evolve();
        assert_eq!(prng.secret, e);
        assert!(prng.secret < 16777216);
    }
}

#[test]
fn two_thousandth_secret() {
    let mut prng = Prng::from(1);
    for _ in 0..2000 {
        prng.evolve();
    }
    assert_eq!(prng.secret, 8685429);
}

#[test]
fn changes_keep_the_last_four() {
    let mut prng = Prng::from(123);
    assert_eq!(prng.changes.packed(), None);
    for _ in 0..3 {
        prng.evolve();
    }
    assert_eq!(prng.changes.packed(), None);
    prng.evolve();
    let window: Vec<i8> = prng.changes.inner.iter().copied().collect();
    assert_eq!(window, vec![-3, 6, -1, -1]);
    prng.evolve();
    let window: Vec<i8> = prng.changes.inner.iter().copied().collect();
    assert_eq!(window, vec![6, -1, -1, 0]);
}

#[test]
fn packed_and_from_are_inverse() {
    let mut changes = Changes::new();
    for v in [-2i8, 1, -1, 3] {
        changes.push(v);
    }
    let packed = changes.packed().unwrap();
    assert_eq!(packed, 0xfe01ff03);
    let back = Changes::from(packed);
    let window: Vec<i8> = back.inner.iter().copied().collect();
    assert_eq!(window, vec![-2, 1, -1, 3]);
}

#[test]
fn sum_of_the_two_thousandth_secrets() {
    assert_eq!(sum_of_secrets(&vec![1, 10, 100, 2024], 2000), 37327623);
    assert_eq!(sum_of_secrets(&vec![5, 6], 0), 11);
    let mut prng = Prng::from(10);
    prng.evolve_n(2000);
    assert_eq!(prng.secret, 4700978);
}

#[test]
fn the_best_sale_brings_23_bananas() {
    assert_eq!(best_bananas(&vec![1, 2, 3, 2024], 2000), 23);
    assert_eq!(best_bananas(&vec![123], 10), 6);
    assert_eq!(best_bananas(&vec![123], 3), 0);
    assert_eq!(best_bananas(&vec![], 2000), 0);
}

#[test]
fn evolve_n_records_every_change() {
    let mut one_by_one = Prng::from(123);
    for _ in 0..6 {
        one_by_one.evolve();
    }
    let mut at_once = Prng::from(123);
    at_once.evolve_n(6);
    assert_eq!(at_once.secret, one_by_one.secret);
    let window: Vec<i8> = at_once.changes.inner.iter().copied().collect();
    assert_eq!(window, one_by_one.changes.inner.iter().copied().collect::<Vec<i8>>());
    assert_eq!(window, vec![-1, -1, 0, 2]);
    let mut still = Prng::from(123);
    still.evolve_n(0);
    assert_eq!(still.secret, 123);
    assert!(still.changes.inner.is_empty());
    let mut short = Prng::from(123);
    short.evolve_n(2);
    assert_eq!(short.changes.inner.iter().copied().collect::<Vec<i8>>(), vec![-3, 6]);
}
