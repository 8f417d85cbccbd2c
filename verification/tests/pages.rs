use puzzles::pages::{
    is_sorted, is_total, read_rule, read_rules, read_update, repair, settle, sum_middles, OrderingRules, Page,
};
use std::cmp::Ordering;
use std::collections::HashMap;

const RULES: &str = "47|53\n97|13\n97|61\n97|47\n75|29\n61|13\n75|53\n29|13\n97|29\n53|29\n61|53\n97|53\n61|29\n47|13\n75|47\n97|75\n47|61\n75|61\n47|29\n75|13\n53|13";

fn rules() -> OrderingRules {
    let mut map: HashMap<i32, Vec<i32>> = HashMap::new();
    for line in RULES.lines() {
        let (a, b) = line.split_once('|').unwrap();
        map.entry(a.parse().unwrap()).or_default().push(b.parse().unwrap());
    }
    OrderingRules(map)
}

#[test]
fn three_updates_are_in_order() {
    let rules = rules();
    let updates = [
        vec![75, 47, 61, 53, 29],
        vec![97, 61, 53, 29, 13],
        vec![75, 29, 13],
        vec![75, 97, 47, 61, 53],
        vec![61, 13, 29],
        vec![97, 13, 75, 29, 47],
    ];
    let sorted: Vec<bool> = updates.iter().map(|u| is_sorted(&rules, u)).collect();
    assert_eq!(sorted, vec![true, true, true, false, false, false]);
    let sum: i32 = updates.iter().filter(|u| is_sorted(&rules, u)).map(|u| u[u.len() / 2]).sum();
    assert_eq!(sum, 143);
}

#[test]
fn pages_compare_by_the_rules() {
    let rules = rules();
    let page = |value| Page { ctx: &rules, value };
    assert_eq!(page(47).partial_cmp(&page(53)), Some(Ordering::Less));
    assert_eq!(page(53).partial_cmp(&page(47)), Some(Ordering::Greater));
    assert_eq!(page(13).partial_cmp(&page(47)), Some(Ordering::Greater));
    assert_eq!(page(47).partial_cmp(&page(13)), Some(Ordering::Less));
    assert_eq!(page(47).partial_cmp(&page(1)), Some(Ordering::Less));
    assert_eq!(page(47).partial_cmp(&page(47)), None);
    assert!(page(47).eq(&page(47)));
    assert!(!page(47).eq(&page(53)));
    assert!(is_sorted(&rules, &vec![]));
    assert!(is_sorted(&rules, &vec![5]));
}

fn letters(text: &str) -> Vec<Vec<char>> {
    text.lines().map(|line| line.chars().collect()).collect()
}

#[test]
fn reading_the_rules() {
    let rules = read_rules(&letters(RULES)).unwrap();
    assert_eq!(rules.0, self::rules().0);
    assert_eq!(rules.0[&47], vec![53, 13, 61, 29]);
    assert_eq!(rules.0.len(), 6);
    assert!(read_rules(&letters("1|2\n3")).is_none());
    assert!(read_rules(&letters("1|2\nx|3")).is_none());
    assert!(read_rules(&letters("1|2\n3|4294967296")).is_none());
    assert_eq!(read_rules(&Vec::new()).unwrap().0.len(), 0);
    assert_eq!(read_rule(&"47|53".chars().collect()), Some((47, 53)));
    assert_eq!(read_rule(&"-4|+5|6".chars().collect()), Some((-4, 5)));
    assert_eq!(read_rule(&"47,53".chars().collect()), None);
}

#[test]
fn reading_an_update() {
    assert_eq!(read_update(&"75,47,61,53,29".chars().collect()), Some(vec![75, 47, 61, 53, 29]));
    assert_eq!(read_update(&"7".chars().collect()), Some(vec![7]));
    assert_eq!(read_update(&"7,,8".chars().collect()), None);
    assert_eq!(read_update(&"".chars().collect()), None);
    assert_eq!(read_update(&"7,x".chars().collect()), None);
}

#[test]
fn repairing_the_three_updates() {
    let rules = rules();
    assert_eq!(repair(&rules, &vec![75, 97, 47, 61, 53]), Some(vec![97, 75, 47, 61, 53]));
    assert_eq!(repair(&rules, &vec![61, 13, 29]), Some(vec![61, 29, 13]));
    assert_eq!(repair(&rules, &vec![97, 13, 75, 29, 47]), Some(vec![97, 75, 47, 29, 13]));
    assert_eq!(repair(&rules, &vec![75, 47, 61, 53, 29]), Some(vec![75, 47, 61, 53, 29]));
    assert_eq!(repair(&rules, &vec![]), Some(vec![]));
    assert_eq!(repair(&rules, &vec![47, 47]), None);
}

#[test]
fn rules_that_no_sort_can_go_by() {
    let mut map: HashMap<i32, Vec<i32>> = HashMap::new();
    map.insert(1, vec![2]);
    map.insert(2, vec![3]);
    map.insert(3, vec![1]);
    let round = OrderingRules(map);
    assert!(!is_total(&round, &vec![1, 2, 3]));
    assert!(is_total(&round, &vec![1, 2]));
    assert_eq!(repair(&round, &vec![1, 2, 3]), None);
    assert_eq!(repair(&round, &vec![2, 1]), Some(vec![1, 2]));
    let rules = rules();
    assert!(is_total(&rules, &vec![97, 13, 75, 29, 47]));
    assert_eq!(settle(&rules, 47, 53), Ordering::Less);
    assert_eq!(settle(&rules, 53, 47), Ordering::Greater);
    assert_eq!(settle(&rules, 47, 47), Ordering::Equal);
}

#[test]
fn sums_of_the_middle_pages() {
    let rules = rules();
    let updates = vec![
        vec![75, 47, 61, 53, 29],
        vec![97, 61, 53, 29, 13],
        vec![75, 29, 13],
        vec![75, 97, 47, 61, 53],
        vec![61, 13, 29],
        vec![97, 13, 75, 29, 47],
    ];
    assert_eq!(sum_middles(&rules, &updates), Some((143, 123)));
    assert_eq!(sum_middles(&rules, &Vec::new()), Some((0, 0)));
    assert_eq!(sum_middles(&rules, &vec![vec![75, 29, 13], vec![]]), None);
    assert_eq!(sum_middles(&rules, &vec![vec![47, 47]]), None);
}

#[test]
fn a_page_as_text() {
    let rules = rules();
    assert_eq!(Page { ctx: &rules, value: 47 }.to_string(), "Page { 47 }");
    assert_eq!(Page { ctx: &rules, value: 0 }.to_string(), "Page { 0 }");
    assert_eq!(Page { ctx: &rules, value: -13 }.to_string(), "Page { -13 }");
    assert_eq!(Page { ctx: &rules, value: i32::MIN }.to_string(), "Page { -2147483648 }");
}
