use puzzles::towels::{Parser, Patterns};

const DESIGNS: [&str; 8] = ["brwrr", "bggr", "gbbr", "rrbgbr", "ubwu", "bwurrg", "brgr", "bbrgwb"];

fn parser() -> Parser {
    let patterns = "r, wr, b, g, bwu, rb, gb, br".split(", ").map(|p| p.chars().collect()).collect();
    Parser { patterns: Patterns(patterns), cache: Vec::new() }
}

#[test]
fn six_designs_can_be_laid_out() {
    let mut parser = parser();
    let possible = DESIGNS.iter().filter(|d| parser.try_parse(d).is_ok()).count();
    assert_eq!(possible, 6);
}

#[test]
fn sixteen_ways_in_all() {
    let mut parser = parser();
    let ways: Vec<usize> = DESIGNS.iter().map(|d| parser.try_parse(d).unwrap_or(0)).collect();
    assert_eq!(ways, vec![2, 1, 4, 6, 0, 1, 2, 0]);
    assert_eq!(ways.iter().sum::<usize>(), 16);
}

#[test]
fn empty_design_and_empty_patterns() {
    let mut parser = parser();
    assert_eq!(parser.try_parse(""), Ok(1));
    let mut none = Parser { patterns: Patterns(vec![Vec::new()]), cache: Vec::new() };
    assert!(none.try_parse("r").is_err());
    none.warm_up(3);
    assert_eq!(none.cache, vec![None, None, None]);
}

#[test]
fn counting_all_designs_at_once() {
    let mut parser = parser();
    let designs: Vec<String> = DESIGNS.iter().map(|d| d.to_string()).collect();
    assert_eq!(parser.count_layouts(&designs), (6, 16));
}

#[test]
fn a_design_that_cannot_be_laid_out_fails_with_meh() {
    let mut parser = parser();
    assert_eq!(parser.try_parse("rrbgbr"), Ok(6));
    assert_eq!(parser.try_parse("gbbr"), Ok(4));
    assert_eq!(parser.try_parse("ubwu"), Err("meh"));
    assert_eq!(parser.try_parse("bbrgwb"), Err("meh"));
}

#[test]
fn the_cache_holds_the_count_of_the_design() {
    let mut parser = parser();
    assert_eq!(parser.try_parse("rrbgbr"), Ok(6));
    assert_eq!(parser.cache.len(), 6);
    assert_eq!(parser.cache[0], Some(6));
    let design: Vec<char> = "rrbgbr".chars().collect();
    let held = parser.cache.clone();
    assert_eq!(parser.count_from(&design, 1), held[1]);
    assert_eq!(parser.cache, held);
    parser.warm_up(6);
    assert_eq!(parser.count_from(&design, 4), Some(2));
    assert_eq!(parser.cache[4], Some(2));
    assert_eq!(parser.cache[0], None);
}
