use puzzles::wordsearch::{count_crosses, count_words, peek_next, search, search2};

const PUZZLE: &str = "\
MMMSXXMASM
MSAMXMSMSA
AMXSXMAAMM
MSAMASMSMX
XMASAMXAMM
XXAMMXXAMA
SMSMSASXSS
SAXAMASAAA
MAMMMXMMMM
MXMXAXMASX";

const DIRS: [(i32, i32); 8] = [(1, 0), (-1, 0), (0, 1), (0, -1), (1, 1), (1, -1), (-1, 1), (-1, -1)];

fn puzzle() -> Vec<Vec<char>> {
    PUZZLE.lines().map(|l| l.chars().collect()).collect()
}

#[test]
fn xmas_is_found_eighteen_times() {
    let p = puzzle();
    let mut found = 0;
    for i in 0..p.len() {
        for j in 0..p[0].len() {
            found += DIRS.iter().filter(|d| search(&p, (i, j), d)).count();
        }
    }
    assert_eq!(found, 18);
}

#[test]
fn nine_crosses() {
    let p = puzzle();
    let mut found = 0;
    for i in 1..p.len() - 1 {
        for j in 1..p[0].len() - 1 {
            if search2(&p, (i, j)) {
                found += 1;
            }
        }
    }
    assert_eq!(found, 9);
}

#[test]
fn peeking_over_the_edge_gives_nothing() {
    let p = puzzle();
    assert_eq!(peek_next(&p, (0, 0), &(-1, 0)), None);
    assert_eq!(peek_next(&p, (0, 0), &(0, -1)), None);
    assert_eq!(peek_next(&p, (9, 9), &(1, 1)), None);
    assert_eq!(peek_next(&p, (0, 0), &(1, 1)), Some(('S', (1, 1))));
    assert_eq!(peek_next(&p, (0, 4), &(0, 1)), Some(('X', (0, 5))));
    assert_eq!(peek_next(&Vec::new(), (0, 0), &(0, 0)), None);
}

#[test]
fn single_searches() {
    let p = puzzle();
    assert!(search(&p, (0, 5), &(0, 1)));
    assert!(!search(&p, (0, 5), &(0, -1)));
    assert!(!search(&p, (0, 0), &(0, 1)));
    assert!(search2(&p, (1, 2)));
    assert!(!search2(&p, (1, 1)));
}

#[test]
fn counts_over_the_whole_puzzle() {
    let p = puzzle();
    assert_eq!(count_words(&p), 18);
    assert_eq!(count_crosses(&p), 9);
    assert_eq!(count_words(&Vec::new()), 0);
    assert_eq!(count_crosses(&vec![vec!['A', 'A'], vec!['A', 'A']]), 0);
    let line: Vec<Vec<char>> = vec!["XMASAMX".chars().collect()];
    assert_eq!(count_words(&line), 2);
}
