use puzzles::ram::{after as ram_after, closing_point, parse_byte, Byte, Ram};

const FALLING: [(usize, usize); 25] = [
    (5, 4), (4, 2), (4, 5), (3, 0), (2, 1), (6, 3), (2, 4), (1, 5), (0, 6), (3, 3), (2, 6), (5, 1),
    (1, 2), (5, 5), (2, 5), (6, 5), (1, 4), (0, 4), (6, 4), (1, 1), (6, 1), (1, 0), (0, 5), (1, 6),
    (2, 0),
];

fn after(count: usize) -> Ram<7> {
    let mut ram: Ram<7> = Ram::new();
    for &(x, y) in FALLING.iter().take(count) {
        ram.corrupt(y, x);
    }
    ram
}

#[test]
fn new_memory_is_safe() {
    let ram: Ram<7> = Ram::new();
    assert_eq!(ram.capacity(), 7);
    assert!(ram.0.iter().all(|row| row.len() == 7 && row.iter().all(|b| *b == Byte::Safe)));
    let dist = ram.bfs();
    assert_eq!(dist[6][6], Some(12));
    assert_eq!(dist[0][0], Some(0));
}

#[test]
fn twelve_bytes_leave_a_way_of_22_steps() {
    let ram = after(12);
    assert_eq!(
        ram.to_string(),
        "...#...\n..#..#.\n....#..\n...#..#\n..#..#.\n.#..#..\n#.#....\n"
    );
    let dist = ram.bfs();
    assert_eq!(dist[6][6], Some(22));
    assert_eq!(dist[0][3], None);
}

#[test]
fn the_twenty_first_byte_cuts_the_way() {
    assert!(after(20).bfs()[6][6].is_some());
    assert!(after(21).bfs()[6][6].is_none());
}

#[test]
fn corrupt_changes_one_byte() {
    let mut ram: Ram<3> = Ram::new();
    ram.corrupt(1, 2);
    assert_eq!(ram.to_string(), "...\n..#\n...\n");
}

#[test]
fn the_way_closes_with_the_twenty_first_byte() {
    let bytes: Vec<(usize, usize)> = FALLING.iter().map(|&(x, y)| (y, x)).collect();
    let p = closing_point::<7>(&bytes);
    assert_eq!(p, 21);
    assert_eq!(bytes[p - 1], (1, 6));
    assert_eq!(ram_after::<7>(&bytes, 12).exit_distance(), Some(22));
    assert_eq!(ram_after::<7>(&bytes, 21).exit_distance(), None);
    assert_eq!(closing_point::<7>(&vec![]), 0);
    assert_eq!(closing_point::<7>(&vec![(3, 3)]), 1);
}

#[test]
fn bytes_from_lines() {
    assert_eq!(parse_byte("5,4"), Some((4, 5)));
    assert_eq!(parse_byte("5"), None);
    assert_eq!(parse_byte("5,x"), None);
    assert_eq!(parse_byte("-5,4"), None);
}
