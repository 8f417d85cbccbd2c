use puzzles::guard::{count_blockers, is_blocker, read_map, Cell, CellKind, Dir, Guard, StepResult};

const MAP: &str = "\
....#.....
.........#
..........
..#.......
.......#..
..........
.#..^.....
........#.
#.........
......#...";

fn parse() -> (Vec<Vec<Cell>>, (usize, usize)) {
    let mut at = (0, 0);
    let map = MAP
        .lines()
        .enumerate()
        .map(|(i, row)| {
            row.chars()
                .enumerate()
                .map(|(j, c)| {
                    if c == '^' {
                        at = (i, j);
                    }
                    Cell { kind: if c == '#' { CellKind::Occupied } else { CellKind::Empty } }
                })
                .collect()
        })
        .collect();
    (map, at)
}

fn visited_positions(guard: &Guard, width: usize) -> Vec<(usize, usize)> {
    let mut seen = Vec::new();
    for (i, flag) in guard.visited.iter().enumerate() {
        let p = (i / 4 / width, i / 4 % width);
        if *flag && !seen.contains(&p) {
            seen.push(p);
        }
    }
    seen
}

#[test]
fn patrol_leaves_the_map_after_41_positions() {
    let (map, at) = parse();
    let mut guard = Guard::new(at, &map);
    assert_eq!(guard.patrol(), StepResult::OutOfMap);
    assert_eq!(visited_positions(&guard, 10).len(), 41);
    assert_eq!(guard.at, (9, 7));
    assert_eq!(guard.dir, Dir::Down);
}

#[test]
fn six_obstacles_make_the_guard_loop() {
    let (mut map, at) = parse();
    let mut guard = Guard::new(at, &map);
    guard.patrol();
    let path = visited_positions(&guard, 10);
    let mut blockers = 0;
    for (i, j) in path {
        map[i][j].kind = CellKind::Occupied;
        let mut guard = Guard::new(at, &map);
        if guard.patrol() == StepResult::Loop {
            blockers += 1;
        }
        map[i][j].kind = CellKind::Empty;
    }
    assert_eq!(blockers, 6);
}

#[test]
fn steps_one_by_one() {
    let (map, at) = parse();
    let mut guard = Guard::new(at, &map);
    assert_eq!(guard.dir, Dir::Up);
    for _ in 0..5 {
        assert_eq!(guard.step(), StepResult::Skip);
    }
    assert_eq!(guard.at, (1, 4));
    assert_eq!(guard.step(), StepResult::Skip);
    assert_eq!(guard.at, (1, 4));
    assert_eq!(guard.dir, Dir::Right);
    guard.turn_right();
    assert_eq!(guard.dir, Dir::Down);
    guard.dir = Dir::Up;
    guard.at = (6, 4);
    assert_eq!(guard.step(), StepResult::Loop);
}

#[test]
fn directions() {
    assert_eq!(Dir::Up.delta(), (-1, 0));
    assert_eq!(Dir::Right.delta(), (0, 1));
    assert_eq!(Dir::Down.delta(), (1, 0));
    assert_eq!(Dir::Left.delta(), (0, -1));
    assert_eq!(Dir::Up.next_dir(), Dir::Right);
    assert_eq!(Dir::Right.next_dir(), Dir::Down);
    assert_eq!(Dir::Down.next_dir(), Dir::Left);
    assert_eq!(Dir::Left.next_dir(), Dir::Up);
}

#[test]
fn counting_the_cells_stood_on() {
    let (map, at) = parse();
    let mut guard = Guard::new(at, &map);
    assert_eq!(guard.count_positions(), 0);
    guard.patrol();
    assert_eq!(guard.count_positions(), 41);
}

#[test]
fn counting_the_obstacles_that_trap_the_guard() {
    let (mut map, at) = parse();
    let before: Vec<Vec<bool>> =
        map.iter().map(|row| row.iter().map(|c| c.kind == CellKind::Occupied).collect()).collect();
    assert_eq!(count_blockers(at, &mut map), 6);
    let after: Vec<Vec<bool>> =
        map.iter().map(|row| row.iter().map(|c| c.kind == CellKind::Occupied).collect()).collect();
    assert_eq!(before, after);
}

#[test]
fn one_obstacle_at_a_time() {
    let (mut map, at) = parse();
    assert!(is_blocker(at, &mut map, 6, 3));
    assert!(is_blocker(at, &mut map, 9, 7));
    assert!(!is_blocker(at, &mut map, 0, 0));
    assert!(!is_blocker(at, &mut map, 5, 4));
    assert_eq!(map[6][3].kind, CellKind::Empty);
    assert_eq!(map[0][4].kind, CellKind::Occupied);
}

#[test]
fn reading_the_map() {
    let (map, at) = read_map(MAP);
    let (expected, start) = parse();
    assert_eq!(at, start);
    assert_eq!(at, (6, 4));
    assert_eq!(map.len(), 10);
    for (row, want) in map.iter().zip(expected.iter()) {
        let kinds: Vec<CellKind> = row.iter().map(|c| c.kind).collect();
        let wanted: Vec<CellKind> = want.iter().map(|c| c.kind).collect();
        assert_eq!(kinds, wanted);
    }
    let (empty, origin) = read_map("..#\n...");
    assert_eq!(origin, (0, 0));
    assert_eq!(empty[0][2].kind, CellKind::Occupied);
    assert_eq!(empty[1].len(), 3);
}
