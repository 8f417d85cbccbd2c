use puzzles::maze::{find_pos_on_shortest_path, Dir, Maze, Node};

const SMALL: &str = "\
###############
#.......#....E#
#.#.###.#.###.#
#.....#.#...#.#
#.###.#####.#.#
#.#.#.......#.#
#.#.#####.###.#
#...........#.#
###.#.#####.#.#
#...#.....#.#.#
#.#.#.###.#.#.#
#.....#...#.#.#
#.###.#.#.#.#.#
#S..#.....#...#
###############";

const LARGER: &str = "\
#################
#...#...#...#..E#
#.#.#.#.#.#.#.#.#
#.#.#.#...#...#.#
#.#.#.#.###.#.#.#
#...#.#.#.....#.#
#.#.#.#.#.#####.#
#.#...#.#.#.....#
#.#.#####.#.###.#
#.#.#.......#...#
#.#.###.#####.###
#.#.#...#.....#.#
#.#.#.#####.###.#
#.#.#.........#.#
#.#.#.#########.#
#S#.............#
#################";

fn solve(map: &str) -> (usize, usize) {
    let maze = Maze::try_from(map).unwrap();
    let (dist, prev) = maze.dijkstra();
    let best = maze.lowest_exit_cost(&dist).unwrap();
    let tiles = find_pos_on_shortest_path(&maze, best, &dist, &prev);
    (best, tiles.len())
}

#[test]
fn lowest_score_and_tiles_of_the_small_maze() {
    assert_eq!(solve(SMALL), (7036, 45));
}

#[test]
fn lowest_score_and_tiles_of_the_larger_maze() {
    assert_eq!(solve(LARGER), (11048, 64));
}

#[test]
fn two_turns_and_three_steps_cost_2003() {
    let map = "\
#####
#..E#
#S###
#####";
    let maze = Maze::try_from(map).unwrap();
    assert_eq!(maze.src, Node { p: (2, 1), dir: Dir::East });
    assert_eq!(maze.exit, (1, 3));
    let (dist, prev) = maze.dijkstra();
    let best = maze.lowest_exit_cost(&dist).unwrap();
    assert_eq!(best, 2003);
    let tiles = find_pos_on_shortest_path(&maze, best, &dist, &prev);
    assert_eq!(tiles, vec![(1, 1), (1, 2), (1, 3), (2, 1)]);
}

#[test]
fn every_cheapest_path_is_counted() {
    let map = "\
#####
#..E#
#.#.#
#S..#
#####";
    let maze = Maze::try_from(map).unwrap();
    let (dist, prev) = maze.dijkstra();
    let best = maze.lowest_exit_cost(&dist).unwrap();
    assert_eq!(best, 1004);
    let tiles = find_pos_on_shortest_path(&maze, best, &dist, &prev);
    assert_eq!(tiles, vec![(1, 3), (2, 3), (3, 1), (3, 2), (3, 3)]);
}

#[test]
fn start_costs_nothing_and_turns_cost_a_thousand() {
    let maze = Maze::try_from(SMALL).unwrap();
    let (dist, prev) = maze.dijkstra();
    let start = maze.index(maze.src);
    assert_eq!(dist[start], Some(0));
    assert!(prev[start].is_empty());
    let north = maze.index(Node { p: maze.src.p, dir: Dir::North });
    assert_eq!(dist[north], Some(1000));
    assert_eq!(prev[north], vec![start]);
    let west = maze.index(Node { p: maze.src.p, dir: Dir::West });
    assert_eq!(dist[west], Some(2000));
    assert_eq!(prev[west].len(), 2);
}

#[test]
fn maps_that_are_no_enclosed_rectangle_are_refused() {
    assert!(Maze::try_from("").is_err());
    assert!(Maze::try_from("###\n#S\n###").is_err());
    assert!(Maze::try_from("#.#\n#S#\n###").is_err());
    assert!(Maze::try_from("###\n#SE\n###").is_err());
}

#[test]
fn directions_turn_both_ways() {
    assert_eq!(Dir::North.rotate_right(), Dir::East);
    assert_eq!(Dir::East.rotate_right(), Dir::South);
    assert_eq!(Dir::South.rotate_right(), Dir::West);
    assert_eq!(Dir::West.rotate_right(), Dir::North);
    for dir in Dir::dirs() {
        assert_eq!(dir.rotate_right().rotate_left(), dir);
        assert_eq!(dir.rotate_left().rotate_right(), dir);
    }
    assert_eq!(Dir::dirs(), vec![Dir::East, Dir::South, Dir::West, Dir::North]);
    assert_eq!(Dir::North.delta(), (-1, 0));
    assert_eq!(Dir::South.delta(), (1, 0));
    assert_eq!(Dir::East.delta(), (0, 1));
    assert_eq!(Dir::West.delta(), (0, -1));
    let node = Node { p: (3, 4), dir: Dir::North };
    assert_eq!(node.rotate_right(), Node { p: (3, 4), dir: Dir::East });
    assert_eq!(node.rotate_left(), Node { p: (3, 4), dir: Dir::West });
}

#[test]
fn solving_in_one_call() {
    assert_eq!(Maze::try_from(SMALL).unwrap().solve(), Some((7036, 45)));
    assert_eq!(Maze::try_from(LARGER).unwrap().solve(), Some((11048, 64)));
    assert_eq!(Maze::try_from("#####\n#S#E#\n#####").unwrap().solve(), None);
}
