use puzzles::warehouse::{read_commands, Command, Tile, Warehouse};

#[test]
fn test_fmt() {
    assert_eq!(Tile::Box.to_string(), "O");
}

#[test]
fn test_parse_warehouse() {
    const WAREHOUSE: &str = "\
########
#..O.O.#
##@.O..#
#...O..#
#.#.O..#
#...O..#
#......#
########";

    let warehouse: Result<Warehouse, _> = Warehouse::try_from(WAREHOUSE);

    assert!(matches!(warehouse, Ok(_)));

    let warehouse = warehouse.unwrap();

    assert_eq!(warehouse.robot, (2, 2));

    assert_eq!(
        warehouse.to_string(),
        String::from("\
########
#..O.O.#
##@.O..#
#...O..#
#.#.O..#
#...O..#
#......#
########
")
    );
}

#[test]
fn test_step() {
    const WAREHOUSE: &str = "\
########
#.@O.O.#
##..O..#
#...O..#
#.#.O..#
#...O..#
#......#
########";

    let mut warehouse: Warehouse = Warehouse::try_from(WAREHOUSE).unwrap();

    warehouse.step(Command::Right);

    assert_eq!(
        warehouse.to_string(),
        String::from("\
########
#..@OO.#
##..O..#
#...O..#
#.#.O..#
#...O..#
#......#
########
")
    );
}

#[test]
fn test_expand_and_move() {
    const WAREHOUSE: &str = "\
##########
#..O..O.O#
#......O.#
#.OO@.O.O#
#..O...O.#
#O#..O...#
#O..O..O.#
#.OO.O.OO#
#....O...#
##########";

    let mut warehouse: Warehouse = Warehouse::try_from(WAREHOUSE).unwrap();

    warehouse.expand();

    assert_eq!(
        warehouse.to_string(),
        String::from("\
####################
##....[]....[]..[]##
##............[]..##
##..[][]@...[]..[]##
##....[]......[]..##
##[]##....[]......##
##[]....[]....[]..##
##..[][]..[]..[][]##
##........[]......##
####################
")
    );

    warehouse.step(Command::Left);
    warehouse.step(Command::Left);
    warehouse.step(Command::Left);
    warehouse.step(Command::Right);
    warehouse.step(Command::Right);
    warehouse.step(Command::Right);
    warehouse.step(Command::Right);
    warehouse.step(Command::Right);
    warehouse.step(Command::Right);
    warehouse.step(Command::Right);

    println!("{}", warehouse.to_string());

    assert_eq!(
        warehouse.to_string(),
        String::from("\
####################
##....[]....[]..[]##
##............[]..##
##[][].......@[][]##
##....[]......[]..##
##[]##....[]......##
##[]....[]....[]..##
##..[][]..[]..[][]##
##........[]......##
####################
")
    );
}

#[test]
fn test_vertical_push() {
    const WAREHOUSE: &str = "\
############
####[]....##
##[][][][]##
##...[][].##
##....@[].##
############
";

    let mut warehouse: Warehouse = Warehouse::try_from(WAREHOUSE).unwrap();

    warehouse.step(Command::Up);

    assert_eq!(
        warehouse.to_string(),
        String::from("\
############
####[]....##
##[][][][]##
##...[][].##
##....@[].##
############
")
    );
}

fn parsed(map: &str) -> Warehouse {
    let warehouse = Warehouse::try_from(map).unwrap();
    assert!(warehouse.is_well_formed());
    assert!(warehouse.is_uniform());
    warehouse
}

#[test]
fn push_into_wall_changes_nothing() {
    let map = "#####\n#@O##\n#####\n";
    let mut warehouse = parsed(map);
    warehouse.step(Command::Left);
    assert_eq!(warehouse.to_string(), map);
    warehouse.step(Command::Up);
    assert_eq!(warehouse.to_string(), map);
    warehouse.step(Command::Right);
    assert_eq!(warehouse.to_string(), map);
}

#[test]
fn push_shifts_the_whole_chain_by_one() {
    let mut warehouse = parsed("########\n#@OOO.O#\n########\n");
    warehouse.step(Command::Right);
    assert_eq!(warehouse.to_string(), "########\n#.@OOOO#\n########\n");
    warehouse.step(Command::Right);
    assert_eq!(warehouse.to_string(), "########\n#.@OOOO#\n########\n");
}

#[test]
fn push_down_a_column_of_boxes() {
    let mut warehouse = parsed("###\n#@#\n#O#\n#O#\n#.#\n###\n");
    warehouse.step(Command::Down);
    assert_eq!(warehouse.to_string(), "###\n#.#\n#@#\n#O#\n#O#\n###\n");
}

#[test]
fn wide_boxes_move_together_upwards() {
    let mut warehouse = parsed("########\n#......#\n#.[][].#\n#..[]..#\n#..@...#\n########\n");
    assert!(warehouse.can_move_2x1_box((3, 3), &Command::Up));
    warehouse.step(Command::Up);
    assert_eq!(
        warehouse.to_string(),
        "########\n#.[][].#\n#..[]..#\n#..@...#\n#......#\n########\n"
    );
    assert!(!warehouse.can_move_2x1_box((2, 3), &Command::Up));
    warehouse.step(Command::Up);
    assert_eq!(
        warehouse.to_string(),
        "########\n#.[][].#\n#..[]..#\n#..@...#\n#......#\n########\n"
    );
}

#[test]
fn move_2x1_box_sideways() {
    let mut warehouse = parsed("########\n#@[][].#\n########\n");
    warehouse.move_2x1_box((1, 2), &Command::Right);
    assert_eq!(warehouse.to_string(), "########\n#@.[][]#\n########\n");
}

#[test]
fn gps_sum_counts_boxes_and_left_halves() {
    let warehouse = parsed("#######\n#...O..\n#......\n");
    assert_eq!(warehouse.sum_gps_coordinates(), 104);
    let wide = parsed("##########\n##...[]...\n##........\n");
    assert_eq!(wide.sum_gps_coordinates(), 105);
}

#[test]
fn tiles_and_commands_from_characters() {
    assert_eq!(Tile::try_from('.'), Ok(Tile::Empty));
    assert_eq!(Tile::try_from('O'), Ok(Tile::Box));
    assert_eq!(Tile::try_from('['), Ok(Tile::BoxL));
    assert_eq!(Tile::try_from(']'), Ok(Tile::BoxR));
    assert_eq!(Tile::try_from('#'), Ok(Tile::Wall));
    assert!(Tile::try_from('@').is_err());
    assert_eq!(Tile::Wall.to_char(), '#');
    assert_eq!(Command::try_from('^'), Ok(Command::Up));
    assert_eq!(Command::try_from('v'), Ok(Command::Down));
    assert_eq!(Command::try_from('<'), Ok(Command::Left));
    assert_eq!(Command::try_from('>'), Ok(Command::Right));
    assert!(Command::try_from('x').is_err());
    assert_eq!(Command::Up.delta(), (-1, 0));
    assert_eq!(Command::Right.delta(), (0, 1));
}

#[test]
fn robot_is_the_last_unknown_character() {
    let warehouse = Warehouse::try_from("#@.\n.@#\n").unwrap();
    assert_eq!(warehouse.robot, (1, 1));
    let none = Warehouse::try_from("#..\n").unwrap();
    assert_eq!(none.robot, (0, 0));
}

const SMALL_MAP: &str = "########\n#..O.O.#\n##@.O..#\n#...O..#\n#.#.O..#\n#...O..#\n#......#\n########";

const LARGE_MAP: &str = "\
##########
#..O..O.O#
#......O.#
#.OO..O.O#
#..O@..O.#
#O#..O...#
#O..O..O.#
#.OO.O.OO#
#....O...#
##########";

const LARGE_MOVES: &str = "\
<vv>^<v^>v>^vv^v>v<>v^v<v<^vv<<<^><<><>>v<vvv<>^v^>^<<<><<v<<<v^vv^v>^
vvv<<^>^v^^><<>>><>^<<><^vv^^<>vvv<>><^^v>^>vv<>v<<<<v<^v>^<^^>>>^<v<v
><>vv>v^v^<>><>>>><^^>vv>v<^^^>>v^v^<^^>v^^>v^<^v>v<>>v^v^<v>v^^<^^vv<
<<v<^>>^^^^>>>v^<>vvv^><v<<<>^^^vv^<vvv>^>v<^^^^v<>^>vvvv><>>v^<<^^^^^
^><^><>>><>^^<<^^v>>><^<v>^<vv>>v>>>^v><>^v><<<<v>>v<v<v>vvv>^<><<>^><
^>><>^v<><^vvv<^^<><v<<<<<><^v<<<><<<^^<v<^^^><^>>^<v^><<<^>>^v<v^v<v^
>^>>^v>vv>^<<^v<>><<><<v<<v><>v<^vv<<<>^^v^>^^>>><<^v>>v^v><^^>>^<>vv^
<><^^>^^^<><vvvvv^v<v<<>^v<v>v<<^><<><<><<<^^<<<^<<>><<><^^^>^^<>^>v<>
^^>vv<^v^v<vv>^<><v<^v>^^^>>>^^vvv^>vvv<>>>^<^>>>>>^<<^v>^vvv<>^<><<v>
v^^>>><<^^<>>^v^<v^vv<>v^<<>^<^v^v><^<<<><<^<v><v<>vv>>v><v^<vv<>v^<<^";

#[test]
fn small_warehouse_after_all_commands() {
    let mut warehouse = parsed(SMALL_MAP);
    warehouse.run(&read_commands("<^^>>>vv<v>>v<<"));
    assert_eq!(
        warehouse.to_string(),
        "########\n#....OO#\n##.....#\n#.....O#\n#.#O@..#\n#...O..#\n#...O..#\n########\n"
    );
    assert_eq!(warehouse.sum_gps_coordinates(), 2028);
}

#[test]
fn large_warehouse_after_all_commands() {
    let commands = read_commands(LARGE_MOVES);
    assert_eq!(commands.len(), 700);
    let mut warehouse = parsed(LARGE_MAP);
    warehouse.run(&commands);
    assert_eq!(warehouse.sum_gps_coordinates(), 10092);
    let mut wide = parsed(LARGE_MAP);
    wide.expand();
    assert!(wide.is_well_formed() && wide.is_uniform());
    wide.run(&commands);
    assert_eq!(
        wide.to_string(),
        "####################\n##[].......[].[][]##\n##[]...........[].##\n##[]........[][][]##\n##[]......[]....[]##\n##..##......[]....##\n##..[]............##\n##..@......[].[][]##\n##......[][]..[]..##\n####################\n"
    );
    assert_eq!(wide.sum_gps_coordinates(), 9021);
}

#[test]
fn the_size_of_the_floor_bounds_the_sum() {
    let warehouse = parsed("####\n#O@#\n####");
    assert!(warehouse.can_sum_gps());
    assert_eq!(warehouse.sum_gps_coordinates(), 101);
    let empty = Warehouse { robot: (0, 0), tiles: vec![] };
    assert!(empty.can_sum_gps());
    assert_eq!(empty.sum_gps_coordinates(), 0);
    let rows = Warehouse { robot: (0, 0), tiles: vec![vec![], vec![]] };
    assert!(rows.can_sum_gps());
    assert_eq!(rows.sum_gps_coordinates(), 0);
}
