use puzzles::robots::{quadrant_counts, safety_factor, Robot};

#[test]
fn test_update_n() {
    let mut robot: Robot<11, 7> = Robot { p: (2, 4), v: (2, -3) };

    let mut robot2 = robot.clone();

    for _ in 0..7 {
        robot.update();
    }

    robot2.update_n(7);
}

#[test]
fn seven_updates_equal_one_update_of_seven() {
    let mut robot: Robot<11, 7> = Robot { p: (2, 4), v: (2, -3) };
    let mut robot2 = robot.clone();
    for _ in 0..7 {
        robot.update();
    }
    robot2.update_n(7);
    assert_eq!(robot, robot2);
    assert_eq!(robot2.p, (5, 4));
}

#[test]
fn update_wraps_around_both_edges() {
    let mut robot: Robot<11, 7> = Robot { p: (10, 0), v: (2, -3) };
    robot.update();
    assert_eq!(robot.p, (1, 4));
    assert_eq!(robot.v, (2, -3));
}

#[test]
fn quadrants() {
    let at = |p: (i64, i64)| Robot::<11, 7> { p, v: (0, 0) }.quadrant();
    assert_eq!(at((0, 0)), Some(1));
    assert_eq!(at((6, 2)), Some(2));
    assert_eq!(at((4, 4)), Some(3));
    assert_eq!(at((10, 6)), Some(4));
    assert_eq!(at((5, 0)), None);
    assert_eq!(at((0, 3)), None);
}

#[test]
fn robot_from_a_line() {
    let robot = Robot::<11, 7>::try_from("p=0,4 v=3,-3").unwrap();
    assert_eq!(robot.p, (0, 4));
    assert_eq!(robot.v, (3, -3));
    assert!(Robot::<11, 7>::try_from("p=0,4").is_err());
    assert!(Robot::<11, 7>::try_from("p=0 v=3,-3").is_err());
    assert!(Robot::<11, 7>::try_from("p=a,4 v=3,-3").is_err());
}

#[test]
fn twelve_robots_after_a_hundred_seconds() {
    let lines = [
        "p=0,4 v=3,-3", "p=6,3 v=-1,-3", "p=10,3 v=-1,2", "p=2,0 v=2,-1", "p=0,0 v=1,3", "p=3,0 v=-2,-2",
        "p=7,6 v=-1,-3", "p=3,0 v=-1,-2", "p=9,3 v=2,3", "p=7,3 v=-1,2", "p=2,4 v=2,-3", "p=9,5 v=-3,-3",
    ];
    let robots: Vec<Robot<11, 7>> = lines.iter().map(|l| Robot::try_from(l).unwrap()).collect();
    let counts = quadrant_counts(&robots, 100);
    assert_eq!(counts, [1, 3, 4, 1]);
    assert_eq!(counts.iter().product::<usize>(), 12);
    assert_eq!(safety_factor(&counts), Some(12));
}

#[test]
fn empty_quadrants_do_not_count() {
    assert_eq!(safety_factor(&[0, 0, 0, 0]), Some(1));
    assert_eq!(safety_factor(&[0, 5, 0, 7]), Some(35));
    assert_eq!(safety_factor(&[2, 3, 4, 5]), Some(120));
    assert_eq!(safety_factor(&[usize::MAX, 1, 0, 1]), Some(usize::MAX));
    assert_eq!(safety_factor(&[usize::MAX, 2, 0, 1]), None);
    assert_eq!(safety_factor(&[1 << 40, 1 << 40, 1, 1]), None);
}
