use puzzles::claw::{total_cost, Buttons, Eqn};

const OFFSET: i64 = 10000000000000;

#[test]
fn first_machine_costs_280() {
    let eqn: Eqn<3, 1> =
        Eqn::try_from("Button A: X+94, Y+34\nButton B: X+22, Y+67\nPrize: X=8400, Y=5400", 0).unwrap();
    assert_eq!(eqn.buttons.a, (94, 34));
    assert_eq!(eqn.buttons.b, (22, 67));
    assert_eq!(eqn.prize, (8400, 5400));
    assert!(eqn.solvable());
    assert_eq!(eqn.solve(), Some(280));
}

#[test]
fn second_machine_has_no_whole_solution() {
    let buttons: Buttons<3, 1> = Buttons { a: (26, 66), b: (67, 21) };
    assert_eq!(buttons.solve((12748, 12176)), None);
}

#[test]
fn third_machine_costs_200() {
    let buttons: Buttons<3, 1> = Buttons { a: (17, 86), b: (84, 37) };
    assert_eq!(buttons.solve((7870, 6450)), Some(200));
}

#[test]
fn negative_presses_are_refused() {
    let buttons: Buttons<3, 1> = Buttons { a: (1, 0), b: (0, 1) };
    assert_eq!(buttons.solve((-1, 2)), None);
    assert_eq!(buttons.solve((4, 2)), Some(14));
    let turned: Buttons<3, 1> = Buttons { a: (0, 1), b: (1, 0) };
    assert_eq!(turned.solve((4, 2)), Some(10));
}

#[test]
fn far_prizes() {
    let far: Eqn<3, 1> = Eqn::try_from(
        "Button A: X+26, Y+66\nButton B: X+67, Y+21\nPrize: X=12748, Y=12176",
        OFFSET,
    )
    .unwrap();
    assert_eq!(far.prize, (10000000012748, 10000000012176));
    assert_eq!(far.solve(), Some(459236326669));
    let none: Eqn<3, 1> =
        Eqn::try_from("Button A: X+94, Y+34\nButton B: X+22, Y+67\nPrize: X=8400, Y=5400", OFFSET)
            .unwrap();
    assert_eq!(none.solve(), None);
}

#[test]
fn dependent_moves_cannot_be_solved() {
    let eqn: Eqn<3, 1> = Eqn { buttons: Buttons { a: (1, 2), b: (2, 4) }, prize: (3, 6) };
    assert!(!eqn.solvable());
}

#[test]
fn lines_that_cannot_be_read() {
    assert!(Eqn::<3, 1>::try_from("Button A: X+94", 0).is_err());
    assert!(Eqn::<3, 1>::try_from("Button A: X+94, Y+3a", 0).is_err());
    assert!(Eqn::<3, 1>::try_from("Button A: X+1, Y+1\nButton B: X+1, Y+2\nPrize: X=1", 0).is_err());
    assert!(Eqn::<3, 1>::try_from(
        "Button A: X+1, Y+1\nButton B: X+1, Y+2\nPrize: X=9223372036854775807, Y=1",
        1
    )
    .is_err());
    let empty = Eqn::<3, 1>::try_from("", 5).unwrap();
    assert_eq!(empty.prize, (0, 0));
}

#[test]
fn all_prizes_together() {
    let machines: Vec<Eqn<3, 1>> = vec![
        Eqn { buttons: Buttons { a: (94, 34), b: (22, 67) }, prize: (8400, 5400) },
        Eqn { buttons: Buttons { a: (26, 66), b: (67, 21) }, prize: (12748, 12176) },
        Eqn { buttons: Buttons { a: (17, 86), b: (84, 37) }, prize: (7870, 6450) },
        Eqn { buttons: Buttons { a: (69, 23), b: (27, 71) }, prize: (18641, 10279) },
        Eqn { buttons: Buttons { a: (1, 2), b: (2, 4) }, prize: (3, 6) },
    ];
    assert_eq!(total_cost(&machines), 480);
}
