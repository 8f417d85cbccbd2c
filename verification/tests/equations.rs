use puzzles::equations::{calibration, BinOp, Eqn};

const INPUT: &str = "\
190: 10 19
3267: 81 40 27
83: 17 5
156: 15 6
7290: 6 8 6 15
161011: 16 10 13
192: 17 8 14
21037: 9 7 18 13
292: 11 6 16 20";

fn total(ops: &Vec<BinOp>) -> i64 {
    INPUT
        .lines()
        .map(|l| Eqn::try_from(l).unwrap())
        .filter(|e| e.is_sat(ops))
        .map(|e| e.target)
        .sum()
}

#[test]
fn totals_of_the_sample() {
    assert_eq!(total(&vec![BinOp::Add, BinOp::Mul]), 3749);
    assert_eq!(total(&vec![BinOp::Add, BinOp::Mul, BinOp::Concat]), 11387);
}

#[test]
fn operators() {
    assert_eq!(BinOp::Add.eval(2, 3), 5);
    assert_eq!(BinOp::Mul.eval(2, 3), 6);
    assert_eq!(BinOp::Concat.eval(12, 345), 12345);
    assert_eq!(BinOp::Concat.eval(15, 6), 156);
    assert_eq!(BinOp::Concat.eval(7, 0), 70);
    assert_eq!(BinOp::Concat.eval(-1, 23), -123);
    assert_eq!(BinOp::Concat.eval(0, 9), 9);
    assert_eq!(BinOp::Concat.try_eval(1, -2), None);
    assert_eq!(BinOp::Add.try_eval(i64::MAX, 1), None);
    assert_eq!(BinOp::Mul.try_eval(i64::MAX, 2), None);
    assert_eq!(BinOp::Concat.try_eval(922337203685477580, 8), None);
    assert_eq!(BinOp::Concat.try_eval(922337203685477580, 7), Some(i64::MAX));
    assert_eq!(BinOp::Concat.try_eval(1, i64::MAX), None);
    assert_eq!(BinOp::Concat.try_eval(0, i64::MAX), Some(i64::MAX));
}

#[test]
fn equation_from_a_line() {
    let eqn = Eqn::try_from("3267: 81 40 27").unwrap();
    assert_eq!(eqn.target, 3267);
    assert_eq!(eqn.operands, vec![81, 40, 27]);
    assert!(Eqn::try_from("3267 81").is_err());
    assert!(Eqn::try_from("x: 81").is_err());
    assert!(Eqn::try_from("1: 8 y").is_err());
}

#[test]
fn without_operators_later_operands_start_anew() {
    let eqn = Eqn { target: 5, operands: vec![1, 2, 5] };
    assert!(eqn.is_sat(&vec![]));
    let eqn = Eqn { target: 2, operands: vec![1, 2, 5] };
    assert!(!eqn.is_sat(&vec![]));
}

#[test]
fn calibration_sums_the_targets_that_are_met() {
    let eqns: Vec<Eqn> = INPUT.lines().map(|l| Eqn::try_from(l).unwrap()).collect();
    assert_eq!(calibration(&eqns, &vec![BinOp::Add, BinOp::Mul]), 3749);
    assert_eq!(calibration(&eqns, &vec![BinOp::Add, BinOp::Mul, BinOp::Concat]), 11387);
    assert_eq!(calibration(&eqns, &vec![]), 0);
}

#[test]
fn after_values_were_dropped_nothing_starts_anew() {
    let big = i64::MAX;
    let ops = vec![BinOp::Add, BinOp::Mul];
    let eqn = Eqn { target: 5, operands: vec![big, big, 5] };
    assert!(!eqn.is_sat(&ops));
    let eqn = Eqn { target: big, operands: vec![big, 1] };
    assert!(eqn.is_sat(&ops));
    let eqn = Eqn { target: 5, operands: vec![big, big, 0, 5] };
    assert!(!eqn.is_sat(&ops));
    let eqn = Eqn { target: 7, operands: vec![7] };
    assert!(eqn.is_sat(&ops));
}
