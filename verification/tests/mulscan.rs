use puzzles::mulscan::{part1, part1_by_lines, part2};

#[test]
fn products_of_the_sample() {
    assert_eq!(part1("xmul(2,4)%&mul[3,7]!@^do_not_mul(5,5)+mul(32,64]then(mul(11,8)mul(8,5))"), Some(161));
}

#[test]
fn enabled_products_of_the_sample() {
    assert_eq!(
        part2("xmul(2,4)&mul[3,7]!^don't()_mul(5,5)+mul(32,64](mul(11,8)undo()?mul(8,5))"),
        Some(48)
    );
}

#[test]
fn operands_run_up_to_the_next_comma_and_bracket() {
    assert_eq!(part1("mul(2,3)"), Some(6));
    assert_eq!(part1("mul(+2,3)"), Some(6));
    assert_eq!(part1("mul(2 ,3)"), Some(0));
    assert_eq!(part1("mul(2,3"), Some(0));
    assert_eq!(part1("mul(a,1)mul(4,5)"), Some(20));
    assert_eq!(part1("mul(4,x)mul(2,2)"), Some(4));
    assert_eq!(part1(""), Some(0));
    assert_eq!(part1("do()mul(1,1)don't()mul(2,2)"), Some(5));
    assert_eq!(part2("do()mul(1,1)don't()mul(2,2)"), Some(1));
}

#[test]
fn a_sum_too_large_gives_none() {
    assert_eq!(part1("mul(18446744073709551615,2)"), None);
    assert_eq!(part1("mul(18446744073709551615,1)mul(1,1)"), None);
    assert_eq!(part1("mul(18446744073709551615,1)"), Some(usize::MAX));
}

#[test]
fn a_multiplication_does_not_run_over_the_end_of_a_line() {
    assert_eq!(part1("mul(2,\n3)mul(4,5)"), Some(20));
    assert_eq!(part1_by_lines("mul(2,3)\nmul(4,5)"), Some(26));
    assert_eq!(part1_by_lines("mul(2,\n3)mul(4,5)"), Some(20));
    assert_eq!(part1_by_lines("xmul(2,4)%&mul[3,7]!@^do_not_mul(5,5)+mul(32,64]then(mul(11,8)mul(8,5))"), Some(161));
    assert_eq!(part1_by_lines(""), Some(0));
    assert_eq!(part1_by_lines("mul(18446744073709551615,1)\nmul(1,1)"), None);
}
