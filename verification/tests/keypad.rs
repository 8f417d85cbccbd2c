use puzzles::keypad::{
    code_number, fewest_presses, len_shortest_cmd_seqs_with_n_indirections,
    len_shortest_cmd_seqs_with_n_indirections_between, read_code, total_complexity, DirectionalKeypad,
    DirectionalKeypadButton, Dirs, NumericKeypad, NumericKeypadButton, DIRECTIONAL_KEYPAD, NUMERIC_KEYPAD,
};
use std::collections::HashMap;

#[test]
fn test_len_shortest_cmd_seqs_with_n_indirections() {
    let output = &[
        NumericKeypadButton::Num(0),
        NumericKeypadButton::Num(2),
        NumericKeypadButton::Num(9),
        NumericKeypadButton::Activate,
    ];

    let first_shotest_cmd_seqs = NUMERIC_KEYPAD.find_shortest_cmd_seqs_to_output(output);

    assert_eq!("<A^A>^^AvvvA".len(), first_shotest_cmd_seqs[0].len(),);

    let cmd_seq = &[
        DirectionalKeypadButton::Left,
        DirectionalKeypadButton::Activate,
        DirectionalKeypadButton::Up,
        DirectionalKeypadButton::Activate,
        DirectionalKeypadButton::Right,
        DirectionalKeypadButton::Up,
        DirectionalKeypadButton::Up,
        DirectionalKeypadButton::Activate,
        DirectionalKeypadButton::Down,
        DirectionalKeypadButton::Down,
        DirectionalKeypadButton::Down,
        DirectionalKeypadButton::Activate,
    ];

    assert_eq!(
        Some("v<<A>>^A<A>AvA<^AA>A<vAAA>^A".len()),
        len_shortest_cmd_seqs_with_n_indirections(cmd_seq, 1),
    );

    assert_eq!(
        Some("<vA<AA>>^AvAA<^A>A<v<A>>^AvA^A<vA>^A<v<A>^A>AAvA^A<v<A>A>^AAAvA<^A>A".len()),
        len_shortest_cmd_seqs_with_n_indirections(cmd_seq, 2),
    );
}

fn code(line: &str) -> Vec<NumericKeypadButton> {
    line.chars().map(|c| NumericKeypadButton::try_from(c).unwrap()).collect()
}

fn complexity(line: &str, keypads: usize) -> usize {
    let number: usize = line[0..line.len() - 1].parse().unwrap();
    let best = NUMERIC_KEYPAD
        .find_shortest_cmd_seqs_to_output(&code(line))
        .iter()
        .map(|seq| len_shortest_cmd_seqs_with_n_indirections(seq, keypads).unwrap())
        .min()
        .unwrap();
    number * best
}

#[test]
fn complexities_of_the_five_codes() {
    let codes = ["029A", "980A", "179A", "456A", "379A"];
    let lengths: Vec<usize> = codes.iter().map(|c| complexity(c, 2) / c[0..3].parse::<usize>().unwrap()).collect();
    assert_eq!(lengths, vec![68, 60, 68, 64, 64]);
    assert_eq!(codes.iter().map(|c| complexity(c, 2)).sum::<usize>(), 126384);
    assert_eq!(codes.iter().map(|c| complexity(c, 25)).sum::<usize>(), 154115708116294);
}

#[test]
fn routes_avoid_the_gap() {
    let from_a_to_1 =
        NUMERIC_KEYPAD.find_shortest_paths_between(&NumericKeypadButton::Activate, &NumericKeypadButton::Num(1));
    assert_eq!(from_a_to_1, vec![vec![(-1, 0), (0, -1), (0, -1)], vec![(0, -1), (-1, 0), (0, -1)]]);
    let from_left_to_a = DIRECTIONAL_KEYPAD
        .find_shortest_cmd_seqs_between(&DirectionalKeypadButton::Left, &DirectionalKeypadButton::Activate);
    assert_eq!(
        from_left_to_a,
        vec![
            vec![
                DirectionalKeypadButton::Right,
                DirectionalKeypadButton::Up,
                DirectionalKeypadButton::Right,
                DirectionalKeypadButton::Activate
            ],
            vec![
                DirectionalKeypadButton::Right,
                DirectionalKeypadButton::Right,
                DirectionalKeypadButton::Up,
                DirectionalKeypadButton::Activate
            ],
        ]
    );
    let same = DIRECTIONAL_KEYPAD
        .find_shortest_cmd_seqs_between(&DirectionalKeypadButton::Up, &DirectionalKeypadButton::Up);
    assert_eq!(same, vec![vec![DirectionalKeypadButton::Activate]]);
}

#[test]
fn buttons_and_places() {
    for n in 0..=9u8 {
        let button = NumericKeypadButton::Num(n);
        let pos = NumericKeypad::get_pos(&button);
        assert_eq!(NUMERIC_KEYPAD.get_button(&pos), Some(button));
    }
    assert_eq!(NumericKeypad::get_pos(&NumericKeypadButton::Num(7)), (0, 0));
    assert_eq!(NumericKeypad::get_pos(&NumericKeypadButton::Num(0)), (3, 1));
    assert_eq!(NumericKeypad::get_pos(&NumericKeypadButton::Activate), (3, 2));
    assert_eq!(NUMERIC_KEYPAD.get_button(&(3, 0)), None);
    assert_eq!(NUMERIC_KEYPAD.get_button(&(4, 1)), None);
    assert_eq!(DIRECTIONAL_KEYPAD.get_button(&(0, 0)), None);
    assert_eq!(DIRECTIONAL_KEYPAD.get_button(&(1, 0)), Some(DirectionalKeypadButton::Left));
    assert_eq!(DirectionalKeypad::get_pos(&DirectionalKeypadButton::Activate), (0, 2));
    assert_eq!(DirectionalKeypad::step_to_cmd(&(1, 0)), DirectionalKeypadButton::Down);
    assert_eq!(DirectionalKeypad::step_to_cmd(&(0, -1)), DirectionalKeypadButton::Left);
    assert_eq!(Dirs::try_from(&(-1, 0)), Ok(Dirs::Up));
    assert!(Dirs::try_from(&(1, 1)).is_err());
    assert_eq!(NumericKeypadButton::try_from('7'), Ok(NumericKeypadButton::Num(7)));
    assert_eq!(NumericKeypadButton::try_from('A'), Ok(NumericKeypadButton::Activate));
    assert!(NumericKeypadButton::try_from('x').is_err());
    assert_eq!(NumericKeypadButton::Num(4).to_string(), "4");
    assert_eq!(NumericKeypadButton::Activate.to_string(), "A");
    assert_eq!(DirectionalKeypadButton::Down.to_string(), "v");
    assert_eq!(DirectionalKeypadButton::default(), DirectionalKeypadButton::Activate);
    assert_eq!(NumericKeypadButton::default(), NumericKeypadButton::Activate);
}

#[test]
fn cost_without_keypads_is_one_press() {
    let mut cache = HashMap::new();
    assert_eq!(
        len_shortest_cmd_seqs_with_n_indirections_between(
            DirectionalKeypadButton::Left,
            DirectionalKeypadButton::Activate,
            0,
            &mut cache
        ),
        Some(1)
    );
    assert_eq!(
        len_shortest_cmd_seqs_with_n_indirections_between(
            DirectionalKeypadButton::Left,
            DirectionalKeypadButton::Activate,
            1,
            &mut cache
        ),
        Some(4)
    );
}

#[test]
fn fewest_presses_for_the_codes() {
    assert_eq!(fewest_presses(&code("029A"), 2), Some(68));
    assert_eq!(fewest_presses(&code("379A"), 2), Some(64));
    assert_eq!(fewest_presses(&code("029A"), 0), Some(12));
}

#[test]
fn too_many_keypads_leave_no_count() {
    let cmd_seq = &[DirectionalKeypadButton::Left, DirectionalKeypadButton::Activate];
    assert_eq!(None, len_shortest_cmd_seqs_with_n_indirections(cmd_seq, 200));
    let code = &[NumericKeypadButton::Num(0), NumericKeypadButton::Activate];
    assert_eq!(None, fewest_presses(code, 200));
}

#[test]
fn a_cached_cost_is_found_again() {
    let mut cache = HashMap::new();
    let first = len_shortest_cmd_seqs_with_n_indirections_between(
        DirectionalKeypadButton::Activate,
        DirectionalKeypadButton::Left,
        3,
        &mut cache,
    );
    let again = len_shortest_cmd_seqs_with_n_indirections_between(
        DirectionalKeypadButton::Activate,
        DirectionalKeypadButton::Left,
        3,
        &mut cache,
    );
    assert!(first.is_some());
    assert_eq!(first, again);
}

#[test]
fn the_number_of_a_code() {
    assert_eq!(code_number(&code("029A")), Some(29));
    assert_eq!(code_number(&code("980A")), Some(980));
    assert_eq!(code_number(&code("A")), Some(0));
    assert_eq!(code_number(&code("7")), Some(0));
    assert_eq!(code_number(&code("12")), Some(1));
    assert_eq!(code_number(&code("0A9A")), None);
    assert_eq!(code_number(&[]), None);
    assert_eq!(code_number(&code("18446744073709551615A")), Some(usize::MAX));
    assert_eq!(code_number(&code("18446744073709551616A")), None);
    assert_eq!(code_number(&[NumericKeypadButton::Num(12), NumericKeypadButton::Activate]), None);
}

#[test]
fn complexity_is_number_times_presses() {
    assert_eq!(puzzles::keypad::complexity(&code("029A"), 2), Some(68 * 29));
    assert_eq!(puzzles::keypad::complexity(&code("980A"), 2), Some(60 * 980));
    assert_eq!(puzzles::keypad::complexity(&code("179A"), 2), Some(68 * 179));
    assert_eq!(puzzles::keypad::complexity(&code("456A"), 2), Some(64 * 456));
    assert_eq!(puzzles::keypad::complexity(&code("379A"), 2), Some(64 * 379));
    assert_eq!(puzzles::keypad::complexity(&code("000A"), 2), Some(0));
    assert_eq!(puzzles::keypad::complexity(&code("0A0A"), 2), None);
    assert_eq!(puzzles::keypad::complexity(&code("029A"), 200), None);
    let codes: Vec<Vec<NumericKeypadButton>> =
        ["029A", "980A", "179A", "456A", "379A"].iter().map(|c| code(c)).collect();
    assert_eq!(total_complexity(&codes, 2), Some(126384));
    assert_eq!(total_complexity(&Vec::new(), 2), Some(0));
    assert_eq!(total_complexity(&vec![code("029A"), Vec::new()], 2), None);
}

#[test]
fn reading_a_code() {
    assert_eq!(read_code("029A"), Some(code("029A")));
    assert_eq!(read_code(""), Some(Vec::new()));
    assert_eq!(read_code("02x"), None);
    assert_eq!(read_code("a"), None);
}

#[test]
fn the_cache_holds_what_was_worked_out() {
    let mut cache = HashMap::new();
    let cost = len_shortest_cmd_seqs_with_n_indirections_between(
        DirectionalKeypadButton::Activate,
        DirectionalKeypadButton::Left,
        1,
        &mut cache,
    );
    assert_eq!(cost, Some(4));
    assert_eq!(cache.len(), 1);
    let held: Vec<Option<usize>> = cache.values().copied().collect();
    assert_eq!(held, vec![Some(4)]);
    let before = cache.clone();
    let same = len_shortest_cmd_seqs_with_n_indirections_between(
        DirectionalKeypadButton::Up,
        DirectionalKeypadButton::Up,
        1,
        &mut cache,
    );
    assert_eq!(same, Some(1));
    assert_eq!(cache.len(), 2);
    for (key, value) in before.iter() {
        assert_eq!(cache.get(key), Some(value));
    }
    let none = len_shortest_cmd_seqs_with_n_indirections_between(
        DirectionalKeypadButton::Up,
        DirectionalKeypadButton::Down,
        0,
        &mut cache,
    );
    assert_eq!(none, Some(1));
    assert_eq!(cache.len(), 2);
    let deeper = len_shortest_cmd_seqs_with_n_indirections_between(
        DirectionalKeypadButton::Activate,
        DirectionalKeypadButton::Left,
        3,
        &mut cache,
    );
    assert!(cache.values().any(|v| *v == deeper));
    for (key, value) in before.iter() {
        assert_eq!(cache.get(key), Some(value));
    }
}

#[test]
fn through_one_keypad_the_cost_is_the_distance_and_one() {
    let buttons = [
        (DirectionalKeypadButton::Activate, (0i32, 2i32)),
        (DirectionalKeypadButton::Up, (0, 1)),
        (DirectionalKeypadButton::Left, (1, 0)),
        (DirectionalKeypadButton::Down, (1, 1)),
        (DirectionalKeypadButton::Right, (1, 2)),
    ];
    for (src, p) in buttons {
        for (dst, q) in buttons {
            let mut cache = HashMap::new();
            let far = ((p.0 - q.0).abs() + (p.1 - q.1).abs()) as usize;
            assert_eq!(len_shortest_cmd_seqs_with_n_indirections_between(src, dst, 1, &mut cache), Some(far + 1));
            assert_eq!(DirectionalKeypad::get_pos(&src), p);
            assert!(!DIRECTIONAL_KEYPAD.find_shortest_paths_between(&src, &dst).is_empty());
        }
    }
}

#[test]
fn a_sum_of_complexities_needs_every_code() {
    let codes = vec![code("029A"), code("0A9A")];
    assert_eq!(total_complexity(&codes, 2), None);
    assert_eq!(total_complexity(&vec![code("029A"), code("029A")], 2), Some(2 * 68 * 29));
    assert_eq!(total_complexity(&vec![code("029A")], 200), None);
}
