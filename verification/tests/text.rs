use puzzles::text;

fn chars(s: &str) -> Vec<char> {
    s.chars().collect()
}

fn strings(parts: Vec<Vec<char>>) -> Vec<String> {
    parts.into_iter().map(|p| p.into_iter().collect()).collect()
}

#[test]
fn lines_as_the_standard_library_splits_them() {
    for s in ["", "a", "a\n", "a\nb", "a\r\nb\r\n", "\n", "\n\n", "a\n\nb", "a\r", "\r\n", "a\rb\n", "x\r\r\ny"] {
        let expected: Vec<String> = s.lines().map(String::from).collect();
        assert_eq!(strings(text::lines(&chars(s))), expected);
    }
}

#[test]
fn split_as_the_standard_library_splits() {
    for s in ["", "a", "a,b", ",", ",,", "a,", ",a", "a,b,,c"] {
        let expected: Vec<String> = s.split(',').map(String::from).collect();
        assert_eq!(strings(text::split(&chars(s), ',')), expected);
    }
}

#[test]
fn blocks_as_the_standard_library_splits() {
    for s in ["", "a", "a\n\nb", "\n\n", "a\n\n", "\n\na", "a\n\n\nb", "a\n\n\n\nb", "a\nb\n\nc\n"] {
        let expected: Vec<String> = s.split("\n\n").map(String::from).collect();
        assert_eq!(strings(text::blocks(&chars(s))), expected);
    }
}

#[test]
fn words_as_the_standard_library_splits() {
    for s in ["", " ", "a", " a  b\tc\n", "a\u{a0}b", "a\u{3000}b\u{2003}c", "\u{85}x", "a\u{200b}b"] {
        let expected: Vec<String> = s.split_whitespace().map(String::from).collect();
        assert_eq!(strings(text::words(&chars(s))), expected);
    }
    for code in 0..0x3100u32 {
        if let Some(c) = char::from_u32(code) {
            assert_eq!(text::space(c), c.is_whitespace());
        }
    }
}

#[test]
fn numbers_as_the_standard_library_reads_them() {
    for s in [
        "0", "7", "-7", "+7", "007", "", "-", "+", "1a", " 1", "9223372036854775807",
        "9223372036854775808", "-9223372036854775808", "-9223372036854775809", "--1", "+-1",
        "18446744073709551615", "18446744073709551616", "00000000000000000000000001",
    ] {
        assert_eq!(text::parse_i64(&chars(s)), s.parse::<i64>().ok());
        assert_eq!(text::parse_u64(&chars(s)), s.parse::<u64>().ok());
    }
    assert_eq!(text::parse_digits(&chars("x12"), 1, 12), Some(12));
    assert_eq!(text::parse_digits(&chars("x12"), 1, 11), None);
    assert_eq!(text::parse_digits(&chars("x12"), 3, 11), None);
}

#[test]
fn characters_and_slices() {
    assert_eq!(text::chars("h\u{e9}llo"), chars("h\u{e9}llo"));
    assert_eq!(text::slice_of(&chars("hello"), 1, 3), chars("el"));
    assert_eq!(text::find(&chars("hello"), 0, 'l'), Some(2));
    assert_eq!(text::find(&chars("hello"), 3, 'l'), Some(3));
    assert_eq!(text::find(&chars("hello"), 4, 'l'), None);
    assert!(text::starts_with_at(&chars("hello"), 2, &chars("llo")));
    assert!(!text::starts_with_at(&chars("hello"), 3, &chars("llo")));
    assert!(text::starts_with_at(&chars("hello"), 5, &chars("")));
    assert_eq!(text::decimal(0), chars("0"));
    assert_eq!(text::decimal(1203), chars("1203"));
    assert_eq!(text::decimal(u64::MAX), chars("18446744073709551615"));
}

#[test]
fn bytes_at_the_ends_of_a_word() {
    assert_eq!(text::drop_two_bytes(&chars("X+94,")), Some(chars("94,")));
    assert_eq!(text::drop_two_bytes(&chars("\u{e9}94")), Some(chars("94")));
    assert_eq!(text::drop_two_bytes(&chars("a\u{e9}")), None);
    assert_eq!(text::drop_two_bytes(&chars("a")), None);
    assert_eq!(text::drop_two_bytes(&chars("\u{20ac}a")), None);
    assert_eq!(text::drop_last_byte(&chars("94,")), Some(chars("94")));
    assert_eq!(text::drop_last_byte(&chars("9\u{e9}")), None);
    assert_eq!(text::drop_last_byte(&chars("")), None);
}

#[test]
fn appending_and_signed_numbers() {
    let mut out: Vec<char> = "ab".chars().collect();
    text::append(&mut out, &"cd".chars().collect());
    text::append_str(&mut out, "");
    text::append_str(&mut out, "ef");
    assert_eq!(out.iter().collect::<String>(), "abcdef");
    assert_eq!(text::signed(0).iter().collect::<String>(), "0");
    assert_eq!(text::signed(-7).iter().collect::<String>(), "-7");
    assert_eq!(text::signed(i64::MIN).iter().collect::<String>(), "-9223372036854775808");
    assert_eq!(text::signed(i64::MAX).iter().collect::<String>(), "9223372036854775807");
}
