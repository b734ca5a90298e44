use fadupes::decimal::{digit_char, find_dot, only_digits, scale_decimal};
use fadupes::text::{chars_of, space_char, sub_chars, trim};

fn chars(s: &str) -> Vec<char> {
    s.chars().collect()
}

#[test]
fn white_space_is_what_unicode_says() {
    for n in 0..=0x10FFFFu32 {
        if let Some(c) = char::from_u32(n) {
            assert_eq!(space_char(c), c.is_whitespace(), "U+{n:04X}");
        }
    }
}

#[test]
fn digits_are_the_ten_of_ascii() {
    for n in 0..=0x10FFFFu32 {
        if let Some(c) = char::from_u32(n) {
            assert_eq!(digit_char(c), c.is_ascii_digit(), "U+{n:04X}");
        }
    }
}

#[test]
fn strings_are_taken_apart_character_by_character() {
    assert_eq!(chars_of(""), Vec::<char>::new());
    assert_eq!(chars_of("a\u{e9}\u{1F600}z"), vec!['a', '\u{e9}', '\u{1F600}', 'z']);
    assert_eq!(sub_chars(&chars("hello"), 1, 3), vec!['e', 'l']);
    assert_eq!(sub_chars(&chars("hello"), 2, 2), Vec::<char>::new());
    assert_eq!(sub_chars(&chars("hello"), 0, 5), chars("hello"));
}

#[test]
fn trimming_is_what_strings_do() {
    for s in ["", " ", "a", "  a b  ", "\t\n x \r\n", "\u{a0}x\u{3000}", " \u{2003} ", "x  ", "  x"] {
        assert_eq!(trim(&chars(s)), chars(s.trim()), "{s:?}");
    }
}

#[test]
fn the_first_point_is_found() {
    assert_eq!(find_dot(&chars("12.5")), 2);
    assert_eq!(find_dot(&chars(".5")), 0);
    assert_eq!(find_dot(&chars("125")), 3);
    assert_eq!(find_dot(&chars("1.2.3")), 1);
    assert_eq!(find_dot(&chars("")), 0);
    assert!(only_digits(&chars("0123456789")));
    assert!(only_digits(&chars("")));
    assert!(!only_digits(&chars("12a")));
    assert!(!only_digits(&chars("1.2")));
}

#[test]
fn decimals_are_scaled_exactly() {
    assert_eq!(scale_decimal(&chars("1.5"), 1024), Some(1536));
    assert_eq!(scale_decimal(&chars("0.1"), 1 << 30), Some(107374182));
    assert_eq!(scale_decimal(&chars("0.3"), 1 << 30), Some(322122547));
    assert_eq!(scale_decimal(&chars("7"), 1), Some(7));
    assert_eq!(scale_decimal(&chars("007"), 1), Some(7));
    assert_eq!(scale_decimal(&chars("0.5"), 1), Some(1));
    assert_eq!(scale_decimal(&chars("1.5"), 1), Some(2));
    assert_eq!(scale_decimal(&chars("1.49"), 1), Some(1));
    assert_eq!(scale_decimal(&chars("0.0009765625"), 1024), Some(1));
    assert_eq!(scale_decimal(&chars("0.00048828125"), 1024), Some(1));
    assert_eq!(scale_decimal(&chars("0.00048828124"), 1024), Some(0));
    assert_eq!(scale_decimal(&chars("18446744073709551615"), 1), Some(u64::MAX));
    assert_eq!(scale_decimal(&chars("18446744073709551614.5"), 1), Some(u64::MAX));
    assert_eq!(scale_decimal(&chars("18446744073709551614.4"), 1), Some(u64::MAX - 1));
    assert_eq!(scale_decimal(&chars("18446744073709551616"), 1), Some(u64::MAX));
    assert_eq!(scale_decimal(&chars(""), 1), None);
    assert_eq!(scale_decimal(&chars("."), 1), None);
    assert_eq!(scale_decimal(&chars("1.2.3"), 1), None);
    assert_eq!(scale_decimal(&chars("1a"), 1), None);
}
