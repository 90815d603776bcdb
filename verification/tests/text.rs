//! Text and order, at their edges.

use army_ghosts::order::arrange;
use army_ghosts::text::{
    blank, chars_of, join_all, number_text, pad_left, pad_right, parse_i32,
    parse_unsigned, split_all, split_once, string_of, strip_prefix, trim,
};

fn strings(parts: Vec<Vec<char>>) -> Vec<String> {
    parts.iter().map(string_of).collect()
}

#[test]
fn text_is_cut_and_glued() {
    assert_eq!(strings(split_all(&chars_of("a,,b,"), ',')), vec!["a", "", "b", ""]);
    assert_eq!(strings(split_all(&chars_of(""), ',')), vec![""]);
    let (head, tail) = split_once(&chars_of("k=v=w"), '=').expect("cut");
    assert_eq!((string_of(&head), string_of(&tail)), ("k".to_string(), "v=w".to_string()));
    assert!(split_once(&chars_of("kv"), '=').is_none());
    let parts = vec![chars_of("é"), chars_of(""), chars_of("z")];
    assert_eq!(join_all(&parts, ", "), "é, , z");
    assert_eq!(join_all(&vec![], ","), "");
    assert_eq!(strip_prefix(&chars_of("hi:x"), "hi:").map(|r| string_of(&r)), Some("x".into()));
    assert!(strip_prefix(&chars_of("h"), "hi:").is_none());
}

#[test]
fn white_space_is_unicodes() {
    for c in "\t\n\u{b}\u{c}\r \u{85}\u{a0}\u{1680}\u{2000}\u{200a}\u{2028}\u{2029}\u{202f}\u{205f}\u{3000}".chars() {
        assert!(c.is_whitespace() && blank(&vec![c]), "{c:?}");
    }
    for c in (0..0x11_0000u32).filter_map(char::from_u32) {
        assert_eq!(blank(&vec![c]), c.is_whitespace(), "{c:?}");
    }
    assert_eq!(string_of(&trim(&chars_of(" \u{3000}a b\t"))), "a b");
    assert_eq!(string_of(&trim(&chars_of(" \t "))), "");
}

#[test]
fn numbers_read_as_the_standard_library_reads_them() {
    for t in ["0", "7", "+7", "-7", "", "+", "-", "--1", "+-1", "007", "1 ", "1e3", "٣",
        "4294967295", "4294967296", "18446744073709551615", "18446744073709551616",
        "99999999999999999999999999"] {
        let chars = chars_of(t);
        assert_eq!(parse_unsigned(&chars, u32::MAX as u64), t.parse::<u32>().ok().map(u64::from), "{t:?}");
        assert_eq!(parse_unsigned(&chars, u64::MAX), t.parse::<u64>().ok(), "{t:?}");
    }
    for t in ["0", "-0", "+5", "-5", "2147483647", "2147483648", "-2147483648", "-2147483649", "-", ""] {
        assert_eq!(parse_i32(&chars_of(t)), t.parse::<i32>().ok(), "{t:?}");
    }
}

#[test]
fn numbers_are_written_in_decimal() {
    for n in [0u128, 9, 10, 101, u64::MAX as u128, u128::MAX] {
        assert_eq!(number_text(n), n.to_string());
    }
    assert_eq!(string_of(&pad_right(&chars_of("é"), 3)), format!("{:<3}", "é"));
    assert_eq!(string_of(&pad_left(&chars_of("7"), '0', 2)), "07");
    assert_eq!(string_of(&pad_left(&chars_of("123"), '0', 2)), "123");
}

#[test]
fn arranging_sorts() {
    assert_eq!(arrange(&vec![3usize, 1, 2, 1]), vec![1, 1, 2, 3]);
    assert_eq!(arrange(&Vec::<u128>::new()), Vec::<u128>::new());
}
