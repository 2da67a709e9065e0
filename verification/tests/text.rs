use cavawall::text::{
    chars, copied, find, is_before, is_white, lowered, parse_digits, parse_unsigned, replace, same,
    show, split_word, stands_at, string_of, trimmed,
};

fn text(cs: &[char]) -> String {
    string_of(cs)
}

#[test]
fn characters_come_and_go() {
    assert_eq!(chars("a\u{e9}\u{1f3b5}").len(), 3);
    assert_eq!(text(&chars("a\u{e9}\u{1f3b5}")), "a\u{e9}\u{1f3b5}");
    assert!(same("ab", "ab") && !same("ab", "abc") && !same("ab", "ac"));
    assert_eq!(text(&copied(&chars("hello"), 1, 4)), "ell");
}

#[test]
fn names_sort_as_their_bytes_do() {
    let names = ["", "DP-1", "DP-10", "DP-2", "HDMI-A-1", "eDP-1", "\u{e9}", "\u{1f3b5}"];
    for (i, a) in names.iter().enumerate() {
        for (j, b) in names.iter().enumerate() {
            assert_eq!(is_before(a, b), a < b, "{a} {b}");
            assert_eq!(is_before(a, b), i < j, "{a} {b}");
        }
    }
}

#[test]
fn a_needle_is_found_at_its_first_place() {
    let hay = chars("one two two");
    assert_eq!(find(&hay, &chars("two"), 0), Some(4));
    assert_eq!(find(&hay, &chars("two"), 5), Some(8));
    assert_eq!(find(&hay, &chars("two"), 9), None);
    assert_eq!(find(&hay, &chars(""), 11), Some(11));
    assert_eq!(find(&hay, &chars("x"), 99), None);
    assert!(stands_at(&hay, &chars("two"), 4) && !stands_at(&hay, &chars("two"), 10));
}

#[test]
fn white_space_is_trimmed_and_split_on() {
    for c in [' ', '\t', '\n', '\r', '\u{b}', '\u{85}', '\u{a0}', '\u{2003}', '\u{3000}'] {
        assert!(is_white(c) && c.is_whitespace(), "{c:?}");
    }
    for c in ['a', '\u{200b}', '\u{180e}', '_', '\0'] {
        assert!(!is_white(c) && !c.is_whitespace(), "{c:?}");
    }
    assert_eq!(text(&trimmed(&chars(" \u{a0}a b\r\n"))), "a b");
    let (word, rest) = split_word(&chars("  GET /x y"));
    assert_eq!((text(&word), text(&rest)), ("GET".to_string(), " /x y".to_string()));
    let (word, rest) = split_word(&chars("  "));
    assert_eq!((word.len(), rest.len()), (0, 0));
}

#[test]
fn numbers_read_back_as_they_are_shown() {
    for n in [0u64, 7, 10, 4096, 99999, u64::MAX] {
        let digits = show(n);
        assert_eq!(text(&digits), n.to_string());
        assert_eq!(parse_unsigned(&digits, u64::MAX), Some(n));
        assert_eq!(parse_digits(&digits, u64::MAX), Some(n));
    }
    assert_eq!(parse_unsigned(&chars("+5"), 10), Some(5));
    assert_eq!(parse_digits(&chars("+5"), 10), None);
    assert_eq!(parse_unsigned(&chars("0011"), 10), None);
    assert_eq!(parse_unsigned(&chars("0010"), 10), Some(10));
    for none in ["", "+", "-1", "1 ", "1.0", "18446744073709551616", "\u{661}"] {
        assert_eq!(parse_unsigned(&chars(none), u64::MAX), None, "{none}");
    }
}

#[test]
fn every_needle_is_replaced() {
    assert_eq!(replace("a__KEY__b__KEY__", "__KEY__", "x"), "axbx");
    assert_eq!(replace("aaaa", "aa", "a"), "aa");
    assert_eq!(replace("aaa", "aa", "b"), "ba");
    assert_eq!(replace("", "aa", "b"), "");
    assert_eq!(replace("none", "aa", "b"), "none");
    assert_eq!((lowered('Q'), lowered('q'), lowered('\u{c9}')), ('q', 'q', '\u{c9}'));
}
