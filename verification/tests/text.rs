use pop_vcs::text::{
    contains_dot_dot, decimal_text, ends_with, has_char, is_whitespace, join, nonempty_texts, padded_decimal,
    parse_u64, read_first_line, replace_char, signed_text, split_path, split_text, starts_with, str_eq, str_lt,
    strip_prefix, trim, trim_end_matches, trim_start_matches,
};

const SAMPLES: [&str; 14] = [
    "", "a", "ab", "b", "a/b", "//a//b/", "./", "./././x", "é", "z\u{1F600}", " a ", "\t\n", "..", "x..y",
];

#[test]
fn trims_white_space() {
    assert_eq!(trim("  a b\u{3000}\n"), "a b");
    assert_eq!(trim(""), "");
    assert_eq!(trim(" \t\r\n"), "");
    for s in SAMPLES {
        assert_eq!(trim(s), s.trim());
    }
}

#[test]
fn white_space_is_what_unicode_says() {
    for n in 0..=0x10FFFFu32 {
        if let Some(c) = char::from_u32(n) {
            assert_eq!(is_whitespace(c), c.is_whitespace(), "{:x}", n);
        }
    }
}

#[test]
fn texts_are_ordered_as_the_standard_orders_them() {
    for a in SAMPLES {
        for b in SAMPLES {
            assert_eq!(str_lt(a, b), a < b, "{:?} {:?}", a, b);
            assert_eq!(str_eq(a, b), a == b);
        }
    }
}

#[test]
fn prefixes_and_suffixes() {
    for a in SAMPLES {
        for b in SAMPLES {
            assert_eq!(starts_with(a, b), a.starts_with(b), "{:?} {:?}", a, b);
            assert_eq!(ends_with(a, b), a.ends_with(b), "{:?} {:?}", a, b);
            assert_eq!(strip_prefix(a, b), a.strip_prefix(b).map(|s| s.to_string()));
            if !b.is_empty() {
                assert_eq!(trim_start_matches(a, b), a.trim_start_matches(b));
                assert_eq!(trim_end_matches(a, b), a.trim_end_matches(b));
            }
        }
    }
}

#[test]
fn splits_at_separators() {
    for s in SAMPLES {
        let want: Vec<String> = s.split('/').map(|p| p.to_string()).collect();
        assert_eq!(split_text(s, '/'), want);
        let parts: Vec<String> = s.split('/').filter(|p| !p.is_empty()).map(|p| p.to_string()).collect();
        assert_eq!(split_path(s), parts);
    }
    assert_eq!(nonempty_texts(&vec!["".to_string(), "a".to_string(), "".to_string()]), vec!["a".to_string()]);
}

#[test]
fn joins_pieces() {
    assert_eq!(join(&vec![], ", "), "");
    assert_eq!(join(&vec!["a".to_string()], ", "), "a");
    assert_eq!(join(&vec!["a".to_string(), "".to_string(), "c".to_string()], ", "), "a, , c");
    assert_eq!(pop_vcs::text::concat("ab", "cd"), "abcd");
}

#[test]
fn searches_and_replaces() {
    assert_eq!(replace_char("a\\b\\\\c", '\\', '/'), "a/b//c");
    assert!(has_char("a:b", ':'));
    assert!(!has_char("", ':'));
    assert!(contains_dot_dot("a..b"));
    assert!(!contains_dot_dot("a.b.c"));
}

#[test]
fn reads_the_first_line() {
    assert_eq!(read_first_line("cmt_0000001\n"), "cmt_0000001");
    assert_eq!(read_first_line("  a \r\nb\n"), "a");
    assert_eq!(read_first_line(""), "");
    assert_eq!(read_first_line("\nx"), "");
}

#[test]
fn numbers_in_decimal() {
    for n in [0u64, 1, 9, 10, 99, 100, 12345, u64::MAX] {
        assert_eq!(decimal_text(n), n.to_string());
        assert_eq!(parse_u64(&decimal_text(n)), Some(n));
        assert_eq!(padded_decimal(n, 7), format!("{:07}", n));
    }
    for n in [0i64, 1, -1, i64::MAX, i64::MIN] {
        assert_eq!(signed_text(n), n.to_string());
    }
}

#[test]
fn parses_numbers_as_the_standard_does() {
    for s in ["", "+", "-1", "+12", "007", "1 ", "1x", "18446744073709551615", "18446744073709551616", "99999999999999999999"] {
        assert_eq!(parse_u64(s), s.parse::<u64>().ok(), "{:?}", s);
    }
}
