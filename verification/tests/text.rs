use inventory::decimal::{format_quantity, is_digit_char, parse_quantity};
use inventory::fields::{find_char, split_lines, split_on};
use inventory::text::{
    char_lt, chars_of, contains, is_space_char, matches_at, precedes_or_equals, slice_of,
    string_of, trimmed,
};

fn chars(s: &str) -> Vec<char> {
    s.chars().collect()
}

fn strings(v: Vec<Vec<char>>) -> Vec<String> {
    v.into_iter().map(|p| p.into_iter().collect()).collect()
}

#[test]
fn text_goes_to_characters_and_back() {
    assert_eq!(chars_of("Se\u{e7}\u{e3}o"), vec!['S', 'e', '\u{e7}', '\u{e3}', 'o']);
    assert_eq!(chars_of(""), Vec::<char>::new());
    assert_eq!(string_of(&vec!['a', '\u{1f600}', 'b']), "a\u{1f600}b");
    assert_eq!(string_of(&Vec::new()), "");
    assert_eq!(slice_of(&chars("abcdef"), 2, 4), vec!['c', 'd']);
    assert_eq!(slice_of(&chars("abcdef"), 3, 3), Vec::<char>::new());
}

#[test]
fn names_are_compared_character_by_character() {
    assert!(precedes_or_equals("", ""));
    assert!(precedes_or_equals("", "a"));
    assert!(!precedes_or_equals("a", ""));
    assert!(precedes_or_equals("abc", "abc"));
    assert!(precedes_or_equals("ab", "abc"));
    assert!(!precedes_or_equals("abc", "ab"));
    assert!(precedes_or_equals("abc", "abd"));
    assert!(!precedes_or_equals("abd", "abc"));
    assert!(precedes_or_equals("Z", "a"));
    assert!(precedes_or_equals("z", "\u{e9}"));
    assert!(!precedes_or_equals("\u{e9}", "z"));
    assert!(precedes_or_equals("2024-12-31", "2025-01-01"));
    assert!(char_lt('a', 'b'));
    assert!(!char_lt('b', 'b'));
    assert!(!char_lt('\u{e9}', 'z'));
}

#[test]
fn order_of_names_is_the_order_of_strings() {
    let names = ["", "a", "A", "ab", "b", "\u{e7}", "Z", "a b", "aB", "\u{10348}", "\u{ffff}"];
    for a in names {
        for b in names {
            assert_eq!(precedes_or_equals(a, b), a <= b);
        }
    }
}

#[test]
fn substring_is_found_where_it_stands() {
    let hay = chars("PEPSI COLA");
    assert!(contains(&hay, &chars("COLA")));
    assert!(contains(&hay, &chars("PEPSI")));
    assert!(contains(&hay, &chars("I C")));
    assert!(contains(&hay, &chars("")));
    assert!(contains(&hay, &chars("PEPSI COLA")));
    assert!(!contains(&hay, &chars("PEPSI COLA ")));
    assert!(!contains(&hay, &chars("cola")));
    assert!(!contains(&hay, &chars("COLAS")));
    assert!(contains(&chars(""), &chars("")));
    assert!(!contains(&chars(""), &chars("a")));
    assert!(contains(&chars("aab"), &chars("ab")));
    assert!(matches_at(&hay, &chars("COLA"), 6));
    assert!(!matches_at(&hay, &chars("COLA"), 5));
    assert!(matches_at(&hay, &chars(""), 10));
}

#[test]
fn white_space_is_what_unicode_says() {
    for c in ['\t', '\n', '\u{b}', '\u{c}', '\r', ' ', '\u{85}', '\u{a0}', '\u{1680}', '\u{2000}',
        '\u{200a}', '\u{2028}', '\u{2029}', '\u{202f}', '\u{205f}', '\u{3000}']
    {
        assert!(is_space_char(c));
    }
    for c in ['a', '0', ',', '\u{8}', '\u{e}', '\u{1f}', '!', '\u{200b}', '\u{feff}', '\u{84}', '\u{86}'] {
        assert!(!is_space_char(c));
    }
    let mut n: u32 = 0;
    while n < 0x3100 {
        if let Some(c) = char::from_u32(n) {
            assert_eq!(is_space_char(c), c.is_whitespace());
        }
        n += 1;
    }
}

#[test]
fn trimming_removes_white_space_at_both_ends_only() {
    assert_eq!(trimmed(&chars("  a b \t\r\n")), chars("a b"));
    assert_eq!(trimmed(&chars("a")), chars("a"));
    assert_eq!(trimmed(&chars("")), chars(""));
    assert_eq!(trimmed(&chars(" \u{a0}\u{3000} ")), chars(""));
    assert_eq!(trimmed(&chars("\u{2003}x\u{2003}y\u{2003}")), chars("x\u{2003}y"));
    for s in ["", " ", "a", " a", "a ", "  a  b  ", "\t\n", "x\u{a0}"] {
        let got: String = trimmed(&chars(s)).into_iter().collect();
        assert_eq!(got, s.trim());
    }
}

#[test]
fn text_is_cut_at_every_separator() {
    assert_eq!(strings(split_on(&chars("a,b,c"), ',')), vec!["a", "b", "c"]);
    assert_eq!(strings(split_on(&chars("abc"), ',')), vec!["abc"]);
    assert_eq!(strings(split_on(&chars(""), ',')), vec![""]);
    assert_eq!(strings(split_on(&chars(","), ',')), vec!["", ""]);
    assert_eq!(strings(split_on(&chars("a,,b,"), ',')), vec!["a", "", "b", ""]);
    assert_eq!(strings(split_on(&chars(",a"), ',')), vec!["", "a"]);
    for s in ["", ",", "a,b", ",,a,", "x"] {
        let expected: Vec<String> = s.split(',').map(|p| p.to_string()).collect();
        assert_eq!(strings(split_on(&chars(s), ',')), expected);
    }
}

#[test]
fn text_is_cut_into_lines() {
    assert_eq!(strings(split_lines(&chars("a\nb\nc"))), vec!["a", "b", "c"]);
    assert_eq!(strings(split_lines(&chars("a\nb\n"))), vec!["a", "b"]);
    assert_eq!(strings(split_lines(&chars(""))), Vec::<String>::new());
    assert_eq!(strings(split_lines(&chars("\n"))), vec![""]);
    assert_eq!(strings(split_lines(&chars("\n\n"))), vec!["", ""]);
    assert_eq!(strings(split_lines(&chars("a\n\nb"))), vec!["a", "", "b"]);
    assert_eq!(strings(split_lines(&chars("a\r\nb"))), vec!["a\r", "b"]);
    for s in ["", "x", "x\n", "\nx", "a\nb\n\n", "\n\n\n"] {
        let expected: Vec<String> = s.lines().map(|p| p.to_string()).collect();
        assert_eq!(strings(split_lines(&chars(s))), expected);
    }
}

#[test]
fn first_occurrence_is_found_from_a_position() {
    let s = chars("a,b,c");
    assert_eq!(find_char(&s, 0, ','), 1);
    assert_eq!(find_char(&s, 1, ','), 1);
    assert_eq!(find_char(&s, 2, ','), 3);
    assert_eq!(find_char(&s, 4, ','), 5);
    assert_eq!(find_char(&s, 5, ','), 5);
    assert_eq!(find_char(&s, 0, ';'), 5);
}

#[test]
fn quantity_is_read_from_digits() {
    assert_eq!(parse_quantity(&chars("0")), Some(0));
    assert_eq!(parse_quantity(&chars("42")), Some(42));
    assert_eq!(parse_quantity(&chars("007")), Some(7));
    assert_eq!(parse_quantity(&chars("+15")), Some(15));
    assert_eq!(parse_quantity(&chars("4294967295")), Some(4294967295));
    assert_eq!(parse_quantity(&chars("0000000004294967295")), Some(4294967295));
    assert_eq!(parse_quantity(&chars("4294967296")), None);
    assert_eq!(parse_quantity(&chars("99999999999999999999999999")), None);
    assert_eq!(parse_quantity(&chars("")), None);
    assert_eq!(parse_quantity(&chars("+")), None);
    assert_eq!(parse_quantity(&chars("-1")), None);
    assert_eq!(parse_quantity(&chars("++1")), None);
    assert_eq!(parse_quantity(&chars("1+")), None);
    assert_eq!(parse_quantity(&chars("1 2")), None);
    assert_eq!(parse_quantity(&chars(" 1")), None);
    assert_eq!(parse_quantity(&chars("12a")), None);
    assert_eq!(parse_quantity(&chars("1.0")), None);
    assert_eq!(parse_quantity(&chars("\u{661}\u{662}")), None);
    assert_eq!(parse_quantity(&chars("5000000000x")), None);
}

#[test]
fn quantity_is_read_as_the_standard_library_reads_it() {
    for s in ["0", "10", "+7", "-7", "", "+", "4294967295", "4294967296", "01", "1_000", "0x10"] {
        assert_eq!(parse_quantity(&chars(s)), s.parse::<u32>().ok());
    }
}

#[test]
fn quantity_is_written_in_decimal() {
    assert_eq!(format_quantity(0), chars("0"));
    assert_eq!(format_quantity(7), chars("7"));
    assert_eq!(format_quantity(10), chars("10"));
    assert_eq!(format_quantity(1203), chars("1203"));
    assert_eq!(format_quantity(4294967295), chars("4294967295"));
    for n in [0u32, 1, 9, 10, 11, 99, 100, 101, 65535, 1000000, u32::MAX - 1, u32::MAX] {
        assert_eq!(format_quantity(n), chars(&n.to_string()));
        assert_eq!(parse_quantity(&format_quantity(n)), Some(n));
    }
}

#[test]
fn digits_are_the_ten_characters_from_zero_to_nine() {
    for (d, c) in ['0', '1', '2', '3', '4', '5', '6', '7', '8', '9'].into_iter().enumerate() {
        assert_eq!(format_quantity(d as u32), vec![c]);
        assert_eq!(format_quantity(10 + d as u32), vec!['1', c]);
        assert!(is_digit_char(c));
    }
    for c in ['/', ':', 'a', ' ', '\u{660}', '\u{ff11}'] {
        assert!(!is_digit_char(c));
    }
}
