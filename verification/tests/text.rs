use lyric_search::chars::{chars_of, separates_words, string_of};
use lyric_search::distance::{levenshtein_chars, same_chars};
use lyric_search::ingest::trim;
use lyric_search::text::{alphanumeric_only, copy_range, normalize_chars, split_lines, split_words};

fn chars(s: &str) -> Vec<char> {
    s.chars().collect()
}

fn strings(parts: Vec<Vec<char>>) -> Vec<String> {
    parts.into_iter().map(|p| p.into_iter().collect()).collect()
}

#[test]
fn lines_are_the_parts_between_line_breaks() {
    assert_eq!(strings(split_lines(&chars("a\nb"))), vec!["a", "b"]);
    assert_eq!(strings(split_lines(&chars("a\n"))), vec!["a", ""]);
    assert_eq!(strings(split_lines(&chars("\na"))), vec!["", "a"]);
    assert_eq!(strings(split_lines(&chars("a\n\nb"))), vec!["a", "", "b"]);
    assert_eq!(strings(split_lines(&chars(""))), vec![""]);
    assert_eq!(strings(split_lines(&chars("one line"))), vec!["one line"]);
}

#[test]
fn lines_agree_with_the_standard_library() {
    for text in ["", "\n", "\n\n", "a", "a\nb\nc", "x \n y\n", "\r\n", "é\nü"] {
        let expected: Vec<String> = text.split('\n').map(|l| l.to_string()).collect();
        assert_eq!(strings(split_lines(&chars(text))), expected);
    }
}

#[test]
fn words_are_the_runs_between_white_space() {
    assert_eq!(strings(split_words(&chars("hello world"))), vec!["hello", "world"]);
    assert_eq!(strings(split_words(&chars("  hello   world  "))), vec!["hello", "world"]);
    assert_eq!(strings(split_words(&chars("a\tb\u{a0}c\u{3000}d"))), vec!["a", "b", "c", "d"]);
    assert_eq!(strings(split_words(&chars(""))), Vec::<String>::new());
    assert_eq!(strings(split_words(&chars(" \t "))), Vec::<String>::new());
    assert_eq!(strings(split_words(&chars("one"))), vec!["one"]);
}

#[test]
fn words_agree_with_the_standard_library() {
    for text in ["", " ", "a", " a ", "a b", "tiri ankhon ki namaken", "x\ty\nz", "é  ü"] {
        let expected: Vec<String> = text.split_whitespace().map(|w| w.to_string()).collect();
        assert_eq!(strings(split_words(&chars(text))), expected);
    }
}

#[test]
fn strings_and_scalar_values_convert_both_ways() {
    for text in ["", "hello", "naïve", "日本語", "a b\nc"] {
        assert_eq!(chars_of(text), chars(text));
        assert_eq!(string_of(&chars(text)), text);
    }
}

#[test]
fn the_plain_space_separates_words() {
    assert!(separates_words(' '));
    assert!(separates_words('\n'));
    assert!(separates_words('\t'));
    assert!(separates_words('\u{a0}'));
    assert!(!separates_words('a'));
    assert!(!separates_words('_'));
    assert!(!separates_words('越'));
}

#[test]
fn normalize_chars_lowers_and_filters() {
    assert_eq!(normalize_chars(&chars("Hello, World!")), chars("helloworld"));
    assert_eq!(normalize_chars(&chars("ABC")), chars("abc"));
    assert_eq!(normalize_chars(&chars("")), chars(""));
}

#[test]
fn trim_removes_white_space_at_both_ends() {
    assert_eq!(trim(&chars("  a b  ")), chars("a b"));
    assert_eq!(trim(&chars("\t\na\u{a0}")), chars("a"));
    assert_eq!(trim(&chars("a")), chars("a"));
    assert_eq!(trim(&chars("   ")), chars(""));
    assert_eq!(trim(&chars("")), chars(""));
    for text in ["", " ", " a", "a ", " a b ", "\ta\n"] {
        assert_eq!(trim(&chars(text)), chars(text.trim()));
    }
}

#[test]
fn scalar_value_helpers_agree_with_strings() {
    assert!(same_chars(&chars("tum"), &chars("tum")));
    assert!(!same_chars(&chars("tum"), &chars("tun")));
    assert!(!same_chars(&chars("tum"), &chars("tu")));
    assert_eq!(levenshtein_chars(&chars("kitten"), &chars("sitting")), 3);
    assert_eq!(levenshtein_chars(&chars(""), &chars("")), 0);
}

#[test]
fn alphanumeric_only_keeps_case_and_order() {
    assert_eq!(alphanumeric_only(&chars("Hello, World! 42")), chars("HelloWorld42"));
    assert_eq!(alphanumeric_only(&chars("-_-")), chars(""));
    assert_eq!(alphanumeric_only(&chars("")), chars(""));
}

#[test]
fn copy_range_takes_a_part_of_the_text() {
    assert_eq!(copy_range(&chars("hello world"), 6, 11), chars("world"));
    assert_eq!(copy_range(&chars("hello"), 0, 5), chars("hello"));
    assert_eq!(copy_range(&chars("hello"), 2, 2), chars(""));
    assert_eq!(copy_range(&chars("naïve"), 2, 3), chars("ï"));
}

#[test]
fn lines_joined_by_line_breaks_are_the_text() {
    for text in ["", "\n", "a\nb", "a\n\nb\n", "no break"] {
        let lines = strings(split_lines(&chars(text)));
        assert!(lines.iter().all(|l| !l.contains('\n')));
        assert_eq!(lines.join("\n"), text);
    }
}

#[test]
fn words_are_not_empty_and_hold_no_white_space() {
    for text in ["", "  ", "a  b", " tiri ankhon\tki\nnamaken ", "x\u{2003}y"] {
        for word in strings(split_words(&chars(text))) {
            assert!(!word.is_empty());
            assert!(!word.chars().any(|c| c.is_whitespace()));
        }
    }
}
