//! Text, numbers and JSON, held against the standard library and the JSON writer.

use dragonfly_opengrep::json::{write_array, Json};
use dragonfly_opengrep::numbers::{format_decimal, format_hex, parse_hex, HexError};
use dragonfly_opengrep::text::{
    chars_of, count_matches, is_whitespace, join, normalize_whitespace, suffix_after, text_equal,
    trim_end, truncate,
};

#[test]
fn white_space_is_that_of_the_standard_library() {
    for code in 0..=0x0010_ffff_u32 {
        if let Some(c) = char::from_u32(code) {
            assert_eq!(is_whitespace(c), c.is_whitespace(), "{code:x}");
        }
    }
}

#[test]
fn white_space_is_normalized() {
    for text in ["", " ", "a", " a ", "a  b\n\tc", "\u{a0}a\u{2003}b\u{85}", "a\u{200b}b", "x\r\ny"]
    {
        let expected = text.split_whitespace().collect::<Vec<_>>().join(" ");
        assert_eq!(normalize_whitespace(text), expected);
    }
}

#[test]
fn matches_do_not_overlap() {
    for text in ["", "a", "aa", "aaa", "aaaa", "abab", "ababa", "xaax", "a = None; a = None;"] {
        for pattern in ["a", "aa", "ab", "aba", "a = None;"] {
            let count = count_matches(&chars_of(text), pattern);
            assert_eq!(count, text.matches(pattern).count(), "{pattern:?} in {text:?}");
        }
    }
}

#[test]
fn text_is_cut_by_characters() {
    assert_eq!(truncate("abcdef", 3), "abc");
    assert_eq!(truncate("abc", 3), "abc");
    assert_eq!(truncate("\u{e9}\u{4e2d}\u{1f600}", 2), "\u{e9}\u{4e2d}");
    assert_eq!(truncate("abc", 0), "");
}

#[test]
fn the_last_part_follows_the_last_separator() {
    assert_eq!(suffix_after("rules.python.exec", '.'), "exec");
    assert_eq!(suffix_after("exec", '.'), "exec");
    assert_eq!(suffix_after("exec.", '.'), "");
    assert_eq!(suffix_after("", '.'), "");
}

#[test]
fn texts_are_joined_and_trimmed() {
    let parts = ["a".to_owned(), String::new(), "b".to_owned()];
    assert_eq!(join(&parts, "; "), parts.join("; "));
    assert_eq!(join(&[], "; "), "");
    assert_eq!(trim_end("a/b//", '/'), "a/b");
    assert_eq!(trim_end("///", '/'), "");
    assert_eq!(trim_end("/a", '/'), "/a");
    assert!(text_equal("a", "a"));
    assert!(!text_equal("a", "b"));
    assert!(!text_equal("a", "aa"));
}

#[test]
fn decimals_are_those_of_the_standard_library() {
    for value in [0, 9, 10, 99, 100, 500, 4_194_304, u64::MAX] {
        assert_eq!(format_decimal(value), value.to_string());
    }
}

#[test]
fn hexadecimals_are_those_of_the_standard_library() {
    for value in [0, 1, 15, 16, 0xabcdef, u128::from(u64::MAX), u128::MAX] {
        assert_eq!(format_hex(value, 32), format!("{value:032x}").into_bytes());
    }
    assert_eq!(format_hex(0xabcdef, 4), b"cdef");
    for text in [
        "", "+", "-", "0", "+0", "-0", "ff", "FF", "fg", "ffffffffffffffff", "10000000000000000",
        "+ffffffffffffffff", "00000000000000000000ff", " 1", "1 ", "++1", "fffffffffffffffff", "g0000000000000000000",
    ] {
        let expected = u64::from_str_radix(text, 16);
        match (parse_hex(text.as_bytes()), expected) {
            (Ok(found), Ok(expected)) => assert_eq!(found, expected),
            (Err(error), Err(expected)) => {
                let shown = match error {
                    HexError::Empty => "cannot parse integer from empty string",
                    HexError::InvalidDigit => "invalid digit found in string",
                    HexError::Overflow => "number too large to fit in target type",
                };
                assert_eq!(shown, expected.to_string(), "{text:?}");
            }
            _ => panic!("{text:?}"),
        }
    }
}

#[test]
fn hexadecimal_numbers_come_back() {
    for value in [0, 1, 0x1234_5678_9abc_def0, u64::MAX] {
        let digits = format_hex(u128::from(value), 16);
        assert!(matches!(parse_hex(&digits), Ok(found) if found == value));
    }
}

fn from_value(value: &serde_json::Value) -> Json {
    match value {
        serde_json::Value::String(text) => Json::Text(text.clone()),
        serde_json::Value::Array(items) => Json::Array(items.iter().map(from_value).collect()),
        serde_json::Value::Object(members) => Json::Object(
            members
                .iter()
                .map(|(key, value)| (key.clone(), from_value(value)))
                .collect(),
        ),
        _ => Json::Other,
    }
}

#[test]
fn json_arrays_are_written_without_white_space() {
    let values: Vec<serde_json::Value> = serde_json::from_str(
        "[1, -2.5, \"a\\nb\\\"c \u{e9}\", false, null, [], {\"b\": [{}], \"a\": 1}]",
    )
    .unwrap();
    for count in 0..=values.len() {
        let items: Vec<String> = values[..count]
            .iter()
            .map(|value| serde_json::to_string(value).unwrap())
            .collect();
        assert_eq!(write_array(&items), serde_json::to_string(&values[..count]).unwrap());
    }
}

#[test]
fn json_members_are_found() {
    let value = serde_json::from_str(
        "{\"level\": \"warn\", \"code\": 3, \"type\": [\"PartialParsing\", []], \"none\": []}",
    )
    .unwrap();
    let json = from_value(&value);
    assert_eq!(json.get_text("level"), Some("warn"));
    assert_eq!(json.get_text("code"), None);
    assert_eq!(json.get_text("missing"), None);
    assert_eq!(json.get_first_text("type"), Some("PartialParsing"));
    assert_eq!(json.get_first_text("none"), None);
    assert_eq!(json.get_first_text("level"), None);
    assert!(json.get("code").is_some());
    assert_eq!(Json::Other.get_text("level"), None);
}
