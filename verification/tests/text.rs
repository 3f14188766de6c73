use ignite_ms::number::{parse_number, to_decimal, NumberError};
use ignite_ms::text::{
    chars_of, contains_char, is_whitespace, join, replace_char, same_text, split,
    split_whitespace, trim, trim_end_matches, Separator,
};
use ignite_ms::utf8::truncate_utf8;

fn strings(parts: &[&str]) -> Vec<String> {
    parts.iter().map(|s| s.to_string()).collect()
}

#[test]
fn white_space_is_that_of_unicode() {
    for code in 0..=0x10ffffu32 {
        if let Some(c) = char::from_u32(code) {
            assert_eq!(is_whitespace(c), c.is_whitespace(), "{:x}", code);
        }
    }
}

#[test]
fn splitting_keeps_empty_pieces() {
    assert_eq!(split("a,,b,", Separator::Char(',')), strings(&["a", "", "b", ""]));
    assert_eq!(split("", Separator::Char(',')), strings(&[""]));
    assert_eq!(split("a \tb", Separator::White), strings(&["a", "", "b"]));
}

#[test]
fn words_are_split_like_std() {
    for text in ["", "  ", "a", " a b ", "x\u{a0}y\u{3000}z", "tab\tnew\nline", "é ü"] {
        let expected: Vec<String> = text.split_whitespace().map(|s| s.to_string()).collect();
        assert_eq!(split_whitespace(text), expected);
    }
}

#[test]
fn trimming_is_like_std() {
    for text in ["", "  ", " a b ", "\u{2003}x\u{2003}", "x", "\r\n x y\t"] {
        assert_eq!(trim(text), text.trim());
    }
}

#[test]
fn joined_words_split_again() {
    let words = strings(&["one", "two", "three"]);
    assert_eq!(join(&words, " "), "one two three");
    assert_eq!(split_whitespace(&join(&words, " ")), words);
    assert_eq!(join(&strings(&[]), " "), "");
    assert_eq!(join(&strings(&["", ""]), ","), ",");
}

#[test]
fn characters_are_replaced_and_found() {
    assert_eq!(replace_char("a/b/c", '/', "--"), "a--b--c");
    assert_eq!(replace_char("8.0", '.', ""), "80");
    assert_eq!(trim_end_matches("s3://x///", '/'), "s3://x");
    assert_eq!(trim_end_matches("///", '/'), "");
    assert!(contains_char("intfloat/e5", '/'));
    assert!(!contains_char("e5", '/'));
    assert!(same_text("e5", "e5"));
    assert!(!same_text("e5", "e5 "));
    assert_eq!(chars_of("aé"), vec!['a', 'é']);
}

#[test]
fn numbers_read_back() {
    for n in [0u64, 7, 10, 99, 100, 12345678901234567890, u64::MAX] {
        assert_eq!(to_decimal(n), n.to_string());
        assert!(matches!(parse_number(&to_decimal(n), u64::MAX), Ok(m) if m == n));
    }
}

#[test]
fn number_errors_are_those_of_std() {
    for text in ["", "x", "-1", "+", "1 ", "18446744073709551616", "99999999999999999999x", "+5x"] {
        let expected = text.parse::<u64>().unwrap_err().to_string();
        let e = parse_number(text, u64::MAX).err().unwrap();
        assert_eq!(e.message(), expected, "{:?}", text);
    }
    for text in ["4294967296", "4294967295", "+7", "007"] {
        let expected = text.parse::<u32>();
        match parse_number(text, u32::MAX as u64) {
            Ok(n) => assert_eq!(Ok(n as u32), expected),
            Err(e) => assert_eq!(e.message(), expected.unwrap_err().to_string()),
        }
    }
    assert!(matches!(parse_number("", 9), Err(NumberError::Empty)));
    assert!(matches!(parse_number("a", 9), Err(NumberError::InvalidDigit)));
    assert!(matches!(parse_number("10", 9), Err(NumberError::TooLarge)));
}

#[test]
fn truncation_does_not_split_characters() {
    assert_eq!(truncate_utf8("hello", 10), "hello");
    assert_eq!(truncate_utf8("hello", 5), "hello");
    assert_eq!(truncate_utf8("hello", 3), "hel");
    assert_eq!(truncate_utf8("aé", 2), "a");
    assert_eq!(truncate_utf8("aé", 3), "aé");
    assert_eq!(truncate_utf8("日本", 5), "日");
    assert_eq!(truncate_utf8("日本", 0), "");
}
