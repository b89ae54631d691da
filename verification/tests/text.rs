use crabaccess::text::{
    chars_of, compare_text, decimal_text, parse_u64, second_word, string_of_chars, TextOrder,
};

#[test]
fn numbers_read_like_u64_from_str() {
    assert_eq!(parse_u64("532"), Some(532));
    assert_eq!(parse_u64("+7"), Some(7));
    assert_eq!(parse_u64("007"), Some(7));
    assert_eq!(parse_u64("18446744073709551615"), Some(u64::MAX));
    assert_eq!(parse_u64("18446744073709551616"), None);
    assert_eq!(parse_u64("99999999999999999999"), None);
    assert_eq!(parse_u64("-"), None);
    assert_eq!(parse_u64("-1"), None);
    assert_eq!(parse_u64("+"), None);
    assert_eq!(parse_u64(""), None);
    assert_eq!(parse_u64("12a"), None);
    assert_eq!(parse_u64(" 1"), None);
    for text in ["0", "1", "42", "+0", "+123", "4294967296", "abc", "1.5"] {
        assert_eq!(parse_u64(text), text.parse::<u64>().ok());
    }
}

#[test]
fn numbers_write_in_decimal() {
    assert_eq!(decimal_text(0), "0");
    assert_eq!(decimal_text(7), "7");
    assert_eq!(decimal_text(1234), "1234");
    assert_eq!(decimal_text(u64::MAX), u64::MAX.to_string());
}

#[test]
fn second_word_splits_on_any_whitespace() {
    assert_eq!(second_word("GET /api/v1/users?id=1 HTTP/1.1").as_deref(), Some("/api/v1/users?id=1"));
    assert_eq!(second_word("  GET\t\t/x\u{a0}HTTP/1.0 ").as_deref(), Some("/x"));
    assert_eq!(second_word("GET").as_deref(), None);
    assert_eq!(second_word("").as_deref(), None);
    assert_eq!(second_word("   ").as_deref(), None);
    for request in ["a b c", "\u{2003}a\u{2003}b", "one  two", "x"] {
        assert_eq!(second_word(request).as_deref(), request.split_whitespace().nth(1));
    }
}

#[test]
fn text_order_compares_characters() {
    assert_eq!(compare_text("a", "b"), TextOrder::Less);
    assert_eq!(compare_text("b", "a"), TextOrder::Greater);
    assert_eq!(compare_text("abc", "abc"), TextOrder::Equal);
    assert_eq!(compare_text("ab", "abc"), TextOrder::Less);
    assert_eq!(compare_text("", ""), TextOrder::Equal);
    assert_eq!(compare_text("Z", "a"), TextOrder::Less);
    assert_eq!(compare_text("é", "z"), TextOrder::Greater);
}

#[test]
fn characters_round_trip() {
    let chars = chars_of("héllo");
    assert_eq!(chars, vec!['h', 'é', 'l', 'l', 'o']);
    assert_eq!(string_of_chars(&chars), "héllo");
}
