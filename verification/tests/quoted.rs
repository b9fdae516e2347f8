use stalepid::{between_chars, parse_quoted, ParseError};

#[test]
fn test_between_chars_basic() {
    assert_eq!(between_chars("hello", 'h', 'o'), Some("ell"));
    assert_eq!(between_chars("hello", 'e', 'l'), Some(""));
}

#[test]
fn test_between_chars_unicode() {
    assert_eq!(between_chars("🦀hello🦀", '🦀', '🦀'), Some("hello"));
}

#[test]
fn test_between_chars_empty() {
    assert_eq!(between_chars("()", '(', ')'), Some(""));
}

#[test]
fn test_between_chars_missing() {
    assert_eq!(between_chars("hello", 'z', 'o'), None);
    assert_eq!(between_chars("hello", 'h', 'z'), None);
}

#[test]
fn test_between_chars() {
    assert_eq!(between_chars("hello \"world\" test", '"', '"'), Some("world"));
    assert_eq!(between_chars("hello \"世界\" test", '"', '"'), Some("世界"));
    assert_eq!(between_chars("hello \"wörld\" test", '"', '"'), Some("wörld"));
    assert_eq!(between_chars("hello world test", '[', ']'), None);
    assert_eq!(between_chars("hello [world test", '[', ']'), None);
    assert_eq!(between_chars("hello \"\" test", '"', '"'), Some(""));
    assert_eq!(
        between_chars("hello [first] and [second] test", '[', ']'),
        Some("first")
    );
}

#[test]
fn between_chars_at_the_edges() {
    assert_eq!(between_chars("", '(', ')'), None);
    assert_eq!(between_chars("abc(", '(', ')'), None);
    assert_eq!(between_chars(")(", '(', ')'), None);
    assert_eq!(between_chars(")(x)", '(', ')'), Some("x"));
    assert_eq!(between_chars("((x))", '(', ')'), Some("(x"));
}

#[test]
fn test_parse_quoted_success() {
    assert_eq!(parse_quoted("\"test\"").unwrap(), "test");
    assert_eq!(parse_quoted("\"\"").unwrap(), "");
}

#[test]
fn test_parse_quoted_failure() {
    assert!(parse_quoted("test\"").is_err());
    assert!(parse_quoted("\"test").is_err());
    assert!(parse_quoted("test").is_err());
}

#[test]
fn test_parse_quoted() {
    assert_eq!(parse_quoted("\"hello world\"").unwrap(), "hello world");
    assert_eq!(parse_quoted("\"héllo wörld\"").unwrap(), "héllo wörld");
    assert_eq!(
        parse_quoted("\"hello \\\"world\\\"\"").unwrap(),
        "hello \"world\""
    );
    assert!(parse_quoted("hello world").is_err());
    assert_eq!(parse_quoted("\"\"").unwrap(), "");
    assert_eq!(parse_quoted("\"a\"").unwrap(), "a");
}

#[test]
fn backslashes_in_quoted_strings() {
    assert_eq!(parse_quoted("\"C:\\run\\x.pid\"").unwrap(), "C:\\run\\x.pid");
    assert_eq!(parse_quoted("\"a\\\\b\"").unwrap(), "a\\\\b");
    assert_eq!(parse_quoted("\"\\\\\"\"").unwrap(), "\\\"");
    assert_eq!(parse_quoted("\"a\\\""), Err(ParseError::MissingQuotedString));
    assert_eq!(parse_quoted("x \"a\" \"b\"").unwrap(), "a");
}

#[test]
fn quoting_is_undone() {
    for text in ["", "plain", "a\"b", "\"\"", "\\\"", "日本 \\ x", "\"日\""] {
        let written = format!("\"{}\"", text.replace('"', "\\\""));
        assert_eq!(parse_quoted(&written).unwrap(), text);
    }
}

#[test]
fn without_backslashes_quoted_is_between_quotes() {
    for text in ["", "a", "\"", "\"a", "a\"b\"c", "\"a\"b\"", "x\"\"y"] {
        assert_eq!(
            parse_quoted(text).ok(),
            between_chars(text, '"', '"').map(|t| t.to_string())
        );
    }
}
