use corpl::escape::{parse_escaped, EscapeError};

#[test]
fn plain_text_passes_through() {
    assert_eq!(parse_escaped("hello world"), Ok("hello world".to_string()));
    assert_eq!(parse_escaped(""), Ok(String::new()));
}

#[test]
fn simple_escapes() {
    assert_eq!(parse_escaped("a\\nb"), Ok("a\nb".to_string()));
    assert_eq!(parse_escaped("\\t"), Ok("\t".to_string()));
    assert_eq!(parse_escaped("\\r"), Ok("\r".to_string()));
    assert_eq!(parse_escaped("\\\\"), Ok("\\".to_string()));
    assert_eq!(parse_escaped("\\0"), Ok("\0".to_string()));
    assert_eq!(parse_escaped("\\'"), Ok("'".to_string()));
    assert_eq!(parse_escaped("\\\""), Ok("\"".to_string()));
}

#[test]
fn hex_escape() {
    assert_eq!(parse_escaped("\\x41"), Ok("A".to_string()));
    assert_eq!(parse_escaped("\\x0a"), Ok("\n".to_string()));
    assert_eq!(parse_escaped("\\xfF"), Ok("\u{ff}".to_string()));
}

#[test]
fn hex_escape_errors() {
    assert_eq!(parse_escaped("\\x4"), Err(EscapeError::InvalidCharacter));
    assert_eq!(parse_escaped("\\xg1"), Err(EscapeError::InvalidCharacter));
    assert_eq!(parse_escaped("\\x"), Err(EscapeError::InvalidCharacter));
}

#[test]
fn unicode_escape() {
    assert_eq!(parse_escaped("\\u{41}"), Ok("A".to_string()));
    assert_eq!(parse_escaped("\\u{1F600}"), Ok("\u{1F600}".to_string()));
    assert_eq!(parse_escaped("\\u{10FFFF}"), Ok("\u{10FFFF}".to_string()));
    assert_eq!(parse_escaped("x\\u{df}y"), Ok("x\u{df}y".to_string()));
}

#[test]
fn unicode_escape_errors() {
    assert_eq!(parse_escaped("\\u{D800}"), Err(EscapeError::InvalidCharacter));
    assert_eq!(parse_escaped("\\u{}"), Err(EscapeError::InvalidCharacter));
    assert_eq!(parse_escaped("\\u{1234567}"), Err(EscapeError::InvalidCharacter));
    assert_eq!(parse_escaped("\\u{12"), Err(EscapeError::InvalidCharacter));
    assert_eq!(parse_escaped("\\u41"), Err(EscapeError::InvalidCharacter));
    assert_eq!(parse_escaped("\\u"), Err(EscapeError::InvalidCharacter));
}

#[test]
fn unknown_escape_is_reported() {
    assert_eq!(parse_escaped("\\q"), Err(EscapeError::InvalidEscape));
    assert_eq!(parse_escaped("tail\\"), Err(EscapeError::InvalidEscape));
}

#[test]
fn escapes_mix_with_text() {
    assert_eq!(
        parse_escaped("a\\tb\\x21c\\u{2713}"),
        Ok("a\tb!c\u{2713}".to_string())
    );
}
