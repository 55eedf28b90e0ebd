use corpl::args::ArgumentMissing;
use corpl::bytes::{
    bytes_eq, first_non_whitespace, get_last, get_line_ending, get_lines, is_whitespace,
    last_non_whitespace, match_at, starts_with, trim,
};

#[test]
fn whitespace_bytes() {
    assert!(is_whitespace(b' '));
    assert!(is_whitespace(b'\t'));
    assert!(is_whitespace(b'\n'));
    assert!(is_whitespace(b'\r'));
    assert!(is_whitespace(11));
    assert!(is_whitespace(12));
    assert!(!is_whitespace(b'a'));
    assert!(!is_whitespace(b'#'));
}

#[test]
fn trim_and_bounds() {
    assert_eq!(trim(b"  a b  "), b"a b");
    assert_eq!(trim(b"ab"), b"ab");
    assert_eq!(trim(b"   "), b"");
    assert_eq!(trim(b""), b"");
    assert_eq!(first_non_whitespace(b"  x"), 2);
    assert_eq!(first_non_whitespace(b"   "), 0);
    assert_eq!(last_non_whitespace(b"x  "), 1);
    assert_eq!(last_non_whitespace(b"   "), 0);
}

#[test]
fn byte_equality_and_prefixes() {
    assert!(bytes_eq(b"abc", b"abc"));
    assert!(!bytes_eq(b"abc", b"abd"));
    assert!(!bytes_eq(b"abc", b"ab"));
    assert!(starts_with(b"abc", b"ab"));
    assert!(!starts_with(b"abc", b"bc"));
    assert!(starts_with(b"abc", b""));
    assert!(match_at(b"xabc", b"ab", 1));
    assert!(!match_at(b"xabc", b"ab", 2));
    assert!(!match_at(b"xabc", b"ab", 4));
}

#[test]
fn last_marker_occurrence() {
    assert_eq!(get_last(b"a # one # two", b"#"), Some(b"two".as_slice()));
    assert_eq!(get_last(b"no marker here", b"#"), None);
    // The marker must be followed by a space.
    assert_eq!(get_last(b"x #tight", b"#"), None);
    assert_eq!(get_last(b"# ", b"#"), Some(b"".as_slice()));
}

#[test]
fn line_ending_detection() {
    assert_eq!(get_line_ending(b"a\nb"), b"\n");
    assert_eq!(get_line_ending(b"a\r\nb"), b"\r\n");
    assert_eq!(get_line_ending(b"plain"), b"\n");
    assert_eq!(get_line_ending(b""), b"\n");
    // The first terminator byte decides.
    assert_eq!(get_line_ending(b"a\nb\r\nc"), b"\n");
}

#[test]
fn line_splitting() {
    let lines = get_lines(b"a\nbc\n");
    assert_eq!(lines, vec![b"a".to_vec(), b"bc".to_vec()]);
    let lines = get_lines(b"a\r\nbc\r\n");
    assert_eq!(lines, vec![b"a".to_vec(), b"bc".to_vec()]);
    let lines = get_lines(b"no newline");
    assert_eq!(lines, vec![b"no newline".to_vec()]);
    let lines = get_lines(b"");
    assert!(lines.is_empty());
    let lines = get_lines(b"\n\n");
    assert_eq!(lines, vec![b"".to_vec(), b"".to_vec()]);
}

#[test]
fn argument_missing_keeps_brief() {
    let a = ArgumentMissing::new("Supply at least one file.");
    assert_eq!(a.brief(), "Supply at least one file.");
}
