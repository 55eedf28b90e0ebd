use corpl::engine::{process_bytes, Comment, ProcessError, Warning};

fn set(items: &[&str]) -> Vec<Vec<u8>> {
    items.iter().map(|s| s.as_bytes().to_vec()).collect()
}

fn run(
    config: &str,
    comment: Option<Comment>,
    enabled: &[&str],
    disabled: &[&str],
    keep: bool,
    max_comment_len: Option<usize>,
) -> Result<(Vec<u8>, Vec<Warning>), ProcessError> {
    let out = process_bytes(
        config.as_bytes(),
        &comment,
        &set(enabled),
        &set(disabled),
        keep,
        max_comment_len,
    )?;
    Ok((out.output, out.warnings))
}

#[test]
fn option_enabled_uncomments() {
    let (out, warnings) = run(
        "# CORPL option foo\n# secret=1\n# CORPL end\n",
        None,
        &["foo"],
        &[],
        false,
        Some(4),
    )
    .unwrap();
    assert_eq!(out, b"# CORPL option foo\nsecret=1\n# CORPL end\n");
    assert!(warnings.is_empty());
}

#[test]
fn option_disabled_comments() {
    let (out, _) = run(
        "# CORPL option foo\nsecret=1\n# CORPL end\n",
        None,
        &[],
        &[],
        false,
        Some(4),
    )
    .unwrap();
    assert_eq!(out, b"# CORPL option foo\n# secret=1\n# CORPL end\n");
}

#[test]
fn section_deactivates_unmatched_line() {
    // The line equals the section's replacement text, so deactivation
    // replaces it whole with the comment marker and a space.
    let (out, _) = run(
        "// CORPL section port=80\nport=80\n// CORPL end\n",
        None,
        &[],
        &[],
        false,
        Some(4),
    )
    .unwrap();
    assert_eq!(out, b"// CORPL section port=80\n// \n// CORPL end\n");
}

#[test]
fn section_toggles_by_trailing_identifier() {
    let input = "# CORPL section domain=\ndomain=example.com # a\n# icelk.dev # b\n# CORPL end\n";
    let (out, _) = run(input, None, &["b"], &[], false, Some(4)).unwrap();
    assert_eq!(
        out,
        b"# CORPL section domain=\n# example.com # a\ndomain=icelk.dev # b\n# CORPL end\n"
    );
}

#[test]
fn unresolvable_marker_too_long() {
    let r = run("%%config%%\ndata\n", None, &[], &[], false, Some(4));
    assert_eq!(r.unwrap_err(), ProcessError::CommentUnresolvable);
}

#[test]
fn semicolon_first_line_is_a_conventional_marker() {
    // A file beginning with `;` resolves the conventional `;` marker
    // before any length bound applies, so an eleven-byte first line
    // still processes.
    let (out, warnings) = run(";;config;;\n", None, &[], &[], false, Some(4)).unwrap();
    assert_eq!(out, b";;config;;\n");
    assert!(warnings.is_empty());
}

#[test]
fn unresolvable_marker_empty_file() {
    let r = run("", None, &[], &[], false, Some(4));
    assert_eq!(r.unwrap_err(), ProcessError::CommentUnresolvable);
}

#[test]
fn keep_mode_explicit_disable_wins() {
    let (out, _) = run(
        "# CORPL option foo\nsecret=1\n# CORPL end\n",
        None,
        &[],
        &["foo"],
        true,
        Some(4),
    )
    .unwrap();
    assert_eq!(out, b"# CORPL option foo\n# secret=1\n# CORPL end\n");
}

#[test]
fn keep_mode_unknown_leaves_lines_alone() {
    let input = "# CORPL option foo\nsecret=1\n# CORPL end\n# CORPL option bar\n# other=2\n# CORPL end\n";
    let (out, _) = run(input, None, &[], &[], true, Some(4)).unwrap();
    assert_eq!(out.as_slice(), input.as_bytes());
}

#[test]
fn negated_identifier_enabled_comments() {
    let (out, _) = run(
        "# CORPL option !foo\ndata=1\n# CORPL end\n",
        None,
        &["foo"],
        &[],
        false,
        Some(4),
    )
    .unwrap();
    assert_eq!(out, b"# CORPL option !foo\n# data=1\n# CORPL end\n");
}

#[test]
fn negated_identifier_disabled_uncomments() {
    let (out, _) = run(
        "# CORPL option !foo\n# data=1\n# CORPL end\n",
        None,
        &[],
        &["foo"],
        true,
        Some(4),
    )
    .unwrap();
    assert_eq!(out, b"# CORPL option !foo\ndata=1\n# CORPL end\n");
}

#[test]
fn conjunction_requires_all() {
    let (out, _) = run(
        "# CORPL option a && b\n# x=1\n# CORPL end\n",
        None,
        &["a"],
        &[],
        false,
        Some(4),
    )
    .unwrap();
    // `b` is not enabled, so the expression is unsatisfied.
    assert_eq!(out, b"# CORPL option a && b\n# x=1\n# CORPL end\n");
    let (out, _) = run(
        "# CORPL option a && b\n# x=1\n# CORPL end\n",
        None,
        &["a", "b"],
        &[],
        false,
        Some(4),
    )
    .unwrap();
    assert_eq!(out, b"# CORPL option a && b\nx=1\n# CORPL end\n");
}

#[test]
fn all_unknown_identifiers_leave_lines_unchanged() {
    let input = "# CORPL option a && !b\n# x=1\ny=2\n# CORPL end\n";
    let (out, _) = run(input, None, &[], &["c"], true, Some(4)).unwrap();
    assert_eq!(out.as_slice(), input.as_bytes());
}

#[test]
fn crlf_style_is_preserved() {
    let (out, _) = run(
        "# CORPL option foo\r\n# secret=1\r\n# CORPL end\r\n",
        None,
        &["foo"],
        &[],
        false,
        Some(4),
    )
    .unwrap();
    assert_eq!(out, b"# CORPL option foo\r\nsecret=1\r\n# CORPL end\r\n");
}

#[test]
fn mixed_endings_become_uniform() {
    // The first terminator decides; every output line then uses it.
    let (out, warnings) = run("a\nb\r\nc\n", None, &[], &[], false, None).unwrap();
    assert_eq!(out, b"a\nb\nc\n");
    assert_eq!(warnings, vec![Warning::UncommonComment]);
}

#[test]
fn running_twice_changes_nothing_more() {
    let input = "# CORPL option foo\n# secret=1\n# CORPL end\n# CORPL option bar\nloud=1\n# CORPL end\n";
    let first = run(input, None, &["foo"], &[], false, Some(4)).unwrap().0;
    let second = run(
        std::str::from_utf8(&first).unwrap(),
        None,
        &["foo"],
        &[],
        false,
        Some(4),
    )
    .unwrap()
    .0;
    assert_eq!(first, second);
}

#[test]
fn closing_marker_round_trip() {
    let comment = Comment::maybe_whole(Some(b"/*".to_vec()), Some(b"*/".to_vec())).unwrap();
    let input = "/* CORPL option foo */\ndata=1\n/* CORPL end */\n";
    let (out, _) = run(input, Some(comment.clone()), &[], &[], false, Some(4)).unwrap();
    assert_eq!(out, b"/* CORPL option foo */\n/* data=1 */\n/* CORPL end */\n");
    let (back, _) = run(
        std::str::from_utf8(&out).unwrap(),
        Some(comment),
        &["foo"],
        &[],
        false,
        Some(4),
    )
    .unwrap();
    assert_eq!(back.as_slice(), input.as_bytes());
}

#[test]
fn section_with_closing_marker_warns_and_skips() {
    let comment = Comment::maybe_whole(Some(b"/*".to_vec()), Some(b"*/".to_vec())).unwrap();
    let input = "/* CORPL section x */\ny=1\n/* CORPL end */\n";
    let (out, warnings) = run(input, Some(comment), &[], &[], false, Some(4)).unwrap();
    // The section text is everything after `section `, closing echo
    // included; the warning fires and the data line passes through.
    assert_eq!(out.as_slice(), input.as_bytes());
    assert!(warnings.contains(&Warning::SectionWithClosingComment));
}

#[test]
fn section_verb_needs_text_after_trimming() {
    // The trailing space of `section ` is trimmed away, so no verb
    // matches and the line is ordinary data.
    let input = "# CORPL section \ndata\n# CORPL end\n";
    let (out, warnings) = run(input, None, &[], &[], false, Some(4)).unwrap();
    assert_eq!(out.as_slice(), input.as_bytes());
    assert!(warnings.is_empty());
}

#[test]
fn missing_section_text_warns_and_leaves_line() {
    let input = "# CORPL section port=\nother-line\n# CORPL end\n";
    let (out, warnings) = run(input, None, &[], &[], false, Some(4)).unwrap();
    assert_eq!(out.as_slice(), input.as_bytes());
    assert_eq!(warnings, vec![Warning::SectionTextNotFound]);
}

#[test]
fn uncommon_marker_is_used_with_warning() {
    let input = "%%\n%% CORPL option foo\n%% x=1\n%% CORPL end\n";
    let (out, warnings) = run(input, None, &["foo"], &[], false, Some(4)).unwrap();
    assert_eq!(out, b"%%\n%% CORPL option foo\nx=1\n%% CORPL end\n");
    assert_eq!(warnings, vec![Warning::UncommonComment]);
}

#[test]
fn supplied_marker_is_used_when_no_conventional_one() {
    let comment = Comment::maybe_whole(Some(b"--".to_vec()), None).unwrap();
    let input = "-- CORPL option foo\n-- x=1\n-- CORPL end\n";
    let (out, warnings) = run(input, Some(comment), &["foo"], &[], false, Some(4)).unwrap();
    assert_eq!(out, b"-- CORPL option foo\nx=1\n-- CORPL end\n");
    assert!(warnings.is_empty());
}

#[test]
fn directive_text_without_verb_passes_through() {
    let input = "# CORPL nonsense\ndata\n";
    let (out, _) = run(input, None, &[], &[], false, Some(4)).unwrap();
    assert_eq!(out.as_slice(), input.as_bytes());
}

#[test]
fn file_without_trailing_newline_gains_one() {
    let (out, _) = run("# CORPL option foo\n# x=1\n# CORPL end", None, &["foo"], &[], false, Some(4))
        .unwrap();
    assert_eq!(out, b"# CORPL option foo\nx=1\n# CORPL end\n");
}

#[test]
fn comment_accessors_round_trip() {
    let c = Comment::maybe_whole(Some(b"#".to_vec()), Some(b"!".to_vec())).unwrap();
    assert_eq!(c.open(), b"#");
    assert_eq!(c.close(), Some(b"!".as_slice()));
    assert!(Comment::maybe_whole(None, Some(b"!".to_vec())).is_none());
}
