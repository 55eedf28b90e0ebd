use corpl::split::{slice_split, SliceSplit, SliceSplitPredicate, SliceSplitPredicateResult};

fn collect<'a, P: SliceSplitPredicate>(mut it: SliceSplit<'a, P>) -> Vec<&'a [u8]> {
    let mut parts = Vec::new();
    while let Some(p) = it.next() {
        parts.push(p);
    }
    parts
}

#[test]
fn splits_on_and_separator() {
    let parts = collect(slice_split(b"a && b && !c", b" && ".as_slice()));
    assert_eq!(parts, vec![b"a".as_slice(), b"b", b"!c"]);
}

#[test]
fn no_separator_yields_whole_input() {
    let parts = collect(slice_split(b"abc", b" && ".as_slice()));
    assert_eq!(parts, vec![b"abc".as_slice()]);
}

#[test]
fn trailing_separator_yields_empty_final_piece() {
    let parts = collect(slice_split(b"a && ", b" && ".as_slice()));
    assert_eq!(parts, vec![b"a".as_slice(), b""]);
}

#[test]
fn leading_separator_yields_empty_first_piece() {
    let parts = collect(slice_split(b" && a", b" && ".as_slice()));
    assert_eq!(parts, vec![b"".as_slice(), b"a"]);
}

#[test]
fn adjacent_separators_yield_empty_middle_piece() {
    let parts = collect(slice_split(b"x && && y", b" && ".as_slice()));
    // Matching is greedy and non-overlapping: after the first
    // separator the scan resumes at `&& y`, which holds no further
    // separator.
    assert_eq!(parts, vec![b"x".as_slice(), b"&& y"]);
}

#[test]
fn empty_input_yields_one_empty_piece() {
    let parts = collect(slice_split(b"", b" && ".as_slice()));
    assert_eq!(parts, vec![b"".as_slice()]);
}

#[test]
fn empty_pattern_never_matches() {
    let parts = collect(slice_split(b"abc", b"".as_slice()));
    assert_eq!(parts, vec![b"abc".as_slice()]);
}

#[test]
fn exhausted_splitter_stays_exhausted() {
    let mut it = slice_split(b"a,b", b",".as_slice());
    assert_eq!(it.next(), Some(b"a".as_slice()));
    assert_eq!(it.next(), Some(b"b".as_slice()));
    assert_eq!(it.next(), None);
    assert_eq!(it.next(), None);
}

#[test]
fn single_byte_pattern_at_both_ends() {
    let parts = collect(slice_split(b",a,", b",".as_slice()));
    assert_eq!(parts, vec![b"".as_slice(), b"a", b""]);
}

#[test]
fn predicate_result_reports_match_length() {
    let pat: &[u8] = b"--";
    match pat.matches(b"--rest") {
        SliceSplitPredicateResult::Match { length } => assert_eq!(length, 2),
        SliceSplitPredicateResult::Continue => panic!("expected a match"),
    }
    match pat.matches(b"x--") {
        SliceSplitPredicateResult::Continue => {}
        SliceSplitPredicateResult::Match { .. } => panic!("expected no match"),
    }
}
