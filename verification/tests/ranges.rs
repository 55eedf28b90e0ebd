use corpl::ranges::{clamp_to_ranges, parse_ranges, Range, RangeError};

fn strings(items: &[&str]) -> Vec<String> {
    items.iter().map(|s| s.to_string()).collect()
}

#[test]
fn new_and_count() {
    let r = Range::new(3, 7);
    assert_eq!(r.count(), 4);
    let r = Range::new_inclusive(3, 7);
    assert_eq!(r.count(), 5);
    let r = Range::single(9);
    assert_eq!(r.count(), 1);
}

#[test]
fn intersects_is_strict_overlap() {
    let a = Range::new(0, 10);
    assert!(a.intersects(&Range::new(9, 12)));
    assert!(!a.intersects(&Range::new(10, 12)));
    assert!(a.intersects(&Range::new(-5, 1)));
    assert!(!a.intersects(&Range::new(-5, 0)));
}

#[test]
fn from_str_plain() {
    assert_eq!(Range::from_str("3..5"), Ok(Range::new(3, 5)));
    assert_eq!(Range::from_str("  7..11"), Ok(Range::new(7, 11)));
    assert_eq!(Range::from_str("-3..-1"), Ok(Range::new(-3, -1)));
    assert_eq!(Range::from_str("3.. 5"), Ok(Range::new(3, 5)));
}

#[test]
fn from_str_errors() {
    assert_eq!(Range::from_str("5..3"), Err(RangeError::Backwards));
    assert_eq!(Range::from_str("3..3"), Err(RangeError::Backwards));
    assert_eq!(Range::from_str("abc"), Err(RangeError::Syntax));
    assert_eq!(Range::from_str("3..x"), Err(RangeError::Syntax));
    assert_eq!(Range::from_str("3."), Err(RangeError::Syntax));
    assert_eq!(Range::from_str(""), Err(RangeError::Syntax));
    assert_eq!(
        Range::from_str("200000000000000000000000000000000000000000..5"),
        Err(RangeError::InvalidInteger)
    );
}

#[test]
fn from_str_full_i128_bounds() {
    let min = "-170141183460469231731687303715884105728..0";
    assert_eq!(Range::from_str(min), Ok(Range::new(i128::MIN, 0)));
    let over = "-170141183460469231731687303715884105729..0";
    assert_eq!(Range::from_str(over), Err(RangeError::InvalidInteger));
}

#[test]
fn parse_ranges_aliases() {
    let v = parse_ranges(&strings(&["ascii"])).unwrap();
    assert_eq!(v, vec![Range::new(32, 127)]);
    let v = parse_ranges(&strings(&["numbers"])).unwrap();
    assert_eq!(v, vec![Range::new(48, 58)]);
    let v = parse_ranges(&strings(&[" letters "])).unwrap();
    assert_eq!(v, vec![Range::new(65, 91), Range::new(97, 123)]);
    let v = parse_ranges(&strings(&["password"])).unwrap();
    assert_eq!(
        v,
        vec![
            Range::new(33, 34),
            Range::new(35, 38),
            Range::new(39, 42),
            Range::new(43, 59),
            Range::new(63, 124),
            Range::new(125, 127),
        ]
    );
}

#[test]
fn parse_ranges_mixed_and_errors() {
    let v = parse_ranges(&strings(&["ascii", "3..5"])).unwrap();
    assert_eq!(v, vec![Range::new(32, 127), Range::new(3, 5)]);
    assert_eq!(
        parse_ranges(&strings(&["ascii", "5..3"])),
        Err(RangeError::Backwards)
    );
    assert_eq!(
        parse_ranges(&strings(&["nonsense"])),
        Err(RangeError::Syntax)
    );
}

#[test]
fn clamp_walks_ranges_in_order() {
    let ranges = [Range::new(32, 127), Range::new(160, 256)];
    assert_eq!(clamp_to_ranges(0, &ranges), 32);
    assert_eq!(clamp_to_ranges(94, &ranges), 126);
    assert_eq!(clamp_to_ranges(95, &ranges), 160);
    assert_eq!(clamp_to_ranges(190, &ranges), 255);
    assert_eq!(clamp_to_ranges(191, &ranges), -1);
}

#[test]
fn clamp_single_range() {
    let ranges = [Range::new(-5, 5)];
    assert_eq!(clamp_to_ranges(0, &ranges), -5);
    assert_eq!(clamp_to_ranges(9, &ranges), 4);
    assert_eq!(clamp_to_ranges(10, &ranges), -1);
}
