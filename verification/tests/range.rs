use rust_fm::range::Range;

#[test]
fn test_range_new() {
    let range = Range::new(0, 5);

    assert_eq!(range.start, 0);
    assert_eq!(range.end, 5);
    assert_eq!(range.empty(), false);
}

#[test]
fn test_range_empty() {
    let range = Range::new(0, 0);

    assert_eq!(range.start, 0);
    assert_eq!(range.end, 0);
    assert_eq!(range.empty(), true);
}

#[test]
fn test_range_width() {
    assert_eq!(Range::new(3, 9).width(), 6);
    assert_eq!(Range::new(9, 3).width(), 0);
}
