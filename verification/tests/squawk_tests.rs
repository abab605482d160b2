use beast::squawk::parse_number;

#[test]
fn test_parse_single_number() {
    assert_eq!(parse_number("7700"), vec![7700]);
}

#[test]
fn test_parse_single_number_trailing_dots() {
    assert_eq!(parse_number("123.."), vec![123]);
}

#[test]
fn test_parse_range_is_half_open() {
    assert_eq!(parse_number("100-105"), vec![100, 101, 102, 103, 104]);
}

#[test]
fn test_parse_range_trailing_dot() {
    assert_eq!(parse_number("0-3."), vec![0, 1, 2]);
}

#[test]
fn test_parse_reversed_range_is_empty() {
    assert_eq!(parse_number("10-5"), Vec::<i32>::new());
}

#[test]
fn test_parse_equal_bounds_is_empty() {
    assert_eq!(parse_number("7-7"), Vec::<i32>::new());
}

#[test]
fn test_parse_large_value() {
    assert_eq!(parse_number("2147483647"), vec![2147483647]);
}
