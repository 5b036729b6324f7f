use country_distance::parse::parse_distance_input;
use country_distance::parse::DistanceParseError;

#[test]
fn plain_distance() {
    assert_eq!(parse_distance_input("500"), Ok((500_000u64, 0u64)));
}

#[test]
fn distance_with_margin() {
    assert_eq!(parse_distance_input("500--50"), Ok((500_000u64, 50_000u64)));
}

#[test]
fn fractional_parts() {
    assert_eq!(parse_distance_input("500.5--0.25"), Ok((500_500u64, 250u64)));
}

#[test]
fn zero_distance() {
    assert_eq!(parse_distance_input("0"), Ok((0u64, 0u64)));
}

#[test]
fn trailing_point_is_whole() {
    assert_eq!(parse_distance_input("5."), Ok((5_000u64, 0u64)));
}

#[test]
fn extra_fraction_digits_truncate() {
    assert_eq!(parse_distance_input("12.3456"), Ok((12_345u64, 0u64)));
}

#[test]
fn empty_input_rejected() {
    assert_eq!(parse_distance_input(""), Err(DistanceParseError::BadNumber));
}

#[test]
fn letters_rejected() {
    assert_eq!(parse_distance_input("abc"), Err(DistanceParseError::BadNumber));
}

#[test]
fn negative_rejected() {
    assert_eq!(parse_distance_input("-5"), Err(DistanceParseError::BadNumber));
}

#[test]
fn leading_point_rejected() {
    assert_eq!(parse_distance_input(".5"), Err(DistanceParseError::BadNumber));
}

#[test]
fn double_point_rejected() {
    assert_eq!(parse_distance_input("1.2.3"), Err(DistanceParseError::BadNumber));
}

#[test]
fn bad_margin_reported() {
    assert_eq!(parse_distance_input("500--x"), Err(DistanceParseError::BadNumber));
}

#[test]
fn three_parts_rejected() {
    assert_eq!(parse_distance_input("1--2--3"), Err(DistanceParseError::BadFormat));
}

#[test]
fn too_large_rejected() {
    assert_eq!(
        parse_distance_input("99999999999999999999"),
        Err(DistanceParseError::TooLarge)
    );
}

#[test]
fn largest_value_accepted() {
    assert_eq!(
        parse_distance_input("18446744073709551.615"),
        Ok((u64::MAX, 0u64))
    );
}

#[test]
fn just_past_largest_rejected() {
    assert_eq!(
        parse_distance_input("18446744073709551.616"),
        Err(DistanceParseError::TooLarge)
    );
}
