use bookmerge::fixed::{parse_fixed, FIXED_MAX, FRAC_SCALE};

#[test]
fn parses_integers() {
    assert_eq!(parse_fixed("0"), 0);
    assert_eq!(parse_fixed("1"), FRAC_SCALE);
    assert_eq!(parse_fixed("42"), 42 * FRAC_SCALE);
    assert_eq!(parse_fixed("100"), 100 * FRAC_SCALE);
}

#[test]
fn parses_fractions() {
    assert_eq!(parse_fixed("100.5"), 100 * FRAC_SCALE + 50_000_000);
    assert_eq!(parse_fixed("0.00000001"), 1);
    assert_eq!(parse_fixed("0.1"), 10_000_000);
    assert_eq!(parse_fixed("3.14159265"), 314_159_265);
}

#[test]
fn parses_edge_forms() {
    // a trailing or leading dot is still a decimal number
    assert_eq!(parse_fixed("5."), 5 * FRAC_SCALE);
    assert_eq!(parse_fixed(".5"), 50_000_000);
    // leading zeros carry no weight
    assert_eq!(parse_fixed("007"), 7 * FRAC_SCALE);
    assert_eq!(parse_fixed("0.50"), 50_000_000);
}

#[test]
fn truncates_beyond_eight_fraction_digits() {
    assert_eq!(parse_fixed("0.123456789"), 12_345_678);
    assert_eq!(parse_fixed("1.000000009"), FRAC_SCALE);
}

#[test]
fn rejects_non_decimals_as_zero() {
    assert_eq!(parse_fixed(""), 0);
    assert_eq!(parse_fixed("."), 0);
    assert_eq!(parse_fixed("abc"), 0);
    assert_eq!(parse_fixed("-1"), 0);
    assert_eq!(parse_fixed("+1"), 0);
    assert_eq!(parse_fixed("1e5"), 0);
    assert_eq!(parse_fixed("1.2.3"), 0);
    assert_eq!(parse_fixed("1 "), 0);
    assert_eq!(parse_fixed("NaN"), 0);
}

#[test]
fn range_limit_is_exact() {
    // ten billion whole units is the largest accepted quantity
    assert_eq!(parse_fixed("10000000000"), FIXED_MAX);
    assert_eq!(parse_fixed("10000000001"), 0);
    assert_eq!(parse_fixed("10000000000.00000001"), 0);
    assert_eq!(parse_fixed("9999999999.99999999"), FIXED_MAX - 1);
    assert_eq!(parse_fixed("99999999999999999999999"), 0);
}
