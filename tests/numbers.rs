use probation_check::decimal::{average, decimal_string, parse_decimal, product, Decimal, INPUT_LIMIT, INPUT_SCALE, VALUE_LIMIT, VALUE_SCALE};

fn d(mantissa: i128, scale: u32) -> Decimal {
    Decimal { mantissa, scale }
}

fn strings(cells: &[&str]) -> Vec<String> {
    cells.iter().map(|c| c.to_string()).collect()
}

#[test]
fn parses_plain_and_signed_numbers() {
    assert_eq!(parse_decimal("8", INPUT_LIMIT, INPUT_SCALE), Some(d(8, 0)));
    assert_eq!(parse_decimal("-2.50", INPUT_LIMIT, INPUT_SCALE), Some(d(-250, 2)));
    assert_eq!(parse_decimal("+3", INPUT_LIMIT, INPUT_SCALE), Some(d(3, 0)));
    assert_eq!(parse_decimal("007.5", INPUT_LIMIT, INPUT_SCALE), Some(d(75, 1)));
    assert_eq!(parse_decimal(".5", INPUT_LIMIT, INPUT_SCALE), Some(d(5, 1)));
    assert_eq!(parse_decimal("5.", INPUT_LIMIT, INPUT_SCALE), Some(d(5, 0)));
}

#[test]
fn parses_exponents() {
    assert_eq!(parse_decimal("1e3", INPUT_LIMIT, INPUT_SCALE), Some(d(1000, 0)));
    assert_eq!(parse_decimal("2E-1", INPUT_LIMIT, INPUT_SCALE), Some(d(2, 1)));
    assert_eq!(parse_decimal("-1.5e-3", INPUT_LIMIT, INPUT_SCALE), Some(d(-15, 4)));
    assert_eq!(parse_decimal("1.25e+1", INPUT_LIMIT, INPUT_SCALE), Some(d(125, 1)));
    assert_eq!(parse_decimal(".5e1", INPUT_LIMIT, INPUT_SCALE), Some(d(5, 0)));
    assert_eq!(parse_decimal("0e99999999999999999999999999999999999999999", INPUT_LIMIT, INPUT_SCALE), Some(d(0, 0)));
    assert_eq!(parse_decimal("1e17", INPUT_LIMIT, INPUT_SCALE), Some(d(100_000_000_000_000_000, 0)));
    assert_eq!(parse_decimal("1e18", INPUT_LIMIT, INPUT_SCALE), None);
    assert_eq!(parse_decimal("1e99999999999999999999999999999999999999999", INPUT_LIMIT, INPUT_SCALE), None);
    assert_eq!(parse_decimal("1e-9", INPUT_LIMIT, INPUT_SCALE), Some(d(1, 9)));
    assert_eq!(parse_decimal("1e-10", INPUT_LIMIT, INPUT_SCALE), None);
}

#[test]
fn rejects_what_is_not_a_number() {
    for s in ["", "abc", ".", "1.2.3", "-", "+-1", " 1", "1,5", "e5", "1e", "1e+", "1e1.5", "1ee2", "inf", "NaN"] {
        assert_eq!(parse_decimal(s, INPUT_LIMIT, INPUT_SCALE), None, "{}", s);
    }
}

#[test]
fn rejects_numbers_out_of_bounds() {
    assert_eq!(parse_decimal("999999999999999999", INPUT_LIMIT, INPUT_SCALE), Some(d(999_999_999_999_999_999, 0)));
    assert_eq!(parse_decimal("1000000000000000000", INPUT_LIMIT, INPUT_SCALE), None);
    assert_eq!(parse_decimal("0.123456789", INPUT_LIMIT, INPUT_SCALE), Some(d(123_456_789, 9)));
    assert_eq!(parse_decimal("0.1234567890", INPUT_LIMIT, INPUT_SCALE), None);
    assert_eq!(parse_decimal("0.1234567890", VALUE_LIMIT, VALUE_SCALE), Some(d(1_234_567_890, 10)));
}

#[test]
fn writes_numbers_with_their_scale() {
    assert_eq!(decimal_string(d(16, 0)), "16");
    assert_eq!(decimal_string(d(-5, 2)), "-0.05");
    assert_eq!(decimal_string(d(1234, 3)), "1.234");
    assert_eq!(decimal_string(d(0, 2)), "0.00");
    assert_eq!(decimal_string(d(-250, 2)), "-2.50");
}

#[test]
fn product_is_exact() {
    assert_eq!(product(d(8, 0), d(2, 0)), d(16, 0));
    assert_eq!(product(d(5, 1), d(3, 0)), d(15, 1));
    assert_eq!(product(d(-25, 1), d(25, 2)), d(-625, 3));
    assert_eq!(decimal_string(product(d(-25, 1), d(25, 2))), "-0.625");
}

#[test]
fn averages_round_to_four_decimals() {
    assert_eq!(average(&strings(&["16"])), Some("16.0".to_string()));
    assert_eq!(average(&strings(&["1", "2"])), Some("1.5".to_string()));
    assert_eq!(average(&strings(&["1", "2", "2"])), Some("1.666666666666666667".to_string()));
    assert_eq!(average(&strings(&["2", "3", "3"])), Some("2.666666666666666667".to_string()));
    assert_eq!(average(&strings(&["1", "1", "2"])), Some("1.333333333333333333".to_string()));
    assert_eq!(average(&strings(&["-1", "-2"])), Some("-1.5".to_string()));
    assert_eq!(average(&strings(&["0.00005"])), Some("0.00005".to_string()));
    assert_eq!(average(&strings(&["-0.00005"])), Some("-0.00005".to_string()));
    assert_eq!(average(&strings(&["0.000000000000000001", "0"])), Some("0.000000000000000001".to_string()));
    assert_eq!(average(&strings(&["-0.000000000000000001", "0", "0"])), Some("0.0".to_string()));
    assert_eq!(average(&strings(&["1e1", "5e-1"])), Some("5.25".to_string()));
    assert_eq!(average(&strings(&["2.5", "2.50"])), Some("2.5".to_string()));
    assert_eq!(average(&strings(&["10", "0.25"])), Some("5.125".to_string()));
}

#[test]
fn average_needs_numbers_within_bounds() {
    assert_eq!(average(&[]), None);
    assert_eq!(average(&strings(&["1", "x"])), None);
    assert_eq!(average(&strings(&["0.0000000000000000001"])), None);
    assert_eq!(average(&strings(&["1000000000000000000"])), Some("1000000000000000000.0".to_string()));
    assert_eq!(average(&strings(&["1000000000000000000", "1"])), None);
    assert_eq!(average(&strings(&["1000000000000000000", "-1000000000000000000"])), None);
}

#[test]
fn average_ignores_order() {
    let a = average(&strings(&["1", "2.5", "4", "7"]));
    let b = average(&strings(&["7", "4", "1", "2.5"]));
    assert_eq!(a, Some("3.625".to_string()));
    assert_eq!(a, b);
}
