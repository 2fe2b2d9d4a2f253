use order_book_aggregator::{parse_price, parse_quantity};

#[test]
fn prices_read_in_cents() {
    assert_eq!(parse_price("103123.79"), Some(10_312_379));
    assert_eq!(parse_price("103120"), Some(10_312_000));
    assert_eq!(parse_price("103119.5"), Some(10_311_950));
    assert_eq!(parse_price("0.01"), Some(1));
    assert_eq!(parse_price(".5"), Some(50));
    assert_eq!(parse_price("7."), Some(700));
    assert_eq!(parse_price("1.2300"), Some(123));
}

#[test]
fn quantities_read_in_hundred_millionths() {
    assert_eq!(parse_quantity("0.50608469"), Some(50_608_469));
    assert_eq!(parse_quantity("0.1378704"), Some(13_787_040));
    assert_eq!(parse_quantity("1"), Some(100_000_000));
    assert_eq!(parse_quantity("0.000000010"), Some(1));
    assert_eq!(parse_quantity("0"), Some(0));
}

#[test]
fn malformed_decimals_are_refused() {
    for text in ["", ".", "-1", "+1", "NaN", "inf", "1e5", "1.2.3", " 1", "1 ", "0x10", "1,5"] {
        assert_eq!(parse_price(text), None, "{text:?}");
        assert_eq!(parse_quantity(text), None, "{text:?}");
    }
}

#[test]
fn digits_beyond_the_scale_must_be_zero() {
    assert_eq!(parse_price("1.001"), None);
    assert_eq!(parse_price("1.000"), Some(100));
    assert_eq!(parse_quantity("0.123456789"), None);
}

#[test]
fn values_beyond_u64_are_refused() {
    assert_eq!(parse_price("184467440737095516.15"), Some(u64::MAX));
    assert_eq!(parse_price("184467440737095516.16"), None);
    assert_eq!(parse_quantity("184467440737.09551615"), Some(u64::MAX));
    assert_eq!(parse_quantity("184467440737.09551616"), None);
    assert_eq!(parse_price("99999999999999999999999"), None);
}
