use sunny_db::decimal::{parse_u64_dec, u64_to_dec_string};

#[test]
fn renders_decimals_canonically() {
    assert_eq!(u64_to_dec_string(0), "0");
    assert_eq!(u64_to_dec_string(7), "7");
    assert_eq!(u64_to_dec_string(10), "10");
    assert_eq!(u64_to_dec_string(1717113600000), "1717113600000");
    assert_eq!(u64_to_dec_string(u64::MAX), "18446744073709551615");
}

#[test]
fn parses_digit_strings() {
    assert_eq!(parse_u64_dec("0"), Some(0));
    assert_eq!(parse_u64_dec("007"), Some(7));
    assert_eq!(parse_u64_dec("1717113600000"), Some(1717113600000));
    assert_eq!(parse_u64_dec("18446744073709551615"), Some(u64::MAX));
    // one past u64::MAX overflows
    assert_eq!(parse_u64_dec("18446744073709551616"), None);
    assert_eq!(parse_u64_dec(""), None);
    assert_eq!(parse_u64_dec("12a"), None);
    assert_eq!(parse_u64_dec("-5"), None);
    assert_eq!(parse_u64_dec("+5"), None);
    assert_eq!(parse_u64_dec("1 2"), None);
}

#[test]
fn render_then_parse_is_identity() {
    for n in [0u64, 1, 9, 10, 99, 100, 12345, 1717154113550, u64::MAX] {
        assert_eq!(parse_u64_dec(&u64_to_dec_string(n)), Some(n));
    }
}
