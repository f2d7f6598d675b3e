use fivem_utils::numbers::parse_u16;

#[test]
fn plain_numbers_parse() {
    assert_eq!(parse_u16("0"), Some(0));
    assert_eq!(parse_u16("32"), Some(32));
    assert_eq!(parse_u16("65535"), Some(65535));
}

#[test]
fn a_leading_plus_is_accepted() {
    assert_eq!(parse_u16("+7"), Some(7));
}

#[test]
fn non_numbers_are_rejected() {
    assert_eq!(parse_u16("abc"), None);
    assert_eq!(parse_u16(""), None);
    assert_eq!(parse_u16("+"), None);
    assert_eq!(parse_u16("1 2"), None);
    assert_eq!(parse_u16("-1"), None);
    assert_eq!(parse_u16("3.5"), None);
}

#[test]
fn values_over_sixteen_bits_are_rejected() {
    assert_eq!(parse_u16("65536"), None);
    assert_eq!(parse_u16("999999999999999999999"), None);
}

#[test]
fn leading_zeroes_are_fine() {
    assert_eq!(parse_u16("007"), Some(7));
    assert_eq!(parse_u16("065535"), Some(65535));
}
