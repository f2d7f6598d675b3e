use fivem_utils::pretty::{hostname_segments, mask_secret};

#[test]
fn short_secrets_are_fully_masked() {
    assert_eq!(mask_secret(""), "");
    assert_eq!(mask_secret("abc"), "***");
    assert_eq!(mask_secret("abcdefg"), "*******");
}

#[test]
fn long_secrets_show_their_last_four_characters() {
    assert_eq!(mask_secret("abcdefgh"), "****efgh");
    assert_eq!(mask_secret("hunter2hunter2"), "**********ter2");
}

#[test]
fn a_plain_hostname_is_one_white_segment() {
    let segs = hostname_segments("My Server").unwrap();
    assert_eq!(segs, vec![(0u8, "My Server".to_string())]);
}

#[test]
fn caret_codes_split_the_hostname_into_coloured_segments() {
    let segs = hostname_segments("^1Red^2Green").unwrap();
    assert_eq!(
        segs,
        vec![
            (0u8, "".to_string()),
            (1u8, "Red".to_string()),
            (2u8, "Green".to_string()),
        ]
    );
}

#[test]
fn the_colour_in_force_carries_to_the_tail() {
    let segs = hostname_segments("a^3b").unwrap();
    assert_eq!(segs, vec![(0u8, "a".to_string()), (3u8, "b".to_string())]);
}

#[test]
fn a_non_digit_after_a_caret_is_invalid() {
    assert_eq!(hostname_segments("bad^xname"), None);
}

#[test]
fn a_trailing_caret_keeps_the_current_colour() {
    let segs = hostname_segments("abc^").unwrap();
    assert_eq!(segs, vec![(0u8, "abc".to_string()), (0u8, "".to_string())]);
}
