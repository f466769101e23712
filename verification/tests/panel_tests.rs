use beads::panel::{parse_usize, resize_message, Message};

#[test]
fn parse_usize_reads_decimal() {
    assert_eq!(parse_usize("0"), Some(0));
    assert_eq!(parse_usize("123"), Some(123));
    assert_eq!(parse_usize("007"), Some(7));
}

#[test]
fn parse_usize_rejects_bad_input() {
    assert_eq!(parse_usize(""), None);
    assert_eq!(parse_usize("12a"), None);
    assert_eq!(parse_usize("-3"), None);
    assert_eq!(parse_usize(" 4"), None);
    assert_eq!(parse_usize("99999999999999999999999999"), None);
}

#[test]
fn resize_message_builds_a_resize() {
    assert_eq!(resize_message("10", "4"), Some(Message::Resize(10, 4)));
}

#[test]
fn resize_message_fails_when_either_field_is_bad() {
    assert_eq!(resize_message("", "4"), None);
    assert_eq!(resize_message("10", "x"), None);
}

#[test]
fn parse_usize_accepts_one_leading_plus() {
    assert_eq!(parse_usize("+7"), Some(7));
    assert_eq!(parse_usize("+0"), Some(0));
    assert_eq!(parse_usize("+"), None);
    assert_eq!(parse_usize("++1"), None);
    assert_eq!(resize_message("+3", "2"), Some(Message::Resize(3, 2)));
}
