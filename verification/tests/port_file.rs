use raylet_rs::port_file::{
    next_port_wait_action, parse_i32, parse_port_text, port_file_text, PortRead, PortWaitAction,
};

#[test]
fn port_text_is_the_decimal_numeral() {
    assert_eq!(port_file_text(0), "0");
    assert_eq!(port_file_text(8076), "8076");
    assert_eq!(port_file_text(-12), "-12");
    assert_eq!(port_file_text(i32::MAX), "2147483647");
    assert_eq!(port_file_text(i32::MIN), "-2147483648");
}

#[test]
fn parse_i32_follows_the_standard_grammar() {
    assert_eq!(parse_i32("6379"), Some(6379));
    assert_eq!(parse_i32("+5"), Some(5));
    assert_eq!(parse_i32("-5"), Some(-5));
    assert_eq!(parse_i32("0007"), Some(7));
    assert_eq!(parse_i32("2147483647"), Some(i32::MAX));
    assert_eq!(parse_i32("-2147483648"), Some(i32::MIN));
    assert_eq!(parse_i32("2147483648"), None);
    assert_eq!(parse_i32("-2147483649"), None);
    assert_eq!(parse_i32("99999999999999999999"), None);
    assert_eq!(parse_i32(""), None);
    assert_eq!(parse_i32("-"), None);
    assert_eq!(parse_i32("+"), None);
    assert_eq!(parse_i32("12a"), None);
    assert_eq!(parse_i32(" 12"), None);
    assert_eq!(parse_i32("--1"), None);
    for text in ["17", "-3", "+0", "123456", "x"] {
        assert_eq!(parse_i32(text), text.parse::<i32>().ok());
    }
}

#[test]
fn port_text_ignores_surrounding_white_space() {
    assert_eq!(parse_port_text(" 6379\n"), Some(6379));
    assert_eq!(parse_port_text("\t-1 "), Some(-1));
    assert_eq!(parse_port_text("63 79"), None);
}

#[test]
fn written_port_reads_back() {
    for port in [0, 1, 9, 10, 6379, 65535, -1, i32::MAX, i32::MIN] {
        assert_eq!(parse_port_text(&port_file_text(port)), Some(port));
    }
}

#[test]
fn waiting_for_a_port_file() {
    let found = next_port_wait_action(&PortRead::Contents("8076\n".to_string()), false);
    assert_eq!(found, PortWaitAction::Found(8076));
    let late = next_port_wait_action(&PortRead::Contents("8076".to_string()), true);
    assert_eq!(late, PortWaitAction::Found(8076));
    let bad = next_port_wait_action(&PortRead::Contents("port".to_string()), false);
    assert_eq!(bad, PortWaitAction::InvalidValue);
    assert_eq!(next_port_wait_action(&PortRead::Missing, false), PortWaitAction::Retry);
    assert_eq!(next_port_wait_action(&PortRead::Missing, true), PortWaitAction::TimedOut);
    assert_eq!(next_port_wait_action(&PortRead::Failed, false), PortWaitAction::ReadFailed);
}
