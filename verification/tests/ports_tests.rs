use nrepl_client::ports::parse_port_from_output;

#[test]
fn test_parse_port_from_output() {
    assert_eq!(
        parse_port_from_output(b"nREPL server started on port 7888"),
        Some(7888)
    );
    assert_eq!(
        parse_port_from_output(b"Started nREPL on port 1234 at localhost"),
        Some(1234)
    );
    assert_eq!(parse_port_from_output(b"No port info here"), None);
}

#[test]
fn first_match_wins() {
    assert_eq!(
        parse_port_from_output(b"port 80 then port 90"),
        Some(80)
    );
}

#[test]
fn word_without_digits_is_skipped() {
    assert_eq!(parse_port_from_output(b"port x, then port 7"), Some(7));
}

#[test]
fn out_of_range_port_yields_nothing() {
    assert_eq!(parse_port_from_output(b"on port 65536 now"), None);
    assert_eq!(parse_port_from_output(b"on port 184467440737095516160"), None);
    assert_eq!(parse_port_from_output(b"on port 65535 now"), Some(65535));
}

#[test]
fn leading_zeros_parse() {
    assert_eq!(parse_port_from_output(b"port 007888"), Some(7888));
}

#[test]
fn empty_and_short_lines() {
    assert_eq!(parse_port_from_output(b""), None);
    assert_eq!(parse_port_from_output(b"port "), None);
    assert_eq!(parse_port_from_output(b"port 1"), Some(1));
}
