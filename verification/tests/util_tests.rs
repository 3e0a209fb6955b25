use hypr_socket_watch::util::{
    extract_after_double_arrow, extract_number_after_double_arrow, parse_payload, ParseError,
};

#[test]
fn payload_with_nul_padding_parses() {
    assert_eq!(parse_payload("workspace>>42\0\0\0"), Ok(42));
    assert_eq!(extract_number_after_double_arrow("workspace>>42\0\0\0"), Some(42));
}

#[test]
fn non_numeric_payload_is_malformed() {
    assert_eq!(parse_payload("workspace>>abc"), Err(ParseError::MalformedPayload));
    assert_eq!(extract_number_after_double_arrow("workspace>>abc"), None);
}

#[test]
fn missing_separator_is_malformed() {
    assert_eq!(parse_payload("workspace 42"), Err(ParseError::MalformedPayload));
    assert_eq!(extract_number_after_double_arrow("workspace"), None);
}

#[test]
fn plain_payload_parses() {
    assert_eq!(parse_payload("workspace>>7"), Ok(7));
}

#[test]
fn whitespace_around_payload_is_trimmed() {
    assert_eq!(parse_payload("  workspace>> 5 "), Ok(5));
    // Trailing whitespace outside the NUL padding is trimmed first.
    assert_eq!(parse_payload("workspace>>5\0 "), Ok(5));
}

#[test]
fn empty_payload_is_malformed() {
    assert_eq!(parse_payload("workspace>>"), Err(ParseError::MalformedPayload));
    assert_eq!(parse_payload("workspace>>   "), Err(ParseError::MalformedPayload));
}

#[test]
fn payload_too_large_for_u32_is_malformed() {
    assert_eq!(parse_payload("workspace>>4294967295"), Ok(u32::MAX));
    assert_eq!(parse_payload("workspace>>4294967296"), Err(ParseError::MalformedPayload));
    assert_eq!(parse_payload("workspace>>99999999999999999999"), Err(ParseError::MalformedPayload));
}

#[test]
fn extract_takes_the_part_after_the_first_separator() {
    assert_eq!(extract_after_double_arrow("workspace>>3"), Some("3".to_string()));
    assert_eq!(extract_after_double_arrow("a>>b>>c"), Some("b>>c".to_string()));
    assert_eq!(extract_after_double_arrow("no separator"), None);
}

#[test]
fn extract_uses_only_the_first_line() {
    assert_eq!(extract_after_double_arrow("workspace>>3\njunk>>9"), Some("3".to_string()));
    assert_eq!(extract_after_double_arrow("plain\nworkspace>>3"), None);
}

#[test]
fn extract_trims_the_segment_before_splitting() {
    assert_eq!(extract_after_double_arrow("  a>>b  "), Some("b".to_string()));
}
