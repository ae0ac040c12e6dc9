use string_encode_and_decode::{decode, encode, DecodeError, DecodeErrorKind};

fn get_simple_test_tuple() -> (Vec<&'static str>, String, String) {
    let input = vec!["hi", "there"];
    (
        input.clone(),
        "\x002\x00hi\x005\x00there".to_owned(),
        encode(input),
    )
}

fn error_kind(r: Result<Vec<String>, DecodeError>) -> DecodeErrorKind {
    match r {
        Ok(v) => panic!("expected an error, decoded {:?}", v),
        Err(e) => e.kind(),
    }
}

#[test]
fn validate_encoding() {
    let (_, expected_encoding, actual_encoding) = get_simple_test_tuple();

    assert_eq!(expected_encoding, actual_encoding);
}

#[test]
fn validate_decoding() {
    let (input, expected_encoding, _) = get_simple_test_tuple();

    assert_eq!(input, decode(&expected_encoding).unwrap());
}

#[test]
fn validate_decoding_encoding() {
    let (input, _, actual_encoding) = get_simple_test_tuple();

    assert_eq!(input, decode(&actual_encoding).unwrap());
}

#[test]
fn validate_encode_with_single_empty_string() {
    let result = encode(vec![""]);
    let mut expected: String = String::with_capacity(3);

    expected.push_str("\x000\x00");

    assert_eq!(expected.len(), 3);
    assert_eq!(result, expected);
}

#[test]
fn validate_decode_with_single_empty_string() {
    let input = vec![""];
    let result = decode(&encode(input.clone())).unwrap();

    assert_eq!(input, result);
}

#[test]
fn empty_sequence_encodes_to_empty_text() {
    assert_eq!(encode(vec![]), "");
    assert_eq!(decode("").unwrap(), Vec::<String>::new());
}

#[test]
fn single_empty_item_decodes_from_literal() {
    assert_eq!(decode("\x000\x00").unwrap(), vec![String::new()]);
}

#[test]
fn round_trip_of_varied_items() {
    let input = vec!["", "a", "\u{e9}t\u{e9}", "\u{1f600} emoji", "", "0123456789", "\x00inside"];
    assert_eq!(decode(&encode(input.clone())).unwrap(), input);
}

#[test]
fn round_trip_of_long_item() {
    let long = "x".repeat(1234);
    let encoded = encode(vec![long.as_str()]);
    assert!(encoded.starts_with("\x001234\x00"));
    assert_eq!(decode(&encoded).unwrap(), vec![long]);
}

#[test]
fn multibyte_length_counts_bytes() {
    assert_eq!(encode(vec!["\u{e9}"]), "\x002\x00\u{e9}");
}

#[test]
fn first_byte_not_sentinel() {
    assert_eq!(error_kind(decode("x")), DecodeErrorKind::SentinelNotFound);
    assert_eq!(error_kind(decode("1\x00a")), DecodeErrorKind::SentinelNotFound);
}

#[test]
fn marker_without_closing_sentinel() {
    assert_eq!(error_kind(decode("\x0012")), DecodeErrorKind::LengthMarkerCorrupt);
    assert_eq!(error_kind(decode("\x00")), DecodeErrorKind::LengthMarkerCorrupt);
    assert_eq!(error_kind(decode("\x001\x00a\x003")), DecodeErrorKind::LengthMarkerCorrupt);
}

#[test]
fn marker_value_overflows() {
    let input = format!("\x00{}\x00", "9".repeat(40));
    assert_eq!(error_kind(decode(&input)), DecodeErrorKind::LengthMarkerCorrupt);
}

#[test]
fn payload_shorter_than_declared() {
    assert_eq!(error_kind(decode("\x003\x00ab")), DecodeErrorKind::Truncated);
}

#[test]
fn payload_longer_than_declared_hits_next_boundary() {
    // The record closes on its last declared byte; the extra byte then stands
    // where the next sentinel was due.
    assert_eq!(error_kind(decode("\x003\x00abcd")), DecodeErrorKind::SentinelNotFound);
}

#[test]
fn non_digit_in_marker() {
    assert_eq!(error_kind(decode("\x00a\x00xyz")), DecodeErrorKind::NonDigitInLengthMarker);
    assert_eq!(error_kind(decode("\x001a\x00x")), DecodeErrorKind::NonDigitInLengthMarker);
}

#[test]
fn content_splits_a_character() {
    let r = decode("\x001\x00\u{e9}");
    assert!(matches!(r, Err(DecodeError::Utf8(_))));
    assert_eq!(error_kind(decode("\x001\x00\u{e9}")), DecodeErrorKind::Utf8);
}

#[test]
fn leading_zeros_in_marker_are_read() {
    assert_eq!(decode("\x0002\x00hi").unwrap(), vec!["hi".to_string()]);
}

#[test]
fn decode_error_messages() {
    let e = decode("x").unwrap_err();
    assert_eq!(e.message(), "Sentinel character not found when expected");
    let e = decode("\x003\x00ab").unwrap_err();
    assert_eq!(e.message(), "String payload cut off before expected length");
    let e = decode("\x001\x00\u{e9}").unwrap_err();
    assert!(e.message().starts_with("UTF-8 Parsing error: "));
    assert!(e.message().len() > "UTF-8 Parsing error: ".len());
}

#[test]
fn utf8_error_converts() {
    let raw = std::str::from_utf8(&[0xffu8]).unwrap_err();
    let e = DecodeError::from(raw);
    assert_eq!(e.kind(), DecodeErrorKind::Utf8);
}
