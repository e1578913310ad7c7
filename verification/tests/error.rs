use ber_encoding::BerError;
use std::io;

#[test]
fn test_display_io_error() {
    let io_err = io::Error::new(io::ErrorKind::UnexpectedEof, "test");
    let err = BerError::from(io_err);
    assert!(err.to_string().contains("IO error"));
}

#[test]
fn test_display_invalid_tag() {
    let err = BerError::InvalidTag;
    assert_eq!(err.to_string(), "Invalid BER tag encoding");
}

#[test]
fn test_display_invalid_length() {
    let err = BerError::InvalidLength;
    assert_eq!(err.to_string(), "Invalid BER length encoding");
}

#[test]
fn test_display_unexpected_eof() {
    let err = BerError::UnexpectedEof;
    assert_eq!(err.to_string(), "Unexpected end of input");
}

#[test]
fn test_display_invalid_value() {
    let err = BerError::InvalidValue("test message".to_string());
    assert_eq!(err.to_string(), "Invalid value: test message");
}

#[test]
fn test_display_invalid_tag_number() {
    let err = BerError::InvalidTagNumber;
    assert_eq!(err.to_string(), "Invalid tag number");
}

#[test]
fn test_display_invalid_length_encoding() {
    let err = BerError::InvalidLengthEncoding;
    assert_eq!(err.to_string(), "Invalid length encoding");
}

#[test]
fn test_display_tag_mismatch() {
    let err = BerError::TagMismatch {
        expected: 5,
        found: 10,
    };
    assert_eq!(err.to_string(), "Tag mismatch: expected 5, found 10");
}

#[test]
fn test_error_source() {
    let io_err = io::Error::new(io::ErrorKind::UnexpectedEof, "test");
    let err = BerError::from(io_err);
    assert!(err.source().is_some());

    let err = BerError::InvalidTag;
    assert!(err.source().is_none());
}

#[test]
fn io_error_message_carries_the_io_text() {
    let err = BerError::from(io::Error::new(io::ErrorKind::Other, "disk on fire"));
    assert_eq!(err.to_string(), "IO error: disk on fire");
    assert_eq!(err.source().unwrap().kind(), io::ErrorKind::Other);
}

#[test]
fn tag_mismatch_renders_all_digit_counts() {
    let err = BerError::TagMismatch {
        expected: 0,
        found: 255,
    };
    assert_eq!(err.to_string(), "Tag mismatch: expected 0, found 255");
    let err = BerError::TagMismatch {
        expected: 100,
        found: 9,
    };
    assert_eq!(err.to_string(), "Tag mismatch: expected 100, found 9");
}

#[test]
fn invalid_value_with_empty_message() {
    let err = BerError::InvalidValue(String::new());
    assert_eq!(err.to_string(), "Invalid value: ");
}
