//! Error behaviour on malformed, truncated, empty and oversized input.

use c2pa_cbor::{from_slice, Error, Value};

#[test]
fn test_invalid_cbor_trailing_bytes() {
    // The first byte (0x0d = 13) is a valid CBOR integer, but the rest
    // is trailing garbage
    let invalid_bytes = vec![0x0d, 0x0e, 0x0a, 0x0d, 0x0b, 0x0e, 0x0e, 0x0f];

    let result = from_slice(&invalid_bytes);
    assert!(result.is_err(), "Should fail on trailing bytes");
    assert_eq!(result, Err(Error::TrailingData));
}

#[test]
fn test_empty_input() {
    let empty_bytes: Vec<u8> = vec![];
    let result = from_slice(&empty_bytes);
    assert!(result.is_err(), "Should fail on empty input");
    assert_eq!(result, Err(Error::EmptyInput));
}

#[test]
fn test_incomplete_cbor() {
    // Start of an array but incomplete
    let incomplete = vec![0x85]; // array of 5 elements, but no elements follow

    let result = from_slice(&incomplete);
    assert!(result.is_err(), "Should fail on incomplete CBOR");
}

#[test]
fn test_valid_cbor_all_bytes_consumed() {
    // Valid integer should consume exactly 1 byte
    let valid = vec![0x0d]; // integer 13
    let result = from_slice(&valid);
    assert!(result.is_ok(), "Should succeed on valid CBOR");
    assert_eq!(result.unwrap(), Value::Integer(13));
}

#[test]
fn test_trailing_byte_after_integer() {
    // One extra trailing byte after a complete integer
    assert_eq!(from_slice(&[0x01, 0x00]), Err(Error::TrailingData));
}

#[test]
fn test_eof_on_claimed_elements() {
    // An array header claiming 5 elements with zero following bytes
    assert_eq!(from_slice(&[0x85]), Err(Error::Eof));
}

#[test]
fn test_eof_truncated_payloads() {
    // Byte string claiming 4 bytes with only 2 present
    assert_eq!(from_slice(&[0x44, 0x01, 0x02]), Err(Error::Eof));
    // Two-byte length extension cut short
    assert_eq!(from_slice(&[0x19, 0x03]), Err(Error::Eof));
    // Float64 header with no payload
    assert_eq!(from_slice(&[0xfb]), Err(Error::Eof));
}

#[test]
fn test_syntax_errors() {
    // Reserved additional info 28
    assert_eq!(from_slice(&[0x1c]), Err(Error::Syntax));
    // A lone break byte outside any indefinite-length composite
    assert_eq!(from_slice(&[0xff]), Err(Error::Syntax));
    // An unsigned integer beyond the signed 64-bit range
    assert_eq!(
        from_slice(&[0x1b, 0xff, 0xff, 0xff, 0xff, 0xff, 0xff, 0xff, 0xff]),
        Err(Error::Syntax)
    );
    // An indefinite-length integer makes no sense
    assert_eq!(from_slice(&[0x1f]), Err(Error::Syntax));
    // An unknown simple value
    assert_eq!(from_slice(&[0xe0]), Err(Error::Syntax));
}

#[test]
fn test_invalid_utf8_text() {
    // A text string whose payload is not valid UTF-8
    assert_eq!(from_slice(&[0x62, 0xff, 0xfe]), Err(Error::InvalidUtf8));
}

#[test]
fn test_invalid_utf8_text_chunk() {
    // Each chunk of an indefinite text string must be well-formed
    // UTF-8 on its own: a chunk holding a lone continuation byte is
    // rejected ...
    assert_eq!(from_slice(&[0x7f, 0x61, 0xbc, 0xff]), Err(Error::InvalidUtf8));
    // ... and so is a multi-byte character split across two chunks,
    // though the concatenation would be well-formed
    assert_eq!(
        from_slice(&[0x7f, 0x61, 0xc3, 0x61, 0xbc, 0xff]),
        Err(Error::InvalidUtf8)
    );
}

#[test]
fn test_wrong_shape_chunk() {
    // An indefinite byte string whose chunk is a text string
    assert_eq!(from_slice(&[0x5f, 0x61, 0x61, 0xff]), Err(Error::Syntax));
    // An indefinite text string whose chunk is itself indefinite
    assert_eq!(from_slice(&[0x7f, 0x7f, 0xff, 0xff]), Err(Error::Syntax));
}
