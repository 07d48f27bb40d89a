//! Compliance tests against known CBOR byte sequences from RFC 8949
//! Appendix A.

use c2pa_cbor::{from_slice, to_vec, Decoder, Encoder, Tagged, Value};

fn hex_to_bytes(hex: &str) -> Vec<u8> {
    (0..hex.len())
        .step_by(2)
        .map(|i| u8::from_str_radix(&hex[i..i + 2], 16).unwrap())
        .collect()
}

fn hex_from_bytes(bytes: &[u8]) -> String {
    bytes.iter().map(|b| format!("{:02x}", b)).collect()
}

fn assert_encode_decode(value: Value, expected_hex: &str) {
    let expected_bytes = hex_to_bytes(expected_hex);

    // Test encoding
    let encoded = to_vec(&value).unwrap();
    assert_eq!(
        hex_from_bytes(&encoded),
        expected_hex,
        "Encoding mismatch for {:?}",
        value
    );

    // Test decoding
    let decoded = from_slice(&expected_bytes).unwrap();
    assert_eq!(decoded, value, "Decoding mismatch for {}", expected_hex);
}

#[test]
fn test_rfc8949_integers() {
    // Test unsigned integers
    assert_encode_decode(Value::Integer(0), "00");
    assert_encode_decode(Value::Integer(1), "01");
    assert_encode_decode(Value::Integer(10), "0a");
    assert_encode_decode(Value::Integer(23), "17");
    assert_encode_decode(Value::Integer(24), "1818");
    assert_encode_decode(Value::Integer(25), "1819");
    assert_encode_decode(Value::Integer(100), "1864");
    assert_encode_decode(Value::Integer(1000), "1903e8");
    assert_encode_decode(Value::Integer(1000000), "1a000f4240");
    assert_encode_decode(Value::Integer(1000000000000), "1b000000e8d4a51000");

    // Test negative integers
    assert_encode_decode(Value::Integer(-1), "20");
    assert_encode_decode(Value::Integer(-10), "29");
    assert_encode_decode(Value::Integer(-100), "3863");
    assert_encode_decode(Value::Integer(-1000), "3903e7");
}

#[test]
fn test_rfc8949_simple_values() {
    // Test booleans
    assert_encode_decode(Value::Bool(false), "f4");
    assert_encode_decode(Value::Bool(true), "f5");

    // Test null
    assert_encode_decode(Value::Null, "f6");

    // A present small integer, as in an optional slot that is filled
    assert_encode_decode(Value::Integer(42), "182a");
}

#[test]
fn test_rfc8949_strings() {
    // Test text strings
    assert_encode_decode(Value::Text("".to_string()), "60");
    assert_encode_decode(Value::Text("a".to_string()), "6161");
    assert_encode_decode(Value::Text("IETF".to_string()), "6449455446");
    assert_encode_decode(Value::Text("\"\\".to_string()), "62225c");
    assert_encode_decode(Value::Text("\u{00fc}".to_string()), "62c3bc");
    assert_encode_decode(Value::Text("\u{6c34}".to_string()), "63e6b0b4");

    // Test byte strings
    assert_encode_decode(Value::Bytes(vec![]), "40");
    assert_encode_decode(Value::Bytes(vec![0x01, 0x02, 0x03, 0x04]), "4401020304");
}

#[test]
fn test_rfc8949_arrays() {
    // Test arrays
    assert_encode_decode(Value::Array(vec![]), "80");

    assert_encode_decode(
        Value::Array(vec![Value::Integer(1), Value::Integer(2), Value::Integer(3)]),
        "83010203",
    );

    // Nested heterogeneous arrays
    let nested = Value::Array(vec![
        Value::Integer(1),
        Value::Array(vec![Value::Integer(2), Value::Integer(3)]),
        Value::Array(vec![Value::Integer(4), Value::Integer(5)]),
    ]);
    assert_encode_decode(nested, "8301820203820405");

    let long = Value::Array((1..=25).map(Value::Integer).collect());
    assert_encode_decode(long, "98190102030405060708090a0b0c0d0e0f101112131415161718181819");
}

#[test]
fn test_rfc8949_maps() {
    // Test empty map
    assert_encode_decode(Value::Mapping(vec![]), "a0");

    // Test simple maps (entries in key order)
    let map = Value::Mapping(vec![
        (Value::Integer(1), Value::Integer(2)),
        (Value::Integer(3), Value::Integer(4)),
    ]);
    assert_encode_decode(map, "a201020304");

    // Test string keys with heterogeneous values
    let map2 = Value::Mapping(vec![
        (Value::Text("a".to_string()), Value::Integer(1)),
        (
            Value::Text("b".to_string()),
            Value::Array(vec![Value::Integer(2), Value::Integer(3)]),
        ),
    ]);
    assert_encode_decode(map2, "a26161016162820203");
}

#[test]
fn test_rfc8949_tags() {
    // Tag 0: Standard date/time string
    let tagged = Tagged::new(Some(0), Value::Text("2013-03-21T20:04:00Z".to_string()));
    let mut encoder = Encoder::new();
    tagged.write(&mut encoder).unwrap();
    assert_eq!(
        hex_from_bytes(&encoder.into_inner()),
        "c074323031332d30332d32315432303a30343a30305a"
    );

    // Tag 1: Epoch-based date/time
    let tagged_ts = Tagged::new(Some(1), Value::Integer(1363896240));
    let mut encoder_ts = Encoder::new();
    tagged_ts.write(&mut encoder_ts).unwrap();
    assert_eq!(hex_from_bytes(&encoder_ts.into_inner()), "c11a514b67b0");

    // Tag 32: URI
    let tagged_uri = Tagged::new(Some(32), Value::Text("http://www.example.com".to_string()));
    let mut encoder_uri = Encoder::new();
    tagged_uri.write(&mut encoder_uri).unwrap();
    assert_eq!(
        hex_from_bytes(&encoder_uri.into_inner()),
        "d82076687474703a2f2f7777772e6578616d706c652e636f6d"
    );
}

#[test]
fn test_tagged_value_encoding() {
    // Tagged properly encodes as CBOR tag + value, not as a map
    let tagged = Tagged::new(Some(32), Value::Text("https://example.com".to_string()));
    let mut encoder = Encoder::new();
    tagged.write(&mut encoder).unwrap();
    let cbor = encoder.into_inner();

    // First bytes are 0xd8 0x20 for tag 32
    assert_eq!(cbor[0], 0xd8);
    assert_eq!(cbor[1], 0x20);

    // Should NOT start with 0xa2 (map with 2 items)
    assert_ne!(cbor[0], 0xa2);

    // Verify roundtrip with explicit tag capture
    let mut decoder = Decoder::new(cbor);
    let decoded = Tagged::read_value(&mut decoder).unwrap();
    assert_eq!(decoded.tag, Some(32));
    assert_eq!(decoded.value, Value::Text("https://example.com".to_string()));
}

#[test]
fn test_value_roundtrip() {
    // The Value type round-trips through canonical bytes unchanged
    let test_cases = vec![
        "00",   // 0
        "01",   // 1
        "20",   // -1
        "f4",   // false
        "f5",   // true
        "f6",   // null
        "6161", // "a"
        "80",   // []
        "a0",   // {}
    ];

    for hex in test_cases {
        let bytes = hex_to_bytes(hex);
        let value = from_slice(&bytes).unwrap();
        let encoded = to_vec(&value).unwrap();
        assert_eq!(hex_from_bytes(&encoded), hex, "Failed roundtrip for {}", hex);
    }
}

#[test]
fn test_round_trip_composite() {
    // Round-trip of a deep composite mixing every tag-free shape
    let value = Value::Array(vec![
        Value::Null,
        Value::Bool(true),
        Value::Integer(-123456789),
        Value::Float(2.5f64.to_bits()),
        Value::Bytes(vec![0, 1, 2, 254, 255]),
        Value::Text("nested \u{6c34}".to_string()),
        Value::Mapping(vec![
            (Value::Integer(7), Value::Array(vec![Value::Integer(8)])),
            (Value::Text("k".to_string()), Value::Null),
        ]),
    ]);
    let encoded = to_vec(&value).unwrap();
    let decoded = from_slice(&encoded).unwrap();
    assert_eq!(decoded, value);
}

#[test]
fn test_float_bits_bytes() {
    // 2.5f64 encodes as major type 7 info 27 followed by its big-endian bits
    let value = Value::Float(2.5f64.to_bits());
    let encoded = to_vec(&value).unwrap();
    assert_eq!(hex_from_bytes(&encoded), "fb4004000000000000");
    assert_eq!(from_slice(&encoded).unwrap(), value);
}
