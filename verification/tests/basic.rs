//! Scalar, tag-registry and typed-array encoding checks.

use c2pa_cbor::{
    encode_base64, encode_base64url, encode_datetime_string, encode_epoch_datetime, encode_uri,
    encode_uint16be_array, encode_uint16le_array, encode_uint32be_array, encode_uint32le_array,
    encode_uint64be_array, encode_uint64le_array, encode_uint8_array, from_slice, to_vec, Decoder,
    Encoder, Value,
};

#[test]
fn test_basic_types() {
    assert_eq!(
        from_slice(&to_vec(&Value::Integer(42)).unwrap()).unwrap(),
        Value::Integer(42)
    );
    assert_eq!(
        from_slice(&to_vec(&Value::Integer(-42)).unwrap()).unwrap(),
        Value::Integer(-42)
    );
    assert_eq!(
        from_slice(&to_vec(&Value::Bool(true)).unwrap()).unwrap(),
        Value::Bool(true)
    );
    assert_eq!(
        from_slice(&to_vec(&Value::Text("hello".to_string())).unwrap()).unwrap(),
        Value::Text("hello".to_string())
    );
}

#[test]
fn test_tagged_datetime_string() {
    let mut buf = Vec::new();
    encode_datetime_string(&mut buf, "2024-01-15T10:30:00Z").unwrap();

    // Tag 0 with small value is encoded as 0xC0 (major type 6, value 0)
    assert_eq!(buf[0], 0xC0);

    // Decode the tagged value - it should yield the content (the string)
    let decoded = from_slice(&buf).unwrap();
    assert_eq!(decoded, Value::Text("2024-01-15T10:30:00Z".to_string()));
}

#[test]
fn test_tagged_epoch_datetime() {
    let mut buf = Vec::new();
    let epoch: i64 = 1705315800;
    encode_epoch_datetime(&mut buf, epoch).unwrap();

    // Tag 1 is encoded as 0xC1 (major type 6, value 1)
    assert_eq!(buf[0], 0xC1);

    let decoded = from_slice(&buf).unwrap();
    assert_eq!(decoded, Value::Integer(epoch));
}

#[test]
fn test_tagged_uri() {
    let mut buf = Vec::new();
    encode_uri(&mut buf, "https://example.com/path").unwrap();

    // Tag 32 is encoded as 0xD8 0x20 (major type 6, additional info 24, value 32)
    assert_eq!(buf[0], 0xD8);
    assert_eq!(buf[1], 32);

    let decoded = from_slice(&buf).unwrap();
    assert_eq!(decoded, Value::Text("https://example.com/path".to_string()));
}

#[test]
fn test_tagged_uri_framing() {
    // Tag 32, then a text-string header (major type 3, length 19)
    let mut buf = Vec::new();
    encode_uri(&mut buf, "https://example.com").unwrap();
    assert_eq!(buf[0], 0xD8);
    assert_eq!(buf[1], 0x20);
    assert_eq!(buf[2], (3 << 5) | 19);
    let decoded = from_slice(&buf).unwrap();
    assert_eq!(decoded, Value::Text("https://example.com".to_string()));
}

#[test]
fn test_tagged_base64url() {
    let mut buf = Vec::new();
    encode_base64url(&mut buf, "SGVsbG8gV29ybGQ").unwrap();

    // Tag 33 is encoded as 0xD8 0x21
    assert_eq!(buf[0], 0xD8);
    assert_eq!(buf[1], 33);

    let decoded = from_slice(&buf).unwrap();
    assert_eq!(decoded, Value::Text("SGVsbG8gV29ybGQ".to_string()));
}

#[test]
fn test_tagged_base64() {
    let mut buf = Vec::new();
    encode_base64(&mut buf, "SGVsbG8=").unwrap();
    assert_eq!(buf[0], 0xD8);
    assert_eq!(buf[1], 34);
    let decoded = from_slice(&buf).unwrap();
    assert_eq!(decoded, Value::Text("SGVsbG8=".to_string()));
}

#[test]
fn test_manual_tag_encoding() {
    let mut encoder = Encoder::new();

    // Manually encode a custom tag (e.g., tag 100) with a string value
    encoder.write_tag(100).unwrap();
    encoder.write_text("custom tagged value").unwrap();
    let buf = encoder.into_inner();

    // Tag 100 is encoded as 0xD8 0x64
    assert_eq!(buf[0], 0xD8);
    assert_eq!(buf[1], 100);

    // Decode should give us the string content
    let decoded = from_slice(&buf).unwrap();
    assert_eq!(decoded, Value::Text("custom tagged value".to_string()));
}

#[test]
fn test_read_tag_method() {
    let mut encoder = Encoder::new();
    encoder.write_tag(42).unwrap();
    encoder.write_text("test").unwrap();
    let buf = encoder.into_inner();

    let mut decoder = Decoder::new(buf);
    let tag = decoder.read_tag().unwrap();
    assert_eq!(tag, 42);

    // After reading the tag, we can decode the content
    let content = decoder.read_value().unwrap();
    assert_eq!(content, Value::Text("test".to_string()));
}

#[test]
fn test_typed_array_uint8() {
    let mut buf = Vec::new();
    let data: [u8; 5] = [1, 2, 3, 4, 5];
    encode_uint8_array(&mut buf, &data).unwrap();

    // Tag 64 is encoded as 0xD8 0x40
    assert_eq!(buf[0], 0xD8);
    assert_eq!(buf[1], 64);

    // Decode as byte array
    let decoded = from_slice(&buf).unwrap();
    assert_eq!(decoded, Value::Bytes(vec![1, 2, 3, 4, 5]));
}

#[test]
fn test_typed_array_uint16be() {
    let mut buf = Vec::new();
    let data: [u16; 3] = [0x1234, 0x5678, 0x9ABC];
    encode_uint16be_array(&mut buf, &data).unwrap();

    // Tag 65 is encoded as 0xD8 0x41
    assert_eq!(buf[0], 0xD8);
    assert_eq!(buf[1], 65);

    // Should be big-endian encoded
    let decoded = from_slice(&buf).unwrap();
    assert_eq!(decoded, Value::Bytes(vec![0x12, 0x34, 0x56, 0x78, 0x9A, 0xBC]));
}

#[test]
fn test_typed_array_uint32be() {
    let mut buf = Vec::new();
    let data: [u32; 2] = [0x12345678, 0x9ABCDEF0];
    encode_uint32be_array(&mut buf, &data).unwrap();

    // Tag 66 is encoded as 0xD8 0x42
    assert_eq!(buf[0], 0xD8);
    assert_eq!(buf[1], 66);

    let decoded = from_slice(&buf).unwrap();
    assert_eq!(
        decoded,
        Value::Bytes(vec![0x12, 0x34, 0x56, 0x78, 0x9A, 0xBC, 0xDE, 0xF0])
    );
}

#[test]
fn test_typed_array_uint64be() {
    let mut buf = Vec::new();
    let data: [u64; 1] = [0x123456789ABCDEF0];
    encode_uint64be_array(&mut buf, &data).unwrap();

    // Tag 67 is encoded as 0xD8 0x43
    assert_eq!(buf[0], 0xD8);
    assert_eq!(buf[1], 67);

    let decoded = from_slice(&buf).unwrap();
    assert_eq!(
        decoded,
        Value::Bytes(vec![0x12, 0x34, 0x56, 0x78, 0x9A, 0xBC, 0xDE, 0xF0])
    );
}

#[test]
fn test_typed_array_uint16le() {
    let mut buf = Vec::new();
    let data: [u16; 3] = [0x1234, 0x5678, 0x9ABC];
    encode_uint16le_array(&mut buf, &data).unwrap();

    // Tag 69 is encoded as 0xD8 0x45
    assert_eq!(buf[0], 0xD8);
    assert_eq!(buf[1], 69);

    // Should be little-endian encoded
    let decoded = from_slice(&buf).unwrap();
    assert_eq!(decoded, Value::Bytes(vec![0x34, 0x12, 0x78, 0x56, 0xBC, 0x9A]));
}

#[test]
fn test_typed_array_uint32le() {
    let mut buf = Vec::new();
    let data: [u32; 2] = [0x12345678, 0x9ABCDEF0];
    encode_uint32le_array(&mut buf, &data).unwrap();
    assert_eq!(buf[0], 0xD8);
    assert_eq!(buf[1], 70);
    let decoded = from_slice(&buf).unwrap();
    assert_eq!(
        decoded,
        Value::Bytes(vec![0x78, 0x56, 0x34, 0x12, 0xF0, 0xDE, 0xBC, 0x9A])
    );
}

#[test]
fn test_typed_array_uint64le() {
    let mut buf = Vec::new();
    let data: [u64; 1] = [0x123456789ABCDEF0];
    encode_uint64le_array(&mut buf, &data).unwrap();
    assert_eq!(buf[0], 0xD8);
    assert_eq!(buf[1], 71);
    let decoded = from_slice(&buf).unwrap();
    assert_eq!(
        decoded,
        Value::Bytes(vec![0xF0, 0xDE, 0xBC, 0x9A, 0x78, 0x56, 0x34, 0x12])
    );
}

#[test]
fn test_typed_array_endianness_pair() {
    // Tag 65, then byte string 12 34 56 78
    let mut be = Vec::new();
    encode_uint16be_array(&mut be, &[0x1234u16, 0x5678]).unwrap();
    assert_eq!(be, vec![0xD8, 0x41, 0x44, 0x12, 0x34, 0x56, 0x78]);

    // The little-endian counterpart: tag 69, bytes 34 12 78 56
    let mut le = Vec::new();
    encode_uint16le_array(&mut le, &[0x1234u16, 0x5678]).unwrap();
    assert_eq!(le, vec![0xD8, 0x45, 0x44, 0x34, 0x12, 0x78, 0x56]);
}

#[test]
fn test_vec_u8_as_array() {
    // A sequence of small integers serializes as an array
    let data = Value::Array(vec![Value::Integer(1), Value::Integer(2), Value::Integer(3)]);
    let encoded = to_vec(&data).unwrap();

    // First byte should be array type with length 3
    assert_eq!(encoded[0], (4 << 5) | 3);

    let decoded = from_slice(&encoded).unwrap();
    assert_eq!(decoded, data);
}

#[test]
fn test_byte_array_zero_copy_encoding() {
    // Byte strings are written directly without transformation
    let value = Value::Bytes(vec![0x42, 0xFF, 0x00, 0xAA, 0x55]);
    let encoded = to_vec(&value).unwrap();

    // Should be: major type byte + length + raw data
    assert_eq!(encoded[0], (2 << 5) | 5); // length 5 embedded
    assert_eq!(&encoded[1..], &[0x42, 0xFF, 0x00, 0xAA, 0x55]);

    let decoded = from_slice(&encoded).unwrap();
    assert_eq!(decoded, value);
}

#[test]
fn test_tagged_byte_array_overhead() {
    // A tagged byte array (e.g., tag 64) has minimal overhead
    let mut buf = Vec::new();
    encode_uint8_array(&mut buf, &[1, 2, 3, 4, 5]).unwrap();

    // Overhead: 2 bytes for tag (0xD8 0x40) + 1 byte for bytes type with
    // embedded length + 5 bytes data
    assert_eq!(buf.len(), 8);

    // Tag 64 encoded as 0xD8 0x40
    assert_eq!(buf[0], 0xD8);
    assert_eq!(buf[1], 64);
    // Byte string with length 5
    assert_eq!(buf[2], (2 << 5) | 5);
    assert_eq!(&buf[3..], &[1, 2, 3, 4, 5]);
}
