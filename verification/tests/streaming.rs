//! Indefinite-length framing and buffered unknown-length composites.

use c2pa_cbor::{from_slice, ser, to_vec, Encoder, Error, SerializeVec, Value};

#[test]
fn test_indefinite_array() {
    // Manually encode an indefinite-length array
    let mut enc = Encoder::new();

    // Start indefinite array
    enc.write_array_indefinite().unwrap();
    // Add elements
    enc.write_u64(1).unwrap();
    enc.write_u64(2).unwrap();
    enc.write_u64(3).unwrap();
    // Write break
    enc.write_break().unwrap();
    let buf = enc.into_inner();

    // Verify encoding: 0x9F (array indefinite) + elements + 0xFF (break)
    assert_eq!(buf[0], (4 << 5) | 31);
    assert_eq!(buf[buf.len() - 1], 0xFF);

    // Decode should work
    let decoded = from_slice(&buf).unwrap();
    assert_eq!(
        decoded,
        Value::Array(vec![Value::Integer(1), Value::Integer(2), Value::Integer(3)])
    );
}

#[test]
fn test_indefinite_map() {
    // Manually encode an indefinite-length map
    let mut enc = Encoder::new();

    // Start indefinite map
    enc.write_map_indefinite().unwrap();
    // Add key-value pairs
    enc.write_text("a").unwrap();
    enc.write_u64(1).unwrap();
    enc.write_text("b").unwrap();
    enc.write_u64(2).unwrap();
    // Write break
    enc.write_break().unwrap();
    let buf = enc.into_inner();

    // Verify encoding
    assert_eq!(buf[0], (5 << 5) | 31);
    assert_eq!(buf[buf.len() - 1], 0xFF);

    // Decode should work
    let decoded = from_slice(&buf).unwrap();
    let entries = decoded.as_map().unwrap();
    assert_eq!(entries.len(), 2);
    assert_eq!(entries[0], (Value::Text("a".to_string()), Value::Integer(1)));
    assert_eq!(entries[1], (Value::Text("b".to_string()), Value::Integer(2)));
}

#[test]
fn test_indefinite_byte_string() {
    // Manually encode indefinite-length byte string (chunked)
    let mut buf = Vec::new();
    buf.push((2 << 5) | 31); // Start indefinite bytes

    // Add chunks as definite byte strings
    buf.extend_from_slice(&to_vec(&Value::Bytes(vec![1, 2, 3])).unwrap());
    buf.extend_from_slice(&to_vec(&Value::Bytes(vec![4, 5])).unwrap());

    buf.push(0xFF); // End indefinite

    // Decode should concatenate chunks
    let decoded = from_slice(&buf).unwrap();
    assert_eq!(decoded, Value::Bytes(vec![1, 2, 3, 4, 5]));
}

#[test]
fn test_indefinite_text_string() {
    // Manually encode indefinite-length text string (chunked)
    let mut buf = Vec::new();
    buf.push((3 << 5) | 31); // Start indefinite text

    // Add chunks
    buf.extend_from_slice(&to_vec(&Value::Text("Hello".to_string())).unwrap());
    buf.extend_from_slice(&to_vec(&Value::Text(" World".to_string())).unwrap());

    buf.push(0xFF); // End indefinite

    // Decode should concatenate chunks
    let decoded = from_slice(&buf).unwrap();
    assert_eq!(decoded, Value::Text("Hello World".to_string()));
}

#[test]
fn test_ser_module_serializer() {
    // Test that ser::Serializer works correctly
    let mut serializer = ser::Serializer::new().packed_format();

    let data = Value::Array(vec![Value::Integer(1), Value::Integer(2), Value::Integer(3)]);
    serializer.write_value(&data).unwrap();

    let encoded = serializer.into_inner();
    let decoded = from_slice(&encoded).unwrap();
    assert_eq!(decoded, data);
}

#[test]
fn test_serialize_vec_array() {
    // An unknown-length array, buffered child by child, comes out with
    // a definite-length header: the same bytes as the direct encoding.
    let mut sv = SerializeVec::new_array();
    sv.serialize_element(to_vec(&Value::Integer(1)).unwrap()).unwrap();
    sv.serialize_element(to_vec(&Value::Text("x".to_string())).unwrap()).unwrap();
    sv.serialize_element(to_vec(&Value::Null).unwrap()).unwrap();
    let mut encoder = Encoder::new();
    sv.end(&mut encoder).unwrap();
    let buffered = encoder.into_inner();

    let direct = to_vec(&Value::Array(vec![
        Value::Integer(1),
        Value::Text("x".to_string()),
        Value::Null,
    ]))
    .unwrap();
    assert_eq!(buffered, direct);
}

#[test]
fn test_serialize_vec_map() {
    // The same for an unknown-length mapping, key-value by key-value.
    let mut sv = SerializeVec::new_map();
    sv.serialize_key(to_vec(&Value::Text("a".to_string())).unwrap()).unwrap();
    sv.serialize_value(to_vec(&Value::Integer(1)).unwrap()).unwrap();
    sv.serialize_key(to_vec(&Value::Text("b".to_string())).unwrap()).unwrap();
    sv.serialize_value(to_vec(&Value::Integer(2)).unwrap()).unwrap();
    let mut encoder = Encoder::new();
    sv.end(&mut encoder).unwrap();
    let buffered = encoder.into_inner();

    let direct = to_vec(&Value::Mapping(vec![
        (Value::Text("a".to_string()), Value::Integer(1)),
        (Value::Text("b".to_string()), Value::Integer(2)),
    ]))
    .unwrap();
    assert_eq!(buffered, direct);
}

#[test]
fn test_serialize_vec_misuse() {
    // An element pushed into a mapping, a value without a key, and
    // ending with a dangling key are all shape errors.
    let mut sv = SerializeVec::new_map();
    assert_eq!(sv.serialize_element(vec![0x01]), Err(Error::Unrepresentable));
    assert_eq!(sv.serialize_value(vec![0x01]), Err(Error::Unrepresentable));
    sv.serialize_key(vec![0x61, 0x61]).unwrap();
    let mut encoder = Encoder::new();
    assert_eq!(sv.end(&mut encoder), Err(Error::Unrepresentable));

    let mut sv2 = SerializeVec::new_array();
    assert_eq!(sv2.serialize_key(vec![0x01]), Err(Error::Unrepresentable));
}
