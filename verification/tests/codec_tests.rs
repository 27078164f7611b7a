use frac_json::byte_stream::ByteStream;
use frac_json::errors::CodecError;
use frac_json::json::JsonValue;
use frac_json::key_record::{read_vu16, write_vu16};
use frac_json::{decode, encode, global_table_from_keys};

fn convert_key_index_twice(key_index: u16, expected_bytes_count: usize) -> Result<(), CodecError> {
    let mut bytes = ByteStream::new();
    write_vu16(key_index, &mut bytes);
    assert_eq!(expected_bytes_count, bytes.len());
    bytes.seek(0)?;
    let result = read_vu16(&mut bytes).unwrap();
    assert_eq!(key_index, result);
    Ok(())
}

#[test]
fn test_key_index() {
    convert_key_index_twice(0, 1).unwrap();
    convert_key_index_twice(0x7F, 1).unwrap();
    convert_key_index_twice(0x80, 2).unwrap();
    convert_key_index_twice(0x3FFF, 2).unwrap();
    convert_key_index_twice(0x4000, 3).unwrap();
    convert_key_index_twice(0xFFFF, 3).unwrap();
}

#[test]
fn vu16_boundaries() {
    convert_key_index_twice(1, 1).unwrap();
    convert_key_index_twice(127, 1).unwrap();
    convert_key_index_twice(128, 2).unwrap();
    convert_key_index_twice(16383, 2).unwrap();
    convert_key_index_twice(16384, 3).unwrap();
}

#[test]
fn vu16_rejects_large_third_byte() {
    let mut bytes = ByteStream::new();
    bytes.write(&[0x80, 0x80, 0x04]);
    bytes.seek(0).unwrap();
    assert_eq!(read_vu16(&mut bytes), Err(CodecError::BadVarint));
}

#[test]
fn encode_null() {
    assert_eq!(encode(&JsonValue::Null, None, None).unwrap(), vec![0x46, 0x4A, 0x00, 0x7A]);
}

#[test]
fn encode_true() {
    assert_eq!(
        encode(&JsonValue::Bool(true), None, None).unwrap(),
        vec![0x46, 0x4A, 0x00, 0x42]
    );
}

#[test]
fn encode_zero() {
    assert_eq!(encode(&JsonValue::Int(0), None, None).unwrap(), vec![0x46, 0x4A, 0x00, 0x30]);
}

#[test]
fn encode_minus_one() {
    assert_eq!(
        encode(&JsonValue::Int(-1), None, None).unwrap(),
        vec![0x46, 0x4A, 0x00, 0x69, 0xFF]
    );
}

#[test]
fn encode_u16_value() {
    assert_eq!(
        encode(&JsonValue::Int(256), None, None).unwrap(),
        vec![0x46, 0x4A, 0x00, 0x4A, 0x00, 0x01]
    );
}

#[test]
fn encode_small_string() {
    assert_eq!(
        encode(&JsonValue::Str("hi".to_string()), None, None).unwrap(),
        vec![0x46, 0x4A, 0x00, 0x53, 0x02, 0x68, 0x69]
    );
}

#[test]
fn encode_arrays() {
    assert_eq!(
        encode(&JsonValue::Array(Vec::new()), None, None).unwrap(),
        vec![0x46, 0x4A, 0x00, 0x61]
    );
    assert_eq!(
        encode(&JsonValue::Array(vec![JsonValue::Int(1)]), None, None).unwrap(),
        vec![0x46, 0x4A, 0x00, 0x41, 0x01, 0x49, 0x01]
    );
}

#[test]
fn encode_object_inline_key() {
    let v = JsonValue::Object(vec![("a".to_string(), JsonValue::Int(1))]);
    assert_eq!(
        encode(&v, None, None).unwrap(),
        vec![0x46, 0x4A, 0x00, 0x4F, 0x01, 0x04, 0x61, 0x49, 0x01]
    );
}

#[test]
fn encode_object_global_key() {
    let table = global_table_from_keys(vec!["a".to_string()]).unwrap();
    let v = JsonValue::Object(vec![("a".to_string(), JsonValue::Int(1))]);
    assert_eq!(
        encode(&v, Some(&table), None).unwrap(),
        vec![0x46, 0x4A, 0x00, 0x4F, 0x01, 0xAB, 0x49, 0x01]
    );
}

#[test]
fn duplicate_keys_rejected() {
    let v = JsonValue::Object(vec![
        ("a".to_string(), JsonValue::Int(1)),
        ("a".to_string(), JsonValue::Int(2)),
    ]);
    assert_eq!(encode(&v, None, None), Err(CodecError::DuplicateKey));
}

#[test]
fn global_table_missing_on_decode_is_detected() {
    let table = global_table_from_keys(vec!["a".to_string()]).unwrap();
    let v = JsonValue::Object(vec![("a".to_string(), JsonValue::Int(1))]);
    let bytes = encode(&v, Some(&table), None).unwrap();
    assert_eq!(decode(&bytes, None), Err(CodecError::BadIndex));
}

fn sample_value() -> JsonValue {
    JsonValue::Object(vec![
        ("name".to_string(), JsonValue::Str("value one".to_string())),
        ("count".to_string(), JsonValue::Int(12345)),
        ("negative".to_string(), JsonValue::Int(-70000)),
        ("big".to_string(), JsonValue::UInt(0xFFFFFFFFFFFFFFFF)),
        ("flag".to_string(), JsonValue::Bool(false)),
        ("nothing".to_string(), JsonValue::Null),
        (
            "items".to_string(),
            JsonValue::Array(vec![
                JsonValue::Int(1),
                JsonValue::Str("two".to_string()),
                JsonValue::Object(vec![("name".to_string(), JsonValue::Int(3))]),
            ]),
        ),
    ])
}

#[test]
fn round_trip_nested_value() {
    let v = sample_value();
    let bytes = encode(&v, None, None).unwrap();
    let back = decode(&bytes, None).unwrap();
    assert_eq!(back, sample_value());
}

#[test]
fn round_trip_with_global_table() {
    let table = global_table_from_keys(vec!["name".to_string(), "items".to_string()]).unwrap();
    let v = sample_value();
    let bytes_plain = encode(&v, None, None).unwrap();
    let bytes_tabled = encode(&v, Some(&table), None).unwrap();
    assert!(bytes_tabled.len() < bytes_plain.len());
    let back = decode(&bytes_tabled, Some(&table)).unwrap();
    assert_eq!(back, sample_value());
}

#[test]
fn round_trip_compressed() {
    let v = sample_value();
    let bytes = encode(&v, None, Some(3)).unwrap();
    assert_eq!(bytes[2], 0x20);
    let back = decode(&bytes, None).unwrap();
    assert_eq!(back, sample_value());
}

#[test]
fn encoding_is_deterministic() {
    let b1 = encode(&sample_value(), None, None).unwrap();
    let b2 = encode(&sample_value(), None, None).unwrap();
    assert_eq!(b1, b2);
    let c1 = encode(&sample_value(), None, Some(5)).unwrap();
    let c2 = encode(&sample_value(), None, Some(5)).unwrap();
    assert_eq!(c1, c2);
}

#[test]
fn local_back_references_are_used() {
    let v = JsonValue::Array(vec![
        JsonValue::Object(vec![("key".to_string(), JsonValue::Int(1))]),
        JsonValue::Object(vec![("key".to_string(), JsonValue::Int(2))]),
    ]);
    let bytes = encode(&v, None, None).unwrap();
    // tag 'A', len 2, obj1: 'O' 1 inline(3+3) "key" 'I' 1, obj2: 'O' 1 backref(0x57) 'I' 2
    assert_eq!(
        bytes,
        vec![
            0x46, 0x4A, 0x00, 0x41, 0x02, 0x4F, 0x01, 0x06, 0x6B, 0x65, 0x79, 0x49, 0x01, 0x4F,
            0x01, 0x57, 0x49, 0x02
        ]
    );
    assert_eq!(decode(&bytes, None).unwrap(), v);
}

#[test]
fn round_trip_unicode_string() {
    let v = JsonValue::Str("héllo wörld \u{1F600}".to_string());
    let bytes = encode(&v, None, None).unwrap();
    assert_eq!(decode(&bytes, None).unwrap(), v);
}

#[test]
fn round_trip_empty_string_and_containers() {
    let v = JsonValue::Array(vec![
        JsonValue::Str(String::new()),
        JsonValue::Array(Vec::new()),
        JsonValue::Object(Vec::new()),
    ]);
    let bytes = encode(&v, None, None).unwrap();
    assert_eq!(decode(&bytes, None).unwrap(), v);
}

#[test]
fn round_trip_big_containers() {
    let mut elems = Vec::new();
    for i in 0..300u32 {
        elems.push(JsonValue::Int(i as i64));
    }
    let v = JsonValue::Array(elems);
    let bytes = encode(&v, None, None).unwrap();
    assert_eq!(bytes[3], 0x63);
    assert_eq!(decode(&bytes, None).unwrap(), v);
    let long_string: String = "x".repeat(70000);
    let sv = JsonValue::Str(long_string.clone());
    let sbytes = encode(&sv, None, None).unwrap();
    assert_eq!(sbytes[3], 0x54);
    assert_eq!(decode(&sbytes, None).unwrap(), JsonValue::Str(long_string));
}

#[test]
fn integer_class_boundaries() {
    for n in [
        0i64, 1, 255, 256, 65535, 65536, 4294967295, 4294967296, i64::MAX, -1, -128, -129,
        -32768, -32769, -2147483648, -2147483649, i64::MIN,
    ] {
        let bytes = encode(&JsonValue::Int(n), None, None).unwrap();
        assert_eq!(decode(&bytes, None).unwrap(), JsonValue::Int(n));
    }
    let bytes = encode(&JsonValue::UInt(u64::MAX), None, None).unwrap();
    assert_eq!(decode(&bytes, None).unwrap(), JsonValue::UInt(u64::MAX));
}

#[test]
fn decode_errors() {
    assert_eq!(decode(&vec![], None), Err(CodecError::ShortRead));
    assert_eq!(decode(&vec![0x46, 0x4A], None), Err(CodecError::ShortRead));
    assert_eq!(decode(&vec![0x58, 0x59, 0x00, 0x7A], None), Err(CodecError::BadMagic));
    assert_eq!(decode(&vec![0x46, 0x4A, 0x01, 0x7A], None), Err(CodecError::UnsupportedVersion));
    assert_eq!(decode(&vec![0x46, 0x4A, 0x00, 0xFF], None), Err(CodecError::BadTypeTag));
    assert_eq!(decode(&vec![0x46, 0x4A, 0x00], None), Err(CodecError::ShortRead));
    // object with one pair whose key record starts with the reserved byte
    assert_eq!(
        decode(&vec![0x46, 0x4A, 0x00, 0x4F, 0x01, 0xFF], None),
        Err(CodecError::BadKeyTag)
    );
    // extended immediate key with a malformed varint length
    assert_eq!(
        decode(&vec![0x46, 0x4A, 0x00, 0x4F, 0x01, 0x00, 0x80, 0x80, 0x04], None),
        Err(CodecError::BadVarint)
    );
    // local back-reference into an empty local table
    assert_eq!(
        decode(&vec![0x46, 0x4A, 0x00, 0x4F, 0x01, 0x57, 0x30], None),
        Err(CodecError::BadIndex)
    );
    // one-byte string whose payload is not UTF-8
    assert_eq!(
        decode(&vec![0x46, 0x4A, 0x00, 0x53, 0x01, 0xFF], None),
        Err(CodecError::InvalidUtf8)
    );
}

#[test]
fn extension_bytes_are_skipped() {
    // continuation bit set: one extension byte with its own continuation bit,
    // then a final extension byte, then the null tag
    assert_eq!(
        decode(&vec![0x46, 0x4A, 0x80, 0x81, 0x00, 0x7A], None).unwrap(),
        JsonValue::Null
    );
}

#[test]
fn highly_compressible_payload_exceeds_expansion_ceiling() {
    let mut elems = Vec::new();
    for _ in 0..100000u32 {
        elems.push(JsonValue::Int(0));
    }
    let v = JsonValue::Array(elems);
    let bytes = encode(&v, None, Some(3)).unwrap();
    assert!(bytes.len() < 100000 / 50);
    assert_eq!(decode(&bytes, None), Err(CodecError::DecompressionTooLarge));
}

#[test]
fn error_messages_are_nonempty() {
    assert!(!CodecError::ShortRead.message().is_empty());
    assert!(!CodecError::DuplicateKey.message().is_empty());
    assert!(!CodecError::NonFiniteNumber.message().is_empty());
}
