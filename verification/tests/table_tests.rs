use frac_json::byte_stream::ByteStream;
use frac_json::errors::CodecError;
use frac_json::json::JsonValue;
use frac_json::keys_table::GlobalKeysTable;
use frac_json::{
    decode, encode, global_table_from_json, global_table_from_json_limited,
    global_table_from_keys,
};

#[test]
fn serialized_table_layout() {
    let bytes = global_table_from_keys(vec!["ab".to_string(), "c".to_string()]).unwrap();
    assert_eq!(bytes, vec![0x00, 0x02, 0x00, 0x02, 0x61, 0x62, 0x01, 0x63]);
}

#[test]
fn serialized_table_reads_back() {
    let bytes = global_table_from_keys(vec!["one".to_string(), "two".to_string()]).unwrap();
    let mut stream = ByteStream::make(&bytes);
    let table = GlobalKeysTable::read_keys_table(&mut stream).unwrap();
    assert_eq!(table.lookup_index(0).unwrap().as_str(), "one");
    assert_eq!(table.lookup_index(1).unwrap().as_str(), "two");
    assert_eq!(table.lookup_index(2), Err(CodecError::BadIndex));
    assert_eq!(table.find_key(&"two".to_string()), Some(1));
    assert_eq!(table.find_key(&"three".to_string()), None);
}

#[test]
fn table_rejects_bad_config_and_truncation() {
    let mut bad_config = ByteStream::make(&vec![0x01, 0x00, 0x00]);
    assert_eq!(
        GlobalKeysTable::read_keys_table(&mut bad_config).map(|_| ()),
        Err(CodecError::UnsupportedTableConfig)
    );
    let mut truncated = ByteStream::make(&vec![0x00, 0x02, 0x00, 0x02, 0x61]);
    assert_eq!(
        GlobalKeysTable::read_keys_table(&mut truncated).map(|_| ()),
        Err(CodecError::ShortRead)
    );
    let mut empty = ByteStream::make(&Vec::new());
    assert_eq!(
        GlobalKeysTable::read_keys_table(&mut empty).map(|_| ()),
        Err(CodecError::ShortRead)
    );
}

#[test]
fn table_rejects_long_key() {
    let long_key = "k".repeat(255);
    assert_eq!(global_table_from_keys(vec![long_key]), Err(CodecError::KeyTooLong));
    let just_fits = "k".repeat(254);
    assert!(global_table_from_keys(vec![just_fits]).is_ok());
}

#[test]
fn table_rejects_too_many_keys() {
    let mut keys = Vec::new();
    for i in 0..0x8000u32 {
        keys.push(format!("k{}", i));
    }
    assert_eq!(global_table_from_keys(keys), Err(CodecError::TableFull));
}

#[test]
fn inline_key_too_long_is_rejected() {
    let long_key = "k".repeat(70000);
    let v = JsonValue::Object(vec![(long_key, JsonValue::Null)]);
    assert_eq!(encode(&v, None, None), Err(CodecError::KeyTooLong));
}

#[test]
fn local_table_fills_up() {
    let mut elems = Vec::new();
    for i in 0..0x8000u32 {
        elems.push(JsonValue::Object(vec![(format!("k{}", i), JsonValue::Null)]));
    }
    let v = JsonValue::Array(elems);
    assert_eq!(encode(&v, None, None), Err(CodecError::TableFull));
}

#[test]
fn built_table_counts_and_sorts_keys() {
    let v = JsonValue::Array(vec![
        JsonValue::Object(vec![
            ("rare".to_string(), JsonValue::Int(1)),
            ("common".to_string(), JsonValue::Int(2)),
        ]),
        JsonValue::Object(vec![("common".to_string(), JsonValue::Int(3))]),
        JsonValue::Object(vec![("common".to_string(), JsonValue::Int(4))]),
    ]);
    let bytes = global_table_from_json(&v).unwrap();
    let mut stream = ByteStream::make(&bytes);
    let table = GlobalKeysTable::read_keys_table(&mut stream).unwrap();
    assert_eq!(table.lookup_index(0).unwrap().as_str(), "common");
    assert_eq!(table.lookup_index(1).unwrap().as_str(), "rare");
    assert_eq!(table.len(), 2);
}

#[test]
fn built_table_ties_keep_first_encounter_order() {
    let v = JsonValue::Object(vec![
        ("beta".to_string(), JsonValue::Int(1)),
        ("alpha".to_string(), JsonValue::Int(2)),
    ]);
    let bytes = global_table_from_json(&v).unwrap();
    let mut stream = ByteStream::make(&bytes);
    let table = GlobalKeysTable::read_keys_table(&mut stream).unwrap();
    assert_eq!(table.lookup_index(0).unwrap().as_str(), "beta");
    assert_eq!(table.lookup_index(1).unwrap().as_str(), "alpha");
}

#[test]
fn built_table_honours_cap_and_cutoff() {
    let v = JsonValue::Array(vec![
        JsonValue::Object(vec![
            ("often".to_string(), JsonValue::Int(1)),
            ("seldom".to_string(), JsonValue::Int(2)),
        ]),
        JsonValue::Object(vec![("often".to_string(), JsonValue::Int(3))]),
    ]);
    let capped = global_table_from_json_limited(&v, 1, 0).unwrap();
    let mut stream = ByteStream::make(&capped);
    let table = GlobalKeysTable::read_keys_table(&mut stream).unwrap();
    assert_eq!(table.len(), 1);
    assert_eq!(table.lookup_index(0).unwrap().as_str(), "often");

    let cut = global_table_from_json_limited(&v, 0, 2).unwrap();
    let mut stream2 = ByteStream::make(&cut);
    let table2 = GlobalKeysTable::read_keys_table(&mut stream2).unwrap();
    assert_eq!(table2.len(), 1);
    assert_eq!(table2.lookup_index(0).unwrap().as_str(), "often");
}

#[test]
fn encode_rejects_bad_table_bytes() {
    let v = JsonValue::Null;
    assert_eq!(
        encode(&v, Some(&vec![0x01, 0x00, 0x00]), None),
        Err(CodecError::UnsupportedTableConfig)
    );
    let plain = encode(&v, None, None).unwrap();
    assert_eq!(
        decode(&plain, Some(&vec![0x01, 0x00, 0x00])),
        Err(CodecError::UnsupportedTableConfig)
    );
}

#[test]
fn stream_seek_and_reads() {
    let mut bytes = ByteStream::new();
    bytes.write_u16(0x1234);
    bytes.write_i32(-5);
    assert_eq!(bytes.len(), 6);
    assert_eq!(bytes.seek(7), Err(CodecError::BadSeek));
    bytes.seek(0).unwrap();
    assert_eq!(bytes.read_u16().unwrap(), 0x1234);
    assert_eq!(bytes.read_i32().unwrap(), -5);
    assert_eq!(bytes.read_u8(), Err(CodecError::ShortRead));
}
