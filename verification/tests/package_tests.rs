use json_packer::{BitWriter, CompressOptions, Error, JsonValue, PoolConfig, VERSION_V2,
    collect_keys, collect_string_pool, compress_to_base64, compress_to_bytes,
    compress_with_options, decompress_from_base64, decompress_from_bytes, write_header,
    write_uleb128};


fn obj(pairs: Vec<(&[u8], JsonValue)>) -> JsonValue {
    JsonValue::Object(pairs.into_iter().map(|(k, v)| (k.to_vec(), v)).collect())
}

fn s(b: &[u8]) -> JsonValue {
    JsonValue::Str(b.to_vec())
}

#[test]
fn base64_roundtrip_small_object() {
    let v = obj(vec![(b"ok", JsonValue::Bool(true)), (b"count", JsonValue::Uint(42))]);
    let b64 = compress_to_base64(&v, &CompressOptions::default()).unwrap();
    let out = decompress_from_base64(&b64).unwrap();
    assert_eq!(v, out);
}

#[test]
fn deterministic_output_same_input() {
    let make = || obj(vec![
        (b"name" as &[u8], s(b"Alice")),
        (b"age", JsonValue::Uint(30)),
        (b"profile", obj(vec![(b"name", s(b"Alice"))])),
    ]);
    let a = compress_to_bytes(&make(), &CompressOptions::default()).unwrap();
    let b = compress_to_bytes(&make(), &CompressOptions::default()).unwrap();
    assert_eq!(a, b);
}

#[test]
fn frequency_table_counts_nested_keys() {
    let v = obj(vec![
        (b"name" as &[u8], s(b"Alice")),
        (b"age", JsonValue::Uint(30)),
        (b"profile", obj(vec![(b"name", s(b"Alice"))])),
    ]);
    let d = collect_keys(&v);
    assert_eq!(d.freq_of(&b"name".to_vec()), 2);
    assert_eq!(d.freq_of(&b"age".to_vec()), 1);
    assert_eq!(d.freq_of(&b"profile".to_vec()), 1);
    assert_eq!(d.len(), 3);
}

#[test]
fn dictionary_sorted_order_small_object() {
    let v = obj(vec![(b"ok" as &[u8], JsonValue::Bool(true)), (b"count", JsonValue::Uint(42))]);
    let d = collect_keys(&v);
    let (k0, f0) = d.entry_at(0);
    let (k1, f1) = d.entry_at(1);
    assert_eq!((k0.as_slice(), f0), (b"count" as &[u8], 1));
    assert_eq!((k1.as_slice(), f1), (b"ok" as &[u8], 1));
}

#[test]
fn bad_magic() {
    let mut bytes = Vec::new();
    bytes.extend_from_slice(b"BAD!");
    bytes.push(0x01);
    bytes.push(0x00);
    bytes.push(0x00);
    let err = decompress_from_bytes(&bytes).unwrap_err();
    assert!(matches!(err, Error::BadMagic));
}

#[test]
fn bad_version() {
    let mut bytes = Vec::new();
    bytes.extend_from_slice(b"JCPR");
    bytes.push(0xFF);
    bytes.push(0x00);
    bytes.push(0x00);
    let err = decompress_from_bytes(&bytes).unwrap_err();
    assert!(matches!(err, Error::BadVersion));
}

#[test]
fn truncated_data() {
    let v = obj(vec![(b"a" as &[u8], JsonValue::Uint(1))]);
    let mut bytes = compress_to_bytes(&v, &CompressOptions::default()).unwrap();
    bytes.truncate(bytes.len().saturating_sub(3));
    let err = decompress_from_bytes(&bytes).unwrap_err();
    assert!(matches!(err, Error::OutOfBounds | Error::VarintOverflow));
}

#[test]
fn utf8_error_in_string() {
    let mut bytes = Vec::new();
    bytes.extend_from_slice(b"JCPR");
    bytes.push(0x01);
    bytes.push(0x00);
    bytes.push(0x00);
    bytes.push(0b101);
    bytes.push(0x01);
    bytes.push(0xFF);
    let err = decompress_from_bytes(&bytes).unwrap_err();
    assert!(matches!(err, Error::InvalidUtf8 | Error::OutOfBounds | Error::VarintOverflow));
}

#[test]
fn literal_invalid_byte_gives_invalid_utf8() {
    // header v1, empty dictionary, then a one-byte string 0xFF written
    // bit-exactly through the writer
    let mut w = BitWriter::new();
    write_header(&mut w, 0x01, 0, 0);
    w.write_bits(0b101, 3); // string tag
    write_uleb128(&mut w, 1); // length one
    w.write_byte(0xFF); // not UTF-8
    let bytes = w.into_bytes();
    let err = decompress_from_bytes(&bytes).unwrap_err();
    assert!(matches!(err, Error::InvalidUtf8));
}

#[test]
fn pool_missing_should_error() {
    let mut w = BitWriter::new();
    write_header(&mut w, VERSION_V2, 0, 0);
    w.write_bits(0b101, 3);
    w.write_bits(1, 1);
    w.write_bits(0, 8);
    let bytes = w.into_bytes();
    let err = decompress_from_bytes(&bytes).unwrap_err();
    assert!(matches!(err, Error::PoolIdOutOfRange));
}

#[test]
fn pool_id_out_of_range() {
    let mut w = BitWriter::new();
    write_header(&mut w, VERSION_V2, 0, 0);
    w.write_bits(0b101, 3);
    w.write_bits(1, 1);
    w.write_bits(1, 8);
    let bytes = w.into_bytes();
    let err = decompress_from_bytes(&bytes).unwrap_err();
    assert!(matches!(err, Error::PoolIdOutOfRange));
}

#[test]
fn v2_string_pool_roundtrip_and_benefit() {
    let make = || {
        let rec = |st: &[u8]| obj(vec![(b"status" as &[u8], s(st)), (b"msg", s(b"connected to server"))]);
        obj(vec![(b"items" as &[u8], JsonValue::Array(vec![
            rec(b"connected"),
            rec(b"connected"),
            rec(b"connected"),
            rec(b"connected"),
            rec(b"disconnected"),
        ]))])
    };

    let bytes_v1 = compress_to_bytes(&make(), &CompressOptions::default()).unwrap();

    let opt = CompressOptions { enable_value_pool: true, pool_min_repeats: 3, pool_min_string_len: 8 };
    let bytes_v2 = compress_with_options(&make(), &opt).unwrap();
    let out_v2 = decompress_from_bytes(&bytes_v2).unwrap();
    assert_eq!(make(), out_v2);

    assert!(bytes_v2.len() <= bytes_v1.len());
}

#[test]
fn pool_scenario_qualifying_strings() {
    let rec = |st: &[u8]| obj(vec![(b"status" as &[u8], s(st)), (b"msg", s(b"connected to server"))]);
    let v = JsonValue::Array(vec![
        rec(b"connected"),
        rec(b"connected"),
        rec(b"connected"),
        rec(b"connected"),
        rec(b"disconnected"),
    ]);
    let cfg = PoolConfig { min_repeats: 3, min_string_len: 8 };
    let pool = collect_string_pool(&v, cfg);
    assert!(pool.id_of(&b"connected to server".to_vec()).is_some());
    assert!(pool.id_of(&b"connected".to_vec()).is_some());
    assert!(pool.id_of(&b"disconnected".to_vec()).is_none());
    assert_eq!(pool.len(), 2);
    // ids by descending count: `connected to server` occurs 5 times,
    // `connected` 4 times
    assert_eq!(pool.id_of(&b"connected to server".to_vec()), Some(0));
    assert_eq!(pool.id_of(&b"connected".to_vec()), Some(1));
}

#[test]
fn collect_string_pool_basic() {
    let v = obj(vec![
        (b"a" as &[u8], s(b"status_ok")),
        (b"b", JsonValue::Array(vec![s(b"status_ok"), s(b"status_ok"), s(b"status_err")])),
        (b"c", obj(vec![(b"x", s(b"status_ok")), (b"y", s(b"status_err"))])),
    ]);
    let cfg = PoolConfig { min_repeats: 3, min_string_len: 5 };
    let pool = collect_string_pool(&v, cfg);
    assert!(pool.id_of(&b"status_ok".to_vec()).is_some());
    assert!(pool.id_of(&b"status_err".to_vec()).is_none());
}

#[test]
fn write_pool_and_header_v2() {
    let mut w = BitWriter::new();
    write_header(&mut w, VERSION_V2, 0, 2);
    let bytes = w.into_bytes();
    let mut r = json_packer::BitReader::new(&bytes);
    let hdr = json_packer::read_header(&mut r).unwrap();
    assert_eq!(hdr.version, VERSION_V2);
    assert_eq!(hdr.dict_len, 0);
    assert_eq!(hdr.pool_len, 2);
}

#[test]
fn roundtrip_integers() {
    let v = obj(vec![
        (b"i_min" as &[u8], JsonValue::Int(i64::MIN)),
        (b"i_max", JsonValue::Uint(i64::MAX as u64)),
        (b"u_max", JsonValue::Uint(u64::MAX)),
    ]);
    let bytes = compress_to_bytes(&v, &CompressOptions::default()).unwrap();
    let out = decompress_from_bytes(&bytes).unwrap();
    assert_eq!(v, out);
}

#[test]
fn roundtrip_unicode_and_nested() {
    let user = "\u{7528}\u{6237}";
    let name_key = "\u{59d3}\u{540d}";
    let name_val = "\u{5f20}\u{4e09}\u{1f642}";
    let age_key = "\u{5e74}\u{9f84}";
    let v = obj(vec![
        (user.as_bytes(), obj(vec![
            (name_key.as_bytes(), s(name_val.as_bytes())),
            (age_key.as_bytes(), JsonValue::Uint(25)),
        ])),
        (b"tags", JsonValue::Array(vec![s(b"a"), s(b"b"), s(b"c")])),
        (b"nums", JsonValue::Array(vec![
            JsonValue::Uint(1),
            JsonValue::Int(-2),
            JsonValue::Uint(3),
            JsonValue::Uint(4),
            JsonValue::Uint(u64::MAX),
        ])),
        (b"pi", JsonValue::Float(3.141592653589793f64.to_bits())),
    ]);
    let bytes = compress_to_bytes(&v, &CompressOptions::default()).unwrap();
    let out = decompress_from_bytes(&bytes).unwrap();
    assert_eq!(v, out);
}

#[test]
fn unicode_keys_sorted_by_utf8_bytes() {
    let user = "\u{7528}\u{6237}";
    let rocket = "\u{1f680}";
    let zhang = "\u{5f20}\u{4e09}";
    let v = obj(vec![
        (user.as_bytes(), s(zhang.as_bytes())),
        (rocket.as_bytes(), s(b"rocket")),
    ]);
    let d = collect_keys(&v);
    let (k0, _) = d.entry_at(0);
    let (k1, _) = d.entry_at(1);
    // the rocket's first byte 0xF0 sorts after 0xE7
    assert_eq!(k0.as_slice(), user.as_bytes());
    assert_eq!(k1.as_slice(), rocket.as_bytes());
    let bytes = compress_to_bytes(&v, &CompressOptions::default()).unwrap();
    let out = decompress_from_bytes(&bytes).unwrap();
    assert_eq!(v, out);
}

#[test]
fn dictionary_roundtrip_via_public_api() {
    let user = "\u{7528}\u{6237}";
    let age = "\u{5e74}\u{9f84}";
    let rocket = "\u{1f680}";
    let zhang = "\u{5f20}\u{4e09}";
    let v = obj(vec![
        (user.as_bytes(), s(zhang.as_bytes())),
        (age.as_bytes(), JsonValue::Uint(25)),
        (rocket.as_bytes(), s(b"rocket")),
    ]);
    let _bytes = compress_to_bytes(&v, &CompressOptions::default()).unwrap();
}

#[test]
fn nan_rejected_with_illegal_float() {
    let v = obj(vec![(b"x" as &[u8], JsonValue::Float(f64::NAN.to_bits()))]);
    let err = compress_to_bytes(&v, &CompressOptions::default()).unwrap_err();
    assert!(matches!(err, Error::IllegalFloat));
    let v2 = JsonValue::Float(f64::INFINITY.to_bits());
    let err2 = compress_to_bytes(&v2, &CompressOptions::default()).unwrap_err();
    assert!(matches!(err2, Error::IllegalFloat));
}

#[test]
fn float_roundtrips_bit_exactly() {
    let v = JsonValue::Array(vec![
        JsonValue::Float(0.0f64.to_bits()),
        JsonValue::Float((-0.0f64).to_bits()),
        JsonValue::Float(1.5f64.to_bits()),
        JsonValue::Float(f64::MIN_POSITIVE.to_bits()),
    ]);
    let bytes = compress_to_bytes(&v, &CompressOptions::default()).unwrap();
    let out = decompress_from_bytes(&bytes).unwrap();
    assert_eq!(v, out);
}

#[test]
fn empty_values_roundtrip() {
    for v in [
        JsonValue::Null,
        JsonValue::Bool(false),
        JsonValue::Bool(true),
        JsonValue::Array(vec![]),
        JsonValue::Object(vec![]),
        JsonValue::Str(vec![]),
        obj(vec![(b"" as &[u8], JsonValue::Null)]),
    ] {
        let bytes = compress_to_bytes(&v, &CompressOptions::default()).unwrap();
        let out = decompress_from_bytes(&bytes).unwrap();
        assert_eq!(v, out);
    }
}
