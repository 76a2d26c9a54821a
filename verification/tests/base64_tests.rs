use base64::Engine;
use json_packer::{CompressOptions, JsonValue, decode_base64, encode_base64,
    compress_to_base64, decompress_from_base64};

#[test]
fn base64_standard_and_no_pad_decode() {
    let data = b"hello world";
    let b64_no_pad = encode_base64(data);
    let b64_padded = base64::engine::general_purpose::STANDARD.encode(data);

    let d1 = decode_base64(&b64_no_pad).unwrap();
    let d2 = decode_base64(&b64_padded).unwrap();
    assert_eq!(d1, data);
    assert_eq!(d2, data);
}

#[test]
fn base64_encode_is_real_encoding() {
    // would fail if the envelope handed its input back unchanged
    assert_eq!(encode_base64(b"hi"), "aGk");
    assert_eq!(decode_base64("aGk").unwrap(), b"hi".to_vec());
    assert!(decode_base64("not base64!!").is_err());
}

#[test]
fn whitespace_in_base64_is_tolerated() {
    assert_eq!(decode_base64("aG k\n").unwrap(), b"hi".to_vec());
    let v = JsonValue::Uint(7);
    let text = compress_to_base64(&v, &CompressOptions::default()).unwrap();
    let spaced: String = text.chars().flat_map(|c| [c, ' ']).collect();
    let out = decompress_from_base64(&spaced).unwrap();
    assert_eq!(v, out);
}

#[test]
fn textual_envelope_composes() {
    let v = JsonValue::Object(vec![
        (b"k".to_vec(), JsonValue::Str(b"v".to_vec())),
        (b"n".to_vec(), JsonValue::Int(-7)),
    ]);
    let text = compress_to_base64(&v, &CompressOptions::default()).unwrap();
    let out = decompress_from_base64(&text).unwrap();
    assert_eq!(v, out);
}
