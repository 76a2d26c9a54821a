use json_packer::{BitReader, BitWriter, Error, HuffmanCodec, KeyDict, MAGIC, VERSION_V1,
    VERSION_V2, read_header, read_sleb128, read_uleb128, write_header, write_sleb128,
    write_uleb128};
use json_packer::tag;

#[test]
fn bitwriter_reader_bits() {
    let mut w = BitWriter::new();
    w.write_bits(0b101, 3);
    w.write_bits(0b11, 2);
    let bytes = w.into_bytes();
    let mut r = BitReader::new(&bytes);
    assert_eq!(r.read_bits(3).unwrap(), 0b101);
    assert_eq!(r.read_bits(2).unwrap(), 0b11);
}

#[test]
fn cross_byte_read_write() {
    let mut w = BitWriter::new();
    w.write_bits(0b11010, 5);
    w.write_bits(0b10101010101, 11);
    let bytes = w.into_bytes();
    let mut r = BitReader::new(&bytes);
    assert_eq!(r.read_bits(5).unwrap(), 0b11010);
    assert_eq!(r.read_bits(11).unwrap(), 0b10101010101);
}

#[test]
fn bitstream_inverse_many_widths() {
    let cases: Vec<(u64, u32)> = vec![
        (0, 0),
        (1, 1),
        (0xFF, 8),
        (0x1234, 16),
        (0xDEADBEEF, 32),
        (u64::MAX, 64),
        (5, 3),
        (77, 7),
    ];
    let mut w = BitWriter::new();
    let mut total_bits: usize = 0;
    for &(v, n) in &cases {
        w.write_bits(v, n);
        total_bits += n as usize;
    }
    let bytes = w.into_bytes();
    assert_eq!(bytes.len(), (total_bits + 7) / 8);
    let mut r = BitReader::new(&bytes);
    for &(v, n) in &cases {
        let mask = if n == 64 { u64::MAX } else { (1u64 << n) - 1 };
        assert_eq!(r.read_bits(n).unwrap(), v & mask);
    }
}

#[test]
fn bitreader_out_of_bounds() {
    let bytes = [0u8; 1];
    let mut r = BitReader::new(&bytes);
    assert_eq!(r.read_bits(8).unwrap(), 0);
    assert!(matches!(r.read_bits(1), Err(Error::OutOfBounds)));
}

#[test]
fn uleb128_roundtrip() {
    let mut w = BitWriter::new();
    for &v in &[0u64, 1, 127, 128, 16384, u64::MAX] {
        write_uleb128(&mut w, v);
    }
    let bytes = w.into_bytes();
    let mut r = BitReader::new(&bytes);
    for &v in &[0u64, 1, 127, 128, 16384, u64::MAX] {
        let x = read_uleb128(&mut r).unwrap();
        assert_eq!(x, v);
    }
}

#[test]
fn sleb128_roundtrip() {
    let mut w = BitWriter::new();
    for &v in &[0i64, -1, 1, 63, 64, -64, i64::MIN, i64::MAX] {
        write_sleb128(&mut w, v);
    }
    let bytes = w.into_bytes();
    let mut r = BitReader::new(&bytes);
    for &v in &[0i64, -1, 1, 63, 64, -64, i64::MIN, i64::MAX] {
        let x = read_sleb128(&mut r).unwrap();
        assert_eq!(x, v);
    }
}

#[test]
fn uleb128_overlong_overflows() {
    // eleven continuation bytes never terminate within the budget
    let bytes = [0x80u8; 11];
    let mut r = BitReader::new(&bytes);
    assert!(matches!(read_uleb128(&mut r), Err(Error::VarintOverflow)));
    // ten groups encoding a value beyond 64 bits
    let wide = [0xFFu8, 0xFF, 0xFF, 0xFF, 0xFF, 0xFF, 0xFF, 0xFF, 0xFF, 0x7F];
    let mut r2 = BitReader::new(&wide);
    assert!(matches!(read_uleb128(&mut r2), Err(Error::VarintOverflow)));
}

#[test]
fn header_roundtrip() {
    let mut w = BitWriter::new();
    write_header(&mut w, VERSION_V1, 12, 0);
    let bytes = w.into_bytes();
    let mut r = BitReader::new(&bytes);
    let h = read_header(&mut r).unwrap();
    assert_eq!(h.version, VERSION_V1);
    assert_eq!(h.dict_len, 12);
    assert_eq!(h.pool_len, 0);
}

#[test]
fn header_magic_version_constants() {
    assert_eq!(&MAGIC, b"JCPR");
    assert_eq!(VERSION_V1, 0x01);
}

#[test]
fn type_tags_values() {
    assert_eq!(tag::NULL, 0b000);
    assert_eq!(tag::BOOL_FALSE, 0b001);
    assert_eq!(tag::BOOL_TRUE, 0b010);
    assert_eq!(tag::INT, 0b011);
    assert_eq!(tag::FLOAT, 0b100);
    assert_eq!(tag::STRING, 0b101);
    assert_eq!(tag::OBJECT, 0b110);
    assert_eq!(tag::ARRAY, 0b111);
}

#[test]
fn error_variants_debug() {
    let _ = Error::IllegalFloat;
    let _ = Error::OutOfBounds;
    let _ = Error::VarintOverflow;
    let _ = Error::BadMagic;
    let _ = Error::BadVersion;
    let _ = Error::HuffmanError;
}

#[test]
fn simple_huffman() {
    let mut freq = KeyDict::new();
    freq.insert(b"name".to_vec(), 2);
    freq.insert(b"age".to_vec(), 1);
    let codec = HuffmanCodec::from_frequencies(&freq).unwrap();
    assert!(codec.try_get_code(&b"name".to_vec()).is_some());
    assert!(codec.try_get_code(&b"age".to_vec()).is_some());
}

#[test]
fn encode_decode_roundtrip() {
    let mut freq = KeyDict::new();
    freq.insert(b"name".to_vec(), 2);
    freq.insert(b"age".to_vec(), 1);
    let codec = HuffmanCodec::from_frequencies(&freq).unwrap();
    let mut w = BitWriter::new();
    codec.write_key_code(&b"name".to_vec(), &mut w).unwrap();
    codec.write_key_code(&b"age".to_vec(), &mut w).unwrap();
    let bytes = w.into_bytes();
    let mut r = BitReader::new(&bytes);
    let k1 = codec.decode_key(&mut r).unwrap();
    let k2 = codec.decode_key(&mut r).unwrap();
    assert_eq!(k1, b"name".to_vec());
    assert_eq!(k2, b"age".to_vec());
}

#[test]
fn huffman_build_basic() {
    let mut freq = KeyDict::new();
    freq.insert(b"name".to_vec(), 2);
    freq.insert(b"age".to_vec(), 1);
    let codec = HuffmanCodec::from_frequencies(&freq).unwrap();
    assert!(codec.try_get_code(&b"name".to_vec()).is_some());
    assert!(codec.try_get_code(&b"age".to_vec()).is_some());
}

#[test]
fn huffman_encode_decode_roundtrip() {
    let mut freq = KeyDict::new();
    freq.insert(b"name".to_vec(), 2);
    freq.insert(b"age".to_vec(), 1);
    let codec = HuffmanCodec::from_frequencies(&freq).unwrap();
    let mut w = BitWriter::new();
    codec.write_key_code(&b"name".to_vec(), &mut w).unwrap();
    codec.write_key_code(&b"age".to_vec(), &mut w).unwrap();
    let bytes = w.into_bytes();
    let mut r = BitReader::new(&bytes);
    let k1 = codec.decode_key(&mut r).unwrap();
    let k2 = codec.decode_key(&mut r).unwrap();
    assert_eq!(k1, b"name".to_vec());
    assert_eq!(k2, b"age".to_vec());
}

#[test]
fn huffman_single_and_empty_cases() {
    // single symbol
    let mut one = KeyDict::new();
    one.insert(b"only".to_vec(), 10);
    let codec1 = HuffmanCodec::from_frequencies(&one).unwrap();
    assert!(codec1.try_get_code(&b"only".to_vec()).is_some());
    // the lone code word is the single zero bit
    let (code, len) = codec1.try_get_code(&b"only".to_vec()).unwrap();
    assert_eq!((code, len), (0, 1));

    // empty
    let empty = KeyDict::new();
    let codec2 = HuffmanCodec::from_frequencies(&empty).unwrap();
    assert!(codec2.try_get_code(&b"x".to_vec()).is_none());
}

#[test]
fn huffman_canonical_order_shortest_for_common() {
    // the most frequent key gets the shortest code; equal lengths are
    // ordered by key bytes
    let mut freq = KeyDict::new();
    freq.insert(b"name".to_vec(), 2);
    freq.insert(b"age".to_vec(), 1);
    freq.insert(b"profile".to_vec(), 1);
    let codec = HuffmanCodec::from_frequencies(&freq).unwrap();
    let (_cn, ln) = codec.try_get_code(&b"name".to_vec()).unwrap();
    let (ca, la) = codec.try_get_code(&b"age".to_vec()).unwrap();
    let (cp, lp) = codec.try_get_code(&b"profile".to_vec()).unwrap();
    assert!(ln <= la && ln <= lp);
    assert_eq!(la, lp);
    assert!(ca < cp);
}

#[test]
fn dict_counts_keys() {
    let mut d = KeyDict::new();
    d.insert(b"b".to_vec(), 2);
    d.insert(b"a".to_vec(), 1);
    assert_eq!(d.len(), 2);
    assert_eq!(d.freq_of(&b"a".to_vec()), 1);
    assert_eq!(d.freq_of(&b"b".to_vec()), 2);
    assert_eq!(d.freq_of(&b"c".to_vec()), 0);
    // sorted ascending by bytes
    let (k0, _) = d.entry_at(0);
    assert_eq!(k0, &b"a".to_vec());
}
