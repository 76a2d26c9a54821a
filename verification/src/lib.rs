//! A lossless compression codec for JSON documents.
//!
//! A JSON value is serialized into a compact self-describing binary
//! container: a fixed header, a sorted key-frequency dictionary, an
//! optional pool of repeated strings, and a recursively encoded root
//! value, all packed LSB-first into a bitstream.  Object keys are
//! written with a canonical Huffman code built from the dictionary, so
//! documents whose keys repeat compress well.  Decompression rebuilds
//! an equal value from the container.

pub mod base64util;
pub mod bits;
pub mod bitstream;
pub mod dict;
pub mod errors;
pub mod codec;
pub mod header;
pub mod pool;
pub mod roundtrip;
pub mod huffman;
pub mod tag;
pub mod varint;
pub mod value;

pub use base64util::{encode_base64, decode_base64};
pub use bitstream::{BitReader, BitWriter};
pub use codec::{CompressOptions, compress_with_options, decode_json, write_string_pool};
pub use dict::{KeyDict, collect_keys, read_dictionary, write_dictionary};
pub use errors::Error;
pub use header::{MAGIC, PackageHeader, VERSION_V1, VERSION_V2, read_header, write_header};
pub use huffman::HuffmanCodec;
pub use pool::{PoolConfig, StringPool, collect_string_pool};
pub use value::JsonValue;
pub use varint::{read_sleb128, read_uleb128, write_sleb128, write_uleb128};

use vstd::prelude::*;

verus! {

/// Compresses a value into a package under the given options.
pub fn compress_to_bytes(value: &JsonValue, opts: &CompressOptions) -> (r: Result<Vec<u8>, Error>)
    ensures
        ({
            let cb = codec::compress_bits(value@, *opts);
            match r {
                Ok(bytes) => cb matches Ok(bits) && bits::bytes_to_bits(bytes@)
                    =~= bitstream::padded_bits(bits),
                Err(e) => cb matches Err(e2) && e == e2,
            }
        }),
{
    codec::compress_with_options(value, opts)
}

/// Compresses a value and wraps the package in base64 text: the
/// standard alphabet, no padding, no whitespace.
pub fn compress_to_base64(value: &JsonValue, opts: &CompressOptions) -> (r: Result<String, Error>)
    ensures
        ({
            let cb = codec::compress_bits(value@, *opts);
            match r {
                Ok(text) => cb matches Ok(bits) && (exists|bytes: Seq<u8>|
                    bits::bytes_to_bits(bytes) =~= bitstream::padded_bits(bits)
                        && vstd::utf8::encode_utf8(text@) == #[trigger] base64util::b64_of(bytes))
                    && base64util::strip_ws(vstd::utf8::encode_utf8(text@))
                    == vstd::utf8::encode_utf8(text@),
                Err(e) => cb matches Err(e2) && e == e2,
            }
        }),
{
    let bytes = match codec::compress_with_options(value, opts) {
        Ok(b) => b,
        Err(e) => {
            return Err(e);
        },
    };
    let text = base64util::encode_base64(bytes.as_slice());
    Ok(text)
}

/// Decompresses a package from its bytes.
pub fn decompress_from_bytes(bytes: &[u8]) -> (r: Result<JsonValue, Error>)
    requires
        8 * bytes@.len() <= usize::MAX,
    ensures
        ({
            let pr = codec::parse_package(bits::bytes_to_bits(bytes@));
            match r {
                Ok(v) => pr matches Ok((sv, p)) && v@ == sv,
                Err(e) => pr matches Err(e2) && e == e2,
            }
        }),
{
    codec::decompress_from_bytes(bytes)
}

/// Unwraps base64 text and decompresses the package inside.  ASCII
/// whitespace in the text is ignored; padded and unpadded forms are
/// both accepted; text that is neither fails with `Base64Decode`.
pub fn decompress_from_base64(s: &str) -> (r: Result<JsonValue, Error>)
    ensures
        forall|b: Seq<u8>|
            (base64util::strip_ws(vstd::utf8::encode_utf8(s@)) == #[trigger] base64util::b64_of(b)
                && 8 * b.len() <= usize::MAX) ==> (match (codec::parse_package(
                bits::bytes_to_bits(b),
            )) {
                Ok((sv, p)) => r matches Ok(v) && v@ == sv,
                Err(e2) => r matches Err(e) && e == e2,
            }),
        forall|b: Seq<u8>|
            (base64util::strip_ws(vstd::utf8::encode_utf8(s@))
                == #[trigger] base64util::b64_padded_of(b) && 8 * b.len() <= usize::MAX) ==> (
            match (codec::parse_package(bits::bytes_to_bits(b))) {
                Ok((sv, p)) => r matches Ok(v) && v@ == sv,
                Err(e2) => r matches Err(e) && e == e2,
            }),
        (!(exists|b: Seq<u8>|
            base64util::strip_ws(vstd::utf8::encode_utf8(s@)) == #[trigger] base64util::b64_of(b))
            && !(exists|b: Seq<u8>|
            base64util::strip_ws(vstd::utf8::encode_utf8(s@))
                == #[trigger] base64util::b64_padded_of(b))) ==> (r matches Err(e) && e
            == Error::Base64Decode),
{
    let bytes = match base64util::decode_base64(s) {
        Ok(b) => b,
        Err(e) => {
            return Err(e);
        },
    };
    if bytes.len() > usize::MAX / 8 {
        return Err(Error::OutOfBounds);
    }
    codec::decompress_from_bytes(bytes.as_slice())
}

} // verus!
