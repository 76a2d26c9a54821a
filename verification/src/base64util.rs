//! The textual envelope: standard-alphabet base64 around package
//! bytes, written without padding, accepted with or without it, and
//! with ASCII whitespace in the text silently ignored.

use vstd::prelude::*;
use vstd::utf8::encode_utf8;
use base64::Engine;
use crate::errors::Error;

verus! {

/// The ASCII text, as its bytes, of the standard-alphabet unpadded
/// base64 encoding of a byte sequence.
pub uninterp spec fn b64_of(bytes: Seq<u8>) -> Seq<u8>;

/// The ASCII text, as its bytes, of the standard-alphabet padded
/// base64 encoding of a byte sequence.
pub uninterp spec fn b64_padded_of(bytes: Seq<u8>) -> Seq<u8>;

#[verifier::external_type_specification]
#[verifier::external_body]
pub struct ExDecodeError(base64::DecodeError);

/// Whether a byte is ASCII whitespace.
pub open spec fn is_ascii_ws(b: u8) -> bool {
    b == 0x20 || b == 0x09 || b == 0x0A || b == 0x0D || b == 0x0C
}

/// The bytes with every ASCII whitespace byte removed, order kept.
pub open spec fn strip_ws(bs: Seq<u8>) -> Seq<u8>
    decreases bs.len(),
{
    if bs.len() == 0 {
        Seq::empty()
    } else {
        strip_ws(bs.drop_last()) + (if is_ascii_ws(bs.last()) {
            Seq::<u8>::empty()
        } else {
            seq![bs.last()]
        })
    }
}

/// Encodes bytes as standard-alphabet base64 without padding.
///
/// Relies on base64's `Engine::encode` with the `STANDARD_NO_PAD`
/// engine: the text is the standard-alphabet, unpadded encoding of the
/// input, a function of the input bytes alone; its alphabet
/// (`A-Za-z0-9+/`) contains no whitespace, so stripping whitespace
/// leaves the text unchanged.
#[verifier::external_body]
pub fn encode_base64(bytes: &[u8]) -> (r: String)
    ensures
        encode_utf8(r@) == b64_of(bytes@),
        strip_ws(encode_utf8(r@)) == encode_utf8(r@),
{
    base64::engine::general_purpose::STANDARD_NO_PAD.encode(bytes)
}

/// Relies on base64's `Engine::decode` with the `STANDARD_NO_PAD`
/// engine, handed the text's bytes: it inverts the unpadded encoding
/// exactly — succeeding exactly on texts that are the unpadded
/// encoding of some bytes and returning those bytes.  A text that both
/// engines accept (the padded form of bytes whose length is a multiple
/// of three carries no `=` and equals the unpadded form) decodes to
/// the same bytes under both, so an accepted text that is the padded
/// encoding of `b` also yields `b`.
#[verifier::external_body]
fn decode_no_pad(text: &[u8]) -> (r: Result<Vec<u8>, base64::DecodeError>)
    ensures
        r matches Ok(v) ==> text@ == b64_of(v@),
        r matches Ok(v) ==> forall|b: Seq<u8>| text@ == b64_of(b) ==> v@ == b,
        r matches Ok(v) ==> forall|b: Seq<u8>| text@ == b64_padded_of(b) ==> v@ == b,
        r matches Err(e) ==> forall|b: Seq<u8>| text@ != b64_of(b),
{
    base64::engine::general_purpose::STANDARD_NO_PAD.decode(text)
}

/// Relies on base64's `Engine::decode` with the `STANDARD` engine,
/// handed the text's bytes: it inverts the padded encoding exactly, in
/// the same way.
#[verifier::external_body]
fn decode_padded(text: &[u8]) -> (r: Result<Vec<u8>, base64::DecodeError>)
    ensures
        r matches Ok(v) ==> text@ == b64_padded_of(v@),
        r matches Ok(v) ==> forall|b: Seq<u8>| text@ == b64_padded_of(b) ==> v@ == b,
        r matches Err(e) ==> forall|b: Seq<u8>| text@ != b64_padded_of(b),
{
    base64::engine::general_purpose::STANDARD.decode(text)
}

/// The text's bytes with ASCII whitespace removed.
fn strip_ascii_ws(s: &str) -> (r: Vec<u8>)
    ensures
        r@ =~= strip_ws(encode_utf8(s@)),
{
    let bytes = s.as_bytes();
    let ghost bs = bytes@;
    let n = bytes.len();
    let mut out: Vec<u8> = Vec::new();
    let mut i: usize = 0;
    proof {
        assert(bs.take(0) =~= Seq::<u8>::empty());
    }
    while i < n
        invariant
            i <= n,
            n == bs.len(),
            bs == bytes@,
            bs == encode_utf8(s@),
            out@ =~= strip_ws(bs.take(i as int)),
        decreases n - i,
    {
        let b = bytes[i];
        proof {
            assert(bs.take(i + 1).drop_last() =~= bs.take(i as int));
            assert(bs.take(i + 1).last() == bs[i as int]);
        }
        if !(b == 0x20 || b == 0x09 || b == 0x0A || b == 0x0D || b == 0x0C) {
            out.push(b);
            proof {
                assert(strip_ws(bs.take(i + 1)) =~= strip_ws(bs.take(i as int)).push(
                    bs[i as int],
                ));
            }
        } else {
            proof {
                assert(strip_ws(bs.take(i + 1)) =~= strip_ws(bs.take(i as int)) + Seq::<
                    u8,
                >::empty());
                assert(strip_ws(bs.take(i + 1)) =~= strip_ws(bs.take(i as int)));
            }
        }
        i += 1;
    }
    proof {
        assert(bs.take(n as int) =~= bs);
    }
    out
}

/// Decodes base64 text: ASCII whitespace is stripped first, then the
/// unpadded form is tried, then the padded one; text that is neither
/// is refused with `Base64Decode`.
pub fn decode_base64(s: &str) -> (r: Result<Vec<u8>, Error>)
    ensures
        forall|b: Seq<u8>|
            strip_ws(encode_utf8(s@)) == b64_of(b) ==> (r matches Ok(v) && v@ == b),
        forall|b: Seq<u8>|
            strip_ws(encode_utf8(s@)) == b64_padded_of(b) ==> (r matches Ok(v) && v@ == b),
        r matches Ok(v) ==> strip_ws(encode_utf8(s@)) == b64_of(v@) || strip_ws(encode_utf8(s@))
            == b64_padded_of(v@),
        r matches Err(e) ==> e == Error::Base64Decode && !(exists|b: Seq<u8>|
            strip_ws(encode_utf8(s@)) == b64_of(b)) && !(exists|b: Seq<u8>|
            strip_ws(encode_utf8(s@)) == b64_padded_of(b)),
{
    let cleaned = strip_ascii_ws(s);
    match decode_no_pad(cleaned.as_slice()) {
        Ok(v) => Ok(v),
        Err(e1) => match decode_padded(cleaned.as_slice()) {
            Ok(v) => Ok(v),
            Err(e2) => Err(Error::Base64Decode),
        },
    }
}

} // verus!
