//! The fixed preamble of a package: magic, version, and the dictionary
//! and pool entry counts.

use vstd::prelude::*;
use vstd::arithmetic::power2::pow2;
use crate::bits::{
    bits_value, byte_bits, bytes_to_bits, lemma_bits_of_len, lemma_bytes_to_bits_len,
    lemma_bits_value_of,
};
use crate::bitstream::{BitReader, BitWriter};
use crate::errors::Error;
use crate::varint::{
    uleb_bits, uleb_bytes, parse_uleb, write_uleb128, read_uleb128, lemma_uleb_roundtrip,
    lemma_uleb_bytes_len_le, lemma_uleb_bytes_min_len,
};

verus! {

broadcast use lemma_bits_of_len, lemma_bytes_to_bits_len;

/// The four magic bytes that open every package: ASCII `JCPR`.
pub const MAGIC: [u8; 4] = [0x4A, 0x43, 0x50, 0x52];

/// Version 1: no string pool.
pub const VERSION_V1: u8 = 0x01;

/// Version 2: a string pool section and a pool-reference flag on
/// string records.
pub const VERSION_V2: u8 = 0x02;

/// The decoded preamble of a package.
#[derive(Debug, Clone, Copy, PartialEq, Eq, Structural)]
pub struct PackageHeader {
    pub version: u8,
    pub dict_len: u64,
    pub pool_len: u64,
}

impl PackageHeader {
    /// A version-1 header with the given counts.
    pub fn new(dict_len: u64, pool_len: u64) -> (r: PackageHeader)
        ensures
            r == (PackageHeader { version: VERSION_V1, dict_len, pool_len }),
    {
        PackageHeader { version: VERSION_V1, dict_len, pool_len }
    }
}

/// The bits of the four magic bytes.
pub open spec fn magic_bits() -> Seq<bool> {
    byte_bits(0x4A) + byte_bits(0x43) + byte_bits(0x50) + byte_bits(0x52)
}

/// The bits of a whole header: magic, version byte, then the two
/// counts in unsigned LEB128.
pub open spec fn header_bits(version: u8, dict_len: nat, pool_len: nat) -> Seq<bool> {
    magic_bits() + byte_bits(version) + uleb_bits(dict_len) + uleb_bits(pool_len)
}

/// Parses a header at `pos`: checks the magic, accepts versions 1 and
/// 2, then reads the two counts.
pub open spec fn parse_header(bits: Seq<bool>, pos: int) -> Result<(PackageHeader, int), Error> {
    if pos < 0 || pos + 32 > bits.len() {
        Err(Error::OutOfBounds)
    } else if !(bits_value(bits.subrange(pos, pos + 8)) == 0x4A && bits_value(
        bits.subrange(pos + 8, pos + 16),
    ) == 0x43 && bits_value(bits.subrange(pos + 16, pos + 24)) == 0x50 && bits_value(
        bits.subrange(pos + 24, pos + 32),
    ) == 0x52) {
        Err(Error::BadMagic)
    } else if pos + 40 > bits.len() {
        Err(Error::OutOfBounds)
    } else {
        let ver = bits_value(bits.subrange(pos + 32, pos + 40));
        if ver != VERSION_V1 && ver != VERSION_V2 {
            Err(Error::BadVersion)
        } else {
            match parse_uleb(bits, pos + 40) {
                Ok((dl, p1)) => if dl >= pow2(64) {
                    Err(Error::VarintOverflow)
                } else {
                    match parse_uleb(bits, p1) {
                        Ok((pl, p2)) => if pl >= pow2(64) {
                            Err(Error::VarintOverflow)
                        } else {
                            Ok(
                                (
                                    PackageHeader {
                                        version: ver as u8,
                                        dict_len: dl as u64,
                                        pool_len: pl as u64,
                                    },
                                    p2,
                                ),
                            )
                        },
                        Err(e) => Err(e),
                    }
                },
                Err(e) => Err(e),
            }
        }
    }
}

/// Writes a header: the magic, the version byte, and the two counts.
pub fn write_header(writer: &mut BitWriter, version: u8, dict_len: u64, pool_len: u64)
    requires
        old(writer).wf(),
    ensures
        final(writer).wf(),
        final(writer)@ =~= old(writer)@ + header_bits(version, dict_len as nat, pool_len as nat),
{
    writer.write_byte(0x4A);
    writer.write_byte(0x43);
    writer.write_byte(0x50);
    writer.write_byte(0x52);
    writer.write_byte(version);
    write_uleb128(writer, dict_len);
    write_uleb128(writer, pool_len);
}

/// Reads and checks a header.  Fails with `BadMagic` on a wrong magic,
/// `BadVersion` on an unknown version byte, and propagates the count
/// reader's errors.
pub fn read_header(reader: &mut BitReader) -> (r: Result<PackageHeader, Error>)
    requires
        old(reader).wf(),
    ensures
        final(reader).wf(),
        final(reader).bits() == old(reader).bits(),
        ({
            let pr = parse_header(old(reader).bits(), old(reader).pos() as int);
            match r {
                Ok(h) => pr matches Ok((h2, p)) && h == h2 && final(reader).pos() == p,
                Err(e) => pr matches Err(e2) && e == e2,
            }
        }),
{
    let ghost all = reader.bits();
    let ghost pos0 = reader.pos() as int;
    proof {
        vstd::arithmetic::power2::lemma2_to64();
    }
    let m0 = match reader.read_byte() {
        Ok(b) => b,
        Err(e) => {
            return Err(e);
        },
    };
    let m1 = match reader.read_byte() {
        Ok(b) => b,
        Err(e) => {
            return Err(e);
        },
    };
    let m2 = match reader.read_byte() {
        Ok(b) => b,
        Err(e) => {
            return Err(e);
        },
    };
    let m3 = match reader.read_byte() {
        Ok(b) => b,
        Err(e) => {
            return Err(e);
        },
    };
    proof {
        lemma_byte_at(all, pos0, m0);
        lemma_byte_at(all, pos0 + 8, m1);
        lemma_byte_at(all, pos0 + 16, m2);
        lemma_byte_at(all, pos0 + 24, m3);
    }
    if !(m0 == 0x4A && m1 == 0x43 && m2 == 0x50 && m3 == 0x52) {
        return Err(Error::BadMagic);
    }
    let ver = match reader.read_byte() {
        Ok(b) => b,
        Err(e) => {
            return Err(e);
        },
    };
    proof {
        lemma_byte_at(all, pos0 + 32, ver);
    }
    if ver != VERSION_V1 && ver != VERSION_V2 {
        return Err(Error::BadVersion);
    }
    let dict_len = match read_uleb128(reader) {
        Ok(v) => v,
        Err(e) => {
            return Err(e);
        },
    };
    let pool_len = match read_uleb128(reader) {
        Ok(v) => v,
        Err(e) => {
            return Err(e);
        },
    };
    Ok(PackageHeader { version: ver, dict_len, pool_len })
}

/// A byte just read sits as its value in the bit sequence.
proof fn lemma_byte_at(bits: Seq<bool>, pos: int, b: u8)
    requires
        0 <= pos,
        pos + 8 <= bits.len(),
        byte_bits(b) =~= bits.subrange(pos, pos + 8),
    ensures
        bits_value(bits.subrange(pos, pos + 8)) == b as nat,
{
    lemma_bits_value_of(b as nat, 8);
    vstd::arithmetic::power2::lemma2_to64();
    vstd::arithmetic::div_mod::lemma_small_mod(b as nat, 256);
}

/// Parsing right after writing a header yields that header back.
pub proof fn lemma_header_roundtrip(
    version: u8,
    dict_len: u64,
    pool_len: u64,
    bits: Seq<bool>,
    pos: int,
)
    requires
        0 <= pos,
        version == VERSION_V1 || version == VERSION_V2,
        pos + header_bits(version, dict_len as nat, pool_len as nat).len() <= bits.len(),
        bits.subrange(
            pos,
            pos + header_bits(version, dict_len as nat, pool_len as nat).len(),
        ) =~= header_bits(version, dict_len as nat, pool_len as nat),
    ensures
        parse_header(bits, pos) == Ok::<_, Error>(
            (
                PackageHeader { version, dict_len, pool_len },
                pos + header_bits(version, dict_len as nat, pool_len as nat).len(),
            ),
        ),
{
    let hb = header_bits(version, dict_len as nat, pool_len as nat);
    let dl_bits = uleb_bits(dict_len as nat);
    let pl_bits = uleb_bits(pool_len as nat);
    let dl_len = 8 * uleb_bytes(dict_len as nat).len();
    let pl_len = 8 * uleb_bytes(pool_len as nat).len();
    lemma_uleb_bytes_min_len(dict_len as nat);
    lemma_uleb_bytes_min_len(pool_len as nat);
    assert(hb.len() == 40 + dl_len + pl_len);
    assert(forall|j: int| 0 <= j < hb.len() ==> bits[pos + j] == #[trigger] hb[j]);
    let ghost m: Seq<u8> = seq![0x4Au8, 0x43u8, 0x50u8, 0x52u8, version];
    assert forall|k: int| 0 <= k < 5 implies bits_value(
        bits.subrange(pos + 8 * k, pos + 8 * k + 8),
    ) == m[k] as nat by {
        assert(bits.subrange(pos + 8 * k, pos + 8 * k + 8) =~= byte_bits(m[k])) by {
            assert(forall|j: int| 0 <= j < 8 ==> hb[8 * k + j] == byte_bits(m[k])[j]);
        }
        lemma_byte_at(bits, pos + 8 * k, m[k]);
    }
    assert(bits_value(bits.subrange(pos, pos + 8)) == 0x4A);
    assert(bits_value(bits.subrange(pos + 8, pos + 16)) == 0x43);
    assert(bits_value(bits.subrange(pos + 16, pos + 24)) == 0x50);
    assert(bits_value(bits.subrange(pos + 24, pos + 32)) == 0x52);
    assert(bits_value(bits.subrange(pos + 32, pos + 40)) == version as nat);
    assert(bits.subrange(pos + 40, pos + 40 + dl_len) =~= dl_bits) by {
        assert(forall|j: int| 0 <= j < dl_len ==> hb[40 + j] == dl_bits[j]);
    }
    vstd::arithmetic::power2::lemma2_to64();
    vstd::arithmetic::power2::lemma2_to64_rest();
    vstd::arithmetic::power2::lemma_pow2_adds(64, 6);
    vstd::arithmetic::power2::lemma_pow2_strictly_increases(64, 70);
    lemma_uleb_bytes_len_le(dict_len as nat, 10);
    lemma_uleb_bytes_len_le(pool_len as nat, 10);
    lemma_uleb_roundtrip(dict_len as nat, bits, pos + 40, 10);
    assert(bits.subrange(pos + 40 + dl_len, pos + 40 + dl_len + pl_len) =~= pl_bits) by {
        assert(forall|j: int| 0 <= j < pl_len ==> hb[40 + dl_len + j] == pl_bits[j]);
    }
    lemma_uleb_roundtrip(pool_len as nat, bits, pos + 40 + dl_len, 10);
    assert((dict_len as nat) < pow2(64));
    assert((pool_len as nat) < pow2(64));
}

} // verus!
