//! Unsigned and signed LEB128 over the bitstream.
//!
//! Each byte carries seven payload bits, little-endian by group, with
//! the high bit set on every byte but the last.  The signed form
//! sign-extends from bit 6 of the final byte.  Both are written as
//! whole bytes against the bitstream, so they work interleaved with
//! sub-byte fields.

use vstd::prelude::*;
use vstd::arithmetic::power2::pow2;
use crate::bits::{
    bits_of, bits_value, byte_bits, bytes_to_bits, lemma_bits_of_len, lemma_bytes_to_bits_len,
    lemma_bytes_to_bits_append, lemma_bits_value_of,
};
use crate::bitstream::{BitReader, BitWriter};
use crate::errors::Error;

verus! {

broadcast use lemma_bits_of_len, lemma_bytes_to_bits_len;

/// The unsigned LEB128 encoding of a number, as bytes.
pub open spec fn uleb_bytes(v: nat) -> Seq<u8>
    decreases v,
    via uleb_bytes_decreases
{
    if v < 128 {
        seq![v as u8]
    } else {
        seq![(v % 128 + 128) as u8] + uleb_bytes(v / 128)
    }
}

#[via_fn]
proof fn uleb_bytes_decreases(v: nat) {
    if v >= 128 {
        vstd::arithmetic::div_mod::lemma_div_is_strictly_smaller(v as int, 128);
    }
}

/// The unsigned LEB128 encoding of a number, as bits on the wire.
pub open spec fn uleb_bits(v: nat) -> Seq<bool> {
    bytes_to_bits(uleb_bytes(v))
}

/// The signed LEB128 encoding of an integer, as bytes.
pub open spec fn sleb_bytes(v: int) -> Seq<u8>
    decreases (if v < 0 { -v } else { v }),
    via sleb_bytes_decreases
{
    if -64 <= v <= 63 {
        seq![(v % 128) as u8]
    } else {
        seq![(v % 128 + 128) as u8] + sleb_bytes(v / 128)
    }
}

#[via_fn]
proof fn sleb_bytes_decreases(v: int) {
    if !(-64 <= v <= 63) {
        vstd::arithmetic::div_mod::lemma_fundamental_div_mod(v, 128);
        vstd::arithmetic::div_mod::lemma_mod_bound(v, 128);
    }
}

/// The signed LEB128 encoding of an integer, as bits on the wire.
pub open spec fn sleb_bits(v: int) -> Seq<bool> {
    bytes_to_bits(sleb_bytes(v))
}

/// Writes `value` in unsigned LEB128.
pub fn write_uleb128(writer: &mut BitWriter, value: u64)
    requires
        old(writer).wf(),
    ensures
        final(writer).wf(),
        final(writer)@ =~= old(writer)@ + uleb_bits(value as nat),
    decreases value,
{
    if value < 128 {
        writer.write_byte(value as u8);
        proof {
            assert(uleb_bytes(value as nat) =~= seq![value as u8]);
            assert(bytes_to_bits(seq![value as u8]).skip(8) =~= bytes_to_bits(
                seq![value as u8].skip(1),
            ));
            assert(uleb_bits(value as nat) =~= byte_bits(value as u8));
        }
    } else {
        let b0 = (value % 128 + 128) as u8;
        let ghost pre = writer@;
        writer.write_byte(b0);
        proof {
            vstd::arithmetic::div_mod::lemma_div_is_strictly_smaller(value as int, 128);
        }
        write_uleb128(writer, value / 128);
        proof {
            lemma_bytes_to_bits_append(seq![b0], uleb_bytes(value as nat / 128));
            assert(bytes_to_bits(seq![b0]) =~= byte_bits(b0));
            assert(uleb_bytes(value as nat) =~= seq![b0] + uleb_bytes(value as nat / 128));
        }
    }
}

/// Writes `value` in signed LEB128.
pub fn write_sleb128(writer: &mut BitWriter, value: i64)
    requires
        old(writer).wf(),
    ensures
        final(writer).wf(),
        final(writer)@ =~= old(writer)@ + sleb_bits(value as int),
    decreases (if value < 0 { -(value as int) } else { value as int }),
{
    if -64 <= value && value <= 63 {
        let b0: u8 = if value >= 0 {
            value as u8
        } else {
            (value + 128) as u8
        };
        assert(b0 == value as int % 128) by {
            if value >= 0 {
                vstd::arithmetic::div_mod::lemma_small_mod(value as nat, 128);
            } else {
                vstd::arithmetic::div_mod::lemma_mod_multiples_vanish(1, value as int, 128);
                vstd::arithmetic::div_mod::lemma_small_mod((value + 128) as nat, 128);
            }
        }
        writer.write_byte(b0);
        proof {
            assert(sleb_bytes(value as int) =~= seq![b0]);
            assert(sleb_bits(value as int) =~= byte_bits(b0));
        }
    } else {
        // low seven bits, euclidean
        let low: i64 = value % 128;
        let lowe: i64 = if low < 0 {
            low + 128
        } else {
            low
        };
        assert(lowe == value as int % 128) by {
            vstd::arithmetic::div_mod::lemma_fundamental_div_mod(value as int, 128);
            vstd::arithmetic::div_mod::lemma_mod_bound(value as int, 128);
        }
        let b0: u8 = (lowe + 128) as u8;
        let ghost pre = writer@;
        writer.write_byte(b0);
        // euclidean quotient: round toward negative infinity
        let q: i64 = if value >= 0 {
            value / 128
        } else if value % 128 == 0 {
            value / 128
        } else {
            value / 128 - 1
        };
        assert(q == value as int / 128) by {
            vstd::arithmetic::div_mod::lemma_fundamental_div_mod(value as int, 128);
            vstd::arithmetic::div_mod::lemma_mod_bound(value as int, 128);
        }
        proof {
            vstd::arithmetic::div_mod::lemma_mod_bound(value as int, 128);
        }
        write_sleb128(writer, q);
        proof {
            lemma_bytes_to_bits_append(seq![b0], sleb_bytes(value as int / 128));
            assert(bytes_to_bits(seq![b0]) =~= byte_bits(b0));
            assert(sleb_bytes(value as int) =~= seq![b0] + sleb_bytes(value as int / 128));
        }
    }
}

/// One step of unsigned LEB128 parsing: `fuel` bounds the group count.
pub open spec fn parse_uleb_rec(bits: Seq<bool>, pos: int, fuel: nat) -> Result<(nat, int), Error>
    decreases fuel,
{
    if fuel == 0 {
        Err(Error::VarintOverflow)
    } else if pos < 0 || pos + 8 > bits.len() {
        Err(Error::OutOfBounds)
    } else {
        let byte = bits_value(bits.subrange(pos, pos + 8));
        if byte < 128 {
            Ok((byte, pos + 8))
        } else {
            match parse_uleb_rec(bits, pos + 8, (fuel - 1) as nat) {
                Ok((rest, p)) => Ok((((byte - 128) + 128 * rest) as nat, p)),
                Err(e) => Err(e),
            }
        }
    }
}

/// Parses an unsigned LEB128 number: at most ten groups serve a 64-bit
/// value.
pub open spec fn parse_uleb(bits: Seq<bool>, pos: int) -> Result<(nat, int), Error> {
    parse_uleb_rec(bits, pos, 10)
}

/// One step of signed LEB128 parsing; the final group is taken
/// sign-extended.
pub open spec fn parse_sleb_rec(bits: Seq<bool>, pos: int, fuel: nat) -> Result<(int, int), Error>
    decreases fuel,
{
    if fuel == 0 {
        Err(Error::VarintOverflow)
    } else if pos < 0 || pos + 8 > bits.len() {
        Err(Error::OutOfBounds)
    } else {
        let byte = bits_value(bits.subrange(pos, pos + 8));
        if byte < 64 {
            Ok((byte as int, pos + 8))
        } else if byte < 128 {
            Ok((byte - 128, pos + 8))
        } else {
            match parse_sleb_rec(bits, pos + 8, (fuel - 1) as nat) {
                Ok((rest, p)) => Ok(((byte - 128) + 128 * rest, p)),
                Err(e) => Err(e),
            }
        }
    }
}

/// Parses a signed LEB128 integer: at most ten groups serve a 64-bit
/// value.
pub open spec fn parse_sleb(bits: Seq<bool>, pos: int) -> Result<(int, int), Error> {
    parse_sleb_rec(bits, pos, 10)
}

/// Whether an integer fits a signed 64-bit word.
pub open spec fn in_i64(v: int) -> bool {
    i64::MIN <= v <= i64::MAX
}

/// Reading a whole byte yields that byte's value.
proof fn lemma_read_byte_value(bits: Seq<bool>, pos: int, b: u8)
    requires
        0 <= pos,
        pos + 8 <= bits.len(),
        byte_bits(b) =~= bits.subrange(pos, pos + 8),
    ensures
        bits_value(bits.subrange(pos, pos + 8)) == b as nat,
{
    lemma_bits_value_of(b as nat, 8);
    vstd::arithmetic::power2::lemma2_to64();
    vstd::arithmetic::div_mod::lemma_small_mod(b as nat, 256);
}

fn read_uleb_rec(reader: &mut BitReader, fuel: u8) -> (r: Result<u64, Error>)
    requires
        old(reader).wf(),
    ensures
        final(reader).wf(),
        final(reader).bits() == old(reader).bits(),
        final(reader).pos() >= old(reader).pos(),
        ({
            let pr = parse_uleb_rec(old(reader).bits(), old(reader).pos() as int, fuel as nat);
            match r {
                Ok(x) => pr matches Ok((v, p)) && v == x as nat && final(reader).pos() == p,
                Err(e) => (pr matches Err(e2) && e == e2) || (pr matches Ok((v, p)) && v >= pow2(
                    64,
                ) && e == Error::VarintOverflow),
            }
        }),
    decreases fuel,
{
    if fuel == 0 {
        return Err(Error::VarintOverflow);
    }
    let ghost all = reader.bits();
    let ghost pos0 = reader.pos() as int;
    let byte = match reader.read_byte() {
        Ok(b) => b,
        Err(e) => {
            return Err(e);
        },
    };
    proof {
        lemma_read_byte_value(all, pos0, byte);
    }
    if byte < 128 {
        proof {
            vstd::arithmetic::power2::lemma2_to64();
        }
        Ok(byte as u64)
    } else {
        match read_uleb_rec(reader, fuel - 1) {
            Ok(rest) => {
                let payload = (byte - 128) as u64;
                if rest <= (u64::MAX - payload) / 128 {
                    proof {
                        vstd::arithmetic::power2::lemma2_to64();
                        vstd::arithmetic::power2::lemma2_to64_rest();
                        vstd::arithmetic::div_mod::lemma_fundamental_div_mod(
                            (u64::MAX - payload) as int,
                            128,
                        );
                        vstd::arithmetic::div_mod::lemma_mod_bound(
                            (u64::MAX - payload) as int,
                            128,
                        );
                    }
                    Ok(payload + 128 * rest)
                } else {
                    proof {
                        vstd::arithmetic::power2::lemma2_to64();
                        vstd::arithmetic::power2::lemma2_to64_rest();
                        vstd::arithmetic::div_mod::lemma_fundamental_div_mod(
                            (u64::MAX - payload) as int,
                            128,
                        );
                        vstd::arithmetic::div_mod::lemma_mod_bound(
                            (u64::MAX - payload) as int,
                            128,
                        );
                    }
                    Err(Error::VarintOverflow)
                }
            },
            Err(e) => Err(e),
        }
    }
}

/// Reads an unsigned LEB128 number.  Succeeds exactly when a terminated
/// encoding of a value below `pow2(64)` lies at the cursor within ten
/// groups; `VarintOverflow` reports a longer or wider payload.
pub fn read_uleb128(reader: &mut BitReader) -> (r: Result<u64, Error>)
    requires
        old(reader).wf(),
    ensures
        final(reader).wf(),
        final(reader).bits() == old(reader).bits(),
        final(reader).pos() >= old(reader).pos(),
        ({
            let pr = parse_uleb(old(reader).bits(), old(reader).pos() as int);
            match r {
                Ok(x) => pr matches Ok((v, p)) && v == x as nat && final(reader).pos() == p,
                Err(e) => (pr matches Err(e2) && e == e2) || (pr matches Ok((v, p)) && v >= pow2(
                    64,
                ) && e == Error::VarintOverflow),
            }
        }),
{
    read_uleb_rec(reader, 10)
}

fn read_sleb_rec(reader: &mut BitReader, fuel: u8) -> (r: Result<i64, Error>)
    requires
        old(reader).wf(),
    ensures
        final(reader).wf(),
        final(reader).bits() == old(reader).bits(),
        final(reader).pos() >= old(reader).pos(),
        ({
            let pr = parse_sleb_rec(old(reader).bits(), old(reader).pos() as int, fuel as nat);
            match r {
                Ok(x) => pr matches Ok((v, p)) && v == x as int && final(reader).pos() == p,
                Err(e) => (pr matches Err(e2) && e == e2) || (pr matches Ok((v, p)) && !in_i64(v)
                    && e == Error::VarintOverflow),
            }
        }),
    decreases fuel,
{
    if fuel == 0 {
        return Err(Error::VarintOverflow);
    }
    let ghost all = reader.bits();
    let ghost pos0 = reader.pos() as int;
    let byte = match reader.read_byte() {
        Ok(b) => b,
        Err(e) => {
            return Err(e);
        },
    };
    proof {
        lemma_read_byte_value(all, pos0, byte);
    }
    if byte < 64 {
        Ok(byte as i64)
    } else if byte < 128 {
        Ok((byte as i64) - 128)
    } else {
        match read_sleb_rec(reader, fuel - 1) {
            Ok(rest) => {
                let payload = (byte - 128) as i64;
                let val128: i128 = (payload as i128) + 128 * (rest as i128);
                if i64::MIN as i128 <= val128 && val128 <= i64::MAX as i128 {
                    Ok(val128 as i64)
                } else {
                    Err(Error::VarintOverflow)
                }
            },
            Err(e) => Err(e),
        }
    }
}

/// Reads a signed LEB128 integer.  Succeeds exactly when a terminated
/// encoding of a signed 64-bit value lies at the cursor within ten
/// groups; `VarintOverflow` reports a longer or wider payload.
pub fn read_sleb128(reader: &mut BitReader) -> (r: Result<i64, Error>)
    requires
        old(reader).wf(),
    ensures
        final(reader).wf(),
        final(reader).bits() == old(reader).bits(),
        final(reader).pos() >= old(reader).pos(),
        ({
            let pr = parse_sleb(old(reader).bits(), old(reader).pos() as int);
            match r {
                Ok(x) => pr matches Ok((v, p)) && v == x as int && final(reader).pos() == p,
                Err(e) => (pr matches Err(e2) && e == e2) || (pr matches Ok((v, p)) && !in_i64(v)
                    && e == Error::VarintOverflow),
            }
        }),
{
    read_sleb_rec(reader, 10)
}

/// An unsigned LEB128 encoding is never empty.
pub proof fn lemma_uleb_bytes_min_len(v: nat)
    ensures
        uleb_bytes(v).len() >= 1,
{
    if v < 128 {
        assert(uleb_bytes(v) =~= seq![v as u8]);
    }
}

/// A value below `pow2(7 * k)` takes at most `k` LEB128 groups.
pub proof fn lemma_uleb_bytes_len_le(v: nat, k: nat)
    requires
        1 <= k,
        v < pow2(7 * k),
    ensures
        uleb_bytes(v).len() <= k,
    decreases k,
{
    if v >= 128 {
        vstd::arithmetic::power2::lemma_pow2_adds(7, (7 * k - 7) as nat);
        vstd::arithmetic::power2::lemma2_to64();
        vstd::arithmetic::div_mod::lemma_fundamental_div_mod(v as int, 128);
        vstd::arithmetic::div_mod::lemma_mod_bound(v as int, 128);
        assert(v / 128 < pow2((7 * (k - 1)) as nat));
        assert(k >= 2) by {
            if k == 1 {
                assert(pow2(7) == 128);
            }
        }
        lemma_uleb_bytes_len_le(v / 128, (k - 1) as nat);
    }
}

/// A signed LEB128 encoding is never empty.
pub proof fn lemma_sleb_bytes_min_len(v: int)
    ensures
        sleb_bytes(v).len() >= 1,
{
    if -64 <= v <= 63 {
        assert(sleb_bytes(v) =~= seq![(v % 128) as u8]);
    }
}

/// An integer within `pow2(7 * k - 1)` of zero takes at most `k`
/// signed LEB128 groups.
pub proof fn lemma_sleb_bytes_len_le(v: int, k: nat)
    requires
        1 <= k,
        -pow2((7 * k - 1) as nat) <= v < pow2((7 * k - 1) as nat),
    ensures
        sleb_bytes(v).len() <= k,
    decreases k,
{
    if !(-64 <= v <= 63) {
        vstd::arithmetic::power2::lemma2_to64();
        assert(k >= 2) by {
            if k == 1 {
                assert(pow2(6) == 64);
            }
        }
        vstd::arithmetic::power2::lemma_pow2_adds(7, (7 * k - 8) as nat);
        vstd::arithmetic::div_mod::lemma_fundamental_div_mod(v, 128);
        vstd::arithmetic::div_mod::lemma_mod_bound(v, 128);
        assert(-pow2((7 * (k - 1) - 1) as nat) <= v / 128 < pow2((7 * (k - 1) - 1) as nat));
        lemma_sleb_bytes_len_le(v / 128, (k - 1) as nat);
    }
}

/// Parsing right after writing an unsigned LEB128 encoding recovers
/// the value and stops right after it.
pub proof fn lemma_uleb_roundtrip(v: nat, bits: Seq<bool>, pos: int, fuel: nat)
    requires
        0 <= pos,
        fuel >= uleb_bytes(v).len(),
        pos + 8 * uleb_bytes(v).len() <= bits.len(),
        bits.subrange(pos, pos + 8 * uleb_bytes(v).len()) =~= uleb_bits(v),
    ensures
        parse_uleb_rec(bits, pos, fuel) == Ok::<_, Error>(
            (v, pos + 8 * uleb_bytes(v).len()),
        ),
    decreases fuel,
{
    lemma_uleb_bytes_min_len(v);
    let bs = uleb_bytes(v);
    let b0 = bs[0];
    let len = bs.len() as int;
    assert(uleb_bits(v) =~= byte_bits(b0) + bytes_to_bits(bs.skip(1)));
    assert(bits.subrange(pos, pos + 8) =~= byte_bits(b0)) by {
        assert(forall|j: int|
            0 <= j < 8 * len ==> bits[pos + j] == #[trigger] uleb_bits(v)[j]);
    }
    lemma_read_byte_value(bits, pos, b0);
    if v < 128 {
        assert(bs =~= seq![v as u8]);
    } else {
        let tail = uleb_bytes(v / 128);
        assert(bs =~= seq![(v % 128 + 128) as u8] + tail);
        assert(bs.skip(1) =~= tail);
        assert(b0 == v % 128 + 128);
        vstd::arithmetic::div_mod::lemma_mod_bound(v as int, 128);
        assert(bits.subrange(pos + 8, pos + 8 + 8 * tail.len()) =~= uleb_bits(v / 128)) by {
            assert(uleb_bits(v / 128) == bytes_to_bits(bs.skip(1)));
            assert(forall|j: int|
                0 <= j < 8 * len ==> bits[pos + j] == #[trigger] uleb_bits(v)[j]);
            assert(forall|j: int|
                0 <= j < 8 * tail.len() ==> #[trigger] bytes_to_bits(bs.skip(1))[j] == uleb_bits(
                    v,
                )[8 + j]);
        }
        lemma_uleb_roundtrip(v / 128, bits, pos + 8, (fuel - 1) as nat);
        vstd::arithmetic::div_mod::lemma_fundamental_div_mod(v as int, 128);
    }
}

/// Parsing right after writing a signed LEB128 encoding recovers the
/// integer and stops right after it.
pub proof fn lemma_sleb_roundtrip(v: int, bits: Seq<bool>, pos: int, fuel: nat)
    requires
        0 <= pos,
        fuel >= sleb_bytes(v).len(),
        pos + 8 * sleb_bytes(v).len() <= bits.len(),
        bits.subrange(pos, pos + 8 * sleb_bytes(v).len()) =~= sleb_bits(v),
    ensures
        parse_sleb_rec(bits, pos, fuel) == Ok::<_, Error>(
            (v, pos + 8 * sleb_bytes(v).len()),
        ),
    decreases fuel,
{
    lemma_sleb_bytes_min_len(v);
    let bs = sleb_bytes(v);
    let b0 = bs[0];
    let len = bs.len() as int;
    assert(sleb_bits(v) =~= byte_bits(b0) + bytes_to_bits(bs.skip(1)));
    assert(bits.subrange(pos, pos + 8) =~= byte_bits(b0)) by {
        assert(forall|j: int|
            0 <= j < 8 * len ==> bits[pos + j] == #[trigger] sleb_bits(v)[j]);
    }
    lemma_read_byte_value(bits, pos, b0);
    if -64 <= v <= 63 {
        assert(bs =~= seq![(v % 128) as u8]);
        vstd::arithmetic::div_mod::lemma_mod_bound(v, 128);
        if v >= 0 {
            vstd::arithmetic::div_mod::lemma_small_mod(v as nat, 128);
            assert(b0 == v);
        } else {
            vstd::arithmetic::div_mod::lemma_mod_multiples_vanish(1, v, 128);
            vstd::arithmetic::div_mod::lemma_small_mod((v + 128) as nat, 128);
            assert(b0 == v + 128);
        }
    } else {
        let tail = sleb_bytes(v / 128);
        vstd::arithmetic::div_mod::lemma_mod_bound(v, 128);
        assert(bs =~= seq![(v % 128 + 128) as u8] + tail);
        assert(bs.skip(1) =~= tail);
        assert(b0 == v % 128 + 128);
        assert(bits.subrange(pos + 8, pos + 8 + 8 * tail.len()) =~= sleb_bits(v / 128)) by {
            assert(sleb_bits(v / 128) == bytes_to_bits(bs.skip(1)));
            assert(forall|j: int|
                0 <= j < 8 * len ==> bits[pos + j] == #[trigger] sleb_bits(v)[j]);
            assert(forall|j: int|
                0 <= j < 8 * tail.len() ==> #[trigger] bytes_to_bits(bs.skip(1))[j] == sleb_bits(
                    v,
                )[8 + j]);
        }
        lemma_sleb_roundtrip(v / 128, bits, pos + 8, (fuel - 1) as nat);
        vstd::arithmetic::div_mod::lemma_fundamental_div_mod(v, 128);
    }
}

/// A parsed unsigned varint sits within the stream and takes at least
/// one byte.
pub proof fn lemma_parse_uleb_advances(bits: Seq<bool>, pos: int, fuel: nat)
    ensures
        parse_uleb_rec(bits, pos, fuel) matches Ok((v, p)) ==> pos + 8 <= p <= bits.len(),
    decreases fuel,
{
    if fuel > 0 {
        lemma_parse_uleb_advances(bits, pos + 8, (fuel - 1) as nat);
    }
}

} // verus!
