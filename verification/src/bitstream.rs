//! An LSB-first bit-granular writer and reader over contiguous bytes.
//!
//! The first bit written occupies bit 0 of the first byte.  A writer is
//! modelled as the sequence of bits written so far; extracting the byte
//! buffer pads the sequence with zero bits to the next byte boundary.
//! A reader is a cursor over the bits of a byte slice.

use vstd::prelude::*;
use vstd::arithmetic::power2::pow2;
use crate::bits::{
    bits_of, bits_value, byte_bits, bytes_to_bits, zero_bits, lemma_bits_of_len,
    lemma_bytes_to_bits_len, lemma_bits_of_split, lemma_bits_of_index, lemma_bits_value_append,
    lemma_bits_value_bound, lemma_bits_value_of, lemma_bits_of_value, lemma_bits_of_widen,
    lemma_bits_of_zero, lemma_bytes_to_bits_push, lemma_bytes_to_bits_index, lemma_bits_of_one,
    lemma_bits_value_single, lemma_bits_value_step,
};
use crate::errors::Error;

verus! {

broadcast use lemma_bits_of_len, lemma_bytes_to_bits_len;

/// An append-only bit writer.
pub struct BitWriter {
    buffer: Vec<u8>,
    bit_bucket: u8,
    bit_len: u8,
}

/// `pow2` of a small exponent, as a byte.
fn pow2_u8(k: u8) -> (r: u8)
    requires
        k < 8,
    ensures
        r as nat == pow2(k as nat),
{
    proof {
        vstd::arithmetic::power2::lemma2_to64();
    }
    match k {
        0 => 1,
        1 => 2,
        2 => 4,
        3 => 8,
        4 => 16,
        5 => 32,
        6 => 64,
        _ => 128,
    }
}

impl View for BitWriter {
    type V = Seq<bool>;

    /// The bits written so far, in order.
    closed spec fn view(&self) -> Seq<bool> {
        bytes_to_bits(self.buffer@) + bits_of(self.bit_bucket as nat, self.bit_len as nat)
    }
}

/// The number of zero bits that padding to a byte boundary appends.
pub open spec fn pad_len(bits: nat) -> nat {
    ((8 - bits % 8) % 8) as nat
}

/// A bit sequence padded with zero bits to the next byte boundary.
pub open spec fn padded_bits(s: Seq<bool>) -> Seq<bool> {
    s + zero_bits(pad_len(s.len()))
}

impl BitWriter {
    /// The writer's invariant: fewer than eight bits are in flight.
    pub closed spec fn wf(&self) -> bool {
        self.bit_len < 8 && (self.bit_bucket as nat) < pow2(self.bit_len as nat)
    }

    /// A fresh writer with no bits written.
    pub fn new() -> (r: BitWriter)
        ensures
            r.wf(),
            r@ =~= Seq::<bool>::empty(),
    {
        let w = BitWriter { buffer: Vec::new(), bit_bucket: 0, bit_len: 0 };
        proof {
            vstd::arithmetic::power2::lemma2_to64();
            assert(w@ =~= Seq::<bool>::empty());
        }
        w
    }

    /// Appends a single bit.
    fn write_bit(&mut self, bit: bool)
        requires
            old(self).wf(),
        ensures
            final(self).wf(),
            final(self)@ =~= old(self)@ + seq![bit],
    {
        proof {
            vstd::arithmetic::power2::lemma2_to64();
        }
        let p = pow2_u8(self.bit_len);
        let add: u8 = if bit { p } else { 0 };
        let ghost old_bucket = self.bit_bucket as nat;
        let ghost old_len = self.bit_len as nat;
        assert(self.bit_bucket + add < 256) by {
            vstd::arithmetic::power2::lemma_pow2_strictly_increases(old_len, 8);
            vstd::arithmetic::power2::lemma_pow2_adds(old_len, 1);
        }
        self.bit_bucket = self.bit_bucket + add;
        self.bit_len = self.bit_len + 1;
        proof {
            lemma_bits_of_append_high(old_bucket, old_len, bit);
            vstd::arithmetic::power2::lemma_pow2_adds(old_len, 1);
        }
        if self.bit_len == 8 {
            let byte = self.bit_bucket;
            let ghost old_buf = self.buffer@;
            self.buffer.push(byte);
            self.bit_bucket = 0;
            self.bit_len = 0;
            proof {
                lemma_bytes_to_bits_push(old_buf, byte);
                assert(bits_of(0, 0) =~= Seq::<bool>::empty());
                assert(self@ =~= bytes_to_bits(old_buf) + byte_bits(byte));
            }
        }
    }

    /// Appends the low `n_bits` bits of `value`, least significant
    /// first.
    pub fn write_bits(&mut self, value: u64, n_bits: u32)
        requires
            old(self).wf(),
            n_bits <= 64,
        ensures
            final(self).wf(),
            final(self)@ =~= old(self)@ + bits_of(value as nat, n_bits as nat),
    {
        let ghost start = self@;
        let mut i: u32 = 0;
        let mut p: u64 = 1;
        proof {
            vstd::arithmetic::power2::lemma2_to64();
        }
        while i < n_bits
            invariant
                self.wf(),
                i <= n_bits,
                n_bits <= 64,
                i < n_bits ==> p as nat == pow2(i as nat),
                self@ =~= start + bits_of(value as nat, i as nat),
            decreases n_bits - i,
        {
            proof {
                vstd::arithmetic::power2::lemma_pow2_pos(i as nat);
            }
            let bit = (value / p) % 2 == 1;
            self.write_bit(bit);
            proof {
                lemma_bits_of_split(value as nat, i as nat, 1);
                lemma_bits_of_one(value as nat / pow2(i as nat));
                assert(bits_of(value as nat, (i + 1) as nat) =~= bits_of(value as nat, i as nat)
                    + seq![bit]);
                assert(self@ =~= start + bits_of(value as nat, (i + 1) as nat));
            }
            i = i + 1;
            if i < n_bits {
                proof {
                    vstd::arithmetic::power2::lemma_pow2_adds((i - 1) as nat, 1);
                    vstd::arithmetic::power2::lemma_pow2_strictly_increases((i - 1) as nat, 63);
                    vstd::arithmetic::power2::lemma2_to64_rest();
                    vstd::arithmetic::power2::lemma2_to64();
                }
                p = p * 2;
            }
        }
    }

    /// Appends one whole byte as eight bits.
    pub fn write_byte(&mut self, byte: u8)
        requires
            old(self).wf(),
        ensures
            final(self).wf(),
            final(self)@ =~= old(self)@ + byte_bits(byte),
    {
        self.write_bits(byte as u64, 8);
    }

    /// Pads with zero bits to the next byte boundary; a no-op when
    /// already aligned.
    #[verifier::spinoff_prover]
    #[verifier::rlimit(100)]
    pub fn align_to_byte(&mut self)
        requires
            old(self).wf(),
        ensures
            final(self).wf(),
            final(self)@ =~= padded_bits(old(self)@),
            final(self)@.len() % 8 == 0,
    {
        proof {
            vstd::arithmetic::power2::lemma2_to64();
            assert(bits_of(0, 0) =~= Seq::<bool>::empty());
        }
        if self.bit_len > 0 {
            let byte = self.bit_bucket;
            let ghost old_buf = self.buffer@;
            let ghost old_bucket = self.bit_bucket as nat;
            let ghost old_len = self.bit_len as nat;
            let ghost start = self@;
            self.buffer.push(byte);
            self.bit_bucket = 0;
            self.bit_len = 0;
            proof {
                lemma_bytes_to_bits_push(old_buf, byte);
                lemma_bits_of_widen(old_bucket, old_len, 8);
                assert(self@ =~= bytes_to_bits(old_buf) + byte_bits(byte));
                assert(byte_bits(byte) =~= bits_of(old_bucket, old_len) + zero_bits(
                    (8 - old_len) as nat,
                ));
                let b = old_buf.len() as int;
                assert(start.len() == 8 * b + old_len);
                vstd::arithmetic::div_mod::lemma_mod_multiples_vanish(b, old_len as int, 8);
                assert(start.len() % 8 == old_len % 8);
                vstd::arithmetic::div_mod::lemma_small_mod(old_len, 8);
                assert(start.len() % 8 == old_len);
                vstd::arithmetic::div_mod::lemma_small_mod((8 - old_len) as nat, 8);
                assert(pad_len(start.len()) == 8 - old_len);
                assert(self@ =~= start + zero_bits((8 - old_len) as nat));
                assert(self@ =~= padded_bits(start));
                assert(self@.len() == 8 * (b + 1));
                vstd::arithmetic::div_mod::lemma_mod_multiples_vanish(b + 1, 0, 8);
            }
        } else {
            proof {
                let b = self.buffer@.len() as int;
                assert(self@.len() == 8 * b);
                vstd::arithmetic::div_mod::lemma_mod_multiples_vanish(b, 0, 8);
                assert(self@.len() % 8 == 0);
                assert(pad_len(self@.len()) == 0);
                assert(zero_bits(0) =~= Seq::<bool>::empty());
                assert(self@ =~= padded_bits(self@));
            }
        }
    }

    /// Pads to a byte boundary and hands out the byte buffer.
    pub fn into_bytes(self) -> (r: Vec<u8>)
        requires
            self.wf(),
        ensures
            bytes_to_bits(r@) =~= padded_bits(self@),
            r@.len() == (self@.len() + 7) / 8,
    {
        let mut w = self;
        w.align_to_byte();
        proof {
            assert(8 * w.buffer@.len() == padded_bits(self@).len());
        }
        w.buffer
    }

    /// The number of bytes that `into_bytes` would return.
    pub fn bytes_len(&self) -> (r: usize)
        requires
            self.wf(),
            self@.len() < 8 * (usize::MAX as nat),
        ensures
            r == (self@.len() + 7) / 8,
    {
        if self.bit_len > 0 {
            self.buffer.len() + 1
        } else {
            self.buffer.len()
        }
    }
}

/// Appending a bit on top of the in-flight bits is appending it to the
/// bit sequence.
proof fn lemma_bits_of_append_high(v: nat, n: nat, bit: bool)
    requires
        v < pow2(n),
    ensures
        bits_of(v + (if bit { pow2(n) } else { 0nat }), n + 1) =~= bits_of(v, n) + seq![bit],
{
    broadcast use lemma_bits_of_len;

    let b: nat = if bit { 1 } else { 0 };
    let v2 = v + b * pow2(n);
    assert(v + (if bit { pow2(n) } else { 0nat }) == v2);
    lemma_bits_of_split(v2, n, 1);
    vstd::arithmetic::power2::lemma_pow2_pos(n);
    assert(v2 / pow2(n) == b) by {
        vstd::arithmetic::div_mod::lemma_div_multiples_vanish_fancy(
            b as int,
            v as int,
            pow2(n) as int,
        );
        assert(v2 as int == pow2(n) as int * b + v);
    }
    assert(bits_of(v2, n) =~= bits_of(v, n)) by {
        lemma_bits_of_mod(v2, n);
        lemma_bits_of_mod(v, n);
        vstd::arithmetic::div_mod::lemma_mod_multiples_vanish(b as int, v as int, pow2(n) as int);
        vstd::arithmetic::div_mod::lemma_small_mod(v, pow2(n));
    }
    assert(bits_of(b, 1) =~= seq![bit]);
}

/// The low `n` bits of a number depend only on the number modulo
/// `pow2(n)`.
pub proof fn lemma_bits_of_mod(v: nat, n: nat)
    ensures
        bits_of(v, n) =~= bits_of(v % pow2(n), n),
{
    broadcast use lemma_bits_of_len;

    lemma_bits_value_of(v, n);
    vstd::arithmetic::power2::lemma_pow2_pos(n);
    vstd::arithmetic::div_mod::lemma_mod_bound(v as int, pow2(n) as int);
    lemma_bits_value_of(v % pow2(n), n);
    vstd::arithmetic::div_mod::lemma_small_mod(v % pow2(n), pow2(n));
    lemma_bits_of_value(bits_of(v, n));
    lemma_bits_of_value(bits_of(v % pow2(n), n));
    assert(bits_value(bits_of(v, n)) == bits_value(bits_of(v % pow2(n), n)));
}

/// A forward-only bit reader over a byte slice.
pub struct BitReader<'a> {
    bytes: &'a [u8],
    bit_pos: usize,
}

impl<'a> BitReader<'a> {
    /// The full bit sequence under the reader, LSB-first per byte.
    pub closed spec fn bits(&self) -> Seq<bool> {
        bytes_to_bits(self.bytes@)
    }

    /// The cursor: how many bits have been consumed.
    pub closed spec fn pos(&self) -> nat {
        self.bit_pos as nat
    }

    /// The reader's invariant: the cursor is within the bits and the
    /// bit count fits the machine word.
    pub closed spec fn wf(&self) -> bool {
        self.bit_pos <= 8 * self.bytes@.len() && 8 * self.bytes@.len() <= usize::MAX
    }

    /// A fresh reader positioned at the first bit of `bytes`.
    pub fn new(bytes: &'a [u8]) -> (r: BitReader<'a>)
        requires
            8 * bytes@.len() <= usize::MAX,
        ensures
            r.wf(),
            r.bits() =~= bytes_to_bits(bytes@),
            r.pos() == 0,
    {
        BitReader { bytes, bit_pos: 0 }
    }

    /// How many bits remain to be read.
    pub fn remaining_bits(&self) -> (r: usize)
        requires
            self.wf(),
        ensures
            r == self.bits().len() - self.pos(),
    {
        self.bytes.len() * 8 - self.bit_pos
    }

    /// Reads the next bit.
    fn read_bit(&mut self) -> (r: bool)
        requires
            old(self).wf(),
            old(self).pos() < old(self).bits().len(),
        ensures
            final(self).wf(),
            final(self).bits() == old(self).bits(),
            final(self).pos() == old(self).pos() + 1,
            r == old(self).bits()[old(self).pos() as int],
    {
        let byte_i = self.bit_pos / 8;
        let k = (self.bit_pos % 8) as u8;
        assert(byte_i < self.bytes@.len()) by {
            vstd::arithmetic::div_mod::lemma_fundamental_div_mod(self.bit_pos as int, 8);
        }
        let byte = self.bytes[byte_i];
        let p = pow2_u8(k);
        proof {
            vstd::arithmetic::power2::lemma_pow2_pos(k as nat);
            lemma_bytes_to_bits_index(self.bytes@, self.bit_pos as int);
        }
        let bit = (byte / p) % 2 == 1;
        self.bit_pos = self.bit_pos + 1;
        bit
    }

    /// Reads `n_bits` bits and assembles them LSB-first into a 64-bit
    /// value; fails without consuming anything when fewer bits remain.
    pub fn read_bits(&mut self, n_bits: u32) -> (r: Result<u64, Error>)
        requires
            old(self).wf(),
            n_bits <= 64,
        ensures
            final(self).wf(),
            final(self).bits() == old(self).bits(),
            r is Ok <==> old(self).pos() + n_bits <= old(self).bits().len(),
            r matches Ok(v) ==> {
                &&& final(self).pos() == old(self).pos() + n_bits
                &&& v as nat == bits_value(
                    old(self).bits().subrange(
                        old(self).pos() as int,
                        old(self).pos() + n_bits,
                    ),
                )
            },
            r matches Err(e) ==> e == Error::OutOfBounds && final(self).pos() == old(self).pos(),
    {
        let rem = self.bytes.len() * 8 - self.bit_pos;
        if (n_bits as usize) > rem {
            return Err(Error::OutOfBounds);
        }
        let ghost start = self.pos() as int;
        let ghost all = self.bits();
        let mut out: u64 = 0;
        let mut i: u32 = 0;
        let mut p: u64 = 1;
        proof {
            vstd::arithmetic::power2::lemma2_to64();
            assert(all.subrange(start, start) =~= Seq::<bool>::empty());
        }
        while i < n_bits
            invariant
                self.wf(),
                self.bits() == all,
                0 <= start,
                i <= n_bits,
                n_bits <= 64,
                start + n_bits <= all.len(),
                self.pos() == start + i,
                i < n_bits ==> p as nat == pow2(i as nat),
                out as nat == bits_value(all.subrange(start, start + i)),
                (out as nat) < pow2(i as nat),
            decreases n_bits - i,
        {
            proof {
                vstd::arithmetic::power2::lemma_pow2_pos(i as nat);
            }
            let bit = self.read_bit();
            proof {
                lemma_bits_value_step(all, start, i as int);
                lemma_bits_value_bound(all.subrange(start, start + i + 1));
                vstd::arithmetic::power2::lemma_pow2_adds(i as nat, 1);
                vstd::arithmetic::power2::lemma_pow2_strictly_increases(i as nat, 64);
                vstd::arithmetic::power2::lemma2_to64();
                vstd::arithmetic::power2::lemma2_to64_rest();
            }
            if bit {
                out = out + p;
            }
            i = i + 1;
            if i < n_bits {
                proof {
                    vstd::arithmetic::power2::lemma_pow2_adds((i - 1) as nat, 1);
                    vstd::arithmetic::power2::lemma_pow2_strictly_increases((i - 1) as nat, 63);
                    vstd::arithmetic::power2::lemma2_to64_rest();
                    vstd::arithmetic::power2::lemma2_to64();
                }
                p = p * 2;
            }
        }
        Ok(out)
    }

    /// Reads eight bits as one byte.
    pub fn read_byte(&mut self) -> (r: Result<u8, Error>)
        requires
            old(self).wf(),
        ensures
            final(self).wf(),
            final(self).bits() == old(self).bits(),
            r is Ok <==> old(self).pos() + 8 <= old(self).bits().len(),
            r matches Ok(v) ==> {
                &&& final(self).pos() == old(self).pos() + 8
                &&& byte_bits(v) =~= old(self).bits().subrange(
                    old(self).pos() as int,
                    old(self).pos() as int + 8,
                )
            },
            r matches Err(e) ==> e == Error::OutOfBounds && final(self).pos() == old(self).pos(),
    {
        let ghost start = self.pos() as int;
        let ghost all = self.bits();
        match self.read_bits(8) {
            Ok(v) => {
                proof {
                    let sub = all.subrange(start, start + 8);
                    lemma_bits_value_bound(sub);
                    vstd::arithmetic::power2::lemma2_to64();
                    lemma_bits_of_value(sub);
                }
                Ok(v as u8)
            },
            Err(e) => Err(e),
        }
    }
}

impl BitWriter {
    /// Appends every byte of `v`, in order.
    pub fn write_bytes(&mut self, v: &Vec<u8>)
        requires
            old(self).wf(),
        ensures
            final(self).wf(),
            final(self)@ =~= old(self)@ + bytes_to_bits(v@),
    {
        let ghost start = self@;
        let n = v.len();
        let mut i: usize = 0;
        proof {
            assert(bytes_to_bits(v@.take(0)) =~= Seq::<bool>::empty());
            assert(self@ =~= start + bytes_to_bits(v@.take(0)));
        }
        while i < n
            invariant
                self.wf(),
                i <= n,
                n == v@.len(),
                self@ =~= start + bytes_to_bits(v@.take(i as int)),
            decreases n - i,
        {
            self.write_byte(v[i]);
            proof {
                assert(v@.take(i + 1) =~= v@.take(i as int).push(v@[i as int]));
                lemma_bytes_to_bits_push(v@.take(i as int), v@[i as int]);
            }
            i += 1;
        }
        proof {
            assert(v@.take(n as int) =~= v@);
        }
    }
}

impl<'a> BitReader<'a> {
    /// Reads `n` whole bytes; fails with `OutOfBounds` when fewer
    /// remain.
    pub fn read_bytes(&mut self, n: usize) -> (r: Result<Vec<u8>, Error>)
        requires
            old(self).wf(),
        ensures
            final(self).wf(),
            final(self).bits() == old(self).bits(),
            r is Ok <==> old(self).pos() + 8 * n <= old(self).bits().len(),
            r matches Ok(v) ==> {
                &&& final(self).pos() == old(self).pos() + 8 * n
                &&& v@ =~= crate::bits::parse_bytes(old(self).bits(), old(self).pos() as int, n as nat)
            },
            r matches Err(e) ==> e == Error::OutOfBounds,
    {
        let ghost all = self.bits();
        let ghost pos0 = self.pos() as int;
        let rem = self.remaining_bits();
        if n > rem / 8 {
            return Err(Error::OutOfBounds);
        }
        let mut out: Vec<u8> = Vec::new();
        let mut i: usize = 0;
        while i < n
            invariant
                self.wf(),
                self.bits() == all,
                i <= n,
                pos0 == old(self).pos(),
                pos0 + 8 * n <= all.len(),
                self.pos() == pos0 + 8 * i,
                out@.len() == i,
                forall|j: int|
                    0 <= j < i ==> out@[j] == crate::bits::parse_bytes(all, pos0, n as nat)[j],
            decreases n - i,
        {
            let b = match self.read_byte() {
                Ok(b) => b,
                Err(e) => {
                    proof {
                        assert(false);
                    }
                    return Err(e);
                },
            };
            proof {
                lemma_bits_value_of(b as nat, 8);
                vstd::arithmetic::power2::lemma2_to64();
                vstd::arithmetic::div_mod::lemma_small_mod(b as nat, 256);
                assert(b as nat == bits_value(all.subrange(pos0 + 8 * i, pos0 + 8 * i + 8)));
            }
            out.push(b);
            i += 1;
        }
        proof {
            assert(out@ =~= crate::bits::parse_bytes(all, pos0, n as nat));
        }
        Ok(out)
    }
}

/// A well-formed reader's cursor sits within its bits.
pub proof fn lemma_reader_pos_le(r: &BitReader)
    requires
        r.wf(),
    ensures
        r.pos() <= r.bits().len(),
{
}

} // verus!
