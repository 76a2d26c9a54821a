//! The bit-sequence vocabulary of the codec's contracts.
//!
//! Every wire artifact is modelled as a `Seq<bool>` in LSB-first order:
//! the bit at index 0 of a byte's sequence is the byte's
//! least-significant bit.  `bits_of` turns a number into its low bits,
//! `bits_value` reads a bit sequence back as a number, and
//! `bytes_to_bits` flattens a byte sequence into its bits.

use vstd::prelude::*;
use vstd::arithmetic::power2::pow2;
use vstd::arithmetic::power2::lemma_pow2_unfold;
use vstd::arithmetic::power2::lemma_pow2_adds;
use vstd::arithmetic::power2::lemma_pow2_pos;
use vstd::arithmetic::div_mod::lemma_breakdown;
use vstd::arithmetic::div_mod::lemma_div_denominator;
use vstd::arithmetic::div_mod::lemma_mod_multiples_vanish;
use vstd::arithmetic::div_mod::lemma_div_multiples_vanish;
use vstd::arithmetic::div_mod::lemma_small_mod;

verus! {

/// The low `n` bits of `v`, least significant first.
pub open spec fn bits_of(v: nat, n: nat) -> Seq<bool>
    decreases n,
{
    if n == 0 {
        Seq::empty()
    } else {
        seq![v % 2 == 1] + bits_of(v / 2, (n - 1) as nat)
    }
}

/// The number whose LSB-first bit sequence is `s`.
pub open spec fn bits_value(s: Seq<bool>) -> nat
    decreases s.len(),
{
    if s.len() == 0 {
        0
    } else {
        (if s[0] { 1nat } else { 0nat }) + 2 * bits_value(s.skip(1))
    }
}

/// The eight bits of a byte, least significant first.
pub open spec fn byte_bits(b: u8) -> Seq<bool> {
    bits_of(b as nat, 8)
}

/// The bits of a byte sequence: each byte LSB-first, bytes in order.
pub open spec fn bytes_to_bits(bs: Seq<u8>) -> Seq<bool>
    decreases bs.len(),
{
    if bs.len() == 0 {
        Seq::empty()
    } else {
        byte_bits(bs[0]) + bytes_to_bits(bs.skip(1))
    }
}

/// `n` zero bits.
pub open spec fn zero_bits(n: nat) -> Seq<bool> {
    Seq::new(n, |i: int| false)
}

pub broadcast proof fn lemma_bits_of_len(v: nat, n: nat)
    ensures
        #[trigger] bits_of(v, n).len() == n,
    decreases n,
{
    if n > 0 {
        lemma_bits_of_len(v / 2, (n - 1) as nat);
    }
}

pub broadcast proof fn lemma_bytes_to_bits_len(bs: Seq<u8>)
    ensures
        #[trigger] bytes_to_bits(bs).len() == 8 * bs.len(),
    decreases bs.len(),
{
    broadcast use lemma_bits_of_len;

    if bs.len() > 0 {
        lemma_bytes_to_bits_len(bs.skip(1));
    }
}

/// Splitting a number's bits: the first `a` bits, then the bits of the
/// quotient by `pow2(a)`.
pub proof fn lemma_bits_of_split(v: nat, a: nat, b: nat)
    ensures
        bits_of(v, a + b) =~= bits_of(v, a) + bits_of(v / pow2(a), b),
    decreases a,
{
    broadcast use lemma_bits_of_len;

    if a == 0 {
        assert(pow2(0) == 1) by {
            vstd::arithmetic::power2::lemma2_to64();
        }
        assert(v / 1 == v);
    } else {
        lemma_bits_of_split(v / 2, (a - 1) as nat, b);
        lemma_pow2_unfold(a);
        lemma_pow2_pos((a - 1) as nat);
        lemma_div_denominator(v as int, 2, pow2((a - 1) as nat) as int);
        assert((v / 2) / pow2((a - 1) as nat) == v / pow2(a));
    }
}

/// A bit of `bits_of` is the corresponding binary digit.
pub proof fn lemma_bits_of_index(v: nat, n: nat, i: int)
    requires
        0 <= i < n,
    ensures
        bits_of(v, n)[i] == ((v / pow2(i as nat)) % 2 == 1),
    decreases i,
{
    broadcast use lemma_bits_of_len;

    if i == 0 {
        assert(pow2(0) == 1) by {
            vstd::arithmetic::power2::lemma2_to64();
        }
    } else {
        lemma_bits_of_index(v / 2, (n - 1) as nat, i - 1);
        lemma_pow2_unfold(i as nat);
        lemma_pow2_pos((i - 1) as nat);
        lemma_div_denominator(v as int, 2, pow2((i - 1) as nat) as int);
    }
}

/// Reading back a concatenation: the right part is scaled by the
/// length of the left part.
pub proof fn lemma_bits_value_append(s: Seq<bool>, t: Seq<bool>)
    ensures
        bits_value(s + t) == bits_value(s) + pow2(s.len()) * bits_value(t),
    decreases s.len(),
{
    if s.len() == 0 {
        assert(s + t =~= t);
        assert(pow2(0) == 1) by {
            vstd::arithmetic::power2::lemma2_to64();
        }
    } else {
        assert((s + t).skip(1) =~= s.skip(1) + t);
        lemma_bits_value_append(s.skip(1), t);
        lemma_pow2_unfold(s.len());
        assert(bits_value(s + t) == (if s[0] { 1nat } else { 0nat }) + 2 * bits_value(
            s.skip(1) + t,
        ));
        let x = bits_value(s.skip(1));
        let y = bits_value(t);
        let p = pow2((s.len() - 1) as nat);
        assert(2 * (x + p * y) == 2 * x + (2 * p) * y) by (nonlinear_arith);
    }
}

/// A bit sequence reads back to less than `pow2` of its length.
pub proof fn lemma_bits_value_bound(s: Seq<bool>)
    ensures
        bits_value(s) < pow2(s.len()),
    decreases s.len(),
{
    if s.len() == 0 {
        assert(pow2(0) == 1) by {
            vstd::arithmetic::power2::lemma2_to64();
        }
    } else {
        lemma_bits_value_bound(s.skip(1));
        lemma_pow2_unfold(s.len());
    }
}

/// Reading back the low bits of a number gives the number modulo
/// `pow2` of the width.
pub proof fn lemma_bits_value_of(v: nat, n: nat)
    ensures
        bits_value(bits_of(v, n)) == v % pow2(n),
    decreases n,
{
    broadcast use lemma_bits_of_len;

    if n == 0 {
        assert(pow2(0) == 1) by {
            vstd::arithmetic::power2::lemma2_to64();
        }
        assert(v % 1 == 0);
    } else {
        lemma_bits_value_of(v / 2, (n - 1) as nat);
        lemma_pow2_unfold(n);
        lemma_pow2_pos((n - 1) as nat);
        assert(bits_of(v, n).skip(1) =~= bits_of(v / 2, (n - 1) as nat));
        lemma_breakdown(v as int, 2, pow2((n - 1) as nat) as int);
        assert(v % 2 == if v % 2 == 1 { 1nat } else { 0nat });
    }
}

/// A bit sequence is the `bits_of` of its value.
pub proof fn lemma_bits_of_value(s: Seq<bool>)
    ensures
        bits_of(bits_value(s), s.len()) =~= s,
    decreases s.len(),
{
    broadcast use lemma_bits_of_len;

    if s.len() > 0 {
        lemma_bits_of_value(s.skip(1));
        let b0: nat = if s[0] { 1 } else { 0 };
        let r = bits_value(s.skip(1));
        lemma_mod_multiples_vanish(r as int, b0 as int, 2);
        lemma_small_mod(b0, 2);
        assert((b0 + 2 * r) % 2 == b0);
        assert((b0 + 2 * r) / 2 == r) by {
            lemma_div_multiples_vanish(r as int, 2);
            assert((b0 + 2 * r) / 2 == (2 * r + b0) / 2);
            vstd::arithmetic::div_mod::lemma_div_multiples_vanish_fancy(r as int, b0 as int, 2);
        }
    }
}

/// Widening a value's bit sequence only appends zeros.
pub proof fn lemma_bits_of_widen(v: nat, k: nat, n: nat)
    requires
        v < pow2(k),
        k <= n,
    ensures
        bits_of(v, n) =~= bits_of(v, k) + zero_bits((n - k) as nat),
{
    broadcast use lemma_bits_of_len;

    lemma_bits_of_split(v, k, (n - k) as nat);
    vstd::arithmetic::div_mod::lemma_basic_div(v as int, pow2(k) as int);
    lemma_bits_of_zero((n - k) as nat);
}

/// A one-bit sequence is the parity of its value.
pub proof fn lemma_bits_of_one(v: nat)
    ensures
        bits_of(v, 1) =~= seq![v % 2 == 1],
{
    broadcast use lemma_bits_of_len;

    assert(bits_of(v, 1) == seq![v % 2 == 1] + bits_of(v / 2, 0));
    assert(bits_of(v / 2, 0) =~= Seq::<bool>::empty());
}

/// The bits of zero are all zero.
pub proof fn lemma_bits_of_zero(n: nat)
    ensures
        bits_of(0, n) =~= zero_bits(n),
    decreases n,
{
    broadcast use lemma_bits_of_len;

    if n > 0 {
        lemma_bits_of_zero((n - 1) as nat);
    }
}

/// Flattening distributes over concatenation of byte sequences.
pub proof fn lemma_bytes_to_bits_append(a: Seq<u8>, b: Seq<u8>)
    ensures
        bytes_to_bits(a + b) =~= bytes_to_bits(a) + bytes_to_bits(b),
    decreases a.len(),
{
    broadcast use lemma_bytes_to_bits_len, lemma_bits_of_len;

    if a.len() == 0 {
        assert(a + b =~= b);
    } else {
        assert((a + b).skip(1) =~= a.skip(1) + b);
        lemma_bytes_to_bits_append(a.skip(1), b);
        assert((a + b)[0] == a[0]);
    }
}

/// Appending one byte appends its eight bits.
pub proof fn lemma_bytes_to_bits_push(bs: Seq<u8>, b: u8)
    ensures
        bytes_to_bits(bs.push(b)) =~= bytes_to_bits(bs) + byte_bits(b),
{
    assert(bs.push(b) =~= bs + seq![b]);
    lemma_bytes_to_bits_append(bs, seq![b]);
    assert(seq![b].skip(1) =~= Seq::<u8>::empty());
    assert(bytes_to_bits(seq![b].skip(1)) =~= Seq::<bool>::empty());
    assert(bytes_to_bits(seq![b]) == byte_bits(seq![b][0]) + bytes_to_bits(seq![b].skip(1)));
    assert(byte_bits(b) + Seq::<bool>::empty() =~= byte_bits(b));
}

/// A bit of a flattened byte sequence is the corresponding binary
/// digit of the corresponding byte.
pub proof fn lemma_bytes_to_bits_index(bs: Seq<u8>, i: int)
    requires
        0 <= i < 8 * bs.len(),
    ensures
        bytes_to_bits(bs)[i] == ((bs[i / 8] as nat / pow2((i % 8) as nat)) % 2 == 1),
    decreases bs.len(),
{
    broadcast use lemma_bytes_to_bits_len, lemma_bits_of_len;

    if i < 8 {
        assert(bytes_to_bits(bs)[i] == byte_bits(bs[0])[i]);
        lemma_bits_of_index(bs[0] as nat, 8, i);
    } else {
        lemma_bytes_to_bits_index(bs.skip(1), i - 8);
        assert(bytes_to_bits(bs)[i] == bytes_to_bits(bs.skip(1))[i - 8]);
        assert((i - 8) / 8 == i / 8 - 1);
        assert(bs.skip(1)[(i - 8) / 8] == bs[i / 8]);
        assert((i - 8) % 8 == i % 8);
    }
}

/// Extending a subrange by one bit adds that bit's weighted value.
pub proof fn lemma_bits_value_step(all: Seq<bool>, start: int, i: int)
    requires
        0 <= start,
        0 <= i,
        start + i + 1 <= all.len(),
    ensures
        bits_value(all.subrange(start, start + i + 1)) == bits_value(
            all.subrange(start, start + i),
        ) + pow2(i as nat) * (if all[start + i] { 1nat } else { 0nat }),
{
    broadcast use lemma_bits_of_len;

    let sub = all.subrange(start, start + i);
    let b = all[start + i];
    assert(all.subrange(start, start + i + 1) =~= sub + seq![b]);
    lemma_bits_value_append(sub, seq![b]);
    lemma_bits_value_single(b);
}

/// The value of a single bit.
pub proof fn lemma_bits_value_single(b: bool)
    ensures
        bits_value(seq![b]) == (if b { 1nat } else { 0nat }),
{
    reveal_with_fuel(bits_value, 2);
    assert(seq![b].skip(1) =~= Seq::<bool>::empty());
}

/// The `n` bytes sitting at `pos`, eight bits each.
pub open spec fn parse_bytes(bits: Seq<bool>, pos: int, n: nat) -> Seq<u8> {
    Seq::new(n, |i: int| bits_value(bits.subrange(pos + 8 * i, pos + 8 * i + 8)) as u8)
}

/// Where a byte sequence was written, `parse_bytes` reads it back.
pub proof fn lemma_parse_bytes_of(bs: Seq<u8>, bits: Seq<bool>, pos: int)
    requires
        0 <= pos,
        pos + 8 * bs.len() <= bits.len(),
        bits.subrange(pos, pos + 8 * bs.len()) =~= bytes_to_bits(bs),
    ensures
        parse_bytes(bits, pos, bs.len()) =~= bs,
{
    broadcast use lemma_bits_of_len, lemma_bytes_to_bits_len;

    assert forall|i: int| 0 <= i < bs.len() implies parse_bytes(bits, pos, bs.len())[i] == bs[i] by {
        assert(bits.subrange(pos + 8 * i, pos + 8 * i + 8) =~= byte_bits(bs[i])) by {
            assert forall|j: int| 0 <= j < 8 implies bits[pos + 8 * i + j] == byte_bits(bs[i])[j] by {
                assert(bits[pos + 8 * i + j] == bytes_to_bits(bs)[8 * i + j]);
                lemma_bytes_to_bits_index(bs, 8 * i + j);
                assert((8 * i + j) / 8 == i && (8 * i + j) % 8 == j);
                lemma_bits_of_index(bs[i] as nat, 8, j);
            }
        }
        lemma_bits_value_of(bs[i] as nat, 8);
        vstd::arithmetic::power2::lemma2_to64();
        lemma_small_mod(bs[i] as nat, 256);
    }
}

} // verus!
