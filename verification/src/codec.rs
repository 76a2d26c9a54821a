//! The recursive value codec and the whole-package entry points.
//!
//! Every value record starts with a three-bit type tag.  Numbers are
//! classified: an integer in the signed 64-bit range travels as signed
//! LEB128 behind a zero domain flag, a larger unsigned one as unsigned
//! LEB128 behind a one flag.  A float travels as its 64 IEEE 754 bits.
//! A string is a byte-counted literal, or, in a version-2 package, a
//! flagged reference into the string pool.  Arrays and objects are a
//! count followed by their children, object keys through the Huffman
//! coder.

use vstd::prelude::*;
use vstd::arithmetic::power2::pow2;
use crate::bits::{
    bits_of, bits_value, bytes_to_bits, parse_bytes, lemma_bits_of_len, lemma_bytes_to_bits_len,
    lemma_bits_value_single,
};
use crate::bitstream::{BitReader, BitWriter, padded_bits};
use crate::dict::{KeyDict, the_key_dict, copy_bytes};
use crate::errors::Error;
use crate::header::{PackageHeader, VERSION_V1, VERSION_V2, header_bits, parse_header};
use crate::huffman::{HuffmanCodec, huff_contains, key_bits, parse_key, spec_huffman};
use crate::pool::{StringPool, PoolConfig, pool_find, the_str_dict, pool_build};
use crate::value::{
    JsonValue, SpecJson, is_utf8, is_valid_utf8, is_finite_bits, float_is_finite, view_list,
    view_members, lemma_view_list, lemma_view_members, key_count, key_count_list,
    key_count_members,
};
use crate::varint::{
    uleb_bits, sleb_bits, parse_uleb, parse_sleb, in_i64, write_uleb128, write_sleb128,
    read_uleb128, read_sleb128,
};

verus! {

broadcast use lemma_bits_of_len, lemma_bytes_to_bits_len, vstd::seq::axiom_seq_index_decreases;

/// The wire bits of one value record, given the key table and, in a
/// version-2 data section, the pool entries.
pub open spec fn enc_value(
    v: SpecJson,
    table: Seq<(Seq<u8>, u8, u64)>,
    pool: Option<Seq<Seq<u8>>>,
) -> Result<Seq<bool>, Error>
    decreases v, 0int,
{
    match v {
        SpecJson::Null => Ok(bits_of(0, 3)),
        SpecJson::Bool(b) => Ok(bits_of(if b { 2nat } else { 1nat }, 3)),
        SpecJson::Int(i) => Ok(bits_of(3, 3) + bits_of(0, 1) + sleb_bits(i as int)),
        SpecJson::Uint(u) => if u <= i64::MAX {
            Ok(bits_of(3, 3) + bits_of(0, 1) + sleb_bits(u as int))
        } else {
            Ok(bits_of(3, 3) + bits_of(1, 1) + uleb_bits(u as nat))
        },
        SpecJson::Float(fb) => if is_finite_bits(fb) {
            Ok(bits_of(4, 3) + bits_of(fb as nat, 64))
        } else {
            Err(Error::IllegalFloat)
        },
        SpecJson::Str(s) => match pool {
            None => Ok(bits_of(5, 3) + uleb_bits(s.len()) + bytes_to_bits(s)),
            Some(p) => {
                let f = pool_find(p, p.len() as int, s);
                if f >= 0 {
                    Ok(bits_of(5, 3) + bits_of(1, 1) + uleb_bits(f as nat))
                } else {
                    Ok(bits_of(5, 3) + bits_of(0, 1) + uleb_bits(s.len()) + bytes_to_bits(s))
                }
            },
        },
        SpecJson::Array(items) => match enc_list(items, table, pool, items.len() as int) {
            Ok(body) => Ok(bits_of(7, 3) + uleb_bits(items.len()) + body),
            Err(e) => Err(e),
        },
        SpecJson::Object(pairs) => match enc_members(pairs, table, pool, pairs.len() as int) {
            Ok(body) => Ok(bits_of(6, 3) + uleb_bits(pairs.len()) + body),
            Err(e) => Err(e),
        },
    }
}

/// The wire bits of the first `n` elements of an array.
pub open spec fn enc_list(
    items: Seq<SpecJson>,
    table: Seq<(Seq<u8>, u8, u64)>,
    pool: Option<Seq<Seq<u8>>>,
    n: int,
) -> Result<Seq<bool>, Error>
    decreases items, n,
{
    if n <= 0 || n > items.len() {
        Ok(Seq::empty())
    } else {
        match enc_list(items, table, pool, n - 1) {
            Ok(prefix) => match enc_value(items[n - 1], table, pool) {
                Ok(one) => Ok(prefix + one),
                Err(e) => Err(e),
            },
            Err(e) => Err(e),
        }
    }
}

/// The wire bits of the first `n` members of an object: each key's
/// code word, then its value.
pub open spec fn enc_members(
    pairs: Seq<(Seq<u8>, SpecJson)>,
    table: Seq<(Seq<u8>, u8, u64)>,
    pool: Option<Seq<Seq<u8>>>,
    n: int,
) -> Result<Seq<bool>, Error>
    decreases pairs, n,
    via enc_members_decreases
{
    if n <= 0 || n > pairs.len() {
        Ok(Seq::empty())
    } else {
        match enc_members(pairs, table, pool, n - 1) {
            Ok(prefix) => if !huff_contains(table, pairs[n - 1].0) {
                Err(Error::HuffmanError)
            } else {
                match enc_value(pairs[n - 1].1, table, pool) {
                    Ok(one) => Ok(prefix + key_bits(table, pairs[n - 1].0) + one),
                    Err(e) => Err(e),
                }
            },
            Err(e) => Err(e),
        }
    }
}

#[via_fn]
proof fn enc_members_decreases(
    pairs: Seq<(Seq<u8>, SpecJson)>,
    table: Seq<(Seq<u8>, u8, u64)>,
    pool: Option<Seq<Seq<u8>>>,
    n: int,
) {
    if 0 < n <= pairs.len() {
        vstd::seq::axiom_seq_index_decreases(pairs, n - 1);
        assert(decreases_to!(pairs[n - 1] => pairs[n - 1].1));
    }
}

/// Writes one value record.  A key missing from the coder is refused
/// with `HuffmanError`; a non-finite float with `IllegalFloat`.
pub fn encode_value(
    value: &JsonValue,
    writer: &mut BitWriter,
    huffman: &HuffmanCodec,
    pool: Option<&StringPool>,
) -> (r: Result<(), Error>)
    requires
        huffman.wf(),
        old(writer).wf(),
        pool matches Some(p) ==> p@.len() <= u64::MAX,
    ensures
        final(writer).wf(),
        ({
            let ps = match pool {
                Some(p) => Some(p@),
                None => None,
            };
            match enc_value(value@, huffman@, ps) {
                Ok(bits) => r is Ok && final(writer)@ =~= old(writer)@ + bits,
                Err(e) => r matches Err(e2) && e2 == e,
            }
        }),
    decreases value@, 0int,
{
    let ghost ps: Option<Seq<Seq<u8>>> = match pool {
        Some(p) => Some(p@),
        None => None,
    };
    match value {
        JsonValue::Null => {
            writer.write_bits(0, 3);
            Ok(())
        },
        JsonValue::Bool(b) => {
            if *b {
                writer.write_bits(2, 3);
            } else {
                writer.write_bits(1, 3);
            }
            Ok(())
        },
        JsonValue::Int(i) => {
            writer.write_bits(3, 3);
            writer.write_bits(0, 1);
            write_sleb128(writer, *i);
            Ok(())
        },
        JsonValue::Uint(u) => {
            writer.write_bits(3, 3);
            if *u <= i64::MAX as u64 {
                writer.write_bits(0, 1);
                write_sleb128(writer, *u as i64);
            } else {
                writer.write_bits(1, 1);
                write_uleb128(writer, *u);
            }
            Ok(())
        },
        JsonValue::Float(fb) => {
            if !float_is_finite(*fb) {
                return Err(Error::IllegalFloat);
            }
            writer.write_bits(4, 3);
            writer.write_bits(*fb, 64);
            Ok(())
        },
        JsonValue::Str(sv) => {
            writer.write_bits(5, 3);
            match pool {
                Some(p) => {
                    match p.id_of(sv) {
                        Some(id) => {
                            writer.write_bits(1, 1);
                            write_uleb128(writer, id);
                        },
                        None => {
                            writer.write_bits(0, 1);
                            write_uleb128(writer, sv.len() as u64);
                            writer.write_bytes(sv);
                        },
                    }
                },
                None => {
                    write_uleb128(writer, sv.len() as u64);
                    writer.write_bytes(sv);
                },
            }
            Ok(())
        },
        JsonValue::Array(items) => {
            writer.write_bits(7, 3);
            write_uleb128(writer, items.len() as u64);
            let n = items.len();
            let ghost vl = view_list(*items, n as int);
            proof {
                lemma_view_list(*items, n as int);
                assert(value@ == SpecJson::Array(vl));
            }
            let ghost base = writer@;
            let mut i: usize = 0;
            proof {
                assert(enc_list(vl, huffman@, ps, 0) == Ok::<_, Error>(Seq::<bool>::empty()));
                assert(writer@ =~= base + Seq::<bool>::empty());
            }
            while i < n
                invariant
                    huffman.wf(),
                    writer.wf(),
                    i <= n,
                    n == items@.len(),
                    pool matches Some(p) ==> p@.len() <= u64::MAX,
                    ps == (match pool {
                        Some(p) => Some(p@),
                        None => None::<Seq<Seq<u8>>>,
                    }),
                    vl == view_list(*items, n as int),
                    vl.len() == n,
                    forall|q: int| 0 <= q < n ==> #[trigger] vl[q] == items[q]@,
                    value == JsonValue::Array(*items),
                    enc_list(vl, huffman@, ps, i as int) matches Ok(prefix) && writer@ =~= base
                        + prefix,
                decreases n - i,
            {
                proof {
                    assert(decreases_to!(value@ => value@->Array_0));
                    vstd::seq::axiom_seq_index_decreases(vl, i as int);
                }
                let ghost pre = writer@;
                match encode_value(&items[i], writer, huffman, pool) {
                    Ok(u) => {},
                    Err(e) => {
                        proof {
                            lemma_enc_list_error(vl, huffman@, ps, i + 1, n as int);
                        }
                        return Err(e);
                    },
                }
                i += 1;
            }
            Ok(())
        },
        JsonValue::Object(pairs) => {
            writer.write_bits(6, 3);
            write_uleb128(writer, pairs.len() as u64);
            let n = pairs.len();
            let ghost vm = view_members(*pairs, n as int);
            proof {
                lemma_view_members(*pairs, n as int);
                assert(value@ == SpecJson::Object(vm));
            }
            let ghost base = writer@;
            let mut i: usize = 0;
            proof {
                assert(enc_members(vm, huffman@, ps, 0) == Ok::<_, Error>(Seq::<bool>::empty()));
                assert(writer@ =~= base + Seq::<bool>::empty());
            }
            while i < n
                invariant
                    huffman.wf(),
                    writer.wf(),
                    i <= n,
                    n == pairs@.len(),
                    pool matches Some(p) ==> p@.len() <= u64::MAX,
                    ps == (match pool {
                        Some(p) => Some(p@),
                        None => None::<Seq<Seq<u8>>>,
                    }),
                    vm == view_members(*pairs, n as int),
                    vm.len() == n,
                    forall|q: int|
                        0 <= q < n ==> #[trigger] vm[q] == (pairs[q].0@, pairs[q].1@),
                    value == JsonValue::Object(*pairs),
                    enc_members(vm, huffman@, ps, i as int) matches Ok(prefix) && writer@ =~= base
                        + prefix,
                decreases n - i,
            {
                let ghost pre = writer@;
                match huffman.write_key_code(&pairs[i].0, writer) {
                    Ok(u) => {},
                    Err(e) => {
                        proof {
                            assert(!huff_contains(huffman@, vm[i as int].0));
                            assert(enc_members(vm, huffman@, ps, i + 1) == Err::<Seq<bool>, _>(
                                Error::HuffmanError,
                            ));
                            lemma_enc_members_error(vm, huffman@, ps, i + 1, n as int);
                        }
                        return Err(e);
                    },
                }
                proof {
                    assert(decreases_to!(value@ => value@->Object_0));
                    vstd::seq::axiom_seq_index_decreases(vm, i as int);
                    assert(decreases_to!(vm[i as int] => vm[i as int].1));
                    assert(vm[i as int].1 == pairs[i as int].1@);
                }
                match encode_value(&pairs[i].1, writer, huffman, pool) {
                    Ok(u) => {},
                    Err(e) => {
                        proof {
                            lemma_enc_members_error(vm, huffman@, ps, i + 1, n as int);
                        }
                        return Err(e);
                    },
                }
                i += 1;
            }
            Ok(())
        },
    }
}

/// Once list encoding fails, it stays failed for longer prefixes.
proof fn lemma_enc_list_error(
    items: Seq<SpecJson>,
    table: Seq<(Seq<u8>, u8, u64)>,
    pool: Option<Seq<Seq<u8>>>,
    k: int,
    m: int,
)
    requires
        0 < k <= m <= items.len(),
        enc_list(items, table, pool, k) is Err,
    ensures
        enc_list(items, table, pool, m) == enc_list(items, table, pool, k),
    decreases m - k,
{
    if k < m {
        lemma_enc_list_error(items, table, pool, k + 1, m);
    }
}

/// Once member encoding fails, it stays failed for longer prefixes.
proof fn lemma_enc_members_error(
    pairs: Seq<(Seq<u8>, SpecJson)>,
    table: Seq<(Seq<u8>, u8, u64)>,
    pool: Option<Seq<Seq<u8>>>,
    k: int,
    m: int,
)
    requires
        0 < k <= m <= pairs.len(),
        enc_members(pairs, table, pool, k) is Err,
    ensures
        enc_members(pairs, table, pool, m) == enc_members(pairs, table, pool, k),
    decreases m - k,
{
    if k < m {
        lemma_enc_members_error(pairs, table, pool, k + 1, m);
    }
}

/// Parses one value record at `pos`.
pub open spec fn parse_value(
    bits: Seq<bool>,
    pos: int,
    table: Seq<(Seq<u8>, u8, u64)>,
    maxlen: u8,
    version: u8,
    pool: Option<Seq<Seq<u8>>>,
) -> Result<(SpecJson, int), Error>
    decreases bits.len() - pos, 0nat, 0int,
{
    if pos < 0 || pos + 3 > bits.len() {
        Err(Error::OutOfBounds)
    } else {
        let t = bits_value(bits.subrange(pos, pos + 3));
        let p0 = pos + 3;
        if t == 0 {
            Ok((SpecJson::Null, p0))
        } else if t == 1 {
            Ok((SpecJson::Bool(false), p0))
        } else if t == 2 {
            Ok((SpecJson::Bool(true), p0))
        } else if t == 3 {
            if p0 + 1 > bits.len() {
                Err(Error::OutOfBounds)
            } else if !bits[p0] {
                match parse_sleb(bits, p0 + 1) {
                    Ok((i, p1)) => if !in_i64(i) {
                        Err(Error::VarintOverflow)
                    } else if i < 0 {
                        Ok((SpecJson::Int(i as i64), p1))
                    } else {
                        Ok((SpecJson::Uint(i as u64), p1))
                    },
                    Err(e) => Err(e),
                }
            } else {
                match parse_uleb(bits, p0 + 1) {
                    Ok((u, p1)) => if u >= pow2(64) {
                        Err(Error::VarintOverflow)
                    } else {
                        Ok((SpecJson::Uint(u as u64), p1))
                    },
                    Err(e) => Err(e),
                }
            }
        } else if t == 4 {
            if p0 + 64 > bits.len() {
                Err(Error::OutOfBounds)
            } else {
                let fb = bits_value(bits.subrange(p0, p0 + 64)) as u64;
                if !is_finite_bits(fb) {
                    Err(Error::IllegalFloat)
                } else {
                    Ok((SpecJson::Float(fb), p0 + 64))
                }
            }
        } else if t == 5 {
            if version == VERSION_V2 {
                if p0 + 1 > bits.len() {
                    Err(Error::OutOfBounds)
                } else if bits[p0] {
                    match parse_uleb(bits, p0 + 1) {
                        Ok((id, p1)) => if id >= pow2(64) {
                            Err(Error::VarintOverflow)
                        } else {
                            match pool {
                                Some(p) => if id < p.len() {
                                    Ok((SpecJson::Str(p[id as int]), p1))
                                } else {
                                    Err(Error::PoolIdOutOfRange)
                                },
                                None => Err(Error::PoolIdOutOfRange),
                            }
                        },
                        Err(e) => Err(e),
                    }
                } else {
                    parse_literal_string(bits, p0 + 1)
                }
            } else {
                parse_literal_string(bits, p0)
            }
        } else if t == 6 {
            match parse_uleb(bits, p0) {
                Ok((count, p1)) => if count >= pow2(64) {
                    Err(Error::VarintOverflow)
                } else if p1 <= pos || p1 > bits.len() {
                    Err(Error::HuffmanError)
                } else {
                    match parse_members(bits, p1, count, table, maxlen, version, pool) {
                        Ok((pairs, p2)) => Ok((SpecJson::Object(pairs), p2)),
                        Err(e) => Err(e),
                    }
                },
                Err(e) => Err(e),
            }
        } else {
            match parse_uleb(bits, p0) {
                Ok((count, p1)) => if count >= pow2(64) {
                    Err(Error::VarintOverflow)
                } else if p1 <= pos || p1 > bits.len() {
                    Err(Error::HuffmanError)
                } else {
                    match parse_list(bits, p1, count, table, maxlen, version, pool) {
                        Ok((items, p2)) => Ok((SpecJson::Array(items), p2)),
                        Err(e) => Err(e),
                    }
                },
                Err(e) => Err(e),
            }
        }
    }
}

/// Parses a counted literal string record body.
pub open spec fn parse_literal_string(bits: Seq<bool>, pos: int) -> Result<(SpecJson, int), Error> {
    match parse_uleb(bits, pos) {
        Ok((len, p1)) => if len >= pow2(64) {
            Err(Error::VarintOverflow)
        } else if p1 + 8 * len > bits.len() {
            Err(Error::OutOfBounds)
        } else {
            let sb = parse_bytes(bits, p1, len);
            if !is_utf8(sb) {
                Err(Error::InvalidUtf8)
            } else {
                Ok((SpecJson::Str(sb), p1 + 8 * len))
            }
        },
        Err(e) => Err(e),
    }
}

/// Parses `count` value records.
pub open spec fn parse_list(
    bits: Seq<bool>,
    pos: int,
    count: nat,
    table: Seq<(Seq<u8>, u8, u64)>,
    maxlen: u8,
    version: u8,
    pool: Option<Seq<Seq<u8>>>,
) -> Result<(Seq<SpecJson>, int), Error>
    decreases bits.len() - pos, count, 1int,
{
    if count == 0 {
        Ok((Seq::empty(), pos))
    } else if pos < 0 || pos > bits.len() {
        Err(Error::OutOfBounds)
    } else {
        match parse_value(bits, pos, table, maxlen, version, pool) {
            Ok((v, p1)) => if p1 <= pos || p1 > bits.len() {
                Err(Error::HuffmanError)
            } else {
                match parse_list(bits, p1, (count - 1) as nat, table, maxlen, version, pool) {
                    Ok((rest, p2)) => Ok((seq![v] + rest, p2)),
                    Err(e) => Err(e),
                }
            },
            Err(e) => Err(e),
        }
    }
}

/// Parses `count` key-value member pairs.
pub open spec fn parse_members(
    bits: Seq<bool>,
    pos: int,
    count: nat,
    table: Seq<(Seq<u8>, u8, u64)>,
    maxlen: u8,
    version: u8,
    pool: Option<Seq<Seq<u8>>>,
) -> Result<(Seq<(Seq<u8>, SpecJson)>, int), Error>
    decreases bits.len() - pos, count, 1int,
{
    if count == 0 {
        Ok((Seq::empty(), pos))
    } else if pos < 0 || pos > bits.len() {
        Err(Error::OutOfBounds)
    } else {
        match parse_key(table, maxlen, bits, pos) {
            Ok((key, pk)) => if pk <= pos || pk > bits.len() {
                Err(Error::HuffmanError)
            } else {
                match parse_value(bits, pk, table, maxlen, version, pool) {
                    Ok((v, p1)) => if p1 <= pos || p1 > bits.len() {
                        Err(Error::HuffmanError)
                    } else {
                        match parse_members(
                            bits,
                            p1,
                            (count - 1) as nat,
                            table,
                            maxlen,
                            version,
                            pool,
                        ) {
                            Ok((rest, p2)) => Ok((seq![(key, v)] + rest, p2)),
                            Err(e) => Err(e),
                        }
                    },
                    Err(e) => Err(e),
                }
            },
            Err(e) => Err(e),
        }
    }
}

/// The member parser's first step, spelled out.
pub proof fn lemma_parse_members_unfold(
    bits: Seq<bool>,
    pos: int,
    count: nat,
    table: Seq<(Seq<u8>, u8, u64)>,
    maxlen: u8,
    version: u8,
    pool: Option<Seq<Seq<u8>>>,
)
    requires
        count >= 1,
        0 <= pos <= bits.len(),
    ensures
        parse_members(bits, pos, count, table, maxlen, version, pool) == (match parse_key(
            table,
            maxlen,
            bits,
            pos,
        ) {
            Ok((key, pk)) => if pk <= pos || pk > bits.len() {
                Err(Error::HuffmanError)
            } else {
                match parse_value(bits, pk, table, maxlen, version, pool) {
                    Ok((v, p1)) => if p1 <= pos || p1 > bits.len() {
                        Err(Error::HuffmanError)
                    } else {
                        match parse_members(
                            bits,
                            p1,
                            (count - 1) as nat,
                            table,
                            maxlen,
                            version,
                            pool,
                        ) {
                            Ok((rest, p2)) => Ok::<_, Error>((seq![(key, v)] + rest, p2)),
                            Err(e) => Err(e),
                        }
                    },
                    Err(e) => Err(e),
                }
            },
            Err(e) => Err::<(Seq<(Seq<u8>, SpecJson)>, int), _>(e),
        }),
{
}

/// The list parser's first step, spelled out.
pub proof fn lemma_parse_list_unfold(
    bits: Seq<bool>,
    pos: int,
    count: nat,
    table: Seq<(Seq<u8>, u8, u64)>,
    maxlen: u8,
    version: u8,
    pool: Option<Seq<Seq<u8>>>,
)
    requires
        count >= 1,
        0 <= pos <= bits.len(),
    ensures
        parse_list(bits, pos, count, table, maxlen, version, pool) == (match parse_value(
            bits,
            pos,
            table,
            maxlen,
            version,
            pool,
        ) {
            Ok((v, p1)) => if p1 <= pos || p1 > bits.len() {
                Err(Error::HuffmanError)
            } else {
                match parse_list(bits, p1, (count - 1) as nat, table, maxlen, version, pool) {
                    Ok((rest, p2)) => Ok::<_, Error>((seq![v] + rest, p2)),
                    Err(e) => Err(e),
                }
            },
            Err(e) => Err::<(Seq<SpecJson>, int), _>(e),
        }),
{
}

/// The value parser at an object tag, spelled out.
pub proof fn lemma_parse_value_object(
    bits: Seq<bool>,
    pos: int,
    table: Seq<(Seq<u8>, u8, u64)>,
    maxlen: u8,
    version: u8,
    pool: Option<Seq<Seq<u8>>>,
)
    requires
        0 <= pos,
        pos + 3 <= bits.len(),
        bits_value(bits.subrange(pos, pos + 3)) == 6,
    ensures
        parse_value(bits, pos, table, maxlen, version, pool) == (match parse_uleb(bits, pos + 3) {
            Ok((count, p1)) => if count >= pow2(64) {
                Err(Error::VarintOverflow)
            } else if p1 <= pos || p1 > bits.len() {
                Err(Error::HuffmanError)
            } else {
                match parse_members(bits, p1, count, table, maxlen, version, pool) {
                    Ok((pairs, p2)) => Ok::<_, Error>((SpecJson::Object(pairs), p2)),
                    Err(e) => Err(e),
                }
            },
            Err(e) => Err::<(SpecJson, int), _>(e),
        }),
{
}

/// The value parser at an array tag, spelled out.
pub proof fn lemma_parse_value_array(
    bits: Seq<bool>,
    pos: int,
    table: Seq<(Seq<u8>, u8, u64)>,
    maxlen: u8,
    version: u8,
    pool: Option<Seq<Seq<u8>>>,
)
    requires
        0 <= pos,
        pos + 3 <= bits.len(),
        bits_value(bits.subrange(pos, pos + 3)) == 7,
    ensures
        parse_value(bits, pos, table, maxlen, version, pool) == (match parse_uleb(bits, pos + 3) {
            Ok((count, p1)) => if count >= pow2(64) {
                Err(Error::VarintOverflow)
            } else if p1 <= pos || p1 > bits.len() {
                Err(Error::HuffmanError)
            } else {
                match parse_list(bits, p1, count, table, maxlen, version, pool) {
                    Ok((items, p2)) => Ok::<_, Error>((SpecJson::Array(items), p2)),
                    Err(e) => Err(e),
                }
            },
            Err(e) => Err::<(SpecJson, int), _>(e),
        }),
{
}

/// The decoded pool as a ghost sequence of byte strings.
pub open spec fn pool_bytes_view(v: Seq<Vec<u8>>) -> Seq<Seq<u8>> {
    Seq::new(v.len(), |i: int| v[i]@)
}

/// Reads one value record.
#[verifier::spinoff_prover]
#[verifier::rlimit(60)]
pub fn decode_value(
    reader: &mut BitReader,
    huffman: &HuffmanCodec,
    version: u8,
    pool: Option<&Vec<Vec<u8>>>,
) -> (r: Result<JsonValue, Error>)
    requires
        huffman.wf(),
        old(reader).wf(),
    ensures
        final(reader).wf(),
        final(reader).bits() == old(reader).bits(),
        final(reader).pos() >= old(reader).pos(),
        ({
            let ps = match pool {
                Some(p) => Some(pool_bytes_view(p@)),
                None => None,
            };
            let pr = parse_value(
                old(reader).bits(),
                old(reader).pos() as int,
                huffman@,
                huffman.spec_max_len(),
                version,
                ps,
            );
            match r {
                Ok(v) => pr matches Ok((sv, p)) && v@ == sv && final(reader).pos() == p && p > old(
                    reader,
                ).pos(),
                Err(e) => pr matches Err(e2) && e == e2,
            }
        }),
    decreases old(reader).bits().len() - old(reader).pos(),
{
    let ghost all = reader.bits();
    let ghost pos0 = reader.pos() as int;
    let ghost tb = huffman@;
    let ghost ml = huffman.spec_max_len();
    let ghost ps: Option<Seq<Seq<u8>>> = match pool {
        Some(p) => Some(pool_bytes_view(p@)),
        None => None,
    };
    proof {
        vstd::arithmetic::power2::lemma2_to64();
        vstd::arithmetic::power2::lemma2_to64_rest();
    }
    let t = match reader.read_bits(3) {
        Ok(v) => v,
        Err(e) => {
            return Err(e);
        },
    };
    proof {
        crate::bits::lemma_bits_value_bound(all.subrange(pos0, pos0 + 3));
        assert(t < 8);
    }
    let ghost p0 = pos0 + 3;
    if t == 0 {
        Ok(JsonValue::Null)
    } else if t == 1 {
        Ok(JsonValue::Bool(false))
    } else if t == 2 {
        Ok(JsonValue::Bool(true))
    } else if t == 3 {
        let flag = match reader.read_bits(1) {
            Ok(v) => v,
            Err(e) => {
                return Err(e);
            },
        };
        proof {
            assert(all.subrange(p0, p0 + 1) =~= seq![all[p0]]);
            lemma_bits_value_single(all[p0]);
        }
        if flag == 0 {
            let i = match read_sleb128(reader) {
                Ok(v) => v,
                Err(e) => {
                    return Err(e);
                },
            };
            if i < 0 {
                Ok(JsonValue::Int(i))
            } else {
                Ok(JsonValue::Uint(i as u64))
            }
        } else {
            let u = match read_uleb128(reader) {
                Ok(v) => v,
                Err(e) => {
                    return Err(e);
                },
            };
            Ok(JsonValue::Uint(u))
        }
    } else if t == 4 {
        let fb = match reader.read_bits(64) {
            Ok(v) => v,
            Err(e) => {
                return Err(e);
            },
        };
        if !float_is_finite(fb) {
            return Err(Error::IllegalFloat);
        }
        Ok(JsonValue::Float(fb))
    } else if t == 5 {
        if version == VERSION_V2 {
            let flag = match reader.read_bits(1) {
                Ok(v) => v,
                Err(e) => {
                    return Err(e);
                },
            };
            proof {
                assert(all.subrange(p0, p0 + 1) =~= seq![all[p0]]);
                lemma_bits_value_single(all[p0]);
            }
            if flag == 1 {
                let id = match read_uleb128(reader) {
                    Ok(v) => v,
                    Err(e) => {
                        return Err(e);
                    },
                };
                match pool {
                    Some(p) => {
                        if id < p.len() as u64 {
                            let b = copy_bytes(&p[id as usize]);
                            proof {
                                assert(pool_bytes_view(p@)[id as int] == p@[id as int]@);
                            }
                            Ok(JsonValue::Str(b))
                        } else {
                            Err(Error::PoolIdOutOfRange)
                        }
                    },
                    None => Err(Error::PoolIdOutOfRange),
                }
            } else {
                decode_literal_string(reader, Ghost(all), Ghost(p0 + 1))
            }
        } else {
            decode_literal_string(reader, Ghost(all), Ghost(p0))
        }
    } else if t == 6 {
        let count = match read_uleb128(reader) {
            Ok(v) => v,
            Err(e) => {
                return Err(e);
            },
        };
        proof {
            crate::varint::lemma_parse_uleb_advances(all, p0, 10);
            lemma_parse_value_object(all, pos0, tb, ml, version, ps);
        }
        let ghost p1 = reader.pos() as int;
        let mut out: Vec<(Vec<u8>, JsonValue)> = Vec::new();
        let ghost acc: Seq<(Seq<u8>, SpecJson)> = Seq::empty();
        let mut acc_g = Ghost(acc);
        let mut i: u64 = 0;
        while i < count
            invariant
                huffman.wf(),
                reader.wf(),
                reader.bits() == all,
                all == old(reader).bits(),
                tb == huffman@,
                ml == huffman.spec_max_len(),
                ps == (match pool {
                    Some(p) => Some(pool_bytes_view(p@)),
                    None => None::<Seq<Seq<u8>>>,
                }),
                pool matches Some(p) ==> p@.len() == (match ps {
                    Some(q) => q.len(),
                    None => 0,
                }),
                i <= count,
                pos0 == old(reader).pos(),
                p0 == pos0 + 3,
                pos0 < p1 <= reader.pos(),
                reader.pos() <= all.len(),
                parse_value(all, pos0, tb, ml, version, ps) == (match parse_members(
                    all,
                    p1,
                    count as nat,
                    tb,
                    ml,
                    version,
                    ps,
                ) {
                    Ok((pairs, p2)) => Ok::<_, Error>((SpecJson::Object(pairs), p2)),
                    Err(e) => Err::<(SpecJson, int), _>(e),
                }),
                out@.len() == i,
                acc_g@.len() == i,
                forall|q: int| 0 <= q < i ==> #[trigger] out@[q].0@ == acc_g@[q].0,
                forall|q: int| 0 <= q < i ==> #[trigger] out@[q].1@ == acc_g@[q].1,
                ({
                    let whole = parse_members(all, p1, count as nat, tb, ml, version, ps);
                    match parse_members(
                        all,
                        reader.pos() as int,
                        (count - i) as nat,
                        tb,
                        ml,
                        version,
                        ps,
                    ) {
                        Ok((rest, p)) => whole == Ok::<_, Error>((acc_g@ + rest, p)),
                        Err(e) => whole == Err::<(Seq<(Seq<u8>, SpecJson)>, int), _>(e),
                    }
                }),
            decreases count - i,
        {
            let ghost cur = reader.pos() as int;
            proof {
                lemma_parse_members_unfold(all, cur, (count - i) as nat, tb, ml, version, ps);
            }
            let key = match huffman.decode_key(reader) {
                Ok(k) => k,
                Err(e) => {
                    return Err(e);
                },
            };
            proof {
                assert(reader.pos() > cur) by {
                    crate::huffman::lemma_parse_key_advances(tb, ml, all, cur, 0, 0nat);
                }
                crate::bitstream::lemma_reader_pos_le(reader);
            }
            let ghost pk = reader.pos() as int;
            let v = match decode_value(reader, huffman, version, pool) {
                Ok(v) => v,
                Err(e) => {
                    proof {
                        crate::bitstream::lemma_reader_pos_le(reader);
                    }
                    return Err(e);
                },
            };
            proof {
                crate::bitstream::lemma_reader_pos_le(reader);
            }
            let ghost acc_old = acc_g@;
            proof {
                acc_g@ = acc_old + seq![(key@, v@)];
                if parse_members(all, reader.pos() as int, (count - i - 1) as nat, tb, ml,
                version, ps) is Ok {
                    let rest = parse_members(
                        all,
                        reader.pos() as int,
                        (count - i - 1) as nat,
                        tb,
                        ml,
                        version,
                        ps,
                    ).unwrap().0;
                    assert(acc_old + (seq![(key@, v@)] + rest) =~= acc_g@ + rest);
                }
            }
            out.push((key, v));
            i += 1;
        }
        proof {
            assert(parse_members(all, reader.pos() as int, 0, tb, ml, version, ps)
                == Ok::<_, Error>((Seq::<(Seq<u8>, SpecJson)>::empty(), reader.pos() as int)));
            assert(acc_g@ + Seq::<(Seq<u8>, SpecJson)>::empty() =~= acc_g@);
        }
        proof {
            lemma_view_members(out, i as int);
            assert(view_members(out, i as int) =~= acc_g@);
        }
        let result = JsonValue::Object(out);
        proof {
            assert(result@ == SpecJson::Object(acc_g@));
        }
        Ok(result)
    } else {
        let count = match read_uleb128(reader) {
            Ok(v) => v,
            Err(e) => {
                return Err(e);
            },
        };
        proof {
            crate::varint::lemma_parse_uleb_advances(all, p0, 10);
            lemma_parse_value_array(all, pos0, tb, ml, version, ps);
        }
        let ghost p1 = reader.pos() as int;
        let mut out: Vec<JsonValue> = Vec::new();
        let ghost acc: Seq<SpecJson> = Seq::empty();
        let mut acc_g = Ghost(acc);
        let mut i: u64 = 0;
        while i < count
            invariant
                huffman.wf(),
                reader.wf(),
                reader.bits() == all,
                all == old(reader).bits(),
                tb == huffman@,
                ml == huffman.spec_max_len(),
                ps == (match pool {
                    Some(p) => Some(pool_bytes_view(p@)),
                    None => None::<Seq<Seq<u8>>>,
                }),
                i <= count,
                pos0 == old(reader).pos(),
                p0 == pos0 + 3,
                pos0 < p1 <= reader.pos(),
                reader.pos() <= all.len(),
                parse_value(all, pos0, tb, ml, version, ps) == (match parse_list(
                    all,
                    p1,
                    count as nat,
                    tb,
                    ml,
                    version,
                    ps,
                ) {
                    Ok((items, p2)) => Ok::<_, Error>((SpecJson::Array(items), p2)),
                    Err(e) => Err::<(SpecJson, int), _>(e),
                }),
                out@.len() == i,
                acc_g@.len() == i,
                forall|q: int| 0 <= q < i ==> #[trigger] out@[q]@ == acc_g@[q],
                ({
                    let whole = parse_list(all, p1, count as nat, tb, ml, version, ps);
                    match parse_list(
                        all,
                        reader.pos() as int,
                        (count - i) as nat,
                        tb,
                        ml,
                        version,
                        ps,
                    ) {
                        Ok((rest, p)) => whole == Ok::<_, Error>((acc_g@ + rest, p)),
                        Err(e) => whole == Err::<(Seq<SpecJson>, int), _>(e),
                    }
                }),
            decreases count - i,
        {
            let ghost cur = reader.pos() as int;
            proof {
                lemma_parse_list_unfold(all, cur, (count - i) as nat, tb, ml, version, ps);
            }
            let v = match decode_value(reader, huffman, version, pool) {
                Ok(v) => v,
                Err(e) => {
                    proof {
                        crate::bitstream::lemma_reader_pos_le(reader);
                    }
                    return Err(e);
                },
            };
            proof {
                crate::bitstream::lemma_reader_pos_le(reader);
            }
            let ghost acc_old = acc_g@;
            proof {
                acc_g@ = acc_old + seq![v@];
                if parse_list(all, reader.pos() as int, (count - i - 1) as nat, tb, ml, version,
                ps) is Ok {
                    let rest = parse_list(
                        all,
                        reader.pos() as int,
                        (count - i - 1) as nat,
                        tb,
                        ml,
                        version,
                        ps,
                    ).unwrap().0;
                    assert(acc_old + (seq![v@] + rest) =~= acc_g@ + rest);
                }
            }
            out.push(v);
            i += 1;
        }
        proof {
            assert(parse_list(all, reader.pos() as int, 0, tb, ml, version, ps) == Ok::<
                _,
                Error,
            >((Seq::<SpecJson>::empty(), reader.pos() as int)));
            assert(acc_g@ + Seq::<SpecJson>::empty() =~= acc_g@);
        }
        proof {
            lemma_view_list(out, i as int);
            assert(view_list(out, i as int) =~= acc_g@);
        }
        let result = JsonValue::Array(out);
        proof {
            assert(result@ == SpecJson::Array(acc_g@));
        }
        Ok(result)
    }
}

/// Reads a counted literal string.
fn decode_literal_string(reader: &mut BitReader, Ghost(all): Ghost<Seq<bool>>, Ghost(p0): Ghost<
    int,
>) -> (r: Result<JsonValue, Error>)
    requires
        old(reader).wf(),
        all == old(reader).bits(),
        p0 == old(reader).pos() as int,
    ensures
        final(reader).wf(),
        final(reader).bits() == old(reader).bits(),
        final(reader).pos() >= old(reader).pos(),
        ({
            let pr = parse_literal_string(all, p0);
            match r {
                Ok(v) => pr matches Ok((sv, p)) && v@ == sv && final(reader).pos() == p && p > p0,
                Err(e) => pr matches Err(e2) && e == e2,
            }
        }),
{
    proof {
        vstd::arithmetic::power2::lemma2_to64();
        vstd::arithmetic::power2::lemma2_to64_rest();
    }
    let len = match read_uleb128(reader) {
        Ok(v) => v,
        Err(e) => {
            return Err(e);
        },
    };
    proof {
        crate::varint::lemma_parse_uleb_advances(all, p0, 10);
    }
    let rem = reader.remaining_bits();
    if len > (rem / 8) as u64 {
        proof {
            vstd::arithmetic::div_mod::lemma_fundamental_div_mod(rem as int, 8);
            vstd::arithmetic::div_mod::lemma_mod_bound(rem as int, 8);
        }
        return Err(Error::OutOfBounds);
    }
    proof {
        vstd::arithmetic::div_mod::lemma_fundamental_div_mod(rem as int, 8);
        vstd::arithmetic::div_mod::lemma_mod_bound(rem as int, 8);
    }
    let b = match reader.read_bytes(len as usize) {
        Ok(v) => v,
        Err(e) => {
            proof {
                assert(false);
            }
            return Err(e);
        },
    };
    if !is_valid_utf8(b.as_slice()) {
        return Err(Error::InvalidUtf8);
    }
    Ok(JsonValue::Str(b))
}

/// The compression thresholds and the pool switch.
#[derive(Debug, Clone, Copy, PartialEq, Eq, Structural)]
pub struct CompressOptions {
    /// Emit a version-2 package with a string pool.
    pub enable_value_pool: bool,
    /// The least occurrence count that pools a string.
    pub pool_min_repeats: u32,
    /// The least byte length that pools a string.
    pub pool_min_string_len: usize,
}

impl Default for CompressOptions {
    /// No pool; thresholds of three repeats and eight bytes.
    fn default() -> (r: Self)
        ensures
            r == (CompressOptions {
                enable_value_pool: false,
                pool_min_repeats: 3u32,
                pool_min_string_len: 8usize,
            }),
    {
        CompressOptions { enable_value_pool: false, pool_min_repeats: 3, pool_min_string_len: 8 }
    }
}

/// The pool thresholds of a set of options.
pub open spec fn pool_cfg(opt: CompressOptions) -> PoolConfig {
    PoolConfig { min_repeats: opt.pool_min_repeats, min_string_len: opt.pool_min_string_len }
}

/// The wire bits of the first `n` pool entries: each a plain string
/// record.
pub open spec fn pool_bits(entries: Seq<Seq<u8>>, n: int) -> Seq<bool>
    decreases n,
{
    if n <= 0 || n > entries.len() {
        Seq::empty()
    } else {
        pool_bits(entries, n - 1) + (bits_of(5, 3) + uleb_bits(entries[n - 1].len())
            + bytes_to_bits(entries[n - 1]))
    }
}

/// Writes the pool section: each entry as a plain string record.
pub fn write_string_pool(writer: &mut BitWriter, pool: &StringPool)
    requires
        old(writer).wf(),
    ensures
        final(writer).wf(),
        final(writer)@ =~= old(writer)@ + pool_bits(pool@, pool@.len() as int),
{
    let ghost base = writer@;
    let n = pool.len();
    let mut i: usize = 0;
    proof {
        assert(pool_bits(pool@, 0) =~= Seq::<bool>::empty());
        assert(writer@ =~= base + pool_bits(pool@, 0));
    }
    while i < n
        invariant
            writer.wf(),
            i <= n,
            n == pool@.len(),
            writer@ =~= base + pool_bits(pool@, i as int),
        decreases n - i,
    {
        let e = pool.entry_at(i);
        writer.write_bits(5, 3);
        write_uleb128(writer, e.len() as u64);
        writer.write_bytes(e);
        i += 1;
    }
}

/// The pool entries of a value under the given options.
pub open spec fn the_pool(v: SpecJson, opt: CompressOptions) -> Seq<Seq<u8>> {
    let sd = the_str_dict(v);
    let pb = pool_build(sd, pool_cfg(opt), sd.len() as int);
    Seq::new(pb.len(), |i: int| pb[i].0)
}

/// The bits of a whole package before byte padding.
pub open spec fn compress_bits(v: SpecJson, opt: CompressOptions) -> Result<Seq<bool>, Error> {
    let d = the_key_dict(v);
    match spec_huffman(d) {
        Ok(table) => if opt.enable_value_pool {
            let pool = the_pool(v, opt);
            match enc_value(v, table, Some(pool)) {
                Ok(body) => Ok(
                    header_bits(VERSION_V2, d.len(), pool.len()) + crate::dict::dict_bits(d)
                        + pool_bits(pool, pool.len() as int) + body,
                ),
                Err(e) => Err(e),
            }
        } else {
            match enc_value(v, table, None) {
                Ok(body) => Ok(
                    header_bits(VERSION_V1, d.len(), 0) + crate::dict::dict_bits(d) + body,
                ),
                Err(e) => Err(e),
            }
        },
        Err(e) => Err(e),
    }
}

/// Compresses a value into a package under the given options.
pub fn compress_with_options(value: &JsonValue, opt: &CompressOptions) -> (r: Result<
    Vec<u8>,
    Error,
>)
    ensures
        ({
            let cb = compress_bits(value@, *opt);
            match r {
                Ok(bytes) => cb matches Ok(bits) && bytes_to_bits(bytes@) =~= padded_bits(bits),
                Err(e) => cb matches Err(e2) && e == e2,
            }
        }),
{
    let dict = crate::dict::collect_keys(value);
    proof {
        crate::dict::lemma_the_key_dict(value@, dict@);
    }
    let huffman = match HuffmanCodec::from_frequencies(&dict) {
        Ok(c) => c,
        Err(e) => {
            return Err(e);
        },
    };
    let mut writer = BitWriter::new();
    if opt.enable_value_pool {
        let cfg = PoolConfig {
            min_repeats: opt.pool_min_repeats,
            min_string_len: opt.pool_min_string_len,
        };
        let pool = crate::pool::collect_string_pool(value, cfg);
        proof {
            assert(pool@ =~= the_pool(value@, *opt));
        }
        crate::header::write_header(
            &mut writer,
            VERSION_V2,
            dict.len() as u64,
            pool.len() as u64,
        );
        crate::dict::write_dictionary(&mut writer, &dict);
        write_string_pool(&mut writer, &pool);
        match encode_value(value, &mut writer, &huffman, Some(&pool)) {
            Ok(u) => {},
            Err(e) => {
                return Err(e);
            },
        }
    } else {
        crate::header::write_header(&mut writer, VERSION_V1, dict.len() as u64, 0);
        crate::dict::write_dictionary(&mut writer, &dict);
        match encode_value(value, &mut writer, &huffman, None) {
            Ok(u) => {},
            Err(e) => {
                return Err(e);
            },
        }
    }
    Ok(writer.into_bytes())
}

/// Parses `count` pool entries; each must be a plain string record.
pub open spec fn parse_pool(
    bits: Seq<bool>,
    pos: int,
    count: nat,
    table: Seq<(Seq<u8>, u8, u64)>,
    maxlen: u8,
) -> Result<(Seq<Seq<u8>>, int), Error>
    decreases count,
{
    if count == 0 {
        Ok((Seq::empty(), pos))
    } else {
        match parse_value(bits, pos, table, maxlen, VERSION_V1, None) {
            Ok((v, p1)) => match v {
                SpecJson::Str(b) => match parse_pool(bits, p1, (count - 1) as nat, table, maxlen) {
                    Ok((rest, p2)) => Ok((seq![b] + rest, p2)),
                    Err(e) => Err(e),
                },
                _ => Err(Error::HuffmanError),
            },
            Err(e) => Err(e),
        }
    }
}

/// Parses a whole package from its first bit: header, dictionary, the
/// rebuilt coder, the pool when version 2, and the root value.
pub open spec fn parse_package(bits: Seq<bool>) -> Result<(SpecJson, int), Error> {
    match parse_header(bits, 0) {
        Ok((hdr, p1)) => match crate::dict::parse_dict(bits, p1, hdr.dict_len as nat) {
            Ok((d, p2)) => match spec_huffman(d) {
                Ok(table) => {
                    let maxlen: u8 = if table.len() == 0 {
                        0
                    } else {
                        table[table.len() - 1].1
                    };
                    if hdr.version == VERSION_V2 {
                        match parse_pool(bits, p2, hdr.pool_len as nat, table, maxlen) {
                            Ok((pool, p3)) => parse_value(
                                bits,
                                p3,
                                table,
                                maxlen,
                                VERSION_V2,
                                Some(pool),
                            ),
                            Err(e) => Err(e),
                        }
                    } else {
                        parse_value(bits, p2, table, maxlen, VERSION_V1, None)
                    }
                },
                Err(e) => Err(e),
            },
            Err(e) => Err(e),
        },
        Err(e) => Err(e),
    }
}

/// Reads a whole package from a positioned reader.
#[verifier::spinoff_prover]
#[verifier::rlimit(80)]
pub fn decode_json(reader: &mut BitReader) -> (r: Result<JsonValue, Error>)
    requires
        old(reader).wf(),
        old(reader).pos() == 0,
    ensures
        final(reader).wf(),
        final(reader).bits() == old(reader).bits(),
        ({
            let pr = parse_package(old(reader).bits());
            match r {
                Ok(v) => pr matches Ok((sv, p)) && v@ == sv && final(reader).pos() == p,
                Err(e) => pr matches Err(e2) && e == e2,
            }
        }),
{
    let ghost all = reader.bits();
    let hdr = match crate::header::read_header(reader) {
        Ok(h) => h,
        Err(e) => {
            return Err(e);
        },
    };
    let dict = match crate::dict::read_dictionary(reader, hdr.dict_len) {
        Ok(d) => d,
        Err(e) => {
            return Err(e);
        },
    };
    let huffman = match HuffmanCodec::from_frequencies(&dict) {
        Ok(c) => c,
        Err(e) => {
            return Err(e);
        },
    };
    let ghost tb = huffman@;
    let ghost ml = huffman.spec_max_len();
    if hdr.version == VERSION_V2 {
        let ghost p2 = reader.pos() as int;
        proof {
            assert(parse_package(all) == (match parse_pool(all, p2, hdr.pool_len as nat, tb, ml) {
                Ok((pl, p3)) => parse_value(all, p3, tb, ml, VERSION_V2, Some(pl)),
                Err(e) => Err(e),
            }));
        }
        let mut pool: Vec<Vec<u8>> = Vec::new();
        let ghost acc: Seq<Seq<u8>> = Seq::empty();
        let mut acc_g = Ghost(acc);
        let count = hdr.pool_len;
        let mut i: u64 = 0;
        while i < count
            invariant
                huffman.wf(),
                reader.wf(),
                reader.bits() == all,
                all == old(reader).bits(),
                i <= count,
                pool@.len() == i,
                acc_g@.len() == i,
                forall|q: int| 0 <= q < i ==> #[trigger] pool@[q]@ == acc_g@[q],
                tb == huffman@,
                ml == huffman.spec_max_len(),
                count == hdr.pool_len,
                parse_package(all) == (match parse_pool(all, p2, count as nat, tb, ml) {
                    Ok((pl, p3)) => parse_value(all, p3, tb, ml, VERSION_V2, Some(pl)),
                    Err(e) => Err(e),
                }),
                ({
                    let whole = parse_pool(all, p2, count as nat, tb, ml);
                    match parse_pool(
                        all,
                        reader.pos() as int,
                        (count - i) as nat,
                        tb,
                        ml,
                    ) {
                        Ok((rest, p)) => whole == Ok::<_, Error>((acc_g@ + rest, p)),
                        Err(e) => whole == Err::<(Seq<Seq<u8>>, int), _>(e),
                    }
                }),
            decreases count - i,
        {
            let v = match decode_value(reader, &huffman, VERSION_V1, None) {
                Ok(v) => v,
                Err(e) => {
                    return Err(e);
                },
            };
            let b = match v {
                JsonValue::Str(b) => b,
                _ => {
                    return Err(Error::HuffmanError);
                },
            };
            let ghost acc_old = acc_g@;
            proof {
                acc_g@ = acc_old + seq![b@];
                if parse_pool(all, reader.pos() as int, (count - i - 1) as nat, tb, ml) is Ok {
                    let rest = parse_pool(
                        all,
                        reader.pos() as int,
                        (count - i - 1) as nat,
                        tb,
                        ml,
                    ).unwrap().0;
                    assert(acc_old + (seq![b@] + rest) =~= acc_g@ + rest);
                }
            }
            pool.push(b);
            i += 1;
        }
        proof {
            assert(parse_pool(all, reader.pos() as int, 0, tb, ml) == Ok::<_, Error>((
                Seq::<Seq<u8>>::empty(),
                reader.pos() as int,
            )));
            assert(acc_g@ + Seq::<Seq<u8>>::empty() =~= acc_g@);
            assert(pool_bytes_view(pool@) =~= acc_g@);
        }
        match decode_value(reader, &huffman, VERSION_V2, Some(&pool)) {
            Ok(v) => Ok(v),
            Err(e) => Err(e),
        }
    } else {
        match decode_value(reader, &huffman, VERSION_V1, None) {
            Ok(v) => Ok(v),
            Err(e) => Err(e),
        }
    }
}

/// Decompresses a package from its bytes.
pub fn decompress_from_bytes(bytes: &[u8]) -> (r: Result<JsonValue, Error>)
    requires
        8 * bytes@.len() <= usize::MAX,
    ensures
        ({
            let pr = parse_package(bytes_to_bits(bytes@));
            match r {
                Ok(v) => pr matches Ok((sv, p)) && v@ == sv,
                Err(e) => pr matches Err(e2) && e == e2,
            }
        }),
{
    let mut reader = BitReader::new(bytes);
    decode_json(&mut reader)
}

/// Every key of the tree is in the coder's table.
pub open spec fn keys_covered(v: SpecJson, table: Seq<(Seq<u8>, u8, u64)>) -> bool {
    forall|k: Seq<u8>| key_count(v, k) >= 1 ==> #[trigger] huff_contains(table, k)
}

/// With every key covered, encoding a value succeeds exactly when its
/// floats are finite, and a failure is `IllegalFloat`.
pub proof fn lemma_enc_total(
    v: SpecJson,
    table: Seq<(Seq<u8>, u8, u64)>,
    pool: Option<Seq<Seq<u8>>>,
)
    requires
        keys_covered(v, table),
    ensures
        enc_value(v, table, pool) is Ok <==> crate::value::floats_finite(v),
        enc_value(v, table, pool) is Err ==> enc_value(v, table, pool) == Err::<Seq<bool>, _>(
            Error::IllegalFloat,
        ),
    decreases v, 1int,
{
    match v {
        SpecJson::Array(items) => {
            lemma_enc_total_list(items, table, pool, items.len() as int, v);
            assert(crate::value::floats_finite(v) == (forall|i: int|
                0 <= i < items.len() ==> crate::value::floats_finite(#[trigger] items[i])));
        },
        SpecJson::Object(pairs) => {
            lemma_enc_total_members(pairs, table, pool, pairs.len() as int, v);
            assert(crate::value::floats_finite(v) == (forall|i: int|
                0 <= i < pairs.len() ==> crate::value::floats_finite(
                    (#[trigger] pairs[i]).1,
                )));
        },
        _ => {},
    }
}

/// Totality of list encoding over the first `n` elements.
proof fn lemma_enc_total_list(
    items: Seq<SpecJson>,
    table: Seq<(Seq<u8>, u8, u64)>,
    pool: Option<Seq<Seq<u8>>>,
    n: int,
    v: SpecJson,
)
    requires
        0 <= n <= items.len(),
        v == SpecJson::Array(items),
        keys_covered(v, table),
    ensures
        enc_list(items, table, pool, n) is Ok <==> (forall|i: int|
            0 <= i < n ==> crate::value::floats_finite(#[trigger] items[i])),
        enc_list(items, table, pool, n) is Err ==> enc_list(items, table, pool, n) == Err::<
            Seq<bool>,
            _,
        >(Error::IllegalFloat),
    decreases items, n,
{
    if n > 0 {
        lemma_enc_total_list(items, table, pool, n - 1, v);
        assert(decreases_to!(v => v->Array_0));
        vstd::seq::axiom_seq_index_decreases(items, n - 1);
        assert(keys_covered(items[n - 1], table)) by {
            assert forall|k: Seq<u8>| key_count(items[n - 1], k) >= 1 implies huff_contains(
                table,
                k,
            ) by {
                crate::value::lemma_key_count_list_ge(items, k, n - 1, items.len() as int);
                assert(key_count(v, k) == key_count_list(items, k, items.len() as int));
            }
        }
        lemma_enc_total(items[n - 1], table, pool);
    }
}

/// Totality of member encoding over the first `n` members.
proof fn lemma_enc_total_members(
    pairs: Seq<(Seq<u8>, SpecJson)>,
    table: Seq<(Seq<u8>, u8, u64)>,
    pool: Option<Seq<Seq<u8>>>,
    n: int,
    v: SpecJson,
)
    requires
        0 <= n <= pairs.len(),
        v == SpecJson::Object(pairs),
        keys_covered(v, table),
    ensures
        enc_members(pairs, table, pool, n) is Ok <==> (forall|i: int|
            0 <= i < n ==> crate::value::floats_finite((#[trigger] pairs[i]).1)),
        enc_members(pairs, table, pool, n) is Err ==> enc_members(pairs, table, pool, n) == Err::<
            Seq<bool>,
            _,
        >(Error::IllegalFloat),
    decreases pairs, n,
{
    if n > 0 {
        lemma_enc_total_members(pairs, table, pool, n - 1, v);
        assert(decreases_to!(v => v->Object_0));
        vstd::seq::axiom_seq_index_decreases(pairs, n - 1);
        assert(decreases_to!(pairs[n - 1] => pairs[n - 1].1));
        crate::value::lemma_key_count_members_ge(pairs, pairs[n - 1].0, n - 1, pairs.len() as int);
        assert(key_count(v, pairs[n - 1].0) == key_count_members(
            pairs,
            pairs[n - 1].0,
            pairs.len() as int,
        ));
        assert(huff_contains(table, pairs[n - 1].0));
        assert(keys_covered(pairs[n - 1].1, table)) by {
            assert forall|k: Seq<u8>| key_count(pairs[n - 1].1, k) >= 1 implies huff_contains(
                table,
                k,
            ) by {
                crate::value::lemma_key_count_members_ge(pairs, k, n - 1, pairs.len() as int);
                assert(key_count(v, k) == key_count_members(pairs, k, pairs.len() as int));
            }
        }
        lemma_enc_total(pairs[n - 1].1, table, pool);
    }
}

/// Compression fails exactly on values with a non-finite float, and
/// then with `IllegalFloat` — provided the coder builds, which the
/// tables of values collected in memory do.  The dictionary argument
/// witnesses the value's key counts.
pub proof fn lemma_compress_illegal_float(
    v: SpecJson,
    opt: CompressOptions,
    d: Seq<(Seq<u8>, u64)>,
)
    requires
        crate::dict::dict_wf(d),
        forall|k: Seq<u8>|
            #[trigger] crate::dict::dict_freq(d, k) == crate::dict::sat64(key_count(v, k)),
        spec_huffman(d) is Ok,
    ensures
        compress_bits(v, opt) is Ok <==> crate::value::floats_finite(v),
        compress_bits(v, opt) is Err ==> compress_bits(v, opt) == Err::<Seq<bool>, _>(
            Error::IllegalFloat,
        ),
{
    crate::dict::lemma_the_key_dict(v, d);
    assert(the_key_dict(v) == d);
    let table = spec_huffman(d).unwrap();
    crate::huffman::lemma_spec_huffman_keys(d);
    assert(keys_covered(v, table)) by {
        assert forall|k: Seq<u8>| key_count(v, k) >= 1 implies huff_contains(table, k) by {
            assert(crate::dict::dict_freq(d, k) >= 1);
            crate::dict::lemma_dict_freq_contains(d, k);
        }
    }
    let pool = if opt.enable_value_pool {
        Some(the_pool(v, opt))
    } else {
        None::<Seq<Seq<u8>>>
    };
    lemma_enc_total(v, table, pool);
}

} // verus!
