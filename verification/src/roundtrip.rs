//! Decoding inverts encoding: reading a just-written record, and a
//! just-written package, yields the original value.

use vstd::prelude::*;
use vstd::arithmetic::power2::pow2;
use crate::bits::{
    bits_of, bits_value, bytes_to_bits, lemma_bits_of_len, lemma_bytes_to_bits_len,
    lemma_bits_value_of, lemma_parse_bytes_of, lemma_bits_of_one,
};
use crate::codec::{
    enc_value, enc_list, enc_members, parse_value, parse_list, parse_members,
    parse_literal_string, keys_covered, lemma_parse_value_object, lemma_parse_value_array,
    lemma_parse_list_unfold, lemma_parse_members_unfold, pool_bits, parse_pool, compress_bits,
    parse_package, the_pool, pool_cfg, CompressOptions,
};
use crate::errors::Error;
use crate::header::{VERSION_V1, VERSION_V2};
use crate::huffman::{huff_wf, huff_contains};
use crate::pool::pool_find;
use crate::value::{SpecJson, wf_json, sizes_ok, key_count, key_count_list, key_count_members};
use crate::varint::{uleb_bits, sleb_bits, parse_uleb, parse_sleb, in_i64};

verus! {

/// The standing hypotheses of decode-after-encode: a well-formed
/// coder with its longest length, a version matching the pool's
/// presence, and a pool addressable by 64-bit ids.
pub open spec fn rt_env(
    table: Seq<(Seq<u8>, u8, u64)>,
    maxlen: u8,
    version: u8,
    pool: Option<Seq<Seq<u8>>>,
) -> bool {
    &&& huff_wf(table)
    &&& maxlen == (if table.len() == 0 {
        0u8
    } else {
        table[table.len() - 1].1
    })
    &&& (version == VERSION_V2 <==> pool is Some)
    &&& (version == VERSION_V1 || version == VERSION_V2)
    &&& (pool matches Some(p) ==> p.len() < pow2(64))
}

/// The value parser at a tag below three, spelled out.
proof fn lemma_pv_simple(
    bits: Seq<bool>,
    pos: int,
    table: Seq<(Seq<u8>, u8, u64)>,
    maxlen: u8,
    version: u8,
    pool: Option<Seq<Seq<u8>>>,
)
    requires
        0 <= pos,
        pos + 3 <= bits.len(),
        bits_value(bits.subrange(pos, pos + 3)) < 3,
    ensures
        parse_value(bits, pos, table, maxlen, version, pool) == Ok::<_, Error>(
            (
                if bits_value(bits.subrange(pos, pos + 3)) == 0 {
                    SpecJson::Null
                } else if bits_value(bits.subrange(pos, pos + 3)) == 1 {
                    SpecJson::Bool(false)
                } else {
                    SpecJson::Bool(true)
                },
                pos + 3,
            ),
        ),
{
}

/// The value parser at the integer tag, spelled out.
proof fn lemma_pv_int(
    bits: Seq<bool>,
    pos: int,
    table: Seq<(Seq<u8>, u8, u64)>,
    maxlen: u8,
    version: u8,
    pool: Option<Seq<Seq<u8>>>,
)
    requires
        0 <= pos,
        pos + 4 <= bits.len(),
        bits_value(bits.subrange(pos, pos + 3)) == 3,
    ensures
        !bits[pos + 3] ==> parse_value(bits, pos, table, maxlen, version, pool) == (match
        parse_sleb(bits, pos + 4) {
            Ok((i, p)) => if !in_i64(i) {
                Err(Error::VarintOverflow)
            } else if i < 0 {
                Ok((SpecJson::Int(i as i64), p))
            } else {
                Ok((SpecJson::Uint(i as u64), p))
            },
            Err(e) => Err(e),
        }),
        bits[pos + 3] ==> parse_value(bits, pos, table, maxlen, version, pool) == (match
        parse_uleb(bits, pos + 4) {
            Ok((u, p)) => if u >= pow2(64) {
                Err(Error::VarintOverflow)
            } else {
                Ok((SpecJson::Uint(u as u64), p))
            },
            Err(e) => Err(e),
        }),
{
}

/// The value parser at the float tag, spelled out.
proof fn lemma_pv_float(
    bits: Seq<bool>,
    pos: int,
    table: Seq<(Seq<u8>, u8, u64)>,
    maxlen: u8,
    version: u8,
    pool: Option<Seq<Seq<u8>>>,
)
    requires
        0 <= pos,
        pos + 67 <= bits.len(),
        bits_value(bits.subrange(pos, pos + 3)) == 4,
        crate::value::is_finite_bits(bits_value(bits.subrange(pos + 3, pos + 67)) as u64),
    ensures
        parse_value(bits, pos, table, maxlen, version, pool) == Ok::<_, Error>(
            (
                SpecJson::Float(bits_value(bits.subrange(pos + 3, pos + 67)) as u64),
                pos + 67,
            ),
        ),
{
}

/// The value parser at the string tag, spelled out per version and
/// pool flag.
proof fn lemma_pv_str(
    bits: Seq<bool>,
    pos: int,
    table: Seq<(Seq<u8>, u8, u64)>,
    maxlen: u8,
    version: u8,
    pool: Option<Seq<Seq<u8>>>,
)
    requires
        0 <= pos,
        pos + 4 <= bits.len(),
        bits_value(bits.subrange(pos, pos + 3)) == 5,
    ensures
        version != VERSION_V2 ==> parse_value(bits, pos, table, maxlen, version, pool)
            == parse_literal_string(bits, pos + 3),
        version == VERSION_V2 && !bits[pos + 3] ==> parse_value(
            bits,
            pos,
            table,
            maxlen,
            version,
            pool,
        ) == parse_literal_string(bits, pos + 4),
        version == VERSION_V2 && bits[pos + 3] ==> parse_value(
            bits,
            pos,
            table,
            maxlen,
            version,
            pool,
        ) == (match parse_uleb(bits, pos + 4) {
            Ok((id, p1)) => if id >= pow2(64) {
                Err(Error::VarintOverflow)
            } else {
                match pool {
                    Some(p) => if id < p.len() {
                        Ok((SpecJson::Str(p[id as int]), p1))
                    } else {
                        Err(Error::PoolIdOutOfRange)
                    },
                    None => Err(Error::PoolIdOutOfRange),
                }
            },
            Err(e) => Err(e),
        }),
{
}

/// The tag sits readable at the front of the record.
proof fn lemma_tag_at(bits: Seq<bool>, pos: int, body: Seq<bool>, tag: nat)
    requires
        0 <= pos,
        tag < 8,
        body.len() >= 3,
        pos + body.len() <= bits.len(),
        forall|j: int| 0 <= j < body.len() ==> bits[pos + j] == #[trigger] body[j],
        forall|j: int| 0 <= j < 3 ==> #[trigger] body[j] == bits_of(tag, 3)[j],
    ensures
        bits_value(bits.subrange(pos, pos + 3)) == tag,
{
    broadcast use lemma_bits_of_len;

    assert forall|j: int| 0 <= j < 3 implies bits.subrange(pos, pos + 3)[j] == bits_of(tag, 3)[j] by {
        assert(bits[pos + j] == body[j]);
        assert(body[j] == bits_of(tag, 3)[j]);
    }
    assert(bits.subrange(pos, pos + 3) =~= bits_of(tag, 3));
    lemma_bits_value_of(tag, 3);
    vstd::arithmetic::power2::lemma2_to64();
    vstd::arithmetic::div_mod::lemma_small_mod(tag, 8);
}

/// Parsing a literal string body right after encoding it: the byte
/// count, then the bytes.
proof fn lemma_literal_roundtrip(sv: Seq<u8>, bits: Seq<bool>, p: int, body: Seq<bool>, off: int)
    requires
        0 <= off,
        0 <= p,
        crate::value::is_utf8(sv),
        sv.len() < pow2(64),
        off + uleb_bits(sv.len()).len() + 8 * sv.len() <= body.len(),
        p == (p - off) + off,
        p - off >= 0,
        (p - off) + body.len() <= bits.len(),
        forall|j: int| 0 <= j < body.len() ==> bits[(p - off) + j] == #[trigger] body[j],
        forall|j: int|
            0 <= j < uleb_bits(sv.len()).len() + 8 * sv.len() ==> #[trigger] body[off + j] == (
            uleb_bits(sv.len()) + bytes_to_bits(sv))[j],
    ensures
        parse_literal_string(bits, p) == Ok::<_, Error>(
            (SpecJson::Str(sv), p + uleb_bits(sv.len()).len() + 8 * sv.len()),
        ),
{
    broadcast use lemma_bits_of_len, lemma_bytes_to_bits_len;

    vstd::arithmetic::power2::lemma2_to64();
    vstd::arithmetic::power2::lemma2_to64_rest();
    vstd::arithmetic::power2::lemma_pow2_adds(64, 6);
    vstd::arithmetic::power2::lemma_pow2_strictly_increases(64, 70);
    let ub = uleb_bits(sv.len());
    let sb = bytes_to_bits(sv);
    assert forall|j: int| 0 <= j < ub.len() implies bits[p + j] == #[trigger] ub[j] by {
        assert(bits[(p - off) + (off + j)] == body[off + j]);
        assert(body[off + j] == (ub + sb)[j]);
        assert((ub + sb)[j] == ub[j]);
    }
    assert(bits.subrange(p, p + ub.len() as int) =~= ub);
    crate::varint::lemma_uleb_bytes_len_le(sv.len(), 10);
    crate::varint::lemma_uleb_roundtrip(sv.len(), bits, p, 10);
    let p2 = p + ub.len() as int;
    assert forall|j: int| 0 <= j < sb.len() implies bits[p2 + j] == #[trigger] sb[j] by {
        assert(bits[(p - off) + (off + (ub.len() + j))] == body[off + (ub.len() + j)]);
        assert(body[off + (ub.len() + j)] == (ub + sb)[ub.len() + j]);
        assert((ub + sb)[ub.len() + j] == sb[j]);
    }
    assert(bits.subrange(p2, p2 + 8 * sv.len() as int) =~= sb);
    lemma_parse_bytes_of(sv, bits, p2);
}

/// Round trip of a null or boolean record.
proof fn lemma_rt_simple(
    v: SpecJson,
    table: Seq<(Seq<u8>, u8, u64)>,
    maxlen: u8,
    version: u8,
    pool: Option<Seq<Seq<u8>>>,
    bits: Seq<bool>,
    pos: int,
)
    requires
        v is Null || v is Bool,
        enc_value(v, table, pool) is Ok,
        0 <= pos,
        pos + enc_value(v, table, pool).unwrap().len() <= bits.len(),
        bits.subrange(pos, pos + enc_value(v, table, pool).unwrap().len()) =~= enc_value(
            v,
            table,
            pool,
        ).unwrap(),
    ensures
        parse_value(bits, pos, table, maxlen, version, pool) == Ok::<_, Error>(
            (v, pos + enc_value(v, table, pool).unwrap().len()),
        ),
{
    broadcast use lemma_bits_of_len;

    let body = enc_value(v, table, pool).unwrap();
    assert(forall|j: int| 0 <= j < body.len() ==> bits[pos + j] == #[trigger] body[j]);
    let tag: nat = match v {
        SpecJson::Null => 0,
        SpecJson::Bool(b) => if b {
            2
        } else {
            1
        },
        _ => 0,
    };
    assert(body == bits_of(tag, 3));
    lemma_tag_at(bits, pos, body, tag);
    lemma_pv_simple(bits, pos, table, maxlen, version, pool);
}

/// Round trip of an integer record: negatives and small values go
/// signed, large unsigned values go unsigned, and the decoder
/// reclassifies to the same canonical variant.
proof fn lemma_rt_int(
    v: SpecJson,
    table: Seq<(Seq<u8>, u8, u64)>,
    maxlen: u8,
    version: u8,
    pool: Option<Seq<Seq<u8>>>,
    bits: Seq<bool>,
    pos: int,
)
    requires
        v is Int || v is Uint,
        wf_json(v),
        enc_value(v, table, pool) is Ok,
        0 <= pos,
        pos + enc_value(v, table, pool).unwrap().len() <= bits.len(),
        bits.subrange(pos, pos + enc_value(v, table, pool).unwrap().len()) =~= enc_value(
            v,
            table,
            pool,
        ).unwrap(),
    ensures
        parse_value(bits, pos, table, maxlen, version, pool) == Ok::<_, Error>(
            (v, pos + enc_value(v, table, pool).unwrap().len()),
        ),
{
    broadcast use lemma_bits_of_len, lemma_bytes_to_bits_len;

    vstd::arithmetic::power2::lemma2_to64();
    vstd::arithmetic::power2::lemma2_to64_rest();
    vstd::arithmetic::power2::lemma_pow2_strictly_increases(63, 69);
    vstd::arithmetic::power2::lemma_pow2_adds(64, 6);
    vstd::arithmetic::power2::lemma_pow2_strictly_increases(64, 70);
    let body = enc_value(v, table, pool).unwrap();
    assert(forall|j: int| 0 <= j < body.len() ==> bits[pos + j] == #[trigger] body[j]);
    lemma_tag_at(bits, pos, body, 3);
    let signed: bool = match v {
        SpecJson::Int(i) => true,
        SpecJson::Uint(u) => u <= i64::MAX,
        _ => true,
    };
    let val: int = match v {
        SpecJson::Int(i) => i as int,
        SpecJson::Uint(u) => u as int,
        _ => 0,
    };
    lemma_bits_of_one(if signed {
        0nat
    } else {
        1nat
    });
    if signed {
        let sb = sleb_bits(val);
        assert(body =~= bits_of(3, 3) + bits_of(0, 1) + sb);
        assert(!bits[pos + 3]) by {
            assert(body[3] == bits_of(0, 1)[0]);
            assert(bits_of(0, 1) =~= seq![false]);
        }
        assert(bits.subrange(pos + 4, pos + 4 + sb.len() as int) =~= sb) by {
            assert(forall|j: int| 0 <= j < sb.len() ==> body[4 + j] == #[trigger] sb[j]);
        }
        crate::varint::lemma_sleb_bytes_len_le(val, 10);
        crate::varint::lemma_sleb_roundtrip(val, bits, pos + 4, 10);
        lemma_pv_int(bits, pos, table, maxlen, version, pool);
    } else {
        let uval: nat = val as nat;
        let ub = uleb_bits(uval);
        assert(body =~= bits_of(3, 3) + bits_of(1, 1) + ub);
        assert(bits[pos + 3]) by {
            assert(body[3] == bits_of(1, 1)[0]);
            assert(bits_of(1, 1) =~= seq![true]);
        }
        assert(bits.subrange(pos + 4, pos + 4 + ub.len() as int) =~= ub) by {
            assert(forall|j: int| 0 <= j < ub.len() ==> body[4 + j] == #[trigger] ub[j]);
        }
        crate::varint::lemma_uleb_bytes_len_le(uval, 10);
        crate::varint::lemma_uleb_roundtrip(uval, bits, pos + 4, 10);
        lemma_pv_int(bits, pos, table, maxlen, version, pool);
    }
}

/// Round trip of a float record.
proof fn lemma_rt_float(
    v: SpecJson,
    table: Seq<(Seq<u8>, u8, u64)>,
    maxlen: u8,
    version: u8,
    pool: Option<Seq<Seq<u8>>>,
    bits: Seq<bool>,
    pos: int,
)
    requires
        v is Float,
        enc_value(v, table, pool) is Ok,
        0 <= pos,
        pos + enc_value(v, table, pool).unwrap().len() <= bits.len(),
        bits.subrange(pos, pos + enc_value(v, table, pool).unwrap().len()) =~= enc_value(
            v,
            table,
            pool,
        ).unwrap(),
    ensures
        parse_value(bits, pos, table, maxlen, version, pool) == Ok::<_, Error>(
            (v, pos + enc_value(v, table, pool).unwrap().len()),
        ),
{
    broadcast use lemma_bits_of_len;

    let body = enc_value(v, table, pool).unwrap();
    assert(forall|j: int| 0 <= j < body.len() ==> bits[pos + j] == #[trigger] body[j]);
    lemma_tag_at(bits, pos, body, 4);
    let fb = v->Float_0;
    assert(body =~= bits_of(4, 3) + bits_of(fb as nat, 64));
    assert(bits.subrange(pos + 3, pos + 67) =~= bits_of(fb as nat, 64)) by {
        assert(forall|j: int|
            0 <= j < 64 ==> body[3 + j] == #[trigger] bits_of(fb as nat, 64)[j]);
    }
    lemma_bits_value_of(fb as nat, 64);
    vstd::arithmetic::power2::lemma2_to64();
    vstd::arithmetic::power2::lemma2_to64_rest();
    vstd::arithmetic::div_mod::lemma_small_mod(fb as nat, pow2(64));
    lemma_pv_float(bits, pos, table, maxlen, version, pool);
}

/// Round trip of a string record: a pooled string travels as its id
/// and resolves to the same bytes, a literal as count and bytes.
#[verifier::spinoff_prover]
#[verifier::rlimit(60)]
proof fn lemma_rt_str(
    v: SpecJson,
    table: Seq<(Seq<u8>, u8, u64)>,
    maxlen: u8,
    version: u8,
    pool: Option<Seq<Seq<u8>>>,
    bits: Seq<bool>,
    pos: int,
)
    requires
        v is Str,
        rt_env(table, maxlen, version, pool),
        wf_json(v),
        sizes_ok(v),
        enc_value(v, table, pool) is Ok,
        0 <= pos,
        pos + enc_value(v, table, pool).unwrap().len() <= bits.len(),
        bits.subrange(pos, pos + enc_value(v, table, pool).unwrap().len()) =~= enc_value(
            v,
            table,
            pool,
        ).unwrap(),
    ensures
        parse_value(bits, pos, table, maxlen, version, pool) == Ok::<_, Error>(
            (v, pos + enc_value(v, table, pool).unwrap().len()),
        ),
{
    broadcast use lemma_bits_of_len, lemma_bytes_to_bits_len;

    vstd::arithmetic::power2::lemma2_to64();
    vstd::arithmetic::power2::lemma2_to64_rest();
    vstd::arithmetic::power2::lemma_pow2_adds(64, 6);
    vstd::arithmetic::power2::lemma_pow2_strictly_increases(64, 70);
    let body = enc_value(v, table, pool).unwrap();
    assert(forall|j: int| 0 <= j < body.len() ==> bits[pos + j] == #[trigger] body[j]);
    lemma_tag_at(bits, pos, body, 5);
    let sv = v->Str_0;
    lemma_pv_str(bits, pos, table, maxlen, version, pool);
    match pool {
        None => {
            assert(body =~= bits_of(5, 3) + (uleb_bits(sv.len()) + bytes_to_bits(sv)));
            lemma_literal_roundtrip(sv, bits, pos + 3, body, 3);
        },
        Some(p) => {
            let f = pool_find(p, p.len() as int, sv);
            crate::pool::lemma_pool_find(p, p.len() as int, sv);
            lemma_bits_of_one(if f >= 0 {
                1nat
            } else {
                0nat
            });
            if f >= 0 {
                let ub = uleb_bits(f as nat);
                assert(body =~= bits_of(5, 3) + bits_of(1, 1) + ub);
                assert(bits[pos + 3]) by {
                    assert(body[3] == bits_of(1, 1)[0]);
                    assert(bits_of(1, 1) =~= seq![true]);
                }
                assert(bits.subrange(pos + 4, pos + 4 + ub.len() as int) =~= ub) by {
                    assert(forall|j: int| 0 <= j < ub.len() ==> body[4 + j] == #[trigger] ub[j]);
                }
                crate::varint::lemma_uleb_bytes_len_le(f as nat, 10);
                crate::varint::lemma_uleb_roundtrip(f as nat, bits, pos + 4, 10);
                assert(p[f] == sv);
            } else {
                assert(body =~= bits_of(5, 3) + bits_of(0, 1) + (uleb_bits(sv.len())
                    + bytes_to_bits(sv)));
                assert(!bits[pos + 3]) by {
                    assert(body[3] == bits_of(0, 1)[0]);
                    assert(bits_of(0, 1) =~= seq![false]);
                }
                lemma_literal_roundtrip(sv, bits, pos + 4, body, 4);
            }
        },
    }
}

/// Encoding a prefix of a list succeeds when the whole list does.
proof fn lemma_enc_list_prefix(
    items: Seq<SpecJson>,
    table: Seq<(Seq<u8>, u8, u64)>,
    pool: Option<Seq<Seq<u8>>>,
    k: int,
    n: int,
)
    requires
        0 <= k <= n <= items.len(),
        enc_list(items, table, pool, n) is Ok,
    ensures
        enc_list(items, table, pool, k) is Ok,
    decreases n - k,
{
    if k < n {
        lemma_enc_list_prefix(items, table, pool, k + 1, n);
    }
}

/// A longer encoded prefix extends a shorter one bit for bit.
proof fn lemma_enc_list_extends(
    items: Seq<SpecJson>,
    table: Seq<(Seq<u8>, u8, u64)>,
    pool: Option<Seq<Seq<u8>>>,
    k: int,
    n: int,
)
    requires
        0 <= k <= n <= items.len(),
        enc_list(items, table, pool, n) is Ok,
    ensures
        enc_list(items, table, pool, k) is Ok,
        enc_list(items, table, pool, k).unwrap().len() <= enc_list(
            items,
            table,
            pool,
            n,
        ).unwrap().len(),
        forall|j: int|
            0 <= j < enc_list(items, table, pool, k).unwrap().len() ==> #[trigger] enc_list(
                items,
                table,
                pool,
                n,
            ).unwrap()[j] == enc_list(items, table, pool, k).unwrap()[j],
    decreases n - k,
{
    lemma_enc_list_prefix(items, table, pool, k, n);
    if k < n {
        lemma_enc_list_extends(items, table, pool, k + 1, n);
    }
}

/// Encoding a prefix of an object succeeds when the whole object does.
proof fn lemma_enc_members_prefix(
    pairs: Seq<(Seq<u8>, SpecJson)>,
    table: Seq<(Seq<u8>, u8, u64)>,
    pool: Option<Seq<Seq<u8>>>,
    k: int,
    n: int,
)
    requires
        0 <= k <= n <= pairs.len(),
        enc_members(pairs, table, pool, n) is Ok,
    ensures
        enc_members(pairs, table, pool, k) is Ok,
    decreases n - k,
{
    if k < n {
        lemma_enc_members_prefix(pairs, table, pool, k + 1, n);
    }
}

/// A longer encoded member run extends a shorter one bit for bit.
proof fn lemma_enc_members_extends(
    pairs: Seq<(Seq<u8>, SpecJson)>,
    table: Seq<(Seq<u8>, u8, u64)>,
    pool: Option<Seq<Seq<u8>>>,
    k: int,
    n: int,
)
    requires
        0 <= k <= n <= pairs.len(),
        enc_members(pairs, table, pool, n) is Ok,
    ensures
        enc_members(pairs, table, pool, k) is Ok,
        enc_members(pairs, table, pool, k).unwrap().len() <= enc_members(
            pairs,
            table,
            pool,
            n,
        ).unwrap().len(),
        forall|j: int|
            0 <= j < enc_members(pairs, table, pool, k).unwrap().len() ==> #[trigger] enc_members(
                pairs,
                table,
                pool,
                n,
            ).unwrap()[j] == enc_members(pairs, table, pool, k).unwrap()[j],
    decreases n - k,
{
    lemma_enc_members_prefix(pairs, table, pool, k, n);
    if k < n {
        lemma_enc_members_extends(pairs, table, pool, k + 1, n);
    }
}

/// A value record is at least its three tag bits long.
proof fn lemma_enc_value_min(
    v: SpecJson,
    table: Seq<(Seq<u8>, u8, u64)>,
    pool: Option<Seq<Seq<u8>>>,
)
    requires
        enc_value(v, table, pool) is Ok,
    ensures
        enc_value(v, table, pool).unwrap().len() >= 3,
{
    broadcast use lemma_bits_of_len;

}

/// Parsing right after writing a value yields that value back and
/// stops right after its record.
#[verifier::spinoff_prover]
pub proof fn lemma_value_roundtrip(
    v: SpecJson,
    table: Seq<(Seq<u8>, u8, u64)>,
    maxlen: u8,
    version: u8,
    pool: Option<Seq<Seq<u8>>>,
    bits: Seq<bool>,
    pos: int,
)
    requires
        rt_env(table, maxlen, version, pool),
        wf_json(v),
        sizes_ok(v),
        keys_covered(v, table),
        enc_value(v, table, pool) is Ok,
        0 <= pos,
        pos + enc_value(v, table, pool).unwrap().len() <= bits.len(),
        bits.subrange(pos, pos + enc_value(v, table, pool).unwrap().len()) =~= enc_value(
            v,
            table,
            pool,
        ).unwrap(),
    ensures
        parse_value(bits, pos, table, maxlen, version, pool) == Ok::<_, Error>(
            (v, pos + enc_value(v, table, pool).unwrap().len()),
        ),
    decreases v, 1int,
{
    match v {
        SpecJson::Null => {
            lemma_rt_simple(v, table, maxlen, version, pool, bits, pos);
        },
        SpecJson::Bool(b) => {
            lemma_rt_simple(v, table, maxlen, version, pool, bits, pos);
        },
        SpecJson::Int(i) => {
            lemma_rt_int(v, table, maxlen, version, pool, bits, pos);
        },
        SpecJson::Uint(u) => {
            lemma_rt_int(v, table, maxlen, version, pool, bits, pos);
        },
        SpecJson::Float(fb) => {
            lemma_rt_float(v, table, maxlen, version, pool, bits, pos);
        },
        SpecJson::Str(sv) => {
            lemma_rt_str(v, table, maxlen, version, pool, bits, pos);
        },
        SpecJson::Array(items) => {
            lemma_rt_array(v, table, maxlen, version, pool, bits, pos);
        },
        SpecJson::Object(pairs) => {
            lemma_rt_object(v, table, maxlen, version, pool, bits, pos);
        },
    }
}


/// The element hypotheses of an array follow from the array's own.
proof fn lemma_array_children_env(v: SpecJson, items: Seq<SpecJson>, table: Seq<(Seq<u8>, u8, u64)>)
    requires
        v == SpecJson::Array(items),
        wf_json(v),
        sizes_ok(v),
        keys_covered(v, table),
    ensures
        forall|i: int| 0 <= i < items.len() ==> wf_json(#[trigger] items[i]),
        forall|i: int| 0 <= i < items.len() ==> sizes_ok(#[trigger] items[i]),
        forall|i: int| 0 <= i < items.len() ==> keys_covered(#[trigger] items[i], table),
{
    let n = items.len() as int;
    assert forall|i: int| 0 <= i < items.len() implies keys_covered(
        #[trigger] items[i],
        table,
    ) by {
        assert forall|kk: Seq<u8>| key_count(items[i], kk) >= 1 implies huff_contains(
            table,
            kk,
        ) by {
            crate::value::lemma_key_count_list_ge(items, kk, i, n);
            assert(key_count(v, kk) == key_count_list(items, kk, n));
        }
    }
}

#[verifier::spinoff_prover]
#[verifier::rlimit(100)]
proof fn lemma_rt_array(
    v: SpecJson,
    table: Seq<(Seq<u8>, u8, u64)>,
    maxlen: u8,
    version: u8,
    pool: Option<Seq<Seq<u8>>>,
    bits: Seq<bool>,
    pos: int,
)
    requires
        v is Array,
        rt_env(table, maxlen, version, pool),
        wf_json(v),
        sizes_ok(v),
        keys_covered(v, table),
        enc_value(v, table, pool) is Ok,
        0 <= pos,
        pos + enc_value(v, table, pool).unwrap().len() <= bits.len(),
        bits.subrange(pos, pos + enc_value(v, table, pool).unwrap().len()) =~= enc_value(
            v,
            table,
            pool,
        ).unwrap(),
    ensures
        parse_value(bits, pos, table, maxlen, version, pool) == Ok::<_, Error>(
            (v, pos + enc_value(v, table, pool).unwrap().len()),
        ),
    decreases v, 0int,
{
    broadcast use lemma_bits_of_len, lemma_bytes_to_bits_len;

    vstd::arithmetic::power2::lemma2_to64();
    vstd::arithmetic::power2::lemma2_to64_rest();
    vstd::arithmetic::power2::lemma_pow2_adds(64, 6);
    vstd::arithmetic::power2::lemma_pow2_strictly_increases(64, 70);
    let body = enc_value(v, table, pool).unwrap();
    let items = v->Array_0;
    assert(forall|j: int| 0 <= j < body.len() ==> bits[pos + j] == #[trigger] body[j]);
    let n = items.len() as int;
    let cb = uleb_bits(items.len());
    let lb = enc_list(items, table, pool, n).unwrap();
    assert(body =~= bits_of(7, 3) + cb + lb);
    lemma_tag_at(bits, pos, body, 7);
    assert(bits.subrange(pos + 3, pos + 3 + cb.len() as int) =~= cb) by {
        assert forall|j: int| 0 <= j < cb.len() implies bits.subrange(
            pos + 3,
            pos + 3 + cb.len() as int,
        )[j] == cb[j] by {
            assert(bits[pos + (3 + j)] == body[3 + j]);
            assert(body[3 + j] == (bits_of(7, 3) + cb)[3 + j]);
        }
    }
    crate::varint::lemma_uleb_bytes_len_le(items.len(), 10);
    crate::varint::lemma_uleb_roundtrip(items.len(), bits, pos + 3, 10);
    let p1 = pos + 3 + cb.len() as int;
    lemma_array_children_env(v, items, table);
    assert(enc_list(items, table, pool, 0) == Ok::<_, Error>(Seq::<bool>::empty()));
    assert forall|j: int| 0 <= j < lb.len() implies bits[p1 + j] == #[trigger] lb[j] by {
        assert(bits[pos + (3 + cb.len() + j)] == body[3 + cb.len() + j]);
        assert(body[3 + cb.len() + j] == lb[j]);
    }
    lemma_list_roundtrip(items, table, maxlen, version, pool, bits, p1, 0);
    assert(items.subrange(0, n) =~= items);
    lemma_parse_value_array(bits, pos, table, maxlen, version, pool);
}

#[verifier::spinoff_prover]
#[verifier::rlimit(100)]
proof fn lemma_rt_object(
    v: SpecJson,
    table: Seq<(Seq<u8>, u8, u64)>,
    maxlen: u8,
    version: u8,
    pool: Option<Seq<Seq<u8>>>,
    bits: Seq<bool>,
    pos: int,
)
    requires
        v is Object,
        rt_env(table, maxlen, version, pool),
        wf_json(v),
        sizes_ok(v),
        keys_covered(v, table),
        enc_value(v, table, pool) is Ok,
        0 <= pos,
        pos + enc_value(v, table, pool).unwrap().len() <= bits.len(),
        bits.subrange(pos, pos + enc_value(v, table, pool).unwrap().len()) =~= enc_value(
            v,
            table,
            pool,
        ).unwrap(),
    ensures
        parse_value(bits, pos, table, maxlen, version, pool) == Ok::<_, Error>(
            (v, pos + enc_value(v, table, pool).unwrap().len()),
        ),
    decreases v, 0int,
{
    broadcast use lemma_bits_of_len, lemma_bytes_to_bits_len;

    vstd::arithmetic::power2::lemma2_to64();
    vstd::arithmetic::power2::lemma2_to64_rest();
    vstd::arithmetic::power2::lemma_pow2_adds(64, 6);
    vstd::arithmetic::power2::lemma_pow2_strictly_increases(64, 70);
    let body = enc_value(v, table, pool).unwrap();
    let pairs = v->Object_0;
    assert(forall|j: int| 0 <= j < body.len() ==> bits[pos + j] == #[trigger] body[j]);
    let n = pairs.len() as int;
    let cb = uleb_bits(pairs.len());
    let mb = enc_members(pairs, table, pool, n).unwrap();
    assert(body =~= bits_of(6, 3) + cb + mb);
    lemma_tag_at(bits, pos, body, 6);
    assert(bits.subrange(pos + 3, pos + 3 + cb.len() as int) =~= cb) by {
        assert forall|j: int| 0 <= j < cb.len() implies bits.subrange(
            pos + 3,
            pos + 3 + cb.len() as int,
        )[j] == cb[j] by {
            assert(bits[pos + (3 + j)] == body[3 + j]);
            assert(body[3 + j] == (bits_of(6, 3) + cb)[3 + j]);
        }
    }
    crate::varint::lemma_uleb_bytes_len_le(pairs.len(), 10);
    crate::varint::lemma_uleb_roundtrip(pairs.len(), bits, pos + 3, 10);
    let p1 = pos + 3 + cb.len() as int;
    assert forall|i: int| 0 <= i < pairs.len() implies wf_json((#[trigger] pairs[i]).1)
        && sizes_ok(pairs[i].1) && keys_covered(pairs[i].1, table) && huff_contains(
        table,
        pairs[i].0,
    ) by {
        crate::value::lemma_key_count_members_ge(pairs, pairs[i].0, i, n);
        assert(key_count(v, pairs[i].0) == key_count_members(pairs, pairs[i].0, n));
        assert(key_count(v, pairs[i].0) >= 1);
        assert forall|kk: Seq<u8>| key_count(pairs[i].1, kk) >= 1 implies huff_contains(
            table,
            kk,
        ) by {
            crate::value::lemma_key_count_members_ge(pairs, kk, i, n);
            assert(key_count(v, kk) == key_count_members(pairs, kk, n));
        }
    }
    assert(enc_members(pairs, table, pool, 0) == Ok::<_, Error>(Seq::<bool>::empty()));
    assert forall|j: int| 0 <= j < mb.len() implies bits[p1 + j] == #[trigger] mb[j] by {
        assert(bits[pos + (3 + cb.len() + j)] == body[3 + cb.len() + j]);
        assert(body[3 + cb.len() + j] == mb[j]);
    }
    lemma_members_roundtrip(pairs, table, maxlen, version, pool, bits, p1, 0);
    assert(pairs.subrange(0, n) =~= pairs);
    lemma_parse_value_object(bits, pos, table, maxlen, version, pool);
}

#[verifier::spinoff_prover]
#[verifier::rlimit(60)]
proof fn lemma_list_roundtrip(
    items: Seq<SpecJson>,
    table: Seq<(Seq<u8>, u8, u64)>,
    maxlen: u8,
    version: u8,
    pool: Option<Seq<Seq<u8>>>,
    bits: Seq<bool>,
    pos0: int,
    k: int,
)
    requires
        rt_env(table, maxlen, version, pool),
        forall|i: int| 0 <= i < items.len() ==> wf_json(#[trigger] items[i]),
        forall|i: int| 0 <= i < items.len() ==> sizes_ok(#[trigger] items[i]),
        forall|i: int| 0 <= i < items.len() ==> keys_covered(#[trigger] items[i], table),
        enc_list(items, table, pool, items.len() as int) is Ok,
        0 <= k <= items.len(),
        0 <= pos0,
        pos0 + enc_list(items, table, pool, items.len() as int).unwrap().len() <= bits.len(),
        forall|j: int|
            0 <= j < enc_list(items, table, pool, items.len() as int).unwrap().len() ==> bits[pos0
                + j] == #[trigger] enc_list(items, table, pool, items.len() as int).unwrap()[j],
    ensures
        enc_list(items, table, pool, k) is Ok,
        parse_list(
            bits,
            pos0 + enc_list(items, table, pool, k).unwrap().len(),
            (items.len() - k) as nat,
            table,
            maxlen,
            version,
            pool,
        ) == Ok::<_, Error>(
            (
                items.subrange(k, items.len() as int),
                pos0 + enc_list(items, table, pool, items.len() as int).unwrap().len(),
            ),
        ),
    decreases items, items.len() - k,
{
    let n = items.len() as int;
    let whole = enc_list(items, table, pool, n).unwrap();
    lemma_enc_list_prefix(items, table, pool, k, n);
    let pk = pos0 + enc_list(items, table, pool, k).unwrap().len() as int;
    if k == n {
        assert(enc_list(items, table, pool, k).unwrap() == whole);
        assert(items.subrange(n, n) =~= Seq::<SpecJson>::empty());
    } else {
        lemma_enc_list_prefix(items, table, pool, k + 1, n);
        let one = enc_value(items[k], table, pool).unwrap();
        assert(enc_list(items, table, pool, k + 1).unwrap() == enc_list(
            items,
            table,
            pool,
            k,
        ).unwrap() + one);
        lemma_enc_list_extends(items, table, pool, k, n);
        lemma_enc_list_extends(items, table, pool, k + 1, n);
        assert(bits.subrange(pk, pk + one.len() as int) =~= one) by {
            assert forall|j: int| 0 <= j < one.len() implies bits.subrange(
                pk,
                pk + one.len() as int,
            )[j] == one[j] by {
                assert(bits[pos0 + ((pk - pos0) + j)] == whole[(pk - pos0) + j]);
                assert(whole[(pk - pos0) + j] == enc_list(items, table, pool, k + 1).unwrap()[(pk
                    - pos0) + j]);
            }
        }
        vstd::seq::axiom_seq_index_decreases(items, k);
        lemma_value_roundtrip(items[k], table, maxlen, version, pool, bits, pk);
        lemma_enc_value_min(items[k], table, pool);
        lemma_list_roundtrip(items, table, maxlen, version, pool, bits, pos0, k + 1);
        lemma_parse_list_unfold(bits, pk, (n - k) as nat, table, maxlen, version, pool);
        assert(seq![items[k]] + items.subrange(k + 1, n) =~= items.subrange(k, n));
    }
}

/// Parsing the remaining members of an encoded object, from member
/// `k` on.
#[verifier::spinoff_prover]
#[verifier::rlimit(90)]
proof fn lemma_members_roundtrip(
    pairs: Seq<(Seq<u8>, SpecJson)>,
    table: Seq<(Seq<u8>, u8, u64)>,
    maxlen: u8,
    version: u8,
    pool: Option<Seq<Seq<u8>>>,
    bits: Seq<bool>,
    pos0: int,
    k: int,
)
    requires
        rt_env(table, maxlen, version, pool),
        forall|i: int| 0 <= i < pairs.len() ==> wf_json((#[trigger] pairs[i]).1),
        forall|i: int| 0 <= i < pairs.len() ==> sizes_ok((#[trigger] pairs[i]).1),
        forall|i: int| 0 <= i < pairs.len() ==> keys_covered((#[trigger] pairs[i]).1, table),
        forall|i: int| 0 <= i < pairs.len() ==> huff_contains(table, (#[trigger] pairs[i]).0),
        enc_members(pairs, table, pool, pairs.len() as int) is Ok,
        0 <= k <= pairs.len(),
        0 <= pos0,
        pos0 + enc_members(pairs, table, pool, pairs.len() as int).unwrap().len() <= bits.len(),
        forall|j: int|
            0 <= j < enc_members(pairs, table, pool, pairs.len() as int).unwrap().len() ==> bits[
            pos0 + j] == #[trigger] enc_members(
                pairs,
                table,
                pool,
                pairs.len() as int,
            ).unwrap()[j],
    ensures
        enc_members(pairs, table, pool, k) is Ok,
        parse_members(
            bits,
            pos0 + enc_members(pairs, table, pool, k).unwrap().len(),
            (pairs.len() - k) as nat,
            table,
            maxlen,
            version,
            pool,
        ) == Ok::<_, Error>(
            (
                pairs.subrange(k, pairs.len() as int),
                pos0 + enc_members(pairs, table, pool, pairs.len() as int).unwrap().len(),
            ),
        ),
    decreases pairs, pairs.len() - k,
{
    broadcast use lemma_bits_of_len;

    let n = pairs.len() as int;
    let whole = enc_members(pairs, table, pool, n).unwrap();
    lemma_enc_members_prefix(pairs, table, pool, k, n);
    let pk = pos0 + enc_members(pairs, table, pool, k).unwrap().len() as int;
    if k == n {
        assert(enc_members(pairs, table, pool, k).unwrap() == whole);
        assert(pairs.subrange(n, n) =~= Seq::<(Seq<u8>, SpecJson)>::empty());
    } else {
        lemma_enc_members_prefix(pairs, table, pool, k + 1, n);
        let key = pairs[k].0;
        let kb = crate::huffman::key_bits(table, key);
        let one = enc_value(pairs[k].1, table, pool).unwrap();
        assert(enc_members(pairs, table, pool, k + 1).unwrap() == enc_members(
            pairs,
            table,
            pool,
            k,
        ).unwrap() + kb + one);
        lemma_enc_members_extends(pairs, table, pool, k, n);
        lemma_enc_members_extends(pairs, table, pool, k + 1, n);
        // the key's code word
        let f = crate::huffman::huff_find(table, table.len() as int, key);
        crate::huffman::lemma_huff_find(table, table.len() as int, key);
        assert(f >= 0) by {
            if f < 0 {
                let w = choose|w: int| 0 <= w < table.len() && (#[trigger] table[w]).0 == key;
            }
        }
        assert(kb == crate::huffman::codeword_bits(table[f].2, table[f].1));
        assert(kb.len() == table[f].1);
        assert(bits.subrange(pk, pk + kb.len() as int) =~= kb) by {
            assert forall|j: int| 0 <= j < kb.len() implies bits.subrange(
                pk,
                pk + kb.len() as int,
            )[j] == kb[j] by {
                assert(bits[pos0 + ((pk - pos0) + j)] == whole[(pk - pos0) + j]);
                assert(whole[(pk - pos0) + j] == enc_members(
                    pairs,
                    table,
                    pool,
                    k + 1,
                ).unwrap()[(pk - pos0) + j]);
                assert(enc_members(pairs, table, pool, k + 1).unwrap()[(pk - pos0) + j] == ((
                enc_members(pairs, table, pool, k).unwrap() + kb) + one)[(pk - pos0) + j]);
            }
        }
        crate::huffman::lemma_key_roundtrip(table, maxlen, bits, pk, f);
        let pkk = pk + kb.len() as int;
        // the member's value
        assert(bits.subrange(pkk, pkk + one.len() as int) =~= one) by {
            assert forall|j: int| 0 <= j < one.len() implies bits.subrange(
                pkk,
                pkk + one.len() as int,
            )[j] == one[j] by {
                assert(bits[pos0 + ((pkk - pos0) + j)] == whole[(pkk - pos0) + j]);
                assert(whole[(pkk - pos0) + j] == enc_members(
                    pairs,
                    table,
                    pool,
                    k + 1,
                ).unwrap()[(pkk - pos0) + j]);
                assert(enc_members(pairs, table, pool, k + 1).unwrap()[(pkk - pos0) + j] == ((
                enc_members(pairs, table, pool, k).unwrap() + kb) + one)[(pkk - pos0) + j]);
            }
        }
        vstd::seq::axiom_seq_index_decreases(pairs, k);
        assert(decreases_to!(pairs[k] => pairs[k].1));
        lemma_value_roundtrip(pairs[k].1, table, maxlen, version, pool, bits, pkk);
        lemma_enc_value_min(pairs[k].1, table, pool);
        assert(table[f].1 >= 1);
        lemma_members_roundtrip(pairs, table, maxlen, version, pool, bits, pos0, k + 1);
        lemma_parse_members_unfold(bits, pk, (n - k) as nat, table, maxlen, version, pool);
        assert(seq![(key, pairs[k].1)] + pairs.subrange(k + 1, n) =~= pairs.subrange(k, n)) by {
            assert((key, pairs[k].1) == pairs[k]);
        }
    }
}

/// The pool-section parser's first step, spelled out.
proof fn lemma_parse_pool_unfold(
    bits: Seq<bool>,
    pos: int,
    count: nat,
    table: Seq<(Seq<u8>, u8, u64)>,
    maxlen: u8,
)
    requires
        count >= 1,
    ensures
        parse_pool(bits, pos, count, table, maxlen) == (match parse_value(
            bits,
            pos,
            table,
            maxlen,
            VERSION_V1,
            None,
        ) {
            Ok((v, p1)) => match v {
                SpecJson::Str(b) => match parse_pool(
                    bits,
                    p1,
                    (count - 1) as nat,
                    table,
                    maxlen,
                ) {
                    Ok((rest, p2)) => Ok::<_, Error>((seq![b] + rest, p2)),
                    Err(e) => Err(e),
                },
                _ => Err(Error::HuffmanError),
            },
            Err(e) => Err(e),
        }),
{
}

/// A longer pool section extends a shorter one bit for bit.
proof fn lemma_pool_bits_extends(entries: Seq<Seq<u8>>, k: int, n: int)
    requires
        0 <= k <= n <= entries.len(),
    ensures
        pool_bits(entries, k).len() <= pool_bits(entries, n).len(),
        forall|j: int|
            0 <= j < pool_bits(entries, k).len() ==> #[trigger] pool_bits(entries, n)[j]
                == pool_bits(entries, k)[j],
    decreases n - k,
{
    if k < n {
        lemma_pool_bits_extends(entries, k + 1, n);
    }
}

/// Parsing the remaining entries of an encoded pool section, from
/// entry `k` on.
#[verifier::spinoff_prover]
#[verifier::rlimit(100)]
proof fn lemma_pool_section_roundtrip(
    entries: Seq<Seq<u8>>,
    table: Seq<(Seq<u8>, u8, u64)>,
    maxlen: u8,
    bits: Seq<bool>,
    pos0: int,
    k: int,
)
    requires
        rt_env(table, maxlen, VERSION_V1, None),
        forall|w: int|
            0 <= w < entries.len() ==> crate::value::is_utf8(#[trigger] entries[w]) && entries[
            w].len() < pow2(64),
        0 <= k <= entries.len(),
        0 <= pos0,
        pos0 + pool_bits(entries, entries.len() as int).len() <= bits.len(),
        forall|j: int|
            0 <= j < pool_bits(entries, entries.len() as int).len() ==> bits[pos0 + j]
                == #[trigger] pool_bits(entries, entries.len() as int)[j],
    ensures
        parse_pool(
            bits,
            pos0 + pool_bits(entries, k).len(),
            (entries.len() - k) as nat,
            table,
            maxlen,
        ) == Ok::<_, Error>(
            (
                entries.subrange(k, entries.len() as int),
                pos0 + pool_bits(entries, entries.len() as int).len(),
            ),
        ),
    decreases entries.len() - k,
{
    broadcast use lemma_bits_of_len, lemma_bytes_to_bits_len;

    vstd::arithmetic::power2::lemma2_to64();
    vstd::arithmetic::power2::lemma2_to64_rest();
    let n = entries.len() as int;
    let whole = pool_bits(entries, n);
    let pk = pos0 + pool_bits(entries, k).len() as int;
    if k == n {
        assert(entries.subrange(n, n) =~= Seq::<Seq<u8>>::empty());
    } else {
        let e = entries[k];
        let sv = SpecJson::Str(e);
        let one = bits_of(5, 3) + uleb_bits(e.len()) + bytes_to_bits(e);
        assert(pool_bits(entries, k + 1) == pool_bits(entries, k) + one);
        assert(enc_value(sv, table, None::<Seq<Seq<u8>>>) is Ok);
        assert(enc_value(sv, table, None::<Seq<Seq<u8>>>).unwrap() =~= one);
        lemma_pool_bits_extends(entries, k, n);
        lemma_pool_bits_extends(entries, k + 1, n);
        assert(bits.subrange(pk, pk + one.len() as int) =~= one) by {
            assert forall|j: int| 0 <= j < one.len() implies bits.subrange(
                pk,
                pk + one.len() as int,
            )[j] == one[j] by {
                assert(bits[pos0 + ((pk - pos0) + j)] == whole[(pk - pos0) + j]);
                assert(whole[(pk - pos0) + j] == pool_bits(entries, k + 1)[(pk - pos0) + j]);
                assert(pool_bits(entries, k + 1)[(pk - pos0) + j] == (pool_bits(entries, k)
                    + one)[(pk - pos0) + j]);
            }
        }
        assert(wf_json(sv) && sizes_ok(sv));
        assert(keys_covered(sv, table)) by {
            assert forall|kk: Seq<u8>| key_count(sv, kk) >= 1 implies huff_contains(
                table,
                kk,
            ) by {
                assert(key_count(sv, kk) == 0);
            }
        }
        lemma_value_roundtrip(sv, table, maxlen, VERSION_V1, None, bits, pk);
        lemma_pool_section_roundtrip(entries, table, maxlen, bits, pos0, k + 1);
        lemma_parse_pool_unfold(bits, pk, (n - k) as nat, table, maxlen);
        assert(seq![e] + entries.subrange(k + 1, n) =~= entries.subrange(k, n));
    }
}

} // verus!
