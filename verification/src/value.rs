//! The JSON value model of the codec.
//!
//! A document is an ordered tree.  Numbers are kept in their canonical
//! classified form: every integer in `0 ..= u64::MAX` is a `Uint`, every
//! integer in `i64::MIN ..= -1` is an `Int`, and a float is carried as
//! the 64 bits of its IEEE 754 double-precision pattern.  Strings and
//! object keys are carried as their UTF-8 bytes.

use vstd::prelude::*;

verus! {

broadcast use
    vstd::std_specs::vec::axiom_vec_decreases_to_view,
    vstd::seq::axiom_seq_index_decreases;

/// The mathematical model of a JSON value, used by every contract.
pub ghost enum SpecJson {
    Null,
    Bool(bool),
    /// A negative integer.
    Int(i64),
    /// A non-negative integer.
    Uint(u64),
    /// The IEEE 754 bit pattern of a double-precision float.
    Float(u64),
    /// The UTF-8 bytes of a string.
    Str(Seq<u8>),
    Array(Seq<SpecJson>),
    /// Member order is significant and is preserved on the wire.
    Object(Seq<(Seq<u8>, SpecJson)>),
}

/// A JSON value.
///
/// `Int` holds only negative integers and `Uint` every non-negative
/// one, so each abstract number has exactly one representation and a
/// round trip through the codec returns the identical variant.
#[derive(Debug, PartialEq, Eq)]
pub enum JsonValue {
    Null,
    Bool(bool),
    /// A negative integer (see [`wf_json`](crate::value::wf_json)).
    Int(i64),
    /// A non-negative integer.
    Uint(u64),
    /// The IEEE 754 bit pattern of a double-precision float.
    Float(u64),
    /// The UTF-8 bytes of a string.
    Str(Vec<u8>),
    Array(Vec<JsonValue>),
    /// Members in document order, each a key with its value.
    Object(Vec<(Vec<u8>, JsonValue)>),
}

impl View for JsonValue {
    type V = SpecJson;

    open spec fn view(&self) -> SpecJson
        decreases self, 0int,
    {
        match self {
            JsonValue::Null => SpecJson::Null,
            JsonValue::Bool(b) => SpecJson::Bool(*b),
            JsonValue::Int(i) => SpecJson::Int(*i),
            JsonValue::Uint(u) => SpecJson::Uint(*u),
            JsonValue::Float(bits) => SpecJson::Float(*bits),
            JsonValue::Str(s) => SpecJson::Str(s@),
            JsonValue::Array(items) => SpecJson::Array(
                view_list(*items, items.len() as int),
            ),
            JsonValue::Object(pairs) => SpecJson::Object(
                view_members(*pairs, pairs.len() as int),
            ),
        }
    }
}

/// The views of the first `n` elements of `items`, in order.
pub open spec fn view_list(items: Vec<JsonValue>, n: int) -> Seq<SpecJson>
    decreases items, n,
    via view_list_decreases
{
    if n <= 0 || n > items.len() {
        Seq::empty()
    } else {
        view_list(items, n - 1).push(items[n - 1]@)
    }
}

#[via_fn]
proof fn view_list_decreases(items: Vec<JsonValue>, n: int) {
    if 0 < n <= items.len() {
        vstd::std_specs::vec::axiom_vec_decreases_to_view(items);
        vstd::seq::axiom_seq_index_decreases(items@, n - 1);
    }
}

/// The views of the first `n` members of `pairs`: each key's bytes with
/// the view of its value, in order.
pub open spec fn view_members(pairs: Vec<(Vec<u8>, JsonValue)>, n: int) -> Seq<(Seq<u8>, SpecJson)>
    decreases pairs, n,
    via view_members_decreases
{
    if n <= 0 || n > pairs.len() {
        Seq::empty()
    } else {
        view_members(pairs, n - 1).push((pairs[n - 1].0@, pairs[n - 1].1@))
    }
}

#[via_fn]
proof fn view_members_decreases(pairs: Vec<(Vec<u8>, JsonValue)>, n: int) {
    if 0 < n <= pairs.len() {
        vstd::std_specs::vec::axiom_vec_decreases_to_view(pairs);
        vstd::seq::axiom_seq_index_decreases(pairs@, n - 1);
        assert(decreases_to!(pairs@[n - 1] => pairs@[n - 1].1));
    }
}

/// Whether a byte is a UTF-8 continuation byte (`10xxxxxx`).
pub open spec fn is_utf8_cont(b: u8) -> bool {
    0x80 <= b <= 0xBF
}

/// Whether a byte sequence is well-formed UTF-8 (RFC 3629): one- to
/// four-byte sequences, with overlong forms, surrogate code points and
/// values above U+10FFFF excluded.
pub open spec fn is_utf8(s: Seq<u8>) -> bool
    decreases s.len(),
{
    if s.len() == 0 {
        true
    } else {
        let b0 = s[0];
        if b0 <= 0x7F {
            is_utf8(s.skip(1))
        } else if 0xC2 <= b0 <= 0xDF {
            s.len() >= 2 && is_utf8_cont(s[1]) && is_utf8(s.skip(2))
        } else if b0 == 0xE0 {
            s.len() >= 3 && 0xA0 <= s[1] <= 0xBF && is_utf8_cont(s[2]) && is_utf8(s.skip(3))
        } else if 0xE1 <= b0 <= 0xEC || b0 == 0xEE || b0 == 0xEF {
            s.len() >= 3 && is_utf8_cont(s[1]) && is_utf8_cont(s[2]) && is_utf8(s.skip(3))
        } else if b0 == 0xED {
            s.len() >= 3 && 0x80 <= s[1] <= 0x9F && is_utf8_cont(s[2]) && is_utf8(s.skip(3))
        } else if b0 == 0xF0 {
            s.len() >= 4 && 0x90 <= s[1] <= 0xBF && is_utf8_cont(s[2]) && is_utf8_cont(s[3])
                && is_utf8(s.skip(4))
        } else if 0xF1 <= b0 <= 0xF3 {
            s.len() >= 4 && is_utf8_cont(s[1]) && is_utf8_cont(s[2]) && is_utf8_cont(s[3])
                && is_utf8(s.skip(4))
        } else if b0 == 0xF4 {
            s.len() >= 4 && 0x80 <= s[1] <= 0x8F && is_utf8_cont(s[2]) && is_utf8_cont(s[3])
                && is_utf8(s.skip(4))
        } else {
            false
        }
    }
}

/// Checks whether `bytes` is well-formed UTF-8.
pub fn is_valid_utf8(bytes: &[u8]) -> (r: bool)
    ensures
        r == is_utf8(bytes@),
{
    let n = bytes.len();
    let mut i: usize = 0;
    assert(bytes@.skip(0) =~= bytes@);
    loop
        invariant
            i <= n,
            n == bytes@.len(),
            is_utf8(bytes@) == is_utf8(bytes@.skip(i as int)),
        decreases n - i,
    {
        if i == n {
            assert(bytes@.skip(i as int) =~= Seq::<u8>::empty());
            return true;
        }
        let rem = n - i;
        let ghost rest = bytes@.skip(i as int);
        assert(forall|k: int| 0 <= k < rest.len() ==> rest[k] == bytes@[i + k]);
        let b0 = bytes[i];
        let width: usize = if b0 <= 0x7F {
            1
        } else if 0xC2 <= b0 && b0 <= 0xDF {
            if !(rem >= 2 && is_cont(bytes[i + 1])) {
                return false;
            }
            2
        } else if b0 == 0xE0 {
            if !(rem >= 3 && 0xA0 <= bytes[i + 1] && bytes[i + 1] <= 0xBF
                && is_cont(bytes[i + 2])) {
                return false;
            }
            3
        } else if (0xE1 <= b0 && b0 <= 0xEC) || b0 == 0xEE || b0 == 0xEF {
            if !(rem >= 3 && is_cont(bytes[i + 1]) && is_cont(bytes[i + 2])) {
                return false;
            }
            3
        } else if b0 == 0xED {
            if !(rem >= 3 && 0x80 <= bytes[i + 1] && bytes[i + 1] <= 0x9F
                && is_cont(bytes[i + 2])) {
                return false;
            }
            3
        } else if b0 == 0xF0 {
            if !(rem >= 4 && 0x90 <= bytes[i + 1] && bytes[i + 1] <= 0xBF
                && is_cont(bytes[i + 2]) && is_cont(bytes[i + 3])) {
                return false;
            }
            4
        } else if 0xF1 <= b0 && b0 <= 0xF3 {
            if !(rem >= 4 && is_cont(bytes[i + 1]) && is_cont(bytes[i + 2])
                && is_cont(bytes[i + 3])) {
                return false;
            }
            4
        } else if b0 == 0xF4 {
            if !(rem >= 4 && 0x80 <= bytes[i + 1] && bytes[i + 1] <= 0x8F
                && is_cont(bytes[i + 2]) && is_cont(bytes[i + 3])) {
                return false;
            }
            4
        } else {
            return false;
        };
        assert(rest.skip(width as int) =~= bytes@.skip(i + width as int));
        i += width;
    }
}

/// Whether a byte is a UTF-8 continuation byte.
pub fn is_cont(b: u8) -> (r: bool)
    ensures
        r == is_utf8_cont(b),
{
    0x80 <= b && b <= 0xBF
}

/// Whether a double-precision bit pattern is finite: its eleven
/// exponent bits are not all ones (which would mean an infinity or a
/// NaN).
pub open spec fn is_finite_bits(bits: u64) -> bool {
    (bits / 0x10000000000000) % 0x800 != 0x7FF
}

/// Checks whether a double-precision bit pattern is finite.
pub fn float_is_finite(bits: u64) -> (r: bool)
    ensures
        r == is_finite_bits(bits),
{
    (bits / 0x10000000000000) % 0x800 != 0x7FF
}

/// Well-formedness of a value: negative integers under `Int`, strings
/// and keys in valid UTF-8.  Constructed values round-trip exactly
/// when well formed.
pub open spec fn wf_json(v: SpecJson) -> bool
    decreases v,
{
    match v {
        SpecJson::Int(i) => i < 0,
        SpecJson::Str(s) => is_utf8(s),
        SpecJson::Array(items) => forall|i: int|
            0 <= i < items.len() ==> wf_json(#[trigger] items[i]),
        SpecJson::Object(pairs) => forall|i: int|
            0 <= i < pairs.len() ==> is_utf8((#[trigger] pairs[i]).0) && wf_json(pairs[i].1),
        _ => true,
    }
}

/// Whether every float in the tree is finite; compression succeeds
/// exactly on such values.
pub open spec fn floats_finite(v: SpecJson) -> bool
    decreases v,
{
    match v {
        SpecJson::Float(bits) => is_finite_bits(bits),
        SpecJson::Array(items) => forall|i: int|
            0 <= i < items.len() ==> floats_finite(#[trigger] items[i]),
        SpecJson::Object(pairs) => forall|i: int|
            0 <= i < pairs.len() ==> floats_finite((#[trigger] pairs[i]).1),
        _ => true,
    }
}

/// `view_list` of a whole vector lists each element's view in order.
pub proof fn lemma_view_list(items: Vec<JsonValue>, n: int)
    requires
        0 <= n <= items.len(),
    ensures
        view_list(items, n).len() == n,
        forall|i: int| 0 <= i < n ==> #[trigger] view_list(items, n)[i] == items[i]@,
    decreases n,
{
    if n > 0 {
        lemma_view_list(items, n - 1);
        assert(view_list(items, n) == view_list(items, n - 1).push(items[n - 1]@));
    }
}

/// `view_members` of a whole vector lists each member's key bytes and
/// value view in order.
pub proof fn lemma_view_members(pairs: Vec<(Vec<u8>, JsonValue)>, n: int)
    requires
        0 <= n <= pairs.len(),
    ensures
        view_members(pairs, n).len() == n,
        forall|i: int| 0 <= i < n ==> #[trigger] view_members(pairs, n)[i] == (
            pairs[i].0@,
            pairs[i].1@,
        ),
    decreases n,
{
    if n > 0 {
        lemma_view_members(pairs, n - 1);
        assert(view_members(pairs, n) == view_members(pairs, n - 1).push(
            (pairs[n - 1].0@, pairs[n - 1].1@),
        ));
    }
}

/// How often `key` occurs as an object member name anywhere in the
/// tree.
pub open spec fn key_count(v: SpecJson, key: Seq<u8>) -> nat
    decreases v, 0int,
{
    match v {
        SpecJson::Array(items) => key_count_list(items, key, items.len() as int),
        SpecJson::Object(pairs) => key_count_members(pairs, key, pairs.len() as int),
        _ => 0,
    }
}

/// Key occurrences in the first `n` elements of an array.
pub open spec fn key_count_list(items: Seq<SpecJson>, key: Seq<u8>, n: int) -> nat
    decreases items, n,
{
    if n <= 0 || n > items.len() {
        0
    } else {
        key_count_list(items, key, n - 1) + key_count(items[n - 1], key)
    }
}

/// Key occurrences in the first `n` members of an object: the member
/// names themselves and their subtrees.
pub open spec fn key_count_members(pairs: Seq<(Seq<u8>, SpecJson)>, key: Seq<u8>, n: int) -> nat
    decreases pairs, n,
    via key_count_members_decreases
{
    if n <= 0 || n > pairs.len() {
        0
    } else {
        key_count_members(pairs, key, n - 1) + (if pairs[n - 1].0 == key {
            1nat
        } else {
            0nat
        }) + key_count(pairs[n - 1].1, key)
    }
}

#[via_fn]
proof fn key_count_members_decreases(pairs: Seq<(Seq<u8>, SpecJson)>, key: Seq<u8>, n: int) {
    if 0 < n <= pairs.len() {
        vstd::seq::axiom_seq_index_decreases(pairs, n - 1);
        assert(decreases_to!(pairs[n - 1] => pairs[n - 1].1));
    }
}

/// Counts in whole containers bound the counts of their parts.
pub proof fn lemma_key_count_list_ge(items: Seq<SpecJson>, key: Seq<u8>, i: int, n: int)
    requires
        0 <= i < n <= items.len(),
    ensures
        key_count_list(items, key, n) >= key_count(items[i], key),
    decreases n,
{
    if i < n - 1 {
        lemma_key_count_list_ge(items, key, i, n - 1);
    }
}

/// Counts in whole objects bound the counts of their members.
pub proof fn lemma_key_count_members_ge(pairs: Seq<(Seq<u8>, SpecJson)>, key: Seq<u8>, i: int, n: int)
    requires
        0 <= i < n <= pairs.len(),
    ensures
        key_count_members(pairs, key, n) >= (if pairs[i].0 == key {
            1nat
        } else {
            0nat
        }) + key_count(pairs[i].1, key),
    decreases n,
{
    if i < n - 1 {
        lemma_key_count_members_ge(pairs, key, i, n - 1);
    }
}

/// Every count on the wire fits 64 bits: string byte lengths and
/// container sizes.
pub open spec fn sizes_ok(v: SpecJson) -> bool
    decreases v,
{
    match v {
        SpecJson::Str(s) => s.len() < 0x10000000000000000,
        SpecJson::Array(items) => items.len() < 0x10000000000000000 && (forall|i: int|
            0 <= i < items.len() ==> sizes_ok(#[trigger] items[i])),
        SpecJson::Object(pairs) => pairs.len() < 0x10000000000000000 && (forall|i: int|
            0 <= i < pairs.len() ==> (#[trigger] pairs[i]).0.len() < 0x10000000000000000
                && sizes_ok(pairs[i].1)),
        _ => true,
    }
}


} // verus!
