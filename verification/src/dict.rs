//! The key-frequency dictionary.
//!
//! A depth-first traversal of a value counts every object key; the
//! table is kept sorted by key bytes, strictly ascending, which fixes
//! the wire order and the canonical Huffman tie-breaker.  On the wire
//! the dictionary section is the entries alone — the key count already
//! stands in the header — each entry a key byte length, the key bytes,
//! and the count, the numbers in unsigned LEB128.

use vstd::prelude::*;
use vstd::arithmetic::power2::pow2;
use crate::bits::{
    bits_value, byte_bits, bytes_to_bits, zero_bits, lemma_bits_of_len, lemma_bytes_to_bits_len,
    lemma_bytes_to_bits_push, lemma_bytes_to_bits_append, lemma_bits_value_of, parse_bytes,
    lemma_parse_bytes_of,
};
use crate::bitstream::{BitReader, BitWriter};
use crate::errors::Error;
use crate::value::{
    JsonValue, SpecJson, is_utf8, is_valid_utf8, key_count, key_count_list, key_count_members,
    view_list, view_members, lemma_view_list, lemma_view_members,
};
use crate::varint::{
    uleb_bits, uleb_bytes, parse_uleb, write_uleb128, read_uleb128, lemma_uleb_roundtrip,
    lemma_uleb_bytes_len_le, lemma_uleb_bytes_min_len,
};

verus! {

broadcast use lemma_bits_of_len, lemma_bytes_to_bits_len, vstd::seq::axiom_seq_index_decreases;

/// Strict lexicographic order on byte sequences.
pub open spec fn bytes_lt(a: Seq<u8>, b: Seq<u8>) -> bool
    decreases a.len(),
{
    if b.len() == 0 {
        false
    } else if a.len() == 0 {
        true
    } else if a[0] < b[0] {
        true
    } else if a[0] > b[0] {
        false
    } else {
        bytes_lt(a.skip(1), b.skip(1))
    }
}

/// The order is a strict total order: exactly one of `a < b`,
/// `a == b`, `b < a` holds.
pub proof fn lemma_bytes_lt_trichotomy(a: Seq<u8>, b: Seq<u8>)
    ensures
        bytes_lt(a, b) || bytes_lt(b, a) || a =~= b,
        bytes_lt(a, b) ==> !bytes_lt(b, a) && !(a =~= b),
        bytes_lt(b, a) ==> !bytes_lt(a, b) && !(a =~= b),
    decreases a.len(),
{
    if a.len() > 0 && b.len() > 0 && a[0] == b[0] {
        lemma_bytes_lt_trichotomy(a.skip(1), b.skip(1));
        if a.skip(1) =~= b.skip(1) {
            assert forall|j: int| 0 <= j < a.len() implies a[j] == b[j] by {
                if j >= 1 {
                    assert(a[j] == a.skip(1)[j - 1]);
                    assert(b[j] == b.skip(1)[j - 1]);
                }
            }
            assert(a =~= b);
        }
        if a =~= b {
            assert(a.skip(1) =~= b.skip(1));
        }
    } else if a =~= b {
        assert(a.len() == b.len());
    }
}

/// The order is transitive.
pub proof fn lemma_bytes_lt_trans(a: Seq<u8>, b: Seq<u8>, c: Seq<u8>)
    requires
        bytes_lt(a, b),
        bytes_lt(b, c),
    ensures
        bytes_lt(a, c),
    decreases a.len(),
{
    if a.len() > 0 && b.len() > 0 && c.len() > 0 {
        if a[0] == b[0] && b[0] == c[0] {
            lemma_bytes_lt_trans(a.skip(1), b.skip(1), c.skip(1));
        }
    }
}

/// Compares two byte vectors lexicographically; the result is the
/// sign of `a` against `b`.
pub fn lex_cmp(a: &Vec<u8>, b: &Vec<u8>) -> (r: i8)
    ensures
        r == -1 ==> bytes_lt(a@, b@),
        r == 0 ==> a@ =~= b@,
        r == 1 ==> bytes_lt(b@, a@),
        r == -1 || r == 0 || r == 1,
{
    let n = if a.len() < b.len() {
        a.len()
    } else {
        b.len()
    };
    let mut i: usize = 0;
    proof {
        assert(a@.skip(0) =~= a@);
        assert(b@.skip(0) =~= b@);
    }
    loop
        invariant
            i <= n,
            n == if a@.len() < b@.len() {
                a@.len()
            } else {
                b@.len()
            },
            forall|j: int| 0 <= j < i ==> a@[j] == b@[j],
            bytes_lt(a@, b@) == bytes_lt(a@.skip(i as int), b@.skip(i as int)),
            bytes_lt(b@, a@) == bytes_lt(b@.skip(i as int), a@.skip(i as int)),
        decreases n - i,
    {
        if i == n {
            if a.len() < b.len() {
                assert(bytes_lt(a@.skip(i as int), b@.skip(i as int)));
                return -1;
            } else if a.len() > b.len() {
                assert(bytes_lt(b@.skip(i as int), a@.skip(i as int)));
                return 1;
            } else {
                assert(a@ =~= b@);
                return 0;
            }
        }
        let x = a[i];
        let y = b[i];
        proof {
            assert(a@.skip(i as int)[0] == a@[i as int]);
            assert(b@.skip(i as int)[0] == b@[i as int]);
        }
        if x < y {
            return -1;
        }
        if x > y {
            return 1;
        }
        proof {
            assert(a@.skip(i as int).skip(1) =~= a@.skip(i + 1));
            assert(b@.skip(i as int).skip(1) =~= b@.skip(i + 1));
        }
        i += 1;
    }
}

/// A sorted key-frequency table.
pub struct KeyDict {
    entries: Vec<(Vec<u8>, u64)>,
}

impl View for KeyDict {
    type V = Seq<(Seq<u8>, u64)>;

    /// The entries in table order: each key's bytes with its count.
    closed spec fn view(&self) -> Seq<(Seq<u8>, u64)> {
        Seq::new(self.entries@.len(), |i: int| (self.entries@[i].0@, self.entries@[i].1))
    }
}

/// Keys strictly ascending and every count positive.
pub open spec fn dict_wf(s: Seq<(Seq<u8>, u64)>) -> bool {
    &&& forall|i: int| 0 <= i < s.len() - 1 ==> bytes_lt(#[trigger] s[i].0, s[i + 1].0)
    &&& forall|i: int| 0 <= i < s.len() ==> (#[trigger] s[i].1) >= 1
}

/// Sortedness extends beyond neighbours.
pub proof fn lemma_dict_sorted(s: Seq<(Seq<u8>, u64)>, i: int, j: int)
    requires
        dict_wf(s),
        0 <= i < j < s.len(),
    ensures
        bytes_lt(s[i].0, s[j].0),
    decreases j - i,
{
    if i + 1 < j {
        lemma_dict_sorted(s, i + 1, j);
        lemma_bytes_lt_trans(s[i].0, s[i + 1].0, s[j].0);
    }
}

/// The count stored for a key, zero when absent.
pub open spec fn dict_freq(s: Seq<(Seq<u8>, u64)>, key: Seq<u8>) -> nat
    decreases s.len(),
{
    if s.len() == 0 {
        0
    } else if s[0].0 == key {
        s[0].1 as nat
    } else {
        dict_freq(s.skip(1), key)
    }
}

/// Whether a key is present.
pub open spec fn dict_contains(s: Seq<(Seq<u8>, u64)>, key: Seq<u8>) -> bool {
    exists|i: int| 0 <= i < s.len() && (#[trigger] s[i]).0 == key
}

/// In a table, the stored count is positive exactly for present keys.
pub proof fn lemma_dict_freq_contains(s: Seq<(Seq<u8>, u64)>, key: Seq<u8>)
    requires
        forall|i: int| 0 <= i < s.len() ==> (#[trigger] s[i].1) >= 1,
    ensures
        dict_contains(s, key) <==> dict_freq(s, key) >= 1,
        !dict_contains(s, key) <==> dict_freq(s, key) == 0,
    decreases s.len(),
{
    if s.len() > 0 && s[0].0 != key {
        lemma_dict_freq_contains(s.skip(1), key);
        if dict_contains(s.skip(1), key) {
            let i = choose|i: int| 0 <= i < s.skip(1).len() && (#[trigger] s.skip(1)[i]).0 == key;
            assert(s[i + 1].0 == key);
        }
        if dict_contains(s, key) {
            let i = choose|i: int| 0 <= i < s.len() && (#[trigger] s[i]).0 == key;
            assert(s.skip(1)[i - 1].0 == key);
        }
    }
}

/// The value at an index determines a `dict_freq` result.
pub proof fn lemma_dict_freq_at(s: Seq<(Seq<u8>, u64)>, key: Seq<u8>, i: int)
    requires
        dict_wf(s),
        0 <= i < s.len(),
        s[i].0 == key,
    ensures
        dict_freq(s, key) == s[i].1 as nat,
    decreases s.len(),
{
    if i > 0 {
        if s[0].0 == key {
            lemma_dict_sorted(s, 0, i);
            lemma_bytes_lt_trichotomy(s[0].0, s[i].0);
        } else {
            assert(dict_wf(s.skip(1))) by {
                assert(forall|j: int|
                    0 <= j < s.skip(1).len() ==> #[trigger] s.skip(1)[j] == s[j + 1]);
            }
            lemma_dict_freq_at(s.skip(1), key, i - 1);
        }
    }
}

impl KeyDict {
    /// The table's invariant.
    pub open spec fn wf(&self) -> bool {
        dict_wf(self@)
    }

    /// An empty table.
    pub fn new() -> (r: KeyDict)
        ensures
            r.wf(),
            r@ =~= Seq::<(Seq<u8>, u64)>::empty(),
    {
        KeyDict { entries: Vec::new() }
    }

    /// The number of keys.
    pub fn len(&self) -> (r: usize)
        ensures
            r == self@.len(),
    {
        self.entries.len()
    }

    /// The key bytes and count at a table index.
    pub fn entry_at(&self, i: usize) -> (r: (&Vec<u8>, u64))
        requires
            i < self@.len(),
        ensures
            r.0@ =~= self@[i as int].0,
            r.1 == self@[i as int].1,
    {
        let e = &self.entries[i];
        (&e.0, e.1)
    }

    /// The stored count of a key, zero when absent.
    pub fn freq_of(&self, key: &Vec<u8>) -> (r: u64)
        requires
            self.wf(),
        ensures
            r as nat == dict_freq(self@, key@),
    {
        let n = self.entries.len();
        let mut i: usize = 0;
        proof {
            assert(self@.skip(0) =~= self@);
        }
        loop
            invariant
                self.wf(),
                i <= n,
                n == self@.len(),
                dict_freq(self@, key@) == dict_freq(self@.skip(i as int), key@),
            decreases n - i,
        {
            if i == n {
                assert(self@.skip(i as int) =~= Seq::<(Seq<u8>, u64)>::empty());
                return 0;
            }
            let c = lex_cmp(&self.entries[i].0, key);
            proof {
                assert(self@.skip(i as int)[0] == self@[i as int]);
            }
            if c == 0 {
                return self.entries[i].1;
            }
            proof {
                assert(self@.skip(i as int).skip(1) =~= self@.skip(i + 1));
                lemma_bytes_lt_trichotomy(self@[i as int].0, key@);
            }
            i += 1;
        }
    }
}

/// A count clamped to the 64-bit range.
pub open spec fn sat64(n: nat) -> nat {
    if n > u64::MAX {
        u64::MAX as nat
    } else {
        n
    }
}

/// A table with `key` bound to `freq`: replaces the old binding or
/// inserts at the sorted position.
pub open spec fn dict_insert(s: Seq<(Seq<u8>, u64)>, key: Seq<u8>, freq: u64) -> Seq<
    (Seq<u8>, u64),
>
    decreases s.len(),
{
    if s.len() == 0 {
        seq![(key, freq)]
    } else if bytes_lt(key, s[0].0) {
        seq![(key, freq)] + s
    } else if key == s[0].0 {
        seq![(key, freq)] + s.skip(1)
    } else {
        seq![s[0]] + dict_insert(s.skip(1), key, freq)
    }
}

/// Inserting preserves the invariant and binds exactly `key`.
pub proof fn lemma_dict_insert(s: Seq<(Seq<u8>, u64)>, key: Seq<u8>, freq: u64)
    requires
        dict_wf(s),
        freq >= 1,
    ensures
        dict_wf(dict_insert(s, key, freq)),
        dict_freq(dict_insert(s, key, freq), key) == freq as nat,
        forall|k2: Seq<u8>|
            k2 != key ==> #[trigger] dict_freq(dict_insert(s, key, freq), k2) == dict_freq(s, k2),
        dict_insert(s, key, freq).len() <= s.len() + 1,
        dict_insert(s, key, freq).len() >= s.len(),
    decreases s.len(),
{
    let r = dict_insert(s, key, freq);
    if s.len() == 0 {
        assert(r =~= seq![(key, freq)]);
        assert(r.skip(1) =~= Seq::<(Seq<u8>, u64)>::empty());
        assert forall|k2: Seq<u8>| k2 != key implies #[trigger] dict_freq(r, k2) == dict_freq(
            s,
            k2,
        ) by {
            assert(dict_freq(r, k2) == dict_freq(r.skip(1), k2));
        }
    } else if bytes_lt(key, s[0].0) {
        assert(r =~= seq![(key, freq)] + s);
        assert(r.skip(1) =~= s);
        assert(dict_wf(r)) by {
            assert(forall|i: int| 1 <= i < r.len() ==> r[i] == s[i - 1]);
        }
    } else if key == s[0].0 {
        assert(r =~= seq![(key, freq)] + s.skip(1));
        assert(r.skip(1) =~= s.skip(1));
        lemma_dict_wf_skip(s);
        assert(dict_wf(r)) by {
            assert(forall|i: int| 1 <= i < r.len() ==> r[i] == s[i]);
            if r.len() > 1 {
                assert(bytes_lt(r[0].0, r[1].0));
            }
        }
        assert forall|k2: Seq<u8>| k2 != key implies #[trigger] dict_freq(r, k2) == dict_freq(
            s,
            k2,
        ) by {
            assert(dict_freq(r, k2) == dict_freq(s.skip(1), k2));
            assert(dict_freq(s, k2) == dict_freq(s.skip(1), k2));
        }
    } else {
        lemma_bytes_lt_trichotomy(key, s[0].0);
        lemma_dict_wf_skip(s);
        lemma_dict_insert(s.skip(1), key, freq);
        let rr = dict_insert(s.skip(1), key, freq);
        assert(r =~= seq![s[0]] + rr);
        assert(r.skip(1) =~= rr);
        assert(dict_wf(r)) by {
            assert(forall|i: int| 1 <= i < r.len() ==> r[i] == rr[i - 1]);
            if rr.len() > 0 {
                assert(bytes_lt(s[0].0, rr[0].0)) by {
                    if s.skip(1).len() == 0 {
                        assert(rr =~= seq![(key, freq)]);
                    } else if bytes_lt(key, s.skip(1)[0].0) {
                        assert(rr[0] == (key, freq));
                    } else if key == s.skip(1)[0].0 {
                        assert(rr[0] == (key, freq));
                        assert(bytes_lt(s[0].0, s[1].0));
                        assert(s.skip(1)[0] == s[1]);
                    } else {
                        assert(rr[0] == s.skip(1)[0]);
                        assert(s.skip(1)[0] == s[1]);
                        assert(bytes_lt(s[0].0, s[1].0));
                    }
                }
            }
        }
        assert(dict_freq(r, key) == dict_freq(rr, key));
        assert forall|k2: Seq<u8>| k2 != key implies #[trigger] dict_freq(r, k2) == dict_freq(
            s,
            k2,
        ) by {
            assert(dict_freq(r, k2) == if r[0].0 == k2 {
                r[0].1 as nat
            } else {
                dict_freq(rr, k2)
            });
        }
    }
}

/// Dropping the first entry keeps the invariant.
pub proof fn lemma_dict_wf_skip(s: Seq<(Seq<u8>, u64)>)
    requires
        dict_wf(s),
        s.len() > 0,
    ensures
        dict_wf(s.skip(1)),
{
    assert(forall|j: int| 0 <= j < s.skip(1).len() ==> #[trigger] s.skip(1)[j] == s[j + 1]);
}

impl KeyDict {
    /// Binds `key` to `freq`, replacing any previous binding; the
    /// table stays sorted.
    pub fn insert(&mut self, key: Vec<u8>, freq: u64)
        requires
            old(self).wf(),
            freq >= 1,
        ensures
            final(self).wf(),
            final(self)@ =~= dict_insert(old(self)@, key@, freq),
    {
        let ghost s0 = self@;
        let n = self.entries.len();
        let mut i: usize = 0;
        proof {
            lemma_dict_insert(s0, key@, freq);
            assert(s0.skip(0) =~= s0);
            assert(s0.take(0) =~= Seq::<(Seq<u8>, u64)>::empty());
        }
        loop
            invariant
                self.wf(),
                self@ == s0,
                s0 == old(self)@,
                freq >= 1,
                i <= n,
                n == s0.len(),
                forall|j: int| 0 <= j < i ==> bytes_lt((#[trigger] s0[j]).0, key@),
                dict_insert(s0, key@, freq) =~= s0.take(i as int) + dict_insert(
                    s0.skip(i as int),
                    key@,
                    freq,
                ),
            decreases n - i,
        {
            if i == n {
                self.entries.push((key, freq));
                proof {
                    lemma_dict_insert(s0, key@, freq);
                    assert(s0.skip(n as int) =~= Seq::<(Seq<u8>, u64)>::empty());
                    assert(dict_insert(s0, key@, freq) =~= s0.take(n as int) + seq![(key@, freq)]);
                    assert(self@ =~= s0.push((key@, freq)));
                    assert(s0.take(n as int) =~= s0);
                    assert(self@ =~= dict_insert(s0, key@, freq));
                }
                return ;
            }
            let c = lex_cmp(&key, &self.entries[i].0);
            proof {
                assert(s0.skip(i as int)[0] == s0[i as int]);
            }
            if c < 0 {
                proof {
                    lemma_dict_insert(s0, key@, freq);
                    assert(dict_insert(s0.skip(i as int), key@, freq) =~= seq![(key@, freq)]
                        + s0.skip(i as int));
                }
                let ghost olde = self.entries@;
                self.entries.insert(i, (key, freq));
                proof {
                    assert(self.entries@ == olde.insert(i as int, (key, freq)));
                    assert(self@ =~= s0.take(i as int) + seq![(key@, freq)] + s0.skip(i as int))
                        by {
                        assert(forall|j: int|
                            0 <= j < i ==> self.entries@[j] == #[trigger] olde[j]);
                        assert(forall|j: int|
                            i < j < self.entries@.len() ==> self.entries@[j] == #[trigger] olde[j
                                - 1]);
                        assert(self.entries@[i as int] == (key, freq));
                    }
                    assert(self@ =~= dict_insert(s0, key@, freq));
                }
                return ;
            }
            if c == 0 {
                proof {
                    lemma_dict_insert(s0, key@, freq);
                    lemma_bytes_lt_trichotomy(key@, s0[i as int].0);
                    assert(dict_insert(s0.skip(i as int), key@, freq) =~= seq![(key@, freq)]
                        + s0.skip(i as int).skip(1));
                    assert(s0.skip(i as int).skip(1) =~= s0.skip(i + 1));
                }
                let ghost olde = self.entries@;
                self.entries[i] = (key, freq);
                proof {
                    assert(self.entries@ == olde.update(i as int, (key, freq)));
                    assert(self@ =~= s0.take(i as int) + seq![(key@, freq)] + s0.skip(i + 1));
                    assert(self@ =~= dict_insert(s0, key@, freq));
                }
                return ;
            }
            proof {
                lemma_bytes_lt_trichotomy(key@, s0[i as int].0);
                assert(dict_insert(s0.skip(i as int), key@, freq) =~= seq![s0[i as int]]
                    + dict_insert(s0.skip(i + 1), key@, freq)) by {
                    assert(s0.skip(i as int).skip(1) =~= s0.skip(i + 1));
                }
                assert(s0.take(i + 1) =~= s0.take(i as int) + seq![s0[i as int]]);
                assert(s0.take(i as int) + dict_insert(s0.skip(i as int), key@, freq) =~= s0.take(
                    i + 1,
                ) + dict_insert(s0.skip(i + 1), key@, freq));
            }
            i += 1;
        }
    }

    /// Counts one more occurrence of `key`, clamped at the 64-bit
    /// maximum; a new key starts at one.
    pub fn add_key(&mut self, key: &Vec<u8>)
        requires
            old(self).wf(),
        ensures
            final(self).wf(),
            dict_freq(final(self)@, key@) == sat64(dict_freq(old(self)@, key@) + 1),
            forall|k2: Seq<u8>|
                k2 != key@ ==> #[trigger] dict_freq(final(self)@, k2) == dict_freq(old(self)@, k2),
    {
        let old_freq = self.freq_of(key);
        let new_freq: u64 = if old_freq < u64::MAX {
            old_freq + 1
        } else {
            u64::MAX
        };
        proof {
            lemma_dict_freq_le_max(self@, key@);
        }
        let key2 = copy_bytes(key);
        let ghost s0 = self@;
        self.insert(key2, new_freq);
        proof {
            lemma_dict_insert(s0, key@, new_freq);
        }
    }
}

/// Accumulates every key of the subtree into `dict`, each count
/// clamped at the 64-bit maximum.
pub fn collect_into(value: &JsonValue, dict: &mut KeyDict)
    requires
        old(dict).wf(),
    ensures
        final(dict).wf(),
        forall|k: Seq<u8>|
            #[trigger] dict_freq(final(dict)@, k) == sat64(
                dict_freq(old(dict)@, k) + key_count(value@, k),
            ),
    decreases value@,
{
    let ghost s0 = dict@;
    match value {
        JsonValue::Array(items) => {
            let n = items.len();
            let mut i: usize = 0;
            proof {
                lemma_view_list(*items, n as int);
                assert forall|k: Seq<u8>| dict_freq(s0, k) <= u64::MAX by {
                    lemma_dict_freq_le_max(s0, k);
                }
            }
            while i < n
                invariant
                    dict.wf(),
                    s0 == old(dict)@,
                    i <= n,
                    n == items@.len(),
                    value == JsonValue::Array(*items),
                    forall|k: Seq<u8>|
                        #[trigger] dict_freq(dict@, k) == sat64(
                            dict_freq(s0, k) + key_count_list(
                                view_list(*items, n as int),
                                k,
                                i as int,
                            ),
                        ),
                decreases n - i,
            {
                let ghost sm = dict@;
                proof {
                    lemma_view_list(*items, n as int);
                    let vl = view_list(*items, n as int);
                    assert(value@ == SpecJson::Array(vl));
                    assert(decreases_to!(value@ => value@->Array_0));
                    assert(value@->Array_0 == vl);
                    vstd::seq::axiom_seq_index_decreases(vl, i as int);
                    assert(vl[i as int] == items[i as int]@);
                }
                collect_into(&items[i], dict);
                proof {
                    lemma_view_list(*items, n as int);
                    assert(view_list(*items, n as int)[i as int] == items[i as int]@);
                    assert forall|k: Seq<u8>| true implies #[trigger] dict_freq(dict@, k) == sat64(
                        dict_freq(s0, k) + key_count_list(view_list(*items, n as int), k, i + 1),
                    ) by {
                        assert(dict_freq(dict@, k) == sat64(
                            dict_freq(sm, k) + key_count(items[i as int]@, k),
                        ));
                        assert(dict_freq(sm, k) == sat64(
                            dict_freq(s0, k) + key_count_list(
                                view_list(*items, n as int),
                                k,
                                i as int,
                            ),
                        ));
                    }
                }
                i += 1;
            }
            proof {
                lemma_view_list(*items, n as int);
                assert forall|k: Seq<u8>| true implies #[trigger] dict_freq(dict@, k) == sat64(
                    dict_freq(old(dict)@, k) + key_count(value@, k),
                ) by {
                    assert(value@ == SpecJson::Array(view_list(*items, n as int)));
                    assert(view_list(*items, n as int).len() == n);
                    assert(key_count(value@, k) == key_count_list(
                        view_list(*items, n as int),
                        k,
                        n as int,
                    ));
                    assert(dict_freq(dict@, k) == sat64(
                        dict_freq(s0, k) + key_count_list(view_list(*items, n as int), k, n as int),
                    ));
                }
            }
        },
        JsonValue::Object(pairs) => {
            let n = pairs.len();
            let mut i: usize = 0;
            proof {
                lemma_view_members(*pairs, n as int);
                assert forall|k: Seq<u8>| dict_freq(s0, k) <= u64::MAX by {
                    lemma_dict_freq_le_max(s0, k);
                }
            }
            while i < n
                invariant
                    dict.wf(),
                    s0 == old(dict)@,
                    i <= n,
                    n == pairs@.len(),
                    value == JsonValue::Object(*pairs),
                    forall|k: Seq<u8>|
                        #[trigger] dict_freq(dict@, k) == sat64(
                            dict_freq(s0, k) + key_count_members(
                                view_members(*pairs, n as int),
                                k,
                                i as int,
                            ),
                        ),
                decreases n - i,
            {
                let ghost sm = dict@;
                dict.add_key(&pairs[i].0);
                let ghost sm2 = dict@;
                proof {
                    lemma_view_members(*pairs, n as int);
                    let vm = view_members(*pairs, n as int);
                    assert(value@ == SpecJson::Object(vm));
                    assert(decreases_to!(value@ => value@->Object_0));
                    assert(value@->Object_0 == vm);
                    vstd::seq::axiom_seq_index_decreases(vm, i as int);
                    assert(decreases_to!(vm[i as int] => vm[i as int].1));
                    assert(vm[i as int].1 == pairs[i as int].1@);
                }
                collect_into(&pairs[i].1, dict);
                proof {
                    lemma_view_members(*pairs, n as int);
                    assert(view_members(*pairs, n as int)[i as int] == (
                        pairs[i as int].0@,
                        pairs[i as int].1@,
                    ));
                    assert forall|k: Seq<u8>| true implies #[trigger] dict_freq(dict@, k) == sat64(
                        dict_freq(s0, k) + key_count_members(
                            view_members(*pairs, n as int),
                            k,
                            i + 1,
                        ),
                    ) by {
                        assert(dict_freq(dict@, k) == sat64(
                            dict_freq(sm2, k) + key_count(pairs[i as int].1@, k),
                        ));
                        if k == pairs[i as int].0@ {
                            assert(dict_freq(sm2, k) == sat64(dict_freq(sm, k) + 1));
                        } else {
                            assert(dict_freq(sm2, k) == dict_freq(sm, k));
                        }
                        assert(dict_freq(sm, k) == sat64(
                            dict_freq(s0, k) + key_count_members(
                                view_members(*pairs, n as int),
                                k,
                                i as int,
                            ),
                        ));
                    }
                }
                i += 1;
            }
            proof {
                lemma_view_members(*pairs, n as int);
                assert forall|k: Seq<u8>| true implies key_count(value@, k) == key_count_members(
                    view_members(*pairs, n as int),
                    k,
                    n as int,
                ) by {
                    assert(value@ == SpecJson::Object(view_members(*pairs, n as int)));
                    assert(view_members(*pairs, n as int).len() == n);
                }
            }
        },
        _ => {
            proof {
                assert forall|k: Seq<u8>| true implies #[trigger] dict_freq(dict@, k) == sat64(
                    dict_freq(old(dict)@, k) + key_count(value@, k),
                ) by {
                    lemma_dict_freq_le_max(dict@, k);
                    assert(key_count(value@, k) == 0);
                }
            }
        },
    }
}

/// Collects the key-frequency table of a value: a depth-first walk
/// counting every object member name, clamped at the 64-bit maximum.
pub fn collect_keys(value: &JsonValue) -> (r: KeyDict)
    ensures
        r.wf(),
        forall|k: Seq<u8>| #[trigger] dict_freq(r@, k) == sat64(key_count(value@, k)),
{
    let mut dict = KeyDict::new();
    proof {
        assert(forall|k: Seq<u8>| dict_freq(dict@, k) == 0);
    }
    collect_into(value, &mut dict);
    dict
}

/// A fresh vector with the same bytes.
pub fn copy_bytes(v: &Vec<u8>) -> (r: Vec<u8>)
    ensures
        r@ =~= v@,
{
    let mut r: Vec<u8> = Vec::new();
    let n = v.len();
    let mut j: usize = 0;
    while j < n
        invariant
            j <= n,
            n == v@.len(),
            r@ =~= v@.take(j as int),
        decreases n - j,
    {
        r.push(v[j]);
        proof {
            assert(v@.take(j + 1) =~= v@.take(j as int).push(v@[j as int]));
        }
        j += 1;
    }
    proof {
        assert(v@.take(n as int) =~= v@);
    }
    r
}

/// A stored count never exceeds the 64-bit maximum.
pub proof fn lemma_dict_freq_le_max(s: Seq<(Seq<u8>, u64)>, key: Seq<u8>)
    ensures
        dict_freq(s, key) <= u64::MAX,
    decreases s.len(),
{
    if s.len() > 0 && s[0].0 != key {
        lemma_dict_freq_le_max(s.skip(1), key);
    }
}

/// The wire form of one dictionary entry: key length, key bytes, and
/// count.
pub open spec fn dict_entry_bits(key: Seq<u8>, freq: u64) -> Seq<bool> {
    uleb_bits(key.len()) + bytes_to_bits(key) + uleb_bits(freq as nat)
}

/// The wire form of the entries from index `k` on.
pub open spec fn dict_entries_bits_from(s: Seq<(Seq<u8>, u64)>, k: int) -> Seq<bool>
    decreases s.len() - k,
{
    if k < 0 || k >= s.len() {
        Seq::empty()
    } else {
        dict_entry_bits(s[k].0, s[k].1) + dict_entries_bits_from(s, k + 1)
    }
}

/// The wire form of a whole dictionary section: the entries in table
/// order.  The key count itself travels in the header.
pub open spec fn dict_bits(s: Seq<(Seq<u8>, u64)>) -> Seq<bool> {
    dict_entries_bits_from(s, 0)
}

/// Splitting the wire form of the remaining entries at `k`.
proof fn lemma_entries_bits_take(s: Seq<(Seq<u8>, u64)>, k: int)
    requires
        0 <= k < s.len(),
    ensures
        dict_entries_bits_from(s.take(k + 1), 0) =~= dict_entries_bits_from(s.take(k), 0)
            + dict_entry_bits(s[k].0, s[k].1),
{
    lemma_entries_bits_take_rec(s, k, 0);
}

proof fn lemma_entries_bits_take_rec(s: Seq<(Seq<u8>, u64)>, k: int, j: int)
    requires
        0 <= j <= k < s.len(),
    ensures
        dict_entries_bits_from(s.take(k + 1), j) =~= dict_entries_bits_from(s.take(k), j)
            + dict_entry_bits(s[k].0, s[k].1),
    decreases k - j,
{
    assert(s.take(k + 1)[j] == s[j]);
    if j == k {
        assert(dict_entries_bits_from(s.take(k), j) =~= Seq::empty());
        assert(dict_entries_bits_from(s.take(k + 1), j + 1) =~= Seq::empty());
        assert(dict_entries_bits_from(s.take(k + 1), j) =~= dict_entry_bits(s[k].0, s[k].1));
    } else {
        assert(s.take(k)[j] == s[j]);
        lemma_entries_bits_take_rec(s, k, j + 1);
        assert((dict_entry_bits(s[j].0, s[j].1) + dict_entries_bits_from(s.take(k), j + 1))
            + dict_entry_bits(s[k].0, s[k].1) =~= dict_entry_bits(s[j].0, s[j].1)
            + (dict_entries_bits_from(s.take(k), j + 1) + dict_entry_bits(s[k].0, s[k].1)));
    }
}

/// Writes the dictionary section: each entry in table order.  The key
/// count is the header's business.
pub fn write_dictionary(writer: &mut BitWriter, dict: &KeyDict)
    requires
        old(writer).wf(),
    ensures
        final(writer).wf(),
        final(writer)@ =~= old(writer)@ + dict_bits(dict@),
{
    let ghost start = writer@;
    let n = dict.len();
    let mut i: usize = 0;
    proof {
        assert(dict_entries_bits_from(dict@.take(0), 0) =~= Seq::<bool>::empty());
        assert(writer@ =~= start + dict_entries_bits_from(dict@.take(0), 0));
    }
    while i < n
        invariant
            writer.wf(),
            i <= n,
            n == dict@.len(),
            writer@ =~= start + dict_entries_bits_from(dict@.take(i as int), 0),
        decreases n - i,
    {
        let (key, freq) = dict.entry_at(i);
        write_uleb128(writer, key.len() as u64);
        writer.write_bytes(key);
        write_uleb128(writer, freq);
        proof {
            lemma_entries_bits_take(dict@, i as int);
            assert(key@ == dict@[i as int].0);
            assert(dict_entry_bits(dict@[i as int].0, dict@[i as int].1) =~= uleb_bits(key@.len())
                + bytes_to_bits(key@) + uleb_bits(freq as nat));
        }
        i += 1;
    }
    proof {
        assert(dict@.take(n as int) =~= dict@);
    }
}

/// Parses `n` dictionary entries, folding each into the table
/// last-wins; rejects zero counts and keys that are not UTF-8.
pub open spec fn parse_dict_entries(
    bits: Seq<bool>,
    pos: int,
    n: nat,
    acc: Seq<(Seq<u8>, u64)>,
) -> Result<(Seq<(Seq<u8>, u64)>, int), Error>
    decreases n,
{
    if n == 0 {
        Ok((acc, pos))
    } else {
        match parse_uleb(bits, pos) {
            Ok((klen, p1)) => if klen >= pow2(64) {
                Err(Error::VarintOverflow)
            } else if p1 + 8 * klen > bits.len() {
                Err(Error::OutOfBounds)
            } else {
                let key = parse_bytes(bits, p1, klen);
                if !is_utf8(key) {
                    Err(Error::InvalidUtf8)
                } else {
                    match parse_uleb(bits, p1 + 8 * klen) {
                        Ok((f, p2)) => if f >= pow2(64) {
                            Err(Error::VarintOverflow)
                        } else if f == 0 {
                            Err(Error::HuffmanError)
                        } else {
                            parse_dict_entries(
                                bits,
                                p2,
                                (n - 1) as nat,
                                dict_insert(acc, key, f as u64),
                            )
                        },
                        Err(e) => Err(e),
                    }
                }
            },
            Err(e) => Err(e),
        }
    }
}

/// Parses a whole dictionary section of `count` entries; the count
/// comes from the header.
pub open spec fn parse_dict(bits: Seq<bool>, pos: int, count: nat) -> Result<
    (Seq<(Seq<u8>, u64)>, int),
    Error,
> {
    parse_dict_entries(bits, pos, count, Seq::empty())
}

/// Reads a dictionary section of `count` entries, the count taken
/// from the header.  Each entry needs a key length, the key bytes in
/// valid UTF-8, and a positive count; a duplicate key keeps the last
/// count seen.
pub fn read_dictionary(reader: &mut BitReader, count: u64) -> (r: Result<KeyDict, Error>)
    requires
        old(reader).wf(),
    ensures
        final(reader).wf(),
        final(reader).bits() == old(reader).bits(),
        ({
            let pr = parse_dict(old(reader).bits(), old(reader).pos() as int, count as nat);
            match r {
                Ok(d) => pr matches Ok((s, p)) && d@ == s && d.wf() && final(reader).pos() == p,
                Err(e) => pr matches Err(e2) && e == e2,
            }
        }),
{
    let ghost all = reader.bits();
    let mut dict = KeyDict::new();
    let mut i: u64 = 0;
    while i < count
        invariant
            reader.wf(),
            reader.bits() == all,
            all == old(reader).bits(),
            i <= count,
            dict.wf(),
            parse_dict(all, old(reader).pos() as int, count as nat) == parse_dict_entries(
                all,
                reader.pos() as int,
                (count - i) as nat,
                dict@,
            ),
        decreases count - i,
    {
        let klen = match read_uleb128(reader) {
            Ok(v) => v,
            Err(e) => {
                proof {
                    vstd::arithmetic::power2::lemma2_to64();
                    vstd::arithmetic::power2::lemma2_to64_rest();
                }
                return Err(e);
            },
        };
        proof {
            vstd::arithmetic::power2::lemma2_to64();
            vstd::arithmetic::power2::lemma2_to64_rest();
        }
        let rem = reader.remaining_bits();
        if klen > (rem / 8) as u64 {
            proof {
                vstd::arithmetic::div_mod::lemma_fundamental_div_mod(rem as int, 8);
                vstd::arithmetic::div_mod::lemma_mod_bound(rem as int, 8);
            }
            return Err(Error::OutOfBounds);
        }
        proof {
            vstd::arithmetic::div_mod::lemma_fundamental_div_mod(rem as int, 8);
            vstd::arithmetic::div_mod::lemma_mod_bound(rem as int, 8);
        }
        let key = match reader.read_bytes(klen as usize) {
            Ok(v) => v,
            Err(e) => {
                proof {
                    assert(false);
                }
                return Err(e);
            },
        };
        if !is_valid_utf8(key.as_slice()) {
            return Err(Error::InvalidUtf8);
        }
        let f = match read_uleb128(reader) {
            Ok(v) => v,
            Err(e) => {
                proof {
                    vstd::arithmetic::power2::lemma2_to64();
                    vstd::arithmetic::power2::lemma2_to64_rest();
                }
                return Err(e);
            },
        };
        proof {
            vstd::arithmetic::power2::lemma2_to64();
            vstd::arithmetic::power2::lemma2_to64_rest();
        }
        if f == 0 {
            return Err(Error::HuffmanError);
        }
        dict.insert(key, f);
        i += 1;
    }
    Ok(dict)
}

/// Inserting a key greater than every present key appends it.
proof fn lemma_dict_insert_append(s: Seq<(Seq<u8>, u64)>, key: Seq<u8>, freq: u64)
    requires
        forall|i: int| 0 <= i < s.len() ==> bytes_lt((#[trigger] s[i]).0, key),
    ensures
        dict_insert(s, key, freq) =~= s.push((key, freq)),
    decreases s.len(),
{
    if s.len() > 0 {
        lemma_bytes_lt_trichotomy(key, s[0].0);
        assert(forall|i: int| 0 <= i < s.skip(1).len() ==> #[trigger] s.skip(1)[i] == s[i + 1]);
        lemma_dict_insert_append(s.skip(1), key, freq);
        assert(dict_insert(s, key, freq) =~= seq![s[0]] + dict_insert(s.skip(1), key, freq));
        assert(seq![s[0]] + s.skip(1).push((key, freq)) =~= s.push((key, freq)));
    }
}

/// Parsing the entries from index `k` on extends the folded table from
/// the first `k` entries to the whole table.
proof fn lemma_dict_entries_roundtrip(d: Seq<(Seq<u8>, u64)>, k: int, bits: Seq<bool>, p: int)
    requires
        dict_wf(d),
        forall|i: int| 0 <= i < d.len() ==> is_utf8((#[trigger] d[i]).0),
        forall|i: int| 0 <= i < d.len() ==> (#[trigger] d[i]).0.len() < pow2(64),
        0 <= k <= d.len(),
        0 <= p,
        p + dict_entries_bits_from(d, k).len() <= bits.len(),
        bits.subrange(p, p + dict_entries_bits_from(d, k).len()) =~= dict_entries_bits_from(d, k),
    ensures
        parse_dict_entries(bits, p, (d.len() - k) as nat, d.take(k)) == Ok::<_, Error>(
            (d, p + dict_entries_bits_from(d, k).len()),
        ),
    decreases d.len() - k,
{
    vstd::arithmetic::power2::lemma2_to64();
    vstd::arithmetic::power2::lemma2_to64_rest();
    vstd::arithmetic::power2::lemma_pow2_adds(64, 6);
    vstd::arithmetic::power2::lemma_pow2_strictly_increases(64, 70);
    if k == d.len() {
        assert(d.take(k) =~= d);
    } else {
        let key = d[k].0;
        let f = d[k].1;
        let eb = dict_entry_bits(key, f);
        let rest = dict_entries_bits_from(d, k + 1);
        assert(dict_entries_bits_from(d, k) =~= eb + rest);
        let whole = dict_entries_bits_from(d, k).len() as int;
        assert(forall|j: int|
            0 <= j < whole ==> bits[p + j] == #[trigger] dict_entries_bits_from(d, k)[j]);
        let kb = uleb_bits(key.len());
        let klb = kb.len() as int;
        let keyb = bytes_to_bits(key);
        let keybl = keyb.len() as int;
        let fb = uleb_bits(f as nat);
        let fbl = fb.len() as int;
        assert(eb =~= kb + keyb + fb);
        lemma_uleb_bytes_len_le(key.len(), 10);
        lemma_uleb_bytes_len_le(f as nat, 10);
        // the key-length varint
        assert(bits.subrange(p, p + klb) =~= kb) by {
            assert(forall|j: int| 0 <= j < klb ==> #[trigger] eb[j] == kb[j]);
        }
        lemma_uleb_roundtrip(key.len(), bits, p, 10);
        // the key bytes
        assert(bits.subrange(p + klb, p + klb + keybl) =~= keyb) by {
            assert forall|j: int| 0 <= j < keybl implies bits.subrange(
                p + klb,
                p + klb + keybl,
            )[j] == keyb[j] by {
                assert(bits[p + klb + j] == dict_entries_bits_from(d, k)[klb + j]);
                assert(dict_entries_bits_from(d, k)[klb + j] == eb[klb + j]);
                assert(eb[klb + j] == (kb + keyb)[klb + j]);
                assert((kb + keyb)[klb + j] == keyb[j]);
            }
        }
        lemma_parse_bytes_of(key, bits, p + klb);
        // the count varint
        assert(bits.subrange(p + klb + keybl, p + klb + keybl + fbl) =~= fb) by {
            assert forall|j: int| 0 <= j < fbl implies bits.subrange(
                p + klb + keybl,
                p + klb + keybl + fbl,
            )[j] == fb[j] by {
                assert(bits[p + klb + keybl + j] == dict_entries_bits_from(d, k)[klb + keybl + j]);
                assert(dict_entries_bits_from(d, k)[klb + keybl + j] == eb[klb + keybl + j]);
                assert(eb[klb + keybl + j] == fb[j]);
            }
        }
        lemma_uleb_roundtrip(f as nat, bits, p + klb + keybl, 10);
        // folding this entry extends the prefix
        assert forall|i: int| 0 <= i < d.take(k).len() implies bytes_lt(
            (#[trigger] d.take(k)[i]).0,
            key,
        ) by {
            lemma_dict_sorted(d, i, k);
        }
        lemma_dict_insert_append(d.take(k), key, f);
        assert(d.take(k).push((key, f)) =~= d.take(k + 1));
        // the rest
        assert(bits.subrange(p + eb.len(), p + eb.len() + rest.len() as int) =~= rest) by {
            assert forall|j: int| 0 <= j < rest.len() implies bits.subrange(
                p + eb.len(),
                p + eb.len() + rest.len() as int,
            )[j] == rest[j] by {
                assert(bits[p + eb.len() + j] == dict_entries_bits_from(d, k)[eb.len() + j]);
                assert(dict_entries_bits_from(d, k)[eb.len() + j] == rest[j]);
            }
        }
        lemma_dict_entries_roundtrip(d, k + 1, bits, p + eb.len() as int);
    }
}

/// Parsing right after writing a dictionary yields the same table.
pub proof fn lemma_dict_roundtrip(d: Seq<(Seq<u8>, u64)>, bits: Seq<bool>, pos: int)
    requires
        dict_wf(d),
        forall|i: int| 0 <= i < d.len() ==> is_utf8((#[trigger] d[i]).0),
        forall|i: int| 0 <= i < d.len() ==> (#[trigger] d[i]).0.len() < pow2(64),
        0 <= pos,
        pos + dict_bits(d).len() <= bits.len(),
        bits.subrange(pos, pos + dict_bits(d).len()) =~= dict_bits(d),
    ensures
        parse_dict(bits, pos, d.len()) == Ok::<_, Error>((d, pos + dict_bits(d).len())),
{
    assert(d.take(0) =~= Seq::<(Seq<u8>, u64)>::empty());
    lemma_dict_entries_roundtrip(d, 0, bits, pos);
}

/// A table is determined by its counts: two well-formed tables that
/// count every key alike are the same table.
pub proof fn lemma_dict_unique(d1: Seq<(Seq<u8>, u64)>, d2: Seq<(Seq<u8>, u64)>)
    requires
        dict_wf(d1),
        dict_wf(d2),
        forall|k: Seq<u8>| #[trigger] dict_freq(d1, k) == dict_freq(d2, k),
    ensures
        d1 =~= d2,
    decreases d1.len(),
{
    lemma_dict_freq_contains(d1, Seq::empty());
    if d1.len() == 0 {
        if d2.len() > 0 {
            let k0 = d2[0].0;
            lemma_dict_freq_at(d2, k0, 0);
            lemma_dict_freq_contains(d1, k0);
            assert(dict_freq(d1, k0) == 0) by {
                if dict_contains(d1, k0) {
                    let i = choose|i: int| 0 <= i < d1.len() && (#[trigger] d1[i]).0 == k0;
                }
            }
        }
    } else {
        if d2.len() == 0 {
            let k0 = d1[0].0;
            lemma_dict_freq_at(d1, k0, 0);
            lemma_dict_freq_contains(d2, k0);
            assert(dict_freq(d2, k0) == 0) by {
                if dict_contains(d2, k0) {
                    let i = choose|i: int| 0 <= i < d2.len() && (#[trigger] d2[i]).0 == k0;
                }
            }
        } else {
            let a = d1[0].0;
            let b = d2[0].0;
            lemma_dict_freq_at(d1, a, 0);
            lemma_dict_freq_at(d2, b, 0);
            assert(a == b) by {
                lemma_bytes_lt_trichotomy(a, b);
                if bytes_lt(a, b) {
                    assert(dict_freq(d2, a) == dict_freq(d1, a));
                    assert(dict_freq(d1, a) >= 1);
                    lemma_dict_freq_contains(d2, a);
                    let j = choose|j: int| 0 <= j < d2.len() && (#[trigger] d2[j]).0 == a;
                    if j > 0 {
                        lemma_dict_sorted(d2, 0, j);
                        lemma_bytes_lt_trans(a, b, d2[j].0);
                        lemma_bytes_lt_trichotomy(a, d2[j].0);
                    }
                } else if bytes_lt(b, a) {
                    assert(dict_freq(d1, b) == dict_freq(d2, b));
                    assert(dict_freq(d2, b) >= 1);
                    lemma_dict_freq_contains(d1, b);
                    let j = choose|j: int| 0 <= j < d1.len() && (#[trigger] d1[j]).0 == b;
                    if j > 0 {
                        lemma_dict_sorted(d1, 0, j);
                        lemma_bytes_lt_trans(b, a, d1[j].0);
                        lemma_bytes_lt_trichotomy(b, d1[j].0);
                    }
                }
            }
            assert(d1[0].1 == d2[0].1);
            lemma_dict_wf_skip(d1);
            lemma_dict_wf_skip(d2);
            assert forall|k: Seq<u8>| #[trigger] dict_freq(d1.skip(1), k) == dict_freq(
                d2.skip(1),
                k,
            ) by {
                if k == a {
                    lemma_dict_absent_key(d1, k);
                    lemma_dict_absent_key(d2, k);
                } else {
                    assert(dict_freq(d1, k) == dict_freq(d1.skip(1), k));
                    assert(dict_freq(d2, k) == dict_freq(d2.skip(1), k));
                }
            }
            lemma_dict_unique(d1.skip(1), d2.skip(1));
            assert(d1[0] == d2[0]);
            assert forall|i: int| 0 <= i < d1.len() implies d1[i] == d2[i] by {
                if i > 0 {
                    assert(d1.skip(1)[i - 1] == d2.skip(1)[i - 1]);
                }
            }
        }
    }
}

/// The head key does not recur in the tail of a sorted table.
proof fn lemma_dict_absent_key(d: Seq<(Seq<u8>, u64)>, k: Seq<u8>)
    requires
        dict_wf(d),
        d.len() > 0,
        d[0].0 == k,
    ensures
        dict_freq(d.skip(1), k) == 0,
{
    lemma_dict_wf_skip(d);
    lemma_dict_freq_contains(d.skip(1), k);
    if dict_contains(d.skip(1), k) {
        let i = choose|i: int| 0 <= i < d.skip(1).len() && (#[trigger] d.skip(1)[i]).0 == k;
        assert(d[i + 1].0 == k);
        lemma_dict_sorted(d, 0, i + 1);
        lemma_bytes_lt_trichotomy(k, d[i + 1].0);
    }
}

/// The key table of a value: the unique sorted table whose count of
/// every key is its clamped occurrence count.
pub open spec fn the_key_dict(v: SpecJson) -> Seq<(Seq<u8>, u64)> {
    choose|d: Seq<(Seq<u8>, u64)>|
        dict_wf(d) && forall|k: Seq<u8>| #[trigger] dict_freq(d, k) == sat64(key_count(v, k))
}

/// Any table with those properties is `the_key_dict`.
pub proof fn lemma_the_key_dict(v: SpecJson, d: Seq<(Seq<u8>, u64)>)
    requires
        dict_wf(d),
        forall|k: Seq<u8>| #[trigger] dict_freq(d, k) == sat64(key_count(v, k)),
    ensures
        the_key_dict(v) =~= d,
        dict_wf(the_key_dict(v)),
        forall|k: Seq<u8>| #[trigger] dict_freq(the_key_dict(v), k) == sat64(key_count(v, k)),
{
    assert(dict_wf(d) && forall|k: Seq<u8>|
        #[trigger] dict_freq(d, k) == sat64(key_count(v, k)));
    let w = the_key_dict(v);
    assert(dict_wf(w) && forall|k: Seq<u8>| #[trigger] dict_freq(w, k) == sat64(key_count(v, k)));
    lemma_dict_unique(w, d);
}

} // verus!
