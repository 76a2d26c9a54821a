//! The optional pool of repeated string values.
//!
//! A walk over the value counts every string; strings occurring at
//! least `min_repeats` times with at least `min_string_len` bytes
//! qualify.  Qualified strings are ordered by descending count, ties
//! by ascending bytes, and numbered from zero in that order.

use vstd::prelude::*;
use crate::bits::{bytes_to_bits, lemma_bits_of_len, lemma_bytes_to_bits_len};
use crate::dict::{
    KeyDict, bytes_lt, lemma_bytes_lt_trichotomy, dict_freq, sat64, copy_bytes, lex_cmp,
};
use crate::errors::Error;
use crate::value::{JsonValue, SpecJson, view_list, view_members, lemma_view_list, lemma_view_members};

verus! {

broadcast use lemma_bits_of_len, lemma_bytes_to_bits_len, vstd::seq::axiom_seq_index_decreases;

/// How often `s` occurs as a string value anywhere in the tree.
pub open spec fn str_count(v: SpecJson, s: Seq<u8>) -> nat
    decreases v, 0int,
{
    match v {
        SpecJson::Str(t) => if t == s {
            1nat
        } else {
            0nat
        },
        SpecJson::Array(items) => str_count_list(items, s, items.len() as int),
        SpecJson::Object(pairs) => str_count_members(pairs, s, pairs.len() as int),
        _ => 0,
    }
}

/// String occurrences in the first `n` elements of an array.
pub open spec fn str_count_list(items: Seq<SpecJson>, s: Seq<u8>, n: int) -> nat
    decreases items, n,
{
    if n <= 0 || n > items.len() {
        0
    } else {
        str_count_list(items, s, n - 1) + str_count(items[n - 1], s)
    }
}

/// String occurrences in the values of the first `n` members of an
/// object; member names count for nothing.
pub open spec fn str_count_members(pairs: Seq<(Seq<u8>, SpecJson)>, s: Seq<u8>, n: int) -> nat
    decreases pairs, n,
    via str_count_members_decreases
{
    if n <= 0 || n > pairs.len() {
        0
    } else {
        str_count_members(pairs, s, n - 1) + str_count(pairs[n - 1].1, s)
    }
}

#[via_fn]
proof fn str_count_members_decreases(pairs: Seq<(Seq<u8>, SpecJson)>, s: Seq<u8>, n: int) {
    if 0 < n <= pairs.len() {
        vstd::seq::axiom_seq_index_decreases(pairs, n - 1);
        assert(decreases_to!(pairs[n - 1] => pairs[n - 1].1));
    }
}

/// The thresholds of pool qualification.
#[derive(Debug, Clone, Copy, PartialEq, Eq, Structural)]
pub struct PoolConfig {
    /// The least occurrence count that qualifies.
    pub min_repeats: u32,
    /// The least byte length that qualifies.
    pub min_string_len: usize,
}

impl Default for PoolConfig {
    /// Three repeats of at least eight bytes.
    fn default() -> (r: Self)
        ensures
            r == (PoolConfig { min_repeats: 3u32, min_string_len: 8usize }),
    {
        PoolConfig { min_repeats: 3, min_string_len: 8 }
    }
}

/// Whether a string qualifies for the pool of `v` under `cfg`: it
/// occurs, at least `min_repeats` times, and is long enough.
pub open spec fn qualifies(v: SpecJson, cfg: PoolConfig, s: Seq<u8>) -> bool {
    &&& sat64(str_count(v, s)) >= cfg.min_repeats
    &&& sat64(str_count(v, s)) >= 1
    &&& s.len() >= cfg.min_string_len
}

/// Pool order: larger count first, ties by ascending bytes.
pub open spec fn pool_lt(a: (Seq<u8>, u64), b: (Seq<u8>, u64)) -> bool {
    a.1 > b.1 || (a.1 == b.1 && bytes_lt(a.0, b.0))
}

/// Whether `s` is one of the pool's entries.
pub open spec fn pool_contains(entries: Seq<Seq<u8>>, s: Seq<u8>) -> bool {
    exists|i: int| 0 <= i < entries.len() && entries[i] == s
}

/// The first pool id of `s`, or -1.
pub open spec fn pool_find(entries: Seq<Seq<u8>>, n: int, s: Seq<u8>) -> int
    decreases n,
{
    if n <= 0 {
        -1
    } else if pool_find(entries, n - 1, s) >= 0 {
        pool_find(entries, n - 1, s)
    } else if entries[n - 1] == s {
        n - 1
    } else {
        -1
    }
}

/// `pool_find` finds present strings and only them.
pub proof fn lemma_pool_find(entries: Seq<Seq<u8>>, n: int, s: Seq<u8>)
    requires
        0 <= n <= entries.len(),
    ensures
        pool_find(entries, n, s) >= 0 ==> 0 <= pool_find(entries, n, s) < n && entries[pool_find(
            entries,
            n,
            s,
        )] == s,
        pool_find(entries, n, s) < 0 ==> forall|j: int| 0 <= j < n ==> entries[j] != s,
    decreases n,
{
    if n > 0 {
        lemma_pool_find(entries, n - 1, s);
    }
}

/// The counting table of a value's strings: the unique sorted table
/// whose count of every string is its clamped occurrence count.
pub open spec fn the_str_dict(v: SpecJson) -> Seq<(Seq<u8>, u64)> {
    choose|d: Seq<(Seq<u8>, u64)>|
        crate::dict::dict_wf(d) && forall|s: Seq<u8>|
            #[trigger] dict_freq(d, s) == sat64(str_count(v, s))
}

/// Any table with those properties is `the_str_dict`.
pub proof fn lemma_the_str_dict(v: SpecJson, d: Seq<(Seq<u8>, u64)>)
    requires
        crate::dict::dict_wf(d),
        forall|s: Seq<u8>| #[trigger] dict_freq(d, s) == sat64(str_count(v, s)),
    ensures
        the_str_dict(v) =~= d,
        crate::dict::dict_wf(the_str_dict(v)),
        forall|s: Seq<u8>| #[trigger] dict_freq(the_str_dict(v), s) == sat64(str_count(v, s)),
{
    assert(crate::dict::dict_wf(d) && forall|s: Seq<u8>|
        #[trigger] dict_freq(d, s) == sat64(str_count(v, s)));
    let w = the_str_dict(v);
    assert(crate::dict::dict_wf(w) && forall|s: Seq<u8>|
        #[trigger] dict_freq(w, s) == sat64(str_count(v, s)));
    crate::dict::lemma_dict_unique(w, d);
}

/// The document-local pool: qualified strings in id order.
pub struct StringPool {
    entries: Vec<Vec<u8>>,
    counts: Ghost<Seq<u64>>,
}

impl View for StringPool {
    type V = Seq<Seq<u8>>;

    /// The pool entries in id order.
    closed spec fn view(&self) -> Seq<Seq<u8>> {
        Seq::new(self.entries@.len(), |i: int| self.entries@[i]@)
    }
}

impl StringPool {
    /// The ghost counts backing the pool order.
    pub closed spec fn spec_counts(&self) -> Seq<u64> {
        self.counts@
    }

    /// Sorted strictly by (count descending, bytes ascending).
    pub open spec fn wf(&self) -> bool {
        &&& self.spec_counts().len() == self@.len()
        &&& forall|i: int, j: int|
            0 <= i < j < self@.len() ==> pool_lt(
                (#[trigger] self@[i], self.spec_counts()[i]),
                (#[trigger] self@[j], self.spec_counts()[j]),
            )
    }

    /// An empty pool.
    pub fn new() -> (r: StringPool)
        ensures
            r.wf(),
            r@ =~= Seq::<Seq<u8>>::empty(),
    {
        StringPool { entries: Vec::new(), counts: Ghost(Seq::empty()) }
    }

    /// The number of entries.
    pub fn len(&self) -> (r: usize)
        ensures
            r == self@.len(),
    {
        self.entries.len()
    }

    /// The entry with id `i`.
    pub fn entry_at(&self, i: usize) -> (r: &Vec<u8>)
        requires
            i < self@.len(),
        ensures
            r@ =~= self@[i as int],
    {
        &self.entries[i]
    }

    /// The id of a string, when pooled.
    pub fn id_of(&self, s: &Vec<u8>) -> (r: Option<u64>)
        requires
            self@.len() <= u64::MAX,
        ensures
            ({
                let f = pool_find(self@, self@.len() as int, s@);
                match r {
                    Some(id) => f == id && id < self@.len(),
                    None => f < 0,
                }
            }),
    {
        let n = self.entries.len();
        let mut i: usize = 0;
        while i < n
            invariant
                i <= n,
                n == self@.len(),
                n <= u64::MAX,
                pool_find(self@, i as int, s@) < 0,
            decreases n - i,
        {
            proof {
                assert(self@[i as int] == self.entries@[i as int]@);
            }
            if lex_cmp(&self.entries[i], s) == 0 {
                proof {
                    assert(pool_find(self@, i + 1, s@) == i);
                    lemma_pool_find_stable(self@, i + 1, n as int, s@);
                }
                return Some(i as u64);
            }
            proof {
                lemma_bytes_lt_trichotomy(self.entries@[i as int]@, s@);
                assert(pool_find(self@, i + 1, s@) < 0);
            }
            i += 1;
        }
        None
    }
}

/// A found id stays the result for longer prefixes.
proof fn lemma_pool_find_stable(entries: Seq<Seq<u8>>, n1: int, n2: int, s: Seq<u8>)
    requires
        0 < n1 <= n2 <= entries.len(),
        pool_find(entries, n1, s) >= 0,
    ensures
        pool_find(entries, n2, s) == pool_find(entries, n1, s),
    decreases n2 - n1,
{
    if n1 < n2 {
        lemma_pool_find_stable(entries, n1 + 1, n2, s);
    }
}

/// Accumulates every string of the subtree into `dict`, each count
/// clamped at the 64-bit maximum.
pub fn collect_strings(value: &JsonValue, dict: &mut KeyDict)
    requires
        old(dict).wf(),
    ensures
        final(dict).wf(),
        forall|s: Seq<u8>|
            #[trigger] dict_freq(final(dict)@, s) == sat64(
                dict_freq(old(dict)@, s) + str_count(value@, s),
            ),
    decreases value@,
{
    let ghost s0 = dict@;
    match value {
        JsonValue::Str(t) => {
            dict.add_key(t);
            proof {
                assert forall|s: Seq<u8>| true implies #[trigger] dict_freq(dict@, s) == sat64(
                    dict_freq(s0, s) + str_count(value@, s),
                ) by {
                    crate::dict::lemma_dict_freq_le_max(s0, s);
                    assert(value@ == SpecJson::Str(t@));
                }
            }
        },
        JsonValue::Array(items) => {
            let n = items.len();
            let mut i: usize = 0;
            proof {
                lemma_view_list(*items, n as int);
                assert forall|s: Seq<u8>| dict_freq(s0, s) <= u64::MAX by {
                    crate::dict::lemma_dict_freq_le_max(s0, s);
                }
            }
            while i < n
                invariant
                    dict.wf(),
                    s0 == old(dict)@,
                    i <= n,
                    n == items@.len(),
                    value == JsonValue::Array(*items),
                    forall|s: Seq<u8>|
                        #[trigger] dict_freq(dict@, s) == sat64(
                            dict_freq(s0, s) + str_count_list(
                                view_list(*items, n as int),
                                s,
                                i as int,
                            ),
                        ),
                decreases n - i,
            {
                let ghost sm = dict@;
                proof {
                    lemma_view_list(*items, n as int);
                    let vl = view_list(*items, n as int);
                    assert(value@ == SpecJson::Array(vl));
                    assert(decreases_to!(value@ => value@->Array_0));
                    assert(value@->Array_0 == vl);
                    vstd::seq::axiom_seq_index_decreases(vl, i as int);
                    assert(vl[i as int] == items[i as int]@);
                }
                collect_strings(&items[i], dict);
                proof {
                    lemma_view_list(*items, n as int);
                    assert(view_list(*items, n as int)[i as int] == items[i as int]@);
                    assert forall|s: Seq<u8>| true implies #[trigger] dict_freq(dict@, s) == sat64(
                        dict_freq(s0, s) + str_count_list(view_list(*items, n as int), s, i + 1),
                    ) by {
                        assert(dict_freq(dict@, s) == sat64(
                            dict_freq(sm, s) + str_count(items[i as int]@, s),
                        ));
                        assert(dict_freq(sm, s) == sat64(
                            dict_freq(s0, s) + str_count_list(
                                view_list(*items, n as int),
                                s,
                                i as int,
                            ),
                        ));
                    }
                }
                i += 1;
            }
            proof {
                lemma_view_list(*items, n as int);
                assert forall|s: Seq<u8>| true implies #[trigger] dict_freq(dict@, s) == sat64(
                    dict_freq(s0, s) + str_count(value@, s),
                ) by {
                    assert(value@ == SpecJson::Array(view_list(*items, n as int)));
                    assert(view_list(*items, n as int).len() == n);
                }
            }
        },
        JsonValue::Object(pairs) => {
            let n = pairs.len();
            let mut i: usize = 0;
            proof {
                lemma_view_members(*pairs, n as int);
                assert forall|s: Seq<u8>| dict_freq(s0, s) <= u64::MAX by {
                    crate::dict::lemma_dict_freq_le_max(s0, s);
                }
            }
            while i < n
                invariant
                    dict.wf(),
                    s0 == old(dict)@,
                    i <= n,
                    n == pairs@.len(),
                    value == JsonValue::Object(*pairs),
                    forall|s: Seq<u8>|
                        #[trigger] dict_freq(dict@, s) == sat64(
                            dict_freq(s0, s) + str_count_members(
                                view_members(*pairs, n as int),
                                s,
                                i as int,
                            ),
                        ),
                decreases n - i,
            {
                let ghost sm = dict@;
                proof {
                    lemma_view_members(*pairs, n as int);
                    let vm = view_members(*pairs, n as int);
                    assert(value@ == SpecJson::Object(vm));
                    assert(decreases_to!(value@ => value@->Object_0));
                    assert(value@->Object_0 == vm);
                    vstd::seq::axiom_seq_index_decreases(vm, i as int);
                    assert(decreases_to!(vm[i as int] => vm[i as int].1));
                    assert(vm[i as int].1 == pairs[i as int].1@);
                }
                collect_strings(&pairs[i].1, dict);
                proof {
                    lemma_view_members(*pairs, n as int);
                    assert(view_members(*pairs, n as int)[i as int] == (
                        pairs[i as int].0@,
                        pairs[i as int].1@,
                    ));
                    assert forall|s: Seq<u8>| true implies #[trigger] dict_freq(dict@, s) == sat64(
                        dict_freq(s0, s) + str_count_members(
                            view_members(*pairs, n as int),
                            s,
                            i + 1,
                        ),
                    ) by {
                        assert(dict_freq(dict@, s) == sat64(
                            dict_freq(sm, s) + str_count(pairs[i as int].1@, s),
                        ));
                        assert(dict_freq(sm, s) == sat64(
                            dict_freq(s0, s) + str_count_members(
                                view_members(*pairs, n as int),
                                s,
                                i as int,
                            ),
                        ));
                    }
                }
                i += 1;
            }
            proof {
                lemma_view_members(*pairs, n as int);
                assert forall|s: Seq<u8>| true implies #[trigger] dict_freq(dict@, s) == sat64(
                    dict_freq(s0, s) + str_count(value@, s),
                ) by {
                    assert(value@ == SpecJson::Object(view_members(*pairs, n as int)));
                    assert(view_members(*pairs, n as int).len() == n);
                }
            }
        },
        _ => {
            proof {
                assert forall|s: Seq<u8>| true implies #[trigger] dict_freq(dict@, s) == sat64(
                    dict_freq(old(dict)@, s) + str_count(value@, s),
                ) by {
                    crate::dict::lemma_dict_freq_le_max(dict@, s);
                    assert(str_count(value@, s) == 0);
                }
            }
        },
    }
}

/// Insertion into a pool-ordered run: a new entry goes before the
/// first entry it precedes in pool order.
pub open spec fn pool_insert(s: Seq<(Seq<u8>, u64)>, e: (Seq<u8>, u64)) -> Seq<(Seq<u8>, u64)>
    decreases s.len(),
{
    if s.len() == 0 {
        seq![e]
    } else if pool_lt(e, s[0]) {
        seq![e] + s
    } else {
        seq![s[0]] + pool_insert(s.skip(1), e)
    }
}

/// Pool-order sortedness, strict.
pub open spec fn pool_sorted(s: Seq<(Seq<u8>, u64)>) -> bool {
    forall|i: int, j: int| 0 <= i < j < s.len() ==> pool_lt(#[trigger] s[i], #[trigger] s[j])
}

/// Whether some entry carries these bytes.
pub open spec fn pool_entries_contain(s: Seq<(Seq<u8>, u64)>, b: Seq<u8>) -> bool {
    exists|i: int| 0 <= i < s.len() && (#[trigger] s[i]).0 == b
}

/// Insertion of a fresh string keeps the run sorted and adds exactly
/// that string.
pub proof fn lemma_pool_insert(s: Seq<(Seq<u8>, u64)>, e: (Seq<u8>, u64))
    requires
        pool_sorted(s),
        forall|i: int| 0 <= i < s.len() ==> (#[trigger] s[i]).0 != e.0,
    ensures
        pool_sorted(pool_insert(s, e)),
        pool_insert(s, e).len() == s.len() + 1,
        forall|b: Seq<u8>|
            #[trigger] pool_entries_contain(pool_insert(s, e), b) <==> (pool_entries_contain(s, b)
                || b == e.0),
    decreases s.len(),
{
    let r = pool_insert(s, e);
    if s.len() == 0 {
        assert(r =~= seq![e]);
        assert(r[0] == e);
        assert forall|b: Seq<u8>| #[trigger] pool_entries_contain(r, b) <==> (pool_entries_contain(
            s,
            b,
        ) || b == e.0) by {
            if pool_entries_contain(r, b) {
                let i = choose|i: int| 0 <= i < r.len() && (#[trigger] r[i]).0 == b;
            }
            if b == e.0 {
                assert(r[0].0 == b);
            }
        }
    } else if pool_lt(e, s[0]) {
        assert(r =~= seq![e] + s);
        assert(pool_sorted(r)) by {
            assert(forall|i: int| 1 <= i < r.len() ==> r[i] == s[i - 1]);
            assert forall|i: int, j: int| 0 <= i < j < r.len() implies pool_lt(
                #[trigger] r[i],
                #[trigger] r[j],
            ) by {
                if i == 0 {
                    if j > 1 {
                        assert(pool_lt(s[0], s[j - 1]));
                        lemma_pool_lt_trans(e, s[0], s[j - 1]);
                    }
                } else {
                    assert(pool_lt(s[i - 1], s[j - 1]));
                }
            }
        }
        assert forall|b: Seq<u8>| #[trigger] pool_entries_contain(r, b) <==> (pool_entries_contain(
            s,
            b,
        ) || b == e.0) by {
            if pool_entries_contain(r, b) {
                let i = choose|i: int| 0 <= i < r.len() && (#[trigger] r[i]).0 == b;
                if i > 0 {
                    assert(s[i - 1].0 == b);
                }
            }
            if pool_entries_contain(s, b) {
                let i = choose|i: int| 0 <= i < s.len() && (#[trigger] s[i]).0 == b;
                assert(r[i + 1].0 == b);
            }
            if b == e.0 {
                assert(r[0].0 == b);
            }
        }
    } else {
        lemma_bytes_lt_trichotomy(e.0, s[0].0);
        assert(pool_lt(s[0], e)) by {
            assert(s[0].0 != e.0);
        }
        assert(pool_sorted(s.skip(1))) by {
            assert(forall|i: int|
                0 <= i < s.skip(1).len() ==> #[trigger] s.skip(1)[i] == s[i + 1]);
        }
        assert(forall|i: int|
            0 <= i < s.skip(1).len() ==> (#[trigger] s.skip(1)[i]).0 != e.0);
        lemma_pool_insert(s.skip(1), e);
        let rr = pool_insert(s.skip(1), e);
        assert(r =~= seq![s[0]] + rr);
        assert(pool_sorted(r)) by {
            assert(forall|i: int| 1 <= i < r.len() ==> r[i] == rr[i - 1]);
            assert forall|i: int, j: int| 0 <= i < j < r.len() implies pool_lt(
                #[trigger] r[i],
                #[trigger] r[j],
            ) by {
                if i == 0 {
                    assert(pool_entries_contain(rr, rr[j - 1].0)) by {
                        assert(rr[j - 1].0 == rr[j - 1].0);
                    }
                    if pool_entries_contain(s.skip(1), rr[j - 1].0) {
                        let q = choose|q: int|
                            0 <= q < s.skip(1).len() && (#[trigger] s.skip(1)[q]).0 == rr[j
                                - 1].0;
                        assert(rr[j - 1].0 == s[q + 1].0);
                        if rr[j - 1] == e {
                            assert(false);
                        } else {
                            lemma_pool_member_value(s.skip(1), e, j - 1);
                            if rr[j - 1] != e {
                                let w = choose|w: int|
                                    0 <= w < s.skip(1).len() && #[trigger] s.skip(1)[w] == rr[j
                                        - 1];
                                assert(pool_lt(s[0], s[w + 1]));
                            }
                        }
                    } else {
                        assert(rr[j - 1].0 == e.0);
                        lemma_pool_member_value(s.skip(1), e, j - 1);
                        if rr[j - 1] != e {
                            let w = choose|w: int|
                                0 <= w < s.skip(1).len() && #[trigger] s.skip(1)[w] == rr[j - 1];
                            assert((s.skip(1)[w]).0 != e.0);
                            assert(false);
                        }
                        assert(rr[j - 1] == e);
                        assert(pool_lt(s[0], e));
                    }
                } else {
                    assert(pool_lt(rr[i - 1], rr[j - 1]));
                }
            }
        }
        assert forall|b: Seq<u8>| #[trigger] pool_entries_contain(r, b) <==> (pool_entries_contain(
            s,
            b,
        ) || b == e.0) by {
            if pool_entries_contain(r, b) {
                let i = choose|i: int| 0 <= i < r.len() && (#[trigger] r[i]).0 == b;
                if i == 0 {
                    assert(s[0].0 == b);
                } else {
                    assert(rr[i - 1].0 == b);
                    assert(pool_entries_contain(rr, b));
                    if pool_entries_contain(s.skip(1), b) {
                        let q = choose|q: int|
                            0 <= q < s.skip(1).len() && (#[trigger] s.skip(1)[q]).0 == b;
                        assert(s[q + 1].0 == b);
                    }
                }
            }
            if pool_entries_contain(s, b) {
                let i = choose|i: int| 0 <= i < s.len() && (#[trigger] s[i]).0 == b;
                if i == 0 {
                    assert(r[0].0 == b);
                } else {
                    assert(s.skip(1)[i - 1].0 == b);
                    assert(pool_entries_contain(s.skip(1), b));
                    assert(pool_entries_contain(rr, b));
                    let q = choose|q: int| 0 <= q < rr.len() && (#[trigger] rr[q]).0 == b;
                    assert(r[q + 1].0 == b);
                }
            }
            if b == e.0 {
                assert(pool_entries_contain(rr, b));
                let q = choose|q: int| 0 <= q < rr.len() && (#[trigger] rr[q]).0 == b;
                assert(r[q + 1].0 == b);
            }
        }
    }
}

/// Every element of an insertion result is the new entry or one of
/// the old elements.
proof fn lemma_pool_member_value(s: Seq<(Seq<u8>, u64)>, e: (Seq<u8>, u64), j: int)
    requires
        0 <= j < pool_insert(s, e).len(),
    ensures
        pool_insert(s, e)[j] == e || exists|w: int|
            0 <= w < s.len() && #[trigger] s[w] == pool_insert(s, e)[j],
    decreases s.len(),
{
    let r = pool_insert(s, e);
    if s.len() == 0 {
        assert(r =~= seq![e]);
    } else if pool_lt(e, s[0]) {
        assert(r =~= seq![e] + s);
        if j > 0 {
            assert(s[j - 1] == r[j]);
        }
    } else {
        let rr = pool_insert(s.skip(1), e);
        assert(r =~= seq![s[0]] + rr);
        if j == 0 {
            assert(s[0] == r[0]);
        } else {
            lemma_pool_member_value(s.skip(1), e, j - 1);
            if rr[j - 1] != e {
                let w = choose|w: int| 0 <= w < s.skip(1).len() && #[trigger] s.skip(1)[w] == rr[j
                    - 1];
                assert(s[w + 1] == r[j]);
            }
        }
    }
}

/// Pool order is transitive.
proof fn lemma_pool_lt_trans(a: (Seq<u8>, u64), b: (Seq<u8>, u64), c: (Seq<u8>, u64))
    requires
        pool_lt(a, b),
        pool_lt(b, c),
    ensures
        pool_lt(a, c),
{
    if a.1 == b.1 && b.1 == c.1 {
        crate::dict::lemma_bytes_lt_trans(a.0, b.0, c.0);
    }
}

/// The qualified entries of the first `k` counted strings, folded
/// into pool order.
pub open spec fn pool_build(d: Seq<(Seq<u8>, u64)>, cfg: PoolConfig, k: int) -> Seq<(Seq<u8>, u64)>
    decreases k,
{
    if k <= 0 || k > d.len() {
        Seq::empty()
    } else {
        let prev = pool_build(d, cfg, k - 1);
        if d[k - 1].1 >= cfg.min_repeats && d[k - 1].0.len() >= cfg.min_string_len {
            pool_insert(prev, d[k - 1])
        } else {
            prev
        }
    }
}

/// Collects the string pool of a value: every string counted, the
/// qualified ones kept in pool order with ids from zero.
pub fn collect_string_pool(root: &JsonValue, cfg: PoolConfig) -> (r: StringPool)
    ensures
        r.wf(),
        forall|s: Seq<u8>| #[trigger] pool_contains(r@, s) <==> qualifies(root@, cfg, s),
        ({
            let cd = the_str_dict(root@);
            let pb = pool_build(cd, cfg, cd.len() as int);
            r@ =~~= Seq::new(pb.len(), |i: int| pb[i].0) && r.spec_counts() =~= Seq::new(
                pb.len(),
                |i: int| pb[i].1,
            )
        }),
{
    let mut cd = KeyDict::new();
    collect_strings(root, &mut cd);
    proof {
        lemma_the_str_dict(root@, cd@);
    }
    let ghost d = cd@;
    let n = cd.len();
    let mut pairs: Vec<(Vec<u8>, u64)> = Vec::new();
    let mut k: usize = 0;
    proof {
        assert(pairs_view(pairs@) =~= pool_build(d, cfg, 0));
    }
    while k < n
        invariant
            k <= n,
            n == d.len(),
            d == cd@,
            cd.wf(),
            pairs_view(pairs@) == pool_build(d, cfg, k as int),
            pool_sorted(pairs_view(pairs@)),
            forall|b: Seq<u8>|
                #[trigger] pool_entries_contain(pairs_view(pairs@), b) <==> exists|i: int|
                    0 <= i < k && (#[trigger] d[i]).0 == b && d[i].1 >= cfg.min_repeats
                        && d[i].0.len() >= cfg.min_string_len,
        decreases n - k,
    {
        let (key, f) = cd.entry_at(k);
        let keylen = key.len();
        if f >= cfg.min_repeats as u64 && keylen >= cfg.min_string_len {
            let key2 = copy_bytes(key);
            let ghost e = (d[k as int].0, d[k as int].1);
            let ghost cur = pairs_view(pairs@);
            proof {
                assert forall|i: int| 0 <= i < cur.len() implies (#[trigger] cur[i]).0 != e.0 by {
                    if cur[i].0 == e.0 {
                        assert(pool_entries_contain(cur, e.0));
                        let q = choose|q: int|
                            0 <= q < k && (#[trigger] d[q]).0 == e.0 && d[q].1 >= cfg.min_repeats
                                && d[q].0.len() >= cfg.min_string_len;
                        crate::dict::lemma_dict_sorted(d, q, k as int);
                        lemma_bytes_lt_trichotomy(d[q].0, d[k as int].0);
                    }
                }
                lemma_pool_insert(cur, e);
            }
            // find the insertion point in pool order
            let mut j: usize = 0;
            loop
                invariant
                    j <= pairs@.len(),
                    cur == pairs_view(pairs@),
                    key2@ == e.0,
                    f == e.1,
                    forall|i: int| 0 <= i < j ==> !pool_lt(e, #[trigger] cur[i]),
                ensures
                    j <= pairs@.len(),
                    forall|i: int| 0 <= i < j ==> !pool_lt(e, #[trigger] cur[i]),
                    j < pairs@.len() ==> pool_lt(e, cur[j as int]),
                decreases pairs@.len() - j,
            {
                if j == pairs.len() {
                    break ;
                }
                let cj = pairs[j].1;
                let before = if f > cj {
                    true
                } else if f < cj {
                    false
                } else {
                    lex_cmp(&key2, &pairs[j].0) == -1
                };
                proof {
                    assert(cur[j as int] == (pairs@[j as int].0@, pairs@[j as int].1));
                    if f == cj && !before {
                        lemma_bytes_lt_trichotomy(key2@, pairs@[j as int].0@);
                    }
                }
                if before {
                    break ;
                }
                proof {
                    assert(!pool_lt(e, cur[j as int]));
                }
                j += 1;
            }
            let ghost pre = pairs@;
            pairs.insert(j, (key2, f));
            proof {
                lemma_pool_insert_at(cur, e, j as int);
                assert forall|i: int| 0 <= i < pairs_view(pairs@).len() implies pairs_view(
                    pairs@,
                )[i] == (cur.take(j as int) + seq![e] + cur.skip(j as int))[i] by {
                    if i < j {
                        assert(pairs@[i] == pre[i]);
                    } else if i > j {
                        assert(pairs@[i] == pre[i - 1]);
                    }
                }
                assert(pairs_view(pairs@) =~= pool_insert(cur, e));
            }
        }
        proof {
            assert forall|b: Seq<u8>|
                #[trigger] pool_entries_contain(pairs_view(pairs@), b) <==> exists|i: int|
                    0 <= i < k + 1 && (#[trigger] d[i]).0 == b && d[i].1 >= cfg.min_repeats
                        && d[i].0.len() >= cfg.min_string_len by {
                if pool_entries_contain(pairs_view(pairs@), b) {
                    if pool_entries_contain(pool_build(d, cfg, k as int), b) {
                        let q = choose|q: int|
                            0 <= q < k && (#[trigger] d[q]).0 == b && d[q].1 >= cfg.min_repeats
                                && d[q].0.len() >= cfg.min_string_len;
                        assert(0 <= q < k + 1 && d[q].0 == b && d[q].1 >= cfg.min_repeats && d[
                        q].0.len() >= cfg.min_string_len);
                    }
                }
                if exists|i: int|
                    0 <= i < k + 1 && (#[trigger] d[i]).0 == b && d[i].1 >= cfg.min_repeats && d[
                    i].0.len() >= cfg.min_string_len {
                    let q = choose|q: int|
                        0 <= q < k + 1 && (#[trigger] d[q]).0 == b && d[q].1 >= cfg.min_repeats
                            && d[q].0.len() >= cfg.min_string_len;
                    if q < k {
                        assert(exists|i: int|
                            0 <= i < k && (#[trigger] d[i]).0 == b && d[i].1 >= cfg.min_repeats
                                && d[i].0.len() >= cfg.min_string_len);
                    }
                }
            }
        }
        k += 1;
    }
    // split bytes from counts
    let m = pairs.len();
    let mut entries: Vec<Vec<u8>> = Vec::new();
    let ghost pv = pairs_view(pairs@);
    let mut t: usize = 0;
    while t < m
        invariant
            t <= m,
            m == pairs@.len(),
            pv == pairs_view(pairs@),
            entries@.len() == t,
            forall|i: int| 0 <= i < t ==> (#[trigger] entries@[i])@ == pv[i].0,
        decreases m - t,
    {
        let b = copy_bytes(&pairs[t].0);
        entries.push(b);
        proof {
            assert(pv[t as int] == (pairs@[t as int].0@, pairs@[t as int].1));
        }
        t += 1;
    }
    let pool = StringPool {
        entries,
        counts: Ghost(Seq::new(pv.len(), |i: int| pv[i].1)),
    };
    proof {
        assert(pool@ =~= Seq::new(pv.len(), |i: int| pv[i].0));
        assert(pool.wf()) by {
            assert forall|i: int, j: int| 0 <= i < j < pool@.len() implies pool_lt(
                (pool@[i], pool.spec_counts()[i]),
                (pool@[j], pool.spec_counts()[j]),
            ) by {
                assert(pool_lt(pv[i], pv[j]));
                assert((pool@[i], pool.spec_counts()[i]) == pv[i]);
                assert((pool@[j], pool.spec_counts()[j]) == pv[j]);
            }
        }
        assert forall|s: Seq<u8>| #[trigger] pool_contains(pool@, s) <==> qualifies(
            root@,
            cfg,
            s,
        ) by {
            crate::dict::lemma_dict_freq_contains(d, s);
            if pool_contains(pool@, s) {
                let i = choose|i: int| 0 <= i < pool@.len() && pool@[i] == s;
                assert(pv[i].0 == s);
                assert(pool_entries_contain(pv, s));
                let q = choose|q: int|
                    0 <= q < n && (#[trigger] d[q]).0 == s && d[q].1 >= cfg.min_repeats && d[
                    q].0.len() >= cfg.min_string_len;
                crate::dict::lemma_dict_freq_at(d, s, q);
            }
            if qualifies(root@, cfg, s) {
                assert(dict_freq(d, s) == sat64(str_count(root@, s)));
                assert(dict_freq(d, s) >= 1);
                assert(crate::dict::dict_contains(d, s));
                let q = choose|q: int| 0 <= q < d.len() && (#[trigger] d[q]).0 == s;
                crate::dict::lemma_dict_freq_at(d, s, q);
                assert(exists|i: int|
                    0 <= i < n && (#[trigger] d[i]).0 == s && d[i].1 >= cfg.min_repeats && d[
                    i].0.len() >= cfg.min_string_len);
                assert(pool_entries_contain(pv, s));
                let w = choose|w: int| 0 <= w < pv.len() && (#[trigger] pv[w]).0 == s;
                assert(pool@[w] == s);
            }
        }
    }
    pool
}

/// The pair list as a ghost sequence.
pub open spec fn pairs_view(v: Seq<(Vec<u8>, u64)>) -> Seq<(Seq<u8>, u64)> {
    Seq::new(v.len(), |i: int| (v[i].0@, v[i].1))
}

/// Inserting before the first pool-greater entry is what
/// `pool_insert` does.
proof fn lemma_pool_insert_at(s: Seq<(Seq<u8>, u64)>, e: (Seq<u8>, u64), j: int)
    requires
        0 <= j <= s.len(),
        forall|i: int| 0 <= i < j ==> !pool_lt(e, #[trigger] s[i]),
        j < s.len() ==> pool_lt(e, s[j]),
    ensures
        pool_insert(s, e) =~= s.take(j) + seq![e] + s.skip(j),
    decreases s.len(),
{
    if s.len() == 0 {
        assert(pool_insert(s, e) =~= seq![e]);
        assert(s.take(0) =~= Seq::<(Seq<u8>, u64)>::empty());
        assert(s.skip(0) =~= Seq::<(Seq<u8>, u64)>::empty());
    } else if pool_lt(e, s[0]) {
        assert(j == 0);
        assert(s.take(0) + seq![e] + s.skip(0) =~= seq![e] + s);
    } else {
        assert(j >= 1);
        assert(forall|i: int| 0 <= i < j - 1 ==> #[trigger] s.skip(1)[i] == s[i + 1]);
        lemma_pool_insert_at(s.skip(1), e, j - 1);
        assert(pool_insert(s, e) =~= seq![s[0]] + pool_insert(s.skip(1), e));
        assert(s.skip(1).take(j - 1) =~= s.take(j).skip(1));
        assert(s.skip(1).skip(j - 1) =~= s.skip(j));
        assert(seq![s[0]] + (s.take(j).skip(1) + seq![e] + s.skip(j)) =~= s.take(j) + seq![e]
            + s.skip(j));
    }
}

/// Every pool entry is one of the counted strings, and the pool is no
/// longer than the counting table.
pub proof fn lemma_pool_build_member(d: Seq<(Seq<u8>, u64)>, cfg: PoolConfig, k: int)
    requires
        0 <= k <= d.len(),
    ensures
        pool_build(d, cfg, k).len() <= k,
        forall|w: int|
            0 <= w < pool_build(d, cfg, k).len() ==> exists|i: int|
                0 <= i < k && #[trigger] pool_build(d, cfg, k)[w] == d[i],
    decreases k,
{
    if k > 0 {
        lemma_pool_build_member(d, cfg, k - 1);
        let prev = pool_build(d, cfg, k - 1);
        let cur = pool_build(d, cfg, k);
        if d[k - 1].1 >= cfg.min_repeats && d[k - 1].0.len() >= cfg.min_string_len {
            assert forall|w: int| 0 <= w < cur.len() implies exists|i: int|
                0 <= i < k && #[trigger] cur[w] == d[i] by {
                lemma_pool_member_value(prev, d[k - 1], w);
                if cur[w] == d[k - 1] {
                    assert(0 <= k - 1 < k && cur[w] == d[k - 1]);
                } else {
                    let q = choose|q: int| 0 <= q < prev.len() && #[trigger] prev[q] == cur[w];
                    assert(exists|i: int| 0 <= i < k - 1 && #[trigger] prev[q] == d[i]);
                    let i = choose|i: int| 0 <= i < k - 1 && #[trigger] prev[q] == d[i];
                    assert(0 <= i < k && cur[w] == d[i]);
                }
            }
            lemma_pool_insert_len(prev, d[k - 1]);
        } else {
            assert forall|w: int| 0 <= w < cur.len() implies exists|i: int|
                0 <= i < k && #[trigger] cur[w] == d[i] by {
                let i = choose|i: int| 0 <= i < k - 1 && #[trigger] prev[w] == d[i];
                assert(0 <= i < k && cur[w] == d[i]);
            }
        }
    }
}

/// Insertion grows the pool by exactly one entry.
proof fn lemma_pool_insert_len(s: Seq<(Seq<u8>, u64)>, e: (Seq<u8>, u64))
    ensures
        pool_insert(s, e).len() == s.len() + 1,
    decreases s.len(),
{
    if s.len() > 0 && !pool_lt(e, s[0]) {
        lemma_pool_insert_len(s.skip(1), e);
    }
}

} // verus!
