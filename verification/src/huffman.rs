//! The canonical Huffman coder over dictionary keys.
//!
//! Code lengths come from the classic combine-two-smallest procedure,
//! with ties broken by the smallest original key index so that the
//! result is deterministic.  Keys are then sorted by (length, key
//! bytes) and assigned consecutive MSB-first code words per length.
//! On the wire each code word is written low bit last, so the reader
//! consumes it MSB-first one bit at a time.

use vstd::prelude::*;
use vstd::arithmetic::power2::pow2;
use crate::bits::{bits_of, bits_value, lemma_bits_of_len, lemma_bytes_to_bits_len};
use crate::bitstream::{BitReader, BitWriter};
use crate::dict::{KeyDict, bytes_lt, lemma_bytes_lt_trichotomy, lemma_bytes_lt_trans, lex_cmp, copy_bytes};
use crate::errors::Error;

verus! {

broadcast use lemma_bits_of_len, lemma_bytes_to_bits_len;

/// A work-list node of the length builder: the subtree's total count,
/// the least original key index in it (the tie-breaker), and the
/// original indices of its keys.
struct Node {
    freq: u64,
    min_idx: usize,
    members: Vec<usize>,
}

impl View for Node {
    type V = (u64, int, Seq<int>);

    closed spec fn view(&self) -> (u64, int, Seq<int>) {
        (self.freq, self.min_idx as int, Seq::new(self.members@.len(), |i: int| self.members@[i] as int))
    }
}

/// Whether node `a` is strictly before node `b`: smaller count, or an
/// equal count and a smaller tie-breaker index.
pub open spec fn node_lt(a: (u64, int, Seq<int>), b: (u64, int, Seq<int>)) -> bool {
    a.0 < b.0 || (a.0 == b.0 && a.1 < b.1)
}

/// The first index of a least node.
pub open spec fn argmin(s: Seq<(u64, int, Seq<int>)>, n: int) -> int
    decreases n,
{
    if n <= 1 {
        0
    } else {
        let r = argmin(s, n - 1);
        if node_lt(s[n - 1], s[r]) {
            n - 1
        } else {
            r
        }
    }
}

/// `argmin` returns an index of a least element among the first `n`.
pub proof fn lemma_argmin(s: Seq<(u64, int, Seq<int>)>, n: int)
    requires
        1 <= n <= s.len(),
    ensures
        0 <= argmin(s, n) < n,
        forall|j: int| 0 <= j < n ==> !node_lt(#[trigger] s[j], s[argmin(s, n)]),
    decreases n,
{
    if n > 1 {
        lemma_argmin(s, n - 1);
    }
}

/// Each listed length bumped by one, in order; a length already at 64
/// is refused.
pub open spec fn bump_checked(lens: Seq<u8>, members: Seq<int>, k: int) -> Result<Seq<u8>, Error>
    decreases k,
{
    if k <= 0 || k > members.len() {
        Ok(lens)
    } else {
        match bump_checked(lens, members, k - 1) {
            Ok(prev) => {
                let m = members[k - 1];
                if !(0 <= m < prev.len()) {
                    Ok(prev)
                } else if prev[m] >= 64 {
                    Err(Error::HuffmanError)
                } else {
                    Ok(prev.update(m, (prev[m] + 1) as u8))
                }
            },
            Err(e) => Err(e),
        }
    }
}

/// One merge step of the length builder: the two least nodes leave the
/// work list, their members' lengths grow by one, and the combined
/// node joins at the end.  Counts add saturating at the 64-bit
/// maximum; a length about to pass 64 is refused.
pub open spec fn build_lens_rec(active: Seq<(u64, int, Seq<int>)>, lens: Seq<u8>) -> Result<
    Seq<u8>,
    Error,
>
    decreases active.len(),
    via build_lens_rec_decreases
{
    if active.len() <= 1 {
        Ok(lens)
    } else {
        let i1 = argmin(active, active.len() as int);
        let a = active[i1];
        let rest1 = active.remove(i1);
        let i2 = argmin(rest1, rest1.len() as int);
        let b = rest1[i2];
        let rest2 = rest1.remove(i2);
        match bump_checked(lens, a.2, a.2.len() as int) {
            Ok(lens1) => match bump_checked(lens1, b.2, b.2.len() as int) {
                Ok(lens2) => {
                    let freq = if a.0 + b.0 > u64::MAX {
                        u64::MAX
                    } else {
                        (a.0 + b.0) as u64
                    };
                    let min_idx = if a.1 <= b.1 {
                        a.1
                    } else {
                        b.1
                    };
                    let merged = (freq, min_idx, a.2 + b.2);
                    build_lens_rec(rest2.push(merged), lens2)
                },
                Err(e) => Err(e),
            },
            Err(e) => Err(e),
        }
    }
}

#[via_fn]
proof fn build_lens_rec_decreases(active: Seq<(u64, int, Seq<int>)>, lens: Seq<u8>) {
    if active.len() > 1 {
        lemma_argmin(active, active.len() as int);
        let i1 = argmin(active, active.len() as int);
        let rest1 = active.remove(i1);
        assert(rest1.len() == active.len() - 1);
        lemma_argmin(rest1, rest1.len() as int);
        let i2 = argmin(rest1, rest1.len() as int);
        let rest2 = rest1.remove(i2);
        assert(rest2.len() == active.len() - 2);
    }
}

/// Every length in the buildable range: at least one bit, at most 64.
pub open spec fn lens_ok(lens: Seq<u8>) -> bool {
    forall|i: int| 0 <= i < lens.len() ==> 1 <= #[trigger] lens[i] <= 64
}

/// The code lengths of a dictionary: each key starts as its own node
/// with its count, and nodes merge two-smallest-first.  A dictionary
/// of one key gets the single length 1.
pub open spec fn spec_lens(d: Seq<(Seq<u8>, u64)>) -> Result<Seq<u8>, Error> {
    if d.len() == 1 {
        Ok(seq![1u8])
    } else {
        match build_lens_rec(
            Seq::new(d.len(), |i: int| (d[i].1, i, seq![i])),
            Seq::new(d.len(), |i: int| 0u8),
        ) {
            Ok(l) => if lens_ok(l) {
                Ok(l)
            } else {
                Err(Error::HuffmanError)
            },
            Err(e) => Err(e),
        }
    }
}

/// The work list as a ghost sequence.
pub open spec fn nodes_view(v: Seq<Node>) -> Seq<(u64, int, Seq<int>)> {
    Seq::new(v.len(), |i: int| v[i]@)
}

/// Mapping the work list to its ghost view commutes with removal.
proof fn lemma_nodes_view_remove(v: Seq<Node>, i: int)
    requires
        0 <= i < v.len(),
    ensures
        nodes_view(v.remove(i)) =~= nodes_view(v).remove(i),
{
    assert(forall|j: int| 0 <= j < i ==> #[trigger] v.remove(i)[j] == v[j]);
    assert(forall|j: int|
        i <= j < v.len() - 1 ==> #[trigger] v.remove(i)[j] == v[j + 1]);
}

/// The least node of the work list.
fn find_min_node(active: &Vec<Node>) -> (r: usize)
    requires
        active@.len() >= 1,
    ensures
        r as int == argmin(nodes_view(active@), active@.len() as int),
        r < active@.len(),
{
    let ghost av = nodes_view(active@);
    let mut best: usize = 0;
    let mut bi: usize = 1;
    proof {
        lemma_argmin(av, av.len() as int);
    }
    while bi < active.len()
        invariant
            1 <= bi <= active@.len(),
            best < bi,
            av == nodes_view(active@),
            best as int == argmin(av, bi as int),
        decreases active@.len() - bi,
    {
        let better = active[bi].freq < active[best].freq || (active[bi].freq == active[best].freq
            && active[bi].min_idx < active[best].min_idx);
        proof {
            assert(av[bi as int] == active@[bi as int]@);
            assert(av[best as int] == active@[best as int]@);
            assert(better == node_lt(av[bi as int], av[best as int]));
        }
        if better {
            best = bi;
        }
        bi += 1;
    }
    best
}

/// Grows the length of every listed key by one bit; a length already
/// at 64 bits is refused.
fn bump_all(lens: &mut Vec<u8>, members: &Vec<usize>, Ghost(mem_view): Ghost<Seq<int>>) -> (r:
    Result<(), Error>)
    requires
        mem_view =~= Seq::new(members@.len(), |q: int| members@[q] as int),
        forall|q: int| 0 <= q < members@.len() ==> members@[q] < old(lens)@.len(),
        forall|q: int| 0 <= q < old(lens)@.len() ==> #[trigger] old(lens)@[q] <= 64,
    ensures
        final(lens)@.len() == old(lens)@.len(),
        forall|q: int| 0 <= q < final(lens)@.len() ==> #[trigger] final(lens)@[q] <= 64,
        match r {
            Ok(u) => bump_checked(old(lens)@, mem_view, mem_view.len() as int) == Ok::<_, Error>(
                final(lens)@,
            ),
            Err(e) => bump_checked(old(lens)@, mem_view, mem_view.len() as int) == Err::<
                Seq<u8>,
                _,
            >(e),
        },
{
    let ghost l0 = lens@;
    let n = members.len();
    let mut j: usize = 0;
    while j < n
        invariant
            j <= n,
            n == members@.len(),
            l0 == old(lens)@,
            mem_view =~= Seq::new(members@.len(), |q: int| members@[q] as int),
            lens@.len() == l0.len(),
            forall|q: int| 0 <= q < members@.len() ==> members@[q] < l0.len(),
            forall|q: int| 0 <= q < lens@.len() ==> #[trigger] lens@[q] <= 64,
            bump_checked(l0, mem_view, j as int) == Ok::<_, Error>(lens@),
        decreases n - j,
    {
        let m = members[j];
        proof {
            assert(mem_view[j as int] == m as int);
        }
        if lens[m] >= 64 {
            proof {
                assert(bump_checked(l0, mem_view, j + 1) == Err::<Seq<u8>, _>(Error::HuffmanError));
                lemma_bump_error(l0, mem_view, j + 1, mem_view.len() as int);
            }
            return Err(Error::HuffmanError);
        }
        let cur = lens[m];
        lens[m] = cur + 1;
        j += 1;
    }
    Ok(())
}

/// Appends the second member list to the first.
fn extend_members(mem: &mut Vec<usize>, other: &Vec<usize>)
    ensures
        final(mem)@ =~= old(mem)@ + other@,
{
    let ghost m0 = mem@;
    let n = other.len();
    let mut j: usize = 0;
    while j < n
        invariant
            j <= n,
            n == other@.len(),
            m0 == old(mem)@,
            mem@ =~= m0 + other@.take(j as int),
        decreases n - j,
    {
        mem.push(other[j]);
        proof {
            assert(m0 + other@.take(j + 1) =~= (m0 + other@.take(j as int)).push(
                other@[j as int],
            ));
        }
        j += 1;
    }
    proof {
        assert(other@.take(n as int) =~= other@);
    }
}

/// Builds the code lengths of a dictionary with two or more keys (or
/// none).
fn build_lengths(dict: &KeyDict) -> (r: Result<Vec<u8>, Error>)
    requires
        dict.wf(),
        dict@.len() != 1,
    ensures
        ({
            let pr = spec_lens(dict@);
            match r {
                Ok(v) => pr matches Ok(l) && v@ == l && v@.len() == dict@.len(),
                Err(e) => pr matches Err(e2) && e == e2,
            }
        }),
{
    let ghost d = dict@;
    let n = dict.len();
    let mut lens: Vec<u8> = Vec::new();
    let mut i: usize = 0;
    while i < n
        invariant
            i <= n,
            lens@ =~= Seq::new(i as nat, |j: int| 0u8),
        decreases n - i,
    {
        lens.push(0);
        proof {
            assert(lens@ =~= Seq::new((i + 1) as nat, |j: int| 0u8));
        }
        i += 1;
    }
    let mut active: Vec<Node> = Vec::new();
    i = 0;
    while i < n
        invariant
            i <= n,
            n == d.len(),
            d == dict@,
            dict.wf(),
            active@.len() == i,
            nodes_view(active@) =~= Seq::new(i as nat, |j: int| (d[j].1, j, seq![j])),
        decreases n - i,
    {
        let (_k, f) = dict.entry_at(i);
        let mut mem: Vec<usize> = Vec::new();
        mem.push(i);
        let node = Node { freq: f, min_idx: i, members: mem };
        proof {
            assert(node@.2 =~= seq![i as int]);
            assert(node@ == (d[i as int].1, i as int, seq![i as int]));
        }
        let ghost prev = nodes_view(active@);
        let ghost pv = active@;
        active.push(node);
        proof {
            let va = nodes_view(active@);
            let tgt = Seq::new((i + 1) as nat, |j: int| (d[j].1, j, seq![j]));
            assert forall|j: int| 0 <= j < va.len() implies va[j] == tgt[j] by {
                if j < i {
                    assert(active@[j] == pv[j]);
                    assert(va[j] == prev[j]);
                    assert(prev[j] == (d[j].1, j, seq![j]));
                } else {
                    assert(va[j] == node@);
                }
            }
            assert(va =~= tgt);
        }
        i += 1;
    }
    let ghost init_active: Seq<(u64, int, Seq<int>)> = Seq::new(
        d.len(),
        |j: int| (d[j].1, j, seq![j]),
    );
    let ghost init_lens: Seq<u8> = Seq::new(d.len(), |j: int| 0u8);
    proof {
        assert(nodes_view(active@) =~= init_active);
        assert(lens@ =~= init_lens);
    }
    while active.len() > 1
        invariant
            d == dict@,
            n == d.len(),
            d.len() != 1,
            lens@.len() == n,
            init_active == Seq::new(d.len(), |j: int| (d[j].1, j, seq![j])),
            init_lens == Seq::new(d.len(), |j: int| 0u8),
            build_lens_rec(nodes_view(active@), lens@) == build_lens_rec(init_active, init_lens),
            forall|q: int| 0 <= q < n ==> #[trigger] lens@[q] <= 64,
            forall|p: int, q: int|
                0 <= p < active@.len() && 0 <= q < nodes_view(active@)[p].2.len() ==> 0
                    <= #[trigger] nodes_view(active@)[p].2[q] < n,
        decreases active@.len(),
    {
        let ghost av0 = nodes_view(active@);
        let ghost lens0 = lens@;
        let best = find_min_node(&active);
        let ghost pre1 = active@;
        let a = active.remove(best);
        proof {
            lemma_nodes_view_remove(pre1, best as int);
            lemma_argmin(av0, av0.len() as int);
        }
        let ghost av1 = nodes_view(active@);
        proof {
            assert(av1 =~~= av0.remove(best as int));
        }
        let best2 = find_min_node(&active);
        let ghost pre2 = active@;
        let b = active.remove(best2);
        proof {
            lemma_nodes_view_remove(pre2, best2 as int);
            lemma_argmin(av1, av1.len() as int);
        }
        let ghost av2 = nodes_view(active@);
        proof {
            assert(av2 =~~= av1.remove(best2 as int));
            assert(a@ == av0[best as int]);
            assert(b@ == av1[best2 as int]);
        }
        proof {
            assert forall|q: int| 0 <= q < a.members@.len() implies a.members@[q] < lens@.len() by {
                assert(a@.2[q] == a.members@[q] as int);
                assert(0 <= av0[best as int].2[q] < n);
            }
            assert forall|q: int| 0 <= q < b.members@.len() implies b.members@[q] < lens@.len() by {
                assert(b@.2[q] == b.members@[q] as int);
                assert(av1[best2 as int] == av0.remove(best as int)[best2 as int]);
                if best2 < best {
                    assert(av1[best2 as int] == av0[best2 as int]);
                    assert(0 <= av0[best2 as int].2[q] < n);
                } else {
                    assert(av1[best2 as int] == av0[best2 as int + 1]);
                    assert(0 <= av0[best2 as int + 1].2[q] < n);
                }
            }
        }
        match bump_all(&mut lens, &a.members, Ghost(a@.2)) {
            Ok(u) => {},
            Err(e) => {
                return Err(e);
            },
        }
        let ghost lens1 = lens@;
        match bump_all(&mut lens, &b.members, Ghost(b@.2)) {
            Ok(u) => {},
            Err(e) => {
                return Err(e);
            },
        }
        let freq: u64 = if a.freq > u64::MAX - b.freq {
            u64::MAX
        } else {
            a.freq + b.freq
        };
        let min_idx: usize = if a.min_idx <= b.min_idx {
            a.min_idx
        } else {
            b.min_idx
        };
        let ghost aview = a@;
        let ghost bview = b@;
        let mut mem = a.members;
        extend_members(&mut mem, &b.members);
        let node = Node { freq, min_idx, members: mem };
        let ghost merged = (
            if aview.0 + bview.0 > u64::MAX {
                u64::MAX as u64
            } else {
                (aview.0 + bview.0) as u64
            },
            if aview.1 <= bview.1 {
                aview.1
            } else {
                bview.1
            },
            aview.2 + bview.2,
        );
        proof {
            assert(node@.2 =~= aview.2 + bview.2);
            assert(node@ == merged);
        }
        let ghost pv2 = active@;
        let ghost prev2 = nodes_view(active@);
        active.push(node);
        proof {
            let va = nodes_view(active@);
            assert forall|j: int| 0 <= j < va.len() implies va[j] == av2.push(merged)[j] by {
                if j < pv2.len() {
                    assert(active@[j] == pv2[j]);
                    assert(va[j] == prev2[j]);
                } else {
                    assert(va[j] == node@);
                }
            }
            assert(va =~= av2.push(merged));
            assert(build_lens_rec(av0, lens0) == build_lens_rec(nodes_view(active@), lens@));
        }
    }
    proof {
        assert(build_lens_rec(nodes_view(active@), lens@) == Ok::<_, Error>(lens@));
    }
    i = 0;
    while i < n
        invariant
            i <= n,
            n == lens@.len(),
            build_lens_rec(init_active, init_lens) == Ok::<_, Error>(lens@),
            forall|q: int| 0 <= q < n ==> #[trigger] lens@[q] <= 64,
            forall|q: int| 0 <= q < i ==> #[trigger] lens@[q] >= 1,
            d == dict@,
            n == d.len(),
            d.len() != 1,
            init_active == Seq::new(d.len(), |j: int| (d[j].1, j, seq![j])),
            init_lens == Seq::new(d.len(), |j: int| 0u8),
        decreases n - i,
    {
        if lens[i] == 0 {
            proof {
                assert(!lens_ok(lens@));
            }
            return Err(Error::HuffmanError);
        }
        i += 1;
    }
    proof {
        assert(lens_ok(lens@));
    }
    Ok(lens)
}

/// Once a bump step fails, the whole run fails.
proof fn lemma_bump_error(lens: Seq<u8>, members: Seq<int>, k: int, full: int)
    requires
        0 < k <= full <= members.len(),
        bump_checked(lens, members, k) is Err,
    ensures
        bump_checked(lens, members, full) == bump_checked(lens, members, k),
    decreases full - k,
{
    if k < full {
        lemma_bump_error(lens, members, k + 1, full);
    }
}

/// Whether entry `a` (a key with its code length) sorts strictly
/// before `b`: shorter length first, then smaller key bytes.
pub open spec fn ent_lt(a: (Seq<u8>, u8), b: (Seq<u8>, u8)) -> bool {
    a.1 < b.1 || (a.1 == b.1 && bytes_lt(a.0, b.0))
}

/// Insertion into a sorted run: a new entry goes before the first
/// entry it is strictly less than.
pub open spec fn sorted_insert(s: Seq<(Seq<u8>, u8)>, e: (Seq<u8>, u8)) -> Seq<(Seq<u8>, u8)>
    decreases s.len(),
{
    if s.len() == 0 {
        seq![e]
    } else if ent_lt(e, s[0]) {
        seq![e] + s
    } else {
        seq![s[0]] + sorted_insert(s.skip(1), e)
    }
}

/// The dictionary's keys with their lengths, sorted by (length, key).
pub open spec fn sort_entries(d: Seq<(Seq<u8>, u64)>, lens: Seq<u8>, k: int) -> Seq<(Seq<u8>, u8)>
    decreases k,
{
    if k <= 0 || k > d.len() || d.len() != lens.len() {
        Seq::empty()
    } else {
        sorted_insert(sort_entries(d, lens, k - 1), (d[k - 1].0, lens[k - 1]))
    }
}

/// Entries in non-decreasing (length, key) order.
pub open spec fn ents_sorted(s: Seq<(Seq<u8>, u8)>) -> bool {
    forall|i: int| 0 <= i < s.len() - 1 ==> !ent_lt(#[trigger] s[i + 1], s[i])
}

/// Insertion keeps the run sorted and adds exactly the new entry.
pub proof fn lemma_sorted_insert(s: Seq<(Seq<u8>, u8)>, e: (Seq<u8>, u8))
    requires
        ents_sorted(s),
    ensures
        ents_sorted(sorted_insert(s, e)),
        sorted_insert(s, e).len() == s.len() + 1,
        forall|key: Seq<u8>|
            ent_keys_contain(sorted_insert(s, e), key) <==> (ent_keys_contain(s, key) || key
                == e.0),
        exists|j: int| 0 <= j < sorted_insert(s, e).len() && sorted_insert(s, e)[j] == e,
    decreases s.len(),
{
    let r = sorted_insert(s, e);
    if s.len() == 0 {
        assert(r =~= seq![e]);
        assert(r[0] == e);
        assert forall|key: Seq<u8>| ent_keys_contain(r, key) <==> (ent_keys_contain(s, key) || key
            == e.0) by {
            if key == e.0 {
                assert(r[0].0 == key);
            }
            if ent_keys_contain(s, key) {
                let i = choose|i: int| 0 <= i < s.len() && (#[trigger] s[i]).0 == key;
            }
        }
    } else if ent_lt(e, s[0]) {
        assert(r =~= seq![e] + s);
        assert(r[0] == e);
        assert(ents_sorted(r)) by {
            assert(forall|i: int| 1 <= i < r.len() ==> r[i] == s[i - 1]);
            lemma_bytes_lt_trichotomy(e.0, s[0].0);
            assert forall|i: int| 0 <= i < r.len() - 1 implies !ent_lt(#[trigger] r[i + 1], r[i]) by {
                if i == 0 {
                    assert(r[0] == e && r[1] == s[0]);
                    assert(!ent_lt(s[0], e));
                } else {
                    assert(r[i] == s[i - 1] && r[i + 1] == s[i]);
                    assert(!ent_lt(s[(i - 1) + 1], s[i - 1]));
                }
            }
        }
        assert forall|key: Seq<u8>| ent_keys_contain(r, key) <==> (ent_keys_contain(s, key) || key
            == e.0) by {
            if ent_keys_contain(r, key) {
                let i = choose|i: int| 0 <= i < r.len() && (#[trigger] r[i]).0 == key;
                if i > 0 {
                    assert(s[i - 1].0 == key);
                }
            }
            if ent_keys_contain(s, key) {
                let i = choose|i: int| 0 <= i < s.len() && (#[trigger] s[i]).0 == key;
                assert(r[i + 1].0 == key);
            }
            if key == e.0 {
                assert(r[0].0 == key);
            }
        }
    } else {
        assert(ents_sorted(s.skip(1))) by {
            assert(forall|i: int|
                0 <= i < s.skip(1).len() ==> #[trigger] s.skip(1)[i] == s[i + 1]);
        }
        lemma_sorted_insert(s.skip(1), e);
        let rr = sorted_insert(s.skip(1), e);
        assert(r =~= seq![s[0]] + rr);
        assert(ents_sorted(r)) by {
            assert(forall|i: int| 1 <= i < r.len() ==> r[i] == rr[i - 1]);
            assert(!ent_lt(rr[0], s[0])) by {
                if s.skip(1).len() == 0 {
                    assert(rr[0] == e);
                } else if ent_lt(e, s.skip(1)[0]) {
                    assert(rr[0] == e);
                } else {
                    assert(rr[0] == s.skip(1)[0]);
                    assert(s.skip(1)[0] == s[1]);
                    assert(!ent_lt(s[1], s[0]));
                }
            }
            assert forall|i: int| 0 <= i < r.len() - 1 implies !ent_lt(#[trigger] r[i + 1], r[i]) by {
                if i == 0 {
                    assert(r[0] == s[0] && r[1] == rr[0]);
                } else {
                    assert(r[i] == rr[i - 1] && r[i + 1] == rr[i]);
                    assert(!ent_lt(rr[(i - 1) + 1], rr[i - 1]));
                }
            }
        }
        assert forall|key: Seq<u8>| ent_keys_contain(r, key) <==> (ent_keys_contain(s, key) || key
            == e.0) by {
            if ent_keys_contain(r, key) {
                let i = choose|i: int| 0 <= i < r.len() && (#[trigger] r[i]).0 == key;
                if i == 0 {
                    assert(s[0].0 == key);
                } else {
                    assert(rr[i - 1].0 == key);
                    assert(ent_keys_contain(rr, key));
                    if ent_keys_contain(s.skip(1), key) {
                        let j = choose|j: int|
                            0 <= j < s.skip(1).len() && (#[trigger] s.skip(1)[j]).0 == key;
                        assert(s[j + 1].0 == key);
                    }
                }
            }
            if ent_keys_contain(s, key) {
                let i = choose|i: int| 0 <= i < s.len() && (#[trigger] s[i]).0 == key;
                if i == 0 {
                    assert(r[0].0 == key);
                } else {
                    assert(s.skip(1)[i - 1].0 == key);
                    assert(ent_keys_contain(s.skip(1), key));
                    assert(ent_keys_contain(sorted_insert(s.skip(1), e), key) <==> (
                    ent_keys_contain(s.skip(1), key) || key == e.0));
                    assert(ent_keys_contain(rr, key));
                    let j = choose|j: int| 0 <= j < rr.len() && (#[trigger] rr[j]).0 == key;
                    assert(r[j + 1].0 == key);
                }
            }
            if key == e.0 {
                let j = choose|j: int| 0 <= j < rr.len() && #[trigger] rr[j] == e;
                assert(r[j + 1].0 == key);
            }
        }
        let jw = choose|j: int| 0 <= j < rr.len() && #[trigger] rr[j] == e;
        assert(r[jw + 1] == e);
    }
}

/// Whether some entry carries this key.
pub open spec fn ent_keys_contain(s: Seq<(Seq<u8>, u8)>, key: Seq<u8>) -> bool {
    exists|i: int| 0 <= i < s.len() && (#[trigger] s[i]).0 == key
}

/// The sorted entries hold exactly the dictionary's keys.
pub proof fn lemma_sort_entries_keys(d: Seq<(Seq<u8>, u64)>, lens: Seq<u8>, k: int)
    requires
        0 <= k <= d.len(),
        d.len() == lens.len(),
    ensures
        ents_sorted(sort_entries(d, lens, k)),
        sort_entries(d, lens, k).len() == k,
        forall|key: Seq<u8>|
            ent_keys_contain(sort_entries(d, lens, k), key) <==> exists|i: int|
                0 <= i < k && (#[trigger] d[i]).0 == key,
    decreases k,
{
    if k > 0 {
        lemma_sort_entries_keys(d, lens, k - 1);
        lemma_sorted_insert(sort_entries(d, lens, k - 1), (d[k - 1].0, lens[k - 1]));
        let cur = sort_entries(d, lens, k);
        let prev = sort_entries(d, lens, k - 1);
        assert forall|key: Seq<u8>| #[trigger] ent_keys_contain(cur, key) implies exists|i: int|
            0 <= i < k && (#[trigger] d[i]).0 == key by {
            if ent_keys_contain(prev, key) {
                let i = choose|i: int| 0 <= i < k - 1 && (#[trigger] d[i]).0 == key;
                assert(0 <= i < k && d[i].0 == key);
            } else {
                assert(key == d[k - 1].0);
                assert(0 <= k - 1 < k && d[k - 1].0 == key);
            }
        }
        assert forall|key: Seq<u8>|
            (exists|i: int| 0 <= i < k && (#[trigger] d[i]).0 == key) implies #[trigger] ent_keys_contain(
            cur,
            key,
        ) by {
            let i = choose|i: int| 0 <= i < k && (#[trigger] d[i]).0 == key;
            if i < k - 1 {
                assert(exists|j: int| 0 <= j < k - 1 && (#[trigger] d[j]).0 == key);
                assert(ent_keys_contain(prev, key));
            } else {
                assert(key == d[k - 1].0);
            }
        }
    } else {
        assert(sort_entries(d, lens, 0) =~= Seq::<(Seq<u8>, u8)>::empty());
    }
}

/// The canonical codes of a sorted entry run: the first code is zero
/// and each next code is the previous plus one, shifted up to the next
/// length.  A code that does not fit its length is refused.
pub open spec fn codes_rec(s: Seq<(Seq<u8>, u8)>, k: int) -> Result<Seq<(Seq<u8>, u8, u64)>, Error>
    decreases k,
{
    if k <= 0 || k > s.len() {
        Ok(Seq::empty())
    } else {
        match codes_rec(s, k - 1) {
            Ok(acc) => {
                let len_k = s[k - 1].1;
                if len_k < 1 || len_k > 64 {
                    Err(Error::HuffmanError)
                } else {
                let c: nat = if k == 1 {
                    0
                } else {
                    if len_k < acc[k - 2].1 {
                        pow2(64) + 1  // refused below: lengths must not decrease
                    } else {
                        ((acc[k - 2].2 + 1) * pow2((len_k - acc[k - 2].1) as nat)) as nat
                    }
                };
                if c >= pow2(len_k as nat) {
                    Err(Error::HuffmanError)
                } else {
                    Ok(acc.push((s[k - 1].0, len_k, c as u64)))
                }
                }
            },
            Err(e) => Err(e),
        }
    }
}

/// The Kraft sum of the first `k` entries, scaled by `pow2(maxlen)`.
pub open spec fn kraft_rec(s: Seq<(Seq<u8>, u8)>, maxlen: u8, k: int) -> nat
    decreases k,
{
    if k <= 0 || k > s.len() {
        0
    } else {
        kraft_rec(s, maxlen, k - 1) + (if s[k - 1].1 <= maxlen {
            pow2((maxlen - s[k - 1].1) as nat)
        } else {
            0
        })
    }
}

/// The full table of a dictionary: lengths, sorted entries, canonical
/// codes, and the Kraft-equality gate for two or more keys.
pub open spec fn spec_huffman(d: Seq<(Seq<u8>, u64)>) -> Result<Seq<(Seq<u8>, u8, u64)>, Error> {
    if d.len() == 0 {
        Ok(Seq::empty())
    } else {
        match spec_lens(d) {
            Ok(lens) => {
                let sorted = sort_entries(d, lens, d.len() as int);
                match codes_rec(sorted, sorted.len() as int) {
                    Ok(es) => {
                        let maxlen = sorted[sorted.len() - 1].1;
                        if d.len() >= 2 && kraft_rec(sorted, maxlen, sorted.len() as int) != pow2(
                            maxlen as nat,
                        ) {
                            Err(Error::HuffmanError)
                        } else {
                            Ok(es)
                        }
                    },
                    Err(e) => Err(e),
                }
            },
            Err(e) => Err(e),
        }
    }
}

/// The sorted-entry list as a ghost sequence.
pub open spec fn ents_view(v: Seq<(Vec<u8>, u8)>) -> Seq<(Seq<u8>, u8)> {
    Seq::new(v.len(), |i: int| (v[i].0@, v[i].1))
}

/// Inserting before the first strictly greater entry is what
/// `sorted_insert` does.
proof fn lemma_sorted_insert_at(s: Seq<(Seq<u8>, u8)>, e: (Seq<u8>, u8), j: int)
    requires
        0 <= j <= s.len(),
        forall|i: int| 0 <= i < j ==> !ent_lt(e, #[trigger] s[i]),
        j < s.len() ==> ent_lt(e, s[j]),
    ensures
        sorted_insert(s, e) =~= s.take(j) + seq![e] + s.skip(j),
    decreases s.len(),
{
    if s.len() == 0 {
        assert(sorted_insert(s, e) =~= seq![e]);
        assert(s.take(0) =~= Seq::<(Seq<u8>, u8)>::empty());
        assert(s.skip(0) =~= Seq::<(Seq<u8>, u8)>::empty());
    } else if ent_lt(e, s[0]) {
        assert(j == 0);
        assert(s.take(0) + seq![e] + s.skip(0) =~= seq![e] + s);
    } else {
        assert(j >= 1);
        assert(forall|i: int| 0 <= i < j - 1 ==> #[trigger] s.skip(1)[i] == s[i + 1]);
        lemma_sorted_insert_at(s.skip(1), e, j - 1);
        assert(sorted_insert(s, e) =~= seq![s[0]] + sorted_insert(s.skip(1), e));
        assert(s.skip(1).take(j - 1) =~= s.take(j).skip(1));
        assert(s.skip(1).skip(j - 1) =~= s.skip(j));
        assert(seq![s[0]] + (s.take(j).skip(1) + seq![e] + s.skip(j)) =~= s.take(j) + seq![e]
            + s.skip(j));
    }
}

/// Sorts the dictionary's keys with their code lengths by (length,
/// key).
fn sort_dict_entries(dict: &KeyDict, lens: &Vec<u8>) -> (r: Vec<(Vec<u8>, u8)>)
    requires
        dict.wf(),
        lens@.len() == dict@.len(),
    ensures
        ents_view(r@) =~~= sort_entries(dict@, lens@, dict@.len() as int),
{
    let ghost d = dict@;
    let n = dict.len();
    let mut out: Vec<(Vec<u8>, u8)> = Vec::new();
    let mut k: usize = 0;
    proof {
        assert(ents_view(out@) =~= sort_entries(d, lens@, 0));
    }
    while k < n
        invariant
            k <= n,
            n == d.len(),
            d == dict@,
            dict.wf(),
            lens@.len() == n,
            ents_view(out@) == sort_entries(d, lens@, k as int),
        decreases n - k,
    {
        let (key, _f) = dict.entry_at(k);
        let key2 = copy_bytes(key);
        let le = lens[k];
        let ghost e = (key2@, le);
        let ghost cur = ents_view(out@);
        // find the insertion point
        let mut j: usize = 0;
        loop
            invariant
                j <= out@.len(),
                cur == ents_view(out@),
                key2@ == e.0,
                le == e.1,
                forall|i: int| 0 <= i < j ==> !ent_lt(e, #[trigger] cur[i]),
            ensures
                j <= out@.len(),
                forall|i: int| 0 <= i < j ==> !ent_lt(e, #[trigger] cur[i]),
                j < out@.len() ==> ent_lt(e, cur[j as int]),
            decreases out@.len() - j,
        {
            if j == out.len() {
                break ;
            }
            let oj_len = out[j].1;
            let less = if le < oj_len {
                true
            } else if le > oj_len {
                false
            } else {
                lex_cmp(&key2, &out[j].0) == -1
            };
            proof {
                assert(cur[j as int] == (out@[j as int].0@, out@[j as int].1));
                if le == oj_len && !less {
                    lemma_bytes_lt_trichotomy(key2@, out@[j as int].0@);
                    assert(!ent_lt(e, cur[j as int]));
                }
            }
            if less {
                break ;
            }
            proof {
                assert(!ent_lt(e, cur[j as int]));
            }
            j += 1;
        }
        let ghost pre = out@;
        out.insert(j, (key2, le));
        proof {
            lemma_sorted_insert_at(cur, e, j as int);
            assert(out@ == pre.insert(j as int, (
                // the inserted pair
                out@[j as int].0,
                le,
            ))) by {
                assert(out@[j as int].1 == le);
            }
            assert forall|i: int| 0 <= i < ents_view(out@).len() implies ents_view(out@)[i]
                == (cur.take(j as int) + seq![e] + cur.skip(j as int))[i] by {
                if i < j {
                    assert(out@[i] == pre[i]);
                } else if i == j {
                } else {
                    assert(out@[i] == pre[i - 1]);
                }
            }
            assert(ents_view(out@) =~= sorted_insert(cur, e));
            assert(sort_entries(d, lens@, k + 1) == sorted_insert(
                sort_entries(d, lens@, k as int),
                (d[k as int].0, lens@[k as int]),
            ));
            assert(e == (d[k as int].0, lens@[k as int]));
        }
        k += 1;
    }
    proof {
        assert(ents_view(out@) =~~= sort_entries(d, lens@, n as int));
    }
    out
}

/// `pow2` of an exponent up to 64, as a 128-bit word.
fn pow2_u128(k: u8) -> (r: u128)
    requires
        k <= 64,
    ensures
        r == pow2(k as nat),
{
    proof {
        vstd::arithmetic::power2::lemma2_to64();
        vstd::arithmetic::power2::lemma2_to64_rest();
    }
    let mut r: u128 = 1;
    let mut i: u8 = 0;
    while i < k
        invariant
            i <= k,
            k <= 64,
            r == pow2(i as nat),
        decreases k - i,
    {
        proof {
            vstd::arithmetic::power2::lemma_pow2_adds(i as nat, 1);
            vstd::arithmetic::power2::lemma_pow2_strictly_increases(i as nat, 64);
            vstd::arithmetic::power2::lemma2_to64();
            vstd::arithmetic::power2::lemma2_to64_rest();
        }
        r = r * 2;
        i += 1;
    }
    r
}

/// The coded-entry list as a ghost sequence.
pub open spec fn codes_view(v: Seq<(Vec<u8>, u8, u64)>) -> Seq<(Seq<u8>, u8, u64)> {
    Seq::new(v.len(), |i: int| (v[i].0@, v[i].1, v[i].2))
}

/// Assigns canonical code words to the sorted entries.
fn assign_codes(sorted: &Vec<(Vec<u8>, u8)>) -> (r: Result<Vec<(Vec<u8>, u8, u64)>, Error>)
    ensures
        ({
            let pr = codes_rec(ents_view(sorted@), sorted@.len() as int);
            match r {
                Ok(v) => pr matches Ok(es) && codes_view(v@) == es,
                Err(e) => pr matches Err(e2) && e == e2,
            }
        }),
{
    let ghost sv = ents_view(sorted@);
    let n = sorted.len();
    let mut out: Vec<(Vec<u8>, u8, u64)> = Vec::new();
    let mut k: usize = 0;
    let mut prev_len: u8 = 0;
    let mut prev_code: u64 = 0;
    proof {
        assert(codes_view(out@) =~= Seq::<(Seq<u8>, u8, u64)>::empty());
        assert(codes_rec(sv, 0) == Ok::<_, Error>(Seq::<(Seq<u8>, u8, u64)>::empty()));
    }
    while k < n
        invariant
            k <= n,
            n == sorted@.len(),
            sv == ents_view(sorted@),
            out@.len() == k,
            codes_rec(sv, k as int) == Ok::<_, Error>(codes_view(out@)),
            k > 0 ==> prev_len == codes_view(out@)[k - 1].1 && prev_code == codes_view(out@)[k
                - 1].2,
            k > 0 ==> (prev_code as nat) < pow2(prev_len as nat),
            k > 0 ==> 1 <= prev_len <= 64,
        decreases n - k,
    {
        let len_k = sorted[k].1;
        proof {
            assert(sv[k as int] == (sorted@[k as int].0@, sorted@[k as int].1));
            vstd::arithmetic::power2::lemma2_to64();
            vstd::arithmetic::power2::lemma2_to64_rest();
        }
        if len_k < 1 || len_k > 64 {
            proof {
                vstd::arithmetic::power2::lemma_pow2_pos(len_k as nat);
                assert(codes_rec(sv, k + 1) == Err::<Seq<(Seq<u8>, u8, u64)>, _>(
                    Error::HuffmanError,
                ));
                lemma_codes_rec_error(sv, k + 1, n as int);
            }
            return Err(Error::HuffmanError);
        }
        let c128: u128 = if k == 0 {
            0
        } else {
            if len_k < prev_len {
                proof {
                    vstd::arithmetic::power2::lemma2_to64();
                    vstd::arithmetic::power2::lemma2_to64_rest();
                    assert(pow2(len_k as nat) <= pow2(64)) by {
                        if (len_k as nat) < 64 {
                            vstd::arithmetic::power2::lemma_pow2_strictly_increases(
                                len_k as nat,
                                64,
                            );
                        }
                    }
                    assert(codes_rec(sv, k + 1) == Err::<Seq<(Seq<u8>, u8, u64)>, _>(
                        Error::HuffmanError,
                    ));
                    lemma_codes_rec_error(sv, k + 1, n as int);
                }
                return Err(Error::HuffmanError);
            }
            let diff = len_k - prev_len;
            let p = pow2_u128(diff);
            proof {
                vstd::arithmetic::power2::lemma_pow2_adds(prev_len as nat, diff as nat);
                vstd::arithmetic::mul::lemma_mul_inequality(
                    (prev_code + 1) as int,
                    pow2(prev_len as nat) as int,
                    p as int,
                );
                assert((prev_code + 1) * (p as nat) <= pow2(len_k as nat));
                assert(pow2(len_k as nat) <= pow2(64)) by {
                    if (len_k as nat) < 64 {
                        vstd::arithmetic::power2::lemma_pow2_strictly_increases(len_k as nat, 64);
                    }
                }
                vstd::arithmetic::power2::lemma2_to64();
                vstd::arithmetic::power2::lemma2_to64_rest();
            }
            ((prev_code as u128) + 1) * p
        };
        let plen = pow2_u128(len_k);
        if c128 >= plen {
            proof {
                assert(codes_rec(sv, k + 1) == Err::<Seq<(Seq<u8>, u8, u64)>, _>(
                    Error::HuffmanError,
                ));
                lemma_codes_rec_error(sv, k + 1, n as int);
            }
            return Err(Error::HuffmanError);
        }
        proof {
            vstd::arithmetic::power2::lemma_pow2_strictly_increases(len_k as nat, 65);
            vstd::arithmetic::power2::lemma2_to64();
            vstd::arithmetic::power2::lemma2_to64_rest();
            assert(pow2(len_k as nat) <= pow2(64)) by {
                if (len_k as nat) < 64 {
                    vstd::arithmetic::power2::lemma_pow2_strictly_increases(len_k as nat, 64);
                }
            }
        }
        let code = c128 as u64;
        let key2 = copy_bytes(&sorted[k].0);
        let ghost pre = codes_view(out@);
        out.push((key2, len_k, code));
        proof {
            assert forall|i: int| 0 <= i < codes_view(out@).len() implies codes_view(out@)[i]
                == pre.push((sv[k as int].0, len_k, code))[i] by {
                if i < k {
                    assert(out@[i] == old_out_at(out@, i));
                }
            }
            assert(codes_view(out@) =~= pre.push((sv[k as int].0, len_k, code)));
        }
        prev_len = len_k;
        prev_code = code;
        k += 1;
    }
    Ok(out)
}


/// Once code assignment fails, it stays failed for longer prefixes.
proof fn lemma_codes_rec_error(s: Seq<(Seq<u8>, u8)>, k: int, m: int)
    requires
        0 < k <= m <= s.len(),
        codes_rec(s, k) is Err,
    ensures
        codes_rec(s, m) == codes_rec(s, k),
    decreases m - k,
{
    if k < m {
        lemma_codes_rec_error(s, k + 1, m);
    }
}

/// A helper alias for indexing before a push.
spec fn old_out_at(v: Seq<(Vec<u8>, u8, u64)>, i: int) -> (Vec<u8>, u8, u64) {
    v[i]
}

/// The invariant of a built table: lengths in range and non-decreasing,
/// codes fitting their lengths, the first code zero, and each code the
/// previous plus one scaled to the next length.
pub open spec fn huff_wf(s: Seq<(Seq<u8>, u8, u64)>) -> bool {
    &&& forall|i: int|
        0 <= i < s.len() ==> 1 <= (#[trigger] s[i]).1 <= 64 && (s[i].2 as nat) < pow2(s[i].1 as nat)
    &&& forall|i: int|
        0 <= i < s.len() - 1 ==> (#[trigger] s[i]).1 <= s[i + 1].1 && s[i + 1].2 as nat == (s[i].2
            + 1) * pow2((s[i + 1].1 - s[i].1) as nat)
    &&& s.len() > 0 ==> s[0].2 == 0
}

/// Successful code assignment keeps keys and lengths in place and
/// yields a well-formed table.
proof fn lemma_codes_props(s: Seq<(Seq<u8>, u8)>, k: int)
    requires
        0 <= k <= s.len(),
        codes_rec(s, k) is Ok,
    ensures
        ({
            let es = codes_rec(s, k).unwrap();
            &&& es.len() == k
            &&& forall|i: int|
                0 <= i < k ==> (#[trigger] es[i]).0 == s[i].0 && es[i].1 == s[i].1
            &&& huff_wf(es)
        }),
    decreases k,
{
    if k > 0 {
        lemma_codes_rec_ok_prefix(s, k);
        lemma_codes_props(s, k - 1);
        vstd::arithmetic::power2::lemma2_to64();
        vstd::arithmetic::power2::lemma2_to64_rest();
        let acc = codes_rec(s, k - 1).unwrap();
        let es = codes_rec(s, k).unwrap();
        let len_k = s[k - 1].1;
        assert(1 <= len_k <= 64);
        assert(pow2(len_k as nat) <= pow2(64)) by {
            if (len_k as nat) < 64 {
                vstd::arithmetic::power2::lemma_pow2_strictly_increases(len_k as nat, 64);
            }
        }
        let c: nat = if k == 1 {
            0
        } else {
            if len_k < acc[k - 2].1 {
                pow2(64) + 1
            } else {
                ((acc[k - 2].2 + 1) * pow2((len_k - acc[k - 2].1) as nat)) as nat
            }
        };
        assert(c < pow2(len_k as nat));
        assert(es == acc.push((s[k - 1].0, len_k, c as u64)));
        assert((c as u64) as nat == c);
        assert(huff_wf(es)) by {
            assert(forall|i: int| 0 <= i < k - 1 ==> es[i] == acc[i]);
            assert(es[k - 1] == (s[k - 1].0, len_k, c as u64));
            if k >= 2 {
                assert(!(len_k < acc[k - 2].1));
                assert(es[k - 2] == acc[k - 2]);
            }
            assert forall|i: int|
                0 <= i < es.len() - 1 implies (#[trigger] es[i]).1 <= es[i + 1].1 && es[i
                + 1].2 as nat == (es[i].2 + 1) * pow2((es[i + 1].1 - es[i].1) as nat) by {
                if i < k - 2 {
                    assert(acc[i].1 <= acc[i + 1].1 && acc[i + 1].2 as nat == (acc[i].2 + 1)
                        * pow2((acc[i + 1].1 - acc[i].1) as nat));
                }
            }
        }
    }
}

/// A successful assignment has successful prefixes.
proof fn lemma_codes_rec_ok_prefix(s: Seq<(Seq<u8>, u8)>, k: int)
    requires
        0 < k <= s.len(),
        codes_rec(s, k) is Ok,
    ensures
        codes_rec(s, k - 1) is Ok,
{
}

/// The canonical Huffman coder: a code table over the dictionary's
/// keys, plus the longest code length for the decoder's walk.
pub struct HuffmanCodec {
    entries: Vec<(Vec<u8>, u8, u64)>,
    max_len: u8,
}

impl View for HuffmanCodec {
    type V = Seq<(Seq<u8>, u8, u64)>;

    /// The table: each key with its code length and MSB-first code.
    closed spec fn view(&self) -> Seq<(Seq<u8>, u8, u64)> {
        codes_view(self.entries@)
    }
}

/// Whether some table entry carries this key.
pub open spec fn huff_contains(s: Seq<(Seq<u8>, u8, u64)>, key: Seq<u8>) -> bool {
    exists|i: int| 0 <= i < s.len() && (#[trigger] s[i]).0 == key
}

impl HuffmanCodec {
    /// The coder's invariant.
    pub open spec fn wf(&self) -> bool {
        &&& huff_wf(self@)
        &&& self@.len() == 0 ==> self.spec_max_len() == 0
        &&& self@.len() > 0 ==> self.spec_max_len() == self@[self@.len() - 1].1
    }

    /// The longest code length, zero for an empty table.
    pub closed spec fn spec_max_len(&self) -> u8 {
        self.max_len
    }

    /// Builds the coder from a frequency table.  The resulting code is
    /// canonical: for every successful build the table is sorted by
    /// (length, key), the first code is zero, codes fit their lengths,
    /// a single key gets the one-bit code zero, and with two or more
    /// keys the lengths meet Kraft's inequality with equality.
    pub fn from_frequencies(dict: &KeyDict) -> (r: Result<HuffmanCodec, Error>)
        requires
            dict.wf(),
        ensures
            ({
                let pr = spec_huffman(dict@);
                match r {
                    Ok(c) => {
                        &&& pr matches Ok(es) && c@ == es
                        &&& c.wf()
                        &&& forall|key: Seq<u8>|
                            #[trigger] huff_contains(c@, key) <==> crate::dict::dict_contains(
                                dict@,
                                key,
                            )
                        &&& dict@.len() == 1 ==> c@ =~~= seq![(dict@[0].0, 1u8, 0u64)]
                        &&& dict@.len() >= 2 ==> kraft_rec(
                            sort_entries(dict@, spec_lens(dict@).unwrap(), dict@.len() as int),
                            c@[c@.len() - 1].1,
                            dict@.len() as int,
                        ) == pow2(c@[c@.len() - 1].1 as nat)
                    },
                    Err(e) => pr matches Err(e2) && e == e2,
                }
            }),
    {
        let ghost d = dict@;
        let n = dict.len();
        if n == 0 {
            let c = HuffmanCodec { entries: Vec::new(), max_len: 0 };
            proof {
                assert(c@ =~= Seq::<(Seq<u8>, u8, u64)>::empty());
            }
            return Ok(c);
        }
        let lens: Vec<u8> = if n == 1 {
            let mut l: Vec<u8> = Vec::new();
            l.push(1);
            proof {
                assert(l@ =~= seq![1u8]);
            }
            l
        } else {
            match build_lengths(dict) {
                Ok(l) => l,
                Err(e) => {
                    return Err(e);
                },
            }
        };
        let sorted = sort_dict_entries(dict, &lens);
        let ghost sv = ents_view(sorted@);
        proof {
            lemma_sort_entries_keys(d, lens@, d.len() as int);
        }
        let es = match assign_codes(&sorted) {
            Ok(es) => es,
            Err(e) => {
                return Err(e);
            },
        };
        proof {
            lemma_codes_props(sv, sv.len() as int);
        }
        let m = es.len();
        let max_len = es[m - 1].1;
        proof {
            assert(codes_view(es@)[m - 1].1 == es@[m - 1].1);
            assert forall|q: int| 0 <= q < sv.len() implies 1 <= (#[trigger] sv[q]).1
                <= max_len by {
                assert(codes_view(es@)[q].1 == sv[q].1);
                lemma_huff_lens_le_last(codes_view(es@), q);
            }
        }
        // the Kraft-equality gate
        if n >= 2 {
            if !kraft_check(&sorted, max_len) {
                return Err(Error::HuffmanError);
            }
        }
        let c = HuffmanCodec { entries: es, max_len };
        proof {
            assert(c@ == codes_view(es@));
            if d.len() == 1 {
                assert(sv.len() == 1);
                let l1: Seq<u8> = seq![1u8];
                assert(sort_entries(d, l1, 0) =~= Seq::<(Seq<u8>, u8)>::empty());
                assert(sort_entries(d, l1, 1) == sorted_insert(
                    sort_entries(d, l1, 0),
                    (d[0].0, l1[0]),
                ));
                assert(sorted_insert(Seq::<(Seq<u8>, u8)>::empty(), (d[0].0, 1u8)) =~= seq![
                    (d[0].0, 1u8),
                ]);
                assert(sv =~= seq![(d[0].0, 1u8)]);
                assert(c@ =~~= seq![(d[0].0, 1u8, 0u64)]);
            }
            assert forall|key: Seq<u8>| #[trigger] huff_contains(c@, key)
                <==> crate::dict::dict_contains(d, key) by {
                if huff_contains(c@, key) {
                    let i = choose|i: int| 0 <= i < c@.len() && (#[trigger] c@[i]).0 == key;
                    assert(sv[i].0 == key);
                    assert(ent_keys_contain(sv, key));
                }
                if crate::dict::dict_contains(d, key) {
                    assert(ent_keys_contain(sv, key));
                    let i = choose|i: int| 0 <= i < sv.len() && (#[trigger] sv[i]).0 == key;
                    assert(c@[i].0 == key);
                }
            }
        }
        Ok(c)
    }
}

/// In a well-formed table the last length is the longest.
pub proof fn lemma_huff_lens_le_last(s: Seq<(Seq<u8>, u8, u64)>, i: int)
    requires
        huff_wf(s),
        0 <= i < s.len(),
    ensures
        s[i].1 <= s[s.len() - 1].1,
    decreases s.len() - i,
{
    if i < s.len() - 1 {
        lemma_huff_lens_le_last(s, i + 1);
    }
}


/// Whether the lengths meet Kraft's inequality with equality: the sum
/// of `pow2(max_len - len)` over all entries equals `pow2(max_len)`.
fn kraft_check(sorted: &Vec<(Vec<u8>, u8)>, max_len: u8) -> (r: bool)
    requires
        max_len <= 64,
        forall|q: int|
            0 <= q < ents_view(sorted@).len() ==> 1 <= (#[trigger] ents_view(sorted@)[q]).1
                <= max_len,
    ensures
        r == (kraft_rec(ents_view(sorted@), max_len, sorted@.len() as int) == pow2(
            max_len as nat,
        )),
{
    let ghost sv = ents_view(sorted@);
    let m = sorted.len();
    let ptarget = pow2_u128(max_len);
    let mut acc: u128 = 0;
    let mut i: usize = 0;
    while i < m
        invariant
            i <= m,
            m == sorted@.len(),
            sv == ents_view(sorted@),
            max_len <= 64,
            forall|q: int| 0 <= q < sv.len() ==> 1 <= (#[trigger] sv[q]).1 <= max_len,
            acc == kraft_rec(sv, max_len, i as int),
            acc <= pow2(max_len as nat),
            ptarget == pow2(max_len as nat),
        decreases m - i,
    {
        let li = sorted[i].1;
        proof {
            assert(sv[i as int].1 == sorted@[i as int].1);
        }
        let term = pow2_u128(max_len - li);
        proof {
            assert(term <= pow2(max_len as nat)) by {
                if li > 0 && (max_len - li) as nat != max_len as nat {
                    vstd::arithmetic::power2::lemma_pow2_strictly_increases(
                        (max_len - li) as nat,
                        max_len as nat,
                    );
                }
            }
        }
        if acc > ptarget - term {
            proof {
                lemma_kraft_mono(sv, max_len, i + 1, m as int);
            }
            return false;
        }
        acc = acc + term;
        i += 1;
    }
    acc == ptarget
}

/// Partial Kraft sums only grow.
proof fn lemma_kraft_mono(s: Seq<(Seq<u8>, u8)>, maxlen: u8, k1: int, k2: int)
    requires
        0 <= k1 <= k2 <= s.len(),
    ensures
        kraft_rec(s, maxlen, k1) <= kraft_rec(s, maxlen, k2),
    decreases k2 - k1,
{
    if k1 < k2 {
        lemma_kraft_mono(s, maxlen, k1 + 1, k2);
    }
}

/// `pow2` of an exponent up to 63, as a 64-bit word.
fn pow2_u64(k: u8) -> (r: u64)
    requires
        k <= 63,
    ensures
        r == pow2(k as nat),
{
    proof {
        vstd::arithmetic::power2::lemma2_to64();
        vstd::arithmetic::power2::lemma2_to64_rest();
    }
    let mut r: u64 = 1;
    let mut i: u8 = 0;
    while i < k
        invariant
            i <= k,
            k <= 63,
            r == pow2(i as nat),
        decreases k - i,
    {
        proof {
            vstd::arithmetic::power2::lemma_pow2_adds(i as nat, 1);
            vstd::arithmetic::power2::lemma_pow2_strictly_increases(i as nat, 63);
            vstd::arithmetic::power2::lemma2_to64();
            vstd::arithmetic::power2::lemma2_to64_rest();
        }
        r = r * 2;
        i += 1;
    }
    r
}

/// The wire bits of a code word: MSB first, so the reader can walk the
/// canonical table one bit at a time.
pub open spec fn codeword_bits(code: u64, len: u8) -> Seq<bool> {
    Seq::new(len as nat, |t: int| ((code as nat / pow2((len - 1 - t) as nat)) % 2) == 1)
}

/// The first table index carrying `key`, or -1.
pub open spec fn huff_find(s: Seq<(Seq<u8>, u8, u64)>, n: int, key: Seq<u8>) -> int
    decreases n,
{
    if n <= 0 {
        -1
    } else if huff_find(s, n - 1, key) >= 0 {
        huff_find(s, n - 1, key)
    } else if s[n - 1].0 == key {
        n - 1
    } else {
        -1
    }
}

/// `huff_find` finds present keys and only them.
pub proof fn lemma_huff_find(s: Seq<(Seq<u8>, u8, u64)>, n: int, key: Seq<u8>)
    requires
        0 <= n <= s.len(),
    ensures
        huff_find(s, n, key) >= 0 ==> 0 <= huff_find(s, n, key) < n && s[huff_find(s, n, key)].0
            == key,
        huff_find(s, n, key) < 0 ==> forall|j: int| 0 <= j < n ==> (#[trigger] s[j]).0 != key,
    decreases n,
{
    if n > 0 {
        lemma_huff_find(s, n - 1, key);
    }
}

/// The wire bits of a present key's code word.
pub open spec fn key_bits(s: Seq<(Seq<u8>, u8, u64)>, key: Seq<u8>) -> Seq<bool> {
    let f = huff_find(s, s.len() as int, key);
    codeword_bits(s[f].2, s[f].1)
}

/// The first table index whose length is `t` and whose code is `acc`,
/// or -1.
pub open spec fn find_code(s: Seq<(Seq<u8>, u8, u64)>, n: int, t: nat, acc: nat) -> int
    decreases n,
{
    if n <= 0 {
        -1
    } else if find_code(s, n - 1, t, acc) >= 0 {
        find_code(s, n - 1, t, acc)
    } else if s[n - 1].1 == t && s[n - 1].2 == acc {
        n - 1
    } else {
        -1
    }
}

/// `find_code` finds matching entries and only them.
pub proof fn lemma_find_code(s: Seq<(Seq<u8>, u8, u64)>, n: int, t: nat, acc: nat)
    requires
        0 <= n <= s.len(),
    ensures
        find_code(s, n, t, acc) >= 0 ==> 0 <= find_code(s, n, t, acc) < n && s[find_code(
            s,
            n,
            t,
            acc,
        )].1 == t && s[find_code(s, n, t, acc)].2 == acc,
        find_code(s, n, t, acc) < 0 ==> forall|j: int|
            0 <= j < n ==> !((#[trigger] s[j]).1 == t && s[j].2 == acc),
    decreases n,
{
    if n > 0 {
        lemma_find_code(s, n - 1, t, acc);
    }
}

/// Walks the bits after `pos`, accumulating an MSB-first code, until a
/// table entry matches; fails after `maxlen` bits or at the end of the
/// stream.
pub open spec fn parse_key_rec(
    s: Seq<(Seq<u8>, u8, u64)>,
    maxlen: u8,
    bits: Seq<bool>,
    pos: int,
    t: u8,
    acc: nat,
) -> Result<(Seq<u8>, int), Error>
    decreases maxlen - t,
{
    if t >= maxlen {
        Err(Error::HuffmanError)
    } else if pos < 0 || pos >= bits.len() {
        Err(Error::OutOfBounds)
    } else {
        let acc2 = 2 * acc + (if bits[pos] {
            1nat
        } else {
            0nat
        });
        let f = find_code(s, s.len() as int, (t + 1) as nat, acc2);
        if f >= 0 {
            Ok((s[f].0, pos + 1))
        } else {
            parse_key_rec(s, maxlen, bits, pos + 1, (t + 1) as u8, acc2)
        }
    }
}

/// Parses one key code at `pos`.
pub open spec fn parse_key(s: Seq<(Seq<u8>, u8, u64)>, maxlen: u8, bits: Seq<bool>, pos: int) -> Result<
    (Seq<u8>, int),
    Error,
> {
    parse_key_rec(s, maxlen, bits, pos, 0, 0)
}

impl HuffmanCodec {
    /// The code word of a key, as (MSB-first code, length), when the
    /// key is in the table.
    pub fn try_get_code(&self, key: &Vec<u8>) -> (r: Option<(u64, u8)>)
        ensures
            ({
                let f = huff_find(self@, self@.len() as int, key@);
                match r {
                    Some(cl) => f >= 0 && cl.0 == self@[f].2 && cl.1 == self@[f].1,
                    None => f < 0,
                }
            }),
    {
        let ghost sv = self@;
        let n = self.entries.len();
        let mut i: usize = 0;
        proof {
            lemma_huff_find(sv, 0, key@);
        }
        while i < n
            invariant
                i <= n,
                n == sv.len(),
                sv == self@,
                huff_find(sv, i as int, key@) < 0,
            decreases n - i,
        {
            let c = lex_cmp(&self.entries[i].0, key);
            proof {
                assert(sv[i as int] == (self.entries@[i as int].0@, self.entries@[i as int].1,
                self.entries@[i as int].2));
            }
            if c == 0 {
                proof {
                    assert(huff_find(sv, i + 1, key@) == i);
                    lemma_huff_find_stable(sv, i + 1, sv.len() as int, key@);
                }
                return Some((self.entries[i].2, self.entries[i].1));
            }
            proof {
                lemma_bytes_lt_trichotomy(self.entries@[i as int].0@, key@);
                assert(huff_find(sv, i + 1, key@) < 0);
            }
            i += 1;
        }
        None
    }

    /// Writes a key's code word, MSB first; a key missing from the
    /// table is refused and nothing is written.
    pub fn write_key_code(&self, key: &Vec<u8>, writer: &mut BitWriter) -> (r: Result<(), Error>)
        requires
            self.wf(),
            old(writer).wf(),
        ensures
            final(writer).wf(),
            huff_contains(self@, key@) ==> r is Ok && final(writer)@ =~= old(writer)@ + key_bits(
                self@,
                key@,
            ),
            !huff_contains(self@, key@) ==> (r matches Err(e) && e == Error::HuffmanError
                && final(writer)@ == old(writer)@),
    {
        let ghost sv = self@;
        proof {
            lemma_huff_find(sv, sv.len() as int, key@);
        }
        let (code, len) = match self.try_get_code(key) {
            Some(cl) => cl,
            None => {
                proof {
                    assert(!huff_contains(sv, key@)) by {
                        if huff_contains(sv, key@) {
                            let i = choose|i: int|
                                0 <= i < sv.len() && (#[trigger] sv[i]).0 == key@;
                        }
                    }
                }
                return Err(Error::HuffmanError);
            },
        };
        let ghost f = huff_find(sv, sv.len() as int, key@);
        proof {
            assert(huff_contains(sv, key@)) by {
                assert(sv[f].0 == key@);
            }
            assert(1 <= len <= 64);
        }
        let ghost start = writer@;
        let mut t: u8 = 0;
        let mut p: u64 = pow2_u64(len - 1);
        while t < len
            invariant
                t <= len,
                1 <= len <= 64,
                writer.wf(),
                code == sv[f].2,
                len == sv[f].1,
                t < len ==> p == pow2((len - 1 - t) as nat),
                writer@ =~= start + codeword_bits(code, len).take(t as int),
            decreases len - t,
        {
            proof {
                vstd::arithmetic::power2::lemma_pow2_pos((len - 1 - t) as nat);
            }
            let bit = (code / p) % 2;
            writer.write_bits(bit, 1);
            proof {
                crate::bits::lemma_bits_of_one(bit as nat);
                assert(bits_of(bit as nat, 1) =~= seq![bit == 1]);
                assert(codeword_bits(code, len)[t as int] == (bit == 1));
                assert(codeword_bits(code, len).take(t + 1) =~= codeword_bits(code, len).take(
                    t as int,
                ).push(bit == 1));
                assert(writer@ =~= start + codeword_bits(code, len).take(t + 1));
            }
            t += 1;
            if t < len {
                proof {
                    vstd::arithmetic::power2::lemma_pow2_unfold((len - t) as nat);
                }
                p = p / 2;
            }
        }
        proof {
            assert(codeword_bits(code, len).take(len as int) =~= codeword_bits(code, len));
        }
        Ok(())
    }

    /// Reads one key code by walking the canonical table bit by bit.
    /// An exhausted stream gives `OutOfBounds`; a walk that leaves the
    /// table gives `HuffmanError` (in particular on an empty table).
    pub fn decode_key(&self, reader: &mut BitReader) -> (r: Result<Vec<u8>, Error>)
        requires
            self.wf(),
            old(reader).wf(),
        ensures
            final(reader).wf(),
            final(reader).bits() == old(reader).bits(),
            final(reader).pos() >= old(reader).pos(),
            ({
                let pr = parse_key(self@, self.spec_max_len(), old(reader).bits(),
                old(reader).pos() as int);
                match r {
                    Ok(k) => pr matches Ok((k2, p)) && k@ == k2 && final(reader).pos() == p,
                    Err(e) => pr matches Err(e2) && e == e2,
                }
            }),
    {
        let ghost sv = self@;
        let ghost all = reader.bits();
        let max_len = self.max_len;
        let mut t: u8 = 0;
        let mut acc: u64 = 0;
        proof {
            vstd::arithmetic::power2::lemma2_to64();
        }
        while t < max_len
            invariant
                reader.wf(),
                reader.bits() == all,
                all == old(reader).bits(),
                reader.pos() >= old(reader).pos(),
                sv == self@,
                self.wf(),
                max_len == self.spec_max_len(),
                t <= max_len,
                max_len <= 64,
                (acc as nat) < pow2(t as nat),
                parse_key(sv, max_len, all, old(reader).pos() as int) == parse_key_rec(
                    sv,
                    max_len,
                    all,
                    reader.pos() as int,
                    t,
                    acc as nat,
                ),
            decreases max_len - t,
        {
            let ghost pos0 = reader.pos() as int;
            let bit = match reader.read_bits(1) {
                Ok(v) => v,
                Err(e) => {
                    return Err(e);
                },
            };
            proof {
                assert(all.subrange(pos0, pos0 + 1) =~= seq![all[pos0]]);
                crate::bits::lemma_bits_value_single(all[pos0]);
                assert(bit as nat == (if all[pos0] {
                    1nat
                } else {
                    0nat
                }));
                vstd::arithmetic::power2::lemma_pow2_adds(t as nat, 1);
                vstd::arithmetic::power2::lemma2_to64();
                if (t as nat) < 63 {
                    vstd::arithmetic::power2::lemma_pow2_strictly_increases(t as nat, 63);
                }
                vstd::arithmetic::power2::lemma2_to64_rest();
            }
            let acc2 = acc * 2 + bit;
            match self.find_entry(t + 1, acc2) {
                Some(i) => {
                    let k = copy_bytes(&self.entries[i].0);
                    proof {
                        assert(sv[i as int].0 == self.entries@[i as int].0@);
                    }
                    return Ok(k);
                },
                None => {},
            }
            acc = acc2;
            t = t + 1;
        }
        if max_len == 0 {
            proof {
                assert(parse_key_rec(sv, max_len, all, reader.pos() as int, t, acc as nat)
                    == Err::<(Seq<u8>, int), _>(Error::HuffmanError));
            }
        }
        Err(Error::HuffmanError)
    }

    /// The first entry with this length and code.
    fn find_entry(&self, t: u8, acc: u64) -> (r: Option<usize>)
        ensures
            ({
                let f = find_code(self@, self@.len() as int, t as nat, acc as nat);
                match r {
                    Some(i) => f == i && i < self@.len(),
                    None => f < 0,
                }
            }),
    {
        let ghost sv = self@;
        let n = self.entries.len();
        let mut i: usize = 0;
        while i < n
            invariant
                i <= n,
                n == sv.len(),
                sv == self@,
                find_code(sv, i as int, t as nat, acc as nat) < 0,
            decreases n - i,
        {
            proof {
                assert(sv[i as int] == (self.entries@[i as int].0@, self.entries@[i as int].1,
                self.entries@[i as int].2));
            }
            if self.entries[i].1 == t && self.entries[i].2 == acc {
                proof {
                    assert(find_code(sv, i + 1, t as nat, acc as nat) == i);
                    lemma_find_code_stable(sv, i + 1, sv.len() as int, t as nat, acc as nat);
                }
                return Some(i);
            }
            proof {
                assert(find_code(sv, i + 1, t as nat, acc as nat) < 0);
            }
            i += 1;
        }
        None
    }
}

/// A found index stays the result for longer prefixes.
proof fn lemma_huff_find_stable(s: Seq<(Seq<u8>, u8, u64)>, n1: int, n2: int, key: Seq<u8>)
    requires
        0 < n1 <= n2 <= s.len(),
        huff_find(s, n1, key) >= 0,
    ensures
        huff_find(s, n2, key) == huff_find(s, n1, key),
    decreases n2 - n1,
{
    if n1 < n2 {
        lemma_huff_find_stable(s, n1 + 1, n2, key);
    }
}

/// A found code stays the result for longer prefixes.
proof fn lemma_find_code_stable(s: Seq<(Seq<u8>, u8, u64)>, n1: int, n2: int, t: nat, acc: nat)
    requires
        0 < n1 <= n2 <= s.len(),
        find_code(s, n1, t, acc) >= 0,
    ensures
        find_code(s, n2, t, acc) == find_code(s, n1, t, acc),
    decreases n2 - n1,
{
    if n1 < n2 {
        lemma_find_code_stable(s, n1 + 1, n2, t, acc);
    }
}

/// Canonical codes grow: a later code, scaled down to an earlier
/// entry's length, still exceeds that entry's code.
proof fn lemma_canonical_growth(s: Seq<(Seq<u8>, u8, u64)>, j: int, i: int)
    requires
        huff_wf(s),
        0 <= j < i < s.len(),
    ensures
        s[j].1 <= s[i].1,
        s[i].2 as nat >= (s[j].2 + 1) * pow2((s[i].1 - s[j].1) as nat),
    decreases i - j,
{
    if j + 1 == i {
        assert(s[i].2 as nat == (s[j].2 + 1) * pow2((s[i].1 - s[j].1) as nat));
    } else {
        lemma_canonical_growth(s, j, i - 1);
        let d1 = (s[i - 1].1 - s[j].1) as nat;
        let d2 = (s[i].1 - s[i - 1].1) as nat;
        let x: nat = (s[j].2 + 1) as nat;
        let a: nat = s[i - 1].2 as nat;
        assert(s[i].2 as nat == (a + 1) * pow2(d2));
        assert(a >= x * pow2(d1));
        assert((a + 1) * pow2(d2) >= (x * pow2(d1)) * pow2(d2)) by {
            vstd::arithmetic::mul::lemma_mul_inequality(
                (x * pow2(d1)) as int,
                (a + 1) as int,
                pow2(d2) as int,
            );
        }
        assert((x * pow2(d1)) * pow2(d2) == x * (pow2(d1) * pow2(d2))) by {
            vstd::arithmetic::mul::lemma_mul_is_associative(
                x as int,
                pow2(d1) as int,
                pow2(d2) as int,
            );
        }
        vstd::arithmetic::power2::lemma_pow2_adds(d1, d2);
        assert((d1 + d2) as nat == (s[i].1 - s[j].1) as nat);
    }
}

/// Walking a code word bit by bit recovers exactly its entry: no
/// other entry matches along the way, because canonical codes are
/// prefix-free.
#[verifier::spinoff_prover]
#[verifier::rlimit(60)]
proof fn lemma_key_roundtrip_rec(
    s: Seq<(Seq<u8>, u8, u64)>,
    maxlen: u8,
    bits: Seq<bool>,
    pos: int,
    i: int,
    t: u8,
)
    requires
        huff_wf(s),
        s.len() > 0,
        maxlen == s[s.len() - 1].1,
        0 <= i < s.len(),
        t < s[i].1,
        0 <= pos,
        pos + (s[i].1 - t) <= bits.len(),
        forall|k: int|
            0 <= k < s[i].1 - t ==> bits[pos + k] == #[trigger] codeword_bits(s[i].2, s[i].1)[t
                + k],
    ensures
        parse_key_rec(s, maxlen, bits, pos, t, (s[i].2 as nat) / pow2((s[i].1 - t) as nat))
            == Ok::<_, Error>((s[i].0, pos + (s[i].1 - t))),
    decreases s[i].1 - t,
{
    let len_i = s[i].1;
    let code = s[i].2 as nat;
    lemma_huff_lens_le_last(s, i);
    assert(t < maxlen);
    let acc = code / pow2((len_i - t) as nat);
    let bit = bits[pos];
    assert(bit == codeword_bits(s[i].2, len_i)[t as int]) by {
        assert(bits[pos + 0] == codeword_bits(s[i].2, len_i)[t + 0]);
    }
    assert(bit == ((code / pow2((len_i - 1 - t) as nat)) % 2 == 1));
    let q = code / pow2((len_i - t - 1) as nat);
    let acc2: nat = 2 * acc + (if bit {
        1nat
    } else {
        0nat
    });
    assert(acc2 == q) by {
        vstd::arithmetic::power2::lemma_pow2_pos((len_i - t - 1) as nat);
        vstd::arithmetic::power2::lemma_pow2_unfold((len_i - t) as nat);
        vstd::arithmetic::div_mod::lemma_div_denominator(
            code as int,
            pow2((len_i - t - 1) as nat) as int,
            2,
        );
        assert(q / 2 == code / pow2((len_i - t) as nat)) by {
            assert(pow2((len_i - t - 1) as nat) * 2 == pow2((len_i - t) as nat));
        }
        vstd::arithmetic::div_mod::lemma_fundamental_div_mod(q as int, 2);
        assert(q == 2 * (q / 2) + q % 2);
        assert((if bit {
            1nat
        } else {
            0nat
        }) == q % 2);
    }
    // no entry matches a strict prefix; the full code matches only i
    if t + 1 == len_i {
        assert(pow2(0) == 1) by {
            vstd::arithmetic::power2::lemma2_to64();
        }
        assert((len_i - t - 1) as nat == 0);
        vstd::arithmetic::div_mod::lemma_div_basics(code as int);
        assert(q == code / 1);
        assert(acc2 == code);
        let f = find_code(s, s.len() as int, (t + 1) as nat, acc2);
        lemma_find_code(s, s.len() as int, (t + 1) as nat, acc2);
        assert(s[i].1 == (t + 1) as nat && s[i].2 == acc2);
        assert(f >= 0);
        assert(f == i) by {
            vstd::arithmetic::power2::lemma2_to64();
            if f < i {
                lemma_canonical_growth(s, f, i);
                assert((s[i].1 - s[f].1) as nat == 0);
                assert(pow2(0) == 1);
                assert(s[i].2 as nat >= (s[f].2 + 1) * 1);
            } else if f > i {
                lemma_canonical_growth(s, i, f);
                assert((s[f].1 - s[i].1) as nat == 0);
                assert(pow2(0) == 1);
                assert(s[f].2 as nat >= (s[i].2 + 1) * 1);
            }
        }
        assert(find_code(
            s,
            s.len() as int,
            (t + 1) as nat,
            2 * acc + (if bits[pos] {
                1nat
            } else {
                0nat
            }),
        ) == i);
        lemma_parse_key_hits(s, maxlen, bits, pos, t, acc);
        assert(pos + (s[i].1 - t) == pos + 1);
    } else {
        let f = find_code(s, s.len() as int, (t + 1) as nat, acc2);
        lemma_find_code(s, s.len() as int, (t + 1) as nat, acc2);
        assert(f < 0) by {
            if f >= 0 {
                assert(s[f].1 == (t + 1) as nat && s[f].2 == acc2);
                assert(f != i);
                assert(f < i) by {
                    if f > i {
                        lemma_canonical_growth(s, i, f);
                    }
                }
                lemma_canonical_growth(s, f, i);
                let dd = (len_i - (t + 1)) as nat;
                assert(code >= (s[f].2 + 1) * pow2(dd));
                vstd::arithmetic::power2::lemma_pow2_pos(dd);
                assert(code / pow2(dd) >= s[f].2 + 1) by {
                    vstd::arithmetic::div_mod::lemma_div_multiples_vanish(
                        (s[f].2 + 1) as int,
                        pow2(dd) as int,
                    );
                    vstd::arithmetic::div_mod::lemma_div_is_ordered(
                        ((s[f].2 + 1) * pow2(dd)) as int,
                        code as int,
                        pow2(dd) as int,
                    );
                }
                assert(acc2 == code / pow2(dd));
            }
        }
        assert forall|k: int|
            0 <= k < s[i].1 - (t + 1) implies bits[pos + 1 + k] == #[trigger] codeword_bits(
            s[i].2,
            s[i].1,
        )[(t + 1) + k] by {
            assert(bits[pos + (k + 1)] == codeword_bits(s[i].2, s[i].1)[t + (k + 1)]);
        }
        lemma_key_roundtrip_rec(s, maxlen, bits, pos + 1, i, (t + 1) as u8);
        lemma_parse_key_steps(s, maxlen, bits, pos, t, acc);
    }
}

/// Reading right after writing a key's code word yields that key back
/// and stops right after the code.
pub proof fn lemma_key_roundtrip(
    s: Seq<(Seq<u8>, u8, u64)>,
    maxlen: u8,
    bits: Seq<bool>,
    pos: int,
    i: int,
)
    requires
        huff_wf(s),
        s.len() > 0,
        maxlen == s[s.len() - 1].1,
        0 <= i < s.len(),
        0 <= pos,
        pos + s[i].1 <= bits.len(),
        bits.subrange(pos, pos + s[i].1) =~= codeword_bits(s[i].2, s[i].1),
    ensures
        parse_key(s, maxlen, bits, pos) == Ok::<_, Error>((s[i].0, pos + s[i].1)),
{
    vstd::arithmetic::power2::lemma_pow2_pos(s[i].1 as nat);
    vstd::arithmetic::div_mod::lemma_basic_div(s[i].2 as int, pow2(s[i].1 as nat) as int);
    assert((s[i].2 as nat) / pow2((s[i].1 - 0) as nat) == 0);
    assert(forall|k: int|
        0 <= k < s[i].1 - 0 ==> bits[pos + k] == #[trigger] codeword_bits(s[i].2, s[i].1)[0 + k]);
    lemma_key_roundtrip_rec(s, maxlen, bits, pos, i, 0);
}

/// One successful step of the key parser, spelled out.
proof fn lemma_parse_key_hits(
    s: Seq<(Seq<u8>, u8, u64)>,
    maxlen: u8,
    bits: Seq<bool>,
    pos: int,
    t: u8,
    acc: nat,
)
    requires
        t < maxlen,
        0 <= pos < bits.len(),
        find_code(
            s,
            s.len() as int,
            (t + 1) as nat,
            2 * acc + (if bits[pos] {
                1nat
            } else {
                0nat
            }),
        ) >= 0,
    ensures
        ({
            let f = find_code(
                s,
                s.len() as int,
                (t + 1) as nat,
                2 * acc + (if bits[pos] {
                    1nat
                } else {
                    0nat
                }),
            );
            parse_key_rec(s, maxlen, bits, pos, t, acc) == Ok::<_, Error>((s[f].0, pos + 1))
        }),
{
}

/// One continuing step of the key parser, spelled out.
proof fn lemma_parse_key_steps(
    s: Seq<(Seq<u8>, u8, u64)>,
    maxlen: u8,
    bits: Seq<bool>,
    pos: int,
    t: u8,
    acc: nat,
)
    requires
        t < maxlen,
        0 <= pos < bits.len(),
        find_code(
            s,
            s.len() as int,
            (t + 1) as nat,
            2 * acc + (if bits[pos] {
                1nat
            } else {
                0nat
            }),
        ) < 0,
    ensures
        parse_key_rec(s, maxlen, bits, pos, t, acc) == parse_key_rec(
            s,
            maxlen,
            bits,
            pos + 1,
            (t + 1) as u8,
            2 * acc + (if bits[pos] {
                1nat
            } else {
                0nat
            }),
        ),
{
}

/// A parsed key code sits within the stream and takes at least one
/// bit.
pub proof fn lemma_parse_key_advances(
    s: Seq<(Seq<u8>, u8, u64)>,
    maxlen: u8,
    bits: Seq<bool>,
    pos: int,
    t: u8,
    acc: nat,
)
    ensures
        parse_key_rec(s, maxlen, bits, pos, t, acc) matches Ok((k, p)) ==> pos + 1 <= p
            <= bits.len(),
    decreases maxlen - t,
{
    if t < maxlen && 0 <= pos < bits.len() {
        lemma_parse_key_advances(
            s,
            maxlen,
            bits,
            pos + 1,
            (t + 1) as u8,
            2 * acc + (if bits[pos] {
                1nat
            } else {
                0nat
            }),
        );
    }
}

/// The canonical tie-break: among two table entries with equal code
/// length, the lexically smaller key carries the numerically smaller
/// MSB-first code word.
pub proof fn lemma_canonical_code_order(d: Seq<(Seq<u8>, u64)>, i: int, j: int)
    requires
        spec_huffman(d) is Ok,
        0 <= i < spec_huffman(d).unwrap().len(),
        0 <= j < spec_huffman(d).unwrap().len(),
        i != j,
        spec_huffman(d).unwrap()[i].1 == spec_huffman(d).unwrap()[j].1,
        bytes_lt(spec_huffman(d).unwrap()[i].0, spec_huffman(d).unwrap()[j].0),
    ensures
        spec_huffman(d).unwrap()[i].2 < spec_huffman(d).unwrap()[j].2,
{
    vstd::arithmetic::power2::lemma2_to64();
    let es = spec_huffman(d).unwrap();
    let lens = spec_lens(d).unwrap();
    let sorted = sort_entries(d, lens, d.len() as int);
    lemma_sort_entries_keys(d, lens, d.len() as int);
    lemma_codes_props(sorted, sorted.len() as int);
    assert(es[i].0 == sorted[i].0 && es[i].1 == sorted[i].1);
    assert(es[j].0 == sorted[j].0 && es[j].1 == sorted[j].1);
    assert(i < j) by {
        if j < i {
            lemma_ents_sorted_at(sorted, j, i);
            assert(!ent_lt(sorted[i], sorted[j]));
            lemma_bytes_lt_trichotomy(sorted[i].0, sorted[j].0);
        }
    }
    lemma_canonical_growth(es, i, j);
    assert(pow2((es[j].1 - es[i].1) as nat) == 1);
}

/// Sortedness of entry runs extends beyond neighbours.
proof fn lemma_ents_sorted_at(s: Seq<(Seq<u8>, u8)>, i: int, j: int)
    requires
        ents_sorted(s),
        0 <= i <= j < s.len(),
    ensures
        i < j ==> !ent_lt(s[j], s[i]),
    decreases j - i,
{
    if i < j {
        lemma_ents_sorted_at(s, i, j - 1);
        assert(!ent_lt(s[(j - 1) + 1], s[j - 1]));
        if ent_lt(s[j], s[i]) {
            lemma_ent_le_trans(s[i], s[j - 1], s[j]);
        }
    }
}

/// Non-strict entry order composes.
proof fn lemma_ent_le_trans(a: (Seq<u8>, u8), b: (Seq<u8>, u8), c: (Seq<u8>, u8))
    requires
        !ent_lt(b, a),
        !ent_lt(c, b),
    ensures
        !ent_lt(c, a),
{
    lemma_bytes_lt_trichotomy(a.0, b.0);
    lemma_bytes_lt_trichotomy(b.0, c.0);
    lemma_bytes_lt_trichotomy(a.0, c.0);
    if a.1 == b.1 && b.1 == c.1 && bytes_lt(c.0, a.0) {
        if bytes_lt(a.0, b.0) {
            lemma_bytes_lt_trans(c.0, a.0, b.0);
        }
        if bytes_lt(b.0, c.0) {
            lemma_bytes_lt_trans(a.0, b.0, c.0);
        }
    }
}

/// A checked bump never changes the length vector's length.
proof fn lemma_bump_len(lens: Seq<u8>, members: Seq<int>, k: int)
    ensures
        bump_checked(lens, members, k) matches Ok(l) ==> l.len() == lens.len(),
    decreases k,
{
    if k > 0 && k <= members.len() {
        lemma_bump_len(lens, members, k - 1);
    }
}

/// The length builder returns one length per key.
proof fn lemma_build_lens_len(active: Seq<(u64, int, Seq<int>)>, lens: Seq<u8>)
    ensures
        build_lens_rec(active, lens) matches Ok(l) ==> l.len() == lens.len(),
    decreases active.len(),
{
    if active.len() > 1 {
        lemma_argmin(active, active.len() as int);
        let i1 = argmin(active, active.len() as int);
        let a = active[i1];
        let rest1 = active.remove(i1);
        lemma_argmin(rest1, rest1.len() as int);
        let i2 = argmin(rest1, rest1.len() as int);
        let b = rest1[i2];
        let rest2 = rest1.remove(i2);
        assert(rest2.push((if a.0 + b.0 > u64::MAX {
            u64::MAX as u64
        } else {
            (a.0 + b.0) as u64
        }, if a.1 <= b.1 {
            a.1
        } else {
            b.1
        }, a.2 + b.2)).len() == active.len() - 1);
        lemma_bump_len(lens, a.2, a.2.len() as int);
        if bump_checked(lens, a.2, a.2.len() as int) is Ok {
            let lens1 = bump_checked(lens, a.2, a.2.len() as int).unwrap();
            lemma_bump_len(lens1, b.2, b.2.len() as int);
            if bump_checked(lens1, b.2, b.2.len() as int) is Ok {
                let lens2 = bump_checked(lens1, b.2, b.2.len() as int).unwrap();
                let freq = if a.0 + b.0 > u64::MAX {
                    u64::MAX as u64
                } else {
                    (a.0 + b.0) as u64
                };
                let min_idx = if a.1 <= b.1 {
                    a.1
                } else {
                    b.1
                };
                lemma_build_lens_len(rest2.push((freq, min_idx, a.2 + b.2)), lens2);
            }
        }
    }
}

/// Successful length building yields one length per dictionary key.
pub proof fn lemma_spec_lens_len(d: Seq<(Seq<u8>, u64)>)
    requires
        spec_lens(d) is Ok,
    ensures
        spec_lens(d).unwrap().len() == d.len(),
{
    if d.len() != 1 {
        lemma_build_lens_len(
            Seq::new(d.len(), |i: int| (d[i].1, i, seq![i])),
            Seq::new(d.len(), |j: int| 0u8),
        );
    }
}

/// A built table carries exactly the dictionary's keys.
pub proof fn lemma_spec_huffman_keys(d: Seq<(Seq<u8>, u64)>)
    requires
        spec_huffman(d) is Ok,
    ensures
        forall|k: Seq<u8>|
            #[trigger] huff_contains(spec_huffman(d).unwrap(), k)
                <==> crate::dict::dict_contains(d, k),
{
    let es = spec_huffman(d).unwrap();
    if d.len() == 0 {
        assert(es =~= Seq::<(Seq<u8>, u8, u64)>::empty());
        assert forall|k: Seq<u8>| #[trigger] huff_contains(es, k) <==> crate::dict::dict_contains(
            d,
            k,
        ) by {
            if huff_contains(es, k) {
                let i = choose|i: int| 0 <= i < es.len() && (#[trigger] es[i]).0 == k;
            }
            if crate::dict::dict_contains(d, k) {
                let i = choose|i: int| 0 <= i < d.len() && (#[trigger] d[i]).0 == k;
            }
        }
    } else {
        let lens = spec_lens(d).unwrap();
        lemma_spec_lens_len(d);
        let sorted = sort_entries(d, lens, d.len() as int);
        lemma_sort_entries_keys(d, lens, d.len() as int);
        lemma_codes_props(sorted, sorted.len() as int);
        assert forall|k: Seq<u8>| #[trigger] huff_contains(es, k) <==> crate::dict::dict_contains(
            d,
            k,
        ) by {
            if huff_contains(es, k) {
                let i = choose|i: int| 0 <= i < es.len() && (#[trigger] es[i]).0 == k;
                assert(sorted[i].0 == k);
                assert(ent_keys_contain(sorted, k));
            }
            if crate::dict::dict_contains(d, k) {
                assert(ent_keys_contain(sorted, k));
                let i = choose|i: int| 0 <= i < sorted.len() && (#[trigger] sorted[i]).0 == k;
                assert(es[i].0 == k);
            }
        }
    }
}

/// A built table is well formed.
pub proof fn lemma_spec_huffman_wf(d: Seq<(Seq<u8>, u64)>)
    requires
        spec_huffman(d) is Ok,
    ensures
        huff_wf(spec_huffman(d).unwrap()),
        spec_huffman(d).unwrap().len() == d.len(),
{
    if d.len() == 0 {
        assert(spec_huffman(d).unwrap() =~= Seq::<(Seq<u8>, u8, u64)>::empty());
    } else {
        let lens = spec_lens(d).unwrap();
        lemma_spec_lens_len(d);
        let sorted = sort_entries(d, lens, d.len() as int);
        lemma_sort_entries_keys(d, lens, d.len() as int);
        lemma_codes_props(sorted, sorted.len() as int);
    }
}

} // verus!
