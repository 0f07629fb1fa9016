//! Candidate generation: bucket rows by chunk key; every two rows of a
//! bucket form a candidate pair.

use vstd::prelude::*;

use crate::outside::{
    KeyBuckets, key_buckets, BytesBuckets, bytes_buckets, filed_under, table_capacity_ok,
    u128_from_le_bytes,
};
use crate::bitspec::{
    le_value, lemma_le_value_zero_pad, lemma_le_value_bound, lemma_pow256_16,
    lemma_le_value_injective,
};
use crate::extract::{extract_bits, extract_bits_at, bit_range_key, positions_key};
use crate::rows::{
    row_of, self_candidates, cross_candidates, lemma_row_in_bounds, byte_chunk_filter,
    bit_chunk_filter, position_chunk_filter,
};

verus! {

/// The pair `(min(x, y), max(x, y))`.
pub open spec fn ordered(x: u32, y: u32) -> (u32, u32) {
    if x < y {
        (x, y)
    } else {
        (y, x)
    }
}

/// The id lists behind a list of references.
pub open spec fn lists_view(lists: Seq<&Vec<u32>>) -> Seq<Seq<u32>> {
    Seq::new(lists.len(), |l: int| lists[l]@)
}

/// `t` pairs two entries at different places of one of the lists.
pub open spec fn emitted_by(lists: Seq<Seq<u32>>, t: (u32, u32)) -> bool {
    exists|l: int, a: int, b: int|
        0 <= l < lists.len() && 0 <= a < b < lists[l].len() && t == ordered(
            #[trigger] lists[l][a],
            #[trigger] lists[l][b],
        )
}

/// What `emit_pairs` appends to `old`: exactly the pairs of entries at
/// different places of one list, each as `(min, max)`.
pub open spec fn emits(lists: Seq<Seq<u32>>, old: Seq<(u32, u32)>, new: Seq<(u32, u32)>) -> bool {
    &&& old.len() <= new.len()
    &&& new.subrange(0, old.len() as int) == old
    &&& forall|idx: int| old.len() <= idx < new.len() ==> emitted_by(lists, #[trigger] new[idx])
    &&& forall|l: int, a: int, b: int|
        0 <= l < lists.len() && 0 <= a < b < lists[l].len() ==> new.contains(
            ordered(#[trigger] lists[l][a], #[trigger] lists[l][b]),
        )
}

/// The pairs of entry `a` of `s` with its entries `a + 1 .. upto`, in
/// order, each as `(min, max)`.
pub open spec fn pairs_from(s: Seq<u32>, a: int, upto: int) -> Seq<(u32, u32)> {
    if upto <= a + 1 {
        seq![]
    } else {
        Seq::new((upto - a - 1) as nat, |t: int| ordered(s[a], s[a + 1 + t]))
    }
}

/// The pairs of the entries `0 .. upto` of `s` with the entries after
/// them: entry 0 with each later one, then entry 1, and so on.
pub open spec fn list_pairs(s: Seq<u32>, upto: int) -> Seq<(u32, u32)>
    decreases upto,
{
    if upto <= 0 {
        seq![]
    } else {
        list_pairs(s, upto - 1) + pairs_from(s, upto - 1, s.len() as int)
    }
}

/// The pairs of the first `upto` lists, list after list.
pub open spec fn all_pairs(lists: Seq<Seq<u32>>, upto: int) -> Seq<(u32, u32)>
    decreases upto,
{
    if upto <= 0 {
        seq![]
    } else {
        all_pairs(lists, upto - 1) + list_pairs(lists[upto - 1], lists[upto - 1].len() as int)
    }
}

/// For every bucket with at least two ids, append every pair of its ids as
/// `(min, max)` to `out`: list after list, and within a list each entry
/// with the entries after it.
pub(crate) fn emit_pairs(lists: &Vec<&Vec<u32>>, out: &mut Vec<(u32, u32)>)
    ensures
        final(out)@ == old(out)@ + all_pairs(lists_view(lists@), lists@.len() as int),
        emits(lists_view(lists@), old(out)@, final(out)@),
{
    let ghost lv = lists_view(lists@);
    let ghost start = out@;
    let nl = lists.len();
    let mut l: usize = 0;
    while l < nl
        invariant
            nl == lists@.len(),
            lv == lists_view(lists@),
            l <= nl,
            out@ == start + all_pairs(lv, l as int),
            start.len() <= out@.len(),
            out@.subrange(0, start.len() as int) == start,
            forall|idx: int| start.len() <= idx < out@.len() ==> emitted_by(lv, #[trigger] out@[idx]),
            forall|l2: int, a: int, b: int|
                0 <= l2 < l && 0 <= a < b < lv[l2].len() ==> out@.contains(
                    ordered(#[trigger] lv[l2][a], #[trigger] lv[l2][b]),
                ),
        decreases nl - l,
    {
        let idxs = lists[l];
        assert(idxs@ == lv[l as int]);
        let len = idxs.len();
        if len >= 2 {
            let mut a: usize = 0;
            while a < len
                invariant
                    nl == lists@.len(),
                    lv == lists_view(lists@),
                    l < nl,
                    idxs@ == lv[l as int],
                    len == idxs@.len(),
                    a <= len,
                    out@ == start + all_pairs(lv, l as int) + list_pairs(lv[l as int], a as int),
                    start.len() <= out@.len(),
                    out@.subrange(0, start.len() as int) == start,
                    forall|idx: int| start.len() <= idx < out@.len() ==> emitted_by(lv, #[trigger] out@[idx]),
                    forall|l2: int, a2: int, b: int|
                        0 <= l2 < l && 0 <= a2 < b < lv[l2].len() ==> out@.contains(
                            ordered(#[trigger] lv[l2][a2], #[trigger] lv[l2][b]),
                        ),
                    forall|a2: int, b: int|
                        0 <= a2 < a && a2 < b < len ==> out@.contains(
                            ordered(#[trigger] lv[l as int][a2], #[trigger] lv[l as int][b]),
                        ),
                decreases len - a,
            {
                let ia = idxs[a];
                let mut b: usize = a + 1;
                while b < len
                    invariant
                        nl == lists@.len(),
                        lv == lists_view(lists@),
                        l < nl,
                        idxs@ == lv[l as int],
                        len == idxs@.len(),
                        a < len,
                        ia == lv[l as int][a as int],
                        a < b <= len,
                        out@ == start + all_pairs(lv, l as int) + list_pairs(lv[l as int], a as int)
                            + pairs_from(lv[l as int], a as int, b as int),
                        start.len() <= out@.len(),
                        out@.subrange(0, start.len() as int) == start,
                        forall|idx: int| start.len() <= idx < out@.len() ==> emitted_by(lv, #[trigger] out@[idx]),
                        forall|l2: int, a2: int, b2: int|
                            0 <= l2 < l && 0 <= a2 < b2 < lv[l2].len() ==> out@.contains(
                                ordered(#[trigger] lv[l2][a2], #[trigger] lv[l2][b2]),
                            ),
                        forall|a2: int, b2: int|
                            0 <= a2 < a && a2 < b2 < len ==> out@.contains(
                                ordered(#[trigger] lv[l as int][a2], #[trigger] lv[l as int][b2]),
                            ),
                        forall|b2: int|
                            a < b2 < b ==> out@.contains(ordered(ia, #[trigger] lv[l as int][b2])),
                    decreases len - b,
                {
                    let ib = idxs[b];
                    let pair = if ia < ib {
                        (ia, ib)
                    } else {
                        (ib, ia)
                    };
                    let ghost before = out@;
                    out.push(pair);
                    proof {
                        assert(pairs_from(lv[l as int], a as int, b + 1) =~= pairs_from(
                            lv[l as int],
                            a as int,
                            b as int,
                        ).push(pair));
                        assert(out@ =~= start + all_pairs(lv, l as int) + list_pairs(lv[l as int], a as int)
                            + pairs_from(lv[l as int], a as int, b + 1));
                        assert(out@[out@.len() - 1] == pair);
                        assert(emitted_by(lv, pair)) by {
                            assert(pair == ordered(lv[l as int][a as int], lv[l as int][b as int]));
                        }
                        assert forall|x: (u32, u32)| before.contains(x) implies out@.contains(x) by {
                            let i0 = choose|i0: int| 0 <= i0 < before.len() && before[i0] == x;
                            assert(out@[i0] == x);
                        }
                        assert(out@.subrange(0, start.len() as int) =~= start) by {
                            assert(before.subrange(0, start.len() as int) == start);
                        }
                        assert forall|idx: int| start.len() <= idx < out@.len() implies emitted_by(
                            lv,
                            #[trigger] out@[idx],
                        ) by {
                            if idx < before.len() {
                                assert(out@[idx] == before[idx]);
                            }
                        }
                    }
                    b = b + 1;
                }
                proof {
                    assert(list_pairs(lv[l as int], a + 1) == list_pairs(lv[l as int], a as int)
                        + pairs_from(lv[l as int], a as int, len as int));
                    assert(out@ =~= start + all_pairs(lv, l as int) + list_pairs(lv[l as int], a + 1));
                }
                a = a + 1;
            }
        }
        proof {
            if len < 2 {
                lemma_list_pairs_short(lv[l as int], len as int);
            }
            assert(all_pairs(lv, l + 1) == all_pairs(lv, l as int) + list_pairs(lv[l as int], len as int));
            assert(out@ =~= start + all_pairs(lv, l + 1));
        }
        proof {
            if len < 2 {
                assert forall|l2: int, a2: int, b: int|
                    0 <= l2 < l + 1 && 0 <= a2 < b < lv[l2].len() implies out@.contains(
                        ordered(#[trigger] lv[l2][a2], #[trigger] lv[l2][b]),
                    ) by {
                    assert(l2 < l);
                }
            }
        }
        l = l + 1;
    }
}

/// A list of fewer than two entries has no pairs.
proof fn lemma_list_pairs_short(s: Seq<u32>, upto: int)
    requires
        s.len() < 2,
        upto <= s.len(),
    ensures
        list_pairs(s, upto) == Seq::<(u32, u32)>::empty(),
    decreases upto,
{
    if upto > 0 {
        lemma_list_pairs_short(s, upto - 1);
        assert(list_pairs(s, upto) =~= Seq::<(u32, u32)>::empty());
    }
}

/// Bucket `m` files each of the first `i` rows under its key `key(r)`, in a
/// list of distinct row ids that all carry that key.
pub open spec fn files_rows<K>(m: Map<K, Seq<u32>>, key: spec_fn(int) -> K, i: int) -> bool {
    &&& m.dom().finite()
    &&& m.dom().len() <= i
    &&& forall|kk: K| #[trigger] m.dom().contains(kk) ==> m[kk].no_duplicates()
    &&& forall|kk: K, t: int|
        m.dom().contains(kk) && 0 <= t < m[kk].len() ==> (#[trigger] m[kk][t]) < i && key(
            m[kk][t] as int,
        ) == kk
    &&& forall|r: int| 0 <= r < i ==> m.dom().contains(#[trigger] key(r)) && m[key(r)].contains(r as u32)
}

/// Filing row `i` keeps `files_rows`.
pub proof fn lemma_files_rows_step<K>(m: Map<K, Seq<u32>>, key: spec_fn(int) -> K, i: int)
    requires
        files_rows(m, key, i),
        0 <= i <= u32::MAX,
    ensures
        files_rows(filed_under(m, key(i), i as u32), key, i + 1),
{
    let kk0 = key(i);
    let m2 = filed_under(m, kk0, i as u32);
    assert(m2.dom() =~= m.dom().insert(kk0));
    assert(m2.dom().len() <= i + 1);
    assert forall|kk: K| #[trigger] m2.dom().contains(kk) implies m2[kk].no_duplicates() by {
        if kk == kk0 && m.dom().contains(kk0) {
            assert forall|t1: int, t2: int|
                0 <= t1 < m2[kk].len() && 0 <= t2 < m2[kk].len() && t1 != t2 implies m2[kk][t1]
                != m2[kk][t2] by {
                if t1 < m[kk].len() && t2 < m[kk].len() {
                } else if t1 < m[kk].len() {
                    assert(m[kk][t1] < i);
                } else {
                    assert(m[kk][t2] < i);
                }
            }
        }
    }
    assert forall|kk: K, t: int|
        m2.dom().contains(kk) && 0 <= t < m2[kk].len() implies (#[trigger] m2[kk][t]) < i + 1
        && key(m2[kk][t] as int) == kk by {
        if kk == kk0 && m.dom().contains(kk0) && t < m[kk].len() {
            assert(m2[kk][t] == m[kk][t]);
        }
    }
    assert forall|r: int| 0 <= r < i + 1 implies m2.dom().contains(#[trigger] key(r))
        && m2[key(r)].contains(r as u32) by {
        if r < i {
            if key(r) == kk0 {
                let t = choose|t: int| 0 <= t < m[kk0].len() && m[kk0][t] == r as u32;
                assert(m2[kk0][t] == r as u32);
            }
        } else {
            if m.dom().contains(kk0) {
                assert(m2[kk0][m[kk0].len() as int] == i as u32);
            } else {
                assert(m2[kk0][0] == i as u32);
            }
        }
    }
}

/// The lists cover exactly the buckets of `m`.
pub open spec fn lists_cover<K>(m: Map<K, Seq<u32>>, lists: Seq<Seq<u32>>) -> bool {
    &&& forall|l: int|
        #![trigger lists[l]]
        0 <= l < lists.len() ==> exists|kk: K| #[trigger] m.dom().contains(kk) && lists[l] == m[kk]
    &&& forall|kk: K| #[trigger] m.dom().contains(kk) ==> exists|l: int| 0 <= l < lists.len() && lists[l] == m[kk]
}

/// `keys` names, in order and each once, the keys of `m` whose id lists
/// are `lists`.
pub open spec fn keys_of_lists<K>(m: Map<K, Seq<u32>>, lists: Seq<Seq<u32>>, keys: Seq<K>) -> bool {
    &&& keys.len() == lists.len()
    &&& keys.no_duplicates()
    &&& forall|l: int| 0 <= l < lists.len() ==> m.dom().contains(#[trigger] keys[l]) && lists[l] == m[keys[l]]
}

/// Each list is the list of a different key of `m`.
pub open spec fn lists_once<K>(m: Map<K, Seq<u32>>, lists: Seq<Seq<u32>>) -> bool {
    exists|keys: Seq<K>| #[trigger] keys_of_lists(m, lists, keys)
}

/// `e` pairs an entry of `s` below `upto` with a later entry.
pub open spec fn pair_of_list(s: Seq<u32>, upto: int, e: (u32, u32)) -> bool {
    exists|a: int, b: int| 0 <= a < upto && a < b < s.len() && e == #[trigger] ordered(s[a], s[b])
}

/// `e` pairs two entries of one of the lists below `upto`.
pub open spec fn pair_of_lists(lists: Seq<Seq<u32>>, upto: int, e: (u32, u32)) -> bool {
    exists|l: int, a: int, b: int|
        0 <= l < upto && 0 <= a < b < lists[l].len() && e == #[trigger] ordered(lists[l][a], lists[l][b])
}

/// Every pair of `list_pairs(s, upto)` pairs an entry below `upto` with a
/// later one.
proof fn lemma_list_pairs_members(s: Seq<u32>, upto: int)
    requires
        0 <= upto <= s.len(),
    ensures
        forall|idx: int| 0 <= idx < list_pairs(s, upto).len() ==> pair_of_list(s, upto, #[trigger] list_pairs(s, upto)[idx]),
    decreases upto,
{
    if upto > 0 {
        lemma_list_pairs_members(s, upto - 1);
        let prev = list_pairs(s, upto - 1);
        let q = pairs_from(s, upto - 1, s.len() as int);
        assert forall|idx: int| 0 <= idx < list_pairs(s, upto).len() implies pair_of_list(s, upto, #[trigger] list_pairs(s, upto)[idx]) by {
            if idx < prev.len() {
                assert(list_pairs(s, upto)[idx] == prev[idx]);
                assert(pair_of_list(s, upto - 1, prev[idx]));
                let (a, b) = choose|a: int, b: int| 0 <= a < upto - 1 && a < b < s.len() && prev[idx] == #[trigger] ordered(s[a], s[b]);
                assert(list_pairs(s, upto)[idx] == ordered(s[a], s[b]));
            } else {
                let t = idx - prev.len();
                assert(list_pairs(s, upto)[idx] == q[t]);
                let b = upto + t;
                assert(q[t] == ordered(s[upto - 1], s[b]));
            }
        }
    }
}

/// The pairs of a list without repeats come once each.
proof fn lemma_list_pairs_once(s: Seq<u32>, upto: int)
    requires
        s.no_duplicates(),
        0 <= upto <= s.len(),
    ensures
        list_pairs(s, upto).no_duplicates(),
    decreases upto,
{
    if upto > 0 {
        let c = upto - 1;
        lemma_list_pairs_once(s, c);
        lemma_list_pairs_members(s, c);
        let prev = list_pairs(s, c);
        let q = pairs_from(s, c, s.len() as int);
        assert(q.no_duplicates()) by {
            assert forall|t1: int, t2: int| 0 <= t1 < q.len() && 0 <= t2 < q.len() && t1 != t2 implies q[t1] != q[t2] by {
                assert(s[c + 1 + t1] != s[c + 1 + t2]);
                assert(s[c] != s[c + 1 + t1]);
                assert(s[c] != s[c + 1 + t2]);
            }
        }
        assert forall|i: int, j: int| 0 <= i < prev.len() && 0 <= j < q.len() implies prev[i] != q[j] by {
            assert(pair_of_list(s, c, prev[i]));
            let (a, b) = choose|a: int, b: int| 0 <= a < c && a < b < s.len() && prev[i] == #[trigger] ordered(s[a], s[b]);
            assert(q[j] == ordered(s[c], s[c + 1 + j]));
            assert(s[a] != s[c] && s[a] != s[c + 1 + j]);
        }
        vstd::seq_lib::lemma_no_dup_in_concat(prev, q);
    }
}

/// Every pair of `all_pairs(lists, upto)` pairs two entries of one list
/// below `upto`.
proof fn lemma_all_pairs_members(lists: Seq<Seq<u32>>, upto: int)
    requires
        0 <= upto <= lists.len(),
    ensures
        forall|idx: int| 0 <= idx < all_pairs(lists, upto).len() ==> pair_of_lists(lists, upto, #[trigger] all_pairs(lists, upto)[idx]),
    decreases upto,
{
    if upto > 0 {
        let l0 = upto - 1;
        lemma_all_pairs_members(lists, l0);
        let s = lists[l0];
        lemma_list_pairs_members(s, s.len() as int);
        let prev = all_pairs(lists, l0);
        let q = list_pairs(s, s.len() as int);
        assert forall|idx: int| 0 <= idx < all_pairs(lists, upto).len() implies pair_of_lists(lists, upto, #[trigger] all_pairs(lists, upto)[idx]) by {
            if idx < prev.len() {
                assert(all_pairs(lists, upto)[idx] == prev[idx]);
                assert(pair_of_lists(lists, l0, prev[idx]));
                let (l, a, b) = choose|l: int, a: int, b: int|
                    0 <= l < l0 && 0 <= a < b < lists[l].len() && prev[idx] == #[trigger] ordered(lists[l][a], lists[l][b]);
                assert(all_pairs(lists, upto)[idx] == ordered(lists[l][a], lists[l][b]));
            } else {
                let t = idx - prev.len();
                assert(all_pairs(lists, upto)[idx] == q[t]);
                assert(pair_of_list(s, s.len() as int, q[t]));
                let (a, b) = choose|a: int, b: int| 0 <= a < s.len() && a < b < s.len() && q[t] == #[trigger] ordered(s[a], s[b]);
                assert(all_pairs(lists, upto)[idx] == ordered(lists[l0][a], lists[l0][b]));
            }
        }
    }
}

/// Lists without repeats that share no id give every pair once.
proof fn lemma_all_pairs_once(lists: Seq<Seq<u32>>, upto: int)
    requires
        0 <= upto <= lists.len(),
        forall|l: int| 0 <= l < lists.len() ==> (#[trigger] lists[l]).no_duplicates(),
        forall|l1: int, l2: int, x: u32|
            0 <= l1 < lists.len() && 0 <= l2 < lists.len() && l1 != l2 && #[trigger] lists[l1].contains(x)
                ==> !#[trigger] lists[l2].contains(x),
    ensures
        all_pairs(lists, upto).no_duplicates(),
    decreases upto,
{
    if upto > 0 {
        let l0 = upto - 1;
        lemma_all_pairs_once(lists, l0);
        lemma_all_pairs_members(lists, l0);
        let s = lists[l0];
        lemma_list_pairs_once(s, s.len() as int);
        lemma_list_pairs_members(s, s.len() as int);
        let prev = all_pairs(lists, l0);
        let q = list_pairs(s, s.len() as int);
        assert forall|i: int, j: int| 0 <= i < prev.len() && 0 <= j < q.len() implies prev[i] != q[j] by {
            assert(pair_of_lists(lists, l0, prev[i]));
            assert(pair_of_list(s, s.len() as int, q[j]));
            let (l, a, b) = choose|l: int, a: int, b: int|
                0 <= l < l0 && 0 <= a < b < lists[l].len() && prev[i] == #[trigger] ordered(lists[l][a], lists[l][b]);
            let (a2, b2) = choose|a2: int, b2: int| 0 <= a2 < s.len() && a2 < b2 < s.len() && q[j] == #[trigger] ordered(s[a2], s[b2]);
            if prev[i] == q[j] {
                let x = lists[l][a];
                assert(lists[l].contains(x));
                assert(x == s[a2] || x == s[b2]);
                assert(s.contains(x));
                assert(lists[l0].contains(x));
            }
        }
        vstd::seq_lib::lemma_no_dup_in_concat(prev, q);
    }
}

/// Pairing up the buckets of a map that files rows by `key`, each bucket
/// once, gives every pair once.
pub proof fn lemma_bucket_pairs_once<K>(m: Map<K, Seq<u32>>, key: spec_fn(int) -> K, n: int, lists: Seq<Seq<u32>>)
    requires
        files_rows(m, key, n),
        lists_once(m, lists),
    ensures
        all_pairs(lists, lists.len() as int).no_duplicates(),
{
    let keys = choose|keys: Seq<K>| #[trigger] keys_of_lists(m, lists, keys);
    assert forall|l: int| 0 <= l < lists.len() implies (#[trigger] lists[l]).no_duplicates() by {
        assert(m.dom().contains(keys[l]));
    }
    assert forall|l1: int, l2: int, x: u32|
        0 <= l1 < lists.len() && 0 <= l2 < lists.len() && l1 != l2 && #[trigger] lists[l1].contains(x)
            implies !#[trigger] lists[l2].contains(x) by {
        assert(m.dom().contains(keys[l1]) && m.dom().contains(keys[l2]));
        assert(keys[l1] != keys[l2]);
        if lists[l2].contains(x) {
            let t1 = choose|t: int| 0 <= t < lists[l1].len() && lists[l1][t] == x;
            let t2 = choose|t: int| 0 <= t < lists[l2].len() && lists[l2][t] == x;
            assert(key(m[keys[l1]][t1] as int) == keys[l1]);
            assert(key(m[keys[l2]][t2] as int) == keys[l2]);
        }
    }
    lemma_all_pairs_once(lists, lists.len() as int);
}

/// Pairing up every bucket of a map that files `n` rows by `key` yields the
/// candidate pairs `i < j < n` with equal keys.
pub proof fn lemma_bucket_pairs<K>(
    m: Map<K, Seq<u32>>,
    key: spec_fn(int) -> K,
    n: int,
    lists: Seq<Seq<u32>>,
    out: Seq<(u32, u32)>,
    mf: spec_fn(int, int) -> bool,
)
    requires
        forall|i: int, j: int| 0 <= i < n && 0 <= j < n ==> #[trigger] mf(i, j) == (key(i) == key(j)),
        files_rows(m, key, n),
        n <= u32::MAX + 1,
        lists_cover(m, lists),
        emits(lists, seq![], out),
    ensures
        self_candidates(out, n, mf),
{
    assert forall|idx: int| 0 <= idx < out.len() implies (#[trigger] out[idx]).0 < out[idx].1 < n
        && mf(out[idx].0 as int, out[idx].1 as int) by {
        assert(emitted_by(lists, out[idx]));
        let (l, a, b) = choose|l: int, a: int, b: int|
            0 <= l < lists.len() && 0 <= a < b < lists[l].len() && out[idx] == ordered(
                #[trigger] lists[l][a],
                #[trigger] lists[l][b],
            );
        let kk = choose|kk: K| #[trigger] m.dom().contains(kk) && lists[l] == m[kk];
        assert(m[kk][a] != m[kk][b]);
        assert(m[kk][a] < n && key(m[kk][a] as int) == kk);
        assert(m[kk][b] < n && key(m[kk][b] as int) == kk);
    }
    assert forall|i: int, j: int|
        0 <= i < j < n && #[trigger] mf(i, j) implies out.contains(
        (i as u32, j as u32),
    ) by {
        let kk = key(i);
        assert(m.dom().contains(key(i)) && m[key(i)].contains(i as u32));
        assert(m.dom().contains(key(j)) && m[key(j)].contains(j as u32));
        let a = choose|a: int| 0 <= a < m[kk].len() && m[kk][a] == i as u32;
        let b = choose|b: int| 0 <= b < m[kk].len() && m[kk][b] == j as u32;
        let l = choose|l: int| 0 <= l < lists.len() && lists[l] == m[kk];
        assert(a != b);
        if a < b {
            assert(out.contains(ordered(lists[l][a], lists[l][b])));
        } else {
            assert(out.contains(ordered(lists[l][b], lists[l][a])));
        }
    }
}

/// Build the candidate pairs for one bit-level chunk position: the pairs
/// `i < j < n` whose rows have the same key for bits `[lo_bit, hi_bit)`,
/// each listed once.
pub(crate) fn candidates_for_bit_chunk(data: &[u8], n: usize, d_bytes: usize, lo_bit: usize, hi_bit: usize) -> (out: Vec<(u32, u32)>)
    requires
        data@.len() == n * d_bytes,
        n <= u32::MAX + 1,
        table_capacity_ok(n as int),
        lo_bit <= hi_bit <= 8 * d_bytes,
        hi_bit - lo_bit <= 128,
    ensures
        self_candidates(
            out@,
            n as int,
            bit_chunk_filter(data@, data@, d_bytes as int, (lo_bit, hi_bit)),
        ),
        out@.no_duplicates(),
{
    let ghost key = |r: int| bit_range_key(row_of(data@, d_bytes as int, r), lo_bit as int, hi_bit as int);
    let mut out: Vec<(u32, u32)> = Vec::new();
    let mut buckets = KeyBuckets::with_capacity(n);
    let total = data.len();
    let mut i: usize = 0;
    proof {
        assert(files_rows(key_buckets(buckets), key, 0));
    }
    while i < n
        invariant
            data@.len() == n * d_bytes,
            total == data@.len(),
            n <= u32::MAX + 1,
            table_capacity_ok(n as int),
            lo_bit <= hi_bit <= 8 * d_bytes,
            hi_bit - lo_bit <= 128,
            i <= n,
            key == (|r: int| bit_range_key(row_of(data@, d_bytes as int, r), lo_bit as int, hi_bit as int)),
            files_rows(key_buckets(buckets), key, i as int),
        decreases n - i,
    {
        proof {
            lemma_row_in_bounds(n as int, d_bytes as int, i as int);
        }
        let row = &data[i * d_bytes..i * d_bytes + d_bytes];
        assert(row@ == row_of(data@, d_bytes as int, i as int));
        let k = extract_bits(row, lo_bit, hi_bit);
        proof {
            lemma_files_rows_step(key_buckets(buckets), key, i as int);
        }
        buckets.file(k, i as u32);
        i = i + 1;
    }
    let lists = buckets.lists();
    emit_pairs(&lists, &mut out);
    proof {
        let mf = bit_chunk_filter(data@, data@, d_bytes as int, (lo_bit, hi_bit));
        lemma_bucket_pairs(key_buckets(buckets), key, n as int, lists_view(lists@), out@, mf);
            lemma_bucket_pairs_once(key_buckets(buckets), key, n as int, lists_view(lists@));
            assert(out@ =~= seq![] + all_pairs(lists_view(lists@), lists@.len() as int));
    }
    out
}

/// The `u128` key of a chunk of at most 16 bytes: its little-endian value.
pub open spec fn short_key(chunk: Seq<u8>) -> u128 {
    le_value(chunk) as u128
}

/// Two chunks of the same length of at most 16 bytes have the same short
/// key exactly when they are equal.
pub proof fn lemma_short_key(c1: Seq<u8>, c2: Seq<u8>)
    requires
        c1.len() == c2.len() <= 16,
    ensures
        (short_key(c1) == short_key(c2)) == (c1 == c2),
        le_value(c1) <= u128::MAX,
{
    lemma_le_value_bound(c1);
    lemma_le_value_bound(c2);
    lemma_pow256_16();
    lemma_pow256_mono(c1.len(), 16);
    if short_key(c1) == short_key(c2) {
        lemma_le_value_injective(c1, c2);
    }
}

proof fn lemma_pow256_mono(a: nat, b: nat)
    requires
        a <= b,
    ensures
        crate::bitspec::pow256(a) <= crate::bitspec::pow256(b),
    decreases b - a,
{
    if a < b {
        lemma_pow256_mono(a, (b - 1) as nat);
    }
}

/// The 16-byte little-endian buffer holding `chunk` in its low bytes and
/// zeros above.
fn short_key_of(chunk: &[u8]) -> (key: u128)
    requires
        chunk@.len() <= 16,
    ensures
        key == short_key(chunk@),
{
    let chunk_len = chunk.len();
    let mut buf = [0u8; 16];
    let mut t: usize = 0;
    while t < chunk_len
        invariant
            chunk_len == chunk@.len() <= 16,
            t <= chunk_len,
            forall|u: int| 0 <= u < t ==> buf@[u] == chunk@[u],
            forall|u: int| t <= u < 16 ==> buf@[u] == 0,
        decreases chunk_len - t,
    {
        buf[t] = chunk[t];
        t = t + 1;
    }
    let ghost zeros = Seq::new((16 - chunk_len) as nat, |u: int| 0u8);
    assert(buf@ =~= chunk@ + zeros);
    let key = u128_from_le_bytes(buf);
    proof {
        lemma_le_value_zero_pad(chunk@, zeros);
        lemma_short_key(chunk@, chunk@);
    }
    key
}

/// Build candidate pairs for one byte chunk position: the pairs `i < j < n`
/// whose rows carry the same bytes in `[lo, hi)`, each listed once. Chunks
/// of at most 16 bytes are keyed by their little-endian `u128` value, longer
/// ones by their bytes.
pub(crate) fn candidates_for_chunk(data: &[u8], n: usize, d_bytes: usize, lo: usize, hi: usize) -> (out: Vec<(u32, u32)>)
    requires
        data@.len() == n * d_bytes,
        n <= u32::MAX + 1,
        table_capacity_ok(n as int),
        lo <= hi <= d_bytes,
    ensures
        self_candidates(
            out@,
            n as int,
            byte_chunk_filter(data@, data@, d_bytes as int, (lo, hi)),
        ),
        out@.no_duplicates(),
{
    let chunk_len = hi - lo;
    let mut out: Vec<(u32, u32)> = Vec::new();
    let total = data.len();
    let ghost mf = byte_chunk_filter(data@, data@, d_bytes as int, (lo, hi));
    if chunk_len <= 16 {
        let ghost key = |r: int| short_key(row_of(data@, d_bytes as int, r).subrange(lo as int, hi as int));
        let mut buckets = KeyBuckets::with_capacity(n);
        let mut i: usize = 0;
        while i < n
            invariant
                data@.len() == n * d_bytes,
                total == data@.len(),
                n <= u32::MAX + 1,
                table_capacity_ok(n as int),
                lo <= hi <= d_bytes,
                chunk_len == hi - lo <= 16,
                i <= n,
                key == (|r: int| short_key(row_of(data@, d_bytes as int, r).subrange(lo as int, hi as int))),
                files_rows(key_buckets(buckets), key, i as int),
            decreases n - i,
        {
            proof {
                lemma_row_in_bounds(n as int, d_bytes as int, i as int);
            }
            let row = &data[i * d_bytes..i * d_bytes + d_bytes];
            assert(row@ == row_of(data@, d_bytes as int, i as int));
            let k = short_key_of(&row[lo..hi]);
            proof {
                lemma_files_rows_step(key_buckets(buckets), key, i as int);
            }
            buckets.file(k, i as u32);
            i = i + 1;
        }
        let lists = buckets.lists();
        emit_pairs(&lists, &mut out);
        proof {
            assert forall|i: int, j: int| 0 <= i < n && 0 <= j < n implies #[trigger] mf(i, j) == (key(i) == key(j)) by {
                lemma_row_in_bounds(n as int, d_bytes as int, i);
                lemma_row_in_bounds(n as int, d_bytes as int, j);
                lemma_short_key(
                    row_of(data@, d_bytes as int, i).subrange(lo as int, hi as int),
                    row_of(data@, d_bytes as int, j).subrange(lo as int, hi as int),
                );
            }
            lemma_bucket_pairs(key_buckets(buckets), key, n as int, lists_view(lists@), out@, mf);
            lemma_bucket_pairs_once(key_buckets(buckets), key, n as int, lists_view(lists@));
            assert(out@ =~= seq![] + all_pairs(lists_view(lists@), lists@.len() as int));
        }
    } else {
        let ghost key = |r: int| row_of(data@, d_bytes as int, r).subrange(lo as int, hi as int);
        let mut buckets = BytesBuckets::with_capacity(n);
        let mut i: usize = 0;
        while i < n
            invariant
                data@.len() == n * d_bytes,
                total == data@.len(),
                n <= u32::MAX + 1,
                table_capacity_ok(n as int),
                lo <= hi <= d_bytes,
                i <= n,
                key == (|r: int| row_of(data@, d_bytes as int, r).subrange(lo as int, hi as int)),
                files_rows(bytes_buckets(buckets), key, i as int),
            decreases n - i,
        {
            proof {
                lemma_row_in_bounds(n as int, d_bytes as int, i as int);
            }
            let row = &data[i * d_bytes..i * d_bytes + d_bytes];
            assert(row@ == row_of(data@, d_bytes as int, i as int));
            proof {
                lemma_files_rows_step(bytes_buckets(buckets), key, i as int);
            }
            buckets.file(&row[lo..hi], i as u32);
            i = i + 1;
        }
        let lists = buckets.lists();
        emit_pairs(&lists, &mut out);
        proof {
            lemma_bucket_pairs(bytes_buckets(buckets), key, n as int, lists_view(lists@), out@, mf);
            lemma_bucket_pairs_once(bytes_buckets(buckets), key, n as int, lists_view(lists@));
            assert(out@ =~= seq![] + all_pairs(lists_view(lists@), lists@.len() as int));
        }
    }
    out
}

/// Pushing an element that is not yet present keeps a sequence free of
/// duplicates.
pub proof fn lemma_push_no_dups<T>(s: Seq<T>, x: T)
    requires
        s.no_duplicates(),
        !s.contains(x),
    ensures
        s.push(x).no_duplicates(),
{
    let p = s.push(x);
    assert forall|a: int, b: int| 0 <= a < p.len() && 0 <= b < p.len() && a != b implies p[a] != p[b] by {
        if a < s.len() && b < s.len() {
            assert(p[a] == s[a] && p[b] == s[b]);
        } else if a < s.len() {
            assert(p[a] == s[a]);
        } else {
            assert(p[b] == s[b]);
        }
    }
}

/// Appending keeps every member and adds the new one.
pub proof fn lemma_push_contains<T>(s: Seq<T>, x: T)
    ensures
        s.push(x).contains(x),
        forall|y: T| s.contains(y) ==> #[trigger] s.push(x).contains(y),
{
    assert(s.push(x)[s.len() as int] == x);
    assert forall|y: T| s.contains(y) implies #[trigger] s.push(x).contains(y) by {
        let i = choose|i: int| 0 <= i < s.len() && s[i] == y;
        assert(s.push(x)[i] == y);
    }
}

/// Build candidate pairs for one chunk of bit positions: the pairs
/// `i < j < n` whose rows have the same key for those positions, each
/// listed once.
pub(crate) fn candidates_for_position_chunk(data: &[u8], n: usize, d_bytes: usize, positions: &[usize]) -> (out: Vec<(u32, u32)>)
    requires
        data@.len() == n * d_bytes,
        n <= u32::MAX + 1,
        table_capacity_ok(n as int),
        positions@.len() <= 128,
        forall|j: int| 0 <= j < positions@.len() ==> #[trigger] positions@[j] < 8 * d_bytes,
    ensures
        self_candidates(
            out@,
            n as int,
            position_chunk_filter(data@, data@, d_bytes as int, positions@),
        ),
        out@.no_duplicates(),
{
    let ghost key = |r: int| positions_key(row_of(data@, d_bytes as int, r), positions@, 0);
    let mut buckets = KeyBuckets::with_capacity(n);
    let total = data.len();
    let mut i: usize = 0;
    while i < n
        invariant
            data@.len() == n * d_bytes,
            total == data@.len(),
            n <= u32::MAX + 1,
            table_capacity_ok(n as int),
            positions@.len() <= 128,
            forall|j: int| 0 <= j < positions@.len() ==> #[trigger] positions@[j] < 8 * d_bytes,
            i <= n,
            key == (|r: int| positions_key(row_of(data@, d_bytes as int, r), positions@, 0)),
            files_rows(key_buckets(buckets), key, i as int),
        decreases n - i,
    {
        proof {
            lemma_row_in_bounds(n as int, d_bytes as int, i as int);
        }
        let row = &data[i * d_bytes..i * d_bytes + d_bytes];
        assert(row@ == row_of(data@, d_bytes as int, i as int));
        let k = extract_bits_at(row, positions);
        proof {
            lemma_files_rows_step(key_buckets(buckets), key, i as int);
        }
        buckets.file(k, i as u32);
        i = i + 1;
    }
    let lists = buckets.lists();
    let mut out: Vec<(u32, u32)> = Vec::new();
    emit_pairs(&lists, &mut out);
    proof {
        let mf = position_chunk_filter(data@, data@, d_bytes as int, positions@);
        lemma_bucket_pairs(key_buckets(buckets), key, n as int, lists_view(lists@), out@, mf);
            lemma_bucket_pairs_once(key_buckets(buckets), key, n as int, lists_view(lists@));
            assert(out@ =~= seq![] + all_pairs(lists_view(lists@), lists@.len() as int));
    }
    out
}

/// For one byte chunk position, bucket the rows of `a` by their chunk bytes
/// and look up every row of `b`: the pairs `(i, j)` whose rows carry the
/// same bytes in `[lo, hi)`, each listed once.
pub(crate) fn candidates_for_chunk_cross(
    a_data: &[u8],
    n_a: usize,
    b_data: &[u8],
    n_b: usize,
    d_bytes: usize,
    lo: usize,
    hi: usize,
) -> (out: Vec<(u32, u32)>)
    requires
        a_data@.len() == n_a * d_bytes,
        b_data@.len() == n_b * d_bytes,
        n_a <= u32::MAX + 1,
        n_b <= u32::MAX + 1,
        table_capacity_ok(n_a as int),
        lo <= hi <= d_bytes,
    ensures
        cross_candidates(
            out@,
            n_a as int,
            n_b as int,
            byte_chunk_filter(a_data@, b_data@, d_bytes as int, (lo, hi)),
        ),
        out@.no_duplicates(),
{
    let chunk_len = hi - lo;
    let mut out: Vec<(u32, u32)> = Vec::new();
    let a_total = a_data.len();
    let b_total = b_data.len();
    let ghost mf = byte_chunk_filter(a_data@, b_data@, d_bytes as int, (lo, hi));
    if chunk_len <= 16 {
        let ghost key_a = |r: int| short_key(row_of(a_data@, d_bytes as int, r).subrange(lo as int, hi as int));
        let ghost key_b = |r: int| short_key(row_of(b_data@, d_bytes as int, r).subrange(lo as int, hi as int));
        let mut a_buckets = KeyBuckets::with_capacity(n_a);
        let mut i: usize = 0;
        while i < n_a
            invariant
                a_data@.len() == n_a * d_bytes,
                a_total == a_data@.len(),
                n_a <= u32::MAX + 1,
                table_capacity_ok(n_a as int),
                lo <= hi <= d_bytes,
                chunk_len == hi - lo <= 16,
                i <= n_a,
                key_a == (|r: int| short_key(row_of(a_data@, d_bytes as int, r).subrange(lo as int, hi as int))),
                files_rows(key_buckets(a_buckets), key_a, i as int),
            decreases n_a - i,
        {
            proof {
                lemma_row_in_bounds(n_a as int, d_bytes as int, i as int);
            }
            let row = &a_data[i * d_bytes..i * d_bytes + d_bytes];
            assert(row@ == row_of(a_data@, d_bytes as int, i as int));
            let k = short_key_of(&row[lo..hi]);
            proof {
                lemma_files_rows_step(key_buckets(a_buckets), key_a, i as int);
            }
            a_buckets.file(k, i as u32);
            i = i + 1;
        }
        let ghost ma = key_buckets(a_buckets);
        let mut j: usize = 0;
        while j < n_b
            invariant
                a_data@.len() == n_a * d_bytes,
                b_data@.len() == n_b * d_bytes,
                b_total == b_data@.len(),
                n_a <= u32::MAX + 1,
                n_b <= u32::MAX + 1,
                lo <= hi <= d_bytes,
                chunk_len == hi - lo <= 16,
                j <= n_b,
                ma == key_buckets(a_buckets),
                key_a == (|r: int| short_key(row_of(a_data@, d_bytes as int, r).subrange(lo as int, hi as int))),
                key_b == (|r: int| short_key(row_of(b_data@, d_bytes as int, r).subrange(lo as int, hi as int))),
                mf == byte_chunk_filter(a_data@, b_data@, d_bytes as int, (lo, hi)),
                files_rows(ma, key_a, n_a as int),
                forall|idx: int|
                    0 <= idx < out@.len() ==> (#[trigger] out@[idx]).0 < n_a && out@[idx].1 < j && mf(
                        out@[idx].0 as int,
                        out@[idx].1 as int,
                    ),
                forall|i2: int, j2: int|
                    0 <= i2 < n_a && 0 <= j2 < j && #[trigger] mf(i2, j2) ==> out@.contains(
                        (i2 as u32, j2 as u32),
                    ),
                out@.no_duplicates(),
            decreases n_b - j,
        {
            proof {
                lemma_row_in_bounds(n_b as int, d_bytes as int, j as int);
            }
            let row = &b_data[j * d_bytes..j * d_bytes + d_bytes];
            assert(row@ == row_of(b_data@, d_bytes as int, j as int));
            let k = short_key_of(&row[lo..hi]);
            proof {
                assert forall|i2: int| 0 <= i2 < n_a implies #[trigger] mf(i2, j as int) == (key_a(i2) == k) by {
                    lemma_row_in_bounds(n_a as int, d_bytes as int, i2);
                    lemma_short_key(
                        row_of(a_data@, d_bytes as int, i2).subrange(lo as int, hi as int),
                        row_of(b_data@, d_bytes as int, j as int).subrange(lo as int, hi as int),
                    );
                }
            }
            let found = a_buckets.get(k);
            match found {
                Some(v) => {
                    append_matches(v, j as u32, &mut out, Ghost(ma), Ghost(key_a), Ghost(k), Ghost(n_a as int), Ghost(mf));
                },
                None => {
                    proof {
                        assert forall|i2: int, j2: int|
                            0 <= i2 < n_a && 0 <= j2 < j + 1 && #[trigger] mf(i2, j2) implies out@.contains(
                            (i2 as u32, j2 as u32),
                        ) by {
                            if j2 == j {
                                assert(ma.dom().contains(key_a(i2)));
                            }
                        }
                    }
                },
            }
            j = j + 1;
        }
    } else {
        let ghost key_a = |r: int| row_of(a_data@, d_bytes as int, r).subrange(lo as int, hi as int);
        let mut a_buckets = BytesBuckets::with_capacity(n_a);
        let mut i: usize = 0;
        while i < n_a
            invariant
                a_data@.len() == n_a * d_bytes,
                a_total == a_data@.len(),
                n_a <= u32::MAX + 1,
                table_capacity_ok(n_a as int),
                lo <= hi <= d_bytes,
                i <= n_a,
                key_a == (|r: int| row_of(a_data@, d_bytes as int, r).subrange(lo as int, hi as int)),
                files_rows(bytes_buckets(a_buckets), key_a, i as int),
            decreases n_a - i,
        {
            proof {
                lemma_row_in_bounds(n_a as int, d_bytes as int, i as int);
            }
            let row = &a_data[i * d_bytes..i * d_bytes + d_bytes];
            assert(row@ == row_of(a_data@, d_bytes as int, i as int));
            proof {
                lemma_files_rows_step(bytes_buckets(a_buckets), key_a, i as int);
            }
            a_buckets.file(&row[lo..hi], i as u32);
            i = i + 1;
        }
        let ghost ma = bytes_buckets(a_buckets);
        let mut j: usize = 0;
        while j < n_b
            invariant
                a_data@.len() == n_a * d_bytes,
                b_data@.len() == n_b * d_bytes,
                b_total == b_data@.len(),
                n_a <= u32::MAX + 1,
                n_b <= u32::MAX + 1,
                lo <= hi <= d_bytes,
                j <= n_b,
                ma == bytes_buckets(a_buckets),
                key_a == (|r: int| row_of(a_data@, d_bytes as int, r).subrange(lo as int, hi as int)),
                mf == byte_chunk_filter(a_data@, b_data@, d_bytes as int, (lo, hi)),
                files_rows(ma, key_a, n_a as int),
                forall|idx: int|
                    0 <= idx < out@.len() ==> (#[trigger] out@[idx]).0 < n_a && out@[idx].1 < j && mf(
                        out@[idx].0 as int,
                        out@[idx].1 as int,
                    ),
                forall|i2: int, j2: int|
                    0 <= i2 < n_a && 0 <= j2 < j && #[trigger] mf(i2, j2) ==> out@.contains(
                        (i2 as u32, j2 as u32),
                    ),
                out@.no_duplicates(),
            decreases n_b - j,
        {
            proof {
                lemma_row_in_bounds(n_b as int, d_bytes as int, j as int);
            }
            let row = &b_data[j * d_bytes..j * d_bytes + d_bytes];
            assert(row@ == row_of(b_data@, d_bytes as int, j as int));
            let key = &row[lo..hi];
            let found = a_buckets.get(key);
            match found {
                Some(v) => {
                    append_matches(v, j as u32, &mut out, Ghost(ma), Ghost(key_a), Ghost(key@), Ghost(n_a as int), Ghost(mf));
                },
                None => {
                    proof {
                        assert forall|i2: int, j2: int|
                            0 <= i2 < n_a && 0 <= j2 < j + 1 && #[trigger] mf(i2, j2) implies out@.contains(
                            (i2 as u32, j2 as u32),
                        ) by {
                            if j2 == j {
                                assert(ma.dom().contains(key_a(i2)));
                            }
                        }
                    }
                },
            }
            j = j + 1;
        }
    }
    out
}

/// Append `(ai, j)` for every id `ai` in the bucket `v` that `m` files under
/// `key`: the rows of the first corpus that match row `j` of the second.
fn append_matches<K>(
    v: &Vec<u32>,
    j: u32,
    out: &mut Vec<(u32, u32)>,
    Ghost(m): Ghost<Map<K, Seq<u32>>>,
    Ghost(key_a): Ghost<spec_fn(int) -> K>,
    Ghost(key): Ghost<K>,
    Ghost(n_a): Ghost<int>,
    Ghost(mf): Ghost<spec_fn(int, int) -> bool>,
)
    requires
        files_rows(m, key_a, n_a),
        m.dom().contains(key),
        v@ == m[key],
        forall|i2: int| 0 <= i2 < n_a ==> #[trigger] mf(i2, j as int) == (key_a(i2) == key),
        forall|idx: int|
            0 <= idx < old(out)@.len() ==> (#[trigger] old(out)@[idx]).0 < n_a && old(out)@[idx].1
                < j && mf(old(out)@[idx].0 as int, old(out)@[idx].1 as int),
        forall|i2: int, j2: int|
            0 <= i2 < n_a && 0 <= j2 < j && #[trigger] mf(i2, j2) ==> old(out)@.contains(
                (i2 as u32, j2 as u32),
            ),
        old(out)@.no_duplicates(),
    ensures
        forall|idx: int|
            0 <= idx < final(out)@.len() ==> (#[trigger] final(out)@[idx]).0 < n_a && final(out)@[idx].1
                < j + 1 && mf(final(out)@[idx].0 as int, final(out)@[idx].1 as int),
        forall|i2: int, j2: int|
            0 <= i2 < n_a && 0 <= j2 < j + 1 && #[trigger] mf(i2, j2) ==> final(out)@.contains(
                (i2 as u32, j2 as u32),
            ),
        final(out)@.no_duplicates(),
{
    let len = v.len();
    let mut t: usize = 0;
    while t < len
        invariant
            len == v@.len(),
            t <= len,
            files_rows(m, key_a, n_a),
            m.dom().contains(key),
            v@ == m[key],
            forall|i2: int| 0 <= i2 < n_a ==> #[trigger] mf(i2, j as int) == (key_a(i2) == key),
            forall|idx: int|
                0 <= idx < out@.len() ==> (#[trigger] out@[idx]).0 < n_a && out@[idx].1 < j + 1
                    && mf(out@[idx].0 as int, out@[idx].1 as int),
            forall|i2: int, j2: int|
                0 <= i2 < n_a && 0 <= j2 < j && #[trigger] mf(i2, j2) ==> out@.contains(
                    (i2 as u32, j2 as u32),
                ),
            forall|u: int| 0 <= u < t ==> out@.contains((#[trigger] v@[u], j)),
            out@.no_duplicates(),
            forall|idx: int|
                0 <= idx < out@.len() && (#[trigger] out@[idx]).1 == j ==> v@.subrange(0, t as int).contains(
                    out@[idx].0,
                ),
        decreases len - t,
    {
        let ai = v[t];
        proof {
            assert(m[key][t as int] < n_a && key_a(m[key][t as int] as int) == key);
            lemma_push_contains(out@, (ai, j));
            assert(!out@.contains((ai, j))) by {
                if out@.contains((ai, j)) {
                    let idx = choose|idx: int| 0 <= idx < out@.len() && out@[idx] == (ai, j);
                    assert(v@.subrange(0, t as int).contains(ai));
                    let u = choose|u: int| 0 <= u < t && v@.subrange(0, t as int)[u] == ai;
                    assert(v@[u] == v@[t as int]);
                }
            }
            lemma_push_no_dups(out@, (ai, j));
        }
        let ghost before = out@;
        out.push((ai, j));
        proof {
            assert forall|idx: int|
                0 <= idx < out@.len() && (#[trigger] out@[idx]).1 == j implies v@.subrange(0, t + 1).contains(
                out@[idx].0,
            ) by {
                if idx < before.len() {
                    assert(before[idx] == out@[idx]);
                    let u = choose|u: int| 0 <= u < t && v@.subrange(0, t as int)[u] == out@[idx].0;
                    assert(v@.subrange(0, t + 1)[u] == out@[idx].0);
                } else {
                    assert(v@.subrange(0, t + 1)[t as int] == ai);
                }
            }
        }
        t = t + 1;
    }
    proof {
        assert forall|i2: int, j2: int|
            0 <= i2 < n_a && 0 <= j2 < j + 1 && #[trigger] mf(i2, j2) implies out@.contains(
            (i2 as u32, j2 as u32),
        ) by {
            if j2 == j {
                assert(m[key_a(i2)].contains(i2 as u32));
                let u = choose|u: int| 0 <= u < v@.len() && v@[u] == i2 as u32;
                assert(out@.contains((v@[u], j)));
            }
        }
    }
}

/// `t` pairs an entry of `ais` with an entry of `bjs`.
pub open spec fn is_product_of(t: (u32, u32), ais: Seq<u32>, bjs: Seq<u32>) -> bool {
    exists|x: int, y: int| 0 <= x < ais.len() && 0 <= y < bjs.len() && t == (#[trigger] ais[x], #[trigger] bjs[y])
}

/// `t` pairs entry `x2` of `ais` with entry `y2` of `bjs`, where `(x2, y2)`
/// comes before `(x, y)` in row-major order.
pub open spec fn product_before(t: (u32, u32), ais: Seq<u32>, bjs: Seq<u32>, x: int, y: int) -> bool {
    exists|x2: int, y2: int|
        0 <= x2 < ais.len() && 0 <= y2 < bjs.len() && (x2 < x || (x2 == x && y2 < y)) && t == (
            #[trigger] ais[x2],
            #[trigger] bjs[y2],
        )
}

/// Append `(ai, bj)` for every `ai` of `ais` and every `bj` of `bjs`, each
/// pair once when both lists are free of duplicates and no pair already in
/// `out` starts with an entry of `ais`.
fn append_products(ais: &Vec<u32>, bjs: &Vec<u32>, out: &mut Vec<(u32, u32)>)
    requires
        ais@.no_duplicates(),
        bjs@.no_duplicates(),
        old(out)@.no_duplicates(),
        forall|idx: int| 0 <= idx < old(out)@.len() ==> !ais@.contains((#[trigger] old(out)@[idx]).0),
    ensures
        old(out)@.len() <= final(out)@.len(),
        final(out)@.subrange(0, old(out)@.len() as int) == old(out)@,
        forall|idx: int|
            old(out)@.len() <= idx < final(out)@.len() ==> is_product_of(final(out)@[idx], ais@, bjs@),
        forall|x: int, y: int|
            0 <= x < ais@.len() && 0 <= y < bjs@.len() ==> final(out)@.contains(
                (#[trigger] ais@[x], #[trigger] bjs@[y]),
            ),
        final(out)@.no_duplicates(),
{
    let ghost start = out@;
    let na = ais.len();
    let nb = bjs.len();
    let mut x: usize = 0;
    while x < na
        invariant
            na == ais@.len(),
            nb == bjs@.len(),
            x <= na,
            ais@.no_duplicates(),
            bjs@.no_duplicates(),
            forall|idx: int| 0 <= idx < start.len() ==> !ais@.contains((#[trigger] start[idx]).0),
            start.len() <= out@.len(),
            out@.subrange(0, start.len() as int) == start,
            out@.no_duplicates(),
            forall|idx: int|
                start.len() <= idx < out@.len() ==> product_before(out@[idx], ais@, bjs@, x as int, 0),
            forall|x2: int, y: int|
                0 <= x2 < x && 0 <= y < bjs@.len() ==> out@.contains(
                    (#[trigger] ais@[x2], #[trigger] bjs@[y]),
                ),
        decreases na - x,
    {
        let ai = ais[x];
        let mut y: usize = 0;
        while y < nb
            invariant
                na == ais@.len(),
                nb == bjs@.len(),
                x < na,
                ai == ais@[x as int],
                y <= nb,
                ais@.no_duplicates(),
                bjs@.no_duplicates(),
                forall|idx: int| 0 <= idx < start.len() ==> !ais@.contains((#[trigger] start[idx]).0),
                start.len() <= out@.len(),
                out@.subrange(0, start.len() as int) == start,
                out@.no_duplicates(),
                forall|idx: int|
                    start.len() <= idx < out@.len() ==> product_before(out@[idx], ais@, bjs@, x as int, y as int),
                forall|x2: int, y2: int|
                    0 <= x2 < x && 0 <= y2 < bjs@.len() ==> out@.contains(
                        (#[trigger] ais@[x2], #[trigger] bjs@[y2]),
                    ),
                forall|y2: int| 0 <= y2 < y ==> out@.contains((ai, #[trigger] bjs@[y2])),
            decreases nb - y,
        {
            let bj = bjs[y];
            let ghost before = out@;
            proof {
                lemma_push_contains(out@, (ai, bj));
                assert(!out@.contains((ai, bj))) by {
                    if out@.contains((ai, bj)) {
                        let idx = choose|idx: int| 0 <= idx < out@.len() && out@[idx] == (ai, bj);
                        if idx < start.len() {
                            assert(start[idx] == out@.subrange(0, start.len() as int)[idx]);
                            assert(ais@.contains(ai));
                        } else {
                            let (x2, y2) = choose|x2: int, y2: int|
                                0 <= x2 < ais@.len() && 0 <= y2 < bjs@.len() && (x2 < x || (x2 == x && y2 < y))
                                    && out@[idx] == (#[trigger] ais@[x2], #[trigger] bjs@[y2]);
                            assert(ais@[x2] == ais@[x as int]);
                            assert(bjs@[y2] == bjs@[y as int]);
                        }
                    }
                }
                lemma_push_no_dups(out@, (ai, bj));
            }
            out.push((ai, bj));
            proof {
                assert(out@.subrange(0, start.len() as int) =~= start) by {
                    assert(before.subrange(0, start.len() as int) == start);
                }
                assert forall|idx: int| start.len() <= idx < out@.len() implies product_before(
                    #[trigger] out@[idx],
                    ais@,
                    bjs@,
                    x as int,
                    y + 1,
                ) by {
                    if idx < before.len() {
                        assert(out@[idx] == before[idx]);
                        assert(product_before(before[idx], ais@, bjs@, x as int, y as int));
                        let (x2, y2) = choose|x2: int, y2: int|
                            0 <= x2 < ais@.len() && 0 <= y2 < bjs@.len() && (x2 < x || (x2 == x && y2 < y))
                                && before[idx] == (#[trigger] ais@[x2], #[trigger] bjs@[y2]);
                        assert(out@[idx] == (ais@[x2], bjs@[y2]));
                    } else {
                        assert(out@[idx] == (ais@[x as int], bjs@[y as int]));
                    }
                }
            }
            y = y + 1;
        }
        proof {
            assert forall|idx: int| start.len() <= idx < out@.len() implies product_before(
                #[trigger] out@[idx],
                ais@,
                bjs@,
                x + 1,
                0,
            ) by {
                let (x2, y2) = choose|x2: int, y2: int|
                    0 <= x2 < ais@.len() && 0 <= y2 < bjs@.len() && (x2 < x || (x2 == x && y2 < y))
                        && out@[idx] == (#[trigger] ais@[x2], #[trigger] bjs@[y2]);
                assert(out@[idx] == (ais@[x2], bjs@[y2]));
            }
        }
        x = x + 1;
    }
    proof {
        assert forall|idx: int| start.len() <= idx < out@.len() implies is_product_of(
            #[trigger] out@[idx],
            ais@,
            bjs@,
        ) by {
            let (x2, y2) = choose|x2: int, y2: int|
                0 <= x2 < ais@.len() && 0 <= y2 < bjs@.len() && (x2 < x || (x2 == x && y2 < 0))
                    && out@[idx] == (#[trigger] ais@[x2], #[trigger] bjs@[y2]);
            assert(out@[idx] == (ais@[x2], bjs@[y2]));
        }
    }
}

/// For one bit chunk position, bucket the rows of both corpora by their
/// chunk key and pair up the rows of equal keys: the pairs `(i, j)` whose
/// rows have the same key for bits `[lo_bit, hi_bit)`, each listed once.
pub(crate) fn candidates_for_bit_chunk_cross(
    a_data: &[u8],
    n_a: usize,
    b_data: &[u8],
    n_b: usize,
    d_bytes: usize,
    lo_bit: usize,
    hi_bit: usize,
) -> (out: Vec<(u32, u32)>)
    requires
        a_data@.len() == n_a * d_bytes,
        b_data@.len() == n_b * d_bytes,
        n_a <= u32::MAX + 1,
        n_b <= u32::MAX + 1,
        table_capacity_ok(n_a as int),
        table_capacity_ok(n_b as int),
        lo_bit <= hi_bit <= 8 * d_bytes,
        hi_bit - lo_bit <= 128,
    ensures
        cross_candidates(
            out@,
            n_a as int,
            n_b as int,
            bit_chunk_filter(a_data@, b_data@, d_bytes as int, (lo_bit, hi_bit)),
        ),
        out@.no_duplicates(),
{
    let ghost key_a = |r: int| bit_range_key(row_of(a_data@, d_bytes as int, r), lo_bit as int, hi_bit as int);
    let ghost key_b = |r: int| bit_range_key(row_of(b_data@, d_bytes as int, r), lo_bit as int, hi_bit as int);
    let ghost mf = bit_chunk_filter(a_data@, b_data@, d_bytes as int, (lo_bit, hi_bit));
    let a_total = a_data.len();
    let b_total = b_data.len();
    let mut buckets_a = KeyBuckets::with_capacity(n_a);
    let mut i: usize = 0;
    while i < n_a
        invariant
            a_data@.len() == n_a * d_bytes,
            a_total == a_data@.len(),
            n_a <= u32::MAX + 1,
            table_capacity_ok(n_a as int),
            lo_bit <= hi_bit <= 8 * d_bytes,
            hi_bit - lo_bit <= 128,
            i <= n_a,
            key_a == (|r: int| bit_range_key(row_of(a_data@, d_bytes as int, r), lo_bit as int, hi_bit as int)),
            files_rows(key_buckets(buckets_a), key_a, i as int),
        decreases n_a - i,
    {
        proof {
            lemma_row_in_bounds(n_a as int, d_bytes as int, i as int);
        }
        let row = &a_data[i * d_bytes..i * d_bytes + d_bytes];
        assert(row@ == row_of(a_data@, d_bytes as int, i as int));
        let k = extract_bits(row, lo_bit, hi_bit);
        proof {
            lemma_files_rows_step(key_buckets(buckets_a), key_a, i as int);
        }
        buckets_a.file(k, i as u32);
        i = i + 1;
    }
    let mut buckets_b = KeyBuckets::with_capacity(n_b);
    let mut j: usize = 0;
    while j < n_b
        invariant
            b_data@.len() == n_b * d_bytes,
            b_total == b_data@.len(),
            n_b <= u32::MAX + 1,
            table_capacity_ok(n_b as int),
            lo_bit <= hi_bit <= 8 * d_bytes,
            hi_bit - lo_bit <= 128,
            j <= n_b,
            key_b == (|r: int| bit_range_key(row_of(b_data@, d_bytes as int, r), lo_bit as int, hi_bit as int)),
            files_rows(key_buckets(buckets_b), key_b, j as int),
        decreases n_b - j,
    {
        proof {
            lemma_row_in_bounds(n_b as int, d_bytes as int, j as int);
        }
        let row = &b_data[j * d_bytes..j * d_bytes + d_bytes];
        assert(row@ == row_of(b_data@, d_bytes as int, j as int));
        let k = extract_bits(row, lo_bit, hi_bit);
        proof {
            lemma_files_rows_step(key_buckets(buckets_b), key_b, j as int);
        }
        buckets_b.file(k, j as u32);
        j = j + 1;
    }
    let ghost ma = key_buckets(buckets_a);
    let ghost mb = key_buckets(buckets_b);
    let entries = buckets_a.entries();
    let mut local: Vec<(u32, u32)> = Vec::new();
    let ne = entries.len();
    let mut e: usize = 0;
    while e < ne
        invariant
            ne == entries@.len(),
            e <= ne,
            ma == key_buckets(buckets_a),
            mb == key_buckets(buckets_b),
            files_rows(ma, key_a, n_a as int),
            files_rows(mb, key_b, n_b as int),
            forall|e2: int|
                0 <= e2 < entries@.len() ==> ma.dom().contains(#[trigger] entries@[e2].0)
                    && entries@[e2].1@ == ma[entries@[e2].0],
            forall|idx: int|
                0 <= idx < local@.len() ==> (#[trigger] local@[idx]).0 < n_a && local@[idx].1 < n_b
                    && key_a(local@[idx].0 as int) == key_b(local@[idx].1 as int),
            forall|e2: int, x: int, y: int|
                0 <= e2 < e && mb.dom().contains(entries@[e2].0) && 0 <= x < ma[entries@[e2].0].len()
                    && 0 <= y < mb[entries@[e2].0].len() ==> local@.contains(
                    (#[trigger] ma[entries@[e2].0][x], #[trigger] mb[entries@[e2].0][y]),
                ),
            forall|e1: int, e2: int| 0 <= e1 < e2 < entries@.len() ==> #[trigger] entries@[e1].0 != #[trigger] entries@[e2].0,
            local@.no_duplicates(),
            forall|idx: int|
                0 <= idx < local@.len() ==> exists|e2: int|
                    0 <= e2 < e && #[trigger] entries@[e2].0 == key_a((#[trigger] local@[idx]).0 as int),
        decreases ne - e,
    {
        let (key, ais) = entries[e];
        let found = buckets_b.get(key);
        let ghost before = local@;
        match found {
            Some(bjs) => {
                proof {
                    assert forall|idx: int| 0 <= idx < local@.len() implies !ais@.contains((#[trigger] local@[idx]).0) by {
                        let e2 = choose|e2: int|
                            0 <= e2 < e && #[trigger] entries@[e2].0 == key_a(local@[idx].0 as int);
                        if ais@.contains(local@[idx].0) {
                            let x = choose|x: int| 0 <= x < ais@.len() && ais@[x] == local@[idx].0;
                            assert(ma[key][x] == local@[idx].0);
                            assert(key_a(ma[key][x] as int) == key);
                            assert(entries@[e2].0 != entries@[e as int].0);
                        }
                    }
                }
                append_products(ais, bjs, &mut local);
                proof {
                    assert forall|idx: int|
                        0 <= idx < local@.len() implies (#[trigger] local@[idx]).0 < n_a && local@[idx].1
                        < n_b && key_a(local@[idx].0 as int) == key_b(local@[idx].1 as int) by {
                        if idx < before.len() {
                            assert(local@[idx] == local@.subrange(0, before.len() as int)[idx]);
                        } else {
                            assert(is_product_of(local@[idx], ais@, bjs@));
                            let (x, y) = choose|x: int, y: int|
                                0 <= x < ais@.len() && 0 <= y < bjs@.len() && local@[idx]
                                    == (#[trigger] ais@[x], #[trigger] bjs@[y]);
                            assert(ma[key][x] < n_a && key_a(ma[key][x] as int) == key);
                            assert(mb[key][y] < n_b && key_b(mb[key][y] as int) == key);
                        }
                    }
                    assert forall|x: (u32, u32)| before.contains(x) implies local@.contains(x) by {
                        let i0 = choose|i0: int| 0 <= i0 < before.len() && before[i0] == x;
                        assert(local@[i0] == local@.subrange(0, before.len() as int)[i0]);
                    }
                    assert forall|idx: int| 0 <= idx < local@.len() implies exists|e2: int|
                        0 <= e2 < e + 1 && #[trigger] entries@[e2].0 == key_a((#[trigger] local@[idx]).0 as int) by {
                        if idx < before.len() {
                            assert(local@[idx] == local@.subrange(0, before.len() as int)[idx]);
                            let e2 = choose|e2: int|
                                0 <= e2 < e && #[trigger] entries@[e2].0 == key_a(before[idx].0 as int);
                            assert(entries@[e2].0 == key_a(local@[idx].0 as int));
                        } else {
                            assert(is_product_of(local@[idx], ais@, bjs@));
                            let (x, y) = choose|x: int, y: int|
                                0 <= x < ais@.len() && 0 <= y < bjs@.len() && local@[idx]
                                    == (#[trigger] ais@[x], #[trigger] bjs@[y]);
                            assert(ma[key][x] < n_a && key_a(ma[key][x] as int) == key);
                            assert(entries@[e as int].0 == key_a(local@[idx].0 as int));
                        }
                    }
                }
            },
            None => {},
        }
        e = e + 1;
    }
    proof {
        assert forall|i2: int, j2: int|
            0 <= i2 < n_a && 0 <= j2 < n_b && #[trigger] mf(i2, j2) implies local@.contains(
            (i2 as u32, j2 as u32),
        ) by {
            let kk = key_a(i2);
            assert(ma.dom().contains(kk) && ma[kk].contains(i2 as u32));
            assert(mb.dom().contains(key_b(j2)) && mb[key_b(j2)].contains(j2 as u32));
            let e2 = choose|e2: int| 0 <= e2 < entries@.len() && entries@[e2].0 == kk;
            let x = choose|x: int| 0 <= x < ma[kk].len() && ma[kk][x] == i2 as u32;
            let y = choose|y: int| 0 <= y < mb[kk].len() && mb[kk][y] == j2 as u32;
            assert(local@.contains((ma[entries@[e2].0][x], mb[entries@[e2].0][y])));
        }
    }
    local
}

} // verus!
