//! The single-threaded search with candidate pairs packed into `u64` keys
//! for the sort and dedup.

use vstd::prelude::*;
use vstd::arithmetic::div_mod::{lemma_fundamental_div_mod, lemma_fundamental_div_mod_converse};

use crate::chunks::{chunk_boundaries, chunk_ranges};
use crate::candidates::candidates_for_chunk;
use crate::outside::sort_u64s;
use crate::pipeline::{
    byte_filter, lemma_append_self_candidates, lemma_self_join, lemma_same_members,
};
use crate::rows::{
    row_of, self_candidates, self_join, finds_all_self, byte_chunk_match, byte_chunk_filter,
    pair_lt, strictly_sorted_pairs,
};
use crate::search::{
    byte_search_ok, lemma_byte_layout_in_row, lemma_finds_all_byte, lemma_candidates_in_rows,
    lemma_no_pairs,
};
use crate::verify::{verified, verify_pair, lemma_verified_sorted, lemma_verified_members};

verus! {

/// The `u64` key of a pair: `i` in the high 32 bits, `j` in the low ones.
pub open spec fn pack(p: (u32, u32)) -> u64 {
    (p.0 as int * 0x1_0000_0000 + p.1 as int) as u64
}

/// The pair of a `u64` key.
pub open spec fn unpack(x: u64) -> (u32, u32) {
    ((x as int / 0x1_0000_0000) as u32, (x as int % 0x1_0000_0000) as u32)
}

proof fn lemma_pack_bits(i: u32, j: u32)
    by (bit_vector)
    ensures
        ((i as u64) << 32u64) | (j as u64) == (i as u64) * 0x1_0000_0000u64 + (j as u64),
{
}

proof fn lemma_unpack_bits(x: u64)
    by (bit_vector)
    ensures
        x >> 32u64 == x / 0x1_0000_0000u64,
        x & 0xFFFF_FFFFu64 == x % 0x1_0000_0000u64,
{
}

/// Unpacking a packed pair gives the pair back.
pub proof fn lemma_unpack_pack(p: (u32, u32))
    ensures
        unpack(pack(p)) == p,
        pack(p) == p.0 as int * 0x1_0000_0000 + p.1 as int,
{
    let x = p.0 as int * 0x1_0000_0000 + p.1 as int;
    assert(x < 0x1_0000_0000_0000_0000);
    lemma_fundamental_div_mod_converse(x, 0x1_0000_0000, p.0 as int, p.1 as int);
}

/// Keys order their pairs lexicographically.
pub proof fn lemma_unpack_order(x: u64, y: u64)
    requires
        x < y,
    ensures
        pair_lt(unpack(x), unpack(y)),
{
    lemma_fundamental_div_mod(x as int, 0x1_0000_0000);
    lemma_fundamental_div_mod(y as int, 0x1_0000_0000);
}

/// Drop the repeats of an ascending list of keys, leaving a strictly
/// increasing list with the same members.
fn dedup_sorted_u64s(v: &Vec<u64>) -> (r: Vec<u64>)
    requires
        forall|a: int, b: int| 0 <= a < b < v@.len() ==> #[trigger] v@[a] <= #[trigger] v@[b],
    ensures
        forall|a: int, b: int| 0 <= a < b < r@.len() ==> #[trigger] r@[a] < #[trigger] r@[b],
        forall|x: u64| r@.contains(x) <==> v@.contains(x),
{
    let mut r: Vec<u64> = Vec::new();
    let len = v.len();
    let mut i: usize = 0;
    while i < len
        invariant
            len == v@.len(),
            i <= len,
            forall|a: int, b: int| 0 <= a < b < v@.len() ==> #[trigger] v@[a] <= #[trigger] v@[b],
            forall|a: int, b: int| 0 <= a < b < r@.len() ==> #[trigger] r@[a] < #[trigger] r@[b],
            i > 0 ==> r@.len() > 0 && r@[r@.len() - 1] == v@[i - 1],
            i == 0 ==> r@.len() == 0,
            forall|x: u64| r@.contains(x) <==> v@.subrange(0, i as int).contains(x),
        decreases len - i,
    {
        let x = v[i];
        let ghost before = r@;
        let keep = r.len() == 0 || r[r.len() - 1] != x;
        if keep {
            r.push(x);
            proof {
                if i > 0 {
                    assert(v@[i - 1] <= v@[i as int]);
                }
                assert forall|a: int, b: int| 0 <= a < b < r@.len() implies #[trigger] r@[a] < #[trigger] r@[b] by {
                    if b == r@.len() - 1 && a < before.len() - 1 {
                        assert(before[a] < before[before.len() - 1]);
                    }
                }
            }
        }
        proof {
            assert(v@.subrange(0, i + 1) =~= v@.subrange(0, i as int).push(x));
            assert forall|y: u64| r@.contains(y) <==> v@.subrange(0, i + 1).contains(y) by {
                if r@.contains(y) {
                    let a = choose|a: int| 0 <= a < r@.len() && r@[a] == y;
                    if a < before.len() {
                        assert(before.contains(y));
                        let b = choose|b: int| 0 <= b < i && #[trigger] v@.subrange(0, i as int)[b] == y;
                        assert(v@.subrange(0, i + 1)[b] == y);
                    } else {
                        assert(v@.subrange(0, i + 1)[i as int] == y);
                    }
                }
                if v@.subrange(0, i + 1).contains(y) {
                    let b = choose|b: int| 0 <= b < i + 1 && #[trigger] v@.subrange(0, i + 1)[b] == y;
                    if b < i {
                        assert(v@.subrange(0, i as int)[b] == y);
                        assert(before.contains(y));
                        let a = choose|a: int| 0 <= a < before.len() && before[a] == y;
                        assert(r@[a] == y);
                    } else if keep {
                        assert(r@[r@.len() - 1] == y);
                    } else {
                        assert(before[before.len() - 1] == y);
                    }
                }
            }
        }
        i = i + 1;
    }
    assert(v@.subrange(0, len as int) =~= v@);
    r
}

/// Append the keys of `pairs` to `packed`.
fn pack_into(pairs: &Vec<(u32, u32)>, packed: &mut Vec<u64>)
    ensures
        final(packed)@ == old(packed)@ + pairs@.map_values(|p: (u32, u32)| pack(p)),
{
    packed.reserve(pairs.len());
    let np = pairs.len();
    let mut t: usize = 0;
    while t < np
        invariant
            np == pairs@.len(),
            t <= np,
            packed@ == old(packed)@ + pairs@.subrange(0, t as int).map_values(|p: (u32, u32)| pack(p)),
        decreases np - t,
    {
        let (i, j) = pairs[t];
        let key = ((i as u64) << 32) | (j as u64);
        proof {
            lemma_pack_bits(i, j);
            lemma_unpack_pack((i, j));
            assert(pairs@.subrange(0, t + 1).map_values(|p: (u32, u32)| pack(p)) =~= pairs@.subrange(
                0,
                t as int,
            ).map_values(|p: (u32, u32)| pack(p)).push(pack((i, j))));
        }
        packed.push(key);
        t = t + 1;
    }
    assert(pairs@.subrange(0, np as int) =~= pairs@);
}

/// Single-threaded search whose candidate pairs are packed into `u64` keys
/// before the sort and dedup. Same result as `find_pairs_self_st`: in
/// strictly increasing order, every `(i, j, dist)` with `i < j < n` within
/// Hamming distance `k` that carry the same bytes in one of the chunks of
/// `chunk_boundaries(d_bytes, k + 1)`; when `k < d_bytes` that is every
/// pair within distance `k`.
pub fn find_pairs_self_radix(data: &[u8], n: usize, d_bytes: usize, k: u32) -> (r: Vec<(u32, u32, u32)>)
    requires
        byte_search_ok(data@.len() as int, n as int, d_bytes as int, k as int),
    ensures
        self_join(
            r@,
            data@,
            n as int,
            d_bytes as int,
            k as int,
            byte_filter(data@, data@, d_bytes as int, chunk_ranges(d_bytes as int, k + 1)),
        ),
        k < d_bytes ==> finds_all_self(r@, data@, n as int, d_bytes as int, k as int),
{
    let chunks = chunk_boundaries(d_bytes, (k + 1) as usize);
    proof {
        lemma_byte_layout_in_row(d_bytes as int, k as int);
    }
    let ghost filter = byte_filter(data@, data@, d_bytes as int, chunks@);
    let mut packed: Vec<u64> = Vec::new();
    let ghost mut cand: Seq<(u32, u32)> = seq![];
    let nc = chunks.len();
    let mut c: usize = 0;
    while c < nc
        invariant
            nc == chunks@.len(),
            c <= nc,
            data@.len() == n * d_bytes,
            n <= u32::MAX,
            crate::outside::table_capacity_ok(n as int),
            forall|c2: int| 0 <= c2 < chunks@.len() ==> (#[trigger] chunks@[c2]).0 <= chunks@[c2].1 <= d_bytes,
            packed@ == cand.map_values(|p: (u32, u32)| pack(p)),
            self_candidates(cand, n as int, byte_filter(data@, data@, d_bytes as int, chunks@.subrange(0, c as int))),
        decreases nc - c,
    {
        let (lo, hi) = chunks[c];
        let cc = candidates_for_chunk(data, n, d_bytes, lo, hi);
        proof {
            let m1 = byte_filter(data@, data@, d_bytes as int, chunks@.subrange(0, c as int));
            let m2 = byte_chunk_filter(data@, data@, d_bytes as int, (lo, hi));
            let m = byte_filter(data@, data@, d_bytes as int, chunks@.subrange(0, c + 1));
            assert forall|i: int, j: int| 0 <= i < j < n implies #[trigger] m(i, j) == (m1(i, j)
                || m2(i, j)) by {
                let ri = row_of(data@, d_bytes as int, i);
                let rj = row_of(data@, d_bytes as int, j);
                let s1 = chunks@.subrange(0, c as int);
                let s = chunks@.subrange(0, c + 1);
                if m(i, j) {
                    let x = choose|x: int| 0 <= x < s.len() && byte_chunk_match(ri, rj, #[trigger] s[x]);
                    if x < c {
                        assert(s1[x] == s[x]);
                    }
                }
                if m1(i, j) {
                    let x = choose|x: int| 0 <= x < s1.len() && byte_chunk_match(ri, rj, #[trigger] s1[x]);
                    assert(s[x] == s1[x]);
                }
                if m2(i, j) {
                    assert(s[c as int] == (lo, hi));
                }
            }
            lemma_append_self_candidates(cand, cc@, n as int, m1, m2, m);
        }
        pack_into(&cc, &mut packed);
        proof {
            assert((cand + cc@).map_values(|p: (u32, u32)| pack(p)) =~= cand.map_values(|p: (u32, u32)| pack(p))
                + cc@.map_values(|p: (u32, u32)| pack(p)));
            cand = cand + cc@;
        }
        c = c + 1;
    }
    assert(chunks@.subrange(0, nc as int) =~= chunks@);
    if packed.len() == 0 {
        proof {
            lemma_no_pairs(cand, data@, n as int, d_bytes as int, k as int, filter);
            if k < d_bytes {
                lemma_finds_all_byte(seq![], data@, n as int, d_bytes as int, k as int);
            }
        }
        return Vec::new();
    }
    let ghost unsorted = packed@;
    sort_u64s(&mut packed);
    proof {
        lemma_same_members(packed@, unsorted);
    }
    let keys = dedup_sorted_u64s(&packed);
    let ghost uc = keys@.map_values(|x: u64| unpack(x));
    proof {
        assert(strictly_sorted_pairs(uc)) by {
            assert forall|a: int, b: int| 0 <= a < b < uc.len() implies pair_lt(#[trigger] uc[a], #[trigger] uc[b]) by {
                lemma_unpack_order(keys@[a], keys@[b]);
            }
        }
        assert forall|x: (u32, u32)| uc.contains(x) <==> cand.contains(x) by {
            if uc.contains(x) {
                let a = choose|a: int| 0 <= a < uc.len() && uc[a] == x;
                assert(keys@.contains(keys@[a]));
                assert(unsorted.contains(keys@[a]));
                let b = choose|b: int| 0 <= b < unsorted.len() && unsorted[b] == keys@[a];
                lemma_unpack_pack(cand[b]);
                assert(cand[b] == x);
            }
            if cand.contains(x) {
                let b = choose|b: int| 0 <= b < cand.len() && cand[b] == x;
                lemma_unpack_pack(x);
                assert(unsorted[b] == pack(x));
                assert(unsorted.contains(pack(x)));
                assert(keys@.contains(pack(x)));
                let a = choose|a: int| 0 <= a < keys@.len() && keys@[a] == pack(x);
                assert(uc[a] == x);
            }
        }
        crate::search::lemma_candidates_same_members(cand, uc, n as int, filter);
        lemma_candidates_in_rows(uc, n as int, d_bytes as int, data@.len() as int, filter);
    }
    let mut out: Vec<(u32, u32, u32)> = Vec::new();
    let nk = keys.len();
    let mut idx: usize = 0;
    while idx < nk
        invariant
            nk == keys@.len(),
            idx <= nk,
            uc == keys@.map_values(|x: u64| unpack(x)),
            8 * d_bytes <= u32::MAX,
            crate::verify::pairs_in_rows(uc, data@.len() as int, data@.len() as int, d_bytes as int),
            out@ == verified(uc.subrange(0, idx as int), data@, data@, d_bytes as int, k as int),
        decreases nk - idx,
    {
        let p = keys[idx];
        let i = (p >> 32) as u32;
        let j = (p & 0xFFFF_FFFF) as u32;
        proof {
            lemma_unpack_bits(p);
            assert(uc[idx as int] == (i, j));
            assert(uc.subrange(0, idx + 1).drop_last() =~= uc.subrange(0, idx as int));
        }
        if let Some(t) = verify_pair(data, data, d_bytes, k, &(i, j)) {
            out.push(t);
        }
        idx = idx + 1;
    }
    proof {
        assert(uc.subrange(0, nk as int) =~= uc);
        lemma_verified_sorted(uc, data@, data@, d_bytes as int, k as int);
        lemma_verified_members(uc, data@, data@, d_bytes as int, k as int);
        lemma_self_join(out@, uc, data@, n as int, d_bytes as int, k as int, filter);
        if k < d_bytes {
            lemma_finds_all_byte(out@, data@, n as int, d_bytes as int, k as int);
        }
    }
    out
}

} // verus!
