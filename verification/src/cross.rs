//! Pair search across two corpora: every `(a_id, b_id, dist)` with
//! `hamming(A[a_id], B[b_id]) <= k`, with byte-aligned or bit-level chunks.

use vstd::prelude::*;
use vstd::arithmetic::mul::lemma_mul_inequality;

use crate::chunks::{
    chunk_boundaries, chunk_ranges, lemma_chunk_ranges, bit_chunks_for, bit_chunk_layout,
    lemma_bit_chunk_layout, bit_layout_fits,
};
use crate::candidates::{candidates_for_chunk_cross, candidates_for_bit_chunk_cross};
use crate::laws::{lemma_byte_chunks_complete, lemma_bit_chunks_complete};
use crate::outside::{table_capacity_ok, par_map, par_filter_map, somes};
use crate::pipeline::{
    byte_filter, bit_filter, concat_all, views, any_chunk, lemma_concat_cross_candidates,
    lemma_cross_join, lemma_somes_verified,
};
use crate::rows::{
    row_of, cross_candidates, cross_join, finds_all_cross, byte_chunk_match, bit_chunk_match,
    rows_dist, byte_chunk_filter, bit_chunk_filter, lemma_row_in_bounds,
};
use crate::search::sorted_unique_pairs;
use crate::verify::{pairs_in_rows, verify_pair_le_k, lemma_verified_sorted};

verus! {

/// The checks and machine limits under which the byte-chunk cross search
/// runs: each corpus holds exactly its rows, ids fit a `u32`, `k < d` (the
/// regime where `k + 1` byte chunks exist), and the counts do not overflow.
pub open spec fn cross_search_ok(a_len: int, n_a: int, b_len: int, n_b: int, d: int, k: int) -> bool {
    &&& a_len == n_a * d
    &&& b_len == n_b * d
    &&& n_a <= u32::MAX
    &&& n_b <= u32::MAX
    &&& table_capacity_ok(n_a)
    &&& 8 * d <= u32::MAX
    &&& 0 <= k < d
    &&& k + 1 < usize::MAX
    &&& (k + 1) * d <= u64::MAX
}

/// The checks and machine limits under which the bit-chunk cross search
/// runs: as for bytes, with `k < 8 * d` and both corpora bucketed.
pub open spec fn cross_bit_search_ok(a_len: int, n_a: int, b_len: int, n_b: int, d: int, k: int) -> bool {
    &&& a_len == n_a * d
    &&& b_len == n_b * d
    &&& n_a <= u32::MAX
    &&& n_b <= u32::MAX
    &&& table_capacity_ok(n_a)
    &&& table_capacity_ok(n_b)
    &&& 8 * d <= u32::MAX
    &&& 0 <= k < 8 * d
    &&& bit_layout_fits(8 * d, k)
}

/// Candidates of a cross search name a row of each corpus.
proof fn lemma_cross_in_rows(cand: Seq<(u32, u32)>, n_a: int, n_b: int, d: int, a_len: int, b_len: int, m: spec_fn(int, int) -> bool)
    requires
        cross_candidates(cand, n_a, n_b, m),
        a_len == n_a * d,
        b_len == n_b * d,
        0 <= d,
        n_a <= usize::MAX,
        n_b <= usize::MAX,
    ensures
        pairs_in_rows(cand, a_len, b_len, d),
{
    assert forall|idx: int| 0 <= idx < cand.len() implies ((#[trigger] cand[idx]).0 + 1) * d <= a_len
        && (cand[idx].1 + 1) * d <= b_len && cand[idx].0 < usize::MAX && cand[idx].1 < usize::MAX by {
        lemma_mul_inequality(cand[idx].0 + 1, n_a, d);
        lemma_mul_inequality(cand[idx].1 + 1, n_b, d);
    }
}

/// A list with the same members lists the same cross candidates.
proof fn lemma_cross_same_members(c1: Seq<(u32, u32)>, c2: Seq<(u32, u32)>, n_a: int, n_b: int, m: spec_fn(int, int) -> bool)
    requires
        cross_candidates(c1, n_a, n_b, m),
        forall|x: (u32, u32)| c2.contains(x) <==> c1.contains(x),
    ensures
        cross_candidates(c2, n_a, n_b, m),
{
    assert forall|idx: int| 0 <= idx < c2.len() implies (#[trigger] c2[idx]).0 < n_a && c2[idx].1 < n_b && m(
        c2[idx].0 as int,
        c2[idx].1 as int,
    ) by {
        assert(c2.contains(c2[idx]));
        let x = choose|x: int| 0 <= x < c1.len() && c1[x] == c2[idx];
    }
}

/// A cross candidate list for one filter is one for any filter that agrees
/// with it on the pairs of rows.
proof fn lemma_cross_same_filter(cand: Seq<(u32, u32)>, n_a: int, n_b: int, m1: spec_fn(int, int) -> bool, m2: spec_fn(int, int) -> bool)
    requires
        cross_candidates(cand, n_a, n_b, m1),
        forall|i: int, j: int| 0 <= i < n_a && 0 <= j < n_b ==> #[trigger] m1(i, j) == m2(i, j),
    ensures
        cross_candidates(cand, n_a, n_b, m2),
{
    assert forall|i: int, j: int| 0 <= i < n_a && 0 <= j < n_b && #[trigger] m2(i, j) implies cand.contains(
        (i as u32, j as u32),
    ) by {
        assert(m1(i, j));
    }
}

/// The byte-chunk cross candidates, one rayon task per chunk, laid end to
/// end in chunk order.
fn byte_cross_candidates(
    a_data: &[u8],
    n_a: usize,
    b_data: &[u8],
    n_b: usize,
    d_bytes: usize,
    chunks: &Vec<(usize, usize)>,
) -> (cand: Vec<(u32, u32)>)
    requires
        a_data@.len() == n_a * d_bytes,
        b_data@.len() == n_b * d_bytes,
        n_a <= u32::MAX + 1,
        n_b <= u32::MAX + 1,
        table_capacity_ok(n_a as int),
        forall|c: int| 0 <= c < chunks@.len() ==> (#[trigger] chunks@[c]).0 <= chunks@[c].1 <= d_bytes,
    ensures
        cross_candidates(cand@, n_a as int, n_b as int, byte_filter(a_data@, b_data@, d_bytes as int, chunks@)),
{
    let one_chunk = |ch: &(usize, usize)| -> (r: Vec<(u32, u32)>)
        requires
            a_data@.len() == n_a * d_bytes,
            b_data@.len() == n_b * d_bytes,
            n_a <= u32::MAX + 1,
            n_b <= u32::MAX + 1,
            table_capacity_ok(n_a as int),
            ch.0 <= ch.1 <= d_bytes,
        ensures
            cross_candidates(r@, n_a as int, n_b as int, byte_chunk_filter(a_data@, b_data@, d_bytes as int, *ch)),
        { candidates_for_chunk_cross(a_data, n_a, b_data, n_b, d_bytes, ch.0, ch.1) };
    let ghost f = one_chunk;
    let per_chunk = par_map(chunks, one_chunk);
    let cand = concat_all(&per_chunk);
    proof {
        let lists = views(per_chunk@);
        let mc = |c: int, i: int, j: int| byte_chunk_filter(a_data@, b_data@, d_bytes as int, chunks@[c])(i, j);
        assert forall|c: int, idx: int|
            0 <= c < lists.len() && 0 <= idx < lists[c].len() implies (#[trigger] lists[c][idx]).0
            < n_a && lists[c][idx].1 < n_b && mc(c, lists[c][idx].0 as int, lists[c][idx].1 as int) by {
            assert(lists[c] == per_chunk@[c]@);
            assert(f.ensures((&chunks@[c],), per_chunk@[c]));
        }
        assert forall|c: int, i: int, j: int|
            0 <= c < lists.len() && 0 <= i < n_a && 0 <= j < n_b && #[trigger] mc(c, i, j) implies lists[c].contains(
            (i as u32, j as u32),
        ) by {
            assert(lists[c] == per_chunk@[c]@);
            assert(f.ensures((&chunks@[c],), per_chunk@[c]));
        }
        lemma_concat_cross_candidates(lists, n_a as int, n_b as int, mc);
        let m = any_chunk(mc, lists.len() as int);
        let f = byte_filter(a_data@, b_data@, d_bytes as int, chunks@);
        assert forall|i: int, j: int| 0 <= i < n_a && 0 <= j < n_b implies #[trigger] m(i, j) == f(i, j) by {
            if m(i, j) {
                let c = choose|c: int| 0 <= c < lists.len() && #[trigger] mc(c, i, j);
                assert(byte_chunk_match(row_of(a_data@, d_bytes as int, i), row_of(b_data@, d_bytes as int, j), chunks@[c]));
            }
            if f(i, j) {
                let c = choose|c: int|
                    0 <= c < chunks@.len() && byte_chunk_match(
                        row_of(a_data@, d_bytes as int, i),
                        row_of(b_data@, d_bytes as int, j),
                        #[trigger] chunks@[c],
                    );
                assert(mc(c, i, j));
            }
        }
        lemma_cross_same_filter(cand@, n_a as int, n_b as int, m, f);
    }
    cand
}

/// The bit-chunk cross candidates, one rayon task per chunk, laid end to
/// end in chunk order.
fn bit_cross_candidates(
    a_data: &[u8],
    n_a: usize,
    b_data: &[u8],
    n_b: usize,
    d_bytes: usize,
    chunks: &Vec<(usize, usize)>,
) -> (cand: Vec<(u32, u32)>)
    requires
        a_data@.len() == n_a * d_bytes,
        b_data@.len() == n_b * d_bytes,
        n_a <= u32::MAX + 1,
        n_b <= u32::MAX + 1,
        table_capacity_ok(n_a as int),
        table_capacity_ok(n_b as int),
        forall|c: int|
            0 <= c < chunks@.len() ==> (#[trigger] chunks@[c]).0 <= chunks@[c].1 <= 8 * d_bytes
                && chunks@[c].1 - chunks@[c].0 <= 128,
    ensures
        cross_candidates(cand@, n_a as int, n_b as int, bit_filter(a_data@, b_data@, d_bytes as int, chunks@)),
{
    let one_chunk = |ch: &(usize, usize)| -> (r: Vec<(u32, u32)>)
        requires
            a_data@.len() == n_a * d_bytes,
            b_data@.len() == n_b * d_bytes,
            n_a <= u32::MAX + 1,
            n_b <= u32::MAX + 1,
            table_capacity_ok(n_a as int),
            table_capacity_ok(n_b as int),
            ch.0 <= ch.1 <= 8 * d_bytes,
            ch.1 - ch.0 <= 128,
        ensures
            cross_candidates(r@, n_a as int, n_b as int, bit_chunk_filter(a_data@, b_data@, d_bytes as int, *ch)),
        { candidates_for_bit_chunk_cross(a_data, n_a, b_data, n_b, d_bytes, ch.0, ch.1) };
    let ghost f = one_chunk;
    let per_chunk = par_map(chunks, one_chunk);
    let cand = concat_all(&per_chunk);
    proof {
        let lists = views(per_chunk@);
        let mc = |c: int, i: int, j: int| bit_chunk_filter(a_data@, b_data@, d_bytes as int, chunks@[c])(i, j);
        assert forall|c: int, idx: int|
            0 <= c < lists.len() && 0 <= idx < lists[c].len() implies (#[trigger] lists[c][idx]).0
            < n_a && lists[c][idx].1 < n_b && mc(c, lists[c][idx].0 as int, lists[c][idx].1 as int) by {
            assert(lists[c] == per_chunk@[c]@);
            assert(f.ensures((&chunks@[c],), per_chunk@[c]));
        }
        assert forall|c: int, i: int, j: int|
            0 <= c < lists.len() && 0 <= i < n_a && 0 <= j < n_b && #[trigger] mc(c, i, j) implies lists[c].contains(
            (i as u32, j as u32),
        ) by {
            assert(lists[c] == per_chunk@[c]@);
            assert(f.ensures((&chunks@[c],), per_chunk@[c]));
        }
        lemma_concat_cross_candidates(lists, n_a as int, n_b as int, mc);
        let m = any_chunk(mc, lists.len() as int);
        let f = bit_filter(a_data@, b_data@, d_bytes as int, chunks@);
        assert forall|i: int, j: int| 0 <= i < n_a && 0 <= j < n_b implies #[trigger] m(i, j) == f(i, j) by {
            if m(i, j) {
                let c = choose|c: int| 0 <= c < lists.len() && #[trigger] mc(c, i, j);
                assert(bit_chunk_match(row_of(a_data@, d_bytes as int, i), row_of(b_data@, d_bytes as int, j), chunks@[c]));
            }
            if f(i, j) {
                let c = choose|c: int|
                    0 <= c < chunks@.len() && bit_chunk_match(
                        row_of(a_data@, d_bytes as int, i),
                        row_of(b_data@, d_bytes as int, j),
                        #[trigger] chunks@[c],
                    );
                assert(mc(c, i, j));
            }
        }
        lemma_cross_same_filter(cand@, n_a as int, n_b as int, m, f);
    }
    cand
}

/// Sort and deduplicate the cross candidates, then verify them in parallel
/// with the early-exit popcount: the result of a cross search with filter
/// `m`.
fn verify_cross(
    candidates: Vec<(u32, u32)>,
    a_data: &[u8],
    n_a: usize,
    b_data: &[u8],
    n_b: usize,
    d_bytes: usize,
    k: u32,
    Ghost(m): Ghost<spec_fn(int, int) -> bool>,
) -> (r: Vec<(u32, u32, u32)>)
    requires
        a_data@.len() == n_a * d_bytes,
        b_data@.len() == n_b * d_bytes,
        n_a <= u32::MAX,
        n_b <= u32::MAX,
        8 * d_bytes <= u32::MAX,
        cross_candidates(candidates@, n_a as int, n_b as int, m),
    ensures
        cross_join(r@, a_data@, n_a as int, b_data@, n_b as int, d_bytes as int, k as int, m),
{
    let ghost all = candidates@;
    let candidates = sorted_unique_pairs(candidates, true);
    proof {
        lemma_cross_same_members(all, candidates@, n_a as int, n_b as int, m);
        lemma_cross_in_rows(candidates@, n_a as int, n_b as int, d_bytes as int, a_data@.len() as int, b_data@.len() as int, m);
    }
    let check = |p: &(u32, u32)| -> (t: Option<(u32, u32, u32)>)
        requires
            8 * d_bytes <= u32::MAX,
            (p.0 + 1) * d_bytes <= a_data@.len(),
            (p.1 + 1) * d_bytes <= b_data@.len(),
            p.0 < usize::MAX,
            p.1 < usize::MAX,
        ensures
            t == (if rows_dist(a_data@, b_data@, d_bytes as int, p.0 as int, p.1 as int) <= k {
                Some((p.0, p.1, rows_dist(a_data@, b_data@, d_bytes as int, p.0 as int, p.1 as int) as u32))
            } else {
                None
            }),
        { verify_pair_le_k(a_data, b_data, d_bytes, k, p) };
    let ghost f = check;
    let out = par_filter_map(&candidates, check);
    proof {
        let outs = choose|outs: Seq<Option<(u32, u32, u32)>>|
            out@ == somes(outs) && outs.len() == candidates@.len() && (forall|i: int|
                0 <= i < candidates@.len() ==> #[trigger] f.ensures((&candidates@[i],), outs[i]));
        assert forall|i: int| 0 <= i < candidates@.len() implies #[trigger] outs[i] == (if rows_dist(
            a_data@,
            b_data@,
            d_bytes as int,
            candidates@[i].0 as int,
            candidates@[i].1 as int,
        ) <= k {
            Some((candidates@[i].0, candidates@[i].1, rows_dist(a_data@, b_data@, d_bytes as int, candidates@[i].0 as int, candidates@[i].1 as int) as u32))
        } else {
            None
        }) by {
            assert(f.ensures((&candidates@[i],), outs[i]));
        }
        lemma_somes_verified(candidates@, outs, a_data@, b_data@, d_bytes as int, k as int);
        lemma_verified_sorted(candidates@, a_data@, b_data@, d_bytes as int, k as int);
        lemma_cross_join(out@, candidates@, a_data@, n_a as int, b_data@, n_b as int, d_bytes as int, k as int, m);
    }
    out
}

/// Find all `(a_id, b_id, dist)` with `dist = hamming(A[a_id], B[b_id]) <=
/// k`, with byte-aligned chunks, for `k < d_bytes`; sorted by
/// `(a_id, b_id)`, each pair once.
pub fn find_pairs_cross(
    a_data: &[u8],
    n_a: usize,
    b_data: &[u8],
    n_b: usize,
    d_bytes: usize,
    k: u32,
) -> (r: Vec<(u32, u32, u32)>)
    requires
        cross_search_ok(a_data@.len() as int, n_a as int, b_data@.len() as int, n_b as int, d_bytes as int, k as int),
    ensures
        cross_join(
            r@,
            a_data@,
            n_a as int,
            b_data@,
            n_b as int,
            d_bytes as int,
            k as int,
            byte_filter(a_data@, b_data@, d_bytes as int, chunk_ranges(d_bytes as int, k + 1)),
        ),
        finds_all_cross(r@, a_data@, n_a as int, b_data@, n_b as int, d_bytes as int, k as int),
{
    let chunks = chunk_boundaries(d_bytes, (k + 1) as usize);
    proof {
        lemma_chunk_ranges(d_bytes as int, k + 1);
    }
    let ghost filter = byte_filter(a_data@, b_data@, d_bytes as int, chunks@);
    let candidates = byte_cross_candidates(a_data, n_a, b_data, n_b, d_bytes, &chunks);
    let out = if candidates.len() == 0 {
        let r: Vec<(u32, u32, u32)> = Vec::new();
        proof {
            lemma_cross_join(r@, candidates@, a_data@, n_a as int, b_data@, n_b as int, d_bytes as int, k as int, filter);
        }
        r
    } else {
        verify_cross(candidates, a_data, n_a, b_data, n_b, d_bytes, k, Ghost(filter))
    };
    proof {
        assert forall|i: int, j: int|
            0 <= i < n_a && 0 <= j < n_b && #[trigger] rows_dist(a_data@, b_data@, d_bytes as int, i, j) <= k implies out@.contains(
            (i as u32, j as u32, rows_dist(a_data@, b_data@, d_bytes as int, i, j) as u32),
        ) by {
            lemma_row_in_bounds(n_a as int, d_bytes as int, i);
            lemma_row_in_bounds(n_b as int, d_bytes as int, j);
            lemma_byte_chunks_complete(a_data@, b_data@, d_bytes as int, k as int, i, j);
        }
    }
    out
}

/// Cross search with bit-level chunks, for any `k < 8 * d_bytes`: all
/// `(a_id, b_id, dist)` with `dist = hamming(A[a_id], B[b_id]) <= k`, sorted
/// by `(a_id, b_id)`, each pair once.
pub fn find_pairs_cross_bit(
    a_data: &[u8],
    n_a: usize,
    b_data: &[u8],
    n_b: usize,
    d_bytes: usize,
    k: u32,
) -> (r: Vec<(u32, u32, u32)>)
    requires
        cross_bit_search_ok(a_data@.len() as int, n_a as int, b_data@.len() as int, n_b as int, d_bytes as int, k as int),
    ensures
        cross_join(
            r@,
            a_data@,
            n_a as int,
            b_data@,
            n_b as int,
            d_bytes as int,
            k as int,
            bit_filter(a_data@, b_data@, d_bytes as int, bit_chunk_layout(8 * d_bytes, k as int)),
        ),
        finds_all_cross(r@, a_data@, n_a as int, b_data@, n_b as int, d_bytes as int, k as int),
{
    let d_bits = 8 * d_bytes;
    let chunks = bit_chunks_for(d_bits, k);
    proof {
        lemma_bit_chunk_layout(d_bits as int, k as int);
    }
    let ghost filter = bit_filter(a_data@, b_data@, d_bytes as int, chunks@);
    let candidates = bit_cross_candidates(a_data, n_a, b_data, n_b, d_bytes, &chunks);
    let out = if candidates.len() == 0 {
        let r: Vec<(u32, u32, u32)> = Vec::new();
        proof {
            lemma_cross_join(r@, candidates@, a_data@, n_a as int, b_data@, n_b as int, d_bytes as int, k as int, filter);
        }
        r
    } else {
        verify_cross(candidates, a_data, n_a, b_data, n_b, d_bytes, k, Ghost(filter))
    };
    proof {
        assert forall|i: int, j: int|
            0 <= i < n_a && 0 <= j < n_b && #[trigger] rows_dist(a_data@, b_data@, d_bytes as int, i, j) <= k implies out@.contains(
            (i as u32, j as u32, rows_dist(a_data@, b_data@, d_bytes as int, i, j) as u32),
        ) by {
            lemma_row_in_bounds(n_a as int, d_bytes as int, i);
            lemma_row_in_bounds(n_b as int, d_bytes as int, j);
            lemma_bit_chunks_complete(a_data@, b_data@, d_bytes as int, k as int, i, j);
        }
    }
    out
}

} // verus!
