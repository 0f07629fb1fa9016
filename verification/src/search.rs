//! Pair search within one corpus with byte-aligned chunks: the
//! single-threaded baseline and its parallel, no-dedup and full-popcount
//! variants, which all return the same list.

use vstd::prelude::*;
use vstd::arithmetic::mul::lemma_mul_inequality;

use crate::chunks::{chunk_boundaries, chunk_ranges, lemma_chunk_ranges};
use crate::candidates::candidates_for_chunk;
use crate::laws::lemma_byte_chunks_complete;
use crate::outside::{
    table_capacity_ok, sort_pairs, sort_triples, par_sort_pairs, par_sort_triples, par_map,
    par_filter_map, par_map_pieces, current_num_threads, piece_of,
};
use crate::pipeline::{
    byte_filter, lemma_append_self_candidates, lemma_self_join, lemma_same_members, concat_all,
    views, lemma_verified_pieces, any_chunk, lemma_concat_self_candidates, lemma_somes_verified,
};
use crate::rows::{
    row_of, self_candidates, self_join, finds_all_self, byte_chunk_match, strictly_sorted_pairs,
    strictly_sorted_triples, rows_dist, byte_chunk_filter,
};
use crate::verify::{
    verified, pairs_in_rows, verify_with_prefetch, verify_with_prefetch_full, verify_pair,
    dedup_sorted_pairs, dedup_sorted_triples, lemma_verified_sorted,
};

verus! {

/// The checks and machine limits under which the byte-chunk searches over
/// `n` rows of `d` bytes run: the corpus holds exactly `n` rows, ids fit a
/// `u32`, and the counts (`k + 1` chunks, row popcounts, table sizes) do not
/// overflow.
pub open spec fn byte_search_ok(data_len: int, n: int, d: int, k: int) -> bool {
    &&& data_len == n * d
    &&& n <= u32::MAX
    &&& table_capacity_ok(n)
    &&& 8 * d <= u32::MAX
    &&& 0 <= k < u32::MAX
    &&& k + 1 < usize::MAX
    &&& (k + 1) * d <= u64::MAX
}

/// Candidates of a self search name two rows of the corpus.
pub(crate) proof fn lemma_candidates_in_rows(cand: Seq<(u32, u32)>, n: int, d: int, len: int, m: spec_fn(int, int) -> bool)
    requires
        self_candidates(cand, n, m),
        len == n * d,
        0 <= d,
        n <= usize::MAX,
    ensures
        pairs_in_rows(cand, len, len, d),
{
    assert forall|idx: int| 0 <= idx < cand.len() implies ((#[trigger] cand[idx]).0 + 1) * d <= len
        && (cand[idx].1 + 1) * d <= len && cand[idx].0 < usize::MAX && cand[idx].1 < usize::MAX by {
        lemma_mul_inequality(cand[idx].0 + 1, n, d);
        lemma_mul_inequality(cand[idx].1 + 1, n, d);
    }
}

/// A list with the same members lists the same candidates.
pub(crate) proof fn lemma_candidates_same_members(c1: Seq<(u32, u32)>, c2: Seq<(u32, u32)>, n: int, m: spec_fn(int, int) -> bool)
    requires
        self_candidates(c1, n, m),
        forall|x: (u32, u32)| c2.contains(x) <==> c1.contains(x),
    ensures
        self_candidates(c2, n, m),
{
    assert forall|idx: int| 0 <= idx < c2.len() implies (#[trigger] c2[idx]).0 < c2[idx].1 < n && m(
        c2[idx].0 as int,
        c2[idx].1 as int,
    ) by {
        assert(c2.contains(c2[idx]));
        let x = choose|x: int| 0 <= x < c1.len() && c1[x] == c2[idx];
    }
}

/// The candidate pairs of all byte chunks, chunk after chunk.
fn byte_candidates_seq(data: &[u8], n: usize, d_bytes: usize, chunks: &Vec<(usize, usize)>) -> (cand: Vec<(u32, u32)>)
    requires
        data@.len() == n * d_bytes,
        n <= u32::MAX + 1,
        table_capacity_ok(n as int),
        forall|c: int| 0 <= c < chunks@.len() ==> (#[trigger] chunks@[c]).0 <= chunks@[c].1 <= d_bytes,
    ensures
        self_candidates(cand@, n as int, byte_filter(data@, data@, d_bytes as int, chunks@)),
{
    let mut candidates: Vec<(u32, u32)> = Vec::with_capacity(n);
    let nc = chunks.len();
    let mut c: usize = 0;
    while c < nc
        invariant
            nc == chunks@.len(),
            c <= nc,
            data@.len() == n * d_bytes,
            n <= u32::MAX + 1,
            table_capacity_ok(n as int),
            forall|c2: int| 0 <= c2 < chunks@.len() ==> (#[trigger] chunks@[c2]).0 <= chunks@[c2].1 <= d_bytes,
            self_candidates(
                candidates@,
                n as int,
                byte_filter(data@, data@, d_bytes as int, chunks@.subrange(0, c as int)),
            ),
        decreases nc - c,
    {
        let (lo, hi) = chunks[c];
        let mut cc = candidates_for_chunk(data, n, d_bytes, lo, hi);
        proof {
            let m1 = byte_filter(data@, data@, d_bytes as int, chunks@.subrange(0, c as int));
            let m2 = byte_chunk_filter(data@, data@, d_bytes as int, (lo, hi));
            let m = byte_filter(data@, data@, d_bytes as int, chunks@.subrange(0, c + 1));
            assert forall|i: int, j: int| 0 <= i < j < n implies #[trigger] m(i, j) == (m1(i, j)
                || m2(i, j)) by {
                let ri = row_of(data@, d_bytes as int, i);
                let rj = row_of(data@, d_bytes as int, j);
                let s1 = chunks@.subrange(0, c as int);
                let s = chunks@.subrange(0, c + 1);
                if m(i, j) {
                    let x = choose|x: int| 0 <= x < s.len() && byte_chunk_match(ri, rj, #[trigger] s[x]);
                    if x < c {
                        assert(s1[x] == s[x]);
                    }
                }
                if m1(i, j) {
                    let x = choose|x: int| 0 <= x < s1.len() && byte_chunk_match(ri, rj, #[trigger] s1[x]);
                    assert(s[x] == s1[x]);
                }
                if m2(i, j) {
                    assert(s[c as int] == (lo, hi));
                }
            }
            lemma_append_self_candidates(candidates@, cc@, n as int, m1, m2, m);
        }
        candidates.append(&mut cc);
        c = c + 1;
    }
    assert(chunks@.subrange(0, nc as int) =~= chunks@);
    candidates
}

/// The chunks of `chunk_boundaries` lie inside a row.
pub(crate) proof fn lemma_byte_layout_in_row(d: int, k: int)
    requires
        0 <= d <= usize::MAX,
        0 <= k,
    ensures
        forall|c: int|
            0 <= c < chunk_ranges(d, k + 1).len() ==> (#[trigger] chunk_ranges(d, k + 1)[c]).0
                <= chunk_ranges(d, k + 1)[c].1 <= d,
{
    lemma_chunk_ranges(d, k + 1);
}

/// In a supported regime the byte filter keeps every pair within `k`.
pub(crate) proof fn lemma_finds_all_byte(r: Seq<(u32, u32, u32)>, data: Seq<u8>, n: int, d: int, k: int)
    requires
        byte_search_ok(data.len() as int, n, d, k),
        k < d,
        self_join(r, data, n, d, k, byte_filter(data, data, d, chunk_ranges(d, k + 1))),
    ensures
        finds_all_self(r, data, n, d, k),
{
    assert forall|i: int, j: int|
        0 <= i < j < n && #[trigger] rows_dist(data, data, d, i, j) <= k implies r.contains(
        (i as u32, j as u32, rows_dist(data, data, d, i, j) as u32),
    ) by {
        crate::rows::lemma_row_in_bounds(n, d, i);
        crate::rows::lemma_row_in_bounds(n, d, j);
        lemma_byte_chunks_complete(data, data, d, k, i, j);
    }
}

/// Single-threaded baseline: byte-chunk candidates of all chunks, sorted and
/// deduplicated, then verified with a full popcount.
///
/// Returns, in strictly increasing order, every `(i, j, dist)` with
/// `i < j < n` whose rows are within Hamming distance `k` and carry the same
/// bytes in one of the `k + 1` chunks of `chunk_boundaries(d_bytes, k + 1)`;
/// when `k < d_bytes` that is every pair within distance `k`.
pub fn find_pairs_self_st(data: &[u8], n: usize, d_bytes: usize, k: u32) -> (r: Vec<(u32, u32, u32)>)
    requires
        byte_search_ok(data@.len() as int, n as int, d_bytes as int, k as int),
    ensures
        self_join(
            r@,
            data@,
            n as int,
            d_bytes as int,
            k as int,
            byte_filter(data@, data@, d_bytes as int, chunk_ranges(d_bytes as int, k + 1)),
        ),
        k < d_bytes ==> finds_all_self(r@, data@, n as int, d_bytes as int, k as int),
{
    let chunks = chunk_boundaries(d_bytes, (k + 1) as usize);
    proof {
        lemma_byte_layout_in_row(d_bytes as int, k as int);
    }
    let ghost filter = byte_filter(data@, data@, d_bytes as int, chunks@);
    let mut candidates = byte_candidates_seq(data, n, d_bytes, &chunks);
    if candidates.len() == 0 {
        let r: Vec<(u32, u32, u32)> = Vec::new();
        proof {
            lemma_self_join(r@, candidates@, data@, n as int, d_bytes as int, k as int, filter);
            if k < d_bytes {
                lemma_finds_all_byte(r@, data@, n as int, d_bytes as int, k as int);
            }
        }
        return r;
    }
    let ghost unsorted = candidates@;
    sort_pairs(&mut candidates);
    proof {
        lemma_same_members(candidates@, unsorted);
    }
    let candidates = dedup_sorted_pairs(&candidates);
    proof {
        lemma_candidates_same_members(unsorted, candidates@, n as int, filter);
        lemma_candidates_in_rows(candidates@, n as int, d_bytes as int, data@.len() as int, filter);
    }
    let out = verify_with_prefetch_full(candidates.as_slice(), data, d_bytes, k);
    proof {
        lemma_verified_sorted(candidates@, data@, data@, d_bytes as int, k as int);
        lemma_self_join(out@, candidates@, data@, n as int, d_bytes as int, k as int, filter);
        if k < d_bytes {
            lemma_finds_all_byte(out@, data@, n as int, d_bytes as int, k as int);
        }
    }
    out
}

/// The candidate pairs of all byte chunks, one rayon task per chunk, laid
/// end to end in chunk order.
fn byte_candidates_par(data: &[u8], n: usize, d_bytes: usize, chunks: &Vec<(usize, usize)>) -> (cand: Vec<(u32, u32)>)
    requires
        data@.len() == n * d_bytes,
        n <= u32::MAX + 1,
        table_capacity_ok(n as int),
        forall|c: int| 0 <= c < chunks@.len() ==> (#[trigger] chunks@[c]).0 <= chunks@[c].1 <= d_bytes,
    ensures
        self_candidates(cand@, n as int, byte_filter(data@, data@, d_bytes as int, chunks@)),
{
    let one_chunk = |ch: &(usize, usize)| -> (r: Vec<(u32, u32)>)
        requires
            data@.len() == n * d_bytes,
            n <= u32::MAX + 1,
            table_capacity_ok(n as int),
            ch.0 <= ch.1 <= d_bytes,
        ensures
            self_candidates(r@, n as int, byte_chunk_filter(data@, data@, d_bytes as int, *ch)),
        { candidates_for_chunk(data, n, d_bytes, ch.0, ch.1) };
    let ghost f = one_chunk;
    let per_chunk = par_map(chunks, one_chunk);
    let cand = concat_all(&per_chunk);
    proof {
        let lists = views(per_chunk@);
        let mc = |c: int, i: int, j: int| byte_chunk_filter(data@, data@, d_bytes as int, chunks@[c])(i, j);
        assert forall|c: int, idx: int|
            0 <= c < lists.len() && 0 <= idx < lists[c].len() implies (#[trigger] lists[c][idx]).0
            < lists[c][idx].1 < n && mc(c, lists[c][idx].0 as int, lists[c][idx].1 as int) by {
            assert(lists[c] == per_chunk@[c]@);
            assert(f.ensures((&chunks@[c],), per_chunk@[c]));
        }
        assert forall|c: int, i: int, j: int|
            0 <= c < lists.len() && 0 <= i < j < n && #[trigger] mc(c, i, j) implies lists[c].contains(
            (i as u32, j as u32),
        ) by {
            assert(lists[c] == per_chunk@[c]@);
            assert(f.ensures((&chunks@[c],), per_chunk@[c]));
        }
        lemma_concat_self_candidates(lists, n as int, mc);
        let m = any_chunk(mc, lists.len() as int);
        let f = byte_filter(data@, data@, d_bytes as int, chunks@);
        assert forall|i: int, j: int| 0 <= i < j < n implies #[trigger] m(i, j) == f(i, j) by {
            if m(i, j) {
                let c = choose|c: int| 0 <= c < lists.len() && #[trigger] mc(c, i, j);
                assert(byte_chunk_match(row_of(data@, d_bytes as int, i), row_of(data@, d_bytes as int, j), chunks@[c]));
            }
            if f(i, j) {
                let c = choose|c: int|
                    0 <= c < chunks@.len() && byte_chunk_match(
                        row_of(data@, d_bytes as int, i),
                        row_of(data@, d_bytes as int, j),
                        #[trigger] chunks@[c],
                    );
                assert(mc(c, i, j));
            }
        }
        lemma_candidates_same_filter(cand@, n as int, m, f);
    }
    cand
}

/// A candidate list for one filter is one for any filter that agrees with
/// it on the pairs `i < j < n`.
pub(crate) proof fn lemma_candidates_same_filter(cand: Seq<(u32, u32)>, n: int, m1: spec_fn(int, int) -> bool, m2: spec_fn(int, int) -> bool)
    requires
        self_candidates(cand, n, m1),
        forall|i: int, j: int| 0 <= i < j < n ==> #[trigger] m1(i, j) == m2(i, j),
    ensures
        self_candidates(cand, n, m2),
{
    assert forall|i: int, j: int| 0 <= i < j < n && #[trigger] m2(i, j) implies cand.contains((i as u32, j as u32)) by {
        assert(m1(i, j));
    }
}

/// Size of the pieces the verify step hands to rayon: a quarter of the
/// candidates per thread, at least 1024.
pub(crate) fn verify_piece_size(len: usize, n_threads: usize) -> (cs: usize)
    requires
        1 <= n_threads <= 0xffff,
    ensures
        cs == (if len as int / (n_threads * 4) >= 1024 {
            len as int / (n_threads * 4)
        } else {
            1024
        }),
        cs >= 1,
{
    let q = len / (n_threads * 4);
    if q >= 1024 {
        q
    } else {
        1024
    }
}

/// Verify the candidates in parallel pieces with the early-exit popcount,
/// results laid end to end in candidate order.
pub(crate) fn verify_par_pieces(candidates: &Vec<(u32, u32)>, data: &[u8], d_bytes: usize, k: u32, n_threads: usize) -> (out: Vec<(u32, u32, u32)>)
    requires
        1 <= n_threads <= 0xffff,
        8 * d_bytes <= u32::MAX,
        pairs_in_rows(candidates@, data@.len() as int, data@.len() as int, d_bytes as int),
    ensures
        out@ == verified(candidates@, data@, data@, d_bytes as int, k as int),
{
    let chunk_size = verify_piece_size(candidates.len(), n_threads);
    proof {
        assert forall|s: &[(u32, u32)]|
            (forall|x: (u32, u32)| #[trigger] s@.contains(x) ==> candidates@.contains(x)) implies pairs_in_rows(
            s@,
            data@.len() as int,
            data@.len() as int,
            d_bytes as int,
        ) by {
            assert forall|idx: int| 0 <= idx < s@.len() implies ((#[trigger] s@[idx]).0 + 1) * d_bytes
                <= data@.len() && (s@[idx].1 + 1) * d_bytes <= data@.len() && s@[idx].0 < usize::MAX
                && s@[idx].1 < usize::MAX by {
                assert(s@.contains(s@[idx]));
                let x = choose|x: int| 0 <= x < candidates@.len() && candidates@[x] == s@[idx];
            }
        }
    }
    let one_piece = |slice: &[(u32, u32)]| -> (r: Vec<(u32, u32, u32)>)
        requires
            8 * d_bytes <= u32::MAX,
            pairs_in_rows(slice@, data@.len() as int, data@.len() as int, d_bytes as int),
        ensures
            r@ == verified(slice@, data@, data@, d_bytes as int, k as int),
        { verify_with_prefetch(slice, data, d_bytes, k) };
    let parts = par_map_pieces(candidates, chunk_size, one_piece);
    let out = concat_all(&parts);
    proof {
        let pv = views(parts@);
        assert forall|p: int| 0 <= p < pv.len() implies #[trigger] pv[p] == verified(
            piece_of(candidates@, chunk_size as int, p),
            data@,
            data@,
            d_bytes as int,
            k as int,
        ) by {
            assert(pv[p] == parts@[p]@);
        }
        lemma_verified_pieces(candidates@, chunk_size as int, pv, data@, data@, d_bytes as int, k as int);
    }
    out
}

/// Verify the candidates in parallel pieces with the full popcount,
/// results laid end to end in candidate order.
fn verify_par_pieces_full(candidates: &Vec<(u32, u32)>, data: &[u8], d_bytes: usize, k: u32, n_threads: usize) -> (out: Vec<(u32, u32, u32)>)
    requires
        1 <= n_threads <= 0xffff,
        8 * d_bytes <= u32::MAX,
        pairs_in_rows(candidates@, data@.len() as int, data@.len() as int, d_bytes as int),
    ensures
        out@ == verified(candidates@, data@, data@, d_bytes as int, k as int),
{
    let chunk_size = verify_piece_size(candidates.len(), n_threads);
    proof {
        assert forall|s: &[(u32, u32)]|
            (forall|x: (u32, u32)| #[trigger] s@.contains(x) ==> candidates@.contains(x)) implies pairs_in_rows(
            s@,
            data@.len() as int,
            data@.len() as int,
            d_bytes as int,
        ) by {
            assert forall|idx: int| 0 <= idx < s@.len() implies ((#[trigger] s@[idx]).0 + 1) * d_bytes
                <= data@.len() && (s@[idx].1 + 1) * d_bytes <= data@.len() && s@[idx].0 < usize::MAX
                && s@[idx].1 < usize::MAX by {
                assert(s@.contains(s@[idx]));
                let x = choose|x: int| 0 <= x < candidates@.len() && candidates@[x] == s@[idx];
            }
        }
    }
    let one_piece = |slice: &[(u32, u32)]| -> (r: Vec<(u32, u32, u32)>)
        requires
            8 * d_bytes <= u32::MAX,
            pairs_in_rows(slice@, data@.len() as int, data@.len() as int, d_bytes as int),
        ensures
            r@ == verified(slice@, data@, data@, d_bytes as int, k as int),
        { verify_with_prefetch_full(slice, data, d_bytes, k) };
    let parts = par_map_pieces(candidates, chunk_size, one_piece);
    let out = concat_all(&parts);
    proof {
        let pv = views(parts@);
        assert forall|p: int| 0 <= p < pv.len() implies #[trigger] pv[p] == verified(
            piece_of(candidates@, chunk_size as int, p),
            data@,
            data@,
            d_bytes as int,
            k as int,
        ) by {
            assert(pv[p] == parts@[p]@);
        }
        lemma_verified_pieces(candidates@, chunk_size as int, pv, data@, data@, d_bytes as int, k as int);
    }
    out
}

/// Sort and deduplicate the candidates.
pub(crate) fn sorted_unique_pairs(candidates: Vec<(u32, u32)>, parallel: bool) -> (r: Vec<(u32, u32)>)
    ensures
        strictly_sorted_pairs(r@),
        forall|x: (u32, u32)| r@.contains(x) <==> candidates@.contains(x),
{
    let mut candidates = candidates;
    let ghost unsorted = candidates@;
    if parallel {
        par_sort_pairs(&mut candidates);
    } else {
        sort_pairs(&mut candidates);
    }
    proof {
        lemma_same_members(candidates@, unsorted);
    }
    dedup_sorted_pairs(&candidates)
}

/// Sort and deduplicate the verified triples.
pub(crate) fn sorted_unique_triples(verified: Vec<(u32, u32, u32)>, parallel: bool) -> (r: Vec<(u32, u32, u32)>)
    ensures
        strictly_sorted_triples(r@),
        forall|x: (u32, u32, u32)| r@.contains(x) <==> verified@.contains(x),
{
    let mut verified = verified;
    let ghost unsorted = verified@;
    if parallel {
        par_sort_triples(&mut verified);
    } else {
        sort_triples(&mut verified);
    }
    proof {
        lemma_same_members(verified@, unsorted);
    }
    dedup_sorted_triples(&verified)
}

/// The empty result of a search without candidates.
pub(crate) proof fn lemma_no_pairs(cand: Seq<(u32, u32)>, data: Seq<u8>, n: int, d: int, k: int, m: spec_fn(int, int) -> bool)
    requires
        cand.len() == 0,
        self_candidates(cand, n, m),
        0 <= k <= u32::MAX,
        n <= u32::MAX + 1,
    ensures
        self_join(seq![], data, n, d, k, m),
{
    lemma_self_join(seq![], cand, data, n, d, k, m);
}

/// Rayon-parallel version: each chunk position runs as its own task, then
/// the candidates are sorted, deduplicated and verified in parallel with a
/// full popcount. Same result as `find_pairs_self_st`.
pub fn find_pairs_self_par(data: &[u8], n: usize, d_bytes: usize, k: u32) -> (r: Vec<(u32, u32, u32)>)
    requires
        byte_search_ok(data@.len() as int, n as int, d_bytes as int, k as int),
    ensures
        self_join(
            r@,
            data@,
            n as int,
            d_bytes as int,
            k as int,
            byte_filter(data@, data@, d_bytes as int, chunk_ranges(d_bytes as int, k + 1)),
        ),
        k < d_bytes ==> finds_all_self(r@, data@, n as int, d_bytes as int, k as int),
{
    let chunks = chunk_boundaries(d_bytes, (k + 1) as usize);
    proof {
        lemma_byte_layout_in_row(d_bytes as int, k as int);
    }
    let ghost filter = byte_filter(data@, data@, d_bytes as int, chunks@);
    let candidates = byte_candidates_par(data, n, d_bytes, &chunks);
    if candidates.len() == 0 {
        proof {
            lemma_no_pairs(candidates@, data@, n as int, d_bytes as int, k as int, filter);
            if k < d_bytes {
                lemma_finds_all_byte(seq![], data@, n as int, d_bytes as int, k as int);
            }
        }
        return Vec::new();
    }
    let ghost all = candidates@;
    let candidates = sorted_unique_pairs(candidates, true);
    proof {
        lemma_candidates_same_members(all, candidates@, n as int, filter);
        lemma_candidates_in_rows(candidates@, n as int, d_bytes as int, data@.len() as int, filter);
    }
    let check = |p: &(u32, u32)| -> (t: Option<(u32, u32, u32)>)
        requires
            8 * d_bytes <= u32::MAX,
            (p.0 + 1) * d_bytes <= data@.len(),
            (p.1 + 1) * d_bytes <= data@.len(),
            p.0 < usize::MAX,
            p.1 < usize::MAX,
        ensures
            t == (if rows_dist(data@, data@, d_bytes as int, p.0 as int, p.1 as int) <= k {
                Some((p.0, p.1, rows_dist(data@, data@, d_bytes as int, p.0 as int, p.1 as int) as u32))
            } else {
                None
            }),
        { verify_pair(data, data, d_bytes, k, p) };
    let ghost f = check;
    let out = par_filter_map(&candidates, check);
    proof {
        let outs = choose|outs: Seq<Option<(u32, u32, u32)>>|
            out@ == crate::outside::somes(outs) && outs.len() == candidates@.len() && (forall|i: int|
                0 <= i < candidates@.len() ==> #[trigger] f.ensures((&candidates@[i],), outs[i]));
        assert forall|i: int| 0 <= i < candidates@.len() implies #[trigger] outs[i] == (if rows_dist(
            data@,
            data@,
            d_bytes as int,
            candidates@[i].0 as int,
            candidates@[i].1 as int,
        ) <= k {
            Some((candidates@[i].0, candidates@[i].1, rows_dist(data@, data@, d_bytes as int, candidates@[i].0 as int, candidates@[i].1 as int) as u32))
        } else {
            None
        }) by {
            assert(f.ensures((&candidates@[i],), outs[i]));
        }
        lemma_somes_verified(candidates@, outs, data@, data@, d_bytes as int, k as int);
        lemma_verified_sorted(candidates@, data@, data@, d_bytes as int, k as int);
        lemma_self_join(out@, candidates@, data@, n as int, d_bytes as int, k as int, filter);
        if k < d_bytes {
            lemma_finds_all_byte(out@, data@, n as int, d_bytes as int, k as int);
        }
    }
    out
}

/// Rayon-parallel candidates, sorted and deduplicated, then verified in
/// parallel pieces with the early-exit popcount. Same result as
/// `find_pairs_self_st`.
pub fn find_pairs_self_par_prefetch(data: &[u8], n: usize, d_bytes: usize, k: u32) -> (r: Vec<(u32, u32, u32)>)
    requires
        byte_search_ok(data@.len() as int, n as int, d_bytes as int, k as int),
    ensures
        self_join(
            r@,
            data@,
            n as int,
            d_bytes as int,
            k as int,
            byte_filter(data@, data@, d_bytes as int, chunk_ranges(d_bytes as int, k + 1)),
        ),
        k < d_bytes ==> finds_all_self(r@, data@, n as int, d_bytes as int, k as int),
{
    let chunks = chunk_boundaries(d_bytes, (k + 1) as usize);
    proof {
        lemma_byte_layout_in_row(d_bytes as int, k as int);
    }
    let ghost filter = byte_filter(data@, data@, d_bytes as int, chunks@);
    let candidates = byte_candidates_par(data, n, d_bytes, &chunks);
    if candidates.len() == 0 {
        proof {
            lemma_no_pairs(candidates@, data@, n as int, d_bytes as int, k as int, filter);
            if k < d_bytes {
                lemma_finds_all_byte(seq![], data@, n as int, d_bytes as int, k as int);
            }
        }
        return Vec::new();
    }
    let ghost all = candidates@;
    let candidates = sorted_unique_pairs(candidates, true);
    proof {
        lemma_candidates_same_members(all, candidates@, n as int, filter);
        lemma_candidates_in_rows(candidates@, n as int, d_bytes as int, data@.len() as int, filter);
    }
    let out = verify_par_pieces(&candidates, data, d_bytes, k, current_num_threads());
    proof {
        lemma_verified_sorted(candidates@, data@, data@, d_bytes as int, k as int);
        lemma_self_join(out@, candidates@, data@, n as int, d_bytes as int, k as int, filter);
        if k < d_bytes {
            lemma_finds_all_byte(out@, data@, n as int, d_bytes as int, k as int);
        }
    }
    out
}

/// Skip candidate dedup: verify every candidate (duplicates included) with
/// a full popcount, then sort and deduplicate the verified pairs. Same
/// result as `find_pairs_self_st`.
pub fn find_pairs_self_no_dedup(data: &[u8], n: usize, d_bytes: usize, k: u32) -> (r: Vec<(u32, u32, u32)>)
    requires
        byte_search_ok(data@.len() as int, n as int, d_bytes as int, k as int),
    ensures
        self_join(
            r@,
            data@,
            n as int,
            d_bytes as int,
            k as int,
            byte_filter(data@, data@, d_bytes as int, chunk_ranges(d_bytes as int, k + 1)),
        ),
        k < d_bytes ==> finds_all_self(r@, data@, n as int, d_bytes as int, k as int),
{
    let chunks = chunk_boundaries(d_bytes, (k + 1) as usize);
    proof {
        lemma_byte_layout_in_row(d_bytes as int, k as int);
    }
    let ghost filter = byte_filter(data@, data@, d_bytes as int, chunks@);
    let candidates = byte_candidates_seq(data, n, d_bytes, &chunks);
    if candidates.len() == 0 {
        proof {
            lemma_no_pairs(candidates@, data@, n as int, d_bytes as int, k as int, filter);
            if k < d_bytes {
                lemma_finds_all_byte(seq![], data@, n as int, d_bytes as int, k as int);
            }
        }
        return Vec::new();
    }
    proof {
        lemma_candidates_in_rows(candidates@, n as int, d_bytes as int, data@.len() as int, filter);
    }
    let verified = verify_with_prefetch_full(candidates.as_slice(), data, d_bytes, k);
    let out = sorted_unique_triples(verified, false);
    proof {
        lemma_self_join(out@, candidates@, data@, n as int, d_bytes as int, k as int, filter);
        if k < d_bytes {
            lemma_finds_all_byte(out@, data@, n as int, d_bytes as int, k as int);
        }
    }
    out
}

/// Parallel no-dedup: per-chunk candidates in parallel, no sort or dedup of
/// the candidates; every candidate (duplicates included) is verified in
/// parallel pieces with the early-exit popcount, and the verified pairs are
/// sorted and deduplicated. Same result as `find_pairs_self_st`.
pub fn find_pairs_self_no_dedup_par_prefetch(data: &[u8], n: usize, d_bytes: usize, k: u32) -> (r: Vec<(u32, u32, u32)>)
    requires
        byte_search_ok(data@.len() as int, n as int, d_bytes as int, k as int),
    ensures
        self_join(
            r@,
            data@,
            n as int,
            d_bytes as int,
            k as int,
            byte_filter(data@, data@, d_bytes as int, chunk_ranges(d_bytes as int, k + 1)),
        ),
        k < d_bytes ==> finds_all_self(r@, data@, n as int, d_bytes as int, k as int),
{
    let chunks = chunk_boundaries(d_bytes, (k + 1) as usize);
    proof {
        lemma_byte_layout_in_row(d_bytes as int, k as int);
    }
    let ghost filter = byte_filter(data@, data@, d_bytes as int, chunks@);
    let candidates = byte_candidates_par(data, n, d_bytes, &chunks);
    if candidates.len() == 0 {
        proof {
            lemma_no_pairs(candidates@, data@, n as int, d_bytes as int, k as int, filter);
            if k < d_bytes {
                lemma_finds_all_byte(seq![], data@, n as int, d_bytes as int, k as int);
            }
        }
        return Vec::new();
    }
    proof {
        lemma_candidates_in_rows(candidates@, n as int, d_bytes as int, data@.len() as int, filter);
    }
    let threads = current_num_threads();
    let n_threads = if threads >= 1 {
        threads
    } else {
        1
    };
    let verified = verify_par_pieces(&candidates, data, d_bytes, k, n_threads);
    let out = sorted_unique_triples(verified, true);
    proof {
        lemma_self_join(out@, candidates@, data@, n as int, d_bytes as int, k as int, filter);
        if k < d_bytes {
            lemma_finds_all_byte(out@, data@, n as int, d_bytes as int, k as int);
        }
    }
    out
}

/// `find_pairs_self_no_dedup_par_prefetch` with the full-popcount verify
/// (no early exit). Same result.
pub fn find_pairs_self_no_dedup_par_prefetch_full(data: &[u8], n: usize, d_bytes: usize, k: u32) -> (r: Vec<(u32, u32, u32)>)
    requires
        byte_search_ok(data@.len() as int, n as int, d_bytes as int, k as int),
    ensures
        self_join(
            r@,
            data@,
            n as int,
            d_bytes as int,
            k as int,
            byte_filter(data@, data@, d_bytes as int, chunk_ranges(d_bytes as int, k + 1)),
        ),
        k < d_bytes ==> finds_all_self(r@, data@, n as int, d_bytes as int, k as int),
{
    let chunks = chunk_boundaries(d_bytes, (k + 1) as usize);
    proof {
        lemma_byte_layout_in_row(d_bytes as int, k as int);
    }
    let ghost filter = byte_filter(data@, data@, d_bytes as int, chunks@);
    let candidates = byte_candidates_par(data, n, d_bytes, &chunks);
    if candidates.len() == 0 {
        proof {
            lemma_no_pairs(candidates@, data@, n as int, d_bytes as int, k as int, filter);
            if k < d_bytes {
                lemma_finds_all_byte(seq![], data@, n as int, d_bytes as int, k as int);
            }
        }
        return Vec::new();
    }
    proof {
        lemma_candidates_in_rows(candidates@, n as int, d_bytes as int, data@.len() as int, filter);
    }
    let threads = current_num_threads();
    let n_threads = if threads >= 1 {
        threads
    } else {
        1
    };
    let verified = verify_par_pieces_full(&candidates, data, d_bytes, k, n_threads);
    let out = sorted_unique_triples(verified, true);
    proof {
        lemma_self_join(out@, candidates@, data@, n as int, d_bytes as int, k as int, filter);
        if k < d_bytes {
            lemma_finds_all_byte(out@, data@, n as int, d_bytes as int, k as int);
        }
    }
    out
}

/// The parallel no-dedup search; same as
/// `find_pairs_self_no_dedup_par_prefetch`.
pub fn find_pairs_self_no_dedup_par(data: &[u8], n: usize, d_bytes: usize, k: u32) -> (r: Vec<(u32, u32, u32)>)
    requires
        byte_search_ok(data@.len() as int, n as int, d_bytes as int, k as int),
    ensures
        self_join(
            r@,
            data@,
            n as int,
            d_bytes as int,
            k as int,
            byte_filter(data@, data@, d_bytes as int, chunk_ranges(d_bytes as int, k + 1)),
        ),
        k < d_bytes ==> finds_all_self(r@, data@, n as int, d_bytes as int, k as int),
{
    find_pairs_self_no_dedup_par_prefetch(data, n, d_bytes, k)
}

/// Exact all-pairs search with byte-aligned chunks, for `k < d_bytes` (the
/// regime where `k + 1` byte chunks exist): every `(i, j, dist)` with
/// `i < j < n` and `dist = hamming(row i, row j) <= k`, in strictly
/// increasing order.
pub fn find_pairs_self(data: &[u8], n: usize, d_bytes: usize, k: u32) -> (r: Vec<(u32, u32, u32)>)
    requires
        k < d_bytes,
        byte_search_ok(data@.len() as int, n as int, d_bytes as int, k as int),
    ensures
        self_join(
            r@,
            data@,
            n as int,
            d_bytes as int,
            k as int,
            byte_filter(data@, data@, d_bytes as int, chunk_ranges(d_bytes as int, k + 1)),
        ),
        finds_all_self(r@, data@, n as int, d_bytes as int, k as int),
{
    find_pairs_self_no_dedup_par_prefetch(data, n, d_bytes, k)
}

} // verus!
