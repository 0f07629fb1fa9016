//! The model of a row-major corpus of packed rows and of what a pair search
//! returns.

use vstd::prelude::*;
use vstd::arithmetic::mul::lemma_mul_inequality;

use crate::bitspec::hamming_distance;
use crate::extract::{bit_range_key, positions_key};

verus! {

/// Row `i` of a row-major corpus with rows of `d` bytes.
pub open spec fn row_of(data: Seq<u8>, d: int, i: int) -> Seq<u8> {
    data.subrange(i * d, i * d + d)
}

/// Hamming distance between row `i` of `a` and row `j` of `b`.
pub open spec fn rows_dist(a: Seq<u8>, b: Seq<u8>, d: int, i: int, j: int) -> nat {
    hamming_distance(row_of(a, d, i), row_of(b, d, j))
}

/// Two rows carry the same bytes in the byte chunk `[chunk.0, chunk.1)`.
pub open spec fn byte_chunk_match(ra: Seq<u8>, rb: Seq<u8>, chunk: (usize, usize)) -> bool {
    ra.subrange(chunk.0 as int, chunk.1 as int) == rb.subrange(chunk.0 as int, chunk.1 as int)
}

/// Two rows have the same key for the bit chunk `[chunk.0, chunk.1)`.
pub open spec fn bit_chunk_match(ra: Seq<u8>, rb: Seq<u8>, chunk: (usize, usize)) -> bool {
    bit_range_key(ra, chunk.0 as int, chunk.1 as int) == bit_range_key(rb, chunk.0 as int, chunk.1 as int)
}

/// Two rows have the same key for a chunk of bit positions.
pub open spec fn position_chunk_match(ra: Seq<u8>, rb: Seq<u8>, positions: Seq<usize>) -> bool {
    positions_key(ra, positions, 0) == positions_key(rb, positions, 0)
}

/// Row `i` of `a` and row `j` of `b` carry the same bytes in `chunk`.
pub open spec fn byte_chunk_filter(a: Seq<u8>, b: Seq<u8>, d: int, chunk: (usize, usize)) -> spec_fn(int, int) -> bool {
    |i: int, j: int| byte_chunk_match(row_of(a, d, i), row_of(b, d, j), chunk)
}

/// Row `i` of `a` and row `j` of `b` have the same key for bit chunk
/// `chunk`.
pub open spec fn bit_chunk_filter(a: Seq<u8>, b: Seq<u8>, d: int, chunk: (usize, usize)) -> spec_fn(int, int) -> bool {
    |i: int, j: int| bit_chunk_match(row_of(a, d, i), row_of(b, d, j), chunk)
}

/// Row `i` of `a` and row `j` of `b` have the same key for the positions.
pub open spec fn position_chunk_filter(a: Seq<u8>, b: Seq<u8>, d: int, positions: Seq<usize>) -> spec_fn(int, int) -> bool {
    |i: int, j: int| position_chunk_match(row_of(a, d, i), row_of(b, d, j), positions)
}

/// Two rows match on at least one of the byte chunks.
pub open spec fn share_byte_chunk(ra: Seq<u8>, rb: Seq<u8>, chunks: Seq<(usize, usize)>) -> bool {
    exists|c: int| 0 <= c < chunks.len() && byte_chunk_match(ra, rb, #[trigger] chunks[c])
}

/// Two rows match on at least one of the bit chunks.
pub open spec fn share_bit_chunk(ra: Seq<u8>, rb: Seq<u8>, chunks: Seq<(usize, usize)>) -> bool {
    exists|c: int| 0 <= c < chunks.len() && bit_chunk_match(ra, rb, #[trigger] chunks[c])
}

/// Two rows match on at least one of the position chunks.
pub open spec fn share_position_chunk(ra: Seq<u8>, rb: Seq<u8>, chunks: Seq<Seq<usize>>) -> bool {
    exists|c: int| 0 <= c < chunks.len() && position_chunk_match(ra, rb, #[trigger] chunks[c])
}

/// `out` lists candidate pairs `(i, j)` of one corpus of `n` rows: each has
/// `i < j < n` and satisfies `m`, and every such pair is listed.
pub open spec fn self_candidates(out: Seq<(u32, u32)>, n: int, m: spec_fn(int, int) -> bool) -> bool {
    &&& forall|idx: int|
        0 <= idx < out.len() ==> (#[trigger] out[idx]).0 < out[idx].1 < n && m(
            out[idx].0 as int,
            out[idx].1 as int,
        )
    &&& forall|i: int, j: int| 0 <= i < j < n && #[trigger] m(i, j) ==> out.contains((i as u32, j as u32))
}

/// `out` lists candidate pairs `(i, j)` across corpora of `n_a` and `n_b`
/// rows: each has `i < n_a`, `j < n_b` and satisfies `m`, and every such
/// pair is listed.
pub open spec fn cross_candidates(out: Seq<(u32, u32)>, n_a: int, n_b: int, m: spec_fn(int, int) -> bool) -> bool {
    &&& forall|idx: int|
        0 <= idx < out.len() ==> (#[trigger] out[idx]).0 < n_a && out[idx].1 < n_b && m(
            out[idx].0 as int,
            out[idx].1 as int,
        )
    &&& forall|i: int, j: int| 0 <= i < n_a && 0 <= j < n_b && #[trigger] m(i, j) ==> out.contains((i as u32, j as u32))
}

/// Lexicographic order on `(i, j, dist)` triples.
pub open spec fn triple_lt(x: (u32, u32, u32), y: (u32, u32, u32)) -> bool {
    x.0 < y.0 || (x.0 == y.0 && (x.1 < y.1 || (x.1 == y.1 && x.2 < y.2)))
}

/// Lexicographic order on `(i, j)` pairs.
pub open spec fn pair_lt(x: (u32, u32), y: (u32, u32)) -> bool {
    x.0 < y.0 || (x.0 == y.0 && x.1 < y.1)
}

/// Lexicographic `<=` on `(i, j, dist)` triples.
pub open spec fn triple_le(x: (u32, u32, u32), y: (u32, u32, u32)) -> bool {
    triple_lt(x, y) || x == y
}

/// Lexicographic `<=` on `(i, j)` pairs.
pub open spec fn pair_le(x: (u32, u32), y: (u32, u32)) -> bool {
    pair_lt(x, y) || x == y
}

/// Ascending (repeats allowed).
pub open spec fn sorted_triples(s: Seq<(u32, u32, u32)>) -> bool {
    forall|a: int, b: int| 0 <= a < b < s.len() ==> triple_le(#[trigger] s[a], #[trigger] s[b])
}

/// Ascending (repeats allowed).
pub open spec fn sorted_pairs(s: Seq<(u32, u32)>) -> bool {
    forall|a: int, b: int| 0 <= a < b < s.len() ==> pair_le(#[trigger] s[a], #[trigger] s[b])
}

/// Strictly increasing, hence free of repeats.
pub open spec fn strictly_sorted_triples(s: Seq<(u32, u32, u32)>) -> bool {
    forall|a: int, b: int| 0 <= a < b < s.len() ==> triple_lt(#[trigger] s[a], #[trigger] s[b])
}

/// Strictly increasing, hence free of repeats.
pub open spec fn strictly_sorted_pairs(s: Seq<(u32, u32)>) -> bool {
    forall|a: int, b: int| 0 <= a < b < s.len() ==> pair_lt(#[trigger] s[a], #[trigger] s[b])
}

/// The result of a pair search within one corpus: the strictly sorted list
/// of all `(i, j, dist)` with `i < j < n`, `dist = hamming(row i, row j) <=
/// k`, and the pair satisfying the candidate filter `m`.
pub open spec fn self_join(
    r: Seq<(u32, u32, u32)>,
    data: Seq<u8>,
    n: int,
    d: int,
    k: int,
    m: spec_fn(int, int) -> bool,
) -> bool {
    &&& strictly_sorted_triples(r)
    &&& forall|idx: int|
        0 <= idx < r.len() ==> {
            let t = #[trigger] r[idx];
            &&& t.0 < t.1 < n
            &&& m(t.0 as int, t.1 as int)
            &&& t.2 == rows_dist(data, data, d, t.0 as int, t.1 as int)
            &&& t.2 <= k
        }
    &&& forall|i: int, j: int|
        0 <= i < j < n && #[trigger] m(i, j) && rows_dist(data, data, d, i, j) <= k ==> r.contains(
            (i as u32, j as u32, rows_dist(data, data, d, i, j) as u32),
        )
}

/// The result of a pair search across two corpora: the strictly sorted list
/// of all `(i, j, dist)` with `i < n_a`, `j < n_b`, `dist = hamming(a row i,
/// b row j) <= k`, and the pair satisfying the candidate filter `m`.
pub open spec fn cross_join(
    r: Seq<(u32, u32, u32)>,
    a: Seq<u8>,
    n_a: int,
    b: Seq<u8>,
    n_b: int,
    d: int,
    k: int,
    m: spec_fn(int, int) -> bool,
) -> bool {
    &&& strictly_sorted_triples(r)
    &&& forall|idx: int|
        0 <= idx < r.len() ==> {
            let t = #[trigger] r[idx];
            &&& t.0 < n_a
            &&& t.1 < n_b
            &&& m(t.0 as int, t.1 as int)
            &&& t.2 == rows_dist(a, b, d, t.0 as int, t.1 as int)
            &&& t.2 <= k
        }
    &&& forall|i: int, j: int|
        0 <= i < n_a && 0 <= j < n_b && #[trigger] m(i, j) && rows_dist(a, b, d, i, j) <= k
            ==> r.contains((i as u32, j as u32, rows_dist(a, b, d, i, j) as u32))
}

/// Every pair `i < j < n` within Hamming distance `k` is in `r`.
pub open spec fn finds_all_self(r: Seq<(u32, u32, u32)>, data: Seq<u8>, n: int, d: int, k: int) -> bool {
    forall|i: int, j: int|
        0 <= i < j < n && #[trigger] rows_dist(data, data, d, i, j) <= k ==> r.contains(
            (i as u32, j as u32, rows_dist(data, data, d, i, j) as u32),
        )
}

/// Every pair `(i, j)` across the corpora within Hamming distance `k` is in
/// `r`.
pub open spec fn finds_all_cross(
    r: Seq<(u32, u32, u32)>,
    a: Seq<u8>,
    n_a: int,
    b: Seq<u8>,
    n_b: int,
    d: int,
    k: int,
) -> bool {
    forall|i: int, j: int|
        0 <= i < n_a && 0 <= j < n_b && #[trigger] rows_dist(a, b, d, i, j) <= k ==> r.contains(
            (i as u32, j as u32, rows_dist(a, b, d, i, j) as u32),
        )
}

/// Row `i < n` of a corpus of `n` rows of `d` bytes lies within the corpus.
pub proof fn lemma_row_in_bounds(n: int, d: int, i: int)
    requires
        0 <= i < n,
        0 <= d,
    ensures
        0 <= i * d,
        i * d + d <= n * d,
{
    lemma_mul_inequality(i + 1, n, d);
    assert((i + 1) * d == i * d + d) by (nonlinear_arith);
    lemma_mul_inequality(0, i, d);
}

} // verus!
