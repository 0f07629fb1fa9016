//! Exactness of the prefilter: in a supported regime every pair within
//! Hamming distance `k` shares a chunk key, so the candidate filter drops no
//! pair that the verify step would keep.

use vstd::prelude::*;

use crate::chunks::{chunk_ranges, lemma_chunk_ranges, bit_chunk_layout, lemma_bit_chunk_layout};
use crate::extract::{lemma_bit_range_key_congruent, lemma_bit_range_key_exact, agree_on_range};
use crate::pigeonhole::{
    lemma_byte_ranges_pigeonhole, lemma_bit_ranges_pigeonhole, lemma_position_chunks_pigeonhole,
    disjoint_position_chunks,
};
use crate::pipeline::{byte_filter, bit_filter, position_filter};
use crate::rows::{
    row_of, rows_dist, lemma_row_in_bounds, byte_chunk_match, bit_chunk_match, position_chunk_match, self_join,
    cross_join, finds_all_self, finds_all_cross, triple_lt, pair_lt, strictly_sorted_triples,
};
use crate::extract::lemma_positions_key_congruent;
use crate::bitspec::{hamming_distance, diff_upto};
use crate::index::query_result;

verus! {

/// With byte chunks and `k < d_bytes`, any row `i` of `a` and row `j` of `b`
/// within Hamming distance `k` carry the same bytes in one of the `k + 1`
/// chunks of `chunk_boundaries(d_bytes, k + 1)`.
pub proof fn lemma_byte_chunks_complete(a: Seq<u8>, b: Seq<u8>, d: int, k: int, i: int, j: int)
    requires
        0 <= k < d <= usize::MAX,
        0 <= i,
        0 <= j,
        i * d + d <= a.len(),
        j * d + d <= b.len(),
        rows_dist(a, b, d, i, j) <= k,
    ensures
        byte_filter(a, b, d, chunk_ranges(d, k + 1))(i, j),
{
    let chunks = chunk_ranges(d, k + 1);
    lemma_chunk_ranges(d, k + 1);
    let ra = row_of(a, d, i);
    let rb = row_of(b, d, j);
    assert(0 <= i * d) by (nonlinear_arith)
        requires
            0 <= i,
            0 <= d,
    ;
    assert(0 <= j * d) by (nonlinear_arith)
        requires
            0 <= j,
            0 <= d,
    ;
    assert(ra.len() == d && rb.len() == d);
    lemma_byte_ranges_pigeonhole(ra, rb, chunks, k);
    let c = choose|c: int|
        0 <= c < chunks.len() && ra.subrange((#[trigger] chunks[c]).0 as int, chunks[c].1 as int)
            == rb.subrange(chunks[c].0 as int, chunks[c].1 as int);
    assert(byte_chunk_match(ra, rb, chunks[c]));
}

/// With bit chunks and `k < 8 * d_bytes`, any row `i` of `a` and row `j` of
/// `b` within Hamming distance `k` have the same key for one of the chunks
/// of `bit_chunks_for(8 * d_bytes, k)`.
pub proof fn lemma_bit_chunks_complete(a: Seq<u8>, b: Seq<u8>, d: int, k: int, i: int, j: int)
    requires
        0 <= k < 8 * d <= usize::MAX,
        0 <= i,
        0 <= j,
        i * d + d <= a.len(),
        j * d + d <= b.len(),
        rows_dist(a, b, d, i, j) <= k,
    ensures
        bit_filter(a, b, d, bit_chunk_layout(8 * d, k))(i, j),
{
    let chunks = bit_chunk_layout(8 * d, k);
    lemma_bit_chunk_layout(8 * d, k);
    let ra = row_of(a, d, i);
    let rb = row_of(b, d, j);
    assert(0 <= i * d) by (nonlinear_arith)
        requires
            0 <= i,
            0 <= d,
    ;
    assert(0 <= j * d) by (nonlinear_arith)
        requires
            0 <= j,
            0 <= d,
    ;
    assert(ra.len() == d && rb.len() == d);
    lemma_bit_ranges_pigeonhole(ra, rb, chunks, k);
    let c = choose|c: int|
        0 <= c < chunks.len() && crate::extract::agree_on_range(
            ra,
            rb,
            (#[trigger] chunks[c]).0 as int,
            chunks[c].1 as int,
        );
    lemma_bit_range_key_congruent(ra, rb, chunks[c].0 as int, chunks[c].1 as int);
    assert(bit_chunk_match(ra, rb, chunks[c]));
}

/// With at least `k + 1` chunks of bit positions that share no position,
/// any row `i` of `a` and row `j` of `b` within Hamming distance `k` have
/// the same key for one of the chunks.
pub proof fn lemma_position_chunks_complete(
    a: Seq<u8>,
    b: Seq<u8>,
    d: int,
    k: int,
    chunks: Seq<Seq<usize>>,
    i: int,
    j: int,
)
    requires
        0 <= k,
        0 <= d,
        chunks.len() >= k + 1,
        disjoint_position_chunks(chunks),
        forall|c: int, t: int|
            0 <= c < chunks.len() && 0 <= t < chunks[c].len() ==> #[trigger] chunks[c][t] < 8 * d,
        0 <= i,
        0 <= j,
        i * d + d <= a.len(),
        j * d + d <= b.len(),
        rows_dist(a, b, d, i, j) <= k,
    ensures
        position_filter(a, b, d, chunks)(i, j),
{
    let ra = row_of(a, d, i);
    let rb = row_of(b, d, j);
    assert(0 <= i * d) by (nonlinear_arith)
        requires
            0 <= i,
            0 <= d,
    ;
    assert(0 <= j * d) by (nonlinear_arith)
        requires
            0 <= j,
            0 <= d,
    ;
    assert(ra.len() == d && rb.len() == d);
    lemma_position_chunks_pigeonhole(ra, rb, chunks, k);
    let c = choose|c: int| 0 <= c < chunks.len() && crate::extract::agree_on_positions(ra, rb, #[trigger] chunks[c]);
    lemma_positions_key_congruent(ra, rb, chunks[c], 0);
    assert(position_chunk_match(ra, rb, chunks[c]));
}


/// Two strictly increasing lists (for a strict total order `lt`) with the
/// same members are the same list.
pub proof fn lemma_sorted_same_members<T>(s1: Seq<T>, s2: Seq<T>, lt: spec_fn(T, T) -> bool)
    requires
        forall|x: T| !#[trigger] lt(x, x),
        forall|x: T, y: T| #[trigger] lt(x, y) ==> !lt(y, x),
        forall|x: T, y: T| x != y ==> #[trigger] lt(x, y) || lt(y, x),
        forall|a: int, b: int| 0 <= a < b < s1.len() ==> lt(#[trigger] s1[a], #[trigger] s1[b]),
        forall|a: int, b: int| 0 <= a < b < s2.len() ==> lt(#[trigger] s2[a], #[trigger] s2[b]),
        forall|x: T| s1.contains(x) <==> s2.contains(x),
    ensures
        s1 == s2,
    decreases s1.len(),
{
    if s1.len() == 0 {
        if s2.len() > 0 {
            assert(s2.contains(s2[0]));
        }
        assert(s1 =~= s2);
    } else {
        assert(s1.contains(s1[0]));
        assert(s2.len() > 0);
        assert(s2.contains(s2[0]));
        let a = s1[0];
        let b = s2[0];
        let y = choose|y: int| 0 <= y < s2.len() && s2[y] == a;
        let x = choose|x: int| 0 <= x < s1.len() && s1[x] == b;
        if a != b {
            assert(y != 0 && x != 0);
            assert(lt(s2[0], s2[y]));
            assert(lt(s1[0], s1[x]));
        }
        let r1 = s1.drop_first();
        let r2 = s2.drop_first();
        assert forall|z: T| r1.contains(z) <==> r2.contains(z) by {
            if r1.contains(z) {
                let i = choose|i: int| 0 <= i < r1.len() && r1[i] == z;
                assert(s1[i + 1] == z);
                assert(lt(s1[0], s1[i + 1]));
                assert(s1.contains(z));
                assert(s2.contains(z));
                let i2 = choose|i2: int| 0 <= i2 < s2.len() && s2[i2] == z;
                assert(i2 != 0);
                assert(r2[i2 - 1] == z);
            }
            if r2.contains(z) {
                let i = choose|i: int| 0 <= i < r2.len() && r2[i] == z;
                assert(s2[i + 1] == z);
                assert(lt(s2[0], s2[i + 1]));
                assert(s2.contains(z));
                assert(s1.contains(z));
                let i1 = choose|i1: int| 0 <= i1 < s1.len() && s1[i1] == z;
                assert(i1 != 0);
                assert(r1[i1 - 1] == z);
            }
        }
        assert forall|a1: int, b1: int| 0 <= a1 < b1 < r1.len() implies lt(#[trigger] r1[a1], #[trigger] r1[b1]) by {
            assert(lt(s1[a1 + 1], s1[b1 + 1]));
        }
        assert forall|a1: int, b1: int| 0 <= a1 < b1 < r2.len() implies lt(#[trigger] r2[a1], #[trigger] r2[b1]) by {
            assert(lt(s2[a1 + 1], s2[b1 + 1]));
        }
        lemma_sorted_same_members(r1, r2, lt);
        assert(s1 =~= seq![a].add(r1));
        assert(s2 =~= seq![b].add(r2));
    }
}

/// Two strictly increasing lists of triples with the same members are the
/// same list.
pub proof fn lemma_triples_same_members(s1: Seq<(u32, u32, u32)>, s2: Seq<(u32, u32, u32)>)
    requires
        strictly_sorted_triples(s1),
        strictly_sorted_triples(s2),
        forall|x: (u32, u32, u32)| s1.contains(x) <==> s2.contains(x),
    ensures
        s1 == s2,
{
    let lt = |x: (u32, u32, u32), y: (u32, u32, u32)| triple_lt(x, y);
    assert forall|a: int, b: int| 0 <= a < b < s1.len() implies lt(#[trigger] s1[a], #[trigger] s1[b]) by {
        assert(triple_lt(s1[a], s1[b]));
    }
    assert forall|a: int, b: int| 0 <= a < b < s2.len() implies lt(#[trigger] s2[a], #[trigger] s2[b]) by {
        assert(triple_lt(s2[a], s2[b]));
    }
    lemma_sorted_same_members(s1, s2, lt);
}

/// A pair search result is determined by its candidate filter: any two
/// results of self searches over the same corpus, `k` and filter are the
/// same list (so the single-threaded, parallel, no-dedup and packed-key
/// byte searches all return the same list).
pub proof fn lemma_self_join_unique(
    r1: Seq<(u32, u32, u32)>,
    r2: Seq<(u32, u32, u32)>,
    data: Seq<u8>,
    n: int,
    d: int,
    k: int,
    m: spec_fn(int, int) -> bool,
)
    requires
        self_join(r1, data, n, d, k, m),
        self_join(r2, data, n, d, k, m),
    ensures
        r1 == r2,
{
    assert forall|x: (u32, u32, u32)| r1.contains(x) implies r2.contains(x) by {
        let i = choose|i: int| 0 <= i < r1.len() && r1[i] == x;
        assert(r1[i] == x);
    }
    assert forall|x: (u32, u32, u32)| r2.contains(x) implies r1.contains(x) by {
        let i = choose|i: int| 0 <= i < r2.len() && r2[i] == x;
        assert(r2[i] == x);
    }
    lemma_triples_same_members(r1, r2);
}

/// Exact self searches agree: any two results that each list only pairs of
/// the corpus within `k` (with any filters) and find every pair within `k`
/// are the same list (the byte search with `k < d_bytes`, the bit search,
/// the planned search with a disjoint plan and the q-gram search all
/// return the brute-force pair list).
pub proof fn lemma_exact_self_unique(
    r1: Seq<(u32, u32, u32)>,
    r2: Seq<(u32, u32, u32)>,
    data: Seq<u8>,
    n: int,
    d: int,
    k: int,
    m1: spec_fn(int, int) -> bool,
    m2: spec_fn(int, int) -> bool,
)
    requires
        self_join(r1, data, n, d, k, m1),
        self_join(r2, data, n, d, k, m2),
        finds_all_self(r1, data, n, d, k),
        finds_all_self(r2, data, n, d, k),
    ensures
        r1 == r2,
{
    assert forall|x: (u32, u32, u32)| r1.contains(x) implies r2.contains(x) by {
        let i = choose|i: int| 0 <= i < r1.len() && r1[i] == x;
        assert(r1[i] == x);
    }
    assert forall|x: (u32, u32, u32)| r2.contains(x) implies r1.contains(x) by {
        let i = choose|i: int| 0 <= i < r2.len() && r2[i] == x;
        assert(r2[i] == x);
    }
    lemma_triples_same_members(r1, r2);
}

/// An exact self search contains every pair that any self search over the
/// same corpus and `k` reports (so the bit search contains the byte
/// search's pairs in every regime).
pub proof fn lemma_exact_self_contains(
    exact: Seq<(u32, u32, u32)>,
    other: Seq<(u32, u32, u32)>,
    data: Seq<u8>,
    n: int,
    d: int,
    k: int,
    m: spec_fn(int, int) -> bool,
)
    requires
        finds_all_self(exact, data, n, d, k),
        self_join(other, data, n, d, k, m),
    ensures
        forall|x: (u32, u32, u32)| other.contains(x) ==> exact.contains(x),
{
    assert forall|x: (u32, u32, u32)| other.contains(x) implies exact.contains(x) by {
        let i = choose|i: int| 0 <= i < other.len() && other[i] == x;
        assert(other[i] == x);
    }
}

/// Exact cross searches agree: any two cross results over the same
/// corpora and `k` that find every pair within `k` are the same list (the
/// byte cross search with `k < d_bytes` and the bit cross search return
/// the brute-force pair list).
pub proof fn lemma_exact_cross_unique(
    r1: Seq<(u32, u32, u32)>,
    r2: Seq<(u32, u32, u32)>,
    a: Seq<u8>,
    n_a: int,
    b: Seq<u8>,
    n_b: int,
    d: int,
    k: int,
    m1: spec_fn(int, int) -> bool,
    m2: spec_fn(int, int) -> bool,
)
    requires
        cross_join(r1, a, n_a, b, n_b, d, k, m1),
        cross_join(r2, a, n_a, b, n_b, d, k, m2),
        finds_all_cross(r1, a, n_a, b, n_b, d, k),
        finds_all_cross(r2, a, n_a, b, n_b, d, k),
    ensures
        r1 == r2,
{
    assert forall|x: (u32, u32, u32)| r1.contains(x) implies r2.contains(x) by {
        let i = choose|i: int| 0 <= i < r1.len() && r1[i] == x;
        assert(r1[i] == x);
    }
    assert forall|x: (u32, u32, u32)| r2.contains(x) implies r1.contains(x) by {
        let i = choose|i: int| 0 <= i < r2.len() && r2[i] == x;
        assert(r2[i] == x);
    }
    lemma_triples_same_members(r1, r2);
}

/// The distance between row `i` of `a` and row `j` of `b` is the distance
/// between row `j` of `b` and row `i` of `a`.
proof fn lemma_rows_dist_swap(a: Seq<u8>, n_a: int, b: Seq<u8>, n_b: int, d: int, i: int, j: int)
    requires
        0 <= d,
        a.len() == n_a * d,
        b.len() == n_b * d,
        0 <= i < n_a,
        0 <= j < n_b,
    ensures
        rows_dist(a, b, d, i, j) == rows_dist(b, a, d, j, i),
{
    lemma_row_in_bounds(n_a, d, i);
    lemma_row_in_bounds(n_b, d, j);
    lemma_hamming_symmetric(row_of(a, d, i), row_of(b, d, j));
}

/// Swapping the corpora of an exact cross search swaps its pairs: `(i, j,
/// dist)` is found searching `a` against `b` exactly when `(j, i, dist)` is
/// found searching `b` against `a` (for `find_pairs_cross` with `k <
/// d_bytes` and for `find_pairs_cross_bit`).
pub proof fn lemma_cross_swap(
    r1: Seq<(u32, u32, u32)>,
    r2: Seq<(u32, u32, u32)>,
    a: Seq<u8>,
    n_a: int,
    b: Seq<u8>,
    n_b: int,
    d: int,
    k: int,
    m1: spec_fn(int, int) -> bool,
    m2: spec_fn(int, int) -> bool,
)
    requires
        0 <= d,
        a.len() == n_a * d,
        b.len() == n_b * d,
        cross_join(r1, a, n_a, b, n_b, d, k, m1),
        finds_all_cross(r1, a, n_a, b, n_b, d, k),
        cross_join(r2, b, n_b, a, n_a, d, k, m2),
        finds_all_cross(r2, b, n_b, a, n_a, d, k),
    ensures
        forall|i: u32, j: u32, dist: u32|
            #![trigger r1.contains((i, j, dist))]
            #![trigger r2.contains((j, i, dist))]
            r1.contains((i, j, dist)) <==> r2.contains((j, i, dist)),
{
    assert forall|i: u32, j: u32, dist: u32| #[trigger] r1.contains((i, j, dist)) implies r2.contains((j, i, dist)) by {
        let x = choose|x: int| 0 <= x < r1.len() && r1[x] == (i, j, dist);
        assert(r1[x] == (i, j, dist));
        lemma_rows_dist_swap(a, n_a, b, n_b, d, i as int, j as int);
        assert(rows_dist(b, a, d, j as int, i as int) <= k);
    }
    assert forall|i: u32, j: u32, dist: u32| r2.contains((j, i, dist)) implies #[trigger] r1.contains((i, j, dist)) by {
        let x = choose|x: int| 0 <= x < r2.len() && r2[x] == (j, i, dist);
        assert(r2[x] == (j, i, dist));
        lemma_rows_dist_swap(a, n_a, b, n_b, d, i as int, j as int);
        assert(rows_dist(a, b, d, i as int, j as int) <= k);
    }
}

/// An exact cross search of a corpus against itself agrees with the exact
/// self search: its triples with `i < j` are exactly the self search's,
/// every row is paired with itself at distance 0, and `(j, i, dist)` is
/// listed whenever `(i, j, dist)` is.
pub proof fn lemma_cross_self_agrees(
    rc: Seq<(u32, u32, u32)>,
    rs: Seq<(u32, u32, u32)>,
    data: Seq<u8>,
    n: int,
    d: int,
    k: int,
    mc: spec_fn(int, int) -> bool,
    ms: spec_fn(int, int) -> bool,
)
    requires
        0 <= d,
        0 <= k,
        data.len() == n * d,
        cross_join(rc, data, n, data, n, d, k, mc),
        finds_all_cross(rc, data, n, data, n, d, k),
        self_join(rs, data, n, d, k, ms),
        finds_all_self(rs, data, n, d, k),
    ensures
        forall|i: u32, j: u32, dist: u32|
            #![trigger rc.contains((i, j, dist))]
            #![trigger rs.contains((i, j, dist))]
            i < j ==> (rc.contains((i, j, dist)) <==> rs.contains((i, j, dist))),
        forall|i: u32| i < n ==> #[trigger] rc.contains((i, i, 0u32)),
        forall|i: u32, j: u32, dist: u32| #[trigger] rc.contains((i, j, dist)) ==> rc.contains((j, i, dist)),
{
    lemma_cross_swap(rc, rc, data, n, data, n, d, k, mc, mc);
    assert forall|i: u32, j: u32, dist: u32|
        i < j implies (#[trigger] rc.contains((i, j, dist)) <==> rs.contains((i, j, dist))) by {
        if rc.contains((i, j, dist)) {
            let x = choose|x: int| 0 <= x < rc.len() && rc[x] == (i, j, dist);
            assert(rc[x] == (i, j, dist));
            assert(rows_dist(data, data, d, i as int, j as int) <= k);
        }
        if rs.contains((i, j, dist)) {
            let x = choose|x: int| 0 <= x < rs.len() && rs[x] == (i, j, dist);
            assert(rs[x] == (i, j, dist));
            assert(rows_dist(data, data, d, i as int, j as int) <= k);
        }
    }
    assert forall|i: u32| i < n implies #[trigger] rc.contains((i, i, 0u32)) by {
        lemma_hamming_self(row_of(data, d, i as int));
        assert(rows_dist(data, data, d, i as int, i as int) == 0);
    }
}

/// Hamming distance is symmetric.
pub proof fn lemma_hamming_symmetric(a: Seq<u8>, b: Seq<u8>)
    requires
        a.len() == b.len(),
    ensures
        hamming_distance(a, b) == hamming_distance(b, a),
{
    assert(diff_upto(a, b, 8 * a.len() as int) =~= diff_upto(b, a, 8 * b.len() as int));
}

/// A row is at distance 0 from itself.
pub proof fn lemma_hamming_self(a: Seq<u8>)
    ensures
        hamming_distance(a, a) == 0,
{
    assert(diff_upto(a, a, 8 * a.len() as int) =~= Set::<int>::empty());
}

/// `data` followed by rows `0 .. t` of `batch`, appended one at a time:
/// the rows that `t` calls of `Index::add` with those rows, in order, leave
/// in an index that held `data`.
pub open spec fn rows_appended(data: Seq<u8>, batch: Seq<u8>, d: int, t: nat) -> Seq<u8>
    decreases t,
{
    if t == 0 {
        data
    } else {
        rows_appended(data, batch, d, (t - 1) as nat) + row_of(batch, d, t - 1)
    }
}

/// Adding a batch of `m` rows at once is adding its rows one at a time, in
/// order: `Index::add_batch` leaves the row list `data + batch`, which is
/// the list that `m` calls of `Index::add` build, and it gives the first
/// row the id that the first `add` would (the old count), the last row id
/// `count + m - 1`. Indexes with the same rows, `d_bytes` and `k` answer
/// every query alike (`lemma_query_result_unique`).
pub proof fn lemma_add_batch_as_adds(data: Seq<u8>, batch: Seq<u8>, d: int, m: nat)
    requires
        0 <= d,
        batch.len() == m * d,
    ensures
        data + batch == rows_appended(data, batch, d, m),
{
    lemma_rows_appended_prefix(data, batch, d, m);
    assert(batch.subrange(0, m * d) =~= batch);
}

/// Appending the first `t` rows of `batch` appends its first `t * d` bytes.
proof fn lemma_rows_appended_prefix(data: Seq<u8>, batch: Seq<u8>, d: int, t: nat)
    requires
        0 <= d,
        t * d <= batch.len(),
    ensures
        rows_appended(data, batch, d, t) == data + batch.subrange(0, t * d),
    decreases t,
{
    if t == 0 {
        assert(t * d == 0) by (nonlinear_arith)
            requires
                t == 0,
        ;
        assert(data + batch.subrange(0, 0) =~= data);
    } else {
        let t1 = (t - 1) as nat;
        assert(t1 * d + d == t * d) by (nonlinear_arith)
            requires
                t1 == t - 1,
        ;
        assert(0 <= t1 * d) by (nonlinear_arith)
            requires
                0 <= d,
        ;
        lemma_rows_appended_prefix(data, batch, d, t1);
        assert(data + batch.subrange(0, t1 * d) + row_of(batch, d, t1 as int) =~= data + batch.subrange(0, t * d));
    }
}

/// A query result is determined by the index contents and the query row:
/// two lists that both satisfy `query_result` are the same list (so
/// `query_batch` returns what `query` returns row by row, and indexes built
/// row by row or by batch answer alike).
pub proof fn lemma_query_result_unique(
    r1: Seq<(u32, u32)>,
    r2: Seq<(u32, u32)>,
    data: Seq<u8>,
    d: int,
    k: int,
    n: int,
    row: Seq<u8>,
)
    requires
        query_result(data, d, k, n, row, r1),
        query_result(data, d, k, n, row, r2),
    ensures
        r1 == r2,
{
    assert forall|x: (u32, u32)| r1.contains(x) implies r2.contains(x) by {
        let i = choose|i: int| 0 <= i < r1.len() && r1[i] == x;
        assert(r1[i] == x);
    }
    assert forall|x: (u32, u32)| r2.contains(x) implies r1.contains(x) by {
        let i = choose|i: int| 0 <= i < r2.len() && r2[i] == x;
        assert(r2[i] == x);
    }
    let lt = |x: (u32, u32), y: (u32, u32)| pair_lt(x, y);
    assert forall|a: int, b: int| 0 <= a < b < r1.len() implies lt(#[trigger] r1[a], #[trigger] r1[b]) by {
        assert(pair_lt(r1[a], r1[b]));
    }
    assert forall|a: int, b: int| 0 <= a < b < r2.len() implies lt(#[trigger] r2[a], #[trigger] r2[b]) by {
        assert(pair_lt(r2[a], r2[b]));
    }
    lemma_sorted_same_members(r1, r2, lt);
}

/// A row just added to an index is found by a query of that row, at
/// distance 0, under the id it was given.
pub proof fn lemma_added_row_found(data: Seq<u8>, d: int, k: int, n: int, row: Seq<u8>, r: Seq<(u32, u32)>)
    requires
        0 <= k,
        0 <= n < u32::MAX,
        0 <= d,
        data.len() == n * d,
        row.len() == d,
        query_result(data + row, d, k, n + 1, row, r),
    ensures
        r.contains((n as u32, 0u32)),
{
    let all = data + row;
    assert(row_of(all, d, n) =~= row);
    lemma_hamming_self(row);
}

/// Querying an index that holds a corpus with row `i` of that corpus gives,
/// for each other row `j`, the pair that an exact self search reports for
/// `(min(i, j), max(i, j))`: the index and the self search agree.
pub proof fn lemma_query_matches_self_search(
    q: Seq<(u32, u32)>,
    r: Seq<(u32, u32, u32)>,
    data: Seq<u8>,
    n: int,
    d: int,
    k: int,
    m: spec_fn(int, int) -> bool,
    i: int,
    j: int,
    dist: u32,
)
    requires
        0 <= d,
        data.len() == n * d,
        n <= u32::MAX,
        0 <= i < n,
        0 <= j < n,
        i != j,
        query_result(data, d, k, n, row_of(data, d, i), q),
        self_join(r, data, n, d, k, m),
        finds_all_self(r, data, n, d, k),
    ensures
        q.contains((j as u32, dist)) <==> (if i < j {
            r.contains((i as u32, j as u32, dist))
        } else {
            r.contains((j as u32, i as u32, dist))
        }),
{
    crate::rows::lemma_row_in_bounds(n, d, i);
    crate::rows::lemma_row_in_bounds(n, d, j);
    let ri = row_of(data, d, i);
    let rj = row_of(data, d, j);
    lemma_hamming_symmetric(ri, rj);
    let h = hamming_distance(ri, rj);
    assert(rows_dist(data, data, d, i, j) == h);
    assert(rows_dist(data, data, d, j, i) == h);
    if q.contains((j as u32, dist)) {
        let x = choose|x: int| 0 <= x < q.len() && q[x] == (j as u32, dist);
        assert(q[x] == (j as u32, dist));
        assert(dist == h && h <= k);
        if i < j {
            assert(rows_dist(data, data, d, i, j) <= k);
        } else {
            assert(rows_dist(data, data, d, j, i) <= k);
        }
    }
    let t = if i < j {
        (i as u32, j as u32, dist)
    } else {
        (j as u32, i as u32, dist)
    };
    if r.contains(t) {
        let x = choose|x: int| 0 <= x < r.len() && r[x] == t;
        assert(r[x] == t);
        assert(dist == h && h <= k);
        assert(hamming_distance(ri, row_of(data, d, j)) <= k);
        assert(q.contains((j as u32, h as u32)));
    }
}

/// The bit filter is exact: with chunks of at most 128 bits, row `i` of `a`
/// and row `j` of `b` pass it exactly when they carry the same bits over
/// the whole of one chunk.
pub proof fn lemma_bit_filter_agrees(a: Seq<u8>, b: Seq<u8>, d: int, chunks: Seq<(usize, usize)>, i: int, j: int)
    requires
        forall|c: int| 0 <= c < chunks.len() ==> (#[trigger] chunks[c]).0 <= chunks[c].1 <= chunks[c].0 + 128,
    ensures
        bit_filter(a, b, d, chunks)(i, j) == exists|c: int|
            0 <= c < chunks.len() && agree_on_range(
                row_of(a, d, i),
                row_of(b, d, j),
                (#[trigger] chunks[c]).0 as int,
                chunks[c].1 as int,
            ),
{
    let ra = row_of(a, d, i);
    let rb = row_of(b, d, j);
    if bit_filter(a, b, d, chunks)(i, j) {
        let c = choose|c: int| 0 <= c < chunks.len() && bit_chunk_match(ra, rb, #[trigger] chunks[c]);
        lemma_bit_range_key_exact(ra, rb, chunks[c].0 as int, chunks[c].1 as int);
    }
    if exists|c: int| 0 <= c < chunks.len() && agree_on_range(ra, rb, (#[trigger] chunks[c]).0 as int, chunks[c].1 as int) {
        let c = choose|c: int| 0 <= c < chunks.len() && agree_on_range(ra, rb, (#[trigger] chunks[c]).0 as int, chunks[c].1 as int);
        lemma_bit_range_key_exact(ra, rb, chunks[c].0 as int, chunks[c].1 as int);
        assert(bit_chunk_match(ra, rb, chunks[c]));
    }
}
} // verus!
