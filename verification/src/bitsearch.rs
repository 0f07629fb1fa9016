//! Pair search within one corpus with bit-level chunks, and with a plan of
//! chunks of arbitrary bit positions.

use vstd::prelude::*;

use crate::chunks::{bit_chunks_for, bit_chunk_layout, lemma_bit_chunk_layout, bit_layout_fits};
use crate::candidates::{candidates_for_bit_chunk, candidates_for_position_chunk};
use crate::laws::{lemma_bit_chunks_complete, lemma_position_chunks_complete};
use crate::outside::{table_capacity_ok, par_map, current_num_threads};
use crate::pigeonhole::disjoint_position_chunks;
use crate::pipeline::{
    bit_filter, position_filter, concat_all, views, any_chunk, lemma_concat_self_candidates,
    lemma_self_join,
};
use crate::rows::{
    row_of, self_candidates, self_join, finds_all_self, bit_chunk_match, position_chunk_match,
    rows_dist, bit_chunk_filter, position_chunk_filter, lemma_row_in_bounds,
};
use crate::search::{
    lemma_candidates_in_rows, lemma_candidates_same_filter, verify_par_pieces,
    sorted_unique_triples, lemma_no_pairs,
};

verus! {

/// The checks and machine limits under which the bit-chunk searches over
/// `n` rows of `d` bytes run: the corpus holds exactly `n` rows, ids fit a
/// `u32`, `k < 8 * d` (the regime where `k + 1` bit chunks exist), and the
/// counts (chunk layout, row popcounts, table sizes) do not overflow.
pub open spec fn bit_search_ok(data_len: int, n: int, d: int, k: int) -> bool {
    &&& data_len == n * d
    &&& n <= u32::MAX
    &&& table_capacity_ok(n)
    &&& 8 * d <= u32::MAX
    &&& 0 <= k < 8 * d
    &&& bit_layout_fits(8 * d, k)
}

/// The candidate pairs of all bit chunks, one rayon task per chunk, laid
/// end to end in chunk order.
fn bit_candidates_par(data: &[u8], n: usize, d_bytes: usize, chunks: &Vec<(usize, usize)>) -> (cand: Vec<(u32, u32)>)
    requires
        data@.len() == n * d_bytes,
        n <= u32::MAX + 1,
        table_capacity_ok(n as int),
        forall|c: int|
            0 <= c < chunks@.len() ==> (#[trigger] chunks@[c]).0 <= chunks@[c].1 <= 8 * d_bytes
                && chunks@[c].1 - chunks@[c].0 <= 128,
    ensures
        self_candidates(cand@, n as int, bit_filter(data@, data@, d_bytes as int, chunks@)),
{
    let one_chunk = |ch: &(usize, usize)| -> (r: Vec<(u32, u32)>)
        requires
            data@.len() == n * d_bytes,
            n <= u32::MAX + 1,
            table_capacity_ok(n as int),
            ch.0 <= ch.1 <= 8 * d_bytes,
            ch.1 - ch.0 <= 128,
        ensures
            self_candidates(r@, n as int, bit_chunk_filter(data@, data@, d_bytes as int, *ch)),
        { candidates_for_bit_chunk(data, n, d_bytes, ch.0, ch.1) };
    let ghost f = one_chunk;
    let per_chunk = par_map(chunks, one_chunk);
    let cand = concat_all(&per_chunk);
    proof {
        let lists = views(per_chunk@);
        let mc = |c: int, i: int, j: int| bit_chunk_filter(data@, data@, d_bytes as int, chunks@[c])(i, j);
        assert forall|c: int, idx: int|
            0 <= c < lists.len() && 0 <= idx < lists[c].len() implies (#[trigger] lists[c][idx]).0
            < lists[c][idx].1 < n && mc(c, lists[c][idx].0 as int, lists[c][idx].1 as int) by {
            assert(lists[c] == per_chunk@[c]@);
            assert(f.ensures((&chunks@[c],), per_chunk@[c]));
        }
        assert forall|c: int, i: int, j: int|
            0 <= c < lists.len() && 0 <= i < j < n && #[trigger] mc(c, i, j) implies lists[c].contains(
            (i as u32, j as u32),
        ) by {
            assert(lists[c] == per_chunk@[c]@);
            assert(f.ensures((&chunks@[c],), per_chunk@[c]));
        }
        lemma_concat_self_candidates(lists, n as int, mc);
        let m = any_chunk(mc, lists.len() as int);
        let f = bit_filter(data@, data@, d_bytes as int, chunks@);
        assert forall|i: int, j: int| 0 <= i < j < n implies #[trigger] m(i, j) == f(i, j) by {
            if m(i, j) {
                let c = choose|c: int| 0 <= c < lists.len() && #[trigger] mc(c, i, j);
                assert(bit_chunk_match(row_of(data@, d_bytes as int, i), row_of(data@, d_bytes as int, j), chunks@[c]));
            }
            if f(i, j) {
                let c = choose|c: int|
                    0 <= c < chunks@.len() && bit_chunk_match(
                        row_of(data@, d_bytes as int, i),
                        row_of(data@, d_bytes as int, j),
                        #[trigger] chunks@[c],
                    );
                assert(mc(c, i, j));
            }
        }
        lemma_candidates_same_filter(cand@, n as int, m, f);
    }
    cand
}

/// With bit chunks every pair within `k` passes the filter.
proof fn lemma_finds_all_bit(r: Seq<(u32, u32, u32)>, data: Seq<u8>, n: int, d: int, k: int)
    requires
        bit_search_ok(data.len() as int, n, d, k),
        self_join(r, data, n, d, k, bit_filter(data, data, d, bit_chunk_layout(8 * d, k))),
    ensures
        finds_all_self(r, data, n, d, k),
{
    assert forall|i: int, j: int|
        0 <= i < j < n && #[trigger] rows_dist(data, data, d, i, j) <= k implies r.contains(
        (i as u32, j as u32, rows_dist(data, data, d, i, j) as u32),
    ) by {
        lemma_row_in_bounds(n, d, i);
        lemma_row_in_bounds(n, d, j);
        lemma_bit_chunks_complete(data, data, d, k, i, j);
    }
}

/// Exact all-pairs search with bit-level chunks, for any `k < 8 * d_bytes`:
/// every `(i, j, dist)` with `i < j < n` and `dist = hamming(row i, row j)
/// <= k`, in strictly increasing order. Candidates come from the chunks of
/// `bit_chunks_for(8 * d_bytes, k)`, are verified in parallel pieces, and
/// the verified pairs are sorted and deduplicated.
pub fn find_pairs_self_bit(data: &[u8], n: usize, d_bytes: usize, k: u32) -> (r: Vec<(u32, u32, u32)>)
    requires
        bit_search_ok(data@.len() as int, n as int, d_bytes as int, k as int),
    ensures
        self_join(
            r@,
            data@,
            n as int,
            d_bytes as int,
            k as int,
            bit_filter(data@, data@, d_bytes as int, bit_chunk_layout(8 * d_bytes, k as int)),
        ),
        finds_all_self(r@, data@, n as int, d_bytes as int, k as int),
{
    let d_bits = 8 * d_bytes;
    let chunks = bit_chunks_for(d_bits, k);
    proof {
        lemma_bit_chunk_layout(d_bits as int, k as int);
    }
    let ghost filter = bit_filter(data@, data@, d_bytes as int, chunks@);
    let candidates = bit_candidates_par(data, n, d_bytes, &chunks);
    if candidates.len() == 0 {
        proof {
            lemma_no_pairs(candidates@, data@, n as int, d_bytes as int, k as int, filter);
            lemma_finds_all_bit(seq![], data@, n as int, d_bytes as int, k as int);
        }
        return Vec::new();
    }
    proof {
        lemma_candidates_in_rows(candidates@, n as int, d_bytes as int, data@.len() as int, filter);
    }
    let threads = current_num_threads();
    let n_threads = if threads >= 1 {
        threads
    } else {
        1
    };
    let verified = verify_par_pieces(&candidates, data, d_bytes, k, n_threads);
    let out = sorted_unique_triples(verified, true);
    proof {
        lemma_self_join(out@, candidates@, data@, n as int, d_bytes as int, k as int, filter);
        lemma_finds_all_bit(out@, data@, n as int, d_bytes as int, k as int);
    }
    out
}

/// A plan of position chunks that the position search can key: each chunk
/// has at most 128 positions, all inside a row of `d` bytes.
pub open spec fn plan_fits(chunks: Seq<Seq<usize>>, d: int) -> bool {
    forall|c: int|
        0 <= c < chunks.len() ==> (#[trigger] chunks[c]).len() <= 128 && forall|t: int|
            0 <= t < chunks[c].len() ==> #[trigger] chunks[c][t] < 8 * d
}

/// The plan is used as it is: `k > 0`, no chunk is empty, and the plan has
/// at least `k + 1` chunks that share no position. Otherwise the search
/// falls back to bit-level chunks.
pub open spec fn plan_used(chunks: Seq<Seq<usize>>, k: int) -> bool {
    &&& k != 0
    &&& forall|c: int| 0 <= c < chunks.len() ==> (#[trigger] chunks[c]).len() > 0
    &&& chunks.len() >= k + 1
    &&& disjoint_position_chunks(chunks)
}

/// The candidate pairs of all position chunks, one rayon task per chunk,
/// laid end to end in chunk order.
fn position_candidates_par(data: &[u8], n: usize, d_bytes: usize, chunks: &Vec<Vec<usize>>) -> (cand: Vec<(u32, u32)>)
    requires
        data@.len() == n * d_bytes,
        n <= u32::MAX + 1,
        table_capacity_ok(n as int),
        plan_fits(views(chunks@), d_bytes as int),
    ensures
        self_candidates(cand@, n as int, position_filter(data@, data@, d_bytes as int, views(chunks@))),
{
    let one_chunk = |positions: &Vec<usize>| -> (r: Vec<(u32, u32)>)
        requires
            data@.len() == n * d_bytes,
            n <= u32::MAX + 1,
            table_capacity_ok(n as int),
            positions@.len() <= 128,
            forall|t: int| 0 <= t < positions@.len() ==> #[trigger] positions@[t] < 8 * d_bytes,
        ensures
            self_candidates(r@, n as int, position_chunk_filter(data@, data@, d_bytes as int, positions@)),
        { candidates_for_position_chunk(data, n, d_bytes, positions.as_slice()) };
    let ghost f = one_chunk;
    let ghost plan = views(chunks@);
    assert forall|c: int| 0 <= c < chunks@.len() implies #[trigger] one_chunk.requires((&chunks@[c],)) by {
        assert(plan[c] == chunks@[c]@);
    }
    let per_chunk = par_map(chunks, one_chunk);
    let cand = concat_all(&per_chunk);
    proof {
        let lists = views(per_chunk@);
        let mc = |c: int, i: int, j: int| position_chunk_filter(data@, data@, d_bytes as int, plan[c])(i, j);
        assert forall|c: int, idx: int|
            0 <= c < lists.len() && 0 <= idx < lists[c].len() implies (#[trigger] lists[c][idx]).0
            < lists[c][idx].1 < n && mc(c, lists[c][idx].0 as int, lists[c][idx].1 as int) by {
            assert(lists[c] == per_chunk@[c]@);
            assert(plan[c] == chunks@[c]@);
            assert(f.ensures((&chunks@[c],), per_chunk@[c]));
        }
        assert forall|c: int, i: int, j: int|
            0 <= c < lists.len() && 0 <= i < j < n && #[trigger] mc(c, i, j) implies lists[c].contains(
            (i as u32, j as u32),
        ) by {
            assert(lists[c] == per_chunk@[c]@);
            assert(plan[c] == chunks@[c]@);
            assert(f.ensures((&chunks@[c],), per_chunk@[c]));
        }
        lemma_concat_self_candidates(lists, n as int, mc);
        let m = any_chunk(mc, lists.len() as int);
        let f = position_filter(data@, data@, d_bytes as int, plan);
        assert forall|i: int, j: int| 0 <= i < j < n implies #[trigger] m(i, j) == f(i, j) by {
            if m(i, j) {
                let c = choose|c: int| 0 <= c < lists.len() && #[trigger] mc(c, i, j);
                assert(position_chunk_match(row_of(data@, d_bytes as int, i), row_of(data@, d_bytes as int, j), plan[c]));
            }
            if f(i, j) {
                let c = choose|c: int|
                    0 <= c < plan.len() && position_chunk_match(
                        row_of(data@, d_bytes as int, i),
                        row_of(data@, d_bytes as int, j),
                        #[trigger] plan[c],
                    );
                assert(mc(c, i, j));
            }
        }
        lemma_candidates_same_filter(cand@, n as int, m, f);
    }
    cand
}

/// Whether no bit position lies in two different chunks of the plan.
pub fn positions_disjoint(chunks: &Vec<Vec<usize>>, d_bytes: usize) -> (r: bool)
    requires
        plan_fits(views(chunks@), d_bytes as int),
        8 * d_bytes <= u32::MAX,
    ensures
        r == disjoint_position_chunks(views(chunks@)),
{
    let ghost plan = views(chunks@);
    let nc = chunks.len();
    let d_bits = 8 * d_bytes;
    let mut owner: Vec<usize> = Vec::new();
    let mut p: usize = 0;
    while p < d_bits
        invariant
            p <= d_bits,
            owner@.len() == p,
            forall|q: int| 0 <= q < p ==> owner@[q] == nc,
        decreases d_bits - p,
    {
        owner.push(nc);
        p = p + 1;
    }
    let mut c: usize = 0;
    while c < nc
        invariant
            nc == chunks@.len(),
            plan == views(chunks@),
            plan_fits(plan, d_bytes as int),
            d_bits == 8 * d_bytes,
            owner@.len() == d_bits,
            c <= nc,
            forall|q: int|
                0 <= q < d_bits && owner@[q] != nc ==> owner@[q] < c && exists|j: int|
                    0 <= j < plan[owner@[q] as int].len() && #[trigger] plan[owner@[q] as int][j] == q,
            forall|c2: int, j: int|
                0 <= c2 < c && 0 <= j < plan[c2].len() ==> owner@[#[trigger] plan[c2][j] as int] == c2,
        decreases nc - c,
    {
        let chunk = &chunks[c];
        assert(plan[c as int] == chunk@);
        let len = chunk.len();
        let mut t: usize = 0;
        while t < len
            invariant
                nc == chunks@.len(),
                plan == views(chunks@),
                plan_fits(plan, d_bytes as int),
                d_bits == 8 * d_bytes,
                owner@.len() == d_bits,
                c < nc,
                plan[c as int] == chunk@,
                len == chunk@.len(),
                t <= len,
                forall|q: int|
                    0 <= q < d_bits && owner@[q] != nc ==> owner@[q] <= c && exists|j: int|
                        0 <= j < plan[owner@[q] as int].len() && (owner@[q] < c || j < t)
                            && #[trigger] plan[owner@[q] as int][j] == q,
                forall|c2: int, j: int|
                    0 <= c2 < c && 0 <= j < plan[c2].len() ==> owner@[#[trigger] plan[c2][j] as int] == c2,
                forall|j: int| 0 <= j < t ==> owner@[#[trigger] plan[c as int][j] as int] == c,
            decreases len - t,
        {
            let pos = chunk[t];
            assert(plan[c as int][t as int] == pos);
            assert(pos < d_bits);
            let o = owner[pos];
            if o != nc && o != c {
                proof {
                    let j = choose|j: int|
                        0 <= j < plan[o as int].len() && (o < c || j < t) && #[trigger] plan[o as int][j] == pos;
                    assert(plan[o as int][j] == plan[c as int][t as int]);
                }
                return false;
            }
            if o == nc {
                let ghost before = owner@;
                owner.set(pos, c);
                proof {
                    assert forall|c2: int, j: int|
                        0 <= c2 < c && 0 <= j < plan[c2].len() implies owner@[#[trigger] plan[c2][j] as int] == c2 by {
                        assert(before[plan[c2][j] as int] == c2);
                    }
                    assert forall|j: int| 0 <= j < t + 1 implies owner@[#[trigger] plan[c as int][j] as int] == c by {
                        if j < t {
                            assert(before[plan[c as int][j] as int] == c);
                        }
                    }
                    assert forall|q: int|
                        0 <= q < d_bits && owner@[q] != nc implies owner@[q] <= c && exists|j: int|
                            0 <= j < plan[owner@[q] as int].len() && (owner@[q] < c || j < t + 1)
                                && #[trigger] plan[owner@[q] as int][j] == q by {
                        if q == pos {
                            assert(plan[c as int][t as int] == q);
                        } else {
                            assert(owner@[q] == before[q]);
                            let j = choose|j: int|
                                0 <= j < plan[before[q] as int].len() && (before[q] < c || j < t)
                                    && #[trigger] plan[before[q] as int][j] == q;
                            assert(plan[owner@[q] as int][j] == q);
                        }
                    }
                }
            }
            t = t + 1;
        }
        proof {
            assert forall|c2: int, j: int|
                0 <= c2 < c + 1 && 0 <= j < plan[c2].len() implies owner@[#[trigger] plan[c2][j] as int] == c2 by {
                if c2 == c {
                    assert(owner@[plan[c as int][j] as int] == c);
                }
            }
        }
        c = c + 1;
    }
    proof {
        assert forall|c1: int, c2: int, j1: int, j2: int|
            0 <= c1 < plan.len() && 0 <= c2 < plan.len() && c1 != c2 && 0 <= j1 < plan[c1].len()
                && 0 <= j2 < plan[c2].len() implies #[trigger] plan[c1][j1] != #[trigger] plan[c2][j2] by {
            assert(owner@[plan[c1][j1] as int] == c1);
            assert(owner@[plan[c2][j2] as int] == c2);
        }
    }
    true
}

/// Pair search on a plan of chunks of bit positions (such as an
/// entropy-balanced plan). At `k = 0`, or when the plan fails (some chunk is
/// empty, fewer than `k + 1` chunks, or a position in two chunks), it is
/// `find_pairs_self_bit`. Otherwise the candidates are the pairs that have
/// the same key for one chunk of the plan; they are verified with the
/// early-exit popcount in parallel pieces, and the verified pairs are sorted
/// and deduplicated. Either way the result is every pair within distance
/// `k`.
pub fn find_pairs_self_planned(
    data: &[u8],
    n: usize,
    d_bytes: usize,
    k: u32,
    chunks: &Vec<Vec<usize>>,
) -> (r: Vec<(u32, u32, u32)>)
    requires
        bit_search_ok(data@.len() as int, n as int, d_bytes as int, k as int),
        plan_fits(views(chunks@), d_bytes as int),
    ensures
        plan_used(views(chunks@), k as int) ==> self_join(
            r@,
            data@,
            n as int,
            d_bytes as int,
            k as int,
            position_filter(data@, data@, d_bytes as int, views(chunks@)),
        ),
        !plan_used(views(chunks@), k as int) ==> self_join(
            r@,
            data@,
            n as int,
            d_bytes as int,
            k as int,
            bit_filter(data@, data@, d_bytes as int, bit_chunk_layout(8 * d_bytes, k as int)),
        ),
        finds_all_self(r@, data@, n as int, d_bytes as int, k as int),
{
    let ghost plan = views(chunks@);
    if k == 0 {
        return find_pairs_self_bit(data, n, d_bytes, k);
    }
    let nc = chunks.len();
    let mut c: usize = 0;
    while c < nc
        invariant
            nc == chunks@.len(),
            c <= nc,
            plan == views(chunks@),
            bit_search_ok(data@.len() as int, n as int, d_bytes as int, k as int),
            forall|c2: int| 0 <= c2 < c ==> (#[trigger] plan[c2]).len() > 0,
        decreases nc - c,
    {
        assert(plan[c as int] == chunks@[c as int]@);
        if chunks[c].len() == 0 {
            return find_pairs_self_bit(data, n, d_bytes, k);
        }
        c = c + 1;
    }
    if nc < (k as usize) + 1 || !positions_disjoint(chunks, d_bytes) {
        return find_pairs_self_bit(data, n, d_bytes, k);
    }
    let ghost filter = position_filter(data@, data@, d_bytes as int, plan);
    let candidates = position_candidates_par(data, n, d_bytes, chunks);
    if candidates.len() == 0 {
        proof {
            lemma_no_pairs(candidates@, data@, n as int, d_bytes as int, k as int, filter);
            lemma_finds_all_planned(seq![], data@, n as int, d_bytes as int, k as int, plan);
        }
        return Vec::new();
    }
    proof {
        lemma_candidates_in_rows(candidates@, n as int, d_bytes as int, data@.len() as int, filter);
    }
    let threads = current_num_threads();
    let n_threads = if threads >= 1 {
        threads
    } else {
        1
    };
    let verified = verify_par_pieces(&candidates, data, d_bytes, k, n_threads);
    let out = sorted_unique_triples(verified, true);
    proof {
        lemma_self_join(out@, candidates@, data@, n as int, d_bytes as int, k as int, filter);
        lemma_finds_all_planned(out@, data@, n as int, d_bytes as int, k as int, plan);
    }
    out
}

/// With at least `k + 1` position chunks that share no position, every pair
/// within `k` passes the position filter.
proof fn lemma_finds_all_planned(r: Seq<(u32, u32, u32)>, data: Seq<u8>, n: int, d: int, k: int, plan: Seq<Seq<usize>>)
    requires
        bit_search_ok(data.len() as int, n, d, k),
        plan_fits(plan, d),
        self_join(r, data, n, d, k, position_filter(data, data, d, plan)),
    ensures
        disjoint_position_chunks(plan) && plan.len() >= k + 1 ==> finds_all_self(r, data, n, d, k),
{
    if disjoint_position_chunks(plan) && plan.len() >= k + 1 {
        assert forall|i: int, j: int|
            0 <= i < j < n && #[trigger] rows_dist(data, data, d, i, j) <= k implies r.contains(
            (i as u32, j as u32, rows_dist(data, data, d, i, j) as u32),
        ) by {
            lemma_row_in_bounds(n, d, i);
            lemma_row_in_bounds(n, d, j);
            assert forall|c: int, t: int| 0 <= c < plan.len() && 0 <= t < plan[c].len() implies #[trigger] plan[c][t] < 8 * d by {
            }
            lemma_position_chunks_complete(data, data, d, k, plan, i, j);
        }
    }
}

} // verus!
