//! An append-only near-duplicate index over packed binary vectors: rows are
//! bucketed by bit-level chunk keys as they are added, and a query returns
//! every stored row within Hamming distance `k` of the query row.

use vstd::prelude::*;
use vstd::set_lib::lemma_len_subset;

use crate::bitspec::hamming_distance;
use crate::candidates::files_rows;
use crate::chunks::{bit_chunks_for, bit_chunk_layout, lemma_bit_chunk_layout, bit_layout_fits};
use crate::extract::{bit_range_key, extract_bits};
use crate::hamming::hamming;
use crate::laws::lemma_bit_chunks_complete;
use crate::outside::{KeyBuckets, key_buckets, table_capacity_ok, IdSet, id_set, sort_pairs};

use crate::rows::{
    row_of, rows_dist, bit_chunk_match, pair_lt, strictly_sorted_pairs, lemma_row_in_bounds,
};

verus! {

/// The parameters an index can be built with: `k < 8 * d_bytes`, and the
/// machine limits of the bit-chunk layout and of `u32` popcounts.
pub open spec fn index_params_ok(d: int, k: int) -> bool {
    &&& 8 * d <= u32::MAX
    &&& 0 <= k < 8 * d
    &&& bit_layout_fits(8 * d, k)
}

/// The key of row `r` of `data` for the bit chunk `ch`.
pub open spec fn chunk_key(data: Seq<u8>, d: int, ch: (usize, usize)) -> spec_fn(int) -> u128 {
    |r: int| bit_range_key(row_of(data, d, r), ch.0 as int, ch.1 as int)
}

/// Bucket map `c` files the first `n` rows of `data` by their key for chunk
/// `c`, for every chunk.
pub open spec fn buckets_file(buckets: Seq<KeyBuckets>, chunks: Seq<(usize, usize)>, data: Seq<u8>, d: int, n: int) -> bool {
    &&& buckets.len() == chunks.len()
    &&& forall|c: int|
        0 <= c < chunks.len() ==> files_rows(key_buckets(#[trigger] buckets[c]), chunk_key(data, d, chunks[c]), n)
}

/// What a query of `row` returns from an index holding the `n` rows of
/// `data` (row-major, `d` bytes each) with radius `k`: every
/// `(id, hamming(row, row id))` within distance `k`, and nothing else, in
/// strictly increasing order.
pub open spec fn query_result(data: Seq<u8>, d: int, k: int, n: int, row: Seq<u8>, r: Seq<(u32, u32)>) -> bool {
    &&& strictly_sorted_pairs(r)
    &&& forall|idx: int|
        0 <= idx < r.len() ==> {
            let t = #[trigger] r[idx];
            &&& t.0 < n
            &&& t.1 == hamming_distance(row, row_of(data, d, t.0 as int))
            &&& t.1 <= k
        }
    &&& forall|id: int|
        0 <= id < n && #[trigger] hamming_distance(row, row_of(data, d, id)) <= k ==> r.contains(
            (id as u32, hamming_distance(row, row_of(data, d, id)) as u32),
        )
}

/// Append-only near-duplicate index over packed binary vectors.
pub struct Index {
    d_bytes: usize,
    k: u32,
    rows: Vec<u8>,
    n: u32,
    buckets: Vec<KeyBuckets>,
    chunks_bit: Vec<(usize, usize)>,
}

impl View for Index {
    type V = Seq<u8>;

    /// The stored rows, row-major.
    closed spec fn view(&self) -> Seq<u8> {
        self.rows@
    }
}

impl Index {
    /// Row width in bytes.
    pub closed spec fn spec_d_bytes(&self) -> usize {
        self.d_bytes
    }

    /// Query radius.
    pub closed spec fn spec_k(&self) -> u32 {
        self.k
    }

    /// Number of stored rows.
    pub closed spec fn count(&self) -> nat {
        self.n as nat
    }

    /// The index is well formed: it holds `count` rows of `d_bytes`, its
    /// tables can take one entry more than `count` (a query's id set
    /// reserves that much), and each chunk's bucket map files every stored
    /// row by its chunk key.
    pub closed spec fn wf(&self) -> bool {
        &&& index_params_ok(self.d_bytes as int, self.k as int)
        &&& self.rows@.len() == self.n * self.d_bytes
        &&& table_capacity_ok(self.n + 1)
        &&& self.chunks_bit@ == bit_chunk_layout(8 * self.d_bytes, self.k as int)
        &&& buckets_file(self.buckets@, self.chunks_bit@, self.rows@, self.d_bytes as int, self.n as int)
    }

    /// A well-formed index holds `count` rows of `d_bytes` and was built
    /// with admissible parameters.
    pub proof fn lemma_wf(&self)
        requires
            self.wf(),
        ensures
            self@.len() == self.count() * self.spec_d_bytes(),
            index_params_ok(self.spec_d_bytes() as int, self.spec_k() as int),
            self.count() <= u32::MAX,
            table_capacity_ok(self.count() + 1int),
    {
    }

    /// An empty index for rows of `d_bytes` bytes and radius `k < 8 *
    /// d_bytes`, with one bucket map per chunk of `bit_chunks_for(8 *
    /// d_bytes, k)`.
    pub fn new(d_bytes: usize, k: u32) -> (r: Index)
        requires
            index_params_ok(d_bytes as int, k as int),
        ensures
            r.wf(),
            r@ == Seq::<u8>::empty(),
            r.count() == 0,
            r.spec_d_bytes() == d_bytes,
            r.spec_k() == k,
    {
        let d_bits = 8 * d_bytes;
        let chunks_bit = bit_chunks_for(d_bits, k);
        let mut buckets: Vec<KeyBuckets> = Vec::new();
        let nc = chunks_bit.len();
        let mut c: usize = 0;
        let ghost data = Seq::<u8>::empty();
        while c < nc
            invariant
                nc == chunks_bit@.len(),
                c <= nc,
                buckets@.len() == c,
                forall|c2: int| 0 <= c2 < c ==> key_buckets(#[trigger] buckets@[c2]).dom() == Set::<u128>::empty(),
            decreases nc - c,
        {
            buckets.push(KeyBuckets::new());
            c = c + 1;
        }
        let r = Index { d_bytes, k, rows: Vec::new(), n: 0, buckets, chunks_bit };
        proof {
            assert forall|c2: int| 0 <= c2 < r.chunks_bit@.len() implies files_rows(
                key_buckets(#[trigger] r.buckets@[c2]),
                chunk_key(r.rows@, d_bytes as int, r.chunks_bit@[c2]),
                0,
            ) by {
                assert(key_buckets(r.buckets@[c2]).dom() == Set::<u128>::empty());
            }
        }
        r
    }

    /// File the stored row `n` under its key in every chunk's bucket map,
    /// and count it.
    fn file_row(&mut self, row: &[u8])
        requires
            index_params_ok(old(self).d_bytes as int, old(self).k as int),
            old(self).chunks_bit@ == bit_chunk_layout(8 * old(self).d_bytes, old(self).k as int),
            old(self).rows@.len() >= (old(self).n + 1) * old(self).d_bytes,
            row@ == row_of(old(self).rows@, old(self).d_bytes as int, old(self).n as int),
            old(self).n < u32::MAX,
            table_capacity_ok(old(self).n + 2),
            buckets_file(old(self).buckets@, old(self).chunks_bit@, old(self).rows@, old(self).d_bytes as int, old(self).n as int),
        ensures
            final(self).d_bytes == old(self).d_bytes,
            final(self).k == old(self).k,
            final(self).rows@ == old(self).rows@,
            final(self).chunks_bit@ == old(self).chunks_bit@,
            final(self).n == old(self).n + 1,
            buckets_file(final(self).buckets@, final(self).chunks_bit@, final(self).rows@, final(self).d_bytes as int, final(self).n as int),
    {
        let ghost d = self.d_bytes as int;
        let ghost data = self.rows@;
        let ghost chunks = self.chunks_bit@;
        proof {
            lemma_bit_chunk_layout(8 * d, self.k as int);
        }
        let id = self.n;
        proof {
            assert((id + 1) * d == id * d + d) by (nonlinear_arith);
            assert(0 <= id * d) by (nonlinear_arith)
                requires
                    0 <= id,
                    0 <= d,
            ;
        }
        let nc = self.chunks_bit.len();
        let mut c: usize = 0;
        while c < nc
            invariant
                nc == chunks.len(),
                c <= nc,
                d == self.d_bytes,
                data == self.rows@,
                chunks == self.chunks_bit@,
                id == self.n,
                id < u32::MAX,
                table_capacity_ok(id + 2),
                self.k == old(self).k,
                self.d_bytes == old(self).d_bytes,
                row@ == row_of(data, d, id as int),
                row@.len() == d,
                forall|c2: int| 0 <= c2 < chunks.len() ==> (#[trigger] chunks[c2]).0 < chunks[c2].1 && chunks[c2].1 <= 8 * d,
                forall|c2: int| 0 <= c2 < chunks.len() ==> #[trigger] chunks[c2].1 - chunks[c2].0 <= 128,
                self.buckets@.len() == nc,
                forall|c2: int|
                    0 <= c2 < c ==> files_rows(key_buckets(#[trigger] self.buckets@[c2]), chunk_key(data, d, chunks[c2]), id + 1),
                forall|c2: int|
                    c <= c2 < nc ==> files_rows(key_buckets(#[trigger] self.buckets@[c2]), chunk_key(data, d, chunks[c2]), id as int),
            decreases nc - c,
        {
            let (lo, hi) = self.chunks_bit[c];
            let key = extract_bits(row, lo, hi);
            let ghost m = key_buckets(self.buckets@[c as int]);
            proof {
                assert(files_rows(m, chunk_key(data, d, chunks[c as int]), id as int));
                crate::candidates::lemma_files_rows_step(m, chunk_key(data, d, chunks[c as int]), id as int);
                assert(chunk_key(data, d, chunks[c as int])(id as int) == key);
            }
            self.buckets[c].file(key, id);
            c = c + 1;
        }
        self.n = self.n + 1;
    }

    /// Append one row; return its id, the number of rows stored before.
    pub fn add(&mut self, row: &[u8]) -> (id: u32)
        requires
            old(self).wf(),
            row@.len() == old(self).spec_d_bytes(),
            old(self).count() < u32::MAX,
            table_capacity_ok(old(self).count() + 2int),
        ensures
            final(self).wf(),
            id == old(self).count(),
            final(self)@ == old(self)@ + row@,
            final(self).count() == old(self).count() + 1,
            final(self).spec_d_bytes() == old(self).spec_d_bytes(),
            final(self).spec_k() == old(self).spec_k(),
    {
        let id = self.n;
        let ghost before = self.rows@;
        self.rows.extend_from_slice(row);
        proof {
            assert(self.rows@ =~= before + row@);
            assert((id + 1) * self.d_bytes == id * self.d_bytes + self.d_bytes) by (nonlinear_arith);
            lemma_extend_keys(self.buckets@, self.chunks_bit@, before, row@, self.d_bytes as int, id as int);
            assert(row@ =~= row_of(self.rows@, self.d_bytes as int, id as int));
        }
        self.file_row(row);
        proof {
            assert(self.rows@.len() == self.n * self.d_bytes) by (nonlinear_arith)
                requires
                    self.rows@.len() == before.len() + self.d_bytes,
                    before.len() == id * self.d_bytes,
                    self.n == id + 1,
            ;
        }
        id
    }

    /// Append a batch of rows (row-major, a multiple of `d_bytes` long);
    /// return `Some(first_id)`, the id of the first row added, or `None` if
    /// the batch was empty.
    pub fn add_batch(&mut self, batch: &[u8]) -> (r: Option<u32>)
        requires
            old(self).wf(),
            batch@.len() % (old(self).spec_d_bytes() as nat) == 0,
            old(self).count() + batch@.len() / (old(self).spec_d_bytes() as nat) <= u32::MAX,
            table_capacity_ok(old(self).count() + batch@.len() / (old(self).spec_d_bytes() as nat) + 1int),
        ensures
            final(self).wf(),
            final(self)@ == old(self)@ + batch@,
            final(self).count() == old(self).count() + batch@.len() / (old(self).spec_d_bytes() as nat),
            r == (if batch@.len() == 0 {
                None
            } else {
                Some(old(self).count() as u32)
            }),
            final(self).spec_d_bytes() == old(self).spec_d_bytes(),
            final(self).spec_k() == old(self).spec_k(),
    {
        let d = self.d_bytes;
        let m = batch.len() / d;
        proof {
            lemma_whole_rows(batch@.len() as int, d as int, m as int);
        }
        if m == 0 {
            assert(old(self)@ + batch@ =~= old(self)@);
            return None;
        }
        let first_id = self.n;
        let ghost before = self.rows@;
        self.rows.reserve(batch.len());
        self.rows.extend_from_slice(batch);
        proof {
            assert(self.rows@ =~= before + batch@);
            lemma_extend_keys(self.buckets@, self.chunks_bit@, before, batch@, d as int, first_id as int);
        }
        let total = batch.len();
        let mut i: usize = 0;
        while i < m
            invariant
                total == batch@.len(),
                d == self.d_bytes,
                d >= 1,
                m == batch@.len() / (d as nat),
                batch@.len() == m * d,
                i <= m,
                self.rows@ == before + batch@,
                before.len() == first_id * d,
                self.n == first_id + i,
                first_id + m <= u32::MAX,
                table_capacity_ok(first_id + m + 1),
                index_params_ok(self.d_bytes as int, self.k as int),
                self.chunks_bit@ == bit_chunk_layout(8 * self.d_bytes, self.k as int),
                buckets_file(self.buckets@, self.chunks_bit@, self.rows@, d as int, self.n as int),
                self.k == old(self).k,
            decreases m - i,
        {
            proof {
                lemma_row_in_bounds(m as int, d as int, i as int);
                assert((first_id + i + 1) * d == first_id * d + (i + 1) * d) by (nonlinear_arith);
                assert((first_id + i) * d == first_id * d + i * d) by (nonlinear_arith);
                assert((i + 1) * d == i * d + d) by (nonlinear_arith);
            }
            let row = &batch[i * d..(i + 1) * d];
            proof {
                assert(row@ =~= row_of(self.rows@, d as int, self.n as int));
            }
            self.file_row(row);
            i = i + 1;
        }
        proof {
            assert(self.rows@.len() == self.n * self.d_bytes) by (nonlinear_arith)
                requires
                    self.rows@.len() == before.len() + batch@.len(),
                    before.len() == first_id * d,
                    batch@.len() == m * d,
                    self.n == first_id + m,
                    d == self.d_bytes,
            ;
        }
        Some(first_id)
    }

    /// Gather the ids filed under `row`'s key in any chunk into `seen`,
    /// verify each against `row`, and return the hits sorted.
    fn lookup(&self, row: &[u8], seen: &mut IdSet) -> (r: Vec<(u32, u32)>)
        requires
            self.wf(),
            row@.len() == self.d_bytes,
            id_set(*old(seen)) == Set::<u32>::empty(),
        ensures
            query_result(self.rows@, self.d_bytes as int, self.k as int, self.n as int, row@, r@),
    {
        let ghost d = self.d_bytes as int;
        let ghost n = self.n as int;
        let ghost chunks = self.chunks_bit@;
        let ghost data = self.rows@;
        proof {
            lemma_bit_chunk_layout(8 * d, self.k as int);
            vstd::set_lib::range_set_properties::<u32>(0u32, self.n);
        }
        let ghost all_ids = Set::<u32>::range(0u32, self.n);
        let nc = self.chunks_bit.len();
        let mut c: usize = 0;
        while c < nc
            invariant
                self.wf(),
                nc == chunks.len(),
                c <= nc,
                d == self.d_bytes,
                n == self.n,
                chunks == self.chunks_bit@,
                data == self.rows@,
                row@.len() == d,
                all_ids == Set::<u32>::range(0u32, self.n),
                all_ids.finite(),
                all_ids.len() == n,
                forall|c2: int| 0 <= c2 < chunks.len() ==> (#[trigger] chunks[c2]).0 < chunks[c2].1 && chunks[c2].1 <= 8 * d,
                forall|c2: int| 0 <= c2 < chunks.len() ==> #[trigger] chunks[c2].1 - chunks[c2].0 <= 128,
                id_set(*seen).subset_of(all_ids),
                forall|c2: int, t: int|
                    0 <= c2 < c && key_buckets(self.buckets@[c2]).dom().contains(bit_range_key(row@, chunks[c2].0 as int, chunks[c2].1 as int))
                        && 0 <= t < key_buckets(self.buckets@[c2])[bit_range_key(row@, chunks[c2].0 as int, chunks[c2].1 as int)].len()
                        ==> id_set(*seen).contains(
                        #[trigger] key_buckets(self.buckets@[c2])[bit_range_key(row@, chunks[c2].0 as int, chunks[c2].1 as int)][t],
                    ),
            decreases nc - c,
        {
            let (lo, hi) = self.chunks_bit[c];
            let key = extract_bits(row, lo, hi);
            let ghost mc = key_buckets(self.buckets@[c as int]);
            proof {
                assert(files_rows(mc, chunk_key(data, d, chunks[c as int]), n));
            }
            match self.buckets[c].get(key) {
                Some(ids) => {
                    let ni = ids.len();
                    let mut t: usize = 0;
                    while t < ni
                        invariant
                            ni == ids@.len(),
                            t <= ni,
                            ids@ == mc[key],
                            mc.dom().contains(key),
                            files_rows(mc, chunk_key(data, d, chunks[c as int]), n),
                            all_ids == Set::<u32>::range(0u32, self.n),
                            all_ids.finite(),
                            all_ids.len() == n,
                            n == self.n,
                            self.wf(),
                            id_set(*seen).subset_of(all_ids),
                            forall|t2: int| 0 <= t2 < t ==> id_set(*seen).contains(#[trigger] ids@[t2]),
                            forall|c2: int, t2: int|
                                0 <= c2 < c && key_buckets(self.buckets@[c2]).dom().contains(bit_range_key(row@, chunks[c2].0 as int, chunks[c2].1 as int))
                                    && 0 <= t2 < key_buckets(self.buckets@[c2])[bit_range_key(row@, chunks[c2].0 as int, chunks[c2].1 as int)].len()
                                    ==> id_set(*seen).contains(
                                    #[trigger] key_buckets(self.buckets@[c2])[bit_range_key(row@, chunks[c2].0 as int, chunks[c2].1 as int)][t2],
                                ),
                        decreases ni - t,
                    {
                        let id = ids[t];
                        proof {
                            assert(mc[key][t as int] < n);
                            lemma_len_subset(id_set(*seen), all_ids);
                            if id_set(*seen).contains(id) {
                                assert(id_set(*seen).insert(id) =~= id_set(*seen));
                            } else {
                                assert(id_set(*seen).insert(id).len() == id_set(*seen).len() + 1);
                                lemma_len_subset(id_set(*seen).insert(id), all_ids);
                            }
                        }
                        seen.insert(id);
                        t = t + 1;
                    }
                },
                None => {},
            }
            c = c + 1;
        }
        let members = seen.members();
        let mut out: Vec<(u32, u32)> = Vec::new();
        let k = self.k;
        let nm = members.len();
        let rows_len = self.rows.len();
        let mut t: usize = 0;
        while t < nm
            invariant
                rows_len == self.rows@.len(),
                self.wf(),
                nm == members@.len(),
                t <= nm,
                d == self.d_bytes,
                n == self.n,
                data == self.rows@,
                k == self.k,
                row@.len() == d,
                members@.no_duplicates(),
                members@.to_set().subset_of(all_ids),
                all_ids == Set::<u32>::range(0u32, self.n),
                forall|idx: int|
                    0 <= idx < out@.len() ==> {
                        let e = #[trigger] out@[idx];
                        &&& members@.subrange(0, t as int).contains(e.0)
                        &&& e.0 < n
                        &&& e.1 == hamming_distance(row@, row_of(data, d, e.0 as int))
                        &&& e.1 <= k
                    },
                forall|a: int, b: int| 0 <= a < b < out@.len() ==> (#[trigger] out@[a]).0 != (#[trigger] out@[b]).0,
                forall|x: int|
                    0 <= x < t && #[trigger] hamming_distance(row@, row_of(data, d, members@[x] as int)) <= k
                        ==> out@.contains((members@[x], hamming_distance(row@, row_of(data, d, members@[x] as int)) as u32)),
            decreases nm - t,
        {
            let id = members[t];
            proof {
                assert(members@.to_set().contains(id));
                assert(all_ids.contains(id));
                lemma_row_in_bounds(n, d, id as int);
                assert((id + 1) * d == id * d + d) by (nonlinear_arith);
            }
            let other = &self.rows[(id as usize) * self.d_bytes..((id as usize) + 1) * self.d_bytes];
            assert(other@ =~= row_of(data, d, id as int));
            let dist = hamming(row, other);
            let ghost before = out@;
            if dist <= k {
                out.push((id, dist));
                proof {
                    assert forall|a: int, b: int| 0 <= a < b < out@.len() implies (#[trigger] out@[a]).0 != (#[trigger] out@[b]).0 by {
                        if b == out@.len() - 1 {
                            assert(members@.subrange(0, t as int).contains(out@[a].0));
                            let x = choose|x: int| 0 <= x < t && members@.subrange(0, t as int)[x] == out@[a].0;
                            assert(members@[x] == out@[a].0);
                        }
                    }
                }
            }
            proof {
                assert forall|idx: int| 0 <= idx < out@.len() implies members@.subrange(0, t + 1).contains(#[trigger] out@[idx].0) by {
                    if idx < before.len() {
                        let x = choose|x: int| 0 <= x < t && members@.subrange(0, t as int)[x] == out@[idx].0;
                        assert(members@.subrange(0, t + 1)[x] == out@[idx].0);
                    } else {
                        assert(members@.subrange(0, t + 1)[t as int] == id);
                    }
                }
                assert forall|x: int|
                    0 <= x < t + 1 && #[trigger] hamming_distance(row@, row_of(data, d, members@[x] as int)) <= k
                        implies out@.contains((members@[x], hamming_distance(row@, row_of(data, d, members@[x] as int)) as u32)) by {
                    if x < t {
                        let y = choose|y: int| 0 <= y < before.len() && before[y] == (members@[x], hamming_distance(row@, row_of(data, d, members@[x] as int)) as u32);
                        assert(out@[y] == before[y]);
                    } else {
                        assert(out@[out@.len() - 1] == (id, dist));
                    }
                }
            }
            t = t + 1;
        }
        let ghost unsorted = out@;
        proof {
            assert(unsorted.no_duplicates()) by {
                assert forall|a: int, b: int| 0 <= a < unsorted.len() && 0 <= b < unsorted.len() && a != b implies unsorted[a] != unsorted[b] by {
                    if a < b {
                        assert(unsorted[a].0 != unsorted[b].0);
                    } else {
                        assert(unsorted[b].0 != unsorted[a].0);
                    }
                }
            }
            unsorted.lemma_multiset_has_no_duplicates();
        }
        sort_pairs(&mut out);
        proof {
            out@.lemma_multiset_has_no_duplicates_conv();
            crate::pipeline::lemma_same_members(out@, unsorted);
            assert(strictly_sorted_pairs(out@)) by {
                assert forall|a: int, b: int| 0 <= a < b < out@.len() implies pair_lt(#[trigger] out@[a], #[trigger] out@[b]) by {
                    assert(out@[a] != out@[b]);
                }
            }
            assert forall|idx: int| 0 <= idx < out@.len() implies {
                let e = #[trigger] out@[idx];
                &&& e.0 < n
                &&& e.1 == hamming_distance(row@, row_of(data, d, e.0 as int))
                &&& e.1 <= k
            } by {
                assert(unsorted.contains(out@[idx]));
                let y = choose|y: int| 0 <= y < unsorted.len() && unsorted[y] == out@[idx];
            }
            assert forall|id: int|
                0 <= id < n && #[trigger] hamming_distance(row@, row_of(data, d, id)) <= k implies out@.contains(
                (id as u32, hamming_distance(row@, row_of(data, d, id)) as u32),
            ) by {
                lemma_query_finds(self.buckets@, chunks, data, d, self.k as int, n, row@, id);
                let c2 = choose|c2: int|
                    0 <= c2 < chunks.len() && key_buckets(self.buckets@[c2]).dom().contains(
                        bit_range_key(row@, chunks[c2].0 as int, chunks[c2].1 as int),
                    ) && key_buckets(self.buckets@[c2])[bit_range_key(row@, chunks[c2].0 as int, chunks[c2].1 as int)].contains(
                        id as u32,
                    );
                let kk = bit_range_key(row@, chunks[c2].0 as int, chunks[c2].1 as int);
                let t2 = choose|t2: int| 0 <= t2 < key_buckets(self.buckets@[c2])[kk].len() && key_buckets(self.buckets@[c2])[kk][t2] == id as u32;
                assert(id_set(*seen).contains(key_buckets(self.buckets@[c2])[kk][t2]));
                assert(members@.to_set().contains(id as u32));
                let x = choose|x: int| 0 <= x < members@.len() && members@[x] == id as u32;
                assert(unsorted.contains((members@[x], hamming_distance(row@, row_of(data, d, members@[x] as int)) as u32)));
            }
        }
        out
    }

    /// Return every `(other_id, hamming_dist)` with `hamming(row, rows[other_id])
    /// <= k`, in strictly increasing order.
    pub fn query(&self, row: &[u8]) -> (r: Vec<(u32, u32)>)
        requires
            self.wf(),
            row@.len() == self.spec_d_bytes(),
        ensures
            query_result(self@, self.spec_d_bytes() as int, self.spec_k() as int, self.count() as int, row@, r@),
    {
        let mut seen = IdSet::new();
        self.lookup(row, &mut seen)
    }

    /// Batched query: one result per row of `queries` (row-major, a
    /// multiple of `d_bytes` long), each what `query` returns for that row.
    pub fn query_batch(&self, queries: &[u8]) -> (r: Vec<Vec<(u32, u32)>>)
        requires
            self.wf(),
            queries@.len() % (self.spec_d_bytes() as nat) == 0,
        ensures
            r@.len() == queries@.len() / (self.spec_d_bytes() as nat),
            forall|i: int|
                0 <= i < r@.len() ==> query_result(
                    self@,
                    self.spec_d_bytes() as int,
                    self.spec_k() as int,
                    self.count() as int,
                    row_of(queries@, self.spec_d_bytes() as int, i),
                    #[trigger] r@[i]@,
                ),
    {
        let d = self.d_bytes;
        let m = queries.len() / d;
        proof {
            lemma_whole_rows(queries@.len() as int, d as int, m as int);
        }
        let mut out: Vec<Vec<(u32, u32)>> = Vec::with_capacity(m);
        let mut seen = IdSet::new();
        let total = queries.len();
        let mut i: usize = 0;
        while i < m
            invariant
                total == queries@.len(),
                self.wf(),
                d == self.d_bytes,
                d >= 1,
                m == queries@.len() / (d as nat),
                queries@.len() == m * d,
                i <= m,
                out@.len() == i,
                forall|i2: int|
                    0 <= i2 < i ==> query_result(
                        self.rows@,
                        d as int,
                        self.k as int,
                        self.n as int,
                        row_of(queries@, d as int, i2),
                        #[trigger] out@[i2]@,
                    ),
            decreases m - i,
        {
            proof {
                lemma_row_in_bounds(m as int, d as int, i as int);
                assert((i + 1) * d == i * d + d) by (nonlinear_arith);
            }
            let row = &queries[i * d..(i + 1) * d];
            assert(row@ =~= row_of(queries@, d as int, i as int));
            seen.clear();
            let hits = self.lookup(row, &mut seen);
            out.push(hits);
            i = i + 1;
        }
        out
    }

    /// Number of stored rows.
    pub fn len(&self) -> (r: usize)
        ensures
            r == self.count(),
    {
        self.n as usize
    }

    /// Whether no row is stored.
    pub fn is_empty(&self) -> (r: bool)
        ensures
            r == (self.count() == 0),
    {
        self.n == 0
    }

    /// Row width in bytes.
    pub fn d_bytes(&self) -> (r: usize)
        ensures
            r == self.spec_d_bytes(),
    {
        self.d_bytes
    }

    /// Query radius.
    pub fn k(&self) -> (r: u32)
        ensures
            r == self.spec_k(),
    {
        self.k
    }
}

/// A length that is a multiple of `d` holds `len / d` whole rows.
proof fn lemma_whole_rows(len: int, d: int, m: int)
    requires
        0 <= len,
        0 < d,
        len % d == 0,
        m == len / d,
    ensures
        len == m * d,
        m == 0 <==> len == 0,
{
    vstd::arithmetic::div_mod::lemma_fundamental_div_mod(len, d);
    assert(len == m * d) by (nonlinear_arith)
        requires
            len == d * m + len % d,
            len % d == 0,
    ;
    if m == 0 {
        assert(m * d == 0) by (nonlinear_arith)
            requires
                m == 0,
        ;
    } else {
        assert(m * d >= d) by (nonlinear_arith)
            requires
                m >= 1,
                d > 0,
        ;
    }
}

/// Extending the stored rows keeps the keys of the rows already filed.
proof fn lemma_extend_keys(buckets: Seq<KeyBuckets>, chunks: Seq<(usize, usize)>, data: Seq<u8>, extra: Seq<u8>, d: int, n: int)
    requires
        buckets_file(buckets, chunks, data, d, n),
        data.len() == n * d,
        0 <= n,
        0 <= d,
    ensures
        buckets_file(buckets, chunks, data + extra, d, n),
{
    assert forall|c: int| 0 <= c < chunks.len() implies files_rows(
        key_buckets(#[trigger] buckets[c]),
        chunk_key(data + extra, d, chunks[c]),
        n,
    ) by {
        let m = key_buckets(buckets[c]);
        let k1 = chunk_key(data, d, chunks[c]);
        let k2 = chunk_key(data + extra, d, chunks[c]);
        assert forall|r: int| 0 <= r < n implies #[trigger] k1(r) == k2(r) by {
            lemma_row_in_bounds(n, d, r);
            assert(row_of(data, d, r) =~= row_of(data + extra, d, r));
        }
        assert forall|kk: u128, t: int| m.dom().contains(kk) && 0 <= t < m[kk].len() implies (#[trigger] m[kk][t]) < n
            && k2(m[kk][t] as int) == kk by {
            assert(k1(m[kk][t] as int) == kk);
        }
        assert forall|r: int| 0 <= r < n implies m.dom().contains(#[trigger] k2(r)) && m[k2(r)].contains(r as u32) by {
            assert(m.dom().contains(k1(r)));
        }
    }
}

/// Every stored row within `k` of `row` is filed under `row`'s key in some
/// chunk's bucket map.
proof fn lemma_query_finds(
    buckets: Seq<KeyBuckets>,
    chunks: Seq<(usize, usize)>,
    data: Seq<u8>,
    d: int,
    k: int,
    n: int,
    row: Seq<u8>,
    id: int,
)
    requires
        index_params_ok(d, k),
        chunks == bit_chunk_layout(8 * d, k),
        buckets_file(buckets, chunks, data, d, n),
        data.len() == n * d,
        row.len() == d,
        0 <= id < n,
        hamming_distance(row, row_of(data, d, id)) <= k,
    ensures
        exists|c: int|
            0 <= c < chunks.len() && key_buckets(buckets[c]).dom().contains(
                bit_range_key(row, chunks[c].0 as int, chunks[c].1 as int),
            ) && key_buckets(buckets[c])[bit_range_key(row, chunks[c].0 as int, chunks[c].1 as int)].contains(
                id as u32,
            ),
{
    lemma_row_in_bounds(n, d, id);
    assert(row_of(row, d, 0) =~= row);
    assert(rows_dist(row, data, d, 0, id) == hamming_distance(row, row_of(data, d, id)));
    lemma_bit_chunks_complete(row, data, d, k, 0, id);
    let c = choose|c: int|
        0 <= c < chunks.len() && bit_chunk_match(row_of(row, d, 0), row_of(data, d, id), #[trigger] chunks[c]);
    let m = key_buckets(buckets[c]);
    assert(files_rows(m, chunk_key(data, d, chunks[c]), n));
    assert(chunk_key(data, d, chunks[c])(id) == bit_range_key(row, chunks[c].0 as int, chunks[c].1 as int));
}

} // verus!
