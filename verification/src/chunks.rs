//! Chunk layouts: the disjoint byte or bit ranges that the pigeonhole
//! prefilter buckets rows by.

use vstd::prelude::*;
use vstd::arithmetic::div_mod::{
    lemma_fundamental_div_mod, lemma_mod_pos_bound, lemma_div_is_ordered,
};
use vstd::arithmetic::mul::lemma_mul_inequality;

verus! {

/// Edge `i` of a layout that splits `total` units into `n_chunks` parts:
/// `floor(i * total / n_chunks)`, as `np.linspace(..).astype(int)` gives it.
pub open spec fn edge(total: int, n_chunks: int, i: int) -> int {
    (i * total) / n_chunks
}

/// The nonempty ranges `[edge(c), edge(c + 1))` for `c < i`, in order.
pub open spec fn nonempty_ranges(total: int, n_chunks: int, i: int) -> Seq<(usize, usize)>
    decreases i,
{
    if i <= 0 {
        seq![]
    } else {
        let prev = nonempty_ranges(total, n_chunks, i - 1);
        let lo = edge(total, n_chunks, i - 1);
        let hi = edge(total, n_chunks, i);
        if hi > lo {
            prev.push((lo as usize, hi as usize))
        } else {
            prev
        }
    }
}

/// The layout that `chunk_boundaries` and `chunk_bit_boundaries` return:
/// the nonempty ranges between consecutive edges.
pub open spec fn chunk_ranges(total: int, n_chunks: int) -> Seq<(usize, usize)> {
    nonempty_ranges(total, n_chunks, n_chunks)
}

/// Ranges that are nonempty, lie in `[0, total)` and are strictly ordered
/// (so pairwise disjoint).
pub open spec fn disjoint_ranges(r: Seq<(usize, usize)>, total: int) -> bool {
    &&& forall|c: int| 0 <= c < r.len() ==> #[trigger] r[c].0 < r[c].1 && r[c].1 <= total
    &&& forall|c1: int, c2: int|
        0 <= c1 < c2 < r.len() ==> #[trigger] r[c1].1 <= #[trigger] r[c2].0
}

/// Ranges that tile `[0, total)`: disjoint, adjacent, starting at 0 and
/// ending at `total`.
pub open spec fn tiles(r: Seq<(usize, usize)>, total: int) -> bool {
    &&& disjoint_ranges(r, total)
    &&& forall|c1: int, c2: int|
        0 <= c1 && c2 == c1 + 1 && c2 < r.len() ==> #[trigger] r[c1].1 == #[trigger] r[c2].0
    &&& r.len() > 0 ==> r[0].0 == 0 && r[r.len() - 1].1 == total
    &&& r.len() == 0 ==> total == 0
}

/// Every range is at most `w` wide.
pub open spec fn ranges_at_most(r: Seq<(usize, usize)>, w: int) -> bool {
    forall|c: int| 0 <= c < r.len() ==> #[trigger] r[c].1 - r[c].0 <= w
}

proof fn lemma_div_bounds(x: int, m: int)
    requires
        0 < m,
        0 <= x,
    ensures
        m * (x / m) <= x < m * (x / m) + m,
        0 <= x / m,
{
    lemma_fundamental_div_mod(x, m);
    lemma_mod_pos_bound(x, m);
    assert(0 <= x / m) by (nonlinear_arith)
        requires
            m * (x / m) <= x,
            0 < m,
            0 <= x,
            x < m * (x / m) + m,
    ;
}

/// Edges are monotone, start at 0 and end at `total`.
pub proof fn lemma_edge_bounds(total: int, n_chunks: int, i: int, j: int)
    requires
        0 < n_chunks,
        0 <= total,
        0 <= i <= j <= n_chunks,
    ensures
        0 <= edge(total, n_chunks, i) <= edge(total, n_chunks, j) <= total,
        edge(total, n_chunks, 0) == 0,
        edge(total, n_chunks, n_chunks) == total,
{
    lemma_mul_inequality(i, j, total);
    lemma_mul_inequality(j, n_chunks, total);
    lemma_mul_inequality(0, i, total);
    lemma_div_is_ordered(i * total, j * total, n_chunks);
    lemma_div_is_ordered(j * total, n_chunks * total, n_chunks);
    lemma_div_is_ordered(0, i * total, n_chunks);
    assert(0 * total == 0);
    assert(0int / n_chunks == 0);
    assert((n_chunks * total) / n_chunks == total) by {
        lemma_div_bounds(n_chunks * total, n_chunks);
        let q = (n_chunks * total) / n_chunks;
        assert(q == total) by (nonlinear_arith)
            requires
                n_chunks * q <= n_chunks * total < n_chunks * q + n_chunks,
                0 < n_chunks,
        ;
    }
}

/// The gap between consecutive edges: at least 1 when there are no more
/// chunks than units, at most 1 when there are more chunks than units, and
/// below `total / n_chunks + 1` always.
pub proof fn lemma_edge_gap(total: int, n_chunks: int, i: int)
    requires
        0 < n_chunks,
        0 <= total,
        0 <= i < n_chunks,
    ensures
        n_chunks <= total ==> edge(total, n_chunks, i + 1) >= edge(total, n_chunks, i) + 1,
        total < n_chunks ==> edge(total, n_chunks, i + 1) <= edge(total, n_chunks, i) + 1,
        n_chunks * (edge(total, n_chunks, i + 1) - edge(total, n_chunks, i)) < total
            + n_chunks,
{
    let x = i * total;
    let y = (i + 1) * total;
    assert(y == x + total) by (nonlinear_arith)
        requires
            x == i * total,
            y == (i + 1) * total,
    ;
    assert(0 <= x) by (nonlinear_arith)
        requires
            x == i * total,
            0 <= i,
            0 <= total,
    ;
    lemma_div_bounds(x, n_chunks);
    lemma_div_bounds(y, n_chunks);
    let q = x / n_chunks;
    let r = y / n_chunks;
    if n_chunks <= total {
        assert(r >= q + 1) by (nonlinear_arith)
            requires
                n_chunks * q <= x,
                y < n_chunks * r + n_chunks,
                y == x + total,
                n_chunks <= total,
                0 < n_chunks,
        ;
    }
    if total < n_chunks {
        assert(r <= q + 1) by (nonlinear_arith)
            requires
                x < n_chunks * q + n_chunks,
                n_chunks * r <= y,
                y == x + total,
                total < n_chunks,
                0 < n_chunks,
        ;
    }
    assert(n_chunks * (r - q) < total + n_chunks) by (nonlinear_arith)
        requires
            x < n_chunks * q + n_chunks,
            n_chunks * r <= y,
            y == x + total,
            0 < n_chunks,
    ;
}

/// The nonempty ranges of the first `i` edges tile `[0, edge(i))`; there are
/// `i` of them when there are no more chunks than units and `edge(i)` of them
/// otherwise; and each is less than `total / n_chunks + 1` wide.
pub proof fn lemma_nonempty_ranges(total: int, n_chunks: int, i: int)
    requires
        0 < n_chunks,
        0 <= total <= usize::MAX,
        0 <= i <= n_chunks,
    ensures
        tiles(nonempty_ranges(total, n_chunks, i), edge(total, n_chunks, i)),
        nonempty_ranges(total, n_chunks, i).len() == (if n_chunks <= total {
            i
        } else {
            edge(total, n_chunks, i)
        }),
        forall|c: int|
            0 <= c < nonempty_ranges(total, n_chunks, i).len() ==> n_chunks * (
            #[trigger] nonempty_ranges(total, n_chunks, i)[c].1 - nonempty_ranges(
                total,
                n_chunks,
                i,
            )[c].0) < total + n_chunks,
    decreases i,
{
    lemma_edge_bounds(total, n_chunks, 0, i);
    if i > 0 {
        lemma_nonempty_ranges(total, n_chunks, i - 1);
        lemma_edge_bounds(total, n_chunks, i - 1, i);
        lemma_edge_gap(total, n_chunks, i - 1);
        let prev = nonempty_ranges(total, n_chunks, i - 1);
        let lo = edge(total, n_chunks, i - 1);
        let hi = edge(total, n_chunks, i);
        let cur = nonempty_ranges(total, n_chunks, i);
        if hi > lo {
            assert(cur == prev.push((lo as usize, hi as usize)));
            assert forall|c1: int, c2: int|
                0 <= c1 < c2 < cur.len() implies #[trigger] cur[c1].1 <= #[trigger] cur[c2].0 by {
                if c2 < prev.len() {
                    assert(prev[c1].1 <= prev[c2].0);
                } else if prev.len() > 0 {
                    assert(prev[c1].1 <= prev[prev.len() - 1].1);
                }
            }
        }
    }
}

/// Every layout of `chunk_ranges` tiles `[0, total)`, has `min(n_chunks,
/// total)` ranges, and each range is below `total / n_chunks + 1` wide.
pub proof fn lemma_chunk_ranges(total: int, n_chunks: int)
    requires
        0 < n_chunks,
        0 <= total <= usize::MAX,
    ensures
        tiles(chunk_ranges(total, n_chunks), total),
        chunk_ranges(total, n_chunks).len() == (if n_chunks <= total {
            n_chunks
        } else {
            total
        }),
        forall|c: int|
            0 <= c < chunk_ranges(total, n_chunks).len() ==> n_chunks * (
            #[trigger] chunk_ranges(total, n_chunks)[c].1 - chunk_ranges(total, n_chunks)[c].0)
                < total + n_chunks,
{
    lemma_nonempty_ranges(total, n_chunks, n_chunks);
    lemma_edge_bounds(total, n_chunks, n_chunks, n_chunks);
}

/// Computes the edges `floor(i * total / n_chunks)` for `i = 0 ..= n_chunks`
/// and keeps the nonempty ranges between consecutive edges.
fn nonempty_edge_ranges(total: usize, n_chunks: usize) -> (r: Vec<(usize, usize)>)
    requires
        0 < n_chunks < usize::MAX,
        n_chunks * total <= u64::MAX,
    ensures
        r@ == chunk_ranges(total as int, n_chunks as int),
{
    let mut edges: Vec<usize> = Vec::with_capacity(n_chunks + 1);
    let mut i: usize = 0;
    while i <= n_chunks
        invariant
            0 < n_chunks < usize::MAX,
            n_chunks * total <= u64::MAX,
            i <= n_chunks + 1,
            edges@.len() == i,
            forall|j: int| 0 <= j < i ==> #[trigger] edges@[j] == edge(total as int, n_chunks as int, j),
        decreases n_chunks + 1 - i,
    {
        proof {
            lemma_mul_inequality(i as int, n_chunks as int, total as int);
            lemma_edge_bounds(total as int, n_chunks as int, i as int, n_chunks as int);
        }
        let prod: u64 = (i as u64) * (total as u64);
        let e: u64 = prod / (n_chunks as u64);
        edges.push(e as usize);
        i = i + 1;
    }
    let mut out: Vec<(usize, usize)> = Vec::new();
    let mut c: usize = 0;
    while c < n_chunks
        invariant
            0 < n_chunks < usize::MAX,
            c <= n_chunks,
            edges@.len() == n_chunks + 1,
            forall|j: int| 0 <= j <= n_chunks ==> #[trigger] edges@[j] == edge(total as int, n_chunks as int, j),
            out@ == nonempty_ranges(total as int, n_chunks as int, c as int),
        decreases n_chunks - c,
    {
        let lo = edges[c];
        let hi = edges[c + 1];
        if hi > lo {
            out.push((lo, hi));
        }
        c = c + 1;
    }
    out
}

/// Byte ranges `[lo, hi)` matching `np.linspace(0, n_bytes, n_chunks + 1)`
/// truncated to integers, with the empty ranges dropped.
pub fn chunk_boundaries(n_bytes: usize, n_chunks: usize) -> (r: Vec<(usize, usize)>)
    requires
        0 < n_chunks < usize::MAX,
        n_chunks * n_bytes <= u64::MAX,
    ensures
        r@ == chunk_ranges(n_bytes as int, n_chunks as int),
{
    nonempty_edge_ranges(n_bytes, n_chunks)
}

/// Bit ranges `[lo_bit, hi_bit)` over a row's bit positions, with edges
/// `(i * d_bits) / n_chunks` truncated (the byte boundary formula), empty
/// ranges dropped.
pub fn chunk_bit_boundaries(d_bits: usize, n_chunks: usize) -> (r: Vec<(usize, usize)>)
    requires
        0 < n_chunks < usize::MAX,
        n_chunks * d_bits <= u64::MAX,
    ensures
        r@ == chunk_ranges(d_bits as int, n_chunks as int),
{
    nonempty_edge_ranges(d_bits, n_chunks)
}

/// How many bit chunks `bit_chunks_for` asks `chunk_bit_boundaries` for:
/// at least `k + 1` (pigeonhole), at least `ceil(d_bits / 128)` (so each
/// chunk key fits a `u128`), and at least one.
pub open spec fn bit_chunk_count(d_bits: int, k: int) -> int {
    let by_pigeonhole = k + 1;
    let by_width = (d_bits + 127) / 128;
    let m = if by_pigeonhole >= by_width {
        by_pigeonhole
    } else {
        by_width
    };
    if m >= 1 {
        m
    } else {
        1
    }
}

/// The bit-chunk layout for `(d_bits, k)`: at `k = 0` with more than 128
/// bits, the single 128-bit prefix; otherwise `bit_chunk_count` chunks.
pub open spec fn bit_chunk_layout(d_bits: int, k: int) -> Seq<(usize, usize)> {
    if k == 0 && d_bits > 128 {
        seq![(0usize, 128usize)]
    } else {
        chunk_ranges(d_bits, bit_chunk_count(d_bits, k))
    }
}

/// The machine limits under which the bit-chunk layout is computed without
/// overflow.
pub open spec fn bit_layout_fits(d_bits: int, k: int) -> bool {
    &&& 0 <= d_bits
    &&& d_bits + 127 <= usize::MAX
    &&& k + 1 < usize::MAX
    &&& bit_chunk_count(d_bits, k) * d_bits <= u64::MAX
}

/// Pick a bit-chunk layout for `(d_bits, k)` that satisfies both the
/// pigeonhole guarantee (at least `k + 1` disjoint chunks) and the `u128`
/// chunk-key width limit (at most 128 bits per chunk).
pub fn bit_chunks_for(d_bits: usize, k: u32) -> (r: Vec<(usize, usize)>)
    requires
        bit_layout_fits(d_bits as int, k as int),
    ensures
        r@ == bit_chunk_layout(d_bits as int, k as int),
{
    if k == 0 && d_bits > 128 {
        let mut v: Vec<(usize, usize)> = Vec::new();
        v.push((0usize, 128usize));
        assert(v@ =~= seq![(0usize, 128usize)]);
        return v;
    }
    let by_pigeonhole = (k as usize) + 1;
    let by_width = (d_bits + 127) / 128;
    let m = if by_pigeonhole >= by_width {
        by_pigeonhole
    } else {
        by_width
    };
    let n_chunks = if m >= 1 {
        m
    } else {
        1
    };
    chunk_bit_boundaries(d_bits, n_chunks)
}

/// The bit-chunk layout of a supported regime (`k < d_bits`) consists of at
/// least `k + 1` strictly ordered, nonempty ranges inside `[0, d_bits)`, each
/// at most 128 bits wide.
pub proof fn lemma_bit_chunk_layout(d_bits: int, k: int)
    requires
        0 <= k < d_bits <= usize::MAX,
    ensures
        disjoint_ranges(bit_chunk_layout(d_bits, k), d_bits),
        bit_chunk_layout(d_bits, k).len() >= k + 1,
        ranges_at_most(bit_chunk_layout(d_bits, k), 128),
{
    if !(k == 0 && d_bits > 128) {
        let m = bit_chunk_count(d_bits, k);
        let w = (d_bits + 127) / 128;
        lemma_div_bounds(d_bits + 127, 128);
        assert(d_bits <= 128 * w);
        assert(w <= d_bits);
        assert(m <= d_bits);
        assert(d_bits <= 128 * m) by (nonlinear_arith)
            requires
                d_bits <= 128 * w,
                w <= m,
        ;
        lemma_chunk_ranges(d_bits, m);
        let r = chunk_ranges(d_bits, m);
        assert forall|c: int| 0 <= c < r.len() implies #[trigger] r[c].1 - r[c].0 <= 128 by {
            let g = r[c].1 - r[c].0;
            assert(m * g < d_bits + m);
            assert(g <= 128) by (nonlinear_arith)
                requires
                    m * g < d_bits + m,
                    d_bits <= 128 * m,
                    0 < m,
            ;
        }
    }
}

/// Returns `true` iff `(k, d_bytes)` is in the regime where byte-aligned
/// chunks give an exact result: `k < d_bytes`.
pub fn is_supported(k: u32, d_bytes: usize) -> (r: bool)
    ensures
        r == (k < d_bytes),
{
    (k as usize) < d_bytes
}

/// Bit-level analogue of `is_supported`: bit-aligned chunks give an exact
/// result when `k < 8 * d_bytes`.
pub fn is_supported_bit(k: u32, d_bytes: usize) -> (r: bool)
    requires
        8 * d_bytes <= usize::MAX,
    ensures
        r == (k < 8 * d_bytes),
{
    (k as usize) < 8 * d_bytes
}

} // verus!
