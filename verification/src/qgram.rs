//! Pair search with the positional q-gram counting filter: a pair within
//! Hamming distance `k` shares at least `t = (d_bits - q + 1) - k * q`
//! positional q-grams, so only the pairs that share `t` or more are
//! verified.

use vstd::prelude::*;
use vstd::arithmetic::div_mod::lemma_fundamental_div_mod_converse;

use crate::bitspec::bit_at;
use crate::chunks::chunk_ranges;
use crate::hamming::hamming;
use crate::outside::{sort_by_key_of, partition_below, sort_triples};
use crate::pipeline::{byte_filter, lemma_same_members};
use crate::qgram_law::{
    gram, shared_grams, gram_positions, lemma_gram_bound, lemma_two_pow_16, lemma_shared_bound,
    lemma_qgram_lower_bound,
};
use crate::rows::{
    row_of, rows_dist, self_join, finds_all_self, triple_lt, strictly_sorted_triples,
    lemma_row_in_bounds,
};
use crate::search::{byte_search_ok, find_pairs_self_st};

verus! {

/// The key of row `r` in a gram table: `keys[r]`.
pub(crate) fn gram_key(keys: &Vec<u32>, r: u32) -> (g: u32)
    requires
        (r as int) < keys@.len(),
    ensures
        g == keys@[r as int],
{
    keys[r as usize]
}

/// Whether `x < bound`.
pub(crate) fn is_below(x: u32, bound: u32) -> (r: bool)
    ensures
        r == (x < bound),
{
    x < bound
}

/// The checks and machine limits under which the q-gram search runs: those
/// of the byte-chunk search (its fallback), `1 <= q <= 16`, `q <= d_bits`,
/// a count of shared positions that fits a `u16`, and the unpacked bits
/// that fit in memory.
pub open spec fn qgram_search_ok(data_len: int, n: int, d: int, k: int, q: int) -> bool {
    &&& byte_search_ok(data_len, n, d, k)
    &&& 1 <= q <= 16
    &&& q <= 8 * d
    &&& gram_positions(d, q) <= u16::MAX
    &&& n * d * 8 <= usize::MAX
}

/// The number of shared positional q-grams a candidate needs.
pub open spec fn qgram_threshold(d: int, k: int, q: int) -> int {
    gram_positions(d, q) - k * q
}

/// Candidate filter of the q-gram search: rows `i` and `j` share at least
/// `t` positional `q`-grams.
pub open spec fn qgram_filter(data: Seq<u8>, d: int, q: nat, t: int) -> spec_fn(int, int) -> bool {
    |i: int, j: int| shared_grams(row_of(data, d, i), row_of(data, d, j), q, gram_positions(d, q as int) as nat) >= t
}

/// Bit `y` of row `i` is bit `i * 8 * d + y` of the corpus.
proof fn lemma_bit_at_row(data: Seq<u8>, d: int, n: int, i: int, y: int)
    requires
        data.len() == n * d,
        0 <= i < n,
        0 <= y < 8 * d,
    ensures
        bit_at(row_of(data, d, i), y) == bit_at(data, i * (8 * d) + y),
{
    lemma_row_in_bounds(n, d, i);
    assert(i * (8 * d) == 8 * (i * d)) by (nonlinear_arith);
    lemma_fundamental_div_mod_converse(y, 8, y / 8, y % 8);
    lemma_fundamental_div_mod_converse(i * (8 * d) + y, 8, i * d + y / 8, y % 8);
    assert(y / 8 < d);
}

/// Unpack the packed MSB-first bits of the corpus, one `0`/`1` byte per
/// bit: the result holds bit `x` of the corpus at index `x`.
fn unpack_bits(data: &[u8], n: usize, d_bytes: usize) -> (bits: Vec<u8>)
    requires
        data@.len() == n * d_bytes,
        n * d_bytes * 8 <= usize::MAX,
    ensures
        bits@.len() == n * d_bytes * 8,
        forall|x: int| 0 <= x < bits@.len() ==> #[trigger] bits@[x] == bit_at(data@, x),
{
    let total = n * d_bytes;
    let mut out = vec![0u8; total * 8];
    let mut g: usize = 0;
    while g < total
        invariant
            total == data@.len(),
            total * 8 <= usize::MAX,
            g <= total,
            out@.len() == total * 8,
            forall|x: int| 0 <= x < 8 * g ==> #[trigger] out@[x] == bit_at(data@, x),
        decreases total - g,
    {
        let byte = data[g];
        let mut kk: u8 = 0;
        while kk < 8
            invariant
                total == data@.len(),
                total * 8 <= usize::MAX,
                g < total,
                kk <= 8,
                byte == data@[g as int],
                out@.len() == total * 8,
                forall|x: int| 0 <= x < 8 * g + kk ==> #[trigger] out@[x] == bit_at(data@, x),
            decreases 8 - kk,
        {
            let ghost x = 8 * g + kk;
            proof {
                lemma_fundamental_div_mod_converse(x, 8, g as int, kk as int);
            }
            out[g * 8 + kk as usize] = (byte >> (7 - kk)) & 1;
            kk = kk + 1;
        }
        g = g + 1;
    }
    out
}

/// `(v << 1) | b` appends the bit `b` to `v`.
proof fn lemma_append_bit(v: u32, b: u32)
    by (bit_vector)
    requires
        v < 0x10000,
        b <= 1,
    ensures
        (v << 1u32) | b == 2 * v + b,
{
}

/// The `q`-gram at bit position `p` of every row, read from the unpacked
/// bits.
fn grams_at_position(
    bits: &Vec<u8>,
    n: usize,
    d_bits: usize,
    p: usize,
    q: u32,
    Ghost(data): Ghost<Seq<u8>>,
    Ghost(d): Ghost<int>,
) -> (out: Vec<u32>)
    requires
        d_bits == 8 * d,
        data.len() == n * d,
        bits@.len() == n * d * 8,
        forall|x: int| 0 <= x < bits@.len() ==> #[trigger] bits@[x] == bit_at(data, x),
        1 <= q <= 16,
        p + q <= d_bits,
    ensures
        out@.len() == n,
        forall|i: int| 0 <= i < n ==> #[trigger] out@[i] == gram(row_of(data, d, i), p as int, q as nat),
{
    let mut out = vec![0u32; n];
    let total = bits.len();
    let mut i: usize = 0;
    while i < n
        invariant
            total == bits@.len(),
            d_bits == 8 * d,
            data.len() == n * d,
            bits@.len() == n * d * 8,
            forall|x: int| 0 <= x < bits@.len() ==> #[trigger] bits@[x] == bit_at(data, x),
            1 <= q <= 16,
            p + q <= d_bits,
            i <= n,
            out@.len() == n,
            forall|i2: int| 0 <= i2 < i ==> #[trigger] out@[i2] == gram(row_of(data, d, i2), p as int, q as nat),
        decreases n - i,
    {
        proof {
            lemma_row_in_bounds(n as int, d, i as int);
            assert(i * d_bits + d_bits <= n * d * 8) by (nonlinear_arith)
                requires
                    i * d + d <= n * d,
                    d_bits == 8 * d,
            ;
            assert(i * d_bits >= 0) by (nonlinear_arith)
                requires
                    i >= 0,
                    d_bits >= 0,
            ;
        }
        let base = i * d_bits + p;
        let mut v: u32 = 0;
        let mut j: u32 = 0;
        while j < q
            invariant
                total == bits@.len(),
                d_bits == 8 * d,
                data.len() == n * d,
                bits@.len() == n * d * 8,
                forall|x: int| 0 <= x < bits@.len() ==> #[trigger] bits@[x] == bit_at(data, x),
                1 <= q <= 16,
                p + q <= d_bits,
                i < n,
                base == i * d_bits + p,
                i * d_bits + d_bits <= bits@.len(),
                j <= q,
                v == gram(row_of(data, d, i as int), p as int, j as nat),
            decreases q - j,
        {
            proof {
                lemma_bit_at_row(data, d, n as int, i as int, p + j);
                lemma_gram_bound(row_of(data, d, i as int), p as int, j as nat);
                lemma_two_pow_16(j as nat);
                let x = data[((i * d_bits + p + j) / 8) as int];
                let s = (7 - (i * d_bits + p + j) % 8) as u8;
                assert((x >> s) & 1u8 <= 1u8) by (bit_vector);
                lemma_append_bit(v, bits@[base + j] as u32);
            }
            v = (v << 1) | (bits[base + j as usize] as u32);
            j = j + 1;
        }
        out[i] = v;
        i = i + 1;
    }
    out
}

/// For one bit position, the rows sorted by their gram there: parallel
/// `grams_sorted` and `rows_sorted`, and `query[i]`, the gram of row `i`.
struct PosIndex {
    grams_sorted: Vec<u32>,
    rows_sorted: Vec<u32>,
    query: Vec<u32>,
}

/// `ix` indexes the `q`-grams at position `p` of the `n` rows of `data`.
spec fn pos_index_ok(ix: PosIndex, data: Seq<u8>, d: int, q: nat, n: int, p: int) -> bool {
    &&& ix.query@.len() == n
    &&& forall|i: int| 0 <= i < n ==> #[trigger] ix.query@[i] == gram(row_of(data, d, i), p, q)
    &&& ix.rows_sorted@.len() == n
    &&& ix.grams_sorted@.len() == n
    &&& ix.rows_sorted@.no_duplicates()
    &&& forall|x: int| 0 <= x < n ==> (#[trigger] ix.rows_sorted@[x] as int) < n
    &&& forall|x: int| 0 <= x < n ==> #[trigger] ix.grams_sorted@[x] == ix.query@[ix.rows_sorted@[x] as int]
    &&& forall|r: int| 0 <= r < n ==> #[trigger] ix.rows_sorted@.contains(r as u32)
    &&& forall|a: int, b: int| 0 <= a < b < n ==> #[trigger] ix.grams_sorted@[a] <= #[trigger] ix.grams_sorted@[b]
}

/// Build the index of position `p`: the rows `0..n` sorted by their gram.
fn build_pos_index(
    bits: &Vec<u8>,
    n: usize,
    d_bits: usize,
    p: usize,
    q: u32,
    Ghost(data): Ghost<Seq<u8>>,
    Ghost(d): Ghost<int>,
) -> (ix: PosIndex)
    requires
        d_bits == 8 * d,
        data.len() == n * d,
        n <= u32::MAX,
        bits@.len() == n * d * 8,
        forall|x: int| 0 <= x < bits@.len() ==> #[trigger] bits@[x] == bit_at(data, x),
        1 <= q <= 16,
        p + q <= d_bits,
    ensures
        pos_index_ok(ix, data, d, q as nat, n as int, p as int),
{
    let grams = grams_at_position(bits, n, d_bits, p, q, Ghost(data), Ghost(d));
    let mut order: Vec<u32> = Vec::new();
    let mut r: usize = 0;
    while r < n
        invariant
            n <= u32::MAX,
            r <= n,
            order@ == Seq::new(r as nat, |x: int| x as u32),
        decreases n - r,
    {
        order.push(r as u32);
        proof {
            assert(order@ =~= Seq::new((r + 1) as nat, |x: int| x as u32));
        }
        r = r + 1;
    }
    let ghost initial = order@;
    proof {
        assert(initial.no_duplicates());
        initial.lemma_multiset_has_no_duplicates();
    }
    sort_by_key_of(&mut order, &grams);
    proof {
        broadcast use vstd::seq_lib::group_to_multiset_ensures;
        assert(order@.len() == initial.len()) by {
            assert(order@.to_multiset().len() == order@.len());
            assert(initial.to_multiset().len() == initial.len());
        }
        order@.lemma_multiset_has_no_duplicates_conv();
        lemma_same_members(order@, initial);
        assert forall|x: int| 0 <= x < n implies (#[trigger] order@[x] as int) < n by {
            assert(order@.contains(order@[x]));
        }
        assert forall|rr: int| 0 <= rr < n implies #[trigger] order@.contains(rr as u32) by {
            assert(initial[rr] == rr as u32);
        }
    }
    let mut grams_sorted: Vec<u32> = Vec::with_capacity(n);
    let mut x: usize = 0;
    while x < n
        invariant
            x <= n,
            order@.len() == n,
            grams@.len() == n,
            forall|y: int| 0 <= y < n ==> (#[trigger] order@[y] as int) < n,
            grams_sorted@.len() == x,
            forall|y: int| 0 <= y < x ==> #[trigger] grams_sorted@[y] == grams@[order@[y] as int],
        decreases n - x,
    {
        let g = grams[order[x] as usize];
        grams_sorted.push(g);
        x = x + 1;
    }
    PosIndex { grams_sorted, rows_sorted: order, query: grams }
}

/// `count[j]` is the number of positions below `np` at which row `j > i`
/// shares its gram with row `i`, and 0 for `j <= i`.
spec fn counts_for(count: Seq<u16>, data: Seq<u8>, d: int, q: nat, n: int, i: int, np: nat) -> bool {
    &&& count.len() == n
    &&& forall|j: int|
        0 <= j < n ==> #[trigger] count[j] == (if j > i {
            shared_grams(row_of(data, d, i), row_of(data, d, j), q, np)
        } else {
            0
        })
}

/// `touched` lists, once each, the rows `j > i` whose count is nonzero.
spec fn touched_marks(touched: Seq<u32>, count: Seq<u16>, n: int, i: int) -> bool {
    &&& touched.no_duplicates()
    &&& forall|x: int| 0 <= x < touched.len() ==> i < #[trigger] touched[x] < n && count[touched[x] as int] > 0
    &&& forall|j: int| 0 <= j < n && #[trigger] count[j] > 0 ==> touched.contains(j as u32)
}

/// Zero the counts of the touched rows and forget them.
fn reset_counts(count: &mut Vec<u16>, touched: &mut Vec<u32>, Ghost(n): Ghost<int>)
    requires
        old(count)@.len() == n,
        n <= u32::MAX,
        forall|x: int| 0 <= x < old(touched)@.len() ==> (#[trigger] old(touched)@[x] as int) < n,
        forall|j: int| 0 <= j < n && #[trigger] old(count)@[j] > 0 ==> old(touched)@.contains(j as u32),
    ensures
        final(count)@.len() == n,
        forall|j: int| 0 <= j < n ==> #[trigger] final(count)@[j] == 0,
        final(touched)@.len() == 0,
{
    let nt = touched.len();
    let mut x: usize = 0;
    while x < nt
        invariant
            nt == touched@.len(),
            x <= nt,
            touched@ == old(touched)@,
            count@.len() == n,
            n <= u32::MAX,
            forall|y: int| 0 <= y < nt ==> (#[trigger] touched@[y] as int) < n,
            forall|j: int| 0 <= j < n && #[trigger] count@[j] > 0 ==> exists|y: int| x <= y < nt && touched@[y] == j as u32,
        decreases nt - x,
    {
        let j = touched[x];
        let ghost prev = count@;
        count[j as usize] = 0;
        proof {
            assert(count@ == prev.update(j as int, 0u16));
            assert forall|j2: int| 0 <= j2 < n && #[trigger] count@[j2] > 0 implies exists|y: int| x + 1 <= y < nt && touched@[y] == j2 as u32 by {
                assert(j2 != j as int);
                assert(prev[j2] > 0);
                let y = choose|y: int| x <= y < nt && touched@[y] == j2 as u32;
                assert(y != x);
            }
        }
        x = x + 1;
    }
    touched.clear();
}

/// Add position `P` to the counts of row `i`: every row `j > i` in the
/// bucket of `i`'s gram at `P` gains one.
fn add_bucket(
    ix: &PosIndex,
    i: u32,
    count: &mut Vec<u16>,
    touched: &mut Vec<u32>,
    Ghost(data): Ghost<Seq<u8>>,
    Ghost(d): Ghost<int>,
    Ghost(q): Ghost<nat>,
    Ghost(n): Ghost<int>,
    Ghost(pos): Ghost<nat>,
)
    requires
        pos_index_ok(*ix, data, d, q, n, pos as int),
        q <= 16,
        i < n,
        n <= u32::MAX,
        pos < u16::MAX,
        counts_for(old(count)@, data, d, q, n, i as int, pos),
        touched_marks(old(touched)@, old(count)@, n, i as int),
    ensures
        counts_for(final(count)@, data, d, q, n, i as int, pos + 1),
        touched_marks(final(touched)@, final(count)@, n, i as int),
{
    let v = ix.query[i as usize];
    proof {
        lemma_gram_bound(row_of(data, d, i as int), pos as int, q);
        lemma_two_pow_16(q);
    }
    let lo = partition_below(&ix.grams_sorted, v);
    let hi = partition_below(&ix.grams_sorted, v + 1);
    proof {
        if hi < lo {
            assert(ix.grams_sorted@[hi as int] < v);
        }
    }
    let ghost ri = row_of(data, d, i as int);
    let mut kin = lo;
    while kin < hi
        invariant
            pos_index_ok(*ix, data, d, q, n, pos as int),
            ri == row_of(data, d, i as int),
            i < n,
            n <= u32::MAX,
            v == ix.query@[i as int],
            pos < u16::MAX,
            lo <= kin <= hi <= n,
            count@.len() == n,
            touched_marks(touched@, count@, n, i as int),
            forall|j: int|
                0 <= j < n ==> #[trigger] count@[j] == (if j > i {
                    shared_grams(ri, row_of(data, d, j), q, pos) + (if ix.rows_sorted@.subrange(
                        lo as int,
                        kin as int,
                    ).contains(j as u32) {
                        1int
                    } else {
                        0int
                    })
                } else {
                    0
                }),
        decreases hi - kin,
    {
        let j = ix.rows_sorted[kin];
        let ghost before = count@;
        let ghost seen = ix.rows_sorted@.subrange(lo as int, kin as int);
        let ghost seen2 = ix.rows_sorted@.subrange(lo as int, kin + 1);
        proof {
            assert(seen2 =~= seen.push(j));
            assert(!seen.contains(j)) by {
                if seen.contains(j) {
                    let y = choose|y: int| 0 <= y < seen.len() && seen[y] == j;
                    assert(ix.rows_sorted@[lo + y] == ix.rows_sorted@[kin as int]);
                }
            }
            assert forall|j2: u32| j2 != j implies (seen2.contains(j2) <==> seen.contains(j2)) by {
                if seen2.contains(j2) {
                    let y = choose|y: int| 0 <= y < seen2.len() && seen2[y] == j2;
                    assert(seen[y] == j2);
                }
                if seen.contains(j2) {
                    let y = choose|y: int| 0 <= y < seen.len() && seen[y] == j2;
                    assert(seen2[y] == j2);
                }
            }
            assert(seen2.contains(j)) by {
                assert(seen2[seen.len() as int] == j);
            }
        }
        if j > i {
            let c = count[j as usize];
            proof {
                lemma_shared_bound(ri, row_of(data, d, j as int), q, pos);
                assert(c as int == shared_grams(ri, row_of(data, d, j as int), q, pos));
            }
            let ghost tb = touched@;
            if c == 0 {
                touched.push(j);
                proof {
                    assert(touched@ == tb.push(j));
                    assert forall|a: int, b: int| 0 <= a < touched@.len() && 0 <= b < touched@.len() && a != b implies touched@[a] != touched@[b] by {
                        if b == touched@.len() - 1 {
                            assert(before[touched@[a] as int] > 0);
                        } else if a == touched@.len() - 1 {
                            assert(before[touched@[b] as int] > 0);
                        } else {
                            assert(tb[a] != tb[b]);
                        }
                    }
                }
            }
            let ghost mid = touched@;
            count[j as usize] = c + 1;
            proof {
                assert(count@ == before.update(j as int, (c + 1) as u16));
                assert forall|x: int| 0 <= x < touched@.len() implies i < #[trigger] touched@[x] < n && count@[touched@[x] as int] > 0 by {
                    if touched@[x] != j {
                        assert(count@[touched@[x] as int] == before[touched@[x] as int]);
                        if c == 0 {
                            assert(x < tb.len());
                            assert(tb[x] == touched@[x]);
                        }
                    }
                }
                assert forall|j2: int| 0 <= j2 < n && #[trigger] count@[j2] > 0 implies touched@.contains(j2 as u32) by {
                    if j2 == j as int {
                        if c == 0 {
                            assert(touched@[touched@.len() - 1] == j);
                        } else {
                            assert(before[j2] > 0);
                        }
                    } else {
                        assert(before[j2] > 0);
                        assert(tb.contains(j2 as u32));
                        if c == 0 {
                            let y = choose|y: int| 0 <= y < tb.len() && tb[y] == j2 as u32;
                            assert(touched@[y] == j2 as u32);
                        }
                    }
                }
                assert forall|j2: int| 0 <= j2 < n implies #[trigger] count@[j2] == (if j2 > i {
                    shared_grams(ri, row_of(data, d, j2), q, pos) + (if seen2.contains(j2 as u32) {
                        1int
                    } else {
                        0int
                    })
                } else {
                    0
                }) by {
                    if j2 != j as int {
                        assert(count@[j2] == before[j2]);
                        assert(seen2.contains(j2 as u32) == seen.contains(j2 as u32));
                    }
                }
            }
        } else {
            proof {
                assert forall|j2: int| 0 <= j2 < n implies #[trigger] count@[j2] == (if j2 > i {
                    shared_grams(ri, row_of(data, d, j2), q, pos) + (if seen2.contains(j2 as u32) {
                        1int
                    } else {
                        0int
                    })
                } else {
                    0
                }) by {
                    if j2 > i {
                        assert(j2 != j as int);
                        assert(seen2.contains(j2 as u32) == seen.contains(j2 as u32));
                    }
                }
            }
        }
        kin = kin + 1;
    }
    proof {
        let bucket = ix.rows_sorted@.subrange(lo as int, hi as int);
        assert forall|j: int| 0 <= j < n implies #[trigger] count@[j] == (if j > i {
            shared_grams(ri, row_of(data, d, j), q, pos + 1)
        } else {
            0
        }) by {
            if j > i {
                let rj = row_of(data, d, j);
                assert(bucket.contains(j as u32) <==> gram(ri, pos as int, q) == gram(rj, pos as int, q)) by {
                    assert(ix.query@[j] == gram(rj, pos as int, q));
                    assert(ix.query@[i as int] == gram(ri, pos as int, q));
                    if bucket.contains(j as u32) {
                        let y = choose|y: int| 0 <= y < bucket.len() && bucket[y] == j as u32;
                        assert(ix.rows_sorted@[lo + y] == j as u32);
                        assert(ix.grams_sorted@[lo + y] == ix.query@[ix.rows_sorted@[lo + y] as int]);
                        assert(ix.grams_sorted@[lo + y] == ix.query@[j]);
                    }
                    if gram(ri, pos as int, q) == gram(rj, pos as int, q) {
                        assert(ix.rows_sorted@.contains(j as u32));
                        let x = choose|x: int| 0 <= x < ix.rows_sorted@.len() && ix.rows_sorted@[x] == j as u32;
                        assert(ix.grams_sorted@[x] == ix.query@[ix.rows_sorted@[x] as int]);
                        assert(ix.grams_sorted@[x] == v);
                        assert(lo <= x < hi);
                        assert(bucket[x - lo] == j as u32);
                    }
                }
            }
        }
    }
}

/// The counts of row `i` over all `np` positions.
fn count_shared(
    indices: &Vec<PosIndex>,
    i: u32,
    count: &mut Vec<u16>,
    touched: &mut Vec<u32>,
    Ghost(data): Ghost<Seq<u8>>,
    Ghost(d): Ghost<int>,
    Ghost(q): Ghost<nat>,
    Ghost(n): Ghost<int>,
)
    requires
        q <= 16,
        i < n,
        n <= u32::MAX,
        indices@.len() <= u16::MAX,
        forall|p: int| 0 <= p < indices@.len() ==> pos_index_ok(#[trigger] indices@[p], data, d, q, n, p),
        counts_for(old(count)@, data, d, q, n, i as int, 0),
        old(touched)@.len() == 0,
    ensures
        counts_for(final(count)@, data, d, q, n, i as int, indices@.len() as nat),
        touched_marks(final(touched)@, final(count)@, n, i as int),
{
    let np = indices.len();
    let mut p: usize = 0;
    while p < np
        invariant
            np == indices@.len(),
            np <= u16::MAX,
            p <= np,
            q <= 16,
            i < n,
            n <= u32::MAX,
            forall|p2: int| 0 <= p2 < indices@.len() ==> pos_index_ok(#[trigger] indices@[p2], data, d, q, n, p2),
            counts_for(count@, data, d, q, n, i as int, p as nat),
            touched_marks(touched@, count@, n, i as int),
        decreases np - p,
    {
        add_bucket(&indices[p], i, count, touched, Ghost(data), Ghost(d), Ghost(q), Ghost(n), Ghost(p as nat));
        p = p + 1;
    }
}

/// What the q-gram search has found for the rows below `i`: each
/// `(i', j, dist)` with `i' < i`, `i' < j < n`, filter `m` and `dist <= k`,
/// once.
spec fn found_below(out: Seq<(u32, u32, u32)>, data: Seq<u8>, n: int, d: int, k: int, m: spec_fn(int, int) -> bool, i: int) -> bool {
    &&& forall|idx: int|
        0 <= idx < out.len() ==> {
            let e = #[trigger] out[idx];
            &&& e.0 < i
            &&& e.0 < e.1 < n
            &&& m(e.0 as int, e.1 as int)
            &&& e.2 == rows_dist(data, data, d, e.0 as int, e.1 as int)
            &&& e.2 <= k
        }
    &&& forall|i2: int, j: int|
        0 <= i2 < i && i2 < j < n && #[trigger] m(i2, j) && rows_dist(data, data, d, i2, j) <= k ==> out.contains(
            (i2 as u32, j as u32, rows_dist(data, data, d, i2, j) as u32),
        )
    &&& forall|a: int, b: int|
        0 <= a < b < out.len() ==> (#[trigger] out[a].0, out[a].1) != (#[trigger] out[b].0, out[b].1)
}

/// Verify the touched rows of row `i` whose count reaches `t`.
fn verify_touched(
    data: &[u8],
    n: usize,
    d_bytes: usize,
    k: u32,
    t: u16,
    i: u32,
    touched: &Vec<u32>,
    count: &Vec<u16>,
    out: &mut Vec<(u32, u32, u32)>,
    Ghost(q): Ghost<nat>,
)
    requires
        data@.len() == n * d_bytes,
        8 * d_bytes <= u32::MAX,
        i < n,
        n <= u32::MAX,
        t > 0,
        counts_for(count@, data@, d_bytes as int, q, n as int, i as int, gram_positions(d_bytes as int, q as int) as nat),
        touched_marks(touched@, count@, n as int, i as int),
        found_below(old(out)@, data@, n as int, d_bytes as int, k as int, qgram_filter(data@, d_bytes as int, q, t as int), i as int),
    ensures
        found_below(final(out)@, data@, n as int, d_bytes as int, k as int, qgram_filter(data@, d_bytes as int, q, t as int), i + 1),
{
    let ghost m = qgram_filter(data@, d_bytes as int, q, t as int);
    let ghost np = gram_positions(d_bytes as int, q as int) as nat;
    proof {
        lemma_row_in_bounds(n as int, d_bytes as int, i as int);
        assert((i + 1) * d_bytes == i * d_bytes + d_bytes) by (nonlinear_arith);
    }
    let total = data.len();
    let ra = &data[(i as usize) * d_bytes..(i as usize + 1) * d_bytes];
    assert(ra@ =~= row_of(data@, d_bytes as int, i as int));
    let nt = touched.len();
    let mut x: usize = 0;
    while x < nt
        invariant
            total == data@.len(),
            data@.len() == n * d_bytes,
            8 * d_bytes <= u32::MAX,
            i < n,
            n <= u32::MAX,
            t > 0,
            nt == touched@.len(),
            x <= nt,
            ra@ == row_of(data@, d_bytes as int, i as int),
            ra@.len() == d_bytes,
            m == qgram_filter(data@, d_bytes as int, q, t as int),
            np == gram_positions(d_bytes as int, q as int) as nat,
            counts_for(count@, data@, d_bytes as int, q, n as int, i as int, np),
            touched_marks(touched@, count@, n as int, i as int),
            forall|idx: int|
                0 <= idx < out@.len() ==> {
                    let e = #[trigger] out@[idx];
                    &&& e.0 <= i
                    &&& e.0 == i ==> touched@.subrange(0, x as int).contains(e.1)
                    &&& e.0 < e.1 < n
                    &&& m(e.0 as int, e.1 as int)
                    &&& e.2 == rows_dist(data@, data@, d_bytes as int, e.0 as int, e.1 as int)
                    &&& e.2 <= k
                },
            forall|i2: int, j: int|
                0 <= i2 < i && i2 < j < n && #[trigger] m(i2, j) && rows_dist(data@, data@, d_bytes as int, i2, j) <= k
                    ==> out@.contains((i2 as u32, j as u32, rows_dist(data@, data@, d_bytes as int, i2, j) as u32)),
            forall|y: int|
                0 <= y < x && m(i as int, touched@[y] as int) && rows_dist(data@, data@, d_bytes as int, i as int, #[trigger] touched@[y] as int) <= k
                    ==> out@.contains((i, touched@[y], rows_dist(data@, data@, d_bytes as int, i as int, touched@[y] as int) as u32)),
            forall|a: int, b: int|
                0 <= a < b < out@.len() ==> (#[trigger] out@[a].0, out@[a].1) != (#[trigger] out@[b].0, out@[b].1),
        decreases nt - x,
    {
        let j = touched[x];
        let ghost before = out@;
        proof {
            assert(touched@.subrange(0, x + 1) =~= touched@.subrange(0, x as int).push(j));
            assert(count@[j as int] == shared_grams(row_of(data@, d_bytes as int, i as int), row_of(data@, d_bytes as int, j as int), q, np));
        }
        let ghost hj = rows_dist(data@, data@, d_bytes as int, i as int, j as int);
        let hit: Option<u32> = if count[j as usize] >= t {
            proof {
                lemma_row_in_bounds(n as int, d_bytes as int, j as int);
                assert((j + 1) * d_bytes == j * d_bytes + d_bytes) by (nonlinear_arith);
            }
            let rb = &data[(j as usize) * d_bytes..(j as usize + 1) * d_bytes];
            assert(rb@ =~= row_of(data@, d_bytes as int, j as int));
            let dist = hamming(ra, rb);
            if dist <= k {
                Some(dist)
            } else {
                None
            }
        } else {
            None
        };
        proof {
            assert(i < j);
            assert(m(i as int, j as int) == (count@[j as int] >= t));
            assert(hit == (if m(i as int, j as int) && hj <= k {
                Some(hj as u32)
            } else {
                None::<u32>
            }));
        }
        if let Some(dist) = hit {
            {
                out.push((i, j, dist));
                proof {
                    assert forall|a: int, b: int| 0 <= a < b < out@.len() implies (#[trigger] out@[a].0, out@[a].1) != (#[trigger] out@[b].0, out@[b].1) by {
                        if b == out@.len() - 1 && out@[a].0 == i {
                            assert(touched@.subrange(0, x as int).contains(out@[a].1));
                            let y = choose|y: int| 0 <= y < x && touched@.subrange(0, x as int)[y] == out@[a].1;
                            assert(touched@[y] == out@[a].1);
                        }
                    }
                }
            }
        }
        proof {
            assert forall|idx: int| 0 <= idx < out@.len() implies (#[trigger] out@[idx]).0 == i ==> touched@.subrange(0, x + 1).contains(out@[idx].1) by {
                if idx < before.len() && out@[idx].0 == i {
                    let y = choose|y: int| 0 <= y < x && touched@.subrange(0, x as int)[y] == out@[idx].1;
                    assert(touched@.subrange(0, x + 1)[y] == out@[idx].1);
                }
                if idx == before.len() {
                    assert(touched@.subrange(0, x + 1)[x as int] == j);
                }
            }
            assert forall|i2: int, j2: int|
                0 <= i2 < i && i2 < j2 < n && #[trigger] m(i2, j2) && rows_dist(data@, data@, d_bytes as int, i2, j2) <= k
                    implies out@.contains((i2 as u32, j2 as u32, rows_dist(data@, data@, d_bytes as int, i2, j2) as u32)) by {
                let e = (i2 as u32, j2 as u32, rows_dist(data@, data@, d_bytes as int, i2, j2) as u32);
                let y = choose|y: int| 0 <= y < before.len() && before[y] == e;
                assert(out@[y] == e);
            }
            assert forall|y: int|
                0 <= y < x + 1 && m(i as int, touched@[y] as int) && rows_dist(data@, data@, d_bytes as int, i as int, #[trigger] touched@[y] as int) <= k
                    implies out@.contains((i, touched@[y], rows_dist(data@, data@, d_bytes as int, i as int, touched@[y] as int) as u32)) by {
                if y < x {
                    let e = (i, touched@[y], rows_dist(data@, data@, d_bytes as int, i as int, touched@[y] as int) as u32);
                    let z = choose|z: int| 0 <= z < before.len() && before[z] == e;
                    assert(out@[z] == e);
                } else {
                    assert(out@[out@.len() - 1] == (i, j, rows_dist(data@, data@, d_bytes as int, i as int, j as int) as u32));
                }
            }
        }
        x = x + 1;
    }
    proof {
        assert forall|i2: int, j: int|
            0 <= i2 < i + 1 && i2 < j < n && #[trigger] m(i2, j) && rows_dist(data@, data@, d_bytes as int, i2, j) <= k
                implies out@.contains((i2 as u32, j as u32, rows_dist(data@, data@, d_bytes as int, i2, j) as u32)) by {
            if i2 == i {
                assert(count@[j] > 0);
                assert(touched@.contains(j as u32));
                let y = choose|y: int| 0 <= y < touched@.len() && touched@[y] == j as u32;
                assert(m(i as int, touched@[y] as int));
            }
        }
    }
}

/// Find all pairs within Hamming distance `k` with the positional q-gram
/// counting filter. When the threshold `t = (8 * d_bytes - q + 1) - k * q`
/// is not positive the filter keeps everything, and the search is
/// `find_pairs_self_st`. Otherwise the result is, in strictly increasing
/// order, every `(i, j, dist)` with `i < j < n`, `dist = hamming(row i, row
/// j) <= k` and at least `t` shared positional `q`-grams; by the q-gram
/// lower bound, every pair within distance `k`.
pub fn find_pairs_qgram_self(data: &[u8], n: usize, d_bytes: usize, k: u32, q: u32) -> (r: Vec<(u32, u32, u32)>)
    requires
        qgram_search_ok(data@.len() as int, n as int, d_bytes as int, k as int, q as int),
    ensures
        qgram_threshold(d_bytes as int, k as int, q as int) <= 0 ==> self_join(
            r@,
            data@,
            n as int,
            d_bytes as int,
            k as int,
            byte_filter(data@, data@, d_bytes as int, chunk_ranges(d_bytes as int, k + 1)),
        ),
        qgram_threshold(d_bytes as int, k as int, q as int) > 0 ==> self_join(
            r@,
            data@,
            n as int,
            d_bytes as int,
            k as int,
            qgram_filter(data@, d_bytes as int, q as nat, qgram_threshold(d_bytes as int, k as int, q as int)),
        ),
        qgram_threshold(d_bytes as int, k as int, q as int) > 0 || k < d_bytes ==> finds_all_self(
            r@,
            data@,
            n as int,
            d_bytes as int,
            k as int,
        ),
{
    let d_bits = d_bytes * 8;
    let n_pos = d_bits - q as usize + 1;
    proof {
        assert((k as i64) * (q as i64) <= 0x10_0000_0000) by (nonlinear_arith)
            requires
                k <= u32::MAX,
                q <= 16,
        ;
    }
    let t_i: i64 = n_pos as i64 - (k as i64) * (q as i64);
    if t_i <= 0 {
        return find_pairs_self_st(data, n, d_bytes, k);
    }
    let t = t_i as u16;
    let ghost m = qgram_filter(data@, d_bytes as int, q as nat, t as int);
    let bits = unpack_bits(data, n, d_bytes);
    let mut indices: Vec<PosIndex> = Vec::with_capacity(n_pos);
    let mut p: usize = 0;
    while p < n_pos
        invariant
            d_bits == 8 * d_bytes,
            n_pos == d_bits - q + 1,
            1 <= q <= 16,
            q <= d_bits,
            p <= n_pos,
            data@.len() == n * d_bytes,
            n <= u32::MAX,
            bits@.len() == n * d_bytes * 8,
            forall|x: int| 0 <= x < bits@.len() ==> #[trigger] bits@[x] == bit_at(data@, x),
            indices@.len() == p,
            forall|p2: int| 0 <= p2 < p ==> pos_index_ok(#[trigger] indices@[p2], data@, d_bytes as int, q as nat, n as int, p2),
        decreases n_pos - p,
    {
        let ix = build_pos_index(&bits, n, d_bits, p, q, Ghost(data@), Ghost(d_bytes as int));
        indices.push(ix);
        p = p + 1;
    }
    let mut count: Vec<u16> = vec![0u16; n];
    let mut touched: Vec<u32> = Vec::with_capacity(1024);
    let mut out: Vec<(u32, u32, u32)> = Vec::new();
    let n32 = n as u32;
    let mut i: u32 = 0;
    while i < n32
        invariant
            n32 == n,
            n <= u32::MAX,
            i <= n,
            1 <= q <= 16,
            t > 0,
            t as int == qgram_threshold(d_bytes as int, k as int, q as int),
            m == qgram_filter(data@, d_bytes as int, q as nat, t as int),
            data@.len() == n * d_bytes,
            8 * d_bytes <= u32::MAX,
            indices@.len() == gram_positions(d_bytes as int, q as int),
            indices@.len() <= u16::MAX,
            forall|p2: int| 0 <= p2 < indices@.len() ==> pos_index_ok(#[trigger] indices@[p2], data@, d_bytes as int, q as nat, n as int, p2),
            count@.len() == n,
            forall|x: int| 0 <= x < touched@.len() ==> (#[trigger] touched@[x] as int) < n,
            forall|j: int| 0 <= j < n && #[trigger] count@[j] > 0 ==> touched@.contains(j as u32),
            found_below(out@, data@, n as int, d_bytes as int, k as int, m, i as int),
        decreases n32 - i,
    {
        reset_counts(&mut count, &mut touched, Ghost(n as int));
        proof {
            assert(counts_for(count@, data@, d_bytes as int, q as nat, n as int, i as int, 0));
        }
        count_shared(&indices, i, &mut count, &mut touched, Ghost(data@), Ghost(d_bytes as int), Ghost(q as nat), Ghost(n as int));
        verify_touched(data, n, d_bytes, k, t, i, &touched, &count, &mut out, Ghost(q as nat));
        i = i + 1;
    }
    let ghost unsorted = out@;
    proof {
        assert(unsorted.no_duplicates()) by {
            assert forall|a: int, b: int| 0 <= a < unsorted.len() && 0 <= b < unsorted.len() && a != b implies unsorted[a] != unsorted[b] by {
                if a < b {
                    assert((unsorted[a].0, unsorted[a].1) != (unsorted[b].0, unsorted[b].1));
                } else {
                    assert((unsorted[b].0, unsorted[b].1) != (unsorted[a].0, unsorted[a].1));
                }
            }
        }
        unsorted.lemma_multiset_has_no_duplicates();
    }
    sort_triples(&mut out);
    proof {
        out@.lemma_multiset_has_no_duplicates_conv();
        lemma_same_members(out@, unsorted);
        assert(strictly_sorted_triples(out@)) by {
            assert forall|a: int, b: int| 0 <= a < b < out@.len() implies triple_lt(#[trigger] out@[a], #[trigger] out@[b]) by {
                assert(out@[a] != out@[b]);
            }
        }
        assert forall|idx: int| 0 <= idx < out@.len() implies {
            let e = #[trigger] out@[idx];
            &&& e.0 < e.1 < n
            &&& m(e.0 as int, e.1 as int)
            &&& e.2 == rows_dist(data@, data@, d_bytes as int, e.0 as int, e.1 as int)
            &&& e.2 <= k
        } by {
            assert(unsorted.contains(out@[idx]));
            let y = choose|y: int| 0 <= y < unsorted.len() && unsorted[y] == out@[idx];
        }
        assert forall|i2: int, j: int|
            0 <= i2 < j < n && #[trigger] m(i2, j) && rows_dist(data@, data@, d_bytes as int, i2, j) <= k implies out@.contains(
            (i2 as u32, j as u32, rows_dist(data@, data@, d_bytes as int, i2, j) as u32),
        ) by {
            assert(unsorted.contains((i2 as u32, j as u32, rows_dist(data@, data@, d_bytes as int, i2, j) as u32)));
        }
        assert forall|i2: int, j: int|
            0 <= i2 < j < n && #[trigger] rows_dist(data@, data@, d_bytes as int, i2, j) <= k implies out@.contains(
            (i2 as u32, j as u32, rows_dist(data@, data@, d_bytes as int, i2, j) as u32),
        ) by {
            lemma_row_in_bounds(n as int, d_bytes as int, i2);
            lemma_row_in_bounds(n as int, d_bytes as int, j);
            lemma_qgram_lower_bound(
                row_of(data@, d_bytes as int, i2),
                row_of(data@, d_bytes as int, j),
                q as nat,
                k as nat,
            );
            assert(m(i2, j));
        }
    }
    out
}

} // verus!
