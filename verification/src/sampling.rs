//! Deterministic stride sampling of rows and the per-bit counts of ones over
//! the sample: the integer part of the per-bit entropy estimate that plans
//! entropy-balanced chunks.

use vstd::prelude::*;

use crate::bitspec::bit_at;
use crate::rows::{row_of, lemma_row_in_bounds};

verus! {

/// The number of rows sampled: `min(sample_size, n)`.
pub open spec fn sample_count(n: int, sample_size: int) -> int {
    if sample_size < n {
        sample_size
    } else {
        n
    }
}

/// The stride between sampled rows when `m` of `n` rows are sampled:
/// `max(n / m, 1)`, and 1 when none is.
pub open spec fn sample_stride(n: int, m: int) -> int {
    if m == 0 {
        1
    } else if n / m >= 1 {
        n / m
    } else {
        1
    }
}

/// Every sampled row `t * stride` (for `t < m`) lies within the first
/// `len` bytes of the corpus.
pub open spec fn samples_fit(len: int, n: int, d: int, sample_size: int) -> bool {
    let m = sample_count(n, sample_size);
    m == 0 || ((m - 1) * sample_stride(n, m) + 1) * d <= len
}

/// How many of the rows `0, s, 2 s, ..., (t - 1) s` have bit `p` set.
pub open spec fn ones_at(data: Seq<u8>, d: int, s: int, t: nat, p: int) -> nat
    decreases t,
{
    if t == 0 {
        0
    } else {
        ones_at(data, d, s, (t - 1) as nat, p) + (if bit_at(row_of(data, d, (t - 1) * s), p) == 1 {
            1nat
        } else {
            0nat
        })
    }
}

/// The running count `ones_at` is the number of sampled rows `i * s`,
/// `i < t`, whose bit `p` is 1.
pub proof fn lemma_ones_at_counts_rows(data: Seq<u8>, d: int, s: int, t: nat, p: int)
    ensures
        Set::new(|i: int| 0 <= i < t && bit_at(row_of(data, d, i * s), p) == 1).finite(),
        ones_at(data, d, s, t, p) == Set::new(
            |i: int| 0 <= i < t && bit_at(row_of(data, d, i * s), p) == 1,
        ).len(),
    decreases t,
{
    let cur = Set::new(|i: int| 0 <= i < t && bit_at(row_of(data, d, i * s), p) == 1);
    if t == 0 {
        assert(cur =~= Set::<int>::empty());
    } else {
        let t1 = (t - 1) as nat;
        let prev = Set::new(|i: int| 0 <= i < t1 && bit_at(row_of(data, d, i * s), p) == 1);
        lemma_ones_at_counts_rows(data, d, s, t1, p);
        if bit_at(row_of(data, d, t1 * s), p) == 1 {
            assert(cur =~= prev.insert(t1 as int));
            assert(!prev.contains(t1 as int));
        } else {
            assert(cur =~= prev);
        }
    }
}

proof fn lemma_ones_at_bound(data: Seq<u8>, d: int, s: int, t: nat, p: int)
    ensures
        ones_at(data, d, s, t, p) <= t,
    decreases t,
{
    if t > 0 {
        lemma_ones_at_bound(data, d, s, (t - 1) as nat, p);
    }
}

/// The last sampled row ends within `len` bytes exactly when every sampled
/// row `t * (n / m)`, `t < m`, does.
proof fn lemma_last_row_bounds_all(len: int, n: int, d: int, m: int)
    requires
        1 <= m <= n,
        0 <= d,
    ensures
        (((m - 1) * (n / m) + 1) * d <= len) <==> forall|t: int|
            0 <= t < m ==> (#[trigger] (t * (n / m)) + 1) * d <= len,
{
    let st = n / m;
    assert(st >= 1) by (nonlinear_arith)
        requires
            1 <= m <= n,
            st == n / m,
    ;
    if ((m - 1) * st + 1) * d <= len {
        assert forall|t: int| 0 <= t < m implies (#[trigger] (t * (n / m)) + 1) * d <= len by {
            assert((t * st + 1) * d <= ((m - 1) * st + 1) * d) by (nonlinear_arith)
                requires
                    0 <= t <= m - 1,
                    st >= 1,
                    d >= 0,
            ;
        }
    } else {
        assert(((m - 1) * (n / m) + 1) * d > len);
    }
}

/// Whether every row that `sample_bit_counts` samples lies within `len`
/// bytes.
pub fn sample_rows_fit(len: usize, n: usize, d_bytes: usize, sample_size: usize) -> (r: bool)
    ensures
        r == samples_fit(len as int, n as int, d_bytes as int, sample_size as int),
        r <==> forall|t: int|
            0 <= t < vstd::math::min(sample_size as int, n as int) ==> (#[trigger] (t * (n as int
                / vstd::math::min(sample_size as int, n as int))) + 1) * d_bytes <= len,
{
    let m = if sample_size < n {
        sample_size
    } else {
        n
    };
    if m == 0 {
        return true;
    }
    proof {
        lemma_last_row_bounds_all(len as int, n as int, d_bytes as int, m as int);
    }
    let q = n / m;
    assert(q >= 1) by (nonlinear_arith)
        requires
            1 <= m <= n,
            q == n / m,
    ;
    let stride = if q >= 1 {
        q
    } else {
        1
    };
    assert((m - 1) * stride + stride == m * stride) by (nonlinear_arith)
        requires
            m >= 1,
    ;
    assert(m * stride <= n) by (nonlinear_arith)
        requires
            m >= 1,
            m <= n,
            q == n / m,
            stride == q,
    ;
    let last = (m - 1) * stride + 1;
    let res = match last.checked_mul(d_bytes) {
        Some(end) => end <= len,
        None => false,
    };
    proof {
        assert(vstd::math::min(sample_size as int, n as int) == m as int);
        assert(stride as int == n as int / m as int);
        assert(res == (((m - 1) * (n as int / m as int) + 1) * d_bytes <= len));
    }
    res
}

/// Sample `m = min(sample_size, n)` rows, row 0 and then every `max(n / m,
/// 1)`-th row, and count for each bit position (MSB-first within each byte,
/// as `extract_bits` numbers them) how many sampled rows have it set.
/// Returns the counts, one per bit position, and the number of rows
/// sampled, which is `m`.
pub fn sample_bit_counts(data: &[u8], n: usize, d_bytes: usize, sample_size: usize) -> (r: (Vec<u64>, u64))
    requires
        samples_fit(data@.len() as int, n as int, d_bytes as int, sample_size as int),
        8 * d_bytes <= usize::MAX,
    ensures
        r.1 == sample_count(n as int, sample_size as int),
        r.1 == (if sample_size < n {
            sample_size
        } else {
            n
        }),
        r.0@.len() == 8 * d_bytes,
        forall|p: int|
            0 <= p < 8 * d_bytes ==> #[trigger] r.0@[p] == ones_at(
                data@,
                d_bytes as int,
                sample_stride(n as int, r.1 as int),
                r.1 as nat,
                p,
            ),
        forall|p: int|
            0 <= p < 8 * d_bytes ==> #[trigger] r.0@[p] == Set::new(
                |i: int|
                    0 <= i < r.1 && bit_at(
                        data@.subrange(i * (n as int / r.1 as int) * d_bytes, i * (n as int / r.1 as int) * d_bytes + d_bytes),
                        p,
                    ) == 1,
            ).len(),
{
    let d_bits = 8 * d_bytes;
    let m = if sample_size < n {
        sample_size
    } else {
        n
    };
    let mut counts: Vec<u64> = Vec::new();
    let mut p: usize = 0;
    while p < d_bits
        invariant
            p <= d_bits,
            counts@.len() == p,
            forall|q: int| 0 <= q < p ==> counts@[q] == 0,
        decreases d_bits - p,
    {
        counts.push(0);
        p = p + 1;
    }
    let stride = if m == 0 {
        1
    } else {
        let q = n / m;
        if q >= 1 {
            q
        } else {
            1
        }
    };
    let ghost s = stride as int;
    proof {
        if m > 0 {
            assert(n / m >= 1) by (nonlinear_arith)
                requires
                    1 <= m <= n,
            ;
            assert(m * stride <= n) by (nonlinear_arith)
                requires
                    m >= 1,
                    m <= n,
                    stride == n / m,
            ;
        }
    }
    let total = data.len();
    let mut sampled: u64 = 0;
    let mut row: usize = 0;
    while sampled < m as u64 && row < n
        invariant
            total == data@.len(),
            samples_fit(data@.len() as int, n as int, d_bytes as int, sample_size as int),
            m == sample_count(n as int, sample_size as int),
            s == sample_stride(n as int, m as int),
            stride == s,
            stride >= 1,
            m > 0 ==> m * stride <= n,
            m <= n,
            sampled <= m,
            row == sampled * stride,
            d_bits == 8 * d_bytes,
            counts@.len() == d_bits,
            forall|q: int|
                0 <= q < d_bits ==> #[trigger] counts@[q] == ones_at(data@, d_bytes as int, s, sampled as nat, q),
        decreases m - sampled,
    {
        proof {
            assert(row + stride <= m * stride) by (nonlinear_arith)
                requires
                    row == sampled * stride,
                    sampled + 1 <= m,
                    stride >= 1,
            ;
            assert((m - 1) * stride + 1 >= row + 1) by (nonlinear_arith)
                requires
                    row == sampled * stride,
                    sampled + 1 <= m,
                    stride >= 1,
            ;
            assert(((m - 1) * stride + 1) * d_bytes >= (row + 1) * d_bytes) by (nonlinear_arith)
                requires
                    (m - 1) * stride + 1 >= row + 1,
            ;
            assert((row + 1) * d_bytes == row * d_bytes + d_bytes) by (nonlinear_arith);
            assert(0 <= row * d_bytes) by (nonlinear_arith);
            assert(((m - 1) * s + 1) * d_bytes <= data@.len());
            assert(row * d_bytes + d_bytes <= data@.len());
        }
        let r = &data[row * d_bytes..row * d_bytes + d_bytes];
        assert(r@ == row_of(data@, d_bytes as int, row as int));
        let ghost t = sampled as nat;
        let mut p: usize = 0;
        while p < d_bits
            invariant
                d_bits == 8 * d_bytes,
                r@.len() == d_bytes,
                r@ == row_of(data@, d_bytes as int, t * s),
                row == t * s,
                t < m,
                m <= n,
                counts@.len() == d_bits,
                p <= d_bits,
                forall|q: int|
                    0 <= q < p ==> #[trigger] counts@[q] == ones_at(data@, d_bytes as int, s, t + 1, q),
                forall|q: int|
                    p <= q < d_bits ==> #[trigger] counts@[q] == ones_at(data@, d_bytes as int, s, t, q),
            decreases d_bits - p,
        {
            let byte = r[p / 8];
            let sh: u8 = (7 - p % 8) as u8;
            let bit = (byte >> sh) & 1u8;
            assert(bit == bit_at(r@, p as int));
            proof {
                lemma_ones_at_bound(data@, d_bytes as int, s, t, p as int);
            }
            if bit == 1 {
                let c = counts[p];
                counts.set(p, c + 1);
            }
            p = p + 1;
        }
        sampled = sampled + 1;
        row = row + stride;
        proof {
            assert(row == sampled * stride) by (nonlinear_arith)
                requires
                    row == t * stride + stride,
                    sampled == t + 1,
            ;
        }
    }
    proof {
        if sampled < m {
            assert(row < n) by (nonlinear_arith)
                requires
                    row == sampled * stride,
                    sampled + 1 <= m,
                    m * stride <= n,
                    stride >= 1,
            ;
        }
    }
    proof {
        assert forall|p: int| 0 <= p < 8 * d_bytes implies #[trigger] counts@[p] == Set::new(
            |i: int|
                0 <= i < sampled && bit_at(
                    data@.subrange(i * (n as int / sampled as int) * d_bytes, i * (n as int / sampled as int) * d_bytes + d_bytes),
                    p,
                ) == 1,
        ).len() by {
            lemma_ones_at_counts_rows(data@, d_bytes as int, s, sampled as nat, p);
            if m > 0 {
                assert(n / m >= 1) by (nonlinear_arith)
                    requires
                        1 <= m <= n,
                ;
            }
            assert(Set::new(|i: int| 0 <= i < sampled && bit_at(row_of(data@, d_bytes as int, i * s), p) == 1)
                =~= Set::new(
                |i: int|
                    0 <= i < sampled && bit_at(
                        data@.subrange(i * (n as int / sampled as int) * d_bytes, i * (n as int / sampled as int) * d_bytes + d_bytes),
                        p,
                    ) == 1,
            ));
        }
    }
    (counts, sampled)
}

} // verus!
