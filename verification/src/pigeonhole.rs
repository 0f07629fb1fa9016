//! The pigeonhole principle behind the prefilter: two rows within Hamming
//! distance `k` agree exactly on at least one of any `k + 1` disjoint sets of
//! bit positions.

use vstd::prelude::*;
use vstd::set_lib::{set_int_range, lemma_len_subset, lemma_set_disjoint_lens};

use crate::bitspec::{bit_at, diff_upto, hamming_distance, lemma_diff_upto_bytes};
use crate::chunks::disjoint_ranges;
use crate::extract::{agree_on_range, agree_on_positions};

verus! {

/// The members of `dset` that fall in one of the first `m` sets of `family`.
spec fn hits(family: Seq<Set<int>>, dset: Set<int>, m: int) -> Set<int>
    decreases m,
{
    if m <= 0 {
        Set::empty()
    } else {
        hits(family, dset, m - 1).union(family[m - 1].intersect(dset))
    }
}

/// The sets of `family` are pairwise disjoint.
pub open spec fn pairwise_disjoint(family: Seq<Set<int>>) -> bool {
    forall|c1: int, c2: int|
        0 <= c1 < family.len() && 0 <= c2 < family.len() && c1 != c2 ==> #[trigger] family[c1].disjoint(
            #[trigger] family[c2],
        )
}

/// Pigeonhole: a finite set of at most `k` elements misses at least one of
/// `k + 1` or more pairwise disjoint sets.
pub proof fn lemma_pigeonhole(family: Seq<Set<int>>, dset: Set<int>, k: int)
    requires
        dset.finite(),
        dset.len() <= k,
        family.len() >= k + 1,
        pairwise_disjoint(family),
    ensures
        exists|c: int| 0 <= c < family.len() && (#[trigger] family[c]).disjoint(dset),
{
    lemma_pigeonhole_count(family, dset, k);
    lemma_clean_witness(family, dset, family.len() as int);
}

/// A positive clean count names a set that misses `dset`.
proof fn lemma_clean_witness(family: Seq<Set<int>>, dset: Set<int>, m: int)
    requires
        0 <= m <= family.len(),
        clean_count(family, dset, m) > 0,
    ensures
        exists|c: int| 0 <= c < m && (#[trigger] family[c]).disjoint(dset),
    decreases m,
{
    if !family[m - 1].disjoint(dset) {
        lemma_clean_witness(family, dset, m - 1);
        let c = choose|c: int| 0 <= c < m - 1 && (#[trigger] family[c]).disjoint(dset);
        assert(0 <= c < m && family[c].disjoint(dset));
    }
}

/// The number of the first `m` sets of `family` that miss `dset`.
pub open spec fn clean_count(family: Seq<Set<int>>, dset: Set<int>, m: int) -> nat
    decreases m,
{
    if m <= 0 {
        0
    } else {
        clean_count(family, dset, m - 1) + (if family[m - 1].disjoint(dset) {
            1nat
        } else {
            0nat
        })
    }
}

proof fn lemma_hits_count(family: Seq<Set<int>>, dset: Set<int>, m: int)
    requires
        dset.finite(),
        pairwise_disjoint(family),
        0 <= m <= family.len(),
    ensures
        hits(family, dset, m).subset_of(dset),
        hits(family, dset, m).finite(),
        hits(family, dset, m).len() + clean_count(family, dset, m) >= m,
        forall|q: int| #[trigger]
            hits(family, dset, m).contains(q) ==> exists|c: int|
                0 <= c < m && (#[trigger] family[c]).contains(q),
    decreases m,
{
    if m > 0 {
        lemma_hits_count(family, dset, m - 1);
        let prev = hits(family, dset, m - 1);
        let new = family[m - 1].intersect(dset);
        lemma_len_subset(new, dset);
        if !family[m - 1].disjoint(dset) {
            let q0 = choose|q: int| family[m - 1].contains(q) && dset.contains(q);
            assert(new.contains(q0));
            assert(new.len() >= 1) by {
                if new.len() == 0 {
                    assert(new =~= Set::<int>::empty());
                }
            }
        }
        assert(prev.disjoint(new)) by {
            assert forall|q: int| !(prev.contains(q) && new.contains(q)) by {
                if prev.contains(q) && new.contains(q) {
                    let c = choose|c: int| 0 <= c < m - 1 && (#[trigger] family[c]).contains(q);
                    assert(family[c].disjoint(family[m - 1]));
                }
            }
        }
        lemma_set_disjoint_lens(prev, new);
        assert(hits(family, dset, m) == prev + new);
        assert forall|q: int| #[trigger]
            hits(family, dset, m).contains(q) implies exists|c: int|
                0 <= c < m && (#[trigger] family[c]).contains(q) by {
            if prev.contains(q) {
                let c = choose|c: int| 0 <= c < m - 1 && (#[trigger] family[c]).contains(q);
                assert(0 <= c < m && family[c].contains(q));
            } else {
                assert(family[m - 1].contains(q));
            }
        }
    }
}

/// Pigeonhole, counted: a finite set of at most `k` elements misses at
/// least `m - k` of `m` pairwise disjoint sets (with `m` chunks and at most
/// `k` differing bits, at least `m - k` chunks hold no differing bit).
pub proof fn lemma_pigeonhole_count(family: Seq<Set<int>>, dset: Set<int>, k: int)
    requires
        dset.finite(),
        dset.len() <= k,
        pairwise_disjoint(family),
    ensures
        clean_count(family, dset, family.len() as int) >= family.len() - k,
{
    lemma_hits_count(family, dset, family.len() as int);
    lemma_len_subset(hits(family, dset, family.len() as int), dset);
}

/// Two rows within Hamming distance `k` agree on every bit of at least one
/// of `k + 1` or more disjoint bit ranges.
pub proof fn lemma_bit_ranges_pigeonhole(a: Seq<u8>, b: Seq<u8>, ranges: Seq<(usize, usize)>, k: int)
    requires
        a.len() == b.len(),
        hamming_distance(a, b) <= k,
        disjoint_ranges(ranges, 8 * a.len() as int),
        ranges.len() >= k + 1,
    ensures
        exists|c: int|
            0 <= c < ranges.len() && agree_on_range(a, b, (#[trigger] ranges[c]).0 as int, ranges[c].1 as int),
{
    let dset = diff_upto(a, b, 8 * a.len() as int);
    lemma_diff_upto_bytes(a, b, a.len() as int);
    let family = Seq::new(ranges.len(), |c: int| set_int_range(ranges[c].0 as int, ranges[c].1 as int));
    assert(pairwise_disjoint(family)) by {
        assert forall|c1: int, c2: int|
            0 <= c1 < family.len() && 0 <= c2 < family.len() && c1 != c2 implies #[trigger] family[c1].disjoint(
            #[trigger] family[c2],
        ) by {
            if c1 < c2 {
                assert(ranges[c1].1 <= ranges[c2].0);
            } else {
                assert(ranges[c2].1 <= ranges[c1].0);
            }
        }
    }
    lemma_pigeonhole(family, dset, k);
    let c = choose|c: int| 0 <= c < family.len() && (#[trigger] family[c]).disjoint(dset);
    assert(ranges[c].0 < ranges[c].1 && ranges[c].1 <= 8 * a.len());
    assert forall|q: int| ranges[c].0 <= q < ranges[c].1 implies #[trigger] bit_at(a, q) == bit_at(b, q) by {
        assert(family[c].contains(q));
        assert(!dset.contains(q));
    }
    assert(agree_on_range(a, b, ranges[c].0 as int, ranges[c].1 as int));
}

/// A byte is determined by its eight bits.
proof fn lemma_byte_from_bits(x: u8, y: u8)
    requires
        (x >> 0u8) & 1u8 == (y >> 0u8) & 1u8,
        (x >> 1u8) & 1u8 == (y >> 1u8) & 1u8,
        (x >> 2u8) & 1u8 == (y >> 2u8) & 1u8,
        (x >> 3u8) & 1u8 == (y >> 3u8) & 1u8,
        (x >> 4u8) & 1u8 == (y >> 4u8) & 1u8,
        (x >> 5u8) & 1u8 == (y >> 5u8) & 1u8,
        (x >> 6u8) & 1u8 == (y >> 6u8) & 1u8,
        (x >> 7u8) & 1u8 == (y >> 7u8) & 1u8,
    ensures
        x == y,
{
    assert(x == y) by (bit_vector)
        requires
            (x >> 0u8) & 1u8 == (y >> 0u8) & 1u8,
            (x >> 1u8) & 1u8 == (y >> 1u8) & 1u8,
            (x >> 2u8) & 1u8 == (y >> 2u8) & 1u8,
            (x >> 3u8) & 1u8 == (y >> 3u8) & 1u8,
            (x >> 4u8) & 1u8 == (y >> 4u8) & 1u8,
            (x >> 5u8) & 1u8 == (y >> 5u8) & 1u8,
            (x >> 6u8) & 1u8 == (y >> 6u8) & 1u8,
            (x >> 7u8) & 1u8 == (y >> 7u8) & 1u8,
    ;
}

proof fn lemma_bit_of_byte(a: Seq<u8>, b: Seq<u8>, m: int, s: int)
    requires
        0 <= m,
        0 <= s < 8,
        bit_at(a, 8 * m + s) == bit_at(b, 8 * m + s),
    ensures
        (a[m] >> ((7 - s) as u8)) & 1u8 == (b[m] >> ((7 - s) as u8)) & 1u8,
{
    assert((8 * m + s) / 8 == m);
    assert((8 * m + s) % 8 == s);
}

/// Rows that agree on every bit of bytes `[lo, hi)` agree on those bytes.
proof fn lemma_bytes_from_bits(a: Seq<u8>, b: Seq<u8>, lo: int, hi: int)
    requires
        0 <= lo <= hi <= a.len(),
        hi <= b.len(),
        agree_on_range(a, b, 8 * lo, 8 * hi),
    ensures
        a.subrange(lo, hi) == b.subrange(lo, hi),
{
    assert forall|m: int| lo <= m < hi implies a[m] == b[m] by {
        assert forall|s: int| 0 <= s < 8 implies #[trigger] bit_at(a, 8 * m + s) == bit_at(b, 8 * m + s) by {
            assert(8 * lo <= 8 * m + s < 8 * hi);
        }
        lemma_bit_of_byte(a, b, m, 0);
        lemma_bit_of_byte(a, b, m, 1);
        lemma_bit_of_byte(a, b, m, 2);
        lemma_bit_of_byte(a, b, m, 3);
        lemma_bit_of_byte(a, b, m, 4);
        lemma_bit_of_byte(a, b, m, 5);
        lemma_bit_of_byte(a, b, m, 6);
        lemma_bit_of_byte(a, b, m, 7);
        lemma_byte_from_bits(a[m], b[m]);
    }
    assert(a.subrange(lo, hi) =~= b.subrange(lo, hi));
}

/// Two rows within Hamming distance `k` agree on every byte of at least one
/// of `k + 1` or more disjoint byte ranges.
pub proof fn lemma_byte_ranges_pigeonhole(a: Seq<u8>, b: Seq<u8>, ranges: Seq<(usize, usize)>, k: int)
    requires
        a.len() == b.len(),
        hamming_distance(a, b) <= k,
        disjoint_ranges(ranges, a.len() as int),
        ranges.len() >= k + 1,
    ensures
        exists|c: int|
            0 <= c < ranges.len() && a.subrange((#[trigger] ranges[c]).0 as int, ranges[c].1 as int)
                == b.subrange(ranges[c].0 as int, ranges[c].1 as int),
{
    let dset = diff_upto(a, b, 8 * a.len() as int);
    lemma_diff_upto_bytes(a, b, a.len() as int);
    let family = Seq::new(
        ranges.len(),
        |c: int| set_int_range(8 * ranges[c].0 as int, 8 * ranges[c].1 as int),
    );
    assert(pairwise_disjoint(family)) by {
        assert forall|c1: int, c2: int|
            0 <= c1 < family.len() && 0 <= c2 < family.len() && c1 != c2 implies #[trigger] family[c1].disjoint(
            #[trigger] family[c2],
        ) by {
            if c1 < c2 {
                assert(ranges[c1].1 <= ranges[c2].0);
            } else {
                assert(ranges[c2].1 <= ranges[c1].0);
            }
        }
    }
    lemma_pigeonhole(family, dset, k);
    let c = choose|c: int| 0 <= c < family.len() && (#[trigger] family[c]).disjoint(dset);
    let lo = ranges[c].0 as int;
    let hi = ranges[c].1 as int;
    assert(lo < hi && hi <= a.len());
    assert forall|q: int| 8 * lo <= q < 8 * hi implies #[trigger] bit_at(a, q) == bit_at(b, q) by {
        assert(family[c].contains(q));
        assert(!dset.contains(q));
    }
    lemma_bytes_from_bits(a, b, lo, hi);
}

/// Position chunks that share no position.
pub open spec fn disjoint_position_chunks(chunks: Seq<Seq<usize>>) -> bool {
    forall|c1: int, c2: int, j1: int, j2: int|
        0 <= c1 < chunks.len() && 0 <= c2 < chunks.len() && c1 != c2 && 0 <= j1 < chunks[c1].len()
            && 0 <= j2 < chunks[c2].len() ==> #[trigger] chunks[c1][j1] != #[trigger] chunks[c2][j2]
}

/// Two rows within Hamming distance `k` agree at every position of at least
/// one of `k + 1` or more position chunks that share no position.
pub proof fn lemma_position_chunks_pigeonhole(a: Seq<u8>, b: Seq<u8>, chunks: Seq<Seq<usize>>, k: int)
    requires
        a.len() == b.len(),
        hamming_distance(a, b) <= k,
        disjoint_position_chunks(chunks),
        forall|c: int, j: int|
            0 <= c < chunks.len() && 0 <= j < chunks[c].len() ==> #[trigger] chunks[c][j] < 8 * a.len(),
        chunks.len() >= k + 1,
    ensures
        exists|c: int| 0 <= c < chunks.len() && agree_on_positions(a, b, #[trigger] chunks[c]),
{
    let dset = diff_upto(a, b, 8 * a.len() as int);
    lemma_diff_upto_bytes(a, b, a.len() as int);
    let family = Seq::new(
        chunks.len(),
        |c: int| Set::new(|q: int| exists|j: int| 0 <= j < chunks[c].len() && chunks[c][j] == q),
    );
    assert(pairwise_disjoint(family)) by {
        assert forall|c1: int, c2: int|
            0 <= c1 < family.len() && 0 <= c2 < family.len() && c1 != c2 implies #[trigger] family[c1].disjoint(
            #[trigger] family[c2],
        ) by {
            assert forall|q: int| !(family[c1].contains(q) && family[c2].contains(q)) by {
                if family[c1].contains(q) && family[c2].contains(q) {
                    let j1 = choose|j: int| 0 <= j < chunks[c1].len() && chunks[c1][j] == q;
                    let j2 = choose|j: int| 0 <= j < chunks[c2].len() && chunks[c2][j] == q;
                    assert(chunks[c1][j1] != chunks[c2][j2]);
                }
            }
        }
    }
    lemma_pigeonhole(family, dset, k);
    let c = choose|c: int| 0 <= c < family.len() && (#[trigger] family[c]).disjoint(dset);
    assert forall|j: int| 0 <= j < chunks[c].len() implies #[trigger] bit_at(a, chunks[c][j] as int)
        == bit_at(b, chunks[c][j] as int) by {
        let q = chunks[c][j] as int;
        assert(family[c].contains(q));
        assert(!dset.contains(q));
        assert(q < 8 * a.len());
    }
}

} // verus!
