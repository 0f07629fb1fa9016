//! The verify step: keep the candidate pairs within Hamming distance `k`,
//! and the dedup of sorted lists.

use vstd::prelude::*;

use crate::hamming::{hamming, hamming_le_k};
use crate::rows::{
    row_of, rows_dist, pair_lt, triple_lt, pair_le, triple_le, sorted_pairs, sorted_triples,
    strictly_sorted_pairs, strictly_sorted_triples,
};

verus! {

/// The candidates `(i, j)` within distance `k`, in order, each as
/// `(i, j, dist)`, where `dist` is the Hamming distance between row `i` of
/// `a` and row `j` of `b`.
pub open spec fn verified(cand: Seq<(u32, u32)>, a: Seq<u8>, b: Seq<u8>, d: int, k: int) -> Seq<(u32, u32, u32)>
    decreases cand.len(),
{
    if cand.len() == 0 {
        seq![]
    } else {
        let prev = verified(cand.drop_last(), a, b, d, k);
        let p = cand.last();
        let h = rows_dist(a, b, d, p.0 as int, p.1 as int);
        if h <= k {
            prev.push((p.0, p.1, h as u32))
        } else {
            prev
        }
    }
}

/// Every candidate names a row of `a` (first) and of `b` (second).
pub open spec fn pairs_in_rows(cand: Seq<(u32, u32)>, a_len: int, b_len: int, d: int) -> bool {
    forall|idx: int|
        0 <= idx < cand.len() ==> ((#[trigger] cand[idx]).0 + 1) * d <= a_len && (cand[idx].1 + 1)
            * d <= b_len && cand[idx].0 < usize::MAX && cand[idx].1 < usize::MAX
}

/// What `verified` keeps: exactly the candidates within distance `k`.
pub proof fn lemma_verified_members(cand: Seq<(u32, u32)>, a: Seq<u8>, b: Seq<u8>, d: int, k: int)
    ensures
        forall|t: (u32, u32, u32)|
            verified(cand, a, b, d, k).contains(t) <==> (cand.contains((t.0, t.1)) && rows_dist(
                a,
                b,
                d,
                t.0 as int,
                t.1 as int,
            ) <= k && t.2 == rows_dist(a, b, d, t.0 as int, t.1 as int) as u32),
    decreases cand.len(),
{
    if cand.len() > 0 {
        let prev_c = cand.drop_last();
        lemma_verified_members(prev_c, a, b, d, k);
        let v = verified(cand, a, b, d, k);
        let pv = verified(prev_c, a, b, d, k);
        let p = cand.last();
        assert(cand =~= prev_c.push(p));
        assert forall|t: (u32, u32, u32)|
            v.contains(t) <==> (cand.contains((t.0, t.1)) && rows_dist(
                a,
                b,
                d,
                t.0 as int,
                t.1 as int,
            ) <= k && t.2 == rows_dist(a, b, d, t.0 as int, t.1 as int) as u32) by {
            if v.contains(t) {
                let i = choose|i: int| 0 <= i < v.len() && v[i] == t;
                if i < pv.len() {
                    assert(pv.contains(t));
                    let i2 = choose|i2: int| 0 <= i2 < prev_c.len() && prev_c[i2] == (t.0, t.1);
                    assert(cand[i2] == (t.0, t.1));
                } else {
                    assert(cand[cand.len() - 1] == (t.0, t.1));
                }
            }
            if cand.contains((t.0, t.1)) && rows_dist(a, b, d, t.0 as int, t.1 as int) <= k && t.2
                == rows_dist(a, b, d, t.0 as int, t.1 as int) as u32 {
                let i = choose|i: int| 0 <= i < cand.len() && cand[i] == (t.0, t.1);
                if i < prev_c.len() {
                    assert(prev_c[i] == (t.0, t.1));
                    assert(pv.contains(t));
                    let i2 = choose|i2: int| 0 <= i2 < pv.len() && pv[i2] == t;
                    assert(v[i2] == t);
                } else {
                    assert(v[v.len() - 1] == t);
                }
            }
        }
    }
}

/// `verified` of a strictly increasing candidate list is strictly
/// increasing.
pub proof fn lemma_verified_sorted(cand: Seq<(u32, u32)>, a: Seq<u8>, b: Seq<u8>, d: int, k: int)
    requires
        strictly_sorted_pairs(cand),
    ensures
        strictly_sorted_triples(verified(cand, a, b, d, k)),
    decreases cand.len(),
{
    if cand.len() > 0 {
        let prev_c = cand.drop_last();
        assert(strictly_sorted_pairs(prev_c)) by {
            assert forall|x: int, y: int| 0 <= x < y < prev_c.len() implies pair_lt(
                #[trigger] prev_c[x],
                #[trigger] prev_c[y],
            ) by {
                assert(pair_lt(cand[x], cand[y]));
            }
        }
        lemma_verified_sorted(prev_c, a, b, d, k);
        lemma_verified_members(prev_c, a, b, d, k);
        let v = verified(cand, a, b, d, k);
        let pv = verified(prev_c, a, b, d, k);
        let p = cand.last();
        assert forall|x: int, y: int| 0 <= x < y < v.len() implies triple_lt(
            #[trigger] v[x],
            #[trigger] v[y],
        ) by {
            if y >= pv.len() {
                assert(pv.contains(v[x]));
                let i = choose|i: int| 0 <= i < prev_c.len() && prev_c[i] == (v[x].0, v[x].1);
                assert(pair_lt(cand[i], cand[cand.len() - 1]));
            }
        }
    }
}

/// `verified` distributes over concatenation.
pub proof fn lemma_verified_concat(c1: Seq<(u32, u32)>, c2: Seq<(u32, u32)>, a: Seq<u8>, b: Seq<u8>, d: int, k: int)
    ensures
        verified(c1 + c2, a, b, d, k) == verified(c1, a, b, d, k) + verified(c2, a, b, d, k),
    decreases c2.len(),
{
    if c2.len() == 0 {
        assert(c1 + c2 =~= c1);
        assert(verified(c1, a, b, d, k) + verified(c2, a, b, d, k) =~= verified(c1, a, b, d, k));
    } else {
        lemma_verified_concat(c1, c2.drop_last(), a, b, d, k);
        assert((c1 + c2).drop_last() =~= c1 + c2.drop_last());
        assert((c1 + c2).last() == c2.last());
        let p = c2.last();
        let h = rows_dist(a, b, d, p.0 as int, p.1 as int);
        if h <= k {
            assert(verified(c1, a, b, d, k) + verified(c2.drop_last(), a, b, d, k).push((p.0, p.1, h as u32))
                =~= (verified(c1, a, b, d, k) + verified(c2.drop_last(), a, b, d, k)).push((p.0, p.1, h as u32)));
        }
    }
}

proof fn lemma_row_slice(len: int, d: int, i: int)
    requires
        0 <= i,
        0 <= d,
        (i + 1) * d <= len,
    ensures
        0 <= i * d,
        i * d + d <= len,
        (i + 1) * d == i * d + d,
{
    assert((i + 1) * d == i * d + d) by (nonlinear_arith);
    assert(0 <= i * d) by (nonlinear_arith)
        requires
            0 <= i,
            0 <= d,
    ;
}

/// Hamming distance of `(i, j)` if it is at most `k`, by full popcount.
pub(crate) fn verify_pair(a: &[u8], b: &[u8], d_bytes: usize, k: u32, pair: &(u32, u32)) -> (r: Option<(u32, u32, u32)>)
    requires
        8 * d_bytes <= u32::MAX,
        (pair.0 + 1) * d_bytes <= a@.len(),
        (pair.1 + 1) * d_bytes <= b@.len(),
        pair.0 < usize::MAX,
        pair.1 < usize::MAX,
    ensures
        r == (if rows_dist(a@, b@, d_bytes as int, pair.0 as int, pair.1 as int) <= k {
            Some((pair.0, pair.1, rows_dist(a@, b@, d_bytes as int, pair.0 as int, pair.1 as int) as u32))
        } else {
            None
        }),
{
    let (i, j) = *pair;
    let a_len = a.len();
    let b_len = b.len();
    proof {
        lemma_row_slice(a@.len() as int, d_bytes as int, i as int);
        lemma_row_slice(b@.len() as int, d_bytes as int, j as int);
    }
    let ra = &a[(i as usize) * d_bytes..(i as usize + 1) * d_bytes];
    let rb = &b[(j as usize) * d_bytes..(j as usize + 1) * d_bytes];
    assert(ra@ == row_of(a@, d_bytes as int, i as int));
    assert(rb@ == row_of(b@, d_bytes as int, j as int));
    let d = hamming(ra, rb);
    if d <= k {
        Some((i, j, d))
    } else {
        None
    }
}

/// Hamming distance of `(i, j)` if it is at most `k`, by early-exit
/// popcount.
pub(crate) fn verify_pair_le_k(a: &[u8], b: &[u8], d_bytes: usize, k: u32, pair: &(u32, u32)) -> (r: Option<(u32, u32, u32)>)
    requires
        8 * d_bytes <= u32::MAX,
        (pair.0 + 1) * d_bytes <= a@.len(),
        (pair.1 + 1) * d_bytes <= b@.len(),
        pair.0 < usize::MAX,
        pair.1 < usize::MAX,
    ensures
        r == (if rows_dist(a@, b@, d_bytes as int, pair.0 as int, pair.1 as int) <= k {
            Some((pair.0, pair.1, rows_dist(a@, b@, d_bytes as int, pair.0 as int, pair.1 as int) as u32))
        } else {
            None
        }),
{
    let (i, j) = *pair;
    let a_len = a.len();
    let b_len = b.len();
    proof {
        lemma_row_slice(a@.len() as int, d_bytes as int, i as int);
        lemma_row_slice(b@.len() as int, d_bytes as int, j as int);
    }
    let ra = &a[(i as usize) * d_bytes..(i as usize + 1) * d_bytes];
    let rb = &b[(j as usize) * d_bytes..(j as usize + 1) * d_bytes];
    assert(ra@ == row_of(a@, d_bytes as int, i as int));
    assert(rb@ == row_of(b@, d_bytes as int, j as int));
    match hamming_le_k(ra, rb, k) {
        Some(d) => Some((i, j, d)),
        None => None,
    }
}

/// Verify a slice of candidates with the early-exit popcount.
pub(crate) fn verify_with_prefetch(cand: &[(u32, u32)], data: &[u8], d_bytes: usize, k: u32) -> (out: Vec<(u32, u32, u32)>)
    requires
        8 * d_bytes <= u32::MAX,
        pairs_in_rows(cand@, data@.len() as int, data@.len() as int, d_bytes as int),
    ensures
        out@ == verified(cand@, data@, data@, d_bytes as int, k as int),
{
    let mut out: Vec<(u32, u32, u32)> = Vec::new();
    let n_cand = cand.len();
    let mut idx: usize = 0;
    while idx < n_cand
        invariant
            n_cand == cand@.len(),
            idx <= n_cand,
            8 * d_bytes <= u32::MAX,
            pairs_in_rows(cand@, data@.len() as int, data@.len() as int, d_bytes as int),
            out@ == verified(cand@.subrange(0, idx as int), data@, data@, d_bytes as int, k as int),
        decreases n_cand - idx,
    {
        let pair = cand[idx];
        assert(cand@[idx as int] == pair);
        assert(cand@.subrange(0, idx + 1).drop_last() =~= cand@.subrange(0, idx as int));
        if let Some(t) = verify_pair_le_k(data, data, d_bytes, k, &pair) {
            out.push(t);
        }
        idx = idx + 1;
    }
    assert(cand@.subrange(0, n_cand as int) =~= cand@);
    out
}

/// Verify a slice of candidates with the full popcount (no early exit).
pub(crate) fn verify_with_prefetch_full(cand: &[(u32, u32)], data: &[u8], d_bytes: usize, k: u32) -> (out: Vec<(u32, u32, u32)>)
    requires
        8 * d_bytes <= u32::MAX,
        pairs_in_rows(cand@, data@.len() as int, data@.len() as int, d_bytes as int),
    ensures
        out@ == verified(cand@, data@, data@, d_bytes as int, k as int),
{
    let mut out: Vec<(u32, u32, u32)> = Vec::new();
    let n_cand = cand.len();
    let mut idx: usize = 0;
    while idx < n_cand
        invariant
            n_cand == cand@.len(),
            idx <= n_cand,
            8 * d_bytes <= u32::MAX,
            pairs_in_rows(cand@, data@.len() as int, data@.len() as int, d_bytes as int),
            out@ == verified(cand@.subrange(0, idx as int), data@, data@, d_bytes as int, k as int),
        decreases n_cand - idx,
    {
        let pair = cand[idx];
        assert(cand@[idx as int] == pair);
        assert(cand@.subrange(0, idx + 1).drop_last() =~= cand@.subrange(0, idx as int));
        if let Some(t) = verify_pair(data, data, d_bytes, k, &pair) {
            out.push(t);
        }
        idx = idx + 1;
    }
    assert(cand@.subrange(0, n_cand as int) =~= cand@);
    out
}

/// Drop the repeats of an ascending list of pairs (the adjacent duplicates
/// that `Vec::dedup` removes), leaving a strictly increasing list with the
/// same members.
pub(crate) fn dedup_sorted_pairs(v: &Vec<(u32, u32)>) -> (r: Vec<(u32, u32)>)
    requires
        sorted_pairs(v@),
    ensures
        strictly_sorted_pairs(r@),
        forall|x: (u32, u32)| r@.contains(x) <==> v@.contains(x),
{
    let mut r: Vec<(u32, u32)> = Vec::new();
    let len = v.len();
    let mut i: usize = 0;
    while i < len
        invariant
            len == v@.len(),
            i <= len,
            sorted_pairs(v@),
            strictly_sorted_pairs(r@),
            i > 0 ==> r@.len() > 0 && r@[r@.len() - 1] == v@[i - 1],
            i == 0 ==> r@.len() == 0,
            forall|x: (u32, u32)| r@.contains(x) <==> v@.subrange(0, i as int).contains(x),
        decreases len - i,
    {
        let x = v[i];
        let ghost before = r@;
        let keep = if r.len() == 0 {
            true
        } else {
            let last = r[r.len() - 1];
            !(last.0 == x.0 && last.1 == x.1)
        };
        if keep {
            r.push(x);
            proof {
                if i > 0 {
                    assert(pair_le(v@[i - 1], v@[i as int]));
                }
                assert forall|a: int, b: int| 0 <= a < b < r@.len() implies pair_lt(
                    #[trigger] r@[a],
                    #[trigger] r@[b],
                ) by {
                    if b == r@.len() - 1 && a < b {
                        if a < before.len() - 1 {
                            assert(pair_lt(before[a], before[before.len() - 1]));
                        }
                    }
                }
            }
        }
        proof {
            assert(v@.subrange(0, i + 1) =~= v@.subrange(0, i as int).push(x));
            assert forall|y: (u32, u32)| r@.contains(y) <==> v@.subrange(0, i + 1).contains(y) by {
                if r@.contains(y) {
                    let a = choose|a: int| 0 <= a < r@.len() && r@[a] == y;
                    if a < before.len() {
                        assert(before.contains(y));
                        let b = choose|b: int| 0 <= b < i && #[trigger] v@.subrange(0, i as int)[b] == y;
                        assert(v@.subrange(0, i + 1)[b] == y);
                    } else {
                        assert(v@.subrange(0, i + 1)[i as int] == y);
                    }
                }
                if v@.subrange(0, i + 1).contains(y) {
                    let b = choose|b: int| 0 <= b < i + 1 && #[trigger] v@.subrange(0, i + 1)[b] == y;
                    if b < i {
                        assert(v@.subrange(0, i as int)[b] == y);
                        assert(before.contains(y));
                        let a = choose|a: int| 0 <= a < before.len() && before[a] == y;
                        assert(r@[a] == y);
                    } else if keep {
                        assert(r@[r@.len() - 1] == y);
                    } else {
                        assert(before[before.len() - 1] == y);
                    }
                }
            }
        }
        i = i + 1;
    }
    assert(v@.subrange(0, len as int) =~= v@);
    r
}

/// Drop the repeats of an ascending list of triples (the adjacent
/// duplicates that `Vec::dedup` removes), leaving a strictly increasing list
/// with the same members.
pub(crate) fn dedup_sorted_triples(v: &Vec<(u32, u32, u32)>) -> (r: Vec<(u32, u32, u32)>)
    requires
        sorted_triples(v@),
    ensures
        strictly_sorted_triples(r@),
        forall|x: (u32, u32, u32)| r@.contains(x) <==> v@.contains(x),
{
    let mut r: Vec<(u32, u32, u32)> = Vec::new();
    let len = v.len();
    let mut i: usize = 0;
    while i < len
        invariant
            len == v@.len(),
            i <= len,
            sorted_triples(v@),
            strictly_sorted_triples(r@),
            i > 0 ==> r@.len() > 0 && r@[r@.len() - 1] == v@[i - 1],
            i == 0 ==> r@.len() == 0,
            forall|x: (u32, u32, u32)| r@.contains(x) <==> v@.subrange(0, i as int).contains(x),
        decreases len - i,
    {
        let x = v[i];
        let ghost before = r@;
        let keep = if r.len() == 0 {
            true
        } else {
            let last = r[r.len() - 1];
            !(last.0 == x.0 && last.1 == x.1 && last.2 == x.2)
        };
        if keep {
            r.push(x);
            proof {
                if i > 0 {
                    assert(triple_le(v@[i - 1], v@[i as int]));
                }
                assert forall|a: int, b: int| 0 <= a < b < r@.len() implies triple_lt(
                    #[trigger] r@[a],
                    #[trigger] r@[b],
                ) by {
                    if b == r@.len() - 1 && a < b {
                        if a < before.len() - 1 {
                            assert(triple_lt(before[a], before[before.len() - 1]));
                        }
                    }
                }
            }
        }
        proof {
            assert(v@.subrange(0, i + 1) =~= v@.subrange(0, i as int).push(x));
            assert forall|y: (u32, u32, u32)| r@.contains(y) <==> v@.subrange(0, i + 1).contains(y) by {
                if r@.contains(y) {
                    let a = choose|a: int| 0 <= a < r@.len() && r@[a] == y;
                    if a < before.len() {
                        assert(before.contains(y));
                        let b = choose|b: int| 0 <= b < i && #[trigger] v@.subrange(0, i as int)[b] == y;
                        assert(v@.subrange(0, i + 1)[b] == y);
                    } else {
                        assert(v@.subrange(0, i + 1)[i as int] == y);
                    }
                }
                if v@.subrange(0, i + 1).contains(y) {
                    let b = choose|b: int| 0 <= b < i + 1 && #[trigger] v@.subrange(0, i + 1)[b] == y;
                    if b < i {
                        assert(v@.subrange(0, i as int)[b] == y);
                        assert(before.contains(y));
                        let a = choose|a: int| 0 <= a < before.len() && before[a] == y;
                        assert(r@[a] == y);
                    } else if keep {
                        assert(r@[r@.len() - 1] == y);
                    } else {
                        assert(before[before.len() - 1] == y);
                    }
                }
            }
        }
        i = i + 1;
    }
    assert(v@.subrange(0, len as int) =~= v@);
    r
}

} // verus!
