//! Popcount of the XOR of two rows, with and without early exit.

use vstd::prelude::*;

use crate::bitspec::{
    hamming_distance, xor_popcount_prefix, lemma_xor_popcount_prefix_mono,
    lemma_hamming_is_popcount_sum,
};
use crate::outside::byte_count_ones;

verus! {

/// Popcount the XOR of two equal-length byte slices: their Hamming distance.
pub fn hamming(a: &[u8], b: &[u8]) -> (r: u32)
    requires
        a@.len() == b@.len(),
        8 * a@.len() <= u32::MAX,
    ensures
        r == hamming_distance(a@, b@),
{
    let n = a.len();
    let mut acc: u32 = 0;
    let mut i: usize = 0;
    while i < n
        invariant
            n == a@.len(),
            n == b@.len(),
            8 * n <= u32::MAX,
            i <= n,
            acc == xor_popcount_prefix(a@, b@, i as int),
        decreases n - i,
    {
        proof {
            lemma_xor_popcount_prefix_mono(a@, b@, i as int, i + 1);
            lemma_xor_popcount_prefix_mono(a@, b@, 0, i as int);
        }
        acc = acc + byte_count_ones(a[i] ^ b[i]);
        i = i + 1;
    }
    proof {
        lemma_hamming_is_popcount_sum(a@, b@);
    }
    acc
}

/// Like `hamming` but bails out as soon as the running popcount exceeds `k`.
/// Returns `Some(d)` if `hamming(a, b) = d <= k`, else `None`.
pub fn hamming_le_k(a: &[u8], b: &[u8], k: u32) -> (r: Option<u32>)
    requires
        a@.len() == b@.len(),
        8 * a@.len() <= u32::MAX,
    ensures
        hamming_distance(a@, b@) <= k ==> r == Some(hamming_distance(a@, b@) as u32),
        hamming_distance(a@, b@) > k ==> r.is_none(),
{
    let n = a.len();
    let mut acc: u32 = 0;
    let mut i: usize = 0;
    while i < n
        invariant
            n == a@.len(),
            n == b@.len(),
            8 * n <= u32::MAX,
            i <= n,
            acc == xor_popcount_prefix(a@, b@, i as int),
            acc <= k,
        decreases n - i,
    {
        proof {
            lemma_xor_popcount_prefix_mono(a@, b@, i as int, i + 1);
            lemma_xor_popcount_prefix_mono(a@, b@, 0, i as int);
        }
        acc = acc + byte_count_ones(a[i] ^ b[i]);
        i = i + 1;
        if acc > k {
            proof {
                lemma_xor_popcount_prefix_mono(a@, b@, i as int, n as int);
                lemma_hamming_is_popcount_sum(a@, b@);
            }
            return None;
        }
    }
    proof {
        lemma_hamming_is_popcount_sum(a@, b@);
    }
    Some(acc)
}

} // verus!
