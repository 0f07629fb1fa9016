use std::collections::{BTreeSet, HashSet};

use hammingbird::{
    chunk_bit_boundaries, chunk_boundaries, extract_bits, find_pairs_cross, find_pairs_cross_bit,
    find_pairs_qgram_self, find_pairs_self, find_pairs_self_bit, find_pairs_self_no_dedup,
    find_pairs_self_no_dedup_par_prefetch, find_pairs_self_par, find_pairs_self_par_prefetch,
    find_pairs_self_planned, find_pairs_self_radix, find_pairs_self_st, hamming, hamming_le_k, Index,
};

fn deterministic_random(n: usize, d_bytes: usize, seed: u64) -> Vec<u8> {
    let mut data = vec![0u8; n * d_bytes];
    let mut s = seed;
    for byte in data.iter_mut() {
        // xorshift64*
        s ^= s << 13;
        s ^= s >> 7;
        s ^= s << 17;
        *byte = (s.wrapping_mul(2685821657736338717) >> 56) as u8;
    }
    data
}

fn pair_set(v: &[(u32, u32, u32)]) -> BTreeSet<(u32, u32, u32)> {
    v.iter().copied().collect()
}

#[test]
fn boundaries_match_python_linspace_truncate() {
    assert_eq!(chunk_boundaries(32, 3), vec![(0, 10), (10, 21), (21, 32)]);
    assert_eq!(chunk_boundaries(32, 2), vec![(0, 16), (16, 32)]);
    assert_eq!(chunk_boundaries(16, 4), vec![(0, 4), (4, 8), (8, 12), (12, 16)]);
}

#[test]
fn hamming_le_k_matches_full() {
    let n = 100;
    let d_bytes = 32;
    for seed in [1u64, 2, 3, 4, 5] {
        let data = deterministic_random(n, d_bytes, 0xE0E0 ^ seed);
        for i in 0..(n - 1) {
            for j in (i + 1)..n {
                let ra = &data[i * d_bytes..(i + 1) * d_bytes];
                let rb = &data[j * d_bytes..(j + 1) * d_bytes];
                let d_full = hamming(ra, rb);
                for k in [0u32, 2, 8, 16, 64, 128, 256] {
                    let r = hamming_le_k(ra, rb, k);
                    if d_full <= k {
                        assert_eq!(r, Some(d_full));
                    } else {
                        assert_eq!(r, None);
                    }
                }
            }
        }
    }
}

#[test]
fn hamming_basic() {
    assert_eq!(hamming(&[0u8; 32], &[0u8; 32]), 0);
    assert_eq!(hamming(&[0xFFu8; 32], &[0u8; 32]), 256);
    let a = [0b1010_1010u8; 32];
    let b = [0b0101_0101u8; 32];
    assert_eq!(hamming(&a, &b), 256);
}

#[test]
fn finds_identical_pairs() {
    let mut data = vec![0u8; 4 * 32];
    for i in 0..32 {
        data[0 * 32 + i] = (i as u8).wrapping_mul(17);
        data[1 * 32 + i] = (i as u8).wrapping_mul(31).wrapping_add(7);
        data[2 * 32 + i] = (i as u8).wrapping_mul(17);
        data[3 * 32 + i] = (i as u8).wrapping_mul(53).wrapping_add(99);
    }
    let pairs = find_pairs_self(&data, 4, 32, 2);
    assert_eq!(pairs, vec![(0, 2, 0)]);
    let pairs_st = find_pairs_self_st(&data, 4, 32, 2);
    assert_eq!(pairs_st, vec![(0, 2, 0)]);
}

#[test]
fn one_bit_flip_found() {
    let mut data = vec![0u8; 3 * 32];
    for i in 0..32 {
        data[0 * 32 + i] = (i as u8).wrapping_mul(17);
        data[1 * 32 + i] = (i as u8).wrapping_mul(17);
    }
    data[1 * 32 + 5] ^= 0b0000_0001;
    let pairs = find_pairs_self(&data, 3, 32, 2);
    assert_eq!(pairs, vec![(0, 1, 1)]);
}

#[test]
fn parallel_matches_st() {
    let n = 500usize;
    let d_bytes = 32usize;
    let mut data = vec![0u8; n * d_bytes];
    for i in 0..(n * d_bytes) {
        data[i] = ((i as u64).wrapping_mul(2862933555777941757).wrapping_add(3037000493) >> 32) as u8;
    }
    // Inject a few near-duplicates.
    for r in 1..5 {
        let src = (r * 97) % n;
        let dst = (r * 199) % n;
        if src != dst {
            let (a, b) = data.split_at_mut(dst.max(src) * d_bytes);
            let (lo_row, hi_row) = if src < dst {
                (&a[src * d_bytes..(src + 1) * d_bytes], &mut b[..d_bytes])
            } else {
                (&b[..d_bytes], &mut a[dst * d_bytes..(dst + 1) * d_bytes])
            };
            hi_row.copy_from_slice(lo_row);
        }
    }
    let mut a = find_pairs_self_st(&data, n, d_bytes, 2);
    let mut b = find_pairs_self_par(&data, n, d_bytes, 2);
    let mut c = find_pairs_self_par_prefetch(&data, n, d_bytes, 2);
    a.sort_unstable();
    b.sort_unstable();
    c.sort_unstable();
    assert_eq!(a, b);
    assert_eq!(a, c);
}

#[test]
fn qgram_matches_chunk_k8_q12() {
    let n = 200;
    let d_bytes = 32;
    let data = deterministic_random(n, d_bytes, 0xDEADBEEF);
    let a = pair_set(&find_pairs_self_st(&data, n, d_bytes, 8));
    let b = pair_set(&find_pairs_qgram_self(&data, n, d_bytes, 8, 12));
    assert_eq!(a, b, "qgram differs from chunk at k=8 q=12");
}

#[test]
fn qgram_matches_chunk_k2_q16() {
    let n = 200;
    let d_bytes = 32;
    let mut data = deterministic_random(n, d_bytes, 0xCAFE);
    for r in 1..6 {
        let src = (r * 31) % n;
        let dst = (r * 71) % n;
        if src != dst {
            let (lo_r, hi_r) = if src < dst { (src, dst) } else { (dst, src) };
            let (left, right) = data.split_at_mut(hi_r * d_bytes);
            let src_row = &left[lo_r * d_bytes..(lo_r + 1) * d_bytes].to_vec();
            right[..d_bytes].copy_from_slice(src_row);
            // flip one bit
            right[3] ^= 0b0000_0010;
        }
    }
    let a = pair_set(&find_pairs_self_st(&data, n, d_bytes, 2));
    let b = pair_set(&find_pairs_qgram_self(&data, n, d_bytes, 2, 16));
    assert_eq!(a, b, "qgram differs from chunk at k=2 q=16");
}

#[test]
fn radix_matches_chunk_k2() {
    let n = 200;
    let d_bytes = 32;
    let data = deterministic_random(n, d_bytes, 0xAA01);
    let a = pair_set(&find_pairs_self_st(&data, n, d_bytes, 2));
    let b = pair_set(&find_pairs_self_radix(&data, n, d_bytes, 2));
    assert_eq!(a, b);
}

#[test]
fn radix_matches_chunk_k4() {
    let n = 200;
    let d_bytes = 32;
    let data = deterministic_random(n, d_bytes, 0xAA02);
    let a = pair_set(&find_pairs_self_st(&data, n, d_bytes, 4));
    let b = pair_set(&find_pairs_self_radix(&data, n, d_bytes, 4));
    assert_eq!(a, b);
}

#[test]
fn radix_matches_chunk_k16() {
    let n = 200;
    let d_bytes = 32;
    let data = deterministic_random(n, d_bytes, 0xAA03);
    let a = pair_set(&find_pairs_self_st(&data, n, d_bytes, 16));
    let b = pair_set(&find_pairs_self_radix(&data, n, d_bytes, 16));
    assert_eq!(a, b);
}

#[test]
fn no_dedup_matches_chunk_k2() {
    let n = 200;
    let d_bytes = 32;
    let data = deterministic_random(n, d_bytes, 0xBB01);
    let a = pair_set(&find_pairs_self_st(&data, n, d_bytes, 2));
    let b = pair_set(&find_pairs_self_no_dedup(&data, n, d_bytes, 2));
    assert_eq!(a, b);
}

#[test]
fn no_dedup_matches_chunk_k4() {
    let n = 200;
    let d_bytes = 32;
    let data = deterministic_random(n, d_bytes, 0xBB02);
    let a = pair_set(&find_pairs_self_st(&data, n, d_bytes, 4));
    let b = pair_set(&find_pairs_self_no_dedup(&data, n, d_bytes, 4));
    assert_eq!(a, b);
}

#[test]
fn no_dedup_matches_chunk_k16() {
    let n = 200;
    let d_bytes = 32;
    let data = deterministic_random(n, d_bytes, 0xBB03);
    let a = pair_set(&find_pairs_self_st(&data, n, d_bytes, 16));
    let b = pair_set(&find_pairs_self_no_dedup(&data, n, d_bytes, 16));
    assert_eq!(a, b);
}

#[test]
fn no_dedup_par_matches_chunk_k2() {
    let n = 200;
    let d_bytes = 32;
    let data = deterministic_random(n, d_bytes, 0xBB11);
    let a = pair_set(&find_pairs_self_st(&data, n, d_bytes, 2));
    let b = pair_set(&find_pairs_self_no_dedup_par_prefetch(&data, n, d_bytes, 2));
    assert_eq!(a, b);
}

#[test]
fn no_dedup_par_matches_chunk_k8() {
    let n = 200;
    let d_bytes = 32;
    let data = deterministic_random(n, d_bytes, 0xBB12);
    let a = pair_set(&find_pairs_self_st(&data, n, d_bytes, 8));
    let b = pair_set(&find_pairs_self_no_dedup_par_prefetch(&data, n, d_bytes, 8));
    assert_eq!(a, b);
}

#[test]
fn no_dedup_par_matches_chunk_k16() {
    let n = 200;
    let d_bytes = 32;
    let data = deterministic_random(n, d_bytes, 0xBB13);
    let a = pair_set(&find_pairs_self_st(&data, n, d_bytes, 16));
    let b = pair_set(&find_pairs_self_no_dedup_par_prefetch(&data, n, d_bytes, 16));
    assert_eq!(a, b);
}

#[test]
fn cross_matches_brute_force() {
    let n_a = 50;
    let n_b = 60;
    let d_bytes = 32;
    let a_data = deterministic_random(n_a, d_bytes, 0xC101);
    let mut b_data = deterministic_random(n_b, d_bytes, 0xC102);
    // Plant ~5 near-duplicates of A[0..5] into B[0..5] (1 bit flip each).
    for r in 0..5 {
        let src = &a_data[r * d_bytes..(r + 1) * d_bytes].to_vec();
        b_data[r * d_bytes..(r + 1) * d_bytes].copy_from_slice(src);
        b_data[r * d_bytes + (r % d_bytes)] ^= 1 << (r % 8);
    }
    // Brute force reference at k=2.
    let mut expected: Vec<(u32, u32, u32)> = Vec::new();
    for i in 0..n_a {
        for j in 0..n_b {
            let ra = &a_data[i * d_bytes..(i + 1) * d_bytes];
            let rb = &b_data[j * d_bytes..(j + 1) * d_bytes];
            let d = hamming(ra, rb);
            if d <= 2 {
                expected.push((i as u32, j as u32, d));
            }
        }
    }
    let mut got = find_pairs_cross(&a_data, n_a, &b_data, n_b, d_bytes, 2);
    got.sort_unstable();
    expected.sort_unstable();
    assert_eq!(got, expected);
}

#[test]
fn bit_boundaries_basic() {
    // d_bits=64, k+1=3 chunks: should be [0,21) [21,42) [42,64)
    assert_eq!(chunk_bit_boundaries(64, 3), vec![(0, 21), (21, 42), (42, 64)]);
    assert_eq!(chunk_bit_boundaries(256, 4), vec![(0, 64), (64, 128), (128, 192), (192, 256)]);
    // d_bits=64, 9 chunks (e.g. k=8).
    let c = chunk_bit_boundaries(64, 9);
    assert_eq!(c.len(), 9);
    assert_eq!(c[0].0, 0);
    assert_eq!(c[8].1, 64);
    // disjoint, contiguous, total = d_bits.
    let total: usize = c.iter().map(|(lo, hi)| hi - lo).sum();
    assert_eq!(total, 64);
}

#[test]
fn extract_bits_known() {
    let row = [0b1111_0000u8, 0b0000_1111u8];
    assert_eq!(extract_bits(&row, 4, 12), 0);
    assert_eq!(extract_bits(&row, 0, 4), 0x0F);
    assert_eq!(extract_bits(&row, 12, 16), 0x0F);
    assert_eq!(extract_bits(&row, 4, 4), 0);
    assert_eq!(extract_bits(&row, 6, 10), 0);
    let row2 = [0xABu8, 0xCDu8];
    assert_eq!(extract_bits(&row2, 0, 8), 0xAB);
    assert_eq!(extract_bits(&row2, 8, 16), 0xCD);
    assert_eq!(extract_bits(&row2, 0, 16), 0xCDAB);
    let row_a = [0xFFu8, 0x00u8];
    let row_b = [0xFFu8, 0xFFu8];
    assert_eq!(extract_bits(&row_a, 0, 8), extract_bits(&row_b, 0, 8));
    assert_ne!(extract_bits(&row_a, 0, 16), extract_bits(&row_b, 0, 16));
}

#[test]
fn bit_matches_byte_for_supported() {
    let n = 200;
    let d_bytes = 32;
    for &kk in &[2u32, 4, 8] {
        let data = deterministic_random(n, d_bytes, 0xB17 ^ (kk as u64));
        let a = pair_set(&find_pairs_self_st(&data, n, d_bytes, kk));
        let b = pair_set(&find_pairs_self_bit(&data, n, d_bytes, kk));
        assert_eq!(a, b, "bit vs byte mismatch at k={}", kk);
    }
}

#[test]
fn bit_path_wide_d_no_panic() {
    let n = 100;
    for &d_bytes in &[64usize, 128] {
        for &k in &[0u32, 2, 4, 8] {
            let mut data = deterministic_random(n, d_bytes, 0xD512 + k as u64);
            // Plant 2 exact-duplicate pairs
            let src_row = data[0..d_bytes].to_vec();
            data[1 * d_bytes..2 * d_bytes].copy_from_slice(&src_row);
            let src_row = data[10 * d_bytes..11 * d_bytes].to_vec();
            data[11 * d_bytes..12 * d_bytes].copy_from_slice(&src_row);

            let from_st = pair_set(&find_pairs_self_st(&data, n, d_bytes, k));
            let from_bit = pair_set(&find_pairs_self_bit(&data, n, d_bytes, k));
            assert_eq!(
                from_st, from_bit,
                "wide-d bit path disagrees with byte at d_bytes={}, k={}",
                d_bytes, k
            );

            let mut idx = Index::new(d_bytes, k);
            idx.add_batch(&data);
            let q = data[0..d_bytes].to_vec();
            let _hits = idx.query(&q);
        }
    }
}

#[test]
fn k_zero_no_panic_and_finds_exact_dupes() {
    let n = 50;
    let d_bytes = 32;
    let mut data = deterministic_random(n, d_bytes, 0xDEADBEEF);
    for r in 0..3 {
        let src_row = data[r * 2 * d_bytes..(r * 2 + 1) * d_bytes].to_vec();
        data[(r * 2 + 1) * d_bytes..(r * 2 + 2) * d_bytes].copy_from_slice(&src_row);
    }

    let from_st = pair_set(&find_pairs_self_st(&data, n, d_bytes, 0));
    let from_bit = pair_set(&find_pairs_self_bit(&data, n, d_bytes, 0));
    // At k = 0 the adaptive search plans nothing and takes the bit path.
    let from_adaptive = pair_set(&find_pairs_self_planned(&data, n, d_bytes, 0, &Vec::new()));
    assert_eq!(from_st, from_bit, "k=0: bit path disagrees with byte path");
    assert_eq!(from_st, from_adaptive, "k=0: adaptive path disagrees with byte path");
    assert!(from_st.len() >= 3, "should find at least the 3 planted dupes");

    let mut idx = Index::new(d_bytes, 0);
    idx.add_batch(&data);
    let q = data[0..d_bytes].to_vec();
    let hits = idx.query(&q);
    assert!(hits.iter().any(|(id, d)| *id == 0 && *d == 0));
    assert!(hits.iter().any(|(id, d)| *id == 1 && *d == 0));
}

#[test]
fn cross_bit_finds_phash_regime_pairs_byte_misses() {
    let n_a = 30usize;
    let n_b = 30usize;
    let d_bytes = 8;
    let a = deterministic_random(n_a, d_bytes, 0xA0A0);
    let mut b = deterministic_random(n_b, d_bytes, 0xB0B0);
    for i in 0..5 {
        let src = a[i * d_bytes..(i + 1) * d_bytes].to_vec();
        b[i * d_bytes..(i + 1) * d_bytes].copy_from_slice(&src);
        for byte in 0..d_bytes {
            b[i * d_bytes + byte] ^= 1u8 << (byte % 8);
        }
    }
    let mut truth: HashSet<(u32, u32)> = HashSet::new();
    for i in 0..n_a {
        for j in 0..n_b {
            let ra = &a[i * d_bytes..(i + 1) * d_bytes];
            let rb = &b[j * d_bytes..(j + 1) * d_bytes];
            if hamming(ra, rb) <= 8 {
                truth.insert((i as u32, j as u32));
            }
        }
    }
    let from_bit: HashSet<(u32, u32)> = find_pairs_cross_bit(&a, n_a, &b, n_b, d_bytes, 8)
        .into_iter()
        .map(|(i, j, _)| (i, j))
        .collect();
    assert_eq!(from_bit, truth, "cross_bit must match brute force at k=d_bytes");
    assert!(from_bit.len() >= 5, "should find at least the 5 planted pairs");
}

#[test]
fn bit_finds_phash_regime_pairs_byte_misses() {
    let n = 200;
    let d_bytes = 8;
    let mut data = deterministic_random(n, d_bytes, 0xCAFEFACE);
    for r in 0..10 {
        let src = r * 2;
        let dst = r * 2 + 1;
        let src_row = data[src * d_bytes..(src + 1) * d_bytes].to_vec();
        data[dst * d_bytes..(dst + 1) * d_bytes].copy_from_slice(&src_row);
        for b in 0..d_bytes {
            data[dst * d_bytes + b] ^= 1u8 << (b % 8);
        }
    }
    let mut expected: Vec<(u32, u32, u32)> = Vec::new();
    for i in 0..n {
        for j in (i + 1)..n {
            let ra = &data[i * d_bytes..(i + 1) * d_bytes];
            let rb = &data[j * d_bytes..(j + 1) * d_bytes];
            let d = hamming(ra, rb);
            if d <= 8 {
                expected.push((i as u32, j as u32, d));
            }
        }
    }
    let expected_set: BTreeSet<_> = expected.iter().copied().collect();
    let bit_pairs = pair_set(&find_pairs_self_bit(&data, n, d_bytes, 8));
    assert_eq!(bit_pairs, expected_set, "bit-level missed pairs in pHash regime");
    let byte_pairs = pair_set(&find_pairs_self_no_dedup_par_prefetch(&data, n, d_bytes, 8));
    assert!(byte_pairs.is_subset(&bit_pairs));
    assert_ne!(bit_pairs, byte_pairs, "expected byte-level to miss at least one planted pair");
}

#[test]
fn index_basic_near_dup_recall() {
    let n = 100usize;
    let d_bytes = 32usize;
    let data = deterministic_random(n, d_bytes, 0xDEADBEEF);
    let mut idx = Index::new(d_bytes, 2);
    for i in 0..n {
        let id = idx.add(&data[i * d_bytes..(i + 1) * d_bytes]);
        assert_eq!(id as usize, i);
    }
    assert_eq!(idx.len(), n);
    let mut near = vec![0u8; 50 * d_bytes];
    for i in 0..50 {
        let src = &data[i * d_bytes..(i + 1) * d_bytes];
        near[i * d_bytes..(i + 1) * d_bytes].copy_from_slice(src);
        near[i * d_bytes + (i % d_bytes)] ^= 1 << (i % 8);
    }
    for i in 0..50 {
        let q = &near[i * d_bytes..(i + 1) * d_bytes];
        let hits = idx.query(q);
        let found = hits.iter().any(|&(id, _)| id as usize == i);
        assert!(found, "near-dup {} did not find original", i);
    }
}

#[test]
fn index_matches_find_pairs_self_bit() {
    let n = 150usize;
    let d_bytes = 32usize;
    let mut data = deterministic_random(n, d_bytes, 0x1234_5678_9ABC_DEF0);
    for r in 1..6 {
        let src = (r * 13) % n;
        let dst = (r * 41) % n;
        if src != dst {
            let (lo_r, hi_r) = if src < dst { (src, dst) } else { (dst, src) };
            let (left, right) = data.split_at_mut(hi_r * d_bytes);
            let src_row = left[lo_r * d_bytes..(lo_r + 1) * d_bytes].to_vec();
            right[..d_bytes].copy_from_slice(&src_row);
            right[r] ^= 1 << (r % 8);
        }
    }
    let mut idx = Index::new(d_bytes, 2);
    idx.add_batch(&data);
    let mut from_idx: BTreeSet<(u32, u32, u32)> = BTreeSet::new();
    for i in 0..n {
        let row = &data[i * d_bytes..(i + 1) * d_bytes];
        for (j, d) in idx.query(row) {
            if (j as usize) == i {
                continue;
            }
            let (a, b) = if (i as u32) < j { (i as u32, j) } else { (j, i as u32) };
            from_idx.insert((a, b, d));
        }
    }
    let from_bit: BTreeSet<_> = find_pairs_self_bit(&data, n, d_bytes, 2).into_iter().collect();
    assert_eq!(from_idx, from_bit);
}

#[test]
fn index_add_batch_empty_returns_none() {
    let d_bytes = 8usize;
    let mut idx = Index::new(d_bytes, 2);
    assert_eq!(idx.add_batch(&[]), None);
    assert_eq!(idx.len(), 0);
    let one_row = vec![0xAAu8; d_bytes];
    assert_eq!(idx.add_batch(&one_row), Some(0));
    assert_eq!(idx.len(), 1);
    assert_eq!(idx.add_batch(&[]), None);
    assert_eq!(idx.len(), 1);
}

#[test]
fn index_query_batch_matches_per_row_query() {
    let n = 60usize;
    let d_bytes = 16usize;
    let data = deterministic_random(n, d_bytes, 0xB070);
    let mut idx = Index::new(d_bytes, 3);
    idx.add_batch(&data);
    let mut queries: Vec<u8> = Vec::new();
    queries.extend_from_slice(&data[..20 * d_bytes]);
    queries.extend_from_slice(&deterministic_random(20, d_bytes, 0xB071));
    let per_row: Vec<Vec<(u32, u32)>> = (0..40)
        .map(|i| idx.query(&queries[i * d_bytes..(i + 1) * d_bytes]))
        .collect();
    let batched = idx.query_batch(&queries);
    assert_eq!(per_row, batched);
    assert!(idx.query_batch(&[]).is_empty());
}

#[test]
fn index_add_batch_consistent() {
    let n = 80usize;
    let d_bytes = 16usize;
    let data = deterministic_random(n, d_bytes, 0xBA77E);
    let mut a = Index::new(d_bytes, 4);
    let mut b = Index::new(d_bytes, 4);
    for i in 0..n {
        a.add(&data[i * d_bytes..(i + 1) * d_bytes]);
    }
    b.add_batch(&data);
    assert_eq!(a.len(), b.len());
    let q = &data[3 * d_bytes..4 * d_bytes];
    assert_eq!(a.query(q), b.query(q));
}

#[test]
fn qgram_matches_chunk_k16_q12() {
    let n = 200;
    let d_bytes = 32;
    let data = deterministic_random(n, d_bytes, 0xF00D);
    let a = pair_set(&find_pairs_self_st(&data, n, d_bytes, 16));
    let b = pair_set(&find_pairs_qgram_self(&data, n, d_bytes, 16, 12));
    assert_eq!(a, b, "qgram differs from chunk at k=16 q=12");
}
