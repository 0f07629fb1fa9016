use std::collections::BTreeSet;

use hammingbird::bitsearch::positions_disjoint;
use hammingbird::sampling::{sample_bit_counts, sample_rows_fit};
use hammingbird::{
    bit_chunks_for, chunk_boundaries, extract_bits_at, find_pairs_cross, find_pairs_cross_bit,
    find_pairs_qgram_self, find_pairs_self, find_pairs_self_bit, find_pairs_self_no_dedup_par,
    find_pairs_self_no_dedup_par_prefetch_full, find_pairs_self_planned, find_pairs_self_radix,
    find_pairs_self_st, hamming, hamming_le_k, is_supported, is_supported_bit, try_find_pairs_self,
    Index, UnsupportedRegime,
};

fn noise(n: usize, d_bytes: usize, seed: u64) -> Vec<u8> {
    let mut data = vec![0u8; n * d_bytes];
    let mut s = seed;
    for byte in data.iter_mut() {
        s ^= s << 13;
        s ^= s >> 7;
        s ^= s << 17;
        *byte = (s.wrapping_mul(2685821657736338717) >> 56) as u8;
    }
    data
}

fn brute_force_self(data: &[u8], n: usize, d_bytes: usize, k: u32) -> Vec<(u32, u32, u32)> {
    let mut out = Vec::new();
    for i in 0..n {
        for j in (i + 1)..n {
            let d = hamming(&data[i * d_bytes..(i + 1) * d_bytes], &data[j * d_bytes..(j + 1) * d_bytes]);
            if d <= k {
                out.push((i as u32, j as u32, d));
            }
        }
    }
    out
}

/// A corpus with planted near-duplicates at known distances.
fn planted(n: usize, d_bytes: usize, seed: u64) -> Vec<u8> {
    let mut data = noise(n, d_bytes, seed);
    for r in 0..(n / 4) {
        let src = data[(2 * r) * d_bytes..(2 * r + 1) * d_bytes].to_vec();
        data[(2 * r + 1) * d_bytes..(2 * r + 2) * d_bytes].copy_from_slice(&src);
        for f in 0..(r % 4) {
            data[(2 * r + 1) * d_bytes + f] ^= 1 << (f % 8);
        }
    }
    data
}

#[test]
fn try_find_pairs_self_unsupported_regime_is_an_error() {
    let data = noise(10, 8, 1);
    let r = try_find_pairs_self(&data, 10, 8, 8);
    assert_eq!(r, Err(UnsupportedRegime { k: 8, d_bytes: 8 }));
    let r = try_find_pairs_self(&data, 10, 8, 40);
    assert_eq!(r, Err(UnsupportedRegime { k: 40, d_bytes: 8 }));
}

#[test]
fn try_find_pairs_self_supported_regime_matches_find_pairs_self() {
    let data = planted(40, 16, 7);
    let r = try_find_pairs_self(&data, 40, 16, 3).unwrap();
    assert_eq!(r, find_pairs_self(&data, 40, 16, 3));
    assert_eq!(r, brute_force_self(&data, 40, 16, 3));
}

#[test]
fn unsupported_regime_message_names_the_regime() {
    let e = UnsupportedRegime { k: 9, d_bytes: 8 };
    let m = e.message();
    assert!(m.starts_with("hammingbird: byte-aligned chunk pigeonhole requires k < d_bytes"));
    assert!(m.contains("got k=9, d_bytes=8"));
}

#[test]
fn unsupported_regime_message_is_the_full_text() {
    let e = UnsupportedRegime { k: 8, d_bytes: 8 };
    assert_eq!(
        e.message(),
        "hammingbird: byte-aligned chunk pigeonhole requires k < d_bytes (got k=8, d_bytes=8). \
         For this regime use FAISS IndexBinaryFlat or wait for bit-level chunks in a later release."
    );
    let e = UnsupportedRegime { k: 1024, d_bytes: 10 };
    assert!(e.message().contains("(got k=1024, d_bytes=10)."));
    let e = UnsupportedRegime { k: 0, d_bytes: 0 };
    assert!(e.message().contains("(got k=0, d_bytes=0)."));
}

#[test]
fn supported_regimes() {
    assert!(is_supported(7, 8));
    assert!(!is_supported(8, 8));
    assert!(is_supported_bit(63, 8));
    assert!(!is_supported_bit(64, 8));
}

#[test]
fn chunk_boundaries_drop_empty_chunks() {
    // Edges 0, 0, 1, 1, 2: the empty ranges are dropped.
    assert_eq!(chunk_boundaries(2, 4), vec![(0, 1), (1, 2)]);
    assert_eq!(chunk_boundaries(0, 3), vec![]);
    assert_eq!(chunk_boundaries(5, 1), vec![(0, 5)]);
}

#[test]
fn bit_chunks_for_layouts() {
    assert_eq!(bit_chunks_for(64, 2), vec![(0, 21), (21, 42), (42, 64)]);
    // Wide rows: enough chunks that each key fits 128 bits.
    assert_eq!(bit_chunks_for(512, 2), vec![(0, 128), (128, 256), (256, 384), (384, 512)]);
    // k = 0 on a wide row: the 128-bit prefix.
    assert_eq!(bit_chunks_for(256, 0), vec![(0, 128)]);
    assert_eq!(bit_chunks_for(64, 0), vec![(0, 64)]);
}

#[test]
fn extract_bits_at_packs_positions_low_first() {
    let row = [0b1000_0001u8, 0xFFu8];
    assert_eq!(extract_bits_at(&row, &[0, 7, 8]), 0b111);
    assert_eq!(extract_bits_at(&row, &[1]), 0);
    assert_eq!(extract_bits_at(&row, &[1, 0]), 0b10);
    assert_eq!(extract_bits_at(&row, &[]), 0);
}

#[test]
fn hamming_counts_every_differing_bit() {
    assert_eq!(hamming(&[0b1000_0000, 0x01, 0x00], &[0, 0, 0xF0]), 6);
    assert_eq!(hamming(&[], &[]), 0);
    assert_eq!(hamming_le_k(&[0xFF; 3], &[0; 3], 24), Some(24));
    assert_eq!(hamming_le_k(&[0xFF; 3], &[0; 3], 23), None);
    assert_eq!(hamming_le_k(&[0x0F; 9], &[0x0F; 9], 0), Some(0));
}

#[test]
fn searches_on_concrete_corpus() {
    // Rows 0 and 2 equal, row 1 one bit away from row 0, row 3 far.
    let data: Vec<u8> = vec![
        0x00, 0x00, 0x00, 0x00, //
        0x00, 0x00, 0x00, 0x01, //
        0x00, 0x00, 0x00, 0x00, //
        0xFF, 0xFF, 0xFF, 0xFF,
    ];
    let expected = vec![(0, 1, 1), (0, 2, 0), (1, 2, 1)];
    assert_eq!(find_pairs_self_st(&data, 4, 4, 2), expected);
    assert_eq!(find_pairs_self_radix(&data, 4, 4, 2), expected);
    assert_eq!(find_pairs_self_bit(&data, 4, 4, 2), expected);
    assert_eq!(find_pairs_self_no_dedup_par(&data, 4, 4, 2), expected);
    assert_eq!(find_pairs_self_no_dedup_par_prefetch_full(&data, 4, 4, 2), expected);
    assert_eq!(find_pairs_qgram_self(&data, 4, 4, 2, 4), expected);
    assert_eq!(find_pairs_self_st(&data, 4, 4, 0), vec![(0, 2, 0)]);
}

#[test]
fn empty_and_single_row_corpora() {
    assert_eq!(find_pairs_self_st(&[], 0, 8, 2), vec![]);
    assert_eq!(find_pairs_self_bit(&[], 0, 8, 2), vec![]);
    let one = noise(1, 8, 3);
    assert_eq!(find_pairs_self(&one, 1, 8, 2), vec![]);
    assert_eq!(find_pairs_cross(&one, 1, &[], 0, 8, 2), vec![]);
}

#[test]
fn exact_searches_agree_with_brute_force() {
    let n = 60;
    let d_bytes = 8;
    let data = planted(n, d_bytes, 0x5EED);
    for k in [0u32, 1, 3, 7] {
        let truth = brute_force_self(&data, n, d_bytes, k);
        assert_eq!(find_pairs_self(&data, n, d_bytes, k), truth);
        assert_eq!(find_pairs_self_bit(&data, n, d_bytes, k), truth);
        assert_eq!(find_pairs_qgram_self(&data, n, d_bytes, k, 4), truth);
    }
    // Beyond the byte regime only the bit search is exact.
    for k in [8u32, 12] {
        assert_eq!(find_pairs_self_bit(&data, n, d_bytes, k), brute_force_self(&data, n, d_bytes, k));
    }
}

#[test]
fn qgram_with_non_positive_threshold_is_the_byte_search() {
    // 64 bits, q = 16: 49 positions; k * q = 128 > 49.
    let n = 40;
    let d_bytes = 8;
    let data = planted(n, d_bytes, 0x9A);
    assert_eq!(
        find_pairs_qgram_self(&data, n, d_bytes, 5, 16),
        find_pairs_self_st(&data, n, d_bytes, 5)
    );
}

#[test]
fn bit_search_contains_byte_search_in_every_regime() {
    let n = 80;
    let d_bytes = 4;
    let data = planted(n, d_bytes, 0x77);
    for k in [2u32, 4, 6, 10] {
        let bit: BTreeSet<_> = find_pairs_self_bit(&data, n, d_bytes, k).into_iter().collect();
        for t in find_pairs_self_st(&data, n, d_bytes, k) {
            assert!(bit.contains(&t));
        }
    }
}

#[test]
fn cross_searches_agree_in_the_byte_regime() {
    let a = noise(25, 8, 0x11);
    let mut b = noise(30, 8, 0x22);
    for r in 0..6 {
        let src = a[r * 8..(r + 1) * 8].to_vec();
        b[r * 8..(r + 1) * 8].copy_from_slice(&src);
        b[r * 8 + r] ^= 0b0100_0000;
    }
    for k in [0u32, 1, 3] {
        let byte = find_pairs_cross(&a, 25, &b, 30, 8, k);
        let bit = find_pairs_cross_bit(&a, 25, &b, 30, 8, k);
        assert_eq!(byte, bit);
        assert!(byte.len() >= 6 || k == 0);
    }
}

#[test]
fn planned_search_with_a_disjoint_plan_is_exact() {
    let n = 60;
    let d_bytes = 4;
    let data = planted(n, d_bytes, 0xABC);
    // Three chunks of interleaved positions, no position shared.
    let plan: Vec<Vec<usize>> = vec![
        (0..32).filter(|p| p % 3 == 0).collect(),
        (0..32).filter(|p| p % 3 == 1).collect(),
        (0..32).filter(|p| p % 3 == 2).collect(),
    ];
    assert_eq!(find_pairs_self_planned(&data, n, d_bytes, 2, &plan), brute_force_self(&data, n, d_bytes, 2));
}

#[test]
fn planned_search_with_an_empty_chunk_falls_back_to_bits() {
    let n = 60;
    let d_bytes = 4;
    let data = planted(n, d_bytes, 0xABD);
    let plan: Vec<Vec<usize>> = vec![vec![0, 1, 2], vec![]];
    assert_eq!(find_pairs_self_planned(&data, n, d_bytes, 3, &plan), find_pairs_self_bit(&data, n, d_bytes, 3));
}

#[test]
fn planned_search_with_too_few_chunks_falls_back_to_bits() {
    // One chunk is no pigeonhole plan at k = 2: the bit path runs instead.
    let n = 60;
    let d_bytes = 4;
    let data = planted(n, d_bytes, 0xABE);
    let plan: Vec<Vec<usize>> = vec![(0..8).collect()];
    let got = find_pairs_self_planned(&data, n, d_bytes, 2, &plan);
    assert_eq!(got, find_pairs_self_bit(&data, n, d_bytes, 2));
    assert_eq!(got, brute_force_self(&data, n, d_bytes, 2));
}

#[test]
fn planned_search_with_overlapping_chunks_falls_back_to_bits() {
    let n = 60;
    let d_bytes = 4;
    let data = planted(n, d_bytes, 0xABF);
    // Position 5 lies in two chunks.
    let plan: Vec<Vec<usize>> = vec![vec![0, 5, 9], vec![5, 12], vec![20, 21, 22]];
    assert!(!positions_disjoint(&plan, d_bytes));
    let got = find_pairs_self_planned(&data, n, d_bytes, 2, &plan);
    assert_eq!(got, brute_force_self(&data, n, d_bytes, 2));
}

#[test]
fn positions_disjoint_sees_shared_positions_only_across_chunks() {
    let disjoint: Vec<Vec<usize>> = vec![vec![0, 1, 2], vec![3, 4], vec![31]];
    assert!(positions_disjoint(&disjoint, 4));
    // A position repeated within one chunk is no overlap.
    let repeated_within: Vec<Vec<usize>> = vec![vec![7, 7], vec![8]];
    assert!(positions_disjoint(&repeated_within, 4));
    let shared: Vec<Vec<usize>> = vec![vec![1, 2], vec![3], vec![2]];
    assert!(!positions_disjoint(&shared, 4));
    assert!(positions_disjoint(&Vec::new(), 4));
}

#[test]
fn index_finds_an_added_row_at_distance_zero() {
    let data = noise(30, 16, 0x31);
    let mut idx = Index::new(16, 5);
    assert!(idx.is_empty());
    assert_eq!(idx.d_bytes(), 16);
    assert_eq!(idx.k(), 5);
    idx.add_batch(&data);
    let row = noise(1, 16, 0x32);
    let id = idx.add(&row);
    assert_eq!(id, 30);
    assert!(!idx.is_empty());
    assert_eq!(idx.len(), 31);
    let hits = idx.query(&row);
    assert!(hits.contains(&(30, 0)));
}

#[test]
fn index_query_is_exact_and_sorted() {
    let n = 40;
    let d_bytes = 8;
    let data = planted(n, d_bytes, 0x41);
    let mut idx = Index::new(d_bytes, 9);
    assert_eq!(idx.add_batch(&data), Some(0));
    for i in 0..n {
        let row = &data[i * d_bytes..(i + 1) * d_bytes];
        let mut expected = Vec::new();
        for j in 0..n {
            let d = hamming(row, &data[j * d_bytes..(j + 1) * d_bytes]);
            if d <= 9 {
                expected.push((j as u32, d));
            }
        }
        assert_eq!(idx.query(row), expected);
    }
}

#[test]
fn index_add_batch_returns_first_id() {
    let mut idx = Index::new(4, 1);
    assert_eq!(idx.add_batch(&noise(3, 4, 5)), Some(0));
    assert_eq!(idx.add_batch(&noise(2, 4, 6)), Some(3));
    assert_eq!(idx.len(), 5);
}

#[test]
fn swapping_the_corpora_swaps_the_cross_pairs() {
    let a = planted(24, 8, 0x31);
    let mut b = noise(30, 8, 0x32);
    for r in 0..5 {
        let src = a[r * 8..(r + 1) * 8].to_vec();
        b[(r + 3) * 8..(r + 4) * 8].copy_from_slice(&src);
        b[(r + 3) * 8 + r] ^= 0b0001_0000;
    }
    for k in [0u32, 1, 3] {
        let ab = find_pairs_cross(&a, 24, &b, 30, 8, k);
        let mut ba: Vec<_> = find_pairs_cross(&b, 30, &a, 24, 8, k)
            .into_iter()
            .map(|(j, i, d)| (i, j, d))
            .collect();
        ba.sort();
        assert_eq!(ab, ba);
        let ab_bit = find_pairs_cross_bit(&a, 24, &b, 30, 8, k + 20);
        let mut ba_bit: Vec<_> = find_pairs_cross_bit(&b, 30, &a, 24, 8, k + 20)
            .into_iter()
            .map(|(j, i, d)| (i, j, d))
            .collect();
        ba_bit.sort();
        assert_eq!(ab_bit, ba_bit);
    }
}

#[test]
fn cross_search_of_a_corpus_with_itself_is_the_self_search() {
    let n = 40;
    let d_bytes = 8;
    let data = planted(n, d_bytes, 0x41);
    for k in [0u32, 2, 5] {
        let cross = find_pairs_cross_bit(&data, n, &data, n, d_bytes, k);
        let upper: Vec<_> = cross.iter().copied().filter(|&(i, j, _)| i < j).collect();
        assert_eq!(upper, find_pairs_self_bit(&data, n, d_bytes, k));
        for i in 0..n as u32 {
            assert!(cross.contains(&(i, i, 0)));
        }
        for &(i, j, d) in &cross {
            assert!(cross.contains(&(j, i, d)));
        }
    }
}

#[test]
fn add_batch_answers_like_adds_in_order() {
    let d_bytes = 4;
    let k = 3;
    let rows = planted(24, d_bytes, 0x51);
    let mut one_by_one = Index::new(d_bytes, k);
    let mut ids = Vec::new();
    for r in 0..24 {
        ids.push(one_by_one.add(&rows[r * d_bytes..(r + 1) * d_bytes]));
    }
    let mut batched = Index::new(d_bytes, k);
    assert_eq!(batched.add_batch(&rows), Some(ids[0]));
    assert_eq!(ids, (0..24).collect::<Vec<u32>>());
    assert_eq!(batched.len(), one_by_one.len());
    let probes = noise(10, d_bytes, 0x52);
    for r in 0..24 {
        let q = &rows[r * d_bytes..(r + 1) * d_bytes];
        assert_eq!(batched.query(q), one_by_one.query(q));
    }
    for r in 0..10 {
        let q = &probes[r * d_bytes..(r + 1) * d_bytes];
        assert_eq!(batched.query(q), one_by_one.query(q));
    }
}

#[test]
fn sample_bit_counts_counts_msb_first_over_a_stride_sample() {
    let data = [0b1000_0000u8, 0b0000_0001, 0b1000_0001, 0xFF];
    let (counts, sampled) = sample_bit_counts(&data, 4, 1, 4);
    assert_eq!(sampled, 4);
    assert_eq!(counts, vec![3, 1, 1, 1, 1, 1, 1, 3]);
    // Two of four rows: stride 2, rows 0 and 2.
    let (counts, sampled) = sample_bit_counts(&data, 4, 1, 2);
    assert_eq!(sampled, 2);
    assert_eq!(counts, vec![2, 0, 0, 0, 0, 0, 0, 1]);
    // More samples than rows: every row once.
    let (counts, sampled) = sample_bit_counts(&data, 4, 1, 100);
    assert_eq!(sampled, 4);
    assert_eq!(counts[0], 3);
    let (counts, sampled) = sample_bit_counts(&data, 4, 1, 0);
    assert_eq!(sampled, 0);
    assert_eq!(counts, vec![0; 8]);
}

#[test]
fn sample_rows_fit_checks_the_last_sampled_row() {
    assert!(sample_rows_fit(8, 4, 2, 4));
    assert!(!sample_rows_fit(7, 4, 2, 4));
    // Ten rows, one sample: only row 0 is read.
    assert!(sample_rows_fit(2, 10, 2, 1));
    assert!(sample_rows_fit(0, 10, 2, 0));
    assert!(!sample_rows_fit(0, 10, 2, 1));
}
