//! Exact Hamming-distance pair search on packed binary vectors, built on the
//! pigeonhole prefilter: split each row into at least `k + 1` disjoint chunks;
//! two rows within Hamming distance `k` agree exactly on at least one chunk,
//! so bucketing rows by chunk contents yields every such pair as a candidate,
//! and a popcount verify step keeps exactly the pairs within distance `k`.

mod outside;
mod bucket;

pub mod bitspec;
pub mod hamming;
pub mod chunks;
pub mod extract;
pub mod pigeonhole;
pub mod rows;
pub mod candidates;
pub mod verify;
pub mod pipeline;
pub mod laws;
pub mod search;
pub mod bitsearch;
pub mod cross;
pub mod regime;
pub mod radix;
pub mod index;
pub mod qgram_law;
pub mod qgram;
pub mod sampling;

pub use hamming::{hamming, hamming_le_k};
pub use chunks::{chunk_boundaries, chunk_bit_boundaries, bit_chunks_for, is_supported, is_supported_bit};
pub use extract::{extract_bits, extract_bits_at};
pub use search::{
    find_pairs_self, find_pairs_self_st, find_pairs_self_par, find_pairs_self_par_prefetch,
    find_pairs_self_no_dedup, find_pairs_self_no_dedup_par, find_pairs_self_no_dedup_par_prefetch,
    find_pairs_self_no_dedup_par_prefetch_full,
};
pub use bitsearch::{find_pairs_self_bit, find_pairs_self_planned};
pub use cross::{find_pairs_cross, find_pairs_cross_bit};
pub use regime::{UnsupportedRegime, try_find_pairs_self};
pub use radix::find_pairs_self_radix;
pub use index::Index;
pub use qgram::find_pairs_qgram_self;
