//! Positional q-grams of packed rows and the counting lower bound
//! (Jokinen-Ukkonen): two rows within Hamming distance `k` share at least
//! `(d_bits - q + 1) - k * q` of their `d_bits - q + 1` positional q-grams.

use vstd::prelude::*;
use vstd::set_lib::{set_int_range, lemma_int_range, lemma_len_union, lemma_len_subset};

use crate::bitspec::{bit_at, diff_upto, hamming_distance};

verus! {

/// The value of the `len` bits of `row` starting at bit `p`, the first bit
/// most significant.
pub open spec fn gram(row: Seq<u8>, p: int, len: nat) -> nat
    decreases len,
{
    if len == 0 {
        0
    } else {
        (2 * gram(row, p, (len - 1) as nat) + bit_at(row, p + len - 1)) as nat
    }
}

/// The number of starting positions `p < np` at which rows `a` and `b`
/// have the same `q`-gram.
pub open spec fn shared_grams(a: Seq<u8>, b: Seq<u8>, q: nat, np: nat) -> nat
    decreases np,
{
    if np == 0 {
        0
    } else {
        shared_grams(a, b, q, (np - 1) as nat) + (if gram(a, np - 1, q) == gram(b, np - 1, q) {
            1nat
        } else {
            0nat
        })
    }
}

/// The number of positional `q`-grams of a row of `d` bytes.
pub open spec fn gram_positions(d: int, q: int) -> int {
    8 * d - q + 1
}

/// `2^len`.
pub open spec fn two_pow(len: nat) -> nat
    decreases len,
{
    if len == 0 {
        1
    } else {
        2 * two_pow((len - 1) as nat)
    }
}

/// Rows that agree on bits `[p, p + len)` have the same gram there.
pub proof fn lemma_gram_congruent(a: Seq<u8>, b: Seq<u8>, p: int, len: nat)
    requires
        forall|x: int| p <= x < p + len ==> #[trigger] bit_at(a, x) == bit_at(b, x),
    ensures
        gram(a, p, len) == gram(b, p, len),
    decreases len,
{
    if len > 0 {
        lemma_gram_congruent(a, b, p, (len - 1) as nat);
        assert(bit_at(a, p + len - 1) == bit_at(b, p + len - 1));
    }
}

/// A gram is below `2^len`.
pub proof fn lemma_gram_bound(row: Seq<u8>, p: int, len: nat)
    ensures
        gram(row, p, len) < two_pow(len),
    decreases len,
{
    if len > 0 {
        lemma_gram_bound(row, p, (len - 1) as nat);
        let x = row[(p + len - 1) / 8];
        let s = (7 - (p + len - 1) % 8) as u8;
        assert((x >> s) & 1u8 <= 1u8) by (bit_vector);
    }
}

/// `2^len` is at most `2^16` for `len <= 16`.
pub proof fn lemma_two_pow_16(len: nat)
    requires
        len <= 16,
    ensures
        two_pow(len) <= 0x10000,
    decreases 16 - len,
{
    if len < 16 {
        lemma_two_pow_16(len + 1);
        assert(two_pow(len + 1) == 2 * two_pow(len));
    } else {
        reveal_with_fuel(two_pow, 17);
    }
}

/// At most `np` positions share a gram.
pub proof fn lemma_shared_bound(a: Seq<u8>, b: Seq<u8>, q: nat, np: nat)
    ensures
        shared_grams(a, b, q, np) <= np,
    decreases np,
{
    if np > 0 {
        lemma_shared_bound(a, b, q, (np - 1) as nat);
    }
}

/// The positions below `np` whose grams differ.
pub open spec fn bad_positions(a: Seq<u8>, b: Seq<u8>, q: nat, np: nat) -> Set<int> {
    Set::new(|p: int| 0 <= p < np && gram(a, p, q) != gram(b, p, q))
}

/// Every position below `np` either shares its gram or is bad.
proof fn lemma_shared_plus_bad(a: Seq<u8>, b: Seq<u8>, q: nat, np: nat)
    ensures
        bad_positions(a, b, q, np).finite(),
        shared_grams(a, b, q, np) + bad_positions(a, b, q, np).len() == np,
    decreases np,
{
    if np == 0 {
        assert(bad_positions(a, b, q, np) =~= Set::<int>::empty());
    } else {
        let prev = (np - 1) as nat;
        lemma_shared_plus_bad(a, b, q, prev);
        let p = np - 1;
        if gram(a, p, q) == gram(b, p, q) {
            assert(bad_positions(a, b, q, np) =~= bad_positions(a, b, q, prev));
        } else {
            assert(bad_positions(a, b, q, np) =~= bad_positions(a, b, q, prev).insert(p));
            assert(!bad_positions(a, b, q, prev).contains(p));
        }
    }
}

/// The positions `p` whose window `[p, p + q)` holds a position of `dset`.
pub open spec fn cover(dset: Set<int>, q: int) -> Set<int> {
    Set::new(|p: int| exists|x: int| dset.contains(x) && x - q < p <= x)
}

/// Each position of `dset` lies in at most `q` windows.
proof fn lemma_cover_len(dset: Set<int>, q: int)
    requires
        dset.finite(),
        0 <= q,
    ensures
        cover(dset, q).finite(),
        cover(dset, q).len() <= q * dset.len(),
    decreases dset.len(),
{
    if dset.len() == 0 {
        assert(dset =~= Set::<int>::empty());
        assert(cover(dset, q) =~= Set::<int>::empty());
    } else {
        let x = dset.choose();
        let rest = dset.remove(x);
        lemma_cover_len(rest, q);
        let w = set_int_range(x - q + 1, x + 1);
        lemma_int_range(x - q + 1, x + 1);
        assert(cover(dset, q) =~= cover(rest, q).union(w)) by {
            assert forall|p: int| cover(dset, q).contains(p) implies #[trigger] cover(rest, q).union(w).contains(p) by {
                let y = choose|y: int| dset.contains(y) && y - q < p <= y;
                if y != x {
                    assert(rest.contains(y));
                }
            }
            assert forall|p: int| #[trigger] cover(rest, q).union(w).contains(p) implies cover(dset, q).contains(p) by {
                if cover(rest, q).contains(p) {
                    let y = choose|y: int| rest.contains(y) && y - q < p <= y;
                    assert(dset.contains(y));
                } else {
                    assert(dset.contains(x) && x - q < p <= x);
                }
            }
        }
        lemma_len_union(cover(rest, q), w);
        assert(q * rest.len() + q == q * dset.len()) by (nonlinear_arith)
            requires
                rest.len() + 1 == dset.len(),
        ;
    }
}

/// Positional q-gram lower bound: rows `a` and `b` of equal length within
/// Hamming distance `k` have the same `q`-gram at no fewer than
/// `(8 * len - q + 1) - k * q` of the `8 * len - q + 1` starting positions.
pub proof fn lemma_qgram_lower_bound(a: Seq<u8>, b: Seq<u8>, q: nat, k: nat)
    requires
        a.len() == b.len(),
        1 <= q <= 8 * a.len(),
        hamming_distance(a, b) <= k,
    ensures
        shared_grams(a, b, q, gram_positions(a.len() as int, q as int) as nat) >= gram_positions(
            a.len() as int,
            q as int,
        ) - k * q,
{
    let np = gram_positions(a.len() as int, q as int) as nat;
    let dset = diff_upto(a, b, 8 * a.len() as int);
    assert(dset.finite()) by {
        lemma_int_range(0, 8 * a.len() as int);
        lemma_len_subset(dset, set_int_range(0, 8 * a.len() as int));
    }
    lemma_shared_plus_bad(a, b, q, np);
    lemma_cover_len(dset, q as int);
    let bad = bad_positions(a, b, q, np);
    assert(bad.subset_of(cover(dset, q as int))) by {
        assert forall|p: int| bad.contains(p) implies #[trigger] cover(dset, q as int).contains(p) by {
            if !(exists|x: int| p <= x < p + q && bit_at(a, x) != bit_at(b, x)) {
                assert forall|x: int| p <= x < p + q implies #[trigger] bit_at(a, x) == bit_at(b, x) by {
                }
                lemma_gram_congruent(a, b, p, q);
            }
            let x = choose|x: int| p <= x < p + q && bit_at(a, x) != bit_at(b, x);
            assert(dset.contains(x));
        }
    }
    lemma_len_subset(bad, cover(dset, q as int));
    assert(q * dset.len() <= q * k) by (nonlinear_arith)
        requires
            dset.len() <= k,
    ;
}

} // verus!
