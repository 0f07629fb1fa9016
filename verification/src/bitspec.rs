//! The mathematical model of packed binary rows: bit positions, Hamming
//! distance as the number of differing bit positions, and the lemmas that
//! connect it to per-byte popcounts.

use vstd::prelude::*;
use vstd::set_lib::*;

verus! {

/// Bit `p` of a packed row, MSB-first within each byte: bit position `p`
/// is `(row[p / 8] >> (7 - p % 8)) & 1`.
pub open spec fn bit_at(row: Seq<u8>, p: int) -> u8 {
    (row[p / 8] >> ((7 - p % 8) as u8)) & 1u8
}

/// The number of ones among the eight bits of `x`.
pub open spec fn popcount8(x: u8) -> nat {
    (((x >> 0u8) & 1u8) + ((x >> 1u8) & 1u8) + ((x >> 2u8) & 1u8) + ((x >> 3u8) & 1u8)
        + ((x >> 4u8) & 1u8) + ((x >> 5u8) & 1u8) + ((x >> 6u8) & 1u8) + ((x >> 7u8)
        & 1u8)) as nat
}

/// The bit positions below `p` at which rows `a` and `b` differ.
pub open spec fn diff_upto(a: Seq<u8>, b: Seq<u8>, p: int) -> Set<int> {
    Set::new(|q: int| 0 <= q < p && bit_at(a, q) != bit_at(b, q))
}

/// Hamming distance of two equal-length packed rows: the number of bit
/// positions at which they differ.
pub open spec fn hamming_distance(a: Seq<u8>, b: Seq<u8>) -> nat {
    diff_upto(a, b, 8 * a.len() as int).len()
}

/// Sum of the popcounts of `a[i] ^ b[i]` over the first `m` bytes.
pub open spec fn xor_popcount_prefix(a: Seq<u8>, b: Seq<u8>, m: int) -> nat
    decreases m,
{
    if m <= 0 {
        0
    } else {
        xor_popcount_prefix(a, b, m - 1) + popcount8(a[m - 1] ^ b[m - 1])
    }
}

proof fn lemma_diff_upto_step(a: Seq<u8>, b: Seq<u8>, p: int)
    requires
        0 <= p,
        diff_upto(a, b, p).finite(),
    ensures
        diff_upto(a, b, p + 1).finite(),
        diff_upto(a, b, p + 1).len() == diff_upto(a, b, p).len() + (if bit_at(a, p) != bit_at(
            b,
            p,
        ) {
            1int
        } else {
            0int
        }),
{
    if bit_at(a, p) != bit_at(b, p) {
        assert(diff_upto(a, b, p + 1) =~= diff_upto(a, b, p).insert(p));
    } else {
        assert(diff_upto(a, b, p + 1) =~= diff_upto(a, b, p));
    }
}

proof fn lemma_xor_bit(x: u8, y: u8, s: u8)
    requires
        s < 8,
    ensures
        ((x ^ y) >> s) & 1u8 == (if (x >> s) & 1u8 != (y >> s) & 1u8 {
            1u8
        } else {
            0u8
        }),
{
    assert(((x ^ y) >> s) & 1u8 == (if (x >> s) & 1u8 != (y >> s) & 1u8 {
        1u8
    } else {
        0u8
    })) by (bit_vector)
        requires
            s < 8,
    ;
}

/// The bits of byte `m` are the positions `8m .. 8m + 8`.
proof fn lemma_bit_at_byte(row: Seq<u8>, m: int, s: int)
    requires
        0 <= m,
        0 <= s < 8,
    ensures
        bit_at(row, 8 * m + s) == (row[m] >> ((7 - s) as u8)) & 1u8,
{
    assert((8 * m + s) / 8 == m);
    assert((8 * m + s) % 8 == s);
}

/// The differing positions within the first `m` bytes number the sum of the
/// per-byte popcounts of the XOR.
pub proof fn lemma_diff_upto_bytes(a: Seq<u8>, b: Seq<u8>, m: int)
    requires
        0 <= m,
    ensures
        diff_upto(a, b, 8 * m).finite(),
        diff_upto(a, b, 8 * m).len() == xor_popcount_prefix(a, b, m),
    decreases m,
{
    if m == 0 {
        assert(diff_upto(a, b, 0) =~= Set::<int>::empty());
    } else {
        lemma_diff_upto_bytes(a, b, m - 1);
        let base = 8 * (m - 1);
        let x = a[m - 1];
        let y = b[m - 1];
        lemma_diff_upto_step(a, b, base);
        lemma_diff_upto_step(a, b, base + 1);
        lemma_diff_upto_step(a, b, base + 2);
        lemma_diff_upto_step(a, b, base + 3);
        lemma_diff_upto_step(a, b, base + 4);
        lemma_diff_upto_step(a, b, base + 5);
        lemma_diff_upto_step(a, b, base + 6);
        lemma_diff_upto_step(a, b, base + 7);
        lemma_bit_at_byte(a, m - 1, 0);
        lemma_bit_at_byte(b, m - 1, 0);
        lemma_bit_at_byte(a, m - 1, 1);
        lemma_bit_at_byte(b, m - 1, 1);
        lemma_bit_at_byte(a, m - 1, 2);
        lemma_bit_at_byte(b, m - 1, 2);
        lemma_bit_at_byte(a, m - 1, 3);
        lemma_bit_at_byte(b, m - 1, 3);
        lemma_bit_at_byte(a, m - 1, 4);
        lemma_bit_at_byte(b, m - 1, 4);
        lemma_bit_at_byte(a, m - 1, 5);
        lemma_bit_at_byte(b, m - 1, 5);
        lemma_bit_at_byte(a, m - 1, 6);
        lemma_bit_at_byte(b, m - 1, 6);
        lemma_bit_at_byte(a, m - 1, 7);
        lemma_bit_at_byte(b, m - 1, 7);
        lemma_xor_bit(x, y, 0);
        lemma_xor_bit(x, y, 1);
        lemma_xor_bit(x, y, 2);
        lemma_xor_bit(x, y, 3);
        lemma_xor_bit(x, y, 4);
        lemma_xor_bit(x, y, 5);
        lemma_xor_bit(x, y, 6);
        lemma_xor_bit(x, y, 7);
        assert(8 * m == base + 8);
    }
}

/// The popcount prefix sums never decrease and stay within eight per byte.
pub proof fn lemma_xor_popcount_prefix_mono(a: Seq<u8>, b: Seq<u8>, m1: int, m2: int)
    requires
        0 <= m1 <= m2,
    ensures
        xor_popcount_prefix(a, b, m1) <= xor_popcount_prefix(a, b, m2),
        xor_popcount_prefix(a, b, m2) <= xor_popcount_prefix(a, b, m1) + 8 * (m2 - m1),
    decreases m2 - m1,
{
    if m1 < m2 {
        lemma_xor_popcount_prefix_mono(a, b, m1, m2 - 1);
        let x = a[m2 - 1] ^ b[m2 - 1];
        assert(popcount8(x) <= 8) by {
            assert(((x >> 0u8) & 1u8) <= 1u8 && ((x >> 1u8) & 1u8) <= 1u8 && ((x >> 2u8) & 1u8)
                <= 1u8 && ((x >> 3u8) & 1u8) <= 1u8 && ((x >> 4u8) & 1u8) <= 1u8 && ((x >> 5u8)
                & 1u8) <= 1u8 && ((x >> 6u8) & 1u8) <= 1u8 && ((x >> 7u8) & 1u8) <= 1u8)
                by (bit_vector);
        }
    }
}

/// The Hamming distance of two rows of `m` bytes is the sum of the per-byte
/// popcounts of their XOR.
pub proof fn lemma_hamming_is_popcount_sum(a: Seq<u8>, b: Seq<u8>)
    ensures
        diff_upto(a, b, 8 * a.len() as int).finite(),
        hamming_distance(a, b) == xor_popcount_prefix(a, b, a.len() as int),
{
    lemma_diff_upto_bytes(a, b, a.len() as int);
}

/// Little-endian value of a byte sequence: `sum_i s[i] * 256^i`.
pub open spec fn le_value(s: Seq<u8>) -> nat
    decreases s.len(),
{
    if s.len() == 0 {
        0
    } else {
        (s[0] as nat) + 256 * le_value(s.drop_first())
    }
}

/// `256^n`.
pub open spec fn pow256(n: nat) -> nat
    decreases n,
{
    if n == 0 {
        1
    } else {
        256 * pow256((n - 1) as nat)
    }
}

/// Zero bytes appended at the high end do not change the value.
pub proof fn lemma_le_value_zero_pad(s: Seq<u8>, z: Seq<u8>)
    requires
        forall|i: int| 0 <= i < z.len() ==> z[i] == 0,
    ensures
        le_value(s + z) == le_value(s),
    decreases s.len() + z.len(),
{
    if s.len() == 0 {
        assert(s + z =~= z);
        if z.len() > 0 {
            lemma_le_value_zero_pad(s, z.drop_first());
            assert(s + z.drop_first() =~= z.drop_first());
        }
    } else {
        assert((s + z).drop_first() =~= s.drop_first() + z);
        lemma_le_value_zero_pad(s.drop_first(), z);
    }
}

/// The value of `n` bytes is below `256^n`.
pub proof fn lemma_le_value_bound(s: Seq<u8>)
    ensures
        le_value(s) < pow256(s.len()),
    decreases s.len(),
{
    if s.len() > 0 {
        lemma_le_value_bound(s.drop_first());
        assert(le_value(s.drop_first()) + 1 <= pow256((s.len() - 1) as nat));
        assert(256 * (le_value(s.drop_first()) + 1) <= 256 * pow256((s.len() - 1) as nat))
            by (nonlinear_arith)
            requires
                le_value(s.drop_first()) + 1 <= pow256((s.len() - 1) as nat),
        ;
    }
}

/// `256^16 = 2^128`, so sixteen bytes fit a `u128`.
pub proof fn lemma_pow256_16()
    ensures
        pow256(16) == u128::MAX + 1,
{
    reveal_with_fuel(pow256, 17);
}

/// Equal-length byte sequences with the same value are equal.
pub proof fn lemma_le_value_injective(s1: Seq<u8>, s2: Seq<u8>)
    requires
        s1.len() == s2.len(),
        le_value(s1) == le_value(s2),
    ensures
        s1 == s2,
    decreases s1.len(),
{
    if s1.len() > 0 {
        let r1 = le_value(s1.drop_first());
        let r2 = le_value(s2.drop_first());
        assert(s1[0] as int + 256 * r1 == s2[0] as int + 256 * r2);
        assert(s1[0] == s2[0] && r1 == r2);
        lemma_le_value_injective(s1.drop_first(), s2.drop_first());
        assert(s1 =~= seq![s1[0]] + s1.drop_first());
        assert(s2 =~= seq![s2[0]] + s2.drop_first());
    } else {
        assert(s1 =~= s2);
    }
}

} // verus!
