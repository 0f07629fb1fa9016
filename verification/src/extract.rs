//! Chunk keys: the bits of a row at a range or a list of positions, packed
//! into a `u128`.

use vstd::prelude::*;

use crate::bitspec::bit_at;

verus! {

/// The low `t` bits set, for `t <= 8`.
pub open spec fn byte_mask(t: u8) -> u8 {
    if t == 8 {
        0xffu8
    } else {
        ((1u8 << t) - 1u8) as u8
    }
}

/// The `t` bits of `x` starting at bit `s` (counted from the least
/// significant end), as the low bits of the result.
pub open spec fn byte_piece(x: u8, s: u8, t: u8) -> u8 {
    (x >> s) & byte_mask(t)
}

/// How many bits the piece starting at bit position `p` takes: up to the end
/// of `p`'s byte, and no further than `hi`.
pub open spec fn piece_len(p: int, hi: int) -> int {
    if 8 - p % 8 <= hi - p {
        8 - p % 8
    } else {
        hi - p
    }
}

/// The key of bit range `[p, hi)` of `row`, placed from bit `nbits` of the
/// result on: the range is cut at byte boundaries into pieces; each piece
/// keeps its bits in their in-byte order (the lowest position is the most
/// significant bit of the piece), and the pieces are placed one after the
/// other from the low end of the result.
pub open spec fn range_key(row: Seq<u8>, p: int, hi: int, nbits: int) -> u128
    decreases hi - p,
{
    if p >= hi {
        0u128
    } else {
        let take = piece_len(p, hi);
        let piece = byte_piece(row[p / 8], (8 - p % 8 - take) as u8, take as u8);
        ((piece as u128) << (nbits as u32)) | range_key(row, p + take, hi, nbits + take)
    }
}

/// The key that `extract_bits` computes for bit range `[lo, hi)` of `row`.
pub open spec fn bit_range_key(row: Seq<u8>, lo: int, hi: int) -> u128 {
    range_key(row, lo, hi, 0)
}

/// The key of the bits of `row` at `positions[i..]`, bit `j` of the result
/// holding the bit at `positions[j]`.
pub open spec fn positions_key(row: Seq<u8>, positions: Seq<usize>, i: int) -> u128
    decreases positions.len() - i,
{
    if i >= positions.len() || i < 0 {
        0u128
    } else {
        ((bit_at(row, positions[i] as int) as u128) << (i as u32)) | positions_key(
            row,
            positions,
            i + 1,
        )
    }
}

/// Rows `a` and `b` carry the same bits at every position in `[lo, hi)`.
pub open spec fn agree_on_range(a: Seq<u8>, b: Seq<u8>, lo: int, hi: int) -> bool {
    forall|q: int| lo <= q < hi ==> #[trigger] bit_at(a, q) == bit_at(b, q)
}

/// Rows `a` and `b` carry the same bits at every listed position.
pub open spec fn agree_on_positions(a: Seq<u8>, b: Seq<u8>, positions: Seq<usize>) -> bool {
    forall|j: int| 0 <= j < positions.len() ==> #[trigger] bit_at(a, positions[j] as int) == bit_at(b, positions[j] as int)
}

proof fn lemma_piece_step(x: u8, s: u8, t: u8)
    requires
        1 <= t,
        s + t <= 8,
    ensures
        byte_piece(x, s, t) == ((x >> s) & 1u8) | (byte_piece(x, (s + 1) as u8, (t - 1) as u8)
            << 1u8),
{
    let s1 = (s + 1) as u8;
    let t1 = (t - 1) as u8;
    assert(((x >> s) & (if t == 8 { 0xffu8 } else { ((1u8 << t) - 1u8) as u8 })) == ((x >> s)
        & 1u8) | (((x >> s1) & (if t1 == 8 { 0xffu8 } else { ((1u8 << t1) - 1u8) as u8 }))
        << 1u8)) by (bit_vector)
        requires
            1 <= t,
            s + t <= 8,
            s1 == s + 1,
            t1 == t - 1,
    ;
}

/// A piece depends only on the bits it covers.
proof fn lemma_piece_congruent(x: u8, y: u8, s: u8, t: u8)
    requires
        s + t <= 8,
        forall|u: u8| s <= u < s + t ==> #[trigger] ((x >> u) & 1u8) == (y >> u) & 1u8,
    ensures
        byte_piece(x, s, t) == byte_piece(y, s, t),
    decreases t,
{
    if t == 0 {
        assert(byte_piece(x, s, 0) == 0 && byte_piece(y, s, 0) == 0) by {
            assert((x >> s) & (((1u8 << 0u8) - 1u8) as u8) == 0 && (y >> s) & (((1u8 << 0u8)
                - 1u8) as u8) == 0) by (bit_vector);
        }
    } else {
        lemma_piece_step(x, s, t);
        lemma_piece_step(y, s, t);
        assert((x >> s) & 1u8 == (y >> s) & 1u8);
        lemma_piece_congruent(x, y, (s + 1) as u8, (t - 1) as u8);
    }
}

/// A range key depends only on the bits of the range.
pub proof fn lemma_range_key_congruent(a: Seq<u8>, b: Seq<u8>, p: int, hi: int, nbits: int)
    requires
        0 <= p,
        agree_on_range(a, b, p, hi),
    ensures
        range_key(a, p, hi, nbits) == range_key(b, p, hi, nbits),
    decreases hi - p,
{
    if p < hi {
        let take = piece_len(p, hi);
        let s = 8 - p % 8 - take;
        let x = a[p / 8];
        let y = b[p / 8];
        assert forall|u: u8| s <= u < s + take implies #[trigger] ((x >> u) & 1u8) == (y >> u)
            & 1u8 by {
            let q = p / 8 * 8 + (7 - u);
            assert(p <= q < p + take);
            assert(q / 8 == p / 8);
            assert(q % 8 == 7 - u);
            assert(bit_at(a, q) == bit_at(b, q));
        }
        lemma_piece_congruent(x, y, s as u8, take as u8);
        lemma_range_key_congruent(a, b, p + take, hi, nbits + take);
    }
}

/// Rows that agree on a bit range have the same key for it.
pub proof fn lemma_bit_range_key_congruent(a: Seq<u8>, b: Seq<u8>, lo: int, hi: int)
    requires
        0 <= lo,
        agree_on_range(a, b, lo, hi),
    ensures
        bit_range_key(a, lo, hi) == bit_range_key(b, lo, hi),
{
    lemma_range_key_congruent(a, b, lo, hi, 0);
}

/// A positions key depends only on the bits at the positions.
pub proof fn lemma_positions_key_congruent(a: Seq<u8>, b: Seq<u8>, positions: Seq<usize>, i: int)
    requires
        agree_on_positions(a, b, positions),
    ensures
        positions_key(a, positions, i) == positions_key(b, positions, i),
    decreases positions.len() - i,
{
    if 0 <= i < positions.len() {
        assert(bit_at(a, positions[i] as int) == bit_at(b, positions[i] as int));
        lemma_positions_key_congruent(a, b, positions, i + 1);
    }
}

/// `x` has no set bit below bit `n`.
pub open spec fn low_clear(x: u128, n: u32) -> bool {
    (x >> n) << n == x
}

proof fn lemma_bit_at_bound(row: Seq<u8>, q: int)
    ensures
        bit_at(row, q) <= 1,
{
    let x = row[q / 8];
    let s = (7 - q % 8) as u8;
    assert((x >> s) & 1u8 <= 1u8) by (bit_vector);
}

proof fn lemma_low_clear_step(b: u128, r: u128, i: u32, j: u32)
    by (bit_vector)
    requires
        b <= 1,
        i < 127,
        j == i + 1,
        (r >> j) << j == r,
    ensures
        (((b << i) | r) >> i) << i == (b << i) | r,
{
}

proof fn lemma_low_clear_last(b: u128, i: u32)
    by (bit_vector)
    requires
        b <= 1,
        i < 128,
    ensures
        (((b << i) | 0u128) >> i) << i == (b << i) | 0u128,
{
}

proof fn lemma_split_bit(ba: u128, bb: u128, ra: u128, rb: u128, i: u32, j: u32)
    by (bit_vector)
    requires
        ba <= 1,
        bb <= 1,
        i < 127,
        j == i + 1,
        (ra >> j) << j == ra,
        (rb >> j) << j == rb,
        (ba << i) | ra == (bb << i) | rb,
    ensures
        ba == bb,
        ra == rb,
{
}

proof fn lemma_split_last_bit(ba: u128, bb: u128, i: u32)
    by (bit_vector)
    requires
        ba <= 1,
        bb <= 1,
        i < 128,
        (ba << i) | 0u128 == (bb << i) | 0u128,
    ensures
        ba == bb,
{
}

/// A positions key from entry `i` on has no set bit below bit `i`.
proof fn lemma_positions_key_low(row: Seq<u8>, positions: Seq<usize>, i: int)
    requires
        0 <= i < positions.len() <= 128,
    ensures
        low_clear(positions_key(row, positions, i), i as u32),
    decreases positions.len() - i,
{
    let b = bit_at(row, positions[i] as int) as u128;
    lemma_bit_at_bound(row, positions[i] as int);
    assert(positions_key(row, positions, i) == (b << (i as u32)) | positions_key(row, positions, i + 1));
    if i + 1 < positions.len() {
        lemma_positions_key_low(row, positions, i + 1);
        lemma_low_clear_step(b, positions_key(row, positions, i + 1), i as u32, (i + 1) as u32);
    } else {
        assert(positions_key(row, positions, i + 1) == 0u128);
        lemma_low_clear_last(b, i as u32);
    }
}

/// Equal positions keys carry equal bits at every position from entry `i`
/// on.
proof fn lemma_positions_key_injective(a: Seq<u8>, b: Seq<u8>, positions: Seq<usize>, i: int)
    requires
        0 <= i,
        positions.len() <= 128,
        positions_key(a, positions, i) == positions_key(b, positions, i),
    ensures
        forall|j: int| i <= j < positions.len() ==> #[trigger] bit_at(a, positions[j] as int) == bit_at(b, positions[j] as int),
    decreases positions.len() - i,
{
    if i < positions.len() {
        let ba = bit_at(a, positions[i] as int) as u128;
        let bb = bit_at(b, positions[i] as int) as u128;
        lemma_bit_at_bound(a, positions[i] as int);
        lemma_bit_at_bound(b, positions[i] as int);
        assert(positions_key(a, positions, i) == (ba << (i as u32)) | positions_key(a, positions, i + 1));
        assert(positions_key(b, positions, i) == (bb << (i as u32)) | positions_key(b, positions, i + 1));
        if i + 1 < positions.len() {
            lemma_positions_key_low(a, positions, i + 1);
            lemma_positions_key_low(b, positions, i + 1);
            lemma_split_bit(
                ba,
                bb,
                positions_key(a, positions, i + 1),
                positions_key(b, positions, i + 1),
                i as u32,
                (i + 1) as u32,
            );
            lemma_positions_key_injective(a, b, positions, i + 1);
        } else {
            assert(positions_key(a, positions, i + 1) == 0u128);
            assert(positions_key(b, positions, i + 1) == 0u128);
            lemma_split_last_bit(ba, bb, i as u32);
        }
    }
}

/// Positions keys are collision-free: for at most 128 positions, two rows
/// have the same key exactly when they carry the same bit at every
/// position.
pub proof fn lemma_positions_key_exact(a: Seq<u8>, b: Seq<u8>, positions: Seq<usize>)
    requires
        positions.len() <= 128,
    ensures
        (positions_key(a, positions, 0) == positions_key(b, positions, 0)) == agree_on_positions(a, b, positions),
{
    if positions_key(a, positions, 0) == positions_key(b, positions, 0) {
        lemma_positions_key_injective(a, b, positions, 0);
    }
    if agree_on_positions(a, b, positions) {
        lemma_positions_key_congruent(a, b, positions, 0);
    }
}

proof fn lemma_piece_shape(x: u8, s: u8, t: u8)
    by (bit_vector)
    requires
        1 <= t <= 8,
        s + t <= 8,
    ensures
        ((x >> s) & (if t == 8 { 0xffu8 } else { ((1u8 << t) - 1u8) as u8 })) as u128 >> (t as u128) == 0u128,
{
}

proof fn lemma_piece_bits(x: u8, y: u8, s: u8, t: u8, u: u8)
    by (bit_vector)
    requires
        1 <= t <= 8,
        s + t <= 8,
        s <= u < s + t,
        (x >> s) & (if t == 8 { 0xffu8 } else { ((1u8 << t) - 1u8) as u8 }) == (y >> s) & (if t == 8 {
            0xffu8
        } else {
            ((1u8 << t) - 1u8) as u8
        }),
    ensures
        (x >> u) & 1u8 == (y >> u) & 1u8,
{
}

#[verifier::rlimit(60)]
proof fn lemma_low_clear_or(x: u128, y: u128, n: u32)
    by (bit_vector)
    requires
        n < 128,
        (x >> n) << n == x,
        (y >> n) << n == y,
    ensures
        ((x | y) >> n) << n == x | y,
{
}

proof fn lemma_low_clear_shl(x: u128, n: u32)
    by (bit_vector)
    requires
        n < 128,
    ensures
        ((x << n) >> n) << n == x << n,
{
}

proof fn lemma_low_clear_weaken(r: u128, n: u32, m: u32)
    by (bit_vector)
    requires
        n <= m,
        m < 128,
        (r >> m) << m == r,
    ensures
        (r >> n) << n == r,
{
}

proof fn lemma_low_clear_zero(n: u32)
    by (bit_vector)
    requires
        n < 128,
    ensures
        (0u128 >> n) << n == 0u128,
{
}

proof fn lemma_split_piece(pa: u128, pb: u128, ra: u128, rb: u128, n: u32, t: u32, m: u32)
    by (bit_vector)
    requires
        1 <= t <= 8,
        m == n + t,
        m < 128,
        pa >> t == 0,
        pb >> t == 0,
        (ra >> m) << m == ra,
        (rb >> m) << m == rb,
        (pa << n) | ra == (pb << n) | rb,
    ensures
        pa == pb,
        ra == rb,
{
}

proof fn lemma_split_piece_last(pa: u128, pb: u128, n: u32, t: u32)
    by (bit_vector)
    requires
        1 <= t <= 8,
        n + t <= 128,
        pa >> t == 0,
        pb >> t == 0,
        (pa << n) | 0u128 == (pb << n) | 0u128,
    ensures
        pa == pb,
{
}

/// A range key placed from bit `nbits` on has no set bit below `nbits`.
proof fn lemma_range_key_low(row: Seq<u8>, p: int, hi: int, nbits: int)
    requires
        0 <= p < hi,
        0 <= nbits,
        nbits + (hi - p) <= 128,
    ensures
        low_clear(range_key(row, p, hi, nbits), nbits as u32),
    decreases hi - p,
{
    let take = piece_len(p, hi);
    let s = (8 - p % 8 - take) as u8;
    let x = row[p / 8];
    let pc = byte_piece(x, s, take as u8) as u128;
    let rest = range_key(row, p + take, hi, nbits + take);
    assert(range_key(row, p, hi, nbits) == (pc << (nbits as u32)) | rest);
    lemma_low_clear_shl(pc, nbits as u32);
    if p + take < hi {
        lemma_range_key_low(row, p + take, hi, nbits + take);
        lemma_low_clear_weaken(rest, nbits as u32, (nbits + take) as u32);
    } else {
        assert(rest == 0u128);
        lemma_low_clear_zero(nbits as u32);
    }
    lemma_low_clear_or(pc << (nbits as u32), rest, nbits as u32);
}

/// Equal range keys carry equal bits over the whole range.
proof fn lemma_range_key_injective(a: Seq<u8>, b: Seq<u8>, p: int, hi: int, nbits: int)
    requires
        0 <= p,
        0 <= nbits,
        nbits + (hi - p) <= 128,
        range_key(a, p, hi, nbits) == range_key(b, p, hi, nbits),
    ensures
        agree_on_range(a, b, p, hi),
    decreases hi - p,
{
    if p < hi {
        let take = piece_len(p, hi);
        let s = (8 - p % 8 - take) as u8;
        let x = a[p / 8];
        let y = b[p / 8];
        let pa = byte_piece(x, s, take as u8) as u128;
        let pb = byte_piece(y, s, take as u8) as u128;
        lemma_piece_shape(x, s, take as u8);
        lemma_piece_shape(y, s, take as u8);
        assert(range_key(a, p, hi, nbits) == (pa << (nbits as u32)) | range_key(a, p + take, hi, nbits + take));
        assert(range_key(b, p, hi, nbits) == (pb << (nbits as u32)) | range_key(b, p + take, hi, nbits + take));
        if p + take < hi {
            lemma_range_key_low(a, p + take, hi, nbits + take);
            lemma_range_key_low(b, p + take, hi, nbits + take);
            lemma_split_piece(
                pa,
                pb,
                range_key(a, p + take, hi, nbits + take),
                range_key(b, p + take, hi, nbits + take),
                nbits as u32,
                take as u32,
                (nbits + take) as u32,
            );
            lemma_range_key_injective(a, b, p + take, hi, nbits + take);
        } else {
            assert(range_key(a, p + take, hi, nbits + take) == 0u128);
            assert(range_key(b, p + take, hi, nbits + take) == 0u128);
            lemma_split_piece_last(pa, pb, nbits as u32, take as u32);
        }
        assert forall|q: int| p <= q < p + take implies #[trigger] bit_at(a, q) == bit_at(b, q) by {
            let u = (7 - q % 8) as u8;
            assert(q / 8 == p / 8);
            lemma_piece_bits(x, y, s, take as u8, u);
        }
    }
}

/// Bit-range keys are collision-free: for a range of at most 128 bits, two
/// rows have the same key exactly when they carry the same bits over the
/// whole range.
pub proof fn lemma_bit_range_key_exact(a: Seq<u8>, b: Seq<u8>, lo: int, hi: int)
    requires
        0 <= lo <= hi,
        hi - lo <= 128,
    ensures
        (bit_range_key(a, lo, hi) == bit_range_key(b, lo, hi)) == agree_on_range(a, b, lo, hi),
{
    if bit_range_key(a, lo, hi) == bit_range_key(b, lo, hi) {
        lemma_range_key_injective(a, b, lo, hi, 0);
    }
    if agree_on_range(a, b, lo, hi) {
        lemma_bit_range_key_congruent(a, b, lo, hi);
    }
}

proof fn lemma_zero_or(a: u128)
    ensures
        0u128 | a == a,
        a | 0u128 == a,
{
    assert(0u128 | a == a && a | 0u128 == a) by (bit_vector);
}

proof fn lemma_one_shl_pos(t: u8)
    requires
        t < 8,
    ensures
        (1u8 << t) >= 1u8,
{
    assert((1u8 << t) >= 1u8) by (bit_vector)
        requires
            t < 8,
    ;
}

proof fn lemma_or_assoc(a: u128, b: u128, c: u128)
    ensures
        (a | b) | c == a | (b | c),
{
    assert((a | b) | c == a | (b | c)) by (bit_vector);
}

/// Extract bits at positions `[lo_bit, hi_bit)` from `row`, MSB-first within
/// each byte, packed into a `u128` as `range_key` describes.
pub fn extract_bits(row: &[u8], lo_bit: usize, hi_bit: usize) -> (r: u128)
    requires
        lo_bit <= hi_bit,
        hi_bit - lo_bit <= 128,
        hi_bit == lo_bit || hi_bit <= 8 * row@.len(),
    ensures
        r == bit_range_key(row@, lo_bit as int, hi_bit as int),
{
    let width = hi_bit - lo_bit;
    if width == 0 {
        return 0;
    }
    let mut acc: u128 = 0;
    let mut nbits: u32 = 0;
    let mut p = lo_bit;
    proof {
        lemma_zero_or(range_key(row@, p as int, hi_bit as int, 0));
    }
    while p < hi_bit
        invariant
            lo_bit <= p <= hi_bit,
            hi_bit - lo_bit <= 128,
            hi_bit <= 8 * row@.len(),
            nbits == p - lo_bit,
            acc | range_key(row@, p as int, hi_bit as int, nbits as int) == bit_range_key(
                row@,
                lo_bit as int,
                hi_bit as int,
            ),
        decreases hi_bit - p,
    {
        let byte_idx = p / 8;
        let bit_in_byte = p % 8;
        let take = if 8 - bit_in_byte <= hi_bit - p {
            8 - bit_in_byte
        } else {
            hi_bit - p
        };
        let shift_right = 8 - bit_in_byte - take;
        let mask: u8 = if take == 8 {
            0xFFu8
        } else {
            proof {
                lemma_one_shl_pos(take as u8);
            }
            (1u8 << (take as u8)) - 1
        };
        let bits = (row[byte_idx] >> (shift_right as u8)) & mask;
        proof {
            lemma_or_assoc(
                acc,
                (bits as u128) << nbits,
                range_key(row@, (p + take) as int, hi_bit as int, (nbits + take) as int),
            );
        }
        acc = acc | ((bits as u128) << nbits);
        nbits = nbits + take as u32;
        p = p + take;
    }
    proof {
        assert(range_key(row@, p as int, hi_bit as int, nbits as int) == 0u128);
        assert(acc | 0u128 == acc) by (bit_vector);
    }
    acc
}

/// Extract the bits at the given positions from `row`, bit `i` of the result
/// holding the bit at `positions[i]`.
pub fn extract_bits_at(row: &[u8], positions: &[usize]) -> (r: u128)
    requires
        positions@.len() <= 128,
        forall|j: int| 0 <= j < positions@.len() ==> #[trigger] positions@[j] < 8 * row@.len(),
    ensures
        r == positions_key(row@, positions@, 0),
{
    let mut acc: u128 = 0;
    let mut out_bit: usize = 0;
    proof {
        lemma_zero_or(positions_key(row@, positions@, 0));
    }
    while out_bit < positions.len()
        invariant
            positions@.len() <= 128,
            forall|j: int| 0 <= j < positions@.len() ==> #[trigger] positions@[j] < 8 * row@.len(),
            out_bit <= positions@.len(),
            acc | positions_key(row@, positions@, out_bit as int) == positions_key(
                row@,
                positions@,
                0,
            ),
        decreases positions@.len() - out_bit,
    {
        let p = positions[out_bit];
        let byte_idx = p / 8;
        let bit_in_byte = p % 8;
        let bit = (row[byte_idx] >> ((7 - bit_in_byte) as u8)) & 1;
        proof {
            lemma_or_assoc(
                acc,
                (bit as u128) << (out_bit as u32),
                positions_key(row@, positions@, out_bit + 1),
            );
        }
        acc = acc | ((bit as u128) << (out_bit as u32));
        out_bit = out_bit + 1;
    }
    proof {
        assert(acc | 0u128 == acc) by (bit_vector);
    }
    acc
}

} // verus!
