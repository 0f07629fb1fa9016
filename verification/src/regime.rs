//! The regime check of the byte-aligned search, as an error value.

use vstd::prelude::*;

use crate::chunks::{chunk_ranges, is_supported};
use crate::pipeline::byte_filter;
use crate::rows::{self_join, finds_all_self};
use crate::search::{byte_search_ok, find_pairs_self_no_dedup_par_prefetch};

verus! {

/// Returned when the caller asks for a regime the byte-aligned chunk
/// pigeonhole cannot satisfy. The guarantee needs at least `k + 1` disjoint
/// byte-aligned chunks; when `k >= d_bytes` only `d_bytes` chunks exist and
/// the search can miss pairs. Bit-level chunks (`find_pairs_self_bit`) have
/// no such limit below `8 * d_bytes`.
#[derive(Debug, Clone, Copy, PartialEq, Eq)]
pub struct UnsupportedRegime {
    pub k: u32,
    pub d_bytes: usize,
}

/// The ASCII digit for `d < 10`.
pub open spec fn digit_char(d: nat) -> char {
    (48 + d) as char
}

/// The decimal digits of `x`, most significant first, as `format!` writes
/// an unsigned integer.
pub open spec fn decimal(x: nat) -> Seq<char>
    decreases x,
{
    if x < 10 {
        seq![digit_char(x)]
    } else {
        decimal(x / 10) + seq![digit_char(x % 10)]
    }
}

/// The text of the error for `(k, d_bytes)`.
pub open spec fn regime_text(k: u32, d_bytes: usize) -> Seq<char> {
    "hammingbird: byte-aligned chunk pigeonhole requires k < d_bytes (got k="@ + decimal(k as nat)
        + ", d_bytes="@ + decimal(d_bytes as nat)
        + "). For this regime use FAISS IndexBinaryFlat or wait for bit-level chunks in a later release."@
}

/// The one-character string of the digit `d`.
fn digit_str(d: u64) -> (r: &'static str)
    requires
        d < 10,
    ensures
        r@ == seq![digit_char(d as nat)],
{
    proof {
        reveal_strlit("0");
        reveal_strlit("1");
        reveal_strlit("2");
        reveal_strlit("3");
        reveal_strlit("4");
        reveal_strlit("5");
        reveal_strlit("6");
        reveal_strlit("7");
        reveal_strlit("8");
        reveal_strlit("9");
    }
    match d {
        0 => "0",
        1 => "1",
        2 => "2",
        3 => "3",
        4 => "4",
        5 => "5",
        6 => "6",
        7 => "7",
        8 => "8",
        _ => "9",
    }
}

/// Append the decimal digits of `x` to `s`.
fn push_decimal(s: &mut String, x: u64)
    ensures
        final(s)@ == old(s)@ + decimal(x as nat),
    decreases x,
{
    let ghost start = s@;
    if x >= 10 {
        push_decimal(s, x / 10);
    }
    let tail = digit_str(x % 10);
    s.append(tail);
    assert(s@ =~= start + decimal(x as nat));
}

impl UnsupportedRegime {
    /// The error's message: "hammingbird: byte-aligned chunk pigeonhole
    /// requires k < d_bytes (got k=.., d_bytes=..). For this regime use
    /// FAISS IndexBinaryFlat or wait for bit-level chunks in a later
    /// release.", with `k` and `d_bytes` in decimal.
    pub fn message(&self) -> (r: String)
        ensures
            r@ == regime_text(self.k, self.d_bytes),
    {
        let mut s = String::new();
        s.append("hammingbird: byte-aligned chunk pigeonhole requires k < d_bytes (got k=");
        push_decimal(&mut s, self.k as u64);
        s.append(", d_bytes=");
        push_decimal(&mut s, self.d_bytes as u64);
        s.append("). For this regime use FAISS IndexBinaryFlat or wait for bit-level chunks in a later release.");
        s
    }
}

/// Non-panicking variant of `find_pairs_self`: `Err` with the given `k` and
/// `d_bytes` exactly when `k >= d_bytes`; otherwise `Ok` with every
/// `(i, j, dist)`, `i < j < n`, `dist = hamming(row i, row j) <= k`, in
/// strictly increasing order.
pub fn try_find_pairs_self(data: &[u8], n: usize, d_bytes: usize, k: u32) -> (r: Result<Vec<(u32, u32, u32)>, UnsupportedRegime>)
    requires
        k < d_bytes ==> byte_search_ok(data@.len() as int, n as int, d_bytes as int, k as int),
    ensures
        r is Err <==> k >= d_bytes,
        r matches Err(e) ==> e.k == k && e.d_bytes == d_bytes,
        r matches Ok(v) ==> self_join(
            v@,
            data@,
            n as int,
            d_bytes as int,
            k as int,
            byte_filter(data@, data@, d_bytes as int, chunk_ranges(d_bytes as int, k + 1)),
        ) && finds_all_self(v@, data@, n as int, d_bytes as int, k as int),
{
    if !is_supported(k, d_bytes) {
        return Err(UnsupportedRegime { k, d_bytes });
    }
    Ok(find_pairs_self_no_dedup_par_prefetch(data, n, d_bytes, k))
}

} // verus!
