//! The steps that join per-chunk candidates and per-piece verify results,
//! and the lemmas that carry the contracts of the steps to the search
//! results.

use vstd::prelude::*;
use vstd::arithmetic::div_mod::{lemma_fundamental_div_mod, lemma_mod_pos_bound};

use crate::outside::{piece_of, piece_count};
use crate::verify::{verified, lemma_verified_concat, lemma_verified_members};
use crate::rows::{
    row_of, rows_dist, self_candidates, cross_candidates, self_join, cross_join,
    strictly_sorted_triples, share_byte_chunk, share_bit_chunk, share_position_chunk,
};

verus! {

/// The views of a list of vectors.
pub open spec fn views<T>(lists: Seq<Vec<T>>) -> Seq<Seq<T>> {
    Seq::new(lists.len(), |i: int| lists[i]@)
}

/// The concatenation of the lists, in order.
pub open spec fn concat<T>(lists: Seq<Seq<T>>) -> Seq<T>
    decreases lists.len(),
{
    if lists.len() == 0 {
        seq![]
    } else {
        concat(lists.drop_last()) + lists.last()
    }
}

/// Concatenate the lists, in order.
pub(crate) fn concat_all<T: Copy>(lists: &Vec<Vec<T>>) -> (r: Vec<T>)
    ensures
        r@ == concat(views(lists@)),
{
    let mut r: Vec<T> = Vec::new();
    let nl = lists.len();
    let mut l: usize = 0;
    while l < nl
        invariant
            nl == lists@.len(),
            l <= nl,
            r@ == concat(views(lists@).subrange(0, l as int)),
        decreases nl - l,
    {
        let ghost before = r@;
        let len = lists[l].len();
        let mut t: usize = 0;
        while t < len
            invariant
                nl == lists@.len(),
                l < nl,
                len == lists@[l as int]@.len(),
                t <= len,
                r@ == before + lists@[l as int]@.subrange(0, t as int),
            decreases len - t,
        {
            r.push(lists[l][t]);
            proof {
                assert(before + lists@[l as int]@.subrange(0, t + 1) =~= (before + lists@[l as int]@.subrange(0, t as int)).push(lists@[l as int]@[t as int]));
            }
            t = t + 1;
        }
        proof {
            assert(lists@[l as int]@.subrange(0, len as int) =~= lists@[l as int]@);
            assert(views(lists@).subrange(0, l + 1).drop_last() =~= views(lists@).subrange(0, l as int));
            assert(views(lists@).subrange(0, l + 1).last() == lists@[l as int]@);
        }
        l = l + 1;
    }
    assert(views(lists@).subrange(0, nl as int) =~= views(lists@));
    r
}

proof fn lemma_piece_count(len: int, cs: int)
    requires
        0 <= len,
        0 < cs,
    ensures
        piece_count(len, cs) * cs >= len,
        piece_count(len, cs) > 0 ==> (piece_count(len, cs) - 1) * cs < len,
        piece_count(len, cs) >= 0,
{
    let c = piece_count(len, cs);
    let x = len + cs - 1;
    lemma_fundamental_div_mod(x, cs);
    lemma_mod_pos_bound(x, cs);
    assert(c * cs >= len && (c > 0 ==> (c - 1) * cs < len) && c >= 0) by (nonlinear_arith)
        requires
            x == cs * c + x % cs,
            0 <= x % cs < cs,
            x == len + cs - 1,
            0 <= len,
            0 < cs,
    ;
}

/// The pieces of `items` laid end to end give `items` back.
pub proof fn lemma_pieces_concat<A>(items: Seq<A>, cs: int, p: int)
    requires
        0 < cs,
        0 <= p <= piece_count(items.len() as int, cs),
    ensures
        concat(Seq::new(p as nat, |q: int| piece_of(items, cs, q))) == items.subrange(
            0,
            if p * cs <= items.len() {
                p * cs
            } else {
                items.len() as int
            },
        ),
    decreases p,
{
    lemma_piece_count(items.len() as int, cs);
    if p > 0 {
        lemma_pieces_concat(items, cs, p - 1);
        let s = Seq::new(p as nat, |q: int| piece_of(items, cs, q));
        assert(s.drop_last() =~= Seq::new((p - 1) as nat, |q: int| piece_of(items, cs, q)));
        assert((p - 1) * cs < items.len()) by (nonlinear_arith)
            requires
                p <= piece_count(items.len() as int, cs),
                piece_count(items.len() as int, cs) > 0 ==> (piece_count(items.len() as int, cs) - 1) * cs < items.len(),
                0 < cs,
                p > 0,
        ;
        assert(p * cs == (p - 1) * cs + cs) by (nonlinear_arith);
        assert(0 <= (p - 1) * cs) by (nonlinear_arith)
            requires
                p >= 1,
                cs > 0,
        ;
        let lo = (p - 1) * cs;
        let hi = if p * cs <= items.len() {
            p * cs
        } else {
            items.len() as int
        };
        assert(items.subrange(0, lo) + items.subrange(lo, hi) =~= items.subrange(0, hi));
    } else {
        assert(items.subrange(0, 0) =~= Seq::<A>::empty());
    }
}

/// Verifying the pieces of a candidate list and laying the results end to
/// end is verifying the whole list.
pub proof fn lemma_verified_pieces(
    cand: Seq<(u32, u32)>,
    cs: int,
    parts: Seq<Seq<(u32, u32, u32)>>,
    a: Seq<u8>,
    b: Seq<u8>,
    d: int,
    k: int,
)
    requires
        0 < cs,
        parts.len() == piece_count(cand.len() as int, cs),
        forall|p: int| 0 <= p < parts.len() ==> #[trigger] parts[p] == verified(piece_of(cand, cs, p), a, b, d, k),
    ensures
        concat(parts) == verified(cand, a, b, d, k),
{
    lemma_piece_count(cand.len() as int, cs);
    assert forall|p: int| 0 <= p <= parts.len() implies #[trigger] concat(parts.subrange(0, p)) == verified(
        concat(Seq::new(p as nat, |q: int| piece_of(cand, cs, q))),
        a,
        b,
        d,
        k,
    ) by {
        lemma_verified_pieces_prefix(cand, cs, parts, a, b, d, k, p);
    }
    assert(parts.subrange(0, parts.len() as int) =~= parts);
    lemma_pieces_concat(cand, cs, parts.len() as int);
    assert(cand.subrange(0, cand.len() as int) =~= cand);
    assert(concat(parts.subrange(0, parts.len() as int)) == concat(parts));
}

proof fn lemma_verified_pieces_prefix(
    cand: Seq<(u32, u32)>,
    cs: int,
    parts: Seq<Seq<(u32, u32, u32)>>,
    a: Seq<u8>,
    b: Seq<u8>,
    d: int,
    k: int,
    p: int,
)
    requires
        0 < cs,
        0 <= p <= parts.len(),
        forall|q: int| 0 <= q < parts.len() ==> #[trigger] parts[q] == verified(piece_of(cand, cs, q), a, b, d, k),
    ensures
        concat(parts.subrange(0, p)) == verified(
            concat(Seq::new(p as nat, |q: int| piece_of(cand, cs, q))),
            a,
            b,
            d,
            k,
        ),
    decreases p,
{
    if p == 0 {
        assert(Seq::new(0, |q: int| piece_of(cand, cs, q)) =~= Seq::<Seq<(u32, u32)>>::empty());
    } else {
        lemma_verified_pieces_prefix(cand, cs, parts, a, b, d, k, p - 1);
        assert(parts.subrange(0, p).drop_last() =~= parts.subrange(0, p - 1));
        let s = Seq::new(p as nat, |q: int| piece_of(cand, cs, q));
        assert(s.drop_last() =~= Seq::new((p - 1) as nat, |q: int| piece_of(cand, cs, q)));
        lemma_verified_concat(concat(s.drop_last()), s.last(), a, b, d, k);
    }
}

/// Candidate filter of the byte-chunk searches: row `i` of `a` and row `j`
/// of `b` carry the same bytes in at least one of the chunks.
pub open spec fn byte_filter(a: Seq<u8>, b: Seq<u8>, d: int, chunks: Seq<(usize, usize)>) -> spec_fn(int, int) -> bool {
    |i: int, j: int| share_byte_chunk(row_of(a, d, i), row_of(b, d, j), chunks)
}

/// Candidate filter of the bit-chunk searches: row `i` of `a` and row `j`
/// of `b` have the same key for at least one of the bit chunks.
pub open spec fn bit_filter(a: Seq<u8>, b: Seq<u8>, d: int, chunks: Seq<(usize, usize)>) -> spec_fn(int, int) -> bool {
    |i: int, j: int| share_bit_chunk(row_of(a, d, i), row_of(b, d, j), chunks)
}

/// Candidate filter of the position-chunk search: rows `i` and `j` have the
/// same key for at least one chunk of bit positions.
pub open spec fn position_filter(a: Seq<u8>, b: Seq<u8>, d: int, chunks: Seq<Seq<usize>>) -> spec_fn(int, int) -> bool {
    |i: int, j: int| share_position_chunk(row_of(a, d, i), row_of(b, d, j), chunks)
}

/// Concatenating candidate lists lists the pairs of either filter.
pub proof fn lemma_append_self_candidates(
    c1: Seq<(u32, u32)>,
    c2: Seq<(u32, u32)>,
    n: int,
    m1: spec_fn(int, int) -> bool,
    m2: spec_fn(int, int) -> bool,
    m: spec_fn(int, int) -> bool,
)
    requires
        self_candidates(c1, n, m1),
        self_candidates(c2, n, m2),
        forall|i: int, j: int| 0 <= i < j < n ==> #[trigger] m(i, j) == (m1(i, j) || m2(i, j)),
    ensures
        self_candidates(c1 + c2, n, m),
{
    let c = c1 + c2;
    assert forall|idx: int| 0 <= idx < c.len() implies (#[trigger] c[idx]).0 < c[idx].1 < n && m(
        c[idx].0 as int,
        c[idx].1 as int,
    ) by {
        if idx < c1.len() {
            assert(c[idx] == c1[idx]);
        } else {
            assert(c[idx] == c2[idx - c1.len()]);
        }
    }
    assert forall|i: int, j: int| 0 <= i < j < n && #[trigger] m(i, j) implies c.contains((i as u32, j as u32)) by {
        if m1(i, j) {
            let x = choose|x: int| 0 <= x < c1.len() && c1[x] == (i as u32, j as u32);
            assert(c[x] == c1[x]);
        } else {
            assert(m2(i, j));
            let x = choose|x: int| 0 <= x < c2.len() && c2[x] == (i as u32, j as u32);
            assert(c[c1.len() + x] == c2[x]);
        }
    }
}

/// Concatenating candidate lists lists the pairs of either filter.
pub proof fn lemma_append_cross_candidates(
    c1: Seq<(u32, u32)>,
    c2: Seq<(u32, u32)>,
    n_a: int,
    n_b: int,
    m1: spec_fn(int, int) -> bool,
    m2: spec_fn(int, int) -> bool,
    m: spec_fn(int, int) -> bool,
)
    requires
        cross_candidates(c1, n_a, n_b, m1),
        cross_candidates(c2, n_a, n_b, m2),
        forall|i: int, j: int| 0 <= i < n_a && 0 <= j < n_b ==> #[trigger] m(i, j) == (m1(i, j) || m2(i, j)),
    ensures
        cross_candidates(c1 + c2, n_a, n_b, m),
{
    let c = c1 + c2;
    assert forall|idx: int| 0 <= idx < c.len() implies (#[trigger] c[idx]).0 < n_a && c[idx].1 < n_b && m(
        c[idx].0 as int,
        c[idx].1 as int,
    ) by {
        if idx < c1.len() {
            assert(c[idx] == c1[idx]);
        } else {
            assert(c[idx] == c2[idx - c1.len()]);
        }
    }
    assert forall|i: int, j: int| 0 <= i < n_a && 0 <= j < n_b && #[trigger] m(i, j) implies c.contains((i as u32, j as u32)) by {
        if m1(i, j) {
            let x = choose|x: int| 0 <= x < c1.len() && c1[x] == (i as u32, j as u32);
            assert(c[x] == c1[x]);
        } else {
            assert(m2(i, j));
            let x = choose|x: int| 0 <= x < c2.len() && c2[x] == (i as u32, j as u32);
            assert(c[c1.len() + x] == c2[x]);
        }
    }
}

/// Lists with the same multiset of entries have the same members.
pub proof fn lemma_same_members<T>(s: Seq<T>, t: Seq<T>)
    requires
        s.to_multiset() == t.to_multiset(),
    ensures
        forall|x: T| s.contains(x) == t.contains(x),
{
    broadcast use vstd::seq_lib::group_to_multiset_ensures;
    assert forall|x: T| s.contains(x) == t.contains(x) by {
        assert(s.contains(x) <==> s.to_multiset().count(x) > 0);
        assert(t.contains(x) <==> t.to_multiset().count(x) > 0);
    }
}

/// A strictly sorted list with the members of the verified candidates of a
/// self search is its result.
pub proof fn lemma_self_join(
    r: Seq<(u32, u32, u32)>,
    cand: Seq<(u32, u32)>,
    data: Seq<u8>,
    n: int,
    d: int,
    k: int,
    m: spec_fn(int, int) -> bool,
)
    requires
        strictly_sorted_triples(r),
        0 <= k <= u32::MAX,
        n <= u32::MAX + 1,
        self_candidates(cand, n, m),
        forall|x: (u32, u32, u32)| r.contains(x) == verified(cand, data, data, d, k).contains(x),
    ensures
        self_join(r, data, n, d, k, m),
{
    lemma_verified_members(cand, data, data, d, k);
    assert forall|idx: int| 0 <= idx < r.len() implies {
        let t = #[trigger] r[idx];
        &&& t.0 < t.1 < n
        &&& m(t.0 as int, t.1 as int)
        &&& t.2 == rows_dist(data, data, d, t.0 as int, t.1 as int)
        &&& t.2 <= k
    } by {
        let t = r[idx];
        assert(r.contains(t));
        assert(cand.contains((t.0, t.1)));
        let x = choose|x: int| 0 <= x < cand.len() && cand[x] == (t.0, t.1);
        assert(cand[x].0 < cand[x].1 < n);
    }
    assert forall|i: int, j: int|
        0 <= i < j < n && #[trigger] m(i, j) && rows_dist(data, data, d, i, j) <= k implies r.contains(
        (i as u32, j as u32, rows_dist(data, data, d, i, j) as u32),
    ) by {
        assert(cand.contains((i as u32, j as u32)));
        let t = (i as u32, j as u32, rows_dist(data, data, d, i, j) as u32);
        assert(verified(cand, data, data, d, k).contains(t));
    }
}

/// A strictly sorted list with the members of the verified candidates of a
/// cross search is its result.
pub proof fn lemma_cross_join(
    r: Seq<(u32, u32, u32)>,
    cand: Seq<(u32, u32)>,
    a: Seq<u8>,
    n_a: int,
    b: Seq<u8>,
    n_b: int,
    d: int,
    k: int,
    m: spec_fn(int, int) -> bool,
)
    requires
        strictly_sorted_triples(r),
        0 <= k <= u32::MAX,
        n_a <= u32::MAX + 1,
        n_b <= u32::MAX + 1,
        cross_candidates(cand, n_a, n_b, m),
        forall|x: (u32, u32, u32)| r.contains(x) == verified(cand, a, b, d, k).contains(x),
    ensures
        cross_join(r, a, n_a, b, n_b, d, k, m),
{
    lemma_verified_members(cand, a, b, d, k);
    assert forall|idx: int| 0 <= idx < r.len() implies {
        let t = #[trigger] r[idx];
        &&& t.0 < n_a
        &&& t.1 < n_b
        &&& m(t.0 as int, t.1 as int)
        &&& t.2 == rows_dist(a, b, d, t.0 as int, t.1 as int)
        &&& t.2 <= k
    } by {
        let t = r[idx];
        assert(r.contains(t));
        assert(cand.contains((t.0, t.1)));
        let x = choose|x: int| 0 <= x < cand.len() && cand[x] == (t.0, t.1);
        assert(cand[x].0 < n_a && cand[x].1 < n_b);
    }
    assert forall|i: int, j: int|
        0 <= i < n_a && 0 <= j < n_b && #[trigger] m(i, j) && rows_dist(a, b, d, i, j) <= k implies r.contains(
        (i as u32, j as u32, rows_dist(a, b, d, i, j) as u32),
    ) by {
        assert(cand.contains((i as u32, j as u32)));
        let t = (i as u32, j as u32, rows_dist(a, b, d, i, j) as u32);
        assert(verified(cand, a, b, d, k).contains(t));
    }
}

/// Some chunk `c < m` matches the pair.
pub open spec fn any_chunk(mc: spec_fn(int, int, int) -> bool, m: int) -> spec_fn(int, int) -> bool {
    |i: int, j: int| exists|c: int| 0 <= c < m && #[trigger] mc(c, i, j)
}

/// Laying per-chunk candidate lists end to end lists the pairs that match
/// some chunk.
pub proof fn lemma_concat_self_candidates(lists: Seq<Seq<(u32, u32)>>, n: int, mc: spec_fn(int, int, int) -> bool)
    requires
        forall|c: int, idx: int|
            0 <= c < lists.len() && 0 <= idx < lists[c].len() ==> (#[trigger] lists[c][idx]).0 < lists[c][idx].1 < n
                && mc(c, lists[c][idx].0 as int, lists[c][idx].1 as int),
        forall|c: int, i: int, j: int|
            0 <= c < lists.len() && 0 <= i < j < n && #[trigger] mc(c, i, j) ==> lists[c].contains(
                (i as u32, j as u32),
            ),
    ensures
        self_candidates(concat(lists), n, any_chunk(mc, lists.len() as int)),
    decreases lists.len(),
{
    if lists.len() == 0 {
    } else {
        let prev = lists.drop_last();
        lemma_concat_self_candidates(prev, n, mc);
        let last = lists.len() - 1;
        let m2 = |i: int, j: int| mc(last, i, j);
        assert(self_candidates(lists[last], n, m2)) by {
            assert forall|idx: int| 0 <= idx < lists[last].len() implies (#[trigger] lists[last][idx]).0
                < lists[last][idx].1 < n && m2(lists[last][idx].0 as int, lists[last][idx].1 as int) by {
            }
        }
        let m1 = any_chunk(mc, prev.len() as int);
        let m = any_chunk(mc, lists.len() as int);
        assert forall|i: int, j: int| 0 <= i < j < n implies #[trigger] m(i, j) == (m1(i, j) || m2(i, j)) by {
            if m(i, j) {
                let c = choose|c: int| 0 <= c < lists.len() && #[trigger] mc(c, i, j);
                if c < last {
                    assert(m1(i, j));
                }
            }
            if m1(i, j) {
                let c = choose|c: int| 0 <= c < prev.len() && #[trigger] mc(c, i, j);
                assert(m(i, j));
            }
            if m2(i, j) {
                assert(mc(last, i, j));
            }
        }
        lemma_append_self_candidates(concat(prev), lists[last], n, m1, m2, m);
    }
}

/// Laying per-chunk candidate lists end to end lists the pairs that match
/// some chunk.
pub proof fn lemma_concat_cross_candidates(
    lists: Seq<Seq<(u32, u32)>>,
    n_a: int,
    n_b: int,
    mc: spec_fn(int, int, int) -> bool,
)
    requires
        forall|c: int, idx: int|
            0 <= c < lists.len() && 0 <= idx < lists[c].len() ==> (#[trigger] lists[c][idx]).0 < n_a
                && lists[c][idx].1 < n_b && mc(c, lists[c][idx].0 as int, lists[c][idx].1 as int),
        forall|c: int, i: int, j: int|
            0 <= c < lists.len() && 0 <= i < n_a && 0 <= j < n_b && #[trigger] mc(c, i, j)
                ==> lists[c].contains((i as u32, j as u32)),
    ensures
        cross_candidates(concat(lists), n_a, n_b, any_chunk(mc, lists.len() as int)),
    decreases lists.len(),
{
    if lists.len() == 0 {
    } else {
        let prev = lists.drop_last();
        lemma_concat_cross_candidates(prev, n_a, n_b, mc);
        let last = lists.len() - 1;
        let m2 = |i: int, j: int| mc(last, i, j);
        assert(cross_candidates(lists[last], n_a, n_b, m2)) by {
            assert forall|idx: int| 0 <= idx < lists[last].len() implies (#[trigger] lists[last][idx]).0
                < n_a && lists[last][idx].1 < n_b && m2(lists[last][idx].0 as int, lists[last][idx].1 as int) by {
            }
        }
        let m1 = any_chunk(mc, prev.len() as int);
        let m = any_chunk(mc, lists.len() as int);
        assert forall|i: int, j: int| 0 <= i < n_a && 0 <= j < n_b implies #[trigger] m(i, j) == (m1(i, j) || m2(i, j)) by {
            if m(i, j) {
                let c = choose|c: int| 0 <= c < lists.len() && #[trigger] mc(c, i, j);
                if c < last {
                    assert(m1(i, j));
                }
            }
            if m1(i, j) {
                let c = choose|c: int| 0 <= c < prev.len() && #[trigger] mc(c, i, j);
                assert(m(i, j));
            }
            if m2(i, j) {
                assert(mc(last, i, j));
            }
        }
        lemma_append_cross_candidates(concat(prev), lists[last], n_a, n_b, m1, m2, m);
    }
}

/// The `Some` results of verifying each candidate, in order, are the
/// verified candidates.
pub proof fn lemma_somes_verified(
    cand: Seq<(u32, u32)>,
    outs: Seq<Option<(u32, u32, u32)>>,
    a: Seq<u8>,
    b: Seq<u8>,
    d: int,
    k: int,
)
    requires
        outs.len() == cand.len(),
        forall|i: int|
            0 <= i < cand.len() ==> #[trigger] outs[i] == (if rows_dist(a, b, d, cand[i].0 as int, cand[i].1 as int) <= k {
                Some((cand[i].0, cand[i].1, rows_dist(a, b, d, cand[i].0 as int, cand[i].1 as int) as u32))
            } else {
                None
            }),
    ensures
        crate::outside::somes(outs) == verified(cand, a, b, d, k),
    decreases cand.len(),
{
    if cand.len() > 0 {
        lemma_somes_verified(cand.drop_last(), outs.drop_last(), a, b, d, k);
        assert(outs.last() == outs[outs.len() - 1]);
    }
}

} // verus!
