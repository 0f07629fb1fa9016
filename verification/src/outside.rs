//! Trusted items: the calls this library makes into std and into outside
//! crates (hashbrown, rustc-hash, rayon), each with the contract that the
//! called function's documentation or source shows. Nothing here is
//! proved; every verified function that uses these items rests on them.

use vstd::prelude::*;

use hashbrown::{HashMap, HashSet};
use rayon::iter::{IntoParallelRefIterator, ParallelIterator};
use rayon::slice::{ParallelSlice, ParallelSliceMut};
use rustc_hash::FxBuildHasher;

use crate::bitspec::{popcount8, le_value};
use crate::bucket::new_bucket;
use crate::candidates::{lists_cover, lists_once, lists_view};
use crate::rows::{sorted_pairs, sorted_triples};
use crate::qgram::{gram_key, is_below};

verus! {

/// `u8::count_ones` (std): the number of ones in the binary representation
/// of `x`, which is the sum of its eight bits.
#[verifier::external_body]
pub(crate) fn byte_count_ones(x: u8) -> (r: u32)
    ensures
        r == popcount8(x),
{
    x.count_ones()
}

/// `u128::from_le_bytes` (std): the integer whose little-endian byte
/// representation is `buf`.
#[verifier::external_body]
pub(crate) fn u128_from_le_bytes(buf: [u8; 16]) -> (r: u128)
    ensures
        r as nat == le_value(buf@),
{
    u128::from_le_bytes(buf)
}

/// A hashbrown `HashMap<u128, Vec<u32>, FxBuildHasher>` from chunk keys to
/// the row ids filed under each key.
#[verifier::external_body]
pub struct KeyBuckets {
    map: HashMap<u128, Vec<u32>, FxBuildHasher>,
}

/// What a `KeyBuckets` holds: for each key present, its id list.
pub uninterp spec fn key_buckets(b: KeyBuckets) -> Map<u128, Seq<u32>>;

/// The hash tables here are asked for at most this many entries; below it
/// hashbrown's table layout cannot overflow `isize::MAX`, which is where it
/// panics with "capacity overflow".
pub open spec fn table_capacity_ok(n: int) -> bool {
    0 <= n <= isize::MAX / 128
}

/// The bucket map after appending `id` to the list filed under `key`.
pub open spec fn filed_under<K>(m: Map<K, Seq<u32>>, key: K, id: u32) -> Map<K, Seq<u32>> {
    m.insert(
        key,
        if m.dom().contains(key) {
            m[key].push(id)
        } else {
            seq![id]
        },
    )
}

impl KeyBuckets {
    /// `HashMap::with_hasher(FxBuildHasher)`: an empty map.
    #[verifier::external_body]
    pub(crate) fn new() -> (r: KeyBuckets)
        ensures
            key_buckets(r).dom() == Set::<u128>::empty(),
    {
        KeyBuckets { map: HashMap::with_hasher(FxBuildHasher) }
    }

    /// `HashMap::with_capacity_and_hasher(capacity, FxBuildHasher)`: an
    /// empty map (hashbrown's source panics only when the table layout for
    /// `capacity` overflows, which `table_capacity_ok` rules out).
    #[verifier::external_body]
    pub(crate) fn with_capacity(capacity: usize) -> (r: KeyBuckets)
        requires
            table_capacity_ok(capacity as int),
        ensures
            key_buckets(r).dom() == Set::<u128>::empty(),
    {
        KeyBuckets { map: HashMap::with_capacity_and_hasher(capacity, FxBuildHasher) }
    }

    /// `map.entry(key).or_insert_with(new_bucket).push(id)`: appends `id` to
    /// the list under `key`, starting an empty list when `key` is new. The
    /// table grows as needed; it holds fewer than `table_capacity_ok` keys.
    #[verifier::external_body]
    pub(crate) fn file(&mut self, key: u128, id: u32)
        requires
            key_buckets(*old(self)).dom().finite(),
            table_capacity_ok(key_buckets(*old(self)).dom().len() as int + 1),
        ensures
            key_buckets(*final(self)) == filed_under(key_buckets(*old(self)), key, id),
    {
        self.map.entry(key).or_insert_with(new_bucket).push(id);
    }

    /// `map.get(&key)`: the list under `key`, if `key` is present.
    #[verifier::external_body]
    pub(crate) fn get(&self, key: u128) -> (r: Option<&Vec<u32>>)
        ensures
            r is Some <==> key_buckets(*self).dom().contains(key),
            r matches Some(v) ==> v@ == key_buckets(*self)[key],
    {
        self.map.get(&key)
    }

    /// `map.values().collect()`: the lists of the map, each once (hashbrown's
    /// `Values` iterator visits every entry once), in the map's iteration
    /// order, which the contract leaves open.
    #[verifier::external_body]
    pub(crate) fn lists(&self) -> (r: Vec<&Vec<u32>>)
        ensures
            lists_cover(key_buckets(*self), lists_view(r@)),
            lists_once(key_buckets(*self), lists_view(r@)),
    {
        self.map.values().collect()
    }

    /// `map.iter()` collected as `(key, list)` entries, each entry of the
    /// map once, in the map's iteration order, which the contract leaves
    /// open.
    #[verifier::external_body]
    pub(crate) fn entries(&self) -> (r: Vec<(u128, &Vec<u32>)>)
        ensures
            forall|i1: int, i2: int| 0 <= i1 < i2 < r@.len() ==> #[trigger] r@[i1].0 != #[trigger] r@[i2].0,
            forall|i: int|
                0 <= i < r@.len() ==> key_buckets(*self).dom().contains(#[trigger] r@[i].0)
                    && r@[i].1@ == key_buckets(*self)[r@[i].0],
            forall|key: u128| #[trigger]
                key_buckets(*self).dom().contains(key) ==> exists|i: int|
                    0 <= i < r@.len() && r@[i].0 == key,
    {
        self.map.iter().map(|(k, v)| (*k, v)).collect()
    }
}

/// A hashbrown `HashMap<Box<[u8]>, Vec<u32>, FxBuildHasher>` from chunk
/// bytes to the row ids filed under them.
#[verifier::external_body]
pub struct BytesBuckets {
    map: HashMap<Box<[u8]>, Vec<u32>, FxBuildHasher>,
}

/// What a `BytesBuckets` holds: for each key present, its id list.
pub uninterp spec fn bytes_buckets(b: BytesBuckets) -> Map<Seq<u8>, Seq<u32>>;

impl BytesBuckets {
    /// `HashMap::with_capacity_and_hasher(capacity, FxBuildHasher)`: an
    /// empty map.
    #[verifier::external_body]
    pub(crate) fn with_capacity(capacity: usize) -> (r: BytesBuckets)
        requires
            table_capacity_ok(capacity as int),
        ensures
            bytes_buckets(r).dom() == Set::<Seq<u8>>::empty(),
    {
        BytesBuckets { map: HashMap::with_capacity_and_hasher(capacity, FxBuildHasher) }
    }

    /// `map.entry(key.into()).or_insert_with(new_bucket).push(id)`: appends
    /// `id` to the list under the bytes `key`.
    #[verifier::external_body]
    pub(crate) fn file(&mut self, key: &[u8], id: u32)
        requires
            bytes_buckets(*old(self)).dom().finite(),
            table_capacity_ok(bytes_buckets(*old(self)).dom().len() as int + 1),
        ensures
            bytes_buckets(*final(self)) == filed_under(bytes_buckets(*old(self)), key@, id),
    {
        self.map.entry(key.into()).or_insert_with(new_bucket).push(id);
    }

    /// `map.get(key)`: the list under the bytes `key`, if present.
    #[verifier::external_body]
    pub(crate) fn get(&self, key: &[u8]) -> (r: Option<&Vec<u32>>)
        ensures
            r is Some <==> bytes_buckets(*self).dom().contains(key@),
            r matches Some(v) ==> v@ == bytes_buckets(*self)[key@],
    {
        self.map.get(key)
    }

    /// `map.values().collect()`: the lists of the map, each once, in the
    /// map's iteration order, which the contract leaves open.
    #[verifier::external_body]
    pub(crate) fn lists(&self) -> (r: Vec<&Vec<u32>>)
        ensures
            lists_cover(bytes_buckets(*self), lists_view(r@)),
            lists_once(bytes_buckets(*self), lists_view(r@)),
    {
        self.map.values().collect()
    }
}

/// A hashbrown `HashSet<u32, FxBuildHasher>` of row ids.
#[verifier::external_body]
pub struct IdSet {
    set: HashSet<u32, FxBuildHasher>,
}

/// What an `IdSet` holds.
pub uninterp spec fn id_set(s: IdSet) -> Set<u32>;

impl IdSet {
    /// `HashSet::with_hasher(FxBuildHasher)`: an empty set.
    #[verifier::external_body]
    pub(crate) fn new() -> (r: IdSet)
        ensures
            id_set(r) == Set::<u32>::empty(),
    {
        IdSet { set: HashSet::with_hasher(FxBuildHasher) }
    }

    /// `set.clear()`: empties the set.
    #[verifier::external_body]
    pub(crate) fn clear(&mut self)
        ensures
            id_set(*final(self)) == Set::<u32>::empty(),
    {
        self.set.clear();
    }

    /// `set.insert(id)`: adds `id`. The set holds fewer than
    /// `table_capacity_ok` ids.
    #[verifier::external_body]
    pub(crate) fn insert(&mut self, id: u32)
        requires
            id_set(*old(self)).finite(),
            table_capacity_ok(id_set(*old(self)).len() as int + 1),
        ensures
            id_set(*final(self)) == id_set(*old(self)).insert(id),
    {
        self.set.insert(id);
    }

    /// `set.iter().copied().collect()`: each member once, in the set's
    /// iteration order (which the contract leaves open).
    #[verifier::external_body]
    pub(crate) fn members(&self) -> (r: Vec<u32>)
        ensures
            r@.no_duplicates(),
            r@.to_set() == id_set(*self),
    {
        self.set.iter().copied().collect()
    }
}

/// `rayon::current_num_threads()`: the number of threads of the current
/// pool. rayon-core's source sizes a pool at least 1 and at most
/// `max_num_threads()` (`2^16 - 1` on 64-bit targets, `2^8 - 1` on 32-bit
/// ones); which count a pool has depends on the machine and the
/// environment, so nothing more is stated.
#[verifier::external_body]
pub(crate) fn current_num_threads() -> (r: usize)
    ensures
        1 <= r <= 0xffff,
{
    rayon::current_num_threads()
}

/// `items.par_iter().map(f).collect()` (rayon): `f` applied to every item,
/// results in the items' order (rayon collects an indexed iterator into
/// each item's own slot).
#[verifier::external_body]
pub(crate) fn par_map<A: Sync, B: Send, F: Fn(&A) -> B + Sync + Send>(items: &Vec<A>, f: F) -> (r:
    Vec<B>)
    requires
        forall|i: int| 0 <= i < items@.len() ==> #[trigger] f.requires((&items@[i],)),
    ensures
        r@.len() == items@.len(),
        forall|i: int| 0 <= i < items@.len() ==> #[trigger] f.ensures((&items@[i],), r@[i]),
{
    items.par_iter().map(f).collect()
}

/// The `Some` values of `outs`, in order.
pub open spec fn somes<B>(outs: Seq<Option<B>>) -> Seq<B>
    decreases outs.len(),
{
    if outs.len() == 0 {
        seq![]
    } else {
        let rest = somes(outs.drop_last());
        match outs.last() {
            Some(b) => rest.push(b),
            None => rest,
        }
    }
}

/// `r` is the list of the `Some` results of `f` on `items`, in order.
pub open spec fn is_filter_map<A, B, F: Fn(&A) -> Option<B>>(items: Seq<A>, f: F, r: Seq<B>) -> bool {
    exists|outs: Seq<Option<B>>|
        r == somes(outs) && outs.len() == items.len() && (forall|i: int|
            0 <= i < items.len() ==> #[trigger] f.ensures((&items[i],), outs[i]))
}

/// `items.par_iter().filter_map(f).collect()` (rayon): the `Some` results
/// of `f` on every item, in the items' order (rayon's list collector joins
/// left before right).
#[verifier::external_body]
pub(crate) fn par_filter_map<A, B, F>(items: &Vec<A>, f: F) -> (r: Vec<B>) where
    A: Sync,
    B: Send,
    F: Fn(&A) -> Option<B> + Sync + Send,

    requires
        forall|i: int| 0 <= i < items@.len() ==> #[trigger] f.requires((&items@[i],)),
    ensures
        is_filter_map(items@, f, r@),
{
    items.par_iter().filter_map(f).collect()
}

/// The `p`-th piece when `items` is cut into consecutive pieces of
/// `chunk_size` (the last one possibly shorter).
pub open spec fn piece_of<A>(items: Seq<A>, chunk_size: int, p: int) -> Seq<A> {
    let lo = p * chunk_size;
    let hi = if (p + 1) * chunk_size <= items.len() {
        (p + 1) * chunk_size
    } else {
        items.len() as int
    };
    items.subrange(lo, hi)
}

/// The number of pieces of `chunk_size` that `items` is cut into.
pub open spec fn piece_count(len: int, chunk_size: int) -> int {
    (len + chunk_size - 1) / chunk_size
}

/// `items.par_chunks(chunk_size).map(f).collect()` (rayon): `f` applied to
/// the consecutive pieces of `chunk_size` items (the last one possibly
/// shorter), results in the pieces' order. rayon panics on a zero
/// `chunk_size`.
#[verifier::external_body]
pub(crate) fn par_map_pieces<A: Sync, B: Send, F: Fn(&[A]) -> B + Sync + Send>(
    items: &Vec<A>,
    chunk_size: usize,
    f: F,
) -> (r: Vec<B>)
    requires
        chunk_size > 0,
        forall|s: &[A]|
            (forall|x: A| #[trigger] s@.contains(x) ==> items@.contains(x)) ==> #[trigger] f.requires((s,)),
    ensures
        r@.len() == piece_count(items@.len() as int, chunk_size as int),
        forall|p: int|
            #![trigger r@[p]]
            0 <= p < r@.len() ==> exists|s: &[A]|
                s@ == piece_of(items@, chunk_size as int, p) && #[trigger] f.ensures((s,), r@[p]),
{
    items.par_chunks(chunk_size).map(f).collect()
}

/// `v.par_sort_unstable()` (rayon): `v` reordered into ascending
/// lexicographic order.
#[verifier::external_body]
pub(crate) fn par_sort_pairs(v: &mut Vec<(u32, u32)>)
    ensures
        sorted_pairs(final(v)@),
        final(v)@.to_multiset() == old(v)@.to_multiset(),
{
    v.par_sort_unstable();
}

/// `v.par_sort_unstable()` (rayon): `v` reordered into ascending
/// lexicographic order.
#[verifier::external_body]
pub(crate) fn par_sort_triples(v: &mut Vec<(u32, u32, u32)>)
    ensures
        sorted_triples(final(v)@),
        final(v)@.to_multiset() == old(v)@.to_multiset(),
{
    v.par_sort_unstable();
}

/// `v.sort_unstable()` (std): `v` reordered into ascending lexicographic
/// order.
#[verifier::external_body]
pub(crate) fn sort_pairs(v: &mut Vec<(u32, u32)>)
    ensures
        sorted_pairs(final(v)@),
        final(v)@.to_multiset() == old(v)@.to_multiset(),
{
    v.sort_unstable();
}

/// `v.sort_unstable()` (std): `v` reordered into ascending lexicographic
/// order.
#[verifier::external_body]
pub(crate) fn sort_triples(v: &mut Vec<(u32, u32, u32)>)
    ensures
        sorted_triples(final(v)@),
        final(v)@.to_multiset() == old(v)@.to_multiset(),
{
    v.sort_unstable();
}

/// `order.sort_unstable_by_key(|r| gram_key(keys, *r))` (std): `order`
/// reordered so that the keys `keys[r]` of its entries ascend.
#[verifier::external_body]
pub(crate) fn sort_by_key_of(order: &mut Vec<u32>, keys: &Vec<u32>)
    requires
        forall|x: int| 0 <= x < old(order)@.len() ==> (#[trigger] old(order)@[x] as int) < keys@.len(),
    ensures
        final(order)@.to_multiset() == old(order)@.to_multiset(),
        forall|a: int, b: int|
            0 <= a < b < final(order)@.len() ==> keys@[#[trigger] final(order)@[a] as int]
                <= keys@[#[trigger] final(order)@[b] as int],
{
    order.sort_unstable_by_key(|r: &u32| gram_key(keys, *r));
}

/// `s.partition_point(|x| is_below(*x, bound))` (std): for an ascending
/// `s`, which the predicate `x < bound` partitions, the index of the first
/// entry that is not below `bound`.
#[verifier::external_body]
pub(crate) fn partition_below(s: &Vec<u32>, bound: u32) -> (r: usize)
    requires
        forall|a: int, b: int| 0 <= a < b < s@.len() ==> #[trigger] s@[a] <= #[trigger] s@[b],
    ensures
        r <= s@.len(),
        forall|x: int| 0 <= x < r ==> #[trigger] s@[x] < bound,
        forall|x: int| r <= x < s@.len() ==> #[trigger] s@[x] >= bound,
{
    s.partition_point(|x: &u32| is_below(*x, bound))
}

/// `v.sort_unstable()` (std): `v` reordered into ascending order.
#[verifier::external_body]
pub(crate) fn sort_u64s(v: &mut Vec<u64>)
    ensures
        forall|a: int, b: int| 0 <= a < b < final(v)@.len() ==> #[trigger] final(v)@[a] <= #[trigger] final(v)@[b],
        final(v)@.to_multiset() == old(v)@.to_multiset(),
{
    v.sort_unstable();
}

} // verus!
