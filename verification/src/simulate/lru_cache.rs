//! The least-recently-used map of the `lru` crate, as the TLB and the data
//! caches use it: keys and values are 64-bit words.
use vstd::prelude::*;
use lru::LruCache;
use std::num::NonZeroUsize;

verus! {

/// An `lru::LruCache<u64, u64>`.  Its hasher type is not one Verus can be
/// told about, so the map is held in an opaque field.
#[verifier::external_body]
pub struct LruMap {
    inner: LruCache<u64, u64>,
}

/// The entries of an LRU map, least recently used first.
pub uninterp spec fn lru_entries(c: LruMap) -> Seq<(u64, u64)>;

/// The most entries an LRU map holds.
pub uninterp spec fn lru_capacity(c: LruMap) -> nat;

/// No key occurs twice.
pub open spec fn keys_distinct(s: Seq<(u64, u64)>) -> bool {
    forall|i: int, j: int| 0 <= i < j < s.len() ==> #[trigger] s[i].0 != #[trigger] s[j].0
}

/// The position of key `k`, if it is present.
pub open spec fn key_position(s: Seq<(u64, u64)>, k: u64) -> Option<int> {
    if exists|i: int| 0 <= i < s.len() && (#[trigger] s[i]).0 == k {
        Some(choose|i: int| 0 <= i < s.len() && (#[trigger] s[i]).0 == k)
    } else {
        None
    }
}

/// An LRU map that holds distinct keys, no more than its capacity.
pub open spec fn lru_wf(c: LruMap) -> bool {
    &&& keys_distinct(lru_entries(c))
    &&& lru_entries(c).len() <= lru_capacity(c)
    &&& lru_capacity(c) >= 1
}

/// The entries after looking up `k`: a present key becomes the most
/// recently used.
pub open spec fn after_get(s: Seq<(u64, u64)>, k: u64) -> Seq<(u64, u64)> {
    match key_position(s, k) {
        Some(i) => s.remove(i).push(s[i]),
        None => s,
    }
}

/// The entries after putting `(k, v)` with capacity `cap`: a present key is
/// updated and becomes the most recently used; otherwise the new entry is
/// the most recently used, and a full map first evicts its least recently
/// used entry.
pub open spec fn after_put(s: Seq<(u64, u64)>, cap: nat, k: u64, v: u64) -> Seq<(u64, u64)> {
    match key_position(s, k) {
        Some(i) => s.remove(i).push((k, v)),
        None => if s.len() >= cap {
            s.drop_first().push((k, v))
        } else {
            s.push((k, v))
        },
    }
}

/// `LruCache::new(NonZeroUsize::new(cap).unwrap())`: an empty map that
/// holds at most `cap` entries.
#[verifier::external_body]
pub(crate) fn lru_new(cap: usize) -> (r: LruMap)
    requires
        cap > 0,
    ensures
        lru_entries(r) == Seq::<(u64, u64)>::empty(),
        lru_capacity(r) == cap,
{
    LruMap { inner: LruCache::new(NonZeroUsize::new(cap).unwrap()) }
}

/// `LruCache::get`: the value of `k`, if present; the source moves a found
/// entry to the most recently used position.
#[verifier::external_body]
pub(crate) fn lru_get(c: &mut LruMap, k: u64) -> (r: Option<u64>)
    requires
        lru_wf(*old(c)),
    ensures
        lru_wf(*final(c)),
        lru_capacity(*final(c)) == lru_capacity(*old(c)),
        lru_entries(*final(c)) == after_get(lru_entries(*old(c)), k),
        r == match key_position(lru_entries(*old(c)), k) {
            Some(i) => Some(lru_entries(*old(c))[i].1),
            None => None::<u64>,
        },
{
    c.inner.get(&k).copied()
}

/// `LruCache::contains`: whether `k` is present; the source only looks the
/// key up in its map, so the order of the entries does not change.
#[verifier::external_body]
pub(crate) fn lru_contains(c: &LruMap, k: u64) -> (r: bool)
    ensures
        r == (key_position(lru_entries(*c), k) is Some),
{
    c.inner.contains(&k)
}

/// `LruCache::put`: stores `(k, v)`, as `after_put` describes.
#[verifier::external_body]
pub(crate) fn lru_put(c: &mut LruMap, k: u64, v: u64)
    requires
        lru_wf(*old(c)),
    ensures
        lru_wf(*final(c)),
        lru_capacity(*final(c)) == lru_capacity(*old(c)),
        lru_entries(*final(c)) == after_put(lru_entries(*old(c)), lru_capacity(*old(c)), k, v),
{
    c.inner.put(k, v);
}

} // verus!
