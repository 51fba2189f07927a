//! Recency order and reference counts of allocation ids, kept in an
//! `lru::LruCache`.
use vstd::prelude::*;
use lru::LruCache;
use std::collections::hash_map::RandomState;

verus! {

#[verifier::external_type_specification]
#[verifier::external_body]
#[verifier::reject_recursive_types(K)]
#[verifier::reject_recursive_types(V)]
#[verifier::reject_recursive_types(S)]
pub struct ExLruCache<K, V, S>(LruCache<K, V, S>);

/// An LRU cache from allocation id to reference count, hashed by std's
/// `RandomState`.
pub type Recency = LruCache<usize, usize, RandomState>;

/// The cache's entries, from the least recently used to the most recently
/// used.
pub uninterp spec fn lru_entries(c: Recency) -> Seq<(usize, usize)>;

/// The capacity the cache was made with.
pub uninterp spec fn lru_cap(c: Recency) -> nat;

/// No key occurs twice.
pub open spec fn keys_unique(s: Seq<(usize, usize)>) -> bool {
    forall|i: int, j: int| 0 <= i < s.len() && 0 <= j < s.len() && i != j ==> s[i].0 != s[j].0
}

/// Some entry has key `k`.
pub open spec fn has_key(s: Seq<(usize, usize)>, k: usize) -> bool {
    exists|i: int| 0 <= i < s.len() && s[i].0 == k
}

/// Relies on `LruCache::unbounded_with_hasher`: an empty cache of capacity
/// `usize::MAX`.
#[verifier::external_body]
pub(crate) fn lru_unbounded() -> (r: Recency)
    ensures
        lru_entries(r) == Seq::<(usize, usize)>::empty(),
        lru_cap(r) == usize::MAX,
{
    LruCache::unbounded_with_hasher(RandomState::new())
}

/// Relies on `LruCache::len`: the number of entries.
#[verifier::external_body]
pub(crate) fn lru_len(c: &Recency) -> (r: usize)
    ensures
        r == lru_entries(*c).len(),
{
    c.len()
}

/// Relies on `LruCache::peek_lru`: the least recently used entry, without
/// changing the order.
#[verifier::external_body]
pub(crate) fn lru_peek_lru(c: &Recency) -> (r: Option<(usize, usize)>)
    ensures
        lru_entries(*c).len() == 0 ==> r is None,
        lru_entries(*c).len() > 0 ==> r == Some(lru_entries(*c)[0]),
{
    c.peek_lru().map(|(k, v)| (*k, *v))
}

/// Relies on `LruCache::promote`: the entry with key `k`, if any, becomes the
/// most recently used.
#[verifier::external_body]
pub(crate) fn lru_promote(c: &mut Recency, k: usize)
    requires
        keys_unique(lru_entries(*old(c))),
    ensures
        keys_unique(lru_entries(*final(c))),
        lru_cap(*final(c)) == lru_cap(*old(c)),
        forall|i: int|
            0 <= i < lru_entries(*old(c)).len() && (#[trigger] lru_entries(*old(c))[i]).0 == k
                ==> lru_entries(*final(c)) == lru_entries(*old(c)).remove(i).push(
                lru_entries(*old(c))[i],
            ),
        !has_key(lru_entries(*old(c)), k) ==> lru_entries(*final(c)) == lru_entries(*old(c)),
{
    c.promote(&k)
}

/// Relies on `LruCache::pop`: removes the entry with key `k` and returns its
/// value, or returns `None` when there is none.
#[verifier::external_body]
pub(crate) fn lru_pop(c: &mut Recency, k: usize) -> (r: Option<usize>)
    requires
        keys_unique(lru_entries(*old(c))),
    ensures
        keys_unique(lru_entries(*final(c))),
        lru_cap(*final(c)) == lru_cap(*old(c)),
        forall|i: int|
            0 <= i < lru_entries(*old(c)).len() && (#[trigger] lru_entries(*old(c))[i]).0 == k
                ==> r == Some(lru_entries(*old(c))[i].1) && lru_entries(*final(c)) == lru_entries(
                *old(c),
            ).remove(i),
        !has_key(lru_entries(*old(c)), k) ==> r is None && lru_entries(*final(c))
            == lru_entries(*old(c)),
{
    c.pop(&k)
}

/// Relies on `LruCache::push`: `(k, v)` becomes the most recently used
/// entry. An entry with key `k` already there is replaced and returned; else,
/// in a full cache, the least recently used entry is evicted and returned.
#[verifier::external_body]
pub(crate) fn lru_push(c: &mut Recency, k: usize, v: usize) -> (r: Option<(usize, usize)>)
    requires
        keys_unique(lru_entries(*old(c))),
        lru_entries(*old(c)).len() <= lru_cap(*old(c)),
    ensures
        keys_unique(lru_entries(*final(c))),
        lru_cap(*final(c)) == lru_cap(*old(c)),
        forall|i: int|
            0 <= i < lru_entries(*old(c)).len() && (#[trigger] lru_entries(*old(c))[i]).0 == k
                ==> r == Some((k, lru_entries(*old(c))[i].1)) && lru_entries(*final(c))
                == lru_entries(*old(c)).remove(i).push((k, v)),
        !has_key(lru_entries(*old(c)), k) && lru_entries(*old(c)).len() < lru_cap(*old(c))
            ==> r is None && lru_entries(*final(c)) == lru_entries(*old(c)).push((k, v)),
        !has_key(lru_entries(*old(c)), k) && lru_entries(*old(c)).len() == lru_cap(*old(c))
            ==> r == Some(lru_entries(*old(c))[0]) && lru_entries(*final(c)) == lru_entries(
            *old(c),
        ).drop_first().push((k, v)),
{
    c.push(k, v)
}

/// Relies on `LruCache::clear`: every entry goes.
#[verifier::external_body]
pub(crate) fn lru_clear(c: &mut Recency)
    ensures
        lru_entries(*final(c)) == Seq::<(usize, usize)>::empty(),
        lru_cap(*final(c)) == lru_cap(*old(c)),
{
    c.clear()
}

} // verus!
