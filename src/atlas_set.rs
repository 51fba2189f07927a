//! The set of atlas layers: which image lives where, in which order images
//! were last used, and which of them may give their space away.
use vstd::prelude::*;
use std::collections::HashSet;
use crate::allocation::Allocation;
use crate::allocator::Allocator;
use crate::atlas::Atlas;
use crate::rect::Rect;
use crate::recency::{
    has_key, keys_unique, lru_clear, lru_cap, lru_entries, lru_len, lru_peek_lru, lru_pop,
    lru_promote, lru_push, lru_unbounded, Recency,
};
use crate::store::{
    slab_clear, slab_contains, slab_entries, slab_get, slab_insert, slab_next, slab_ok, slab_remove,
    slab_slots, slab_with_capacity, Entry, EntrySlab,
};

verus! {

broadcast use vstd::std_specs::hash::group_hash_axioms;

/// Deallocations allowed in a layer before moving its images is considered.
pub const DEALLOCATIONS_LIMIT: usize = 32;

/// Empty layers kept before one is unloaded.
pub const LAYER_FREE_LIMIT: usize = 3;

/// The smallest side a layer is given.
pub const MIN_SIZE: u32 = 256;

/// A key with the id of its allocation.
pub type KeyId = (String, usize);

/// The layers of one texture array and the allocations placed in them.
///
/// Each live allocation has a stable id (a slot of the store) and a unique
/// key. Ids run from the least to the most recently used in an LRU order,
/// which also holds each id's reference count. In reference-counted mode an
/// allocation goes only when its count drops to zero; otherwise, when no
/// layer has room, allocations unused since the last `trim` are evicted in
/// LRU order.
///
/// An id is reused once its allocation is removed: an id kept across a
/// removal must be checked with `contains` before use.
pub struct AtlasSet {
    layers: Vec<Atlas>,
    size: u32,
    store: EntrySlab,
    // A `Vec` searched by key, not a `HashMap`: vstd models hash map lookups
    // only for key types it knows to hash consistently, which `String` is
    // not among, so lookups through a `HashMap<String, usize>` could not be
    // proved. Keys are kept unique by the invariant.
    lookup: Vec<KeyId>,
    cache: Recency,
    last_used: HashSet<usize>,
    max_layers: usize,
    deallocations_limit: usize,
    layer_check_limit: usize,
    layer_free_limit: usize,
    use_ref_count: bool,
    keys: Ghost<Map<Seq<char>, usize>>,
}

/// What an upload did: the id and allocation of the key, whether they were
/// made by this call (and the image must be written), and how many layers
/// were added to the texture array (which must grow by as many).
#[derive(Clone, Copy, Debug, PartialEq, Eq, Structural)]
pub struct Placement {
    pub id: usize,
    pub allocation: Allocation,
    pub fresh: bool,
    pub grow_by: usize,
}

/// How to grow the texture array: its new layer count, and how many of the
/// old layers (the first ones) to copy into it.
#[derive(Clone, Copy, Debug, PartialEq, Eq, Structural)]
pub struct GrowPlan {
    pub layer_count: u32,
    pub copy_layers: u32,
}

/// `v` clamped into `[lo, hi]`.
pub open spec fn clamp_spec(v: u32, lo: u32, hi: u32) -> u32 {
    if v < lo {
        lo
    } else if v > hi {
        hi
    } else {
        v
    }
}

/// The lookup table lists each live key once, with its id, and agrees with
/// the store in both directions.
spec fn keys_ok(
    lookup: Seq<KeyId>,
    keys: Map<Seq<char>, usize>,
    entries: Map<usize, Entry>,
) -> bool {
    &&& forall|i: int, j: int|
        0 <= i < lookup.len() && 0 <= j < lookup.len() && i != j ==> (
        #[trigger] lookup[i]).0@ != (#[trigger] lookup[j]).0@
    &&& forall|i: int|
        0 <= i < lookup.len() ==> keys.contains_key((#[trigger] lookup[i]).0@)
            && keys[lookup[i].0@] == lookup[i].1
    &&& forall|k: Seq<char>|
        #[trigger] keys.contains_key(k) ==> exists|i: int|
            0 <= i < lookup.len() && (#[trigger] lookup[i]).0@ == k
    &&& forall|k: Seq<char>|
        #[trigger] keys.contains_key(k) ==> entries.contains_key(
            keys[k],
        ) && entries[keys[k]].1@ == k
    &&& forall|id: usize|
        #[trigger] entries.contains_key(id) ==> keys.contains_key(
            entries[id].1@,
        ) && keys[entries[id].1@] == id
}

/// Every live id stands once in the recency order with a count of at least
/// one, and nothing else does; ids marked used are live.
spec fn cache_ok(recency: Seq<(usize, usize)>, entries: Map<usize, Entry>, used: Set<usize>) -> bool {
    &&& keys_unique(recency)
    &&& forall|i: int|
        0 <= i < recency.len() ==> entries.contains_key((#[trigger] recency[i]).0) && recency[i].1
            >= 1
    &&& forall|id: usize| #[trigger] entries.contains_key(id) ==> has_key(recency, id)
    &&& forall|id: usize| #[trigger] used.contains(id) ==> entries.contains_key(id)
}

/// Bytes in one row of an image `width` texels wide, with four bytes a
/// texel or one; `None` when that does not fit in a `u32`.
pub fn texture_row_bytes(four_bytes_per_texel: bool, width: u32) -> (r: Option<u32>)
    ensures
        four_bytes_per_texel && 4 * width <= u32::MAX ==> r == Some((4 * width) as u32),
        four_bytes_per_texel && 4 * width > u32::MAX ==> r is None,
        !four_bytes_per_texel ==> r == Some(width),
{
    if four_bytes_per_texel {
        width.checked_mul(4)
    } else {
        Some(width)
    }
}

/// `c + 1`, or `c` at the largest count.
pub open spec fn count_up(c: usize) -> usize {
    if c < usize::MAX {
        (c + 1) as usize
    } else {
        c
    }
}

proof fn lemma_keys_ok_insert(
    lookup: Seq<KeyId>,
    keys: Map<Seq<char>, usize>,
    entries: Map<usize, Entry>,
    key: String,
    id: usize,
    a: Allocation,
)
    requires
        keys_ok(lookup, keys, entries),
        !keys.contains_key(key@),
        !entries.contains_key(id),
    ensures
        keys_ok(lookup.push((key, id)), keys.insert(key@, id), entries.insert(id, (a, key))),
{
    let l2 = lookup.push((key, id));
    let k2 = keys.insert(key@, id);
    let e2 = entries.insert(id, (a, key));
    assert forall|i: int, j: int| 0 <= i < l2.len() && 0 <= j < l2.len() && i != j implies (
        #[trigger] l2[i]).0@ != (#[trigger] l2[j]).0@ by {
        if i == lookup.len() {
            assert(keys.contains_key(l2[j].0@));
        } else if j == lookup.len() {
            assert(keys.contains_key(l2[i].0@));
        }
    }
    assert forall|i: int| 0 <= i < l2.len() implies k2.contains_key((#[trigger] l2[i]).0@)
        && k2[l2[i].0@] == l2[i].1 by {
        if i < lookup.len() {
            assert(l2[i] == lookup[i]);
            assert(keys.contains_key(lookup[i].0@));
        }
    }
    assert forall|k: Seq<char>| #[trigger] k2.contains_key(k) implies exists|i: int|
        0 <= i < l2.len() && (#[trigger] l2[i]).0@ == k by {
        if k == key@ {
            assert(l2[lookup.len() as int].0@ == k);
        } else {
            let i = choose|i: int| 0 <= i < lookup.len() && (#[trigger] lookup[i]).0@ == k;
            assert(l2[i] == lookup[i]);
        }
    }
    assert forall|k: Seq<char>| #[trigger] k2.contains_key(k) implies e2.contains_key(k2[k])
        && e2[k2[k]].1@ == k by {
        if k != key@ {
            assert(entries.contains_key(keys[k]));
        }
    }
    assert forall|x: usize| #[trigger] e2.contains_key(x) implies k2.contains_key(e2[x].1@)
        && k2[e2[x].1@] == x by {
        if x != id {
            assert(entries.contains_key(x));
            assert(keys.contains_key(entries[x].1@));
        }
    }
}

proof fn lemma_cache_ok_insert(
    recency: Seq<(usize, usize)>,
    entries: Map<usize, Entry>,
    used: Set<usize>,
    id: usize,
    e: Entry,
)
    requires
        cache_ok(recency, entries, used),
        !entries.contains_key(id),
    ensures
        cache_ok(recency.push((id, 1)), entries.insert(id, e), used),
{
    let r2 = recency.push((id, 1));
    assert forall|a: int, b: int| 0 <= a < r2.len() && 0 <= b < r2.len() && a != b implies r2[a].0
        != r2[b].0 by {
        if a == recency.len() {
            assert(entries.contains_key(r2[b].0));
        } else if b == recency.len() {
            assert(entries.contains_key(r2[a].0));
        }
    }
    assert forall|a: int| 0 <= a < r2.len() implies entries.insert(id, e).contains_key(
        (#[trigger] r2[a]).0,
    ) && r2[a].1 >= 1 by {
        if a < recency.len() {
            assert(r2[a] == recency[a]);
        }
    }
    assert forall|x: usize| #[trigger] entries.insert(id, e).contains_key(x) implies has_key(r2, x) by {
        if x == id {
            assert(r2[recency.len() as int].0 == id);
        } else {
            let j = choose|j: int| 0 <= j < recency.len() && recency[j].0 == x;
            assert(r2[j] == recency[j]);
        }
    }
}

/// The position of `key` in `lookup`, if it is there.
fn key_position(lookup: &Vec<KeyId>, key: &String) -> (r: Option<usize>)
    ensures
        match r {
            Some(i) => i < lookup@.len() && lookup@[i as int].0@ == key@,
            None => forall|k: int| 0 <= k < lookup@.len() ==> (#[trigger] lookup@[k]).0@ != key@,
        },
{
    let mut i: usize = 0;
    while i < lookup.len()
        invariant
            i <= lookup@.len(),
            forall|k: int| 0 <= k < i ==> (#[trigger] lookup@[k]).0@ != key@,
        decreases lookup@.len() - i,
    {
        if lookup[i].0 == *key {
            return Some(i);
        }
        i = i + 1;
    }
    None
}

proof fn lemma_keys_ok_remove(
    lookup: Seq<KeyId>,
    keys: Map<Seq<char>, usize>,
    entries: Map<usize, Entry>,
    p: int,
    id: usize,
)
    requires
        keys_ok(lookup, keys, entries),
        0 <= p < lookup.len(),
        entries.contains_key(id),
        lookup[p].0@ == entries[id].1@,
    ensures
        keys_ok(lookup.remove(p), keys.remove(entries[id].1@), entries.remove(id)),
{
    let key = entries[id].1@;
    let l2 = lookup.remove(p);
    let k2 = keys.remove(key);
    let e2 = entries.remove(id);
    assert forall|k: Seq<char>| #[trigger] k2.contains_key(k) implies exists|i: int|
        0 <= i < l2.len() && (#[trigger] l2[i]).0@ == k by {
        let i = choose|i: int| 0 <= i < lookup.len() && (#[trigger] lookup[i]).0@ == k;
        if i < p {
            assert(l2[i] == lookup[i]);
        } else {
            assert(i != p);
            assert(l2[i - 1] == lookup[i]);
        }
    }
    assert forall|i: int| 0 <= i < l2.len() implies k2.contains_key((#[trigger] l2[i]).0@)
        && k2[l2[i].0@] == l2[i].1 by {
        let o = if i < p { i } else { i + 1 };
        assert(l2[i] == lookup[o]);
    }
    assert forall|k: Seq<char>| #[trigger] k2.contains_key(k) implies e2.contains_key(k2[k])
        && e2[k2[k]].1@ == k by {
        assert(keys[k] != id);
    }
}

proof fn lemma_cache_ok_remove(
    recency: Seq<(usize, usize)>,
    entries: Map<usize, Entry>,
    used: Set<usize>,
    i: int,
    id: usize,
)
    requires
        cache_ok(recency, entries, used),
        0 <= i < recency.len(),
        recency[i].0 == id,
    ensures
        cache_ok(recency.remove(i), entries.remove(id), used.remove(id)),
{
    let r2 = recency.remove(i);
    assert forall|a: int, b: int| 0 <= a < r2.len() && 0 <= b < r2.len() && a != b implies r2[a].0
        != r2[b].0 by {
        let oa = if a < i { a } else { a + 1 };
        let ob = if b < i { b } else { b + 1 };
        assert(r2[a] == recency[oa] && r2[b] == recency[ob]);
    }
    assert forall|a: int| 0 <= a < r2.len() implies entries.remove(id).contains_key(
        (#[trigger] r2[a]).0,
    ) && r2[a].1 >= 1 by {
        let oa = if a < i { a } else { a + 1 };
        assert(r2[a] == recency[oa]);
    }
    assert forall|x: usize| #[trigger] entries.remove(id).contains_key(x) implies has_key(r2, x) by {
        let j = choose|j: int| 0 <= j < recency.len() && recency[j].0 == x;
        if j < i {
            assert(r2[j] == recency[j]);
        } else {
            assert(r2[j - 1] == recency[j]);
        }
    }
}

/// After a push of an absent key, the key is there, and the rest stays.
proof fn lemma_cache_ok_repush(
    recency: Seq<(usize, usize)>,
    entries: Map<usize, Entry>,
    used: Set<usize>,
    i: int,
    id: usize,
    count: usize,
)
    requires
        cache_ok(recency, entries, used),
        0 <= i < recency.len(),
        recency[i].0 == id,
        count >= 1,
        keys_unique(recency.remove(i).push((id, count))),
    ensures
        cache_ok(recency.remove(i).push((id, count)), entries, used),
{
    let r2 = recency.remove(i).push((id, count));
    assert forall|a: int| 0 <= a < r2.len() implies entries.contains_key((#[trigger] r2[a]).0)
        && r2[a].1 >= 1 by {
        if a < r2.len() - 1 {
            let oa = if a < i { a } else { a + 1 };
            assert(r2[a] == recency[oa]);
        }
    }
    assert forall|x: usize| #[trigger] entries.contains_key(x) implies has_key(r2, x) by {
        if x == id {
            assert(r2[r2.len() - 1].0 == id);
        } else {
            let j = choose|j: int| 0 <= j < recency.len() && recency[j].0 == x;
            if j < i {
                assert(r2[j] == recency[j]);
            } else {
                assert(j != i);
                assert(r2[j - 1] == recency[j]);
            }
        }
    }
}

proof fn lemma_remove_keeps<T>(s: Seq<T>, k: int, x: T)
    requires
        0 <= k < s.len(),
        s.contains(x),
        s[k] != x,
    ensures
        s.remove(k).contains(x),
{
    let m = choose|m: int| 0 <= m < s.len() && s[m] == x;
    if m < k {
        assert(s.remove(k)[m] == x);
    } else {
        assert(s.remove(k)[m - 1] == x);
    }
}

impl AtlasSet {
    /// Live allocations by id, each with its key.
    pub closed spec fn entries(&self) -> Map<usize, Entry> {
        slab_entries(self.store)
    }

    /// The id of each live key.
    pub closed spec fn key_ids(&self) -> Map<Seq<char>, usize> {
        self.keys@
    }

    /// Live ids with their reference counts, least recently used first.
    pub closed spec fn recency(&self) -> Seq<(usize, usize)> {
        lru_entries(self.cache)
    }

    /// Ids used since the last `trim`.
    pub closed spec fn used(&self) -> Set<usize> {
        self.last_used@
    }

    /// The id the next new allocation receives.
    pub closed spec fn next_id(&self) -> usize {
        slab_next(self.store)
    }

    /// The number of id slots laid out so far, live or free.
    pub closed spec fn id_slots(&self) -> nat {
        slab_slots(self.store)
    }

    pub closed spec fn layer_count(&self) -> nat {
        self.layers@.len()
    }

    /// The allocator of layer `l`.
    pub closed spec fn layer(&self, l: int) -> Allocator {
        self.layers@[l].allocator
    }

    /// The side of every layer.
    pub closed spec fn side(&self) -> u32 {
        self.size
    }

    pub closed spec fn max_layer_count(&self) -> usize {
        self.max_layers
    }

    pub closed spec fn ref_counted(&self) -> bool {
        self.use_ref_count
    }

    /// The set holds no allocation, and ids are handed out from 0 again.
    pub open spec fn is_empty_set(&self) -> bool {
        &&& self.entries().dom().is_empty()
        &&& self.key_ids().dom().is_empty()
        &&& self.recency().len() == 0
        &&& self.used().is_empty()
        &&& self.next_id() == 0
        &&& self.id_slots() == 0
        &&& forall|l: int| 0 <= l < self.layer_count() ==> #[trigger] self.layer(l).rects().len() == 0
    }

    /// Every slot up to `id_slots` is live, so ids are handed out in order.
    pub open spec fn dense(&self) -> bool {
        self.entries().len() == self.id_slots()
    }

    /// `key` is live, under id `id`.
    pub open spec fn has(&self, key: Seq<char>, id: usize) -> bool {
        self.key_ids().contains_key(key) && self.key_ids()[key] == id
    }

    closed spec fn wf_layers(&self) -> bool {
        &&& self.layers@.len() <= u32::MAX
        &&& self.max_layers <= u32::MAX
        &&& self.layers@.len() <= self.max_layers
        &&& self.layer_check_limit == self.max_layers * 4 / 5
        &&& self.deallocations_limit == DEALLOCATIONS_LIMIT
        &&& self.layer_free_limit == LAYER_FREE_LIMIT
        &&& forall|l: int|
            0 <= l < self.layers@.len() ==> {
                &&& (#[trigger] self.layers@[l]).allocator.wf()
                &&& self.layers@[l].allocator.side() == self.size
            }
    }

    closed spec fn wf_keys(&self) -> bool {
        keys_ok(self.lookup@, self.keys@, slab_entries(self.store))
    }

    closed spec fn wf_cache(&self) -> bool {
        &&& cache_ok(lru_entries(self.cache), slab_entries(self.store), self.last_used@)
        &&& lru_cap(self.cache) == usize::MAX
        &&& lru_entries(self.cache).len() <= usize::MAX
    }

    closed spec fn wf_entries(&self) -> bool {
        &&& slab_ok(self.store)
        &&& forall|id: usize| #[trigger]
            slab_entries(self.store).contains_key(id) ==> {
                let a = slab_entries(self.store)[id].0;
                &&& a.layer < self.layers@.len()
                &&& a.allocation.has_area()
                &&& self.layers@[a.layer as int].allocator.rects().contains(a.allocation)
            }
        &&& forall|i: usize, j: usize|
            #[trigger] slab_entries(self.store).contains_key(i) && #[trigger] slab_entries(
                self.store,
            ).contains_key(j) && i != j && slab_entries(self.store)[i].0.layer == slab_entries(
                self.store,
            )[j].0.layer ==> slab_entries(self.store)[i].0.allocation != slab_entries(
                self.store,
            )[j].0.allocation
    }

    /// Size, mode, layer limit and layer count agree.
    pub open spec fn same_config(&self, o: AtlasSet) -> bool {
        &&& self.side() == o.side()
        &&& self.max_layer_count() == o.max_layer_count()
        &&& self.ref_counted() == o.ref_counted()
        &&& self.layer_count() == o.layer_count()
    }

    /// The allocations, keys, used ids, ids handed out and layers agree.
    pub open spec fn same_contents(&self, o: AtlasSet) -> bool {
        &&& self.same_store(o)
        &&& self.used() == o.used()
    }

    /// The allocations, keys, ids handed out and layers agree.
    pub open spec fn same_store(&self, o: AtlasSet) -> bool {
        &&& self.entries() == o.entries()
        &&& self.key_ids() == o.key_ids()
        &&& self.next_id() == o.next_id()
        &&& self.id_slots() == o.id_slots()
        &&& forall|l: int| 0 <= l < o.layer_count() ==> #[trigger] self.layer(l) == o.layer(l)
    }

    /// `after` is `self` with the live allocation `id`, which stands at `i`
    /// in the recency order, taken out: its key is gone, `id` is the next id
    /// handed out, and its rectangle is free again in its layer, where any
    /// request no larger than it now fits at its corner.
    pub open spec fn removed(&self, after: AtlasSet, id: usize, i: int) -> bool {
        let (a, key) = self.entries()[id];
        let l = a.layer as int;
        let rect = a.allocation;
        &&& after.entries() == self.entries().remove(id)
        &&& after.key_ids() == self.key_ids().remove(key@)
        &&& after.recency() == self.recency().remove(i)
        &&& after.used() == self.used().remove(id)
        &&& after.next_id() == id
        &&& after.id_slots() == self.id_slots()
        &&& forall|m: int| 0 <= m < self.layer_count() && m != l ==> #[trigger] after.layer(m) == self.layer(m)
        &&& exists|k: int|
            0 <= k < self.layer(l).rects().len() && self.layer(l).rects()[k] == rect
                && after.layer(l).rects() == self.layer(l).rects().remove(k)
        &&& after.layer(l).holes().contains(rect)
        &&& forall|w: u32, h: u32|
            0 < w <= rect.width && 0 < h <= rect.height ==> after.layer(l).fits(
                #[trigger] Rect::at(rect.x, rect.y, w, h),
            )
    }

    /// The ids of the `k` least recently used entries.
    pub open spec fn front_ids(&self, k: int) -> Set<usize> {
        Set::new(|id: usize| exists|j: int| 0 <= j < k && self.recency()[j].0 == id)
    }

    /// `after` is `self` less its `k` least recently used allocations, all
    /// unused since the last `trim`, evicted in that order; only a set that is
    /// not reference-counted evicts.
    pub open spec fn evicted_front(&self, after: AtlasSet, k: int) -> bool {
        &&& 0 <= k <= self.recency().len()
        &&& k > 0 ==> !self.ref_counted()
        &&& forall|j: int| 0 <= j < k ==> !self.used().contains(#[trigger] self.recency()[j].0)
        &&& after.recency() == self.recency().subrange(k, self.recency().len() as int)
        &&& after.entries() == self.entries().remove_keys(self.front_ids(k))
    }

    /// Where a fresh `width` by `height` allocation `a` went, after evicting
    /// the `k` least recently used allocations, into `after`: into the first
    /// layer with room if there is one, without eviction or a new layer;
    /// evictions come only when no layer has room; a layer is added only
    /// below the limit, when no layer has room and no unused allocation is
    /// left at the front of the recency order.
    pub open spec fn placed_first_fit(&self, after: AtlasSet, width: u32, height: u32, a: Allocation, k: int) -> bool {
        &&& forall|l: int|
            0 <= l < self.layer_count() && !#[trigger] self.layer(l).no_room(width, height) ==> {
                &&& k == 0
                &&& after.layer_count() == self.layer_count()
                &&& a.layer <= l
                &&& !self.layer(a.layer as int).no_room(width, height)
                &&& forall|m: int| 0 <= m < a.layer ==> #[trigger] self.layer(m).no_room(width, height)
                &&& self.layer(a.layer as int).first_fit(a.allocation, width, height)
                &&& after.layer(a.layer as int).rects() == self.layer(a.layer as int).rects().push(a.allocation)
                &&& forall|m: int| 0 <= m < self.layer_count() && m != a.layer ==> #[trigger] after.layer(m) == self.layer(m)
            }
        &&& k > 0 ==> forall|l: int| 0 <= l < self.layer_count() ==> #[trigger] self.layer(l).no_room(width, height)
        &&& k == 0 && after.layer_count() == self.layer_count() ==> {
            &&& a.layer < self.layer_count()
            &&& !self.layer(a.layer as int).no_room(width, height)
            &&& forall|m: int| 0 <= m < a.layer ==> #[trigger] self.layer(m).no_room(width, height)
            &&& self.layer(a.layer as int).first_fit(a.allocation, width, height)
            &&& after.layer(a.layer as int).rects() == self.layer(a.layer as int).rects().push(a.allocation)
        }
        &&& after.layer_count() != self.layer_count() ==> {
            &&& after.layer_count() == self.layer_count() + 1
            &&& a.layer == self.layer_count()
            &&& a.allocation == Rect::at(0, 0, width, height)
            &&& self.layer_count() + 1 < self.max_layer_count()
            &&& forall|l: int| 0 <= l < self.layer_count() ==> #[trigger] self.layer(l).no_room(width, height)
            &&& self.ref_counted() || k == self.recency().len() || self.used().contains(self.recency()[k].0)
        }
    }

    /// What `remove` does to the live id `id`: in reference-counted mode,
    /// while its count is above one, the count drops by one and the id moves
    /// to the most recently used end; else the allocation is taken out and
    /// its layer returned.
    pub open spec fn remove_outcome(&self, after: AtlasSet, id: usize, r: Option<usize>) -> bool {
        &&& keys_unique(self.recency())
        &&& has_key(self.recency(), id)
        &&& forall|i: int|
            0 <= i < self.recency().len() && (#[trigger] self.recency()[i]).0 == id ==> if self.ref_counted()
                && self.recency()[i].1 > 1 {
                &&& r is None
                &&& after.recency() == self.recency().remove(i).push(
                    (id, (self.recency()[i].1 - 1) as usize),
                )
                &&& after.same_contents(*self)
            } else {
                self.removed(after, id, i) && r == Some(self.entries()[id].0.layer)
            }
    }

    /// `after` is `self` with the live id `id`, which stands at `i` in the
    /// recency order, moved to the most recently used end and marked used.
    pub open spec fn promoted(&self, after: AtlasSet, id: usize) -> bool {
        &&& keys_unique(self.recency())
        &&& has_key(self.recency(), id)
        &&& forall|i: int|
            0 <= i < self.recency().len() && (#[trigger] self.recency()[i]).0 == id
                ==> after.recency() == self.recency().remove(i).push(self.recency()[i])
        &&& after.used() == self.used().insert(id)
        &&& after.same_store(*self)
    }

    /// Every allocation that `self` has and `after` lacks was evicted: the
    /// set is not reference-counted and the allocation was not used since the
    /// last `trim`. What stays is unchanged, and nothing is added.
    pub open spec fn evicted_only(&self, after: AtlasSet) -> bool {
        &&& forall|id: usize| #[trigger]
            after.entries().contains_key(id) ==> self.entries().contains_key(id)
                && after.entries()[id] == self.entries()[id]
        &&& forall|id: usize| #[trigger]
            self.entries().contains_key(id) && !after.entries().contains_key(id) ==> !self.ref_counted()
                && !self.used().contains(id)
        &&& forall|k: Seq<char>| #[trigger]
            after.key_ids().contains_key(k) ==> self.key_ids().contains_key(k)
                && after.key_ids()[k] == self.key_ids()[k]
        &&& after.used() == self.used()
        &&& after.entries().dom() == self.entries().dom() ==> after.next_id() == self.next_id()
            && after.id_slots() == self.id_slots()
    }

    /// No layer has room for a `width` by `height` image where the layer
    /// allocators look, and no more layer may be added.
    pub open spec fn full(&self, width: u32, height: u32) -> bool {
        &&& self.layer_count() + 1 >= self.max_layer_count()
        &&& forall|l: int| 0 <= l < self.layer_count() ==> #[trigger] self.layer(l).no_room(width, height)
        &&& !self.ref_counted() ==> self.recency().len() == 0 || self.used().contains(self.recency()[0].0)
    }

    /// The image cannot go in any layer: it is empty, or larger than a layer.
    pub open spec fn unplaceable(&self, width: u32, height: u32) -> bool {
        width == 0 || height == 0 || width > self.side() || height > self.side()
    }

    /// What `place` does for `key`. A live key keeps its id and allocation;
    /// in reference-counted mode its count goes up by one and it becomes the
    /// most recently used. A new key gets a fresh allocation of the size
    /// asked for, possibly after evictions and the addition of one layer, and
    /// the id that the store hands out next (the old `next_id` when nothing
    /// was evicted). Failure leaves the key absent and comes only for an
    /// empty or too large image, when the set is full, or when the recency
    /// order holds `usize::MAX` ids.
    pub open spec fn place_outcome(
        &self,
        after: AtlasSet,
        key: String,
        width: u32,
        height: u32,
        data: i32,
        r: Option<Placement>,
    ) -> bool {
        &&& after.side() == self.side()
        &&& after.max_layer_count() == self.max_layer_count()
        &&& after.ref_counted() == self.ref_counted()
        &&& if self.key_ids().contains_key(key@) {
            let id = self.key_ids()[key@];
            &&& r == Some(
                Placement { id, allocation: self.entries()[id].0, fresh: false, grow_by: 0 },
            )
            &&& after.same_contents(*self)
            &&& after.layer_count() == self.layer_count()
            &&& !self.ref_counted() ==> after.recency() == self.recency()
            &&& self.ref_counted() ==> forall|i: int|
                0 <= i < self.recency().len() && (#[trigger] self.recency()[i]).0 == id
                    ==> after.recency() == self.recency().remove(i).push(
                    (id, count_up(self.recency()[i].1)),
                )
        } else {
            &&& self.unplaceable(width, height) ==> r is None && after == *self
            &&& !self.unplaceable(width, height) && self.layer_count() + 1 < self.max_layer_count()
                && self.recency().len() < usize::MAX ==> r is Some
            &&& match r {
                Some(p) => {
                    let a = p.allocation;
                    &&& p.fresh
                    &&& a.allocation.width == width
                    &&& a.allocation.height == height
                    &&& a.data == data
                    &&& a.layer < after.layer_count()
                    &&& after.layer(a.layer as int).rects().contains(a.allocation)
                    &&& after.entries().contains_key(p.id)
                    &&& after.entries()[p.id] == (a, key)
                    &&& after.has(key@, p.id)
                    &&& after.recency().len() > 0
                    &&& after.recency().last() == (p.id, 1usize)
                    &&& after.used() == self.used()
                    &&& p.grow_by == after.layer_count() - self.layer_count()
                    &&& p.grow_by <= 1
                    &&& p.grow_by == 1 ==> a.layer == self.layer_count()
                    &&& p.grow_by == 1 ==> self.layer_count() + 1 < self.max_layer_count()
                    &&& exists|k: int| {
                        &&& 0 <= k <= self.recency().len()
                        &&& k > 0 ==> !self.ref_counted()
                        &&& forall|j: int| 0 <= j < k ==> !self.used().contains(#[trigger] self.recency()[j].0)
                        &&& after.recency() == self.recency().subrange(k, self.recency().len() as int).push((p.id, 1usize))
                        &&& after.entries() == self.entries().remove_keys(self.front_ids(k)).insert(p.id, (a, key))
                        &&& self.placed_first_fit(after, width, height, a, k)
                        &&& k == 0 ==> p.id == self.next_id()
                    }
                    &&& forall|j: usize| #[trigger]
                        after.entries().contains_key(j) && j != p.id ==> self.entries().contains_key(j)
                            && after.entries()[j] == self.entries()[j]
                    &&& forall|j: usize| #[trigger]
                        self.entries().contains_key(j) && (j == p.id || !after.entries().contains_key(j))
                            ==> !self.ref_counted() && !self.used().contains(j)
                    &&& forall|k: Seq<char>| #[trigger]
                        after.key_ids().contains_key(k) && k != key@ ==> self.key_ids().contains_key(k)
                            && after.key_ids()[k] == self.key_ids()[k]
                    &&& (forall|j: usize| #[trigger] self.entries().contains_key(j)
                        ==> after.entries().contains_key(j) && after.entries()[j] == self.entries()[j])
                        ==> p.id == self.next_id() && (self.dense() ==> after.dense()
                        && p.id == self.entries().len())
                },
                None => {
                    &&& !after.key_ids().contains_key(key@)
                    &&& self.evicted_only(after)
                    &&& !self.unplaceable(width, height) && self.recency().len() < usize::MAX ==> forall|l: int|
                        0 <= l < self.layer_count() ==> #[trigger] self.layer(l).no_room(width, height)
                    &&& self.unplaceable(width, height) || after.full(width, height)
                        || self.recency().len() == usize::MAX
                },
            }
        }
    }

    /// The set's internal invariant.
    pub closed spec fn wf(&self) -> bool {
        &&& self.wf_layers()
        &&& self.wf_keys()
        &&& self.wf_cache()
        &&& self.wf_entries()
    }

    /// Creates a set of `initial_layers` empty layers of side `size`, clamped
    /// into `[256, max_texture_dimension]`. New layers are added while fewer
    /// than `max_layers - 1` exist.
    pub fn new(
        use_ref_count: bool,
        size: u32,
        max_texture_dimension: u32,
        max_layers: u32,
        initial_layers: u32,
    ) -> (r: AtlasSet)
        requires
            max_texture_dimension >= MIN_SIZE,
            1 <= initial_layers <= max_layers,
        ensures
            r.wf(),
            r.is_empty_set(),
            r.dense(),
            r.side() == clamp_spec(size, MIN_SIZE, max_texture_dimension),
            r.layer_count() == initial_layers,
            forall|l: int| 0 <= l < r.layer_count() ==> {
                &&& (#[trigger] r.layer(l)).wf()
                &&& r.layer(l).side() == r.side()
                &&& r.layer(l).rects() == Seq::<Rect>::empty()
                &&& r.layer(l).holes() == Seq::<Rect>::empty()
            },
            r.max_layer_count() == max_layers,
            r.ref_counted() == use_ref_count,
    {
        let side = if size < MIN_SIZE {
            MIN_SIZE
        } else if size > max_texture_dimension {
            max_texture_dimension
        } else {
            size
        };
        let mut layers: Vec<Atlas> = Vec::new();
        let mut n: u32 = 0;
        while n < initial_layers
            invariant
                n <= initial_layers,
                layers@.len() == n,
                forall|l: int|
                    0 <= l < layers@.len() ==> {
                        &&& (#[trigger] layers@[l]).allocator.wf()
                        &&& layers@[l].allocator.side() == side
                        &&& layers@[l].allocator.rects() == Seq::<Rect>::empty()
                        &&& layers@[l].allocator.holes() == Seq::<Rect>::empty()
                    },
            decreases initial_layers - n,
        {
            layers.push(Atlas::new(side));
            n = n + 1;
        }
        let check_limit = (max_layers as u64 * 4 / 5) as usize;
        let max_layers = max_layers as usize;
        AtlasSet {
            layers,
            size: side,
            store: slab_with_capacity(512),
            lookup: Vec::new(),
            cache: lru_unbounded(),
            last_used: HashSet::new(),
            max_layers,
            deallocations_limit: DEALLOCATIONS_LIMIT,
            layer_check_limit: check_limit,
            layer_free_limit: LAYER_FREE_LIMIT,
            use_ref_count,
            keys: Ghost(Map::empty()),
        }
    }

    /// Deallocations allowed in a layer before moving its images is
    /// considered. Moving images between layers is not done yet.
    pub fn deallocations_limit(&self) -> (r: usize)
        requires
            self.wf(),
        ensures
            r == DEALLOCATIONS_LIMIT,
    {
        self.deallocations_limit
    }

    /// The layer count, 80% of `max_layers`, from which fragmentation is
    /// checked.
    pub fn layer_check_limit(&self) -> (r: usize)
        requires
            self.wf(),
        ensures
            r == self.max_layer_count() * 4 / 5,
    {
        self.layer_check_limit
    }

    /// Empty layers kept before one is unloaded. Unloading layers is not
    /// done yet.
    pub fn layer_free_limit(&self) -> (r: usize)
        requires
            self.wf(),
        ensures
            r == LAYER_FREE_LIMIT,
    {
        self.layer_free_limit
    }

    /// Returns `(width, height, layer count)` of the texture array.
    pub fn size(&self) -> (r: (u32, u32, u32))
        requires
            self.wf(),
        ensures
            r == (self.side(), self.side(), self.layer_count() as u32),
    {
        (self.size, self.size, self.layers.len() as u32)
    }

    /// The position of `key` in the lookup table.
    fn find_key(&self, key: &String) -> (r: Option<usize>)
        requires
            self.wf(),
        ensures
            match r {
                Some(i) => i < self.lookup@.len() && self.lookup@[i as int].0@ == key@
                    && self.key_ids().contains_key(key@) && self.key_ids()[key@]
                    == self.lookup@[i as int].1,
                None => !self.key_ids().contains_key(key@),
            },
    {
        assert(self.wf_keys());
        key_position(&self.lookup, key)
    }

    /// Returns the id of `key`'s allocation, if the key is live.
    pub fn lookup(&self, key: &String) -> (r: Option<usize>)
        requires
            self.wf(),
        ensures
            self.key_ids().contains_key(key@) ==> r == Some(self.key_ids()[key@]),
            !self.key_ids().contains_key(key@) ==> r is None,
    {
        match self.find_key(key) {
            Some(i) => Some(self.lookup[i].1),
            None => None,
        }
    }

    /// Returns whether `key` is live.
    pub fn contains_key(&self, key: &String) -> (r: bool)
        requires
            self.wf(),
        ensures
            r == self.key_ids().contains_key(key@),
    {
        self.find_key(key).is_some()
    }

    /// Returns whether `id` is live.
    pub fn contains(&self, id: usize) -> (r: bool)
        requires
            self.wf(),
        ensures
            r == self.entries().contains_key(id),
    {
        slab_contains(&self.store, id)
    }

    /// Returns the allocation and key at `id`, without marking it used.
    pub fn peek(&self, id: usize) -> (r: Option<&Entry>)
        requires
            self.wf(),
        ensures
            self.entries().contains_key(id) ==> r == Some(&self.entries()[id]),
            !self.entries().contains_key(id) ==> r is None,
    {
        slab_get(&self.store, id)
    }

    /// Returns the allocation and key of `key`, without marking it used.
    pub fn peek_by_key(&self, key: &String) -> (r: Option<&Entry>)
        requires
            self.wf(),
        ensures
            self.key_ids().contains_key(key@) ==> r == Some(&self.entries()[self.key_ids()[key@]]),
            !self.key_ids().contains_key(key@) ==> r is None,
    {
        match self.lookup(key) {
            Some(id) => {
                assert(self.wf_keys());
                slab_get(&self.store, id)
            },
            None => None,
        }
    }

    /// Forgets which allocations were used: called once per frame.
    pub fn trim(&mut self)
        requires
            old(self).wf(),
        ensures
            final(self).wf(),
            final(self).used().is_empty(),
            final(self).entries() == old(self).entries(),
            final(self).key_ids() == old(self).key_ids(),
            final(self).recency() == old(self).recency(),
            final(self).next_id() == old(self).next_id(),
            final(self).id_slots() == old(self).id_slots(),
            final(self).layer_count() == old(self).layer_count(),
            forall|l: int| 0 <= l < old(self).layer_count() ==> #[trigger] final(self).layer(l) == old(self).layer(l),
            final(self).side() == old(self).side(),
            final(self).max_layer_count() == old(self).max_layer_count(),
            final(self).ref_counted() == old(self).ref_counted(),
    {
        self.last_used.clear();
        assert(self.wf_layers());
        assert(self.wf_keys());
        assert(self.wf_entries());
        assert(self.wf_cache());
    }

    /// Removes one reference to `id`. In reference-counted mode, while other
    /// references remain, the count drops by one and the id becomes the most
    /// recently used; otherwise the allocation goes: its id, key and space
    /// are freed and the id of its layer is returned.
    pub fn remove(&mut self, id: usize) -> (r: Option<usize>)
        requires
            old(self).wf(),
        ensures
            final(self).wf(),
            final(self).same_config(*old(self)),
            !old(self).entries().contains_key(id) ==> r is None && *final(self) == *old(self),
            old(self).entries().contains_key(id) ==> old(self).remove_outcome(*final(self), id, r),
    {
        proof {
            assert(self.wf_cache());
            assert(self.wf_entries());
            assert(self.wf_keys());
        }
        let ghost pre = *self;
        if !slab_contains(&self.store, id) {
            return None;
        }
        let count = match lru_pop(&mut self.cache, id) {
            Some(c) => c,
            None => {
                assert(!self.entries().contains_key(id));
                return None;
            },
        };
        let ghost i = choose|i: int| 0 <= i < pre.recency().len() && pre.recency()[i].0 == id;
        assert(pre.recency()[i].1 == count);
        let refcount = count - 1;
        if self.use_ref_count && refcount > 0 {
            lru_push(&mut self.cache, id, refcount);
            proof {
                lemma_cache_ok_repush(pre.recency(), pre.entries(), pre.used(), i, id, refcount);
            }
            return None;
        }
        let (allocation, key) = slab_remove(&mut self.store, id);
        self.last_used.remove(&id);
        let p = key_position(&self.lookup, &key);
        assert(pre.key_ids().contains_key(key@));
        let p = match p {
            Some(p) => p,
            None => {
                assert(false);
                return None;
            },
        };
        self.lookup.remove(p);
        self.keys = Ghost(self.keys@.remove(key@));
        proof {
            lemma_keys_ok_remove(pre.lookup@, pre.keys@, pre.entries(), p as int, id);
            lemma_cache_ok_remove(pre.recency(), pre.entries(), pre.used(), i, id);
        }
        let layer = allocation.layer;
        self.layers[layer].deallocate(id, allocation.allocation);
        proof {
            assert(self.wf_keys());
            assert(self.wf_cache());
            assert forall|l: int|
                0 <= l < self.layers@.len() implies {
                    &&& (#[trigger] self.layers@[l]).allocator.wf()
                    &&& self.layers@[l].allocator.side() == self.size
                } by {
                if l != layer {
                    assert(self.layers@[l] == pre.layers@[l]);
                }
            }
            assert(self.wf_layers());
            let k = choose|k: int|
                0 <= k < pre.layers@[layer as int].allocator.rects().len()
                    && pre.layers@[layer as int].allocator.rects()[k] == allocation.allocation
                    && self.layers@[layer as int].allocator.rects() == pre.layers@[layer as int].allocator.rects().remove(k);
            assert forall|j: usize| #[trigger] slab_entries(self.store).contains_key(j) implies {
                let a = slab_entries(self.store)[j].0;
                &&& a.layer < self.layers@.len()
                &&& a.allocation.has_area()
                &&& self.layers@[a.layer as int].allocator.rects().contains(a.allocation)
            } by {
                let a = slab_entries(self.store)[j].0;
                assert(pre.entries().contains_key(j) && j != id);
                if a.layer == layer {
                    lemma_remove_keeps(pre.layers@[layer as int].allocator.rects(), k, a.allocation);
                } else {
                    assert(self.layers@[a.layer as int] == pre.layers@[a.layer as int]);
                }
            }
            assert(self.wf_entries());
            assert forall|m: int| 0 <= m < pre.layer_count() && m != layer implies #[trigger] self.layer(m) == pre.layer(m) by {
                assert(self.layers@[m] == pre.layers@[m]);
            }
            assert(pre.entries()[id] == (allocation, key));
            assert(self.entries() == pre.entries().remove(id));
            assert(self.key_ids() == pre.key_ids().remove(key@));
            assert(self.recency() == pre.recency().remove(i));
            assert(self.used() == pre.used().remove(id));
            assert(self.layer(layer as int).holes().contains(allocation.allocation));
            assert(self.next_id() == id);
            assert(self.id_slots() == pre.id_slots());
            let rect = allocation.allocation;
            assert(forall|w: u32, h: u32|
                0 < w <= rect.width && 0 < h <= rect.height ==> self.layer(layer as int).fits(
                    #[trigger] Rect::at(rect.x, rect.y, w, h)));
            assert(0 <= k < pre.layer(layer as int).rects().len() && pre.layer(layer as int).rects()[k] == rect
                && self.layer(layer as int).rects() == pre.layer(layer as int).rects().remove(k));
            assert(pre.removed(*self, id, i));
            assert forall|i2: int|
                0 <= i2 < pre.recency().len() && (#[trigger] pre.recency()[i2]).0 == id implies i2
                == i by {
                assert(keys_unique(pre.recency()));
            }
        }
        Some(layer)
    }

    /// Removes one reference to the allocation of `key`, as `remove` does.
    pub fn remove_by_key(&mut self, key: &String) -> (r: Option<usize>)
        requires
            old(self).wf(),
        ensures
            final(self).wf(),
            final(self).same_config(*old(self)),
            !old(self).key_ids().contains_key(key@) ==> r is None && *final(self) == *old(self),
            old(self).key_ids().contains_key(key@) ==> old(self).remove_outcome(
                *final(self),
                old(self).key_ids()[key@],
                r,
            ),
    {
        match self.lookup(key) {
            Some(id) => {
                assert(self.wf_keys());
                self.remove(id)
            },
            None => None,
        }
    }

    /// Marks the live allocation `id` used: it becomes the most recently
    /// used and is kept from eviction until the next `trim`.
    pub fn promote(&mut self, id: usize)
        requires
            old(self).wf(),
        ensures
            final(self).wf(),
            final(self).same_config(*old(self)),
            !old(self).entries().contains_key(id) ==> *final(self) == *old(self),
            old(self).entries().contains_key(id) ==> old(self).promoted(*final(self), id),
    {
        if !slab_contains(&self.store, id) {
            return;
        }
        let ghost pre = *self;
        proof {
            assert(self.wf_cache());
            assert(self.wf_entries());
            assert(self.wf_keys());
        }
        let ghost i = choose|i: int| 0 <= i < pre.recency().len() && pre.recency()[i].0 == id;
        lru_promote(&mut self.cache, id);
        self.last_used.insert(id);
        proof {
            lemma_cache_ok_repush(pre.recency(), pre.entries(), pre.used(), i, id, pre.recency()[i].1);
            assert(pre.recency()[i] == (id, pre.recency()[i].1));
            assert(self.wf_cache());
            assert(self.wf_keys());
            assert(self.wf_entries());
            assert(self.wf_layers());
            assert forall|i2: int|
                0 <= i2 < pre.recency().len() && (#[trigger] pre.recency()[i2]).0 == id implies i2
                == i by {
                assert(keys_unique(pre.recency()));
            }
        }
    }

    /// Marks the allocation of `key`, if live, used as `promote` does.
    pub fn promote_by_key(&mut self, key: String)
        requires
            old(self).wf(),
        ensures
            final(self).wf(),
            final(self).same_config(*old(self)),
            !old(self).key_ids().contains_key(key@) ==> *final(self) == *old(self),
            old(self).key_ids().contains_key(key@) ==> old(self).promoted(
                *final(self),
                old(self).key_ids()[key@],
            ),
    {
        if let Some(id) = self.lookup(&key) {
            assert(self.wf_keys());
            self.promote(id);
        }
    }

    /// Returns the allocation at `id`, if live, and marks it used as
    /// `promote` does.
    pub fn get(&mut self, id: usize) -> (r: Option<Allocation>)
        requires
            old(self).wf(),
        ensures
            final(self).wf(),
            final(self).same_config(*old(self)),
            !old(self).entries().contains_key(id) ==> r is None && *final(self) == *old(self),
            old(self).entries().contains_key(id) ==> r == Some(old(self).entries()[id].0)
                && old(self).promoted(*final(self), id),
    {
        let found = match slab_get(&self.store, id) {
            Some(entry) => Some(entry.0),
            None => None,
        };
        if found.is_some() {
            self.promote(id);
        }
        found
    }

    /// Returns the allocation of `key`, if live, and marks it used as
    /// `promote` does.
    pub fn get_by_key(&mut self, key: &String) -> (r: Option<Allocation>)
        requires
            old(self).wf(),
        ensures
            final(self).wf(),
            final(self).same_config(*old(self)),
            !old(self).key_ids().contains_key(key@) ==> r is None && *final(self) == *old(self),
            old(self).key_ids().contains_key(key@) ==> r == Some(
                old(self).entries()[old(self).key_ids()[key@]].0,
            ) && old(self).promoted(*final(self), old(self).key_ids()[key@]),
    {
        match self.lookup(key) {
            Some(id) => {
                assert(self.wf_keys());
                self.get(id)
            },
            None => None,
        }
    }

    /// Drops every allocation and frees every layer. The layers stay, and the
    /// texture is left as it is: new uploads overwrite it.
    pub fn clear(&mut self)
        requires
            old(self).wf(),
        ensures
            final(self).wf(),
            final(self).same_config(*old(self)),
            final(self).is_empty_set(),
            final(self).dense(),
            forall|l: int| 0 <= l < final(self).layer_count() ==> {
                &&& (#[trigger] final(self).layer(l)).wf()
                &&& final(self).layer(l).side() == final(self).side()
                &&& final(self).layer(l).rects() == Seq::<Rect>::empty()
                &&& final(self).layer(l).holes() == Seq::<Rect>::empty()
            },
    {
        proof {
            assert(self.wf_cache());
            assert(self.wf_layers());
        }
        let mut l: usize = 0;
        while l < self.layers.len()
            invariant
                self.size == old(self).size,
                self.max_layers == old(self).max_layers,
                self.deallocations_limit == old(self).deallocations_limit,
                self.layer_check_limit == old(self).layer_check_limit,
                self.layer_free_limit == old(self).layer_free_limit,
                self.use_ref_count == old(self).use_ref_count,
                self.cache == old(self).cache,
                lru_cap(self.cache) == usize::MAX,
                self.layers@.len() == old(self).layers@.len(),
                l <= self.layers@.len(),
                forall|m: int|
                    0 <= m < self.layers@.len() ==> {
                        &&& (#[trigger] self.layers@[m]).allocator.wf()
                        &&& self.layers@[m].allocator.side() == self.size
                        &&& m < l ==> self.layers@[m].allocator.rects() == Seq::<Rect>::empty()
                        &&& m < l ==> self.layers@[m].allocator.holes() == Seq::<Rect>::empty()
                    },
            decreases self.layers@.len() - l,
        {
            assert(self.layers@[l as int].allocator.wf());
            self.layers[l].allocator.clear();
            self.layers[l].indexes.clear();
            l = l + 1;
        }
        slab_clear(&mut self.store);
        self.lookup.clear();
        self.keys = Ghost(Map::empty());
        lru_clear(&mut self.cache);
        self.last_used.clear();
        proof {
            assert(self.wf_layers());
            assert(self.wf_keys());
            assert(self.wf_cache());
            assert(self.wf_entries());
            assert(self.key_ids().dom() =~= Set::<Seq<char>>::empty());
        }
    }

    /// Finds room for a `width` by `height` image: in the first layer that
    /// has it; else, unless reference-counted, in the layer of the least
    /// recently used allocation, evicted for it while it was not used since
    /// the last `trim`; else in a new layer, if fewer than `max_layers - 1`
    /// exist. The rectangle is taken in its layer, but not yet recorded in
    /// the store.
    fn allocate(&mut self, width: u32, height: u32, data: i32) -> (r: Option<Allocation>)
        requires
            old(self).wf(),
        ensures
            final(self).wf(),
            final(self).side() == old(self).side(),
            final(self).max_layer_count() == old(self).max_layer_count(),
            final(self).ref_counted() == old(self).ref_counted(),
            old(self).evicted_only(*final(self)),
            final(self).recency().len() <= old(self).recency().len(),
            old(self).unplaceable(width, height) ==> r is None && *final(self) == *old(self),
            !old(self).unplaceable(width, height)
                && old(self).layer_count() + 1 < old(self).max_layer_count() ==> r is Some,
            match r {
                Some(a) => {
                    &&& a.allocation.width == width
                    &&& a.allocation.height == height
                    &&& a.data == data
                    &&& a.layer < final(self).layer_count()
                    &&& final(self).layer(a.layer as int).rects().contains(a.allocation)
                    &&& forall|id: usize| #[trigger]
                        final(self).entries().contains_key(id) && final(self).entries()[id].0.layer
                            == a.layer ==> final(self).entries()[id].0.allocation != a.allocation
                    &&& final(self).layer_count() == old(self).layer_count()
                        || (final(self).layer_count() == old(self).layer_count() + 1
                        && a.layer == old(self).layer_count())
                },
                None => {
                    &&& final(self).layer_count() == old(self).layer_count()
                    &&& old(self).unplaceable(width, height) || final(self).full(width, height)
                    &&& !old(self).unplaceable(width, height) ==> forall|l: int|
                        0 <= l < old(self).layer_count() ==> #[trigger] old(self).layer(l).no_room(width, height)
                },
            },
            exists|k: int|
                old(self).evicted_front(*final(self), k) && match r {
                    Some(a) => old(self).placed_first_fit(*final(self), width, height, a, k),
                    None => true,
                },
    {
        proof {
            self.lemma_front_none();
        }
        if width == 0 || height == 0 || width > self.size || height > self.size {
            assert(self.recency() =~= old(self).recency().subrange(0, old(self).recency().len() as int));
            assert(self.entries() == old(self).entries().remove_keys(old(self).front_ids(0)));
            assert(old(self).evicted_front(*self, 0));
            return None;
        }
        proof {
            assert(self.wf_layers());
            assert(self.wf_entries());
        }
        let mut l: usize = 0;
        while l < self.layers.len()
            invariant
                self.wf(),
                self.same_fields(*old(self)),
                self.layers@ == old(self).layers@,
                0 < width <= self.size,
                0 < height <= self.size,
                l <= self.layers@.len(),
                forall|m: int| 0 <= m < l ==> #[trigger] self.layer(m).no_room(width, height),
            decreases self.layers@.len() - l,
        {
            proof {
                assert(self.wf_layers());
                assert(self.layers@[l as int].allocator.wf());
            }
            let ghost before = self.layers@[l as int].allocator;
            let ghost prev = *self;
            let found = self.layers[l].allocator.allocate(width, height);
            match found {
                Some(rect) => {
                    proof {
                        self.lemma_new_rect(*old(self), l, rect);
                        assert(prev.layers@ == old(self).layers@);
                        assert forall|m: int| 0 <= m < l implies #[trigger] old(self).layer(m).no_room(width, height) by {
                            assert(prev.layer(m) == old(self).layer(m));
                        }
                        assert(old(self).layer(l as int) == before);
                        assert forall|m: int| 0 <= m < old(self).layer_count() && m != l implies #[trigger] self.layer(m) == old(self).layer(m) by {
                            assert(self.layers@[m] == prev.layers@[m]);
                        }
                        assert(self.recency() == old(self).recency());
                        assert(self.recency() =~= old(self).recency().subrange(0, old(self).recency().len() as int));
                        assert(self.entries() == old(self).entries());
                        assert(self.entries() == old(self).entries().remove_keys(old(self).front_ids(0)));
                        assert(old(self).evicted_front(*self, 0));
                        assert(old(self).placed_first_fit(*self, width, height, Allocation { allocation: rect, layer: l, data }, 0));
                    }
                    return Some(Allocation { allocation: rect, layer: l, data });
                },
                None => {
                    proof {
                        assert(self.layers@ =~= old(self).layers@);
                        assert(before.side() == self.size);
                        assert(before.no_room(width, height));
                        assert(self.layer(l as int) == before);
                        assert forall|m: int| 0 <= m < l + 1 implies #[trigger] self.layer(m).no_room(width, height) by {
                            assert(self.layer(m) == prev.layer(m));
                        }
                    }
                },
            }
            l = l + 1;
        }
        proof {
            assert(self.wf());
            assert(old(self).evicted_only(*self));
            assert(self.recency() =~= old(self).recency().subrange(0, old(self).recency().len() as int));
            assert(old(self).evicted_front(*self, 0));
            assert forall|m: int| 0 <= m < old(self).layer_count() implies #[trigger] old(self).layer(m).no_room(width, height) by {
                assert(self.layer(m) == old(self).layer(m));
            }
        }
        let ghost mut k: int = 0;
        if !self.use_ref_count {
            loop
                invariant
                    self.wf(),
                    self.side() == old(self).side(),
                    self.max_layer_count() == old(self).max_layer_count(),
                    self.ref_counted() == old(self).ref_counted(),
                    !self.ref_counted(),
                    self.layer_count() == old(self).layer_count(),
                    old(self).evicted_only(*self),
                    self.recency().len() <= old(self).recency().len(),
                    0 < width <= self.size,
                    0 < height <= self.size,
                    forall|m: int| 0 <= m < self.layer_count() ==> #[trigger] self.layer(m).no_room(width, height),
                    old(self).evicted_front(*self, k),
                    forall|m: int| 0 <= m < old(self).layer_count() ==> #[trigger] old(self).layer(m).no_room(width, height),
                ensures
                    self.wf(),
                    self.side() == old(self).side(),
                    self.max_layer_count() == old(self).max_layer_count(),
                    self.ref_counted() == old(self).ref_counted(),
                    self.layer_count() == old(self).layer_count(),
                    old(self).evicted_only(*self),
                    self.recency().len() <= old(self).recency().len(),
                    forall|m: int| 0 <= m < self.layer_count() ==> #[trigger] self.layer(m).no_room(width, height),
                    self.recency().len() == 0 || self.used().contains(self.recency()[0].0),
                    old(self).evicted_front(*self, k),
                    forall|m: int| 0 <= m < old(self).layer_count() ==> #[trigger] old(self).layer(m).no_room(width, height),
                decreases self.recency().len(),
            {
                let (id, _) = match lru_peek_lru(&self.cache) {
                    Some(e) => e,
                    None => break,
                };
                if self.last_used.contains(&id) {
                    break;
                }
                proof {
                    assert(self.wf_cache());
                    assert(self.recency()[0].0 == id);
                }
                let ghost mid = *self;
                let freed = self.remove(id);
                proof {
                    assert(mid.recency()[0].0 == id);
                    assert(mid.removed(*self, id, 0));
                    self.lemma_evicted_only_trans(*old(self), mid, id);
                    self.lemma_front_step(*old(self), mid, k, id);
                    k = k + 1;
                    assert forall|m: int| 0 <= m < self.layer_count() && m != mid.entries()[id].0.layer
                        implies #[trigger] self.layer(m).no_room(width, height) by {
                        assert(self.layer(m) == mid.layer(m));
                    }
                }
                let layer_id = match freed {
                    Some(layer_id) => layer_id,
                    None => {
                        assert(false);
                        return None;
                    },
                };
                proof {
                    assert(self.wf_layers());
                    assert(self.layers@[layer_id as int].allocator.wf());
                }
                let ghost pre_try = *self;
                let ghost before = self.layers@[layer_id as int].allocator;
                let found = self.layers[layer_id].allocator.allocate(width, height);
                match found {
                    Some(rect) => {
                        proof {
                            self.lemma_new_rect(pre_try, layer_id, rect);
                            assert(self.recency() == pre_try.recency());
                            assert(old(self).evicted_front(*self, k));
                            assert(old(self).placed_first_fit(*self, width, height, Allocation { allocation: rect, layer: layer_id, data }, k));
                        }
                        return Some(Allocation { allocation: rect, layer: layer_id, data });
                    },
                    None => {
                        proof {
                            assert(self.layers@ =~= pre_try.layers@);
                            assert(before.side() == self.size);
                            assert(before.no_room(width, height));
                            assert(self.layer(layer_id as int) == before);
                            assert forall|m: int| 0 <= m < self.layer_count() implies #[trigger] self.layer(m).no_room(width, height) by {
                                assert(self.layer(m) == pre_try.layer(m));
                            }
                        }
                    },
                }
            }
        }
        proof {
            assert(forall|m: int| 0 <= m < self.layer_count() ==> #[trigger] self.layer(m).no_room(width, height));
            if k < old(self).recency().len() {
                assert(self.recency()[0] == old(self).recency()[k]);
            }
        }
        if self.max_layers == 0 || self.layers.len() >= self.max_layers - 1 {
            return None;
        }
        let mut layer = Atlas::new(self.size);
        match layer.allocator.allocate(width, height) {
            Some(rect) => {
                let ghost pre_push = *self;
                self.layers.push(layer);
                proof {
                    assert(self.layers@[pre_push.layers@.len() as int] == layer);
                    assert forall|m: int| 0 <= m < pre_push.layers@.len() implies #[trigger] self.layers@[m] == pre_push.layers@[m] by {}
                    assert(pre_push.wf_entries());
                    assert(self.wf_layers());
                    assert(self.wf_keys());
                    assert(self.wf_cache());
                    assert forall|id: usize| #[trigger] slab_entries(self.store).contains_key(id) implies {
                        let a = slab_entries(self.store)[id].0;
                        &&& a.layer < self.layers@.len()
                        &&& a.allocation.has_area()
                        &&& self.layers@[a.layer as int].allocator.rects().contains(a.allocation)
                    } by {
                        let a = slab_entries(self.store)[id].0;
                        assert(self.layers@[a.layer as int] == pre_push.layers@[a.layer as int]);
                    }
                    assert(self.wf_entries());
                    assert(layer.allocator.rects()[0] == rect);
                    assert(old(self).evicted_only(*self));
                    assert(self.recency() == pre_push.recency());
                    assert(self.entries() == pre_push.entries());
                    assert(old(self).evicted_front(*self, k));
                    assert(old(self).placed_first_fit(*self, width, height, Allocation { allocation: rect, layer: (self.layers@.len() - 1) as usize, data }, k));
                }
                Some(Allocation { allocation: rect, layer: self.layers.len() - 1, data })
            },
            None => {
                proof {
                    assert(layer.allocator.fits(Rect::at(0, 0, width, height)));
                }
                None
            },
        }
    }

    /// Makes sure `key` has an allocation of `width` by `height`, with
    /// `data`, and says what the texture needs: growth by `grow_by` layers,
    /// and, for a fresh allocation, the image written at its rectangle.
    pub fn place(&mut self, key: String, width: u32, height: u32, data: i32) -> (r: Option<Placement>)
        requires
            old(self).wf(),
        ensures
            final(self).wf(),
            old(self).place_outcome(*final(self), key, width, height, data, r),
    {
        if let Some(p) = key_position(&self.lookup, &key) {
            proof {
                assert(self.wf_keys());
                assert(self.wf_cache());
            }
            let id = self.lookup[p].1;
            let allocation = match slab_get(&self.store, id) {
                Some(entry) => entry.0,
                None => {
                    assert(false);
                    return None;
                },
            };
            if self.use_ref_count {
                let ghost pre = *self;
                let ghost i = choose|i: int| 0 <= i < pre.recency().len() && pre.recency()[i].0 == id;
                let count = match lru_pop(&mut self.cache, id) {
                    Some(c) => c,
                    None => {
                        assert(false);
                        return None;
                    },
                };
                assert(count == pre.recency()[i].1);
                let up = count.saturating_add(1);
                lru_push(&mut self.cache, id, up);
                proof {
                    lemma_cache_ok_repush(pre.recency(), pre.entries(), pre.used(), i, id, up);
                    assert(self.wf_cache());
                    assert(self.wf_keys());
                    assert(self.wf_entries());
                    assert(self.wf_layers());
                    assert forall|i2: int|
                        0 <= i2 < pre.recency().len() && (#[trigger] pre.recency()[i2]).0 == id
                            implies i2 == i by {
                        assert(keys_unique(pre.recency()));
                    }
                }
            }
            return Some(Placement { id, allocation, fresh: false, grow_by: 0 });
        }
        proof {
            assert(self.wf_keys());
        }
        if lru_len(&self.cache) == usize::MAX {
            return None;
        }
        let ghost start = *self;
        let nlayers = self.layers.len();
        let allocation = match self.allocate(width, height, data) {
            Some(a) => a,
            None => {
                return None;
            },
        };
        let grow_by = self.layers.len() - nlayers;
        let ghost mid = *self;
        let ghost k = choose|k: int|
            start.evicted_front(mid, k) && start.placed_first_fit(mid, width, height, allocation, k);
        proof {
            assert(mid.wf_keys());
            assert(mid.wf_cache());
            assert(mid.wf_entries());
            assert(mid.wf_layers());
            assert(slab_ok(mid.store));
        }
        let id = slab_insert(&mut self.store, (allocation, key.clone()));
        let layer = allocation.layer;
        self.layers[layer].insert_index(id);
        self.lookup.push((key.clone(), id));
        self.keys = Ghost(self.keys@.insert(key@, id));
        proof {
            lemma_keys_ok_insert(mid.lookup@, mid.keys@, mid.entries(), key, id, allocation);
            lemma_cache_ok_insert(mid.recency(), mid.entries(), mid.used(), id, (allocation, key));
        }
        lru_push(&mut self.cache, id, 1);
        proof {
            assert(self.layers@ =~= mid.layers@.update(layer as int, self.layers@[layer as int]));
            assert forall|m: int| 0 <= m < self.layers@.len() implies #[trigger] self.layers@[m].allocator == mid.layers@[m].allocator by {}
            assert(self.wf_layers());
            assert(self.wf_keys());
            assert(self.wf_cache());
            assert forall|j: usize| #[trigger] slab_entries(self.store).contains_key(j) implies {
                let a = slab_entries(self.store)[j].0;
                &&& a.layer < self.layers@.len()
                &&& a.allocation.has_area()
                &&& self.layers@[a.layer as int].allocator.rects().contains(a.allocation)
            } by {
                if j == id {
                    let rs = mid.layers@[layer as int].allocator.rects();
                    let k = choose|k: int| 0 <= k < rs.len() && rs[k] == allocation.allocation;
                    assert(rs[k].has_area());
                }
            }
            assert(self.wf_entries());
            assert(self.recency().last() == (id, 1usize));
            assert(self.recency() == mid.recency().push((id, 1usize)));
            assert(self.entries() == mid.entries().insert(id, (allocation, key)));
            assert forall|m: int| 0 <= m < self.layer_count() implies #[trigger] self.layer(m) == mid.layer(m) by {
                assert(self.layers@[m].allocator == mid.layers@[m].allocator);
            }
            assert(self.layer_count() == mid.layer_count());
            assert(start.placed_first_fit(*self, width, height, allocation, k));
            if k == 0 {
                start.lemma_front_none();
                assert(mid.entries().dom() =~= start.entries().dom());
            }
            assert(start.wf_keys());
            if forall|j: usize| #[trigger] start.entries().contains_key(j)
                ==> self.entries().contains_key(j) && self.entries()[j] == start.entries()[j] {
                if start.entries().contains_key(id) {
                    assert(start.key_ids().contains_key(start.entries()[id].1@));
                    assert(self.entries()[id].1@ == key@);
                }
                assert(mid.entries().dom() =~= start.entries().dom());
            }
        }
        Some(Placement { id, allocation, fresh: true, grow_by })
    }

    /// Uploads `key`: returns its id, as `place` does. The caller grows the
    /// texture and writes the image when `place` would ask for it.
    pub fn upload(&mut self, key: String, width: u32, height: u32, data: i32) -> (r: Option<usize>)
        requires
            old(self).wf(),
        ensures
            final(self).wf(),
            exists|p: Option<Placement>|
                old(self).place_outcome(*final(self), key, width, height, data, p) && r == match p {
                    Some(q) => Some(q.id),
                    None => None::<usize>,
                },
    {
        match self.place(key, width, height, data) {
            Some(p) => Some(p.id),
            None => None,
        }
    }

    /// Uploads `key`: returns its id and allocation, as `place` does.
    pub fn upload_with_alloc(&mut self, key: String, width: u32, height: u32, data: i32) -> (r: Option<
        (usize, Allocation),
    >)
        requires
            old(self).wf(),
        ensures
            final(self).wf(),
            exists|p: Option<Placement>|
                old(self).place_outcome(*final(self), key, width, height, data, p) && r == match p {
                    Some(q) => Some((q.id, q.allocation)),
                    None => None::<(usize, Allocation)>,
                },
    {
        match self.place(key, width, height, data) {
            Some(p) => Some((p.id, p.allocation)),
            None => None,
        }
    }

    /// How to grow the texture array after `amount` layers were added: to
    /// the current layer count, copying the layers that existed before.
    /// Nothing is to be done when `amount` is 0.
    pub fn grow_plan(&self, amount: usize) -> (r: Option<GrowPlan>)
        requires
            self.wf(),
            amount <= self.layer_count(),
        ensures
            amount == 0 ==> r is None,
            amount > 0 ==> r == Some(
                GrowPlan {
                    layer_count: self.layer_count() as u32,
                    copy_layers: (self.layer_count() - amount) as u32,
                },
            ),
    {
        if amount == 0 {
            return None;
        }
        let n = self.layers.len();
        Some(GrowPlan { layer_count: n as u32, copy_layers: (n - amount) as u32 })
    }

    /// What a well-formed set guarantees: every live id stands exactly once
    /// in the recency order, with a count of at least one, and nothing else
    /// does; used ids are live; keys and ids correspond one to one; each live
    /// rectangle has an area and is placed in its layer, apart from the
    /// others of that layer; every layer is a well-formed allocator of the
    /// set's side; and the layer count stays within `max_layers`.
    pub proof fn lemma_wf_facts(&self)
        requires
            self.wf(),
        ensures
            keys_unique(self.recency()),
            forall|i: int|
                0 <= i < self.recency().len() ==> self.entries().contains_key(
                    (#[trigger] self.recency()[i]).0,
                ) && self.recency()[i].1 >= 1,
            forall|id: usize| #[trigger]
                self.entries().contains_key(id) ==> has_key(self.recency(), id),
            forall|id: usize| #[trigger] self.used().contains(id) ==> self.entries().contains_key(id),
            forall|k: Seq<char>| #[trigger]
                self.key_ids().contains_key(k) ==> self.entries().contains_key(self.key_ids()[k])
                    && self.entries()[self.key_ids()[k]].1@ == k,
            forall|id: usize| #[trigger]
                self.entries().contains_key(id) ==> self.key_ids().contains_key(self.entries()[id].1@)
                    && self.key_ids()[self.entries()[id].1@] == id,
            forall|l: int|
                0 <= l < self.layer_count() ==> (#[trigger] self.layer(l)).wf() && self.layer(l).side()
                    == self.side(),
            forall|id: usize| #[trigger]
                self.entries().contains_key(id) ==> {
                    let a = self.entries()[id].0;
                    &&& a.layer < self.layer_count()
                    &&& a.allocation.has_area()
                    &&& self.layer(a.layer as int).rects().contains(a.allocation)
                },
            forall|i: usize, j: usize|
                #[trigger] self.entries().contains_key(i) && #[trigger] self.entries().contains_key(j)
                    && i != j && self.entries()[i].0.layer == self.entries()[j].0.layer
                    ==> self.entries()[i].0.allocation != self.entries()[j].0.allocation,
            self.layer_count() <= self.max_layer_count(),
            !self.entries().contains_key(self.next_id()),
    {
        assert(self.wf_layers());
        assert(self.wf_keys());
        assert(self.wf_cache());
        assert(self.wf_entries());
    }

    /// A key is live exactly when an allocation in the store carries it:
    /// `lookup` finds an id for a key iff that key has a live allocation.
    pub proof fn lemma_lookup_iff_live(&self, key: Seq<char>)
        requires
            self.wf(),
        ensures
            self.key_ids().contains_key(key) <==> exists|id: usize|
                #[trigger] self.entries().contains_key(id) && self.entries()[id].1@ == key,
            self.key_ids().contains_key(key) ==> self.entries().contains_key(self.key_ids()[key])
                && self.entries()[self.key_ids()[key]].1@ == key,
    {
        assert(self.wf_keys());
        if exists|id: usize| #[trigger] self.entries().contains_key(id) && self.entries()[id].1@ == key {
            let id = choose|id: usize| #[trigger] self.entries().contains_key(id) && self.entries()[id].1@ == key;
            assert(self.key_ids().contains_key(self.entries()[id].1@));
        }
        if self.key_ids().contains_key(key) {
            let id = self.key_ids()[key];
            assert(self.entries().contains_key(id) && self.entries()[id].1@ == key);
        }
    }

    /// Uploading a key twice, with no removal between, gives the same id and
    /// allocation both times, and the second upload asks for no write and no
    /// growth.
    pub proof fn lemma_reupload_same_id(
        &self,
        mid: AtlasSet,
        after: AtlasSet,
        key: String,
        width1: u32,
        height1: u32,
        data1: i32,
        first: Option<Placement>,
        width2: u32,
        height2: u32,
        data2: i32,
        second: Option<Placement>,
    )
        requires
            self.wf(),
            mid.wf(),
            self.place_outcome(mid, key, width1, height1, data1, first),
            mid.place_outcome(after, key, width2, height2, data2, second),
            first is Some,
        ensures
            second == Some(
                Placement {
                    id: first.unwrap().id,
                    allocation: first.unwrap().allocation,
                    fresh: false,
                    grow_by: 0,
                },
            ),
    {
    }

    /// Once `remove` takes an allocation out, its key is no longer live, and
    /// its layer has room again for any image no larger than it: allocating
    /// such an image in that layer succeeds.
    pub proof fn lemma_removed_space_reusable(
        &self,
        after: AtlasSet,
        id: usize,
        r: Option<usize>,
        width: u32,
        height: u32,
    )
        requires
            self.wf(),
            self.entries().contains_key(id),
            self.remove_outcome(after, id, r),
            r is Some,
            0 < width <= self.entries()[id].0.allocation.width,
            0 < height <= self.entries()[id].0.allocation.height,
        ensures
            !after.key_ids().contains_key(self.entries()[id].1@),
            !after.entries().contains_key(id),
            !has_key(after.recency(), id),
            !after.used().contains(id),
            r == Some(self.entries()[id].0.layer),
            !after.layer(self.entries()[id].0.layer as int).no_room(width, height),
    {
        assert(self.wf_cache());
        let i = choose|i: int| 0 <= i < self.recency().len() && self.recency()[i].0 == id;
        assert(self.removed(after, id, i));
        if has_key(after.recency(), id) {
            let j = choose|j: int| 0 <= j < after.recency().len() && after.recency()[j].0 == id;
            let o = if j < i { j } else { j + 1 };
            assert(after.recency()[j] == self.recency()[o]);
            assert(keys_unique(self.recency()));
        }
        let rect = self.entries()[id].0.allocation;
        let lay = after.layer(self.entries()[id].0.layer as int);
        let k = choose|k: int| 0 <= k < lay.holes().len() && lay.holes()[k] == rect;
        assert(lay.fits(Rect::at(rect.x, rect.y, width, height)));
        assert(lay.fits(Rect::at(lay.holes()[k].x, lay.holes()[k].y, width, height)));
    }

    /// An image wider or taller than the layers never gets an allocation,
    /// whatever the set holds, and the attempt changes nothing.
    pub proof fn lemma_oversize_fails(
        &self,
        after: AtlasSet,
        key: String,
        width: u32,
        height: u32,
        data: i32,
        r: Option<Placement>,
    )
        requires
            self.wf(),
            !self.key_ids().contains_key(key@),
            width > self.side() || height > self.side(),
            self.place_outcome(after, key, width, height, data, r),
        ensures
            r is None,
            after == *self,
    {
    }

    /// A cleared set and a new one with the same side, layer limit and mode
    /// hold the same: no allocation, key, recency entry or used id, empty
    /// layers, and ids handed out from 0 in order.
    pub proof fn lemma_cleared_matches_new(&self, fresh: AtlasSet)
        requires
            self.wf(),
            fresh.wf(),
            self.is_empty_set(),
            fresh.is_empty_set(),
        ensures
            self.entries() == fresh.entries(),
            self.key_ids() == fresh.key_ids(),
            self.recency() == fresh.recency(),
            self.used() == fresh.used(),
            self.next_id() == fresh.next_id(),
            self.dense() && fresh.dense(),
            self.entries().len() == 0 && fresh.entries().len() == 0,
    {
        assert(self.entries() =~= fresh.entries());
        assert(self.key_ids() =~= fresh.key_ids());
        assert(self.recency() =~= fresh.recency());
        assert(self.used() =~= fresh.used());
        assert(self.entries().len() == 0);
        assert(fresh.entries().len() == 0);
    }

    /// A set that is empty with layers as new, such as a cleared or a new
    /// set, answers its first upload in one way only: `None` for an empty or
    /// too large image, and otherwise id 0, at the origin of layer 0, with
    /// nothing to grow. So a cleared set and a new one answer it alike.
    pub proof fn lemma_first_upload_after_reset(
        &self,
        after: AtlasSet,
        key: String,
        width: u32,
        height: u32,
        data: i32,
        r: Option<Placement>,
    )
        requires
            self.wf(),
            self.is_empty_set(),
            self.layer_count() >= 1,
            forall|l: int| 0 <= l < self.layer_count() ==> (#[trigger] self.layer(l)).holes() == Seq::<Rect>::empty(),
            self.place_outcome(after, key, width, height, data, r),
        ensures
            self.unplaceable(width, height) ==> r is None,
            !self.unplaceable(width, height) ==> r == Some(
                Placement {
                    id: 0,
                    allocation: Allocation { allocation: Rect::at(0, 0, width, height), layer: 0, data },
                    fresh: true,
                    grow_by: 0,
                },
            ),
    {
        self.lemma_wf_facts();
        assert(!self.key_ids().contains_key(key@));
        if !self.unplaceable(width, height) {
            let lay = self.layer(0);
            assert(lay.rects().len() == 0);
            assert(lay.fits(Rect::at(0, 0, width, height)));
            assert(!lay.no_room(width, height));
            assert(!self.full(width, height));
            assert(self.recency().len() == 0);
            assert(self.layer(0).no_room(width, height) ==> false);
            assert(r is Some);
            let p = r.unwrap();
            let k = choose|k: int| {
                &&& 0 <= k <= self.recency().len()
                &&& k > 0 ==> !self.ref_counted()
                &&& forall|j: int| 0 <= j < k ==> !self.used().contains(#[trigger] self.recency()[j].0)
                &&& after.recency() == self.recency().subrange(k, self.recency().len() as int).push((p.id, 1usize))
                &&& after.entries() == self.entries().remove_keys(self.front_ids(k)).insert(p.id, (p.allocation, key))
                &&& self.placed_first_fit(after, width, height, p.allocation, k)
                &&& k == 0 ==> p.id == self.next_id()
            };
            assert(k == 0);
            assert(p.allocation.layer == 0);
            assert(lay.first_fit(p.allocation.allocation, width, height));
            assert(p.allocation.allocation == Rect::at(0, 0, width, height));
        }
    }

    /// In reference-counted mode, `m` uploads of one key, from a set where it
    /// is absent, leave it live under the id of the first upload, as the most
    /// recently used id, with a count of `m`.
    pub proof fn lemma_shared_uploads_count(
        states: Seq<AtlasSet>,
        key: String,
        width: u32,
        height: u32,
        data: i32,
        results: Seq<Option<Placement>>,
        m: nat,
    )
        requires
            1 <= m < states.len(),
            m < usize::MAX,
            results.len() + 1 == states.len(),
            states[0].ref_counted(),
            !states[0].key_ids().contains_key(key@),
            forall|k: int| 0 <= k < results.len() ==> #[trigger] results[k] is Some,
            forall|k: int|
                0 <= k < results.len() ==> states[k].place_outcome(
                    states[k + 1],
                    key,
                    width,
                    height,
                    data,
                    #[trigger] results[k],
                ),
        ensures
            states[m as int].has(key@, results[0].unwrap().id),
            states[m as int].ref_counted(),
            states[m as int].recency().len() > 0,
            states[m as int].recency().last() == (results[0].unwrap().id, m as usize),
        decreases m,
    {
        assert(states[0].place_outcome(states[1], key, width, height, data, results[0]));
        assert(results[0] is Some);
        if m > 1 {
            Self::lemma_shared_uploads_count(states, key, width, height, data, results, (m - 1) as nat);
            let pre = states[m - 1];
            let post = states[m as int];
            assert(pre.place_outcome(post, key, width, height, data, results[m - 1]));
            let last = pre.recency().len() - 1;
            assert(pre.recency()[last].0 == results[0].unwrap().id);
        }
    }

    /// In reference-counted mode, removing an id whose count is `n` keeps it
    /// live through the first `n - 1` removals, which return `None`; the
    /// `n`-th takes it out and returns its layer.
    pub proof fn lemma_shared_removals(
        states: Seq<AtlasSet>,
        id: usize,
        results: Seq<Option<usize>>,
        n: nat,
        m: nat,
    )
        requires
            1 <= n <= usize::MAX,
            states.len() == n + 1,
            results.len() == n,
            m <= n,
            forall|k: int| 0 <= k <= n ==> #[trigger] states[k].ref_counted(),
            states[0].entries().contains_key(id),
            exists|i: int| 0 <= i < states[0].recency().len() && states[0].recency()[i] == (id, n as usize),
            forall|k: int| 0 <= k <= n ==> #[trigger] states[k].wf(),
            forall|k: int|
                0 <= k < n && states[k].entries().contains_key(id) ==> #[trigger] states[k].remove_outcome(
                    states[k + 1],
                    id,
                    results[k],
                ),
        ensures
            forall|k: int| 0 <= k < m && k < n - 1 ==> #[trigger] results[k] is None && states[k + 1].entries().contains_key(id),
            m < n ==> states[m as int].entries().contains_key(id) && exists|i: int|
                0 <= i < states[m as int].recency().len() && states[m as int].recency()[i] == (id, (n - m) as usize),
            m == n ==> results[n - 1] is Some && !states[n as int].entries().contains_key(id)
                && !has_key(states[n as int].recency(), id),
        decreases m,
    {
        if m > 0 {
            Self::lemma_shared_removals(states, id, results, n, (m - 1) as nat);
            let k = m - 1;
            let pre = states[k];
            let post = states[k + 1];
            let i = choose|i: int| 0 <= i < pre.recency().len() && pre.recency()[i] == (id, (n - k) as usize);
            assert(pre.ref_counted());
            assert(pre.remove_outcome(post, id, results[k]));
            assert(pre.recency()[i].0 == id);
            if n - k > 1 {
                let j = post.recency().len() - 1;
                assert(post.recency()[j] == (id, (n - m) as usize));
            } else {
                assert(pre.removed(post, id, i));
                if has_key(post.recency(), id) {
                    let j = choose|j: int| 0 <= j < post.recency().len() && post.recency()[j].0 == id;
                    let o = if j < i { j } else { j + 1 };
                    assert(post.recency()[j] == pre.recency()[o]);
                    assert(keys_unique(pre.recency()));
                }
            }
        }
    }

    /// In a set whose id slots are all live, a new key whose upload evicts
    /// nothing gets as id the number of live allocations, and the slots stay
    /// all live. So from a new or a cleared set, uploads with no removal or
    /// eviction between them get the ids 0, 1, 2, ... in order.
    pub proof fn lemma_ids_in_order(
        &self,
        after: AtlasSet,
        key: String,
        width: u32,
        height: u32,
        data: i32,
        r: Option<Placement>,
    )
        requires
            self.wf(),
            self.dense(),
            !self.key_ids().contains_key(key@),
            self.place_outcome(after, key, width, height, data, r),
            r is Some,
            forall|j: usize| #[trigger]
                self.entries().contains_key(j) ==> after.entries().contains_key(j)
                    && after.entries()[j] == self.entries()[j],
        ensures
            r.unwrap().id == self.entries().len(),
            after.dense(),
    {
    }

    /// No id is among the first zero.
    proof fn lemma_front_none(&self)
        ensures
            self.front_ids(0) == Set::<usize>::empty(),
            self.entries().remove_keys(self.front_ids(0)) == self.entries(),
    {
        assert(self.front_ids(0) =~= Set::<usize>::empty());
        assert(self.entries().remove_keys(self.front_ids(0)) =~= self.entries());
    }

    /// Evicting the front id of `mid`, which is `start` less its first `k`
    /// entries, leaves `start` less its first `k + 1`.
    proof fn lemma_front_step(self, start: AtlasSet, mid: AtlasSet, k: int, id: usize)
        requires
            start.evicted_front(mid, k),
            mid.recency().len() > 0,
            mid.recency()[0].0 == id,
            !mid.used().contains(id),
            mid.used() == start.used(),
            !start.ref_counted(),
            mid.removed(self, id, 0),
        ensures
            start.evicted_front(self, k + 1),
    {
        let n = start.recency().len() as int;
        assert(mid.recency()[0] == start.recency()[k]);
        assert(self.recency() =~= start.recency().subrange(k + 1, n));
        assert(start.front_ids(k + 1) =~= start.front_ids(k).insert(id));
        assert(self.entries() =~= start.entries().remove_keys(start.front_ids(k + 1)));
        assert forall|j: int| 0 <= j < k + 1 implies !start.used().contains(#[trigger] start.recency()[j].0) by {}
    }

    /// Every field but the layers agrees.
    closed spec fn same_fields(&self, o: AtlasSet) -> bool {
        &&& self.size == o.size
        &&& self.store == o.store
        &&& self.lookup == o.lookup
        &&& self.cache == o.cache
        &&& self.last_used == o.last_used
        &&& self.max_layers == o.max_layers
        &&& self.deallocations_limit == o.deallocations_limit
        &&& self.layer_check_limit == o.layer_check_limit
        &&& self.layer_free_limit == o.layer_free_limit
        &&& self.use_ref_count == o.use_ref_count
        &&& self.keys == o.keys
    }

    /// After layer `l` of `pre` placed `rect`, the set is still well formed,
    /// and `rect` is a rectangle of no live allocation in that layer.
    proof fn lemma_new_rect(self, pre: AtlasSet, l: usize, rect: Rect)
        requires
            pre.wf(),
            self.same_fields(pre),
            l < pre.layers@.len(),
            self.layers@.len() == pre.layers@.len(),
            forall|m: int| 0 <= m < self.layers@.len() && m != l ==> #[trigger] self.layers@[m] == pre.layers@[m],
            self.layers@[l as int].allocator.wf(),
            self.layers@[l as int].allocator.side() == pre.layers@[l as int].allocator.side(),
            pre.layers@[l as int].allocator.fits(rect),
            self.layers@[l as int].allocator.rects() == pre.layers@[l as int].allocator.rects().push(rect),
        ensures
            self.wf(),
            pre.evicted_only(self),
            self.entries() == pre.entries(),
            self.layer_count() == pre.layer_count(),
            self.layer(l as int).rects().contains(rect),
            forall|id: usize| #[trigger]
                self.entries().contains_key(id) && self.entries()[id].0.layer == l
                    ==> self.entries()[id].0.allocation != rect,
    {
        assert(pre.wf_layers());
        assert(pre.wf_entries());
        assert(pre.wf_keys());
        assert(pre.wf_cache());
        let new_rects = self.layers@[l as int].allocator.rects();
        assert(new_rects[new_rects.len() - 1] == rect);
        assert forall|m: int| 0 <= m < self.layers@.len() implies {
            &&& (#[trigger] self.layers@[m]).allocator.wf()
            &&& self.layers@[m].allocator.side() == self.size
        } by {
            if m != l {
                assert(self.layers@[m] == pre.layers@[m]);
            }
        }
        assert(self.wf_layers());
        assert forall|id: usize| #[trigger] slab_entries(self.store).contains_key(id) implies {
            let a = slab_entries(self.store)[id].0;
            &&& a.layer < self.layers@.len()
            &&& a.allocation.has_area()
            &&& self.layers@[a.layer as int].allocator.rects().contains(a.allocation)
        } by {
            let a = slab_entries(self.store)[id].0;
            if a.layer == l {
                let old_rects = pre.layers@[l as int].allocator.rects();
                let k = choose|k: int| 0 <= k < old_rects.len() && old_rects[k] == a.allocation;
                assert(new_rects[k] == a.allocation);
            } else {
                assert(self.layers@[a.layer as int] == pre.layers@[a.layer as int]);
            }
        }
        assert(self.wf_entries());
        assert(self.wf_keys());
        assert(self.wf_cache());
        assert forall|id: usize| #[trigger]
            self.entries().contains_key(id) && self.entries()[id].0.layer == l
                implies self.entries()[id].0.allocation != rect by {
            let a = self.entries()[id].0.allocation;
            let old_rects = pre.layers@[l as int].allocator.rects();
            let k = choose|k: int| 0 <= k < old_rects.len() && old_rects[k] == a;
            assert(rect.disjoint(old_rects[k]));
        }
    }

    /// Evicting the unused id `id` from `mid`, itself reached from `start` by
    /// evictions, is again an eviction from `start`.
    proof fn lemma_evicted_only_trans(self, start: AtlasSet, mid: AtlasSet, id: usize)
        requires
            start.evicted_only(mid),
            mid.wf(),
            start.ref_counted() == mid.ref_counted(),
            !start.ref_counted(),
            mid.entries().contains_key(id),
            !mid.used().contains(id),
            mid.removed(self, id, 0),
        ensures
            start.evicted_only(self),
            self.entries().dom() != start.entries().dom(),
    {
        assert(mid.wf_keys());
        assert(!self.entries().contains_key(id));
        assert forall|x: usize| #[trigger] self.entries().contains_key(x) implies start.entries().contains_key(x)
            && self.entries()[x] == start.entries()[x] by {
            assert(mid.entries().contains_key(x));
        }
        assert forall|x: usize| #[trigger] start.entries().contains_key(x) && !self.entries().contains_key(x)
            implies !start.ref_counted() && !start.used().contains(x) by {
            if mid.entries().contains_key(x) {
                assert(x == id);
            }
        }
        assert(self.used() == start.used());
        assert forall|k: Seq<char>| #[trigger] self.key_ids().contains_key(k) implies start.key_ids().contains_key(k)
            && self.key_ids()[k] == start.key_ids()[k] by {
            assert(mid.key_ids().contains_key(k));
        }
        if start.entries().contains_key(id) {
            assert(!self.entries().dom().contains(id));
        } else {
            assert(mid.entries().contains_key(id));
        }
    }
}

} // verus!
