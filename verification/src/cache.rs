//! The LRU cache of encoded image bytes (and their decoded RGBA frames),
//! keyed by position in the image list and bounded both by a number of
//! entries and by a total byte size; a bound of 0 means "no bound", and a
//! cache with both bounds 0 is disabled.
use vstd::prelude::*;
use crate::frame::RgbaFrame;

verus! {

/// One cached image: its key, encoded bytes and, once decoded, its frame.
#[derive(Debug)]
pub struct CachedImage {
    pub key: usize,
    pub bytes: Vec<u8>,
    pub rgba: Option<RgbaFrame>,
}

/// The image cache. Entries are kept from least to most recently used.
#[derive(Debug)]
pub struct ImageCache {
    lru_size: usize,
    max_bytes: usize,
    current_bytes: usize,
    entries: Vec<CachedImage>,
}

/// Sum of the byte sizes of the entries.
pub open spec fn total_bytes(s: Seq<CachedImage>) -> nat
    decreases s.len(),
{
    if s.len() == 0 {
        0
    } else {
        total_bytes(s.drop_last()) + s.last().bytes@.len()
    }
}

/// The keys of the entries, oldest first.
pub open spec fn keys_of(s: Seq<CachedImage>) -> Seq<usize> {
    s.map_values(|e: CachedImage| e.key)
}

/// No key occurs twice.
pub open spec fn keys_unique(s: Seq<CachedImage>) -> bool {
    forall|i: int, j: int| 0 <= i < j < s.len() ==> #[trigger] s[i].key != #[trigger] s[j].key
}

/// Whether entries of `count` items and `bytes` bytes break a bound.
pub open spec fn over_limits(lru_size: nat, max_bytes: nat, count: nat, bytes: nat) -> bool {
    (lru_size > 0 && count > lru_size) || (max_bytes > 0 && bytes > max_bytes)
}

/// Evicts least recently used entries until the bounds hold.
pub open spec fn evicted(s: Seq<CachedImage>, lru_size: nat, max_bytes: nat) -> Seq<CachedImage>
    decreases s.len(),
{
    if s.len() > 0 && over_limits(lru_size, max_bytes, s.len(), total_bytes(s)) {
        evicted(s.drop_first(), lru_size, max_bytes)
    } else {
        s
    }
}

/// Index of the entry with `key`, or -1.
pub open spec fn index_of_key(s: Seq<CachedImage>, key: usize) -> int
    decreases s.len(),
{
    if s.len() == 0 {
        -1
    } else if s.last().key == key {
        s.len() - 1
    } else {
        index_of_key(s.drop_last(), key)
    }
}

/// The entries with the one at `i` moved to the most recent position.
pub open spec fn touched(s: Seq<CachedImage>, i: int) -> Seq<CachedImage> {
    s.remove(i).push(s[i])
}

pub proof fn lemma_total_bytes_push(s: Seq<CachedImage>, e: CachedImage)
    ensures
        total_bytes(s.push(e)) == total_bytes(s) + e.bytes@.len(),
{
    assert(s.push(e).drop_last() == s);
}

pub proof fn lemma_total_bytes_remove(s: Seq<CachedImage>, i: int)
    requires
        0 <= i < s.len(),
    ensures
        total_bytes(s) == total_bytes(s.remove(i)) + s[i].bytes@.len(),
    decreases s.len(),
{
    if i < s.len() - 1 {
        lemma_total_bytes_remove(s.drop_last(), i);
        assert(s.remove(i) == s.drop_last().remove(i).push(s.last()));
        lemma_total_bytes_push(s.drop_last().remove(i), s.last());
    } else {
        assert(s.remove(i) == s.drop_last());
    }
}

pub proof fn lemma_total_bytes_drop_first(s: Seq<CachedImage>)
    requires
        s.len() > 0,
    ensures
        total_bytes(s) == total_bytes(s.drop_first()) + s[0].bytes@.len(),
{
    lemma_total_bytes_remove(s, 0);
    assert(s.remove(0) == s.drop_first());
}

pub proof fn lemma_index_of_key(s: Seq<CachedImage>, key: usize)
    ensures
        -1 <= index_of_key(s, key) < s.len(),
        index_of_key(s, key) >= 0 ==> s[index_of_key(s, key)].key == key,
        index_of_key(s, key) < 0 ==> forall|i: int| 0 <= i < s.len() ==> #[trigger] s[i].key != key,
        keys_unique(s) && index_of_key(s, key) >= 0 ==> forall|i: int|
            0 <= i < s.len() && #[trigger] s[i].key == key ==> i == index_of_key(s, key),
    decreases s.len(),
{
    if s.len() > 0 && s.last().key != key {
        lemma_index_of_key(s.drop_last(), key);
        assert forall|i: int| 0 <= i < s.len() - 1 implies #[trigger] s[i] == s.drop_last()[i] by {}
    }
}

proof fn lemma_index_of_key_at(s: Seq<CachedImage>, key: usize, k: int)
    requires
        keys_unique(s),
        0 <= k < s.len(),
        s[k].key == key,
    ensures
        index_of_key(s, key) == k,
{
    lemma_index_of_key(s, key);
}

proof fn lemma_index_of_key_none(s: Seq<CachedImage>, key: usize)
    requires
        forall|i: int| 0 <= i < s.len() ==> #[trigger] s[i].key != key,
    ensures
        index_of_key(s, key) == -1,
{
    lemma_index_of_key(s, key);
}

/// Removing entries keeps the keys unique.
proof fn lemma_unique_remove(s: Seq<CachedImage>, i: int)
    requires
        keys_unique(s),
        0 <= i < s.len(),
    ensures
        keys_unique(s.remove(i)),
{
    let t = s.remove(i);
    assert forall|a: int, b: int| 0 <= a < b < t.len() implies #[trigger] t[a].key != #[trigger] t[b].key by {
        let oa = if a < i { a } else { a + 1 };
        let ob = if b < i { b } else { b + 1 };
        assert(t[a] == s[oa]);
        assert(t[b] == s[ob]);
    }
}

/// The evicted entries form a suffix of the input.
proof fn lemma_evicted_suffix(s: Seq<CachedImage>, lru: nat, max: nat)
    ensures
        exists|k: int| 0 <= k <= s.len() && #[trigger] s.skip(k) == evicted(s, lru, max),
    decreases s.len(),
{
    if s.len() > 0 && over_limits(lru, max, s.len(), total_bytes(s)) {
        lemma_evicted_suffix(s.drop_first(), lru, max);
        let k = choose|k: int| 0 <= k <= s.drop_first().len() && #[trigger] s.drop_first().skip(k) == evicted(s.drop_first(), lru, max);
        assert(s.skip(k + 1) == s.drop_first().skip(k));
    } else {
        assert(s.skip(0) == s);
    }
}

/// After eviction the bounds hold.
pub proof fn lemma_evicted_within_limits(s: Seq<CachedImage>, lru: nat, max: nat)
    ensures
        !over_limits(lru, max, evicted(s, lru, max).len(), total_bytes(evicted(s, lru, max))),
    decreases s.len(),
{
    if s.len() > 0 && over_limits(lru, max, s.len(), total_bytes(s)) {
        lemma_evicted_within_limits(s.drop_first(), lru, max);
    } else if s.len() == 0 {
    }
}

/// Eviction keeps the most recent entry when that entry fits alone.
pub proof fn lemma_evicted_keeps_last(s: Seq<CachedImage>, lru: nat, max: nat)
    requires
        s.len() > 0,
        max == 0 || s.last().bytes@.len() <= max,
    ensures
        evicted(s, lru, max).len() > 0,
        evicted(s, lru, max).last() == s.last(),
    decreases s.len(),
{
    if s.len() > 0 && over_limits(lru, max, s.len(), total_bytes(s)) {
        if s.len() == 1 {
            lemma_total_bytes_drop_first(s);
            assert(total_bytes(s.drop_first()) == 0);
            assert(false);
        }
        assert(s.drop_first().last() == s.last());
        lemma_evicted_keeps_last(s.drop_first(), lru, max);
    }
}

impl ImageCache {
    /// The entries, least recently used first.
    pub closed spec fn entries(&self) -> Seq<CachedImage> {
        self.entries@
    }

    /// The bound on the number of entries (0: none).
    pub closed spec fn lru_bound(&self) -> nat {
        self.lru_size as nat
    }

    /// The bound on the total byte size (0: none).
    pub closed spec fn byte_bound(&self) -> nat {
        self.max_bytes as nat
    }

    /// The byte size of all cached entries.
    pub closed spec fn byte_count(&self) -> nat {
        self.current_bytes as nat
    }

    /// Whether the cache stores anything at all.
    pub open spec fn is_enabled(&self) -> bool {
        self.lru_bound() > 0 || self.byte_bound() > 0
    }

    /// Keys are unique, the byte counter is exact and the bounds hold.
    pub open spec fn wf(&self) -> bool {
        &&& keys_unique(self.entries())
        &&& self.byte_count() == total_bytes(self.entries())
        &&& !over_limits(self.lru_bound(), self.byte_bound(), self.entries().len(), self.byte_count())
    }

    /// Whether an entry with `key` is cached.
    pub open spec fn has_key(&self, key: usize) -> bool {
        exists|i: int| 0 <= i < self.entries().len() && #[trigger] self.entries()[i].key == key
    }

    /// An empty cache with the given bounds.
    pub fn new(lru_size: usize, max_bytes: usize) -> (r: Self)
        ensures
            r.wf(),
            r.entries().len() == 0,
            r.lru_bound() == lru_size,
            r.byte_bound() == max_bytes,
            r.byte_count() == 0,
    {
        ImageCache { lru_size, max_bytes, current_bytes: 0, entries: Vec::new() }
    }

    /// Whether the cache stores anything (some bound is non-zero).
    pub fn enabled(&self) -> (r: bool)
        ensures
            r == self.is_enabled(),
    {
        self.lru_size > 0 || self.max_bytes > 0
    }

    /// Number of cached entries.
    pub fn len(&self) -> (r: usize)
        ensures
            r == self.entries().len(),
    {
        self.entries.len()
    }

    /// Total byte size of the cached entries.
    pub fn current_bytes(&self) -> (r: usize)
        ensures
            r == self.byte_count(),
    {
        self.current_bytes
    }

    fn find(&self, key: usize) -> (r: Option<usize>)
        requires
            keys_unique(self.entries()),
        ensures
            match r {
                Some(i) => i < self.entries().len() && self.entries()[i as int].key == key && index_of_key(self.entries(), key) == i,
                None => !self.has_key(key) && index_of_key(self.entries(), key) == -1,
            },
    {
        let mut i: usize = 0;
        while i < self.entries.len()
            invariant
                i <= self.entries@.len(),
                keys_unique(self.entries@),
                forall|k: int| 0 <= k < i ==> #[trigger] self.entries@[k].key != key,
            decreases self.entries@.len() - i,
        {
            if self.entries[i].key == key {
                proof {
                    lemma_index_of_key_at(self.entries@, key, i as int);
                }
                return Some(i);
            }
            i = i + 1;
        }
        proof {
            lemma_index_of_key_none(self.entries@, key);
        }
        None
    }

    /// Whether an entry with `key` is cached.
    pub fn contains(&self, key: usize) -> (r: bool)
        requires
            self.wf(),
        ensures
            r == self.has_key(key),
    {
        self.find(key).is_some()
    }

    /// Moves the entry at `i` to the most recent position.
    fn touch_at(&mut self, i: usize)
        requires
            old(self).wf(),
            i < old(self).entries().len(),
        ensures
            final(self).wf(),
            final(self).entries() == touched(old(self).entries(), i as int),
            final(self).lru_bound() == old(self).lru_bound(),
            final(self).byte_bound() == old(self).byte_bound(),
    {
        let ghost s = self.entries@;
        let e = self.entries.remove(i);
        self.entries.push(e);
        proof {
            lemma_unique_remove(s, i as int);
            lemma_total_bytes_remove(s, i as int);
            lemma_total_bytes_push(s.remove(i as int), s[i as int]);
            let t = self.entries@;
            assert forall|a: int, b: int| 0 <= a < b < t.len() implies #[trigger] t[a].key != #[trigger] t[b].key by {
                if b == t.len() - 1 {
                    let oa = if a < i { a } else { a + 1 };
                    assert(t[a] == s[oa]);
                    assert(oa != i);
                }
            }
        }
    }

    /// The bytes cached under `key`, marking the entry most recently used.
    pub fn get(&mut self, key: usize) -> (r: Option<Vec<u8>>)
        requires
            old(self).wf(),
        ensures
            final(self).wf(),
            final(self).lru_bound() == old(self).lru_bound(),
            final(self).byte_bound() == old(self).byte_bound(),
            match r {
                Some(b) => {
                    let i = index_of_key(old(self).entries(), key);
                    &&& i >= 0
                    &&& b@ == old(self).entries()[i].bytes@
                    &&& final(self).entries() == touched(old(self).entries(), i)
                },
                None => !old(self).has_key(key) && final(self).entries() == old(self).entries(),
            },
    {
        match self.find(key) {
            Some(i) => {
                let bytes = self.entries[i].bytes.clone();
                assert(bytes@ =~= self.entries@[i as int].bytes@);
                self.touch_at(i);
                Some(bytes)
            },
            None => None,
        }
    }

    /// The decoded frame cached under `key`, if there is one; the entry is
    /// marked most recently used only when a frame is returned.
    pub fn get_rgba(&mut self, key: usize) -> (r: Option<RgbaFrame>)
        requires
            old(self).wf(),
        ensures
            final(self).wf(),
            final(self).lru_bound() == old(self).lru_bound(),
            final(self).byte_bound() == old(self).byte_bound(),
            match r {
                Some(f) => {
                    let i = index_of_key(old(self).entries(), key);
                    &&& i >= 0
                    &&& old(self).entries()[i].rgba matches Some(g) && f.width == g.width && f.height == g.height && f.pixels@ == g.pixels@
                    &&& final(self).entries() == touched(old(self).entries(), i)
                },
                None => (!old(self).has_key(key) || old(self).entries()[index_of_key(old(self).entries(), key)].rgba is None)
                    && final(self).entries() == old(self).entries(),
            },
    {
        match self.find(key) {
            Some(i) => {
                let frame = match &self.entries[i].rgba {
                    Some(f) => f.clone(),
                    None => {
                        return None;
                    },
                };
                self.touch_at(i);
                Some(frame)
            },
            None => None,
        }
    }

    /// Attaches a decoded frame to the entry cached under `key` (if any),
    /// marking it most recently used.
    pub fn insert_rgba(&mut self, key: usize, rgba: RgbaFrame)
        requires
            old(self).wf(),
        ensures
            final(self).wf(),
            final(self).lru_bound() == old(self).lru_bound(),
            final(self).byte_bound() == old(self).byte_bound(),
            ({
                let i = index_of_key(old(self).entries(), key);
                if i >= 0 {
                    let e = old(self).entries()[i];
                    final(self).entries() == old(self).entries().remove(i).push(
                        CachedImage { key: e.key, bytes: e.bytes, rgba: Some(rgba) },
                    )
                } else {
                    final(self).entries() == old(self).entries()
                }
            }),
    {
        match self.find(key) {
            Some(i) => {
                let ghost s = self.entries@;
                let mut e = self.entries.remove(i);
                e.rgba = Some(rgba);
                self.entries.push(e);
                proof {
                    lemma_unique_remove(s, i as int);
                    lemma_total_bytes_remove(s, i as int);
                    lemma_total_bytes_push(s.remove(i as int), e);
                    let t = self.entries@;
                    assert forall|a: int, b: int| 0 <= a < b < t.len() implies #[trigger] t[a].key != #[trigger] t[b].key by {
                        if b == t.len() - 1 {
                            let oa = if a < i { a } else { a + 1 };
                            assert(t[a] == s[oa]);
                        }
                    }
                }
            },
            None => {},
        }
    }

    /// Caches `value` under `key` as the most recent entry (replacing an
    /// older value and dropping its frame), then evicts least recently used
    /// entries until both bounds hold. A disabled cache ignores the call.
    pub fn insert(&mut self, key: usize, value: Vec<u8>)
        requires
            old(self).wf(),
            old(self).byte_count() + value@.len() <= usize::MAX,
        ensures
            final(self).wf(),
            final(self).lru_bound() == old(self).lru_bound(),
            final(self).byte_bound() == old(self).byte_bound(),
            !old(self).is_enabled() ==> final(self).entries() == old(self).entries(),
            old(self).is_enabled() ==> {
                let i = index_of_key(old(self).entries(), key);
                let kept = if i >= 0 {
                    old(self).entries().remove(i)
                } else {
                    old(self).entries()
                };
                final(self).entries() == evicted(
                    kept.push(CachedImage { key, bytes: value, rgba: None }),
                    old(self).lru_bound(),
                    old(self).byte_bound(),
                )
            },
    {
        if !self.enabled() {
            return;
        }
        let ghost s = self.entries@;
        let new_bytes = value.len();
        let cached = CachedImage { key, bytes: value, rgba: None };
        match self.find(key) {
            Some(i) => {
                let old_entry = self.entries.remove(i);
                let old_bytes = old_entry.bytes.len();
                proof {
                    lemma_total_bytes_remove(s, i as int);
                    lemma_unique_remove(s, i as int);
                }
                self.current_bytes = self.current_bytes + new_bytes - old_bytes;
            },
            None => {
                self.current_bytes = self.current_bytes + new_bytes;
            },
        }
        let ghost kept = self.entries@;
        self.entries.push(cached);
        proof {
            lemma_total_bytes_push(kept, cached);
            let t = self.entries@;
            assert forall|a: int, b: int| 0 <= a < b < t.len() implies #[trigger] t[a].key != #[trigger] t[b].key by {
                if b == t.len() - 1 {
                    assert(t[a] == kept[a]);
                    lemma_index_of_key(s, key);
                    if index_of_key(s, key) >= 0 {
                        let i = index_of_key(s, key);
                        let oa = if a < i { a } else { a + 1 };
                        assert(kept[a] == s[oa]);
                        assert(oa != i);
                    }
                }
            }
        }
        self.evict_if_needed();
    }

    /// Evicts least recently used entries until both bounds hold.
    fn evict_if_needed(&mut self)
        requires
            keys_unique(old(self).entries()),
            old(self).byte_count() == total_bytes(old(self).entries()),
        ensures
            final(self).wf(),
            final(self).entries() == evicted(old(self).entries(), old(self).lru_bound(), old(self).byte_bound()),
            final(self).lru_bound() == old(self).lru_bound(),
            final(self).byte_bound() == old(self).byte_bound(),
    {
        let ghost target = evicted(self.entries@, self.lru_size as nat, self.max_bytes as nat);
        while self.exceeds_limits() && self.entries.len() > 0
            invariant
                keys_unique(self.entries()),
                self.byte_count() == total_bytes(self.entries()),
                evicted(self.entries(), self.lru_bound(), self.byte_bound()) == target,
                self.lru_bound() == old(self).lru_bound(),
                self.byte_bound() == old(self).byte_bound(),
            decreases self.entries@.len(),
        {
            let ghost s = self.entries@;
            let removed = self.entries.remove(0);
            proof {
                lemma_total_bytes_drop_first(s);
                assert(s.remove(0) == s.drop_first());
                lemma_unique_remove(s, 0);
            }
            self.current_bytes = self.current_bytes - removed.bytes.len();
        }
        proof {
            lemma_evicted_within_limits(self.entries@, self.lru_size as nat, self.max_bytes as nat);
        }
    }

    /// Whether a bound is broken.
    fn exceeds_limits(&self) -> (r: bool)
        ensures
            r == over_limits(self.lru_bound(), self.byte_bound(), self.entries().len(), self.byte_count()),
    {
        (self.lru_size > 0 && self.entries.len() > self.lru_size) || (self.max_bytes > 0
            && self.current_bytes > self.max_bytes)
    }

    /// Empties the cache (the bounds stay).
    pub fn clear(&mut self)
        requires
            old(self).wf(),
        ensures
            final(self).wf(),
            final(self).entries().len() == 0,
            final(self).lru_bound() == old(self).lru_bound(),
            final(self).byte_bound() == old(self).byte_bound(),
    {
        self.entries.clear();
        self.current_bytes = 0;
    }
}

/// What a read gives back of a write: after `insert(key, value)` on an
/// enabled cache, `key` is cached with exactly `value`, as the most recent
/// entry, provided the value fits within the byte bound on its own.
pub proof fn lemma_insert_then_get(
    before: Seq<CachedImage>,
    key: usize,
    value: Vec<u8>,
    lru: nat,
    max: nat,
)
    requires
        max == 0 || value@.len() <= max,
    ensures
        ({
            let i = index_of_key(before, key);
            let kept = if i >= 0 {
                before.remove(i)
            } else {
                before
            };
            let after = evicted(kept.push(CachedImage { key, bytes: value, rgba: None }), lru, max);
            after.len() > 0 && after.last().key == key && after.last().bytes == value
        }),
{
    let i = index_of_key(before, key);
    let kept = if i >= 0 {
        before.remove(i)
    } else {
        before
    };
    lemma_evicted_keeps_last(kept.push(CachedImage { key, bytes: value, rgba: None }), lru, max);
}

/// Insertion adds no key but its own: after `insert(key, value)` every
/// other key that is cached was cached before (the others are at most
/// evicted).
pub proof fn lemma_insert_adds_no_other_key(
    before: Seq<CachedImage>,
    key: usize,
    value: Vec<u8>,
    lru: nat,
    max: nat,
    other: usize,
)
    requires
        other != key,
    ensures
        ({
            let i = index_of_key(before, key);
            let kept = if i >= 0 {
                before.remove(i)
            } else {
                before
            };
            let after = evicted(kept.push(CachedImage { key, bytes: value, rgba: None }), lru, max);
            keys_of(after).contains(other) ==> keys_of(before).contains(other)
        }),
{
    let i = index_of_key(before, key);
    let kept = if i >= 0 {
        before.remove(i)
    } else {
        before
    };
    let s = kept.push(CachedImage { key, bytes: value, rgba: None });
    let after = evicted(s, lru, max);
    lemma_evicted_suffix(s, lru, max);
    if keys_of(after).contains(other) {
        let j = choose|j: int| 0 <= j < keys_of(after).len() && keys_of(after)[j] == other;
        let k = choose|k: int| 0 <= k <= s.len() && #[trigger] s.skip(k) == after;
        assert(after[j] == s[k + j]);
        assert(after[j].key == other);
        let m = k + j;
        assert(m < kept.len());
        assert(s[m] == kept[m]);
        if i >= 0 {
            lemma_index_of_key(before, key);
            let n = if m < i {
                m
            } else {
                m + 1
            };
            assert(kept[m] == before[n]);
            assert(keys_of(before)[n] == other);
        } else {
            assert(keys_of(before)[m] == other);
        }
    }
}

/// Eviction only ever drops the least recently used entries: what stays
/// is a suffix of the entries, in the same order.
pub proof fn lemma_eviction_drops_oldest(s: Seq<CachedImage>, lru: nat, max: nat)
    ensures
        exists|k: int| 0 <= k <= s.len() && #[trigger] s.skip(k) == evicted(s, lru, max),
{
    lemma_evicted_suffix(s, lru, max);
}

} // verus!

verus! {

/// What is known of one image of the list, besides its bytes.
#[derive(Debug)]
pub struct CacheEntry {
    pub index: usize,
    pub image_dimensions: Option<(u32, u32)>,
    pub payload_hash: Option<u64>,
    pub metadata_hash: Option<u64>,
    /// The terminal image id it was uploaded under, with the payload hash
    /// of that upload.
    pub kitty_id: Option<(u32, u64)>,
}

/// The image cache together with per-image facts and the counter of
/// terminal image ids.
#[derive(Debug)]
pub struct CacheState {
    pub image_cache: ImageCache,
    pub entries: Vec<CacheEntry>,
    pub next_kitty_id: u32,
}

/// Position of the entry for image `index`, or -1.
pub open spec fn entry_position(s: Seq<CacheEntry>, index: usize) -> int
    decreases s.len(),
{
    if s.len() == 0 {
        -1
    } else if s.last().index == index {
        s.len() - 1
    } else {
        entry_position(s.drop_last(), index)
    }
}

proof fn lemma_entry_position(s: Seq<CacheEntry>, index: usize)
    ensures
        -1 <= entry_position(s, index) < s.len(),
        entry_position(s, index) >= 0 ==> s[entry_position(s, index)].index == index,
        entry_position(s, index) == -1 ==> forall|k: int| 0 <= k < s.len() ==> #[trigger] s[k].index != index,
    decreases s.len(),
{
    if s.len() > 0 && s.last().index != index {
        lemma_entry_position(s.drop_last(), index);
        assert forall|k: int| 0 <= k < s.len() - 1 implies #[trigger] s[k].index == s.drop_last()[k].index by {
        }
    }
}

/// The id that follows `id` in the counter: `wrapping_add(1)`, never 0.
pub open spec fn next_id_after(id: u32) -> u32 {
    if id == u32::MAX {
        1
    } else {
        (id + 1) as u32
    }
}

impl CacheState {
    /// The per-image entries.
    pub open spec fn entry_seq(&self) -> Seq<CacheEntry> {
        self.entries@
    }

    /// The next terminal image id to hand out (0 counts as 1).
    pub open spec fn next_id(&self) -> u32 {
        self.next_kitty_id
    }

    /// The entry for image `index`, if any.
    pub open spec fn lookup(&self, index: usize) -> Option<CacheEntry> {
        let p = entry_position(self.entry_seq(), index);
        if p >= 0 {
            Some(self.entry_seq()[p])
        } else {
            None
        }
    }

    /// The terminal image id under which image `index` was uploaded with
    /// payload hash `hash`, if it was.
    pub open spec fn kitty_id_for(&self, index: usize, hash: u64) -> Option<u32> {
        match self.lookup(index) {
            Some(e) => match e.kitty_id {
                Some((id, h)) => if h == hash {
                    Some(id)
                } else {
                    None
                },
                None => None,
            },
            None => None,
        }
    }

    /// The cache is well formed and no image is recorded under id 0.
    pub open spec fn wf(&self) -> bool {
        &&& self.image_cache.wf()
        &&& forall|k: int|
            0 <= k < self.entry_seq().len() ==> match (#[trigger] self.entry_seq()[k]).kitty_id {
                Some((id, _)) => id != 0,
                None => true,
            }
    }

    /// An empty state with the cache bounds given.
    pub fn new(lru_size: usize, max_bytes: usize) -> (r: Self)
        ensures
            r.wf(),
            r.image_cache.entries().len() == 0,
            r.image_cache.lru_bound() == lru_size,
            r.image_cache.byte_bound() == max_bytes,
            r.entry_seq().len() == 0,
            r.next_id() == 1,
    {
        CacheState { image_cache: ImageCache::new(lru_size, max_bytes), entries: Vec::new(), next_kitty_id: 1 }
    }

    fn find(&self, index: usize) -> (r: Option<usize>)
        ensures
            match r {
                Some(p) => p as int == entry_position(self.entry_seq(), index) && p < self.entry_seq().len(),
                None => entry_position(self.entry_seq(), index) == -1,
            },
    {
        let mut k: usize = self.entries.len();
        assert(self.entries@.take(k as int) == self.entries@);
        while k > 0
            invariant
                k <= self.entries@.len(),
                entry_position(self.entries@, index) == entry_position(self.entries@.take(k as int), index),
            decreases k,
        {
            let ghost t = self.entries@.take(k as int);
            if self.entries[k - 1].index == index {
                assert(t.last() == self.entries@[k - 1]);
                return Some(k - 1);
            }
            assert(t.drop_last() == self.entries@.take(k - 1));
            k = k - 1;
        }
        None
    }

    /// The terminal image id of image `index` for payload hash `hash`.
    pub fn cached_kitty_image_id(&self, index: usize, payload_hash: u64) -> (r: Option<u32>)
        ensures
            r == self.kitty_id_for(index, payload_hash),
    {
        proof {
            lemma_entry_position(self.entries@, index);
        }
        match self.find(index) {
            Some(p) => match self.entries[p].kitty_id {
                Some((id, h)) => if h == payload_hash {
                    Some(id)
                } else {
                    None
                },
                None => None,
            },
            None => None,
        }
    }

    /// The terminal image id to upload image `index` under, and whether it
    /// is one already in use for this payload: a known id is reused,
    /// otherwise the counter hands out the next one (never 0) and the entry
    /// records it.
    pub fn ensure_kitty_image_id(&mut self, index: usize, payload_hash: u64) -> (r: (u32, bool))
        requires
            old(self).wf(),
        ensures
            final(self).wf(),
            final(self).image_cache == old(self).image_cache,
            match old(self).kitty_id_for(index, payload_hash) {
                Some(id) => r == (id, true) && final(self).entry_seq() == old(self).entry_seq()
                    && final(self).next_id() == old(self).next_id(),
                None => {
                    let next = if old(self).next_id() == 0 {
                        1u32
                    } else {
                        old(self).next_id()
                    };
                    &&& r == (next, false)
                    &&& final(self).next_id() == next_id_after(next)
                    &&& final(self).kitty_id_for(index, payload_hash) == Some(next)
                    &&& forall|j: usize| j != index ==> #[trigger] final(self).lookup(j) == old(self).lookup(j)
                },
            },
            r.0 != 0,
            final(self).kitty_id_for(index, payload_hash) == Some(r.0),
    {
        if let Some(id) = self.cached_kitty_image_id(index, payload_hash) {
            proof {
                lemma_entry_position(self.entries@, index);
                let p = entry_position(self.entries@, index);
                assert(self.entries@[p].kitty_id is Some);
            }
            return (id, true);
        }
        let mut next = self.next_kitty_id;
        if next == 0 {
            next = 1;
        }
        self.next_kitty_id = if next == u32::MAX {
            1
        } else {
            next + 1
        };
        let ghost before = self.entries@;
        proof {
            lemma_entry_position(before, index);
        }
        match self.find(index) {
            Some(p) => {
                let e = &self.entries[p];
                let updated = CacheEntry {
                    index,
                    image_dimensions: e.image_dimensions,
                    payload_hash: e.payload_hash,
                    metadata_hash: e.metadata_hash,
                    kitty_id: Some((next, payload_hash)),
                };
                self.entries.set(p, updated);
                proof {
                    lemma_entry_position(self.entries@, index);
                    assert forall|j: usize| j != index implies #[trigger] self.lookup(j) == old(self).lookup(j) by {
                        lemma_entry_position(before, j);
                        lemma_entry_position(self.entries@, j);
                        lemma_entry_position_same(before, self.entries@, j, p as int);
                    }
                    lemma_entry_position_same(before, self.entries@, index, p as int);
                    assert forall|k: int| 0 <= k < self.entries@.len() implies match (#[trigger] self.entries@[k]).kitty_id {
                        Some((id, _)) => id != 0,
                        None => true,
                    } by {
                        if k != p {
                            assert(self.entries@[k] == before[k]);
                        }
                    }
                }
            },
            None => {
                self.entries.push(CacheEntry {
                    index,
                    image_dimensions: None,
                    payload_hash: None,
                    metadata_hash: None,
                    kitty_id: Some((next, payload_hash)),
                });
                proof {
                    assert(self.entries@.drop_last() == before);
                    assert(self.entries@.last().index == index);
                    assert(entry_position(self.entries@, index) == before.len());
                    assert forall|j: usize| j != index implies #[trigger] self.lookup(j) == old(self).lookup(j) by {
                        assert(entry_position(self.entries@, j) == entry_position(before, j));
                        lemma_entry_position(before, j);
                        if entry_position(before, j) >= 0 {
                            assert(self.entries@[entry_position(before, j)] == before[entry_position(before, j)]);
                        }
                    }
                    assert forall|k: int| 0 <= k < self.entries@.len() implies match (#[trigger] self.entries@[k]).kitty_id {
                        Some((id, _)) => id != 0,
                        None => true,
                    } by {
                        if k < before.len() {
                            assert(self.entries@[k] == before[k]);
                        }
                    }
                }
            },
        }
        (next, false)
    }

    /// The entry for image `index`, or a fresh one with nothing known.
    pub open spec fn entry_or_new(&self, index: usize) -> CacheEntry {
        match self.lookup(index) {
            Some(e) => e,
            None => CacheEntry {
                index,
                image_dimensions: None,
                payload_hash: None,
                metadata_hash: None,
                kitty_id: None,
            },
        }
    }

    /// Stores `e` as the entry of its image, in place of the old one or
    /// after the others.
    fn put_entry(&mut self, e: CacheEntry)
        requires
            old(self).wf(),
            match e.kitty_id {
                Some((id, _)) => id != 0,
                None => true,
            },
        ensures
            final(self).wf(),
            final(self).image_cache == old(self).image_cache,
            final(self).next_id() == old(self).next_id(),
            final(self).lookup(e.index) == Some(e),
            forall|j: usize| j != e.index ==> #[trigger] final(self).lookup(j) == old(self).lookup(j),
    {
        let index = e.index;
        let ghost before = self.entries@;
        let ghost ev = e;
        proof {
            lemma_entry_position(before, index);
        }
        match self.find(index) {
            Some(p) => {
                self.entries.set(p, e);
                proof {
                    lemma_entry_position(self.entries@, index);
                    lemma_entry_position_same(before, self.entries@, index, p as int);
                    assert forall|j: usize| j != index implies #[trigger] self.lookup(j) == old(self).lookup(j) by {
                        lemma_entry_position(before, j);
                        lemma_entry_position(self.entries@, j);
                        lemma_entry_position_same(before, self.entries@, j, p as int);
                    }
                    assert forall|k: int| 0 <= k < self.entries@.len() implies match (#[trigger] self.entries@[k]).kitty_id {
                        Some((id, _)) => id != 0,
                        None => true,
                    } by {
                        if k != p {
                            assert(self.entries@[k] == before[k]);
                        }
                    }
                }
            },
            None => {
                self.entries.push(e);
                proof {
                    assert(self.entries@.drop_last() == before);
                    assert(self.entries@.last() == ev);
                    assert(entry_position(self.entries@, index) == before.len());
                    assert forall|j: usize| j != index implies #[trigger] self.lookup(j) == old(self).lookup(j) by {
                        assert(entry_position(self.entries@, j) == entry_position(before, j));
                        lemma_entry_position(before, j);
                        if entry_position(before, j) >= 0 {
                            assert(self.entries@[entry_position(before, j)] == before[entry_position(before, j)]);
                        }
                    }
                    assert forall|k: int| 0 <= k < self.entries@.len() implies match (#[trigger] self.entries@[k]).kitty_id {
                        Some((id, _)) => id != 0,
                        None => true,
                    } by {
                        if k < before.len() {
                            assert(self.entries@[k] == before[k]);
                        }
                    }
                }
            },
        }
    }

    /// The entry of image `index` as it stands (a fresh one when none is
    /// kept).
    fn current_entry(&self, index: usize) -> (r: CacheEntry)
        requires
            self.wf(),
        ensures
            r == self.entry_or_new(index),
            r.index == index,
            match r.kitty_id {
                Some((id, _)) => id != 0,
                None => true,
            },
    {
        proof {
            lemma_entry_position(self.entries@, index);
        }
        match self.find(index) {
            Some(p) => {
                let e = &self.entries[p];
                CacheEntry {
                    index: e.index,
                    image_dimensions: e.image_dimensions,
                    payload_hash: e.payload_hash,
                    metadata_hash: e.metadata_hash,
                    kitty_id: e.kitty_id,
                }
            },
            None => CacheEntry {
                index,
                image_dimensions: None,
                payload_hash: None,
                metadata_hash: None,
                kitty_id: None,
            },
        }
    }

    /// The known size in pixels of image `index`.
    pub fn image_dimensions_of(&self, index: usize) -> (r: Option<(u32, u32)>)
        requires
            self.wf(),
        ensures
            r == self.entry_or_new(index).image_dimensions,
    {
        self.current_entry(index).image_dimensions
    }

    /// The known payload hash of image `index`.
    pub fn payload_hash_of(&self, index: usize) -> (r: Option<u64>)
        requires
            self.wf(),
        ensures
            r == self.entry_or_new(index).payload_hash,
    {
        self.current_entry(index).payload_hash
    }

    /// The known metadata hash of image `index`.
    pub fn metadata_hash_of(&self, index: usize) -> (r: Option<u64>)
        requires
            self.wf(),
        ensures
            r == self.entry_or_new(index).metadata_hash,
    {
        self.current_entry(index).metadata_hash
    }

    /// Records the size in pixels of image `index`.
    pub fn record_image_dimensions(&mut self, index: usize, dims: (u32, u32))
        requires
            old(self).wf(),
        ensures
            final(self).wf(),
            final(self).image_cache == old(self).image_cache,
            final(self).next_id() == old(self).next_id(),
            final(self).lookup(index) == Some(CacheEntry { image_dimensions: Some(dims), ..old(self).entry_or_new(index) }),
            forall|j: usize| j != index ==> #[trigger] final(self).lookup(j) == old(self).lookup(j),
    {
        let e = self.current_entry(index);
        self.put_entry(CacheEntry { image_dimensions: Some(dims), ..e });
    }

    /// Records the payload hash of image `index`.
    pub fn record_payload_hash(&mut self, index: usize, hash: u64)
        requires
            old(self).wf(),
        ensures
            final(self).wf(),
            final(self).image_cache == old(self).image_cache,
            final(self).next_id() == old(self).next_id(),
            final(self).lookup(index) == Some(CacheEntry { payload_hash: Some(hash), ..old(self).entry_or_new(index) }),
            forall|j: usize| j != index ==> #[trigger] final(self).lookup(j) == old(self).lookup(j),
    {
        let e = self.current_entry(index);
        self.put_entry(CacheEntry { payload_hash: Some(hash), ..e });
    }

    /// Records the metadata hash of image `index`.
    pub fn record_metadata_hash(&mut self, index: usize, hash: u64)
        requires
            old(self).wf(),
        ensures
            final(self).wf(),
            final(self).image_cache == old(self).image_cache,
            final(self).next_id() == old(self).next_id(),
            final(self).lookup(index) == Some(CacheEntry { metadata_hash: Some(hash), ..old(self).entry_or_new(index) }),
            forall|j: usize| j != index ==> #[trigger] final(self).lookup(j) == old(self).lookup(j),
    {
        let e = self.current_entry(index);
        self.put_entry(CacheEntry { metadata_hash: Some(hash), ..e });
    }

    /// Forgets everything known per image position: the cached bytes and
    /// the per-image entries (after the list was re-ordered).
    pub fn clear_positions(&mut self)
        requires
            old(self).wf(),
        ensures
            final(self).wf(),
            final(self).image_cache.entries().len() == 0,
            final(self).image_cache.lru_bound() == old(self).image_cache.lru_bound(),
            final(self).image_cache.byte_bound() == old(self).image_cache.byte_bound(),
            final(self).entry_seq().len() == 0,
            final(self).next_id() == old(self).next_id(),
    {
        self.image_cache.clear();
        self.entries.clear();
    }
}

/// What is recorded for an image is what is read back for it, and
/// recording for one image leaves what is known of the others.
pub proof fn lemma_recorded_facts_read_back(before: CacheState, after: CacheState, index: usize, dims: (u32, u32), other: usize)
    requires
        other != index,
        after.lookup(index) == Some(CacheEntry { image_dimensions: Some(dims), ..before.entry_or_new(index) }),
        forall|j: usize| j != index ==> #[trigger] after.lookup(j) == before.lookup(j),
    ensures
        after.entry_or_new(index).image_dimensions == Some(dims),
        after.entry_or_new(index).payload_hash == before.entry_or_new(index).payload_hash,
        after.entry_or_new(other) == before.entry_or_new(other),
{
    assert(after.lookup(other) == before.lookup(other));
}

/// Two entry lists that differ only at `p` (or nowhere, for -1), where both
/// hold an entry for an image other than `j`, give `j` the same position.
proof fn lemma_entry_position_same(a: Seq<CacheEntry>, b: Seq<CacheEntry>, j: usize, p: int)
    requires
        a.len() == b.len(),
        forall|k: int| 0 <= k < a.len() && k != p ==> #[trigger] a[k] == b[k],
        0 <= p < a.len() ==> a[p].index == b[p].index,
    ensures
        entry_position(a, j) == entry_position(b, j),
    decreases a.len(),
{
    if a.len() > 0 {
        assert(a.last().index == b.last().index);
        lemma_entry_position_same(a.drop_last(), b.drop_last(), j, p);
    }
}

} // verus!
