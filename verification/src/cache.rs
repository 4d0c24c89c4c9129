//! The cache of loaded script environments, by script id.
//!
//! Each entry holds the handle under which the host keeps the environment
//! table that running the script's global scope produced, so that the scope
//! runs once per load. Eviction follows W-TinyLFU (`caches::WTinyLFUCache`):
//! recency in a small window, frequency in the main segments.
use vstd::prelude::*;

use caches::{Cache, WTinyLFUCache};

verus! {

/// `caches::WTinyLFUCache`.
#[verifier::external_type_specification]
#[verifier::external_body]
#[verifier::reject_recursive_types(K)]
#[verifier::reject_recursive_types(V)]
#[verifier::reject_recursive_types(KH)]
#[verifier::reject_recursive_types(FH)]
#[verifier::reject_recursive_types(RH)]
#[verifier::reject_recursive_types(WH)]
pub struct ExWTinyLFUCache<K: std::hash::Hash, V, KH, FH, RH, WH>(
    caches::WTinyLFUCache<K, V, KH, FH, RH, WH>,
);

/// `caches::lfu::DefaultKeyHasher`, the key hasher of the frequency sketch.
#[verifier::external_type_specification]
#[verifier::external_body]
#[verifier::reject_recursive_types(K)]
pub struct ExDefaultKeyHasher<K: std::hash::Hash + Eq>(caches::lfu::DefaultKeyHasher<K>);

/// The entries of a cache: script id text to module handle.
pub uninterp spec fn cache_entries(c: WTinyLFUCache<String, u64>) -> Map<Seq<char>, u64>;

/// The total capacity a cache was made with (window + protected +
/// probationary).
pub uninterp spec fn cache_capacity(c: WTinyLFUCache<String, u64>) -> nat;

/// The capacity of a cache's window segment.
pub uninterp spec fn cache_window_capacity(c: WTinyLFUCache<String, u64>) -> nat;

/// The number of entries a cache's window segment holds.
pub uninterp spec fn cache_window_len(c: WTinyLFUCache<String, u64>) -> nat;

/// Whether two states of one cache have the same configuration.
pub open spec fn same_shape(a: WTinyLFUCache<String, u64>, b: WTinyLFUCache<String, u64>) -> bool {
    &&& cache_capacity(a) == cache_capacity(b)
    &&& cache_window_capacity(a) == cache_window_capacity(b)
}

/// Handle `h` belonged, before a store under `k`, to an entry that is gone
/// after it, or to `k` itself.
pub open spec fn released_from(
    before: Map<Seq<char>, u64>,
    after: Map<Seq<char>, u64>,
    k: Seq<char>,
    h: u64,
) -> bool {
    exists|key: Seq<char>|
        #[trigger] before.contains_key(key) && before[key] == h && (key == k || !after.contains_key(
            key,
        ))
}

/// The `Debug` form of the first error that the cache builder finds in a
/// configuration (window, protected, probationary, samples, in that order).
pub open spec fn init_error_text(window: usize, protected: usize, probationary: usize) -> Seq<
    char,
> {
    if window == 0 {
        "invalid window cache size: 0"@
    } else if protected == 0 {
        "invalid protected cache size: 0"@
    } else if probationary == 0 {
        "invalid probationary cache size: 0"@
    } else {
        "invalid number of samples: 0"@
    }
}

/// The message that refuses a cache configuration: `WTinyLFU init: ` and the
/// builder's error.
pub open spec fn init_error_message(
    window: usize,
    protected: usize,
    probationary: usize,
) -> Seq<char> {
    "WTinyLFU init: "@ + init_error_text(window, protected, probationary)
}

/// At most one entry of `before`, other than the one stored under `k`, is
/// missing from `after`.
pub open spec fn evicts_at_most_one(
    before: Map<Seq<char>, u64>,
    after: Map<Seq<char>, u64>,
    k: Seq<char>,
) -> bool {
    exists|x: Seq<char>| #[trigger] kept_but(before, after, k, x)
}

/// Every entry of `before` but those under `k` and `x` is still in `after`.
pub open spec fn kept_but(
    before: Map<Seq<char>, u64>,
    after: Map<Seq<char>, u64>,
    k: Seq<char>,
    x: Seq<char>,
) -> bool {
    forall|key: Seq<char>|
        #[trigger] before.contains_key(key) && key != x && key != k ==> after.contains_key(key)
}

/// `WTinyLFUCache::with_sizes`: a cache with the three segment sizes, the
/// given number of sketch samples and the default false positive ratio
/// (0.01). It is refused when a segment size or the number of samples is 0;
/// the error is handed back in its `Debug` form.
#[verifier::external_body]
fn cache_with_sizes(window: usize, protected: usize, probationary: usize, samples: usize) -> (r: Result<
    WTinyLFUCache<String, u64>,
    String,
>)
    requires
        window + protected + probationary <= usize::MAX,
    ensures
        (r is Ok) == (window > 0 && protected > 0 && probationary > 0 && samples > 0),
        r matches Err(e) ==> e@ == init_error_text(window, protected, probationary),
        r matches Ok(c) ==> cache_entries(c).dom().is_empty() && cache_capacity(c) == window
            + protected + probationary && cache_window_capacity(c) == window && cache_window_len(c)
            == 0,
{
    WTinyLFUCache::with_sizes(window, protected, probationary, samples).map_err(
        |e| format!("{:?}", e),
    )
}

/// `Cache::get`: the handle under `k`, if cached. It counts an access in the
/// frequency sketch and may move the entry between segments; the entries do
/// not change.
#[verifier::external_body]
fn cache_get(c: &mut WTinyLFUCache<String, u64>, k: &str) -> (r: Option<u64>)
    ensures
        cache_entries(*final(c)) == cache_entries(*old(c)),
        same_shape(*final(c), *old(c)),
        r == cache_entries(*old(c)).get(k@),
{
    c.get(k).copied()
}

/// `Cache::peek`: the handle under `k`, if cached, with no side effect.
#[verifier::external_body]
fn cache_peek(c: &WTinyLFUCache<String, u64>, k: &str) -> (r: Option<u64>)
    ensures
        r == cache_entries(*c).get(k@),
{
    c.peek(k).copied()
}

/// `Cache::put`: stores `v` under `k`. The new entry always enters (a new key
/// goes to the window segment); none is added or changed. When `k` is
/// already cached, or the window has room, nothing is evicted; otherwise the
/// window's least recent entry moves on to the main segments, and at most one
/// entry (that one, or the probationary segment's least recent) leaves. The
/// handles it reports (`PutResult`: the replaced value, or an evicted
/// entry's value) are those of entries that left the cache, or the previous
/// value of `k`.
#[verifier::external_body]
fn cache_put(c: &mut WTinyLFUCache<String, u64>, k: String, v: u64) -> (released: Vec<u64>)
    ensures
        cache_entries(*final(c)).contains_key(k@),
        cache_entries(*final(c))[k@] == v,
        cache_entries(*old(c)).contains_key(k@) || cache_window_len(*old(c)) < cache_window_capacity(
            *old(c),
        ) ==> cache_entries(*final(c)) == cache_entries(*old(c)).insert(k@, v),
        evicts_at_most_one(cache_entries(*old(c)), cache_entries(*final(c)), k@),
        !cache_entries(*old(c)).contains_key(k@) && cache_window_len(*old(c)) < cache_window_capacity(
            *old(c),
        ) ==> cache_window_len(*final(c)) == cache_window_len(*old(c)) + 1,
        forall|key: Seq<char>|
            #[trigger] cache_entries(*final(c)).contains_key(key) && key != k@ ==> cache_entries(
                *old(c),
            ).contains_key(key) && cache_entries(*final(c))[key] == cache_entries(*old(c))[key],
        forall|i: int|
            0 <= i < released@.len() ==> released_from(
                cache_entries(*old(c)),
                cache_entries(*final(c)),
                k@,
                #[trigger] released@[i],
            ),
        same_shape(*final(c), *old(c)),
{
    match c.put(k, v) {
        caches::PutResult::Put => Vec::new(),
        caches::PutResult::Update(old) => vec![old],
        caches::PutResult::Evicted { key: _, value } => vec![value],
        caches::PutResult::EvictedAndUpdate { evicted, update } => vec![evicted.1, update],
    }
}

/// `Cache::remove`: takes `k` out, handing back its handle.
#[verifier::external_body]
fn cache_remove(c: &mut WTinyLFUCache<String, u64>, k: &str) -> (r: Option<u64>)
    ensures
        cache_entries(*final(c)) == cache_entries(*old(c)).remove(k@),
        r == cache_entries(*old(c)).get(k@),
        same_shape(*final(c), *old(c)),
{
    c.remove(k)
}

/// `Cache::purge`: empties the cache and resets the frequency sketch.
#[verifier::external_body]
fn cache_purge(c: &mut WTinyLFUCache<String, u64>)
    ensures
        cache_entries(*final(c)).dom().is_empty(),
        cache_window_len(*final(c)) == 0,
        same_shape(*final(c), *old(c)),
{
    c.purge()
}

/// `Cache::contains`: whether `k` is cached.
#[verifier::external_body]
fn cache_contains(c: &WTinyLFUCache<String, u64>, k: &str) -> (r: bool)
    ensures
        r == cache_entries(*c).contains_key(k@),
{
    c.contains(k)
}

/// `Cache::len`: the number of cached entries, never above the capacity.
#[verifier::external_body]
fn cache_len(c: &WTinyLFUCache<String, u64>) -> (r: usize)
    ensures
        r == cache_entries(*c).len(),
        r <= cache_capacity(*c),
{
    c.len()
}

/// `Cache::cap`: the total capacity.
#[verifier::external_body]
fn cache_cap(c: &WTinyLFUCache<String, u64>) -> (r: usize)
    ensures
        r == cache_capacity(*c),
{
    c.cap()
}

/// `WTinyLFUCache::window_cache_len`: the entries in the window segment.
#[verifier::external_body]
fn cache_window_len_of(c: &WTinyLFUCache<String, u64>) -> (r: usize)
    ensures
        r == cache_window_len(*c),
        r <= cache_window_capacity(*c),
{
    c.window_cache_len()
}

/// `WTinyLFUCache::main_cache_len`: the entries in the protected and
/// probationary segments, those that are not in the window.
#[verifier::external_body]
fn cache_main_len_of(c: &WTinyLFUCache<String, u64>) -> (r: usize)
    ensures
        r + cache_window_len(*c) == cache_entries(*c).len(),
        r <= cache_capacity(*c) - cache_window_capacity(*c),
{
    c.main_cache_len()
}

/// `WTinyLFUCache::window_cache_cap`: the window segment's capacity.
#[verifier::external_body]
fn cache_window_cap_of(c: &WTinyLFUCache<String, u64>) -> (r: usize)
    ensures
        r == cache_window_capacity(*c),
{
    c.window_cache_cap()
}

/// `WTinyLFUCache::main_cache_cap`: the protected and probationary
/// segments' capacity.
#[verifier::external_body]
fn cache_main_cap_of(c: &WTinyLFUCache<String, u64>) -> (r: usize)
    ensures
        r + cache_window_capacity(*c) == cache_capacity(*c),
{
    c.main_cache_cap()
}

/// Cache of script environments, keyed by script id.
///
/// A new entry always enters the window segment. When the window is full,
/// its least recent entry moves on to the main segments, competing by
/// estimated frequency (a hit counts in the frequency sketch) with the
/// least recent entry of the probationary segment; this keeps hot scripts
/// cached through bursts of rarely used ones.
pub struct LuaTableCache {
    inner: WTinyLFUCache<String, u64>,
}

impl View for LuaTableCache {
    type V = Map<Seq<char>, u64>;

    closed spec fn view(&self) -> Map<Seq<char>, u64> {
        cache_entries(self.inner)
    }
}

impl LuaTableCache {
    /// The configured total capacity.
    pub closed spec fn capacity(&self) -> nat {
        cache_capacity(self.inner)
    }

    /// The configured capacity of the window segment.
    pub closed spec fn window_capacity(&self) -> nat {
        cache_window_capacity(self.inner)
    }

    /// The number of entries in the window segment.
    pub closed spec fn window_len(&self) -> nat {
        cache_window_len(self.inner)
    }

    /// An empty cache with the three segment sizes and `samples` sketch
    /// samples, or the error that refuses a segment size or sample count of 0.
    pub fn with_segments(window: usize, protected: usize, probationary: usize, samples: usize) -> (r:
        Result<LuaTableCache, String>)
        requires
            window + protected + probationary <= usize::MAX,
        ensures
            (r is Ok) == (window > 0 && protected > 0 && probationary > 0 && samples > 0),
            r matches Err(e) ==> e@ == init_error_message(window, protected, probationary),
            r matches Ok(c) ==> c@ == Map::<Seq<char>, u64>::empty() && c.capacity() == window
                + protected + probationary && c.window_capacity() == window && c.window_len() == 0,
    {
        match cache_with_sizes(window, protected, probationary, samples) {
            Ok(inner) => {
                let c = LuaTableCache { inner };
                proof {
                    assert(c@ =~= Map::<Seq<char>, u64>::empty());
                }
                Ok(c)
            },
            Err(e) => {
                let mut m = String::from_str("WTinyLFU init: ");
                m.append(e.as_str());
                Err(m)
            },
        }
    }

    /// A cache around an already configured `WTinyLFUCache`.
    pub fn from_cache(inner: WTinyLFUCache<String, u64>) -> (r: LuaTableCache)
        ensures
            r@ == cache_entries(inner),
            r.capacity() == cache_capacity(inner),
            r.window_capacity() == cache_window_capacity(inner),
    {
        LuaTableCache { inner }
    }

    /// The handle of the script's environment, if cached; counts the access
    /// in the frequency sketch (a hit may promote the entry from probationary
    /// to protected).
    pub fn get(&mut self, id: &str) -> (r: Option<u64>)
        ensures
            final(self)@ == old(self)@,
            final(self).capacity() == old(self).capacity(),
            final(self).window_capacity() == old(self).window_capacity(),
            r == old(self)@.get(id@),
    {
        cache_get(&mut self.inner, id)
    }

    /// The handle of the script's environment, if cached, with no effect on
    /// the frequency sketch or the recency order.
    pub fn peek(&self, id: &str) -> (r: Option<u64>)
        ensures
            r == self@.get(id@),
    {
        cache_peek(&self.inner, id)
    }

    /// Stores the handle of a freshly run script's environment. The entry
    /// always enters. Nothing else leaves when `id` was cached or the window
    /// has room; otherwise at most one other entry is evicted. Returns the
    /// handles that left the cache (and the replaced handle of `id`, if it
    /// was cached), so that their environments can be released.
    pub fn put(&mut self, id: String, module: u64) -> (released: Vec<u64>)
        ensures
            final(self)@.contains_key(id@),
            final(self)@[id@] == module,
            old(self)@.contains_key(id@) || old(self).window_len() < old(self).window_capacity()
                ==> final(self)@ == old(self)@.insert(id@, module),
            evicts_at_most_one(old(self)@, final(self)@, id@),
            !old(self)@.contains_key(id@) && old(self).window_len() < old(self).window_capacity()
                ==> final(self).window_len() == old(self).window_len() + 1,
            forall|key: Seq<char>|
                #[trigger] final(self)@.contains_key(key) && key != id@ ==> old(self)@.contains_key(key)
                    && final(self)@[key] == old(self)@[key],
            forall|i: int|
                0 <= i < released@.len() ==> released_from(
                    old(self)@,
                    final(self)@,
                    id@,
                    #[trigger] released@[i],
                ),
            final(self).capacity() == old(self).capacity(),
            final(self).window_capacity() == old(self).window_capacity(),
    {
        cache_put(&mut self.inner, id, module)
    }

    /// Takes `id` out of the cache, handing back its handle: it will run
    /// again on its next access.
    pub fn remove(&mut self, id: &str) -> (r: Option<u64>)
        ensures
            final(self)@ == old(self)@.remove(id@),
            r == old(self)@.get(id@),
            final(self).capacity() == old(self).capacity(),
            final(self).window_capacity() == old(self).window_capacity(),
    {
        cache_remove(&mut self.inner, id)
    }

    /// Empties the cache and resets the frequency sketch.
    pub fn purge(&mut self)
        ensures
            final(self)@ == Map::<Seq<char>, u64>::empty(),
            final(self).capacity() == old(self).capacity(),
            final(self).window_capacity() == old(self).window_capacity(),
    {
        cache_purge(&mut self.inner);
        proof {
            assert(cache_entries(self.inner) =~= Map::<Seq<char>, u64>::empty());
        }
    }

    /// Whether `id` is cached.
    pub fn contains(&self, id: &str) -> (r: bool)
        ensures
            r == self@.contains_key(id@),
    {
        cache_contains(&self.inner, id)
    }

    /// The number of cached environments (window, probationary and protected
    /// together); never above the capacity.
    pub fn len(&self) -> (r: usize)
        ensures
            r == self@.len(),
            r <= self.capacity(),
    {
        cache_len(&self.inner)
    }

    /// Whether nothing is cached.
    pub fn is_empty(&self) -> (r: bool)
        ensures
            r == (self@.len() == 0),
    {
        cache_len(&self.inner) == 0
    }

    /// The configured total capacity.
    pub fn cap(&self) -> (r: usize)
        ensures
            r == self.capacity(),
    {
        cache_cap(&self.inner)
    }

    /// `(window_len, main_len)`: the entries in the window segment and in the
    /// main (probationary and protected) segments.
    pub fn segment_lens(&self) -> (r: (usize, usize))
        ensures
            r.0 == self.window_len(),
            r.0 + r.1 == self@.len(),
            r.0 <= self.window_capacity(),
            r.1 <= self.capacity() - self.window_capacity(),
    {
        (cache_window_len_of(&self.inner), cache_main_len_of(&self.inner))
    }

    /// `(window_cap, main_cap)`: the configured capacities of the window
    /// segment and of the main segments.
    pub fn segment_caps(&self) -> (r: (usize, usize))
        ensures
            r.0 == self.window_capacity(),
            r.0 + r.1 == self.capacity(),
    {
        (cache_window_cap_of(&self.inner), cache_main_cap_of(&self.inner))
    }
}

} // verus!
