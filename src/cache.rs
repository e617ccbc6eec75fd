//! The time-bounded result cache: materialized search results keyed by
//! collection and raw query, swept when it grows and invalidated per
//! collection on writes.
use vstd::prelude::*;
use crate::document::{Document, Val, docs_view, copy_docs};

verus! {

/// Past this many entries, storing sweeps out every expired entry.
pub const SWEEP_THRESHOLD: usize = 100;

/// One cached result set.
pub struct CacheEntry {
    pub collection: String,
    pub query: String,
    pub results: Vec<Document>,
    pub timestamp: u64,
    pub ttl_seconds: u64,
}

/// The model of a cache entry.
pub struct CachedV {
    pub collection: Seq<char>,
    pub query: Seq<char>,
    pub results: Seq<Val>,
    pub timestamp: u64,
    pub ttl_seconds: u64,
}

impl CacheEntry {
    pub open spec fn view(&self) -> CachedV {
        CachedV {
            collection: self.collection@,
            query: self.query@,
            results: docs_view(self.results@),
            timestamp: self.timestamp,
            ttl_seconds: self.ttl_seconds,
        }
    }

    /// The entry is usable at time `now` (seconds).
    pub fn is_valid(&self, now: u64) -> (r: bool)
        ensures
            r == entry_live(self@, now),
    {
        now < self.timestamp || now - self.timestamp < self.ttl_seconds
    }
}

/// An entry is usable while `now < timestamp + ttl`.
pub open spec fn entry_live(e: CachedV, now: u64) -> bool {
    now < e.timestamp + e.ttl_seconds
}

/// The entry is keyed by collection `c` and query `q`.
pub open spec fn keyed(e: CachedV, c: Seq<char>, q: Seq<char>) -> bool {
    e.collection == c && e.query == q
}

/// Index of the first entry keyed by `c` and `q`, or -1.
pub open spec fn find_entry(s: Seq<CachedV>, c: Seq<char>, q: Seq<char>) -> int
    decreases s.len(),
{
    if s.len() == 0 {
        -1
    } else if find_entry(s.drop_last(), c, q) >= 0 {
        find_entry(s.drop_last(), c, q)
    } else if keyed(s.last(), c, q) {
        s.len() - 1
    } else {
        -1
    }
}

/// What a lookup of `c` and `q` at time `now` finds: the results of the
/// entry with that key while it is usable.
pub open spec fn cache_lookup(s: Seq<CachedV>, c: Seq<char>, q: Seq<char>, now: u64) -> Option<
    Seq<Val>,
> {
    let i = find_entry(s, c, q);
    if i >= 0 && entry_live(s[i], now) {
        Some(s[i].results)
    } else {
        None
    }
}

/// The entries usable at time `now`, in order.
pub open spec fn live_only(s: Seq<CachedV>, now: u64) -> Seq<CachedV>
    decreases s.len(),
{
    if s.len() == 0 {
        Seq::empty()
    } else if entry_live(s.last(), now) {
        live_only(s.drop_last(), now).push(s.last())
    } else {
        live_only(s.drop_last(), now)
    }
}

/// The entries of every collection but `c`, in order.
pub open spec fn without_collection(s: Seq<CachedV>, c: Seq<char>) -> Seq<CachedV>
    decreases s.len(),
{
    if s.len() == 0 {
        Seq::empty()
    } else if s.last().collection != c {
        without_collection(s.drop_last(), c).push(s.last())
    } else {
        without_collection(s.drop_last(), c)
    }
}

/// `e` takes the place of the entry with its key, or is appended.
pub open spec fn upsert(s: Seq<CachedV>, e: CachedV) -> Seq<CachedV> {
    let i = find_entry(s, e.collection, e.query);
    if i >= 0 {
        s.update(i, e)
    } else {
        s.push(e)
    }
}

/// The entries after storing `e` at time `now`: upserted, then swept of
/// expired entries when more than `SWEEP_THRESHOLD` remain.
pub open spec fn stored(s: Seq<CachedV>, e: CachedV, now: u64) -> Seq<CachedV> {
    let u = upsert(s, e);
    if u.len() > SWEEP_THRESHOLD {
        live_only(u, now)
    } else {
        u
    }
}

/// The models of an optional result set.
pub open spec fn opt_docs_view(r: Option<Vec<Document>>) -> Option<Seq<Val>> {
    match r {
        Some(v) => Some(docs_view(v@)),
        None => None,
    }
}

/// `find_entry` gives the first index with the key.
pub proof fn lemma_find_entry(s: Seq<CachedV>, c: Seq<char>, q: Seq<char>)
    ensures
        -1 <= find_entry(s, c, q) < s.len(),
        find_entry(s, c, q) >= 0 ==> keyed(s[find_entry(s, c, q)], c, q),
        forall|j: int|
            0 <= j < s.len() && (find_entry(s, c, q) < 0 || j < find_entry(s, c, q)) ==> !keyed(
                #[trigger] s[j],
                c,
                q,
            ),
    decreases s.len(),
{
    if s.len() > 0 {
        lemma_find_entry(s.drop_last(), c, q);
        assert forall|j: int|
            0 <= j < s.len() && (find_entry(s, c, q) < 0 || j < find_entry(s, c, q)) implies !keyed(
            #[trigger] s[j],
            c,
            q,
        ) by {
            if j < s.len() - 1 {
                assert(s.drop_last()[j] == s[j]);
            }
        }
    }
}

/// The index of the first entry with the key is determined by the two
/// properties `lemma_find_entry` states.
pub proof fn lemma_find_entry_is(s: Seq<CachedV>, c: Seq<char>, q: Seq<char>, i: int)
    requires
        -1 <= i < s.len(),
        i >= 0 ==> keyed(s[i], c, q),
        forall|j: int| 0 <= j < s.len() && (i < 0 || j < i) ==> !keyed(#[trigger] s[j], c, q),
    ensures
        find_entry(s, c, q) == i,
{
    lemma_find_entry(s, c, q);
    let f = find_entry(s, c, q);
    if f >= 0 && i >= 0 {
        if f < i {
            assert(!keyed(s[f], c, q));
        } else if i < f {
            assert(!keyed(s[i], c, q));
        }
    } else if f >= 0 {
        assert(!keyed(s[f], c, q));
    } else if i >= 0 {
        assert(!keyed(s[i], c, q));
    }
}

/// Sweeping keeps the first entry with a key when it is usable, and
/// it stays the first entry with that key.
pub proof fn lemma_live_only_find(s: Seq<CachedV>, c: Seq<char>, q: Seq<char>, now: u64)
    requires
        find_entry(s, c, q) >= 0,
        entry_live(s[find_entry(s, c, q)], now),
    ensures
        find_entry(live_only(s, now), c, q) >= 0,
        live_only(s, now)[find_entry(live_only(s, now), c, q)] == s[find_entry(s, c, q)],
    decreases s.len(),
{
    let init = s.drop_last();
    assert(init.push(s.last()) =~= s);
    lemma_live_only_prefix(init, s.last(), now);
    if find_entry(init, c, q) >= 0 {
        lemma_find_entry(init, c, q);
        assert(init[find_entry(init, c, q)] == s[find_entry(init, c, q)]);
        lemma_live_only_find(init, c, q, now);
        let l = live_only(init, now);
        let f = find_entry(l, c, q);
        lemma_find_entry(l, c, q);
        if entry_live(s.last(), now) {
            lemma_find_entry_is(l.push(s.last()), c, q, f);
            assert(l.push(s.last())[f] == l[f]);
        }
    } else {
        lemma_find_entry(init, c, q);
        lemma_live_only_none(init, c, q, now);
        let l = live_only(init, now);
        lemma_find_entry(l, c, q);
        lemma_find_entry_is(l.push(s.last()), c, q, l.len() as int);
    }
}

/// Appending to the entries before sweeping appends after sweeping, or not.
proof fn lemma_live_only_prefix(s: Seq<CachedV>, e: CachedV, now: u64)
    ensures
        live_only(s.push(e), now) == if entry_live(e, now) {
            live_only(s, now).push(e)
        } else {
            live_only(s, now)
        },
{
    assert(s.push(e).drop_last() =~= s);
}

/// Sweeping entries none of which has a key leaves none with it.
proof fn lemma_live_only_none(s: Seq<CachedV>, c: Seq<char>, q: Seq<char>, now: u64)
    requires
        forall|j: int| 0 <= j < s.len() ==> !keyed(#[trigger] s[j], c, q),
    ensures
        forall|j: int| 0 <= j < live_only(s, now).len() ==> !keyed(#[trigger] live_only(s, now)[j], c, q),
    decreases s.len(),
{
    if s.len() > 0 {
        let init = s.drop_last();
        assert forall|j: int| 0 <= j < init.len() implies !keyed(#[trigger] init[j], c, q) by {
            assert(init[j] == s[j]);
        }
        lemma_live_only_none(init, c, q, now);
        let l = live_only(init, now);
        if entry_live(s.last(), now) {
            assert forall|j: int| 0 <= j < l.push(s.last()).len() implies !keyed(#[trigger] l.push(s.last())[j], c, q) by {
                if j < l.len() {
                    assert(l.push(s.last())[j] == l[j]);
                }
            }
        }
    }
}

/// No two entries share a key.
pub open spec fn keys_unique(s: Seq<CachedV>) -> bool {
    forall|i: int, j: int|
        0 <= i < j < s.len() ==> !keyed(#[trigger] s[i], s[j].collection, #[trigger] s[j].query)
}

/// Entry `j` of `sub` is entry `idx[j]` of `s`, with `idx` increasing.
pub open spec fn subsequence_by(sub: Seq<CachedV>, s: Seq<CachedV>, idx: Seq<int>) -> bool {
    &&& idx.len() == sub.len()
    &&& forall|j: int| 0 <= j < sub.len() ==> 0 <= #[trigger] idx[j] < s.len() && sub[j] == s[idx[j]]
    &&& forall|j: int, k: int| 0 <= j < k < sub.len() ==> #[trigger] idx[j] < #[trigger] idx[k]
}

/// Every entry of `sub` is an entry of `s`, and `sub` keeps their order.
pub open spec fn is_subsequence(sub: Seq<CachedV>, s: Seq<CachedV>) -> bool {
    exists|idx: Seq<int>| #[trigger] subsequence_by(sub, s, idx)
}

/// A subsequence of entries with unique keys has unique keys.
proof fn lemma_subsequence_unique(sub: Seq<CachedV>, s: Seq<CachedV>)
    requires
        is_subsequence(sub, s),
        keys_unique(s),
    ensures
        keys_unique(sub),
{
    let idx = choose|idx: Seq<int>|
        subsequence_by(sub, s, idx);
    assert forall|i: int, j: int| 0 <= i < j < sub.len() implies !keyed(#[trigger] sub[i], sub[j].collection, #[trigger] sub[j].query) by {
        assert(idx[i] < idx[j]);
        assert(sub[i] == s[idx[i]]);
        assert(sub[j] == s[idx[j]]);
    }
}

/// Sweeping keeps a subsequence.
proof fn lemma_live_only_subsequence(s: Seq<CachedV>, now: u64)
    ensures
        is_subsequence(live_only(s, now), s),
    decreases s.len(),
{
    if s.len() == 0 {
        assert(is_subsequence(live_only(s, now), s) ) by {
            let idx: Seq<int> = Seq::empty();
            assert(subsequence_by(live_only(s, now), s, idx));
        }
    } else {
        let init = s.drop_last();
        lemma_live_only_subsequence(init, now);
        let l = live_only(init, now);
        let idx0 = choose|idx: Seq<int>|
            subsequence_by(l, init, idx);
        if entry_live(s.last(), now) {
            let idx = idx0.push(init.len() as int);
            let r = l.push(s.last());
            assert(forall|j: int| 0 <= j < r.len() ==> 0 <= #[trigger] idx[j] < s.len() && r[j] == s[idx[j]]);
            assert(forall|j: int, k: int| 0 <= j < k < r.len() ==> #[trigger] idx[j] < #[trigger] idx[k]);
            assert(subsequence_by(r, s, idx));
        } else {
            assert(forall|j: int| 0 <= j < l.len() ==> 0 <= #[trigger] idx0[j] < s.len() && l[j] == s[idx0[j]]);
            assert(subsequence_by(l, s, idx0));
        }
    }
}

/// Dropping a collection keeps a subsequence, and none of its entries.
proof fn lemma_without_collection(s: Seq<CachedV>, c: Seq<char>)
    ensures
        is_subsequence(without_collection(s, c), s),
        forall|j: int| 0 <= j < without_collection(s, c).len() ==> (#[trigger] without_collection(s, c)[j]).collection != c,
    decreases s.len(),
{
    if s.len() == 0 {
        assert(is_subsequence(without_collection(s, c), s) ) by {
            let idx: Seq<int> = Seq::empty();
            assert(subsequence_by(without_collection(s, c), s, idx));
        }
    } else {
        let init = s.drop_last();
        lemma_without_collection(init, c);
        let l = without_collection(init, c);
        let idx0 = choose|idx: Seq<int>|
            subsequence_by(l, init, idx);
        if s.last().collection != c {
            let idx = idx0.push(init.len() as int);
            let r = l.push(s.last());
            assert(forall|j: int| 0 <= j < r.len() ==> 0 <= #[trigger] idx[j] < s.len() && r[j] == s[idx[j]]);
            assert(forall|j: int, k: int| 0 <= j < k < r.len() ==> #[trigger] idx[j] < #[trigger] idx[k]);
            assert(subsequence_by(r, s, idx));
            assert forall|j: int| 0 <= j < r.len() implies (#[trigger] r[j]).collection != c by {
                if j < l.len() {
                    assert(r[j] == l[j]);
                }
            }
        } else {
            assert(forall|j: int| 0 <= j < l.len() ==> 0 <= #[trigger] idx0[j] < s.len() && l[j] == s[idx0[j]]);
            assert(subsequence_by(l, s, idx0));
        }
    }
}

/// After an upsert the entry stored is the one found under its key, and
/// with unique keys before, keys stay unique and no other entry has it.
proof fn lemma_upsert(s: Seq<CachedV>, e: CachedV)
    ensures
        find_entry(upsert(s, e), e.collection, e.query) >= 0,
        upsert(s, e)[find_entry(upsert(s, e), e.collection, e.query)] == e,
        keys_unique(s) ==> keys_unique(upsert(s, e)),
        keys_unique(s) ==> forall|j: int|
            0 <= j < upsert(s, e).len() && j != find_entry(upsert(s, e), e.collection, e.query) ==> !keyed(
                #[trigger] upsert(s, e)[j],
                e.collection,
                e.query,
            ),
{
    let c = e.collection;
    let q = e.query;
    lemma_find_entry(s, c, q);
    let i = find_entry(s, c, q);
    let u = upsert(s, e);
    if i >= 0 {
        lemma_find_entry_is(u, c, q, i);
        if keys_unique(s) {
            assert forall|a: int, b: int| 0 <= a < b < u.len() implies !keyed(#[trigger] u[a], u[b].collection, #[trigger] u[b].query) by {
                if a == i {
                    assert(!keyed(s[a], s[b].collection, s[b].query));
                } else if b == i {
                    assert(!keyed(s[a], s[b].collection, s[b].query));
                }
            }
            assert forall|j: int| 0 <= j < u.len() && j != i implies !keyed(#[trigger] u[j], c, q) by {
                if j < i {
                } else {
                    assert(!keyed(s[i], s[j].collection, s[j].query));
                }
            }
        }
    } else {
        lemma_find_entry_is(u, c, q, s.len() as int);
        if keys_unique(s) {
            assert forall|a: int, b: int| 0 <= a < b < u.len() implies !keyed(#[trigger] u[a], u[b].collection, #[trigger] u[b].query) by {
                if b == s.len() {
                    assert(!keyed(s[a], c, q));
                }
            }
        }
    }
}

/// Sweeping entries none of which has a key while usable leaves none with it.
proof fn lemma_live_only_drops(s: Seq<CachedV>, c: Seq<char>, q: Seq<char>, now: u64)
    requires
        forall|j: int| 0 <= j < s.len() && #[trigger] keyed(s[j], c, q) ==> !entry_live(s[j], now),
    ensures
        forall|j: int| 0 <= j < live_only(s, now).len() ==> !keyed(#[trigger] live_only(s, now)[j], c, q),
    decreases s.len(),
{
    if s.len() > 0 {
        let init = s.drop_last();
        assert forall|j: int| 0 <= j < init.len() && #[trigger] keyed(init[j], c, q) implies !entry_live(init[j], now) by {
            assert(init[j] == s[j]);
        }
        lemma_live_only_drops(init, c, q, now);
        let l = live_only(init, now);
        if entry_live(s.last(), now) {
            assert forall|j: int| 0 <= j < l.push(s.last()).len() implies !keyed(#[trigger] l.push(s.last())[j], c, q) by {
                if j < l.len() {
                    assert(l.push(s.last())[j] == l[j]);
                }
            }
        }
    }
}

/// Storing keeps keys unique.
pub proof fn lemma_stored_unique(s: Seq<CachedV>, e: CachedV, now: u64)
    requires
        keys_unique(s),
    ensures
        keys_unique(stored(s, e, now)),
{
    lemma_upsert(s, e);
    lemma_live_only_subsequence(upsert(s, e), now);
    if upsert(s, e).len() > SWEEP_THRESHOLD {
        lemma_subsequence_unique(live_only(upsert(s, e), now), upsert(s, e));
    }
}

/// Invalidating keeps keys unique.
pub proof fn lemma_invalidated_unique(s: Seq<CachedV>, c: Seq<char>)
    requires
        keys_unique(s),
    ensures
        keys_unique(without_collection(s, c)),
{
    lemma_without_collection(s, c);
    lemma_subsequence_unique(without_collection(s, c), s);
}

/// Cache round trip: results stored at time `now` with time-to-live `ttl`
/// are what a lookup of the same key at any later time `t` returns while
/// `t < now + ttl`; from then on the lookup finds nothing.
pub proof fn lemma_store_then_lookup(
    s: Seq<CachedV>,
    c: Seq<char>,
    q: Seq<char>,
    results: Seq<Val>,
    ttl: u64,
    now: u64,
    t: u64,
)
    requires
        keys_unique(s),
        now <= t,
    ensures
        cache_lookup(
            stored(s, CachedV { collection: c, query: q, results, timestamp: now, ttl_seconds: ttl }, now),
            c,
            q,
            t,
        ) == if t < now + ttl {
            Some(results)
        } else {
            None::<Seq<Val>>
        },
{
    let e = CachedV { collection: c, query: q, results, timestamp: now, ttl_seconds: ttl };
    let u = upsert(s, e);
    lemma_upsert(s, e);
    if u.len() > SWEEP_THRESHOLD {
        if entry_live(e, now) {
            lemma_live_only_find(u, c, q, now);
        } else {
            assert forall|j: int| 0 <= j < u.len() && #[trigger] keyed(u[j], c, q) implies !entry_live(u[j], now) by {
            }
            lemma_live_only_drops(u, c, q, now);
            lemma_find_entry_is(live_only(u, now), c, q, -1);
        }
    }
}

/// Write invalidation: once a collection is invalidated, no lookup under
/// it finds anything, whatever the query and the time.
pub proof fn lemma_invalidate_then_lookup(s: Seq<CachedV>, c: Seq<char>, q: Seq<char>, t: u64)
    ensures
        cache_lookup(without_collection(s, c), c, q, t) is None,
{
    lemma_without_collection(s, c);
    lemma_find_entry_is(without_collection(s, c), c, q, -1);
}

/// The result cache: one entry per collection and query.
pub struct SearchCache {
    entries: Vec<CacheEntry>,
}

impl SearchCache {
    pub closed spec fn view(&self) -> Seq<CachedV> {
        self.entries@.map_values(|e: CacheEntry| e@)
    }

    /// An empty cache.
    pub fn new() -> (r: SearchCache)
        ensures
            r@ == Seq::<CachedV>::empty(),
    {
        let r = SearchCache { entries: Vec::new() };
        assert(r@ =~= Seq::<CachedV>::empty());
        r
    }

    /// Number of entries held.
    pub fn entry_count(&self) -> (r: usize)
        ensures
            r == self@.len(),
    {
        self.entries.len()
    }

    /// Index of the first entry keyed by `collection` and `query`.
    fn find(&self, collection: &str, query: &str) -> (r: Option<usize>)
        ensures
            find_entry(self@, collection@, query@) == match r {
                Some(i) => i as int,
                None => -1,
            },
            r matches Some(i) ==> i < self.entries.len(),
    {
        let c = String::from_str(collection);
        let q = String::from_str(query);
        let ghost s = self@;
        let mut i: usize = 0;
        while i < self.entries.len()
            invariant
                i <= self.entries.len(),
                s == self@,
                s.len() == self.entries.len(),
                c@ == collection@,
                q@ == query@,
                forall|j: int| 0 <= j < i ==> !keyed(#[trigger] s[j], collection@, query@),
            decreases self.entries.len() - i,
        {
            if self.entries[i].collection.eq(&c) && self.entries[i].query.eq(&q) {
                proof {
                    lemma_find_entry_is(s, collection@, query@, i as int);
                }
                return Some(i);
            }
            i = i + 1;
        }
        proof {
            lemma_find_entry_is(s, collection@, query@, -1);
        }
        None
    }

    /// Removes every entry not usable at time `now`.
    fn sweep(&mut self, now: u64)
        ensures
            final(self)@ == live_only(old(self)@, now),
    {
        let ghost s = self@;
        let ghost n = s.len();
        assert(n == self.entries.len());
        let mut i: usize = 0;
        let mut j: usize = 0;
        while i < self.entries.len()
            invariant
                n == s.len(),
                n <= usize::MAX,
                j <= n,
                i == live_only(s.subrange(0, j as int), now).len(),
                self@ == live_only(s.subrange(0, j as int), now) + s.subrange(j as int, n as int),
                self.entries.len() == i + (n - j),
            decreases self.entries.len() - i,
        {
            let ghost before = self@;
            proof {
                assert(s.subrange(0, j + 1).drop_last() =~= s.subrange(0, j as int));
                assert(before[i as int] == s[j as int]);
            }
            if self.entries[i].is_valid(now) {
                i = i + 1;
                proof {
                    assert(self@ =~= live_only(s.subrange(0, j + 1), now) + s.subrange(j + 1, n as int));
                }
            } else {
                let _gone = self.entries.remove(i);
                proof {
                    assert(self@ =~= before.remove(i as int));
                    assert(self@ =~= live_only(s.subrange(0, j + 1), now) + s.subrange(j + 1, n as int));
                }
            }
            j = j + 1;
        }
        proof {
            assert(j == n);
            assert(s.subrange(0, n as int) =~= s);
            assert(self@ =~= live_only(s, now));
        }
    }
}

/// The cached results for `query` on collection `path`, when an entry is
/// usable at time `now` (seconds); a copy, so that later changes to the
/// collection do not reach it.
pub fn get_cached_search(cache: &SearchCache, path: &str, query: &str, now: u64) -> (r: Option<Vec<Document>>)
    ensures
        opt_docs_view(r) == cache_lookup(cache@, path@, query@, now),
{
    match cache.find(path, query) {
        Some(i) => {
            if cache.entries[i].is_valid(now) {
                Some(copy_docs(&cache.entries[i].results))
            } else {
                None
            }
        },
        None => None,
    }
}

/// Stores `results` for `query` on collection `path` at time `now` with a
/// time-to-live of `ttl_seconds`, in place of an entry with the same key;
/// past `SWEEP_THRESHOLD` entries, every expired entry is then removed.
pub fn cache_search_results(
    cache: &mut SearchCache,
    path: &str,
    query: &str,
    results: Vec<Document>,
    ttl_seconds: u64,
    now: u64,
)
    ensures
        final(cache)@ == stored(
            old(cache)@,
            CachedV {
                collection: path@,
                query: query@,
                results: docs_view(results@),
                timestamp: now,
                ttl_seconds,
            },
            now,
        ),
        keys_unique(old(cache)@) ==> keys_unique(final(cache)@),
{
    let ghost s = cache@;
    let entry = CacheEntry {
        collection: String::from_str(path),
        query: String::from_str(query),
        results,
        timestamp: now,
        ttl_seconds,
    };
    let ghost e = entry@;
    match cache.find(path, query) {
        Some(i) => {
            cache.entries.set(i, entry);
            proof {
                assert(cache@ =~= s.update(i as int, e));
            }
        },
        None => {
            cache.entries.push(entry);
            proof {
                assert(cache@ =~= s.push(e));
            }
        },
    }
    if cache.entries.len() > SWEEP_THRESHOLD {
        cache.sweep(now);
    }
    proof {
        if keys_unique(s) {
            lemma_stored_unique(s, e, now);
        }
    }
}

/// Removes every entry of collection `path`.
pub fn invalidate_cache_for_path(cache: &mut SearchCache, path: &str)
    ensures
        final(cache)@ == without_collection(old(cache)@, path@),
        keys_unique(old(cache)@) ==> keys_unique(final(cache)@),
{
    let c = String::from_str(path);
    let ghost s = cache@;
    let ghost n = s.len();
    assert(n == cache.entries.len());
    let mut i: usize = 0;
    let mut j: usize = 0;
    while i < cache.entries.len()
        invariant
            n == s.len(),
            n <= usize::MAX,
            c@ == path@,
            j <= n,
            i == without_collection(s.subrange(0, j as int), path@).len(),
            cache@ == without_collection(s.subrange(0, j as int), path@) + s.subrange(j as int, n as int),
            cache.entries.len() == i + (n - j),
        decreases cache.entries.len() - i,
    {
        let ghost before = cache@;
        proof {
            assert(s.subrange(0, j + 1).drop_last() =~= s.subrange(0, j as int));
            assert(before[i as int] == s[j as int]);
        }
        if cache.entries[i].collection.eq(&c) {
            let _gone = cache.entries.remove(i);
            proof {
                assert(cache@ =~= before.remove(i as int));
                assert(cache@ =~= without_collection(s.subrange(0, j + 1), path@) + s.subrange(j + 1, n as int));
            }
        } else {
            i = i + 1;
            proof {
                assert(cache@ =~= without_collection(s.subrange(0, j + 1), path@) + s.subrange(j + 1, n as int));
            }
        }
        j = j + 1;
    }
    proof {
        assert(s.subrange(0, n as int) =~= s);
        assert(cache@ =~= without_collection(s, path@));
        if keys_unique(s) {
            lemma_invalidated_unique(s, path@);
        }
    }
}

/// Removes every entry.
pub fn clear_search_cache(cache: &mut SearchCache)
    ensures
        final(cache)@ == Seq::<CachedV>::empty(),
{
    cache.entries.clear();
    assert(cache@ =~= Seq::<CachedV>::empty());
}

} // verus!
