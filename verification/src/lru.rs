//! A cache of urls that holds no more than it was made for: in each of its parts
//! the oldest entry makes room for a new one. One that was made for none holds none.

use std::collections::VecDeque;

use rustc_hash::FxHashMap;
use vstd::prelude::*;

use crate::aof;
use crate::fxmap;
use crate::store;
use crate::store::NUM_SHARDS;
use crate::text;

verus! {

struct CacheEntry {
    u: String,
    e: i64,
    at: i64,
}

/// A url, when its link expires (0 for never), and when it was cached.
pub ghost struct Cached {
    pub u: Seq<char>,
    pub e: i64,
    pub at: i64,
}

impl View for CacheEntry {
    type V = Cached;

    closed spec fn view(&self) -> Cached {
        Cached { u: self.u@, e: self.e, at: self.at }
    }
}

struct CacheShard {
    map: FxHashMap<String, CacheEntry>,
    order: VecDeque<String>,
}

/// One part of the cache: its entries by code, and its codes, the oldest first.
#[verifier::ext_equal]
pub ghost struct PartView {
    pub rows: Map<Seq<char>, Cached>,
    pub order: Seq<Seq<char>>,
}

impl View for CacheShard {
    type V = PartView;

    closed spec fn view(&self) -> PartView {
        PartView {
            rows: fxmap::by_text(self.map@).map_values(|e: CacheEntry| e@),
            order: aof::texts(self.order@),
        }
    }
}

/// The cache.
pub struct Lru {
    shards: Vec<CacheShard>,
    cap_per_shard: usize,
    ttl_ms: i64,
}

/// The parts of the cache, how many entries each may have, and how long an entry
/// counts, in ms (0 for ever).
#[verifier::ext_equal]
pub ghost struct LruView {
    pub parts: Seq<PartView>,
    pub cap: int,
    pub ttl_ms: i64,
}

impl View for Lru {
    type V = LruView;

    closed spec fn view(&self) -> LruView {
        LruView {
            parts: Seq::new(self.shards@.len(), |k: int| self.shards@[k]@),
            cap: self.cap_per_shard as int,
            ttl_ms: self.ttl_ms,
        }
    }
}

/// The codes of a part stand in its order, each once, and are not too many.
pub open spec fn part_ok(p: PartView, cap: int) -> bool {
    store::enumerates(p.order, p.rows.dom()) && p.order.len() <= cap
}

/// The cache is whole.
pub open spec fn cache_ok(v: LruView) -> bool {
    &&& v.parts.len() == NUM_SHARDS
    &&& v.cap == 0 || v.cap >= 16
    &&& forall|k: int| 0 <= k < NUM_SHARDS ==> part_ok(#[trigger] v.parts[k], v.cap)
}

/// Codes without one of them.
pub open spec fn without(s: Seq<Seq<char>>, c: Seq<char>) -> Seq<Seq<char>>
    decreases s.len(),
{
    if s.len() == 0 {
        s
    } else if s[0] == c {
        s.skip(1)
    } else {
        seq![s[0]] + without(s.skip(1), c)
    }
}

/// A part without one entry.
pub open spec fn part_without(p: PartView, c: Seq<char>) -> PartView {
    PartView { rows: p.rows.remove(c), order: without(p.order, c) }
}

/// A part with an entry: it takes the place of one with the same code; else it is
/// the newest, and the oldest goes if there are too many. A part that may have none stays
/// as it is.
pub open spec fn part_with(p: PartView, cap: int, c: Seq<char>, x: Cached) -> PartView {
    if cap == 0 {
        p
    } else if p.rows.contains_key(c) {
        PartView { rows: p.rows.insert(c, x), order: p.order }
    } else if p.order.len() >= cap {
        PartView {
            rows: p.rows.remove(p.order[0]).insert(c, x),
            order: p.order.skip(1).push(c),
        }
    } else {
        PartView { rows: p.rows.insert(c, x), order: p.order.push(c) }
    }
}

/// An entry that does not count any more.
pub open spec fn stale(x: Cached, ttl_ms: i64, now: i64) -> bool {
    ttl_ms > 0 && now.wrapping_sub(x.at) > ttl_ms
}

/// The part that a code belongs in.
pub open spec fn part_of(v: LruView, c: Seq<char>) -> PartView {
    v.parts[store::shard_ix(c)]
}

/// The cache with another part.
pub open spec fn with_part(v: LruView, c: Seq<char>, p: PartView) -> LruView {
    LruView { parts: v.parts.update(store::shard_ix(c), p), ..v }
}

/// The entry of a code that counts and has not expired.
pub open spec fn fresh_entry(v: LruView, c: Seq<char>, now: i64) -> Option<Cached> {
    let p = part_of(v, c);
    if p.rows.contains_key(c) && !stale(p.rows[c], v.ttl_ms, now) && !(p.rows[c].e != 0
        && p.rows[c].e <= now) {
        Some(p.rows[c])
    } else {
        None
    }
}

/// The cache after a lookup: an entry that does not count any more is gone.
pub open spec fn after_get(v: LruView, c: Seq<char>, now: i64) -> LruView {
    let p = part_of(v, c);
    if p.rows.contains_key(c) && stale(p.rows[c], v.ttl_ms, now) {
        with_part(v, c, part_without(p, c))
    } else {
        v
    }
}

/// The cache after an entry was put in.
pub open spec fn after_put(v: LruView, c: Seq<char>, u: Seq<char>, e: i64, now: i64) -> LruView {
    with_part(v, c, part_with(part_of(v, c), v.cap, c, Cached { u, e, at: now }))
}

/// The cache after an entry was taken out.
pub open spec fn after_remove(v: LruView, c: Seq<char>) -> LruView {
    with_part(v, c, part_without(part_of(v, c), c))
}

proof fn lemma_without(s: Seq<Seq<char>>, c: Seq<char>)
    requires
        forall|i: int, j: int| 0 <= i < j < s.len() ==> s[i] != s[j],
    ensures
        without(s, c).len() <= s.len(),
        forall|i: int, j: int|
            0 <= i < j < without(s, c).len() ==> without(s, c)[i] != without(s, c)[j],
        forall|x: Seq<char>| #[trigger] without(s, c).contains(x) <==> s.contains(x) && x != c,
    decreases s.len(),
{
    if s.len() > 0 {
        let t = s.skip(1);
        let w = without(s, c);
        assert forall|x: Seq<char>| s.contains(x) <==> x == s[0] || #[trigger] t.contains(x) by {
            if s.contains(x) && x != s[0] {
                let k = choose|k: int| 0 <= k < s.len() && s[k] == x;
                assert(t[k - 1] == x);
            }
            if t.contains(x) {
                let k = choose|k: int| 0 <= k < t.len() && t[k] == x;
                assert(s[k + 1] == x);
            }
        }
        assert(s.contains(s[0]));
        if s[0] == c {
            assert(!t.contains(c)) by {
                if t.contains(c) {
                    let k = choose|k: int| 0 <= k < t.len() && t[k] == c;
                    assert(s[k + 1] == s[0]);
                }
            }
        } else {
            lemma_without(t, c);
            let r = without(t, c);
            assert(!t.contains(s[0])) by {
                if t.contains(s[0]) {
                    let k = choose|k: int| 0 <= k < t.len() && t[k] == s[0];
                    assert(s[k + 1] == s[0]);
                }
            }
            assert forall|x: Seq<char>| #[trigger] w.contains(x) <==> x == s[0] || r.contains(
                x,
            ) by {
                if w.contains(x) && x != s[0] {
                    let k = choose|k: int| 0 <= k < w.len() && w[k] == x;
                    assert(r[k - 1] == x);
                }
                if r.contains(x) {
                    let k = choose|k: int| 0 <= k < r.len() && r[k] == x;
                    assert(w[k + 1] == x);
                }
                assert(w[0] == s[0]);
            }
            assert forall|i: int, j: int| 0 <= i < j < w.len() implies w[i] != w[j] by {
                if i == 0 {
                    assert(r[j - 1] == w[j]);
                    assert(r.contains(r[j - 1]));
                } else {
                    assert(w[i] == r[i - 1] && w[j] == r[j - 1]);
                }
            }
            assert(t.contains(c) || !t.contains(c));
        }
    }
}

proof fn lemma_enumerates(s: Seq<Seq<char>>, d: Set<Seq<char>>)
    requires
        store::enumerates(s, d),
    ensures
        forall|x: Seq<char>| #[trigger] s.contains(x) <==> d.contains(x),
{
    assert forall|x: Seq<char>| #[trigger] s.contains(x) <==> d.contains(x) by {
        if s.contains(x) {
            let k = choose|k: int| 0 <= k < s.len() && s[k] == x;
            assert(d.contains(s[k]));
        }
        if d.contains(x) {
            let k = choose|k: int| 0 <= k < s.len() && #[trigger] s[k] == x;
            assert(s.contains(s[k]));
        }
    }
}

proof fn lemma_to_enumerates(s: Seq<Seq<char>>, d: Set<Seq<char>>)
    requires
        forall|i: int, j: int| 0 <= i < j < s.len() ==> s[i] != s[j],
        forall|x: Seq<char>| #[trigger] s.contains(x) <==> d.contains(x),
    ensures
        store::enumerates(s, d),
{
    assert forall|k: int| 0 <= k < s.len() implies d.contains(#[trigger] s[k]) by {
        assert(s.contains(s[k]));
    }
    assert forall|t: Seq<char>| #[trigger] d.contains(t) implies exists|k: int|
        0 <= k < s.len() && #[trigger] s[k] == t by {
        assert(s.contains(t));
    }
}

/// Taking an entry out keeps a part whole.
pub proof fn lemma_part_without(p: PartView, cap: int, c: Seq<char>)
    requires
        part_ok(p, cap),
    ensures
        part_ok(part_without(p, c), cap),
{
    lemma_enumerates(p.order, p.rows.dom());
    lemma_without(p.order, c);
    lemma_to_enumerates(without(p.order, c), p.rows.remove(c).dom());
}

/// Putting an entry in keeps a part whole.
pub proof fn lemma_part_with(p: PartView, cap: int, c: Seq<char>, x: Cached)
    requires
        part_ok(p, cap),
        cap >= 0,
    ensures
        part_ok(part_with(p, cap, c, x), cap),
{
    lemma_enumerates(p.order, p.rows.dom());
    let q = part_with(p, cap, c, x);
    if cap == 0 {
        assert(q == p);
    } else if p.rows.contains_key(c) {
        assert(q.rows.dom() =~= p.rows.dom());
    } else {
        let s = if p.order.len() >= cap {
            p.order.skip(1)
        } else {
            p.order
        };
        let n = s.push(c);
        assert(!p.order.contains(c));
        assert forall|i: int, j: int| 0 <= i < j < n.len() implies n[i] != n[j] by {
            if j == s.len() {
                if p.order.len() >= cap {
                    assert(s[i] == p.order[i + 1]);
                }
                assert(p.order.contains(s[i]));
            }
        }
        assert forall|y: Seq<char>| #[trigger] n.contains(y) <==> q.rows.dom().contains(y) by {
            if p.order.len() >= cap {
                if n.contains(y) && y != c {
                    let k = choose|k: int| 0 <= k < n.len() && n[k] == y;
                    assert(p.order[k + 1] == y);
                    assert(p.order.contains(y));
                    assert(p.order[0] != p.order[k + 1]);
                }
                if p.rows.contains_key(y) && y != p.order[0] {
                    assert(p.order.contains(y));
                    let k = choose|k: int| 0 <= k < p.order.len() && p.order[k] == y;
                    assert(n[k - 1] == y);
                }
            } else {
                if n.contains(y) && y != c {
                    let k = choose|k: int| 0 <= k < n.len() && n[k] == y;
                    assert(p.order[k] == y);
                }
                if p.rows.contains_key(y) {
                    assert(p.order.contains(y));
                    let k = choose|k: int| 0 <= k < p.order.len() && p.order[k] == y;
                    assert(n[k] == y);
                }
            }
            assert(n[n.len() - 1] == c);
        }
        lemma_to_enumerates(n, q.rows.dom());
    }
}

impl CacheShard {
    fn new() -> (r: CacheShard)
        ensures
            r@ == (PartView { rows: Map::empty(), order: Seq::empty() }),
    {
        let r = CacheShard { map: fxmap::fx_new(), order: VecDeque::new() };
        assert(r@.rows =~= Map::empty());
        assert(r@.order =~= Seq::empty());
        r
    }

    fn forget(&mut self, code: &str)
        ensures
            final(self)@ == part_without(old(self)@, code@),
    {
        let _ = fxmap::fx_remove(&mut self.map, code);
        assert(self@.rows =~= old(self)@.rows.remove(code@));
        let ghost all = aof::texts(self.order@);
        let n: usize = self.order.len();
        let mut i: usize = 0;
        assert(all.take(0) + without(all.skip(0), code@) =~= without(all, code@)) by {
            assert(all.skip(0) =~= all);
        }
        while i < n
            invariant
                i <= n,
                n == self.order@.len(),
                all == aof::texts(self.order@),
                all == old(self)@.order,
                self@.rows == old(self)@.rows.remove(code@),
                all.take(i as int) + without(all.skip(i as int), code@) == without(all, code@),
            decreases n - i,
        {
            let ghost rest = all.skip(i as int);
            if text::same(self.order[i].as_str(), code) {
                let _ = self.order.remove(i);
                proof {
                    assert(aof::texts(self.order@) =~= all.take(i as int) + rest.skip(1));
                    assert(self@ =~= part_without(old(self)@, code@));
                }
                return;
            }
            i += 1;
            assert(rest.skip(1) =~= all.skip(i as int));
            assert(all.take(i as int) + without(all.skip(i as int), code@) =~= all.take(i - 1)
                + without(rest, code@));
        }
        assert(all.skip(i as int) =~= Seq::empty());
        assert(self@.order =~= without(all, code@));
        assert(self@ =~= part_without(old(self)@, code@));
    }

    fn keep(&mut self, cap: usize, code: &str, u: &str, e: i64, now: i64)
        requires
            part_ok(old(self)@, cap as int),
        ensures
            final(self)@ == part_with(
                old(self)@,
                cap as int,
                code@,
                Cached { u: u@, e, at: now },
            ),
    {
        if cap == 0 {
            return;
        }
        let x = CacheEntry { u: u.to_string(), e, at: now };
        let known: bool = fxmap::fx_get(&self.map, code).is_some();
        if known {
            fxmap::fx_insert(&mut self.map, code.to_string(), x);
            assert(self@.rows =~= old(self)@.rows.insert(code@, x@));
            assert(self@ =~= part_with(old(self)@, cap as int, code@, x@));
            return;
        }
        if self.order.len() >= cap {
            if let Some(first) = self.order.pop_front() {
                assert(first@ == old(self)@.order[0]);
                let _ = fxmap::fx_remove(&mut self.map, first.as_str());
                assert(self@.rows =~= old(self)@.rows.remove(old(self)@.order[0]));
            }
            assert(aof::texts(self.order@) =~= old(self)@.order.skip(1));
        }
        let ghost mid = self@;
        self.order.push_back(code.to_string());
        assert(aof::texts(self.order@) =~= mid.order.push(code@));
        fxmap::fx_insert(&mut self.map, code.to_string(), x);
        assert(self@.rows =~= mid.rows.insert(code@, x@));
        assert(self@ =~= part_with(old(self)@, cap as int, code@, x@));
    }
}

/// The capacity of each part; none if there is to be none.
pub open spec fn part_cap(cap: int) -> int {
    if cap == 0 {
        0
    } else if cap / 256 < 16 {
        16
    } else {
        cap / 256
    }
}

/// A cache without entries.
pub open spec fn empty_cache(cap: int, ttl_ms: i64) -> LruView {
    LruView {
        parts: Seq::new(
            NUM_SHARDS as nat,
            |k: int| PartView { rows: Map::empty(), order: Seq::empty() },
        ),
        cap: part_cap(cap),
        ttl_ms,
    }
}

impl Lru {
    /// The cache is whole.
    pub open spec fn wf(&self) -> bool {
        cache_ok(self@)
    }

    /// An empty cache for about `cap` entries, each of which counts for `ttl_ms` ms
    /// (0 for ever). With room for none it never has an entry.
    pub fn new(cap: usize, ttl_ms: i64) -> (r: Lru)
        ensures
            r.wf(),
            r@ == empty_cache(cap as int, ttl_ms),
    {
        let mut shards: Vec<CacheShard> = Vec::new();
        let mut k: usize = 0;
        while k < NUM_SHARDS
            invariant
                k <= NUM_SHARDS,
                shards@.len() == k,
                forall|i: int|
                    0 <= i < k ==> (#[trigger] shards@[i])@ == (PartView {
                        rows: Map::empty(),
                        order: Seq::empty(),
                    }),
            decreases NUM_SHARDS - k,
        {
            shards.push(CacheShard::new());
            k += 1;
        }
        let each: usize = cap / NUM_SHARDS;
        let r = Lru {
            shards,
            cap_per_shard: if cap == 0 {
                0
            } else if each < 16 {
                16
            } else {
                each
            },
            ttl_ms,
        };
        assert(r@ =~= empty_cache(cap as int, ttl_ms));
        r
    }

    /// The url of a code and when its link expires, if the cache has it and it has
    /// not expired. An entry that is too old goes.
    pub fn get(&mut self, code: &str, now: i64) -> (r: Option<(String, i64)>)
        requires
            old(self).wf(),
        ensures
            final(self).wf(),
            final(self)@ == after_get(old(self)@, code@, now),
            r is Some <==> fresh_entry(old(self)@, code@, now) is Some,
            r matches Some((u, e)) ==> u@ == fresh_entry(old(self)@, code@, now)->0.u && e
                == fresh_entry(old(self)@, code@, now)->0.e,
    {
        let k: usize = store::shard_of(code);
        let (at, e): (i64, i64) = match fxmap::fx_get(&self.shards[k].map, code) {
            Some(x) => (x.at, x.e),
            None => {
                return None;
            },
        };
        if self.ttl_ms > 0 && now.wrapping_sub(at) > self.ttl_ms {
            self.shards[k].forget(code);
            proof {
                let p = part_of(old(self)@, code@);
                lemma_part_without(p, old(self)@.cap, code@);
                assert(self@.parts =~= old(self)@.parts.update(k as int, part_without(p, code@)));
            }
            return None;
        }
        if e != 0 && e <= now {
            return None;
        }
        match fxmap::fx_get(&self.shards[k].map, code) {
            Some(x) => Some((x.u.clone(), x.e)),
            None => None,
        }
    }

    /// Puts the url of a code in.
    pub fn put(&mut self, code: &str, u: &str, e: i64, now: i64)
        requires
            old(self).wf(),
        ensures
            final(self).wf(),
            final(self)@ == after_put(old(self)@, code@, u@, e, now),
    {
        let k: usize = store::shard_of(code);
        let cap: usize = self.cap_per_shard;
        assert(part_ok(self@.parts[k as int], cap as int));
        self.shards[k].keep(cap, code, u, e, now);
        proof {
            let p = part_of(old(self)@, code@);
            let x = Cached { u: u@, e, at: now };
            lemma_part_with(p, cap as int, code@, x);
            assert(self@.parts =~= old(self)@.parts.update(
                k as int,
                part_with(p, cap as int, code@, x),
            ));
        }
    }

    /// Takes a code out.
    pub fn remove(&mut self, code: &str)
        requires
            old(self).wf(),
        ensures
            final(self).wf(),
            final(self)@ == after_remove(old(self)@, code@),
    {
        let k: usize = store::shard_of(code);
        self.shards[k].forget(code);
        proof {
            let p = part_of(old(self)@, code@);
            lemma_part_without(p, old(self)@.cap, code@);
            assert(self@.parts =~= old(self)@.parts.update(k as int, part_without(p, code@)));
        }
    }
}

// ---------- laws ----------

/// A part never has more entries than it may have, whatever the cache was given.
pub proof fn law_cache_is_bounded(v: LruView, k: int)
    requires
        cache_ok(v),
        0 <= k < NUM_SHARDS,
    ensures
        v.parts[k].rows.dom().finite(),
        v.parts[k].rows.dom().len() <= v.cap,
{
    let p = v.parts[k];
    assert(part_ok(p, v.cap));
    lemma_enumerates(p.order, p.rows.dom());
    p.order.unique_seq_to_set();
    assert(p.order.to_set() =~= p.rows.dom());
}

/// A cache that was made for no entries never answers, and nothing changes it.
pub proof fn law_disabled_cache_has_nothing(
    v: LruView,
    c: Seq<char>,
    u: Seq<char>,
    e: i64,
    now: i64,
)
    requires
        cache_ok(v),
        v.cap == part_cap(0),
    ensures
        fresh_entry(v, c, now) is None,
        after_put(v, c, u, e, now) == v,
        after_get(v, c, now) == v,
{
    let p = part_of(v, c);
    assert(part_ok(p, 0));
    if p.rows.contains_key(c) {
        assert(p.rows.dom().contains(c));
    }
    assert(v.parts.update(store::shard_ix(c), p) =~= v.parts);
}

/// What was put in comes out as long as it counts and has not expired, and not any
/// more from then on, if the cache was made for any entries.
pub proof fn law_put_comes_out(v: LruView, c: Seq<char>, u: Seq<char>, e: i64, now: i64, later: i64)
    requires
        cache_ok(v),
        v.cap > 0,
    ensures
        fresh_entry(after_put(v, c, u, e, now), c, later) == (if (v.ttl_ms > 0
            && later.wrapping_sub(now) > v.ttl_ms) || (e != 0 && e <= later) {
            None
        } else {
            Some(Cached { u, e, at: now })
        }),
{
}

/// What was taken out does not come out.
pub proof fn law_removed_does_not_come_out(v: LruView, c: Seq<char>, now: i64)
    requires
        cache_ok(v),
    ensures
        fresh_entry(after_remove(v, c), c, now) is None,
{
}

/// No operation breaks the cache.
pub proof fn law_cache_stays_whole(v: LruView, c: Seq<char>, u: Seq<char>, e: i64, now: i64)
    requires
        cache_ok(v),
    ensures
        cache_ok(after_get(v, c, now)),
        cache_ok(after_put(v, c, u, e, now)),
        cache_ok(after_remove(v, c)),
{
    lemma_part_without(part_of(v, c), v.cap, c);
    lemma_part_with(part_of(v, c), v.cap, c, Cached { u, e, at: now });
}

/// A cache for about `n` links has room for as many in its 256 parts, but for less than one
/// link each, and for at least 16 links in each of them; one for none has no room.
pub proof fn law_cache_has_the_room_asked_for(n: int)
    requires
        n >= 0,
    ensures
        n == 0 ==> part_cap(n) == 0,
        n > 0 ==> part_cap(n) >= 16 && 256 * part_cap(n) > n - 256,
        n >= 4096 ==> 256 * part_cap(n) <= n,
        0 < n < 4096 ==> part_cap(n) == 16,
{
}

/// Putting an entry in touches no other entry, unless its part is full and has none under
/// that code: then the one that was put in first of all in that part is gone, and no other.
pub proof fn law_only_the_oldest_goes(
    v: LruView,
    c: Seq<char>,
    u: Seq<char>,
    e: i64,
    now: i64,
    x: Seq<char>,
)
    requires
        cache_ok(v),
        v.cap > 0,
        x != c,
    ensures
        ({
            let p = part_of(v, c);
            let q = part_of(after_put(v, c, u, e, now), c);
            let w = after_put(v, c, u, e, now);
            &&& if p.rows.contains_key(c) {
                q.order == p.order
            } else if p.order.len() < v.cap {
                q.order == p.order + seq![c]
            } else {
                p.order.len() > 0 && p.order == seq![p.order[0]] + q.order.drop_last()
                    && q.order.last() == c
            }
            &&& if part_of(v, x).rows.contains_key(x) && !(store::shard_ix(x) == store::shard_ix(c)
                && !p.rows.contains_key(c) && p.order.len() == v.cap && p.order[0] == x) {
                part_of(w, x).rows.contains_key(x) && part_of(w, x).rows[x] == part_of(
                    v,
                    x,
                ).rows[x]
            } else {
                !part_of(w, x).rows.contains_key(x)
            }
        }),
{
    let p = part_of(v, c);
    assert(part_ok(v.parts[store::shard_ix(c)], v.cap));
    let q = part_of(after_put(v, c, u, e, now), c);
    if !p.rows.contains_key(c) {
        if p.order.len() < v.cap {
            assert(q.order =~= p.order + seq![c]);
        } else {
            assert(p.order =~= seq![p.order[0]] + q.order.drop_last());
        }
    }
}

/// A lookup and a removal touch no other entry; and a lookup leaves the entry itself where
/// it is, in its place in the order, as long as it counts.
pub proof fn law_other_entries_stay(v: LruView, c: Seq<char>, now: i64, x: Seq<char>)
    requires
        cache_ok(v),
    ensures
        x != c ==> part_of(after_get(v, c, now), x).rows.contains_key(x) == part_of(
            v,
            x,
        ).rows.contains_key(x),
        x != c ==> part_of(after_remove(v, c), x).rows.contains_key(x) == part_of(
            v,
            x,
        ).rows.contains_key(x),
        x != c && part_of(v, x).rows.contains_key(x) ==> part_of(after_get(v, c, now), x).rows[x]
            == part_of(v, x).rows[x] && part_of(after_remove(v, c), x).rows[x] == part_of(
            v,
            x,
        ).rows[x],
        fresh_entry(v, c, now) is Some ==> after_get(v, c, now) == v,
{
}

} // verus!
