//! The links in an embedded database: `{expires_ms}|{created_ms}|{url}` under
//! each code, and the hits of each code, to which a merge adds.
//!
//! The database is reached by the caller: every operation says what to write, and
//! takes in what was read.

use rustc_hash::FxHashMap;
use vstd::bytes::*;
use vstd::prelude::*;
use vstd::utf8::*;

use crate::aof;
use crate::fxmap;
use crate::kv;
use crate::listing;
use crate::listing::Order;
use crate::lru;
use crate::lru::{Lru, LruView};
use crate::metrics;
use crate::metrics::{Metrics, MetricsView};
use crate::store;
use crate::store::{Link, LinkView, MutResult};
use crate::store_kv;
use crate::text;

verus! {

// ---------- codes ----------

/// The letters of this store: 0 to 9, then A to Z, then a to z.
pub const ALPHABET: [u8; 62] = [
    48, 49, 50, 51, 52, 53, 54, 55, 56, 57, 65, 66, 67, 68, 69, 70, 71, 72, 73, 74, 75, 76, 77, 78,
    79, 80, 81, 82, 83, 84, 85, 86, 87, 88, 89, 90, 97, 98, 99, 100, 101, 102, 103, 104, 105, 106,
    107, 108, 109, 110, 111, 112, 113, 114, 115, 116, 117, 118, 119, 120, 121, 122,
];

/// The letter that stands for `d`.
pub open spec fn letter_of(d: int) -> u8 {
    if d < 10 {
        (48 + d) as u8
    } else if d < 36 {
        (55 + d) as u8
    } else {
        (61 + d) as u8
    }
}

fn letter(d: usize) -> (r: u8)
    requires
        d < 62,
    ensures
        r == letter_of(d as int),
{
    ALPHABET[d]
}

/// The bytes of the code that an instance makes of some random bytes.
pub open spec fn code_bytes(instance: int, draw: Seq<u8>) -> Seq<u8> {
    seq![letter_of(instance)] + Seq::new(draw.len(), |k: int| letter_of(draw[k] as int % 62))
}

/// A code that an instance may make.
pub open spec fn generated(instance: int, code: Seq<char>) -> bool {
    exists|draw: Seq<u8>|
        draw.len() == store::SUFFIX_LEN && encode_utf8(code) == #[trigger] code_bytes(instance, draw)
}

/// The code that an instance makes of some random bytes.
pub fn code_from(instance: i32, draw: &[u8]) -> (r: String)
    requires
        0 <= instance < store::MAX_INSTANCES,
    ensures
        encode_utf8(r@) == code_bytes(instance as int, draw@),
{
    let mut c: Vec<u8> = Vec::new();
    c.push(letter(instance as usize));
    let mut k: usize = 0;
    while k < draw.len()
        invariant
            k <= draw@.len(),
            0 <= instance < store::MAX_INSTANCES,
            c@ == code_bytes(instance as int, draw@.take(k as int)),
            text::ascii(c@),
        decreases draw@.len() - k,
    {
        c.push(letter((draw[k] % 62) as usize));
        k += 1;
        assert(c@ =~= code_bytes(instance as int, draw@.take(k as int)));
    }
    assert(draw@.take(k as int) =~= draw@);
    text::ascii_string(c.as_slice())
}

/// Codes of two instances are two codes.
pub proof fn law_codes_disjoint(i: int, j: int, c: Seq<char>)
    requires
        0 <= i < store::MAX_INSTANCES,
        0 <= j < store::MAX_INSTANCES,
        generated(i, c),
        generated(j, c),
    ensures
        i == j,
{
    let a = choose|draw: Seq<u8>|
        draw.len() == store::SUFFIX_LEN && encode_utf8(c) == #[trigger] code_bytes(i, draw);
    let b = choose|draw: Seq<u8>|
        draw.len() == store::SUFFIX_LEN && encode_utf8(c) == #[trigger] code_bytes(j, draw);
    assert(code_bytes(i, a)[0] == letter_of(i));
    assert(code_bytes(j, b)[0] == letter_of(j));
}

/// The id of this instance: the one that is asked for, brought into the range that
/// has letters, or one that the process id gives.
pub open spec fn instance_id(instance: i32, pid: u32) -> i32 {
    if instance < 0 {
        (pid % 62) as i32
    } else {
        store_kv::clamped(instance)
    }
}

// ---------- hits ----------

/// The number that eight bytes stand for, the lowest first.
pub open spec fn le_number(b: Seq<u8>) -> Option<u64> {
    if b.len() == 8 {
        Some(spec_u64_from_le_bytes(b))
    } else {
        None
    }
}

/// The number under a key; 0 if there is none.
pub open spec fn le_or_zero(b: Option<Seq<u8>>) -> u64 {
    match b {
        Some(v) => match le_number(v) {
            Some(n) => n,
            None => 0,
        },
        None => 0,
    }
}

/// A number with others added to it; what is no number is left out.
pub open spec fn merged(n: u64, operands: Seq<Seq<u8>>) -> u64
    decreases operands.len(),
{
    if operands.len() == 0 {
        n
    } else {
        let m = merged(n, operands.drop_last());
        match le_number(operands.last()) {
            Some(d) => m.wrapping_add(d),
            None => m,
        }
    }
}

fn read_le(b: &[u8]) -> (r: Option<u64>)
    ensures
        r == le_number(b@),
{
    if b.len() == 8 {
        Some(u64_from_le_bytes(b))
    } else {
        None
    }
}

/// Adds hits to those under a key.
pub fn hits_merge(existing: &Option<Vec<u8>>, operands: &Vec<Vec<u8>>) -> (r: Vec<u8>)
    ensures
        r@ == spec_u64_to_le_bytes(
            merged(le_or_zero(kv::opt_bytes(*existing)), aof::bytes_of(operands@)),
        ),
{
    let ghost all = aof::bytes_of(operands@);
    let start: u64 = match existing {
        Some(v) => match read_le(v.as_slice()) {
            Some(n) => n,
            None => 0,
        },
        None => 0,
    };
    let mut n: u64 = start;
    let mut i: usize = 0;
    assert(all.take(0) =~= Seq::empty());
    while i < operands.len()
        invariant
            i <= operands@.len(),
            all == aof::bytes_of(operands@),
            n == merged(start, all.take(i as int)),
        decreases operands@.len() - i,
    {
        assert(all.take(i + 1).drop_last() =~= all.take(i as int));
        if let Some(d) = read_le(operands[i].as_slice()) {
            n = n.wrapping_add(d);
        }
        i += 1;
    }
    assert(all.take(i as int) =~= all);
    u64_to_le_bytes(n)
}

/// Hits may be merged in one go or in two.
pub proof fn law_merge_in_parts(existing: Option<Seq<u8>>, a: Seq<Seq<u8>>, b: Seq<Seq<u8>>)
    ensures
        ({
            let first = spec_u64_to_le_bytes(merged(le_or_zero(existing), a));
            merged(le_or_zero(Some(first)), b) == merged(le_or_zero(existing), a + b)
        }),
{
    lemma_auto_spec_u64_to_from_le_bytes();
    lemma_merged_concat(le_or_zero(existing), a, b);
}

/// Hits may be merged among themselves before they are added to those under a key.
pub proof fn law_operands_combine(n: u64, operands: Seq<Seq<u8>>)
    ensures
        merged(n, seq![spec_u64_to_le_bytes(merged(0, operands))]) == merged(n, operands),
{
    lemma_auto_spec_u64_to_from_le_bytes();
    let one = seq![spec_u64_to_le_bytes(merged(0, operands))];
    assert(one.drop_last() =~= Seq::empty());
    reveal_with_fuel(merged, 2);
    lemma_merged_sum(n, operands);
}

proof fn lemma_merged_sum(n: u64, operands: Seq<Seq<u8>>)
    ensures
        merged(n, operands) == n.wrapping_add(merged(0, operands)),
    decreases operands.len(),
{
    if operands.len() > 0 {
        lemma_merged_sum(n, operands.drop_last());
    }
}

proof fn lemma_merged_concat(n: u64, a: Seq<Seq<u8>>, b: Seq<Seq<u8>>)
    ensures
        merged(merged(n, a), b) == merged(n, a + b),
    decreases b.len(),
{
    if b.len() == 0 {
        assert(a + b =~= a);
    } else {
        assert((a + b).drop_last() =~= a + b.drop_last());
        lemma_merged_concat(n, a, b.drop_last());
    }
}

proof fn lemma_signed(x: u64, n: i64)
    ensures
        (x.wrapping_add(n as u64)) as i64 == (x as i64).wrapping_add(n),
{
    let y = n as u64;
    let z = x.wrapping_add(y);
    assert((x as i64) == (if x <= 0x7fff_ffff_ffff_ffffu64 {
        x as int
    } else {
        x - 0x1_0000_0000_0000_0000int
    })) by (bit_vector);
    assert((z as i64) == (if z <= 0x7fff_ffff_ffff_ffffu64 {
        z as int
    } else {
        z - 0x1_0000_0000_0000_0000int
    })) by (bit_vector);
    assert((n as u64) == (if n >= 0 {
        n as int
    } else {
        n + 0x1_0000_0000_0000_0000int
    })) by (bit_vector);
}

/// Writing the hits of a code changes nothing of how many it has: what the database
/// then has is what it had and what was kept here.
pub proof fn law_written_hits_stay(stored: Option<Seq<u8>>, n: i64)
    ensures
        ({
            let operand = spec_u64_to_le_bytes(n as u64);
            let after = spec_u64_to_le_bytes(merged(le_or_zero(stored), seq![operand]));
            le_or_zero(Some(after)) as i64 == (le_or_zero(stored) as i64).wrapping_add(n)
        }),
{
    lemma_auto_spec_u64_to_from_le_bytes();
    let operand = spec_u64_to_le_bytes(n as u64);
    let one = seq![operand];
    assert(one.drop_last() =~= Seq::empty());
    reveal_with_fuel(merged, 2);
    lemma_signed(le_or_zero(stored), n);
}

// ---------- expiry ----------

/// A value that says when its link expires, and that is past.
pub open spec fn filtered(value: Seq<u8>, now: i64) -> bool {
    let p = text::index_from(value, 0, 124);
    valid_utf8(value) && p < value.len() && (store_kv::number_in(value.take(p)) matches Some(e)
        && store_kv::past(e, now))
}

/// Whether a value is dropped when the database is compacted.
pub fn expired_filter(value: &[u8], now: i64) -> (r: bool)
    ensures
        r == filtered(value@, now),
{
    if text::utf8_string(value).is_none() {
        return false;
    }
    let p: usize = text::find_byte(value, 0, 124);
    if p >= value.len() {
        return false;
    }
    let front: &[u8] = vstd::slice::slice_subrange(value, 0, p);
    assert(front@ =~= value@.take(p as int));
    match store_kv::read_number(front) {
        Some(e) => e != 0 && e <= now,
        None => false,
    }
}

/// What a compaction drops is what a read takes for expired: of the values that
/// are links it drops those and no others.
pub proof fn law_compaction_drops_expired(value: Seq<u8>, now: i64)
    requires
        store_kv::val_of(value) is Some,
    ensures
        filtered(value, now) <==> (store_kv::val_of(value) matches Some((e, _, _))
            && store_kv::past(e, now)),
{
    let p = text::index_from(value, 0, 124);
    text::lemma_index_from(value, 0, 124);
    let bar = seq![124u8];
    let rest = value.skip(p + 1);
    assert(text::ascii(bar));
    text::lemma_ascii_text(bar);
    let q = text::index_from(rest, 0, 124);
    text::lemma_index_from(rest, 0, 124);
    if q < rest.len() {
        let back = rest.skip(q + 1);
        assert(rest =~= rest.take(q) + bar + back);
        valid_utf8_concat(rest.take(q), bar);
        valid_utf8_concat(rest.take(q) + bar, back);
    }
    assert(value =~= value.take(p) + bar + rest);
    valid_utf8_concat(value.take(p), bar);
    valid_utf8_concat(value.take(p) + bar, rest);
}

/// A stored link, as a read finds it.
pub enum Found {
    /// When it expires, when it was stored, its url.
    Live(i64, i64, String),
    /// It has expired and can be deleted.
    Expired,
    /// There is none.
    Missing,
}

/// A stored link, as a read finds it.
pub ghost enum FoundView {
    Live(i64, i64, Seq<char>),
    Expired,
    Missing,
}

impl View for Found {
    type V = FoundView;

    open spec fn view(&self) -> FoundView {
        match *self {
            Found::Live(e, c, u) => FoundView::Live(e, c, u@),
            Found::Expired => FoundView::Expired,
            Found::Missing => FoundView::Missing,
        }
    }
}

/// The link that a value stands for at some time.
pub open spec fn found_at(value: Option<Seq<u8>>, now: i64) -> FoundView {
    match value {
        Some(v) => match store_kv::val_of(v) {
            Some((e, c, u)) => if store_kv::past(e, now) {
                FoundView::Expired
            } else {
                FoundView::Live(e, c, u)
            },
            None => FoundView::Missing,
        },
        None => FoundView::Missing,
    }
}

/// The link that a value stands for at some time.
pub fn row(value: &Option<Vec<u8>>, now: i64) -> (r: Found)
    ensures
        r@ == found_at(kv::opt_bytes(*value), now),
{
    match value {
        Some(v) => match store_kv::dec_val(v.as_slice()) {
            Some((e, c, u)) => if e != 0 && e <= now {
                Found::Expired
            } else {
                Found::Live(e, c, u)
            },
            None => Found::Missing,
        },
        None => Found::Missing,
    }
}

/// A link that is stored now is found until it expires.
pub proof fn law_stored_link_is_found(url: Seq<char>, ttl_ms: i64, now: i64, later: i64)
    ensures
        found_at(Some(new_value(url, ttl_ms, now)), later) == (if store_kv::past(
            store::expiry(now, ttl_ms),
            later,
        ) {
            FoundView::Expired
        } else {
            FoundView::Live(store::expiry(now, ttl_ms), now, url)
        }),
{
    store_kv::law_value_reads_back(store::expiry(now, ttl_ms), now, url);
}

// ---------- the store ----------

/// What this process keeps of a store in an embedded database.
pub struct RocksStore {
    cache: Lru,
    dirty: FxHashMap<String, i64>,
    instance: i32,
}

/// What this process keeps: the cache, the hits not yet written, and the id of
/// this instance.
#[verifier::ext_equal]
pub ghost struct RocksView {
    pub cache: LruView,
    pub dirty: Map<Seq<char>, i64>,
    pub instance: i32,
}

impl View for RocksStore {
    type V = RocksView;

    closed spec fn view(&self) -> RocksView {
        RocksView {
            cache: self.cache@,
            dirty: fxmap::by_text(self.dirty@),
            instance: self.instance,
        }
    }
}

/// A store in which one more hit was counted.
pub open spec fn bumped(s: RocksView, code: Seq<char>) -> RocksView {
    RocksView {
        dirty: s.dirty.insert(code, store_kv::unsent(s.dirty, code).wrapping_add(1)),
        ..s
    }
}

/// The hits of a code: those in the database and those not yet written.
pub open spec fn all_hits(s: RocksView, code: Seq<char>, stored: Option<Seq<u8>>) -> i64 {
    (le_or_zero(stored) as i64).wrapping_add(store_kv::unsent(s.dirty, code))
}

/// The value of a link that is stored now.
pub open spec fn new_value(url: Seq<char>, ttl_ms: i64, now: i64) -> Seq<u8> {
    store_kv::val_bytes(store::expiry(now, ttl_ms) as int, now as int, encode_utf8(url))
}

/// The end of a ttl that begins now; without one it ends at once.
pub open spec fn after(now: i64, ttl_ms: i64) -> i64 {
    now.wrapping_add(
        if ttl_ms > 0 {
            ttl_ms
        } else {
            0
        },
    )
}

/// The value of a link with another url, if there is such a link; its time of
/// creation stays, and without a ttl its expiry too.
pub open spec fn updated_value(
    value: Option<Seq<u8>>,
    url: Seq<char>,
    ttl_ms: i64,
    has_ttl: bool,
    now: i64,
) -> Option<Seq<u8>> {
    match found_at(value, now) {
        FoundView::Live(e, c, _) => Some(
            store_kv::val_bytes(
                (if has_ttl {
                    after(now, ttl_ms)
                } else {
                    e
                }) as int,
                c as int,
                encode_utf8(url),
            ),
        ),
        _ => None,
    }
}

/// A link that was given another url is found with it, until the expiry that it then
/// has; the time of its creation stays. Where there is none, nothing is written.
pub proof fn law_updated_link_is_found(
    value: Option<Seq<u8>>,
    url: Seq<char>,
    ttl_ms: i64,
    has_ttl: bool,
    now: i64,
    later: i64,
)
    ensures
        updated_value(value, url, ttl_ms, has_ttl, now) is Some <==> found_at(value, now) is Live,
        found_at(value, now) matches FoundView::Live(e, c, _) ==> found_at(
            updated_value(value, url, ttl_ms, has_ttl, now),
            later,
        ) == ({
            let exp = if has_ttl {
                after(now, ttl_ms)
            } else {
                e
            };
            if store_kv::past(exp, later) {
                FoundView::Expired
            } else {
                FoundView::Live(exp, c, url)
            }
        }),
{
    if let FoundView::Live(e, c, _) = found_at(value, now) {
        let exp = if has_ttl {
            after(now, ttl_ms)
        } else {
            e
        };
        store_kv::law_value_reads_back(exp, c, url);
    }
}

/// What is known of a code, from what the database has of it.
pub open spec fn stats_of(
    s: RocksView,
    code: Seq<char>,
    value: Option<Seq<u8>>,
    stored: Option<Seq<u8>>,
    now: i64,
) -> Option<LinkView> {
    match found_at(value, now) {
        FoundView::Live(e, c, u) => Some(
            store_kv::link_from(code, e, c, u, all_hits(s, code, stored)),
        ),
        _ => None,
    }
}

/// A row of the database: the key, the value, and the hits under the same key.
pub struct DbRow {
    pub key: Vec<u8>,
    pub value: Vec<u8>,
    pub hits: Option<Vec<u8>>,
}

/// The link of a row, if it is one.
pub open spec fn row_link(s: RocksView, r: DbRow, now: i64) -> Option<LinkView> {
    match store_kv::text_in(r.key@) {
        Some(code) => stats_of(s, code, Some(r.value@), kv::opt_bytes(r.hits), now),
        None => None,
    }
}

/// The links of some rows that are wanted.
pub open spec fn row_links(s: RocksView, rows: Seq<DbRow>, now: i64, q: Seq<char>) -> Seq<LinkView>
    decreases rows.len(),
{
    if rows.len() == 0 {
        Seq::empty()
    } else {
        let rest = row_links(s, rows.drop_last(), now, q);
        match row_link(s, rows.last(), now) {
            Some(l) => if listing::wanted(l, q) {
                rest.push(l)
            } else {
                rest
            },
            None => rest,
        }
    }
}

/// The rows of links that are stored now.
pub open spec fn new_rows(
    codes: Seq<Seq<char>>,
    urls: Seq<Seq<char>>,
    ttl_ms: i64,
    now: i64,
) -> Seq<(Seq<char>, Seq<u8>)> {
    Seq::new(urls.len(), |k: int| (codes[k], new_value(urls[k], ttl_ms, now)))
}

/// Codes and values to be written.
pub open spec fn put_views(v: Seq<(String, Vec<u8>)>) -> Seq<(Seq<char>, Seq<u8>)> {
    Seq::new(v.len(), |i: int| (v[i].0@, v[i].1@))
}

impl RocksStore {
    /// The cache is whole and the instance has a letter.
    pub closed spec fn wf(&self) -> bool {
        self.cache.wf() && 0 <= self.instance < store::MAX_INSTANCES
    }

    /// A store with an empty cache for about as many links as said, each of which
    /// counts for `cache_ttl_ms` ms. With none there is no cache.
    pub fn open(instance: i32, pid: u32, cache_entries: usize, cache_ttl_ms: i64) -> (r: RocksStore)
        ensures
            r.wf(),
            r@ == (RocksView {
                cache: lru::empty_cache(cache_entries as int, cache_ttl_ms),
                dirty: Map::empty(),
                instance: instance_id(instance, pid),
            }),
    {
        let r = RocksStore {
            cache: Lru::new(cache_entries, cache_ttl_ms),
            dirty: fxmap::fx_new(),
            instance: if instance < 0 {
                (pid % 62) as i32
            } else if instance > 61 {
                61
            } else {
                instance
            },
        };
        assert(r@.dirty =~= Map::<Seq<char>, i64>::empty());
        r
    }

    /// The id of this instance.
    pub fn instance(&self) -> (r: i32)
        ensures
            r == self@.instance,
    {
        self.instance
    }

    /// A random code.
    pub fn gen_code(&self) -> (r: String)
        requires
            self.wf(),
        ensures
            generated(self@.instance as int, r@),
    {
        let draw: Vec<u8> = store::random_bytes(store::SUFFIX_LEN);
        code_from(self.instance, draw.as_slice())
    }

    fn bump(&mut self, code: &str)
        requires
            old(self).wf(),
        ensures
            final(self).wf(),
            final(self)@ == bumped(old(self)@, code@),
    {
        let n: i64 = match fxmap::fx_get(&self.dirty, code) {
            Some(n) => *n,
            None => 0,
        };
        fxmap::fx_insert(&mut self.dirty, code.to_string(), n.wrapping_add(1));
        assert(self@ =~= bumped(old(self)@, code@));
    }

    /// The url of a code, if the cache has it. The hit is counted, and so is the
    /// lookup.
    pub fn resolve_cached(&mut self, mx: &mut Metrics, code: &str, now: i64) -> (r: Option<String>)
        requires
            old(self).wf(),
            old(mx).wf(),
        ensures
            final(self).wf(),
            final(mx).wf(),
            ({
                let s = RocksView {
                    cache: lru::after_get(old(self)@.cache, code@, now),
                    ..old(self)@
                };
                let m = old(mx)@;
                match lru::fresh_entry(old(self)@.cache, code@, now) {
                    Some(x) => {
                        &&& store::opt_string(r) == Some(x.u)
                        &&& final(self)@ == bumped(s, code@)
                        &&& final(mx)@ == (MetricsView {
                            cache_hit: m.cache_hit.wrapping_add(1),
                            ..m
                        })
                    },
                    None => {
                        &&& r is None
                        &&& final(self)@ == s
                        &&& final(mx)@ == (MetricsView {
                            cache_miss: m.cache_miss.wrapping_add(1),
                            ..m
                        })
                    },
                }
            }),
    {
        match self.cache.get(code, now) {
            Some((u, _e)) => {
                assert(self@ =~= RocksView {
                    cache: lru::after_get(old(self)@.cache, code@, now),
                    ..old(self)@
                });
                metrics::cache_hit(mx);
                self.bump(code);
                Some(u)
            },
            None => {
                assert(self@ =~= RocksView {
                    cache: lru::after_get(old(self)@.cache, code@, now),
                    ..old(self)@
                });
                metrics::cache_miss(mx);
                None
            },
        }
    }

    /// The url of a code, from what the database has of it. It is cached, and the
    /// hit is counted.
    pub fn resolve(&mut self, code: &str, value: &Option<Vec<u8>>, now: i64) -> (r: Option<String>)
        requires
            old(self).wf(),
        ensures
            final(self).wf(),
            match found_at(kv::opt_bytes(*value), now) {
                FoundView::Live(e, _, u) => store::opt_string(r) == Some(u) && final(self)@
                    == bumped(
                    RocksView {
                        cache: lru::after_put(old(self)@.cache, code@, u, e, now),
                        ..old(self)@
                    },
                    code@,
                ),
                _ => r is None && final(self)@ == old(self)@,
            },
    {
        match row(value, now) {
            Found::Live(e, _c, u) => {
                self.cache.put(code, u.as_str(), e, now);
                assert(self@ =~= RocksView {
                    cache: lru::after_put(old(self)@.cache, code@, u@, e, now),
                    ..old(self)@
                });
                self.bump(code);
                Some(u)
            },
            _ => None,
        }
    }

    /// What to write under the code of a new link, unless there is something
    /// already.
    pub fn shorten(&self, taken: bool, code: &str, url: &str, ttl_ms: i64, now: i64) -> (r: Option<
        Vec<u8>,
    >)
        ensures
            kv::opt_bytes(r) == (if taken {
                None
            } else {
                Some(new_value(url@, ttl_ms, now))
            }),
    {
        if taken {
            return None;
        }
        let exp: i64 = if ttl_ms > 0 {
            now.wrapping_add(ttl_ms)
        } else {
            0
        };
        Some(store_kv::enc_val(exp, now, url))
    }

    /// What to write for many new links: the code of each, which is free, and its value, in
    /// the order of the urls. No two rows have the same code if no two codes are the same.
    pub fn shorten_many(&self, codes: &Vec<String>, urls: &Vec<String>, ttl_ms: i64, now: i64) -> (r:
        Vec<(String, Vec<u8>)>)
        requires
            codes@.len() == urls@.len(),
        ensures
            put_views(r@) == new_rows(aof::texts(codes@), aof::texts(urls@), ttl_ms, now),
            (forall|j: int, k: int| 0 <= j < k < codes@.len() ==> codes@[j]@ != codes@[k]@) ==> (
            forall|j: int, k: int|
                0 <= j < k < r@.len() ==> put_views(r@)[j].0 != put_views(r@)[k].0),
    {
        let exp: i64 = if ttl_ms > 0 {
            now.wrapping_add(ttl_ms)
        } else {
            0
        };
        let mut out: Vec<(String, Vec<u8>)> = Vec::new();
        let mut i: usize = 0;
        while i < urls.len()
            invariant
                i <= urls@.len(),
                codes@.len() == urls@.len(),
                exp == store::expiry(now, ttl_ms),
                out@.len() == i,
                forall|k: int|
                    0 <= k < i ==> (#[trigger] out@[k]).0@ == codes@[k]@ && out@[k].1@ == new_value(
                        urls@[k]@,
                        ttl_ms,
                        now,
                    ),
            decreases urls@.len() - i,
        {
            out.push((codes[i].clone(), store_kv::enc_val(exp, now, urls[i].as_str())));
            i += 1;
        }
        assert(put_views(out@) =~= new_rows(aof::texts(codes@), aof::texts(urls@), ttl_ms, now));
        out
    }

    /// What to write to give a link another url, from what the database has of it;
    /// nothing if it has no such link.
    pub fn update_value(
        &self,
        value: &Option<Vec<u8>>,
        url: &str,
        ttl_ms: i64,
        has_ttl: bool,
        now: i64,
    ) -> (r: Option<Vec<u8>>)
        ensures
            kv::opt_bytes(r) == updated_value(
                kv::opt_bytes(*value),
                url@,
                ttl_ms,
                has_ttl,
                now,
            ),
    {
        match row(value, now) {
            Found::Live(e, c, _u) => {
                let exp: i64 = if has_ttl {
                    now.wrapping_add(
                        if ttl_ms > 0 {
                            ttl_ms
                        } else {
                            0
                        },
                    )
                } else {
                    e
                };
                Some(store_kv::enc_val(exp, c, url))
            },
            _ => None,
        }
    }

    /// What became of an update or a removal: it is done if it was written, and then
    /// the link is not cached any more.
    pub fn changed(&mut self, code: &str, written: bool) -> (m: MutResult)
        requires
            old(self).wf(),
        ensures
            final(self).wf(),
            if written {
                m == MutResult::Done && final(self)@ == (RocksView {
                    cache: lru::after_remove(old(self)@.cache, code@),
                    ..old(self)@
                })
            } else {
                m == MutResult::Missing && final(self)@ == old(self)@
            },
    {
        if written {
            self.cache.remove(code);
            assert(self@ =~= (RocksView {
                cache: lru::after_remove(old(self)@.cache, code@),
                ..old(self)@
            }));
            MutResult::Done
        } else {
            MutResult::Missing
        }
    }

    /// The hits of a code: those in the database and those not yet written.
    pub fn hits_of(&self, code: &str, stored: &Option<Vec<u8>>) -> (r: i64)
        ensures
            r == all_hits(self@, code@, kv::opt_bytes(*stored)),
    {
        let kept: u64 = match stored {
            Some(v) => match read_le(v.as_slice()) {
                Some(n) => n,
                None => 0,
            },
            None => 0,
        };
        let n: i64 = match fxmap::fx_get(&self.dirty, code) {
            Some(n) => *n,
            None => 0,
        };
        (#[verifier::truncate] (kept as i64)).wrapping_add(n)
    }

    /// What is known of a code, from what the database has of it and of its hits.
    pub fn stats(
        &self,
        code: &str,
        value: &Option<Vec<u8>>,
        stored: &Option<Vec<u8>>,
        now: i64,
    ) -> (r: Option<Link>)
        ensures
            (match r {
                Some(l) => Some(l@),
                None => None,
            }) == stats_of(self@, code@, kv::opt_bytes(*value), kv::opt_bytes(*stored), now),
    {
        match row(value, now) {
            Found::Live(e, c, u) => Some(
                store_kv::make_link(code.to_string(), e, c, u, self.hits_of(code, stored)),
            ),
            _ => None,
        }
    }

    fn one_row(&self, r: &DbRow, now: i64) -> (l: Option<Link>)
        ensures
            (match l {
                Some(l) => Some(l@),
                None => None,
            }) == row_link(self@, *r, now),
    {
        match text::utf8_string(r.key.as_slice()) {
            Some(code) => match store_kv::dec_val(r.value.as_slice()) {
                Some((e, c, u)) => {
                    if e != 0 && e <= now {
                        return None;
                    }
                    let hits: i64 = self.hits_of(code.as_str(), &r.hits);
                    Some(store_kv::make_link(code, e, c, u, hits))
                },
                None => None,
            },
            None => None,
        }
    }

    /// The links whose code or url holds `q`, from the rows of the database: a page,
    /// and how many there are. Expired links are left out.
    pub fn list(
        &self,
        rows: &Vec<DbRow>,
        now: i64,
        limit: usize,
        offset: usize,
        sort: &str,
        q: &str,
    ) -> (r: (Vec<Link>, usize))
        ensures
            store_kv::paged(
                row_links(self@, rows@, now, q@),
                sort@,
                limit as int,
                offset as int,
                listing::link_views(r.0@),
                r.1 as int,
            ),
    {
        let mut items: Vec<Link> = Vec::new();
        let mut i: usize = 0;
        assert(rows@.take(0) =~= Seq::empty());
        assert(listing::link_views(items@) =~= Seq::empty());
        while i < rows.len()
            invariant
                i <= rows@.len(),
                listing::link_views(items@) == row_links(self@, rows@.take(i as int), now, q@),
            decreases rows@.len() - i,
        {
            let ghost before = listing::link_views(items@);
            assert(rows@.take(i + 1).drop_last() =~= rows@.take(i as int));
            if let Some(l) = self.one_row(&rows[i], now) {
                if listing::is_wanted(&l, q) {
                    let ghost lv = l@;
                    items.push(l);
                    assert(listing::link_views(items@) =~= before.push(lv));
                }
            }
            i += 1;
        }
        assert(rows@.take(i as int) =~= rows@);
        let total: usize = items.len();
        let order: Order = listing::order_for(sort);
        (listing::paginate(&items, order, limit, offset), total)
    }

    /// What to merge for the hits that were not written yet.
    pub fn flush_hits(&mut self) -> (r: Vec<(String, Vec<u8>)>)
        requires
            old(self).wf(),
        ensures
            final(self).wf(),
            final(self)@ == (RocksView { dirty: Map::empty(), ..old(self)@ }),
            exists|codes: Seq<Seq<char>>| #[trigger]
                store::enumerates(codes, old(self)@.dirty.dom()) && put_views(r@) == Seq::new(
                    codes.len(),
                    |i: int|
                        (codes[i], spec_u64_to_le_bytes(old(self)@.dirty[codes[i]] as u64)),
                ),
    {
        let keys: Vec<String> = fxmap::fx_keys(&self.dirty);
        let ghost codes = aof::texts(keys@);
        proof {
            assert forall|k: int| 0 <= k < codes.len() implies self@.dirty.dom().contains(
                #[trigger] codes[k],
            ) by {
                assert(fxmap::by_text(self.dirty@).contains_key(keys@[k]@));
            }
            assert forall|t: Seq<char>| #[trigger] self@.dirty.dom().contains(t) implies exists|
                k: int,
            | 0 <= k < codes.len() && #[trigger] codes[k] == t by {
                assert(fxmap::by_text(self.dirty@).contains_key(t));
                let k = choose|k: int| 0 <= k < keys@.len() && (#[trigger] keys@[k])@ == t;
                assert(codes[k] == t);
            }
        }
        let mut out: Vec<(String, Vec<u8>)> = Vec::new();
        let mut i: usize = 0;
        while i < keys.len()
            invariant
                self.wf(),
                *self == *old(self),
                i <= keys@.len(),
                codes == aof::texts(keys@),
                store::enumerates(codes, self@.dirty.dom()),
                out@.len() == i,
                forall|k: int|
                    0 <= k < i ==> (#[trigger] out@[k]).0@ == codes[k] && out@[k].1@
                        == spec_u64_to_le_bytes(self@.dirty[codes[k]] as u64),
            decreases keys@.len() - i,
        {
            assert(self@.dirty.dom().contains(codes[i as int]));
            let n: i64 = match fxmap::fx_get(&self.dirty, keys[i].as_str()) {
                Some(n) => *n,
                None => 0,
            };
            out.push((keys[i].clone(), u64_to_le_bytes(#[verifier::truncate] (n as u64))));
            i += 1;
        }
        assert(put_views(out@) =~= Seq::new(
            codes.len(),
            |i: int| (codes[i], spec_u64_to_le_bytes(old(self)@.dirty[codes[i]] as u64)),
        ));
        self.dirty = fxmap::fx_new();
        assert(self@ =~= (RocksView { dirty: Map::empty(), ..old(self)@ }));
        out
    }
}

} // verus!
