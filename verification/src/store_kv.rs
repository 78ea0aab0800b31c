//! The links in a RESP server (Redis, DragonflyDB): this process keeps a bounded
//! cache and the hits that are not sent yet.
//!
//! - `l:{code}` holds `{expires_ms}|{created_ms}|{url}`, `h:{code}` the hits; or
//! - the hash `l:{bucket}` holds the same values in the fields `{code}` and
//!   `h:{code}`
//!
//! The server is reached by the caller: every operation says what to send, and
//! takes in what came back.

use rustc_hash::FxHashMap;
use vstd::prelude::*;
use vstd::utf8::*;

use crate::aof;
use crate::fxmap;
use crate::kv;
use crate::kv::{Resp, RespView};
use crate::listing;
use crate::lru;
use crate::lru::{Lru, LruView};
use crate::store;
use crate::store::{Link, LinkView, MutResult, NUM_SHARDS};
use crate::text;

verus! {

// ---------- keys and values ----------

/// How links lie in the server.
#[derive(Clone, Copy, PartialEq, Eq, Structural)]
pub enum Layout {
    /// A key for each link; the server drops it when it expires.
    Key,
    /// A field of a hash for each link; expired fields are swept.
    Hash,
}

/// The key of a link.
pub open spec fn link_key(code: Seq<char>) -> Seq<u8> {
    text::lit("l:") + encode_utf8(code)
}

/// The key, or the field, of the hits of a link.
pub open spec fn hits_key(code: Seq<char>) -> Seq<u8> {
    text::lit("h:") + encode_utf8(code)
}

/// The hash that holds a link.
pub open spec fn bucket_key(code: Seq<char>, buckets: u32) -> Seq<u8> {
    text::lit("l:") + text::decimal(store::shard_ix(code) % buckets as int)
}

/// The key of a link.
pub fn lkey(code: &str) -> (r: Vec<u8>)
    ensures
        r@ == link_key(code@),
{
    let mut k: Vec<u8> = Vec::new();
    text::put(&mut k, "l:");
    text::put(&mut k, code);
    assert(k@ =~= link_key(code@));
    k
}

/// The key of the hits of a link.
pub fn hkey(code: &str) -> (r: Vec<u8>)
    ensures
        r@ == hits_key(code@),
{
    let mut k: Vec<u8> = Vec::new();
    text::put(&mut k, "h:");
    text::put(&mut k, code);
    assert(k@ =~= hits_key(code@));
    k
}

/// The field of the hits of a link.
pub fn hfield(code: &str) -> (r: Vec<u8>)
    ensures
        r@ == hits_key(code@),
{
    hkey(code)
}

/// The hash that holds a link.
pub fn bkey(code: &str, buckets: u32) -> (r: Vec<u8>)
    requires
        buckets > 0,
    ensures
        r@ == bucket_key(code@, buckets),
{
    let mut k: Vec<u8> = Vec::new();
    text::put(&mut k, "l:");
    let n: u32 = store::shard_of(code) as u32 % buckets;
    text::put_u64(&mut k, n as u64);
    assert(k@ =~= bucket_key(code@, buckets));
    k
}

/// A link as it lies in the server.
pub open spec fn val_bytes(e: int, c: int, u: Seq<u8>) -> Seq<u8> {
    text::decimal(e) + seq![124u8] + text::decimal(c) + seq![124u8] + u
}

/// Writes a link: when it expires, when it was stored, its url.
pub fn enc_val(e: i64, c: i64, u: &str) -> (r: Vec<u8>)
    ensures
        r@ == val_bytes(e as int, c as int, encode_utf8(u@)),
{
    let mut v: Vec<u8> = Vec::new();
    text::put_i64(&mut v, e);
    v.push(124);
    text::put_i64(&mut v, c);
    v.push(124);
    text::put(&mut v, u);
    assert(v@ =~= val_bytes(e as int, c as int, encode_utf8(u@)));
    v
}

/// The number that some bytes stand for, if they stand for one.
pub open spec fn number_in(b: Seq<u8>) -> Option<i64> {
    if valid_utf8(b) {
        match text::int_within(decode_utf8(b), i64::MIN as int, i64::MAX as int) {
            Some(n) => Some(n as i64),
            None => None,
        }
    } else {
        None
    }
}

/// The number that some bytes stand for, if they stand for one.
pub fn read_number(b: &[u8]) -> (r: Option<i64>)
    ensures
        r == number_in(b@),
{
    match text::utf8_string(b) {
        Some(s) => text::parse_i64(&text::chars_of(s.as_str())),
        None => None,
    }
}

/// A text that some bytes stand for, if they are UTF-8.
pub open spec fn text_in(b: Seq<u8>) -> Option<Seq<char>> {
    if valid_utf8(b) {
        Some(decode_utf8(b))
    } else {
        None
    }
}

/// What a value says: when the link expires, when it was stored, its url. A value
/// with one bar only has no time at which it was stored.
pub open spec fn val_of(v: Seq<u8>) -> Option<(i64, i64, Seq<char>)> {
    let p = text::index_from(v, 0, 124);
    if p >= v.len() {
        None
    } else {
        match number_in(v.take(p)) {
            None => None,
            Some(e) => {
                let rest = v.skip(p + 1);
                let q = text::index_from(rest, 0, 124);
                if q < rest.len() {
                    match (number_in(rest.take(q)), text_in(rest.skip(q + 1))) {
                        (Some(c), Some(u)) => Some((e, c, u)),
                        _ => None,
                    }
                } else {
                    match text_in(rest) {
                        Some(u) => Some((e, 0, u)),
                        None => None,
                    }
                }
            },
        }
    }
}

/// What a value says.
pub open spec fn triple(t: Option<(i64, i64, String)>) -> Option<(i64, i64, Seq<char>)> {
    match t {
        Some((e, c, u)) => Some((e, c, u@)),
        None => None,
    }
}

/// Reads a link: when it expires, when it was stored, its url.
pub fn dec_val(v: &[u8]) -> (r: Option<(i64, i64, String)>)
    ensures
        triple(r) == val_of(v@),
{
    let p: usize = text::find_byte(v, 0, 124);
    if p >= v.len() {
        return None;
    }
    let front: &[u8] = vstd::slice::slice_subrange(v, 0, p);
    assert(front@ =~= v@.take(p as int));
    let e: i64 = match read_number(front) {
        Some(e) => e,
        None => {
            return None;
        },
    };
    let rest: &[u8] = vstd::slice::slice_subrange(v, p + 1, v.len());
    assert(rest@ =~= v@.skip(p + 1));
    let q: usize = text::find_byte(rest, 0, 124);
    if q < rest.len() {
        let mid: &[u8] = vstd::slice::slice_subrange(rest, 0, q);
        assert(mid@ =~= rest@.take(q as int));
        let back: &[u8] = vstd::slice::slice_subrange(rest, q + 1, rest.len());
        assert(back@ =~= rest@.skip(q + 1));
        match (read_number(mid), text::utf8_string(back)) {
            (Some(c), Some(u)) => Some((e, c, u)),
            _ => None,
        }
    } else {
        match text::utf8_string(rest) {
            Some(u) => Some((e, 0, u)),
            None => None,
        }
    }
}

/// A link that was written reads back, whatever its url holds.
pub proof fn law_value_reads_back(e: i64, c: i64, u: Seq<char>)
    ensures
        val_of(val_bytes(e as int, c as int, encode_utf8(u))) == Some((e, c, u)),
{
    let ub = encode_utf8(u);
    let eb = text::decimal(e as int);
    let cb = text::decimal(c as int);
    let v = val_bytes(e as int, c as int, ub);
    lemma_number_back(e);
    lemma_number_back(c);
    let p = eb.len() as int;
    assert forall|k: int| 0 <= k < p implies v[k] != 124 by {
        assert(v[k] == eb[k]);
    }
    text::lemma_index_is(v, 0, 124, p);
    assert(v.take(p) =~= eb);
    let rest = v.skip(p + 1);
    assert(rest =~= cb + seq![124u8] + ub);
    let q = cb.len() as int;
    assert forall|k: int| 0 <= k < q implies rest[k] != 124 by {
        assert(rest[k] == cb[k]);
    }
    text::lemma_index_is(rest, 0, 124, q);
    assert(rest.take(q) =~= cb);
    assert(rest.skip(q + 1) =~= ub);
    encode_utf8_valid_utf8(u);
    encode_utf8_decode_utf8(u);
}

/// A number is read back from its digits.
pub proof fn lemma_number_back(n: i64)
    ensures
        number_in(text::decimal(n as int)) == Some(n),
        forall|k: int|
            0 <= k < text::decimal(n as int).len() ==> #[trigger] text::decimal(n as int)[k] != 124,
{
    text::lemma_decimal(n as int);
    text::lemma_ascii_text(text::decimal(n as int));
    text::law_decimal_reads_back(n as int);
}

/// A value without the time at which the link was stored reads with 0 for it.
pub proof fn law_short_value_reads(e: i64, u: Seq<char>)
    requires
        forall|k: int| 0 <= k < encode_utf8(u).len() ==> encode_utf8(u)[k] != 124,
    ensures
        val_of(text::decimal(e as int) + seq![124u8] + encode_utf8(u)) == Some((e, 0i64, u)),
{
    let ub = encode_utf8(u);
    let eb = text::decimal(e as int);
    let v = eb + seq![124u8] + ub;
    lemma_number_back(e);
    let p = eb.len() as int;
    assert forall|k: int| 0 <= k < p implies v[k] != 124 by {
        assert(v[k] == eb[k]);
    }
    text::lemma_index_is(v, 0, 124, p);
    assert(v.take(p) =~= eb);
    assert(v.skip(p + 1) =~= ub);
    text::lemma_index_none(ub, 0, 124);
    encode_utf8_valid_utf8(u);
    encode_utf8_decode_utf8(u);
}

// ---------- settings ----------

/// How links lie in the server, from the setting for it.
pub open spec fn layout_for(v: Option<Seq<char>>) -> Layout {
    if v == Some("hash"@) {
        Layout::Hash
    } else {
        Layout::Key
    }
}

/// How links lie in the server, from the setting for it.
pub fn layout_of(v: Option<&str>) -> (r: Layout)
    ensures
        r == layout_for(store::opt_text(v)),
{
    match v {
        Some(s) => if text::same(s, "hash") {
            Layout::Hash
        } else {
            Layout::Key
        },
        None => Layout::Key,
    }
}

/// How many hashes hold links, from the setting for it.
pub fn buckets_of(v: Option<&str>) -> (r: u32)
    ensures
        r == store::count_setting(store::opt_text(v), u32::MAX as int, 1000000),
{
    match v {
        Some(s) => match text::parse_u64(&text::chars_of(s)) {
            Some(n) => if n <= u32::MAX as u64 {
                n as u32
            } else {
                1000000
            },
            None => 1000000,
        },
        None => 1000000,
    }
}

// ---------- the store ----------

/// What this process keeps of a store in a RESP server.
pub struct KvStore {
    cache: Lru,
    dirty: FxHashMap<String, i64>,
    instance: i32,
    layout: Layout,
    buckets: u32,
    track: bool,
}

/// What this process keeps: the cache, the hits not yet sent, the id of this
/// instance, how links lie in the server, and whether hits are counted.
#[verifier::ext_equal]
pub ghost struct KvView {
    pub cache: LruView,
    pub dirty: Map<Seq<char>, i64>,
    pub instance: i32,
    pub layout: Layout,
    pub buckets: u32,
    pub track: bool,
}

impl View for KvStore {
    type V = KvView;

    closed spec fn view(&self) -> KvView {
        KvView {
            cache: self.cache@,
            dirty: fxmap::by_text(self.dirty@),
            instance: self.instance,
            layout: self.layout,
            buckets: self.buckets,
            track: self.track,
        }
    }
}

/// The id of an instance, brought into the range that has letters.
pub open spec fn clamped(instance: i32) -> i32 {
    if instance < 0 {
        0
    } else if instance > 61 {
        61
    } else {
        instance
    }
}

/// The hits of a code not yet sent.
pub open spec fn unsent(dirty: Map<Seq<char>, i64>, code: Seq<char>) -> i64 {
    if dirty.contains_key(code) {
        dirty[code]
    } else {
        0
    }
}

/// A store in which one more hit was counted.
pub open spec fn bumped(s: KvView, code: Seq<char>) -> KvView {
    if s.track {
        KvView { dirty: s.dirty.insert(code, unsent(s.dirty, code).wrapping_add(1)), ..s }
    } else {
        s
    }
}

/// A link that has expired.
pub open spec fn past(e: i64, now: i64) -> bool {
    e != 0 && e <= now
}

/// The url that a value gives a code, if it is one and has not expired.
pub open spec fn target_in(value: Option<Seq<u8>>, now: i64) -> Option<(i64, Seq<char>)> {
    match value {
        Some(v) => match val_of(v) {
            Some((e, _, u)) => if past(e, now) {
                None
            } else {
                Some((e, u))
            },
            None => None,
        },
        None => None,
    }
}

/// The words of the command that creates a link, unless its code is taken.
pub open spec fn create_words(
    s: KvView,
    code: Seq<char>,
    url: Seq<char>,
    ttl_ms: i64,
    now: i64,
) -> Seq<Seq<u8>> {
    let v = val_bytes(store::expiry(now, ttl_ms) as int, now as int, encode_utf8(url));
    match s.layout {
        Layout::Hash => seq![
            text::lit("HSETNX"),
            bucket_key(code, s.buckets),
            encode_utf8(code),
            v,
        ],
        Layout::Key => kv::set_words(link_key(code), v, ttl_ms, true),
    }
}

/// Whether a link was created, by the reply.
pub open spec fn was_created(layout: Layout, r: RespView) -> bool {
    match layout {
        Layout::Hash => r == RespView::Int(1),
        Layout::Key => kv::set_result(r) == Ok::<bool, Seq<char>>(true),
    }
}

/// The words of the command that reads a link.
pub open spec fn row_words(s: KvView, code: Seq<char>) -> Seq<Seq<u8>> {
    match s.layout {
        Layout::Hash => seq![text::lit("HGET"), bucket_key(code, s.buckets), encode_utf8(code)],
        Layout::Key => seq![text::lit("GET"), link_key(code)],
    }
}

/// The words of the command that reads the hits of a link.
pub open spec fn hits_words(s: KvView, code: Seq<char>) -> Seq<Seq<u8>> {
    match s.layout {
        Layout::Hash => seq![text::lit("HGET"), bucket_key(code, s.buckets), hits_key(code)],
        Layout::Key => seq![text::lit("GET"), hits_key(code)],
    }
}

/// The words of the command that gives a link another url, if there is such a
/// link; its time of creation stays, and without a ttl its expiry too.
pub open spec fn update_words(
    s: KvView,
    code: Seq<char>,
    value: Option<Seq<u8>>,
    url: Seq<char>,
    ttl_ms: i64,
    has_ttl: bool,
    now: i64,
) -> Option<Seq<Seq<u8>>> {
    match value {
        Some(v) => match val_of(v) {
            Some((e, c, _)) => {
                let exp = if has_ttl {
                    store::expiry(now, ttl_ms)
                } else {
                    e
                };
                let px: i64 = if exp > 0 {
                    exp.wrapping_sub(now)
                } else {
                    0
                };
                let w = val_bytes(exp as int, c as int, encode_utf8(url));
                Some(
                    match s.layout {
                        Layout::Hash => seq![
                            text::lit("HSET"),
                            bucket_key(code, s.buckets),
                            encode_utf8(code),
                            w,
                        ],
                        Layout::Key => kv::set_words(link_key(code), w, px, false),
                    },
                )
            },
            None => None,
        },
        None => None,
    }
}

/// Whether a link was updated, by the reply.
pub open spec fn was_updated(layout: Layout, r: RespView) -> bool {
    match layout {
        Layout::Hash => r is Int,
        Layout::Key => kv::set_result(r) == Ok::<bool, Seq<char>>(true),
    }
}

/// The words of the command that removes a link.
pub open spec fn remove_words(s: KvView, code: Seq<char>) -> Seq<Seq<u8>> {
    match s.layout {
        Layout::Hash => seq![text::lit("HDEL"), bucket_key(code, s.buckets), encode_utf8(code)],
        Layout::Key => seq![text::lit("DEL"), link_key(code)],
    }
}

/// The words of the command that removes the hits of a link.
pub open spec fn remove_hits_words(s: KvView, code: Seq<char>) -> Seq<Seq<u8>> {
    match s.layout {
        Layout::Hash => seq![text::lit("HDEL"), bucket_key(code, s.buckets), hits_key(code)],
        Layout::Key => seq![text::lit("DEL"), hits_key(code)],
    }
}

/// The words of the command that sends the hits of a code.
pub open spec fn count_words(s: KvView, code: Seq<char>, n: i64) -> Seq<Seq<u8>> {
    match s.layout {
        Layout::Hash => seq![
            text::lit("HINCRBY"),
            bucket_key(code, s.buckets),
            hits_key(code),
            text::decimal(n as int),
        ],
        Layout::Key => seq![text::lit("INCRBY"), hits_key(code), text::decimal(n as int)],
    }
}

/// The words of the commands that send the hits of several codes.
pub open spec fn flush_words(s: KvView, codes: Seq<Seq<char>>) -> Seq<Seq<Seq<u8>>> {
    Seq::new(codes.len(), |i: int| count_words(s, codes[i], s.dirty[codes[i]]))
}

/// The words of several commands.
pub open spec fn words_of(v: Seq<Vec<Vec<u8>>>) -> Seq<Seq<Seq<u8>>> {
    Seq::new(v.len(), |i: int| aof::bytes_of(v[i]@))
}

/// The hits that a value stands for.
pub open spec fn hits_in(value: Option<Seq<u8>>) -> i64 {
    match value {
        Some(h) => match number_in(h) {
            Some(n) => n,
            None => 0,
        },
        None => 0,
    }
}

/// A link as callers see it.
pub open spec fn link_from(code: Seq<char>, e: i64, c: i64, u: Seq<char>, hits: i64) -> LinkView {
    LinkView {
        code,
        url: u,
        hits,
        created_at: c,
        expires_at: if e != 0 {
            Some(e)
        } else {
            None
        },
    }
}

/// What is known of a code, from what the server has of it.
pub open spec fn stats_of(
    s: KvView,
    code: Seq<char>,
    value: Option<Seq<u8>>,
    hits: Option<Seq<u8>>,
) -> Option<LinkView> {
    match value {
        Some(v) => match val_of(v) {
            Some((e, c, u)) => Some(
                link_from(code, e, c, u, hits_in(hits).wrapping_add(unsent(s.dirty, code))),
            ),
            None => None,
        },
        None => None,
    }
}

/// A link as callers see it.
pub fn make_link(code: String, e: i64, c: i64, url: String, hits: i64) -> (r: Link)
    ensures
        r@ == link_from(code@, e, c, url@, hits),
{
    Link {
        code,
        url,
        hits,
        created_at: c,
        expires_at: if e != 0 {
            Some(e)
        } else {
            None
        },
    }
}

fn read_hits(v: &Option<Vec<u8>>) -> (r: i64)
    ensures
        r == hits_in(kv::opt_bytes(*v)),
{
    match v {
        Some(h) => match read_number(h.as_slice()) {
            Some(n) => n,
            None => 0,
        },
        None => 0,
    }
}

impl KvStore {
    /// The cache is whole, links that go into hashes have one to go to, and the
    /// instance has a letter.
    pub closed spec fn wf(&self) -> bool {
        &&& self.cache.wf()
        &&& self.layout == Layout::Hash ==> self.buckets > 0
        &&& 0 <= self.instance < store::MAX_INSTANCES
    }

    /// A store with an empty cache for about as many links as said, each of which
    /// counts for `cache_ttl_ms` ms. With none there is no cache.
    pub fn open(
        instance: i32,
        cache_entries: usize,
        cache_ttl_ms: i64,
        layout: Layout,
        buckets: u32,
    ) -> (r: KvStore)
        requires
            layout == Layout::Hash ==> buckets > 0,
        ensures
            r.wf(),
            r@ == (KvView {
                cache: lru::empty_cache(cache_entries as int, cache_ttl_ms),
                dirty: Map::empty(),
                instance: clamped(instance),
                layout,
                buckets,
                track: true,
            }),
    {
        let r = KvStore {
            cache: Lru::new(cache_entries, cache_ttl_ms),
            dirty: fxmap::fx_new(),
            instance: if instance < 0 {
                0
            } else if instance > 61 {
                61
            } else {
                instance
            },
            layout,
            buckets,
            track: true,
        };
        assert(r@.dirty =~= Map::<Seq<char>, i64>::empty());
        r
    }

    /// The id of this instance.
    pub fn instance(&self) -> (r: i32)
        ensures
            r == self@.instance,
    {
        self.instance
    }

    /// Has hits counted or not.
    pub fn set_track_hits(&mut self, track: bool)
        requires
            old(self).wf(),
        ensures
            final(self).wf(),
            final(self)@ == (KvView { track, ..old(self)@ }),
    {
        self.track = track;
        assert(self@ =~= (KvView { track, ..old(self)@ }));
    }

    /// How links lie in the server.
    pub fn layout(&self) -> (r: Layout)
        ensures
            r == self@.layout,
    {
        self.layout
    }

    /// A random code.
    pub fn gen_code(&self) -> (r: String)
        requires
            self.wf(),
        ensures
            store::generated(self@.instance as int, r@),
    {
        let draw: Vec<u8> = store::random_bytes(store::SUFFIX_LEN);
        store::code_from(self.instance, draw.as_slice())
    }

    fn bump(&mut self, code: &str)
        requires
            old(self).wf(),
        ensures
            final(self).wf(),
            final(self)@ == bumped(old(self)@, code@),
    {
        if self.track {
            let n: i64 = match fxmap::fx_get(&self.dirty, code) {
                Some(n) => *n,
                None => 0,
            };
            fxmap::fx_insert(&mut self.dirty, code.to_string(), n.wrapping_add(1));
        }
        assert(self@ =~= bumped(old(self)@, code@));
    }

    /// The url of a code, if the cache has it. The hit is counted.
    pub fn resolve_cached(&mut self, code: &str, now: i64) -> (r: Option<String>)
        requires
            old(self).wf(),
        ensures
            final(self).wf(),
            ({
                let s = KvView {
                    cache: lru::after_get(old(self)@.cache, code@, now),
                    ..old(self)@
                };
                match lru::fresh_entry(old(self)@.cache, code@, now) {
                    Some(x) => store::opt_string(r) == Some(x.u) && final(self)@ == bumped(s, code@),
                    None => r is None && final(self)@ == s,
                }
            }),
    {
        match self.cache.get(code, now) {
            Some((u, _e)) => {
                assert(self@ =~= KvView {
                    cache: lru::after_get(old(self)@.cache, code@, now),
                    ..old(self)@
                });
                self.bump(code);
                Some(u)
            },
            None => {
                assert(self@ =~= KvView {
                    cache: lru::after_get(old(self)@.cache, code@, now),
                    ..old(self)@
                });
                None
            },
        }
    }

    /// What to send to read a link.
    pub fn row_cmd(&self, code: &str) -> (r: Vec<Vec<u8>>)
        requires
            self.wf(),
        ensures
            aof::bytes_of(r@) == row_words(self@, code@),
    {
        match self.layout {
            Layout::Hash => kv::hget_cmd(
                bkey(code, self.buckets).as_slice(),
                code.as_bytes(),
            ),
            Layout::Key => kv::get_cmd(lkey(code).as_slice()),
        }
    }

    /// What to send to read the hits of a link.
    pub fn hits_cmd(&self, code: &str) -> (r: Vec<Vec<u8>>)
        requires
            self.wf(),
        ensures
            aof::bytes_of(r@) == hits_words(self@, code@),
    {
        match self.layout {
            Layout::Hash => kv::hget_cmd(
                bkey(code, self.buckets).as_slice(),
                hfield(code).as_slice(),
            ),
            Layout::Key => kv::get_cmd(hkey(code).as_slice()),
        }
    }

    /// The url of a code, from what the server has of it. It is cached, and the hit
    /// is counted.
    pub fn resolve(&mut self, code: &str, value: &Option<Vec<u8>>, now: i64) -> (r: Option<
        String,
    >)
        requires
            old(self).wf(),
        ensures
            final(self).wf(),
            match target_in(kv::opt_bytes(*value), now) {
                Some((e, u)) => store::opt_string(r) == Some(u) && final(self)@ == bumped(
                    KvView {
                        cache: lru::after_put(old(self)@.cache, code@, u, e, now),
                        ..old(self)@
                    },
                    code@,
                ),
                None => r is None && final(self)@ == old(self)@,
            },
    {
        let (e, u): (i64, String) = match value {
            Some(v) => match dec_val(v.as_slice()) {
                Some((e, _c, u)) => (e, u),
                None => {
                    return None;
                },
            },
            None => {
                return None;
            },
        };
        if e != 0 && e <= now {
            return None;
        }
        self.cache.put(code, u.as_str(), e, now);
        assert(self@ =~= KvView {
            cache: lru::after_put(old(self)@.cache, code@, u@, e, now),
            ..old(self)@
        });
        self.bump(code);
        Some(u)
    }

    /// What to send to create a link under a code, unless it is taken.
    pub fn create_cmd(&self, code: &str, url: &str, ttl_ms: i64, now: i64) -> (r: Vec<Vec<u8>>)
        requires
            self.wf(),
        ensures
            aof::bytes_of(r@) == create_words(self@, code@, url@, ttl_ms, now),
    {
        let exp: i64 = if ttl_ms > 0 {
            now.wrapping_add(ttl_ms)
        } else {
            0
        };
        let v: Vec<u8> = enc_val(exp, now, url);
        match self.layout {
            Layout::Hash => kv::hsetnx_cmd(
                bkey(code, self.buckets).as_slice(),
                code.as_bytes(),
                v.as_slice(),
            ),
            Layout::Key => kv::set_cmd(lkey(code).as_slice(), v.as_slice(), ttl_ms, true),
        }
    }

    /// The code of a link that was created, by the reply; none if the code was
    /// taken.
    pub fn shorten(&self, code: &str, r: Resp) -> (c: Option<String>)
        ensures
            store::opt_string(c) == (if was_created(self@.layout, kv::resp_view(r)) {
                Some(code@)
            } else {
                None
            }),
    {
        let ok: bool = match self.layout {
            Layout::Hash => kv::hsetnx_reply(&r),
            Layout::Key => match kv::set_reply(r) {
                Ok(b) => b,
                Err(_e) => false,
            },
        };
        if ok {
            Some(code.to_string())
        } else {
            None
        }
    }

    /// What to send to create many links, each under a random code: the codes, in
    /// the order of the urls, and the commands.
    pub fn shorten_many(&self, urls: &Vec<String>, ttl_ms: i64, now: i64) -> (r: (
        Vec<String>,
        Vec<Vec<Vec<u8>>>,
    ))
        requires
            self.wf(),
        ensures
            r.0@.len() == urls@.len(),
            r.1@.len() == urls@.len(),
            forall|i: int|
                0 <= i < urls@.len() ==> store::generated(
                    self@.instance as int,
                    (#[trigger] r.0@[i])@,
                ),
            forall|i: int|
                0 <= i < urls@.len() ==> #[trigger] words_of(r.1@)[i] == create_words(
                    self@,
                    r.0@[i]@,
                    urls@[i]@,
                    ttl_ms,
                    now,
                ),
    {
        let mut codes: Vec<String> = Vec::new();
        let mut cmds: Vec<Vec<Vec<u8>>> = Vec::new();
        let mut i: usize = 0;
        while i < urls.len()
            invariant
                self.wf(),
                i <= urls@.len(),
                codes@.len() == i,
                cmds@.len() == i,
                forall|k: int|
                    0 <= k < i ==> store::generated(
                        self@.instance as int,
                        (#[trigger] codes@[k])@,
                    ),
                forall|k: int|
                    0 <= k < i ==> aof::bytes_of((#[trigger] cmds@[k])@) == create_words(
                        self@,
                        codes@[k]@,
                        urls@[k]@,
                        ttl_ms,
                        now,
                    ),
            decreases urls@.len() - i,
        {
            let c: String = self.gen_code();
            cmds.push(self.create_cmd(c.as_str(), urls[i].as_str(), ttl_ms, now));
            codes.push(c);
            i += 1;
        }
        (codes, cmds)
    }

    /// Which of many links were not created, by the replies.
    pub fn to_retry(&self, replies: Vec<Resp>) -> (r: Vec<usize>)
        ensures
            forall|k: int, m: int| 0 <= k < m < r@.len() ==> r@[k] < r@[m],
            forall|k: int|
                0 <= k < r@.len() ==> #[trigger] r@[k] < replies@.len() && !was_created(
                    self@.layout,
                    kv::resp_view(replies@[r@[k] as int]),
                ),
            forall|i: int|
                0 <= i < replies@.len() && !was_created(
                    self@.layout,
                    kv::resp_view(#[trigger] replies@[i]),
                ) ==> r@.contains(i as usize),
    {
        let mut r: Vec<usize> = Vec::new();
        let mut i: usize = 0;
        while i < replies.len()
            invariant
                i <= replies@.len(),
                forall|k: int, m: int| 0 <= k < m < r@.len() ==> r@[k] < r@[m],
                forall|k: int|
                    0 <= k < r@.len() ==> #[trigger] r@[k] < i && !was_created(
                        self@.layout,
                        kv::resp_view(replies@[r@[k] as int]),
                    ),
                forall|j: int|
                    0 <= j < i && !was_created(
                        self@.layout,
                        kv::resp_view(#[trigger] replies@[j]),
                    ) ==> r@.contains(j as usize),
            decreases replies@.len() - i,
        {
            let ghost before = r@;
            let ok: bool = match self.layout {
                Layout::Hash => kv::hsetnx_reply(&replies[i]),
                Layout::Key => match &replies[i] {
                    Resp::Simple(s) => text::same(s.as_str(), "OK"),
                    _ => false,
                },
            };
            if !ok {
                r.push(i);
            }
            i += 1;
            assert forall|j: int|
                0 <= j < i && !was_created(
                    self@.layout,
                    kv::resp_view(#[trigger] replies@[j]),
                ) implies r@.contains(j as usize) by {
                if j < i - 1 {
                    assert(before.contains(j as usize));
                    let k = choose|k: int| 0 <= k < before.len() && before[k] == j as usize;
                    assert(r@[k] == j as usize);
                } else {
                    assert(r@[r@.len() - 1] == j as usize);
                }
            }
        }
        r
    }

    /// What to send to give a link another url, from what the server has of it;
    /// nothing if it has no such link.
    pub fn update_cmd(
        &self,
        code: &str,
        value: &Option<Vec<u8>>,
        url: &str,
        ttl_ms: i64,
        has_ttl: bool,
        now: i64,
    ) -> (r: Option<Vec<Vec<u8>>>)
        requires
            self.wf(),
        ensures
            (match r {
                Some(c) => Some(aof::bytes_of(c@)),
                None => None,
            }) == update_words(
                self@,
                code@,
                kv::opt_bytes(*value),
                url@,
                ttl_ms,
                has_ttl,
                now,
            ),
    {
        let (e, c): (i64, i64) = match value {
            Some(v) => match dec_val(v.as_slice()) {
                Some((e, c, _u)) => (e, c),
                None => {
                    return None;
                },
            },
            None => {
                return None;
            },
        };
        let exp: i64 = if has_ttl {
            if ttl_ms > 0 {
                now.wrapping_add(ttl_ms)
            } else {
                0
            }
        } else {
            e
        };
        let px: i64 = if exp > 0 {
            exp.wrapping_sub(now)
        } else {
            0
        };
        let w: Vec<u8> = enc_val(exp, c, url);
        Some(
            match self.layout {
                Layout::Hash => kv::hset_cmd(
                    bkey(code, self.buckets).as_slice(),
                    code.as_bytes(),
                    w.as_slice(),
                ),
                Layout::Key => kv::set_cmd(lkey(code).as_slice(), w.as_slice(), px, false),
            },
        )
    }

    fn uncache(&mut self, code: &str)
        requires
            old(self).wf(),
        ensures
            final(self).wf(),
            final(self)@ == (KvView {
                cache: lru::after_remove(old(self)@.cache, code@),
                ..old(self)@
            }),
    {
        self.cache.remove(code);
        assert(self@ =~= (KvView {
            cache: lru::after_remove(old(self)@.cache, code@),
            ..old(self)@
        }));
    }

    /// What became of an update, by the reply. A link that changed is not cached any
    /// more.
    pub fn update(&mut self, code: &str, r: Resp) -> (m: MutResult)
        requires
            old(self).wf(),
        ensures
            final(self).wf(),
            if was_updated(old(self)@.layout, kv::resp_view(r)) {
                m == MutResult::Done && final(self)@ == (KvView {
                    cache: lru::after_remove(old(self)@.cache, code@),
                    ..old(self)@
                })
            } else {
                m == MutResult::Missing && final(self)@ == old(self)@
            },
    {
        let ok: bool = match self.layout {
            Layout::Hash => match r {
                Resp::Int(_n) => true,
                _ => false,
            },
            Layout::Key => match kv::set_reply(r) {
                Ok(b) => b,
                Err(_e) => false,
            },
        };
        if ok {
            self.uncache(code);
            MutResult::Done
        } else {
            MutResult::Missing
        }
    }

    /// What to send to remove a link.
    pub fn remove_cmd(&self, code: &str) -> (r: Vec<Vec<u8>>)
        requires
            self.wf(),
        ensures
            aof::bytes_of(r@) == remove_words(self@, code@),
    {
        match self.layout {
            Layout::Hash => kv::hdel_cmd(
                bkey(code, self.buckets).as_slice(),
                code.as_bytes(),
            ),
            Layout::Key => kv::del_cmd(lkey(code).as_slice()),
        }
    }

    /// What to send to remove the hits of a link that was removed.
    pub fn remove_hits_cmd(&self, code: &str) -> (r: Vec<Vec<u8>>)
        requires
            self.wf(),
        ensures
            aof::bytes_of(r@) == remove_hits_words(self@, code@),
    {
        match self.layout {
            Layout::Hash => kv::hdel_cmd(
                bkey(code, self.buckets).as_slice(),
                hfield(code).as_slice(),
            ),
            Layout::Key => kv::del_cmd(hkey(code).as_slice()),
        }
    }

    /// What became of a removal, by the reply.
    pub fn remove(&mut self, code: &str, r: &Resp) -> (m: MutResult)
        requires
            old(self).wf(),
        ensures
            final(self).wf(),
            if kv::count_of(kv::resp_view(*r)) > 0 {
                m == MutResult::Done && final(self)@ == (KvView {
                    cache: lru::after_remove(old(self)@.cache, code@),
                    ..old(self)@
                })
            } else {
                m == MutResult::Missing && final(self)@ == old(self)@
            },
    {
        if kv::del_reply(r) > 0 {
            self.uncache(code);
            MutResult::Done
        } else {
            MutResult::Missing
        }
    }

    /// What is known of a code, from what the server has of it and of its hits.
    pub fn stats(&self, code: &str, value: &Option<Vec<u8>>, hits: &Option<Vec<u8>>) -> (r: Option<
        Link,
    >)
        requires
            self.wf(),
        ensures
            (match r {
                Some(l) => Some(l@),
                None => None,
            }) == stats_of(self@, code@, kv::opt_bytes(*value), kv::opt_bytes(*hits)),
    {
        match value {
            Some(v) => match dec_val(v.as_slice()) {
                Some((e, c, u)) => {
                    let n: i64 = match fxmap::fx_get(&self.dirty, code) {
                        Some(n) => *n,
                        None => 0,
                    };
                    Some(make_link(code.to_string(), e, c, u, read_hits(hits).wrapping_add(n)))
                },
                None => None,
            },
            None => None,
        }
    }

    /// What to send for the hits that were not sent yet.
    pub fn flush_hits(&mut self) -> (r: Vec<Vec<Vec<u8>>>)
        requires
            old(self).wf(),
        ensures
            final(self).wf(),
            final(self)@ == (KvView { dirty: Map::empty(), ..old(self)@ }),
            exists|codes: Seq<Seq<char>>| #[trigger]
                store::enumerates(codes, old(self)@.dirty.dom()) && words_of(r@) == flush_words(
                    old(self)@,
                    codes,
                ),
    {
        let keys: Vec<String> = fxmap::fx_keys(&self.dirty);
        let ghost codes = aof::texts(keys@);
        proof {
            assert forall|k: int| 0 <= k < codes.len() implies self@.dirty.dom().contains(
                #[trigger] codes[k],
            ) by {
                assert(fxmap::by_text(self.dirty@).contains_key(keys@[k]@));
            }
            assert forall|t: Seq<char>| #[trigger] self@.dirty.dom().contains(t) implies exists|
                k: int,
            | 0 <= k < codes.len() && #[trigger] codes[k] == t by {
                assert(fxmap::by_text(self.dirty@).contains_key(t));
                let k = choose|k: int| 0 <= k < keys@.len() && (#[trigger] keys@[k])@ == t;
                assert(codes[k] == t);
            }
        }
        let mut cmds: Vec<Vec<Vec<u8>>> = Vec::new();
        let mut i: usize = 0;
        while i < keys.len()
            invariant
                self.wf(),
                *self == *old(self),
                i <= keys@.len(),
                codes == aof::texts(keys@),
                store::enumerates(codes, self@.dirty.dom()),
                cmds@.len() == i,
                forall|k: int|
                    0 <= k < i ==> aof::bytes_of((#[trigger] cmds@[k])@) == count_words(
                        self@,
                        codes[k],
                        self@.dirty[codes[k]],
                    ),
            decreases keys@.len() - i,
        {
            let code: &str = keys[i].as_str();
            assert(self@.dirty.dom().contains(codes[i as int]));
            let n: i64 = match fxmap::fx_get(&self.dirty, code) {
                Some(n) => *n,
                None => 0,
            };
            let c: Vec<Vec<u8>> = match self.layout {
                Layout::Hash => kv::hincrby_cmd(
                    bkey(code, self.buckets).as_slice(),
                    hfield(code).as_slice(),
                    n,
                ),
                Layout::Key => kv::incrby_cmd(hkey(code).as_slice(), n),
            };
            cmds.push(c);
            i += 1;
        }
        assert(words_of(cmds@) =~= flush_words(old(self)@, codes));
        self.dirty = fxmap::fx_new();
        assert(self@ =~= (KvView { dirty: Map::empty(), ..old(self)@ }));
        cmds
    }
}

// ---------- listing ----------

/// A page of some links, and how many there are.
pub open spec fn paged(
    found: Seq<LinkView>,
    sort: Seq<char>,
    limit: int,
    offset: int,
    r: Seq<LinkView>,
    total: int,
) -> bool {
    total == found.len() && exists|all: Seq<LinkView>| #[trigger]
        listing::arranged(found, listing::order_of(sort), all) && r == listing::page(all, limit, offset)
}

/// The code that a key stands for.
pub open spec fn key_code(k: Seq<u8>) -> Seq<char> {
    text::text_of(k.skip(2))
}

/// The words of the commands that read all links and their hits, two for each.
pub open spec fn list_words(keys: Seq<Seq<u8>>) -> Seq<Seq<Seq<u8>>>
    decreases keys.len(),
{
    if keys.len() == 0 {
        Seq::empty()
    } else {
        let k = keys.last();
        let code = match text_in(k.skip(2)) {
            Some(t) => t,
            None => Seq::empty(),
        };
        list_words(keys.drop_last()).push(seq![text::lit("GET"), k]).push(
            seq![text::lit("GET"), hits_key(code)],
        )
    }
}

/// What to send to read all links, whose keys a scan found, and their hits.
pub fn list_cmds(keys: &Vec<Vec<u8>>) -> (r: Vec<Vec<Vec<u8>>>)
    requires
        forall|i: int| 0 <= i < keys@.len() ==> (#[trigger] keys@[i])@.len() >= 2,
    ensures
        words_of(r@) == list_words(aof::bytes_of(keys@)),
{
    let ghost all = aof::bytes_of(keys@);
    let mut cmds: Vec<Vec<Vec<u8>>> = Vec::new();
    let mut i: usize = 0;
    assert(all.take(0) =~= Seq::empty());
    assert(words_of(cmds@) =~= Seq::empty());
    while i < keys.len()
        invariant
            i <= keys@.len(),
            all == aof::bytes_of(keys@),
            forall|i: int| 0 <= i < keys@.len() ==> (#[trigger] keys@[i])@.len() >= 2,
            words_of(cmds@) == list_words(all.take(i as int)),
        decreases keys@.len() - i,
    {
        let ghost before = words_of(cmds@);
        assert(all.take(i + 1).drop_last() =~= all.take(i as int));
        let k: &Vec<u8> = &keys[i];
        assert(k@.len() >= 2);
        let rest: &[u8] = vstd::slice::slice_subrange(k.as_slice(), 2, k.len());
        assert(rest@ =~= k@.skip(2));
        let code: String = match text::utf8_string(rest) {
            Some(t) => t,
            None => String::new(),
        };
        let ghost c = code@;
        proof {
            if !valid_utf8(rest@) {
                assert(c =~= Seq::<char>::empty());
            }
        }
        let get: Vec<Vec<u8>> = kv::get_cmd(k.as_slice());
        let hits: Vec<Vec<u8>> = kv::get_cmd(hkey(code.as_str()).as_slice());
        cmds.push(get);
        cmds.push(hits);
        i += 1;
        assert(words_of(cmds@) =~= before.push(seq![text::lit("GET"), k@]).push(
            seq![text::lit("GET"), hits_key(c)],
        ));
    }
    assert(all.take(i as int) =~= all);
    cmds
}

/// The link of a key, from the replies on it and on its hits.
pub open spec fn key_link(k: Seq<u8>, v: Option<RespView>, h: Option<RespView>) -> Option<LinkView> {
    match v {
        Some(RespView::Bulk(Some(b))) => match val_of(b) {
            Some((e, c, u)) => Some(
                link_from(
                    key_code(k),
                    e,
                    c,
                    u,
                    hits_in(
                        match h {
                            Some(RespView::Bulk(x)) => x,
                            _ => None,
                        },
                    ),
                ),
            ),
            None => None,
        },
        _ => None,
    }
}

/// A reply of several, if there is one at that place.
pub open spec fn reply_at(rs: Seq<RespView>, i: int) -> Option<RespView> {
    if i < rs.len() {
        Some(rs[i])
    } else {
        None
    }
}

/// The links of some keys that are wanted, from the replies on them.
pub open spec fn key_links(keys: Seq<Seq<u8>>, rs: Seq<RespView>, q: Seq<char>) -> Seq<LinkView>
    decreases keys.len(),
{
    if keys.len() == 0 {
        Seq::empty()
    } else {
        let n = keys.len() - 1;
        let rest = key_links(keys.drop_last(), rs, q);
        match key_link(keys.last(), reply_at(rs, 2 * n), reply_at(rs, 2 * n + 1)) {
            Some(l) => if listing::wanted(l, q) {
                rest.push(l)
            } else {
                rest
            },
            None => rest,
        }
    }
}

/// The value that a reply of several holds, if it is there and holds one.
pub fn value_at<'a>(rs: &'a Vec<Resp>, i: usize) -> (r: Option<&'a Vec<u8>>)
    ensures
        (match r {
            Some(v) => Some(v@),
            None => None,
        }) == (match reply_at(kv::resp_views(rs@), i as int) {
            Some(RespView::Bulk(x)) => x,
            _ => None,
        }),
{
    if i >= rs.len() {
        return None;
    }
    assert(kv::resp_views(rs@)[i as int] == kv::resp_view(rs@[i as int]));
    match &rs[i] {
        Resp::Bulk(Some(v)) => Some(v),
        _ => None,
    }
}

fn one_key(k: &Vec<u8>, rs: &Vec<Resp>, i: usize) -> (r: Option<Link>)
    requires
        k@.len() >= 2,
        2 * i + 1 <= usize::MAX,
    ensures
        (match r {
            Some(l) => Some(l@),
            None => None,
        }) == key_link(
            k@,
            reply_at(kv::resp_views(rs@), 2 * i),
            reply_at(kv::resp_views(rs@), 2 * i + 1),
        ),
{
    let v: &Vec<u8> = match value_at(rs, 2 * i) {
        Some(v) => v,
        None => {
            return None;
        },
    };
    match dec_val(v.as_slice()) {
        Some((e, c, u)) => {
            let hits: i64 = match value_at(rs, 2 * i + 1) {
                Some(h) => match read_number(h.as_slice()) {
                    Some(n) => n,
                    None => 0,
                },
                None => 0,
            };
            let rest: &[u8] = vstd::slice::slice_subrange(k.as_slice(), 2, k.len());
            assert(rest@ =~= k@.skip(2));
            Some(make_link(text::to_text(rest), e, c, u, hits))
        },
        None => None,
    }
}

/// The links whose code or url holds `q`, from the keys that a scan found and the
/// replies on them: a page, and how many there are.
pub fn list_keys(
    keys: &Vec<Vec<u8>>,
    rs: &Vec<Resp>,
    limit: usize,
    offset: usize,
    sort: &str,
    q: &str,
) -> (r: (Vec<Link>, usize))
    requires
        forall|i: int| 0 <= i < keys@.len() ==> (#[trigger] keys@[i])@.len() >= 2,
        2 * keys@.len() <= usize::MAX,
    ensures
        paged(
            key_links(aof::bytes_of(keys@), kv::resp_views(rs@), q@),
            sort@,
            limit as int,
            offset as int,
            listing::link_views(r.0@),
            r.1 as int,
        ),
{
    let ghost all = aof::bytes_of(keys@);
    let ghost replies = kv::resp_views(rs@);
    let mut items: Vec<Link> = Vec::new();
    let mut i: usize = 0;
    assert(all.take(0) =~= Seq::empty());
    assert(listing::link_views(items@) =~= Seq::empty());
    while i < keys.len()
        invariant
            i <= keys@.len(),
            2 * keys@.len() <= usize::MAX,
            all == aof::bytes_of(keys@),
            replies == kv::resp_views(rs@),
            forall|i: int| 0 <= i < keys@.len() ==> (#[trigger] keys@[i])@.len() >= 2,
            listing::link_views(items@) == key_links(all.take(i as int), replies, q@),
        decreases keys@.len() - i,
    {
        let ghost before = listing::link_views(items@);
        assert(all.take(i + 1).drop_last() =~= all.take(i as int));
        assert(all.take(i + 1).last() == keys@[i as int]@);
        if let Some(l) = one_key(&keys[i], rs, i) {
            if listing::is_wanted(&l, q) {
                let ghost lv = l@;
                items.push(l);
                assert(listing::link_views(items@) =~= before.push(lv));
            }
        }
        i += 1;
    }
    assert(all.take(i as int) =~= all);
    let total: usize = items.len();
    (listing::paginate(&items, listing::order_for(sort), limit, offset), total)
}

/// The hits that a field of a hash stands for, if it stands for those of a code.
pub open spec fn field_hits(fields: Seq<(Seq<u8>, Seq<u8>)>, code: Seq<char>) -> Option<i64>
    decreases fields.len(),
{
    if fields.len() == 0 {
        None
    } else {
        match text_in(fields.last().0) {
            Some(t) => if text::char_begins(t, "h:"@) && t.skip("h:"@.len() as int) == code {
                Some(hits_in(Some(fields.last().1)))
            } else {
                field_hits(fields.drop_last(), code)
            },
            None => field_hits(fields.drop_last(), code),
        }
    }
}

/// The link that a field of a hash stands for, if it stands for one that has not
/// expired; its hits are left out.
pub open spec fn field_link(f: (Seq<u8>, Seq<u8>), now: i64) -> Option<LinkView> {
    match text_in(f.0) {
        Some(t) => if text::char_begins(t, "h:"@) {
            None
        } else {
            match val_of(f.1) {
                Some((e, c, u)) => if past(e, now) {
                    None
                } else {
                    Some(link_from(t, e, c, u, 0))
                },
                None => None,
            }
        },
        None => None,
    }
}

/// The links of some fields that are wanted, without their hits.
pub open spec fn field_links(fields: Seq<(Seq<u8>, Seq<u8>)>, now: i64, q: Seq<char>) -> Seq<LinkView>
    decreases fields.len(),
{
    if fields.len() == 0 {
        Seq::empty()
    } else {
        let rest = field_links(fields.drop_last(), now, q);
        match field_link(fields.last(), now) {
            Some(l) => if listing::wanted(l, q) {
                rest.push(l)
            } else {
                rest
            },
            None => rest,
        }
    }
}

/// Links with their hits.
pub open spec fn with_hits(links: Seq<LinkView>, fields: Seq<(Seq<u8>, Seq<u8>)>) -> Seq<LinkView> {
    Seq::new(
        links.len(),
        |i: int|
            LinkView {
                hits: match field_hits(fields, links[i].code) {
                    Some(n) => n,
                    None => 0,
                },
                ..links[i]
            },
    )
}

/// The hits that were found so far are those in the map.
spec fn hits_known(m: Map<Seq<char>, i64>, fields: Seq<(Seq<u8>, Seq<u8>)>) -> bool {
    forall|c: Seq<char>|
        (#[trigger] m.contains_key(c) <==> field_hits(fields, c) is Some) && (m.contains_key(c)
            ==> Some(m[c]) == field_hits(fields, c))
}

/// The links whose code or url holds `q`, from the fields of all hashes: a page,
/// and how many there are. Expired links are left out.
pub fn list_fields(
    fields: &Vec<(Vec<u8>, Vec<u8>)>,
    now: i64,
    limit: usize,
    offset: usize,
    sort: &str,
    q: &str,
) -> (r: (Vec<Link>, usize))
    ensures
        paged(
            with_hits(
                field_links(kv::field_views(fields@), now, q@),
                kv::field_views(fields@),
            ),
            sort@,
            limit as int,
            offset as int,
            listing::link_views(r.0@),
            r.1 as int,
        ),
{
    let ghost all = kv::field_views(fields@);
    let mut items: Vec<Link> = Vec::new();
    let mut hits: FxHashMap<String, i64> = fxmap::fx_new();
    let mut i: usize = 0;
    assert(all.take(0) =~= Seq::empty());
    assert(listing::link_views(items@) =~= Seq::empty());
    while i < fields.len()
        invariant
            i <= fields@.len(),
            all == kv::field_views(fields@),
            listing::link_views(items@) == field_links(all.take(i as int), now, q@),
            hits_known(fxmap::by_text(hits@), all.take(i as int)),
        decreases fields@.len() - i,
    {
        let ghost before = listing::link_views(items@);
        let ghost known = fxmap::by_text(hits@);
        let ghost f = all[i as int];
        let ghost sofar = all.take(i + 1);
        assert(sofar.drop_last() =~= all.take(i as int));
        assert(sofar.last() == f);
        if let Some(name) = text::utf8_string(fields[i].0.as_slice()) {
            let t: Vec<char> = text::chars_of(name.as_str());
            match text::strip_prefix(&t, "h:") {
                Some(c) => {
                    let n: i64 = match read_number(fields[i].1.as_slice()) {
                        Some(n) => n,
                        None => 0,
                    };
                    fxmap::fx_insert(&mut hits, text::string_of(&c), n);
                },
                None => {
                    if let Some((e, c, u)) = dec_val(fields[i].1.as_slice()) {
                        if !(e != 0 && e <= now) {
                            let l: Link = make_link(name, e, c, u, 0);
                            if listing::is_wanted(&l, q) {
                                let ghost lv = l@;
                                items.push(l);
                                assert(listing::link_views(items@) =~= before.push(lv));
                            }
                        }
                    }
                },
            }
        }
        i += 1;
    }
    assert(all.take(i as int) =~= all);
    let ghost found = listing::link_views(items@);
    let mut out: Vec<Link> = Vec::new();
    let mut k: usize = 0;
    while k < items.len()
        invariant
            k <= items@.len(),
            found == listing::link_views(items@),
            hits_known(fxmap::by_text(hits@), all),
            out@.len() == k,
            forall|m: int| 0 <= m < k ==> (#[trigger] out@[m])@ == with_hits(found, all)[m],
        decreases items@.len() - k,
    {
        let it: &Link = &items[k];
        let n: i64 = match fxmap::fx_get(&hits, it.code.as_str()) {
            Some(n) => *n,
            None => 0,
        };
        assert(fxmap::by_text(hits@).contains_key(it.code@) <==> field_hits(all, it.code@) is Some);
        out.push(
            Link {
                code: it.code.clone(),
                url: it.url.clone(),
                hits: n,
                created_at: it.created_at,
                expires_at: it.expires_at,
            },
        );
        k += 1;
    }
    assert(listing::link_views(out@) =~= with_hits(found, all));
    let total: usize = out.len();
    (listing::paginate(&out, listing::order_for(sort), limit, offset), total)
}

// ---------- sweeping ----------

/// A field of a hash that holds a link that has expired.
pub open spec fn dead(f: (Seq<u8>, Seq<u8>), now: i64) -> bool {
    !text::begins(f.0, text::lit("h:")) && (val_of(f.1) matches Some((e, _, _)) && past(e, now))
}

/// The words of the commands that delete what has expired in a hash.
pub open spec fn sweep_words(
    bucket: Seq<u8>,
    fields: Seq<(Seq<u8>, Seq<u8>)>,
    now: i64,
) -> Seq<Seq<Seq<u8>>>
    decreases fields.len(),
{
    if fields.len() == 0 {
        Seq::empty()
    } else {
        let rest = sweep_words(bucket, fields.drop_last(), now);
        if dead(fields.last(), now) {
            rest.push(seq![text::lit("HDEL"), bucket, fields.last().0])
        } else {
            rest
        }
    }
}

/// What to send to delete what has expired in a hash.
pub fn sweep_expired(bucket: &[u8], fields: &Vec<(Vec<u8>, Vec<u8>)>, now: i64) -> (r: Vec<
    Vec<Vec<u8>>,
>)
    ensures
        words_of(r@) == sweep_words(bucket@, kv::field_views(fields@), now),
{
    let ghost all = kv::field_views(fields@);
    let mut dels: Vec<Vec<Vec<u8>>> = Vec::new();
    let mut i: usize = 0;
    assert(all.take(0) =~= Seq::empty());
    assert(words_of(dels@) =~= Seq::empty());
    while i < fields.len()
        invariant
            i <= fields@.len(),
            all == kv::field_views(fields@),
            words_of(dels@) == sweep_words(bucket@, all.take(i as int), now),
        decreases fields@.len() - i,
    {
        let ghost before = words_of(dels@);
        assert(all.take(i + 1).drop_last() =~= all.take(i as int));
        assert(all.take(i + 1).last() == all[i as int]);
        if !text::starts_with(fields[i].0.as_slice(), "h:".as_bytes()) {
            if let Some((e, _c, _u)) = dec_val(fields[i].1.as_slice()) {
                if e != 0 && e <= now {
                    dels.push(kv::hdel_cmd(bucket, fields[i].0.as_slice()));
                    assert(words_of(dels@) =~= before.push(
                        seq![text::lit("HDEL"), bucket@, all[i as int].0],
                    ));
                }
            }
        }
        i += 1;
    }
    assert(all.take(i as int) =~= all);
    dels
}

// ---------- laws ----------

/// What a create command writes is what a read gives back: the reply to the read
/// resolves to the url, until the link expires.
pub proof fn law_created_value_resolves(url: Seq<char>, ttl_ms: i64, now: i64, later: i64)
    ensures
        ({
            let exp = store::expiry(now, ttl_ms);
            let v = val_bytes(exp as int, now as int, encode_utf8(url));
            target_in(Some(v), later) == (if past(exp, later) {
                None
            } else {
                Some((exp, url))
            })
        }),
{
    law_value_reads_back(store::expiry(now, ttl_ms), now, url);
}

/// A link and its hits never share a key.
pub proof fn law_keys_do_not_meet(a: Seq<char>, b: Seq<char>)
    ensures
        link_key(a) != hits_key(b),
{
    reveal_strlit("l:");
    reveal_strlit("h:");
    assert("l:"@ =~= text::ascii_text(seq![108u8, 58]));
    assert("h:"@ =~= text::ascii_text(seq![104u8, 58]));
    text::lemma_lit("l:"@, seq![108u8, 58]);
    text::lemma_lit("h:"@, seq![104u8, 58]);
    assert(link_key(a)[0] == 108);
    assert(hits_key(b)[0] == 104);
}

/// Keys of two codes are two keys.
pub proof fn law_keys_are_unique(a: Seq<char>, b: Seq<char>)
    requires
        a != b,
    ensures
        link_key(a) != link_key(b),
        hits_key(a) != hits_key(b),
{
    text::lemma_bytes_injective(a, b);
    let l = text::lit("l:");
    let h = text::lit("h:");
    assert(link_key(a).skip(l.len() as int) =~= encode_utf8(a));
    assert(link_key(b).skip(l.len() as int) =~= encode_utf8(b));
    assert(hits_key(a).skip(h.len() as int) =~= encode_utf8(a));
    assert(hits_key(b).skip(h.len() as int) =~= encode_utf8(b));
}

/// A lookup right after a read is answered by the cache.
pub proof fn law_read_is_cached(s: KvView, code: Seq<char>, u: Seq<char>, e: i64, now: i64)
    requires
        lru::cache_ok(s.cache),
        s.cache.cap > 0,
        !past(e, now),
    ensures
        lru::fresh_entry(lru::after_put(s.cache, code, u, e, now), code, now) is Some,
        lru::fresh_entry(lru::after_put(s.cache, code, u, e, now), code, now)->0.u == u,
{
}

} // verus!
