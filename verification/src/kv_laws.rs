//! What a server that does what the commands say has of the links.

use vstd::prelude::*;
use vstd::utf8::*;

use crate::app;
use crate::app::{ListView, OutcomeView, PlanView};
use crate::app_laws;
use crate::kv;
use crate::kv::RespView;
use crate::kv_jobs;
use crate::kv_jobs::{JobView, WaitView};
use crate::listing;
use crate::lru;
use crate::store;
use crate::store::{LinkView, MutResult};
use crate::store_kv;
use crate::store_kv::{KvView, Layout};
use crate::text;

verus! {

/// What a server holds: values under keys, and values under the fields of hashes.
#[verifier::ext_equal]
pub ghost struct Server {
    pub values: Map<Seq<u8>, Seq<u8>>,
    pub fields: Map<(Seq<u8>, Seq<u8>), Seq<u8>>,
}

/// The value under a key, if there is one.
pub open spec fn value_at<K>(m: Map<K, Seq<u8>>, k: K) -> Option<Seq<u8>> {
    if m.contains_key(k) {
        Some(m[k])
    } else {
        None
    }
}

/// What a number is counted up to, if it is one and the sum stays in range. A missing
/// one counts from 0.
pub open spec fn counted(v: Option<Seq<u8>>, by: Seq<u8>) -> Option<i64> {
    let old_n = match v {
        Some(b) => store_kv::number_in(b),
        None => Some(0i64),
    };
    match (old_n, store_kv::number_in(by)) {
        (Some(a), Some(b)) => if i64::MIN <= a + b <= i64::MAX {
            Some((a + b) as i64)
        } else {
            None
        },
        _ => None,
    }
}

/// What a server replies to a command, and what it holds from then on, as long as no
/// lifetime ends.
#[verifier::opaque]
pub open spec fn ran(d: Server, w: Seq<Seq<u8>>) -> (RespView, Server) {
    if w[0] == text::lit("GET") {
        (RespView::Bulk(value_at(d.values, w[1])), d)
    } else if w[0] == text::lit("SET") {
        if w.last() == text::lit("NX") && w.len() > 3 && d.values.contains_key(w[1]) {
            (RespView::Bulk(None), d)
        } else {
            (
                RespView::Simple("OK"@),
                Server { values: d.values.insert(w[1], w[2]), ..d },
            )
        }
    } else if w[0] == text::lit("DEL") {
        (
            RespView::Int(
                if d.values.contains_key(w[1]) {
                    1
                } else {
                    0
                },
            ),
            Server { values: d.values.remove(w[1]), ..d },
        )
    } else if w[0] == text::lit("HGET") {
        (RespView::Bulk(value_at(d.fields, (w[1], w[2]))), d)
    } else if w[0] == text::lit("HSET") {
        (
            RespView::Int(
                if d.fields.contains_key((w[1], w[2])) {
                    0
                } else {
                    1
                },
            ),
            Server { fields: d.fields.insert((w[1], w[2]), w[3]), ..d },
        )
    } else if w[0] == text::lit("HSETNX") {
        if d.fields.contains_key((w[1], w[2])) {
            (RespView::Int(0), d)
        } else {
            (
                RespView::Int(1),
                Server { fields: d.fields.insert((w[1], w[2]), w[3]), ..d },
            )
        }
    } else if w[0] == text::lit("HDEL") {
        (
            RespView::Int(
                if d.fields.contains_key((w[1], w[2])) {
                    1
                } else {
                    0
                },
            ),
            Server { fields: d.fields.remove((w[1], w[2])), ..d },
        )
    } else if w[0] == text::lit("INCRBY") {
        match counted(value_at(d.values, w[1]), w[2]) {
            Some(n) => (
                RespView::Int(n),
                Server { values: d.values.insert(w[1], text::decimal(n as int)), ..d },
            ),
            None => (RespView::Error(Seq::empty()), d),
        }
    } else if w[0] == text::lit("HINCRBY") {
        match counted(value_at(d.fields, (w[1], w[2])), w[3]) {
            Some(n) => (
                RespView::Int(n),
                Server {
                    fields: d.fields.insert((w[1], w[2]), text::decimal(n as int)),
                    ..d
                },
            ),
            None => (RespView::Error(Seq::empty()), d),
        }
    } else {
        (RespView::Error(Seq::empty()), d)
    }
}

/// What the server has of a link.
pub open spec fn read(d: Server, s: KvView, code: Seq<char>) -> Option<Seq<u8>> {
    kv::bulk_of(ran(d, store_kv::row_words(s, code)).0)
}

/// What the server has of the hits of a link.
pub open spec fn read_hits(d: Server, s: KvView, code: Seq<char>) -> Option<Seq<u8>> {
    kv::bulk_of(ran(d, store_kv::hits_words(s, code)).0)
}

proof fn lemma_apart(s: Seq<char>, t: Seq<char>)
    requires
        s != t,
    ensures
        encode_utf8(s) != encode_utf8(t),
{
    text::lemma_bytes_injective(s, t);
}

proof fn lemma_names()
    ensures
        text::lit("GET") != text::lit("SET"),
        text::lit("GET") != text::lit("DEL"),
        text::lit("GET") != text::lit("HGET"),
        text::lit("GET") != text::lit("HSET"),
        text::lit("GET") != text::lit("HSETNX"),
        text::lit("GET") != text::lit("HDEL"),
        text::lit("GET") != text::lit("INCRBY"),
        text::lit("GET") != text::lit("HINCRBY"),
        text::lit("SET") != text::lit("DEL"),
        text::lit("SET") != text::lit("HGET"),
        text::lit("SET") != text::lit("HSET"),
        text::lit("SET") != text::lit("HSETNX"),
        text::lit("SET") != text::lit("HDEL"),
        text::lit("SET") != text::lit("INCRBY"),
        text::lit("SET") != text::lit("HINCRBY"),
        text::lit("DEL") != text::lit("HGET"),
        text::lit("DEL") != text::lit("HSET"),
        text::lit("DEL") != text::lit("HSETNX"),
        text::lit("DEL") != text::lit("HDEL"),
        text::lit("DEL") != text::lit("INCRBY"),
        text::lit("DEL") != text::lit("HINCRBY"),
        text::lit("HGET") != text::lit("HSET"),
        text::lit("HGET") != text::lit("HSETNX"),
        text::lit("HGET") != text::lit("HDEL"),
        text::lit("HGET") != text::lit("INCRBY"),
        text::lit("HGET") != text::lit("HINCRBY"),
        text::lit("HSET") != text::lit("HSETNX"),
        text::lit("HSET") != text::lit("HDEL"),
        text::lit("HSET") != text::lit("INCRBY"),
        text::lit("HSET") != text::lit("HINCRBY"),
        text::lit("HSETNX") != text::lit("HDEL"),
        text::lit("HSETNX") != text::lit("INCRBY"),
        text::lit("HSETNX") != text::lit("HINCRBY"),
        text::lit("HDEL") != text::lit("INCRBY"),
        text::lit("HDEL") != text::lit("HINCRBY"),
        text::lit("INCRBY") != text::lit("HINCRBY"),
{
    reveal_strlit("GET");
    reveal_strlit("SET");
    reveal_strlit("DEL");
    reveal_strlit("HGET");
    reveal_strlit("HSET");
    reveal_strlit("HSETNX");
    reveal_strlit("HDEL");
    reveal_strlit("INCRBY");
    reveal_strlit("HINCRBY");
    assert("GET"@[0] != "SET"@[0]);
    lemma_apart("GET"@, "SET"@);
    assert("GET"@[0] != "DEL"@[0]);
    lemma_apart("GET"@, "DEL"@);
    assert("GET"@.len() != "HGET"@.len());
    lemma_apart("GET"@, "HGET"@);
    assert("GET"@.len() != "HSET"@.len());
    lemma_apart("GET"@, "HSET"@);
    assert("GET"@.len() != "HSETNX"@.len());
    lemma_apart("GET"@, "HSETNX"@);
    assert("GET"@.len() != "HDEL"@.len());
    lemma_apart("GET"@, "HDEL"@);
    assert("GET"@.len() != "INCRBY"@.len());
    lemma_apart("GET"@, "INCRBY"@);
    assert("GET"@.len() != "HINCRBY"@.len());
    lemma_apart("GET"@, "HINCRBY"@);
    assert("SET"@[0] != "DEL"@[0]);
    lemma_apart("SET"@, "DEL"@);
    assert("SET"@.len() != "HGET"@.len());
    lemma_apart("SET"@, "HGET"@);
    assert("SET"@.len() != "HSET"@.len());
    lemma_apart("SET"@, "HSET"@);
    assert("SET"@.len() != "HSETNX"@.len());
    lemma_apart("SET"@, "HSETNX"@);
    assert("SET"@.len() != "HDEL"@.len());
    lemma_apart("SET"@, "HDEL"@);
    assert("SET"@.len() != "INCRBY"@.len());
    lemma_apart("SET"@, "INCRBY"@);
    assert("SET"@.len() != "HINCRBY"@.len());
    lemma_apart("SET"@, "HINCRBY"@);
    assert("DEL"@.len() != "HGET"@.len());
    lemma_apart("DEL"@, "HGET"@);
    assert("DEL"@.len() != "HSET"@.len());
    lemma_apart("DEL"@, "HSET"@);
    assert("DEL"@.len() != "HSETNX"@.len());
    lemma_apart("DEL"@, "HSETNX"@);
    assert("DEL"@.len() != "HDEL"@.len());
    lemma_apart("DEL"@, "HDEL"@);
    assert("DEL"@.len() != "INCRBY"@.len());
    lemma_apart("DEL"@, "INCRBY"@);
    assert("DEL"@.len() != "HINCRBY"@.len());
    lemma_apart("DEL"@, "HINCRBY"@);
    assert("HGET"@[1] != "HSET"@[1]);
    lemma_apart("HGET"@, "HSET"@);
    assert("HGET"@.len() != "HSETNX"@.len());
    lemma_apart("HGET"@, "HSETNX"@);
    assert("HGET"@[1] != "HDEL"@[1]);
    lemma_apart("HGET"@, "HDEL"@);
    assert("HGET"@.len() != "INCRBY"@.len());
    lemma_apart("HGET"@, "INCRBY"@);
    assert("HGET"@.len() != "HINCRBY"@.len());
    lemma_apart("HGET"@, "HINCRBY"@);
    assert("HSET"@.len() != "HSETNX"@.len());
    lemma_apart("HSET"@, "HSETNX"@);
    assert("HSET"@[1] != "HDEL"@[1]);
    lemma_apart("HSET"@, "HDEL"@);
    assert("HSET"@.len() != "INCRBY"@.len());
    lemma_apart("HSET"@, "INCRBY"@);
    assert("HSET"@.len() != "HINCRBY"@.len());
    lemma_apart("HSET"@, "HINCRBY"@);
    assert("HSETNX"@.len() != "HDEL"@.len());
    lemma_apart("HSETNX"@, "HDEL"@);
    assert("HSETNX"@[0] != "INCRBY"@[0]);
    lemma_apart("HSETNX"@, "INCRBY"@);
    assert("HSETNX"@.len() != "HINCRBY"@.len());
    lemma_apart("HSETNX"@, "HINCRBY"@);
    assert("HDEL"@.len() != "INCRBY"@.len());
    lemma_apart("HDEL"@, "INCRBY"@);
    assert("HDEL"@.len() != "HINCRBY"@.len());
    lemma_apart("HDEL"@, "HINCRBY"@);
    assert("INCRBY"@.len() != "HINCRBY"@.len());
    lemma_apart("INCRBY"@, "HINCRBY"@);
}

/// The write of a key: its words, whatever its options.
proof fn lemma_set(k: Seq<u8>, v: Seq<u8>, px_ms: i64, nx: bool)
    ensures
        ({
            let w = kv::set_words(k, v, px_ms, nx);
            &&& w[0] == text::lit("SET")
            &&& w[1] == k
            &&& w[2] == v
            &&& nx ==> w.len() > 3 && w.last() == text::lit("NX")
            &&& !nx ==> w.len() == 3 || w.last() == text::decimal(px_ms as int)
        }),
{
}

/// A number is not the word for a key that must not be there.
proof fn lemma_number_is_no_word(n: int)
    ensures
        text::decimal(n) != text::lit("NX"),
{
    reveal_strlit("NX");
    assert("NX"@ =~= text::ascii_text(seq![78u8, 88]));
    text::lemma_lit("NX"@, seq![78u8, 88]);
    text::lemma_decimal(n);
}

/// Where a link lies, and what lies there.
spec fn at_link(d: Server, s: KvView, code: Seq<char>) -> Option<Seq<u8>> {
    match s.layout {
        Layout::Hash => value_at(
            d.fields,
            (store_kv::bucket_key(code, s.buckets), encode_utf8(code)),
        ),
        Layout::Key => value_at(d.values, store_kv::link_key(code)),
    }
}

/// Where the hits of a link lie, and what lies there.
spec fn at_hits(d: Server, s: KvView, code: Seq<char>) -> Option<Seq<u8>> {
    match s.layout {
        Layout::Hash => value_at(
            d.fields,
            (store_kv::bucket_key(code, s.buckets), store_kv::hits_key(code)),
        ),
        Layout::Key => value_at(d.values, store_kv::hits_key(code)),
    }
}

/// A server in which something was put under a key, or a field: `None` takes it away.
spec fn placed(
    d: Server,
    s: KvView,
    code: Seq<char>,
    key: Seq<u8>,
    field: Seq<u8>,
    v: Option<Seq<u8>>,
) -> Server {
    let f = (store_kv::bucket_key(code, s.buckets), field);
    match (s.layout, v) {
        (Layout::Hash, Some(v)) => Server { fields: d.fields.insert(f, v), ..d },
        (Layout::Hash, None) => Server { fields: d.fields.remove(f), ..d },
        (Layout::Key, Some(v)) => Server { values: d.values.insert(key, v), ..d },
        (Layout::Key, None) => Server { values: d.values.remove(key), ..d },
    }
}

/// A server in which a link was written, or removed.
spec fn with_link(d: Server, s: KvView, code: Seq<char>, v: Option<Seq<u8>>) -> Server {
    placed(d, s, code, store_kv::link_key(code), encode_utf8(code), v)
}

/// A server in which the hits of a link were written, or removed.
spec fn with_hits(d: Server, s: KvView, code: Seq<char>, v: Option<Seq<u8>>) -> Server {
    placed(d, s, code, store_kv::hits_key(code), store_kv::hits_key(code), v)
}

proof fn lemma_reads(d: Server, s: KvView, code: Seq<char>)
    ensures
        read(d, s, code) == at_link(d, s, code),
        read_hits(d, s, code) == at_hits(d, s, code),
{
    reveal(ran);
    lemma_names();
}

#[verifier::spinoff_prover]
proof fn lemma_create(
    d: Server,
    s: KvView,
    code: Seq<char>,
    url: Seq<char>,
    ttl_ms: i64,
    now: i64,
)
    ensures
        ({
            let (r, e) = ran(d, store_kv::create_words(s, code, url, ttl_ms, now));
            let v = store_kv::val_bytes(
                store::expiry(now, ttl_ms) as int,
                now as int,
                encode_utf8(url),
            );
            if at_link(d, s, code) is Some {
                e == d && !store_kv::was_created(s.layout, r)
            } else {
                e == with_link(d, s, code, Some(v)) && store_kv::was_created(s.layout, r)
            }
        }),
{
    reveal(ran);
    lemma_names();
    let v = store_kv::val_bytes(
        store::expiry(now, ttl_ms) as int,
        now as int,
        encode_utf8(url),
    );
    lemma_set(store_kv::link_key(code), v, ttl_ms, true);
}

#[verifier::spinoff_prover]
proof fn lemma_update(
    d: Server,
    s: KvView,
    code: Seq<char>,
    value: Seq<u8>,
    url: Seq<char>,
    ttl_ms: i64,
    has_ttl: bool,
    now: i64,
)
    requires
        store_kv::val_of(value) is Some,
    ensures
        ({
            let w = store_kv::update_words(s, code, Some(value), url, ttl_ms, has_ttl, now);
            let (e, c, _) = store_kv::val_of(value)->0;
            let exp = if has_ttl {
                store::expiry(now, ttl_ms)
            } else {
                e
            };
            let v = store_kv::val_bytes(exp as int, c as int, encode_utf8(url));
            &&& w is Some
            &&& store_kv::was_updated(s.layout, ran(d, w->0).0)
            &&& ran(d, w->0).1 == with_link(d, s, code, Some(v))
        }),
{
    reveal(ran);
    lemma_names();
    let (e, c, _) = store_kv::val_of(value)->0;
    let exp = if has_ttl {
        store::expiry(now, ttl_ms)
    } else {
        e
    };
    let px: i64 = if exp > 0 {
        exp.wrapping_sub(now)
    } else {
        0
    };
    let v = store_kv::val_bytes(exp as int, c as int, encode_utf8(url));
    lemma_set(store_kv::link_key(code), v, px, false);
    lemma_number_is_no_word(px as int);
}

#[verifier::spinoff_prover]
proof fn lemma_removals(d: Server, s: KvView, code: Seq<char>)
    ensures
        ran(d, store_kv::remove_words(s, code)).1 == with_link(d, s, code, None),
        ran(d, store_kv::remove_hits_words(s, code)).1 == with_hits(d, s, code, None),
{
    reveal(ran);
    lemma_names();
}

#[verifier::spinoff_prover]
proof fn lemma_count(d: Server, s: KvView, code: Seq<char>, n: i64)
    ensures
        ran(d, store_kv::count_words(s, code, n)).1 == (match counted(
            at_hits(d, s, code),
            text::decimal(n as int),
        ) {
            Some(m) => with_hits(d, s, code, Some(text::decimal(m as int))),
            None => d,
        }),
{
    reveal(ran);
    lemma_names();
}

/// Where links and hits lie apart: what is written of one code is not read of another.
proof fn lemma_places(a: Seq<char>, b: Seq<char>)
    requires
        app::is_code(a),
        app::is_code(b),
    ensures
        store_kv::link_key(a) != store_kv::hits_key(b),
        a != b ==> store_kv::link_key(a) != store_kv::link_key(b),
        a != b ==> store_kv::hits_key(a) != store_kv::hits_key(b),
        a != b ==> encode_utf8(a) != encode_utf8(b),
        encode_utf8(a) != store_kv::hits_key(b),
{
    store_kv::law_keys_do_not_meet(a, b);
    if a != b {
        store_kv::law_keys_are_unique(a, b);
        lemma_apart(a, b);
    }
    reveal_strlit("h:");
    assert("h:"@ =~= text::ascii_text(seq![104u8, 58]));
    text::lemma_lit("h:"@, seq![104u8, 58]);
    assert(store_kv::hits_key(b)[1] == 58);
    if encode_utf8(a) == store_kv::hits_key(b) {
        assert(app::code_byte(encode_utf8(a)[1]));
    }
}

/// What a server has of every other code, and of the hits of this one.
pub open spec fn only_the_link(d: Server, e: Server, s: KvView, a: Seq<char>, b: Seq<char>) -> bool {
    &&& a != b ==> read(e, s, b) == read(d, s, b)
    &&& read_hits(e, s, b) == read_hits(d, s, b)
}

/// What a server has of every link, and of the hits of every other code.
pub open spec fn only_the_hits(d: Server, e: Server, s: KvView, a: Seq<char>, b: Seq<char>) -> bool {
    &&& read(e, s, b) == read(d, s, b)
    &&& a != b ==> read_hits(e, s, b) == read_hits(d, s, b)
}

/// What is put in one place is not read in another.
proof fn lemma_elsewhere(d: Server, s: KvView, a: Seq<char>, b: Seq<char>, v: Option<Seq<u8>>)
    requires
        app::is_code(a),
        app::is_code(b),
    ensures
        only_the_link(d, with_link(d, s, a, v), s, a, b),
        only_the_hits(d, with_hits(d, s, a, v), s, a, b),
{
    lemma_places(a, b);
    lemma_places(b, a);
    lemma_reads(d, s, b);
    lemma_reads(with_link(d, s, a, v), s, b);
    lemma_reads(with_hits(d, s, a, v), s, b);
}

// ---------- laws ----------

/// A link that was created under a free code is read back until it expires, and the
/// reply says that it was created.
pub proof fn law_created_link_is_read(
    d: Server,
    s: KvView,
    code: Seq<char>,
    url: Seq<char>,
    ttl_ms: i64,
    now: i64,
    later: i64,
)
    requires
        read(d, s, code) is None,
    ensures
        ({
            let (r, e) = ran(d, store_kv::create_words(s, code, url, ttl_ms, now));
            let exp = store::expiry(now, ttl_ms);
            &&& store_kv::was_created(s.layout, r)
            &&& store_kv::target_in(read(e, s, code), later) == (if store_kv::past(exp, later) {
                None
            } else {
                Some((exp, url))
            })
        }),
{
    lemma_reads(d, s, code);
    lemma_create(d, s, code, url, ttl_ms, now);
    lemma_reads(ran(d, store_kv::create_words(s, code, url, ttl_ms, now)).1, s, code);
    store_kv::law_created_value_resolves(url, ttl_ms, now, later);
}

/// A code that is taken is not given away: the reply says so, and nothing changes.
pub proof fn law_taken_code_is_kept(
    d: Server,
    s: KvView,
    code: Seq<char>,
    url: Seq<char>,
    ttl_ms: i64,
    now: i64,
)
    requires
        read(d, s, code) is Some,
    ensures
        !store_kv::was_created(
            s.layout,
            ran(d, store_kv::create_words(s, code, url, ttl_ms, now)).0,
        ),
        ran(d, store_kv::create_words(s, code, url, ttl_ms, now)).1 == d,
{
    lemma_reads(d, s, code);
    lemma_create(d, s, code, url, ttl_ms, now);
}

/// A link that was given another url is read back with that url, the time of its
/// creation, and the old expiry if none was asked for.
pub proof fn law_updated_link_is_read(
    d: Server,
    s: KvView,
    code: Seq<char>,
    url: Seq<char>,
    ttl_ms: i64,
    has_ttl: bool,
    now: i64,
)
    requires
        read(d, s, code) is Some,
        store_kv::val_of(read(d, s, code)->0) is Some,
    ensures
        ({
            let w = store_kv::update_words(
                s,
                code,
                read(d, s, code),
                url,
                ttl_ms,
                has_ttl,
                now,
            );
            let (e, c, _) = store_kv::val_of(read(d, s, code)->0)->0;
            let exp = if has_ttl {
                store::expiry(now, ttl_ms)
            } else {
                e
            };
            &&& w is Some
            &&& store_kv::was_updated(s.layout, ran(d, w->0).0)
            &&& read(ran(d, w->0).1, s, code) is Some
            &&& store_kv::val_of(read(ran(d, w->0).1, s, code)->0) == Some((exp, c, url))
        }),
{
    let value = read(d, s, code)->0;
    let (e, c, _) = store_kv::val_of(value)->0;
    let exp = if has_ttl {
        store::expiry(now, ttl_ms)
    } else {
        e
    };
    let w = store_kv::update_words(s, code, Some(value), url, ttl_ms, has_ttl, now);
    lemma_update(d, s, code, value, url, ttl_ms, has_ttl, now);
    lemma_reads(ran(d, w->0).1, s, code);
    store_kv::law_value_reads_back(exp, c, url);
}

/// A removed link is gone, and its hits go with it.
pub proof fn law_removed_link_is_gone(d: Server, s: KvView, code: Seq<char>)
    ensures
        read(ran(d, store_kv::remove_words(s, code)).1, s, code) is None,
        read_hits(ran(d, store_kv::remove_hits_words(s, code)).1, s, code) is None,
{
    lemma_removals(d, s, code);
    lemma_reads(with_link(d, s, code, None), s, code);
    lemma_reads(with_hits(d, s, code, None), s, code);
}

/// Hits that are sent are added to those that the server has.
pub proof fn law_sent_hits_are_added(d: Server, s: KvView, code: Seq<char>, h: i64, n: i64)
    requires
        read_hits(d, s, code) is None && h == 0 || read_hits(d, s, code) == Some(
            text::decimal(h as int),
        ),
        i64::MIN <= h + n <= i64::MAX,
    ensures
        read_hits(ran(d, store_kv::count_words(s, code, n)).1, s, code) == Some(
            text::decimal(h + n),
        ),
        store_kv::hits_in(read_hits(ran(d, store_kv::count_words(s, code, n)).1, s, code)) == h
            + n,
{
    lemma_reads(d, s, code);
    lemma_count(d, s, code, n);
    store_kv::lemma_number_back(h);
    store_kv::lemma_number_back(n);
    store_kv::lemma_number_back((h + n) as i64);
    lemma_reads(ran(d, store_kv::count_words(s, code, n)).1, s, code);
}

/// Commands on a link leave every other link alone, and the hits of all of them.
pub proof fn law_other_links_stay(
    d: Server,
    s: KvView,
    a: Seq<char>,
    b: Seq<char>,
    value: Option<Seq<u8>>,
    url: Seq<char>,
    ttl_ms: i64,
    has_ttl: bool,
    now: i64,
)
    requires
        app::is_code(a),
        app::is_code(b),
    ensures
        only_the_link(d, ran(d, store_kv::create_words(s, a, url, ttl_ms, now)).1, s, a, b),
        store_kv::update_words(s, a, value, url, ttl_ms, has_ttl, now) matches Some(w)
            ==> only_the_link(d, ran(d, w).1, s, a, b),
        only_the_link(d, ran(d, store_kv::remove_words(s, a)).1, s, a, b),
{
    let v = store_kv::val_bytes(
        store::expiry(now, ttl_ms) as int,
        now as int,
        encode_utf8(url),
    );
    lemma_create(d, s, a, url, ttl_ms, now);
    lemma_elsewhere(d, s, a, b, Some(v));
    lemma_removals(d, s, a);
    lemma_elsewhere(d, s, a, b, None);
    if let Some(old_v) = value {
        if let Some((e, c, _)) = store_kv::val_of(old_v) {
            let exp = if has_ttl {
                store::expiry(now, ttl_ms)
            } else {
                e
            };
            lemma_update(d, s, a, old_v, url, ttl_ms, has_ttl, now);
            lemma_elsewhere(
                d,
                s,
                a,
                b,
                Some(store_kv::val_bytes(exp as int, c as int, encode_utf8(url))),
            );
        }
    }
}

/// Commands on hits leave every link alone, and the hits of every other one.
pub proof fn law_other_hits_stay(d: Server, s: KvView, a: Seq<char>, b: Seq<char>, n: i64)
    requires
        app::is_code(a),
        app::is_code(b),
    ensures
        only_the_hits(d, ran(d, store_kv::count_words(s, a, n)).1, s, a, b),
        only_the_hits(d, ran(d, store_kv::remove_hits_words(s, a)).1, s, a, b),
{
    lemma_count(d, s, a, n);
    lemma_removals(d, s, a);
    lemma_elsewhere(d, s, a, b, None);
    match counted(at_hits(d, s, a), text::decimal(n as int)) {
        Some(m) => {
            lemma_elsewhere(d, s, a, b, Some(text::decimal(m as int)));
        },
        None => {},
    }
}

// ---------- whole requests ----------

/// What a server replies to a batch of commands, and what it holds from then on.
pub open spec fn played(d: Server, cmds: Seq<Seq<Seq<u8>>>) -> (Seq<RespView>, Server)
    decreases cmds.len(),
{
    if cmds.len() == 0 {
        (Seq::empty(), d)
    } else {
        let (rs, e) = played(d, cmds.drop_last());
        let (r, f) = ran(e, cmds.last());
        (rs.push(r), f)
    }
}

proof fn lemma_one(d: Server, w: Seq<Seq<u8>>)
    ensures
        played(d, seq![w]) == (seq![ran(d, w).0], ran(d, w).1),
{
    let cmds = seq![w];
    assert(cmds.drop_last() =~= Seq::empty());
    assert(played(d, cmds.drop_last()) == (Seq::<RespView>::empty(), d));
    assert(Seq::<RespView>::empty().push(ran(d, w).0) =~= seq![ran(d, w).0]);
}

proof fn lemma_two(d: Server, v: Seq<Seq<u8>>, w: Seq<Seq<u8>>)
    ensures
        ({
            let (r, e) = ran(d, v);
            played(d, seq![v, w]) == (seq![r, ran(e, w).0], ran(e, w).1)
        }),
{
    let cmds = seq![v, w];
    let (r, e) = ran(d, v);
    lemma_one(d, v);
    assert(cmds.drop_last() =~= seq![v]);
    assert(seq![r].push(ran(e, w).0) =~= seq![r, ran(e, w).0]);
}

/// A request, and what it comes to once the server has replied to what it sends first:
/// the server that is left, the store that is left, and what is next.
pub open spec fn first_round(
    d: Server,
    s: KvView,
    p: PlanView,
    now: i64,
    e: Server,
    t: KvView,
    j: JobView,
) -> bool {
    exists|u: KvView, cmds: Seq<Seq<Seq<u8>>>, w: WaitView|
        {
            &&& #[trigger] kv_jobs::begun(s, p, now, u, (JobView::Send { cmds, wait: w }))
            &&& e == played(d, cmds).1
            &&& kv_jobs::advanced(u, w, Some(played(d, cmds).0), now, t, j)
        }
}

/// What a request comes to once the server has replied to what it sends next.
pub open spec fn next_round(
    d: Server,
    s: KvView,
    j: JobView,
    now: i64,
    e: Server,
    t: KvView,
    k: JobView,
) -> bool {
    j matches JobView::Send { cmds, wait } && e == played(d, cmds).1 && kv_jobs::advanced(
        s,
        wait,
        Some(played(d, cmds).0),
        now,
        t,
        k,
    )
}

/// A request for a link under an alias is granted exactly if the server has none; the
/// link is then there until it expires. Else nothing changes.
pub proof fn law_alias_request(
    d: Server,
    s: KvView,
    a: Seq<char>,
    url: Seq<char>,
    ttl_ms: i64,
    now: i64,
    later: i64,
    e: Server,
    t: KvView,
    j: JobView,
)
    requires
        first_round(
            d,
            s,
            (PlanView::Shorten { url, alias: Some(a), ttl_ms }),
            now,
            e,
            t,
            j,
        ),
    ensures
        t == s,
        if read(d, s, a) is None {
            &&& j == JobView::Done(OutcomeView::Created(Some(a)))
            &&& !store_kv::past(store::expiry(now, ttl_ms), later) ==> store_kv::target_in(
                read(e, s, a),
                later,
            ) == Some((store::expiry(now, ttl_ms), url))
        } else {
            &&& j == JobView::Done(OutcomeView::Created(None))
            &&& e == d
        },
{
    lemma_one(d, store_kv::create_words(s, a, url, ttl_ms, now));
    if read(d, s, a) is None {
        law_created_link_is_read(d, s, a, url, ttl_ms, now, later);
    } else {
        law_taken_code_is_kept(d, s, a, url, ttl_ms, now);
    }
}

/// A lookup that the cache cannot answer is answered by what the server has, which stays
/// as it is.
pub proof fn law_lookup_request(
    d: Server,
    s: KvView,
    code: Seq<char>,
    now: i64,
    e: Server,
    t: KvView,
    j: JobView,
)
    requires
        lru::fresh_entry(s.cache, code, now) is None,
        first_round(d, s, (PlanView::Resolve { code }), now, e, t, j),
    ensures
        e == d,
        j == JobView::Done(
            OutcomeView::Target(
                match store_kv::target_in(read(d, s, code), now) {
                    Some((_, u)) => Some(u),
                    None => None,
                },
            ),
        ),
{
    lemma_one(d, store_kv::row_words(s, code));
    lemma_reading(d, s, code);
}

/// Without a cache every lookup reads the server, and none is remembered: what another
/// process changed there is seen by the next one.
pub proof fn law_without_a_cache_every_lookup_reads(
    d: Server,
    s: KvView,
    code: Seq<char>,
    now: i64,
    e: Server,
    t: KvView,
    j: JobView,
)
    requires
        lru::cache_ok(s.cache),
        s.cache.cap == lru::part_cap(0),
        first_round(d, s, (PlanView::Resolve { code }), now, e, t, j),
    ensures
        t.cache == s.cache,
        j == JobView::Done(
            OutcomeView::Target(
                match store_kv::target_in(read(d, s, code), now) {
                    Some((_, u)) => Some(u),
                    None => None,
                },
            ),
        ),
{
    lru::law_disabled_cache_has_nothing(s.cache, code, Seq::empty(), 0, now);
    law_lookup_request(d, s, code, now, e, t, j);
    let v = store_kv::target_in(read(d, s, code), now);
    if let Some((x, u)) = v {
        lru::law_disabled_cache_has_nothing(s.cache, code, u, x, now);
    }
    lemma_one(d, store_kv::row_words(s, code));
}

/// A read changes nothing.
proof fn lemma_reading(d: Server, s: KvView, code: Seq<char>)
    ensures
        ran(d, store_kv::row_words(s, code)).1 == d,
        ran(d, store_kv::hits_words(s, code)).1 == d,
{
    reveal(ran);
    lemma_names();
}

/// What is known of a link is what the server has of it and of its hits, and the hits
/// that were not sent yet.
pub proof fn law_stats_request(
    d: Server,
    s: KvView,
    code: Seq<char>,
    now: i64,
    e: Server,
    t: KvView,
    j: JobView,
)
    requires
        first_round(d, s, (PlanView::Stats { code }), now, e, t, j),
    ensures
        e == d,
        t == s,
        j == JobView::Done(
            OutcomeView::Found(
                store_kv::stats_of(s, code, read(d, s, code), read_hits(d, s, code)),
            ),
        ),
{
    lemma_two(d, store_kv::row_words(s, code), store_kv::hits_words(s, code));
    lemma_reading(d, s, code);
}

/// A request for another url is granted exactly if the server has the link, which is then
/// there with that url and is not cached; else nothing changes.
pub proof fn law_update_request(
    d: Server,
    s: KvView,
    code: Seq<char>,
    url: Seq<char>,
    ttl_ms: i64,
    has_ttl: bool,
    now: i64,
    e: Server,
    t: KvView,
    j: JobView,
    f: Server,
    u: KvView,
    k: JobView,
)
    requires
        first_round(
            d,
            s,
            (PlanView::Update { code, url, ttl_ms, has_ttl }),
            now,
            e,
            t,
            j,
        ),
        j is Send ==> next_round(e, t, j, now, f, u, k),
    ensures
        e == d,
        t == s,
        if read(d, s, code) is Some && store_kv::val_of(read(d, s, code)->0) is Some {
            &&& k == JobView::Done(OutcomeView::Changed(MutResult::Done))
            &&& u == kv_jobs::uncached(s, code)
            &&& read(f, s, code) is Some
            &&& store_kv::val_of(read(f, s, code)->0) is Some
            &&& (store_kv::val_of(read(f, s, code)->0)->0).2 == url
        } else {
            j == JobView::Done(OutcomeView::Changed(MutResult::Missing))
        },
{
    lemma_one(d, store_kv::row_words(s, code));
    lemma_reading(d, s, code);
    let v = read(d, s, code);
    if v is Some && store_kv::val_of(v->0) is Some {
        law_updated_link_is_read(d, s, code, url, ttl_ms, has_ttl, now);
        lemma_one(
            d,
            store_kv::update_words(s, code, v, url, ttl_ms, has_ttl, now)->0,
        );
    }
}

/// A request for a removal is granted exactly if the server has the link; neither it nor
/// its hits are there any more, and it is not cached.
pub proof fn law_removal_request(
    d: Server,
    s: KvView,
    code: Seq<char>,
    now: i64,
    e: Server,
    t: KvView,
    j: JobView,
    f: Server,
    u: KvView,
    k: JobView,
)
    requires
        app::is_code(code),
        first_round(d, s, (PlanView::Remove { code }), now, e, t, j),
        j is Send ==> next_round(e, t, j, now, f, u, k),
    ensures
        read(d, s, code) is None ==> j == JobView::Done(
            OutcomeView::Changed(MutResult::Missing),
        ) && t == s && read(e, s, code) is None,
        read(d, s, code) is Some ==> {
            &&& k == JobView::Done(OutcomeView::Changed(MutResult::Done))
            &&& u == kv_jobs::uncached(s, code)
            &&& read(f, s, code) is None
            &&& read_hits(f, s, code) is None
        },
{
    lemma_one(d, store_kv::remove_words(s, code));
    lemma_removal_reply(d, s, code);
    law_removed_link_is_gone(d, s, code);
    if read(d, s, code) is Some {
        lemma_one(e, store_kv::remove_hits_words(t, code));
        law_removed_link_is_gone(e, s, code);
        law_other_hits_stay(e, s, code, code, 0);
    }
}

proof fn lemma_removal_reply(d: Server, s: KvView, code: Seq<char>)
    ensures
        kv::count_of(ran(d, store_kv::remove_words(s, code)).0) == (if read(d, s, code) is Some {
            1i64
        } else {
            0i64
        }),
{
    lemma_reads(d, s, code);
    reveal(ran);
    lemma_names();
}

// ---------- many links together ----------

/// The value of a link that is stored now.
pub open spec fn fresh_value(url: Seq<char>, ttl_ms: i64, now: i64) -> Seq<u8> {
    store_kv::val_bytes(store::expiry(now, ttl_ms) as int, now as int, encode_utf8(url))
}

/// Every link that a server had it still has, as it was.
pub open spec fn keeps(d: Server, e: Server, s: KvView) -> bool {
    forall|c: Seq<char>| #[trigger] read(d, s, c) is Some ==> read(e, s, c) == read(d, s, c)
}

/// A create command writes its link and no other, or nothing.
proof fn lemma_create_keeps(
    d: Server,
    s: KvView,
    code: Seq<char>,
    url: Seq<char>,
    ttl_ms: i64,
    now: i64,
)
    ensures
        ({
            let (r, e) = ran(d, store_kv::create_words(s, code, url, ttl_ms, now));
            &&& keeps(d, e, s)
            &&& store_kv::was_created(s.layout, r) ==> read(d, s, code) is None && read(
                e,
                s,
                code,
            ) == Some(fresh_value(url, ttl_ms, now))
        }),
{
    let (r, e) = ran(d, store_kv::create_words(s, code, url, ttl_ms, now));
    lemma_create(d, s, code, url, ttl_ms, now);
    lemma_reads(d, s, code);
    lemma_reads(e, s, code);
    assert forall|c: Seq<char>| #[trigger] read(d, s, c) is Some implies read(e, s, c) == read(
        d,
        s,
        c,
    ) by {
        lemma_reads(d, s, c);
        lemma_reads(e, s, c);
        if c != code {
            store_kv::law_keys_are_unique(c, code);
            lemma_apart(c, code);
        }
    }
}

/// The commands that create many links.
pub open spec fn create_all(
    s: KvView,
    codes: Seq<Seq<char>>,
    urls: Seq<Seq<char>>,
    ttl_ms: i64,
    now: i64,
) -> Seq<Seq<Seq<u8>>> {
    Seq::new(
        urls.len(),
        |i: int| store_kv::create_words(s, codes[i], urls[i], ttl_ms, now),
    )
}

proof fn lemma_create_all(
    d: Server,
    s: KvView,
    codes: Seq<Seq<char>>,
    urls: Seq<Seq<char>>,
    ttl_ms: i64,
    now: i64,
    n: nat,
)
    requires
        n <= urls.len(),
        codes.len() == urls.len(),
    ensures
        ({
            let (rs, e) = played(d, create_all(s, codes, urls, ttl_ms, now).take(n as int));
            &&& rs.len() == n
            &&& keeps(d, e, s)
            &&& forall|i: int|
                0 <= i < n && store_kv::was_created(s.layout, #[trigger] rs[i]) ==> read(
                    e,
                    s,
                    codes[i],
                ) == Some(fresh_value(urls[i], ttl_ms, now)) && read(d, s, codes[i]) is None
            &&& forall|i: int, k: int|
                0 <= i < k < n && store_kv::was_created(s.layout, #[trigger] rs[i])
                    && store_kv::was_created(s.layout, #[trigger] rs[k]) ==> codes[i] != codes[k]
        }),
    decreases n,
{
    let all = create_all(s, codes, urls, ttl_ms, now);
    if n == 0 {
        assert(all.take(0) =~= Seq::empty());
    } else {
        let cmds = all.take(n as int);
        let k = n - 1;
        assert(cmds.drop_last() =~= all.take(k));
        lemma_create_all(d, s, codes, urls, ttl_ms, now, k as nat);
        let (rs, e) = played(d, all.take(k));
        lemma_create_keeps(e, s, codes[k], urls[k], ttl_ms, now);
        let (r, f) = ran(e, cmds.last());
        assert(cmds.last() == store_kv::create_words(s, codes[k], urls[k], ttl_ms, now));
        assert forall|c: Seq<char>| #[trigger] read(d, s, c) is Some implies read(f, s, c) == read(
            d,
            s,
            c,
        ) by {
            assert(read(e, s, c) == read(d, s, c));
        }
        let all_rs = rs.push(r);
        assert forall|i: int|
            0 <= i < n && store_kv::was_created(s.layout, #[trigger] all_rs[i]) implies read(
            f,
            s,
            codes[i],
        ) == Some(fresh_value(urls[i], ttl_ms, now)) && read(d, s, codes[i]) is None by {
            if i < k {
                assert(rs[i] == all_rs[i]);
                assert(read(e, s, codes[i]) is Some);
            }
        }
        assert forall|i: int, m: int|
            0 <= i < m < n && store_kv::was_created(s.layout, #[trigger] all_rs[i])
                && store_kv::was_created(s.layout, #[trigger] all_rs[m]) implies codes[i]
            != codes[m] by {
            assert(rs[i] == all_rs[i]);
            if m < k {
                assert(rs[m] == all_rs[m]);
            }
        }
    }
}

/// A moment of a request: what the server holds, the store, and what is next.
pub ghost struct Moment {
    pub d: Server,
    pub s: KvView,
    pub j: JobView,
}

/// One moment of a request comes after another: the server has replied in between.
#[verifier::opaque]
pub open spec fn follows(x: Moment, y: Moment, now: i64) -> bool {
    next_round(x.d, x.s, x.j, now, y.d, y.s, y.j)
}

/// The links at all places but those of `todo` from `at` on are there, each under a code
/// of its own that was free at first, when the server was `a`.
spec fn there_but(
    a: Server,
    d: Server,
    s: KvView,
    urls: Seq<Seq<char>>,
    codes: Seq<Seq<char>>,
    ttl_ms: i64,
    now: i64,
    todo: Seq<usize>,
    at: int,
) -> bool {
    &&& codes.len() == urls.len()
    &&& forall|k: int| 0 <= k < todo.len() ==> #[trigger] todo[k] < urls.len()
    &&& forall|i: int|
        0 <= i < urls.len() && !todo.skip(at).contains(i as usize) ==> read(
            d,
            s,
            #[trigger] codes[i],
        ) == Some(fresh_value(urls[i], ttl_ms, now)) && read(a, s, codes[i]) is None
    &&& forall|i: int, k: int|
        0 <= i < k < urls.len() && !todo.skip(at).contains(i as usize) && !todo.skip(
            at,
        ).contains(k as usize) ==> #[trigger] codes[i] != #[trigger] codes[k]
}

/// Links that are asked for together are on their way.
#[verifier::opaque]
spec fn creating(
    d: Server,
    s: KvView,
    x: Moment,
    urls: Seq<Seq<char>>,
    ttl_ms: i64,
    now: i64,
) -> bool {
    &&& keeps(d, x.d, s)
    &&& x.s == s
    &&& match x.j {
        JobView::Send { cmds, wait } => match wait {
            WaitView::Many { urls: us, codes, ttl_ms: ttl } => {
                &&& us == urls
                &&& ttl == ttl_ms
                &&& codes.len() == urls.len()
                &&& cmds == create_all(s, codes, urls, ttl_ms, now)
            },
            WaitView::Retry { urls: us, codes, ttl_ms: ttl, todo, at, code } => {
                &&& us == urls
                &&& ttl == ttl_ms
                &&& 0 <= at < todo.len()
                &&& there_but(d, x.d, s, urls, codes, ttl_ms, now, todo, at)
                &&& cmds == seq![
                    store_kv::create_words(s, code, urls[todo[at] as int], ttl_ms, now),
                ]
            },
            _ => false,
        },
        JobView::Done(o) => {
            &&& o matches OutcomeView::CreatedMany(codes)
            &&& codes.len() == urls.len()
            &&& forall|i: int|
                0 <= i < urls.len() ==> read(x.d, s, #[trigger] codes[i]) == Some(
                    fresh_value(urls[i], ttl_ms, now),
                ) && read(d, s, codes[i]) is None
            &&& forall|i: int, k: int|
                0 <= i < k < urls.len() ==> #[trigger] codes[i] != #[trigger] codes[k]
        },
    }
}

proof fn lemma_retry(
    d: Server,
    s: KvView,
    x: Moment,
    urls: Seq<Seq<char>>,
    codes: Seq<Seq<char>>,
    ttl_ms: i64,
    now: i64,
    todo: Seq<usize>,
    at: int,
)
    requires
        keeps(d, x.d, s),
        x.s == s,
        0 <= at <= todo.len(),
        there_but(d, x.d, s, urls, codes, ttl_ms, now, todo, at),
        urls.len() <= usize::MAX,
        kv_jobs::retry_job(s, urls, codes, ttl_ms, todo, at, now, x.j),
    ensures
        creating(d, s, x, urls, ttl_ms, now),
{
    reveal(creating);
    if at == todo.len() {
        assert(todo.skip(at) =~= Seq::empty());
    }
}

proof fn lemma_keeps_there(
    a: Server,
    d: Server,
    e: Server,
    s: KvView,
    urls: Seq<Seq<char>>,
    codes: Seq<Seq<char>>,
    ttl_ms: i64,
    now: i64,
    todo: Seq<usize>,
    at: int,
)
    requires
        keeps(d, e, s),
        there_but(a, d, s, urls, codes, ttl_ms, now, todo, at),
    ensures
        there_but(a, e, s, urls, codes, ttl_ms, now, todo, at),
{
    assert forall|i: int| 0 <= i < urls.len() && !todo.skip(at).contains(i as usize) implies read(
        e,
        s,
        #[trigger] codes[i],
    ) == Some(fresh_value(urls[i], ttl_ms, now)) && read(a, s, codes[i]) is None by {
        assert(read(d, s, codes[i]) is Some);
    }
}

proof fn lemma_many_in(
    d: Server,
    s: KvView,
    x: Moment,
    y: Moment,
    urls: Seq<Seq<char>>,
    codes: Seq<Seq<char>>,
    ttl_ms: i64,
    now: i64,
)
    requires
        urls.len() <= usize::MAX,
        keeps(d, x.d, s),
        x.s == s,
        codes.len() == urls.len(),
        x.j == (JobView::Send {
            cmds: create_all(s, codes, urls, ttl_ms, now),
            wait: WaitView::Many { urls, codes, ttl_ms },
        }),
        next_round(x.d, x.s, x.j, now, y.d, y.s, y.j),
    ensures
        creating(d, s, y, urls, ttl_ms, now),
{
    let all = create_all(s, codes, urls, ttl_ms, now);
    assert(all.take(urls.len() as int) =~= all);
    lemma_create_all(x.d, s, codes, urls, ttl_ms, now, urls.len());
    let (rs, e) = played(x.d, all);
    let todo = choose|todo: Seq<usize>|
        {
            &&& #[trigger] kv_jobs::not_created(s.layout, rs, todo)
            &&& kv_jobs::retry_job(s, urls, codes, ttl_ms, todo, 0, now, y.j)
        };
    assert(todo.skip(0) =~= todo);
    assert forall|c: Seq<char>| #[trigger] read(d, s, c) is Some implies read(e, s, c) == read(
        d,
        s,
        c,
    ) by {
        assert(read(x.d, s, c) == read(d, s, c));
    }
    assert forall|i: int| 0 <= i < urls.len() && !todo.skip(0).contains(i as usize) implies read(
        e,
        s,
        #[trigger] codes[i],
    ) == Some(fresh_value(urls[i], ttl_ms, now)) && read(d, s, codes[i]) is None by {
        assert(store_kv::was_created(s.layout, rs[i]));
        if read(d, s, codes[i]) is Some {
            assert(read(x.d, s, codes[i]) == read(d, s, codes[i]));
        }
    }
    assert forall|i: int, k: int|
        0 <= i < k < urls.len() && !todo.skip(0).contains(i as usize) && !todo.skip(0).contains(
            k as usize,
        ) implies #[trigger] codes[i] != #[trigger] codes[k] by {
        assert(store_kv::was_created(s.layout, rs[i]));
        assert(store_kv::was_created(s.layout, rs[k]));
    }
    lemma_retry(d, s, y, urls, codes, ttl_ms, now, todo, 0);
}

proof fn lemma_rest(todo: Seq<usize>, at: int, i: int)
    requires
        0 <= at < todo.len(),
        0 <= i <= usize::MAX,
        i != todo[at],
        !todo.skip(at + 1).contains(i as usize),
    ensures
        !todo.skip(at).contains(i as usize),
{
    if todo.skip(at).contains(i as usize) {
        let k = choose|k: int| 0 <= k < todo.skip(at).len() && todo.skip(at)[k] == i as usize;
        assert(k > 0);
        assert(todo.skip(at + 1)[k - 1] == i as usize);
    }
}

proof fn lemma_one_in(
    d: Server,
    s: KvView,
    x: Moment,
    y: Moment,
    urls: Seq<Seq<char>>,
    codes: Seq<Seq<char>>,
    ttl_ms: i64,
    now: i64,
    todo: Seq<usize>,
    at: int,
    code: Seq<char>,
)
    requires
        urls.len() <= usize::MAX,
        keeps(d, x.d, s),
        x.s == s,
        0 <= at < todo.len(),
        there_but(d, x.d, s, urls, codes, ttl_ms, now, todo, at),
        x.j == (JobView::Send {
            cmds: seq![store_kv::create_words(s, code, urls[todo[at] as int], ttl_ms, now)],
            wait: WaitView::Retry { urls, codes, ttl_ms, todo, at, code },
        }),
        next_round(x.d, x.s, x.j, now, y.d, y.s, y.j),
    ensures
        creating(d, s, y, urls, ttl_ms, now),
{
    let p = todo[at] as int;
    let w = store_kv::create_words(s, code, urls[p], ttl_ms, now);
    lemma_one(x.d, w);
    lemma_create_keeps(x.d, s, code, urls[p], ttl_ms, now);
    lemma_keeps_there(d, x.d, y.d, s, urls, codes, ttl_ms, now, todo, at);
    assert forall|c: Seq<char>| #[trigger] read(d, s, c) is Some implies read(y.d, s, c) == read(
        d,
        s,
        c,
    ) by {
        assert(read(x.d, s, c) == read(d, s, c));
    }
    if store_kv::was_created(s.layout, ran(x.d, w).0) {
        let more = codes.update(p, code);
        if read(d, s, code) is Some {
            assert(read(x.d, s, code) == read(d, s, code));
        }
        assert forall|i: int| 0 <= i < urls.len() && !todo.skip(at + 1).contains(i as usize) implies read(
            y.d,
            s,
            #[trigger] more[i],
        ) == Some(fresh_value(urls[i], ttl_ms, now)) && read(d, s, more[i]) is None by {
            if i != p {
                lemma_rest(todo, at, i);
                assert(more[i] == codes[i]);
            }
        }
        assert forall|i: int, k: int|
            0 <= i < k < urls.len() && !todo.skip(at + 1).contains(i as usize) && !todo.skip(
                at + 1,
            ).contains(k as usize) implies #[trigger] more[i] != #[trigger] more[k] by {
            if i != p {
                lemma_rest(todo, at, i);
                assert(more[i] == codes[i]);
                assert(read(x.d, s, codes[i]) is Some);
            }
            if k != p {
                lemma_rest(todo, at, k);
                assert(more[k] == codes[k]);
                assert(read(x.d, s, codes[k]) is Some);
            }
        }
        lemma_retry(d, s, y, urls, more, ttl_ms, now, todo, at + 1);
    } else {
        lemma_retry(d, s, y, urls, codes, ttl_ms, now, todo, at);
    }
}

/// The next reply leaves the links on their way.
#[verifier::spinoff_prover]
proof fn lemma_reply_in(
    d: Server,
    s: KvView,
    x: Moment,
    y: Moment,
    urls: Seq<Seq<char>>,
    ttl_ms: i64,
    now: i64,
)
    requires
        urls.len() <= usize::MAX,
        creating(d, s, x, urls, ttl_ms, now),
        follows(x, y, now),
    ensures
        creating(d, s, y, urls, ttl_ms, now),
{
    reveal(creating);
    reveal(follows);
    match x.j {
        JobView::Send { cmds, wait } => match wait {
            WaitView::Many { codes, .. } => {
                lemma_many_in(d, s, x, y, urls, codes, ttl_ms, now);
            },
            WaitView::Retry { codes, todo, at, code, .. } => {
                lemma_one_in(d, s, x, y, urls, codes, ttl_ms, now, todo, at, code);
            },
            _ => {},
        },
        JobView::Done(_) => {},
    }
}

proof fn lemma_start(
    d: Server,
    s: KvView,
    x: Moment,
    urls: Seq<Seq<char>>,
    ttl_ms: i64,
    now: i64,
)
    requires
        x.d == d,
        kv_jobs::begun(s, (PlanView::Bulk { urls, ttl_ms }), now, x.s, x.j),
    ensures
        creating(d, s, x, urls, ttl_ms, now),
{
    reveal(creating);
    assert(kv_jobs::many_job(s, urls, ttl_ms, now, x.j));
    let codes = x.j->wait->Many_codes;
    assert(x.j->cmds =~= create_all(s, codes, urls, ttl_ms, now));
}

proof fn lemma_end(
    d: Server,
    s: KvView,
    x: Moment,
    urls: Seq<Seq<char>>,
    ttl_ms: i64,
    now: i64,
    codes: Seq<Seq<char>>,
)
    requires
        creating(d, s, x, urls, ttl_ms, now),
        x.j == JobView::Done(OutcomeView::CreatedMany(codes)),
    ensures
        keeps(d, x.d, s),
        codes.len() == urls.len(),
        forall|i: int|
            0 <= i < urls.len() ==> read(x.d, s, #[trigger] codes[i]) == Some(
                fresh_value(urls[i], ttl_ms, now),
            ) && read(d, s, codes[i]) is None,
        forall|i: int, k: int|
            0 <= i < k < urls.len() ==> #[trigger] codes[i] != #[trigger] codes[k],
{
    reveal(creating);
}

proof fn lemma_trace(
    d: Server,
    s: KvView,
    tr: Seq<Moment>,
    urls: Seq<Seq<char>>,
    ttl_ms: i64,
    now: i64,
)
    requires
        urls.len() <= usize::MAX,
        tr.len() > 0,
        creating(d, s, tr[0], urls, ttl_ms, now),
        forall|k: int| 0 < k < tr.len() ==> follows(tr[k - 1], #[trigger] tr[k], now),
    ensures
        creating(d, s, tr.last(), urls, ttl_ms, now),
    decreases tr.len(),
{
    if tr.len() > 1 {
        let before = tr.drop_last();
        assert forall|k: int| 0 < k < before.len() implies follows(
            before[k - 1],
            #[trigger] before[k],
            now,
        ) by {
            assert(before[k] == tr[k] && before[k - 1] == tr[k - 1]);
        }
        lemma_trace(d, s, before, urls, ttl_ms, now);
        lemma_reply_in(d, s, before.last(), tr.last(), urls, ttl_ms, now);
    }
}

/// Links that were asked for together get a code each, whatever codes the generator
/// yields: no two the same, and none that the server had. Each link is read back under
/// its code until it expires, and every link that the server had before stays as it was.
pub proof fn law_bulk_request(
    d: Server,
    s: KvView,
    urls: Seq<Seq<char>>,
    ttl_ms: i64,
    now: i64,
    later: i64,
    tr: Seq<Moment>,
    codes: Seq<Seq<char>>,
    i: int,
    k: int,
    old_code: Seq<char>,
)
    requires
        urls.len() <= usize::MAX,
        tr.len() > 0,
        tr[0].d == d,
        kv_jobs::begun(s, (PlanView::Bulk { urls, ttl_ms }), now, tr[0].s, tr[0].j),
        forall|m: int| 0 < m < tr.len() ==> follows(tr[m - 1], #[trigger] tr[m], now),
        tr.last().j == JobView::Done(OutcomeView::CreatedMany(codes)),
    ensures
        codes.len() == urls.len(),
        0 <= i < urls.len() ==> read(d, s, codes[i]) is None,
        0 <= i < k < urls.len() ==> codes[i] != codes[k],
        0 <= i < urls.len() && !store_kv::past(store::expiry(now, ttl_ms), later)
            ==> store_kv::target_in(read(tr.last().d, s, codes[i]), later) == Some(
            (store::expiry(now, ttl_ms), urls[i]),
        ),
        read(d, s, old_code) is Some ==> read(tr.last().d, s, old_code) == read(d, s, old_code),
{
    lemma_start(d, s, tr[0], urls, ttl_ms, now);
    lemma_trace(d, s, tr, urls, ttl_ms, now);
    lemma_end(d, s, tr.last(), urls, ttl_ms, now, codes);
    if 0 <= i < urls.len() {
        store_kv::law_created_value_resolves(urls[i], ttl_ms, now, later);
    }
}

// ---------- lifetimes ----------

/// What a value says of a link is found as long as its end is not reached; one without an
/// end is always found.
pub proof fn law_value_is_found_until_its_end(e: i64, c: i64, url: Seq<char>, now: i64)
    ensures
        store_kv::target_in(
            Some(store_kv::val_bytes(e as int, c as int, encode_utf8(url))),
            now,
        ) == (if e == 0 || now < e {
            Some((e, url))
        } else {
            None
        }),
        store_kv::target_in(None, now) is None,
{
    store_kv::law_value_reads_back(e, c, url);
}

/// What is known of a link is what its value says, and its hits are those that the server
/// counts with those that were not sent yet.
pub proof fn law_known_of_a_link(
    s: KvView,
    code: Seq<char>,
    e: i64,
    c: i64,
    url: Seq<char>,
    h: i64,
    has_hits: bool,
)
    ensures
        store_kv::stats_of(
            s,
            code,
            Some(store_kv::val_bytes(e as int, c as int, encode_utf8(url))),
            if has_hits {
                Some(text::decimal(h as int))
            } else {
                None
            },
        ) == Some(
            LinkView {
                code,
                url,
                hits: (if has_hits {
                    h
                } else {
                    0
                }).wrapping_add(
                    if s.dirty.contains_key(code) {
                        s.dirty[code]
                    } else {
                        0
                    },
                ),
                created_at: c,
                expires_at: if e == 0 {
                    None
                } else {
                    Some(e)
                },
            },
        ),
{
    store_kv::law_value_reads_back(e, c, url);
    store_kv::lemma_number_back(h);
}

/// A server that drops keys: what it holds, and until when it holds those that have an end.
#[verifier::ext_equal]
pub ghost struct Timed {
    pub has: Server,
    pub ends: Map<Seq<u8>, int>,
}

/// What such a server holds at some time.
pub open spec fn left_at(t: Timed, now: int) -> Server {
    Server {
        values: t.has.values.restrict(
            Set::new(|k: Seq<u8>| t.ends.contains_key(k) ==> now < t.ends[k]),
        ),
        ..t.has
    }
}

/// The lifetime in ms that a command gives a key.
pub open spec fn lifetime_in(w: Seq<Seq<u8>>) -> Option<int> {
    if w.len() > 4 && w[3] == text::lit("PX") {
        match store_kv::number_in(w[4]) {
            Some(n) => Some(n as int),
            None => None,
        }
    } else {
        None
    }
}

/// What such a server replies to a command at some time, and what it holds from then on.
pub open spec fn ran_at(t: Timed, w: Seq<Seq<u8>>, now: int) -> (RespView, Timed) {
    let d = left_at(t, now);
    let (r, e) = ran(d, w);
    let ends = t.ends.restrict(d.values.dom());
    (
        r,
        Timed {
            has: e,
            ends: if w[0] == text::lit("SET") && r == RespView::Simple("OK"@) {
                match lifetime_in(w) {
                    Some(n) => ends.insert(w[1], now + n),
                    None => ends.remove(w[1]),
                }
            } else {
                ends
            },
        },
    )
}

proof fn lemma_set_lifetime(k: Seq<u8>, v: Seq<u8>, px_ms: i64, nx: bool)
    ensures
        lifetime_in(kv::set_words(k, v, px_ms, nx)) == (if px_ms > 0 {
            Some(px_ms as int)
        } else {
            None
        }),
{
    store_kv::lemma_number_back(px_ms);
    let w = kv::set_words(k, v, px_ms, nx);
    if px_ms > 0 {
        assert(w[3] == text::lit("PX"));
        assert(w[4] == text::decimal(px_ms as int));
    }
}

/// What lies under a key that was just written with or without a lifetime.
proof fn lemma_written(s: KvView, code: Seq<char>, v: Seq<u8>, u: Timed, end: Option<int>)
    requires
        s.layout == Layout::Key,
        u.has.values.contains_key(store_kv::link_key(code)),
        u.has.values[store_kv::link_key(code)] == v,
        match end {
            Some(x) => u.ends.contains_key(store_kv::link_key(code)) && u.ends[store_kv::link_key(
                code,
            )] == x,
            None => !u.ends.contains_key(store_kv::link_key(code)),
        },
    ensures
        forall|later: int| #[trigger]
            read(left_at(u, later), s, code) == (if end is None || later < end->0 {
                Some(v)
            } else {
                None
            }),
{
    assert forall|later: int| #[trigger]
        read(left_at(u, later), s, code) == (if end is None || later < end->0 {
            Some(v)
        } else {
            None
        }) by {
        lemma_reads(left_at(u, later), s, code);
    }
}

/// A link that was created is there, with its url, at every time before its lifetime is
/// over and at none from then on; where each link has a key of its own, the server has
/// dropped it then. One without a lifetime is always there.
pub proof fn law_created_link_lives_out_its_lifetime(
    t: Timed,
    s: KvView,
    code: Seq<char>,
    url: Seq<char>,
    ttl_ms: i64,
    now: i64,
    later: i64,
)
    requires
        read(left_at(t, now as int), s, code) is None,
        0 <= now,
        now + ttl_ms <= i64::MAX,
    ensures
        ({
            let (r, u) = ran_at(t, store_kv::create_words(s, code, url, ttl_ms, now), now as int);
            let found = read(left_at(u, later as int), s, code);
            &&& store_kv::was_created(s.layout, r)
            &&& ttl_ms <= 0 ==> store_kv::target_in(found, later) == Some((0i64, url))
            &&& ttl_ms > 0 && later < now + ttl_ms ==> store_kv::target_in(found, later) == Some(
                ((now + ttl_ms) as i64, url),
            )
            &&& ttl_ms > 0 && later >= now + ttl_ms ==> store_kv::target_in(found, later) is None
                && (s.layout == Layout::Key ==> found is None)
        }),
{
    let d = left_at(t, now as int);
    let w = store_kv::create_words(s, code, url, ttl_ms, now);
    let (r, u) = ran_at(t, w, now as int);
    let exp = store::expiry(now, ttl_ms);
    let v = store_kv::val_bytes(exp as int, now as int, encode_utf8(url));
    lemma_reads(d, s, code);
    lemma_create(d, s, code, url, ttl_ms, now);
    law_value_is_found_until_its_end(exp, now, url, later);
    match s.layout {
        Layout::Key => {
            lemma_set(store_kv::link_key(code), v, ttl_ms, true);
            lemma_set_lifetime(store_kv::link_key(code), v, ttl_ms, true);
            assert(r == RespView::Simple("OK"@)) by {
                reveal(ran);
                lemma_names();
            }
            lemma_written(
                s,
                code,
                v,
                u,
                if ttl_ms > 0 {
                    Some(now + ttl_ms)
                } else {
                    None
                },
            );
        },
        Layout::Hash => {
            lemma_reads(left_at(u, later as int), s, code);
        },
    }
}

/// A link that was changed is there, with its new url and the time it was made at, at every
/// time before its end and at none from then on: the end is the old one, or that of the
/// lifetime that was given.
pub proof fn law_updated_link_lives_until_its_end(
    t: Timed,
    s: KvView,
    code: Seq<char>,
    e: i64,
    c: i64,
    was: Seq<char>,
    url: Seq<char>,
    ttl_ms: i64,
    has_ttl: bool,
    now: i64,
    later: i64,
)
    requires
        read(left_at(t, now as int), s, code) == Some(
            store_kv::val_bytes(e as int, c as int, encode_utf8(was)),
        ),
        0 <= now,
        now + ttl_ms <= i64::MAX,
        e == 0 || now < e,
    ensures
        ({
            let w = store_kv::update_words(
                s,
                code,
                read(left_at(t, now as int), s, code),
                url,
                ttl_ms,
                has_ttl,
                now,
            );
            let (r, u) = ran_at(t, w->0, now as int);
            let found = read(left_at(u, later as int), s, code);
            let end = if !has_ttl {
                e as int
            } else if ttl_ms > 0 {
                now + ttl_ms
            } else {
                0
            };
            &&& w is Some
            &&& store_kv::was_updated(s.layout, r)
            &&& end == 0 || later < end ==> found == Some(
                store_kv::val_bytes(end, c as int, encode_utf8(url)),
            ) && store_kv::target_in(found, later) == Some((end as i64, url))
            &&& end != 0 && later >= end ==> store_kv::target_in(found, later) is None && (s.layout
                == Layout::Key ==> found is None)
        }),
{
    let d = left_at(t, now as int);
    let value = store_kv::val_bytes(e as int, c as int, encode_utf8(was));
    let w = store_kv::update_words(s, code, Some(value), url, ttl_ms, has_ttl, now);
    store_kv::law_value_reads_back(e, c, was);
    lemma_update(d, s, code, value, url, ttl_ms, has_ttl, now);
    let (r, u) = ran_at(t, w->0, now as int);
    let exp = if has_ttl {
        store::expiry(now, ttl_ms)
    } else {
        e
    };
    let px: i64 = if exp > 0 {
        exp.wrapping_sub(now)
    } else {
        0
    };
    let v = store_kv::val_bytes(exp as int, c as int, encode_utf8(url));
    law_value_is_found_until_its_end(exp, c, url, later);
    match s.layout {
        Layout::Key => {
            lemma_set(store_kv::link_key(code), v, px, false);
            lemma_set_lifetime(store_kv::link_key(code), v, px, false);
            lemma_number_is_no_word(px as int);
            assert(r == RespView::Simple("OK"@)) by {
                reveal(ran);
                lemma_names();
            }
            lemma_written(
                s,
                code,
                v,
                u,
                if exp > 0 {
                    Some(exp as int)
                } else {
                    None
                },
            );
        },
        Layout::Hash => {
            lemma_reads(left_at(u, later as int), s, code);
        },
    }
}

// ---------- hits ----------

/// The hits that were not sent yet go to the server when they are sent, each to its own
/// code: those of every code are then as many as the server had and as were not sent.
pub proof fn law_hits_are_moved(
    d: Server,
    s: KvView,
    codes: Seq<Seq<char>>,
    c: Seq<char>,
    h: i64,
)
    requires
        forall|k: int| 0 <= k < codes.len() ==> app::is_code(#[trigger] codes[k]),
        forall|j: int, k: int| 0 <= j < k < codes.len() ==> codes[j] != codes[k],
        app::is_code(c),
        read_hits(d, s, c) is None && h == 0 || read_hits(d, s, c) == Some(
            text::decimal(h as int),
        ),
        i64::MIN <= h + s.dirty[c] <= i64::MAX,
    ensures
        ({
            let e = played(d, store_kv::flush_words(s, codes)).1;
            &&& codes.contains(c) ==> read_hits(e, s, c) == Some(text::decimal(h + s.dirty[c]))
            &&& !codes.contains(c) ==> read_hits(e, s, c) == read_hits(d, s, c)
            &&& read(e, s, c) == read(d, s, c)
        }),
    decreases codes.len(),
{
    let cmds = store_kv::flush_words(s, codes);
    if codes.len() > 0 {
        let front = codes.drop_last();
        let last = codes.last();
        assert(cmds.drop_last() =~= store_kv::flush_words(s, front));
        assert(cmds.last() == store_kv::count_words(s, last, s.dirty[last]));
        assert forall|k: int| 0 <= k < front.len() implies app::is_code(#[trigger] front[k]) by {
            assert(front[k] == codes[k]);
        }
        law_hits_are_moved(d, s, front, c, h);
        let e = played(d, store_kv::flush_words(s, front)).1;
        assert(app::is_code(codes[codes.len() - 1]));
        law_other_hits_stay(e, s, last, c, s.dirty[last]);
        if last == c {
            assert(!front.contains(c)) by {
                if front.contains(c) {
                    let k = choose|k: int| 0 <= k < front.len() && front[k] == c;
                    assert(codes[k] == codes[codes.len() - 1]);
                }
            }
            law_sent_hits_are_added(e, s, c, h, s.dirty[c]);
            assert(codes[codes.len() - 1] == c);
        } else if codes.contains(c) {
            let k = choose|k: int| 0 <= k < codes.len() && codes[k] == c;
            assert(front[k] == c);
        } else if front.contains(c) {
            let k = choose|k: int| 0 <= k < front.len() && front[k] == c;
            assert(codes[k] == c);
        }
    }
}

// ---------- listings ----------

/// The keys of some links.
pub open spec fn keys_of(codes: Seq<Seq<char>>) -> Seq<Seq<u8>> {
    Seq::new(codes.len(), |i: int| store_kv::link_key(codes[i]))
}

proof fn lemma_key_code(code: Seq<char>)
    ensures
        store_kv::link_key(code).skip(2) == encode_utf8(code),
        store_kv::text_in(store_kv::link_key(code).skip(2)) == Some(code),
        store_kv::key_code(store_kv::link_key(code)) == code,
{
    reveal_strlit("l:");
    assert("l:"@ =~= text::ascii_text(seq![108u8, 58]));
    text::lemma_lit("l:"@, seq![108u8, 58]);
    assert(store_kv::link_key(code).skip(2) =~= encode_utf8(code));
    encode_utf8_valid_utf8(code);
    encode_utf8_decode_utf8(code);
}

proof fn lemma_get(d: Server, k: Seq<u8>)
    ensures
        ran(d, seq![text::lit("GET"), k]) == (RespView::Bulk(value_at(d.values, k)), d),
{
    reveal(ran);
}

proof fn lemma_list_replies(d: Server, codes: Seq<Seq<char>>)
    ensures
        ({
            let (rs, e) = played(d, store_kv::list_words(keys_of(codes)));
            &&& e == d
            &&& rs.len() == 2 * codes.len()
            &&& forall|i: int|
                0 <= i < codes.len() ==> rs[2 * i] == RespView::Bulk(
                    value_at(d.values, store_kv::link_key(#[trigger] codes[i])),
                ) && rs[2 * i + 1] == RespView::Bulk(
                    value_at(d.values, store_kv::hits_key(codes[i])),
                )
        }),
    decreases codes.len(),
{
    let keys = keys_of(codes);
    if codes.len() > 0 {
        let front = codes.drop_last();
        let code = codes.last();
        lemma_list_replies(d, front);
        assert(keys.drop_last() =~= keys_of(front));
        assert(keys.last() == store_kv::link_key(code));
        lemma_key_code(code);
        let a = store_kv::list_words(keys_of(front));
        let g = seq![text::lit("GET"), store_kv::link_key(code)];
        let h = seq![text::lit("GET"), store_kv::hits_key(code)];
        let b = a.push(g);
        let all = b.push(h);
        assert(store_kv::list_words(keys) == all);
        assert(all.drop_last() =~= b);
        assert(b.drop_last() =~= a);
        lemma_get(d, store_kv::link_key(code));
        lemma_get(d, store_kv::hits_key(code));
        let (rs, _) = played(d, a);
        assert(played(d, b) == (rs.push(RespView::Bulk(value_at(d.values, g[1]))), d));
        let (qs, e) = played(d, all);
        assert(qs == played(d, b).0.push(RespView::Bulk(value_at(d.values, h[1]))) && e == d);
        assert forall|i: int| 0 <= i < codes.len() implies qs[2 * i] == RespView::Bulk(
            value_at(d.values, store_kv::link_key(#[trigger] codes[i])),
        ) && qs[2 * i + 1] == RespView::Bulk(
            value_at(d.values, store_kv::hits_key(codes[i])),
        ) by {
            if i < front.len() {
                assert(front[i] == codes[i]);
            }
        }
    }
}

/// The link of a key at some place, from the replies.
spec fn link_at(keys: Seq<Seq<u8>>, rs: Seq<RespView>, i: int) -> Option<LinkView> {
    store_kv::key_link(
        keys[i],
        store_kv::reply_at(rs, 2 * i),
        store_kv::reply_at(rs, 2 * i + 1),
    )
}

proof fn lemma_key_links(keys: Seq<Seq<u8>>, codes: Seq<Seq<char>>, rs: Seq<RespView>, q: Seq<char>)
    requires
        keys == keys_of(codes),
        forall|j: int, k: int| 0 <= j < k < codes.len() ==> codes[j] != codes[k],
    ensures
        ({
            let found = store_kv::key_links(keys, rs, q);
            &&& forall|k: int|
                0 <= k < found.len() ==> listing::wanted(#[trigger] found[k], q) && exists|j: int|
                    0 <= j < keys.len() && #[trigger] link_at(keys, rs, j) == Some(found[k])
            &&& forall|j: int|
                0 <= j < keys.len() && (#[trigger] link_at(keys, rs, j)) is Some
                    && listing::wanted(link_at(keys, rs, j)->0, q) ==> found.contains(
                    link_at(keys, rs, j)->0,
                )
            &&& forall|j: int, k: int|
                0 <= j < k < found.len() ==> (#[trigger] found[j]).code != (
                #[trigger] found[k]).code
            &&& forall|j: int|
                0 <= j < keys.len() && (#[trigger] link_at(keys, rs, j)) is Some ==> link_at(
                    keys,
                    rs,
                    j,
                )->0.code == codes[j]
        }),
    decreases keys.len(),
{
    let found = store_kv::key_links(keys, rs, q);
    assert forall|j: int| 0 <= j < keys.len() && (#[trigger] link_at(keys, rs, j)) is Some implies
        link_at(keys, rs, j)->0.code == codes[j] by {
        lemma_key_code(codes[j]);
    }
    if keys.len() > 0 {
        let n = keys.len() - 1;
        let front = keys.drop_last();
        let some = codes.drop_last();
        assert(front =~= keys_of(some));
        lemma_key_links(front, some, rs, q);
        let rest = store_kv::key_links(front, rs, q);
        assert forall|j: int| 0 <= j < n implies link_at(front, rs, j) == #[trigger] link_at(
            keys,
            rs,
            j,
        ) by {}
        let l = link_at(keys, rs, n);
        assert(keys.last() == keys[n]);
        let grown = l is Some && listing::wanted(l->0, q);
        assert(found == if grown {
            rest.push(l->0)
        } else {
            rest
        });
        assert forall|k: int| 0 <= k < found.len() implies listing::wanted(#[trigger] found[k], q)
            && exists|j: int|
            0 <= j < keys.len() && #[trigger] link_at(keys, rs, j) == Some(found[k]) by {
            if k < rest.len() {
                assert(found[k] == rest[k]);
                let j = choose|j: int|
                    0 <= j < front.len() && #[trigger] link_at(front, rs, j) == Some(rest[k]);
                assert(link_at(keys, rs, j) == Some(found[k]));
            } else {
                assert(link_at(keys, rs, n) == Some(found[k]));
            }
        }
        assert forall|j: int|
            0 <= j < keys.len() && (#[trigger] link_at(keys, rs, j)) is Some && listing::wanted(
                link_at(keys, rs, j)->0,
                q,
            ) implies found.contains(link_at(keys, rs, j)->0) by {
            if j < n {
                assert(link_at(front, rs, j) == link_at(keys, rs, j));
                let k = choose|k: int| 0 <= k < rest.len() && rest[k] == link_at(front, rs, j)->0;
                assert(found[k] == rest[k]);
            } else {
                assert(found[rest.len() as int] == l->0);
            }
        }
        assert forall|j: int, k: int| 0 <= j < k < found.len() implies (#[trigger] found[j]).code
            != (#[trigger] found[k]).code by {
            if k < rest.len() {
                assert(rest[j].code != rest[k].code);
            } else {
                let x = choose|x: int|
                    0 <= x < front.len() && #[trigger] link_at(front, rs, x) == Some(rest[j]);
                assert(rest[j].code == some[x]);
                assert(some[x] == codes[x]);
                assert(found[k].code == codes[n]);
            }
        }
    }
}

/// A listing reads, for every key that was found, the link and its hits from the server as
/// they are, and keeps those that hold the text that is looked for in their code or url.
pub proof fn law_listing_reads_every_key(
    d: Server,
    codes: Seq<Seq<char>>,
    q: Seq<char>,
    i: int,
    e: i64,
    c: i64,
    url: Seq<char>,
    h: i64,
)
    requires
        forall|j: int, k: int| 0 <= j < k < codes.len() ==> codes[j] != codes[k],
        0 <= i < codes.len(),
        value_at(d.values, store_kv::link_key(codes[i])) == Some(
            store_kv::val_bytes(e as int, c as int, encode_utf8(url)),
        ),
        value_at(d.values, store_kv::hits_key(codes[i])) == Some(text::decimal(h as int)) || h == 0
            && value_at(d.values, store_kv::hits_key(codes[i])) is None,
    ensures
        ({
            let keys = keys_of(codes);
            let found = store_kv::key_links(
                keys,
                played(d, store_kv::list_words(keys)).0,
                q,
            );
            let l = LinkView {
                code: codes[i],
                url,
                hits: h,
                created_at: c,
                expires_at: if e == 0 {
                    None
                } else {
                    Some(e)
                },
            };
            &&& found.contains(l) <==> app_laws::occurs(encode_utf8(q), encode_utf8(codes[i]))
                || app_laws::occurs(encode_utf8(q), encode_utf8(url))
            &&& forall|j: int, k: int|
                0 <= j < k < found.len() ==> (#[trigger] found[j]).code != (
                #[trigger] found[k]).code
            &&& forall|k: int|
                0 <= k < found.len() && (#[trigger] found[k]).code == codes[i] ==> found[k] == l
        }),
{
    let keys = keys_of(codes);
    let rs = played(d, store_kv::list_words(keys)).0;
    let found = store_kv::key_links(keys, rs, q);
    lemma_list_replies(d, codes);
    lemma_key_links(keys, codes, rs, q);
    assert(rs[2 * i] == RespView::Bulk(value_at(d.values, store_kv::link_key(codes[i]))));
    lemma_key_code(codes[i]);
    store_kv::law_value_reads_back(e, c, url);
    store_kv::lemma_number_back(h);
    let l = LinkView {
        code: codes[i],
        url,
        hits: h,
        created_at: c,
        expires_at: if e == 0 {
            None
        } else {
            Some(e)
        },
    };
    assert(link_at(keys, rs, i) == Some(l));
    app_laws::lemma_occurs(encode_utf8(q), encode_utf8(codes[i]));
    app_laws::lemma_occurs(encode_utf8(q), encode_utf8(url));
    assert forall|k: int|
        0 <= k < found.len() && (#[trigger] found[k]).code == codes[i] implies found[k] == l by {
        let j = choose|j: int|
            0 <= j < keys.len() && #[trigger] link_at(keys, rs, j) == Some(found[k]);
        assert(codes[j] == codes[i]);
        if j < i {
            assert(codes[j] != codes[i]);
        } else if i < j {
            assert(codes[i] != codes[j]);
        }
    }
}

proof fn lemma_marks(code: Seq<char>)
    requires
        app::is_code(code),
    ensures
        text::lit("h:") == seq![104u8, 58],
        !text::begins(encode_utf8(code), text::lit("h:")),
        !text::char_begins(code, "h:"@),
        store_kv::text_in(encode_utf8(code)) == Some(code),
        store_kv::text_in(store_kv::hits_key(code)) == Some("h:"@ + code),
        text::begins(store_kv::hits_key(code), text::lit("h:")),
{
    reveal_strlit("h:");
    assert("h:"@ =~= text::ascii_text(seq![104u8, 58]));
    text::lemma_lit("h:"@, seq![104u8, 58]);
    let b = encode_utf8(code);
    if text::begins(b, text::lit("h:")) {
        assert(b.subrange(0, 2)[1] == b[1]);
        assert(app::code_byte(b[1]));
    }
    app_laws::law_codes_are_words(code);
    if text::char_begins(code, "h:"@) {
        assert(code.take(2)[1] == code[1]);
        assert(code[1] == ':');
    }
    encode_utf8_valid_utf8(code);
    encode_utf8_decode_utf8(code);
    text::lemma_bytes_concat("h:"@, code);
    encode_utf8_valid_utf8("h:"@ + code);
    encode_utf8_decode_utf8("h:"@ + code);
    assert(store_kv::hits_key(code).subrange(0, 2) =~= text::lit("h:"));
}

proof fn lemma_field_links(
    fields: Seq<(Seq<u8>, Seq<u8>)>,
    now: i64,
    q: Seq<char>,
)
    requires
        forall|j: int, k: int|
            0 <= j < k < fields.len() ==> (#[trigger] fields[j]).0 != (#[trigger] fields[k]).0,
    ensures
        ({
            let found = store_kv::field_links(fields, now, q);
            &&& forall|k: int|
                0 <= k < found.len() ==> listing::wanted(#[trigger] found[k], q) && exists|j: int|
                    0 <= j < fields.len() && store_kv::field_link(#[trigger] fields[j], now)
                        == Some(found[k])
            &&& forall|j: int|
                0 <= j < fields.len() && store_kv::field_link(#[trigger] fields[j], now) is Some
                    && listing::wanted(store_kv::field_link(fields[j], now)->0, q)
                    ==> found.contains(store_kv::field_link(fields[j], now)->0)
            &&& forall|j: int, k: int|
                0 <= j < k < found.len() ==> (#[trigger] found[j]).code != (
                #[trigger] found[k]).code
        }),
    decreases fields.len(),
{
    let found = store_kv::field_links(fields, now, q);
    if fields.len() > 0 {
        let n = fields.len() - 1;
        let front = fields.drop_last();
        assert forall|j: int, k: int| 0 <= j < k < front.len() implies (#[trigger] front[j]).0 != (
        #[trigger] front[k]).0 by {
            assert(fields[j].0 != fields[k].0);
        }
        lemma_field_links(front, now, q);
        let rest = store_kv::field_links(front, now, q);
        let l = store_kv::field_link(fields[n], now);
        assert(fields.last() == fields[n]);
        let grown = l is Some && listing::wanted(l->0, q);
        assert(found == if grown {
            rest.push(l->0)
        } else {
            rest
        });
        assert forall|k: int| 0 <= k < found.len() implies listing::wanted(#[trigger] found[k], q)
            && exists|j: int|
            0 <= j < fields.len() && store_kv::field_link(#[trigger] fields[j], now) == Some(
                found[k],
            ) by {
            if k < rest.len() {
                assert(found[k] == rest[k]);
                let j = choose|j: int|
                    0 <= j < front.len() && store_kv::field_link(#[trigger] front[j], now) == Some(
                        rest[k],
                    );
                assert(fields[j] == front[j]);
            } else {
                assert(store_kv::field_link(fields[n], now) == Some(found[k]));
            }
        }
        assert forall|j: int|
            0 <= j < fields.len() && store_kv::field_link(#[trigger] fields[j], now) is Some
                && listing::wanted(store_kv::field_link(fields[j], now)->0, q) implies found.contains(
            store_kv::field_link(fields[j], now)->0) by {
            if j < n {
                assert(front[j] == fields[j]);
                let x = store_kv::field_link(front[j], now)->0;
                let k = choose|k: int| 0 <= k < rest.len() && rest[k] == x;
                assert(found[k] == rest[k]);
            } else {
                assert(found[rest.len() as int] == l->0);
            }
        }
        assert forall|j: int, k: int| 0 <= j < k < found.len() implies (#[trigger] found[j]).code
            != (#[trigger] found[k]).code by {
            if k < rest.len() {
                assert(rest[j].code != rest[k].code);
            } else {
                let x = choose|x: int|
                    0 <= x < front.len() && store_kv::field_link(#[trigger] front[x], now) == Some(
                        rest[j],
                    );
                assert(fields[x] == front[x]);
                assert(fields[x].0 != fields[n].0);
                if rest[j].code == found[k].code {
                    lemma_same_text(fields[x].0, fields[n].0);
                }
            }
        }
    }
}

proof fn lemma_same_text(a: Seq<u8>, b: Seq<u8>)
    requires
        store_kv::text_in(a) is Some,
        store_kv::text_in(a) == store_kv::text_in(b),
    ensures
        a == b,
{
    decode_utf8_encode_utf8(a);
    decode_utf8_encode_utf8(b);
}

proof fn lemma_field_hits(fields: Seq<(Seq<u8>, Seq<u8>)>, code: Seq<char>)
    requires
        app::is_code(code),
        forall|j: int, k: int|
            0 <= j < k < fields.len() ==> (#[trigger] fields[j]).0 != (#[trigger] fields[k]).0,
    ensures
        forall|j: int|
            0 <= j < fields.len() && (#[trigger] fields[j]).0 == store_kv::hits_key(code)
                ==> store_kv::field_hits(fields, code) == Some(
                store_kv::hits_in(Some(fields[j].1)),
            ),
        (forall|j: int|
            0 <= j < fields.len() ==> (#[trigger] fields[j]).0 != store_kv::hits_key(code))
            ==> store_kv::field_hits(fields, code) is None,
    decreases fields.len(),
{
    if fields.len() > 0 {
        let n = fields.len() - 1;
        let front = fields.drop_last();
        assert forall|j: int, k: int| 0 <= j < k < front.len() implies (#[trigger] front[j]).0 != (
        #[trigger] front[k]).0 by {
            assert(fields[j].0 != fields[k].0);
        }
        lemma_field_hits(front, code);
        lemma_marks(code);
        assert(fields.last() == fields[n]);
        let name = fields[n].0;
        let h = "h:"@;
        reveal_strlit("h:");
        if let Some(t) = store_kv::text_in(name) {
            if text::char_begins(t, h) && t.skip(h.len() as int) == code {
                assert(t =~= h + code);
                lemma_same_text(name, store_kv::hits_key(code));
            }
        }
        if name == store_kv::hits_key(code) {
            let t = h + code;
            assert(t.take(h.len() as int) =~= h);
            assert(t.skip(h.len() as int) =~= code);
        }
        assert forall|j: int|
            0 <= j < fields.len() && (#[trigger] fields[j]).0 == store_kv::hits_key(
                code,
            ) implies store_kv::field_hits(fields, code) == Some(
            store_kv::hits_in(Some(fields[j].1)),
        ) by {
            if j < n {
                assert(front[j] == fields[j]);
                assert(fields[j].0 != fields[n].0);
            }
        }
        if forall|j: int| 0 <= j < fields.len() ==> (#[trigger] fields[j]).0 != store_kv::hits_key(
            code,
        ) {
            assert forall|j: int| 0 <= j < front.len() implies (#[trigger] front[j]).0
                != store_kv::hits_key(code) by {
                assert(fields[j] == front[j]);
            }
        }
    }
}

/// A listing of hashes has every link in them that holds the text that is looked for in its
/// code or url, unless its time is over, with the hits that stand beside it.
pub proof fn law_listing_reads_every_field(
    fields: Seq<(Seq<u8>, Seq<u8>)>,
    now: i64,
    q: Seq<char>,
    i: int,
    code: Seq<char>,
    e: i64,
    c: i64,
    url: Seq<char>,
    h: i64,
)
    requires
        forall|j: int, k: int|
            0 <= j < k < fields.len() ==> (#[trigger] fields[j]).0 != (#[trigger] fields[k]).0,
        app::is_code(code),
        0 <= i < fields.len(),
        fields[i] == (
            encode_utf8(code),
            store_kv::val_bytes(e as int, c as int, encode_utf8(url)),
        ),
        fields.contains((store_kv::hits_key(code), text::decimal(h as int))) || h == 0 && (forall|
            j: int,
        |
            0 <= j < fields.len() ==> (#[trigger] fields[j]).0 != store_kv::hits_key(code)),
    ensures
        ({
            let found = store_kv::with_hits(store_kv::field_links(fields, now, q), fields);
            let l = LinkView {
                code,
                url,
                hits: h,
                created_at: c,
                expires_at: if e == 0 {
                    None
                } else {
                    Some(e)
                },
            };
            &&& found.contains(l) <==> (e == 0 || now < e) && (app_laws::occurs(
                encode_utf8(q),
                encode_utf8(code),
            ) || app_laws::occurs(encode_utf8(q), encode_utf8(url)))
            &&& forall|j: int, k: int|
                0 <= j < k < found.len() ==> (#[trigger] found[j]).code != (
                #[trigger] found[k]).code
            &&& forall|k: int|
                0 <= k < found.len() && (#[trigger] found[k]).code == code ==> found[k] == l
        }),
{
    let bare = store_kv::field_links(fields, now, q);
    let found = store_kv::with_hits(bare, fields);
    lemma_field_links(fields, now, q);
    lemma_field_hits(fields, code);
    lemma_marks(code);
    store_kv::law_value_reads_back(e, c, url);
    store_kv::lemma_number_back(h);
    app_laws::lemma_occurs(encode_utf8(q), encode_utf8(code));
    app_laws::lemma_occurs(encode_utf8(q), encode_utf8(url));
    if fields.contains((store_kv::hits_key(code), text::decimal(h as int))) {
        let j = choose|j: int|
            0 <= j < fields.len() && fields[j] == (
                store_kv::hits_key(code),
                text::decimal(h as int),
            );
        assert(fields[j].0 == store_kv::hits_key(code));
    }
    let x = store_kv::field_link(fields[i], now);
    let l = LinkView {
        code,
        url,
        hits: h,
        created_at: c,
        expires_at: if e == 0 {
            None
        } else {
            Some(e)
        },
    };
    assert(x == if e == 0 || now < e {
        Some(LinkView { hits: 0, ..l })
    } else {
        None
    });
    assert forall|k: int| 0 <= k < found.len() && (#[trigger] found[k]).code == code implies found[k]
        == l && x is Some && listing::wanted(l, q) by {
        let y = bare[k];
        let j = choose|j: int|
            0 <= j < fields.len() && store_kv::field_link(#[trigger] fields[j], now) == Some(y);
        assert(store_kv::text_in(fields[j].0) == Some(code));
        lemma_same_text(fields[j].0, fields[i].0);
        if j < i {
            assert(fields[j].0 != fields[i].0);
        } else if i < j {
            assert(fields[i].0 != fields[j].0);
        }
        assert(y == x->0);
        assert(listing::wanted(bare[k], q));
    }
    if x is Some && listing::wanted(l, q) {
        assert(listing::wanted(x->0, q));
        assert(bare.contains(x->0));
        let k = choose|k: int| 0 <= k < bare.len() && bare[k] == x->0;
        assert(found[k].code == code);
        assert(found.contains(found[k]));
    }
    if found.contains(l) {
        let k = choose|k: int| 0 <= k < found.len() && found[k] == l;
        assert(found[k].code == code);
    }
    assert forall|j: int, k: int| 0 <= j < k < found.len() implies (#[trigger] found[j]).code != (
    #[trigger] found[k]).code by {
        assert(bare[j].code != bare[k].code);
    }
}

// ---------- sweeping ----------

/// A sweep deletes the links of a hash whose time is over, and nothing else: no link that
/// is still there, and no hits.
pub proof fn law_sweep_deletes_what_is_over(
    bucket: Seq<u8>,
    fields: Seq<(Seq<u8>, Seq<u8>)>,
    now: i64,
    w: Seq<Seq<u8>>,
)
    ensures
        store_kv::sweep_words(bucket, fields, now).contains(w) <==> exists|i: int|
            {
                &&& 0 <= i < fields.len()
                &&& w == seq![text::lit("HDEL"), bucket, (#[trigger] fields[i]).0]
                &&& !app_laws::led_by(fields[i].0, text::lit("h:"))
                &&& store_kv::val_of(fields[i].1) matches Some((e, _, _)) && e != 0 && e <= now
            },
    decreases fields.len(),
{
    let all = store_kv::sweep_words(bucket, fields, now);
    if fields.len() > 0 {
        let n = fields.len() - 1;
        let front = fields.drop_last();
        let rest = store_kv::sweep_words(bucket, front, now);
        law_sweep_deletes_what_is_over(bucket, front, now, w);
        app_laws::lemma_led_by(fields[n].0, text::lit("h:"));
        assert(fields.last() == fields[n]);
        let del = seq![text::lit("HDEL"), bucket, fields[n].0];
        let over = store_kv::dead(fields[n], now);
        if rest.contains(w) {
            let k = choose|k: int| 0 <= k < rest.len() && rest[k] == w;
            assert(all[k] == w);
            let i = choose|i: int|
                {
                    &&& 0 <= i < front.len()
                    &&& w == seq![text::lit("HDEL"), bucket, (#[trigger] front[i]).0]
                    &&& !app_laws::led_by(front[i].0, text::lit("h:"))
                    &&& store_kv::val_of(front[i].1) matches Some((e, _, _)) && e != 0 && e <= now
                };
            assert(fields[i] == front[i]);
        }
        if over {
            assert(all[rest.len() as int] == del);
        }
        if all.contains(w) && !rest.contains(w) {
            let k = choose|k: int| 0 <= k < all.len() && all[k] == w;
            if k < rest.len() {
                assert(rest[k] == w);
            }
            assert(over && w == del);
            assert(w == seq![text::lit("HDEL"), bucket, fields[n].0]);
        }
        if exists|i: int|
            {
                &&& 0 <= i < fields.len()
                &&& w == seq![text::lit("HDEL"), bucket, (#[trigger] fields[i]).0]
                &&& !app_laws::led_by(fields[i].0, text::lit("h:"))
                &&& store_kv::val_of(fields[i].1) matches Some((e, _, _)) && e != 0 && e <= now
            } {
            let i = choose|i: int|
                {
                    &&& 0 <= i < fields.len()
                    &&& w == seq![text::lit("HDEL"), bucket, (#[trigger] fields[i]).0]
                    &&& !app_laws::led_by(fields[i].0, text::lit("h:"))
                    &&& store_kv::val_of(fields[i].1) matches Some((e, _, _)) && e != 0 && e <= now
                };
            if i < n {
                assert(front[i] == fields[i]);
                assert(rest.contains(w));
            }
        }
    }
}

// ---------- scans ----------

/// What a server replies to a scan: where to go on, and what it found.
pub open spec fn scan_reply(cursor: Seq<u8>, found: Seq<Seq<u8>>) -> RespView {
    RespView::Arr(
        seq![
            RespView::Bulk(Some(cursor)),
            RespView::Arr(Seq::new(found.len(), |i: int| RespView::Bulk(Some(found[i])))),
        ],
    )
}

proof fn lemma_scan_reply(cursor: Seq<u8>, found: Seq<Seq<u8>>)
    ensures
        kv::bulks(kv::scan_result(scan_reply(cursor, found)).0) == found,
        kv::scan_result(scan_reply(cursor, found)).1 == (if cursor == text::lit("0") {
            None
        } else {
            Some(cursor)
        }),
    decreases found.len(),
{
    let v = Seq::new(found.len(), |i: int| RespView::Bulk(Some(found[i])));
    if found.len() > 0 {
        let front = found.drop_last();
        lemma_scan_reply(cursor, front);
        assert(v.drop_last() =~= Seq::new(front.len(), |i: int| RespView::Bulk(Some(front[i]))));
        assert(front.push(found.last()) =~= found);
    } else {
        assert(v =~= Seq::empty());
        assert(found =~= Seq::empty());
    }
}

/// A listing collects all keys that a scan finds, page by page, until the server says that
/// there are no more; none is left out, and none is read before.
pub proof fn law_scan_collects_all_keys(
    s: KvView,
    req: ListView,
    keys: Seq<Seq<u8>>,
    cursor: Seq<u8>,
    found: Seq<Seq<u8>>,
    now: i64,
    t: KvView,
    j: JobView,
)
    requires
        s.layout == Layout::Key,
        kv_jobs::advanced(
            s,
            (WaitView::Keys { req, keys }),
            Some(seq![scan_reply(cursor, found)]),
            now,
            t,
            j,
        ),
    ensures
        t == s,
        cursor != text::lit("0") ==> j == (JobView::Send {
            cmds: seq![
                seq![
                    text::lit("SCAN"),
                    cursor,
                    text::lit("MATCH"),
                    text::lit("l:*"),
                    text::lit("COUNT"),
                    text::lit("500"),
                ],
            ],
            wait: WaitView::Keys { req, keys: keys + found },
        }),
        cursor == text::lit("0") ==> j == (JobView::Send {
            cmds: store_kv::list_words(keys + found),
            wait: WaitView::Values { req, keys: keys + found },
        }),
{
    lemma_scan_reply(cursor, found);
}

/// What a server replies to a scan of a hash: where to go on, and the fields it found with
/// their values.
pub open spec fn hscan_reply(cursor: Seq<u8>, found: Seq<(Seq<u8>, Seq<u8>)>) -> RespView {
    RespView::Arr(
        seq![
            RespView::Bulk(Some(cursor)),
            RespView::Arr(
                Seq::new(
                    2 * found.len(),
                    |i: int|
                        RespView::Bulk(
                            Some(
                                if i % 2 == 0 {
                                    found[i / 2].0
                                } else {
                                    found[i / 2].1
                                },
                            ),
                        ),
                ),
            ),
        ],
    )
}

proof fn lemma_hscan_reply(cursor: Seq<u8>, found: Seq<(Seq<u8>, Seq<u8>)>)
    ensures
        kv::bulk_pairs(kv::scan_result(hscan_reply(cursor, found)).0) == found,
        kv::scan_result(hscan_reply(cursor, found)).1 == (if cursor == text::lit("0") {
            None
        } else {
            Some(cursor)
        }),
    decreases found.len(),
{
    let v = kv::scan_result(hscan_reply(cursor, found)).0;
    if found.len() > 0 {
        let n = found.len() - 1;
        let front = found.drop_last();
        lemma_hscan_reply(cursor, front);
        let w = kv::scan_result(hscan_reply(cursor, front)).0;
        assert(v.drop_last().drop_last() =~= w) by {
            assert forall|i: int| 0 <= i < w.len() implies v[i] == w[i] by {
                assert(0 <= i / 2 < front.len());
            }
        }
        assert((2 * n) % 2 == 0 && (2 * n) / 2 == n);
        assert((2 * n + 1) % 2 == 1 && (2 * n + 1) / 2 == n);
        assert(v[2 * n] == RespView::Bulk(Some(found[n].0)));
        assert(v[2 * n + 1] == RespView::Bulk(Some(found[n].1)));
        assert(front.push(found[n]) =~= found);
    } else {
        assert(found =~= Seq::empty());
    }
}

/// A listing collects all fields of all hashes: of each, page by page, until the server
/// says that there are no more, and then of the next one; behind the last the links in all
/// of them are listed.
pub proof fn law_scan_collects_all_fields(
    s: KvView,
    req: ListView,
    keys: Seq<Seq<u8>>,
    at: int,
    fields: Seq<(Seq<u8>, Seq<u8>)>,
    cursor: Seq<u8>,
    found: Seq<(Seq<u8>, Seq<u8>)>,
    now: i64,
    t: KvView,
    j: JobView,
)
    requires
        0 <= at < keys.len(),
        kv_jobs::advanced(
            s,
            (WaitView::Fields { req, keys, at, fields }),
            Some(seq![hscan_reply(cursor, found)]),
            now,
            t,
            j,
        ),
    ensures
        t == s,
        cursor != text::lit("0") ==> j == (JobView::Send {
            cmds: seq![
                seq![text::lit("HSCAN"), keys[at], cursor, text::lit("COUNT"), text::lit("1000")],
            ],
            wait: WaitView::Fields { req, keys, at, fields: fields + found },
        }),
        cursor == text::lit("0") && at + 1 < keys.len() ==> j == (JobView::Send {
            cmds: seq![
                seq![
                    text::lit("HSCAN"),
                    keys[at + 1],
                    text::lit("0"),
                    text::lit("COUNT"),
                    text::lit("1000"),
                ],
            ],
            wait: WaitView::Fields { req, keys, at: at + 1, fields: fields + found },
        }),
        cursor == text::lit("0") && at + 1 == keys.len() ==> (j matches JobView::Done(
            OutcomeView::Listed(links, total),
        ) && ({
            let all = store_kv::with_hits(
                store_kv::field_links(fields + found, now, req.q),
                fields + found,
            );
            total == all.len() && exists|sorted: Seq<LinkView>| #[trigger]
                listing::arranged(all, listing::order_of(req.sort), sorted) && links
                    == listing::page(sorted, req.limit as int, req.offset as int)
        })),
{
    lemma_hscan_reply(cursor, found);
}

/// A sweep looks through all fields of all hashes before it deletes anything, and then
/// deletes what is over in any of them.
pub proof fn law_sweep_goes_through_all_hashes(
    s: KvView,
    keys: Seq<Seq<u8>>,
    at: int,
    fields: Seq<(Seq<u8>, Seq<u8>)>,
    dels: Seq<Seq<Seq<u8>>>,
    cursor: Seq<u8>,
    found: Seq<(Seq<u8>, Seq<u8>)>,
    now: i64,
    t: KvView,
    j: JobView,
)
    requires
        0 <= at < keys.len(),
        kv_jobs::advanced(
            s,
            (WaitView::Stale { keys, at, fields, dels }),
            Some(seq![hscan_reply(cursor, found)]),
            now,
            t,
            j,
        ),
    ensures
        t == s,
        ({
            let more = dels + store_kv::sweep_words(keys[at], fields + found, now);
            &&& cursor != text::lit("0") ==> j == (JobView::Send {
                cmds: seq![
                    seq![
                        text::lit("HSCAN"),
                        keys[at],
                        cursor,
                        text::lit("COUNT"),
                        text::lit("1000"),
                    ],
                ],
                wait: WaitView::Stale { keys, at, fields: fields + found, dels },
            })
            &&& cursor == text::lit("0") && at + 1 < keys.len() ==> j == (JobView::Send {
                cmds: seq![
                    seq![
                        text::lit("HSCAN"),
                        keys[at + 1],
                        text::lit("0"),
                        text::lit("COUNT"),
                        text::lit("1000"),
                    ],
                ],
                wait: WaitView::Stale { keys, at: at + 1, fields: Seq::empty(), dels: more },
            })
            &&& cursor == text::lit("0") && at + 1 == keys.len() && more.len() > 0 ==> j == (
            JobView::Send { cmds: more, wait: WaitView::Swept })
        }),
{
    lemma_hscan_reply(cursor, found);
}

/// A link that may have any code is asked for under a code that this instance makes, and
/// again under another one until the server has created it; the code that it has then is
/// the answer.
pub proof fn law_fresh_code_request(
    d: Server,
    s: KvView,
    url: Seq<char>,
    ttl_ms: i64,
    now: i64,
    e: Server,
    t: KvView,
    j: JobView,
)
    requires
        0 <= s.instance < store::MAX_INSTANCES,
        first_round(d, s, (PlanView::Shorten { url, alias: None, ttl_ms }), now, e, t, j),
    ensures
        t == s,
        match j {
            JobView::Done(o) => o matches OutcomeView::Created(Some(c)) && c.len() == 8
                && app::is_code(c) && read(d, s, c) is None && read(e, s, c) == Some(
                store_kv::val_bytes(
                    store::expiry(now, ttl_ms) as int,
                    now as int,
                    encode_utf8(url),
                ),
            ),
            JobView::Send { wait, .. } => e == d && (wait matches WaitView::Fresh {
                url: v,
                given,
                ttl_ms: n,
                ..
            } && v == url && !given && n == ttl_ms),
        },
{
    let (u, cmds, w) = choose|u: KvView, cmds: Seq<Seq<Seq<u8>>>, w: WaitView|
        {
            &&& #[trigger] kv_jobs::begun(
                s,
                (PlanView::Shorten { url, alias: None, ttl_ms }),
                now,
                u,
                (JobView::Send { cmds, wait: w }),
            )
            &&& e == played(d, cmds).1
            &&& kv_jobs::advanced(u, w, Some(played(d, cmds).0), now, t, j)
        };
    let code = choose|code: Seq<char>| #[trigger]
        store::generated(s.instance as int, code) && (JobView::Send { cmds, wait: w })
            == kv_jobs::create_job(s, code, url, false, ttl_ms, now);
    let x = store_kv::create_words(s, code, url, ttl_ms, now);
    lemma_one(d, x);
    lemma_create(d, s, code, url, ttl_ms, now);
    lemma_reads(d, s, code);
    lemma_reads(ran(d, x).1, s, code);
    app_laws::lemma_generated_code(s.instance as int, code);
}

/// A lookup that is answered counts one hit of that code where hits are counted, whether
/// the cache or the server answers it; one that is not counts none. No hit of another code
/// changes.
pub proof fn law_lookup_counts_a_hit(
    s: KvView,
    code: Seq<char>,
    now: i64,
    t: KvView,
    j: JobView,
    rs: Option<Seq<RespView>>,
    later: i64,
    u: KvView,
    k: JobView,
    other: Seq<char>,
)
    requires
        kv_jobs::begun(s, (PlanView::Resolve { code }), now, t, j),
        j is Send ==> kv_jobs::advanced(t, (WaitView::Target { code }), rs, later, u, k),
    ensures
        ({
            let x = if j is Send {
                u
            } else {
                t
            };
            let o = if j is Send {
                k
            } else {
                j
            };
            let hits = |y: KvView, c: Seq<char>|
                if y.dirty.contains_key(c) {
                    y.dirty[c]
                } else {
                    0i64
                };
            &&& s.track && (o matches JobView::Done(OutcomeView::Target(Some(_)))) ==> hits(
                x,
                code,
            ) == hits(s, code).wrapping_add(1)
            &&& !s.track || !(o matches JobView::Done(OutcomeView::Target(Some(_)))) ==> x.dirty
                == s.dirty
            &&& other != code ==> hits(x, other) == hits(s, other)
            &&& x.track == s.track && x.layout == s.layout && x.buckets == s.buckets && x.instance
                == s.instance
        }),
{
}

/// A lookup that the cache answers is answered with the url that was cached, and asks the
/// server nothing.
pub proof fn law_cached_lookup_request(
    s: KvView,
    code: Seq<char>,
    u: Seq<char>,
    e: i64,
    at: i64,
    now: i64,
    t: KvView,
    j: JobView,
)
    requires
        lru::cache_ok(s.cache),
        s.cache.cap > 0,
        0 <= at <= now,
        now - at <= s.cache.ttl_ms,
        e == 0 || now < e,
        kv_jobs::begun(
            KvView { cache: lru::after_put(s.cache, code, u, e, at), ..s },
            (PlanView::Resolve { code }),
            now,
            t,
            j,
        ),
    ensures
        j == JobView::Done(OutcomeView::Target(Some(u))),
{
    lru::law_put_comes_out(s.cache, code, u, e, at, now);
}

/// Links lie in hashes exactly if the setting says `hash`.
pub proof fn law_layout_is_the_one_asked_for(v: Option<Seq<char>>)
    ensures
        store_kv::layout_for(v) == Layout::Hash <==> (v matches Some(t) && t == "hash"@),
        store_kv::layout_for(v) == Layout::Hash || store_kv::layout_for(v) == Layout::Key,
{
}

/// A request that the server does not reply to comes to nothing: no link is found, created
/// under an alias, changed or removed, and this process keeps what it has.
pub proof fn law_without_a_reply_nothing_happens(
    s: KvView,
    code: Seq<char>,
    url: Seq<char>,
    ttl_ms: i64,
    has_ttl: bool,
    now: i64,
    t: KvView,
    j: JobView,
)
    ensures
        kv_jobs::advanced(s, (WaitView::Target { code }), None, now, t, j) ==> t == s && j
            == JobView::Done(OutcomeView::Target(None)),
        kv_jobs::advanced(
            s,
            (WaitView::Fresh { code, url, given: true, ttl_ms }),
            None,
            now,
            t,
            j,
        ) ==> t == s && j == JobView::Done(OutcomeView::Created(None)),
        kv_jobs::advanced(s, (WaitView::Known { code }), None, now, t, j) ==> t == s && j
            == JobView::Done(OutcomeView::Found(None)),
        kv_jobs::advanced(s, (WaitView::Old { code, url, ttl_ms, has_ttl }), None, now, t, j)
            ==> t == s && j == JobView::Done(OutcomeView::Changed(MutResult::Missing)),
        kv_jobs::advanced(s, (WaitView::Written { code }), None, now, t, j) ==> t == s && j
            == JobView::Done(OutcomeView::Changed(MutResult::Missing)),
        kv_jobs::advanced(s, (WaitView::Gone { code }), None, now, t, j) ==> t == s && j
            == JobView::Done(OutcomeView::Changed(MutResult::Missing)),
{
}

} // verus!
