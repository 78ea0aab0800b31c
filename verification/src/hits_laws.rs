//! The hits of a link come back from what the store of its instance wrote.

use vstd::prelude::*;
use vstd::utf8::*;

use crate::aof;
use crate::aof::NL;
use crate::codec;
use crate::codec_laws;
use crate::store;
use crate::store::{MutResult, Row, StoreView};
use crate::store_laws;
use crate::store_laws::World;

verus! {

/// This instance owns the link under a code.
pub open spec fn owns(s: StoreView, c: Seq<char>) -> bool {
    s.rows.contains_key(c) && s.rows[c].i == s.instance
}

/// A store that knows nothing of a code.
pub open spec fn bare(m: StoreView, c: Seq<char>) -> bool {
    !m.rows.contains_key(c) && !m.stray.contains_key(c)
}

/// A store has a code with some hits, or lacks it, and has no hits of a missing row.
pub open spec fn says(m: StoreView, c: Seq<char>, n: Option<i64>) -> bool {
    &&& !m.stray.contains_key(c)
    &&& m.rows.contains_key(c) <==> n is Some
    &&& n matches Some(k) ==> m.rows[c].h == k
}

/// Files give any store that knows nothing of a code some hits of it, or no link.
pub open spec fn files_say(snap: Seq<u8>, log: Seq<u8>, c: Seq<char>, n: Option<i64>) -> bool {
    forall|m: StoreView, t: StoreView|
        bare(m, c) && #[trigger] store::reopened(m, snap, log, t) ==> says(t, c, n)
}

/// The files have the hits of a code that this instance counted, if it owns the code, but
/// for those that are not logged yet.
pub open spec fn told(w: World, c: Seq<char>, n: Option<i64>) -> bool {
    &&& files_say(w.snap, store_laws::whole_log(w), c, n)
    &&& owns(w.s, c) ==> n is Some && w.s.rows[c].oh == n->0.wrapping_add(
        store_laws::unlogged(w.s, c),
    )
}

/// The files have the hits of a code.
pub open spec fn tallied(w: World, c: Seq<char>) -> bool {
    exists|n: Option<i64>| #[trigger] told(w, c, n)
}

/// What holds of a store and its files whatever was done.
pub open spec fn sound(w: World) -> bool {
    &&& w.s.log is Some
    &&& 0 <= w.s.instance < store::MAX_INSTANCES
    &&& forall|c: Seq<char>| #[trigger] w.s.rows.contains_key(c) ==> store_laws::loggable(c)
    &&& forall|c: Seq<char>| #[trigger] w.s.dirty.contains_key(c) ==> store_laws::loggable(c)
    &&& aof::torn(store_laws::whole_log(w)) == Seq::<u8>::empty()
    &&& forall|m: StoreView| #[trigger]
        store::reopened(
            store_laws::blank(w.s.instance),
            w.snap,
            store_laws::whole_log(w),
            m,
        ) ==> store_laws::evenly(m)
}

/// A code has hits that are not logged only while this instance owns it: it was not
/// removed before they were logged.
pub open spec fn steady(s: StoreView, c: Seq<char>) -> bool {
    s.dirty.contains_key(c) ==> owns(s, c)
}

/// One of the things that happen to a store, but neither an update of a code nor its
/// removal before its hits are logged.
#[verifier::opaque]
pub open spec fn step_sparing(a: World, b: World, c: Seq<char>) -> bool {
    ||| store_laws::step_create(a, b)
    ||| store_laws::step_resolve(a, b)
    ||| store_laws::step_flush(a, b)
    ||| store_laws::step_write(a, b)
    ||| store_laws::step_compact(a, b)
    ||| store_laws::step_reopen(a, b)
    ||| step_other(a, b, c)
}

/// A link is updated or removed, but that of a code is not updated, nor removed before its
/// hits are logged.
pub open spec fn step_other(a: World, b: World, c: Seq<char>) -> bool {
    &&& a.snap == b.snap
    &&& a.log == b.log
    &&& {
        ||| exists|code: Seq<char>, url: Seq<char>, ttl: i64, has_ttl: bool, now: i64, r: MutResult|
            #[trigger] store::updated(a.s, code, url, ttl, has_ttl, now, r, b.s) && (code != c || r
                != MutResult::Done)
        ||| exists|code: Seq<char>, r: MutResult| #[trigger]
            store::removed(a.s, code, r, b.s) && (code != c || !a.s.dirty.contains_key(c))
    }
}

/// A store that is opened for the first time has no hits.
pub proof fn lemma_start(w: World, c: Seq<char>)
    requires
        store_laws::starts(w),
    ensures
        tallied(w, c),
{
    let none = Seq::<u8>::empty();
    assert(store_laws::whole_log(w) =~= none);
    assert(aof::lines(none) =~= Seq::<Seq<u8>>::empty());
    assert(told(w, c, None));
}

/// One line more, which makes of what was said what is said.
proof fn lemma_line(
    snap: Seq<u8>,
    log: Seq<u8>,
    line: Seq<u8>,
    c: Seq<char>,
    n: Option<i64>,
    k: Option<i64>,
)
    requires
        aof::torn(log) == Seq::<u8>::empty(),
        line.len() > 0,
        codec_laws::unbroken(line),
        files_say(snap, log, c, n),
        forall|m: StoreView, t: StoreView|
            says(m, c, n) && #[trigger] store::line_applies(m, line, t) ==> says(t, c, k),
    ensures
        files_say(snap, log + line + seq![NL], c, k),
{
    assert forall|m: StoreView, t: StoreView|
        bare(m, c) && #[trigger] store::reopened(m, snap, log + line + seq![NL], t) implies says(
        t,
        c,
        k,
    ) by {
        store_laws::lemma_one_more(m, snap, log, line, t);
        let was = choose|was: StoreView| #[trigger]
            store::reopened(m, snap, log, was) && #[trigger] store::line_applies(was, line, t);
        assert(says(was, c, n));
    }
}

/// A row line and what is said of a code.
proof fn lemma_row(
    snap: Seq<u8>,
    log: Seq<u8>,
    x: Seq<char>,
    r: Row,
    h: i64,
    c: Seq<char>,
    n: Option<i64>,
)
    requires
        aof::torn(log) == Seq::<u8>::empty(),
        store_laws::loggable(x),
        files_say(snap, log, c, n),
    ensures
        files_say(
            snap,
            log + store::row_line_of(x, r, h) + seq![NL],
            c,
            if x == c {
                Some(h)
            } else {
                n
            },
        ),
{
    let line = store::row_line_of(x, r, h);
    codec_laws::law_row_is_one_line(
        encode_utf8(x),
        encode_utf8(r.u),
        r.a as int,
        r.e as int,
        r.i as int,
        h as int,
    );
    let k = if x == c {
        Some(h)
    } else {
        n
    };
    assert forall|m: StoreView, t: StoreView|
        says(m, c, n) && #[trigger] store::line_applies(m, line, t) implies says(t, c, k) by {
        store_laws::law_row_line(m, x, r, h, t);
    }
    lemma_line(snap, log, line, c, n, k);
}

/// A tombstone and what is said of a code.
proof fn lemma_tombstone(
    snap: Seq<u8>,
    log: Seq<u8>,
    x: Seq<char>,
    c: Seq<char>,
    n: Option<i64>,
)
    requires
        aof::torn(log) == Seq::<u8>::empty(),
        store_laws::loggable(x),
        files_say(snap, log, c, n),
    ensures
        files_say(
            snap,
            log + codec::del_bytes(encode_utf8(x)) + seq![NL],
            c,
            if x == c {
                None
            } else {
                n
            },
        ),
{
    let line = codec::del_bytes(encode_utf8(x));
    codec_laws::law_tombstone_is_one_line(encode_utf8(x));
    let k = if x == c {
        None
    } else {
        n
    };
    assert forall|m: StoreView, t: StoreView|
        says(m, c, n) && #[trigger] store::line_applies(m, line, t) implies says(t, c, k) by {
        store_laws::law_tombstone_line(m, x, t);
    }
    lemma_line(snap, log, line, c, n, k);
}

/// A hit line and what a store says of a code.
proof fn lemma_hit_said(
    m: StoreView,
    x: Seq<char>,
    d: i64,
    i: i32,
    t: StoreView,
    c: Seq<char>,
    n: Option<i64>,
)
    requires
        store_laws::loggable(x),
        says(m, c, n),
        x == c ==> n is Some,
        store::line_applies(m, codec::hit_bytes(encode_utf8(x), d as int, i as int), t),
    ensures
        says(
            t,
            c,
            if x == c {
                Some(n->0.wrapping_add(d))
            } else {
                n
            },
        ),
{
    codec_laws::law_hit_reads_back(x, d as int, i as int);
}

/// The hits of a code among those of several.
pub open spec fn among(codes: Seq<Seq<char>>, dirty: Map<Seq<char>, i64>, c: Seq<char>) -> i64 {
    if codes.contains(c) {
        dirty[c]
    } else {
        0
    }
}

proof fn lemma_among(codes: Seq<Seq<char>>, dirty: Map<Seq<char>, i64>, c: Seq<char>)
    requires
        codes.len() > 0,
        forall|j: int, k: int| 0 <= j < k < codes.len() ==> codes[j] != codes[k],
    ensures
        codes.last() == c ==> !codes.drop_last().contains(c) && codes.contains(c),
        codes.last() != c ==> (codes.drop_last().contains(c) <==> codes.contains(c)),
{
    let before = codes.drop_last();
    assert(codes[codes.len() - 1] == codes.last());
    if codes.last() == c {
        if before.contains(c) {
            let k = choose|k: int| 0 <= k < before.len() && before[k] == c;
            assert(codes[k] == c);
        }
    } else {
        if before.contains(c) {
            let k = choose|k: int| 0 <= k < before.len() && before[k] == c;
            assert(codes[k] == c);
        }
        if codes.contains(c) {
            let k = choose|k: int| 0 <= k < codes.len() && codes[k] == c;
            assert(before[k] == c);
        }
    }
}

/// Lines of hits and what a store says of a code.
pub proof fn lemma_hits_said(
    s: StoreView,
    codes: Seq<Seq<char>>,
    m: StoreView,
    t: StoreView,
    c: Seq<char>,
    n: Option<i64>,
)
    requires
        forall|x: Seq<char>| #[trigger] s.dirty.contains_key(x) ==> store_laws::loggable(x),
        forall|j: int, k: int| 0 <= j < k < codes.len() ==> codes[j] != codes[k],
        forall|k: int| 0 <= k < codes.len() ==> s.dirty.contains_key(#[trigger] codes[k]),
        says(m, c, n),
        codes.contains(c) ==> n is Some,
        store::replays(m, aof::lines(store::hit_lines(codes, s.dirty, s.instance)), t),
    ensures
        says(
            t,
            c,
            match n {
                Some(k) => Some(k.wrapping_add(among(codes, s.dirty, c))),
                None => None,
            },
        ),
    decreases codes.len(),
{
    let bytes = store::hit_lines(codes, s.dirty, s.instance);
    if codes.len() == 0 {
        assert(aof::lines(bytes) =~= Seq::<Seq<u8>>::empty());
    } else {
        let before = codes.drop_last();
        let x = codes.last();
        let prev = store::hit_lines(before, s.dirty, s.instance);
        store_laws::lemma_hits_step(s, codes);
        lemma_among(codes, s.dirty, c);
        let all = aof::lines(bytes);
        assert(all.drop_last() =~= aof::lines(prev));
        let mid = choose|mid: StoreView|
            store::replays(m, all.drop_last(), mid) && #[trigger] store::line_applies(
                mid,
                all.last(),
                t,
            );
        lemma_hits_said(s, before, m, mid, c, n);
        let now = match n {
            Some(k) => Some(k.wrapping_add(among(before, s.dirty, c))),
            None => None,
        };
        lemma_hit_said(mid, x, s.dirty[x], s.instance, t, c, now);
    }
}

proof fn lemma_create_one(
    a: World,
    b: World,
    url: Seq<char>,
    alias: Option<Seq<char>>,
    ttl: i64,
    now: i64,
    r: Option<Seq<char>>,
    c: Seq<char>,
    n: Option<i64>,
)
    requires
        sound(a),
        steady(a.s, c),
        told(a, c, n),
        a.snap == b.snap,
        a.log == b.log,
        store::shortened(a.s, url, alias, ttl, now, r, b.s),
        r matches Some(x) ==> store_laws::loggable(x),
    ensures
        tallied(b, c),
{
    match r {
        Some(x) => {
            let row = store::new_row(url, now, store::expiry(now, ttl), a.s.instance);
            let l = store::queued(a.s.log, store::row_line_of(x, row, 0))->0;
            store_laws::lemma_spill(a, l);
            assert(store_laws::whole_log(b) =~= store_laws::whole_log(a) + store::row_line_of(
                x,
                row,
                0,
            ) + seq![NL]);
            lemma_row(a.snap, store_laws::whole_log(a), x, row, 0, c, n);
            let k = if x == c {
                Some(0i64)
            } else {
                n
            };
            assert(told(b, c, k));
        },
        None => {
            assert(told(b, c, n));
        },
    }
}

proof fn lemma_many_said(
    snap: Seq<u8>,
    log: Seq<u8>,
    codes: Seq<Seq<char>>,
    urls: Seq<Seq<char>>,
    now: i64,
    exp: i64,
    instance: i32,
    c: Seq<char>,
    n: Option<i64>,
)
    requires
        aof::torn(log) == Seq::<u8>::empty(),
        0 <= instance < store::MAX_INSTANCES,
        forall|k: int|
            0 <= k < codes.len() ==> store::generated(instance as int, #[trigger] codes[k]),
        files_say(snap, log, c, n),
    ensures
        aof::torn(log + store::many_lines(codes, urls, now, exp, instance)) == Seq::<u8>::empty(),
        files_say(
            snap,
            log + store::many_lines(codes, urls, now, exp, instance),
            c,
            if codes.contains(c) {
                Some(0i64)
            } else {
                n
            },
        ),
    decreases codes.len(),
{
    if codes.len() == 0 {
        assert(log + store::many_lines(codes, urls, now, exp, instance) =~= log);
    } else {
        let before = codes.drop_last();
        let x = codes.last();
        assert(codes[codes.len() - 1] == x);
        let r = store::new_row(urls[codes.len() - 1], now, exp, instance);
        let lines = store::many_lines(before, urls, now, exp, instance);
        assert forall|k: int| 0 <= k < before.len() implies store::generated(
            instance as int,
            #[trigger] before[k],
        ) by {
            assert(before[k] == codes[k]);
        }
        lemma_many_said(snap, log, before, urls, now, exp, instance, c, n);
        store_laws::lemma_generated_loggable(instance as int, x);
        let line = store::row_line_of(x, r, 0);
        assert(log + store::many_lines(codes, urls, now, exp, instance) =~= (log + lines) + line
            + seq![NL]);
        let was = if before.contains(c) {
            Some(0i64)
        } else {
            n
        };
        lemma_row(snap, log + lines, x, r, 0, c, was);
        codec_laws::law_row_is_one_line(
            encode_utf8(x),
            encode_utf8(r.u),
            r.a as int,
            r.e as int,
            r.i as int,
            0,
        );
        store_laws::lemma_torn_after(log + lines, line);
        if before.contains(c) {
            let k = choose|k: int| 0 <= k < before.len() && before[k] == c;
            assert(codes[k] == c);
        }
        if codes.contains(c) && x != c {
            let k = choose|k: int| 0 <= k < codes.len() && codes[k] == c;
            assert(before[k] == c);
        }
    }
}

proof fn lemma_many_kept(
    rows: Map<Seq<char>, Row>,
    codes: Seq<Seq<char>>,
    urls: Seq<Seq<char>>,
    now: i64,
    exp: i64,
    instance: i32,
    c: Seq<char>,
)
    ensures
        ({
            let m = store::many_rows(rows, codes, urls, now, exp, instance);
            if codes.contains(c) {
                m.contains_key(c) && m[c].oh == 0
            } else {
                (m.contains_key(c) <==> rows.contains_key(c)) && (m.contains_key(c) ==> m[c]
                    == rows[c])
            }
        }),
    decreases codes.len(),
{
    if codes.len() > 0 {
        let before = codes.drop_last();
        assert(codes[codes.len() - 1] == codes.last());
        lemma_many_kept(rows, before, urls, now, exp, instance, c);
        if before.contains(c) {
            let k = choose|k: int| 0 <= k < before.len() && before[k] == c;
            assert(codes[k] == c);
        }
        if codes.contains(c) && codes.last() != c {
            let k = choose|k: int| 0 <= k < codes.len() && codes[k] == c;
            assert(before[k] == c);
        }
    }
}

proof fn lemma_create_many(
    a: World,
    b: World,
    urls: Seq<Seq<char>>,
    ttl: i64,
    now: i64,
    codes: Seq<Seq<char>>,
    c: Seq<char>,
    n: Option<i64>,
)
    requires
        sound(a),
        steady(a.s, c),
        told(a, c, n),
        a.snap == b.snap,
        a.log == b.log,
        store::shortened_many(a.s, urls, ttl, now, codes, b.s),
    ensures
        tallied(b, c),
{
    let exp = store::expiry(now, ttl);
    let lines = store::many_lines(codes, urls, now, exp, a.s.instance);
    let l = store::queued_raw(a.s.log, lines)->0;
    store_laws::lemma_spill(a, l);
    assert(store_laws::whole_log(b) =~= store_laws::whole_log(a) + lines);
    lemma_many_said(
        a.snap,
        store_laws::whole_log(a),
        codes,
        urls,
        now,
        exp,
        a.s.instance,
        c,
        n,
    );
    lemma_many_kept(a.s.rows, codes, urls, now, exp, a.s.instance, c);
    let k = if codes.contains(c) {
        Some(0i64)
    } else {
        n
    };
    if codes.contains(c) {
        let j = choose|j: int| 0 <= j < codes.len() && codes[j] == c;
        assert(!a.s.rows.contains_key(codes[j]));
    }
    assert(told(b, c, k));
}

proof fn lemma_create(a: World, b: World, c: Seq<char>, n: Option<i64>)
    requires
        sound(a),
        steady(a.s, c),
        told(a, c, n),
        store_laws::step_create(a, b),
    ensures
        tallied(b, c),
{
    if exists|url: Seq<char>, alias: Option<Seq<char>>, ttl: i64, now: i64, r: Option<Seq<char>>|
        #[trigger] store::shortened(a.s, url, alias, ttl, now, r, b.s) && (r matches Some(x)
            ==> store_laws::loggable(x)) {
        let (url, alias, ttl, now, r) = choose|
            url: Seq<char>,
            alias: Option<Seq<char>>,
            ttl: i64,
            now: i64,
            r: Option<Seq<char>>,
        |
            #[trigger] store::shortened(a.s, url, alias, ttl, now, r, b.s) && (r matches Some(x)
                ==> store_laws::loggable(x));
        lemma_create_one(a, b, url, alias, ttl, now, r, c, n);
    } else {
        let (urls, ttl, now, codes) = choose|
            urls: Seq<Seq<char>>,
            ttl: i64,
            now: i64,
            codes: Seq<Seq<char>>,
        | #[trigger] store::shortened_many(a.s, urls, ttl, now, codes, b.s);
        lemma_create_many(a, b, urls, ttl, now, codes, c, n);
    }
}

proof fn lemma_flush(a: World, b: World, c: Seq<char>, n: Option<i64>)
    requires
        sound(a),
        steady(a.s, c),
        told(a, c, n),
        store_laws::step_flush(a, b),
    ensures
        tallied(b, c),
{
    let codes = choose|codes: Seq<Seq<char>>| #[trigger] store::flushed_with(a.s, codes, b.s);
    let log = store_laws::whole_log(a);
    let bytes = store::hit_lines(codes, a.s.dirty, a.s.instance);
    assert forall|k: int| 0 <= k < codes.len() implies a.s.dirty.contains_key(
        #[trigger] codes[k],
    ) by {
        assert(a.s.dirty.dom().contains(codes[k]));
    }
    assert(store_laws::whole_log(b) =~= log + bytes);
    let k = match n {
        Some(k) => Some(k.wrapping_add(among(codes, a.s.dirty, c))),
        None => None,
    };
    if codes.contains(c) {
        let j = choose|j: int| 0 <= j < codes.len() && codes[j] == c;
        assert(a.s.dirty.contains_key(codes[j]));
    } else if a.s.dirty.contains_key(c) {
        assert(a.s.dirty.dom().contains(c));
        let j = choose|j: int| 0 <= j < codes.len() && #[trigger] codes[j] == c;
        assert(codes.contains(c));
    }
    assert forall|m: StoreView, t: StoreView|
        bare(m, c) && #[trigger] store::reopened(m, b.snap, log + bytes, t) implies says(
        t,
        c,
        k,
    ) by {
        store_laws::lemma_longer_log(m, a.snap, log, bytes, t);
        let was = choose|was: StoreView| #[trigger]
            store::reopened(m, a.snap, log, was) && #[trigger] store::replays(
                was,
                aof::lines(bytes),
                t,
            );
        assert(says(was, c, n));
        lemma_hits_said(a.s, codes, was, t, c, n);
    }
    assert(told(b, c, k));
}

/// What a snapshot says of a code.
proof fn lemma_snap_said(
    s: StoreView,
    codes: Seq<Seq<char>>,
    m: StoreView,
    t: StoreView,
    c: Seq<char>,
)
    requires
        forall|k: int| 0 <= k < codes.len() ==> store_laws::loggable(#[trigger] codes[k]),
        bare(m, c),
        store::replays(m, aof::lines(store::snap_lines(codes, s.rows)), t),
    ensures
        says(
            t,
            c,
            if codes.contains(c) {
                Some(s.rows[c].oh)
            } else {
                None
            },
        ),
    decreases codes.len(),
{
    let bytes = store::snap_lines(codes, s.rows);
    if codes.len() == 0 {
        assert(aof::lines(bytes) =~= Seq::<Seq<u8>>::empty());
    } else {
        let before = codes.drop_last();
        let x = codes.last();
        let r = s.rows[x];
        let prev = store::snap_lines(before, s.rows);
        let line = store::row_line_of(x, r, r.oh);
        assert(codes[codes.len() - 1] == x);
        assert forall|k: int| 0 <= k < before.len() implies store_laws::loggable(
            #[trigger] before[k],
        ) by {
            assert(before[k] == codes[k]);
        }
        store_laws::lemma_snap_torn(s, before);
        codec_laws::law_row_is_one_line(
            encode_utf8(x),
            encode_utf8(r.u),
            r.a as int,
            r.e as int,
            r.i as int,
            r.oh as int,
        );
        store_laws::lemma_torn_after(prev, line);
        let all = aof::lines(bytes);
        assert(all.drop_last() =~= aof::lines(prev));
        let mid = choose|mid: StoreView|
            store::replays(m, all.drop_last(), mid) && #[trigger] store::line_applies(
                mid,
                all.last(),
                t,
            );
        lemma_snap_said(s, before, m, mid, c);
        store_laws::law_row_line(mid, x, r, r.oh, t);
        if before.contains(c) {
            let k = choose|k: int| 0 <= k < before.len() && before[k] == c;
            assert(codes[k] == c);
        }
        if codes.contains(c) && x != c {
            let k = choose|k: int| 0 <= k < codes.len() && codes[k] == c;
            assert(before[k] == c);
        }
    }
}

/// A snapshot that takes the place of the log has the hits of every link that this
/// instance owns, whatever was done before.
pub proof fn lemma_compact(a: World, b: World, c: Seq<char>)
    requires
        sound(a),
        store_laws::step_compact(a, b),
    ensures
        tallied(b, c),
{
    let codes = choose|codes: Seq<Seq<char>>| #[trigger]
        store::enumerates(codes, store::own_codes(a.s)) && b.snap == store::snap_lines(
            codes,
            a.s.rows,
        );
    assert forall|k: int| 0 <= k < codes.len() implies store_laws::loggable(#[trigger] codes[k]) by {
        assert(store::own_codes(a.s).contains(codes[k]));
    }
    let none = Seq::<u8>::empty();
    assert(store_laws::whole_log(b) =~= none);
    assert(aof::lines(none) =~= Seq::<Seq<u8>>::empty());
    let n = if codes.contains(c) {
        Some(a.s.rows[c].oh)
    } else {
        None
    };
    assert forall|m: StoreView, t: StoreView|
        bare(m, c) && #[trigger] store::reopened(m, b.snap, store_laws::whole_log(b), t) implies says(
        t,
        c,
        n,
    ) by {
        let mid = choose|mid: StoreView| #[trigger]
            store::replays(m, aof::lines(b.snap), mid) && #[trigger] store::replays(
                mid,
                aof::lines(store_laws::whole_log(b)),
                t,
            );
        assert(mid == t);
        lemma_snap_said(a.s, codes, m, t, c);
    }
    if owns(b.s, c) {
        assert(store::own_codes(a.s).contains(c));
        let k = choose|k: int| 0 <= k < codes.len() && #[trigger] codes[k] == c;
        assert(codes.contains(c));
    }
    assert(told(b, c, n));
}

proof fn lemma_other(a: World, b: World, c: Seq<char>, n: Option<i64>)
    requires
        sound(a),
        told(a, c, n),
        step_other(a, b, c),
    ensures
        tallied(b, c),
{
    let log = store_laws::whole_log(a);
    if exists|code: Seq<char>, url: Seq<char>, ttl: i64, has_ttl: bool, now: i64, r: MutResult|
        #[trigger] store::updated(a.s, code, url, ttl, has_ttl, now, r, b.s) && (code != c || r
            != MutResult::Done) {
        let (code, url, ttl, has_ttl, now, r) = choose|
            code: Seq<char>,
            url: Seq<char>,
            ttl: i64,
            has_ttl: bool,
            now: i64,
            r: MutResult,
        |
            #[trigger] store::updated(a.s, code, url, ttl, has_ttl, now, r, b.s) && (code != c || r
                != MutResult::Done);
        if r == MutResult::Done {
            let row = b.s.rows[code];
            assert(store_laws::whole_log(b) =~= log + store::row_line_of(code, row, 0) + seq![NL]);
            lemma_row(a.snap, log, code, row, 0, c, n);
        }
        assert(told(b, c, n));
    } else {
        let (code, r) = choose|code: Seq<char>, r: MutResult|
            #[trigger] store::removed(a.s, code, r, b.s);
        if r == MutResult::Done {
            assert(store_laws::whole_log(b) =~= log + codec::del_bytes(encode_utf8(code)) + seq![
                NL,
            ]);
            lemma_tombstone(a.snap, log, code, c, n);
            let k = if code == c {
                None
            } else {
                n
            };
            assert(told(b, c, k));
        } else {
            assert(told(b, c, n));
        }
    }
}

proof fn lemma_reopen(a: World, b: World, c: Seq<char>, n: Option<i64>)
    requires
        sound(a),
        told(a, c, n),
        store_laws::step_reopen(a, b),
    ensures
        tallied(b, c),
{
    store_laws::lemma_reopened_world(a, b);
    let m = choose|m: StoreView| #[trigger]
        store::reopened(
            store_laws::blank(a.s.instance),
            a.snap,
            store_laws::whole_log(a),
            m,
        ) && b.s == (StoreView { track: b.s.track, ..m });
    assert(store_laws::evenly(m));
    assert(bare(store_laws::blank(a.s.instance), c));
    assert(says(m, c, n));
    assert(told(b, c, n));
}

/// Whatever is done but an update of a code, the files keep its hits.
pub proof fn lemma_sparing(a: World, b: World, c: Seq<char>)
    requires
        sound(a),
        steady(a.s, c),
        tallied(a, c),
        step_sparing(a, b, c),
    ensures
        tallied(b, c),
{
    reveal(step_sparing);
    let n = choose|n: Option<i64>| #[trigger] told(a, c, n);
    if store_laws::step_create(a, b) {
        lemma_create(a, b, c, n);
    } else if store_laws::step_resolve(a, b) {
        let (code, now, r) = choose|code: Seq<char>, now: i64, r: Option<Seq<char>>|
            #[trigger] store::resolved(a.s, code, now, r, b.s);
        assert(store_laws::whole_log(b) == store_laws::whole_log(a));
        assert(told(b, c, n));
    } else if store_laws::step_flush(a, b) {
        lemma_flush(a, b, c, n);
    } else if store_laws::step_write(a, b) {
        assert(store_laws::whole_log(b) =~= store_laws::whole_log(a));
        assert(told(b, c, n));
    } else if store_laws::step_compact(a, b) {
        lemma_compact(a, b, c);
    } else if store_laws::step_reopen(a, b) {
        lemma_reopen(a, b, c, n);
    } else {
        lemma_other(a, b, c, n);
    }
}

/// In a store of a single instance a code has hits that are not logged only while it is
/// stored.
proof fn lemma_stays_steady(a: World, b: World, c: Seq<char>)
    requires
        store_laws::kept(a),
        steady(a.s, c),
        step_sparing(a, b, c),
    ensures
        steady(b.s, c),
{
    reveal(step_sparing);
    if store_laws::step_create(a, b) {
        if exists|urls: Seq<Seq<char>>, ttl: i64, now: i64, codes: Seq<Seq<char>>|
            #[trigger] store::shortened_many(a.s, urls, ttl, now, codes, b.s) {
            let (urls, ttl, now, codes) = choose|
                urls: Seq<Seq<char>>,
                ttl: i64,
                now: i64,
                codes: Seq<Seq<char>>,
            | #[trigger] store::shortened_many(a.s, urls, ttl, now, codes, b.s);
            lemma_many_kept(
                a.s.rows,
                codes,
                urls,
                now,
                store::expiry(now, ttl),
                a.s.instance,
                c,
            );
            if codes.contains(c) {
                let j = choose|j: int| 0 <= j < codes.len() && codes[j] == c;
                assert(!a.s.rows.contains_key(codes[j]));
            }
        }
    } else if store_laws::step_reopen(a, b) {
        store_laws::lemma_reopened_world(a, b);
    } else if store_laws::step_flush(a, b) {
        let codes = choose|codes: Seq<Seq<char>>| #[trigger] store::flushed_with(a.s, codes, b.s);
    }
}

proof fn lemma_history_since(h: Seq<World>, from: int, c: Seq<char>)
    requires
        0 <= from < h.len(),
        store_laws::starts(h[0]),
        forall|k: int| 0 < k < h.len() ==> store_laws::step(h[k - 1], #[trigger] h[k]),
        from == 0 || store_laws::step_compact(h[from - 1], h[from]),
        forall|k: int| from < k < h.len() ==> step_sparing(h[k - 1], #[trigger] h[k], c),
    ensures
        store_laws::kept(h.last()),
        steady(h.last().s, c),
        tallied(h.last(), c),
    decreases h.len(),
{
    store_laws::lemma_history(h);
    if h.len() == 1 {
        lemma_start(h[0], c);
    } else {
        let before = h.drop_last();
        assert forall|k: int| 0 < k < before.len() implies store_laws::step(
            before[k - 1],
            #[trigger] before[k],
        ) by {
            assert(before[k] == h[k] && before[k - 1] == h[k - 1]);
        }
        store_laws::lemma_history(before);
        let a = before.last();
        let b = h[h.len() - 1];
        assert(a == h[h.len() - 2]);
        assert(sound(a));
        if h.len() == from + 1 {
            lemma_compact(a, b, c);
        } else {
            assert forall|k: int| from < k < before.len() implies step_sparing(
                before[k - 1],
                #[trigger] before[k],
                c,
            ) by {
                assert(before[k] == h[k] && before[k - 1] == h[k - 1]);
            }
            lemma_history_since(before, from, c);
            assert(step_sparing(h[h.len() - 2], b, c));
            lemma_sparing(a, b, c);
            lemma_stays_steady(a, b, c);
        }
    }
}

/// The hits of a link come back too, but for those that are not logged yet: whatever was
/// done since the store was first opened or last compacted, closing and opening it and
/// removing and updating other links among it, as long as this one was neither updated nor
/// removed before its hits were logged.
pub proof fn law_hits_come_back(h: Seq<World>, from: int, c: Seq<char>, m: StoreView)
    requires
        0 <= from < h.len(),
        store_laws::starts(h[0]),
        forall|k: int| 0 < k < h.len() ==> store_laws::step(h[k - 1], #[trigger] h[k]),
        from == 0 || store_laws::step_compact(h[from - 1], h[from]),
        forall|k: int| from < k < h.len() ==> step_sparing(h[k - 1], #[trigger] h[k], c),
        store::reopened(
            store_laws::blank(h.last().s.instance),
            h.last().snap,
            store_laws::whole_log(h.last()),
            m,
        ),
    ensures
        m.rows.contains_key(c) <==> h.last().s.rows.contains_key(c),
        h.last().s.rows.contains_key(c) ==> h.last().s.rows[c].h == m.rows[c].h.wrapping_add(
            store_laws::unlogged(h.last().s, c),
        ),
{
    lemma_history_since(h, from, c);
    let w = h.last();
    let n = choose|n: Option<i64>| #[trigger] told(w, c, n);
    assert(bare(store_laws::blank(w.s.instance), c));
    assert(store_laws::agrees(w.s, m));
    assert(says(m, c, n));
}

/// Once a store is closed and opened again, it has every link as it was, hits and all.
pub proof fn law_reopened_store_is_the_same(h: Seq<World>, from: int, c: Seq<char>)
    requires
        0 <= from < h.len() - 1,
        store_laws::starts(h[0]),
        forall|k: int| 0 < k < h.len() ==> store_laws::step(h[k - 1], #[trigger] h[k]),
        from == 0 || store_laws::step_compact(h[from - 1], h[from]),
        forall|k: int| from < k < h.len() ==> step_sparing(h[k - 1], #[trigger] h[k], c),
        store_laws::step_reopen(h[h.len() - 2], h.last()),
    ensures
        ({
            let s = h[h.len() - 2].s;
            let t = h.last().s;
            &&& s.rows.contains_key(c) <==> t.rows.contains_key(c)
            &&& s.rows.contains_key(c) ==> store::link_of(c, s.rows[c]) == store::link_of(
                c,
                t.rows[c],
            )
        }),
{
    let before = h.drop_last();
    let a = before.last();
    let b = h.last();
    assert(a == h[h.len() - 2]);
    assert forall|k: int| 0 < k < before.len() implies store_laws::step(
        before[k - 1],
        #[trigger] before[k],
    ) by {
        assert(before[k] == h[k] && before[k - 1] == h[k - 1]);
    }
    assert forall|k: int| from < k < before.len() implies step_sparing(
        before[k - 1],
        #[trigger] before[k],
        c,
    ) by {
        assert(before[k] == h[k] && before[k - 1] == h[k - 1]);
    }
    store_laws::lemma_reopened_world(a, b);
    let m = choose|m: StoreView| #[trigger]
        store::reopened(
            store_laws::blank(a.s.instance),
            a.snap,
            store_laws::whole_log(a),
            m,
        ) && b.s == (StoreView { track: b.s.track, ..m });
    law_hits_come_back(before, from, c, m);
    store_laws::law_links_come_back(before, m);
    assert(store_laws::agrees(a.s, m));
}

} // verus!
