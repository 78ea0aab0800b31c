//! What instances that share a directory have of each other's links.

use vstd::prelude::*;
use vstd::utf8::*;

use crate::aof;
use crate::aof::{AofView, NL};
use crate::codec;
use crate::codec_laws;
use crate::hits_laws;
use crate::store;
use crate::store::{MutResult, Row, StoreView};
use crate::store_laws;
use crate::store_laws::World;

verus! {

/// Two rows are the same link, whatever their hits.
pub open spec fn alike(a: Row, b: Row) -> bool {
    a.u == b.u && a.a == b.a && a.e == b.e && a.i == b.i
}

/// Two stores have the same link under a code, or both have none.
pub open spec fn same_link(s: StoreView, t: StoreView, c: Seq<char>) -> bool {
    &&& s.rows.contains_key(c) <==> t.rows.contains_key(c)
    &&& s.rows.contains_key(c) ==> alike(s.rows[c], t.rows[c])
}

proof fn lemma_line_on_both(
    s1: StoreView,
    s2: StoreView,
    line: Seq<u8>,
    t1: StoreView,
    t2: StoreView,
    c: Seq<char>,
)
    requires
        store::line_applies(s1, line, t1),
        store::line_applies(s2, line, t2),
    ensures
        (same_link(t1, s1, c) && same_link(t2, s2, c)) || same_link(t1, t2, c),
{
}

/// What the same lines make of two stores: under each code they leave both as they
/// were, or make both the same.
proof fn lemma_lines_on_both(
    s1: StoreView,
    s2: StoreView,
    lines: Seq<Seq<u8>>,
    t1: StoreView,
    t2: StoreView,
    c: Seq<char>,
)
    requires
        store::replays(s1, lines, t1),
        store::replays(s2, lines, t2),
    ensures
        (same_link(t1, s1, c) && same_link(t2, s2, c)) || same_link(t1, t2, c),
    decreases lines.len(),
{
    if lines.len() > 0 {
        let m1 = choose|m: StoreView|
            store::replays(s1, lines.drop_last(), m) && #[trigger] store::line_applies(
                m,
                lines.last(),
                t1,
            );
        let m2 = choose|m: StoreView|
            store::replays(s2, lines.drop_last(), m) && #[trigger] store::line_applies(
                m,
                lines.last(),
                t2,
            );
        lemma_lines_on_both(s1, s2, lines.drop_last(), m1, m2, c);
        lemma_line_on_both(m1, m2, lines.last(), t1, t2, c);
    }
}

proof fn lemma_line_can_apply(s: StoreView, line: Seq<u8>) -> (t: StoreView)
    requires
        s.stray.dom().finite(),
    ensures
        store::line_applies(s, line, t),
        t.stray.dom().finite(),
{
    let (o, counts) = codec::op_of(line);
    if !counts {
        s
    } else if store::crowded(s, o) {
        let k = s.stray.dom().choose();
        assert(s.stray.contains_key(k)) by {
            if s.stray.dom() =~= Set::empty() {
                assert(s.stray.dom().len() == 0);
            }
        }
        let room = StoreView { stray: s.stray.remove(k), ..s };
        assert(room.stray.dom() =~= s.stray.dom().remove(k));
        let t = store::applied(room, o);
        assert(t.stray.dom() =~= room.stray.dom().insert(o.h));
        t
    } else {
        let t = store::applied(s, o);
        if o.x.len() > 0 {
            assert(t.stray.dom() =~= s.stray.dom().remove(o.x));
        } else if o.h.len() > 0 {
            if !s.rows.contains_key(o.h) {
                assert(t.stray.dom() =~= s.stray.dom().insert(o.h));
            }
        } else if o.c.len() > 0 {
            assert(t.stray.dom() =~= s.stray.dom().remove(o.c));
        }
        t
    }
}

proof fn lemma_lines_can_replay(s: StoreView, lines: Seq<Seq<u8>>) -> (t: StoreView)
    requires
        s.stray.dom().finite(),
    ensures
        store::replays(s, lines, t),
        t.stray.dom().finite(),
    decreases lines.len(),
{
    if lines.len() == 0 {
        s
    } else {
        let mid = lemma_lines_can_replay(s, lines.drop_last());
        let t = lemma_line_can_apply(mid, lines.last());
        assert(store::line_applies(mid, lines.last(), t));
        t
    }
}

/// A line of the log of another instance: neither the links nor the hits in it are this
/// one's, and the codes of the links can be logged.
pub open spec fn foreign(line: Seq<u8>, instance: i32) -> bool {
    let (o, counts) = codec::op_of(line);
    counts ==> {
        &&& o.c.len() > 0 ==> o.i as i32 != instance && store_laws::loggable(o.c)
        &&& o.h.len() > 0 ==> o.i != instance
    }
}

/// Lines of the logs of other instances are taken in, in whatever pieces they are
/// read.
pub open spec fn step_follow(a: World, b: World) -> bool {
    &&& a.snap == b.snap
    &&& a.log == b.log
    &&& exists|s: StoreView, lines: Seq<Seq<u8>>|
        {
            &&& #[trigger] store::replays(s, lines, b.s)
            &&& s == StoreView { readers: s.readers, last_poll: s.last_poll, ..a.s }
            &&& forall|k: int|
                0 <= k < lines.len() ==> foreign(#[trigger] lines[k], a.s.instance)
        }
}

/// Something happens to the store of an instance among others.
pub open spec fn step_among(a: World, b: World) -> bool {
    store_laws::step(a, b) || step_follow(a, b)
}

/// `m` has the links that `s` owns.
spec fn has_own(s: StoreView, m: StoreView) -> bool {
    forall|c: Seq<char>| #[trigger] hits_laws::owns(s, c) ==> same_link(m, s, c)
}

/// What holds of the store of an instance among others and its files all the time.
spec fn own_kept(w: World) -> bool {
    &&& w.s.log is Some
    &&& 0 <= w.s.instance < store::MAX_INSTANCES
    &&& forall|c: Seq<char>| #[trigger] w.s.rows.contains_key(c) ==> store_laws::loggable(c)
    &&& forall|c: Seq<char>| #[trigger] w.s.dirty.contains_key(c) ==> store_laws::loggable(c)
    &&& aof::torn(w.snap) == Seq::<u8>::empty()
    &&& aof::torn(store_laws::whole_log(w)) == Seq::<u8>::empty()
    &&& forall|m: StoreView| #[trigger]
        store::reopened(
            store_laws::blank(w.s.instance),
            w.snap,
            store_laws::whole_log(w),
            m,
        ) ==> has_own(w.s, m) && own_files(m)
}

/// What comes of files that this instance wrote alone: it counted all hits, and the codes
/// can be logged.
spec fn own_files(m: StoreView) -> bool {
    &&& store_laws::evenly(m)
    &&& forall|c: Seq<char>| #[trigger] m.rows.contains_key(c) ==> store_laws::loggable(c)
}

/// A row of this instance and its line.
proof fn lemma_own_row(a: World, b: World, c: Seq<char>, r: Row)
    requires
        own_kept(a),
        store_laws::loggable(c),
        b.s.rows == a.s.rows.insert(c, r),
        b.s.dirty == a.s.dirty,
        b.s.instance == a.s.instance,
        b.s.log is Some,
        b.snap == a.snap,
        store_laws::whole_log(b) == store_laws::whole_log(a) + store::row_line_of(c, r, 0) + seq![
            NL,
        ],
    ensures
        own_kept(b),
{
    let line = store::row_line_of(c, r, 0);
    codec_laws::law_row_is_one_line(
        encode_utf8(c),
        encode_utf8(r.u),
        r.a as int,
        r.e as int,
        r.i as int,
        0,
    );
    store_laws::lemma_torn_after(store_laws::whole_log(a), line);
    assert forall|m: StoreView| #[trigger]
        store::reopened(
            store_laws::blank(b.s.instance),
            b.snap,
            store_laws::whole_log(b),
            m,
        ) implies has_own(b.s, m) && own_files(m) by {
        store_laws::lemma_one_more(
            store_laws::blank(a.s.instance),
            a.snap,
            store_laws::whole_log(a),
            line,
            m,
        );
        let was = choose|was: StoreView| #[trigger]
            store::reopened(
                store_laws::blank(a.s.instance),
                a.snap,
                store_laws::whole_log(a),
                was,
            ) && #[trigger] store::line_applies(was, line, m);
        assert(has_own(a.s, was));
        store_laws::law_row_line(was, c, r, 0, m);
        assert forall|x: Seq<char>| #[trigger] hits_laws::owns(b.s, x) implies same_link(m, b.s, x) by {
            if x != c {
                assert(hits_laws::owns(a.s, x));
            }
        }
    }
}

proof fn lemma_own_same(a: World, b: World)
    requires
        own_kept(a),
        forall|c: Seq<char>| #[trigger] b.s.rows.contains_key(c) ==> store_laws::loggable(c),
        forall|c: Seq<char>| #[trigger] b.s.dirty.contains_key(c) ==> store_laws::loggable(c),
        forall|c: Seq<char>| #[trigger] hits_laws::owns(b.s, c) ==> hits_laws::owns(a.s, c) && same_link(a.s, b.s, c),
        b.s.instance == a.s.instance,
        b.s.log is Some,
        b.snap == a.snap,
        store_laws::whole_log(b) == store_laws::whole_log(a),
    ensures
        own_kept(b),
{
    assert forall|m: StoreView| #[trigger]
        store::reopened(
            store_laws::blank(b.s.instance),
            b.snap,
            store_laws::whole_log(b),
            m,
        ) implies has_own(b.s, m) && own_files(m) by {
        assert(has_own(a.s, m));
    }
}

proof fn lemma_own_many(
    a: World,
    b: World,
    codes: Seq<Seq<char>>,
    urls: Seq<Seq<char>>,
    now: i64,
    exp: i64,
)
    requires
        own_kept(a),
        forall|k: int|
            0 <= k < codes.len() ==> store::generated(a.s.instance as int, #[trigger] codes[k]),
        b.s.rows == store::many_rows(a.s.rows, codes, urls, now, exp, a.s.instance),
        b.s.dirty == a.s.dirty,
        b.s.instance == a.s.instance,
        b.s.log is Some,
        b.snap == a.snap,
        store_laws::whole_log(b) == store_laws::whole_log(a) + store::many_lines(
            codes,
            urls,
            now,
            exp,
            a.s.instance,
        ),
    ensures
        own_kept(b),
    decreases codes.len(),
{
    if codes.len() == 0 {
        assert(store_laws::whole_log(b) =~= store_laws::whole_log(a));
        lemma_own_same(a, b);
    } else {
        let before = codes.drop_last();
        let c = codes.last();
        let r = store::new_row(urls[codes.len() - 1], now, exp, a.s.instance);
        let lines = store::many_lines(before, urls, now, exp, a.s.instance);
        let mid = World {
            s: StoreView {
                rows: store::many_rows(a.s.rows, before, urls, now, exp, a.s.instance),
                log: Some(
                    AofView { queued: a.s.log->0.queued + lines, flushed: a.s.log->0.flushed },
                ),
                ..a.s
            },
            ..a
        };
        assert(store_laws::whole_log(mid) =~= store_laws::whole_log(a) + lines);
        assert forall|k: int| 0 <= k < before.len() implies store::generated(
            a.s.instance as int,
            #[trigger] before[k],
        ) by {
            assert(before[k] == codes[k]);
        }
        lemma_own_many(a, mid, before, urls, now, exp);
        assert(codes[codes.len() - 1] == c);
        store_laws::lemma_generated_loggable(a.s.instance as int, c);
        assert(store_laws::whole_log(b) =~= store_laws::whole_log(mid) + store::row_line_of(c, r, 0)
            + seq![NL]);
        lemma_own_row(mid, b, c, r);
    }
}

proof fn lemma_own_created(
    a: World,
    b: World,
    url: Seq<char>,
    alias: Option<Seq<char>>,
    ttl: i64,
    now: i64,
    r: Option<Seq<char>>,
)
    requires
        own_kept(a),
        a.snap == b.snap,
        a.log == b.log,
        store::shortened(a.s, url, alias, ttl, now, r, b.s),
        r matches Some(c) ==> store_laws::loggable(c),
    ensures
        own_kept(b),
{
    match r {
        Some(c) => {
            let row = store::new_row(url, now, store::expiry(now, ttl), a.s.instance);
            let l = store::queued(a.s.log, store::row_line_of(c, row, 0))->0;
            store_laws::lemma_spill(a, l);
            assert(store_laws::whole_log(b) =~= store_laws::whole_log(a) + store::row_line_of(
                c,
                row,
                0,
            ) + seq![NL]);
            lemma_own_row(a, b, c, row);
        },
        None => {
            assert(a == b);
        },
    }
}

proof fn lemma_own_created_many(
    a: World,
    b: World,
    urls: Seq<Seq<char>>,
    ttl: i64,
    now: i64,
    codes: Seq<Seq<char>>,
)
    requires
        own_kept(a),
        a.snap == b.snap,
        a.log == b.log,
        store::shortened_many(a.s, urls, ttl, now, codes, b.s),
    ensures
        own_kept(b),
{
    let exp = store::expiry(now, ttl);
    let lines = store::many_lines(codes, urls, now, exp, a.s.instance);
    let l = store::queued_raw(a.s.log, lines)->0;
    store_laws::lemma_spill(a, l);
    assert(store_laws::whole_log(b) =~= store_laws::whole_log(a) + lines);
    lemma_own_many(a, b, codes, urls, now, exp);
}

proof fn lemma_own_create(a: World, b: World)
    requires
        own_kept(a),
        store_laws::step_create(a, b),
    ensures
        own_kept(b),
{
    if exists|url: Seq<char>, alias: Option<Seq<char>>, ttl: i64, now: i64, r: Option<Seq<char>>|
        #[trigger] store::shortened(a.s, url, alias, ttl, now, r, b.s) && (r matches Some(c)
            ==> store_laws::loggable(c)) {
        let (url, alias, ttl, now, r) = choose|
            url: Seq<char>,
            alias: Option<Seq<char>>,
            ttl: i64,
            now: i64,
            r: Option<Seq<char>>,
        |
            #[trigger] store::shortened(a.s, url, alias, ttl, now, r, b.s) && (r matches Some(c)
                ==> store_laws::loggable(c));
        lemma_own_created(a, b, url, alias, ttl, now, r);
    } else {
        let (urls, ttl, now, codes) = choose|
            urls: Seq<Seq<char>>,
            ttl: i64,
            now: i64,
            codes: Seq<Seq<char>>,
        | #[trigger] store::shortened_many(a.s, urls, ttl, now, codes, b.s);
        lemma_own_created_many(a, b, urls, ttl, now, codes);
    }
}

proof fn lemma_own_resolve(a: World, b: World)
    requires
        own_kept(a),
        store_laws::step_resolve(a, b),
    ensures
        own_kept(b),
{
    let (code, now, r) = choose|code: Seq<char>, now: i64, r: Option<Seq<char>>|
        #[trigger] store::resolved(a.s, code, now, r, b.s);
    assert(store_laws::whole_log(b) == store_laws::whole_log(a));
    lemma_own_same(a, b);
}

/// Lines of hits change no link.
proof fn lemma_hits_change_nothing(
    s: StoreView,
    codes: Seq<Seq<char>>,
    m: StoreView,
    t: StoreView,
    x: Seq<char>,
)
    requires
        forall|c: Seq<char>| #[trigger] s.dirty.contains_key(c) ==> store_laws::loggable(c),
        forall|k: int| 0 <= k < codes.len() ==> s.dirty.contains_key(#[trigger] codes[k]),
        store::replays(m, aof::lines(store::hit_lines(codes, s.dirty, s.instance)), t),
        m.instance == s.instance,
    ensures
        same_link(t, m, x),
        own_files(m) ==> own_files(t),
        t.instance == m.instance,
    decreases codes.len(),
{
    let bytes = store::hit_lines(codes, s.dirty, s.instance);
    if codes.len() == 0 {
        assert(aof::lines(bytes) =~= Seq::<Seq<u8>>::empty());
    } else {
        let before = codes.drop_last();
        let c = codes.last();
        assert(codes[codes.len() - 1] == c);
        let d = s.dirty[c];
        let prev = store::hit_lines(before, s.dirty, s.instance);
        let line = codec::hit_bytes(encode_utf8(c), d as int, s.instance as int);
        codec_laws::law_hit_is_one_line(encode_utf8(c), d as int, s.instance as int);
        assert forall|k: int| 0 <= k < before.len() implies s.dirty.contains_key(
            #[trigger] before[k],
        ) by {
            assert(before[k] == codes[k]);
        }
        store_laws::lemma_hits_torn(s, before);
        store_laws::lemma_torn_after(prev, line);
        let all = aof::lines(bytes);
        assert(all.drop_last() =~= aof::lines(prev));
        let mid = choose|mid: StoreView|
            store::replays(m, all.drop_last(), mid) && #[trigger] store::line_applies(
                mid,
                all.last(),
                t,
            );
        lemma_hits_change_nothing(s, before, m, mid, x);
        codec_laws::law_hit_reads_back(c, d as int, s.instance as int);
    }
}

proof fn lemma_reopened_frame(s: StoreView, snap: Seq<u8>, log: Seq<u8>, t: StoreView)
    requires
        store::reopened(s, snap, log, t),
    ensures
        t.instance == s.instance,
{
    let mid = choose|mid: StoreView| #[trigger]
        store::replays(s, aof::lines(snap), mid) && #[trigger] store::replays(
            mid,
            aof::lines(log),
            t,
        );
    store_laws::lemma_replays_frame(s, aof::lines(snap), mid);
    store_laws::lemma_replays_frame(mid, aof::lines(log), t);
}

proof fn lemma_own_flush(a: World, b: World)
    requires
        own_kept(a),
        store_laws::step_flush(a, b),
    ensures
        own_kept(b),
{
    let codes = choose|codes: Seq<Seq<char>>| #[trigger] store::flushed_with(a.s, codes, b.s);
    let bytes = store::hit_lines(codes, a.s.dirty, a.s.instance);
    assert forall|k: int| 0 <= k < codes.len() implies a.s.dirty.contains_key(
        #[trigger] codes[k],
    ) by {
        assert(a.s.dirty.dom().contains(codes[k]));
    }
    store_laws::lemma_hits_torn(a.s, codes);
    assert(store_laws::whole_log(b) =~= store_laws::whole_log(a) + bytes);
    aof::law_lines_of_parts(store_laws::whole_log(a), bytes);
    assert(aof::torn(store_laws::whole_log(a)) + bytes =~= bytes);
    assert forall|m: StoreView| #[trigger]
        store::reopened(
            store_laws::blank(b.s.instance),
            b.snap,
            store_laws::whole_log(b),
            m,
        ) implies has_own(b.s, m) && own_files(m) by {
        store_laws::lemma_longer_log(
            store_laws::blank(a.s.instance),
            a.snap,
            store_laws::whole_log(a),
            bytes,
            m,
        );
        let was = choose|was: StoreView| #[trigger]
            store::reopened(
                store_laws::blank(a.s.instance),
                a.snap,
                store_laws::whole_log(a),
                was,
            ) && #[trigger] store::replays(was, aof::lines(bytes), m);
        assert(has_own(a.s, was));
        lemma_reopened_frame(store_laws::blank(a.s.instance), a.snap, store_laws::whole_log(a), was);
        lemma_hits_change_nothing(a.s, codes, was, m, Seq::empty());
        assert forall|x: Seq<char>| #[trigger] hits_laws::owns(b.s, x) implies same_link(m, b.s, x) by {
            assert(hits_laws::owns(a.s, x));
            lemma_hits_change_nothing(a.s, codes, was, m, x);
        }
    }
}

proof fn lemma_own_compact(a: World, b: World)
    requires
        own_kept(a),
        store_laws::step_compact(a, b),
    ensures
        own_kept(b),
{
    let codes = choose|codes: Seq<Seq<char>>| #[trigger]
        store::enumerates(codes, store::own_codes(a.s)) && b.snap == store::snap_lines(
            codes,
            a.s.rows,
        );
    assert forall|k: int| 0 <= k < codes.len() implies store_laws::loggable(#[trigger] codes[k]) by {
        assert(store::own_codes(a.s).contains(codes[k]));
    }
    store_laws::lemma_snap_torn(a.s, codes);
    let none = Seq::<u8>::empty();
    assert(store_laws::whole_log(b) =~= none);
    assert(aof::lines(none) =~= Seq::<Seq<u8>>::empty());
    assert forall|m: StoreView| #[trigger]
        store::reopened(
            store_laws::blank(b.s.instance),
            b.snap,
            store_laws::whole_log(b),
            m,
        ) implies has_own(b.s, m) && own_files(m) by {
        let mid = choose|mid: StoreView| #[trigger]
            store::replays(store_laws::blank(b.s.instance), aof::lines(b.snap), mid)
                && #[trigger] store::replays(mid, aof::lines(store_laws::whole_log(b)), m);
        assert(mid == m);
        store_laws::lemma_snap_replay(a.s, codes, m);
        assert(own_files(m)) by {
            assert forall|c: Seq<char>| #[trigger] m.rows.contains_key(c) implies m.rows[c].h
                == m.rows[c].oh && store_laws::loggable(c) by {
                assert(codes.contains(c));
                let k = choose|k: int| 0 <= k < codes.len() && codes[k] == c;
                assert(store_laws::loggable(codes[k]));
            }
        }
        assert forall|c: Seq<char>| #[trigger] hits_laws::owns(b.s, c) implies same_link(m, b.s, c) by {
            assert(store::own_codes(a.s).contains(c));
            let k = choose|k: int| 0 <= k < codes.len() && #[trigger] codes[k] == c;
            assert(codes.contains(c));
        }
    }
}

proof fn lemma_own_removed(a: World, b: World, code: Seq<char>)
    requires
        own_kept(a),
        a.snap == b.snap,
        a.log == b.log,
        store::removed(a.s, code, MutResult::Done, b.s),
    ensures
        own_kept(b),
{
    let line = codec::del_bytes(encode_utf8(code));
    codec_laws::law_tombstone_is_one_line(encode_utf8(code));
    store_laws::lemma_torn_after(store_laws::whole_log(a), line);
    assert(store_laws::whole_log(b) =~= store_laws::whole_log(a) + line + seq![NL]);
    assert forall|m: StoreView| #[trigger]
        store::reopened(
            store_laws::blank(b.s.instance),
            b.snap,
            store_laws::whole_log(b),
            m,
        ) implies has_own(b.s, m) && own_files(m) by {
        store_laws::lemma_one_more(
            store_laws::blank(a.s.instance),
            a.snap,
            store_laws::whole_log(a),
            line,
            m,
        );
        let was = choose|was: StoreView| #[trigger]
            store::reopened(
                store_laws::blank(a.s.instance),
                a.snap,
                store_laws::whole_log(a),
                was,
            ) && #[trigger] store::line_applies(was, line, m);
        assert(has_own(a.s, was));
        store_laws::law_tombstone_line(was, code, m);
        assert forall|x: Seq<char>| #[trigger] hits_laws::owns(b.s, x) implies same_link(m, b.s, x) by {
            assert(hits_laws::owns(a.s, x));
        }
    }
}

proof fn lemma_own_change(a: World, b: World)
    requires
        own_kept(a),
        store_laws::step_change(a, b),
    ensures
        own_kept(b),
{
    if exists|code: Seq<char>, url: Seq<char>, ttl: i64, has_ttl: bool, now: i64, r: MutResult|
        #[trigger] store::updated(a.s, code, url, ttl, has_ttl, now, r, b.s) {
        let (code, url, ttl, has_ttl, now, r) = choose|
            code: Seq<char>,
            url: Seq<char>,
            ttl: i64,
            has_ttl: bool,
            now: i64,
            r: MutResult,
        | #[trigger] store::updated(a.s, code, url, ttl, has_ttl, now, r, b.s);
        if r == MutResult::Done {
            let row = b.s.rows[code];
            assert(store_laws::whole_log(b) =~= store_laws::whole_log(a) + store::row_line_of(
                code,
                row,
                0,
            ) + seq![NL]);
            lemma_own_row(a, b, code, row);
        } else {
            assert(a == b);
        }
    } else {
        let (code, r) = choose|code: Seq<char>, r: MutResult|
            #[trigger] store::removed(a.s, code, r, b.s);
        if r == MutResult::Done {
            lemma_own_removed(a, b, code);
        } else {
            assert(a == b);
        }
    }
}

/// Lines of other instances give this one no link, and change none that it keeps.
proof fn lemma_foreign_lines(s: StoreView, lines: Seq<Seq<u8>>, t: StoreView)
    requires
        store::replays(s, lines, t),
        forall|k: int| 0 <= k < lines.len() ==> foreign(#[trigger] lines[k], s.instance),
        forall|c: Seq<char>| #[trigger] s.rows.contains_key(c) ==> store_laws::loggable(c),
    ensures
        t.instance == s.instance,
        t.log == s.log,
        t.dirty == s.dirty,
        forall|c: Seq<char>| #[trigger] t.rows.contains_key(c) ==> store_laws::loggable(c),
        forall|c: Seq<char>| #[trigger]
            hits_laws::owns(t, c) ==> hits_laws::owns(s, c) && same_link(s, t, c) && t.rows[c].oh
                == s.rows[c].oh,
    decreases lines.len(),
{
    if lines.len() > 0 {
        let mid = choose|mid: StoreView|
            store::replays(s, lines.drop_last(), mid) && #[trigger] store::line_applies(
                mid,
                lines.last(),
                t,
            );
        assert forall|k: int| 0 <= k < lines.drop_last().len() implies foreign(
            #[trigger] lines.drop_last()[k],
            s.instance,
        ) by {
            assert(lines.drop_last()[k] == lines[k]);
        }
        lemma_foreign_lines(s, lines.drop_last(), mid);
        assert(foreign(lines[lines.len() - 1], s.instance));
        assert forall|c: Seq<char>| #[trigger] hits_laws::owns(t, c) implies hits_laws::owns(s, c)
            && same_link(s, t, c) && t.rows[c].oh == s.rows[c].oh by {
            assert(hits_laws::owns(mid, c));
        }
    }
}

proof fn lemma_own_follow(a: World, b: World)
    requires
        own_kept(a),
        step_follow(a, b),
    ensures
        own_kept(b),
{
    let (s, lines) = choose|s: StoreView, lines: Seq<Seq<u8>>|
        {
            &&& #[trigger] store::replays(s, lines, b.s)
            &&& s == StoreView { readers: s.readers, last_poll: s.last_poll, ..a.s }
            &&& forall|k: int|
                0 <= k < lines.len() ==> foreign(#[trigger] lines[k], a.s.instance)
        };
    lemma_foreign_lines(s, lines, b.s);
    assert forall|c: Seq<char>| #[trigger] hits_laws::owns(b.s, c) implies hits_laws::owns(a.s, c) && same_link(
        a.s,
        b.s,
        c,
    ) by {
        assert(hits_laws::owns(s, c));
    }
    lemma_own_same(a, b);
}

/// The same files make the same links of a blank store.
proof fn lemma_files_agree(
    s: StoreView,
    snap: Seq<u8>,
    log: Seq<u8>,
    m: StoreView,
    t: StoreView,
    c: Seq<char>,
)
    requires
        store::reopened(s, snap, log, m),
        store::reopened(s, snap, log, t),
    ensures
        same_link(m, t, c),
{
    let a = choose|mid: StoreView| #[trigger]
        store::replays(s, aof::lines(snap), mid) && #[trigger] store::replays(
            mid,
            aof::lines(log),
            m,
        );
    let b = choose|mid: StoreView| #[trigger]
        store::replays(s, aof::lines(snap), mid) && #[trigger] store::replays(
            mid,
            aof::lines(log),
            t,
        );
    lemma_lines_on_both(s, s, aof::lines(snap), a, b, c);
    lemma_lines_on_both(a, b, aof::lines(log), m, t, c);
}

proof fn lemma_own_reopen(a: World, b: World)
    requires
        own_kept(a),
        store_laws::step_reopen(a, b),
    ensures
        own_kept(b),
{
    store_laws::lemma_reopened_world(a, b);
    let first = store_laws::blank(a.s.instance);
    let log = store_laws::whole_log(a);
    let m = choose|m: StoreView| #[trigger]
        store::reopened(first, a.snap, log, m) && b.s == (StoreView { track: b.s.track, ..m });
    assert(own_files(m));
    assert forall|t: StoreView| #[trigger]
        store::reopened(
            store_laws::blank(b.s.instance),
            b.snap,
            store_laws::whole_log(b),
            t,
        ) implies has_own(b.s, t) && own_files(t) by {
        assert forall|c: Seq<char>| #[trigger] hits_laws::owns(b.s, c) implies same_link(
            t,
            b.s,
            c,
        ) by {
            lemma_files_agree(first, a.snap, log, t, m, c);
        }
    }
}

proof fn lemma_own_history(h: Seq<World>)
    requires
        h.len() > 0,
        store_laws::starts(h[0]),
        forall|k: int| 0 < k < h.len() ==> step_among(h[k - 1], #[trigger] h[k]),
    ensures
        own_kept(h.last()),
    decreases h.len(),
{
    if h.len() == 1 {
        let w = h[0];
        let none = Seq::<u8>::empty();
        assert(store_laws::whole_log(w) =~= none);
        assert(aof::lines(none) =~= Seq::<Seq<u8>>::empty());
    } else {
        let before = h.drop_last();
        assert forall|k: int| 0 < k < before.len() implies step_among(
            before[k - 1],
            #[trigger] before[k],
        ) by {
            assert(before[k] == h[k] && before[k - 1] == h[k - 1]);
        }
        lemma_own_history(before);
        let a = before.last();
        let b = h[h.len() - 1];
        assert(step_among(h[h.len() - 2], b));
        reveal(store_laws::step);
        if step_follow(a, b) {
            lemma_own_follow(a, b);
        } else if store_laws::step_change(a, b) {
            lemma_own_change(a, b);
        } else if store_laws::step_create(a, b) {
            lemma_own_create(a, b);
        } else if store_laws::step_resolve(a, b) {
            lemma_own_resolve(a, b);
        } else if store_laws::step_flush(a, b) {
            lemma_own_flush(a, b);
        } else if store_laws::step_compact(a, b) {
            lemma_own_compact(a, b);
        } else if store_laws::step_reopen(a, b) {
            lemma_own_reopen(a, b);
        } else {
            assert(store_laws::whole_log(b) =~= store_laws::whole_log(a));
            lemma_own_same(a, b);
        }
    }
}

/// Whatever was done to the store of an instance, and whatever it read of the logs
/// of others, once everything is written a store that opens its files has every link
/// that it owns: the same url, the same times and the same owner under the same code.
pub proof fn law_own_links_come_back(h: Seq<World>, m: StoreView, c: Seq<char>)
    requires
        h.len() > 0,
        store_laws::starts(h[0]),
        forall|k: int| 0 < k < h.len() ==> step_among(h[k - 1], #[trigger] h[k]),
        store::reopened(
            store_laws::blank(h.last().s.instance),
            h.last().snap,
            store_laws::whole_log(h.last()),
            m,
        ),
        hits_laws::owns(h.last().s, c),
    ensures
        same_link(m, h.last().s, c),
{
    lemma_own_history(h);
    assert(has_own(h.last().s, m));
}

/// Siblings converge: whatever was done to the store of an instance, a store of any
/// other that takes in its files, once everything is written, has every link that it
/// owns, the same url, the same times and the same owner under the same code.
pub proof fn law_siblings_converge(h: Seq<World>, m: StoreView, t: StoreView, c: Seq<char>)
    requires
        h.len() > 0,
        store_laws::starts(h[0]),
        forall|k: int| 0 < k < h.len() ==> step_among(h[k - 1], #[trigger] h[k]),
        store::reopened(m, h.last().snap, store_laws::whole_log(h.last()), t),
        hits_laws::owns(h.last().s, c),
    ensures
        same_link(t, h.last().s, c),
{
    let w = h.last();
    let log = aof::lines(store_laws::whole_log(w));
    let first = store_laws::blank(w.s.instance);
    assert(first.stray.dom() =~= Set::empty());
    let a1 = lemma_lines_can_replay(first, aof::lines(w.snap));
    let t1 = lemma_lines_can_replay(a1, log);
    assert(store::reopened(first, w.snap, store_laws::whole_log(w), t1));
    law_own_links_come_back(h, t1, c);
    let a2 = choose|mid: StoreView| #[trigger]
        store::replays(m, aof::lines(w.snap), mid) && #[trigger] store::replays(mid, log, t);
    lemma_lines_on_both(first, m, aof::lines(w.snap), a1, a2, c);
    lemma_lines_on_both(a1, a2, log, t1, t, c);
    assert(t1.rows.contains_key(c));
}

/// Something happens to the store of an instance among others, but no update of a code.
pub open spec fn step_among_sparing(a: World, b: World, c: Seq<char>) -> bool {
    hits_laws::step_sparing(a, b, c) || step_follow(a, b)
}

proof fn lemma_follow_tallied(a: World, b: World, c: Seq<char>)
    requires
        own_kept(a),
        hits_laws::tallied(a, c),
        step_follow(a, b),
    ensures
        hits_laws::tallied(b, c),
{
    let (s, lines) = choose|s: StoreView, lines: Seq<Seq<u8>>|
        {
            &&& #[trigger] store::replays(s, lines, b.s)
            &&& s == StoreView { readers: s.readers, last_poll: s.last_poll, ..a.s }
            &&& forall|k: int|
                0 <= k < lines.len() ==> foreign(#[trigger] lines[k], a.s.instance)
        };
    lemma_foreign_lines(s, lines, b.s);
    let n = choose|n: Option<i64>| #[trigger] hits_laws::told(a, c, n);
    if hits_laws::owns(b.s, c) {
        assert(hits_laws::owns(s, c));
        assert(hits_laws::owns(a.s, c));
    }
    assert(hits_laws::told(b, c, n));
}

proof fn lemma_tallied_since(h: Seq<World>, from: int, c: Seq<char>)
    requires
        0 <= from < h.len(),
        store_laws::starts(h[0]),
        forall|k: int| 0 < k < h.len() ==> step_among(h[k - 1], #[trigger] h[k]),
        from == 0 || store_laws::step_compact(h[from - 1], h[from]),
        forall|k: int| from < k < h.len() ==> step_among_sparing(h[k - 1], #[trigger] h[k], c),
        forall|k: int| from <= k < h.len() ==> hits_laws::steady((#[trigger] h[k]).s, c),
    ensures
        hits_laws::tallied(h.last(), c),
    decreases h.len(),
{
    if h.len() == 1 {
        hits_laws::lemma_start(h[0], c);
    } else {
        let before = h.drop_last();
        assert forall|k: int| 0 < k < before.len() implies step_among(
            before[k - 1],
            #[trigger] before[k],
        ) by {
            assert(before[k] == h[k] && before[k - 1] == h[k - 1]);
        }
        lemma_own_history(before);
        let a = before.last();
        let b = h[h.len() - 1];
        assert(a == h[h.len() - 2]);
        assert(hits_laws::sound(a));
        if h.len() == from + 1 {
            hits_laws::lemma_compact(a, b, c);
        } else {
            assert forall|k: int| from < k < before.len() implies step_among_sparing(
                before[k - 1],
                #[trigger] before[k],
                c,
            ) by {
                assert(before[k] == h[k] && before[k - 1] == h[k - 1]);
            }
            assert forall|k: int| from <= k < before.len() implies hits_laws::steady(
                (#[trigger] before[k]).s,
                c,
            ) by {
                assert(before[k] == h[k]);
            }
            lemma_tallied_since(before, from, c);
            assert(step_among_sparing(h[h.len() - 2], b, c));
            assert(hits_laws::steady(h[h.len() - 2].s, c));
            if step_follow(a, b) {
                lemma_follow_tallied(a, b, c);
            } else {
                hits_laws::lemma_sparing(a, b, c);
            }
        }
    }
}

/// Siblings see the hits of a link: a store of any instance that knows nothing of a code
/// and takes in the files of the instance that owns it, once everything is written, has
/// as many hits of it as that instance counted, but for those that are not logged yet;
/// as long as the link was not updated since the last snapshot, nor removed before its
/// hits were logged. So does that instance itself when it is opened again.
pub proof fn law_siblings_see_hits(
    h: Seq<World>,
    from: int,
    c: Seq<char>,
    m: StoreView,
    t: StoreView,
)
    requires
        0 <= from < h.len(),
        store_laws::starts(h[0]),
        forall|k: int| 0 < k < h.len() ==> step_among(h[k - 1], #[trigger] h[k]),
        from == 0 || store_laws::step_compact(h[from - 1], h[from]),
        forall|k: int| from < k < h.len() ==> step_among_sparing(h[k - 1], #[trigger] h[k], c),
        forall|k: int| from <= k < h.len() ==> hits_laws::steady((#[trigger] h[k]).s, c),
        hits_laws::owns(h.last().s, c),
        hits_laws::bare(m, c),
        store::reopened(m, h.last().snap, store_laws::whole_log(h.last()), t),
    ensures
        same_link(t, h.last().s, c),
        h.last().s.rows[c].oh == t.rows[c].h.wrapping_add(
            store_laws::unlogged(h.last().s, c),
        ),
{
    law_siblings_converge(h, m, t, c);
    lemma_tallied_since(h, from, c);
    let n = choose|n: Option<i64>| #[trigger] hits_laws::told(h.last(), c, n);
    assert(hits_laws::says(t, c, n));
}

/// Hits that any instance logs are seen by all: a store that has the link adds to it what
/// that instance had counted since it last logged, and to no other.
pub proof fn law_logged_hits_are_added(
    s: StoreView,
    codes: Seq<Seq<char>>,
    logged: StoreView,
    m: StoreView,
    t: StoreView,
    c: Seq<char>,
)
    requires
        s.log is Some,
        forall|x: Seq<char>| #[trigger] s.dirty.contains_key(x) ==> store_laws::loggable(x),
        store::flushed_with(s, codes, logged),
        m.rows.contains_key(c),
        !m.stray.contains_key(c),
        store::replays(m, aof::lines(store::hit_lines(codes, s.dirty, s.instance)), t),
    ensures
        t.rows.contains_key(c),
        t.rows[c].h == m.rows[c].h.wrapping_add(store_laws::unlogged(s, c)),
{
    assert forall|k: int| 0 <= k < codes.len() implies s.dirty.contains_key(
        #[trigger] codes[k],
    ) by {
        assert(s.dirty.dom().contains(codes[k]));
    }
    hits_laws::lemma_hits_said(s, codes, m, t, c, Some(m.rows[c].h));
    if s.dirty.contains_key(c) {
        assert(s.dirty.dom().contains(c));
        let k = choose|k: int| 0 <= k < codes.len() && #[trigger] codes[k] == c;
        assert(codes.contains(c));
    } else if codes.contains(c) {
        let k = choose|k: int| 0 <= k < codes.len() && codes[k] == c;
        assert(s.dirty.contains_key(codes[k]));
    }
}

/// Taking in what was read of the log of a sibling is a step of a history among siblings:
/// what is complete of it is taken in, and no link of this instance is another then.
pub proof fn law_reading_on_is_a_step(a: World, name: Seq<char>, chunk: Seq<u8>, t: StoreView)
    requires
        a.s.readers.contains_key(name),
        store::read_on(a.s, name, chunk, t),
        forall|k: int|
            0 <= k < aof::lines(a.s.readers[name].leftover + chunk).len() ==> foreign(
                #[trigger] aof::lines(a.s.readers[name].leftover + chunk)[k],
                a.s.instance,
            ),
    ensures
        step_among(a, World { s: t, ..a }),
{
    let r = a.s.readers[name];
    let s = StoreView { readers: a.s.readers.insert(name, aof::tail_after(r, chunk)), ..a.s };
    let lines = aof::lines(r.leftover + chunk);
    assert(store::replays(s, lines, t));
    assert(s == StoreView { readers: s.readers, last_poll: s.last_poll, ..a.s });
    assert(step_follow(a, World { s: t, ..a }));
}

} // verus!
