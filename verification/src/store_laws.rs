//! What a store holds comes back from what it wrote.

use vstd::prelude::*;
use vstd::utf8::*;

use crate::aof;
use crate::aof::{AofView, NL};
use crate::base62;
use crate::codec;
use crate::codec_laws;
use crate::store;
use crate::store::{MutResult, Row, StoreView};
use crate::text;

verus! {

/// A code that the log can carry.
pub open spec fn loggable(c: Seq<char>) -> bool {
    codec_laws::plain(c) && codec_laws::unbroken(encode_utf8(c))
}

/// A store of a single instance and its files: the snapshot, and the part of the
/// log that is written.
pub ghost struct World {
    pub s: StoreView,
    pub snap: Seq<u8>,
    pub log: Seq<u8>,
}

/// The log as it is once everything is written.
pub open spec fn whole_log(w: World) -> Seq<u8> {
    w.log + w.s.log->0.flushed + w.s.log->0.queued
}

/// An empty store, as one is opened.
pub open spec fn blank(instance: i32) -> StoreView {
    store::fresh(Some(AofView { queued: Seq::empty(), flushed: Seq::empty() }), instance)
}

/// A store that is opened for the first time.
pub open spec fn starts(w: World) -> bool {
    &&& 0 <= w.s.instance < store::MAX_INSTANCES
    &&& w.s == blank(w.s.instance)
    &&& w.snap == Seq::<u8>::empty()
    &&& w.log == Seq::<u8>::empty()
}

/// A link or many are created, under codes that the log can carry.
pub open spec fn step_create(a: World, b: World) -> bool {
    &&& a.snap == b.snap
    &&& a.log == b.log
    &&& {
        ||| exists|url: Seq<char>, alias: Option<Seq<char>>, ttl: i64, now: i64, r: Option<Seq<char>>|
            #[trigger] store::shortened(a.s, url, alias, ttl, now, r, b.s) && (r matches Some(c)
                ==> loggable(c))
        ||| exists|urls: Seq<Seq<char>>, ttl: i64, now: i64, codes: Seq<Seq<char>>|
            #[trigger] store::shortened_many(a.s, urls, ttl, now, codes, b.s)
    }
}

/// A code is resolved.
pub open spec fn step_resolve(a: World, b: World) -> bool {
    &&& a.snap == b.snap
    &&& a.log == b.log
    &&& exists|code: Seq<char>, now: i64, r: Option<Seq<char>>|
        #[trigger] store::resolved(a.s, code, now, r, b.s)
}

/// The hits are logged and the log is handed over.
pub open spec fn step_flush(a: World, b: World) -> bool {
    &&& a.snap == b.snap
    &&& a.log == b.log
    &&& exists|codes: Seq<Seq<char>>| #[trigger] store::flushed_with(a.s, codes, b.s)
}

/// What was handed over is written.
pub open spec fn step_write(a: World, b: World) -> bool {
    &&& a.s.log is Some
    &&& b == World {
        s: StoreView {
            log: Some(AofView { flushed: Seq::empty(), ..a.s.log->0 }),
            ..a.s
        },
        snap: a.snap,
        log: a.log + a.s.log->0.flushed,
    }
}

/// A snapshot takes the place of the log.
pub open spec fn step_compact(a: World, b: World) -> bool {
    &&& a.s.log is Some
    &&& b.s == StoreView {
        dirty: Map::empty(),
        log: Some(AofView { queued: Seq::empty(), flushed: Seq::empty() }),
        ..a.s
    }
    &&& b.log == Seq::<u8>::empty()
    &&& exists|codes: Seq<Seq<char>>| #[trigger]
        store::enumerates(codes, store::own_codes(a.s)) && b.snap == store::snap_lines(
            codes,
            a.s.rows,
        )
}

/// A link is updated or removed.
pub open spec fn step_change(a: World, b: World) -> bool {
    &&& a.snap == b.snap
    &&& a.log == b.log
    &&& {
        ||| exists|code: Seq<char>, url: Seq<char>, ttl: i64, has_ttl: bool, now: i64, r: MutResult|
            #[trigger] store::updated(a.s, code, url, ttl, has_ttl, now, r, b.s)
        ||| exists|code: Seq<char>, r: MutResult| #[trigger] store::removed(a.s, code, r, b.s)
    }
}

/// The store is closed, which writes everything, and opened again, with hits counted or
/// not.
pub open spec fn step_reopen(a: World, b: World) -> bool {
    &&& a.s.log == Some(AofView { queued: Seq::empty(), flushed: Seq::empty() })
    &&& a.s.dirty == Map::<Seq<char>, i64>::empty()
    &&& a.snap == b.snap
    &&& a.log == b.log
    &&& exists|m: StoreView| #[trigger]
        store::reopened(blank(a.s.instance), a.snap, a.log, m) && b.s == (StoreView {
            track: b.s.track,
            ..m
        })
}

/// Something happens to the store.
#[verifier::opaque]
pub open spec fn step(a: World, b: World) -> bool {
    step_create(a, b) || step_resolve(a, b) || step_flush(a, b) || step_write(a, b)
        || step_compact(a, b) || step_change(a, b) || step_reopen(a, b)
}

/// The hits of a code that are not logged yet.
pub open spec fn unlogged(s: StoreView, c: Seq<char>) -> i64 {
    if s.dirty.contains_key(c) {
        s.dirty[c]
    } else {
        0
    }
}

/// `m` has the links of `s`: the same codes, and for each the same url, the same
/// times and the same owner; this instance counted all hits of `m`.
pub open spec fn agrees(s: StoreView, m: StoreView) -> bool {
    &&& m.instance == s.instance
    &&& forall|c: Seq<char>| #[trigger] m.rows.contains_key(c) <==> s.rows.contains_key(c)
    &&& forall|c: Seq<char>| #[trigger]
        s.rows.contains_key(c) ==> {
            &&& m.rows[c].u == s.rows[c].u
            &&& m.rows[c].a == s.rows[c].a
            &&& m.rows[c].e == s.rows[c].e
            &&& m.rows[c].i == s.rows[c].i
        }
    &&& evenly(m)
}

/// This instance counted all hits that a store knows of.
pub open spec fn evenly(m: StoreView) -> bool {
    &&& forall|c: Seq<char>| #[trigger] m.rows.contains_key(c) ==> m.rows[c].h == m.rows[c].oh
    &&& forall|c: Seq<char>| #[trigger] m.stray.contains_key(c) ==> m.stray[c].t == m.stray[c].o
}

/// What holds of a store and its files all the time: whatever comes of opening
/// the files agrees with the store.
pub open spec fn kept(w: World) -> bool {
    &&& w.s.log is Some
    &&& 0 <= w.s.instance < store::MAX_INSTANCES
    &&& forall|c: Seq<char>| #[trigger]
        w.s.rows.contains_key(c) ==> loggable(c) && w.s.rows[c].i == w.s.instance && w.s.rows[c].h
            == w.s.rows[c].oh
    &&& forall|c: Seq<char>| #[trigger] w.s.dirty.contains_key(c) ==> loggable(c)
    &&& aof::torn(w.snap) == Seq::<u8>::empty()
    &&& aof::torn(whole_log(w)) == Seq::<u8>::empty()
    &&& forall|m: StoreView| #[trigger]
        store::reopened(blank(w.s.instance), w.snap, whole_log(w), m) ==> agrees(w.s, m)
}

proof fn lemma_add(a: i64, b: i64, c: i64)
    ensures
        a.wrapping_add(b).wrapping_add(c) == a.wrapping_add(b.wrapping_add(c)),
        a.wrapping_add(0) == a,
        0i64.wrapping_add(a) == a,
{
}

/// Lines are taken in one after the other.
proof fn lemma_replays_split(s: StoreView, a: Seq<Seq<u8>>, b: Seq<Seq<u8>>, t: StoreView)
    requires
        store::replays(s, a + b, t),
    ensures
        exists|mid: StoreView| #[trigger]
            store::replays(s, a, mid) && #[trigger] store::replays(mid, b, t),
    decreases b.len(),
{
    if b.len() == 0 {
        assert(a + b =~= a);
        assert(store::replays(t, b, t));
    } else {
        assert((a + b).drop_last() =~= a + b.drop_last());
        assert((a + b).last() == b.last());
        let last = choose|last: StoreView|
            store::replays(s, (a + b).drop_last(), last) && #[trigger] store::line_applies(
                last,
                (a + b).last(),
                t,
            );
        lemma_replays_split(s, a, b.drop_last(), last);
        let mid = choose|mid: StoreView| #[trigger]
            store::replays(s, a, mid) && #[trigger] store::replays(mid, b.drop_last(), last);
        assert(store::line_applies(last, b.last(), t));
        assert(store::replays(mid, b, t));
    }
}

/// One line is taken in.
proof fn lemma_replays_one(s: StoreView, line: Seq<u8>, t: StoreView)
    requires
        store::replays(s, seq![line], t),
    ensures
        store::line_applies(s, line, t),
{
    let l = seq![line];
    let mid = choose|mid: StoreView|
        store::replays(s, l.drop_last(), mid) && #[trigger] store::line_applies(mid, l.last(), t);
    assert(l.drop_last() =~= Seq::<Seq<u8>>::empty());
    assert(mid == s);
}

/// Opening files with a longer log is opening those with the shorter one, then
/// taking in the rest.
pub proof fn lemma_longer_log(s: StoreView, snap: Seq<u8>, log: Seq<u8>, more: Seq<u8>, t: StoreView)
    requires
        store::reopened(s, snap, log + more, t),
        aof::torn(log) == Seq::<u8>::empty(),
    ensures
        aof::torn(log + more) == aof::torn(more),
        exists|m: StoreView| #[trigger]
            store::reopened(s, snap, log, m) && #[trigger] store::replays(m, aof::lines(more), t),
{
    aof::law_lines_of_parts(log, more);
    assert(aof::torn(log) + more =~= more);
    let a = choose|a: StoreView| #[trigger]
        store::replays(s, aof::lines(snap), a) && #[trigger] store::replays(
            a,
            aof::lines(log + more),
            t,
        );
    lemma_replays_split(a, aof::lines(log), aof::lines(more), t);
    let m = choose|m: StoreView| #[trigger]
        store::replays(a, aof::lines(log), m) && #[trigger] store::replays(m, aof::lines(more), t);
    assert(store::reopened(s, snap, log, m));
}

/// One more line in the log.
pub proof fn lemma_one_more(s: StoreView, snap: Seq<u8>, log: Seq<u8>, line: Seq<u8>, t: StoreView)
    requires
        store::reopened(s, snap, log + line + seq![NL], t),
        aof::torn(log) == Seq::<u8>::empty(),
        line.len() > 0,
        codec_laws::unbroken(line),
    ensures
        exists|m: StoreView| #[trigger]
            store::reopened(s, snap, log, m) && #[trigger] store::line_applies(m, line, t),
{
    let more = line + seq![NL];
    assert(log + line + seq![NL] =~= log + more);
    lemma_longer_log(s, snap, log, more, t);
    lemma_one_line(line);
    let m = choose|m: StoreView| #[trigger]
        store::reopened(s, snap, log, m) && #[trigger] store::replays(m, aof::lines(more), t);
    lemma_replays_one(m, line, t);
    assert(store::line_applies(m, line, t));
}

proof fn lemma_one_line(line: Seq<u8>)
    requires
        line.len() > 0,
        codec_laws::unbroken(line),
    ensures
        aof::lines(line + seq![NL]) == seq![line],
        aof::torn(line + seq![NL]) == Seq::<u8>::empty(),
{
    aof::law_pushed_line_comes_back(line, Seq::empty());
    assert(line + seq![NL] + Seq::<u8>::empty() =~= line + seq![NL]);
    assert(aof::lines(Seq::<u8>::empty()) =~= Seq::<Seq<u8>>::empty());
    assert(seq![line] + Seq::<Seq<u8>>::empty() =~= seq![line]);
}

pub proof fn lemma_torn_after(log: Seq<u8>, line: Seq<u8>)
    requires
        aof::torn(log) == Seq::<u8>::empty(),
        line.len() > 0,
        codec_laws::unbroken(line),
    ensures
        aof::torn(log + line + seq![NL]) == Seq::<u8>::empty(),
        aof::lines(log + line + seq![NL]) == aof::lines(log).push(line),
{
    let more = line + seq![NL];
    assert(log + line + seq![NL] =~= log + more);
    aof::law_lines_of_parts(log, more);
    assert(aof::torn(log) + more =~= more);
    lemma_one_line(line);
    assert(aof::lines(log) + seq![line] =~= aof::lines(log).push(line));
}

/// A row line puts its link into any store that takes it in, this instance's or
/// a sibling's, under the owner that the line names; hits that came before it
/// are added.
pub proof fn law_row_line(m: StoreView, c: Seq<char>, r: Row, n: i64, t: StoreView)
    requires
        loggable(c),
        store::line_applies(m, store::row_line_of(c, r, n), t),
    ensures
        t == (StoreView {
            rows: m.rows.insert(
                c,
                Row {
                    h: n.wrapping_add(store::stray_of(m, c).t),
                    oh: n.wrapping_add(store::stray_of(m, c).o),
                    ..r
                },
            ),
            stray: m.stray.remove(c),
            ..m
        }),
{
    codec_laws::law_row_reads_back(c, r.u, r.a as int, r.e as int, r.i as int, n as int);
}

/// A row line that is taken in once more changes no link; it changes nothing at all
/// where no hits had come before it.
pub proof fn law_row_line_twice(
    m: StoreView,
    c: Seq<char>,
    r: Row,
    n: i64,
    t: StoreView,
    u: StoreView,
)
    requires
        loggable(c),
        store::line_applies(m, store::row_line_of(c, r, n), t),
        store::line_applies(t, store::row_line_of(c, r, n), u),
    ensures
        u.rows.dom() == t.rows.dom(),
        forall|x: Seq<char>| #[trigger]
            t.rows.contains_key(x) ==> u.rows[x].u == t.rows[x].u && u.rows[x].a == t.rows[x].a
                && u.rows[x].e == t.rows[x].e && u.rows[x].i == t.rows[x].i,
        !m.stray.contains_key(c) ==> u == t,
{
    law_row_line(m, c, r, n, t);
    law_row_line(t, c, r, n, u);
    assert(u.rows.dom() =~= t.rows.dom());
    if !m.stray.contains_key(c) {
        assert(t.stray =~= m.stray);
        assert(u.rows =~= t.rows);
        assert(u.stray =~= t.stray);
    }
}

/// A hit line adds its hits to the link, in any store that has it.
pub proof fn law_hit_line(m: StoreView, c: Seq<char>, d: i64, i: i32, t: StoreView)
    requires
        loggable(c),
        m.rows.contains_key(c),
        store::line_applies(m, codec::hit_bytes(encode_utf8(c), d as int, i as int), t),
    ensures
        t == (StoreView {
            rows: m.rows.insert(
                c,
                Row {
                    h: m.rows[c].h.wrapping_add(d),
                    oh: if m.instance == i {
                        m.rows[c].oh.wrapping_add(d)
                    } else {
                        m.rows[c].oh
                    },
                    ..m.rows[c]
                },
            ),
            ..m
        }),
{
    codec_laws::law_hit_reads_back(c, d as int, i as int);
}

/// What a hit line of this instance does to a store that lacks the row: no link
/// changes.
proof fn lemma_hit_astray(m: StoreView, c: Seq<char>, d: i64, t: StoreView)
    requires
        loggable(c),
        !m.rows.contains_key(c),
        evenly(m),
        store::line_applies(m, codec::hit_bytes(encode_utf8(c), d as int, m.instance as int), t),
    ensures
        t.rows == m.rows,
        t.instance == m.instance,
        evenly(t),
{
    codec_laws::law_hit_reads_back(c, d as int, m.instance as int);
}

/// A tombstone takes the link out of any store that takes it in.
pub proof fn law_tombstone_line(m: StoreView, c: Seq<char>, t: StoreView)
    requires
        loggable(c),
        store::line_applies(m, codec::del_bytes(encode_utf8(c)), t),
    ensures
        t == (StoreView { rows: m.rows.remove(c), stray: m.stray.remove(c), ..m }),
{
    codec_laws::law_tombstone_reads_back(c);
}

proof fn lemma_start(w: World)
    requires
        starts(w),
    ensures
        kept(w),
{
    let none = Seq::<u8>::empty();
    assert(whole_log(w) =~= none);
    assert(aof::lines(none) =~= Seq::<Seq<u8>>::empty());
}

/// A new link and its line.
proof fn lemma_put_row(a: World, b: World, c: Seq<char>, r: Row)
    requires
        kept(a),
        loggable(c),
        !a.s.rows.contains_key(c),
        r.i == a.s.instance,
        r.h == 0,
        r.oh == 0,
        b.s.rows == a.s.rows.insert(c, r),
        b.s.dirty == a.s.dirty,
        b.s.instance == a.s.instance,
        b.s.log is Some,
        b.snap == a.snap,
        whole_log(b) == whole_log(a) + store::row_line_of(c, r, 0) + seq![NL],
    ensures
        kept(b),
{
    let line = store::row_line_of(c, r, 0);
    codec_laws::law_row_is_one_line(
        encode_utf8(c),
        encode_utf8(r.u),
        r.a as int,
        r.e as int,
        r.i as int,
        0,
    );
    lemma_torn_after(whole_log(a), line);
    assert forall|m: StoreView| #[trigger]
        store::reopened(blank(b.s.instance), b.snap, whole_log(b), m) implies agrees(
        b.s,
        m,
    ) by {
        lemma_one_more(blank(a.s.instance), a.snap, whole_log(a), line, m);
        let was = choose|was: StoreView| #[trigger]
            store::reopened(blank(a.s.instance), a.snap, whole_log(a), was)
                && #[trigger] store::line_applies(was, line, m);
        assert(agrees(a.s, was));
        law_row_line(was, c, r, 0, m);
    }
}

/// The codes that an instance makes can be logged.
pub proof fn lemma_generated_loggable(instance: int, c: Seq<char>)
    requires
        0 <= instance < store::MAX_INSTANCES,
        store::generated(instance, c),
    ensures
        loggable(c),
{
    let draw = choose|draw: Seq<u8>|
        draw.len() == store::SUFFIX_LEN && c == #[trigger] store::code_of(instance, draw);
    let b = store::code_bytes(instance, draw);
    base62::law_letter_reads_back(instance);
    assert forall|k: int| 0 <= k < b.len() implies base62::value62(#[trigger] b[k]) is Some && b[k]
        < 128 by {
        if k > 0 {
            base62::law_letter_reads_back(draw[k - 1] as int % 62);
        }
    }
    text::lemma_ascii_text(b);
    assert(encode_utf8(c) == b);
}

pub proof fn lemma_spill(w: World, l: AofView)
    ensures
        ({
            let s = store::spilled(Some(l));
            s is Some && w.log + s->0.flushed + s->0.queued == w.log + l.flushed + l.queued
        }),
{
    let s = store::spilled(Some(l));
    assert(w.log + s->0.flushed + s->0.queued =~= w.log + l.flushed + l.queued);
}

/// Nothing that counts changed.
proof fn lemma_same(a: World, b: World)
    requires
        kept(a),
        b.s.rows == a.s.rows,
        b.s.dirty == a.s.dirty,
        b.s.instance == a.s.instance,
        b.s.log is Some,
        b.snap == a.snap,
        whole_log(b) == whole_log(a),
    ensures
        kept(b),
{
    assert forall|m: StoreView| #[trigger]
        store::reopened(blank(b.s.instance), b.snap, whole_log(b), m) implies agrees(
        b.s,
        m,
    ) by {
        assert(agrees(a.s, m));
    }
}

/// A code that is neither stored nor new stays missing.
proof fn lemma_many_dom(
    rows: Map<Seq<char>, Row>,
    codes: Seq<Seq<char>>,
    urls: Seq<Seq<char>>,
    now: i64,
    exp: i64,
    instance: i32,
    c: Seq<char>,
)
    requires
        !rows.contains_key(c),
        forall|k: int| 0 <= k < codes.len() ==> codes[k] != c,
    ensures
        !store::many_rows(rows, codes, urls, now, exp, instance).contains_key(c),
    decreases codes.len(),
{
    if codes.len() > 0 {
        lemma_many_dom(rows, codes.drop_last(), urls, now, exp, instance, c);
    }
}

/// Several new links and their lines.
proof fn lemma_put_many(
    a: World,
    b: World,
    codes: Seq<Seq<char>>,
    urls: Seq<Seq<char>>,
    now: i64,
    exp: i64,
)
    requires
        kept(a),
        forall|k: int|
            0 <= k < codes.len() ==> store::generated(a.s.instance as int, #[trigger] codes[k])
                && !a.s.rows.contains_key(codes[k]),
        forall|j: int, k: int| 0 <= j < k < codes.len() ==> codes[j] != codes[k],
        b.s.rows == store::many_rows(a.s.rows, codes, urls, now, exp, a.s.instance),
        b.s.dirty == a.s.dirty,
        b.s.instance == a.s.instance,
        b.s.log is Some,
        b.snap == a.snap,
        whole_log(b) == whole_log(a) + store::many_lines(codes, urls, now, exp, a.s.instance),
    ensures
        kept(b),
    decreases codes.len(),
{
    if codes.len() == 0 {
        assert(whole_log(b) =~= whole_log(a));
        lemma_same(a, b);
    } else {
        let before = codes.drop_last();
        let c = codes.last();
        let r = store::new_row(urls[codes.len() - 1], now, exp, a.s.instance);
        let lines = store::many_lines(before, urls, now, exp, a.s.instance);
        let mid = World {
            s: StoreView {
                rows: store::many_rows(a.s.rows, before, urls, now, exp, a.s.instance),
                log: Some(
                    AofView { queued: a.s.log->0.queued + lines, flushed: a.s.log->0.flushed },
                ),
                ..a.s
            },
            ..a
        };
        assert(whole_log(mid) =~= whole_log(a) + lines);
        assert forall|k: int| 0 <= k < before.len() implies store::generated(
            a.s.instance as int,
            #[trigger] before[k],
        ) && !a.s.rows.contains_key(before[k]) by {
            assert(before[k] == codes[k]);
        }
        lemma_put_many(a, mid, before, urls, now, exp);
        assert(codes[codes.len() - 1] == c);
        lemma_generated_loggable(a.s.instance as int, c);
        lemma_many_dom(a.s.rows, before, urls, now, exp, a.s.instance, c);
        assert(whole_log(b) =~= whole_log(mid) + store::row_line_of(c, r, 0) + seq![NL]);
        lemma_put_row(mid, b, c, r);
    }
}

proof fn lemma_create_one(
    a: World,
    b: World,
    url: Seq<char>,
    alias: Option<Seq<char>>,
    ttl: i64,
    now: i64,
    r: Option<Seq<char>>,
)
    requires
        kept(a),
        a.snap == b.snap,
        a.log == b.log,
        store::shortened(a.s, url, alias, ttl, now, r, b.s),
        r matches Some(c) ==> loggable(c),
    ensures
        kept(b),
{
    match r {
        Some(c) => {
            let row = store::new_row(url, now, store::expiry(now, ttl), a.s.instance);
            let l = store::queued(a.s.log, store::row_line_of(c, row, 0))->0;
            lemma_spill(a, l);
            assert(whole_log(b) =~= whole_log(a) + store::row_line_of(c, row, 0) + seq![NL]);
            lemma_put_row(a, b, c, row);
        },
        None => {
            assert(a == b);
        },
    }
}

proof fn lemma_create_many(
    a: World,
    b: World,
    urls: Seq<Seq<char>>,
    ttl: i64,
    now: i64,
    codes: Seq<Seq<char>>,
)
    requires
        kept(a),
        a.snap == b.snap,
        a.log == b.log,
        store::shortened_many(a.s, urls, ttl, now, codes, b.s),
    ensures
        kept(b),
{
    let exp = store::expiry(now, ttl);
    let lines = store::many_lines(codes, urls, now, exp, a.s.instance);
    let l = store::queued_raw(a.s.log, lines)->0;
    lemma_spill(a, l);
    assert(whole_log(b) =~= whole_log(a) + lines);
    lemma_put_many(a, b, codes, urls, now, exp);
}

proof fn lemma_create(a: World, b: World)
    requires
        kept(a),
        step_create(a, b),
    ensures
        kept(b),
{
    if exists|url: Seq<char>, alias: Option<Seq<char>>, ttl: i64, now: i64, r: Option<Seq<char>>|
        #[trigger] store::shortened(a.s, url, alias, ttl, now, r, b.s) && (r matches Some(c)
            ==> loggable(c)) {
        let (url, alias, ttl, now, r) = choose|
            url: Seq<char>,
            alias: Option<Seq<char>>,
            ttl: i64,
            now: i64,
            r: Option<Seq<char>>,
        |
            #[trigger] store::shortened(a.s, url, alias, ttl, now, r, b.s) && (r matches Some(c)
                ==> loggable(c));
        lemma_create_one(a, b, url, alias, ttl, now, r);
    } else {
        let (urls, ttl, now, codes) = choose|
            urls: Seq<Seq<char>>,
            ttl: i64,
            now: i64,
            codes: Seq<Seq<char>>,
        | #[trigger] store::shortened_many(a.s, urls, ttl, now, codes, b.s);
        lemma_create_many(a, b, urls, ttl, now, codes);
    }
}

proof fn lemma_resolve(a: World, b: World)
    requires
        kept(a),
        step_resolve(a, b),
    ensures
        kept(b),
{
    let (code, now, r) = choose|code: Seq<char>, now: i64, r: Option<Seq<char>>|
        #[trigger] store::resolved(a.s, code, now, r, b.s);
    assert(whole_log(b) == whole_log(a));
    assert forall|m: StoreView| #[trigger]
        store::reopened(blank(b.s.instance), b.snap, whole_log(b), m) implies agrees(
        b.s,
        m,
    ) by {
        assert(agrees(a.s, m));
    }
}

/// Lines of hits change no link.
proof fn lemma_hits_replay(s: StoreView, codes: Seq<Seq<char>>, m: StoreView, t: StoreView)
    requires
        forall|c: Seq<char>| #[trigger] s.dirty.contains_key(c) ==> loggable(c),
        agrees(s, m),
        forall|k: int| 0 <= k < codes.len() ==> s.dirty.contains_key(#[trigger] codes[k]),
        store::replays(m, aof::lines(store::hit_lines(codes, s.dirty, s.instance)), t),
    ensures
        agrees(s, t),
    decreases codes.len(),
{
    let bytes = store::hit_lines(codes, s.dirty, s.instance);
    if codes.len() == 0 {
        assert(aof::lines(bytes) =~= Seq::<Seq<u8>>::empty());
    } else {
        let before = codes.drop_last();
        let c = codes.last();
        let d = s.dirty[c];
        let prev = store::hit_lines(before, s.dirty, s.instance);
        let line = codec::hit_bytes(encode_utf8(c), d as int, s.instance as int);
        lemma_hits_step(s, codes);
        let all = aof::lines(bytes);
        assert(all.drop_last() =~= aof::lines(prev));
        let mid = choose|mid: StoreView|
            store::replays(m, all.drop_last(), mid) && #[trigger] store::line_applies(
                mid,
                all.last(),
                t,
            );
        lemma_hits_replay(s, before, m, mid);
        if s.rows.contains_key(c) {
            law_hit_line(mid, c, d, s.instance, t);
        } else {
            lemma_hit_astray(mid, c, d, t);
        }
    }
}

/// The last of several lines of hits.
pub proof fn lemma_hits_step(s: StoreView, codes: Seq<Seq<char>>)
    requires
        forall|c: Seq<char>| #[trigger] s.dirty.contains_key(c) ==> loggable(c),
        forall|k: int| 0 <= k < codes.len() ==> s.dirty.contains_key(#[trigger] codes[k]),
        codes.len() > 0,
    ensures
        ({
            let before = codes.drop_last();
            let c = codes.last();
            &&& s.dirty.contains_key(c)
            &&& loggable(c)
            &&& forall|k: int| 0 <= k < before.len() ==> s.dirty.contains_key(#[trigger] before[k])
            &&& aof::lines(store::hit_lines(codes, s.dirty, s.instance)) == aof::lines(
                store::hit_lines(before, s.dirty, s.instance),
            ).push(codec::hit_bytes(encode_utf8(c), s.dirty[c] as int, s.instance as int))
        }),
{
    let before = codes.drop_last();
    let c = codes.last();
    assert(codes[codes.len() - 1] == c);
    let line = codec::hit_bytes(encode_utf8(c), s.dirty[c] as int, s.instance as int);
    codec_laws::law_hit_is_one_line(encode_utf8(c), s.dirty[c] as int, s.instance as int);
    assert forall|k: int| 0 <= k < before.len() implies s.dirty.contains_key(
        #[trigger] before[k],
    ) by {
        assert(before[k] == codes[k]);
    }
    lemma_hits_torn(s, before);
    lemma_torn_after(store::hit_lines(before, s.dirty, s.instance), line);
}

/// Lines of hits are complete.
pub proof fn lemma_hits_torn(s: StoreView, codes: Seq<Seq<char>>)
    requires
        forall|c: Seq<char>| #[trigger] s.dirty.contains_key(c) ==> loggable(c),
        forall|k: int| 0 <= k < codes.len() ==> s.dirty.contains_key(#[trigger] codes[k]),
    ensures
        aof::torn(store::hit_lines(codes, s.dirty, s.instance)) == Seq::<u8>::empty(),
    decreases codes.len(),
{
    if codes.len() > 0 {
        let before = codes.drop_last();
        let c = codes.last();
        assert(codes[codes.len() - 1] == c);
        assert forall|k: int| 0 <= k < before.len() implies s.dirty.contains_key(
            #[trigger] before[k],
        ) by {
            assert(before[k] == codes[k]);
        }
        lemma_hits_torn(s, before);
        codec_laws::law_hit_is_one_line(encode_utf8(c), s.dirty[c] as int, s.instance as int);
        lemma_torn_after(
            store::hit_lines(before, s.dirty, s.instance),
            codec::hit_bytes(encode_utf8(c), s.dirty[c] as int, s.instance as int),
        );
    }
}

proof fn lemma_flush(a: World, b: World)
    requires
        kept(a),
        step_flush(a, b),
    ensures
        kept(b),
{
    let codes = choose|codes: Seq<Seq<char>>| #[trigger] store::flushed_with(a.s, codes, b.s);
    let bytes = store::hit_lines(codes, a.s.dirty, a.s.instance);
    assert forall|k: int| 0 <= k < codes.len() implies a.s.dirty.contains_key(
        #[trigger] codes[k],
    ) by {
        assert(a.s.dirty.dom().contains(codes[k]));
    }
    lemma_hits_torn(a.s, codes);
    assert(whole_log(b) =~= whole_log(a) + bytes);
    aof::law_lines_of_parts(whole_log(a), bytes);
    assert(aof::torn(whole_log(a)) + bytes =~= bytes);
    assert forall|m: StoreView| #[trigger]
        store::reopened(blank(b.s.instance), b.snap, whole_log(b), m) implies agrees(
        b.s,
        m,
    ) by {
        lemma_longer_log(blank(a.s.instance), a.snap, whole_log(a), bytes, m);
        let was = choose|was: StoreView| #[trigger]
            store::reopened(blank(a.s.instance), a.snap, whole_log(a), was)
                && #[trigger] store::replays(was, aof::lines(bytes), m);
        assert(agrees(a.s, was));
        lemma_hits_replay(a.s, codes, was, m);
    }
}

proof fn lemma_write(a: World, b: World)
    requires
        kept(a),
        step_write(a, b),
    ensures
        kept(b),
{
    assert(whole_log(b) =~= whole_log(a));
    lemma_same(a, b);
}

/// A snapshot holds the links of some codes, with the hits that this instance
/// counted.
pub open spec fn has_rows(s: StoreView, codes: Seq<Seq<char>>, m: StoreView) -> bool {
    &&& m.instance == s.instance
    &&& forall|c: Seq<char>| #[trigger] m.rows.contains_key(c) <==> codes.contains(c)
    &&& forall|c: Seq<char>| #[trigger]
        codes.contains(c) ==> m.rows[c] == (Row { h: s.rows[c].oh, ..s.rows[c] })
    &&& forall|c: Seq<char>| !(#[trigger] m.stray.contains_key(c))
}

pub proof fn lemma_snap_torn(s: StoreView, codes: Seq<Seq<char>>)
    requires
        forall|k: int| 0 <= k < codes.len() ==> loggable(#[trigger] codes[k]),
    ensures
        aof::torn(store::snap_lines(codes, s.rows)) == Seq::<u8>::empty(),
    decreases codes.len(),
{
    if codes.len() > 0 {
        let before = codes.drop_last();
        let c = codes.last();
        let r = s.rows[c];
        assert(codes[codes.len() - 1] == c);
        assert forall|k: int| 0 <= k < before.len() implies loggable(#[trigger] before[k]) by {
            assert(before[k] == codes[k]);
        }
        lemma_snap_torn(s, before);
        codec_laws::law_row_is_one_line(
            encode_utf8(c),
            encode_utf8(r.u),
            r.a as int,
            r.e as int,
            r.i as int,
            r.oh as int,
        );
        lemma_torn_after(store::snap_lines(before, s.rows), store::row_line_of(c, r, r.oh));
    }
}

pub proof fn lemma_snap_replay(s: StoreView, codes: Seq<Seq<char>>, t: StoreView)
    requires
        forall|k: int| 0 <= k < codes.len() ==> loggable(#[trigger] codes[k]),
        forall|j: int, k: int| 0 <= j < k < codes.len() ==> codes[j] != codes[k],
        store::replays(
            blank(s.instance),
            aof::lines(store::snap_lines(codes, s.rows)),
            t,
        ),
    ensures
        has_rows(s, codes, t),
    decreases codes.len(),
{
    let bytes = store::snap_lines(codes, s.rows);
    if codes.len() == 0 {
        assert(aof::lines(bytes) =~= Seq::<Seq<u8>>::empty());
    } else {
        let before = codes.drop_last();
        let c = codes.last();
        let r = s.rows[c];
        let prev = store::snap_lines(before, s.rows);
        let line = store::row_line_of(c, r, r.oh);
        assert(codes[codes.len() - 1] == c);
        assert forall|k: int| 0 <= k < before.len() implies loggable(#[trigger] before[k]) by {
            assert(before[k] == codes[k]);
        }
        lemma_snap_torn(s, before);
        codec_laws::law_row_is_one_line(
            encode_utf8(c),
            encode_utf8(r.u),
            r.a as int,
            r.e as int,
            r.i as int,
            r.oh as int,
        );
        lemma_torn_after(prev, line);
        let all = aof::lines(bytes);
        assert(all.drop_last() =~= aof::lines(prev));
        let mid = choose|mid: StoreView|
            store::replays(blank(s.instance), all.drop_last(), mid)
                && #[trigger] store::line_applies(mid, all.last(), t);
        lemma_snap_replay(s, before, mid);
        law_row_line(mid, c, r, r.oh, t);
        lemma_add(r.oh, 0, 0);
        assert forall|x: Seq<char>| #[trigger] t.rows.contains_key(x) <==> codes.contains(x) by {
            if before.contains(x) {
                let k = choose|k: int| 0 <= k < before.len() && before[k] == x;
                assert(codes[k] == x);
            }
            if codes.contains(x) && x != c {
                let k = choose|k: int| 0 <= k < codes.len() && codes[k] == x;
                assert(before[k] == x);
            }
        }
        assert forall|x: Seq<char>| #[trigger] codes.contains(x) implies t.rows[x] == (Row {
            h: s.rows[x].oh,
            ..s.rows[x]
        }) by {
            if x != c {
                let k = choose|k: int| 0 <= k < codes.len() && codes[k] == x;
                assert(before[k] == x);
                assert(before.contains(x));
            }
        }
    }
}

proof fn lemma_compact(a: World, b: World)
    requires
        kept(a),
        step_compact(a, b),
    ensures
        kept(b),
{
    let codes = choose|codes: Seq<Seq<char>>| #[trigger]
        store::enumerates(codes, store::own_codes(a.s)) && b.snap == store::snap_lines(
            codes,
            a.s.rows,
        );
    assert forall|k: int| 0 <= k < codes.len() implies loggable(#[trigger] codes[k]) by {
        assert(store::own_codes(a.s).contains(codes[k]));
    }
    lemma_snap_torn(a.s, codes);
    let none = Seq::<u8>::empty();
    assert(whole_log(b) =~= none);
    assert(aof::lines(none) =~= Seq::<Seq<u8>>::empty());
    assert forall|m: StoreView| #[trigger]
        store::reopened(blank(b.s.instance), b.snap, whole_log(b), m) implies agrees(
        b.s,
        m,
    ) by {
        let mid = choose|mid: StoreView| #[trigger]
            store::replays(blank(b.s.instance), aof::lines(b.snap), mid)
                && #[trigger] store::replays(mid, aof::lines(whole_log(b)), m);
        assert(mid == m);
        lemma_snap_replay(a.s, codes, m);
        assert forall|c: Seq<char>| #[trigger] m.rows.contains_key(c) <==> b.s.rows.contains_key(
            c,
        ) by {
            if b.s.rows.contains_key(c) {
                assert(store::own_codes(a.s).contains(c));
                let k = choose|k: int| 0 <= k < codes.len() && #[trigger] codes[k] == c;
                assert(codes.contains(c));
            }
            if codes.contains(c) {
                let k = choose|k: int| 0 <= k < codes.len() && codes[k] == c;
                assert(store::own_codes(a.s).contains(codes[k]));
            }
        }
        assert forall|c: Seq<char>| #[trigger] b.s.rows.contains_key(c) implies m.rows[c] == (Row {
            h: b.s.rows[c].h,
            ..b.s.rows[c]
        }) by {
            assert(m.rows.contains_key(c));
            assert(codes.contains(c));
        }
    }
}

proof fn lemma_updated(
    a: World,
    b: World,
    code: Seq<char>,
    url: Seq<char>,
    ttl: i64,
    has_ttl: bool,
    now: i64,
    r: MutResult,
)
    requires
        kept(a),
        step_change(a, b),
        store::updated(a.s, code, url, ttl, has_ttl, now, r, b.s),
    ensures
        kept(b),
{
    if r == MutResult::Done {
        let row = b.s.rows[code];
        let line = store::row_line_of(code, row, 0);
        codec_laws::law_row_is_one_line(
            encode_utf8(code),
            encode_utf8(row.u),
            row.a as int,
            row.e as int,
            row.i as int,
            0,
        );
        lemma_torn_after(whole_log(a), line);
        assert(whole_log(b) =~= whole_log(a) + line + seq![NL]);
        assert forall|m: StoreView| #[trigger]
            store::reopened(blank(b.s.instance), b.snap, whole_log(b), m) implies agrees(
            b.s,
            m,
        ) by {
            lemma_one_more(blank(a.s.instance), a.snap, whole_log(a), line, m);
            let was = choose|was: StoreView| #[trigger]
                store::reopened(blank(a.s.instance), a.snap, whole_log(a), was)
                    && #[trigger] store::line_applies(was, line, m);
            assert(agrees(a.s, was));
            law_row_line(was, code, row, 0, m);
        }
    } else {
        assert(a == b);
    }
}

proof fn lemma_removed(a: World, b: World, code: Seq<char>, r: MutResult)
    requires
        kept(a),
        step_change(a, b),
        store::removed(a.s, code, r, b.s),
    ensures
        kept(b),
{
    if r == MutResult::Done {
        let line = codec::del_bytes(encode_utf8(code));
        codec_laws::law_tombstone_is_one_line(encode_utf8(code));
        lemma_torn_after(whole_log(a), line);
        assert(whole_log(b) =~= whole_log(a) + line + seq![NL]);
        assert forall|m: StoreView| #[trigger]
            store::reopened(blank(b.s.instance), b.snap, whole_log(b), m) implies agrees(
            b.s,
            m,
        ) by {
            lemma_one_more(blank(a.s.instance), a.snap, whole_log(a), line, m);
            let was = choose|was: StoreView| #[trigger]
                store::reopened(blank(a.s.instance), a.snap, whole_log(a), was)
                    && #[trigger] store::line_applies(was, line, m);
            assert(agrees(a.s, was));
            law_tombstone_line(was, code, m);
        }
    } else {
        assert(a == b);
    }
}

proof fn lemma_change(a: World, b: World)
    requires
        kept(a),
        step_change(a, b),
    ensures
        kept(b),
{
    if exists|code: Seq<char>, url: Seq<char>, ttl: i64, has_ttl: bool, now: i64, r: MutResult|
        #[trigger] store::updated(a.s, code, url, ttl, has_ttl, now, r, b.s) {
        let (code, url, ttl, has_ttl, now, r) = choose|
            code: Seq<char>,
            url: Seq<char>,
            ttl: i64,
            has_ttl: bool,
            now: i64,
            r: MutResult,
        | #[trigger] store::updated(a.s, code, url, ttl, has_ttl, now, r, b.s);
        lemma_updated(a, b, code, url, ttl, has_ttl, now, r);
    } else {
        let (code, r) = choose|code: Seq<char>, r: MutResult|
            #[trigger] store::removed(a.s, code, r, b.s);
        lemma_removed(a, b, code, r);
    }
}

/// A store that is opened has what its files hold.
proof fn lemma_reopen(a: World, b: World)
    requires
        kept(a),
        step_reopen(a, b),
    ensures
        kept(b),
{
    lemma_reopened_world(a, b);
    assert forall|m: StoreView| #[trigger]
        store::reopened(blank(b.s.instance), b.snap, whole_log(b), m) implies agrees(b.s, m) by {
        assert(agrees(a.s, m));
    }
}

/// Lines of a log change neither the instance, the log nor the hits that are not logged.
pub proof fn lemma_replays_frame(s: StoreView, lines: Seq<Seq<u8>>, t: StoreView)
    requires
        store::replays(s, lines, t),
    ensures
        t.instance == s.instance,
        t.log == s.log,
        t.dirty == s.dirty,
    decreases lines.len(),
{
    if lines.len() > 0 {
        let mid = choose|mid: StoreView|
            store::replays(s, lines.drop_last(), mid) && #[trigger] store::line_applies(
                mid,
                lines.last(),
                t,
            );
        lemma_replays_frame(s, lines.drop_last(), mid);
    }
}

/// What is left of a store that was closed and opened again.
pub proof fn lemma_reopened_world(a: World, b: World)
    requires
        step_reopen(a, b),
    ensures
        whole_log(b) == whole_log(a),
        b.s.instance == a.s.instance,
        b.s.dirty == Map::<Seq<char>, i64>::empty(),
        b.s.log is Some,
        exists|m: StoreView| #[trigger]
            store::reopened(blank(a.s.instance), a.snap, whole_log(a), m) && b.s == (StoreView {
                track: b.s.track,
                ..m
            }),
{
    let m = choose|m: StoreView| #[trigger]
        store::reopened(blank(a.s.instance), a.snap, a.log, m) && b.s == (StoreView {
            track: b.s.track,
            ..m
        });
    let mid = choose|mid: StoreView| #[trigger]
        store::replays(blank(a.s.instance), aof::lines(a.snap), mid) && #[trigger] store::replays(
            mid,
            aof::lines(a.log),
            m,
        );
    lemma_replays_frame(blank(a.s.instance), aof::lines(a.snap), mid);
    lemma_replays_frame(mid, aof::lines(a.log), m);
    assert(whole_log(a) =~= a.log);
    assert(whole_log(b) =~= a.log);
}

proof fn lemma_step(a: World, b: World)
    requires
        kept(a),
        step(a, b),
    ensures
        kept(b),
{
    reveal(step);
    if step_create(a, b) {
        lemma_create(a, b);
    } else if step_resolve(a, b) {
        lemma_resolve(a, b);
    } else if step_flush(a, b) {
        lemma_flush(a, b);
    } else if step_write(a, b) {
        lemma_write(a, b);
    } else if step_compact(a, b) {
        lemma_compact(a, b);
    } else if step_change(a, b) {
        lemma_change(a, b);
    } else {
        lemma_reopen(a, b);
    }
}

pub proof fn lemma_history(h: Seq<World>)
    requires
        h.len() > 0,
        starts(h[0]),
        forall|k: int| 0 < k < h.len() ==> step(h[k - 1], #[trigger] h[k]),
    ensures
        kept(h.last()),
    decreases h.len(),
{
    if h.len() == 1 {
        lemma_start(h[0]);
    } else {
        let before = h.drop_last();
        assert forall|k: int| 0 < k < before.len() implies step(before[k - 1], #[trigger] before[k]) by {
            assert(before[k] == h[k] && before[k - 1] == h[k - 1]);
        }
        lemma_history(before);
        assert(step(h[h.len() - 2], h[h.len() - 1]));
        lemma_step(before.last(), h.last());
    }
}

/// Whatever was done to the store of an instance, closing and opening it any number of
/// times among it, once everything is written a store that opens its files has the same
/// links: the same codes, and for each the same url, the same times and the same owner.
pub proof fn law_links_come_back(h: Seq<World>, m: StoreView)
    requires
        h.len() > 0,
        starts(h[0]),
        forall|k: int| 0 < k < h.len() ==> step(h[k - 1], #[trigger] h[k]),
        store::reopened(blank(h.last().s.instance), h.last().snap, whole_log(h.last()), m),
    ensures
        agrees(h.last().s, m),
{
    lemma_history(h);
}

/// A link that was created resolves to its url until it expires, and not any
/// more from then on.
pub proof fn law_created_link_resolves(
    s: StoreView,
    url: Seq<char>,
    alias: Option<Seq<char>>,
    ttl: i64,
    now: i64,
    code: Seq<char>,
    t: StoreView,
    later: i64,
    r: Option<Seq<char>>,
    u: StoreView,
)
    requires
        store::shortened(s, url, alias, ttl, now, Some(code), t),
        store::resolved(t, code, later, r, u),
    ensures
        ({
            let exp = store::expiry(now, ttl);
            if exp == 0 || later < exp {
                r == Some(url)
            } else {
                r is None
            }
        }),
{
}

/// Every url of a bulk request resolves under the code that stands at its place.
pub proof fn law_bulk_links_resolve(
    s: StoreView,
    urls: Seq<Seq<char>>,
    ttl: i64,
    now: i64,
    codes: Seq<Seq<char>>,
    t: StoreView,
    k: int,
)
    requires
        store::shortened_many(s, urls, ttl, now, codes, t),
        0 <= k < codes.len(),
    ensures
        t.rows.contains_key(codes[k]),
        t.rows[codes[k]] == store::new_row(urls[k], now, store::expiry(now, ttl), s.instance),
{
    lemma_many_row(s.rows, codes, urls, now, store::expiry(now, ttl), s.instance, k);
}

proof fn lemma_many_row(
    rows: Map<Seq<char>, Row>,
    codes: Seq<Seq<char>>,
    urls: Seq<Seq<char>>,
    now: i64,
    exp: i64,
    instance: i32,
    k: int,
)
    requires
        0 <= k < codes.len(),
        forall|i: int, j: int| 0 <= i < j < codes.len() ==> codes[i] != codes[j],
    ensures
        ({
            let m = store::many_rows(rows, codes, urls, now, exp, instance);
            m.contains_key(codes[k]) && m[codes[k]] == store::new_row(urls[k], now, exp, instance)
        }),
    decreases codes.len(),
{
    if k < codes.len() - 1 {
        lemma_many_row(rows, codes.drop_last(), urls, now, exp, instance, k);
    }
}

/// A hit counts once: what is known of the code has one hit more and is the same
/// otherwise, and no other code changes.
pub proof fn law_hit_counts_once(s: StoreView, code: Seq<char>, other: Seq<char>)
    requires
        s.track,
        s.rows.contains_key(code),
        s.rows.contains_key(other),
        other != code,
    ensures
        ({
            let t = store::counted(s, code);
            let was = store::link_of(code, s.rows[code]);
            let is = store::link_of(code, t.rows[code]);
            &&& is == (store::LinkView { hits: was.hits.wrapping_add(1), ..was })
            &&& t.rows[other] == s.rows[other]
        }),
{
}

/// A code that was removed is free again.
pub proof fn law_removed_code_is_free(
    s: StoreView,
    code: Seq<char>,
    t: StoreView,
    url: Seq<char>,
    ttl: i64,
    now: i64,
    r: Option<Seq<char>>,
    u: StoreView,
)
    requires
        store::removed(s, code, MutResult::Done, t),
        store::shortened(t, url, Some(code), ttl, now, r, u),
    ensures
        r == Some(code),
{
}

/// Only the instance that owns a link can update or remove it.
pub proof fn law_only_the_owner_changes(
    s: StoreView,
    code: Seq<char>,
    url: Seq<char>,
    ttl: i64,
    has_ttl: bool,
    now: i64,
    r: MutResult,
    t: StoreView,
)
    requires
        s.rows.contains_key(code),
        s.rows[code].i != s.instance,
        store::updated(s, code, url, ttl, has_ttl, now, r, t) || store::removed(s, code, r, t),
    ensures
        r == MutResult::Remote,
        t == s,
{
}

/// A link without an alias always gets a code, in a store that has room for one.
pub proof fn law_link_gets_a_code(
    s: StoreView,
    url: Seq<char>,
    ttl: i64,
    now: i64,
    r: Option<Seq<char>>,
    t: StoreView,
)
    requires
        store::shortened(s, url, None, ttl, now, r, t),
        s.rows.dom().finite(),
        s.rows.dom().len() < store::CODES,
    ensures
        r is Some,
{
    store::law_some_code_is_free(s.instance, s.rows);
}

proof fn lemma_many_len(
    rows: Map<Seq<char>, Row>,
    codes: Seq<Seq<char>>,
    urls: Seq<Seq<char>>,
    now: i64,
    exp: i64,
    instance: i32,
)
    requires
        rows.dom().finite(),
    ensures
        store::many_rows(rows, codes, urls, now, exp, instance).dom().finite(),
        store::many_rows(rows, codes, urls, now, exp, instance).dom().len() <= rows.dom().len()
            + codes.len(),
    decreases codes.len(),
{
    if codes.len() > 0 {
        let before = store::many_rows(rows, codes.drop_last(), urls, now, exp, instance);
        lemma_many_len(rows, codes.drop_last(), urls, now, exp, instance);
        let all = store::many_rows(rows, codes, urls, now, exp, instance);
        assert(all.dom() =~= before.dom().insert(codes.last()));
    }
}

/// Every url of a bulk request gets a code, in a store that has room for as many.
pub proof fn law_bulk_links_get_codes(
    s: StoreView,
    urls: Seq<Seq<char>>,
    ttl: i64,
    now: i64,
    codes: Seq<Seq<char>>,
    t: StoreView,
)
    requires
        store::shortened_many(s, urls, ttl, now, codes, t),
        s.rows.dom().finite(),
        s.rows.dom().len() + urls.len() <= store::CODES,
    ensures
        codes.len() == urls.len(),
{
    if codes.len() < urls.len() {
        lemma_many_len(s.rows, codes, urls, now, store::expiry(now, ttl), s.instance);
        store::law_some_code_is_free(s.instance, t.rows);
    }
}

// ---------- the steps of a history ----------

/// Writing to the log what the store hands out for it is a step of a history.
pub proof fn law_taken_log_is_written(a: World, bytes: Seq<u8>, t: StoreView)
    requires
        a.s.log is Some,
        store::log_taken(a.s, bytes, t),
    ensures
        step(a, World { s: t, snap: a.snap, log: a.log + bytes }),
        whole_log(World { s: t, snap: a.snap, log: a.log + bytes }) == whole_log(a),
{
    reveal(step);
    let b = World { s: t, snap: a.snap, log: a.log + bytes };
    assert(step_write(a, b));
    assert(whole_log(b) =~= whole_log(a));
}

/// Putting the snapshot that a store makes in the place of its log is a step of a history;
/// no link and no hit of the store is another then. There is none where nothing lasts.
pub proof fn law_snapshot_takes_the_place_of_the_log(
    a: World,
    snap: Option<Seq<u8>>,
    t: StoreView,
)
    requires
        store::compacted(a.s, snap, t),
    ensures
        snap is Some <==> a.s.log is Some,
        t.rows == a.s.rows,
        snap matches Some(b) ==> step(a, World { s: t, snap: b, log: Seq::empty() }),
{
    reveal(step);
    if let Some(b) = snap {
        assert(step_compact(a, World { s: t, snap: b, log: Seq::empty() }));
    }
}

/// A store that is closed and opened again on what it wrote is a step of a history.
pub proof fn law_opening_is_a_step(a: World, m: StoreView)
    requires
        a.s.log == Some(AofView { queued: Seq::empty(), flushed: Seq::empty() }),
        a.s.dirty == Map::<Seq<char>, i64>::empty(),
        store::reopened(blank(a.s.instance), a.snap, a.log, m),
    ensures
        step(a, World { s: m, ..a }),
{
    reveal(step);
    assert(m == StoreView { track: m.track, ..m });
    assert(step_reopen(a, World { s: m, ..a }));
}

// ---------- misses ----------

/// A code of 8 letters and digits that is missed is looked for in the log of the instance
/// that its first letter stands for, from the start if that was not read before. Any other
/// code, and one of this instance, is looked for in all logs, but not before 200 ms have
/// passed since they were last read.
pub proof fn law_missed_code_is_looked_for(
    s: StoreView,
    code: Seq<char>,
    owner: int,
    now: i64,
    r: store::Missed,
    t: StoreView,
)
    requires
        s.log is Some,
        store::sought(s, code, now, r, t),
        code.len() > 0,
        0 <= s.last_poll <= now,
    ensures
        t.rows == s.rows,
        0 <= owner < store::MAX_INSTANCES && owner != s.instance && store::generated(owner, code)
            ==> {
            &&& r is Log
            &&& encode_utf8(r->0@) == text::lit("data-") + text::decimal(owner) + text::lit(".log")
            &&& t.readers.contains_key(r->0@)
            &&& s.readers.contains_key(r->0@) ==> t.readers == s.readers
            &&& !s.readers.contains_key(r->0@) ==> t.readers[r->0@].offset == 0
                && t.readers[r->0@].leftover.len() == 0
            &&& t.last_poll == now
        },
        encode_utf8(code).len() != 8 || (0 <= s.instance < store::MAX_INSTANCES && store::generated(
            s.instance as int,
            code,
        )) ==> t == s && (if now - s.last_poll >= 200 {
            r is All
        } else {
            r is Nothing
        }),
{
    if 0 <= owner < store::MAX_INSTANCES && owner != s.instance && store::generated(owner, code) {
        store::law_generated_code_names_its_owner(owner, s.instance as int, code);
    }
    if 0 <= s.instance < store::MAX_INSTANCES && store::generated(s.instance as int, code) {
        store::law_generated_code_names_its_owner(s.instance as int, -1, code);
    }
}

/// Logs that are found are followed from the start; those that are followed already are
/// read on from where they are.
pub proof fn law_found_logs_are_followed(
    readers: Map<Seq<char>, aof::TailView>,
    names: Seq<Seq<char>>,
    x: Seq<char>,
)
    ensures
        ({
            let all = store::discovered(readers, names);
            &&& all.contains_key(x) <==> readers.contains_key(x) || names.contains(x)
            &&& readers.contains_key(x) ==> all[x] == readers[x]
            &&& !readers.contains_key(x) && names.contains(x) ==> all[x].offset == 0
                && all[x].leftover.len() == 0 && all[x].path == x
        }),
    decreases names.len(),
{
    if names.len() > 0 {
        let front = names.drop_last();
        law_found_logs_are_followed(readers, front, x);
        if names.contains(x) {
            let k = choose|k: int| 0 <= k < names.len() && names[k] == x;
            if k < front.len() {
                assert(front[k] == x);
            }
        }
        if front.contains(x) {
            let k = choose|k: int| 0 <= k < front.len() && front[k] == x;
            assert(names[k] == x);
        }
        if names.last() == x {
            assert(names[names.len() - 1] == x);
        }
    }
}

/// The logs of siblings are the files that are named `data-` something `.log`, but for the
/// own one; none is left out, and nothing else is one.
pub proof fn law_logs_go_by_their_names(names: Seq<Seq<char>>, own: Seq<char>, x: Seq<char>)
    ensures
        aof::sibling_logs(names, own).contains(x) <==> names.contains(x) && x != own
            && text::begins(encode_utf8(x), text::lit("data-")) && text::ends(
            encode_utf8(x),
            text::lit(".log"),
        ),
    decreases names.len(),
{
    let all = aof::sibling_logs(names, own);
    if names.len() > 0 {
        let front = names.drop_last();
        let rest = aof::sibling_logs(front, own);
        law_logs_go_by_their_names(front, own, x);
        if names.contains(x) {
            let k = choose|k: int| 0 <= k < names.len() && names[k] == x;
            if k < front.len() {
                assert(front[k] == x);
            } else if aof::is_log(x) && x != own {
                assert(all[rest.len() as int] == x);
            }
        }
        if rest.contains(x) {
            let k = choose|k: int| 0 <= k < rest.len() && rest[k] == x;
            assert(all[k] == x);
            let j = choose|j: int| 0 <= j < front.len() && front[j] == x;
            assert(names[j] == x);
        }
        if all.contains(x) && !rest.contains(x) {
            let k = choose|k: int| 0 <= k < all.len() && all[k] == x;
            if k < rest.len() {
                assert(rest[k] == x);
            }
            assert(names[names.len() - 1] == x);
        }
    }
}

// ---------- settings ----------

/// A setting that is a number is that number; where it is none, or not there, the default
/// counts. So it is with a text. Hits are counted unless the setting is `0`.
pub proof fn law_setting_is_what_it_says(n: i64, t: Seq<char>, def: i64, hi: int)
    ensures
        0 <= n <= hi ==> store::count_setting(
            Some(text::ascii_text(text::decimal(n as int))),
            hi,
            def as int,
        ) == n,
        n < 0 || n > hi ==> store::count_setting(
            Some(text::ascii_text(text::decimal(n as int))),
            hi,
            def as int,
        ) == def,
        store::count_setting(None, hi, def as int) == def,
        store::text_setting(Some(t), "*"@) == t,
        store::text_setting(None, t) == t,
        store::counts_hits(None),
        store::counts_hits(Some(t)) <==> t != "0"@,
        store::setting(Some(text::ascii_text(text::decimal(n as int))), def) == n,
        store::setting(None, def) == def,
        t.len() == 0 ==> store::setting(Some(t), def) == def,
        (exists|k: int|
            0 <= k < t.len() && !('0' <= #[trigger] t[k] <= '9') && t[k] != '+' && t[k] != '-')
            ==> store::setting(Some(t), def) == def,
{
    text::law_decimal_reads_back(n as int);
    text::lemma_decimal(n as int);
    let d = text::ascii_text(text::decimal(n as int));
    assert(d[0] == text::decimal(n as int)[0] as char);
    if exists|k: int|
        0 <= k < t.len() && !('0' <= #[trigger] t[k] <= '9') && t[k] != '+' && t[k] != '-' {
        let k = choose|k: int|
            0 <= k < t.len() && !('0' <= #[trigger] t[k] <= '9') && t[k] != '+' && t[k] != '-';
        assert(!text::is_digit(t[k]));
        if k > 0 {
            assert(t.drop_first()[k - 1] == t[k]);
        }
    }
}

// ---------- single operations ----------

/// An update that is done changes the url of the link, and its end if a lifetime is given,
/// and nothing else of it: what is known of it is the same otherwise. No other link changes.
pub proof fn law_update_keeps_the_rest(
    s: StoreView,
    code: Seq<char>,
    url: Seq<char>,
    ttl_ms: i64,
    has_ttl: bool,
    now: i64,
    r: MutResult,
    t: StoreView,
    other: Seq<char>,
)
    requires
        store::updated(s, code, url, ttl_ms, has_ttl, now, r, t),
        now + ttl_ms <= i64::MAX,
        0 <= now,
    ensures
        r == MutResult::Done <==> s.rows.contains_key(code) && s.rows[code].i == s.instance,
        r == MutResult::Missing <==> !s.rows.contains_key(code),
        r != MutResult::Done ==> t == s,
        r == MutResult::Done ==> {
            let was = store::link_of(code, s.rows[code]);
            let then_known = store::link_of(code, t.rows[code]);
            &&& t.rows.contains_key(code)
            &&& then_known.code == code
            &&& then_known.url == url
            &&& then_known.hits == was.hits
            &&& then_known.created_at == was.created_at
            &&& !has_ttl ==> then_known.expires_at == was.expires_at
            &&& has_ttl && ttl_ms > 0 ==> then_known.expires_at == Some((now + ttl_ms) as i64)
            &&& has_ttl && ttl_ms <= 0 ==> then_known.expires_at is None
            &&& t.rows[code].i == s.rows[code].i
            &&& t.rows[code].oh == s.rows[code].oh
        },
        other != code ==> (t.rows.contains_key(other) <==> s.rows.contains_key(other)) && (
        s.rows.contains_key(other) ==> t.rows[other] == s.rows[other]),
        t.dirty == s.dirty,
{
}

/// A store that is new has nothing in it and counts hits. One that lasts is opened for the
/// id that is asked for, or, if that is negative, for the one that is claimed first.
pub proof fn law_new_store_is_empty(
    dir: Seq<char>,
    log: Option<AofView>,
    instance: i32,
    code: Seq<char>,
    claimed: Option<i32>,
)
    ensures
        !store::fresh(log, instance).rows.contains_key(code),
        !store::fresh(log, instance).dirty.contains_key(code),
        store::fresh(log, instance).track,
        store::fresh(log, instance).instance == instance,
        instance >= 0 ==> store::wanted_id(instance, claimed) == Some(instance),
        instance < 0 ==> store::wanted_id(instance, claimed) == claimed,
        store::claims(dir, instance) <==> instance < 0 && dir != ":memory:"@,
{
}

/// Hits that are read before their row are kept, as long as there are such hits of less than
/// 10000 codes, and are added to the row when it comes.
pub proof fn law_early_hits_are_kept(
    m: StoreView,
    c: Seq<char>,
    d: i64,
    i: i32,
    t: StoreView,
    r: Row,
    n: i64,
    u: StoreView,
)
    requires
        loggable(c),
        !m.rows.contains_key(c),
        !m.stray.contains_key(c),
        m.stray.dom().finite(),
        m.stray.dom().len() < 10000,
        store::line_applies(m, codec::hit_bytes(encode_utf8(c), d as int, i as int), t),
        store::line_applies(t, store::row_line_of(c, r, n), u),
    ensures
        t.rows == m.rows,
        u.rows.contains_key(c),
        u.rows[c].h == n.wrapping_add(d),
        u.rows[c].oh == (if m.instance == i {
            n.wrapping_add(d)
        } else {
            n
        }),
        !u.stray.contains_key(c),
{
    codec_laws::law_hit_reads_back(c, d as int, i as int);
    law_row_line(t, c, r, n, u);
}

/// The first links are stored each under a code of its own that was free, and never expire;
/// every link that was there before stays, and nothing is left to be handed over.
pub proof fn law_first_links_are_stored(s: StoreView, urls: Seq<Seq<char>>, t: StoreView, k: int)
    requires
        store::seeded(s, urls, t),
        s.rows.dom().finite(),
        s.rows.dom().len() + urls.len() <= store::CODES,
    ensures
        0 <= k < urls.len() ==> exists|c: Seq<char>|
            !s.rows.contains_key(c) && #[trigger] t.rows.contains_key(c) && t.rows[c].u == urls[k]
                && t.rows[c].e == 0 && t.rows[c].h == 0 && t.rows[c].i == s.instance,
        t.log matches Some(l) ==> l.queued.len() == 0,
        s.log is Some ==> t.dirty == Map::<Seq<char>, i64>::empty(),
{
    let (now, codes, mid, hits) = choose|
        now: i64,
        codes: Seq<Seq<char>>,
        mid: StoreView,
        hits: Seq<Seq<char>>,
    |
        #[trigger] store::shortened_many(s, urls, 0, now, codes, mid)
            && #[trigger] store::flushed_with(mid, hits, t);
    law_bulk_links_get_codes(s, urls, 0, now, codes, mid);
    if 0 <= k < urls.len() {
        law_bulk_links_resolve(s, urls, 0, now, codes, mid, k);
        assert(t.rows.contains_key(codes[k]));
    }
}

// ---------- what is written ----------

/// All that a store has for its log.
pub open spec fn log_content(s: StoreView) -> Seq<u8> {
    s.log->0.flushed + s.log->0.queued
}

/// What is written of a change: a new link has a line with its url, times and owner and no
/// hits, and so has a changed one; a removed one has a line that says so. Nothing else is
/// written, and nothing that was to be written is lost.
pub proof fn law_changes_are_logged(
    s: StoreView,
    url: Seq<char>,
    alias: Option<Seq<char>>,
    ttl_ms: i64,
    has_ttl: bool,
    now: i64,
    code: Seq<char>,
    t: StoreView,
)
    requires
        s.log is Some,
    ensures
        store::shortened(s, url, alias, ttl_ms, now, Some(code), t) ==> t.log is Some
            && log_content(t) == log_content(s) + codec::row_bytes(
            encode_utf8(code),
            encode_utf8(url),
            now as int,
            t.rows[code].e as int,
            s.instance as int,
            0,
        ) + seq![NL],
        store::updated(s, code, url, ttl_ms, has_ttl, now, MutResult::Done, t) ==> t.log is Some
            && log_content(t) == log_content(s) + codec::row_bytes(
            encode_utf8(code),
            encode_utf8(url),
            s.rows[code].a as int,
            t.rows[code].e as int,
            s.instance as int,
            0,
        ) + seq![NL],
        store::removed(s, code, MutResult::Done, t) ==> t.log is Some && log_content(t)
            == log_content(s) + codec::del_bytes(encode_utf8(code)) + seq![NL],
{
    let l = s.log->0;
    if store::shortened(s, url, alias, ttl_ms, now, Some(code), t) {
        let line = codec::row_bytes(
            encode_utf8(code),
            encode_utf8(url),
            now as int,
            t.rows[code].e as int,
            s.instance as int,
            0,
        );
        assert(log_content(t) =~= log_content(s) + line + seq![NL]);
    }
    if store::updated(s, code, url, ttl_ms, has_ttl, now, MutResult::Done, t) {
        let line = codec::row_bytes(
            encode_utf8(code),
            encode_utf8(url),
            s.rows[code].a as int,
            t.rows[code].e as int,
            s.instance as int,
            0,
        );
        assert(log_content(t) =~= log_content(s) + line + seq![NL]);
    }
    if store::removed(s, code, MutResult::Done, t) {
        assert(log_content(t) =~= log_content(s) + codec::del_bytes(encode_utf8(code)) + seq![NL]);
    }
}

/// The lines of a snapshot.
spec fn snap_list(codes: Seq<Seq<char>>, rows: Map<Seq<char>, Row>) -> Seq<Seq<u8>> {
    Seq::new(
        codes.len(),
        |i: int| store::row_line_of(codes[i], rows[codes[i]], rows[codes[i]].oh),
    )
}

proof fn lemma_snap_list(codes: Seq<Seq<char>>, rows: Map<Seq<char>, Row>)
    requires
        codes.len() > 0,
    ensures
        snap_list(codes, rows) == snap_list(codes.drop_last(), rows).push(
            store::row_line_of(codes.last(), rows[codes.last()], rows[codes.last()].oh),
        ),
{
    assert(snap_list(codes, rows) =~= snap_list(codes.drop_last(), rows).push(
        store::row_line_of(codes.last(), rows[codes.last()], rows[codes.last()].oh),
    ));
}

proof fn lemma_row_line_unbroken(c: Seq<char>, r: Row, n: i64)
    requires
        loggable(c),
    ensures
        store::row_line_of(c, r, n).len() > 0,
        codec_laws::unbroken(store::row_line_of(c, r, n)),
{
    codec_laws::law_row_is_one_line(
        encode_utf8(c),
        encode_utf8(r.u),
        r.a as int,
        r.e as int,
        r.i as int,
        n as int,
    );
}

proof fn lemma_snap_lines(codes: Seq<Seq<char>>, rows: Map<Seq<char>, Row>)
    requires
        forall|k: int| 0 <= k < codes.len() ==> loggable(#[trigger] codes[k]),
    ensures
        aof::torn(store::snap_lines(codes, rows)) == Seq::<u8>::empty(),
        aof::lines(store::snap_lines(codes, rows)) == snap_list(codes, rows),
    decreases codes.len(),
{
    if codes.len() == 0 {
        assert(aof::lines(Seq::<u8>::empty()) =~= Seq::<Seq<u8>>::empty());
        assert(snap_list(codes, rows) =~= Seq::<Seq<u8>>::empty());
    } else {
        let c = codes.last();
        assert(c == codes[codes.len() - 1]);
        assert forall|k: int| 0 <= k < codes.drop_last().len() implies loggable(
            #[trigger] codes.drop_last()[k],
        ) by {
            assert(codes.drop_last()[k] == codes[k]);
        }
        lemma_snap_lines(codes.drop_last(), rows);
        lemma_row_line_unbroken(c, rows[c], rows[c].oh);
        lemma_torn_after(
            store::snap_lines(codes.drop_last(), rows),
            store::row_line_of(c, rows[c], rows[c].oh),
        );
        lemma_snap_list(codes, rows);
    }
}

/// A snapshot has one line for each link of this instance, with the hits that this instance
/// counted; those that siblings counted are in their logs. It has no other lines.
pub proof fn law_snapshot_has_the_own_links_and_hits(
    s: StoreView,
    b: Seq<u8>,
    t: StoreView,
    line: Seq<u8>,
)
    requires
        store::compacted(s, Some(b), t),
        forall|c: Seq<char>| #[trigger] s.rows.contains_key(c) ==> loggable(c),
    ensures
        aof::lines(b).contains(line) <==> exists|c: Seq<char>|
            #[trigger] s.rows.contains_key(c) && s.rows[c].i == s.instance && line
                == codec::row_bytes(
                encode_utf8(c),
                encode_utf8(s.rows[c].u),
                s.rows[c].a as int,
                s.rows[c].e as int,
                s.instance as int,
                s.rows[c].oh as int,
            ),
{
    let codes = choose|codes: Seq<Seq<char>>| #[trigger]
        store::enumerates(codes, store::own_codes(s)) && b == store::snap_lines(codes, s.rows);
    assert forall|k: int| 0 <= k < codes.len() implies loggable(#[trigger] codes[k]) by {
        assert(store::own_codes(s).contains(codes[k]));
    }
    lemma_snap_lines(codes, s.rows);
    let all = aof::lines(b);
    if all.contains(line) {
        let k = choose|k: int| 0 <= k < all.len() && all[k] == line;
        assert(store::own_codes(s).contains(codes[k]));
        assert(s.rows.contains_key(codes[k]));
    }
    if exists|c: Seq<char>|
        #[trigger] s.rows.contains_key(c) && s.rows[c].i == s.instance && line == codec::row_bytes(
            encode_utf8(c),
            encode_utf8(s.rows[c].u),
            s.rows[c].a as int,
            s.rows[c].e as int,
            s.instance as int,
            s.rows[c].oh as int,
        ) {
        let c = choose|c: Seq<char>|
            #[trigger] s.rows.contains_key(c) && s.rows[c].i == s.instance && line
                == codec::row_bytes(
                encode_utf8(c),
                encode_utf8(s.rows[c].u),
                s.rows[c].a as int,
                s.rows[c].e as int,
                s.instance as int,
                s.rows[c].oh as int,
            );
        assert(store::own_codes(s).contains(c));
        let k = choose|k: int| 0 <= k < codes.len() && #[trigger] codes[k] == c;
        assert(all[k] == line);
    }
}

} // verus!
