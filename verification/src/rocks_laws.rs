//! What a database that does what it is asked has of the links.

use vstd::bytes::*;
use vstd::prelude::*;
use vstd::utf8::*;

use crate::app::{ListView, OutcomeView, PlanView};
use crate::app_laws;
use crate::listing;
use crate::lru;
use crate::metrics::MetricsView;
use crate::rocks_jobs;
use crate::rocks_jobs::{AskView, JobView, ToldView, WaitView, WhyView};
use crate::store;
use crate::store::{LinkView, MutResult};
use crate::store_kv;
use crate::store_rocks;
use crate::store_rocks::{DbRow, FoundView, RocksView};

verus! {

/// What a database holds: links, and the hits of links.
#[verifier::ext_equal]
pub ghost struct Base {
    pub links: Map<Seq<char>, Seq<u8>>,
    pub hits: Map<Seq<char>, Seq<u8>>,
}

/// What lies under a code, if anything does.
pub open spec fn under(m: Map<Seq<char>, Seq<u8>>, code: Seq<char>) -> Option<Seq<u8>> {
    if m.contains_key(code) {
        Some(m[code])
    } else {
        None
    }
}

/// Links with some rows written over them, one after the other.
pub open spec fn with_rows(
    m: Map<Seq<char>, Seq<u8>>,
    rows: Seq<(Seq<char>, Seq<u8>)>,
) -> Map<Seq<char>, Seq<u8>>
    decreases rows.len(),
{
    if rows.len() == 0 {
        m
    } else {
        with_rows(m, rows.drop_last()).insert(rows.last().0, rows.last().1)
    }
}

/// What a database answers to a question on links, and what it holds from then on. Of
/// hits that are added and of walks over all rows nothing is said here.
pub open spec fn answered(d: Base, ask: AskView) -> (ToldView, Base) {
    match ask {
        AskView::Read { code } => (ToldView::Value(under(d.links, code)), d),
        AskView::Claim { code } => (ToldView::Value(under(d.links, code)), d),
        AskView::Put { code, value } => (
            ToldView::Written,
            Base { links: d.links.insert(code, value), ..d },
        ),
        AskView::PutAll { rows } => (
            ToldView::Written,
            Base { links: with_rows(d.links, rows), ..d },
        ),
        AskView::Delete { code } => (ToldView::Written, Base { links: d.links.remove(code), ..d }),
        AskView::DeleteBoth { code } => (
            ToldView::Written,
            Base { links: d.links.remove(code), hits: d.hits.remove(code) },
        ),
        AskView::Hits { code } => (ToldView::Value(under(d.hits, code)), d),
        _ => (ToldView::Failed, d),
    }
}

/// What a request comes to once the database has answered its question: the database, the
/// store and the counters that are left, and what is next.
pub open spec fn goes_on(
    d: Base,
    s: RocksView,
    m: MetricsView,
    j: JobView,
    now: i64,
    e: Base,
    t: RocksView,
    n: MetricsView,
    k: JobView,
) -> bool {
    j matches JobView::Next { ask, wait } && e == answered(d, ask).1 && exists|us: i64| #[trigger]
        rocks_jobs::advanced(s, m, wait, answered(d, ask).0, us, now, t, n, k)
}

// ---------- laws ----------

/// A request for a link under an alias is granted exactly if nothing lies there; the link
/// is then found until it expires, and every other one stays. Else nothing changes.
pub proof fn law_alias_request(
    d: Base,
    s: RocksView,
    m: MetricsView,
    a: Seq<char>,
    url: Seq<char>,
    ttl_ms: i64,
    now: i64,
    later: i64,
    s1: RocksView,
    m1: MetricsView,
    j1: JobView,
    e: Base,
    s2: RocksView,
    m2: MetricsView,
    j2: JobView,
    f: Base,
    s3: RocksView,
    m3: MetricsView,
    j3: JobView,
)
    requires
        rocks_jobs::begun(
            s,
            m,
            (PlanView::Shorten { url, alias: Some(a), ttl_ms }),
            now,
            s1,
            m1,
            j1,
        ),
        goes_on(d, s1, m1, j1, now, e, s2, m2, j2),
        j2 is Next ==> goes_on(e, s2, m2, j2, now, f, s3, m3, j3),
    ensures
        if under(d.links, a) is None {
            &&& j3 == JobView::Done(OutcomeView::Created(Some(a)))
            &&& f == (Base {
                links: d.links.insert(a, store_rocks::new_value(url, ttl_ms, now)),
                ..d
            })
            &&& !store_kv::past(store::expiry(now, ttl_ms), later) ==> store_rocks::found_at(
                under(f.links, a),
                later,
            ) == FoundView::Live(store::expiry(now, ttl_ms), now, url)
        } else {
            &&& j2 == JobView::Done(OutcomeView::Created(None))
            &&& e == d
        },
{
    store_rocks::law_stored_link_is_found(url, ttl_ms, now, later);
}

/// A lookup that the cache cannot answer is answered by what the database has. A link that
/// has expired is not found, and is gone; nothing else changes.
pub proof fn law_lookup_request(
    d: Base,
    s: RocksView,
    m: MetricsView,
    code: Seq<char>,
    now: i64,
    s1: RocksView,
    m1: MetricsView,
    j1: JobView,
    e: Base,
    s2: RocksView,
    m2: MetricsView,
    j2: JobView,
    f: Base,
    s3: RocksView,
    m3: MetricsView,
    j3: JobView,
)
    requires
        lru::fresh_entry(s.cache, code, now) is None,
        rocks_jobs::begun(s, m, (PlanView::Resolve { code }), now, s1, m1, j1),
        goes_on(d, s1, m1, j1, now, e, s2, m2, j2),
        j2 is Next ==> goes_on(e, s2, m2, j2, now, f, s3, m3, j3),
    ensures
        e == d,
        match store_rocks::found_at(under(d.links, code), now) {
            FoundView::Live(_, _, u) => j2 == JobView::Done(OutcomeView::Target(Some(u))),
            FoundView::Missing => j2 == JobView::Done(OutcomeView::Target(None)),
            FoundView::Expired => {
                &&& j3 == JobView::Done(OutcomeView::Target(None))
                &&& f == (Base { links: d.links.remove(code), ..d })
            },
        },
{
}

/// What is known of a link that is found is what the database has of it and of its hits,
/// and the hits that were not written yet. Of any other nothing is known.
pub proof fn law_stats_request(
    d: Base,
    s: RocksView,
    m: MetricsView,
    code: Seq<char>,
    now: i64,
    s1: RocksView,
    m1: MetricsView,
    j1: JobView,
    e: Base,
    s2: RocksView,
    m2: MetricsView,
    j2: JobView,
    f: Base,
    s3: RocksView,
    m3: MetricsView,
    j3: JobView,
)
    requires
        rocks_jobs::begun(s, m, (PlanView::Stats { code }), now, s1, m1, j1),
        goes_on(d, s1, m1, j1, now, e, s2, m2, j2),
        j2 is Next ==> goes_on(e, s2, m2, j2, now, f, s3, m3, j3),
    ensures
        match store_rocks::found_at(under(d.links, code), now) {
            FoundView::Missing => j2 == JobView::Done(OutcomeView::Found(None)),
            _ => j3 == JobView::Done(
                OutcomeView::Found(
                    store_rocks::stats_of(
                        s,
                        code,
                        under(d.links, code),
                        under(d.hits, code),
                        now,
                    ),
                ),
            ),
        },
{
}

/// A request for another url is granted exactly if the link is found; it is then found
/// with that url, unless its lifetime has ended, and is not cached. Every other one stays.
pub proof fn law_update_request(
    d: Base,
    s: RocksView,
    m: MetricsView,
    code: Seq<char>,
    url: Seq<char>,
    ttl_ms: i64,
    has_ttl: bool,
    now: i64,
    later: i64,
    s1: RocksView,
    m1: MetricsView,
    j1: JobView,
    e: Base,
    s2: RocksView,
    m2: MetricsView,
    j2: JobView,
    f: Base,
    s3: RocksView,
    m3: MetricsView,
    j3: JobView,
)
    requires
        rocks_jobs::begun(
            s,
            m,
            (PlanView::Update { code, url, ttl_ms, has_ttl }),
            now,
            s1,
            m1,
            j1,
        ),
        goes_on(d, s1, m1, j1, now, e, s2, m2, j2),
        j2 is Next ==> goes_on(e, s2, m2, j2, now, f, s3, m3, j3),
    ensures
        match store_rocks::found_at(under(d.links, code), now) {
            FoundView::Live(exp, c, _) => {
                let until = if has_ttl {
                    store_rocks::after(now, ttl_ms)
                } else {
                    exp
                };
                &&& j3 == JobView::Done(OutcomeView::Changed(MutResult::Done))
                &&& s3 == (RocksView { cache: lru::after_remove(s.cache, code), ..s })
                &&& f.links == d.links.insert(code, f.links[code])
                &&& f.hits == d.hits
                &&& !store_kv::past(until, later) ==> store_rocks::found_at(
                    under(f.links, code),
                    later,
                ) == FoundView::Live(until, c, url)
            },
            FoundView::Missing => j2 == JobView::Done(OutcomeView::Changed(MutResult::Missing))
                && e == d,
            FoundView::Expired => j3 == JobView::Done(OutcomeView::Changed(MutResult::Missing))
                && f == (Base { links: d.links.remove(code), ..d }),
        },
{
    store_rocks::law_updated_link_is_found(
        under(d.links, code),
        url,
        ttl_ms,
        has_ttl,
        now,
        later,
    );
}

/// A request for a removal is granted exactly if the link is found; neither it nor its
/// hits are there any more, and it is not cached. Every other one stays.
pub proof fn law_removal_request(
    d: Base,
    s: RocksView,
    m: MetricsView,
    code: Seq<char>,
    now: i64,
    s1: RocksView,
    m1: MetricsView,
    j1: JobView,
    e: Base,
    s2: RocksView,
    m2: MetricsView,
    j2: JobView,
    f: Base,
    s3: RocksView,
    m3: MetricsView,
    j3: JobView,
)
    requires
        rocks_jobs::begun(s, m, (PlanView::Remove { code }), now, s1, m1, j1),
        goes_on(d, s1, m1, j1, now, e, s2, m2, j2),
        j2 is Next ==> goes_on(e, s2, m2, j2, now, f, s3, m3, j3),
    ensures
        match store_rocks::found_at(under(d.links, code), now) {
            FoundView::Live(..) => {
                &&& j3 == JobView::Done(OutcomeView::Changed(MutResult::Done))
                &&& s3 == (RocksView { cache: lru::after_remove(s.cache, code), ..s })
                &&& f == (Base { links: d.links.remove(code), hits: d.hits.remove(code) })
            },
            FoundView::Missing => j2 == JobView::Done(OutcomeView::Changed(MutResult::Missing))
                && e == d,
            FoundView::Expired => j3 == JobView::Done(OutcomeView::Changed(MutResult::Missing))
                && f == (Base { links: d.links.remove(code), ..d }),
        },
{
}

/// Rows that lie under codes of their own are all there when they were written together.
proof fn lemma_rows(m: Map<Seq<char>, Seq<u8>>, rows: Seq<(Seq<char>, Seq<u8>)>, i: int)
    requires
        0 <= i < rows.len(),
        forall|k: int, n: int| 0 <= k < n < rows.len() ==> (#[trigger] rows[k]).0 != (
        #[trigger] rows[n]).0,
    ensures
        with_rows(m, rows).contains_key(rows[i].0),
        with_rows(m, rows)[rows[i].0] == rows[i].1,
    decreases rows.len(),
{
    if i < rows.len() - 1 {
        let front = rows.drop_last();
        assert forall|k: int, n: int| 0 <= k < n < front.len() implies (#[trigger] front[k]).0 != (
        #[trigger] front[n]).0 by {
            assert(rows[k].0 != rows[n].0);
        }
        lemma_rows(m, front, i);
        assert(front[i] == rows[i]);
        assert(rows[i].0 != rows[rows.len() - 1].0);
    }
}

/// Rows leave every link alone whose code they do not have.
proof fn lemma_rows_beside(
    m: Map<Seq<char>, Seq<u8>>,
    rows: Seq<(Seq<char>, Seq<u8>)>,
    c: Seq<char>,
)
    requires
        forall|k: int| 0 <= k < rows.len() ==> (#[trigger] rows[k]).0 != c,
    ensures
        under(with_rows(m, rows), c) == under(m, c),
    decreases rows.len(),
{
    if rows.len() > 0 {
        let front = rows.drop_last();
        assert forall|k: int| 0 <= k < front.len() implies (#[trigger] front[k]).0 != c by {
            assert(front[k] == rows[k]);
        }
        lemma_rows_beside(m, front, c);
        assert(rows[rows.len() - 1].0 != c);
    }
}

/// A moment of a request: what the database holds, the store, the counters, and what is
/// next.
pub ghost struct Moment {
    pub d: Base,
    pub s: RocksView,
    pub m: MetricsView,
    pub j: JobView,
}

/// Codes that an instance may make, no two of them the same, that are free.
pub open spec fn free_codes(d: Base, s: RocksView, codes: Seq<Seq<char>>) -> bool {
    &&& rocks_jobs::apart(codes)
    &&& forall|k: int|
        0 <= k < codes.len() ==> store_rocks::generated(s.instance as int, #[trigger] codes[k])
            && !d.links.contains_key(codes[k])
}

/// Links that are asked for together are on their way to be written.
spec fn gathering(
    d: Base,
    s: RocksView,
    x: Moment,
    urls: Seq<Seq<char>>,
    ttl_ms: i64,
    now: i64,
) -> bool {
    &&& x.d == d
    &&& x.s == s
    &&& x.j matches JobView::Next { ask, wait } && match wait {
        WaitView::Gather { urls: us, codes, ttl_ms: ttl, code } => {
            &&& us == urls
            &&& ttl == ttl_ms
            &&& ask == (AskView::Claim { code })
            &&& store_rocks::generated(s.instance as int, code)
            &&& free_codes(d, s, codes)
            &&& codes.len() < urls.len()
        },
        WaitView::Many { urls: us, codes, ttl_ms: ttl } => {
            &&& us == urls
            &&& ttl == ttl_ms
            &&& ask == (AskView::PutAll {
                rows: store_rocks::new_rows(codes, urls, ttl_ms, now),
            })
            &&& free_codes(d, s, codes)
            &&& codes.len() == urls.len()
        },
        _ => false,
    }
}

/// Links that were asked for together are written.
spec fn written(
    d: Base,
    s: RocksView,
    x: Moment,
    urls: Seq<Seq<char>>,
    ttl_ms: i64,
    now: i64,
) -> bool {
    &&& x.j matches JobView::Done(OutcomeView::CreatedMany(codes))
    &&& free_codes(d, s, codes)
    &&& codes.len() == urls.len()
    &&& x.d == Base {
        links: with_rows(d.links, store_rocks::new_rows(codes, urls, ttl_ms, now)),
        ..d
    }
}

proof fn lemma_gather(
    d: Base,
    s: RocksView,
    urls: Seq<Seq<char>>,
    codes: Seq<Seq<char>>,
    ttl_ms: i64,
    now: i64,
    x: Moment,
)
    requires
        x.d == d,
        x.s == s,
        free_codes(d, s, codes),
        codes.len() <= urls.len(),
        rocks_jobs::gather_job(s, urls, codes, ttl_ms, now, x.j),
    ensures
        gathering(d, s, x, urls, ttl_ms, now),
{
}

proof fn lemma_gather_on(
    d: Base,
    s: RocksView,
    x: Moment,
    y: Moment,
    urls: Seq<Seq<char>>,
    ttl_ms: i64,
    now: i64,
)
    requires
        gathering(d, s, x, urls, ttl_ms, now),
        goes_on(x.d, x.s, x.m, x.j, now, y.d, y.s, y.m, y.j),
    ensures
        gathering(d, s, y, urls, ttl_ms, now) || written(d, s, y, urls, ttl_ms, now),
{
    let (ask, wait) = (x.j->ask, x.j->wait);
    let a = answered(d, ask).0;
    if let WaitView::Gather { codes, code, .. } = wait {
        let next = if a == ToldView::Value(None) && !codes.contains(code) {
            codes.push(code)
        } else {
            codes
        };
        if a == ToldView::Value(None) && !codes.contains(code) {
            assert forall|k: int| 0 <= k < next.len() implies store_rocks::generated(
                s.instance as int,
                #[trigger] next[k],
            ) && !d.links.contains_key(next[k]) by {
                if k < codes.len() {
                    assert(next[k] == codes[k]);
                }
            }
            assert forall|j: int, k: int| 0 <= j < k < next.len() implies next[j] != next[k] by {
                assert(codes.contains(codes[j]));
            }
        }
        lemma_gather(d, s, urls, next, ttl_ms, now, y);
    }
}

proof fn lemma_trace(
    d: Base,
    s: RocksView,
    tr: Seq<Moment>,
    urls: Seq<Seq<char>>,
    ttl_ms: i64,
    now: i64,
)
    requires
        tr.len() > 0,
        gathering(d, s, tr[0], urls, ttl_ms, now),
        forall|k: int|
            0 < k < tr.len() ==> goes_on(
                tr[k - 1].d,
                tr[k - 1].s,
                tr[k - 1].m,
                tr[k - 1].j,
                now,
                (#[trigger] tr[k]).d,
                tr[k].s,
                tr[k].m,
                tr[k].j,
            ),
    ensures
        gathering(d, s, tr.last(), urls, ttl_ms, now) || written(
            d,
            s,
            tr.last(),
            urls,
            ttl_ms,
            now,
        ),
    decreases tr.len(),
{
    if tr.len() > 1 {
        let before = tr.drop_last();
        assert forall|k: int| 0 < k < before.len() implies goes_on(
            before[k - 1].d,
            before[k - 1].s,
            before[k - 1].m,
            before[k - 1].j,
            now,
            (#[trigger] before[k]).d,
            before[k].s,
            before[k].m,
            before[k].j,
        ) by {
            assert(before[k] == tr[k] && before[k - 1] == tr[k - 1]);
        }
        lemma_trace(d, s, before, urls, ttl_ms, now);
        let x = tr[tr.len() - 2];
        let y = tr[tr.len() - 1];
        assert(before.last() == x);
        assert(goes_on(x.d, x.s, x.m, x.j, now, y.d, y.s, y.m, y.j));
        lemma_gather_on(d, s, x, y, urls, ttl_ms, now);
    }
}

/// Links that were asked for together get a code each, whatever codes the generator
/// yields: no two are the same, none was taken, each link is found under its code until
/// it expires, and every link that was there before stays as it was.
pub proof fn law_bulk_request(
    d: Base,
    s: RocksView,
    m: MetricsView,
    urls: Seq<Seq<char>>,
    ttl_ms: i64,
    now: i64,
    later: i64,
    tr: Seq<Moment>,
    codes: Seq<Seq<char>>,
    i: int,
    old_code: Seq<char>,
)
    requires
        tr.len() > 0,
        tr[0].d == d,
        rocks_jobs::begun(
            s,
            m,
            (PlanView::Bulk { urls, ttl_ms }),
            now,
            tr[0].s,
            tr[0].m,
            tr[0].j,
        ),
        forall|k: int|
            0 < k < tr.len() ==> goes_on(
                tr[k - 1].d,
                tr[k - 1].s,
                tr[k - 1].m,
                tr[k - 1].j,
                now,
                (#[trigger] tr[k]).d,
                tr[k].s,
                tr[k].m,
                tr[k].j,
            ),
        tr.last().j == JobView::Done(OutcomeView::CreatedMany(codes)),
    ensures
        codes.len() == urls.len(),
        free_codes(d, s, codes),
        0 <= i < urls.len() && !store_kv::past(store::expiry(now, ttl_ms), later)
            ==> store_rocks::found_at(under(tr.last().d.links, codes[i]), later)
            == FoundView::Live(store::expiry(now, ttl_ms), now, urls[i]),
        d.links.contains_key(old_code) ==> under(tr.last().d.links, old_code) == under(
            d.links,
            old_code,
        ),
{
    lemma_gather(d, s, urls, Seq::empty(), ttl_ms, now, tr[0]);
    lemma_trace(d, s, tr, urls, ttl_ms, now);
    let rows = store_rocks::new_rows(codes, urls, ttl_ms, now);
    if 0 <= i < urls.len() {
        lemma_rows(d.links, rows, i);
        assert(rows[i].0 == codes[i]);
        store_rocks::law_stored_link_is_found(urls[i], ttl_ms, now, later);
    }
    if d.links.contains_key(old_code) {
        lemma_rows_beside(d.links, rows, old_code);
    }
}

// ---------- values ----------

/// A link that is stored now has its url and the time now in its value, and its lifetime
/// after that its end; without a lifetime it has none. It is found before its end and is
/// over from then on.
pub proof fn law_value_says_what_was_asked_for(url: Seq<char>, ttl_ms: i64, now: i64, later: i64)
    requires
        0 <= now,
        now + ttl_ms <= i64::MAX,
    ensures
        store_kv::val_of(store_rocks::new_value(url, ttl_ms, now)) == Some(
            (
                if ttl_ms > 0 {
                    (now + ttl_ms) as i64
                } else {
                    0
                },
                now,
                url,
            ),
        ),
        store_rocks::found_at(Some(store_rocks::new_value(url, ttl_ms, now)), later) == (
        if ttl_ms <= 0 {
            FoundView::Live(0, now, url)
        } else if later < now + ttl_ms {
            FoundView::Live((now + ttl_ms) as i64, now, url)
        } else {
            FoundView::Expired
        }),
{
    store_kv::law_value_reads_back(store::expiry(now, ttl_ms), now, url);
}

/// A value is a link as long as its end is not reached; a compaction drops it from then on,
/// and keeps one without an end.
pub proof fn law_value_is_live_until_its_end(e: i64, c: i64, url: Seq<char>, now: i64)
    ensures
        ({
            let v = store_kv::val_bytes(e as int, c as int, encode_utf8(url));
            &&& store_rocks::found_at(Some(v), now) == (if e == 0 || now < e {
                FoundView::Live(e, c, url)
            } else {
                FoundView::Expired
            })
            &&& store_rocks::filtered(v, now) <==> e != 0 && e <= now
        }),
        store_rocks::found_at(None, now) is Missing,
{
    store_kv::law_value_reads_back(e, c, url);
    store_rocks::law_compaction_drops_expired(
        store_kv::val_bytes(e as int, c as int, encode_utf8(url)),
        now,
    );
}

/// What an update writes: the new url, the old time of creation, and the old end or that of
/// the lifetime that was given, which is over at once if it is not over 0. What is over is
/// not updated.
pub proof fn law_update_keeps_the_rest(
    e: i64,
    c: i64,
    was: Seq<char>,
    url: Seq<char>,
    ttl_ms: i64,
    has_ttl: bool,
    now: i64,
)
    requires
        0 <= now,
        now + ttl_ms <= i64::MAX,
    ensures
        store_rocks::updated_value(
            Some(store_kv::val_bytes(e as int, c as int, encode_utf8(was))),
            url,
            ttl_ms,
            has_ttl,
            now,
        ) == (if e == 0 || now < e {
            Some(
                store_kv::val_bytes(
                    if !has_ttl {
                        e as int
                    } else if ttl_ms > 0 {
                        now + ttl_ms
                    } else {
                        now as int
                    },
                    c as int,
                    encode_utf8(url),
                ),
            )
        } else {
            None
        }),
{
    store_kv::law_value_reads_back(e, c, was);
}

/// What is known of a link is what its value says, and its hits are those in the database
/// with those that were not written yet.
pub proof fn law_known_of_a_link(
    s: RocksView,
    code: Seq<char>,
    e: i64,
    c: i64,
    url: Seq<char>,
    n: u64,
    has_hits: bool,
    now: i64,
)
    ensures
        store_rocks::stats_of(
            s,
            code,
            Some(store_kv::val_bytes(e as int, c as int, encode_utf8(url))),
            if has_hits {
                Some(spec_u64_to_le_bytes(n))
            } else {
                None
            },
            now,
        ) == (if e == 0 || now < e {
            Some(
                LinkView {
                    code,
                    url,
                    hits: (if has_hits {
                        n
                    } else {
                        0
                    } as i64).wrapping_add(
                        if s.dirty.contains_key(code) {
                            s.dirty[code]
                        } else {
                            0
                        },
                    ),
                    created_at: c,
                    expires_at: if e == 0 {
                        None
                    } else {
                        Some(e)
                    },
                },
            )
        } else {
            None
        }),
{
    store_kv::law_value_reads_back(e, c, url);
    lemma_auto_spec_u64_to_from_le_bytes();
}

// ---------- hits ----------

/// A lookup that is answered counts one hit of that code, whether the cache or the database
/// answers it; one that is not counts none. No hit of another code changes.
pub proof fn law_lookup_counts_a_hit(
    d: Base,
    s: RocksView,
    m: MetricsView,
    code: Seq<char>,
    now: i64,
    s1: RocksView,
    m1: MetricsView,
    j1: JobView,
    e: Base,
    s2: RocksView,
    m2: MetricsView,
    j2: JobView,
    other: Seq<char>,
)
    requires
        rocks_jobs::begun(s, m, (PlanView::Resolve { code }), now, s1, m1, j1),
        j1 is Next ==> goes_on(d, s1, m1, j1, now, e, s2, m2, j2),
    ensures
        ({
            let t = if j1 is Next {
                s2
            } else {
                s1
            };
            let j = if j1 is Next {
                j2
            } else {
                j1
            };
            let hits = |x: RocksView, c: Seq<char>|
                if x.dirty.contains_key(c) {
                    x.dirty[c]
                } else {
                    0i64
                };
            &&& (j matches JobView::Done(OutcomeView::Target(Some(_)))) ==> hits(t, code) == hits(
                s,
                code,
            ).wrapping_add(1)
            &&& !(j matches JobView::Done(OutcomeView::Target(Some(_)))) ==> t.dirty == s.dirty
            &&& other != code ==> hits(t, other) == hits(s, other)
        }),
        j1 is Done ==> m1 == (MetricsView { cache_hit: m.cache_hit.wrapping_add(1), ..m }),
        j1 is Next ==> m2.cache_miss == m.cache_miss.wrapping_add(1) && m2.store_reads
            == m.store_reads.wrapping_add(1) && m2.cache_hit == m.cache_hit,
{
}

/// A listing first adds the hits that were not written yet to those in the database: those
/// of every code that has any, once.
pub proof fn law_listing_writes_the_hits_first(
    s: RocksView,
    m: MetricsView,
    req: ListView,
    now: i64,
    t: RocksView,
    n: MetricsView,
    j: JobView,
    code: Seq<char>,
)
    requires
        rocks_jobs::begun(s, m, (PlanView::List(req)), now, t, n, j),
    ensures
        t.dirty == Map::<Seq<char>, i64>::empty(),
        j matches JobView::Next { ask: AskView::Merge { deltas }, .. } && {
            &&& s.dirty.contains_key(code) ==> deltas.contains(
                (code, spec_u64_to_le_bytes(s.dirty[code] as u64)),
            )
            &&& !s.dirty.contains_key(code) ==> forall|k: int|
                0 <= k < deltas.len() ==> (#[trigger] deltas[k]).0 != code
            &&& forall|i: int, k: int|
                0 <= i < k < deltas.len() ==> (#[trigger] deltas[i]).0 != (#[trigger] deltas[k]).0
        },
{
    let deltas = j->ask->deltas;
    let codes = choose|codes: Seq<Seq<char>>| #[trigger]
        store::enumerates(codes, s.dirty.dom()) && deltas == Seq::new(
            codes.len(),
            |i: int| (codes[i], spec_u64_to_le_bytes(s.dirty[codes[i]] as u64)),
        );
    if s.dirty.contains_key(code) {
        assert(s.dirty.dom().contains(code));
        let k = choose|k: int| 0 <= k < codes.len() && #[trigger] codes[k] == code;
        assert(deltas[k] == (code, spec_u64_to_le_bytes(s.dirty[code] as u64)));
    }
    assert forall|k: int| 0 <= k < deltas.len() implies s.dirty.contains_key(
        (#[trigger] deltas[k]).0,
    ) by {
        assert(s.dirty.dom().contains(codes[k]));
    }
}

// ---------- listings ----------

proof fn lemma_row_links(s: RocksView, rows: Seq<DbRow>, now: i64, q: Seq<char>)
    requires
        forall|j: int, k: int|
            0 <= j < k < rows.len() ==> (#[trigger] rows[j]).key@ != (#[trigger] rows[k]).key@,
    ensures
        ({
            let found = store_rocks::row_links(s, rows, now, q);
            &&& forall|k: int|
                0 <= k < found.len() ==> listing::wanted(#[trigger] found[k], q) && exists|j: int|
                    0 <= j < rows.len() && store_rocks::row_link(s, #[trigger] rows[j], now)
                        == Some(found[k])
            &&& forall|j: int|
                0 <= j < rows.len() && store_rocks::row_link(s, #[trigger] rows[j], now) is Some
                    && listing::wanted(store_rocks::row_link(s, rows[j], now)->0, q)
                    ==> found.contains(store_rocks::row_link(s, rows[j], now)->0)
            &&& forall|j: int, k: int|
                0 <= j < k < found.len() ==> (#[trigger] found[j]).code != (
                #[trigger] found[k]).code
        }),
    decreases rows.len(),
{
    let found = store_rocks::row_links(s, rows, now, q);
    if rows.len() > 0 {
        let n = rows.len() - 1;
        let front = rows.drop_last();
        assert forall|j: int, k: int| 0 <= j < k < front.len() implies (#[trigger] front[j]).key@
            != (#[trigger] front[k]).key@ by {
            assert(rows[j].key@ != rows[k].key@);
        }
        lemma_row_links(s, front, now, q);
        let rest = store_rocks::row_links(s, front, now, q);
        let l = store_rocks::row_link(s, rows[n], now);
        assert(rows.last() == rows[n]);
        let grown = l is Some && listing::wanted(l->0, q);
        assert(found == if grown {
            rest.push(l->0)
        } else {
            rest
        });
        assert forall|k: int| 0 <= k < found.len() implies listing::wanted(#[trigger] found[k], q)
            && exists|j: int|
            0 <= j < rows.len() && store_rocks::row_link(s, #[trigger] rows[j], now) == Some(
                found[k],
            ) by {
            if k < rest.len() {
                assert(found[k] == rest[k]);
                let j = choose|j: int|
                    0 <= j < front.len() && store_rocks::row_link(s, #[trigger] front[j], now)
                        == Some(rest[k]);
                assert(rows[j] == front[j]);
            } else {
                assert(store_rocks::row_link(s, rows[n], now) == Some(found[k]));
            }
        }
        assert forall|j: int|
            0 <= j < rows.len() && store_rocks::row_link(s, #[trigger] rows[j], now) is Some
                && listing::wanted(store_rocks::row_link(s, rows[j], now)->0, q) implies found.contains(
            store_rocks::row_link(s, rows[j], now)->0) by {
            if j < n {
                assert(front[j] == rows[j]);
                let x = store_rocks::row_link(s, front[j], now)->0;
                let k = choose|k: int| 0 <= k < rest.len() && rest[k] == x;
                assert(found[k] == rest[k]);
            } else {
                assert(found[rest.len() as int] == l->0);
            }
        }
        assert forall|j: int, k: int| 0 <= j < k < found.len() implies (#[trigger] found[j]).code
            != (#[trigger] found[k]).code by {
            if k < rest.len() {
                assert(rest[j].code != rest[k].code);
            } else {
                let x = choose|x: int|
                    0 <= x < front.len() && store_rocks::row_link(s, #[trigger] front[x], now)
                        == Some(rest[j]);
                assert(rows[x] == front[x]);
                assert(rows[x].key@ != rows[n].key@);
                if rest[j].code == found[k].code {
                    decode_utf8_encode_utf8(rows[x].key@);
                    decode_utf8_encode_utf8(rows[n].key@);
                }
            }
        }
    }
}

/// A listing has every link in the database that holds the text that is looked for in its
/// code or url, unless its time is over, with its hits.
pub proof fn law_listing_reads_every_row(
    s: RocksView,
    rows: Seq<DbRow>,
    now: i64,
    q: Seq<char>,
    i: int,
    code: Seq<char>,
    e: i64,
    c: i64,
    url: Seq<char>,
    n: u64,
)
    requires
        s.dirty == Map::<Seq<char>, i64>::empty(),
        forall|j: int, k: int|
            0 <= j < k < rows.len() ==> (#[trigger] rows[j]).key@ != (#[trigger] rows[k]).key@,
        0 <= i < rows.len(),
        rows[i].key@ == encode_utf8(code),
        rows[i].value@ == store_kv::val_bytes(e as int, c as int, encode_utf8(url)),
        rows[i].hits matches Some(h) ==> h@ == spec_u64_to_le_bytes(n),
        rows[i].hits is None ==> n == 0,
    ensures
        ({
            let found = store_rocks::row_links(s, rows, now, q);
            let l = LinkView {
                code,
                url,
                hits: n as i64,
                created_at: c,
                expires_at: if e == 0 {
                    None
                } else {
                    Some(e)
                },
            };
            &&& found.contains(l) <==> (e == 0 || now < e) && (app_laws::occurs(
                encode_utf8(q),
                encode_utf8(code),
            ) || app_laws::occurs(encode_utf8(q), encode_utf8(url)))
            &&& forall|j: int, k: int|
                0 <= j < k < found.len() ==> (#[trigger] found[j]).code != (
                #[trigger] found[k]).code
            &&& forall|k: int|
                0 <= k < found.len() && (#[trigger] found[k]).code == code ==> found[k] == l
        }),
{
    let found = store_rocks::row_links(s, rows, now, q);
    lemma_row_links(s, rows, now, q);
    law_known_of_a_link(s, code, e, c, url, n, rows[i].hits is Some, now);
    encode_utf8_valid_utf8(code);
    encode_utf8_decode_utf8(code);
    app_laws::lemma_occurs(encode_utf8(q), encode_utf8(code));
    app_laws::lemma_occurs(encode_utf8(q), encode_utf8(url));
    let x = store_rocks::row_link(s, rows[i], now);
    let l = LinkView {
        code,
        url,
        hits: n as i64,
        created_at: c,
        expires_at: if e == 0 {
            None
        } else {
            Some(e)
        },
    };
    assert((n as i64).wrapping_add(0) == n as i64);
    assert(x == if e == 0 || now < e {
        Some(l)
    } else {
        None
    });
    assert forall|k: int| 0 <= k < found.len() && (#[trigger] found[k]).code == code implies found[k]
        == l && x is Some && listing::wanted(l, q) by {
        let j = choose|j: int|
            0 <= j < rows.len() && store_rocks::row_link(s, #[trigger] rows[j], now) == Some(
                found[k],
            );
        decode_utf8_encode_utf8(rows[j].key@);
        assert(rows[j].key@ == rows[i].key@);
        if j < i {
            assert(rows[j].key@ != rows[i].key@);
        } else if i < j {
            assert(rows[i].key@ != rows[j].key@);
        }
        assert(listing::wanted(found[k], q));
    }
    if found.contains(l) {
        let k = choose|k: int| 0 <= k < found.len() && found[k] == l;
        assert(found[k].code == code);
    }
}

/// An instance that is asked for by a number with a letter has that number; any other has
/// one, too.
pub proof fn law_instance_has_a_letter(instance: i32, pid: u32)
    ensures
        0 <= store_rocks::instance_id(instance, pid) < 62,
        0 <= store_kv::clamped(instance) < 62,
        0 <= instance < 62 ==> store_rocks::instance_id(instance, pid) == instance
            && store_kv::clamped(instance) == instance,
        instance >= 62 ==> store_kv::clamped(instance) == 61,
        instance < 0 ==> store_rocks::instance_id(instance, pid) == pid as int % 62
            && store_kv::clamped(instance) == 0,
{
}

/// A request for a link counts one write, whatever comes of it.
pub proof fn law_new_links_are_counted_as_writes(
    s: RocksView,
    m: MetricsView,
    url: Seq<char>,
    alias: Option<Seq<char>>,
    ttl_ms: i64,
    now: i64,
    t: RocksView,
    n: MetricsView,
    j: JobView,
)
    requires
        rocks_jobs::begun(s, m, (PlanView::Shorten { url, alias, ttl_ms }), now, t, n, j),
    ensures
        t == s,
        n.store_writes == m.store_writes.wrapping_add(1),
        n.store_reads == m.store_reads,
        n.links_total == m.links_total,
        j matches JobView::Next { ask: AskView::Claim { code }, .. } && (alias matches Some(a)
            ==> code == a),
{
}

/// Links that could not be written together are written one by one, each under its code and
/// with its url, and under another code where the database fails again; the codes that they
/// have in the end are the answer.
pub proof fn law_links_are_written_one_by_one(
    s: RocksView,
    m: MetricsView,
    urls: Seq<Seq<char>>,
    codes: Seq<Seq<char>>,
    ttl_ms: i64,
    at: int,
    us: i64,
    now: i64,
    t: RocksView,
    n: MetricsView,
    j: JobView,
)
    requires
        0 <= at < urls.len(),
        codes.len() == urls.len(),
    ensures
        rocks_jobs::advanced(
            s,
            m,
            (WaitView::Many { urls, codes, ttl_ms }),
            ToldView::Failed,
            us,
            now,
            t,
            n,
            j,
        ) ==> t == s && (j matches JobView::Next { ask: AskView::Claim { code }, .. } && code
            == codes[0]),
        rocks_jobs::advanced(
            s,
            m,
            (WaitView::Claimed {
                code: codes[at],
                url: urls[at],
                ttl_ms,
                why: WhyView::Own { urls, codes, at },
            }),
            ToldView::Value(None),
            us,
            now,
            t,
            n,
            j,
        ) ==> (j matches JobView::Next { ask: AskView::Put { code, value }, .. } && code
            == codes[at] && value == store_rocks::new_value(urls[at], ttl_ms, now)),
        rocks_jobs::advanced(
            s,
            m,
            (WaitView::Stored {
                code: codes[at],
                url: urls[at],
                ttl_ms,
                why: WhyView::Own { urls, codes, at },
            }),
            ToldView::Written,
            us,
            now,
            t,
            n,
            j,
        ) ==> if at + 1 == urls.len() {
            j == JobView::Done(OutcomeView::CreatedMany(codes))
        } else {
            j matches JobView::Next { ask: AskView::Claim { code }, .. } && code == codes[at + 1]
        },
        rocks_jobs::advanced(
            s,
            m,
            (WaitView::Stored {
                code: codes[at],
                url: urls[at],
                ttl_ms,
                why: WhyView::Own { urls, codes, at },
            }),
            ToldView::Failed,
            us,
            now,
            t,
            n,
            j,
        ) ==> (j matches JobView::Next { ask: AskView::Claim { code }, wait } && (
        wait matches WaitView::Claimed { code: c, url, why, .. } && c == code && url == urls[at]
            && why == (WhyView::Other { urls, codes, at }))),
{
}

} // verus!
