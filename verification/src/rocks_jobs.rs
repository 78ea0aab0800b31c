//! What a request on an embedded database takes: what is asked of it, one thing after the
//! other, and what the answers come to.

use vstd::bytes::*;
use vstd::prelude::*;

use crate::aof;
use crate::app::{ListReq, ListView, Outcome, OutcomeView, Plan, PlanView};
use crate::kv;
use crate::kv_jobs;
use crate::lru;
use crate::metrics;
use crate::metrics::{Metrics, MetricsView};
use crate::store;
use crate::store::{Link, MutResult};
use crate::store_kv;
use crate::store_rocks;
use crate::store_rocks::{DbRow, Found, FoundView, RocksStore, RocksView};
use crate::text;

verus! {

// ---------- what is asked ----------

/// What is asked of the database.
pub enum Ask {
    /// The value of a link.
    Read { code: String },
    /// The value of a link that is to be created; until a question that is no such claim is
    /// answered, no other link is created.
    Claim { code: String },
    /// A link is written.
    Put { code: String, value: Vec<u8> },
    /// Links are written together.
    PutAll { rows: Vec<(String, Vec<u8>)> },
    /// A link is deleted.
    Delete { code: String },
    /// A link and its hits are deleted together.
    DeleteBoth { code: String },
    /// The hits of a link.
    Hits { code: String },
    /// Hits are added together.
    Merge { deltas: Vec<(String, Vec<u8>)> },
    /// All rows.
    Rows,
}

/// What is asked of the database.
pub ghost enum AskView {
    Read { code: Seq<char> },
    Claim { code: Seq<char> },
    Put { code: Seq<char>, value: Seq<u8> },
    PutAll { rows: Seq<(Seq<char>, Seq<u8>)> },
    Delete { code: Seq<char> },
    DeleteBoth { code: Seq<char> },
    Hits { code: Seq<char> },
    Merge { deltas: Seq<(Seq<char>, Seq<u8>)> },
    Rows,
}

impl View for Ask {
    type V = AskView;

    open spec fn view(&self) -> AskView {
        match *self {
            Ask::Read { code } => AskView::Read { code: code@ },
            Ask::Claim { code } => AskView::Claim { code: code@ },
            Ask::Put { code, value } => AskView::Put { code: code@, value: value@ },
            Ask::PutAll { rows } => AskView::PutAll { rows: store_rocks::put_views(rows@) },
            Ask::Delete { code } => AskView::Delete { code: code@ },
            Ask::DeleteBoth { code } => AskView::DeleteBoth { code: code@ },
            Ask::Hits { code } => AskView::Hits { code: code@ },
            Ask::Merge { deltas } => AskView::Merge { deltas: store_rocks::put_views(deltas@) },
            Ask::Rows => AskView::Rows,
        }
    }
}

/// What the database answers.
pub enum Told {
    /// What lies under a code, if anything does.
    Value(Option<Vec<u8>>),
    /// It is written.
    Written,
    /// The rows.
    Rows(Vec<DbRow>),
    /// It failed.
    Failed,
}

/// What the database answers.
pub ghost enum ToldView {
    Value(Option<Seq<u8>>),
    Written,
    Rows(Seq<DbRow>),
    Failed,
}

impl View for Told {
    type V = ToldView;

    open spec fn view(&self) -> ToldView {
        match *self {
            Told::Value(v) => ToldView::Value(kv::opt_bytes(v)),
            Told::Written => ToldView::Written,
            Told::Rows(v) => ToldView::Rows(v@),
            Told::Failed => ToldView::Failed,
        }
    }
}

/// What a link is created for.
pub enum Why {
    /// Its code was asked for.
    Alias,
    /// Its code is random.
    Random,
    /// It is one of many that could not be written together, under the code that it had.
    Own { urls: Vec<String>, codes: Vec<String>, at: usize },
    /// It is one of many that could not be written together, under another code.
    Other { urls: Vec<String>, codes: Vec<String>, at: usize },
}

/// What a link is created for.
pub ghost enum WhyView {
    Alias,
    Random,
    Own { urls: Seq<Seq<char>>, codes: Seq<Seq<char>>, at: int },
    Other { urls: Seq<Seq<char>>, codes: Seq<Seq<char>>, at: int },
}

impl View for Why {
    type V = WhyView;

    open spec fn view(&self) -> WhyView {
        match *self {
            Why::Alias => WhyView::Alias,
            Why::Random => WhyView::Random,
            Why::Own { urls, codes, at } => WhyView::Own {
                urls: aof::texts(urls@),
                codes: aof::texts(codes@),
                at: at as int,
            },
            Why::Other { urls, codes, at } => WhyView::Other {
                urls: aof::texts(urls@),
                codes: aof::texts(codes@),
                at: at as int,
            },
        }
    }
}

/// What an answer is for.
pub enum Wait {
    /// The link of a code that is looked up.
    Target { code: String },
    /// Whether a code is free.
    Claimed { code: String, url: String, ttl_ms: i64, why: Why },
    /// A link that is created.
    Stored { code: String, url: String, ttl_ms: i64, why: Why },
    /// Whether a code is free, for the next of links that are created together; those of
    /// the links before it are `codes`.
    Gather { urls: Vec<String>, codes: Vec<String>, ttl_ms: i64, code: String },
    /// Links that are created together.
    Many { urls: Vec<String>, codes: Vec<String>, ttl_ms: i64 },
    /// The link whose numbers are wanted.
    Known { code: String },
    /// Its hits.
    Count { code: String, value: Option<Vec<u8>> },
    /// The link that is to get another url.
    Old { code: String, url: String, ttl_ms: i64, has_ttl: bool },
    /// The link that is to be removed.
    Doomed { code: String },
    /// A link that was changed or removed.
    Changed { code: String },
    /// Hits that are added before a listing.
    Merged { req: ListReq },
    /// The rows of a listing.
    Listed { req: ListReq },
    /// A link that had expired; what came of the request.
    Reaped { out: Outcome },
}

/// What an answer is for.
pub ghost enum WaitView {
    Target { code: Seq<char> },
    Claimed { code: Seq<char>, url: Seq<char>, ttl_ms: i64, why: WhyView },
    Stored { code: Seq<char>, url: Seq<char>, ttl_ms: i64, why: WhyView },
    Gather { urls: Seq<Seq<char>>, codes: Seq<Seq<char>>, ttl_ms: i64, code: Seq<char> },
    Many { urls: Seq<Seq<char>>, codes: Seq<Seq<char>>, ttl_ms: i64 },
    Known { code: Seq<char> },
    Count { code: Seq<char>, value: Option<Seq<u8>> },
    Old { code: Seq<char>, url: Seq<char>, ttl_ms: i64, has_ttl: bool },
    Doomed { code: Seq<char> },
    Changed { code: Seq<char> },
    Merged { req: ListView },
    Listed { req: ListView },
    Reaped { out: OutcomeView },
}

impl View for Wait {
    type V = WaitView;

    open spec fn view(&self) -> WaitView {
        match *self {
            Wait::Target { code } => WaitView::Target { code: code@ },
            Wait::Claimed { code, url, ttl_ms, why } => WaitView::Claimed {
                code: code@,
                url: url@,
                ttl_ms,
                why: why@,
            },
            Wait::Stored { code, url, ttl_ms, why } => WaitView::Stored {
                code: code@,
                url: url@,
                ttl_ms,
                why: why@,
            },
            Wait::Gather { urls, codes, ttl_ms, code } => WaitView::Gather {
                urls: aof::texts(urls@),
                codes: aof::texts(codes@),
                ttl_ms,
                code: code@,
            },
            Wait::Many { urls, codes, ttl_ms } => WaitView::Many {
                urls: aof::texts(urls@),
                codes: aof::texts(codes@),
                ttl_ms,
            },
            Wait::Known { code } => WaitView::Known { code: code@ },
            Wait::Count { code, value } => WaitView::Count {
                code: code@,
                value: kv::opt_bytes(value),
            },
            Wait::Old { code, url, ttl_ms, has_ttl } => WaitView::Old {
                code: code@,
                url: url@,
                ttl_ms,
                has_ttl,
            },
            Wait::Doomed { code } => WaitView::Doomed { code: code@ },
            Wait::Changed { code } => WaitView::Changed { code: code@ },
            Wait::Merged { req } => WaitView::Merged { req: req@ },
            Wait::Listed { req } => WaitView::Listed { req: req@ },
            Wait::Reaped { out } => WaitView::Reaped { out: out@ },
        }
    }
}

/// What a request comes to next: a question, or what came of it.
pub enum Job {
    Next { ask: Ask, wait: Wait },
    Done(Outcome),
}

/// What a request comes to next.
pub ghost enum JobView {
    Next { ask: AskView, wait: WaitView },
    Done(OutcomeView),
}

impl View for Job {
    type V = JobView;

    open spec fn view(&self) -> JobView {
        match *self {
            Job::Next { ask, wait } => JobView::Next { ask: ask@, wait: wait@ },
            Job::Done(o) => JobView::Done(o@),
        }
    }
}

/// One of many links is one of them.
pub open spec fn why_ok(w: WhyView) -> bool {
    match w {
        WhyView::Own { urls, codes, at } => codes.len() == urls.len() && 0 <= at < urls.len(),
        WhyView::Other { urls, codes, at } => codes.len() == urls.len() && 0 <= at < urls.len(),
        _ => true,
    }
}

/// No two codes are the same.
pub open spec fn apart(codes: Seq<Seq<char>>) -> bool {
    forall|j: int, k: int| 0 <= j < k < codes.len() ==> codes[j] != codes[k]
}

/// What is waited for makes sense.
pub open spec fn wait_ok(w: WaitView) -> bool {
    match w {
        WaitView::Claimed { why, .. } => why_ok(why),
        WaitView::Stored { why, .. } => why_ok(why),
        WaitView::Gather { urls, codes, .. } => codes.len() < urls.len() && apart(codes),
        WaitView::Many { urls, codes, .. } => codes.len() == urls.len() && apart(codes),
        _ => true,
    }
}

/// What is asked makes sense.
pub open spec fn job_ok(j: JobView) -> bool {
    j matches JobView::Next { wait, .. } ==> wait_ok(wait)
}

// ---------- how a request goes on ----------

/// A link is to be created under a code.
pub open spec fn claim_job(
    code: Seq<char>,
    url: Seq<char>,
    ttl_ms: i64,
    why: WhyView,
) -> JobView {
    JobView::Next {
        ask: AskView::Claim { code },
        wait: WaitView::Claimed { code, url, ttl_ms, why },
    }
}

/// A link is to be created under a random code.
pub open spec fn random_job(
    s: RocksView,
    url: Seq<char>,
    ttl_ms: i64,
    why: WhyView,
    j: JobView,
) -> bool {
    exists|code: Seq<char>| #[trigger]
        store_rocks::generated(s.instance as int, code) && j == claim_job(code, url, ttl_ms, why)
}

/// Links that are to be created together: a random code is claimed for the next of them;
/// once each has a code that is free and its own, all are written.
pub open spec fn gather_job(
    s: RocksView,
    urls: Seq<Seq<char>>,
    codes: Seq<Seq<char>>,
    ttl_ms: i64,
    now: i64,
    j: JobView,
) -> bool {
    if codes.len() < urls.len() {
        exists|code: Seq<char>| #[trigger]
            store_rocks::generated(s.instance as int, code) && j == (JobView::Next {
                ask: AskView::Claim { code },
                wait: WaitView::Gather { urls, codes, ttl_ms, code },
            })
    } else {
        j == (JobView::Next {
            ask: AskView::PutAll { rows: store_rocks::new_rows(codes, urls, ttl_ms, now) },
            wait: WaitView::Many { urls, codes, ttl_ms },
        })
    }
}

/// Links that could not be written together are to be written one by one; after the last
/// the codes are the answer.
pub open spec fn single_job(
    urls: Seq<Seq<char>>,
    codes: Seq<Seq<char>>,
    ttl_ms: i64,
    at: int,
) -> JobView {
    if at < urls.len() {
        claim_job(codes[at], urls[at], ttl_ms, WhyView::Own { urls, codes, at })
    } else {
        JobView::Done(OutcomeView::CreatedMany(codes))
    }
}

/// One write more was counted.
pub open spec fn one_write(m: MetricsView) -> MetricsView {
    MetricsView { store_writes: m.store_writes.wrapping_add(1), ..m }
}

/// One read more was counted.
pub open spec fn one_read(m: MetricsView, us: i64) -> MetricsView {
    MetricsView {
        store_reads: m.store_reads.wrapping_add(1),
        store_read_us: m.store_read_us.wrapping_add(us),
        ..m
    }
}

/// A link was not created, as its code is taken or the database failed: one that has to
/// have that code is given up, another is tried under another code.
pub open spec fn refused(
    s: RocksView,
    m: MetricsView,
    url: Seq<char>,
    ttl_ms: i64,
    why: WhyView,
    failed: bool,
    n: MetricsView,
    j: JobView,
) -> bool {
    match why {
        WhyView::Alias => n == m && j == JobView::Done(OutcomeView::Created(None)),
        WhyView::Random => n == m && random_job(s, url, ttl_ms, why, j),
        WhyView::Own { urls, codes, at } => if failed {
            n == one_write(m) && random_job(
                s,
                url,
                ttl_ms,
                WhyView::Other { urls, codes, at },
                j,
            )
        } else {
            n == m && j == single_job(urls, codes, ttl_ms, at + 1)
        },
        WhyView::Other { .. } => n == m && random_job(s, url, ttl_ms, why, j),
    }
}

/// A link was created.
pub open spec fn made(code: Seq<char>, ttl_ms: i64, why: WhyView) -> JobView {
    match why {
        WhyView::Alias => JobView::Done(OutcomeView::Created(Some(code))),
        WhyView::Random => JobView::Done(OutcomeView::Created(Some(code))),
        WhyView::Own { urls, codes, at } => single_job(urls, codes, ttl_ms, at + 1),
        WhyView::Other { urls, codes, at } => single_job(
            urls,
            codes.update(at, code),
            ttl_ms,
            at + 1,
        ),
    }
}

/// A link that has expired is deleted, whatever comes of that.
pub open spec fn reap_job(code: Seq<char>, out: OutcomeView) -> JobView {
    JobView::Next { ask: AskView::Delete { code }, wait: WaitView::Reaped { out } }
}

/// What is to be added for the hits that were not written yet.
pub open spec fn deltas_of(s: RocksView, deltas: Seq<(Seq<char>, Seq<u8>)>) -> bool {
    exists|codes: Seq<Seq<char>>| #[trigger]
        store::enumerates(codes, s.dirty.dom()) && deltas == Seq::new(
            codes.len(),
            |i: int| (codes[i], spec_u64_to_le_bytes(s.dirty[codes[i]] as u64)),
        )
}

/// How a request begins.
pub open spec fn begun(
    s: RocksView,
    m: MetricsView,
    p: PlanView,
    now: i64,
    t: RocksView,
    n: MetricsView,
    j: JobView,
) -> bool {
    match p {
        PlanView::Done(_) => t == s && n == m && j == JobView::Done(OutcomeView::Nothing),
        PlanView::Shorten { url, alias, ttl_ms } => t == s && n == one_write(m) && match alias {
            Some(a) => j == claim_job(a, url, ttl_ms, WhyView::Alias),
            None => random_job(s, url, ttl_ms, WhyView::Random, j),
        },
        PlanView::Bulk { urls, ttl_ms } => t == s && n == m && gather_job(
            s,
            urls,
            Seq::empty(),
            ttl_ms,
            now,
            j,
        ),
        PlanView::Resolve { code } => {
            let u = RocksView { cache: lru::after_get(s.cache, code, now), ..s };
            match lru::fresh_entry(s.cache, code, now) {
                Some(x) => {
                    &&& t == store_rocks::bumped(u, code)
                    &&& n == (MetricsView { cache_hit: m.cache_hit.wrapping_add(1), ..m })
                    &&& j == JobView::Done(OutcomeView::Target(Some(x.u)))
                },
                None => {
                    &&& t == u
                    &&& n == (MetricsView { cache_miss: m.cache_miss.wrapping_add(1), ..m })
                    &&& j == (JobView::Next {
                        ask: AskView::Read { code },
                        wait: WaitView::Target { code },
                    })
                },
            }
        },
        PlanView::Stats { code } => t == s && n == m && j == (JobView::Next {
            ask: AskView::Read { code },
            wait: WaitView::Known { code },
        }),
        PlanView::List(req) => {
            &&& t == (RocksView { dirty: Map::empty(), ..s })
            &&& n == m
            &&& j matches JobView::Next { ask: AskView::Merge { deltas }, wait }
            &&& wait == (WaitView::Merged { req })
            &&& deltas_of(s, deltas)
        },
        PlanView::Update { code, url, ttl_ms, has_ttl } => t == s && n == m && j == (
        JobView::Next {
            ask: AskView::Read { code },
            wait: WaitView::Old { code, url, ttl_ms, has_ttl },
        }),
        PlanView::Remove { code } => t == s && n == m && j == (JobView::Next {
            ask: AskView::Read { code },
            wait: WaitView::Doomed { code },
        }),
    }
}

/// The value that an answer holds.
pub open spec fn value_told(a: ToldView) -> Option<Seq<u8>> {
    match a {
        ToldView::Value(v) => v,
        _ => None,
    }
}

/// How a request goes on when the answer is in, which took some us.
pub open spec fn advanced(
    s: RocksView,
    m: MetricsView,
    w: WaitView,
    a: ToldView,
    us: i64,
    now: i64,
    t: RocksView,
    n: MetricsView,
    j: JobView,
) -> bool {
    match w {
        WaitView::Target { code } => n == one_read(m, us) && match store_rocks::found_at(
            value_told(a),
            now,
        ) {
            FoundView::Live(e, _, u) => {
                &&& t == store_rocks::bumped(
                    RocksView { cache: lru::after_put(s.cache, code, u, e, now), ..s },
                    code,
                )
                &&& j == JobView::Done(OutcomeView::Target(Some(u)))
            },
            FoundView::Expired => t == s && j == reap_job(code, OutcomeView::Target(None)),
            FoundView::Missing => t == s && j == JobView::Done(OutcomeView::Target(None)),
        },
        WaitView::Claimed { code, url, ttl_ms, why } => t == s && if a == ToldView::Value(None) {
            n == m && j == (JobView::Next {
                ask: AskView::Put { code, value: store_rocks::new_value(url, ttl_ms, now) },
                wait: WaitView::Stored { code, url, ttl_ms, why },
            })
        } else {
            refused(s, m, url, ttl_ms, why, !(a is Value), n, j)
        },
        WaitView::Stored { code, url, ttl_ms, why } => t == s && if a == ToldView::Written {
            n == m && j == made(code, ttl_ms, why)
        } else {
            refused(s, m, url, ttl_ms, why, true, n, j)
        },
        WaitView::Gather { urls, codes, ttl_ms, code } => t == s && n == m && gather_job(
            s,
            urls,
            if a == ToldView::Value(None) && !codes.contains(code) {
                codes.push(code)
            } else {
                codes
            },
            ttl_ms,
            now,
            j,
        ),
        WaitView::Many { urls, codes, ttl_ms } => t == s && n == m && j == (
        if a == ToldView::Written {
            JobView::Done(OutcomeView::CreatedMany(codes))
        } else {
            single_job(urls, codes, ttl_ms, 0)
        }),
        WaitView::Known { code } => t == s && n == m && j == (match store_rocks::found_at(
            value_told(a),
            now,
        ) {
            FoundView::Live(..) => JobView::Next {
                ask: AskView::Hits { code },
                wait: WaitView::Count { code, value: value_told(a) },
            },
            FoundView::Expired => reap_job(code, OutcomeView::Found(None)),
            FoundView::Missing => JobView::Done(OutcomeView::Found(None)),
        }),
        WaitView::Count { code, value } => t == s && n == m && j == JobView::Done(
            OutcomeView::Found(store_rocks::stats_of(s, code, value, value_told(a), now)),
        ),
        WaitView::Old { code, url, ttl_ms, has_ttl } => t == s && n == m && j == (
        match store_rocks::found_at(value_told(a), now) {
            FoundView::Live(..) => JobView::Next {
                ask: AskView::Put {
                    code,
                    value: store_rocks::updated_value(
                        value_told(a),
                        url,
                        ttl_ms,
                        has_ttl,
                        now,
                    )->0,
                },
                wait: WaitView::Changed { code },
            },
            FoundView::Expired => reap_job(code, OutcomeView::Changed(MutResult::Missing)),
            FoundView::Missing => JobView::Done(OutcomeView::Changed(MutResult::Missing)),
        }),
        WaitView::Doomed { code } => t == s && n == m && j == (match store_rocks::found_at(
            value_told(a),
            now,
        ) {
            FoundView::Live(..) => JobView::Next {
                ask: AskView::DeleteBoth { code },
                wait: WaitView::Changed { code },
            },
            FoundView::Expired => reap_job(code, OutcomeView::Changed(MutResult::Missing)),
            FoundView::Missing => JobView::Done(OutcomeView::Changed(MutResult::Missing)),
        }),
        WaitView::Changed { code } => n == m && if a == ToldView::Written {
            &&& t == (RocksView { cache: lru::after_remove(s.cache, code), ..s })
            &&& j == JobView::Done(OutcomeView::Changed(MutResult::Done))
        } else {
            &&& t == s
            &&& j == JobView::Done(OutcomeView::Changed(MutResult::Missing))
        },
        WaitView::Merged { req } => t == s && n == m && j == (JobView::Next {
            ask: AskView::Rows,
            wait: WaitView::Listed { req },
        }),
        WaitView::Listed { req } => {
            &&& t == s
            &&& n == m
            &&& j matches JobView::Done(OutcomeView::Listed(links, total))
            &&& store_kv::paged(
                store_rocks::row_links(
                    s,
                    match a {
                        ToldView::Rows(v) => v,
                        _ => Seq::empty(),
                    },
                    now,
                    req.q,
                ),
                req.sort,
                req.limit as int,
                req.offset as int,
                links,
                total as int,
            )
        },
        WaitView::Reaped { out } => t == s && n == m && j == JobView::Done(out),
    }
}

fn told_value(a: Told) -> (r: Option<Vec<u8>>)
    ensures
        kv::opt_bytes(r) == value_told(a@),
{
    match a {
        Told::Value(v) => v,
        _ => None,
    }
}

/// Whether a code is among some.
fn holds(codes: &Vec<String>, code: &str) -> (r: bool)
    ensures
        r == aof::texts(codes@).contains(code@),
{
    let ghost all = aof::texts(codes@);
    let mut i: usize = 0;
    while i < codes.len()
        invariant
            i <= codes@.len(),
            all == aof::texts(codes@),
            forall|k: int| 0 <= k < i ==> all[k] != code@,
        decreases codes@.len() - i,
    {
        assert(all[i as int] == codes@[i as int]@);
        if text::same(codes[i].as_str(), code) {
            return true;
        }
        i += 1;
    }
    false
}

fn claim(code: String, url: String, ttl_ms: i64, why: Why) -> (r: Job)
    ensures
        r@ == claim_job(code@, url@, ttl_ms, why@),
{
    Job::Next {
        ask: Ask::Claim { code: code.clone() },
        wait: Wait::Claimed { code, url, ttl_ms, why },
    }
}

fn reap(code: String, out: Outcome) -> (r: Job)
    ensures
        r@ == reap_job(code@, out@),
{
    Job::Next { ask: Ask::Delete { code }, wait: Wait::Reaped { out } }
}

fn single(urls: Vec<String>, codes: Vec<String>, ttl_ms: i64, at: usize) -> (r: Job)
    requires
        codes@.len() == urls@.len(),
    ensures
        r@ == single_job(aof::texts(urls@), aof::texts(codes@), ttl_ms, at as int),
        job_ok(r@),
{
    if at < urls.len() {
        let code: String = codes[at].clone();
        let url: String = urls[at].clone();
        assert(aof::texts(urls@)[at as int] == url@);
        assert(aof::texts(codes@)[at as int] == code@);
        claim(code, url, ttl_ms, Why::Own { urls, codes, at })
    } else {
        Job::Done(Outcome::CreatedMany(codes))
    }
}

fn created(code: String, ttl_ms: i64, why: Why) -> (r: Job)
    requires
        why_ok(why@),
    ensures
        r@ == made(code@, ttl_ms, why@),
        job_ok(r@),
{
    match why {
        Why::Alias => Job::Done(Outcome::Created(Some(code))),
        Why::Random => Job::Done(Outcome::Created(Some(code))),
        Why::Own { urls, codes, at } => {
            assert(at < urls.len());
            single(urls, codes, ttl_ms, at + 1)
        },
        Why::Other { urls, codes, at } => {
            let mut codes: Vec<String> = codes;
            let ghost before = aof::texts(codes@);
            let ghost c = code@;
            assert(at < urls.len());
            codes.set(at, code);
            assert(aof::texts(codes@) =~= before.update(at as int, c));
            single(urls, codes, ttl_ms, at + 1)
        },
    }
}

impl RocksStore {
    /// How a request begins: what to ask first, or what came of it.
    pub fn begin(&mut self, mx: &mut Metrics, p: &Plan, now: i64) -> (r: Job)
        requires
            old(self).wf(),
            old(mx).wf(),
        ensures
            final(self).wf(),
            final(mx).wf(),
            begun(old(self)@, old(mx)@, p@, now, final(self)@, final(mx)@, r@),
            job_ok(r@),
    {
        match p {
            Plan::Done(_) => Job::Done(Outcome::Nothing),
            Plan::Shorten { url, alias, ttl_ms } => {
                metrics::store_write(mx);
                match alias {
                    Some(a) => claim(a.clone(), url.clone(), *ttl_ms, Why::Alias),
                    None => claim(self.gen_code(), url.clone(), *ttl_ms, Why::Random),
                }
            },
            Plan::Bulk { urls, ttl_ms } => {
                let codes: Vec<String> = Vec::new();
                assert(aof::texts(codes@) =~= Seq::empty());
                self.gather(kv_jobs::copy_texts(urls), codes, *ttl_ms, now)
            },
            Plan::Resolve { code } => match self.resolve_cached(mx, code.as_str(), now) {
                Some(u) => Job::Done(Outcome::Target(Some(u))),
                None => Job::Next {
                    ask: Ask::Read { code: code.clone() },
                    wait: Wait::Target { code: code.clone() },
                },
            },
            Plan::Stats { code } => Job::Next {
                ask: Ask::Read { code: code.clone() },
                wait: Wait::Known { code: code.clone() },
            },
            Plan::List(l) => Job::Next {
                ask: Ask::Merge { deltas: self.flush_hits() },
                wait: Wait::Merged { req: kv_jobs::copy_req(l) },
            },
            Plan::Update { code, url, ttl_ms, has_ttl } => Job::Next {
                ask: Ask::Read { code: code.clone() },
                wait: Wait::Old {
                    code: code.clone(),
                    url: url.clone(),
                    ttl_ms: *ttl_ms,
                    has_ttl: *has_ttl,
                },
            },
            Plan::Remove { code } => Job::Next {
                ask: Ask::Read { code: code.clone() },
                wait: Wait::Doomed { code: code.clone() },
            },
        }
    }

    fn gather(&self, urls: Vec<String>, codes: Vec<String>, ttl_ms: i64, now: i64) -> (r: Job)
        requires
            self.wf(),
            codes@.len() <= urls@.len(),
            apart(aof::texts(codes@)),
        ensures
            gather_job(
                self@,
                aof::texts(urls@),
                aof::texts(codes@),
                ttl_ms,
                now,
                r@,
            ),
            job_ok(r@),
    {
        if codes.len() < urls.len() {
            let code: String = self.gen_code();
            Job::Next {
                ask: Ask::Claim { code: code.clone() },
                wait: Wait::Gather { urls, codes, ttl_ms, code },
            }
        } else {
            let rows: Vec<(String, Vec<u8>)> = self.shorten_many(&codes, &urls, ttl_ms, now);
            Job::Next { ask: Ask::PutAll { rows }, wait: Wait::Many { urls, codes, ttl_ms } }
        }
    }

    fn gathered(
        &self,
        urls: Vec<String>,
        codes: Vec<String>,
        ttl_ms: i64,
        code: String,
        a: Told,
        now: i64,
    ) -> (r: Job)
        requires
            self.wf(),
            codes@.len() < urls@.len(),
            apart(aof::texts(codes@)),
        ensures
            gather_job(
                self@,
                aof::texts(urls@),
                if a@ == ToldView::Value(None) && !aof::texts(codes@).contains(code@) {
                    aof::texts(codes@).push(code@)
                } else {
                    aof::texts(codes@)
                },
                ttl_ms,
                now,
                r@,
            ),
            job_ok(r@),
    {
        let free: bool = match a {
            Told::Value(None) => true,
            _ => false,
        };
        let mut codes: Vec<String> = codes;
        let ghost before = aof::texts(codes@);
        if free && !holds(&codes, code.as_str()) {
            let ghost c = code@;
            codes.push(code);
            assert(aof::texts(codes@) =~= before.push(c));
            assert forall|j: int, k: int| 0 <= j < k < before.push(c).len() implies before.push(
                c,
            )[j] != before.push(c)[k] by {
                assert(before.contains(before[j]));
            }
        }
        self.gather(urls, codes, ttl_ms, now)
    }

    fn give_up(&self, mx: &mut Metrics, url: String, ttl_ms: i64, why: Why, failed: bool) -> (r: Job)
        requires
            self.wf(),
            old(mx).wf(),
            why_ok(why@),
        ensures
            final(mx).wf(),
            refused(self@, old(mx)@, url@, ttl_ms, why@, failed, final(mx)@, r@),
            job_ok(r@),
    {
        match why {
            Why::Alias => Job::Done(Outcome::Created(None)),
            Why::Random => claim(self.gen_code(), url, ttl_ms, Why::Random),
            Why::Own { urls, codes, at } => {
                if failed {
                    metrics::store_write(mx);
                    claim(self.gen_code(), url, ttl_ms, Why::Other { urls, codes, at })
                } else {
                    assert(at < urls.len());
                    single(urls, codes, ttl_ms, at + 1)
                }
            },
            Why::Other { urls, codes, at } => claim(
                self.gen_code(),
                url,
                ttl_ms,
                Why::Other { urls, codes, at },
            ),
        }
    }

    fn claimed(
        &self,
        mx: &mut Metrics,
        code: String,
        url: String,
        ttl_ms: i64,
        why: Why,
        a: Told,
        now: i64,
    ) -> (r: Job)
        requires
            self.wf(),
            old(mx).wf(),
            why_ok(why@),
        ensures
            final(mx).wf(),
            advanced(
                self@,
                old(mx)@,
                (WaitView::Claimed { code: code@, url: url@, ttl_ms, why: why@ }),
                a@,
                0,
                now,
                self@,
                final(mx)@,
                r@,
            ),
            job_ok(r@),
    {
        let (taken, failed): (bool, bool) = match a {
            Told::Value(None) => (false, false),
            Told::Value(Some(_)) => (true, false),
            _ => (true, true),
        };
        match self.shorten(taken, code.as_str(), url.as_str(), ttl_ms, now) {
            Some(value) => Job::Next {
                ask: Ask::Put { code: code.clone(), value },
                wait: Wait::Stored { code, url, ttl_ms, why },
            },
            None => self.give_up(mx, url, ttl_ms, why, failed),
        }
    }

    fn looked_up(&mut self, mx: &mut Metrics, code: String, a: Told, us: i64, now: i64) -> (r: Job)
        requires
            old(self).wf(),
            old(mx).wf(),
        ensures
            final(self).wf(),
            final(mx).wf(),
            advanced(
                old(self)@,
                old(mx)@,
                (WaitView::Target { code: code@ }),
                a@,
                us,
                now,
                final(self)@,
                final(mx)@,
                r@,
            ),
            job_ok(r@),
    {
        metrics::store_read(mx, us);
        let v: Option<Vec<u8>> = told_value(a);
        match store_rocks::row(&v, now) {
            Found::Expired => reap(code, Outcome::Target(None)),
            _ => Job::Done(Outcome::Target(self.resolve(code.as_str(), &v, now))),
        }
    }

    /// How a request goes on when the answer is in, which took some us: what to ask next,
    /// or what came of it.
    pub fn step(&mut self, mx: &mut Metrics, w: Wait, a: Told, us: i64, now: i64) -> (r: Job)
        requires
            old(self).wf(),
            old(mx).wf(),
            wait_ok(w@),
        ensures
            final(self).wf(),
            final(mx).wf(),
            advanced(old(self)@, old(mx)@, w@, a@, us, now, final(self)@, final(mx)@, r@),
            job_ok(r@),
    {
        match w {
            Wait::Target { code } => self.looked_up(mx, code, a, us, now),
            Wait::Claimed { code, url, ttl_ms, why } => self.claimed(
                mx,
                code,
                url,
                ttl_ms,
                why,
                a,
                now,
            ),
            Wait::Stored { code, url, ttl_ms, why } => match a {
                Told::Written => created(code, ttl_ms, why),
                _ => self.give_up(mx, url, ttl_ms, why, true),
            },
            Wait::Gather { urls, codes, ttl_ms, code } => self.gathered(
                urls,
                codes,
                ttl_ms,
                code,
                a,
                now,
            ),
            Wait::Many { urls, codes, ttl_ms } => match a {
                Told::Written => Job::Done(Outcome::CreatedMany(codes)),
                _ => single(urls, codes, ttl_ms, 0),
            },
            Wait::Known { code } => {
                let v: Option<Vec<u8>> = told_value(a);
                match store_rocks::row(&v, now) {
                    Found::Live(..) => Job::Next {
                        ask: Ask::Hits { code: code.clone() },
                        wait: Wait::Count { code, value: v },
                    },
                    Found::Expired => reap(code, Outcome::Found(None)),
                    Found::Missing => Job::Done(Outcome::Found(None)),
                }
            },
            Wait::Count { code, value } => {
                let h: Option<Vec<u8>> = told_value(a);
                Job::Done(Outcome::Found(self.stats(code.as_str(), &value, &h, now)))
            },
            Wait::Old { code, url, ttl_ms, has_ttl } => {
                let v: Option<Vec<u8>> = told_value(a);
                match self.update_value(&v, url.as_str(), ttl_ms, has_ttl, now) {
                    Some(value) => Job::Next {
                        ask: Ask::Put { code: code.clone(), value },
                        wait: Wait::Changed { code },
                    },
                    None => match store_rocks::row(&v, now) {
                        Found::Expired => reap(code, Outcome::Changed(MutResult::Missing)),
                        _ => Job::Done(Outcome::Changed(MutResult::Missing)),
                    },
                }
            },
            Wait::Doomed { code } => {
                let v: Option<Vec<u8>> = told_value(a);
                match store_rocks::row(&v, now) {
                    Found::Live(..) => Job::Next {
                        ask: Ask::DeleteBoth { code: code.clone() },
                        wait: Wait::Changed { code },
                    },
                    Found::Expired => reap(code, Outcome::Changed(MutResult::Missing)),
                    Found::Missing => Job::Done(Outcome::Changed(MutResult::Missing)),
                }
            },
            Wait::Changed { code } => {
                let written: bool = match a {
                    Told::Written => true,
                    _ => false,
                };
                Job::Done(Outcome::Changed(self.changed(code.as_str(), written)))
            },
            Wait::Merged { req } => Job::Next { ask: Ask::Rows, wait: Wait::Listed { req } },
            Wait::Listed { req } => {
                let rows: Vec<DbRow> = match a {
                    Told::Rows(v) => v,
                    _ => Vec::new(),
                };
                assert(!(a is Rows) ==> rows@ =~= Seq::empty());
                let (links, total): (Vec<Link>, usize) = self.list(
                    &rows,
                    now,
                    req.limit,
                    req.offset,
                    req.sort.as_str(),
                    req.q.as_str(),
                );
                Job::Done(Outcome::Listed(links, total))
            },
            Wait::Reaped { out } => Job::Done(out),
        }
    }
}

} // verus!
