//! What a request on a RESP server takes: the commands to send, one batch after the
//! other, and what the replies come to.

use vstd::prelude::*;

use crate::aof;
use crate::app::{ListReq, ListView, Outcome, OutcomeView, Plan, PlanView};
use crate::kv;
use crate::kv::{Resp, RespView};
use crate::lru;
use crate::store;
use crate::store::{Link, MutResult};
use crate::store_kv;
use crate::store_kv::{KvStore, KvView, Layout};
use crate::text;

verus! {

// ---------- what is waited for ----------

/// What the replies to a batch of commands are for.
pub enum Wait {
    /// The link of a code that is looked up.
    Target { code: String },
    /// A link that is created, under a code that was asked for or a random one.
    Fresh { code: String, url: String, given: bool, ttl_ms: i64 },
    /// Links that are created together.
    Many { urls: Vec<String>, codes: Vec<String>, ttl_ms: i64 },
    /// The first of those links of `todo` that were not created, from `at` on, which is
    /// tried again under another code.
    Retry {
        urls: Vec<String>,
        codes: Vec<String>,
        ttl_ms: i64,
        todo: Vec<usize>,
        at: usize,
        code: String,
    },
    /// A link and its hits.
    Known { code: String },
    /// The link that is to get another url.
    Old { code: String, url: String, ttl_ms: i64, has_ttl: bool },
    /// The link with the other url.
    Written { code: String },
    /// A link that is removed.
    Gone { code: String },
    /// The hits of a link that was removed.
    Cleared,
    /// The keys of a listing.
    Keys { req: ListReq, keys: Vec<Vec<u8>> },
    /// The values under the keys of a listing.
    Values { req: ListReq, keys: Vec<Vec<u8>> },
    /// The fields of one of the hashes of a listing.
    Fields { req: ListReq, keys: Vec<Vec<u8>>, at: usize, fields: Vec<(Vec<u8>, Vec<u8>)> },
    /// The hashes that are to be swept.
    Hashes { keys: Vec<Vec<u8>> },
    /// The fields of one of the hashes that are swept; `dels` deletes what has expired in
    /// those before it.
    Stale {
        keys: Vec<Vec<u8>>,
        at: usize,
        fields: Vec<(Vec<u8>, Vec<u8>)>,
        dels: Vec<Vec<Vec<u8>>>,
    },
    /// What has expired is deleted.
    Swept,
}

/// What the replies to a batch of commands are for.
pub ghost enum WaitView {
    Target { code: Seq<char> },
    Fresh { code: Seq<char>, url: Seq<char>, given: bool, ttl_ms: i64 },
    Many { urls: Seq<Seq<char>>, codes: Seq<Seq<char>>, ttl_ms: i64 },
    Retry {
        urls: Seq<Seq<char>>,
        codes: Seq<Seq<char>>,
        ttl_ms: i64,
        todo: Seq<usize>,
        at: int,
        code: Seq<char>,
    },
    Known { code: Seq<char> },
    Old { code: Seq<char>, url: Seq<char>, ttl_ms: i64, has_ttl: bool },
    Written { code: Seq<char> },
    Gone { code: Seq<char> },
    Cleared,
    Keys { req: ListView, keys: Seq<Seq<u8>> },
    Values { req: ListView, keys: Seq<Seq<u8>> },
    Fields { req: ListView, keys: Seq<Seq<u8>>, at: int, fields: Seq<(Seq<u8>, Seq<u8>)> },
    Hashes { keys: Seq<Seq<u8>> },
    Stale {
        keys: Seq<Seq<u8>>,
        at: int,
        fields: Seq<(Seq<u8>, Seq<u8>)>,
        dels: Seq<Seq<Seq<u8>>>,
    },
    Swept,
}

impl View for Wait {
    type V = WaitView;

    open spec fn view(&self) -> WaitView {
        match *self {
            Wait::Target { code } => WaitView::Target { code: code@ },
            Wait::Fresh { code, url, given, ttl_ms } => WaitView::Fresh {
                code: code@,
                url: url@,
                given,
                ttl_ms,
            },
            Wait::Many { urls, codes, ttl_ms } => WaitView::Many {
                urls: aof::texts(urls@),
                codes: aof::texts(codes@),
                ttl_ms,
            },
            Wait::Retry { urls, codes, ttl_ms, todo, at, code } => WaitView::Retry {
                urls: aof::texts(urls@),
                codes: aof::texts(codes@),
                ttl_ms,
                todo: todo@,
                at: at as int,
                code: code@,
            },
            Wait::Known { code } => WaitView::Known { code: code@ },
            Wait::Old { code, url, ttl_ms, has_ttl } => WaitView::Old {
                code: code@,
                url: url@,
                ttl_ms,
                has_ttl,
            },
            Wait::Written { code } => WaitView::Written { code: code@ },
            Wait::Gone { code } => WaitView::Gone { code: code@ },
            Wait::Cleared => WaitView::Cleared,
            Wait::Keys { req, keys } => WaitView::Keys { req: req@, keys: aof::bytes_of(keys@) },
            Wait::Values { req, keys } => WaitView::Values {
                req: req@,
                keys: aof::bytes_of(keys@),
            },
            Wait::Fields { req, keys, at, fields } => WaitView::Fields {
                req: req@,
                keys: aof::bytes_of(keys@),
                at: at as int,
                fields: kv::field_views(fields@),
            },
            Wait::Hashes { keys } => WaitView::Hashes { keys: aof::bytes_of(keys@) },
            Wait::Stale { keys, at, fields, dels } => WaitView::Stale {
                keys: aof::bytes_of(keys@),
                at: at as int,
                fields: kv::field_views(fields@),
                dels: store_kv::words_of(dels@),
            },
            Wait::Swept => WaitView::Swept,
        }
    }
}

/// What a request comes to next: commands to send, or what came of it.
pub enum Job {
    Send { cmds: Vec<Vec<Vec<u8>>>, wait: Wait },
    Done(Outcome),
}

/// What a request comes to next.
pub ghost enum JobView {
    Send { cmds: Seq<Seq<Seq<u8>>>, wait: WaitView },
    Done(OutcomeView),
}

impl View for Job {
    type V = JobView;

    open spec fn view(&self) -> JobView {
        match *self {
            Job::Send { cmds, wait } => JobView::Send {
                cmds: store_kv::words_of(cmds@),
                wait: wait@,
            },
            Job::Done(o) => JobView::Done(o@),
        }
    }
}

/// Keys that all have room for the two bytes before a code, and few enough to ask for two
/// values each.
pub open spec fn listable(keys: Seq<Seq<u8>>) -> bool {
    &&& forall|i: int| 0 <= i < keys.len() ==> (#[trigger] keys[i]).len() >= 2
    &&& 2 * keys.len() <= usize::MAX
}

/// What is waited for makes sense.
pub open spec fn wait_ok(layout: Layout, w: WaitView) -> bool {
    match w {
        WaitView::Many { urls, codes, .. } => codes.len() == urls.len(),
        WaitView::Retry { urls, codes, todo, at, .. } => {
            &&& codes.len() == urls.len()
            &&& 0 <= at < todo.len()
            &&& forall|k: int| 0 <= k < todo.len() ==> #[trigger] todo[k] < urls.len()
        },
        WaitView::Keys { keys, .. } => layout == Layout::Key ==> listable(keys),
        WaitView::Values { keys, .. } => listable(keys),
        WaitView::Fields { keys, at, .. } => 0 <= at < keys.len(),
        WaitView::Stale { keys, at, .. } => 0 <= at < keys.len(),
        _ => true,
    }
}

/// What is to be sent makes sense.
pub open spec fn job_ok(layout: Layout, j: JobView) -> bool {
    j matches JobView::Send { wait, .. } ==> wait_ok(layout, wait)
}

/// The replies to a batch, where there are any, are one to each command, and the keys of
/// a listing have codes.
pub open spec fn replies_fit(layout: Layout, w: WaitView, rs: Option<Seq<RespView>>) -> bool {
    rs matches Some(v) ==> match w {
        WaitView::Many { urls, .. } => v.len() == urls.len(),
        WaitView::Values { .. } => true,
        WaitView::Swept => true,
        WaitView::Known { .. } => v.len() == 2,
        WaitView::Keys { keys, .. } => v.len() == 1 && (layout == Layout::Key ==> listable(
            keys + kv::bulks(kv::scan_result(v[0]).0),
        )),
        _ => v.len() == 1,
    }
}

// ---------- how a request goes on ----------

/// A link is to be created under a code.
pub open spec fn create_job(
    s: KvView,
    code: Seq<char>,
    url: Seq<char>,
    given: bool,
    ttl_ms: i64,
    now: i64,
) -> JobView {
    JobView::Send {
        cmds: seq![store_kv::create_words(s, code, url, ttl_ms, now)],
        wait: WaitView::Fresh { code, url, given, ttl_ms },
    }
}

/// A link is to be created under a random code.
pub open spec fn random_job(
    s: KvView,
    url: Seq<char>,
    ttl_ms: i64,
    now: i64,
    j: JobView,
) -> bool {
    exists|code: Seq<char>| #[trigger]
        store::generated(s.instance as int, code) && j == create_job(
            s,
            code,
            url,
            false,
            ttl_ms,
            now,
        )
}

/// Links are to be created together, each under a random code.
pub open spec fn many_job(
    s: KvView,
    urls: Seq<Seq<char>>,
    ttl_ms: i64,
    now: i64,
    j: JobView,
) -> bool {
    exists|codes: Seq<Seq<char>>|
        {
            &&& #[trigger] codes.len() == urls.len()
            &&& forall|i: int|
                0 <= i < codes.len() ==> store::generated(s.instance as int, #[trigger] codes[i])
            &&& j == (JobView::Send {
                cmds: Seq::new(
                    urls.len(),
                    |i: int| store_kv::create_words(s, codes[i], urls[i], ttl_ms, now),
                ),
                wait: WaitView::Many { urls, codes, ttl_ms },
            })
        }
}

/// The links that were not created are to be tried again one by one; there the codes are
/// the answer.
pub open spec fn retry_job(
    s: KvView,
    urls: Seq<Seq<char>>,
    codes: Seq<Seq<char>>,
    ttl_ms: i64,
    todo: Seq<usize>,
    at: int,
    now: i64,
    j: JobView,
) -> bool {
    if at < todo.len() {
        exists|code: Seq<char>| #[trigger]
            store::generated(s.instance as int, code) && j == (JobView::Send {
                cmds: seq![
                    store_kv::create_words(s, code, urls[todo[at] as int], ttl_ms, now),
                ],
                wait: WaitView::Retry { urls, codes, ttl_ms, todo, at, code },
            })
    } else {
        j == JobView::Done(OutcomeView::CreatedMany(codes))
    }
}

/// The places of the links that were not created, in order.
pub open spec fn not_created(layout: Layout, rs: Seq<RespView>, todo: Seq<usize>) -> bool {
    &&& forall|k: int, m: int| 0 <= k < m < todo.len() ==> todo[k] < todo[m]
    &&& forall|k: int|
        0 <= k < todo.len() ==> #[trigger] todo[k] < rs.len() && !store_kv::was_created(
            layout,
            rs[todo[k] as int],
        )
    &&& forall|i: int|
        0 <= i < rs.len() && !store_kv::was_created(layout, #[trigger] rs[i]) ==> todo.contains(
            i as usize,
        )
}

/// Of links that were created together, those that were not are to be tried again.
pub open spec fn again_job(
    s: KvView,
    urls: Seq<Seq<char>>,
    codes: Seq<Seq<char>>,
    ttl_ms: i64,
    rs: Seq<RespView>,
    now: i64,
    j: JobView,
) -> bool {
    exists|todo: Seq<usize>|
        {
            &&& #[trigger] not_created(s.layout, rs, todo)
            &&& retry_job(s, urls, codes, ttl_ms, todo, 0, now, j)
        }
}

/// The words of the command that asks for keys of links.
pub open spec fn scan_words(cursor: Seq<u8>) -> Seq<Seq<u8>> {
    seq![
        text::lit("SCAN"),
        cursor,
        text::lit("MATCH"),
        text::lit("l:*"),
        text::lit("COUNT"),
        text::lit("500"),
    ]
}

/// The words of the command that asks for fields of a hash.
pub open spec fn hscan_words(key: Seq<u8>, cursor: Seq<u8>) -> Seq<Seq<u8>> {
    seq![text::lit("HSCAN"), key, cursor, text::lit("COUNT"), text::lit("1000")]
}

/// The next hash of a listing is to be read, from its start; if there is none, the page
/// is the answer.
pub open spec fn bucket_job(
    req: ListView,
    keys: Seq<Seq<u8>>,
    at: int,
    fields: Seq<(Seq<u8>, Seq<u8>)>,
    now: i64,
    j: JobView,
) -> bool {
    if at < keys.len() {
        j == (JobView::Send {
            cmds: seq![hscan_words(keys[at], text::lit("0"))],
            wait: WaitView::Fields { req, keys, at, fields },
        })
    } else {
        j matches JobView::Done(OutcomeView::Listed(links, total)) && store_kv::paged(
            store_kv::with_hits(store_kv::field_links(fields, now, req.q), fields),
            req.sort,
            req.limit as int,
            req.offset as int,
            links,
            total as int,
        )
    }
}

/// What lies under the keys of a listing is to be read.
pub open spec fn keys_job(
    layout: Layout,
    req: ListView,
    keys: Seq<Seq<u8>>,
    now: i64,
    j: JobView,
) -> bool {
    match layout {
        Layout::Key => j == (JobView::Send {
            cmds: store_kv::list_words(keys),
            wait: WaitView::Values { req, keys },
        }),
        Layout::Hash => bucket_job(req, keys, 0, Seq::empty(), now, j),
    }
}

/// The next hash is to be swept; after the last one, what has expired is deleted.
pub open spec fn sweep_job(keys: Seq<Seq<u8>>, at: int, dels: Seq<Seq<Seq<u8>>>) -> JobView {
    if at < keys.len() {
        JobView::Send {
            cmds: seq![hscan_words(keys[at], text::lit("0"))],
            wait: WaitView::Stale { keys, at, fields: Seq::empty(), dels },
        }
    } else if dels.len() > 0 {
        JobView::Send { cmds: dels, wait: WaitView::Swept }
    } else {
        JobView::Done(OutcomeView::Nothing)
    }
}

/// How a request begins.
pub open spec fn begun(s: KvView, p: PlanView, now: i64, t: KvView, j: JobView) -> bool {
    match p {
        PlanView::Done(_) => t == s && j == JobView::Done(OutcomeView::Nothing),
        PlanView::Shorten { url, alias, ttl_ms } => t == s && match alias {
            Some(a) => j == create_job(s, a, url, true, ttl_ms, now),
            None => random_job(s, url, ttl_ms, now, j),
        },
        PlanView::Bulk { urls, ttl_ms } => t == s && many_job(s, urls, ttl_ms, now, j),
        PlanView::Resolve { code } => {
            let u = KvView { cache: lru::after_get(s.cache, code, now), ..s };
            match lru::fresh_entry(s.cache, code, now) {
                Some(x) => t == store_kv::bumped(u, code) && j == JobView::Done(
                    OutcomeView::Target(Some(x.u)),
                ),
                None => t == u && j == (JobView::Send {
                    cmds: seq![store_kv::row_words(s, code)],
                    wait: WaitView::Target { code },
                }),
            }
        },
        PlanView::Stats { code } => t == s && j == (JobView::Send {
            cmds: seq![store_kv::row_words(s, code), store_kv::hits_words(s, code)],
            wait: WaitView::Known { code },
        }),
        PlanView::List(req) => t == s && j == (JobView::Send {
            cmds: seq![scan_words(text::lit("0"))],
            wait: WaitView::Keys { req, keys: Seq::empty() },
        }),
        PlanView::Update { code, url, ttl_ms, has_ttl } => t == s && j == (JobView::Send {
            cmds: seq![store_kv::row_words(s, code)],
            wait: WaitView::Old { code, url, ttl_ms, has_ttl },
        }),
        PlanView::Remove { code } => t == s && j == (JobView::Send {
            cmds: seq![store_kv::remove_words(s, code)],
            wait: WaitView::Gone { code },
        }),
    }
}

/// The value that a reply holds; none if the server did not reply.
pub open spec fn replied(rs: Option<Seq<RespView>>) -> Option<Seq<u8>> {
    match rs {
        Some(v) => kv::bulk_of(v[0]),
        None => None,
    }
}

/// A store that does not cache a code any more.
pub open spec fn uncached(s: KvView, code: Seq<char>) -> KvView {
    KvView { cache: lru::after_remove(s.cache, code), ..s }
}

/// How a request goes on when the replies are in, or none could be had.
pub open spec fn advanced(
    s: KvView,
    w: WaitView,
    rs: Option<Seq<RespView>>,
    now: i64,
    t: KvView,
    j: JobView,
) -> bool {
    match w {
        WaitView::Target { code } => match store_kv::target_in(replied(rs), now) {
            Some((e, u)) => t == store_kv::bumped(
                KvView { cache: lru::after_put(s.cache, code, u, e, now), ..s },
                code,
            ) && j == JobView::Done(OutcomeView::Target(Some(u))),
            None => t == s && j == JobView::Done(OutcomeView::Target(None)),
        },
        WaitView::Fresh { code, url, given, ttl_ms } => t == s && if rs is Some
            && store_kv::was_created(s.layout, rs->0[0]) {
            j == JobView::Done(OutcomeView::Created(Some(code)))
        } else if given {
            j == JobView::Done(OutcomeView::Created(None))
        } else {
            random_job(s, url, ttl_ms, now, j)
        },
        WaitView::Many { urls, codes, ttl_ms } => t == s && match rs {
            Some(v) => again_job(s, urls, codes, ttl_ms, v, now, j),
            None => j == JobView::Done(OutcomeView::CreatedMany(codes)),
        },
        WaitView::Retry { urls, codes, ttl_ms, todo, at, code } => t == s && if rs is Some
            && store_kv::was_created(s.layout, rs->0[0]) {
            retry_job(
                s,
                urls,
                codes.update(todo[at] as int, code),
                ttl_ms,
                todo,
                at + 1,
                now,
                j,
            )
        } else {
            retry_job(s, urls, codes, ttl_ms, todo, at, now, j)
        },
        WaitView::Known { code } => t == s && j == JobView::Done(
            OutcomeView::Found(
                match rs {
                    Some(v) => store_kv::stats_of(
                        s,
                        code,
                        kv::bulk_of(v[0]),
                        kv::bulk_of(v[1]),
                    ),
                    None => None,
                },
            ),
        ),
        WaitView::Old { code, url, ttl_ms, has_ttl } => t == s && j == (
        match store_kv::update_words(s, code, replied(rs), url, ttl_ms, has_ttl, now) {
            Some(c) => JobView::Send { cmds: seq![c], wait: WaitView::Written { code } },
            None => JobView::Done(OutcomeView::Changed(MutResult::Missing)),
        }),
        WaitView::Written { code } => if rs is Some && store_kv::was_updated(s.layout, rs->0[0]) {
            t == uncached(s, code) && j == JobView::Done(OutcomeView::Changed(MutResult::Done))
        } else {
            t == s && j == JobView::Done(OutcomeView::Changed(MutResult::Missing))
        },
        WaitView::Gone { code } => if rs is Some && kv::count_of(rs->0[0]) > 0 {
            t == uncached(s, code) && j == (JobView::Send {
                cmds: seq![store_kv::remove_hits_words(s, code)],
                wait: WaitView::Cleared,
            })
        } else {
            t == s && j == JobView::Done(OutcomeView::Changed(MutResult::Missing))
        },
        WaitView::Cleared => t == s && j == JobView::Done(OutcomeView::Changed(MutResult::Done)),
        WaitView::Keys { req, keys } => t == s && match rs {
            Some(v) => {
                let (page, next) = kv::scan_result(v[0]);
                let all = keys + kv::bulks(page);
                match next {
                    Some(c) => j == (JobView::Send {
                        cmds: seq![scan_words(c)],
                        wait: WaitView::Keys { req, keys: all },
                    }),
                    None => keys_job(s.layout, req, all, now, j),
                }
            },
            None => keys_job(s.layout, req, keys, now, j),
        },
        WaitView::Values { req, keys } => t == s && (j matches JobView::Done(
            OutcomeView::Listed(links, total),
        ) && store_kv::paged(
            store_kv::key_links(
                keys,
                match rs {
                    Some(v) => v,
                    None => Seq::empty(),
                },
                req.q,
            ),
            req.sort,
            req.limit as int,
            req.offset as int,
            links,
            total as int,
        )),
        WaitView::Fields { req, keys, at, fields } => t == s && match rs {
            Some(v) => {
                let (page, next) = kv::scan_result(v[0]);
                let all = fields + kv::bulk_pairs(page);
                match next {
                    Some(c) => j == (JobView::Send {
                        cmds: seq![hscan_words(keys[at], c)],
                        wait: WaitView::Fields { req, keys, at, fields: all },
                    }),
                    None => bucket_job(req, keys, at + 1, all, now, j),
                }
            },
            None => bucket_job(req, keys, at + 1, fields, now, j),
        },
        WaitView::Hashes { keys } => t == s && j == (match rs {
            Some(v) => {
                let (page, next) = kv::scan_result(v[0]);
                let all = keys + kv::bulks(page);
                match next {
                    Some(c) => JobView::Send {
                        cmds: seq![scan_words(c)],
                        wait: WaitView::Hashes { keys: all },
                    },
                    None => sweep_job(all, 0, Seq::empty()),
                }
            },
            None => JobView::Done(OutcomeView::Nothing),
        }),
        WaitView::Stale { keys, at, fields, dels } => t == s && j == (match rs {
            Some(v) => {
                let (page, next) = kv::scan_result(v[0]);
                let all = fields + kv::bulk_pairs(page);
                match next {
                    Some(c) => JobView::Send {
                        cmds: seq![hscan_words(keys[at], c)],
                        wait: WaitView::Stale { keys, at, fields: all, dels },
                    },
                    None => sweep_job(
                        keys,
                        at + 1,
                        dels + store_kv::sweep_words(keys[at], all, now),
                    ),
                }
            },
            None => JobView::Done(OutcomeView::Nothing),
        }),
        WaitView::Swept => t == s && j == JobView::Done(OutcomeView::Nothing),
    }
}

/// Replies that may not have come.
pub open spec fn opt_replies(rs: Option<Vec<Resp>>) -> Option<Seq<RespView>> {
    match rs {
        Some(v) => Some(kv::resp_views(v@)),
        None => None,
    }
}

/// One batch of one command.
fn one(c: Vec<Vec<u8>>) -> (r: Vec<Vec<Vec<u8>>>)
    ensures
        store_kv::words_of(r@) == seq![aof::bytes_of(c@)],
{
    let mut v: Vec<Vec<Vec<u8>>> = Vec::new();
    let ghost w = aof::bytes_of(c@);
    v.push(c);
    assert(store_kv::words_of(v@) =~= seq![w]);
    v
}

/// The value that the first reply holds, if there is one.
fn first_value(rs: &Option<Vec<Resp>>) -> (r: Option<Vec<u8>>)
    requires
        rs matches Some(v) ==> v@.len() > 0,
    ensures
        kv::opt_bytes(r) == replied(opt_replies(*rs)),
{
    match rs {
        Some(v) => {
            assert(kv::resp_views(v@)[0] == kv::resp_view(v@[0]));
            match store_kv::value_at(v, 0) {
                Some(b) => Some(text::copy_bytes(b.as_slice())),
                None => None,
            }
        },
        None => None,
    }
}

/// The first reply, if there are any.
fn first(rs: Option<Vec<Resp>>) -> (r: Option<Resp>)
    requires
        rs matches Some(v) ==> v@.len() == 1,
    ensures
        r is Some <==> rs is Some,
        r matches Some(x) ==> kv::resp_view(x) == opt_replies(rs)->0[0],
{
    match rs {
        Some(v) => {
            let mut v: Vec<Resp> = v;
            v.pop()
        },
        None => None,
    }
}

impl KvStore {
    /// Whether the link under a code was created, by the reply.
    fn created(&self, code: &String, rs: Option<Vec<Resp>>) -> (r: bool)
        requires
            rs matches Some(v) ==> v@.len() == 1,
        ensures
            r == (rs is Some && store_kv::was_created(self@.layout, opt_replies(rs)->0[0])),
    {
        match first(rs) {
            Some(x) => self.shorten(code.as_str(), x).is_some(),
            None => false,
        }
    }

    /// A link is to be created under a code.
    fn create(&self, code: String, url: String, given: bool, ttl_ms: i64, now: i64) -> (r: Job)
        requires
            self.wf(),
        ensures
            r@ == create_job(self@, code@, url@, given, ttl_ms, now),
    {
        let cmds: Vec<Vec<Vec<u8>>> = one(
            self.create_cmd(code.as_str(), url.as_str(), ttl_ms, now),
        );
        Job::Send { cmds, wait: Wait::Fresh { code, url, given, ttl_ms } }
    }

    /// Links that were not created are to be tried again, from one on.
    fn retry(
        &self,
        urls: Vec<String>,
        codes: Vec<String>,
        ttl_ms: i64,
        todo: Vec<usize>,
        at: usize,
        now: i64,
    ) -> (r: Job)
        requires
            self.wf(),
            codes@.len() == urls@.len(),
            forall|k: int| 0 <= k < todo@.len() ==> #[trigger] todo@[k] < urls@.len(),
        ensures
            retry_job(
                self@,
                aof::texts(urls@),
                aof::texts(codes@),
                ttl_ms,
                todo@,
                at as int,
                now,
                r@,
            ),
            job_ok(self@.layout, r@),
    {
        if at < todo.len() {
            let code: String = self.gen_code();
            let i: usize = todo[at];
            assert(aof::texts(urls@)[i as int] == urls@[i as int]@);
            let cmds: Vec<Vec<Vec<u8>>> = one(
                self.create_cmd(code.as_str(), urls[i].as_str(), ttl_ms, now),
            );
            Job::Send { cmds, wait: Wait::Retry { urls, codes, ttl_ms, todo, at, code } }
        } else {
            Job::Done(Outcome::CreatedMany(codes))
        }
    }

    /// Links are to be created together.
    fn create_many(&self, urls: &Vec<String>, ttl_ms: i64, now: i64) -> (r: Job)
        requires
            self.wf(),
        ensures
            many_job(self@, aof::texts(urls@), ttl_ms, now, r@),
            job_ok(self@.layout, r@),
    {
        let (codes, cmds): (Vec<String>, Vec<Vec<Vec<u8>>>) = self.shorten_many(
            urls,
            ttl_ms,
            now,
        );
        let ghost cs = aof::texts(codes@);
        let ghost us = aof::texts(urls@);
        assert(store_kv::words_of(cmds@) =~= Seq::new(
            us.len(),
            |i: int| store_kv::create_words(self@, cs[i], us[i], ttl_ms, now),
        ));
        assert(cs.len() == us.len());
        let copy: Vec<String> = copy_texts(urls);
        Job::Send { cmds, wait: Wait::Many { urls: copy, codes, ttl_ms } }
    }

    /// A link and its hits are to be read.
    fn ask_both(&self, code: &str) -> (r: Job)
        requires
            self.wf(),
        ensures
            r@ == (JobView::Send {
                cmds: seq![
                    store_kv::row_words(self@, code@),
                    store_kv::hits_words(self@, code@),
                ],
                wait: WaitView::Known { code: code@ },
            }),
    {
        let mut cmds: Vec<Vec<Vec<u8>>> = one(self.row_cmd(code));
        let c: Vec<Vec<u8>> = self.hits_cmd(code);
        let ghost before = store_kv::words_of(cmds@);
        let ghost w = aof::bytes_of(c@);
        cmds.push(c);
        assert(store_kv::words_of(cmds@) =~= before.push(w));
        assert(before.push(w) =~= seq![
            store_kv::row_words(self@, code@),
            store_kv::hits_words(self@, code@),
        ]);
        Job::Send { cmds, wait: Wait::Known { code: code.to_string() } }
    }

    /// How a request begins: what to send first, or what came of it.
    pub fn begin(&mut self, p: &Plan, now: i64) -> (r: Job)
        requires
            old(self).wf(),
        ensures
            final(self).wf(),
            begun(old(self)@, p@, now, final(self)@, r@),
            job_ok(final(self)@.layout, r@),
    {
        match p {
            Plan::Done(_) => Job::Done(Outcome::Nothing),
            Plan::Shorten { url, alias, ttl_ms } => match alias {
                Some(a) => self.create(a.clone(), url.clone(), true, *ttl_ms, now),
                None => {
                    let code: String = self.gen_code();
                    self.create(code, url.clone(), false, *ttl_ms, now)
                },
            },
            Plan::Bulk { urls, ttl_ms } => self.create_many(urls, *ttl_ms, now),
            Plan::Resolve { code } => match self.resolve_cached(code.as_str(), now) {
                Some(u) => Job::Done(Outcome::Target(Some(u))),
                None => Job::Send {
                    cmds: one(self.row_cmd(code.as_str())),
                    wait: Wait::Target { code: code.clone() },
                },
            },
            Plan::Stats { code } => self.ask_both(code.as_str()),
            Plan::List(l) => first_keys(l),
            Plan::Update { code, url, ttl_ms, has_ttl } => Job::Send {
                cmds: one(self.row_cmd(code.as_str())),
                wait: Wait::Old {
                    code: code.clone(),
                    url: url.clone(),
                    ttl_ms: *ttl_ms,
                    has_ttl: *has_ttl,
                },
            },
            Plan::Remove { code } => Job::Send {
                cmds: one(self.remove_cmd(code.as_str())),
                wait: Wait::Gone { code: code.clone() },
            },
        }
    }
}

/// A copy of a request for a page.
pub fn copy_req(l: &ListReq) -> (r: ListReq)
    ensures
        r@ == l@,
{
    ListReq { limit: l.limit, offset: l.offset, sort: l.sort.clone(), q: l.q.clone() }
}

/// The keys of a listing are to be read, from the start.
fn first_keys(l: &ListReq) -> (r: Job)
    ensures
        r@ == (JobView::Send {
            cmds: seq![scan_words(text::lit("0"))],
            wait: WaitView::Keys { req: l@, keys: Seq::empty() },
        }),
{
    let keys: Vec<Vec<u8>> = Vec::new();
    assert(aof::bytes_of(keys@) =~= Seq::empty());
    Job::Send {
        cmds: one(kv::scan_cmd("0".as_bytes(), "l:*".as_bytes())),
        wait: Wait::Keys { req: copy_req(l), keys },
    }
}

/// A copy of some texts.
pub fn copy_texts(v: &Vec<String>) -> (r: Vec<String>)
    ensures
        aof::texts(r@) == aof::texts(v@),
{
    let mut r: Vec<String> = Vec::new();
    let mut i: usize = 0;
    while i < v.len()
        invariant
            i <= v@.len(),
            r@.len() == i,
            forall|k: int| 0 <= k < i ==> (#[trigger] r@[k])@ == v@[k]@,
        decreases v@.len() - i,
    {
        r.push(v[i].clone());
        i += 1;
    }
    assert(aof::texts(r@) =~= aof::texts(v@));
    r
}

/// The next hash of a listing is to be read; if there is none, the page is the answer.
fn next_bucket(
    req: ListReq,
    keys: Vec<Vec<u8>>,
    at: usize,
    fields: Vec<(Vec<u8>, Vec<u8>)>,
    now: i64,
) -> (r: Job)
    ensures
        bucket_job(
            req@,
            aof::bytes_of(keys@),
            at as int,
            kv::field_views(fields@),
            now,
            r@,
        ),
        job_ok(Layout::Hash, r@),
{
    if at < keys.len() {
        assert(aof::bytes_of(keys@)[at as int] == keys@[at as int]@);
        let cmds: Vec<Vec<Vec<u8>>> = one(kv::hscan_cmd(keys[at].as_slice(), "0".as_bytes()));
        Job::Send { cmds, wait: Wait::Fields { req, keys, at, fields } }
    } else {
        let (links, total): (Vec<Link>, usize) = store_kv::list_fields(
            &fields,
            now,
            req.limit,
            req.offset,
            req.sort.as_str(),
            req.q.as_str(),
        );
        Job::Done(Outcome::Listed(links, total))
    }
}

/// What lies under the keys of a listing is to be read.
fn read_keys(layout: Layout, req: ListReq, keys: Vec<Vec<u8>>, now: i64) -> (r: Job)
    requires
        layout == Layout::Key ==> listable(aof::bytes_of(keys@)),
    ensures
        keys_job(layout, req@, aof::bytes_of(keys@), now, r@),
        job_ok(layout, r@),
{
    match layout {
        Layout::Key => {
            proof {
                lemma_keys(keys@);
            }
            let cmds: Vec<Vec<Vec<u8>>> = store_kv::list_cmds(&keys);
            Job::Send { cmds, wait: Wait::Values { req, keys } }
        },
        Layout::Hash => {
            let fields: Vec<(Vec<u8>, Vec<u8>)> = Vec::new();
            assert(kv::field_views(fields@) =~= Seq::empty());
            next_bucket(req, keys, 0, fields, now)
        },
    }
}

proof fn lemma_keys(keys: Seq<Vec<u8>>)
    requires
        listable(aof::bytes_of(keys)),
    ensures
        forall|i: int| 0 <= i < keys.len() ==> (#[trigger] keys[i])@.len() >= 2,
        2 * keys.len() <= usize::MAX,
{
    assert forall|i: int| 0 <= i < keys.len() implies (#[trigger] keys[i])@.len() >= 2 by {
        assert(aof::bytes_of(keys)[i].len() >= 2);
    }
}

/// The page that the values under some keys give.
fn page_of(req: ListReq, keys: Vec<Vec<u8>>, rs: Option<Vec<Resp>>) -> (r: Job)
    requires
        listable(aof::bytes_of(keys@)),
    ensures
        r@ matches JobView::Done(OutcomeView::Listed(links, total)) && store_kv::paged(
            store_kv::key_links(
                aof::bytes_of(keys@),
                match opt_replies(rs) {
                    Some(v) => v,
                    None => Seq::empty(),
                },
                req@.q,
            ),
            req@.sort,
            req@.limit as int,
            req@.offset as int,
            links,
            total as int,
        ),
{
    let v: Vec<Resp> = match rs {
        Some(v) => v,
        None => Vec::new(),
    };
    proof {
        lemma_keys(keys@);
        if rs is None {
            assert(kv::resp_views(v@) =~= Seq::empty());
        }
    }
    let (links, total): (Vec<Link>, usize) = store_kv::list_keys(
        &keys,
        &v,
        req.limit,
        req.offset,
        req.sort.as_str(),
        req.q.as_str(),
    );
    Job::Done(Outcome::Listed(links, total))
}

/// How a listing goes on when more keys are in.
fn more_keys(
    layout: Layout,
    req: ListReq,
    keys: Vec<Vec<u8>>,
    rs: Option<Vec<Resp>>,
    now: i64,
) -> (r: Job)
    requires
        layout == Layout::Key ==> listable(aof::bytes_of(keys@)),
        replies_fit(
            layout,
            (WaitView::Keys { req: req@, keys: aof::bytes_of(keys@) }),
            opt_replies(rs),
        ),
    ensures
        match opt_replies(rs) {
            Some(v) => {
                let (page, next) = kv::scan_result(v[0]);
                let all = aof::bytes_of(keys@) + kv::bulks(page);
                match next {
                    Some(c) => r@ == (JobView::Send {
                        cmds: seq![scan_words(c)],
                        wait: WaitView::Keys { req: req@, keys: all },
                    }),
                    None => keys_job(layout, req@, all, now, r@),
                }
            },
            None => keys_job(layout, req@, aof::bytes_of(keys@), now, r@),
        },
        job_ok(layout, r@),
{
    match first(rs) {
        Some(x) => {
            let mut keys: Vec<Vec<u8>> = keys;
            let ghost before = aof::bytes_of(keys@);
            let (page, next): (Vec<Vec<u8>>, Option<Vec<u8>>) = kv::scan_step(&x);
            let mut page: Vec<Vec<u8>> = page;
            let ghost got = aof::bytes_of(page@);
            keys.append(&mut page);
            assert(aof::bytes_of(keys@) =~= before + got);
            match next {
                Some(c) => Job::Send {
                    cmds: one(kv::scan_cmd(c.as_slice(), "l:*".as_bytes())),
                    wait: Wait::Keys { req, keys },
                },
                None => read_keys(layout, req, keys, now),
            }
        },
        None => read_keys(layout, req, keys, now),
    }
}

/// How a listing goes on when more fields are in.
fn more_fields(
    req: ListReq,
    keys: Vec<Vec<u8>>,
    at: usize,
    fields: Vec<(Vec<u8>, Vec<u8>)>,
    rs: Option<Vec<Resp>>,
    now: i64,
) -> (r: Job)
    requires
        at < keys@.len(),
        rs matches Some(v) ==> v@.len() == 1,
    ensures
        match opt_replies(rs) {
            Some(v) => {
                let (page, next) = kv::scan_result(v[0]);
                let all = kv::field_views(fields@) + kv::bulk_pairs(page);
                match next {
                    Some(c) => r@ == (JobView::Send {
                        cmds: seq![hscan_words(aof::bytes_of(keys@)[at as int], c)],
                        wait: WaitView::Fields {
                            req: req@,
                            keys: aof::bytes_of(keys@),
                            at: at as int,
                            fields: all,
                        },
                    }),
                    None => bucket_job(req@, aof::bytes_of(keys@), at + 1, all, now, r@),
                }
            },
            None => bucket_job(
                req@,
                aof::bytes_of(keys@),
                at + 1,
                kv::field_views(fields@),
                now,
                r@,
            ),
        },
        job_ok(Layout::Hash, r@),
{
    assert(at < keys.len());
    match first(rs) {
        Some(x) => {
            let mut fields: Vec<(Vec<u8>, Vec<u8>)> = fields;
            let ghost before = kv::field_views(fields@);
            let (page, next): (Vec<(Vec<u8>, Vec<u8>)>, Option<Vec<u8>>) = kv::hscan_step(&x);
            let mut page: Vec<(Vec<u8>, Vec<u8>)> = page;
            let ghost got = kv::field_views(page@);
            fields.append(&mut page);
            assert(kv::field_views(fields@) =~= before + got);
            match next {
                Some(c) => {
                    let cmds: Vec<Vec<Vec<u8>>> = one(
                        kv::hscan_cmd(keys[at].as_slice(), c.as_slice()),
                    );
                    Job::Send { cmds, wait: Wait::Fields { req, keys, at, fields } }
                },
                None => next_bucket(req, keys, at + 1, fields, now),
            }
        },
        None => next_bucket(req, keys, at + 1, fields, now),
    }
}

impl KvStore {
    /// Whether replies to a batch can be taken in: there is one to each command, and the
    /// keys of a listing have codes.
    pub fn takes(&self, w: &Wait, rs: &Option<Vec<Resp>>) -> (r: bool)
        ensures
            r == replies_fit(self@.layout, w@, opt_replies(*rs)),
    {
        let v: &Vec<Resp> = match rs {
            Some(v) => v,
            None => {
                return true;
            },
        };
        match w {
            Wait::Many { urls, .. } => v.len() == urls.len(),
            Wait::Values { .. } => true,
            Wait::Swept => true,
            Wait::Known { .. } => v.len() == 2,
            Wait::Keys { keys, .. } => {
                if v.len() != 1 {
                    return false;
                }
                let hash: bool = match self.layout() {
                    Layout::Hash => true,
                    Layout::Key => false,
                };
                if hash {
                    return true;
                }
                let (page, _next): (Vec<Vec<u8>>, Option<Vec<u8>>) = kv::scan_step(&v[0]);
                all_listable(keys, &page)
            },
            _ => v.len() == 1,
        }
    }

    /// How a request goes on when the replies are in, or none could be had: what to send
    /// next, or what came of it.
    pub fn step(&mut self, w: Wait, rs: Option<Vec<Resp>>, now: i64) -> (r: Job)
        requires
            old(self).wf(),
            wait_ok(old(self)@.layout, w@),
            replies_fit(old(self)@.layout, w@, opt_replies(rs)),
        ensures
            final(self).wf(),
            advanced(old(self)@, w@, opt_replies(rs), now, final(self)@, r@),
            job_ok(final(self)@.layout, r@),
    {
        match w {
            Wait::Target { code } => {
                let v: Option<Vec<u8>> = first_value(&rs);
                Job::Done(Outcome::Target(self.resolve(code.as_str(), &v, now)))
            },
            Wait::Fresh { code, url, given, ttl_ms } => {
                if self.created(&code, rs) {
                    Job::Done(Outcome::Created(Some(code)))
                } else if given {
                    Job::Done(Outcome::Created(None))
                } else {
                    let fresh: String = self.gen_code();
                    self.create(fresh, url, false, ttl_ms, now)
                }
            },
            Wait::Many { urls, codes, ttl_ms } => self.many_in(urls, codes, ttl_ms, rs, now),
            Wait::Retry { urls, codes, ttl_ms, todo, at, code } => self.one_in(
                urls,
                codes,
                ttl_ms,
                todo,
                at,
                code,
                rs,
                now,
            ),
            Wait::Known { code } => self.both_in(code.as_str(), rs),
            Wait::Old { code, url, ttl_ms, has_ttl } => {
                let v: Option<Vec<u8>> = first_value(&rs);
                match self.update_cmd(code.as_str(), &v, url.as_str(), ttl_ms, has_ttl, now) {
                    Some(c) => Job::Send { cmds: one(c), wait: Wait::Written { code } },
                    None => Job::Done(Outcome::Changed(MutResult::Missing)),
                }
            },
            Wait::Written { code } => match first(rs) {
                Some(x) => Job::Done(Outcome::Changed(self.update(code.as_str(), x))),
                None => Job::Done(Outcome::Changed(MutResult::Missing)),
            },
            Wait::Gone { code } => self.removed(code.as_str(), rs),
            Wait::Cleared => Job::Done(Outcome::Changed(MutResult::Done)),
            Wait::Keys { req, keys } => more_keys(self.layout(), req, keys, rs, now),
            Wait::Values { req, keys } => page_of(req, keys, rs),
            Wait::Fields { req, keys, at, fields } => more_fields(
                req,
                keys,
                at,
                fields,
                rs,
                now,
            ),
            Wait::Hashes { keys } => more_hashes(keys, rs),
            Wait::Stale { keys, at, fields, dels } => more_stale(keys, at, fields, dels, rs, now),
            Wait::Swept => Job::Done(Outcome::Nothing),
        }
    }

    fn many_in(
        &self,
        urls: Vec<String>,
        codes: Vec<String>,
        ttl_ms: i64,
        rs: Option<Vec<Resp>>,
        now: i64,
    ) -> (r: Job)
        requires
            self.wf(),
            codes@.len() == urls@.len(),
            rs matches Some(v) ==> v@.len() == urls@.len(),
        ensures
            match opt_replies(rs) {
                Some(v) => again_job(
                    self@,
                    aof::texts(urls@),
                    aof::texts(codes@),
                    ttl_ms,
                    v,
                    now,
                    r@,
                ),
                None => r@ == JobView::Done(OutcomeView::CreatedMany(aof::texts(codes@))),
            },
            job_ok(self@.layout, r@),
    {
        match rs {
            Some(v) => {
                let ghost all = kv::resp_views(v@);
                let ghost before = v@;
                let todo: Vec<usize> = self.to_retry(v);
                proof {
                    assert forall|i: int|
                        0 <= i < all.len() && !store_kv::was_created(
                            self@.layout,
                            #[trigger] all[i],
                        ) implies todo@.contains(i as usize) by {
                        assert(all[i] == kv::resp_view(before[i]));
                    }
                    assert(not_created(self@.layout, all, todo@));
                }
                let ghost places = todo@;
                let ghost us = aof::texts(urls@);
                let ghost cs = aof::texts(codes@);
                let r: Job = self.retry(urls, codes, ttl_ms, todo, 0, now);
                assert(not_created(self@.layout, all, places));
                assert(again_job(self@, us, cs, ttl_ms, all, now, r@));
                r
            },
            None => Job::Done(Outcome::CreatedMany(codes)),
        }
    }

    fn one_in(
        &self,
        urls: Vec<String>,
        codes: Vec<String>,
        ttl_ms: i64,
        todo: Vec<usize>,
        at: usize,
        code: String,
        rs: Option<Vec<Resp>>,
        now: i64,
    ) -> (r: Job)
        requires
            self.wf(),
            codes@.len() == urls@.len(),
            at < todo@.len(),
            forall|k: int| 0 <= k < todo@.len() ==> #[trigger] todo@[k] < urls@.len(),
            rs matches Some(v) ==> v@.len() == 1,
        ensures
            if rs is Some && store_kv::was_created(self@.layout, opt_replies(rs)->0[0]) {
                retry_job(
                    self@,
                    aof::texts(urls@),
                    aof::texts(codes@).update(todo@[at as int] as int, code@),
                    ttl_ms,
                    todo@,
                    at + 1,
                    now,
                    r@,
                )
            } else {
                retry_job(
                    self@,
                    aof::texts(urls@),
                    aof::texts(codes@),
                    ttl_ms,
                    todo@,
                    at as int,
                    now,
                    r@,
                )
            },
            job_ok(self@.layout, r@),
    {
        assert(at < todo.len());
        if self.created(&code, rs) {
            let mut codes: Vec<String> = codes;
            let i: usize = todo[at];
            let ghost before = aof::texts(codes@);
            let ghost c = code@;
            codes.set(i, code);
            assert(aof::texts(codes@) =~= before.update(i as int, c));
            self.retry(urls, codes, ttl_ms, todo, at + 1, now)
        } else {
            self.retry(urls, codes, ttl_ms, todo, at, now)
        }
    }

    fn both_in(&self, code: &str, rs: Option<Vec<Resp>>) -> (r: Job)
        requires
            self.wf(),
            rs matches Some(v) ==> v@.len() == 2,
        ensures
            r@ == JobView::Done(
                OutcomeView::Found(
                    match opt_replies(rs) {
                        Some(v) => store_kv::stats_of(
                            self@,
                            code@,
                            kv::bulk_of(v[0]),
                            kv::bulk_of(v[1]),
                        ),
                        None => None,
                    },
                ),
            ),
    {
        let mut v: Vec<Resp> = match rs {
            Some(v) => v,
            None => {
                return Job::Done(Outcome::Found(None));
            },
        };
        let ghost all = kv::resp_views(v@);
        assert(all[0] == kv::resp_view(v@[0]) && all[1] == kv::resp_view(v@[1]));
        let hits: Option<Vec<u8>> = match v.pop() {
            Some(x) => kv::get_reply(x),
            None => None,
        };
        let value: Option<Vec<u8>> = match v.pop() {
            Some(x) => kv::get_reply(x),
            None => None,
        };
        Job::Done(Outcome::Found(self.stats(code, &value, &hits)))
    }

    fn removed(&mut self, code: &str, rs: Option<Vec<Resp>>) -> (r: Job)
        requires
            old(self).wf(),
            rs matches Some(v) ==> v@.len() == 1,
        ensures
            final(self).wf(),
            advanced(
                old(self)@,
                (WaitView::Gone { code: code@ }),
                opt_replies(rs),
                0,
                final(self)@,
                r@,
            ),
            final(self)@.layout == old(self)@.layout,
    {
        match first(rs) {
            Some(x) => match self.remove(code, &x) {
                MutResult::Done => Job::Send {
                    cmds: one(self.remove_hits_cmd(code)),
                    wait: Wait::Cleared,
                },
                _ => Job::Done(Outcome::Changed(MutResult::Missing)),
            },
            None => Job::Done(Outcome::Changed(MutResult::Missing)),
        }
    }
}

/// How the hashes are swept of what has expired: what to send first.
pub fn begin_sweep() -> (r: Job)
    ensures
        r@ == (JobView::Send {
            cmds: seq![scan_words(text::lit("0"))],
            wait: WaitView::Hashes { keys: Seq::empty() },
        }),
{
    let keys: Vec<Vec<u8>> = Vec::new();
    assert(aof::bytes_of(keys@) =~= Seq::empty());
    Job::Send {
        cmds: one(kv::scan_cmd("0".as_bytes(), "l:*".as_bytes())),
        wait: Wait::Hashes { keys },
    }
}

fn next_sweep(keys: Vec<Vec<u8>>, at: usize, dels: Vec<Vec<Vec<u8>>>) -> (r: Job)
    ensures
        r@ == sweep_job(aof::bytes_of(keys@), at as int, store_kv::words_of(dels@)),
        job_ok(Layout::Hash, r@),
{
    if at < keys.len() {
        let fields: Vec<(Vec<u8>, Vec<u8>)> = Vec::new();
        assert(kv::field_views(fields@) =~= Seq::empty());
        assert(aof::bytes_of(keys@)[at as int] == keys@[at as int]@);
        let cmds: Vec<Vec<Vec<u8>>> = one(kv::hscan_cmd(keys[at].as_slice(), "0".as_bytes()));
        Job::Send { cmds, wait: Wait::Stale { keys, at, fields, dels } }
    } else if dels.len() > 0 {
        Job::Send { cmds: dels, wait: Wait::Swept }
    } else {
        Job::Done(Outcome::Nothing)
    }
}

fn more_hashes(keys: Vec<Vec<u8>>, rs: Option<Vec<Resp>>) -> (r: Job)
    requires
        rs matches Some(v) ==> v@.len() == 1,
    ensures
        r@ == (match opt_replies(rs) {
            Some(v) => {
                let (page, next) = kv::scan_result(v[0]);
                let all = aof::bytes_of(keys@) + kv::bulks(page);
                match next {
                    Some(c) => JobView::Send {
                        cmds: seq![scan_words(c)],
                        wait: WaitView::Hashes { keys: all },
                    },
                    None => sweep_job(all, 0, Seq::empty()),
                }
            },
            None => JobView::Done(OutcomeView::Nothing),
        }),
        job_ok(Layout::Hash, r@),
{
    match first(rs) {
        Some(x) => {
            let mut keys: Vec<Vec<u8>> = keys;
            let ghost before = aof::bytes_of(keys@);
            let (page, next): (Vec<Vec<u8>>, Option<Vec<u8>>) = kv::scan_step(&x);
            let mut page: Vec<Vec<u8>> = page;
            let ghost got = aof::bytes_of(page@);
            keys.append(&mut page);
            assert(aof::bytes_of(keys@) =~= before + got);
            match next {
                Some(c) => Job::Send {
                    cmds: one(kv::scan_cmd(c.as_slice(), "l:*".as_bytes())),
                    wait: Wait::Hashes { keys },
                },
                None => {
                    let dels: Vec<Vec<Vec<u8>>> = Vec::new();
                    assert(store_kv::words_of(dels@) =~= Seq::empty());
                    next_sweep(keys, 0, dels)
                },
            }
        },
        None => Job::Done(Outcome::Nothing),
    }
}

fn more_stale(
    keys: Vec<Vec<u8>>,
    at: usize,
    fields: Vec<(Vec<u8>, Vec<u8>)>,
    dels: Vec<Vec<Vec<u8>>>,
    rs: Option<Vec<Resp>>,
    now: i64,
) -> (r: Job)
    requires
        at < keys@.len(),
        rs matches Some(v) ==> v@.len() == 1,
    ensures
        r@ == (match opt_replies(rs) {
            Some(v) => {
                let (page, next) = kv::scan_result(v[0]);
                let all = kv::field_views(fields@) + kv::bulk_pairs(page);
                let ks = aof::bytes_of(keys@);
                let ds = store_kv::words_of(dels@);
                match next {
                    Some(c) => JobView::Send {
                        cmds: seq![hscan_words(ks[at as int], c)],
                        wait: WaitView::Stale { keys: ks, at: at as int, fields: all, dels: ds },
                    },
                    None => sweep_job(
                        ks,
                        at + 1,
                        ds + store_kv::sweep_words(ks[at as int], all, now),
                    ),
                }
            },
            None => JobView::Done(OutcomeView::Nothing),
        }),
        job_ok(Layout::Hash, r@),
{
    assert(at < keys.len());
    match first(rs) {
        Some(x) => {
            let mut fields: Vec<(Vec<u8>, Vec<u8>)> = fields;
            let ghost before = kv::field_views(fields@);
            let (page, next): (Vec<(Vec<u8>, Vec<u8>)>, Option<Vec<u8>>) = kv::hscan_step(&x);
            let mut page: Vec<(Vec<u8>, Vec<u8>)> = page;
            let ghost got = kv::field_views(page@);
            fields.append(&mut page);
            assert(kv::field_views(fields@) =~= before + got);
            assert(aof::bytes_of(keys@)[at as int] == keys@[at as int]@);
            match next {
                Some(c) => {
                    let cmds: Vec<Vec<Vec<u8>>> = one(
                        kv::hscan_cmd(keys[at].as_slice(), c.as_slice()),
                    );
                    Job::Send { cmds, wait: Wait::Stale { keys, at, fields, dels } }
                },
                None => {
                    let mut dels: Vec<Vec<Vec<u8>>> = dels;
                    let ghost old_dels = store_kv::words_of(dels@);
                    let mut more: Vec<Vec<Vec<u8>>> = store_kv::sweep_expired(
                        keys[at].as_slice(),
                        &fields,
                        now,
                    );
                    let ghost new_dels = store_kv::words_of(more@);
                    dels.append(&mut more);
                    assert(store_kv::words_of(dels@) =~= old_dels + new_dels);
                    next_sweep(keys, at + 1, dels)
                },
            }
        },
        None => Job::Done(Outcome::Nothing),
    }
}

/// Whether keys can be listed.
fn all_listable(keys: &Vec<Vec<u8>>, page: &Vec<Vec<u8>>) -> (r: bool)
    ensures
        r == listable(aof::bytes_of(keys@) + aof::bytes_of(page@)),
{
    let ghost all = aof::bytes_of(keys@) + aof::bytes_of(page@);
    let half: usize = usize::MAX / 2;
    if keys.len() > half || page.len() > half - keys.len() {
        return false;
    }
    let mut i: usize = 0;
    while i < keys.len()
        invariant
            i <= keys@.len(),
            all == aof::bytes_of(keys@) + aof::bytes_of(page@),
            forall|k: int| 0 <= k < i ==> (#[trigger] all[k]).len() >= 2,
        decreases keys@.len() - i,
    {
        assert(all[i as int] == keys@[i as int]@);
        if keys[i].len() < 2 {
            return false;
        }
        i += 1;
    }
    let n: usize = keys.len();
    let mut j: usize = 0;
    while j < page.len()
        invariant
            j <= page@.len(),
            n == keys@.len(),
            all == aof::bytes_of(keys@) + aof::bytes_of(page@),
            forall|k: int| 0 <= k < n + j ==> (#[trigger] all[k]).len() >= 2,
        decreases page@.len() - j,
    {
        assert(all[n + j] == page@[j as int]@);
        if page[j].len() < 2 {
            return false;
        }
        j += 1;
    }
    true
}

} // verus!
