//! Requests, whatever transport they came by: what they ask of the store, and
//! what they are answered.

use vstd::prelude::*;
use vstd::utf8::*;

use crate::aof;
use crate::listing;
use crate::metrics;
use crate::metrics::{Metrics, MetricsView};
use crate::store;
use crate::store_laws;
use crate::store::{Link, LinkView, Lookup, MutResult, Store, StoreView};
use crate::text;

verus! {

/// The longest body of a request, in bytes.
pub const MAX_BODY: usize = 4096;

/// The longest body of a bulk request, in bytes.
pub const MAX_BULK_BODY: usize = 1048576;

/// The most urls of a bulk request.
pub const MAX_BULK_URLS: usize = 10000;

/// The most links on a page.
pub const MAX_LIST_LIMIT: i64 = 1000;

// ---------- settings ----------

/// The default and longest lifetime of a link in ms, from the setting for it.
pub fn link_ttl_ms(v: Option<&str>) -> (r: i64)
    ensures
        r == store::setting(store::opt_text(v), 86400000),
{
    store::read_setting(v, 86400000)
}

/// The origin that may read replies, from the setting for it.
pub fn cors_origin(v: Option<&str>) -> (r: String)
    ensures
        r@ == store::text_setting(store::opt_text(v), "*"@),
{
    match v {
        Some(s) => s.to_string(),
        None => "*".to_string(),
    }
}

/// What requests are handled by: the longest lifetime of a link in ms, the
/// token that lets links be changed, and the page that is served at the root.
pub struct Config {
    pub link_ttl_ms: i64,
    pub admin: Option<String>,
    pub ui: Option<Vec<u8>>,
}

/// What requests are handled by.
pub ghost struct ConfigView {
    pub link_ttl_ms: i64,
    pub admin: Option<Seq<char>>,
    pub ui: Option<Seq<u8>>,
}

impl View for Config {
    type V = ConfigView;

    open spec fn view(&self) -> ConfigView {
        ConfigView {
            link_ttl_ms: self.link_ttl_ms,
            admin: store::opt_string(self.admin),
            ui: match self.ui {
                Some(b) => Some(b@),
                None => None,
            },
        }
    }
}

/// A token lets links be changed if there is one to match and it is not empty.
pub open spec fn admin_fits(admin: Option<Seq<char>>, token: Seq<char>) -> bool {
    admin matches Some(t) && t.len() > 0 && t == token
}

/// Whether a token lets links be changed.
pub fn admin_ok(cfg: &Config, token: &str) -> (r: bool)
    ensures
        r == admin_fits(cfg@.admin, token@),
{
    match &cfg.admin {
        Some(t) => !text::empty(t.as_str()) && text::same(t.as_str(), token),
        None => false,
    }
}

// ---------- replies ----------

/// A reply, whatever transport it goes by.
pub struct Reply {
    pub status: u16,
    pub location: Option<String>,
    pub body: Vec<u8>,
    pub ctype: Option<&'static str>,
}

/// What a reply says.
pub ghost struct ReplyView {
    pub status: u16,
    pub location: Option<Seq<char>>,
    pub body: Seq<u8>,
    pub ctype: Option<Seq<char>>,
}

impl View for Reply {
    type V = ReplyView;

    open spec fn view(&self) -> ReplyView {
        ReplyView {
            status: self.status,
            location: store::opt_string(self.location),
            body: self.body@,
            ctype: match self.ctype {
                Some(c) => Some(c@),
                None => None,
            },
        }
    }
}

/// A reply that is a status and a body.
pub open spec fn plain_reply(status: u16, body: Seq<u8>) -> ReplyView {
    ReplyView { status, location: None, body, ctype: None }
}

/// The body that names an error.
pub open spec fn error_body(err: Seq<u8>) -> Seq<u8> {
    text::lit("{\"error\":\"") + err + text::lit("\"}")
}

/// A reply that names an error.
pub open spec fn error_reply(status: u16, err: Seq<u8>) -> ReplyView {
    plain_reply(status, error_body(err))
}

/// A request that asks for what is not there, or may not know that it is.
pub open spec fn missing_reply() -> ReplyView {
    error_reply(404, text::lit("not found"))
}

impl Reply {
    /// A status and a body.
    pub fn new(status: u16, body: Vec<u8>) -> (r: Reply)
        ensures
            r@ == plain_reply(status, body@),
    {
        Reply { status, location: None, body, ctype: None }
    }
}

fn text_reply(status: u16, body: &str) -> (r: Reply)
    ensures
        r@ == plain_reply(status, encode_utf8(body@)),
{
    Reply::new(status, text::copy_bytes(body.as_bytes()))
}

fn failure(status: u16, err: &[u8]) -> (r: Reply)
    ensures
        r@ == error_reply(status, err@),
{
    let mut b: Vec<u8> = Vec::new();
    text::put(&mut b, "{\"error\":\"");
    text::put_bytes(&mut b, err);
    text::put(&mut b, "\"}");
    assert(b@ =~= error_body(err@));
    Reply::new(status, b)
}

/// A request that cannot be met as it is.
pub fn bad(err: &str) -> (r: Reply)
    ensures
        r@ == error_reply(400, encode_utf8(err@)),
{
    failure(400, err.as_bytes())
}

/// A request that asks for what is not there, or may not know that it is.
pub fn not_found() -> (r: Reply)
    ensures
        r@ == missing_reply(),
{
    failure(404, "not found".as_bytes())
}

/// A request whose body is longer than allowed.
pub fn too_large() -> (r: Reply)
    ensures
        r@ == error_reply(413, text::lit("body too large")),
{
    failure(413, "body too large".as_bytes())
}

// ---------- what may be stored ----------

/// A letter, a digit, `_` or `-`.
pub open spec fn code_byte(c: u8) -> bool {
    48 <= c <= 57 || 65 <= c <= 90 || 97 <= c <= 122 || c == 95 || c == 45
}

/// A code that may be asked for: up to 64 letters, digits, `_` and `-`.
pub open spec fn is_code(s: Seq<char>) -> bool {
    let b = encode_utf8(s);
    0 < b.len() <= 64 && forall|k: int| 0 <= k < b.len() ==> code_byte(#[trigger] b[k])
}

/// Whether a code may be asked for.
pub fn code_ok(s: &str) -> (r: bool)
    ensures
        r == is_code(s@),
{
    let b: &[u8] = s.as_bytes();
    if b.len() == 0 || b.len() > 64 {
        return false;
    }
    let mut i: usize = 0;
    while i < b.len()
        invariant
            i <= b@.len(),
            b@ == encode_utf8(s@),
            forall|k: int| 0 <= k < i ==> code_byte(#[trigger] b@[k]),
        decreases b@.len() - i,
    {
        let c: u8 = b[i];
        if !((48 <= c && c <= 57) || (65 <= c && c <= 90) || (97 <= c && c <= 122) || c == 95 || c
            == 45) {
            assert(!code_byte(b@[i as int]));
            return false;
        }
        i += 1;
    }
    true
}

/// The scheme and the host of a url, as `url::Url::parse` finds them; nothing
/// if it does not parse.
pub uninterp spec fn url_parts(raw: Seq<char>) -> Option<(Seq<char>, Option<Seq<char>>)>;

/// The scheme and the host of a url.
pub open spec fn parts_view(p: Option<(String, Option<String>)>) -> Option<
    (Seq<char>, Option<Seq<char>>),
> {
    match p {
        Some((scheme, host)) => Some((scheme@, store::opt_string(host))),
        None => None,
    }
}

/// `url::Url::parse`, then `scheme` and `host_str` of the url: both are named.
/// Which texts parse, and into what, is left to the crate.
#[verifier::external_body]
fn parse_url(raw: &str) -> (r: Option<(String, Option<String>)>)
    ensures
        parts_view(r) == url_parts(raw@),
{
    let u = url::Url::parse(raw).ok()?;
    Some((u.scheme().to_string(), u.host_str().map(|h| h.to_string())))
}

/// A url that may be stored: over http or https, to a host.
pub open spec fn fits_web(parts: Option<(Seq<char>, Option<Seq<char>>)>) -> bool {
    match parts {
        Some((scheme, Some(host))) => {
            let s = text::lowered(encode_utf8(scheme));
            (s == text::lowered(text::lit("http")) || s == text::lowered(text::lit("https")))
                && host.len() > 0
        },
        _ => false,
    }
}

/// Whether a url with such a scheme and host may be stored.
pub fn is_web(parts: &Option<(String, Option<String>)>) -> (r: bool)
    ensures
        r == fits_web(parts_view(*parts)),
{
    match parts {
        Some((scheme, Some(host))) => {
            let s: &[u8] = scheme.as_str().as_bytes();
            (text::same_letters(s, "http".as_bytes()) || text::same_letters(s, "https".as_bytes()))
                && !text::empty(host.as_str())
        },
        _ => false,
    }
}

/// A url that may be stored: of up to 2048 bytes, over http or https, to a host.
pub open spec fn is_web_url(raw: Seq<char>) -> bool {
    0 < encode_utf8(raw).len() <= 2048 && fits_web(url_parts(raw))
}

/// Whether a url may be stored.
pub fn is_valid_url(raw: &str) -> (r: bool)
    ensures
        r == is_web_url(raw@),
{
    let n: usize = raw.as_bytes().len();
    if n == 0 || n > 2048 {
        return false;
    }
    is_web(&parse_url(raw))
}

/// A byte that would need an escape.
pub open spec fn breaks_line(c: u8) -> bool {
    c == 34 || c == 92 || c == 10 || c == 13
}

/// A url that a bulk request may hold: looked at from the front only, of up to
/// 2048 bytes, none of which needs an escape.
pub open spec fn is_bulk_url(u: Seq<char>) -> bool {
    let b = encode_utf8(u);
    &&& 7 < b.len() <= 2048
    &&& text::begins(b, text::lit("http://")) || text::begins(b, text::lit("https://"))
    &&& forall|k: int| 0 <= k < b.len() ==> !breaks_line(#[trigger] b[k])
}

/// Whether a bulk request may hold a url.
pub fn ok_bulk_url(u: &str) -> (r: bool)
    ensures
        r == is_bulk_url(u@),
{
    let b: &[u8] = u.as_bytes();
    if b.len() <= 7 || b.len() > 2048 {
        return false;
    }
    if !text::starts_with(b, "http://".as_bytes()) && !text::starts_with(b, "https://".as_bytes()) {
        return false;
    }
    let mut i: usize = 0;
    while i < b.len()
        invariant
            i <= b@.len(),
            b@ == encode_utf8(u@),
            forall|k: int| 0 <= k < i ==> !breaks_line(#[trigger] b@[k]),
        decreases b@.len() - i,
    {
        let c: u8 = b[i];
        if c == 34 || c == 92 || c == 10 || c == 13 {
            assert(breaks_line(b@[i as int]));
            return false;
        }
        i += 1;
    }
    true
}

// ---------- requests ----------

/// A lifetime as a request gives it: whether it is not over 0, and the whole ms.
#[derive(Clone, Copy)]
pub struct Ttl {
    pub low: bool,
    pub ms: i64,
}

/// The body of a request for a link.
pub struct ShortenReq {
    pub url: Option<String>,
    pub alias: Option<String>,
    pub ttl_ms: Option<Ttl>,
}

/// The body of a request for many links.
pub struct BulkReq {
    pub urls: Option<Vec<String>>,
}

/// The body of a request to change a link.
pub struct PatchReq {
    pub url: Option<String>,
    pub ttl_ms: Option<Ttl>,
}

/// The body of a request, as far as it was read.
pub enum Body {
    /// There is none, or it could not be read.
    Unread,
    Shorten(ShortenReq),
    Bulk(BulkReq),
    Patch(PatchReq),
}

/// What a body says.
pub ghost enum BodyView {
    Unread,
    Shorten { url: Option<Seq<char>>, alias: Option<Seq<char>>, ttl_ms: Option<Ttl> },
    Bulk { urls: Option<Seq<Seq<char>>> },
    Patch { url: Option<Seq<char>>, ttl_ms: Option<Ttl> },
}

impl View for Body {
    type V = BodyView;

    open spec fn view(&self) -> BodyView {
        match *self {
            Body::Unread => BodyView::Unread,
            Body::Shorten(b) => BodyView::Shorten {
                url: store::opt_string(b.url),
                alias: store::opt_string(b.alias),
                ttl_ms: b.ttl_ms,
            },
            Body::Bulk(b) => BodyView::Bulk {
                urls: match b.urls {
                    Some(v) => Some(aof::texts(v@)),
                    None => None,
                },
            },
            Body::Patch(b) => BodyView::Patch {
                url: store::opt_string(b.url),
                ttl_ms: b.ttl_ms,
            },
        }
    }
}

/// What a request is for.
#[derive(PartialEq, Eq, Clone, Copy, Structural)]
pub enum Route {
    Preflight,
    Health,
    Report,
    Exposition,
    Page,
    List,
    Stats,
    Redirect,
    Shorten,
    Bulk,
    Update,
    Remove,
    Unknown,
}

/// The path of a request without its query.
pub open spec fn pathname(path: Seq<char>) -> Seq<char> {
    path.take(text::char_index(path, 0, '?'))
}

/// The query of a request.
pub open spec fn query(path: Seq<char>) -> Seq<char> {
    let i = text::char_index(path, 0, '?');
    if i < path.len() {
        path.skip(i + 1)
    } else {
        Seq::empty()
    }
}

/// What a request is for.
pub open spec fn route(method: Seq<char>, p: Seq<char>) -> Route {
    if method == "OPTIONS"@ {
        Route::Preflight
    } else if method == "GET"@ {
        if p == "/api/health"@ {
            Route::Health
        } else if p == "/api/metrics"@ {
            Route::Report
        } else if p == "/metrics"@ {
            Route::Exposition
        } else if p == "/"@ {
            Route::Page
        } else if p == "/api/links"@ {
            Route::List
        } else if text::char_begins(p, "/api/stats/"@) {
            Route::Stats
        } else {
            Route::Redirect
        }
    } else if method == "POST"@ {
        if p == "/api/shorten"@ {
            Route::Shorten
        } else if p == "/api/shorten/bulk"@ {
            Route::Bulk
        } else {
            Route::Unknown
        }
    } else if method == "PATCH"@ {
        if text::char_begins(p, "/api/links/"@) {
            Route::Update
        } else {
            Route::Unknown
        }
    } else if method == "DELETE"@ {
        if text::char_begins(p, "/api/links/"@) {
            Route::Remove
        } else {
            Route::Unknown
        }
    } else {
        Route::Unknown
    }
}

/// What a request is for.
pub fn route_of(method: &str, p: &Vec<char>) -> (r: Route)
    ensures
        r == route(method@, p@),
{
    if text::same(method, "OPTIONS") {
        Route::Preflight
    } else if text::same(method, "GET") {
        if text::is_text(p, "/api/health") {
            Route::Health
        } else if text::is_text(p, "/api/metrics") {
            Route::Report
        } else if text::is_text(p, "/metrics") {
            Route::Exposition
        } else if text::is_text(p, "/") {
            Route::Page
        } else if text::is_text(p, "/api/links") {
            Route::List
        } else if text::strip_prefix(p, "/api/stats/").is_some() {
            Route::Stats
        } else {
            Route::Redirect
        }
    } else if text::same(method, "POST") {
        if text::is_text(p, "/api/shorten") {
            Route::Shorten
        } else if text::is_text(p, "/api/shorten/bulk") {
            Route::Bulk
        } else {
            Route::Unknown
        }
    } else if text::same(method, "PATCH") {
        if text::strip_prefix(p, "/api/links/").is_some() {
            Route::Update
        } else {
            Route::Unknown
        }
    } else if text::same(method, "DELETE") {
        if text::strip_prefix(p, "/api/links/").is_some() {
            Route::Remove
        } else {
            Route::Unknown
        }
    } else {
        Route::Unknown
    }
}

/// The path of a request without its query, and the query.
fn split_path(path: &str) -> (r: (Vec<char>, Vec<char>))
    ensures
        r.0@ == pathname(path@),
        r.1@ == query(path@),
{
    let t: Vec<char> = text::chars_of(path);
    let i: usize = text::find_char(&t, '?');
    let p: Vec<char> = text::sub_chars(&t, 0, i);
    assert(p@ =~= pathname(path@));
    let q: Vec<char> = if i < t.len() {
        text::sub_chars(&t, i + 1, t.len())
    } else {
        Vec::new()
    };
    assert(q@ =~= query(path@));
    (p, q)
}

/// What the body of a request has to be read as.
pub fn body_for(method: &str, path: &str) -> (r: Route)
    ensures
        r == (match route(method@, pathname(path@)) {
            Route::Shorten => Route::Shorten,
            Route::Bulk => Route::Bulk,
            Route::Update => Route::Update,
            _ => Route::Unknown,
        }),
{
    let (p, _q): (Vec<char>, Vec<char>) = split_path(path);
    match route_of(method, &p) {
        Route::Shorten => Route::Shorten,
        Route::Bulk => Route::Bulk,
        Route::Update => Route::Update,
        _ => Route::Unknown,
    }
}

/// How many bytes the body of a request may have.
pub open spec fn limit_of(path: Seq<char>) -> int {
    if pathname(path) == "/api/shorten/bulk"@ {
        MAX_BULK_BODY as int
    } else {
        MAX_BODY as int
    }
}

/// How many bytes the body of a request may have.
pub fn body_limit(path: &str) -> (r: usize)
    ensures
        r == limit_of(path@),
{
    let (p, _q): (Vec<char>, Vec<char>) = split_path(path);
    if text::is_text(&p, "/api/shorten/bulk") {
        MAX_BULK_BODY
    } else {
        MAX_BODY
    }
}

/// Whether a request has a body that is read.
pub open spec fn has_body(method: Seq<char>) -> bool {
    method == "POST"@ || method == "PATCH"@
}

/// Whether a request has a body that is read.
pub fn needs_body(method: &str) -> (r: bool)
    ensures
        r == has_body(method@),
{
    text::same(method, "POST") || text::same(method, "PATCH")
}

/// What a request costs the client who sends it: a new link 1, many links as
/// many as there are urls, anything else nothing.
pub open spec fn cost(method: Seq<char>, path: Seq<char>, body: BodyView) -> int {
    match (route(method, pathname(path)), body) {
        (Route::Shorten, _) => 1,
        (Route::Bulk, BodyView::Bulk { urls: Some(v) }) => v.len() as int,
        _ => 0,
    }
}

/// What a request costs the client who sends it.
pub fn cost_of(method: &str, path: &str, body: &Body) -> (r: usize)
    ensures
        r == cost(method@, path@, body@),
{
    let (p, _q): (Vec<char>, Vec<char>) = split_path(path);
    match route_of(method, &p) {
        Route::Shorten => 1,
        Route::Bulk => match body {
            Body::Bulk(b) => match &b.urls {
                Some(v) => v.len(),
                None => 0,
            },
            _ => 0,
        },
        _ => 0,
    }
}

// ---------- the query of a listing ----------

/// The names and values of a query, as `form_urlencoded::parse` finds them.
pub uninterp spec fn query_pairs(q: Seq<u8>) -> Seq<(Seq<char>, Seq<char>)>;

/// Names and values.
pub open spec fn pair_views(v: Seq<(String, String)>) -> Seq<(Seq<char>, Seq<char>)> {
    Seq::new(v.len(), |i: int| (v[i].0@, v[i].1@))
}

/// `url::form_urlencoded::parse`: the names and values of a query, decoded, in
/// order. How they are decoded is left to the crate.
#[verifier::external_body]
fn parse_query(q: &[u8]) -> (r: Vec<(String, String)>)
    ensures
        pair_views(r@) == query_pairs(q@),
{
    url::form_urlencoded::parse(q).into_owned().collect()
}

/// The value of a name; the last one if there are several.
pub open spec fn value_in(pairs: Seq<(Seq<char>, Seq<char>)>, name: Seq<char>) -> Option<Seq<char>>
    decreases pairs.len(),
{
    if pairs.len() == 0 {
        None
    } else if pairs.last().0 == name {
        Some(pairs.last().1)
    } else {
        value_in(pairs.drop_last(), name)
    }
}

fn find_value<'a>(pairs: &'a Vec<(String, String)>, name: &str) -> (r: Option<&'a String>)
    ensures
        (match r {
            Some(v) => Some(v@),
            None => None,
        }) == value_in(pair_views(pairs@), name@),
{
    let ghost all = pair_views(pairs@);
    let mut i: usize = pairs.len();
    assert(all.take(i as int) =~= all);
    while i > 0
        invariant
            i <= pairs@.len(),
            all == pair_views(pairs@),
            value_in(all.take(i as int), name@) == value_in(all, name@),
        decreases i,
    {
        assert(all.take(i as int).drop_last() =~= all.take(i - 1));
        if text::same(pairs[i - 1].0.as_str(), name) {
            return Some(&pairs[i - 1].1);
        }
        i -= 1;
    }
    None
}

/// What a listing asks for.
pub ghost struct ListView {
    pub limit: usize,
    pub offset: usize,
    pub sort: Seq<char>,
    pub q: Seq<char>,
}

/// The number that a value stands for, if there is a value and it stands for one.
pub open spec fn number_in(v: Option<Seq<char>>) -> Option<int> {
    match v {
        Some(t) => text::int_within(t, i64::MIN as int, i64::MAX as int),
        None => None,
    }
}

/// What the names and values of a query ask for: from 1 to 1000 links, 50 if
/// nothing or 0 is said.
pub open spec fn list_of(pairs: Seq<(Seq<char>, Seq<char>)>) -> ListView {
    let limit = match number_in(value_in(pairs, "limit"@)) {
        Some(n) => if n == 0 {
            50int
        } else if n < 1 {
            1
        } else if n > MAX_LIST_LIMIT {
            MAX_LIST_LIMIT as int
        } else {
            n
        },
        None => 50,
    };
    let offset: i64 = match number_in(value_in(pairs, "offset"@)) {
        Some(n) => if n > 0 {
            n as i64
        } else {
            0
        },
        None => 0,
    };
    ListView {
        limit: limit as usize,
        offset: offset as usize,
        sort: if value_in(pairs, "sort"@) == Some("hits"@) {
            "hits"@
        } else {
            "created"@
        },
        q: match value_in(pairs, "q"@) {
            Some(t) => t,
            None => Seq::empty(),
        },
    }
}

/// A page of links that is asked for.
pub struct ListReq {
    pub limit: usize,
    pub offset: usize,
    pub sort: String,
    pub q: String,
}

impl View for ListReq {
    type V = ListView;

    open spec fn view(&self) -> ListView {
        ListView { limit: self.limit, offset: self.offset, sort: self.sort@, q: self.q@ }
    }
}

fn number_of(v: Option<&String>) -> (r: Option<i64>)
    ensures
        (match r {
            Some(n) => Some(n as int),
            None => None,
        }) == number_in(
            match v {
                Some(t) => Some(t@),
                None => None,
            },
        ),
{
    match v {
        Some(t) => text::parse_i64(&text::chars_of(t.as_str())),
        None => None,
    }
}

/// What the names and values of a query ask for.
pub fn list_from(pairs: &Vec<(String, String)>) -> (r: ListReq)
    ensures
        r@ == list_of(pair_views(pairs@)),
{
    let limit: i64 = match number_of(find_value(pairs, "limit")) {
        Some(n) => if n == 0 {
            50
        } else if n < 1 {
            1
        } else if n > MAX_LIST_LIMIT {
            MAX_LIST_LIMIT
        } else {
            n
        },
        None => 50,
    };
    let offset: i64 = match number_of(find_value(pairs, "offset")) {
        Some(n) => if n > 0 {
            n
        } else {
            0
        },
        None => 0,
    };
    let by_hits: bool = match find_value(pairs, "sort") {
        Some(s) => text::same(s.as_str(), "hits"),
        None => false,
    };
    let q: String = match find_value(pairs, "q") {
        Some(t) => t.clone(),
        None => String::new(),
    };
    let ghost empty = Seq::<char>::empty();
    assert(value_in(pair_views(pairs@), "q"@) is None ==> q@ =~= empty);
    ListReq {
        limit: limit as usize,
        offset: #[verifier::truncate] (offset as usize),
        sort: if by_hits {
            "hits".to_string()
        } else {
            "created".to_string()
        },
        q,
    }
}

// ---------- plans ----------

/// What a request asks of the store, or the reply if it asks nothing.
pub enum Plan {
    Done(Reply),
    Shorten { url: String, alias: Option<String>, ttl_ms: i64 },
    Bulk { urls: Vec<String>, ttl_ms: i64 },
    Resolve { code: String },
    Stats { code: String },
    List(ListReq),
    Update { code: String, url: String, ttl_ms: i64, has_ttl: bool },
    Remove { code: String },
}

/// What a request asks of the store.
pub ghost enum PlanView {
    Done(ReplyView),
    Shorten { url: Seq<char>, alias: Option<Seq<char>>, ttl_ms: i64 },
    Bulk { urls: Seq<Seq<char>>, ttl_ms: i64 },
    Resolve { code: Seq<char> },
    Stats { code: Seq<char> },
    List(ListView),
    Update { code: Seq<char>, url: Seq<char>, ttl_ms: i64, has_ttl: bool },
    Remove { code: Seq<char> },
}

impl View for Plan {
    type V = PlanView;

    open spec fn view(&self) -> PlanView {
        match *self {
            Plan::Done(r) => PlanView::Done(r@),
            Plan::Shorten { url, alias, ttl_ms } => PlanView::Shorten {
                url: url@,
                alias: store::opt_string(alias),
                ttl_ms,
            },
            Plan::Bulk { urls, ttl_ms } => PlanView::Bulk { urls: aof::texts(urls@), ttl_ms },
            Plan::Resolve { code } => PlanView::Resolve { code: code@ },
            Plan::Stats { code } => PlanView::Stats { code: code@ },
            Plan::List(l) => PlanView::List(l@),
            Plan::Update { code, url, ttl_ms, has_ttl } => PlanView::Update {
                code: code@,
                url: url@,
                ttl_ms,
                has_ttl,
            },
            Plan::Remove { code } => PlanView::Remove { code: code@ },
        }
    }
}

/// The lesser of two.
pub open spec fn lesser(a: i64, b: i64) -> i64 {
    if a <= b {
        a
    } else {
        b
    }
}

/// The lifetime that a request gets: a ms at least, as none means for ever, and at most the
/// longest.
pub open spec fn lifetime(ms: i64, max_ttl: i64) -> i64 {
    lesser(
        if ms < 1 {
            1
        } else {
            ms
        },
        max_ttl,
    )
}

/// The lifetime that a request gets.
fn capped(ms: i64, max_ttl: i64) -> (r: i64)
    ensures
        r == lifetime(ms, max_ttl),
{
    let asked: i64 = if ms < 1 {
        1
    } else {
        ms
    };
    if asked <= max_ttl {
        asked
    } else {
        max_ttl
    }
}

/// The lifetime that a request to change a link gives: the longest where it is not over 0,
/// as no link lives longer.
pub open spec fn new_lifetime(t: Ttl, max_ttl: i64) -> i64 {
    if t.low {
        max_ttl
    } else {
        lifetime(t.ms, max_ttl)
    }
}

/// What a request for a link asks: the url must be one that may be stored, the
/// alias a code, the lifetime over 0; it is cut to the longest.
pub open spec fn plan_shorten(
    max_ttl: i64,
    url: Option<Seq<char>>,
    alias: Option<Seq<char>>,
    ttl_ms: Option<Ttl>,
) -> PlanView {
    match url {
        Some(u) => if !is_web_url(u) {
            PlanView::Done(error_reply(400, text::lit("invalid url")))
        } else if alias matches Some(a) && !is_code(a) {
            PlanView::Done(error_reply(400, text::lit("invalid alias")))
        } else {
            match ttl_ms {
                Some(t) => if t.low {
                    PlanView::Done(error_reply(400, text::lit("invalid ttl_ms")))
                } else {
                    PlanView::Shorten { url: u, alias, ttl_ms: lifetime(t.ms, max_ttl) }
                },
                None => PlanView::Shorten { url: u, alias, ttl_ms: max_ttl },
            }
        },
        None => PlanView::Done(error_reply(400, text::lit("invalid url"))),
    }
}

/// The error of a bulk request.
pub open spec fn bulk_error() -> Seq<u8> {
    text::lit("urls must be 1-") + text::decimal(MAX_BULK_URLS as int) + text::lit(
        " valid http(s) urls",
    )
}

/// What a bulk request asks: there must be some urls, but not too many, and each
/// must be one that it may hold.
pub open spec fn plan_bulk(max_ttl: i64, urls: Option<Seq<Seq<char>>>) -> PlanView {
    match urls {
        Some(v) => if 0 < v.len() <= MAX_BULK_URLS && (forall|k: int|
            0 <= k < v.len() ==> is_bulk_url(#[trigger] v[k])) {
            PlanView::Bulk { urls: v, ttl_ms: max_ttl }
        } else {
            PlanView::Done(error_reply(400, bulk_error()))
        },
        None => PlanView::Done(error_reply(400, bulk_error())),
    }
}

/// What a request to change a link asks: it must give a url, one that may be
/// stored; the lifetime is cut to the longest, which is also what one not over 0 gives.
pub open spec fn plan_patch(
    max_ttl: i64,
    code: Seq<char>,
    url: Option<Seq<char>>,
    ttl_ms: Option<Ttl>,
) -> PlanView {
    match url {
        Some(u) => if !is_web_url(u) {
            PlanView::Done(error_reply(400, text::lit("invalid url")))
        } else {
            match ttl_ms {
                Some(t) => PlanView::Update {
                    code,
                    url: u,
                    ttl_ms: new_lifetime(t, max_ttl),
                    has_ttl: true,
                },
                None => PlanView::Update { code, url: u, ttl_ms: 0, has_ttl: false },
            }
        },
        None => PlanView::Done(error_reply(400, text::lit("nothing to update"))),
    }
}

/// What a request asks. `allowed` says whether the client may pay what it costs.
pub open spec fn plan_of(
    cfg: ConfigView,
    m: MetricsView,
    now: i64,
    method: Seq<char>,
    path: Seq<char>,
    body: BodyView,
    token: Seq<char>,
    allowed: bool,
) -> PlanView {
    let p = pathname(path);
    match route(method, p) {
        Route::Preflight => PlanView::Done(plain_reply(204, Seq::empty())),
        Route::Health => PlanView::Done(plain_reply(200, text::lit("{\"ok\":true}"))),
        Route::Report => PlanView::Done(plain_reply(200, metrics::snapshot_bytes(m, now))),
        Route::Exposition => PlanView::Done(
            ReplyView {
                ctype: Some("text/plain; version=0.0.4"@),
                ..plain_reply(200, metrics::prometheus_bytes(m, now))
            },
        ),
        Route::Page => match cfg.ui {
            Some(html) => PlanView::Done(
                ReplyView { ctype: Some("text/html; charset=utf-8"@), ..plain_reply(200, html) },
            ),
            None => PlanView::Done(missing_reply()),
        },
        Route::List => PlanView::List(list_of(query_pairs(encode_utf8(query(path))))),
        Route::Stats => PlanView::Stats { code: p.skip("/api/stats/"@.len() as int) },
        Route::Redirect => if is_code(p.skip(1)) {
            PlanView::Resolve { code: p.skip(1) }
        } else {
            PlanView::Done(missing_reply())
        },
        Route::Shorten => if !allowed {
            PlanView::Done(error_reply(429, text::lit("rate limited")))
        } else {
            match body {
                BodyView::Shorten { url, alias, ttl_ms } => plan_shorten(
                    cfg.link_ttl_ms,
                    url,
                    alias,
                    ttl_ms,
                ),
                _ => PlanView::Done(error_reply(400, text::lit("invalid json"))),
            }
        },
        Route::Bulk => if !allowed {
            PlanView::Done(error_reply(429, text::lit("rate limited")))
        } else {
            match body {
                BodyView::Bulk { urls } => plan_bulk(cfg.link_ttl_ms, urls),
                _ => PlanView::Done(error_reply(400, text::lit("invalid json"))),
            }
        },
        Route::Update => {
            let code = p.skip("/api/links/"@.len() as int);
            if !admin_fits(cfg.admin, token) {
                PlanView::Done(missing_reply())
            } else if !is_code(code) {
                PlanView::Done(error_reply(400, text::lit("invalid code")))
            } else {
                match body {
                    BodyView::Patch { url, ttl_ms } => plan_patch(
                        cfg.link_ttl_ms,
                        code,
                        url,
                        ttl_ms,
                    ),
                    _ => PlanView::Done(error_reply(400, text::lit("invalid json"))),
                }
            }
        },
        Route::Remove => {
            let code = p.skip("/api/links/"@.len() as int);
            if !admin_fits(cfg.admin, token) {
                PlanView::Done(missing_reply())
            } else if !is_code(code) {
                PlanView::Done(error_reply(400, text::lit("invalid code")))
            } else {
                PlanView::Remove { code }
            }
        },
        Route::Unknown => PlanView::Done(missing_reply()),
    }
}

/// A request whose path can be taken apart: a code is what stands behind the
/// first byte, so that byte has to be a character.
pub open spec fn servable(method: Seq<char>, path: Seq<char>) -> bool {
    route(method, pathname(path)) == Route::Redirect ==> pathname(path).len() > 0 && !text::wide(
        pathname(path)[0],
    )
}

/// Whether the path of a request can be taken apart.
pub fn can_serve(method: &str, path: &str) -> (r: bool)
    ensures
        r == servable(method@, path@),
{
    let (p, _q): (Vec<char>, Vec<char>) = split_path(path);
    match route_of(method, &p) {
        Route::Redirect => p.len() > 0 && p[0] as u32 <= 0x7f,
        _ => true,
    }
}

/// What a request for a link asks.
pub fn shorten_one(max_ttl: i64, p: &ShortenReq) -> (r: Plan)
    ensures
        r@ == plan_shorten(
            max_ttl,
            store::opt_string(p.url),
            store::opt_string(p.alias),
            p.ttl_ms,
        ),
{
    let u: &String = match &p.url {
        Some(u) => u,
        None => {
            return Plan::Done(bad("invalid url"));
        },
    };
    if !is_valid_url(u.as_str()) {
        return Plan::Done(bad("invalid url"));
    }
    let alias: Option<String> = match &p.alias {
        Some(a) => {
            if !code_ok(a.as_str()) {
                return Plan::Done(bad("invalid alias"));
            }
            Some(a.clone())
        },
        None => None,
    };
    let mut ttl_ms: i64 = max_ttl;
    if let Some(t) = p.ttl_ms {
        if t.low {
            return Plan::Done(bad("invalid ttl_ms"));
        }
        ttl_ms = capped(t.ms, max_ttl);
    }
    Plan::Shorten { url: u.clone(), alias, ttl_ms }
}

fn copy_all(v: &Vec<String>) -> (r: Vec<String>)
    ensures
        aof::texts(r@) == aof::texts(v@),
{
    let mut r: Vec<String> = Vec::new();
    let mut i: usize = 0;
    while i < v.len()
        invariant
            i <= v@.len(),
            r@.len() == i,
            forall|k: int| 0 <= k < i ==> (#[trigger] r@[k])@ == v@[k]@,
        decreases v@.len() - i,
    {
        r.push(v[i].clone());
        i += 1;
    }
    assert(aof::texts(r@) =~= aof::texts(v@));
    r
}

fn bad_bulk() -> (r: Reply)
    ensures
        r@ == error_reply(400, bulk_error()),
{
    let mut b: Vec<u8> = Vec::new();
    text::put(&mut b, "urls must be 1-");
    text::put_u64(&mut b, MAX_BULK_URLS as u64);
    text::put(&mut b, " valid http(s) urls");
    assert(b@ =~= bulk_error());
    failure(400, b.as_slice())
}

/// What a bulk request asks.
pub fn shorten_bulk(max_ttl: i64, p: &BulkReq) -> (r: Plan)
    ensures
        r@ == plan_bulk(
            max_ttl,
            match p.urls {
                Some(v) => Some(aof::texts(v@)),
                None => None,
            },
        ),
{
    let urls: &Vec<String> = match &p.urls {
        Some(v) => v,
        None => {
            return Plan::Done(bad_bulk());
        },
    };
    let ghost all = aof::texts(urls@);
    if urls.len() == 0 || urls.len() > MAX_BULK_URLS {
        return Plan::Done(bad_bulk());
    }
    let mut i: usize = 0;
    while i < urls.len()
        invariant
            i <= urls@.len(),
            all == aof::texts(urls@),
            forall|k: int| 0 <= k < i ==> is_bulk_url(#[trigger] all[k]),
            p.urls == Some(*urls),
        decreases urls@.len() - i,
    {
        if !ok_bulk_url(urls[i].as_str()) {
            assert(!is_bulk_url(all[i as int]));
            return Plan::Done(bad_bulk());
        }
        assert(is_bulk_url(all[i as int]));
        i += 1;
    }
    Plan::Bulk { urls: copy_all(urls), ttl_ms: max_ttl }
}

/// What a request to change a link asks.
pub fn patch_one(max_ttl: i64, code: String, p: &PatchReq) -> (r: Plan)
    ensures
        r@ == plan_patch(max_ttl, code@, store::opt_string(p.url), p.ttl_ms),
{
    match &p.url {
        Some(u) => {
            if !is_valid_url(u.as_str()) {
                return Plan::Done(bad("invalid url"));
            }
            let (ttl_ms, has_ttl): (i64, bool) = match p.ttl_ms {
                Some(t) => if t.low {
                    (max_ttl, true)
                } else {
                    (capped(t.ms, max_ttl), true)
                },
                None => (0, false),
            };
            Plan::Update { code, url: u.clone(), ttl_ms, has_ttl }
        },
        None => Plan::Done(bad("nothing to update")),
    }
}

fn behind(p: &Vec<char>, prefix: &str) -> (r: String)
    requires
        text::char_begins(p@, prefix@),
    ensures
        r@ == p@.skip(prefix@.len() as int),
{
    match text::strip_prefix(p, prefix) {
        Some(t) => text::string_of(&t),
        None => String::new(),
    }
}

/// What a request asks. `allowed` says whether the client may pay what it costs.
pub fn plan(
    cfg: &Config,
    mx: &Metrics,
    now: i64,
    method: &str,
    path: &str,
    body: &Body,
    token: &str,
    allowed: bool,
) -> (r: Plan)
    requires
        mx.wf(),
        servable(method@, path@),
    ensures
        r@ == plan_of(cfg@, mx@, now, method@, path@, body@, token@, allowed),
{
    let (p, q): (Vec<char>, Vec<char>) = split_path(path);
    match route_of(method, &p) {
        Route::Preflight => {
            let none: Vec<u8> = Vec::new();
            assert(none@ =~= Seq::<u8>::empty());
            Plan::Done(Reply::new(204, none))
        },
        Route::Health => Plan::Done(text_reply(200, "{\"ok\":true}")),
        Route::Report => Plan::Done(Reply::new(200, metrics::snapshot(mx, now))),
        Route::Exposition => Plan::Done(
            Reply {
                status: 200,
                location: None,
                body: metrics::prometheus(mx, now),
                ctype: Some("text/plain; version=0.0.4"),
            },
        ),
        Route::Page => match &cfg.ui {
            Some(html) => Plan::Done(
                Reply {
                    status: 200,
                    location: None,
                    body: text::copy_bytes(html.as_slice()),
                    ctype: Some("text/html; charset=utf-8"),
                },
            ),
            None => Plan::Done(not_found()),
        },
        Route::List => {
            let qs: String = text::string_of(&q);
            let pairs: Vec<(String, String)> = parse_query(qs.as_str().as_bytes());
            Plan::List(list_from(&pairs))
        },
        Route::Stats => Plan::Stats { code: behind(&p, "/api/stats/") },
        Route::Redirect => {
            let t: Vec<char> = text::sub_chars(&p, 1, p.len());
            assert(t@ =~= p@.skip(1));
            let code: String = text::string_of(&t);
            if code_ok(code.as_str()) {
                Plan::Resolve { code }
            } else {
                Plan::Done(not_found())
            }
        },
        Route::Shorten => {
            if !allowed {
                return Plan::Done(failure(429, "rate limited".as_bytes()));
            }
            match body {
                Body::Shorten(b) => shorten_one(cfg.link_ttl_ms, b),
                _ => Plan::Done(bad("invalid json")),
            }
        },
        Route::Bulk => {
            if !allowed {
                return Plan::Done(failure(429, "rate limited".as_bytes()));
            }
            match body {
                Body::Bulk(b) => shorten_bulk(cfg.link_ttl_ms, b),
                _ => Plan::Done(bad("invalid json")),
            }
        },
        Route::Update => {
            if !admin_ok(cfg, token) {
                return Plan::Done(not_found());
            }
            let code: String = behind(&p, "/api/links/");
            if !code_ok(code.as_str()) {
                return Plan::Done(bad("invalid code"));
            }
            match body {
                Body::Patch(b) => patch_one(cfg.link_ttl_ms, code, b),
                _ => Plan::Done(bad("invalid json")),
            }
        },
        Route::Remove => {
            if !admin_ok(cfg, token) {
                return Plan::Done(not_found());
            }
            let code: String = behind(&p, "/api/links/");
            if !code_ok(code.as_str()) {
                return Plan::Done(bad("invalid code"));
            }
            Plan::Remove { code }
        },
        Route::Unknown => Plan::Done(not_found()),
    }
}

// ---------- answers ----------

/// What came of what a request asked of the store.
pub enum Outcome {
    /// Nothing was asked.
    Nothing,
    /// The code of the new link; none if the alias is taken.
    Created(Option<String>),
    /// The codes of the new links.
    CreatedMany(Vec<String>),
    /// The url of a code, if it has one.
    Target(Option<String>),
    /// What is known of a code, if anything is.
    Found(Option<Link>),
    /// A page of links, and how many there are.
    Listed(Vec<Link>, usize),
    /// What became of an update or a removal.
    Changed(MutResult),
}

/// What came of what a request asked of the store.
pub ghost enum OutcomeView {
    Nothing,
    Created(Option<Seq<char>>),
    CreatedMany(Seq<Seq<char>>),
    Target(Option<Seq<char>>),
    Found(Option<LinkView>),
    Listed(Seq<LinkView>, usize),
    Changed(MutResult),
}

impl View for Outcome {
    type V = OutcomeView;

    open spec fn view(&self) -> OutcomeView {
        match *self {
            Outcome::Nothing => OutcomeView::Nothing,
            Outcome::Created(c) => OutcomeView::Created(store::opt_string(c)),
            Outcome::CreatedMany(v) => OutcomeView::CreatedMany(aof::texts(v@)),
            Outcome::Target(u) => OutcomeView::Target(store::opt_string(u)),
            Outcome::Found(l) => OutcomeView::Found(
                match l {
                    Some(l) => Some(l@),
                    None => None,
                },
            ),
            Outcome::Listed(v, n) => OutcomeView::Listed(listing::link_views(v@), n),
            Outcome::Changed(r) => OutcomeView::Changed(r),
        }
    }
}

/// The answer to a request: a reply, or links that have yet to be written down
/// as the body of one.
pub enum Answer {
    Reply(Reply),
    Link(Link),
    Links(Vec<Link>, usize),
}

/// The answer to a request.
pub ghost enum AnswerView {
    Reply(ReplyView),
    Link(LinkView),
    Links(Seq<LinkView>, usize),
}

impl View for Answer {
    type V = AnswerView;

    open spec fn view(&self) -> AnswerView {
        match *self {
            Answer::Reply(r) => AnswerView::Reply(r@),
            Answer::Link(l) => AnswerView::Link(l@),
            Answer::Links(v, n) => AnswerView::Links(listing::link_views(v@), n),
        }
    }
}

/// The status of an answer: links are always found.
pub open spec fn status_of(a: AnswerView) -> u16 {
    match a {
        AnswerView::Reply(r) => r.status,
        _ => 200,
    }
}

/// The body that names a new link.
pub open spec fn created_body(code: Seq<u8>) -> Seq<u8> {
    text::lit("{\"code\":\"") + code + text::lit("\",\"short_url\":\"/") + code + text::lit("\"}")
}

/// Codes in quotes with commas between them.
pub open spec fn quoted_list(codes: Seq<Seq<char>>) -> Seq<u8>
    decreases codes.len(),
{
    if codes.len() == 0 {
        Seq::empty()
    } else {
        quoted_list(codes.drop_last()) + (if codes.len() > 1 {
            seq![44u8]
        } else {
            Seq::empty()
        }) + seq![34u8] + encode_utf8(codes.last()) + seq![34u8]
    }
}

/// The body that names new links.
pub open spec fn bulk_body(codes: Seq<Seq<char>>) -> Seq<u8> {
    text::lit("{\"count\":") + text::decimal(codes.len() as int) + text::lit(",\"codes\":[")
        + quoted_list(codes) + text::lit("]}")
}

/// The reply to an update or a removal.
pub open spec fn changed_reply(r: MutResult, done: ReplyView) -> ReplyView {
    match r {
        MutResult::Done => done,
        MutResult::Missing => missing_reply(),
        MutResult::Remote => error_reply(409, text::lit("owned by another instance")),
    }
}

/// What a request is answered when the store did what it asked.
pub open spec fn answer_of(p: PlanView, o: OutcomeView) -> AnswerView {
    match (p, o) {
        (PlanView::Done(r), _) => AnswerView::Reply(r),
        (PlanView::Shorten { .. }, OutcomeView::Created(Some(c))) => AnswerView::Reply(
            plain_reply(201, created_body(encode_utf8(c))),
        ),
        (PlanView::Shorten { .. }, OutcomeView::Created(None)) => AnswerView::Reply(
            error_reply(409, text::lit("alias taken")),
        ),
        (PlanView::Bulk { .. }, OutcomeView::CreatedMany(codes)) => AnswerView::Reply(
            plain_reply(201, bulk_body(codes)),
        ),
        (PlanView::Resolve { .. }, OutcomeView::Target(Some(u))) => AnswerView::Reply(
            ReplyView { location: Some(u), ..plain_reply(302, Seq::empty()) },
        ),
        (PlanView::Stats { .. }, OutcomeView::Found(Some(l))) => AnswerView::Link(l),
        (PlanView::List(_), OutcomeView::Listed(v, n)) => AnswerView::Links(v, n),
        (PlanView::Update { .. }, OutcomeView::Changed(r)) => AnswerView::Reply(
            changed_reply(r, plain_reply(200, text::lit("{\"ok\":true}"))),
        ),
        (PlanView::Remove { .. }, OutcomeView::Changed(r)) => AnswerView::Reply(
            changed_reply(r, plain_reply(204, Seq::empty())),
        ),
        _ => AnswerView::Reply(missing_reply()),
    }
}

fn created_reply(code: &str) -> (r: Reply)
    ensures
        r@ == plain_reply(201, created_body(encode_utf8(code@))),
{
    let mut b: Vec<u8> = Vec::new();
    text::put(&mut b, "{\"code\":\"");
    assert(b@ =~= text::lit("{\"code\":\""));
    text::put(&mut b, code);
    text::put(&mut b, "\",\"short_url\":\"/");
    text::put(&mut b, code);
    text::put(&mut b, "\"}");
    Reply::new(201, b)
}

fn bulk_reply(codes: &Vec<String>) -> (r: Reply)
    ensures
        r@ == plain_reply(201, bulk_body(aof::texts(codes@))),
{
    let ghost all = aof::texts(codes@);
    let mut list: Vec<u8> = Vec::new();
    let mut i: usize = 0;
    assert(all.take(0) =~= Seq::empty());
    assert(list@ =~= quoted_list(all.take(0)));
    while i < codes.len()
        invariant
            i <= codes@.len(),
            all == aof::texts(codes@),
            list@ == quoted_list(all.take(i as int)),
        decreases codes@.len() - i,
    {
        let ghost was = list@;
        if i > 0 {
            list.push(44);
        }
        list.push(34);
        text::put(&mut list, codes[i].as_str());
        list.push(34);
        i += 1;
        assert(all.take(i as int).drop_last() =~= all.take(i - 1));
        assert(list@ =~= quoted_list(all.take(i as int)));
    }
    assert(all.take(i as int) =~= all);
    let mut b: Vec<u8> = Vec::new();
    text::put(&mut b, "{\"count\":");
    assert(b@ =~= text::lit("{\"count\":"));
    text::put_u64(&mut b, codes.len() as u64);
    text::put(&mut b, ",\"codes\":[");
    text::put_bytes(&mut b, list.as_slice());
    text::put(&mut b, "]}");
    Reply::new(201, b)
}

fn change_reply(r: MutResult, done: Reply) -> (a: Reply)
    ensures
        a@ == changed_reply(r, done@),
{
    match r {
        MutResult::Done => done,
        MutResult::Missing => not_found(),
        MutResult::Remote => failure(409, "owned by another instance".as_bytes()),
    }
}

fn empty_reply(status: u16) -> (r: Reply)
    ensures
        r@ == plain_reply(status, Seq::empty()),
{
    let none: Vec<u8> = Vec::new();
    assert(none@ =~= Seq::<u8>::empty());
    Reply::new(status, none)
}

/// What a request is answered when the store did what it asked.
pub fn render(p: Plan, o: Outcome) -> (r: Answer)
    ensures
        r@ == answer_of(p@, o@),
{
    match (p, o) {
        (Plan::Done(r), _) => Answer::Reply(r),
        (Plan::Shorten { .. }, Outcome::Created(Some(c))) => Answer::Reply(
            created_reply(c.as_str()),
        ),
        (Plan::Shorten { .. }, Outcome::Created(None)) => Answer::Reply(
            failure(409, "alias taken".as_bytes()),
        ),
        (Plan::Bulk { .. }, Outcome::CreatedMany(codes)) => Answer::Reply(bulk_reply(&codes)),
        (Plan::Resolve { .. }, Outcome::Target(Some(u))) => {
            let none: Vec<u8> = Vec::new();
            assert(none@ =~= Seq::<u8>::empty());
            Answer::Reply(Reply { status: 302, location: Some(u), body: none, ctype: None })
        },
        (Plan::Stats { .. }, Outcome::Found(Some(l))) => Answer::Link(l),
        (Plan::List(_), Outcome::Listed(v, n)) => Answer::Links(v, n),
        (Plan::Update { .. }, Outcome::Changed(r)) => Answer::Reply(
            change_reply(r, text_reply(200, "{\"ok\":true}")),
        ),
        (Plan::Remove { .. }, Outcome::Changed(r)) => Answer::Reply(
            change_reply(r, empty_reply(204)),
        ),
        _ => Answer::Reply(not_found()),
    }
}

// ---------- counting ----------

/// What a request is counted as.
pub open spec fn op_index(r: Route) -> int {
    match r {
        Route::Redirect => 0,
        Route::Shorten => 1,
        Route::Bulk => 2,
        Route::Update => 3,
        Route::Remove => 4,
        Route::List => 5,
        Route::Stats => 6,
        Route::Health => 7,
        Route::Report => 8,
        Route::Exposition => 8,
        Route::Page => 9,
        Route::Preflight => 10,
        Route::Unknown => 10,
    }
}

/// The counts when a request has come in; one that has to be paid for and cannot be is
/// limited.
pub open spec fn arrived(
    m: MetricsView,
    now: i64,
    method: Seq<char>,
    path: Seq<char>,
    allowed: bool,
) -> MetricsView {
    let t = metrics::ticked(m, now);
    let r = route(method, pathname(path));
    let c = MetricsView { ops: metrics::bumped(t.ops, op_index(r)), ..t };
    if !allowed && (r == Route::Shorten || r == Route::Bulk) {
        MetricsView { limited: c.limited.wrapping_add(1), ..c }
    } else {
        c
    }
}

/// Counts a request that has come in.
pub fn arrive(mx: &mut Metrics, now: i64, method: &str, path: &str, allowed: bool)
    requires
        old(mx).wf(),
    ensures
        final(mx).wf(),
        final(mx)@ == arrived(old(mx)@, now, method@, path@, allowed),
{
    metrics::tick(mx, now);
    let (p, _q): (Vec<char>, Vec<char>) = split_path(path);
    let mut charged: bool = false;
    let i: usize = match route_of(method, &p) {
        Route::Redirect => 0,
        Route::Shorten => {
            charged = true;
            1
        },
        Route::Bulk => {
            charged = true;
            2
        },
        Route::Update => 3,
        Route::Remove => 4,
        Route::List => 5,
        Route::Stats => 6,
        Route::Health => 7,
        Route::Report => 8,
        Route::Exposition => 8,
        Route::Page => 9,
        Route::Preflight => 10,
        Route::Unknown => 10,
    };
    metrics::op(mx, i);
    if !allowed && charged {
        metrics::limited(mx);
    }
}

/// By how many links there are more.
pub open spec fn links_change(o: OutcomeView, p: PlanView) -> i64 {
    match (p, o) {
        (PlanView::Shorten { .. }, OutcomeView::Created(Some(_))) => 1,
        (PlanView::Bulk { .. }, OutcomeView::CreatedMany(codes)) => codes.len() as i64,
        (PlanView::Remove { .. }, OutcomeView::Changed(MutResult::Done)) => (-1) as i64,
        _ => 0,
    }
}

/// The counts when a request is answered.
pub open spec fn departed(m: MetricsView, p: PlanView, o: OutcomeView) -> MetricsView {
    MetricsView {
        status: metrics::bumped(m.status, metrics::class_of(status_of(answer_of(p, o)))),
        links_total: m.links_total.wrapping_add(links_change(o, p)),
        ..m
    }
}

/// What a request is answered, which is counted.
pub fn depart(mx: &mut Metrics, p: Plan, o: Outcome) -> (r: Answer)
    requires
        old(mx).wf(),
    ensures
        final(mx).wf(),
        r@ == answer_of(p@, o@),
        final(mx)@ == departed(old(mx)@, p@, o@),
{
    let n: i64 = match (&p, &o) {
        (Plan::Shorten { .. }, Outcome::Created(Some(_c))) => 1,
        (Plan::Bulk { .. }, Outcome::CreatedMany(codes)) => #[verifier::truncate] (codes.len() as i64),
        (Plan::Remove { .. }, Outcome::Changed(MutResult::Done)) => -1,
        _ => 0,
    };
    let r: Answer = render(p, o);
    let code: u16 = match &r {
        Answer::Reply(a) => a.status,
        _ => 200,
    };
    metrics::status(mx, code);
    metrics::links_delta(mx, n);
    r
}

// ---------- requests on the store in memory ----------

/// What the store in memory makes of what a request asks at some time.
pub open spec fn performed(
    s: StoreView,
    p: PlanView,
    now: i64,
    o: OutcomeView,
    t: StoreView,
) -> bool {
    match (p, o) {
        (PlanView::Done(_), OutcomeView::Nothing) => t == s,
        (PlanView::Shorten { url, alias, ttl_ms }, OutcomeView::Created(r)) => store::shortened(
            s,
            url,
            alias,
            ttl_ms,
            now,
            r,
            t,
        ),
        (PlanView::Bulk { urls, ttl_ms }, OutcomeView::CreatedMany(codes)) => store::shortened_many(
            s,
            urls,
            ttl_ms,
            now,
            codes,
            t,
        ),
        (PlanView::Resolve { code }, OutcomeView::Target(r)) => store::resolved(s, code, now, r, t),
        (PlanView::Stats { code }, OutcomeView::Found(r)) => t == s && r == (
        if s.rows.contains_key(code) {
            Some(store::link_of(code, s.rows[code]))
        } else {
            None
        }),
        (PlanView::List(l), OutcomeView::Listed(v, n)) => t == s && exists|
            found: Seq<LinkView>,
            all: Seq<LinkView>,
        |
            {
                &&& #[trigger] store::found_in(s.rows, l.q, found)
                &&& #[trigger] listing::arranged(found, listing::order_of(l.sort), all)
                &&& v == listing::page(all, l.limit as int, l.offset as int)
                &&& n == found.len()
            },
        (
            PlanView::Update { code, url, ttl_ms, has_ttl },
            OutcomeView::Changed(r),
        ) => store::updated(s, code, url, ttl_ms, has_ttl, now, r, t),
        (PlanView::Remove { code }, OutcomeView::Changed(r)) => store::removed(s, code, r, t),
        _ => false,
    }
}

/// A bulk request is never longer than allowed.
pub open spec fn fits(p: PlanView) -> bool {
    p matches PlanView::Bulk { urls, .. } ==> urls.len() <= MAX_BULK_URLS
}

fn list_links(st: &Store, l: &ListReq) -> (r: Outcome)
    requires
        st.wf(),
    ensures
        forall|now: i64| performed(st@, PlanView::List(l@), now, r@, st@),
{
    let (v, n): (Vec<Link>, usize) = st.list(l.limit, l.offset, l.sort.as_str(), l.q.as_str());
    let r: Outcome = Outcome::Listed(v, n);
    proof {
        let (found, all) = choose|found: Seq<LinkView>, all: Seq<LinkView>|
            {
                &&& #[trigger] store::found_in(st@.rows, l.q@, found)
                &&& #[trigger] listing::arranged(found, listing::order_of(l.sort@), all)
                &&& listing::link_views(v@) == listing::page(all, l.limit as int, l.offset as int)
                &&& n == found.len()
            };
        assert(store::found_in(st@.rows, l@.q, found));
        assert(listing::arranged(found, listing::order_of(l@.sort), all));
    }
    r
}

/// Has the store in memory do what a request asks at some time. A code that is
/// missing is looked up here only.
#[verifier::rlimit(40)]
pub fn perform(st: &mut Store, p: &Plan, now: i64) -> (r: Outcome)
    requires
        old(st).wf(),
        fits(p@),
    ensures
        final(st).wf(),
        performed(old(st)@, p@, now, r@, final(st)@),
{
    match p {
        Plan::Done(_) => Outcome::Nothing,
        Plan::Shorten { url, alias, ttl_ms } => {
            let a: Option<&str> = match alias {
                Some(a) => Some(a.as_str()),
                None => None,
            };
            Outcome::Created(st.shorten_at(url.as_str(), a, *ttl_ms, now))
        },
        Plan::Bulk { urls, ttl_ms } => Outcome::CreatedMany(st.shorten_many_at(urls, *ttl_ms, now)),
        Plan::Resolve { code } => match st.resolve_at(code.as_str(), now) {
            Lookup::Hit(u) => Outcome::Target(Some(u)),
            _ => Outcome::Target(None),
        },
        Plan::Stats { code } => Outcome::Found(st.stats(code.as_str())),
        Plan::List(l) => list_links(st, l),
        Plan::Update { code, url, ttl_ms, has_ttl } => Outcome::Changed(
            st.update_at(code.as_str(), url.as_str(), *ttl_ms, *has_ttl, now),
        ),
        Plan::Remove { code } => Outcome::Changed(st.remove(code.as_str())),
    }
}

/// Whether a request asks for a code that the store in memory lacks, and that a
/// sibling may have written.
pub open spec fn misses(s: StoreView, p: PlanView) -> bool {
    s.log is Some && (p matches PlanView::Resolve { code } && !s.rows.contains_key(code))
}

/// The code that a request asks for and that a sibling may have written, if the
/// store in memory lacks it.
pub fn missed(st: &Store, p: &Plan) -> (r: Option<String>)
    requires
        st.wf(),
    ensures
        r is Some <==> misses(st@, p@),
        r matches Some(c) ==> p@ == (PlanView::Resolve { code: c@ }),
{
    match p {
        Plan::Resolve { code } => {
            if st.persistent() && st.stats(code.as_str()).is_none() {
                Some(code.clone())
            } else {
                None
            }
        },
        _ => None,
    }
}

/// What handling a request at some time comes to: it is counted, the store does
/// what it asks, and the answer, which is counted too, says what came of it.
pub open spec fn handled(
    s: StoreView,
    m0: MetricsView,
    cfg: ConfigView,
    now: i64,
    method: Seq<char>,
    path: Seq<char>,
    body: BodyView,
    token: Seq<char>,
    allowed: bool,
    o: OutcomeView,
    a: AnswerView,
    t: StoreView,
    m1: MetricsView,
) -> bool {
    let m = arrived(m0, now, method, path, allowed);
    let p = plan_of(cfg, m, now, method, path, body, token, allowed);
    &&& performed(s, p, now, o, t)
    &&& a == answer_of(p, o)
    &&& m1 == departed(m, p, o)
}

/// Handles a request on the store in memory at some time.
pub fn handle_at(
    st: &mut Store,
    mx: &mut Metrics,
    cfg: &Config,
    now: i64,
    method: &str,
    path: &str,
    body: &Body,
    token: &str,
    allowed: bool,
) -> (r: Answer)
    requires
        old(st).wf(),
        old(mx).wf(),
        servable(method@, path@),
    ensures
        final(st).wf(),
        final(mx).wf(),
        exists|o: OutcomeView| #[trigger]
            handled(
                old(st)@,
                old(mx)@,
                cfg@,
                now,
                method@,
                path@,
                body@,
                token@,
                allowed,
                o,
                r@,
                final(st)@,
                final(mx)@,
            ),
{
    arrive(mx, now, method, path, allowed);
    let p: Plan = plan(cfg, mx, now, method, path, body, token, allowed);
    let o: Outcome = perform(st, &p, now);
    let ghost ov = o@;
    let r: Answer = depart(mx, p, o);
    assert(handled(
        old(st)@,
        old(mx)@,
        cfg@,
        now,
        method@,
        path@,
        body@,
        token@,
        allowed,
        ov,
        r@,
        st@,
        mx@,
    ));
    r
}

/// Handles a request on the store in memory.
pub fn handle(
    st: &mut Store,
    mx: &mut Metrics,
    cfg: &Config,
    method: &str,
    path: &str,
    body: &Body,
    token: &str,
    allowed: bool,
) -> (r: Answer)
    requires
        old(st).wf(),
        old(mx).wf(),
        servable(method@, path@),
    ensures
        final(st).wf(),
        final(mx).wf(),
        exists|now: i64, o: OutcomeView| #[trigger]
            handled(
                old(st)@,
                old(mx)@,
                cfg@,
                now,
                method@,
                path@,
                body@,
                token@,
                allowed,
                o,
                r@,
                final(st)@,
                final(mx)@,
            ),
{
    let now: i64 = store::now_ms();
    handle_at(st, mx, cfg, now, method, path, body, token, allowed)
}

// ---------- laws ----------

/// No two methods that a request is told by have the same name.
pub proof fn lemma_methods()
    ensures
        "OPTIONS"@ != "GET"@,
        "OPTIONS"@ != "POST"@,
        "OPTIONS"@ != "PATCH"@,
        "OPTIONS"@ != "DELETE"@,
        "GET"@ != "POST"@,
        "GET"@ != "PATCH"@,
        "GET"@ != "DELETE"@,
        "POST"@ != "PATCH"@,
        "POST"@ != "DELETE"@,
        "PATCH"@ != "DELETE"@,
{
    reveal_strlit("OPTIONS");
    reveal_strlit("GET");
    reveal_strlit("POST");
    reveal_strlit("PATCH");
    reveal_strlit("DELETE");
    assert("PATCH"@.len() == 5 && "DELETE"@.len() == 6 && "OPTIONS"@.len() == 7 && "GET"@.len() == 3
        && "POST"@.len() == 4);
}

/// Without the token nothing can be changed, and the reply does not tell a link
/// that is there from one that is not.
pub proof fn law_changes_need_the_token(
    cfg: ConfigView,
    m: MetricsView,
    now: i64,
    method: Seq<char>,
    path: Seq<char>,
    body: BodyView,
    token: Seq<char>,
    allowed: bool,
)
    requires
        method == "PATCH"@ || method == "DELETE"@,
        !admin_fits(cfg.admin, token),
    ensures
        plan_of(cfg, m, now, method, path, body, token, allowed) == PlanView::Done(missing_reply()),
{
    lemma_methods();
}

/// An empty token never fits, whatever is asked for.
pub proof fn law_empty_token_never_fits(admin: Option<Seq<char>>)
    ensures
        !admin_fits(admin, Seq::empty()),
        !admin_fits(Some(Seq::empty()), Seq::empty()),
        !admin_fits(None, Seq::empty()),
{
}

/// A client who may not pay gets no link, and the store stays as it is.
pub proof fn law_limited_requests_create_nothing(
    cfg: ConfigView,
    m: MetricsView,
    now: i64,
    method: Seq<char>,
    path: Seq<char>,
    body: BodyView,
    token: Seq<char>,
    s: StoreView,
    o: OutcomeView,
    t: StoreView,
)
    requires
        route(method, pathname(path)) == Route::Shorten || route(method, pathname(path))
            == Route::Bulk,
        performed(s, plan_of(cfg, m, now, method, path, body, token, false), now, o, t),
    ensures
        t == s,
        answer_of(plan_of(cfg, m, now, method, path, body, token, false), o) == AnswerView::Reply(
            error_reply(429, text::lit("rate limited")),
        ),
{
}

/// When a link expires that gets some lifetime now: at some time, and not later than one
/// that gets the longest. Only before the epoch can the time be 0, which stands for never.
pub open spec fn ends_in_time(now: i64, ttl_ms: i64, max_ttl: i64) -> bool {
    let exp = store::expiry(now, ttl_ms);
    exp <= now + max_ttl && (exp == 0 ==> now + ttl_ms == 0)
}

/// No link that a request creates or gives a lifetime lives longer than the longest
/// lifetime, and none lives for ever; a request that says nothing gets the longest.
pub proof fn law_lifetime_is_capped(
    cfg: ConfigView,
    m: MetricsView,
    now: i64,
    method: Seq<char>,
    path: Seq<char>,
    body: BodyView,
    token: Seq<char>,
    allowed: bool,
)
    requires
        cfg.link_ttl_ms > 0,
    ensures
        match plan_of(cfg, m, now, method, path, body, token, allowed) {
            PlanView::Shorten { ttl_ms, .. } => ends_in_time(now, ttl_ms, cfg.link_ttl_ms) && (
            body matches BodyView::Shorten { ttl_ms: None, .. } ==> ttl_ms == cfg.link_ttl_ms),
            PlanView::Bulk { ttl_ms, .. } => ends_in_time(now, ttl_ms, cfg.link_ttl_ms),
            PlanView::Update { ttl_ms, has_ttl, .. } => has_ttl ==> ends_in_time(
                now,
                ttl_ms,
                cfg.link_ttl_ms,
            ),
            _ => true,
        },
{
}

/// A link that a request stores expires, and not later than the longest lifetime says: it
/// lives for ever only if that time is the epoch itself, on a clock before it.
pub proof fn law_stored_links_expire(
    cfg: ConfigView,
    m: MetricsView,
    now: i64,
    method: Seq<char>,
    path: Seq<char>,
    body: BodyView,
    token: Seq<char>,
    allowed: bool,
    s: StoreView,
    t: StoreView,
    c: Seq<char>,
)
    requires
        cfg.link_ttl_ms > 0,
        route(method, pathname(path)) == Route::Shorten,
        performed(
            s,
            plan_of(cfg, m, now, method, path, body, token, allowed),
            now,
            OutcomeView::Created(Some(c)),
            t,
        ),
    ensures
        t.rows.contains_key(c),
        store::link_of(c, t.rows[c]).created_at == now,
        match store::link_of(c, t.rows[c]).expires_at {
            Some(x) => x <= now + cfg.link_ttl_ms,
            None => now < 0,
        },
{
    law_lifetime_is_capped(cfg, m, now, method, path, body, token, allowed);
}

/// A request for a link with a lifetime that is not over 0 is refused, and stores nothing.
pub proof fn law_low_lifetime_is_refused(
    cfg: ConfigView,
    m: MetricsView,
    now: i64,
    method: Seq<char>,
    path: Seq<char>,
    url: Seq<char>,
    alias: Option<Seq<char>>,
    ttl: Ttl,
    token: Seq<char>,
    s: StoreView,
    o: OutcomeView,
    t: StoreView,
)
    requires
        ttl.low,
        is_web_url(url),
        alias matches Some(a) ==> is_code(a),
        route(method, pathname(path)) == Route::Shorten,
        performed(
            s,
            plan_of(
                cfg,
                m,
                now,
                method,
                path,
                BodyView::Shorten { url: Some(url), alias, ttl_ms: Some(ttl) },
                token,
                true,
            ),
            now,
            o,
            t,
        ),
    ensures
        t == s,
        answer_of(
            plan_of(
                cfg,
                m,
                now,
                method,
                path,
                BodyView::Shorten { url: Some(url), alias, ttl_ms: Some(ttl) },
                token,
                true,
            ),
            o,
        ) == AnswerView::Reply(error_reply(400, text::lit("invalid ttl_ms"))),
{
}

/// A code that may be asked for can be logged.
pub proof fn law_codes_can_be_logged(c: Seq<char>)
    requires
        is_code(c),
    ensures
        store_laws::loggable(c),
{
    text::lemma_bytes_empty(c);
    let b = encode_utf8(c);
    assert forall|k: int| 0 <= k < b.len() implies (#[trigger] b[k]) != 34 && b[k] != 92 && b[k]
        != 10 by {
        assert(code_byte(b[k]));
    }
}

/// What a request stores is what may be stored: a url over http or https, under
/// an alias that is a code.
pub proof fn law_only_valid_links_are_stored(
    cfg: ConfigView,
    m: MetricsView,
    now: i64,
    method: Seq<char>,
    path: Seq<char>,
    body: BodyView,
    token: Seq<char>,
    allowed: bool,
)
    ensures
        match plan_of(cfg, m, now, method, path, body, token, allowed) {
            PlanView::Shorten { url, alias, .. } => is_web_url(url) && (alias matches Some(a)
                ==> is_code(a)),
            PlanView::Bulk { urls, .. } => 0 < urls.len() <= MAX_BULK_URLS && forall|k: int|
                0 <= k < urls.len() ==> is_bulk_url(#[trigger] urls[k]),
            PlanView::Update { code, url, .. } => is_code(code) && is_web_url(url),
            PlanView::Remove { code } => is_code(code),
            PlanView::Resolve { code } => is_code(code),
            _ => true,
        },
{
}

} // verus!
