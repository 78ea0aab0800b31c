//! What requests one after the other are answered.

use vstd::prelude::*;
use vstd::utf8::*;

use crate::app;
use crate::app::{
    AnswerView, BodyView, ConfigView, ListView, OutcomeView, PlanView, ReplyView, Route, Ttl,
};
use crate::listing;
use crate::listing::Order;
use crate::metrics;
use crate::metrics::MetricsView;
use crate::store;
use crate::store::{LinkView, MutResult, Row, StoreView};
use crate::store_laws;
use crate::text;

verus! {

/// The path that a code is asked for under.
pub open spec fn short_path(code: Seq<char>) -> Seq<char> {
    seq!['/'] + code
}

/// The path that a code is administered under.
pub open spec fn admin_path(code: Seq<char>) -> Seq<char> {
    "/api/links/"@ + code
}

/// The path that a code is looked into under.
pub open spec fn stats_path(code: Seq<char>) -> Seq<char> {
    "/api/stats/"@ + code
}

/// A redirect to a url.
pub open spec fn redirect(url: Seq<char>) -> AnswerView {
    AnswerView::Reply(
        ReplyView { location: Some(url), ..app::plain_reply(302, Seq::empty()) },
    )
}

/// Nothing was found.
pub open spec fn missing() -> AnswerView {
    AnswerView::Reply(app::missing_reply())
}

/// How long a link lives that a request gives a lifetime or none.
pub open spec fn lifetime(max_ttl: i64, ttl_ms: Option<Ttl>) -> i64 {
    match ttl_ms {
        Some(t) => app::lifetime(t.ms, max_ttl),
        None => max_ttl,
    }
}

/// A link that expires then, or never, is there.
pub open spec fn lasts(exp: i64, now: i64) -> bool {
    exp == 0 || exp > now
}

/// A code is made of single-byte characters, none of which takes a path apart.
proof fn lemma_code_chars(c: Seq<char>)
    requires
        app::is_code(c),
    ensures
        c.len() > 0,
        forall|k: int| 0 <= k < c.len() ==> #[trigger] c[k] != '/' && c[k] != '?',
{
    let b = encode_utf8(c);
    assert forall|k: int| 0 <= k < b.len() implies #[trigger] b[k] < 128 by {
        assert(app::code_byte(b[k]));
    }
    text::lemma_ascii_text(b);
    encode_utf8_decode_utf8(c);
    assert(c == text::ascii_text(b));
    assert forall|k: int| 0 <= k < c.len() implies #[trigger] c[k] != '/' && c[k] != '?' by {
        assert(app::code_byte(b[k]));
        assert(c[k] == b[k] as char);
    }
}

/// The codes that an instance makes are codes that may be asked for.
pub proof fn lemma_generated_code(instance: int, c: Seq<char>)
    requires
        0 <= instance < store::MAX_INSTANCES,
        store::generated(instance, c),
    ensures
        app::is_code(c),
        c.len() == 8,
{
    store::law_generated_shape(instance, c);
    let draw = choose|draw: Seq<u8>|
        draw.len() == store::SUFFIX_LEN && c == #[trigger] store::code_of(instance, draw);
    let b = store::code_bytes(instance, draw);
    assert(b.len() == 8);
    crate::base62::law_letter_reads_back(instance);
    assert forall|k: int| 0 <= k < b.len() implies app::code_byte(#[trigger] b[k]) && b[k] < 128 by {
        if k > 0 {
            crate::base62::law_letter_reads_back(draw[k - 1] as int % 62);
        }
    }
    text::lemma_ascii_text(b);
    assert(encode_utf8(c) == b);
}

proof fn lemma_no_query(p: Seq<char>, from: int)
    requires
        0 <= from <= p.len(),
        forall|k: int| 0 <= k < p.len() ==> #[trigger] p[k] != '?',
    ensures
        text::char_index(p, from, '?') == p.len(),
    decreases p.len() - from,
{
    if from < p.len() {
        lemma_no_query(p, from + 1);
    }
}

/// What a path without a query is the path of.
proof fn lemma_pathname(p: Seq<char>)
    requires
        forall|k: int| 0 <= k < p.len() ==> #[trigger] p[k] != '?',
    ensures
        app::pathname(p) == p,
{
    lemma_no_query(p, 0);
    assert(p.take(p.len() as int) =~= p);
}

/// A GET of a code asks for the link, unless another page stands there.
proof fn lemma_short_path(c: Seq<char>)
    requires
        app::is_code(c),
        c != "metrics"@,
    ensures
        app::route("GET"@, app::pathname(short_path(c))) == Route::Redirect,
        app::pathname(short_path(c)).skip(1) == c,
{
    let p = short_path(c);
    app::lemma_methods();
    lemma_code_chars(c);
    lemma_pathname(p);
    assert(p.skip(1) =~= c);
    reveal_strlit("/api/health");
    reveal_strlit("/api/metrics");
    reveal_strlit("/metrics");
    reveal_strlit("metrics");
    reveal_strlit("/");
    reveal_strlit("/api/links");
    reveal_strlit("/api/stats/");
    assert("/api/health"@[4] == '/' && "/api/metrics"@[4] == '/' && "/api/links"@[4] == '/');
    if p.len() > 4 {
        assert(p[4] == c[3]);
    }
    if p == "/metrics"@ {
        assert(c =~= "metrics"@);
    }
    if text::char_begins(p, "/api/stats/"@) {
        assert(p.take(11)[4] == p[4]);
    }
    assert(p.len() > 1);
}

/// A request to change a code under its path.
proof fn lemma_admin_path(c: Seq<char>)
    requires
        app::is_code(c),
    ensures
        app::route("PATCH"@, app::pathname(admin_path(c))) == Route::Update,
        app::route("DELETE"@, app::pathname(admin_path(c))) == Route::Remove,
        app::pathname(admin_path(c)).skip("/api/links/"@.len() as int) == c,
{
    let p = admin_path(c);
    let front = "/api/links/"@;
    app::lemma_methods();
    lemma_code_chars(c);
    reveal_strlit("/api/links/");
    assert forall|k: int| 0 <= k < p.len() implies #[trigger] p[k] != '?' by {
        if k >= front.len() {
            assert(p[k] == c[k - front.len()]);
        } else {
            assert(p[k] == front[k]);
        }
    }
    lemma_pathname(p);
    assert(p.take(front.len() as int) =~= front);
    assert(p.skip(front.len() as int) =~= c);
}

/// A request to look into a code under its path.
proof fn lemma_stats_path(c: Seq<char>)
    requires
        app::is_code(c),
    ensures
        app::route("GET"@, app::pathname(stats_path(c))) == Route::Stats,
        app::pathname(stats_path(c)).skip("/api/stats/"@.len() as int) == c,
{
    let p = stats_path(c);
    let front = "/api/stats/"@;
    app::lemma_methods();
    lemma_code_chars(c);
    reveal_strlit("/api/health");
    reveal_strlit("/api/metrics");
    reveal_strlit("/metrics");
    reveal_strlit("/");
    reveal_strlit("/api/links");
    reveal_strlit("/api/stats/");
    assert forall|k: int| 0 <= k < p.len() implies #[trigger] p[k] != '?' by {
        if k >= front.len() {
            assert(p[k] == c[k - front.len()]);
        } else {
            assert(p[k] == front[k]);
        }
    }
    lemma_pathname(p);
    assert(p[5] == front[5]);
    assert(p.len() > 11);
    assert("/api/metrics"@.len() == 12 && "/api/metrics"@[5] == 'm');
    assert(p.take(front.len() as int) =~= front);
    assert(p.skip(front.len() as int) =~= c);
}

proof fn lemma_shorten_path()
    ensures
        app::route("POST"@, app::pathname("/api/shorten"@)) == Route::Shorten,
        app::route("POST"@, app::pathname("/api/shorten/bulk"@)) == Route::Bulk,
{
    app::lemma_methods();
    reveal_strlit("/api/shorten");
    reveal_strlit("/api/shorten/bulk");
    lemma_pathname("/api/shorten"@);
    lemma_pathname("/api/shorten/bulk"@);
    assert("/api/shorten"@.len() != "/api/shorten/bulk"@.len());
}

/// A link that a request creates is what a request for its code is redirected to,
/// until the link expires; from then on nothing is found. The one code that no link
/// can be reached under is that of the page of counters.
pub proof fn law_shortened_link_redirects(
    s: StoreView,
    m0: MetricsView,
    cfg: ConfigView,
    now: i64,
    url: Seq<char>,
    alias: Option<Seq<char>>,
    ttl_ms: Option<Ttl>,
    token: Seq<char>,
    code: Seq<char>,
    a: AnswerView,
    t: StoreView,
    m1: MetricsView,
    n0: MetricsView,
    cfg2: ConfigView,
    later: i64,
    body: BodyView,
    token2: Seq<char>,
    allowed: bool,
    o: OutcomeView,
    b: AnswerView,
    u: StoreView,
    n1: MetricsView,
)
    requires
        0 <= s.instance < store::MAX_INSTANCES,
        app::handled(
            s,
            m0,
            cfg,
            now,
            "POST"@,
            "/api/shorten"@,
            BodyView::Shorten { url: Some(url), alias, ttl_ms },
            token,
            true,
            OutcomeView::Created(Some(code)),
            a,
            t,
            m1,
        ),
        app::handled(
            t,
            n0,
            cfg2,
            later,
            "GET"@,
            short_path(code),
            body,
            token2,
            allowed,
            o,
            b,
            u,
            n1,
        ),
        code != "metrics"@,
    ensures
        a == AnswerView::Reply(app::plain_reply(201, app::created_body(encode_utf8(code)))),
        b == (if lasts(store::expiry(now, lifetime(cfg.link_ttl_ms, ttl_ms)), later) {
            redirect(url)
        } else {
            missing()
        }),
{
    lemma_shorten_path();
    match alias {
        Some(x) => {
            assert(code == x);
        },
        None => {
            lemma_generated_code(s.instance as int, code);
        },
    }
    lemma_short_path(code);
}

/// A request for a link under an alias gets that alias if it is free, and is refused
/// if it is taken; nothing changes.
pub proof fn law_alias_is_given_once(
    s: StoreView,
    m0: MetricsView,
    cfg: ConfigView,
    now: i64,
    url: Seq<char>,
    alias: Seq<char>,
    ttl_ms: Option<Ttl>,
    token: Seq<char>,
    o: OutcomeView,
    a: AnswerView,
    t: StoreView,
    m1: MetricsView,
)
    requires
        app::is_web_url(url),
        app::is_code(alias),
        ttl_ms matches Some(l) ==> !l.low,
        app::handled(
            s,
            m0,
            cfg,
            now,
            "POST"@,
            "/api/shorten"@,
            BodyView::Shorten { url: Some(url), alias: Some(alias), ttl_ms },
            token,
            true,
            o,
            a,
            t,
            m1,
        ),
    ensures
        s.rows.contains_key(alias) ==> t == s && a == AnswerView::Reply(
            app::error_reply(409, text::lit("alias taken")),
        ),
        !s.rows.contains_key(alias) ==> t.rows.contains_key(alias) && a == AnswerView::Reply(
            app::plain_reply(201, app::created_body(encode_utf8(alias))),
        ),
{
    lemma_shorten_path();
}

/// A bulk request is granted for all of its urls or for none: one that holds none, too
/// many, or one that may not be stored is refused and stores nothing; any other is answered
/// with a code for each url, in a store that has room for as many.
pub proof fn law_bulk_is_all_or_none(
    s: StoreView,
    m0: MetricsView,
    cfg: ConfigView,
    now: i64,
    urls: Option<Seq<Seq<char>>>,
    token: Seq<char>,
    o: OutcomeView,
    a: AnswerView,
    t: StoreView,
    m1: MetricsView,
)
    requires
        s.rows.dom().finite(),
        s.rows.dom().len() + app::MAX_BULK_URLS <= store::CODES,
        app::handled(
            s,
            m0,
            cfg,
            now,
            "POST"@,
            "/api/shorten/bulk"@,
            BodyView::Bulk { urls },
            token,
            true,
            o,
            a,
            t,
            m1,
        ),
    ensures
        if urls is Some && 0 < urls->0.len() <= app::MAX_BULK_URLS && (forall|k: int|
            0 <= k < urls->0.len() ==> app::is_bulk_url(#[trigger] urls->0[k])) {
            &&& o matches OutcomeView::CreatedMany(codes)
            &&& codes.len() == urls->0.len()
            &&& a == AnswerView::Reply(app::plain_reply(201, app::bulk_body(codes)))
        } else {
            &&& a == AnswerView::Reply(app::error_reply(400, app::bulk_error()))
            &&& t == s
        },
{
    lemma_shorten_path();
    if let OutcomeView::CreatedMany(codes) = o {
        if urls is Some && store::shortened_many(s, urls->0, cfg.link_ttl_ms, now, codes, t) {
            if urls->0.len() <= app::MAX_BULK_URLS {
                store_laws::law_bulk_links_get_codes(
                    s,
                    urls->0,
                    cfg.link_ttl_ms,
                    now,
                    codes,
                    t,
                );
            }
        }
    }
}

/// Every url of a bulk request is what a request for the code at its place is
/// redirected to, until the link expires.
pub proof fn law_bulk_links_redirect(
    s: StoreView,
    m0: MetricsView,
    cfg: ConfigView,
    now: i64,
    urls: Seq<Seq<char>>,
    token: Seq<char>,
    codes: Seq<Seq<char>>,
    a: AnswerView,
    t: StoreView,
    m1: MetricsView,
    k: int,
    n0: MetricsView,
    cfg2: ConfigView,
    later: i64,
    body: BodyView,
    token2: Seq<char>,
    allowed: bool,
    o: OutcomeView,
    b: AnswerView,
    u: StoreView,
    n1: MetricsView,
)
    requires
        0 <= s.instance < store::MAX_INSTANCES,
        0 <= k < codes.len(),
        app::handled(
            s,
            m0,
            cfg,
            now,
            "POST"@,
            "/api/shorten/bulk"@,
            BodyView::Bulk { urls: Some(urls) },
            token,
            true,
            OutcomeView::CreatedMany(codes),
            a,
            t,
            m1,
        ),
        app::handled(
            t,
            n0,
            cfg2,
            later,
            "GET"@,
            short_path(codes[k]),
            body,
            token2,
            allowed,
            o,
            b,
            u,
            n1,
        ),
    ensures
        a == AnswerView::Reply(app::plain_reply(201, app::bulk_body(codes))),
        b == (if lasts(store::expiry(now, cfg.link_ttl_ms), later) {
            redirect(urls[k])
        } else {
            missing()
        }),
{
    lemma_shorten_path();
    lemma_generated_code(s.instance as int, codes[k]);
    reveal_strlit("metrics");
    lemma_short_path(codes[k]);
    store_laws::law_bulk_links_resolve(s, urls, cfg.link_ttl_ms, now, codes, t, k);
}

/// A link that a request changed is redirected to its new url.
pub proof fn law_changed_link_redirects(
    s: StoreView,
    m0: MetricsView,
    cfg: ConfigView,
    now: i64,
    code: Seq<char>,
    body: BodyView,
    token: Seq<char>,
    allowed: bool,
    a: AnswerView,
    t: StoreView,
    m1: MetricsView,
    n0: MetricsView,
    cfg2: ConfigView,
    later: i64,
    body2: BodyView,
    token2: Seq<char>,
    allowed2: bool,
    o: OutcomeView,
    b: AnswerView,
    u: StoreView,
    n1: MetricsView,
)
    requires
        app::is_code(code),
        code != "metrics"@,
        app::handled(
            s,
            m0,
            cfg,
            now,
            "PATCH"@,
            admin_path(code),
            body,
            token,
            allowed,
            OutcomeView::Changed(MutResult::Done),
            a,
            t,
            m1,
        ),
        app::handled(
            t,
            n0,
            cfg2,
            later,
            "GET"@,
            short_path(code),
            body2,
            token2,
            allowed2,
            o,
            b,
            u,
            n1,
        ),
    ensures
        a == AnswerView::Reply(app::plain_reply(200, text::lit("{\"ok\":true}"))),
        body matches BodyView::Patch { url: Some(url), ttl_ms } && b == (if lasts(
            match ttl_ms {
                Some(l) => store::expiry(now, app::new_lifetime(l, cfg.link_ttl_ms)),
                None => s.rows[code].e,
            },
            later,
        ) {
            redirect(url)
        } else {
            missing()
        }),
{
    lemma_admin_path(code);
    lemma_short_path(code);
}

/// A link that a request removed is not found any more, and its code is free.
pub proof fn law_removed_link_is_gone(
    s: StoreView,
    m0: MetricsView,
    cfg: ConfigView,
    now: i64,
    code: Seq<char>,
    body: BodyView,
    token: Seq<char>,
    allowed: bool,
    a: AnswerView,
    t: StoreView,
    m1: MetricsView,
    n0: MetricsView,
    cfg2: ConfigView,
    later: i64,
    body2: BodyView,
    token2: Seq<char>,
    allowed2: bool,
    o: OutcomeView,
    b: AnswerView,
    u: StoreView,
    n1: MetricsView,
)
    requires
        app::is_code(code),
        code != "metrics"@,
        app::handled(
            s,
            m0,
            cfg,
            now,
            "DELETE"@,
            admin_path(code),
            body,
            token,
            allowed,
            OutcomeView::Changed(MutResult::Done),
            a,
            t,
            m1,
        ),
        app::handled(
            t,
            n0,
            cfg2,
            later,
            "GET"@,
            short_path(code),
            body2,
            token2,
            allowed2,
            o,
            b,
            u,
            n1,
        ),
    ensures
        a == AnswerView::Reply(app::plain_reply(204, Seq::empty())),
        b == missing(),
        u == t,
        !t.rows.contains_key(code),
{
    lemma_admin_path(code);
    lemma_short_path(code);
}

/// A redirect is one more hit of the link in what a request for its numbers is
/// answered, where hits are counted.
pub proof fn law_redirect_shows_in_the_numbers(
    s: StoreView,
    m0: MetricsView,
    cfg: ConfigView,
    now: i64,
    code: Seq<char>,
    url: Seq<char>,
    body: BodyView,
    token: Seq<char>,
    allowed: bool,
    o: OutcomeView,
    t: StoreView,
    m1: MetricsView,
    n0: MetricsView,
    cfg2: ConfigView,
    later: i64,
    body2: BodyView,
    token2: Seq<char>,
    allowed2: bool,
    o2: OutcomeView,
    b: AnswerView,
    u: StoreView,
    n1: MetricsView,
)
    requires
        app::is_code(code),
        code != "metrics"@,
        s.track,
        app::handled(
            s,
            m0,
            cfg,
            now,
            "GET"@,
            short_path(code),
            body,
            token,
            allowed,
            o,
            redirect(url),
            t,
            m1,
        ),
        app::handled(
            t,
            n0,
            cfg2,
            later,
            "GET"@,
            stats_path(code),
            body2,
            token2,
            allowed2,
            o2,
            b,
            u,
            n1,
        ),
    ensures
        b matches AnswerView::Link(l) && l.code == code && l.url == url && l.hits
            == s.rows[code].h.wrapping_add(1),
        u == t,
{
    lemma_short_path(code);
    lemma_stats_path(code);
}

/// A request that is refused changes nothing, and one that only reads changes
/// nothing but the hits of the link that it is redirected to.
pub proof fn law_reads_and_refusals_change_nothing(
    s: StoreView,
    m0: MetricsView,
    cfg: ConfigView,
    now: i64,
    method: Seq<char>,
    path: Seq<char>,
    body: BodyView,
    token: Seq<char>,
    allowed: bool,
    o: OutcomeView,
    a: AnswerView,
    t: StoreView,
    m1: MetricsView,
)
    requires
        app::handled(s, m0, cfg, now, method, path, body, token, allowed, o, a, t, m1),
    ensures
        app::status_of(a) >= 400 ==> t == s,
        method != "POST"@ && method != "PATCH"@ && method != "DELETE"@ && app::status_of(a) != 302
            ==> t == s,
        app::status_of(a) == 302 ==> exists|code: Seq<char>|
            s.rows.contains_key(code) && t == #[trigger] store::counted(s, code),
{
    app::lemma_methods();
    let m = app::arrived(m0, now, method, path, allowed);
    let p = app::plan_of(cfg, m, now, method, path, body, token, allowed);
    match p {
        PlanView::Resolve { code } => {
            if app::status_of(a) == 302 {
                assert(t == store::counted(s, code));
            }
        },
        _ => {},
    }
}

// ---------- what a request may hold ----------

/// What may be asked for as a code is 1 to 64 letters, digits, `_` and `-`, and all of that
/// may.
pub proof fn law_codes_are_words(c: Seq<char>)
    ensures
        app::is_code(c) <==> 1 <= c.len() <= 64 && forall|k: int|
            0 <= k < c.len() ==> {
                let x = #[trigger] c[k];
                'a' <= x <= 'z' || 'A' <= x <= 'Z' || '0' <= x <= '9' || x == '_' || x == '-'
            },
{
    let b = encode_utf8(c);
    if app::is_code(c) {
        assert forall|k: int| 0 <= k < b.len() implies #[trigger] b[k] < 128 by {
            assert(app::code_byte(b[k]));
        }
        text::lemma_ascii_text(b);
        encode_utf8_decode_utf8(c);
        assert(c == text::ascii_text(b));
        assert forall|k: int| 0 <= k < c.len() implies {
            let x = #[trigger] c[k];
            'a' <= x <= 'z' || 'A' <= x <= 'Z' || '0' <= x <= '9' || x == '_' || x == '-'
        } by {
            assert(app::code_byte(b[k]));
            assert(c[k] == b[k] as char);
        }
    }
    if 1 <= c.len() <= 64 && forall|k: int|
        0 <= k < c.len() ==> {
            let x = #[trigger] c[k];
            'a' <= x <= 'z' || 'A' <= x <= 'Z' || '0' <= x <= '9' || x == '_' || x == '-'
        } {
        assert(is_ascii_chars(c));
        is_ascii_chars_encode_utf8(c);
        assert forall|k: int| 0 <= k < b.len() implies app::code_byte(#[trigger] b[k]) by {
            let x = c[k];
            assert(b[k] == x as u8);
        }
    }
}

/// Some bytes are others with something behind them.
pub open spec fn led_by(b: Seq<u8>, p: Seq<u8>) -> bool {
    exists|rest: Seq<u8>| #[trigger] (p + rest) == b
}

/// Some bytes lead others exactly if these begin with them.
pub proof fn lemma_led_by(b: Seq<u8>, p: Seq<u8>)
    ensures
        led_by(b, p) <==> text::begins(b, p),
{
    if text::begins(b, p) {
        assert(p + b.skip(p.len() as int) =~= b);
    }
    if led_by(b, p) {
        let rest = choose|rest: Seq<u8>| #[trigger] (p + rest) == b;
        assert(b.subrange(0, p.len() as int) =~= p);
    }
}

/// A bulk request may hold every text of 8 to 2048 bytes that is `http://` or `https://`
/// and any bytes behind it but quotes, backslashes and line ends, and no other text.
pub proof fn law_bulk_urls(u: Seq<char>)
    ensures
        ({
            let b = encode_utf8(u);
            app::is_bulk_url(u) <==> {
                &&& 8 <= b.len() <= 2048
                &&& led_by(b, text::lit("http://")) || led_by(b, text::lit("https://"))
                &&& !b.contains(34)
                &&& !b.contains(92)
                &&& !b.contains(10)
                &&& !b.contains(13)
            }
        }),
{
    let b = encode_utf8(u);
    lemma_led_by(b, text::lit("http://"));
    lemma_led_by(b, text::lit("https://"));
    if b.contains(34) || b.contains(92) || b.contains(10) || b.contains(13) {
        let k = choose|k: int|
            0 <= k < b.len() && (b[k] == 34 || b[k] == 92 || b[k] == 10 || b[k] == 13);
        assert(app::breaks_line(b[k]));
    } else {
        assert forall|k: int| 0 <= k < b.len() implies !app::breaks_line(#[trigger] b[k]) by {
            assert(b.contains(b[k]));
        }
    }
}

/// A text is a word but for the case of its letters.
pub open spec fn either_case(t: Seq<char>, word: Seq<char>) -> bool {
    t.len() == word.len() && forall|k: int|
        0 <= k < t.len() ==> #[trigger] t[k] == word[k] || ('A' <= t[k] <= 'Z' && t[k] as int + 32
            == word[k] as int)
}

/// A text is a word but for the case of its letters exactly if both are the same in lower
/// case.
pub proof fn lemma_either_case(t: Seq<char>, word: Seq<char>)
    requires
        is_ascii_chars(word),
        forall|k: int| 0 <= k < word.len() ==> !('A' <= #[trigger] word[k] <= 'Z'),
    ensures
        text::lowered(encode_utf8(t)) == text::lowered(encode_utf8(word)) <==> either_case(t, word),
{
    is_ascii_chars_encode_utf8(word);
    let w = encode_utf8(word);
    let b = encode_utf8(t);
    if either_case(t, word) {
        assert forall|k: int| 0 <= k < t.len() implies #[trigger] t[k] <= '\u{7f}' by {
            assert(word[k] <= '\u{7f}');
        }
        assert(is_ascii_chars(t));
        is_ascii_chars_encode_utf8(t);
        assert(text::lowered(b) =~= text::lowered(w)) by {
            assert forall|k: int| 0 <= k < b.len() implies text::lower(b[k]) == text::lower(
                w[k],
            ) by {
                assert(b[k] == t[k] as u8);
                assert(w[k] == word[k] as u8);
                assert(word[k] <= '\u{7f}');
            }
        }
    }
    if text::lowered(b) == text::lowered(w) {
        assert(b.len() == text::lowered(w).len());
        assert forall|k: int| 0 <= k < b.len() implies #[trigger] b[k] < 128 && (b[k] == w[k] || (65
            <= b[k] <= 90 && b[k] + 32 == w[k])) by {
            assert(text::lowered(b)[k] == text::lowered(w)[k]);
            assert(w[k] == word[k] as u8);
            assert(word[k] <= '\u{7f}');
        }
        text::lemma_ascii_text(b);
        encode_utf8_decode_utf8(t);
        assert(t == text::ascii_text(b));
        assert forall|k: int| 0 <= k < t.len() implies #[trigger] t[k] == word[k] || ('A' <= t[k]
            <= 'Z' && t[k] as int + 32 == word[k] as int) by {
            assert(t[k] == b[k] as char);
            assert(w[k] == word[k] as u8);
            assert(word[k] <= '\u{7f}');
        }
    }
}

/// A url may be stored if it has 1 to 2048 bytes and a host that it names by http or https,
/// in whatever case; no other may.
pub proof fn law_web_urls(raw: Seq<char>)
    ensures
        app::is_web_url(raw) <==> 1 <= encode_utf8(raw).len() <= 2048 && (app::url_parts(
            raw,
        ) matches Some((scheme, Some(host))) && host.len() > 0 && (either_case(scheme, "http"@)
            || either_case(scheme, "https"@))),
{
    reveal_strlit("http");
    reveal_strlit("https");
    match app::url_parts(raw) {
        Some((scheme, Some(_))) => {
            lemma_either_case(scheme, "http"@);
            lemma_either_case(scheme, "https"@);
        },
        _ => {},
    }
}

// ---------- what a query says ----------

proof fn lemma_first_mark(p: Seq<char>, q: Seq<char>, from: int)
    requires
        0 <= from <= p.len(),
        !p.contains('?'),
    ensures
        text::char_index(p + seq!['?'] + q, from, '?') == p.len(),
    decreases p.len() - from,
{
    let all = p + seq!['?'] + q;
    if from < p.len() {
        assert(all[from] == p[from]);
        assert(p.contains(p[from]));
        lemma_first_mark(p, q, from + 1);
    } else {
        assert(all[from] == '?');
    }
}

/// A path ends at the first `?`, and the query is all that stands behind it.
pub proof fn law_query_stands_behind_the_path(p: Seq<char>, q: Seq<char>)
    requires
        !p.contains('?'),
    ensures
        app::pathname(p + seq!['?'] + q) == p,
        app::query(p + seq!['?'] + q) == q,
        app::pathname(p) == p,
        app::query(p) == Seq::<char>::empty(),
{
    let all = p + seq!['?'] + q;
    lemma_first_mark(p, q, 0);
    assert(all.take(p.len() as int) =~= p);
    assert(all.skip(p.len() as int + 1) =~= q);
    assert forall|k: int| 0 <= k < p.len() implies #[trigger] p[k] != '?' by {
        assert(p.contains(p[k]));
    }
    lemma_no_query(p, 0);
    assert(p.take(p.len() as int) =~= p);
}

/// No name and value of a query has that name.
pub open spec fn unsaid(pairs: Seq<(Seq<char>, Seq<char>)>, name: Seq<char>) -> bool {
    forall|k: int| 0 <= k < pairs.len() ==> (#[trigger] pairs[k]).0 != name
}

proof fn lemma_unsaid(pairs: Seq<(Seq<char>, Seq<char>)>, name: Seq<char>)
    requires
        unsaid(pairs, name),
    ensures
        app::value_in(pairs, name) is None,
    decreases pairs.len(),
{
    if pairs.len() > 0 {
        assert(pairs.last() == pairs[pairs.len() - 1]);
        assert forall|k: int| 0 <= k < pairs.drop_last().len() implies (
        #[trigger] pairs.drop_last()[k]).0 != name by {
            assert(pairs[k].0 != name);
        }
        lemma_unsaid(pairs.drop_last(), name);
    }
}

/// Of several values of a name the last one counts.
pub proof fn law_last_value_counts(
    a: Seq<(Seq<char>, Seq<char>)>,
    name: Seq<char>,
    v: Seq<char>,
    b: Seq<(Seq<char>, Seq<char>)>,
)
    requires
        unsaid(b, name),
    ensures
        app::value_in(a + seq![(name, v)] + b, name) == Some(v),
        app::value_in(b, name) is None,
    decreases b.len(),
{
    let all = a + seq![(name, v)] + b;
    lemma_unsaid(b, name);
    if b.len() == 0 {
        assert(all.last() == (name, v));
    } else {
        assert(all.drop_last() =~= a + seq![(name, v)] + b.drop_last());
        assert(all.last() == b[b.len() - 1]);
        assert forall|k: int| 0 <= k < b.drop_last().len() implies (#[trigger] b.drop_last()[k]).0
            != name by {
            assert(b[k].0 != name);
        }
        law_last_value_counts(a, name, v, b.drop_last());
    }
}

/// A text that cannot be a number: it is empty, or something in it is neither a digit nor a
/// sign.
pub open spec fn no_number(t: Seq<char>) -> bool {
    t.len() == 0 || exists|k: int|
        0 <= k < t.len() && !('0' <= #[trigger] t[k] <= '9') && t[k] != '+' && t[k] != '-'
}

/// A text that cannot be a number stands for none.
pub proof fn lemma_no_number(t: Seq<char>)
    requires
        no_number(t),
    ensures
        text::int_text(t) is None,
{
    if t.len() > 0 {
        let k = choose|k: int|
            0 <= k < t.len() && !('0' <= #[trigger] t[k] <= '9') && t[k] != '+' && t[k] != '-';
        assert(!text::is_digit(t[k]));
        if k > 0 {
            assert(t.drop_first()[k - 1] == t[k]);
        }
    }
}

/// How many links a listing gives out at most: as many as the query says, from 1 to 1000;
/// 50 where it says nothing, 0 or no number.
pub proof fn law_limit_is_the_one_asked_for(
    a: Seq<(Seq<char>, Seq<char>)>,
    v: Seq<char>,
    b: Seq<(Seq<char>, Seq<char>)>,
    n: int,
)
    requires
        unsaid(b, "limit"@),
    ensures
        ({
            let limit = app::list_of(a + seq![("limit"@, v)] + b).limit;
            &&& v == text::ascii_text(text::decimal(n)) && 1 <= n <= 1000 ==> limit == n
            &&& v == text::ascii_text(text::decimal(n)) && 1000 < n <= i64::MAX ==> limit == 1000
            &&& v == text::ascii_text(text::decimal(n)) && i64::MIN <= n < 0 ==> limit == 1
            &&& v == text::ascii_text(text::decimal(n)) && n == 0 ==> limit == 50
            &&& no_number(v) ==> limit == 50
        }),
        app::list_of(b).limit == 50,
{
    law_last_value_counts(a, "limit"@, v, b);
    text::law_decimal_reads_back(n);
    if no_number(v) {
        lemma_no_number(v);
    }
}

/// How many links a listing leaves out first: as many as the query says, and none where it
/// says nothing, less than 1 or no number.
pub proof fn law_offset_is_the_one_asked_for(
    a: Seq<(Seq<char>, Seq<char>)>,
    v: Seq<char>,
    b: Seq<(Seq<char>, Seq<char>)>,
    n: int,
)
    requires
        unsaid(b, "offset"@),
    ensures
        ({
            let offset = app::list_of(a + seq![("offset"@, v)] + b).offset;
            &&& v == text::ascii_text(text::decimal(n)) && 0 <= n <= i64::MAX && n <= usize::MAX
                ==> offset == n
            &&& v == text::ascii_text(text::decimal(n)) && i64::MIN <= n < 0 ==> offset == 0
            &&& no_number(v) ==> offset == 0
        }),
        app::list_of(b).offset == 0,
{
    law_last_value_counts(a, "offset"@, v, b);
    text::law_decimal_reads_back(n);
    if no_number(v) {
        lemma_no_number(v);
    }
}

/// A listing is ordered by hits where the query says so, else by age; and it is searched
/// for the text that the query gives, else for the empty one.
pub proof fn law_order_and_search_are_those_asked_for(
    a: Seq<(Seq<char>, Seq<char>)>,
    v: Seq<char>,
    b: Seq<(Seq<char>, Seq<char>)>,
)
    ensures
        unsaid(b, "sort"@) ==> listing::order_of(
            app::list_of(a + seq![("sort"@, v)] + b).sort,
        ) == (if v == "hits"@ {
            Order::Hits
        } else {
            Order::Created
        }),
        unsaid(b, "sort"@) ==> listing::order_of(app::list_of(b).sort) == Order::Created,
        unsaid(b, "q"@) ==> app::list_of(a + seq![("q"@, v)] + b).q == v,
        unsaid(b, "q"@) ==> app::list_of(b).q == Seq::<char>::empty(),
{
    reveal_strlit("hits");
    reveal_strlit("created");
    assert("hits"@.len() != "created"@.len());
    if unsaid(b, "sort"@) {
        law_last_value_counts(a, "sort"@, v, b);
    }
    if unsaid(b, "q"@) {
        law_last_value_counts(a, "q"@, v, b);
    }
}

/// A store that has a page of the links to give: `all` are those that hold a text in their
/// code or url, each once, by hits or by age, the greatest first.
pub open spec fn all_in_order(
    rows: Map<Seq<char>, Row>,
    q: Seq<char>,
    sort: Seq<char>,
    all: Seq<LinkView>,
) -> bool {
    &&& forall|i: int|
        0 <= i < all.len() ==> {
            let l = #[trigger] all[i];
            &&& rows.contains_key(l.code)
            &&& l.url == rows[l.code].u
            &&& l.hits == rows[l.code].h
            &&& l.created_at == rows[l.code].a
            &&& l.expires_at == (if rows[l.code].e == 0 {
                None
            } else {
                Some(rows[l.code].e)
            })
        }
    &&& forall|i: int, k: int|
        0 <= i < k < all.len() ==> (#[trigger] all[i]).code != (#[trigger] all[k]).code
    &&& forall|c: Seq<char>|
        (exists|i: int| 0 <= i < all.len() && (#[trigger] all[i]).code == c) <==> (
        #[trigger] rows.contains_key(c) && (occurs(encode_utf8(q), encode_utf8(c)) || occurs(
            encode_utf8(q),
            encode_utf8(rows[c].u),
        )))
    &&& forall|i: int, k: int|
        0 <= i < k < all.len() ==> if sort == "hits"@ {
            (#[trigger] all[i]).hits >= (#[trigger] all[k]).hits
        } else {
            all[i].created_at >= all[k].created_at
        }
}

/// Some bytes stand among others.
pub open spec fn occurs(part: Seq<u8>, b: Seq<u8>) -> bool {
    exists|x: Seq<u8>, y: Seq<u8>| #[trigger] (x + part + y) == b
}

/// Some bytes stand among others exactly if they stand somewhere in them.
pub proof fn lemma_occurs(part: Seq<u8>, b: Seq<u8>)
    ensures
        occurs(part, b) <==> text::holds(b, part),
{
    if occurs(part, b) {
        let (x, y) = choose|x: Seq<u8>, y: Seq<u8>| #[trigger] (x + part + y) == b;
        assert(b.subrange(x.len() as int, (x.len() + part.len()) as int) =~= part);
        assert(text::stands_at(b, part, x.len() as int));
    }
    if text::holds(b, part) {
        let at = choose|at: int| text::stands_at(b, part, at);
        assert(b.take(at) + part + b.skip(at + part.len()) =~= b);
    }
}

proof fn lemma_all_in_order(
    rows: Map<Seq<char>, Row>,
    q: Seq<char>,
    sort: Seq<char>,
    found: Seq<LinkView>,
    all: Seq<LinkView>,
)
    requires
        store::found_in(rows, q, found),
        listing::arranged(found, listing::order_of(sort), all),
    ensures
        all.len() == found.len(),
        all_in_order(rows, q, sort, all),
{
    let order = listing::order_of(sort);
    let p = choose|p: Seq<usize>|
        {
            &&& #[trigger] crate::sort::lists(p, 0, found.len() as int)
            &&& all == Seq::new(p.len(), |k: int| found[p[k] as int])
            &&& forall|j: int, k: int|
                0 <= j < k < p.len() ==> listing::rank(order, found[#[trigger] p[j] as int])
                    > listing::rank(order, found[#[trigger] p[k] as int]) || (listing::rank(
                    order,
                    found[p[j] as int],
                ) == listing::rank(order, found[p[k] as int]) && p[j] < p[k])
        };
    assert forall|i: int| 0 <= i < all.len() implies #[trigger] all[i] == found[p[i] as int] by {}
    assert forall|i: int, k: int| 0 <= i < k < all.len() implies (#[trigger] all[i]).code != (
    #[trigger] all[k]).code by {
        let (x, y) = (p[i] as int, p[k] as int);
        assert(x != y);
        if x < y {
            assert(found[x].code != found[y].code);
        } else {
            assert(found[y].code != found[x].code);
        }
    }
    assert forall|i: int, k: int| 0 <= i < k < all.len() implies if sort == "hits"@ {
        (#[trigger] all[i]).hits >= (#[trigger] all[k]).hits
    } else {
        all[i].created_at >= all[k].created_at
    } by {
        assert(p[i] != p[k]);
    }
    assert forall|c: Seq<char>|
        (exists|i: int| 0 <= i < all.len() && (#[trigger] all[i]).code == c) <==> (
        #[trigger] rows.contains_key(c) && (occurs(encode_utf8(q), encode_utf8(c)) || occurs(
            encode_utf8(q),
            encode_utf8(rows[c].u),
        ))) by {
        if rows.contains_key(c) {
            lemma_occurs(encode_utf8(q), encode_utf8(c));
            lemma_occurs(encode_utf8(q), encode_utf8(rows[c].u));
            if listing::wanted(store::link_of(c, rows[c]), q) {
                let x = choose|x: int| 0 <= x < found.len() && (#[trigger] found[x]).code == c;
                assert(crate::sort::listed(p, x));
                let k = choose|k: int| 0 <= k < p.len() && #[trigger] p[k] == x;
                assert(all[k].code == c);
            }
        }
        if exists|i: int| 0 <= i < all.len() && (#[trigger] all[i]).code == c {
            let i = choose|i: int| 0 <= i < all.len() && (#[trigger] all[i]).code == c;
            assert(found[p[i] as int].code == c);
        }
    }
}

/// What a listing is answered: the links behind the first `offset` of all that are found,
/// up to `limit` of them, and how many are found.
pub open spec fn listed_well(rows: Map<Seq<char>, Row>, l: ListView, a: AnswerView) -> bool {
    exists|all: Seq<LinkView>| #[trigger]
        all_in_order(rows, l.q, l.sort, all) && (a matches AnswerView::Links(v, n) && n
            == all.len() && (if l.offset >= all.len() {
            v.len() == 0
        } else {
            &&& v.len() <= l.limit
            &&& v.len() < l.limit ==> l.offset + v.len() == all.len()
            &&& v == all.subrange(l.offset as int, l.offset + v.len())
        }))
}

proof fn lemma_listed_well(
    rows: Map<Seq<char>, Row>,
    l: ListView,
    found: Seq<LinkView>,
    all: Seq<LinkView>,
    v: Seq<LinkView>,
    n: usize,
)
    requires
        store::found_in(rows, l.q, found),
        listing::arranged(found, listing::order_of(l.sort), all),
        v == listing::page(all, l.limit as int, l.offset as int),
        n == found.len(),
    ensures
        listed_well(rows, l, AnswerView::Links(v, n)),
{
    lemma_all_in_order(rows, l.q, l.sort, found, all);
    if l.offset < all.len() {
        assert(v =~= all.subrange(l.offset as int, l.offset + v.len()));
    }
}

proof fn lemma_list_path(q: Seq<char>)
    ensures
        app::route("GET"@, app::pathname("/api/links"@ + seq!['?'] + q)) == Route::List,
        app::query("/api/links"@ + seq!['?'] + q) == q,
{
    let p = "/api/links"@;
    app::lemma_methods();
    reveal_strlit("/api/links");
    reveal_strlit("/api/health");
    reveal_strlit("/api/metrics");
    reveal_strlit("/metrics");
    reveal_strlit("/");
    assert(p.len() == 10 && "/api/health"@.len() == 11 && "/api/metrics"@.len() == 12
        && "/metrics"@.len() == 8 && "/"@.len() == 1);
    law_query_stands_behind_the_path(p, q);
}

/// A listing answers with the links that the query asks for, and changes nothing.
pub proof fn law_listing_is_a_page(
    s: StoreView,
    m0: MetricsView,
    cfg: ConfigView,
    now: i64,
    q: Seq<char>,
    body: BodyView,
    token: Seq<char>,
    allowed: bool,
    o: OutcomeView,
    a: AnswerView,
    t: StoreView,
    m1: MetricsView,
)
    requires
        app::handled(
            s,
            m0,
            cfg,
            now,
            "GET"@,
            "/api/links"@ + seq!['?'] + q,
            body,
            token,
            allowed,
            o,
            a,
            t,
            m1,
        ),
    ensures
        t == s,
        listed_well(s.rows, app::list_of(app::query_pairs(encode_utf8(q))), a),
{
    lemma_list_path(q);
    let l = app::list_of(app::query_pairs(encode_utf8(q)));
    let m = app::arrived(m0, now, "GET"@, "/api/links"@ + seq!['?'] + q, allowed);
    assert(app::plan_of(
        cfg,
        m,
        now,
        "GET"@,
        "/api/links"@ + seq!['?'] + q,
        body,
        token,
        allowed,
    ) == PlanView::List(l));
    assert(o is Listed);
    let v = o->Listed_0;
    let n = o->Listed_1;
    let (found, all) = choose|found: Seq<LinkView>, all: Seq<LinkView>|
        {
            &&& #[trigger] store::found_in(s.rows, l.q, found)
            &&& #[trigger] listing::arranged(found, listing::order_of(l.sort), all)
            &&& v == listing::page(all, l.limit as int, l.offset as int)
            &&& n == found.len()
        };
    lemma_listed_well(s.rows, l, found, all, v, n);
}

// ---------- what requests do to the links ----------

/// Nothing but the links and the log is another.
pub open spec fn rest_is_kept(s: StoreView, t: StoreView) -> bool {
    &&& t.stray == s.stray
    &&& t.readers == s.readers
    &&& t.last_poll == s.last_poll
    &&& t.instance == s.instance
    &&& t.track == s.track
    &&& t.log is Some <==> s.log is Some
}

/// How long a link lives that is asked for with some lifetime: that long, but 1 ms at least
/// and no longer than the longest; and the longest if nothing is said.
pub open spec fn due(max_ttl: i64, ttl_ms: Option<Ttl>) -> int {
    match ttl_ms {
        None => max_ttl as int,
        Some(t) => if t.ms < 1 {
            1
        } else if t.ms > max_ttl {
            max_ttl as int
        } else {
            t.ms as int
        },
    }
}

/// A request for a link stores it: the url under the alias, or under a new code of 8
/// letters and digits, without hits, from now until its lifetime is over. No other link
/// changes. A taken alias is refused, and nothing changes.
pub proof fn law_shorten_stores_the_link(
    s: StoreView,
    m0: MetricsView,
    cfg: ConfigView,
    now: i64,
    url: Seq<char>,
    alias: Option<Seq<char>>,
    ttl_ms: Option<Ttl>,
    token: Seq<char>,
    o: OutcomeView,
    a: AnswerView,
    t: StoreView,
    m1: MetricsView,
)
    requires
        0 <= s.instance < store::MAX_INSTANCES,
        0 < cfg.link_ttl_ms,
        now + cfg.link_ttl_ms <= i64::MAX,
        app::is_web_url(url),
        alias matches Some(x) ==> app::is_code(x),
        ttl_ms matches Some(l) ==> !l.low,
        app::handled(
            s,
            m0,
            cfg,
            now,
            "POST"@,
            "/api/shorten"@,
            BodyView::Shorten { url: Some(url), alias, ttl_ms },
            token,
            true,
            o,
            a,
            t,
            m1,
        ),
    ensures
        match o {
            OutcomeView::Created(Some(c)) => {
                &&& app::status_of(a) == 201
                &&& match alias {
                    Some(x) => c == x,
                    None => c.len() == 8 && app::is_code(c),
                }
                &&& !s.rows.contains_key(c)
                &&& t.rows == s.rows.insert(
                    c,
                    Row {
                        u: url,
                        a: now,
                        e: (now + due(cfg.link_ttl_ms, ttl_ms)) as i64,
                        i: s.instance,
                        h: 0,
                        oh: 0,
                    },
                )
                &&& t.dirty == s.dirty
                &&& rest_is_kept(s, t)
            },
            OutcomeView::Created(None) => {
                &&& app::status_of(a) == 409
                &&& t == s
                &&& alias matches Some(x) ==> s.rows.contains_key(x)
            },
            _ => false,
        },
{
    lemma_shorten_path();
    if let OutcomeView::Created(Some(c)) = o {
        if alias is None {
            lemma_generated_code(s.instance as int, c);
        }
    }
}

/// A request for many links stores each url under a code of its own that was free, without
/// hits, from now until the longest lifetime is over. No other link changes.
pub proof fn law_bulk_stores_the_links(
    s: StoreView,
    m0: MetricsView,
    cfg: ConfigView,
    now: i64,
    urls: Seq<Seq<char>>,
    token: Seq<char>,
    codes: Seq<Seq<char>>,
    a: AnswerView,
    t: StoreView,
    m1: MetricsView,
    k: int,
    c: Seq<char>,
)
    requires
        0 <= s.instance < store::MAX_INSTANCES,
        0 < cfg.link_ttl_ms,
        now + cfg.link_ttl_ms <= i64::MAX,
        app::handled(
            s,
            m0,
            cfg,
            now,
            "POST"@,
            "/api/shorten/bulk"@,
            BodyView::Bulk { urls: Some(urls) },
            token,
            true,
            OutcomeView::CreatedMany(codes),
            a,
            t,
            m1,
        ),
    ensures
        app::status_of(a) == 201,
        0 <= k < codes.len() ==> {
            &&& codes[k].len() == 8
            &&& app::is_code(codes[k])
            &&& !s.rows.contains_key(codes[k])
            &&& t.rows.contains_key(codes[k])
            &&& t.rows[codes[k]] == Row {
                u: urls[k],
                a: now,
                e: (now + cfg.link_ttl_ms) as i64,
                i: s.instance,
                h: 0,
                oh: 0,
            }
        },
        !codes.contains(c) ==> (t.rows.contains_key(c) <==> s.rows.contains_key(c)) && (
        s.rows.contains_key(c) ==> t.rows[c] == s.rows[c]),
        t.dirty == s.dirty,
        rest_is_kept(s, t),
{
    lemma_shorten_path();
    if 0 <= k < codes.len() {
        lemma_generated_code(s.instance as int, codes[k]);
        store_laws::law_bulk_links_resolve(s, urls, cfg.link_ttl_ms, now, codes, t, k);
    }
    if !codes.contains(c) {
        lemma_not_among(
            s.rows,
            codes,
            urls,
            now,
            store::expiry(now, cfg.link_ttl_ms),
            s.instance,
            c,
        );
    }
}

proof fn lemma_not_among(
    rows: Map<Seq<char>, Row>,
    codes: Seq<Seq<char>>,
    urls: Seq<Seq<char>>,
    now: i64,
    exp: i64,
    instance: i32,
    c: Seq<char>,
)
    requires
        !codes.contains(c),
    ensures
        ({
            let m = store::many_rows(rows, codes, urls, now, exp, instance);
            (m.contains_key(c) <==> rows.contains_key(c)) && (rows.contains_key(c) ==> m[c]
                == rows[c])
        }),
    decreases codes.len(),
{
    if codes.len() > 0 {
        assert(codes.contains(codes[codes.len() - 1]));
        assert forall|k: int| 0 <= k < codes.len() - 1 implies codes.drop_last()[k] != c by {
            assert(codes.contains(codes[k]));
        }
        lemma_not_among(rows, codes.drop_last(), urls, now, exp, instance, c);
    }
}

/// A request for a code is sent on to its url, and counts as a hit of that link only, as
/// long as the link is there and its time is not over; else nothing is found and nothing
/// changes.
pub proof fn law_redirect_leads_to_the_url(
    s: StoreView,
    m0: MetricsView,
    cfg: ConfigView,
    now: i64,
    code: Seq<char>,
    body: BodyView,
    token: Seq<char>,
    allowed: bool,
    o: OutcomeView,
    a: AnswerView,
    t: StoreView,
    m1: MetricsView,
)
    requires
        app::is_code(code),
        code != "metrics"@,
        app::handled(
            s,
            m0,
            cfg,
            now,
            "GET"@,
            short_path(code),
            body,
            token,
            allowed,
            o,
            a,
            t,
            m1,
        ),
    ensures
        if s.rows.contains_key(code) && (s.rows[code].e == 0 || now < s.rows[code].e) {
            let r = s.rows[code];
            &&& a matches AnswerView::Reply(x) && x.status == 302 && x.location == Some(r.u)
                && x.body.len() == 0
            &&& if s.track {
                t.rows == s.rows.insert(
                    code,
                    Row {
                        u: r.u,
                        a: r.a,
                        e: r.e,
                        i: r.i,
                        h: r.h.wrapping_add(1),
                        oh: r.oh.wrapping_add(1),
                    },
                ) && t.dirty == s.dirty.insert(
                    code,
                    if s.dirty.contains_key(code) {
                        s.dirty[code].wrapping_add(1)
                    } else {
                        1
                    },
                )
            } else {
                t.rows == s.rows && t.dirty == s.dirty
            }
            &&& t.log == s.log
            &&& rest_is_kept(s, t)
        } else {
            app::status_of(a) == 404 && t == s
        },
{
    lemma_short_path(code);
}

/// A request to look into a code tells its url, hits, and the times from and until which it
/// is there, also when that is over; nothing changes.
pub proof fn law_stats_tell_what_is_known(
    s: StoreView,
    m0: MetricsView,
    cfg: ConfigView,
    now: i64,
    code: Seq<char>,
    body: BodyView,
    token: Seq<char>,
    allowed: bool,
    o: OutcomeView,
    a: AnswerView,
    t: StoreView,
    m1: MetricsView,
)
    requires
        app::is_code(code),
        app::handled(
            s,
            m0,
            cfg,
            now,
            "GET"@,
            stats_path(code),
            body,
            token,
            allowed,
            o,
            a,
            t,
            m1,
        ),
    ensures
        t == s,
        if s.rows.contains_key(code) {
            let r = s.rows[code];
            a == AnswerView::Link(
                LinkView {
                    code,
                    url: r.u,
                    hits: r.h,
                    created_at: r.a,
                    expires_at: if r.e == 0 {
                        None
                    } else {
                        Some(r.e)
                    },
                },
            )
        } else {
            app::status_of(a) == 404
        },
{
    lemma_stats_path(code);
}

/// A request to change a link gives it the new url, and a new end if it gives a lifetime;
/// its hits, owner and the time it was made stay, and no other link changes. Who has not
/// the token learns nothing, and only the owner of a link changes it.
pub proof fn law_patch_changes_url_and_end_only(
    s: StoreView,
    m0: MetricsView,
    cfg: ConfigView,
    now: i64,
    code: Seq<char>,
    url: Seq<char>,
    ttl_ms: Option<Ttl>,
    token: Seq<char>,
    allowed: bool,
    o: OutcomeView,
    a: AnswerView,
    t: StoreView,
    m1: MetricsView,
)
    requires
        app::is_code(code),
        app::is_web_url(url),
        0 < cfg.link_ttl_ms,
        now + cfg.link_ttl_ms <= i64::MAX,
        app::handled(
            s,
            m0,
            cfg,
            now,
            "PATCH"@,
            admin_path(code),
            BodyView::Patch { url: Some(url), ttl_ms },
            token,
            allowed,
            o,
            a,
            t,
            m1,
        ),
    ensures
        if cfg.admin != Some(token) || token.len() == 0 || !s.rows.contains_key(code) {
            app::status_of(a) == 404 && t == s
        } else if s.rows[code].i != s.instance {
            app::status_of(a) == 409 && t == s
        } else {
            let r = s.rows[code];
            &&& app::status_of(a) == 200
            &&& t.rows == s.rows.insert(
                code,
                Row {
                    u: url,
                    a: r.a,
                    e: match ttl_ms {
                        None => r.e,
                        Some(l) => (now + due(
                            cfg.link_ttl_ms,
                            if l.low {
                                None
                            } else {
                                ttl_ms
                            },
                        )) as i64,
                    },
                    i: r.i,
                    h: r.h,
                    oh: r.oh,
                },
            )
            &&& t.dirty == s.dirty
            &&& rest_is_kept(s, t)
        },
{
    lemma_admin_path(code);
}

/// A request to remove a link removes it and no other. Who has not the token learns
/// nothing, and only the owner of a link removes it.
pub proof fn law_delete_removes_the_link_only(
    s: StoreView,
    m0: MetricsView,
    cfg: ConfigView,
    now: i64,
    code: Seq<char>,
    body: BodyView,
    token: Seq<char>,
    allowed: bool,
    o: OutcomeView,
    a: AnswerView,
    t: StoreView,
    m1: MetricsView,
)
    requires
        app::is_code(code),
        app::handled(
            s,
            m0,
            cfg,
            now,
            "DELETE"@,
            admin_path(code),
            body,
            token,
            allowed,
            o,
            a,
            t,
            m1,
        ),
    ensures
        if cfg.admin != Some(token) || token.len() == 0 || !s.rows.contains_key(code) {
            app::status_of(a) == 404 && t == s
        } else if s.rows[code].i != s.instance {
            app::status_of(a) == 409 && t == s
        } else {
            &&& app::status_of(a) == 204
            &&& t.rows == s.rows.remove(code)
            &&& t.dirty == s.dirty
            &&& rest_is_kept(s, t)
        },
{
    lemma_admin_path(code);
}

// ---------- requests that are refused, and fixed pages ----------

/// A request for a link is refused if its url may not be stored, its alias is no code or
/// its lifetime is not over 0, and one to change a link if it gives no url or one that may
/// not be stored: nothing changes.
pub proof fn law_bad_requests_are_refused(
    s: StoreView,
    m0: MetricsView,
    cfg: ConfigView,
    now: i64,
    method: Seq<char>,
    path: Seq<char>,
    body: BodyView,
    token: Seq<char>,
    allowed: bool,
    o: OutcomeView,
    a: AnswerView,
    t: StoreView,
    m1: MetricsView,
    code: Seq<char>,
)
    requires
        app::handled(s, m0, cfg, now, method, path, body, token, allowed, o, a, t, m1),
        ({
            ||| method == "POST"@ && path == "/api/shorten"@ && allowed && (match body {
                BodyView::Shorten { url, alias, ttl_ms } => {
                    ||| url is None
                    ||| !app::is_web_url(url->0)
                    ||| alias is Some && !app::is_code(alias->0)
                    ||| ttl_ms is Some && ttl_ms->0.low
                },
                _ => true,
            })
            ||| method == "POST"@ && path == "/api/shorten/bulk"@ && allowed && (match body {
                BodyView::Bulk { urls: Some(v) } => v.len() == 0 || v.len() > 10000 || exists|
                    k: int,
                |
                    0 <= k < v.len() && !app::is_bulk_url(#[trigger] v[k]),
                _ => true,
            })
            ||| method == "PATCH"@ && app::is_code(code) && path == admin_path(code) && cfg.admin
                == Some(token) && token.len() > 0 && (match body {
                BodyView::Patch { url: Some(u), .. } => !app::is_web_url(u),
                _ => true,
            })
        }),
    ensures
        app::status_of(a) == 400,
        t == s,
{
    lemma_shorten_path();
    if method == "PATCH"@ {
        app::lemma_methods();
        if app::is_code(code) {
            lemma_admin_path(code);
        }
    }
    app::lemma_methods();
}

/// A request that has to be paid for and cannot be is told so, and nothing changes.
pub proof fn law_unpaid_requests_are_refused(
    s: StoreView,
    m0: MetricsView,
    cfg: ConfigView,
    now: i64,
    path: Seq<char>,
    body: BodyView,
    token: Seq<char>,
    o: OutcomeView,
    a: AnswerView,
    t: StoreView,
    m1: MetricsView,
)
    requires
        path == "/api/shorten"@ || path == "/api/shorten/bulk"@,
        app::handled(s, m0, cfg, now, "POST"@, path, body, token, false, o, a, t, m1),
    ensures
        app::status_of(a) == 429,
        t == s,
        m1.limited == m0.limited.wrapping_add(1),
{
    lemma_shorten_path();
}

/// A new link costs 1, many links as many as there are urls, and nothing else costs
/// anything.
pub proof fn law_links_are_paid_for(method: Seq<char>, p: Seq<char>, q: Seq<char>, body: BodyView)
    requires
        !p.contains('?'),
    ensures
        ({
            let c = app::cost(method, p + seq!['?'] + q, body);
            &&& c == app::cost(method, p, body)
            &&& method == "POST"@ && p == "/api/shorten"@ ==> c == 1
            &&& method == "POST"@ && p == "/api/shorten/bulk"@ ==> c == (match body {
                BodyView::Bulk { urls: Some(v) } => v.len() as int,
                _ => 0,
            })
            &&& method != "POST"@ ==> c == 0
            &&& p != "/api/shorten"@ && p != "/api/shorten/bulk"@ ==> c == 0
        }),
{
    law_query_stands_behind_the_path(p, q);
    app::lemma_methods();
    lemma_shorten_path();
    lemma_plain_shorten_paths();
}

proof fn lemma_plain_shorten_paths()
    ensures
        app::route("POST"@, "/api/shorten"@) == Route::Shorten,
        app::route("POST"@, "/api/shorten/bulk"@) == Route::Bulk,
{
    app::lemma_methods();
    reveal_strlit("/api/shorten");
    reveal_strlit("/api/shorten/bulk");
    assert("/api/shorten"@.len() != "/api/shorten/bulk"@.len());
}

/// The body of a bulk request may have 1048576 bytes, that of any other 4096, whatever the
/// query.
pub proof fn law_bodies_have_room(p: Seq<char>, q: Seq<char>)
    requires
        !p.contains('?'),
    ensures
        app::limit_of(p) == (if p == "/api/shorten/bulk"@ {
            1048576int
        } else {
            4096
        }),
        app::limit_of(p + seq!['?'] + q) == app::limit_of(p),
{
    law_query_stands_behind_the_path(p, q);
}

proof fn lemma_fixed_paths(q: Seq<char>)
    ensures
        ({
            let page = |p: Seq<char>| app::route("GET"@, app::pathname(p + seq!['?'] + q));
            &&& page("/api/health"@) == Route::Health
            &&& page("/api/metrics"@) == Route::Report
            &&& page("/metrics"@) == Route::Exposition
            &&& page("/"@) == Route::Page
        }),
{
    app::lemma_methods();
    reveal_strlit("/api/health");
    reveal_strlit("/api/metrics");
    reveal_strlit("/metrics");
    reveal_strlit("/");
    assert("/api/health"@.len() == 11 && "/api/metrics"@.len() == 12 && "/metrics"@.len() == 8
        && "/"@.len() == 1);
    law_query_stands_behind_the_path("/api/health"@, q);
    law_query_stands_behind_the_path("/api/metrics"@, q);
    law_query_stands_behind_the_path("/metrics"@, q);
    law_query_stands_behind_the_path("/"@, q);
}

/// Whoever asks, and whatever the query: the health page says that all is well, the root
/// shows the page that there is, and the two pages of counters show what was counted, this
/// request with it. Nothing changes.
pub proof fn law_fixed_pages_are_shown(
    s: StoreView,
    m0: MetricsView,
    cfg: ConfigView,
    now: i64,
    p: Seq<char>,
    q: Seq<char>,
    body: BodyView,
    token: Seq<char>,
    allowed: bool,
    o: OutcomeView,
    a: AnswerView,
    t: StoreView,
    m1: MetricsView,
)
    requires
        p == "/api/health"@ || p == "/"@ || p == "/api/metrics"@ || p == "/metrics"@,
        app::handled(
            s,
            m0,
            cfg,
            now,
            "GET"@,
            p + seq!['?'] + q,
            body,
            token,
            allowed,
            o,
            a,
            t,
            m1,
        ),
    ensures
        t == s,
        a matches AnswerView::Reply(r) && r.location is None && {
            &&& p == "/api/health"@ ==> r.status == 200 && r.body == text::lit("{\"ok\":true}")
            &&& p == "/"@ ==> (match cfg.ui {
                Some(page) => r.status == 200 && r.body == page && r.ctype == Some(
                    "text/html; charset=utf-8"@,
                ),
                None => r.status == 404,
            })
            &&& p == "/api/metrics"@ ==> r.status == 200 && r.body == metrics::snapshot_bytes(
                MetricsView { status: m0.status, ..m1 },
                now,
            )
            &&& p == "/metrics"@ ==> r.status == 200 && r.body == metrics::prometheus_bytes(
                MetricsView { status: m0.status, ..m1 },
                now,
            ) && r.ctype == Some("text/plain; version=0.0.4"@)
        },
{
    lemma_fixed_paths(q);
    reveal_strlit("/api/health");
    reveal_strlit("/api/metrics");
    reveal_strlit("/metrics");
    reveal_strlit("/");
    assert("/api/health"@.len() == 11 && "/api/metrics"@.len() == 12 && "/metrics"@.len() == 8
        && "/"@.len() == 1);
    let m = app::arrived(m0, now, "GET"@, p + seq!['?'] + q, allowed);
    assert(m1.links_total == m.links_total.wrapping_add(0));
    assert(m =~= MetricsView { status: m0.status, ..m1 });
}

/// What is asked by an unknown method, or of a path that is not there, is not found; and
/// a browser that asks first is let through. Nothing changes.
pub proof fn law_unknown_requests_find_nothing(
    s: StoreView,
    m0: MetricsView,
    cfg: ConfigView,
    now: i64,
    method: Seq<char>,
    path: Seq<char>,
    body: BodyView,
    token: Seq<char>,
    allowed: bool,
    o: OutcomeView,
    a: AnswerView,
    t: StoreView,
    m1: MetricsView,
)
    requires
        app::handled(s, m0, cfg, now, method, path, body, token, allowed, o, a, t, m1),
    ensures
        method == "OPTIONS"@ ==> app::status_of(a) == 204 && t == s,
        method != "OPTIONS"@ && method != "GET"@ && method != "POST"@ && method != "PATCH"@
            && method != "DELETE"@ ==> app::status_of(a) == 404 && t == s,
        method == "POST"@ && app::pathname(path) != "/api/shorten"@ && app::pathname(path)
            != "/api/shorten/bulk"@ ==> app::status_of(a) == 404 && t == s,
        (method == "PATCH"@ || method == "DELETE"@) && (app::pathname(path).len() < 11
            || app::pathname(path).take(11) != "/api/links/"@) ==> app::status_of(a) == 404 && t
            == s,
{
    app::lemma_methods();
    reveal_strlit("/api/links/");
    assert("/api/links/"@.len() == 11);
}

// ---------- what is counted ----------

/// A request is counted once under the operation that it is for, and its reply once under
/// the class of its status.
pub proof fn law_requests_are_counted_by_name(
    s: StoreView,
    m0: MetricsView,
    cfg: ConfigView,
    now: i64,
    method: Seq<char>,
    path: Seq<char>,
    body: BodyView,
    token: Seq<char>,
    allowed: bool,
    o: OutcomeView,
    a: AnswerView,
    t: StoreView,
    m1: MetricsView,
    i: int,
    j: int,
)
    requires
        metrics::whole(m0),
        app::handled(s, m0, cfg, now, method, path, body, token, allowed, o, a, t, m1),
        0 <= i < metrics::OPS,
        0 <= j < 4,
    ensures
        m1.total == m0.total.wrapping_add(1),
        m1.ops[i] == (if metrics::op_text(i) == op_for(app::route(method, app::pathname(path))) {
            m0.ops[i].wrapping_add(1)
        } else {
            m0.ops[i]
        }),
        m1.status[j] == (if j == 3 && !(200 <= app::status_of(a) < 500) || j < 3
            && app::status_of(a) / 100 == j + 2 {
            m0.status[j].wrapping_add(1)
        } else {
            m0.status[j]
        }),
{
    let m = app::arrived(m0, now, method, path, allowed);
    let route = app::route(method, app::pathname(path));
    assert(m1.ops == metrics::bumped(m0.ops, app::op_index(route)));
    assert(m1.status == metrics::bumped(m0.status, metrics::class_of(app::status_of(a))));
    lemma_op_counted(m0.ops, i, route);
    lemma_class_counted(m0.status, j, app::status_of(a));
}

proof fn lemma_op_counted(ops: Seq<i64>, i: int, r: Route)
    requires
        ops.len() == metrics::OPS,
        0 <= i < metrics::OPS,
    ensures
        metrics::bumped(ops, app::op_index(r))[i] == (if metrics::op_text(i) == op_for(r) {
            ops[i].wrapping_add(1)
        } else {
            ops[i]
        }),
{
    lemma_op_names();
}

proof fn lemma_class_counted(status: Seq<i64>, j: int, code: u16)
    requires
        status.len() == 4,
        0 <= j < 4,
    ensures
        metrics::bumped(status, metrics::class_of(code))[j] == (if j == 3 && !(200 <= code < 500)
            || j < 3 && code / 100 == j + 2 {
            status[j].wrapping_add(1)
        } else {
            status[j]
        }),
{
}

/// The name that a request is counted under.
pub open spec fn op_for(r: Route) -> Seq<char> {
    match r {
        Route::Redirect => "redirect"@,
        Route::Shorten => "shorten"@,
        Route::Bulk => "shorten_bulk"@,
        Route::Update => "update"@,
        Route::Remove => "delete"@,
        Route::List => "list"@,
        Route::Stats => "stats"@,
        Route::Health => "health"@,
        Route::Report => "metrics"@,
        Route::Exposition => "metrics"@,
        Route::Page => "ui"@,
        _ => "other"@,
    }
}

proof fn lemma_op_names()
    ensures
        forall|i: int, r: Route|
            0 <= i < metrics::OPS ==> (#[trigger] metrics::op_text(i) == #[trigger] op_for(r) <==> i
                == app::op_index(r)),
{
    reveal_strlit("redirect");
    reveal_strlit("shorten");
    reveal_strlit("shorten_bulk");
    reveal_strlit("update");
    reveal_strlit("delete");
    reveal_strlit("list");
    reveal_strlit("stats");
    reveal_strlit("health");
    reveal_strlit("metrics");
    reveal_strlit("ui");
    reveal_strlit("other");
    assert("redirect"@.len() == 8 && "shorten"@.len() == 7 && "shorten_bulk"@.len() == 12
        && "update"@.len() == 6 && "delete"@.len() == 6 && "list"@.len() == 4 && "stats"@.len() == 5
        && "health"@.len() == 6 && "metrics"@.len() == 7 && "ui"@.len() == 2 && "other"@.len()
        == 5);
    assert("update"@[0] == 'u' && "delete"@[0] == 'd' && "health"@[0] == 'h' && "stats"@[0] == 's'
        && "other"@[0] == 'o' && "shorten"@[0] == 's' && "metrics"@[0] == 'm');
}

proof fn lemma_as_many_more(
    rows: Map<Seq<char>, Row>,
    codes: Seq<Seq<char>>,
    urls: Seq<Seq<char>>,
    now: i64,
    exp: i64,
    instance: i32,
)
    requires
        rows.dom().finite(),
        forall|k: int| 0 <= k < codes.len() ==> !rows.contains_key(#[trigger] codes[k]),
        forall|j: int, k: int| 0 <= j < k < codes.len() ==> codes[j] != codes[k],
    ensures
        ({
            let m = store::many_rows(rows, codes, urls, now, exp, instance);
            m.dom().finite() && m.dom().len() == rows.dom().len() + codes.len()
        }),
    decreases codes.len(),
{
    if codes.len() > 0 {
        let front = codes.drop_last();
        assert forall|k: int| 0 <= k < front.len() implies !rows.contains_key(
            #[trigger] front[k],
        ) by {
            assert(front[k] == codes[k]);
        }
        lemma_as_many_more(rows, front, urls, now, exp, instance);
        let c = codes.last();
        assert(!front.contains(c)) by {
            if front.contains(c) {
                let k = choose|k: int| 0 <= k < front.len() && front[k] == c;
                assert(codes[k] == codes[codes.len() - 1]);
            }
        }
        assert(!rows.contains_key(codes[codes.len() - 1]));
        lemma_not_among(rows, front, urls, now, exp, instance, c);
        let before = store::many_rows(rows, front, urls, now, exp, instance);
        let all = store::many_rows(rows, codes, urls, now, exp, instance);
        assert(all.dom() =~= before.dom().insert(c));
    }
}

/// The number of links that is counted goes with the links that there are.
pub proof fn law_links_are_counted(
    s: StoreView,
    m0: MetricsView,
    cfg: ConfigView,
    now: i64,
    method: Seq<char>,
    path: Seq<char>,
    body: BodyView,
    token: Seq<char>,
    allowed: bool,
    o: OutcomeView,
    a: AnswerView,
    t: StoreView,
    m1: MetricsView,
)
    requires
        s.rows.dom().finite(),
        app::handled(s, m0, cfg, now, method, path, body, token, allowed, o, a, t, m1),
        i64::MIN + 1 <= m0.links_total <= i64::MAX - 10000,
    ensures
        m1.links_total - m0.links_total == t.rows.dom().len() - s.rows.dom().len(),
{
    let m = app::arrived(m0, now, method, path, allowed);
    let p = app::plan_of(cfg, m, now, method, path, body, token, allowed);
    app::law_only_valid_links_are_stored(cfg, m, now, method, path, body, token, allowed);
    match (p, o) {
        (PlanView::Bulk { urls, ttl_ms }, OutcomeView::CreatedMany(codes)) => {
            lemma_as_many_more(
                s.rows,
                codes,
                urls,
                now,
                store::expiry(now, ttl_ms),
                s.instance,
            );
        },
        (PlanView::Resolve { code }, _) => {
            if s.rows.contains_key(code) {
                assert(store::counted(s, code).rows.dom() =~= s.rows.dom());
            }
        },
        (PlanView::Update { code, .. }, _) => {
            if t != s {
                assert(t.rows.dom() =~= s.rows.dom());
            }
        },
        _ => {},
    }
}

// ---------- what is answered ----------

/// The answer to a bulk request lists the codes in order, each in quotes, with commas
/// between them, and says how many there are.
pub proof fn law_bulk_answer_lists_the_codes(
    a: Seq<Seq<char>>,
    c: Seq<char>,
    b: Seq<Seq<char>>,
)
    ensures
        app::quoted_list(a + seq![c] + b) == (if a.len() == 0 {
            Seq::empty()
        } else {
            app::quoted_list(a) + seq![44u8]
        }) + seq![34u8] + encode_utf8(c) + seq![34u8] + (if b.len() == 0 {
            Seq::empty()
        } else {
            seq![44u8] + app::quoted_list(b)
        }),
        led_by(
            app::bulk_body(b),
            text::lit("{\"count\":") + text::decimal(b.len() as int) + text::lit(",\"codes\":[")
                + app::quoted_list(b),
        ),
    decreases b.len(),
{
    let all = a + seq![c] + b;
    let front = (if a.len() == 0 {
        Seq::empty()
    } else {
        app::quoted_list(a) + seq![44u8]
    }) + seq![34u8] + encode_utf8(c) + seq![34u8];
    if b.len() == 0 {
        assert(all.drop_last() =~= a);
        assert(all.last() == c);
        assert(app::quoted_list(all) =~= front + Seq::<u8>::empty());
    } else {
        let rest = b.drop_last();
        law_bulk_answer_lists_the_codes(a, c, rest);
        assert(all.drop_last() =~= a + seq![c] + rest);
        assert(all.last() == b.last());
        let last = seq![34u8] + encode_utf8(b.last()) + seq![34u8];
        assert(all.len() > 1);
        assert(app::quoted_list(all) =~= app::quoted_list(all.drop_last()) + seq![44u8] + last);
        if rest.len() == 0 {
            assert(app::quoted_list(rest) =~= Seq::empty());
            assert(app::quoted_list(b) =~= last);
            assert(app::quoted_list(all) =~= front + (seq![44u8] + app::quoted_list(b)));
        } else {
            assert(app::quoted_list(b) =~= app::quoted_list(rest) + seq![44u8] + last);
            assert(app::quoted_list(all) =~= front + (seq![44u8] + app::quoted_list(b)));
        }
    }
    let x = text::lit("{\"count\":") + text::decimal(b.len() as int) + text::lit(",\"codes\":[")
        + app::quoted_list(b);
    assert(x + text::lit("]}") == app::bulk_body(b));
}

/// The answer to a request for a link names its code, and the path that leads to it.
pub proof fn law_answer_names_the_code(c: Seq<char>)
    ensures
        app::created_body(encode_utf8(c)) == text::lit("{\"code\":\"") + encode_utf8(c)
            + text::lit("\",\"short_url\":\"") + encode_utf8(short_path(c)) + text::lit("\"}"),
{
    reveal_strlit("\",\"short_url\":\"/");
    reveal_strlit("\",\"short_url\":\"");
    let a = "\",\"short_url\":\"/"@;
    let b = "\",\"short_url\":\""@;
    assert(a =~= b + seq!['/']);
    text::lemma_bytes_concat(b, seq!['/']);
    text::lemma_bytes_concat(seq!['/'], c);
    assert(app::created_body(encode_utf8(c)) =~= text::lit("{\"code\":\"") + encode_utf8(c)
        + text::lit("\",\"short_url\":\"") + encode_utf8(short_path(c)) + text::lit("\"}"));
}

// ---------- what is asked of any store ----------

/// A request for a link asks the store for it with just the lifetime that it gives, if that
/// is a whole number of ms up to the longest; so does one that changes a link.
pub proof fn law_lifetime_is_the_one_asked_for(
    cfg: ConfigView,
    m: MetricsView,
    now: i64,
    url: Seq<char>,
    alias: Option<Seq<char>>,
    code: Seq<char>,
    n: i64,
    token: Seq<char>,
    allowed: bool,
)
    requires
        1 <= n <= cfg.link_ttl_ms,
        app::is_web_url(url),
        alias matches Some(x) ==> app::is_code(x),
        app::is_code(code),
        cfg.admin == Some(token),
        token.len() > 0,
    ensures
        ({
            let ttl_ms = Some(Ttl { low: false, ms: n });
            &&& app::plan_of(
                cfg,
                m,
                now,
                "POST"@,
                "/api/shorten"@,
                BodyView::Shorten { url: Some(url), alias, ttl_ms },
                token,
                true,
            ) == (PlanView::Shorten { url, alias, ttl_ms: n })
            &&& app::plan_of(
                cfg,
                m,
                now,
                "PATCH"@,
                admin_path(code),
                BodyView::Patch { url: Some(url), ttl_ms },
                token,
                allowed,
            ) == (PlanView::Update { code, url, ttl_ms: n, has_ttl: true })
            &&& app::plan_of(
                cfg,
                m,
                now,
                "PATCH"@,
                admin_path(code),
                BodyView::Patch { url: Some(url), ttl_ms: None },
                token,
                allowed,
            ) matches PlanView::Update { has_ttl, .. } && !has_ttl
            &&& app::plan_of(
                cfg,
                m,
                now,
                "DELETE"@,
                admin_path(code),
                BodyView::Unread,
                token,
                allowed,
            ) == (PlanView::Remove { code })
        }),
{
    lemma_shorten_path();
    lemma_admin_path(code);
}

/// A request for 1 to 10000 links, none of which may not be held, asks the store for all of
/// them, with the longest lifetime.
pub proof fn law_bulk_request_is_taken(
    cfg: ConfigView,
    m: MetricsView,
    now: i64,
    urls: Seq<Seq<char>>,
    token: Seq<char>,
)
    requires
        1 <= urls.len() <= 10000,
        forall|k: int| 0 <= k < urls.len() ==> app::is_bulk_url(#[trigger] urls[k]),
    ensures
        app::plan_of(
            cfg,
            m,
            now,
            "POST"@,
            "/api/shorten/bulk"@,
            BodyView::Bulk { urls: Some(urls) },
            token,
            true,
        ) == (PlanView::Bulk { urls, ttl_ms: cfg.link_ttl_ms }),
{
    lemma_shorten_path();
}

/// Every request can be served whose path begins with a single-byte character, and so can
/// every one that is no GET.
pub proof fn law_usual_requests_are_served(method: Seq<char>, p: Seq<char>, q: Seq<char>)
    requires
        !p.contains('?'),
    ensures
        p.len() > 0 && p[0] == '/' ==> app::servable(method, p) && app::servable(
            method,
            p + seq!['?'] + q,
        ),
        method != "GET"@ ==> app::servable(method, p),
{
    law_query_stands_behind_the_path(p, q);
}

/// A code is looked for among siblings exactly if it is to be resolved, the store lasts, and
/// it has no such link, expired or not.
pub proof fn law_missing_codes_are_looked_for(s: StoreView, code: Seq<char>, p: PlanView)
    ensures
        app::misses(s, PlanView::Resolve { code }) <==> s.log is Some && !s.rows.contains_key(code),
        !(p is Resolve) ==> !app::misses(s, p),
{
}

} // verus!
