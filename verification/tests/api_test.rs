//! The requests, by both servers.

use std::collections::HashSet;

use serde_json::Value;
use shrt::app::{
    arrive, body_for, can_serve, cors_origin, cost_of, handle_at, link_ttl_ms, missed, needs_body,
    patch_one, plan,
    too_large, Answer, Body, BulkReq, Config, PatchReq, Plan, Reply, Route, ShortenReq, Ttl,
};
use shrt::metrics::{init, prometheus, Metrics};
use shrt::ratelimit::{ip_key, shard_of, Shard};
use shrt::server_hyper::{client_ip, response_headers, Intake};
use shrt::server_mini::{Conn, Step};
use shrt::store::{now_ms, Link, Store};

struct Resp {
    status: u16,
    headers: Vec<(String, String)>,
    body: Vec<u8>,
}

impl Resp {
    fn header(&self, k: &str) -> Option<&str> {
        self.headers
            .iter()
            .find(|(h, _)| h.eq_ignore_ascii_case(k))
            .map(|(_, v)| v.as_str())
    }
    fn json(&self) -> Value {
        serde_json::from_slice(&self.body).expect("json body")
    }
}

fn opt_string(v: Option<&Value>) -> Option<Option<String>> {
    match v {
        None | Some(Value::Null) => Some(None),
        Some(Value::String(s)) => Some(Some(s.clone())),
        _ => None,
    }
}

fn opt_ttl(v: Option<&Value>) -> Option<Option<Ttl>> {
    match v {
        None | Some(Value::Null) => Some(None),
        Some(Value::Number(n)) => {
            let t = n.as_f64().unwrap();
            Some(Some(Ttl { low: t <= 0.0, ms: t as i64 }))
        }
        _ => None,
    }
}

fn shorten_body_of(v: &Value) -> Option<Body> {
    let o = v.as_object()?;
    Some(Body::Shorten(ShortenReq {
        url: opt_string(o.get("url"))?,
        alias: opt_string(o.get("alias"))?,
        ttl_ms: opt_ttl(o.get("ttl_ms"))?,
    }))
}

fn bulk_body_of(v: &Value) -> Option<Body> {
    let o = v.as_object()?;
    let urls = match o.get("urls") {
        None | Some(Value::Null) => None,
        Some(Value::Array(a)) => {
            let mut urls = Vec::new();
            for u in a {
                urls.push(u.as_str()?.to_string());
            }
            Some(urls)
        }
        _ => return None,
    };
    Some(Body::Bulk(BulkReq { urls }))
}

fn patch_body_of(v: &Value) -> Option<Body> {
    let o = v.as_object()?;
    Some(Body::Patch(PatchReq {
        url: opt_string(o.get("url"))?,
        ttl_ms: opt_ttl(o.get("ttl_ms"))?,
    }))
}

/// Reads the body of a request.
fn read_body(method: &str, path: &str, raw: &[u8]) -> Body {
    let v: Value = match serde_json::from_slice(raw) {
        Ok(v) => v,
        Err(_) => return Body::Unread,
    };
    let body = match body_for(method, path) {
        Route::Shorten => shorten_body_of(&v),
        Route::Bulk => bulk_body_of(&v),
        Route::Update => patch_body_of(&v),
        _ => None,
    };
    body.unwrap_or(Body::Unread)
}

fn link_json(l: &Link) -> Value {
    let mut o = serde_json::Map::new();
    o.insert("code".to_string(), Value::from(l.code.as_str()));
    o.insert("url".to_string(), Value::from(l.url.as_str()));
    o.insert("hits".to_string(), Value::from(l.hits));
    o.insert("created_at".to_string(), Value::from(l.created_at));
    o.insert(
        "expires_at".to_string(),
        match l.expires_at {
            Some(e) => Value::from(e),
            None => Value::Null,
        },
    );
    Value::Object(o)
}

fn reply_of(a: Answer) -> Reply {
    match a {
        Answer::Reply(r) => r,
        Answer::Link(l) => Reply::new(200, link_json(&l).to_string().into_bytes()),
        Answer::Links(links, total) => {
            let mut o = serde_json::Map::new();
            o.insert("total".to_string(), Value::from(total as u64));
            o.insert("links".to_string(), Value::Array(links.iter().map(link_json).collect()));
            Reply::new(200, Value::Object(o).to_string().into_bytes())
        }
    }
}

/// A limit of `burst` tokens for each client, of which one comes back each second.
struct Limit {
    shards: Vec<Shard>,
    tokens: std::collections::HashMap<u64, f64>,
    burst: f64,
}

impl Limit {
    fn allow(&mut self, ip: &str, cost: f64, now: u64) -> bool {
        if cost == 0.0 {
            return true;
        }
        let k = ip_key(ip);
        let (gone, seen) = self.shards[shard_of(k)].visit(k, now);
        for g in gone {
            self.tokens.remove(&g);
        }
        let burst = self.burst;
        let t = self.tokens.entry(k).or_insert(burst);
        if let Some(ms) = seen {
            *t = (*t + ms as f64 / 1000.0).min(burst);
        }
        if *t >= cost {
            *t -= cost;
            true
        } else {
            false
        }
    }
}

struct Server {
    hyper: bool,
    st: Store,
    mx: Metrics,
    cfg: Config,
    limit: Option<Limit>,
    now: i64,
}

impl Server {
    fn new(hyper: bool) -> Server {
        let mut mx = Metrics::new();
        let now = now_ms();
        init(&mut mx, now);
        Server {
            hyper,
            st: Store::new(":memory:", -1, None).unwrap(),
            mx,
            cfg: Config {
                link_ttl_ms: link_ttl_ms(None),
                admin: None,
                ui: Some(b"<html><title>shrt</title></html>".to_vec()),
            },
            limit: None,
            now,
        }
    }

    fn handle(&mut self, method: &str, path: &str, raw: &[u8], token: &str, ip: &str) -> Reply {
        assert!(can_serve(method, path));
        let body = read_body(method, path, raw);
        let cost = cost_of(method, path, &body) as f64;
        let now = self.now;
        let allowed = match &mut self.limit {
            Some(l) => l.allow(ip, cost, now as u64),
            None => true,
        };
        let a = handle_at(
            &mut self.st,
            &mut self.mx,
            &self.cfg,
            now,
            method,
            path,
            &body,
            token,
            allowed,
        );
        reply_of(a)
    }

    /// Sends bytes over a new connection of the small server; gives back all that it
    /// sends, and whether it closed.
    fn send(&mut self, raw: &[u8]) -> (Vec<u8>, bool) {
        let mut conn = Conn::new(&cors_origin(None));
        let mut out = Vec::new();
        conn.receive(raw);
        loop {
            match conn.next() {
                Step::Answer(c) => {
                    let r = self.handle(&c.method, &c.path, &c.body, &c.token, "9.9.9.9");
                    conn.reply(&r);
                }
                Step::Send { close } => {
                    out.extend(conn.take());
                    return (out, close);
                }
                Step::Drop => return (out, true),
            }
        }
    }

    /// Answers a request as the hyper server does.
    fn serve(
        &mut self,
        method: &str,
        path: &str,
        headers: &[(&str, &str)],
        body: &[u8],
    ) -> Resp {
        let find = |name: &str| headers.iter().find(|(k, _)| *k == name).map(|(_, v)| *v);
        let token = find("x-admin-token").unwrap_or("").to_string();
        let ip = client_ip(false, find("x-forwarded-for"), "9.9.9.9");
        let mut intake = Intake::new(path);
        if needs_body(method) {
            for chunk in body.chunks(1000) {
                if !intake.add(chunk) {
                    break;
                }
            }
        }
        let r = match intake.finish() {
            Some(b) => self.handle(method, path, &b, &token, &ip),
            None => too_large(),
        };
        Resp {
            status: r.status,
            headers: response_headers(&r, &cors_origin(None)),
            body: r.body,
        }
    }
}

fn split(raw: Vec<u8>) -> Resp {
    let split = raw
        .windows(4)
        .position(|w| w == b"\r\n\r\n")
        .expect("header end");
    let head = String::from_utf8_lossy(&raw[..split]).to_string();
    let body = raw[split + 4..].to_vec();
    let mut lines = head.lines();
    let status: u16 = lines
        .next()
        .and_then(|l| l.split_whitespace().nth(1))
        .and_then(|s| s.parse().ok())
        .unwrap_or(0);
    let headers: Vec<(String, String)> = lines
        .filter_map(|l| l.split_once(':'))
        .map(|(k, v)| (k.trim().to_string(), v.trim().to_string()))
        .collect();
    Resp {
        status,
        headers,
        body,
    }
}

/// One request over a connection of its own.
fn req(s: &mut Server, method: &str, path: &str, headers: &[(&str, &str)], body: Option<&[u8]>) -> Resp {
    let b = body.unwrap_or(b"");
    if s.hyper {
        return s.serve(method, path, headers, b);
    }
    let mut r = format!("{method} {path} HTTP/1.1\r\nHost: x\r\nConnection: close\r\n");
    for (k, v) in headers {
        r.push_str(&format!("{k}: {v}\r\n"));
    }
    if !b.is_empty() {
        r.push_str(&format!("content-length: {}\r\n", b.len()));
    }
    r.push_str("\r\n");
    let mut raw = r.into_bytes();
    raw.extend_from_slice(b);
    let (out, close) = s.send(&raw);
    assert!(close);
    split(out)
}

fn get(s: &mut Server, path: &str) -> Resp {
    req(s, "GET", path, &[], None)
}

fn post(s: &mut Server, path: &str, body: &str) -> Resp {
    req(
        s,
        "POST",
        path,
        &[("content-type", "application/json")],
        Some(body.as_bytes()),
    )
}

fn shorten(s: &mut Server, url: &str) -> String {
    let r = post(s, "/api/shorten", &format!("{{\"url\":\"{url}\"}}"));
    assert_eq!(r.status, 201, "shorten {url} -> {}", r.status);
    r.json()["code"].as_str().unwrap().to_string()
}

fn shorten_body(s: &mut Server, body: &str) -> String {
    let r = post(s, "/api/shorten", body);
    assert_eq!(r.status, 201);
    r.json()["code"].as_str().unwrap().to_string()
}

/// Runs a suite against each server.
fn run_suite(f: impl Fn(&mut Server)) {
    for hyper in [false, true] {
        f(&mut Server::new(hyper));
    }
}

#[test]
fn health() {
    run_suite(|s| {
        let r = get(s, "/api/health");
        assert_eq!(r.status, 200);
        assert_eq!(r.json()["ok"], true);
    });
}

#[test]
fn metrics() {
    run_suite(|s| {
        let r = get(s, "/api/metrics");
        assert_eq!(r.status, 200);
        let m = r.json();
        assert!(m["req_s"].is_f64() || m["req_s"].is_u64() || m["req_s"].is_i64());
        assert!(m["total"].as_i64().unwrap_or(0) >= 1, "total not counting");
        assert_eq!(m["per_second"].as_array().unwrap().len(), 31);
    });
}

#[test]
fn prometheus_metrics() {
    run_suite(|s| {
        shorten(s, "https://prom.example");
        let r = get(s, "/metrics");
        assert_eq!(r.status, 200);
        assert_eq!(
            r.header("content-type").unwrap(),
            "text/plain; version=0.0.4"
        );
        let body = String::from_utf8_lossy(&r.body);
        assert!(
            body.contains("# TYPE shrt_requests_total counter"),
            "{body}"
        );
        assert!(
            body.contains("shrt_requests_total{op=\"shorten\"}"),
            "{body}"
        );
        assert!(
            body.contains("shrt_cache_lookups_total{result=\"miss\"}"),
            "{body}"
        );
        assert!(body.contains("shrt_links_total"), "{body}");
        assert!(body.contains("shrt_uptime_seconds"), "{body}");
        assert!(body.contains("shrt_rate_limited_total"), "{body}");
    });
}

#[test]
fn ui_served() {
    run_suite(|s| {
        let r = get(s, "/");
        assert_eq!(r.status, 200);
        assert!(r.header("content-type").unwrap_or("").contains("text/html"));
        assert!(String::from_utf8_lossy(&r.body).contains("<title>shrt"));
    });
}

#[test]
fn shorten_redirect_stats_flow() {
    run_suite(|s| {
        let r = post(
            s,
            "/api/shorten",
            "{\"url\":\"https://example.com/some/path\"}",
        );
        assert_eq!(r.status, 201);
        let m = r.json();
        let code = m["code"].as_str().unwrap();
        assert_eq!(m["short_url"].as_str().unwrap(), format!("/{code}"));

        let redir = get(s, &format!("/{code}"));
        assert_eq!(redir.status, 302);
        assert_eq!(
            redir.header("location").unwrap(),
            "https://example.com/some/path"
        );

        let st = get(s, &format!("/api/stats/{code}")).json();
        assert_eq!(st["url"], "https://example.com/some/path");
        assert_eq!(st["hits"].as_i64().unwrap(), 1);
    });
}

#[test]
fn ttl_defaults_and_cap() {
    run_suite(|s| {
        const DAY: f64 = 86_400_000.0;
        let now = now_ms() as f64;

        let code = shorten(s, "https://ttl-default.example");
        let st = get(s, &format!("/api/stats/{code}")).json();
        let d = st["expires_at"].as_f64().unwrap() - (now + DAY);
        assert!(d.abs() < 5000.0, "default ttl off by {d}");

        let r = post(
            s,
            "/api/shorten",
            &format!(
                "{{\"url\":\"https://ttl-cap.example\",\"ttl_ms\":{}}}",
                (365.0 * DAY) as i64
            ),
        );
        let code2 = r.json()["code"].as_str().unwrap().to_string();
        let st2 = get(s, &format!("/api/stats/{code2}")).json();
        let d = st2["expires_at"].as_f64().unwrap() - (now + DAY);
        assert!(d.abs() < 5000.0, "capped ttl off by {d}");

        let code3 = shorten_body(
            s,
            "{\"url\":\"https://ttl-short.example\",\"ttl_ms\":5000}",
        );
        let st3 = get(s, &format!("/api/stats/{code3}")).json();
        let d = st3["expires_at"].as_f64().unwrap() - (now + 5000.0);
        assert!(d.abs() < 5000.0, "short ttl off by {d}");
    });
}

#[test]
fn custom_alias() {
    run_suite(|s| {
        let r = post(
            s,
            "/api/shorten",
            "{\"url\":\"https://a.com\",\"alias\":\"cool\"}",
        );
        assert_eq!(r.status, 201);
        let redir = get(s, "/cool");
        assert_eq!(redir.header("location").unwrap(), "https://a.com");
        let dup = post(
            s,
            "/api/shorten",
            "{\"url\":\"https://b.com\",\"alias\":\"cool\"}",
        );
        assert_eq!(dup.status, 409);
    });
}

#[test]
fn rejects_invalid_url() {
    run_suite(|s| {
        for u in ["notaurl", "ftp://x.com", "javascript:alert(1)"] {
            let r = post(s, "/api/shorten", &format!("{{\"url\":\"{u}\"}}"));
            assert_eq!(r.status, 400, "{u} -> {}", r.status);
        }
    });
}

#[test]
fn rejects_invalid_json_and_missing_url() {
    run_suite(|s| {
        for b in ["{bad", "{}"] {
            let r = post(s, "/api/shorten", b);
            assert_eq!(r.status, 400, "{b} -> {}", r.status);
        }
    });
}

#[test]
fn not_found() {
    run_suite(|s| {
        for p in ["/zzz", "/api/stats/zzz", "/a/b/c"] {
            assert_eq!(get(s, p).status, 404, "{p}");
        }
    });
}

#[test]
fn api_test_bulk_shorten() {
    run_suite(|s| {
        let urls: Vec<String> = (0..50)
            .map(|i| format!("https://bulk.example/{i}"))
            .collect();
        let mut o = serde_json::Map::new();
        o.insert("urls".to_string(), Value::from(urls.clone()));
        let body = Value::Object(o).to_string();
        let r = post(s, "/api/shorten/bulk", &body);
        assert_eq!(r.status, 201);
        let m = r.json();
        assert_eq!(m["count"].as_i64().unwrap(), 50);
        let codes = m["codes"].as_array().unwrap();
        let seen: HashSet<&str> = codes.iter().map(|c| c.as_str().unwrap()).collect();
        assert_eq!(seen.len(), 50, "dup codes");
        let redir = get(s, &format!("/{}", codes[10].as_str().unwrap()));
        assert_eq!(redir.header("location").unwrap(), urls[10]);
    });
}

#[test]
fn bulk_rejects_bad_input() {
    run_suite(|s| {
        for urls in [
            "[]",
            "[\"ftp://x\"]",
            "[\"https://ok.com\",\"nope\"]",
            "\"notarray\"",
        ] {
            let r = post(s, "/api/shorten/bulk", &format!("{{\"urls\":{urls}}}"));
            assert_eq!(r.status, 400, "{urls} -> {}", r.status);
        }
    });
}

#[test]
fn rejects_oversized_body() {
    run_suite(|s| {
        let big = format!("{{\"url\":\"https://x.com/{}\"}}", "a".repeat(5000));
        let r = post(s, "/api/shorten", &big);
        assert!(
            r.status == 400 || r.status == 413,
            "oversized -> {}",
            r.status
        );
    });
}

#[test]
fn cors() {
    run_suite(|s| {
        let pre = req(s, "OPTIONS", "/api/shorten", &[], None);
        assert_eq!(pre.status, 204);
        assert_eq!(pre.header("access-control-allow-origin").unwrap(), "*");
        assert!(pre
            .header("access-control-allow-methods")
            .unwrap_or("")
            .contains("DELETE"));
        let r = get(s, "/api/health");
        assert_eq!(r.header("access-control-allow-origin").unwrap(), "*");
    });
}

#[test]
fn list_pagination_sort_search() {
    run_suite(|s| {
        shorten(s, "https://list-one.example");
        shorten(s, "https://list-two.example");

        let m = get(s, "/api/links?limit=5&offset=0").json();
        assert!(m["total"].as_i64().unwrap() >= 1);
        let links = m["links"].as_array().unwrap();
        assert!(!links.is_empty() && links.len() <= 5);
        let first = &links[0];
        assert!(first["code"].is_string() && first["url"].is_string());

        let sm = get(s, "/api/links?q=list-one").json();
        for l in sm["links"].as_array().unwrap() {
            let (u, c) = (l["url"].as_str().unwrap(), l["code"].as_str().unwrap());
            assert!(u.contains("list-one") || c.contains("list-one"), "q filter");
        }

        let tm = get(s, "/api/links?sort=hits&limit=3").json();
        let mut prev = i64::MAX;
        for l in tm["links"].as_array().unwrap() {
            let h = l["hits"].as_i64().unwrap();
            assert!(h <= prev, "hits not sorted desc");
            prev = h;
        }
    });
}

#[test]
fn admin_mutations() {
    run_suite(|s| {
        s.cfg.admin = None;
        let code = shorten(s, "https://before.example");

        let r = req(s, "DELETE", &format!("/api/links/{code}"), &[], None);
        assert_eq!(r.status, 404, "delete without token {}", r.status);

        s.cfg.admin = Some("".to_string());
        let r0 = req(
            s,
            "DELETE",
            &format!("/api/links/{code}"),
            &[("x-admin-token", "")],
            None,
        );
        assert_eq!(r0.status, 404, "delete empty token {}", r0.status);

        s.cfg.admin = Some("secret".to_string());

        let r2 = req(
            s,
            "DELETE",
            &format!("/api/links/{code}"),
            &[("x-admin-token", "wrong")],
            None,
        );
        assert_eq!(r2.status, 404, "delete wrong token {}", r2.status);

        let pr = req(
            s,
            "PATCH",
            &format!("/api/links/{code}"),
            &[
                ("content-type", "application/json"),
                ("x-admin-token", "secret"),
            ],
            Some(b"{\"url\":\"https://after.example\",\"ttl_ms\":60000}"),
        );
        assert_eq!(pr.status, 200, "patch {}", pr.status);
        let redir = get(s, &format!("/{code}"));
        assert_eq!(redir.header("location").unwrap(), "https://after.example");
        let st = get(s, &format!("/api/stats/{code}")).json();
        assert!(
            st["expires_at"].as_i64().unwrap() > now_ms(),
            "ttl not applied"
        );

        let br = req(
            s,
            "PATCH",
            &format!("/api/links/{code}"),
            &[
                ("content-type", "application/json"),
                ("x-admin-token", "secret"),
            ],
            Some(b"{\"url\":\"notaurl\"}"),
        );
        assert_eq!(br.status, 400, "patch bad url {}", br.status);

        let nr = req(
            s,
            "PATCH",
            "/api/links/nope",
            &[("x-admin-token", "secret")],
            Some(b"{}"),
        );
        assert_eq!(nr.status, 400, "patch empty {}", nr.status);
    });
}

#[test]
fn delete_removes_and_frees_alias() {
    run_suite(|s| {
        s.cfg.admin = Some("secret".to_string());

        let r = post(
            s,
            "/api/shorten",
            "{\"url\":\"https://del.example\",\"alias\":\"todelete\"}",
        );
        assert_eq!(r.status, 201, "create");

        let dr = req(
            s,
            "DELETE",
            "/api/links/todelete",
            &[("x-admin-token", "secret")],
            None,
        );
        assert_eq!(dr.status, 204, "delete {}", dr.status);
        assert_eq!(get(s, "/todelete").status, 404, "deleted still resolves");
        let dr2 = req(
            s,
            "DELETE",
            "/api/links/todelete",
            &[("x-admin-token", "secret")],
            None,
        );
        assert_eq!(dr2.status, 404, "re-delete");
        let reuse = post(
            s,
            "/api/shorten",
            "{\"url\":\"https://new.example\",\"alias\":\"todelete\"}",
        );
        assert_eq!(reuse.status, 201, "alias not freed");
    });
}

#[test]
fn per_ip_rate_limit_on_shorten() {
    run_suite(|s| {
        s.limit = Some(Limit {
            shards: (0..64).map(|_| Shard::new()).collect(),
            tokens: std::collections::HashMap::new(),
            burst: 2.0,
        });
        let body = r#"{"url":"https://rl.example"}"#;
        assert_eq!(post(s, "/api/shorten", body).status, 201);
        assert_eq!(post(s, "/api/shorten", body).status, 201);
        assert_eq!(post(s, "/api/shorten", body).status, 429, "burst exhausted");
        assert_eq!(get(s, "/nope").status, 404);
        let bulk = r#"{"urls":["https://rl.example","https://rl.example"]}"#;
        s.now += 1500;
        assert_eq!(post(s, "/api/shorten/bulk", bulk).status, 429);
        assert_eq!(post(s, "/api/shorten", body).status, 201);
    });
}

#[test]
fn pipelined_requests_are_answered_in_order() {
    let mut s = Server::new(false);
    s.st.shorten("https://one.example", Some("one"), 0);
    s.st.shorten("https://two.example", Some("two"), 0);
    let raw = b"GET /one HTTP/1.1\r\nhost: x\r\n\r\nGET /two HTTP/1.1\r\nhost: x\r\n\r\nGET /th";
    let (out, close) = s.send(raw);
    assert!(!close);
    let text = String::from_utf8(out.clone()).unwrap();
    let one = text.find("location: https://one.example").unwrap();
    let two = text.find("location: https://two.example").unwrap();
    assert!(one < two);
    assert_eq!(text.matches("HTTP/1.1 302 Found").count(), 2);
    let end = match shrt::bench::read_resp(&out, 0, false) {
        shrt::bench::Reading::Whole(302, end) => end,
        _ => panic!("first reply"),
    };
    match shrt::bench::read_resp(&out, end, false) {
        shrt::bench::Reading::Whole(302, end) => assert_eq!(end, out.len()),
        _ => panic!("second reply"),
    }
}

#[test]
fn nothing_is_answered_behind_the_last_request() {
    let mut s = Server::new(false);
    let raw = b"GET /a HTTP/1.0\r\n\r\nGET /b HTTP/1.1\r\n\r\n";
    let (out, close) = s.send(raw);
    assert!(close);
    assert_eq!(String::from_utf8(out).unwrap().matches("HTTP/1.1 404").count(), 1);
}

#[test]
fn a_body_that_is_not_all_there_is_waited_for() {
    let mut s = Server::new(false);
    let mut conn = Conn::new("*");
    conn.receive(b"POST /api/shorten HTTP/1.1\r\ncontent-length: 25\r\n\r\n{\"url\":");
    assert!(matches!(conn.next(), Step::Send { close: false }));
    conn.receive(b"\"https://a.com/p\"}");
    match conn.next() {
        Step::Answer(c) => {
            assert_eq!(c.body, b"{\"url\":\"https://a.com/p\"}");
            let r = s.handle(&c.method, &c.path, &c.body, &c.token, "1.1.1.1");
            assert_eq!(r.status, 201);
        }
        _ => panic!("not answered"),
    }
    conn.receive(b"");
    assert!(matches!(conn.next(), Step::Send { close: true }));
}

#[test]
fn a_malformed_request_is_dropped() {
    let mut s = Server::new(false);
    let (out, close) = s.send(b"GET / HTTP/1.1\r\nbad header\r\n\r\n");
    assert!(close);
    assert!(out.is_empty());
}

#[test]
fn too_many_headers_are_dropped() {
    let mut s = Server::new(false);
    let mut ok = "GET /api/health HTTP/1.1\r\n".to_string();
    for i in 0..24 {
        ok.push_str(&format!("h{i}: x\r\n"));
    }
    let more = format!("{ok}h24: x\r\n\r\n");
    ok.push_str("\r\n");
    assert!(String::from_utf8(s.send(ok.as_bytes()).0).unwrap().starts_with("HTTP/1.1 200 OK"));
    assert!(s.send(more.as_bytes()).0.is_empty());
}

#[test]
fn an_oversized_body_is_refused_at_once() {
    let mut s = Server::new(false);
    let raw = b"POST /api/shorten HTTP/1.1\r\ncontent-length: 4097\r\n\r\n";
    let (out, close) = s.send(raw);
    assert!(close);
    let r = split(out);
    assert_eq!(r.status, 413);
    assert_eq!(r.body, b"{\"error\":\"body too large\"}");
    let (out, close) = s.send(b"POST /api/shorten/bulk HTTP/1.1\r\ncontent-length: 4097\r\n\r\n");
    assert!(out.is_empty() && !close);
}

#[test]
fn a_reply_has_these_bytes() {
    let mut out = Vec::new();
    let r = Reply {
        status: 404,
        location: None,
        body: b"{}".to_vec(),
        ctype: None,
    };
    shrt::server_mini::write_reply(&mut out, &r, "*");
    assert_eq!(
        String::from_utf8(out).unwrap(),
        "HTTP/1.1 404 Not Found\r\naccess-control-allow-origin: *\r\naccess-control-allow-methods: GET,POST,PATCH,DELETE,OPTIONS\r\naccess-control-allow-headers: content-type\r\naccess-control-max-age: 86400\r\ncontent-type: application/json\r\ncontent-length: 2\r\n\r\n{}"
    );
    assert_eq!(shrt::server_mini::status_line(418), "HTTP/1.1 500 Internal Server Error\r\n");
}

#[test]
fn an_error_has_its_body() {
    run_suite(|s| {
        let r = post(s, "/api/shorten", "{\"url\":\"https://a.com\",\"alias\":\"a b\"}");
        assert_eq!((r.status, r.body), (400, b"{\"error\":\"invalid alias\"}".to_vec()));
        let r = post(s, "/api/shorten", "{\"url\":\"https://a.com\",\"ttl_ms\":0}");
        assert_eq!((r.status, r.body), (400, b"{\"error\":\"invalid ttl_ms\"}".to_vec()));
        let r = post(s, "/api/shorten", "nojson");
        assert_eq!((r.status, r.body), (400, b"{\"error\":\"invalid json\"}".to_vec()));
        let r = get(s, "/missing");
        assert_eq!((r.status, r.body), (404, b"{\"error\":\"not found\"}".to_vec()));
    });
}

#[test]
fn a_query_is_decoded() {
    run_suite(|s| {
        s.st.shorten("https://a.example/x+y z", Some("aa"), 0);
        s.st.shorten("https://b.example", Some("bb"), 0);
        let m = get(s, "/api/links?q=x%2By+z&limit=99999").json();
        assert_eq!(m["total"], 1);
        assert_eq!(m["links"][0]["code"], "aa");
    });
}

#[test]
fn urls_are_checked() {
    for u in ["http://a.com", "HTTPS://A.COM/x", "https://[::1]/"] {
        assert!(shrt::app::is_valid_url(u), "{u}");
    }
    for u in ["", "https://", "mailto:a@b.c", "//a.com", "https//a.com"] {
        assert!(!shrt::app::is_valid_url(u), "{u}");
    }
    assert!(shrt::app::ok_bulk_url("https://a.com"));
    assert!(!shrt::app::ok_bulk_url("https://a.com/\""));
}

#[test]
fn a_miss_is_known_before_it_is_answered() {
    let mut s = Server::new(false);
    s.st = Store::new("dir", 0, None).unwrap();
    s.st.shorten("https://a.com", Some("here"), 0);
    for (path, want) in [("/here", None), ("/gone", Some("gone"))] {
        let p = plan(&s.cfg, &s.mx, s.now, "GET", path, &Body::Unread, "", true);
        assert!(matches!(p, Plan::Resolve { .. }));
        assert_eq!(missed(&s.st, &p).as_deref(), want);
    }
}

#[test]
fn a_forwarded_client_is_believed_only_behind_a_proxy() {
    assert_eq!(client_ip(true, Some(" 1.2.3.4 , 5.6.7.8"), "9.9.9.9"), "1.2.3.4");
    assert_eq!(client_ip(true, Some(" , 5.6.7.8"), "9.9.9.9"), "9.9.9.9");
    assert_eq!(client_ip(true, None, "9.9.9.9"), "9.9.9.9");
    assert_eq!(client_ip(false, Some("1.2.3.4"), "9.9.9.9"), "9.9.9.9");
}

#[test]
fn idle_clients_are_forgotten_when_there_are_too_many() {
    let mut sh = Shard::new();
    for k in 0..4096u64 {
        assert!(sh.visit(k, 1000).0.is_empty());
    }
    let (gone, seen) = sh.visit(7, 61_000);
    assert_eq!(gone.len(), 4096);
    assert_eq!(seen, None);
    let (gone, seen) = sh.visit(7, 61_500);
    assert!(gone.is_empty());
    assert_eq!(seen, Some(500));
    assert_eq!(ip_key(""), 0xcbf29ce484222325);
    assert_eq!(ip_key("a"), 0xaf63dc4c8601ec8c);
    assert_eq!(shard_of(130), 2);
}

#[test]
fn the_page_of_counters_hides_a_link() {
    run_suite(|s| {
        let r = post(
            s,
            "/api/shorten",
            "{\"url\":\"https://a.com\",\"alias\":\"metrics\"}",
        );
        assert_eq!(r.status, 201);
        assert_eq!(r.body, b"{\"code\":\"metrics\",\"short_url\":\"/metrics\"}");
        assert_eq!(get(s, "/metrics").status, 200);
        assert_eq!(get(s, "/api/stats/metrics").json()["url"], "https://a.com");
    });
}

#[test]
fn a_link_is_gone_when_it_expires() {
    run_suite(|s| {
        let code = shorten_body(s, "{\"url\":\"https://a.com\",\"ttl_ms\":100}");
        assert_eq!(get(s, &format!("/{code}")).status, 302);
        s.now += 100;
        assert_eq!(get(s, &format!("/{code}")).status, 404);
    });
}

#[test]
fn no_lifetime_is_for_ever() {
    run_suite(|s| {
        let code = shorten_body(s, "{\"url\":\"https://a.com\",\"ttl_ms\":0.5}");
        let st = get(s, &format!("/api/stats/{code}")).json();
        let made = st["created_at"].as_i64().unwrap();
        assert_eq!(st["expires_at"].as_i64(), Some(made + 1));
        assert_eq!(get(s, &format!("/{code}")).status, 302);
        s.now += 1;
        assert_eq!(get(s, &format!("/{code}")).status, 404);
        let r = post(s, "/api/shorten", "{\"url\":\"https://a.com\",\"ttl_ms\":-0.5}");
        assert_eq!((r.status, r.body), (400, b"{\"error\":\"invalid ttl_ms\"}".to_vec()));
    });
}

#[test]
fn a_changed_link_does_not_live_for_ever() {
    let p = patch_one(
        1000,
        "a".to_string(),
        &PatchReq {
            url: Some("https://a.com".to_string()),
            ttl_ms: Some(Ttl { low: true, ms: 0 }),
        },
    );
    assert!(matches!(p, Plan::Update { ttl_ms: 1000, has_ttl: true, .. }));
    let f = patch_one(
        1000,
        "a".to_string(),
        &PatchReq {
            url: Some("https://a.com".to_string()),
            ttl_ms: Some(Ttl { low: false, ms: 0 }),
        },
    );
    assert!(matches!(f, Plan::Update { ttl_ms: 1, has_ttl: true, .. }));
    let q = patch_one(
        1000,
        "a".to_string(),
        &PatchReq {
            url: Some("https://a.com".to_string()),
            ttl_ms: Some(Ttl { low: false, ms: 5000 }),
        },
    );
    assert!(matches!(q, Plan::Update { ttl_ms: 1000, has_ttl: true, .. }));
}

#[test]
fn requests_of_one_read_are_answered_by_one_write() {
    let mut s = Server::new(false);
    let mut conn = Conn::new("*");
    let one = |path: &str| format!("GET {path} HTTP/1.1\r\n\r\n");
    let raw = format!("{}{}{}", one("/api/health"), one("/nope/x"), one("/api/health"));
    conn.receive(raw.as_bytes());
    let mut asked = Vec::new();
    let mut want = Vec::new();
    loop {
        match conn.next() {
            Step::Answer(c) => {
                let r = s.handle(&c.method, &c.path, &c.body, &c.token, "9.9.9.9");
                let mut alone = Conn::new("*");
                alone.reply(&r);
                want.extend(alone.take());
                conn.reply(&r);
                asked.push(c.path);
            }
            Step::Send { close } => {
                assert!(!close);
                break;
            }
            Step::Drop => panic!("dropped"),
        }
    }
    assert_eq!(asked, ["/api/health", "/nope/x", "/api/health"]);
    let out = conn.take();
    assert_eq!(out, want);
    assert_eq!(String::from_utf8(out).unwrap().matches("HTTP/1.1 ").count(), 3);
}

#[test]
fn only_what_is_charged_is_limited() {
    let mut m = Metrics::new();
    arrive(&mut m, 0, "GET", "/api/health", false);
    arrive(&mut m, 0, "POST", "/api/shorten", true);
    let t = String::from_utf8(prometheus(&m, 0)).unwrap();
    assert!(t.contains("shrt_rate_limited_total 0\n"), "{t}");
    arrive(&mut m, 0, "POST", "/api/shorten", false);
    arrive(&mut m, 0, "POST", "/api/shorten/bulk", false);
    let t = String::from_utf8(prometheus(&m, 0)).unwrap();
    assert!(t.contains("shrt_rate_limited_total 2\n"), "{t}");
}
