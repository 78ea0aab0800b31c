//! Links on a server that speaks RESP; the server is played here.

use std::collections::HashMap;

use shrt::app::{ListReq, Outcome, Plan};
use shrt::kv::{flushdb_cmd, hset_reply, read_resp, select_cmd, set_reply, write_cmd, Parsed, Resp};
use shrt::kv_jobs::{begin_sweep, Job};
use shrt::lru::Lru;
use shrt::store::{now_ms, Link, MutResult};
use shrt::store_kv::{bkey, buckets_of, dec_val, enc_val, layout_of, KvStore, Layout};

type Words = Vec<Vec<u8>>;

/// A server: strings with the time they expire, and hashes.
struct Fake {
    strings: HashMap<Vec<u8>, (Vec<u8>, i64)>,
    hashes: HashMap<Vec<u8>, Vec<(Vec<u8>, Vec<u8>)>>,
    now: i64,
}

fn integer(n: i64) -> Vec<u8> {
    format!(":{n}\r\n").into_bytes()
}

fn bulk(v: Option<&Vec<u8>>) -> Vec<u8> {
    match v {
        Some(v) => {
            let mut b = format!("${}\r\n", v.len()).into_bytes();
            b.extend(v);
            b.extend(b"\r\n");
            b
        }
        None => b"$-1\r\n".to_vec(),
    }
}

fn arr(parts: Vec<Vec<u8>>) -> Vec<u8> {
    let mut b = format!("*{}\r\n", parts.len()).into_bytes();
    for p in parts {
        b.extend(p);
    }
    b
}

fn number(v: &[u8]) -> i64 {
    std::str::from_utf8(v).unwrap().parse().unwrap()
}

impl Fake {
    fn new() -> Fake {
        Fake {
            strings: HashMap::new(),
            hashes: HashMap::new(),
            now: now_ms(),
        }
    }

    fn get(&self, k: &[u8]) -> Option<Vec<u8>> {
        let (v, e) = self.strings.get(k)?;
        if *e != 0 && *e <= self.now {
            None
        } else {
            Some(v.clone())
        }
    }

    fn field(&self, k: &[u8], f: &[u8]) -> Option<Vec<u8>> {
        let h = self.hashes.get(k)?;
        h.iter().find(|(g, _)| g == f).map(|(_, v)| v.clone())
    }

    fn put_field(&mut self, k: &[u8], f: &[u8], v: Vec<u8>) -> bool {
        let h = self.hashes.entry(k.to_vec()).or_default();
        match h.iter_mut().find(|(g, _)| g == f) {
            Some(p) => {
                p.1 = v;
                false
            }
            None => {
                h.push((f.to_vec(), v));
                true
            }
        }
    }

    fn run(&mut self, w: &[Vec<u8>]) -> Vec<u8> {
        match (w[0].as_slice(), w.len()) {
            (b"GET", 2) => bulk(self.get(&w[1]).as_ref()),
            (b"SET", n) => {
                let mut nx = false;
                let mut px = 0;
                let mut i = 3;
                while i < n {
                    if w[i] == b"NX" {
                        nx = true;
                    } else if w[i] == b"PX" {
                        i += 1;
                        px = number(&w[i]);
                    }
                    i += 1;
                }
                if nx && self.get(&w[1]).is_some() {
                    return bulk(None);
                }
                let e = if px > 0 { self.now + px } else { 0 };
                self.strings.insert(w[1].clone(), (w[2].clone(), e));
                b"+OK\r\n".to_vec()
            }
            (b"DEL", 2) => integer(if self.get(&w[1]).is_some() {
                self.strings.remove(&w[1]);
                1
            } else {
                0
            }),
            (b"INCRBY", 3) => {
                let n = self.get(&w[1]).map(|v| number(&v)).unwrap_or(0) + number(&w[2]);
                self.strings.insert(w[1].clone(), (n.to_string().into_bytes(), 0));
                integer(n)
            }
            (b"HGET", 3) => bulk(self.field(&w[1], &w[2]).as_ref()),
            (b"HSET", 4) => integer(self.put_field(&w[1], &w[2], w[3].clone()) as i64),
            (b"HSETNX", 4) => integer(if self.field(&w[1], &w[2]).is_some() {
                0
            } else {
                self.put_field(&w[1], &w[2], w[3].clone());
                1
            }),
            (b"HDEL", 3) => {
                let h = self.hashes.entry(w[1].clone()).or_default();
                let before = h.len();
                h.retain(|(f, _)| *f != w[2]);
                integer((before - h.len()) as i64)
            }
            (b"HINCRBY", 4) => {
                let n = self.field(&w[1], &w[2]).map(|v| number(&v)).unwrap_or(0) + number(&w[3]);
                self.put_field(&w[1], &w[2], n.to_string().into_bytes());
                integer(n)
            }
            (b"SCAN", _) => {
                assert_eq!(w[2], b"MATCH");
                assert_eq!(w[3], b"l:*");
                let mut keys: Vec<Vec<u8>> = Vec::new();
                for k in self.strings.keys().chain(self.hashes.keys()) {
                    if k.starts_with(b"l:") {
                        keys.push(k.clone());
                    }
                }
                keys.sort();
                let half = keys.len() / 2;
                let (page, next) = if w[1] == b"0" && half > 0 {
                    (&keys[..half], b"7".to_vec())
                } else if half > 0 {
                    (&keys[half..], b"0".to_vec())
                } else {
                    (&keys[..], b"0".to_vec())
                };
                arr(vec![
                    bulk(Some(&next)),
                    arr(page.iter().map(|k| bulk(Some(k))).collect()),
                ])
            }
            (b"HSCAN", _) => {
                let h = self.hashes.get(&w[1]).cloned().unwrap_or_default();
                let mut parts = Vec::new();
                for (f, v) in &h {
                    parts.push(bulk(Some(f)));
                    parts.push(bulk(Some(v)));
                }
                arr(vec![bulk(Some(&b"0".to_vec())), arr(parts)])
            }
            _ => b"-ERR unknown command\r\n".to_vec(),
        }
    }

    /// Sends a command over the wire and reads the reply.
    fn cmd(&mut self, words: &Words) -> Resp {
        let mut raw = Vec::new();
        write_cmd(&mut raw, words);
        let sent = match read_resp(&raw, 0, false) {
            Parsed::Whole(Resp::Arr(items), n) => {
                assert_eq!(n, raw.len());
                items
                    .into_iter()
                    .map(|r| match r {
                        Resp::Bulk(Some(b)) => b,
                        _ => panic!("word"),
                    })
                    .collect::<Vec<Vec<u8>>>()
            }
            _ => panic!("command"),
        };
        let reply = self.run(&sent);
        match read_resp(&reply, 0, false) {
            Parsed::Whole(r, n) => {
                assert_eq!(n, reply.len());
                r
            }
            _ => panic!("reply"),
        }
    }

    fn pipe(&mut self, cmds: &[Words]) -> Vec<Resp> {
        cmds.iter().map(|c| self.cmd(c)).collect()
    }
}

struct Node {
    st: KvStore,
    db: Fake,
}

impl Node {
    fn new(layout: Layout) -> Node {
        Node::open(layout, Fake::new(), 0, 1000)
    }

    fn open(layout: Layout, db: Fake, instance: i32, cache: usize) -> Node {
        Node {
            st: KvStore::open(instance, cache, 50, layout, 4),
            db,
        }
    }

    fn run(&mut self, job: Job) -> Outcome {
        let mut job = job;
        loop {
            match job {
                Job::Send { cmds, wait } => {
                    let rs = Some(self.db.pipe(&cmds));
                    assert!(self.st.takes(&wait, &rs));
                    job = self.st.step(wait, rs, self.db.now);
                }
                Job::Done(o) => return o,
            }
        }
    }

    fn perform(&mut self, p: Plan) -> Outcome {
        let job = self.st.begin(&p, self.db.now);
        self.run(job)
    }

    fn resolve(&mut self, code: &str) -> Option<String> {
        match self.perform(Plan::Resolve { code: code.to_string() }) {
            Outcome::Target(u) => u,
            _ => panic!("outcome"),
        }
    }

    fn shorten(&mut self, url: &str, alias: Option<&str>, ttl: i64) -> Option<String> {
        match self.perform(Plan::Shorten {
            url: url.to_string(),
            alias: alias.map(|a| a.to_string()),
            ttl_ms: ttl,
        }) {
            Outcome::Created(c) => c,
            _ => panic!("outcome"),
        }
    }

    fn shorten_many(&mut self, urls: &Vec<String>, ttl: i64) -> Vec<String> {
        match self.perform(Plan::Bulk {
            urls: urls.clone(),
            ttl_ms: ttl,
        }) {
            Outcome::CreatedMany(codes) => codes,
            _ => panic!("outcome"),
        }
    }

    fn update(&mut self, code: &str, url: &str, ttl: i64, has_ttl: bool) -> MutResult {
        match self.perform(Plan::Update {
            code: code.to_string(),
            url: url.to_string(),
            ttl_ms: ttl,
            has_ttl,
        }) {
            Outcome::Changed(m) => m,
            _ => panic!("outcome"),
        }
    }

    fn remove(&mut self, code: &str) -> MutResult {
        match self.perform(Plan::Remove { code: code.to_string() }) {
            Outcome::Changed(m) => m,
            _ => panic!("outcome"),
        }
    }

    fn flush(&mut self) {
        let cmds = self.st.flush_hits();
        self.db.pipe(&cmds);
    }

    fn stats(&mut self, code: &str) -> Option<Link> {
        match self.perform(Plan::Stats { code: code.to_string() }) {
            Outcome::Found(l) => l,
            _ => panic!("outcome"),
        }
    }

    fn list(&mut self, limit: usize, offset: usize, sort: &str, q: &str) -> (Vec<Link>, usize) {
        match self.perform(Plan::List(ListReq {
            limit,
            offset,
            sort: sort.to_string(),
            q: q.to_string(),
        })) {
            Outcome::Listed(links, total) => (links, total),
            _ => panic!("outcome"),
        }
    }
}

fn both(f: impl Fn(&mut Node)) {
    f(&mut Node::new(Layout::Key));
    f(&mut Node::new(Layout::Hash));
}

#[test]
fn kv_test_shorten_resolve_alias() {
    both(|st| {
        assert_eq!(st.shorten("https://a.com", Some("gh"), 0).as_deref(), Some("gh"));
        assert_eq!(st.resolve("gh").as_deref(), Some("https://a.com"));
        assert!(st.shorten("https://b.com", Some("gh"), 0).is_none());
        let c = st.shorten("https://c.com", None, 0).unwrap();
        assert_eq!(st.resolve(&c).as_deref(), Some("https://c.com"));
    });
}

#[test]
fn kv_test_cache_bounded_and_cold_miss() {
    both(|st| {
        let mut codes = Vec::new();
        for i in 0..200 {
            codes.push(st.shorten(&format!("https://x{i}.com"), None, 0).unwrap());
        }
        for (i, c) in codes.iter().enumerate() {
            assert_eq!(
                st.resolve(c).as_deref(),
                Some(format!("https://x{i}.com").as_str()),
                "cold miss failed for {c}"
            );
        }
    });
}

#[test]
fn hits_batched_to_kv() {
    both(|st| {
        st.shorten("https://a.com", Some("h"), 0);
        for _ in 0..5 {
            st.resolve("h");
        }
        st.flush();
        let s = st.stats("h").unwrap();
        assert_eq!(s.hits, 5);
    });
}

#[test]
fn kv_test_update_and_remove() {
    both(|st| {
        st.shorten("https://a.com", Some("u"), 0);
        assert_eq!(st.update("u", "https://b.com", 0, false), MutResult::Done);
        assert_eq!(st.resolve("u").as_deref(), Some("https://b.com"));
        assert_eq!(st.update("missing", "https://x.com", 0, false), MutResult::Missing);
        assert_eq!(st.remove("u"), MutResult::Done);
        assert!(st.resolve("u").is_none());
        assert_eq!(st.remove("u"), MutResult::Missing);
    });
}

#[test]
fn kv_test_ttl_expiry() {
    both(|st| {
        st.shorten("https://t.com", Some("ttl"), 80);
        assert_eq!(st.resolve("ttl").as_deref(), Some("https://t.com"));
        st.db.now += 120;
        assert!(st.resolve("ttl").is_none());
    });
}

#[test]
fn kv_test_list_and_stats() {
    both(|st| {
        st.shorten("https://one.com", Some("one"), 0);
        st.shorten("https://two.com", Some("two"), 0);
        st.resolve("one");
        st.flush();
        let (links, total) = st.list(10, 0, "", "");
        assert_eq!(total, 2);
        assert!(links.iter().any(|l| l.code == "one" && l.hits == 1));
        let s = st.stats("two").unwrap();
        assert_eq!(s.url, "https://two.com");
        assert!(s.created_at > 0);
    });
}

#[test]
fn kv_test_restart_survives() {
    let mut st = Node::new(Layout::Key);
    st.shorten("https://stay.com", Some("stay"), 0);
    let mut st2 = Node::open(Layout::Key, st.db, 1, 100);
    assert_eq!(st2.resolve("stay").as_deref(), Some("https://stay.com"));
}

#[test]
fn kv_test_bulk_shorten() {
    both(|st| {
        let urls: Vec<String> = (0..50).map(|i| format!("https://b{i}.com")).collect();
        let codes = st.shorten_many(&urls, 0);
        assert_eq!(codes.len(), 50);
        for (i, c) in codes.iter().enumerate() {
            assert_eq!(st.resolve(c).as_deref(), Some(urls[i].as_str()));
        }
    });
}

#[test]
fn links_and_their_hits_lie_apart() {
    both(|st| {
        st.shorten("https://a.com", Some("a"), 0);
        st.shorten("https://h.com", Some("h"), 0);
        st.resolve("a");
        st.resolve("a");
        st.flush();
        st.resolve("a");
        st.flush();
        assert_eq!(st.stats("a").unwrap().hits, 3);
        assert_eq!(st.stats("h").unwrap().hits, 0);
        st.update("h", "https://hh.com", 0, false);
        assert_eq!(st.stats("a").unwrap().url, "https://a.com");
        assert_eq!(st.remove("h"), MutResult::Done);
        assert_eq!(st.stats("a").unwrap().hits, 3);
        assert_eq!(st.remove("a"), MutResult::Done);
        st.shorten("https://again.com", Some("a"), 0);
        assert_eq!(st.stats("a").unwrap().hits, 0);
    });
}

#[test]
fn a_cached_link_lives_as_long_as_said() {
    let mut st = Node::new(Layout::Key);
    st.shorten("https://a.com", Some("c"), 0);
    st.resolve("c");
    st.db.strings.clear();
    assert_eq!(st.resolve("c").as_deref(), Some("https://a.com"));
    st.db.now += 51;
    assert!(st.resolve("c").is_none());
}

#[test]
fn listings_are_filtered_and_sorted() {
    both(|st| {
        for i in 0..4 {
            st.shorten(&format!("https://l{i}.com"), Some(&format!("k{i}")), 0);
        }
        for _ in 0..3 {
            st.resolve("k2");
        }
        st.resolve("k1");
        st.flush();
        let (links, total) = st.list(2, 0, "hits", "");
        assert_eq!(total, 4);
        assert_eq!((links[0].code.as_str(), links[0].hits), ("k2", 3));
        assert_eq!((links[1].code.as_str(), links[1].hits), ("k1", 1));
        assert_eq!(st.list(10, 3, "", "").0.len(), 1);
        assert_eq!(st.list(10, 9, "", "").0.len(), 0);
        assert_eq!(st.list(10, 0, "", "l3.c").1, 1);
    });
}

#[test]
fn what_has_expired_is_swept() {
    let mut st = Node::new(Layout::Hash);
    st.shorten("https://a.com", Some("old"), 10);
    st.shorten("https://b.com", Some("new"), 0);
    st.db.now += 20;
    let o = st.run(begin_sweep());
    assert!(matches!(o, Outcome::Nothing));
    let (links, total) = st.list(10, 0, "", "");
    assert_eq!(total, 1);
    assert_eq!(links[0].code, "new");
    let left: usize = st.db.hashes.values().map(|h| h.len()).sum();
    assert_eq!(left, 1);
}

#[test]
fn without_a_cache_every_lookup_reads() {
    for layout in [Layout::Key, Layout::Hash] {
        let mut st = Node::open(layout, Fake::new(), 0, 0);
        st.shorten("https://a.com", Some("c"), 0);
        assert_eq!(st.resolve("c").as_deref(), Some("https://a.com"));
        st.db.strings.clear();
        st.db.hashes.clear();
        assert!(st.resolve("c").is_none());
    }
    let mut c = Lru::new(0, 1000);
    c.put("x", "u", 0, 5);
    assert_eq!(c.get("x", 5), None);
}

#[test]
fn the_newest_links_come_first() {
    both(|st| {
        for i in 0..4 {
            st.shorten(&format!("https://l{i}.com"), Some(&format!("k{i}")), 0);
            st.db.now += 1;
        }
        let (links, total) = st.list(3, 0, "created", "");
        assert_eq!(total, 4);
        let codes: Vec<&str> = links.iter().map(|l| l.code.as_str()).collect();
        assert_eq!(codes, ["k3", "k2", "k1"]);
    });
}

#[test]
fn a_lost_server_has_nothing() {
    both(|st| {
        let code = || "a".to_string();
        let plans = vec![
            Plan::Resolve { code: code() },
            Plan::Stats { code: code() },
            Plan::Remove { code: code() },
            Plan::Shorten {
                url: "https://a.com".to_string(),
                alias: Some(code()),
                ttl_ms: 0,
            },
            Plan::Update {
                code: code(),
                url: "https://a.com".to_string(),
                ttl_ms: 0,
                has_ttl: false,
            },
        ];
        for p in plans {
            let Job::Send { wait, .. } = st.st.begin(&p, 1) else {
                panic!("job");
            };
            let Job::Done(o) = st.st.step(wait, None, 1) else {
                panic!("job");
            };
            assert!(matches!(
                o,
                Outcome::Target(None)
                    | Outcome::Found(None)
                    | Outcome::Created(None)
                    | Outcome::Changed(MutResult::Missing)
            ));
        }
    });
}

#[test]
fn a_taken_code_is_tried_again() {
    both(|st| {
        let urls: Vec<String> = (0..3).map(|i| format!("https://r{i}.com")).collect();
        let p = Plan::Bulk {
            urls: urls.clone(),
            ttl_ms: 0,
        };
        let Job::Send { cmds, wait } = st.st.begin(&p, st.db.now) else {
            panic!("job");
        };
        assert_eq!(cmds.len(), 3);
        let mut taken = cmds[1].clone();
        for w in taken.iter_mut() {
            if w.ends_with(b"https://r1.com") {
                *w = b"0|1|https://other.com".to_vec();
            }
        }
        st.db.cmd(&taken);
        let rs = Some(st.db.pipe(&cmds));
        let job = st.st.step(wait, rs, st.db.now);
        assert!(matches!(&job, Job::Send { cmds, .. } if cmds.len() == 1));
        let Outcome::CreatedMany(codes) = st.run(job) else {
            panic!("outcome");
        };
        for (i, c) in codes.iter().enumerate() {
            assert_eq!(st.resolve(c).as_deref(), Some(urls[i].as_str()));
        }
    });
}

#[test]
fn values_have_these_bytes() {
    assert_eq!(enc_val(5, 7, "https://a|b"), b"5|7|https://a|b");
    assert_eq!(dec_val(b"5|7|https://a|b"), Some((5, 7, "https://a|b".to_string())));
    assert_eq!(dec_val(b"5|https://a"), Some((5, 0, "https://a".to_string())));
    assert_eq!(dec_val(b"x|7|u"), None);
    assert_eq!(dec_val(b"nothing"), None);
    assert_eq!(dec_val(b"5|7|\xff"), None);
    assert!(bkey("abc", 10).starts_with(b"l:"));
}

#[test]
fn layouts_are_read() {
    assert!(layout_of(Some("hash")) == Layout::Hash);
    assert!(layout_of(Some("key")) == Layout::Key);
    assert!(layout_of(None) == Layout::Key);
    assert_eq!(buckets_of(None), 1_000_000);
    assert_eq!(buckets_of(Some("7")), 7);
}

#[test]
fn replies_are_read() {
    assert!(matches!(read_resp(b"+OK\r\n", 0, false), Parsed::Whole(Resp::Simple(s), 5) if s == "OK"));
    assert!(matches!(read_resp(b":-12\r\n", 0, false), Parsed::Whole(Resp::Int(-12), 6)));
    assert!(matches!(read_resp(b"$-1\r\n", 0, false), Parsed::Whole(Resp::Bulk(None), 5)));
    assert!(matches!(read_resp(b"-ERR no\r\n", 0, false), Parsed::Whole(Resp::Error(_), 9)));
    assert!(matches!(read_resp(b"$3\r\nab", 0, false), Parsed::Partial));
    assert!(matches!(read_resp(b"$3\r\nab", 0, true), Parsed::Broken));
    assert!(matches!(read_resp(b"?what\r\n", 0, false), Parsed::Broken));
    assert!(set_reply(Resp::Error("ERR no".to_string())).is_err());
    assert!(matches!(set_reply(Resp::Bulk(None)), Ok(false)));
    assert!(hset_reply(&Resp::Int(1)));
    assert!(!hset_reply(&Resp::Int(0)));
}

#[test]
fn commands_have_these_bytes() {
    let mut out = Vec::new();
    write_cmd(&mut out, &select_cmd(3));
    assert_eq!(out, b"*2\r\n$6\r\nSELECT\r\n$1\r\n3\r\n");
    out.clear();
    write_cmd(&mut out, &flushdb_cmd());
    assert_eq!(out, b"*1\r\n$7\r\nFLUSHDB\r\n");
}

#[test]
fn a_full_cache_forgets_the_oldest() {
    let mut c = Lru::new(1, 1000);
    let codes: Vec<String> = (0..20000).map(|i| format!("c{i}")).collect();
    for k in &codes {
        c.put(k, "u", 0, 5);
    }
    let kept = codes.iter().filter(|k| c.get(k, 5).is_some()).count();
    assert!(kept <= 4096, "{kept}");
    assert!(c.get(&codes[19999], 5).is_some());
    c.remove(&codes[19999]);
    assert!(c.get(&codes[19999], 5).is_none());
    c.put("x", "u", 9, 5);
    assert_eq!(c.get("x", 8), Some(("u".to_string(), 9)));
    assert_eq!(c.get("x", 9), None);
}
