//! Links in an embedded database; the database is played here.

use std::collections::BTreeMap;

use shrt::app::{ListReq, Outcome, Plan};
use shrt::metrics::Metrics;
use shrt::rocks_jobs::{Ask, Job, Told};
use shrt::store::{now_ms, Link, MutResult};
use shrt::store_rocks::{code_from, expired_filter, hits_merge, DbRow, RocksStore};

struct Db {
    links: BTreeMap<Vec<u8>, Vec<u8>>,
    hits: BTreeMap<Vec<u8>, Vec<u8>>,
}

struct Node {
    st: RocksStore,
    mx: Metrics,
    db: Db,
    now: i64,
}

fn rocks() -> Node {
    Node {
        st: RocksStore::open(0, 7, 1_000, 50),
        mx: Metrics::new(),
        db: Db {
            links: BTreeMap::new(),
            hits: BTreeMap::new(),
        },
        now: now_ms(),
    }
}

impl Node {
    fn merge(&mut self, deltas: Vec<(String, Vec<u8>)>) {
        for (c, d) in deltas {
            let old = self.db.hits.get(c.as_bytes()).cloned();
            let new = hits_merge(&old, &vec![d]);
            self.db.hits.insert(c.into_bytes(), new);
        }
    }

    fn answer(&mut self, ask: Ask) -> Told {
        match ask {
            Ask::Read { code } | Ask::Claim { code } => {
                Told::Value(self.db.links.get(code.as_bytes()).cloned())
            }
            Ask::Put { code, value } => {
                self.db.links.insert(code.into_bytes(), value);
                Told::Written
            }
            Ask::PutAll { rows } => {
                for (c, v) in rows {
                    self.db.links.insert(c.into_bytes(), v);
                }
                Told::Written
            }
            Ask::Delete { code } => {
                self.db.links.remove(code.as_bytes());
                Told::Written
            }
            Ask::DeleteBoth { code } => {
                self.db.links.remove(code.as_bytes());
                self.db.hits.remove(code.as_bytes());
                Told::Written
            }
            Ask::Hits { code } => Told::Value(self.db.hits.get(code.as_bytes()).cloned()),
            Ask::Merge { deltas } => {
                self.merge(deltas);
                Told::Written
            }
            Ask::Rows => {
                let mut rows = Vec::new();
                for (k, v) in &self.db.links {
                    rows.push(DbRow {
                        key: k.clone(),
                        value: v.clone(),
                        hits: self.db.hits.get(k).cloned(),
                    });
                }
                Told::Rows(rows)
            }
        }
    }

    fn run(&mut self, job: Job) -> Outcome {
        let mut job = job;
        loop {
            match job {
                Job::Next { ask, wait } => {
                    let told = self.answer(ask);
                    job = self.st.step(&mut self.mx, wait, told, 3, self.now);
                }
                Job::Done(o) => return o,
            }
        }
    }

    fn perform(&mut self, p: Plan) -> Outcome {
        let job = self.st.begin(&mut self.mx, &p, self.now);
        self.run(job)
    }

    fn shorten(&mut self, url: &str, alias: Option<&str>, ttl: i64) -> Option<String> {
        match self.perform(Plan::Shorten {
            url: url.to_string(),
            alias: alias.map(|a| a.to_string()),
            ttl_ms: ttl,
        }) {
            Outcome::Created(c) => c,
            _ => panic!("outcome"),
        }
    }

    fn shorten_many(&mut self, urls: &Vec<String>, ttl: i64) -> Vec<String> {
        match self.perform(Plan::Bulk {
            urls: urls.clone(),
            ttl_ms: ttl,
        }) {
            Outcome::CreatedMany(codes) => codes,
            _ => panic!("outcome"),
        }
    }

    fn resolve(&mut self, code: &str) -> Option<String> {
        match self.perform(Plan::Resolve { code: code.to_string() }) {
            Outcome::Target(u) => u,
            _ => panic!("outcome"),
        }
    }

    fn update(&mut self, code: &str, url: &str, ttl: i64, has_ttl: bool) -> MutResult {
        match self.perform(Plan::Update {
            code: code.to_string(),
            url: url.to_string(),
            ttl_ms: ttl,
            has_ttl,
        }) {
            Outcome::Changed(m) => m,
            _ => panic!("outcome"),
        }
    }

    fn remove(&mut self, code: &str) -> MutResult {
        match self.perform(Plan::Remove { code: code.to_string() }) {
            Outcome::Changed(m) => m,
            _ => panic!("outcome"),
        }
    }

    fn flush(&mut self) {
        let deltas = self.st.flush_hits();
        self.merge(deltas);
    }

    fn stats(&mut self, code: &str) -> Option<Link> {
        match self.perform(Plan::Stats { code: code.to_string() }) {
            Outcome::Found(l) => l,
            _ => panic!("outcome"),
        }
    }

    fn list(&mut self, limit: usize, offset: usize, sort: &str, q: &str) -> (Vec<Link>, usize) {
        match self.perform(Plan::List(ListReq {
            limit,
            offset,
            sort: sort.to_string(),
            q: q.to_string(),
        })) {
            Outcome::Listed(links, total) => (links, total),
            _ => panic!("outcome"),
        }
    }
}

#[test]
fn rocks_test_shorten_resolve_alias() {
    let mut st = rocks();
    assert_eq!(st.shorten("https://a.com", Some("gh"), 0).as_deref(), Some("gh"));
    assert_eq!(st.resolve("gh").as_deref(), Some("https://a.com"));
    assert!(st.shorten("https://b.com", Some("gh"), 0).is_none());
    let c = st.shorten("https://c.com", None, 0).unwrap();
    assert_eq!(st.resolve(&c).as_deref(), Some("https://c.com"));
}

#[test]
fn rocks_test_cache_bounded_and_cold_miss() {
    let mut st = rocks();
    let mut codes = Vec::new();
    for i in 0..200 {
        codes.push(st.shorten(&format!("https://x{i}.com"), None, 0).unwrap());
    }
    for (i, c) in codes.iter().enumerate() {
        assert_eq!(
            st.resolve(c).as_deref(),
            Some(format!("https://x{i}.com").as_str()),
            "cold miss failed for {c}"
        );
    }
}

#[test]
fn hits_batched_to_store() {
    let mut st = rocks();
    st.shorten("https://a.com", Some("gh"), 0);
    for _ in 0..5 {
        st.resolve("gh");
    }
    st.flush();
    let l = st.stats("gh").unwrap();
    assert_eq!(l.hits, 5);
}

#[test]
fn rocks_test_update_and_remove() {
    let mut st = rocks();
    st.shorten("https://a.com", Some("gh"), 0);
    st.resolve("gh");
    assert_eq!(st.update("gh", "https://b.com", 0, false), MutResult::Done);
    assert_eq!(st.resolve("gh").as_deref(), Some("https://b.com"));
    assert_eq!(st.remove("gh"), MutResult::Done);
    assert!(st.resolve("gh").is_none());
    assert_eq!(st.remove("gh"), MutResult::Missing);
}

#[test]
fn rocks_test_ttl_expiry() {
    let mut st = rocks();
    st.shorten("https://a.com", Some("gh"), 60);
    st.now += 90;
    assert!(st.resolve("gh").is_none());
    assert!(st.stats("gh").is_none());
    assert!(st.db.links.is_empty(), "not deleted");
}

#[test]
fn rocks_test_list_and_stats() {
    let mut st = rocks();
    st.shorten("https://a.com", Some("aa"), 0);
    st.shorten("https://b.com", Some("bb"), 0);
    st.resolve("aa");
    st.flush();
    let (rows, total) = st.list(10, 0, "", "");
    assert_eq!(total, 2);
    assert_eq!(rows.len(), 2);
    let s = st.stats("aa").unwrap();
    assert_eq!(s.hits, 1);
    assert_eq!(s.url, "https://a.com");
    let (rows, _) = st.list(10, 0, "", "b.com");
    assert_eq!(rows.len(), 1);
}

#[test]
fn rocks_test_bulk_shorten() {
    let mut st = rocks();
    let urls: Vec<String> = (0..50).map(|i| format!("https://u{i}.com")).collect();
    let codes = st.shorten_many(&urls, 0);
    assert_eq!(codes.len(), 50);
    for (i, c) in codes.iter().enumerate() {
        assert_eq!(
            st.resolve(c).as_deref(),
            Some(format!("https://u{i}.com").as_str())
        );
    }
}

#[test]
fn rocks_test_restart_survives() {
    let mut st = rocks();
    st.shorten("https://a.com", Some("gh"), 0);
    st.flush();
    st.st = RocksStore::open(0, 7, 0, 50);
    assert_eq!(st.resolve("gh").as_deref(), Some("https://a.com"));
}

#[test]
fn hits_are_merged_as_numbers() {
    let one = 1u64.to_le_bytes().to_vec();
    let big = 300u64.to_le_bytes().to_vec();
    assert_eq!(hits_merge(&None, &vec![one.clone(), big.clone()]), 301u64.to_le_bytes());
    assert_eq!(hits_merge(&Some(big), &vec![one.clone(), b"bad".to_vec()]), 301u64.to_le_bytes());
    assert_eq!(
        hits_merge(&Some(u64::MAX.to_le_bytes().to_vec()), &vec![one]),
        0u64.to_le_bytes()
    );
    assert_eq!(hits_merge(&Some(b"bad".to_vec()), &vec![]), 0u64.to_le_bytes());
}

#[test]
fn hits_not_yet_written_count() {
    let mut st = rocks();
    st.shorten("https://a.com", Some("gh"), 0);
    st.resolve("gh");
    assert_eq!(st.stats("gh").unwrap().hits, 1);
    st.flush();
    st.resolve("gh");
    assert_eq!(st.stats("gh").unwrap().hits, 2);
    assert_eq!(st.db.hits.get(b"gh".as_slice()).unwrap(), &1u64.to_le_bytes());
}

#[test]
fn a_compaction_drops_what_has_expired() {
    assert!(expired_filter(b"5|1|u", 5));
    assert!(!expired_filter(b"6|1|u", 5));
    assert!(!expired_filter(b"0|1|u", 5));
    assert!(!expired_filter(b"x|1|u", 5));
    assert!(!expired_filter(b"5", 5));
    assert!(!expired_filter(b"5|1|\xff", 5));
}

#[test]
fn an_update_with_a_lifetime_ends_the_link_then() {
    let mut st = rocks();
    st.shorten("https://a.com", Some("gh"), 1000);
    assert_eq!(st.update("gh", "https://b.com", 500, true), MutResult::Done);
    assert_eq!(st.stats("gh").unwrap().expires_at, Some(st.now + 500));
    assert_eq!(st.update("gh", "https://c.com", 0, false), MutResult::Done);
    assert_eq!(st.stats("gh").unwrap().expires_at, Some(st.now + 500));
    assert_eq!(st.update("gh", "https://c.com", -3, true), MutResult::Done);
    assert!(st.stats("gh").is_none());
}

#[test]
fn ids_of_instances_stay_in_range() {
    assert_eq!(RocksStore::open(-1, 63, 10, 50).instance(), 1);
    assert_eq!(RocksStore::open(99, 0, 10, 50).instance(), 61);
    assert_eq!(code_from(10, &[0, 9, 10, 35, 36, 61, 62]), "A09AZaz0");
}

#[test]
fn a_batch_that_fails_is_written_one_by_one() {
    let mut st = rocks();
    let urls: Vec<String> = (0..3).map(|i| format!("https://f{i}.com")).collect();
    let p = Plan::Bulk {
        urls: urls.clone(),
        ttl_ms: 0,
    };
    let mut job = st.st.begin(&mut st.mx, &p, st.now);
    let wait = loop {
        let Job::Next { ask, wait } = job else {
            panic!("job");
        };
        if matches!(ask, Ask::PutAll { .. }) {
            break wait;
        }
        let told = st.answer(ask);
        job = st.st.step(&mut st.mx, wait, told, 3, st.now);
    };
    let job = st.st.step(&mut st.mx, wait, Told::Failed, 3, st.now);
    let Job::Next { ask, wait } = job else {
        panic!("job");
    };
    let Ask::Claim { code: first } = ask else {
        panic!("ask");
    };
    let job = st.st.step(&mut st.mx, wait, Told::Failed, 3, st.now);
    let Outcome::CreatedMany(codes) = st.run(job) else {
        panic!("outcome");
    };
    assert_ne!(codes[0], first);
    for (i, c) in codes.iter().enumerate() {
        assert_eq!(st.resolve(c).as_deref(), Some(urls[i].as_str()));
    }
}

#[test]
fn a_database_that_fails_grants_nothing() {
    let mut st = rocks();
    let code = || "a".to_string();
    let plans = vec![
        Plan::Resolve { code: code() },
        Plan::Stats { code: code() },
        Plan::Remove { code: code() },
        Plan::Shorten {
            url: "https://a.com".to_string(),
            alias: Some(code()),
            ttl_ms: 0,
        },
        Plan::Update {
            code: code(),
            url: "https://a.com".to_string(),
            ttl_ms: 0,
            has_ttl: false,
        },
    ];
    for p in plans {
        let Job::Next { wait, .. } = st.st.begin(&mut st.mx, &p, 1) else {
            panic!("job");
        };
        let Job::Done(o) = st.st.step(&mut st.mx, wait, Told::Failed, 3, 1) else {
            panic!("job");
        };
        assert!(matches!(
            o,
            Outcome::Target(None)
                | Outcome::Found(None)
                | Outcome::Created(None)
                | Outcome::Changed(MutResult::Missing)
        ));
    }
}

#[test]
fn a_taken_code_is_not_overwritten() {
    let mut st = rocks();
    let urls: Vec<String> = (0..3).map(|i| format!("https://n{i}.com")).collect();
    let p = Plan::Bulk {
        urls: urls.clone(),
        ttl_ms: 0,
    };
    let job = st.st.begin(&mut st.mx, &p, st.now);
    let Job::Next { ask, wait } = job else {
        panic!("job");
    };
    let Ask::Claim { code: old } = ask else {
        panic!("ask");
    };
    st.db.links.insert(old.clone().into_bytes(), b"0|1|https://old.com".to_vec());
    let told = st.answer(Ask::Claim { code: old.clone() });
    let job = st.st.step(&mut st.mx, wait, told, 3, st.now);
    let Outcome::CreatedMany(codes) = st.run(job) else {
        panic!("outcome");
    };
    assert_eq!(codes.len(), 3);
    assert!(!codes.contains(&old));
    assert_eq!(st.resolve(&old).as_deref(), Some("https://old.com"));
    for (i, c) in codes.iter().enumerate() {
        assert_eq!(st.resolve(c).as_deref(), Some(urls[i].as_str()));
    }
}

#[test]
fn rows_of_many_links_have_their_codes() {
    let st = rocks();
    let codes = vec!["a".to_string(), "b".to_string()];
    let urls = vec!["https://a.com".to_string(), "https://b.com".to_string()];
    let rows = st.st.shorten_many(&codes, &urls, 7, 5);
    assert_eq!(rows[0], ("a".to_string(), b"12|5|https://a.com".to_vec()));
    assert_eq!(rows[1], ("b".to_string(), b"12|5|https://b.com".to_vec()));
}

#[test]
fn without_a_cache_every_read_goes_to_the_database() {
    let mut st = rocks();
    st.st = RocksStore::open(0, 7, 0, 50);
    st.shorten("https://a.com", Some("gh"), 0);
    assert_eq!(st.resolve("gh").as_deref(), Some("https://a.com"));
    st.db.links.clear();
    assert!(st.resolve("gh").is_none());
}
