use std::collections::{HashMap, HashSet};

use shrt::aof::{claim_instance, claim_start, lock_name, replay_file, shard_files, Claim, ClaimEvent};
use shrt::base62;
use shrt::store::{
    log_name, ms_of, must_claim, now_ms, snap_name, snap_of, tail_ms, track_hits, Lookup, Missed,
    MutResult, OpenError, Store,
};

/// The files of a directory.
struct Disk {
    files: HashMap<String, Vec<u8>>,
}

impl Disk {
    fn new() -> Disk {
        Disk { files: HashMap::new() }
    }

    fn read(&self, name: &str) -> Vec<u8> {
        self.files.get(name).cloned().unwrap_or_default()
    }

    fn names(&self) -> Vec<String> {
        self.files.keys().cloned().collect()
    }

    /// Claims a free instance id by lock files.
    fn claim(&mut self) -> i32 {
        let mut c = claim_start();
        loop {
            let ev = match c {
                Claim::Lock { id, .. } => {
                    let name = String::from_utf8(lock_name(id)).unwrap();
                    let free = !self.files.contains_key(&name);
                    if free {
                        self.files.insert(name, b"77".to_vec());
                    }
                    ClaimEvent::Locked(free)
                }
                Claim::Read { id } => {
                    let name = String::from_utf8(lock_name(id)).unwrap();
                    ClaimEvent::Contents(String::from_utf8(self.read(&name)).ok())
                }
                Claim::Probe { pid, .. } => ClaimEvent::Alive(pid == 77),
                Claim::Steal { id } => {
                    let name = String::from_utf8(lock_name(id)).unwrap();
                    self.files.remove(&name);
                    ClaimEvent::Removed
                }
                Claim::Done { id } => return id,
                Claim::Full => panic!("no id is free"),
            };
            c = claim_instance(c, ev);
        }
    }

    /// Opens the store of an instance; a negative id claims one.
    fn open(&mut self, instance: i32) -> Store {
        let claimed = if must_claim("dir", instance) { Some(self.claim()) } else { None };
        let mut st = Store::new("dir", instance, claimed).unwrap();
        let id = st.instance();
        let own = log_name(id);
        let mut siblings = Vec::new();
        for name in shard_files(&self.names(), &own) {
            let i: i32 = name["data-".len()..name.len() - ".log".len()].parse().unwrap();
            siblings.push((name, self.read(&snap_name(i))));
        }
        st.load_all(&self.read(&snap_name(id)), &self.read(&own), &siblings);
        self.files.entry(own).or_default();
        self.poll(&mut st);
        st
    }

    fn flush(&mut self, st: &mut Store) {
        st.flush();
        let bytes = st.take_log();
        self.files.entry(st.own_name()).or_default().extend(bytes);
    }

    fn follow(&mut self, st: &mut Store, name: &str) {
        let log = self.read(name);
        if let Some((from, count)) = st.tail_from(name, log.len() as u64) {
            let (from, count) = (from as usize, count as usize);
            st.tail_read(name, &log[from..from + count]);
        }
    }

    fn poll(&mut self, st: &mut Store) {
        for name in st.poll_tails(&self.names()) {
            self.follow(st, &name);
        }
        st.polled(now_ms());
    }

    /// Resolves a code; on a miss it reads on what siblings have logged.
    fn resolve(&mut self, st: &mut Store, code: &str) -> Option<String> {
        match st.resolve_at(code, now_ms()) {
            Lookup::Hit(u) => return Some(u),
            Lookup::Expired => return None,
            Lookup::Miss => {}
        }
        match st.tail_missed(code, now_ms()) {
            Missed::Nothing => return None,
            Missed::Log(name) => self.follow(st, &name),
            Missed::All => self.poll(st),
        }
        st.resolve(code)
    }

    fn compact(&mut self, st: &mut Store, id: i32) {
        let snap = st.compact().unwrap();
        self.files.insert(snap_name(id), snap);
        self.files.insert(log_name(id), Vec::new());
    }
}

fn memory() -> Store {
    Store::new(":memory:", -1, None).unwrap()
}

#[test]
fn base62_encode() {
    for (n, want) in [(0u64, "0"), (1, "1"), (61, "Z"), (62, "10"), (3843, "ZZ")] {
        assert_eq!(base62::encode(n), want, "encode({n})");
    }
}

#[test]
fn shorten_generates_random_8char_codes() {
    let mut s = memory();
    let a = s.shorten("https://example.com", None, 0).unwrap();
    let b = s.shorten("https://example.org", None, 0).unwrap();
    let ok = |c: &str| c.len() == 8 && c.bytes().all(|b| b.is_ascii_alphanumeric());
    assert!(ok(&a) && ok(&b), "bad codes {a} {b}");
    assert_ne!(a, b, "duplicate codes");
}

#[test]
fn resolve_counts_hits() {
    let mut s = memory();
    let code = s.shorten("https://example.com", None, 0).unwrap();
    for _ in 0..2 {
        assert_eq!(s.resolve(&code).unwrap(), "https://example.com");
    }
    let st = s.stats(&code).unwrap();
    assert_eq!(st.hits, 2);
    assert_eq!(st.url, "https://example.com");
}

#[test]
fn resolve_misses() {
    let mut s = memory();
    assert!(s.resolve("nope").is_none());
    assert!(s.stats("nope").is_none());
}

#[test]
fn alias_collision() {
    let mut s = memory();
    assert_eq!(s.shorten("https://a.com", Some("my-link"), 0).unwrap(), "my-link");
    assert_eq!(s.resolve("my-link").unwrap(), "https://a.com");
    assert!(s.shorten("https://b.com", Some("my-link"), 0).is_none());
    let gen = s.shorten("https://c.com", None, 0).unwrap();
    assert_ne!(gen, "my-link");
    assert_eq!(s.resolve(&gen).unwrap(), "https://c.com");
}

#[test]
fn expired_links_stop_resolving() {
    let mut s = memory();
    let now = now_ms();
    let code = s.shorten_at("https://example.com", None, 1, now).unwrap();
    assert!(matches!(s.resolve_at(&code, now), Lookup::Hit(_)));
    assert!(matches!(s.resolve_at(&code, now + 5), Lookup::Expired), "expired link resolved");
}

#[test]
fn shorten_many_aligned() {
    let mut s = memory();
    let urls: Vec<String> = ["https://a.com", "https://b.com", "https://c.com"]
        .iter()
        .map(|s| s.to_string())
        .collect();
    let codes = s.shorten_many(&urls, 0);
    assert_eq!(codes.len(), 3);
    let mut seen = HashSet::new();
    for c in &codes {
        seen.insert(c.clone());
    }
    assert_eq!(seen.len(), 3, "duplicate codes");
    for (i, c) in codes.iter().enumerate() {
        assert_eq!(s.resolve(c).unwrap(), urls[i]);
    }
}

#[test]
fn persists_across_reopen() {
    let mut disk = Disk::new();
    let mut s1 = disk.open(-1);
    let code = s1.shorten("https://example.com", None, 0).unwrap();
    s1.resolve(&code);
    s1.resolve(&code);
    disk.flush(&mut s1);

    let mut s2 = disk.open(0);
    assert_eq!(s2.resolve(&code).unwrap(), "https://example.com");
    assert_eq!(s2.stats(&code).unwrap().hits, 3);
}

#[test]
fn codes_prefix_sharded() {
    let mut disk = Disk::new();
    let mut a = disk.open(0);
    let mut b = disk.open(1);
    let ca = a.shorten("https://a.com", None, 0).unwrap();
    let cb = b.shorten("https://b.com", None, 0).unwrap();
    assert_ne!(ca, cb);
    assert_ne!(ca.as_bytes()[0], cb.as_bytes()[0], "codes not prefix-disjoint");
}

#[test]
fn sibling_tailing_converges() {
    let mut disk = Disk::new();
    let mut a = disk.open(0);
    let mut b = disk.open(1);
    let code = a.shorten("https://a.com", None, 0).unwrap();
    disk.flush(&mut a);
    disk.poll(&mut b);
    assert_eq!(b.resolve(&code).unwrap(), "https://a.com");
}

#[test]
fn sibling_sees_hits_via_tail() {
    let mut disk = Disk::new();
    let mut a = disk.open(0);
    let mut b = disk.open(1);
    let code = a.shorten("https://a.com", None, 0).unwrap();
    disk.flush(&mut a);
    disk.poll(&mut b);
    a.resolve(&code);
    a.resolve(&code);
    disk.flush(&mut a);
    disk.poll(&mut b);
    assert_eq!(b.stats(&code).unwrap().hits, 2);
}

#[test]
fn remove_tombstone_survives_reopen() {
    let mut disk = Disk::new();
    let mut s1 = disk.open(-1);
    let code = s1.shorten("https://example.com", None, 0).unwrap();
    assert_eq!(s1.remove(&code), MutResult::Done);
    assert!(s1.resolve(&code).is_none());
    disk.flush(&mut s1);

    let mut s2 = disk.open(0);
    assert!(s2.resolve(&code).is_none(), "tombstone not replayed");
    assert_eq!(s2.remove("nope"), MutResult::Missing);
}

#[test]
fn update_persists_across_reopen() {
    let mut disk = Disk::new();
    let mut s1 = disk.open(-1);
    let code = s1.shorten("https://old.example", None, 0).unwrap();
    s1.resolve(&code);
    assert_eq!(s1.update(&code, "https://new.example", 60_000, true), MutResult::Done);
    assert_eq!(s1.resolve(&code).unwrap(), "https://new.example");
    disk.flush(&mut s1);

    let s2 = disk.open(0);
    let e = s2.stats(&code).unwrap();
    assert_eq!(e.url, "https://new.example");
    assert!(e.expires_at.unwrap_or(0) > now_ms(), "expiry not preserved");
    assert!(e.hits >= 1, "hits = {}", e.hits);
}

#[test]
fn remote_owned_mutations_return_remote() {
    let mut disk = Disk::new();
    let mut a = disk.open(0);
    let mut b = disk.open(1);
    let code = a.shorten("https://a.example", None, 0).unwrap();
    disk.flush(&mut a);
    disk.poll(&mut b);
    assert_eq!(b.update(&code, "https://x.example", 0, false), MutResult::Remote);
    assert_eq!(b.remove(&code), MutResult::Remote);
    assert_eq!(a.remove(&code), MutResult::Done);
}

#[test]
fn list_paginates_sorts_filters() {
    let mut s = memory();
    let a = s.shorten("https://aaa.example", None, 0).unwrap();
    s.shorten("https://bbb.example", None, 0);
    s.shorten("https://ccc.example", None, 0);
    s.resolve(&a);
    s.resolve(&a);

    let (links, total) = s.list(50, 0, "created", "");
    assert_eq!(total, 3);
    assert_eq!(links.len(), 3);
    let (page, _) = s.list(2, 0, "created", "");
    assert_eq!(page.len(), 2);
    let (by_hits, _) = s.list(50, 0, "hits", "");
    assert_eq!(by_hits[0].code, a);
    let (filtered, ftotal) = s.list(50, 0, "created", "bbb");
    assert_eq!(ftotal, 1);
    assert_eq!(filtered[0].url, "https://bbb.example");
}

#[test]
fn compact_preserves_rows_and_truncates() {
    let mut disk = Disk::new();
    let mut s = disk.open(0);
    let code = s.shorten("https://example.com", None, 0).unwrap();
    s.resolve(&code);
    disk.compact(&mut s, 0);
    disk.flush(&mut s);

    assert!(!disk.read("data-0.snap").is_empty(), "snapshot empty");
    assert!(disk.read("data-0.log").is_empty());

    let mut s2 = disk.open(0);
    assert_eq!(s2.resolve(&code).unwrap(), "https://example.com");
    assert_eq!(s2.stats(&code).unwrap().hits, 2);
}

#[test]
fn a_miss_reads_the_log_of_the_owner() {
    let mut disk = Disk::new();
    let mut a = disk.open(0);
    let mut b = disk.open(1);
    let code = a.shorten("https://lazy.example", None, 0).unwrap();
    disk.flush(&mut a);
    assert!(b.resolve(&code).is_none());
    assert_eq!(disk.resolve(&mut b, &code).unwrap(), "https://lazy.example");
}

#[test]
fn a_sibling_that_comes_later_has_its_snapshot() {
    let mut disk = Disk::new();
    let mut a = disk.open(0);
    a.shorten("https://early.example", Some("early"), 0);
    disk.compact(&mut a, 0);
    let mut b = disk.open(1);
    assert_eq!(b.resolve("early").unwrap(), "https://early.example");
}

#[test]
fn ids_are_claimed_in_order() {
    let mut disk = Disk::new();
    assert_eq!(disk.claim(), 0);
    assert_eq!(disk.claim(), 1);
    disk.files.insert("instance-0.lock".to_string(), b"5".to_vec());
    assert_eq!(disk.claim(), 0, "the holder is gone");
    assert_eq!(disk.read("instance-0.lock"), b"77");
    assert_eq!(disk.claim(), 2);
}

#[test]
fn stores_that_cannot_be_opened() {
    assert!(matches!(Store::new("dir", -1, None), Err(OpenError::NoFreeId)));
    assert!(matches!(Store::new("dir", -1, Some(62)), Err(OpenError::TooHigh(62))));
    assert_eq!(Store::new("dir", -1, Some(5)).unwrap().instance(), 5);
    assert_eq!(Store::new("dir", 4, Some(5)).unwrap().instance(), 4);
    assert!(must_claim("dir", -1));
    assert!(!must_claim("dir", 0));
    assert!(!must_claim(":memory:", -1));
    assert!(matches!(Store::new("dir", 62, None), Err(OpenError::TooHigh(62))));
    assert!(Store::new("dir", 61, None).is_ok());
    assert_eq!(memory().instance(), 0);
    assert!(!memory().persistent());
    assert!(Store::new("dir", 3, None).unwrap().persistent());
}

#[test]
fn a_torn_line_is_left_out() {
    let mut s = Store::new("dir", 0, None).unwrap();
    s.shorten_at("https://one.example", Some("one"), 0, 5);
    s.shorten_at("https://two.example", Some("two"), 0, 5);
    s.flush();
    let log = s.take_log();
    assert_eq!(replay_file(&log).len(), 2);
    let mut t = Store::new("dir", 0, None).unwrap();
    t.replay(&log[..log.len() - 3]);
    assert!(t.stats("one").is_some());
    assert!(t.stats("two").is_none());
}

#[test]
fn the_log_holds_one_line_for_each_change() {
    let mut s = Store::new("dir", 7, None).unwrap();
    s.shorten_at("https://a.example/\"q\"", Some("al"), 0, 5);
    s.resolve_at("al", 6);
    s.update_at("al", "https://b.example", 10, true, 7);
    s.remove("al");
    s.flush();
    let log = String::from_utf8(s.take_log()).unwrap();
    let lines: Vec<&str> = log.lines().collect();
    assert_eq!(
        lines[0],
        "{\"c\":\"al\",\"u\":\"https://a.example/\\\"q\\\"\",\"a\":5,\"e\":null,\"i\":7,\"n\":0}"
    );
    assert_eq!(
        lines[1],
        "{\"c\":\"al\",\"u\":\"https://b.example\",\"a\":5,\"e\":17,\"i\":7,\"n\":0}"
    );
    assert_eq!(lines[2], "{\"x\":\"al\"}");
}

#[test]
fn hits_are_logged_once() {
    let mut s = Store::new("dir", 7, None).unwrap();
    s.shorten_at("https://a.example", Some("al"), 0, 5);
    s.resolve_at("al", 6);
    s.resolve_at("al", 6);
    s.flush();
    let log = String::from_utf8(s.take_log()).unwrap();
    assert_eq!(log.lines().last().unwrap(), "{\"h\":\"al\",\"d\":2,\"i\":7}");
    s.flush();
    assert!(s.take_log().is_empty());
}

#[test]
fn hits_are_not_counted_when_switched_off() {
    let mut s = memory();
    s.set_track_hits(track_hits(Some("0")));
    s.shorten("https://a.example", Some("al"), 0);
    assert_eq!(s.resolve("al").unwrap(), "https://a.example");
    assert_eq!(s.stats("al").unwrap().hits, 0);
    assert!(track_hits(None) && track_hits(Some("1")));
}

#[test]
fn an_update_keeps_or_clears_the_expiry() {
    let mut s = memory();
    s.shorten_at("https://a.example", Some("al"), 100, 1000);
    assert_eq!(s.stats("al").unwrap().expires_at, Some(1100));
    s.update_at("al", "https://b.example", 0, false, 1050);
    assert_eq!(s.stats("al").unwrap().expires_at, Some(1100));
    s.update_at("al", "https://b.example", 500, true, 1050);
    assert_eq!(s.stats("al").unwrap().expires_at, Some(1550));
    s.update_at("al", "https://b.example", 0, true, 1050);
    assert_eq!(s.stats("al").unwrap().expires_at, None);
    assert_eq!(s.stats("al").unwrap().created_at, 1000);
    assert_eq!(s.update("no", "https://b.example", 0, true), MutResult::Missing);
}

#[test]
fn a_code_that_is_drawn_twice_is_taken_once() {
    let mut s = Store::new("dir", 1, None).unwrap();
    let draw = [0u8, 1, 61, 62, 255, 10, 36];
    let c = s.shorten_drawn("https://a.example", &draw, 0, 5).unwrap();
    assert_eq!(c, "101Z07aA");
    assert!(s.shorten_drawn("https://b.example", &draw, 0, 5).is_none());
    assert_eq!(s.resolve(&c).unwrap(), "https://a.example");
}

#[test]
fn seeding_stores_links() {
    let mut s = Store::new("dir", 0, None).unwrap();
    assert!(s.is_empty());
    let urls = shrt::config::seed_urls(3);
    assert_eq!(urls[2], "https://example.com/2");
    assert_eq!(s.seed(&urls), 3);
    assert!(!s.is_empty());
    assert_eq!(s.list(10, 0, "", "example.com/1").1, 1);
}

#[test]
fn settings_are_read() {
    assert_eq!(tail_ms(Some("250")), 250);
    assert_eq!(tail_ms(Some("-1")), 0);
    assert_eq!(tail_ms(None), 0);
    assert_eq!(shrt::store::read_setting(Some("-7"), 1), -7);
    assert_eq!(shrt::store::read_setting(Some("7x"), 1), 1);
    assert_eq!(shrt::store::read_setting(Some("9223372036854775808"), 1), 1);
}

#[test]
fn the_clock_is_past_its_start() {
    assert!(now_ms() > 1_600_000_000_000);
}

#[test]
fn a_log_has_a_snapshot_beside_it() {
    assert_eq!(snap_of("data-3.log"), "data-3.snap");
    assert_eq!(snap_of("data-x.log.log"), "data-x.snap");
    assert_eq!(snap_of("log"), "log.snap");
}

#[test]
fn a_span_since_the_epoch_is_a_time() {
    assert_eq!(ms_of(None), 0);
    assert_eq!(ms_of(Some(0)), 0);
    assert_eq!(ms_of(Some(1_700_000_000_123)), 1_700_000_000_123);
    assert_eq!(ms_of(Some(i64::MAX as u128)), i64::MAX);
    assert_eq!(ms_of(Some(1u128 << 63)), i64::MIN);
    assert_eq!(ms_of(Some((1u128 << 64) + 5)), 5);
    assert!(now_ms() > 1_600_000_000_000);
}

#[test]
fn a_store_comes_back_again_and_again() {
    let mut disk = Disk::new();
    let mut s = disk.open(0);
    for c in ["keep", "gone", "other"] {
        s.shorten("https://a.com", Some(c), 0).unwrap();
        s.resolve(c);
    }
    disk.flush(&mut s);
    for round in 1..4 {
        let mut s = disk.open(0);
        assert_eq!(s.stats("keep").unwrap().hits, round);
        if round == 1 {
            assert_eq!(s.remove("gone"), MutResult::Done);
            assert_eq!(s.update("other", "https://b.com", 0, false), MutResult::Done);
        } else {
            assert!(s.stats("gone").is_none());
            assert_eq!(s.stats("other").unwrap().url, "https://b.com");
        }
        if round == 2 {
            disk.compact(&mut s, 0);
        }
        s.resolve("keep");
        disk.flush(&mut s);
    }
}

#[test]
fn siblings_add_each_others_hits() {
    let mut disk = Disk::new();
    let mut a = disk.open(0);
    let mut b = disk.open(1);
    a.shorten("https://a.com", Some("both"), 0).unwrap();
    a.resolve("both");
    disk.flush(&mut a);
    disk.poll(&mut b);
    assert_eq!(b.stats("both").unwrap().hits, 1);
    b.resolve("both");
    b.resolve("both");
    disk.flush(&mut b);
    disk.poll(&mut a);
    assert_eq!(a.stats("both").unwrap().hits, 3);
    a.resolve("both");
    disk.flush(&mut a);
    disk.poll(&mut b);
    assert_eq!(b.stats("both").unwrap().hits, 4);
}

#[test]
fn an_alias_is_looked_for_in_all_logs() {
    let mut disk = Disk::new();
    let mut s = disk.open(0);
    let later = now_ms() + 10_000;
    assert!(matches!(s.tail_missed("cool", later), Missed::All));
    assert!(matches!(s.tail_missed("c-123456", later), Missed::All));
    assert!(matches!(s.tail_missed("c12345678", later), Missed::All));
    assert!(matches!(s.tail_missed("01234567", later), Missed::All));
    match s.tail_missed("c1234567", later) {
        Missed::Log(name) => assert_eq!(name, "data-12.log"),
        _ => panic!("log"),
    }
    assert!(matches!(s.tail_missed("cool", later), Missed::Nothing));
}

#[test]
fn the_lowest_id_that_can_be_claimed_is_opened() {
    let mut disk = Disk::new();
    disk.files.insert("instance-0.lock".to_string(), b"77".to_vec());
    disk.files.insert("instance-1.lock".to_string(), b"no process".to_vec());
    disk.files.insert("instance-2.lock".to_string(), b" 5\n".to_vec());
    let st = disk.open(-1);
    assert_eq!(st.instance(), 2, "its holder is gone");
    assert_eq!(disk.open(-1).instance(), 3);
    assert_eq!(disk.read("instance-1.lock"), b"no process");
}
