use shrt::aof::{claim_instance, claim_start, replay_file, Aof, Claim, ClaimEvent, TailReader};
use shrt::base62::{alpha_idx, encode, letter};
use shrt::codec::{del_line, esc, hit_line, itoa, parse_op, row_line, unescape, Op};
use shrt::listing::{paginate, Order};
use shrt::metrics::{
    cache_hit, init, limited, links_delta, op, prometheus, snapshot, status, store_read,
    store_write, tick, Metrics,
};
use shrt::server_hyper::Intake;
use shrt::store::{Link, Store};
use shrt::store_kv::{hkey, lkey};
use shrt::store_rocks::hits_merge;

fn parsed(line: &[u8]) -> Option<Op> {
    let mut o = Op::default();
    if parse_op(line, &mut o) {
        Some(o)
    } else {
        None
    }
}

#[test]
fn urls_are_escaped_and_read_back() {
    for u in [
        "https://a.com/\"x\\y\"",
        "line\nbreak\r\ttab",
        "bell\u{7}\u{1f}",
        "caf\u{e9} \u{4e2d}\u{1f600}",
        "",
    ] {
        let mut b = Vec::new();
        esc(&mut b, u);
        assert!(b.iter().all(|c| *c >= 32 && *c != b'\n'), "{u:?}");
        assert_eq!(unescape(&b), u);
    }
}

#[test]
fn ill_formed_bytes_are_replaced() {
    assert_eq!(unescape(b"a\xffb"), "a\u{fffd}b");
}

#[test]
fn escapes_stand_for_characters() {
    assert_eq!(unescape(b"\\u0041\\n\\t\\/\\\\\\\""), "A\n\t/\\\"");
}

#[test]
fn rows_read_back() {
    let line = row_line("abc", "https://a.com/\"q\"", 5, 17, 3, 9);
    assert!(!line.contains(&b'\n'));
    let o = parsed(&line).unwrap();
    assert_eq!((o.c.as_str(), o.u.as_str()), ("abc", "https://a.com/\"q\""));
    assert_eq!((o.a, o.e, o.has_e, o.i, o.n), (5, 17, true, 3, 9));
    let o = parsed(&row_line("abc", "u", i64::MIN, 0, 3, i64::MAX)).unwrap();
    assert_eq!((o.a, o.e, o.has_e, o.n), (i64::MIN, 0, false, i64::MAX));
}

#[test]
fn hits_and_tombstones_read_back() {
    let o = parsed(&hit_line("abc", 12, 4)).unwrap();
    assert_eq!((o.h.as_str(), o.d, o.i), ("abc", 12, 4));
    let o = parsed(&del_line("abc")).unwrap();
    assert_eq!(o.x, "abc");
}

#[test]
fn other_lines_do_not_count() {
    for l in ["", "{}", "{\"c\":", "{\"q\":\"abc\"}", "nonsense"] {
        assert!(parsed(l.as_bytes()).is_none(), "{l}");
    }
}

#[test]
fn numbers_are_written_in_decimal() {
    for n in [0i64, 7, -1, 1234567890, i64::MAX, i64::MIN] {
        let mut b = Vec::new();
        itoa(&mut b, n);
        assert_eq!(String::from_utf8(b).unwrap(), n.to_string());
    }
}

#[test]
fn letters_read_back() {
    for d in 0..62 {
        assert_eq!(alpha_idx(letter(d)), d as i32);
    }
    assert_eq!(alpha_idx(b'-'), -1);
    assert_eq!(encode(u64::MAX).len(), 11);
}

#[test]
fn a_log_reads_the_same_in_pieces() {
    let log = b"one\n\ntwo\nthree\nfo";
    let want: Vec<Vec<u8>> = vec![b"one".to_vec(), b"two".to_vec(), b"three".to_vec()];
    assert_eq!(replay_file(log), want);
    for cut in 0..log.len() {
        let mut t = TailReader::from_start("data-1.log".to_string());
        let mut got = Vec::new();
        for end in [cut, log.len()] {
            if let Some((from, count)) = t.to_read(end as u64) {
                let (from, count) = (from as usize, count as usize);
                got.extend(t.read_new(&log[from..from + count]));
            }
        }
        assert_eq!(got, want, "cut at {cut}");
        let front = replay_file(&log[..cut]);
        assert_eq!(front[..], want[..front.len()], "cut at {cut}");
    }
}

#[test]
fn a_log_that_shrank_is_read_from_the_start() {
    let mut t = TailReader::from_start("data-1.log".to_string());
    assert_eq!(t.to_read(4), Some((0, 4)));
    assert_eq!(t.read_new(b"one\n").len(), 1);
    assert_eq!(t.to_read(4), None);
    assert_eq!(t.to_read(2), Some((0, 2)));
}

#[test]
fn queued_lines_are_handed_over_together() {
    let mut a = Aof::new();
    a.push(b"one");
    a.push_raw(b"two\n");
    assert_eq!(a.pending_bytes(), 8);
    assert!(a.take().is_empty());
    a.flush();
    assert_eq!(a.pending_bytes(), 0);
    assert_eq!(a.take(), b"one\ntwo\n");
    a.push(b"three");
    a.truncate();
    a.flush();
    assert!(a.take().is_empty());
}

#[test]
fn a_claim_ends_when_no_id_is_free() {
    let mut c = claim_start();
    let mut tried = 0;
    loop {
        c = match c {
            Claim::Lock { id, .. } => {
                assert_eq!(id, tried);
                tried += 1;
                claim_instance(c, ClaimEvent::Locked(false))
            }
            Claim::Read { id } if id % 2 == 0 => claim_instance(c, ClaimEvent::Contents(None)),
            Claim::Read { .. } => {
                claim_instance(c, ClaimEvent::Contents(Some(" 12\n".to_string())))
            }
            Claim::Probe { pid, .. } => {
                assert_eq!(pid, 12);
                claim_instance(c, ClaimEvent::Alive(true))
            }
            Claim::Full => break,
            _ => panic!("claimed"),
        };
    }
    assert_eq!(tried, 1024);
}

#[test]
fn a_row_that_is_read_twice_counts_once() {
    let line = row_line("abc", "https://a.com", 5, 0, 3, 9);
    let mut s = Store::new("dir", 0, None).unwrap();
    s.apply_line(&line);
    s.apply_line(&line);
    let l = s.stats("abc").unwrap();
    assert_eq!((l.url.as_str(), l.hits), ("https://a.com", 9));
    assert_eq!(s.list(10, 0, "", "").1, 1);
}

#[test]
fn hits_that_come_before_their_row_are_kept() {
    let mut s = Store::new("dir", 0, None).unwrap();
    s.apply_line(&hit_line("abc", 2, 3));
    assert!(s.stats("abc").is_none());
    s.apply_line(&row_line("abc", "https://a.com", 5, 0, 3, 1));
    assert_eq!(s.stats("abc").unwrap().hits, 3);
    s.apply_line(&del_line("abc"));
    assert!(s.stats("abc").is_none());
}

fn link(code: &str, hits: i64, created_at: i64) -> Link {
    Link {
        code: code.to_string(),
        url: "u".to_string(),
        hits,
        created_at,
        expires_at: None,
    }
}

#[test]
fn links_of_equal_rank_keep_their_order() {
    let items = vec![link("a", 1, 5), link("b", 3, 1), link("c", 1, 9), link("d", 3, 2)];
    let codes = |order: Order, limit: usize, offset: usize| -> Vec<String> {
        paginate(&items, order, limit, offset)
            .into_iter()
            .map(|l| l.code)
            .collect()
    };
    assert_eq!(codes(Order::Hits, 10, 0), ["b", "d", "a", "c"]);
    assert_eq!(codes(Order::Created, 10, 0), ["c", "a", "d", "b"]);
    assert_eq!(codes(Order::Created, 2, 1), ["a", "d"]);
    assert!(codes(Order::Created, 2, 4).is_empty());
}

#[test]
fn ticks_are_counted_by_the_second() {
    let mut m = Metrics::new();
    init(&mut m, 10_000);
    for now in [40_000, 40_100, 41_000, 45_000, 46_900] {
        tick(&mut m, now);
    }
    let s = String::from_utf8(snapshot(&m, 46_950)).unwrap();
    assert_eq!(
        s,
        "{\"req_s\":0.4,\"total\":5,\"uptime_s\":36,\"per_second\":[0,0,0,0,0,0,0,0,0,0,0,0,0,0,0,0,0,0,0,0,0,0,0,0,2,1,0,0,0,1,1]}"
    );
}

#[test]
fn counters_are_exposed() {
    let mut m = Metrics::new();
    init(&mut m, 0);
    op(&mut m, 0);
    status(&mut m, 404);
    cache_hit(&mut m);
    store_read(&mut m, 70);
    store_write(&mut m);
    links_delta(&mut m, 5);
    links_delta(&mut m, -2);
    limited(&mut m);
    let t = String::from_utf8(prometheus(&m, 9_999)).unwrap();
    for line in [
        "shrt_responses_total{class=\"4xx\"} 1\n",
        "shrt_cache_lookups_total{result=\"hit\"} 1\n",
        "shrt_cache_lookups_total{result=\"miss\"} 0\n",
        "# TYPE shrt_store_read_us_total counter\nshrt_store_read_us_total 70\n",
        "shrt_store_reads_total 1\n",
        "shrt_store_writes_total 1\n",
        "shrt_links_total 3\n",
        "shrt_rate_limited_total 1\n",
        "shrt_uptime_seconds 9\n",
    ] {
        assert!(t.contains(line), "{line} in {t}");
    }
}

#[test]
fn a_body_of_the_longest_length_is_taken() {
    let mut i = Intake::new("/api/shorten");
    assert!(i.add(&[7u8; 4000]));
    assert!(i.add(&[8u8; 96]));
    assert_eq!(i.finish().unwrap().len(), 4096);
    let mut i = Intake::new("/api/shorten?x");
    assert!(i.add(&[7u8; 4096]));
    assert!(!i.add(&[8u8; 1]));
    assert!(!i.add(&[]));
    assert!(i.finish().is_none());
    assert!(Intake::new("/api/shorten/bulk").add(&[0u8; 4097]));
}

#[test]
fn keys_of_links_and_hits_differ() {
    assert_eq!(lkey("ab"), b"l:ab");
    assert_eq!(hkey("ab"), b"h:ab");
    assert_ne!(lkey("a"), lkey("b"));
}

#[test]
fn hits_merge_in_any_grouping() {
    let ops: Vec<Vec<u8>> = [3u64, 5, u64::MAX, 1 << 40]
        .iter()
        .map(|n| n.to_le_bytes().to_vec())
        .collect();
    let start = Some(11u64.to_le_bytes().to_vec());
    let whole = hits_merge(&start, &ops);
    for k in 0..=ops.len() {
        let first = hits_merge(&start, &ops[..k].to_vec());
        assert_eq!(hits_merge(&Some(first), &ops[k..].to_vec()), whole);
        let back = hits_merge(&None, &ops[k..].to_vec());
        let first = hits_merge(&start, &ops[..k].to_vec());
        assert_eq!(hits_merge(&Some(first), &vec![back]), whole);
    }
}

#[test]
fn one_line_of_the_exposition_changes() {
    let mut m = Metrics::new();
    init(&mut m, 0);
    let before = String::from_utf8(prometheus(&m, 0)).unwrap();
    op(&mut m, 4);
    let after = String::from_utf8(prometheus(&m, 0)).unwrap();
    let changed: Vec<(&str, &str)> =
        before.lines().zip(after.lines()).filter(|(a, b)| a != b).collect();
    assert_eq!(
        changed,
        [("shrt_requests_total{op=\"delete\"} 0", "shrt_requests_total{op=\"delete\"} 1")]
    );
    for code in [200, 302, 404, 199, 500, 600] {
        status(&mut m, code);
    }
    let t = String::from_utf8(prometheus(&m, 0)).unwrap();
    for line in ["{class=\"2xx\"} 1\n", "{class=\"3xx\"} 1\n", "{class=\"4xx\"} 1\n"] {
        assert!(t.contains(line), "{line} in {t}");
    }
    assert!(t.contains("{class=\"5xx\"} 3\n"), "{t}");
}
