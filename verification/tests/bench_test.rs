use shrt::bench::{
    alias, bulk_body, get_req, link_body, post_req, read_resp, status_of, Drive, Reading,
};
use shrt::config::{data_dir, env_str, port, role};

#[test]
fn requests_have_these_bytes() {
    assert_eq!(get_req("/bk1"), b"GET /bk1 HTTP/1.1\r\nHost: x\r\n\r\n");
    assert_eq!(
        post_req("/p", b"abc"),
        b"POST /p HTTP/1.1\r\nHost: x\r\ncontent-type: application/json\r\ncontent-length: 3\r\n\r\nabc"
    );
    assert_eq!(alias(12), b"bk12");
    assert_eq!(
        link_body(3),
        b"{\"url\":\"https://bench.example/3\",\"alias\":\"bk3\"}"
    );
    assert_eq!(
        bulk_body(2),
        b"{\"urls\":[\"https://b.example/0\",\"https://b.example/1\"]}"
    );
    assert_eq!(bulk_body(0), b"{\"urls\":[]}");
}

fn whole(b: &[u8], at: usize, eof: bool) -> Option<(u16, usize)> {
    match read_resp(b, at, eof) {
        Reading::Whole(s, n) => Some((s, n)),
        _ => None,
    }
}

#[test]
fn responses_are_read_by_length() {
    let b = b"HTTP/1.1 201 Created\r\nContent-Length: 4\r\nx: y\r\n\r\nabcdHTTP/1.1 404 No\r\n\r\n";
    assert_eq!(whole(b, 0, false), Some((201, 53)));
    assert_eq!(whole(b, 53, false), Some((404, b.len())));
    assert!(matches!(read_resp(&b[..52], 0, false), Reading::More));
    assert!(matches!(read_resp(&b[..52], 0, true), Reading::Broken));
    assert!(matches!(read_resp(&b[..30], 0, false), Reading::More));
    assert!(matches!(read_resp(b"", 0, true), Reading::Broken));
    assert!(matches!(read_resp(b"", 0, false), Reading::More));
}

#[test]
fn responses_are_read_in_chunks() {
    let b = b"HTTP/1.1 200 OK\r\nTransfer-Encoding: gzip, chunked\r\n\r\n3\r\nabc\r\nA\r\n0123456789\r\n0\r\n\r\nrest";
    assert_eq!(whole(b, 0, false), Some((200, b.len() - 4)));
    assert!(matches!(read_resp(&b[..60], 0, false), Reading::More));
    assert!(matches!(read_resp(b"HTTP/1.1 200 OK\xff\r\n\r\n", 0, false), Reading::Broken));
}

#[test]
fn a_first_line_without_a_status_counts_as_zero() {
    let chars: Vec<char> = "nonsense".chars().collect();
    assert_eq!(status_of(&chars), 0);
    let chars: Vec<char> = "HTTP/1.1 99999 x".chars().collect();
    assert_eq!(status_of(&chars), 0);
    let chars: Vec<char> = "  HTTP/1.1\t503".chars().collect();
    assert_eq!(status_of(&chars), 503);
}

#[test]
fn a_connection_counts_what_it_drives() {
    let mut d = Drive::new(7, 3, 2);
    assert_eq!(d.to_send(), Some(1));
    d.sent(true);
    assert_eq!(d.to_send(), Some(2));
    d.sent(true);
    assert_eq!(d.to_send(), None);
    assert!(d.turn());
    d.read(Some(302));
    d.read(Some(404));
    assert!(!d.to_read());
    assert_eq!(d.round(), 2);
    assert_eq!(d.to_send(), Some(0));
    d.sent(false);
    assert_eq!(d.to_send(), None);
    assert!(!d.turn());
    assert_eq!(d.round(), 0);
    assert_eq!(d.counts(), (2, 1, 1));
}

#[test]
fn a_failed_read_ends_a_round() {
    let mut d = Drive::new(0, 1, 3);
    for _ in 0..3 {
        d.sent(true);
    }
    assert!(d.turn());
    d.read(Some(200));
    d.read(None);
    assert!(!d.to_read());
    assert_eq!(d.round(), 1);
    assert_eq!(d.counts(), (1, 0, 1));
}

#[test]
fn only_the_first_process_starts_workers() {
    let r = role(4, 10, false);
    assert_eq!((r.seed, r.workers), (10, Some(4)));
    let r = role(4, -1, true);
    assert_eq!((r.seed, r.workers), (0, None));
    assert_eq!(role(1, 0, false).workers, None);
    assert_eq!(port(None), 3000);
    assert_eq!(port(Some("81")), 81);
    assert_eq!(data_dir(None), "data");
    assert_eq!(env_str(Some(""), "x"), "");
}
