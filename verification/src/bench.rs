//! The load generator: the requests it sends, the responses it reads, and what it
//! counts.

use vstd::prelude::*;
use vstd::utf8::*;

use crate::text;

verus! {

// ---------- requests ----------

/// A GET request.
pub open spec fn get_bytes(path: Seq<char>) -> Seq<u8> {
    text::lit("GET ") + encode_utf8(path) + text::lit(" HTTP/1.1\r\nHost: x\r\n\r\n")
}

/// A GET request.
pub fn get_req(path: &str) -> (r: Vec<u8>)
    ensures
        r@ == get_bytes(path@),
{
    let mut b: Vec<u8> = text::copy_bytes("GET ".as_bytes());
    text::put(&mut b, path);
    text::put(&mut b, " HTTP/1.1\r\nHost: x\r\n\r\n");
    b
}

/// A POST request with a body.
pub open spec fn post_bytes(path: Seq<char>, body: Seq<u8>) -> Seq<u8> {
    text::lit("POST ") + encode_utf8(path) + text::lit(
        " HTTP/1.1\r\nHost: x\r\ncontent-type: application/json\r\ncontent-length: ",
    ) + text::decimal(body.len() as int) + text::lit("\r\n\r\n") + body
}

/// A POST request with a body.
pub fn post_req(path: &str, body: &[u8]) -> (r: Vec<u8>)
    ensures
        r@ == post_bytes(path@, body@),
{
    let mut b: Vec<u8> = text::copy_bytes("POST ".as_bytes());
    text::put(&mut b, path);
    text::put(
        &mut b,
        " HTTP/1.1\r\nHost: x\r\ncontent-type: application/json\r\ncontent-length: ",
    );
    text::put_u64(&mut b, body.len() as u64);
    text::put(&mut b, "\r\n\r\n");
    text::put_bytes(&mut b, body);
    b
}

/// The alias of link `i`.
pub open spec fn alias_bytes(i: int) -> Seq<u8> {
    text::lit("bk") + text::decimal(i)
}

/// The alias of link `i`.
pub fn alias(i: usize) -> (r: Vec<u8>)
    ensures
        r@ == alias_bytes(i as int),
{
    let mut b: Vec<u8> = text::copy_bytes("bk".as_bytes());
    text::put_u64(&mut b, i as u64);
    b
}

/// The body of a request for link `i` under its alias.
pub open spec fn link_bytes(i: int) -> Seq<u8> {
    text::lit("{\"url\":\"https://bench.example/") + text::decimal(i) + text::lit(
        "\",\"alias\":\"",
    ) + alias_bytes(i) + text::lit("\"}")
}

/// The body of a request for link `i` under its alias.
pub fn link_body(i: usize) -> (r: Vec<u8>)
    ensures
        r@ == link_bytes(i as int),
{
    let mut b: Vec<u8> = text::copy_bytes("{\"url\":\"https://bench.example/".as_bytes());
    text::put_u64(&mut b, i as u64);
    text::put(&mut b, "\",\"alias\":\"");
    let a: Vec<u8> = alias(i);
    text::put_bytes(&mut b, a.as_slice());
    text::put(&mut b, "\"}");
    b
}

/// The first `n` urls of a request for many links, quoted, with commas between.
pub open spec fn url_list(n: int) -> Seq<u8>
    decreases n,
{
    if n <= 0 {
        Seq::empty()
    } else {
        (if n == 1 {
            Seq::empty()
        } else {
            url_list(n - 1) + seq![44u8]
        }) + text::lit("\"https://b.example/") + text::decimal(n - 1) + text::lit("\"")
    }
}

/// The body of a request for `n` links.
pub open spec fn bulk_bytes(n: int) -> Seq<u8> {
    text::lit("{\"urls\":[") + url_list(n) + text::lit("]}")
}

/// The body of a request for `n` links.
pub fn bulk_body(n: usize) -> (r: Vec<u8>)
    ensures
        r@ == bulk_bytes(n as int),
{
    let mut list: Vec<u8> = Vec::new();
    let mut i: usize = 0;
    while i < n
        invariant
            i <= n,
            list@ == url_list(i as int),
        decreases n - i,
    {
        if i > 0 {
            list.push(44);
            assert(list@ =~= url_list(i as int) + seq![44u8]);
        }
        text::put(&mut list, "\"https://b.example/");
        text::put_u64(&mut list, i as u64);
        text::put(&mut list, "\"");
        i += 1;
    }
    let mut b: Vec<u8> = text::copy_bytes("{\"urls\":[".as_bytes());
    text::put_bytes(&mut b, list.as_slice());
    text::put(&mut b, "]}");
    b
}

// ---------- words and numbers ----------

/// How many characters stand before the first white space.
pub open spec fn word_len(t: Seq<char>) -> int
    decreases t.len(),
{
    if t.len() == 0 || text::is_space(t[0]) {
        0
    } else {
        1 + word_len(t.drop_first())
    }
}

/// The second word of a line; empty if there is none.
pub open spec fn second_word(t: Seq<char>) -> Seq<char> {
    let r = text::trim_start(t);
    let s = text::trim_start(r.skip(word_len(r)));
    s.take(word_len(s))
}

fn skip_space(t: &Vec<char>, from: usize) -> (r: usize)
    requires
        from <= t@.len(),
    ensures
        from <= r <= t@.len(),
        t@.skip(r as int) == text::trim_start(t@.skip(from as int)),
{
    let mut i: usize = from;
    while i < t.len() && text::space(t[i])
        invariant
            from <= i <= t@.len(),
            text::trim_start(t@.skip(i as int)) == text::trim_start(t@.skip(from as int)),
        decreases t@.len() - i,
    {
        assert(t@.skip(i as int).drop_first() =~= t@.skip(i + 1));
        i += 1;
    }
    i
}

fn skip_word(t: &Vec<char>, from: usize) -> (r: usize)
    requires
        from <= t@.len(),
    ensures
        from <= r <= t@.len(),
        r - from == word_len(t@.skip(from as int)),
{
    let mut i: usize = from;
    while i < t.len() && !text::space(t[i])
        invariant
            from <= i <= t@.len(),
            i - from + word_len(t@.skip(i as int)) == word_len(t@.skip(from as int)),
        decreases t@.len() - i,
    {
        assert(t@.skip(i as int).drop_first() =~= t@.skip(i + 1));
        i += 1;
    }
    i
}

/// The status in the first line of a response; 0 if there is none.
pub open spec fn status_in(t: Seq<char>) -> int {
    match text::uint_within(second_word(t), u16::MAX as int) {
        Some(n) => n,
        None => 0,
    }
}

/// The status in the first line of a response; 0 if there is none.
pub fn status_of(t: &Vec<char>) -> (r: u16)
    ensures
        r == status_in(t@),
{
    assert(t@.skip(0) =~= t@);
    let a: usize = skip_space(t, 0);
    let b: usize = skip_word(t, a);
    assert(t@.skip(a as int).skip(b - a) =~= t@.skip(b as int));
    let c: usize = skip_space(t, b);
    let d: usize = skip_word(t, c);
    let w: Vec<char> = text::sub_chars(t, c, d);
    assert(w@ =~= t@.skip(c as int).take(d - c));
    match text::parse_u64(&w) {
        Some(n) => if n <= 65535 {
            n as u16
        } else {
            0
        },
        None => 0,
    }
}

/// The value of a hexadecimal digit.
pub open spec fn hex_digit(c: char) -> Option<int> {
    if '0' <= c <= '9' {
        Some(c as int - 48)
    } else if 'a' <= c <= 'f' {
        Some(c as int - 87)
    } else if 'A' <= c <= 'F' {
        Some(c as int - 55)
    } else {
        None
    }
}

/// The number that a run of hexadecimal digits stands for, if it is one.
pub open spec fn hex_value(t: Seq<char>) -> Option<int>
    decreases t.len(),
{
    if t.len() == 0 {
        Some(0)
    } else {
        match (hex_value(t.drop_last()), hex_digit(t.last())) {
            (Some(n), Some(d)) => Some(16 * n + d),
            _ => None,
        }
    }
}

/// What a sign may stand before.
pub open spec fn unsigned(t: Seq<char>) -> Seq<char> {
    if t.len() > 0 && t[0] == '+' {
        t.drop_first()
    } else {
        t
    }
}

/// The length of a chunk; 0 where there is no number that fits.
pub open spec fn chunk_len(t: Seq<char>) -> int {
    let d = unsigned(t);
    if d.len() == 0 {
        0
    } else {
        match hex_value(d) {
            Some(n) => if n <= usize::MAX {
                n
            } else {
                0
            },
            None => 0,
        }
    }
}

fn digit(c: char) -> (r: Option<u64>)
    ensures
        r is Some <==> hex_digit(c) is Some,
        r matches Some(n) ==> Some(n as int) == hex_digit(c) && n < 16,
{
    let u: u32 = c as u32;
    if '0' <= c && c <= '9' {
        Some((u - 48) as u64)
    } else if 'a' <= c && c <= 'f' {
        Some((u - 87) as u64)
    } else if 'A' <= c && c <= 'F' {
        Some((u - 55) as u64)
    } else {
        None
    }
}

proof fn lemma_hex_grows(t: Seq<char>, k: int)
    requires
        0 <= k <= t.len(),
    ensures
        hex_value(t.take(k)) is None ==> hex_value(t) is None,
        hex_value(t) matches Some(n) ==> (hex_value(t.take(k)) matches Some(m) && 0 <= m <= n),
    decreases t.len(),
{
    if k == t.len() {
        assert(t.take(k) =~= t);
        if t.len() > 0 {
            lemma_hex_grows(t.drop_last(), 0);
            assert(t.drop_last().take(0) =~= Seq::empty());
        }
    } else {
        lemma_hex_grows(t.drop_last(), k);
        assert(t.drop_last().take(k) =~= t.take(k));
    }
}

fn chunk_size(t: &Vec<char>) -> (r: usize)
    ensures
        r == chunk_len(t@),
{
    if t.len() == 0 {
        return 0;
    }
    let from: usize = if t[0] == '+' {
        1
    } else {
        0
    };
    let ghost d = unsigned(t@);
    assert(d =~= t@.skip(from as int));
    if from == t.len() {
        return 0;
    }
    let mut n: u64 = 0;
    let mut i: usize = from;
    assert(d.take(0) =~= Seq::empty());
    while i < t.len()
        invariant
            from <= i <= t@.len(),
            d == t@.skip(from as int),
            d == unsigned(t@),
            d.len() > 0,
            n <= usize::MAX,
            hex_value(d.take(i - from)) == Some(n as int),
        decreases t@.len() - i,
    {
        let ghost k = i - from;
        assert(d[k] == t@[i as int]);
        assert(d.take(k + 1).drop_last() =~= d.take(k));
        assert(d.take(k + 1).last() == t@[i as int]);
        match digit(t[i]) {
            None => {
                proof {
                    lemma_hex_grows(d, k + 1);
                }
                return 0;
            },
            Some(x) => {
                let m: u128 = 16 * (n as u128) + x as u128;
                if m > usize::MAX as u128 {
                    proof {
                        lemma_hex_grows(d, k + 1);
                    }
                    return 0;
                }
                n = m as u64;
            },
        }
        i += 1;
    }
    assert(d.take(i - from) =~= d);
    n as usize
}

// ---------- responses ----------

/// Where the line ends that begins at `at`, once it is all there: behind the next
/// line break, or at the end of what the server sends.
pub open spec fn line_end(b: Seq<u8>, at: int, eof: bool) -> Option<int> {
    let p = text::index_from(b, at, 10);
    if p < b.len() {
        Some(p + 1)
    } else if eof {
        Some(b.len() as int)
    } else {
        None
    }
}

fn find_end(b: &[u8], at: usize, eof: bool) -> (r: Option<usize>)
    requires
        at <= b@.len(),
    ensures
        (match r {
            Some(n) => Some(n as int),
            None => None,
        }) == line_end(b@, at as int, eof),
        r matches Some(n) ==> at <= n <= b@.len() && (at < b@.len() ==> at < n),
{
    let p: usize = text::find_byte(b, at, 10);
    if p < b.len() {
        Some(p + 1)
    } else if eof {
        Some(b.len())
    } else {
        None
    }
}

/// A response, read from a stream.
pub enum Reading {
    /// Its status, and where the next one begins.
    Whole(u16, usize),
    /// It is not all there yet.
    More,
    /// It cannot be read.
    Broken,
}

/// A response, read from a stream.
pub ghost enum ReadingView {
    Whole(int, int),
    More,
    Broken,
}

impl View for Reading {
    type V = ReadingView;

    open spec fn view(&self) -> ReadingView {
        match *self {
            Reading::Whole(s, n) => ReadingView::Whole(s as int, n as int),
            Reading::More => ReadingView::More,
            Reading::Broken => ReadingView::Broken,
        }
    }
}

/// What a header says of the body: how long it is, and whether it comes in chunks.
pub ghost struct Framing {
    pub length: int,
    pub chunked: bool,
}

/// What the headers say of the body, with one more of them.
pub open spec fn framed(f: Framing, line: Seq<char>) -> Framing {
    let p = text::char_index(line, 0, ':');
    if p >= line.len() {
        f
    } else {
        let name = text::lowered(encode_utf8(line.take(p)));
        let value = text::trim(line.skip(p + 1));
        if name == text::lowered(text::lit("content-length")) {
            Framing {
                length: match text::uint_within(value, usize::MAX as int) {
                    Some(n) => n,
                    None => 0,
                },
                ..f
            }
        } else if name == text::lowered(text::lit("transfer-encoding")) && text::holds(
            encode_utf8(value),
            text::lit("chunked"),
        ) {
            Framing { chunked: true, ..f }
        } else {
            f
        }
    }
}

/// The rest of a response from where its body begins.
pub open spec fn sized_body(b: Seq<u8>, at: int, eof: bool, status: int, n: int) -> ReadingView {
    if b.len() - at >= n {
        ReadingView::Whole(status, at + n)
    } else if eof {
        ReadingView::Broken
    } else {
        ReadingView::More
    }
}

/// The rest of a response from where a chunk begins. The last one is empty, and a
/// line stands behind it.
pub open spec fn chunks_at(b: Seq<u8>, at: int, eof: bool, status: int) -> ReadingView
    decreases b.len() - at,
{
    match line_end(b, at, eof) {
        None => ReadingView::More,
        Some(n) => {
            let line = b.subrange(at, n);
            if !valid_utf8(line) {
                ReadingView::Broken
            } else {
                let size = chunk_len(text::trim(decode_utf8(line)));
                if size <= 0 || n < at {
                    match line_end(b, n, eof) {
                        None => ReadingView::More,
                        Some(m) => ReadingView::Whole(status, m),
                    }
                } else if b.len() - n < size + 2 {
                    sized_body(b, n, eof, status, size + 2)
                } else {
                    chunks_at(b, n + size + 2, eof, status)
                }
            }
        },
    }
}

/// The rest of a response from where its body begins.
pub open spec fn body_at(b: Seq<u8>, at: int, eof: bool, status: int, f: Framing) -> ReadingView {
    if f.chunked {
        chunks_at(b, at, eof, status)
    } else {
        sized_body(b, at, eof, status, f.length)
    }
}

/// The rest of a response from where a header begins. An empty line ends them.
pub open spec fn headers_at(
    b: Seq<u8>,
    at: int,
    eof: bool,
    status: int,
    f: Framing,
) -> ReadingView
    decreases b.len() - at,
{
    match line_end(b, at, eof) {
        None => ReadingView::More,
        Some(n) => {
            let line = b.subrange(at, n);
            if !valid_utf8(line) {
                ReadingView::Broken
            } else {
                let h = text::trim_end(decode_utf8(line));
                if n <= at || h.len() == 0 {
                    body_at(b, n, eof, status, f)
                } else {
                    headers_at(b, n, eof, status, framed(f, h))
                }
            }
        },
    }
}

/// The response that begins at `at`, in what a server has sent so far, or in all
/// that it sends.
pub open spec fn response_at(b: Seq<u8>, at: int, eof: bool) -> ReadingView {
    match line_end(b, at, eof) {
        None => ReadingView::More,
        Some(n) => {
            let line = b.subrange(at, n);
            if n == at || !valid_utf8(line) {
                ReadingView::Broken
            } else {
                headers_at(
                    b,
                    n,
                    eof,
                    status_in(decode_utf8(line)),
                    Framing { length: 0, chunked: false },
                )
            }
        },
    }
}

fn line_text(b: &[u8], at: usize, n: usize) -> (r: Option<Vec<char>>)
    requires
        at <= n <= b@.len(),
    ensures
        r is Some <==> valid_utf8(b@.subrange(at as int, n as int)),
        r matches Some(t) ==> t@ == decode_utf8(b@.subrange(at as int, n as int)),
{
    match text::utf8_string(vstd::slice::slice_subrange(b, at, n)) {
        Some(s) => Some(text::chars_of(s.as_str())),
        None => None,
    }
}

fn read_header(h: &Vec<char>, length: usize, chunked: bool) -> (r: (usize, bool))
    ensures
        ({
            let f = framed(Framing { length: length as int, chunked }, h@);
            r.0 == f.length && r.1 == f.chunked
        }),
{
    let p: usize = text::find_char(h, ':');
    if p >= h.len() {
        return (length, chunked);
    }
    let front: Vec<char> = text::sub_chars(h, 0, p);
    let back: Vec<char> = text::sub_chars(h, p + 1, h.len());
    assert(front@ =~= h@.take(p as int));
    assert(back@ =~= h@.skip(p + 1));
    let name: String = text::string_of(&front);
    let value: Vec<char> = text::trimmed(&back);
    if text::same_letters(name.as_str().as_bytes(), "content-length".as_bytes()) {
        let n: usize = match text::parse_u64(&value) {
            Some(n) => if n <= usize::MAX as u64 {
                n as usize
            } else {
                0
            },
            None => 0,
        };
        return (n, chunked);
    }
    if text::same_letters(name.as_str().as_bytes(), "transfer-encoding".as_bytes()) {
        let v: String = text::string_of(&value);
        if text::contains(v.as_str().as_bytes(), "chunked".as_bytes()) {
            return (length, true);
        }
    }
    (length, chunked)
}

fn read_sized(b: &[u8], at: usize, eof: bool, status: u16, n: usize) -> (r: Reading)
    requires
        at <= b@.len(),
    ensures
        r@ == sized_body(b@, at as int, eof, status as int, n as int),
        r matches Reading::Whole(_, end) ==> at <= end <= b@.len(),
{
    if b.len() - at >= n {
        Reading::Whole(status, at + n)
    } else if eof {
        Reading::Broken
    } else {
        Reading::More
    }
}

fn read_chunks(b: &[u8], at: usize, eof: bool, status: u16) -> (r: Reading)
    requires
        at <= b@.len(),
    ensures
        r@ == chunks_at(b@, at as int, eof, status as int),
        r matches Reading::Whole(_, end) ==> at <= end <= b@.len(),
{
    let mut i: usize = at;
    loop
        invariant
            at <= i <= b@.len(),
            chunks_at(b@, i as int, eof, status as int) == chunks_at(
                b@,
                at as int,
                eof,
                status as int,
            ),
        decreases b@.len() - i,
    {
        let n: usize = match find_end(b, i, eof) {
            Some(n) => n,
            None => {
                return Reading::More;
            },
        };
        let line: Vec<char> = match line_text(b, i, n) {
            Some(t) => t,
            None => {
                return Reading::Broken;
            },
        };
        let size: usize = chunk_size(&text::trimmed(&line));
        if size == 0 {
            return match find_end(b, n, eof) {
                Some(m) => Reading::Whole(status, m),
                None => Reading::More,
            };
        }
        let left: usize = b.len() - n;
        if left < 2 || left - 2 < size {
            return if eof {
                Reading::Broken
            } else {
                Reading::More
            };
        }
        i = n + size + 2;
    }
}

fn read_headers(b: &[u8], at: usize, eof: bool, status: u16) -> (r: Reading)
    requires
        at <= b@.len(),
    ensures
        r@ == headers_at(
            b@,
            at as int,
            eof,
            status as int,
            Framing { length: 0, chunked: false },
        ),
        r matches Reading::Whole(_, end) ==> at <= end <= b@.len(),
{
    let mut i: usize = at;
    let mut length: usize = 0;
    let mut chunked: bool = false;
    loop
        invariant
            at <= i <= b@.len(),
            headers_at(
                b@,
                i as int,
                eof,
                status as int,
                Framing { length: length as int, chunked },
            ) == headers_at(
                b@,
                at as int,
                eof,
                status as int,
                Framing { length: 0, chunked: false },
            ),
        decreases b@.len() - i,
    {
        let n: usize = match find_end(b, i, eof) {
            Some(n) => n,
            None => {
                return Reading::More;
            },
        };
        let line: Vec<char> = match line_text(b, i, n) {
            Some(t) => t,
            None => {
                return Reading::Broken;
            },
        };
        let h: Vec<char> = text::trimmed_end(&line);
        if n == i || h.len() == 0 {
            return if chunked {
                read_chunks(b, n, eof, status)
            } else {
                read_sized(b, n, eof, status, length)
            };
        }
        let (l, c): (usize, bool) = read_header(&h, length, chunked);
        length = l;
        chunked = c;
        i = n;
    }
}

/// Reads the response that begins at `at`, from what a server has sent so far, or
/// from all that it sends.
pub fn read_resp(b: &[u8], at: usize, eof: bool) -> (r: Reading)
    requires
        at <= b@.len(),
    ensures
        r@ == response_at(b@, at as int, eof),
        r matches Reading::Whole(_, end) ==> at <= end <= b@.len(),
{
    let n: usize = match find_end(b, at, eof) {
        Some(n) => n,
        None => {
            return Reading::More;
        },
    };
    if n == at {
        return Reading::Broken;
    }
    match line_text(b, at, n) {
        Some(t) => read_headers(b, n, eof, status_of(&t)),
        None => Reading::Broken,
    }
}

// ---------- counts ----------

/// One connection under load: which request comes next, and what was counted.
pub struct Drive {
    at: usize,
    count: usize,
    pipe: usize,
    batch: usize,
    got: usize,
    failed: bool,
    reqs: i64,
    non2xx: i64,
    errs: i64,
}

/// One connection under load.
#[verifier::ext_equal]
pub ghost struct DriveView {
    /// The request that comes next.
    pub at: int,
    /// How many there are.
    pub count: int,
    /// How many are sent before any response is read.
    pub pipe: int,
    /// How many were sent.
    pub batch: int,
    /// How many of these were answered.
    pub got: int,
    /// Something went wrong since.
    pub failed: bool,
    /// How many requests were answered before.
    pub reqs: i64,
    /// How many with an error.
    pub non2xx: i64,
    /// How often something went wrong.
    pub errs: i64,
}

impl View for Drive {
    type V = DriveView;

    closed spec fn view(&self) -> DriveView {
        DriveView {
            at: self.at as int,
            count: self.count as int,
            pipe: self.pipe as int,
            batch: self.batch as int,
            got: self.got as int,
            failed: self.failed,
            reqs: self.reqs,
            non2xx: self.non2xx,
            errs: self.errs,
        }
    }
}

/// A request is to be sent.
pub open spec fn sends(v: DriveView) -> bool {
    !v.failed && v.batch < v.pipe
}

/// A response is to be read.
pub open spec fn reads(v: DriveView) -> bool {
    !v.failed && v.got < v.batch
}

/// A status that is neither a success nor a redirect.
pub open spec fn is_error(status: u16) -> bool {
    !(200 <= status < 400)
}

/// A request was sent, or not.
pub open spec fn after_sent(v: DriveView, done: bool) -> DriveView {
    if done {
        DriveView { at: (v.at + 1) % v.count, batch: v.batch + 1, ..v }
    } else {
        DriveView { failed: true, errs: v.errs.wrapping_add(1), ..v }
    }
}

/// A response was read, with its status, or not.
pub open spec fn after_read(v: DriveView, status: Option<u16>) -> DriveView {
    match status {
        Some(code) => DriveView {
            got: v.got + 1,
            non2xx: if is_error(code) {
                v.non2xx.wrapping_add(1)
            } else {
                v.non2xx
            },
            ..v
        },
        None => DriveView { failed: true, errs: v.errs.wrapping_add(1), ..v },
    }
}

/// A round has ended.
pub open spec fn after_round(v: DriveView) -> DriveView {
    DriveView {
        batch: 0,
        got: 0,
        failed: false,
        reqs: v.reqs.wrapping_add(v.got as i64),
        ..v
    }
}

impl Drive {
    /// The next request is one that there is, and no more was answered than sent.
    pub closed spec fn wf(&self) -> bool {
        &&& self.at < self.count
        &&& self.got <= self.batch <= self.pipe
    }

    /// Connection `conn` of a load of `count` requests, `pipe` of them at a time.
    pub fn new(conn: usize, count: usize, pipe: usize) -> (r: Drive)
        requires
            count > 0,
        ensures
            r.wf(),
            r@ == (DriveView {
                at: conn as int % count as int,
                count: count as int,
                pipe: pipe as int,
                batch: 0,
                got: 0,
                failed: false,
                reqs: 0,
                non2xx: 0,
                errs: 0,
            }),
    {
        Drive {
            at: conn % count,
            count,
            pipe,
            batch: 0,
            got: 0,
            failed: false,
            reqs: 0,
            non2xx: 0,
            errs: 0,
        }
    }

    /// The request to be sent, if one is to be sent.
    pub fn to_send(&self) -> (r: Option<usize>)
        requires
            self.wf(),
        ensures
            (match r {
                Some(i) => Some(i as int),
                None => None,
            }) == (if sends(self@) {
                Some(self@.at)
            } else {
                None
            }),
            r matches Some(i) ==> i < self@.count,
    {
        if !self.failed && self.batch < self.pipe {
            Some(self.at)
        } else {
            None
        }
    }

    /// The request was sent, or not.
    pub fn sent(&mut self, done: bool)
        requires
            old(self).wf(),
            sends(old(self)@),
        ensures
            final(self).wf(),
            final(self)@ == after_sent(old(self)@, done),
    {
        if done {
            self.batch += 1;
            self.at = (self.at + 1) % self.count;
        } else {
            self.failed = true;
            self.errs = self.errs.wrapping_add(1);
        }
    }

    /// All was sent that is to be sent at a time; the responses come next. False if
    /// nothing was sent: the load then ends.
    pub fn turn(&mut self) -> (r: bool)
        requires
            old(self).wf(),
        ensures
            final(self).wf(),
            final(self)@ == (DriveView { failed: false, ..old(self)@ }),
            r == (old(self)@.batch > 0),
    {
        self.failed = false;
        self.batch > 0
    }

    /// Whether a response is to be read.
    pub fn to_read(&self) -> (r: bool)
        ensures
            r == reads(self@),
    {
        !self.failed && self.got < self.batch
    }

    /// The status of the response that was read, if it could be read.
    pub fn read(&mut self, status: Option<u16>)
        requires
            old(self).wf(),
            reads(old(self)@),
        ensures
            final(self).wf(),
            final(self)@ == after_read(old(self)@, status),
    {
        match status {
            Some(code) => {
                self.got += 1;
                if !(200 <= code && code < 400) {
                    self.non2xx = self.non2xx.wrapping_add(1);
                }
            },
            None => {
                self.failed = true;
                self.errs = self.errs.wrapping_add(1);
            },
        }
    }

    /// Ends a round: how many requests were answered in it. None is the end of the
    /// load.
    pub fn round(&mut self) -> (r: usize)
        requires
            old(self).wf(),
        ensures
            final(self).wf(),
            r == old(self)@.got,
            final(self)@ == after_round(old(self)@),
    {
        let n: usize = self.got;
        self.reqs = self.reqs.wrapping_add(#[verifier::truncate] (n as i64));
        self.batch = 0;
        self.got = 0;
        self.failed = false;
        n
    }

    /// How many requests were answered, how many with an error, and how often
    /// something went wrong.
    pub fn counts(&self) -> (r: (i64, i64, i64))
        ensures
            r == (self@.reqs, self@.non2xx, self@.errs),
    {
        (self.reqs, self.non2xx, self.errs)
    }
}

/// A response with a status from 200 to 399 is none with an error, and every other is.
pub proof fn law_errors_go_by_status(status: u16)
    ensures
        is_error(status) <==> status < 200 || status > 399,
{
}

/// The length of a chunk is the number that its hexadecimal digits stand for, in whatever
/// case.
pub proof fn law_chunk_length_is_hexadecimal(t: Seq<char>, c: char, n: int)
    requires
        t.len() > 0,
        t[0] != '+',
        hex_value(t) == Some(n),
        0 <= n,
        16 * n + 15 <= usize::MAX,
    ensures
        chunk_len(t) == n,
        '0' <= c <= '9' ==> chunk_len(t.push(c)) == 16 * n + (c as int - '0' as int),
        'a' <= c <= 'f' ==> chunk_len(t.push(c)) == 16 * n + (c as int - 'a' as int) + 10,
        'A' <= c <= 'F' ==> chunk_len(t.push(c)) == 16 * n + (c as int - 'A' as int) + 10,
        '0' <= c <= '9' ==> chunk_len(seq![c]) == c as int - '0' as int,
        'a' <= c <= 'f' ==> chunk_len(seq![c]) == c as int - 'a' as int + 10,
{
    assert(t.push(c).drop_last() =~= t);
    assert(seq![c].drop_last() =~= Seq::<char>::empty());
    reveal_with_fuel(hex_value, 2);
}

/// How many of some statuses are errors.
pub open spec fn errors_in(ss: Seq<u16>) -> int
    decreases ss.len(),
{
    if ss.len() == 0 {
        0
    } else {
        errors_in(ss.drop_last()) + if 200 <= ss.last() <= 399 {
            0int
        } else {
            1
        }
    }
}

/// What is counted when some responses were read one after the other.
pub open spec fn after_all(v: DriveView, ss: Seq<u16>) -> DriveView
    decreases ss.len(),
{
    if ss.len() == 0 {
        v
    } else {
        after_read(after_all(v, ss.drop_last()), Some(ss.last()))
    }
}

/// Every response that is read counts once, and once more where it is an error; a round
/// adds as many requests as were answered in it.
pub proof fn law_responses_are_counted(v: DriveView, ss: Seq<u16>)
    requires
        0 <= v.non2xx,
        v.non2xx + ss.len() <= i64::MAX,
    ensures
        after_all(v, ss).got == v.got + ss.len(),
        after_all(v, ss).non2xx == v.non2xx + errors_in(ss),
        0 <= errors_in(ss) <= ss.len(),
        after_all(v, ss).errs == v.errs,
        v.got == 0 && 0 <= v.reqs && v.reqs + ss.len() <= i64::MAX ==> after_round(
            after_all(v, ss),
        ).reqs == v.reqs + ss.len(),
        after_round(v).got == 0,
        after_all(v, ss).reqs == v.reqs,
    decreases ss.len(),
{
    if ss.len() > 0 {
        law_responses_are_counted(v, ss.drop_last());
    }
}

/// Requests are sent in turn, from the first again behind the last, and none that was not
/// sent is waited for; what goes wrong counts as an error of its own.
pub proof fn law_requests_are_sent_in_turn(v: DriveView)
    requires
        0 <= v.at < v.count,
    ensures
        after_sent(v, true).at == (if v.at + 1 == v.count {
            0
        } else {
            v.at + 1
        }),
        after_sent(v, true).batch == v.batch + 1,
        after_sent(v, false).batch == v.batch,
        !sends(after_sent(v, false)),
        !reads(after_read(v, None)),
        after_sent(v, false).errs == v.errs.wrapping_add(1),
        after_read(v, None).errs == v.errs.wrapping_add(1),
        sends(v) <==> !v.failed && v.batch < v.pipe,
        reads(v) <==> !v.failed && v.got < v.batch,
{
    if v.at + 1 == v.count {
        assert(v.count % v.count == 0) by (nonlinear_arith)
            requires
                v.count > 0,
        ;
    } else {
        assert((v.at + 1) % v.count == v.at + 1) by (nonlinear_arith)
            requires
                0 <= v.at + 1 < v.count,
        ;
    }
}

} // verus!
