//! What a client reads of what the small server writes.

use vstd::prelude::*;
use vstd::utf8::*;

use crate::app;
use crate::app::ReplyView;
use crate::app_laws;
use crate::bench;
use crate::bench::{Framing, ReadingView};
use crate::server_hyper;
use crate::server_mini;
use crate::server_mini::{FoundView, HeadView, RequestView};
use crate::text;

verus! {

/// No line break stands in a text.
pub open spec fn one_line(t: Seq<char>) -> bool {
    forall|k: int| 0 <= k < encode_utf8(t).len() ==> encode_utf8(t)[k] != 10
}

/// Lines, each with its end.
spec fn lines_bytes(lines: Seq<Seq<char>>) -> Seq<u8>
    decreases lines.len(),
{
    if lines.len() == 0 {
        Seq::empty()
    } else {
        encode_utf8(lines[0]) + seq![13u8, 10] + lines_bytes(lines.drop_first())
    }
}

/// What some headers say of the body.
spec fn framed_all(f: Framing, lines: Seq<Seq<char>>) -> Framing
    decreases lines.len(),
{
    if lines.len() == 0 {
        f
    } else {
        framed_all(bench::framed(f, text::trim_end(lines[0])), lines.drop_first())
    }
}

proof fn lemma_crlf()
    ensures
        encode_utf8(seq!['\r', '\n']) == seq![13u8, 10],
{
    let b = seq![13u8, 10];
    assert(seq!['\r', '\n'] =~= text::ascii_text(b));
    text::lemma_lit(seq!['\r', '\n'], b);
}

proof fn lemma_line(b: Seq<u8>, at: int, t: Seq<char>)
    requires
        0 <= at,
        text::stands_at(b, encode_utf8(t) + seq![13u8, 10], at),
        one_line(t),
    ensures
        ({
            let n = at + encode_utf8(t).len() + 2;
            &&& bench::line_end(b, at, false) == Some(n)
            &&& valid_utf8(b.subrange(at, n))
            &&& decode_utf8(b.subrange(at, n)) == t + seq!['\r', '\n']
        }),
{
    let e = encode_utf8(t);
    let line = e + seq![13u8, 10];
    let n = at + e.len() + 2;
    assert(b.subrange(at, n) == line);
    assert forall|k: int| at <= k < n implies b[k] == line[k - at] by {
        assert(b.subrange(at, n)[k - at] == b[k]);
    }
    text::lemma_index_is(b, at, 10, n - 1);
    lemma_crlf();
    text::lemma_bytes_concat(t, seq!['\r', '\n']);
    text::lemma_text_of(t + seq!['\r', '\n']);
    encode_utf8_valid_utf8(t + seq!['\r', '\n']);
    encode_utf8_decode_utf8(t + seq!['\r', '\n']);
}

proof fn lemma_trim_crlf(t: Seq<char>)
    ensures
        text::trim_end(t + seq!['\r', '\n']) == text::trim_end(t),
{
    let a = t + seq!['\r', '\n'];
    let b = t.push('\r');
    assert(a.drop_last() =~= b);
    assert(b.drop_last() =~= t);
    assert(text::trim_end(b) == text::trim_end(t));
}

proof fn lemma_headers(
    pre: Seq<u8>,
    lines: Seq<Seq<char>>,
    tail: Seq<u8>,
    status: int,
    f: Framing,
)
    requires
        forall|i: int|
            0 <= i < lines.len() ==> one_line(#[trigger] lines[i]) && text::trim_end(
                lines[i],
            ).len() > 0,
    ensures
        ({
            let b = pre + lines_bytes(lines) + seq![13u8, 10] + tail;
            bench::headers_at(b, pre.len() as int, false, status, f) == bench::body_at(
                b,
                (pre.len() + lines_bytes(lines).len() + 2) as int,
                false,
                status,
                framed_all(f, lines),
            )
        }),
    decreases lines.len(),
{
    let b = pre + lines_bytes(lines) + seq![13u8, 10] + tail;
    let at = pre.len() as int;
    let none = Seq::<char>::empty();
    if lines.len() == 0 {
        text::lemma_bytes_empty(none);
        let end = encode_utf8(none) + seq![13u8, 10];
        assert(b.subrange(at, at + 2) =~= end);
        lemma_line(b, at, none);
        lemma_trim_crlf(none);
    } else {
        let t = lines[0];
        let e = encode_utf8(t) + seq![13u8, 10];
        let rest = lines.drop_first();
        assert(b.subrange(at, at + e.len()) =~= e);
        lemma_line(b, at, t);
        lemma_trim_crlf(t);
        let next = pre + e;
        assert forall|i: int| 0 <= i < rest.len() implies one_line(#[trigger] rest[i])
            && text::trim_end(rest[i]).len() > 0 by {
            assert(rest[i] == lines[i + 1]);
        }
        lemma_headers(next, rest, tail, status, bench::framed(f, text::trim_end(t)));
        assert(next + lines_bytes(rest) + seq![13u8, 10] + tail =~= b);
    }
}

proof fn lemma_trim_keeps(t: Seq<char>, k: int)
    requires
        0 <= k < t.len(),
        !text::is_space(t[k]),
    ensures
        text::trim_end(t).len() > k,
        text::trim_end(t).len() <= t.len(),
        text::trim_end(t) == t.take(text::trim_end(t).len() as int),
    decreases t.len(),
{
    if text::is_space(t.last()) {
        lemma_trim_keeps(t.drop_last(), k);
        assert(text::trim_end(t) =~= t.take(text::trim_end(t).len() as int));
    } else {
        assert(t.take(t.len() as int) =~= t);
    }
}

proof fn lemma_char_index(t: Seq<char>, from: int, c: char, at: int)
    requires
        0 <= from <= at < t.len(),
        t[at] == c,
        forall|k: int| from <= k < at ==> t[k] != c,
    ensures
        text::char_index(t, from, c) == at,
    decreases at - from,
{
    if from < at {
        lemma_char_index(t, from + 1, c, at);
    }
}

/// A header with another name says nothing of the body.
proof fn lemma_other_header(f: Framing, name: Seq<u8>, value: Seq<char>)
    requires
        text::ascii(name),
        name.len() != 14,
        name.len() != 17,
        forall|k: int| 0 <= k < name.len() ==> #[trigger] name[k] != 58,
    ensures
        ({
            let t = text::ascii_text(name) + seq![':'] + value;
            &&& text::trim_end(t).len() > 0
            &&& bench::framed(f, text::trim_end(t)) == f
        }),
{
    let n = name.len() as int;
    let t = text::ascii_text(name) + seq![':'] + value;
    assert(t[n] == ':');
    lemma_trim_keeps(t, n);
    let h = text::trim_end(t);
    assert(h[n] == t[n]);
    assert forall|k: int| 0 <= k < n implies h[k] != ':' by {
        assert(h[k] == t[k]);
        assert(t[k] == name[k] as char);
    }
    lemma_char_index(h, 0, ':', n);
    assert(h.take(n) =~= text::ascii_text(name));
    text::lemma_ascii_text(name);
    reveal_strlit("content-length");
    reveal_strlit("transfer-encoding");
    let c = Seq::new(14, |i: int| "content-length"@[i] as u8);
    assert("content-length"@ =~= text::ascii_text(c));
    text::lemma_lit("content-length"@, c);
    let d = Seq::new(17, |i: int| "transfer-encoding"@[i] as u8);
    assert("transfer-encoding"@ =~= text::ascii_text(d));
    text::lemma_lit("transfer-encoding"@, d);
    assert(text::lowered(name).len() == n);
    assert(text::lowered(c).len() == 14);
    assert(text::lowered(d).len() == 17);
}

proof fn lemma_length_header(f: Framing, n: int)
    requires
        0 <= n <= usize::MAX,
    ensures
        ({
            let t = "content-length: "@ + text::ascii_text(text::decimal(n));
            &&& one_line(t)
            &&& text::trim_end(t).len() > 0
            &&& bench::framed(f, text::trim_end(t)) == (Framing { length: n, ..f })
        }),
{
    let d = text::ascii_text(text::decimal(n));
    let t = "content-length: "@ + d;
    text::lemma_decimal(n);
    reveal_strlit("content-length: ");
    reveal_strlit("content-length");
    let front = Seq::new(16, |i: int| "content-length: "@[i] as u8);
    let whole = front + text::decimal(n);
    assert(t =~= text::ascii_text(whole));
    text::lemma_lit(t, whole);
    assert(t.last() == d.last());
    assert(!text::is_space(t.last()));
    assert(text::trim_end(t) == t);
    lemma_char_index(t, 0, ':', 14);
    assert(t.take(14) =~= "content-length"@);
    let v = t.skip(15);
    assert(v =~= seq![' '] + d);
    assert(v.drop_first() =~= d);
    assert(!text::is_space(d[0]));
    assert(text::trim_start(v) == text::trim_start(d));
    assert(text::trim_start(d) == d);
    assert(text::trim(v) == d);
    text::law_decimal_reads_back(n);
    assert(d[0] == text::decimal(n)[0] as char);
}

proof fn lemma_word(t: Seq<char>, k: int)
    requires
        0 <= k < t.len(),
        text::is_space(t[k]),
        forall|i: int| 0 <= i < k ==> !text::is_space(#[trigger] t[i]),
    ensures
        bench::word_len(t) == k,
    decreases k,
{
    if k > 0 {
        let r = t.drop_first();
        assert(!text::is_space(t[0]));
        assert forall|i: int| 0 <= i < k - 1 implies !text::is_space(#[trigger] r[i]) by {
            assert(r[i] == t[i + 1]);
        }
        lemma_word(r, k - 1);
    }
}

/// The status in a line that begins as those of the server do.
proof fn lemma_status(t: Seq<char>, code: int)
    requires
        t.len() > 12,
        t.take(9) == "HTTP/1.1 "@,
        100 <= code <= 999,
        t.subrange(9, 12) == text::ascii_text(text::decimal(code)),
        t[12] == ' ',
    ensures
        bench::status_in(t) == code,
{
    reveal_strlit("HTTP/1.1 ");
    let d = text::ascii_text(text::decimal(code));
    text::lemma_decimal(code);
    assert forall|i: int| 0 <= i < 9 implies t[i] == "HTTP/1.1 "@[i] by {
        assert(t.take(9)[i] == t[i]);
    }
    assert(text::trim_start(t) == t);
    lemma_word(t, 8);
    let r = t.skip(8);
    let s = t.skip(9);
    assert(r.drop_first() =~= s);
    assert(d.len() == 3);
    assert(text::decimal(code).len() == 3);
    assert forall|i: int| 0 <= i < 3 implies s[i] == d[i] && !text::is_space(#[trigger] s[i]) by {
        assert(t.subrange(9, 12)[i] == t[9 + i]);
        assert(d[i] == text::decimal(code)[i] as char);
    }
    assert(!text::is_space(s[0]));
    assert(text::trim_start(s) == s);
    assert(text::trim_start(r) == s);
    assert(s[3] == t[12]);
    lemma_word(s, 3);
    assert(s.take(3) =~= d);
    text::law_decimal_reads_back(code);
    assert(d[0] == text::decimal(code)[0] as char);
}

/// The status that a reply shows: one that the server has no line for is an error
/// of its own.
pub open spec fn shown(status: u16) -> int {
    if status == 200 || status == 201 || status == 204 || status == 302 || status == 400 || status
        == 404 || status == 409 || status == 413 || status == 429 {
        status as int
    } else {
        500
    }
}

spec fn first_line(status: u16) -> Seq<char> {
    let t = server_mini::status_text(status);
    t.take(t.len() - 2)
}

proof fn lemma_first_line(status: u16)
    ensures
        server_mini::status_text(status) == first_line(status) + seq!['\r', '\n'],
        one_line(first_line(status)),
        bench::status_in(first_line(status) + seq!['\r', '\n']) == shown(status),
{
    let t = server_mini::status_text(status);
    let code = shown(status);
    reveal_strlit("HTTP/1.1 ");
    if status == 200 {
        reveal_strlit("HTTP/1.1 200 OK\r\n");
    }
    if status == 201 {
        reveal_strlit("HTTP/1.1 201 Created\r\n");
    }
    if status == 204 {
        reveal_strlit("HTTP/1.1 204 No Content\r\n");
    }
    if status == 302 {
        reveal_strlit("HTTP/1.1 302 Found\r\n");
    }
    if status == 400 {
        reveal_strlit("HTTP/1.1 400 Bad Request\r\n");
    }
    if status == 404 {
        reveal_strlit("HTTP/1.1 404 Not Found\r\n");
    }
    if status == 409 {
        reveal_strlit("HTTP/1.1 409 Conflict\r\n");
    }
    if status == 413 {
        reveal_strlit("HTTP/1.1 413 Content Too Large\r\n");
    }
    if status == 429 {
        reveal_strlit("HTTP/1.1 429 Too Many Requests\r\n");
    }
    reveal_strlit("HTTP/1.1 500 Internal Server Error\r\n");
    assert(t =~= first_line(status) + seq!['\r', '\n']);
    let b = Seq::new(first_line(status).len(), |i: int| first_line(status)[i] as u8);
    assert(first_line(status) =~= text::ascii_text(b));
    text::lemma_lit(first_line(status), b);
    lemma_three_digits(code);
    assert(t.take(9) =~= "HTTP/1.1 "@);
    assert(t.subrange(9, 12) =~= text::ascii_text(text::decimal(code)));
    lemma_status(t, code);
}

proof fn lemma_three_digits(n: int)
    requires
        100 <= n <= 999,
    ensures
        text::decimal(n) == seq![
            (48 + n / 100) as u8,
            (48 + n / 10 % 10) as u8,
            (48 + n % 10) as u8,
        ],
{
    reveal_with_fuel(text::digits, 3);
    assert(n / 10 / 10 == n / 100);
    assert(text::decimal(n) =~= seq![
        (48 + n / 100) as u8,
        (48 + n / 10 % 10) as u8,
        (48 + n % 10) as u8,
    ]);
}

proof fn lemma_lines_concat(a: Seq<Seq<char>>, b: Seq<Seq<char>>)
    ensures
        lines_bytes(a + b) == lines_bytes(a) + lines_bytes(b),
    decreases a.len(),
{
    if a.len() == 0 {
        assert(a + b =~= b);
        assert(lines_bytes(a) + lines_bytes(b) =~= lines_bytes(b));
    } else {
        assert((a + b).drop_first() =~= a.drop_first() + b);
        lemma_lines_concat(a.drop_first(), b);
        assert(lines_bytes(a + b) =~= lines_bytes(a) + lines_bytes(b));
    }
}

proof fn lemma_one(t: Seq<char>)
    ensures
        lines_bytes(seq![t]) == encode_utf8(t) + seq![13u8, 10],
        encode_utf8(t + seq!['\r', '\n']) == encode_utf8(t) + seq![13u8, 10],
{
    assert(seq![t].drop_first() =~= Seq::empty());
    assert(lines_bytes(seq![t].drop_first()) =~= Seq::empty());
    assert(lines_bytes(seq![t]) =~= encode_utf8(t) + seq![13u8, 10]);
    lemma_crlf();
    text::lemma_bytes_concat(t, seq!['\r', '\n']);
}

proof fn lemma_framed_concat(f: Framing, a: Seq<Seq<char>>, b: Seq<Seq<char>>)
    ensures
        framed_all(f, a + b) == framed_all(framed_all(f, a), b),
    decreases a.len(),
{
    if a.len() == 0 {
        assert(a + b =~= b);
    } else {
        assert((a + b).drop_first() =~= a.drop_first() + b);
        lemma_framed_concat(bench::framed(f, text::trim_end(a[0])), a.drop_first(), b);
    }
}

/// The lines say that much of the body, and each is a line of its own.
spec fn lines_say(lines: Seq<Seq<char>>, f: Framing, g: Framing) -> bool {
    &&& framed_all(f, lines) == g
    &&& forall|i: int|
        0 <= i < lines.len() ==> one_line(#[trigger] lines[i]) && text::trim_end(lines[i]).len() > 0
}

proof fn lemma_say_one(t: Seq<char>, f: Framing)
    requires
        one_line(t),
        text::trim_end(t).len() > 0,
    ensures
        lines_say(seq![t], f, bench::framed(f, text::trim_end(t))),
{
    assert(seq![t].drop_first() =~= Seq::empty());
    assert(framed_all(bench::framed(f, text::trim_end(t)), seq![t].drop_first()) == bench::framed(
        f,
        text::trim_end(t),
    ));
}

proof fn lemma_say_both(a: Seq<Seq<char>>, b: Seq<Seq<char>>, f: Framing, g: Framing, h: Framing)
    requires
        lines_say(a, f, g),
        lines_say(b, g, h),
    ensures
        lines_say(a + b, f, h),
        lines_bytes(a + b) == lines_bytes(a) + lines_bytes(b),
{
    lemma_framed_concat(f, a, b);
    lemma_lines_concat(a, b);
    let c = a + b;
    assert forall|i: int| 0 <= i < c.len() implies one_line(#[trigger] c[i]) && text::trim_end(
        c[i],
    ).len() > 0 by {
        if i < a.len() {
            assert(c[i] == a[i]);
        } else {
            assert(c[i] == b[i - a.len()]);
        }
    }
}

/// A header with a name of its own is a line that says nothing of the body.
proof fn lemma_plain_line(name: Seq<u8>, value: Seq<char>, f: Framing)
    requires
        text::ascii(name),
        name.len() != 14,
        name.len() != 17,
        forall|k: int| 0 <= k < name.len() ==> #[trigger] name[k] != 58 && name[k] != 10,
        one_line(value),
    ensures
        ({
            let t = text::ascii_text(name) + seq![':'] + value;
            &&& lines_say(seq![t], f, f)
            &&& lines_bytes(seq![t]) == encode_utf8(t) + seq![13u8, 10]
            &&& encode_utf8(t) == name + seq![58u8] + encode_utf8(value)
        }),
{
    let t = text::ascii_text(name) + seq![':'] + value;
    lemma_other_header(f, name, value);
    let front = name + seq![58u8];
    let ft = text::ascii_text(name) + seq![':'];
    assert(ft =~= text::ascii_text(front));
    text::lemma_lit(ft, front);
    text::lemma_bytes_concat(ft, value);
    assert(encode_utf8(t) =~= front + encode_utf8(value));
    lemma_say_one(t, f);
    lemma_one(t);
}

/// The bytes of a text of single-byte characters.
proof fn lemma_bytes_of(t: Seq<char>)
    requires
        is_ascii_chars(t),
    ensures
        text::ascii(encode_utf8(t)),
        t == text::ascii_text(encode_utf8(t)),
{
    is_ascii_chars_encode_utf8(t);
    assert(t =~= text::ascii_text(encode_utf8(t)));
}

/// A line that is a header which says nothing of the body.
proof fn lemma_fixed_line(name: Seq<char>, value: Seq<char>, f: Framing)
    requires
        name.len() != 14,
        name.len() != 17,
        is_ascii_chars(name),
        forall|i: int| 0 <= i < name.len() ==> #[trigger] name[i] != ':' && name[i] != '\n',
        one_line(value),
    ensures
        lines_say(seq![name + seq![':'] + value], f, f),
        lines_bytes(seq![name + seq![':'] + value]) == encode_utf8(name + seq![':'] + value)
            + seq![13u8, 10],
        encode_utf8(name + seq![':'] + value) == encode_utf8(name) + seq![58u8] + encode_utf8(
            value,
        ),
{
    lemma_bytes_of(name);
    let b = encode_utf8(name);
    assert forall|k: int| 0 <= k < b.len() implies #[trigger] b[k] != 58 && b[k] != 10 by {
        assert(b[k] as char == name[k]);
    }
    lemma_plain_line(b, value, f);
}

proof fn lemma_fixed_value(value: Seq<char>)
    requires
        is_ascii_chars(value),
        forall|i: int| 0 <= i < value.len() ==> #[trigger] value[i] != '\n',
    ensures
        one_line(value),
{
    lemma_bytes_of(value);
    assert forall|k: int| 0 <= k < encode_utf8(value).len() implies encode_utf8(value)[k] != 10 by {
        assert(encode_utf8(value)[k] as char == value[k]);
    }
}

spec fn methods_line() -> Seq<char> {
    "access-control-allow-methods"@ + seq![':'] + " GET,POST,PATCH,DELETE,OPTIONS"@
}

spec fn headers_line() -> Seq<char> {
    "access-control-allow-headers"@ + seq![':'] + " content-type"@
}

spec fn age_line() -> Seq<char> {
    "access-control-max-age"@ + seq![':'] + " 86400"@
}

proof fn lemma_cors_text()
    ensures
        "\r\naccess-control-allow-methods: GET,POST,PATCH,DELETE,OPTIONS\r\naccess-control-allow-headers: content-type\r\naccess-control-max-age: 86400\r\n"@
            == seq!['\r', '\n'] + (methods_line() + seq!['\r', '\n']) + (headers_line() + seq![
            '\r',
            '\n',
        ]) + (age_line() + seq!['\r', '\n']),
{
    reveal_strlit(
        "\r\naccess-control-allow-methods: GET,POST,PATCH,DELETE,OPTIONS\r\naccess-control-allow-headers: content-type\r\naccess-control-max-age: 86400\r\n",
    );
    reveal_strlit("access-control-allow-methods");
    reveal_strlit(" GET,POST,PATCH,DELETE,OPTIONS");
    reveal_strlit("access-control-allow-headers");
    reveal_strlit(" content-type");
    reveal_strlit("access-control-max-age");
    reveal_strlit(" 86400");
    assert("\r\naccess-control-allow-methods: GET,POST,PATCH,DELETE,OPTIONS\r\naccess-control-allow-headers: content-type\r\naccess-control-max-age: 86400\r\n"@
        =~= seq!['\r', '\n'] + (methods_line() + seq!['\r', '\n']) + (headers_line() + seq![
        '\r',
        '\n',
    ]) + (age_line() + seq!['\r', '\n']));
}

spec fn cors_lines(origin: Seq<char>) -> Seq<Seq<char>> {
    seq!["access-control-allow-origin"@ + seq![':'] + (seq![' '] + origin)] + seq![methods_line()]
        + seq![headers_line()] + seq![age_line()]
}

proof fn lemma_space_value(v: Seq<char>)
    requires
        one_line(v),
    ensures
        one_line(seq![' '] + v),
        encode_utf8(seq![' '] + v) == seq![32u8] + encode_utf8(v),
{
    let b = seq![32u8];
    assert(seq![' '] =~= text::ascii_text(b));
    text::lemma_lit(seq![' '], b);
    text::lemma_bytes_concat(seq![' '], v);
}

proof fn lemma_cors(origin: Seq<char>, f: Framing)
    requires
        one_line(origin),
    ensures
        lines_say(cors_lines(origin), f, f),
        lines_bytes(cors_lines(origin)) == server_mini::cors_bytes(origin),
{
    let crlf = seq!['\r', '\n'];
    let name = "access-control-allow-origin"@;
    reveal_strlit("access-control-allow-origin");
    reveal_strlit("access-control-allow-origin: ");
    reveal_strlit("access-control-allow-methods");
    reveal_strlit(" GET,POST,PATCH,DELETE,OPTIONS");
    reveal_strlit("access-control-allow-headers");
    reveal_strlit(" content-type");
    reveal_strlit("access-control-max-age");
    reveal_strlit(" 86400");
    let l0 = name + seq![':'] + (seq![' '] + origin);
    lemma_space_value(origin);
    lemma_fixed_line(name, seq![' '] + origin, f);
    lemma_fixed_value(" GET,POST,PATCH,DELETE,OPTIONS"@);
    lemma_fixed_line("access-control-allow-methods"@, " GET,POST,PATCH,DELETE,OPTIONS"@, f);
    lemma_fixed_value(" content-type"@);
    lemma_fixed_line("access-control-allow-headers"@, " content-type"@, f);
    lemma_fixed_value(" 86400"@);
    lemma_fixed_line("access-control-max-age"@, " 86400"@, f);
    let a = seq![l0] + seq![methods_line()];
    let b = a + seq![headers_line()];
    lemma_say_both(seq![l0], seq![methods_line()], f, f, f);
    lemma_say_both(a, seq![headers_line()], f, f, f);
    lemma_say_both(b, seq![age_line()], f, f, f);
    lemma_crlf();
    lemma_cors_text();
    lemma_one(methods_line());
    lemma_one(headers_line());
    lemma_one(age_line());
    let m = methods_line() + crlf;
    let h = headers_line() + crlf;
    let g = age_line() + crlf;
    text::lemma_bytes_concat(crlf, m);
    text::lemma_bytes_concat(crlf + m, h);
    text::lemma_bytes_concat(crlf + m + h, g);
    assert("access-control-allow-origin: "@ =~= name + seq![':', ' ']);
    let two = seq![58u8, 32];
    assert(seq![':', ' '] =~= text::ascii_text(two));
    text::lemma_lit(seq![':', ' '], two);
    text::lemma_bytes_concat(name, seq![':', ' ']);
    assert(lines_bytes(cors_lines(origin)) =~= server_mini::cors_bytes(origin));
}

spec fn length_line(n: int) -> Seq<char> {
    "content-length: "@ + text::ascii_text(text::decimal(n))
}

spec fn rest_lines(r: ReplyView) -> Seq<Seq<char>> {
    match r.location {
        Some(loc) => seq!["location"@ + seq![':'] + (seq![' '] + loc)] + seq![length_line(0)],
        None => seq!["content-type"@ + seq![':'] + (seq![' '] + server_mini::media_type(r))]
            + seq![length_line(r.body.len() as int)],
    }
}

/// What stands behind the headers of a reply.
spec fn shown_body(r: ReplyView) -> Seq<u8> {
    match r.location {
        Some(_) => Seq::empty(),
        None => r.body,
    }
}

proof fn lemma_header_front(name: Seq<char>, v: Seq<char>)
    ensures
        encode_utf8(name + seq![':', ' ']) + encode_utf8(v) == encode_utf8(name) + seq![58u8] + (
        seq![32u8] + encode_utf8(v)),
{
    let two = seq![58u8, 32];
    assert(seq![':', ' '] =~= text::ascii_text(two));
    text::lemma_lit(seq![':', ' '], two);
    text::lemma_bytes_concat(name, seq![':', ' ']);
    assert(encode_utf8(name + seq![':', ' ']) + encode_utf8(v) =~= encode_utf8(name) + seq![58u8] + (
    seq![32u8] + encode_utf8(v)));
}

proof fn lemma_length_line(n: int)
    requires
        0 <= n,
    ensures
        encode_utf8(length_line(n)) == text::lit("content-length: ") + text::decimal(n),
{
    text::lemma_decimal(n);
    text::lemma_ascii_text(text::decimal(n));
    text::lemma_bytes_concat("content-length: "@, text::ascii_text(text::decimal(n)));
}

proof fn lemma_redirect(r: ReplyView, f: Framing)
    requires
        r.location matches Some(loc) && one_line(loc),
    ensures
        lines_say(rest_lines(r), f, Framing { length: 0, ..f }),
        lines_bytes(rest_lines(r)) + seq![13u8, 10] + shown_body(r) == server_mini::rest_bytes(r),
{
    let loc = r.location->0;
    let name = "location"@;
    reveal_strlit("location");
    reveal_strlit("location: ");
    reveal_strlit("content-length: ");
    reveal_strlit("\r\ncontent-length: 0\r\n\r\n");
    let l = name + seq![':'] + (seq![' '] + loc);
    lemma_space_value(loc);
    lemma_fixed_line(name, seq![' '] + loc, f);
    lemma_length_header(f, 0);
    lemma_say_one(length_line(0), f);
    lemma_say_both(seq![l], seq![length_line(0)], f, f, Framing { length: 0, ..f });
    lemma_one(length_line(0));
    lemma_length_line(0);
    assert("location: "@ =~= name + seq![':', ' ']);
    lemma_header_front(name, loc);
    let crlf = seq!['\r', '\n'];
    lemma_crlf();
    let zero = text::ascii_text(text::decimal(0));
    assert(text::decimal(0) =~= seq![48u8]);
    assert("\r\ncontent-length: 0\r\n\r\n"@ =~= crlf + length_line(0) + crlf + crlf);
    text::lemma_bytes_concat(crlf, length_line(0));
    text::lemma_bytes_concat(crlf + length_line(0), crlf);
    text::lemma_bytes_concat(crlf + length_line(0) + crlf, crlf);
    assert(lines_bytes(rest_lines(r)) + seq![13u8, 10] + shown_body(r)
        =~= server_mini::rest_bytes(r));
}

proof fn lemma_content(r: ReplyView, f: Framing)
    requires
        r.location is None,
        one_line(server_mini::media_type(r)),
        r.body.len() <= usize::MAX,
    ensures
        lines_say(rest_lines(r), f, Framing { length: r.body.len() as int, ..f }),
        lines_bytes(rest_lines(r)) + seq![13u8, 10] + shown_body(r) == server_mini::rest_bytes(r),
{
    let media = server_mini::media_type(r);
    let n = r.body.len() as int;
    let name = "content-type"@;
    reveal_strlit("content-type");
    reveal_strlit("content-type: ");
    reveal_strlit("content-length: ");
    reveal_strlit("\r\ncontent-length: ");
    reveal_strlit("\r\n\r\n");
    let l = name + seq![':'] + (seq![' '] + media);
    lemma_space_value(media);
    lemma_fixed_line(name, seq![' '] + media, f);
    lemma_length_header(f, n);
    lemma_say_one(length_line(n), f);
    lemma_say_both(seq![l], seq![length_line(n)], f, f, Framing { length: n, ..f });
    lemma_one(length_line(n));
    lemma_length_line(n);
    assert("content-type: "@ =~= name + seq![':', ' ']);
    lemma_header_front(name, media);
    let crlf = seq!['\r', '\n'];
    lemma_crlf();
    assert("\r\ncontent-length: "@ =~= crlf + "content-length: "@);
    text::lemma_bytes_concat(crlf, "content-length: "@);
    assert("\r\n\r\n"@ =~= crlf + crlf);
    text::lemma_bytes_concat(crlf, crlf);
    assert(lines_bytes(rest_lines(r)) + seq![13u8, 10] + shown_body(r)
        =~= server_mini::rest_bytes(r));
}

proof fn lemma_regroup(a: Seq<u8>, b: Seq<u8>, c: Seq<u8>, d: Seq<u8>, e: Seq<u8>)
    ensures
        a + (b + c) + seq![13u8, 10] + (d + e) == a + b + (c + seq![13u8, 10] + d) + e,
{
    assert(a + (b + c) + seq![13u8, 10] + (d + e) =~= a + b + (c + seq![13u8, 10] + d) + e);
}

/// What the server writes of a reply is what a client reads: its status, and no
/// more and no less than all of it, whatever comes behind.
#[verifier::spinoff_prover]
pub proof fn law_reply_reads_back(r: ReplyView, origin: Seq<char>, behind: Seq<u8>)
    requires
        one_line(origin),
        r.location matches Some(loc) ==> one_line(loc),
        one_line(server_mini::media_type(r)),
        r.body.len() <= usize::MAX,
    ensures
        bench::response_at(server_mini::reply_bytes(r, origin) + behind, 0, false)
            == ReadingView::Whole(
            shown(r.status),
            server_mini::reply_bytes(r, origin).len() as int,
        ),
{
    let f = Framing { length: 0, chunked: false };
    let g = Framing { length: shown_body(r).len() as int, chunked: false };
    let first = first_line(r.status);
    let pre = encode_utf8(server_mini::status_text(r.status));
    lemma_first_line(r.status);
    lemma_crlf();
    text::lemma_bytes_concat(first, seq!['\r', '\n']);
    lemma_cors(origin, f);
    if r.location is Some {
        lemma_redirect(r, f);
    } else {
        lemma_content(r, f);
    }
    let lines = cors_lines(origin) + rest_lines(r);
    lemma_say_both(cors_lines(origin), rest_lines(r), f, f, g);
    let tail = shown_body(r) + behind;
    let b = pre + lines_bytes(lines) + seq![13u8, 10] + tail;
    lemma_regroup(
        pre,
        lines_bytes(cors_lines(origin)),
        lines_bytes(rest_lines(r)),
        shown_body(r),
        behind,
    );
    assert(b.subrange(0, encode_utf8(first).len() as int + 2) =~= encode_utf8(first) + seq![
        13u8,
        10,
    ]);
    lemma_line(b, 0, first);
    lemma_headers(pre, lines, tail, shown(r.status), f);
}

// ---------- what a request says ----------

/// No header has that name, in whatever case.
pub open spec fn unnamed(headers: Seq<(Seq<char>, Seq<u8>)>, name: Seq<char>) -> bool {
    forall|k: int|
        0 <= k < headers.len() ==> !app_laws::either_case((#[trigger] headers[k]).0, name)
}

/// The first header of a name counts, in whatever case the name is written.
pub proof fn law_first_header_counts(
    a: Seq<(Seq<char>, Seq<u8>)>,
    n: Seq<char>,
    v: Seq<u8>,
    b: Seq<(Seq<char>, Seq<u8>)>,
    name: Seq<char>,
)
    requires
        is_ascii_chars(name),
        forall|k: int| 0 <= k < name.len() ==> !('A' <= #[trigger] name[k] <= 'Z'),
        app_laws::either_case(n, name),
        unnamed(a, name),
    ensures
        server_mini::header_in(a + seq![(n, v)] + b, name) == Some(v),
        server_mini::header_in(a, name) is None,
    decreases a.len(),
{
    let all = a + seq![(n, v)] + b;
    app_laws::lemma_either_case(n, name);
    if a.len() == 0 {
        assert(all[0] == (n, v));
    } else {
        let rest = a.drop_first();
        assert(all[0] == a[0]);
        app_laws::lemma_either_case(a[0].0, name);
        assert(all.drop_first() =~= rest + seq![(n, v)] + b);
        assert forall|k: int| 0 <= k < rest.len() implies !app_laws::either_case(
            (#[trigger] rest[k]).0,
            name,
        ) by {
            assert(rest[k] == a[k + 1]);
        }
        law_first_header_counts(rest, n, v, b, name);
    }
}

proof fn lemma_unnamed(headers: Seq<(Seq<char>, Seq<u8>)>, name: Seq<char>)
    requires
        is_ascii_chars(name),
        forall|k: int| 0 <= k < name.len() ==> !('A' <= #[trigger] name[k] <= 'Z'),
        unnamed(headers, name),
    ensures
        server_mini::header_in(headers, name) is None,
{
    let n = Seq::<u8>::empty();
    assert(app_laws::either_case(name, name));
    law_first_header_counts(headers, name, n, Seq::empty(), name);
}

/// The connection stays open behind a request unless it says `close`, in whatever case;
/// where it says nothing, it stays open but for version 1.0.
pub proof fn law_connection_stays_unless_told(
    q: RequestView,
    a: Seq<(Seq<char>, Seq<u8>)>,
    n: Seq<char>,
    v: Seq<char>,
    b: Seq<(Seq<char>, Seq<u8>)>,
)
    requires
        unnamed(a, "connection"@),
        app_laws::either_case(n, "connection"@),
    ensures
        q.headers == a + seq![(n, encode_utf8(v))] + b ==> (server_mini::stays(q)
            <==> !app_laws::either_case(v, "close"@)),
        q.headers == a ==> (server_mini::stays(q) <==> q.version is None || q.version == Some(
            1u8,
        )),
{
    reveal_strlit("connection");
    reveal_strlit("close");
    law_first_header_counts(a, n, encode_utf8(v), b, "connection"@);
    app_laws::lemma_either_case(v, "close"@);
}

/// The length of a body is the number that the request gives, whatever white space stands
/// around it; 0 where it gives none.
pub proof fn law_length_is_the_one_given(
    q: RequestView,
    a: Seq<(Seq<char>, Seq<u8>)>,
    n: Seq<char>,
    b: Seq<(Seq<char>, Seq<u8>)>,
    size: int,
    v: Seq<char>,
)
    requires
        unnamed(a, "content-length"@),
        app_laws::either_case(n, "content-length"@),
        0 <= size <= usize::MAX,
    ensures
        q.headers == a + seq![(n, text::decimal(size))] + b ==> server_mini::content_length(q)
            == size,
        q.headers == a + seq![(n, encode_utf8(seq![' '] + v + seq![' ']))] + b && v
            == text::ascii_text(text::decimal(size)) ==> server_mini::content_length(q) == size,
        q.headers == a + seq![(n, encode_utf8(v))] + b && app_laws::no_number(v) && !(v.len() > 0
            && (text::is_space(v[0]) || text::is_space(v.last())))
            ==> server_mini::content_length(q) == 0,
        q.headers == a ==> server_mini::content_length(q) == 0,
{
    reveal_strlit("content-length");
    let name = "content-length"@;
    let d = text::decimal(size);
    let t = text::ascii_text(d);
    text::lemma_decimal(size);
    text::lemma_ascii_text(d);
    text::law_decimal_reads_back(size);
    assert forall|k: int| 0 <= k < t.len() implies '0' <= #[trigger] t[k] <= '9' by {
        assert(t[k] == d[k] as char);
        text::lemma_digits(size as nat);
    }
    assert(!text::is_space(t[0]) && !text::is_space(t.last())) by {
        assert('0' <= t[0] <= '9');
        assert('0' <= t[t.len() - 1] <= '9');
    }
    text::lemma_trim_none(t);
    if q.headers == a + seq![(n, d)] + b {
        law_first_header_counts(a, n, d, b, name);
        assert(t[0] != '-');
    }
    let x = seq![' '] + v + seq![' '];
    if q.headers == a + seq![(n, encode_utf8(x))] + b && v == t {
        law_first_header_counts(a, n, encode_utf8(x), b, name);
        encode_utf8_valid_utf8(x);
        encode_utf8_decode_utf8(x);
        assert(text::is_space(x[0]));
        assert(x.drop_first() =~= v + seq![' ']);
        assert(!text::is_space((v + seq![' '])[0]));
        reveal_with_fuel(text::trim_start, 2);
        reveal_with_fuel(text::trim_end, 2);
        assert(text::trim_start(x) == v + seq![' ']);
        assert((v + seq![' ']).drop_last() =~= v);
        assert((v + seq![' ']).last() == ' ');
        assert(text::trim_end(v + seq![' ']) == v);
        assert(v[0] != '-');
    }
    if q.headers == a + seq![(n, encode_utf8(v))] + b && app_laws::no_number(v) && !(v.len() > 0
        && (text::is_space(v[0]) || text::is_space(v.last()))) {
        law_first_header_counts(a, n, encode_utf8(v), b, name);
        encode_utf8_valid_utf8(v);
        encode_utf8_decode_utf8(v);
        text::lemma_trim_none(v);
        app_laws::lemma_no_number(v);
    }
    if q.headers == a {
        lemma_unnamed(a, name);
    }
}

/// The token of a request is what its header holds; a request without one has none.
pub proof fn law_token_is_the_one_given(
    q: RequestView,
    a: Seq<(Seq<char>, Seq<u8>)>,
    n: Seq<char>,
    v: Seq<char>,
    b: Seq<(Seq<char>, Seq<u8>)>,
)
    requires
        unnamed(a, "x-admin-token"@),
        app_laws::either_case(n, "x-admin-token"@),
    ensures
        q.headers == a + seq![(n, encode_utf8(v))] + b ==> server_mini::token_in(q) == v,
        q.headers == a ==> server_mini::token_in(q).len() == 0,
{
    reveal_strlit("x-admin-token");
    reveal_strlit("");
    law_first_header_counts(a, n, encode_utf8(v), b, "x-admin-token"@);
    encode_utf8_valid_utf8(v);
    encode_utf8_decode_utf8(v);
}

/// A request is answered as soon as its head and as many bytes behind it are there as it
/// says, which are its body; until then it is waited for. Only POST and PATCH have a body,
/// and one that is longer than its path allows is refused at once.
pub proof fn law_request_is_what_was_sent(q: RequestView, head: Seq<u8>, rest: Seq<u8>)
    requires
        q.size == head.len(),
        q.method is Some,
        q.path is Some,
    ensures
        ({
            let m = q.method->0;
            let n = if m == "POST"@ || m == "PATCH"@ {
                server_mini::content_length(q)
            } else {
                0
            };
            let r = server_mini::found_of(HeadView::Whole(q), head + rest);
            if n > app::limit_of(q.path->0) {
                r is TooLarge
            } else if rest.len() < n {
                r is Wait
            } else {
                r matches FoundView::Whole(c) && c.method == m && c.path == q.path->0 && c.body
                    == rest.take(n) && c.token == server_mini::token_in(q) && c.alive
                    == server_mini::stays(q) && (head + rest).skip(c.size) == rest.skip(n)
            }
        }),
        server_mini::found_of(HeadView::Partial, head) is Wait,
        server_mini::found_of(HeadView::Broken, head) is Drop,
{
    let m = q.method->0;
    let n = if m == "POST"@ || m == "PATCH"@ {
        server_mini::content_length(q)
    } else {
        0
    };
    if 0 <= n <= rest.len() {
        assert((head + rest).subrange(q.size, q.size + n) =~= rest.take(n));
        assert((head + rest).skip(q.size + n) =~= rest.skip(n));
    }
}

/// A redirect names its url in its location header, and has no body; any other reply has
/// its body at the end, behind its length and media type. All let the origin use them.
pub proof fn law_reply_holds_what_it_says(r: ReplyView, origin: Seq<char>)
    ensures
        ({
            let b = server_mini::reply_bytes(r, origin);
            &&& app_laws::occurs(
                text::lit("access-control-allow-origin: ") + encode_utf8(origin) + text::lit(
                    "\r\n",
                ),
                b,
            )
            &&& r.location matches Some(u) ==> app_laws::occurs(
                text::lit("location: ") + encode_utf8(u) + text::lit("\r\n"),
                b,
            )
            &&& r.location is None ==> {
                &&& app_laws::occurs(
                    text::lit("content-type: ") + encode_utf8(
                        match r.ctype {
                            Some(c) => c,
                            None => "application/json"@,
                        },
                    ) + text::lit("\r\n"),
                    b,
                )
                &&& exists|x: Seq<u8>| #[trigger]
                    (x + (text::lit("\r\n\r\n") + r.body)) == b
            }
        }),
{
    let b = server_mini::reply_bytes(r, origin);
    let first = encode_utf8(server_mini::status_text(r.status));
    let cors = server_mini::cors_bytes(origin);
    let rest = server_mini::rest_bytes(r);
    let end = "\r\naccess-control-allow-methods: GET,POST,PATCH,DELETE,OPTIONS\r\naccess-control-allow-headers: content-type\r\naccess-control-max-age: 86400\r\n"@;
    reveal_strlit("\r\naccess-control-allow-methods: GET,POST,PATCH,DELETE,OPTIONS\r\naccess-control-allow-headers: content-type\r\naccess-control-max-age: 86400\r\n");
    reveal_strlit("\r\n");
    lemma_ends_line(end);
    let o = text::lit("access-control-allow-origin: ") + encode_utf8(origin);
    let tail = encode_utf8(end.skip(2));
    assert(first + (o + text::lit("\r\n")) + (tail + rest) =~= b);
    match r.location {
        Some(u) => {
            reveal_strlit("\r\ncontent-length: 0\r\n\r\n");
            let e = "\r\ncontent-length: 0\r\n\r\n"@;
            lemma_ends_line(e);
            let l = text::lit("location: ") + encode_utf8(u);
            assert((first + cors) + (l + text::lit("\r\n")) + encode_utf8(e.skip(2)) =~= b);
        },
        None => {
            reveal_strlit("\r\ncontent-length: ");
            let e = "\r\ncontent-length: "@;
            lemma_ends_line(e);
            let l = text::lit("content-type: ") + encode_utf8(server_mini::media_type(r));
            let more = encode_utf8(e.skip(2)) + text::decimal(r.body.len() as int) + text::lit(
                "\r\n\r\n",
            ) + r.body;
            assert((first + cors) + (l + text::lit("\r\n")) + more =~= b);
            let x = first + cors + l + text::lit("\r\ncontent-length: ") + text::decimal(
                r.body.len() as int,
            );
            assert(x + (text::lit("\r\n\r\n") + r.body) =~= b);
        },
    }
}

/// A text that begins with the end of a line.
proof fn lemma_ends_line(t: Seq<char>)
    requires
        t.len() >= 2,
        t[0] == '\r',
        t[1] == '\n',
    ensures
        encode_utf8(t) == text::lit("\r\n") + encode_utf8(t.skip(2)),
{
    reveal_strlit("\r\n");
    assert(t =~= "\r\n"@ + t.skip(2));
    text::lemma_bytes_concat("\r\n"@, t.skip(2));
}

/// The headers that go with a reply say what it is: where it leads, or what its body is,
/// and never both; and which origin may use it.
pub proof fn law_headers_go_with_the_reply(r: ReplyView, origin: Seq<char>)
    ensures
        ({
            let h = server_hyper::reply_headers(r, origin);
            &&& h.contains(("access-control-allow-origin"@, origin))
            &&& r.location matches Some(u) ==> h.contains(("location"@, u)) && h.len() == 5
            &&& r.location is None ==> h.contains(
                (
                    "content-type"@,
                    match r.ctype {
                        Some(c) => c,
                        None => "application/json"@,
                    },
                ),
            ) && h.len() == 5
        }),
{
    let h = server_hyper::reply_headers(r, origin);
    assert(h[0] == ("access-control-allow-origin"@, origin));
    assert(h[4] == h[4]);
}

proof fn lemma_first_comma(a: Seq<char>, b: Seq<char>, from: int)
    requires
        0 <= from <= a.len(),
        !a.contains(','),
    ensures
        text::char_index(a + seq![','] + b, from, ',') == a.len(),
        text::char_index(a, from, ',') == a.len(),
    decreases a.len() - from,
{
    let all = a + seq![','] + b;
    if from < a.len() {
        assert(all[from] == a[from]);
        assert(a.contains(a[from]));
        lemma_first_comma(a, b, from + 1);
    } else {
        assert(all[from] == ',');
    }
}

/// Behind a proxy that is trusted a client is who the proxy names first; otherwise it is
/// the peer, whatever the request says.
pub proof fn law_client_is_named_by_a_trusted_proxy(
    a: Seq<char>,
    more: Seq<char>,
    peer: Seq<char>,
    any: Option<Seq<char>>,
)
    requires
        !a.contains(','),
        a.len() > 0 ==> !text::is_space(a[0]) && !text::is_space(a.last()),
    ensures
        server_hyper::client_of(true, Some(a + seq![','] + more), peer) == (if a.len() > 0 {
            a
        } else {
            peer
        }),
        server_hyper::client_of(true, Some(a), peer) == (if a.len() > 0 {
            a
        } else {
            peer
        }),
        server_hyper::client_of(true, None, peer) == peer,
        server_hyper::client_of(false, any, peer) == peer,
{
    lemma_first_comma(a, more, 0);
    assert((a + seq![','] + more).take(a.len() as int) =~= a);
    assert(a.take(a.len() as int) =~= a);
    text::lemma_trim_none(a);
}

} // verus!
