//! A small HTTP/1.1 server: the requests in what a connection has received, and
//! the bytes of the replies.
//!
//! The caller reads and writes the connection and answers the requests; a
//! connection says what to do next.

use vstd::prelude::*;
use vstd::utf8::*;

use crate::app;
use crate::app::{Reply, ReplyView};
use crate::store;
use crate::text;

verus! {

/// How many headers a request may have.
pub const MAX_HEADERS: usize = 24;

// ---------- replies ----------

/// The first line of a reply.
pub open spec fn status_text(code: u16) -> Seq<char> {
    match code {
        200 => "HTTP/1.1 200 OK\r\n"@,
        201 => "HTTP/1.1 201 Created\r\n"@,
        204 => "HTTP/1.1 204 No Content\r\n"@,
        302 => "HTTP/1.1 302 Found\r\n"@,
        400 => "HTTP/1.1 400 Bad Request\r\n"@,
        404 => "HTTP/1.1 404 Not Found\r\n"@,
        409 => "HTTP/1.1 409 Conflict\r\n"@,
        413 => "HTTP/1.1 413 Content Too Large\r\n"@,
        429 => "HTTP/1.1 429 Too Many Requests\r\n"@,
        _ => "HTTP/1.1 500 Internal Server Error\r\n"@,
    }
}

/// The first line of a reply.
pub fn status_line(code: u16) -> (r: &'static str)
    ensures
        r@ == status_text(code),
{
    match code {
        200 => "HTTP/1.1 200 OK\r\n",
        201 => "HTTP/1.1 201 Created\r\n",
        204 => "HTTP/1.1 204 No Content\r\n",
        302 => "HTTP/1.1 302 Found\r\n",
        400 => "HTTP/1.1 400 Bad Request\r\n",
        404 => "HTTP/1.1 404 Not Found\r\n",
        409 => "HTTP/1.1 409 Conflict\r\n",
        413 => "HTTP/1.1 413 Content Too Large\r\n",
        429 => "HTTP/1.1 429 Too Many Requests\r\n",
        _ => "HTTP/1.1 500 Internal Server Error\r\n",
    }
}

/// The headers that let pages of `origin` use the replies.
pub open spec fn cors_bytes(origin: Seq<char>) -> Seq<u8> {
    text::lit("access-control-allow-origin: ") + encode_utf8(origin) + text::lit(
        "\r\naccess-control-allow-methods: GET,POST,PATCH,DELETE,OPTIONS\r\naccess-control-allow-headers: content-type\r\naccess-control-max-age: 86400\r\n",
    )
}

/// The headers that let pages of `origin` use the replies.
pub fn cors_block(origin: &str) -> (r: Vec<u8>)
    ensures
        r@ == cors_bytes(origin@),
{
    let mut b: Vec<u8> = text::copy_bytes("access-control-allow-origin: ".as_bytes());
    text::put(&mut b, origin);
    text::put(
        &mut b,
        "\r\naccess-control-allow-methods: GET,POST,PATCH,DELETE,OPTIONS\r\naccess-control-allow-headers: content-type\r\naccess-control-max-age: 86400\r\n",
    );
    b
}

/// The media type of a reply.
pub open spec fn media_type(r: ReplyView) -> Seq<char> {
    match r.ctype {
        Some(c) => c,
        None => "application/json"@,
    }
}

/// What stands behind the common headers of a reply: a redirect has no body.
pub open spec fn rest_bytes(r: ReplyView) -> Seq<u8> {
    match r.location {
        Some(loc) => text::lit("location: ") + encode_utf8(loc) + text::lit(
            "\r\ncontent-length: 0\r\n\r\n",
        ),
        None => text::lit("content-type: ") + encode_utf8(media_type(r)) + text::lit(
            "\r\ncontent-length: ",
        ) + text::decimal(r.body.len() as int) + text::lit("\r\n\r\n") + r.body,
    }
}

/// The bytes of a reply.
pub open spec fn reply_bytes(r: ReplyView, origin: Seq<char>) -> Seq<u8> {
    encode_utf8(status_text(r.status)) + cors_bytes(origin) + rest_bytes(r)
}

fn put_rest(out: &mut Vec<u8>, r: &Reply)
    ensures
        final(out)@ == old(out)@ + rest_bytes(r@),
{
    let mut b: Vec<u8> = Vec::new();
    match &r.location {
        Some(loc) => {
            text::put(&mut b, "location: ");
            assert(b@ =~= text::lit("location: "));
            text::put(&mut b, loc.as_str());
            text::put(&mut b, "\r\ncontent-length: 0\r\n\r\n");
        },
        None => {
            text::put(&mut b, "content-type: ");
            assert(b@ =~= text::lit("content-type: "));
            text::put(
                &mut b,
                match r.ctype {
                    Some(c) => c,
                    None => "application/json",
                },
            );
            text::put(&mut b, "\r\ncontent-length: ");
            text::put_u64(&mut b, r.body.len() as u64);
            text::put(&mut b, "\r\n\r\n");
            text::put_bytes(&mut b, r.body.as_slice());
        },
    }
    text::put_bytes(out, b.as_slice());
}

/// Appends a reply.
pub fn write_reply(out: &mut Vec<u8>, r: &Reply, origin: &str)
    ensures
        final(out)@ == old(out)@ + reply_bytes(r@, origin@),
{
    let mut b: Vec<u8> = text::copy_bytes(status_line(r.status).as_bytes());
    let cors: Vec<u8> = cors_block(origin);
    text::put_bytes(&mut b, cors.as_slice());
    put_rest(&mut b, r);
    text::put_bytes(out, b.as_slice());
}

// ---------- requests ----------

/// The head of a request: how long it is, and what it says.
pub struct Request {
    pub size: usize,
    pub method: Option<String>,
    pub path: Option<String>,
    pub version: Option<u8>,
    pub headers: Vec<(String, Vec<u8>)>,
}

/// The head of a request.
#[verifier::ext_equal]
pub ghost struct RequestView {
    pub size: int,
    pub method: Option<Seq<char>>,
    pub path: Option<Seq<char>>,
    pub version: Option<u8>,
    pub headers: Seq<(Seq<char>, Seq<u8>)>,
}

/// Names and values.
pub open spec fn header_views(v: Seq<(String, Vec<u8>)>) -> Seq<(Seq<char>, Seq<u8>)> {
    Seq::new(v.len(), |i: int| (v[i].0@, v[i].1@))
}

impl View for Request {
    type V = RequestView;

    open spec fn view(&self) -> RequestView {
        RequestView {
            size: self.size as int,
            method: store::opt_string(self.method),
            path: store::opt_string(self.path),
            version: self.version,
            headers: header_views(self.headers@),
        }
    }
}

/// What stands at the front of some bytes.
pub enum Head {
    /// The whole head of a request.
    Whole(Request),
    /// A part of one.
    Partial,
    /// Something else.
    Broken,
}

/// What stands at the front of some bytes.
pub ghost enum HeadView {
    Whole(RequestView),
    Partial,
    Broken,
}

impl View for Head {
    type V = HeadView;

    open spec fn view(&self) -> HeadView {
        match *self {
            Head::Whole(q) => HeadView::Whole(q@),
            Head::Partial => HeadView::Partial,
            Head::Broken => HeadView::Broken,
        }
    }
}

/// What `httparse::Request::parse` finds at the front of some bytes, with room for
/// `max` headers.
pub uninterp spec fn request_head(b: Seq<u8>, max: int) -> HeadView;

/// `httparse::Request::parse`, with room for `max` headers: it depends on nothing
/// else, and a whole head is no longer than what was given. What it takes for a
/// head is only named.
#[verifier::external_body]
fn parse_head(b: &[u8], max: usize) -> (r: Head)
    requires
        max <= 4096,
    ensures
        r@ == request_head(b@, max as int),
        r@ matches HeadView::Whole(q) ==> q.size <= b@.len(),
{
    let mut room = vec![httparse::EMPTY_HEADER; max];
    let mut q = httparse::Request::new(&mut room);
    match q.parse(b) {
        Ok(httparse::Status::Complete(n)) => Head::Whole(Request {
            size: n,
            method: q.method.map(|m| m.to_string()),
            path: q.path.map(|p| p.to_string()),
            version: q.version,
            headers: q.headers.iter().map(|h| (h.name.to_string(), h.value.to_vec())).collect(),
        }),
        Ok(httparse::Status::Partial) => Head::Partial,
        Err(_) => Head::Broken,
    }
}

/// The value of the first header of that name, in whatever case it is written.
pub open spec fn header_in(headers: Seq<(Seq<char>, Seq<u8>)>, name: Seq<char>) -> Option<Seq<u8>>
    decreases headers.len(),
{
    if headers.len() == 0 {
        None
    } else if text::lowered(encode_utf8(headers[0].0)) == text::lowered(encode_utf8(name)) {
        Some(headers[0].1)
    } else {
        header_in(headers.drop_first(), name)
    }
}

/// The value of the first header of that name, in whatever case it is written.
pub fn header_val<'a>(q: &'a Request, name: &str) -> (r: Option<&'a Vec<u8>>)
    ensures
        (match r {
            Some(v) => Some(v@),
            None => None,
        }) == header_in(q@.headers, name@),
{
    let ghost all = q@.headers;
    let mut i: usize = 0;
    assert(all.skip(0) =~= all);
    while i < q.headers.len()
        invariant
            i <= q.headers@.len(),
            all == header_views(q.headers@),
            header_in(all.skip(i as int), name@) == header_in(all, name@),
        decreases q.headers@.len() - i,
    {
        assert(all.skip(i as int)[0] == all[i as int]);
        assert(all.skip(i as int).drop_first() =~= all.skip(i + 1));
        if text::same_letters(q.headers[i].0.as_str().as_bytes(), name.as_bytes()) {
            return Some(&q.headers[i].1);
        }
        i += 1;
    }
    assert(all.skip(i as int) =~= Seq::empty());
    None
}

/// The version of a request: 1.1 unless it says another.
pub open spec fn version_of(q: RequestView) -> u8 {
    match q.version {
        Some(v) => v,
        None => 1,
    }
}

/// Whether the connection stays open behind a request: unless it says `close`;
/// where it says nothing, only in version 1.1.
pub open spec fn stays(q: RequestView) -> bool {
    match header_in(q.headers, "connection"@) {
        Some(v) => text::lowered(v) != text::lowered(text::lit("close")),
        None => version_of(q) == 1,
    }
}

/// Whether the connection stays open behind a request.
pub fn keep_alive(q: &Request) -> (r: bool)
    ensures
        r == stays(q@),
{
    match header_val(q, "connection") {
        Some(v) => !text::same_letters(v.as_slice(), "close".as_bytes()),
        None => match q.version {
            Some(v) => v == 1,
            None => true,
        },
    }
}

/// How long the body of a request is, as it says; 0 where it says no number.
pub open spec fn content_length(q: RequestView) -> int {
    match header_in(q.headers, "content-length"@) {
        Some(v) => if valid_utf8(v) {
            match text::uint_within(text::trim(decode_utf8(v)), usize::MAX as int) {
                Some(n) => n,
                None => 0,
            }
        } else {
            0
        },
        None => 0,
    }
}

fn body_size(q: &Request) -> (r: usize)
    ensures
        r == content_length(q@),
{
    match header_val(q, "content-length") {
        Some(v) => match text::utf8_string(v.as_slice()) {
            Some(s) => {
                let t: Vec<char> = text::chars_of(s.as_str());
                match text::parse_u64(&text::trimmed(&t)) {
                    Some(n) => if n <= usize::MAX as u64 {
                        n as usize
                    } else {
                        0
                    },
                    None => 0,
                }
            },
            None => 0,
        },
        None => 0,
    }
}

/// The token that a request carries; empty where it carries none.
pub open spec fn token_in(q: RequestView) -> Seq<char> {
    match header_in(q.headers, "x-admin-token"@) {
        Some(v) => if valid_utf8(v) {
            decode_utf8(v)
        } else {
            ""@
        },
        None => ""@,
    }
}

fn token_of(q: &Request) -> (r: String)
    ensures
        r@ == token_in(q@),
{
    match header_val(q, "x-admin-token") {
        Some(v) => match text::utf8_string(v.as_slice()) {
            Some(s) => s,
            None => "".to_string(),
        },
        None => "".to_string(),
    }
}

/// A request with its body.
pub struct Call {
    pub method: String,
    pub path: String,
    pub token: String,
    pub body: Vec<u8>,
    /// The connection stays open behind it.
    pub alive: bool,
    /// How many bytes it takes.
    pub size: usize,
}

/// A request with its body.
#[verifier::ext_equal]
pub ghost struct CallView {
    pub method: Seq<char>,
    pub path: Seq<char>,
    pub token: Seq<char>,
    pub body: Seq<u8>,
    pub alive: bool,
    pub size: int,
}

impl View for Call {
    type V = CallView;

    open spec fn view(&self) -> CallView {
        CallView {
            method: self.method@,
            path: self.path@,
            token: self.token@,
            body: self.body@,
            alive: self.alive,
            size: self.size as int,
        }
    }
}

/// What to do with what was received.
pub enum Found {
    /// Wait for more.
    Wait,
    /// Give up on the connection.
    Drop,
    /// Refuse a body that is too long.
    TooLarge,
    /// Answer a request.
    Whole(Call),
}

/// What to do with what was received.
pub ghost enum FoundView {
    Wait,
    Drop,
    TooLarge,
    Whole(CallView),
}

impl View for Found {
    type V = FoundView;

    open spec fn view(&self) -> FoundView {
        match *self {
            Found::Wait => FoundView::Wait,
            Found::Drop => FoundView::Drop,
            Found::TooLarge => FoundView::TooLarge,
            Found::Whole(c) => FoundView::Whole(c@),
        }
    }
}

/// The method of a request.
pub open spec fn method_of(q: RequestView) -> Seq<char> {
    match q.method {
        Some(m) => m,
        None => "GET"@,
    }
}

/// The path of a request.
pub open spec fn path_of(q: RequestView) -> Seq<char> {
    match q.path {
        Some(p) => p,
        None => "/"@,
    }
}

/// What to do with some bytes that begin with that head. A body counts only with
/// the methods that have one, and must not be longer than the path allows.
pub open spec fn found_of(head: HeadView, b: Seq<u8>) -> FoundView {
    match head {
        HeadView::Partial => FoundView::Wait,
        HeadView::Broken => FoundView::Drop,
        HeadView::Whole(q) => {
            let n = if app::has_body(method_of(q)) {
                content_length(q)
            } else {
                0
            };
            if n > app::limit_of(path_of(q)) {
                FoundView::TooLarge
            } else if b.len() < q.size + n {
                FoundView::Wait
            } else {
                FoundView::Whole(
                    CallView {
                        method: method_of(q),
                        path: path_of(q),
                        token: token_in(q),
                        body: b.subrange(q.size, q.size + n),
                        alive: stays(q),
                        size: q.size + n,
                    },
                )
            }
        },
    }
}

/// What to do with some bytes that begin with that head.
pub fn found_from(head: Head, b: &[u8]) -> (r: Found)
    requires
        head@ matches HeadView::Whole(q) ==> q.size <= b@.len(),
    ensures
        r@ == found_of(head@, b@),
        r@ matches FoundView::Whole(c) ==> c.size <= b@.len(),
{
    match head {
        Head::Partial => Found::Wait,
        Head::Broken => Found::Drop,
        Head::Whole(q) => {
            let alive: bool = keep_alive(&q);
            let said: usize = body_size(&q);
            let token: String = token_of(&q);
            let ghost qv = q@;
            let method: String = match q.method {
                Some(m) => m,
                None => "GET".to_string(),
            };
            let path: String = match q.path {
                Some(p) => p,
                None => "/".to_string(),
            };
            let n: usize = if app::needs_body(method.as_str()) {
                said
            } else {
                0
            };
            if n > app::body_limit(path.as_str()) {
                return Found::TooLarge;
            }
            if b.len() - q.size < n {
                return Found::Wait;
            }
            let size: usize = q.size + n;
            let body: Vec<u8> = text::copy_bytes(vstd::slice::slice_subrange(b, q.size, size));
            Found::Whole(Call { method, path, token, body, alive, size })
        },
    }
}

/// What to do with what was received.
pub open spec fn found_in(b: Seq<u8>) -> FoundView {
    found_of(request_head(b, MAX_HEADERS as int), b)
}

/// What to do with what was received.
pub fn next_request(b: &[u8]) -> (r: Found)
    ensures
        r@ == found_in(b@),
        r@ matches FoundView::Whole(c) ==> c.size <= b@.len(),
{
    found_from(parse_head(b, MAX_HEADERS), b)
}

// ---------- connections ----------

/// A connection: what was received and not answered, what is to be sent, and
/// whether it is about to end.
pub struct Conn {
    origin: String,
    buf: Vec<u8>,
    out: Vec<u8>,
    ended: bool,
    closing: bool,
}

/// A connection.
#[verifier::ext_equal]
pub ghost struct ConnView {
    /// Whose pages may use the replies.
    pub origin: Seq<char>,
    /// What was received and not answered.
    pub buf: Seq<u8>,
    /// What is to be sent.
    pub out: Seq<u8>,
    /// The client sends nothing more.
    pub ended: bool,
    /// The last request was the last one.
    pub closing: bool,
}

impl View for Conn {
    type V = ConnView;

    closed spec fn view(&self) -> ConnView {
        ConnView {
            origin: self.origin@,
            buf: self.buf@,
            out: self.out@,
            ended: self.ended,
            closing: self.closing,
        }
    }
}

/// What a connection does next.
pub enum Step {
    /// Answer a request, and go on.
    Answer(Call),
    /// Send what is to be sent; read on, or close.
    Send {
        close: bool,
    },
    /// Close without a word.
    Drop,
}

/// What a connection does next.
pub ghost enum StepView {
    Answer(CallView),
    Send {
        close: bool,
    },
    Drop,
}

impl View for Step {
    type V = StepView;

    open spec fn view(&self) -> StepView {
        match *self {
            Step::Answer(c) => StepView::Answer(c@),
            Step::Send { close } => StepView::Send { close },
            Step::Drop => StepView::Drop,
        }
    }
}

/// What a connection does next, and what it is then, where `found` says what to do
/// with what was received.
pub open spec fn stepped(c: ConnView, found: FoundView) -> (StepView, ConnView) {
    if c.closing {
        (StepView::Send { close: true }, c)
    } else {
        match found {
            FoundView::Wait => (StepView::Send { close: c.ended }, c),
            FoundView::Drop => (StepView::Drop, c),
            FoundView::TooLarge => (
                StepView::Send { close: true },
                ConnView {
                    out: c.out + reply_bytes(
                        app::error_reply(413, text::lit("body too large")),
                        c.origin,
                    ),
                    ..c
                },
            ),
            FoundView::Whole(q) => (
                StepView::Answer(q),
                ConnView { buf: c.buf.skip(q.size), closing: !q.alive, ..c },
            ),
        }
    }
}

/// A new connection, whose replies pages of `origin` may use.
pub open spec fn new_conn(origin: Seq<char>) -> ConnView {
    ConnView { origin, buf: Seq::empty(), out: Seq::empty(), ended: false, closing: false }
}

/// A connection with what was read; nothing is the end of what the client sends.
pub open spec fn received(c: ConnView, chunk: Seq<u8>) -> ConnView {
    ConnView { buf: c.buf + chunk, ended: chunk.len() == 0, ..c }
}

/// A connection with one more reply to be sent.
pub open spec fn with_reply(c: ConnView, r: ReplyView) -> ConnView {
    ConnView { out: c.out + reply_bytes(r, c.origin), ..c }
}

/// What is to be sent, and a connection with nothing to be sent.
pub open spec fn emptied(c: ConnView) -> (Seq<u8>, ConnView) {
    (c.out, ConnView { out: Seq::empty(), ..c })
}

impl Conn {
    /// A new connection, whose replies pages of `origin` may use.
    pub fn new(origin: &str) -> (r: Conn)
        ensures
            r@ == new_conn(origin@),
    {
        let r: Conn = Conn {
            origin: origin.to_string(),
            buf: Vec::new(),
            out: Vec::new(),
            ended: false,
            closing: false,
        };
        assert(r@ =~= ConnView {
            origin: origin@,
            buf: Seq::empty(),
            out: Seq::empty(),
            ended: false,
            closing: false,
        });
        r
    }

    /// Takes in what was read; nothing is the end of what the client sends.
    pub fn receive(&mut self, chunk: &[u8])
        ensures
            final(self)@ == received(old(self)@, chunk@),
    {
        text::put_bytes(&mut self.buf, chunk);
        self.ended = chunk.len() == 0;
    }

    /// What to do where `found` says what to do with what was received.
    pub fn step(&mut self, found: Found) -> (r: Step)
        requires
            found@ matches FoundView::Whole(q) ==> q.size <= old(self)@.buf.len(),
        ensures
            (r@, final(self)@) == stepped(old(self)@, found@),
    {
        if self.closing {
            return Step::Send { close: true };
        }
        match found {
            Found::Wait => Step::Send { close: self.ended },
            Found::Drop => Step::Drop,
            Found::TooLarge => {
                write_reply(&mut self.out, &app::too_large(), self.origin.as_str());
                Step::Send { close: true }
            },
            Found::Whole(q) => {
                let rest: Vec<u8> = text::copy_bytes(
                    vstd::slice::slice_subrange(self.buf.as_slice(), q.size, self.buf.len()),
                );
                assert(rest@ =~= self.buf@.skip(q.size as int));
                self.buf = rest;
                self.closing = !q.alive;
                assert(self@ =~= stepped(old(self)@, FoundView::Whole(q@)).1);
                Step::Answer(q)
            },
        }
    }

    /// What to do with what was received: answer the first request in it, or send
    /// the replies that there are.
    pub fn next(&mut self) -> (r: Step)
        ensures
            (r@, final(self)@) == stepped(old(self)@, found_in(old(self)@.buf)),
    {
        let found: Found = next_request(self.buf.as_slice());
        self.step(found)
    }

    /// Adds a reply to what is to be sent.
    pub fn reply(&mut self, r: &Reply)
        ensures
            final(self)@ == with_reply(old(self)@, r@),
    {
        write_reply(&mut self.out, r, self.origin.as_str());
    }

    /// Hands out what is to be sent.
    pub fn take(&mut self) -> (r: Vec<u8>)
        ensures
            (r@, final(self)@) == emptied(old(self)@),
    {
        let mut r: Vec<u8> = Vec::new();
        std::mem::swap(&mut self.out, &mut r);
        r
    }
}

// ---------- laws ----------

/// A request that is answered is taken from the front of what was received: its
/// head and its body are gone from there, and nothing else is.
pub proof fn law_request_is_taken_once(c: ConnView, q: CallView, head: HeadView)
    requires
        !c.closing,
        head matches HeadView::Whole(h) ==> 0 <= h.size <= c.buf.len(),
        found_of(head, c.buf) == FoundView::Whole(q),
    ensures
        ({
            let after = stepped(c, FoundView::Whole(q)).1;
            &&& c.buf == c.buf.take(q.size) + after.buf
            &&& q.body.len() <= q.size
            &&& c.buf.take(q.size).skip(q.size - q.body.len()) == q.body
            &&& after.out == c.out
        }),
{
    let h = head->Whole_0;
    assert(c.buf =~= c.buf.take(q.size) + c.buf.skip(q.size));
    assert(c.buf.take(q.size).skip(q.size - q.body.len()) =~= q.body);
}

/// No request is answered whose body is longer than allowed.
pub proof fn law_bodies_are_bounded(head: HeadView, b: Seq<u8>)
    requires
        head matches HeadView::Whole(h) ==> 0 <= h.size <= b.len(),
    ensures
        found_of(head, b) matches FoundView::Whole(q) ==> q.body.len() <= app::limit_of(q.path),
{
}

/// Behind a request that ends the connection nothing is answered any more.
pub proof fn law_nothing_behind_the_last(c: ConnView, found: FoundView)
    requires
        c.closing,
    ensures
        stepped(c, found).0 == (StepView::Send { close: true }),
        stepped(c, found).1 == c,
{
}

/// What is left of some bytes behind the first `k` requests in them.
pub open spec fn behind(b: Seq<u8>, k: nat) -> Seq<u8>
    decreases k,
{
    if k == 0 {
        b
    } else {
        let r = behind(b, (k - 1) as nat);
        match found_in(r) {
            FoundView::Whole(q) => r.skip(q.size),
            _ => r,
        }
    }
}

/// The bytes begin with `n` whole requests, and none in front of the last ends the
/// connection.
pub open spec fn pipelined(b: Seq<u8>, n: nat) -> bool {
    forall|k: nat|
        k < n ==> (found_in(#[trigger] behind(b, k)) matches FoundView::Whole(q) && (k + 1 < n
            ==> q.alive))
}

/// The request at place `k`.
pub open spec fn call_in(b: Seq<u8>, k: nat) -> CallView {
    found_in(behind(b, k))->Whole_0
}

/// Replies one after the other.
pub open spec fn all_replies(rs: Seq<ReplyView>, origin: Seq<char>) -> Seq<u8>
    decreases rs.len(),
{
    if rs.len() == 0 {
        Seq::empty()
    } else {
        all_replies(rs.drop_last(), origin) + reply_bytes(rs.last(), origin)
    }
}

/// What a connection does, and what it is then, where each step is followed by the next of
/// some replies.
pub open spec fn ran(c: ConnView, rs: Seq<ReplyView>) -> (Seq<StepView>, ConnView)
    decreases rs.len(),
{
    if rs.len() == 0 {
        (Seq::empty(), c)
    } else {
        let (steps, d) = ran(c, rs.drop_last());
        let (step, e) = stepped(d, found_in(d.buf));
        (steps.push(step), with_reply(e, rs.last()))
    }
}

proof fn lemma_ran(c: ConnView, rs: Seq<ReplyView>)
    requires
        !c.closing,
        pipelined(c.buf, rs.len()),
    ensures
        ran(c, rs).0.len() == rs.len(),
        forall|k: int|
            0 <= k < rs.len() ==> #[trigger] ran(c, rs).0[k] == StepView::Answer(
                call_in(c.buf, k as nat),
            ),
        ran(c, rs).1 == (ConnView {
            buf: behind(c.buf, rs.len()),
            out: c.out + all_replies(rs, c.origin),
            closing: rs.len() > 0 && !call_in(c.buf, (rs.len() - 1) as nat).alive,
            ..c
        }),
    decreases rs.len(),
{
    if rs.len() == 0 {
        assert(c.out + all_replies(rs, c.origin) =~= c.out);
    } else {
        let n = (rs.len() - 1) as nat;
        let front = rs.drop_last();
        assert(pipelined(c.buf, n)) by {
            assert forall|k: nat| k < n implies (found_in(
                #[trigger] behind(c.buf, k),
            ) matches FoundView::Whole(q) && (k + 1 < n ==> q.alive)) by {}
        }
        lemma_ran(c, front);
        if n > 0 {
            let last = behind(c.buf, (n - 1) as nat);
            assert(found_in(last)->Whole_0.alive);
        }
        let (steps, d) = ran(c, front);
        assert(found_in(behind(c.buf, n)) is Whole);
        let (step, e) = stepped(d, found_in(d.buf));
        assert(step == StepView::Answer(call_in(c.buf, n)));
        assert(e.out + reply_bytes(rs.last(), e.origin) =~= c.out + all_replies(rs, c.origin));
        assert forall|k: int| 0 <= k < rs.len() implies #[trigger] ran(c, rs).0[k]
            == StepView::Answer(call_in(c.buf, k as nat)) by {
            if k < n {
                assert(ran(c, rs).0[k] == steps[k]);
            }
        }
    }
}

/// Requests that were received together are answered together: each is answered, in
/// order, and nothing is sent before; the replies follow one another in that order. What
/// is sent then, once the last request ends the connection or no whole one is left, is all
/// of them; a body that is too long is refused behind them.
pub proof fn law_requests_are_answered_together(c: ConnView, rs: Seq<ReplyView>, k: int)
    requires
        !c.closing,
        pipelined(c.buf, rs.len()),
    ensures
        ran(c, rs).0.len() == rs.len(),
        0 <= k < rs.len() ==> ran(c, rs).0[k] == StepView::Answer(call_in(c.buf, k as nat)),
        ran(c, rs).1.buf == behind(c.buf, rs.len()),
        ran(c, rs).1.out == c.out + all_replies(rs, c.origin),
        ({
            let d = ran(c, rs).1;
            let left = found_in(behind(c.buf, rs.len()));
            if rs.len() > 0 && !call_in(c.buf, (rs.len() - 1) as nat).alive {
                stepped(d, left) == (StepView::Send { close: true }, d)
            } else {
                &&& left is Wait ==> stepped(d, left) == (StepView::Send { close: c.ended }, d)
                &&& left is TooLarge ==> stepped(d, left).0 == (StepView::Send { close: true })
                    && stepped(d, left).1.out == d.out + reply_bytes(
                    app::error_reply(413, text::lit("body too large")),
                    c.origin,
                )
            }
        }),
{
    lemma_ran(c, rs);
}

/// What is received is kept in order until it is answered, in whatever pieces it is read;
/// the connection knows that nothing more comes when nothing was read.
pub proof fn law_what_is_received_is_kept(c: ConnView, a: Seq<u8>, b: Seq<u8>)
    ensures
        received(received(c, a), b).buf == c.buf + (a + b),
        received(c, a).out == c.out,
        received(c, a).closing == c.closing,
        received(c, a).ended <==> a.len() == 0,
{
    assert(received(received(c, a), b).buf =~= c.buf + (a + b));
}

/// What is sent is what was replied since something was sent last, each reply once and in
/// order; and a new connection has nothing to send, nothing to answer, and does not end.
pub proof fn law_what_is_sent_is_what_was_replied(
    c: ConnView,
    origin: Seq<char>,
    r: ReplyView,
    t: ReplyView,
)
    ensures
        emptied(c).0 == c.out,
        emptied(emptied(c).1).0.len() == 0,
        emptied(c).1.buf == c.buf,
        emptied(with_reply(with_reply(c, r), t)).0 == c.out + reply_bytes(r, c.origin)
            + reply_bytes(t, c.origin),
        new_conn(origin).origin == origin,
        new_conn(origin).buf.len() == 0,
        new_conn(origin).out.len() == 0,
        !new_conn(origin).closing,
        !new_conn(origin).ended,
{
}

} // verus!
