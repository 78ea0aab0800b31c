//! The wire protocol of Redis: commands, and the replies to them.

use vstd::prelude::*;
use vstd::utf8::*;

use crate::aof;
use crate::text;

verus! {

// ---------- commands ----------

/// One argument of a command.
pub open spec fn arg_bytes(a: Seq<u8>) -> Seq<u8> {
    seq![36u8] + text::decimal(a.len() as int) + text::lit("\r\n") + a + text::lit("\r\n")
}

/// The arguments of a command.
pub open spec fn args_bytes(args: Seq<Seq<u8>>) -> Seq<u8>
    decreases args.len(),
{
    if args.len() == 0 {
        Seq::empty()
    } else {
        arg_bytes(args[0]) + args_bytes(args.skip(1))
    }
}

/// A command.
pub open spec fn cmd_bytes(args: Seq<Seq<u8>>) -> Seq<u8> {
    text::lit("*") + text::decimal(args.len() as int) + text::lit("\r\n") + args_bytes(args)
}

/// Appends a command.
pub fn write_cmd(out: &mut Vec<u8>, args: &Vec<Vec<u8>>)
    ensures
        final(out)@ == old(out)@ + cmd_bytes(aof::bytes_of(args@)),
{
    let ghost all = aof::bytes_of(args@);
    let mut b: Vec<u8> = Vec::new();
    text::put(&mut b, "*");
    assert(b@ =~= text::lit("*"));
    text::put_u64(&mut b, args.len() as u64);
    text::put(&mut b, "\r\n");
    let ghost head = b@;
    let mut i: usize = 0;
    assert(all.skip(0) =~= all);
    while i < args.len()
        invariant
            i <= args@.len(),
            all == aof::bytes_of(args@),
            b@ + args_bytes(all.skip(i as int)) == head + args_bytes(all),
        decreases args@.len() - i,
    {
        let ghost before = b@;
        let ghost rest = all.skip(i as int);
        b.push(36);
        text::put_u64(&mut b, args[i].len() as u64);
        text::put(&mut b, "\r\n");
        text::put_bytes(&mut b, args[i].as_slice());
        text::put(&mut b, "\r\n");
        i += 1;
        assert(b@ =~= before + arg_bytes(rest[0]));
        assert(rest.skip(1) =~= all.skip(i as int));
        assert(b@ + args_bytes(all.skip(i as int)) =~= before + args_bytes(rest));
    }
    assert(b@ =~= b@ + args_bytes(all.skip(i as int)));
    text::put_bytes(out, b.as_slice());
}

// ---------- replies ----------

/// A reply.
pub enum Resp {
    Simple(String),
    Int(i64),
    Bulk(Option<Vec<u8>>),
    Arr(Vec<Resp>),
    Error(String),
}

/// What a reply says.
pub ghost enum RespView {
    Simple(Seq<char>),
    Int(i64),
    Bulk(Option<Seq<u8>>),
    Arr(Seq<RespView>),
    Error(Seq<char>),
}

/// What a reply says.
pub open spec fn resp_view(r: Resp) -> RespView
    decreases r,
{
    match r {
        Resp::Simple(s) => RespView::Simple(s@),
        Resp::Int(n) => RespView::Int(n),
        Resp::Bulk(b) => RespView::Bulk(
            match b {
                Some(v) => Some(v@),
                None => None,
            },
        ),
        Resp::Arr(v) => RespView::Arr(
            Seq::new(
                v@.len(),
                |i: int|
                    if 0 <= i < v@.len() {
                        resp_view(v@[i])
                    } else {
                        RespView::Int(0)
                    },
            ),
        ),
        Resp::Error(s) => RespView::Error(s@),
    }
}

/// What some bytes hold of a reply: the reply and where it ends, not yet all of
/// it, or nothing that could be a reply.
pub enum Parsed {
    Whole(Resp, usize),
    Partial,
    Broken,
}

/// What some bytes hold of a reply.
pub ghost enum ParsedView {
    Whole(RespView, int),
    Partial,
    Broken,
}

/// What some bytes hold of a reply.
pub open spec fn parsed_view(p: Parsed) -> ParsedView {
    match p {
        Parsed::Whole(r, n) => ParsedView::Whole(resp_view(r), n as int),
        Parsed::Partial => ParsedView::Partial,
        Parsed::Broken => ParsedView::Broken,
    }
}

/// What several replies say.
pub open spec fn resp_views(v: Seq<Resp>) -> Seq<RespView> {
    Seq::new(v.len(), |i: int| resp_view(v[i]))
}

/// What some bytes hold of several replies: the replies and where they end, not
/// yet all of them, or nothing that could be replies.
pub enum Items {
    Whole(Vec<Resp>, usize),
    Partial,
    Broken,
}

/// What some bytes hold of several replies.
pub open spec fn items_view(p: Items) -> ItemsView {
    match p {
        Items::Whole(v, n) => ItemsView::Whole(resp_views(v@), n as int),
        Items::Partial => ItemsView::Partial,
        Items::Broken => ItemsView::Broken,
    }
}

/// What some bytes hold of several replies.
pub ghost enum ItemsView {
    Whole(Seq<RespView>, int),
    Partial,
    Broken,
}

/// Where the line that begins at `at` ends: behind its line break, or, if nothing
/// more comes, at the end.
pub open spec fn line_end(b: Seq<u8>, at: int, eof: bool) -> Option<int> {
    let i = text::index_from(b, at, 10);
    if i < b.len() {
        Some(i + 1)
    } else if eof {
        Some(b.len() as int)
    } else {
        None
    }
}

/// The text of the line from `at` to `end`, without the white space at its end;
/// nothing if it is not UTF-8.
pub open spec fn line_text(b: Seq<u8>, at: int, end: int) -> Option<Seq<char>> {
    let l = b.subrange(at, end);
    if valid_utf8(l) {
        Some(text::trim_end(decode_utf8(l)))
    } else {
        None
    }
}

/// The number that a line stands for.
pub open spec fn line_number(t: Seq<char>, def: int) -> int {
    match text::int_within(t, i64::MIN as int, i64::MAX as int) {
        Some(n) => n,
        None => def,
    }
}

/// What the bytes from `at` on hold of a reply. With `eof` nothing more comes.
pub open spec fn resp_at(b: Seq<u8>, at: int, eof: bool) -> ParsedView
    decreases b.len() - at, 0int,
{
    if at < 0 || at >= b.len() {
        if eof {
            ParsedView::Broken
        } else {
            ParsedView::Partial
        }
    } else if b[at] != 43 && b[at] != 45 && b[at] != 58 && b[at] != 36 && b[at] != 42 {
        ParsedView::Broken
    } else {
        match line_end(b, at + 1, eof) {
            None => ParsedView::Partial,
            Some(end) => match line_text(b, at + 1, end) {
                None => ParsedView::Broken,
                Some(t) => if b[at] == 43 {
                    ParsedView::Whole(RespView::Simple(t), end)
                } else if b[at] == 45 {
                    ParsedView::Whole(RespView::Error(t), end)
                } else if b[at] == 58 {
                    ParsedView::Whole(RespView::Int(line_number(t, 0) as i64), end)
                } else if b[at] == 36 {
                    let n = line_number(t, -1);
                    if n < 0 {
                        ParsedView::Whole(RespView::Bulk(None), end)
                    } else if end + n + 2 <= b.len() {
                        ParsedView::Whole(
                            RespView::Bulk(Some(b.subrange(end, end + n))),
                            end + n + 2,
                        )
                    } else if eof {
                        ParsedView::Broken
                    } else {
                        ParsedView::Partial
                    }
                } else if end <= at {
                    ParsedView::Broken
                } else {
                    match items_at(b, end, line_number(t, 0), eof) {
                        ItemsView::Whole(v, next) => ParsedView::Whole(RespView::Arr(v), next),
                        ItemsView::Partial => ParsedView::Partial,
                        ItemsView::Broken => ParsedView::Broken,
                    }
                },
            },
        }
    }
}

/// What the bytes from `at` on hold of `n` replies.
pub open spec fn items_at(b: Seq<u8>, at: int, n: int, eof: bool) -> ItemsView
    decreases b.len() - at, 1int,
{
    if n <= 0 {
        ItemsView::Whole(Seq::empty(), at)
    } else {
        match resp_at(b, at, eof) {
            ParsedView::Whole(r, next) => if next <= at || next > b.len() {
                ItemsView::Broken
            } else {
                match items_at(b, next, n - 1, eof) {
                    ItemsView::Whole(v, last) => ItemsView::Whole(seq![r] + v, last),
                    ItemsView::Partial => ItemsView::Partial,
                    ItemsView::Broken => ItemsView::Broken,
                }
            },
            ParsedView::Partial => ItemsView::Partial,
            ParsedView::Broken => ItemsView::Broken,
        }
    }
}

proof fn lemma_line_end(b: Seq<u8>, at: int, eof: bool)
    requires
        0 <= at <= b.len(),
    ensures
        line_end(b, at, eof) matches Some(end) ==> at <= end <= b.len(),
{
    text::lemma_index_from(b, at, 10);
}

/// A reply takes up some bytes, at most all.
pub proof fn lemma_progress(b: Seq<u8>, at: int, eof: bool)
    requires
        0 <= at <= b.len(),
    ensures
        resp_at(b, at, eof) matches ParsedView::Whole(_, next) ==> at < next <= b.len(),
    decreases b.len() - at, 0int,
{
    if at < b.len() {
        lemma_line_end(b, at + 1, eof);
        if let Some(end) = line_end(b, at + 1, eof) {
            if let Some(t) = line_text(b, at + 1, end) {
                if b[at] == 42 {
                    lemma_items_progress(b, end, line_number(t, 0), eof);
                }
            }
        }
    }
}

proof fn lemma_items_progress(b: Seq<u8>, at: int, n: int, eof: bool)
    requires
        0 <= at <= b.len(),
    ensures
        items_at(b, at, n, eof) matches ItemsView::Whole(_, next) ==> at <= next <= b.len(),
    decreases b.len() - at, 1int,
{
    if n > 0 {
        lemma_progress(b, at, eof);
        if let ParsedView::Whole(_, next) = resp_at(b, at, eof) {
            lemma_items_progress(b, next, n - 1, eof);
        }
    }
}

/// The line that begins at `at`: its text and where it ends. The first `None`
/// says that it is not all there, the second that it is not UTF-8.
fn read_line(b: &[u8], at: usize, eof: bool) -> (r: Option<(usize, Option<String>)>)
    requires
        at <= b@.len(),
    ensures
        r is Some <==> line_end(b@, at as int, eof) is Some,
        r matches Some((end, t)) ==> {
            &&& line_end(b@, at as int, eof) == Some(end as int)
            &&& at <= end <= b@.len()
            &&& t is Some <==> line_text(b@, at as int, end as int) is Some
            &&& t matches Some(s) ==> line_text(b@, at as int, end as int) == Some(s@)
        },
{
    proof {
        lemma_line_end(b@, at as int, eof);
    }
    let i: usize = text::find_byte(b, at, 10);
    if i >= b.len() && !eof {
        return None;
    }
    let end: usize = if i < b.len() {
        i + 1
    } else {
        b.len()
    };
    let l: &[u8] = vstd::slice::slice_subrange(b, at, end);
    match text::utf8_string(l) {
        Some(s) => {
            let t: Vec<char> = text::trimmed_end(&text::chars_of(s.as_str()));
            Some((end, Some(text::string_of(&t))))
        },
        None => Some((end, None)),
    }
}

fn to_number(s: &str, def: i64) -> (r: i64)
    ensures
        r == line_number(s@, def as int),
{
    match text::parse_i64(&text::chars_of(s)) {
        Some(n) => n,
        None => def,
    }
}

/// Reads the reply that begins at `at`. With `eof` nothing more comes.
pub fn read_resp(b: &[u8], at: usize, eof: bool) -> (r: Parsed)
    requires
        at <= b@.len(),
    ensures
        parsed_view(r) == resp_at(b@, at as int, eof),
        r matches Parsed::Whole(_, next) ==> at < next <= b@.len(),
    decreases b@.len() - at, 0int,
{
    proof {
        lemma_progress(b@, at as int, eof);
    }
    let len: usize = b.len();
    if at >= len {
        return if eof {
            Parsed::Broken
        } else {
            Parsed::Partial
        };
    }
    let ty: u8 = b[at];
    if ty != 43 && ty != 45 && ty != 58 && ty != 36 && ty != 42 {
        return Parsed::Broken;
    }
    let (end, line): (usize, Option<String>) = match read_line(b, at + 1, eof) {
        Some(l) => l,
        None => {
            return Parsed::Partial;
        },
    };
    let t: String = match line {
        Some(t) => t,
        None => {
            return Parsed::Broken;
        },
    };
    if ty == 43 {
        return Parsed::Whole(Resp::Simple(t), end);
    }
    if ty == 45 {
        return Parsed::Whole(Resp::Error(t), end);
    }
    if ty == 58 {
        return Parsed::Whole(Resp::Int(to_number(t.as_str(), 0)), end);
    }
    if ty == 36 {
        let n: i64 = to_number(t.as_str(), -1);
        if n < 0 {
            return Parsed::Whole(Resp::Bulk(None), end);
        }
        if len - end >= 2 && n as u64 <= (len - end - 2) as u64 {
            let k: usize = n as usize;
            let v: Vec<u8> = text::copy_bytes(vstd::slice::slice_subrange(b, end, end + k));
            return Parsed::Whole(Resp::Bulk(Some(v)), end + k + 2);
        }
        return if eof {
            Parsed::Broken
        } else {
            Parsed::Partial
        };
    }
    let n: i64 = to_number(t.as_str(), 0);
    match read_items(b, end, n, eof) {
        Items::Whole(v, next) => {
            proof {
                lemma_arr_view(v);
            }
            Parsed::Whole(Resp::Arr(v), next)
        },
        Items::Partial => Parsed::Partial,
        Items::Broken => Parsed::Broken,
    }
}

/// Reads `n` replies, the first of which begins at `at`.
pub fn read_items(b: &[u8], at: usize, n: i64, eof: bool) -> (r: Items)
    requires
        at <= b@.len(),
    ensures
        items_view(r) == items_at(b@, at as int, n as int, eof),
        r matches Items::Whole(_, next) ==> at <= next <= b@.len(),
    decreases b@.len() - at, 1int,
{
    let mut items: Vec<Resp> = Vec::new();
    let mut pos: usize = at;
    let mut left: i64 = n;
    let ghost goal = items_at(b@, at as int, n as int, eof);
    proof {
        assert(resp_views(items@) =~= Seq::<RespView>::empty());
        if let ItemsView::Whole(v, _) = goal {
            assert(Seq::<RespView>::empty() + v =~= v);
        }
    }
    while left > 0
        invariant
            at <= pos <= b@.len(),
            goal == prepend(resp_views(items@), items_at(b@, pos as int, left as int, eof)),
            goal == items_at(b@, at as int, n as int, eof),
        decreases left,
    {
        let ghost rest = items_at(b@, pos as int, left as int, eof);
        let ghost done = resp_views(items@);
        match read_resp(b, pos, eof) {
            Parsed::Whole(r, next) => {
                let ghost rv = resp_view(r);
                items.push(r);
                proof {
                    let tail = items_at(b@, next as int, left - 1, eof);
                    assert(rest == prepend(seq![rv], tail));
                    assert(resp_views(items@) =~= done.push(rv));
                    if let ItemsView::Whole(v, _) = tail {
                        assert(done + (seq![rv] + v) =~= done.push(rv) + v);
                    }
                }
                pos = next;
                left -= 1;
            },
            Parsed::Partial => {
                return Items::Partial;
            },
            Parsed::Broken => {
                return Items::Broken;
            },
        }
    }
    assert(resp_views(items@) + Seq::<RespView>::empty() =~= resp_views(items@));
    Items::Whole(items, pos)
}

/// What a reply of several says.
pub proof fn lemma_arr_view(items: Vec<Resp>)
    ensures
        resp_view(Resp::Arr(items)) == RespView::Arr(resp_views(items@)),
{
    reveal_with_fuel(resp_view, 2);
    let r = resp_view(Resp::Arr(items));
    assert(r is Arr);
    assert(r->Arr_0 =~= resp_views(items@));
}

/// Some replies in front of others.
spec fn prepend(done: Seq<RespView>, rest: ItemsView) -> ItemsView {
    match rest {
        ItemsView::Whole(v, next) => ItemsView::Whole(done + v, next),
        ItemsView::Partial => ItemsView::Partial,
        ItemsView::Broken => ItemsView::Broken,
    }
}

proof fn lemma_break()
    ensures
        text::lit("\r\n") == seq![13u8, 10],
        text::lit("*") == seq![42u8],
{
    reveal_strlit("\r\n");
    reveal_strlit("*");
    assert("\r\n"@ =~= text::ascii_text(seq![13u8, 10]));
    text::lemma_lit("\r\n"@, seq![13u8, 10]);
    assert("*"@ =~= text::ascii_text(seq![42u8]));
    text::lemma_lit("*"@, seq![42u8]);
}

/// A line that is a number reads back.
proof fn lemma_number_line(b: Seq<u8>, at: int, n: int, eof: bool)
    requires
        0 <= n <= i64::MAX,
        text::stands_at(b, text::decimal(n) + seq![13u8, 10], at),
    ensures
        ({
            let end = at + text::decimal(n).len() + 2;
            &&& line_end(b, at, eof) == Some(end)
            &&& line_text(b, at, end) is Some
            &&& text::int_within(
                line_text(b, at, end)->0,
                i64::MIN as int,
                i64::MAX as int,
            ) == Some(n)
        }),
{
    let d = text::decimal(n);
    let l = d + seq![13u8, 10];
    let end = at + l.len();
    text::lemma_decimal(n);
    assert(b.subrange(at, end) == l);
    assert forall|k: int| at <= k < end - 1 implies b[k] != 10 by {
        assert(b.subrange(at, end)[k - at] == l[k - at]);
    }
    assert(b.subrange(at, end)[l.len() - 1] == l[l.len() - 1]);
    text::lemma_index_is(b, at, 10, end - 1);
    text::lemma_ascii_text(l);
    let t = text::ascii_text(l);
    let u = text::ascii_text(d);
    assert(t.drop_last().drop_last() =~= u);
    assert(text::is_space(t.last()));
    assert(text::is_space(t.drop_last().last()));
    assert(!text::is_space(u.last()));
    reveal_with_fuel(text::trim_end, 3);
    assert(text::trim_end(t) == u);
    text::law_decimal_reads_back(n);
}

/// An argument reads back.
proof fn lemma_arg(b: Seq<u8>, at: int, a: Seq<u8>, eof: bool)
    requires
        a.len() <= i64::MAX,
        text::stands_at(b, arg_bytes(a), at),
    ensures
        resp_at(b, at, eof) == ParsedView::Whole(
            RespView::Bulk(Some(a)),
            at + arg_bytes(a).len(),
        ),
{
    lemma_break();
    let n = a.len() as int;
    let d = text::decimal(n);
    let w = arg_bytes(a);
    assert(b.subrange(at, at + w.len()) == w);
    assert(b[at] == 36) by {
        assert(b.subrange(at, at + w.len())[0] == w[0]);
    }
    let l = d + seq![13u8, 10];
    assert(w.subrange(1, 1 + l.len() as int) =~= l);
    assert(b.subrange(at + 1, at + 1 + l.len()) =~= w.subrange(1, 1 + l.len() as int));
    lemma_number_line(b, at + 1, n, eof);
    let end = at + 1 + l.len();
    assert(w.subrange(1 + l.len() as int, 1 + l.len() + n) =~= a);
    assert(b.subrange(end, end + n) =~= w.subrange(1 + l.len() as int, 1 + l.len() + n));
}

/// Arguments as replies.
pub open spec fn bulk_views(args: Seq<Seq<u8>>) -> Seq<RespView> {
    Seq::new(args.len(), |i: int| RespView::Bulk(Some(args[i])))
}

proof fn lemma_args(b: Seq<u8>, at: int, args: Seq<Seq<u8>>, eof: bool)
    requires
        forall|i: int| 0 <= i < args.len() ==> (#[trigger] args[i]).len() <= i64::MAX,
        text::stands_at(b, args_bytes(args), at),
    ensures
        items_at(b, at, args.len() as int, eof) == ItemsView::Whole(
            bulk_views(args),
            at + args_bytes(args).len(),
        ),
    decreases args.len(),
{
    let w = args_bytes(args);
    if args.len() == 0 {
        assert(bulk_views(args) =~= Seq::<RespView>::empty());
    } else {
        let first = arg_bytes(args[0]);
        let rest = args_bytes(args.skip(1));
        assert(b.subrange(at, at + w.len()) == w);
        assert(w.take(first.len() as int) =~= first);
        assert(b.subrange(at, at + first.len()) =~= w.take(first.len() as int));
        lemma_arg(b, at, args[0], eof);
        let next = at + first.len();
        assert(w.skip(first.len() as int) =~= rest);
        assert(b.subrange(next, next + rest.len()) =~= w.skip(first.len() as int));
        assert forall|i: int| 0 <= i < args.skip(1).len() implies (#[trigger] args.skip(1)[i]).len()
            <= i64::MAX by {
            assert(args.skip(1)[i] == args[i + 1]);
        }
        lemma_args(b, next, args.skip(1), eof);
        assert(seq![RespView::Bulk(Some(args[0]))] + bulk_views(args.skip(1)) =~= bulk_views(args));
    }
}

/// A command reads back as the array of its arguments, whatever stands in them and whatever
/// comes behind it. The lengths are those that a reply can hold; no memory holds more.
pub proof fn law_command_reads_back(args: Seq<Seq<u8>>, rest: Seq<u8>, eof: bool)
    requires
        args.len() <= i64::MAX,
        forall|i: int| 0 <= i < args.len() ==> (#[trigger] args[i]).len() <= i64::MAX,
    ensures
        resp_at(cmd_bytes(args) + rest, 0, eof) == ParsedView::Whole(
            RespView::Arr(bulk_views(args)),
            cmd_bytes(args).len() as int,
        ),
{
    lemma_break();
    let c = cmd_bytes(args);
    let b = c + rest;
    let n = args.len() as int;
    let l = text::decimal(n) + seq![13u8, 10];
    let end = 1 + l.len() as int;
    assert(b.subrange(1, end) =~= l);
    lemma_number_line(b, 1, n, eof);
    assert(b.subrange(end, end + args_bytes(args).len()) =~= args_bytes(args));
    lemma_args(b, end, args, eof);
}

proof fn lemma_text_line(b: Seq<u8>, at: int, t: Seq<char>, eof: bool)
    requires
        !encode_utf8(t).contains(10),
        t.len() > 0 ==> !text::is_space(t.last()),
        text::stands_at(b, encode_utf8(t) + seq![13u8, 10], at),
    ensures
        ({
            let end = at + encode_utf8(t).len() + 2;
            &&& line_end(b, at, eof) == Some(end)
            &&& line_text(b, at, end) == Some(t)
        }),
{
    let d = encode_utf8(t);
    let l = d + seq![13u8, 10];
    let end = at + l.len();
    assert(b.subrange(at, end) == l);
    assert forall|k: int| at <= k < end - 1 implies b[k] != 10 by {
        assert(b.subrange(at, end)[k - at] == l[k - at]);
        if k - at < d.len() {
            assert(d.contains(d[k - at]));
        }
    }
    assert(b[end - 1] == 10) by {
        assert(b.subrange(at, end)[l.len() - 1] == l[l.len() - 1]);
    }
    text::lemma_index_is(b, at, 10, end - 1);
    let crlf = seq!['\r', '\n'];
    text::lemma_bytes_concat(t, crlf);
    assert(crlf =~= text::ascii_text(seq![13u8, 10]));
    text::lemma_lit(crlf, seq![13u8, 10]);
    encode_utf8_valid_utf8(t + crlf);
    encode_utf8_decode_utf8(t + crlf);
    let all = t + crlf;
    assert(all.drop_last() =~= t + seq!['\r']);
    assert((t + seq!['\r']).drop_last() =~= t);
    reveal_with_fuel(text::trim_end, 3);
    assert(text::trim_end(all) == t);
}

/// A reply that is one line reads back, and what comes behind it is left alone: a word, an
/// error, a number, or that there is no value.
pub proof fn law_short_replies_read_back(
    front: Seq<u8>,
    t: Seq<char>,
    n: i64,
    rest: Seq<u8>,
    eof: bool,
)
    requires
        !encode_utf8(t).contains(10),
        t.len() > 0 ==> !text::is_space(t.last()),
    ensures
        ({
            let line = encode_utf8(t) + seq![13u8, 10];
            let at = front.len() as int;
            let end = at + 1 + line.len();
            &&& resp_at(front + (seq!['+' as u8] + line) + rest, at, eof) == ParsedView::Whole(
                RespView::Simple(t),
                end,
            )
            &&& resp_at(front + (seq!['-' as u8] + line) + rest, at, eof) == ParsedView::Whole(
                RespView::Error(t),
                end,
            )
            &&& t == text::ascii_text(text::decimal(n as int)) ==> resp_at(
                front + (seq![':' as u8] + line) + rest,
                at,
                eof,
            ) == ParsedView::Whole(RespView::Int(n), end)
            &&& t == text::ascii_text(text::decimal(n as int)) && n < 0 ==> resp_at(
                front + (seq!['$' as u8] + line) + rest,
                at,
                eof,
            ) == ParsedView::Whole(RespView::Bulk(None), end)
        }),
{
    let line = encode_utf8(t) + seq![13u8, 10];
    let at = front.len() as int;
    text::law_decimal_reads_back(n as int);
    let b = front + (seq!['+' as u8] + line) + rest;
    assert(b.subrange(at + 1, at + 1 + line.len()) =~= line);
    lemma_text_line(b, at + 1, t, eof);
    let b = front + (seq!['-' as u8] + line) + rest;
    assert(b.subrange(at + 1, at + 1 + line.len()) =~= line);
    lemma_text_line(b, at + 1, t, eof);
    let b = front + (seq![':' as u8] + line) + rest;
    assert(b.subrange(at + 1, at + 1 + line.len()) =~= line);
    lemma_text_line(b, at + 1, t, eof);
    let b = front + (seq!['$' as u8] + line) + rest;
    assert(b.subrange(at + 1, at + 1 + line.len()) =~= line);
    lemma_text_line(b, at + 1, t, eof);
}

/// A value reads back whatever it holds, and what comes behind it is left alone.
pub proof fn law_values_read_back(front: Seq<u8>, v: Seq<u8>, rest: Seq<u8>, eof: bool)
    requires
        v.len() <= i64::MAX,
    ensures
        ({
            let w = seq!['$' as u8] + text::decimal(v.len() as int) + seq![13u8, 10] + v + seq![
                13u8,
                10,
            ];
            resp_at(front + w + rest, front.len() as int, eof) == ParsedView::Whole(
                RespView::Bulk(Some(v)),
                (front.len() + w.len()) as int,
            )
        }),
{
    lemma_break();
    reveal_strlit("$");
    assert("$"@ =~= text::ascii_text(seq![36u8]));
    text::lemma_lit("$"@, seq![36u8]);
    let w = seq!['$' as u8] + text::decimal(v.len() as int) + seq![13u8, 10] + v + seq![13u8, 10];
    assert(arg_bytes(v) =~= w);
    let b = front + w + rest;
    assert(b.subrange(front.len() as int, (front.len() + w.len()) as int) =~= w);
    lemma_arg(b, front.len() as int, v, eof);
}

// ---------- the commands that are sent ----------

fn arg(v: &mut Vec<Vec<u8>>, a: &[u8])
    ensures
        aof::bytes_of(final(v)@) == aof::bytes_of(old(v)@).push(a@),
{
    v.push(text::copy_bytes(a));
    assert(aof::bytes_of(v@) =~= aof::bytes_of(old(v)@).push(a@));
}

fn command(name: &str) -> (r: Vec<Vec<u8>>)
    ensures
        aof::bytes_of(r@) == seq![text::lit(name)],
{
    let mut v: Vec<Vec<u8>> = Vec::new();
    assert(aof::bytes_of(v@) =~= Seq::empty());
    arg(&mut v, name.as_bytes());
    assert(aof::bytes_of(v@) =~= seq![text::lit(name)]);
    v
}

fn number_arg(v: &mut Vec<Vec<u8>>, n: i64)
    ensures
        aof::bytes_of(final(v)@) == aof::bytes_of(old(v)@).push(text::decimal(n as int)),
{
    let mut b: Vec<u8> = Vec::new();
    text::put_i64(&mut b, n);
    assert(b@ =~= text::decimal(n as int));
    arg(v, b.as_slice());
}

/// Reads a key.
pub fn get_cmd(k: &[u8]) -> (r: Vec<Vec<u8>>)
    ensures
        aof::bytes_of(r@) == seq![text::lit("GET"), k@],
{
    let mut v: Vec<Vec<u8>> = command("GET");
    arg(&mut v, k);
    assert(aof::bytes_of(v@) =~= seq![text::lit("GET"), k@]);
    v
}

/// The words of a command that writes a key: with a lifetime in ms if it is over
/// 0, and only if the key is not there yet if `nx` says so.
pub open spec fn set_words(k: Seq<u8>, v: Seq<u8>, px_ms: i64, nx: bool) -> Seq<Seq<u8>> {
    seq![text::lit("SET"), k, v] + (if px_ms > 0 {
        seq![text::lit("PX"), text::decimal(px_ms as int)]
    } else {
        Seq::empty()
    }) + (if nx {
        seq![text::lit("NX")]
    } else {
        Seq::empty()
    })
}

/// Writes a key: with a lifetime in ms if it is over 0, and only if the key is not
/// there yet if `nx` says so.
pub fn set_cmd(k: &[u8], v: &[u8], px_ms: i64, nx: bool) -> (r: Vec<Vec<u8>>)
    ensures
        aof::bytes_of(r@) == set_words(k@, v@, px_ms, nx),
{
    let mut c: Vec<Vec<u8>> = command("SET");
    arg(&mut c, k);
    arg(&mut c, v);
    if px_ms > 0 {
        arg(&mut c, "PX".as_bytes());
        number_arg(&mut c, px_ms);
    }
    if nx {
        arg(&mut c, "NX".as_bytes());
    }
    assert(aof::bytes_of(c@) =~= set_words(k@, v@, px_ms, nx));
    c
}

/// Deletes a key.
pub fn del_cmd(k: &[u8]) -> (r: Vec<Vec<u8>>)
    ensures
        aof::bytes_of(r@) == seq![text::lit("DEL"), k@],
{
    let mut v: Vec<Vec<u8>> = command("DEL");
    arg(&mut v, k);
    assert(aof::bytes_of(v@) =~= seq![text::lit("DEL"), k@]);
    v
}

/// Adds to the number under a key.
pub fn incrby_cmd(k: &[u8], d: i64) -> (r: Vec<Vec<u8>>)
    ensures
        aof::bytes_of(r@) == seq![text::lit("INCRBY"), k@, text::decimal(d as int)],
{
    let mut v: Vec<Vec<u8>> = command("INCRBY");
    arg(&mut v, k);
    number_arg(&mut v, d);
    assert(aof::bytes_of(v@) =~= seq![text::lit("INCRBY"), k@, text::decimal(d as int)]);
    v
}

/// Reads a field of a hash.
pub fn hget_cmd(k: &[u8], f: &[u8]) -> (r: Vec<Vec<u8>>)
    ensures
        aof::bytes_of(r@) == seq![text::lit("HGET"), k@, f@],
{
    let mut v: Vec<Vec<u8>> = command("HGET");
    arg(&mut v, k);
    arg(&mut v, f);
    assert(aof::bytes_of(v@) =~= seq![text::lit("HGET"), k@, f@]);
    v
}

/// Writes a field of a hash.
pub fn hset_cmd(k: &[u8], f: &[u8], x: &[u8]) -> (r: Vec<Vec<u8>>)
    ensures
        aof::bytes_of(r@) == seq![text::lit("HSET"), k@, f@, x@],
{
    let mut v: Vec<Vec<u8>> = command("HSET");
    arg(&mut v, k);
    arg(&mut v, f);
    arg(&mut v, x);
    assert(aof::bytes_of(v@) =~= seq![text::lit("HSET"), k@, f@, x@]);
    v
}

/// Writes a field of a hash that is not there yet.
pub fn hsetnx_cmd(k: &[u8], f: &[u8], x: &[u8]) -> (r: Vec<Vec<u8>>)
    ensures
        aof::bytes_of(r@) == seq![text::lit("HSETNX"), k@, f@, x@],
{
    let mut v: Vec<Vec<u8>> = command("HSETNX");
    arg(&mut v, k);
    arg(&mut v, f);
    arg(&mut v, x);
    assert(aof::bytes_of(v@) =~= seq![text::lit("HSETNX"), k@, f@, x@]);
    v
}

/// Deletes a field of a hash.
pub fn hdel_cmd(k: &[u8], f: &[u8]) -> (r: Vec<Vec<u8>>)
    ensures
        aof::bytes_of(r@) == seq![text::lit("HDEL"), k@, f@],
{
    let mut v: Vec<Vec<u8>> = command("HDEL");
    arg(&mut v, k);
    arg(&mut v, f);
    assert(aof::bytes_of(v@) =~= seq![text::lit("HDEL"), k@, f@]);
    v
}

/// Adds to the number in a field of a hash.
pub fn hincrby_cmd(k: &[u8], f: &[u8], d: i64) -> (r: Vec<Vec<u8>>)
    ensures
        aof::bytes_of(r@) == seq![text::lit("HINCRBY"), k@, f@, text::decimal(d as int)],
{
    let mut v: Vec<Vec<u8>> = command("HINCRBY");
    arg(&mut v, k);
    arg(&mut v, f);
    number_arg(&mut v, d);
    assert(aof::bytes_of(v@) =~= seq![text::lit("HINCRBY"), k@, f@, text::decimal(d as int)]);
    v
}

/// Asks for more keys that fit a pattern.
pub fn scan_cmd(cursor: &[u8], pat: &[u8]) -> (r: Vec<Vec<u8>>)
    ensures
        aof::bytes_of(r@) == seq![
            text::lit("SCAN"),
            cursor@,
            text::lit("MATCH"),
            pat@,
            text::lit("COUNT"),
            text::lit("500"),
        ],
{
    let mut v: Vec<Vec<u8>> = command("SCAN");
    arg(&mut v, cursor);
    arg(&mut v, "MATCH".as_bytes());
    arg(&mut v, pat);
    arg(&mut v, "COUNT".as_bytes());
    arg(&mut v, "500".as_bytes());
    assert(aof::bytes_of(v@) =~= seq![
        text::lit("SCAN"),
        cursor@,
        text::lit("MATCH"),
        pat@,
        text::lit("COUNT"),
        text::lit("500"),
    ]);
    v
}

/// Asks for more fields of a hash.
pub fn hscan_cmd(key: &[u8], cursor: &[u8]) -> (r: Vec<Vec<u8>>)
    ensures
        aof::bytes_of(r@) == seq![
            text::lit("HSCAN"),
            key@,
            cursor@,
            text::lit("COUNT"),
            text::lit("1000"),
        ],
{
    let mut v: Vec<Vec<u8>> = command("HSCAN");
    arg(&mut v, key);
    arg(&mut v, cursor);
    arg(&mut v, "COUNT".as_bytes());
    arg(&mut v, "1000".as_bytes());
    assert(aof::bytes_of(v@) =~= seq![
        text::lit("HSCAN"),
        key@,
        cursor@,
        text::lit("COUNT"),
        text::lit("1000"),
    ]);
    v
}

/// Goes to another database.
pub fn select_cmd(n: i64) -> (r: Vec<Vec<u8>>)
    ensures
        aof::bytes_of(r@) == seq![text::lit("SELECT"), text::decimal(n as int)],
{
    let mut v: Vec<Vec<u8>> = command("SELECT");
    number_arg(&mut v, n);
    assert(aof::bytes_of(v@) =~= seq![text::lit("SELECT"), text::decimal(n as int)]);
    v
}

/// Deletes all keys.
pub fn flushdb_cmd() -> (r: Vec<Vec<u8>>)
    ensures
        aof::bytes_of(r@) == seq![text::lit("FLUSHDB")],
{
    command("FLUSHDB")
}

// ---------- what the replies say ----------

/// The value that was read, if there is one.
pub open spec fn bulk_of(r: RespView) -> Option<Seq<u8>> {
    match r {
        RespView::Bulk(b) => b,
        _ => None,
    }
}

/// The value that was read, if there is one.
pub fn get_reply(r: Resp) -> (v: Option<Vec<u8>>)
    ensures
        v is Some <==> bulk_of(resp_view(r)) is Some,
        v matches Some(b) ==> bulk_of(resp_view(r)) == Some(b@),
{
    match r {
        Resp::Bulk(b) => b,
        _ => None,
    }
}

/// Whether a key was written, or the error.
pub open spec fn set_result(r: RespView) -> Result<bool, Seq<char>> {
    match r {
        RespView::Simple(s) => Ok(s == "OK"@),
        RespView::Error(e) => Err(e),
        _ => Ok(false),
    }
}

/// Whether a key was written, or the error. A key that was there already was not.
pub fn set_reply(r: Resp) -> (v: Result<bool, String>)
    ensures
        v is Ok <==> set_result(resp_view(r)) is Ok,
        v matches Ok(b) ==> set_result(resp_view(r)) == Ok::<bool, Seq<char>>(b),
        v matches Err(e) ==> set_result(resp_view(r)) == Err::<bool, Seq<char>>(e@),
{
    match r {
        Resp::Simple(s) => Ok(text::same(s.as_str(), "OK")),
        Resp::Error(e) => Err(e),
        _ => Ok(false),
    }
}

/// How many keys or fields were deleted.
pub open spec fn count_of(r: RespView) -> i64 {
    match r {
        RespView::Int(n) => n,
        _ => 0,
    }
}

/// How many keys or fields were deleted.
pub fn del_reply(r: &Resp) -> (n: i64)
    ensures
        n == count_of(resp_view(*r)),
{
    match r {
        Resp::Int(n) => *n,
        _ => 0,
    }
}

/// Whether a field that was written is new.
pub fn hset_reply(r: &Resp) -> (b: bool)
    ensures
        b == (resp_view(*r) == RespView::Int(1)),
{
    match r {
        Resp::Int(n) => *n == 1,
        _ => false,
    }
}

/// Whether a field was written that was not there before.
pub fn hsetnx_reply(r: &Resp) -> (b: bool)
    ensures
        b == (resp_view(*r) == RespView::Int(1)),
{
    match r {
        Resp::Int(n) => *n == 1,
        _ => false,
    }
}

/// Where a scan goes on.
pub open spec fn cursor_of(r: RespView) -> Option<Seq<u8>> {
    match r {
        RespView::Bulk(Some(b)) => Some(b),
        RespView::Simple(s) => Some(encode_utf8(s)),
        _ => None,
    }
}

/// The values of several replies.
pub open spec fn bulks(v: Seq<RespView>) -> Seq<Seq<u8>>
    decreases v.len(),
{
    if v.len() == 0 {
        Seq::empty()
    } else {
        match v.last() {
            RespView::Bulk(Some(b)) => bulks(v.drop_last()).push(b),
            _ => bulks(v.drop_last()),
        }
    }
}

/// The values of several replies, two by two; what is left over is left out.
pub open spec fn bulk_pairs(v: Seq<RespView>) -> Seq<(Seq<u8>, Seq<u8>)>
    decreases v.len(),
{
    if v.len() < 2 {
        Seq::empty()
    } else if v.len() % 2 == 1 {
        bulk_pairs(v.drop_last())
    } else {
        let rest = bulk_pairs(v.drop_last().drop_last());
        match (v[v.len() - 2], v[v.len() - 1]) {
            (RespView::Bulk(Some(f)), RespView::Bulk(Some(x))) => rest.push((f, x)),
            _ => rest,
        }
    }
}

/// What a step of a scan brought, and where to go on; nowhere at the end.
pub open spec fn scan_result(r: RespView) -> (Seq<RespView>, Option<Seq<u8>>) {
    match r {
        RespView::Arr(a) => if a.len() == 2 {
            match cursor_of(a[0]) {
                Some(c) => (
                    match a[1] {
                        RespView::Arr(v) => v,
                        _ => Seq::empty(),
                    },
                    if c == text::lit("0") {
                        None
                    } else {
                        Some(c)
                    },
                ),
                None => (Seq::empty(), None),
            }
        } else {
            (Seq::empty(), None)
        },
        _ => (Seq::empty(), None),
    }
}

/// Bytes that may not be there.
pub open spec fn opt_bytes(b: Option<Vec<u8>>) -> Option<Seq<u8>> {
    match b {
        Some(v) => Some(v@),
        None => None,
    }
}

fn read_cursor(r: &Resp) -> (c: Option<Vec<u8>>)
    ensures
        opt_bytes(c) == cursor_of(resp_view(*r)),
{
    match r {
        Resp::Bulk(Some(b)) => Some(text::copy_bytes(b.as_slice())),
        Resp::Simple(s) => Some(text::copy_bytes(s.as_str().as_bytes())),
        _ => None,
    }
}

fn scan_parts<'a>(r: &'a Resp) -> (p: (Option<&'a Vec<Resp>>, Option<Vec<u8>>))
    ensures
        scan_result(resp_view(*r)).0 == (match p.0 {
            Some(v) => resp_views(v@),
            None => Seq::empty(),
        }),
        scan_result(resp_view(*r)).1 == opt_bytes(p.1),
{
    match r {
        Resp::Arr(a) => {
            proof {
                lemma_arr_view(*a);
            }
            if a.len() != 2 {
                return (None, None);
            }
            match read_cursor(&a[0]) {
                Some(c) => {
                    let next: Option<Vec<u8>> = if text::bytes_eq(c.as_slice(), "0".as_bytes()) {
                        None
                    } else {
                        Some(c)
                    };
                    match &a[1] {
                        Resp::Arr(v) => {
                            proof {
                                lemma_arr_view(*v);
                            }
                            (Some(v), next)
                        },
                        _ => (None, next),
                    }
                },
                None => (None, None),
            }
        },
        _ => (None, None),
    }
}

/// What a step of a scan brought: keys, and where to go on; nowhere at the end.
pub fn scan_step(r: &Resp) -> (s: (Vec<Vec<u8>>, Option<Vec<u8>>))
    ensures
        aof::bytes_of(s.0@) == bulks(scan_result(resp_view(*r)).0),
        opt_bytes(s.1) == scan_result(resp_view(*r)).1,
{
    let (items, next): (Option<&Vec<Resp>>, Option<Vec<u8>>) = scan_parts(r);
    let mut out: Vec<Vec<u8>> = Vec::new();
    assert(aof::bytes_of(out@) =~= Seq::empty());
    if let Some(v) = items {
        let ghost all = resp_views(v@);
        let mut i: usize = 0;
        assert(all.take(0) =~= Seq::empty());
        while i < v.len()
            invariant
                i <= v@.len(),
                all == resp_views(v@),
                aof::bytes_of(out@) == bulks(all.take(i as int)),
            decreases v@.len() - i,
        {
            let ghost before = aof::bytes_of(out@);
            assert(all.take(i + 1).drop_last() =~= all.take(i as int));
            if let Resp::Bulk(Some(b)) = &v[i] {
                out.push(text::copy_bytes(b.as_slice()));
                assert(aof::bytes_of(out@) =~= before.push(b@));
            }
            i += 1;
        }
        assert(all.take(i as int) =~= all);
    }
    (out, next)
}

/// Fields and values.
pub open spec fn field_views(v: Seq<(Vec<u8>, Vec<u8>)>) -> Seq<(Seq<u8>, Seq<u8>)> {
    Seq::new(v.len(), |i: int| (v[i].0@, v[i].1@))
}

/// What a step of a scan of a hash brought: fields and values, and where to go
/// on; nowhere at the end.
pub fn hscan_step(r: &Resp) -> (s: (Vec<(Vec<u8>, Vec<u8>)>, Option<Vec<u8>>))
    ensures
        field_views(s.0@) == bulk_pairs(scan_result(resp_view(*r)).0),
        opt_bytes(s.1) == scan_result(resp_view(*r)).1,
{
    let (items, next): (Option<&Vec<Resp>>, Option<Vec<u8>>) = scan_parts(r);
    let mut out: Vec<(Vec<u8>, Vec<u8>)> = Vec::new();
    assert(field_views(out@) =~= Seq::empty());
    if let Some(v) = items {
        let ghost all = resp_views(v@);
        let mut i: usize = 0;
        assert(all.take(0) =~= Seq::empty());
        while v.len() - i >= 2
            invariant
                i <= v@.len(),
                i % 2 == 0,
                all == resp_views(v@),
                field_views(out@) == bulk_pairs(all.take(i as int)),
            decreases v@.len() - i,
        {
            let ghost before = field_views(out@);
            assert(all.take(i + 2).drop_last().drop_last() =~= all.take(i as int));
            if let (Resp::Bulk(Some(f)), Resp::Bulk(Some(x))) = (&v[i], &v[i + 1]) {
                out.push((text::copy_bytes(f.as_slice()), text::copy_bytes(x.as_slice())));
                assert(field_views(out@) =~= before.push((f@, x@)));
            }
            i += 2;
        }
        proof {
            if i == v@.len() {
                assert(all.take(i as int) =~= all);
            } else {
                assert(all.drop_last() =~= all.take(i as int));
            }
        }
    }
    (out, next)
}

} // verus!
