//! What a written line reads back as.

use vstd::prelude::*;
use vstd::utf8::*;

use crate::codec;
use crate::codec::OpView;
use crate::text;

verus! {

/// A code that may stand in a line as it is: neither empty nor with a quote or
/// a backslash in it.
pub open spec fn plain(c: Seq<char>) -> bool {
    c.len() > 0 && forall|k: int|
        0 <= k < encode_utf8(c).len() ==> (#[trigger] encode_utf8(c)[k]) != 34 && encode_utf8(c)[k]
            != 92
}

/// A 64-bit signed integer.
pub open spec fn word(n: int) -> bool {
    i64::MIN <= n <= i64::MAX
}

proof fn lemma_esc_byte(c: u8)
    ensures
        1 <= codec::esc_byte(c).len() <= 6,
        forall|k: int| 0 <= k < codec::esc_byte(c).len() ==> #[trigger] codec::esc_byte(c)[k] >= 32,
{
}

/// An escaped string holds no control byte, so no line break either.
pub proof fn law_escaped_on_one_line(u: Seq<u8>)
    ensures
        forall|k: int|
            0 <= k < codec::esc_bytes(u).len() ==> #[trigger] codec::esc_bytes(u)[k] >= 32,
    decreases u.len(),
{
    if u.len() > 0 {
        lemma_esc_byte(u[0]);
        law_escaped_on_one_line(u.skip(1));
        let e = codec::esc_byte(u[0]);
        let rest = codec::esc_bytes(u.skip(1));
        assert forall|k: int| 0 <= k < codec::esc_bytes(u).len() implies #[trigger] codec::esc_bytes(
            u,
        )[k] >= 32 by {
            if k < e.len() {
                assert(codec::esc_bytes(u)[k] == e[k]);
            } else {
                assert(codec::esc_bytes(u)[k] == rest[k - e.len()]);
            }
        }
    }
}

/// A string that was escaped comes back as it was.
pub proof fn law_unescape_undoes_esc(u: Seq<u8>)
    ensures
        codec::unescape_bytes(codec::esc_bytes(u)) == u,
    decreases u.len(),
{
    if u.len() > 0 {
        let c = u[0];
        let rest = codec::esc_bytes(u.skip(1));
        let s = codec::esc_byte(c) + rest;
        law_unescape_undoes_esc(u.skip(1));
        assert(seq![c] + u.skip(1) =~= u);
        if c == 34 || c == 92 || c == 10 || c == 13 || c == 9 || c == 8 || c == 12 {
            assert(s.skip(2) =~= rest);
        } else if c < 32 {
            let hi = codec::hex_digit(c as int / 16);
            let lo = codec::hex_digit(c as int % 16);
            assert(s.skip(2) =~= seq![48u8, 48u8, hi, lo] + rest);
            assert(s.skip(6) =~= rest);
            assert(codec::hex_value(hi) == Some(c as int / 16));
            assert(codec::hex_value(lo) == Some(c as int % 16));
            assert(codec::hex4(s.skip(2)) == Some(c as int));
            let n = c as u32;
            assert((n & 0x7F) as u8 == n) by (bit_vector)
                requires
                    n < 32,
            ;
            assert(encode_scalar(n) =~= seq![c]);
            assert(codec::unicode_escape(s.skip(2)) == Some(seq![c]));
        } else {
            assert(s.skip(1) =~= rest);
        }
    }
}

/// The quote behind an escaped string is where the string ends.
proof fn lemma_escaped_end(b: Seq<u8>, from: int, u: Seq<u8>)
    requires
        0 <= from,
        text::stands_at(b, codec::esc_bytes(u), from),
        from + codec::esc_bytes(u).len() < b.len(),
        b[from + codec::esc_bytes(u).len()] == 34,
    ensures
        codec::string_end(b, from) == from + codec::esc_bytes(u).len(),
    decreases u.len(),
{
    if u.len() > 0 {
        let c = u[0];
        let e = codec::esc_byte(c);
        let rest = codec::esc_bytes(u.skip(1));
        let whole = codec::esc_bytes(u);
        let at = from + e.len();
        assert(b.subrange(from, from + whole.len()) == whole);
        assert forall|k: int| 0 <= k < e.len() implies b[from + k] == #[trigger] e[k] by {
            assert(b.subrange(from, from + whole.len())[k] == whole[k]);
        }
        assert(b.subrange(at, at + rest.len()) =~= rest) by {
            assert forall|k: int| 0 <= k < rest.len() implies b[at + k] == #[trigger] rest[k] by {
                assert(b.subrange(from, from + whole.len())[e.len() + k] == whole[e.len() + k]);
            }
        }
        lemma_escaped_end(b, at, u.skip(1));
        assert(b[from] == e[0]);
        if e.len() == 6 {
            assert(b[from + 2] == e[2]);
            assert(b[from + 3] == e[3]);
            assert(b[from + 4] == e[4]);
            assert(b[from + 5] == e[5]);
            reveal_with_fuel(codec::string_end, 6);
        }
    }
}

/// The quote behind a plain code is where the code ends.
proof fn lemma_plain_end(b: Seq<u8>, from: int, end: int)
    requires
        0 <= from <= end < b.len(),
        b[end] == 34,
        forall|k: int| from <= k < end ==> b[k] != 34 && b[k] != 92,
    ensures
        codec::string_end(b, from) == end,
    decreases end - from,
{
    if from < end {
        lemma_plain_end(b, from + 1, end);
    }
}

proof fn lemma_unescape_plain(b: Seq<u8>)
    requires
        forall|k: int| 0 <= k < b.len() ==> b[k] != 92,
    ensures
        codec::unescape_bytes(b) == b,
    decreases b.len(),
{
    if b.len() > 0 {
        lemma_unescape_plain(b.skip(1));
        assert(seq![b[0]] + b.skip(1) =~= b);
    }
}

proof fn lemma_number_end_is(b: Seq<u8>, from: int, end: int)
    requires
        0 <= from <= end < b.len(),
        b[end] == 44 || b[end] == 125,
        forall|k: int| from <= k < end ==> b[k] != 44 && b[k] != 125,
    ensures
        codec::number_end(b, from) == end,
    decreases end - from,
{
    if from < end {
        lemma_number_end_is(b, from + 1, end);
    }
}

/// One string field: `"k":"` at `at`, its value up to `end`.
proof fn lemma_text_field(b: Seq<u8>, pos: int, at: int, key: u8, end: int, o: OpView)
    requires
        0 <= pos <= at,
        at + 5 <= end < b.len(),
        forall|k: int| pos <= k < at ==> b[k] != 34,
        key != 34,
        text::stands_at(b, seq![34u8, key, 34, 58, 34], at),
        codec::string_end(b, at + 5) == end,
    ensures
        codec::fields(b, pos, o) == codec::fields(
            b,
            end + 1,
            codec::with_text(
                o,
                seq![key],
                text::text_of(codec::unescape_bytes(b.subrange(at + 5, end))),
            ),
        ),
{
    let head = seq![34u8, key, 34, 58, 34];
    assert forall|k: int| 0 <= k < 5 implies b[at + k] == #[trigger] head[k] by {
        assert(b.subrange(at, at + 5)[k] == head[k]);
    }
    assert(b[at] == head[0] && b[at + 1] == head[1] && b[at + 2] == head[2] && b[at + 3] == head[3]
        && b[at + 4] == head[4]);
    reveal(codec::fields);
    text::lemma_index_is(b, pos, 34, at);
    text::lemma_index_is(b, at + 1, 34, at + 2);
    text::lemma_index_is(b, at + 3, 58, at + 3);
    assert(codec::skip_blank(b, at + 4) == at + 4);
    assert(b.subrange(at + 1, at + 2) =~= seq![key]);
}

/// One field that is no string: `"k":` at `at`, its value up to `end`.
proof fn lemma_number_field(b: Seq<u8>, pos: int, at: int, key: u8, end: int, o: OpView)
    requires
        0 <= pos <= at,
        at + 4 <= end < b.len(),
        forall|k: int| pos <= k < at ==> b[k] != 34,
        key != 34,
        text::stands_at(b, seq![34u8, key, 34, 58], at),
        b[at + 4] != 34,
        b[at + 4] != 32,
        b[at + 4] != 9,
        codec::number_end(b, at + 4) == end,
    ensures
        codec::fields(b, pos, o) == codec::fields(
            b,
            end,
            codec::with_number(o, seq![key], codec::number_text(b.subrange(at + 4, end))),
        ),
{
    let head = seq![34u8, key, 34, 58];
    assert forall|k: int| 0 <= k < 4 implies b[at + k] == #[trigger] head[k] by {
        assert(b.subrange(at, at + 4)[k] == head[k]);
    }
    assert(b[at] == head[0] && b[at + 1] == head[1] && b[at + 2] == head[2] && b[at + 3]
        == head[3]);
    reveal(codec::fields);
    text::lemma_index_is(b, pos, 34, at);
    text::lemma_index_is(b, at + 1, 34, at + 2);
    text::lemma_index_is(b, at + 3, 58, at + 3);
    assert(codec::skip_blank(b, at + 4) == at + 4);
    assert(b.subrange(at + 1, at + 2) =~= seq![key]);
}

/// A number in decimal reads back.
proof fn lemma_number_text(n: int)
    requires
        word(n),
    ensures
        codec::number_text(text::decimal(n)) == text::ascii_text(text::decimal(n)),
        codec::number_of(codec::number_text(text::decimal(n))) == n,
        codec::number_text(text::decimal(n)) != "null"@,
{
    let d = text::decimal(n);
    let t = text::ascii_text(d);
    text::lemma_decimal(n);
    text::lemma_ascii_text(d);
    text::law_decimal_reads_back(n);
    assert(t[0] as u8 == d[0] && t.last() as u8 == d.last());
    text::lemma_trim_none(t);
    reveal_strlit("null");
    assert("null"@[0] == 'n');
}

/// The fixed parts of the lines.
pub proof fn lemma_parts()
    ensures
        text::lit("{\"c\":\"") == seq![123u8, 34, 99, 34, 58, 34],
        text::lit("\",\"u\":\"") == seq![34u8, 44, 34, 117, 34, 58, 34],
        text::lit("\",\"a\":") == seq![34u8, 44, 34, 97, 34, 58],
        text::lit(",\"e\":") == seq![44u8, 34, 101, 34, 58],
        text::lit(",\"i\":") == seq![44u8, 34, 105, 34, 58],
        text::lit(",\"n\":") == seq![44u8, 34, 110, 34, 58],
        text::lit("}") == seq![125u8],
        text::lit("null") == seq![110u8, 117, 108, 108],
        text::lit("{\"h\":\"") == seq![123u8, 34, 104, 34, 58, 34],
        text::lit("\",\"d\":") == seq![34u8, 44, 34, 100, 34, 58],
        text::lit("{\"x\":\"") == seq![123u8, 34, 120, 34, 58, 34],
        text::lit("\"}") == seq![34u8, 125],
{
    reveal_strlit("{\"c\":\"");
    reveal_strlit("\",\"u\":\"");
    reveal_strlit("\",\"a\":");
    reveal_strlit(",\"e\":");
    reveal_strlit(",\"i\":");
    reveal_strlit(",\"n\":");
    reveal_strlit("}");
    reveal_strlit("null");
    reveal_strlit("{\"h\":\"");
    reveal_strlit("\",\"d\":");
    reveal_strlit("{\"x\":\"");
    reveal_strlit("\"}");
    let b = seq![123u8, 34, 99, 34, 58, 34];
    assert("{\"c\":\""@ =~= text::ascii_text(b));
    text::lemma_lit("{\"c\":\""@, b);
    let b = seq![34u8, 44, 34, 117, 34, 58, 34];
    assert("\",\"u\":\""@ =~= text::ascii_text(b));
    text::lemma_lit("\",\"u\":\""@, b);
    let b = seq![34u8, 44, 34, 97, 34, 58];
    assert("\",\"a\":"@ =~= text::ascii_text(b));
    text::lemma_lit("\",\"a\":"@, b);
    let b = seq![44u8, 34, 101, 34, 58];
    assert(",\"e\":"@ =~= text::ascii_text(b));
    text::lemma_lit(",\"e\":"@, b);
    let b = seq![44u8, 34, 105, 34, 58];
    assert(",\"i\":"@ =~= text::ascii_text(b));
    text::lemma_lit(",\"i\":"@, b);
    let b = seq![44u8, 34, 110, 34, 58];
    assert(",\"n\":"@ =~= text::ascii_text(b));
    text::lemma_lit(",\"n\":"@, b);
    let b = seq![125u8];
    assert("}"@ =~= text::ascii_text(b));
    text::lemma_lit("}"@, b);
    let b = seq![110u8, 117, 108, 108];
    assert("null"@ =~= text::ascii_text(b));
    text::lemma_lit("null"@, b);
    let b = seq![123u8, 34, 104, 34, 58, 34];
    assert("{\"h\":\""@ =~= text::ascii_text(b));
    text::lemma_lit("{\"h\":\""@, b);
    let b = seq![34u8, 44, 34, 100, 34, 58];
    assert("\",\"d\":"@ =~= text::ascii_text(b));
    text::lemma_lit("\",\"d\":"@, b);
    let b = seq![123u8, 34, 120, 34, 58, 34];
    assert("{\"x\":\""@ =~= text::ascii_text(b));
    text::lemma_lit("{\"x\":\""@, b);
    let b = seq![34u8, 125];
    assert("\"}"@ =~= text::ascii_text(b));
    text::lemma_lit("\"}"@, b);
}

/// A tombstone reads back.
pub proof fn law_tombstone_reads_back(c: Seq<char>)
    requires
        plain(c),
    ensures
        codec::op_of(codec::del_bytes(encode_utf8(c))) == (
            OpView { x: c, ..codec::no_op() },
            true,
        ),
{
    let cb = encode_utf8(c);
    let b = codec::del_bytes(cb);
    let end = 6 + cb.len() as int;
    lemma_parts();
    assert(b.subrange(1, 6) =~= seq![34u8, 120, 34, 58, 34]);
    assert(b.subrange(6, end) =~= cb);
    assert forall|k: int| 6 <= k < end implies b[k] != 34 && b[k] != 92 by {
        assert(b[k] == cb[k - 6]);
    }
    lemma_plain_end(b, 6, end);
    lemma_text_field(b, 0, 1, 120, end, codec::no_op());
    lemma_unescape_plain(cb);
    text::lemma_text_of(c);
    let o = OpView { x: c, ..codec::no_op() };
    text::lemma_index_none(b, end + 1, 34);
    reveal(codec::fields);
    assert(codec::fields(b, end + 1, o) == (o, true));
}

/// A field with a number, wherever it stands in a line: `"k":` at `at`, behind
/// it the number, behind that a comma or a brace.
proof fn lemma_decimal_field(b: Seq<u8>, pos: int, at: int, key: u8, n: int, o: OpView)
    requires
        word(n),
        0 <= pos <= at,
        forall|k: int| pos <= k < at ==> b[k] != 34,
        key != 34,
        text::stands_at(b, seq![34u8, key, 34, 58], at),
        text::stands_at(b, text::decimal(n), at + 4),
        at + 4 + text::decimal(n).len() < b.len(),
        b[at + 4 + text::decimal(n).len()] == 44 || b[at + 4 + text::decimal(n).len()] == 125,
    ensures
        codec::fields(b, pos, o) == codec::fields(
            b,
            at + 4 + text::decimal(n).len(),
            codec::with_number(o, seq![key], text::ascii_text(text::decimal(n))),
        ),
        codec::number_of(text::ascii_text(text::decimal(n))) == n,
        text::ascii_text(text::decimal(n)) != "null"@,
{
    let d = text::decimal(n);
    let end = at + 4 + d.len();
    text::lemma_decimal(n);
    lemma_number_text(n);
    assert forall|k: int| at + 4 <= k < end implies b[k] != 44 && b[k] != 125 by {
        assert(b.subrange(at + 4, end)[k - at - 4] == d[k - at - 4]);
    }
    assert(b.subrange(at + 4, end)[0] == d[0]);
    lemma_number_end_is(b, at + 4, end);
    lemma_number_field(b, pos, at, key, end, o);
}

/// A hit delta reads back.
pub proof fn law_hit_reads_back(c: Seq<char>, d: int, i: int)
    requires
        plain(c),
        word(d),
        word(i),
    ensures
        codec::op_of(codec::hit_bytes(encode_utf8(c), d, i)) == (
            OpView { h: c, d, i, ..codec::no_op() },
            true,
        ),
{
    let cb = encode_utf8(c);
    let b = codec::hit_bytes(cb, d, i);
    let db = text::decimal(d);
    let ib = text::decimal(i);
    let p1 = 6 + cb.len() as int;
    let p2 = p1 + 6;
    let p3 = p2 + db.len();
    let p4 = p3 + 5;
    let p5 = p4 + ib.len();
    lemma_parts();
    text::lemma_decimal(d);
    text::lemma_decimal(i);
    assert(b.subrange(1, 6) =~= seq![34u8, 104, 34, 58, 34]);
    assert(b.subrange(6, p1) =~= cb);
    assert(b.subrange(p1 + 2, p2) =~= seq![34u8, 100, 34, 58]);
    assert(b.subrange(p2, p3) =~= db);
    assert(b.subrange(p3 + 1, p4) =~= seq![34u8, 105, 34, 58]);
    assert(b.subrange(p4, p5) =~= ib);
    assert(b[p1] == 34 && b[p1 + 1] == 44 && b[p3] == 44 && b[p5] == 125 && b.len() == p5 + 1);
    assert forall|k: int| 6 <= k < p1 implies b[k] != 34 && b[k] != 92 by {
        assert(b[k] == cb[k - 6]);
    }
    let o1 = OpView { h: c, ..codec::no_op() };
    let o2 = OpView { d, ..o1 };
    let o3 = OpView { i, ..o2 };
    lemma_plain_end(b, 6, p1);
    lemma_text_field(b, 0, 1, 104, p1, codec::no_op());
    lemma_unescape_plain(cb);
    text::lemma_text_of(c);
    lemma_decimal_field(b, p1 + 1, p1 + 2, 100, d, o1);
    lemma_decimal_field(b, p3, p3 + 1, 105, i, o2);
    text::lemma_index_none(b, p5, 34);
    reveal(codec::fields);
    assert(codec::fields(b, p5, o3) == (o3, true));
}

/// What a row says.
pub open spec fn row_op(c: Seq<char>, u: Seq<char>, a: int, e: int, i: int, n: int) -> OpView {
    OpView { c, u, a, e, has_e: e != 0, i, n, ..codec::no_op() }
}

/// The parts of a row and the positions at which they end.
#[verifier::opaque]
spec fn row_parts(
    b: Seq<u8>,
    cb: Seq<u8>,
    ub: Seq<u8>,
    ab: Seq<u8>,
    eb: Seq<u8>,
    ib: Seq<u8>,
    nb: Seq<u8>,
    p: Seq<int>,
) -> bool {
    &&& p[0] == 6 + cb.len()
    &&& p[1] == p[0] + 7 + ub.len()
    &&& p[2] == p[1] + 6 + ab.len()
    &&& p[3] == p[2] + 5 + eb.len()
    &&& p[4] == p[3] + 5 + ib.len()
    &&& p[5] == p[4] + 5 + nb.len()
    &&& b.len() == p[5] + 1
    &&& b[0] == 123
    &&& text::stands_at(b, seq![34u8, 99, 34, 58, 34], 1)
    &&& text::stands_at(b, cb, 6)
    &&& b[p[0]] == 34
    &&& b[p[0] + 1] == 44
    &&& text::stands_at(b, seq![34u8, 117, 34, 58, 34], p[0] + 2)
    &&& text::stands_at(b, ub, p[0] + 7)
    &&& b[p[1]] == 34
    &&& b[p[1] + 1] == 44
    &&& text::stands_at(b, seq![34u8, 97, 34, 58], p[1] + 2)
    &&& text::stands_at(b, ab, p[1] + 6)
    &&& b[p[2]] == 44
    &&& text::stands_at(b, seq![34u8, 101, 34, 58], p[2] + 1)
    &&& text::stands_at(b, eb, p[2] + 5)
    &&& b[p[3]] == 44
    &&& text::stands_at(b, seq![34u8, 105, 34, 58], p[3] + 1)
    &&& text::stands_at(b, ib, p[3] + 5)
    &&& b[p[4]] == 44
    &&& text::stands_at(b, seq![34u8, 110, 34, 58], p[4] + 1)
    &&& text::stands_at(b, nb, p[4] + 5)
    &&& b[p[5]] == 125
}

/// Where the parts of a row stand.
#[verifier::spinoff_prover]
#[verifier::rlimit(80)]
proof fn lemma_row_parts(
    cb: Seq<u8>,
    ub: Seq<u8>,
    ab: Seq<u8>,
    eb: Seq<u8>,
    ib: Seq<u8>,
    nb: Seq<u8>,
    b: Seq<u8>,
    p: Seq<int>,
)
    requires
        b == seq![123u8, 34, 99, 34, 58, 34] + cb + seq![34u8, 44, 34, 117, 34, 58, 34] + ub + seq![
            34u8, 44, 34, 97, 34, 58] + ab + seq![44u8, 34, 101, 34, 58] + eb + seq![
            44u8, 34, 105, 34, 58] + ib + seq![44u8, 34, 110, 34, 58] + nb + seq![125u8],
        p.len() == 6,
        p[0] == 6 + cb.len(),
        p[1] == p[0] + 7 + ub.len(),
        p[2] == p[1] + 6 + ab.len(),
        p[3] == p[2] + 5 + eb.len(),
        p[4] == p[3] + 5 + ib.len(),
        p[5] == p[4] + 5 + nb.len(),
    ensures
        row_parts(b, cb, ub, ab, eb, ib, nb, p),
{
    reveal(row_parts);
    assert(b.subrange(1, 6) =~= seq![34u8, 99, 34, 58, 34]);
    assert(b.subrange(6, p[0]) =~= cb);
    assert(b.subrange(p[0] + 2, p[0] + 7) =~= seq![34u8, 117, 34, 58, 34]);
    assert(b.subrange(p[0] + 7, p[1]) =~= ub);
    assert(b.subrange(p[1] + 2, p[1] + 6) =~= seq![34u8, 97, 34, 58]);
    assert(b.subrange(p[1] + 6, p[2]) =~= ab);
    assert(b.subrange(p[2] + 1, p[2] + 5) =~= seq![34u8, 101, 34, 58]);
    assert(b.subrange(p[2] + 5, p[3]) =~= eb);
    assert(b.subrange(p[3] + 1, p[3] + 5) =~= seq![34u8, 105, 34, 58]);
    assert(b.subrange(p[3] + 5, p[4]) =~= ib);
    assert(b.subrange(p[4] + 1, p[4] + 5) =~= seq![34u8, 110, 34, 58]);
    assert(b.subrange(p[4] + 5, p[5]) =~= nb);
}

/// The expiry field of a row without one.
proof fn lemma_null_field(b: Seq<u8>, pos: int, at: int, o: OpView)
    requires
        0 <= pos <= at,
        forall|k: int| pos <= k < at ==> b[k] != 34,
        text::stands_at(b, seq![34u8, 101, 34, 58], at),
        text::stands_at(b, seq![110u8, 117, 108, 108], at + 4),
        at + 8 < b.len(),
        b[at + 8] == 44,
    ensures
        codec::fields(b, pos, o) == codec::fields(b, at + 8, o),
{
    let d = seq![110u8, 117, 108, 108];
    assert forall|k: int| at + 4 <= k < at + 8 implies b[k] != 44 && b[k] != 125 by {
        assert(b.subrange(at + 4, at + 8)[k - at - 4] == d[k - at - 4]);
    }
    assert(b.subrange(at + 4, at + 8)[0] == d[0]);
    lemma_number_end_is(b, at + 4, at + 8);
    lemma_number_field(b, pos, at, 101, at + 8, o);
    reveal_strlit("null");
    assert("null"@ =~= text::ascii_text(d));
    text::lemma_ascii_text(d);
    text::lemma_trim_none("null"@);
}

proof fn lemma_row_texts(
    b: Seq<u8>,
    c: Seq<char>,
    u: Seq<char>,
    ab: Seq<u8>,
    eb: Seq<u8>,
    ib: Seq<u8>,
    nb: Seq<u8>,
    p: Seq<int>,
)
    requires
        plain(c),
        row_parts(b, encode_utf8(c), codec::esc_bytes(encode_utf8(u)), ab, eb, ib, nb, p),
    ensures
        codec::fields(b, 0, codec::no_op()) == codec::fields(
            b,
            p[1] + 1,
            OpView { c, u, ..codec::no_op() },
        ),
{
    let cb = encode_utf8(c);
    let o0 = codec::no_op();
    let o1 = OpView { c, ..o0 };
    reveal(row_parts);
    assert forall|k: int| 6 <= k < p[0] implies b[k] != 34 && b[k] != 92 by {
        assert(b.subrange(6, p[0])[k - 6] == cb[k - 6]);
    }
    lemma_plain_end(b, 6, p[0]);
    lemma_text_field(b, 0, 1, 99, p[0], o0);
    lemma_unescape_plain(cb);
    text::lemma_text_of(c);
    lemma_escaped_end(b, p[0] + 7, encode_utf8(u));
    lemma_text_field(b, p[0] + 1, p[0] + 2, 117, p[1], o1);
    law_unescape_undoes_esc(encode_utf8(u));
    text::lemma_text_of(u);
}

#[verifier::spinoff_prover]
#[verifier::rlimit(60)]
proof fn lemma_row_numbers(
    b: Seq<u8>,
    cb: Seq<u8>,
    ub: Seq<u8>,
    a: int,
    e: int,
    i: int,
    n: int,
    p: Seq<int>,
    o: OpView,
)
    requires
        word(a),
        word(e),
        word(i),
        word(n),
        row_parts(
            b,
            cb,
            ub,
            text::decimal(a),
            codec::expiry_bytes(e),
            text::decimal(i),
            text::decimal(n),
            p,
        ),
        o.e == 0 && !o.has_e,
    ensures
        codec::fields(b, p[1] + 1, o) == (OpView { a, e, has_e: e != 0, i, n, ..o }, true),
{
    reveal(row_parts);
    let o3 = OpView { a, ..o };
    let o4 = OpView { e, has_e: e != 0, ..o3 };
    let o5 = OpView { i, ..o4 };
    let o6 = OpView { n, ..o5 };
    lemma_decimal_field(b, p[1] + 1, p[1] + 2, 97, a, o);
    if e == 0 {
        lemma_parts();
        lemma_null_field(b, p[2], p[2] + 1, o3);
    } else {
        lemma_decimal_field(b, p[2], p[2] + 1, 101, e, o3);
    }
    lemma_decimal_field(b, p[3], p[3] + 1, 105, i, o4);
    lemma_decimal_field(b, p[4], p[4] + 1, 110, n, o5);
    text::lemma_index_none(b, p[5], 34);
    assert(codec::fields(b, p[5], o6) == (o6, true)) by {
        reveal(codec::fields);
    }
}

/// A row reads back.
pub proof fn law_row_reads_back(c: Seq<char>, u: Seq<char>, a: int, e: int, i: int, n: int)
    requires
        plain(c),
        word(a),
        word(e),
        word(i),
        word(n),
    ensures
        codec::op_of(codec::row_bytes(encode_utf8(c), encode_utf8(u), a, e, i, n)) == (
            row_op(c, u, a, e, i, n),
            true,
        ),
{
    let b = codec::row_bytes(encode_utf8(c), encode_utf8(u), a, e, i, n);
    let p = lemma_row_is(c, u, a, e, i, n);
    lemma_row_read(b, c, u, a, e, i, n, p);
}

/// A row is made of its parts.
proof fn lemma_row_is(c: Seq<char>, u: Seq<char>, a: int, e: int, i: int, n: int) -> (p: Seq<int>)
    ensures
        row_parts(
            codec::row_bytes(encode_utf8(c), encode_utf8(u), a, e, i, n),
            encode_utf8(c),
            codec::esc_bytes(encode_utf8(u)),
            text::decimal(a),
            codec::expiry_bytes(e),
            text::decimal(i),
            text::decimal(n),
            p,
        ),
{
    let cb = encode_utf8(c);
    let ub = codec::esc_bytes(encode_utf8(u));
    let ab = text::decimal(a);
    let eb = codec::expiry_bytes(e);
    let ib = text::decimal(i);
    let nb = text::decimal(n);
    let b = codec::row_bytes(cb, encode_utf8(u), a, e, i, n);
    let p0 = 6 + cb.len() as int;
    let p1 = p0 + 7 + ub.len();
    let p2 = p1 + 6 + ab.len();
    let p3 = p2 + 5 + eb.len();
    let p4 = p3 + 5 + ib.len();
    let p5 = p4 + 5 + nb.len();
    let p = seq![p0, p1, p2, p3, p4, p5];
    lemma_parts();
    lemma_row_parts(cb, ub, ab, eb, ib, nb, b, p);
    p
}

proof fn lemma_row_read(
    b: Seq<u8>,
    c: Seq<char>,
    u: Seq<char>,
    a: int,
    e: int,
    i: int,
    n: int,
    p: Seq<int>,
)
    requires
        plain(c),
        word(a),
        word(e),
        word(i),
        word(n),
        row_parts(
            b,
            encode_utf8(c),
            codec::esc_bytes(encode_utf8(u)),
            text::decimal(a),
            codec::expiry_bytes(e),
            text::decimal(i),
            text::decimal(n),
            p,
        ),
    ensures
        codec::op_of(b) == (row_op(c, u, a, e, i, n), true),
{
    let o = OpView { c, u, ..codec::no_op() };
    lemma_row_texts(
        b,
        c,
        u,
        text::decimal(a),
        codec::expiry_bytes(e),
        text::decimal(i),
        text::decimal(n),
        p,
    );
    lemma_row_numbers(b, encode_utf8(c), codec::esc_bytes(encode_utf8(u)), a, e, i, n, p, o);
}

/// Bytes without a line break.
pub open spec fn unbroken(b: Seq<u8>) -> bool {
    forall|k: int| 0 <= k < b.len() ==> #[trigger] b[k] != 10
}

proof fn lemma_unbroken(a: Seq<u8>, b: Seq<u8>)
    requires
        unbroken(a),
        unbroken(b),
    ensures
        unbroken(a + b),
{
    assert forall|k: int| 0 <= k < (a + b).len() implies #[trigger] (a + b)[k] != 10 by {
        if k < a.len() {
            assert((a + b)[k] == a[k]);
        } else {
            assert((a + b)[k] == b[k - a.len()]);
        }
    }
}

proof fn lemma_decimal_unbroken(n: int)
    ensures
        unbroken(text::decimal(n)),
{
    text::lemma_decimal(n);
}

/// A row is one line, whatever the url holds.
pub proof fn law_row_is_one_line(c: Seq<u8>, u: Seq<u8>, a: int, e: int, i: int, n: int)
    requires
        unbroken(c),
    ensures
        unbroken(codec::row_bytes(c, u, a, e, i, n)),
        codec::row_bytes(c, u, a, e, i, n).len() > 0,
{
    lemma_parts();
    law_escaped_on_one_line(u);
    let ub = codec::esc_bytes(u);
    assert(unbroken(ub));
    lemma_decimal_unbroken(a);
    lemma_decimal_unbroken(e);
    lemma_decimal_unbroken(i);
    lemma_decimal_unbroken(n);
    let s1 = text::lit("{\"c\":\"");
    let s2 = s1 + c;
    let s3 = s2 + text::lit("\",\"u\":\"");
    let s4 = s3 + ub;
    let s5 = s4 + text::lit("\",\"a\":");
    let s6 = s5 + text::decimal(a);
    let s7 = s6 + text::lit(",\"e\":");
    let s8 = s7 + codec::expiry_bytes(e);
    let s9 = s8 + text::lit(",\"i\":");
    let s10 = s9 + text::decimal(i);
    let s11 = s10 + text::lit(",\"n\":");
    let s12 = s11 + text::decimal(n);
    lemma_unbroken(s1, c);
    lemma_unbroken(s2, text::lit("\",\"u\":\""));
    lemma_unbroken(s3, ub);
    lemma_unbroken(s4, text::lit("\",\"a\":"));
    lemma_unbroken(s5, text::decimal(a));
    lemma_unbroken(s6, text::lit(",\"e\":"));
    lemma_unbroken(s7, codec::expiry_bytes(e));
    lemma_unbroken(s8, text::lit(",\"i\":"));
    lemma_unbroken(s9, text::decimal(i));
    lemma_unbroken(s10, text::lit(",\"n\":"));
    lemma_unbroken(s11, text::decimal(n));
    lemma_unbroken(s12, text::lit("}"));
}

/// A hit delta is one line.
pub proof fn law_hit_is_one_line(c: Seq<u8>, d: int, i: int)
    requires
        unbroken(c),
    ensures
        unbroken(codec::hit_bytes(c, d, i)),
        codec::hit_bytes(c, d, i).len() > 0,
{
    lemma_parts();
    lemma_decimal_unbroken(d);
    lemma_decimal_unbroken(i);
    let s1 = text::lit("{\"h\":\"");
    let s2 = s1 + c;
    let s3 = s2 + text::lit("\",\"d\":");
    let s4 = s3 + text::decimal(d);
    let s5 = s4 + text::lit(",\"i\":");
    let s6 = s5 + text::decimal(i);
    lemma_unbroken(s1, c);
    lemma_unbroken(s2, text::lit("\",\"d\":"));
    lemma_unbroken(s3, text::decimal(d));
    lemma_unbroken(s4, text::lit(",\"i\":"));
    lemma_unbroken(s5, text::decimal(i));
    lemma_unbroken(s6, text::lit("}"));
}

/// A tombstone is one line.
pub proof fn law_tombstone_is_one_line(c: Seq<u8>)
    requires
        unbroken(c),
    ensures
        unbroken(codec::del_bytes(c)),
        codec::del_bytes(c).len() > 0,
{
    lemma_parts();
    lemma_unbroken(text::lit("{\"x\":\""), c);
    lemma_unbroken(text::lit("{\"x\":\"") + c, text::lit("\"}"));
}

/// A hexadecimal digit.
pub open spec fn hex_char(d: int) -> u8 {
    if d < 10 {
        (48 + d) as u8
    } else {
        (87 + d) as u8
    }
}

/// An escape stands for the byte that JSON gives it, and what comes behind it is left alone.
pub proof fn law_escapes_stand_for_what_json_says(rest: Seq<u8>)
    ensures
        codec::unescape_bytes(seq!['\\' as u8, 'n' as u8] + rest) == seq![10u8]
            + codec::unescape_bytes(rest),
        codec::unescape_bytes(seq!['\\' as u8, 'r' as u8] + rest) == seq![13u8]
            + codec::unescape_bytes(rest),
        codec::unescape_bytes(seq!['\\' as u8, 't' as u8] + rest) == seq![9u8]
            + codec::unescape_bytes(rest),
        codec::unescape_bytes(seq!['\\' as u8, 'b' as u8] + rest) == seq![8u8]
            + codec::unescape_bytes(rest),
        codec::unescape_bytes(seq!['\\' as u8, 'f' as u8] + rest) == seq![12u8]
            + codec::unescape_bytes(rest),
        codec::unescape_bytes(seq!['\\' as u8, '"' as u8] + rest) == seq!['"' as u8]
            + codec::unescape_bytes(rest),
        codec::unescape_bytes(seq!['\\' as u8, '\\' as u8] + rest) == seq!['\\' as u8]
            + codec::unescape_bytes(rest),
        codec::unescape_bytes(seq!['\\' as u8, '/' as u8] + rest) == seq!['/' as u8]
            + codec::unescape_bytes(rest),
{
    lemma_plain_escape('n' as u8, rest);
    lemma_plain_escape('r' as u8, rest);
    lemma_plain_escape('t' as u8, rest);
    lemma_plain_escape('b' as u8, rest);
    lemma_plain_escape('f' as u8, rest);
    lemma_plain_escape('"' as u8, rest);
    lemma_plain_escape('\\' as u8, rest);
    lemma_plain_escape('/' as u8, rest);
}

/// Four hexadecimal digits behind a backslash and a `u` stand for the character that they
/// name.
pub proof fn law_digits_stand_for_the_character(
    p: int,
    q: int,
    r: int,
    t: int,
    c: char,
    rest: Seq<u8>,
)
    requires
        0 <= p < 16,
        0 <= q < 16,
        0 <= r < 16,
        0 <= t < 16,
        c as u32 == 4096 * p + 256 * q + 16 * r + t,
    ensures
        codec::unescape_bytes(
            seq!['\\' as u8, 'u' as u8, hex_char(p), hex_char(q), hex_char(r), hex_char(t)] + rest,
        ) == encode_utf8(seq![c]) + codec::unescape_bytes(rest),
{
    let b = seq![92u8, 117u8, hex_char(p), hex_char(q), hex_char(r), hex_char(t)] + rest;
    char_is_scalar(c);
    assert(b.skip(6) =~= rest);
    let h = b.skip(2);
    assert(h[0] == b[2] && h[1] == b[3] && h[2] == b[4] && h[3] == b[5]);
    lemma_hex_char(p);
    lemma_hex_char(q);
    lemma_hex_char(r);
    lemma_hex_char(t);
    assert(codec::hex4(h) == Some(c as u32 as int));
    let one = seq![c];
    assert(one.drop_first() =~= Seq::<char>::empty());
    assert(encode_utf8(Seq::<char>::empty()) =~= Seq::<u8>::empty());
    assert(encode_utf8(one) =~= encode_scalar(c as u32));
}

proof fn lemma_plain_escape(e: u8, rest: Seq<u8>)
    requires
        e != 117,
    ensures
        codec::unescape_bytes(seq![92u8, e] + rest) == seq![codec::plain_escape(e)]
            + codec::unescape_bytes(rest),
{
    let b = seq![92u8, e] + rest;
    assert(b.skip(2) =~= rest);
}

proof fn lemma_hex_char(d: int)
    requires
        0 <= d < 16,
    ensures
        codec::hex_value(hex_char(d)) == Some(d),
        hex_char(d) != 43,
{
}

} // verus!
