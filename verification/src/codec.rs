//! The lines of the log, one JSON object each:
//!
//! - a row, `{"c":"<code>","u":"<escaped url>","a":<ms>,"e":<ms|null>,"i":<instance>,"n":<hits>}`
//! - a hit delta, `{"h":"<code>","d":<n>,"i":<instance>}`
//! - a tombstone, `{"x":"<code>"}`

use vstd::prelude::*;
use vstd::utf8::*;

use crate::text;

verus! {

// ---------- writing ----------

/// The digit that stands for `n` in base 16.
pub open spec fn hex_digit(n: int) -> u8 {
    if n < 10 {
        (48 + n) as u8
    } else {
        (87 + n) as u8
    }
}

/// One byte of a string as it stands in a line.
pub open spec fn esc_byte(c: u8) -> Seq<u8> {
    if c == 34 || c == 92 {
        seq![92u8, c]
    } else if c == 10 {
        seq![92u8, 110]
    } else if c == 13 {
        seq![92u8, 114]
    } else if c == 9 {
        seq![92u8, 116]
    } else if c == 8 {
        seq![92u8, 98]
    } else if c == 12 {
        seq![92u8, 102]
    } else if c < 32 {
        seq![92u8, 117, 48, 48, hex_digit(c as int / 16), hex_digit(c as int % 16)]
    } else {
        seq![c]
    }
}

/// A string as it stands in a line, between its quotes.
pub open spec fn esc_bytes(u: Seq<u8>) -> Seq<u8>
    decreases u.len(),
{
    if u.len() == 0 {
        Seq::empty()
    } else {
        esc_byte(u[0]) + esc_bytes(u.skip(1))
    }
}

/// Writes one byte of a string.
fn esc_one(dst: &mut Vec<u8>, c: u8)
    ensures
        final(dst)@ == old(dst)@ + esc_byte(c),
{
    if c == 34 || c == 92 {
        dst.push(92);
        dst.push(c);
    } else if c == 10 {
        dst.push(92);
        dst.push(110);
    } else if c == 13 {
        dst.push(92);
        dst.push(114);
    } else if c == 9 {
        dst.push(92);
        dst.push(116);
    } else if c == 8 {
        dst.push(92);
        dst.push(98);
    } else if c == 12 {
        dst.push(92);
        dst.push(102);
    } else if c < 32 {
        dst.push(92);
        dst.push(117);
        dst.push(48);
        dst.push(48);
        dst.push(48 + c / 16);
        let low: u8 = c % 16;
        dst.push(if low < 10 {
            48 + low
        } else {
            87 + low
        });
    } else {
        dst.push(c);
    }
    assert(dst@ =~= old(dst)@ + esc_byte(c));
}

/// Appends `u` escaped as a JSON string, without the quotes.
pub fn esc(dst: &mut Vec<u8>, u: &str)
    ensures
        final(dst)@ == old(dst)@ + esc_bytes(encode_utf8(u@)),
{
    let b: &[u8] = u.as_bytes();
    let mut i: usize = 0;
    assert(b@.skip(0) =~= b@);
    while i < b.len()
        invariant
            i <= b@.len(),
            dst@ + esc_bytes(b@.skip(i as int)) == old(dst)@ + esc_bytes(b@),
        decreases b@.len() - i,
    {
        let ghost before = dst@;
        let ghost rest = b@.skip(i as int);
        esc_one(dst, b[i]);
        i += 1;
        assert(rest.skip(1) =~= b@.skip(i as int));
        assert(before + esc_bytes(rest) =~= dst@ + esc_bytes(b@.skip(i as int)));
    }
    assert(dst@ =~= dst@ + esc_bytes(b@.skip(i as int)));
}

/// The expiry as it stands in a row: `null` for none.
pub open spec fn expiry_bytes(e: int) -> Seq<u8> {
    if e == 0 {
        text::lit("null")
    } else {
        text::decimal(e)
    }
}

/// A row.
pub open spec fn row_bytes(c: Seq<u8>, u: Seq<u8>, a: int, e: int, i: int, n: int) -> Seq<u8> {
    text::lit("{\"c\":\"") + c + text::lit("\",\"u\":\"") + esc_bytes(u) + text::lit("\",\"a\":") + text::decimal(a) + text::lit(
        ",\"e\":",
    ) + expiry_bytes(e) + text::lit(",\"i\":") + text::decimal(i) + text::lit(",\"n\":") + text::decimal(n) + text::lit("}")
}

/// A hit delta.
pub open spec fn hit_bytes(c: Seq<u8>, d: int, i: int) -> Seq<u8> {
    text::lit("{\"h\":\"") + c + text::lit("\",\"d\":") + text::decimal(d) + text::lit(",\"i\":") + text::decimal(i) + text::lit("}")
}

/// A tombstone.
pub open spec fn del_bytes(c: Seq<u8>) -> Seq<u8> {
    text::lit("{\"x\":\"") + c + text::lit("\"}")
}

/// Appends the decimal digits of `n`.
pub fn itoa(b: &mut Vec<u8>, n: i64)
    ensures
        final(b)@ == old(b)@ + text::decimal(n as int),
{
    text::put_i64(b, n)
}

/// Appends a row.
pub fn row_line_into(b: &mut Vec<u8>, c: &str, u: &str, a: i64, e: i64, i: i64, n: i64)
    ensures
        final(b)@ == old(b)@ + row_bytes(
            encode_utf8(c@),
            encode_utf8(u@),
            a as int,
            e as int,
            i as int,
            n as int,
        ),
{
    text::put(b, "{\"c\":\"");
    text::put(b, c);
    text::put(b, "\",\"u\":\"");
    esc(b, u);
    text::put(b, "\",\"a\":");
    itoa(b, a);
    text::put(b, ",\"e\":");
    if e == 0 {
        text::put(b, "null");
    } else {
        itoa(b, e);
    }
    text::put(b, ",\"i\":");
    itoa(b, i);
    text::put(b, ",\"n\":");
    itoa(b, n);
    text::put(b, "}");
    proof {
        let o = old(b)@;
        let s1 = text::lit("{\"c\":\"");
        let s2 = s1 + encode_utf8(c@);
        let s3 = s2 + text::lit("\",\"u\":\"");
        let s4 = s3 + esc_bytes(encode_utf8(u@));
        let s5 = s4 + text::lit("\",\"a\":");
        let s6 = s5 + text::decimal(a as int);
        let s7 = s6 + text::lit(",\"e\":");
        let s8 = s7 + expiry_bytes(e as int);
        let s9 = s8 + text::lit(",\"i\":");
        let s10 = s9 + text::decimal(i as int);
        let s11 = s10 + text::lit(",\"n\":");
        let s12 = s11 + text::decimal(n as int);
        text::lemma_assoc(o, s1, encode_utf8(c@));
        text::lemma_assoc(o, s2, text::lit("\",\"u\":\""));
        text::lemma_assoc(o, s3, esc_bytes(encode_utf8(u@)));
        text::lemma_assoc(o, s4, text::lit("\",\"a\":"));
        text::lemma_assoc(o, s5, text::decimal(a as int));
        text::lemma_assoc(o, s6, text::lit(",\"e\":"));
        text::lemma_assoc(o, s7, expiry_bytes(e as int));
        text::lemma_assoc(o, s8, text::lit(",\"i\":"));
        text::lemma_assoc(o, s9, text::decimal(i as int));
        text::lemma_assoc(o, s10, text::lit(",\"n\":"));
        text::lemma_assoc(o, s11, text::decimal(n as int));
        text::lemma_assoc(o, s12, text::lit("}"));
    }
}

/// A row.
pub fn row_line(c: &str, u: &str, a: i64, e: i64, i: i64, n: i64) -> (r: Vec<u8>)
    ensures
        r@ == row_bytes(
            encode_utf8(c@),
            encode_utf8(u@),
            a as int,
            e as int,
            i as int,
            n as int,
        ),
{
    let mut b: Vec<u8> = Vec::new();
    row_line_into(&mut b, c, u, a, e, i, n);
    assert(b@ =~= row_bytes(
        encode_utf8(c@),
        encode_utf8(u@),
        a as int,
        e as int,
        i as int,
        n as int,
    ));
    b
}

/// Appends a hit delta.
pub fn hit_line_into(b: &mut Vec<u8>, c: &str, d: i64, i: i64)
    ensures
        final(b)@ == old(b)@ + hit_bytes(encode_utf8(c@), d as int, i as int),
{
    text::put(b, "{\"h\":\"");
    text::put(b, c);
    text::put(b, "\",\"d\":");
    itoa(b, d);
    text::put(b, ",\"i\":");
    itoa(b, i);
    text::put(b, "}");
    assert(b@ =~= old(b)@ + hit_bytes(encode_utf8(c@), d as int, i as int));
}

/// A hit delta.
pub fn hit_line(c: &str, d: i64, i: i64) -> (r: Vec<u8>)
    ensures
        r@ == hit_bytes(encode_utf8(c@), d as int, i as int),
{
    let mut b: Vec<u8> = Vec::new();
    hit_line_into(&mut b, c, d, i);
    assert(b@ =~= hit_bytes(encode_utf8(c@), d as int, i as int));
    b
}

/// A tombstone.
pub fn del_line(c: &str) -> (r: Vec<u8>)
    ensures
        r@ == del_bytes(encode_utf8(c@)),
{
    let mut b: Vec<u8> = Vec::new();
    text::put(&mut b, "{\"x\":\"");
    text::put(&mut b, c);
    text::put(&mut b, "\"}");
    assert(b@ =~= del_bytes(encode_utf8(c@)));
    b
}

// ---------- reading ----------

/// The value of a byte as a digit in base 16.
pub open spec fn hex_value(c: u8) -> Option<int> {
    if 48 <= c <= 57 {
        Some(c - 48)
    } else if 97 <= c <= 102 {
        Some(c - 87)
    } else if 65 <= c <= 70 {
        Some(c - 55)
    } else {
        None
    }
}

/// The number that four bytes stand for in base 16: four digits, or a plus sign
/// and three.
pub open spec fn hex4(b: Seq<u8>) -> Option<int> {
    let first = if b[0] == 43 {
        Some(0int)
    } else {
        hex_value(b[0])
    };
    match (first, hex_value(b[1]), hex_value(b[2]), hex_value(b[3])) {
        (Some(p), Some(q), Some(r), Some(s)) => Some(p * 4096 + q * 256 + r * 16 + s),
        _ => None,
    }
}

/// What stands behind a backslash and a `u` at the front of `b`: the bytes of
/// the character that four hexadecimal digits name, unless they name none.
pub open spec fn unicode_escape(b: Seq<u8>) -> Option<Seq<u8>> {
    if b.len() < 4 {
        None
    } else {
        match hex4(b) {
            Some(n) => if 0xd800 <= n <= 0xdfff {
                None
            } else {
                Some(encode_scalar(n as u32))
            },
            None => None,
        }
    }
}

/// The byte that a backslash and `c` stand for.
pub open spec fn plain_escape(c: u8) -> u8 {
    if c == 110 {
        10
    } else if c == 114 {
        13
    } else if c == 116 {
        9
    } else if c == 98 {
        8
    } else if c == 102 {
        12
    } else {
        c
    }
}

/// A string without its escapes. A backslash at the very end stands for itself.
pub open spec fn unescape_bytes(b: Seq<u8>) -> Seq<u8>
    decreases b.len(),
{
    if b.len() == 0 {
        Seq::empty()
    } else if b[0] != 92 || b.len() == 1 {
        seq![b[0]] + unescape_bytes(b.skip(1))
    } else if b[1] == 117 {
        match unicode_escape(b.skip(2)) {
            Some(s) => s + unescape_bytes(b.skip(6)),
            None => seq![117u8] + unescape_bytes(b.skip(2)),
        }
    } else {
        seq![plain_escape(b[1])] + unescape_bytes(b.skip(2))
    }
}

fn hex_of(c: u8) -> (r: Option<u32>)
    ensures
        r is Some <==> hex_value(c) is Some,
        r matches Some(n) ==> Some(n as int) == hex_value(c) && n < 16,
{
    if 48 <= c && c <= 57 {
        Some((c - 48) as u32)
    } else if 97 <= c && c <= 102 {
        Some((c - 87) as u32)
    } else if 65 <= c && c <= 70 {
        Some((c - 55) as u32)
    } else {
        None
    }
}

fn hex4_of(b: &[u8], at: usize) -> (r: Option<u32>)
    requires
        at + 4 <= b@.len(),
    ensures
        r is Some <==> hex4(b@.skip(at as int)) is Some,
        r matches Some(n) ==> Some(n as int) == hex4(b@.skip(at as int)) && n < 65536,
{
    let n: usize = b.len();
    let first: Option<u32> = if b[at] == 43 {
        Some(0)
    } else {
        hex_of(b[at])
    };
    match (first, hex_of(b[at + 1]), hex_of(b[at + 2]), hex_of(b[at + 3])) {
        (Some(p), Some(q), Some(r), Some(s)) => Some(p * 4096 + q * 256 + r * 16 + s),
        _ => None,
    }
}

/// The string that an escaped run of bytes stands for.
pub fn unescape(b: &[u8]) -> (r: String)
    ensures
        r@ == text::text_of(unescape_bytes(b@)),
{
    let mut out: Vec<u8> = Vec::new();
    let mut i: usize = 0;
    let len: usize = b.len();
    assert(b@.skip(0) =~= b@);
    assert(out@ + unescape_bytes(b@) =~= unescape_bytes(b@));
    while i < len
        invariant
            len == b@.len(),
            i <= len,
            out@ + unescape_bytes(b@.skip(i as int)) == unescape_bytes(b@),
        decreases len - i,
    {
        let ghost rest = b@.skip(i as int);
        let ghost before = out@;
        assert(rest.skip(1) =~= b@.skip(i + 1));
        if b[i] != 92 || i + 1 >= len {
            out.push(b[i]);
            assert(before + unescape_bytes(rest) =~= out@ + unescape_bytes(b@.skip(i + 1)));
            i += 1;
        } else {
            assert(rest.skip(2) =~= b@.skip(i + 2));
            let c: u8 = b[i + 1];
            let mut wide: Option<u32> = None;
            if c == 117 && len - i >= 6 {
                wide = hex4_of(b, i + 2);
            }
            match wide {
                Some(n) if n < 0xd800 || n > 0xdfff => {
                    text::put_scalar(&mut out, n);
                    assert(rest.skip(6) =~= b@.skip(i + 6));
                    assert(before + unescape_bytes(rest) =~= out@ + unescape_bytes(b@.skip(i + 6)));
                    i += 6;
                },
                _ => {
                    out.push(if c == 110 {
                        10
                    } else if c == 114 {
                        13
                    } else if c == 116 {
                        9
                    } else if c == 98 {
                        8
                    } else if c == 102 {
                        12
                    } else {
                        c
                    });
                    assert(before + unescape_bytes(rest) =~= out@ + unescape_bytes(b@.skip(i + 2)));
                    i += 2;
                },
            }
        }
    }
    assert(b@.skip(i as int).len() == 0);
    assert(out@ =~= unescape_bytes(b@));
    text::to_text(out.as_slice())
}

/// One line of the log, taken apart: a row fills `c`, `u`, `a`, `e`, `i` and
/// `n`, a hit delta `h`, `d` and `i`, a tombstone `x`.
pub struct Op {
    pub c: String,
    pub u: String,
    pub h: String,
    pub x: String,
    pub a: i64,
    pub e: i64,
    pub i: i64,
    pub n: i64,
    pub d: i64,
    pub has_e: bool,
}

/// What a line says.
#[verifier::ext_equal]
pub ghost struct OpView {
    pub c: Seq<char>,
    pub u: Seq<char>,
    pub h: Seq<char>,
    pub x: Seq<char>,
    pub a: int,
    pub e: int,
    pub i: int,
    pub n: int,
    pub d: int,
    pub has_e: bool,
}

impl View for Op {
    type V = OpView;

    open spec fn view(&self) -> OpView {
        OpView {
            c: self.c@,
            u: self.u@,
            h: self.h@,
            x: self.x@,
            a: self.a as int,
            e: self.e as int,
            i: self.i as int,
            n: self.n as int,
            d: self.d as int,
            has_e: self.has_e,
        }
    }
}

/// A line that says nothing.
pub open spec fn no_op() -> OpView {
    OpView {
        c: Seq::empty(),
        u: Seq::empty(),
        h: Seq::empty(),
        x: Seq::empty(),
        a: 0,
        e: 0,
        i: 0,
        n: 0,
        d: 0,
        has_e: false,
    }
}

impl Default for Op {
    fn default() -> (r: Self)
        ensures
            r@ == no_op(),
    {
        Op {
            c: String::new(),
            u: String::new(),
            h: String::new(),
            x: String::new(),
            a: 0,
            e: 0,
            i: 0,
            n: 0,
            d: 0,
            has_e: false,
        }
    }
}

/// The first position from `from` on that is neither a space nor a tab.
pub open spec fn skip_blank(b: Seq<u8>, from: int) -> int
    decreases b.len() - from,
{
    if from < b.len() && (b[from] == 32 || b[from] == 9) {
        skip_blank(b, from + 1)
    } else {
        from
    }
}

/// The position of the quote that ends a string: the first one from `from` on
/// that no backslash stands before; the length if there is none.
pub open spec fn string_end(b: Seq<u8>, from: int) -> int
    decreases b.len() - from,
{
    if from >= b.len() {
        b.len() as int
    } else if b[from] == 92 {
        if from + 1 == b.len() {
            b.len() as int
        } else {
            string_end(b, from + 2)
        }
    } else if b[from] == 34 {
        from
    } else {
        string_end(b, from + 1)
    }
}

/// The position of the comma or brace that ends a number; the length if there
/// is none.
pub open spec fn number_end(b: Seq<u8>, from: int) -> int
    decreases b.len() - from,
{
    if from < b.len() && b[from] != 44 && b[from] != 125 {
        number_end(b, from + 1)
    } else {
        from
    }
}

/// The text of a number, without the white space around it.
pub open spec fn number_text(b: Seq<u8>) -> Seq<char> {
    text::trim(
        if valid_utf8(b) {
            decode_utf8(b)
        } else {
            Seq::empty()
        },
    )
}

/// The number that a text stands for; 0 where it stands for none.
pub open spec fn number_of(t: Seq<char>) -> int {
    match text::int_within(t, i64::MIN as int, i64::MAX as int) {
        Some(n) => n,
        None => 0,
    }
}

/// A line with one more string field: the first letter of the key tells which.
pub open spec fn with_text(o: OpView, key: Seq<u8>, v: Seq<char>) -> OpView {
    if key.len() == 0 {
        o
    } else if key[0] == 99 {
        OpView { c: v, ..o }
    } else if key[0] == 117 {
        OpView { u: v, ..o }
    } else if key[0] == 104 {
        OpView { h: v, ..o }
    } else if key[0] == 120 {
        OpView { x: v, ..o }
    } else {
        o
    }
}

/// A line with one more field that is no string.
pub open spec fn with_number(o: OpView, key: Seq<u8>, t: Seq<char>) -> OpView {
    if key.len() == 0 {
        o
    } else if key[0] == 97 {
        OpView { a: number_of(t), ..o }
    } else if key[0] == 101 {
        if t == "null"@ {
            o
        } else {
            OpView { e: number_of(t), has_e: true, ..o }
        }
    } else if key[0] == 105 {
        OpView { i: number_of(t), ..o }
    } else if key[0] == 110 {
        OpView { n: number_of(t), ..o }
    } else if key[0] == 100 {
        OpView { d: number_of(t), ..o }
    } else {
        o
    }
}

/// Blanks are skipped forward, at most to the end.
pub proof fn lemma_skip_blank(b: Seq<u8>, from: int)
    requires
        0 <= from <= b.len(),
    ensures
        from <= skip_blank(b, from) <= b.len(),
    decreases b.len() - from,
{
    if from < b.len() && (b[from] == 32 || b[from] == 9) {
        lemma_skip_blank(b, from + 1);
    }
}

/// A string ends behind its start, at most at the end.
pub proof fn lemma_string_end(b: Seq<u8>, from: int)
    requires
        0 <= from <= b.len(),
    ensures
        from <= string_end(b, from) <= b.len(),
    decreases b.len() - from,
{
    if from < b.len() && b[from] != 34 {
        if b[from] == 92 {
            if from + 1 < b.len() {
                lemma_string_end(b, from + 2);
            }
        } else {
            lemma_string_end(b, from + 1);
        }
    }
}

/// A number ends behind its start, at most at the end.
pub proof fn lemma_number_end(b: Seq<u8>, from: int)
    requires
        0 <= from <= b.len(),
    ensures
        from <= number_end(b, from) <= b.len(),
    decreases b.len() - from,
{
    if from < b.len() && b[from] != 44 && b[from] != 125 {
        lemma_number_end(b, from + 1);
    }
}

/// What the fields from `pos` on make of a line, and whether they are whole: a
/// line that breaks off inside a field is not.
#[verifier::opaque]
pub open spec fn fields(b: Seq<u8>, pos: int, o: OpView) -> (OpView, bool)
    decreases b.len() - pos,
    when 0 <= pos
{
    let open = text::index_from(b, pos, 34);
    let close = text::index_from(b, open + 1, 34);
    let colon = text::index_from(b, close + 1, 58);
    let v = skip_blank(b, colon + 1);
    let key = b.subrange(open + 1, close);
    proof {
        if pos < b.len() {
            text::lemma_index_from(b, pos, 34);
            if open < b.len() {
                text::lemma_index_from(b, open + 1, 34);
                if close < b.len() {
                    text::lemma_index_from(b, close + 1, 58);
                    if colon < b.len() {
                        lemma_skip_blank(b, colon + 1);
                        if v < b.len() {
                            lemma_string_end(b, v + 1);
                            lemma_number_end(b, v);
                        }
                    }
                }
            }
        }
    }
    if pos >= b.len() || open >= b.len() {
        (o, true)
    } else if close >= b.len() || colon >= b.len() || v >= b.len() {
        (o, false)
    } else if b[v] == 34 {
        let end = string_end(b, v + 1);
        let s = text::text_of(unescape_bytes(b.subrange(v + 1, end)));
        let next = if end < b.len() {
            end + 1
        } else {
            end
        };
        fields(b, next, with_text(o, key, s))
    } else {
        let end = number_end(b, v);
        fields(b, end, with_number(o, key, number_text(b.subrange(v, end))))
    }
}

/// What a line says, and whether it is a line that counts: a whole one that
/// names a code.
pub open spec fn op_of(b: Seq<u8>) -> (OpView, bool) {
    let (o, whole) = fields(b, 0, no_op());
    (o, whole && (o.c.len() > 0 || o.h.len() > 0 || o.x.len() > 0))
}

fn find_string_end(b: &[u8], from: usize) -> (r: usize)
    requires
        from <= b@.len(),
    ensures
        from <= r <= b@.len(),
        r == string_end(b@, from as int),
{
    let len: usize = b.len();
    let mut pos: usize = from;
    while pos < len && b[pos] != 34
        invariant
            len == b@.len(),
            from <= pos <= len,
            string_end(b@, pos as int) == string_end(b@, from as int),
        decreases len - pos,
    {
        if b[pos] == 92 {
            if len - pos < 2 {
                pos = len;
            } else {
                pos += 2;
            }
        } else {
            pos += 1;
        }
    }
    pos
}

fn read_number(b: &[u8]) -> (r: Vec<char>)
    ensures
        r@ == number_text(b@),
{
    match text::utf8_string(b) {
        Some(s) => text::trimmed(&text::chars_of(s.as_str())),
        None => {
            let none: Vec<char> = Vec::new();
            assert(none@ =~= Seq::<char>::empty());
            text::trimmed(&none)
        },
    }
}

fn number(t: &Vec<char>) -> (r: i64)
    ensures
        r == number_of(t@),
{
    match text::parse_i64(t) {
        Some(n) => n,
        None => 0,
    }
}

fn chars_eq(a: &Vec<char>, b: &str) -> (r: bool)
    ensures
        r == (a@ == b@),
{
    let c: Vec<char> = text::chars_of(b);
    if a.len() != c.len() {
        return false;
    }
    let mut i: usize = 0;
    while i < a.len()
        invariant
            i <= a@.len(),
            a@.len() == c@.len(),
            c@ == b@,
            forall|k: int| 0 <= k < i ==> a@[k] == c@[k],
        decreases a@.len() - i,
    {
        if a[i] != c[i] {
            return false;
        }
        i += 1;
    }
    assert(a@ =~= c@);
    true
}

/// Takes one line apart. Fields may stand in any order.
pub fn parse_op(b: &[u8], o: &mut Op) -> (r: bool)
    ensures
        final(o)@ == op_of(b@).0,
        r == op_of(b@).1,
{
    *o = Op::default();
    let len: usize = b.len();
    let mut pos: usize = 0;
    proof {
        reveal(fields);
    }
    while pos < len
        invariant
            len == b@.len(),
            pos <= len,
            fields(b@, pos as int, o@) == fields(b@, 0, no_op()),
            pos >= len ==> fields(b@, pos as int, o@) == (o@, true),
        ensures
            fields(b@, 0, no_op()) == (o@, true),
        decreases len - pos,
    {
        proof {
            reveal(fields);
        }
        let open: usize = text::find_byte(b, pos, 34);
        if open >= len {
            break ;
        }
        let close: usize = text::find_byte(b, open + 1, 34);
        if close >= len {
            return false;
        }
        let colon: usize = text::find_byte(b, close + 1, 58);
        if colon >= len {
            return false;
        }
        let mut v: usize = colon + 1;
        while v < len && (b[v] == 32 || b[v] == 9)
            invariant
                len == b@.len(),
                colon < v <= len,
                skip_blank(b@, v as int) == skip_blank(b@, colon + 1),
            decreases len - v,
        {
            v += 1;
        }
        if v >= len {
            return false;
        }
        let ghost was = *o;
        let ghost key = b@.subrange(open + 1, close as int);
        let first: u8 = if close > open + 1 {
            b[open + 1]
        } else {
            0
        };
        if b[v] == 34 {
            let end: usize = find_string_end(b, v + 1);
            let raw: &[u8] = vstd::slice::slice_subrange(b, v + 1, end);
            let s: String = unescape(raw);
            let ghost val = s@;
            if first == 99 {
                o.c = s;
            } else if first == 117 {
                o.u = s;
            } else if first == 104 {
                o.h = s;
            } else if first == 120 {
                o.x = s;
            }
            assert(o@ == with_text(was@, key, val));
            pos = if end < len {
                end + 1
            } else {
                len
            };
        } else {
            let mut end: usize = v;
            while end < len && b[end] != 44 && b[end] != 125
                invariant
                    len == b@.len(),
                    v <= end <= len,
                    number_end(b@, end as int) == number_end(b@, v as int),
                decreases len - end,
            {
                end += 1;
            }
            let raw: &[u8] = vstd::slice::slice_subrange(b, v, end);
            let t: Vec<char> = read_number(raw);
            if first == 97 {
                o.a = number(&t);
            } else if first == 101 {
                if !chars_eq(&t, "null") {
                    o.e = number(&t);
                    o.has_e = true;
                }
            } else if first == 105 {
                o.i = number(&t);
            } else if first == 110 {
                o.n = number(&t);
            } else if first == 100 {
                o.d = number(&t);
            }
            assert(o@ == with_number(was@, key, t@));
            pos = end;
        }
    }
    !text::empty(o.c.as_str()) || !text::empty(o.h.as_str()) || !text::empty(o.x.as_str())
}

} // verus!
