//! Bytes, characters and decimal numbers: what the codecs are built from.

use vstd::prelude::*;
use vstd::utf8::*;
use vstd::string::*;

verus! {

/// The bytes of a string.
pub open spec fn lit(s: &str) -> Seq<u8> {
    encode_utf8(s@)
}

/// Every byte is a single-byte character.
pub open spec fn ascii(b: Seq<u8>) -> bool {
    forall|i: int| 0 <= i < b.len() ==> #[trigger] b[i] < 128
}

/// The characters of a sequence of single-byte characters.
pub open spec fn ascii_text(b: Seq<u8>) -> Seq<char> {
    Seq::new(b.len(), |i: int| b[i] as char)
}

/// Single-byte characters decode one by one.
pub proof fn lemma_ascii_text(b: Seq<u8>)
    requires
        ascii(b),
    ensures
        valid_utf8(b),
        decode_utf8(b) == ascii_text(b),
        encode_utf8(ascii_text(b)) == b,
{
    let t = ascii_text(b);
    assert(is_ascii_chars(t));
    is_ascii_chars_encode_utf8(t);
    assert(encode_utf8(t) =~= b);
    encode_utf8_valid_utf8(t);
    encode_utf8_decode_utf8(t);
}

/// Two strings with the same bytes are the same string.
pub proof fn lemma_bytes_injective(s: Seq<char>, t: Seq<char>)
    ensures
        encode_utf8(s) == encode_utf8(t) ==> s == t,
{
    encode_utf8_decode_utf8(s);
    encode_utf8_decode_utf8(t);
}

/// The bytes of two strings one behind the other.
pub proof fn lemma_bytes_concat(s: Seq<char>, t: Seq<char>)
    ensures
        encode_utf8(s + t) == encode_utf8(s) + encode_utf8(t),
    decreases s.len(),
{
    if s.len() == 0 {
        assert(s + t =~= t);
        assert(encode_utf8(s) + encode_utf8(t) =~= encode_utf8(t));
    } else {
        assert((s + t).drop_first() =~= s.drop_first() + t);
        lemma_bytes_concat(s.drop_first(), t);
        assert(encode_utf8(s + t) =~= encode_utf8(s) + encode_utf8(t));
    }
}

/// Runs of bytes one behind the other, taken together in either order.
pub proof fn lemma_assoc(a: Seq<u8>, b: Seq<u8>, c: Seq<u8>)
    ensures
        a + b + c == a + (b + c),
{
    assert(a + b + c =~= a + (b + c));
}

/// A string is empty exactly if it has no bytes.
pub proof fn lemma_bytes_empty(s: Seq<char>)
    ensures
        s.len() == 0 <==> encode_utf8(s).len() == 0,
{
    if s.len() > 0 {
        encode_utf8_first_scalar(s);
    }
}

/// The bytes of a string are as many as its characters, or more.
pub proof fn lemma_bytes_len(s: Seq<char>)
    ensures
        encode_utf8(s).len() >= s.len(),
    decreases s.len(),
{
    if s.len() > 0 {
        char_is_scalar(s[0]);
        lemma_bytes_len(s.drop_first());
    }
}

/// Appends the bytes of `s`.
pub fn put(b: &mut Vec<u8>, s: &str)
    ensures
        final(b)@ == old(b)@ + encode_utf8(s@),
{
    b.extend_from_slice(s.as_bytes());
    assert(b@ =~= old(b)@ + encode_utf8(s@));
}

/// Appends a run of bytes.
pub fn put_bytes(b: &mut Vec<u8>, s: &[u8])
    ensures
        final(b)@ == old(b)@ + s@,
{
    b.extend_from_slice(s);
    assert(b@ =~= old(b)@ + s@);
}

/// A copy of a run of bytes.
pub fn copy_bytes(s: &[u8]) -> (r: Vec<u8>)
    ensures
        r@ == s@,
{
    let mut r: Vec<u8> = Vec::new();
    put_bytes(&mut r, s);
    assert(r@ =~= s@);
    r
}

/// The characters of `s`.
pub fn chars_of(s: &str) -> (r: Vec<char>)
    ensures
        r@ == s@,
{
    let mut r: Vec<char> = Vec::new();
    for c in it: s.chars()
        invariant
            r@ == it.seq().take(it.index() as int),
            it.seq() == s@,
    {
        r.push(c);
        assert(r@ =~= it.seq().take(it.index() + 1));
    }
    assert(r@ =~= s@);
    r
}

/// Whether two runs of bytes are equal.
pub fn bytes_eq(a: &[u8], b: &[u8]) -> (r: bool)
    ensures
        r == (a@ == b@),
{
    if a.len() != b.len() {
        return false;
    }
    let mut i: usize = 0;
    while i < a.len()
        invariant
            a@.len() == b@.len(),
            i <= a@.len(),
            forall|k: int| 0 <= k < i ==> a@[k] == b@[k],
        decreases a@.len() - i,
    {
        if a[i] != b[i] {
            return false;
        }
        i += 1;
    }
    assert(a@ =~= b@);
    true
}

/// Whether two strings are equal.
pub fn same(a: &str, b: &str) -> (r: bool)
    ensures
        r == (a@ == b@),
{
    proof {
        lemma_bytes_injective(a@, b@);
    }
    bytes_eq(a.as_bytes(), b.as_bytes())
}

/// Whether a string is empty.
pub fn empty(s: &str) -> (r: bool)
    ensures
        r == (s@.len() == 0),
{
    proof {
        lemma_bytes_empty(s@);
    }
    s.as_bytes().len() == 0
}

/// `p` stands in `s` at position `at`.
pub open spec fn stands_at(s: Seq<u8>, p: Seq<u8>, at: int) -> bool {
    0 <= at && at + p.len() <= s.len() && s.subrange(at, at + p.len()) == p
}

/// `s` begins with `p`.
pub open spec fn begins(s: Seq<u8>, p: Seq<u8>) -> bool {
    stands_at(s, p, 0)
}

/// `s` ends with `p`.
pub open spec fn ends(s: Seq<u8>, p: Seq<u8>) -> bool {
    stands_at(s, p, s.len() - p.len())
}

/// `p` stands somewhere in `s`.
pub open spec fn holds(s: Seq<u8>, p: Seq<u8>) -> bool {
    exists|at: int| stands_at(s, p, at)
}

/// Whether `p` stands in `s` at position `at`.
pub fn stands(s: &[u8], p: &[u8], at: usize) -> (r: bool)
    ensures
        r == stands_at(s@, p@, at as int),
{
    if at > s.len() || p.len() > s.len() - at {
        return false;
    }
    let n: usize = s.len();
    let mut i: usize = 0;
    while i < p.len()
        invariant
            i <= p@.len(),
            n == s@.len(),
            at + p@.len() <= n,
            forall|k: int| 0 <= k < i ==> s@[at + k] == p@[k],
        decreases p@.len() - i,
    {
        if s[at + i] != p[i] {
            assert(s@.subrange(at as int, at + p@.len())[i as int] != p@[i as int]);
            return false;
        }
        i += 1;
    }
    assert(s@.subrange(at as int, at + p@.len()) =~= p@);
    true
}

/// Whether `s` begins with `p`.
pub fn starts_with(s: &[u8], p: &[u8]) -> (r: bool)
    ensures
        r == begins(s@, p@),
{
    stands(s, p, 0)
}

/// Whether `s` ends with `p`.
pub fn ends_with(s: &[u8], p: &[u8]) -> (r: bool)
    ensures
        r == ends(s@, p@),
{
    if p.len() > s.len() {
        false
    } else {
        stands(s, p, s.len() - p.len())
    }
}

/// Whether `p` stands somewhere in `s`.
pub fn contains(s: &[u8], p: &[u8]) -> (r: bool)
    ensures
        r == holds(s@, p@),
{
    if p.len() > s.len() {
        return false;
    }
    let last: usize = s.len() - p.len();
    let mut at: usize = 0;
    while at <= last
        invariant
            last == s@.len() - p@.len(),
            at <= last + 1,
            forall|k: int| 0 <= k < at ==> !stands_at(s@, p@, k),
        decreases last + 1 - at,
    {
        if stands(s, p, at) {
            return true;
        }
        if at == last {
            return false;
        }
        at += 1;
    }
    false
}

/// The first position from `from` on at which byte `q` stands, or the length.
pub open spec fn index_from(b: Seq<u8>, from: int, q: u8) -> int
    decreases b.len() - from,
{
    if from >= b.len() || b[from] == q {
        from
    } else {
        index_from(b, from + 1, q)
    }
}

/// What [`index_from`] finds.
pub proof fn lemma_index_from(b: Seq<u8>, from: int, q: u8)
    requires
        0 <= from <= b.len(),
    ensures
        from <= index_from(b, from, q) <= b.len(),
        index_from(b, from, q) < b.len() ==> b[index_from(b, from, q)] == q,
        forall|k: int| from <= k < index_from(b, from, q) ==> b[k] != q,
    decreases b.len() - from,
{
    if from < b.len() && b[from] != q {
        lemma_index_from(b, from + 1, q);
    }
}

/// The position of a byte that is known to be the first of its kind.
pub proof fn lemma_index_is(b: Seq<u8>, from: int, q: u8, at: int)
    requires
        0 <= from <= at < b.len(),
        b[at] == q,
        forall|k: int| from <= k < at ==> b[k] != q,
    ensures
        index_from(b, from, q) == at,
    decreases at - from,
{
    if from < at {
        lemma_index_is(b, from + 1, q, at);
    }
}

/// A byte that does not stand behind `from` is found nowhere.
pub proof fn lemma_index_none(b: Seq<u8>, from: int, q: u8)
    requires
        0 <= from <= b.len(),
        forall|k: int| from <= k < b.len() ==> b[k] != q,
    ensures
        index_from(b, from, q) == b.len(),
    decreases b.len() - from,
{
    if from < b.len() {
        lemma_index_none(b, from + 1, q);
    }
}

/// Where a byte stands in what is left of `b` behind `s`.
pub proof fn lemma_index_shift(b: Seq<u8>, s: int, q: u8)
    requires
        0 <= s <= b.len(),
    ensures
        index_from(b.skip(s), 0, q) == index_from(b, s, q) - s,
{
    let i = index_from(b, s, q);
    lemma_index_from(b, s, q);
    if i < b.len() {
        lemma_index_is(b.skip(s), 0, q, i - s);
    } else {
        lemma_index_none(b.skip(s), 0, q);
    }
}

/// Finds the first `q` from `from` on; the length if there is none.
pub fn find_byte(b: &[u8], from: usize, q: u8) -> (r: usize)
    requires
        from <= b@.len(),
    ensures
        from <= r <= b@.len(),
        r == index_from(b@, from as int, q),
        r < b@.len() ==> b@[r as int] == q,
        forall|k: int| from <= k < r ==> b@[k] != q,
{
    proof {
        lemma_index_from(b@, from as int, q);
    }
    let mut i: usize = from;
    while i < b.len() && b[i] != q
        invariant
            from <= i <= b@.len(),
            index_from(b@, i as int, q) == index_from(b@, from as int, q),
        decreases b@.len() - i,
    {
        i += 1;
    }
    i
}

// ---------- strings from bytes ----------

/// `str::from_utf8`, with the string copied out: there is a string exactly if
/// the bytes are well-formed UTF-8, and it is what they encode.
#[verifier::external_body]
pub(crate) fn utf8_string(b: &[u8]) -> (r: Option<String>)
    ensures
        r is Some <==> valid_utf8(b@),
        r matches Some(s) ==> s@ == decode_utf8(b@),
{
    std::str::from_utf8(b).ok().map(|s| s.to_string())
}

/// What `String::from_utf8_lossy` makes of a run of bytes.
pub uninterp spec fn utf8_lossy(b: Seq<u8>) -> Seq<char>;

/// `String::from_utf8_lossy`: well-formed UTF-8 comes back as it is. What
/// stands in for ill-formed bytes is only named.
#[verifier::external_body]
pub(crate) fn lossy_string(b: &[u8]) -> (r: String)
    ensures
        r@ == utf8_lossy(b@),
        valid_utf8(b@) ==> r@ == decode_utf8(b@),
{
    String::from_utf8_lossy(b).into_owned()
}

/// The text that a run of bytes stands for: what it encodes where it is
/// well-formed UTF-8, else what `String::from_utf8_lossy` makes of it.
pub open spec fn text_of(b: Seq<u8>) -> Seq<char> {
    if valid_utf8(b) {
        decode_utf8(b)
    } else {
        utf8_lossy(b)
    }
}

/// The text that a run of bytes stands for.
pub fn to_text(b: &[u8]) -> (r: String)
    ensures
        r@ == text_of(b@),
{
    lossy_string(b)
}

/// The bytes of a string stand for that string.
pub proof fn lemma_text_of(s: Seq<char>)
    ensures
        text_of(encode_utf8(s)) == s,
{
    encode_utf8_valid_utf8(s);
    encode_utf8_decode_utf8(s);
}

/// The bytes of a string of single-byte characters.
pub proof fn lemma_lit(s: Seq<char>, b: Seq<u8>)
    requires
        ascii(b),
        s == ascii_text(b),
    ensures
        encode_utf8(s) == b,
{
    lemma_ascii_text(b);
}

/// A string of single-byte characters.
pub fn ascii_string(b: &[u8]) -> (r: String)
    requires
        ascii(b@),
    ensures
        r@ == ascii_text(b@),
        encode_utf8(r@) == b@,
{
    proof {
        lemma_ascii_text(b@);
    }
    match utf8_string(b) {
        Some(s) => s,
        None => String::new(),
    }
}

/// Appends the UTF-8 bytes of a character.
pub fn put_scalar(out: &mut Vec<u8>, n: u32)
    requires
        n <= 0x10ffff,
        !(0xd800 <= n <= 0xdfff),
    ensures
        final(out)@ == old(out)@ + encode_scalar(n),
{
    if n <= 0x7f {
        out.push((n & 0x7F) as u8);
    } else if n <= 0x7ff {
        out.push(0xC0 | ((n >> 6) & 0x1F) as u8);
        out.push(0x80 | (n & 0x3F) as u8);
    } else if n <= 0xffff {
        out.push(0xE0 | ((n >> 12) & 0x0F) as u8);
        out.push(0x80 | ((n >> 6) & 0x3F) as u8);
        out.push(0x80 | (n & 0x3F) as u8);
    } else {
        out.push(0xF0 | ((n >> 18) & 0x07) as u8);
        out.push(0x80 | ((n >> 12) & 0x3F) as u8);
        out.push(0x80 | ((n >> 6) & 0x3F) as u8);
        out.push(0x80 | (n & 0x3F) as u8);
    }
    assert(out@ =~= old(out)@ + encode_scalar(n));
}

/// The string of some characters.
pub fn string_of(t: &Vec<char>) -> (r: String)
    ensures
        r@ == t@,
{
    let mut b: Vec<u8> = Vec::new();
    let mut i: usize = 0;
    assert(t@.take(0) =~= Seq::<char>::empty());
    assert(b@ =~= encode_utf8(t@.take(0)));
    while i < t.len()
        invariant
            i <= t@.len(),
            b@ == encode_utf8(t@.take(i as int)),
        decreases t@.len() - i,
    {
        let ghost one = seq![t@[i as int]];
        proof {
            lemma_bytes_concat(t@.take(i as int), one);
            char_is_scalar(t@[i as int]);
            assert(one.drop_first() =~= Seq::<char>::empty());
            assert(encode_utf8(one) =~= encode_scalar(t@[i as int] as u32) + encode_utf8(
                one.drop_first(),
            ));
            assert(encode_utf8(one) =~= encode_scalar(t@[i as int] as u32));
            assert(t@.take(i + 1) =~= t@.take(i as int) + one);
        }
        put_scalar(&mut b, t[i] as u32);
        i += 1;
    }
    assert(t@.take(i as int) =~= t@);
    proof {
        encode_utf8_valid_utf8(t@);
        encode_utf8_decode_utf8(t@);
    }
    match utf8_string(b.as_slice()) {
        Some(s) => s,
        None => String::new(),
    }
}

/// The first position at which a character stands, or the length.
pub open spec fn char_index(t: Seq<char>, from: int, c: char) -> int
    decreases t.len() - from,
{
    if from >= t.len() || t[from] == c {
        from
    } else {
        char_index(t, from + 1, c)
    }
}

/// Finds the first `c`; the length if there is none.
pub fn find_char(t: &Vec<char>, c: char) -> (r: usize)
    ensures
        r <= t@.len(),
        r == char_index(t@, 0, c),
{
    let mut i: usize = 0;
    while i < t.len() && t[i] != c
        invariant
            i <= t@.len(),
            char_index(t@, i as int, c) == char_index(t@, 0, c),
        decreases t@.len() - i,
    {
        i += 1;
    }
    i
}

/// Some of the characters.
pub fn sub_chars(t: &Vec<char>, from: usize, to: usize) -> (r: Vec<char>)
    requires
        from <= to <= t@.len(),
    ensures
        r@ == t@.subrange(from as int, to as int),
{
    let mut r: Vec<char> = Vec::new();
    let mut i: usize = from;
    assert(r@ =~= t@.subrange(from as int, from as int));
    while i < to
        invariant
            from <= i <= to <= t@.len(),
            r@ == t@.subrange(from as int, i as int),
        decreases to - i,
    {
        r.push(t[i]);
        i += 1;
        assert(r@ =~= t@.subrange(from as int, i as int));
    }
    r
}

/// `t` begins with `p`.
pub open spec fn char_begins(t: Seq<char>, p: Seq<char>) -> bool {
    p.len() <= t.len() && t.take(p.len() as int) == p
}

/// What stands behind `p` in a text that begins with it.
pub fn strip_prefix(t: &Vec<char>, p: &str) -> (r: Option<Vec<char>>)
    ensures
        r is Some <==> char_begins(t@, p@),
        r matches Some(x) ==> x@ == t@.skip(p@.len() as int),
{
    let q: Vec<char> = chars_of(p);
    if q.len() > t.len() {
        return None;
    }
    let mut i: usize = 0;
    while i < q.len()
        invariant
            i <= q@.len() <= t@.len(),
            q@ == p@,
            forall|k: int| 0 <= k < i ==> t@[k] == q@[k],
        decreases q@.len() - i,
    {
        if t[i] != q[i] {
            assert(t@.take(p@.len() as int)[i as int] != p@[i as int]);
            return None;
        }
        i += 1;
    }
    assert(t@.take(p@.len() as int) =~= p@);
    let r: Vec<char> = sub_chars(t, q.len(), t.len());
    assert(r@ =~= t@.skip(p@.len() as int));
    Some(r)
}

/// Whether some characters are those of a string.
pub fn is_text(t: &Vec<char>, s: &str) -> (r: bool)
    ensures
        r == (t@ == s@),
{
    match strip_prefix(t, s) {
        Some(rest) => {
            if rest.len() == 0 {
                assert(t@ =~= s@);
                true
            } else {
                assert(t@.len() != s@.len());
                false
            }
        },
        None => {
            assert(t@ == s@ ==> t@.take(s@.len() as int) =~= s@);
            false
        },
    }
}

/// An ASCII letter in lower case; other bytes as they are.
pub open spec fn lower(c: u8) -> u8 {
    if 65 <= c <= 90 {
        (c + 32) as u8
    } else {
        c
    }
}

/// All bytes in lower case.
pub open spec fn lowered(b: Seq<u8>) -> Seq<u8> {
    Seq::new(b.len(), |i: int| lower(b[i]))
}

fn to_lower(c: u8) -> (r: u8)
    ensures
        r == lower(c),
{
    if 65 <= c && c <= 90 {
        c + 32
    } else {
        c
    }
}

/// Whether two runs of bytes are equal but for the case of ASCII letters.
pub fn same_letters(a: &[u8], b: &[u8]) -> (r: bool)
    ensures
        r == (lowered(a@) == lowered(b@)),
{
    if a.len() != b.len() {
        assert(lowered(a@).len() != lowered(b@).len());
        return false;
    }
    let mut i: usize = 0;
    while i < a.len()
        invariant
            i <= a@.len(),
            a@.len() == b@.len(),
            forall|k: int| 0 <= k < i ==> lower(a@[k]) == lower(b@[k]),
        decreases a@.len() - i,
    {
        if to_lower(a[i]) != to_lower(b[i]) {
            assert(lowered(a@)[i as int] != lowered(b@)[i as int]);
            return false;
        }
        i += 1;
    }
    assert(lowered(a@) =~= lowered(b@));
    true
}

/// A character of more than one byte.
pub open spec fn wide(c: char) -> bool {
    c as u32 > 0x7f
}

// ---------- decimal numbers ----------

/// The decimal digits of `n`, most significant first.
pub open spec fn digits(n: nat) -> Seq<u8>
    decreases n,
{
    if n < 10 {
        seq![(48 + n) as u8]
    } else {
        digits(n / 10).push((48 + n % 10) as u8)
    }
}

/// `n` in decimal, with a minus sign where it is negative.
pub open spec fn decimal(n: int) -> Seq<u8> {
    if n < 0 {
        seq![45u8] + digits((-n) as nat)
    } else {
        digits(n as nat)
    }
}

/// Digits are digits.
pub proof fn lemma_digits(n: nat)
    ensures
        digits(n).len() >= 1,
        forall|i: int| 0 <= i < digits(n).len() ==> 48 <= #[trigger] digits(n)[i] <= 57,
    decreases n,
{
    if n >= 10 {
        lemma_digits(n / 10);
    }
}

/// A decimal number is made of digits and perhaps a minus sign.
pub proof fn lemma_decimal(n: int)
    ensures
        decimal(n).len() >= 1,
        ascii(decimal(n)),
        forall|i: int|
            0 <= i < decimal(n).len() ==> #[trigger] decimal(n)[i] == 45 || 48 <= decimal(n)[i]
                <= 57,
        n < 0 <==> decimal(n)[0] == 45,
{
    if n < 0 {
        lemma_digits((-n) as nat);
    } else {
        lemma_digits(n as nat);
    }
}

/// Appends `n` in decimal.
pub fn put_u64(b: &mut Vec<u8>, n: u64)
    ensures
        final(b)@ == old(b)@ + decimal(n as int),
{
    let mut low: Vec<u8> = Vec::new();
    let mut v: u64 = n;
    while v >= 10
        invariant
            digits(n as nat) == digits(v as nat) + low@.reverse(),
        decreases v,
    {
        let ghost before = low@;
        let ghost was = v as nat;
        low.push(48 + (v % 10) as u8);
        v = v / 10;
        assert(digits(was) =~= digits(v as nat).push(low@.last()));
        assert(low@.reverse() =~= seq![low@.last()] + before.reverse());
        assert(digits(v as nat) + low@.reverse() =~= digits(was) + before.reverse());
    }
    low.push(48 + v as u8);
    let ghost all = low@.reverse();
    proof {
        assert(low@.reverse() =~= digits(v as nat) + low@.drop_last().reverse());
    }
    let mut k: usize = low.len();
    assert(b@ =~= old(b)@ + all.take(0));
    while k > 0
        invariant
            k <= low@.len(),
            all == low@.reverse(),
            b@ == old(b)@ + all.take(low@.len() - k),
        decreases k,
    {
        k -= 1;
        b.push(low[k]);
        assert(all.take(low@.len() - k) =~= all.take(low@.len() - k - 1).push(low@[k as int]));
        assert(b@ =~= old(b)@ + all.take(low@.len() - k));
    }
    assert(all.take(low@.len() as int) =~= all);
}

/// Appends `n` in decimal.
pub fn put_i64(b: &mut Vec<u8>, n: i64)
    ensures
        final(b)@ == old(b)@ + decimal(n as int),
{
    if n < 0 {
        b.push(45);
        let m: u64 = if n == i64::MIN {
            0x8000_0000_0000_0000
        } else {
            (-n) as u64
        };
        put_u64(b, m);
        assert(b@ =~= old(b)@ + decimal(n as int));
    } else {
        put_u64(b, n as u64);
    }
}

/// A decimal digit.
pub open spec fn is_digit(c: char) -> bool {
    '0' <= c <= '9'
}

/// At least one digit and nothing else.
pub open spec fn all_digits(s: Seq<char>) -> bool {
    s.len() > 0 && forall|i: int| 0 <= i < s.len() ==> #[trigger] is_digit(s[i])
}

/// The number that a run of digits stands for.
pub open spec fn value_of(s: Seq<char>) -> nat
    decreases s.len(),
{
    if s.len() == 0 {
        0
    } else {
        value_of(s.drop_last()) * 10 + (s.last() as nat - 48) as nat
    }
}

/// The integer that a text stands for, if it stands for one: digits, with one
/// sign in front or none.
pub open spec fn int_text(s: Seq<char>) -> Option<int> {
    if s.len() > 0 && s[0] == '-' && all_digits(s.drop_first()) {
        Some(-value_of(s.drop_first()))
    } else if s.len() > 0 && s[0] == '+' && all_digits(s.drop_first()) {
        Some(value_of(s.drop_first()) as int)
    } else if all_digits(s) {
        Some(value_of(s) as int)
    } else {
        None
    }
}

/// The text stands for an integer from `lo` to `hi`.
pub open spec fn int_within(s: Seq<char>, lo: int, hi: int) -> Option<int> {
    match int_text(s) {
        Some(n) => if lo <= n <= hi {
            Some(n)
        } else {
            None
        },
        None => None,
    }
}

/// The unsigned number that a text stands for, if it stands for one that is at
/// most `hi`: a minus sign is not taken, not even before a zero.
pub open spec fn uint_within(s: Seq<char>, hi: int) -> Option<int> {
    if s.len() > 0 && s[0] == '-' {
        None
    } else {
        int_within(s, 0, hi)
    }
}

proof fn lemma_value_grows(s: Seq<char>, k: int)
    requires
        0 <= k <= s.len(),
    ensures
        value_of(s.take(k)) <= value_of(s),
    decreases s.len(),
{
    if k < s.len() {
        lemma_value_grows(s.drop_last(), k);
        assert(s.drop_last().take(k) =~= s.take(k));
    } else {
        assert(s.take(k) =~= s);
    }
}

/// The digits from `from` on, read as a number; `None` where there is no digit
/// or something else than digits, and where the number is over 2^64.
fn magnitude(s: &Vec<char>, from: usize) -> (r: Option<u128>)
    requires
        from <= s@.len(),
    ensures
        r matches Some(n) ==> all_digits(s@.skip(from as int)) && n == value_of(s@.skip(from as int)),
        r is None ==> !all_digits(s@.skip(from as int)) || value_of(s@.skip(from as int))
            > 0x1_0000_0000_0000_0000,
{
    let ghost t = s@.skip(from as int);
    if from == s.len() {
        return None;
    }
    let mut n: u128 = 0;
    let mut i: usize = from;
    assert(t.take(0) =~= Seq::<char>::empty());
    while i < s.len()
        invariant
            from <= i <= s@.len(),
            t == s@.skip(from as int),
            n == value_of(t.take(i - from)),
            n <= 0x1_0000_0000_0000_0000,
            forall|k: int| 0 <= k < i - from ==> is_digit(#[trigger] t[k]),
        decreases s@.len() - i,
    {
        let c: char = s[i];
        assert(c == t[i - from]);
        if c < '0' || c > '9' {
            assert(!is_digit(t[i - from]));
            return None;
        }
        let ghost was = t.take(i - from);
        assert(t.take(i - from + 1).drop_last() =~= was);
        n = n * 10 + (c as u32 - 48) as u128;
        i += 1;
        assert(n == value_of(t.take(i - from)));
        if n > 0x1_0000_0000_0000_0000 {
            proof {
                lemma_value_grows(t, i - from);
            }
            return None;
        }
    }
    assert(t.take(i - from) =~= t);
    Some(n)
}

/// Reads a signed 64-bit integer.
pub fn parse_i64(s: &Vec<char>) -> (r: Option<i64>)
    ensures
        r is Some <==> int_within(s@, i64::MIN as int, i64::MAX as int) is Some,
        r matches Some(n) ==> Some(n as int) == int_within(s@, i64::MIN as int, i64::MAX as int),
{
    if s.len() == 0 {
        return None;
    }
    assert(s@.skip(1) =~= s@.drop_first());
    assert(s@.skip(0) =~= s@);
    assert(s@[0] == '-' || s@[0] == '+' ==> !is_digit(s@[0]));
    if s[0] == '-' {
        match magnitude(s, 1) {
            Some(n) => if n < 0x8000_0000_0000_0000 {
                Some(-(n as i64))
            } else if n == 0x8000_0000_0000_0000 {
                Some(i64::MIN)
            } else {
                None
            },
            None => None,
        }
    } else {
        let from: usize = if s[0] == '+' {
            1
        } else {
            0
        };
        match magnitude(s, from) {
            Some(n) => if n < 0x8000_0000_0000_0000 {
                Some(n as i64)
            } else {
                None
            },
            None => None,
        }
    }
}

/// Reads an unsigned 64-bit integer.
pub fn parse_u64(s: &Vec<char>) -> (r: Option<u64>)
    ensures
        r is Some <==> uint_within(s@, u64::MAX as int) is Some,
        r matches Some(n) ==> Some(n as int) == uint_within(s@, u64::MAX as int),
{
    if s.len() == 0 {
        return None;
    }
    assert(s@.skip(1) =~= s@.drop_first());
    assert(s@.skip(0) =~= s@);
    assert(s@[0] == '-' || s@[0] == '+' ==> !is_digit(s@[0]));
    if s[0] == '-' {
        None
    } else {
        let from: usize = if s[0] == '+' {
            1
        } else {
            0
        };
        match magnitude(s, from) {
            Some(n) => if n < 0x1_0000_0000_0000_0000 {
                Some(n as u64)
            } else {
                None
            },
            None => None,
        }
    }
}

proof fn lemma_digits_value(n: nat)
    ensures
        all_digits(ascii_text(digits(n))),
        value_of(ascii_text(digits(n))) == n,
    decreases n,
{
    lemma_digits(n);
    let t = ascii_text(digits(n));
    assert forall|i: int| 0 <= i < t.len() implies #[trigger] is_digit(t[i]) by {
        assert(48 <= digits(n)[i] <= 57);
    }
    if n < 10 {
        assert(t.drop_last() =~= Seq::<char>::empty());
        assert(value_of(t.drop_last()) == 0);
    } else {
        lemma_digits_value(n / 10);
        assert(t.drop_last() =~= ascii_text(digits(n / 10)));
    }
}

/// A number that was written in decimal reads back as it was.
pub proof fn law_decimal_reads_back(n: int)
    ensures
        int_text(ascii_text(decimal(n))) == Some(n),
{
    let t = ascii_text(decimal(n));
    lemma_decimal(n);
    if n < 0 {
        let d = digits((-n) as nat);
        lemma_digits_value((-n) as nat);
        assert(t[0] == '-');
        assert(t.drop_first() =~= ascii_text(d));
    } else {
        lemma_digits_value(n as nat);
        assert(t =~= ascii_text(digits(n as nat)));
        assert(is_digit(t[0]));
        assert(t[0] != '-' && t[0] != '+');
    }
}

// ---------- white space ----------

/// The characters with the White_Space property.
pub open spec fn is_space(c: char) -> bool {
    ||| c == ' '
    ||| 0x09 <= c as u32 <= 0x0d
    ||| c as u32 == 0x85
    ||| c as u32 == 0xa0
    ||| c as u32 == 0x1680
    ||| 0x2000 <= c as u32 <= 0x200a
    ||| c as u32 == 0x2028
    ||| c as u32 == 0x2029
    ||| c as u32 == 0x202f
    ||| c as u32 == 0x205f
    ||| c as u32 == 0x3000
}

/// Whether `c` is white space.
pub fn space(c: char) -> (r: bool)
    ensures
        r == is_space(c),
{
    let u: u32 = c as u32;
    c == ' ' || (0x09 <= u && u <= 0x0d) || u == 0x85 || u == 0xa0 || u == 0x1680 || (0x2000 <= u
        && u <= 0x200a) || u == 0x2028 || u == 0x2029 || u == 0x202f || u == 0x205f || u == 0x3000
}

/// `s` without the white space in front.
pub open spec fn trim_start(s: Seq<char>) -> Seq<char>
    decreases s.len(),
{
    if s.len() > 0 && is_space(s[0]) {
        trim_start(s.drop_first())
    } else {
        s
    }
}

/// `s` without the white space at the end.
pub open spec fn trim_end(s: Seq<char>) -> Seq<char>
    decreases s.len(),
{
    if s.len() > 0 && is_space(s.last()) {
        trim_end(s.drop_last())
    } else {
        s
    }
}

/// `s` without the white space at either end.
pub open spec fn trim(s: Seq<char>) -> Seq<char> {
    trim_end(trim_start(s))
}

/// Cuts the white space off the end.
pub fn trimmed_end(s: &Vec<char>) -> (r: Vec<char>)
    ensures
        r@ == trim_end(s@),
{
    let mut hi: usize = s.len();
    assert(s@.take(s@.len() as int) =~= s@);
    while hi > 0 && space(s[hi - 1])
        invariant
            hi <= s@.len(),
            trim_end(s@.take(hi as int)) == trim_end(s@),
        decreases hi,
    {
        assert(s@.take(hi as int).drop_last() =~= s@.take(hi - 1));
        hi -= 1;
    }
    let mut r: Vec<char> = Vec::new();
    let mut i: usize = 0;
    while i < hi
        invariant
            i <= hi <= s@.len(),
            r@ == s@.take(i as int),
        decreases hi - i,
    {
        r.push(s[i]);
        i += 1;
        assert(r@ =~= s@.take(i as int));
    }
    r
}

/// Cuts the white space off both ends.
pub fn trimmed(s: &Vec<char>) -> (r: Vec<char>)
    ensures
        r@ == trim(s@),
{
    let mut lo: usize = 0;
    assert(s@.skip(0) =~= s@);
    while lo < s.len() && space(s[lo])
        invariant
            lo <= s@.len(),
            trim_start(s@.skip(lo as int)) == trim_start(s@),
        decreases s@.len() - lo,
    {
        assert(s@.skip(lo as int).drop_first() =~= s@.skip(lo + 1));
        lo += 1;
    }
    let mut t: Vec<char> = Vec::new();
    let mut i: usize = lo;
    assert(t@ =~= s@.subrange(lo as int, lo as int));
    while i < s.len()
        invariant
            lo <= i <= s@.len(),
            t@ == s@.subrange(lo as int, i as int),
        decreases s@.len() - i,
    {
        t.push(s[i]);
        i += 1;
        assert(t@ =~= s@.subrange(lo as int, i as int));
    }
    assert(t@ =~= s@.skip(lo as int));
    trimmed_end(&t)
}

/// A text that neither begins nor ends with white space stays as it is.
pub proof fn lemma_trim_none(s: Seq<char>)
    requires
        s.len() > 0 ==> !is_space(s[0]) && !is_space(s.last()),
    ensures
        trim(s) == s,
{
}

} // verus!
