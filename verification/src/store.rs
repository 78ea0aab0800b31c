//! The links in memory, and the log that makes them last.
//!
//! - a read is a map lookup
//! - a write is a map insert and a queued log line
//! - each instance has a log of its own; a generated code begins with the
//!   letter of the instance that made it, so codes of two instances never meet
//!   and a miss names the one log that may hold the code

use rand::Rng;
use rustc_hash::FxHashMap;
use vstd::prelude::*;
use vstd::utf8::*;

use crate::aof;
use crate::aof::{Aof, AofView, TailReader, TailView, NL};
use crate::base62;
use crate::codec;
use crate::codec::{Op, OpView};
use crate::fxmap;
use crate::listing;
use crate::listing::Order;
use crate::sort;
use crate::text;

verus! {

/// In how many parts the links are kept.
pub const NUM_SHARDS: usize = 256;

/// More queued bytes than this are flushed at once.
pub const FLUSH_BYTES: usize = 262144;

/// A full poll of the siblings after a miss waits this many ms.
pub const TAIL_MIN_INTERVAL: i64 = 200;

/// The random letters of a generated code, behind the letter of the instance.
pub const SUFFIX_LEN: usize = 7;

/// There are as many instances as letters.
pub const MAX_INSTANCES: i32 = 62;

/// There are as many codes of an instance: 62 letters at each of the random places.
pub const CODES: u64 = 3521614606208;

/// How often a code is drawn before all of them are gone through.
pub const MAX_DRAWS: u64 = 1000;

/// How many codes hit deltas are kept for while their rows are missing.
pub const MAX_STRAY_HITS: usize = 10000;

// ---------- time and chance ----------

/// A point in time of the system clock.
#[verifier::external_type_specification]
#[verifier::external_body]
pub struct ExSystemTime(std::time::SystemTime);

/// `SystemTime::now`: the time. Nothing is said of it.
pub assume_specification[ std::time::SystemTime::now ]() -> std::time::SystemTime
;

/// `SystemTime::duration_since` the Unix epoch; nothing before it. How long it
/// was is left open.
#[verifier::external_body]
fn since_epoch(t: std::time::SystemTime) -> Option<std::time::Duration> {
    t.duration_since(std::time::UNIX_EPOCH).ok()
}

/// `Duration::as_millis`: a span in ms. Nothing is said of it.
pub assume_specification[ std::time::Duration::as_millis ](d: &std::time::Duration) -> u128
;

/// The time in ms since the Unix epoch: what `ms_of` makes of the span that the clock gives.
pub fn now_ms() -> i64 {
    match since_epoch(std::time::SystemTime::now()) {
        Some(d) => ms_of(Some(d.as_millis())),
        None => ms_of(None),
    }
}

/// The time that a span since the Unix epoch, in ms, comes to: its low 64 bits; 0 where
/// there is no span, as before the epoch.
pub open spec fn span_ms(span: Option<u128>) -> i64 {
    match span {
        Some(n) => n as i64,
        None => 0,
    }
}

/// The time that a span since the Unix epoch, in ms, comes to. Every span shorter than
/// some 292 million years is kept as it is.
pub fn ms_of(span: Option<u128>) -> (r: i64)
    ensures
        r == span_ms(span),
        span matches Some(n) ==> (n <= i64::MAX ==> r == n),
        span is None ==> r == 0,
{
    match span {
        Some(n) => #[verifier::truncate] (n as i64),
        None => 0,
    }
}

/// `Rng::fill` of the generator of this thread, on `n` bytes. What the bytes
/// are is left to chance.
#[verifier::external_body]
pub(crate) fn random_bytes(n: usize) -> (r: Vec<u8>)
    requires
        n <= isize::MAX,
    ensures
        r@.len() == n,
{
    let mut b: Vec<u8> = vec![0u8; n];
    rand::rng().fill(&mut b[..]);
    b
}

// ---------- settings ----------

/// The number that a setting stands for, if it is there and stands for one.
pub open spec fn setting(v: Option<Seq<char>>, def: i64) -> i64 {
    match v {
        Some(t) => match text::int_within(t, i64::MIN as int, i64::MAX as int) {
            Some(n) => n as i64,
            None => def,
        },
        None => def,
    }
}

/// The number from 0 to `hi` that a setting stands for, if it is there and stands for one.
pub open spec fn count_setting(v: Option<Seq<char>>, hi: int, def: int) -> int {
    match v {
        Some(t) => match text::uint_within(t, hi) {
            Some(n) => n,
            None => def,
        },
        None => def,
    }
}

/// A setting has hits counted unless it is `0`.
pub open spec fn counts_hits(v: Option<Seq<char>>) -> bool {
    match v {
        Some(t) => t != "0"@,
        None => true,
    }
}

/// The text that a setting is, if it is there.
pub open spec fn text_setting(v: Option<Seq<char>>, def: Seq<char>) -> Seq<char> {
    match v {
        Some(t) => t,
        None => def,
    }
}

/// Reads a setting that is a number.
pub fn read_setting(v: Option<&str>, def: i64) -> (r: i64)
    ensures
        r == setting(opt_text(v), def),
{
    match v {
        Some(s) => match text::parse_i64(&text::chars_of(s)) {
            Some(n) => n,
            None => def,
        },
        None => def,
    }
}

/// How often siblings are read unasked, in ms, from the setting for it; 0 for
/// never.
pub fn tail_ms(v: Option<&str>) -> (r: u64)
    ensures
        r == count_setting(opt_text(v), u64::MAX as int, 0),
{
    match v {
        Some(s) => match text::parse_u64(&text::chars_of(s)) {
            Some(n) => n,
            None => 0,
        },
        None => 0,
    }
}

/// Whether hits are counted, from the setting for it: only `0` says no.
pub fn track_hits(v: Option<&str>) -> (r: bool)
    ensures
        r == counts_hits(opt_text(v)),
{
    match v {
        Some(s) => !text::same(s, "0"),
        None => true,
    }
}

// ---------- codes ----------

/// The 32-bit FNV-1a hash.
pub open spec fn fnv32(b: Seq<u8>) -> u32
    decreases b.len(),
{
    if b.len() == 0 {
        2166136261
    } else {
        (fnv32(b.drop_last()) ^ (b.last() as u32)).wrapping_mul(16777619)
    }
}

/// The part that a code belongs in.
pub open spec fn shard_ix(code: Seq<char>) -> int {
    fnv32(encode_utf8(code)) as int % 256
}

/// The part that a code belongs in.
pub fn shard_of(code: &str) -> (r: usize)
    ensures
        r == shard_ix(code@),
        r < NUM_SHARDS,
{
    let b: &[u8] = code.as_bytes();
    let mut h: u32 = 2166136261;
    let mut i: usize = 0;
    assert(b@.take(0) =~= Seq::<u8>::empty());
    while i < b.len()
        invariant
            i <= b@.len(),
            h == fnv32(b@.take(i as int)),
        decreases b@.len() - i,
    {
        assert(b@.take(i + 1).drop_last() =~= b@.take(i as int));
        h = (h ^ (b[i] as u32)).wrapping_mul(16777619);
        i += 1;
    }
    assert(b@.take(i as int) =~= b@);
    (h % 256) as usize
}

/// The bytes of the code that an instance makes of some random bytes.
pub open spec fn code_bytes(instance: int, draw: Seq<u8>) -> Seq<u8> {
    seq![base62::digit62(instance)] + Seq::new(
        draw.len(),
        |k: int| base62::digit62(draw[k] as int % 62),
    )
}

/// The code that an instance makes of some random bytes.
pub open spec fn code_of(instance: int, draw: Seq<u8>) -> Seq<char> {
    text::ascii_text(code_bytes(instance, draw))
}

/// A code that an instance may make.
pub open spec fn generated(instance: int, code: Seq<char>) -> bool {
    exists|draw: Seq<u8>| draw.len() == SUFFIX_LEN && code == #[trigger] code_of(instance, draw)
}

/// The code that an instance makes of some random bytes.
pub fn code_from(instance: i32, draw: &[u8]) -> (r: String)
    requires
        0 <= instance < MAX_INSTANCES,
    ensures
        r@ == code_of(instance as int, draw@),
        encode_utf8(r@) == code_bytes(instance as int, draw@),
{
    let mut c: Vec<u8> = Vec::new();
    c.push(base62::letter(instance as usize));
    let mut k: usize = 0;
    while k < draw.len()
        invariant
            k <= draw@.len(),
            0 <= instance < MAX_INSTANCES,
            c@ == code_bytes(instance as int, draw@.take(k as int)),
            text::ascii(c@),
        decreases draw@.len() - k,
    {
        c.push(base62::letter((draw[k] % 62) as usize));
        k += 1;
        assert(c@ =~= code_bytes(instance as int, draw@.take(k as int)));
    }
    assert(draw@.take(k as int) =~= draw@);
    text::ascii_string(c.as_slice())
}

/// Codes that two instances make never meet.
pub proof fn law_codes_disjoint(i: int, j: int, a: Seq<u8>, b: Seq<u8>)
    requires
        0 <= i < MAX_INSTANCES,
        0 <= j < MAX_INSTANCES,
        i != j,
    ensures
        code_of(i, a) != code_of(j, b),
{
    base62::law_letter_reads_back(i);
    base62::law_letter_reads_back(j);
    assert(code_of(i, a)[0] as u8 == base62::digit62(i));
    assert(code_of(j, b)[0] as u8 == base62::digit62(j));
}

/// A generated code has eight letters, the first of which names its instance.
pub proof fn law_generated_shape(instance: int, code: Seq<char>)
    requires
        0 <= instance < MAX_INSTANCES,
        generated(instance, code),
    ensures
        code.len() == 8,
        base62::value62(code[0] as u8) == Some(instance),
        forall|k: int| 0 <= k < 8 ==> base62::value62(#[trigger] code[k] as u8) is Some,
{
    let draw = choose|draw: Seq<u8>|
        draw.len() == SUFFIX_LEN && code == #[trigger] code_of(instance, draw);
    base62::law_letter_reads_back(instance);
    assert forall|k: int| 0 <= k < 8 implies base62::value62(#[trigger] code[k] as u8) is Some by {
        if k > 0 {
            base62::law_letter_reads_back(draw[k - 1] as int % 62);
        }
    }
}

// ---------- all codes of an instance ----------

/// The random bytes that a number stands for, the lowest first.
pub open spec fn draw_of(n: int, len: nat) -> Seq<u8>
    decreases len,
{
    if len == 0 {
        Seq::empty()
    } else {
        seq![(n % 62) as u8] + draw_of(n / 62, (len - 1) as nat)
    }
}

/// The number that stands for some bytes below 62.
spec fn number_of(d: Seq<u8>) -> int
    decreases d.len(),
{
    if d.len() == 0 {
        0
    } else {
        d[0] + 62 * number_of(d.skip(1))
    }
}

/// How many numbers stand for as many bytes below 62.
spec fn span_of(len: nat) -> int
    decreases len,
{
    if len == 0 {
        1
    } else {
        62 * span_of((len - 1) as nat)
    }
}

proof fn lemma_number(d: Seq<u8>)
    requires
        forall|k: int| 0 <= k < d.len() ==> #[trigger] d[k] < 62,
    ensures
        0 <= number_of(d) < span_of(d.len()),
        draw_of(number_of(d), d.len()) == d,
    decreases d.len(),
{
    if d.len() > 0 {
        let rest = d.skip(1);
        lemma_number(rest);
        let n = number_of(rest);
        assert((d[0] + 62 * n) / 62 == n && (d[0] + 62 * n) % 62 == d[0]);
        assert(seq![d[0]] + rest =~= d);
    } else {
        assert(draw_of(number_of(d), 0) =~= d);
    }
}

proof fn lemma_draw_len(n: int, len: nat)
    ensures
        draw_of(n, len).len() == len,
    decreases len,
{
    if len > 0 {
        lemma_draw_len(n / 62, (len - 1) as nat);
    }
}

/// Every code of an instance is that of a number.
proof fn lemma_code_number(instance: int, c: Seq<char>) -> (n: int)
    requires
        generated(instance, c),
    ensures
        0 <= n < CODES,
        c == code_of(instance, draw_of(n, SUFFIX_LEN as nat)),
{
    let draw = choose|draw: Seq<u8>|
        draw.len() == SUFFIX_LEN && c == #[trigger] code_of(instance, draw);
    let d = Seq::new(draw.len(), |k: int| (draw[k] % 62) as u8);
    lemma_number(d);
    assert(span_of(7) == CODES) by {
        reveal_with_fuel(span_of, 8);
    }
    assert(code_bytes(instance, d) =~= code_bytes(instance, draw));
    number_of(d)
}

proof fn lemma_draw_number(n: int, len: nat)
    requires
        0 <= n < span_of(len),
    ensures
        number_of(draw_of(n, len)) == n,
        draw_of(n, len).len() == len,
        forall|k: int| 0 <= k < len ==> #[trigger] draw_of(n, len)[k] < 62,
    decreases len,
{
    if len > 0 {
        let rest = draw_of(n / 62, (len - 1) as nat);
        lemma_draw_number(n / 62, (len - 1) as nat);
        let d = draw_of(n, len);
        assert(d.skip(1) =~= rest);
        assert forall|k: int| 0 <= k < len implies #[trigger] d[k] < 62 by {
            if k > 0 {
                assert(d[k] == rest[k - 1]);
            }
        }
    }
}

/// Two numbers have two codes.
proof fn lemma_codes_apart(instance: int, m: int, n: int)
    requires
        0 <= m < n < CODES,
    ensures
        code_of(instance, draw_of(m, SUFFIX_LEN as nat)) != code_of(
            instance,
            draw_of(n, SUFFIX_LEN as nat),
        ),
{
    assert(span_of(7) == CODES) by {
        reveal_with_fuel(span_of, 8);
    }
    let a = draw_of(m, 7);
    let b = draw_of(n, 7);
    lemma_draw_number(m, 7);
    lemma_draw_number(n, 7);
    let x = code_of(instance, a);
    let y = code_of(instance, b);
    if x == y {
        assert forall|k: int| 0 <= k < 7 implies a[k] == b[k] by {
            assert(x[k + 1] as u8 == base62::digit62(a[k] as int % 62));
            assert(y[k + 1] as u8 == base62::digit62(b[k] as int % 62));
            base62::law_letter_reads_back(a[k] as int % 62);
            base62::law_letter_reads_back(b[k] as int % 62);
        }
        assert(a =~= b);
    }
}

/// The codes of the numbers below one.
spec fn codes_below(instance: int, n: nat) -> Set<Seq<char>>
    decreases n,
{
    if n == 0 {
        Set::empty()
    } else {
        codes_below(instance, (n - 1) as nat).insert(
            code_of(instance, draw_of(n - 1, SUFFIX_LEN as nat)),
        )
    }
}

proof fn lemma_codes_below(instance: int, n: nat)
    requires
        n <= CODES,
    ensures
        codes_below(instance, n).finite(),
        codes_below(instance, n).len() == n,
        forall|c: Seq<char>| #[trigger]
            codes_below(instance, n).contains(c) ==> exists|m: int|
                0 <= m < n && c == code_of(instance, #[trigger] draw_of(m, SUFFIX_LEN as nat)),
    decreases n,
{
    if n > 0 {
        let before = codes_below(instance, (n - 1) as nat);
        let c = code_of(instance, draw_of(n - 1, SUFFIX_LEN as nat));
        lemma_codes_below(instance, (n - 1) as nat);
        if before.contains(c) {
            let m = choose|m: int|
                0 <= m < n - 1 && c == code_of(instance, #[trigger] draw_of(m, SUFFIX_LEN as nat));
            lemma_codes_apart(instance, m, n - 1);
        }
    }
}

/// A store with fewer links than an instance can make codes has a free one.
pub proof fn law_some_code_is_free(instance: i32, rows: Map<Seq<char>, Row>)
    requires
        rows.dom().finite(),
        rows.dom().len() < CODES,
    ensures
        !all_taken(instance, rows),
{
    if all_taken(instance, rows) {
        let all = codes_below(instance as int, CODES as nat);
        lemma_codes_below(instance as int, CODES as nat);
        assert forall|c: Seq<char>| #[trigger] all.contains(c) implies rows.dom().contains(c) by {
            let m = choose|m: int|
                0 <= m < CODES && c == code_of(
                    instance as int,
                    #[trigger] draw_of(m, SUFFIX_LEN as nat),
                );
            lemma_draw_len(m, SUFFIX_LEN as nat);
            assert(generated(instance as int, c));
        }
        vstd::set_lib::lemma_len_subset(all, rows.dom());
    }
}

/// The random bytes that a number stands for.
fn draw_from(n: u64) -> (r: Vec<u8>)
    ensures
        r@ == draw_of(n as int, SUFFIX_LEN as nat),
{
    let mut r: Vec<u8> = Vec::new();
    let mut rest: u64 = n;
    let mut k: usize = 0;
    assert(r@ + draw_of(n as int, SUFFIX_LEN as nat) =~= draw_of(n as int, SUFFIX_LEN as nat));
    while k < SUFFIX_LEN
        invariant
            k <= SUFFIX_LEN,
            r@ + draw_of(rest as int, (SUFFIX_LEN - k) as nat) == draw_of(
                n as int,
                SUFFIX_LEN as nat,
            ),
        decreases SUFFIX_LEN - k,
    {
        let ghost was = r@;
        let ghost left = (SUFFIX_LEN - k) as nat;
        r.push((rest % 62) as u8);
        assert(r@ + draw_of(rest as int / 62, (left - 1) as nat) =~= was + draw_of(
            rest as int,
            left,
        ));
        rest = rest / 62;
        k += 1;
    }
    assert(r@ + draw_of(rest as int, 0) =~= r@);
    r
}

// ---------- what is stored ----------

/// A link as callers see it.
pub struct Link {
    pub code: String,
    pub url: String,
    pub hits: i64,
    pub created_at: i64,
    pub expires_at: Option<i64>,
}

/// What a link says.
pub ghost struct LinkView {
    pub code: Seq<char>,
    pub url: Seq<char>,
    pub hits: i64,
    pub created_at: i64,
    pub expires_at: Option<i64>,
}

impl View for Link {
    type V = LinkView;

    open spec fn view(&self) -> LinkView {
        LinkView {
            code: self.code@,
            url: self.url@,
            hits: self.hits,
            created_at: self.created_at,
            expires_at: self.expires_at,
        }
    }
}

/// The url, when it was stored, when it expires (0 for never), the instance
/// that owns it, its hits, and those of the hits that this instance counted.
struct Entry {
    u: String,
    a: i64,
    e: i64,
    i: i32,
    h: i64,
    oh: i64,
}

/// One link of the store: the url, when it was stored, when it expires (0 for
/// never), the instance that owns it, its hits, and those of the hits that this
/// instance counted.
pub ghost struct Row {
    pub u: Seq<char>,
    pub a: i64,
    pub e: i64,
    pub i: i32,
    pub h: i64,
    pub oh: i64,
}

impl View for Entry {
    type V = Row;

    closed spec fn view(&self) -> Row {
        Row { u: self.u@, a: self.a, e: self.e, i: self.i, h: self.h, oh: self.oh }
    }
}

/// Hits of a code whose row is missing: all of them, and those of this
/// instance.
struct StrayHit {
    t: i64,
    o: i64,
}

/// Hits of a code whose row is missing: all of them, and those of this
/// instance.
pub ghost struct Stray {
    pub t: i64,
    pub o: i64,
}

impl View for StrayHit {
    type V = Stray;

    closed spec fn view(&self) -> Stray {
        Stray { t: self.t, o: self.o }
    }
}

/// What became of an update or a removal.
#[derive(Debug, PartialEq, Eq, Clone, Copy, Structural)]
pub enum MutResult {
    Done,
    Missing,
    Remote,
}

/// What became of a lookup.
pub enum Lookup {
    /// The url; the hit was counted.
    Hit(String),
    /// The link is there and has expired.
    Expired,
    /// There is no such link.
    Miss,
}

/// Why a store could not be opened.
#[derive(Debug, PartialEq, Eq, Clone, Copy, Structural)]
pub enum OpenError {
    /// An instance id was to be claimed, and none was free.
    NoFreeId,
    /// There are not as many instances.
    TooHigh(i32),
}

struct Shard {
    data: FxHashMap<String, Entry>,
    dirty: FxHashMap<String, i64>,
}

/// The links of one instance, with what it knows of the others.
pub struct Store {
    shards: Vec<Shard>,
    stray: FxHashMap<String, StrayHit>,
    readers: FxHashMap<String, TailReader>,
    last_poll: i64,
    log: Option<Aof>,
    instance: i32,
    track: bool,
}

/// What a store holds: the links by code, the hits not yet logged, the hits of
/// codes whose rows are missing, how far each sibling was read, when the
/// siblings were last read, the log (none if nothing is to last), the id of
/// this instance, and whether hits are counted.
#[verifier::ext_equal]
pub ghost struct StoreView {
    pub rows: Map<Seq<char>, Row>,
    pub dirty: Map<Seq<char>, i64>,
    pub stray: Map<Seq<char>, Stray>,
    pub readers: Map<Seq<char>, TailView>,
    pub last_poll: i64,
    pub log: Option<AofView>,
    pub instance: i32,
    pub track: bool,
}

spec fn shard_rows(s: Shard) -> Map<Seq<char>, Row> {
    fxmap::by_text(s.data@).map_values(|e: Entry| e@)
}

spec fn shard_dirty(s: Shard) -> Map<Seq<char>, i64> {
    fxmap::by_text(s.dirty@)
}

spec fn rows_of(shards: Seq<Shard>) -> Map<Seq<char>, Row> {
    Map::new(
        |t: Seq<char>| shard_rows(shards[shard_ix(t)]).contains_key(t),
        |t: Seq<char>| shard_rows(shards[shard_ix(t)])[t],
    )
}

spec fn dirty_of(shards: Seq<Shard>) -> Map<Seq<char>, i64> {
    Map::new(
        |t: Seq<char>| shard_dirty(shards[shard_ix(t)]).contains_key(t),
        |t: Seq<char>| shard_dirty(shards[shard_ix(t)])[t],
    )
}

/// Every code stands in the part that it belongs in, and there are not endlessly many.
spec fn shards_ok(shards: Seq<Shard>) -> bool {
    &&& shards.len() == NUM_SHARDS
    &&& rows_of(shards).dom().finite()
    &&& forall|k: int, t: Seq<char>|
        0 <= k < NUM_SHARDS && #[trigger] shard_rows(shards[k]).contains_key(t) ==> shard_ix(t) == k
    &&& forall|k: int, t: Seq<char>|
        0 <= k < NUM_SHARDS && #[trigger] shard_dirty(shards[k]).contains_key(t) ==> shard_ix(t)
            == k
}

impl View for Store {
    type V = StoreView;

    closed spec fn view(&self) -> StoreView {
        StoreView {
            rows: rows_of(self.shards@),
            dirty: dirty_of(self.shards@),
            stray: fxmap::by_text(self.stray@).map_values(|s: StrayHit| s@),
            readers: fxmap::by_text(self.readers@).map_values(|r: TailReader| r@),
            last_poll: self.last_poll,
            log: match self.log {
                Some(l) => Some(l@),
                None => None,
            },
            instance: self.instance,
            track: self.track,
        }
    }
}

proof fn lemma_shard_range(t: Seq<char>)
    ensures
        0 <= shard_ix(t) < NUM_SHARDS,
{
}

/// One part changed at one code.
proof fn lemma_set_row(a: Seq<Shard>, b: Seq<Shard>, t: Seq<char>, e: Row)
    requires
        shards_ok(a),
        b == a.update(shard_ix(t), b[shard_ix(t)]),
        shard_rows(b[shard_ix(t)]) == shard_rows(a[shard_ix(t)]).insert(t, e),
        shard_dirty(b[shard_ix(t)]) == shard_dirty(a[shard_ix(t)]),
    ensures
        shards_ok(b),
        rows_of(b) == rows_of(a).insert(t, e),
        dirty_of(b) == dirty_of(a),
{
    lemma_shard_range(t);
    assert(rows_of(b) =~= rows_of(a).insert(t, e));
    assert(dirty_of(b) =~= dirty_of(a));
}

proof fn lemma_drop_row(a: Seq<Shard>, b: Seq<Shard>, t: Seq<char>)
    requires
        shards_ok(a),
        b == a.update(shard_ix(t), b[shard_ix(t)]),
        shard_rows(b[shard_ix(t)]) == shard_rows(a[shard_ix(t)]).remove(t),
        shard_dirty(b[shard_ix(t)]) == shard_dirty(a[shard_ix(t)]),
    ensures
        shards_ok(b),
        rows_of(b) == rows_of(a).remove(t),
        dirty_of(b) == dirty_of(a),
{
    lemma_shard_range(t);
    assert(rows_of(b) =~= rows_of(a).remove(t));
    assert(dirty_of(b) =~= dirty_of(a));
}

proof fn lemma_set_dirty(a: Seq<Shard>, b: Seq<Shard>, t: Seq<char>, n: i64)
    requires
        shards_ok(a),
        b == a.update(shard_ix(t), b[shard_ix(t)]),
        shard_rows(b[shard_ix(t)]) == shard_rows(a[shard_ix(t)]),
        shard_dirty(b[shard_ix(t)]) == shard_dirty(a[shard_ix(t)]).insert(t, n),
    ensures
        shards_ok(b),
        rows_of(b) == rows_of(a),
        dirty_of(b) == dirty_of(a).insert(t, n),
{
    lemma_shard_range(t);
    assert(rows_of(b) =~= rows_of(a));
    assert(dirty_of(b) =~= dirty_of(a).insert(t, n));
}

proof fn lemma_shard_set(s: Shard, t: Shard, k: Seq<char>, e: Entry)
    requires
        fxmap::by_text(t.data@) == fxmap::by_text(s.data@).insert(k, e),
    ensures
        shard_rows(t) == shard_rows(s).insert(k, e@),
{
    assert(shard_rows(t) =~= shard_rows(s).insert(k, e@));
}

// ---------- what the operations do ----------

/// When a link that is stored now expires.
pub open spec fn expiry(now: i64, ttl_ms: i64) -> i64 {
    if ttl_ms > 0 {
        now.wrapping_add(ttl_ms)
    } else {
        0
    }
}

/// A link that has not expired.
pub open spec fn live(r: Row, now: i64) -> bool {
    r.e == 0 || r.e > now
}

/// A link as it is first stored.
pub open spec fn new_row(url: Seq<char>, now: i64, exp: i64, instance: i32) -> Row {
    Row { u: url, a: now, e: exp, i: instance, h: 0, oh: 0 }
}

/// The line of the log that says what a row is, with some hits.
pub open spec fn row_line_of(code: Seq<char>, r: Row, hits: i64) -> Seq<u8> {
    codec::row_bytes(
        encode_utf8(code),
        encode_utf8(r.u),
        r.a as int,
        r.e as int,
        r.i as int,
        hits as int,
    )
}

/// The log with one more line, if there is a log.
pub open spec fn queued(log: Option<AofView>, line: Seq<u8>) -> Option<AofView> {
    match log {
        Some(l) => Some(AofView { queued: l.queued + line + seq![NL], ..l }),
        None => None,
    }
}

/// The log with everything handed over.
pub open spec fn flushed(log: Option<AofView>) -> Option<AofView> {
    match log {
        Some(l) => Some(AofView { queued: Seq::empty(), flushed: l.flushed + l.queued }),
        None => None,
    }
}

/// The log, flushed if much is queued.
pub open spec fn spilled(log: Option<AofView>) -> Option<AofView> {
    match log {
        Some(l) => if l.queued.len() > FLUSH_BYTES {
            flushed(log)
        } else {
            log
        },
        None => None,
    }
}

/// A store with one more link.
pub open spec fn created(
    s: StoreView,
    code: Seq<char>,
    url: Seq<char>,
    now: i64,
    ttl_ms: i64,
) -> StoreView {
    let r = new_row(url, now, expiry(now, ttl_ms), s.instance);
    StoreView {
        rows: s.rows.insert(code, r),
        log: spilled(queued(s.log, row_line_of(code, r, 0))),
        ..s
    }
}

/// What creating a link comes to. An alias is taken or it is not; where a code
/// is made, it is one that is free, and there is none only if all are taken.
pub open spec fn shortened(
    s: StoreView,
    url: Seq<char>,
    alias: Option<Seq<char>>,
    ttl_ms: i64,
    now: i64,
    r: Option<Seq<char>>,
    t: StoreView,
) -> bool {
    match alias {
        Some(a) => if s.rows.contains_key(a) {
            r is None && t == s
        } else {
            r == Some(a) && t == created(s, a, url, now, ttl_ms)
        },
        None => match r {
            Some(c) => generated(s.instance as int, c) && !s.rows.contains_key(c) && t == created(
                s,
                c,
                url,
                now,
                ttl_ms,
            ),
            None => t == s && all_taken(s.instance, s.rows),
        },
    }
}

/// Every code that an instance may make is stored.
pub open spec fn all_taken(instance: i32, rows: Map<Seq<char>, Row>) -> bool {
    forall|c: Seq<char>| #[trigger] generated(instance as int, c) ==> rows.contains_key(c)
}

/// A store in which one more hit of a code was counted.
pub open spec fn counted(s: StoreView, code: Seq<char>) -> StoreView {
    if s.track {
        let r = s.rows[code];
        let d: i64 = if s.dirty.contains_key(code) {
            s.dirty[code]
        } else {
            0
        };
        StoreView {
            rows: s.rows.insert(
                code,
                Row { h: r.h.wrapping_add(1), oh: r.oh.wrapping_add(1), ..r },
            ),
            dirty: s.dirty.insert(code, d.wrapping_add(1)),
            ..s
        }
    } else {
        s
    }
}

/// What a lookup comes to.
pub open spec fn looked_up(
    s: StoreView,
    code: Seq<char>,
    now: i64,
    r: Lookup,
    t: StoreView,
) -> bool {
    if !s.rows.contains_key(code) {
        r is Miss && t == s
    } else if !live(s.rows[code], now) {
        r is Expired && t == s
    } else {
        r is Hit && r->0@ == s.rows[code].u && t == counted(s, code)
    }
}

/// What resolving a code comes to.
pub open spec fn resolved(
    s: StoreView,
    code: Seq<char>,
    now: i64,
    r: Option<Seq<char>>,
    t: StoreView,
) -> bool {
    if s.rows.contains_key(code) && live(s.rows[code], now) {
        r == Some(s.rows[code].u) && t == counted(s, code)
    } else {
        r is None && t == s
    }
}

/// What updating a link comes to: only its owner may, the time it was stored
/// and its hits stay, and without a ttl its expiry stays too.
pub open spec fn updated(
    s: StoreView,
    code: Seq<char>,
    url: Seq<char>,
    ttl_ms: i64,
    has_ttl: bool,
    now: i64,
    r: MutResult,
    t: StoreView,
) -> bool {
    if !s.rows.contains_key(code) {
        r == MutResult::Missing && t == s
    } else if s.rows[code].i != s.instance {
        r == MutResult::Remote && t == s
    } else {
        let was = s.rows[code];
        let row = Row {
            u: url,
            e: if has_ttl {
                expiry(now, ttl_ms)
            } else {
                was.e
            },
            ..was
        };
        r == MutResult::Done && t == StoreView {
            rows: s.rows.insert(code, row),
            log: queued(s.log, row_line_of(code, row, 0)),
            ..s
        }
    }
}

/// What removing a link comes to.
pub open spec fn removed(s: StoreView, code: Seq<char>, r: MutResult, t: StoreView) -> bool {
    if !s.rows.contains_key(code) {
        r == MutResult::Missing && t == s
    } else if s.rows[code].i != s.instance {
        r == MutResult::Remote && t == s
    } else {
        r == MutResult::Done && t == StoreView {
            rows: s.rows.remove(code),
            log: queued(s.log, codec::del_bytes(encode_utf8(code))),
            ..s
        }
    }
}

/// A row as callers see it.
pub open spec fn link_of(code: Seq<char>, r: Row) -> LinkView {
    LinkView {
        code,
        url: r.u,
        hits: r.h,
        created_at: r.a,
        expires_at: if r.e != 0 {
            Some(r.e)
        } else {
            None
        },
    }
}

/// The rows with several new links put in one after the other.
pub open spec fn many_rows(
    rows: Map<Seq<char>, Row>,
    codes: Seq<Seq<char>>,
    urls: Seq<Seq<char>>,
    now: i64,
    exp: i64,
    instance: i32,
) -> Map<Seq<char>, Row>
    decreases codes.len(),
{
    if codes.len() == 0 {
        rows
    } else {
        many_rows(rows, codes.drop_last(), urls, now, exp, instance).insert(
            codes.last(),
            new_row(urls[codes.len() - 1], now, exp, instance),
        )
    }
}

/// The log lines of several new links.
pub open spec fn many_lines(
    codes: Seq<Seq<char>>,
    urls: Seq<Seq<char>>,
    now: i64,
    exp: i64,
    instance: i32,
) -> Seq<u8>
    decreases codes.len(),
{
    if codes.len() == 0 {
        Seq::empty()
    } else {
        many_lines(codes.drop_last(), urls, now, exp, instance) + row_line_of(
            codes.last(),
            new_row(urls[codes.len() - 1], now, exp, instance),
            0,
        ) + seq![NL]
    }
}

/// The log with more bytes, if there is a log.
pub open spec fn queued_raw(log: Option<AofView>, bytes: Seq<u8>) -> Option<AofView> {
    match log {
        Some(l) => Some(AofView { queued: l.queued + bytes, ..l }),
        None => None,
    }
}

/// What creating many links comes to: each url gets a code of its own that was
/// free; some get none only if all codes are taken then.
pub open spec fn shortened_many(
    s: StoreView,
    urls: Seq<Seq<char>>,
    ttl_ms: i64,
    now: i64,
    codes: Seq<Seq<char>>,
    t: StoreView,
) -> bool {
    let exp = expiry(now, ttl_ms);
    &&& codes.len() <= urls.len()
    &&& forall|k: int|
        0 <= k < codes.len() ==> generated(s.instance as int, #[trigger] codes[k])
            && !s.rows.contains_key(codes[k])
    &&& forall|j: int, k: int| 0 <= j < k < codes.len() ==> codes[j] != codes[k]
    &&& t == StoreView {
        rows: many_rows(s.rows, codes, urls, now, exp, s.instance),
        log: spilled(queued_raw(s.log, many_lines(codes, urls, now, exp, s.instance))),
        ..s
    }
    &&& codes.len() < urls.len() ==> all_taken(s.instance, t.rows)
}

/// `codes` lists the members of a set, each once.
pub open spec fn enumerates(codes: Seq<Seq<char>>, d: Set<Seq<char>>) -> bool {
    &&& forall|j: int, k: int| 0 <= j < k < codes.len() ==> codes[j] != codes[k]
    &&& forall|k: int| 0 <= k < codes.len() ==> d.contains(#[trigger] codes[k])
    &&& forall|t: Seq<char>| #[trigger]
        d.contains(t) ==> exists|k: int| 0 <= k < codes.len() && #[trigger] codes[k] == t
}

/// The log lines of the hits of several codes.
pub open spec fn hit_lines(
    codes: Seq<Seq<char>>,
    dirty: Map<Seq<char>, i64>,
    instance: i32,
) -> Seq<u8>
    decreases codes.len(),
{
    if codes.len() == 0 {
        Seq::empty()
    } else {
        hit_lines(codes.drop_last(), dirty, instance) + codec::hit_bytes(
            encode_utf8(codes.last()),
            dirty[codes.last()] as int,
            instance as int,
        ) + seq![NL]
    }
}

/// What a flush comes to: the hits of every code are logged, in some order, and
/// everything that is queued is handed over.
pub open spec fn flushed_with(s: StoreView, codes: Seq<Seq<char>>, t: StoreView) -> bool {
    match s.log {
        Some(l) => enumerates(codes, s.dirty.dom()) && t == StoreView {
            dirty: Map::empty(),
            log: Some(
                AofView {
                    queued: Seq::empty(),
                    flushed: l.flushed + (l.queued + hit_lines(codes, s.dirty, s.instance)),
                },
            ),
            ..s
        },
        None => t == s,
    }
}

/// The codes that this instance owns.
pub open spec fn own_codes(s: StoreView) -> Set<Seq<char>> {
    Set::new(|t: Seq<char>| s.rows.contains_key(t) && s.rows[t].i == s.instance)
}

/// The lines of a snapshot: the rows of several codes, with the hits that this
/// instance counted.
pub open spec fn snap_lines(codes: Seq<Seq<char>>, rows: Map<Seq<char>, Row>) -> Seq<u8>
    decreases codes.len(),
{
    if codes.len() == 0 {
        Seq::empty()
    } else {
        snap_lines(codes.drop_last(), rows) + row_line_of(
            codes.last(),
            rows[codes.last()],
            rows[codes.last()].oh,
        ) + seq![NL]
    }
}

/// What storing the first links comes to: they never expire, and all is handed over to be
/// written.
pub open spec fn seeded(s: StoreView, urls: Seq<Seq<char>>, t: StoreView) -> bool {
    exists|now: i64, codes: Seq<Seq<char>>, mid: StoreView, hits: Seq<Seq<char>>|
        #[trigger] shortened_many(s, urls, 0, now, codes, mid) && #[trigger] flushed_with(
            mid,
            hits,
            t,
        )
}

/// What has to be written to the log is handed out, and is not there any more.
pub open spec fn log_taken(s: StoreView, bytes: Seq<u8>, t: StoreView) -> bool {
    match s.log {
        Some(l) => bytes == l.flushed && t == StoreView {
            log: Some(AofView { flushed: Seq::empty(), ..l }),
            ..s
        },
        None => bytes == Seq::<u8>::empty() && t == s,
    }
}

/// What a compaction comes to: a snapshot of the own links, in some order, to take the place
/// of the log, of which nothing is left to be written; nothing where there is no log.
pub open spec fn compacted(s: StoreView, snap: Option<Seq<u8>>, t: StoreView) -> bool {
    match (s.log, snap) {
        (Some(_), Some(b)) => t == StoreView {
            dirty: Map::empty(),
            log: Some(AofView { queued: Seq::empty(), flushed: Seq::empty() }),
            ..s
        } && exists|codes: Seq<Seq<char>>| #[trigger]
            enumerates(codes, own_codes(s)) && b == snap_lines(codes, s.rows),
        (None, None) => t == s,
        _ => false,
    }
}

/// `found` are the links that are wanted, each once.
pub open spec fn found_in(rows: Map<Seq<char>, Row>, q: Seq<char>, found: Seq<LinkView>) -> bool {
    &&& forall|j: int, k: int|
        0 <= j < k < found.len() ==> (#[trigger] found[j]).code != (#[trigger] found[k]).code
    &&& forall|k: int|
        0 <= k < found.len() ==> rows.contains_key((#[trigger] found[k]).code) && found[k]
            == link_of(found[k].code, rows[found[k].code]) && listing::wanted(found[k], q)
    &&& forall|c: Seq<char>| #[trigger]
        rows.contains_key(c) && listing::wanted(link_of(c, rows[c]), q) ==> exists|k: int|
            0 <= k < found.len() && (#[trigger] found[k]).code == c
}

/// What a line of a log makes of a store that has room for the hits of one more
/// missing row.
pub open spec fn applied(s: StoreView, o: OpView) -> StoreView {
    if o.x.len() > 0 {
        StoreView { rows: s.rows.remove(o.x), stray: s.stray.remove(o.x), ..s }
    } else if o.h.len() > 0 {
        let d = o.d as i64;
        let own = s.instance == o.i;
        if s.rows.contains_key(o.h) {
            let r = s.rows[o.h];
            StoreView {
                rows: s.rows.insert(
                    o.h,
                    Row {
                        h: r.h.wrapping_add(d),
                        oh: if own {
                            r.oh.wrapping_add(d)
                        } else {
                            r.oh
                        },
                        ..r
                    },
                ),
                ..s
            }
        } else {
            let st = stray_of(s, o.h);
            StoreView {
                stray: s.stray.insert(
                    o.h,
                    Stray {
                        t: st.t.wrapping_add(d),
                        o: if own {
                            st.o.wrapping_add(d)
                        } else {
                            st.o
                        },
                    },
                ),
                ..s
            }
        }
    } else if o.c.len() > 0 {
        let n = o.n as i64;
        let st = stray_of(s, o.c);
        StoreView {
            rows: s.rows.insert(
                o.c,
                Row {
                    u: o.u,
                    a: o.a as i64,
                    e: if o.has_e {
                        o.e as i64
                    } else {
                        0
                    },
                    i: o.i as i32,
                    h: n.wrapping_add(st.t),
                    oh: n.wrapping_add(st.o),
                },
            ),
            stray: s.stray.remove(o.c),
            ..s
        }
    } else {
        s
    }
}

/// The hits of a code whose row is missing.
pub open spec fn stray_of(s: StoreView, code: Seq<char>) -> Stray {
    if s.stray.contains_key(code) {
        s.stray[code]
    } else {
        Stray { t: 0, o: 0 }
    }
}

/// The line holds hits of a missing row, and those of too many are kept.
pub open spec fn crowded(s: StoreView, o: OpView) -> bool {
    o.x.len() == 0 && o.h.len() > 0 && !s.rows.contains_key(o.h) && s.stray.dom().len()
        >= MAX_STRAY_HITS
}

/// What a line of a log makes of a store. Where the hits of too many missing
/// rows are kept, those of one of them are forgotten first, whichever it is.
pub open spec fn applies(s: StoreView, o: OpView, t: StoreView) -> bool {
    if crowded(s, o) {
        exists|k: Seq<char>|
            s.stray.contains_key(k) && t == applied(
                StoreView { stray: #[trigger] s.stray.remove(k), ..s },
                o,
            )
    } else {
        t == applied(s, o)
    }
}

/// What the bytes of one line make of a store.
pub open spec fn line_applies(s: StoreView, line: Seq<u8>, t: StoreView) -> bool {
    let (o, counts) = codec::op_of(line);
    if counts {
        applies(s, o, t)
    } else {
        t == s
    }
}

/// What several lines make of a store, one after the other.
pub open spec fn replays(s: StoreView, lines: Seq<Seq<u8>>, t: StoreView) -> bool
    decreases lines.len(),
{
    if lines.len() == 0 {
        t == s
    } else {
        exists|mid: StoreView|
            replays(s, lines.drop_last(), mid) && #[trigger] line_applies(mid, lines.last(), t)
    }
}

/// The sibling logs that are followed, with those newly found.
pub open spec fn discovered(
    readers: Map<Seq<char>, TailView>,
    names: Seq<Seq<char>>,
) -> Map<Seq<char>, TailView>
    decreases names.len(),
{
    if names.len() == 0 {
        readers
    } else {
        followed(discovered(readers, names.drop_last()), names.last())
    }
}

/// The sibling logs that are followed, with one more.
pub open spec fn followed(readers: Map<Seq<char>, TailView>, name: Seq<char>) -> Map<
    Seq<char>,
    TailView,
> {
    if readers.contains_key(name) {
        readers
    } else {
        readers.insert(name, aof::tail_start(name))
    }
}

/// What a store takes in of a log that is followed, when some bytes of it were read: the
/// lines that are complete now.
pub open spec fn read_on(s: StoreView, name: Seq<char>, chunk: Seq<u8>, t: StoreView) -> bool {
    if s.readers.contains_key(name) {
        let r = s.readers[name];
        replays(
            StoreView { readers: s.readers.insert(name, aof::tail_after(r, chunk)), ..s },
            aof::lines(r.leftover + chunk),
            t,
        )
    } else {
        t == s
    }
}

/// What a store takes in when it is opened: its own snapshot and log.
pub open spec fn reopened(s: StoreView, snap: Seq<u8>, log: Seq<u8>, t: StoreView) -> bool {
    exists|mid: StoreView|
        #[trigger] replays(s, aof::lines(snap), mid) && #[trigger] replays(mid, aof::lines(log), t)
}

/// The logs of siblings and what their snapshots hold.
pub open spec fn sibling_views(v: Seq<(String, Vec<u8>)>) -> Seq<(Seq<char>, Seq<u8>)> {
    Seq::new(v.len(), |i: int| (v[i].0@, v[i].1@))
}

/// What a store takes in of its siblings when it is opened: the snapshot of
/// each, whose log is then followed from the start.
pub open spec fn joined(s: StoreView, siblings: Seq<(Seq<char>, Seq<u8>)>, t: StoreView) -> bool
    decreases siblings.len(),
{
    if siblings.len() == 0 {
        t == s
    } else {
        exists|a: StoreView, b: StoreView|
            {
                &&& joined(s, siblings.drop_last(), a)
                &&& #[trigger] replays(a, aof::lines(siblings.last().1), b)
                &&& t == StoreView {
                    readers: b.readers.insert(
                        siblings.last().0,
                        aof::tail_start(siblings.last().0),
                    ),
                    ..b
                }
            }
    }
}

/// What has to be read after a miss.
pub enum Missed {
    /// Nothing.
    Nothing,
    /// The log of the sibling that made the code.
    Log(String),
    /// All siblings.
    All,
}

/// A code looks like one that an instance made: it has as many letters as those.
pub open spec fn looks_generated(code: Seq<char>) -> bool {
    let b = encode_utf8(code);
    b.len() == SUFFIX_LEN + 1 && forall|k: int|
        0 <= k < b.len() ==> base62::value62(#[trigger] b[k]) is Some
}

/// The instance that made a code, by its looks, if it is not this one.
pub open spec fn owner_of(code: Seq<char>, instance: int) -> Option<int> {
    if looks_generated(code) {
        match base62::value62(encode_utf8(code)[0]) {
            Some(o) => if o != instance {
                Some(o)
            } else {
                None
            },
            None => None,
        }
    } else {
        None
    }
}

/// What has to be read after a miss, and what is noted of that.
pub open spec fn sought(s: StoreView, code: Seq<char>, now: i64, r: Missed, t: StoreView) -> bool {
    if code.len() == 0 || s.log is None {
        r is Nothing && t == s
    } else {
        match owner_of(code, s.instance as int) {
            Some(o) => r is Log && encode_utf8(r->0@) == log_file(o) && t == (StoreView {
                readers: followed(s.readers, r->0@),
                last_poll: now,
                ..s
            }),
            None => t == s && (if now.wrapping_sub(s.last_poll) >= TAIL_MIN_INTERVAL {
                r is All
            } else {
                r is Nothing
            }),
        }
    }
}

/// Every code that an instance makes is taken for one of its own.
pub proof fn law_generated_code_names_its_owner(owner: int, instance: int, code: Seq<char>)
    requires
        0 <= owner < MAX_INSTANCES,
        owner != instance,
        generated(owner, code),
    ensures
        owner_of(code, instance) == Some(owner),
{
    let draw = choose|draw: Seq<u8>|
        draw.len() == SUFFIX_LEN && code == #[trigger] code_of(owner, draw);
    let b = code_bytes(owner, draw);
    base62::law_letter_reads_back(owner);
    assert forall|k: int| 0 <= k < b.len() implies base62::value62(#[trigger] b[k]) is Some && b[k]
        < 128 by {
        if k > 0 {
            base62::law_letter_reads_back(draw[k - 1] as int % 62);
        }
    }
    text::lemma_ascii_text(b);
    assert(encode_utf8(code) == b);
}

/// Whether a code looks like one that an instance made.
fn seems_generated(code: &[u8]) -> (r: bool)
    ensures
        r == (code@.len() == SUFFIX_LEN + 1 && forall|k: int|
            0 <= k < code@.len() ==> base62::value62(#[trigger] code@[k]) is Some),
{
    if code.len() != SUFFIX_LEN + 1 {
        return false;
    }
    let mut i: usize = 0;
    while i < code.len()
        invariant
            i <= code@.len(),
            forall|k: int| 0 <= k < i ==> base62::value62(#[trigger] code@[k]) is Some,
        decreases code@.len() - i,
    {
        if base62::alpha_idx(code[i]) < 0 {
            assert(base62::value62(code@[i as int]) is None);
            return false;
        }
        i += 1;
    }
    true
}

/// A string that may not be there.
pub open spec fn opt_text(s: Option<&str>) -> Option<Seq<char>> {
    match s {
        Some(t) => Some(t@),
        None => None,
    }
}

/// A string that may not be there.
pub open spec fn opt_string(s: Option<String>) -> Option<Seq<char>> {
    match s {
        Some(t) => Some(t@),
        None => None,
    }
}

/// What a fresh store holds.
pub open spec fn fresh(log: Option<AofView>, instance: i32) -> StoreView {
    StoreView {
        rows: Map::empty(),
        dirty: Map::empty(),
        stray: Map::empty(),
        readers: Map::empty(),
        last_poll: 0,
        log,
        instance,
        track: true,
    }
}

/// Whether the id of an instance has to be claimed before its store is opened.
pub open spec fn claims(dir: Seq<char>, instance: i32) -> bool {
    dir != ":memory:"@ && instance < 0
}

/// Whether the id of an instance has to be claimed before its store is opened.
pub fn must_claim(dir: &str, instance: i32) -> (r: bool)
    ensures
        r == claims(dir@, instance),
{
    instance < 0 && !text::same(dir, ":memory:")
}

/// The id of the instance whose links are to last, if there is one: the one asked for, or
/// where that is negative the one that was claimed.
pub open spec fn wanted_id(instance: i32, claimed: Option<i32>) -> Option<i32> {
    if instance >= 0 {
        Some(instance)
    } else {
        claimed
    }
}

/// The name of the log of an instance.
pub open spec fn log_file(instance: int) -> Seq<u8> {
    text::lit("data-") + text::decimal(instance) + text::lit(".log")
}

impl Store {
    /// Every link stands where it is looked for, and the instance has a letter.
    pub closed spec fn wf(&self) -> bool {
        shards_ok(self.shards@) && 0 <= self.instance < MAX_INSTANCES
    }

    /// What every store keeps to: the instance has a letter, and the links can be counted.
    pub proof fn law_store_is_bounded(&self)
        requires
            self.wf(),
        ensures
            0 <= self@.instance < MAX_INSTANCES,
            self@.rows.dom().finite(),
    {
    }

    /// A store that is empty. In `:memory:` nothing lasts and the instance is 0.
    /// Elsewhere the instance is the one asked for; a negative id asks for the lowest that
    /// is free, and `claimed` is then the id that was claimed, if one was free.
    pub fn new(dir: &str, instance: i32, claimed: Option<i32>) -> (r: Result<Store, OpenError>)
        ensures
            dir@ == ":memory:"@ ==> (r matches Ok(s) && s.wf() && s@ == fresh(None, 0)),
            dir@ != ":memory:"@ ==> match wanted_id(instance, claimed) {
                None => r == Err::<Store, _>(OpenError::NoFreeId),
                Some(id) => if 0 <= id < MAX_INSTANCES {
                    r matches Ok(s) && s.wf() && s@ == fresh(
                        Some(AofView { queued: Seq::empty(), flushed: Seq::empty() }),
                        id,
                    )
                } else {
                    r == Err::<Store, _>(OpenError::TooHigh(id))
                },
            },
    {
        let lasting: bool = !text::same(dir, ":memory:");
        let mut id: i32 = 0;
        if lasting {
            if instance >= 0 {
                id = instance;
            } else {
                match claimed {
                    Some(c) => {
                        id = c;
                    },
                    None => {
                        return Err(OpenError::NoFreeId);
                    },
                }
            }
            if id < 0 || id >= MAX_INSTANCES {
                return Err(OpenError::TooHigh(id));
            }
        }
        let mut shards: Vec<Shard> = Vec::new();
        let mut k: usize = 0;
        while k < NUM_SHARDS
            invariant
                k <= NUM_SHARDS,
                shards@.len() == k,
                forall|i: int| 0 <= i < k ==> #[trigger] shard_rows(shards@[i]) == Map::<Seq<char>, Row>::empty(),
                forall|i: int| 0 <= i < k ==> #[trigger] shard_dirty(shards@[i]) == Map::<Seq<char>, i64>::empty(),
            decreases NUM_SHARDS - k,
        {
            let s = Shard { data: fxmap::fx_new(), dirty: fxmap::fx_new() };
            assert(shard_rows(s) =~= Map::<Seq<char>, Row>::empty());
            shards.push(s);
            k += 1;
        }
        let s = Store {
            shards,
            stray: fxmap::fx_new(),
            readers: fxmap::fx_new(),
            last_poll: 0,
            log: if lasting {
                Some(Aof::new())
            } else {
                None
            },
            instance: id,
            track: true,
        };
        proof {
            assert forall|t: Seq<char>| true implies !(#[trigger] rows_of(s.shards@).contains_key(t)) by {
                lemma_shard_range(t);
            }
            assert forall|t: Seq<char>| true implies !(#[trigger] dirty_of(s.shards@).contains_key(t)) by {
                lemma_shard_range(t);
            }
            assert(s@ =~= fresh(s@.log, s.instance));
            assert(rows_of(s.shards@).dom() =~= Set::empty());
        }
        Ok(s)
    }

    /// The id of this instance.
    pub fn instance(&self) -> (r: i32)
        ensures
            r == self@.instance,
    {
        self.instance
    }

    /// Whether the links are to last.
    pub fn persistent(&self) -> (r: bool)
        ensures
            r == self@.log is Some,
    {
        self.log.is_some()
    }

    /// Has hits counted or not.
    pub fn set_track_hits(&mut self, track: bool)
        requires
            old(self).wf(),
        ensures
            final(self).wf(),
            final(self)@ == (StoreView { track, ..old(self)@ }),
    {
        self.track = track;
        assert(self@ =~= (StoreView { track, ..old(self)@ }));
    }

    /// Whether a code is taken.
    fn taken(&self, code: &str) -> (r: bool)
        requires
            self.wf(),
        ensures
            r == self@.rows.contains_key(code@),
    {
        fxmap::fx_get(&self.shards[shard_of(code)].data, code).is_some()
    }

    /// Stores a link under a code that is free, without a line in the log.
    fn insert_new(&mut self, code: &str, url: &str, now: i64, exp: i64)
        requires
            old(self).wf(),
        ensures
            final(self).wf(),
            final(self)@ == (StoreView {
                rows: old(self)@.rows.insert(code@, new_row(url@, now, exp, old(self)@.instance)),
                ..old(self)@
            }),
    {
        let k: usize = shard_of(code);
        let e = Entry { u: url.to_string(), a: now, e: exp, i: self.instance, h: 0, oh: 0 };
        let ghost a = self.shards@;
        fxmap::fx_insert(&mut self.shards[k].data, code.to_string(), e);
        proof {
            lemma_shard_set(a[k as int], self.shards@[k as int], code@, e);
            lemma_set_row(a, self.shards@, code@, e@);
            assert(self@ =~= (StoreView {
                rows: old(self)@.rows.insert(code@, new_row(url@, now, exp, old(self)@.instance)),
                ..old(self)@
            }));
        }
    }

    /// Queues a line, if there is a log, and flushes if much is queued.
    fn append(&mut self, line: &[u8])
        requires
            old(self).wf(),
        ensures
            final(self).wf(),
            final(self)@ == (StoreView {
                log: spilled(queued(old(self)@.log, line@)),
                ..old(self)@
            }),
    {
        if let Some(l) = &mut self.log {
            l.push(line);
            if l.pending_bytes() > FLUSH_BYTES {
                l.flush();
            }
        }
        assert(self@ =~= (StoreView { log: spilled(queued(old(self)@.log, line@)), ..old(self)@ }));
    }

    /// Stores a link under the code that comes of some random bytes, unless it
    /// is taken.
    pub fn shorten_drawn(&mut self, url: &str, draw: &[u8], ttl_ms: i64, now: i64) -> (r: Option<
        String,
    >)
        requires
            old(self).wf(),
        ensures
            final(self).wf(),
            r is None <==> old(self)@.rows.contains_key(
                code_of(old(self)@.instance as int, draw@),
            ),
            r is None ==> final(self)@ == old(self)@,
            r matches Some(c) ==> c@ == code_of(old(self)@.instance as int, draw@) && final(self)@
                == created(old(self)@, c@, url@, now, ttl_ms),
    {
        let c: String = code_from(self.instance, draw);
        if self.taken(c.as_str()) {
            return None;
        }
        self.create(c.as_str(), url, ttl_ms, now);
        Some(c)
    }

    fn create(&mut self, code: &str, url: &str, ttl_ms: i64, now: i64)
        requires
            old(self).wf(),
        ensures
            final(self).wf(),
            final(self)@ == created(old(self)@, code@, url@, now, ttl_ms),
    {
        let exp: i64 = if ttl_ms > 0 {
            now.wrapping_add(ttl_ms)
        } else {
            0
        };
        self.insert_new(code, url, now, exp);
        if self.log.is_some() {
            let line: Vec<u8> = codec::row_line(code, url, now, exp, self.instance as i64, 0);
            self.append(line.as_slice());
        }
        assert(self@ =~= created(old(self)@, code@, url@, now, ttl_ms));
    }

    /// Creates a link at some time. The result is the code; there is none if the
    /// alias is taken.
    pub fn shorten_at(&mut self, url: &str, alias: Option<&str>, ttl_ms: i64, now: i64) -> (r:
        Option<String>)
        requires
            old(self).wf(),
        ensures
            final(self).wf(),
            shortened(
                old(self)@,
                url@,
                opt_text(alias),
                ttl_ms,
                now,
                opt_string(r),
                final(self)@,
            ),
    {
        match alias {
            Some(a) => {
                if self.taken(a) {
                    return None;
                }
                self.create(a, url, ttl_ms, now);
                Some(a.to_string())
            },
            None => {
                let draw: Vec<u8> = random_bytes(SUFFIX_LEN);
                match self.free_code(draw.as_slice()) {
                    Some(code) => {
                        self.create(code.as_str(), url, ttl_ms, now);
                        Some(code)
                    },
                    None => None,
                }
            },
        }
    }

    /// A code that is free: that of `draw`, of more random bytes, or else of any. There is
    /// none only if all codes of this instance are taken.
    fn free_code(&self, draw: &[u8]) -> (r: Option<String>)
        requires
            self.wf(),
            draw@.len() == SUFFIX_LEN,
        ensures
            r matches Some(c) ==> generated(self@.instance as int, c@) && !self@.rows.contains_key(
                c@,
            ),
            r is None ==> all_taken(self@.instance, self@.rows),
    {
        let mut c: String = code_from(self.instance, draw);
        let mut tries: u64 = MAX_DRAWS;
        while tries > 0
            invariant
                self.wf(),
                generated(self@.instance as int, c@),
            decreases tries,
        {
            if !self.taken(c.as_str()) {
                return Some(c);
            }
            let more: Vec<u8> = random_bytes(SUFFIX_LEN);
            c = code_from(self.instance, more.as_slice());
            tries -= 1;
        }
        self.first_free()
    }

    /// The first code that is free, in the order of the numbers that they stand for.
    fn first_free(&self) -> (r: Option<String>)
        requires
            self.wf(),
        ensures
            r matches Some(c) ==> generated(self@.instance as int, c@) && !self@.rows.contains_key(
                c@,
            ),
            r is None ==> all_taken(self@.instance, self@.rows),
    {
        let mut n: u64 = 0;
        while n < CODES
            invariant
                self.wf(),
                n <= CODES,
                forall|m: int|
                    0 <= m < n ==> self@.rows.contains_key(
                        code_of(
                            self@.instance as int,
                            #[trigger] draw_of(m, SUFFIX_LEN as nat),
                        ),
                    ),
            decreases CODES - n,
        {
            let draw: Vec<u8> = draw_from(n);
            let c: String = code_from(self.instance, draw.as_slice());
            if !self.taken(c.as_str()) {
                proof {
                    lemma_draw_len(n as int, SUFFIX_LEN as nat);
                    assert(generated(self@.instance as int, c@));
                }
                return Some(c);
            }
            n += 1;
        }
        proof {
            assert forall|c: Seq<char>| #[trigger]
                generated(self@.instance as int, c) implies self@.rows.contains_key(c) by {
                let m = lemma_code_number(self@.instance as int, c);
                assert(self@.rows.contains_key(
                    code_of(self@.instance as int, draw_of(m, SUFFIX_LEN as nat)),
                ));
            }
        }
        None
    }

    /// Creates a link. The result is the code; there is none if the alias is
    /// taken.
    pub fn shorten(&mut self, url: &str, alias: Option<&str>, ttl_ms: i64) -> (r: Option<String>)
        requires
            old(self).wf(),
        ensures
            final(self).wf(),
            exists|now: i64| #[trigger]
                shortened(
                    old(self)@,
                    url@,
                    opt_text(alias),
                    ttl_ms,
                    now,
                    opt_string(r),
                    final(self)@,
                ),
    {
        let now: i64 = now_ms();
        self.shorten_at(url, alias, ttl_ms, now)
    }

    /// Counts a hit of a code.
    fn count(&mut self, code: &str)
        requires
            old(self).wf(),
            old(self)@.rows.contains_key(code@),
        ensures
            final(self).wf(),
            final(self)@ == counted(old(self)@, code@),
    {
        if self.track {
            let k: usize = shard_of(code);
            let ghost a = self.shards@;
            let ghost was = fxmap::by_text(a[k as int].data@)[code@];
            if let Some(e) = fxmap::fx_get_mut(&mut self.shards[k].data, code) {
                e.h = e.h.wrapping_add(1);
                e.oh = e.oh.wrapping_add(1);
            }
            let ghost b = self.shards@;
            proof {
                let e = fxmap::by_text(b[k as int].data@)[code@];
                lemma_shard_set(a[k as int], b[k as int], code@, e);
                lemma_set_row(a, b, code@, e@);
            }
            self.bump(code, k);
            assert(self@ =~= counted(old(self)@, code@));
        }
    }

    /// One more hit to be logged.
    fn bump(&mut self, code: &str, k: usize)
        requires
            old(self).wf(),
            k == shard_ix(code@),
        ensures
            final(self).wf(),
            final(self)@ == (StoreView {
                dirty: old(self)@.dirty.insert(
                    code@,
                    (if old(self)@.dirty.contains_key(code@) {
                        old(self)@.dirty[code@]
                    } else {
                        0
                    }).wrapping_add(1),
                ),
                ..old(self)@
            }),
    {
        let ghost a = self.shards@;
        proof {
            lemma_shard_range(code@);
        }
        let n: i64 = match fxmap::fx_get(&self.shards[k].dirty, code) {
            Some(v) => *v,
            None => 0,
        };
        fxmap::fx_insert(&mut self.shards[k].dirty, code.to_string(), n.wrapping_add(1));
        proof {
            lemma_set_dirty(a, self.shards@, code@, n.wrapping_add(1));
        }
        assert(self@ =~= (StoreView {
            dirty: old(self)@.dirty.insert(code@, n.wrapping_add(1)),
            ..old(self)@
        }));
    }

    /// Looks a code up at some time. A link that is there and has not expired is
    /// a hit, which is counted.
    pub fn resolve_at(&mut self, code: &str, now: i64) -> (r: Lookup)
        requires
            old(self).wf(),
        ensures
            final(self).wf(),
            looked_up(old(self)@, code@, now, r, final(self)@),
    {
        let k: usize = shard_of(code);
        let url: String = match fxmap::fx_get(&self.shards[k].data, code) {
            Some(e) => {
                if e.e != 0 && e.e <= now {
                    return Lookup::Expired;
                }
                e.u.clone()
            },
            None => {
                return Lookup::Miss;
            },
        };
        self.count(code);
        Lookup::Hit(url)
    }

    /// The url of a code; none if there is no such link or it has expired. A hit
    /// is counted.
    pub fn resolve(&mut self, code: &str) -> (r: Option<String>)
        requires
            old(self).wf(),
        ensures
            final(self).wf(),
            exists|now: i64| #[trigger]
                resolved(old(self)@, code@, now, opt_string(r), final(self)@),
    {
        let now: i64 = now_ms();
        let r: Option<String> = match self.resolve_at(code, now) {
            Lookup::Hit(url) => Some(url),
            _ => None,
        };
        assert(resolved(old(self)@, code@, now, opt_string(r), self@));
        r
    }

    /// Gives a link another url and, with `has_ttl`, another expiry, at some
    /// time.
    pub fn update_at(&mut self, code: &str, url: &str, ttl_ms: i64, has_ttl: bool, now: i64) -> (r:
        MutResult)
        requires
            old(self).wf(),
        ensures
            final(self).wf(),
            updated(old(self)@, code@, url@, ttl_ms, has_ttl, now, r, final(self)@),
    {
        let k: usize = shard_of(code);
        let ghost a = self.shards@;
        let me: i32 = self.instance;
        let (at, exp): (i64, i64) = match fxmap::fx_get(&self.shards[k].data, code) {
            Some(e) => {
                if e.i != me {
                    return MutResult::Remote;
                }
                let exp: i64 = if has_ttl {
                    if ttl_ms > 0 {
                        now.wrapping_add(ttl_ms)
                    } else {
                        0
                    }
                } else {
                    e.e
                };
                (e.a, exp)
            },
            None => {
                return MutResult::Missing;
            },
        };
        if let Some(e) = fxmap::fx_get_mut(&mut self.shards[k].data, code) {
            e.u = url.to_string();
            e.e = exp;
        }
        proof {
            let e = fxmap::by_text(self.shards@[k as int].data@)[code@];
            lemma_shard_set(a[k as int], self.shards@[k as int], code@, e);
            lemma_set_row(a, self.shards@, code@, e@);
        }
        if let Some(l) = &mut self.log {
            let line: Vec<u8> = codec::row_line(code, url, at, exp, me as i64, 0);
            l.push(line.as_slice());
        }
        proof {
            let row = self@.rows[code@];
            assert(self@ =~= StoreView {
                rows: old(self)@.rows.insert(code@, row),
                log: queued(old(self)@.log, row_line_of(code@, row, 0)),
                ..old(self)@
            });
        }
        MutResult::Done
    }

    /// Gives a link another url and, with `has_ttl`, another expiry: a ttl over 0
    /// counts from now on, any other takes the expiry away.
    pub fn update(&mut self, code: &str, url: &str, ttl_ms: i64, has_ttl: bool) -> (r: MutResult)
        requires
            old(self).wf(),
        ensures
            final(self).wf(),
            exists|now: i64| #[trigger]
                updated(old(self)@, code@, url@, ttl_ms, has_ttl, now, r, final(self)@),
    {
        let now: i64 = now_ms();
        self.update_at(code, url, ttl_ms, has_ttl, now)
    }

    /// Removes a link. Only its owner may.
    pub fn remove(&mut self, code: &str) -> (r: MutResult)
        requires
            old(self).wf(),
        ensures
            final(self).wf(),
            removed(old(self)@, code@, r, final(self)@),
    {
        let k: usize = shard_of(code);
        let ghost a = self.shards@;
        match fxmap::fx_get(&self.shards[k].data, code) {
            Some(e) => {
                if e.i != self.instance {
                    return MutResult::Remote;
                }
            },
            None => {
                return MutResult::Missing;
            },
        }
        let _ = fxmap::fx_remove(&mut self.shards[k].data, code);
        proof {
            assert(shard_rows(self.shards@[k as int]) =~= shard_rows(a[k as int]).remove(code@));
            lemma_drop_row(a, self.shards@, code@);
        }
        if let Some(l) = &mut self.log {
            let line: Vec<u8> = codec::del_line(code);
            l.push(line.as_slice());
        }
        assert(self@ =~= StoreView {
            rows: old(self)@.rows.remove(code@),
            log: queued(old(self)@.log, codec::del_bytes(encode_utf8(code@))),
            ..old(self)@
        });
        MutResult::Done
    }

    /// Whether there is no link.
    pub fn is_empty(&self) -> (r: bool)
        requires
            self.wf(),
        ensures
            r <==> self@.rows == Map::<Seq<char>, Row>::empty(),
    {
        let mut k: usize = 0;
        while k < NUM_SHARDS
            invariant
                self.wf(),
                k <= NUM_SHARDS,
                forall|i: int, t: Seq<char>|
                    0 <= i < k ==> !(#[trigger] shard_rows(self.shards@[i]).contains_key(t)),
            decreases NUM_SHARDS - k,
        {
            if !fxmap::fx_is_empty(&self.shards[k].data) {
                proof {
                    let m = fxmap::by_text(self.shards@[k as int].data@);
                    let t = choose|t: Seq<char>| #[trigger] m.contains_key(t);
                    assert(shard_rows(self.shards@[k as int]).contains_key(t));
                    assert(self@.rows.contains_key(t));
                }
                return false;
            }
            k += 1;
        }
        proof {
            assert forall|t: Seq<char>| true implies !(#[trigger] self@.rows.contains_key(t)) by {
                lemma_shard_range(t);
            }
            assert(self@.rows =~= Map::<Seq<char>, Row>::empty());
        }
        true
    }

    /// All codes.
    fn codes(&self) -> (r: Vec<String>)
        requires
            self.wf(),
        ensures
            enumerates(aof::texts(r@), self@.rows.dom()),
    {
        let mut r: Vec<String> = Vec::new();
        let mut k: usize = 0;
        while k < NUM_SHARDS
            invariant
                self.wf(),
                k <= NUM_SHARDS,
                listed_below(aof::texts(r@), self@.rows.dom(), k as int),
            decreases NUM_SHARDS - k,
        {
            let ghost before = aof::texts(r@);
            let mut keys: Vec<String> = fxmap::fx_keys(&self.shards[k].data);
            let ghost more = aof::texts(keys@);
            proof {
                assert forall|t: Seq<char>|
                    shard_rows(self.shards@[k as int]).contains_key(t) implies #[trigger] self@.rows.contains_key(t) by {}
                assert forall|t: Seq<char>|
                    #[trigger] self@.rows.dom().contains(t) && shard_ix(t) == k implies exists|j: int|
                        0 <= j < more.len() && #[trigger] more[j] == t by {
                    assert(fxmap::by_text(self.shards@[k as int].data@).contains_key(t));
                    let j = choose|j: int| 0 <= j < keys@.len() && (#[trigger] keys@[j])@ == t;
                    assert(more[j] == t);
                }
                assert forall|j: int| 0 <= j < more.len() implies self@.rows.dom().contains(#[trigger] more[j]) && shard_ix(more[j]) == k by {
                    assert(fxmap::by_text(self.shards@[k as int].data@).contains_key(keys@[j]@));
                    assert(shard_rows(self.shards@[k as int]).contains_key(more[j]));
                }
            }
            r.append(&mut keys);
            proof {
                assert(aof::texts(r@) =~= before + more);
                lemma_listed_below(before, more, self@.rows.dom(), k as int);
            }
            k += 1;
        }
        proof {
            assert forall|t: Seq<char>| #[trigger] self@.rows.dom().contains(t) implies shard_ix(t) < 256 by {
                lemma_shard_range(t);
            }
        }
        r
    }

    /// All codes with hits to be logged.
    fn dirty_codes(&self) -> (r: Vec<String>)
        requires
            self.wf(),
        ensures
            enumerates(aof::texts(r@), self@.dirty.dom()),
    {
        let mut r: Vec<String> = Vec::new();
        let mut k: usize = 0;
        while k < NUM_SHARDS
            invariant
                self.wf(),
                k <= NUM_SHARDS,
                listed_below(aof::texts(r@), self@.dirty.dom(), k as int),
            decreases NUM_SHARDS - k,
        {
            let ghost before = aof::texts(r@);
            let mut keys: Vec<String> = fxmap::fx_keys(&self.shards[k].dirty);
            let ghost more = aof::texts(keys@);
            proof {
                assert forall|t: Seq<char>|
                    #[trigger] self@.dirty.dom().contains(t) && shard_ix(t) == k implies exists|j: int|
                        0 <= j < more.len() && #[trigger] more[j] == t by {
                    assert(fxmap::by_text(self.shards@[k as int].dirty@).contains_key(t));
                    let j = choose|j: int| 0 <= j < keys@.len() && (#[trigger] keys@[j])@ == t;
                    assert(more[j] == t);
                }
                assert forall|j: int| 0 <= j < more.len() implies self@.dirty.dom().contains(#[trigger] more[j]) && shard_ix(more[j]) == k by {
                    assert(fxmap::by_text(self.shards@[k as int].dirty@).contains_key(keys@[j]@));
                    assert(shard_dirty(self.shards@[k as int]).contains_key(more[j]));
                }
            }
            r.append(&mut keys);
            proof {
                assert(aof::texts(r@) =~= before + more);
                lemma_listed_below(before, more, self@.dirty.dom(), k as int);
            }
            k += 1;
        }
        proof {
            assert forall|t: Seq<char>| #[trigger] self@.dirty.dom().contains(t) implies shard_ix(t) < 256 by {
                lemma_shard_range(t);
            }
        }
        r
    }

    /// Stores a link under a code that is free: that of `draw`, if it is.
    fn place(&mut self, url: &str, draw: &[u8], now: i64, exp: i64) -> (r: Option<String>)
        requires
            old(self).wf(),
            draw@.len() == SUFFIX_LEN,
        ensures
            final(self).wf(),
            r matches Some(c) ==> generated(old(self)@.instance as int, c@)
                && !old(self)@.rows.contains_key(c@) && final(self)@ == (StoreView {
                rows: old(self)@.rows.insert(c@, new_row(url@, now, exp, old(self)@.instance)),
                ..old(self)@
            }),
            r is None ==> final(self)@ == old(self)@ && all_taken(
                old(self)@.instance,
                old(self)@.rows,
            ),
    {
        match self.free_code(draw) {
            Some(c) => {
                self.insert_new(c.as_str(), url, now, exp);
                Some(c)
            },
            None => None,
        }
    }

    /// Creates many links at some time; the codes come in the order of the urls.
    pub fn shorten_many_at(&mut self, urls: &Vec<String>, ttl_ms: i64, now: i64) -> (r: Vec<String>)
        requires
            old(self).wf(),
            urls@.len() * SUFFIX_LEN <= isize::MAX,
        ensures
            final(self).wf(),
            shortened_many(
                old(self)@,
                aof::texts(urls@),
                ttl_ms,
                now,
                aof::texts(r@),
                final(self)@,
            ),
    {
        let exp: i64 = if ttl_ms > 0 {
            now.wrapping_add(ttl_ms)
        } else {
            0
        };
        let rnd: Vec<u8> = random_bytes(urls.len() * SUFFIX_LEN);
        let mut codes: Vec<String> = Vec::new();
        let mut lines: Vec<u8> = Vec::new();
        let mut i: usize = 0;
        let mut full: bool = false;
        let logged: bool = self.log.is_some();
        assert(aof::texts(codes@) =~= Seq::empty());
        while i < urls.len() && !full
            invariant
                old(self).wf(),
                self.wf(),
                i <= urls@.len(),
                urls@.len() * SUFFIX_LEN <= isize::MAX,
                rnd@.len() == urls@.len() * SUFFIX_LEN,
                codes@.len() == i,
                logged == (old(self)@.log is Some),
                self@ == (StoreView {
                    rows: many_rows(
                        old(self)@.rows,
                        aof::texts(codes@),
                        aof::texts(urls@),
                        now,
                        exp,
                        old(self)@.instance,
                    ),
                    ..old(self)@
                }),
                logged ==> lines@ == many_lines(
                    aof::texts(codes@),
                    aof::texts(urls@),
                    now,
                    exp,
                    old(self)@.instance,
                ),
                forall|k: int|
                    0 <= k < i ==> generated(
                        old(self)@.instance as int,
                        #[trigger] aof::texts(codes@)[k],
                    ) && !old(self)@.rows.contains_key(aof::texts(codes@)[k]),
                forall|j: int, k: int|
                    0 <= j < k < i ==> aof::texts(codes@)[j] != aof::texts(codes@)[k],
                full ==> all_taken(old(self)@.instance, self@.rows),
            decreases urls@.len() - i,
                    (if full {
                0int
            } else {
                1int
            }),
        {
            let ghost before = aof::texts(codes@);
            let ghost all = aof::texts(urls@);
            let ghost rows = self@.rows;
            assert(i * SUFFIX_LEN + SUFFIX_LEN <= urls@.len() * SUFFIX_LEN) by (nonlinear_arith)
                requires
                    i + 1 <= urls@.len(),
            ;
            let draw: &[u8] = vstd::slice::slice_subrange(
                rnd.as_slice(),
                i * SUFFIX_LEN,
                i * SUFFIX_LEN + SUFFIX_LEN,
            );
            match self.place(urls[i].as_str(), draw, now, exp) {
                Some(c) => {
                    proof {
                        lemma_many_rows(
                            old(self)@.rows,
                            before,
                            all,
                            now,
                            exp,
                            old(self)@.instance,
                        );
                    }
                    let ghost code = c@;
                    if logged {
                        let ghost was = lines@;
                        codec::row_line_into(
                            &mut lines,
                            c.as_str(),
                            urls[i].as_str(),
                            now,
                            exp,
                            self.instance as i64,
                            0,
                        );
                        lines.push(NL);
                        assert(lines@ =~= was + row_line_of(
                            code,
                            new_row(all[i as int], now, exp, old(self)@.instance),
                            0,
                        ) + seq![NL]);
                    }
                    codes.push(c);
                    assert(aof::texts(codes@) =~= before.push(code));
                    assert(before.push(code).drop_last() =~= before);
                    i += 1;
                },
                None => {
                    full = true;
                },
            }
        }
        let ghost mid = self@;
        if let Some(l) = &mut self.log {
            l.push_raw(lines.as_slice());
            if l.pending_bytes() > FLUSH_BYTES {
                l.flush();
            }
        }
        assert(self@ =~= StoreView {
            log: spilled(
                queued_raw(
                    old(self)@.log,
                    many_lines(
                        aof::texts(codes@),
                        aof::texts(urls@),
                        now,
                        exp,
                        old(self)@.instance,
                    ),
                ),
            ),
            ..mid
        });
        codes
    }

    /// Creates many links; the codes come in the order of the urls.
    pub fn shorten_many(&mut self, urls: &Vec<String>, ttl_ms: i64) -> (r: Vec<String>)
        requires
            old(self).wf(),
            urls@.len() * SUFFIX_LEN <= isize::MAX,
        ensures
            final(self).wf(),
            exists|now: i64| #[trigger]
                shortened_many(
                    old(self)@,
                    aof::texts(urls@),
                    ttl_ms,
                    now,
                    aof::texts(r@),
                    final(self)@,
                ),
    {
        let now: i64 = now_ms();
        self.shorten_many_at(urls, ttl_ms, now)
    }

    /// Creates many links that never expire, and flushes. The result is how many
    /// urls there were.
    pub fn seed(&mut self, urls: &Vec<String>) -> (r: usize)
        requires
            old(self).wf(),
            urls@.len() * SUFFIX_LEN <= isize::MAX,
        ensures
            final(self).wf(),
            r == urls@.len(),
            seeded(old(self)@, aof::texts(urls@), final(self)@),
    {
        let codes: Vec<String> = self.shorten_many(urls, 0);
        let ghost mid = self@;
        self.flush();
        proof {
            let now = choose|now: i64| #[trigger]
                shortened_many(old(self)@, aof::texts(urls@), 0, now, aof::texts(codes@), mid);
            let hits = choose|hits: Seq<Seq<char>>| #[trigger] flushed_with(mid, hits, self@);
            assert(shortened_many(
                old(self)@,
                aof::texts(urls@),
                0,
                now,
                aof::texts(codes@),
                mid,
            ));
            assert(flushed_with(mid, hits, self@));
        }
        urls.len()
    }

    /// The lines of the hits that are not logged yet.
    fn dirty_lines(&self) -> (r: Vec<u8>)
        requires
            self.wf(),
        ensures
            exists|codes: Seq<Seq<char>>| #[trigger]
                enumerates(codes, self@.dirty.dom()) && r@ == hit_lines(
                    codes,
                    self@.dirty,
                    self@.instance,
                ),
    {
        let codes: Vec<String> = self.dirty_codes();
        let ghost all = aof::texts(codes@);
        let mut lines: Vec<u8> = Vec::new();
        let mut i: usize = 0;
        assert(all.take(0) =~= Seq::empty());
        while i < codes.len()
            invariant
                self.wf(),
                i <= codes@.len(),
                all == aof::texts(codes@),
                enumerates(all, self@.dirty.dom()),
                lines@ == hit_lines(all.take(i as int), self@.dirty, self@.instance),
            decreases codes@.len() - i,
        {
            let ghost was = lines@;
            let ghost c = all[i as int];
            assert(self@.dirty.dom().contains(c));
            let code: &str = codes[i].as_str();
            let d: i64 = match fxmap::fx_get(&self.shards[shard_of(code)].dirty, code) {
                Some(d) => *d,
                None => 0,
            };
            codec::hit_line_into(&mut lines, code, d, self.instance as i64);
            lines.push(NL);
            i += 1;
            assert(all.take(i as int).drop_last() =~= all.take(i - 1));
            assert(lines@ =~= was + codec::hit_bytes(
                encode_utf8(c),
                self@.dirty[c] as int,
                self@.instance as int,
            ) + seq![NL]);
        }
        assert(all.take(i as int) =~= all);
        lines
    }

    /// Forgets the hits that were logged.
    fn clear_dirty(&mut self)
        requires
            old(self).wf(),
        ensures
            final(self).wf(),
            final(self)@ == (StoreView { dirty: Map::empty(), ..old(self)@ }),
    {
        let mut k: usize = 0;
        while k < NUM_SHARDS
            invariant
                old(self).wf(),
                k <= NUM_SHARDS,
                self.shards@.len() == NUM_SHARDS,
                self.stray == old(self).stray,
                self.readers == old(self).readers,
                self.last_poll == old(self).last_poll,
                self.log == old(self).log,
                self.instance == old(self).instance,
                self.track == old(self).track,
                forall|i: int|
                    0 <= i < NUM_SHARDS ==> (#[trigger] self.shards@[i]).data == old(
                        self,
                    ).shards@[i].data,
                forall|i: int, t: Seq<char>|
                    0 <= i < k ==> !(#[trigger] shard_dirty(self.shards@[i]).contains_key(t)),
                forall|i: int|
                    k <= i < NUM_SHARDS ==> (#[trigger] self.shards@[i]).dirty == old(
                        self,
                    ).shards@[i].dirty,
            decreases NUM_SHARDS - k,
        {
            let none: FxHashMap<String, i64> = fxmap::fx_new();
            self.shards[k].dirty = none;
            k += 1;
        }
        proof {
            assert forall|t: Seq<char>| true implies !(#[trigger] self@.dirty.contains_key(t)) by {
                lemma_shard_range(t);
            }
            assert forall|k: int, t: Seq<char>|
                0 <= k < NUM_SHARDS && #[trigger] shard_rows(self.shards@[k]).contains_key(
                    t,
                ) implies shard_ix(t) == k by {
                assert(shard_rows(old(self).shards@[k]).contains_key(t));
            }
            assert(self@.rows =~= old(self)@.rows) by {
                assert forall|t: Seq<char>| true implies #[trigger] self@.rows.contains_key(t)
                    == old(self)@.rows.contains_key(t) && (self@.rows.contains_key(t)
                    ==> self@.rows[t] == old(self)@.rows[t]) by {
                    lemma_shard_range(t);
                    assert(shard_rows(self.shards@[shard_ix(t)]) == shard_rows(
                        old(self).shards@[shard_ix(t)],
                    ));
                }
            }
            assert(self@ =~= (StoreView { dirty: Map::empty(), ..old(self)@ }));
        }
    }

    /// Logs the hits that are not logged yet, and hands everything that is
    /// queued over to be written.
    pub fn flush(&mut self)
        requires
            old(self).wf(),
        ensures
            final(self).wf(),
            exists|codes: Seq<Seq<char>>| #[trigger]
                flushed_with(old(self)@, codes, final(self)@),
    {
        if self.log.is_none() {
            assert(flushed_with(old(self)@, Seq::empty(), self@));
            return;
        }
        let lines: Vec<u8> = self.dirty_lines();
        let ghost codes = choose|codes: Seq<Seq<char>>| #[trigger]
            enumerates(codes, self@.dirty.dom()) && lines@ == hit_lines(
                codes,
                self@.dirty,
                self@.instance,
            );
        self.clear_dirty();
        let ghost mid = self@;
        if let Some(l) = &mut self.log {
            l.push_raw(lines.as_slice());
            l.flush();
        }
        proof {
            assert(self@ =~= StoreView { log: self@.log, ..mid });
            assert(flushed_with(old(self)@, codes, self@));
        }
    }

    /// What has to be written to the log next.
    pub fn take_log(&mut self) -> (r: Vec<u8>)
        requires
            old(self).wf(),
        ensures
            final(self).wf(),
            log_taken(old(self)@, r@, final(self)@),
    {
        let r: Vec<u8> = match &mut self.log {
            Some(l) => l.take(),
            None => Vec::new(),
        };
        assert(self@ =~= (StoreView { log: self@.log, ..old(self)@ }));
        r
    }

    /// A snapshot of the links that this instance owns, to take the place of its
    /// log: what is not written of the log need not be any more. There is none if
    /// nothing is to last.
    pub fn compact(&mut self) -> (r: Option<Vec<u8>>)
        requires
            old(self).wf(),
        ensures
            final(self).wf(),
            compacted(
                old(self)@,
                match r {
                    Some(b) => Some(b@),
                    None => None,
                },
                final(self)@,
            ),
    {
        if self.log.is_none() {
            return None;
        }
        let b: Vec<u8> = self.snapshot();
        self.clear_dirty();
        let ghost mid = self@;
        if let Some(l) = &mut self.log {
            l.truncate();
        }
        assert(self@ =~= StoreView {
            log: Some(AofView { queued: Seq::empty(), flushed: Seq::empty() }),
            ..mid
        });
        Some(b)
    }

    fn snapshot(&self) -> (r: Vec<u8>)
        requires
            self.wf(),
        ensures
            exists|codes: Seq<Seq<char>>| #[trigger]
                enumerates(codes, own_codes(self@)) && r@ == snap_lines(codes, self@.rows),
    {
        let codes: Vec<String> = self.codes();
        let ghost all = aof::texts(codes@);
        let ghost mut own: Seq<Seq<char>> = Seq::empty();
        let mut lines: Vec<u8> = Vec::new();
        let mut i: usize = 0;
        while i < codes.len()
            invariant
                self.wf(),
                i <= codes@.len(),
                all == aof::texts(codes@),
                enumerates(all, self@.rows.dom()),
                lines@ == snap_lines(own, self@.rows),
                forall|j: int, k: int| 0 <= j < k < own.len() ==> own[j] != own[k],
                forall|k: int|
                    0 <= k < own.len() ==> own_codes(self@).contains(#[trigger] own[k])
                        && all.take(i as int).contains(own[k]),
                forall|j: int|
                    0 <= j < i && own_codes(self@).contains(#[trigger] all[j]) ==> own.contains(
                        all[j],
                    ),
            decreases codes@.len() - i,
        {
            let ghost was = lines@;
            let ghost before = own;
            let ghost c = all[i as int];
            assert(self@.rows.dom().contains(c));
            assert(all.take(i + 1).drop_last() =~= all.take(i as int));
            let code: &str = codes[i].as_str();
            if let Some(e) = fxmap::fx_get(&self.shards[shard_of(code)].data, code) {
                if e.i == self.instance {
                    codec::row_line_into(&mut lines, code, e.u.as_str(), e.a, e.e, e.i as i64, e.oh);
                    lines.push(NL);
                    proof {
                        own = own.push(c);
                        assert(own.drop_last() =~= before);
                        assert(lines@ =~= was + row_line_of(c, self@.rows[c], self@.rows[c].oh)
                            + seq![NL]);
                        if before.contains(c) {
                            let k = choose|k: int| 0 <= k < before.len() && before[k] == c;
                            let earlier = all.take(i as int);
                            assert(earlier.contains(before[k]));
                            let j = choose|j: int| 0 <= j < earlier.len() && earlier[j] == before[k];
                            assert(all[j] == all[i as int]);
                        }
                    }
                }
            }
            i += 1;
            proof {
                assert forall|k: int| 0 <= k < own.len() implies own_codes(self@).contains(
                    #[trigger] own[k],
                ) && all.take(i as int).contains(own[k]) by {
                    if k < before.len() {
                        assert(own[k] == before[k]);
                        let earlier = all.take(i - 1);
                        assert(earlier.contains(before[k]));
                        let j = choose|j: int| 0 <= j < earlier.len() && earlier[j] == before[k];
                        assert(all.take(i as int)[j] == own[k]);
                    } else {
                        assert(all.take(i as int)[i - 1] == own[k]);
                    }
                }
                assert forall|j: int|
                    0 <= j < i && own_codes(self@).contains(#[trigger] all[j]) implies own.contains(
                    all[j],
                ) by {
                    if j < i - 1 {
                        let k = choose|k: int| 0 <= k < before.len() && before[k] == all[j];
                        assert(own[k] == all[j]);
                    } else {
                        assert(own[own.len() - 1] == all[j]);
                    }
                }
            }
        }
        proof {
            assert forall|t: Seq<char>| #[trigger] own_codes(self@).contains(t) implies exists|k: int|
                0 <= k < own.len() && #[trigger] own[k] == t by {
                assert(self@.rows.dom().contains(t));
                let j = choose|j: int| 0 <= j < all.len() && #[trigger] all[j] == t;
                assert(own.contains(all[j]));
            }
            assert(enumerates(own, own_codes(self@)));
        }
        lines
    }

    /// The links whose code or url holds `q`, those with most hits first (`sort`
    /// is `hits`) or the newest first: a page of them, and how many there are.
    pub fn list(&self, limit: usize, offset: usize, sort: &str, q: &str) -> (r: (Vec<Link>, usize))
        requires
            self.wf(),
        ensures
            exists|found: Seq<LinkView>, all: Seq<LinkView>|
                {
                    &&& #[trigger] found_in(self@.rows, q@, found)
                    &&& #[trigger] listing::arranged(found, listing::order_of(sort@), all)
                    &&& listing::link_views(r.0@) == listing::page(all, limit as int, offset as int)
                    &&& r.1 == found.len()
                },
    {
        let codes: Vec<String> = self.codes();
        let ghost all = aof::texts(codes@);
        let mut items: Vec<Link> = Vec::new();
        let mut i: usize = 0;
        while i < codes.len()
            invariant
                self.wf(),
                i <= codes@.len(),
                all == aof::texts(codes@),
                enumerates(all, self@.rows.dom()),
                found_among(self@.rows, q@, all.take(i as int), listing::link_views(items@)),
            decreases codes@.len() - i,
        {
            let ghost before = listing::link_views(items@);
            let ghost c = all[i as int];
            assert(self@.rows.dom().contains(c));
            let code: &str = codes[i].as_str();
            if let Some(e) = fxmap::fx_get(&self.shards[shard_of(code)].data, code) {
                let l: Link = to_link(code, e);
                if listing::is_wanted(&l, q) {
                    items.push(l);
                    assert(listing::link_views(items@) =~= before.push(l@));
                }
            }
            proof {
                lemma_found_among(self@.rows, q@, all, i as int, before);
            }
            i += 1;
        }
        assert(all.take(i as int) =~= all);
        let order: Order = listing::order_for(sort);
        let total: usize = items.len();
        let ghost found = listing::link_views(items@);
        let out: Vec<Link> = listing::paginate(&items, order, limit, offset);
        proof {
            assert(found_in(self@.rows, q@, found)) by {
                assert forall|c: Seq<char>| #[trigger]
                    self@.rows.contains_key(c) && listing::wanted(
                        link_of(c, self@.rows[c]),
                        q@,
                    ) implies exists|k: int| 0 <= k < found.len() && (#[trigger] found[k]).code
                    == c by {
                    assert(self@.rows.dom().contains(c));
                    let j = choose|j: int| 0 <= j < all.len() && #[trigger] all[j] == c;
                    assert(all[j] == c);
                }
            }
        }
        (out, total)
    }

    fn drop_stray(&mut self, code: &str) -> (r: Option<StrayHit>)
        requires
            old(self).wf(),
        ensures
            final(self).wf(),
            final(self)@ == (StoreView { stray: old(self)@.stray.remove(code@), ..old(self)@ }),
            r is Some <==> old(self)@.stray.contains_key(code@),
            r matches Some(h) ==> h@ == old(self)@.stray[code@],
    {
        let r: Option<StrayHit> = fxmap::fx_remove(&mut self.stray, code);
        assert(self@.stray =~= old(self)@.stray.remove(code@));
        assert(self@ =~= (StoreView { stray: old(self)@.stray.remove(code@), ..old(self)@ }));
        r
    }

    fn apply_tombstone(&mut self, code: &str)
        requires
            old(self).wf(),
        ensures
            final(self).wf(),
            final(self)@ == (StoreView {
                rows: old(self)@.rows.remove(code@),
                stray: old(self)@.stray.remove(code@),
                ..old(self)@
            }),
    {
        let k: usize = shard_of(code);
        let ghost a = self.shards@;
        let _ = fxmap::fx_remove(&mut self.shards[k].data, code);
        proof {
            assert(shard_rows(self.shards@[k as int]) =~= shard_rows(a[k as int]).remove(code@));
            lemma_drop_row(a, self.shards@, code@);
        }
        let _ = self.drop_stray(code);
        assert(self@ =~= (StoreView {
            rows: old(self)@.rows.remove(code@),
            stray: old(self)@.stray.remove(code@),
            ..old(self)@
        }));
    }

    fn apply_hit(&mut self, o: &Op)
        requires
            old(self).wf(),
            o@.x.len() == 0,
            o@.h.len() > 0,
        ensures
            final(self).wf(),
            applies(old(self)@, o@, final(self)@),
    {
        let own: bool = self.instance as i64 == o.i;
        let code: &str = o.h.as_str();
        let k: usize = shard_of(code);
        let ghost a = self.shards@;
        if self.taken(code) {
            if let Some(e) = fxmap::fx_get_mut(&mut self.shards[k].data, code) {
                e.h = e.h.wrapping_add(o.d);
                if own {
                    e.oh = e.oh.wrapping_add(o.d);
                }
            }
            proof {
                let e = fxmap::by_text(self.shards@[k as int].data@)[code@];
                lemma_shard_set(a[k as int], self.shards@[k as int], code@, e);
                lemma_set_row(a, self.shards@, code@, e@);
                assert(self@ =~= applied(old(self)@, o@));
            }
            return;
        }
        let ghost mut gone: Seq<char> = Seq::empty();
        proof {
            assert(fxmap::by_text(self.stray@).dom() =~= self@.stray.dom());
        }
        if fxmap::fx_len(&self.stray) >= MAX_STRAY_HITS {
            let kept: Vec<String> = fxmap::fx_keys(&self.stray);
            if kept.len() > 0 {
                proof {
                    gone = kept@[0]@;
                }
                let _ = self.drop_stray(kept[0].as_str());
            } else {
                assert(self@.stray.dom() =~= Set::empty());
            }
        }
        let ghost mid = self@;
        let (t, own_hits): (i64, i64) = match fxmap::fx_get(&self.stray, code) {
            Some(st) => (st.t, st.o),
            None => (0, 0),
        };
        let st = StrayHit {
            t: t.wrapping_add(o.d),
            o: if own {
                own_hits.wrapping_add(o.d)
            } else {
                own_hits
            },
        };
        fxmap::fx_insert(&mut self.stray, code.to_string(), st);
        proof {
            assert(self@.stray =~= mid.stray.insert(code@, st@));
            assert(self@ =~= applied(mid, o@));
            if crowded(old(self)@, o@) {
                assert(old(self)@.stray.contains_key(gone));
                assert(mid == StoreView { stray: old(self)@.stray.remove(gone), ..old(self)@ });
            }
        }
    }

    fn apply_row(&mut self, o: &Op)
        requires
            old(self).wf(),
            o@.x.len() == 0,
            o@.h.len() == 0,
            o@.c.len() > 0,
        ensures
            final(self).wf(),
            final(self)@ == applied(old(self)@, o@),
    {
        let code: &str = o.c.as_str();
        let (t, own_hits): (i64, i64) = match self.drop_stray(code) {
            Some(st) => (st.t, st.o),
            None => (0, 0),
        };
        let e = Entry {
            u: o.u.clone(),
            a: o.a,
            e: if o.has_e {
                o.e
            } else {
                0
            },
            i: #[verifier::truncate] (o.i as i32),
            h: o.n.wrapping_add(t),
            oh: o.n.wrapping_add(own_hits),
        };
        let k: usize = shard_of(code);
        let ghost a = self.shards@;
        fxmap::fx_insert(&mut self.shards[k].data, code.to_string(), e);
        proof {
            lemma_shard_set(a[k as int], self.shards@[k as int], code@, e);
            lemma_set_row(a, self.shards@, code@, e@);
            assert(self@ =~= applied(old(self)@, o@));
        }
    }

    /// Takes in what one line of a log says.
    pub fn apply(&mut self, o: &Op)
        requires
            old(self).wf(),
        ensures
            final(self).wf(),
            applies(old(self)@, o@, final(self)@),
    {
        if !text::empty(o.x.as_str()) {
            self.apply_tombstone(o.x.as_str());
        } else if !text::empty(o.h.as_str()) {
            self.apply_hit(o);
        } else if !text::empty(o.c.as_str()) {
            self.apply_row(o);
        }
    }

    /// Takes in one line of a log, if it counts.
    pub fn apply_line(&mut self, line: &[u8])
        requires
            old(self).wf(),
        ensures
            final(self).wf(),
            line_applies(old(self)@, line@, final(self)@),
    {
        let mut o: Op = Op::default();
        if codec::parse_op(line, &mut o) {
            self.apply(&o);
        }
    }

    fn apply_lines(&mut self, lines: &Vec<Vec<u8>>)
        requires
            old(self).wf(),
        ensures
            final(self).wf(),
            replays(old(self)@, aof::bytes_of(lines@), final(self)@),
    {
        let ghost all = aof::bytes_of(lines@);
        let mut i: usize = 0;
        assert(all.take(0) =~= Seq::empty());
        while i < lines.len()
            invariant
                i <= lines@.len(),
                all == aof::bytes_of(lines@),
                self.wf(),
                replays(old(self)@, all.take(i as int), self@),
            decreases lines@.len() - i,
        {
            let ghost mid = self@;
            self.apply_line(lines[i].as_slice());
            i += 1;
            assert(all.take(i as int).drop_last() =~= all.take(i - 1));
            assert(all.take(i as int).last() == lines@[i - 1]@);
            assert(line_applies(mid, all.take(i as int).last(), self@));
        }
        assert(all.take(i as int) =~= all);
    }

    /// Takes in the complete lines of a log or a snapshot.
    pub fn replay(&mut self, contents: &[u8])
        requires
            old(self).wf(),
        ensures
            final(self).wf(),
            replays(old(self)@, aof::lines(contents@), final(self)@),
    {
        let lines: Vec<Vec<u8>> = aof::replay_file(contents);
        self.apply_lines(&lines);
    }

    /// Takes in the own snapshot and the own log, then what siblings have: the
    /// name of the log of each, and its snapshot. Their logs are followed from
    /// the start.
    pub fn load_all(&mut self, snap: &[u8], log: &[u8], siblings: &Vec<(String, Vec<u8>)>)
        requires
            old(self).wf(),
        ensures
            final(self).wf(),
            exists|mid: StoreView|
                #[trigger] reopened(old(self)@, snap@, log@, mid) && joined(
                    mid,
                    sibling_views(siblings@),
                    final(self)@,
                ),
    {
        self.replay(snap);
        self.replay(log);
        let ghost mid = self@;
        assert(reopened(old(self)@, snap@, log@, mid));
        let ghost all = sibling_views(siblings@);
        let mut i: usize = 0;
        assert(all.take(0) =~= Seq::empty());
        while i < siblings.len()
            invariant
                i <= siblings@.len(),
                all == sibling_views(siblings@),
                self.wf(),
                joined(mid, all.take(i as int), self@),
            decreases siblings@.len() - i,
        {
            let ghost a = self@;
            self.replay(siblings[i].1.as_slice());
            let ghost b = self@;
            let name: &str = siblings[i].0.as_str();
            let r: TailReader = TailReader::from_start(name.to_string());
            fxmap::fx_insert(&mut self.readers, name.to_string(), r);
            i += 1;
            proof {
                assert(all.take(i as int).drop_last() =~= all.take(i - 1));
                assert(all.take(i as int).last() == all[i - 1]);
                assert(self@.readers =~= b.readers.insert(name@, aof::tail_start(name@)));
                assert(self@ =~= StoreView {
                    readers: b.readers.insert(name@, aof::tail_start(name@)),
                    ..b
                });
                assert(replays(a, aof::lines(all.take(i as int).last().1), b));
            }
        }
        assert(all.take(i as int) =~= all);
    }

    fn follow(&mut self, name: &str)
        requires
            old(self).wf(),
        ensures
            final(self).wf(),
            final(self)@ == (StoreView {
                readers: followed(old(self)@.readers, name@),
                ..old(self)@
            }),
    {
        if fxmap::fx_get(&self.readers, name).is_none() {
            let r: TailReader = TailReader::from_start(name.to_string());
            fxmap::fx_insert(&mut self.readers, name.to_string(), r);
            assert(self@.readers =~= old(self)@.readers.insert(name@, aof::tail_start(name@)));
        }
        assert(self@ =~= (StoreView {
            readers: followed(old(self)@.readers, name@),
            ..old(self)@
        }));
    }

    /// The name of the log of this instance.
    pub fn own_name(&self) -> (r: String)
        requires
            self.wf(),
        ensures
            encode_utf8(r@) == log_file(self@.instance as int),
    {
        log_name(self.instance)
    }

    /// Looks for sibling logs among the files of the directory. The result names
    /// all logs that are followed, each of which has to be read on; there are
    /// none if nothing is to last.
    pub fn poll_tails(&mut self, files: &Vec<String>) -> (r: Vec<String>)
        requires
            old(self).wf(),
        ensures
            final(self).wf(),
            old(self)@.log is None ==> final(self)@ == old(self)@ && r@.len() == 0,
            old(self)@.log is Some ==> enumerates(aof::texts(r@), final(self)@.readers.dom())
                && exists|names: Seq<Seq<char>>, own: Seq<char>|
                encode_utf8(own) == log_file(old(self)@.instance as int)
                    && #[trigger] sort::rearranged(
                    names,
                    aof::sibling_logs(aof::texts(files@), own),
                ) && final(self)@ == (StoreView {
                    readers: discovered(old(self)@.readers, names),
                    ..old(self)@
                }),
    {
        if self.log.is_none() {
            return Vec::new();
        }
        let own: String = self.own_name();
        let names: Vec<String> = aof::shard_files(files, own.as_str());
        let ghost all = aof::texts(names@);
        let mut i: usize = 0;
        assert(all.take(0) =~= Seq::empty());
        while i < names.len()
            invariant
                i <= names@.len(),
                all == aof::texts(names@),
                self.wf(),
                self@ == (StoreView {
                    readers: discovered(old(self)@.readers, all.take(i as int)),
                    ..old(self)@
                }),
            decreases names@.len() - i,
        {
            assert(all.take(i + 1).drop_last() =~= all.take(i as int));
            self.follow(names[i].as_str());
            i += 1;
        }
        assert(all.take(i as int) =~= all);
        assert(sort::rearranged(all, aof::sibling_logs(aof::texts(files@), own@)));
        let r: Vec<String> = fxmap::fx_keys(&self.readers);
        proof {
            let t = aof::texts(r@);
            assert forall|k: int| 0 <= k < t.len() implies self@.readers.dom().contains(
                #[trigger] t[k],
            ) by {
                assert(fxmap::by_text(self.readers@).contains_key(r@[k]@));
            }
            assert forall|c: Seq<char>| #[trigger] self@.readers.dom().contains(c) implies exists|
                k: int,
            | 0 <= k < t.len() && #[trigger] t[k] == c by {
                assert(fxmap::by_text(self.readers@).contains_key(c));
                let k = choose|k: int| 0 <= k < r@.len() && (#[trigger] r@[k])@ == c;
                assert(t[k] == c);
            }
        }
        r
    }

    /// What to read of a log that is followed and has `size` bytes now: from
    /// where on, and how many bytes.
    pub fn tail_from(&mut self, name: &str, size: u64) -> (r: Option<(u64, u64)>)
        requires
            old(self).wf(),
        ensures
            final(self).wf(),
            !old(self)@.readers.contains_key(name@) ==> r is None && final(self)@ == old(self)@,
            old(self)@.readers.contains_key(name@) ==> {
                let t = old(self)@.readers[name@];
                &&& final(self)@ == (StoreView {
                    readers: old(self)@.readers.insert(name@, aof::tail_at(t, size as int)),
                    ..old(self)@
                })
                &&& (match r {
                    Some((from, count)) => Some((from as int, count as int)),
                    None => None,
                }) == aof::part_at(t, size as int)
            },
    {
        let r: Option<(u64, u64)> = match fxmap::fx_get_mut(&mut self.readers, name) {
            Some(t) => t.to_read(size),
            None => None,
        };
        proof {
            if old(self)@.readers.contains_key(name@) {
                let t = aof::tail_at(old(self)@.readers[name@], size as int);
                assert(self@.readers =~= old(self)@.readers.insert(name@, t));
                assert(self@ =~= (StoreView {
                    readers: old(self)@.readers.insert(name@, t),
                    ..old(self)@
                }));
            } else {
                assert(self@.readers =~= old(self)@.readers);
                assert(self@ =~= old(self)@);
            }
        }
        r
    }

    /// Takes in what was read of a log that is followed.
    pub fn tail_read(&mut self, name: &str, chunk: &[u8])
        requires
            old(self).wf(),
            old(self)@.readers.contains_key(name@) ==> old(self)@.readers[name@].offset
                + chunk@.len() <= u64::MAX,
        ensures
            final(self).wf(),
            read_on(old(self)@, name@, chunk@, final(self)@),
    {
        let lines: Vec<Vec<u8>> = match fxmap::fx_get_mut(&mut self.readers, name) {
            Some(t) => t.read_new(chunk),
            None => Vec::new(),
        };
        proof {
            if old(self)@.readers.contains_key(name@) {
                let t = aof::tail_after(old(self)@.readers[name@], chunk@);
                assert(self@.readers =~= old(self)@.readers.insert(name@, t));
                assert(self@ =~= (StoreView {
                    readers: old(self)@.readers.insert(name@, t),
                    ..old(self)@
                }));
            } else {
                assert(self@.readers =~= old(self)@.readers);
                assert(self@ =~= old(self)@);
                assert(aof::bytes_of(lines@) =~= Seq::empty());
            }
        }
        self.apply_lines(&lines);
    }

    /// Notes when the siblings were last read.
    pub fn polled(&mut self, now: i64)
        requires
            old(self).wf(),
        ensures
            final(self).wf(),
            final(self)@ == (StoreView { last_poll: now, ..old(self)@ }),
    {
        self.last_poll = now;
        assert(self@ =~= (StoreView { last_poll: now, ..old(self)@ }));
    }

    /// What has to be read because a code was missed: the log of the sibling
    /// that made it, or, for an alias, which any may have stored, all of them, but not
    /// too often. When that was is noted for the one sibling; once all were read,
    /// the caller notes it.
    pub fn tail_missed(&mut self, code: &str, now: i64) -> (r: Missed)
        requires
            old(self).wf(),
        ensures
            final(self).wf(),
            sought(old(self)@, code@, now, r, final(self)@),
    {
        if text::empty(code) || self.log.is_none() {
            return Missed::Nothing;
        }
        if seems_generated(code.as_bytes()) {
            let owner: i32 = base62::alpha_idx(code.as_bytes()[0]);
            if owner >= 0 && owner != self.instance {
                let name: String = log_name(owner);
                self.follow(name.as_str());
                self.polled(now);
                return Missed::Log(name);
            }
        }
        if now.wrapping_sub(self.last_poll) >= TAIL_MIN_INTERVAL {
            Missed::All
        } else {
            Missed::Nothing
        }
    }

    /// What is known of a code.
    pub fn stats(&self, code: &str) -> (r: Option<Link>)
        requires
            self.wf(),
        ensures
            r is Some <==> self@.rows.contains_key(code@),
            r matches Some(l) ==> l@ == link_of(code@, self@.rows[code@]),
    {
        match fxmap::fx_get(&self.shards[shard_of(code)].data, code) {
            Some(e) => Some(to_link(code, e)),
            None => None,
        }
    }
}

/// The rows of new links hold what was there before and the links.
proof fn lemma_many_rows(
    rows: Map<Seq<char>, Row>,
    codes: Seq<Seq<char>>,
    urls: Seq<Seq<char>>,
    now: i64,
    exp: i64,
    instance: i32,
)
    ensures
        forall|t: Seq<char>|
            rows.contains_key(t) ==> #[trigger] many_rows(rows, codes, urls, now, exp, instance).contains_key(t),
        forall|k: int|
            0 <= k < codes.len() ==> many_rows(rows, codes, urls, now, exp, instance).contains_key(
                #[trigger] codes[k],
            ),
    decreases codes.len(),
{
    if codes.len() > 0 {
        lemma_many_rows(rows, codes.drop_last(), urls, now, exp, instance);
        assert forall|t: Seq<char>| rows.contains_key(t) implies #[trigger] many_rows(
            rows,
            codes,
            urls,
            now,
            exp,
            instance,
        ).contains_key(t) by {
            assert(many_rows(rows, codes.drop_last(), urls, now, exp, instance).contains_key(t));
        }
        assert forall|k: int| 0 <= k < codes.len() implies many_rows(
            rows,
            codes,
            urls,
            now,
            exp,
            instance,
        ).contains_key(#[trigger] codes[k]) by {
            if k < codes.len() - 1 {
                assert(codes.drop_last()[k] == codes[k]);
            }
        }
    }
}

/// `found` are the links of `codes` that are wanted.
spec fn found_among(
    rows: Map<Seq<char>, Row>,
    q: Seq<char>,
    codes: Seq<Seq<char>>,
    found: Seq<LinkView>,
) -> bool {
    &&& forall|j: int, k: int|
        0 <= j < k < found.len() ==> (#[trigger] found[j]).code != (#[trigger] found[k]).code
    &&& forall|k: int|
        0 <= k < found.len() ==> codes.contains((#[trigger] found[k]).code) && rows.contains_key(
            found[k].code,
        ) && found[k] == link_of(found[k].code, rows[found[k].code]) && listing::wanted(found[k], q)
    &&& forall|j: int|
        0 <= j < codes.len() && listing::wanted(
            link_of(#[trigger] codes[j], rows[codes[j]]),
            q,
        ) ==> exists|k: int| 0 <= k < found.len() && (#[trigger] found[k]).code == codes[j]
}

proof fn lemma_found_among(
    rows: Map<Seq<char>, Row>,
    q: Seq<char>,
    all: Seq<Seq<char>>,
    i: int,
    found: Seq<LinkView>,
)
    requires
        0 <= i < all.len(),
        enumerates(all, rows.dom()),
        found_among(rows, q, all.take(i), found),
    ensures
        found_among(
            rows,
            q,
            all.take(i + 1),
            if listing::wanted(link_of(all[i], rows[all[i]]), q) {
                found.push(link_of(all[i], rows[all[i]]))
            } else {
                found
            },
        ),
{
    let c = all[i];
    let a = all.take(i);
    let b = all.take(i + 1);
    let l = link_of(c, rows[c]);
    let next = if listing::wanted(l, q) {
        found.push(l)
    } else {
        found
    };
    assert(rows.dom().contains(c));
    assert forall|k: int| 0 <= k < next.len() implies b.contains((#[trigger] next[k]).code) by {
        if k < found.len() {
            assert(next[k] == found[k]);
            assert(a.contains(found[k].code));
            let j = choose|j: int| 0 <= j < a.len() && a[j] == found[k].code;
            assert(b[j] == next[k].code);
        } else {
            assert(b[i] == next[k].code);
        }
    }
    assert forall|j: int, k: int| 0 <= j < k < next.len() implies (#[trigger] next[j]).code != (
    #[trigger] next[k]).code by {
        assert(next[j] == found[j]);
        if k == found.len() {
            assert(a.contains(found[j].code));
            let m = choose|m: int| 0 <= m < a.len() && a[m] == found[j].code;
            assert(all[m] != all[i]);
        } else {
            assert(next[k] == found[k]);
        }
    }
    assert forall|j: int|
        0 <= j < b.len() && listing::wanted(link_of(#[trigger] b[j], rows[b[j]]), q) implies exists|
        k: int,
    | 0 <= k < next.len() && (#[trigger] next[k]).code == b[j] by {
        if j < i {
            assert(a[j] == b[j]);
            let k = choose|k: int| 0 <= k < found.len() && (#[trigger] found[k]).code == a[j];
            assert(next[k].code == b[j]);
        } else {
            assert(next[next.len() - 1].code == b[j]);
        }
    }
}

/// `codes` lists the members of a set that belong in the first `k` parts.
spec fn listed_below(codes: Seq<Seq<char>>, d: Set<Seq<char>>, k: int) -> bool {
    &&& forall|i: int, j: int| 0 <= i < j < codes.len() ==> codes[i] != codes[j]
    &&& forall|i: int|
        0 <= i < codes.len() ==> d.contains(#[trigger] codes[i]) && shard_ix(codes[i]) < k
    &&& forall|t: Seq<char>| #[trigger]
        d.contains(t) && shard_ix(t) < k ==> exists|i: int|
            0 <= i < codes.len() && #[trigger] codes[i] == t
}

proof fn lemma_listed_below(a: Seq<Seq<char>>, b: Seq<Seq<char>>, d: Set<Seq<char>>, k: int)
    requires
        listed_below(a, d, k),
        forall|i: int, j: int| 0 <= i < j < b.len() ==> b[i] != b[j],
        forall|i: int| 0 <= i < b.len() ==> d.contains(#[trigger] b[i]) && shard_ix(b[i]) == k,
        forall|t: Seq<char>| #[trigger]
            d.contains(t) && shard_ix(t) == k ==> exists|i: int|
                0 <= i < b.len() && #[trigger] b[i] == t,
    ensures
        listed_below(a + b, d, k + 1),
{
    let c = a + b;
    assert forall|i: int| 0 <= i < c.len() implies d.contains(#[trigger] c[i]) && shard_ix(c[i]) < k
        + 1 by {
        if i >= a.len() {
            assert(c[i] == b[i - a.len()]);
        }
    }
    assert forall|i: int, j: int| 0 <= i < j < c.len() implies c[i] != c[j] by {
        if i >= a.len() {
            assert(c[i] == b[i - a.len()] && c[j] == b[j - a.len()]);
        } else if j >= a.len() {
            assert(c[i] == a[i] && c[j] == b[j - a.len()]);
        }
    }
    assert forall|t: Seq<char>| #[trigger] d.contains(t) && shard_ix(t) < k + 1 implies exists|i: int|
        0 <= i < c.len() && #[trigger] c[i] == t by {
        if shard_ix(t) == k {
            let i = choose|i: int| 0 <= i < b.len() && #[trigger] b[i] == t;
            assert(c[a.len() + i] == t);
        } else {
            let i = choose|i: int| 0 <= i < a.len() && #[trigger] a[i] == t;
            assert(c[i] == t);
        }
    }
}

/// The name of the log of an instance.
pub fn log_name(instance: i32) -> (r: String)
    ensures
        encode_utf8(r@) == log_file(instance as int),
{
    let mut b: Vec<u8> = Vec::new();
    text::put(&mut b, "data-");
    text::put_i64(&mut b, instance as i64);
    text::put(&mut b, ".log");
    assert(b@ =~= log_file(instance as int));
    proof {
        text::lemma_decimal(instance as int);
        reveal_strlit("data-");
        reveal_strlit(".log");
        is_ascii_chars_encode_utf8("data-"@);
        is_ascii_chars_encode_utf8(".log"@);
    }
    text::ascii_string(b.as_slice())
}

/// The name of the snapshot of an instance.
pub open spec fn snap_file(instance: int) -> Seq<u8> {
    text::lit("data-") + text::decimal(instance) + text::lit(".snap")
}

/// The name of the snapshot of an instance.
pub fn snap_name(instance: i32) -> (r: String)
    ensures
        encode_utf8(r@) == snap_file(instance as int),
{
    let mut b: Vec<u8> = Vec::new();
    text::put(&mut b, "data-");
    text::put_i64(&mut b, instance as i64);
    text::put(&mut b, ".snap");
    assert(b@ =~= snap_file(instance as int));
    proof {
        text::lemma_decimal(instance as int);
        reveal_strlit("data-");
        reveal_strlit(".snap");
        is_ascii_chars_encode_utf8("data-"@);
        is_ascii_chars_encode_utf8(".snap"@);
    }
    text::ascii_string(b.as_slice())
}

/// A name without the endings of a log.
pub open spec fn log_stem(name: Seq<char>) -> Seq<char>
    decreases name.len(),
{
    let n = name.len() - 4;
    if n >= 0 && name.skip(n) == seq!['.', 'l', 'o', 'g'] {
        log_stem(name.take(n))
    } else {
        name
    }
}

/// The name of the snapshot that belongs to a log.
pub fn snap_of(log: &str) -> (r: String)
    ensures
        r@ == log_stem(log@) + seq!['.', 's', 'n', 'a', 'p'],
{
    let mut t: Vec<char> = text::chars_of(log);
    while t.len() >= 4 && t[t.len() - 4] == '.' && t[t.len() - 3] == 'l' && t[t.len() - 2] == 'o'
        && t[t.len() - 1] == 'g'
        invariant
            log_stem(t@) == log_stem(log@),
        decreases t@.len(),
    {
        let n: usize = t.len() - 4;
        assert(t@.skip(n as int) =~= seq!['.', 'l', 'o', 'g']);
        t = text::sub_chars(&t, 0, n);
        assert(t@.len() == n);
    }
    proof {
        let n = t@.len() - 4;
        if n >= 0 && t@.skip(n) == seq!['.', 'l', 'o', 'g'] {
            assert(t@.skip(n)[0] == '.' && t@.skip(n)[1] == 'l');
            assert(t@.skip(n)[2] == 'o' && t@.skip(n)[3] == 'g');
        }
    }
    let ghost stem = t@;
    t.push('.');
    t.push('s');
    t.push('n');
    t.push('a');
    t.push('p');
    assert(t@ =~= stem + seq!['.', 's', 'n', 'a', 'p']);
    text::string_of(&t)
}

fn to_link(code: &str, e: &Entry) -> (r: Link)
    ensures
        r@ == link_of(code@, e@),
{
    Link {
        code: code.to_string(),
        url: e.u.clone(),
        hits: e.h,
        created_at: e.a,
        expires_at: if e.e != 0 {
            Some(e.e)
        } else {
            None
        },
    }
}

} // verus!
