//! The append-only log: lines queued for one write, lines read back, the logs
//! of siblings followed as they grow, and the claim of an instance id.

use vstd::prelude::*;
use vstd::utf8::*;

use crate::sort;
use crate::sort::Ranked;
use crate::text;

verus! {

/// The byte that ends a line.
pub const NL: u8 = 10;

// ---------- writing ----------

/// The log of this instance, on its way to the file: lines are queued, and a
/// flush hands all of them over to be written in one go.
pub struct Aof {
    buf: Vec<u8>,
    out: Vec<u8>,
}

/// What is queued and what was handed over and not yet taken.
#[verifier::ext_equal]
pub ghost struct AofView {
    pub queued: Seq<u8>,
    pub flushed: Seq<u8>,
}

impl View for Aof {
    type V = AofView;

    closed spec fn view(&self) -> AofView {
        AofView { queued: self.buf@, flushed: self.out@ }
    }
}

impl Aof {
    /// A log with nothing to write.
    pub fn new() -> (r: Aof)
        ensures
            r@ == (AofView { queued: Seq::empty(), flushed: Seq::empty() }),
    {
        let r = Aof { buf: Vec::new(), out: Vec::new() };
        assert(r@.queued =~= Seq::empty() && r@.flushed =~= Seq::empty());
        r
    }

    /// Queues one line.
    pub fn push(&mut self, line: &[u8])
        ensures
            final(self)@ == (AofView {
                queued: old(self)@.queued + line@ + seq![NL],
                ..old(self)@
            }),
    {
        text::put_bytes(&mut self.buf, line);
        self.buf.push(NL);
        assert(self.buf@ =~= old(self).buf@ + line@ + seq![NL]);
    }

    /// Queues bytes as they are.
    pub fn push_raw(&mut self, bytes: &[u8])
        ensures
            final(self)@ == (AofView { queued: old(self)@.queued + bytes@, ..old(self)@ }),
    {
        text::put_bytes(&mut self.buf, bytes);
    }

    /// How many bytes are queued.
    pub fn pending_bytes(&self) -> (r: usize)
        ensures
            r == self@.queued.len(),
    {
        self.buf.len()
    }

    /// Hands everything that is queued over.
    pub fn flush(&mut self)
        ensures
            final(self)@ == (AofView {
                queued: Seq::empty(),
                flushed: old(self)@.flushed + old(self)@.queued,
            }),
    {
        if self.buf.len() > 0 {
            text::put_bytes(&mut self.out, self.buf.as_slice());
            self.buf.clear();
        }
        assert(self.out@ =~= old(self).out@ + old(self).buf@);
        assert(self.buf@ =~= Seq::empty());
    }

    /// The bytes that were handed over and have to be written next.
    pub fn take(&mut self) -> (r: Vec<u8>)
        ensures
            r@ == old(self)@.flushed,
            final(self)@ == (AofView { flushed: Seq::empty(), ..old(self)@ }),
    {
        let mut r: Vec<u8> = Vec::new();
        std::mem::swap(&mut r, &mut self.out);
        assert(self.out@ =~= Seq::empty());
        r
    }

    /// Forgets what was not written: a snapshot holds it.
    pub fn truncate(&mut self)
        ensures
            final(self)@ == (AofView { queued: Seq::empty(), flushed: Seq::empty() }),
    {
        self.buf.clear();
        self.out.clear();
        assert(self.buf@ =~= Seq::empty() && self.out@ =~= Seq::empty());
    }
}

// ---------- reading ----------

/// The complete lines of a log that are not empty.
pub open spec fn lines(b: Seq<u8>) -> Seq<Seq<u8>>
    decreases b.len(),
{
    let i = text::index_from(b, 0, NL);
    if i < 0 || i >= b.len() {
        Seq::empty()
    } else if i == 0 {
        lines(b.skip(1))
    } else {
        seq![b.take(i)] + lines(b.skip(i + 1))
    }
}

/// What stands behind the last complete line.
pub open spec fn torn(b: Seq<u8>) -> Seq<u8>
    decreases b.len(),
{
    let i = text::index_from(b, 0, NL);
    if i < 0 || i >= b.len() {
        b
    } else {
        torn(b.skip(i + 1))
    }
}

/// The bytes of each of several lines.
pub open spec fn bytes_of(v: Seq<Vec<u8>>) -> Seq<Seq<u8>> {
    Seq::new(v.len(), |i: int| v[i]@)
}

fn split_lines(b: &[u8]) -> (r: (Vec<Vec<u8>>, usize))
    ensures
        bytes_of(r.0@) == lines(b@),
        r.1 <= b@.len(),
        b@.skip(r.1 as int) == torn(b@),
{
    let mut out: Vec<Vec<u8>> = Vec::new();
    let mut start: usize = 0;
    let mut i: usize = text::find_byte(b, 0, NL);
    assert(b@.skip(0) =~= b@);
    assert(bytes_of(out@) + lines(b@) =~= lines(b@));
    while i < b.len()
        invariant
            start <= i <= b@.len(),
            i == text::index_from(b@, start as int, NL),
            bytes_of(out@) + lines(b@.skip(start as int)) == lines(b@),
            torn(b@.skip(start as int)) == torn(b@),
        decreases b@.len() - start,
    {
        let ghost rest = b@.skip(start as int);
        let ghost before = bytes_of(out@);
        proof {
            text::lemma_index_shift(b@, start as int, NL);
        }
        assert(rest.skip(i - start + 1) =~= b@.skip(i + 1));
        if i > start {
            let line: Vec<u8> = text::copy_bytes(vstd::slice::slice_subrange(b, start, i));
            assert(line@ =~= rest.take(i - start));
            out.push(line);
            assert(bytes_of(out@) =~= before + seq![line@]);
        } else {
            assert(bytes_of(out@) =~= before);
        }
        start = i + 1;
        i = text::find_byte(b, start, NL);
        assert(bytes_of(out@) + lines(b@.skip(start as int)) =~= before + lines(rest));
    }
    proof {
        text::lemma_index_shift(b@, start as int, NL);
        assert(bytes_of(out@) + lines(b@.skip(start as int)) =~= bytes_of(out@));
    }
    (out, start)
}

/// The complete lines of a log, as they are to be applied. A torn line at the
/// end is left out.
pub fn replay_file(contents: &[u8]) -> (r: Vec<Vec<u8>>)
    ensures
        bytes_of(r@) == lines(contents@),
{
    split_lines(contents).0
}

/// Lines come the same whether a log is read in one go or in two: the torn end
/// of the first part belongs in front of the second.
pub proof fn law_lines_of_parts(a: Seq<u8>, b: Seq<u8>)
    ensures
        lines(a + b) == lines(a) + lines(torn(a) + b),
        torn(a + b) == torn(torn(a) + b),
    decreases a.len(),
{
    let i = text::index_from(a, 0, NL);
    text::lemma_index_from(a, 0, NL);
    if i >= a.len() {
        assert(lines(a) + lines(torn(a) + b) =~= lines(a + b));
    } else {
        text::lemma_index_is(a + b, 0, NL, i);
        assert((a + b).skip(i + 1) =~= a.skip(i + 1) + b);
        assert((a + b).take(i) =~= a.take(i));
        law_lines_of_parts(a.skip(i + 1), b);
        assert(lines(a + b) =~= lines(a) + lines(torn(a) + b));
    }
}

/// A line that was pushed comes back, and the lines behind it after it.
pub proof fn law_pushed_line_comes_back(l: Seq<u8>, rest: Seq<u8>)
    requires
        l.len() > 0,
        forall|k: int| 0 <= k < l.len() ==> l[k] != NL,
    ensures
        lines(l + seq![NL] + rest) == seq![l] + lines(rest),
        torn(l + seq![NL] + rest) == torn(rest),
{
    let b = l + seq![NL] + rest;
    text::lemma_index_is(b, 0, NL, l.len() as int);
    assert(b.take(l.len() as int) =~= l);
    assert(b.skip(l.len() as int + 1) =~= rest);
}

/// A line that is not complete is left out.
pub proof fn law_torn_line_is_left_out(log: Seq<u8>, piece: Seq<u8>)
    requires
        torn(log) == Seq::<u8>::empty(),
        forall|k: int| 0 <= k < piece.len() ==> piece[k] != NL,
    ensures
        lines(log + piece) == lines(log),
{
    law_lines_of_parts(log, piece);
    assert(torn(log) + piece =~= piece);
    text::lemma_index_none(piece, 0, NL);
    assert(lines(log) + lines(piece) =~= lines(log));
}

/// A log that is cut off, wherever that is, has the first lines of the whole one, as
/// they were and in their order.
pub proof fn law_cut_log_keeps_its_front(log: Seq<u8>, n: int)
    requires
        0 <= n <= log.len(),
    ensures
        lines(log.take(n)).len() <= lines(log).len(),
        lines(log.take(n)) == lines(log).take(lines(log.take(n)).len() as int),
{
    let a = log.take(n);
    let b = log.skip(n);
    assert(log =~= a + b);
    law_lines_of_parts(a, b);
    assert(lines(a) =~= lines(log).take(lines(a).len() as int));
}

// ---------- following a sibling ----------

/// How far the log of a sibling was read.
pub struct TailReader {
    pub path: String,
    offset: u64,
    leftover: Vec<u8>,
}

/// The log, how many bytes of it were read, and those of them behind the last
/// complete line.
#[verifier::ext_equal]
pub ghost struct TailView {
    pub path: Seq<char>,
    pub offset: nat,
    pub leftover: Seq<u8>,
}

impl View for TailReader {
    type V = TailView;

    closed spec fn view(&self) -> TailView {
        TailView { path: self.path@, offset: self.offset as nat, leftover: self.leftover@ }
    }
}

/// Nothing read yet.
pub open spec fn tail_start(path: Seq<char>) -> TailView {
    TailView { path, offset: 0, leftover: Seq::empty() }
}

/// A log that is shorter than what was read of it was replaced: it is read
/// from the start again.
pub open spec fn tail_at(t: TailView, size: int) -> TailView {
    if size < t.offset {
        tail_start(t.path)
    } else {
        t
    }
}

/// The part of a log of some size that is to be read next, if there is any: where it begins,
/// and how many bytes it has.
pub open spec fn part_at(t: TailView, size: int) -> Option<(int, int)> {
    let from = tail_at(t, size).offset as int;
    if from < size {
        Some((from, size - from))
    } else {
        None
    }
}

/// What is left of a log after some bytes of it were read.
pub open spec fn tail_after(t: TailView, chunk: Seq<u8>) -> TailView {
    TailView {
        offset: t.offset + chunk.len(),
        leftover: torn(t.leftover + chunk),
        ..t
    }
}

/// A reader that has read a log up to where it is.
pub open spec fn read_up(t: TailView, log: Seq<u8>) -> bool {
    t.offset <= log.len() && t.leftover == torn(log.take(t.offset as int))
}

/// A log that only grows is read completely, each line once, in whatever pieces it
/// is read: the lines that come out are those behind the ones that came before.
pub proof fn law_each_line_is_read_once(t: TailView, log: Seq<u8>, n: int)
    requires
        read_up(t, log),
        t.offset <= n <= log.len(),
    ensures
        read_up(tail_start(t.path), log),
        read_up(tail_after(t, log.subrange(t.offset as int, n)), log),
        lines(log.take(t.offset as int)) + lines(t.leftover + log.subrange(t.offset as int, n)) == lines(
            log.take(n),
        ),
{
    let a = log.take(t.offset as int);
    let b = log.subrange(t.offset as int, n);
    assert(a + b =~= log.take(n));
    law_lines_of_parts(a, b);
    assert(log.take(0) =~= Seq::empty());
}

impl TailReader {
    /// A reader at the start of a log.
    pub fn from_start(path: String) -> (r: TailReader)
        ensures
            r@ == tail_start(path@),
    {
        let ghost p = path@;
        let r = TailReader { path, offset: 0, leftover: Vec::new() };
        assert(r@ =~= tail_start(p));
        r
    }

    /// What to read of a log that has `size` bytes now: from where on, and how
    /// many bytes.
    pub fn to_read(&mut self, size: u64) -> (r: Option<(u64, u64)>)
        ensures
            final(self)@ == tail_at(old(self)@, size as int),
            (match r {
                Some((from, count)) => Some((from as int, count as int)),
                None => None,
            }) == part_at(old(self)@, size as int),
    {
        if size < self.offset {
            self.offset = 0;
            self.leftover.clear();
        }
        assert(self@ =~= tail_at(old(self)@, size as int));
        if size <= self.offset {
            None
        } else {
            Some((self.offset, size - self.offset))
        }
    }

    /// The lines that are complete with the bytes that were read.
    pub fn read_new(&mut self, chunk: &[u8]) -> (r: Vec<Vec<u8>>)
        requires
            old(self)@.offset + chunk@.len() <= u64::MAX,
        ensures
            bytes_of(r@) == lines(old(self)@.leftover + chunk@),
            final(self)@ == tail_after(old(self)@, chunk@),
    {
        self.offset += chunk.len() as u64;
        let mut all: Vec<u8> = Vec::new();
        std::mem::swap(&mut all, &mut self.leftover);
        text::put_bytes(&mut all, chunk);
        let (out, start): (Vec<Vec<u8>>, usize) = split_lines(all.as_slice());
        self.leftover = text::copy_bytes(vstd::slice::slice_subrange(all.as_slice(), start, all.len()));
        assert(self.leftover@ =~= all@.skip(start as int));
        out
    }
}

// ---------- the logs in a directory ----------

/// The name of a log.
pub open spec fn is_log(name: Seq<char>) -> bool {
    text::begins(encode_utf8(name), text::lit("data-")) && text::ends(
        encode_utf8(name),
        text::lit(".log"),
    )
}

/// The logs among some names, but for the own one.
pub open spec fn sibling_logs(names: Seq<Seq<char>>, own: Seq<char>) -> Seq<Seq<char>>
    decreases names.len(),
{
    if names.len() == 0 {
        Seq::empty()
    } else {
        let rest = sibling_logs(names.drop_last(), own);
        if is_log(names.last()) && names.last() != own {
            rest.push(names.last())
        } else {
            rest
        }
    }
}

/// `a` is not behind `b` in the order of bytes.
pub open spec fn bytes_upto(a: Seq<u8>, b: Seq<u8>) -> bool
    decreases a.len(),
{
    a.len() == 0 || (b.len() > 0 && (a[0] < b[0] || (a[0] == b[0] && bytes_upto(
        a.skip(1),
        b.skip(1),
    ))))
}

proof fn lemma_bytes_total(a: Seq<u8>, b: Seq<u8>)
    ensures
        bytes_upto(a, b) || bytes_upto(b, a),
    decreases a.len(),
{
    if a.len() > 0 && b.len() > 0 {
        lemma_bytes_total(a.skip(1), b.skip(1));
    }
}

proof fn lemma_bytes_transitive(a: Seq<u8>, b: Seq<u8>, c: Seq<u8>)
    requires
        bytes_upto(a, b),
        bytes_upto(b, c),
    ensures
        bytes_upto(a, c),
    decreases a.len(),
{
    if a.len() > 0 && b.len() > 0 && c.len() > 0 && a[0] == b[0] && b[0] == c[0] {
        lemma_bytes_transitive(a.skip(1), b.skip(1), c.skip(1));
    }
}

struct Name {
    s: String,
}

impl Ranked for Name {
    closed spec fn upto(&self, other: &Self) -> bool {
        bytes_upto(encode_utf8(self.s@), encode_utf8(other.s@))
    }

    proof fn total(a: &Self, b: &Self) {
        lemma_bytes_total(encode_utf8(a.s@), encode_utf8(b.s@));
    }

    proof fn transitive(a: &Self, b: &Self, c: &Self) {
        lemma_bytes_transitive(encode_utf8(a.s@), encode_utf8(b.s@), encode_utf8(c.s@));
    }

    fn is_upto(&self, other: &Self) -> (r: bool) {
        let a: &[u8] = self.s.as_str().as_bytes();
        let b: &[u8] = other.s.as_str().as_bytes();
        let mut i: usize = 0;
        assert(a@.skip(0) =~= a@);
        assert(b@.skip(0) =~= b@);
        while i < a.len()
            invariant
                i <= a@.len(),
                i <= b@.len(),
                bytes_upto(a@.skip(i as int), b@.skip(i as int)) == bytes_upto(a@, b@),
                a@ == encode_utf8(self.s@),
                b@ == encode_utf8(other.s@),
            decreases a@.len() - i,
        {
            if i == b.len() {
                return false;
            }
            if a[i] != b[i] {
                return a[i] < b[i];
            }
            assert(a@.skip(i as int).skip(1) =~= a@.skip(i + 1));
            assert(b@.skip(i as int).skip(1) =~= b@.skip(i + 1));
            i += 1;
        }
        true
    }
}

/// The texts of several strings.
pub open spec fn texts(v: Seq<String>) -> Seq<Seq<char>> {
    Seq::new(v.len(), |i: int| v[i]@)
}

/// Of the names in a directory the logs of the siblings, in the order of their
/// bytes.
pub fn shard_files(names: &Vec<String>, own: &str) -> (r: Vec<String>)
    ensures
        sort::rearranged(texts(r@), sibling_logs(texts(names@), own@)),
        forall|i: int, j: int|
            0 <= i < j < r@.len() ==> bytes_upto(
                encode_utf8((#[trigger] r@[i])@),
                encode_utf8((#[trigger] r@[j])@),
            ),
{
    let ghost all = texts(names@);
    let mut kept: Vec<Name> = Vec::new();
    let mut i: usize = 0;
    assert(all.take(0) =~= Seq::empty());
    while i < names.len()
        invariant
            i <= names@.len(),
            all == texts(names@),
            Seq::new(kept@.len(), |k: int| kept@[k].s@) == sibling_logs(all.take(i as int), own@),
        decreases names@.len() - i,
    {
        let n: &String = &names[i];
        let b: &[u8] = n.as_str().as_bytes();
        let ghost before = Seq::new(kept@.len(), |k: int| kept@[k].s@);
        assert(all.take(i + 1).drop_last() =~= all.take(i as int));
        assert(all.take(i + 1).last() == n@);
        if text::starts_with(b, "data-".as_bytes()) && text::ends_with(b, ".log".as_bytes())
            && !text::same(n.as_str(), own) {
            kept.push(Name { s: n.clone() });
            assert(Seq::new(kept@.len(), |k: int| kept@[k].s@) =~= before.push(n@));
        }
        i += 1;
    }
    assert(all.take(i as int) =~= all);
    let p: Vec<usize> = sort::sorted_positions(&kept);
    let mut r: Vec<String> = Vec::new();
    let mut k: usize = 0;
    while k < p.len()
        invariant
            k <= p@.len(),
            sort::lists(p@, 0, kept@.len() as int),
            r@.len() == k,
            forall|m: int| 0 <= m < k ==> (#[trigger] r@[m])@ == kept@[p@[m] as int].s@,
        decreases p@.len() - k,
    {
        r.push(kept[p[k]].s.clone());
        k += 1;
    }
    let ghost logs = sibling_logs(all, own@);
    assert(texts(r@) =~= Seq::new(p@.len(), |k: int| logs[p@[k] as int]));
    assert forall|i: int, j: int| 0 <= i < j < r@.len() implies bytes_upto(
        encode_utf8((#[trigger] r@[i])@),
        encode_utf8((#[trigger] r@[j])@),
    ) by {
        assert(sort::precedes(kept@, p@[i] as int, p@[j] as int));
    }
    r
}

/// A log that has become shorter was replaced, and is read from the start; any other is
/// read on from where it was read up to.
pub proof fn law_replaced_log_is_read_again(t: TailView, size: int)
    ensures
        size < t.offset ==> tail_at(t, size).offset == 0 && tail_at(t, size).leftover.len() == 0
            && tail_at(t, size).path == t.path,
        size >= t.offset ==> tail_at(t, size) == t,
        size >= 0 && size < t.offset ==> part_at(t, size) == (if size > 0 {
            Some((0int, size))
        } else {
            None
        }),
        size >= t.offset ==> part_at(t, size) == (if size > t.offset {
            Some((t.offset as int, size - t.offset))
        } else {
            None
        }),
{
}

/// Of two names that are the same up to some byte, the one that has the lower byte there
/// comes first; and one that goes on where the other ends comes behind it.
pub proof fn law_names_are_ordered_by_bytes(
    front: Seq<u8>,
    x: u8,
    y: u8,
    a: Seq<u8>,
    b: Seq<u8>,
)
    requires
        x < y,
    ensures
        bytes_upto(front + seq![x] + a, front + seq![y] + b),
        !bytes_upto(front + seq![y] + b, front + seq![x] + a),
        bytes_upto(front, front + seq![x] + a),
        !bytes_upto(front + seq![x] + a, front),
    decreases front.len(),
{
    let p = front + seq![x] + a;
    let q = front + seq![y] + b;
    if front.len() > 0 {
        let rest = front.skip(1);
        law_names_are_ordered_by_bytes(rest, x, y, a, b);
        assert(p.skip(1) =~= rest + seq![x] + a);
        assert(q.skip(1) =~= rest + seq![y] + b);
        assert(p[0] == front[0] && q[0] == front[0]);
    } else {
        assert(p[0] == x && q[0] == y);
    }
}

// ---------- the claim of an instance id ----------

/// How many ids are tried.
pub const MAX_CLAIMS: i32 = 1024;

/// Where the claim of an instance id stands, and so what has to be done next.
#[derive(Clone, Copy, PartialEq, Eq, Structural)]
pub enum Claim {
    /// Create the lock file of an id, which must not be there yet; `stolen` if a
    /// stale one was removed before.
    Lock { id: i32, stolen: bool },
    /// Read the lock file of an id.
    Read { id: i32 },
    /// Ask whether the process that holds an id is alive.
    Probe { id: i32, pid: i32 },
    /// Remove the stale lock file of an id.
    Steal { id: i32 },
    /// The id is claimed.
    Done { id: i32 },
    /// No id is free.
    Full,
}

/// What came of it.
pub enum ClaimEvent {
    /// Whether the lock file was created.
    Locked(bool),
    /// What the lock file holds, if it could be read.
    Contents(Option<String>),
    /// Whether the process is alive.
    Alive(bool),
    /// The removal was tried.
    Removed,
}

/// Where a claim begins: at the lowest id.
pub fn claim_start() -> (r: Claim)
    ensures
        r == (Claim::Lock { id: 0, stolen: false }),
{
    Claim::Lock { id: 0, stolen: false }
}

/// On to the next id.
pub open spec fn claim_skip(id: i32) -> Claim {
    if id + 1 < MAX_CLAIMS {
        Claim::Lock { id: (id + 1) as i32, stolen: false }
    } else {
        Claim::Full
    }
}

/// The process id that a lock file names, if it names one.
pub open spec fn lock_pid(s: Seq<char>) -> Option<int> {
    match text::int_within(text::trim(s), i32::MIN as int, i32::MAX as int) {
        Some(pid) => if pid > 0 {
            Some(pid)
        } else {
            None
        },
        None => None,
    }
}

/// What to do next.
pub open spec fn claim_next(c: Claim, ev: ClaimEvent) -> Claim {
    match (c, ev) {
        (Claim::Lock { id, stolen }, ClaimEvent::Locked(ok)) => if ok {
            Claim::Done { id }
        } else if stolen {
            claim_skip(id)
        } else {
            Claim::Read { id }
        },
        (Claim::Read { id }, ClaimEvent::Contents(Some(s))) => match lock_pid(s@) {
            Some(pid) => Claim::Probe { id, pid: pid as i32 },
            None => claim_skip(id),
        },
        (Claim::Read { id }, ClaimEvent::Contents(None)) => claim_skip(id),
        (Claim::Probe { id, .. }, ClaimEvent::Alive(alive)) => if alive {
            claim_skip(id)
        } else {
            Claim::Steal { id }
        },
        (Claim::Steal { id }, ClaimEvent::Removed) => Claim::Lock { id, stolen: true },
        _ => c,
    }
}

/// The id that a claim is at.
pub open spec fn claim_id(c: Claim) -> int {
    match c {
        Claim::Lock { id, .. } => id as int,
        Claim::Read { id } => id as int,
        Claim::Probe { id, .. } => id as int,
        Claim::Steal { id } => id as int,
        Claim::Done { id } => id as int,
        Claim::Full => MAX_CLAIMS as int,
    }
}

fn skip_id(id: i32) -> (r: Claim)
    ensures
        r == claim_skip(id),
{
    if id < MAX_CLAIMS - 1 {
        Claim::Lock { id: id + 1, stolen: false }
    } else {
        Claim::Full
    }
}

/// One step of the claim of the lowest free instance id: what was done and what
/// came of it decide what to do next. A lock that no living process holds is
/// stolen.
pub fn claim_instance(c: Claim, ev: ClaimEvent) -> (r: Claim)
    ensures
        r == claim_next(c, ev),
{
    match (c, ev) {
        (Claim::Lock { id, stolen }, ClaimEvent::Locked(ok)) => if ok {
            Claim::Done { id }
        } else if stolen {
            skip_id(id)
        } else {
            Claim::Read { id }
        },
        (Claim::Read { id }, ClaimEvent::Contents(Some(s))) => {
            let t: Vec<char> = text::trimmed(&text::chars_of(s.as_str()));
            match text::parse_i64(&t) {
                Some(pid) => if 0 < pid && pid <= i32::MAX as i64 {
                    Claim::Probe { id, pid: pid as i32 }
                } else {
                    skip_id(id)
                },
                None => skip_id(id),
            }
        },
        (Claim::Read { id }, ClaimEvent::Contents(None)) => skip_id(id),
        (Claim::Probe { id, pid: _ }, ClaimEvent::Alive(alive)) => if alive {
            skip_id(id)
        } else {
            Claim::Steal { id }
        },
        (Claim::Steal { id }, ClaimEvent::Removed) => Claim::Lock { id, stolen: true },
        _ => c,
    }
}

/// Ids are tried one after the other: the claim goes on to the next id only
/// where this one could not be locked, and ends only with the id it is at.
pub proof fn law_ids_in_order(c: Claim, ev: ClaimEvent)
    requires
        c is Full || 0 <= claim_id(c) < MAX_CLAIMS,
    ensures
        claim_next(c, ev) is Full || 0 <= claim_id(claim_next(c, ev)) < MAX_CLAIMS,
        claim_id(claim_next(c, ev)) == claim_id(c) || claim_id(claim_next(c, ev)) == claim_id(c)
            + 1,
        claim_next(c, ev) is Done && !(c is Done) ==> (ev matches ClaimEvent::Locked(ok) && ok)
            && claim_id(claim_next(c, ev)) == claim_id(c),
        claim_next(c, ev) is Full && !(c is Full) ==> claim_id(c) == MAX_CLAIMS - 1,
{
}

/// The lock files of a directory, by id, with what each holds (nothing where it cannot be
/// read), and the processes that are alive.
#[verifier::ext_equal]
pub ghost struct Locks {
    pub files: Map<int, Option<Seq<char>>>,
    pub alive: Set<int>,
}

/// An id that can be claimed has no lock, or one that names a process which is gone.
pub open spec fn claimable(l: Locks, id: int) -> bool {
    !l.files.contains_key(id) || (l.files[id] matches Some(s) && lock_pid(s) matches Some(pid)
        && !l.alive.contains(pid))
}

/// What comes of a step of a claim, and the locks behind it, where nothing else touches
/// them: a lock is created where there was none, read as it is, and removed.
pub open spec fn came_of(l: Locks, c: Claim, ev: ClaimEvent, k: Locks) -> bool {
    match (c, ev) {
        (Claim::Lock { id, .. }, ClaimEvent::Locked(ok)) => {
            &&& ok == !l.files.contains_key(id as int)
            &&& k.alive == l.alive
            &&& k.files == (if ok {
                l.files.insert(id as int, k.files[id as int])
            } else {
                l.files
            })
        },
        (Claim::Read { id }, ClaimEvent::Contents(t)) => {
            &&& k == l
            &&& match t {
                Some(s) => l.files.contains_key(id as int) && l.files[id as int] == Some(s@),
                None => !l.files.contains_key(id as int) || l.files[id as int] is None,
            }
        },
        (Claim::Probe { pid, .. }, ClaimEvent::Alive(a)) => k == l && a == l.alive.contains(
            pid as int,
        ),
        (Claim::Steal { id }, ClaimEvent::Removed) => k == (Locks {
            files: l.files.remove(id as int),
            ..l
        }),
        _ => false,
    }
}

/// A moment of a claim: where it stands, the locks, and what comes of the step.
pub ghost struct ClaimMoment {
    pub c: Claim,
    pub l: Locks,
    pub ev: ClaimEvent,
}

/// One moment of a claim comes after another.
pub open spec fn claim_goes_on(x: ClaimMoment, y: ClaimMoment) -> bool {
    came_of(x.l, x.c, x.ev, y.l) && y.c == claim_next(x.c, x.ev)
}

/// How far a claim has come; it goes on from there only.
spec fn claim_rank(c: Claim) -> int {
    match c {
        Claim::Lock { id, stolen } => 5 * id + if stolen {
            4int
        } else {
            0
        },
        Claim::Read { id } => 5 * id + 1,
        Claim::Probe { id, .. } => 5 * id + 2,
        Claim::Steal { id } => 5 * id + 3,
        Claim::Done { .. } => 5 * MAX_CLAIMS,
        Claim::Full => 5 * MAX_CLAIMS,
    }
}

/// What is known at a moment of a claim that began with the locks `l0`.
spec fn claim_holds(l0: Locks, m: ClaimMoment) -> bool {
    let at = claim_id(m.c);
    &&& m.l.alive == l0.alive
    &&& m.c is Full || 0 <= at < MAX_CLAIMS
    &&& forall|j: int| 0 <= j < at ==> !#[trigger] claimable(l0, j)
    &&& forall|j: int|
        j != at ==> (#[trigger] m.l.files.contains_key(j) <==> l0.files.contains_key(j))
            && m.l.files[j] == l0.files[j]
    &&& match m.c {
        Claim::Lock { stolen, .. } => if stolen {
            claimable(l0, at) && !m.l.files.contains_key(at)
        } else {
            m.l.files == l0.files
        },
        Claim::Read { .. } => m.l.files == l0.files && l0.files.contains_key(at),
        Claim::Probe { pid, .. } => m.l.files == l0.files && l0.files.contains_key(at)
            && l0.files[at] is Some && lock_pid(l0.files[at]->0) == Some(pid as int),
        Claim::Steal { .. } => claimable(l0, at) && m.l.files == l0.files,
        Claim::Done { .. } => claimable(l0, at) && m.l.files.contains_key(at),
        Claim::Full => true,
    }
}

proof fn lemma_claim_step(l0: Locks, x: ClaimMoment, y: ClaimMoment)
    requires
        claim_holds(l0, x),
        claim_goes_on(x, y),
    ensures
        claim_holds(l0, y),
        claim_rank(x.c) < claim_rank(y.c) <= 5 * MAX_CLAIMS,
{
    let at = claim_id(x.c);
    if claim_id(y.c) == at + 1 {
        assert(!claimable(l0, at));
        assert(y.l.files =~= l0.files);
    }
}

proof fn lemma_claim_run(tr: Seq<ClaimMoment>)
    requires
        tr.len() > 0,
        tr[0].c == (Claim::Lock { id: 0, stolen: false }),
        forall|k: int| 0 < k < tr.len() ==> claim_goes_on(tr[k - 1], #[trigger] tr[k]),
    ensures
        claim_holds(tr[0].l, tr.last()),
        tr.len() - 1 <= claim_rank(tr.last().c) <= 5 * MAX_CLAIMS,
    decreases tr.len(),
{
    if tr.len() > 1 {
        let before = tr.drop_last();
        assert forall|k: int| 0 < k < before.len() implies claim_goes_on(
            before[k - 1],
            #[trigger] before[k],
        ) by {
            assert(before[k] == tr[k] && before[k - 1] == tr[k - 1]);
        }
        lemma_claim_run(before);
        lemma_claim_step(tr[0].l, before.last(), tr.last());
    }
}

/// A claim takes the lowest id that has no lock, or one that names a process which is
/// gone, where nothing else touches the locks meanwhile: that id is locked, and no lock of
/// another id changes. It comes out empty only if there is no such id. And it comes to an
/// end.
pub proof fn law_lowest_free_id_is_claimed(tr: Seq<ClaimMoment>, j: int)
    requires
        tr.len() > 0,
        tr[0].c == (Claim::Lock { id: 0, stolen: false }),
        forall|k: int| 0 < k < tr.len() ==> claim_goes_on(tr[k - 1], #[trigger] tr[k]),
    ensures
        tr.last().c matches Claim::Done { id } ==> {
            &&& 0 <= id < MAX_CLAIMS
            &&& claimable(tr[0].l, id as int)
            &&& 0 <= j < id ==> !claimable(tr[0].l, j)
            &&& tr.last().l.files.contains_key(id as int)
            &&& j != id ==> (tr.last().l.files.contains_key(j) <==> tr[0].l.files.contains_key(j))
                && tr.last().l.files[j] == tr[0].l.files[j]
        },
        tr.last().c is Full && 0 <= j < MAX_CLAIMS ==> !claimable(tr[0].l, j),
        tr.len() <= 5 * MAX_CLAIMS + 1,
{
    lemma_claim_run(tr);
}

/// What came of a step says that its id is not to be had: the process that holds it is
/// alive, its lock names none, or it was locked again once it was stolen.
pub open spec fn refuses(c: Claim, ev: ClaimEvent) -> bool {
    match (c, ev) {
        (Claim::Lock { stolen, .. }, ClaimEvent::Locked(ok)) => stolen && !ok,
        (Claim::Read { .. }, ClaimEvent::Contents(Some(s))) => lock_pid(s@) is None,
        (Claim::Read { .. }, ClaimEvent::Contents(None)) => true,
        (Claim::Probe { .. }, ClaimEvent::Alive(alive)) => alive,
        _ => false,
    }
}

/// Whatever others do to the locks meanwhile, no id is passed over: each one below where a
/// claim has come to was refused, and an id is claimed only by its lock.
pub proof fn law_no_id_is_passed_over(tr: Seq<ClaimMoment>, j: int)
    requires
        tr.len() > 0,
        tr[0].c == (Claim::Lock { id: 0, stolen: false }),
        forall|k: int| 0 < k < tr.len() ==> (#[trigger] tr[k]).c == claim_next(
            tr[k - 1].c,
            tr[k - 1].ev,
        ),
    ensures
        tr.last().c is Full || 0 <= claim_id(tr.last().c) < MAX_CLAIMS,
        0 <= j < claim_id(tr.last().c) ==> exists|k: int|
            0 <= k < tr.len() - 1 && claim_id((#[trigger] tr[k]).c) == j && refuses(
                tr[k].c,
                tr[k].ev,
            ),
        tr.last().c matches Claim::Done { id } ==> exists|k: int|
            0 <= k < tr.len() - 1 && ((#[trigger] tr[k]).c matches Claim::Lock { id: at, .. } && at
                == id) && tr[k].ev == ClaimEvent::Locked(true),
    decreases tr.len(),
{
    if tr.len() > 1 {
        let before = tr.drop_last();
        assert forall|k: int| 0 < k < before.len() implies (#[trigger] before[k]).c == claim_next(
            before[k - 1].c,
            before[k - 1].ev,
        ) by {
            assert(before[k] == tr[k] && before[k - 1] == tr[k - 1]);
        }
        law_no_id_is_passed_over(before, j);
        let x = tr[tr.len() - 2];
        assert(before.last() == x);
        law_ids_in_order(x.c, x.ev);
        if 0 <= j < claim_id(tr.last().c) {
            if j < claim_id(x.c) {
                let k = choose|k: int|
                    0 <= k < before.len() - 1 && claim_id((#[trigger] before[k]).c) == j && refuses(
                        before[k].c,
                        before[k].ev,
                    );
                assert(tr[k] == before[k]);
            } else {
                assert(refuses(x.c, x.ev));
            }
        }
        if tr.last().c is Done && x.c is Done {
            let id = x.c->Done_id;
            let k = choose|k: int|
                0 <= k < before.len() - 1 && ((#[trigger] before[k]).c matches Claim::Lock {
                    id: at,
                    ..
                } && at == id) && before[k].ev == ClaimEvent::Locked(true);
            assert(tr[k] == before[k]);
        }
    }
}

/// The name of the lock file of an id.
pub open spec fn lock_file(id: int) -> Seq<u8> {
    text::lit("instance-") + text::decimal(id) + text::lit(".lock")
}

/// The name of the lock file of an id.
pub fn lock_name(id: i32) -> (r: Vec<u8>)
    ensures
        r@ == lock_file(id as int),
{
    let mut b: Vec<u8> = Vec::new();
    text::put(&mut b, "instance-");
    text::put_i64(&mut b, id as i64);
    text::put(&mut b, ".lock");
    assert(b@ =~= lock_file(id as int));
    b
}

} // verus!
