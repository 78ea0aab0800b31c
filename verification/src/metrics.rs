//! Counts of requests: the last minute second by second, and totals.

use vstd::prelude::*;
use vstd::utf8::*;

use crate::text;

verus! {

/// How many seconds are kept.
pub const N: usize = 60;

/// What requests are counted as.
pub const OPS: usize = 11;

/// What has been counted so far.
pub struct Metrics {
    buckets: Vec<i64>,
    cur: i64,
    total: i64,
    started: i64,
    ops: Vec<i64>,
    status: Vec<i64>,
    cache_hit: i64,
    cache_miss: i64,
    store_reads: i64,
    store_read_us: i64,
    store_writes: i64,
    limited: i64,
    links_total: i64,
}

/// What has been counted: requests in each second of the last minute up to the
/// second `cur`, requests in all, the time of the start in ms, requests by
/// operation, replies by class, lookups in the cache, reads of the store and
/// the time they took in us, writes, requests turned away, and links.
#[verifier::ext_equal]
pub ghost struct MetricsView {
    pub buckets: Seq<i64>,
    pub cur: i64,
    pub total: i64,
    pub started: i64,
    pub ops: Seq<i64>,
    pub status: Seq<i64>,
    pub cache_hit: i64,
    pub cache_miss: i64,
    pub store_reads: i64,
    pub store_read_us: i64,
    pub store_writes: i64,
    pub limited: i64,
    pub links_total: i64,
}

impl View for Metrics {
    type V = MetricsView;

    closed spec fn view(&self) -> MetricsView {
        MetricsView {
            buckets: self.buckets@,
            cur: self.cur,
            total: self.total,
            started: self.started,
            ops: self.ops@,
            status: self.status@,
            cache_hit: self.cache_hit,
            cache_miss: self.cache_miss,
            store_reads: self.store_reads,
            store_read_us: self.store_read_us,
            store_writes: self.store_writes,
            limited: self.limited,
            links_total: self.links_total,
        }
    }
}

/// The second that a time in ms falls in, counted towards the epoch.
pub open spec fn second(ms: int) -> int {
    if ms >= 0 {
        ms / 1000
    } else {
        -((-ms) / 1000)
    }
}

fn to_second(ms: i64) -> (r: i64)
    ensures
        r == second(ms as int),
        -9223372036854775 <= r <= 9223372036854775,
{
    if ms >= 0 {
        ms / 1000
    } else if ms == i64::MIN {
        -9223372036854775
    } else {
        -((-ms) / 1000)
    }
}

/// Where a second is counted.
pub open spec fn slot(t: i64) -> int {
    (t as u64 % 60) as int
}

fn slot_of(t: i64) -> (r: usize)
    ensures
        r == slot(t),
        r < N,
{
    (#[verifier::truncate] (t as u64) % 60) as usize
}

/// The counts with the seconds from `from` to `to` at 0.
pub open spec fn cleared(b: Seq<i64>, from: int, to: int) -> Seq<i64>
    decreases to - from + 1,
{
    if from > to {
        b
    } else {
        cleared(b, from, to - 1).update(slot(to as i64), 0)
    }
}

/// One more.
pub open spec fn bumped(b: Seq<i64>, k: int) -> Seq<i64> {
    b.update(k, b[k].wrapping_add(1))
}

/// The class of a status.
pub open spec fn class_of(code: u16) -> int {
    if 200 <= code <= 299 {
        0
    } else if 300 <= code <= 399 {
        1
    } else if 400 <= code <= 499 {
        2
    } else {
        3
    }
}

/// Nothing counted yet.
pub open spec fn no_metrics() -> MetricsView {
    MetricsView {
        buckets: Seq::new(N as nat, |i: int| 0i64),
        cur: 0,
        total: 0,
        started: 0,
        ops: Seq::new(OPS as nat, |i: int| 0i64),
        status: Seq::new(4, |i: int| 0i64),
        cache_hit: 0,
        cache_miss: 0,
        store_reads: 0,
        store_read_us: 0,
        store_writes: 0,
        limited: 0,
        links_total: 0,
    }
}

/// The counts with one more request at a time in ms.
pub open spec fn ticked(m: MetricsView, now: i64) -> MetricsView {
    let s = second(now as int) as i64;
    let b = if s != m.cur {
        cleared(m.buckets, m.cur + 1, s as int)
    } else {
        m.buckets
    };
    MetricsView { total: m.total.wrapping_add(1), cur: s, buckets: bumped(b, slot(s)), ..m }
}

/// The counts when the counting starts.
pub open spec fn begun(m: MetricsView, now: i64) -> MetricsView {
    MetricsView { started: now, cur: second(now as int) as i64, ..m }
}

fn zeros(n: usize) -> (r: Vec<i64>)
    ensures
        r@ == Seq::new(n as nat, |i: int| 0i64),
{
    let mut v: Vec<i64> = Vec::new();
    let mut i: usize = 0;
    while i < n
        invariant
            i <= n,
            v@.len() == i,
            forall|k: int| 0 <= k < i ==> v@[k] == 0,
        decreases n - i,
    {
        v.push(0);
        i += 1;
    }
    assert(v@ =~= Seq::new(n as nat, |i: int| 0i64));
    v
}

/// There is a count for every second, operation and class, and the last second is one that
/// a time in ms falls in.
pub open spec fn whole(m: MetricsView) -> bool {
    &&& m.buckets.len() == N
    &&& m.ops.len() == OPS
    &&& m.status.len() == 4
    &&& -9223372036854775 <= m.cur <= 9223372036854775
}

impl Metrics {
    /// There is a count for every second, operation and class.
    pub closed spec fn wf(&self) -> bool {
        whole(self@)
    }

    /// There is a count for every second, operation and class, and the last second is one
    /// that a time in ms falls in.
    pub proof fn law_every_count_is_there(&self)
        requires
            self.wf(),
        ensures
            whole(self@),
    {
    }

    /// Nothing counted yet.
    pub fn new() -> (r: Metrics)
        ensures
            r.wf(),
            r@ == no_metrics(),
    {
        let r = Metrics {
            buckets: zeros(N),
            cur: 0,
            total: 0,
            started: 0,
            ops: zeros(OPS),
            status: zeros(4),
            cache_hit: 0,
            cache_miss: 0,
            store_reads: 0,
            store_read_us: 0,
            store_writes: 0,
            limited: 0,
            links_total: 0,
        };
        assert(r@ =~= no_metrics());
        r
    }
}

/// The counting starts.
pub fn init(m: &mut Metrics, now: i64)
    requires
        old(m).wf(),
    ensures
        final(m).wf(),
        final(m)@ == begun(old(m)@, now),
{
    m.started = now;
    m.cur = to_second(now);
    assert(m@ =~= begun(old(m)@, now));
}

/// One more request of an operation.
pub fn op(m: &mut Metrics, i: usize)
    requires
        old(m).wf(),
        i < OPS,
    ensures
        final(m).wf(),
        final(m)@ == (MetricsView { ops: bumped(old(m)@.ops, i as int), ..old(m)@ }),
{
    let n: i64 = m.ops[i].wrapping_add(1);
    m.ops.set(i, n);
    assert(m@ =~= (MetricsView { ops: bumped(old(m)@.ops, i as int), ..old(m)@ }));
}

/// One more reply.
pub fn status(m: &mut Metrics, code: u16)
    requires
        old(m).wf(),
    ensures
        final(m).wf(),
        final(m)@ == (MetricsView { status: bumped(old(m)@.status, class_of(code)), ..old(m)@ }),
{
    let i: usize = if 200 <= code && code <= 299 {
        0
    } else if 300 <= code && code <= 399 {
        1
    } else if 400 <= code && code <= 499 {
        2
    } else {
        3
    };
    let n: i64 = m.status[i].wrapping_add(1);
    m.status.set(i, n);
    assert(m@ =~= (MetricsView { status: bumped(old(m)@.status, class_of(code)), ..old(m)@ }));
}

/// One more lookup that the cache answered.
pub fn cache_hit(m: &mut Metrics)
    requires
        old(m).wf(),
    ensures
        final(m).wf(),
        final(m)@ == (MetricsView { cache_hit: old(m)@.cache_hit.wrapping_add(1), ..old(m)@ }),
{
    m.cache_hit = m.cache_hit.wrapping_add(1);
    assert(m@ =~= (MetricsView { cache_hit: old(m)@.cache_hit.wrapping_add(1), ..old(m)@ }));
}

/// One more lookup that the cache did not answer.
pub fn cache_miss(m: &mut Metrics)
    requires
        old(m).wf(),
    ensures
        final(m).wf(),
        final(m)@ == (MetricsView { cache_miss: old(m)@.cache_miss.wrapping_add(1), ..old(m)@ }),
{
    m.cache_miss = m.cache_miss.wrapping_add(1);
    assert(m@ =~= (MetricsView { cache_miss: old(m)@.cache_miss.wrapping_add(1), ..old(m)@ }));
}

/// One more read of the store, which took some us.
pub fn store_read(m: &mut Metrics, us: i64)
    requires
        old(m).wf(),
    ensures
        final(m).wf(),
        final(m)@ == (MetricsView {
            store_reads: old(m)@.store_reads.wrapping_add(1),
            store_read_us: old(m)@.store_read_us.wrapping_add(us),
            ..old(m)@
        }),
{
    m.store_reads = m.store_reads.wrapping_add(1);
    m.store_read_us = m.store_read_us.wrapping_add(us);
    assert(m@ =~= (MetricsView {
        store_reads: old(m)@.store_reads.wrapping_add(1),
        store_read_us: old(m)@.store_read_us.wrapping_add(us),
        ..old(m)@
    }));
}

/// One more write to the store.
pub fn store_write(m: &mut Metrics)
    requires
        old(m).wf(),
    ensures
        final(m).wf(),
        final(m)@ == (MetricsView {
            store_writes: old(m)@.store_writes.wrapping_add(1),
            ..old(m)@
        }),
{
    m.store_writes = m.store_writes.wrapping_add(1);
    assert(m@ =~= (MetricsView {
        store_writes: old(m)@.store_writes.wrapping_add(1),
        ..old(m)@
    }));
}

/// Some links more, or less.
pub fn links_delta(m: &mut Metrics, n: i64)
    requires
        old(m).wf(),
    ensures
        final(m).wf(),
        final(m)@ == (MetricsView {
            links_total: old(m)@.links_total.wrapping_add(n),
            ..old(m)@
        }),
{
    m.links_total = m.links_total.wrapping_add(n);
    assert(m@ =~= (MetricsView { links_total: old(m)@.links_total.wrapping_add(n), ..old(m)@ }));
}

/// One more request turned away.
pub fn limited(m: &mut Metrics)
    requires
        old(m).wf(),
    ensures
        final(m).wf(),
        final(m)@ == (MetricsView { limited: old(m)@.limited.wrapping_add(1), ..old(m)@ }),
{
    m.limited = m.limited.wrapping_add(1);
    assert(m@ =~= (MetricsView { limited: old(m)@.limited.wrapping_add(1), ..old(m)@ }));
}

/// One more request, at a time in ms.
pub fn tick(m: &mut Metrics, now: i64)
    requires
        old(m).wf(),
    ensures
        final(m).wf(),
        final(m)@ == ticked(old(m)@, now),
{
    m.total = m.total.wrapping_add(1);
    let s: i64 = to_second(now);
    let c: i64 = m.cur;
    let ghost was = m.buckets@;
    if s != c {
        m.cur = s;
        let mut t: i64 = c + 1;
        while t <= s
            invariant
                c < t,
                t <= s + 1 || t == c + 1,
                -9223372036854775 <= c <= 9223372036854775,
                s <= 9223372036854775,
                was.len() == N,
                m.buckets@ == cleared(was, c + 1, t - 1),
                m.buckets@.len() == N,
                m.cur == s,
                m.total == old(m).total.wrapping_add(1),
                m.started == old(m).started,
                m.ops == old(m).ops,
                m.status == old(m).status,
                m.cache_hit == old(m).cache_hit,
                m.cache_miss == old(m).cache_miss,
                m.store_reads == old(m).store_reads,
                m.store_read_us == old(m).store_read_us,
                m.store_writes == old(m).store_writes,
                m.limited == old(m).limited,
                m.links_total == old(m).links_total,
            decreases s - t + 1,
        {
            m.buckets.set(slot_of(t), 0);
            t += 1;
        }
        assert(m.buckets@ == cleared(was, c + 1, s as int));
    }
    let k: usize = slot_of(s);
    let n: i64 = m.buckets[k].wrapping_add(1);
    m.buckets.set(k, n);
    assert(m@ =~= ticked(old(m)@, now));
}

// ---------- reports ----------

/// The requests of one second: the last minute is known, up to the second of
/// the last request.
pub open spec fn in_second(m: MetricsView, t: int) -> i64 {
    if t <= m.cur && m.cur - t < N {
        m.buckets[slot(t as i64)]
    } else {
        0
    }
}

/// The last 30 complete seconds and the current one.
pub open spec fn window(m: MetricsView, now: i64) -> Seq<i64> {
    Seq::new(31, |i: int| in_second(m, second(now as int) - 30 + i))
}

/// Requests per second over the last five complete seconds, with one decimal
/// where it is not 0.
pub open spec fn rate_text(sum: int) -> Seq<u8> {
    let n = if sum < 0 {
        -sum
    } else {
        sum
    };
    (if sum < 0 {
        seq![45u8]
    } else {
        Seq::empty()
    }) + text::decimal(n / 5) + (if n % 5 == 0 {
        Seq::empty()
    } else {
        seq![46u8, (48 + n % 5 * 2) as u8]
    })
}

/// Numbers with commas between them.
pub open spec fn comma_list(v: Seq<i64>) -> Seq<u8>
    decreases v.len(),
{
    if v.len() == 0 {
        Seq::empty()
    } else if v.len() == 1 {
        text::decimal(v[0] as int)
    } else {
        comma_list(v.drop_last()) + seq![44u8] + text::decimal(v.last() as int)
    }
}

/// How long the counting has gone on, in seconds.
pub open spec fn uptime(m: MetricsView, now: i64) -> int {
    second(now.wrapping_sub(m.started) as int)
}

/// The report as JSON.
pub open spec fn snapshot_bytes(m: MetricsView, now: i64) -> Seq<u8> {
    let w = window(m, now);
    text::lit("{\"req_s\":") + rate_text(w[25] + w[26] + w[27] + w[28] + w[29]) + text::lit(
        ",\"total\":",
    ) + text::decimal(m.total as int) + text::lit(",\"uptime_s\":") + text::decimal(uptime(m, now))
        + text::lit(",\"per_second\":[") + comma_list(w) + text::lit("]}")
}

fn put_rate(b: &mut Vec<u8>, sum: i128)
    requires
        -46116860184273879040 <= sum <= 46116860184273879040,
    ensures
        final(b)@ == old(b)@ + rate_text(sum as int),
{
    let n: u128 = if sum < 0 {
        (-sum) as u128
    } else {
        sum as u128
    };
    if sum < 0 {
        b.push(45);
    }
    text::put_u64(b, (n / 5) as u64);
    if n % 5 != 0 {
        b.push(46);
        b.push(48 + (n % 5) as u8 * 2);
    }
    assert(b@ =~= old(b)@ + rate_text(sum as int));
}

fn put_list(b: &mut Vec<u8>, v: &Vec<i64>)
    ensures
        final(b)@ == old(b)@ + comma_list(v@),
{
    let mut i: usize = 0;
    assert(v@.take(0) =~= Seq::empty());
    assert(b@ =~= old(b)@ + comma_list(v@.take(0)));
    while i < v.len()
        invariant
            i <= v@.len(),
            b@ == old(b)@ + comma_list(v@.take(i as int)),
        decreases v@.len() - i,
    {
        let ghost before = comma_list(v@.take(i as int));
        if i > 0 {
            b.push(44);
        }
        text::put_i64(b, v[i]);
        i += 1;
        assert(v@.take(i as int).drop_last() =~= v@.take(i - 1));
        assert(b@ =~= old(b)@ + comma_list(v@.take(i as int)));
    }
    assert(v@.take(i as int) =~= v@);
}

fn window_of(m: &Metrics, now: i64) -> (r: Vec<i64>)
    requires
        m.wf(),
    ensures
        r@ == window(m@, now),
{
    let s: i64 = to_second(now);
    let mut w: Vec<i64> = Vec::new();
    let mut i: i64 = 0;
    while i < 31
        invariant
            0 <= i <= 31,
            m.wf(),
            s == second(now as int),
            -9223372036854775 <= s <= 9223372036854775,
            w@.len() == i,
            forall|k: int| 0 <= k < i ==> w@[k] == #[trigger] in_second(m@, s - 30 + k),
        decreases 31 - i,
    {
        let t: i64 = s - 30 + i;
        let n: i64 = if t <= m.cur && m.cur - t < N as i64 {
            m.buckets[slot_of(t)]
        } else {
            0
        };
        w.push(n);
        i += 1;
    }
    assert(w@ =~= window(m@, now));
    w
}

/// The report as JSON: requests per second, in all, how long the counting has
/// gone on, and the last 30 complete seconds with the current one.
pub fn snapshot(m: &Metrics, now: i64) -> (r: Vec<u8>)
    requires
        m.wf(),
    ensures
        r@ == snapshot_bytes(m@, now),
{
    let w: Vec<i64> = window_of(m, now);
    let sum: i128 = w[25] as i128 + w[26] as i128 + w[27] as i128 + w[28] as i128 + w[29] as i128;
    let up: i64 = to_second(now.wrapping_sub(m.started));
    let mut b: Vec<u8> = Vec::new();
    text::put(&mut b, "{\"req_s\":");
    assert(b@ =~= text::lit("{\"req_s\":"));
    put_rate(&mut b, sum);
    text::put(&mut b, ",\"total\":");
    text::put_i64(&mut b, m.total);
    text::put(&mut b, ",\"uptime_s\":");
    text::put_i64(&mut b, up);
    text::put(&mut b, ",\"per_second\":[");
    put_list(&mut b, &w);
    text::put(&mut b, "]}");
    b
}

/// The name of an operation.
pub open spec fn op_text(i: int) -> Seq<char> {
    if i == 0 {
        "redirect"@
    } else if i == 1 {
        "shorten"@
    } else if i == 2 {
        "shorten_bulk"@
    } else if i == 3 {
        "update"@
    } else if i == 4 {
        "delete"@
    } else if i == 5 {
        "list"@
    } else if i == 6 {
        "stats"@
    } else if i == 7 {
        "health"@
    } else if i == 8 {
        "metrics"@
    } else if i == 9 {
        "ui"@
    } else {
        "other"@
    }
}

/// The name of an operation.
pub fn op_name(i: usize) -> (r: &'static str)
    ensures
        r@ == op_text(i as int),
{
    if i == 0 {
        "redirect"
    } else if i == 1 {
        "shorten"
    } else if i == 2 {
        "shorten_bulk"
    } else if i == 3 {
        "update"
    } else if i == 4 {
        "delete"
    } else if i == 5 {
        "list"
    } else if i == 6 {
        "stats"
    } else if i == 7 {
        "health"
    } else if i == 8 {
        "metrics"
    } else if i == 9 {
        "ui"
    } else {
        "other"
    }
}

/// The name of a class of replies.
pub open spec fn class_text(i: int) -> Seq<char> {
    if i == 0 {
        "2xx"@
    } else if i == 1 {
        "3xx"@
    } else if i == 2 {
        "4xx"@
    } else {
        "5xx"@
    }
}

fn class_name(i: usize) -> (r: &'static str)
    ensures
        r@ == class_text(i as int),
{
    if i == 0 {
        "2xx"
    } else if i == 1 {
        "3xx"
    } else if i == 2 {
        "4xx"
    } else {
        "5xx"
    }
}

/// One line of the exposition: a metric, its labels if it has any, its value.
pub open spec fn sample(m: Seq<u8>, labels: Seq<u8>, v: int) -> Seq<u8> {
    m + (if labels.len() > 0 {
        seq![123u8] + labels + seq![125u8]
    } else {
        Seq::empty()
    }) + seq![32u8] + text::decimal(v) + seq![10u8]
}

/// A label.
pub open spec fn label(key: Seq<u8>, value: Seq<u8>) -> Seq<u8> {
    key + text::lit("=\"") + value + text::lit("\"")
}

/// The two lines in front of a metric.
pub open spec fn heading(m: Seq<u8>, help: Seq<u8>, ty: Seq<u8>) -> Seq<u8> {
    text::lit("# HELP ") + m + text::lit(" ") + help + text::lit("\n# TYPE ") + m + text::lit(" ")
        + ty + text::lit("\n")
}

/// The line of an operation.
pub open spec fn op_line(i: int, v: i64) -> Seq<u8> {
    sample(
        text::lit("shrt_requests_total"),
        label(text::lit("op"), encode_utf8(op_text(i))),
        v as int,
    )
}

/// The line of a class.
pub open spec fn class_line(i: int, v: i64) -> Seq<u8> {
    sample(
        text::lit("shrt_responses_total"),
        label(text::lit("class"), encode_utf8(class_text(i))),
        v as int,
    )
}

/// The lines of the first `k` operations.
pub open spec fn op_samples(ops: Seq<i64>, k: int) -> Seq<u8>
    decreases k,
{
    if k <= 0 {
        Seq::empty()
    } else {
        op_samples(ops, k - 1) + op_line(k - 1, ops[k - 1])
    }
}

/// The lines of the first `k` classes.
pub open spec fn class_samples(status: Seq<i64>, k: int) -> Seq<u8>
    decreases k,
{
    if k <= 0 {
        Seq::empty()
    } else {
        class_samples(status, k - 1) + class_line(k - 1, status[k - 1])
    }
}

/// A metric without labels.
pub open spec fn single(m: Seq<u8>, help: Seq<u8>, ty: Seq<u8>, v: int) -> Seq<u8> {
    heading(m, help, ty) + sample(m, Seq::empty(), v)
}

/// The heading of the operations.
pub open spec fn ops_heading() -> Seq<u8> {
    heading(
        text::lit("shrt_requests_total"),
        text::lit("Requests by operation"),
        text::lit("counter"),
    )
}

/// The heading of the classes.
pub open spec fn classes_heading() -> Seq<u8> {
    heading(
        text::lit("shrt_responses_total"),
        text::lit("Responses by status class"),
        text::lit("counter"),
    )
}

/// The exposition.
pub open spec fn prometheus_bytes(m: MetricsView, now: i64) -> Seq<u8> {
    ops_heading() + op_samples(m.ops, OPS as int) + classes_heading() + class_samples(m.status, 4)
        + tail_bytes(m, now)
}

/// What stands in the exposition behind the classes.
pub open spec fn tail_bytes(m: MetricsView, now: i64) -> Seq<u8> {
    heading(
        text::lit("shrt_cache_lookups_total"),
        text::lit("Local hot-cache lookups"),
        text::lit("counter"),
    ) + sample(
        text::lit("shrt_cache_lookups_total"),
        label(text::lit("result"), text::lit("hit")),
        m.cache_hit as int,
    ) + sample(
        text::lit("shrt_cache_lookups_total"),
        label(text::lit("result"), text::lit("miss")),
        m.cache_miss as int,
    ) + single(
        text::lit("shrt_store_reads_total"),
        text::lit("Backing-store point reads (cache misses)"),
        text::lit("counter"),
        m.store_reads as int,
    ) + single(
        text::lit("shrt_store_read_us_total"),
        text::lit("Cumulative backing-store read latency (us)"),
        text::lit("counter"),
        m.store_read_us as int,
    ) + single(
        text::lit("shrt_store_writes_total"),
        text::lit("Backing-store writes"),
        text::lit("counter"),
        m.store_writes as int,
    ) + single(
        text::lit("shrt_rate_limited_total"),
        text::lit("Requests rejected by the rate limiter"),
        text::lit("counter"),
        m.limited as int,
    ) + single(
        text::lit("shrt_links_total"),
        text::lit("Live links created minus deleted"),
        text::lit("gauge"),
        m.links_total as int,
    ) + single(
        text::lit("shrt_uptime_seconds"),
        text::lit("Process uptime"),
        text::lit("gauge"),
        uptime(m, now),
    )
}

/// Appends one line of the exposition.
pub fn pline(b: &mut Vec<u8>, m: &str, labels: &[u8], v: i64)
    ensures
        final(b)@ == old(b)@ + sample(encode_utf8(m@), labels@, v as int),
{
    let mut line: Vec<u8> = Vec::new();
    text::put(&mut line, m);
    if labels.len() > 0 {
        line.push(123);
        text::put_bytes(&mut line, labels);
        line.push(125);
    }
    line.push(32);
    text::put_i64(&mut line, v);
    line.push(10);
    assert(line@ =~= sample(encode_utf8(m@), labels@, v as int));
    text::put_bytes(b, line.as_slice());
}

fn make_label(key: &str, value: &str) -> (r: Vec<u8>)
    ensures
        r@ == label(encode_utf8(key@), encode_utf8(value@)),
        r@.len() > 0,
{
    let mut b: Vec<u8> = Vec::new();
    text::put(&mut b, key);
    text::put(&mut b, "=\"");
    text::put(&mut b, value);
    text::put(&mut b, "\"");
    assert(b@ =~= label(encode_utf8(key@), encode_utf8(value@)));
    proof {
        reveal_strlit("\"");
        is_ascii_chars_encode_utf8("\""@);
    }
    b
}

fn put_heading(b: &mut Vec<u8>, m: &str, help: &str, ty: &str)
    ensures
        final(b)@ == old(b)@ + heading(encode_utf8(m@), encode_utf8(help@), encode_utf8(ty@)),
{
    let mut line: Vec<u8> = Vec::new();
    text::put(&mut line, "# HELP ");
    assert(line@ =~= text::lit("# HELP "));
    text::put(&mut line, m);
    text::put(&mut line, " ");
    text::put(&mut line, help);
    text::put(&mut line, "\n# TYPE ");
    text::put(&mut line, m);
    text::put(&mut line, " ");
    text::put(&mut line, ty);
    text::put(&mut line, "\n");
    text::put_bytes(b, line.as_slice());
}

fn put_single(b: &mut Vec<u8>, m: &str, help: &str, ty: &str, v: i64)
    ensures
        final(b)@ == old(b)@ + single(
            encode_utf8(m@),
            encode_utf8(help@),
            encode_utf8(ty@),
            v as int,
        ),
{
    let mut part: Vec<u8> = Vec::new();
    put_heading(&mut part, m, help, ty);
    let none: Vec<u8> = Vec::new();
    assert(none@ =~= Seq::<u8>::empty());
    pline(&mut part, m, none.as_slice(), v);
    assert(part@ =~= single(encode_utf8(m@), encode_utf8(help@), encode_utf8(ty@), v as int));
    text::put_bytes(b, part.as_slice());
}

fn put_ops(b: &mut Vec<u8>, m: &Metrics)
    requires
        m.wf(),
    ensures
        final(b)@ == old(b)@ + op_samples(m@.ops, OPS as int),
{
    let mut part: Vec<u8> = Vec::new();
    let mut i: usize = 0;
    assert(part@ =~= op_samples(m@.ops, 0));
    while i < OPS
        invariant
            i <= OPS,
            m.wf(),
            part@ == op_samples(m@.ops, i as int),
        decreases OPS - i,
    {
        let l: Vec<u8> = make_label("op", op_name(i));
        pline(&mut part, "shrt_requests_total", l.as_slice(), m.ops[i]);
        i += 1;
    }
    text::put_bytes(b, part.as_slice());
}

fn put_classes(b: &mut Vec<u8>, m: &Metrics)
    requires
        m.wf(),
    ensures
        final(b)@ == old(b)@ + class_samples(m@.status, 4),
{
    let mut part: Vec<u8> = Vec::new();
    let mut i: usize = 0;
    assert(part@ =~= class_samples(m@.status, 0));
    while i < 4
        invariant
            i <= 4,
            m.wf(),
            part@ == class_samples(m@.status, i as int),
        decreases 4 - i,
    {
        let l: Vec<u8> = make_label("class", class_name(i));
        pline(&mut part, "shrt_responses_total", l.as_slice(), m.status[i]);
        i += 1;
    }
    text::put_bytes(b, part.as_slice());
}

/// The report in the text format of Prometheus.
pub fn prometheus(m: &Metrics, now: i64) -> (r: Vec<u8>)
    requires
        m.wf(),
    ensures
        r@ == prometheus_bytes(m@, now),
{
    let up: i64 = to_second(now.wrapping_sub(m.started));
    let mut b: Vec<u8> = Vec::new();
    put_heading(&mut b, "shrt_requests_total", "Requests by operation", "counter");
    assert(b@ =~= heading(
        text::lit("shrt_requests_total"),
        text::lit("Requests by operation"),
        text::lit("counter"),
    ));
    put_ops(&mut b, m);
    put_heading(&mut b, "shrt_responses_total", "Responses by status class", "counter");
    put_classes(&mut b, m);
    put_heading(&mut b, "shrt_cache_lookups_total", "Local hot-cache lookups", "counter");
    let hit: Vec<u8> = make_label("result", "hit");
    let miss: Vec<u8> = make_label("result", "miss");
    pline(&mut b, "shrt_cache_lookups_total", hit.as_slice(), m.cache_hit);
    pline(&mut b, "shrt_cache_lookups_total", miss.as_slice(), m.cache_miss);
    put_single(
        &mut b,
        "shrt_store_reads_total",
        "Backing-store point reads (cache misses)",
        "counter",
        m.store_reads,
    );
    put_single(
        &mut b,
        "shrt_store_read_us_total",
        "Cumulative backing-store read latency (us)",
        "counter",
        m.store_read_us,
    );
    put_single(
        &mut b,
        "shrt_store_writes_total",
        "Backing-store writes",
        "counter",
        m.store_writes,
    );
    put_single(
        &mut b,
        "shrt_rate_limited_total",
        "Requests rejected by the rate limiter",
        "counter",
        m.limited,
    );
    put_single(
        &mut b,
        "shrt_links_total",
        "Live links created minus deleted",
        "gauge",
        m.links_total,
    );
    put_single(&mut b, "shrt_uptime_seconds", "Process uptime", "gauge", up);
    b
}

proof fn lemma_cleared_before(b: Seq<i64>, from: int, to: int, t: int)
    requires
        b.len() == N,
        0 <= t < from,
        to - t < N,
        to <= i64::MAX,
    ensures
        cleared(b, from, to).len() == N,
        cleared(b, from, to)[slot(t as i64)] == b[slot(t as i64)],
    decreases to - from + 1,
{
    if from <= to {
        lemma_cleared_before(b, from, to - 1, t);
        assert(slot(to as i64) == to % 60);
        assert(slot(t as i64) == t % 60);
        assert(to % 60 != t % 60) by (nonlinear_arith)
            requires
                0 <= t < to,
                to - t < 60,
        ;
    }
}

proof fn lemma_cleared_within(b: Seq<i64>, from: int, to: int, t: int)
    requires
        b.len() == N,
        0 <= from <= t <= to <= i64::MAX,
    ensures
        cleared(b, from, to).len() == N,
        cleared(b, from, to)[slot(t as i64)] == 0,
    decreases to - from + 1,
{
    assert(slot(t as i64) == t % 60);
    assert(slot(to as i64) == to % 60);
    if t < to {
        lemma_cleared_within(b, from, to - 1, t);
    } else {
        lemma_cleared_len(b, from, to - 1);
    }
}

proof fn lemma_cleared_len(b: Seq<i64>, from: int, to: int)
    requires
        b.len() == N,
        0 <= from,
        to <= i64::MAX,
    ensures
        cleared(b, from, to).len() == N,
    decreases to - from + 1,
{
    if from <= to {
        assert(slot(to as i64) == to % 60);
        lemma_cleared_len(b, from, to - 1);
    }
}

/// A request counts once, in the second it comes in; the counts of the other
/// seconds of the last minute stay, and seconds without a request count 0.
pub proof fn law_tick_counts_once(m: MetricsView, now: i64, t: int)
    requires
        whole(m),
        0 <= m.cur <= second(now as int),
        0 <= t <= second(now as int),
        second(now as int) - t < N,
    ensures
        in_second(ticked(m, now), t) == (if t == second(now as int) {
            in_second(m, t).wrapping_add(1)
        } else {
            in_second(m, t)
        }),
        ticked(m, now).total == m.total.wrapping_add(1),
{
    let s = second(now as int);
    assert(slot(s as i64) == s % 60);
    assert(slot(t as i64) == t % 60);
    if t < s {
        assert(s % 60 != t % 60) by (nonlinear_arith)
            requires
                0 <= t < s,
                s - t < 60,
        ;
    }
    if s != m.cur {
        lemma_cleared_len(m.buckets, m.cur + 1, s);
        if t <= m.cur {
            lemma_cleared_before(m.buckets, m.cur + 1, s, t);
        } else {
            lemma_cleared_within(m.buckets, m.cur + 1, s, t);
        }
    }
}

/// The report shows a request that has come in: one more in all and in the current second,
/// which begins at 0, and the same counts for the seconds before.
pub proof fn law_report_shows_the_tick(m: MetricsView, now: i64, i: int)
    requires
        whole(m),
        0 <= m.cur <= second(now as int),
        0 <= i <= 30,
        second(now as int) - 30 + i >= 0,
    ensures
        ticked(m, now).total == m.total.wrapping_add(1),
        i < 30 ==> window(ticked(m, now), now)[i] == window(m, now)[i],
        window(ticked(m, now), now)[30] == window(m, now)[30].wrapping_add(1),
        m.cur < second(now as int) ==> window(m, now)[30] == 0,
        m.cur < second(now as int) - 30 + i ==> window(m, now)[i] == 0,
{
    let s = second(now as int);
    law_tick_counts_once(m, now, s - 30 + i);
    law_tick_counts_once(m, now, s);
}

/// Two texts are the same but for one part.
pub open spec fn differ_in(a: Seq<u8>, b: Seq<u8>, in_a: Seq<u8>, in_b: Seq<u8>) -> bool {
    exists|front: Seq<u8>, back: Seq<u8>|
        a == #[trigger] around(front, in_a, back) && b == around(front, in_b, back)
}

/// A text between two others.
pub open spec fn around(front: Seq<u8>, part: Seq<u8>, back: Seq<u8>) -> Seq<u8> {
    front + part + back
}

proof fn lemma_differ_within(
    a: Seq<u8>,
    b: Seq<u8>,
    in_a: Seq<u8>,
    in_b: Seq<u8>,
    front: Seq<u8>,
    back: Seq<u8>,
)
    requires
        differ_in(a, b, in_a, in_b),
    ensures
        differ_in(around(front, a, back), around(front, b, back), in_a, in_b),
{
    let (f, g) = choose|f: Seq<u8>, g: Seq<u8>|
        a == #[trigger] around(f, in_a, g) && b == around(f, in_b, g);
    assert(around(front, a, back) =~= around(front + f, in_a, g + back));
    assert(around(front, b, back) =~= around(front + f, in_b, g + back));
}

proof fn lemma_op_lines(ops: Seq<i64>, i: int, v: i64, k: int)
    requires
        0 <= i < ops.len(),
        0 <= k <= ops.len(),
    ensures
        k <= i ==> op_samples(ops.update(i, v), k) == op_samples(ops, k),
        k > i ==> differ_in(
            op_samples(ops, k),
            op_samples(ops.update(i, v), k),
            op_line(i, ops[i]),
            op_line(i, v),
        ),
    decreases k,
{
    let more = ops.update(i, v);
    if k > 0 {
        lemma_op_lines(ops, i, v, k - 1);
        let none = Seq::<u8>::empty();
        if k - 1 == i {
            let front = op_samples(ops, i);
            assert(op_samples(ops, k) =~= around(front, op_line(i, ops[i]), none));
            assert(op_samples(more, k) =~= around(front, op_line(i, v), none));
        } else if k - 1 > i {
            let last = op_line(k - 1, ops[k - 1]);
            lemma_differ_within(
                op_samples(ops, k - 1),
                op_samples(more, k - 1),
                op_line(i, ops[i]),
                op_line(i, v),
                none,
                last,
            );
            assert(op_samples(ops, k) =~= around(none, op_samples(ops, k - 1), last));
            assert(op_samples(more, k) =~= around(none, op_samples(more, k - 1), last));
        }
    }
}

proof fn lemma_class_lines(status: Seq<i64>, i: int, v: i64, k: int)
    requires
        0 <= i < status.len(),
        0 <= k <= status.len(),
    ensures
        k <= i ==> class_samples(status.update(i, v), k) == class_samples(status, k),
        k > i ==> differ_in(
            class_samples(status, k),
            class_samples(status.update(i, v), k),
            class_line(i, status[i]),
            class_line(i, v),
        ),
    decreases k,
{
    let more = status.update(i, v);
    if k > 0 {
        lemma_class_lines(status, i, v, k - 1);
        let none = Seq::<u8>::empty();
        if k - 1 == i {
            let front = class_samples(status, i);
            assert(class_samples(status, k) =~= around(front, class_line(i, status[i]), none));
            assert(class_samples(more, k) =~= around(front, class_line(i, v), none));
        } else if k - 1 > i {
            let last = class_line(k - 1, status[k - 1]);
            lemma_differ_within(
                class_samples(status, k - 1),
                class_samples(more, k - 1),
                class_line(i, status[i]),
                class_line(i, v),
                none,
                last,
            );
            assert(class_samples(status, k) =~= around(none, class_samples(status, k - 1), last));
            assert(class_samples(more, k) =~= around(none, class_samples(more, k - 1), last));
        }
    }
}

proof fn lemma_group(a: Seq<u8>, b: Seq<u8>, c: Seq<u8>, d: Seq<u8>, e: Seq<u8>)
    ensures
        a + b + c + d + e == around(a, b, c + d + e),
{
    assert(a + b + c + d + e =~= around(a, b, c + d + e));
}

/// A request of an operation counts once: one line of the exposition shows one more, that
/// of the operation, and every other line is the same.
pub proof fn law_op_counts_once(m: MetricsView, now: i64, i: int, j: int)
    requires
        whole(m),
        0 <= i < OPS,
    ensures
        bumped(m.ops, i)[i] == m.ops[i].wrapping_add(1),
        0 <= j < OPS && j != i ==> bumped(m.ops, i)[j] == m.ops[j],
        differ_in(
            prometheus_bytes(m, now),
            prometheus_bytes(MetricsView { ops: bumped(m.ops, i), ..m }, now),
            op_line(i, m.ops[i]),
            op_line(i, m.ops[i].wrapping_add(1)),
        ),
{
    let n = MetricsView { ops: bumped(m.ops, i), ..m };
    let v = m.ops[i].wrapping_add(1);
    let front = ops_heading();
    let back = classes_heading() + class_samples(m.status, 4) + tail_bytes(m, now);
    lemma_op_lines(m.ops, i, v, OPS as int);
    lemma_differ_within(
        op_samples(m.ops, OPS as int),
        op_samples(n.ops, OPS as int),
        op_line(i, m.ops[i]),
        op_line(i, v),
        front,
        back,
    );
    let classes = class_samples(m.status, 4);
    let rest = tail_bytes(m, now);
    assert(tail_bytes(n, now) == rest);
    lemma_group(front, op_samples(m.ops, OPS as int), classes_heading(), classes, rest);
    lemma_group(front, op_samples(n.ops, OPS as int), classes_heading(), classes, rest);
}

/// A reply counts once: one line of the exposition shows one more, that of the class of
/// its status, and every other line is the same. So all replies are counted.
pub proof fn law_status_counts_once(m: MetricsView, now: i64, code: u16, j: int)
    requires
        whole(m),
    ensures
        ({
            let i = class_of(code);
            let n = bumped(m.status, i);
            &&& n[i] == m.status[i].wrapping_add(1)
            &&& 0 <= j < 4 && j != i ==> n[j] == m.status[j]
            &&& m.status[i] < i64::MAX ==> n[0] + n[1] + n[2] + n[3] == m.status[0] + m.status[1]
                + m.status[2] + m.status[3] + 1
            &&& differ_in(
                prometheus_bytes(m, now),
                prometheus_bytes(MetricsView { status: n, ..m }, now),
                class_line(i, m.status[i]),
                class_line(i, m.status[i].wrapping_add(1)),
            )
        }),
{
    let i = class_of(code);
    let n = MetricsView { status: bumped(m.status, i), ..m };
    let v = m.status[i].wrapping_add(1);
    let front = ops_heading() + op_samples(m.ops, OPS as int) + classes_heading();
    let back = tail_bytes(m, now);
    lemma_class_lines(m.status, i, v, 4);
    lemma_differ_within(
        class_samples(m.status, 4),
        class_samples(n.status, 4),
        class_line(i, m.status[i]),
        class_line(i, v),
        front,
        back,
    );
    assert(prometheus_bytes(m, now) =~= around(front, class_samples(m.status, 4), back));
    assert(prometheus_bytes(n, now) =~= around(front, class_samples(n.status, 4), back));
}

// ---------- what the reports show ----------

/// The number of requests per second is a fifth of those of five seconds, with as many
/// tenths as are left.
pub proof fn law_rate_is_a_fifth(n: int, r: int)
    requires
        n >= 0,
        0 <= r < 5,
    ensures
        rate_text(5 * n + r) == (if r == 0 {
            text::decimal(n)
        } else {
            text::decimal(n) + seq!['.' as u8, (48 + 2 * r) as u8]
        }),
{
    assert((5 * n + r) / 5 == n && (5 * n + r) % 5 == r);
    assert(Seq::<u8>::empty() + text::decimal(n) =~= text::decimal(n));
    assert(text::decimal(n) + Seq::<u8>::empty() =~= text::decimal(n));
}

/// Every second has 1000 ms, from the epoch on, and how long the counting has gone on is
/// told in whole seconds.
pub proof fn law_seconds_have_a_thousand_ms(s: int, r: int, m: MetricsView, now: i64)
    requires
        s >= 0,
        0 <= r < 1000,
    ensures
        second(1000 * s + r) == s,
        0 <= m.started && now - m.started == 1000 * s + r ==> uptime(m, now) == s,
{
    assert((1000 * s + r) / 1000 == s);
}

/// The report begins with the requests per second of the last five complete seconds, and
/// tells how many there were in all and how long the counting has gone on; it ends with the
/// counts of the last 30 complete seconds and the current one, the oldest first.
pub proof fn law_report_says_what_was_counted(m: MetricsView, now: i64)
    ensures
        ({
            let s = second(now as int);
            let five = in_second(m, s - 5) + in_second(m, s - 4) + in_second(m, s - 3) + in_second(
                m,
                s - 2,
            ) + in_second(m, s - 1);
            snapshot_bytes(m, now) == text::lit("{\"req_s\":") + rate_text(five) + text::lit(
                ",\"total\":",
            ) + text::decimal(m.total as int) + text::lit(",\"uptime_s\":") + text::decimal(
                uptime(m, now),
            ) + text::lit(",\"per_second\":[") + comma_list(
                Seq::new(31, |i: int| in_second(m, s - 30 + i)),
            ) + text::lit("]}")
        }),
{
}

/// Numbers that are listed stand in order, with commas between them.
pub proof fn law_numbers_are_listed(a: Seq<i64>, n: i64, b: Seq<i64>)
    ensures
        comma_list(a + seq![n] + b) == (if a.len() == 0 {
            Seq::empty()
        } else {
            comma_list(a) + seq![44u8]
        }) + text::decimal(n as int) + (if b.len() == 0 {
            Seq::empty()
        } else {
            seq![44u8] + comma_list(b)
        }),
    decreases b.len(),
{
    let all = a + seq![n] + b;
    let front = (if a.len() == 0 {
        Seq::empty()
    } else {
        comma_list(a) + seq![44u8]
    }) + text::decimal(n as int);
    if b.len() == 0 {
        assert(all.drop_last() =~= a);
        assert(all.last() == n);
        assert(comma_list(all) =~= front + Seq::<u8>::empty());
    } else {
        let rest = b.drop_last();
        law_numbers_are_listed(a, n, rest);
        assert(all.drop_last() =~= a + seq![n] + rest);
        assert(all.last() == b.last());
        let last = text::decimal(b.last() as int);
        assert(comma_list(all) == comma_list(all.drop_last()) + seq![44u8] + last);
        if rest.len() == 0 {
            assert(comma_list(b) =~= last);
        } else {
            assert(comma_list(b) =~= comma_list(rest) + seq![44u8] + last);
        }
        assert(comma_list(all) =~= front + (seq![44u8] + comma_list(b)));
    }
}

/// A line of a text.
pub open spec fn shows(page: Seq<u8>, line: Seq<u8>) -> bool {
    exists|x: Seq<u8>, y: Seq<u8>| #[trigger] around(x, line, y) == page
}

proof fn lemma_shows_more(page: Seq<u8>, line: Seq<u8>, more: Seq<u8>)
    requires
        shows(page, line),
    ensures
        shows(page + more, line),
        shows(more + page, line),
{
    let (x, y) = choose|x: Seq<u8>, y: Seq<u8>| #[trigger] around(x, line, y) == page;
    assert(around(x, line, y + more) =~= page + more);
    assert(around(more + x, line, y) =~= more + page);
}

proof fn lemma_shows_last(page: Seq<u8>, line: Seq<u8>)
    ensures
        shows(page + line, line),
{
    assert(around(page, line, Seq::empty()) =~= page + line);
}

/// The line of a counter without labels.
pub open spec fn plain_line(name: Seq<u8>, v: int) -> Seq<u8> {
    name + seq![' ' as u8] + text::decimal(v) + seq!['\n' as u8]
}

proof fn lemma_single_shows(name: Seq<u8>, help: Seq<u8>, ty: Seq<u8>, v: int)
    ensures
        shows(single(name, help, ty, v), plain_line(name, v)),
{
    assert(sample(name, Seq::empty(), v) =~= plain_line(name, v));
    lemma_shows_last(heading(name, help, ty), plain_line(name, v));
}

/// The exposition shows every counter by its name.
#[verifier::spinoff_prover]
pub proof fn law_exposition_shows_every_counter(m: MetricsView, now: i64)
    ensures
        ({
            let p = prometheus_bytes(m, now);
            &&& shows(p, plain_line(text::lit("shrt_store_reads_total"), m.store_reads as int))
            &&& shows(p, plain_line(text::lit("shrt_store_read_us_total"), m.store_read_us as int))
            &&& shows(p, plain_line(text::lit("shrt_store_writes_total"), m.store_writes as int))
            &&& shows(p, plain_line(text::lit("shrt_rate_limited_total"), m.limited as int))
            &&& shows(p, plain_line(text::lit("shrt_links_total"), m.links_total as int))
            &&& shows(p, plain_line(text::lit("shrt_uptime_seconds"), uptime(m, now)))
            &&& shows(
                p,
                plain_line(
                    text::lit("shrt_cache_lookups_total") + seq!['{' as u8] + label(
                        text::lit("result"),
                        text::lit("hit"),
                    ) + seq!['}' as u8],
                    m.cache_hit as int,
                ),
            )
            &&& shows(
                p,
                plain_line(
                    text::lit("shrt_cache_lookups_total") + seq!['{' as u8] + label(
                        text::lit("result"),
                        text::lit("miss"),
                    ) + seq!['}' as u8],
                    m.cache_miss as int,
                ),
            )
        }),
{
    let cache = text::lit("shrt_cache_lookups_total");
    let hit = label(text::lit("result"), text::lit("hit"));
    let miss = label(text::lit("result"), text::lit("miss"));
    let reads = single(
        text::lit("shrt_store_reads_total"),
        text::lit("Backing-store point reads (cache misses)"),
        text::lit("counter"),
        m.store_reads as int,
    );
    let us = single(
        text::lit("shrt_store_read_us_total"),
        text::lit("Cumulative backing-store read latency (us)"),
        text::lit("counter"),
        m.store_read_us as int,
    );
    let writes = single(
        text::lit("shrt_store_writes_total"),
        text::lit("Backing-store writes"),
        text::lit("counter"),
        m.store_writes as int,
    );
    let limited = single(
        text::lit("shrt_rate_limited_total"),
        text::lit("Requests rejected by the rate limiter"),
        text::lit("counter"),
        m.limited as int,
    );
    let links = single(
        text::lit("shrt_links_total"),
        text::lit("Live links created minus deleted"),
        text::lit("gauge"),
        m.links_total as int,
    );
    let up = single(
        text::lit("shrt_uptime_seconds"),
        text::lit("Process uptime"),
        text::lit("gauge"),
        uptime(m, now),
    );
    let t0 = heading(cache, text::lit("Local hot-cache lookups"), text::lit("counter"));
    let hit_line = sample(cache, hit, m.cache_hit as int);
    let miss_line = sample(cache, miss, m.cache_miss as int);
    let t1 = t0 + hit_line;
    let t2 = t1 + miss_line;
    let t3 = t2 + reads;
    let t4 = t3 + us;
    let t5 = t4 + writes;
    let t6 = t5 + limited;
    let t7 = t6 + links;
    let t8 = t7 + up;
    assert(tail_bytes(m, now) == t8);
    let front = ops_heading() + op_samples(m.ops, OPS as int) + classes_heading() + class_samples(
        m.status,
        4,
    );
    assert(prometheus_bytes(m, now) == front + t8);
    lemma_has_letters();
    let hit_shown = plain_line(cache + seq!['{' as u8] + hit + seq!['}' as u8], m.cache_hit as int);
    let miss_shown = plain_line(
        cache + seq!['{' as u8] + miss + seq!['}' as u8],
        m.cache_miss as int,
    );
    assert(hit_line =~= hit_shown);
    assert(miss_line =~= miss_shown);
    lemma_shows_last(t0, hit_shown);
    lemma_up(t1, hit_shown, miss_line, reads, us, writes, limited, links, up, front);
    lemma_shows_last(t1, miss_shown);
    let none = Seq::<u8>::empty();
    assert(t2 + none =~= t2);
    lemma_up(t2, miss_shown, none, reads, us, writes, limited, links, up, front);
    let line = plain_line(text::lit("shrt_store_reads_total"), m.store_reads as int);
    lemma_single_shows(
        text::lit("shrt_store_reads_total"),
        text::lit("Backing-store point reads (cache misses)"),
        text::lit("counter"),
        m.store_reads as int,
    );
    lemma_shows_more(reads, line, t2);
    lemma_shows_more(t3, line, us);
    lemma_shows_more(t4, line, writes);
    lemma_shows_more(t5, line, limited);
    lemma_shows_more(t6, line, links);
    lemma_shows_more(t7, line, up);
    lemma_shows_more(t8, line, front);
    let line = plain_line(text::lit("shrt_store_read_us_total"), m.store_read_us as int);
    lemma_single_shows(
        text::lit("shrt_store_read_us_total"),
        text::lit("Cumulative backing-store read latency (us)"),
        text::lit("counter"),
        m.store_read_us as int,
    );
    lemma_shows_more(us, line, t3);
    lemma_shows_more(t4, line, writes);
    lemma_shows_more(t5, line, limited);
    lemma_shows_more(t6, line, links);
    lemma_shows_more(t7, line, up);
    lemma_shows_more(t8, line, front);
    let line = plain_line(text::lit("shrt_store_writes_total"), m.store_writes as int);
    lemma_single_shows(
        text::lit("shrt_store_writes_total"),
        text::lit("Backing-store writes"),
        text::lit("counter"),
        m.store_writes as int,
    );
    lemma_shows_more(writes, line, t4);
    lemma_shows_more(t5, line, limited);
    lemma_shows_more(t6, line, links);
    lemma_shows_more(t7, line, up);
    lemma_shows_more(t8, line, front);
    let line = plain_line(text::lit("shrt_rate_limited_total"), m.limited as int);
    lemma_single_shows(
        text::lit("shrt_rate_limited_total"),
        text::lit("Requests rejected by the rate limiter"),
        text::lit("counter"),
        m.limited as int,
    );
    lemma_shows_more(limited, line, t5);
    lemma_shows_more(t6, line, links);
    lemma_shows_more(t7, line, up);
    lemma_shows_more(t8, line, front);
    let line = plain_line(text::lit("shrt_links_total"), m.links_total as int);
    lemma_single_shows(
        text::lit("shrt_links_total"),
        text::lit("Live links created minus deleted"),
        text::lit("gauge"),
        m.links_total as int,
    );
    lemma_shows_more(links, line, t6);
    lemma_shows_more(t7, line, up);
    lemma_shows_more(t8, line, front);
    let line = plain_line(text::lit("shrt_uptime_seconds"), uptime(m, now));
    lemma_single_shows(
        text::lit("shrt_uptime_seconds"),
        text::lit("Process uptime"),
        text::lit("gauge"),
        uptime(m, now),
    );
    lemma_shows_more(up, line, t7);
    lemma_shows_more(t8, line, front);
}

proof fn lemma_has_letters()
    ensures
        label(text::lit("result"), text::lit("hit")).len() > 0,
        label(text::lit("result"), text::lit("miss")).len() > 0,
{
    reveal_strlit("\"");
    is_ascii_chars_encode_utf8("\""@);
}

/// What shows in a part of the page shows in the page.
proof fn lemma_up(
    t: Seq<u8>,
    line: Seq<u8>,
    a: Seq<u8>,
    b: Seq<u8>,
    c: Seq<u8>,
    d: Seq<u8>,
    e: Seq<u8>,
    f: Seq<u8>,
    g: Seq<u8>,
    front: Seq<u8>,
)
    requires
        shows(t, line),
    ensures
        shows(front + (t + a + b + c + d + e + f + g), line),
{
    lemma_shows_more(t, line, a);
    lemma_shows_more(t + a, line, b);
    lemma_shows_more(t + a + b, line, c);
    lemma_shows_more(t + a + b + c, line, d);
    lemma_shows_more(t + a + b + c + d, line, e);
    lemma_shows_more(t + a + b + c + d + e, line, f);
    lemma_shows_more(t + a + b + c + d + e + f, line, g);
    lemma_shows_more(t + a + b + c + d + e + f + g, line, front);
}

/// The counting goes on from when it started: no time has passed then, and no request was
/// counted since.
pub proof fn law_counting_starts_now(now: i64, i: int, later: i64)
    requires
        0 <= now <= later,
        0 <= i < 31,
        second(now as int) >= 30,
    ensures
        uptime(begun(no_metrics(), now), now) == 0,
        uptime(begun(no_metrics(), now), later) == second(later - now),
        begun(no_metrics(), now).total == 0,
        window(begun(no_metrics(), now), now)[i] == 0,
        whole(begun(no_metrics(), now)),
{
    let t = second(now as int) - 30 + i;
    assert(slot(t as i64) == t % 60);
}

} // verus!
