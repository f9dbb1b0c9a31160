//! Corpus-wide statistics: span, rate, hourly histogram, error rate, error
//! bursts and mean time between errors.
use vstd::prelude::*;
use crate::parser::{all_wf, is_error_level, LogEntry};
use crate::text::{decimal, decimal_text};
use crate::time::{datetime_text, Timestamp, MAX_ABS_SECS};

verus! {

/// Length of the window that a burst counts errors in, in seconds.
pub const BURST_WINDOW_SECS: i64 = 60;

/// Fewest errors in one window that make a burst.
pub const BURST_THRESHOLD: usize = 3;

/// An exact non-negative rational `num / den`.
#[derive(Clone, Copy, Debug, PartialEq, Eq, Structural)]
pub struct Fraction {
    pub num: u128,
    pub den: u128,
}

impl Fraction {
    pub open spec fn wf(self) -> bool {
        self.den > 0
    }
}

/// The time span of a corpus.
#[derive(Debug)]
pub struct TimeStats {
    pub start: String,
    pub end: String,
    pub span_seconds: i64,
    pub span_human: String,
}

/// At least three errors within a window that opens at one of them.
#[derive(Debug)]
pub struct ErrorBurst {
    pub window_start: String,
    pub start_secs: i64,
    pub count: usize,
}

/// A snapshot of statistics over a corpus.
#[derive(Debug)]
pub struct Stats {
    pub total: usize,
    pub time: Option<TimeStats>,
    pub rate_per_minute: Fraction,
    pub peak_hour: Option<u32>,
    pub hourly_counts: Vec<usize>,
    pub error_count: usize,
    pub error_rate: Fraction,
    pub error_bursts: Vec<ErrorBurst>,
    pub mtbf_seconds: Option<Fraction>,
}

/// The number of errors among `es`.
pub open spec fn error_count_of(es: Seq<LogEntry>) -> nat
    decreases es.len(),
{
    if es.len() == 0 {
        0
    } else {
        error_count_of(es.drop_last()) + if is_error_level(es.last().level) { 1nat } else { 0nat }
    }
}

/// The timestamps, in seconds, of the errors among `es`, in order.
pub open spec fn error_stamps(es: Seq<LogEntry>) -> Seq<i64>
    decreases es.len(),
{
    if es.len() == 0 {
        seq![]
    } else if is_error_level(es.last().level) {
        error_stamps(es.drop_last()).push(es.last().timestamp.secs)
    } else {
        error_stamps(es.drop_last())
    }
}

/// The number of entries of `es` in hour `h` of their day.
pub open spec fn hour_count(es: Seq<LogEntry>, h: int) -> nat
    decreases es.len(),
{
    if es.len() == 0 {
        0
    } else {
        hour_count(es.drop_last(), h) + if es.last().timestamp.hour_spec() == h { 1nat } else { 0nat }
    }
}

/// Seconds from the first entry of `es` to its last, at least one.
pub open spec fn span_of(es: Seq<LogEntry>) -> int {
    let d = es.last().timestamp.secs - es[0].timestamp.secs;
    if d < 1 { 1 } else { d }
}

/// How many of `ts`, from `j` on and without a gap, are at most `limit`.
pub open spec fn run_within(ts: Seq<i64>, j: int, limit: int) -> nat
    decreases ts.len() - j,
{
    if 0 <= j < ts.len() && ts[j] <= limit {
        1 + run_within(ts, j + 1, limit)
    } else {
        0
    }
}

/// The bursts among the error timestamps `ts` from `i` on, as window start and
/// count: each error not yet in a burst opens a window of sixty seconds; three
/// or more errors in it make a burst, and the scan goes on after them.
pub open spec fn bursts_from(ts: Seq<i64>, i: int) -> Seq<(i64, nat)>
    decreases ts.len() - i,
    via bursts_from_decreases
{
    if i < 0 || i >= ts.len() {
        seq![]
    } else {
        let c = run_within(ts, i, ts[i] + BURST_WINDOW_SECS);
        if c >= BURST_THRESHOLD {
            seq![(ts[i], c)] + bursts_from(ts, i + c)
        } else {
            bursts_from(ts, i + 1)
        }
    }
}

/// A run is no longer than what is left of the sequence.
proof fn lemma_run_within_bound(ts: Seq<i64>, j: int, limit: int)
    requires
        0 <= j <= ts.len(),
    ensures
        run_within(ts, j, limit) <= ts.len() - j,
    decreases ts.len() - j,
{
    if 0 <= j < ts.len() && ts[j] <= limit {
        lemma_run_within_bound(ts, j + 1, limit);
    }
}

#[via_fn]
proof fn bursts_from_decreases(ts: Seq<i64>, i: int) {
    if 0 <= i < ts.len() {
        lemma_run_within_bound(ts, i, ts[i] + BURST_WINDOW_SECS);
    }
}

/// A burst as plain values.
pub open spec fn burst_view(b: ErrorBurst) -> (i64, nat) {
    (b.start_secs, b.count as nat)
}

/// `h` is the first hour with the largest count.
pub open spec fn is_peak(counts: Seq<usize>, h: int) -> bool {
    &&& 0 <= h < counts.len()
    &&& forall|k: int| 0 <= k < counts.len() ==> counts[k] <= counts[h]
    &&& forall|k: int| 0 <= k < h ==> counts[k] < counts[h]
}

/// The text `[Nh ]`, `[Nm ]`, `Ns` of a number of seconds, as Rust's integer
/// division and remainder give it.
pub open spec fn duration_text(secs: int) -> Seq<char> {
    if secs >= 0 {
        let h = secs / 3600;
        let m = (secs % 3600) / 60;
        let s = secs % 60;
        if h > 0 {
            decimal(h as nat) + "h "@ + decimal(m as nat) + "m "@ + decimal(s as nat) + "s"@
        } else if m > 0 {
            decimal(m as nat) + "m "@ + decimal(s as nat) + "s"@
        } else {
            decimal(s as nat) + "s"@
        }
    } else {
        let s = (-secs) % 60;
        if s == 0 {
            "0s"@
        } else {
            "-"@ + decimal(s as nat) + "s"@
        }
    }
}

/// A number of seconds as hours, minutes and seconds: `1h 2m 3s`, `2m 3s`, `3s`.
pub fn format_duration(secs: i64) -> (r: String)
    ensures
        r@ == duration_text(secs as int),
{
    if secs >= 0 {
        let h = secs / 3600;
        let m = (secs % 3600) / 60;
        let s = secs % 60;
        if h > 0 {
            let r = decimal_text(h as u64).concat("h ").concat(decimal_text(m as u64).as_str()).concat(
                "m ",
            ).concat(decimal_text(s as u64).as_str()).concat("s");
            r
        } else if m > 0 {
            decimal_text(m as u64).concat("m ").concat(decimal_text(s as u64).as_str()).concat("s")
        } else {
            decimal_text(s as u64).concat("s")
        }
    } else {
        let s = ((-(secs as i128)) % 60) as u64;
        if s == 0 {
            String::from_str("0s")
        } else {
            String::from_str("-").concat(decimal_text(s).as_str()).concat("s")
        }
    }
}


/// The bursts of a list, as plain values.
pub open spec fn bursts_view(bs: Seq<ErrorBurst>) -> Seq<(i64, nat)> {
    bs.map_values(|b: ErrorBurst| burst_view(b))
}

/// Each burst's window start is written as the text of its timestamp.
pub open spec fn bursts_texts_agree(bs: Seq<ErrorBurst>) -> bool {
    forall|i: int| 0 <= i < bs.len() ==> (#[trigger] bs[i]).window_start@ == datetime_text(bs[i].start_secs)
}

/// Every value of `ts` lies in the supported range of timestamps.
pub open spec fn stamps_in_range(ts: Seq<i64>) -> bool {
    forall|i: int| 0 <= i < ts.len() ==> -MAX_ABS_SECS <= #[trigger] ts[i] <= MAX_ABS_SECS
}

/// One pass over `entries`: the hourly histogram, the number of errors and
/// their timestamps.
fn tally(entries: &[LogEntry]) -> (r: (Vec<usize>, usize, Vec<i64>))
    requires
        all_wf(entries@),
    ensures
        r.0@.len() == 24,
        forall|h: int| 0 <= h < 24 ==> r.0@[h] == hour_count(entries@, h),
        r.1 == error_count_of(entries@),
        r.1 <= entries@.len(),
        r.2@ == error_stamps(entries@),
        stamps_in_range(r.2@),
{
    let mut hourly: Vec<usize> = Vec::new();
    let mut h: usize = 0;
    while h < 24
        invariant
            h <= 24,
            hourly@.len() == h,
            forall|k: int| 0 <= k < h ==> hourly@[k] == 0,
        decreases 24 - h,
    {
        hourly.push(0);
        h = h + 1;
    }
    let mut errors: usize = 0;
    let mut stamps: Vec<i64> = Vec::new();
    let n = entries.len();
    let mut i: usize = 0;
    assert(entries@.subrange(0, 0) =~= Seq::<LogEntry>::empty());
    while i < n
        invariant
            i <= n == entries@.len(),
            all_wf(entries@),
            hourly@.len() == 24,
            forall|k: int| 0 <= k < 24 ==> hourly@[k] == hour_count(entries@.subrange(0, i as int), k),
            forall|k: int| 0 <= k < 24 ==> hourly@[k] <= i,
            errors == error_count_of(entries@.subrange(0, i as int)),
            errors <= i,
            stamps@ == error_stamps(entries@.subrange(0, i as int)),
            stamps_in_range(stamps@),
        decreases n - i,
    {
        let ghost pre = entries@.subrange(0, i as int);
        let ghost post = entries@.subrange(0, i + 1);
        assert(post.drop_last() =~= pre);
        assert(post.last() == entries@[i as int]);
        let e = &entries[i];
        let hr = e.timestamp.hour();
        let c = hourly[hr];
        hourly.set(hr, c + 1);
        if e.level.is_error() {
            errors = errors + 1;
            stamps.push(e.timestamp.secs);
        }
        assert(entries@[i as int].timestamp.wf());
        i = i + 1;
    }
    assert(entries@.subrange(0, n as int) =~= entries@);
    (hourly, errors, stamps)
}

/// The error bursts among error timestamps, in order; `ts` is taken in the order given.
pub fn detect_bursts(ts: &Vec<i64>) -> (r: Vec<ErrorBurst>)
    requires
        stamps_in_range(ts@),
    ensures
        bursts_view(r@) == bursts_from(ts@, 0),
        bursts_texts_agree(r@),
{
    let n = ts.len();
    let mut out: Vec<ErrorBurst> = Vec::new();
    let mut i: usize = 0;
    while i < n
        invariant
            i <= n == ts@.len(),
            stamps_in_range(ts@),
            bursts_view(out@) + bursts_from(ts@, i as int) == bursts_from(ts@, 0),
            bursts_texts_agree(out@),
        decreases n - i,
    {
        let limit = ts[i] + BURST_WINDOW_SECS;
        let mut j = i;
        while j < n && ts[j] <= limit
            invariant
                i <= j <= n == ts@.len(),
                run_within(ts@, i as int, limit as int) == (j - i) + run_within(ts@, j as int, limit as int),
            decreases n - j,
        {
            j = j + 1;
        }
        let count = j - i;
        if count >= BURST_THRESHOLD {
            let b = ErrorBurst { window_start: Timestamp { secs: ts[i] }.text(), start_secs: ts[i], count };
            let ghost before = bursts_view(out@);
            out.push(b);
            assert(bursts_view(out@) =~= before.push((ts@[i as int], count as nat)));
            assert(bursts_view(out@) + bursts_from(ts@, j as int) =~= before + (seq![(ts@[i as int], count as nat)] + bursts_from(ts@, j as int)));
            i = j;
        } else {
            i = i + 1;
        }
    }
    assert(bursts_view(out@) =~= bursts_view(out@) + Seq::<(i64, nat)>::empty());
    out
}

/// The first hour with the largest count.
fn peak_of(counts: &Vec<usize>) -> (r: usize)
    requires
        counts@.len() == 24,
    ensures
        is_peak(counts@, r as int),
{
    let mut best: usize = 0;
    let mut h: usize = 1;
    while h < 24
        invariant
            1 <= h <= 24,
            counts@.len() == 24,
            best < h,
            forall|k: int| 0 <= k < h ==> counts@[k] <= counts@[best as int],
            forall|k: int| 0 <= k < best ==> counts@[k] < counts@[best as int],
        decreases 24 - h,
    {
        if counts[h] > counts[best] {
            best = h;
        }
        h = h + 1;
    }
    best
}

impl Stats {
    /// The snapshot is the statistics of `es`: counts, histogram, bursts; for
    /// an empty corpus no span, rate, peak, error rate or mean spacing; else the
    /// span from the first entry to the last (at least one second), the rate
    /// per minute, the first busiest hour, the percentage of errors, and the
    /// span over the number of gaps between errors where there are two or more.
    pub open spec fn describes(self, es: Seq<LogEntry>) -> bool {
        &&& self.total == es.len()
        &&& self.hourly_counts@.len() == 24
        &&& forall|h: int| 0 <= h < 24 ==> self.hourly_counts@[h] == hour_count(es, h)
        &&& self.error_count == error_count_of(es)
        &&& bursts_view(self.error_bursts@) == bursts_from(error_stamps(es), 0)
        &&& bursts_texts_agree(self.error_bursts@)
        &&& es.len() == 0 ==> {
            &&& self.time is None
            &&& self.peak_hour is None
            &&& self.rate_per_minute == (Fraction { num: 0, den: 1 })
            &&& self.error_rate == (Fraction { num: 0, den: 1 })
            &&& self.mtbf_seconds is None
        }
        &&& es.len() > 0 ==> {
            &&& self.time matches Some(t) && t.span_seconds == span_of(es)
                && t.start@ == datetime_text(es[0].timestamp.secs)
                && t.end@ == datetime_text(es.last().timestamp.secs)
                && t.span_human@ == duration_text(span_of(es))
            &&& self.rate_per_minute == (Fraction { num: (60 * es.len()) as u128, den: span_of(es) as u128 })
            &&& self.peak_hour matches Some(h) && is_peak(self.hourly_counts@, h as int)
            &&& self.error_rate == (Fraction { num: (100 * error_count_of(es)) as u128, den: es.len() as u128 })
            &&& self.mtbf_seconds == if error_count_of(es) >= 2 {
                Some(Fraction { num: span_of(es) as u128, den: (error_count_of(es) - 1) as u128 })
            } else {
                None
            }
        }
    }
}

/// Statistics over `entries`, taken in the order given.
pub fn compute(entries: &[LogEntry]) -> (r: Stats)
    requires
        all_wf(entries@),
    ensures
        r.describes(entries@),
{
    let total = entries.len();
    let (hourly_counts, error_count, stamps) = tally(entries);
    let error_bursts = detect_bursts(&stamps);
    if total == 0 {
        return Stats {
            total: 0,
            time: None,
            rate_per_minute: Fraction { num: 0, den: 1 },
            peak_hour: None,
            hourly_counts,
            error_count,
            error_rate: Fraction { num: 0, den: 1 },
            error_bursts,
            mtbf_seconds: None,
        };
    }
    let first = entries[0].timestamp;
    let last = entries[total - 1].timestamp;
    assert(entries@[0].timestamp.wf() && entries@[total - 1].timestamp.wf());
    let d = last.secs - first.secs;
    let span_seconds = if d < 1 { 1 } else { d };
    let time = Some(TimeStats {
        start: first.text(),
        end: last.text(),
        span_seconds,
        span_human: format_duration(span_seconds),
    });
    let peak = peak_of(&hourly_counts);
    let mtbf_seconds = compute_mtbf(error_count, span_seconds);
    Stats {
        total,
        time,
        rate_per_minute: Fraction { num: 60 * (total as u128), den: span_seconds as u128 },
        peak_hour: Some(peak as u32),
        hourly_counts,
        error_count,
        error_rate: Fraction { num: 100 * (error_count as u128), den: total as u128 },
        error_bursts,
        mtbf_seconds,
    }
}

/// The mean spacing of errors over a span: the span over the number of gaps,
/// where there are two errors or more.
pub fn compute_mtbf(error_count: usize, span_seconds: i64) -> (r: Option<Fraction>)
    requires
        span_seconds >= 1,
    ensures
        r == if error_count >= 2 {
            Some(Fraction { num: span_seconds as u128, den: (error_count - 1) as u128 })
        } else {
            None
        },
{
    if error_count < 2 {
        return None;
    }
    Some(Fraction { num: span_seconds as u128, den: (error_count - 1) as u128 })
}

/// Errors at 0, 10, 20 and 90 seconds after any moment `t0` make one burst of
/// three that opens at `t0`; the error at 90 seconds is in no burst.
pub proof fn lemma_three_then_one(t0: i64)
    requires
        -MAX_ABS_SECS <= t0 <= MAX_ABS_SECS,
    ensures
        bursts_from(seq![t0, (t0 + 10) as i64, (t0 + 20) as i64, (t0 + 90) as i64], 0) == seq![(t0, 3nat)],
{
    let ts = seq![t0, (t0 + 10) as i64, (t0 + 20) as i64, (t0 + 90) as i64];
    let lim = t0 + BURST_WINDOW_SECS;
    assert(run_within(ts, 4, lim) == 0);
    assert(run_within(ts, 3, lim) == 0);
    assert(run_within(ts, 2, lim) == 1);
    assert(run_within(ts, 1, lim) == 2);
    assert(run_within(ts, 0, lim) == 3);
    let lim3 = ts[3] + BURST_WINDOW_SECS;
    assert(run_within(ts, 4, lim3) == 0);
    assert(run_within(ts, 3, lim3) == 1);
    assert(bursts_from(ts, 4) == Seq::<(i64, nat)>::empty());
    assert(bursts_from(ts, 3) == bursts_from(ts, 4));
    assert(bursts_from(ts, 0) == seq![(ts[0], 3nat)] + bursts_from(ts, 3));
    assert(bursts_from(ts, 0) =~= seq![(t0, 3nat)]);
}

/// A corpus of four errors at 0, 10, 20 and 90 seconds after `t0`, in that
/// order, has one burst: three errors from `t0` on.
pub proof fn lemma_burst_scenario(es: Seq<LogEntry>, t0: i64)
    requires
        -MAX_ABS_SECS <= t0 <= MAX_ABS_SECS,
        es.len() == 4,
        forall|i: int| 0 <= i < 4 ==> is_error_level(#[trigger] es[i].level),
        es[0].timestamp.secs == t0,
        es[1].timestamp.secs == t0 + 10,
        es[2].timestamp.secs == t0 + 20,
        es[3].timestamp.secs == t0 + 90,
    ensures
        bursts_from(error_stamps(es), 0) == seq![(t0, 3nat)],
{
    let e1 = es.subrange(0, 1);
    let e2 = es.subrange(0, 2);
    let e3 = es.subrange(0, 3);
    assert(e1.drop_last() =~= Seq::<LogEntry>::empty());
    assert(e2.drop_last() =~= e1);
    assert(e3.drop_last() =~= e2);
    assert(es.drop_last() =~= e3);
    assert(e1.last() == es[0] && e2.last() == es[1] && e3.last() == es[2] && es.last() == es[3]);
    assert(error_stamps(Seq::<LogEntry>::empty()) == Seq::<i64>::empty());
    assert(is_error_level(es[0].level) && is_error_level(es[1].level));
    assert(is_error_level(es[2].level) && is_error_level(es[3].level));
    assert(error_stamps(e1) =~= seq![t0]);
    assert(error_stamps(e2) =~= seq![t0, (t0 + 10) as i64]);
    assert(error_stamps(e3) =~= seq![t0, (t0 + 10) as i64, (t0 + 20) as i64]);
    assert(error_stamps(es) =~= seq![t0, (t0 + 10) as i64, (t0 + 20) as i64, (t0 + 90) as i64]);
    lemma_three_then_one(t0);
}

} // verus!
