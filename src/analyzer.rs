//! The analysis of a corpus: statistics, counts per level, ranked keywords and
//! a bounded anomaly score.
use vstd::prelude::*;
use crate::keywords::{lemma_permutation_counts, exact_for, extract_keywords, has_word, key, message_chars, outranks, ranked, ranks_above, word_at, word_errors, word_less, word_total, KeywordEntry};
use crate::parser::{all_wf, LogEntry, LogLevel};
use crate::stats::{compute, error_count_of, Fraction, Stats};

verus! {

/// The number of entries of each level.
#[derive(Clone, Copy, Debug, PartialEq, Eq, Structural)]
pub struct LevelCounts {
    pub debug: usize,
    pub info: usize,
    pub warn: usize,
    pub error: usize,
    pub fatal: usize,
    pub unknown: usize,
}

/// The number of entries of `es` at level `l`.
pub open spec fn level_count(es: Seq<LogEntry>, l: LogLevel) -> nat
    decreases es.len(),
{
    if es.len() == 0 {
        0
    } else {
        level_count(es.drop_last(), l) + if es.last().level == l { 1nat } else { 0nat }
    }
}

impl LevelCounts {
    pub open spec fn count(self, l: LogLevel) -> usize {
        match l {
            LogLevel::Debug => self.debug,
            LogLevel::Info => self.info,
            LogLevel::Warn => self.warn,
            LogLevel::Error => self.error,
            LogLevel::Fatal => self.fatal,
            LogLevel::Unknown => self.unknown,
        }
    }

    /// The number of entries at `level`.
    pub fn get(&self, level: LogLevel) -> (r: usize)
        ensures
            r == self.count(level),
    {
        match level {
            LogLevel::Debug => self.debug,
            LogLevel::Info => self.info,
            LogLevel::Warn => self.warn,
            LogLevel::Error => self.error,
            LogLevel::Fatal => self.fatal,
            LogLevel::Unknown => self.unknown,
        }
    }
}

/// The number of entries of each level among `entries`.
pub fn count_by_level(entries: &[LogEntry]) -> (r: LevelCounts)
    ensures
        forall|l: LogLevel| #[trigger] r.count(l) == level_count(entries@, l),
{
    let mut c = LevelCounts { debug: 0, info: 0, warn: 0, error: 0, fatal: 0, unknown: 0 };
    let n = entries.len();
    let mut i: usize = 0;
    assert(entries@.subrange(0, 0) =~= Seq::<LogEntry>::empty());
    while i < n
        invariant
            i <= n == entries@.len(),
            forall|l: LogLevel| #[trigger] c.count(l) == level_count(entries@.subrange(0, i as int), l),
            forall|l: LogLevel| #[trigger] c.count(l) <= i,
        decreases n - i,
    {
        assert(entries@.subrange(0, i + 1).drop_last() =~= entries@.subrange(0, i as int));
        assert(entries@.subrange(0, i + 1).last() == entries@[i as int]);
        let ghost before = c;
        assert(c.count(LogLevel::Debug) <= i && c.count(LogLevel::Info) <= i && c.count(LogLevel::Warn) <= i);
        assert(c.count(LogLevel::Error) <= i && c.count(LogLevel::Fatal) <= i && c.count(LogLevel::Unknown) <= i);
        match entries[i].level {
            LogLevel::Debug => c.debug = c.debug + 1,
            LogLevel::Info => c.info = c.info + 1,
            LogLevel::Warn => c.warn = c.warn + 1,
            LogLevel::Error => c.error = c.error + 1,
            LogLevel::Fatal => c.fatal = c.fatal + 1,
            LogLevel::Unknown => c.unknown = c.unknown + 1,
        }
        proof {
            assert forall|l: LogLevel| #[trigger] c.count(l) == level_count(entries@.subrange(0, i + 1), l) by {
                assert(before.count(l) == level_count(entries@.subrange(0, i as int), l));
            }
            assert forall|l: LogLevel| #[trigger] c.count(l) <= i + 1 by {
                assert(before.count(l) <= i);
            }
        }
        i = i + 1;
    }
    assert(entries@.subrange(0, n as int) =~= entries@);
    c
}

/// The points that a mean spacing of errors adds: 15 under a minute, 8 under
/// five minutes, none from five minutes on or where it is undefined.
pub open spec fn mtbf_points(mtbf: Option<Fraction>) -> int {
    match mtbf {
        Some(f) => if f.num < 60 * f.den {
            15
        } else if f.num < 300 * f.den {
            8
        } else {
            0
        },
        None => 0,
    }
}

/// The points added to four tenths of the error rate: 5 per burst, 20 where
/// a Fatal entry occurs, and the points of the mean spacing of errors.
pub open spec fn extra_points(bursts: nat, fatal: bool, mtbf: Option<Fraction>) -> int {
    5 * bursts + (if fatal { 20int } else { 0int }) + mtbf_points(mtbf)
}

/// The anomaly score `min(100, rate * 0.4 + extra)` as a fraction over `5 * rate.den`.
pub open spec fn anomaly_fraction(rate: Fraction, extra: int) -> Fraction {
    let den = 5 * rate.den;
    let num = 2 * rate.num + 5 * rate.den * extra;
    Fraction { num: (if num < 100 * den { num } else { 100 * den }) as u128, den: den as u128 }
}

/// The score's inputs lie where the statistics put them.
pub open spec fn score_inputs_ok(stats: Stats) -> bool {
    &&& 0 < stats.error_rate.den <= u64::MAX
    &&& stats.error_rate.num <= 100 * stats.error_rate.den
    &&& stats.mtbf_seconds matches Some(f) ==> 0 < f.den <= u64::MAX && f.num <= u64::MAX
}

/// The anomaly score of a corpus from its statistics and level counts.
pub fn compute_anomaly_score(stats: &Stats, level_counts: &LevelCounts) -> (r: Fraction)
    requires
        score_inputs_ok(*stats),
    ensures
        r == anomaly_fraction(stats.error_rate, extra_points(stats.error_bursts@.len(), level_counts.fatal > 0, stats.mtbf_seconds)),
        r.den > 0,
        r.num <= 100 * r.den,
{
    let rate = stats.error_rate;
    let bursts = stats.error_bursts.len() as u128;
    let mut extra: u128 = if bursts >= 20 { 100 } else { 5 * bursts };
    if level_counts.fatal > 0 {
        extra = extra + 20;
    }
    match stats.mtbf_seconds {
        Some(f) => {
            if f.num < 60 * f.den {
                extra = extra + 15;
            } else if f.num < 300 * f.den {
                extra = extra + 8;
            }
        },
        None => {},
    }
    let ghost full = extra_points(stats.error_bursts@.len(), level_counts.fatal > 0, stats.mtbf_seconds);
    assert(extra <= 135);
    assert(extra >= 100 ==> full >= 100);
    assert(extra < 100 ==> full == extra);
    let capped: u128 = if extra > 100 { 100 } else { extra };
    proof {
        let d = rate.den as int;
        assert(5 * d * capped <= 500 * (u64::MAX as int)) by (nonlinear_arith)
            requires capped <= 100, d <= u64::MAX;
    }
    let den = 5 * rate.den;
    let num = 2 * rate.num + 5 * rate.den * capped;
    proof {
        let d = rate.den as int;
        assert(5 * d * capped <= 5 * d * 100) by (nonlinear_arith)
            requires capped <= 100, d >= 0;
        assert(capped == 100 ==> 5 * d * full >= 5 * d * 100) by (nonlinear_arith)
            requires capped == 100 ==> full >= 100, d >= 0;
    }
    let n = if num < 100 * den { num } else { 100 * den };
    Fraction { num: n, den }
}

/// Statistics of a corpus give the score inputs in their ranges.
proof fn lemma_score_inputs(stats: Stats, es: Seq<LogEntry>)
    requires
        stats.describes(es),
        all_wf(es),
    ensures
        score_inputs_ok(stats),
{
    lemma_error_count_bound(es);
    if es.len() > 0 {
        assert(es[0].timestamp.wf());
        assert(es[es.len() - 1].timestamp.wf());
        assert(es.last() == es[es.len() - 1]);
    }
}

/// A corpus has no more errors than entries.
proof fn lemma_error_count_bound(es: Seq<LogEntry>)
    ensures
        error_count_of(es) <= es.len(),
    decreases es.len(),
{
    if es.len() > 0 {
        lemma_error_count_bound(es.drop_last());
    }
}

/// The result of analysing a corpus.
#[derive(Debug)]
pub struct LogAnalysis {
    pub stats: Stats,
    pub level_counts: LevelCounts,
    pub top_keywords: Vec<KeywordEntry>,
    pub anomaly_score: Fraction,
    pub unparsed_lines: usize,
}

/// The keywords `r` are the `limit` highest ranked of `es`, from the highest down.
pub open spec fn top_keywords_of(r: Seq<KeywordEntry>, es: Seq<LogEntry>, limit: usize) -> bool {
    &&& r.len() <= limit
    &&& forall|k: int| 0 <= k < r.len() ==> exact_for(#[trigger] r[k], es)
    &&& forall|a: int, b: int| 0 <= a < b < r.len() ==> #[trigger] word_at(r, a) != #[trigger] word_at(r, b)
    &&& ranked(r)
    &&& forall|w: Seq<char>| word_total(es, w) > 0 && !has_word(r, w) ==> {
        &&& r.len() == limit
        &&& forall|k: int| 0 <= k < r.len() ==> !outranks((w, word_total(es, w), word_errors(es, w)), key(#[trigger] r[k]))
    }
}

proof fn lemma_word_less_total(a: Seq<char>, b: Seq<char>)
    requires
        a != b,
    ensures
        word_less(a, b) || word_less(b, a),
    decreases a.len(),
{
    if a.len() > 0 && b.len() > 0 && a[0] == b[0] {
        if a.drop_first() == b.drop_first() {
            assert(a =~= seq![a[0]] + a.drop_first());
            assert(b =~= seq![b[0]] + b.drop_first());
        } else {
            lemma_word_less_total(a.drop_first(), b.drop_first());
        }
    } else if a.len() == 0 && b.len() == 0 {
        assert(a =~= b);
    }
}

proof fn lemma_word_less_asym(a: Seq<char>, b: Seq<char>)
    requires
        word_less(a, b),
    ensures
        !word_less(b, a),
    decreases a.len(),
{
    if a.len() > 0 && b.len() > 0 && a[0] == b[0] {
        lemma_word_less_asym(a.drop_first(), b.drop_first());
    }
}

/// The keywords that the analysis keeps are determined by the corpus and the
/// limit: two lists that both meet the description agree entry by entry.
pub proof fn lemma_top_keywords_unique(r1: Seq<KeywordEntry>, r2: Seq<KeywordEntry>, es: Seq<LogEntry>, limit: usize)
    requires
        top_keywords_of(r1, es, limit),
        top_keywords_of(r2, es, limit),
    ensures
        r1.len() == r2.len(),
        forall|k: int| 0 <= k < r1.len() ==> key(#[trigger] r1[k]) == key(r2[k]),
    decreases r1.len(),
{
    let n = if r1.len() < r2.len() { r1.len() } else { r2.len() };
    assert forall|k: int| 0 <= k < n implies word_at(r1, k) == word_at(r2, k) by {
        lemma_same_word_at(r1, r2, es, limit, k);
    }
    if r1.len() != r2.len() {
        let (s, t) = if r1.len() < r2.len() { (r1, r2) } else { (r2, r1) };
        let c = word_at(t, s.len() as int);
        assert(exact_for(t[s.len() as int], es));
        if has_word(s, c) {
            let m = choose|m: int| 0 <= m < s.len() && word_at(s, m) == c;
            assert(word_at(s, m) == word_at(t, m));
        }
        assert(!has_word(s, c));
        assert(s.len() == limit);
    }
    assert forall|k: int| 0 <= k < r1.len() implies key(#[trigger] r1[k]) == key(r2[k]) by {
        lemma_same_word_at(r1, r2, es, limit, k);
        assert(exact_for(r1[k], es));
        assert(exact_for(r2[k], es));
    }
}

proof fn lemma_same_word_at(r1: Seq<KeywordEntry>, r2: Seq<KeywordEntry>, es: Seq<LogEntry>, limit: usize, k: int)
    requires
        top_keywords_of(r1, es, limit),
        top_keywords_of(r2, es, limit),
        0 <= k < r1.len(),
        k < r2.len(),
    ensures
        word_at(r1, k) == word_at(r2, k),
    decreases k,
{
    assert forall|i: int| 0 <= i < k implies word_at(r1, i) == word_at(r2, i) by {
        lemma_same_word_at(r1, r2, es, limit, i);
    }
    let a = word_at(r1, k);
    let b = word_at(r2, k);
    if a != b {
        assert(exact_for(r1[k], es));
        assert(exact_for(r2[k], es));
        lemma_word_less_total(a, b);
        if word_less(a, b) {
            lemma_word_less_asym(a, b);
        } else {
            lemma_word_less_asym(b, a);
        }
        let b_in_1 = has_word(r1, b);
        let a_in_2 = has_word(r2, a);
        if b_in_1 {
            let m = choose|m: int| 0 <= m < r1.len() && word_at(r1, m) == b;
            if m < k {
                assert(word_at(r2, m) == b);
            }
            assert(m != k);
            assert(exact_for(r1[m], es));
            assert(!ranks_above(r1[m], r1[k]));
        } else {
            assert(!outranks((b, word_total(es, b), word_errors(es, b)), key(r1[k])));
        }
        if a_in_2 {
            let m = choose|m: int| 0 <= m < r2.len() && word_at(r2, m) == a;
            if m < k {
                assert(word_at(r1, m) == a);
            }
            assert(m != k);
            assert(exact_for(r2[m], es));
            assert(!ranks_above(r2[m], r2[k]));
        } else {
            assert(!outranks((a, word_total(es, a), word_errors(es, a)), key(r2[k])));
        }
    }
}

/// Reordering the entries of a corpus leaves the kept keywords, their counts
/// and their order as they are.
pub proof fn lemma_keywords_permutation(es1: Seq<LogEntry>, es2: Seq<LogEntry>, r1: Seq<KeywordEntry>, r2: Seq<KeywordEntry>, limit: usize)
    requires
        es1.to_multiset() == es2.to_multiset(),
        top_keywords_of(r1, es1, limit),
        top_keywords_of(r2, es2, limit),
    ensures
        r1.len() == r2.len(),
        forall|k: int| 0 <= k < r1.len() ==> key(#[trigger] r1[k]) == key(r2[k]),
{
    assert forall|w: Seq<char>| #[trigger] word_total(es1, w) == word_total(es2, w) && word_errors(es1, w) == word_errors(es2, w) by {
        lemma_permutation_counts(es1, es2, w);
    }
    assert forall|k: int| 0 <= k < r2.len() implies exact_for(#[trigger] r2[k], es1) by {
        assert(exact_for(r2[k], es2));
        assert(word_total(es1, r2[k].word@) == word_total(es2, r2[k].word@));
    }
    assert forall|w: Seq<char>| word_total(es1, w) > 0 && !has_word(r2, w) implies {
        &&& r2.len() == limit
        &&& forall|k: int| 0 <= k < r2.len() ==> !outranks((w, word_total(es1, w), word_errors(es1, w)), key(#[trigger] r2[k]))
    } by {
        assert(word_total(es1, w) == word_total(es2, w));
    }
    lemma_top_keywords_unique(r1, r2, es1, limit);
}

/// A sorted corpus and the number of lines that could not be read, to analyse.
pub struct LogAnalyzer {
    pub entries: Vec<LogEntry>,
    pub unparsed_lines: usize,
}

impl LogAnalyzer {
    pub fn new(entries: Vec<LogEntry>, unparsed_lines: usize) -> (r: LogAnalyzer)
        ensures
            r.entries@ == entries@,
            r.unparsed_lines == unparsed_lines,
    {
        LogAnalyzer { entries, unparsed_lines }
    }

    /// Analyses the corpus, keeping the `top_n` highest ranked keywords.
    pub fn analyze(self, top_n: usize) -> (r: LogAnalysis)
        requires
            all_wf(self.entries@),
            message_chars(self.entries@) <= usize::MAX,
        ensures
            r.stats.describes(self.entries@),
            forall|l: LogLevel| #[trigger] r.level_counts.count(l) == crate::analyzer::level_count(self.entries@, l),
            top_keywords_of(r.top_keywords@, self.entries@, top_n),
            r.anomaly_score == anomaly_fraction(r.stats.error_rate, extra_points(r.stats.error_bursts@.len(), r.level_counts.fatal > 0, r.stats.mtbf_seconds)),
            r.unparsed_lines == self.unparsed_lines,
    {
        let stats = compute(self.entries.as_slice());
        let level_counts = count_by_level(self.entries.as_slice());
        let top_keywords = extract_keywords(self.entries.as_slice(), top_n);
        proof {
            lemma_score_inputs(stats, self.entries@);
        }
        let anomaly_score = compute_anomaly_score(&stats, &level_counts);
        LogAnalysis { stats, level_counts, top_keywords, anomaly_score, unparsed_lines: self.unparsed_lines }
    }
}

} // verus!
