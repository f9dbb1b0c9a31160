use logscope::analyzer::{compute_anomaly_score, count_by_level, LevelCounts, LogAnalyzer};
use logscope::export::{csv_header, csv_line, ExportFormat};
use logscope::filter::{apply, matches_all, FilterConfig};
use logscope::keywords::{count_keywords, extract_keywords, merge_counts, message_keywords, KeywordCounts};
use logscope::parser::{LogEntry, LogLevel};
use logscope::report::{anomaly_label, ReportGenerator};
use logscope::stats::{compute, format_duration, Fraction, Stats};
use logscope::time::Timestamp;

const BASE: i64 = 1_767_225_600;

fn entry(secs: i64, level: LogLevel, message: &str, line: usize) -> LogEntry {
    LogEntry { timestamp: Timestamp { secs: BASE + secs }, level, message: message.to_string(), source: None, line_number: line }
}

#[test]
fn empty_corpus() {
    let s = compute(&[]);
    assert_eq!(s.total, 0);
    assert!(s.time.is_none());
    assert_eq!(s.error_rate, Fraction { num: 0, den: 1 });
    assert!(s.mtbf_seconds.is_none());
    assert!(s.error_bursts.is_empty());
    assert!(s.peak_hour.is_none());
    assert_eq!(s.hourly_counts, vec![0; 24]);
}

#[test]
fn one_error_has_no_mtbf() {
    let s = compute(&[entry(0, LogLevel::Info, "a", 1), entry(30, LogLevel::Error, "b", 2)]);
    assert!(s.mtbf_seconds.is_none());
    assert_eq!(s.error_rate, Fraction { num: 100, den: 2 });
}

#[test]
fn two_errors_two_minutes_apart() {
    let s = compute(&[entry(0, LogLevel::Error, "a", 1), entry(120, LogLevel::Fatal, "b", 2)]);
    assert_eq!(s.mtbf_seconds, Some(Fraction { num: 120, den: 1 }));
    let t = s.time.as_ref().unwrap();
    assert_eq!(t.span_seconds, 120);
    assert_eq!(t.span_human, "2m 0s");
    assert_eq!(t.start, "2026-01-01 00:00:00");
    assert_eq!(t.end, "2026-01-01 00:02:00");
    assert_eq!(s.rate_per_minute, Fraction { num: 120, den: 120 });
}

#[test]
fn single_entry_span_is_one_second() {
    let s = compute(&[entry(0, LogLevel::Info, "a", 1)]);
    assert_eq!(s.time.unwrap().span_seconds, 1);
    assert_eq!(s.rate_per_minute, Fraction { num: 60, den: 1 });
}

#[test]
fn burst_scenario() {
    let es = vec![
        entry(0, LogLevel::Error, "a", 1),
        entry(10, LogLevel::Error, "b", 2),
        entry(20, LogLevel::Error, "c", 3),
        entry(90, LogLevel::Error, "d", 4),
    ];
    let s = compute(&es);
    assert_eq!(s.error_bursts.len(), 1);
    assert_eq!(s.error_bursts[0].count, 3);
    assert_eq!(s.error_bursts[0].start_secs, BASE);
    assert_eq!(s.error_bursts[0].window_start, "2026-01-01 00:00:00");
}

#[test]
fn bursts_do_not_overlap() {
    let es: Vec<LogEntry> = (0..7).map(|i| entry(i * 10, LogLevel::Fatal, "x", i as usize + 1)).collect();
    let s = compute(&es);
    assert_eq!(s.error_bursts.len(), 1);
    assert_eq!(s.error_bursts[0].count, 7);
    let spaced: Vec<LogEntry> = (0..6).map(|i| entry(i * 25, LogLevel::Error, "x", i as usize + 1)).collect();
    let s2 = compute(&spaced);
    let counts: Vec<usize> = s2.error_bursts.iter().map(|b| b.count).collect();
    assert_eq!(counts, vec![3, 3]);
}

#[test]
fn peak_hour_is_first_busiest() {
    let es = vec![
        entry(3600, LogLevel::Info, "a", 1),
        entry(7200, LogLevel::Info, "b", 2),
        entry(7300, LogLevel::Info, "c", 3),
        entry(3700, LogLevel::Info, "d", 4),
    ];
    let s = compute(&es);
    assert_eq!(s.hourly_counts[1], 2);
    assert_eq!(s.hourly_counts[2], 2);
    assert_eq!(s.peak_hour, Some(1));
}

fn stats_with(rate: Fraction, bursts: usize, mtbf: Option<Fraction>) -> Stats {
    let mut s = compute(&[]);
    s.error_rate = rate;
    s.mtbf_seconds = mtbf;
    for _ in 0..bursts {
        s.error_bursts.push(logscope::stats::ErrorBurst { window_start: String::new(), start_secs: 0, count: 3 });
    }
    s
}

fn fatal_counts(fatal: usize) -> LevelCounts {
    LevelCounts { debug: 0, info: 0, warn: 0, error: 0, fatal, unknown: 0 }
}

#[test]
fn anomaly_score_scenario() {
    let s = stats_with(Fraction { num: 50, den: 1 }, 0, Some(Fraction { num: 30, den: 1 }));
    let score = compute_anomaly_score(&s, &fatal_counts(1));
    assert_eq!(score.num, 55 * score.den);
}

#[test]
fn anomaly_score_terms() {
    let mid = compute_anomaly_score(&stats_with(Fraction { num: 0, den: 1 }, 2, Some(Fraction { num: 120, den: 1 })), &fatal_counts(0));
    assert_eq!(mid.num, 18 * mid.den);
    let slow = compute_anomaly_score(&stats_with(Fraction { num: 10, den: 1 }, 0, Some(Fraction { num: 300, den: 1 })), &fatal_counts(0));
    assert_eq!(slow.num, 4 * slow.den);
    let capped = compute_anomaly_score(&stats_with(Fraction { num: 100, den: 1 }, 30, None), &fatal_counts(2));
    assert_eq!(capped.num, 100 * capped.den);
    assert_eq!(anomaly_label(capped), "Critical");
    assert_eq!(anomaly_label(Fraction { num: 55, den: 1 }), "Elevated");
    assert_eq!(anomaly_label(Fraction { num: 41, den: 2 }), "Healthy");
    assert_eq!(anomaly_label(Fraction { num: 50, den: 1 }), "Moderate");
}

#[test]
fn keywords_of_a_message() {
    let k = message_keywords("The (Database) timed-out, and was DOWN!! ok é");
    assert_eq!(k, vec!["database", "timed-out", "down"]);
}

#[test]
fn keyword_ranking() {
    let es = vec![
        entry(0, LogLevel::Info, "alpha beta gamma", 1),
        entry(1, LogLevel::Error, "beta gamma", 2),
        entry(2, LogLevel::Info, "gamma beta", 3),
        entry(3, LogLevel::Fatal, "delta", 4),
    ];
    let top = extract_keywords(&es, 3);
    let got: Vec<(&str, usize, usize)> = top.iter().map(|k| (k.word.as_str(), k.count, k.error_count)).collect();
    assert_eq!(got, vec![("beta", 3, 1), ("gamma", 3, 1), ("delta", 1, 1)]);
    for w in top.windows(2) {
        assert!(w[0].count >= w[1].count);
    }
    assert!(extract_keywords(&es, 0).is_empty());
}

fn totals(t: &KeywordCounts) -> Vec<(String, usize, usize)> {
    let mut v: Vec<(String, usize, usize)> = t.rows.iter().map(|r| (r.word.clone(), r.count, r.error_count)).collect();
    v.sort();
    v
}

#[test]
fn merged_chunks_match_one_pass() {
    let es = vec![
        entry(0, LogLevel::Info, "alpha beta", 1),
        entry(1, LogLevel::Error, "beta gamma", 2),
        entry(2, LogLevel::Info, "gamma alpha", 3),
        entry(3, LogLevel::Fatal, "alpha", 4),
    ];
    let whole = count_keywords(&es);
    let mut left = count_keywords(&es[..1]);
    merge_counts(&mut left, &count_keywords(&es[1..3]));
    merge_counts(&mut left, &count_keywords(&es[3..]));
    assert_eq!(totals(&left), totals(&whole));
    let mut right = count_keywords(&es[2..]);
    merge_counts(&mut right, &count_keywords(&es[..2]));
    assert_eq!(totals(&right), totals(&whole));
    assert_eq!(totals(&whole), vec![
        ("alpha".to_string(), 3, 1),
        ("beta".to_string(), 2, 1),
        ("gamma".to_string(), 2, 1),
    ]);
}

#[test]
fn analyzer_end_to_end() {
    let es = vec![
        entry(0, LogLevel::Error, "disk failure", 1),
        entry(30, LogLevel::Fatal, "disk failure again", 2),
    ];
    let a = LogAnalyzer::new(es, 4).analyze(5);
    assert_eq!(a.unparsed_lines, 4);
    assert_eq!(a.level_counts.get(LogLevel::Fatal), 1);
    assert_eq!(a.level_counts.get(LogLevel::Error), 1);
    assert_eq!(a.anomaly_score.num, 75 * a.anomaly_score.den);
    assert_eq!(a.top_keywords[0].word, "disk");
    let c = count_by_level(&[entry(0, LogLevel::Warn, "x", 1)]);
    assert_eq!(c.warn, 1);
}

#[test]
fn durations() {
    assert_eq!(format_duration(0), "0s");
    assert_eq!(format_duration(59), "59s");
    assert_eq!(format_duration(61), "1m 1s");
    assert_eq!(format_duration(3600), "1h 0m 0s");
    assert_eq!(format_duration(3723), "1h 2m 3s");
    assert_eq!(format_duration(-61), "-1s");
}

#[test]
fn export_helpers() {
    assert_eq!(ExportFormat::from_str("JSON"), Some(ExportFormat::Json));
    assert_eq!(ExportFormat::from_str("csv"), Some(ExportFormat::Csv));
    assert_eq!(ExportFormat::from_str("xml"), None);
    assert_eq!(csv_header(), "timestamp,level,source,message");
    let mut e = entry(61, LogLevel::Warn, "say \"hi\"", 1);
    e.source = Some("svc".to_string());
    assert_eq!(csv_line(&e), "2026-01-01 00:01:01,WARN,svc,\"say \"\"hi\"\"\"");
    assert!(ReportGenerator::new(true).color);
}

#[test]
fn filter_conditions() {
    let mut a = entry(0, LogLevel::Info, "Connection RESET by peer", 1);
    a.source = Some("NetWorker".to_string());
    let b = entry(100, LogLevel::Error, "disk full", 2);
    let c = entry(200, LogLevel::Warn, "connection reset", 3);

    let kw = FilterConfig::new().with_keyword("connection reset".to_string());
    assert!(matches_all(&a, &kw));
    assert!(!matches_all(&b, &kw));
    let kept = apply(vec![a.clone(), b.clone(), c.clone()], &kw);
    assert_eq!(kept.iter().map(|e| e.line_number).collect::<Vec<_>>(), vec![1, 3]);

    let lvl = FilterConfig::new().with_min_level(&LogLevel::Warn);
    let kept = apply(vec![a.clone(), b.clone(), c.clone()], &lvl);
    assert_eq!(kept.iter().map(|e| e.line_number).collect::<Vec<_>>(), vec![2, 3]);

    let range = FilterConfig::new().with_time_range(Some(Timestamp { secs: BASE + 50 }), Some(Timestamp { secs: BASE + 150 }));
    let kept = apply(vec![a.clone(), b.clone(), c.clone()], &range);
    assert_eq!(kept.iter().map(|e| e.line_number).collect::<Vec<_>>(), vec![2]);

    let src = FilterConfig::new().with_source("worker".to_string());
    let kept = apply(vec![a.clone(), b.clone(), c.clone()], &src);
    assert_eq!(kept.iter().map(|e| e.line_number).collect::<Vec<_>>(), vec![1]);

    let none = FilterConfig::new();
    assert!(none.is_empty());
    assert_eq!(apply(vec![a, b, c], &none).len(), 3);
}

#[test]
fn special_characters_in_keyword_are_literal() {
    let kw = FilterConfig::new().with_keyword("a.b".to_string());
    assert!(matches_all(&entry(0, LogLevel::Info, "x A.B y", 1), &kw));
    assert!(!matches_all(&entry(0, LogLevel::Info, "x aXb y", 1), &kw));
}

#[test]
fn timestamps_and_sizes() {
    let t = Timestamp { secs: BASE + 13 * 3600 + 59 };
    assert_eq!(t.hour(), 13);
    assert_eq!(Timestamp { secs: -1 }.hour(), 23);
    assert!(t.is_valid());
    assert!(!Timestamp { secs: i64::MAX }.is_valid());
    assert!(Timestamp::from_secs(i64::MIN).is_none());
    assert_eq!(t.text(), "2026-01-01 13:00:59");
    assert!(logscope::keywords::message_chars_fit(&[entry(0, LogLevel::Info, "abc", 1)]));
}

#[test]
fn keyword_length_counts_characters() {
    let k = message_keywords("éé ñño żółw ab");
    assert_eq!(k, vec!["ñño", "żółw"]);
}

#[test]
fn burst_scenario_at_another_base() {
    let base = -5_000_000;
    let es: Vec<LogEntry> = [0, 10, 20, 90]
        .iter()
        .enumerate()
        .map(|(i, d)| LogEntry {
            timestamp: Timestamp { secs: base + d },
            level: LogLevel::Error,
            message: String::new(),
            source: None,
            line_number: i + 1,
        })
        .collect();
    let stamps: Vec<i64> = es.iter().map(|e| e.timestamp.secs).collect();
    let bursts = logscope::stats::detect_bursts(&stamps);
    assert_eq!(bursts.len(), 1);
    assert_eq!((bursts[0].start_secs, bursts[0].count), (base, 3));
}

#[test]
fn keywords_ignore_entry_order() {
    let es = vec![
        entry(0, LogLevel::Info, "alpha beta", 1),
        entry(1, LogLevel::Error, "beta gamma", 2),
        entry(2, LogLevel::Fatal, "gamma alpha gamma", 3),
    ];
    let reversed: Vec<LogEntry> = es.iter().rev().cloned().collect();
    let key = |v: Vec<logscope::keywords::KeywordEntry>| v.into_iter().map(|k| (k.word, k.count, k.error_count)).collect::<Vec<_>>();
    assert_eq!(key(extract_keywords(&es, 10)), key(extract_keywords(&reversed, 10)));
}
