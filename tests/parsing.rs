use logscope::parser::{LogEntry, LogFormat, LogLevel, LogParser};

const JAN_1_2026_NOON: i64 = 1_767_268_800;

fn parser(format: LogFormat) -> LogParser {
    LogParser::with_format_and_year(format, "2026")
}

#[test]
fn level_aliases() {
    assert_eq!(LogLevel::from_str("dbg"), LogLevel::Debug);
    assert_eq!(LogLevel::from_str("Trace"), LogLevel::Debug);
    assert_eq!(LogLevel::from_str("information"), LogLevel::Info);
    assert_eq!(LogLevel::from_str("warning"), LogLevel::Warn);
    assert_eq!(LogLevel::from_str("ERR"), LogLevel::Error);
    assert_eq!(LogLevel::from_str("crit"), LogLevel::Fatal);
    assert_eq!(LogLevel::from_str("verbose"), LogLevel::Unknown);
    assert_eq!(LogLevel::Warn.as_str(), "WARN");
    assert_eq!(LogLevel::Fatal.severity(), 4);
    assert_eq!(LogLevel::Unknown.severity(), 0);
}

#[test]
fn bracket_line() {
    let e = parser(LogFormat::Bracket).parse_line("  [2026-01-01 12:00:00]  warning   Disk almost full ", 7).unwrap();
    assert_eq!(e.timestamp.secs, JAN_1_2026_NOON);
    assert_eq!(e.level, LogLevel::Warn);
    assert_eq!(e.message, "Disk almost full");
    assert_eq!(e.source, None);
    assert_eq!(e.line_number, 7);
}

#[test]
fn bracket_line_with_t_separator() {
    let e = parser(LogFormat::Bracket).parse_line("[2026-01-01T12:00:00] ERROR boom", 1).unwrap();
    assert_eq!(e.timestamp.secs, JAN_1_2026_NOON);
    assert_eq!(e.level, LogLevel::Error);
}

#[test]
fn bracket_rejects_bad_date() {
    assert!(parser(LogFormat::Bracket).parse_line("[2026-13-01 12:00:00] INFO x", 1).is_none());
    assert!(parser(LogFormat::Bracket).parse_line("[2026-01-01 12:00:00] INFO", 1).is_none());
}

#[test]
fn json_line() {
    let line = r#"{"time":"2026-01-01 12:00:00","severity":"fatal","msg":"out of memory","service":"db"}"#;
    let e = parser(LogFormat::Json).parse_line(line, 3).unwrap();
    assert_eq!(e.timestamp.secs, JAN_1_2026_NOON);
    assert_eq!(e.level, LogLevel::Fatal);
    assert_eq!(e.message, "out of memory");
    assert_eq!(e.source.as_deref(), Some("db"));
}

#[test]
fn json_defaults() {
    let e = parser(LogFormat::Json).parse_line(r#"{"timestamp":"2026-01-01T12:00:00"}"#, 1).unwrap();
    assert_eq!(e.level, LogLevel::Unknown);
    assert_eq!(e.message, "");
    assert_eq!(e.source, None);
}

#[test]
fn json_first_present_key_counts() {
    let line = r#"{"timestamp":5,"time":"2026-01-01T12:00:00"}"#;
    assert!(parser(LogFormat::Json).parse_line(line, 1).is_none());
}

#[test]
fn apache_line() {
    let line = r#"127.0.0.1 - - [01/Jan/2026:12:00:00 +0000] "GET /x HTTP/1.1" 503 1234"#;
    let e = parser(LogFormat::Apache).parse_line(line, 2).unwrap();
    assert_eq!(e.timestamp.secs, JAN_1_2026_NOON);
    assert_eq!(e.level, LogLevel::Error);
    assert_eq!(e.message, line);
    assert_eq!(e.source.as_deref(), Some("apache"));
    let warn = r#"10.0.0.1 - bob [01/Jan/2026:12:00:00 +0000] "POST / HTTP/1.1" 404 0"#;
    assert_eq!(parser(LogFormat::Apache).parse_line(warn, 1).unwrap().level, LogLevel::Warn);
    let odd = r#"10.0.0.1 - bob [01/Jan/2026:12:00:00 +0000] "POST / HTTP/1.1" 101 0"#;
    assert_eq!(parser(LogFormat::Apache).parse_line(odd, 1).unwrap().level, LogLevel::Unknown);
}

#[test]
fn syslog_line() {
    let e = parser(LogFormat::Syslog).parse_line("Jan  1 12:00:00 web01 sshd[4242]: Failed password for root", 9).unwrap();
    assert_eq!(e.timestamp.secs, JAN_1_2026_NOON);
    assert_eq!(e.level, LogLevel::Error);
    assert_eq!(e.source.as_deref(), Some("sshd"));
    assert_eq!(e.message, "Failed password for root");
    let w = parser(LogFormat::Syslog).parse_line("Jan 1 12:00:00 web01 cron: WARNING low disk", 1).unwrap();
    assert_eq!(w.level, LogLevel::Warn);
    assert_eq!(w.source.as_deref(), Some("cron"));
    let i = parser(LogFormat::Syslog).parse_line("Jan 1 12:00:00 web01 cron: job started", 1).unwrap();
    assert_eq!(i.level, LogLevel::Info);
}

#[test]
fn auto_prefers_bracket() {
    let line = r#"[2026-01-01 12:00:00] INFO [x] - - [01/Jan/2026:12:00:00 +0000] "GET / HTTP/1.1" 500 1"#;
    let auto = parser(LogFormat::Auto).parse_line(line, 1).unwrap();
    assert_eq!(auto.level, LogLevel::Info);
    assert_eq!(auto.source, None);
}

#[test]
fn auto_falls_through_in_order() {
    let p = parser(LogFormat::Auto);
    let j = p.parse_line(r#"{"timestamp":"2026-01-01T12:00:00","level":"warn","message":"m"}"#, 1).unwrap();
    assert_eq!(j.level, LogLevel::Warn);
    let a = p.parse_line(r#"1.2.3.4 - - [01/Jan/2026:12:00:00 +0000] "GET / HTTP/1.1" 200 5"#, 2).unwrap();
    assert_eq!(a.source.as_deref(), Some("apache"));
    let s = p.parse_line("Jan 1 12:00:00 h app: hello", 3).unwrap();
    assert_eq!(s.source.as_deref(), Some("app"));
    assert!(p.parse_line("no grammar here", 4).is_none());
    assert!(p.parse_line("   ", 5).is_none());
}

fn lines(v: &[&str]) -> Vec<String> {
    v.iter().map(|s| s.to_string()).collect()
}

#[test]
fn parse_lines_sorts_and_counts() {
    let input = lines(&[
        "[2026-01-01 12:00:10] INFO b",
        "",
        "garbage",
        "[2026-01-01 12:00:00] INFO a",
        "[2026-01-01 12:00:10] ERROR c",
    ]);
    let (entries, unparsed) = parser(LogFormat::Auto).parse_lines(&input);
    let got: Vec<(i64, usize)> = entries.iter().map(|e: &LogEntry| (e.timestamp.secs, e.line_number)).collect();
    assert_eq!(got, vec![(JAN_1_2026_NOON, 4), (JAN_1_2026_NOON + 10, 1), (JAN_1_2026_NOON + 10, 5)]);
    assert_eq!(unparsed, 1);
}

#[test]
fn parse_lines_is_repeatable() {
    let input = lines(&[
        "[2026-01-01 12:00:10] INFO b",
        "[2026-01-01 12:00:00] WARN a",
        r#"{"timestamp":"2026-01-01T12:00:05","level":"error","message":"x"}"#,
    ]);
    let p = parser(LogFormat::Auto);
    let (a, ua) = p.parse_lines(&input);
    let (b, ub) = p.parse_lines(&input);
    let key = |v: &Vec<LogEntry>| v.iter().map(|e| (e.timestamp.secs, e.line_number, e.message.clone())).collect::<Vec<_>>();
    assert_eq!(key(&a), key(&b));
    assert_eq!(ua, ub);
}

#[test]
fn default_parser_detects_formats() {
    let p = LogParser::new();
    assert_eq!(p.format, LogFormat::Auto);
    assert!(p.parse_line("[2026-01-01 12:00:00] INFO up", 1).is_some());
    assert_eq!(LogParser::with_format(LogFormat::Json).format, LogFormat::Json);
}
