//! The record model and the line grammars: Bracket, Json, Apache and Syslog,
//! with an ordered search over them.
use vstd::prelude::*;
use crate::json::{fields_view, find_field, lookup, object_fields, json_object_fields, JsonField};
use crate::scan::{digit_end, find_from, find_char, is_digit, is_word, nonws_end, skip_digits, skip_nonws, skip_word, skip_ws, word_char, word_end, ws_end};
use crate::text::{contains_chars, is_ws, white_space, chars_of, is_ascii_digit, lowercase, lower_of, occurs_in, same_text, substring, trim_text, trimmed, upper_of, uppercase};
use crate::time::{naive_parse, parse_naive, Timestamp, MAX_ABS_SECS};

verus! {

/// The severity of a record.
#[derive(Clone, Copy, Debug, PartialEq, Eq, Structural, Hash)]
pub enum LogLevel {
    Debug,
    Info,
    Warn,
    Error,
    Fatal,
    Unknown,
}

/// The level that an upper-cased level word names.
pub open spec fn level_from_upper(u: Seq<char>) -> LogLevel {
    if u == "DEBUG"@ || u == "DBG"@ || u == "TRACE"@ {
        LogLevel::Debug
    } else if u == "INFO"@ || u == "INFORMATION"@ {
        LogLevel::Info
    } else if u == "WARN"@ || u == "WARNING"@ {
        LogLevel::Warn
    } else if u == "ERROR"@ || u == "ERR"@ {
        LogLevel::Error
    } else if u == "FATAL"@ || u == "CRITICAL"@ || u == "CRIT"@ {
        LogLevel::Fatal
    } else {
        LogLevel::Unknown
    }
}

/// Error and Fatal records are the errors of a corpus.
pub open spec fn is_error_level(l: LogLevel) -> bool {
    l == LogLevel::Error || l == LogLevel::Fatal
}

impl LogLevel {
    pub open spec fn name(self) -> Seq<char> {
        match self {
            LogLevel::Debug => "DEBUG"@,
            LogLevel::Info => "INFO"@,
            LogLevel::Warn => "WARN"@,
            LogLevel::Error => "ERROR"@,
            LogLevel::Fatal => "FATAL"@,
            LogLevel::Unknown => "UNKNOWN"@,
        }
    }

    pub open spec fn rank(self) -> u8 {
        match self {
            LogLevel::Debug => 0,
            LogLevel::Info => 1,
            LogLevel::Warn => 2,
            LogLevel::Error => 3,
            LogLevel::Fatal => 4,
            LogLevel::Unknown => 0,
        }
    }

    /// The level named by an already upper-cased word.
    pub fn from_upper(u: &str) -> (r: LogLevel)
        ensures
            r == level_from_upper(u@),
    {
        if same_text(u, "DEBUG") || same_text(u, "DBG") || same_text(u, "TRACE") {
            LogLevel::Debug
        } else if same_text(u, "INFO") || same_text(u, "INFORMATION") {
            LogLevel::Info
        } else if same_text(u, "WARN") || same_text(u, "WARNING") {
            LogLevel::Warn
        } else if same_text(u, "ERROR") || same_text(u, "ERR") {
            LogLevel::Error
        } else if same_text(u, "FATAL") || same_text(u, "CRITICAL") || same_text(u, "CRIT") {
            LogLevel::Fatal
        } else {
            LogLevel::Unknown
        }
    }

    /// The level named by a word, in any case.
    pub fn from_str(s: &str) -> (r: LogLevel)
        ensures
            r == level_from_upper(upper_of(s@)),
    {
        let u = uppercase(s);
        LogLevel::from_upper(u.as_str())
    }

    pub fn as_str(&self) -> (r: &'static str)
        ensures
            r@ == self.name(),
    {
        match self {
            LogLevel::Debug => "DEBUG",
            LogLevel::Info => "INFO",
            LogLevel::Warn => "WARN",
            LogLevel::Error => "ERROR",
            LogLevel::Fatal => "FATAL",
            LogLevel::Unknown => "UNKNOWN",
        }
    }

    pub fn severity(&self) -> (r: u8)
        ensures
            r == self.rank(),
    {
        match self {
            LogLevel::Debug => 0,
            LogLevel::Info => 1,
            LogLevel::Warn => 2,
            LogLevel::Error => 3,
            LogLevel::Fatal => 4,
            LogLevel::Unknown => 0,
        }
    }

    pub fn is_error(&self) -> (r: bool)
        ensures
            r == is_error_level(*self),
    {
        match self {
            LogLevel::Error | LogLevel::Fatal => true,
            _ => false,
        }
    }
}

/// A normalized log record.
#[derive(Clone, Debug)]
pub struct LogEntry {
    pub timestamp: Timestamp,
    pub level: LogLevel,
    pub message: String,
    pub source: Option<String>,
    pub line_number: usize,
}

/// A record as plain values.
pub struct Record {
    pub timestamp: Timestamp,
    pub level: LogLevel,
    pub message: Seq<char>,
    pub source: Option<Seq<char>>,
    pub line_number: usize,
}

pub open spec fn opt_text(o: Option<String>) -> Option<Seq<char>> {
    match o {
        Some(s) => Some(s@),
        None => None,
    }
}

impl LogEntry {
    pub open spec fn record(self) -> Record {
        Record {
            timestamp: self.timestamp,
            level: self.level,
            message: self.message@,
            source: opt_text(self.source),
            line_number: self.line_number,
        }
    }
}

/// The record that a parse gave, as plain values.
pub open spec fn reading_of(r: Option<LogEntry>) -> Option<Record> {
    match r {
        Some(e) => Some(e.record()),
        None => None,
    }
}

/// The grammar to read lines with; `Auto` tries the four others in turn.
#[derive(Clone, Copy, Debug, PartialEq, Eq, Structural)]
pub enum LogFormat {
    Bracket,
    Syslog,
    Json,
    Apache,
    Auto,
}

/// A timestamp from a parsed number of seconds, where it is in range.
pub open spec fn stamp_of(p: Option<i64>) -> Option<Timestamp> {
    match p {
        Some(secs) => if -MAX_ABS_SECS <= secs <= MAX_ABS_SECS {
            Some(Timestamp { secs })
        } else {
            None
        },
        None => None,
    }
}

/// The first of two readings of a date-time text that succeeds.
pub open spec fn parse_either(text: Seq<char>, f1: Seq<char>, f2: Seq<char>) -> Option<i64> {
    match naive_parse(text, f1) {
        Some(s) => Some(s),
        None => naive_parse(text, f2),
    }
}

fn stamp(p: Option<i64>) -> (r: Option<Timestamp>)
    ensures
        r == stamp_of(p),
{
    match p {
        Some(secs) => Timestamp::from_secs(secs),
        None => None,
    }
}

fn parse_two(text: &str, f1: &str, f2: &str) -> (r: Option<i64>)
    ensures
        r == parse_either(text@, f1@, f2@),
{
    match parse_naive(text, f1) {
        Some(s) => Some(s),
        None => parse_naive(text, f2),
    }
}

/// `t` holds `[YYYY-MM-DD?HH:MM:SS]` at its start, `?` a space or `T`.
pub open spec fn bracket_head(t: Seq<char>) -> bool {
    &&& t.len() >= 21
    &&& t[0] == '['
    &&& is_ascii_digit(t[1]) && is_ascii_digit(t[2]) && is_ascii_digit(t[3]) && is_ascii_digit(t[4])
    &&& t[5] == '-' && is_ascii_digit(t[6]) && is_ascii_digit(t[7])
    &&& t[8] == '-' && is_ascii_digit(t[9]) && is_ascii_digit(t[10])
    &&& (t[11] == ' ' || t[11] == 'T')
    &&& is_ascii_digit(t[12]) && is_ascii_digit(t[13]) && t[14] == ':'
    &&& is_ascii_digit(t[15]) && is_ascii_digit(t[16]) && t[17] == ':'
    &&& is_ascii_digit(t[18]) && is_ascii_digit(t[19]) && t[20] == ']'
}

/// The date-time text of a Bracket line, its separator made a space.
pub open spec fn bracket_stamp_text(t: Seq<char>) -> Seq<char> {
    t.subrange(1, 11) + seq![' '] + t.subrange(12, 20)
}

/// The Bracket reading of a trimmed line:
/// `[<date><space or T><time>] <LEVEL> <message>`, the level a run of letters,
/// digits and underscores.
pub open spec fn bracket_reading(t: Seq<char>, line_number: usize) -> Option<Record> {
    if !bracket_head(t) {
        None
    } else {
        let level_start = ws_end(t, 21);
        let level_end = word_end(t, level_start);
        let msg_start = ws_end(t, level_end);
        if level_start == 21 || level_end == level_start || msg_start == level_end || msg_start >= t.len() {
            None
        } else {
            match stamp_of(naive_parse(bracket_stamp_text(t), "%Y-%m-%d %H:%M:%S"@)) {
                Some(ts) => Some(Record {
                    timestamp: ts,
                    level: level_from_upper(upper_of(t.subrange(level_start, level_end))),
                    message: t.subrange(msg_start, t.len() as int),
                    source: None,
                    line_number,
                }),
                None => None,
            }
        }
    }
}

fn has_bracket_head(tc: &Vec<char>) -> (r: bool)
    ensures
        r == bracket_head(tc@),
{
    tc.len() >= 21 && tc[0] == '[' && is_digit(tc[1]) && is_digit(tc[2]) && is_digit(tc[3])
        && is_digit(tc[4]) && tc[5] == '-' && is_digit(tc[6]) && is_digit(tc[7]) && tc[8] == '-'
        && is_digit(tc[9]) && is_digit(tc[10]) && (tc[11] == ' ' || tc[11] == 'T') && is_digit(
        tc[12],
    ) && is_digit(tc[13]) && tc[14] == ':' && is_digit(tc[15]) && is_digit(tc[16]) && tc[17]
        == ':' && is_digit(tc[18]) && is_digit(tc[19]) && tc[20] == ']'
}

/// Reads a trimmed line under the Bracket grammar.
pub fn parse_bracket(t: &str, tc: &Vec<char>, line_number: usize) -> (r: Option<LogEntry>)
    requires
        tc@ == t@,
    ensures
        reading_of(r) == bracket_reading(t@, line_number),
{
    if !has_bracket_head(tc) {
        return None;
    }
    let level_start = skip_ws(tc, 21);
    let level_end = skip_word(tc, level_start);
    let msg_start = skip_ws(tc, level_end);
    if level_start == 21 || level_end == level_start || msg_start == level_end || msg_start >= tc.len() {
        return None;
    }
    proof {
        reveal_strlit(" ");
    }
    let text = substring(t, 1, 11).concat(" ").concat(substring(t, 12, 20).as_str());
    assert(text@ =~= bracket_stamp_text(t@));
    match stamp(parse_naive(text.as_str(), "%Y-%m-%d %H:%M:%S")) {
        Some(ts) => {
            let word = substring(t, level_start, level_end);
            let level = LogLevel::from_str(word.as_str());
            let message = substring(t, msg_start, tc.len());
            Some(LogEntry { timestamp: ts, level, message, source: None, line_number })
        },
        None => None,
    }
}


/// The key names of a list of keys.
pub open spec fn key_texts(ks: Seq<&str>) -> Seq<Seq<char>> {
    ks.map_values(|k: &str| k@)
}

/// The field under the first of `keys` that `fs` holds: `None` where it holds
/// none of them.
pub open spec fn lookup_any(fs: Seq<(Seq<char>, Option<Seq<char>>)>, keys: Seq<Seq<char>>) -> Option<Option<Seq<char>>>
    decreases keys.len(),
{
    if keys.len() == 0 {
        None
    } else {
        match lookup(fs, keys[0]) {
            Some(v) => Some(v),
            None => lookup_any(fs, keys.drop_first()),
        }
    }
}

/// The string value of a looked-up field, or `d` where the field is missing or
/// holds no string.
pub open spec fn text_or(o: Option<Option<Seq<char>>>, d: Seq<char>) -> Seq<char> {
    match o {
        Some(Some(s)) => s,
        _ => d,
    }
}

/// The string value of a looked-up field, where there is one.
pub open spec fn text_opt(o: Option<Option<Seq<char>>>) -> Option<Seq<char>> {
    match o {
        Some(Some(s)) => Some(s),
        _ => None,
    }
}

/// The Json reading of a trimmed line: one JSON object whose timestamp is under
/// `timestamp`, `time` or `@timestamp`, level under `level`, `severity` or `lvl`,
/// message under `message` or `msg`, and source under `logger`, `source` or
/// `service`; the first key present counts.
pub open spec fn json_reading(t: Seq<char>, line_number: usize) -> Option<Record> {
    match json_object_fields(t) {
        None => None,
        Some(fs) => match lookup_any(fs, seq!["timestamp"@, "time"@, "@timestamp"@]) {
            Some(Some(ts)) => match stamp_of(parse_either(ts, "%Y-%m-%dT%H:%M:%S"@, "%Y-%m-%d %H:%M:%S"@)) {
                Some(stamp) => Some(Record {
                    timestamp: stamp,
                    level: level_from_upper(upper_of(text_or(lookup_any(fs, seq!["level"@, "severity"@, "lvl"@]), "UNKNOWN"@))),
                    message: text_or(lookup_any(fs, seq!["message"@, "msg"@]), ""@),
                    source: text_opt(lookup_any(fs, seq!["logger"@, "source"@, "service"@])),
                    line_number,
                }),
                None => None,
            },
            _ => None,
        },
    }
}

fn find_any(fs: &Vec<JsonField>, keys: &Vec<&str>) -> (r: Option<Option<String>>)
    ensures
        match r {
            None => lookup_any(fields_view(fs@), key_texts(keys@)) is None,
            Some(v) => lookup_any(fields_view(fs@), key_texts(keys@)) == Some(opt_text(v)),
        },
{
    let mut i: usize = 0;
    assert(key_texts(keys@).subrange(0, keys@.len() as int) =~= key_texts(keys@));
    while i < keys.len()
        invariant
            i <= keys@.len(),
            lookup_any(fields_view(fs@), key_texts(keys@)) == lookup_any(fields_view(fs@), key_texts(keys@).subrange(i as int, keys@.len() as int)),
        decreases keys@.len() - i,
    {
        let ghost rest = key_texts(keys@).subrange(i as int, keys@.len() as int);
        assert(rest.drop_first() =~= key_texts(keys@).subrange(i + 1, keys@.len() as int));
        match find_field(fs, keys[i]) {
            Some(v) => {
                return Some(v);
            },
            None => {},
        }
        i = i + 1;
    }
    None
}

fn string_or(o: Option<Option<String>>, d: &str) -> (r: String)
    ensures
        r@ == text_or(match o { Some(v) => Some(opt_text(v)), None => None }, d@),
{
    match o {
        Some(Some(s)) => s,
        _ => String::from_str(d),
    }
}

/// Reads a trimmed line under the Json grammar.
pub fn parse_json(t: &str, line_number: usize) -> (r: Option<LogEntry>)
    ensures
        reading_of(r) == json_reading(t@, line_number),
{
    let fs = match object_fields(t) {
        Some(fs) => fs,
        None => {
            return None;
        },
    };
    let ghost fv = fields_view(fs@);
    let stamp_keys = vec!["timestamp", "time", "@timestamp"];
    let level_keys = vec!["level", "severity", "lvl"];
    let message_keys = vec!["message", "msg"];
    let source_keys = vec!["logger", "source", "service"];
    assert(key_texts(stamp_keys@) =~= seq!["timestamp"@, "time"@, "@timestamp"@]);
    assert(key_texts(level_keys@) =~= seq!["level"@, "severity"@, "lvl"@]);
    assert(key_texts(message_keys@) =~= seq!["message"@, "msg"@]);
    assert(key_texts(source_keys@) =~= seq!["logger"@, "source"@, "service"@]);
    let ts = match find_any(&fs, &stamp_keys) {
        Some(Some(ts)) => ts,
        _ => {
            return None;
        },
    };
    let stamp = match stamp(parse_two(ts.as_str(), "%Y-%m-%dT%H:%M:%S", "%Y-%m-%d %H:%M:%S")) {
        Some(s) => s,
        None => {
            return None;
        },
    };
    let level_text = string_or(find_any(&fs, &level_keys), "UNKNOWN");
    let message = string_or(find_any(&fs, &message_keys), "");
    let source = match find_any(&fs, &source_keys) {
        Some(Some(s)) => Some(s),
        _ => None,
    };
    let r = LogEntry { timestamp: stamp, level: LogLevel::from_str(level_text.as_str()), message, source, line_number };
    assert(r.record().timestamp == json_reading(t@, line_number)->Some_0.timestamp);
    assert(r.record().level == json_reading(t@, line_number)->Some_0.level);
    assert(r.record().message == json_reading(t@, line_number)->Some_0.message);
    assert(r.record().source == json_reading(t@, line_number)->Some_0.source);
    Some(r)
}

/// The value of the three ASCII digits of `t` from `f` on.
pub open spec fn status_at(t: Seq<char>, f: int) -> int {
    100 * (t[f] as int - '0' as int) + 10 * (t[f + 1] as int - '0' as int) + (t[f + 2] as int - '0' as int)
}

/// The level of an HTTP status.
pub open spec fn status_level(status: int) -> LogLevel {
    if 200 <= status <= 399 {
        LogLevel::Info
    } else if 400 <= status <= 499 {
        LogLevel::Warn
    } else if 500 <= status <= 599 {
        LogLevel::Error
    } else {
        LogLevel::Unknown
    }
}

/// The Apache reading of a trimmed line:
/// `<host> <ident> <user> [<date-time>] "<request>" <status> <size>...`;
/// the whole line is the message and `apache` the source.
pub open spec fn apache_reading(t: Seq<char>, line_number: usize) -> Option<Record> {
    let a1 = nonws_end(t, 0);
    let b1 = ws_end(t, a1);
    let a2 = nonws_end(t, b1);
    let b2 = ws_end(t, a2);
    let a3 = nonws_end(t, b2);
    let b3 = ws_end(t, a3);
    let c = find_from(t, b3 + 1, ']');
    let d = ws_end(t, c + 1);
    let e = find_from(t, d + 1, '"');
    let f = ws_end(t, e + 1);
    let g = ws_end(t, f + 3);
    if a1 == 0 || b1 == a1 || a2 == b1 || b2 == a2 || a3 == b2 || b3 == a3 || b3 >= t.len() || t[b3] != '[' {
        None
    } else if c >= t.len() || c == b3 + 1 || d == c + 1 || d >= t.len() || t[d] != '"' {
        None
    } else if e >= t.len() || f == e + 1 || f + 3 > t.len() {
        None
    } else if !(is_ascii_digit(t[f]) && is_ascii_digit(t[f + 1]) && is_ascii_digit(t[f + 2])) {
        None
    } else if g == f + 3 || g >= t.len() {
        None
    } else {
        match stamp_of(parse_either(t.subrange(b3 + 1, c), "%d/%b/%Y:%H:%M:%S %z"@, "%d/%b/%Y:%H:%M:%S +0000"@)) {
            Some(ts) => Some(Record {
                timestamp: ts,
                level: status_level(status_at(t, f)),
                message: t,
                source: Some("apache"@),
                line_number,
            }),
            None => None,
        }
    }
}

fn level_of_status(status: u32) -> (r: LogLevel)
    ensures
        r == status_level(status as int),
{
    if 200 <= status && status <= 399 {
        LogLevel::Info
    } else if 400 <= status && status <= 499 {
        LogLevel::Warn
    } else if 500 <= status && status <= 599 {
        LogLevel::Error
    } else {
        LogLevel::Unknown
    }
}

/// Reads a trimmed line under the Apache grammar.
pub fn parse_apache(t: &str, tc: &Vec<char>, line_number: usize) -> (r: Option<LogEntry>)
    requires
        tc@ == t@,
    ensures
        reading_of(r) == apache_reading(t@, line_number),
{
    let n = tc.len();
    let a1 = skip_nonws(tc, 0);
    let b1 = skip_ws(tc, a1);
    let a2 = skip_nonws(tc, b1);
    let b2 = skip_ws(tc, a2);
    let a3 = skip_nonws(tc, b2);
    let b3 = skip_ws(tc, a3);
    if a1 == 0 || b1 == a1 || a2 == b1 || b2 == a2 || a3 == b2 || b3 == a3 || b3 >= n || tc[b3] != '[' {
        return None;
    }
    let c = find_char(tc, b3 + 1, ']');
    if c >= n {
        return None;
    }
    let d = skip_ws(tc, c + 1);
    if c == b3 + 1 || d == c + 1 || d >= n || tc[d] != '"' {
        return None;
    }
    let e = find_char(tc, d + 1, '"');
    if e >= n {
        return None;
    }
    let f = skip_ws(tc, e + 1);
    if f == e + 1 || n < 3 || f > n - 3 {
        return None;
    }
    if !(is_digit(tc[f]) && is_digit(tc[f + 1]) && is_digit(tc[f + 2])) {
        return None;
    }
    let g = skip_ws(tc, f + 3);
    if g == f + 3 || g >= n {
        return None;
    }
    let text = substring(t, b3 + 1, c);
    match stamp(parse_two(text.as_str(), "%d/%b/%Y:%H:%M:%S %z", "%d/%b/%Y:%H:%M:%S +0000")) {
        Some(ts) => {
            let status = 100 * (tc[f] as u32 - '0' as u32) + 10 * (tc[f + 1] as u32 - '0' as u32)
                + (tc[f + 2] as u32 - '0' as u32);
            assert(tc@.subrange(0, n as int) =~= t@);
            Some(LogEntry {
                timestamp: ts,
                level: level_of_status(status),
                message: String::from_str(t),
                source: Some(String::from_str("apache")),
                line_number,
            })
        },
        None => None,
    }
}


/// At `k`, `t` holds `[<digits>]:` and then whitespace and more text.
pub open spec fn pid_tail(t: Seq<char>, k: int) -> bool {
    let j = digit_end(t, k + 1);
    &&& t[k] == '['
    &&& j > k + 1 && j + 1 < t.len()
    &&& t[j] == ']' && t[j + 1] == ':'
    &&& ws_end(t, j + 2) > j + 2 && ws_end(t, j + 2) < t.len()
}

/// At `k`, `t` holds `:` and then whitespace and more text.
pub open spec fn colon_tail(t: Seq<char>, k: int) -> bool {
    &&& t[k] == ':'
    &&& ws_end(t, k + 1) > k + 1 && ws_end(t, k + 1) < t.len()
}

/// The shortest process tag of a Syslog line, ending before `k` or later: the
/// end of the tag and the start of the message.
pub open spec fn tag_search(t: Seq<char>, k: int) -> Option<(int, int)>
    decreases t.len() - k,
{
    if k < 1 || k >= t.len() || white_space(t[k - 1]) {
        None
    } else if pid_tail(t, k) {
        Some((k, ws_end(t, digit_end(t, k + 1) + 2)))
    } else if colon_tail(t, k) {
        Some((k, ws_end(t, k + 1)))
    } else {
        tag_search(t, k + 1)
    }
}

/// The level that a Syslog message, lower-cased, suggests.
pub open spec fn syslog_level(lower: Seq<char>) -> LogLevel {
    if occurs_in("error"@, lower) || occurs_in("fail"@, lower) {
        LogLevel::Error
    } else if occurs_in("warn"@, lower) {
        LogLevel::Warn
    } else {
        LogLevel::Info
    }
}

/// `t` holds `DD:DD:DD` from `r` on, `D` an ASCII digit.
pub open spec fn clock_at(t: Seq<char>, r: int) -> bool {
    &&& r + 8 <= t.len()
    &&& is_ascii_digit(t[r]) && is_ascii_digit(t[r + 1]) && t[r + 2] == ':'
    &&& is_ascii_digit(t[r + 3]) && is_ascii_digit(t[r + 4]) && t[r + 5] == ':'
    &&& is_ascii_digit(t[r + 6]) && is_ascii_digit(t[r + 7])
}

/// The Syslog reading of a trimmed line, in the year `year`:
/// `<Mon> <day> <HH:MM:SS> <host> <tag>[<pid>]: <message>`; the tag is the
/// shortest one after which the rest of the line fits.
pub open spec fn syslog_reading(t: Seq<char>, year: Seq<char>, line_number: usize) -> Option<Record> {
    if t.len() < 3 || !(word_char(t[0]) && word_char(t[1]) && word_char(t[2])) {
        None
    } else {
        let p = ws_end(t, 3);
        let q = digit_end(t, p);
        let r = ws_end(t, q);
        let s1 = ws_end(t, r + 8);
        let h = nonws_end(t, s1);
        let s2 = ws_end(t, h);
        if p == 3 || q == p || q > p + 2 || r == q || !clock_at(t, r) {
            None
        } else if s1 == r + 8 || h == s1 || s2 == h {
            None
        } else {
            match tag_search(t, s2 + 1) {
                None => None,
                Some((k, m)) => match stamp_of(parse_either(year + seq![' '] + t.subrange(0, r + 8), "%Y %b %e %H:%M:%S"@, "%Y %b %d %H:%M:%S"@)) {
                    Some(ts) => Some(Record {
                        timestamp: ts,
                        level: syslog_level(lower_of(t.subrange(m, t.len() as int))),
                        message: t.subrange(m, t.len() as int),
                        source: Some(t.subrange(s2, k)),
                        line_number,
                    }),
                    None => None,
                },
            }
        }
    }
}

fn has_clock(tc: &Vec<char>, r: usize) -> (b: bool)
    requires
        r <= tc@.len(),
    ensures
        b == clock_at(tc@, r as int),
{
    tc.len() >= 8 && r <= tc.len() - 8 && is_digit(tc[r]) && is_digit(tc[r + 1]) && tc[r + 2] == ':'
        && is_digit(tc[r + 3]) && is_digit(tc[r + 4]) && tc[r + 5] == ':' && is_digit(tc[r + 6])
        && is_digit(tc[r + 7])
}

fn find_tag(tc: &Vec<char>, start: usize) -> (r: Option<(usize, usize)>)
    requires
        1 <= start <= tc@.len(),
    ensures
        match r {
            None => tag_search(tc@, start as int) is None,
            Some((k, m)) => tag_search(tc@, start as int) == Some((k as int, m as int)) && start <= k <= m <= tc@.len(),
        },
{
    let n = tc.len();
    let mut k = start;
    while k < n && !is_ws(tc[k - 1])
        invariant
            1 <= start <= k <= n == tc@.len(),
            tag_search(tc@, start as int) == tag_search(tc@, k as int),
        decreases n - k,
    {
        if tc[k] == '[' {
            let j = skip_digits(tc, k + 1);
            if j > k + 1 && j < n - 1 && tc[j] == ']' && tc[j + 1] == ':' {
                let m = skip_ws(tc, j + 2);
                if m > j + 2 && m < n {
                    return Some((k, m));
                }
            }
        }
        if tc[k] == ':' {
            let m = skip_ws(tc, k + 1);
            if m > k + 1 && m < n {
                return Some((k, m));
            }
        }
        k = k + 1;
    }
    None
}

/// The level that a Syslog message suggests.
pub fn level_of_message(message: &str) -> (r: LogLevel)
    ensures
        r == syslog_level(lower_of(message@)),
{
    let lower = chars_of(lowercase(message).as_str());
    let error = chars_of("error");
    let fail = chars_of("fail");
    let warn = chars_of("warn");
    if contains_chars(&lower, &error) || contains_chars(&lower, &fail) {
        LogLevel::Error
    } else if contains_chars(&lower, &warn) {
        LogLevel::Warn
    } else {
        LogLevel::Info
    }
}

/// Reads a trimmed line under the Syslog grammar, in the year `year`.
pub fn parse_syslog(t: &str, tc: &Vec<char>, year: &str, line_number: usize) -> (r: Option<LogEntry>)
    requires
        tc@ == t@,
    ensures
        reading_of(r) == syslog_reading(t@, year@, line_number),
{
    let n = tc.len();
    if n < 3 || !(is_word(tc[0]) && is_word(tc[1]) && is_word(tc[2])) {
        return None;
    }
    let p = skip_ws(tc, 3);
    let q = skip_digits(tc, p);
    if p == 3 || q == p || q - p > 2 {
        return None;
    }
    let r = skip_ws(tc, q);
    if r == q || !has_clock(tc, r) {
        return None;
    }
    let s1 = skip_ws(tc, r + 8);
    if s1 == r + 8 {
        return None;
    }
    let h = skip_nonws(tc, s1);
    if h == s1 {
        return None;
    }
    let s2 = skip_ws(tc, h);
    if s2 == h || s2 >= n {
        return None;
    }
    let (k, m) = match find_tag(tc, s2 + 1) {
        Some(km) => km,
        None => {
            return None;
        },
    };
    proof {
        reveal_strlit(" ");
    }
    let text = String::from_str(year).concat(" ").concat(substring(t, 0, r + 8).as_str());
    assert(text@ =~= year@ + seq![' '] + t@.subrange(0, r + 8));
    match stamp(parse_two(text.as_str(), "%Y %b %e %H:%M:%S", "%Y %b %d %H:%M:%S")) {
        Some(ts) => {
            let message = substring(t, m, n);
            let level = level_of_message(message.as_str());
            let source = substring(t, s2, k);
            Some(LogEntry { timestamp: ts, level, message, source: Some(source), line_number })
        },
        None => None,
    }
}

/// The reading of one physical line under `format`, in the year `year`:
/// `Auto` takes the first of Bracket, Json, Apache and Syslog that reads it.
pub open spec fn line_reading(line: Seq<char>, line_number: usize, format: LogFormat, year: Seq<char>) -> Option<Record> {
    let t = trimmed(line);
    if t.len() == 0 {
        None
    } else {
        match format {
            LogFormat::Bracket => bracket_reading(t, line_number),
            LogFormat::Json => json_reading(t, line_number),
            LogFormat::Apache => apache_reading(t, line_number),
            LogFormat::Syslog => syslog_reading(t, year, line_number),
            LogFormat::Auto => auto_reading(t, year, line_number),
        }
    }
}

/// The first of the Bracket, Json, Apache and Syslog readings of `t` that succeeds.
pub open spec fn auto_reading(t: Seq<char>, year: Seq<char>, line_number: usize) -> Option<Record> {
    match bracket_reading(t, line_number) {
        Some(r) => Some(r),
        None => match json_reading(t, line_number) {
            Some(r) => Some(r),
            None => match apache_reading(t, line_number) {
                Some(r) => Some(r),
                None => syslog_reading(t, year, line_number),
            },
        },
    }
}

/// Reads log lines under one grammar, or under each in a fixed order.
pub struct LogParser {
    pub format: LogFormat,
    pub year: String,
}

impl LogParser {
    /// A parser that detects the grammar of each line, taking the year of
    /// Syslog lines from the clock.
    pub fn new() -> (r: LogParser)
        ensures
            r.format == LogFormat::Auto,
    {
        LogParser::with_format(LogFormat::Auto)
    }

    /// A parser for `format`, taking the year of Syslog lines from the clock.
    pub fn with_format(format: LogFormat) -> (r: LogParser)
        ensures
            r.format == format,
    {
        LogParser { format, year: crate::time::current_year_text() }
    }

    /// A parser for `format` that dates Syslog lines in `year`.
    pub fn with_format_and_year(format: LogFormat, year: &str) -> (r: LogParser)
        ensures
            r.format == format,
            r.year@ == year@,
    {
        LogParser { format, year: String::from_str(year) }
    }

    /// Reads one line, numbered `line_number` in its input.
    pub fn parse_line(&self, line: &str, line_number: usize) -> (r: Option<LogEntry>)
        ensures
            reading_of(r) == line_reading(line@, line_number, self.format, self.year@),
    {
        let (t, tc) = trim_text(line);
        if tc.len() == 0 {
            return None;
        }
        let tr = t.as_str();
        let year = self.year.as_str();
        match self.format {
            LogFormat::Bracket => parse_bracket(tr, &tc, line_number),
            LogFormat::Json => parse_json(tr, line_number),
            LogFormat::Apache => parse_apache(tr, &tc, line_number),
            LogFormat::Syslog => parse_syslog(tr, &tc, year, line_number),
            LogFormat::Auto => {
                match parse_bracket(tr, &tc, line_number) {
                    Some(e) => Some(e),
                    None => match parse_json(tr, line_number) {
                        Some(e) => Some(e),
                        None => match parse_apache(tr, &tc, line_number) {
                            Some(e) => Some(e),
                            None => parse_syslog(tr, &tc, year, line_number),
                        },
                    },
                }
            },
        }
    }
}


/// The records that `lines` give, in input order, line `i` numbered `i + 1`.
pub open spec fn readings(lines: Seq<String>, format: LogFormat, year: Seq<char>) -> Seq<Record>
    decreases lines.len(),
{
    if lines.len() == 0 {
        seq![]
    } else {
        let rest = readings(lines.drop_last(), format, year);
        match line_reading(lines.last()@, lines.len() as usize, format, year) {
            Some(r) => rest.push(r),
            None => rest,
        }
    }
}

/// The number of lines of `lines` that hold more than whitespace.
pub open spec fn non_empty_count(lines: Seq<String>) -> nat
    decreases lines.len(),
{
    if lines.len() == 0 {
        0
    } else {
        non_empty_count(lines.drop_last()) + if trimmed(lines.last()@).len() > 0 { 1nat } else { 0nat }
    }
}

/// `a` comes before `b`: an earlier timestamp, or the same one and an earlier line.
pub open spec fn comes_before(a: Record, b: Record) -> bool {
    a.timestamp.secs < b.timestamp.secs || (a.timestamp.secs == b.timestamp.secs && a.line_number < b.line_number)
}

/// Each record of `rs` comes before every later one.
pub open spec fn in_order(rs: Seq<Record>) -> bool {
    forall|i: int, j: int| 0 <= i < j < rs.len() ==> comes_before(#[trigger] rs[i], #[trigger] rs[j])
}

/// The records of a list of entries.
pub open spec fn records(es: Seq<LogEntry>) -> Seq<Record> {
    es.map_values(|e: LogEntry| e.record())
}

/// Every timestamp of a list of entries lies in the supported range.
pub open spec fn all_wf(es: Seq<LogEntry>) -> bool {
    forall|i: int| 0 <= i < es.len() ==> (#[trigger] es[i]).timestamp.wf()
}

proof fn lemma_reading_wf(line: Seq<char>, n: usize, format: LogFormat, year: Seq<char>)
    ensures
        line_reading(line, n, format, year) matches Some(r) ==> r.timestamp.wf() && r.line_number == n,
{
}

impl LogParser {
    /// Reads `lines`: the entries that they give, ordered by timestamp and then
    /// by line, and the number of lines with text that no grammar read.
    pub fn parse_lines(&self, lines: &Vec<String>) -> (r: (Vec<LogEntry>, usize))
        ensures
            in_order(records(r.0@)),
            records(r.0@).to_multiset() == readings(lines@, self.format, self.year@).to_multiset(),
            all_wf(r.0@),
            r.1 == non_empty_count(lines@) - readings(lines@, self.format, self.year@).len(),
    {
        let ghost format = self.format;
        let ghost year = self.year@;
        let mut out: Vec<LogEntry> = Vec::new();
        let mut parsed: usize = 0;
        let mut non_empty: usize = 0;
        let mut i: usize = 0;
        assert(records(out@) =~= Seq::<Record>::empty());
        assert(lines@.subrange(0, 0) =~= Seq::<String>::empty());
        while i < lines.len()
            invariant
                i <= lines@.len(),
                format == self.format,
                year == self.year@,
                in_order(records(out@)),
                all_wf(out@),
                forall|k: int| 0 <= k < out@.len() ==> (#[trigger] out@[k]).line_number <= i,
                records(out@).to_multiset() == readings(lines@.subrange(0, i as int), format, year).to_multiset(),
                parsed == readings(lines@.subrange(0, i as int), format, year).len(),
                non_empty == non_empty_count(lines@.subrange(0, i as int)),
                parsed <= non_empty <= i,
            decreases lines@.len() - i,
        {
            let ghost before = lines@.subrange(0, i as int);
            let ghost after = lines@.subrange(0, i + 1);
            assert(after.drop_last() =~= before);
            assert(after.last() == lines@[i as int]);
            let (t, tc) = trim_text(lines[i].as_str());
            if tc.len() > 0 {
                non_empty = non_empty + 1;
            }
            let line_number = i + 1;
            proof {
                lemma_reading_wf(lines@[i as int]@, line_number, format, year);
            }
            match self.parse_line(lines[i].as_str(), line_number) {
                Some(e) => {
                    let ghost rec = e.record();
                    let mut p = out.len();
                    while p > 0 && out[p - 1].timestamp.secs > e.timestamp.secs
                        invariant
                            p <= out@.len(),
                            forall|k: int| p <= k < out@.len() ==> (#[trigger] out@[k]).timestamp.secs > e.timestamp.secs,
                        decreases p,
                    {
                        p = p - 1;
                    }
                    let ghost old_recs = records(out@);
                    out.insert(p, e);
                    assert(records(out@) =~= old_recs.insert(p as int, rec));
                    proof {
                        vstd::seq_lib::to_multiset_insert(old_recs, p as int, rec);
                        vstd::seq_lib::to_multiset_build(readings(before, format, year), rec);
                        assert forall|a: int, b: int| 0 <= a < b < records(out@).len() implies comes_before(
                            #[trigger] records(out@)[a],
                            #[trigger] records(out@)[b],
                        ) by {
                            if b < p {
                                assert(records(out@)[a] == old_recs[a]);
                                assert(records(out@)[b] == old_recs[b]);
                            } else if b == p {
                                assert(records(out@)[a] == old_recs[a]);
                                if a > 0 || p > 0 {
                                    assert(out@[a].timestamp.secs <= rec.timestamp.secs) by {
                                        if a < p - 1 {
                                            assert(comes_before(old_recs[a], old_recs[p - 1]));
                                        }
                                    }
                                }
                            } else if a == p {
                                assert(records(out@)[b] == old_recs[b - 1]);
                            } else if a < p {
                                assert(records(out@)[a] == old_recs[a]);
                                assert(records(out@)[b] == old_recs[b - 1]);
                            } else {
                                assert(records(out@)[a] == old_recs[a - 1]);
                                assert(records(out@)[b] == old_recs[b - 1]);
                            }
                        }
                    }
                    parsed = parsed + 1;
                },
                None => {},
            }
            i = i + 1;
        }
        assert(lines@.subrange(0, lines@.len() as int) =~= lines@);
        (out, non_empty - parsed)
    }
}


/// Under `Auto`, the grammars are tried in the fixed order Bracket, Json,
/// Apache, Syslog: a line that one of them reads is read by it and by no later
/// one, whatever the later ones would make of it.
pub proof fn lemma_auto_order(line: Seq<char>, line_number: usize, year: Seq<char>)
    ensures
        line_reading(line, line_number, LogFormat::Bracket, year) is Some ==> line_reading(line, line_number, LogFormat::Auto, year)
            == line_reading(line, line_number, LogFormat::Bracket, year),
        line_reading(line, line_number, LogFormat::Bracket, year) is None && line_reading(line, line_number, LogFormat::Json, year) is Some
            ==> line_reading(line, line_number, LogFormat::Auto, year) == line_reading(line, line_number, LogFormat::Json, year),
        line_reading(line, line_number, LogFormat::Bracket, year) is None && line_reading(line, line_number, LogFormat::Json, year) is None
            && line_reading(line, line_number, LogFormat::Apache, year) is Some ==> line_reading(line, line_number, LogFormat::Auto, year)
            == line_reading(line, line_number, LogFormat::Apache, year),
        line_reading(line, line_number, LogFormat::Bracket, year) is None && line_reading(line, line_number, LogFormat::Json, year) is None
            && line_reading(line, line_number, LogFormat::Apache, year) is None ==> line_reading(line, line_number, LogFormat::Auto, year)
            == line_reading(line, line_number, LogFormat::Syslog, year),
{
}

/// Two orderings of the same records by timestamp and line are the same
/// sequence: sorting the parsed records gives one result, however the lines
/// were split up or in what order their readings arrived.
pub proof fn lemma_order_unique(a: Seq<Record>, b: Seq<Record>)
    requires
        in_order(a),
        in_order(b),
        a.to_multiset() == b.to_multiset(),
    ensures
        a == b,
    decreases a.len(),
{
    broadcast use vstd::seq_lib::group_to_multiset_ensures;

    vstd::seq_lib::to_multiset_len(a);
    vstd::seq_lib::to_multiset_len(b);
    if a.len() == 0 {
        assert(a =~= b);
    } else {
        assert(a.contains(a[0]));
        assert(b.to_multiset().count(a[0]) > 0);
        assert(b.contains(a[0]));
        assert(b.contains(b[0]));
        assert(a.to_multiset().count(b[0]) > 0);
        assert(a.contains(b[0]));
        let ka = choose|k: int| 0 <= k < b.len() && b[k] == a[0];
        let kb = choose|k: int| 0 <= k < a.len() && a[k] == b[0];
        if ka != 0 {
            assert(comes_before(b[0], b[ka]));
            if kb != 0 {
                assert(comes_before(a[0], a[kb]));
            }
        }
        assert(a[0] == b[0]);
        vstd::seq_lib::to_multiset_remove(a, 0);
        vstd::seq_lib::to_multiset_remove(b, 0);
        assert(a.remove(0) =~= a.drop_first());
        assert(b.remove(0) =~= b.drop_first());
        assert forall|i: int, j: int| 0 <= i < j < a.drop_first().len() implies comes_before(#[trigger] a.drop_first()[i], #[trigger] a.drop_first()[j]) by {
            assert(comes_before(a[i + 1], a[j + 1]));
        }
        assert forall|i: int, j: int| 0 <= i < j < b.drop_first().len() implies comes_before(#[trigger] b.drop_first()[i], #[trigger] b.drop_first()[j]) by {
            assert(comes_before(b[i + 1], b[j + 1]));
        }
        lemma_order_unique(a.drop_first(), b.drop_first());
        assert forall|i: int| 0 <= i < a.len() implies a[i] == b[i] by {
            if i > 0 {
                assert(a[i] == a.drop_first()[i - 1]);
                assert(b[i] == b.drop_first()[i - 1]);
            }
        }
        assert(a =~= b);
    }
}

} // verus!
