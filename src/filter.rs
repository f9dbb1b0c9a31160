//! The choice of entries to analyse: a keyword in the message, a time range,
//! a lowest severity and a source name.
use vstd::prelude::*;
use crate::parser::{LogEntry, LogLevel};
use crate::text::{chars_of, contains_chars, lower_of, lowercase, occurs_in};
use crate::time::Timestamp;

verus! {

/// The characters that have a meaning in a regex and are escaped to stand for themselves.
pub open spec fn is_meta(c: char) -> bool {
    c == '\\' || c == '.' || c == '+' || c == '*' || c == '?' || c == '(' || c == ')' || c == '|'
        || c == '[' || c == ']' || c == '{' || c == '}' || c == '^' || c == '$' || c == '#' || c == '&'
        || c == '-' || c == '~'
}

/// `s` with a backslash before each meta character: a regex that matches `s` literally.
pub open spec fn meta_escaped(s: Seq<char>) -> Seq<char>
    decreases s.len(),
{
    if s.len() == 0 {
        seq![]
    } else if is_meta(s.last()) {
        meta_escaped(s.drop_last()) + seq!['\\', s.last()]
    } else {
        meta_escaped(s.drop_last()).push(s.last())
    }
}

/// Relies on `regex::escape`, which puts a backslash before each character that
/// `regex_syntax::is_meta_character` lists and keeps every other character.
#[verifier::external_body]
fn escape_text(s: &str) -> (r: String)
    ensures
        r@ == meta_escaped(s@),
{
    regex::escape(s)
}

/// Whether the regex `pattern` matches somewhere in `text`, or `None` where the
/// pattern does not compile.
pub uninterp spec fn regex_found(pattern: Seq<char>, text: Seq<char>) -> Option<bool>;

/// Relies on `regex::Regex::new` and `Regex::is_match`: the answer depends on
/// the pattern and the text alone.
#[verifier::external_body]
fn regex_search(pattern: &str, text: &str) -> (r: Option<bool>)
    ensures
        r == regex_found(pattern@, text@),
{
    regex::Regex::new(pattern).ok().map(|re| re.is_match(text))
}

/// The keyword pattern admits `text`: it matches there, or it does not compile
/// and so filters nothing.
pub open spec fn keyword_admits(pattern: Seq<char>, text: Seq<char>) -> bool {
    match regex_found(pattern, text) {
        Some(b) => b,
        None => true,
    }
}

/// The case-insensitive regex that matches `kw` literally.
pub open spec fn keyword_pattern_of(kw: Seq<char>) -> Seq<char> {
    "(?i)"@ + meta_escaped(kw)
}

/// Which entries to keep; an unset condition keeps every entry.
pub struct FilterConfig {
    pub keyword: Option<String>,
    pub keyword_pattern: Option<String>,
    pub from: Option<Timestamp>,
    pub to: Option<Timestamp>,
    pub min_level: Option<u8>,
    pub source: Option<String>,
}

/// The entry meets every condition of `c`: the keyword pattern, where one is
/// set, admits its message; it is no earlier than `from` and no later than `to`;
/// it has at least the lowest severity; and its source holds the wanted one,
/// ignoring case.
pub open spec fn passes(e: LogEntry, c: FilterConfig) -> bool {
    &&& (c.keyword_pattern matches Some(p) ==> keyword_admits(p@, e.message@))
    &&& (c.from matches Some(f) ==> e.timestamp.secs >= f.secs)
    &&& (c.to matches Some(t) ==> e.timestamp.secs <= t.secs)
    &&& (c.min_level matches Some(m) ==> e.level.rank() >= m)
    &&& (c.source matches Some(want) ==> (e.source matches Some(s) && occurs_in(lower_of(want@), lower_of(s@))))
}

/// The entries of `es` that pass `c`, in order.
pub open spec fn kept(es: Seq<LogEntry>, c: FilterConfig) -> Seq<LogEntry>
    decreases es.len(),
{
    if es.len() == 0 {
        seq![]
    } else {
        let rest = kept(es.drop_last(), c);
        if passes(es.last(), c) {
            rest.push(es.last())
        } else {
            rest
        }
    }
}

impl FilterConfig {
    /// No condition is set.
    pub open spec fn unset(self) -> bool {
        self.keyword is None && self.from is None && self.to is None && self.min_level is None && self.source is None
    }

    pub fn new() -> (r: FilterConfig)
        ensures
            r.unset(),
            r.keyword_pattern is None,
    {
        FilterConfig { keyword: None, keyword_pattern: None, from: None, to: None, min_level: None, source: None }
    }

    /// Keeps the entries whose message holds `kw`, ignoring case; the keyword
    /// is matched as a case-insensitive regex of its literal text.
    pub fn with_keyword(self, kw: String) -> (r: FilterConfig)
        ensures
            r.keyword == Some(kw),
            r.keyword_pattern matches Some(p) && p@ == keyword_pattern_of(kw@),
            r.from == self.from && r.to == self.to && r.min_level == self.min_level && r.source == self.source,
    {
        let pattern = String::from_str("(?i)").concat(escape_text(kw.as_str()).as_str());
        FilterConfig { keyword: Some(kw), keyword_pattern: Some(pattern), from: self.from, to: self.to, min_level: self.min_level, source: self.source }
    }

    pub fn with_time_range(self, from: Option<Timestamp>, to: Option<Timestamp>) -> (r: FilterConfig)
        ensures
            r.from == from && r.to == to,
            r.keyword == self.keyword && r.keyword_pattern == self.keyword_pattern && r.min_level == self.min_level && r.source == self.source,
    {
        FilterConfig { keyword: self.keyword, keyword_pattern: self.keyword_pattern, from, to, min_level: self.min_level, source: self.source }
    }

    pub fn with_min_level(self, level: &LogLevel) -> (r: FilterConfig)
        ensures
            r.min_level == Some(level.rank()),
            r.keyword == self.keyword && r.keyword_pattern == self.keyword_pattern && r.from == self.from && r.to == self.to && r.source == self.source,
    {
        FilterConfig {
            keyword: self.keyword,
            keyword_pattern: self.keyword_pattern,
            from: self.from,
            to: self.to,
            min_level: Some(level.severity()),
            source: self.source,
        }
    }

    pub fn with_source(self, source: String) -> (r: FilterConfig)
        ensures
            r.source == Some(source),
            r.keyword == self.keyword && r.keyword_pattern == self.keyword_pattern && r.from == self.from && r.to == self.to && r.min_level == self.min_level,
    {
        FilterConfig { keyword: self.keyword, keyword_pattern: self.keyword_pattern, from: self.from, to: self.to, min_level: self.min_level, source: Some(source) }
    }

    pub fn is_empty(&self) -> (r: bool)
        ensures
            r == self.unset(),
    {
        self.keyword.is_none() && self.from.is_none() && self.to.is_none() && self.min_level.is_none() && self.source.is_none()
    }
}

/// Whether `entry` passes `config`.
pub fn matches_all(entry: &LogEntry, config: &FilterConfig) -> (r: bool)
    ensures
        r == passes(*entry, *config),
{
    match &config.keyword_pattern {
        Some(p) => {
            let admitted = match regex_search(p.as_str(), entry.message.as_str()) {
                Some(b) => b,
                None => true,
            };
            if !admitted {
                return false;
            }
        },
        None => {},
    }
    match &config.from {
        Some(f) => {
            if entry.timestamp.secs < f.secs {
                return false;
            }
        },
        None => {},
    }
    match &config.to {
        Some(t) => {
            if entry.timestamp.secs > t.secs {
                return false;
            }
        },
        None => {},
    }
    match config.min_level {
        Some(m) => {
            if entry.level.severity() < m {
                return false;
            }
        },
        None => {},
    }
    match &config.source {
        Some(want) => match &entry.source {
            Some(s) => {
                let hay = chars_of(lowercase(s.as_str()).as_str());
                let needle = chars_of(lowercase(want.as_str()).as_str());
                contains_chars(&hay, &needle)
            },
            None => false,
        },
        None => true,
    }
}

/// The entries that pass `config`, in order; all of them where no condition is set.
pub fn apply(entries: Vec<LogEntry>, config: &FilterConfig) -> (r: Vec<LogEntry>)
    ensures
        config.unset() ==> r@ == entries@,
        !config.unset() ==> r@ == kept(entries@, *config),
{
    let ghost all = entries@;
    if config.is_empty() {
        return entries;
    }
    let mut out: Vec<LogEntry> = Vec::new();
    for e in it: entries.into_iter()
        invariant
            it.seq() == all,
            out@ == kept(all.subrange(0, it.index() as int), *config),
    {
        let ghost k = it.index() as int;
        proof {
            assert(all.subrange(0, k + 1).drop_last() =~= all.subrange(0, k));
        }
        if matches_all(&e, config) {
            out.push(e);
        }
    }
    proof {
        assert(all.subrange(0, all.len() as int) =~= all);
    }
    out
}

} // verus!
