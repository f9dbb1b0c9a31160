//! Export formats, and the CSV text of entries.
use vstd::prelude::*;
use crate::parser::{LogEntry, opt_text};
use crate::text::{chars_of, lower_of, lowercase, same_text, substring};
use crate::time::datetime_text;

verus! {

/// A file format to export an analysis in.
#[derive(Clone, Copy, Debug, PartialEq, Eq, Structural)]
pub enum ExportFormat {
    Json,
    Csv,
}

impl ExportFormat {
    /// The format named by a lower-cased name.
    pub open spec fn named(lower: Seq<char>) -> Option<ExportFormat> {
        if lower == "json"@ {
            Some(ExportFormat::Json)
        } else if lower == "csv"@ {
            Some(ExportFormat::Csv)
        } else {
            None
        }
    }

    /// The format named by `s`, in any case: `json` or `csv`.
    pub fn from_str(s: &str) -> (r: Option<ExportFormat>)
        ensures
            r == ExportFormat::named(lower_of(s@)),
    {
        let lower = lowercase(s);
        ExportFormat::from_lower(lower.as_str())
    }

    /// The format named by an already lower-cased name.
    pub fn from_lower(lower: &str) -> (r: Option<ExportFormat>)
        ensures
            r == ExportFormat::named(lower@),
    {
        if same_text(lower, "json") {
            Some(ExportFormat::Json)
        } else if same_text(lower, "csv") {
            Some(ExportFormat::Csv)
        } else {
            None
        }
    }
}

/// `s` with each double quote doubled.
pub open spec fn quotes_doubled(s: Seq<char>) -> Seq<char>
    decreases s.len(),
{
    if s.len() == 0 {
        seq![]
    } else if s.last() == '"' {
        quotes_doubled(s.drop_last()) + "\"\""@
    } else {
        quotes_doubled(s.drop_last()).push(s.last())
    }
}

/// `s` with each double quote doubled, as CSV writes quotes inside a field.
pub fn double_quotes(s: &str) -> (r: String)
    ensures
        r@ == quotes_doubled(s@),
{
    let cs = chars_of(s);
    let n = cs.len();
    let mut out = String::new();
    let mut start: usize = 0;
    let mut i: usize = 0;
    assert(s@.subrange(0, 0) =~= Seq::<char>::empty());
    while i < n
        invariant
            start <= i <= n == cs@.len(),
            cs@ == s@,
            out@ + s@.subrange(start as int, i as int) == quotes_doubled(s@.subrange(0, i as int)),
        decreases n - i,
    {
        let ghost pre = s@.subrange(0, i as int);
        assert(s@.subrange(0, i + 1).drop_last() =~= pre);
        assert(s@.subrange(0, i + 1).last() == cs@[i as int]);
        if cs[i] == '"' {
            let run = substring(s, start, i);
            out = out.concat(run.as_str()).concat("\"\"");
            i = i + 1;
            start = i;
            assert(s@.subrange(start as int, i as int) =~= Seq::<char>::empty());
            assert(out@ + s@.subrange(start as int, i as int) =~= quotes_doubled(s@.subrange(0, i as int)));
        } else {
            assert(s@.subrange(start as int, i + 1) =~= s@.subrange(start as int, i as int).push(cs@[i as int]));
            i = i + 1;
        }
    }
    let run = substring(s, start, n);
    assert(s@.subrange(0, n as int) =~= s@);
    out.concat(run.as_str())
}

/// The CSV header line.
pub open spec fn csv_header_text() -> Seq<char> {
    "timestamp,level,source,message"@
}

/// The CSV line of an entry: timestamp, level, source (empty where there is
/// none), and the message quoted.
pub open spec fn csv_line_text(e: LogEntry) -> Seq<char> {
    datetime_text(e.timestamp.secs) + ","@ + e.level.name() + ","@ + (match opt_text(e.source) {
        Some(s) => s,
        None => ""@,
    }) + ",\""@ + quotes_doubled(e.message@) + "\""@
}

pub fn csv_header() -> (r: String)
    ensures
        r@ == csv_header_text(),
{
    String::from_str("timestamp,level,source,message")
}

/// The CSV line of an entry, without its line break.
pub fn csv_line(e: &LogEntry) -> (r: String)
    requires
        e.timestamp.wf(),
    ensures
        r@ == csv_line_text(*e),
{
    let source = match &e.source {
        Some(s) => s.clone(),
        None => String::new(),
    };
    let r = e.timestamp.text().concat(",").concat(e.level.as_str()).concat(",").concat(source.as_str()).concat(
        ",\"",
    ).concat(double_quotes(e.message.as_str()).as_str()).concat("\"");
    proof {
        reveal_strlit("");
    }
    r
}

} // verus!
