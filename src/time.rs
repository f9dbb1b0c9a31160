//! Calendar timestamps as seconds since 1970-01-01 00:00:00, without any
//! time-zone conversion.
use vstd::prelude::*;

verus! {

/// Largest distance from 1970-01-01 00:00:00, in seconds, of a supported
/// timestamp (about 253,000 years either way).
pub const MAX_ABS_SECS: i64 = 8_000_000_000_000;

/// A calendar date-time, held as its number of seconds since
/// 1970-01-01 00:00:00.
#[derive(Clone, Copy, Debug, PartialEq, Eq, Structural, Hash)]
pub struct Timestamp {
    pub secs: i64,
}

/// The reading of a date-time text under a chrono format, as seconds since
/// 1970-01-01 00:00:00, or `None` where the text does not fit the format.
pub uninterp spec fn naive_parse(text: Seq<char>, fmt: Seq<char>) -> Option<i64>;

/// The text `%Y-%m-%d %H:%M:%S` of the date-time `secs` seconds after 1970-01-01 00:00:00.
pub uninterp spec fn datetime_text(secs: i64) -> Seq<char>;

/// Relies on chrono's `NaiveDateTime::parse_from_str`, read back through
/// `and_utc().timestamp()`: the result depends on the two strings alone.
#[verifier::external_body]
pub(crate) fn parse_naive(text: &str, fmt: &str) -> (r: Option<i64>)
    ensures
        r == naive_parse(text@, fmt@),
{
    chrono::NaiveDateTime::parse_from_str(text, fmt).ok().map(|d| d.and_utc().timestamp())
}

/// Relies on chrono's `DateTime::from_timestamp`, which succeeds for every
/// date within chrono's range of years (beyond 262,000 years either way), and
/// on its `format`.
#[verifier::external_body]
fn format_secs(secs: i64) -> (r: String)
    requires
        -MAX_ABS_SECS <= secs <= MAX_ABS_SECS,
    ensures
        r@ == datetime_text(secs),
{
    chrono::DateTime::from_timestamp(secs, 0).unwrap().format("%Y-%m-%d %H:%M:%S").to_string()
}

/// Relies on chrono's `Local::now`, formatted by `%Y`: the current calendar year
/// on this machine's clock. Nothing is known of it.
#[verifier::external_body]
pub(crate) fn current_year_text() -> (r: String) {
    chrono::Local::now().format("%Y").to_string()
}

impl Timestamp {
    /// The timestamp lies in the supported range.
    pub open spec fn wf(self) -> bool {
        -MAX_ABS_SECS <= self.secs <= MAX_ABS_SECS
    }

    /// The hour of day, 0 to 23.
    pub open spec fn hour_spec(self) -> int {
        (self.secs as int % 86400) / 3600
    }

    /// The timestamp `secs` seconds after 1970-01-01 00:00:00, where it lies in
    /// the supported range.
    pub fn from_secs(secs: i64) -> (r: Option<Timestamp>)
        ensures
            r == (if -MAX_ABS_SECS <= secs <= MAX_ABS_SECS {
                Some(Timestamp { secs })
            } else {
                None::<Timestamp>
            }),
    {
        if -MAX_ABS_SECS <= secs && secs <= MAX_ABS_SECS {
            Some(Timestamp { secs })
        } else {
            None
        }
    }

    /// Whether the timestamp lies in the supported range.
    pub fn is_valid(&self) -> (r: bool)
        ensures
            r == self.wf(),
    {
        -MAX_ABS_SECS <= self.secs && self.secs <= MAX_ABS_SECS
    }

    /// The hour of day of the timestamp.
    pub fn hour(&self) -> (r: usize)
        ensures
            r == self.hour_spec(),
            r < 24,
    {
        let d = self.secs % 86400;
        let d = if d < 0 { d + 86400 } else { d };
        assert(d == self.secs as int % 86400);
        (d / 3600) as usize
    }

    /// The text `YYYY-MM-DD HH:MM:SS` of the timestamp.
    pub fn text(&self) -> (r: String)
        requires
            self.wf(),
        ensures
            r@ == datetime_text(self.secs),
    {
        format_secs(self.secs)
    }
}

} // verus!
