//! Instants in UTC and the texts that stand for them.
use crate::text::str_eq;
use chrono::{DateTime, SecondsFormat};
use vstd::prelude::*;
use vstd::string::*;

verus! {

/// The first second that a date can stand for: the start of the year -262143.
pub const MIN_SECS: i64 = -8_334_601_228_800;

/// The last second that a date can stand for: the end of the year 262142.
pub const MAX_SECS: i64 = 8_210_266_876_799;

/// Whether a number of seconds since 1970-01-01T00:00:00Z and a number of
/// nanoseconds in that second stand for an instant. The nanoseconds pass a
/// thousand million only in a leap second.
pub open spec fn in_range(secs: i64, nanos: u32) -> bool {
    &&& MIN_SECS <= secs <= MAX_SECS
    &&& nanos < 1_000_000_000 || (nanos < 2_000_000_000 && (secs as int) % 60 == 59)
}

/// `DateTime::to_rfc3339` of an instant: RFC 3339 with as many subsecond
/// digits as the instant needs and the offset written `+00:00`.
pub uninterp spec fn rfc3339(secs: i64, nanos: u32) -> Seq<char>;

/// `DateTime::to_rfc3339_opts` of an instant with `SecondsFormat::Secs` and
/// `Z` for the offset.
pub uninterp spec fn rfc3339_seconds(secs: i64, nanos: u32) -> Seq<char>;

/// `DateTime::format` of the instant that many milliseconds after
/// 1970-01-01T00:00:00Z, under a `strftime` pattern.
pub uninterp spec fn strftime(ms: i64, pattern: Seq<char>) -> Seq<char>;

/// `DateTime::from_timestamp`: there is such an instant exactly when the
/// seconds lie in the years -262143 to 262142 and the nanoseconds in their
/// second, which may be a leap second when it is the last of its minute.
#[verifier::external_body]
fn names_instant(secs: i64, nanos: u32) -> (r: bool)
    ensures
        r == in_range(secs, nanos),
{
    DateTime::from_timestamp(secs, nanos).is_some()
}

/// Whether a text is that of no instant but one, is not empty, and holds no NUL.
pub open spec fn spells(s: Seq<char>, secs: i64, nanos: u32) -> bool {
    &&& s.len() > 0
    &&& !s.contains('\0')
    &&& forall|a: i64, b: u32|
        in_range(a, b) && #[trigger] rfc3339(a, b) == s ==> a == secs && b == nanos
}

/// `DateTime::to_rfc3339`: a text that depends on the instant alone, is not
/// empty, and holds no NUL. It writes out the date, the time of day and every
/// nanosecond that is not zero, so no other instant has the same text.
#[verifier::external_body]
fn format_rfc3339(secs: i64, nanos: u32) -> (r: Option<String>)
    ensures
        r is Some <==> in_range(secs, nanos),
        r matches Some(s) ==> s@ == rfc3339(secs, nanos) && spells(s@, secs, nanos),
{
    DateTime::from_timestamp(secs, nanos).map(|t| t.to_rfc3339())
}

/// `DateTime::to_rfc3339_opts` with whole seconds and `Z`: a text that depends
/// on the instant alone.
#[verifier::external_body]
fn format_rfc3339_seconds(secs: i64, nanos: u32) -> (r: Option<String>)
    ensures
        r is Some <==> in_range(secs, nanos),
        r matches Some(s) ==> s@ == rfc3339_seconds(secs, nanos),
{
    DateTime::from_timestamp(secs, nanos).map(|t| t.to_rfc3339_opts(SecondsFormat::Secs, true))
}

/// The pattern of a date.
pub const DAY_PATTERN: &'static str = "%Y-%m-%d";

/// The pattern of a date and a time of day.
pub const MINUTE_PATTERN: &'static str = "%Y-%m-%d %H:%M";

/// Whether a number of milliseconds since 1970-01-01T00:00:00Z stands for an
/// instant.
pub open spec fn ms_in_range(ms: i64) -> bool {
    MIN_SECS <= (ms as int) / 1000 <= MAX_SECS
}

/// `DateTime::from_timestamp_millis` and `DateTime::format`: a text that
/// depends on the instant and the pattern alone, and none exactly when the
/// instant is out of range.
#[verifier::external_body]
fn format_ms(ms: i64, pattern: &str) -> (r: Option<String>)
    requires
        pattern@ == DAY_PATTERN@ || pattern@ == MINUTE_PATTERN@,
    ensures
        r is Some <==> ms_in_range(ms),
        r matches Some(s) ==> s@ == strftime(ms, pattern@),
{
    DateTime::from_timestamp_millis(ms).map(|t| t.format(pattern).to_string())
}

/// The minute of an instant given in milliseconds, as `2026-07-01 09:14`;
/// `None` when out of range.
fn minute_text(ms: i64) -> (r: Option<String>)
    ensures
        r is Some <==> ms_in_range(ms),
        r matches Some(s) ==> s@ == strftime(ms, MINUTE_PATTERN@),
{
    format_ms(ms, MINUTE_PATTERN)
}

/// The minute of an instant that may be unknown.
pub open spec fn when(ms: Option<i64>) -> Seq<char> {
    match ms {
        Some(ms) => if ms_in_range(ms) {
            strftime(ms, MINUTE_PATTERN@)
        } else {
            "unknown time"@
        },
        None => "unknown time"@,
    }
}

/// The minute of an instant that may be unknown, as `2026-07-01 09:14`.
pub fn when_text(ms: Option<i64>) -> (r: String)
    ensures
        r@ == when(ms),
{
    match ms {
        Some(ms) => match minute_text(ms) {
            Some(s) => s,
            None => "unknown time".to_owned(),
        },
        None => "unknown time".to_owned(),
    }
}

/// The date of an instant; a question mark when out of range.
pub open spec fn date(ms: i64) -> Seq<char> {
    if ms_in_range(ms) {
        strftime(ms, DAY_PATTERN@)
    } else {
        "?"@
    }
}

fn date_text(ms: i64) -> (r: String)
    ensures
        r@ == date(ms),
{
    match format_ms(ms, DAY_PATTERN) {
        Some(s) => s,
        None => "?".to_owned(),
    }
}

/// The dates between which something lasted: one date where both are the
/// same or one is unknown.
pub open spec fn range(start: Option<i64>, end: Option<i64>) -> Seq<char> {
    match (start, end) {
        (Some(s), Some(e)) => if date(s) == date(e) {
            date(s)
        } else {
            date(s) + " → "@ + date(e)
        },
        (Some(s), None) => date(s),
        (None, Some(e)) => date(e),
        (None, None) => "unknown date"@,
    }
}

/// The dates between which something lasted, as `2026-07-01 → 2026-07-02`.
pub fn format_range(start: Option<i64>, end: Option<i64>) -> (r: String)
    ensures
        r@ == range(start, end),
{
    match (start, end) {
        (Some(s), Some(e)) => {
            let from = date_text(s);
            let to = date_text(e);
            if str_eq(from.as_str(), to.as_str()) {
                from
            } else {
                let mut r = from;
                r.append(" → ");
                r.append(to.as_str());
                r
            }
        },
        (Some(s), None) => date_text(s),
        (None, Some(e)) => date_text(e),
        (None, None) => "unknown date".to_owned(),
    }
}

/// An instant in UTC.
#[derive(Debug, Clone, Copy, PartialEq, Eq, Structural)]
pub struct UtcTime {
    secs: i64,
    nanos: u32,
}

impl UtcTime {
    #[verifier::type_invariant]
    spec fn valid(self) -> bool {
        in_range(self.secs, self.nanos)
    }

    /// Seconds since 1970-01-01T00:00:00Z.
    pub closed spec fn secs(self) -> i64 {
        self.secs
    }

    /// Nanoseconds within the second.
    pub closed spec fn nanos(self) -> u32 {
        self.nanos
    }

    /// Milliseconds since 1970-01-01T00:00:00Z.
    pub open spec fn millis(self) -> int {
        self.secs() * 1000 + (self.nanos() as int) / 1_000_000
    }

    /// Whether an instant is earlier than another.
    pub open spec fn before(self, other: Self) -> bool {
        self.secs() < other.secs() || (self.secs() == other.secs() && self.nanos() < other.nanos())
    }

    /// Its RFC 3339 text.
    pub open spec fn text(self) -> Seq<char> {
        rfc3339(self.secs(), self.nanos())
    }

    /// Whether the instant is one that a date can stand for, and its text is
    /// that of no other, is not empty, and holds no NUL.
    pub open spec fn spelled(self) -> bool {
        in_range(self.secs(), self.nanos()) && spells(self.text(), self.secs(), self.nanos())
    }

    /// The instant at `nanos` nanoseconds in the second `secs`, if there is
    /// one.
    pub fn from_timestamp(secs: i64, nanos: u32) -> (r: Option<UtcTime>)
        ensures
            r is Some <==> in_range(secs, nanos),
            r matches Some(t) ==> t.secs() == secs && t.nanos() == nanos,
    {
        if names_instant(secs, nanos) {
            Some(UtcTime { secs, nanos })
        } else {
            None
        }
    }

    /// Seconds since 1970-01-01T00:00:00Z.
    pub fn timestamp(&self) -> (r: i64)
        ensures
            r == self.secs(),
    {
        self.secs
    }

    /// Nanoseconds within the second.
    pub fn timestamp_subsec_nanos(&self) -> (r: u32)
        ensures
            r == self.nanos(),
    {
        self.nanos
    }

    /// Milliseconds since 1970-01-01T00:00:00Z, rounded down.
    pub fn timestamp_millis(&self) -> (r: i64)
        ensures
            r == self.millis(),
    {
        proof {
            use_type_invariant(self);
        }
        self.secs * 1000 + (self.nanos / 1_000_000) as i64
    }

    /// Whether this instant is earlier than another.
    pub fn is_before(&self, other: &UtcTime) -> (r: bool)
        ensures
            r == self.before(*other),
    {
        self.secs < other.secs || (self.secs == other.secs && self.nanos < other.nanos)
    }

    /// RFC 3339 text, such as `2023-01-01T00:00:00+00:00`.
    pub fn to_rfc3339(&self) -> (r: String)
        ensures
            r@ == self.text(),
            self.spelled(),
    {
        proof {
            use_type_invariant(self);
        }
        format_rfc3339(self.secs, self.nanos).unwrap()
    }

    /// RFC 3339 text in whole seconds, such as `2023-01-01T00:00:00Z`.
    pub fn to_rfc3339_seconds(&self) -> (r: String)
        ensures
            r@ == rfc3339_seconds(self.secs(), self.nanos()),
    {
        proof {
            use_type_invariant(self);
        }
        format_rfc3339_seconds(self.secs, self.nanos).unwrap()
    }
}

/// Instants that are spelled alike are the same.
pub proof fn law_instants_differ_in_text(a: UtcTime, b: UtcTime)
    requires
        a.spelled(),
        b.spelled(),
    ensures
        a.text() == b.text() <==> a == b,
{
}

/// When something was sent: the minute, where the time is known and a date can
/// stand for it.
pub proof fn law_how_a_minute_is_shown(ms: i64)
    ensures
        "unknown time"@ == self::when(None),
        -8_334_601_228_800_000 <= ms <= 8_210_266_876_799_999 ==> self::when(Some(ms)) == strftime(
            ms,
            "%Y-%m-%d %H:%M"@,
        ),
        ms < -8_334_601_228_800_000 || ms > 8_210_266_876_799_999 ==> self::when(Some(ms))
            == "unknown time"@,
{
}

/// The days that something lasted: the day of its one known time, or of both where
/// they fall on one day; else both days, the earlier bound first.
pub proof fn law_how_days_are_shown(a: i64, b: i64)
    requires
        -8_334_601_228_800_000 <= a <= 8_210_266_876_799_999,
        -8_334_601_228_800_000 <= b <= 8_210_266_876_799_999,
    ensures
        range(None, None) == "unknown date"@,
        range(Some(a), None) == strftime(a, "%Y-%m-%d"@),
        range(None, Some(a)) == strftime(a, "%Y-%m-%d"@),
        range(Some(a), Some(b)) == (if strftime(a, "%Y-%m-%d"@) == strftime(b, "%Y-%m-%d"@) {
            strftime(a, "%Y-%m-%d"@)
        } else {
            strftime(a, "%Y-%m-%d"@) + " → "@ + strftime(b, "%Y-%m-%d"@)
        }),
{
}

/// Milliseconds count from 1970, rounded down, and rise with time.
pub proof fn law_milliseconds(t: UtcTime)
    ensures
        t.millis() * 1_000_000 <= t.secs() * 1_000_000_000 + t.nanos(),
        t.secs() * 1_000_000_000 + t.nanos() < (t.millis() + 1) * 1_000_000,
{
}

} // verus!
