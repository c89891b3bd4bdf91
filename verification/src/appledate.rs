//! Apple Messages timestamps.
//!
//! Messages stores dates as offsets from the Core Data epoch
//! (2001-01-01T00:00:00Z). Recent macOS versions store nanoseconds; releases
//! before High Sierra stored whole seconds. Zero and negative values mean
//! "no timestamp", as `date_edited` on a message that was never edited.
use crate::time::UtcTime;
use vstd::prelude::*;

verus! {

/// Seconds between the Unix epoch (1970-01-01) and Apple's epoch (2001-01-01).
pub const APPLE_EPOCH_OFFSET_SECS: i64 = 978_307_200;

/// Raw values above this are nanoseconds. As seconds it would lie near the
/// year 5170, so no plausible number of seconds passes it, while any number
/// of nanoseconds after 2001-01-01 00:01:40 does.
pub const NANOSECOND_THRESHOLD: i64 = 100_000_000_000;

/// The second of a positive raw timestamp.
pub open spec fn apple_secs(raw: i64) -> int {
    if raw > NANOSECOND_THRESHOLD {
        raw as int / 1_000_000_000 + APPLE_EPOCH_OFFSET_SECS
    } else {
        raw + APPLE_EPOCH_OFFSET_SECS
    }
}

/// The nanoseconds of a positive raw timestamp.
pub open spec fn apple_nanos(raw: i64) -> int {
    if raw > NANOSECOND_THRESHOLD {
        raw as int % 1_000_000_000
    } else {
        0
    }
}

/// What a raw timestamp stands for.
pub open spec fn is_apple_time(raw: i64, t: Option<UtcTime>) -> bool {
    match t {
        Some(t) => raw > 0 && t.secs() == apple_secs(raw) && t.nanos() == apple_nanos(raw),
        None => raw <= 0,
    }
}

/// Converts a raw Apple Messages timestamp to UTC.
///
/// `None` exactly for zero and negative values: every positive one lies in
/// the range of dates.
pub fn apple_time_to_utc(raw: i64) -> (r: Option<UtcTime>)
    ensures
        is_apple_time(raw, r),
{
    if raw <= 0 {
        return None;
    }
    if raw > NANOSECOND_THRESHOLD {
        UtcTime::from_timestamp(
            raw / 1_000_000_000 + APPLE_EPOCH_OFFSET_SECS,
            (raw % 1_000_000_000) as u32,
        )
    } else {
        UtcTime::from_timestamp(raw + APPLE_EPOCH_OFFSET_SECS, 0)
    }
}

/// What a raw timestamp stands for. A number of up to a hundred thousand million
/// counts whole seconds from the start of 2001, a larger one nanoseconds; no
/// part of either is lost. There is no instant for zero or less.
pub proof fn law_apple_time(raw: i64, t: Option<UtcTime>)
    requires
        is_apple_time(raw, t),
    ensures
        t is Some <==> raw > 0,
        0 < raw <= 100_000_000_000 ==> t->0.secs() - 978_307_200 == raw && t->0.nanos() == 0,
        raw > 100_000_000_000 ==> (t->0.secs() - 978_307_200) * 1_000_000_000 + t->0.nanos() == raw
            && t->0.nanos() < 1_000_000_000,
{
}

/// Later timestamps stand for later instants, where both count the same unit.
pub proof fn law_apple_times_rise(a: i64, b: i64, s: Option<UtcTime>, t: Option<UtcTime>)
    requires
        is_apple_time(a, s),
        is_apple_time(b, t),
        0 < a < b,
        a > 100_000_000_000 || b <= 100_000_000_000,
    ensures
        s is Some,
        t is Some,
        s->0.before(t->0),
{
}

} // verus!
