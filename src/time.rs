//! Commit timestamps as absolute UTC instants.
use vstd::prelude::*;

verus! {

/// 2021-01-01T00:00:00Z, in seconds since the Unix epoch: the cutoff of a
/// default run.
pub const DEFAULT_CUTOFF_SECONDS: i64 = 1609459200;

/// Largest magnitude of a timestamp, in seconds, that is always
/// representable as a calendar date (about 250 000 years around 1970).
pub const REPRESENTABLE_SECONDS: i64 = 8_000_000_000_000;

/// Offsets must lie strictly inside one day on either side of UTC.
pub const MINUTES_PER_DAY: i32 = 1440;

/// An absolute instant, in whole seconds since 1970-01-01T00:00:00Z.
#[derive(Clone, Copy, Debug, PartialEq, Eq, Structural)]
pub struct NormalizedTime {
    pub utc_seconds: i64,
}

/// Relies on chrono's `FixedOffset::east_opt`, `TimeZone::timestamp_opt`
/// and `DateTime::timestamp`: the offset is accepted only strictly inside
/// one day; a representable date keeps its Unix seconds through the
/// conversion to UTC.
#[verifier::external_body]
fn chrono_utc_seconds(seconds: i64, offset_seconds: i32) -> (r: Option<i64>)
    ensures
        (offset_seconds <= -86400 || offset_seconds >= 86400) ==> r is None,
        (-86400 < offset_seconds < 86400 && -REPRESENTABLE_SECONDS <= seconds
            <= REPRESENTABLE_SECONDS) ==> r == Some(seconds),
        r is Some ==> r == Some(seconds),
{
    let offset = chrono::FixedOffset::east_opt(offset_seconds)?;
    let local = chrono::TimeZone::timestamp_opt(&offset, seconds, 0).single()?;
    Some(local.with_timezone(&chrono::Utc).timestamp())
}

/// Whether a UTC offset in minutes describes a valid fixed offset.
pub open spec fn offset_in_range(offset_minutes: i32) -> bool {
    -MINUTES_PER_DAY < offset_minutes < MINUTES_PER_DAY
}

/// Whether a raw commit time can always be placed on the calendar.
pub open spec fn representable(seconds: i64) -> bool {
    -REPRESENTABLE_SECONDS <= seconds <= REPRESENTABLE_SECONDS
}

impl NormalizedTime {
    /// Turns a commit's raw (seconds since the epoch, offset in minutes)
    /// into an absolute instant: a fixed-offset local time converted to UTC.
    /// The seconds already count from the UTC epoch, so the offset does not
    /// move the instant. An offset of a whole day or more is malformed and
    /// gives `None`, as does a date that the calendar cannot hold.
    pub fn normalize(seconds: i64, offset_minutes: i32) -> (r: Option<NormalizedTime>)
        ensures
            !offset_in_range(offset_minutes) ==> r is None,
            offset_in_range(offset_minutes) && representable(seconds) ==> r == Some(
                NormalizedTime { utc_seconds: seconds },
            ),
            r is Some ==> r == Some(NormalizedTime { utc_seconds: seconds }),
    {
        if offset_minutes <= -MINUTES_PER_DAY || offset_minutes >= MINUTES_PER_DAY {
            return None;
        }
        match chrono_utc_seconds(seconds, offset_minutes * 60) {
            Some(s) => Some(NormalizedTime { utc_seconds: s }),
            None => None,
        }
    }

    /// The instant given directly in UTC seconds.
    pub fn from_utc_seconds(utc_seconds: i64) -> (r: NormalizedTime)
        ensures
            r.utc_seconds == utc_seconds,
    {
        NormalizedTime { utc_seconds }
    }

    /// The cutoff of a default run, 2021-01-01T00:00:00Z.
    pub fn default_cutoff() -> (r: NormalizedTime)
        ensures
            r.utc_seconds == DEFAULT_CUTOFF_SECONDS,
    {
        NormalizedTime { utc_seconds: DEFAULT_CUTOFF_SECONDS }
    }

    /// Whether this instant is at or after `cutoff`.
    pub fn is_at_or_after(&self, cutoff: &NormalizedTime) -> (r: bool)
        ensures
            r == (self.utc_seconds >= cutoff.utc_seconds),
    {
        self.utc_seconds >= cutoff.utc_seconds
    }
}

} // verus!
