//! Points in time.
use vstd::prelude::*;

use crate::dict::Duplicate;
use crate::text::Text;

verus! {

/// A point in time: seconds since 1970 began, and nanoseconds since that second. The nanoseconds of
/// a leap second go on past a whole second.
#[derive(Debug, Clone, Copy, PartialEq, Eq, Structural)]
pub struct Timestamp {
    pub seconds: i64,
    pub nanos: u32,
}

impl DeepView for Timestamp {
    type V = Timestamp;

    open spec fn deep_view(&self) -> Timestamp {
        *self
    }
}

impl Duplicate for Timestamp {
    fn duplicate(&self) -> (result: Self) {
        *self
    }
}

/// The first second of the calendar.
pub const FIRST_SECOND: i64 = -8334601228800;

/// The last second of the calendar.
pub const LAST_SECOND: i64 = 8210266876799;

impl Timestamp {
    /// In the calendar, and no leap second.
    pub open spec fn is_regular(self) -> bool {
        FIRST_SECOND <= self.seconds <= LAST_SECOND && self.nanos < 1_000_000_000
    }

    pub open spec fn is_before(self, other: Timestamp) -> bool {
        self.seconds < other.seconds || (self.seconds == other.seconds && self.nanos < other.nanos)
    }

    /// Whether this comes before `other`.
    pub fn before(&self, other: &Timestamp) -> (result: bool)
        ensures
            result == self.is_before(*other),
    {
        self.seconds < other.seconds || (self.seconds == other.seconds && self.nanos < other.nanos)
    }
}

/// The point in time that a text stands for, if it is one.
pub uninterp spec fn parsed_time(raw: Text) -> Option<Timestamp>;

/// `chrono::DateTime::parse_from_rfc3339`. Claimed is only that the result depends on the text alone.
#[verifier::external_body]
fn outside_time(raw: &str) -> (result: Option<Timestamp>)
    ensures
        result == parsed_time(raw@),
{
    let time = chrono::DateTime::parse_from_rfc3339(raw).ok()?;
    Some(Timestamp { seconds: time.timestamp(), nanos: time.timestamp_subsec_nanos() })
}

/// `chrono::Utc::now`. Claimed is that the time is no leap second and in the calendar: the call
/// panics where the clock stands before 1970 or beyond the calendar.
#[verifier::external_body]
pub(crate) fn now() -> (result: Timestamp)
    ensures
        result.is_regular(),
{
    let now = chrono::Utc::now();
    Timestamp { seconds: now.timestamp(), nanos: now.timestamp_subsec_nanos() }
}

/// `chrono::DateTime::checked_sub_signed` with a `chrono::TimeDelta` of whole minutes: the time that
/// many minutes earlier, unless that lies before the calendar begins.
#[verifier::external_body]
fn outside_earlier(time: Timestamp, minutes: i64) -> (result: Option<Timestamp>)
    requires
        time.is_regular(),
        minutes >= 0,
    ensures
        result == (if time.seconds - 60 * minutes < FIRST_SECOND {
            None::<Timestamp>
        } else {
            Some(Timestamp { seconds: (time.seconds - 60 * minutes) as i64, nanos: time.nanos })
        }),
{
    let age = chrono::TimeDelta::try_minutes(minutes)?;
    let time = chrono::DateTime::from_timestamp(time.seconds, time.nanos)?.checked_sub_signed(age)?;
    Some(Timestamp { seconds: time.timestamp(), nanos: time.timestamp_subsec_nanos() })
}

/// Reads a time in the notation of RFC 3339.
pub fn parse_time(raw: &str) -> (result: Option<Timestamp>)
    ensures
        result == parsed_time(raw@),
{
    outside_time(raw)
}

/// The time `minutes` before `now`, or the first of the calendar.
pub open spec fn cutoff_from(now: Timestamp, minutes: u64) -> Option<Timestamp> {
    if minutes == 0 {
        None
    } else if now.seconds - 60 * minutes < FIRST_SECOND {
        Some(Timestamp { seconds: FIRST_SECOND, nanos: 0 })
    } else {
        Some(Timestamp { seconds: (now.seconds - 60 * minutes) as i64, nanos: now.nanos })
    }
}

/// The time that newly chosen versions must have been published before at `now`, if any.
pub fn release_cutoff_at(now: Timestamp, minutes: u64) -> (result: Option<Timestamp>)
    requires
        now.is_regular(),
    ensures
        result == cutoff_from(now, minutes),
{
    if minutes == 0 {
        return None;
    }
    let first = Timestamp { seconds: FIRST_SECOND, nanos: 0 };
    if minutes > i64::MAX as u64 {
        return Some(first);
    }
    match outside_earlier(now, minutes as i64) {
        Some(time) => Some(time),
        None => Some(first),
    }
}

/// A version that is old enough is one that came out at least that many minutes ago: the cutoff lies that
/// far back, or where the calendar begins, and without an age there is none. A higher age never gives a
/// later cutoff.
pub proof fn cutoffs_lie_back(now: Timestamp, minutes: u64, more: u64)
    requires
        now.is_regular(),
        0 < minutes <= more,
    ensures
        cutoff_from(now, 0) is None,
        cutoff_from(now, minutes) matches Some(cutoff) && cutoff.is_regular() && {
            ||| cutoff.seconds + 60 * minutes == now.seconds && cutoff.nanos == now.nanos
            ||| cutoff.seconds == FIRST_SECOND && FIRST_SECOND + 60 * minutes > now.seconds
        },
        !(cutoff_from(now, minutes)->0).is_before(cutoff_from(now, more)->0),
{
}

} // verus!
