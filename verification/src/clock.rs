//! Points in time, and the time of day that they are shown as.
use vstd::prelude::*;

use crate::text::digit;

verus! {

/// A point in time: seconds since the start of 1970 (UTC), and nanoseconds since that second.
#[derive(Clone, Copy, Debug, PartialEq, Eq, Structural)]
pub struct Timestamp {
    pub secs: i64,
    pub nanos: u32,
}

/// The first second of the calendar that times of day are taken from.
pub const FIRST_SECOND: i64 = -8_334_601_228_800;

/// The last second of that calendar.
pub const LAST_SECOND: i64 = 8_210_266_876_799;

impl Timestamp {
    /// The start of 1970.
    pub open spec fn epoch() -> Self {
        Timestamp { secs: 0, nanos: 0 }
    }

    /// The calendar has this time, and the nanoseconds are less than a second.
    pub open spec fn on_calendar(self) -> bool {
        FIRST_SECOND <= self.secs <= LAST_SECOND && self.nanos < 1_000_000_000
    }

    /// `self` is not later than `other`.
    pub open spec fn le(self, other: Self) -> bool {
        self.secs < other.secs || (self.secs == other.secs && self.nanos <= other.nanos)
    }

    /// Whether `self` has a time of day.
    pub fn has_clock_time(&self) -> (r: bool)
        ensures
            r == self.on_calendar(),
    {
        FIRST_SECOND <= self.secs && self.secs <= LAST_SECOND && self.nanos < 1_000_000_000
    }
}

pub open spec fn two_digits(n: int) -> Seq<char> {
    seq![digit((n / 10) as nat), digit((n % 10) as nat)]
}

/// The time of day, as hours, minutes and seconds, that a clock shows `offset` seconds ahead of UTC.
pub open spec fn clock_text(secs: int, offset: int) -> Seq<char> {
    let second = (secs + offset) % 86400;
    two_digits(second / 3600) + seq![':'] + two_digits(second / 60 % 60) + seq![':'] + two_digits(
        second % 60,
    )
}

/// `text` is a time of day that the local clock can show at this point in time: what `chrono::Local`
/// makes of it, by a time zone that a machine can have.
pub uninterp spec fn shown_by_local_clock(secs: i64, nanos: u32, text: Seq<char>) -> bool;

/// `text` is a time of day `secs` seconds after the start of 1970, less than a day off UTC.
pub open spec fn is_time_of_day(text: Seq<char>, secs: i64) -> bool {
    exists|offset: int|
        -86400 < offset < 86400 && text == #[trigger] clock_text(secs as int, offset)
}

/// `text` is the time of day of `time` on the local clock.
pub open spec fn is_clock_text(text: Seq<char>, time: Timestamp) -> bool {
    shown_by_local_clock(time.secs, time.nanos, text) && is_time_of_day(text, time.secs)
}

/// The local time of day. Calls `chrono::DateTime::from_timestamp`, `with_timezone` for the local
/// time zone, and `format` with the directives for hours, minutes and seconds of two digits each.
/// The text is one that the local clock can show at `time`, and it is the time of day at an offset
/// of less than a day. Which offset is left unsaid: the time zone is that of the machine.
#[verifier::external_body]
pub(crate) fn local_clock(time: Timestamp) -> (text: String)
    requires
        time.on_calendar(),
    ensures
        shown_by_local_clock(time.secs, time.nanos, text@),
        is_time_of_day(text@, time.secs),
{
    let utc = chrono::DateTime::from_timestamp(time.secs, time.nanos).unwrap();
    utc.with_timezone(&chrono::Local).format("%H:%M:%S").to_string()
}

/// Every time of day is eight characters long.
pub proof fn clock_text_length(secs: int, offset: int)
    ensures
        clock_text(secs, offset).len() == 8,
{
}

/// The value of a digit.
pub open spec fn value(c: char) -> int {
    c as u32 - '0' as u32
}

/// A time of day is two digits each for the hour, the minute and the second, with colons between them.
/// Together they are the seconds that have passed since midnight.
pub proof fn clocks_tell_the_time(secs: int, offset: int)
    ensures
        ({
            let text = clock_text(secs, offset);
            let hour = 10 * value(text[0]) + value(text[1]);
            let minute = 10 * value(text[3]) + value(text[4]);
            let second = 10 * value(text[6]) + value(text[7]);
            &&& text.len() == 8
            &&& text[2] == ':' && text[5] == ':'
            &&& forall|i: int|
                0 <= i < 8 && i != 2 && i != 5 ==> '0' <= #[trigger] text[i] <= '9'
            &&& 0 <= hour < 24 && 0 <= minute < 60 && 0 <= second < 60
            &&& (secs + offset - (3600 * hour + 60 * minute + second)) % 86400 == 0
        }),
{
    let text = clock_text(secs, offset);
    let now: int = (secs + offset) % 86400;
    let (h, m, s): (int, int, int) = (now / 3600, now / 60 % 60, now % 60);
    assert(0 <= h < 24 && 0 <= m < 60 && 0 <= s < 60);
    assert(text[0] == digit((h / 10) as nat) && text[1] == digit((h % 10) as nat));
    assert(text[3] == digit((m / 10) as nat) && text[4] == digit((m % 10) as nat));
    assert(text[6] == digit((s / 10) as nat) && text[7] == digit((s % 10) as nat));
    assert(now == 3600 * h + 60 * m + s);
    assert((secs + offset - now) % 86400 == 0);
}

/// Points in time are ordered by their seconds, and by their nanoseconds within a second.
pub proof fn times_are_in_order(a: Timestamp, b: Timestamp)
    ensures
        a.secs < b.secs ==> a.le(b) && !b.le(a),
        a.secs == b.secs && a.nanos < b.nanos ==> a.le(b) && !b.le(a),
        a.le(a),
        Timestamp::epoch().secs == 0,
        Timestamp::epoch().nanos == 0,
{
}

/// Every time from about 260000 years before to 260000 years after the start of 1970 has a time of day.
/// The calendar ends where its day numbers do.
pub proof fn ordinary_times_have_a_time_of_day(time: Timestamp)
    ensures
        time.on_calendar() <==> -8_334_601_228_800 <= time.secs <= 8_210_266_876_799 && time.nanos
            < 1_000_000_000,
{
}

} // verus!
