//! Times: of the system, and as a calendar shows them.

use vstd::prelude::*;

verus! {

/// A time of the system clock, as its distance from the start of 1970 in UTC.
#[derive(Clone, Copy, Debug, PartialEq, Eq, Structural)]
pub struct SystemTime {
    /// The time lies before the start of 1970.
    pub before_epoch: bool,
    /// The whole seconds of the distance.
    pub seconds: u64,
    /// The nanoseconds of the distance that are no whole second.
    pub nanoseconds: u32,
}

impl SystemTime {
    /// The nanoseconds from the start of 1970 to this time.
    pub open spec fn nanoseconds_since_epoch(self) -> int {
        let distance = self.seconds * 1_000_000_000 + self.nanoseconds;
        if self.before_epoch {
            -distance
        } else {
            distance
        }
    }

    /// There is less than a second in the nanoseconds, and no time but an earlier one is
    /// before the start of 1970.
    pub open spec fn is_normal(self) -> bool {
        &&& self.nanoseconds < 1_000_000_000
        &&& self.before_epoch ==> self.seconds + self.nanoseconds > 0
    }
}

/// A date and a time of day, as a calendar and a clock show them.
#[derive(Clone, Copy, Debug, PartialEq, Eq, Structural)]
pub struct CivilTime {
    /// The year.
    pub year: i32,
    /// The month, from 1.
    pub month: u8,
    /// The day of the month, from 1.
    pub day: u8,
    /// The hour, from 0.
    pub hour: u8,
    /// The minute, from 0.
    pub minute: u8,
    /// The second, from 0.
    pub second: u8,
}

/// The year has a 29th of February, in the Gregorian calendar.
pub open spec fn is_leap_year(year: int) -> bool {
    year % 4 == 0 && (year % 100 != 0 || year % 400 == 0)
}

/// How many days the month has.
pub open spec fn days_in_month(year: int, month: int) -> int {
    if month == 2 {
        if is_leap_year(year) {
            29
        } else {
            28
        }
    } else if month == 4 || month == 6 || month == 9 || month == 11 {
        30
    } else {
        31
    }
}

/// How many days of the year precede the month.
pub open spec fn days_before_month(year: int, month: int) -> int
    decreases month,
{
    if month <= 1 {
        0
    } else {
        days_before_month(year, month - 1) + days_in_month(year, month - 1)
    }
}

/// How many days lie between the starts of 1970 and of the year.
pub open spec fn days_before_year(year: int) -> int {
    let past = year - 1;
    365 * (year - 1970) + past / 4 - past / 100 + past / 400 - 477
}

impl CivilTime {
    /// A calendar has this date and a clock shows this time.
    pub open spec fn is_valid(self) -> bool {
        &&& 1 <= self.month <= 12
        &&& 1 <= self.day <= days_in_month(self.year as int, self.month as int)
        &&& self.hour < 24
        &&& self.minute < 60
        &&& self.second < 60
    }

    /// The seconds from the start of 1970 to this time, where both are read in one time zone.
    pub open spec fn seconds(self) -> int {
        let days = days_before_year(self.year as int) + days_before_month(
            self.year as int,
            self.month as int,
        ) + self.day - 1;
        ((days * 24 + self.hour) * 60 + self.minute) * 60 + self.second
    }
}

/// The first second of the year -9999.
pub const FIRST_SECOND: i64 = -377_705_116_800;

/// The last second of the year 9999.
pub const LAST_SECOND: i64 = 253_402_300_799;

/// The largest distance of a time zone from UTC, in seconds.
pub const LARGEST_OFFSET: i32 = 93_599;

/// The time has a place in the years from -9999 to 9999, both in UTC and in the time zone.
pub open spec fn is_representable(unix_seconds: i64, offset_seconds: i32) -> bool {
    &&& FIRST_SECOND <= unix_seconds <= LAST_SECOND
    &&& -LARGEST_OFFSET <= offset_seconds <= LARGEST_OFFSET
    &&& FIRST_SECOND <= unix_seconds + offset_seconds <= LAST_SECOND
}

/// Reads a time in the time zone that is `offset_seconds` ahead of UTC, through
/// `time::OffsetDateTime`: `from_unix_timestamp`, `checked_to_offset` with
/// `UtcOffset::from_whole_seconds`, and the accessors of the fields. The outcome is the one date
/// and time of the Gregorian calendar that lies `unix_seconds + offset_seconds` after the start of
/// 1970; there is none outside the years from -9999 to 9999, or for an offset of 26 hours or more.
#[verifier::external_body]
fn read_civil_time(unix_seconds: i64, offset_seconds: i32) -> (civil: Option<CivilTime>)
    ensures
        civil is Some <==> is_representable(unix_seconds, offset_seconds),
        civil matches Some(civil) ==> {
            &&& civil.is_valid()
            &&& civil.seconds() == unix_seconds + offset_seconds
            &&& -9999 <= civil.year <= 9999
        },
{
    let utc = time::OffsetDateTime::from_unix_timestamp(unix_seconds).ok()?;
    let local = utc.checked_to_offset(time::UtcOffset::from_whole_seconds(offset_seconds).ok()?)?;
    Some(
        CivilTime {
            year: local.year(),
            month: u8::from(local.month()),
            day: local.day(),
            hour: local.hour(),
            minute: local.minute(),
            second: local.second(),
        },
    )
}

/// A time, together with the date and the time of day that it has where it was taken.
#[derive(Clone, Copy, Debug, PartialEq, Eq, Structural)]
pub struct LocalTime {
    unix_seconds: i64,
    nanosecond: u32,
    civil: CivilTime,
}

impl LocalTime {
    /// The whole seconds from the start of 1970 in UTC; negative before it.
    pub closed spec fn unix_seconds(self) -> i64 {
        self.unix_seconds
    }

    /// The nanoseconds that have passed since the last whole second.
    pub closed spec fn nanosecond(self) -> u32 {
        self.nanosecond
    }

    /// The date and the time of day.
    pub closed spec fn civil(self) -> CivilTime {
        self.civil
    }

    /// There is less than a second in the nanoseconds, and the date and the time of day are those
    /// that the seconds have in some time zone.
    pub open spec fn is_valid(self) -> bool {
        &&& self.nanosecond() < 1_000_000_000
        &&& self.civil().is_valid()
        &&& -9999 <= self.civil().year <= 9999
        &&& -LARGEST_OFFSET <= self.civil().seconds() - self.unix_seconds() <= LARGEST_OFFSET
    }

    /// The time at these seconds and nanoseconds, in the time zone that is `offset_seconds` ahead
    /// of UTC.
    pub fn new(unix_seconds: i64, nanosecond: u32, offset_seconds: i32) -> (time: Option<Self>)
        ensures
            time is Some <==> nanosecond < 1_000_000_000 && is_representable(
                unix_seconds,
                offset_seconds,
            ),
            time matches Some(time) ==> {
                &&& time.unix_seconds() == unix_seconds
                &&& time.nanosecond() == nanosecond
                &&& time.civil().is_valid()
                &&& time.civil().seconds() == unix_seconds + offset_seconds
                &&& time.is_valid()
            },
    {
        if nanosecond >= 1_000_000_000 {
            return None;
        }
        match read_civil_time(unix_seconds, offset_seconds) {
            Some(civil) => Some(LocalTime { unix_seconds, nanosecond, civil }),
            None => None,
        }
    }

    /// The same time, as the system clock has it.
    pub open spec fn system_time(self) -> SystemTime {
        if self.unix_seconds() >= 0 {
            SystemTime {
                before_epoch: false,
                seconds: self.unix_seconds() as u64,
                nanoseconds: self.nanosecond(),
            }
        } else if self.nanosecond() == 0 {
            SystemTime {
                before_epoch: true,
                seconds: (-self.unix_seconds()) as u64,
                nanoseconds: 0,
            }
        } else {
            SystemTime {
                before_epoch: true,
                seconds: (-self.unix_seconds() - 1) as u64,
                nanoseconds: (1_000_000_000 - self.nanosecond()) as u32,
            }
        }
    }

    /// The same time, as the system clock has it.
    pub fn to_system_time(&self) -> (time: SystemTime)
        ensures
            time == self.system_time(),
            time.is_normal(),
            time.nanoseconds_since_epoch() == self.unix_seconds() * 1_000_000_000
                + self.nanosecond(),
            self.is_valid(),
    {
        proof {
            use_type_invariant(self);
        }
        if self.unix_seconds >= 0 {
            SystemTime {
                before_epoch: false,
                seconds: self.unix_seconds as u64,
                nanoseconds: self.nanosecond,
            }
        } else if self.nanosecond == 0 {
            SystemTime {
                before_epoch: true,
                seconds: (-self.unix_seconds) as u64,
                nanoseconds: 0,
            }
        } else {
            SystemTime {
                before_epoch: true,
                seconds: (-self.unix_seconds - 1) as u64,
                nanoseconds: 1_000_000_000 - self.nanosecond,
            }
        }
    }

    /// The date and the time of day.
    pub fn civil_time(&self) -> (civil: CivilTime)
        ensures
            civil == self.civil(),
            civil.is_valid(),
            -9999 <= civil.year <= 9999,
            -LARGEST_OFFSET <= civil.seconds() - self.unix_seconds() <= LARGEST_OFFSET,
    {
        proof {
            use_type_invariant(self);
        }
        self.civil
    }

    #[verifier::type_invariant]
    spec fn in_range(self) -> bool {
        &&& self.nanosecond < 1_000_000_000
        &&& FIRST_SECOND <= self.unix_seconds <= LAST_SECOND
        &&& self.civil.is_valid()
        &&& -9999 <= self.civil.year <= 9999
        &&& -LARGEST_OFFSET <= self.civil.seconds() - self.unix_seconds <= LARGEST_OFFSET
    }
}

/// The years follow each other from the start of 1970 on and back from it: each has 365 days, or
/// 366 if it can be divided by 4, but not by 100 unless by 400, and its months make it up.
pub proof fn years_follow_each_other(year: int)
    ensures
        days_before_year(1970) == 0,
        days_before_year(year + 1) - days_before_year(year) == (if year % 4 == 0 && (year % 100 != 0
            || year % 400 == 0) {
            366int
        } else {
            365int
        }),
        days_before_month(year, 13) == days_before_year(year + 1) - days_before_year(year),
{
    reveal_with_fuel(days_before_month, 13);
}

/// A time is represented exactly where it lies in the years from -9999 to 9999, in UTC and in the
/// time zone, and the time zone is less than 26 hours from UTC.
pub proof fn represented_times_lie_in_years_of_four_digits(unix_seconds: i64, offset_seconds: i32)
    ensures
        is_representable(unix_seconds, offset_seconds) <==> {
            let first = days_before_year(-9999) * 24 * 60 * 60;
            let end = days_before_year(10_000) * 24 * 60 * 60;
            &&& first <= unix_seconds < end
            &&& first <= unix_seconds + offset_seconds < end
            &&& -26 * 60 * 60 < offset_seconds < 26 * 60 * 60
        },
{
}

/// The time of the system clock is the same time, to the nanosecond.
pub proof fn system_times_keep_the_nanoseconds(time: LocalTime)
    requires
        time.is_valid(),
    ensures
        time.system_time().is_normal(),
        time.system_time().nanoseconds_since_epoch() == time.unix_seconds() * 1_000_000_000
            + time.nanosecond(),
{
}

} // verus!
