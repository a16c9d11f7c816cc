use vstd::prelude::*;

verus! {

/// A calendar date, held as plain year / month / day numbers.
#[derive(PartialEq, Eq, Structural, Clone, Copy, Debug, Hash)]
pub struct Date {
    pub year: u32,
    pub month: u32,
    pub day: u32,
}

/// A point in time with minute precision: a date plus hour and minute.
#[derive(PartialEq, Eq, Structural, Clone, Copy, Debug, Hash)]
pub struct Timestamp {
    pub date: Date,
    pub hour: u32,
    pub minute: u32,
}

pub open spec fn is_leap_year(year: int) -> bool {
    (year % 4 == 0 && year % 100 != 0) || year % 400 == 0
}

pub open spec fn spec_days_in_month(year: int, month: int) -> int {
    if month == 2 {
        if is_leap_year(year) {
            29
        } else {
            28
        }
    } else if month == 4 || month == 6 || month == 9 || month == 11 {
        30
    } else {
        31
    }
}

pub open spec fn valid_date(d: Date) -> bool {
    &&& 1 <= d.month <= 12
    &&& 1 <= d.day <= spec_days_in_month(d.year as int, d.month as int)
}

pub open spec fn valid_timestamp(t: Timestamp) -> bool {
    &&& valid_date(t.date)
    &&& t.hour <= 23
    &&& t.minute <= 59
}

pub fn days_in_month(year: u32, month: u32) -> (r: u32)
    requires
        1 <= month <= 12,
    ensures
        r == spec_days_in_month(year as int, month as int),
{
    if month == 2 {
        if (year % 4 == 0 && year % 100 != 0) || year % 400 == 0 {
            29
        } else {
            28
        }
    } else if month == 4 || month == 6 || month == 9 || month == 11 {
        30
    } else {
        31
    }
}

/// Strict chronological order on timestamps: lexicographic over
/// (year, month, day, hour, minute).
pub open spec fn ts_lt(a: Timestamp, b: Timestamp) -> bool {
    if a.date.year != b.date.year {
        a.date.year < b.date.year
    } else if a.date.month != b.date.month {
        a.date.month < b.date.month
    } else if a.date.day != b.date.day {
        a.date.day < b.date.day
    } else if a.hour != b.hour {
        a.hour < b.hour
    } else {
        a.minute < b.minute
    }
}

/// Chronological order, allowing equality.
pub open spec fn ts_le(a: Timestamp, b: Timestamp) -> bool {
    ts_lt(a, b) || a == b
}

pub fn timestamp_lt(a: &Timestamp, b: &Timestamp) -> (r: bool)
    ensures
        r == ts_lt(*a, *b),
{
    if a.date.year != b.date.year {
        a.date.year < b.date.year
    } else if a.date.month != b.date.month {
        a.date.month < b.date.month
    } else if a.date.day != b.date.day {
        a.date.day < b.date.day
    } else if a.hour != b.hour {
        a.hour < b.hour
    } else {
        a.minute < b.minute
    }
}

} // verus!
