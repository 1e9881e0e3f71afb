//! The Gregorian calendar.

use crate::text::padded;
use vstd::prelude::*;

verus! {

/// The number of 1970-01-01, counting days from 0001-01-01.
pub const EPOCH_DAY: u32 = 719_162;

/// Whether a year has a 29th of February.
pub open spec fn is_leap(year: int) -> bool {
    year % 4 == 0 && (year % 100 != 0 || year % 400 == 0)
}

/// The days of a month.
pub open spec fn days_in(year: int, month: int) -> int {
    if month == 2 {
        if is_leap(year) {
            29
        } else {
            28
        }
    } else if month == 4 || month == 6 || month == 9 || month == 11 {
        30
    } else {
        31
    }
}

/// The days of a year before a month.
pub open spec fn days_before(year: int, month: int) -> int
    decreases month,
{
    if month <= 1 {
        0
    } else {
        days_before(year, month - 1) + days_in(year, month - 1)
    }
}

/// A day of the calendar.
pub struct Date {
    pub year: int,
    pub month: int,
    pub day: int,
}

impl Date {
    /// Whether the calendar has such a day.
    pub open spec fn valid(self) -> bool {
        1 <= self.month <= 12 && 1 <= self.day <= days_in(self.year, self.month)
    }

    /// The days from 1970-01-01 to this one.
    pub open spec fn number(self) -> int {
        let years = self.year - 1;
        365 * years + years / 4 - years / 100 + years / 400 + days_before(self.year, self.month) + self.day - 1
            - EPOCH_DAY
    }

    /// The day as year, month and day of the month.
    pub open spec fn text(self) -> Seq<char> {
        padded(self.year as nat, 4) + "-"@ + padded(self.month as nat, 2) + "-"@ + padded(self.day as nat, 2)
    }
}

/// The day in UTC of an instant, given in nanoseconds since 1970-01-01 UTC.
pub open spec fn date_of(nanos: i64) -> Date {
    choose|d: Date| #[trigger] d.valid() && d.number() == nanos as int / 86_400_000_000_000
}

/// The time of day in UTC: hours, minutes and seconds.
pub open spec fn time_of_day(nanos: i64) -> Seq<char> {
    let seconds = ((nanos as int / 1_000_000_000) % 86_400) as nat;
    padded(seconds / 3600, 2) + ":"@ + padded(seconds / 60 % 60, 2) + ":"@ + padded(seconds % 60, 2)
}

/// Day and time of day in UTC.
pub open spec fn date_and_time(nanos: i64) -> Seq<char> {
    date_of(nanos).text() + " "@ + time_of_day(nanos) + " UTC"@
}

// ---------------------------------------------------------------------------
// Laws
// ---------------------------------------------------------------------------

proof fn lemma_months(year: int, month: int)
    requires
        1 <= month <= 12,
    ensures
        days_before(year, 13) == if is_leap(year) {
            366int
        } else {
            365
        },
        0 <= days_before(year, month),
        days_before(year, month) + days_in(year, month) == days_before(year, month + 1),
        days_before(year, month + 1) <= days_before(year, 13),
{
    reveal_with_fuel(days_before, 14);
}

proof fn lemma_months_in_order(year: int, a: int, b: int)
    requires
        1 <= a < b <= 12,
    ensures
        days_before(year, a) + days_in(year, a) <= days_before(year, b),
    decreases b - a,
{
    reveal_with_fuel(days_before, 2);
    if a + 1 < b {
        lemma_months_in_order(year, a, b - 1);
    }
}

/// A later day has a greater number.
pub proof fn law_numbers_are_in_order(a: Date, b: Date)
    requires
        a.valid(),
        b.valid(),
        a.year < b.year || (a.year == b.year && (a.month < b.month || (a.month == b.month && a.day < b.day))),
    ensures
        a.number() < b.number(),
{
    lemma_months(a.year, a.month);
    lemma_months(b.year, b.month);
    if a.year == b.year && a.month < b.month {
        lemma_months_in_order(a.year, a.month, b.month);
    }
}

/// No two days have one number: the number of a day tells the day.
pub proof fn law_number_tells_the_day(nanos: i64, d: Date)
    requires
        d.valid(),
        d.number() == nanos as int / 86_400_000_000_000,
    ensures
        date_of(nanos) == d,
{
    let e = date_of(nanos);
    assert(e.valid() && e.number() == d.number());
    if e != d {
        if e.year < d.year || (e.year == d.year && (e.month < d.month || (e.month == d.month && e.day < d.day))) {
            law_numbers_are_in_order(e, d);
        } else {
            law_numbers_are_in_order(d, e);
        }
    }
}

#[verifier::spinoff_prover]
#[verifier::rlimit(40)]
proof fn lemma_day_after(d: Date) -> (e: Date)
    requires
        d.valid(),
    ensures
        e.valid(),
        e.number() == d.number() + 1,
{
    lemma_months(d.year, d.month);
    if d.day < days_in(d.year, d.month) {
        Date { day: d.day + 1, ..d }
    } else if d.month < 12 {
        Date { month: d.month + 1, day: 1, ..d }
    } else {
        lemma_months(d.year + 1, 1);
        Date { year: d.year + 1, month: 1, day: 1 }
    }
}

#[verifier::spinoff_prover]
#[verifier::rlimit(40)]
proof fn lemma_day_before(d: Date) -> (e: Date)
    requires
        d.valid(),
    ensures
        e.valid(),
        e.number() == d.number() - 1,
{
    lemma_months(d.year, d.month);
    if d.day > 1 {
        Date { day: d.day - 1, ..d }
    } else if d.month > 1 {
        lemma_months(d.year, d.month - 1);
        Date { month: d.month - 1, day: days_in(d.year, d.month - 1), ..d }
    } else {
        lemma_months(d.year - 1, 12);
        Date { year: d.year - 1, month: 12, day: 31 }
    }
}

/// Every number is that of some day.
pub proof fn law_every_number_has_a_day(n: int)
    ensures
        exists|d: Date| #[trigger] d.valid() && d.number() == n,
    decreases
            if n < 0 {
                -n
            } else {
                n
            },
{
    if n == 0 {
        let epoch = Date { year: 1970, month: 1, day: 1 };
        assert(epoch.valid() && epoch.number() == 0);
    } else if n > 0 {
        law_every_number_has_a_day(n - 1);
        let e = lemma_day_after(choose|d: Date| #[trigger] d.valid() && d.number() == n - 1);
    } else {
        law_every_number_has_a_day(n + 1);
        let e = lemma_day_before(choose|d: Date| #[trigger] d.valid() && d.number() == n + 1);
    }
}

/// The first of January 1970 has the number zero, and the day after any day the
/// next number: the day after the last of a month is the first of the next,
/// February having 29 days in years divisible by four but not by a hundred, or
/// by four hundred.
#[verifier::spinoff_prover]
#[verifier::rlimit(40)]
pub proof fn law_days_follow_each_other(d: Date)
    requires
        d.valid(),
    ensures
        (Date { year: 1970, month: 1, day: 1 }).number() == 0,
        ({
            let leap = d.year % 400 == 0 || (d.year % 4 == 0 && d.year % 100 != 0);
            let last = if d.month == 2 {
                if leap {
                    29int
                } else {
                    28
                }
            } else if d.month == 4 || d.month == 6 || d.month == 9 || d.month == 11 {
                30
            } else {
                31
            };
            &&& 1 <= d.day <= last && 1 <= d.month <= 12
            &&& d.day < last ==> (Date { day: d.day + 1, ..d }).number() == d.number() + 1
            &&& d.day == last && d.month < 12 ==> (Date { month: d.month + 1, day: 1, ..d }).number() == d.number() + 1
            &&& d.day == last && d.month == 12 ==> (Date { year: d.year + 1, month: 1, day: 1 }).number() == d.number() + 1
        }),
{
    lemma_months(d.year, d.month);
    lemma_months(d.year + 1, 1);
    reveal_with_fuel(days_before, 2);
}

/// The time of day counts hours, minutes and seconds since midnight.
pub proof fn law_time_of_day(days: int, hours: nat, minutes: nat, seconds: nat, nanos: i64)
    requires
        hours < 24,
        minutes < 60,
        seconds < 60,
        nanos as int / 1_000_000_000 == ((days * 24 + hours) * 60 + minutes) * 60 + seconds,
    ensures
        time_of_day(nanos) == padded(hours, 2) + ":"@ + padded(minutes, 2) + ":"@ + padded(seconds, 2),
{
    let t = ((hours * 60 + minutes) * 60 + seconds) as nat;
    let all = nanos as int / 1_000_000_000;
    assert(all == 86_400 * days + t);
    vstd::arithmetic::div_mod::lemma_fundamental_div_mod_converse(all, 86_400, days, t as int);
    lemma_clock(hours, minutes, seconds);
}

proof fn lemma_clock(hours: nat, minutes: nat, seconds: nat)
    requires
        minutes < 60,
        seconds < 60,
    ensures
        ({
            let t = ((hours * 60 + minutes) * 60 + seconds) as nat;
            t / 3600 == hours && t / 60 % 60 == minutes && t % 60 == seconds
        }),
{
}

} // verus!
