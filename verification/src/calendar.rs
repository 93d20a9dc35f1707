//! Dates of the Gregorian calendar and the day counts between them.
//!
//! A [`Date`] is a year, a month and a day, held as they are given: nothing
//! checks that the day exists. The arithmetic is defined on every triple on
//! which it does not overflow, and it is linear in the day, so that "the 0th"
//! of a month is the last day of the month before and "the 32nd of January"
//! is the 1st of February. [`Date::date_after_days`] and
//! [`Date::date_before_days`] can give such a date back: see there.

use crate::calendar_laws::{
    lemma_closures_valid, lemma_days_before_month_monotone, lemma_days_in_years_monotone, lemma_days_in_years_split, lemma_earlier, lemma_later, lemma_next_year_epoch, lemma_ordinal_nonnegative, lemma_precedes_ordinal, lemma_roll_back_year, lemma_roll_forward_year, lemma_short_shift, lemma_tomorrow_valid, lemma_valid_ordinal, lemma_weekday_by_epoch,
};
use vstd::prelude::*;

verus! {

/// The lengths of the months of a common year.
pub const DAYS_IN_MONTH: [u32; 12] = [31, 28, 31, 30, 31, 30, 31, 31, 30, 31, 30, 31];

/// A day of the calendar.
#[derive(Debug, Clone, Copy, PartialEq, Eq, Structural)]
pub struct Date {
    /// The year.
    pub year: u32,
    /// The month, 1 for January.
    pub month: u32,
    /// The day of the month.
    pub day: u32,
}

/// `year` is a leap year: a multiple of 4 that is no multiple of 100, or a
/// multiple of 400.
pub open spec fn is_leap(year: int) -> bool {
    year % 4 == 0 && (year % 100 != 0 || year % 400 == 0)
}

/// The length of `month` in a common year, and 0 where there is no such month.
pub open spec fn common_month_length(month: int) -> int {
    if month == 2 {
        28
    } else if month == 4 || month == 6 || month == 9 || month == 11 {
        30
    } else if 1 <= month <= 12 {
        31
    } else {
        0
    }
}

/// The length of `month` in `year`, and 0 where there is no such month.
pub open spec fn month_length(year: int, month: int) -> int {
    if month == 2 && is_leap(year) {
        29
    } else {
        common_month_length(month)
    }
}

/// The number of days of `year`.
pub open spec fn year_length(year: int) -> int {
    if is_leap(year) {
        366
    } else {
        365
    }
}

/// The days of a common year that lie before `month`.
pub open spec fn days_before_month(month: int) -> int
    decreases month,
{
    if month <= 1 {
        0
    } else {
        days_before_month(month - 1) + common_month_length(month - 1)
    }
}

/// The number of the day in its year, counted from 1 on the 1st of January.
pub open spec fn ordinal(year: int, month: int, day: int) -> int {
    (if month > 2 && is_leap(year) {
        1int
    } else {
        0int
    }) + days_before_month(month) + day
}

/// The days of the years `from..to`.
pub open spec fn days_in_years(from: int, to: int) -> int
    decreases to - from,
{
    if to <= from {
        0
    } else {
        days_in_years(from, to - 1) + year_length(to - 1)
    }
}

/// The number of the day, counted through the years from year 0.
pub open spec fn epoch_day(year: int, month: int, day: int) -> int {
    days_in_years(0, year) + ordinal(year, month, day)
}

/// The day of the week by Kim Larsson's formula: 1 for Monday up to 7 for
/// Sunday. January and February count as months 13 and 14 of the year before.
pub open spec fn weekday_of(year: int, month: int, day: int) -> int {
    let y = if month < 3 {
        year - 1
    } else {
        year
    };
    let m = if month < 3 {
        month + 12
    } else {
        month
    };
    let h = (day + 13 * (m + 1) / 5 + y + y / 4 - y / 100 + y / 400) % 7;
    (h + 5) % 7 + 1
}

/// The formula of [`weekday_of`] can be worked out in `u32`.
pub open spec fn weekday_fits(year: int, month: int, day: int) -> bool {
    let y = if month < 3 {
        year - 1
    } else {
        year
    };
    let m = if month < 3 {
        month + 12
    } else {
        month
    };
    y >= 0 && 13 * (m + 1) <= u32::MAX && day + 13 * (m + 1) / 5 + y + y / 4 <= u32::MAX
}

/// The month after `month` of `year`, as a year and a month.
pub open spec fn month_after(year: int, month: int) -> (int, int) {
    if month + 1 > 12 {
        (year + 1, 1)
    } else {
        (year, month + 1)
    }
}

/// The month before `month` of `year`, as a year and a month.
pub open spec fn month_before(year: int, month: int) -> (int, int) {
    if month - 1 == 0 {
        (year - 1, 12)
    } else {
        (year, month - 1)
    }
}

/// The date `rest` days after the first of `month`, as a year, a month and a
/// day: months are passed over while more days are left than the month has,
/// so the day lies between 1 and one more than the length of its month.
pub open spec fn roll_forward(year: int, month: int, rest: int) -> (int, int, int)
    decreases rest,
{
    if 1 <= month <= 12 && rest > month_length(year, month) {
        roll_forward(
            month_after(year, month).0,
            month_after(year, month).1,
            rest - month_length(year, month),
        )
    } else {
        (year, month, rest + 1)
    }
}

/// The date `rest` days before the last of `month`, as a year, a month and a
/// day: months are passed over while more days are left than the month has,
/// so the day lies between 0 and the length of its month.
pub open spec fn roll_back(year: int, month: int, rest: int) -> (int, int, int)
    decreases rest,
{
    if 1 <= month <= 12 && rest > month_length(year, month) {
        roll_back(
            month_before(year, month).0,
            month_before(year, month).1,
            rest - month_length(year, month),
        )
    } else {
        (year, month, month_length(year, month) - rest)
    }
}

/// The date `days` days after a date, as [`Date::date_after_days`] gives it.
pub open spec fn later(year: int, month: int, day: int, days: int) -> (int, int, int) {
    let to_next = month_length(year, month) - day + 1;
    if days < to_next {
        (year, month, day + days)
    } else {
        roll_forward(month_after(year, month).0, month_after(year, month).1, days - to_next)
    }
}

/// The date `days` days before a date, as [`Date::date_before_days`] gives it.
pub open spec fn earlier(year: int, month: int, day: int, days: int) -> (int, int, int) {
    if days < day {
        (year, month, day - days)
    } else {
        roll_back(month_before(year, month).0, month_before(year, month).1, days - day)
    }
}

/// Whether `a` comes before `b`: by year, then month, then day.
pub open spec fn precedes(a: Date, b: Date) -> bool {
    a.year < b.year || (a.year == b.year && (a.month < b.month || (a.month == b.month && a.day
        < b.day)))
}

impl Date {
    /// The number of the day of `self`, counted through the years.
    pub open spec fn epoch(self) -> int {
        epoch_day(self.year as int, self.month as int, self.day as int)
    }

    /// `self` is a day that exists: a month from 1 to 12 and a day from 1 to
    /// the length of the month.
    pub open spec fn valid(self) -> bool {
        &&& 1 <= self.month <= 12
        &&& 1 <= self.day <= month_length(self.year as int, self.month as int)
    }

    /// Makes a date of a year, a month and a day.
    pub fn new(year: u32, month: u32, day: u32) -> (date: Self)
        ensures
            date == (Date { year, month, day }),
    {
        Date { year, month, day }
    }

    /// Whether the year of `self` is a leap year.
    pub fn is_leap_year(&self) -> (leap: bool)
        ensures
            leap == is_leap(self.year as int),
    {
        if self.year % 4 != 0 {
            return false;
        } else if self.year % 100 != 0 {
            return true;
        } else if self.year % 400 != 0 {
            return false;
        } else {
            return true;
        }
    }

    /// The length of the month of `self`, and 0 if the month is not one of
    /// 1 to 12.
    pub fn days_in_month(&self) -> (days: u32)
        ensures
            days == month_length(self.year as int, self.month as int),
    {
        match self.month {
            1 | 3 | 5 | 7 | 8 | 10 | 12 => 31,
            4 | 6 | 9 | 11 => 30,
            2 => {
                if self.is_leap_year() {
                    29
                } else {
                    28
                }
            },
            _ => 0,
        }
    }

    /// The number of days of the year of `self`.
    pub fn days_in_year(&self) -> (days: u32)
        ensures
            days == year_length(self.year as int),
    {
        if self.is_leap_year() {
            366
        } else {
            365
        }
    }

    /// The number of the day in its year: 1 for the 1st of January.
    pub fn day_of_year(&self) -> (days: u32)
        requires
            self.month <= 12,
            ordinal(self.year as int, self.month as int, self.day as int) <= u32::MAX,
        ensures
            days == ordinal(self.year as int, self.month as int, self.day as int),
    {
        let mut days: u32 = 0;
        if self.month > 2 {
            days += if self.is_leap_year() {
                1
            } else {
                0
            };
        }
        let mut m: u32 = 1;
        while m < self.month
            invariant
                1 <= m,
                m <= self.month || m == 1,
                self.month <= 12,
                days == (if self.month > 2 && is_leap(self.year as int) {
                    1int
                } else {
                    0int
                }) + days_before_month(m as int),
                ordinal(self.year as int, self.month as int, self.day as int) <= u32::MAX,
            decreases self.month - m,
        {
            proof {
                lemma_days_before_month_monotone(m as int + 1, self.month as int);
            }
            days += DAYS_IN_MONTH[(m - 1) as usize];
            m += 1;
        }
        proof {
            assert(days_before_month(0) == 0 && days_before_month(1) == 0);
        }
        days += self.day;
        days
    }

    /// The day of the week: 1 for Monday up to 7 for Sunday.
    pub fn weekday(&self) -> (w: u32)
        requires
            weekday_fits(self.year as int, self.month as int, self.day as int),
        ensures
            w == weekday_of(self.year as int, self.month as int, self.day as int),
            1 <= w <= 7,
            self.year >= 1 && 1 <= self.month <= 12 ==> w == (self.epoch() + 4) % 7 + 1,
    {
        proof {
            if self.year >= 1 && 1 <= self.month <= 12 {
                lemma_weekday_by_epoch(self.year as int, self.month as int, self.day as int);
            }
        }
        let m = self.month;
        let d = self.day;
        let mut y = self.year;
        let mut m = m;
        if m < 3 {
            m += 12;
            y -= 1;
        }
        let h = (d + 13 * (m + 1) / 5 + y + y / 4 - y / 100 + y / 400) % 7;
        (h + 5) % 7 + 1
    }

    /// The days from `self` to the first of the next month, `self` included.
    pub fn days_to_next_month(&self) -> (days: u32)
        requires
            self.day <= month_length(self.year as int, self.month as int),
        ensures
            days == month_length(self.year as int, self.month as int) - self.day + 1,
    {
        self.days_in_month() - self.day + 1
    }
}

impl Date {
    /// The year, the month and the day of `self`.
    pub open spec fn triple(self) -> (int, int, int) {
        (self.year as int, self.month as int, self.day as int)
    }

    /// The number of days between `self` and `other`, whichever comes first.
    ///
    /// Both months have to be at most 12. The earlier date must not lie
    /// beyond the end of its year, nor beyond the later date of the same year.
    pub fn days_between_date(&self, other: &Date) -> (days: u32)
        requires
            self.month <= 12,
            other.month <= 12,
            ({
                let start = if precedes(*self, *other) {
                    *self
                } else {
                    *other
                };
                let end = if precedes(*self, *other) {
                    *other
                } else {
                    *self
                };
                &&& ordinal(start.year as int, start.month as int, start.day as int) <= u32::MAX
                &&& ordinal(end.year as int, end.month as int, end.day as int) <= u32::MAX
                &&& start.year == end.year ==> start.epoch() <= end.epoch()
                &&& start.year < end.year ==> ordinal(
                    start.year as int,
                    start.month as int,
                    start.day as int,
                ) <= year_length(start.year as int)
                &&& end.epoch() - start.epoch() <= u32::MAX
            }),
        ensures
            precedes(*self, *other) ==> days == other.epoch() - self.epoch(),
            !precedes(*self, *other) ==> days == self.epoch() - other.epoch(),
    {
        let mut days: u32 = 0;
        let (mut start, end) = if self < other {
            (self.clone(), other)
        } else {
            (other.clone(), self)
        };
        let ghost first = start;
        if start.year == end.year {
            days += end.day_of_year() - start.day_of_year();
        } else {
            proof {
                lemma_days_in_years_split(0, first.year as int, end.year as int);
                lemma_days_in_years_split(first.year as int, first.year + 1, end.year as int);
                assert(days_in_years(first.year as int, first.year + 1) == year_length(
                    first.year as int,
                )) by {
                    reveal_with_fuel(days_in_years, 2);
                }
                lemma_days_in_years_monotone(first.year + 1, first.year + 1, end.year as int);
                lemma_ordinal_nonnegative(end.year as int, end.month as int, end.day as int);
            }
            days += start.days_in_year() - start.day_of_year();
            start.year += 1;

            while start.year < end.year
                invariant
                    first.year < start.year <= end.year,
                    end.month <= 12,
                    ordinal(end.year as int, end.month as int, end.day as int) <= u32::MAX,
                    end.epoch() - first.epoch() <= u32::MAX,
                    end.epoch() - first.epoch() == year_length(first.year as int) - ordinal(
                        first.year as int,
                        first.month as int,
                        first.day as int,
                    ) + days_in_years(first.year + 1, end.year as int) + ordinal(
                        end.year as int,
                        end.month as int,
                        end.day as int,
                    ),
                    0 <= ordinal(end.year as int, end.month as int, end.day as int),
                    days == year_length(first.year as int) - ordinal(
                        first.year as int,
                        first.month as int,
                        first.day as int,
                    ) + days_in_years(first.year + 1, start.year as int),
                decreases end.year - start.year,
            {
                proof {
                    lemma_days_in_years_monotone(
                        first.year + 1,
                        start.year + 1,
                        end.year as int,
                    );
                }
                days += start.days_in_year();
                start.year += 1;
            }
            days += end.day_of_year();
        }

        days
    }

    /// The date `days` days after `self`.
    ///
    /// Within the month of `self` the day is counted up. Beyond it the months
    /// are passed over one by one, and the result is day `rest + 1` of the
    /// first month that has at least `rest` days for the `rest` days that are
    /// left: when the rest is the whole month, that is one day more than the
    /// month has, and stands for the first of the month after it.
    pub fn date_after_days(&self, days: u32) -> (date: Date)
        requires
            self.day <= month_length(self.year as int, self.month as int),
            self.month < u32::MAX,
            later(self.year as int, self.month as int, self.day as int, days as int).0 <= u32::MAX,
        ensures
            date.triple() == later(
                self.year as int,
                self.month as int,
                self.day as int,
                days as int,
            ),
            1 <= self.month <= 12 ==> date.epoch() == self.epoch() + days && 1 <= date.month
                <= 12,
    {
        proof {
            if 1 <= self.month <= 12 {
                lemma_later(self.year as int, self.month as int, self.day as int, days as int);
            }
        }
        let mut date = Date::new(self.year, self.month, self.day);
        let mut days = days;
        if days < self.days_to_next_month() {
            date.day += days;
        } else {
            days -= self.days_to_next_month();
            proof {
                lemma_roll_forward_year(
                    month_after(self.year as int, self.month as int).0,
                    month_after(self.year as int, self.month as int).1,
                    days as int,
                );
            }
            date.month += 1;
            if date.month > 12 {
                date.month = 1;
                date.year += 1;
            }
            let ghost target = roll_forward(date.year as int, date.month as int, days as int);

            while days > date.days_in_month()
                invariant
                    1 <= date.month <= 12,
                    roll_forward(date.year as int, date.month as int, days as int) == target,
                    target.0 <= u32::MAX,
                decreases days,
            {
                proof {
                    lemma_roll_forward_year(
                        month_after(date.year as int, date.month as int).0,
                        month_after(date.year as int, date.month as int).1,
                        days - month_length(date.year as int, date.month as int),
                    );
                }
                days -= date.days_in_month();
                date.month += 1;
                if date.month > 12 {
                    date.month = 1;
                    date.year += 1;
                }
            }

            date.day = days + 1;
        }

        date
    }

    /// The date `days` days before `self`.
    ///
    /// Within the month of `self` the day is counted down. Beyond it the
    /// months are passed over one by one, backwards, and the result is the
    /// day `rest` days before the last of the first month that has at least
    /// `rest` days for the `rest` days that are left: when the rest is the
    /// whole month, that is day 0, and stands for the last of the month
    /// before it.
    pub fn date_before_days(&self, days: u32) -> (date: Date)
        requires
            days >= self.day ==> 1 <= self.month <= 13 && earlier(
                self.year as int,
                self.month as int,
                self.day as int,
                days as int,
            ).0 >= 0,
        ensures
            date.triple() == earlier(
                self.year as int,
                self.month as int,
                self.day as int,
                days as int,
            ),
            1 <= self.month <= 12 ==> date.epoch() == self.epoch() - days && 1 <= date.month
                <= 12,
    {
        proof {
            if 1 <= self.month <= 12 {
                lemma_earlier(self.year as int, self.month as int, self.day as int, days as int);
            }
        }
        let mut date = Date::new(self.year, self.month, self.day);
        let mut days = days;
        if days < self.day {
            date.day -= days;
        } else {
            days -= self.day;
            proof {
                lemma_roll_back_year(
                    month_before(self.year as int, self.month as int).0,
                    month_before(self.year as int, self.month as int).1,
                    days as int,
                );
            }
            date.month -= 1;
            if date.month == 0 {
                date.month = 12;
                date.year -= 1;
            }
            let ghost target = roll_back(date.year as int, date.month as int, days as int);

            while days > date.days_in_month()
                invariant
                    1 <= date.month <= 12,
                    roll_back(date.year as int, date.month as int, days as int) == target,
                    target.0 >= 0,
                decreases days,
            {
                proof {
                    lemma_roll_back_year(
                        month_before(date.year as int, date.month as int).0,
                        month_before(date.year as int, date.month as int).1,
                        days - month_length(date.year as int, date.month as int),
                    );
                }
                days -= date.days_in_month();
                date.month -= 1;
                if date.month == 0 {
                    date.month = 12;
                    date.year -= 1;
                }
            }

            date.day = date.days_in_month() - days;
        }

        date
    }
}

/// The Chinese New Year of `year`, for the years 2024 to 2026.
pub open spec fn chinese_new_year(year: int) -> Date {
    if year == 2024 {
        Date { year: 2024, month: 2, day: 10 }
    } else if year == 2025 {
        Date { year: 2025, month: 1, day: 29 }
    } else {
        Date { year: 2026, month: 2, day: 17 }
    }
}

/// The days on which the exchange is closed for a holiday: for each holiday
/// its first and its last day.
pub open spec fn exchange_closures() -> Seq<(Date, Date)> {
    seq![
        (Date { year: 2025, month: 1, day: 1 }, Date { year: 2025, month: 1, day: 1 }),
        (Date { year: 2025, month: 1, day: 28 }, Date { year: 2025, month: 2, day: 4 }),
        (Date { year: 2025, month: 4, day: 4 }, Date { year: 2025, month: 4, day: 6 }),
        (Date { year: 2025, month: 5, day: 1 }, Date { year: 2025, month: 5, day: 5 }),
        (Date { year: 2025, month: 5, day: 31 }, Date { year: 2025, month: 6, day: 2 }),
        (Date { year: 2025, month: 10, day: 1 }, Date { year: 2025, month: 10, day: 8 }),
        (Date { year: 2026, month: 1, day: 1 }, Date { year: 2026, month: 1, day: 1 }),
    ]
}

/// `date` lies in `range`, ends included.
pub open spec fn within(date: Date, range: (Date, Date)) -> bool {
    !precedes(date, range.0) && !precedes(range.1, date)
}

/// The index of the first of `ranges`, from `k` on, that `date` lies in.
pub open spec fn first_range(date: Date, ranges: Seq<(Date, Date)>, k: int) -> Option<int>
    decreases ranges.len() - k,
{
    if k < 0 || k >= ranges.len() {
        None
    } else if within(date, ranges[k]) {
        Some(k)
    } else {
        first_range(date, ranges, k + 1)
    }
}

/// The Chinese New Year that follows `date`: that of its year if `date` comes
/// before it, else that of the next year.
pub open spec fn next_chinese_new_year(date: Date) -> Date {
    if precedes(date, chinese_new_year(date.year as int)) {
        chinese_new_year(date.year as int)
    } else {
        chinese_new_year(date.year + 1)
    }
}

/// The Chinese New Year after `date` is among those of 2024 to 2026.
pub open spec fn knows_chinese_new_year(date: Date) -> bool {
    2024 <= date.year <= 2025 || (date.year == 2026 && precedes(date, chinese_new_year(2026)))
}

/// The days that the exchange stays closed, counted from `next`, the day after
/// today: up to the end of the holiday that `next` lies in; else none on a
/// day from Monday to Friday, two on a Saturday and one on a Sunday.
pub open spec fn exchange_wait(next: Date) -> int {
    match first_range(next, exchange_closures(), 0) {
        Some(k) => exchange_closures()[k].1.epoch() - next.epoch() + 1,
        None => {
            let w = weekday_of(next.year as int, next.month as int, next.day as int);
            if w < 6 {
                0
            } else {
                8 - w
            }
        },
    }
}

/// The date of the Thursday-side shift that the week number is read from:
/// forward to day 4 of the week before Thursday, back to it from Thursday on.
pub open spec fn week_anchor(year: int, month: int, day: int) -> (int, int, int) {
    let w = weekday_of(year, month, day);
    if w < 4 {
        later(year, month, day, 4 - w)
    } else {
        earlier(year, month, day, w - 4)
    }
}

/// The week number of a date: one more than the sevens in the day of the
/// year of its [`week_anchor`].
pub open spec fn week_of(year: int, month: int, day: int) -> int {
    let a = week_anchor(year, month, day);
    ordinal(a.0, a.1, a.2) / 7 + 1
}

impl Date {
    /// Whether `self` is a day that exists.
    pub fn is_valid(&self) -> (ok: bool)
        ensures
            ok == self.valid(),
    {
        1 <= self.month && self.month <= 12 && 1 <= self.day && self.day <= self.days_in_month()
    }

    /// The Chinese New Year of `year`, known for 2024 to 2026.
    pub fn query_chinese_new_year(year: u32) -> (date: Date)
        requires
            2024 <= year <= 2026,
        ensures
            date == chinese_new_year(year as int),
    {
        if year == 2024 {
            Date::new(2024, 2, 10)
        } else if year == 2025 {
            Date::new(2025, 1, 29)
        } else {
            Date::new(2026, 2, 17)
        }
    }

    /// The holidays of the exchange: see [`exchange_closures`].
    pub fn query_exchange_close_date() -> (ranges: Vec<(Date, Date)>)
        ensures
            ranges@ == exchange_closures(),
    {
        let mut ranges: Vec<(Date, Date)> = Vec::new();
        ranges.push((Date::new(2025, 1, 1), Date::new(2025, 1, 1)));
        ranges.push((Date::new(2025, 1, 28), Date::new(2025, 2, 4)));
        ranges.push((Date::new(2025, 4, 4), Date::new(2025, 4, 6)));
        ranges.push((Date::new(2025, 5, 1), Date::new(2025, 5, 5)));
        ranges.push((Date::new(2025, 5, 31), Date::new(2025, 6, 2)));
        ranges.push((Date::new(2025, 10, 1), Date::new(2025, 10, 8)));
        ranges.push((Date::new(2026, 1, 1), Date::new(2026, 1, 1)));
        proof {
            assert(ranges@ =~= exchange_closures());
        }
        ranges
    }

    /// Whether [`Date::days_to_chinese_new_year`] knows the Chinese New Year
    /// that follows `self`.
    pub fn knows_chinese_new_year(&self) -> (known: bool)
        ensures
            known == knows_chinese_new_year(*self),
    {
        (2024 <= self.year && self.year <= 2025) || (self.year == 2026 && *self
            < Date::query_chinese_new_year(2026))
    }

    /// The days from `self` to the next Chinese New Year.
    pub fn days_to_chinese_new_year(&self) -> (days: u32)
        requires
            self.valid(),
            knows_chinese_new_year(*self),
        ensures
            days == next_chinese_new_year(*self).epoch() - self.epoch(),
    {
        let date_of_cny = if *self < Date::query_chinese_new_year(self.year) {
            Date::query_chinese_new_year(self.year)
        } else {
            Date::query_chinese_new_year(self.year + 1)
        };
        proof {
            lemma_valid_ordinal(*self);
            lemma_valid_ordinal(date_of_cny);
            if self.year == date_of_cny.year {
                lemma_precedes_ordinal(*self, date_of_cny);
            } else {
                lemma_next_year_epoch(*self, date_of_cny);
            }
        }
        self.days_between_date(&date_of_cny)
    }

    /// The days that the exchange stays closed after `self`: see
    /// [`exchange_wait`], which counts from the day after `self`.
    pub fn days_to_exchange_open(&self) -> (days: u32)
        requires
            self.valid(),
            self.year < u32::MAX,
            weekday_fits(
                self.tomorrow().year as int,
                self.tomorrow().month as int,
                self.tomorrow().day as int,
            ),
        ensures
            days == exchange_wait(self.tomorrow()),
            self.tomorrow().triple() == later(
                self.year as int,
                self.month as int,
                self.day as int,
                1,
            ),
    {
        let date = self.date_after_days(1);
        proof {
            lemma_tomorrow_valid(*self);
            assert(date == self.tomorrow());
        }
        let weekday = date.weekday();
        let ranges = Date::query_exchange_close_date();
        let mut i: usize = 0;
        while i < ranges.len()
            invariant
                i <= ranges.len(),
                date.valid(),
                date == self.tomorrow(),
                self.tomorrow().triple() == later(
                    self.year as int,
                    self.month as int,
                    self.day as int,
                    1,
                ),
                ranges@ == exchange_closures(),
                first_range(date, exchange_closures(), i as int) == first_range(
                    date,
                    exchange_closures(),
                    0,
                ),
            decreases ranges.len() - i,
        {
            let (start, end) = ranges[i];
            if date >= start && date <= end {
                proof {
                    lemma_closures_valid(i as int);
                    lemma_valid_ordinal(date);
                    lemma_valid_ordinal(end);
                    if precedes(date, end) {
                        lemma_precedes_ordinal(date, end);
                    } else {
                        assert(date == end);
                    }
                }
                return date.days_between_date(&end) + 1;
            }
            i += 1;
        }
        if weekday < 6 {
            0
        } else {
            8 - weekday
        }
    }

    /// The day after `self`, for a day that exists.
    pub open spec fn tomorrow(self) -> Date {
        let t = later(self.year as int, self.month as int, self.day as int, 1);
        Date { year: t.0 as u32, month: t.1 as u32, day: t.2 as u32 }
    }

    /// The week number of `self`: see [`week_of`].
    pub fn iso_week(&self) -> (week: u32)
        requires
            self.valid(),
            1 <= self.year < u32::MAX,
            weekday_fits(self.year as int, self.month as int, self.day as int),
        ensures
            week == week_of(self.year as int, self.month as int, self.day as int),
    {
        proof {
            lemma_short_shift(*self);
        }
        let weekday = self.weekday();
        let date = if weekday < 4 {
            self.date_after_days(4 - weekday)
        } else {
            self.date_before_days(weekday - 4)
        };
        proof {
            reveal_with_fuel(days_before_month, 13);
        }
        let day = date.day_of_year();
        let week = day / 7 + 1;

        week
    }
}

} // verus!
