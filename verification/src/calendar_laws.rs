//! Laws of the calendar: how the day counts of [`crate::calendar`] hang
//! together.

use crate::calendar::{
    Date, days_before_month, days_in_years, earlier, epoch_day, exchange_closures, is_leap, later, month_after, month_before, month_length, ordinal, precedes, roll_back, roll_forward, weekday_of, within, year_length,
};
use vstd::prelude::*;

verus! {

/// A day that exists has a place in its year.
pub proof fn lemma_valid_ordinal(date: Date)
    requires
        date.valid(),
    ensures
        1 <= ordinal(date.year as int, date.month as int, date.day as int) <= year_length(
            date.year as int,
        ),
{
    reveal_with_fuel(days_before_month, 13);
}

/// Of two days of one year that exist, the one that comes first by month and
/// day has the smaller number.
pub proof fn lemma_precedes_ordinal(a: Date, b: Date)
    requires
        a.valid(),
        b.valid(),
        a.year == b.year,
        precedes(a, b),
    ensures
        a.epoch() < b.epoch(),
{
    reveal_with_fuel(days_before_month, 13);
}

/// A day of the year after comes later, by less than two years.
pub proof fn lemma_next_year_epoch(a: Date, b: Date)
    requires
        a.valid(),
        b.valid(),
        a.year + 1 == b.year,
    ensures
        0 < b.epoch() - a.epoch() <= 732,
{
    lemma_valid_ordinal(a);
    lemma_valid_ordinal(b);
    reveal_with_fuel(days_in_years, 2);
}

/// The day after a day that exists exists too.
pub proof fn lemma_tomorrow_valid(date: Date)
    requires
        date.valid(),
        date.year < u32::MAX,
    ensures
        date.tomorrow().valid(),
        date.tomorrow().triple() == later(
            date.year as int,
            date.month as int,
            date.day as int,
            1,
        ),
        date.tomorrow().year <= date.year + 1,
{
    reveal_with_fuel(roll_forward, 2);
}

/// The holidays of the exchange begin and end on days that exist, within one
/// year.
pub proof fn lemma_closures_valid(k: int)
    requires
        0 <= k < exchange_closures().len(),
    ensures
        exchange_closures()[k].0.valid(),
        exchange_closures()[k].1.valid(),
        exchange_closures()[k].0.year == exchange_closures()[k].1.year,
{
}

/// A shift by at most three days stays within a year of the date.
pub proof fn lemma_short_shift(date: Date)
    requires
        date.valid(),
        1 <= date.year < u32::MAX,
    ensures
        forall|k: int|
            0 <= k <= 3 ==> {
                let t = #[trigger] later(date.year as int, date.month as int, date.day as int, k);
                t.0 <= date.year + 1 && 1 <= t.1 <= 12 && 1 <= t.2 <= 31
            },
        forall|k: int|
            0 <= k <= 3 ==> {
                let t = #[trigger] earlier(date.year as int, date.month as int, date.day as int, k);
                t.0 >= date.year - 1 && 1 <= t.1 <= 12 && 1 <= t.2 <= 31
            },
{
    reveal_with_fuel(roll_forward, 2);
    reveal_with_fuel(roll_back, 2);
}

/// The first of a month comes as many days after the first of the month
/// before as that month is long.
pub proof fn lemma_month_step(year: int, month: int)
    requires
        year >= 0,
        1 <= month <= 12,
    ensures
        epoch_day(month_after(year, month).0, month_after(year, month).1, 0) == epoch_day(
            year,
            month,
            0,
        ) + month_length(year, month),
{
    reveal_with_fuel(days_before_month, 13);
    reveal_with_fuel(days_in_years, 2);
}

/// Rolling forward by `rest` days from the first of a month arrives `rest`
/// days later, on a day between the first of a month and the day after its
/// last.
pub proof fn lemma_roll_forward_epoch(year: int, month: int, rest: int)
    requires
        year >= 0,
        1 <= month <= 12,
        rest >= 0,
    ensures
        ({
            let r = roll_forward(year, month, rest);
            &&& epoch_day(r.0, r.1, r.2) == epoch_day(year, month, 1) + rest
            &&& 1 <= r.1 <= 12
            &&& 1 <= r.2 <= month_length(r.0, r.1) + 1
            &&& r.0 >= year
        }),
    decreases rest,
{
    if rest > month_length(year, month) {
        lemma_month_step(year, month);
        lemma_roll_forward_epoch(
            month_after(year, month).0,
            month_after(year, month).1,
            rest - month_length(year, month),
        );
    }
}

/// Rolling back by `rest` days from the last of a month arrives `rest` days
/// earlier, on a day between the day before the first of a month and its last.
pub proof fn lemma_roll_back_epoch(year: int, month: int, rest: int)
    requires
        1 <= month <= 12,
        rest >= 0,
        roll_back(year, month, rest).0 >= 0,
    ensures
        ({
            let r = roll_back(year, month, rest);
            &&& epoch_day(r.0, r.1, r.2) == epoch_day(year, month, month_length(year, month)) - rest
            &&& 1 <= r.1 <= 12
            &&& 0 <= r.2 <= month_length(r.0, r.1)
            &&& r.0 <= year
        }),
    decreases rest,
{
    if rest > month_length(year, month) {
        let b = month_before(year, month);
        lemma_roll_back_year(b.0, b.1, rest - month_length(year, month));
        lemma_month_step(b.0, b.1);
        lemma_roll_back_epoch(b.0, b.1, rest - month_length(year, month));
    }
}

/// [`later`] arrives `days` days later, in a month from 1 to 12.
pub proof fn lemma_later(year: int, month: int, day: int, days: int)
    requires
        year >= 0,
        1 <= month <= 12,
        0 <= day <= month_length(year, month),
        days >= 0,
    ensures
        ({
            let r = later(year, month, day, days);
            &&& epoch_day(r.0, r.1, r.2) == epoch_day(year, month, day) + days
            &&& 1 <= r.1 <= 12
            &&& 0 <= r.2 <= month_length(r.0, r.1) + 1
        }),
{
    let to_next = month_length(year, month) - day + 1;
    if days >= to_next {
        lemma_month_step(year, month);
        lemma_roll_forward_epoch(
            month_after(year, month).0,
            month_after(year, month).1,
            days - to_next,
        );
    }
}

/// [`earlier`] arrives `days` days earlier, in a month from 1 to 12.
pub proof fn lemma_earlier(year: int, month: int, day: int, days: int)
    requires
        1 <= month <= 12,
        0 <= day,
        days >= 0,
        earlier(year, month, day, days).0 >= 0,
    ensures
        ({
            let r = earlier(year, month, day, days);
            &&& epoch_day(r.0, r.1, r.2) == epoch_day(year, month, day) - days
            &&& 1 <= r.1 <= 12
            &&& 0 <= r.2
        }),
{
    if days >= day {
        let b = month_before(year, month);
        lemma_roll_back_year(b.0, b.1, days - day);
        lemma_month_step(b.0, b.1);
        lemma_roll_back_epoch(b.0, b.1, days - day);
    }
}

/// One year more adds one to the count of the multiples of `step` below the
/// year if the year is one, else nothing.
proof fn lemma_multiples_below(year: int, step: int)
    requires
        year >= 0,
        step == 4 || step == 100 || step == 400,
    ensures
        (year + step) / step - (year + step - 1) / step == (if year % step == 0 {
            1int
        } else {
            0int
        }),
{
}

/// The days of the years before `year`, in closed form: 365 for each, and
/// one more for each leap year among them.
pub proof fn lemma_days_in_years_closed(year: int)
    requires
        year >= 0,
    ensures
        days_in_years(0, year) == 365 * year + (year + 3) / 4 - (year + 99) / 100 + (year + 399)
            / 400,
    decreases year,
{
    if year > 0 {
        let k = year - 1;
        lemma_days_in_years_closed(k);
        lemma_multiples_below(k, 4);
        lemma_multiples_below(k, 100);
        lemma_multiples_below(k, 400);
        assert(days_in_years(0, year) == days_in_years(0, k) + year_length(k));
        assert(year_length(k) == 365 + (if k % 4 == 0 {
            1int
        } else {
            0int
        }) - (if k % 100 == 0 {
            1int
        } else {
            0int
        }) + (if k % 400 == 0 {
            1int
        } else {
            0int
        }));
    }
}

/// The multiples of `step` below a year, counted from the year itself and
/// from the year before.
proof fn lemma_multiples_up_to(year: int, step: int)
    requires
        year >= 1,
        step == 4 || step == 100 || step == 400,
    ensures
        (year + step - 1) / step + (if year % step == 0 {
            1int
        } else {
            0int
        }) == year / step + 1,
        (year + step - 1) / step == (year - 1) / step + 1,
{
}

/// The leap years up to `year`, counted in two ways.
proof fn lemma_leap_count(year: int)
    requires
        year >= 1,
    ensures
        (year + 3) / 4 - (year + 99) / 100 + (year + 399) / 400 + (if is_leap(year) {
            1int
        } else {
            0int
        }) == year / 4 - year / 100 + year / 400 + 1,
        (year + 3) / 4 - (year + 99) / 100 + (year + 399) / 400 == (year - 1) / 4 - (year - 1)
            / 100 + (year - 1) / 400 + 1,
{
    lemma_multiples_up_to(year, 4);
    lemma_multiples_up_to(year, 100);
    lemma_multiples_up_to(year, 400);
    assert((if is_leap(year) {
        1int
    } else {
        0int
    }) == (if year % 4 == 0 {
        1int
    } else {
        0int
    }) - (if year % 100 == 0 {
        1int
    } else {
        0int
    }) + (if year % 400 == 0 {
        1int
    } else {
        0int
    }));
}

/// The days before each month of a common year.
pub proof fn lemma_days_before_month_table()
    ensures
        days_before_month(1) == 0,
        days_before_month(2) == 31,
        days_before_month(3) == 59,
        days_before_month(4) == 90,
        days_before_month(5) == 120,
        days_before_month(6) == 151,
        days_before_month(7) == 181,
        days_before_month(8) == 212,
        days_before_month(9) == 243,
        days_before_month(10) == 273,
        days_before_month(11) == 304,
        days_before_month(12) == 334,
{
    reveal_with_fuel(days_before_month, 13);
}

/// The month term of the formula differs from the days before the month by
/// a multiple of 7, and by one more for January and February.
pub proof fn lemma_month_term(month: int)
    requires
        1 <= month <= 12,
    ensures
        month >= 3 ==> (13 * (month + 1) / 5 - days_before_month(month)) % 7 == 0,
        month < 3 ==> (13 * (month + 13) / 5 - days_before_month(month) - 1) % 7 == 0,
{
    lemma_days_before_month_table();
    if month == 1 {
    } else if month == 2 {
    } else if month == 3 {
    } else if month == 4 {
    } else if month == 5 {
    } else if month == 6 {
    } else if month == 7 {
    } else if month == 8 {
    } else if month == 9 {
    } else if month == 10 {
    } else if month == 11 {
    } else {
    }
}

/// Numbers that differ by a multiple of 7 give the same day of the week.
pub proof fn lemma_same_weekday(z: int, e: int)
    requires
        (z + 1 - e) % 7 == 0,
    ensures
        ((z % 7) + 5) % 7 == (e + 4) % 7,
{
    let k = (z + 1 - e) / 7;
    vstd::arithmetic::div_mod::lemma_fundamental_div_mod(z + 1 - e, 7);
    assert(z == 7 * k + (e - 1));
    vstd::arithmetic::div_mod::lemma_mod_multiples_vanish(k, e - 1, 7);
    assert(z % 7 == (e - 1) % 7);
    vstd::arithmetic::div_mod::lemma_add_mod_noop(e - 1, 5, 7);
    vstd::arithmetic::div_mod::lemma_small_mod(5, 7);
    assert(e - 1 + 5 == e + 4);
}

/// The day of the week goes round with the days: it is the number of the day
/// modulo 7, shifted so that Monday is 1.
pub proof fn lemma_weekday_by_epoch(year: int, month: int, day: int)
    requires
        year >= 1,
        1 <= month <= 12,
        day >= 0,
    ensures
        weekday_of(year, month, day) == (epoch_day(year, month, day) + 4) % 7 + 1,
{
    lemma_days_in_years_closed(year);
    lemma_leap_count(year);
    lemma_month_term(month);
    let y = if month < 3 {
        year - 1
    } else {
        year
    };
    let m = if month < 3 {
        month + 12
    } else {
        month
    };
    let years = y + y / 4 - y / 100 + y / 400;
    let term = 13 * (m + 1) / 5;
    let before = days_before_month(month);
    let z = day + term + y + y / 4 - y / 100 + y / 400;
    let e = epoch_day(year, month, day);
    if month < 3 {
        assert(e == 365 * year + (years - y) + 1 + before + day);
        assert(z + 1 - e == (term - before - 1) - 7 * (52 * year));
    } else {
        assert(e == 365 * year + (years - y) + 1 + before + day);
        assert(z + 1 - e == (term - before) - 7 * (52 * year));
    }
    lemma_shift_by_sevens(term - before - (if month < 3 {
        1int
    } else {
        0int
    }), 52 * year);
    lemma_same_weekday(z, e);
}

/// A multiple of 7 less a multiple of 7 is one.
pub proof fn lemma_shift_by_sevens(x: int, k: int)
    requires
        x % 7 == 0,
    ensures
        (x - 7 * k) % 7 == 0,
{
    vstd::arithmetic::div_mod::lemma_mod_multiples_vanish(-k, x, 7);
    assert(7 * (-k) + x == x - 7 * k);
}

/// The day after, the day of the week is the next one, and Monday after
/// Sunday.
pub proof fn lemma_weekday_of_next_day(date: Date, next: Date)
    requires
        date.year >= 1,
        1 <= date.month <= 12,
        1 <= next.month <= 12,
        next.epoch() == date.epoch() + 1,
        next.year >= 1,
    ensures
        weekday_of(next.year as int, next.month as int, next.day as int) == weekday_of(
            date.year as int,
            date.month as int,
            date.day as int,
        ) % 7 + 1,
{
    lemma_weekday_by_epoch(date.year as int, date.month as int, date.day as int);
    lemma_weekday_by_epoch(next.year as int, next.month as int, next.day as int);
}

/// Rolling forward never goes back in years.
pub proof fn lemma_roll_forward_year(year: int, month: int, rest: int)
    ensures
        roll_forward(year, month, rest).0 >= year,
    decreases rest,
{
    if 1 <= month <= 12 && rest > month_length(year, month) {
        lemma_roll_forward_year(
            month_after(year, month).0,
            month_after(year, month).1,
            rest - month_length(year, month),
        );
    }
}

/// Rolling back never goes forward in years.
pub proof fn lemma_roll_back_year(year: int, month: int, rest: int)
    ensures
        roll_back(year, month, rest).0 <= year,
    decreases rest,
{
    if 1 <= month <= 12 && rest > month_length(year, month) {
        lemma_roll_back_year(
            month_before(year, month).0,
            month_before(year, month).1,
            rest - month_length(year, month),
        );
    }
}

/// The days of a range of years are those of its two parts.
pub proof fn lemma_days_in_years_split(from: int, mid: int, to: int)
    requires
        from <= mid <= to,
    ensures
        days_in_years(from, to) == days_in_years(from, mid) + days_in_years(mid, to),
    decreases to - mid,
{
    if mid < to {
        lemma_days_in_years_split(from, mid, to - 1);
    }
}

/// The days of a range of years grow with the range.
pub proof fn lemma_days_in_years_monotone(from: int, mid: int, to: int)
    requires
        from <= mid <= to,
    ensures
        0 <= days_in_years(from, mid) <= days_in_years(from, to),
        mid < to ==> days_in_years(from, mid) + year_length(mid) <= days_in_years(from, to),
    decreases to - mid,
{
    if mid < to {
        lemma_days_in_years_monotone(from, mid, to - 1);
        if mid < to - 1 {
        } else {
            lemma_days_in_years_nonnegative(from, mid);
        }
    } else {
        lemma_days_in_years_nonnegative(from, mid);
    }
}

/// The days of a range of years are not negative.
pub proof fn lemma_days_in_years_nonnegative(from: int, to: int)
    ensures
        0 <= days_in_years(from, to),
    decreases to - from,
{
    if from < to {
        lemma_days_in_years_nonnegative(from, to - 1);
    }
}

/// The number of a day in its year is at least the day.
pub proof fn lemma_ordinal_nonnegative(year: int, month: int, day: int)
    ensures
        ordinal(year, month, day) >= day,
{
    lemma_days_before_month_nonnegative(month);
}

/// The days before a month grow with the month.
pub proof fn lemma_days_before_month_monotone(a: int, b: int)
    requires
        a <= b,
    ensures
        0 <= days_before_month(a) <= days_before_month(b),
    decreases b - a,
{
    if a < b {
        lemma_days_before_month_monotone(a, b - 1);
    } else {
        lemma_days_before_month_nonnegative(a);
    }
}

/// The days before a month are not negative.
pub proof fn lemma_days_before_month_nonnegative(a: int)
    ensures
        0 <= days_before_month(a),
    decreases a,
{
    if a > 1 {
        lemma_days_before_month_nonnegative(a - 1);
    }
}

} // verus!
