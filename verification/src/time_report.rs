//! Reading a date from text, and the line of day counts that is reported
//! for it.

use crate::calendar::{
    exchange_wait, knows_chinese_new_year, next_chinese_new_year, ordinal,
    week_of, weekday_of, year_length, Date,
};
use crate::calendar_laws::{lemma_later, lemma_valid_ordinal};
use crate::text::{
    chars_of, comma_separated, parse_u32, parsed_u32, pieces, push_decimal, split, string_of,
    views,
};
use vstd::prelude::*;

verus! {

/// Why a text is no date.
#[derive(Debug, Clone, Copy, PartialEq, Eq, Structural)]
pub enum ParseDateError {
    /// The text does not have three parts between hyphens.
    Format,
    /// The first part is no number.
    Year,
    /// The second part is no number.
    Month,
    /// The third part is no number.
    Day,
}

impl ParseDateError {
    /// The message of the error.
    pub open spec fn text(self) -> Seq<char> {
        match self {
            ParseDateError::Format => "Invalid date format"@,
            ParseDateError::Year => "Invalid year"@,
            ParseDateError::Month => "Invalid month"@,
            ParseDateError::Day => "Invalid day"@,
        }
    }

    /// The message of the error, as a string.
    pub fn message(&self) -> (message: String)
        ensures
            message@ == self.text(),
    {
        match self {
            ParseDateError::Format => "Invalid date format".to_owned(),
            ParseDateError::Year => "Invalid year".to_owned(),
            ParseDateError::Month => "Invalid month".to_owned(),
            ParseDateError::Day => "Invalid day".to_owned(),
        }
    }
}

/// The date that `s` stands for: a year, a month and a day as numbers, with a
/// hyphen between them. The numbers are not checked against the calendar.
pub open spec fn parsed_date(s: Seq<char>) -> Result<Date, ParseDateError> {
    let parts = pieces(s, '-');
    if parts.len() != 3 {
        Err(ParseDateError::Format)
    } else {
        match parsed_u32(parts[0]) {
            None => Err(ParseDateError::Year),
            Some(year) => match parsed_u32(parts[1]) {
                None => Err(ParseDateError::Month),
                Some(month) => match parsed_u32(parts[2]) {
                    None => Err(ParseDateError::Day),
                    Some(day) => Ok(Date { year, month, day }),
                },
            },
        }
    }
}

/// The numbers reported for `date`: its week, its day of the week, its day
/// of the year, the days left in the year, the days to the next Chinese New
/// Year and the days that the exchange stays closed after it.
pub open spec fn report_numbers(date: Date) -> Seq<nat> {
    let day = ordinal(date.year as int, date.month as int, date.day as int);
    seq![
        week_of(date.year as int, date.month as int, date.day as int) as nat,
        weekday_of(date.year as int, date.month as int, date.day as int) as nat,
        day as nat,
        (year_length(date.year as int) - day) as nat,
        (next_chinese_new_year(date).epoch() - date.epoch()) as nat,
        exchange_wait(date.tomorrow()) as nat,
    ]
}

/// [`report`] can be worked out for `date`: the day exists and the Chinese
/// New Year after it is known.
pub open spec fn reportable(date: Date) -> bool {
    date.valid() && knows_chinese_new_year(date)
}

impl Date {
    /// Reads a date written as year, month and day with hyphens between them.
    pub fn from_str(s: &str) -> (r: Result<Date, ParseDateError>)
        ensures
            r == parsed_date(s@),
    {
        let chars = chars_of(s);
        let parts = split(&chars, '-');
        if parts.len() != 3 {
            return Err(ParseDateError::Format);
        }
        proof {
            assert(views(parts@)[0] == parts@[0]@);
            assert(views(parts@)[1] == parts@[1]@);
            assert(views(parts@)[2] == parts@[2]@);
        }
        let year = match parse_u32(&parts[0]) {
            Some(year) => year,
            None => {
                return Err(ParseDateError::Year);
            },
        };
        let month = match parse_u32(&parts[1]) {
            Some(month) => month,
            None => {
                return Err(ParseDateError::Month);
            },
        };
        let day = match parse_u32(&parts[2]) {
            Some(day) => day,
            None => {
                return Err(ParseDateError::Day);
            },
        };
        Ok(Date::new(year, month, day))
    }

    /// Whether [`report`] can be worked out for `self`.
    pub fn is_reportable(&self) -> (ok: bool)
        ensures
            ok == reportable(*self),
    {
        self.is_valid() && self.knows_chinese_new_year()
    }
}

/// The numbers of [`report_numbers`] for `date`, with commas between them.
pub fn report(date: &Date) -> (line: String)
    requires
        reportable(*date),
    ensures
        line@ == comma_separated(report_numbers(*date)),
{
    proof {
        lemma_valid_ordinal(*date);
        lemma_later(date.year as int, date.month as int, date.day as int, 1);
    }
    let week = date.iso_week();
    let weekday = date.weekday();
    let day = date.day_of_year();
    let last = date.days_in_year() - day;
    let days_to_cny = date.days_to_chinese_new_year();
    let days_to_open = date.days_to_exchange_open();

    let mut out: Vec<char> = Vec::new();
    push_decimal(&mut out, week as u64);
    out.push(',');
    push_decimal(&mut out, weekday as u64);
    out.push(',');
    push_decimal(&mut out, day as u64);
    out.push(',');
    push_decimal(&mut out, last as u64);
    out.push(',');
    push_decimal(&mut out, days_to_cny as u64);
    out.push(',');
    push_decimal(&mut out, days_to_open as u64);
    proof {
        let n = report_numbers(*date);
        reveal_with_fuel(comma_separated, 7);
        assert(n.drop_last() =~= seq![n[0], n[1], n[2], n[3], n[4]]);
        assert(n.drop_last().drop_last() =~= seq![n[0], n[1], n[2], n[3]]);
        assert(n.drop_last().drop_last().drop_last() =~= seq![n[0], n[1], n[2]]);
        assert(n.drop_last().drop_last().drop_last().drop_last() =~= seq![n[0], n[1]]);
        assert(n.drop_last().drop_last().drop_last().drop_last().drop_last() =~= seq![n[0]]);
        assert(out@ =~= comma_separated(n));
    }
    string_of(&out)
}

/// The report for the date written in `time`.
pub fn time_info(time: &str) -> (line: String)
    requires
        parsed_date(time@) is Ok,
        reportable(parsed_date(time@)->Ok_0),
    ensures
        line@ == comma_separated(report_numbers(parsed_date(time@)->Ok_0)),
{
    let date = Date::from_str(time).unwrap();
    report(&date)
}

} // verus!
