//! The month of retirement under the gradual raising of the retirement age.
//!
//! From 2025 on the age of retirement rises by one month for every few months
//! that the former date lies after the start, up to a limit that depends on
//! the kind of staff.

use crate::text::{chars_of, decimal, parse_u32, parsed_u32, pieces, push_decimal, split, string_of, views};
use vstd::prelude::*;

verus! {

/// The year in which the raising of the retirement age begins.
pub const START_YEAR: u32 = 2025;

/// The kinds of staff that the rules tell apart.
#[derive(Debug, Clone, Copy, PartialEq, Eq, Structural)]
pub enum Staff {
    /// Men, who retired at 60.
    Male,
    /// Women who retired at 55.
    Female55,
    /// Women who retired at 50.
    Female50,
}

impl Staff {
    /// The name that the kind is asked for by.
    pub open spec fn label(self) -> Seq<char> {
        match self {
            Staff::Male => "男职工"@,
            Staff::Female55 => "原法定退休年龄55周岁女职工"@,
            Staff::Female50 => "原法定退休年龄50周岁女职工"@,
        }
    }

    /// The age of retirement before the change.
    pub open spec fn former_age(self) -> nat {
        match self {
            Staff::Male => 60,
            Staff::Female55 => 55,
            Staff::Female50 => 50,
        }
    }

    /// The age of retirement at the end of the change.
    pub open spec fn max_age(self) -> nat {
        match self {
            Staff::Male => 63,
            Staff::Female55 => 58,
            Staff::Female50 => 55,
        }
    }

    /// The number of months after which the retirement moves by one month.
    pub open spec fn months_per_step(self) -> nat {
        match self {
            Staff::Male => 4,
            Staff::Female55 => 4,
            Staff::Female50 => 2,
        }
    }

    /// The former age, the final age and the months per step of the kind.
    pub fn rule(&self) -> (rule: (u32, u32, u32))
        ensures
            rule.0 == self.former_age(),
            rule.1 == self.max_age(),
            rule.2 == self.months_per_step(),
    {
        match self {
            Staff::Male => (60, 63, 4),
            Staff::Female55 => (55, 58, 4),
            Staff::Female50 => (50, 55, 2),
        }
    }
}

/// The kind of staff that `label` names, if it names one.
pub open spec fn staff_named(label: Seq<char>) -> Option<Staff> {
    if label == Staff::Male.label() {
        Some(Staff::Male)
    } else if label == Staff::Female55.label() {
        Some(Staff::Female55)
    } else if label == Staff::Female50.label() {
        Some(Staff::Female50)
    } else {
        None
    }
}

/// When someone retires, and how much later than before the change.
#[derive(Debug, Clone, Copy, PartialEq, Eq, Structural)]
pub struct Retirement {
    /// The year of retirement.
    pub year: u32,
    /// The month of retirement.
    pub month: u32,
    /// The months by which the retirement is delayed.
    pub delay_months: u32,
    /// The age at retirement in whole years.
    pub age_years: u32,
    /// The rest of the age at retirement in hundredths of a year, rounded.
    pub age_hundredths: u32,
}

/// The months by which the retirement is delayed for someone born in `month`
/// of `year`: none if the former retirement lies before the start; else the
/// months from the start to the former retirement, divided by the months
/// per step and rounded up, but no more than the change allows.
pub open spec fn delay_of(year: nat, month: nat, staff: Staff) -> nat {
    let former_year = year + staff.former_age();
    if former_year < START_YEAR {
        0
    } else {
        let months = (former_year - START_YEAR) * 12 + month;
        let steps = (months + staff.months_per_step() - 1) as nat / staff.months_per_step();
        let limit = (staff.max_age() - staff.former_age()) * 12;
        if steps < limit {
            steps
        } else {
            limit as nat
        }
    }
}

/// The retirement of someone born in `month` of `year`, as numbers that need
/// not fit into `u32`: the year, the month, the delay, and the age in years
/// and hundredths.
pub open spec fn retirement_numbers(year: nat, month: nat, staff: Staff) -> (nat, nat, nat, nat, nat) {
    let delay = delay_of(year, month, staff);
    let late_year = year + staff.former_age() + delay / 12;
    let late_month = month + delay % 12;
    let age_years = staff.former_age() + delay / 12;
    let age_hundredths = ((delay % 12) * 100 + 6) / 12;
    if late_month > 12 {
        (late_year + 1, (late_month - 12) as nat, delay, age_years, age_hundredths)
    } else {
        (late_year, late_month, delay, age_years, age_hundredths)
    }
}

/// The retirement can be worked out in `u32`.
pub open spec fn retirement_fits(year: nat, month: nat, staff: Staff) -> bool {
    let former_year = year + staff.former_age();
    &&& former_year <= u32::MAX
    &&& former_year >= START_YEAR ==> (former_year - START_YEAR) * 12 + month <= u32::MAX
    &&& month + delay_of(year, month, staff) % 12 <= u32::MAX
    &&& retirement_numbers(year, month, staff).0 <= u32::MAX
}

/// The retirement of someone born in `month` of `year`, where it fits.
pub open spec fn retirement_of(year: nat, month: nat, staff: Staff) -> Option<Retirement> {
    if retirement_fits(year, month, staff) {
        let n = retirement_numbers(year, month, staff);
        Some(
            Retirement {
                year: n.0 as u32,
                month: n.1 as u32,
                delay_months: n.2 as u32,
                age_years: n.3 as u32,
                age_hundredths: n.4 as u32,
            },
        )
    } else {
        None
    }
}

/// `n` in decimal, with a leading zero if it has one digit.
pub open spec fn two_digits(n: nat) -> Seq<char> {
    if n < 10 {
        seq!['0'] + decimal(n)
    } else {
        decimal(n)
    }
}

/// The age at retirement: whole years, and two decimals where the age is no
/// whole number of years.
pub open spec fn age_text(r: Retirement) -> Seq<char> {
    if r.delay_months % 12 != 0 {
        decimal(r.age_years as nat) + seq!['.'] + two_digits(r.age_hundredths as nat)
    } else {
        decimal(r.age_years as nat)
    }
}

/// The line that reports a retirement: year, hyphen, month in two digits,
/// then the age and the months of delay, each after a comma.
pub open spec fn retirement_line(r: Retirement) -> Seq<char> {
    decimal(r.year as nat) + seq!['-'] + two_digits(r.month as nat) + seq![','] + age_text(r)
        + seq![','] + decimal(r.delay_months as nat)
}

/// The number that a part of the birth month stands for, and 0 if it is none.
pub open spec fn number_or_zero(part: Seq<char>) -> nat {
    match parsed_u32(part) {
        Some(n) => n as nat,
        None => 0,
    }
}

/// What [`retire_time`] answers for a birth month `time`, written as year and
/// month with a hyphen between them, and a kind of staff `tp`. There is no
/// answer if `time` does not have two parts, if `tp` names no kind of staff,
/// or if the numbers do not fit.
pub open spec fn retirement_answer(time: Seq<char>, tp: Seq<char>) -> Option<Seq<char>> {
    let parts = pieces(time, '-');
    if parts.len() != 2 {
        None
    } else {
        match staff_named(tp) {
            None => None,
            Some(staff) => match retirement_of(
                number_or_zero(parts[0]),
                number_or_zero(parts[1]),
                staff,
            ) {
                None => None,
                Some(r) => Some(retirement_line(r)),
            },
        }
    }
}

/// Whether `chars` are the characters of `text`.
fn same_text(chars: &Vec<char>, text: &str) -> (same: bool)
    ensures
        same == (chars@ == text@),
{
    let other = chars_of(text);
    if chars.len() != other.len() {
        return false;
    }
    let mut i: usize = 0;
    while i < chars.len()
        invariant
            i <= chars.len(),
            chars.len() == other.len(),
            other@ == text@,
            forall|k: int| 0 <= k < i ==> chars@[k] == other@[k],
        decreases chars.len() - i,
    {
        if chars[i] != other[i] {
            return false;
        }
        i += 1;
    }
    proof {
        assert(chars@ =~= other@);
    }
    true
}

/// The kind of staff that `tp` names.
pub fn staff_of(tp: &str) -> (staff: Option<Staff>)
    ensures
        staff == staff_named(tp@),
{
    let chars = chars_of(tp);
    if same_text(&chars, "男职工") {
        Some(Staff::Male)
    } else if same_text(&chars, "原法定退休年龄55周岁女职工") {
        Some(Staff::Female55)
    } else if same_text(&chars, "原法定退休年龄50周岁女职工") {
        Some(Staff::Female50)
    } else {
        None
    }
}

/// Works out the retirement of someone born in `month` of `year`.
pub fn retirement(year: u32, month: u32, staff: Staff) -> (r: Option<Retirement>)
    ensures
        r == retirement_of(year as nat, month as nat, staff),
{
    let (former_age, max_age, annual_delay) = staff.rule();
    let former_retire_year = match year.checked_add(former_age) {
        Some(y) => y,
        None => {
            return None;
        },
    };
    let delay_months: u32 = if former_retire_year < START_YEAR {
        0
    } else {
        let whole = match (former_retire_year - START_YEAR).checked_mul(12) {
            Some(m) => m,
            None => {
                return None;
            },
        };
        let months = match whole.checked_add(month) {
            Some(m) => m,
            None => {
                return None;
            },
        };
        assert(annual_delay == 2 || annual_delay == 4);
        let steps = months / annual_delay + if months % annual_delay != 0 {
            1
        } else {
            0
        };
        proof {
            lemma_round_up(months as nat, annual_delay as nat);
        }
        let limit = (max_age - former_age) * 12;
        if steps < limit {
            steps
        } else {
            limit
        }
    };
    assert(delay_months == delay_of(year as nat, month as nat, staff));
    assert(delay_months <= 60);

    let delay_years = delay_months / 12;
    let mut retire_year = match former_retire_year.checked_add(delay_years) {
        Some(y) => y,
        None => {
            return None;
        },
    };
    let mut retire_month = match month.checked_add(delay_months % 12) {
        Some(m) => m,
        None => {
            return None;
        },
    };
    if retire_month > 12 {
        retire_year = match retire_year.checked_add(1) {
            Some(y) => y,
            None => {
                return None;
            },
        };
        retire_month -= 12;
    }
    Some(
        Retirement {
            year: retire_year,
            month: retire_month,
            delay_months,
            age_years: former_age + delay_years,
            age_hundredths: ((delay_months % 12) * 100 + 6) / 12,
        },
    )
}

/// Dividing and adding one for a remainder rounds the quotient up.
proof fn lemma_round_up(a: nat, b: nat)
    requires
        b == 2 || b == 4,
    ensures
        (a + b - 1) as nat / b == a / b + (if a % b != 0 {
            1nat
        } else {
            0nat
        }),
{
}

/// Appends `n` in decimal, with a leading zero if it has one digit.
fn push_two_digits(out: &mut Vec<char>, n: u32)
    ensures
        final(out)@ == old(out)@ + two_digits(n as nat),
{
    if n < 10 {
        out.push('0');
    }
    push_decimal(out, n as u64);
    proof {
        if n < 10 {
            assert(old(out)@.push('0') + decimal(n as nat) =~= old(out)@ + (seq!['0'] + decimal(
                n as nat,
            )));
        }
    }
}

/// The line that reports `r`: see [`retirement_line`].
pub fn retirement_text(r: &Retirement) -> (line: String)
    ensures
        line@ == retirement_line(*r),
{
    let mut out: Vec<char> = Vec::new();
    push_decimal(&mut out, r.year as u64);
    out.push('-');
    push_two_digits(&mut out, r.month);
    out.push(',');
    push_decimal(&mut out, r.age_years as u64);
    if r.delay_months % 12 != 0 {
        out.push('.');
        push_two_digits(&mut out, r.age_hundredths);
    }
    out.push(',');
    push_decimal(&mut out, r.delay_months as u64);
    proof {
        assert(out@ =~= retirement_line(*r));
    }
    string_of(&out)
}

/// The answer of [`retire_time`], or `None` where it has none: see
/// [`retirement_answer`].
pub fn try_retire_time(time: &str, tp: &str) -> (line: Option<String>)
    ensures
        match retirement_answer(time@, tp@) {
            Some(text) => line is Some && line->0@ == text,
            None => line is None,
        },
{
    let chars = chars_of(time);
    let parts = split(&chars, '-');
    if parts.len() != 2 {
        return None;
    }
    proof {
        assert(views(parts@)[0] == parts@[0]@);
        assert(views(parts@)[1] == parts@[1]@);
    }
    let year = match parse_u32(&parts[0]) {
        Some(n) => n,
        None => 0,
    };
    let month = match parse_u32(&parts[1]) {
        Some(n) => n,
        None => 0,
    };
    let staff = match staff_of(tp) {
        Some(staff) => staff,
        None => {
            return None;
        },
    };
    match retirement(year, month, staff) {
        Some(r) => Some(retirement_text(&r)),
        None => None,
    }
}

/// The month of retirement, the age at retirement and the months of delay
/// for someone born in the month `time`, written as year and month with a
/// hyphen between them, of the kind of staff that `tp` names.
///
/// A part of `time` that is no number counts as 0.
pub fn retire_time(time: &str, tp: &str) -> (line: String)
    requires
        retirement_answer(time@, tp@) is Some,
    ensures
        line@ == retirement_answer(time@, tp@)->0,
{
    try_retire_time(time, tp).unwrap()
}

} // verus!
