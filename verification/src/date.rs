//! Calendar dates. A `Date` always holds a valid proleptic Gregorian date in
//! the range `chrono::NaiveDate` accepts; every computation that the
//! calendar needs (parsing, printing, adding days) is done by `chrono`.
use vstd::prelude::*;

use chrono::Datelike;

use crate::text::{decimal, two_digits, zero_pad};

verus! {

/// Smallest year `chrono::NaiveDate` holds (`(i32::MIN >> 13) + 1`).
pub open spec fn min_year() -> int {
    -262143
}

/// Largest year `chrono::NaiveDate` holds (`(i32::MAX >> 13) - 1`).
pub open spec fn max_year() -> int {
    262142
}

pub open spec fn is_leap_year(y: int) -> bool {
    (y % 4 == 0 && y % 100 != 0) || y % 400 == 0
}

pub open spec fn days_in_month(y: int, m: int) -> int {
    if m == 2 {
        if is_leap_year(y) {
            29
        } else {
            28
        }
    } else if m == 4 || m == 6 || m == 9 || m == 11 {
        30
    } else {
        31
    }
}

/// The dates `NaiveDate::from_ymd_opt` accepts.
pub open spec fn valid_ymd(y: int, m: int, d: int) -> bool {
    &&& min_year() <= y <= max_year()
    &&& 1 <= m <= 12
    &&& 1 <= d <= days_in_month(y, m)
}

/// Days in the months of year `y` before month `m`.
pub open spec fn days_before_month(y: int, m: int) -> int
    decreases m,
{
    if m <= 1 {
        0
    } else {
        days_before_month(y, m - 1) + days_in_month(y, m - 1)
    }
}

/// The day number of a date in the proleptic Gregorian calendar, with
/// 0001-01-01 as day 1. `/` is floor division here, so the count goes on
/// below year 1.
pub open spec fn day_number(v: (int, int, int)) -> int {
    let y = v.0 - 1;
    365 * y + y / 4 - y / 100 + y / 400 + days_before_month(v.0, v.1) + v.2
}

/// A calendar date.
#[derive(Clone, Copy, Debug, PartialEq, Eq, Structural)]
pub struct Date {
    year: i32,
    month: u32,
    day: u32,
}

impl View for Date {
    type V = (int, int, int);

    open spec fn view(&self) -> (int, int, int) {
        (self.spec_year() as int, self.spec_month() as int, self.spec_day() as int)
    }
}

/// Strict chronological order on `(year, month, day)` triples.
pub open spec fn ymd_lt(a: (int, int, int), b: (int, int, int)) -> bool {
    ||| a.0 < b.0
    ||| a.0 == b.0 && a.1 < b.1
    ||| a.0 == b.0 && a.1 == b.1 && a.2 < b.2
}

/// Strict chronological order on dates.
pub open spec fn date_lt(a: Date, b: Date) -> bool {
    ymd_lt(a@, b@)
}

/// The later of two dates.
pub open spec fn date_max(a: Date, b: Date) -> Date {
    if date_lt(a, b) {
        b
    } else {
        a
    }
}

/// How `NaiveDate`'s `Display` prints a year: four digits for 0..=9999,
/// otherwise a sign and at least four digits.
pub open spec fn year_text(y: int) -> Seq<char> {
    if 0 <= y <= 9999 {
        zero_pad(decimal(y as nat), 4)
    } else if y < 0 {
        seq!['-'] + zero_pad(decimal((-y) as nat), 4)
    } else {
        seq!['+'] + zero_pad(decimal(y as nat), 4)
    }
}

/// How `NaiveDate`'s `Display` prints a date (`%Y-%m-%d`).
pub open spec fn date_text(v: (int, int, int)) -> Seq<char> {
    year_text(v.0) + seq!['-'] + two_digits(v.1 as nat) + seq!['-'] + two_digits(v.2 as nat)
}

/// What `NaiveDate::parse_from_str(s, "%Y-%m-%d")` yields.
pub uninterp spec fn chrono_parse_ymd(s: Seq<char>) -> Option<(int, int, int)>;

/// The date `n` days after `v` (before it for negative `n`): the valid
/// date, in the range of dates, whose day number is `n` more than `v`'s;
/// `None` when there is none. (Day numbers of valid dates differ, so there
/// is at most one.)
pub open spec fn shifted(v: (int, int, int), n: int) -> Option<(int, int, int)> {
    if exists|w: (int, int, int)| valid_ymd(w.0, w.1, w.2) && #[trigger] day_number(w) == day_number(v) + n {
        Some(choose|w: (int, int, int)| valid_ymd(w.0, w.1, w.2) && #[trigger] day_number(w) == day_number(v) + n)
    } else {
        None
    }
}

impl Date {
    #[verifier::type_invariant]
    pub open spec fn inv(self) -> bool {
        valid_ymd(self.spec_year() as int, self.spec_month() as int, self.spec_day() as int)
    }

    pub closed spec fn spec_year(&self) -> i32 {
        self.year
    }

    pub closed spec fn spec_month(&self) -> u32 {
        self.month
    }

    pub closed spec fn spec_day(&self) -> u32 {
        self.day
    }

    #[verifier::when_used_as_spec(spec_year)]
    pub fn year(&self) -> (r: i32)
        ensures
            r == self.spec_year(),
    {
        self.year
    }

    #[verifier::when_used_as_spec(spec_month)]
    pub fn month(&self) -> (r: u32)
        ensures
            r == self.spec_month(),
    {
        self.month
    }

    #[verifier::when_used_as_spec(spec_day)]
    pub fn day(&self) -> (r: u32)
        ensures
            r == self.spec_day(),
    {
        self.day
    }

    /// `NaiveDate::from_ymd_opt`. Claimed: a date exactly when the fields
    /// make one in `chrono`'s range (`valid_ymd`), and then that date.
    #[verifier::external_body]
    pub(crate) fn from_ymd_opt(year: i32, month: u32, day: u32) -> (r: Option<Date>)
        ensures
            r is Some <==> valid_ymd(year as int, month as int, day as int),
            r matches Some(d) ==> d@ == (year as int, month as int, day as int),
    {
        match chrono::NaiveDate::from_ymd_opt(year, month, day) {
            Some(n) => Some(Date { year: n.year(), month: n.month(), day: n.day() }),
            None => None,
        }
    }

    /// `NaiveDate::parse_from_str(s, "%Y-%m-%d")`. The contract only names
    /// the result (`chrono_parse_ymd`).
    #[verifier::external_body]
    pub(crate) fn parse_ymd(s: &str) -> (r: Option<Date>)
        ensures
            match chrono_parse_ymd(s@) {
                Some(v) => r matches Some(d) && d@ == v,
                None => r is None,
            },
    {
        match chrono::NaiveDate::parse_from_str(s, "%Y-%m-%d") {
            Ok(n) => Some(Date { year: n.year(), month: n.month(), day: n.day() }),
            Err(_) => None,
        }
    }

    /// `NaiveDate`'s `Display`. Claimed: it prints `date_text`, the year as
    /// `%Y` prints it, then the month and day with two digits each.
    #[verifier::external_body]
    pub(crate) fn to_text(&self) -> (r: String)
        ensures
            r@ == date_text(self@),
    {
        match chrono::NaiveDate::from_ymd_opt(self.year, self.month, self.day) {
            Some(n) => n.to_string(),
            None => String::new(),
        }
    }

    /// `self - TimeDelta::days(n)`, through `TimeDelta::try_days` and
    /// `checked_sub_signed`, `None` where the subtraction would panic.
    /// Claimed: the date `n` days earlier (`shifted`), `None` exactly when
    /// it is out of the range of dates.
    #[verifier::external_body]
    pub(crate) fn minus_days(&self, n: i64) -> (r: Option<Date>)
        ensures
            match shifted(self@, -n) {
                Some(v) => r matches Some(d) && d@ == v,
                None => r is None,
            },
    {
        let base = chrono::NaiveDate::from_ymd_opt(self.year, self.month, self.day);
        match (base, chrono::TimeDelta::try_days(n)) {
            (Some(b), Some(delta)) => match b.checked_sub_signed(delta) {
                Some(x) => Some(Date { year: x.year(), month: x.month(), day: x.day() }),
                None => None,
            },
            _ => None,
        }
    }

    /// `self + TimeDelta::days(n)`, through `TimeDelta::try_days` and
    /// `checked_add_signed`, `None` where the addition would panic.
    /// Claimed: the date `n` days later (`shifted`), `None` exactly when it
    /// is out of the range of dates.
    #[verifier::external_body]
    pub(crate) fn plus_days(&self, n: i64) -> (r: Option<Date>)
        ensures
            match shifted(self@, n as int) {
                Some(v) => r matches Some(d) && d@ == v,
                None => r is None,
            },
    {
        let base = chrono::NaiveDate::from_ymd_opt(self.year, self.month, self.day);
        match (base, chrono::TimeDelta::try_days(n)) {
            (Some(b), Some(delta)) => match b.checked_add_signed(delta) {
                Some(x) => Some(Date { year: x.year(), month: x.month(), day: x.day() }),
                None => None,
            },
            _ => None,
        }
    }

    /// `self - other` (`NaiveDate - NaiveDate`, a whole number of days),
    /// read by `TimeDelta::num_days`. Claimed: the difference of the two
    /// dates' day numbers.
    #[verifier::external_body]
    pub(crate) fn days_since(&self, other: &Date) -> (r: i64)
        ensures
            r == day_number(self@) - day_number(other@),
    {
        let a = chrono::NaiveDate::from_ymd_opt(self.year, self.month, self.day);
        let b = chrono::NaiveDate::from_ymd_opt(other.year, other.month, other.day);
        match (a, b) {
            (Some(a), Some(b)) => (a - b).num_days(),
            _ => 0,
        }
    }

    /// `self < other`.
    pub fn before(&self, other: &Date) -> (r: bool)
        ensures
            r == date_lt(*self, *other),
    {
        self.year < other.year || (self.year == other.year && self.month < other.month) || (
        self.year == other.year && self.month == other.month && self.day < other.day)
    }

    /// `self == other`.
    pub fn same(&self, other: &Date) -> (r: bool)
        ensures
            r == (*self == *other),
            r == (self@ == other@),
    {
        self.year == other.year && self.month == other.month && self.day == other.day
    }
}

pub proof fn lemma_date_eq(a: Date, b: Date)
    ensures
        a@ == b@ <==> a == b,
{
}

pub proof fn lemma_date_lt_total(a: Date, b: Date)
    ensures
        a == b || date_lt(a, b) || date_lt(b, a),
        !(date_lt(a, b) && date_lt(b, a)),
        !date_lt(a, a),
{
}

pub proof fn lemma_date_lt_transitive(a: Date, b: Date, c: Date)
    requires
        date_lt(a, b),
        date_lt(b, c),
    ensures
        date_lt(a, c),
{
}

} // verus!
