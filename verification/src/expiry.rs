//! Expiry dates: reading a date as a day number, and finding the batches
//! that expire within a number of days.
//!
//! A date is written `YYYY-MM-DD`. Days are counted from 1970-01-01 in the
//! Gregorian calendar; a day of the month up to 31 is taken as it is, so
//! that the 30th of February is the 2nd of March.

use vstd::prelude::*;
use crate::catalog::{Catalog, CatalogView};
use crate::decimal::{digit_value, is_digit, is_digit_char};
use crate::rows::{lemma_views_push, views, Batch, BatchView};
use crate::text::chars_of;

verus! {

/// The leap years from the year 0 up to, not including, the year `y`.
pub open spec fn leap_years_before(y: int) -> int {
    (y + 3) / 4 - (y + 99) / 100 + (y + 399) / 400
}

/// The year `y` has a 29th of February.
pub open spec fn is_leap_year(y: int) -> bool {
    y % 4 == 0 && (y % 100 != 0 || y % 400 == 0)
}

/// The days of the year `y` before the first of the month `m`.
pub open spec fn days_before_month(y: int, m: int) -> int {
    let leap: int = if is_leap_year(y) && m > 2 {
        1
    } else {
        0
    };
    let before: int = if m == 1 {
        0
    } else if m == 2 {
        31
    } else if m == 3 {
        59
    } else if m == 4 {
        90
    } else if m == 5 {
        120
    } else if m == 6 {
        151
    } else if m == 7 {
        181
    } else if m == 8 {
        212
    } else if m == 9 {
        243
    } else if m == 10 {
        273
    } else if m == 11 {
        304
    } else {
        334
    };
    leap + before
}

/// The number of the day `d` of the month `m` of the year `y`, counted from
/// 1970-01-01, which is day 0.
pub open spec fn day_number(y: int, m: int, d: int) -> int {
    365 * y + leap_years_before(y) + days_before_month(y, m) + (d - 1) - 719528
}

/// The number that the two digits at `at` denote.
pub open spec fn two_digits(s: Seq<char>, at: int) -> int {
    digit_value(s[at]) * 10 + digit_value(s[at + 1])
}

/// The text has the shape of a date: four digits, a hyphen, two digits, a
/// hyphen, two digits.
pub open spec fn date_shaped(s: Seq<char>) -> bool {
    &&& s.len() == 10
    &&& is_digit(s[0]) && is_digit(s[1]) && is_digit(s[2]) && is_digit(s[3])
    &&& s[4] == '-'
    &&& is_digit(s[5]) && is_digit(s[6])
    &&& s[7] == '-'
    &&& is_digit(s[8]) && is_digit(s[9])
}

/// The day number of the date that a text denotes; `None` if the text has
/// not the shape of a date, its month is not 1 to 12 or its day not 1 to 31.
pub open spec fn date_of(s: Seq<char>) -> Option<int> {
    let y = two_digits(s, 0) * 100 + two_digits(s, 2);
    let m = two_digits(s, 5);
    let d = two_digits(s, 8);
    if date_shaped(s) && 1 <= m <= 12 && 1 <= d <= 31 {
        Some(day_number(y, m, d))
    } else {
        None
    }
}

/// The batch expires `days` days after the day `today` or earlier; a batch
/// that has expired already does so too. A batch whose expiry date is no
/// date does not.
pub open spec fn expires_within(today: i64, days: i64) -> spec_fn(BatchView) -> bool {
    |b: BatchView|
        match date_of(b.expiry_date) {
            Some(day) => day - today <= days,
            None => false,
        }
}

impl CatalogView {
    /// The batches that expire within `days` days of the day `today`, in the
    /// order in which they were created.
    pub open spec fn batches_expiring_within(self, today: i64, days: i64) -> Seq<BatchView> {
        self.batches.filter(expires_within(today, days))
    }
}

/// Decides whether a year has a 29th of February.
fn leap_year(y: i64) -> (r: bool)
    requires
        0 <= y <= 9999,
    ensures
        r == is_leap_year(y as int),
{
    y % 4 == 0 && (y % 100 != 0 || y % 400 == 0)
}

/// The number of a day, counted from 1970-01-01.
fn day_number_of(y: i64, m: i64, d: i64) -> (r: i64)
    requires
        0 <= y <= 9999,
        1 <= m <= 12,
        1 <= d <= 31,
    ensures
        r == day_number(y as int, m as int, d as int),
{
    let before: i64 = if m == 1 {
        0
    } else if m == 2 {
        31
    } else if m == 3 {
        59
    } else if m == 4 {
        90
    } else if m == 5 {
        120
    } else if m == 6 {
        151
    } else if m == 7 {
        181
    } else if m == 8 {
        212
    } else if m == 9 {
        243
    } else if m == 10 {
        273
    } else if m == 11 {
        304
    } else {
        334
    };
    let leap: i64 = if leap_year(y) && m > 2 {
        1
    } else {
        0
    };
    let leaps: i64 = (y + 3) / 4 - (y + 99) / 100 + (y + 399) / 400;
    365 * y + leaps + leap + before + (d - 1) - 719528
}

/// The number that a digit stands for.
fn digit_number(c: char) -> (r: i64)
    requires
        is_digit(c),
    ensures
        r == digit_value(c),
{
    (c as u32 - 48) as i64
}

/// Reads a date as a day number.
pub fn parse_date(s: &Vec<char>) -> (r: Option<i64>)
    ensures
        match r {
            Some(day) => date_of(s@) == Some(day as int),
            None => date_of(s@) is None,
        },
{
    if s.len() != 10 {
        return None;
    }
    if !(is_digit_char(s[0]) && is_digit_char(s[1]) && is_digit_char(s[2]) && is_digit_char(s[3])
        && s[4] == '-' && is_digit_char(s[5]) && is_digit_char(s[6]) && s[7] == '-'
        && is_digit_char(s[8]) && is_digit_char(s[9])) {
        return None;
    }
    let y: i64 = (digit_number(s[0]) * 10 + digit_number(s[1])) * 100 + digit_number(s[2]) * 10
        + digit_number(s[3]);
    let m: i64 = digit_number(s[5]) * 10 + digit_number(s[6]);
    let d: i64 = digit_number(s[8]) * 10 + digit_number(s[9]);
    if m < 1 || m > 12 || d < 1 || d > 31 {
        return None;
    }
    Some(day_number_of(y, m, d))
}

impl Catalog {
    /// The batches that expire within `days` days of `today`, where `today`
    /// is the number of the current day counted from 1970-01-01. Batches
    /// that have expired already are among them; batches whose expiry date
    /// is no date are not.
    pub fn batches_expiring_within(&self, today: i64, days: i64) -> (r: Vec<Batch>)
        ensures
            views(r@) == self@.batches_expiring_within(today, days),
    {
        let mut out: Vec<Batch> = Vec::new();
        let mut i: usize = 0;
        let ghost v = views(self.batches@);
        let ghost test = expires_within(today, days);
        proof {
            reveal(Seq::filter);
            assert(v.take(0) =~= Seq::<BatchView>::empty());
            assert(views(out@) =~= Seq::<BatchView>::empty());
        }
        while i < self.batches.len()
            invariant
                i <= self.batches.len(),
                v == views(self.batches@),
                test == expires_within(today, days),
                views(out@) == v.take(i as int).filter(test),
            decreases self.batches.len() - i,
        {
            proof {
                assert(v.take(i + 1) =~= v.take(i as int).push(v[i as int]));
                v.take(i as int).lemma_filter_push(v[i as int], test);
            }
            let date = chars_of(self.batches[i].expiry_date.as_str());
            match parse_date(&date) {
                Some(day) => {
                    if day as i128 - today as i128 <= days as i128 {
                        let row = self.batches[i].clone();
                        proof {
                            lemma_views_push(out@, row);
                        }
                        out.push(row);
                    }
                },
                None => {},
            }
            i += 1;
        }
        assert(v.take(self.batches.len() as int) =~= v);
        out
    }
}

} // verus!
