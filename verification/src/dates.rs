//! Calendar dates, through `chrono`.
//!
//! Dates are handled as day numbers (`Datelike::num_days_from_ce`: 1 for
//! 0001-01-01), so that comparing dates is comparing integers and going back
//! `n` days is subtracting `n`.

use vstd::prelude::*;

verus! {

/// The day number of `chrono::NaiveDate::MIN` (-262143-01-01), the earliest
/// date `chrono` represents; stepping back past it panics in `chrono`.
pub const MIN_DATE_DAYS: i64 = -95746129;

/// The day number of the date that `NaiveDate::parse_from_str(text, fmt)`
/// reads, or `None` when it does not read one.
pub uninterp spec fn date_days(text: Seq<char>, fmt: Seq<char>) -> Option<i32>;

/// `%Y-%m-%d`
pub open spec fn ymd() -> Seq<char> {
    seq!['%', 'Y', '-', '%', 'm', '-', '%', 'd']
}

/// Calls `chrono::NaiveDate::parse_from_str` and converts a parsed date to
/// its day number (`num_days_from_ce`). Claims that the outcome is a
/// function of the text and the format, named `date_days`.
#[verifier::external_body]
pub(crate) fn parse_date_days(text: &str, fmt: &str) -> (r: Option<i32>)
    ensures
        r == date_days(text@, fmt@),
{
    match chrono::NaiveDate::parse_from_str(text, fmt) {
        Ok(d) => Some(chrono::Datelike::num_days_from_ce(&d)),
        Err(_) => None,
    }
}

/// The `%Y-%m-%d` format.
pub fn ymd_format() -> (r: String)
    ensures
        r@ == ymd(),
{
    let s = crate::text::chars_of("%Y-%m-%d");
    proof {
        reveal_strlit("%Y-%m-%d");
    }
    assert(s@ =~= ymd());
    crate::text::string_of(s.as_slice())
}

/// The day number of a `YYYY-MM-DD` date.
pub open spec fn ymd_days(text: Seq<char>) -> Option<i32> {
    date_days(text, ymd())
}

/// Parses a `YYYY-MM-DD` date into its day number.
pub fn parse_ymd(text: &str) -> (r: Option<i32>)
    ensures
        r == ymd_days(text@),
{
    let f = ymd_format();
    parse_date_days(text, f.as_str())
}

} // verus!
