//! Match dates: the day numbers of `dd/mm/yy` dates.

use vstd::prelude::*;
use chrono::Datelike;

verus! {

/// The day number that chrono gives a text in the format `%d/%m/%y`:
/// `NaiveDate::parse_from_str` reads the date and `Datelike::num_days_from_ce`
/// counts its days from January 1 of year 1, counted as day 1; `None` when
/// the text is not such a date.
pub uninterp spec fn dmy_days(s: Seq<char>) -> Option<i32>;

/// The day number of a `dd/mm/yy` date: chrono's `NaiveDate::parse_from_str`
/// with the format `%d/%m/%y`, then `Datelike::num_days_from_ce` of the date
/// it gives. The contract claims that the result is a function of the text
/// (named `dmy_days`) and, from chrono's source, that a two-digit year stands
/// for a year from 1970 to 2069, so that the day number lies from that of
/// 1970-01-01 to that of 2069-12-31.
#[verifier::external_body]
pub(crate) fn dmy_day_number(s: &str) -> (r: Option<i32>)
    ensures
        r == dmy_days(s@),
        r matches Some(n) ==> 719163 <= n <= 755687,
{
    chrono::NaiveDate::parse_from_str(s, "%d/%m/%y").ok().map(|d| d.num_days_from_ce())
}

} // verus!
