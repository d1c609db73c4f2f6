//! Day numbers counted from the start of the proleptic Gregorian era.

use vstd::prelude::*;

verus! {

use vstd::arithmetic::div_mod::{
    lemma_fundamental_div_mod,
    lemma_fundamental_div_mod_converse,
};
use crate::interval::{
    count_multiples,
    in_between,
    in_between_spec,
    lemma_ceil_div_range,
    lemma_in_between_counts,
    lemma_unit_divisor,
};

/// Least year accepted by [`num_days_from_ce_alt`]; with the 32-bit
/// arithmetic inherited from the interval count, wider years overflow.
pub const MIN_YEAR: i32 = -5_000_000;

/// Greatest year accepted by [`num_days_from_ce_alt`].
pub const MAX_YEAR: i32 = 5_000_000;

/// The Gregorian leap rule: every fourth year is a leap year, except every
/// hundredth, except again every four-hundredth.
pub open spec fn is_leap_year(y: int) -> bool {
    (y % 4 == 0 && y % 100 != 0) || y % 400 == 0
}

/// The number of days in year `y`.
pub open spec fn year_length(y: int) -> int {
    if is_leap_year(y) { 366 } else { 365 }
}

/// The number of leap years in the half-open interval of years `[s, e)`.
pub open spec fn leap_count(s: int, e: int) -> int
    decreases e - s,
{
    if s >= e {
        0
    } else {
        (if is_leap_year(s) { 1int } else { 0int }) + leap_count(s + 1, e)
    }
}

/// Signed number of leap days separating year 1 from year `y`: the leap
/// years in `[1, y)`, negated when `y` lies before year 1.
pub open spec fn leap_days_between(y: int) -> int {
    if y >= 1 { leap_count(1, y) } else { -leap_count(y, 1) }
}

/// The 1-based day number of the date `(y, o)` counted from January 1 of
/// year 1: the ordinal `o`, plus 365 days for every year between year 1 and
/// year `y`, plus one more for each leap year among them.
pub open spec fn days_from_ce(y: int, o: int) -> int {
    o + 365 * (y - 1) + leap_days_between(y)
}

/// A date exposing a year and the 1-based ordinal of its day in that year.
pub trait Datelike {
    /// The date's proleptic Gregorian year, as a mathematical integer.
    spec fn year_spec(&self) -> int;

    /// The date's 1-based day-of-year, as a mathematical integer.
    spec fn ordinal_spec(&self) -> int;

    /// The date's year.
    fn year(&self) -> (y: i32)
        ensures
            y as int == self.year_spec(),
    ;

    /// The date's 1-based day-of-year.
    fn ordinal(&self) -> (o: u32)
        ensures
            o as int == self.ordinal_spec(),
    ;
}

/// A plain year / day-of-year pair.
#[derive(Clone, Copy, Debug, PartialEq, Eq, Structural)]
pub struct Date {
    /// Proleptic Gregorian year; year 1 opens the era.
    pub year: i32,
    /// 1-based day of the year: 1 on January 1, at most 366.
    pub ordinal: u32,
}

impl Datelike for Date {
    open spec fn year_spec(&self) -> int {
        self.year as int
    }

    open spec fn ordinal_spec(&self) -> int {
        self.ordinal as int
    }

    fn year(&self) -> i32 {
        self.year
    }

    fn ordinal(&self) -> u32 {
        self.ordinal
    }
}

/// Divisibility by 400 implies divisibility by 100, which in turn implies
/// divisibility by 4.
proof fn lemma_leap_divisor_chain(y: int)
    ensures
        y % 400 == 0 ==> y % 100 == 0,
        y % 100 == 0 ==> y % 4 == 0,
{
    if y % 400 == 0 {
        lemma_fundamental_div_mod(y, 400);
        let k = y / 400;
        assert(y == (4 * k) * 100 + 0) by (nonlinear_arith)
            requires
                y == 400 * k,
        ;
        lemma_fundamental_div_mod_converse(y, 100, 4 * k, 0);
    }
    if y % 100 == 0 {
        lemma_fundamental_div_mod(y, 100);
        let k = y / 100;
        assert(y == (25 * k) * 4 + 0) by (nonlinear_arith)
            requires
                y == 100 * k,
        ;
        lemma_fundamental_div_mod_converse(y, 4, 25 * k, 0);
    }
}

/// Inclusion and exclusion for the leap rule over a year interval: count the
/// fourth years, drop the hundredth, put back the four-hundredth.
proof fn lemma_leap_count_formula(s: int, e: int)
    requires
        s <= e,
    ensures
        leap_count(s, e) == count_multiples(s, e, 4) - count_multiples(s, e, 100)
            + count_multiples(s, e, 400),
    decreases e - s,
{
    if s < e {
        lemma_leap_divisor_chain(s);
        lemma_leap_count_formula(s + 1, e);
    }
}

/// The Gregorian correction: the three divisor counts taken between year 1
/// and year `y` add up to the signed number of leap days between them.
pub proof fn lemma_gregorian_correction(y: int)
    ensures
        in_between_spec(1, y, 4) - in_between_spec(1, y, 100) + in_between_spec(1, y, 400)
            == leap_days_between(y),
{
    if y >= 1 {
        lemma_in_between_counts(1, y, 4);
        lemma_in_between_counts(1, y, 100);
        lemma_in_between_counts(1, y, 400);
        lemma_leap_count_formula(1, y);
    } else {
        lemma_in_between_counts(y, 1, 4);
        lemma_in_between_counts(y, 1, 100);
        lemma_in_between_counts(y, 1, 400);
        lemma_leap_count_formula(y, 1);
    }
}

/// The era anchor: January 1 of year 1 is day 1.
pub proof fn lemma_era_anchor()
    ensures
        days_from_ce(1, 1) == 1,
{
}

/// The calendar day after `(y, o)`: the next ordinal within the same year,
/// or January 1 of the following year.
pub open spec fn next_date(y: int, o: int) -> (int, int) {
    if o < year_length(y) { (y, o + 1) } else { (y + 1, 1) }
}

/// Appending one year on the right of an interval adds that year's
/// leap-day contribution to the count.
proof fn lemma_leap_count_extend(s: int, e: int)
    requires
        s <= e,
    ensures
        leap_count(s, e + 1) == leap_count(s, e) + (if is_leap_year(e) { 1int } else { 0int }),
    decreases e - s,
{
    if s < e {
        lemma_leap_count_extend(s + 1, e);
    } else {
        assert(leap_count(e + 1, e + 1) == 0);
    }
}

/// One more leap day lies between year 1 and year `y + 1` than between
/// year 1 and year `y` exactly when `y` itself is a leap year.
proof fn lemma_leap_days_step(y: int)
    ensures
        leap_days_between(y + 1) == leap_days_between(y) + (if is_leap_year(y) {
            1int
        } else {
            0int
        }),
{
    if y >= 1 {
        lemma_leap_count_extend(1, y);
    }
}

/// Consecutive-day step: moving to the next calendar day raises the day
/// number by exactly one, also across a year boundary.
pub proof fn lemma_consecutive_day_step(y: int, o: int)
    requires
        1 <= o <= year_length(y),
    ensures
        days_from_ce(next_date(y, o).0, next_date(y, o).1) == days_from_ce(y, o) + 1,
{
    if o == year_length(y) {
        lemma_leap_days_step(y);
    }
}

/// Year-length law: the day numbers of a year span exactly its length,
/// 365 in a common year and 366 in a leap year.
pub proof fn lemma_year_length(y: int)
    ensures
        days_from_ce(y, year_length(y)) - days_from_ce(y, 1) + 1 == year_length(y),
        year_length(y) == if is_leap_year(y) { 366int } else { 365int },
{
}

/// The day number of `date`, 1-based from January 1 of year 1: the date's
/// ordinal plus 365 days per earlier year, corrected by one day per leap
/// year between year 1 and the date's year.
pub fn num_days_from_ce_alt<D: Datelike>(date: &D) -> (r: i32)
    requires
        1 <= date.ordinal_spec() <= 366,
        MIN_YEAR <= date.year_spec() <= MAX_YEAR,
    ensures
        r == days_from_ce(date.year_spec(), date.ordinal_spec()),
{
    let year = date.year();
    let ordinal = date.ordinal();
    proof {
        lemma_unit_divisor(1, year as int);
        lemma_ceil_div_range(year as int, 4);
        lemma_ceil_div_range(year as int, 100);
        lemma_ceil_div_range(year as int, 400);
    }
    let d1 = in_between(1, year, 1);
    let d4 = in_between(1, year, 4);
    let d100 = in_between(1, year, 100);
    let d400 = in_between(1, year, 400);
    proof {
        lemma_gregorian_correction(year as int);
    }
    ordinal as i32 + 365 * d1 + d4 - d100 + d400
}

} // verus!
