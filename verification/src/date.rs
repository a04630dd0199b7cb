//! Local calendar dates, the day-precision unit every scheduling decision uses.
//!
//! A [`CivilDate`] is a proleptic-Gregorian year/month/day triple in the range
//! `jiff::civil::Date` accepts. Ordering is chronological, which for valid
//! dates is the lexicographic order of `(year, month, day)`. Calendar
//! arithmetic — the day count between two dates and adding whole days — is
//! delegated to `jiff`.
use jiff::ToSpan;
use vstd::prelude::*;

verus! {

/// Proleptic-Gregorian leap-year rule.
pub open spec fn is_leap_year(y: int) -> bool {
    y % 4 == 0 && (y % 100 != 0 || y % 400 == 0)
}

/// Number of days in month `m` (1-based) of year `y`.
pub open spec fn days_in_month(y: int, m: int) -> int {
    if m == 2 {
        if is_leap_year(y) {
            29
        } else {
            28
        }
    } else if m == 4 || m == 6 || m == 9 || m == 11 {
        30
    } else {
        31
    }
}

/// The year/month/day triples that `jiff::civil::Date::new` accepts: year in
/// `-9999..=9999`, month in `1..=12`, day within the month.
pub open spec fn valid_ymd(y: int, m: int, d: int) -> bool {
    &&& -9999 <= y <= 9999
    &&& 1 <= m <= 12
    &&& 1 <= d <= days_in_month(y, m)
}

/// Days from 0000-03-01 to `date` in the proleptic Gregorian calendar, years
/// numbered astronomically (year 0 exists). Counting from March puts each leap
/// day at the end of its year.
pub open spec fn day_number(date: (int, int, int)) -> int {
    let y = if date.1 <= 2 {
        date.0 - 1
    } else {
        date.0
    };
    let m = if date.1 <= 2 {
        date.1 + 9
    } else {
        date.1 - 3
    };
    365 * y + y / 4 - y / 100 + y / 400 + (153 * m + 2) / 5 + date.2 - 1
}

/// Whether a day number falls within the supported dates, `-9999-01-01`
/// through `9999-12-31`.
pub open spec fn in_date_range(n: int) -> bool {
    day_number((-9999, 1, 1)) <= n <= day_number((9999, 12, 31))
}

/// The first day of the month after `m` follows its last day.
proof fn lemma_month_step(y: int, m: int)
    requires
        1 <= m <= 11,
    ensures
        day_number((y, m + 1, 1)) == day_number((y, m, 1)) + days_in_month(y, m),
{
    if m == 2 {
        assert(day_number((y, 3, 1)) == day_number((y, 2, 1)) + days_in_month(y, 2)) by {
            let p = y - 1;
            assert(y / 4 - p / 4 == if y % 4 == 0 { 1int } else { 0int });
            assert(y / 100 - p / 100 == if y % 100 == 0 { 1int } else { 0int });
            assert(y / 400 - p / 400 == if y % 400 == 0 { 1int } else { 0int });
        }
    }
}

/// The first day of a year follows the last day of the year before.
proof fn lemma_year_step(y: int)
    ensures
        day_number((y + 1, 1, 1)) == day_number((y, 12, 1)) + 31,
{
}

/// Month starts grow through a year: a month's last day comes before any
/// later month's first day.
proof fn lemma_month_starts(y: int, m1: int, m2: int)
    requires
        1 <= m1 < m2 <= 12,
    ensures
        day_number((y, m1, 1)) + days_in_month(y, m1) <= day_number((y, m2, 1)),
    decreases m2 - m1,
{
    lemma_month_step(y, m1);
    if m1 + 1 < m2 {
        lemma_month_starts(y, m1 + 1, m2);
    }
}

/// Year starts grow: a year's last day comes before any later year's first day.
proof fn lemma_year_starts(y1: int, y2: int)
    requires
        y1 < y2,
    ensures
        day_number((y1, 12, 1)) + 31 <= day_number((y2, 1, 1)),
    decreases y2 - y1,
{
    lemma_year_step(y1);
    if y1 + 1 < y2 {
        lemma_month_starts(y1 + 1, 1, 12);
        lemma_year_starts(y1 + 1, y2);
    }
}

/// Day numbers follow the calendar: of two valid dates, the earlier has the
/// smaller day number.
pub proof fn lemma_day_number_increasing(a: (int, int, int), b: (int, int, int))
    requires
        valid_ymd(a.0, a.1, a.2),
        valid_ymd(b.0, b.1, b.2),
        ymd_lt(a, b),
    ensures
        day_number(a) < day_number(b),
{
    assert(day_number(a) == day_number((a.0, a.1, 1)) + a.2 - 1);
    assert(day_number(b) == day_number((b.0, b.1, 1)) + b.2 - 1);
    if a.0 == b.0 && a.1 < b.1 {
        lemma_month_starts(a.0, a.1, b.1);
    } else if a.0 < b.0 {
        if a.1 < 12 {
            lemma_month_starts(a.0, a.1, 12);
        }
        lemma_year_starts(a.0, b.0);
        if b.1 > 1 {
            lemma_month_starts(b.0, 1, b.1);
        }
    }
}

/// Of two valid dates, one comes before the other exactly when its day number
/// is smaller.
pub proof fn lemma_day_number_order(a: (int, int, int), b: (int, int, int))
    requires
        valid_ymd(a.0, a.1, a.2),
        valid_ymd(b.0, b.1, b.2),
    ensures
        ymd_lt(a, b) <==> day_number(a) < day_number(b),
{
    if ymd_lt(a, b) {
        lemma_day_number_increasing(a, b);
    } else if ymd_lt(b, a) {
        lemma_day_number_increasing(b, a);
    }
}

/// Valid dates with the same day number are the same date.
pub proof fn lemma_day_number_injective(a: (int, int, int), b: (int, int, int))
    requires
        valid_ymd(a.0, a.1, a.2),
        valid_ymd(b.0, b.1, b.2),
        day_number(a) == day_number(b),
    ensures
        a == b,
{
    if ymd_lt(a, b) {
        lemma_day_number_increasing(a, b);
    } else if ymd_lt(b, a) {
        lemma_day_number_increasing(b, a);
    }
}

/// Chronological `<=` on `(year, month, day)` triples.
pub open spec fn ymd_le(a: (int, int, int), b: (int, int, int)) -> bool {
    ||| a.0 < b.0
    ||| (a.0 == b.0 && a.1 < b.1)
    ||| (a.0 == b.0 && a.1 == b.1 && a.2 <= b.2)
}

/// Chronological `<` on `(year, month, day)` triples.
pub open spec fn ymd_lt(a: (int, int, int), b: (int, int, int)) -> bool {
    ymd_le(a, b) && a != b
}

/// Largest whole-day count `jiff` accepts when building a day span.
pub const MAX_SPAN_DAYS: i64 = 7_304_484;

/// A valid calendar date.
#[derive(Debug, Clone, Copy, PartialEq, Eq, Structural, PartialOrd, Ord, Hash)]
pub struct CivilDate {
    year: i16,
    month: i8,
    day: i8,
}

impl View for CivilDate {
    type V = (int, int, int);

    closed spec fn view(&self) -> (int, int, int) {
        (self.year as int, self.month as int, self.day as int)
    }
}

/// `jiff::civil::Date::new(year, month, day).is_ok()`: whether `jiff` accepts
/// the triple as a date. Its documentation states the accepted triples, which
/// `valid_ymd` spells out.
#[verifier::external_body]
fn jiff_accepts(year: i16, month: i8, day: i8) -> (ok: bool)
    ensures
        ok == valid_ymd(year as int, month as int, day as int),
{
    jiff::civil::Date::new(year, month, day).is_ok()
}

/// `later - earlier` on `jiff::civil::Date`, read back with `Span::get_days`.
/// `jiff` documents that this never fails for two dates and that days are the
/// largest unit of the span, so the count is the difference of the two dates'
/// day numbers.
#[verifier::external_body]
fn jiff_days_between(later: (i16, i8, i8), earlier: (i16, i8, i8)) -> (days: i32)
    requires
        valid_ymd(later.0 as int, later.1 as int, later.2 as int),
        valid_ymd(earlier.0 as int, earlier.1 as int, earlier.2 as int),
    ensures
        days as int == day_number((later.0 as int, later.1 as int, later.2 as int)) - day_number(
            (earlier.0 as int, earlier.1 as int, earlier.2 as int),
        ),
{
    let later = jiff::civil::date(later.0, later.1, later.2);
    let earlier = jiff::civil::date(earlier.0, earlier.1, earlier.2);
    (later - earlier).get_days()
}

/// `jiff::civil::Date::checked_add` with a span of `days` whole days
/// (`ToSpan::days`, which panics beyond `MAX_SPAN_DAYS`, hence the bound).
/// A day-only span moves the date's day number by `days`; the call fails
/// exactly when the result would leave `jiff`'s dates, `-9999-01-01` through
/// `9999-12-31`, and every date it returns is valid.
#[verifier::external_body]
fn jiff_add_days(date: (i16, i8, i8), days: i64) -> (r: Option<(i16, i8, i8)>)
    requires
        valid_ymd(date.0 as int, date.1 as int, date.2 as int),
        -MAX_SPAN_DAYS <= days <= MAX_SPAN_DAYS,
    ensures
        r is Some <==> in_date_range(
            day_number((date.0 as int, date.1 as int, date.2 as int)) + days,
        ),
        r matches Some(t) ==> {
            &&& valid_ymd(t.0 as int, t.1 as int, t.2 as int)
            &&& day_number((t.0 as int, t.1 as int, t.2 as int)) == day_number(
                (date.0 as int, date.1 as int, date.2 as int),
            ) + days
        },
{
    let start = jiff::civil::date(date.0, date.1, date.2);
    match start.checked_add(days.days()) {
        Ok(d) => Some((d.year(), d.month(), d.day())),
        Err(_) => None,
    }
}

impl CivilDate {
    /// Every `CivilDate` is a valid calendar date in the supported range.
    #[verifier::type_invariant]
    pub open spec fn is_valid(self) -> bool {
        valid_ymd(self@.0, self@.1, self@.2)
    }

    /// A date is determined by its year, month and day: two dates with the
    /// same view are the same date.
    pub proof fn lemma_view_injective(self, other: CivilDate)
        ensures
            self@ == other@ ==> self == other,
    {
    }

    /// The date `year-month-day`, or `None` when that is not a calendar date in
    /// the supported range.
    pub fn new(year: i16, month: i8, day: i8) -> (r: Option<CivilDate>)
        ensures
            r is Some <==> valid_ymd(year as int, month as int, day as int),
            r matches Some(d) ==> d@ == (year as int, month as int, day as int),
    {
        if jiff_accepts(year, month, day) {
            Some(CivilDate { year, month, day })
        } else {
            None
        }
    }

    pub fn year(&self) -> (y: i16)
        ensures
            y as int == self@.0,
    {
        self.year
    }

    pub fn month(&self) -> (m: i8)
        ensures
            m as int == self@.1,
    {
        self.month
    }

    pub fn day(&self) -> (d: i8)
        ensures
            d as int == self@.2,
    {
        self.day
    }

    /// Whether `self` is on or before `other`.
    pub fn is_on_or_before(&self, other: &CivilDate) -> (b: bool)
        ensures
            b == ymd_le(self@, other@),
    {
        self.year < other.year || (self.year == other.year && self.month < other.month) || (
        self.year == other.year && self.month == other.month && self.day <= other.day)
    }

    /// Whether `self` is strictly before `other`.
    pub fn is_before(&self, other: &CivilDate) -> (b: bool)
        ensures
            b == ymd_lt(self@, other@),
    {
        self.is_on_or_before(other) && !(self.year == other.year && self.month == other.month
            && self.day == other.day)
    }

    /// Whole days elapsed from `earlier` to `self` (negative when `earlier` is
    /// the later date).
    pub fn days_since(&self, earlier: &CivilDate) -> (days: i32)
        ensures
            days as int == day_number(self@) - day_number(earlier@),
            self@ == earlier@ ==> days == 0,
            ymd_lt(earlier@, self@) ==> days > 0,
            ymd_lt(self@, earlier@) ==> days < 0,
    {
        proof {
            use_type_invariant(self);
            use_type_invariant(earlier);
            if ymd_lt(earlier@, self@) {
                lemma_day_number_increasing(earlier@, self@);
            }
            if ymd_lt(self@, earlier@) {
                lemma_day_number_increasing(self@, earlier@);
            }
        }
        jiff_days_between((self.year, self.month, self.day), (earlier.year, earlier.month, earlier.day))
    }

    /// The date `days` whole days after `self`, or `None` when it falls outside
    /// the supported range.
    pub fn checked_add_days(&self, days: i64) -> (r: Option<CivilDate>)
        requires
            -MAX_SPAN_DAYS <= days <= MAX_SPAN_DAYS,
        ensures
            r is Some <==> in_date_range(day_number(self@) + days),
            r matches Some(d) ==> day_number(d@) == day_number(self@) + days && valid_ymd(
                d@.0,
                d@.1,
                d@.2,
            ),
            r matches Some(d) ==> (days > 0 ==> ymd_lt(self@, d@)),
            r matches Some(d) ==> (days < 0 ==> ymd_lt(d@, self@)),
            -9800 <= self@.0 <= 9800 && -36500 <= days <= 36500 ==> r is Some,
    {
        proof {
            use_type_invariant(self);
            if -9800 <= self@.0 <= 9800 {
                if ymd_lt((-9800, 1, 1), self@) {
                    lemma_day_number_increasing((-9800, 1, 1), self@);
                }
                if ymd_lt(self@, (9800, 12, 31)) {
                    lemma_day_number_increasing(self@, (9800, 12, 31));
                }
            }
        }
        match jiff_add_days((self.year, self.month, self.day), days) {
            Some(t) => {
                let d = CivilDate { year: t.0, month: t.1, day: t.2 };
                proof {
                    if ymd_lt(d@, self@) {
                        lemma_day_number_increasing(d@, self@);
                    }
                    if ymd_lt(self@, d@) {
                        lemma_day_number_increasing(self@, d@);
                    }
                }
                Some(d)
            },
            None => None,
        }
    }
}

} // verus!
