//! Calendar dates (year, month, day) with no time of day and no time zone.

use std::cmp::Ordering;
use vstd::prelude::*;
use vstd::std_specs::cmp::PartialOrdSpecImpl;
use crate::text::{
    decimal, fixed_digits, lemma_concat_eq, lemma_fixed_digits_order, lemma_small_powers_of_ten,
    lemma_text_less_concat, lemma_text_less_irreflexive, lemma_zero_padded_is_fixed, push_decimal,
    push_signed_decimal, push_zero_padded, signed_decimal, text_less, zero_padded, all_digits,
    numeral_value, lemma_zero_padded_writes_n,
};

verus! {

/// Leap years of the Gregorian calendar: divisible by 4, except the
/// centuries that are not divisible by 400.
pub open spec fn is_leap(year: int) -> bool {
    year % 4 == 0 && (year % 100 != 0 || year % 400 == 0)
}

/// How many days the month has in that year; 0 for a number that names no
/// month.
pub open spec fn month_length(year: int, month: int) -> int {
    if month == 1 || month == 3 || month == 5 || month == 7 || month == 8 || month == 10
        || month == 12 {
        31
    } else if month == 4 || month == 6 || month == 9 || month == 11 {
        30
    } else if month == 2 {
        if is_leap(year) {
            29
        } else {
            28
        }
    } else {
        0
    }
}

/// A day that exists in the calendar.
pub open spec fn is_valid_date(year: int, month: int, day: int) -> bool {
    &&& 1 <= month <= 12
    &&& 1 <= day <= month_length(year, month)
}

/// What a `Date` stands for: its year, month and day.
pub struct DateView {
    pub year: int,
    pub month: int,
    pub day: int,
}

/// A calendar date: year, month and day.
///
/// Dates compare chronologically: first by year, then by month, then by day.
#[derive(Debug, Clone, Copy, PartialEq, Eq, Structural, Ord, Hash)]
pub struct Date {
    year: i16,
    month: u8,
    day: u8,
}

/// Why a year, month and day name no date.
#[derive(Debug, Clone, PartialEq, Eq, Structural)]
pub enum DateError {
    InvalidMonth(u8),
    InvalidDay { year: i16, month: u8, day: u8 },
}

impl View for Date {
    type V = DateView;

    closed spec fn view(&self) -> DateView {
        DateView { year: self.year as int, month: self.month as int, day: self.day as int }
    }
}

/// Leap-year rule of the Gregorian calendar.
fn is_leap_year(year: i16) -> (r: bool)
    ensures
        r == is_leap(year as int),
{
    year % 4 == 0 && (year % 100 != 0 || year % 400 == 0)
}

/// How many days the month has in that year; 0 when `month` names no month.
fn days_in_month(year: i16, month: u8) -> (r: u8)
    ensures
        r == month_length(year as int, month as int),
{
    if month == 1 || month == 3 || month == 5 || month == 7 || month == 8 || month == 10
        || month == 12 {
        31
    } else if month == 4 || month == 6 || month == 9 || month == 11 {
        30
    } else if month == 2 {
        if is_leap_year(year) {
            29
        } else {
            28
        }
    } else {
        0
    }
}

impl Date {
    #[verifier::type_invariant]
    spec fn well_formed(self) -> bool {
        is_valid_date(self.year as int, self.month as int, self.day as int)
    }

    /// Creates a date, refusing the ones that do not exist.
    pub fn new(year: i16, month: u8, day: u8) -> (r: Result<Self, DateError>)
        ensures
            r is Ok <==> is_valid_date(year as int, month as int, day as int),
            r matches Ok(d) ==> d@ == (DateView {
                year: year as int,
                month: month as int,
                day: day as int,
            }),
            !(1 <= month <= 12) ==> r == Err::<Date, DateError>(DateError::InvalidMonth(month)),
            1 <= month <= 12 && !is_valid_date(year as int, month as int, day as int) ==> r
                == Err::<Date, DateError>(DateError::InvalidDay { year, month, day }),
    {
        if !(1 <= month && month <= 12) {
            return Err(DateError::InvalidMonth(month));
        }
        if day < 1 || day > days_in_month(year, month) {
            return Err(DateError::InvalidDay { year, month, day });
        }
        Ok(Self { year, month, day })
    }

    pub fn year(self) -> (r: i16)
        ensures
            r == self@.year,
            is_valid_date(self@.year, self@.month, self@.day),
    {
        proof {
            use_type_invariant(&self);
        }
        self.year
    }

    pub fn month(self) -> (r: u8)
        ensures
            r == self@.month,
            1 <= r <= 12,
    {
        proof {
            use_type_invariant(&self);
        }
        self.month
    }

    pub fn day(self) -> (r: u8)
        ensures
            r == self@.day,
            1 <= r <= month_length(self@.year, self@.month),
    {
        proof {
            use_type_invariant(&self);
        }
        self.day
    }

    /// ISO-8601 text, `YYYY-MM-DD`: the year in at least four digits, with a
    /// sign outside 0000 to 9999; month and day in two digits.
    pub fn to_string(&self) -> (r: String)
        ensures
            r@ == iso_text(self@),
    {
        proof {
            reveal_strlit("-");
            reveal_strlit("+");
        }
        let mut s = String::new();
        if self.year < 0 {
            s.append("-");
            push_zero_padded(&mut s, (-(self.year as i32)) as u32, 4);
        } else {
            if self.year > 9999 {
                s.append("+");
            }
            push_zero_padded(&mut s, self.year as u32, 4);
        }
        s.append("-");
        push_zero_padded(&mut s, self.month as u32, 2);
        s.append("-");
        push_zero_padded(&mut s, self.day as u32, 2);
        proof {
            reveal_strlit("-");
            assert(s@ =~= iso_text(self@));
        }
        s
    }
}

/// The ISO-8601 year: at least four digits; before year 0 a `-` and after
/// year 9999 a `+` in front (the expanded form).
pub open spec fn iso_year(year: int) -> Seq<char> {
    if year < 0 {
        seq!['-'] + zero_padded((-year) as nat, 4)
    } else if year > 9999 {
        seq!['+'] + zero_padded(year as nat, 4)
    } else {
        zero_padded(year as nat, 4)
    }
}

/// The ISO-8601 text of a date: `YYYY-MM-DD`, the year as `iso_year` writes it.
pub open spec fn iso_text(d: DateView) -> Seq<char> {
    iso_year(d.year) + seq!['-'] + zero_padded(d.month as nat, 2) + seq!['-']
        + zero_padded(d.day as nat, 2)
}

impl DateError {
    /// The message that explains the error.
    pub fn to_string(&self) -> (r: String)
        ensures
            r@ == date_error_text(*self),
    {
        let mut s = String::new();
        match self {
            DateError::InvalidMonth(month) => {
                s.append("mes fuera de rango: ");
                push_decimal(&mut s, *month as u32);
            },
            DateError::InvalidDay { year, month, day } => {
                s.append("el dia ");
                push_decimal(&mut s, *day as u32);
                s.append(" no existe en el mes ");
                push_decimal(&mut s, *month as u32);
                s.append(" de ");
                push_signed_decimal(&mut s, *year as i32);
            },
        }
        proof {
            assert(s@ =~= date_error_text(*self));
        }
        s
    }
}

/// The message of a date error.
pub open spec fn date_error_text(e: DateError) -> Seq<char> {
    match e {
        DateError::InvalidMonth(month) => "mes fuera de rango: "@ + decimal(month as nat),
        DateError::InvalidDay { year, month, day } => "el dia "@ + decimal(day as nat)
            + " no existe en el mes "@ + decimal(month as nat) + " de "@ + signed_decimal(year as int),
    }
}

/// Calendar order of two dates: by year, then month, then day.
pub open spec fn calendar_order(a: DateView, b: DateView) -> Ordering {
    if a.year < b.year {
        Ordering::Less
    } else if a.year > b.year {
        Ordering::Greater
    } else if a.month < b.month {
        Ordering::Less
    } else if a.month > b.month {
        Ordering::Greater
    } else if a.day < b.day {
        Ordering::Less
    } else if a.day > b.day {
        Ordering::Greater
    } else {
        Ordering::Equal
    }
}

impl PartialOrd for Date {
    /// Chronological comparison.
    fn partial_cmp(&self, other: &Self) -> (r: Option<Ordering>) {
        if self.year < other.year {
            Some(Ordering::Less)
        } else if self.year > other.year {
            Some(Ordering::Greater)
        } else if self.month < other.month {
            Some(Ordering::Less)
        } else if self.month > other.month {
            Some(Ordering::Greater)
        } else if self.day < other.day {
            Some(Ordering::Less)
        } else if self.day > other.day {
            Some(Ordering::Greater)
        } else {
            Some(Ordering::Equal)
        }
    }
}

impl PartialOrdSpecImpl for Date {
    open spec fn obeys_partial_cmp_spec() -> bool {
        true
    }

    open spec fn partial_cmp_spec(&self, other: &Self) -> Option<Ordering> {
        Some(calendar_order(self@, other@))
    }
}

/// Days in a year of the Gregorian calendar.
pub open spec fn year_length(year: int) -> int {
    if is_leap(year) {
        366
    } else {
        365
    }
}

/// Days of the months of `year` that come before `month`.
pub open spec fn days_before_month(year: int, month: int) -> int {
    let common: int = if month <= 1 {
        0
    } else if month == 2 {
        31
    } else if month == 3 {
        59
    } else if month == 4 {
        90
    } else if month == 5 {
        120
    } else if month == 6 {
        151
    } else if month == 7 {
        181
    } else if month == 8 {
        212
    } else if month == 9 {
        243
    } else if month == 10 {
        273
    } else if month == 11 {
        304
    } else {
        334
    };
    if month > 2 && is_leap(year) {
        common + 1
    } else {
        common
    }
}

/// Days of the years from the first year a `Date` can hold (`i16::MIN`) up
/// to, and not including, `year`.
pub open spec fn days_before_year(year: int) -> int
    decreases year + 32768,
{
    if year <= -32768 {
        0
    } else {
        days_before_year(year - 1) + year_length(year - 1)
    }
}

/// How many days separate a date from the first day a `Date` can hold.
pub open spec fn day_number(d: DateView) -> int {
    days_before_year(d.year) + days_before_month(d.year, d.month) + d.day - 1
}

/// The days of the years before `y1`, and of `y1` itself, all come before
/// the start of a later year `y2`.
proof fn lemma_years_are_consecutive(y1: int, y2: int)
    requires
        -32768 <= y1 < y2,
    ensures
        days_before_year(y1) + year_length(y1) <= days_before_year(y2),
    decreases y2 - y1,
{
    if y2 > y1 + 1 {
        lemma_years_are_consecutive(y1, y2 - 1);
    }
}

/// Inside a year, a valid day lies within the year's days, and the days of
/// a month all come before those of a later month.
proof fn lemma_days_within_year(year: int, m1: int, d1: int, m2: int)
    requires
        is_valid_date(year, m1, d1),
        m1 < m2 <= 12,
    ensures
        days_before_month(year, m1) + d1 <= days_before_month(year, m2),
{
}

proof fn lemma_day_in_year(year: int, month: int, day: int)
    requires
        is_valid_date(year, month, day),
    ensures
        0 <= days_before_month(year, month) + day - 1 < year_length(year),
{
}

/// Dates compare chronologically: one date is before another exactly when
/// fewer days separate it from the start of the calendar, and two dates are
/// equal exactly when they are the same day.
pub proof fn lemma_order_is_chronological(a: Date, b: Date)
    requires
        is_valid_date(a@.year, a@.month, a@.day),
        is_valid_date(b@.year, b@.month, b@.day),
    ensures
        vstd::std_specs::cmp::PartialOrdSpec::partial_cmp_spec(&a, &b) == Some(Ordering::Less) <==> day_number(a@) < day_number(b@),
        vstd::std_specs::cmp::PartialOrdSpec::partial_cmp_spec(&a, &b) == Some(Ordering::Greater) <==> day_number(a@) > day_number(b@),
        vstd::std_specs::cmp::PartialOrdSpec::partial_cmp_spec(&a, &b) == Some(Ordering::Equal) <==> a == b,
        a == b <==> day_number(a@) == day_number(b@),
{
    lemma_day_in_year(a@.year, a@.month, a@.day);
    lemma_day_in_year(b@.year, b@.month, b@.day);
    if a@.year < b@.year {
        lemma_years_are_consecutive(a@.year, b@.year);
    } else if b@.year < a@.year {
        lemma_years_are_consecutive(b@.year, a@.year);
    } else if a@.month < b@.month {
        lemma_days_within_year(a@.year, a@.month, a@.day, b@.month);
    } else if b@.month < a@.month {
        lemma_days_within_year(a@.year, b@.month, b@.day, a@.month);
    }
}

/// The ISO texts of two dates with years from 0 to 9999 compare as text
/// the way the dates compare by year, then month, then day.
proof fn lemma_iso_text_order(a: DateView, b: DateView)
    requires
        is_valid_date(a.year, a.month, a.day),
        is_valid_date(b.year, b.month, b.day),
        0 <= a.year <= 9999,
        0 <= b.year <= 9999,
    ensures
        text_less(iso_text(a), iso_text(b)) <==> (a.year < b.year || (a.year == b.year && (a.month
            < b.month || (a.month == b.month && a.day < b.day)))),
        iso_text(a) == iso_text(b) <==> (a.year == b.year && a.month == b.month && a.day == b.day),
{
    lemma_small_powers_of_ten();
    let (ya, yb) = (a.year as nat, b.year as nat);
    let (ma, mb) = (a.month as nat, b.month as nat);
    let (da, db) = (a.day as nat, b.day as nat);
    lemma_zero_padded_is_fixed(ya, 4);
    lemma_zero_padded_is_fixed(yb, 4);
    lemma_zero_padded_is_fixed(ma, 2);
    lemma_zero_padded_is_fixed(mb, 2);
    lemma_zero_padded_is_fixed(da, 2);
    lemma_zero_padded_is_fixed(db, 2);
    lemma_fixed_digits_order(ya, yb, 4);
    lemma_fixed_digits_order(ma, mb, 2);
    lemma_fixed_digits_order(da, db, 2);
    let dash = seq!['-'];
    lemma_text_less_irreflexive(dash);
    let (y1, y2) = (fixed_digits(ya, 4), fixed_digits(yb, 4));
    let (m1, m2) = (fixed_digits(ma, 2), fixed_digits(mb, 2));
    let (d1, d2) = (fixed_digits(da, 2), fixed_digits(db, 2));
    assert(iso_year(a.year) == y1);
    assert(iso_year(b.year) == y2);
    let (p1, p2) = (y1 + dash, y2 + dash);
    let (q1, q2) = (p1 + m1, p2 + m2);
    let (r1, r2) = (q1 + dash, q2 + dash);
    assert(iso_text(a) == r1 + d1);
    assert(iso_text(b) == r2 + d2);
    lemma_text_less_concat(y1, dash, y2, dash);
    lemma_concat_eq(y1, dash, y2, dash);
    lemma_text_less_concat(p1, m1, p2, m2);
    lemma_concat_eq(p1, m1, p2, m2);
    lemma_text_less_concat(q1, dash, q2, dash);
    lemma_concat_eq(q1, dash, q2, dash);
    lemma_text_less_concat(r1, d1, r2, d2);
    lemma_concat_eq(r1, d1, r2, d2);
}

/// For years 0 through 9999 the ISO text of a date sorts as the date does,
/// which is what keeps dates stored as text in calendar order: a date comes
/// before another exactly when its text does, and two dates have the same
/// text exactly when they are equal.
pub proof fn lemma_iso_text_sorts_chronologically(a: Date, b: Date)
    requires
        is_valid_date(a@.year, a@.month, a@.day),
        is_valid_date(b@.year, b@.month, b@.day),
        0 <= a@.year <= 9999,
        0 <= b@.year <= 9999,
    ensures
        text_less(iso_text(a@), iso_text(b@)) <==> vstd::std_specs::cmp::PartialOrdSpec::partial_cmp_spec(
            &a,
            &b,
        ) == Some(Ordering::Less),
        iso_text(a@) == iso_text(b@) <==> a == b,
{
    lemma_iso_text_order(a@, b@);
}

/// The Gregorian month lengths: January, March, May, July, August, October
/// and December have 31 days; April, June, September and November have 30;
/// February has 29 in leap years (divisible by 4, except centuries not
/// divisible by 400) and 28 otherwise. A date exists exactly when its month
/// is 1 to 12 and its day is from 1 up to that length, which is what decides
/// whether `Date::new` succeeds.
pub proof fn lemma_month_lengths(year: int)
    ensures
        forall|m: int|
            (m == 1 || m == 3 || m == 5 || m == 7 || m == 8 || m == 10 || m == 12) ==> (
            #[trigger] is_valid_date(year, m, 31) && !is_valid_date(year, m, 32)),
        forall|m: int|
            (m == 4 || m == 6 || m == 9 || m == 11) ==> (#[trigger] is_valid_date(year, m, 30)
                && !is_valid_date(year, m, 31)),
        is_valid_date(year, 2, 28),
        !is_valid_date(year, 2, 30),
        is_valid_date(year, 2, 29) <==> (year % 4 == 0 && (year % 100 != 0 || year % 400 == 0)),
        forall|m: int, d: int| #[trigger] is_valid_date(year, m, d) ==> 1 <= m <= 12 && 1 <= d <= 31,
        forall|m: int, d: int, e: int|
            #[trigger] is_valid_date(year, m, d) && 1 <= e <= d ==> #[trigger] is_valid_date(
                year,
                m,
                e,
            ),
{
}

/// How the ISO text writes a year: with no sign from 0 to 9999, with `-`
/// before year 0 and `+` after 9999, and then at least four digits that
/// write the year's magnitude (exactly four from 0 to 9999).
pub proof fn lemma_iso_year_writes_year(year: int)
    ensures
        0 <= year <= 9999 ==> all_digits(iso_year(year)) && iso_year(year).len() == 4
            && numeral_value(iso_year(year)) == year,
        year < 0 ==> iso_year(year)[0] == '-' && all_digits(iso_year(year).drop_first())
            && iso_year(year).len() >= 5 && numeral_value(iso_year(year).drop_first()) == -year,
        year > 9999 ==> iso_year(year)[0] == '+' && all_digits(iso_year(year).drop_first())
            && iso_year(year).len() >= 5 && numeral_value(iso_year(year).drop_first()) == year,
{
    if year < 0 {
        lemma_zero_padded_writes_n((-year) as nat, 4);
        assert(iso_year(year).drop_first() =~= zero_padded((-year) as nat, 4));
    } else {
        lemma_zero_padded_writes_n(year as nat, 4);
        if year > 9999 {
            assert(iso_year(year).drop_first() =~= zero_padded(year as nat, 4));
        } else {
            lemma_small_powers_of_ten();
            lemma_zero_padded_is_fixed(year as nat, 4);
        }
    }
}

/// The ISO text of a date is its year, a `-`, the month in two digits, a
/// `-` and the day in two digits.
pub proof fn lemma_iso_text_parts(d: DateView)
    requires
        is_valid_date(d.year, d.month, d.day),
    ensures
        ({
            let t = iso_text(d);
            let n = iso_year(d.year).len() as int;
            &&& t.len() == n + 6
            &&& t.take(n) == iso_year(d.year)
            &&& t[n] == '-'
            &&& all_digits(t.subrange(n + 1, n + 3))
            &&& numeral_value(t.subrange(n + 1, n + 3)) == d.month
            &&& t[n + 3] == '-'
            &&& all_digits(t.subrange(n + 4, n + 6))
            &&& numeral_value(t.subrange(n + 4, n + 6)) == d.day
        }),
{
    lemma_small_powers_of_ten();
    lemma_zero_padded_writes_n(d.month as nat, 2);
    lemma_zero_padded_writes_n(d.day as nat, 2);
    lemma_zero_padded_is_fixed(d.month as nat, 2);
    lemma_zero_padded_is_fixed(d.day as nat, 2);
    let t = iso_text(d);
    let y = iso_year(d.year);
    let n = y.len() as int;
    let m = zero_padded(d.month as nat, 2);
    let dd = zero_padded(d.day as nat, 2);
    assert(t == y + seq!['-'] + m + seq!['-'] + dd);
    assert(t.take(n) =~= y);
    assert(t.subrange(n + 1, n + 3) =~= m);
    assert(t.subrange(n + 4, n + 6) =~= dd);
}

} // verus!
