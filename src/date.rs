//! Calendar dates with validated construction, parsing, rendering and
//! day-level arithmetic.
use vstd::prelude::*;
use vstd::string::*;

use chrono::Datelike;

use crate::text::{
    dash_positions, decimal, decimal_string, find_dashes, lemma_dashes_append_plain, lemma_decimal,
    parse_u16, push_decimal, split_on_dash, u16_of,
};

verus! {

pub const MONTH_TOO_SMALL: &'static str = "Set date error: month too small";

pub const MONTH_TOO_LARGE: &'static str = "Set date error: month too large";

pub const DAY_TOO_SMALL: &'static str = "Set date error: day too small";

pub const DAY_TOO_LARGE: &'static str = "Set date error: day too large";

pub const BAD_SEPARATORS: &'static str = "Date parse error: incorrect number of seperators";

pub const BAD_YEAR: &'static str = "Date parse error: cannot parse year";

pub const BAD_MONTH: &'static str = "Date parse error: cannot parse month";

pub const BAD_DAY: &'static str = "Date parse error: cannot parse day";

pub const YEAR_ABOVE_MAX: &'static str = "Add days error: year went above max (65535)";

pub const YEAR_BELOW_MIN: &'static str = "Subtract days error: year went below min (0)";

pub const YEAR_OUT_OF_RANGE: &'static str = "Date error: year out of range (0 to 65535)";

/// A date as (year, month, day).
pub type Ymd = (int, int, int);

pub open spec fn is_leap(year: int) -> bool {
    year % 4 == 0 && !(year % 100 == 0 && year % 400 != 0)
}

pub open spec fn days_in_month(year: int, month: int) -> int {
    if month == 4 || month == 6 || month == 9 || month == 11 {
        30
    } else if month == 2 {
        if is_leap(year) {
            29
        } else {
            28
        }
    } else {
        31
    }
}

/// A year that fits in `u16`, a month of the year, and a day of that month.
pub open spec fn is_valid(d: Ymd) -> bool {
    &&& 0 <= d.0 <= u16::MAX
    &&& 1 <= d.1 <= 12
    &&& 1 <= d.2 <= days_in_month(d.0, d.1)
}

/// The day after `d`; `None` after the last day of the largest year.
pub open spec fn next_day(d: Ymd) -> Option<Ymd> {
    if d.2 < days_in_month(d.0, d.1) {
        Some((d.0, d.1, d.2 + 1))
    } else if d.1 < 12 {
        Some((d.0, d.1 + 1, 1))
    } else if d.0 < u16::MAX {
        Some((d.0 + 1, 1, 1))
    } else {
        None
    }
}

/// The day before `d`; `None` before the first day of year zero.
pub open spec fn prev_day(d: Ymd) -> Option<Ymd> {
    if d.2 > 1 {
        Some((d.0, d.1, d.2 - 1))
    } else if d.1 > 1 {
        Some((d.0, d.1 - 1, days_in_month(d.0, d.1 - 1)))
    } else if d.0 > 0 {
        Some((d.0 - 1, 12, 31))
    } else {
        None
    }
}

/// The date `n` days after `d`, walking one day at a time.
pub open spec fn days_after(d: Ymd, n: nat) -> Option<Ymd>
    decreases n,
{
    if n == 0 {
        Some(d)
    } else {
        match next_day(d) {
            Some(e) => days_after(e, (n - 1) as nat),
            None => None,
        }
    }
}

/// The date `n` days before `d`, walking one day at a time.
pub open spec fn days_before(d: Ymd, n: nat) -> Option<Ymd>
    decreases n,
{
    if n == 0 {
        Some(d)
    } else {
        match prev_day(d) {
            Some(e) => days_before(e, (n - 1) as nat),
            None => None,
        }
    }
}

/// `a` comes strictly before `b`, comparing year, then month, then day.
pub open spec fn precedes(a: Ymd, b: Ymd) -> bool {
    a.0 < b.0 || (a.0 == b.0 && (a.1 < b.1 || (a.1 == b.1 && a.2 < b.2)))
}

/// A number that grows with the date: it orders valid dates as `precedes` does.
pub open spec fn ordinal(d: Ymd) -> int {
    d.0 * 372 + (d.1 - 1) * 31 + d.2
}

/// How a date is written: `year-month-day`, without zero padding.
pub open spec fn date_text(d: Ymd) -> Seq<char> {
    decimal(d.0 as nat) + seq!['-'] + decimal(d.1 as nat) + seq!['-'] + decimal(d.2 as nat)
}

/// The outcome of building a date from three numbers: the first failed check,
/// in the order month, then day.
pub open spec fn check_ymd(y: int, m: int, d: int) -> Result<Ymd, &'static str> {
    if m < 1 {
        Err(MONTH_TOO_SMALL)
    } else if m > 12 {
        Err(MONTH_TOO_LARGE)
    } else if d < 1 {
        Err(DAY_TOO_SMALL)
    } else if d > days_in_month(y, m) {
        Err(DAY_TOO_LARGE)
    } else {
        Ok((y, m, d))
    }
}

/// The outcome of reading a date from text: three dash-separated `u16`
/// numbers, read left to right, and then checked as by `check_ymd`.
pub open spec fn parse_date(s: Seq<char>) -> Result<Ymd, &'static str> {
    let parts = split_on_dash(s);
    if parts.len() != 3 {
        Err(BAD_SEPARATORS)
    } else if u16_of(parts[0]) is None {
        Err(BAD_YEAR)
    } else if u16_of(parts[1]) is None {
        Err(BAD_MONTH)
    } else if u16_of(parts[2]) is None {
        Err(BAD_DAY)
    } else {
        check_ymd(
            u16_of(parts[0])->0 as int,
            u16_of(parts[1])->0 as int,
            u16_of(parts[2])->0 as int,
        )
    }
}

/// A calendar date. Every value is a valid date.
#[derive(Debug, Clone, Copy, PartialEq, Eq, Structural, Hash, PartialOrd, Ord)]
pub struct Date {
    year: u16,
    month: u16,
    day: u16,
}

impl View for Date {
    type V = Ymd;

    closed spec fn view(&self) -> Ymd {
        (self.year as int, self.month as int, self.day as int)
    }
}

/// Relies on chrono's `Local::now`, `DateTime::date_naive` and `Datelike`:
/// today's date in the local time zone as year, month (1 to 12) and day (1 to 31).
#[verifier::external_body]
fn local_today() -> (r: (i32, u32, u32))
    ensures
        1 <= r.1 <= 12,
        1 <= r.2 <= 31,
{
    let today = chrono::Local::now().date_naive();
    (today.year(), today.month(), today.day())
}

/// The outcome of building a date from a calendar's year, month and day.
pub open spec fn check_calendar(y: int, m: int, d: int) -> Result<Ymd, &'static str> {
    if 0 <= y <= u16::MAX {
        check_ymd(y, m, d)
    } else {
        Err(YEAR_OUT_OF_RANGE)
    }
}

/// A date result seen through the view of the date.
pub open spec fn ymd_result(r: Result<Date, &'static str>) -> Result<Ymd, &'static str> {
    match r {
        Ok(d) => Ok(d@),
        Err(e) => Err(e),
    }
}

/// Two dates are the same exactly when they have the same view.
pub proof fn lemma_view_injective(a: Date, b: Date)
    ensures
        a@ == b@ <==> a == b,
{
}

/// A date on or before `end` has an ordinal no larger than `end`'s.
pub proof fn lemma_ordinal_order(d: Ymd, end: Ymd)
    requires
        is_valid(d),
        is_valid(end),
        !precedes(end, d),
    ensures
        ordinal(d) <= ordinal(end),
{
}

/// One step of a walk from `d` towards `end` stays within four of `end`'s ordinal.
pub proof fn lemma_step_ordinal(d: Ymd, end: Ymd)
    requires
        is_valid(d),
        is_valid(end),
        !precedes(end, d),
        next_day(d) is Some,
    ensures
        ordinal(d) < ordinal(next_day(d)->0) <= ordinal(end) + 4,
        ordinal(d) <= ordinal(end),
{
}

proof fn lemma_days_after_within(d: Ymd, k: nat, n: nat)
    requires
        d.2 + k <= days_in_month(d.0, d.1),
        k <= n,
    ensures
        days_after(d, n) == days_after((d.0, d.1, d.2 + k), (n - k) as nat),
    decreases k,
{
    if k > 0 {
        lemma_days_after_within((d.0, d.1, d.2 + 1), (k - 1) as nat, (n - 1) as nat);
    }
}

proof fn lemma_days_before_within(d: Ymd, k: nat, n: nat)
    requires
        k < d.2,
        k <= n,
    ensures
        days_before(d, n) == days_before((d.0, d.1, d.2 - k), (n - k) as nat),
    decreases k,
{
    if k > 0 {
        lemma_days_before_within((d.0, d.1, d.2 - 1), (k - 1) as nat, (n - 1) as nat);
    }
}

/// Walking `a + b` days is walking `a` days and then `b` more.
proof fn lemma_days_after_split(d: Ymd, a: nat, b: nat)
    ensures
        days_after(d, a + b) == (match days_after(d, a) {
            Some(e) => days_after(e, b),
            None => None,
        }),
    decreases a,
{
    if a > 0 {
        match next_day(d) {
            Some(e) => {
                lemma_days_after_split(e, (a - 1) as nat, b);
                assert((a + b - 1) as nat == ((a - 1) as nat + b) as nat);
            },
            None => {},
        }
    }
}

proof fn lemma_next_then_prev(d: Ymd)
    requires
        is_valid(d),
        next_day(d) is Some,
    ensures
        prev_day(next_day(d)->0) == Some(d),
        is_valid(next_day(d)->0),
{
}

proof fn lemma_days_after_valid(d: Ymd, n: nat)
    requires
        is_valid(d),
        days_after(d, n) is Some,
    ensures
        is_valid(days_after(d, n)->0),
    decreases n,
{
    if n > 0 {
        lemma_next_then_prev(d);
        lemma_days_after_valid(next_day(d)->0, (n - 1) as nat);
    }
}

/// Going `n` days forward and then `n` days back returns to the start.
pub proof fn lemma_add_then_sub(d: Ymd, n: nat)
    requires
        is_valid(d),
        days_after(d, n) is Some,
    ensures
        days_before(days_after(d, n)->0, n) == Some(d),
    decreases n,
{
    if n > 0 {
        let m = (n - 1) as nat;
        lemma_days_after_split(d, m, 1);
        assert(m + 1 == n);
        let t = days_after(d, m)->0;
        lemma_days_after_valid(d, m);
        assert(days_after(t, 1) == next_day(t)) by {
            reveal_with_fuel(days_after, 2);
        }
        lemma_next_then_prev(t);
        lemma_add_then_sub(d, m);
        let e = days_after(d, n)->0;
        assert(e == next_day(t)->0);
        assert(days_before(e, n) == days_before(t, m));
    }
}

proof fn lemma_u16_of_decimal(n: u16)
    ensures
        u16_of(decimal(n as nat)) == Some(n),
{
    lemma_decimal(n as nat);
}

/// A date built from numbers, written out and read back, is the same date.
pub proof fn lemma_text_round_trip(year: u16, month: u16, day: u16)
    requires
        check_ymd(year as int, month as int, day as int) is Ok,
    ensures
        parse_date(date_text((year as int, month as int, day as int))) == check_ymd(
            year as int,
            month as int,
            day as int,
        ),
{
    let a = decimal(year as nat);
    let b = decimal(month as nat);
    let c = decimal(day as nat);
    let dash = seq!['-'];
    lemma_decimal(year as nat);
    lemma_decimal(month as nat);
    lemma_decimal(day as nat);
    let s1 = a + dash;
    assert(s1.drop_last() =~= a);
    assert(dash_positions(s1) =~= seq![a.len() as int]);
    let s2 = s1 + b;
    lemma_dashes_append_plain(s1, b);
    let s3 = s2 + dash;
    assert(s3.drop_last() =~= s2);
    assert(dash_positions(s3) =~= seq![a.len() as int, (a.len() + 1 + b.len()) as int]);
    let s = s3 + c;
    lemma_dashes_append_plain(s3, c);
    assert(s == date_text((year as int, month as int, day as int)));
    let parts = split_on_dash(s);
    assert(parts[0] =~= a);
    assert(parts[1] =~= b);
    assert(parts[2] =~= c);
    lemma_u16_of_decimal(year);
    lemma_u16_of_decimal(month);
    lemma_u16_of_decimal(day);
}

/// Different valid dates are written differently.
pub proof fn lemma_date_text_injective(a: Ymd, b: Ymd)
    requires
        is_valid(a),
        is_valid(b),
        date_text(a) == date_text(b),
    ensures
        a == b,
{
    lemma_text_round_trip(a.0 as u16, a.1 as u16, a.2 as u16);
    lemma_text_round_trip(b.0 as u16, b.1 as u16, b.2 as u16);
}

impl Date {
    #[verifier::type_invariant]
    pub open spec fn inv(self) -> bool {
        is_valid(self@)
    }

    /// The first of January, 2000.
    pub fn new() -> (r: Date)
        ensures
            r@ == (2000int, 1int, 1int),
    {
        Date { year: 2000, month: 1, day: 1 }
    }

    /// Today's date in the local time zone.
    pub fn new_from_today() -> (r: Result<Date, &'static str>)
        ensures
            exists|y: int, m: int, d: int|
                1 <= m <= 12 && 1 <= d <= 31 && #[trigger] check_calendar(y, m, d) == ymd_result(r),
    {
        let (year, month, day) = local_today();
        Date::new_from_calendar(year, month, day)
    }

    /// The date of a calendar's year, month and day, when the year fits and
    /// they form a date.
    pub fn new_from_calendar(year: i32, month: u32, day: u32) -> (r: Result<Date, &'static str>)
        ensures
            ymd_result(r) == check_calendar(year as int, month as int, day as int),
    {
        if year < 0 || year > 65535 {
            return Err(YEAR_OUT_OF_RANGE);
        }
        if month > 12 {
            return Err(MONTH_TOO_LARGE);
        }
        if day > 31 {
            return Err(if month == 0 {
                MONTH_TOO_SMALL
            } else {
                DAY_TOO_LARGE
            });
        }
        Date::new_from_ints(year as u16, month as u16, day as u16)
    }

    /// The date of the given year, month and day, when they form one.
    pub fn new_from_ints(year: u16, month: u16, day: u16) -> (r: Result<Date, &'static str>)
        ensures
            ymd_result(r) == check_ymd(year as int, month as int, day as int),
    {
        let mut date = Date::new();
        date.set_year(year);
        date.set_month(month)?;
        date.set_day(day)?;
        Ok(date)
    }

    /// The date written as `year-month-day`.
    pub fn new_from_string(date_str: &str) -> (r: Result<Date, &'static str>)
        ensures
            ymd_result(r) == parse_date(date_str@),
    {
        let dashes = find_dashes(date_str);
        let ghost s = date_str@;
        if dashes.len() != 2 {
            return Err(BAD_SEPARATORS);
        }
        let n = date_str.unicode_len();
        let first = dashes[0];
        let second = dashes[1];
        let ghost parts = split_on_dash(s);
        let year = match parse_u16(date_str.substring_char(0, first)) {
            Some(x) => x,
            None => {
                assert(parts[0] =~= s.subrange(0, first as int));
                return Err(BAD_YEAR);
            },
        };
        assert(parts[0] =~= s.subrange(0, first as int));
        let month = match parse_u16(date_str.substring_char(first + 1, second)) {
            Some(x) => x,
            None => {
                assert(parts[1] =~= s.subrange(first + 1, second as int));
                return Err(BAD_MONTH);
            },
        };
        assert(parts[1] =~= s.subrange(first + 1, second as int));
        let day = match parse_u16(date_str.substring_char(second + 1, n)) {
            Some(x) => x,
            None => {
                assert(parts[2] =~= s.subrange(second + 1, n as int));
                return Err(BAD_DAY);
            },
        };
        assert(parts[2] =~= s.subrange(second + 1, n as int));
        Date::new_from_ints(year, month, day)
    }

    /// Sets this date from a year, month and day; on an error it stays as it was.
    pub fn set_from_ints(&mut self, year: u16, month: u16, day: u16) -> (r: Result<
        (),
        &'static str,
    >)
        ensures
            match check_ymd(year as int, month as int, day as int) {
                Ok(t) => r is Ok && final(self)@ == t,
                Err(e) => r == Err::<(), &'static str>(e) && final(self)@ == old(self)@,
            },
    {
        let date = Date::new_from_ints(year, month, day)?;
        *self = date;
        Ok(())
    }

    /// Sets this date from `year-month-day` text; on an error it stays as it was.
    pub fn set_from_string(&mut self, date_str: &str) -> (r: Result<(), &'static str>)
        ensures
            match parse_date(date_str@) {
                Ok(t) => r is Ok && final(self)@ == t,
                Err(e) => r == Err::<(), &'static str>(e) && final(self)@ == old(self)@,
            },
    {
        let date = Date::new_from_string(date_str)?;
        *self = date;
        Ok(())
    }

    /// The date written as `year-month-day`, without zero padding.
    pub fn to_string(&self) -> (r: String)
        ensures
            r@ == date_text(self@),
    {
        let mut out = decimal_string(self.year as u64);
        out.append("-");
        push_decimal(&mut out, self.month as u64);
        out.append("-");
        push_decimal(&mut out, self.day as u64);
        proof {
            reveal_strlit("-");
        }
        out
    }

    /// The year, month and day.
    pub fn to_tuple(&self) -> (r: (u16, u16, u16))
        ensures
            (r.0 as int, r.1 as int, r.2 as int) == self@,
            is_valid(self@),
    {
        proof {
            use_type_invariant(self);
        }
        (self.year, self.month, self.day)
    }

    /// `self` comes strictly before `other`.
    pub fn is_before(&self, other: &Date) -> (r: bool)
        ensures
            r == precedes(self@, other@),
    {
        self.year < other.year || (self.year == other.year && (self.month < other.month || (
        self.month == other.month && self.day < other.day)))
    }

    /// The date `days` days later.
    pub fn add_days(&self, days: u16) -> (r: Result<Date, &'static str>)
        ensures
            ymd_result(r) == match days_after(self@, days as nat) {
                Some(t) => Ok::<Ymd, &'static str>(t),
                None => Err(YEAR_ABOVE_MAX),
            },
    {
        proof {
            use_type_invariant(self);
        }
        let mut year = self.year;
        let mut month = self.month;
        let mut day = self.day;
        let mut days_to_add = days;
        // Move through whole months until what is left stays in this one.
        let mut room = self.days_this_month() - day;
        while days_to_add > room
            invariant
                is_valid((year as int, month as int, day as int)),
                room == days_in_month(year as int, month as int) - day,
                days_after(self@, days as nat) == days_after(
                    (year as int, month as int, day as int),
                    days_to_add as nat,
                ),
            decreases days_to_add,
        {
            proof {
                lemma_days_after_within(
                    (year as int, month as int, day as int),
                    room as nat,
                    days_to_add as nat,
                );
            }
            days_to_add = days_to_add - (room + 1);
            if month == 12 {
                if year == u16::MAX {
                    return Err(YEAR_ABOVE_MAX);
                }
                year = year + 1;
                month = 1;
            } else {
                month = month + 1;
            }
            day = 1;
            room = month_length(year, month) - day;
        }
        proof {
            lemma_days_after_within(
                (year as int, month as int, day as int),
                days_to_add as nat,
                days_to_add as nat,
            );
        }
        Ok(Date { year, month, day: day + days_to_add })
    }

    /// The date `days` days earlier.
    pub fn sub_days(&self, days: u16) -> (r: Result<Date, &'static str>)
        ensures
            ymd_result(r) == match days_before(self@, days as nat) {
                Some(t) => Ok::<Ymd, &'static str>(t),
                None => Err(YEAR_BELOW_MIN),
            },
    {
        proof {
            use_type_invariant(self);
        }
        let mut year = self.year;
        let mut month = self.month;
        let mut day = self.day;
        let mut days_to_sub = days;
        // Move back through whole months until what is left stays in this one.
        while days_to_sub >= day
            invariant
                is_valid((year as int, month as int, day as int)),
                days_before(self@, days as nat) == days_before(
                    (year as int, month as int, day as int),
                    days_to_sub as nat,
                ),
            decreases days_to_sub,
        {
            proof {
                lemma_days_before_within(
                    (year as int, month as int, day as int),
                    (day - 1) as nat,
                    days_to_sub as nat,
                );
            }
            days_to_sub = days_to_sub - day;
            if month == 1 {
                if year == 0 {
                    return Err(YEAR_BELOW_MIN);
                }
                year = year - 1;
                month = 12;
            } else {
                month = month - 1;
            }
            day = month_length(year, month);
        }
        proof {
            lemma_days_before_within(
                (year as int, month as int, day as int),
                days_to_sub as nat,
                days_to_sub as nat,
            );
        }
        Ok(Date { year, month, day: day - days_to_sub })
    }

    /// Whether this date's year is a leap year.
    pub fn is_leap_year(&self) -> (r: bool)
        ensures
            r == is_leap(self@.0),
    {
        leap_year(self.year)
    }

    fn days_this_month(&self) -> (r: u16)
        ensures
            r == days_in_month(self@.0, self@.1),
    {
        month_length(self.year, self.month)
    }

    fn set_year(&mut self, year: u16)
        requires
            old(self)@.2 <= days_in_month(year as int, old(self)@.1),
        ensures
            final(self)@ == (year as int, old(self)@.1, old(self)@.2),
    {
        proof {
            use_type_invariant(&*self);
        }
        self.year = year;
    }

    fn set_month(&mut self, month: u16) -> (r: Result<(), &'static str>)
        requires
            old(self)@.2 == 1,
        ensures
            r == (if month < 1 {
                Err::<(), &'static str>(MONTH_TOO_SMALL)
            } else if month > 12 {
                Err(MONTH_TOO_LARGE)
            } else {
                Ok(())
            }),
            r is Ok ==> final(self)@ == (old(self)@.0, month as int, old(self)@.2),
            r is Err ==> final(self)@ == old(self)@,
    {
        if month < 1 {
            Err(MONTH_TOO_SMALL)
        } else if month > 12 {
            Err(MONTH_TOO_LARGE)
        } else {
            self.month = month;
            Ok(())
        }
    }

    fn set_day(&mut self, day: u16) -> (r: Result<(), &'static str>)
        ensures
            r == (if day < 1 {
                Err::<(), &'static str>(DAY_TOO_SMALL)
            } else if day > days_in_month(old(self)@.0, old(self)@.1) {
                Err(DAY_TOO_LARGE)
            } else {
                Ok(())
            }),
            r is Ok ==> final(self)@ == (old(self)@.0, old(self)@.1, day as int),
            r is Err ==> final(self)@ == old(self)@,
    {
        proof {
            use_type_invariant(&*self);
        }
        if day < 1 {
            Err(DAY_TOO_SMALL)
        } else if day > self.days_this_month() {
            Err(DAY_TOO_LARGE)
        } else {
            self.day = day;
            Ok(())
        }
    }
}

fn leap_year(year: u16) -> (r: bool)
    ensures
        r == is_leap(year as int),
{
    year % 4 == 0 && !(year % 100 == 0 && !(year % 400 == 0))
}

fn month_length(year: u16, month: u16) -> (r: u16)
    ensures
        r == days_in_month(year as int, month as int),
{
    if month == 4 || month == 6 || month == 9 || month == 11 {
        30
    } else if month == 2 {
        if leap_year(year) {
            29
        } else {
            28
        }
    } else {
        31
    }
}

} // verus!
