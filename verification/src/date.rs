//! Calendar dates as plain year / month / day values, and the date
//! window of the target invoicing month.
use vstd::prelude::*;
use vstd::string::*;
use crate::errors::InternalError;
use crate::num::{
    spec_is_digit, digit_val, digits_val, spec_dec_nat, spec_pad2, spec_pad4, push_pad2,
    push_pad4,
};

verus! {

/// A proleptic-Gregorian calendar date. Valid years are 0 through 9999
/// so that a year always prints as four digits.
#[derive(Debug, Clone, Copy, PartialEq, Eq, Structural)]
pub struct Date {
    pub year: i32,
    pub month: u32,
    pub day: u32,
}

pub open spec fn is_leap_year(y: int) -> bool {
    (y % 4 == 0 && y % 100 != 0) || y % 400 == 0
}

pub open spec fn days_in_month(y: int, m: int) -> int {
    if m == 2 {
        if is_leap_year(y) {
            29
        } else {
            28
        }
    } else if m == 4 || m == 6 || m == 9 || m == 11 {
        30
    } else {
        31
    }
}

impl Date {
    /// The date is a real calendar date within the supported year range.
    pub open spec fn valid(self) -> bool {
        &&& 0 <= self.year <= 9999
        &&& 1 <= self.month <= 12
        &&& 1 <= self.day <= days_in_month(self.year as int, self.month as int)
    }

    /// Run-time test of `valid`.
    pub fn is_valid(&self) -> (r: bool)
        ensures
            r == self.valid(),
    {
        0 <= self.year && self.year <= 9999 && 1 <= self.month && self.month <= 12 && 1 <= self.day
            && self.day <= days_in_month_exec(self.year, self.month)
    }
}

/// Number of days of month `m` of year `y`, as a run-time value.
pub fn days_in_month_exec(y: i32, m: u32) -> (r: u32)
    requires
        0 <= y,
        1 <= m <= 12,
    ensures
        r == days_in_month(y as int, m as int),
{
    if m == 2 {
        let leap: bool = (y % 4 == 0 && y % 100 != 0) || y % 400 == 0;
        if leap {
            29
        } else {
            28
        }
    } else if m == 4 || m == 6 || m == 9 || m == 11 {
        30
    } else {
        31
    }
}

/// First calendar day of the month the invoices are built for: the
/// current month, or, when `last_month` is set, the month before it.
///
/// Stepping the first-of-month date back seven days and re-normalizing
/// to day one would land on the same date; the previous calendar month
/// is computed here directly.
pub fn month_window_start(last_month: bool, today: Date) -> (r: Date)
    requires
        today.valid(),
        last_month ==> today.year >= 1 || today.month >= 2,
    ensures
        r.valid(),
        r.day == 1,
        !last_month ==> r.year == today.year && r.month == today.month,
        last_month && today.month >= 2 ==> r.year == today.year && r.month == today.month - 1,
        last_month && today.month == 1 ==> r.year == today.year - 1 && r.month == 12,
{
    if !last_month {
        Date { year: today.year, month: today.month, day: 1 }
    } else if today.month >= 2 {
        Date { year: today.year, month: today.month - 1, day: 1 }
    } else {
        Date { year: today.year - 1, month: 12, day: 1 }
    }
}

pub open spec fn days_in_year(y: int) -> int {
    if is_leap_year(y) {
        366
    } else {
        365
    }
}

pub open spec fn days_before_year(y: int) -> int
    decreases y,
{
    if y <= 0 {
        0
    } else {
        days_before_year(y - 1) + days_in_year(y - 1)
    }
}

pub open spec fn days_before_month(y: int, m: int) -> int
    decreases m,
{
    if m <= 1 {
        0
    } else {
        days_before_month(y, m - 1) + days_in_month(y, m - 1)
    }
}

/// Days elapsed since the proleptic-Gregorian date 0000-01-01.
pub open spec fn day_number(d: Date) -> int {
    days_before_year(d.year as int) + days_before_month(d.year as int, d.month as int) + d.day - 1
}

proof fn lemma_days_before_year_bound(y: int)
    requires
        0 <= y,
    ensures
        0 <= days_before_year(y) <= 366 * y,
    decreases y,
{
    if y > 0 {
        lemma_days_before_year_bound(y - 1);
    }
}

proof fn lemma_days_before_month_bound(y: int, m: int)
    requires
        1 <= m <= 13,
    ensures
        0 <= days_before_month(y, m) <= 31 * (m - 1),
    decreases m,
{
    if m > 1 {
        lemma_days_before_month_bound(y, m - 1);
    }
}

fn days_in_year_exec(y: i32) -> (r: u32)
    requires
        0 <= y,
    ensures
        r == days_in_year(y as int),
{
    let leap: bool = (y % 4 == 0 && y % 100 != 0) || y % 400 == 0;
    if leap {
        366
    } else {
        365
    }
}

/// Days since 0000-01-01, as a run-time value.
pub fn day_number_exec(d: Date) -> (r: u32)
    requires
        d.valid(),
    ensures
        r == day_number(d),
{
    let mut total: u32 = 0;
    let mut y: i32 = 0;
    while y < d.year
        invariant
            0 <= y <= d.year,
            d.valid(),
            total == days_before_year(y as int),
            total <= 366 * y,
        decreases d.year - y,
    {
        proof {
            lemma_days_before_year_bound(y as int + 1);
        }
        total = total + days_in_year_exec(y);
        y = y + 1;
    }
    let mut m: u32 = 1;
    while m < d.month
        invariant
            1 <= m <= d.month,
            d.valid(),
            total == days_before_year(d.year as int) + days_before_month(d.year as int, m as int),
            total <= 366 * d.year + 31 * m,
        decreases d.month - m,
    {
        total = total + days_in_month_exec(d.year, m);
        m = m + 1;
    }
    total + d.day - 1
}

/// Index of the weekday of `d`: 0 is Saturday, 1 is Sunday, and so on.
pub open spec fn spec_weekday_index(d: Date) -> int {
    day_number(d) % 7
}

pub open spec fn spec_weekday_name(d: Date) -> Seq<char> {
    let i = spec_weekday_index(d);
    if i == 0 {
        "Saturday"@
    } else if i == 1 {
        "Sunday"@
    } else if i == 2 {
        "Monday"@
    } else if i == 3 {
        "Tuesday"@
    } else if i == 4 {
        "Wednesday"@
    } else if i == 5 {
        "Thursday"@
    } else {
        "Friday"@
    }
}

/// The English name of the weekday of `d`.
pub fn weekday_name(d: Date) -> (r: &'static str)
    requires
        d.valid(),
    ensures
        r@ == spec_weekday_name(d),
{
    let n = day_number_exec(d);
    let i = n % 7;
    if i == 0 {
        "Saturday"
    } else if i == 1 {
        "Sunday"
    } else if i == 2 {
        "Monday"
    } else if i == 3 {
        "Tuesday"
    } else if i == 4 {
        "Wednesday"
    } else if i == 5 {
        "Thursday"
    } else {
        "Friday"
    }
}

pub open spec fn spec_month_name(m: int) -> Seq<char> {
    if m == 1 {
        "January"@
    } else if m == 2 {
        "February"@
    } else if m == 3 {
        "March"@
    } else if m == 4 {
        "April"@
    } else if m == 5 {
        "May"@
    } else if m == 6 {
        "June"@
    } else if m == 7 {
        "July"@
    } else if m == 8 {
        "August"@
    } else if m == 9 {
        "September"@
    } else if m == 10 {
        "October"@
    } else if m == 11 {
        "November"@
    } else {
        "December"@
    }
}

/// The English name of month `m`.
pub fn month_name(m: u32) -> (r: &'static str)
    requires
        1 <= m <= 12,
    ensures
        r@ == spec_month_name(m as int),
{
    if m == 1 {
        "January"
    } else if m == 2 {
        "February"
    } else if m == 3 {
        "March"
    } else if m == 4 {
        "April"
    } else if m == 5 {
        "May"
    } else if m == 6 {
        "June"
    } else if m == 7 {
        "July"
    } else if m == 8 {
        "August"
    } else if m == 9 {
        "September"
    } else if m == 10 {
        "October"
    } else if m == 11 {
        "November"
    } else {
        "December"
    }
}

/// The `YYYYMMDD` form of `d`, as sent to the remote service.
pub open spec fn spec_yyyymmdd(d: Date) -> Seq<char> {
    spec_pad4(d.year as nat) + spec_pad2(d.month as nat) + spec_pad2(d.day as nat)
}

pub fn format_yyyymmdd(d: Date) -> (r: String)
    requires
        d.valid(),
    ensures
        r@ == spec_yyyymmdd(d),
{
    let mut s = String::new();
    push_pad4(&mut s, d.year as u32);
    push_pad2(&mut s, d.month);
    push_pad2(&mut s, d.day);
    proof {
        assert(s@ =~= spec_yyyymmdd(d));
    }
    s
}

/// The `YYYY-MonthName` form naming the output folder of a month.
pub open spec fn spec_month_dir_name(d: Date) -> Seq<char> {
    spec_pad4(d.year as nat) + "-"@ + spec_month_name(d.month as int)
}

pub fn month_dir_name(d: Date) -> (r: String)
    requires
        d.valid(),
    ensures
        r@ == spec_month_dir_name(d),
{
    let mut s = String::new();
    push_pad4(&mut s, d.year as u32);
    s.append("-");
    s.append(month_name(d.month));
    proof {
        assert(s@ =~= spec_month_dir_name(d));
    }
    s
}

/// The heading printed above a day's entries: weekday name, month
/// name, and unpadded day of month.
pub open spec fn spec_date_heading(d: Date) -> Seq<char> {
    spec_weekday_name(d) + ", "@ + spec_month_name(d.month as int) + " "@ + spec_dec_nat(
        d.day as nat,
    )
}

pub fn date_heading(d: Date) -> (r: String)
    requires
        d.valid(),
    ensures
        r@ == spec_date_heading(d),
{
    let mut s = String::new();
    s.append(weekday_name(d));
    s.append(", ");
    s.append(month_name(d.month));
    s.append(" ");
    crate::num::push_dec_u128(&mut s, d.day as u128);
    proof {
        assert(s@ =~= spec_date_heading(d));
    }
    s
}

/// The characters of `s` that stand before its first `T`, or all of
/// `s` when it has none.
pub open spec fn before_t(s: Seq<char>) -> Seq<char>
    decreases s.len(),
{
    if s.len() == 0 {
        s
    } else if s[0] == 'T' {
        Seq::empty()
    } else {
        seq![s[0]] + before_t(s.drop_first())
    }
}

proof fn lemma_before_t_take(s: Seq<char>, i: int)
    requires
        0 <= i <= s.len(),
        forall|j: int| 0 <= j < i ==> s[j] != 'T',
        i == s.len() || s[i] == 'T',
    ensures
        before_t(s) == s.take(i),
    decreases s.len(),
{
    if i == 0 {
        assert(before_t(s) =~= s.take(0));
    } else {
        lemma_before_t_take(s.drop_first(), i - 1);
        assert(seq![s[0]] + s.drop_first().take(i - 1) =~= s.take(i));
    }
}

/// The date a `YYYY-MM-DD` string denotes, once anything from a `T`
/// separator on is cut away; `None` when the string has another shape
/// or the date is no real calendar date.
pub open spec fn spec_parse_date(s: Seq<char>) -> Option<Date> {
    let d = before_t(s);
    if d.len() == 10 && spec_is_digit(d[0]) && spec_is_digit(d[1]) && spec_is_digit(d[2])
        && spec_is_digit(d[3]) && d[4] == '-' && spec_is_digit(d[5]) && spec_is_digit(d[6]) && d[7]
        == '-' && spec_is_digit(d[8]) && spec_is_digit(d[9]) {
        let y = digits_val(d.take(4));
        let m = digits_val(d.subrange(5, 7));
        let dd = digits_val(d.subrange(8, 10));
        if 1 <= m <= 12 && 1 <= dd <= days_in_month(y, m) {
            Some(Date { year: y as i32, month: m as u32, day: dd as u32 })
        } else {
            None
        }
    } else {
        None
    }
}

proof fn lemma_digits_val4(s: Seq<char>)
    requires
        s.len() == 4,
    ensures
        digits_val(s) == ((digit_val(s[0]) * 10 + digit_val(s[1])) * 10 + digit_val(s[2])) * 10
            + digit_val(s[3]),
{
    assert(s.take(1).drop_last() =~= s.take(0));
    assert(s.take(2).drop_last() =~= s.take(1));
    assert(s.take(3).drop_last() =~= s.take(2));
    assert(s.drop_last() =~= s.take(3));
    assert(digits_val(s.take(0)) == 0);
    assert(digits_val(s.take(1)) == digit_val(s[0]));
    assert(digits_val(s.take(2)) == digit_val(s[0]) * 10 + digit_val(s[1]));
    assert(digits_val(s.take(3)) == (digit_val(s[0]) * 10 + digit_val(s[1])) * 10 + digit_val(
        s[2],
    ));
}

proof fn lemma_digits_val2(s: Seq<char>)
    requires
        s.len() == 2,
    ensures
        digits_val(s) == digit_val(s[0]) * 10 + digit_val(s[1]),
{
    assert(s.take(1).drop_last() =~= s.take(0));
    assert(s.drop_last() =~= s.take(1));
    assert(digits_val(s.take(0)) == 0);
    assert(digits_val(s.take(1)) == digit_val(s[0]));
}

/// Reads the calendar date out of a timestamp string, as the fetched
/// entries carry it: the `YYYY-MM-DD` part before any `T` separator.
#[verifier::rlimit(60)]
pub fn parse_date(timestamp_str: &str) -> (r: Result<Date, InternalError>)
    ensures
        r is Ok <==> spec_parse_date(timestamp_str@) is Some,
        r is Ok ==> r->Ok_0 == spec_parse_date(timestamp_str@)->Some_0 && r->Ok_0.valid(),
        r is Err ==> r->Err_0 is DateParsing,
{
    let n = timestamp_str.unicode_len();
    let ghost sv = timestamp_str@;
    let mut t: usize = 0;
    while t < n
        invariant_except_break
            0 <= t <= n,
            n == sv.len(),
            sv == timestamp_str@,
            forall|j: int| 0 <= j < t ==> sv[j] != 'T',
        ensures
            0 <= t <= n,
            n == sv.len(),
            sv == timestamp_str@,
            forall|j: int| 0 <= j < t ==> sv[j] != 'T',
            t == n || sv[t as int] == 'T',
        decreases n - t,
    {
        if timestamp_str.get_char(t) == 'T' {
            break ;
        }
        t = t + 1;
    }
    proof {
        lemma_before_t_take(sv, t as int);
    }
    let ghost d = before_t(sv);
    if t != 10 {
        return Err(InternalError::DateParsing(String::from_str("date")));
    }
    proof {
        assert(d.len() == 10);
        assert forall|j: int| 0 <= j < 10 implies d[j] == sv[j] by {}
    }
    let c0 = timestamp_str.get_char(0);
    let c1 = timestamp_str.get_char(1);
    let c2 = timestamp_str.get_char(2);
    let c3 = timestamp_str.get_char(3);
    let c4 = timestamp_str.get_char(4);
    let c5 = timestamp_str.get_char(5);
    let c6 = timestamp_str.get_char(6);
    let c7 = timestamp_str.get_char(7);
    let c8 = timestamp_str.get_char(8);
    let c9 = timestamp_str.get_char(9);
    let ok = is_digit_exec(c0) && is_digit_exec(c1) && is_digit_exec(c2) && is_digit_exec(c3) && c4
        == '-' && is_digit_exec(c5) && is_digit_exec(c6) && c7 == '-' && is_digit_exec(c8)
        && is_digit_exec(c9);
    if !ok {
        return Err(InternalError::DateParsing(String::from_str("date")));
    }
    let y: u32 = ((digit_of(c0) * 10 + digit_of(c1)) * 10 + digit_of(c2)) * 10 + digit_of(c3);
    let m: u32 = digit_of(c5) * 10 + digit_of(c6);
    let dd: u32 = digit_of(c8) * 10 + digit_of(c9);
    proof {
        lemma_digits_val4(d.take(4));
        assert(y == digits_val(d.take(4)));
        lemma_digits_val2(d.subrange(5, 7));
        assert(m == digits_val(d.subrange(5, 7)));
        lemma_digits_val2(d.subrange(8, 10));
        assert(dd == digits_val(d.subrange(8, 10)));
    }
    if m < 1 || m > 12 {
        return Err(InternalError::DateParsing(String::from_str("date")));
    }
    if dd < 1 || dd > days_in_month_exec(y as i32, m) {
        return Err(InternalError::DateParsing(String::from_str("date")));
    }
    Ok(Date { year: y as i32, month: m, day: dd })
}

fn is_digit_exec(c: char) -> (r: bool)
    ensures
        r == spec_is_digit(c),
{
    let u = c as u32;
    48 <= u && u <= 57
}

fn digit_of(c: char) -> (r: u32)
    requires
        spec_is_digit(c),
    ensures
        r == digit_val(c),
{
    (c as u32) - 48
}

} // verus!
