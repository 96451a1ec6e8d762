//! Calendar dates: year-month-day values with no time component,
//! written and read in the `YYYY-MM-DD` shape the Todo.txt format
//! uses.

use vstd::prelude::*;

use crate::error::TodoError;

verus! {

/// Gregorian leap-year rule.
pub open spec fn is_leap_year(y: int) -> bool {
    y % 4 == 0 && (y % 100 != 0 || y % 400 == 0)
}

/// How many days the given month of the given year has.
pub open spec fn days_in_month(y: int, m: int) -> int {
    if m == 2 {
        if is_leap_year(y) {
            29
        } else {
            28
        }
    } else if m == 4 || m == 6 || m == 9 || m == 11 {
        30
    } else {
        31
    }
}

/// A calendar-valid date with a four-digit year.
pub open spec fn valid_ymd(y: int, m: int, d: int) -> bool {
    0 <= y <= 9999 && 1 <= m <= 12 && 1 <= d <= days_in_month(y, m)
}

/// Whether a character is an ASCII decimal digit.
pub open spec fn is_digit(c: char) -> bool {
    '0' <= c <= '9'
}

/// The numeric value of an ASCII decimal digit character.
pub open spec fn digit_val(c: char) -> int {
    (c as int) - ('0' as int)
}

/// The ASCII digit character for a value below ten.
pub open spec fn digit_char(n: int) -> char {
    if n == 0 {
        '0'
    } else if n == 1 {
        '1'
    } else if n == 2 {
        '2'
    } else if n == 3 {
        '3'
    } else if n == 4 {
        '4'
    } else if n == 5 {
        '5'
    } else if n == 6 {
        '6'
    } else if n == 7 {
        '7'
    } else if n == 8 {
        '8'
    } else {
        '9'
    }
}

/// The ten-character `YYYY-MM-DD` text of a date.
pub open spec fn date_text(y: int, m: int, d: int) -> Seq<char> {
    seq![
        digit_char(y / 1000),
        digit_char((y / 100) % 10),
        digit_char((y / 10) % 10),
        digit_char(y % 10),
        '-',
        digit_char(m / 10),
        digit_char(m % 10),
        '-',
        digit_char(d / 10),
        digit_char(d % 10),
    ]
}

/// Whether a token has the ten-character digit-hyphen shape
/// `YYYY-MM-DD`.
pub open spec fn date_shaped(t: Seq<char>) -> bool {
    &&& t.len() == 10
    &&& is_digit(t[0])
    &&& is_digit(t[1])
    &&& is_digit(t[2])
    &&& is_digit(t[3])
    &&& t[4] == '-'
    &&& is_digit(t[5])
    &&& is_digit(t[6])
    &&& t[7] == '-'
    &&& is_digit(t[8])
    &&& is_digit(t[9])
}

/// The year, month and day a date-shaped token spells, calendar-valid
/// or not.
pub open spec fn date_fields(t: Seq<char>) -> (int, int, int) {
    (
        digit_val(t[0]) * 1000 + digit_val(t[1]) * 100 + digit_val(t[2]) * 10 + digit_val(t[3]),
        digit_val(t[5]) * 10 + digit_val(t[6]),
        digit_val(t[8]) * 10 + digit_val(t[9]),
    )
}

/// The date a token denotes: `Some` exactly for tokens of the
/// `YYYY-MM-DD` shape that spell a calendar-valid date.
pub open spec fn date_token(t: Seq<char>) -> Option<(int, int, int)> {
    if date_shaped(t) {
        let (y, m, d) = date_fields(t);
        if valid_ymd(y, m, d) {
            Some((y, m, d))
        } else {
            None
        }
    } else {
        None
    }
}

/// A calendar date (year-month-day, no time component). Every value
/// of this type holds a calendar-valid date with a four-digit year.
#[derive(Debug, Clone, Copy, PartialEq, Eq, Structural)]
pub struct Date {
    year: u16,
    month: u8,
    day: u8,
}

impl Date {
    /// Every `Date` value holds a calendar-valid date.
    #[verifier::type_invariant]
    closed spec fn type_inv(self) -> bool {
        self.wf()
    }

    /// The year, for use in specifications.
    pub closed spec fn spec_year(self) -> int {
        self.year as int
    }

    /// The month, for use in specifications.
    pub closed spec fn spec_month(self) -> int {
        self.month as int
    }

    /// The day, for use in specifications.
    pub closed spec fn spec_day(self) -> int {
        self.day as int
    }

    /// The (year, month, day) triple, for use in specifications.
    pub open spec fn spec_ymd(self) -> (int, int, int) {
        (self.spec_year(), self.spec_month(), self.spec_day())
    }

    /// Holds of every value the constructors hand out: the fields form
    /// a calendar-valid date.
    pub open spec fn wf(self) -> bool {
        valid_ymd(self.spec_year(), self.spec_month(), self.spec_day())
    }

    /// Creates a date; succeeds exactly on calendar-valid
    /// year-month-day triples.
    pub fn new(year: u16, month: u8, day: u8) -> (r: Option<Date>)
        ensures
            r is Some <==> valid_ymd(year as int, month as int, day as int),
            r matches Some(d) ==> d.spec_ymd() == (year as int, month as int, day as int),
    {
        if check_ymd(year as u32, month as u32, day as u32) {
            Some(Date { year, month, day })
        } else {
            None
        }
    }

    /// Returns the year.
    pub fn year(&self) -> (y: u16)
        ensures
            y as int == self.spec_year(),
    {
        self.year
    }

    /// Returns the month.
    pub fn month(&self) -> (m: u8)
        ensures
            m as int == self.spec_month(),
    {
        self.month
    }

    /// Returns the day.
    pub fn day(&self) -> (d: u8)
        ensures
            d as int == self.spec_day(),
    {
        self.day
    }

    /// Renders the date as its `YYYY-MM-DD` text.
    pub fn to_text(&self) -> (r: String)
        ensures
            r@ == date_text(self.spec_year(), self.spec_month(), self.spec_day()),
    {
        proof {
            use_type_invariant(*self);
        }
        let mut s = String::new();
        let y: u32 = self.year as u32;
        let m: u32 = self.month as u32;
        let d: u32 = self.day as u32;
        s.push(digit_to_char(y / 1000));
        s.push(digit_to_char((y / 100) % 10));
        s.push(digit_to_char((y / 10) % 10));
        s.push(digit_to_char(y % 10));
        s.push('-');
        s.push(digit_to_char(m / 10));
        s.push(digit_to_char(m % 10));
        s.push('-');
        s.push(digit_to_char(d / 10));
        s.push(digit_to_char(d % 10));
        proof {
            assert(s@ =~= date_text(self.spec_year(), self.spec_month(), self.spec_day()));
        }
        s
    }

    /// Parses a `YYYY-MM-DD` string into a date, reporting
    /// `InvalidDateFormat` carrying the offending string for any input
    /// that is not shaped so or is not calendar-valid.
    pub fn parse(s: &str) -> (r: Result<Date, TodoError>)
        ensures
            r is Ok <==> date_token(s@) is Some,
            r matches Ok(d) ==> date_token(s@) == Some(d.spec_ymd()),
            r matches Err(e) ==> e matches TodoError::InvalidDateFormat(t) && t@ == s@,
    {
        match parse_date_str(s) {
            Some(d) => Ok(d),
            None => Err(TodoError::InvalidDateFormat(s.to_owned())),
        }
    }
}

/// Whether the given character is an ASCII decimal digit.
fn check_digit(c: char) -> (b: bool)
    ensures
        b == is_digit(c),
{
    '0' <= c && c <= '9'
}

/// The numeric value of an ASCII decimal digit character.
fn digit_value(c: char) -> (n: u32)
    requires
        is_digit(c),
    ensures
        n == digit_val(c),
        n < 10,
{
    (c as u32) - ('0' as u32)
}

/// The ASCII digit character for a value below ten.
fn digit_to_char(n: u32) -> (c: char)
    requires
        n < 10,
    ensures
        c == digit_char(n as int),
{
    if n == 0 {
        '0'
    } else if n == 1 {
        '1'
    } else if n == 2 {
        '2'
    } else if n == 3 {
        '3'
    } else if n == 4 {
        '4'
    } else if n == 5 {
        '5'
    } else if n == 6 {
        '6'
    } else if n == 7 {
        '7'
    } else if n == 8 {
        '8'
    } else {
        '9'
    }
}

/// How many days the given month of the given year has.
pub fn month_len(y: u32, m: u32) -> (n: u32)
    requires
        1 <= m <= 12,
    ensures
        n == days_in_month(y as int, m as int),
        28 <= n <= 31,
{
    if m == 2 {
        if y % 4 == 0 && (y % 100 != 0 || y % 400 == 0) {
            29
        } else {
            28
        }
    } else if m == 4 || m == 6 || m == 9 || m == 11 {
        30
    } else {
        31
    }
}

/// Whether the triple forms a calendar-valid date with a four-digit
/// year.
pub fn check_ymd(y: u32, m: u32, d: u32) -> (b: bool)
    ensures
        b == valid_ymd(y as int, m as int, d as int),
{
    if y > 9999 || m < 1 || m > 12 || d < 1 {
        false
    } else {
        d <= month_len(y, m)
    }
}

/// Relies on chrono's `Local::now` (via `date_naive`) and the
/// `Datelike` accessors for the current local calendar date: chrono
/// documents that `month` is in 1 through 12 and `day` in 1 through
/// 31.
#[verifier::external_body]
fn local_today() -> (r: (i32, u32, u32))
    ensures
        1 <= r.1 <= 12,
        1 <= r.2 <= 31,
{
    let d = chrono::Local::now().date_naive();
    (chrono::Datelike::year(&d), chrono::Datelike::month(&d), chrono::Datelike::day(&d))
}

/// Forms a date from a clock reading, taking the triple as it stands
/// whenever it is a calendar-valid date with a four-digit year, and
/// otherwise clamping the year into four digits and the day to the
/// month's length.
pub fn clamp_ymd(y: i32, m: u32, d: u32) -> (r: Date)
    requires
        1 <= m <= 12,
        1 <= d <= 31,
    ensures
        r.spec_year() == if y < 0 {
            0
        } else if y > 9999 {
            9999
        } else {
            y as int
        },
        r.spec_month() == m as int,
        r.spec_day() == if d as int <= days_in_month(r.spec_year(), m as int) {
            d as int
        } else {
            days_in_month(r.spec_year(), m as int)
        },
{
    let yc: u16 = if y < 0 {
        0
    } else if y > 9999 {
        9999
    } else {
        y as u16
    };
    let dim: u32 = month_len(yc as u32, m);
    let dc: u32 = if d <= dim {
        d
    } else {
        dim
    };
    Date { year: yc, month: m as u8, day: dc as u8 }
}

impl Date {
    /// The current local calendar date, read from the system clock.
    /// Whatever the clock reports, the result is a calendar-valid
    /// date.
    pub fn today() -> (r: Date)
        ensures
            r.wf(),
    {
        let (y, m, d) = local_today();
        let r = clamp_ymd(y, m, d);
        proof {
            use_type_invariant(r);
        }
        r
    }
}

/// Parses a `YYYY-MM-DD` string, yielding a date exactly when the
/// string is a calendar-valid date token.
pub fn parse_date_str(s: &str) -> (r: Option<Date>)
    ensures
        r is Some <==> date_token(s@) is Some,
        r matches Some(d) ==> date_token(s@) == Some(d.spec_ymd()),
{
    if s.unicode_len() != 10 {
        return None;
    }
    let c0 = s.get_char(0);
    let c1 = s.get_char(1);
    let c2 = s.get_char(2);
    let c3 = s.get_char(3);
    let c4 = s.get_char(4);
    let c5 = s.get_char(5);
    let c6 = s.get_char(6);
    let c7 = s.get_char(7);
    let c8 = s.get_char(8);
    let c9 = s.get_char(9);
    if !(check_digit(c0) && check_digit(c1) && check_digit(c2) && check_digit(c3) && c4 == '-'
        && check_digit(c5) && check_digit(c6) && c7 == '-' && check_digit(c8) && check_digit(c9)) {
        return None;
    }
    let y: u32 = digit_value(c0) * 1000 + digit_value(c1) * 100 + digit_value(c2) * 10
        + digit_value(c3);
    let m: u32 = digit_value(c5) * 10 + digit_value(c6);
    let d: u32 = digit_value(c8) * 10 + digit_value(c9);
    if check_ymd(y, m, d) {
        let date = Date { year: y as u16, month: m as u8, day: d as u8 };
        Some(date)
    } else {
        None
    }
}

/// Reading back the text of a date recovers the date: for every
/// calendar-valid triple, the rendered `YYYY-MM-DD` text is a date
/// token spelling exactly that triple.
pub proof fn lemma_date_round_trip(y: int, m: int, d: int)
    requires
        valid_ymd(y, m, d),
    ensures
        date_token(date_text(y, m, d)) == Some((y, m, d)),
{
    let t = date_text(y, m, d);
    assert(y / 1000 < 10 && y / 1000 >= 0) by (nonlinear_arith)
        requires 0 <= y <= 9999;
    lemma_digit_char_val(y / 1000);
    lemma_digit_char_val((y / 100) % 10);
    lemma_digit_char_val((y / 10) % 10);
    lemma_digit_char_val(y % 10);
    lemma_digit_char_val(m / 10);
    lemma_digit_char_val(m % 10);
    lemma_digit_char_val(d / 10);
    lemma_digit_char_val(d % 10);
    assert(date_shaped(t));
    lemma_recompose4(y);
    lemma_recompose2(m);
    lemma_recompose2(d);
    assert(date_fields(t) == (y, m, d));
}

/// The digit character of a value below ten reads back as that value.
proof fn lemma_digit_char_val(n: int)
    requires
        0 <= n < 10,
    ensures
        is_digit(digit_char(n)),
        digit_val(digit_char(n)) == n,
{
}

/// A number below ten thousand is the weighted sum of its four decimal
/// digits.
proof fn lemma_recompose4(y: int)
    requires
        0 <= y <= 9999,
    ensures
        (y / 1000) * 1000 + ((y / 100) % 10) * 100 + ((y / 10) % 10) * 10 + y % 10 == y,
{
    assert((y / 1000) * 1000 + ((y / 100) % 10) * 100 + ((y / 10) % 10) * 10 + y % 10 == y)
        by (nonlinear_arith)
        requires 0 <= y <= 9999;
}

/// A number below one hundred is the weighted sum of its two decimal
/// digits.
proof fn lemma_recompose2(m: int)
    requires
        0 <= m <= 99,
    ensures
        (m / 10) * 10 + m % 10 == m,
{
    assert((m / 10) * 10 + m % 10 == m) by (nonlinear_arith)
        requires 0 <= m <= 99;
}

} // verus!
