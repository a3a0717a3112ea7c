//! Calendar dates and their canonical `YYYY-MM-DD.md` file names.
use vstd::prelude::*;

verus! {

/// Relies on time::util::is_leap_year: the proleptic Gregorian leap-year rule.
pub assume_specification[ time::util::is_leap_year ](year: i32) -> (r: bool)
    ensures
        r == is_leap(year as int),
;

/// The Gregorian leap-year rule.
pub open spec fn is_leap(y: int) -> bool {
    y % 4 == 0 && (y % 100 != 0 || y % 400 == 0)
}

/// Number of days in month `m` (1..=12) of year `y`.
pub open spec fn month_length(y: int, m: int) -> int {
    if m == 2 {
        if is_leap(y) { 29 } else { 28 }
    } else if m == 4 || m == 6 || m == 9 || m == 11 {
        30
    } else {
        31
    }
}

/// A real date with a four-digit year, the range that entry names can express.
pub open spec fn valid_date(y: int, m: int, d: int) -> bool {
    &&& 0 <= y <= 9999
    &&& 1 <= m <= 12
    &&& 1 <= d <= month_length(y, m)
}

/// A proleptic-Gregorian calendar date.
#[derive(Clone, Copy, Debug, PartialEq, Eq, Structural)]
pub struct CalendarDate {
    pub year: i32,
    pub month: u8,
    pub day: u8,
}

impl CalendarDate {
    pub open spec fn wf(&self) -> bool {
        valid_date(self.year as int, self.month as int, self.day as int)
    }

    /// Strictly earlier in (year, month, day) order.
    pub open spec fn lt(&self, other: CalendarDate) -> bool {
        self.year < other.year || (self.year == other.year && (self.month < other.month || (
        self.month == other.month && self.day < other.day)))
    }

    /// The date with these components, if they form a real date with a four-digit year.
    pub fn new(year: i32, month: u8, day: u8) -> (r: Option<CalendarDate>)
        ensures
            r == (if valid_date(year as int, month as int, day as int) {
                Some(CalendarDate { year, month, day })
            } else {
                None
            }),
    {
        if 0 <= year && year <= 9999 && 1 <= month && month <= 12 && 1 <= day && day <= days_in_month(
            year,
            month,
        ) {
            Some(CalendarDate { year, month, day })
        } else {
            None
        }
    }

    /// Whether `self` comes strictly before `other`.
    pub fn is_before(&self, other: &CalendarDate) -> (r: bool)
        ensures
            r == self.lt(*other),
    {
        self.year < other.year || (self.year == other.year && (self.month < other.month || (
        self.month == other.month && self.day < other.day)))
    }
}

/// Number of days in a month of a given year.
pub fn days_in_month(year: i32, month: u8) -> (r: u8)
    requires
        1 <= month <= 12,
    ensures
        r as int == month_length(year as int, month as int),
{
    if month == 2 {
        if time::util::is_leap_year(year) {
            29
        } else {
            28
        }
    } else if month == 4 || month == 6 || month == 9 || month == 11 {
        30
    } else {
        31
    }
}

/// The decimal digit character for `n` in 0..=9.
pub open spec fn digit_char(n: int) -> char {
    if n == 0 { '0' }
    else if n == 1 { '1' }
    else if n == 2 { '2' }
    else if n == 3 { '3' }
    else if n == 4 { '4' }
    else if n == 5 { '5' }
    else if n == 6 { '6' }
    else if n == 7 { '7' }
    else if n == 8 { '8' }
    else { '9' }
}

/// The value of a decimal digit character, if `c` is one.
pub open spec fn digit_value(c: char) -> Option<int> {
    if c == '0' { Some(0) }
    else if c == '1' { Some(1) }
    else if c == '2' { Some(2) }
    else if c == '3' { Some(3) }
    else if c == '4' { Some(4) }
    else if c == '5' { Some(5) }
    else if c == '6' { Some(6) }
    else if c == '7' { Some(7) }
    else if c == '8' { Some(8) }
    else if c == '9' { Some(9) }
    else { None }
}

/// `n` written with exactly two zero-padded digits.
pub open spec fn two_digits(n: int) -> Seq<char> {
    seq![digit_char(n / 10), digit_char(n % 10)]
}

/// `n` written with exactly four zero-padded digits.
pub open spec fn four_digits(n: int) -> Seq<char> {
    seq![digit_char(n / 1000), digit_char(n / 100 % 10), digit_char(n / 10 % 10), digit_char(n % 10)]
}

/// The ISO-8601 extended form `YYYY-MM-DD` of a date.
pub open spec fn iso_text(d: CalendarDate) -> Seq<char> {
    four_digits(d.year as int) + seq!['-'] + two_digits(d.month as int) + seq!['-'] + two_digits(
        d.day as int,
    )
}

/// The canonical file name of the entry for a date.
pub open spec fn encoded(d: CalendarDate) -> Seq<char> {
    iso_text(d) + seq!['.', 'm', 'd']
}

/// The numeric fields of a name of the shape `DDDD-DD-DD.md`, `D` a decimal digit.
pub open spec fn name_fields(s: Seq<char>) -> Option<(int, int, int)> {
    if s.len() == 13 && s[4] == '-' && s[7] == '-' && s[10] == '.' && s[11] == 'm' && s[12] == 'd'
        && digit_value(s[0]) is Some && digit_value(s[1]) is Some && digit_value(s[2]) is Some
        && digit_value(s[3]) is Some && digit_value(s[5]) is Some && digit_value(s[6]) is Some
        && digit_value(s[8]) is Some && digit_value(s[9]) is Some {
        Some(
            (
                digit_value(s[0])->0 * 1000 + digit_value(s[1])->0 * 100 + digit_value(s[2])->0 * 10
                    + digit_value(s[3])->0,
                digit_value(s[5])->0 * 10 + digit_value(s[6])->0,
                digit_value(s[8])->0 * 10 + digit_value(s[9])->0,
            ),
        )
    } else {
        None
    }
}

/// The date that a file name stands for, if it is the canonical name of one.
pub open spec fn decoded(s: Seq<char>) -> Option<CalendarDate> {
    match name_fields(s) {
        Some((y, m, d)) => if valid_date(y, m, d) {
            Some(CalendarDate { year: y as i32, month: m as u8, day: d as u8 })
        } else {
            None
        },
        None => None,
    }
}

fn digit_to_char(n: u8) -> (c: char)
    requires
        n < 10,
    ensures
        c == digit_char(n as int),
{
    match n {
        0 => '0',
        1 => '1',
        2 => '2',
        3 => '3',
        4 => '4',
        5 => '5',
        6 => '6',
        7 => '7',
        8 => '8',
        _ => '9',
    }
}

pub(crate) fn char_to_digit(c: char) -> (r: Option<u8>)
    ensures
        r matches Some(v) ==> digit_value(c) == Some(v as int) && v < 10,
        r is None ==> digit_value(c) is None,
{
    match c {
        '0' => Some(0),
        '1' => Some(1),
        '2' => Some(2),
        '3' => Some(3),
        '4' => Some(4),
        '5' => Some(5),
        '6' => Some(6),
        '7' => Some(7),
        '8' => Some(8),
        '9' => Some(9),
        _ => None,
    }
}

/// Relies on String::push: appends one character.
#[verifier::external_body]
pub(crate) fn push_char(s: &mut String, c: char)
    ensures
        final(s)@ == old(s)@.push(c),
{
    s.push(c)
}

/// The `YYYY-MM-DD` form of a date.
pub fn iso_date(date: &CalendarDate) -> (r: String)
    requires
        date.wf(),
    ensures
        r@ == iso_text(*date),
{
    let y = date.year as u16;
    let mut r = String::new();
    push_char(&mut r, digit_to_char((y / 1000) as u8));
    push_char(&mut r, digit_to_char((y / 100 % 10) as u8));
    push_char(&mut r, digit_to_char((y / 10 % 10) as u8));
    push_char(&mut r, digit_to_char((y % 10) as u8));
    push_char(&mut r, '-');
    push_char(&mut r, digit_to_char(date.month / 10));
    push_char(&mut r, digit_to_char(date.month % 10));
    push_char(&mut r, '-');
    push_char(&mut r, digit_to_char(date.day / 10));
    push_char(&mut r, digit_to_char(date.day % 10));
    assert(r@ =~= iso_text(*date));
    r
}

/// The canonical file name `YYYY-MM-DD.md` of the entry for a date.
pub fn encode(date: &CalendarDate) -> (r: String)
    requires
        date.wf(),
    ensures
        r@ == encoded(*date),
{
    let mut r = iso_date(date);
    push_char(&mut r, '.');
    push_char(&mut r, 'm');
    push_char(&mut r, 'd');
    assert(r@ =~= encoded(*date));
    r
}

proof fn lemma_digit_round_trip(n: int)
    requires
        0 <= n < 10,
    ensures
        digit_value(digit_char(n)) == Some(n),
{
}

proof fn lemma_four_digits(y: int)
    requires
        0 <= y <= 9999,
    ensures
        0 <= y / 1000 < 10,
        0 <= y / 100 % 10 < 10,
        0 <= y / 10 % 10 < 10,
        0 <= y % 10 < 10,
        y / 1000 * 1000 + y / 100 % 10 * 100 + y / 10 % 10 * 10 + y % 10 == y,
{
    assert(y / 1000 * 1000 + y / 100 % 10 * 100 + y / 10 % 10 * 10 + y % 10 == y) by (nonlinear_arith)
        requires
            0 <= y <= 9999,
    ;
}

/// Decoding the canonical name of a date gives that date back.
pub proof fn lemma_decode_encode(d: CalendarDate)
    requires
        d.wf(),
    ensures
        decoded(encoded(d)) == Some(d),
{
    let s = encoded(d);
    let y = d.year as int;
    let m = d.month as int;
    let dd = d.day as int;
    lemma_four_digits(y);
    lemma_digit_round_trip(y / 1000);
    lemma_digit_round_trip(y / 100 % 10);
    lemma_digit_round_trip(y / 10 % 10);
    lemma_digit_round_trip(y % 10);
    lemma_digit_round_trip(m / 10);
    lemma_digit_round_trip(m % 10);
    lemma_digit_round_trip(dd / 10);
    lemma_digit_round_trip(dd % 10);
    assert(s.len() == 13);
    assert(s[0] == digit_char(y / 1000));
    assert(s[1] == digit_char(y / 100 % 10));
    assert(s[2] == digit_char(y / 10 % 10));
    assert(s[3] == digit_char(y % 10));
    assert(s[5] == digit_char(m / 10));
    assert(s[6] == digit_char(m % 10));
    assert(s[8] == digit_char(dd / 10));
    assert(s[9] == digit_char(dd % 10));
    assert(s[4] == '-' && s[7] == '-' && s[10] == '.' && s[11] == 'm' && s[12] == 'd');
    assert(name_fields(s) == Some((y, m, dd)));
}

/// The day before `d`, within the four-digit years.
pub open spec fn prev_date(d: CalendarDate) -> Option<CalendarDate> {
    if d.day > 1 {
        Some(CalendarDate { year: d.year, month: d.month, day: (d.day - 1) as u8 })
    } else if d.month > 1 {
        Some(
            CalendarDate {
                year: d.year,
                month: (d.month - 1) as u8,
                day: month_length(d.year as int, d.month - 1) as u8,
            },
        )
    } else if d.year > 0 {
        Some(CalendarDate { year: (d.year - 1) as i32, month: 12, day: 31 })
    } else {
        None
    }
}

impl CalendarDate {
    /// The day before this one; `None` for the first day of year 0.
    pub fn previous_day(&self) -> (r: Option<CalendarDate>)
        requires
            self.wf(),
        ensures
            r == prev_date(*self),
            r matches Some(p) ==> p.wf() && p.lt(*self),
    {
        if self.day > 1 {
            Some(CalendarDate { year: self.year, month: self.month, day: self.day - 1 })
        } else if self.month > 1 {
            let m = self.month - 1;
            Some(CalendarDate { year: self.year, month: m, day: days_in_month(self.year, m) })
        } else if self.year > 0 {
            Some(CalendarDate { year: self.year - 1, month: 12, day: 31 })
        } else {
            None
        }
    }
}

/// The English name of month `m` (1..=12).
pub open spec fn month_name(m: int) -> Seq<char> {
    if m == 1 {
        "January"@
    } else if m == 2 {
        "February"@
    } else if m == 3 {
        "March"@
    } else if m == 4 {
        "April"@
    } else if m == 5 {
        "May"@
    } else if m == 6 {
        "June"@
    } else if m == 7 {
        "July"@
    } else if m == 8 {
        "August"@
    } else if m == 9 {
        "September"@
    } else if m == 10 {
        "October"@
    } else if m == 11 {
        "November"@
    } else {
        "December"@
    }
}

/// The day of the month without padding.
pub open spec fn day_text(d: int) -> Seq<char> {
    if d < 10 {
        seq![digit_char(d)]
    } else {
        two_digits(d)
    }
}

/// The human-readable form `Month D, YYYY` of a date.
pub open spec fn long_text(d: CalendarDate) -> Seq<char> {
    month_name(d.month as int) + seq![' '] + day_text(d.day as int) + seq![',', ' '] + four_digits(
        d.year as int,
    )
}

fn month_name_str(m: u8) -> (r: &'static str)
    requires
        1 <= m <= 12,
    ensures
        r@ == month_name(m as int),
{
    match m {
        1 => "January",
        2 => "February",
        3 => "March",
        4 => "April",
        5 => "May",
        6 => "June",
        7 => "July",
        8 => "August",
        9 => "September",
        10 => "October",
        11 => "November",
        _ => "December",
    }
}

/// The human-readable form `Month D, YYYY` of a date, e.g. `January 1, 2019`.
pub fn long_date(date: &CalendarDate) -> (r: String)
    requires
        date.wf(),
    ensures
        r@ == long_text(*date),
{
    let mut r = String::from_str(month_name_str(date.month));
    push_char(&mut r, ' ');
    if date.day >= 10 {
        push_char(&mut r, digit_to_char(date.day / 10));
    }
    push_char(&mut r, digit_to_char(date.day % 10));
    push_char(&mut r, ',');
    push_char(&mut r, ' ');
    let y = date.year as u16;
    push_char(&mut r, digit_to_char((y / 1000) as u8));
    push_char(&mut r, digit_to_char((y / 100 % 10) as u8));
    push_char(&mut r, digit_to_char((y / 10 % 10) as u8));
    push_char(&mut r, digit_to_char((y % 10) as u8));
    assert(r@ =~= long_text(*date));
    r
}

proof fn lemma_month_name_single_line(m: int)
    requires
        1 <= m <= 12,
    ensures
        forall|k: int| 0 <= k < month_name(m).len() ==> month_name(m)[k] != '\n',
{
    reveal_strlit("January");
    reveal_strlit("February");
    reveal_strlit("March");
    reveal_strlit("April");
    reveal_strlit("May");
    reveal_strlit("June");
    reveal_strlit("July");
    reveal_strlit("August");
    reveal_strlit("September");
    reveal_strlit("October");
    reveal_strlit("November");
    reveal_strlit("December");
}

/// The human-readable form of a date is one line.
pub proof fn lemma_long_text_single_line(d: CalendarDate)
    requires
        d.wf(),
    ensures
        forall|k: int| 0 <= k < long_text(d).len() ==> long_text(d)[k] != '\n',
{
    let t = long_text(d);
    let mn = month_name(d.month as int);
    lemma_month_name_single_line(d.month as int);
    assert forall|k: int| 0 <= k < t.len() implies t[k] != '\n' by {
        if k < mn.len() {
            assert(t[k] == mn[k]);
        }
    }
}

} // verus!
