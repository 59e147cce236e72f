//! Calendar days of the proleptic Gregorian calendar, years 1 to 9999.
//!
//! A [`Date`] is kept as the number of its day, counted from 1 for
//! 0001-01-01, so that dates compare and subtract as integers do. The civil
//! form (year, month, day) is converted to and from that number.

use crate::text::chars_of;
use vstd::prelude::*;
use vstd::string::StringExecFns;

verus! {

/// The last year a [`Date`] can lie in.
pub const MAX_YEAR: i32 = 9999;

/// The number of the last day, 9999-12-31.
pub const LAST_DAY: u32 = 3_652_059;

/// Whether year `y` has a 29th of February.
pub open spec fn is_leap_year(y: int) -> bool {
    y % 4 == 0 && (y % 100 != 0 || y % 400 == 0)
}

/// The number of days in year `y`.
pub open spec fn year_length(y: int) -> int {
    if is_leap_year(y) {
        366
    } else {
        365
    }
}

/// The number of days in month `m` of year `y`.
pub open spec fn days_in_month(y: int, m: int) -> int {
    if m == 2 {
        if is_leap_year(y) {
            29
        } else {
            28
        }
    } else if m == 4 || m == 6 || m == 9 || m == 11 {
        30
    } else {
        31
    }
}

/// The number of days in the years 1 to `y - 1`.
pub open spec fn days_before_year(y: int) -> int
    decreases y,
{
    if y <= 1 {
        0
    } else {
        days_before_year(y - 1) + year_length(y - 1)
    }
}

/// The number of days in the months 1 to `m - 1` of year `y`.
pub open spec fn days_before_month(y: int, m: int) -> int
    decreases m,
{
    if m <= 1 {
        0
    } else {
        days_before_month(y, m - 1) + days_in_month(y, m - 1)
    }
}

/// Whether (`y`, `m`, `d`) names a day of the calendar.
pub open spec fn valid_ymd(y: int, m: int, d: int) -> bool {
    &&& 1 <= y <= MAX_YEAR
    &&& 1 <= m <= 12
    &&& 1 <= d <= days_in_month(y, m)
}

/// The number of the day (`y`, `m`, `d`): 1 for 0001-01-01, and one more for
/// each day after it.
pub open spec fn day_number(y: int, m: int, d: int) -> int {
    days_before_year(y) + days_before_month(y, m) + d
}

/// (`y1`, `m1`, `d1`) is an earlier day than (`y2`, `m2`, `d2`).
pub open spec fn ymd_before(y1: int, m1: int, d1: int, y2: int, m2: int, d2: int) -> bool {
    y1 < y2 || (y1 == y2 && (m1 < m2 || (m1 == m2 && d1 < d2)))
}

/// The character that writes the digit `n`.
#[verifier::opaque]
pub open spec fn digit(n: int) -> char {
    if n == 0 {
        '0'
    } else if n == 1 {
        '1'
    } else if n == 2 {
        '2'
    } else if n == 3 {
        '3'
    } else if n == 4 {
        '4'
    } else if n == 5 {
        '5'
    } else if n == 6 {
        '6'
    } else if n == 7 {
        '7'
    } else if n == 8 {
        '8'
    } else {
        '9'
    }
}

/// The day (`y`, `m`, `d`) written as `YYYY-MM-DD`, each part filled up with
/// zeros: four digits of year, two of month, two of day.
pub open spec fn iso_text(y: int, m: int, d: int) -> Seq<char> {
    seq![
        digit(y / 10 / 10 / 10),
        digit(y / 10 / 10 % 10),
        digit(y / 10 % 10),
        digit(y % 10),
        '-',
        digit(m / 10),
        digit(m % 10),
        '-',
        digit(d / 10),
        digit(d % 10),
    ]
}

/// Whether `i` is a place of `YYYY-MM-DD` that holds a digit.
pub open spec fn is_digit_place(i: int) -> bool {
    0 <= i < 10 && i != 4 && i != 7
}

/// Different digits are written differently, and none as a hyphen.
pub proof fn lemma_digit_injective(a: int, b: int)
    requires
        0 <= a <= 9,
        0 <= b <= 9,
    ensures
        digit(a) == digit(b) ==> a == b,
        digit(a) != '-',
{
    reveal(digit);
}

/// A number below ten thousand is given by its four digits.
pub proof fn lemma_four_digits(y: int)
    requires
        0 <= y <= 9999,
    ensures
        0 <= y / 10 / 10 / 10 <= 9,
        0 <= y / 10 / 10 % 10 <= 9,
        0 <= y / 10 % 10 <= 9,
        0 <= y % 10 <= 9,
        y == (y / 10 / 10 / 10) * 1000 + (y / 10 / 10 % 10) * 100 + (y / 10 % 10) * 10 + y % 10,
{
    let a = y / 10;
    let b = a / 10;
    assert(y == 10 * a + y % 10);
    assert(a == 10 * b + a % 10);
    assert(b == 10 * (b / 10) + b % 10);
}

/// Four digits make the number that has them as its digits.
pub proof fn lemma_digits_make(a: int, b: int, c: int, d: int)
    requires
        0 <= a <= 9,
        0 <= b <= 9,
        0 <= c <= 9,
        0 <= d <= 9,
    ensures
        ({
            let y = a * 1000 + b * 100 + c * 10 + d;
            &&& 0 <= y <= 9999
            &&& y / 10 / 10 / 10 == a
            &&& y / 10 / 10 % 10 == b
            &&& y / 10 % 10 == c
            &&& y % 10 == d
        }),
{
    let y = a * 1000 + b * 100 + c * 10 + d;
    assert(y == 10 * (a * 100 + b * 10 + c) + d);
    assert(y / 10 == a * 100 + b * 10 + c);
    assert(y / 10 == 10 * (a * 10 + b) + c);
    assert(y / 10 / 10 == a * 10 + b);
}

/// A number below a hundred is given by its two digits.
pub proof fn lemma_two_digits(m: int)
    requires
        0 <= m <= 99,
    ensures
        0 <= m / 10 <= 9,
        0 <= m % 10 <= 9,
        m == (m / 10) * 10 + m % 10,
{
}

/// The parts of a calendar day have at most four, two and two digits.
pub proof fn lemma_valid_ymd_digits(y: int, m: int, d: int)
    requires
        valid_ymd(y, m, d),
    ensures
        0 <= y <= 9999,
        0 <= m <= 99,
        0 <= d <= 99,
{
}

/// A text of four, two and two digits writes one year, month and day only.
pub proof fn lemma_iso_text_digits(y1: int, m1: int, d1: int, y2: int, m2: int, d2: int)
    requires
        0 <= y1 <= 9999,
        0 <= m1 <= 99,
        0 <= d1 <= 99,
        0 <= y2 <= 9999,
        0 <= m2 <= 99,
        0 <= d2 <= 99,
        iso_text(y1, m1, d1) == iso_text(y2, m2, d2),
    ensures
        y1 == y2,
        m1 == m2,
        d1 == d2,
{
    let t1 = iso_text(y1, m1, d1);
    let t2 = iso_text(y2, m2, d2);
    lemma_four_digits(y1);
    lemma_four_digits(y2);
    lemma_two_digits(m1);
    lemma_two_digits(m2);
    lemma_two_digits(d1);
    lemma_two_digits(d2);
    assert(t1[0] == t2[0] && t1[1] == t2[1] && t1[2] == t2[2] && t1[3] == t2[3]);
    assert(t1[5] == t2[5] && t1[6] == t2[6] && t1[8] == t2[8] && t1[9] == t2[9]);
    lemma_digit_injective(y1 / 10 / 10 / 10, y2 / 10 / 10 / 10);
    lemma_digit_injective(y1 / 10 / 10 % 10, y2 / 10 / 10 % 10);
    lemma_digit_injective(y1 / 10 % 10, y2 / 10 % 10);
    lemma_digit_injective(y1 % 10, y2 % 10);
    lemma_digit_injective(m1 / 10, m2 / 10);
    lemma_digit_injective(m1 % 10, m2 % 10);
    lemma_digit_injective(d1 / 10, d2 / 10);
    lemma_digit_injective(d1 % 10, d2 % 10);
}

/// Two calendar days that are written the same are the same day.
pub proof fn lemma_iso_text_injective(y1: int, m1: int, d1: int, y2: int, m2: int, d2: int)
    requires
        valid_ymd(y1, m1, d1),
        valid_ymd(y2, m2, d2),
        iso_text(y1, m1, d1) == iso_text(y2, m2, d2),
    ensures
        y1 == y2,
        m1 == m2,
        d1 == d2,
{
    lemma_valid_ymd_digits(y1, m1, d1);
    lemma_valid_ymd_digits(y2, m2, d2);
    lemma_iso_text_digits(y1, m1, d1, y2, m2, d2);
}

/// At each digit's place of a day written out stands a digit.
pub proof fn lemma_iso_text_place(y: int, m: int, d: int, i: int)
    requires
        0 <= y <= 9999,
        0 <= m <= 99,
        0 <= d <= 99,
        is_digit_place(i),
    ensures
        exists|n: int| 0 <= n <= 9 && iso_text(y, m, d)[i] == #[trigger] digit(n),
{
    lemma_four_digits(y);
    lemma_two_digits(m);
    lemma_two_digits(d);
    let t = iso_text(y, m, d);
    if i == 0 {
        assert(t[i] == digit(y / 10 / 10 / 10));
    } else if i == 1 {
        assert(t[i] == digit(y / 10 / 10 % 10));
    } else if i == 2 {
        assert(t[i] == digit(y / 10 % 10));
    } else if i == 3 {
        assert(t[i] == digit(y % 10));
    } else if i == 5 {
        assert(t[i] == digit(m / 10));
    } else if i == 6 {
        assert(t[i] == digit(m % 10));
    } else if i == 8 {
        assert(t[i] == digit(d / 10));
    } else {
        assert(t[i] == digit(d % 10));
    }
}

/// A text with something else than a digit at a digit's place, or than a
/// hyphen at a hyphen's place, or of another length than ten, writes no day.
pub proof fn lemma_not_iso_text(text: Seq<char>, i: int)
    requires
        text.len() != 10 || ((i == 4 || i == 7) && text[i] != '-') || (is_digit_place(i)
            && forall|n: int| 0 <= n <= 9 ==> #[trigger] digit(n) != text[i]),
    ensures
        forall|y: int, m: int, d: int|
            valid_ymd(y, m, d) ==> text != #[trigger] iso_text(y, m, d),
{
    assert forall|y: int, m: int, d: int| valid_ymd(y, m, d) implies text != #[trigger] iso_text(
        y,
        m,
        d,
    ) by {
        lemma_valid_ymd_digits(y, m, d);
        if is_digit_place(i) {
            lemma_iso_text_place(y, m, d, i);
        }
    }
}

/// The days before a year, counted by the usual leap-year formula.
pub proof fn lemma_days_before_year_formula(y: int)
    requires
        y >= 1,
    ensures
        days_before_year(y) == 365 * (y - 1) + (y - 1) / 4 - (y - 1) / 100 + (y - 1) / 400,
    decreases y,
{
    if y > 1 {
        lemma_days_before_year_formula(y - 1);
    }
}

/// Every year adds at least 365 and at most 366 days.
pub proof fn lemma_days_before_year_grows(y1: int, y2: int)
    requires
        1 <= y1 <= y2,
    ensures
        days_before_year(y1) + 365 * (y2 - y1) <= days_before_year(y2),
        days_before_year(y2) <= days_before_year(y1) + 366 * (y2 - y1),
    decreases y2,
{
    if y1 < y2 {
        lemma_days_before_year_grows(y1, y2 - 1);
    }
}

/// The months of a year add up to the year, and each starts after the one before.
pub proof fn lemma_days_before_month_grows(y: int, m1: int, m2: int)
    requires
        1 <= m1 <= m2 <= 13,
    ensures
        days_before_month(y, m1) + 28 * (m2 - m1) <= days_before_month(y, m2),
        days_before_month(y, 13) == year_length(y),
    decreases m2,
{
    reveal_with_fuel(days_before_month, 13);
    if m1 < m2 {
        lemma_days_before_month_grows(y, m1, m2 - 1);
    }
}

/// The number of a calendar day lies between 1 and [`LAST_DAY`].
pub proof fn lemma_day_number_range(y: int, m: int, d: int)
    requires
        valid_ymd(y, m, d),
    ensures
        1 <= day_number(y, m, d) <= LAST_DAY,
        days_before_year(y) < day_number(y, m, d) <= days_before_year(y + 1),
{
    lemma_days_before_year_grows(1, y);
    lemma_days_before_year_grows(y + 1, 10000);
    lemma_days_before_year_formula(10000);
    lemma_days_before_month_grows(y, 1, m);
    lemma_days_before_month_grows(y, m + 1, 13);
}

/// An earlier day has a smaller number.
pub proof fn lemma_day_number_increases(y1: int, m1: int, d1: int, y2: int, m2: int, d2: int)
    requires
        valid_ymd(y1, m1, d1),
        valid_ymd(y2, m2, d2),
        ymd_before(y1, m1, d1, y2, m2, d2),
    ensures
        day_number(y1, m1, d1) < day_number(y2, m2, d2),
{
    lemma_day_number_range(y1, m1, d1);
    lemma_day_number_range(y2, m2, d2);
    if y1 < y2 {
        lemma_days_before_year_grows(y1 + 1, y2);
    } else if m1 < m2 {
        lemma_days_before_month_grows(y1, m1 + 1, m2);
    }
}

/// Two calendar days with the same number are the same day.
pub proof fn lemma_day_number_injective(y1: int, m1: int, d1: int, y2: int, m2: int, d2: int)
    requires
        valid_ymd(y1, m1, d1),
        valid_ymd(y2, m2, d2),
        day_number(y1, m1, d1) == day_number(y2, m2, d2),
    ensures
        y1 == y2,
        m1 == m2,
        d1 == d2,
{
    if ymd_before(y1, m1, d1, y2, m2, d2) {
        lemma_day_number_increases(y1, m1, d1, y2, m2, d2);
    } else if ymd_before(y2, m2, d2, y1, m1, d1) {
        lemma_day_number_increases(y2, m2, d2, y1, m1, d1);
    }
}

fn leap(y: u32) -> (r: bool)
    ensures
        r == is_leap_year(y as int),
{
    y % 4 == 0 && (y % 100 != 0 || y % 400 == 0)
}

fn month_length(y: u32, m: u32) -> (r: u32)
    ensures
        r == days_in_month(y as int, m as int),
{
    if m == 2 {
        if leap(y) {
            29
        } else {
            28
        }
    } else if m == 4 || m == 6 || m == 9 || m == 11 {
        30
    } else {
        31
    }
}

fn year_start(y: u32) -> (r: u32)
    requires
        1 <= y <= 10000,
    ensures
        r == days_before_year(y as int),
{
    proof {
        lemma_days_before_year_formula(y as int);
    }
    let p: u32 = y - 1;
    365 * p + p / 4 - p / 100 + p / 400
}

fn month_start(y: u32, m: u32) -> (r: u32)
    requires
        1 <= m <= 12,
    ensures
        r == days_before_month(y as int, m as int),
{
    proof {
        reveal_with_fuel(days_before_month, 13);
    }
    let base: u32 = match m {
        1 => 0,
        2 => 31,
        3 => 59,
        4 => 90,
        5 => 120,
        6 => 151,
        7 => 181,
        8 => 212,
        9 => 243,
        10 => 273,
        11 => 304,
        _ => 334,
    };
    if m > 2 && leap(y) {
        base + 1
    } else {
        base
    }
}

fn digit_of(c: char) -> (r: Option<u32>)
    ensures
        match r {
            Some(n) => n <= 9 && digit(n as int) == c,
            None => forall|n: int| 0 <= n <= 9 ==> #[trigger] digit(n) != c,
        },
{
    proof {
        reveal(digit);
    }
    if c == '0' {
        Some(0)
    } else if c == '1' {
        Some(1)
    } else if c == '2' {
        Some(2)
    } else if c == '3' {
        Some(3)
    } else if c == '4' {
        Some(4)
    } else if c == '5' {
        Some(5)
    } else if c == '6' {
        Some(6)
    } else if c == '7' {
        Some(7)
    } else if c == '8' {
        Some(8)
    } else if c == '9' {
        Some(9)
    } else {
        None
    }
}

fn digit_text(n: u32) -> (s: &'static str)
    requires
        n <= 9,
    ensures
        s@ == seq![digit(n as int)],
{
    proof {
        reveal(digit);
        reveal_strlit("0");
        reveal_strlit("1");
        reveal_strlit("2");
        reveal_strlit("3");
        reveal_strlit("4");
        reveal_strlit("5");
        reveal_strlit("6");
        reveal_strlit("7");
        reveal_strlit("8");
        reveal_strlit("9");
    }
    let s = if n == 0 {
        "0"
    } else if n == 1 {
        "1"
    } else if n == 2 {
        "2"
    } else if n == 3 {
        "3"
    } else if n == 4 {
        "4"
    } else if n == 5 {
        "5"
    } else if n == 6 {
        "6"
    } else if n == 7 {
        "7"
    } else if n == 8 {
        "8"
    } else {
        "9"
    };
    assert(s@ =~= seq![digit(n as int)]);
    s
}

/// A day of the calendar.
#[derive(Clone, Copy, PartialEq, Eq, Structural, Debug)]
pub struct Date {
    number: u32,
}

impl View for Date {
    type V = int;

    /// The number of the day.
    closed spec fn view(&self) -> int {
        self.number as int
    }
}

impl Date {
    /// Whether the day lies in the calendar. Every `Date` does.
    #[verifier::type_invariant]
    pub open spec fn valid(&self) -> bool {
        1 <= self@ <= LAST_DAY
    }

    /// The day (`year`, `month`, `day`), if the calendar has it.
    pub fn new(year: i32, month: u32, day: u32) -> (r: Option<Date>)
        ensures
            match r {
                Some(d) => valid_ymd(year as int, month as int, day as int) && d.valid() && d@
                    == day_number(year as int, month as int, day as int),
                None => !valid_ymd(year as int, month as int, day as int),
            },
    {
        if year < 1 || year > MAX_YEAR || month < 1 || month > 12 || day < 1 {
            return None;
        }
        let y: u32 = year as u32;
        if day > month_length(y, month) {
            return None;
        }
        proof {
            lemma_day_number_range(year as int, month as int, day as int);
            lemma_days_before_month_grows(year as int, 1, month as int);
        }
        Some(Date { number: year_start(y) + month_start(y, month) + day })
    }

    /// The day with the given number, if it lies in the calendar.
    pub fn from_day_number(n: u32) -> (r: Option<Date>)
        ensures
            match r {
                Some(d) => d.valid() && d@ == n,
                None => !(1 <= n <= LAST_DAY),
            },
    {
        if 1 <= n && n <= LAST_DAY {
            Some(Date { number: n })
        } else {
            None
        }
    }

    /// The number of the day.
    pub fn day_number(&self) -> (n: u32)
        ensures
            n == self@,
            self.valid(),
    {
        proof {
            use_type_invariant(self);
        }
        self.number
    }

    /// The year, month and day of the month.
    pub fn ymd(&self) -> (r: (i32, u32, u32))
        ensures
            valid_ymd(r.0 as int, r.1 as int, r.2 as int),
            day_number(r.0 as int, r.1 as int, r.2 as int) == self@,
    {
        proof {
            use_type_invariant(self);
        }
        let n: u32 = self.number;
        let mut y: u32 = (n - 1) / 366 + 1;
        proof {
            lemma_days_before_year_grows(1, y as int);
            lemma_days_before_year_grows(y as int, 10000);
            lemma_days_before_year_formula(10000);
        }
        while year_start(y + 1) < n
            invariant
                1 <= y <= 9999,
                1 <= n <= LAST_DAY,
                days_before_year(y as int) < n,
            decreases 10000 - y,
        {
            proof {
                lemma_days_before_year_grows(y as int + 1, 10000);
                lemma_days_before_year_formula(10000);
            }
            y = y + 1;
        }
        let mut rest: u32 = n - year_start(y);
        let mut m: u32 = 1;
        proof {
            lemma_days_before_month_grows(y as int, 1, 13);
        }
        while rest > month_length(y, m)
            invariant
                1 <= y <= 9999,
                1 <= m <= 12,
                1 <= rest,
                days_before_year(y as int) + days_before_month(y as int, m as int) + rest == n,
                n <= days_before_year(y as int + 1),
            decreases 12 - m,
        {
            proof {
                lemma_days_before_month_grows(y as int, m as int + 1, 13);
            }
            rest = rest - month_length(y, m);
            m = m + 1;
        }
        (y as i32, m, rest)
    }

    /// The year.
    pub fn year(&self) -> (y: i32)
        ensures
            exists|m: int, d: int| #[trigger] valid_ymd(y as int, m, d) && day_number(y as int, m, d) == self@,
    {
        let r = self.ymd();
        r.0
    }

    /// The month, 1 to 12.
    pub fn month(&self) -> (m: u32)
        ensures
            exists|y: int, d: int| #[trigger] valid_ymd(y, m as int, d) && day_number(y, m as int, d) == self@,
    {
        let r = self.ymd();
        r.1
    }

    /// The day of the month, 1 to 31.
    pub fn day(&self) -> (d: u32)
        ensures
            exists|y: int, m: int| #[trigger] valid_ymd(y, m, d as int) && day_number(y, m, d as int) == self@,
    {
        let r = self.ymd();
        r.2
    }

    /// The day written as `YYYY-MM-DD`.
    pub fn text(&self) -> (s: String)
        ensures
            exists|y: int, m: int, d: int|
                valid_ymd(y, m, d) && day_number(y, m, d) == self@ && s@ == #[trigger] iso_text(
                    y,
                    m,
                    d,
                ),
    {
        let (year, m, d) = self.ymd();
        let y: u32 = year as u32;
        let mut s = String::new();
        s.append(digit_text(y / 10 / 10 / 10));
        s.append(digit_text(y / 10 / 10 % 10));
        s.append(digit_text(y / 10 % 10));
        s.append(digit_text(y % 10));
        s.append("-");
        s.append(digit_text(m / 10));
        s.append(digit_text(m % 10));
        s.append("-");
        s.append(digit_text(d / 10));
        s.append(digit_text(d % 10));
        proof {
            reveal_strlit("-");
            assert(s@ =~= iso_text(y as int, m as int, d as int));
        }
        s
    }

    /// The day that `text` writes as `YYYY-MM-DD`, if it writes a day of the
    /// calendar in just that form.
    pub fn parse(text: &str) -> (r: Option<Date>)
        ensures
            match r {
                Some(date) => date.valid() && exists|y: int, m: int, d: int|
                    valid_ymd(y, m, d) && date@ == day_number(y, m, d) && text@
                        == #[trigger] iso_text(y, m, d),
                None => forall|y: int, m: int, d: int|
                    valid_ymd(y, m, d) ==> text@ != #[trigger] iso_text(y, m, d),
            },
    {
        let cs = chars_of(text);
        if cs.len() != 10 {
            proof {
                lemma_not_iso_text(text@, 0);
            }
            return None;
        }
        if cs[4] != '-' {
            proof {
                lemma_not_iso_text(text@, 4);
            }
            return None;
        }
        if cs[7] != '-' {
            proof {
                lemma_not_iso_text(text@, 7);
            }
            return None;
        }
        let mut digits: Vec<u32> = Vec::new();
        let mut i: usize = 0;
        while i < 10
            invariant
                cs@ == text@,
                cs.len() == 10,
                0 <= i <= 10,
                digits.len() == i,
                forall|j: int|
                    0 <= j < i && is_digit_place(j) ==> (#[trigger] digits[j]) <= 9 && digit(
                        digits[j] as int,
                    ) == text@[j],
            decreases 10 - i,
        {
            if i == 4 || i == 7 {
                digits.push(0);
            } else {
                match digit_of(cs[i]) {
                    Some(n) => {
                        digits.push(n);
                    },
                    None => {
                        proof {
                            lemma_not_iso_text(text@, i as int);
                        }
                        return None;
                    },
                }
            }
            i += 1;
        }
        let y: u32 = digits[0] * 1000 + digits[1] * 100 + digits[2] * 10 + digits[3];
        let m: u32 = digits[5] * 10 + digits[6];
        let d: u32 = digits[8] * 10 + digits[9];
        proof {
            assert(is_digit_place(0) && is_digit_place(1) && is_digit_place(2) && is_digit_place(3));
            assert(is_digit_place(5) && is_digit_place(6) && is_digit_place(8) && is_digit_place(9));
            lemma_digits_make(
                digits[0] as int,
                digits[1] as int,
                digits[2] as int,
                digits[3] as int,
            );
            assert(m / 10 == digits[5] && m % 10 == digits[6]);
            assert(d / 10 == digits[8] && d % 10 == digits[9]);
            assert(text@ =~= iso_text(y as int, m as int, d as int));
        }
        let r = Date::new(y as i32, m, d);
        proof {
            if r is None {
                assert forall|y2: int, m2: int, d2: int| valid_ymd(y2, m2, d2) implies text@
                    != #[trigger] iso_text(y2, m2, d2) by {
                    if text@ == iso_text(y2, m2, d2) {
                        lemma_valid_ymd_digits(y2, m2, d2);
                        lemma_iso_text_digits(y as int, m as int, d as int, y2, m2, d2);
                    }
                }
            }
        }
        r
    }

    /// Whether this day is earlier than `other`.
    pub fn is_before(&self, other: &Date) -> (r: bool)
        ensures
            r == (self@ < other@),
    {
        self.number < other.number
    }

    /// Whether this is the same day as `other`.
    pub fn is_same(&self, other: &Date) -> (r: bool)
        ensures
            r == (self@ == other@),
    {
        self.number == other.number
    }

    /// The day `days` days earlier, or 0001-01-01 where the calendar does not
    /// reach that far back.
    pub fn minus_days(&self, days: u64) -> (r: Date)
        ensures
            r.valid(),
            r@ == if self@ - days >= 1 {
                self@ - days
            } else {
                1
            },
    {
        proof {
            use_type_invariant(self);
        }
        if days < self.number as u64 {
            Date { number: self.number - days as u32 }
        } else {
            Date { number: 1 }
        }
    }
}

} // verus!
