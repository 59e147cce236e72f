//! Refresh periods: how long a project keeps its entries.
//!
//! A period is written as a number followed by one unit letter: `d` for days,
//! `w` for weeks of seven days. `"7d"`, `"30d"` and `"1w"` are periods; `""`,
//! `"10x"`, `"d"`, `"-5d"` and `"7 d"` are not.

use crate::error::Error;
use crate::text::chars_of;
use vstd::prelude::*;

verus! {

/// A retention window, in whole days.
#[derive(Clone, Copy, PartialEq, Eq, Structural, Debug)]
pub struct Period {
    /// The number of days that entries are kept.
    pub days: u64,
}

/// Whether `c` is one of the digits `0` to `9`.
pub open spec fn is_digit(c: char) -> bool {
    '0' <= c <= '9'
}

/// The value of the digit `c`; 0 for any other character.
pub open spec fn digit_value(c: char) -> nat {
    if is_digit(c) {
        (c as int - '0' as int) as nat
    } else {
        0
    }
}

/// Whether `s` holds digits only.
pub open spec fn all_digits(s: Seq<char>) -> bool {
    forall|i: int| 0 <= i < s.len() ==> is_digit(#[trigger] s[i])
}

/// The number that the digits of `s` write in base ten.
pub open spec fn decimal_value(s: Seq<char>) -> nat
    decreases s.len(),
{
    if s.len() == 0 {
        0
    } else {
        decimal_value(s.drop_last()) * 10 + digit_value(s.last())
    }
}

/// The number of days in one unit: `d` is a day and `w` a week.
pub open spec fn unit_days(c: char) -> Option<nat> {
    if c == 'd' {
        Some(1)
    } else if c == 'w' {
        Some(7)
    } else {
        None
    }
}

/// Whether `s` has the form of a period: one digit or more, then a unit.
pub open spec fn well_formed(s: Seq<char>) -> bool {
    &&& s.len() >= 2
    &&& all_digits(s.drop_last())
    &&& unit_days(s.last()) is Some
}

/// The days that the period `s` stands for, however many.
pub open spec fn written_days(s: Seq<char>) -> nat {
    decimal_value(s.drop_last()) * unit_days(s.last()).unwrap()
}

/// The days of the period `s`, if `s` is a period whose days fit in 64 bits.
pub open spec fn period_days(s: Seq<char>) -> Option<nat> {
    if well_formed(s) && written_days(s) <= u64::MAX {
        Some(written_days(s))
    } else {
        None
    }
}

/// Reads a refresh period.
///
/// A text that is not a period is refused, and so is a period of more days
/// than 64 bits hold.
pub fn parse(text: &str) -> (r: Result<Period, Error>)
    ensures
        match r {
            Ok(p) => period_days(text@) == Some(p.days as nat),
            Err(e) => e == Error::InvalidPeriodFormat && period_days(text@) is None,
        },
{
    let cs = chars_of(text);
    let n = cs.len();
    if n < 2 {
        return Err(Error::InvalidPeriodFormat);
    }
    let unit = cs[n - 1];
    let factor: u64 = if unit == 'd' {
        1
    } else if unit == 'w' {
        7
    } else {
        return Err(Error::InvalidPeriodFormat);
    };
    let ghost digits = text@.drop_last();
    let mut value: u64 = 0;
    let mut overflow = false;
    let mut i: usize = 0;
    while i < n - 1
        invariant
            cs@ == text@,
            n == cs.len(),
            n >= 2,
            digits == text@.drop_last(),
            0 <= i <= n - 1,
            all_digits(digits.take(i as int)),
            !overflow ==> value == decimal_value(digits.take(i as int)),
            overflow ==> decimal_value(digits.take(i as int)) > u64::MAX,
        decreases n - i,
    {
        let c = cs[i];
        if !(c >= '0' && c <= '9') {
            assert(!is_digit(digits[i as int]));
            return Err(Error::InvalidPeriodFormat);
        }
        let d: u64 = (c as u32 - '0' as u32) as u64;
        proof {
            let next = digits.take(i as int + 1);
            assert(next.drop_last() =~= digits.take(i as int));
            assert(next.last() == c);
            assert(decimal_value(next) == decimal_value(digits.take(i as int)) * 10 + d);
            assert forall|j: int| 0 <= j < next.len() implies is_digit(#[trigger] next[j]) by {
                if j < i {
                    assert(next[j] == digits.take(i as int)[j]);
                }
            }
        }
        if overflow || value > (u64::MAX - d) / 10 {
            overflow = true;
        } else {
            value = value * 10 + d;
        }
        i += 1;
    }
    proof {
        assert(digits.take(i as int) =~= digits);
        assert(well_formed(text@));
    }
    if overflow {
        proof {
            assert(written_days(text@) >= decimal_value(digits)) by (nonlinear_arith)
                requires
                    written_days(text@) == decimal_value(digits) * factor,
                    factor >= 1,
            ;
        }
        return Err(Error::InvalidPeriodFormat);
    }
    match value.checked_mul(factor) {
        Some(days) => Ok(Period { days }),
        None => Err(Error::InvalidPeriodFormat),
    }
}

} // verus!
