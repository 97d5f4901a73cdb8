//! The `DD.MM.YYYY` date grammar.
//!
//! A date string is valid when it has exactly ten characters, with two-digit
//! day, two-digit month and four-digit year separated by dots, and the three
//! numbers name a real day of the proleptic Gregorian calendar.

use vstd::prelude::*;

verus! {

/// A decimal digit character.
pub open spec fn is_digit_char(c: char) -> bool {
    '0' <= c && c <= '9'
}

/// The numeric value of a digit character.
pub open spec fn digit_val(c: char) -> int {
    c as u32 - '0' as u32
}

/// Ten characters shaped `DD.MM.YYYY`: digits in the number positions and
/// dots after the day and the month.
pub open spec fn date_shape(s: Seq<char>) -> bool {
    &&& s.len() == 10
    &&& is_digit_char(s[0])
    &&& is_digit_char(s[1])
    &&& s[2] == '.'
    &&& is_digit_char(s[3])
    &&& is_digit_char(s[4])
    &&& s[5] == '.'
    &&& is_digit_char(s[6])
    &&& is_digit_char(s[7])
    &&& is_digit_char(s[8])
    &&& is_digit_char(s[9])
}

/// The day number of a string shaped `DD.MM.YYYY`.
pub open spec fn day_of(s: Seq<char>) -> int {
    10 * digit_val(s[0]) + digit_val(s[1])
}

/// The month number of a string shaped `DD.MM.YYYY`.
pub open spec fn month_of(s: Seq<char>) -> int {
    10 * digit_val(s[3]) + digit_val(s[4])
}

/// The year number of a string shaped `DD.MM.YYYY`.
pub open spec fn year_of(s: Seq<char>) -> int {
    1000 * digit_val(s[6]) + 100 * digit_val(s[7]) + 10 * digit_val(s[8]) + digit_val(s[9])
}

/// Gregorian leap years: divisible by four, except centuries not divisible
/// by four hundred.
pub open spec fn is_leap_year(y: int) -> bool {
    (y % 4 == 0 && y % 100 != 0) || y % 400 == 0
}

/// How many days the given month has in the given year.
pub open spec fn days_in_month(m: int, y: int) -> int {
    if m == 2 {
        if is_leap_year(y) {
            29
        } else {
            28
        }
    } else if m == 4 || m == 6 || m == 9 || m == 11 {
        30
    } else {
        31
    }
}

/// A valid date string: shaped `DD.MM.YYYY` and naming a real calendar day.
pub open spec fn is_valid_date(s: Seq<char>) -> bool {
    &&& date_shape(s)
    &&& 1 <= month_of(s) <= 12
    &&& 1 <= day_of(s) <= days_in_month(month_of(s), year_of(s))
}

/// Whether a byte is an ASCII digit.
fn byte_is_digit(b: u8) -> (r: bool)
    ensures
        r == (48 <= b && b <= 57),
{
    48 <= b && b <= 57
}

/// Checks that `s` is a calendar date written as `DD.MM.YYYY`.
pub fn check_date(s: &str) -> (ok: bool)
    ensures
        ok == is_valid_date(s@),
{
    if !s.is_ascii() {
        proof {
            assert(!date_shape(s@)) by {
                if date_shape(s@) {
                    assert forall|i: int| 0 <= i < s@.len() implies '\0' <= #[trigger] s@[i]
                        <= '\u{7f}' by {
                        assert(is_digit_char(s@[i]) || s@[i] == '.');
                    }
                }
            }
        }
        return false;
    }
    proof {
        vstd::string::is_ascii_spec_bytes(s);
    }
    let b: &[u8] = s.as_bytes();
    assert(b@.len() == s@.len());
    assert(forall|i: int| 0 <= i < s@.len() ==> b@[i] == s@[i] as u8);
    if b.len() != 10 {
        return false;
    }
    if !(byte_is_digit(b[0]) && byte_is_digit(b[1]) && b[2] == 46 && byte_is_digit(b[3])
        && byte_is_digit(b[4]) && b[5] == 46 && byte_is_digit(b[6]) && byte_is_digit(b[7])
        && byte_is_digit(b[8]) && byte_is_digit(b[9])) {
        return false;
    }
    assert(date_shape(s@));
    let day: u32 = 10 * ((b[0] - 48) as u32) + ((b[1] - 48) as u32);
    let month: u32 = 10 * ((b[3] - 48) as u32) + ((b[4] - 48) as u32);
    let year: u32 = 1000 * ((b[6] - 48) as u32) + 100 * ((b[7] - 48) as u32) + 10 * ((b[8]
        - 48) as u32) + ((b[9] - 48) as u32);
    assert(day == day_of(s@) && month == month_of(s@) && year == year_of(s@));
    if month < 1 || month > 12 {
        return false;
    }
    let limit: u32 = if month == 2 {
        if (year % 4 == 0 && year % 100 != 0) || year % 400 == 0 {
            29
        } else {
            28
        }
    } else if month == 4 || month == 6 || month == 9 || month == 11 {
        30
    } else {
        31
    };
    assert(limit == days_in_month(month_of(s@), year_of(s@)));
    1 <= day && day <= limit
}

} // verus!
