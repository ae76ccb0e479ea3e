//! Points in time: ISO-8601 texts and the proleptic Gregorian calendar.
use vstd::prelude::*;

use crate::text::{padded, push_padded, to_chars};

verus! {

// ---------------------------------------------------------------------------
// The calendar
// ---------------------------------------------------------------------------

/// Whether `y` has a 29 February.
pub open spec fn is_leap(y: int) -> bool {
    (y % 4 == 0 && y % 100 != 0) || y % 400 == 0
}

/// The number of days of month `m` of year `y`.
pub open spec fn month_length(y: int, m: int) -> int {
    if m == 2 {
        if is_leap(y) {
            29
        } else {
            28
        }
    } else if m == 4 || m == 6 || m == 9 || m == 11 {
        30
    } else {
        31
    }
}

/// Whether the calendar has day `d` of month `m` of year `y`.
pub open spec fn is_date(y: int, m: int, d: int) -> bool {
    1 <= m <= 12 && 1 <= d <= month_length(y, m)
}

/// The number of days from 1 January of year 0 to 1 January of year `y`: 365
/// for each year and one more for each leap year.
pub open spec fn days_before_year(y: int) -> int {
    365 * y + (y + 3) / 4 - (y + 99) / 100 + (y + 399) / 400
}

/// The number of days of year `y` before the first of month `m`.
pub open spec fn days_before_month(y: int, m: int) -> int
    decreases m,
{
    if m <= 1 {
        0
    } else {
        days_before_month(y, m - 1) + month_length(y, m - 1)
    }
}

/// The number of days from 1 January 1970 to a date.
pub open spec fn day_number(y: int, m: int, d: int) -> int {
    days_before_year(y) - days_before_year(1970) + days_before_month(y, m) + d - 1
}

/// A year has 366 days if it is a leap year and else 365, and they are the
/// days of its twelve months.
pub proof fn law_year_length(y: int)
    ensures
        days_before_year(y + 1) - days_before_year(y) == if is_leap(y) {
            366int
        } else {
            365int
        },
        days_before_month(y, 13) == days_before_year(y + 1) - days_before_year(y),
{
    assert((y + 4) / 4 - (y + 3) / 4 == if y % 4 == 0 {
        1int
    } else {
        0int
    });
    assert((y + 100) / 100 - (y + 99) / 100 == if y % 100 == 0 {
        1int
    } else {
        0int
    });
    assert((y + 400) / 400 - (y + 399) / 400 == if y % 400 == 0 {
        1int
    } else {
        0int
    });
    assert(y % 400 == 0 ==> y % 100 == 0);
    assert(y % 100 == 0 ==> y % 4 == 0);
    assert(days_before_month(y, 13) == if is_leap(y) {
        366int
    } else {
        365int
    }) by {
        lemma_march_month(y, 12);
    }
}

/// The number of days from the start of a year that begins on 1 March to the
/// start of its month `mp`, counted from zero.
proof fn lemma_march_month(y: int, m: int)
    requires
        1 <= m <= 12,
    ensures
        m > 2 ==> days_before_month(y, m) == (153 * (m - 3) + 2) / 5 + 59 + (if is_leap(y) {
            1int
        } else {
            0int
        }),
        m <= 2 ==> days_before_month(y, m) == (153 * (m + 9) + 2) / 5 - 306,
{
    reveal_with_fuel(days_before_month, 14);
}

/// The leap years before year `y`, and year `y` itself, counted from year 0.
proof fn lemma_leap_count(y: int)
    ensures
        (y + 3) / 4 - (y + 99) / 100 + (y + 399) / 400 + (if is_leap(y) {
            1int
        } else {
            0int
        }) == y / 4 - y / 100 + y / 400 + 1,
        (y + 3) / 4 == (y - 1) / 4 + 1,
        (y + 99) / 100 == (y - 1) / 100 + 1,
        (y + 399) / 400 == (y - 1) / 400 + 1,
{
    assert((y + 3) / 4 == if y % 4 == 0 {
        y / 4
    } else {
        y / 4 + 1
    });
    assert((y + 99) / 100 == if y % 100 == 0 {
        y / 100
    } else {
        y / 100 + 1
    });
    assert((y + 399) / 400 == if y % 400 == 0 {
        y / 400
    } else {
        y / 400 + 1
    });
    assert(y % 400 == 0 ==> y % 100 == 0);
    assert(y % 100 == 0 ==> y % 4 == 0);
}

/// Hinnant's formula for the days since 1 March of year 0 is the number of
/// days of the calendar.
proof fn lemma_days_from_civil(y: int, m: int, d: int)
    requires
        1 <= m <= 12,
    ensures
        ({
            let a = if m <= 2 {
                y - 1
            } else {
                y
            };
            let era = a / 400;
            let yoe = a - era * 400;
            let mp = if m > 2 {
                m - 3
            } else {
                m + 9
            };
            let doy = (153 * mp + 2) / 5 + d - 1;
            let doe = yoe * 365 + yoe / 4 - yoe / 100 + doy;
            &&& era * 146_097 + doe - 719_468 == day_number(y, m, d)
            &&& 0 <= yoe < 400
        }),
{
    lemma_march_month(y, m);
    let a = if m <= 2 {
        y - 1
    } else {
        y
    };
    let era = a / 400;
    let yoe = a - era * 400;
    assert(a == 400 * era + yoe && 0 <= yoe < 400);
    assert(a / 4 == 100 * era + yoe / 4);
    assert(a / 100 == 4 * era + yoe / 100);
    assert(days_before_year(1970) == 719_528);
    lemma_leap_count(y);
}

/// The quotient rounded down.
fn floor_div(a: i64, b: i64) -> (q: i64)
    requires
        b > 0,
    ensures
        q == a as int / b as int,
{
    if a >= 0 {
        a / b
    } else {
        let up: i64 = -(a + 1);
        let q: i64 = up / b;
        proof {
            let r = up as int % b as int;
            vstd::arithmetic::div_mod::lemma_fundamental_div_mod(up as int, b as int);
            assert(a == b * (-q - 1) + (b - 1 - r)) by (nonlinear_arith)
                requires
                    up == b * q + r,
                    up == -(a + 1),
            ;
            vstd::arithmetic::div_mod::lemma_fundamental_div_mod_converse(
                a as int,
                b as int,
                -q - 1,
                b - 1 - r,
            );
            assert(q <= up) by (nonlinear_arith)
                requires
                    up == b * q + r,
                    0 <= r,
                    b >= 1,
                    q >= 0,
            ;
        }
        -q - 1
    }
}

/// The remainder of the division rounded down.
fn floor_mod(a: i64, b: i64) -> (r: i64)
    requires
        b > 0,
    ensures
        r == a as int % b as int,
        0 <= r < b,
{
    if a >= 0 {
        a % b
    } else {
        let up: i64 = -(a + 1);
        let r: i64 = up % b;
        proof {
            let q = up as int / b as int;
            vstd::arithmetic::div_mod::lemma_fundamental_div_mod(up as int, b as int);
            assert(a == b * (-q - 1) + (b - 1 - r)) by (nonlinear_arith)
                requires
                    up == b * q + r,
                    up == -(a + 1),
            ;
            vstd::arithmetic::div_mod::lemma_fundamental_div_mod_converse(
                a as int,
                b as int,
                -q - 1,
                b - 1 - r,
            );
        }
        b - 1 - r
    }
}

/// Number of days in a proleptic Gregorian calendar month, or `None` for an
/// out-of-range month.
pub fn days_in_month(year: i64, month: i64) -> (r: Option<i64>)
    ensures
        match r {
            Some(n) => 1 <= month <= 12 && n == month_length(year as int, month as int),
            None => !(1 <= month <= 12),
        },
{
    if month < 1 || month > 12 {
        return None;
    }
    if month == 2 {
        let leap: bool = (floor_mod(year, 4) == 0 && floor_mod(year, 100) != 0) || floor_mod(
            year,
            400,
        ) == 0;
        if leap {
            Some(29)
        } else {
            Some(28)
        }
    } else if month == 4 || month == 6 || month == 9 || month == 11 {
        Some(30)
    } else {
        Some(31)
    }
}

/// The number of days from 1 January 1970 to a date.
fn days_from_civil(year: i64, month: i64, day: i64) -> (r: i64)
    requires
        -1_000_000_000_000 < year < 1_000_000_000_000,
        1 <= month <= 12,
        1 <= day <= 31,
    ensures
        r == day_number(year as int, month as int, day as int),
{
    proof {
        lemma_days_from_civil(year as int, month as int, day as int);
    }
    let y: i64 = if month <= 2 {
        year - 1
    } else {
        year
    };
    let era: i64 = floor_div(y, 400);
    let yoe: i64 = y - era * 400;
    let mp: i64 = if month > 2 {
        month - 3
    } else {
        month + 9
    };
    let doy: i64 = (153 * mp + 2) / 5 + day - 1;
    let doe: i64 = yoe * 365 + yoe / 4 - yoe / 100 + doy;
    era * 146_097 + doe - 719_468
}

// ---------------------------------------------------------------------------
// Reading a text
// ---------------------------------------------------------------------------

/// Whether `c` is a decimal digit.
pub open spec fn is_digit(c: char) -> bool {
    48 <= c as u32 <= 57
}

/// The value of a decimal digit.
pub open spec fn digit_value(c: char) -> int {
    c as u32 - 48
}

/// Whether the `n` characters from position `i` on are decimal digits.
pub open spec fn digits_at(s: Seq<char>, i: int, n: int) -> bool {
    i + n <= s.len() && forall|k: int| i <= k < i + n ==> is_digit(#[trigger] s[k])
}

/// The number that two digits write.
pub open spec fn two_at(s: Seq<char>, i: int) -> int {
    10 * digit_value(s[i]) + digit_value(s[i + 1])
}

/// The number that four digits write.
pub open spec fn four_at(s: Seq<char>, i: int) -> int {
    100 * two_at(s, i) + two_at(s, i + 2)
}

/// Whether `s` begins with `YYYY-MM-DDTHH:MM:SS` (or a space for the `T`), on
/// a day of the calendar and at a time of the day.
pub open spec fn has_date_time(s: Seq<char>) -> bool {
    &&& s.len() >= 19
    &&& digits_at(s, 0, 4) && s[4] == '-' && digits_at(s, 5, 2) && s[7] == '-' && digits_at(s, 8, 2)
    &&& s[10] == 'T' || s[10] == ' '
    &&& digits_at(s, 11, 2) && s[13] == ':' && digits_at(s, 14, 2) && s[16] == ':' && digits_at(
        s,
        17,
        2,
    )
    &&& is_date(four_at(s, 0), two_at(s, 5), two_at(s, 8))
    &&& two_at(s, 11) <= 23 && two_at(s, 14) <= 59 && two_at(s, 17) <= 59
}

/// The number of decimal digits at the start of `s`.
pub open spec fn leading_digits(s: Seq<char>) -> int
    decreases s.len(),
{
    if s.len() > 0 && is_digit(s[0]) {
        1 + leading_digits(s.skip(1))
    } else {
        0
    }
}

/// The number of characters of the fraction at the start of `s`: a point and
/// the digits behind it, of which there is at least one.
pub open spec fn fraction_length(s: Seq<char>) -> int {
    if s.len() > 0 && s[0] == '.' && leading_digits(s.skip(1)) > 0 {
        1 + leading_digits(s.skip(1))
    } else {
        0
    }
}

/// The digit at position `i` of the fraction at the start of `s`: zero where
/// the fraction is shorter.
pub open spec fn fraction_digit(s: Seq<char>, i: int) -> int {
    if i + 1 < fraction_length(s) {
        digit_value(s[i + 1])
    } else {
        0
    }
}

/// The whole milliseconds of the fraction at the start of `s`.
pub open spec fn fraction_millis(s: Seq<char>) -> int {
    100 * fraction_digit(s, 0) + 10 * fraction_digit(s, 1) + fraction_digit(s, 2)
}

/// The seconds by which the zone `s` is ahead of UTC: nothing or `Z` for UTC
/// itself, `+HH:MM`, `-HH:MM`, `+HH` or `-HH`. No other text is a zone.
pub open spec fn zone_offset(s: Seq<char>) -> Option<int> {
    if s.len() == 0 || s == seq!['Z'] {
        Some(0)
    } else if s[0] != '+' && s[0] != '-' {
        None
    } else {
        let sign = if s[0] == '-' {
            -1int
        } else {
            1int
        };
        if s.len() == 3 && digits_at(s, 1, 2) && two_at(s, 1) <= 23 {
            Some(sign * (two_at(s, 1) * 3600))
        } else if s.len() == 6 && digits_at(s, 1, 2) && s[3] == ':' && digits_at(s, 4, 2) && two_at(
            s,
            1,
        ) <= 23 && two_at(s, 4) <= 59 {
            Some(sign * (two_at(s, 1) * 3600 + two_at(s, 4) * 60))
        } else {
            None
        }
    }
}

/// The milliseconds from the start of 1970 in UTC to the point in time that
/// `s` writes as `YYYY-MM-DDTHH:MM:SS[.fff][Z|+HH:MM]`.
pub open spec fn iso_ms(s: Seq<char>) -> Option<int> {
    if has_date_time(s) {
        let behind = s.skip(19);
        match zone_offset(behind.skip(fraction_length(behind))) {
            Some(offset) => Some(
                (day_number(four_at(s, 0), two_at(s, 5), two_at(s, 8)) * 86400 + two_at(s, 11)
                    * 3600 + two_at(s, 14) * 60 + two_at(s, 17) - offset) * 1000 + fraction_millis(
                    behind,
                ),
            ),
            None => None,
        }
    } else {
        None
    }
}

/// The value of `c`, where it is a decimal digit.
fn read_digit(c: char) -> (r: Option<i64>)
    ensures
        match r {
            Some(n) => is_digit(c) && n == digit_value(c) && 0 <= n <= 9,
            None => !is_digit(c),
        },
{
    let n: u32 = c as u32;
    if 48 <= n && n <= 57 {
        Some((n - 48) as i64)
    } else {
        None
    }
}

/// The number that the two digits at position `i` write.
fn read_two(s: &Vec<char>, i: usize) -> (r: Option<i64>)
    requires
        i < 1000,
    ensures
        match r {
            Some(n) => digits_at(s@, i as int, 2) && n == two_at(s@, i as int) && 0 <= n <= 99,
            None => !digits_at(s@, i as int, 2),
        },
{
    if s.len() < i + 2 {
        return None;
    }
    match (read_digit(s[i]), read_digit(s[i + 1])) {
        (Some(a), Some(b)) => Some(10 * a + b),
        _ => {
            proof {
                assert(!is_digit(s@[i as int]) || !is_digit(s@[i + 1]));
            }
            None
        },
    }
}

/// The date and time at the start of `s`, in seconds from the start of 1970.
fn read_date_time(s: &Vec<char>) -> (r: Option<i64>)
    ensures
        match r {
            Some(secs) => has_date_time(s@) && secs == day_number(
                four_at(s@, 0),
                two_at(s@, 5),
                two_at(s@, 8),
            ) * 86400 + two_at(s@, 11) * 3600 + two_at(s@, 14) * 60 + two_at(s@, 17)
                && -100_000_000_000 < secs < 1_000_000_000_000,
            None => !has_date_time(s@),
        },
{
    if s.len() < 19 {
        return None;
    }
    if s[4] != '-' || s[7] != '-' {
        return None;
    }
    if s[10] != 'T' && s[10] != ' ' {
        return None;
    }
    if s[13] != ':' || s[16] != ':' {
        return None;
    }
    let century: i64 = match read_two(s, 0) {
        Some(n) => n,
        None => {
            proof {
                assert(digits_at(s@, 0, 4) ==> digits_at(s@, 0, 2));
            }
            return None;
        },
    };
    let of_century: i64 = match read_two(s, 2) {
        Some(n) => n,
        None => {
            proof {
                assert(digits_at(s@, 0, 4) ==> digits_at(s@, 2, 2));
            }
            return None;
        },
    };
    let year: i64 = 100 * century + of_century;
    let month: i64 = match read_two(s, 5) {
        Some(n) => n,
        None => return None,
    };
    let day: i64 = match read_two(s, 8) {
        Some(n) => n,
        None => return None,
    };
    let hour: i64 = match read_two(s, 11) {
        Some(n) => n,
        None => return None,
    };
    let minute: i64 = match read_two(s, 14) {
        Some(n) => n,
        None => return None,
    };
    let second: i64 = match read_two(s, 17) {
        Some(n) => n,
        None => return None,
    };
    let max_day: i64 = match days_in_month(year, month) {
        Some(n) => n,
        None => return None,
    };
    if day < 1 || day > max_day {
        return None;
    }
    if hour > 23 || minute > 59 || second > 59 {
        return None;
    }
    proof {
        assert(digits_at(s@, 0, 4));
        reveal_with_fuel(days_before_month, 14);
    }
    let days: i64 = days_from_civil(year, month, day);
    proof {
        lemma_day_number_range(year as int, month as int, day as int);
    }
    Some(days * 86400 + hour * 3600 + minute * 60 + second)
}

/// The day numbers of the years 0 to 9999.
proof fn lemma_day_number_range(y: int, m: int, d: int)
    requires
        0 <= y <= 9999,
        is_date(y, m, d),
    ensures
        -1_000_000 < day_number(y, m, d) < 4_000_000,
{
    lemma_march_month(y, m);
}

/// The seconds by which the zone that begins at position `from` is ahead of
/// UTC.
fn read_zone(s: &Vec<char>, from: usize) -> (r: Option<i64>)
    requires
        from <= s@.len(),
    ensures
        match r {
            Some(n) => zone_offset(s@.skip(from as int)) == Some(n as int) && -100_000 < n
                < 100_000,
            None => zone_offset(s@.skip(from as int)) is None,
        },
{
    let ghost z = s@.skip(from as int);
    let n: usize = s.len() - from;
    if n == 0 {
        return Some(0);
    }
    if n == 1 && s[from] == 'Z' {
        proof {
            assert(z =~= seq!['Z']);
        }
        return Some(0);
    }
    proof {
        assert(z[0] == s@[from as int]);
        assert(z != seq!['Z']) by {
            if z == seq!['Z'] {
                assert(z.len() == 1 && z[0] == 'Z');
            }
        }
    }
    if s[from] != '+' && s[from] != '-' {
        return None;
    }
    let sign: i64 = if s[from] == '-' {
        -1
    } else {
        1
    };
    if n != 3 && n != 6 {
        return None;
    }
    let mut part: Vec<char> = Vec::new();
    let mut i: usize = 0;
    let total: usize = s.len();
    while i < n
        invariant
            i <= n,
            total == s@.len(),
            n == total - from,
            from <= s@.len(),
            z == s@.skip(from as int),
            part@ == z.take(i as int),
        decreases n - i,
    {
        proof {
            assert(z.take(i as int).push(s@[from + i]) =~= z.take(i as int + 1));
        }
        part.push(s[from + i]);
        i = i + 1;
    }
    proof {
        assert(z.take(n as int) =~= z);
    }
    let hours: i64 = match read_two(&part, 1) {
        Some(h) => h,
        None => return None,
    };
    if hours > 23 {
        return None;
    }
    if n == 3 {
        return Some(sign * (hours * 3600));
    }
    if part[3] != ':' {
        return None;
    }
    match read_two(&part, 4) {
        Some(minutes) => {
            if minutes > 59 {
                return None;
            }
            Some(sign * (hours * 3600 + minutes * 60))
        },
        None => None,
    }
}

/// Parses an ISO-8601 timestamp to Unix epoch milliseconds.
///
/// The text is `YYYY-MM-DDTHH:MM:SS[.fff][Z|+HH:MM]`: a day of the calendar, a
/// time of the day, at least one digit behind a point, and nothing behind the
/// zone.
pub fn parse_iso8601_ms(ts: &str) -> (r: Option<i64>)
    ensures
        match r {
            Some(ms) => iso_ms(ts@) == Some(ms as int),
            None => iso_ms(ts@) is None,
        },
{
    let s = to_chars(ts);
    let secs: i64 = match read_date_time(&s) {
        Some(n) => n,
        None => return None,
    };
    let ghost behind = s@.skip(19);
    let mut at: usize = 19;
    let mut millis: i64 = 0;
    if s.len() > 19 && s[19] == '.' {
        at = 20;
        let ghost frac = behind.skip(1);
        let mut weight: i64 = 100;
        proof {
            assert(frac.skip(0) =~= frac);
        }
        while at < s.len() && read_digit(s[at]).is_some()
            invariant
                20 <= at <= s@.len(),
                frac == s@.skip(19).skip(1),
                frac.len() == s@.len() - 20,
                leading_digits(frac) == (at - 20) + leading_digits(frac.skip(at - 20)),
                forall|k: int| 0 <= k < at - 20 ==> is_digit(#[trigger] frac[k]),
                weight == (if at == 20 {
                    100int
                } else if at == 21 {
                    10
                } else if at == 22 {
                    1
                } else {
                    0
                }),
                millis == (if at > 20 {
                    100 * digit_value(frac[0])
                } else {
                    0
                }) + (if at > 21 {
                    10 * digit_value(frac[1])
                } else {
                    0
                }) + (if at > 22 {
                    digit_value(frac[2])
                } else {
                    0
                }),
                0 <= millis <= 999,
            decreases s@.len() - at,
        {
            proof {
                assert(frac[at - 20] == s@[at as int]);
                assert(frac.skip(at - 20)[0] == s@[at as int]);
                assert(frac.skip(at - 20).skip(1) =~= frac.skip(at - 19));
            }
            let d: i64 = match read_digit(s[at]) {
                Some(n) => n,
                None => 0,
            };
            if weight == 100 {
                millis = 100 * d;
                weight = 10;
            } else if weight == 10 {
                millis = millis + 10 * d;
                weight = 1;
            } else if weight == 1 {
                millis = millis + d;
                weight = 0;
            }
            at = at + 1;
        }
        proof {
            assert(leading_digits(frac.skip(at - 20)) == 0) by {
                if at < s@.len() {
                    assert(frac.skip(at - 20)[0] == s@[at as int]);
                }
            }
            assert(behind[0] == s@[19]);
            assert(leading_digits(frac) == at - 20);
        }
        if at == 20 {
            proof {
                assert(behind.skip(0) =~= behind);
                assert(zone_offset(behind) is None) by {
                    assert(seq!['Z'][0] == 'Z');
                }
            }
            return None;
        }
        proof {
            assert(fraction_length(behind) == at - 19);
            assert(forall|k: int| 0 <= k < frac.len() ==> frac[k] == behind[k + 1]);
            assert(millis == fraction_millis(behind));
        }
    } else {
        proof {
            assert(behind.len() > 0 ==> behind[0] == s@[19]);
            assert(fraction_length(behind) == 0);
        }
    }
    proof {
        assert(behind.skip(fraction_length(behind)) =~= s@.skip(at as int));
    }
    match read_zone(&s, at) {
        Some(offset) => Some((secs - offset) * 1000 + millis),
        None => None,
    }
}

// ---------------------------------------------------------------------------
// Writing a text
// ---------------------------------------------------------------------------

/// The date, as year, month and day, `days` days after 1 January 1970.
pub open spec fn civil(days: int) -> (int, int, int) {
    choose|t: (int, int, int)|
        #![trigger day_number(t.0, t.1, t.2)]
        is_date(t.0, t.1, t.2) && day_number(t.0, t.1, t.2) == days
}

/// The text `YYYY-MM-DDTHH:MM:SS.mmmZ` of the point in time `secs` seconds and
/// `millis` milliseconds after the start of 1970 in UTC.
pub open spec fn iso_text(secs: int, millis: int) -> Seq<char> {
    let date = civil(secs / 86400);
    let of_day = secs % 86400;
    padded(date.0, 4) + seq!['-'] + padded(date.1, 2) + seq!['-'] + padded(date.2, 2) + seq!['T']
        + padded(of_day / 3600, 2) + seq![':'] + padded(of_day % 3600 / 60, 2) + seq![':'] + padded(
        of_day % 60,
        2,
    ) + seq!['.'] + padded(millis, 3) + seq!['Z']
}

/// The first of month `m + 1` comes after every day of month `m`.
proof fn lemma_month_order(y: int, m: int, n: int)
    requires
        1 <= m < n <= 13,
    ensures
        days_before_month(y, m) + month_length(y, m) <= days_before_month(y, n),
    decreases n,
{
    reveal_with_fuel(days_before_month, 2);
    if m < n - 1 {
        lemma_month_order(y, m, n - 1);
    }
}

/// 1 January of a later year comes after every day of an earlier one.
proof fn lemma_year_order(y: int, z: int)
    requires
        y < z,
    ensures
        days_before_year(y + 1) <= days_before_year(z),
    decreases z - y,
{
    if y + 1 < z {
        lemma_year_order(y, z - 1);
        law_year_length(z - 1);
    }
}

/// An earlier date has a smaller day number. So no two dates have the same.
pub proof fn law_day_number_order(y: int, m: int, d: int, y2: int, m2: int, d2: int)
    requires
        is_date(y, m, d),
        is_date(y2, m2, d2),
        y < y2 || (y == y2 && m < m2) || (y == y2 && m == m2 && d < d2),
    ensures
        day_number(y, m, d) < day_number(y2, m2, d2),
{
    if y < y2 {
        law_year_length(y);
        lemma_year_order(y, y2);
        lemma_month_order(y, m, 13);
        assert(days_before_month(y2, m2) >= 0) by {
            if m2 > 1 {
                lemma_month_order(y2, 1, m2);
            }
        }
    } else if m < m2 {
        lemma_month_order(y, m, m2);
    }
}

/// `civil` is the date with a given day number.
proof fn lemma_civil(y: int, m: int, d: int)
    requires
        is_date(y, m, d),
    ensures
        civil(day_number(y, m, d)) == (y, m, d),
{
    let days = day_number(y, m, d);
    let t = (y, m, d);
    assert(is_date(t.0, t.1, t.2) && day_number(t.0, t.1, t.2) == days);
    let c = civil(days);
    assert(is_date(c.0, c.1, c.2) && day_number(c.0, c.1, c.2) == days);
    if c.0 < y || (c.0 == y && c.1 < m) || (c.0 == y && c.1 == m && c.2 < d) {
        law_day_number_order(c.0, c.1, c.2, y, m, d);
    } else if c != t {
        law_day_number_order(y, m, d, c.0, c.1, c.2);
    }
}

/// The year of an era that a day of the era falls into, where years begin on
/// 1 March.
proof fn lemma_year_of_era(doe: int)
    requires
        0 <= doe <= 146_096,
    ensures
        ({
            let yoe = (doe - doe / 1460 + doe / 36524 - doe / 146_096) / 365;
            let doy = doe - (365 * yoe + yoe / 4 - yoe / 100);
            &&& 0 <= yoe <= 399
            &&& 0 <= doy <= 365
            &&& doy == 365 ==> yoe == 399 || ((yoe + 1) % 4 == 0 && (yoe + 1) % 100 != 0)
        }),
{
    let century = doe / 36524;
    let a = doe / 1460;
    let c = doe / 146_096;
    let yoe = (doe - a + century - c) / 365;
    assert(0 <= century <= 4);
    assert(c == 0 || c == 1);
    assert(c == 1 ==> doe == 146_096);
    if century == 0 {
        assert(0 <= yoe <= 99);
        assert(yoe / 100 == 0);
    } else if century == 1 {
        assert(100 <= yoe <= 199);
        assert(yoe / 100 == 1);
    } else if century == 2 {
        assert(200 <= yoe <= 299);
        assert(yoe / 100 == 2);
    } else if century == 3 {
        assert(300 <= yoe <= 399);
        assert(yoe / 100 == 3);
    } else {
        assert(doe == 146_096);
        assert(yoe == 399);
    }
}

/// Month and day of a day of a year that begins on 1 March.
proof fn lemma_month_of_year(y: int, doy: int)
    requires
        0 <= doy <= 365,
        doy == 365 ==> is_leap(y + 1),
    ensures
        ({
            let mp = (5 * doy + 2) / 153;
            let day = doy - (153 * mp + 2) / 5 + 1;
            let month = if mp < 10 {
                mp + 3
            } else {
                mp - 9
            };
            let year = if month <= 2 {
                y + 1
            } else {
                y
            };
            &&& 0 <= mp <= 11
            &&& is_date(year, month, day)
        }),
{
    let mp = (5 * doy + 2) / 153;
    assert(0 <= mp <= 11);
    assert(153 * mp <= 5 * doy + 2 < 153 * mp + 153);
    if mp == 11 {
        assert((153 * mp + 2) / 5 == 337);
    }
}

/// A year that ends with a 366th day in February is followed by a leap year.
proof fn lemma_leap_of_era(era: int, yoe: int)
    requires
        0 <= yoe <= 399,
        yoe == 399 || ((yoe + 1) % 4 == 0 && (yoe + 1) % 100 != 0),
    ensures
        is_leap(yoe + era * 400 + 1),
{
    let n = yoe + era * 400 + 1;
    assert(n % 4 == (yoe + 1) % 4);
    assert(n % 100 == (yoe + 1) % 100);
    assert(n % 400 == (yoe + 1) % 400);
}

/// The date that Hinnant's formula gives for day `doy` of year `yoe` of an
/// era.
proof fn lemma_civil_of_era(era: int, yoe: int, doy: int)
    requires
        0 <= yoe <= 399,
        0 <= doy <= 365,
        doy == 365 ==> is_leap(yoe + era * 400 + 1),
    ensures
        ({
            let y = yoe + era * 400;
            let mp = (5 * doy + 2) / 153;
            let day = doy - (153 * mp + 2) / 5 + 1;
            let month = if mp < 10 {
                mp + 3
            } else {
                mp - 9
            };
            let year = if month <= 2 {
                y + 1
            } else {
                y
            };
            &&& 0 <= mp <= 11
            &&& is_date(year, month, day)
            &&& day_number(year, month, day) == era * 146_097 + (yoe * 365 + yoe / 4 - yoe / 100
                + doy) - 719_468
        }),
{
    let y = yoe + era * 400;
    lemma_month_of_year(y, doy);
    let mp = (5 * doy + 2) / 153;
    let day = doy - (153 * mp + 2) / 5 + 1;
    let month = if mp < 10 {
        mp + 3
    } else {
        mp - 9
    };
    let year = if month <= 2 {
        y + 1
    } else {
        y
    };
    assert(y / 400 == era);
    lemma_days_from_civil(year, month, day);
}

/// The date, as year, month and day, `days` days after 1 January 1970.
fn civil_from_days(days: i64) -> (r: (i64, i64, i64))
    requires
        -1_000_000_000_000_000 < days < 1_000_000_000_000_000,
    ensures
        (r.0 as int, r.1 as int, r.2 as int) == civil(days as int),
        i64::MIN < r.0,
        1 <= r.1 <= 12,
        1 <= r.2 <= 31,
{
    let z: i64 = days + 719_468;
    let era: i64 = floor_div(z, 146_097);
    let doe: i64 = z - era * 146_097;
    proof {
        lemma_year_of_era(doe as int);
    }
    let yoe: i64 = (doe - doe / 1460 + doe / 36524 - doe / 146_096) / 365;
    let y: i64 = yoe + era * 400;
    let doy: i64 = doe - (365 * yoe + yoe / 4 - yoe / 100);
    let mp: i64 = (5 * doy + 2) / 153;
    proof {
        if doy == 365 {
            lemma_leap_of_era(era as int, yoe as int);
        }
        lemma_civil_of_era(era as int, yoe as int, doy as int);
    }
    let day: i64 = doy - (153 * mp + 2) / 5 + 1;
    let month: i64 = if mp < 10 {
        mp + 3
    } else {
        mp - 9
    };
    let year: i64 = if month <= 2 {
        y + 1
    } else {
        y
    };
    proof {
        lemma_civil(year as int, month as int, day as int);
    }
    (year, month, day)
}

/// Puts one character at the end of `out`.
fn push_mark(out: &mut String, c: char)
    ensures
        final(out)@ == old(out)@ + seq![c],
{
    out.push(c);
    proof {
        assert(out@ =~= old(out)@ + seq![c]);
    }
}

/// Formats epoch seconds and milliseconds as `YYYY-MM-DDTHH:MM:SS.mmmZ`.
pub fn format_iso8601(epoch_secs: i64, millis: u32) -> (r: String)
    ensures
        r@ == iso_text(epoch_secs as int, millis as int),
{
    let days: i64 = floor_div(epoch_secs, 86400);
    let secs_of_day: i64 = floor_mod(epoch_secs, 86400);
    let hour: i64 = secs_of_day / 3600;
    let minute: i64 = (secs_of_day % 3600) / 60;
    let second: i64 = secs_of_day % 60;
    let (year, month, day) = civil_from_days(days);
    let mut r = String::new();
    push_padded(&mut r, year, 4);
    proof {
        assert(r@ =~= padded(year as int, 4));
    }
    push_mark(&mut r, '-');
    push_padded(&mut r, month, 2);
    push_mark(&mut r, '-');
    push_padded(&mut r, day, 2);
    push_mark(&mut r, 'T');
    push_padded(&mut r, hour, 2);
    push_mark(&mut r, ':');
    push_padded(&mut r, minute, 2);
    push_mark(&mut r, ':');
    push_padded(&mut r, second, 2);
    push_mark(&mut r, '.');
    push_padded(&mut r, millis as i64, 3);
    push_mark(&mut r, 'Z');
    r
}

/// `SystemTime::elapsed` since `UNIX_EPOCH`, as whole seconds and the
/// milliseconds of the last second; nothing where the clock shows an earlier
/// time. What the clock shows is left open.
#[verifier::external_body]
fn since_epoch() -> (r: Option<(u64, u32)>)
    ensures
        r matches Some(passed) ==> passed.1 < 1000,
{
    match std::time::UNIX_EPOCH.elapsed() {
        Ok(passed) => Some((passed.as_secs(), passed.subsec_millis())),
        Err(_) => None,
    }
}

/// The time that the clock shows, as seconds and milliseconds since the start
/// of 1970, or that start where it shows an earlier time.
fn clock() -> (r: (u64, u32))
    ensures
        r.1 < 1000,
{
    match since_epoch() {
        Some(passed) => passed,
        None => (0, 0),
    }
}

/// Whether `s` writes a point in time since the start of 1970, to the
/// millisecond.
pub open spec fn is_clock_text(s: Seq<char>) -> bool {
    exists|secs: i64, millis: u32|
        0 <= secs && millis < 1000 && s == #[trigger] iso_text(secs as int, millis as int)
}

/// Seconds and milliseconds since the start of 1970 as an ISO-8601 text; the
/// start of 1970 stands for more seconds than can be counted.
pub fn epoch_iso8601(secs: u64, millis: u32) -> (r: String)
    ensures
        r@ == iso_text(
            if secs <= i64::MAX {
                secs as int
            } else {
                0
            },
            millis as int,
        ),
{
    let counted: i64 = if secs <= 0x7fff_ffff_ffff_ffff {
        secs as i64
    } else {
        0
    };
    format_iso8601(counted, millis)
}

/// Current UTC time as an ISO-8601 text with milliseconds and a `Z` suffix:
/// [`epoch_iso8601`] of what the clock shows.
pub fn iso_now() -> (r: String)
    ensures
        is_clock_text(r@),
{
    let (secs, millis) = clock();
    proof {
        let counted: i64 = if secs <= i64::MAX {
            secs as i64
        } else {
            0
        };
        assert(iso_text(counted as int, millis as int) == iso_text(
            if secs <= i64::MAX {
                secs as int
            } else {
                0
            },
            millis as int,
        ));
    }
    epoch_iso8601(secs, millis)
}

/// Seconds and milliseconds as milliseconds, or [`i64::MAX`] where they are too
/// many.
pub fn epoch_ms(secs: u64, millis: u32) -> (r: i64)
    ensures
        r == if secs * 1000 + millis <= i64::MAX {
            secs * 1000 + millis
        } else {
            i64::MAX as int
        },
{
    let passed: u128 = (secs as u128) * 1000 + millis as u128;
    if passed <= 0x7fff_ffff_ffff_ffff {
        passed as i64
    } else {
        i64::MAX
    }
}

/// Current Unix epoch time in milliseconds: [`epoch_ms`] of what the clock
/// shows. That may be any time since the start of 1970.
pub fn now_ms() -> (r: i64)
    ensures
        r >= 0,
{
    let (secs, millis) = clock();
    epoch_ms(secs, millis)
}

/// A text that was written for a point in time in the years 0 to 9999 is read
/// as that point in time.
pub proof fn law_parse_undoes_format(secs: int, millis: int)
    requires
        -62_167_219_200 <= secs < 253_402_300_800,
        0 <= millis < 1000,
    ensures
        iso_ms(iso_text(secs, millis)) == Some(secs * 1000 + millis),
{
    let days = secs / 86400;
    let of_day = secs % 86400;
    let date = civil(days);
    lemma_civil_exists(days);
    lemma_four_digit_year(date.0, date.1, date.2);
    lemma_reads_back(date.0, date.1, date.2, of_day, millis);
}

/// The years of the days from 1 January 0 to 31 December 9999.
proof fn lemma_four_digit_year(y: int, m: int, d: int)
    requires
        is_date(y, m, d),
        -719_528 <= day_number(y, m, d) < 2_932_897,
    ensures
        0 <= y <= 9999,
{
    assert(day_number(0, 1, 1) == -719_528);
    assert(day_number(10000, 1, 1) == 2_932_897);
    if y < 0 {
        law_day_number_order(y, m, d, 0, 1, 1);
    }
    if y > 9999 && (y, m, d) != (10000int, 1int, 1int) {
        law_day_number_order(10000, 1, 1, y, m, d);
    }
}

/// Reading the text of a date and a time of the day.
proof fn lemma_reads_back(y: int, m: int, d: int, of_day: int, millis: int)
    requires
        0 <= y <= 9999,
        is_date(y, m, d),
        0 <= of_day < 86400,
        0 <= millis < 1000,
    ensures
        iso_ms(
            padded(y, 4) + seq!['-'] + padded(m, 2) + seq!['-'] + padded(d, 2) + seq!['T'] + padded(
                of_day / 3600,
                2,
            ) + seq![':'] + padded(of_day % 3600 / 60, 2) + seq![':'] + padded(of_day % 60, 2)
                + seq!['.'] + padded(millis, 3) + seq!['Z'],
        ) == Some((day_number(y, m, d) * 86400 + of_day) * 1000 + millis),
{
    let hour = of_day / 3600;
    let minute = of_day % 3600 / 60;
    let second = of_day % 60;
    let s = padded(y, 4) + seq!['-'] + padded(m, 2) + seq!['-'] + padded(d, 2) + seq!['T'] + padded(
        hour,
        2,
    ) + seq![':'] + padded(minute, 2) + seq![':'] + padded(second, 2) + seq!['.'] + padded(
        millis,
        3,
    ) + seq!['Z'];
    lemma_padded_digits(y, 4);
    lemma_padded_digits(m, 2);
    lemma_padded_digits(d, 2);
    lemma_padded_digits(hour, 2);
    lemma_padded_digits(minute, 2);
    lemma_padded_digits(second, 2);
    lemma_padded_digits(millis, 3);
    assert(s.len() == 24);
    assert(s.subrange(0, 4) =~= padded(y, 4));
    assert(s.subrange(5, 7) =~= padded(m, 2));
    assert(s.subrange(8, 10) =~= padded(d, 2));
    assert(s.subrange(11, 13) =~= padded(hour, 2));
    assert(s.subrange(14, 16) =~= padded(minute, 2));
    assert(s.subrange(17, 19) =~= padded(second, 2));
    assert(s.subrange(20, 23) =~= padded(millis, 3));
    assert(s[4] == '-' && s[7] == '-' && s[10] == 'T' && s[13] == ':' && s[16] == ':' && s[19]
        == '.' && s[23] == 'Z');
    lemma_two_back(s, 5, m);
    lemma_two_back(s, 8, d);
    lemma_two_back(s, 11, hour);
    lemma_two_back(s, 14, minute);
    lemma_two_back(s, 17, second);
    assert(digits_at(s, 0, 4) && four_at(s, 0) == y) by {
        let p = padded(y, 4);
        assert(s[0] == p[0] && s[1] == p[1] && s[2] == p[2] && s[3] == p[3]);
    }
    assert(has_date_time(s));
    let behind = s.skip(19);
    assert(behind.subrange(1, 4) =~= s.subrange(20, 23));
    lemma_fraction_back(behind, millis, s.subrange(20, 23));
    assert(behind.skip(4) =~= seq!['Z']);
    assert(hour * 3600 + minute * 60 + second == of_day);
}

/// The digits of a padded number, and what they write.
#[verifier::spinoff_prover]
proof fn lemma_padded_digits(n: int, width: int)
    requires
        0 <= n,
        (width == 2 && n < 100) || (width == 3 && n < 1000) || (width == 4 && n < 10000),
    ensures
        padded(n, width).len() == width,
        forall|i: int| 0 <= i < width ==> is_digit(#[trigger] padded(n, width)[i]),
        width == 2 ==> two_at(padded(n, 2), 0) == n,
        width == 3 ==> digit_value(padded(n, 3)[0]) * 100 + two_at(padded(n, 3), 1) == n,
        width == 4 ==> four_at(padded(n, 4), 0) == n,
{
    if width == 2 {
        crate::text::lemma_padded_2(n);
    } else if width == 3 {
        crate::text::lemma_padded_3(n);
    } else {
        crate::text::lemma_padded_4(n);
    }
}

/// A number of two digits within a text.
proof fn lemma_two_back(s: Seq<char>, i: int, n: int)
    requires
        0 <= i,
        i + 2 <= s.len(),
        0 <= n < 100,
        s.subrange(i, i + 2) == padded(n, 2),
    ensures
        digits_at(s, i, 2),
        two_at(s, i) == n,
{
    lemma_padded_digits(n, 2);
    let p = padded(n, 2);
    assert(s[i] == p[0]);
    assert(s[i + 1] == p[1]);
}

/// A fraction of three digits.
proof fn lemma_fraction_back(behind: Seq<char>, millis: int, ds: Seq<char>)
    requires
        behind.len() == 5,
        behind[0] == '.',
        behind[4] == 'Z',
        0 <= millis < 1000,
        ds == padded(millis, 3),
        ds == behind.subrange(1, 4),
    ensures
        fraction_length(behind) == 4,
        fraction_millis(behind) == millis,
{
    lemma_padded_digits(millis, 3);
    let frac = behind.skip(1);
    assert(frac[0] == ds[0] && frac[1] == ds[1] && frac[2] == ds[2] && frac[3] == 'Z');
    reveal_with_fuel(leading_digits, 5);
    assert(frac.skip(1)[0] == frac[1]);
    assert(frac.skip(1).skip(1)[0] == frac[2]);
    assert(frac.skip(1).skip(1).skip(1)[0] == frac[3]);
    assert(leading_digits(frac) == 3);
    assert(behind[1] == ds[0] && behind[2] == ds[1] && behind[3] == ds[2]);
}

/// Every day has a date.
proof fn lemma_civil_exists(days: int)
    ensures
        ({
            let t = civil(days);
            is_date(t.0, t.1, t.2) && day_number(t.0, t.1, t.2) == days
        }),
{
    let z = days + 719_468;
    let era = z / 146_097;
    let doe = z - era * 146_097;
    lemma_year_of_era(doe);
    let yoe = (doe - doe / 1460 + doe / 36524 - doe / 146_096) / 365;
    let y = yoe + era * 400;
    let doy = doe - (365 * yoe + yoe / 4 - yoe / 100);
    if doy == 365 {
        lemma_leap_of_era(era, yoe);
    }
    lemma_civil_of_era(era, yoe, doy);
    let mp = (5 * doy + 2) / 153;
    let day = doy - (153 * mp + 2) / 5 + 1;
    let month = if mp < 10 {
        mp + 3
    } else {
        mp - 9
    };
    let year = if month <= 2 {
        y + 1
    } else {
        y
    };
    lemma_civil(year, month, day);
}

/// The digits at the start of a text, where another character follows them.
proof fn lemma_leading(ds: Seq<char>, rest: Seq<char>)
    requires
        forall|i: int| 0 <= i < ds.len() ==> is_digit(#[trigger] ds[i]),
        rest.len() == 0 || !is_digit(rest[0]),
    ensures
        leading_digits(ds + rest) == ds.len(),
    decreases ds.len(),
{
    if ds.len() > 0 {
        assert(is_digit(ds[0]));
        assert((ds + rest)[0] == ds[0]);
        let more = ds.skip(1);
        assert(forall|i: int| 0 <= i < more.len() ==> #[trigger] more[i] == ds[i + 1]);
        lemma_leading(more, rest);
        assert((ds + rest).skip(1) =~= more + rest);
    } else {
        assert(ds + rest =~= rest);
    }
}

/// What is read behind the seconds: a fraction, and a zone.
proof fn lemma_behind_seconds(date: Seq<char>, ds: Seq<char>, zone: Seq<char>)
    requires
        date.len() == 19,
        forall|i: int| 0 <= i < ds.len() ==> is_digit(#[trigger] ds[i]),
        ds.len() > 0,
        zone.len() == 0 || !is_digit(zone[0]),
        has_date_time(date),
    ensures
        ({
            let s = date + seq!['.'] + ds + zone;
            let a = |i: int|
                if i < ds.len() {
                    digit_value(ds[i])
                } else {
                    0
                };
            let secs = day_number(four_at(date, 0), two_at(date, 5), two_at(date, 8)) * 86400
                + two_at(date, 11) * 3600 + two_at(date, 14) * 60 + two_at(date, 17);
            iso_ms(s) == match zone_offset(zone) {
                Some(offset) => Some(
                    (secs - offset) * 1000 + 100 * a(0) + 10 * a(1) + a(2),
                ),
                None => None,
            }
        }),
{
    let s = date + seq!['.'] + ds + zone;
    assert(forall|i: int| 0 <= i < 19 ==> #[trigger] s[i] == date[i]);
    lemma_same_date(date, s);
    let behind = s.skip(19);
    assert(behind =~= seq!['.'] + ds + zone);
    assert(behind.skip(1) =~= ds + zone);
    lemma_leading(ds, zone);
    assert(fraction_length(behind) == 1 + ds.len());
    assert(behind.skip(1 + ds.len() as int) =~= zone);
    assert(forall|i: int| 0 <= i < ds.len() ==> behind[i + 1] == #[trigger] ds[i]);
    if ds.len() > 1 {
        assert(behind[2] == ds[1]);
    }
    if ds.len() > 2 {
        assert(behind[3] == ds[2]);
    }
    assert(behind[1] == ds[0]);
}

/// A date and a time are read the same, whatever follows them.
proof fn lemma_same_date(date: Seq<char>, s: Seq<char>)
    requires
        date.len() == 19,
        s.len() >= 19,
        forall|i: int| 0 <= i < 19 ==> #[trigger] s[i] == date[i],
        has_date_time(date),
    ensures
        has_date_time(s),
        four_at(s, 0) == four_at(date, 0),
        two_at(s, 5) == two_at(date, 5),
        two_at(s, 8) == two_at(date, 8),
        two_at(s, 11) == two_at(date, 11),
        two_at(s, 14) == two_at(date, 14),
        two_at(s, 17) == two_at(date, 17),
{
}

/// A time in a zone is the same time in UTC, less the offset of the zone.
pub proof fn law_zones(date: Seq<char>, ds: Seq<char>, zone: Seq<char>, offset: int)
    requires
        date.len() == 19,
        has_date_time(date),
        ds.len() > 0,
        forall|i: int| 0 <= i < ds.len() ==> is_digit(#[trigger] ds[i]),
        zone.len() == 0 || !is_digit(zone[0]),
        zone_offset(zone) == Some(offset),
    ensures
        iso_ms(date + seq!['.'] + ds + seq!['Z']) is Some,
        iso_ms(date + seq!['.'] + ds + zone) == Some(
            iso_ms(date + seq!['.'] + ds + seq!['Z'])->0 - offset * 1000,
        ),
{
    lemma_behind_seconds(date, ds, seq!['Z']);
    lemma_behind_seconds(date, ds, zone);
}

/// The offset of a zone is `+` and the hours and minutes by which the zone is
/// ahead, or `-` and those by which it is behind. The minutes may be left out.
/// Without a zone a time is in UTC.
pub proof fn law_offsets(h1: char, h2: char, m1: char, m2: char)
    requires
        is_digit(h1) && is_digit(h2) && is_digit(m1) && is_digit(m2),
        10 * digit_value(h1) + digit_value(h2) <= 23,
        10 * digit_value(m1) + digit_value(m2) <= 59,
    ensures
        ({
            let hours = 10 * digit_value(h1) + digit_value(h2);
            let ahead = hours * 3600 + (10 * digit_value(m1) + digit_value(m2)) * 60;
            &&& zone_offset(Seq::empty()) == Some(0int)
            &&& zone_offset(seq!['+', h1, h2, ':', m1, m2]) == Some(ahead)
            &&& zone_offset(seq!['-', h1, h2, ':', m1, m2]) == Some(-ahead)
            &&& zone_offset(seq!['+', h1, h2]) == Some(hours * 3600)
            &&& zone_offset(seq!['-', h1, h2]) == Some(-(hours * 3600))
        }),
{
    let a = seq!['+', h1, h2, ':', m1, m2];
    let b = seq!['-', h1, h2, ':', m1, m2];
    let c = seq!['+', h1, h2];
    let d = seq!['-', h1, h2];
    assert(a.len() == 6 && b.len() == 6 && c.len() == 3 && d.len() == 3);
    assert(seq!['Z'].len() == 1);
    assert(digits_at(a, 1, 2) && digits_at(a, 4, 2));
    assert(digits_at(b, 1, 2) && digits_at(b, 4, 2));
    assert(digits_at(c, 1, 2));
    assert(digits_at(d, 1, 2));
    let hours = 10 * digit_value(h1) + digit_value(h2);
    let ahead = hours * 3600 + (10 * digit_value(m1) + digit_value(m2)) * 60;
    assert(two_at(a, 1) == hours && two_at(b, 1) == hours && two_at(c, 1) == hours && two_at(d, 1)
        == hours);
    assert(zone_offset(a) == Some(1int * ahead));
    assert(zone_offset(b) == Some(-1int * ahead));
    assert(zone_offset(c) == Some(1int * (hours * 3600)));
    assert(zone_offset(d) == Some(-1int * (hours * 3600)));
}

/// Of a fraction of a second the first three digits count, and missing ones
/// are zeros.
#[verifier::spinoff_prover]
pub proof fn law_fractions(date: Seq<char>, a: char, b: char, c: char, more: Seq<char>)
    requires
        date.len() == 19,
        has_date_time(date),
        is_digit(a) && is_digit(b) && is_digit(c),
        forall|i: int| 0 <= i < more.len() ==> is_digit(#[trigger] more[i]),
    ensures
        ({
            let whole = iso_ms(date + seq!['.', '0', 'Z']);
            &&& whole is Some
            &&& iso_ms(date + seq!['.'] + (seq![a, b, c] + more) + seq!['Z']) == Some(
                whole->0 + 100 * digit_value(a) + 10 * digit_value(b) + digit_value(c),
            )
            &&& iso_ms(date + seq!['.'] + seq![a, b] + seq!['Z']) == Some(
                whole->0 + 100 * digit_value(a) + 10 * digit_value(b),
            )
            &&& iso_ms(date + seq!['.'] + seq![a] + seq!['Z']) == Some(
                whole->0 + 100 * digit_value(a),
            )
        }),
{
    let ds = seq![a, b, c] + more;
    assert forall|i: int| 0 <= i < ds.len() implies is_digit(#[trigger] ds[i]) by {
        if i >= 3 {
            assert(ds[i] == more[i - 3]);
        }
    }
    lemma_behind_seconds(date, ds, seq!['Z']);
    lemma_behind_seconds(date, seq![a, b], seq!['Z']);
    lemma_behind_seconds(date, seq![a], seq!['Z']);
    lemma_behind_seconds(date, seq!['0'], seq!['Z']);
    assert(date + seq!['.', '0', 'Z'] =~= date + seq!['.'] + seq!['0'] + seq!['Z']);
}

/// Days are counted one by one from the first of January 1970: through a month,
/// from the last of a month to the first of the next, and from the last of a
/// year to the first of the next.
pub proof fn law_days_follow_each_other(y: int, m: int, d: int)
    requires
        1 <= m <= 12,
    ensures
        day_number(1970, 1, 1) == 0,
        day_number(y, m, d + 1) == day_number(y, m, d) + 1,
        m < 12 ==> day_number(y, m + 1, 1) == day_number(y, m, month_length(y, m)) + 1,
        day_number(y + 1, 1, 1) == day_number(y, 12, 31) + 1,
        month_length(y, 1) == 31 && month_length(y, 3) == 31 && month_length(y, 4) == 30,
        month_length(y, 5) == 31 && month_length(y, 6) == 30 && month_length(y, 7) == 31,
        month_length(y, 8) == 31 && month_length(y, 9) == 30 && month_length(y, 10) == 31,
        month_length(y, 11) == 30 && month_length(y, 12) == 31,
        month_length(y, 2) == if y % 400 == 0 || (y % 4 == 0 && y % 100 != 0) {
            29int
        } else {
            28
        },
{
    reveal_with_fuel(days_before_month, 13);
    law_year_length(y);
}

/// The character that writes a number below ten.
pub open spec fn figure(n: int) -> char {
    "0123456789"@[n]
}

/// A number below a hundred in two figures.
pub open spec fn two_figures(n: int) -> Seq<char> {
    seq![figure(n / 10), figure(n % 10)]
}

/// A number below a thousand in three figures.
pub open spec fn three_figures(n: int) -> Seq<char> {
    seq![figure(n / 100), figure(n / 10 % 10), figure(n % 10)]
}

/// A number below ten thousand in four figures.
pub open spec fn four_figures(n: int) -> Seq<char> {
    seq![figure(n / 1000), figure(n / 100 % 10), figure(n / 10 % 10), figure(n % 10)]
}

/// A date and a time of the day, written out.
pub open spec fn written_out(
    date: (int, int, int),
    time: (int, int, int),
    millis: int,
) -> Seq<char> {
    four_figures(date.0) + seq!['-'] + two_figures(date.1) + seq!['-'] + two_figures(date.2)
        + seq!['T'] + two_figures(time.0) + seq![':'] + two_figures(time.1) + seq![':']
        + two_figures(time.2) + seq!['.'] + three_figures(millis) + seq!['Z']
}

/// The figures are the decimal digits.
proof fn lemma_figure(n: int)
    requires
        0 <= n < 10,
    ensures
        figure(n) == crate::text::digit_char(n),
{
    reveal_strlit("0123456789");
    assert(n == 0 || n == 1 || n == 2 || n == 3 || n == 4 || n == 5 || n == 6 || n == 7 || n == 8
        || n == 9);
}

/// A number in figures is padded with zeros.
proof fn lemma_figures(n: int)
    requires
        0 <= n < 10000,
    ensures
        n < 100 ==> two_figures(n) == padded(n, 2),
        n < 1000 ==> three_figures(n) == padded(n, 3),
        four_figures(n) == padded(n, 4),
{
    lemma_figure(n % 10);
    lemma_figure(n / 10 % 10);
    lemma_figure(n / 100 % 10);
    lemma_figure(n / 1000);
    if n < 100 {
        assert(n / 10 == n / 10 % 10);
        crate::text::lemma_padded_2(n);
    }
    if n < 1000 {
        assert(n / 100 == n / 100 % 10);
        crate::text::lemma_padded_3(n);
    }
    crate::text::lemma_padded_4(n);
}

/// What is read where in a text that is written out.
#[verifier::spinoff_prover]
proof fn lemma_written_out(date: (int, int, int), time: (int, int, int), millis: int)
    requires
        0 <= date.0 < 10000 && 0 <= date.1 < 100 && 0 <= date.2 < 100,
        0 <= time.0 < 100 && 0 <= time.1 < 100 && 0 <= time.2 < 100,
        0 <= millis < 1000,
    ensures
        ({
            let s = written_out(date, time, millis);
            &&& four_at(s, 0) == date.0 && two_at(s, 5) == date.1 && two_at(s, 8) == date.2
            &&& two_at(s, 11) == time.0 && two_at(s, 14) == time.1 && two_at(s, 17) == time.2
        }),
{
    let s = written_out(date, time, millis);
    lemma_figures(date.0);
    lemma_figures(date.1);
    lemma_figures(date.2);
    lemma_figures(time.0);
    lemma_figures(time.1);
    lemma_figures(time.2);
    lemma_padded_digits(date.0, 4);
    assert(s.len() == 24);
    assert(s.subrange(0, 4) =~= four_figures(date.0));
    assert(s.subrange(5, 7) =~= two_figures(date.1));
    assert(s.subrange(8, 10) =~= two_figures(date.2));
    assert(s.subrange(11, 13) =~= two_figures(time.0));
    assert(s.subrange(14, 16) =~= two_figures(time.1));
    assert(s.subrange(17, 19) =~= two_figures(time.2));
    lemma_two_back(s, 5, date.1);
    lemma_two_back(s, 8, date.2);
    lemma_two_back(s, 11, time.0);
    lemma_two_back(s, 14, time.1);
    lemma_two_back(s, 17, time.2);
    assert(four_at(s, 0) == date.0) by {
        let p = padded(date.0, 4);
        assert(s[0] == p[0] && s[1] == p[1] && s[2] == p[2] && s[3] == p[3]);
    }
}

/// The hour, the minute and the second within a number of seconds.
proof fn lemma_parts_of_seconds(days: int, h: int, min: int, s: int)
    requires
        0 <= h < 24 && 0 <= min < 60 && 0 <= s < 60,
    ensures
        ({
            let of_day = h * 3600 + min * 60 + s;
            let secs = days * 86400 + of_day;
            &&& 0 <= of_day < 86400
            &&& secs / 86400 == days && secs % 86400 == of_day
            &&& of_day / 3600 == h && of_day % 3600 / 60 == min && of_day % 60 == s
        }),
{
    let of_day = h * 3600 + min * 60 + s;
    assert(of_day % 3600 == min * 60 + s);
}

/// Writing out and reading a time of a day of the calendar.
#[verifier::spinoff_prover]
proof fn lemma_formatted(date: (int, int, int), time: (int, int, int), millis: int, of_day: int)
    requires
        0 <= date.0 < 10000,
        is_date(date.0, date.1, date.2),
        0 <= time.0 < 24 && 0 <= time.1 < 60 && 0 <= time.2 < 60,
        0 <= millis < 1000,
        of_day == time.0 * 3600 + time.1 * 60 + time.2,
    ensures
        ({
            let secs = day_number(date.0, date.1, date.2) * 86400 + of_day;
            &&& iso_text(secs, millis) == written_out(date, time, millis)
            &&& iso_ms(written_out(date, time, millis)) == Some(secs * 1000 + millis)
        }),
{
    let (y, m, d) = date;
    lemma_parts_of_seconds(day_number(y, m, d), time.0, time.1, time.2);
    lemma_civil(y, m, d);
    lemma_reads_back(y, m, d, of_day, millis);
    assert(four_figures(y) == padded(y, 4)) by {
        lemma_figures(y);
    }
    assert(two_figures(m) == padded(m, 2)) by {
        lemma_figures(m);
    }
    assert(two_figures(d) == padded(d, 2)) by {
        lemma_figures(d);
    }
    assert(two_figures(time.0) == padded(time.0, 2)) by {
        lemma_figures(time.0);
    }
    assert(two_figures(time.1) == padded(time.1, 2)) by {
        lemma_figures(time.1);
    }
    assert(two_figures(time.2) == padded(time.2, 2)) by {
        lemma_figures(time.2);
    }
    assert(three_figures(millis) == padded(millis, 3)) by {
        lemma_figures(millis);
    }
}

/// A time is written as year, month, day, hour, minute, second and
/// milliseconds, in this order and in UTC, and such a text is read as that
/// time. One whose day is not in the calendar, or whose time is not one of the
/// day, is not read.
#[verifier::spinoff_prover]
pub proof fn law_times_written_out(date: (int, int, int), time: (int, int, int), millis: int)
    requires
        0 <= date.0 < 10000 && 0 <= date.1 < 100 && 0 <= date.2 < 100,
        0 <= time.0 < 100 && 0 <= time.1 < 100 && 0 <= time.2 < 100,
        0 <= millis < 1000,
    ensures
        ({
            let (y, m, d) = date;
            let (h, min, s) = time;
            let secs = day_number(y, m, d) * 86400 + h * 3600 + min * 60 + s;
            if 1 <= m <= 12 && 1 <= d <= month_length(y, m) && h < 24 && min < 60 && s < 60 {
                &&& iso_text(secs, millis) == written_out(date, time, millis)
                &&& iso_ms(written_out(date, time, millis)) == Some(secs * 1000 + millis)
            } else {
                iso_ms(written_out(date, time, millis)) is None
            }
        }),
{
    let (y, m, d) = date;
    let (h, min, s) = time;
    if 1 <= m <= 12 && 1 <= d <= month_length(y, m) && h < 24 && min < 60 && s < 60 {
        lemma_formatted(date, time, millis, h * 3600 + min * 60 + s);
    } else {
        lemma_written_out(date, time, millis);
    }
}

} // verus!
