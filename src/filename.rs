//! The names that recorded clips carry, `YYYY-MM-DD[_ ]HH-MM-SS.mp4`, and
//! the instant that such a name denotes.
use vstd::prelude::*;

use crate::adapters::utc_seconds;

verus! {

pub open spec fn is_digit(c: char) -> bool {
    '0' <= c && c <= '9'
}

pub open spec fn digit_value(c: char) -> int {
    c as u32 - '0' as u32
}

/// The characters `s[start .. start + width]` are all decimal digits.
pub open spec fn digits_at(s: Seq<char>, start: int, width: int) -> bool {
    forall|i: int| start <= i < start + width ==> #[trigger] is_digit(s[i])
}

/// The decimal number written by `s[start .. start + width]`.
pub open spec fn number_at(s: Seq<char>, start: int, width: nat) -> int
    decreases width,
{
    if width == 0 {
        0
    } else {
        number_at(s, start, (width - 1) as nat) * 10 + digit_value(s[start + width - 1])
    }
}

/// `s` has the shape `YYYY-MM-DD[_ ]HH-MM-SS.mp4`, with ASCII digits.
pub open spec fn is_clip_name(s: Seq<char>) -> bool {
    &&& s.len() == 23
    &&& digits_at(s, 0, 4)
    &&& s[4] == '-'
    &&& digits_at(s, 5, 2)
    &&& s[7] == '-'
    &&& digits_at(s, 8, 2)
    &&& (s[10] == '_' || s[10] == ' ')
    &&& digits_at(s, 11, 2)
    &&& s[13] == '-'
    &&& digits_at(s, 14, 2)
    &&& s[16] == '-'
    &&& digits_at(s, 17, 2)
    &&& s[19] == '.'
    &&& s[20] == 'm'
    &&& s[21] == 'p'
    &&& s[22] == '4'
}

pub open spec fn is_leap_year(y: int) -> bool {
    y % 4 == 0 && (y % 100 != 0 || y % 400 == 0)
}

pub open spec fn days_in_month(y: int, m: int) -> int {
    if m == 2 {
        if is_leap_year(y) {
            29
        } else {
            28
        }
    } else if m == 4 || m == 6 || m == 9 || m == 11 {
        30
    } else {
        31
    }
}

/// A calendar date of the proleptic Gregorian calendar and a time of day
/// without leap second.
pub open spec fn valid_civil(y: int, mo: int, d: int, h: int, mi: int, s: int) -> bool {
    &&& 1 <= mo <= 12
    &&& 1 <= d <= days_in_month(y, mo)
    &&& 0 <= h < 24
    &&& 0 <= mi < 60
    &&& 0 <= s < 60
}

/// Days from an arbitrary fixed origin to January 1st of year `y`.
pub open spec fn days_before_year(y: int) -> int {
    365 * y + (y - 1) / 4 - (y - 1) / 100 + (y - 1) / 400
}

/// Days from January 1st to the first day of month `m` of year `y`.
pub open spec fn days_before_month(y: int, m: int) -> int
    decreases m,
{
    if m <= 1 {
        0
    } else {
        days_before_month(y, m - 1) + days_in_month(y, m - 1)
    }
}

/// Seconds from 1970-01-01 00:00:00 to the given date and time, both read as UTC.
pub open spec fn unix_seconds(y: int, mo: int, d: int, h: int, mi: int, s: int) -> int {
    (days_before_year(y) - days_before_year(1970) + days_before_month(y, mo) + d - 1) * 86400 + h
        * 3600 + mi * 60 + s
}

/// The six fields of a clip name: year, month, day, hour, minute, second.
pub open spec fn name_fields(s: Seq<char>) -> (int, int, int, int, int, int) {
    (
        number_at(s, 0, 4),
        number_at(s, 5, 2),
        number_at(s, 8, 2),
        number_at(s, 11, 2),
        number_at(s, 14, 2),
        number_at(s, 17, 2),
    )
}

/// The instant that a file name records, if it is a clip name that denotes
/// a real date and time.
pub open spec fn recorded_time(s: Seq<char>) -> Option<int> {
    let f = name_fields(s);
    if is_clip_name(s) && valid_civil(f.0, f.1, f.2, f.3, f.4, f.5) {
        Some(unix_seconds(f.0, f.1, f.2, f.3, f.4, f.5))
    } else {
        None
    }
}

proof fn lemma_number_bound(s: Seq<char>, start: int, width: nat)
    requires
        digits_at(s, start, width as int),
        0 <= start,
        start + width <= s.len(),
    ensures
        0 <= number_at(s, start, width) < pow10(width),
    decreases width,
{
    if width > 0 {
        lemma_number_bound(s, start, (width - 1) as nat);
        assert(is_digit(s[start + width - 1]));
    }
}

pub open spec fn pow10(n: nat) -> int
    decreases n,
{
    if n == 0 {
        1
    } else {
        10 * pow10((n - 1) as nat)
    }
}

fn digits_ok(s: &str, start: usize, width: usize) -> (r: bool)
    requires
        start + width <= s@.len(),
        start + width <= 23,
    ensures
        r == digits_at(s@, start as int, width as int),
{
    let mut i: usize = start;
    while i < start + width
        invariant
            start <= i <= start + width,
            start + width <= s@.len(),
            start + width <= 23,
            digits_at(s@, start as int, i - start),
        decreases start + width - i,
    {
        let c = s.get_char(i);
        if !('0' <= c && c <= '9') {
            assert(!is_digit(s@[i as int]));
            return false;
        }
        i = i + 1;
    }
    true
}

fn read_number(s: &str, start: usize, width: usize) -> (r: u32)
    requires
        start + width <= s@.len(),
        width <= 4,
        start + width <= 23,
        digits_at(s@, start as int, width as int),
    ensures
        r as int == number_at(s@, start as int, width as nat),
{
    let mut v: u32 = 0;
    let mut k: usize = 0;
    while k < width
        invariant
            k <= width <= 4,
            start + width <= s@.len(),
            start + width <= 23,
            digits_at(s@, start as int, width as int),
            v as int == number_at(s@, start as int, k as nat),
        decreases width - k,
    {
        proof {
            lemma_number_bound(s@, start as int, k as nat);
            assert(pow10(k as nat) <= 1000) by {
                reveal_with_fuel(pow10, 4);
            }
            assert(is_digit(s@[start + k]));
        }
        let c = s.get_char(start + k);
        v = v * 10 + (c as u32 - '0' as u32);
        k = k + 1;
    }
    v
}

/// Whether `name` is the name of a recorded clip.
pub fn is_clip_filename(name: &str) -> (r: bool)
    ensures
        r == is_clip_name(name@),
{
    if name.unicode_len() != 23 {
        return false;
    }
    let sep = name.get_char(10);
    digits_ok(name, 0, 4) && name.get_char(4) == '-' && digits_ok(name, 5, 2) && name.get_char(7)
        == '-' && digits_ok(name, 8, 2) && (sep == '_' || sep == ' ') && digits_ok(name, 11, 2)
        && name.get_char(13) == '-' && digits_ok(name, 14, 2) && name.get_char(16) == '-'
        && digits_ok(name, 17, 2) && name.get_char(19) == '.' && name.get_char(20) == 'm'
        && name.get_char(21) == 'p' && name.get_char(22) == '4'
}

/// The Unix time that a clip's file name records, or `None` where the name
/// is no clip name or its fields name no real date and time.
pub fn parse_timestamp(filename: &str) -> (r: Option<i64>)
    ensures
        r matches Some(t) ==> recorded_time(filename@) == Some(t as int),
        r is None ==> recorded_time(filename@) is None,
{
    if !is_clip_filename(filename) {
        return None;
    }
    let year = read_number(filename, 0, 4);
    let month = read_number(filename, 5, 2);
    let day = read_number(filename, 8, 2);
    let hour = read_number(filename, 11, 2);
    let min = read_number(filename, 14, 2);
    let sec = read_number(filename, 17, 2);
    proof {
        lemma_number_bound(filename@, 0, 4);
        reveal_with_fuel(pow10, 5);
    }
    utc_seconds(year as i32, month, day, hour, min, sec)
}

} // verus!
