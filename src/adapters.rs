//! Calls into std and outside crates whose behaviour the library relies on.
use vstd::prelude::*;

use crate::filename::{unix_seconds, valid_civil};
use crate::media::decimal;
use crate::serve::decimal_u64;
use crate::schema::decimal_i64;

verus! {

/// Relies on chrono's `NaiveDate::from_ymd_opt`, `NaiveDate::and_hms_opt`
/// and `DateTime::timestamp` (through `NaiveDateTime::and_utc`): a valid
/// proleptic Gregorian date and time of day, read as UTC, gives its Unix
/// time in seconds; an invalid one gives `None`.
#[verifier::external_body]
pub(crate) fn utc_seconds(year: i32, month: u32, day: u32, hour: u32, min: u32, sec: u32) -> (r:
    Option<i64>)
    requires
        0 <= year <= 9999,
    ensures
        r.is_some() == valid_civil(year as int, month as int, day as int, hour as int, min as int, sec as int),
        r matches Some(t) ==> t == unix_seconds(
            year as int,
            month as int,
            day as int,
            hour as int,
            min as int,
            sec as int,
        ),
{
    chrono::NaiveDate::from_ymd_opt(year, month, day).and_then(|d| d.and_hms_opt(hour, min, sec)).map(
        |dt| dt.and_utc().timestamp(),
    )
}

/// Relies on chrono's `Utc::now` and `DateTime::timestamp`: the current
/// time in whole seconds since the Unix epoch. Nothing is known of its value.
#[verifier::external_body]
pub(crate) fn now_seconds() -> (r: i64) {
    chrono::Utc::now().timestamp()
}

/// Relies on `<i64 as FromStr>::from_str`: an optional `+` or `-` followed
/// by one or more ASCII digits, whose value fits in an `i64`.
#[verifier::external_body]
pub(crate) fn parse_i64(s: &str) -> (r: Option<i64>)
    ensures
        match r {
            Some(n) => decimal_i64(s@) == Some(n as int),
            None => decimal_i64(s@) is None,
        },
{
    s.parse::<i64>().ok()
}

/// The lower-case form of a string, as Unicode defines it.
pub uninterp spec fn lower_of(s: Seq<char>) -> Seq<char>;

/// Relies on `str::to_lowercase`: the result depends on the characters
/// alone, and an empty string stays empty.
#[verifier::external_body]
pub(crate) fn lowercase(s: &str) -> (r: String)
    ensures
        r@ == lower_of(s@),
        s@.len() == 0 ==> r@.len() == 0,
{
    s.to_lowercase()
}

/// Relies on uuid's `Uuid::new_v4` and its `Display`: a random version 4
/// UUID in hyphenated form, 36 characters. Nothing is known of which one.
#[verifier::external_body]
pub(crate) fn fresh_id() -> (r: String)
    ensures
        r@.len() == 36,
{
    uuid::Uuid::new_v4().to_string()
}

/// The list of strings that a JSON text denotes, if it is a JSON array of strings.
pub uninterp spec fn json_strings(s: Seq<char>) -> Option<Seq<Seq<char>>>;

/// Relies on `serde_json::from_str::<Vec<String>>`: the strings of a JSON
/// array of strings, or `None` for any other text; the result depends on
/// the text alone.
#[verifier::external_body]
pub(crate) fn parse_string_list(s: &str) -> (r: Option<Vec<String>>)
    ensures
        match r {
            Some(v) => json_strings(s@) == Some(v@.map_values(|x: String| x@)),
            None => json_strings(s@) is None,
        },
{
    serde_json::from_str::<Vec<String>>(s).ok()
}

/// The JSON text that serde_json writes for a list of strings.
pub uninterp spec fn json_of_strings(v: Seq<Seq<char>>) -> Seq<char>;

/// Relies on `serde_json::to_string` on a `[String]`: a JSON array of the
/// strings, which depends on them alone. It cannot fail on strings.
#[verifier::external_body]
pub(crate) fn write_string_list(v: &[String]) -> (r: String)
    ensures
        r@ == json_of_strings(v@.map_values(|x: String| x@)),
{
    serde_json::to_string(v).unwrap_or_default()
}

/// Relies on `dirs::video_dir`: the platform's videos directory, if it has
/// one, as a lossy string. It depends on the machine and its environment.
#[verifier::external_body]
pub(crate) fn default_video_dir() -> (r: Option<String>) {
    dirs::video_dir().map(|p| p.to_string_lossy().to_string())
}

/// Relies on `u32`'s `Display`, through `ToString`: the decimal digits of
/// the number, without sign or leading zeros.
#[verifier::external_body]
pub(crate) fn decimal_string(n: u32) -> (r: String)
    ensures
        r@ == decimal(n as nat),
{
    n.to_string()
}

/// Relies on `<u64 as FromStr>::from_str`: an optional `+` followed by one
/// or more ASCII digits, whose value fits in a `u64`.
#[verifier::external_body]
pub(crate) fn parse_u64(s: &str) -> (r: Option<u64>)
    ensures
        match r {
            Some(n) => decimal_u64(s@) == Some(n as int),
            None => decimal_u64(s@) is None,
        },
{
    s.parse::<u64>().ok()
}

/// The text that `String::from_utf8_lossy` makes of some bytes.
pub uninterp spec fn lossy_utf8(b: Seq<u8>) -> Seq<char>;

/// Relies on `String::from_utf8_lossy`: the bytes read as UTF-8, each
/// invalid sequence replaced by U+FFFD; the result depends on the bytes alone.
#[verifier::external_body]
pub(crate) fn utf8_lossy(b: &[u8]) -> (r: String)
    ensures
        r@ == lossy_utf8(b@),
{
    String::from_utf8_lossy(b).to_string()
}

} // verus!
