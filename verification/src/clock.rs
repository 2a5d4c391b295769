//! Wall-clock readings and timestamp text, through the `chrono` crate.
//!
//! The wire layout for a start time is `%d %b %Y %H:%M:%S +0000`: an
//! RFC-2822-style date-time that omits the optional weekday, since the
//! weekday would introduce the field separator (a comma) into the field.

use vstd::prelude::*;
use crate::text::free_of;

verus! {

/// The latest epoch second the library stores: 9999-12-31 23:59:59 UTC.
/// Staying below five-digit years keeps every stored second well inside the
/// range `chrono` can represent, format and parse back.
pub const TS_MAX: u64 = 253402300799;

/// The text that `chrono` renders for epoch second `t` in the fixed wire
/// layout.  A function of `t` alone.
pub uninterp spec fn rfc2822(t: int) -> Seq<char>;

/// The epoch second that `chrono` reads out of the RFC-2822-style text `s`,
/// or nothing where `s` does not parse.  A function of `s` alone.
pub uninterp spec fn rfc2822_parse(s: Seq<char>) -> Option<int>;

/// Relies on `chrono::DateTime::<Utc>::from_timestamp` (defined on every
/// second up to `TS_MAX`) and `chrono::DateTime::format` with the fixed wire
/// layout: the rendered text is a function of the second alone, is never
/// empty, and contains neither a comma nor a line break (day, year, hours,
/// minutes and seconds render as digits, the month as a three-letter name,
/// the offset as `+0000`).
#[verifier::external_body]
pub(crate) fn format_rfc2822(t: u64) -> (r: String)
    requires
        t <= TS_MAX,
    ensures
        r@ == rfc2822(t as int),
        r@.len() >= 1,
        free_of(r@, ','),
        free_of(r@, '\n'),
{
    let dt = chrono::DateTime::<chrono::Utc>::from_timestamp(t as i64, 0).unwrap();
    format!("{}", dt.format("%d %b %Y %H:%M:%S +0000"))
}

/// Relies on `chrono::DateTime::parse_from_rfc2822` and
/// `chrono::DateTime::timestamp`: the outcome is a function of the text
/// alone, and parsing the rendered text of a second in range gives that
/// second back (the layout above is the RFC-2822 grammar with its optional
/// weekday left out, and the offset `+0000` makes the epoch second equal the
/// civil reading).
#[verifier::external_body]
pub(crate) fn parse_rfc2822(s: &str) -> (r: Option<i64>)
    ensures
        match r {
            Some(v) => rfc2822_parse(s@) == Some(v as int),
            None => rfc2822_parse(s@) is None,
        },
        forall|t: int| 0 <= t <= TS_MAX as int && s@ == rfc2822(t) ==> r == Some(t as i64),
{
    match chrono::DateTime::parse_from_rfc2822(s) {
        Ok(dt) => Some(dt.timestamp()),
        Err(_) => None,
    }
}

/// Relies on `std::time::SystemTime::now` and `chrono`'s conversion from
/// `SystemTime`, which yields a negative second for a clock set before the
/// epoch instead of failing.  Nothing is promised of a clock reading.
#[verifier::external_body]
fn now_epoch() -> i64 {
    chrono::DateTime::<chrono::Utc>::from(std::time::SystemTime::now()).timestamp()
}

/// The current wall-clock second, clamped into the storable range.
pub fn current_epoch() -> (r: u64)
    ensures
        r <= TS_MAX,
{
    let n = now_epoch();
    if n < 0 {
        0
    } else if n > TS_MAX as i64 {
        TS_MAX
    } else {
        n as u64
    }
}

} // verus!
