//! Instants as whole seconds since 1970-01-01T00:00:00Z: the span between
//! two of them in minutes, and their RFC 3339 notation in local time.

use vstd::prelude::*;

verus! {

/// The first instant with a timestamp: 1901-01-01T00:00:00Z.
pub const MIN_INSTANT: i64 = -2_177_452_800;

/// The last instant with a timestamp: 9998-12-31T23:59:59Z.
pub const MAX_INSTANT: i64 = 253_370_764_799;

/// Whether an instant has a timestamp. The instants between the two bounds
/// fall into a year from 1900 to 9999 in every time zone. A later year has
/// more than the four digits of RFC 3339; for an earlier one the conversion
/// to local time is not defined on every system.
pub open spec fn has_timestamp(seconds: int) -> bool {
    MIN_INSTANT <= seconds <= MAX_INSTANT
}

/// The characters a timestamp is made of: digits, the separators of date
/// and time, and the marks of an offset.
pub open spec fn is_timestamp_char(c: char) -> bool {
    ||| '0' <= c <= '9'
    ||| c == '-'
    ||| c == ':'
    ||| c == 'T'
    ||| c == 'Z'
    ||| c == '+'
}

/// Whether a text holds timestamp characters only. This says nothing of
/// their order.
pub open spec fn timestamp_chars_only(text: Seq<char>) -> bool {
    forall|i: int| 0 <= i < text.len() ==> is_timestamp_char(#[trigger] text[i])
}

/// Whether `text` is a timestamp that the local calendar gave for the
/// instant `seconds`. One instant has as many such texts as there are time
/// zones to write it in.
pub uninterp spec fn is_local_timestamp(seconds: int, text: Seq<char>) -> bool;

/// Whole minutes in a span of `seconds`, rounded toward zero.
pub open spec fn whole_minutes(seconds: int) -> int {
    if seconds >= 0 {
        seconds / 60
    } else {
        -((-seconds) / 60)
    }
}

/// `time::at` on the instant, then `Tm::rfc3339` on the calendar time it
/// gives, written out as a string. `time::at` asks the system for the local
/// time zone, so the text may differ from one call to the next: the contract
/// relates the text to the instant and does not say which text it is.
/// Whatever the zone, the format writes numbers, `-`, `:` and `T`, and ends
/// with `Z` or with a signed offset, so the text is never empty. `time::at`
/// panics where the system cannot convert the instant, and on one system
/// where the local year lies before 1900; the bounds keep both out.
#[verifier::external_body]
fn local_rfc3339(seconds: i64) -> (text: String)
    requires
        has_timestamp(seconds as int),
    ensures
        text@.len() > 0,
        timestamp_chars_only(text@),
        is_local_timestamp(seconds as int, text@),
{
    time::at(time::Timespec::new(seconds, 0)).rfc3339().to_string()
}

/// Whether `seconds` has a timestamp.
pub fn in_calendar(seconds: i64) -> (r: bool)
    ensures
        r == has_timestamp(seconds as int),
{
    MIN_INSTANT <= seconds && seconds <= MAX_INSTANT
}

/// The RFC 3339 timestamp of an instant in the local time zone, or `None`
/// for an instant that has none.
pub fn timestamp(seconds: i64) -> (r: Option<String>)
    ensures
        r is Some <==> has_timestamp(seconds as int),
        r matches Some(text) ==> {
            &&& text@.len() > 0
            &&& timestamp_chars_only(text@)
            &&& is_local_timestamp(seconds as int, text@)
        },
{
    if in_calendar(seconds) {
        Some(local_rfc3339(seconds))
    } else {
        None
    }
}

/// Whole minutes from `start` to `end`, rounded toward zero; negative where
/// `end` lies before `start`.
pub fn minutes_between(start: i64, end: i64) -> (minutes: i64)
    ensures
        minutes == whole_minutes(end - start),
{
    let span: i128 = end as i128 - start as i128;
    if span >= 0 {
        ((span as u128) / 60) as i64
    } else {
        -((((-span) as u128) / 60) as i64)
    }
}

} // verus!
