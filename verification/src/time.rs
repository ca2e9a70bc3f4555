//! Dates and timestamps, which come from `chrono`.

use chrono::{TimeZone, Utc};
use vstd::prelude::*;

verus! {

/// A calendar date of `chrono`. The library carries such dates and never looks inside.
#[verifier::external_type_specification]
#[verifier::external_body]
pub struct ExNaiveDate(chrono::NaiveDate);

/// The RFC 3339 text, in UTC, of the instant that lies `seconds` seconds after the Unix
/// epoch; `None` where `chrono` cannot hold that instant.
pub uninterp spec fn rfc3339_of(seconds: int) -> Option<Seq<char>>;

/// Calls `TimeZone::timestamp_opt` on `Utc` with `seconds` and no nanoseconds, takes
/// with `MappedLocalTime::latest` the instant that it maps to, if any, and formats it
/// with `DateTime::to_rfc3339`. The contract claims only that the text is a function
/// of `seconds`, which it names `rfc3339_of`.
#[verifier::external_body]
pub(crate) fn timestamp_text(seconds: i64) -> (text: Option<String>)
    ensures
        match text {
            Some(t) => rfc3339_of(seconds as int) == Some(t@),
            None => rfc3339_of(seconds as int) is None,
        },
{
    match Utc.timestamp_opt(seconds, 0).latest() {
        Some(instant) => Some(instant.to_rfc3339()),
        None => None,
    }
}

} // verus!
