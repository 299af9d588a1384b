//! Calendar timestamps, as `chrono` represents them.

use chrono::{DateTime, NaiveDateTime};
use vstd::prelude::*;

verus! {

/// `chrono::NaiveDateTime`, a date and time without a time zone. The decoders build such
/// values and hand them on; nothing in this crate looks inside one.
#[verifier::external_type_specification]
#[verifier::external_body]
pub struct ExNaiveDateTime(NaiveDateTime);

/// `chrono::NaiveDateTime` is `Copy`, and its `clone` is the derived one: it returns the
/// value it is given.
pub assume_specification[ <NaiveDateTime as Clone>::clone ](t: &NaiveDateTime) -> (r:
    NaiveDateTime)
    ensures
        r == *t,
;

/// The UTC date and time that lies `nanos` nanoseconds after the Unix epoch (before it, if
/// negative), as `chrono::DateTime::from_timestamp_nanos` builds it.
pub uninterp spec fn utc_from_nanos(nanos: i64) -> NaiveDateTime;

/// Calls `chrono::DateTime::from_timestamp_nanos`, which accepts every `i64` and never fails,
/// and takes the date and time of the result in UTC with `DateTime::naive_utc`. What comes
/// back depends on `nanos` alone, and that is all the contract claims: it gives the result
/// its name.
#[verifier::external_body]
pub(crate) fn datetime_from_nanos(nanos: i64) -> (dt: NaiveDateTime)
    ensures
        dt == utc_from_nanos(nanos),
{
    DateTime::from_timestamp_nanos(nanos).naive_utc()
}

} // verus!
