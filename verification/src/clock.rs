//! The clock and fresh identifiers: results that depend on the moment and
//! on chance, so nothing is stated of which value comes back beyond its form.
use vstd::prelude::*;
use crate::models::UtcTimestamp;

verus! {

/// A lowercase hexadecimal digit or a hyphen.
pub open spec fn is_uuid_char(c: char) -> bool {
    ('0' <= c && c <= '9') || ('a' <= c && c <= 'f') || c == '-'
}

/// `chrono::Utc::now()`, read as seconds and subsecond nanoseconds. Claims
/// only the nanosecond range that chrono documents (leap seconds included).
#[verifier::external_body]
pub(crate) fn utc_now() -> (r: UtcTimestamp)
    ensures
        r.nanos < 2_000_000_000,
{
    let now = chrono::Utc::now();
    UtcTimestamp { secs: now.timestamp(), nanos: now.timestamp_subsec_nanos() }
}

/// `uuid::Uuid::new_v4().to_string()`: a random identifier. Claims only its
/// form: 36 lowercase hexadecimal digits and hyphens.
#[verifier::external_body]
pub(crate) fn new_uuid_string() -> (r: String)
    ensures
        r@.len() == 36,
        forall|i: int| 0 <= i < r@.len() ==> is_uuid_char(#[trigger] r@[i]),
{
    uuid::Uuid::new_v4().to_string()
}

} // verus!
