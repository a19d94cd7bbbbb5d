//! Timestamps (`chrono`) and item ids (`uuid`).
use chrono::{DateTime, TimeZone, Utc};
use vstd::prelude::*;

verus! {

/// The RFC 3339 text `%Y-%m-%dT%H:%M:%S%.3fZ` of an instant given in
/// milliseconds since the Unix epoch, in UTC.
pub uninterp spec fn utc_millis_text(ms: i64) -> Seq<char>;

/// The instant, in milliseconds since the Unix epoch, that an RFC 3339 text
/// denotes, if it is one.
pub uninterp spec fn rfc3339_millis(s: Seq<char>) -> Option<i64>;

/// First and last millisecond of the years 0000 to 9999, the instants whose
/// year has the four digits RFC 3339 requires.
pub open spec fn in_four_digit_years(ms: i64) -> bool {
    -62167219200000 <= ms <= 253402300799999
}

/// `Utc.timestamp_millis_opt(ms)` (the epoch when out of chrono's range)
/// formatted with `%Y-%m-%dT%H:%M:%S%.3fZ`. The text names the same
/// millisecond when its year has four digits, so parsing it back with
/// `DateTime::parse_from_rfc3339` gives `ms` again.
#[verifier::external_body]
pub(crate) fn utc_text(ms: i64) -> (r: String)
    ensures
        r@ == utc_millis_text(ms),
        r@.len() > 0,
        in_four_digit_years(ms) ==> rfc3339_millis(r@) == Some(ms),
{
    let dt: DateTime<Utc> = Utc.timestamp_millis_opt(ms).single().unwrap_or_default();
    dt.format("%Y-%m-%dT%H:%M:%S%.3fZ").to_string()
}

/// `DateTime::parse_from_rfc3339(s)` then `timestamp_millis`.
#[verifier::external_body]
pub(crate) fn rfc3339_to_millis(s: &str) -> (r: Option<i64>)
    ensures
        r == rfc3339_millis(s@),
{
    DateTime::parse_from_rfc3339(s).ok().map(|d| d.timestamp_millis())
}

/// `Utc::now()` in milliseconds since the Unix epoch.
#[verifier::external_body]
pub fn now_ms() -> (r: i64) {
    Utc::now().timestamp_millis()
}

/// Whether `c` is a lowercase hexadecimal digit.
pub open spec fn is_lower_hex(c: char) -> bool {
    ('0' <= c && c <= '9') || ('a' <= c && c <= 'f')
}

/// Whether `id` has the form of a new item id: 32 lowercase hexadecimal
/// digits.
pub open spec fn is_new_id(id: Seq<char>) -> bool {
    id.len() == 32 && forall|i: int| 0 <= i < 32 ==> is_lower_hex(#[trigger] id[i])
}

/// A random version 4 UUID in its simple form (`Uuid::new_v4().simple()`):
/// 32 lowercase hexadecimal digits.
#[verifier::external_body]
pub fn new_id() -> (r: String)
    ensures
        is_new_id(r@),
{
    uuid::Uuid::new_v4().simple().to_string()
}

} // verus!
