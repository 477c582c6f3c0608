//! Wall-clock time in UTC seconds, and its RFC 3339 text, from `chrono`.
use vstd::prelude::*;

verus! {

/// The RFC 3339 text of a UTC instant given in seconds since the epoch, or
/// `None` where the instant is out of `chrono`'s range.
pub uninterp spec fn rfc3339_of(secs: int) -> Option<Seq<char>>;

/// Relies on `chrono::Utc::now`, read as whole seconds since the epoch
/// through `DateTime::timestamp`. Nothing is promised of the value.
#[verifier::external_body]
pub(crate) fn now_seconds() -> (r: i64) {
    chrono::Utc::now().timestamp()
}

/// Relies on `chrono::DateTime::<Utc>::to_rfc3339`, on the instant that
/// `DateTime::from_timestamp(secs, 0)` gives; that returns `None` out of range.
#[verifier::external_body]
pub(crate) fn rfc3339(secs: i64) -> (r: Option<String>)
    ensures
        r is None ==> rfc3339_of(secs as int) is None,
        r matches Some(t) ==> rfc3339_of(secs as int) == Some(t@),
{
    match chrono::DateTime::<chrono::Utc>::from_timestamp(secs, 0) {
        Some(d) => Some(d.to_rfc3339()),
        None => None,
    }
}

} // verus!
