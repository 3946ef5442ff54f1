//! RFC 3339 timestamps, read by `chrono`.
use vstd::prelude::*;

verus! {

/// `None` when `chrono::DateTime::parse_from_rfc3339` accepts `ts`; otherwise
/// the text of the error it reports.
pub uninterp spec fn rfc3339_error(ts: Seq<char>) -> Option<Seq<char>>;

/// Whole days from the instant written `ts` to the instant written `now`
/// (`chrono`'s `(now - ts).num_days()`, rounded toward zero), when both parse.
pub uninterp spec fn days_between(now: Seq<char>, ts: Seq<char>) -> Option<i64>;

/// `chrono::DateTime::parse_from_rfc3339`: `None` when `ts` parses, else the
/// error's text. The result is `rfc3339_error(ts)`.
#[verifier::external_body]
pub(crate) fn check_rfc3339(ts: &str) -> (r: Option<String>)
    ensures
        r is None <==> rfc3339_error(ts@) is None,
        r is Some ==> rfc3339_error(ts@) == Some(r->Some_0@),
{
    match chrono::DateTime::parse_from_rfc3339(ts) {
        Ok(_) => None,
        Err(e) => Some(e.to_string()),
    }
}

/// `(now - ts).num_days()` for two `chrono::DateTime<FixedOffset>` parsed from
/// RFC 3339 text: `days_between(now, ts)`, which is a value exactly when
/// both texts parse.
#[verifier::external_body]
pub(crate) fn days_since(now: &str, ts: &str) -> (r: Option<i64>)
    ensures
        r == days_between(now@, ts@),
        r is Some <==> (rfc3339_error(now@) is None && rfc3339_error(ts@) is None),
{
    match (chrono::DateTime::parse_from_rfc3339(now), chrono::DateTime::parse_from_rfc3339(ts)) {
        (Ok(n), Ok(t)) => Some((n - t).num_days()),
        _ => None,
    }
}

/// The current local time as RFC 3339 text to the second, through
/// `chrono::Local::now()` and `to_rfc3339_opts(SecondsFormat::Secs, false)`.
/// Which instant it is depends on the clock and the time zone, so only what
/// holds of every outcome is stated: `parse_from_rfc3339` reads it back.
#[verifier::external_body]
pub fn now_rfc3339() -> (r: String)
    ensures
        rfc3339_error(r@) is None,
{
    chrono::Local::now().to_rfc3339_opts(chrono::SecondsFormat::Secs, false)
}

/// The current local time as RFC 3339 text at full precision, through
/// `chrono::Local::now().fixed_offset()` and `to_rfc3339()` (fractional
/// seconds as needed). Which instant it is depends on the clock and the
/// time zone; `parse_from_rfc3339` reads it back.
#[verifier::external_body]
pub fn now_rfc3339_precise() -> (r: String)
    ensures
        rfc3339_error(r@) is None,
{
    chrono::Local::now().fixed_offset().to_rfc3339()
}

} // verus!
