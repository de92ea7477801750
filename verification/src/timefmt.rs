//! Timestamps: plain seconds since the Unix epoch, with the RFC 2822 text
//! form done by chrono behind trusted wrappers.

use vstd::prelude::*;

verus! {

/// Largest timestamp whose RFC 2822 text form exists: the last second of the
/// year 9999.
pub const TS_MAX: i64 = 253402300799;

/// Names the instant that chrono reads out of an RFC 2822 date, as seconds
/// since the Unix epoch in UTC; `None` where the text does not parse.
pub uninterp spec fn rfc2822_parse(s: Seq<char>) -> Option<i64>;

/// Names the RFC 2822 text of an instant, as chrono writes it.
pub uninterp spec fn rfc2822_format(t: i64) -> Seq<char>;

/// Relies on chrono's DateTime::parse_from_rfc2822: deterministic in the
/// input text alone; the result is the parsed instant converted to UTC.
#[verifier::external_body]
pub(crate) fn parse_rfc2822(s: &str) -> (r: Option<i64>)
    ensures
        r == rfc2822_parse(s@),
{
    match chrono::DateTime::parse_from_rfc2822(s) {
        Ok(d) => Some(d.timestamp()),
        Err(_) => None,
    }
}

/// Relies on chrono's DateTime::from_timestamp and DateTime::to_rfc2822: a
/// single-line date such as "Thu, 1 Jan 1970 00:00:00 +0000", deterministic
/// in the timestamp alone. to_rfc2822 panics outside the years 0 through
/// 9999, so the timestamp is kept within that range.
#[verifier::external_body]
pub(crate) fn format_rfc2822(t: i64) -> (r: String)
    requires
        0 <= t <= TS_MAX,
    ensures
        r@ == rfc2822_format(t),
        forall|i: int| 0 <= i < r@.len() ==> r@[i] != '\n' && r@[i] != '\r',
{
    match chrono::DateTime::from_timestamp(t, 0) {
        Some(d) => d.to_rfc2822(),
        None => String::new(),
    }
}

/// Forces a clock reading into the range the text form can carry.
pub fn clamp_ts(t: i64) -> (r: i64)
    ensures
        r == spec_clamp_ts(t),
{
    if t < 0 {
        0
    } else if t > TS_MAX {
        TS_MAX
    } else {
        t
    }
}

pub open spec fn spec_clamp_ts(t: i64) -> i64 {
    if t < 0 {
        0
    } else if t > TS_MAX {
        TS_MAX
    } else {
        t
    }
}

} // verus!
