//! The text logged for each answered request: its status and how long it took.

use std::time::Duration;

use vstd::prelude::*;

use crate::text::{decimal, push_decimal, push_str};

verus! {

/// Name for what `Duration::as_micros` gives: the whole microseconds in the duration.
pub uninterp spec fn duration_as_micros(latency: Duration) -> u128;

/// Calls `Duration::as_micros`. Claimed: the result is `duration_as_micros` of the
/// duration.
#[verifier::external_body]
fn latency_micros(latency: &Duration) -> (r: u128)
    ensures
        r == duration_as_micros(*latency),
{
    latency.as_micros()
}

/// The status, a space, then the latency: in whole milliseconds with `ms` from one
/// millisecond on, else in microseconds with `μs`.
pub open spec fn latency_text(micros: nat, status: Seq<char>) -> Seq<char> {
    if micros >= 1000 {
        status + seq![' '] + decimal(micros / 1000) + seq!['m', 's']
    } else {
        status + seq![' '] + decimal(micros) + seq!['\u{3bc}', 's']
    }
}

/// The log text for a latency given in whole microseconds. The whole milliseconds of
/// a duration are its whole microseconds divided by 1000.
pub fn format_latency_micros(micros: u128, status: &str) -> (r: String)
    ensures
        r@ == latency_text(micros as nat, status@),
{
    let mut out = String::new();
    push_str(&mut out, status);
    out.push(' ');
    if micros >= 1000 {
        push_decimal(&mut out, micros / 1000);
        out.push('m');
        out.push('s');
    } else {
        push_decimal(&mut out, micros);
        out.push('\u{3bc}');
        out.push('s');
    }
    out
}

/// Formats a request's latency and status for the log, e.g. `200 OK 12ms` or
/// `200 OK 850μs`.
pub fn format_latency(latency: Duration, status: &str) -> (r: String)
    ensures
        r@ == latency_text(duration_as_micros(latency) as nat, status@),
{
    let micros = latency_micros(&latency);
    format_latency_micros(micros, status)
}

} // verus!
