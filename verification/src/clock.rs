//! The wall clock, for the timestamps recorded on commits and approvals.
use vstd::prelude::*;

use crate::text::{Chars, dec, push_dec, push_str};

verus! {

#[verifier::external_type_specification]
#[verifier::external_body]
pub struct ExSystemTime(std::time::SystemTime);

#[verifier::external_type_specification]
#[verifier::external_body]
pub struct ExSystemTimeError(std::time::SystemTimeError);

/// `SystemTime::now`: the system clock's current time. Nothing is promised
/// of the value: it is the time.
#[verifier::external_body]
fn system_now() -> std::time::SystemTime {
    std::time::SystemTime::now()
}

/// `SystemTime::duration_since(UNIX_EPOCH)`: how long after the epoch the
/// time is, or an error for a time before it. Nothing is promised of
/// which.
#[verifier::external_body]
fn since_epoch(t: &std::time::SystemTime) -> Result<std::time::Duration, std::time::SystemTimeError> {
    t.duration_since(std::time::UNIX_EPOCH)
}

/// `Duration::as_secs`: the whole seconds of a duration. The duration is
/// opaque here, so nothing is promised of the value.
#[verifier::external_body]
fn whole_seconds(d: &std::time::Duration) -> u64 {
    d.as_secs()
}

/// Whole seconds since the Unix epoch by the system clock, 0 for a clock
/// set before the epoch.
fn unix_seconds() -> u64 {
    match since_epoch(&system_now()) {
        Ok(d) => whole_seconds(&d),
        Err(_) => 0,
    }
}

/// A timestamp: whole seconds since the epoch followed by `s`.
pub open spec fn stamp_of(secs: nat) -> Chars {
    dec(secs) + "s"@
}

/// The current time as a timestamp (`<seconds>s`).
pub fn now() -> (r: String)
    ensures
        exists|secs: nat| r@ == stamp_of(secs),
{
    let secs = unix_seconds();
    let mut r = String::new();
    push_dec(&mut r, secs);
    push_str(&mut r, "s");
    assert(r@ =~= stamp_of(secs as nat));
    r
}

} // verus!
