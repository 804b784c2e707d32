//! The system clock and its rendering as wall-clock text.

use vstd::prelude::*;

use crate::text::{pad2, push_pad2};

verus! {

#[verifier::external_type_specification]
#[verifier::external_body]
pub struct ExSystemTime(std::time::SystemTime);

#[verifier::external_type_specification]
#[verifier::external_body]
pub struct ExSystemTimeError(std::time::SystemTimeError);

/// std `SystemTime::now`. Trusted: it reads the system clock; the reading depends on the
/// machine and the moment, so nothing is stated of it.
#[verifier::external_body]
fn system_now() -> (r: std::time::SystemTime) {
    std::time::SystemTime::now()
}

/// std `SystemTime::duration_since`, measured from `UNIX_EPOCH`. Trusted: `Err` when the
/// reading lies before the epoch; the duration depends on the reading, so nothing more is
/// stated.
#[verifier::external_body]
fn since_epoch(t: &std::time::SystemTime) -> (r: Result<std::time::Duration, std::time::SystemTimeError>) {
    t.duration_since(std::time::UNIX_EPOCH)
}

/// std `Duration::as_millis`. Trusted: the whole milliseconds of the duration; the
/// duration is opaque here, so nothing is stated of the count.
#[verifier::external_body]
fn duration_millis(d: &std::time::Duration) -> (r: u128) {
    d.as_millis()
}

/// The system clock, in milliseconds since the UNIX epoch (0 when the clock reads before
/// the epoch; a count past `u64::MAX` keeps its low 64 bits). The value depends on the
/// clock, so nothing is stated of it.
pub(crate) fn clock_unix_millis() -> u64 {
    let now = system_now();
    match since_epoch(&now) {
        Ok(d) => {
            let m = duration_millis(&d);
            #[verifier::truncate]
            (m as u64)
        },
        Err(_) => 0,
    }
}

/// `HH:MM:SS` (UTC) of a timestamp in seconds.
pub open spec fn hms_spec(secs: nat) -> Seq<char> {
    pad2((secs / 3600) % 24) + ":"@ + pad2((secs / 60) % 60) + ":"@ + pad2(secs % 60)
}

/// Render a timestamp in seconds as `HH:MM:SS` (UTC).
pub fn hms_string(secs: u64) -> (r: String)
    ensures
        r@ == hms_spec(secs as nat),
{
    let mut s = String::new();
    proof {
        reveal_strlit(":");
    }
    push_pad2(&mut s, (secs / 3600) % 24);
    s.append(":");
    push_pad2(&mut s, (secs / 60) % 60);
    s.append(":");
    push_pad2(&mut s, secs % 60);
    proof {
        assert(s@ =~= hms_spec(secs as nat));
    }
    s
}

} // verus!
