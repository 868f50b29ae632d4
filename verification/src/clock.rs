//! The system clock.
use vstd::prelude::*;

verus! {

/// `SystemTime`, the time of the system clock.
#[verifier::external_type_specification]
#[verifier::external_body]
pub struct ExSystemTime(std::time::SystemTime);

/// What `SystemTime::duration_since(UNIX_EPOCH)` gives for a time, `None` standing for its
/// error (a time before the epoch).
pub uninterp spec fn epoch_duration(t: std::time::SystemTime) -> Option<core::time::Duration>;

/// What `Duration::as_millis` gives: the whole milliseconds of a duration.
pub uninterp spec fn duration_millis(d: core::time::Duration) -> u128;

/// What `Duration::as_secs` gives: the whole seconds of a duration.
pub uninterp spec fn duration_secs(d: core::time::Duration) -> u64;

/// The milliseconds since the Unix epoch that the clock reading `t` gives, cut to 64 bits;
/// 0 where `t` lies before the epoch.
pub open spec fn clock_ms(t: std::time::SystemTime) -> u64 {
    match epoch_duration(t) {
        Some(d) => duration_millis(d) as u64,
        None => 0,
    }
}

/// The whole seconds since the Unix epoch that the clock reading `t` gives; `None` where
/// `t` lies before the epoch.
pub open spec fn clock_secs(t: std::time::SystemTime) -> Option<u64> {
    match epoch_duration(t) {
        Some(d) => Some(duration_secs(d)),
        None => None,
    }
}

/// Calls `SystemTime::now`; nothing is known of the time it gives.
#[verifier::external_body]
fn system_time_now() -> std::time::SystemTime {
    std::time::SystemTime::now()
}

/// Calls `SystemTime::duration_since` with `UNIX_EPOCH`, its error turned into `None`.  The
/// contract claims only that the result is a function of `t` alone, named `epoch_duration`.
#[verifier::external_body]
fn since_unix_epoch(t: &std::time::SystemTime) -> (r: Option<core::time::Duration>)
    ensures
        r == epoch_duration(*t),
{
    t.duration_since(std::time::UNIX_EPOCH).ok()
}

/// Calls `Duration::as_millis`; the contract claims that the count is a function of the
/// duration alone, named `duration_millis`.
#[verifier::external_body]
fn duration_as_millis(d: &core::time::Duration) -> (r: u128)
    ensures
        r == duration_millis(*d),
{
    d.as_millis()
}

/// The time of the system clock in milliseconds since the Unix epoch, cut to 64 bits; 0
/// where the clock is set before the epoch.  Which reading of the clock it was is not known.
pub fn now_ms() -> (r: u64)
    ensures
        exists|t: std::time::SystemTime| r == #[trigger] clock_ms(t),
{
    let t = system_time_now();
    let r: u64 = match since_unix_epoch(&t) {
        Some(d) => {
            let ms = duration_as_millis(&d);
            #[verifier::truncate]
            (ms as u64)
        },
        None => 0,
    };
    assert(r == clock_ms(t));
    r
}

/// Calls `Duration::as_secs`; the contract claims that the count is a function of the
/// duration alone, named `duration_secs`.
#[verifier::external_body]
fn duration_as_secs(d: &core::time::Duration) -> (r: u64)
    ensures
        r == duration_secs(*d),
{
    d.as_secs()
}

/// The time of the system clock in whole seconds since the Unix epoch; `None` where the
/// clock is set before the epoch.  Which reading of the clock it was is not known.
pub fn unix_secs() -> (r: Option<u64>)
    ensures
        exists|t: std::time::SystemTime| r == #[trigger] clock_secs(t),
{
    let t = system_time_now();
    let r = match since_unix_epoch(&t) {
        Some(d) => Some(duration_as_secs(&d)),
        None => None,
    };
    assert(r == clock_secs(t));
    r
}

} // verus!
