//! A monotonic millisecond clock, read from `std::time::Instant`.

use vstd::prelude::*;

verus! {

#[verifier::external_type_specification]
#[verifier::external_body]
pub struct ExInstant(std::time::Instant);

/// `Instant::now`. What it returns depends on the time of the call, so the
/// contract says nothing about it.
#[verifier::external_body]
fn instant_now() -> std::time::Instant {
    std::time::Instant::now()
}

/// `Instant::elapsed`, in whole milliseconds. The value depends on the time of
/// the call, so the contract says nothing about it.
#[verifier::external_body]
fn elapsed_millis(origin: &std::time::Instant) -> u64 {
    origin.elapsed().as_millis() as u64
}

/// Milliseconds elapsed since the clock was started.
pub struct Clock {
    origin: std::time::Instant,
}

impl Clock {
    /// A clock that starts now.
    pub fn start() -> Clock {
        Clock { origin: instant_now() }
    }

    /// Milliseconds since `start`.
    pub fn now_ms(&self) -> u64 {
        elapsed_millis(&self.origin)
    }
}

} // verus!
