//! A named stopwatch for the phases of a conversion.
use vstd::prelude::*;

verus! {

#[verifier::external_type_specification]
#[verifier::external_body]
pub struct ExInstant(std::time::Instant);

/// Relies on `std::time::Instant::now`: the current instant of a monotonic clock.
#[verifier::external_body]
fn now() -> (r: std::time::Instant) {
    std::time::Instant::now()
}

/// Relies on `std::time::Instant::elapsed`: the time since `start`, in whole
/// milliseconds, held at `u64::MAX`.
#[verifier::external_body]
fn millis_since(start: &std::time::Instant) -> (r: u64) {
    u64::try_from(start.elapsed().as_millis()).unwrap_or(u64::MAX)
}

/// A stopwatch started at its creation.
pub struct Timer {
    start: std::time::Instant,
    name: String,
}

impl Timer {
    pub fn new(name: &str) -> (r: Self)
        ensures
            r.spec_name() == name@,
    {
        Timer { start: now(), name: name.to_owned() }
    }

    pub closed spec fn spec_name(&self) -> Seq<char> {
        self.name@
    }

    /// The name given at creation.
    pub fn name(&self) -> (r: &str)
        ensures
            r@ == self.spec_name(),
    {
        self.name.as_str()
    }

    /// Milliseconds since creation.
    pub fn elapsed_millis(&self) -> u64 {
        millis_since(&self.start)
    }
}

} // verus!
