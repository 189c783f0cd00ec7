use vstd::prelude::*;

verus! {

/// Read the cycle counter.
///
/// Relies on `std::time::SystemTime::now`: the reading degrades to a
/// nanosecond-resolution clock, so reported units are nanoseconds rather
/// than hardware cycles. Nothing is promised of the value: it depends on
/// the clock, and two reads may relate in any way.
#[verifier::external_body]
pub fn rdtsc() -> u64 {
    match std::time::SystemTime::now().duration_since(std::time::SystemTime::UNIX_EPOCH) {
        Ok(d) => d.as_nanos() as u64,
        Err(_) => 0,
    }
}

} // verus!
