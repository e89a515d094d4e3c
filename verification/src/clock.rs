//! Wall-clock access, as nanoseconds since the Unix epoch.
use vstd::prelude::*;

verus! {

/// Nanoseconds since the Unix epoch according to `std::time::SystemTime::now`
/// (`0` for a system clock set before the epoch). Nothing is stated of the
/// value: it is whatever the system clock reads.
#[verifier::external_body]
pub(crate) fn now_unix_nanos() -> u128 {
    match std::time::SystemTime::now().duration_since(std::time::UNIX_EPOCH) {
        Ok(d) => d.as_nanos(),
        Err(_) => 0,
    }
}

} // verus!
