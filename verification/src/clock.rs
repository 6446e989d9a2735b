//! The one place the library reads the wall clock.

use vstd::prelude::*;

verus! {

/// Seconds since the Unix epoch, or 0 when the clock reads earlier than
/// the epoch.
///
/// Relies on std::time::SystemTime::now, whose result depends on the
/// wall clock; nothing can be promised about the value.
#[verifier::external_body]
pub fn now_unix() -> u64 {
    std::time::SystemTime::now().duration_since(std::time::UNIX_EPOCH).map(
        |d| d.as_secs(),
    ).unwrap_or(0)
}

} // verus!
