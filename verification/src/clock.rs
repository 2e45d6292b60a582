//! The wall clock.
//!
//! Status records carry the time they were written.  The clock itself is
//! outside the verified core: its reading depends on the machine, so the
//! wrapper promises nothing of the value.

use vstd::prelude::*;

verus! {

/// Relies on chrono's `Local::now` and `DateTime::to_rfc3339`: the
/// current local time in RFC 3339 form.  The result depends on the
/// clock, so nothing is stated about it.
#[verifier::external_body]
pub(crate) fn now_rfc3339() -> (r: Vec<u8>) {
    chrono::Local::now().to_rfc3339().into_bytes()
}

} // verus!
