use vstd::prelude::*;

verus! {

/// Relies on chrono::Utc::now and DateTime::timestamp: the wall clock now, in
/// seconds since the Unix epoch. Nothing is assumed of the value.
#[verifier::external_body]
pub(crate) fn now_epoch() -> u64 {
    chrono::Utc::now().timestamp() as u64
}

} // verus!
