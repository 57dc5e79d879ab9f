//! Identifiers and timestamps, which come from the environment.
use chrono::Utc;
use uuid::Uuid;
use vstd::prelude::*;

verus! {

/// A point in time: seconds since the Unix epoch and the nanoseconds past that second.
#[derive(Clone, Copy, Debug, PartialEq, Eq)]
pub struct Timestamp {
    pub secs: i64,
    pub nanos: u32,
}

/// `chrono::Utc::now()`, taken apart into seconds and nanoseconds.
///
/// Trusted: the clock gives a different value at each call, so nothing is claimed of it.
#[verifier::external_body]
pub(crate) fn now() -> (r: Timestamp) {
    let t = Utc::now();
    Timestamp { secs: t.timestamp(), nanos: t.timestamp_subsec_nanos() }
}

/// `uuid::Uuid::new_v4()`, as its 128-bit value.
///
/// Trusted: the identifier is random, so nothing is claimed of it.
#[verifier::external_body]
pub(crate) fn new_id() -> (r: u128) {
    Uuid::new_v4().as_u128()
}

} // verus!
