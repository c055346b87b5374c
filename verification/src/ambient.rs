//! What the surroundings supply: fresh identifiers and the time of day.

use vstd::prelude::*;

verus! {

/// A new random identifier: the text of `uuid::Uuid::new_v4()`. Nothing is
/// claimed about it; two calls may return anything.
#[verifier::external_body]
pub(crate) fn fresh_id() -> (id: String) {
    uuid::Uuid::new_v4().to_string()
}

/// The current time in milliseconds since the Unix epoch, as
/// `chrono::Utc::now().timestamp_millis()` gives it. Nothing is claimed about it.
#[verifier::external_body]
pub(crate) fn now_millis() -> (millis: i64) {
    chrono::Utc::now().timestamp_millis()
}

} // verus!
