//! The session clock.

use vstd::prelude::*;

verus! {

/// Relies on chrono: `Local::now().date_naive()` rendered through
/// `NaiveDate`'s ISO 8601 text form (`YYYY-MM-DD` for years up to
/// 9999). The value depends on the machine's clock, so nothing is
/// promised of it; callers treat the text as opaque.
#[verifier::external_body]
pub fn get_date() -> String {
    chrono::Local::now().date_naive().to_string()
}

} // verus!
