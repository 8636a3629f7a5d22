use vstd::prelude::*;

use std::time::Instant;

verus! {

/// The standard library's monotonic instant; nothing inside it is visible.
#[verifier::external_type_specification]
#[verifier::external_body]
pub struct InstantOfStd(std::time::Instant);

/// Reads the clock with `std::time::Instant::now`. The result depends on
/// the moment of the call, so nothing is stated of it.
#[verifier::external_body]
pub(crate) fn current_instant() -> (r: Instant) {
    Instant::now()
}

/// Compares two instants with `>=`, that is `PartialOrd::ge` of
/// `std::time::Instant`; nothing is stated of the result, which only says
/// whether the time budget is used up.
#[verifier::external_body]
pub(crate) fn instant_reached(now: &Instant, deadline: &Instant) -> (r: bool) {
    *now >= *deadline
}

/// Compares two instants with `>`, that is `PartialOrd::gt` of
/// `std::time::Instant`; nothing is stated of the result, which only says
/// whether the answer came too late.
#[verifier::external_body]
pub(crate) fn instant_passed(now: &Instant, deadline: &Instant) -> (r: bool) {
    *now > *deadline
}

} // verus!
