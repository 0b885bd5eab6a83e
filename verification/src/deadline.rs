//! The deadline of a search. The clock is that of `std::time`; nothing is stated of what it
//! shows.

use std::time::Instant;
use vstd::prelude::*;

verus! {

/// `std::time::Instant`, a moment of a clock that never runs back. Nothing is known of a
/// moment.
#[verifier::external_type_specification]
#[verifier::external_body]
pub struct ExInstant(Instant);

/// `Instant::now`: the present moment. Two calls may give different moments.
#[verifier::external_body]
pub(crate) fn instant_now() -> Instant {
    Instant::now()
}

/// `Instant::ge`: whether `now` is no earlier than `finish_by`.
#[verifier::external_body]
pub(crate) fn instant_reached(now: &Instant, finish_by: &Instant) -> bool {
    now >= finish_by
}

} // verus!
