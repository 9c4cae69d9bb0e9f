//! Trusted interface to the `specialized_div_rem` crate, which supplies the
//! fast 128-bit division the encoder uses.

use vstd::prelude::*;

verus! {

/// Relies on `specialized_div_rem::u128_div_rem_delegate`: it computes the
/// quotient and remainder of `duo` divided by `div` and returns them as a
/// tuple. It panics when `div` is zero, so that case is ruled out here.
pub assume_specification[ specialized_div_rem::u128_div_rem_delegate ](
    duo: u128,
    div: u128,
) -> (r: (u128, u128))
    requires
        div != 0,
    ensures
        r.0 == duo / div,
        r.1 == duo % div,
;

} // verus!
