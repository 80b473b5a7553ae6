//! Rounding, as binary floating point does it.

use vstd::prelude::*;

verus! {

/// The integer nearest to `n / d`; the even one of two that are as near.
pub open spec fn rounded(n: int, d: int) -> int {
    let q = n / d;
    let twice = 2 * (n % d);
    if twice < d || (twice == d && q % 2 == 0) {
        q
    } else {
        q + 1
    }
}

/// One more than the largest integer of 53 bits.
pub const PRECISION: u128 = 0x20_0000_0000_0000;

} // verus!
