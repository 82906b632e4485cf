//! Sums and counts as answers: numbers of a fixed width, or none where the
//! number does not fit.

use vstd::prelude::*;

verus! {

/// A number as an answer of 32 bits: `None` where it does not fit.
pub open spec fn fits_u32(n: nat) -> Option<u32> {
    if n <= u32::MAX {
        Some(n as u32)
    } else {
        None
    }
}

/// A number as an answer of the machine's word size: `None` where it does
/// not fit.
pub open spec fn fits_usize(n: nat) -> Option<usize> {
    if n <= usize::MAX {
        Some(n as usize)
    } else {
        None
    }
}

/// A number of the machine's word size as an answer of 32 bits: `None`
/// where it does not fit.
pub fn to_u32(n: usize) -> (r: Option<u32>)
    ensures
        r == fits_u32(n as nat),
{
    if n <= u32::MAX as usize {
        Some(n as u32)
    } else {
        None
    }
}

} // verus!
