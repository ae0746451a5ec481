//! AXI response encodings.

use vstd::prelude::*;

verus! {

/// Normal access success.
pub const OKAY: u64 = 0;

/// Exclusive access success.
pub const EXOKAY: u64 = 1;

/// Slave error.
pub const SLVERR: u64 = 2;

/// Decode error: nothing answers at the address.
pub const DECERR: u64 = 3;

} // verus!
