//! The message protocols that a segment's header can name.

use vstd::prelude::*;

verus! {

/// DEEP, version 1.0.
pub const DEEP_1_0: u16 = 0x8004;

} // verus!
