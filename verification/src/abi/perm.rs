//! Frame mapping permissions. No executable combination exists.
use vstd::prelude::*;

verus! {

/// Read only.
pub const RO: u64 = 0;

/// Read and write.
pub const RW: u64 = 1;

} // verus!
