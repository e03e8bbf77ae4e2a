//! IPC flags (register x1).
use vstd::prelude::*;

verus! {

/// Return `WOULD_BLOCK` at once where the call would otherwise block.
pub const NONBLOCK: u64 = 1;

} // verus!
