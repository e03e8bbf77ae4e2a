//! Object types that an untyped capability can be carved into.
use vstd::prelude::*;

verus! {

/// One frame that can be mapped into user space.
pub const FRAME: u64 = 1;

/// One intermediate page table of a user address space.
pub const PAGE_TABLE: u64 = 2;

/// A task control block.
pub const TCB: u64 = 3;

/// A synchronous IPC endpoint.
pub const ENDPOINT: u64 = 4;

} // verus!
