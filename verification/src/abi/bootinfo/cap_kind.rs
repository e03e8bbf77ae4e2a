//! Values of the `kind` field of a capability description.
use vstd::prelude::*;

verus! {

pub const EMPTY: u64 = 0;

pub const TCB: u64 = 1;

pub const ADDR_SPACE: u64 = 2;

pub const UNTYPED: u64 = 3;

pub const FRAME: u64 = 4;

pub const PAGE_TABLE: u64 = 5;

pub const ENDPOINT: u64 = 6;

pub const CONSOLE: u64 = 7;

} // verus!
