//! System call error codes.
use vstd::prelude::*;

verus! {

/// The slot number is out of range.
pub const BAD_SLOT: i64 = -1;

/// The slot does not hold an untyped capability.
pub const NOT_UNTYPED: i64 = -2;

/// Not enough room is left in the untyped capability.
pub const EXHAUSTED: i64 = -3;

/// The capability node is full.
pub const OUT_OF_SLOTS: i64 = -4;

/// Unknown object type.
pub const BAD_TYPE: i64 = -5;

/// The virtual address breaks an alignment, range or null-guard rule.
pub const BAD_VA: i64 = -6;

/// Unknown permission value.
pub const BAD_PERM: i64 = -7;

/// The capability is mapped or installed already.
pub const ALREADY_MAPPED: i64 = -8;

/// An intermediate table on the path is missing.
pub const MISSING_TABLE: i64 = -9;

/// Something is mapped at the target already.
pub const OVERLAP: i64 = -10;

/// A kernel resource (such as the table pool) is exhausted.
pub const KERNEL_RESOURCE: i64 = -11;

/// The capability in the slot is of the wrong kind.
pub const BAD_CAP: i64 = -12;

/// The object is in a state that does not allow the operation.
pub const BAD_STATE: i64 = -13;

/// The partner is not ready and the request does not want to wait.
pub const WOULD_BLOCK: i64 = -14;

/// The receiver of a call ended, or lost the right to reply.
pub const NO_REPLY: i64 = -15;

} // verus!
