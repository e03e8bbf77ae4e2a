//! The boot information page, mapped read-only into the root task.
//!
//! A [`Header`] stands at the start of the page and `cap_count` entries of
//! [`CapDesc`] follow it. The contents are a snapshot taken before the root task
//! starts.
use vstd::prelude::*;

pub mod cap_kind;

verus! {

/// User address of the page.
pub const VA: u64 = 0x0F00_0000;

/// Version of the layout.
pub const VERSION: u64 = 1;

/// What stands at the start of the page.
#[derive(Clone, Copy, Debug, PartialEq, Eq, Structural)]
pub struct Header {
    pub version: u64,
    pub frame_size: u64,
    pub cap_count: u64,
}

/// Description of one capability slot.
///
/// The position in the array is the slot number. Only untyped capabilities show
/// their `base` and `size`; for every other kind both are 0.
#[derive(Clone, Copy, Debug, PartialEq, Eq, Structural)]
pub struct CapDesc {
    pub kind: u64,
    pub base: u64,
    pub size: u64,
}

} // verus!
