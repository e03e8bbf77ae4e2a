//! Definitions shared between the kernel and user space.
//!
//! System call numbers, flags, error codes and the layout of the boot
//! information page. Nothing here depends on another module.
use vstd::prelude::*;

pub mod bootinfo;
pub mod err;
pub mod ipc;
pub mod obj;
pub mod perm;
pub mod syscall;

verus! {

/// Virtual address offset of the linear higher-half alias of physical memory.
///
/// The physical address `pa` is visible to the kernel at `pa + KERNEL_VA_OFFSET`
/// (48-bit virtual addresses, upper translation table).
pub const KERNEL_VA_OFFSET: u64 = 0xFFFF_0000_0000_0000;

} // verus!
