//! System call numbers (register x8).
//!
//! Arguments travel in x0 to x5 and the result comes back in x0; the receiving
//! IPC calls also return values in x1 to x5.
use vstd::prelude::*;

verus! {

/// Writes one byte to the debug console.
///
/// x0 = Console slot, x1 = byte. Printable ASCII and newline go out as they
/// are, every other byte is replaced by `?`.
pub const DEBUG_PUTC: u64 = 0;

/// Gives up the processor to the next ready task.
pub const YIELD: u64 = 1;

/// Ends the calling task, x0 = exit code.
pub const EXIT: u64 = 2;

/// Carves a kernel object out of an untyped capability.
///
/// x0 = untyped slot, x1 = object type. Returns the slot of the new capability.
pub const RETYPE: u64 = 3;

/// Maps a frame, or installs a page table, in an address space.
///
/// x0 = slot, x1 = user address, x2 = permission (frames only), x3 = slot of
/// the address space capability. The target is always the presented address
/// space, never the running one.
pub const MAP: u64 = 4;

/// Sets up the entry context of a retyped task control block.
///
/// x0 = slot, x1 = entry point (4-byte aligned), x2 = stack top (16-byte
/// aligned), x3 = address space slot. Allowed once, in the inactive state.
pub const TCB_CONFIGURE: u64 = 5;

/// Makes a configured task runnable, x0 = slot.
pub const TCB_RESUME: u64 = 6;

/// Sends a message to an endpoint.
///
/// x0 = endpoint slot, x1 = flags, x2 to x5 = message. Blocks while no receiver
/// waits.
pub const SEND: u64 = 7;

/// Receives a message from an endpoint, x0 = endpoint slot, x1 = flags.
///
/// Blocks while no sender waits. Returns x0 = 0, x1 = badge (always 0),
/// x2 to x5 = message.
pub const RECV: u64 = 8;

/// Sends a message and waits for the reply, in one step.
///
/// Arguments as for [`SEND`]. The reply comes back in x2 to x5. A caller whose
/// receiver ends, or loses the right to reply, gets the error `NO_REPLY`.
pub const CALL: u64 = 9;

/// Replies to the pending caller, then receives the next message.
///
/// Arguments and results as for [`RECV`]; x2 to x5 are first delivered to the
/// pending caller. With no pending caller the reply step is skipped.
pub const REPLY_RECV: u64 = 10;

} // verus!
