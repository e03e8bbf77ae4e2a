//! What the kernel writes to the console while it starts.
use vstd::prelude::*;
use vstd::string::*;

use crate::arch::earlycon::{self, EarlyCon};
use crate::arch::hardening::Hardening;
use crate::arch::irq::IrqError;
use crate::boot::fdt::{BootError, MemRegion};
use crate::cap::{CNode, Cap, CapError};
use crate::mm::paging::MmuError;
use crate::task::spawn::SpawnError;

verus! {

/// The name of an error.
pub open spec fn boot_error_text(e: BootError) -> &'static str {
    match e {
        BootError::NullPointer => "NullPointer",
        BootError::Misaligned => "Misaligned",
        BootError::BadMagic => "BadMagic",
        BootError::BadHeader => "BadHeader",
        BootError::UnsupportedVersion => "UnsupportedVersion",
        BootError::OverlapsKernel => "OverlapsKernel",
        BootError::Truncated => "Truncated",
        BootError::BadStructure => "BadStructure",
        BootError::TooDeep => "TooDeep",
        BootError::BadString => "BadString",
        BootError::UnsupportedCells => "UnsupportedCells",
        BootError::BadReg => "BadReg",
        BootError::TooManyRegions => "TooManyRegions",
        BootError::NoMemory => "NoMemory",
    }
}

/// The name of an error.
pub fn boot_error_name(e: BootError) -> (r: &'static str)
    ensures
        r == boot_error_text(e),
{
    match e {
        BootError::NullPointer => "NullPointer",
        BootError::Misaligned => "Misaligned",
        BootError::BadMagic => "BadMagic",
        BootError::BadHeader => "BadHeader",
        BootError::UnsupportedVersion => "UnsupportedVersion",
        BootError::OverlapsKernel => "OverlapsKernel",
        BootError::Truncated => "Truncated",
        BootError::BadStructure => "BadStructure",
        BootError::TooDeep => "TooDeep",
        BootError::BadString => "BadString",
        BootError::UnsupportedCells => "UnsupportedCells",
        BootError::BadReg => "BadReg",
        BootError::TooManyRegions => "TooManyRegions",
        BootError::NoMemory => "NoMemory",
    }
}

/// The name of an error.
pub open spec fn mmu_error_text(e: MmuError) -> &'static str {
    match e {
        MmuError::AlreadyEnabled => "AlreadyEnabled",
        MmuError::NotEnabled => "NotEnabled",
        MmuError::GranuleUnsupported => "GranuleUnsupported",
        MmuError::OutOfTables => "OutOfTables",
        MmuError::OutOfFrames => "OutOfFrames",
        MmuError::Misaligned => "Misaligned",
        MmuError::Overlap => "Overlap",
        MmuError::NullPage => "NullPage",
        MmuError::MissingTable => "MissingTable",
        MmuError::BadTable => "BadTable",
    }
}

/// The name of an error.
pub fn mmu_error_name(e: MmuError) -> (r: &'static str)
    ensures
        r == mmu_error_text(e),
{
    match e {
        MmuError::AlreadyEnabled => "AlreadyEnabled",
        MmuError::NotEnabled => "NotEnabled",
        MmuError::GranuleUnsupported => "GranuleUnsupported",
        MmuError::OutOfTables => "OutOfTables",
        MmuError::OutOfFrames => "OutOfFrames",
        MmuError::Misaligned => "Misaligned",
        MmuError::Overlap => "Overlap",
        MmuError::NullPage => "NullPage",
        MmuError::MissingTable => "MissingTable",
        MmuError::BadTable => "BadTable",
    }
}

/// The name of an error.
pub open spec fn cap_error_text(e: CapError) -> &'static str {
    match e {
        CapError::OutOfSlots => "OutOfSlots",
        CapError::BadRegion => "BadRegion",
    }
}

/// The name of an error.
pub fn cap_error_name(e: CapError) -> (r: &'static str)
    ensures
        r == cap_error_text(e),
{
    match e {
        CapError::OutOfSlots => "OutOfSlots",
        CapError::BadRegion => "BadRegion",
    }
}

/// The name of an error.
pub open spec fn irq_error_text(e: IrqError) -> &'static str {
    match e {
        IrqError::GicRwpTimeout => "GicRwpTimeout",
        IrqError::GicWakeTimeout => "GicWakeTimeout",
    }
}

/// The name of an error.
pub fn irq_error_name(e: IrqError) -> (r: &'static str)
    ensures
        r == irq_error_text(e),
{
    match e {
        IrqError::GicRwpTimeout => "GicRwpTimeout",
        IrqError::GicWakeTimeout => "GicWakeTimeout",
    }
}

/// A line that tells what failed, and why.
pub open spec fn failure_line(what: &str, why: &str) -> Seq<u8> {
    earlycon::text(what) + earlycon::text(why) + earlycon::text("\n")
}

/// Writes a line that tells what failed, and why.
pub fn say_failure(con: &mut EarlyCon, what: &str, why: &str)
    ensures
        final(con)@ == old(con)@ + failure_line(what, why),
        final(con).same_port(old(con)),
{
    con.put_str(what);
    con.put_str(why);
    con.put_str("\n");
    assert(con@ =~= old(con)@ + failure_line(what, why));
}

/// A line that tells why the root task could not be loaded.
pub open spec fn spawn_failure_line(e: SpawnError) -> Seq<u8> {
    match e {
        SpawnError::BadLayout => failure_line("k0: root task spawn failed: ", "BadLayout"),
        SpawnError::Mmu(e) => earlycon::text("k0: root task spawn failed: Mmu(") + earlycon::text(
            mmu_error_text(e),
        ) + earlycon::text(")\n"),
    }
}

/// Writes a line that tells why the root task could not be loaded.
pub fn say_spawn_failure(con: &mut EarlyCon, e: SpawnError)
    ensures
        final(con)@ == old(con)@ + spawn_failure_line(e),
        final(con).same_port(old(con)),
{
    match e {
        SpawnError::BadLayout => {
            say_failure(con, "k0: root task spawn failed: ", "BadLayout");
        },
        SpawnError::Mmu(e) => {
            con.put_str("k0: root task spawn failed: Mmu(");
            con.put_str(mmu_error_name(e));
            con.put_str(")\n");
        },
    }
    assert(con@ =~= old(con)@ + spawn_failure_line(e));
}

/// A line for a region.
pub open spec fn region_line(label: &str, base: u64, size: u64) -> Seq<u8> {
    earlycon::text(label) + earlycon::short_hex_sent(base) + earlycon::text(" + ")
        + earlycon::short_hex_sent(size) + earlycon::text("\n")
}

fn say_region(con: &mut EarlyCon, label: &str, base: u64, size: u64)
    ensures
        final(con)@ == old(con)@ + region_line(label, base, size),
        final(con).same_port(old(con)),
{
    con.put_str(label);
    con.put_short_hex(base);
    con.put_str(" + ");
    con.put_short_hex(size);
    con.put_str("\n");
    assert(con@ =~= old(con)@ + region_line(label, base, size));
}

/// A line for each region.
pub open spec fn region_lines(label: &str, regions: Seq<MemRegion>) -> Seq<u8>
    decreases regions.len(),
{
    if regions.len() == 0 {
        Seq::empty()
    } else {
        region_lines(label, regions.drop_last()) + region_line(
            label,
            regions.last().base,
            regions.last().size,
        )
    }
}

/// Writes a line for each region.
pub fn say_regions(con: &mut EarlyCon, label: &str, regions: &[MemRegion])
    ensures
        final(con)@ == old(con)@ + region_lines(label, regions@),
        final(con).same_port(old(con)),
{
    let mut i: usize = 0;
    assert(con@ =~= old(con)@ + region_lines(label, regions@.take(0)));
    while i < regions.len()
        invariant
            i <= regions.len(),
            con@ == old(con)@ + region_lines(label, regions@.take(i as int)),
            con.same_port(old(con)),
        decreases regions.len() - i,
    {
        say_region(con, label, regions[i].base, regions[i].size);
        i += 1;
        proof {
            let upto = regions@.take(i as int);
            assert(upto.drop_last() =~= regions@.take(i - 1));
            assert(con@ =~= old(con)@ + region_lines(label, upto));
        }
    }
    assert(regions@.take(regions@.len() as int) =~= regions@);
}

/// Two hexadecimal digits.
pub open spec fn byte_sent(b: u8) -> Seq<u8> {
    seq![earlycon::hex_digit((b / 16) as int), earlycon::hex_digit((b % 16) as int)]
}

fn digit(d: u8) -> (r: u8)
    requires
        d < 16,
    ensures
        r == earlycon::hex_digit(d as int),
{
    if d < 10 {
        0x30 + d
    } else {
        0x61 + (d - 10)
    }
}

fn put_hex_byte(con: &mut EarlyCon, b: u8)
    ensures
        final(con)@ == old(con)@ + byte_sent(b),
        final(con).same_port(old(con)),
{
    con.put_byte(digit(b / 16));
    con.put_byte(digit(b % 16));
    assert(con@ =~= old(con)@ + byte_sent(b));
}

/// The line for a root task whose integrity has been checked: its length and the start of
/// its hash.
pub open spec fn integrity_line(len: u64, hash: Seq<u8>) -> Seq<u8> {
    earlycon::text("k0: root task integrity ok (") + earlycon::dec_sent(len) + earlycon::text(
        " bytes, sha256 ",
    ) + byte_sent(hash[0]) + byte_sent(hash[1]) + byte_sent(hash[2]) + byte_sent(hash[3])
        + earlycon::text("..)\n")
}

/// Writes the line for a root task whose integrity has been checked.
pub fn say_integrity(con: &mut EarlyCon, len: usize, hash: &[u8; 32])
    ensures
        final(con)@ == old(con)@ + integrity_line(len as u64, hash@),
        final(con).same_port(old(con)),
{
    con.put_str("k0: root task integrity ok (");
    con.put_dec(len as u64);
    con.put_str(" bytes, sha256 ");
    put_hex_byte(con, hash[0]);
    put_hex_byte(con, hash[1]);
    put_hex_byte(con, hash[2]);
    put_hex_byte(con, hash[3]);
    con.put_str("..)\n");
    assert(con@ =~= old(con)@ + integrity_line(len as u64, hash@));
}

/// The lines for the entropy that the keys come from: its sources, and a warning where
/// there is nothing but the counter.
pub open spec fn entropy_lines(seed_len: u64, rndr: bool) -> Seq<u8> {
    earlycon::text("k0: entropy dtb=") + earlycon::dec_sent(seed_len) + earlycon::text("B rndr=")
        + (if rndr {
        earlycon::text("on")
    } else {
        earlycon::text("absent")
    }) + earlycon::text("\n") + (if seed_len == 0 && !rndr {
        earlycon::text("k0: WARNING pac key entropy low (cntpct only)\n")
    } else {
        Seq::empty()
    })
}

/// Writes the lines for the entropy that the keys come from.
pub fn say_entropy(con: &mut EarlyCon, seed_len: usize, rndr: bool)
    ensures
        final(con)@ == old(con)@ + entropy_lines(seed_len as u64, rndr),
        final(con).same_port(old(con)),
{
    con.put_str("k0: entropy dtb=");
    con.put_dec(seed_len as u64);
    con.put_str("B rndr=");
    con.put_str(
        if rndr {
            "on"
        } else {
            "absent"
        },
    );
    con.put_str("\n");
    if seed_len == 0 && !rndr {
        con.put_str("k0: WARNING pac key entropy low (cntpct only)\n");
    }
    assert(con@ =~= old(con)@ + entropy_lines(seed_len as u64, rndr));
}

/// Whether something is on.
pub open spec fn on_text(on: bool, there: &str) -> Seq<u8> {
    if on {
        earlycon::text(there)
    } else {
        earlycon::text("absent")
    }
}

/// The line for what the processor offers.
pub open spec fn hardening_line(h: Hardening) -> Seq<u8> {
    earlycon::text("k0: pac=") + on_text(h.pac, "on") + earlycon::text(" bti=") + on_text(
        h.bti,
        "present",
    ) + earlycon::text(" pan=") + on_text(h.pan, "on") + earlycon::text("\n")
}

fn put_on(con: &mut EarlyCon, on: bool, there: &str)
    ensures
        final(con)@ == old(con)@ + on_text(on, there),
        final(con).same_port(old(con)),
{
    if on {
        con.put_str(there);
    } else {
        con.put_str("absent");
    }
}

/// Writes the line for what the processor offers.
pub fn say_hardening(con: &mut EarlyCon, h: &Hardening)
    ensures
        final(con)@ == old(con)@ + hardening_line(*h),
        final(con).same_port(old(con)),
{
    con.put_str("k0: pac=");
    put_on(con, h.pac, "on");
    con.put_str(" bti=");
    put_on(con, h.bti, "present");
    con.put_str(" pan=");
    put_on(con, h.pan, "on");
    con.put_str("\n");
    assert(con@ =~= old(con)@ + hardening_line(*h));
}

/// The line for the arrival in the upper half.
pub open spec fn arrival_line(pc: u64) -> Seq<u8> {
    earlycon::text("k0: higher half (pc = ") + earlycon::short_hex_sent(pc) + earlycon::text(")\n")
}

/// Writes the line for the arrival in the upper half.
pub fn say_arrival(con: &mut EarlyCon, pc: u64)
    ensures
        final(con)@ == old(con)@ + arrival_line(pc),
        final(con).same_port(old(con)),
{
    con.put_str("k0: higher half (pc = ");
    con.put_short_hex(pc);
    con.put_str(")\n");
    assert(con@ =~= old(con)@ + arrival_line(pc));
}

/// Writes the line for a root task whose address space cannot be checked for want of code.
pub fn say_no_text(con: &mut EarlyCon)
    ensures
        final(con)@ == old(con)@ + failure_line("k0: user w^x check fail: ", "no text segment"),
        final(con).same_port(old(con)),
{
    say_failure(con, "k0: user w^x check fail: ", "no text segment");
}

/// Writes the line that comes before the root task runs.
pub fn say_entering(con: &mut EarlyCon)
    ensures
        final(con)@ == old(con)@ + earlycon::text("k0: entering root task (el0)\n"),
        final(con).same_port(old(con)),
{
    con.put_str("k0: entering root task (el0)\n");
}

/// The line for a root task that has been loaded.
pub open spec fn loaded_line(entry: u64, root: u64) -> Seq<u8> {
    earlycon::text("k0: root task loaded (entry ") + earlycon::short_hex_sent(entry)
        + earlycon::text(", ttbr0 ") + earlycon::short_hex_sent(root) + earlycon::text(")\n")
}

/// Writes the line for a root task that has been loaded.
pub fn say_loaded(con: &mut EarlyCon, entry: u64, root: u64)
    ensures
        final(con)@ == old(con)@ + loaded_line(entry, root),
        final(con).same_port(old(con)),
{
    con.put_str("k0: root task loaded (entry ");
    con.put_short_hex(entry);
    con.put_str(", ttbr0 ");
    con.put_short_hex(root);
    con.put_str(")\n");
    assert(con@ =~= old(con)@ + loaded_line(entry, root));
}

/// A line for each untyped capability.
pub open spec fn untyped_lines(caps: Seq<Cap>) -> Seq<u8>
    decreases caps.len(),
{
    if caps.len() == 0 {
        Seq::empty()
    } else {
        let before = untyped_lines(caps.drop_last());
        match caps.last() {
            Cap::Untyped { base, size, .. } => before + region_line("k0: untyped ", base, size),
            _ => before,
        }
    }
}

/// How many of the capabilities are untyped.
pub open spec fn untyped_count(caps: Seq<Cap>) -> nat
    decreases caps.len(),
{
    if caps.len() == 0 {
        0
    } else {
        untyped_count(caps.drop_last()) + if caps.last() is Untyped {
            1nat
        } else {
            0nat
        }
    }
}

/// The lines for the first capabilities.
pub open spec fn caps_lines(caps: Seq<Cap>) -> Seq<u8> {
    untyped_lines(caps) + earlycon::text("k0: root cnode ready (") + earlycon::dec_sent(
        caps.len() as u64,
    ) + earlycon::text(" caps, ") + earlycon::dec_sent(untyped_count(caps) as u64)
        + earlycon::text(" untyped)\n")
}

/// Writes the lines for the first capabilities.
pub fn say_caps(con: &mut EarlyCon, cnode: &CNode)
    requires
        cnode.wf(),
    ensures
        final(con)@ == old(con)@ + caps_lines(cnode@),
        final(con).same_port(old(con)),
{
    let slots = cnode.slots();
    let mut count: u64 = 0;
    let mut i: usize = 0;
    assert(con@ =~= old(con)@ + untyped_lines(slots@.take(0)));
    while i < slots.len()
        invariant
            i <= slots.len(),
            con@ == old(con)@ + untyped_lines(slots@.take(i as int)),
            con.same_port(old(con)),
            count == untyped_count(slots@.take(i as int)),
            count <= i,
        decreases slots.len() - i,
    {
        let ghost upto = slots@.take(i + 1);
        assert(upto.drop_last() =~= slots@.take(i as int));
        assert(upto.last() == slots@[i as int]);
        if let Cap::Untyped { base, size, .. } = slots[i] {
            count += 1;
            say_region(con, "k0: untyped ", base, size);
        }
        assert(con@ =~= old(con)@ + untyped_lines(upto));
        i += 1;
    }
    assert(slots@.take(slots@.len() as int) =~= slots@);
    say_count(con, slots.len() as u64, count);
    assert(con@ =~= old(con)@ + caps_lines(cnode@));
}

fn say_count(con: &mut EarlyCon, caps: u64, untyped: u64)
    ensures
        final(con)@ == old(con)@ + (earlycon::text("k0: root cnode ready (") + earlycon::dec_sent(
            caps,
        ) + earlycon::text(" caps, ") + earlycon::dec_sent(untyped) + earlycon::text(
            " untyped)\n",
        )),
        final(con).same_port(old(con)),
{
    con.put_str("k0: root cnode ready (");
    con.put_dec(caps);
    con.put_str(" caps, ");
    con.put_dec(untyped);
    con.put_str(" untyped)\n");
    assert(con@ =~= old(con)@ + (earlycon::text("k0: root cnode ready (") + earlycon::dec_sent(
        caps,
    ) + earlycon::text(" caps, ") + earlycon::dec_sent(untyped) + earlycon::text(" untyped)\n")));
}

} // verus!
