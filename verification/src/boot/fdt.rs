//! A small parser for flattened device trees.
//!
//! The device tree comes from the boot loader and is not trusted. All offsets and
//! lengths are checked, and nothing outside the blob is ever read. Of the contents only
//! these matter: the cell sizes of the root, the `reg` of memory nodes, the memory
//! reservations with the `reg` of the children of `/reserved-memory`, and the seeds in
//! `/chosen`. A reservation can only take memory away, so a false one gives no power.
use std::ops::Range;

use vstd::prelude::*;
use vstd::slice::slice_subrange;

use crate::bytes;

pub mod format;
pub mod laws;
pub mod meaning;

verus! {

/// Greatest number of memory regions.
pub const MAX_MEM_REGIONS: usize = 8;

/// Greatest number of reserved regions.
pub const MAX_RSV_REGIONS: usize = 8;

/// Greatest number of seed bytes.
pub const MAX_ENTROPY: usize = 72;

/// What a blob starts with.
pub const FDT_MAGIC: u32 = 0xd00d_feed;

/// Size of the header.
pub const HEADER_SIZE: u32 = 40;

/// Greatest size of a blob.
///
/// It bounds the tables that mapping the blob takes.
pub const MAX_DTB_SIZE: u32 = 0x20_0000;

/// Greatest depth of a node.
pub const MAX_DEPTH: u32 = 32;

/// The version of the format that is understood.
pub const SUPPORTED_VERSION: u32 = 17;

/// Token: a node begins.
pub const FDT_BEGIN_NODE: u32 = 1;

/// Token: a node ends.
pub const FDT_END_NODE: u32 = 2;

/// Token: a property.
pub const FDT_PROP: u32 = 3;

/// Token: nothing.
pub const FDT_NOP: u32 = 4;

/// Token: the end.
pub const FDT_END: u32 = 9;

/// A region of physical memory.
#[derive(Clone, Copy, Debug, PartialEq, Eq, Structural)]
pub struct MemRegion {
    pub base: u64,
    pub size: u64,
}

impl MemRegion {
    /// Whether the region is not empty and ends within the address range.
    pub open spec fn valid(self) -> bool {
        self.size != 0 && self.base + self.size <= u64::MAX
    }
}

/// Why a device tree was refused.
#[derive(Clone, Copy, Debug, PartialEq, Eq, Structural)]
pub enum BootError {
    NullPointer,
    Misaligned,
    BadMagic,
    BadHeader,
    UnsupportedVersion,
    OverlapsKernel,
    Truncated,
    BadStructure,
    TooDeep,
    BadString,
    UnsupportedCells,
    BadReg,
    TooManyRegions,
    NoMemory,
}

impl BootError {
    /// The number under which the error is reported before text can be written.
    pub fn code(self) -> (r: u64)
        ensures
            r == self.number(),
    {
        match self {
            BootError::NullPointer => 0,
            BootError::Misaligned => 1,
            BootError::BadMagic => 2,
            BootError::BadHeader => 3,
            BootError::UnsupportedVersion => 4,
            BootError::OverlapsKernel => 5,
            BootError::Truncated => 6,
            BootError::BadStructure => 7,
            BootError::TooDeep => 8,
            BootError::BadString => 9,
            BootError::UnsupportedCells => 10,
            BootError::BadReg => 11,
            BootError::TooManyRegions => 12,
            BootError::NoMemory => 13,
        }
    }

    /// The position of the error in the list of all errors.
    pub open spec fn number(self) -> int {
        match self {
            BootError::NullPointer => 0,
            BootError::Misaligned => 1,
            BootError::BadMagic => 2,
            BootError::BadHeader => 3,
            BootError::UnsupportedVersion => 4,
            BootError::OverlapsKernel => 5,
            BootError::Truncated => 6,
            BootError::BadStructure => 7,
            BootError::TooDeep => 8,
            BootError::BadString => 9,
            BootError::UnsupportedCells => 10,
            BootError::BadReg => 11,
            BootError::TooManyRegions => 12,
            BootError::NoMemory => 13,
        }
    }
}

/// What a device tree tells.
pub struct Found {
    pub memory: Seq<MemRegion>,
    pub reserved: Seq<MemRegion>,
    pub entropy: Seq<u8>,
}

impl Found {
    /// Nothing.
    pub open spec fn nothing() -> Found {
        Found { memory: Seq::empty(), reserved: Seq::empty(), entropy: Seq::empty() }
    }

    /// The limits that hold of whatever a device tree tells.
    pub open spec fn within_limits(self) -> bool {
        &&& self.memory.len() <= MAX_MEM_REGIONS
        &&& self.reserved.len() <= MAX_RSV_REGIONS
        &&& self.entropy.len() <= MAX_ENTROPY
        &&& forall|i: int| 0 <= i < self.memory.len() ==> (#[trigger] self.memory[i]).valid()
        &&& forall|i: int| 0 <= i < self.reserved.len() ==> (#[trigger] self.reserved[i]).valid()
    }
}

/// The result of parsing a device tree.
pub struct BootInfo {
    /// Where the blob lies.
    pub dtb: Range<usize>,
    pub regions: Vec<MemRegion>,
    pub rsv: Vec<MemRegion>,
    pub seed: Vec<u8>,
}

impl View for BootInfo {
    type V = Found;

    open spec fn view(&self) -> Found {
        Found { memory: self.regions@, reserved: self.rsv@, entropy: self.seed@ }
    }
}

impl BootInfo {
    /// The regions of physical memory.
    pub fn memory(&self) -> (r: &[MemRegion])
        ensures
            r@ == self@.memory,
    {
        self.regions.as_slice()
    }

    /// The regions that the boot loader or the firmware has reserved.
    ///
    /// They must stay out of the untyped capabilities and of the frame window.
    pub fn reserved(&self) -> (r: &[MemRegion])
        ensures
            r@ == self@.reserved,
    {
        self.rsv.as_slice()
    }

    /// The seeds, which may be empty.
    pub fn entropy(&self) -> (r: &[u8])
        ensures
            r@ == self@.entropy,
    {
        self.seed.as_slice()
    }
}

/// The number in the 4 bytes at `off`, or `Truncated` where the blob ends before.
pub open spec fn word(blob: Seq<u8>, off: int) -> Result<int, BootError> {
    if off + 4 <= blob.len() {
        Ok(bytes::be32_at(blob, off))
    } else {
        Err(BootError::Truncated)
    }
}

/// The first zero byte from `from` on, before `to`.
pub open spec fn zero_from(blob: Seq<u8>, from: int, to: int) -> Option<int>
    decreases to - from,
{
    if from >= to {
        None
    } else if blob[from] == 0 {
        Some(from)
    } else {
        zero_from(blob, from + 1, to)
    }
}

/// The first zero byte lies in the range, and no byte before it is zero.
pub proof fn lemma_zero_from(blob: Seq<u8>, from: int, to: int)
    ensures
        match zero_from(blob, from, to) {
            Some(end) => {
                &&& from <= end < to
                &&& blob[end] == 0
                &&& forall|i: int| from <= i < end ==> blob[i] != 0
            },
            None => forall|i: int| from <= i < to ==> blob[i] != 0,
        },
    decreases to - from,
{
    if from < to && blob[from] != 0 {
        lemma_zero_from(blob, from + 1, to);
    }
}

/// The next multiple of 4.
pub open spec fn up4(off: int) -> int {
    (off + 3) / 4 * 4
}

/// Adds a region to a list that holds at most `limit`. Empty regions are left out.
pub open spec fn with_region(list: Seq<MemRegion>, limit: int, base: int, size: int) -> Result<
    Seq<MemRegion>,
    BootError,
> {
    if size == 0 {
        Ok(list)
    } else if base + size > u64::MAX {
        Err(BootError::BadReg)
    } else if list.len() == limit {
        Err(BootError::TooManyRegions)
    } else {
        Ok(list.push(MemRegion { base: base as u64, size: size as u64 }))
    }
}

/// The number in one or two cells.
pub open spec fn cells(value: Seq<u8>, off: int, count: int) -> int {
    if count == 1 {
        bytes::be32_at(value, off)
    } else {
        bytes::be64_at(value, off)
    }
}

/// Adds the first `n` regions of a `reg` property to a list.
pub open spec fn with_regs(
    list: Seq<MemRegion>,
    limit: int,
    value: Seq<u8>,
    addr_cells: int,
    size_cells: int,
    n: nat,
) -> Result<Seq<MemRegion>, BootError>
    decreases n,
{
    if n == 0 {
        Ok(list)
    } else {
        let off = (n - 1) * ((addr_cells + size_cells) * 4);
        match with_regs(list, limit, value, addr_cells, size_cells, (n - 1) as nat) {
            Err(e) => Err(e),
            Ok(before) => with_region(
                before,
                limit,
                cells(value, off, addr_cells),
                cells(value, off + addr_cells * 4, size_cells),
            ),
        }
    }
}

/// Adds the regions of a `reg` property to a list.
pub open spec fn with_reg(
    list: Seq<MemRegion>,
    limit: int,
    value: Seq<u8>,
    addr_cells: int,
    size_cells: int,
) -> Result<Seq<MemRegion>, BootError> {
    let entry = (addr_cells + size_cells) * 4;
    if !(1 <= addr_cells <= 2 && 1 <= size_cells <= 2) {
        Err(BootError::UnsupportedCells)
    } else if value.len() == 0 || value.len() as int % entry != 0 {
        Err(BootError::BadReg)
    } else {
        with_regs(
            list,
            limit,
            value,
            addr_cells,
            size_cells,
            (value.len() as int / entry) as nat,
        )
    }
}

/// The list that adding the first `n` regions of a `reg` property leaves: it ends before
/// the first region that cannot be added.
pub open spec fn kept_regs(
    list: Seq<MemRegion>,
    limit: int,
    value: Seq<u8>,
    addr_cells: int,
    size_cells: int,
    n: nat,
) -> Seq<MemRegion>
    decreases n,
{
    match with_regs(list, limit, value, addr_cells, size_cells, n) {
        Ok(all) => all,
        Err(_) => if n == 0 {
            list
        } else {
            kept_regs(list, limit, value, addr_cells, size_cells, (n - 1) as nat)
        },
    }
}

/// The list that adding the regions of a `reg` property leaves. It stays as it is where
/// the cell sizes or the length are refused.
pub open spec fn kept_reg(
    list: Seq<MemRegion>,
    limit: int,
    value: Seq<u8>,
    addr_cells: int,
    size_cells: int,
) -> Seq<MemRegion> {
    let entry = (addr_cells + size_cells) * 4;
    if !(1 <= addr_cells <= 2 && 1 <= size_cells <= 2) || value.len() == 0 || value.len() as int
        % entry != 0 {
        list
    } else {
        kept_regs(
            list,
            limit,
            value,
            addr_cells,
            size_cells,
            (value.len() as int / entry) as nat,
        )
    }
}

/// The memory reservations from `off` on: pairs of address and size, up to a pair of
/// zeros.
pub open spec fn reservations(blob: Seq<u8>, off: int, list: Seq<MemRegion>) -> Result<
    Seq<MemRegion>,
    BootError,
>
    decreases blob.len() - off,
{
    if off + 16 > blob.len() {
        Err(BootError::Truncated)
    } else {
        let base = bytes::be64_at(blob, off);
        let size = bytes::be64_at(blob, off + 8);
        if base == 0 && size == 0 {
            Ok(list)
        } else {
            match with_region(list, MAX_RSV_REGIONS as int, base, size) {
                Err(e) => Err(e),
                Ok(more) => reservations(blob, off + 16, more),
            }
        }
    }
}

/// What stands in the header, as far as it matters.
pub struct Layout {
    pub struct_start: int,
    pub struct_end: int,
    pub strings_start: int,
    pub strings_end: int,
    pub reservations: int,
}

/// The layout that the header of a blob gives, or why it is refused.
pub open spec fn layout(blob: Seq<u8>) -> Result<Layout, BootError> {
    if blob.len() < HEADER_SIZE {
        Err(BootError::Truncated)
    } else {
        let struct_start = bytes::be32_at(blob, 8);
        let strings_start = bytes::be32_at(blob, 12);
        let reservations = bytes::be32_at(blob, 16);
        let version = bytes::be32_at(blob, 20);
        let last_comp_version = bytes::be32_at(blob, 24);
        let strings_end = strings_start + bytes::be32_at(blob, 32);
        let struct_size = bytes::be32_at(blob, 36);
        let struct_end = struct_start + struct_size;
        if version < SUPPORTED_VERSION || last_comp_version > SUPPORTED_VERSION {
            Err(BootError::UnsupportedVersion)
        } else if struct_start % 4 != 0 || struct_size % 4 != 0 || struct_end > blob.len()
            || strings_end > blob.len() || reservations % 8 != 0 {
            Err(BootError::BadHeader)
        } else {
            Ok(Layout { struct_start, struct_end, strings_start, strings_end, reservations })
        }
    }
}

/// The part of the tree that the walk is in.
#[derive(Clone, Copy, Debug, PartialEq, Eq, Structural)]
pub enum Section {
    /// A memory node right below the root.
    Memory,
    /// `/chosen`.
    Chosen,
    /// `/reserved-memory`.
    Reserved,
    /// Anywhere else.
    Other,
}

/// Where the walk through the tree stands and what it has found.
pub struct Walk {
    pub depth: int,
    pub section: Section,
    /// Cell sizes of the root.
    pub addr_cells: int,
    pub size_cells: int,
    /// Cell sizes of `/reserved-memory`.
    pub rsv_addr_cells: int,
    pub rsv_size_cells: int,
    pub found: Found,
}

/// The name `memory`.
pub open spec fn memory_name() -> Seq<u8> {
    seq![0x6D, 0x65, 0x6D, 0x6F, 0x72, 0x79]
}

/// The start of a name `memory@...`.
pub open spec fn memory_at() -> Seq<u8> {
    seq![0x6D, 0x65, 0x6D, 0x6F, 0x72, 0x79, 0x40]
}

/// The name `chosen`.
pub open spec fn chosen_name() -> Seq<u8> {
    seq![0x63, 0x68, 0x6F, 0x73, 0x65, 0x6E]
}

/// The name `reserved-memory`.
pub open spec fn reserved_name() -> Seq<u8> {
    seq![
        0x72,
        0x65,
        0x73,
        0x65,
        0x72,
        0x76,
        0x65,
        0x64,
        0x2D,
        0x6D,
        0x65,
        0x6D,
        0x6F,
        0x72,
        0x79,
    ]
}

/// The name `#address-cells`.
pub open spec fn address_cells_name() -> Seq<u8> {
    seq![0x23, 0x61, 0x64, 0x64, 0x72, 0x65, 0x73, 0x73, 0x2D, 0x63, 0x65, 0x6C, 0x6C, 0x73]
}

/// The name `#size-cells`.
pub open spec fn size_cells_name() -> Seq<u8> {
    seq![0x23, 0x73, 0x69, 0x7A, 0x65, 0x2D, 0x63, 0x65, 0x6C, 0x6C, 0x73]
}

/// The name `reg`.
pub open spec fn reg_name() -> Seq<u8> {
    seq![0x72, 0x65, 0x67]
}

/// The name `rng-seed`.
pub open spec fn rng_seed_name() -> Seq<u8> {
    seq![0x72, 0x6E, 0x67, 0x2D, 0x73, 0x65, 0x65, 0x64]
}

/// The name `kaslr-seed`.
pub open spec fn kaslr_seed_name() -> Seq<u8> {
    seq![0x6B, 0x61, 0x73, 0x6C, 0x72, 0x2D, 0x73, 0x65, 0x65, 0x64]
}

/// The section that a node right below the root opens.
pub open spec fn section_of(name: Seq<u8>) -> Section {
    if name == memory_name() || (name.len() >= 7 && name.take(7) == memory_at()) {
        Section::Memory
    } else if name == chosen_name() {
        Section::Chosen
    } else if name == reserved_name() {
        Section::Reserved
    } else {
        Section::Other
    }
}

impl Walk {
    /// The start of the walk. Without other word, addresses take two cells and sizes
    /// one.
    pub open spec fn start(reserved: Seq<MemRegion>) -> Walk {
        Walk {
            depth: 0,
            section: Section::Other,
            addr_cells: 2,
            size_cells: 1,
            rsv_addr_cells: 2,
            rsv_size_cells: 1,
            found: Found { reserved, ..Found::nothing() },
        }
    }

    /// The walk after it has entered a node. The root must not have a name.
    #[verifier::opaque]
    pub open spec fn entered(self, name: Seq<u8>) -> Result<Walk, BootError> {
        let depth = self.depth + 1;
        if depth == 1 && name.len() != 0 {
            Err(BootError::BadStructure)
        } else if depth == 2 {
            let section = section_of(name);
            if section == Section::Reserved {
                Ok(
                    Walk {
                        depth,
                        section,
                        rsv_addr_cells: self.addr_cells,
                        rsv_size_cells: self.size_cells,
                        ..self
                    },
                )
            } else {
                Ok(Walk { depth, section, ..self })
            }
        } else {
            Ok(Walk { depth, ..self })
        }
    }

    /// The walk after it has left a node.
    pub open spec fn left(self) -> Walk {
        let section = if self.depth == 2 {
            Section::Other
        } else {
            self.section
        };
        Walk { depth: self.depth - 1, section, ..self }
    }

    /// The walk after it has come across a property.
    #[verifier::opaque]
    pub open spec fn saw(self, name: Seq<u8>, value: Seq<u8>) -> Result<Walk, BootError> {
        if self.depth == 1 {
            if name == address_cells_name() {
                match cell_count_of(value) {
                    Err(e) => Err(e),
                    Ok(n) => Ok(Walk { addr_cells: n, ..self }),
                }
            } else if name == size_cells_name() {
                match cell_count_of(value) {
                    Err(e) => Err(e),
                    Ok(n) => Ok(Walk { size_cells: n, ..self }),
                }
            } else {
                Ok(self)
            }
        } else if self.section == Section::Memory && self.depth == 2 && name == reg_name() {
            match with_reg(
                self.found.memory,
                MAX_MEM_REGIONS as int,
                value,
                self.addr_cells,
                self.size_cells,
            ) {
                Err(e) => Err(e),
                Ok(memory) => Ok(Walk { found: Found { memory, ..self.found }, ..self }),
            }
        } else if self.section == Section::Reserved && self.depth == 2 {
            if name == address_cells_name() {
                match cell_count_of(value) {
                    Err(e) => Err(e),
                    Ok(n) => Ok(Walk { rsv_addr_cells: n, ..self }),
                }
            } else if name == size_cells_name() {
                match cell_count_of(value) {
                    Err(e) => Err(e),
                    Ok(n) => Ok(Walk { rsv_size_cells: n, ..self }),
                }
            } else {
                Ok(self)
            }
        } else if self.section == Section::Reserved && self.depth == 3 && name == reg_name() {
            match with_reg(
                self.found.reserved,
                MAX_RSV_REGIONS as int,
                value,
                self.rsv_addr_cells,
                self.rsv_size_cells,
            ) {
                Err(e) => Err(e),
                Ok(reserved) => Ok(Walk { found: Found { reserved, ..self.found }, ..self }),
            }
        } else if self.section == Section::Chosen && self.depth == 2 && (name == rng_seed_name()
            || name == kaslr_seed_name()) {
            Ok(
                Walk {
                    found: Found {
                        entropy: with_seed(self.found.entropy, value),
                        ..self.found
                    },
                    ..self
                },
            )
        } else {
            Ok(self)
        }
    }
}

/// The number in a cell count property.
pub open spec fn cell_count_of(value: Seq<u8>) -> Result<int, BootError> {
    if value.len() != 4 {
        Err(BootError::UnsupportedCells)
    } else {
        Ok(bytes::be32_at(value, 0))
    }
}

/// The seed bytes with more added, up to the limit.
pub open spec fn with_seed(seed: Seq<u8>, value: Seq<u8>) -> Seq<u8> {
    let room = MAX_ENTROPY - seed.len();
    if value.len() <= room {
        seed + value
    } else {
        seed + value.take(room)
    }
}

/// What one token does to the walk.
pub enum Step {
    /// The blob is refused.
    Fail(BootError),
    /// The tree is complete.
    Done(Found),
    /// The walk goes on at an offset.
    More(int, Walk),
}

/// What the token at `off` does to the walk.
#[verifier::opaque]
pub open spec fn step(blob: Seq<u8>, l: Layout, off: int, w: Walk) -> Step {
    if off >= l.struct_end {
        Step::Fail(BootError::BadStructure)
    } else {
        match word(blob, off) {
            Err(e) => Step::Fail(e),
            Ok(token) => if token == FDT_BEGIN_NODE {
                if w.depth + 1 > MAX_DEPTH {
                    Step::Fail(BootError::TooDeep)
                } else {
                    match zero_from(blob, off + 4, l.struct_end) {
                        None => Step::Fail(BootError::BadStructure),
                        Some(end) => match w.entered(blob.subrange(off + 4, end)) {
                            Err(e) => Step::Fail(e),
                            Ok(next) => Step::More(up4(end + 1), next),
                        },
                    }
                }
            } else if token == FDT_END_NODE {
                if w.depth == 0 {
                    Step::Fail(BootError::BadStructure)
                } else {
                    Step::More(off + 4, w.left())
                }
            } else if token == FDT_PROP {
                if w.depth == 0 {
                    Step::Fail(BootError::BadStructure)
                } else {
                    match property(blob, l, off + 4) {
                        Err(e) => Step::Fail(e),
                        Ok((name, value)) => match w.saw(name, value) {
                            Err(e) => Step::Fail(e),
                            Ok(next) => Step::More(up4(off + 12 + value.len()), next),
                        },
                    }
                }
            } else if token == FDT_NOP {
                Step::More(off + 4, w)
            } else if token == FDT_END && w.depth == 0 {
                Step::Done(w.found)
            } else {
                Step::Fail(BootError::BadStructure)
            },
        }
    }
}

/// A step that goes on goes forward.
pub proof fn lemma_step_forward(blob: Seq<u8>, l: Layout, off: int, w: Walk)
    ensures
        step(blob, l, off, w) matches Step::More(next, _) ==> off < next && off < l.struct_end,
{
    reveal(step);
    lemma_zero_from(blob, off + 4, l.struct_end);
}

/// What the walk finds from `off` on.
pub open spec fn walked(blob: Seq<u8>, l: Layout, off: int, w: Walk) -> Result<Found, BootError>
    decreases
            (if off >= l.struct_end {
                0
            } else {
                l.struct_end - off
            }),
{
    match step(blob, l, off, w) {
        Step::Fail(e) => Err(e),
        Step::Done(found) => Ok(found),
        Step::More(next, more) => {
            proof {
                lemma_step_forward(blob, l, off, w);
            }
            walked(blob, l, next, more)
        },
    }
}

/// The name and value of the property at `off`: its length, the offset of its name
/// among the strings, and its value.
pub open spec fn property(blob: Seq<u8>, l: Layout, off: int) -> Result<
    (Seq<u8>, Seq<u8>),
    BootError,
> {
    match word(blob, off) {
        Err(e) => Err(e),
        Ok(len) => match word(blob, off + 4) {
            Err(e) => Err(e),
            Ok(name_off) => if off + 8 + len > l.struct_end {
                Err(BootError::Truncated)
            } else {
                match name_at(blob, l, name_off) {
                    Err(e) => Err(e),
                    Ok(name) => Ok((name, blob.subrange(off + 8, off + 8 + len))),
                }
            },
        },
    }
}

/// The name at an offset among the strings, up to its zero byte.
pub open spec fn name_at(blob: Seq<u8>, l: Layout, name_off: int) -> Result<Seq<u8>, BootError> {
    let start = l.strings_start + name_off;
    if start >= l.strings_end {
        Err(BootError::BadString)
    } else {
        match zero_from(blob, start, l.strings_end) {
            None => Err(BootError::BadString),
            Some(end) => Ok(blob.subrange(start, end)),
        }
    }
}

/// What a blob tells, or why it is refused.
pub open spec fn parsed(blob: Seq<u8>) -> Result<Found, BootError> {
    match layout(blob) {
        Err(e) => Err(e),
        Ok(l) => match reservations(blob, l.reservations, Seq::empty()) {
            Err(e) => Err(e),
            Ok(reserved) => match walked(blob, l, l.struct_start, Walk::start(reserved)) {
                Err(e) => Err(e),
                Ok(found) => if found.memory.len() == 0 {
                    Err(BootError::NoMemory)
                } else {
                    Ok(found)
                },
            },
        },
    }
}

/// Whether two byte strings are the same.
fn same(a: &[u8], b: &[u8]) -> (r: bool)
    ensures
        r == (a@ == b@),
{
    if a.len() != b.len() {
        return false;
    }
    let mut i: usize = 0;
    while i < a.len()
        invariant
            i <= a.len(),
            a.len() == b.len(),
            forall|j: int| 0 <= j < i ==> a@[j] == b@[j],
        decreases a.len() - i,
    {
        if a[i] != b[i] {
            assert(a@[i as int] != b@[i as int]);
            return false;
        }
        i += 1;
    }
    assert(a@ =~= b@);
    true
}

/// The number in the 4 bytes at `off`.
fn be32(blob: &[u8], off: usize) -> (r: Result<u32, BootError>)
    ensures
        match r {
            Ok(v) => word(blob@, off as int) == Ok::<int, BootError>(v as int),
            Err(e) => word(blob@, off as int) == Err::<int, BootError>(e),
        },
{
    if blob.len() >= 4 && off <= blob.len() - 4 {
        Ok(bytes::be32(blob, off))
    } else {
        Err(BootError::Truncated)
    }
}

/// The first zero byte from `from` on, before `to`.
fn find_zero(blob: &[u8], from: usize, to: usize) -> (r: Option<usize>)
    requires
        to <= blob.len(),
    ensures
        match r {
            Some(end) => zero_from(blob@, from as int, to as int) == Some(end as int) && from <= end
                < to,
            None => zero_from(blob@, from as int, to as int) is None,
        },
{
    let mut i = from;
    while i < to
        invariant
            from <= i,
            to <= blob.len(),
            zero_from(blob@, from as int, to as int) == zero_from(blob@, i as int, to as int),
        decreases to - i,
    {
        if blob[i] == 0 {
            return Some(i);
        }
        i += 1;
    }
    None
}

/// The name at an offset among the strings.
fn prop_name<'a>(
    blob: &'a [u8],
    strings_start: usize,
    strings_end: usize,
    name_off: u32,
    Ghost(l): Ghost<Layout>,
) -> (r: Result<&'a [u8], BootError>)
    requires
        strings_end <= blob.len(),
        l.strings_start == strings_start,
        l.strings_end == strings_end,
    ensures
        match r {
            Ok(name) => name_at(blob@, l, name_off as int) == Ok::<Seq<u8>, BootError>(name@),
            Err(e) => name_at(blob@, l, name_off as int) == Err::<Seq<u8>, BootError>(e),
        },
{
    if strings_start >= strings_end || name_off as u64 >= (strings_end - strings_start) as u64 {
        return Err(BootError::BadString);
    }
    let start = strings_start + name_off as usize;
    match find_zero(blob, start, strings_end) {
        Some(end) => Ok(slice_subrange(blob, start, end)),
        None => Err(BootError::BadString),
    }
}

/// The number in a cell count property.
fn cell_count(value: &[u8]) -> (r: Result<u32, BootError>)
    ensures
        match r {
            Ok(n) => cell_count_of(value@) == Ok::<int, BootError>(n as int),
            Err(e) => cell_count_of(value@) == Err::<int, BootError>(e),
        },
{
    if value.len() != 4 {
        return Err(BootError::UnsupportedCells);
    }
    Ok(bytes::be32(value, 0))
}

/// The number in one or two cells.
fn read_cells(value: &[u8], off: usize, count: u32) -> (r: u64)
    requires
        count == 1 || count == 2,
        off + count * 4 <= value.len(),
    ensures
        r == cells(value@, off as int, count as int),
{
    if count == 1 {
        bytes::be32(value, off) as u64
    } else {
        bytes::be64(value, off)
    }
}

/// Adds a region to a list that holds at most `limit`.
fn push_region(list: &mut Vec<MemRegion>, limit: usize, base: u64, size: u64) -> (r: Result<
    (),
    BootError,
>)
    requires
        old(list).len() <= limit,
        forall|i: int| 0 <= i < old(list).len() ==> (#[trigger] old(list)@[i]).valid(),
    ensures
        final(list).len() <= limit,
        forall|i: int| 0 <= i < final(list).len() ==> (#[trigger] final(list)@[i]).valid(),
        match r {
            Ok(_) => with_region(old(list)@, limit as int, base as int, size as int) == Ok::<
                Seq<MemRegion>,
                BootError,
            >(final(list)@),
            Err(e) => with_region(old(list)@, limit as int, base as int, size as int) == Err::<
                Seq<MemRegion>,
                BootError,
            >(e) && final(list)@ == old(list)@,
        },
{
    if size == 0 {
        return Ok(());
    }
    if base.checked_add(size).is_none() {
        return Err(BootError::BadReg);
    }
    if list.len() == limit {
        return Err(BootError::TooManyRegions);
    }
    list.push(MemRegion { base, size });
    Ok(())
}

/// A region that cannot be added ends the list.
proof fn lemma_regs_error(
    list: Seq<MemRegion>,
    limit: int,
    value: Seq<u8>,
    addr_cells: int,
    size_cells: int,
    k: nat,
    n: nat,
)
    requires
        k <= n,
        with_regs(list, limit, value, addr_cells, size_cells, k) is Err,
    ensures
        with_regs(list, limit, value, addr_cells, size_cells, n) == with_regs(
            list,
            limit,
            value,
            addr_cells,
            size_cells,
            k,
        ),
        kept_regs(list, limit, value, addr_cells, size_cells, n) == kept_regs(
            list,
            limit,
            value,
            addr_cells,
            size_cells,
            k,
        ),
    decreases n - k,
{
    if k < n {
        lemma_regs_error(list, limit, value, addr_cells, size_cells, k, (n - 1) as nat);
    }
}

/// Adds the regions of a `reg` property to a list.
fn parse_reg(
    list: &mut Vec<MemRegion>,
    limit: usize,
    value: &[u8],
    addr_cells: u32,
    size_cells: u32,
) -> (r: Result<(), BootError>)
    requires
        old(list).len() <= limit,
        forall|i: int| 0 <= i < old(list).len() ==> (#[trigger] old(list)@[i]).valid(),
    ensures
        final(list).len() <= limit,
        forall|i: int| 0 <= i < final(list).len() ==> (#[trigger] final(list)@[i]).valid(),
        match r {
            Ok(_) => with_reg(
                old(list)@,
                limit as int,
                value@,
                addr_cells as int,
                size_cells as int,
            ) == Ok::<Seq<MemRegion>, BootError>(final(list)@),
            Err(e) => {
                &&& with_reg(
                    old(list)@,
                    limit as int,
                    value@,
                    addr_cells as int,
                    size_cells as int,
                ) == Err::<Seq<MemRegion>, BootError>(e)
                &&& final(list)@ == kept_reg(
                    old(list)@,
                    limit as int,
                    value@,
                    addr_cells as int,
                    size_cells as int,
                )
            },
        },
{
    if !(1 <= addr_cells && addr_cells <= 2 && 1 <= size_cells && size_cells <= 2) {
        return Err(BootError::UnsupportedCells);
    }
    let entry = ((addr_cells + size_cells) * 4) as usize;
    if value.len() == 0 || value.len() % entry != 0 {
        return Err(BootError::BadReg);
    }
    let n = value.len() / entry;
    let ghost before = list@;
    let mut k: usize = 0;
    while k < n
        invariant
            k <= n,
            1 <= addr_cells <= 2,
            1 <= size_cells <= 2,
            entry == (addr_cells + size_cells) * 4,
            n == value.len() / entry,
            list.len() <= limit,
            forall|i: int| 0 <= i < list.len() ==> (#[trigger] list@[i]).valid(),
            with_regs(
                before,
                limit as int,
                value@,
                addr_cells as int,
                size_cells as int,
                k as nat,
            ) == Ok::<Seq<MemRegion>, BootError>(list@),
            before == old(list)@,
            value.len() > 0,
            value.len() as int % (entry as int) == 0,
        decreases n - k,
    {
        proof {
            vstd::arithmetic::div_mod::lemma_fundamental_div_mod(value.len() as int, entry as int);
            assert(0 <= k * entry && k * entry + entry <= entry * n) by (nonlinear_arith)
                requires
                    0 <= k < n,
                    entry > 0,
            ;
        }
        let off = k * entry;
        let base = read_cells(value, off, addr_cells);
        let size = read_cells(value, off + (addr_cells * 4) as usize, size_cells);
        match push_region(list, limit, base, size) {
            Ok(_) => {},
            Err(e) => {
                proof {
                    lemma_regs_error(
                        before,
                        limit as int,
                        value@,
                        addr_cells as int,
                        size_cells as int,
                        (k + 1) as nat,
                        n as nat,
                    );
                    assert(kept_regs(
                        before,
                        limit as int,
                        value@,
                        addr_cells as int,
                        size_cells as int,
                        k as nat,
                    ) == list@);
                }
                return Err(e);
            },
        }
        k += 1;
    }
    Ok(())
}

/// Adds seed bytes, up to the limit.
fn push_entropy(seed: &mut Vec<u8>, value: &[u8])
    requires
        old(seed).len() <= MAX_ENTROPY,
    ensures
        final(seed)@ == with_seed(old(seed)@, value@),
        final(seed).len() <= MAX_ENTROPY,
{
    let room = MAX_ENTROPY - seed.len();
    let n = if value.len() < room {
        value.len()
    } else {
        room
    };
    let mut i: usize = 0;
    assert(seed@ =~= old(seed)@ + value@.take(0));
    while i < n
        invariant
            i <= n,
            n <= value.len(),
            seed@ == old(seed)@ + value@.take(i as int),
        decreases n - i,
    {
        seed.push(value[i]);
        i += 1;
        assert(seed@ =~= old(seed)@ + value@.take(i as int));
    }
    assert(value@.take(value@.len() as int) =~= value@);
}

/// Where the walk through the tree stands and what it has found.
struct Walker {
    depth: u32,
    section: Section,
    addr_cells: u32,
    size_cells: u32,
    rsv_addr_cells: u32,
    rsv_size_cells: u32,
    memory: Vec<MemRegion>,
    reserved: Vec<MemRegion>,
    seed: Vec<u8>,
}

impl Walker {
    spec fn view(&self) -> Walk {
        Walk {
            depth: self.depth as int,
            section: self.section,
            addr_cells: self.addr_cells as int,
            size_cells: self.size_cells as int,
            rsv_addr_cells: self.rsv_addr_cells as int,
            rsv_size_cells: self.rsv_size_cells as int,
            found: Found {
                memory: self.memory@,
                reserved: self.reserved@,
                entropy: self.seed@,
            },
        }
    }

    fn enter(&mut self, name: &[u8]) -> (r: Result<(), BootError>)
        requires
            old(self).depth < MAX_DEPTH,
            old(self)@.found.within_limits(),
        ensures
            final(self).depth == old(self).depth + 1,
            match r {
                Ok(_) => {
                    &&& old(self)@.entered(name@) == Ok::<Walk, BootError>(final(self)@)
                    &&& final(self)@.found.within_limits()
                },
                Err(e) => old(self)@.entered(name@) == Err::<Walk, BootError>(e),
            },
    {
        proof {
            reveal(Walk::entered);
        }
        self.depth = self.depth + 1;
        if self.depth == 1 && name.len() != 0 {
            return Err(BootError::BadStructure);
        }
        if self.depth == 2 {
            self.section = section(name);
            if self.section == Section::Reserved {
                self.rsv_addr_cells = self.addr_cells;
                self.rsv_size_cells = self.size_cells;
            }
        }
        Ok(())
    }

    fn see(&mut self, name: &[u8], value: &[u8]) -> (r: Result<(), BootError>)
        requires
            old(self)@.found.within_limits(),
        ensures
            final(self).depth == old(self).depth,
            match r {
                Ok(_) => {
                    &&& old(self)@.saw(name@, value@) == Ok::<Walk, BootError>(final(self)@)
                    &&& final(self)@.found.within_limits()
                },
                Err(e) => old(self)@.saw(name@, value@) == Err::<Walk, BootError>(e),
            },
    {
        proof {
            reveal(Walk::saw);
        }
        let is_addr = is_address_cells(name);
        let is_size = is_size_cells(name);
        let is_reg = is_reg(name);
        if self.depth == 1 {
            if is_addr {
                self.addr_cells = cell_count(value)?;
            } else if is_size {
                self.size_cells = cell_count(value)?;
            }
        } else if self.section == Section::Memory && self.depth == 2 && is_reg {
            parse_reg(
                &mut self.memory,
                MAX_MEM_REGIONS,
                value,
                self.addr_cells,
                self.size_cells,
            )?;
        } else if self.section == Section::Reserved && self.depth == 2 {
            if is_addr {
                self.rsv_addr_cells = cell_count(value)?;
            } else if is_size {
                self.rsv_size_cells = cell_count(value)?;
            }
        } else if self.section == Section::Reserved && self.depth == 3 && is_reg {
            parse_reg(
                &mut self.reserved,
                MAX_RSV_REGIONS,
                value,
                self.rsv_addr_cells,
                self.rsv_size_cells,
            )?;
        } else if self.section == Section::Chosen && self.depth == 2 && is_seed(name) {
            push_entropy(&mut self.seed, value);
        }
        Ok(())
    }
}

/// The section that a node right below the root opens.
fn section(name: &[u8]) -> (r: Section)
    ensures
        r == section_of(name@),
{
    let memory: [u8; 6] = [0x6D, 0x65, 0x6D, 0x6F, 0x72, 0x79];
    let memory_at_: [u8; 7] = [0x6D, 0x65, 0x6D, 0x6F, 0x72, 0x79, 0x40];
    let chosen: [u8; 6] = [0x63, 0x68, 0x6F, 0x73, 0x65, 0x6E];
    let reserved: [u8; 15] = [
        0x72,
        0x65,
        0x73,
        0x65,
        0x72,
        0x76,
        0x65,
        0x64,
        0x2D,
        0x6D,
        0x65,
        0x6D,
        0x6F,
        0x72,
        0x79,
    ];
    proof {
        assert(memory@ =~= memory_name());
        assert(memory_at_@ =~= memory_at());
        assert(chosen@ =~= chosen_name());
        assert(reserved@ =~= reserved_name());
        assert(name.len() >= 7 ==> name@.take(7) =~= name@.subrange(0, 7));
    }
    if same(name, &memory) || (name.len() >= 7 && same(slice_subrange(name, 0, 7), &memory_at_)) {
        Section::Memory
    } else if same(name, &chosen) {
        Section::Chosen
    } else if same(name, &reserved) {
        Section::Reserved
    } else {
        Section::Other
    }
}

fn is_address_cells(name: &[u8]) -> (r: bool)
    ensures
        r == (name@ == address_cells_name()),
{
    let want: [u8; 14] = [
        0x23,
        0x61,
        0x64,
        0x64,
        0x72,
        0x65,
        0x73,
        0x73,
        0x2D,
        0x63,
        0x65,
        0x6C,
        0x6C,
        0x73,
    ];
    assert(want@ =~= address_cells_name());
    same(name, &want)
}

fn is_size_cells(name: &[u8]) -> (r: bool)
    ensures
        r == (name@ == size_cells_name()),
{
    let want: [u8; 11] = [0x23, 0x73, 0x69, 0x7A, 0x65, 0x2D, 0x63, 0x65, 0x6C, 0x6C, 0x73];
    assert(want@ =~= size_cells_name());
    same(name, &want)
}

fn is_reg(name: &[u8]) -> (r: bool)
    ensures
        r == (name@ == reg_name()),
{
    let want: [u8; 3] = [0x72, 0x65, 0x67];
    assert(want@ =~= reg_name());
    same(name, &want)
}

fn is_seed(name: &[u8]) -> (r: bool)
    ensures
        r == (name@ == rng_seed_name() || name@ == kaslr_seed_name()),
{
    let rng: [u8; 8] = [0x72, 0x6E, 0x67, 0x2D, 0x73, 0x65, 0x65, 0x64];
    let kaslr: [u8; 10] = [0x6B, 0x61, 0x73, 0x6C, 0x72, 0x2D, 0x73, 0x65, 0x65, 0x64];
    assert(rng@ =~= rng_seed_name());
    assert(kaslr@ =~= kaslr_seed_name());
    same(name, &rng) || same(name, &kaslr)
}

/// The offsets and lengths in the header, checked.
struct Header {
    struct_start: usize,
    struct_end: usize,
    strings_start: usize,
    strings_end: usize,
    reservations: usize,
}

impl Header {
    spec fn view(&self) -> Layout {
        Layout {
            struct_start: self.struct_start as int,
            struct_end: self.struct_end as int,
            strings_start: self.strings_start as int,
            strings_end: self.strings_end as int,
            reservations: self.reservations as int,
        }
    }
}

#[verifier::rlimit(30)]
fn read_header(blob: &[u8]) -> (r: Result<Header, BootError>)
    ensures
        match r {
            Ok(h) => {
                &&& layout(blob@) == Ok::<Layout, BootError>(h@)
                &&& h.struct_end <= blob.len()
                &&& h.strings_end <= blob.len()
                &&& h.struct_start as int % 4 == 0
                &&& h.struct_end as int % 4 == 0
            },
            Err(e) => layout(blob@) == Err::<Layout, BootError>(e),
        },
{
    if blob.len() < HEADER_SIZE as usize {
        return Err(BootError::Truncated);
    }
    let struct_start = bytes::be32(blob, 8) as u64;
    let strings_start = bytes::be32(blob, 12) as u64;
    let reservations = bytes::be32(blob, 16) as u64;
    let version = bytes::be32(blob, 20);
    let last_comp_version = bytes::be32(blob, 24);
    let strings_size = bytes::be32(blob, 32) as u64;
    let struct_size = bytes::be32(blob, 36) as u64;
    if version < SUPPORTED_VERSION || last_comp_version > SUPPORTED_VERSION {
        return Err(BootError::UnsupportedVersion);
    }
    if struct_start % 4 != 0 || struct_size % 4 != 0 {
        return Err(BootError::BadHeader);
    }
    let len = blob.len() as u64;
    if struct_start + struct_size > len || strings_start + strings_size > len {
        return Err(BootError::BadHeader);
    }
    if reservations % 8 != 0 {
        return Err(BootError::BadHeader);
    }
    Ok(
        Header {
            struct_start: struct_start as usize,
            struct_end: (struct_start + struct_size) as usize,
            strings_start: strings_start as usize,
            strings_end: (strings_start + strings_size) as usize,
            reservations: reservations as usize,
        },
    )
}

fn read_reservations(blob: &[u8], start: usize) -> (r: Result<Vec<MemRegion>, BootError>)
    ensures
        match r {
            Ok(list) => {
                &&& reservations(blob@, start as int, Seq::empty()) == Ok::<
                    Seq<MemRegion>,
                    BootError,
                >(list@)
                &&& list.len() <= MAX_RSV_REGIONS
                &&& forall|i: int| 0 <= i < list.len() ==> (#[trigger] list@[i]).valid()
            },
            Err(e) => reservations(blob@, start as int, Seq::empty()) == Err::<
                Seq<MemRegion>,
                BootError,
            >(e),
        },
{
    let mut list: Vec<MemRegion> = Vec::new();
    let mut off = start;
    loop
        invariant
            reservations(blob@, start as int, Seq::empty()) == reservations(
                blob@,
                off as int,
                list@,
            ),
            list.len() <= MAX_RSV_REGIONS,
            forall|i: int| 0 <= i < list.len() ==> (#[trigger] list@[i]).valid(),
        decreases blob.len() + 16 - off,
    {
        if blob.len() < 16 || off > blob.len() - 16 {
            return Err(BootError::Truncated);
        }
        let base = bytes::be64(blob, off);
        let size = bytes::be64(blob, off + 8);
        if base == 0 && size == 0 {
            return Ok(list);
        }
        push_region(&mut list, MAX_RSV_REGIONS, base, size)?;
        off = off + 16;
    }
}

/// The next whole word behind an offset stays within a limit of whole words.
proof fn lemma_word_above(end: int, limit: int)
    requires
        0 <= end < limit,
        limit % 4 == 0,
    ensures
        end / 4 * 4 + 4 == up4(end + 1),
        end < up4(end + 1) <= limit,
        up4(end + 1) % 4 == 0,
{
}

/// Enters the node that begins at `off` and gives the offset of what follows its name.
#[verifier::rlimit(30)]
fn begin_node(w: &mut Walker, blob: &[u8], h: &Header, off: usize) -> (r: Result<usize, BootError>)
    requires
        h.struct_end <= blob.len(),
        off as int % 4 == 0,
        h.struct_end as int % 4 == 0,
        off < h.struct_end,
        word(blob@, off as int) == Ok::<int, BootError>(FDT_BEGIN_NODE as int),
        old(w).depth <= MAX_DEPTH,
        old(w)@.found.within_limits(),
    ensures
        match r {
            Ok(next) => {
                &&& step(blob@, h@, off as int, old(w)@) == Step::More(next as int, final(w)@)
                &&& off < next <= h.struct_end
                &&& next as int % 4 == 0
                &&& final(w).depth <= MAX_DEPTH
                &&& final(w)@.found.within_limits()
            },
            Err(e) => step(blob@, h@, off as int, old(w)@) == Step::Fail(e),
        },
{
    let ghost before = w@;
    if w.depth == MAX_DEPTH {
        assert(step(blob@, h@, off as int, before) == Step::Fail(BootError::TooDeep)) by {
            reveal(step);
        }
        return Err(BootError::TooDeep);
    }
    let at = off + 4;
    let end = match find_zero(blob, at, h.struct_end) {
        Some(end) => end,
        None => {
            assert(step(blob@, h@, off as int, before) == Step::Fail(BootError::BadStructure)) by {
                reveal(step);
            }
            return Err(BootError::BadStructure);
        },
    };
    proof {
        lemma_zero_from(blob@, at as int, h.struct_end as int);
        lemma_word_above(end as int, h.struct_end as int);
    }
    match w.enter(slice_subrange(blob, at, end)) {
        Ok(_) => {},
        Err(e) => {
            assert(step(blob@, h@, off as int, before) == Step::Fail(e)) by {
                reveal(step);
            }
            return Err(e);
        },
    }
    let next = end / 4 * 4 + 4;
    assert(step(blob@, h@, off as int, before) == Step::More(next as int, w@)) by {
        reveal(step);
    }
    Ok(next)
}

/// Looks at the property at `off` and gives the offset of what follows it.
#[verifier::rlimit(30)]
fn property_node(w: &mut Walker, blob: &[u8], h: &Header, off: usize) -> (r: Result<
    usize,
    BootError,
>)
    requires
        h.struct_end <= blob.len(),
        h.strings_end <= blob.len(),
        off as int % 4 == 0,
        h.struct_end as int % 4 == 0,
        off < h.struct_end,
        word(blob@, off as int) == Ok::<int, BootError>(FDT_PROP as int),
        old(w).depth <= MAX_DEPTH,
        old(w)@.found.within_limits(),
    ensures
        match r {
            Ok(next) => {
                &&& step(blob@, h@, off as int, old(w)@) == Step::More(next as int, final(w)@)
                &&& off < next <= h.struct_end
                &&& next as int % 4 == 0
                &&& final(w).depth <= MAX_DEPTH
                &&& final(w)@.found.within_limits()
            },
            Err(e) => step(blob@, h@, off as int, old(w)@) == Step::Fail(e),
        },
{
    proof {
        reveal(step);
    }
    if w.depth == 0 {
        return Err(BootError::BadStructure);
    }
    let at = off + 4;
    let len = be32(blob, at)?;
    let name_off = be32(blob, at + 4)?;
    let val_start = at + 8;
    if val_start > h.struct_end || len as u64 > (h.struct_end - val_start) as u64 {
        return Err(BootError::Truncated);
    }
    let val_end = val_start + len as usize;
    let name = prop_name(blob, h.strings_start, h.strings_end, name_off, Ghost(h@))?;
    let value = slice_subrange(blob, val_start, val_end);
    match w.see(name, value) {
        Ok(_) => {},
        Err(e) => {
            return Err(e);
        },
    }
    let next = val_end + (4 - val_end % 4) % 4;
    assert(next == up4(val_end as int));
    Ok(next)
}

/// Walks through the tree.
#[verifier::rlimit(30)]
fn walk_tree(blob: &[u8], h: &Header, reserved: Vec<MemRegion>) -> (r: Result<Walker, BootError>)
    requires
        h.struct_end <= blob.len(),
        h.strings_end <= blob.len(),
        h.struct_start as int % 4 == 0,
        h.struct_end as int % 4 == 0,
        reserved.len() <= MAX_RSV_REGIONS,
        forall|i: int| 0 <= i < reserved.len() ==> (#[trigger] reserved@[i]).valid(),
    ensures
        match r {
            Ok(w) => {
                &&& walked(blob@, h@, h.struct_start as int, Walk::start(reserved@)) == Ok::<
                    Found,
                    BootError,
                >(w@.found)
                &&& w@.found.within_limits()
            },
            Err(e) => walked(blob@, h@, h.struct_start as int, Walk::start(reserved@)) == Err::<
                Found,
                BootError,
            >(e),
        },
{
    let ghost start = Walk::start(reserved@);
    let mut w = Walker {
        depth: 0,
        section: Section::Other,
        addr_cells: 2,
        size_cells: 1,
        rsv_addr_cells: 2,
        rsv_size_cells: 1,
        memory: Vec::new(),
        reserved,
        seed: Vec::new(),
    };
    assert(w@.found.memory =~= Seq::empty());
    assert(w@.found.entropy =~= Seq::empty());
    let mut off = h.struct_start;
    loop
        invariant
            h.struct_end <= blob.len(),
            h.strings_end <= blob.len(),
            h.struct_end as int % 4 == 0,
            off as int % 4 == 0,
            w.depth <= MAX_DEPTH,
            w@.found.within_limits(),
            start == Walk::start(reserved@),
            walked(blob@, h@, h.struct_start as int, start) == walked(blob@, h@, off as int, w@),
        decreases h.struct_end + 4 - off,
    {
        proof {
            reveal(step);
        }
        if off >= h.struct_end {
            return Err(BootError::BadStructure);
        }
        let token = be32(blob, off)?;
        if token == FDT_BEGIN_NODE {
            off = begin_node(&mut w, blob, h, off)?;
        } else if token == FDT_END_NODE {
            if w.depth == 0 {
                return Err(BootError::BadStructure);
            }
            if w.depth == 2 {
                w.section = Section::Other;
            }
            w.depth = w.depth - 1;
            off = off + 4;
        } else if token == FDT_PROP {
            off = property_node(&mut w, blob, h, off)?;
        } else if token == FDT_NOP {
            off = off + 4;
        } else if token == FDT_END {
            if w.depth != 0 {
                return Err(BootError::BadStructure);
            }
            return Ok(w);
        } else {
            return Err(BootError::BadStructure);
        }
    }
}

/// Parses the blob that lies at `dtb`.
pub fn parse_blob(blob: &[u8], dtb: Range<usize>) -> (r: Result<BootInfo, BootError>)
    ensures
        match r {
            Ok(info) => {
                &&& parsed(blob@) == Ok::<Found, BootError>(info@)
                &&& info.dtb == dtb
                &&& info@.within_limits()
                &&& info@.memory.len() > 0
            },
            Err(e) => parsed(blob@) == Err::<Found, BootError>(e),
        },
{
    let h = read_header(blob)?;
    let reserved = read_reservations(blob, h.reservations)?;
    let w = walk_tree(blob, &h, reserved)?;
    if w.memory.len() == 0 {
        return Err(BootError::NoMemory);
    }
    Ok(BootInfo { dtb, regions: w.memory, rsv: w.reserved, seed: w.seed })
}

/// Why no blob can lie at an address, if none can.
pub open spec fn address_error(addr: int) -> Option<BootError> {
    if addr == 0 {
        Some(BootError::NullPointer)
    } else if addr % 8 != 0 {
        Some(BootError::Misaligned)
    } else {
        None
    }
}

/// The size that the first 8 bytes of a blob at `addr` give, or why they are refused.
pub open spec fn span_size(addr: int, head: Seq<u8>) -> Result<int, BootError> {
    let size = bytes::be32_at(head, 4);
    match address_error(addr) {
        Some(e) => Err(e),
        None => if bytes::be32_at(head, 0) != FDT_MAGIC {
            Err(BootError::BadMagic)
        } else if !(HEADER_SIZE <= size <= MAX_DTB_SIZE) || addr + size > usize::MAX {
            Err(BootError::BadHeader)
        } else {
            Ok(size)
        },
    }
}

/// Checks that a blob can lie at an address, before anything is read there.
pub fn check_address(addr: usize) -> (r: Result<(), BootError>)
    ensures
        r == (match address_error(addr as int) {
            Some(e) => Err::<(), BootError>(e),
            None => Ok::<(), BootError>(()),
        }),
{
    if addr == 0 {
        return Err(BootError::NullPointer);
    }
    if addr % 8 != 0 {
        return Err(BootError::Misaligned);
    }
    Ok(())
}

/// The range of the blob at `dtb_phys`, from its first 8 bytes.
///
/// The blob has to be mapped before it can be parsed, so its size is needed first.
pub fn dtb_span(dtb_phys: usize, head: &[u8]) -> (r: Result<Range<usize>, BootError>)
    requires
        head.len() >= 8,
    ensures
        match r {
            Ok(span) => {
                &&& span_size(dtb_phys as int, head@) == Ok::<int, BootError>(
                    span.end - span.start,
                )
                &&& span.start == dtb_phys
                &&& span.start < span.end
            },
            Err(e) => span_size(dtb_phys as int, head@) == Err::<int, BootError>(e),
        },
{
    match check_address(dtb_phys) {
        Ok(_) => {},
        Err(e) => {
            return Err(e);
        },
    }
    if bytes::be32(head, 0) != FDT_MAGIC {
        return Err(BootError::BadMagic);
    }
    let size = bytes::be32(head, 4);
    if size < HEADER_SIZE || size > MAX_DTB_SIZE {
        return Err(BootError::BadHeader);
    }
    match dtb_phys.checked_add(size as usize) {
        Some(end) => Ok(dtb_phys..end),
        None => Err(BootError::BadHeader),
    }
}

/// The result of parsing the bytes at `dtb_phys + read_offset`: the range of the blob,
/// in physical addresses, and what it tells.
pub open spec fn parse_result(
    dtb_phys: int,
    kernel_start: int,
    kernel_end: int,
    read_offset: int,
    readable: Seq<u8>,
) -> Result<(int, Found), BootError> {
    let read_base = dtb_phys + read_offset;
    if read_base > usize::MAX {
        Err(BootError::BadHeader)
    } else {
        match span_size(read_base, readable) {
            Err(e) => Err(e),
            Ok(size) => if dtb_phys + size > usize::MAX {
                Err(BootError::BadHeader)
            } else if dtb_phys < kernel_end && kernel_start < dtb_phys + size {
                Err(BootError::OverlapsKernel)
            } else {
                match parsed(readable.take(size)) {
                    Err(e) => Err(e),
                    Ok(found) => Ok((dtb_phys + size, found)),
                }
            },
        }
    }
}

/// Checks and parses the device tree at the physical address `dtb_phys`.
///
/// `readable` is what can be read at `dtb_phys + read_offset`, at least the blob as
/// long as it says it is. A blob that overlaps the kernel image is refused.
pub fn parse(
    dtb_phys: usize,
    kernel_image: Range<usize>,
    read_offset: usize,
    readable: &[u8],
) -> (r: Result<BootInfo, BootError>)
    requires
        readable.len() >= 8,
        dtb_phys + read_offset <= usize::MAX && span_size(
            dtb_phys + read_offset,
            readable@,
        ) is Ok ==> span_size(dtb_phys + read_offset, readable@)->Ok_0 <= readable.len(),
    ensures
        ({
            let want = parse_result(
                dtb_phys as int,
                kernel_image.start as int,
                kernel_image.end as int,
                read_offset as int,
                readable@,
            );
            match r {
                Ok(info) => {
                    &&& want == Ok::<(int, Found), BootError>((info.dtb.end as int, info@))
                    &&& info.dtb.start == dtb_phys
                    &&& info@.within_limits()
                    &&& info@.memory.len() > 0
                },
                Err(e) => want == Err::<(int, Found), BootError>(e),
            }
        }),
{
    let read_base = match dtb_phys.checked_add(read_offset) {
        Some(base) => base,
        None => {
            return Err(BootError::BadHeader);
        },
    };
    let span = dtb_span(read_base, readable)?;
    let len = span.end - span.start;
    let end = match dtb_phys.checked_add(len) {
        Some(end) => end,
        None => {
            return Err(BootError::BadHeader);
        },
    };
    if dtb_phys < kernel_image.end && kernel_image.start < end {
        return Err(BootError::OverlapsKernel);
    }
    let blob = slice_subrange(readable, 0, len);
    assert(blob@ =~= readable@.take(len as int));
    parse_blob(blob, dtb_phys..end)
}

} // verus!
