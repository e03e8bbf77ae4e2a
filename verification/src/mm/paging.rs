//! The kernel's own address space.
//!
//! The first tables map the kernel image, the device tree and the devices, and
//! nothing else: once where they physically are (for the moment of the switch) and
//! once in the upper half, at a constant offset. No page is both writable and
//! executable. The page below the boot stack is mapped nowhere, so that a stack
//! overflow faults.
use std::ops::Range;

use vstd::prelude::*;

use crate::abi::KERNEL_VA_OFFSET;
use crate::mm::mem::PhysMem;
use crate::mm::tree::{self, Space};
use crate::mm::walk::{self, Attempt, TableSource};
use crate::platform::Platform;

verus! {

/// Number of tables that the kernel has for its own address space.
pub const POOL_LEN: u64 = 24;

/// Descriptor bit: the page has been accessed (no fault on first access).
pub const ATTR_AF: u64 = 0x400;

/// Descriptor bits: inner shareable.
pub const SH_INNER: u64 = 0x300;

/// Descriptor bits: outer shareable.
pub const SH_OUTER: u64 = 0x200;

/// Descriptor bits: the kernel may read, the user has no access.
pub const AP_RO: u64 = 0x80;

/// Descriptor bits: the kernel may read and write, the user has no access.
pub const AP_RW: u64 = 0;

/// Descriptor bits: kernel and user may read.
pub const AP_RO_ALL: u64 = 0xC0;

/// Descriptor bits: kernel and user may read and write.
pub const AP_RW_ALL: u64 = 0x40;

/// Descriptor bit: the kernel may not execute.
pub const PXN: u64 = 0x20_0000_0000_0000;

/// Descriptor bit: the user may not execute.
pub const UXN: u64 = 0x40_0000_0000_0000;

/// Descriptor bits: normal memory.
pub const IDX_NORMAL: u64 = 0;

/// Descriptor bits: device memory.
pub const IDX_DEVICE: u64 = 4;

/// Memory attribute register: index 0 is normal write-back, index 1 is device.
pub const MAIR: u64 = 0x04FF;

/// System control bits: translation, data cache, instruction cache, and no execution
/// of writable pages.
pub const SCTLR_ON: u64 = 0x8_1005;

/// Permissions of kernel mappings.
///
/// The user can execute none of them, the kernel only [`Perm::Text`].
#[derive(Clone, Copy, Debug, PartialEq, Eq, Structural)]
pub enum Perm {
    Text,
    Ro,
    Rw,
    Device,
}

impl Perm {
    /// The descriptor bits that stand for the permission.
    pub open spec fn bits(self) -> u64 {
        match self {
            Perm::Text => tree::DESC_PAGE | ATTR_AF | SH_INNER | AP_RO | IDX_NORMAL | UXN,
            Perm::Ro => tree::DESC_PAGE | ATTR_AF | SH_INNER | AP_RO | IDX_NORMAL | UXN | PXN,
            Perm::Rw => tree::DESC_PAGE | ATTR_AF | SH_INNER | AP_RW | IDX_NORMAL | UXN | PXN,
            Perm::Device => tree::DESC_PAGE | ATTR_AF | SH_OUTER | AP_RW | IDX_DEVICE | UXN | PXN,
        }
    }

    /// The descriptor bits that stand for the permission.
    pub fn attrs(self) -> (r: u64)
        ensures
            r == self.bits(),
            r != 0,
    {
        proof {
            lemma_kernel_w_xor_x(self);
        }
        match self {
            Perm::Text => tree::DESC_PAGE | ATTR_AF | SH_INNER | AP_RO | IDX_NORMAL | UXN,
            Perm::Ro => tree::DESC_PAGE | ATTR_AF | SH_INNER | AP_RO | IDX_NORMAL | UXN | PXN,
            Perm::Rw => tree::DESC_PAGE | ATTR_AF | SH_INNER | AP_RW | IDX_NORMAL | UXN | PXN,
            Perm::Device => tree::DESC_PAGE | ATTR_AF | SH_OUTER | AP_RW | IDX_DEVICE | UXN | PXN,
        }
    }
}

/// Whether a descriptor lets the kernel write.
pub open spec fn kernel_writes(desc: u64) -> bool {
    desc & 0x80 == 0
}

/// Whether a descriptor lets the kernel execute.
pub open spec fn kernel_executes(desc: u64) -> bool {
    desc & PXN == 0
}

/// Whether a descriptor gives the user any access.
pub open spec fn user_reads(desc: u64) -> bool {
    desc & 0x40 != 0
}

/// Whether a descriptor lets the user write.
pub open spec fn user_writes(desc: u64) -> bool {
    desc & 0xC0 == 0x40
}

/// Whether a descriptor lets the user execute.
pub open spec fn user_executes(desc: u64) -> bool {
    desc & UXN == 0
}

/// No kernel mapping is both writable and executable, only text is executable, and
/// the user can neither access nor execute any.
pub proof fn lemma_kernel_w_xor_x(perm: Perm)
    ensures
        perm.bits() != 0,
        !(kernel_writes(perm.bits()) && kernel_executes(perm.bits())),
        kernel_executes(perm.bits()) <==> perm == Perm::Text,
        !user_executes(perm.bits()),
        !user_reads(perm.bits()),
        !user_writes(perm.bits()),
{
    let d = perm.bits();
    match perm {
        Perm::Text => {
            assert(({
                let d: u64 = 0b11u64 | 0x400 | 0x300 | 0x80 | 0 | 0x40_0000_0000_0000;
                d != 0 && d & 0x80 != 0 && d & 0x20_0000_0000_0000 == 0 && d & 0x40_0000_0000_0000
                    != 0 && d & 0x40 == 0 && d & 0xC0 != 0x40
            })) by (bit_vector);
        },
        Perm::Ro => {
            assert(({
                let d: u64 = 0b11u64 | 0x400 | 0x300 | 0x80 | 0 | 0x40_0000_0000_0000
                    | 0x20_0000_0000_0000;
                d != 0 && d & 0x80 != 0 && d & 0x20_0000_0000_0000 != 0 && d & 0x40_0000_0000_0000
                    != 0 && d & 0x40 == 0 && d & 0xC0 != 0x40
            })) by (bit_vector);
        },
        Perm::Rw => {
            assert(({
                let d: u64 = 0b11u64 | 0x400 | 0x300 | 0 | 0 | 0x40_0000_0000_0000
                    | 0x20_0000_0000_0000;
                d != 0 && d & 0x20_0000_0000_0000 != 0 && d & 0x40_0000_0000_0000 != 0 && d & 0x40
                    == 0 && d & 0xC0 != 0x40
            })) by (bit_vector);
        },
        Perm::Device => {
            assert(({
                let d: u64 = 0b11u64 | 0x400 | 0x200 | 0 | 4 | 0x40_0000_0000_0000
                    | 0x20_0000_0000_0000;
                d != 0 && d & 0x20_0000_0000_0000 != 0 && d & 0x40_0000_0000_0000 != 0 && d & 0x40
                    == 0 && d & 0xC0 != 0x40
            })) by (bit_vector);
        },
    }
}

/// Why a mapping was refused.
#[derive(Clone, Copy, Debug, PartialEq, Eq, Structural)]
pub enum MmuError {
    /// The translation is on already.
    AlreadyEnabled,
    /// The translation is not on yet.
    NotEnabled,
    /// The processor does not support the page size.
    GranuleUnsupported,
    /// The table pool is exhausted.
    OutOfTables,
    /// The frame window is exhausted.
    OutOfFrames,
    /// An address or length breaks an alignment or range rule.
    Misaligned,
    /// Something is mapped there already.
    Overlap,
    /// The first page of user space stays unmapped.
    NullPage,
    /// A table on the path is corrupt.
    BadTable,
    /// A table on the path is missing.
    MissingTable,
}

impl MmuError {
    /// The position of the error in the list of all errors.
    pub open spec fn number(self) -> int {
        match self {
            MmuError::AlreadyEnabled => 0,
            MmuError::NotEnabled => 1,
            MmuError::GranuleUnsupported => 2,
            MmuError::OutOfTables => 3,
            MmuError::OutOfFrames => 4,
            MmuError::Misaligned => 5,
            MmuError::Overlap => 6,
            MmuError::NullPage => 7,
            MmuError::BadTable => 8,
            MmuError::MissingTable => 9,
        }
    }

    /// The number under which the error is reported before the upper half is in use.
    pub fn code(self) -> (r: u64)
        ensures
            r == self.number(),
    {
        match self {
            MmuError::AlreadyEnabled => 0,
            MmuError::NotEnabled => 1,
            MmuError::GranuleUnsupported => 2,
            MmuError::OutOfTables => 3,
            MmuError::OutOfFrames => 4,
            MmuError::Misaligned => 5,
            MmuError::Overlap => 6,
            MmuError::NullPage => 7,
            MmuError::BadTable => 8,
            MmuError::MissingTable => 9,
        }
    }
}

/// What the kernel maps for itself.
///
/// All bounds are physical addresses. The gap between the two parts of `rw` is the
/// guard page. An empty device range is ignored.
pub struct KernelLayout {
    pub text: Range<u64>,
    pub rodata: Range<u64>,
    pub rw: [Range<u64>; 2],
    pub dtb: Range<u64>,
    pub devices: [Range<u64>; 3],
}

/// The register values that turn translation on.
#[derive(Clone, Copy, Debug, PartialEq, Eq, Structural)]
pub struct Mmu {
    pub ttbr0: u64,
    pub ttbr1: u64,
    pub tcr: u64,
    pub mair: u64,
    pub sctlr: u64,
}

/// A fixed run of frames for tables, used from the bottom up.
pub struct TablePool {
    plat: Platform,
    base: u64,
    used: u64,
}

impl TablePool {
    /// Number of tables in use.
    pub closed spec fn count(&self) -> int {
        self.used as int
    }

    /// A pool at `base` of which no table is used.
    pub fn new(plat: Platform, base: u64) -> (r: Self)
        requires
            base as int % plat.page_size() == 0,
            base + POOL_LEN * plat.page_size() <= tree::VA_SPAN,
        ensures
            r.sound(plat),
            r.origin() == base,
            r.count() == 0,
            r.free() == POOL_LEN,
    {
        TablePool { plat, base, used: 0 }
    }

    /// The frames that can be given out lie where the pool is.
    pub proof fn lemma_fresh(&self, plat: Platform, c: u64)
        requires
            self.sound(plat),
        ensures
            self.fresh().contains(c) <==> {
                &&& self.origin() + self.count() * plat.page_size() <= c
                &&& c < self.origin() + POOL_LEN * plat.page_size()
                &&& (c - self.origin()) % plat.page_size() == 0
            },
            self.free() == POOL_LEN - self.count(),
            self.next() == self.origin() + self.count() * plat.page_size(),
            self.limit() == self.origin() + POOL_LEN * plat.page_size(),
            0 <= self.count() <= POOL_LEN,
            self.origin() % plat.page_size() == 0,
            0 <= self.origin(),
            self.origin() + POOL_LEN * plat.page_size() <= tree::VA_SPAN,
    {
    }
}

impl TableSource for TablePool {
    closed spec fn fresh(&self) -> Set<u64> {
        Set::new(
            |c: u64|
                self.base + self.used * self.plat.page_size() <= c < self.base + POOL_LEN
                    * self.plat.page_size() && (c - self.base) % self.plat.page_size() == 0,
        )
    }

    closed spec fn free(&self) -> nat {
        (POOL_LEN - self.used) as nat
    }

    closed spec fn next(&self) -> int {
        self.base + self.used * self.plat.page_size()
    }

    open spec fn empty_error() -> MmuError {
        MmuError::OutOfTables
    }

    closed spec fn origin(&self) -> int {
        self.base as int
    }

    closed spec fn limit(&self) -> int {
        self.base + POOL_LEN * self.plat.page_size()
    }

    closed spec fn sound(&self, plat: Platform) -> bool {
        &&& self.plat == plat
        &&& self.used <= POOL_LEN
        &&& self.base as int % plat.page_size() == 0
        &&& self.base + POOL_LEN * plat.page_size() <= tree::VA_SPAN
    }

    fn take(&mut self, m: &mut PhysMem) -> (r: Result<u64, MmuError>) {
        if self.used == POOL_LEN {
            return Err(MmuError::OutOfTables);
        }
        let c = self.base + self.used * self.plat.granule();
        assert(self.fresh().contains(c));
        m.zero(c);
        self.used = self.used + 1;
        proof {
            match self.plat {
                Platform::Virt => {
                    assert(self.plat.page_size() == 4096);
                    assert(self.fresh() =~= old(self).fresh().remove(c));
                },
                Platform::Apple => {
                    assert(self.plat.page_size() == 16384);
                    assert(self.fresh() =~= old(self).fresh().remove(c));
                },
            }
        }
        Ok(c)
    }
}

/// The kernel's own address space: its tables, and whether it is on.
pub struct Pool {
    pub tables: TablePool,
    pub enabled: bool,
    /// The tree of the upper half, once translation is on.
    pub root1: u64,
}

impl Pool {
    /// The pool goes with the memory: its unused tables are no tables yet, and once
    /// translation is on the upper tree is there.
    pub open spec fn wf(&self, m: &PhysMem) -> bool {
        &&& walk::apart(&self.tables, m)
        &&& self.enabled ==> m.is_root(self.root1)
    }

    /// Kernel tables at `base`, none in use, translation off.
    pub fn new(plat: Platform, base: u64) -> (r: Self)
        requires
            base as int % plat.page_size() == 0,
            base + POOL_LEN * plat.page_size() <= tree::VA_SPAN,
        ensures
            r.tables.sound(plat),
            r.tables.origin() == base,
            r.tables.count() == 0,
            r.tables.free() == POOL_LEN,
            !r.enabled,
    {
        Pool { tables: TablePool::new(plat, base), enabled: false, root1: 0 }
    }

    fn map_range(
        &mut self,
        m: &mut PhysMem,
        root: u64,
        va: u64,
        pa: u64,
        len: u64,
        perm: Perm,
    ) -> (r: Result<(), MmuError>)
        requires
            old(m).wf(),
            old(m).is_root(root),
            walk::apart(&old(self).tables, old(m)),
            va + len <= u64::MAX + 1,
            pa + len <= u64::MAX + 1,
        ensures
            final(m).wf(),
            final(m).settled() == old(m).settled(),
            final(m).platform() == old(m).platform(),
            walk::apart(&final(self).tables, final(m)),
            final(self).enabled == old(self).enabled,
            final(self).root1 == old(self).root1,
            walk::kept(old(m), final(m), &old(self).tables, &final(self).tables),
            (Attempt { space: final(m).space(), free: final(self).tables.free(), answer: r })
                == map_aligned(
                old(m).platform(),
                old(m).space(),
                old(self).tables.free(),
                root,
                va as int,
                pa as int,
                len as int,
                perm.bits(),
            ),
    {
        let g = m.plat().granule();
        if va % g != 0 || pa % g != 0 || len % g != 0 {
            return Err(MmuError::Misaligned);
        }
        let attrs = perm.attrs();
        proof {
            let page = m.platform().page_size();
            assert(len / g * page == len) by {
                vstd::arithmetic::div_mod::lemma_fundamental_div_mod(len as int, page);
                vstd::arithmetic::mul::lemma_mul_is_commutative(len as int / page, page);
            }
        }
        walk::map_pages(m, &mut self.tables, root, va, pa, attrs, len / g)
    }
}

/// What mapping a range with kernel tables does: nothing where an address or the
/// length is not a multiple of the page size, else page by page.
pub open spec fn map_aligned(
    plat: Platform,
    s: Space,
    free: nat,
    root: u64,
    va: int,
    pa: int,
    len: int,
    attrs: u64,
) -> Attempt {
    let g = plat.page_size();
    if va % g != 0 || pa % g != 0 || len % g != 0 {
        Attempt { space: s, free, answer: Err(MmuError::Misaligned) }
    } else {
        walk::map_many(
            plat,
            s,
            free,
            MmuError::OutOfTables,
            root,
            va,
            pa,
            attrs,
            (len / g) as nat,
        )
    }
}

/// The page size field of the memory model feature register.
pub open spec fn granule_field(plat: Platform, mmfr0: u64) -> u64 {
    match plat {
        Platform::Virt => (mmfr0 >> 28) & 0xF,
        Platform::Apple => (mmfr0 >> 20) & 0xF,
    }
}

/// Whether the processor supports the page size.
pub open spec fn granule_supported(plat: Platform, mmfr0: u64) -> bool {
    match plat {
        Platform::Virt => granule_field(plat, mmfr0) == 0 || granule_field(plat, mmfr0) == 1,
        Platform::Apple => granule_field(plat, mmfr0) == 1 || granule_field(plat, mmfr0) == 2,
    }
}

/// The physical address size to use: what the processor has, and not above 48 bits.
pub open spec fn address_size(mmfr0: u64) -> u64 {
    if mmfr0 & 0xF <= 5 {
        mmfr0 & 0xF
    } else {
        5
    }
}

/// Checks the memory model feature register for the page size and gives the physical
/// address size to use.
pub fn check_features(plat: Platform, mmfr0: u64) -> (r: Result<u64, MmuError>)
    ensures
        r == (if granule_supported(plat, mmfr0) {
            Ok(address_size(mmfr0))
        } else {
            Err(MmuError::GranuleUnsupported)
        }),
{
    let field = match plat {
        Platform::Virt => (mmfr0 >> 28) & 0xF,
        Platform::Apple => (mmfr0 >> 20) & 0xF,
    };
    let granule_ok = match plat {
        Platform::Virt => field == 0 || field == 1,
        Platform::Apple => field == 1 || field == 2,
    };
    if !granule_ok {
        return Err(MmuError::GranuleUnsupported);
    }
    let range = mmfr0 & 0xF;
    if range < 5 {
        Ok(range)
    } else {
        Ok(5)
    }
}

/// The translation control value: 48-bit addresses in both halves (16 at bits 0 and
/// 16), write-back cacheable inner shareable table walks (bits 8 to 13 and 24 to 29),
/// the page size (bits 14 and 30, each half with its own code) and the physical
/// address size (bit 32).
pub open spec fn tcr_value(plat: Platform, ips: u64) -> int {
    let (tg0, tg1) = match plat {
        Platform::Virt => (0int, 2int),
        Platform::Apple => (2int, 1int),
    };
    16 + 0x100 + 0x400 + 0x3000 + tg0 * 0x4000 + 0x10_0000 + 0x100_0000 + 0x400_0000 + 0x3000_0000
        + tg1 * 0x4000_0000 + ips * 0x1_0000_0000
}

/// The translation control value for a physical address size.
pub fn tcr(plat: Platform, ips: u64) -> (r: u64)
    requires
        ips <= 5,
    ensures
        r == tcr_value(plat, ips),
{
    let (tg0, tg1): (u64, u64) = match plat {
        Platform::Virt => (0b00, 0b10),
        Platform::Apple => (0b10, 0b01),
    };
    proof {
        assert(ips <= 5 && tg0 <= 3 && tg1 <= 3 ==> (16u64 | (1u64 << 8) | (1u64 << 10) | (3u64
            << 12) | (tg0 << 14) | (16u64 << 16) | (1u64 << 24) | (1u64 << 26) | (3u64 << 28) | (
        tg1 << 30) | (ips << 32)) == 16 + 0x100 + 0x400 + 0x3000 + tg0 * 0x4000 + 0x10_0000
            + 0x100_0000 + 0x400_0000 + 0x3000_0000 + tg1 * 0x4000_0000 + ips * 0x1_0000_0000)
            by (bit_vector);
    }
    16u64 | (1u64 << 8) | (1u64 << 10) | (3u64 << 12) | (tg0 << 14) | (16u64 << 16) | (1u64 << 24)
        | (1u64 << 26) | (3u64 << 28) | (tg1 << 30) | (ips << 32)
}

/// A range to be mapped.
pub struct Request {
    pub root: u64,
    pub va: int,
    pub pa: int,
    pub len: int,
    pub attrs: u64,
}

/// What mapping one range more does. An empty range needs nothing, one that ends
/// before it starts is refused.
pub open spec fn map_request(plat: Platform, a: Attempt, req: Request) -> Attempt {
    if a.answer is Err || req.len == 0 {
        a
    } else if req.len < 0 {
        Attempt { answer: Err(MmuError::Misaligned), ..a }
    } else {
        map_aligned(plat, a.space, a.free, req.root, req.va, req.pa, req.len, req.attrs)
    }
}

/// What mapping a list of ranges does: one after the other, up to the first failure.
pub open spec fn map_requests(
    plat: Platform,
    s: Space,
    free: nat,
    reqs: Seq<Request>,
) -> Attempt
    decreases reqs.len(),
{
    if reqs.len() == 0 {
        Attempt { space: s, free, answer: Ok(()) }
    } else {
        map_request(plat, map_requests(plat, s, free, reqs.drop_last()), reqs.last())
    }
}

/// A range of physical memory as it appears in the lower tree (where it is) and in
/// the upper tree (at the kernel offset).
pub open spec fn both_halves(
    root0: u64,
    root1: u64,
    start: int,
    end: int,
    perm: Perm,
) -> Seq<Request> {
    seq![
        Request { root: root0, va: start, pa: start, len: end - start, attrs: perm.bits() },
        Request {
            root: root1,
            va: start + KERNEL_VA_OFFSET,
            pa: start,
            len: end - start,
            attrs: perm.bits(),
        },
    ]
}

/// The first address of the page of `v`.
pub open spec fn page_floor(plat: Platform, v: int) -> int {
    v / plat.page_size() * plat.page_size()
}

/// The first page boundary that is not below `v`.
pub open spec fn page_ceil(plat: Platform, v: int) -> int {
    (v + plat.page_size() - 1) / plat.page_size() * plat.page_size()
}

/// The end of a device range, or its start where the range is empty.
pub open spec fn device_end(dev: Range<u64>) -> int {
    if dev.end <= dev.start {
        dev.start as int
    } else {
        dev.end as int
    }
}

impl KernelLayout {
    /// Everything that is mapped, in order. The device tree is widened to whole
    /// pages.
    pub open spec fn requests(&self, plat: Platform, root0: u64, root1: u64) -> Seq<Request> {
        both_halves(root0, root1, self.text.start as int, self.text.end as int, Perm::Text)
            + both_halves(
            root0,
            root1,
            self.rodata.start as int,
            self.rodata.end as int,
            Perm::Ro,
        ) + both_halves(
            root0,
            root1,
            self.rw[0].start as int,
            self.rw[0].end as int,
            Perm::Rw,
        ) + both_halves(
            root0,
            root1,
            self.rw[1].start as int,
            self.rw[1].end as int,
            Perm::Rw,
        ) + both_halves(
            root0,
            root1,
            page_floor(plat, self.dtb.start as int),
            page_ceil(plat, self.dtb.end as int),
            Perm::Ro,
        ) + self.device_requests(root0, root1)
    }

    /// The device ranges.
    pub open spec fn device_requests(&self, root0: u64, root1: u64) -> Seq<Request> {
        both_halves(
            root0,
            root1,
            self.devices[0].start as int,
            device_end(self.devices[0]),
            Perm::Device,
        ) + both_halves(
            root0,
            root1,
            self.devices[1].start as int,
            device_end(self.devices[1]),
            Perm::Device,
        ) + both_halves(
            root0,
            root1,
            self.devices[2].start as int,
            device_end(self.devices[2]),
            Perm::Device,
        )
    }

    /// Whether everything lies in the 48-bit physical range, so that it has an
    /// address in the upper half.
    pub open spec fn in_range(&self) -> bool {
        &&& self.text.end <= tree::VA_SPAN
        &&& self.rodata.end <= tree::VA_SPAN
        &&& self.rw[0].end <= tree::VA_SPAN
        &&& self.rw[1].end <= tree::VA_SPAN
        &&& self.dtb.end <= tree::VA_SPAN
        &&& self.devices[0].end <= tree::VA_SPAN
        &&& self.devices[1].end <= tree::VA_SPAN
        &&& self.devices[2].end <= tree::VA_SPAN
    }
}

/// Adding requests to a list adds their effect.
proof fn lemma_requests_append(
    plat: Platform,
    s: Space,
    free: nat,
    a: Seq<Request>,
    b: Seq<Request>,
)
    ensures
        map_requests(plat, s, free, a).answer is Err ==> map_requests(plat, s, free, a + b)
            == map_requests(plat, s, free, a),
    decreases b.len(),
{
    if b.len() == 0 {
        assert(a + b =~= a);
    } else {
        lemma_requests_append(plat, s, free, a, b.drop_last());
        assert((a + b).drop_last() =~= a + b.drop_last());
    }
}

/// Maps one range in both halves, and keeps account of the list.
#[verifier::rlimit(30)]
fn map_both(
    pool: &mut Pool,
    m: &mut PhysMem,
    root0: u64,
    root1: u64,
    start: u64,
    end: u64,
    perm: Perm,
    Ghost(s): Ghost<Space>,
    Ghost(free): Ghost<nat>,
    Ghost(done): Ghost<Seq<Request>>,
) -> (r: Result<(), MmuError>)
    requires
        old(m).wf(),
        old(m).is_root(root0),
        old(m).is_root(root1),
        walk::apart(&old(pool).tables, old(m)),
        start < end ==> end <= tree::VA_SPAN,
        map_requests(old(m).platform(), s, free, done) == (Attempt {
            space: old(m).space(),
            free: old(pool).tables.free(),
            answer: Ok(()),
        }),
    ensures
        final(m).wf(),
        final(m).settled() == old(m).settled(),
        final(m).platform() == old(m).platform(),
        walk::apart(&final(pool).tables, final(m)),
        final(pool).enabled == old(pool).enabled,
        final(pool).root1 == old(pool).root1,
        walk::kept(old(m), final(m), &old(pool).tables, &final(pool).tables),
        map_requests(
            old(m).platform(),
            s,
            free,
            done + both_halves(root0, root1, start as int, end as int, perm),
        ) == (Attempt {
            space: final(m).space(),
            free: final(pool).tables.free(),
            answer: r,
        }),
{
    let ghost plat = m.platform();
    let ghost both = both_halves(root0, root1, start as int, end as int, perm);
    proof {
        assert((done + both).drop_last() =~= done.push(both[0]));
        assert(done.push(both[0]).drop_last() =~= done);
        assert((done + both).last() == both[1]);
        assert(map_requests(plat, s, free, done.push(both[0])) == map_request(
            plat,
            map_requests(plat, s, free, done),
            both[0],
        ));
    }
    if end < start {
        return Err(MmuError::Misaligned);
    }
    let len = end - start;
    if len == 0 {
        return Ok(());
    }
    match pool.map_range(m, root0, start, start, len, perm) {
        Ok(_) => {},
        Err(e) => {
            return Err(e);
        },
    }
    pool.map_range(m, root1, start + KERNEL_VA_OFFSET, start, len, perm)
}

/// What turning translation on does, once the page size is known to be supported: the
/// space, the free tables and the answer.
pub open spec fn enabling(layout: &KernelLayout, pool: &Pool, m: &PhysMem) -> Attempt {
    let plat = m.platform();
    let free = pool.tables.free();
    if pool.enabled {
        Attempt { space: m.space(), free, answer: Err(MmuError::AlreadyEnabled) }
    } else if free < 2 {
        Attempt { space: m.space(), free: 0, answer: Err(MmuError::OutOfTables) }
    } else {
        map_requests(
            plat,
            m.space(),
            (free - 2) as nat,
            layout.requests(plat, next_table(pool, plat, 0), next_table(pool, plat, 1)),
        )
    }
}

/// The address of the `i`th unused table.
pub open spec fn next_table(pool: &Pool, plat: Platform, i: int) -> u64 {
    (pool.tables.origin() + (pool.tables.count() + i) * plat.page_size()) as u64
}

/// The ranges that the first tables show in both halves, in order.
#[verifier::rlimit(30)]
fn ranges_to_map(
    layout: &KernelLayout,
    plat: Platform,
    Ghost(root0): Ghost<u64>,
    Ghost(root1): Ghost<u64>,
) -> (r: [(u64, u64, Perm); 8])
    requires
        layout.in_range(),
    ensures
        layout.requests(plat, root0, root1).len() == 16,
        forall|k: int|
            0 <= k < 8 ==> {
                &&& (#[trigger] r@[k]).0 < r@[k].1 ==> r@[k].1 <= tree::VA_SPAN
                &&& layout.requests(plat, root0, root1).subrange(2 * k, 2 * k + 2) =~= both_halves(
                    root0,
                    root1,
                    r@[k].0 as int,
                    r@[k].1 as int,
                    r@[k].2,
                )
            },
{
    let g = plat.granule();
    let dtb_base = layout.dtb.start / g * g;
    let dtb_end = (layout.dtb.end + (g - 1)) / g * g;
    [
        (layout.text.start, layout.text.end, Perm::Text),
        (layout.rodata.start, layout.rodata.end, Perm::Ro),
        (layout.rw[0].start, layout.rw[0].end, Perm::Rw),
        (layout.rw[1].start, layout.rw[1].end, Perm::Rw),
        (dtb_base, dtb_end, Perm::Ro),
        (layout.devices[0].start, range_end(&layout.devices[0]), Perm::Device),
        (layout.devices[1].start, range_end(&layout.devices[1]), Perm::Device),
        (layout.devices[2].start, range_end(&layout.devices[2]), Perm::Device),
    ]
}

/// Builds the first tables and gives the register values that turn translation on.
///
/// `mmfr0` is the memory model feature register and `sctlr` the system control
/// register as they are.
#[verifier::rlimit(30)]
pub fn enable_paging(
    layout: &KernelLayout,
    pool: &mut Pool,
    m: &mut PhysMem,
    mmfr0: u64,
    sctlr: u64,
) -> (r: Result<Mmu, MmuError>)
    requires
        old(m).wf(),
        old(pool).wf(old(m)),
        layout.in_range(),
    ensures
        final(m).wf(),
        final(m).settled() == old(m).settled(),
        final(m).platform() == old(m).platform(),
        final(pool).wf(final(m)),
        walk::kept(old(m), final(m), &old(pool).tables, &final(pool).tables),
        ({
            let plat = old(m).platform();
            let a = enabling(layout, old(pool), old(m));
            let root0 = next_table(old(pool), plat, 0);
            let root1 = next_table(old(pool), plat, 1);
            if !granule_supported(plat, mmfr0) {
                &&& r == Err::<Mmu, MmuError>(MmuError::GranuleUnsupported)
                &&& final(m).space() == old(m).space()
                &&& *final(pool) == *old(pool)
            } else {
                &&& final(m).space() == a.space
                &&& final(pool).tables.free() == a.free
                &&& match a.answer {
                    Err(e) => {
                        &&& r == Err::<Mmu, MmuError>(e)
                        &&& final(pool).enabled == old(pool).enabled
                        &&& final(pool).root1 == old(pool).root1
                    },
                    Ok(_) => {
                        &&& r == Ok::<Mmu, MmuError>(
                            Mmu {
                                ttbr0: root0,
                                ttbr1: root1,
                                tcr: tcr_value(plat, address_size(mmfr0)) as u64,
                                mair: MAIR,
                                sctlr: sctlr | SCTLR_ON,
                            },
                        )
                        &&& final(pool).enabled
                        &&& final(pool).root1 == root1
                        &&& final(m).is_root(root0)
                        &&& final(m).is_root(root1)
                    },
                }
            }
        }),
{
    let ghost plat = m.platform();
    let plat_exec = m.plat();
    let ips = check_features(plat_exec, mmfr0)?;
    if pool.enabled {
        return Err(MmuError::AlreadyEnabled);
    }
    let ghost free = pool.tables.free();
    proof {
        pool.tables.lemma_fresh(plat, 0);
    }
    let root0 = pool.tables.take(m)?;
    m.make_root(root0);
    proof {
        pool.tables.lemma_fresh(plat, 0);
    }
    let root1 = pool.tables.take(m)?;
    m.make_root(root1);
    let ghost s = m.space();
    let ghost all = layout.requests(plat, root0, root1);
    let segments = ranges_to_map(layout, plat_exec, Ghost(root0), Ghost(root1));
    let mut i: usize = 0;
    let ghost mut done: Seq<Request> = Seq::empty();
    while i < 8
        invariant
            i <= 8,
            done.len() == 2 * i,
            done == all.take(2 * i as int),
            all.len() == 16,
            forall|k: int|
                0 <= k < 8 ==> {
                    &&& (#[trigger] segments@[k]).0 < segments@[k].1 ==> segments@[k].1
                        <= tree::VA_SPAN
                    &&& all.subrange(2 * k, 2 * k + 2) =~= both_halves(
                        root0,
                        root1,
                        segments@[k].0 as int,
                        segments@[k].1 as int,
                        segments@[k].2,
                    )
                },
            m.wf(),
            m.settled() == old(m).settled(),
            m.platform() == plat,
            m.is_root(root0),
            m.is_root(root1),
            walk::apart(&pool.tables, m),
            pool.enabled == old(pool).enabled,
            pool.root1 == old(pool).root1,
            walk::kept(old(m), m, &old(pool).tables, &pool.tables),
            free >= 2,
            map_requests(plat, s, (free - 2) as nat, done) == (Attempt {
                space: m.space(),
                free: pool.tables.free(),
                answer: Ok(()),
            }),
            !pool.enabled,
            granule_supported(plat, mmfr0),
            plat == old(m).platform(),
            s == old(m).space(),
            free == old(pool).tables.free(),
            all == layout.requests(plat, root0, root1),
            root0 == next_table(old(pool), plat, 0),
            root1 == next_table(old(pool), plat, 1),
        decreases 8 - i,
    {
        let (start, end, perm) = segments[i];
        proof {
            assert(segments@[i as int] == (start, end, perm));
            assert(done + both_halves(root0, root1, start as int, end as int, perm)
                =~= all.take(2 * i as int + 2));
        }
        match map_both(
            pool,
            m,
            root0,
            root1,
            start,
            end,
            perm,
            Ghost(s),
            Ghost((free - 2) as nat),
            Ghost(done),
        ) {
            Ok(unit) => {
                assert(unit == ());
            },
            Err(e) => {
                proof {
                    let part = all.take(2 * i as int + 2);
                    lemma_requests_append(
                        plat,
                        s,
                        (free - 2) as nat,
                        part,
                        all.skip(2 * i as int + 2),
                    );
                    assert(part + all.skip(2 * i as int + 2) =~= all);
                }
                return Err(e);
            },
        }
        proof {
            done = done + both_halves(root0, root1, start as int, end as int, perm);
        }
        i = i + 1;
    }
    assert(all.take(16) =~= all);
    pool.enabled = true;
    pool.root1 = root1;
    Ok(
        Mmu {
            ttbr0: root0,
            ttbr1: root1,
            tcr: tcr(plat_exec, ips),
            mair: MAIR,
            sctlr: sctlr | SCTLR_ON,
        },
    )
}

/// The end of a device range, or its start where the range is empty.
fn range_end(dev: &Range<u64>) -> (r: u64)
    ensures
        r == device_end(*dev),
{
    if dev.end <= dev.start {
        dev.start
    } else {
        dev.end
    }
}

/// What opening a window of physical memory in the upper half does.
pub open spec fn window_mapped(pool: &Pool, m: &PhysMem, start: int, end: int) -> Attempt {
    let plat = m.platform();
    let g = plat.page_size();
    let free = pool.tables.free();
    if end <= start || start % g != 0 || end % g != 0 {
        Attempt { space: m.space(), free, answer: Err(MmuError::Misaligned) }
    } else if !pool.enabled {
        Attempt { space: m.space(), free, answer: Err(MmuError::NotEnabled) }
    } else {
        map_aligned(
            plat,
            m.space(),
            free,
            pool.root1,
            start + KERNEL_VA_OFFSET,
            start,
            end - start,
            Perm::Rw.bits(),
        )
    }
}

/// Makes a window of physical memory readable and writable for the kernel, in the
/// upper half.
///
/// Only new mappings are made, so no translation that is in use changes.
pub fn map_kernel_window(window: Range<u64>, pool: &mut Pool, m: &mut PhysMem) -> (r: Result<
    (),
    MmuError,
>)
    requires
        old(m).wf(),
        old(pool).wf(old(m)),
        window.start < window.end ==> window.end <= tree::VA_SPAN,
    ensures
        final(m).wf(),
        final(m).settled() == old(m).settled(),
        final(m).platform() == old(m).platform(),
        final(pool).wf(final(m)),
        final(pool).enabled == old(pool).enabled,
        final(pool).root1 == old(pool).root1,
        walk::kept(old(m), final(m), &old(pool).tables, &final(pool).tables),
        (Attempt { space: final(m).space(), free: final(pool).tables.free(), answer: r })
            == window_mapped(old(pool), old(m), window.start as int, window.end as int),
{
    let g = m.plat().granule();
    if window.end <= window.start || window.start % g != 0 || window.end % g != 0 {
        return Err(MmuError::Misaligned);
    }
    if !pool.enabled {
        return Err(MmuError::NotEnabled);
    }
    let root1 = pool.root1;
    let len = window.end - window.start;
    pool.map_range(m, root1, window.start + KERNEL_VA_OFFSET, window.start, len, Perm::Rw)
}

} // verus!
