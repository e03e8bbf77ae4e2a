//! The start of the kernel, before and while translation is turned on.
use std::ops::Range;

use vstd::prelude::*;
use vstd::string::*;

use crate::abi;
use crate::arch::earlycon::{self, EarlyCon};
use crate::boot::fdt::{self, BootError};
use crate::kernel::memmap;
use crate::mm::laws;
use crate::mm::mem::PhysMem;
use crate::mm::paging::{self, KernelLayout, Mmu, MmuError, Pool};
use crate::mm::tree;
use crate::mm::walk::{self, TableSource};
use crate::platform::Platform;

verus! {

/// Where the parts of the kernel image lie in physical memory.
#[derive(Clone, Copy, Debug)]
pub struct Image {
    pub text: u64,
    pub rodata: u64,
    pub data: u64,
    /// The kernel tables, among the data.
    pub tables: u64,
    /// The control block of the root task, among the data.
    pub root_tcb: u64,
    pub stack_bottom: u64,
    pub stack_top: u64,
    pub end: u64,
}

impl Image {
    /// The parts follow each other on page boundaries, with an unused page below the
    /// stack.
    pub open spec fn laid_out(&self, plat: Platform) -> bool {
        let g = plat.page_size();
        &&& self.text <= self.rodata <= self.data
        &&& self.data <= self.tables
        &&& self.tables as int % g == 0
        &&& self.tables + paging::POOL_LEN * g <= self.stack_bottom - g
        &&& self.data <= self.root_tcb < self.stack_bottom - g
        &&& self.stack_bottom <= self.stack_top <= self.end <= tree::VA_SPAN
    }

    /// Whether the parts lie as they must.
    pub fn is_laid_out(&self, plat: Platform) -> (r: bool)
        ensures
            r == self.laid_out(plat),
    {
        let g = plat.granule();
        if self.stack_bottom < g {
            return false;
        }
        let guard = self.stack_bottom - g;
        let pool = paging::POOL_LEN * g;
        self.text <= self.rodata && self.rodata <= self.data && self.data <= self.tables
            && self.tables % g == 0 && pool <= guard && self.tables <= guard - pool && self.data
            <= self.root_tcb && self.root_tcb < guard && self.stack_bottom <= self.stack_top
            && self.stack_top <= self.end && self.end <= tree::VA_SPAN
    }
}

/// Whether the layout is that of the image and the device tree: the page below the stack
/// is left out.
pub open spec fn is_layout(
    layout: &KernelLayout,
    plat: Platform,
    image: Image,
    dtb_start: int,
    dtb_end: int,
) -> bool {
    &&& layout.text.start == image.text && layout.text.end == image.rodata
    &&& layout.rodata.start == image.rodata && layout.rodata.end == image.data
    &&& layout.rw[0].start == image.data && layout.rw[0].end == image.stack_bottom
        - plat.page_size()
    &&& layout.rw[1].start == image.stack_bottom && layout.rw[1].end == image.stack_top
    &&& layout.dtb.start == dtb_start && layout.dtb.end == dtb_end
    &&& forall|i: int|
        0 <= i < 3 ==> ((#[trigger] layout.devices[i]).start as int, layout.devices[i].end as int)
            == plat.device_spans()[i]
}

/// What is to be mapped when translation is turned on.
pub fn kernel_layout(plat: Platform, image: &Image, dtb: &Range<usize>) -> (r: KernelLayout)
    requires
        image.laid_out(plat),
        dtb.end <= tree::VA_SPAN,
    ensures
        is_layout(&r, plat, *image, dtb.start as int, dtb.end as int),
        r.in_range(),
{
    let granule = plat.granule();
    let r = KernelLayout {
        text: image.text..image.rodata,
        rodata: image.rodata..image.data,
        rw: [image.data..image.stack_bottom - granule, image.stack_bottom..image.stack_top],
        dtb: dtb.start as u64..dtb.end as u64,
        devices: memmap::device_windows(plat),
    };
    assert((r.devices[0].start as int, r.devices[0].end as int) == plat.device_spans()[0]);
    assert((r.devices[1].start as int, r.devices[1].end as int) == plat.device_spans()[1]);
    assert((r.devices[2].start as int, r.devices[2].end as int) == plat.device_spans()[2]);
    r
}

/// Whether the kernel runs with translation on: its tables are its own and visible,
/// nothing else is a table, and all pages of the upper half are safe.
pub open spec fn kernel_up(plat: Platform, image: &Image, pool: &Pool, m: &PhysMem) -> bool {
    &&& m.wf()
    &&& m.platform() == plat
    &&& pool.wf(m)
    &&& pool.enabled
    &&& pool.tables.origin() == image.tables
    &&& image.tables <= pool.root1 < pool.tables.limit()
    &&& forall|t: u64| #[trigger]
        m.homes().contains_key(t) ==> image.tables <= t < pool.tables.limit()
    &&& forall|p: int|
        image.data <= p < image.stack_bottom - plat.page_size()
            ==> #[trigger] m.space().leaves.contains_key((pool.root1, plat.page(p)))
    &&& laws::tree_kernel_safe(m.space(), pool.root1)
}

/// Whether translation was turned on for a layout, and how that went.
pub open spec fn enabled_for(
    layout: &KernelLayout,
    pool1: &Pool,
    m1: &PhysMem,
    pool2: &Pool,
    m2: &PhysMem,
    mmfr0: u64,
    sctlr: u64,
    r: Result<Mmu, MmuError>,
) -> bool {
    let plat = m1.platform();
    let a = paging::enabling(layout, pool1, m1);
    if !paging::granule_supported(plat, mmfr0) {
        &&& r == Err::<Mmu, MmuError>(MmuError::GranuleUnsupported)
        &&& m2.space() == m1.space()
        &&& *pool2 == *pool1
    } else {
        &&& m2.space() == a.space
        &&& pool2.tables.free() == a.free
        &&& match a.answer {
            Err(e) => r == Err::<Mmu, MmuError>(e) && pool2.enabled == pool1.enabled,
            Ok(_) => {
                &&& r == Ok::<Mmu, MmuError>(
                    Mmu {
                        ttbr0: paging::next_table(pool1, plat, 0),
                        ttbr1: paging::next_table(pool1, plat, 1),
                        tcr: paging::tcr_value(plat, paging::address_size(mmfr0)) as u64,
                        mair: paging::MAIR,
                        sctlr: sctlr | paging::SCTLR_ON,
                    },
                )
                &&& pool2.enabled
                &&& pool2.root1 == paging::next_table(pool1, plat, 1)
            },
        }
    }
}

/// What is said once turning translation on has been tried.
pub open spec fn mmu_text(r: Result<Mmu, MmuError>) -> Seq<u8> {
    match r {
        Ok(_) => earlycon::text("k0: mmu on (identity + higher-half alias)\n"),
        Err(e) => earlycon::text("k0: mmu enable failed, code = ") + earlycon::hex_sent(
            e.number() as u64,
        ) + earlycon::text("\n"),
    }
}

/// Builds the first tables and tells how to turn translation on.
///
/// Where that fails the failure is reported, and the machine must stop.
pub fn enable_mmu(
    con: &mut EarlyCon,
    layout: &KernelLayout,
    pool: &mut Pool,
    m: &mut PhysMem,
    mmfr0: u64,
    sctlr: u64,
) -> (r: Result<Mmu, MmuError>)
    requires
        old(m).wf(),
        old(pool).wf(old(m)),
        layout.in_range(),
    ensures
        final(m).wf(),
        final(m).settled() == old(m).settled(),
        final(m).platform() == old(m).platform(),
        final(pool).wf(final(m)),
        walk::kept(old(m), final(m), &old(pool).tables, &final(pool).tables),
        enabled_for(layout, old(pool), old(m), final(pool), final(m), mmfr0, sctlr, r),
        final(con)@ == old(con)@ + mmu_text(r),
        final(con).same_port(old(con)),
{
    let r = paging::enable_paging(layout, pool, m, mmfr0, sctlr);
    match &r {
        Ok(_) => {
            con.put_str("k0: mmu on (identity + higher-half alias)\n");
        },
        Err(e) => {
            con.put_str("k0: mmu enable failed, code = ");
            con.put_hex(e.code());
            con.put_str("\n");
        },
    }
    assert(con@ =~= old(con)@ + mmu_text(r));
    r
}

/// A part of the layout that could be mapped is visible in the upper half.
proof fn lemma_part_seen(
    layout: &KernelLayout,
    plat: Platform,
    pool: &Pool,
    m: &PhysMem,
    p: int,
)
    requires
        !pool.enabled,
        m.platform() == plat,
        paging::enabling(layout, pool, m).answer is Ok,
        layout.in_range(),
        layout.rw[0].start <= p < layout.rw[0].end,
    ensures
        paging::enabling(layout, pool, m).space.leaves.contains_key(
            (paging::next_table(pool, plat, 1), plat.page(p)),
        ),
{
    let root0 = paging::next_table(pool, plat, 0);
    let root1 = paging::next_table(pool, plat, 1);
    let free = (pool.tables.free() - 2) as nat;
    let reqs = layout.requests(plat, root0, root1);
    let req = reqs[5];
    assert(req.root == root1 && req.pa == layout.rw[0].start && req.va == req.pa
        + abi::KERNEL_VA_OFFSET && req.len == layout.rw[0].end - layout.rw[0].start);
    laws::lemma_request_aligned(plat, m.space(), free, reqs, 5);
    laws::lemma_alias_in_row(plat, req.pa, req.len, p);
    assert(laws::asks(plat, reqs[5], root1, plat.page(p)));
    laws::lemma_requests_map_what_they_ask(plat, m.space(), free, reqs, root1, plat.page(p));
}

/// What is said at the start.
pub open spec fn hello_text(dtb_phys: usize) -> Seq<u8> {
    earlycon::text("k0: entry phase 1 (pre-MMU)\n") + earlycon::text("k0: dtb = ")
        + earlycon::hex_sent(dtb_phys as u64) + earlycon::text("\n")
}

/// What is said of a device tree that is refused at first sight.
pub open spec fn bad_header_text(e: BootError) -> Seq<u8> {
    earlycon::text("k0: dtb header rejected, code = ") + earlycon::hex_sent(e.number() as u64)
        + earlycon::text("\n")
}

/// The first half of the start: finds the extent of the device tree and builds the first
/// tables.
///
/// `head` holds the first bytes at `dtb_phys`. None means that the machine must stop.
/// Otherwise the answer tells how to turn translation on, and the kernel goes on in the
/// upper half.
pub fn kernel_init(
    con: &mut EarlyCon,
    plat: Platform,
    dtb_phys: usize,
    head: &[u8],
    image: &Image,
    pool: &mut Pool,
    m: &mut PhysMem,
    mmfr0: u64,
    sctlr: u64,
) -> (r: Option<Mmu>)
    requires
        head.len() >= 8,
        image.laid_out(plat),
        old(m).wf(),
        old(m).platform() == plat,
        old(m).homes().dom() == Set::<u64>::empty(),
        old(pool).wf(old(m)),
        !old(pool).enabled,
        old(pool).tables.origin() == image.tables,
        fdt::span_size(dtb_phys as int, head@) is Ok ==> dtb_phys + fdt::span_size(
            dtb_phys as int,
            head@,
        )->Ok_0 <= tree::VA_SPAN,
    ensures
        final(con).same_port(old(con)),
        final(m).wf(),
        final(m).settled() == old(m).settled(),
        final(m).platform() == plat,
        final(pool).wf(final(m)),
        r is Some ==> kernel_up(plat, image, final(pool), final(m)),
        match fdt::span_size(dtb_phys as int, head@) {
            Err(e) => {
                &&& r is None
                &&& *final(m) == *old(m)
                &&& *final(pool) == *old(pool)
                &&& final(con)@ == old(con)@ + hello_text(dtb_phys) + bad_header_text(e)
            },
            Ok(size) => exists|layout: KernelLayout, out: Result<Mmu, MmuError>|
                {
                    &&& is_layout(&layout, plat, *image, dtb_phys as int, dtb_phys + size)
                    &&& #[trigger] enabled_for(
                        &layout,
                        old(pool),
                        old(m),
                        final(pool),
                        final(m),
                        mmfr0,
                        sctlr,
                        out,
                    )
                    &&& match out {
                        Ok(mmu) => r == Some(mmu) && final(con)@ == old(con)@ + hello_text(
                            dtb_phys,
                        ) + mmu_text(out) + earlycon::text("k0: jumping to higher half\n"),
                        Err(_) => r is None && final(con)@ == old(con)@ + hello_text(dtb_phys)
                            + mmu_text(out),
                    }
                },
        },
{
    con.put_str("k0: entry phase 1 (pre-MMU)\n");
    con.put_str("k0: dtb = ");
    con.put_hex(dtb_phys as u64);
    con.put_str("\n");
    assert(con@ =~= old(con)@ + hello_text(dtb_phys));
    let dtb = match fdt::dtb_span(dtb_phys, head) {
        Ok(dtb) => dtb,
        Err(e) => {
            con.put_str("k0: dtb header rejected, code = ");
            con.put_hex(e.code());
            con.put_str("\n");
            assert(con@ =~= old(con)@ + hello_text(dtb_phys) + bad_header_text(e));
            return None;
        },
    };
    let layout = kernel_layout(plat, image, &dtb);
    let out = enable_mmu(con, &layout, pool, m, mmfr0, sctlr);
    assert(enabled_for(&layout, old(pool), old(m), pool, m, mmfr0, sctlr, out));
    match out {
        Ok(mmu) => {
            con.put_str("k0: jumping to higher half\n");
            proof {
                lemma_kernel_up(plat, image, &layout, old(pool), old(m), pool, m);
            }
            Some(mmu)
        },
        Err(_) => None,
    }
}

proof fn lemma_kernel_up(
    plat: Platform,
    image: &Image,
    layout: &KernelLayout,
    pool1: &Pool,
    m1: &PhysMem,
    pool2: &Pool,
    m2: &PhysMem,
)
    requires
        image.laid_out(plat),
        m1.platform() == plat,
        m1.homes().dom() == Set::<u64>::empty(),
        pool1.wf(m1),
        !pool1.enabled,
        pool1.tables.origin() == image.tables,
        layout.in_range(),
        layout.rw[0].start == image.data,
        layout.rw[0].end == image.stack_bottom - plat.page_size(),
        m2.wf(),
        m2.platform() == plat,
        pool2.wf(m2),
        pool2.enabled,
        pool2.root1 == paging::next_table(pool1, plat, 1),
        walk::kept(m1, m2, &pool1.tables, &pool2.tables),
        paging::enabling(layout, pool1, m1).answer is Ok,
        m2.space() == paging::enabling(layout, pool1, m1).space,
    ensures
        kernel_up(plat, image, pool2, m2),
{
    pool1.tables.lemma_fresh(plat, 0);
    pool2.tables.lemma_fresh(plat, 0);
    assert forall|t: u64| #[trigger] m2.homes().contains_key(t) implies image.tables <= t
        < pool2.tables.limit() by {
        if m1.homes().contains_key(t) {
            assert(m1.homes().dom().contains(t));
        }
        pool1.tables.lemma_fresh(plat, t);
        let c = pool1.tables.count();
        let g = plat.page_size();
        assert(c * g >= 0) by (nonlinear_arith)
            requires
                c >= 0,
                g > 0,
        ;
    }
    assert(m2.homes().contains_key(pool2.root1));
    assert forall|p: int|
        image.data <= p < image.stack_bottom
            - plat.page_size() implies #[trigger] m2.space().leaves.contains_key(
        (pool2.root1, plat.page(p))) by {
        lemma_part_seen(layout, plat, pool1, m1, p);
    }
    let root0 = paging::next_table(pool1, plat, 0);
    let root1 = paging::next_table(pool1, plat, 1);
    assert(laws::tree_kernel_safe(m1.space(), root1)) by {
        assert(!m1.homes().dom().contains(root1));
    }
    laws::lemma_upper_half_safe(
        plat,
        m1.space(),
        (pool1.tables.free() - 2) as nat,
        layout,
        root0,
        root1,
    );
}

} // verus!
