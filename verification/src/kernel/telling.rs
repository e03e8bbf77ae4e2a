//! Laws of what the kernel tells of its start.
use vstd::prelude::*;

use crate::arch::earlycon;
use crate::boot::fdt::{BootError, MemRegion};
use crate::cap::Cap;
use crate::kernel::init;
use crate::kernel::report;
use crate::mm::mem::PhysMem;
use crate::mm::paging::{self, KernelLayout, Mmu, MmuError, Pool};
use crate::mm::walk::TableSource;

verus! {

/// Every region has a line, in order: the label, where it starts and how long it is.
pub proof fn lemma_region_lines(label: &str, before: Seq<MemRegion>, r: MemRegion)
    ensures
        report::region_lines(label, before.push(r)) == report::region_lines(label, before)
            + earlycon::text(label) + earlycon::short_hex_sent(r.base) + earlycon::text(" + ")
            + earlycon::short_hex_sent(r.size) + earlycon::text("\n"),
        report::region_lines(label, Seq::empty()) == Seq::<u8>::empty(),
{
    assert(before.push(r).drop_last() =~= before);
    assert(report::region_lines(label, before.push(r)) =~= report::region_lines(label, before)
        + earlycon::text(label) + earlycon::short_hex_sent(r.base) + earlycon::text(" + ")
        + earlycon::short_hex_sent(r.size) + earlycon::text("\n"));
}

/// Untyped capabilities are counted and have a line each, and no others.
pub proof fn lemma_untyped_lines(before: Seq<Cap>, c: Cap)
    ensures
        !(c is Untyped) ==> report::untyped_lines(before.push(c)) == report::untyped_lines(before)
            && report::untyped_count(before.push(c)) == report::untyped_count(before),
        c is Untyped ==> report::untyped_count(before.push(c)) == report::untyped_count(before) + 1,
        c is Untyped ==> report::untyped_lines(before.push(c)) == report::untyped_lines(before)
            + earlycon::text("k0: untyped ") + earlycon::short_hex_sent(c->Untyped_base)
            + earlycon::text(" + ") + earlycon::short_hex_sent(c->size) + earlycon::text("\n"),
        report::untyped_lines(Seq::empty()) == Seq::<u8>::empty(),
        report::untyped_count(Seq::empty()) == 0,
{
    assert(before.push(c).drop_last() =~= before);
    if c is Untyped {
        assert(report::untyped_lines(before.push(c)) =~= report::untyped_lines(before)
            + earlycon::text("k0: untyped ") + earlycon::short_hex_sent(c->Untyped_base)
            + earlycon::text(" + ") + earlycon::short_hex_sent(c->size) + earlycon::text("\n"));
    }
}

/// The code of a failure tells which it was.
pub proof fn lemma_codes_tell(a: MmuError, b: MmuError, c: BootError, d: BootError)
    ensures
        a.number() == b.number() ==> a == b,
        c.number() == d.number() ==> c == d,
{
}

/// Translation is turned on with the first two unused tables, one for each half, where
/// the processor has the page size, and refused with nothing done where it has not.
pub proof fn lemma_turned_on(
    layout: &KernelLayout,
    pool1: &Pool,
    m1: &PhysMem,
    pool2: &Pool,
    m2: &PhysMem,
    mmfr0: u64,
    sctlr: u64,
    r: Result<Mmu, MmuError>,
)
    requires
        init::enabled_for(layout, pool1, m1, pool2, m2, mmfr0, sctlr, r),
    ensures
        ({
            let plat = m1.platform();
            let g = plat.page_size();
            let first = pool1.tables.origin() + pool1.tables.count() * g;
            &&& !paging::granule_supported(plat, mmfr0) ==> r == Err::<Mmu, MmuError>(
                MmuError::GranuleUnsupported,
            ) && *pool2 == *pool1 && m2.space() == m1.space()
            &&& r is Ok ==> {
                &&& !pool1.enabled
                &&& pool2.enabled
                &&& pool1.tables.free() >= 2
                &&& r->Ok_0.ttbr0 == first as u64
                &&& r->Ok_0.ttbr1 == (first + g) as u64
                &&& pool2.root1 == (first + g) as u64
                &&& r->Ok_0.mair == 0x4FF
                &&& forall|b: u64|
                    b < 64 ==> #[trigger] (r->Ok_0.sctlr >> b) % 2 == (if b == 0 || b == 2 || b == 12
                        || b == 19 {
                        1
                    } else {
                        (sctlr >> b) % 2
                    })
            }
        }),
{
    let g = m1.platform().page_size();
    let c = pool1.tables.count();
    assert((c + 1) * g == c * g + g && (c + 0) * g == c * g) by (nonlinear_arith);
    let on = sctlr | paging::SCTLR_ON;
    assert(forall|b: u64|
        b < 64 ==> #[trigger] (on >> b) % 2 == (if b == 0 || b == 2 || b == 12 || b == 19 {
            1u64
        } else {
            (sctlr >> b) % 2
        })) by (bit_vector)
        requires
            on == sctlr | 0x8_1005u64,
    ;
}

} // verus!
