//! What mapping and its registers come to, address by address.
use vstd::prelude::*;

use crate::kernel::effects::{self, page_of};
use crate::mm::laws;
use crate::mm::mem::PhysMem;
use crate::mm::paging::{self, KernelLayout, MmuError, Perm, Pool, Request};
use crate::mm::tree::{self, Space};
use crate::mm::user::{self, UserPerm};
use crate::mm::walk::{self, TableSource};
use crate::platform::Platform;

verus! {

/// Whether the address of a page lies in a range.
pub open spec fn within(plat: Platform, page: int, start: int, end: int) -> bool {
    start <= page * plat.page_size() < end
}

/// Whether a page leads to the frame at an address as the kernel sees code, constants,
/// data and devices.
pub open spec fn kernel_page(plat: Platform, desc: u64, pa: int, perm: Perm) -> bool {
    match perm {
        Perm::Text => page_of(plat, desc, pa as u64, 2, false, true),
        Perm::Ro => page_of(plat, desc, pa as u64, 2, true, true),
        Perm::Rw => page_of(plat, desc, pa as u64, 0, true, true),
        Perm::Device => desc == pa + 0x60_0000_0000_0607,
    }
}

/// The place of a page in a row of pages.
proof fn lemma_place(plat: Platform, start: int, len: int, page: int)
    requires
        start % plat.page_size() == 0,
        len % plat.page_size() == 0,
        0 <= start,
        start + len <= tree::VA_SPAN,
        within(plat, page, start, start + len),
    ensures
        ({
            let g = plat.page_size();
            let k = page - start / g;
            &&& 0 <= k < len / g
            &&& start + k * g == page * g
            &&& plat.page(start + k * g) == page
            &&& plat.page(start + 0xFFFF_0000_0000_0000 + k * g) == page
            &&& plat.table_addr((page * g) as u64)
        }),
{
    let g = plat.page_size();
    let k = page - start / g;
    laws::lemma_whole_pages(plat, start);
    assert(k * g == page * g - start) by (nonlinear_arith)
        requires
            k == page - start / g,
            start / g * g == start,
    ;
    vstd::arithmetic::div_mod::lemma_fundamental_div_mod(len, g);
    assert(0 <= k < len / g) by (nonlinear_arith)
        requires
            0 <= k * g < len,
            len == g * (len / g),
            g > 0,
    ;
    vstd::arithmetic::div_mod::lemma_div_by_multiple(page, g);
    vstd::arithmetic::div_mod::lemma_mod_multiples_basic(page, g);
    laws::lemma_alias_is_linear(plat, page * g);
    assert(start + 0xFFFF_0000_0000_0000 + k * g == page * g + 0xFFFF_0000_0000_0000);
}

/// A range that has been mapped leads page by page to the frames in a row, in the way that
/// was asked for, whatever is mapped later.
proof fn lemma_request_shows(
    plat: Platform,
    s: Space,
    free: nat,
    reqs: Seq<Request>,
    i: int,
    k: int,
)
    requires
        paging::map_requests(plat, s, free, reqs).answer is Ok,
        0 <= i < reqs.len(),
        reqs[i].len > 0,
        0 <= k < reqs[i].len / plat.page_size(),
    ensures
        ({
            let after = paging::map_requests(plat, s, free, reqs).space;
            let page = plat.page(reqs[i].va + k * plat.page_size());
            &&& after.leaves.contains_key((reqs[i].root, page))
            &&& after.leaves[(reqs[i].root, page)] == ((reqs[i].pa + k * plat.page_size()) as u64)
                | reqs[i].attrs
        }),
    decreases reqs.len(),
{
    let before = paging::map_requests(plat, s, free, reqs.drop_last());
    let req = reqs.last();
    if req.len > 0 {
        laws::lemma_mapped_row_translates(
            plat,
            before.space,
            before.free,
            MmuError::OutOfTables,
            req.root,
            req.va,
            req.pa,
            req.attrs,
            (req.len / plat.page_size()) as nat,
        );
    }
    if i < reqs.len() - 1 {
        lemma_request_shows(plat, s, free, reqs.drop_last(), i, k);
    } else {
        assert(plat.page(req.va + k * plat.page_size()) == plat.page(
            reqs[i].va + k * plat.page_size(),
        ));
    }
}

/// Whether both halves lead a page to its own address with a permission.
pub open spec fn both_show(plat: Platform, s: Space, root0: u64, root1: u64, page: int, perm: Perm) -> bool {
    let pa = page * plat.page_size();
    &&& s.leaves.contains_key((root0, page))
    &&& kernel_page(plat, s.leaves[(root0, page)], pa, perm)
    &&& s.leaves.contains_key((root1, page))
    &&& kernel_page(plat, s.leaves[(root1, page)], pa, perm)
}

proof fn lemma_part_shows(
    plat: Platform,
    s: Space,
    free: nat,
    reqs: Seq<Request>,
    i: int,
    root0: u64,
    root1: u64,
    start: int,
    end: int,
    perm: Perm,
    page: int,
)
    requires
        paging::map_requests(plat, s, free, reqs).answer is Ok,
        0 <= i,
        i + 1 < reqs.len(),
        reqs[i] == paging::both_halves(root0, root1, start, end, perm)[0],
        reqs[i + 1] == paging::both_halves(root0, root1, start, end, perm)[1],
        0 <= start,
        end <= tree::VA_SPAN,
        within(plat, page, start, end),
    ensures
        both_show(
            plat,
            paging::map_requests(plat, s, free, reqs).space,
            root0,
            root1,
            page,
            perm,
        ),
{
    let g = plat.page_size();
    laws::lemma_request_aligned(plat, s, free, reqs, i);
    lemma_place(plat, start, end - start, page);
    let k = page - start / g;
    lemma_request_shows(plat, s, free, reqs, i, k);
    lemma_request_shows(plat, s, free, reqs, i + 1, k);
    effects::lemma_permissions(plat, (page * g) as u64);
}

/// Once translation is on, every page of the kernel image, of the device tree and of the
/// devices is where it is in memory, in the lower half, and at the offset of the kernel in
/// the upper half: code can be executed and not written, constants and the device tree can
/// be read, data can be read and written, and devices are devices. The user reaches none.
pub proof fn lemma_kernel_map(
    plat: Platform,
    s: Space,
    free: nat,
    layout: &KernelLayout,
    root0: u64,
    root1: u64,
    page: int,
)
    requires
        layout.text.end <= 0x1_0000_0000_0000,
        layout.rodata.end <= 0x1_0000_0000_0000,
        layout.rw[0].end <= 0x1_0000_0000_0000,
        layout.rw[1].end <= 0x1_0000_0000_0000,
        layout.dtb.start < layout.dtb.end <= 0x1_0000_0000_0000,
        layout.devices[0].end <= 0x1_0000_0000_0000,
        layout.devices[1].end <= 0x1_0000_0000_0000,
        layout.devices[2].end <= 0x1_0000_0000_0000,
        paging::map_requests(plat, s, free, layout.requests(plat, root0, root1)).answer is Ok,
    ensures
        ({
            let after = paging::map_requests(
                plat,
                s,
                free,
                layout.requests(plat, root0, root1),
            ).space;
            let g = plat.page_size();
            let shows = |perm: Perm| both_show(plat, after, root0, root1, page, perm);
            let part = |start: u64, end: u64| within(plat, page, start as int, end as int);
            &&& part(layout.text.start, layout.text.end) ==> shows(Perm::Text)
            &&& part(layout.rodata.start, layout.rodata.end) ==> shows(Perm::Ro)
            &&& part(layout.rw[0].start, layout.rw[0].end) ==> shows(Perm::Rw)
            &&& part(layout.rw[1].start, layout.rw[1].end) ==> shows(Perm::Rw)
            &&& page * g < layout.dtb.end && layout.dtb.start < page * g + g ==> shows(Perm::Ro)
            &&& part(layout.devices[0].start, layout.devices[0].end) ==> shows(Perm::Device)
            &&& part(layout.devices[1].start, layout.devices[1].end) ==> shows(Perm::Device)
            &&& part(layout.devices[2].start, layout.devices[2].end) ==> shows(Perm::Device)
        }),
{
    let g = plat.page_size();
    let reqs = layout.requests(plat, root0, root1);
    let d0 = paging::page_floor(plat, layout.dtb.start as int);
    let d1 = paging::page_ceil(plat, layout.dtb.end as int);
    let text = (layout.text.start as int, layout.text.end as int);
    let ro = (layout.rodata.start as int, layout.rodata.end as int);
    let rw0 = (layout.rw[0].start as int, layout.rw[0].end as int);
    let rw1 = (layout.rw[1].start as int, layout.rw[1].end as int);
    let v0 = (layout.devices[0].start as int, paging::device_end(layout.devices[0]));
    let v1 = (layout.devices[1].start as int, paging::device_end(layout.devices[1]));
    let v2 = (layout.devices[2].start as int, paging::device_end(layout.devices[2]));
    if within(plat, page, text.0, text.1) {
        lemma_part_shows(plat, s, free, reqs, 0, root0, root1, text.0, text.1, Perm::Text, page);
    }
    if within(plat, page, ro.0, ro.1) {
        lemma_part_shows(plat, s, free, reqs, 2, root0, root1, ro.0, ro.1, Perm::Ro, page);
    }
    if within(plat, page, rw0.0, rw0.1) {
        lemma_part_shows(plat, s, free, reqs, 4, root0, root1, rw0.0, rw0.1, Perm::Rw, page);
    }
    if within(plat, page, rw1.0, rw1.1) {
        lemma_part_shows(plat, s, free, reqs, 6, root0, root1, rw1.0, rw1.1, Perm::Rw, page);
    }
    if page * g < layout.dtb.end && layout.dtb.start < page * g + g {
        lemma_widened(plat, layout.dtb.start as int, layout.dtb.end as int, page);
        lemma_part_shows(plat, s, free, reqs, 8, root0, root1, d0, d1, Perm::Ro, page);
    }
    if within(plat, page, layout.devices[0].start as int, layout.devices[0].end as int) {
        lemma_part_shows(plat, s, free, reqs, 10, root0, root1, v0.0, v0.1, Perm::Device, page);
    }
    if within(plat, page, layout.devices[1].start as int, layout.devices[1].end as int) {
        lemma_part_shows(plat, s, free, reqs, 12, root0, root1, v1.0, v1.1, Perm::Device, page);
    }
    if within(plat, page, layout.devices[2].start as int, layout.devices[2].end as int) {
        lemma_part_shows(plat, s, free, reqs, 14, root0, root1, v2.0, v2.1, Perm::Device, page);
    }
}

/// Widening a range to whole pages takes in every page that has a byte of it, and no
/// other.
pub proof fn lemma_widened(plat: Platform, start: int, end: int, page: int)
    requires
        0 <= start < end <= 0x1_0000_0000_0000,
    ensures
        ({
            let g = plat.page_size();
            let a = paging::page_floor(plat, start);
            let b = paging::page_ceil(plat, end);
            &&& 0 <= a && b <= 0x1_0000_0000_0000
            &&& within(plat, page, a, b) <==> page * g < end && start < page * g + g
        }),
{
    let a = paging::page_floor(plat, start);
    let b = paging::page_ceil(plat, end);
    match plat {
        Platform::Virt => {
            let (q, r) = (start / 4096, (end + 4095) / 4096);
            assert(a == q * 4096 && q * 4096 <= start < q * 4096 + 4096);
            assert(b == r * 4096 && r * 4096 - 4096 < end <= r * 4096);
        },
        Platform::Apple => {
            let (q, r) = (start / 16384, (end + 16383) / 16384);
            assert(a == q * 16384 && q * 16384 <= start < q * 16384 + 16384);
            assert(b == r * 16384 && r * 16384 - 16384 < end <= r * 16384);
        },
    }
}

/// The window of memory that the kernel opens is there page by page in the upper half, read
/// and written but not executed, and nothing else changes. It is refused where translation
/// is off, and where it is empty or not made of whole pages.
pub proof fn lemma_window(pool: &Pool, m: &PhysMem, start: int, end: int)
    requires
        0 <= start,
        end <= 0x1_0000_0000_0000,
    ensures
        ({
            let plat = m.platform();
            let g = plat.page_size();
            let a = paging::window_mapped(pool, m, start, end);
            let whole = start < end && start % g == 0 && end % g == 0;
            &&& !whole ==> a.answer == Err::<(), MmuError>(MmuError::Misaligned) && a.space
                == m.space()
            &&& whole && !pool.enabled ==> a.answer == Err::<(), MmuError>(MmuError::NotEnabled)
                && a.space == m.space()
            &&& a.answer is Ok ==> {
                &&& forall|page: int|
                    #![trigger within(plat, page, start, end)]
                    within(plat, page, start, end) ==> {
                        &&& a.space.leaves.contains_key((pool.root1, page))
                        &&& kernel_page(
                            plat,
                            a.space.leaves[(pool.root1, page)],
                            page * g,
                            Perm::Rw,
                        )
                    }
                &&& forall|r: u64, page: int|
                    #![trigger a.space.leaves.contains_key((r, page))]
                    r != pool.root1 ==> (a.space.leaves.contains_key((r, page))
                        <==> m.space().leaves.contains_key((r, page)))
                &&& laws::keeps(m.space(), a.space)
            }
        }),
{
    let plat = m.platform();
    let g = plat.page_size();
    let a = paging::window_mapped(pool, m, start, end);
    if a.answer is Ok {
        let n = ((end - start) / g) as nat;
        let va = start + 0xFFFF_0000_0000_0000;
        vstd::arithmetic::div_mod::lemma_sub_mod_noop(end, start, g);
        laws::lemma_mapped_row_translates(
            plat,
            m.space(),
            pool.tables.free(),
            MmuError::OutOfTables,
            pool.root1,
            va,
            start,
            Perm::Rw.bits(),
            n,
        );
        assert forall|page: int|
            #![trigger within(plat, page, start, end)]
            within(plat, page, start, end) implies {
            &&& a.space.leaves.contains_key((pool.root1, page))
            &&& kernel_page(plat, a.space.leaves[(pool.root1, page)], page * g, Perm::Rw)
        } by {
            lemma_place(plat, start, end - start, page);
            let k = page - start / g;
            assert(a.space.leaves.contains_key((pool.root1, plat.page(va + k * g))));
            effects::lemma_permissions(plat, (page * g) as u64);
        }
    }
}

/// Mapping a range in user space: it must be made of whole pages, not be empty, leave out
/// the first page and end within 48 bits, and no page of it may be mapped. Then each page
/// leads to the frame at the same distance from the start, with the permission that was
/// asked for, and no other page changes.
pub proof fn lemma_user_range(
    plat: Platform,
    s: Space,
    free: nat,
    root: u64,
    va: int,
    pa: int,
    len: int,
    perm: UserPerm,
    page: int,
)
    requires
        0 <= va,
        0 <= pa,
        0 <= len,
        pa + len <= 0x1_0000_0000_0000,
    ensures
        ({
            let g = plat.page_size();
            let a = user::user_mapped(plat, s, free, root, va, pa, len, perm);
            let whole = va % g == 0 && pa % g == 0 && len % g == 0 && len > 0;
            let low = va < g;
            let high = va + len > 0x1_0000_0000_0000;
            &&& !whole ==> a.answer == Err::<(), MmuError>(MmuError::Misaligned)
            &&& whole && low ==> a.answer == Err::<(), MmuError>(MmuError::NullPage)
            &&& whole && !low && high ==> a.answer == Err::<(), MmuError>(MmuError::Misaligned)
            &&& !whole || low || high ==> a.space == s && a.free == free
            &&& a.answer is Ok && within(plat, page, va, va + len) ==> {
                &&& !s.leaves.contains_key((root, page))
                &&& a.space.leaves.contains_key((root, page))
                &&& user_page(plat, a.space.leaves[(root, page)], pa + (page * g - va), perm)
            }
            &&& a.answer is Ok && !within(plat, page, va, va + len) ==> {
                &&& a.space.leaves.contains_key((root, page)) <==> s.leaves.contains_key(
                    (root, page),
                )
                &&& s.leaves.contains_key((root, page)) ==> a.space.leaves[(root, page)]
                    == s.leaves[(root, page)]
            }
            &&& a.answer is Ok ==> forall|r: u64, q: int|
                #![trigger a.space.leaves.contains_key((r, q))]
                r != root ==> (a.space.leaves.contains_key((r, q)) <==> s.leaves.contains_key(
                    (r, q),
                ))
        }),
{
    let g = plat.page_size();
    let a = user::user_mapped(plat, s, free, root, va, pa, len, perm);
    if a.answer is Ok {
        let n = (len / g) as nat;
        laws::lemma_mapped_row_translates(
            plat,
            s,
            free,
            MmuError::OutOfFrames,
            root,
            va,
            pa,
            perm.bits(),
            n,
        );
        if within(plat, page, va, va + len) {
            lemma_place(plat, va, len, page);
            let k = page - va / g;
            assert(a.space.leaves.contains_key((root, plat.page(va + k * g))));
            lemma_at_distance(plat, pa, k, len);
            effects::lemma_permissions(plat, (pa + k * g) as u64);
        } else if laws::in_row(plat, va, n, page) {
            let k = choose|k: int| 0 <= k < n && #[trigger] plat.page(va + k * g) == page;
            laws::lemma_whole_pages(plat, len);
            laws::lemma_row_frame(plat, va, n, k);
            laws::lemma_whole_pages(plat, va + k * g);
        }
    }
}

/// A frame at whole pages from another can be one.
proof fn lemma_at_distance(plat: Platform, pa: int, k: int, len: int)
    requires
        0 <= pa,
        pa % plat.page_size() == 0,
        len % plat.page_size() == 0,
        0 <= k < len / plat.page_size(),
        pa + len <= 0x1_0000_0000_0000,
    ensures
        plat.table_addr((pa + k * plat.page_size()) as u64),
        0 <= pa + k * plat.page_size() < 0x1_0000_0000_0000,
{
    laws::lemma_whole_pages(plat, len);
    laws::lemma_row_frame(plat, pa, (len / plat.page_size()) as nat, k);
}

/// Whether a page leads to a frame as the user sees code, constants and data: all can be
/// read, data alone can be written and code alone can be executed.
pub open spec fn user_page(plat: Platform, desc: u64, pa: int, perm: UserPerm) -> bool {
    match perm {
        UserPerm::TextUser => page_of(plat, desc, pa as u64, 3, true, false),
        UserPerm::RoUser => page_of(plat, desc, pa as u64, 3, true, true),
        UserPerm::RwUser => page_of(plat, desc, pa as u64, 1, true, true),
    }
}

/// One page is mapped exactly where it was free and no more tables are missing on the way
/// than there are left; those are then made, and nothing else changes. A page that was
/// mapped stays as it is.
pub proof fn lemma_one_page(
    plat: Platform,
    s: Space,
    free: nat,
    empty: MmuError,
    root: u64,
    page: int,
    desc: u64,
)
    ensures
        ({
            let a = walk::map_one(plat, s, free, empty, root, page, desc);
            let n = plat.table_len();
            let there = |level: int, place: int| s.nodes.contains((root, level, place));
            let need: int = if there(3, page / n) {
                0
            } else if there(2, page / n / n) {
                1
            } else if there(1, page / n / n / n) {
                2
            } else {
                3
            };
            let mapped = s.leaves.contains_key((root, page));
            &&& mapped ==> a.answer == Err::<(), MmuError>(MmuError::Overlap) && a.space == s
                && a.free == free
            &&& !mapped && need > free ==> a.answer == Err::<(), MmuError>(empty) && a.free == 0
                && a.space.leaves == s.leaves
            &&& !mapped && need <= free ==> {
                &&& a.answer is Ok
                &&& a.free == free - need
                &&& a.space.leaves == s.leaves.insert((root, page), desc)
                &&& a.space.nodes.contains((root, 3, page / n))
                &&& forall|m: (u64, int, int)| #[trigger]
                    s.nodes.contains(m) ==> a.space.nodes.contains(m)
            }
        }),
{
    reveal_with_fuel(Platform::prefix, 4);
}

/// The registers that turn translation on: 48 address bits in each half, table walks
/// through the caches, the page size in the code that each half has for it, and the
/// physical address size; memory attributes 0 for memory and 1 for devices; and the bits
/// that switch on translation (0), the caches (2 and 12) and the ban on executing what can
/// be written (19).
#[verifier::spinoff_prover]
#[verifier::rlimit(50)]
pub proof fn lemma_registers(plat: Platform, ips: u64)
    requires
        ips <= 5,
    ensures
        ({
            let v = paging::tcr_value(plat, ips);
            let f = |low: int, bits: int| v / low % bits;
            &&& f(1, 0x40) == 16
            &&& f(0x100, 4) == 1 && f(0x400, 4) == 1 && f(0x1000, 4) == 3
            &&& f(0x4000, 4) == (if plat == Platform::Virt {
                0int
            } else {
                2
            })
            &&& f(0x1_0000, 0x40) == 16
            &&& f(0x100_0000, 4) == 1 && f(0x400_0000, 4) == 1 && f(0x1000_0000, 4) == 3
            &&& f(0x4000_0000, 4) == (if plat == Platform::Virt {
                2int
            } else {
                1
            })
            &&& f(0x1_0000_0000, 8) == ips
            &&& f(0x40, 4) == 0 && f(0x40_0000, 4) == 0
            &&& v / 0x8_0000_0000 == 0
        }),
        paging::MAIR == 0xFF + 0x100 * 4,
        paging::SCTLR_ON == 1 + 4 + 0x1000 + 0x8_0000,
        tree::VA_SPAN == 0x1_0000_0000_0000,
{
}

/// The feature register tells which page sizes there are, in the 4 bits from 28 on for 4 KiB
/// (0 or 1) and from 20 on for 16 KiB (1 or 2), and the address size in its lowest 4 bits,
/// of which no more than the code for 48 bits (5) is used.
pub proof fn lemma_features(plat: Platform, mmfr0: u64)
    ensures
        ({
            let small = mmfr0 as int / 0x1000_0000 % 16;
            let large = mmfr0 as int / 0x10_0000 % 16;
            let size = mmfr0 as int % 16;
            &&& paging::granule_supported(Platform::Virt, mmfr0) <==> small == 0 || small == 1
            &&& paging::granule_supported(Platform::Apple, mmfr0) <==> large == 1 || large == 2
            &&& size <= 5 ==> paging::address_size(mmfr0) == size
            &&& size > 5 ==> paging::address_size(mmfr0) == 5
        }),
{
    assert((mmfr0 >> 28) & 0xF == mmfr0 / 0x1000_0000 % 16 && (mmfr0 >> 20) & 0xF == mmfr0
        / 0x10_0000 % 16 && mmfr0 & 0xF == mmfr0 % 16) by (bit_vector);
}

/// Turning translation on: it is refused where it is on, and where there are no two tables
/// to start with, for the lower and the upper half. They are the first two that are not in
/// use.
pub proof fn lemma_enabling(layout: &KernelLayout, pool: &Pool, m: &PhysMem)
    ensures
        ({
            let a = paging::enabling(layout, pool, m);
            let plat = m.platform();
            let g = plat.page_size();
            let first = pool.tables.origin() + pool.tables.count() * g;
            &&& pool.enabled ==> a.answer == Err::<(), MmuError>(MmuError::AlreadyEnabled)
                && a.space == m.space()
            &&& !pool.enabled && pool.tables.free() < 2 ==> a.answer == Err::<(), MmuError>(
                MmuError::OutOfTables,
            ) && a.space == m.space()
            &&& !pool.enabled && pool.tables.free() >= 2 ==> a == paging::map_requests(
                plat,
                m.space(),
                (pool.tables.free() - 2) as nat,
                layout.requests(plat, first as u64, (first + g) as u64),
            )
        }),
{
    let g = m.platform().page_size();
    let c = pool.tables.count();
    assert((c + 1) * g == c * g + g && (c + 0) * g == c * g) by (nonlinear_arith);
}

} // verus!
