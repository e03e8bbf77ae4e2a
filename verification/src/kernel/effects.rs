//! What each system call asks for, answers and changes, in terms of what it is given.
use vstd::prelude::*;

use crate::arch::earlycon;
use crate::arch::irq::{self, IrqEvent};
use crate::arch::laws as arch_laws;
use crate::cap::Cap;
use crate::ipc::effects::{self, answer_set, full, handed_over, same_place};
use crate::kernel::{KernelView, Outcome};
use crate::mm::laws;
use crate::mm::paging::Perm;
use crate::mm::user::UserPerm;
use crate::mm::walk;
use crate::platform::Platform;
use crate::task::TaskState;

verus! {

/// Where the kernel sees the object at a physical address.
pub open spec fn seen_at(base: u64) -> u64 {
    (base + 0xFFFF_0000_0000_0000) as u64
}

/// The first address behind the range that a tree translates: 2 to the power of 48.
pub open spec fn top() -> int {
    0x1_0000_0000_0000
}

/// A number as the fields of a descriptor: `bits` bits from `low` on, where `low` is given
/// as the power of two that it stands for.
pub open spec fn field(desc: u64, low: int, bits: int) -> int {
    desc as int / low % bits
}

/// Whether a descriptor leads to the frame at `pa`, as a page of normal memory that has
/// been made accessible, with the given access and execution rights. The access field is 0
/// where only the kernel reads and writes, 1 where the user does too, and 2 and 3 are the
/// same without writing.
pub open spec fn page_of(plat: Platform, desc: u64, pa: u64, access: int, no_kernel: bool, no_user: bool) -> bool {
    &&& desc as int % 0x1000 == 0x703 + access * 0x40
    &&& (desc as int / 0x1000 * 0x1000) % top() == pa
    &&& field(desc, 0x20_0000_0000_0000, 2) == (if no_kernel {
        1int
    } else {
        0
    })
    &&& field(desc, 0x40_0000_0000_0000, 2) == (if no_user {
        1int
    } else {
        0
    })
    &&& desc as int / 0x80_0000_0000_0000 == 0
    &&& field(desc, 0x1_0000_0000_0000, 0x20) == 0
}

/// The bits of each permission, for user pages and for pages of the kernel.
pub proof fn lemma_permission_bits()
    ensures
        UserPerm::TextUser.bits() == 0x20_0000_0000_07C3,
        UserPerm::RoUser.bits() == 0x60_0000_0000_07C3,
        UserPerm::RwUser.bits() == 0x60_0000_0000_0743,
        Perm::Text.bits() == 0x40_0000_0000_0783,
        Perm::Ro.bits() == 0x60_0000_0000_0783,
        Perm::Rw.bits() == 0x60_0000_0000_0703,
        Perm::Device.bits() == 0x60_0000_0000_0607,
{
    assert(0b11u64 | 0x400 | 0x300 | 0xC0 | 0 | 0x20_0000_0000_0000 == 0x20_0000_0000_07C3
        && 0b11u64 | 0x400 | 0x300 | 0xC0 | 0 | 0x40_0000_0000_0000 | 0x20_0000_0000_0000
        == 0x60_0000_0000_07C3 && 0b11u64 | 0x400 | 0x300 | 0x40 | 0 | 0x40_0000_0000_0000
        | 0x20_0000_0000_0000 == 0x60_0000_0000_0743 && 0b11u64 | 0x400 | 0x300 | 0x80 | 0
        | 0x40_0000_0000_0000 == 0x40_0000_0000_0783 && 0b11u64 | 0x400 | 0x300 | 0x80 | 0
        | 0x40_0000_0000_0000 | 0x20_0000_0000_0000 == 0x60_0000_0000_0783 && 0b11u64 | 0x400
        | 0x300 | 0 | 0 | 0x40_0000_0000_0000 | 0x20_0000_0000_0000 == 0x60_0000_0000_0703
        && 0b11u64 | 0x400 | 0x200 | 0 | 4 | 0x40_0000_0000_0000 | 0x20_0000_0000_0000
        == 0x60_0000_0000_0607) by (bit_vector);
}

/// A descriptor is the address of the frame and the bits of the permission, side by side.
pub proof fn lemma_side_by_side(plat: Platform, pa: u64, bits: u64)
    requires
        plat.table_addr(pa),
        bits % 0x80_0000_0000_0000 == bits,
        (bits / 0x1000) % 0x10_0000_0000 == 0,
    ensures
        pa | bits == pa + bits,
{
    assert(pa % 4096 == 0) by {
        match plat {
            Platform::Virt => {},
            Platform::Apple => {},
        }
    }
    assert(pa | bits == pa + bits) by (bit_vector)
        requires
            pa < 0x1_0000_0000_0000,
            pa % 4096 == 0,
            bits % 0x80_0000_0000_0000 == bits,
            (bits / 0x1000) % 0x10_0000_0000 == 0,
    ;
}

/// What a permission lets the user and the kernel do with a page: the kernel executes no
/// user page, the user writes only where it does not execute, and no page of the kernel is
/// open to the user.
pub proof fn lemma_permissions(plat: Platform, pa: u64)
    requires
        plat.table_addr(pa),
    ensures
        page_of(plat, pa | UserPerm::TextUser.bits(), pa, 3, true, false),
        page_of(plat, pa | UserPerm::RoUser.bits(), pa, 3, true, true),
        page_of(plat, pa | UserPerm::RwUser.bits(), pa, 1, true, true),
        page_of(plat, pa | Perm::Text.bits(), pa, 2, false, true),
        page_of(plat, pa | Perm::Ro.bits(), pa, 2, true, true),
        page_of(plat, pa | Perm::Rw.bits(), pa, 0, true, true),
        pa | Perm::Device.bits() == pa + 0x60_0000_0000_0607,
{
    lemma_permission_bits();
    lemma_side_by_side(plat, pa, UserPerm::TextUser.bits());
    lemma_side_by_side(plat, pa, UserPerm::RoUser.bits());
    lemma_side_by_side(plat, pa, UserPerm::RwUser.bits());
    lemma_side_by_side(plat, pa, Perm::Text.bits());
    lemma_side_by_side(plat, pa, Perm::Ro.bits());
    lemma_side_by_side(plat, pa, Perm::Rw.bits());
    lemma_side_by_side(plat, pa, Perm::Device.bits());
    assert(pa as int % 4096 == 0) by {
        match plat {
            Platform::Virt => {},
            Platform::Apple => {},
        }
    }
}

/// The console shows the lowest byte of what it is given: a printable character as it is,
/// a newline with a carriage return before it, and a question mark for anything else. Only
/// the owner of the console can write; nothing else than the text changes.
pub proof fn lemma_putc(k: KernelView, slot: u64, byte: u64)
    ensures
        ({
            let (r, answer) = k.putc(slot, byte);
            let low = byte as int % 0x100;
            &&& answer == 0 <==> slot < k.caps.len() && k.caps[slot as int] is Console
            &&& answer == -1 <==> slot >= k.caps.len()
            &&& answer == -12 <==> slot < k.caps.len() && !(k.caps[slot as int] is Console)
            &&& answer != 0 ==> r == k
            &&& r == (KernelView { out: r.out, ..k })
            &&& answer == 0 && 0x20 <= low < 0x7F ==> r.out == k.out.push(low as u8)
            &&& answer == 0 && low == 0x0A ==> r.out == k.out.push(0x0D).push(0x0A)
            &&& answer == 0 && low != 0x0A && !(0x20 <= low < 0x7F) ==> r.out == k.out.push(0x3F)
        }),
{
    assert(byte as u8 == byte % 0x100) by (bit_vector);
    let b = byte as u8;
    let r = k.putc(slot, byte).0;
    if slot < k.caps.len() && k.caps[slot as int] is Console {
        assert(k.out + seq![b] =~= k.out.push(b));
        assert(k.out + seq![0x3Fu8] =~= k.out.push(0x3F));
        assert(k.out + seq![0x0Du8, 0x0Au8] =~= k.out.push(0x0D).push(0x0A));
    }
}

/// A task can be configured exactly where its entry point is a multiple of 4 behind the
/// first page and below 2 to the power of 48, its stack top is a multiple of 16 behind the
/// first page and not above, the slots name an address space and a task, and the task has
/// not been configured before. Then it starts at the entry point with that stack in that
/// address space, every other register 0, and waits to be resumed. Nothing else changes.
pub proof fn lemma_configure(k: KernelView, slot: u64, entry: u64, stack: u64, aspace: u64)
    ensures
        ({
            let g = k.plat.page_size();
            let (r, answer) = k.configured(slot, entry, stack, aspace);
            let good = entry as int % 4 == 0 && g <= entry < top() && stack as int % 16 == 0 && g
                <= stack <= top();
            let n = k.caps.len();
            let t = seen_at(k.caps[slot as int]->Tcb_base);
            &&& answer == 0 <==> {
                &&& good
                &&& aspace < n && k.caps[aspace as int] is AddrSpace
                &&& slot < n && k.caps[slot as int] is Tcb
                &&& k.sys.tasks[t].state == TaskState::Inactive
            }
            &&& !good ==> answer == -6
            &&& good && aspace >= n ==> answer == -1
            &&& good && aspace < n && !(k.caps[aspace as int] is AddrSpace) ==> answer == -12
            &&& good && aspace < n && k.caps[aspace as int] is AddrSpace ==> {
                &&& slot >= n ==> answer == -1
                &&& slot < n && !(k.caps[slot as int] is Tcb) ==> answer == -12
                &&& slot < n && k.caps[slot as int] is Tcb && k.sys.tasks[t].state
                    != TaskState::Inactive ==> answer == -13
            }
            &&& answer != 0 ==> r == k
            &&& answer == 0 ==> {
                let task = r.sys.tasks[t];
                &&& task.ctx.elr == entry
                &&& task.ctx.sp == stack
                &&& task.ctx.spsr == 0 && task.ctx.tpidr == 0 && task.ctx.tpidrro == 0
                &&& task.ctx.x.len() == 31
                &&& forall|i: int| 0 <= i < 31 ==> #[trigger] task.ctx.x[i] == 0
                &&& task.ttbr0_pa == k.caps[aspace as int]->root_pa
                &&& task.state == TaskState::Stopped
                &&& task.reply_to == k.sys.tasks[t].reply_to
                &&& r.sys.tasks == k.sys.tasks.insert(t, task)
                &&& r.sys.eps == k.sys.eps && r.sys.ready == k.sys.ready
                &&& r.sys.current == k.sys.current && r.sys.context == k.sys.context
                    && r.sys.ttbr0 == k.sys.ttbr0
                &&& r == (KernelView { sys: r.sys, ..k })
            }
        }),
{
}

/// A task can be resumed exactly where it has been configured and not resumed since. Then
/// it is ready, behind all that are, with its registers as they were. Nothing else
/// changes.
pub proof fn lemma_resume(k: KernelView, slot: u64)
    ensures
        ({
            let (r, answer) = k.resumed(slot);
            let n = k.caps.len();
            let t = seen_at(k.caps[slot as int]->Tcb_base);
            &&& answer == 0 <==> slot < n && k.caps[slot as int] is Tcb && k.sys.tasks[t].state
                == TaskState::Stopped
            &&& slot >= n ==> answer == -1
            &&& slot < n && !(k.caps[slot as int] is Tcb) ==> answer == -12
            &&& slot < n && k.caps[slot as int] is Tcb && k.sys.tasks[t].state
                != TaskState::Stopped ==> answer == -13
            &&& answer != 0 ==> r == k
            &&& answer == 0 ==> {
                let task = r.sys.tasks[t];
                &&& task.state == TaskState::Ready
                &&& task.ctx == k.sys.tasks[t].ctx
                &&& same_place(k.sys.tasks[t], task)
                &&& r.sys.tasks == k.sys.tasks.insert(t, task)
                &&& r.sys.ready == k.sys.ready.push(t)
                &&& r.sys.eps == k.sys.eps
                &&& r.sys.current == k.sys.current && r.sys.context == k.sys.context
                    && r.sys.ttbr0 == k.sys.ttbr0
                &&& r == (KernelView { sys: r.sys, ..k })
            }
        }),
{
}

/// Whether a user page can stand at an address: at a page boundary, behind the first page
/// and below 2 to the power of 48.
pub open spec fn user_place(plat: Platform, va: u64) -> bool {
    va as int % plat.page_size() == 0 && plat.page_size() <= va < top()
}

/// Where the table of a level stands, on the way to a page.
pub open spec fn place_at(plat: Platform, level: int, page: int) -> int {
    let n = plat.table_len();
    if level == 3 {
        page / n
    } else if level == 2 {
        page / n / n
    } else {
        page / n / n / n
    }
}

/// Whether the table of a level is there, on the way to an address. Each level resolves
/// the 9 or 11 bits above those of the level below it.
pub open spec fn table_there(k: KernelView, root: u64, level: int, va: u64) -> bool {
    k.space.nodes.contains((root, level, place_at(k.plat, level, va as int / k.plat.page_size())))
}

/// How many of the three tables on the way to a page are not there, below the lowest that
/// is.
pub open spec fn tables_missing(k: KernelView, root: u64, page: int) -> nat {
    let there = |level: int| k.space.nodes.contains((root, level, place_at(k.plat, level, page)));
    if there(3) {
        0
    } else if there(2) {
        1
    } else if there(1) {
        2
    } else {
        3
    }
}

/// What the numbers of levels and pages mean.
proof fn lemma_path(plat: Platform, page: int)
    ensures
        plat.prefix(page, 3) == place_at(plat, 3, page),
        plat.prefix(page, 2) == place_at(plat, 2, page),
        plat.prefix(page, 1) == place_at(plat, 1, page),
{
    reveal_with_fuel(Platform::prefix, 4);
}

/// A frame is mapped exactly where the slots name an address space and a frame that is not
/// mapped, the permission is reading (0) or reading and writing (1), the address can hold
/// a user page, all tables are there and the page is free. Then the page leads to the
/// frame: the user reads it, writes it exactly where that was asked for, and never executes
/// it; nor does the kernel. The capability is marked, and nothing else changes.
pub proof fn lemma_map_frame(k: KernelView, slot: u64, va: u64, perm: u64, aspace: u64)
    requires
        slot < k.caps.len(),
        k.caps[slot as int] is Frame,
        k.plat.table_addr(k.caps[slot as int]->Frame_base),
    ensures
        ({
            let (r, answer) = k.mapped(slot, va, perm, aspace);
            let named = aspace < k.caps.len() && k.caps[aspace as int] is AddrSpace;
            let root = k.caps[aspace as int]->root_pa;
            let base = k.caps[slot as int]->Frame_base;
            let unmapped = !k.caps[slot as int]->mapped;
            let known = perm == 0 || perm == 1;
            let place = user_place(k.plat, va);
            let there = table_there(k, root, 3, va);
            let page = va as int / k.plat.page_size();
            let free = !k.space.leaves.contains_key((root, page));
            &&& answer == 0 <==> named && unmapped && known && place && there && free
            &&& aspace >= k.caps.len() ==> answer == -1
            &&& aspace < k.caps.len() && !named ==> answer == -12
            &&& named && !unmapped ==> answer == -8
            &&& named && unmapped && !known ==> answer == -7
            &&& named && unmapped && known && !place ==> answer == -6
            &&& named && unmapped && known && place && !there ==> answer == -9
            &&& named && unmapped && known && place && there && !free ==> answer == -10
            &&& answer != 0 ==> r == k
            &&& answer == 0 ==> {
                let desc = r.space.leaves[(root, page)];
                &&& page_of(
                    k.plat,
                    desc,
                    base,
                    if perm == 1 {
                        1
                    } else {
                        3
                    },
                    true,
                    true,
                )
                &&& r.space.leaves == k.space.leaves.insert((root, page), desc)
                &&& r.space.nodes == k.space.nodes
                &&& r.caps == k.caps.update(slot as int, Cap::Frame { base, mapped: true })
                &&& r == (KernelView { space: r.space, caps: r.caps, ..k })
            }
        }),
{
    if user_place(k.plat, va) {
        lemma_path(k.plat, va as int / k.plat.page_size());
    }
    lemma_permissions(k.plat, k.caps[slot as int]->Frame_base);
}

/// A page table is installed exactly where the slots name an address space and a table
/// that is not installed, the address can hold a user page and not all tables on the way
/// are there. Then it is the topmost that was missing. The capability is marked, the frame
/// is a table from now on and no longer data, and nothing else changes.
pub proof fn lemma_install_table(k: KernelView, slot: u64, va: u64, perm: u64, aspace: u64)
    requires
        slot < k.caps.len(),
        k.caps[slot as int] is PageTable,
    ensures
        ({
            let (r, answer) = k.mapped(slot, va, perm, aspace);
            let named = aspace < k.caps.len() && k.caps[aspace as int] is AddrSpace;
            let root = k.caps[aspace as int]->root_pa;
            let base = k.caps[slot as int]->PageTable_base;
            let spare = !k.caps[slot as int]->installed;
            let place = user_place(k.plat, va);
            let there = table_there(k, root, 3, va);
            &&& answer == 0 <==> named && spare && place && !there
            &&& aspace >= k.caps.len() ==> answer == -1
            &&& aspace < k.caps.len() && !named ==> answer == -12
            &&& named && !spare ==> answer == -8
            &&& named && spare && !place ==> answer == -6
            &&& named && spare && place && there ==> answer == -10
            &&& answer != 0 ==> r == k
            &&& answer == 0 ==> {
                let level: int = if table_there(k, root, 2, va) {
                    3
                } else if table_there(k, root, 1, va) {
                    2
                } else {
                    1
                };
                &&& table_there(r, root, level, va)
                &&& forall|n: (u64, int, int)| #[trigger]
                    r.space.nodes.contains(n) <==> k.space.nodes.contains(n) || (n.0 == root && n.1
                        == level && table_there(r, root, level, va) && n.2 == place_at(
                        k.plat,
                        level,
                        va as int / k.plat.page_size(),
                    ))
                &&& r.space.leaves == k.space.leaves
                &&& r.caps == k.caps.update(slot as int, Cap::PageTable { base, installed: true })
                &&& r.tables == k.tables.insert(base)
                &&& r.data == k.data.remove(base)
                &&& r == (KernelView {
                    space: r.space,
                    caps: r.caps,
                    tables: r.tables,
                    data: r.data,
                    ..k
                })
            }
        }),
{
    if user_place(k.plat, va) {
        lemma_path(k.plat, va as int / k.plat.page_size());
    }
}

/// What is neither a frame nor a table cannot be mapped.
pub proof fn lemma_map_nothing_else(k: KernelView, slot: u64, va: u64, perm: u64, aspace: u64)
    requires
        slot >= k.caps.len() || !(k.caps[slot as int] is Frame || k.caps[slot as int] is PageTable),
    ensures
        ({
            let (r, answer) = k.mapped(slot, va, perm, aspace);
            let named = aspace < k.caps.len() && k.caps[aspace as int] is AddrSpace;
            &&& r == k
            &&& aspace >= k.caps.len() ==> answer == -1
            &&& aspace < k.caps.len() && !named ==> answer == -12
            &&& named && slot >= k.caps.len() ==> answer == -1
            &&& named && slot < k.caps.len() ==> answer == -12
        }),
{
}

/// Frames and tables go together: for one place in one address space, a frame finds a
/// table missing exactly where a table can be installed.
pub proof fn lemma_table_is_missing_where_it_fits(
    k: KernelView,
    frame: u64,
    table: u64,
    va: u64,
    perm: u64,
    aspace: u64,
)
    requires
        frame < k.caps.len(),
        k.caps[frame as int] is Frame,
        k.plat.table_addr(k.caps[frame as int]->Frame_base),
        !k.caps[frame as int]->mapped,
        table < k.caps.len(),
        k.caps[table as int] is PageTable,
        !k.caps[table as int]->installed,
        perm <= 1,
    ensures
        k.mapped(frame, va, perm, aspace).1 == -9 <==> k.mapped(table, va, perm, aspace).1 == 0,
{
    lemma_map_frame(k, frame, va, perm, aspace);
    lemma_install_table(k, table, va, perm, aspace);
}

/// Whether `site` is the lowest page boundary in what is left of an untyped capability.
pub open spec fn next_site(plat: Platform, c: Cap, site: int) -> bool {
    let g = plat.page_size();
    let start = c->Untyped_base + c->used;
    site % g == 0 && start <= site < start + g
}

/// The kernel sees a frame as a page of its own, read and written but not executed. It is
/// refused exactly where the page is there already or the tables for it run out.
proof fn lemma_opened(k: KernelView, pa: u64)
    requires
        k.plat.table_addr(pa),
    ensures
        ({
            let page = pa as int / k.plat.page_size();
            let a = k.opened(pa);
            &&& a.answer is Ok <==> !k.space.leaves.contains_key((k.root1, page)) && tables_missing(
                k,
                k.root1,
                page,
            ) <= k.free
            &&& a.answer is Err ==> a.space.leaves == k.space.leaves
            &&& a.answer is Ok ==> {
                &&& a.space.leaves == k.space.leaves.insert(
                    (k.root1, page),
                    a.space.leaves[(k.root1, page)],
                )
                &&& page_of(k.plat, a.space.leaves[(k.root1, page)], pa, 0, true, true)
            }
        }),
{
    let g = k.plat.page_size();
    assert(g / g == 1);
    laws::lemma_alias_is_linear(k.plat, pa as int);
    reveal_with_fuel(walk::map_many, 2);
    assert(pa + 0xFFFF_0000_0000_0000 + 0 * g == pa + 0xFFFF_0000_0000_0000);
    assert((pa + 0 * g) as u64 == pa);
    lemma_permissions(k.plat, pa);
    lemma_path(k.plat, pa as int / g);
    assert((pa + 0xFFFF_0000_0000_0000) % g == 0) by {
        match k.plat {
            Platform::Virt => {},
            Platform::Apple => {},
        }
    }
}

/// An object is carved exactly where the kind is a frame (1), a table (2), a task (3) or an
/// endpoint (4), the slot names untyped memory, a slot is free, a whole page is left
/// behind what is spent, and the kernel can see it. It stands at the lowest page boundary
/// in what is left, its page counts as spent with all before it, its capability is in the
/// first free slot, which is answered, and its memory is zero. A task is inactive and an
/// endpoint has nobody in line. Nothing else changes.
pub proof fn lemma_retype(k: KernelView, slot: u64, kind: u64, site: int)
    requires
        k.caps.len() <= 32,
        slot < k.caps.len(),
        k.caps[slot as int] is Untyped,
        k.caps[slot as int].valid(),
        k.caps[slot as int]->Untyped_base + k.caps[slot as int]->size <= top(),
        next_site(k.plat, k.caps[slot as int], site),
    ensures
        ({
            let g = k.plat.page_size();
            let (r, answer) = k.retyped(slot, kind);
            let c = k.caps[slot as int];
            let known = 1 <= kind <= 4;
            let vacant = k.caps.len() < 32;
            let room = site + g <= c->Untyped_base + c->size;
            let page = site / g;
            let seen = !k.space.leaves.contains_key((k.root1, page)) && tables_missing(
                k,
                k.root1,
                page,
            ) <= k.free;
            &&& !known ==> answer == -5
            &&& known && !vacant ==> answer == -4
            &&& known && vacant && !room ==> answer == -3
            &&& known && vacant && room && !seen ==> answer == -11
            &&& known && vacant && room && seen ==> answer == k.caps.len()
            &&& answer < 0 ==> r.caps == k.caps && r.sys == k.sys && r.data == k.data
                && r.space.leaves == k.space.leaves && r.out == k.out
            &&& answer >= 0 ==> {
                let pa = site as u64;
                let fresh = if kind == 1 {
                    Cap::Frame { base: pa, mapped: false }
                } else if kind == 2 {
                    Cap::PageTable { base: pa, installed: false }
                } else if kind == 3 {
                    Cap::Tcb { base: pa }
                } else {
                    Cap::Endpoint { base: pa }
                };
                let task = r.sys.tasks[seen_at(pa)];
                &&& r.caps.len() == k.caps.len() + 1
                &&& r.caps[answer as int] == fresh
                &&& r.caps[slot as int] == (Cap::Untyped {
                    base: c->Untyped_base,
                    size: c->size,
                    used: (site + g - c->Untyped_base) as u64,
                })
                &&& forall|i: int| 0 <= i < k.caps.len() && i != slot ==> r.caps[i] == k.caps[i]
                &&& r.data.contains_key(pa)
                &&& r.data[pa].len() == g / 8
                &&& forall|i: int| 0 <= i < g / 8 ==> #[trigger] r.data[pa][i] == 0
                &&& r.data == k.data.insert(pa, r.data[pa])
                &&& page_of(k.plat, r.space.leaves[(k.root1, page)], pa, 0, true, true)
                &&& r.space.leaves == k.space.leaves.insert(
                    (k.root1, page),
                    r.space.leaves[(k.root1, page)],
                )
                &&& kind != 3 ==> r.sys.tasks == k.sys.tasks
                &&& kind == 3 ==> {
                    &&& r.sys.tasks == k.sys.tasks.insert(seen_at(pa), task)
                    &&& task.state == TaskState::Inactive
                    &&& task.reply_to == 0 && task.ttbr0_pa == 0
                    &&& task.ctx.spsr == 0 && task.ctx.elr == 0 && task.ctx.sp == 0
                    &&& task.ctx.tpidr == 0 && task.ctx.tpidrro == 0
                    &&& task.ctx.x.len() == 31
                    &&& forall|i: int| 0 <= i < 31 ==> #[trigger] task.ctx.x[i] == 0
                }
                &&& kind != 4 ==> r.sys.eps == k.sys.eps
                &&& kind == 4 ==> r.sys.eps == k.sys.eps.insert(seen_at(pa), Seq::empty())
                &&& r.sys.ready == k.sys.ready && r.sys.current == k.sys.current
                &&& r.tables == k.tables && r.out == k.out && r.root1 == k.root1 && r.plat == k.plat
            }
        }),
{
    let g = k.plat.page_size();
    let c = k.caps[slot as int];
    let start = c->Untyped_base + c->used;
    crate::align::lemma_up(start, g);
    assert(crate::align::up(start, g) == site) by {
        lemma_one_multiple(g, start, crate::align::up(start, g), site);
    }
    if site + g <= c->Untyped_base + c->size {
        lemma_opened(k, site as u64);
    }
    assert(g / 8 == k.plat.table_len()) by {
        match k.plat {
            Platform::Virt => {},
            Platform::Apple => {},
        }
    }
}

/// There is one multiple in a stretch of the length of the unit.
proof fn lemma_one_multiple(g: int, from: int, a: int, b: int)
    requires
        g > 0,
        from <= a < from + g,
        from <= b < from + g,
        a % g == 0,
        b % g == 0,
    ensures
        a == b,
{
    vstd::arithmetic::div_mod::lemma_fundamental_div_mod(a, g);
    vstd::arithmetic::div_mod::lemma_fundamental_div_mod(b, g);
    let p = a / g;
    let q = b / g;
    assert(p == q) by (nonlinear_arith)
        requires
            g > 0,
            a == g * p,
            b == g * q,
            -g < a - b < g,
    ;
}

/// A slot that names no untyped memory is refused, and nothing changes.
pub proof fn lemma_retype_needs_untyped(k: KernelView, slot: u64, kind: u64)
    requires
        slot >= k.caps.len() || !(k.caps[slot as int] is Untyped),
    ensures
        ({
            let (r, answer) = k.retyped(slot, kind);
            &&& r == k
            &&& !(1 <= kind <= 4) ==> answer == -5
            &&& 1 <= kind <= 4 && slot >= k.caps.len() ==> answer == -1
            &&& 1 <= kind <= 4 && slot < k.caps.len() ==> answer == -2
        }),
{
}

/// The end of a task: it is dead for good with its registers as they were, a caller that
/// it owes a reply goes on with `NO_REPLY` behind all that are ready, and the next in line
/// has the processor. The machine stops, and says so, exactly where nobody is in line.
/// Nothing else changes.
pub proof fn lemma_end(k: KernelView)
    requires
        k.sys.inv(),
        k.sys.running(),
        full(k.sys),
    ensures
        ({
            let (r, outcome) = k.killed();
            let cur = k.sys.current;
            let owed = k.sys.tasks[cur].reply_to;
            let line = if owed == 0 {
                k.sys.ready
            } else {
                k.sys.ready.push(owed)
            };
            &&& outcome == Outcome::Park <==> line.len() == 0
            &&& handed_over(k.sys, r.sys, line, outcome == Outcome::Resume)
            &&& r.sys.tasks[cur].state == TaskState::Dead
            &&& r.sys.tasks[cur].ctx == k.sys.tasks[cur].ctx
            &&& r.sys.tasks[cur].reply_to == 0
            &&& owed != 0 ==> answer_set(
                k.sys.tasks[owed].ctx,
                r.sys.tasks[owed].ctx,
                0x1_0000_0000_0000_0000 - 15,
            ) && same_place(k.sys.tasks[owed], r.sys.tasks[owed]) && (line[0] != owed
                ==> r.sys.tasks[owed].state == TaskState::Ready)
            &&& forall|t: u64| #[trigger]
                r.sys.tasks.contains_key(t) == k.sys.tasks.contains_key(t)
            &&& forall|t: u64|
                k.sys.tasks.contains_key(t) && t != cur && t != owed ==> {
                    &&& (#[trigger] r.sys.tasks[t]).ctx == k.sys.tasks[t].ctx
                    &&& same_place(k.sys.tasks[t], r.sys.tasks[t])
                    &&& line.len() == 0 || t != line[0] ==> r.sys.tasks[t].state
                        == k.sys.tasks[t].state
                }
            &&& r.sys.eps == k.sys.eps
            &&& r == (KernelView { sys: r.sys, out: r.out, ..k })
            &&& outcome == Outcome::Resume ==> r.out == k.out
            &&& outcome == Outcome::Park ==> r.out == k.out + earlycon::text(
                "k0: all tasks exited\n",
            )
        }),
{
    effects::lemma_codes();
    let cur = k.sys.current;
    let owed = k.sys.tasks[cur].reply_to;
    let a = k.sys.reply_aborted(cur);
    if owed != 0 {
        assert(k.sys.tasks.contains_key(owed));
        assert(owed != cur);
        assert(k.sys.tasks[owed].state == TaskState::BlockedReply);
        assert(!k.sys.ready.contains(owed));
    }
    if k.sys.ready.len() > 0 {
        assert(k.sys.ready.contains(k.sys.ready[0]));
        assert(a.ready[0] == k.sys.ready[0]);
    }
    if a.ready.len() > 0 {
        assert(a.ready.drop_first() =~= a.ready.skip(1));
    }
}

/// Giving way: the next in line has the processor and the task that ran is last in line,
/// its registers as they were. Where nobody is in line nothing happens.
pub proof fn lemma_give_way(k: KernelView)
    requires
        k.sys.inv(),
        k.sys.running(),
    ensures
        ({
            let r = k.preempted();
            let cur = k.sys.current;
            let line = k.sys.ready;
            &&& line.len() == 0 ==> r == k
            &&& line.len() > 0 ==> {
                &&& handed_over(k.sys, r.sys, line.push(cur), true)
                &&& r.sys.tasks[cur].state == TaskState::Ready
                &&& forall|t: u64| #[trigger]
                    r.sys.tasks.contains_key(t) == k.sys.tasks.contains_key(t)
                &&& forall|t: u64|
                    k.sys.tasks.contains_key(t) ==> {
                        &&& (#[trigger] r.sys.tasks[t]).ctx == k.sys.tasks[t].ctx
                        &&& same_place(k.sys.tasks[t], r.sys.tasks[t])
                        &&& t != cur && t != line[0] ==> r.sys.tasks[t].state
                            == k.sys.tasks[t].state
                    }
                &&& r.sys.eps == k.sys.eps
            }
            &&& r == (KernelView { sys: r.sys, ..k })
        }),
{
    if k.sys.ready.len() > 0 {
        assert(k.sys.ready.contains(k.sys.ready[0]));
        assert(k.sys.ready.drop_first().push(k.sys.current) =~= k.sys.ready.push(
            k.sys.current,
        ).skip(1));
    }
}

/// The number in x8 says which call it is and x0 to x3 are what it is about; x0 is the
/// answer. A call that nobody knows ends the task, and so does the one that asks for it.
pub proof fn lemma_calls(k: KernelView)
    ensures
        ({
            let x = k.sys.tasks[k.sys.current].ctx.x;
            let answered = |r: (KernelView, i64)|
                (
                    KernelView { sys: r.0.sys.with_x0(r.0.sys.current, r.1 as u64), ..r.0 },
                    Outcome::Resume,
                );
            &&& x[8] == 0 ==> k.syscall() == answered(k.putc(x[0], x[1]))
            &&& x[8] == 1 ==> k.syscall() == (
                KernelView { sys: k.sys.with_x0(k.sys.current, 0), ..k }.preempted(),
                Outcome::Resume,
            )
            &&& x[8] == 2 ==> k.syscall() == (KernelView {
                out: k.out + (earlycon::text("k0: task exited (code ") + earlycon::dec_sent(x[0])
                    + earlycon::text(")\n")),
                ..k
            }).killed()
            &&& x[8] == 3 ==> k.syscall() == answered(k.retyped(x[0], x[1]))
            &&& x[8] == 4 ==> k.syscall() == answered(k.mapped(x[0], x[1], x[2], x[3]))
            &&& x[8] == 5 ==> k.syscall() == answered(k.configured(x[0], x[1], x[2], x[3]))
            &&& x[8] == 6 ==> k.syscall() == answered(k.resumed(x[0]))
            &&& 7 <= x[8] <= 10 ==> {
                let (sys, ok) = if x[8] == 7 {
                    k.sys.sys_send(k.caps)
                } else if x[8] == 8 {
                    k.sys.sys_recv(k.caps)
                } else if x[8] == 9 {
                    k.sys.sys_call(k.caps)
                } else {
                    k.sys.sys_reply_recv(k.caps)
                };
                &&& ok ==> k.syscall() == (KernelView { sys, ..k }, Outcome::Resume)
                &&& !ok ==> k.syscall() == (
                    KernelView {
                        sys,
                        out: k.out + earlycon::text("k0: all tasks blocked\n"),
                        ..k
                    },
                    Outcome::Park,
                )
            }
            &&& x[8] > 10 ==> k.syscall() == (KernelView {
                out: k.out + (earlycon::text("k0: unknown syscall ") + earlycon::dec_sent(x[8])
                    + earlycon::text(", killing task\n")),
                ..k
            }).killed()
        }),
{
}

/// An answer goes to x0 of the task that asked and changes nothing else of it.
pub proof fn lemma_answer(k: KernelView, v: i64)
    requires
        full(k.sys),
        k.sys.tasks.contains_key(k.sys.current),
    ensures
        ({
            let cur = k.sys.current;
            let r = k.answered(v);
            let want: int = if v >= 0 {
                v as int
            } else {
                0x1_0000_0000_0000_0000 + v
            };
            &&& answer_set(k.sys.tasks[cur].ctx, r.sys.tasks[cur].ctx, want)
            &&& same_place(k.sys.tasks[cur], r.sys.tasks[cur])
            &&& r.sys.tasks[cur].state == k.sys.tasks[cur].state
            &&& r.sys.tasks == k.sys.tasks.insert(cur, r.sys.tasks[cur])
            &&& r == (KernelView { sys: r.sys, ..k })
            &&& r.sys.eps == k.sys.eps && r.sys.ready == k.sys.ready && r.sys.current == cur
        }),
{
    assert(v as u64 == (if v >= 0 {
        v as int
    } else {
        0x1_0000_0000_0000_0000 + v
    })) by (bit_vector);
}

/// A syndrome tells a system call from a wait and from a fault by its class, the 6 bits
/// above the lowest 26: 21 is a call, 1 a wait, and all else a fault, which ends the task.
/// A wait is skipped: the task goes on 4 bytes further, and nothing else changes.
pub proof fn lemma_traps(k: KernelView, esr: u64, far: u64)
    ensures
        ({
            let class = esr as int / 0x400_0000 % 64;
            let cur = k.sys.current;
            let (r, outcome) = k.trapped(esr, far);
            &&& class == 21 ==> k.trapped(esr, far) == k.syscall()
            &&& class == 1 ==> {
                let before = k.sys.tasks[cur].ctx;
                let after = r.sys.tasks[cur].ctx;
                &&& outcome == Outcome::Resume
                &&& after.elr == (before.elr + 4) % 0x1_0000_0000_0000_0000
                &&& after.x == before.x && after.sp == before.sp && after.spsr == before.spsr
                    && after.tpidr == before.tpidr && after.tpidrro == before.tpidrro
                &&& same_place(k.sys.tasks[cur], r.sys.tasks[cur])
                &&& r.sys.tasks[cur].state == k.sys.tasks[cur].state
                &&& r.sys.tasks == k.sys.tasks.insert(cur, r.sys.tasks[cur])
                &&& r.sys.eps == k.sys.eps && r.sys.ready == k.sys.ready && r.sys.current == cur
                &&& r == (KernelView { sys: r.sys, ..k })
            }
            &&& class != 21 && class != 1 ==> k.trapped(esr, far) == (KernelView {
                out: k.out + crate::kernel::fault_text(esr, k.sys.tasks[cur].ctx.elr, far),
                ..k
            }).killed()
        }),
{
    arch_laws::lemma_class(esr);
}

/// An interrupt of the timer turns the processor over, one that is none is ignored, and
/// one that cannot be stops the machine; what it was is said.
pub proof fn lemma_interrupts(k: KernelView, e: IrqEvent, kind: &str, tick: u64)
    ensures
        ({
            let (r, outcome) = k.interrupted(e, kind, tick);
            let said = KernelView { out: k.out + irq::event_text(e, kind, tick), ..k };
            &&& outcome == Outcome::Park <==> e is Unexpected
            &&& e is Tick ==> r == said.preempted()
            &&& !(e is Tick) ==> r == said
        }),
{
}

/// On the machine with an interrupt controller the timer has number 30, 1020 to 1023 stand
/// for none, and the number is in the lowest 24 bits. On the other the timer comes by the
/// fast way, where bit 2 of its control register tells that it is due. Nothing else can
/// be.
pub proof fn lemma_interrupt_numbers(v: u64)
    ensures
        ({
            let id = v as int % 0x100_0000;
            let a = irq::irq_event(Platform::Virt, v);
            &&& a is Tick <==> id == 30
            &&& a is Spurious <==> 1020 <= id < 1024
            &&& a is Unexpected ==> a->0 == id
            &&& irq::irq_event(Platform::Apple, v) == IrqEvent::Unexpected(0)
            &&& irq::fiq_event(Platform::Virt, v) == IrqEvent::Unexpected(0)
            &&& v as int / 4 % 2 == 1 ==> irq::fiq_event(Platform::Apple, v) == IrqEvent::Tick
            &&& v as int / 4 % 2 == 0 ==> irq::fiq_event(Platform::Apple, v)
                == IrqEvent::Unexpected(0)
        }),
{
    assert(v & 0xFF_FFFF == v % 0x100_0000 && (v & 4 != 0) == (v / 4 % 2 == 1)) by (bit_vector);
}

} // verus!
