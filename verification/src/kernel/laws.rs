//! What the kernel promises as a whole.
use vstd::prelude::*;

use crate::abi;
use crate::arch::earlycon;
use crate::arch::irq::IrqEvent;
use crate::arch::usermode::{self, ContextView, Trap};
use crate::cap::{self, Cap, ObjKind, RetypeError};
use crate::ipc;
use crate::kernel::{self, KernelView, Outcome};
use crate::mm::laws;
use crate::mm::mem;
use crate::mm::paging::{self, Perm};
use crate::mm::tree;
use crate::mm::user::{self, UserPerm};
use crate::mm::walk;
use crate::platform::Platform;
use crate::sched::SystemView;
use crate::task::TaskState;

verus! {

/// The frame that a page descriptor leads to.
pub open spec fn frame_of(plat: Platform, desc: u64) -> u64 {
    desc & plat.addr_bits()
}

/// A page descriptor of user space leads to the frame it was made for.
pub proof fn lemma_user_desc(plat: Platform, pa: u64, perm: UserPerm)
    requires
        plat.table_addr(pa),
    ensures
        frame_of(plat, pa | perm.bits()) == pa,
        paging::user_writes(pa | perm.bits()) == paging::user_writes(perm.bits()),
        paging::user_executes(pa | perm.bits()) == paging::user_executes(perm.bits()),
        paging::kernel_executes(pa | perm.bits()) == paging::kernel_executes(perm.bits()),
{
    let b = perm.bits();
    assert(b & 0x0000_FFFF_FFFF_F000 == 0 && b & 0x0000_FFFF_FFFF_C000 == 0) by {
        match perm {
            UserPerm::TextUser => {
                assert(({
                    let d: u64 = 0b11u64 | 0x400 | 0x300 | 0xC0 | 0 | 0x20_0000_0000_0000;
                    d & 0x0000_FFFF_FFFF_F000 == 0 && d & 0x0000_FFFF_FFFF_C000 == 0
                })) by (bit_vector);
            },
            UserPerm::RoUser => {
                assert(({
                    let d: u64 = 0b11u64 | 0x400 | 0x300 | 0xC0 | 0 | 0x40_0000_0000_0000
                        | 0x20_0000_0000_0000;
                    d & 0x0000_FFFF_FFFF_F000 == 0 && d & 0x0000_FFFF_FFFF_C000 == 0
                })) by (bit_vector);
            },
            UserPerm::RwUser => {
                assert(({
                    let d: u64 = 0b11u64 | 0x400 | 0x300 | 0x40 | 0 | 0x40_0000_0000_0000
                        | 0x20_0000_0000_0000;
                    d & 0x0000_FFFF_FFFF_F000 == 0 && d & 0x0000_FFFF_FFFF_C000 == 0
                })) by (bit_vector);
            },
        }
    }
    assert(pa % 4096 == 0) by {
        match plat {
            Platform::Virt => {},
            Platform::Apple => {},
        }
    }
    assert((pa | b) & 0xC0 == b & 0xC0 && (pa | b) & 0x20_0000_0000_0000 == b
        & 0x20_0000_0000_0000 && (pa | b) & 0x40_0000_0000_0000 == b & 0x40_0000_0000_0000)
        by (bit_vector)
        requires
            pa < 0x1_0000_0000_0000,
            pa % 4096 == 0,
    ;
    match plat {
        Platform::Virt => {
            assert((pa | b) & 0x0000_FFFF_FFFF_F000 == pa) by (bit_vector)
                requires
                    pa < 0x1_0000_0000_0000,
                    pa % 4096 == 0,
                    b & 0x0000_FFFF_FFFF_F000 == 0,
            ;
        },
        Platform::Apple => {
            assert((pa | b) & 0x0000_FFFF_FFFF_C000 == pa) by (bit_vector)
                requires
                    pa < 0x1_0000_0000_0000,
                    pa % 16384 == 0,
                    b & 0x0000_FFFF_FFFF_C000 == 0,
            ;
        },
    }
}

impl KernelView {
    /// A page of user space is safe: it is not the null page, it is not writable and
    /// executable at once, the kernel cannot execute it, and its frame is no table and
    /// belongs to no task or endpoint and to no untyped memory.
    pub open spec fn user_page_safe(self, page: int, desc: u64) -> bool {
        &&& page != 0
        &&& !(paging::user_writes(desc) && paging::user_executes(desc))
        &&& !paging::kernel_executes(desc)
        &&& !self.tables.contains(frame_of(self.plat, desc))
        &&& forall|i: int|
            0 <= i < self.caps.len() && !((#[trigger] self.caps[i]) is Frame) ==> !cap::area(
                self.caps[i],
                self.plat.page_size(),
                frame_of(self.plat, desc) as int,
            )
    }

    /// What a capability names is where it can be.
    pub open spec fn cap_placed(self, c: Cap) -> bool {
        match c {
            Cap::Untyped { base, size, .. } => base + size <= tree::VA_SPAN,
            Cap::Frame { base, .. } => self.plat.table_addr(base),
            Cap::AddrSpace { root_pa } => root_pa != self.root1,
            _ => true,
        }
    }

    /// Whether a capability names the address space at `root`.
    pub open spec fn is_space(self, root: u64) -> bool {
        exists|i: int|
            0 <= i < self.caps.len() && #[trigger] self.caps[i] == (Cap::AddrSpace {
                root_pa: root,
            })
    }

    /// Whether the pages of a tree are safe: the upper half for the kernel, and every
    /// address space that a capability names for the user.
    pub open spec fn pages_safe(self) -> bool {
        forall|r: u64, page: int| #[trigger]
            self.space.leaves.contains_key((r, page)) ==> {
                &&& r == self.root1 ==> laws::kernel_safe(self.space.leaves[(r, page)])
                &&& self.is_space(r) ==> self.user_page_safe(
                    page,
                    self.space.leaves[(r, page)],
                )
            }
    }

    /// Whether tables stand where no capability reaches, but for the one they were made
    /// from.
    pub open spec fn tables_apart(self) -> bool {
        forall|i: int, t: u64|
            #![trigger self.caps[i], self.tables.contains(t)]
            0 <= i < self.caps.len() && !(self.caps[i] is PageTable) && self.tables.contains(t)
                ==> !cap::area(self.caps[i], self.plat.page_size(), t as int)
    }

    /// Whether every task that has an address space has one that a capability names.
    pub open spec fn tasks_placed(self) -> bool {
        forall|t: u64| #[trigger]
            self.sys.tasks.contains_key(t) && self.sys.tasks[t].ttbr0_pa != 0 ==> self.is_space(
                self.sys.tasks[t].ttbr0_pa,
            )
    }

    /// Isolation: no address belongs to two capabilities, tables stand apart, tasks run in
    /// address spaces that capabilities name, and all pages are safe.
    pub open spec fn isolated(self) -> bool {
        &&& cap::exclusive(self.caps, self.plat.page_size())
        &&& forall|i: int|
            0 <= i < self.caps.len() ==> (#[trigger] self.caps[i]).valid() && self.cap_placed(
                self.caps[i],
            )
        &&& self.tables_apart()
        &&& self.pages_safe()
        &&& self.tasks_placed()
    }
}

/// Retyping keeps isolation.
pub proof fn lemma_retype_keeps_isolation(k: KernelView, slot: u64, kind: u64)
    requires
        k.isolated(),
    ensures
        k.retyped(slot, kind).0.isolated(),
{
    let plat = k.plat;
    let g = plat.page_size();
    let r = k.retyped(slot, kind).0;
    if let Some(kd) = kernel::object_kind(kind) {
        let site = cap::carve_site(k.caps, slot as int, g);
        if let Ok(pa) = site {
            cap::lemma_carved_exclusive(k.caps, slot as int, kd, g, pa);
            assert(cap::area(k.caps[slot as int], g, pa as int));
            assert(cap::area(k.caps[slot as int], g, pa + g - 1));
            assert(k.cap_placed(k.caps[slot as int]));
            assert(plat.table_addr(pa));
            let a = k.opened(pa);
            lemma_opened_leaves(k, pa);
            let desc = pa | Perm::Rw.bits();
            laws::lemma_first_mappings_w_xor_x(Perm::Rw, pa);
            assert forall|i: int| 0 <= i < r.caps.len() implies (#[trigger] r.caps[i]).valid()
                && r.cap_placed(r.caps[i]) by {
                if i < k.caps.len() {
                    assert(k.caps[i].valid() && k.cap_placed(k.caps[i]));
                }
            }
            assert forall|t: u64| r.is_space(t) <==> k.is_space(t) by {
                if r.is_space(t) {
                    let i = choose|i: int|
                        0 <= i < r.caps.len() && #[trigger] r.caps[i] == (Cap::AddrSpace {
                            root_pa: t,
                        });
                    assert(k.caps[i] == r.caps[i]);
                }
                if k.is_space(t) {
                    let i = choose|i: int|
                        0 <= i < k.caps.len() && #[trigger] k.caps[i] == (Cap::AddrSpace {
                            root_pa: t,
                        });
                    assert(r.caps[i] == k.caps[i]);
                }
            }
            assert forall|t: u64, page: int| #[trigger]
                r.space.leaves.contains_key((t, page)) implies {
                &&& t == r.root1 ==> laws::kernel_safe(r.space.leaves[(t, page)])
                &&& r.is_space(t) ==> r.user_page_safe(page, r.space.leaves[(t, page)])
            } by {
                if r.is_space(t) {
                    let i = choose|i: int|
                        0 <= i < k.caps.len() && #[trigger] k.caps[i] == (Cap::AddrSpace {
                            root_pa: t,
                        });
                    assert(k.cap_placed(k.caps[i]));
                    assert(t != k.root1);
                    assert(k.space.leaves.contains_key((t, page)));
                    lemma_carve_keeps_user_page(
                        k,
                        slot,
                        kd,
                        pa,
                        page,
                        k.space.leaves[(t, page)],
                    );
                }
            }
        }
    }
}

/// A safe page of user space is safe after an object has been carved: the object was
/// untyped memory, where the page does not lead.
proof fn lemma_carve_keeps_user_page(
    k: KernelView,
    slot: u64,
    kind: ObjKind,
    pa: u64,
    page: int,
    d: u64,
)
    requires
        cap::exclusive(k.caps, k.plat.page_size()),
        forall|i: int| 0 <= i < k.caps.len() ==> (#[trigger] k.caps[i]).valid(),
        cap::carve_site(k.caps, slot as int, k.plat.page_size()) == Ok::<u64, RetypeError>(pa),
        k.user_page_safe(page, d),
    ensures
        k.carved(slot, kind, pa).user_page_safe(page, d),
{
    let g = k.plat.page_size();
    let r = k.carved(slot, kind, pa);
    let f = frame_of(k.plat, d) as int;
    cap::lemma_carved_exclusive(k.caps, slot as int, kind, g, pa);
    assert forall|i: int|
        0 <= i < r.caps.len() && !((#[trigger] r.caps[i]) is Frame) implies !cap::area(
        r.caps[i],
        g,
        f,
    ) by {
        if i < k.caps.len() {
            assert(!cap::area(k.caps[i], g, f));
        } else {
            assert(!cap::area(k.caps[slot as int], g, f));
            if pa <= f < pa + g {
                assert(cap::area(k.caps[slot as int], g, f));
            }
        }
    }
}

/// Making a frame visible adds at most that one page, to the upper half.
proof fn lemma_opened_leaves(k: KernelView, pa: u64)
    requires
        k.plat.table_addr(pa),
    ensures
        forall|r: u64, page: int| #[trigger]
            k.opened(pa).space.leaves.contains_key((r, page)) ==> {
                ||| k.space.leaves.contains_key((r, page)) && k.opened(pa).space.leaves[(r, page)]
                    == k.space.leaves[(r, page)]
                ||| r == k.root1 && k.opened(pa).space.leaves[(r, page)] == pa | Perm::Rw.bits()
            },
{
    let g = k.plat.page_size();
    assert(g / g == 1);
    let va = pa + abi::KERNEL_VA_OFFSET;
    reveal_with_fuel(walk::map_many, 2);
    assert((pa + 0 * g) as u64 == pa);
}

/// Mapping keeps isolation: what a task can map is a frame that is its own, never as
/// code, and never at the null page.
pub proof fn lemma_map_keeps_isolation(k: KernelView, slot: u64, va: u64, perm: u64, aspace: u64)
    requires
        k.isolated(),
    ensures
        k.mapped(slot, va, perm, aspace).0.isolated(),
{
    let plat = k.plat;
    let g = plat.page_size();
    let r = k.mapped(slot, va, perm, aspace).0;
    if let Ok(root) = kernel::aspace_at(k.caps, aspace as int) {
        assert(k.cap_placed(k.caps[aspace as int]));
        assert forall|i: int| 0 <= i < r.caps.len() implies (#[trigger] r.caps[i]).valid()
            && r.cap_placed(r.caps[i]) by {
            assert(k.caps[i].valid() && k.cap_placed(k.caps[i]));
        }
        assert forall|i: int, p: int| 0 <= i < r.caps.len() implies #[trigger] cap::area(
            r.caps[i],
            g,
            p,
        ) == cap::area(k.caps[i], g, p) by {}
        assert(cap::exclusive(r.caps, g)) by {
            assert forall|i: int, j: int, p: int|
                #![trigger cap::area(r.caps[i], g, p), cap::area(r.caps[j], g, p)]
                0 <= i < r.caps.len() && 0 <= j < r.caps.len() && cap::area(r.caps[i], g, p)
                    && cap::area(r.caps[j], g, p) implies i == j by {
                assert(cap::area(k.caps[i], g, p) && cap::area(k.caps[j], g, p));
            }
        }
        assert forall|i: int, t: u64|
            #![trigger r.caps[i], r.tables.contains(t)]
            0 <= i < r.caps.len() && !(r.caps[i] is PageTable) && r.tables.contains(
                t,
            ) implies !cap::area(r.caps[i], g, t as int) by {
            assert(!(k.caps[i] is PageTable));
            if cap::area(r.caps[i], g, t as int) {
                assert(cap::area(k.caps[i], g, t as int));
                if !k.tables.contains(t) {
                    assert(cap::area(k.caps[slot as int], g, t as int));
                    assert(i == slot);
                }
            }
        }
        assert forall|t: u64| r.is_space(t) <==> k.is_space(t) by {
            if r.is_space(t) {
                let i = choose|i: int|
                    0 <= i < r.caps.len() && #[trigger] r.caps[i] == (Cap::AddrSpace {
                        root_pa: t,
                    });
                assert(k.caps[i] == r.caps[i]);
            }
            if k.is_space(t) {
                let i = choose|i: int|
                    0 <= i < k.caps.len() && #[trigger] k.caps[i] == (Cap::AddrSpace {
                        root_pa: t,
                    });
                assert(r.caps[i] == k.caps[i]);
            }
        }
        assert forall|t: u64, page: int| #[trigger]
            r.space.leaves.contains_key((t, page)) implies {
            &&& t == r.root1 ==> laws::kernel_safe(r.space.leaves[(t, page)])
            &&& r.is_space(t) ==> r.user_page_safe(page, r.space.leaves[(t, page)])
        } by {
            let d = r.space.leaves[(t, page)];
            let f = frame_of(plat, d) as int;
            if k.space.leaves.contains_key((t, page)) && k.space.leaves[(t, page)] == d {
                if k.is_space(t) {
                    assert(k.user_page_safe(page, d));
                    assert forall|i: int|
                        0 <= i < r.caps.len() && !((#[trigger] r.caps[i]) is Frame) implies !cap::area(
                        r.caps[i],
                        g,
                        f,
                    ) by {
                        assert(!(k.caps[i] is Frame));
                        assert(!cap::area(k.caps[i], g, f));
                    }
                    if r.tables.contains(f as u64) {
                        assert(cap::area(k.caps[slot as int], g, f));
                        assert(!(k.caps[slot as int] is Frame));
                    }
                }
            } else {
                let c = k.caps[slot as int];
                assert(c is Frame);
                let base = c->Frame_base;
                assert(k.cap_placed(c));
                let p = kernel::user_perm(perm)->Some_0;
                lemma_user_desc(plat, base, p);
                user::lemma_user_w_xor_x(p);
                assert(d == base | p.bits());
                assert(cap::area(c, g, f));
                assert(f == base);
                assert(!k.tables.contains(base));
                assert forall|i: int|
                    0 <= i < r.caps.len() && !((#[trigger] r.caps[i]) is Frame) implies !cap::area(
                    r.caps[i],
                    g,
                    f,
                ) by {
                    if cap::area(k.caps[i], g, f) {
                        assert(i == slot);
                    }
                }
                assert(page == plat.page(va as int));
                assert(page != 0) by {
                    match plat {
                        Platform::Virt => {},
                        Platform::Apple => {},
                    }
                }
            }
        }
    }
}

/// A change of the tasks that gives none another address space keeps isolation.
proof fn lemma_same_spaces(k: KernelView, r: KernelView)
    requires
        k.isolated(),
        r.plat == k.plat,
        r.caps == k.caps,
        r.space == k.space,
        r.root1 == k.root1,
        r.tables == k.tables,
        forall|t: u64| #[trigger]
            r.sys.tasks.contains_key(t) ==> k.sys.tasks.contains_key(t)
                && r.sys.tasks[t].ttbr0_pa == k.sys.tasks[t].ttbr0_pa,
    ensures
        r.isolated(),
{
    assert forall|t: u64| r.is_space(t) <==> k.is_space(t) by {}
}

/// Configuring a task keeps isolation: it gets an address space that a capability names.
pub proof fn lemma_configure_keeps_isolation(
    k: KernelView,
    slot: u64,
    entry: u64,
    stack: u64,
    aspace: u64,
)
    requires
        k.isolated(),
    ensures
        k.configured(slot, entry, stack, aspace).0.isolated(),
{
    let (r, answer) = k.configured(slot, entry, stack, aspace);
    assert forall|t: u64| r.is_space(t) <==> k.is_space(t) by {}
    if answer == 0 {
        let root = kernel::aspace_at(k.caps, aspace as int)->Ok_0;
        assert(k.caps[aspace as int] == (Cap::AddrSpace { root_pa: root }));
        assert(k.is_space(root));
    }
}

/// Resuming a task keeps isolation.
pub proof fn lemma_resume_keeps_isolation(k: KernelView, slot: u64)
    requires
        k.isolated(),
        k.objects_exist(),
    ensures
        k.resumed(slot).0.isolated(),
{
    let (r, answer) = k.resumed(slot);
    if answer == 0 {
        assert(k.caps[slot as int] is Tcb);
    }
    lemma_same_spaces(k, r);
}

/// IPC, exits and turns of the scheduler give no task another address space.
proof fn lemma_sys_spaces(k: KernelView, t: u64)
    ensures
        k.sys.sys_send(k.caps).0.tasks[t].ttbr0_pa == k.sys.tasks[t].ttbr0_pa,
        k.sys.sys_recv(k.caps).0.tasks[t].ttbr0_pa == k.sys.tasks[t].ttbr0_pa,
        k.sys.sys_call(k.caps).0.tasks[t].ttbr0_pa == k.sys.tasks[t].ttbr0_pa,
        k.sys.sys_reply_recv(k.caps).0.tasks[t].ttbr0_pa == k.sys.tasks[t].ttbr0_pa,
        k.sys.rotated().tasks[t].ttbr0_pa == k.sys.tasks[t].ttbr0_pa,
        k.killed().0.sys.tasks[t].ttbr0_pa == k.sys.tasks[t].ttbr0_pa,
{
}

/// Isolation outlives every exception of a task, whatever the task asks for and whatever
/// its registers hold, and every interrupt.
pub proof fn lemma_isolation_is_kept(
    k: KernelView,
    ctx: ContextView,
    esr: u64,
    far: u64,
    e: IrqEvent,
    kind: &str,
    tick: u64,
)
    requires
        k.isolated(),
        k.sys.inv(),
        k.sys.running(),
        k.objects_exist(),
    ensures
        k.saved(ctx).isolated(),
        k.trapped(esr, far).0.isolated(),
        k.preempted().isolated(),
        k.interrupted(e, kind, tick).0.isolated(),
{
    lemma_same_spaces(k, k.saved(ctx));
    lemma_turn_keeps_isolation(k);
    let r = k.interrupted(e, kind, tick).0;
    lemma_same_spaces(
        if e == IrqEvent::Tick {
            k.preempted()
        } else {
            k
        },
        r,
    );
    match usermode::trap_of(esr) {
        Trap::Syscall => {
            lemma_syscall_keeps_isolation(k);
        },
        Trap::Wait => {
            lemma_same_spaces(k, k.trapped(esr, far).0);
        },
        Trap::Fault => {
            let elr = k.sys.tasks[k.sys.current].ctx.elr;
            lemma_end_keeps_isolation(k, kernel::fault_text(esr, elr, far));
        },
    }
}

proof fn lemma_turn_keeps_isolation(k: KernelView)
    requires
        k.isolated(),
        k.sys.inv(),
    ensures
        k.preempted().isolated(),
{
    let r = k.preempted();
    if k.sys.ready.len() > 0 {
        assert(k.sys.ready.contains(k.sys.ready[0]));
    }
    assert forall|t: u64| #[trigger] r.sys.tasks.contains_key(t) implies k.sys.tasks.contains_key(t)
        && r.sys.tasks[t].ttbr0_pa == k.sys.tasks[t].ttbr0_pa by {
        lemma_sys_spaces(k, t);
    }
    lemma_same_spaces(k, r);
}

proof fn lemma_end_keeps_isolation(k: KernelView, last_words: Seq<u8>)
    requires
        k.isolated(),
        k.sys.inv(),
    ensures
        k.said(last_words).killed().0.isolated(),
{
    let r = k.said(last_words).killed().0;
    let cur = k.sys.current;
    let owed = k.sys.tasks[cur].reply_to;
    if owed != 0 {
        assert(k.sys.tasks.contains_key(owed));
    }
    if k.sys.ready.len() > 0 {
        assert(k.sys.ready.contains(k.sys.ready[0]));
    }
    assert forall|t: u64| #[trigger] r.sys.tasks.contains_key(t) implies k.sys.tasks.contains_key(t)
        && r.sys.tasks[t].ttbr0_pa == k.sys.tasks[t].ttbr0_pa by {
        lemma_sys_spaces(k.said(last_words), t);
    }
    lemma_same_spaces(k, r);
}

proof fn lemma_ipc_keeps_isolation(k: KernelView, out: (SystemView, bool))
    requires
        k.isolated(),
        ipc::same_objects(k.sys, out.0),
        forall|t: u64| #[trigger] out.0.tasks[t].ttbr0_pa == k.sys.tasks[t].ttbr0_pa,
    ensures
        k.after_ipc(out).0.isolated(),
{
    let r = k.after_ipc(out).0;
    assert forall|t: u64| #[trigger] r.sys.tasks.contains_key(t) implies k.sys.tasks.contains_key(t)
        && r.sys.tasks[t].ttbr0_pa == k.sys.tasks[t].ttbr0_pa by {
        assert(out.0.tasks.dom().contains(t));
    }
    lemma_same_spaces(k, r);
}

proof fn lemma_answer_keeps_isolation(k: KernelView, v: i64)
    requires
        k.isolated(),
        k.sys.tasks.contains_key(k.sys.current),
    ensures
        k.answered(v).isolated(),
{
    lemma_same_spaces(k, k.answered(v));
}

/// Isolation outlives every system call.
pub proof fn lemma_syscall_keeps_isolation(k: KernelView)
    requires
        k.isolated(),
        k.sys.inv(),
        k.sys.running(),
        k.objects_exist(),
    ensures
        k.syscall().0.isolated(),
{
    let x = k.regs();
    let nr = x[8];
    if nr == abi::syscall::DEBUG_PUTC {
        let (r, v) = k.putc(x[0], x[1]);
        lemma_same_spaces(k, r);
        lemma_answer_keeps_isolation(r, v);
    } else if nr == abi::syscall::YIELD {
        let r = k.answered(0);
        lemma_answer_keeps_isolation(k, 0);
        ipc::lemma_ctx_inv(k.sys, k.sys.current, k.sys.tasks[k.sys.current].ctx.set_x(0, 0));
        lemma_turn_keeps_isolation(r);
    } else if nr == abi::syscall::EXIT {
        lemma_end_keeps_isolation(
            k,
            earlycon::text("k0: task exited (code ") + earlycon::dec_sent(x[0]) + earlycon::text(
                ")\n",
            ),
        );
    } else if nr == abi::syscall::RETYPE {
        let (r, v) = k.retyped(x[0], x[1]);
        lemma_retype_keeps_isolation(k, x[0], x[1]);
        lemma_answer_keeps_isolation(r, v);
    } else if nr == abi::syscall::MAP {
        let (r, v) = k.mapped(x[0], x[1], x[2], x[3]);
        lemma_map_keeps_isolation(k, x[0], x[1], x[2], x[3]);
        lemma_answer_keeps_isolation(r, v);
    } else if nr == abi::syscall::TCB_CONFIGURE {
        let (r, v) = k.configured(x[0], x[1], x[2], x[3]);
        lemma_configure_keeps_isolation(k, x[0], x[1], x[2], x[3]);
        lemma_answer_keeps_isolation(r, v);
    } else if nr == abi::syscall::TCB_RESUME {
        let (r, v) = k.resumed(x[0]);
        lemma_resume_keeps_isolation(k, x[0]);
        lemma_answer_keeps_isolation(r, v);
    } else {
        ipc::lemma_doms(k.sys, k.caps);
        assert forall|t: u64| #[trigger]
            k.sys.sys_send(k.caps).0.tasks[t].ttbr0_pa == k.sys.tasks[t].ttbr0_pa by {
            lemma_sys_spaces(k, t);
        }
        assert forall|t: u64| #[trigger]
            k.sys.sys_recv(k.caps).0.tasks[t].ttbr0_pa == k.sys.tasks[t].ttbr0_pa by {
            lemma_sys_spaces(k, t);
        }
        assert forall|t: u64| #[trigger]
            k.sys.sys_call(k.caps).0.tasks[t].ttbr0_pa == k.sys.tasks[t].ttbr0_pa by {
            lemma_sys_spaces(k, t);
        }
        assert forall|t: u64| #[trigger]
            k.sys.sys_reply_recv(k.caps).0.tasks[t].ttbr0_pa == k.sys.tasks[t].ttbr0_pa by {
            lemma_sys_spaces(k, t);
        }
        if nr == abi::syscall::SEND {
            lemma_ipc_keeps_isolation(k, k.sys.sys_send(k.caps));
        } else if nr == abi::syscall::RECV {
            lemma_ipc_keeps_isolation(k, k.sys.sys_recv(k.caps));
        } else if nr == abi::syscall::CALL {
            lemma_ipc_keeps_isolation(k, k.sys.sys_call(k.caps));
        } else if nr == abi::syscall::REPLY_RECV {
            lemma_ipc_keeps_isolation(k, k.sys.sys_reply_recv(k.caps));
        } else {
            lemma_end_keeps_isolation(
                k,
                earlycon::text("k0: unknown syscall ") + earlycon::dec_sent(nr) + earlycon::text(
                    ", killing task\n",
                ),
            );
        }
    }
}

/// A fresh object is new: its frame was not visible to the kernel before, it is filled
/// with zeros, its capability is in the slot that is answered, and no other capability
/// than the untyped one has changed.
pub proof fn lemma_retyped_object_is_fresh(k: KernelView, slot: u64, kind: u64)
    requires
        k.caps.len() <= cap::CNODE_SLOTS,
        k.retyped(slot, kind).1 >= 0,
        forall|i: int|
            0 <= i < k.caps.len() ==> (#[trigger] k.caps[i]).valid() && k.cap_placed(k.caps[i]),
    ensures
        ({
            let g = k.plat.page_size();
            let (r, new) = k.retyped(slot, kind);
            let pa = cap::carve_site(k.caps, slot as int, g)->Ok_0;
            &&& kernel::object_kind(kind) is Some
            &&& cap::carve_site(k.caps, slot as int, g) is Ok
            &&& new == k.caps.len()
            &&& r.caps.len() == k.caps.len() + 1
            &&& r.caps[new as int] == kernel::object_kind(kind)->Some_0.fresh(pa)
            &&& forall|i: int| 0 <= i < k.caps.len() && i != slot ==> r.caps[i] == k.caps[i]
            &&& !k.space.leaves.contains_key((k.root1, k.plat.page(pa as int)))
            &&& r.space.leaves.contains_key((k.root1, k.plat.page(pa as int)))
            &&& r.data.contains_key(pa)
            &&& r.data[pa] == mem::zeros(k.plat)
        }),
{
    let g = k.plat.page_size();
    let pa = cap::carve_site(k.caps, slot as int, g)->Ok_0;
    let c = k.caps[slot as int];
    assert(c.valid() && k.cap_placed(c));
    crate::align::lemma_up(c->Untyped_base + c->used, g);
    assert(g / g == 1);
    laws::lemma_alias_is_linear(k.plat, pa as int);
    reveal_with_fuel(walk::map_many, 2);
    assert(pa + abi::KERNEL_VA_OFFSET + 0 * g == pa + abi::KERNEL_VA_OFFSET);
}

/// A retype that is refused changes no capability, no task and no frame.
pub proof fn lemma_refused_retype_changes_no_capability(k: KernelView, slot: u64, kind: u64)
    requires
        k.caps.len() <= cap::CNODE_SLOTS,
        k.retyped(slot, kind).1 < 0,
    ensures
        ({
            let r = k.retyped(slot, kind).0;
            r.caps == k.caps && r.sys == k.sys && r.data == k.data && r.out == k.out
        }),
{
}

/// The console takes a byte from nobody but the owner of its capability, and what it
/// shows is printable, a newline or the carriage return before it.
pub proof fn lemma_console_shows_plain_text(k: KernelView, slot: u64, byte: u64)
    ensures
        k.putc(slot, byte).1 == 0 <==> cap::lookup(k.caps, slot as int) == Some(Cap::Console),
        k.putc(slot, byte).1 != 0 ==> k.putc(slot, byte).0 == k,
        k.putc(slot, byte).1 == 0 ==> {
            let out = k.putc(slot, byte).0.out;
            &&& out.take(k.out.len() as int) == k.out
            &&& out.len() > k.out.len()
            &&& forall|i: int|
                k.out.len() <= i < out.len() ==> (#[trigger] out[i]) == 0x0A || out[i] == 0x0D
                    || 0x20 <= out[i] <= 0x7E
        },
{
    let out = k.putc(slot, byte).0.out;
    assert(out.take(k.out.len() as int) =~= k.out);
}

/// A task starts unprivileged and with no register but the stack pointer set, and it is
/// configured once at most.
pub proof fn lemma_configured_once_and_unprivileged(
    k: KernelView,
    slot: u64,
    entry: u64,
    stack: u64,
    aspace: u64,
    entry2: u64,
    stack2: u64,
    aspace2: u64,
)
    requires
        k.configured(slot, entry, stack, aspace).1 == 0,
    ensures
        ({
            let r = k.configured(slot, entry, stack, aspace).0;
            let t = kernel::tcb_at(k.caps, slot as int)->Ok_0;
            &&& r.sys.tasks[t].ctx == (ContextView {
                elr: entry,
                sp: stack,
                ..ContextView::zeroed()
            })
            &&& r.sys.tasks[t].ctx.spsr == 0
            &&& r.configured(slot, entry2, stack2, aspace2).1 < 0
            &&& r.configured(slot, entry2, stack2, aspace2).0 == r
        }),
{
}

/// A configuration that is refused changes nothing, and what is answered tells: 0 for
/// success, a negative number for a refusal.
pub proof fn lemma_refused_configuration_changes_nothing(
    k: KernelView,
    slot: u64,
    entry: u64,
    stack: u64,
    aspace: u64,
)
    ensures
        ({
            let (r, answer) = k.configured(slot, entry, stack, aspace);
            &&& answer <= 0
            &&& answer < 0 ==> r == k
        }),
{
}

/// A task that was resumed cannot be resumed again before it has run, and no task that
/// has not been configured can be resumed.
pub proof fn lemma_resumed_once(k: KernelView, slot: u64)
    ensures
        k.resumed(slot).1 == 0 ==> {
            let r = k.resumed(slot).0;
            let t = kernel::tcb_at(k.caps, slot as int)->Ok_0;
            &&& k.sys.tasks[t].state == TaskState::Stopped
            &&& r.sys.tasks[t].state == TaskState::Ready
            &&& r.sys.ready == k.sys.ready.push(t)
            &&& r.resumed(slot) == (r, abi::err::BAD_STATE)
        },
        k.resumed(slot).1 != 0 ==> k.resumed(slot).0 == k,
{
}

/// A frame or table is mapped once at most: where it was mapped, every further request
/// for it is refused and changes nothing.
pub proof fn lemma_mapped_once(
    k: KernelView,
    slot: u64,
    va: u64,
    perm: u64,
    aspace: u64,
    va2: u64,
    perm2: u64,
    aspace2: u64,
)
    requires
        k.mapped(slot, va, perm, aspace).1 == 0,
    ensures
        ({
            let r = k.mapped(slot, va, perm, aspace).0;
            &&& r.mapped(slot, va2, perm2, aspace2).1 < 0
            &&& r.mapped(slot, va2, perm2, aspace2).0 == r
        }),
{
}

/// Mapping reaches the address space that is presented and no other: pages of other
/// trees stay as they are, and so does every page that was mapped.
pub proof fn lemma_map_stays_in_its_space(
    k: KernelView,
    slot: u64,
    va: u64,
    perm: u64,
    aspace: u64,
)
    ensures
        ({
            let (r, answer) = k.mapped(slot, va, perm, aspace);
            &&& answer != 0 ==> r == k
            &&& r.sys == k.sys && r.out == k.out && r.free == k.free
            &&& forall|t: u64, page: int| #[trigger]
                r.space.leaves.contains_key((t, page)) ==> {
                    ||| k.space.leaves.contains_key((t, page)) && r.space.leaves[(t, page)]
                        == k.space.leaves[(t, page)]
                    ||| kernel::aspace_at(k.caps, aspace as int) == Ok::<u64, i64>(t) && page
                        == k.plat.page(va as int)
                }
            &&& forall|t: u64, page: int| #[trigger]
                k.space.leaves.contains_key((t, page)) ==> r.space.leaves.contains_key((t, page))
                    && r.space.leaves[(t, page)] == k.space.leaves[(t, page)]
        }),
{
}

/// A fault ends the task that caused it and nothing else: capabilities, memory and
/// mappings stay as they are, and so do the registers of every other task but a caller
/// that the task owes a reply, who gets an error for it.
pub proof fn lemma_fault_ends_one_task(k: KernelView, esr: u64, far: u64, t: u64)
    requires
        k.sys.inv(),
        k.sys.running(),
        k.sys.tasks.contains_key(t),
    ensures
        ({
            let (r, outcome) = k.faulted(esr, far);
            let owed = k.sys.tasks[k.sys.current].reply_to;
            &&& r.caps == k.caps && r.space == k.space && r.data == k.data
            &&& r.sys.tasks[k.sys.current].state == TaskState::Dead
            &&& t != k.sys.current ==> {
                let before = k.sys.tasks[t].ctx;
                r.sys.tasks[t].ctx == if t == owed {
                    before.set_x(0, abi::err::NO_REPLY as u64)
                } else {
                    before
                }
            }
            &&& outcome == Outcome::Park <==> k.sys.ready.len() == 0 && owed == 0
        }),
{
    let cur = k.sys.current;
    let owed = k.sys.tasks[cur].reply_to;
    let a = k.sys.reply_aborted(cur);
    if owed != 0 {
        assert(k.sys.tasks.contains_key(owed));
        assert(owed != cur);
    }
    if k.sys.ready.len() > 0 {
        assert(k.sys.ready.contains(k.sys.ready[0]));
        assert(a.ready[0] == k.sys.ready[0]);
        assert(k.sys.ready[0] != cur);
    }
}

} // verus!
