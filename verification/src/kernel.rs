//! The kernel proper: what it knows, and what a task can ask of it.
use vstd::prelude::*;

use crate::abi;
use crate::arch::earlycon::{self, EarlyCon};
use crate::arch::irq::{self, IrqEvent};
use crate::arch::usermode::{self, ContextView, Trap};
use crate::arch::vectors;
use crate::cap::{self, CNode, Cap, ObjKind, RetypeError};
use crate::ipc;
use crate::mm::mem::{self, PhysMem};
use crate::mm::paging::{self, MmuError, Perm, Pool};
use crate::mm::tree::{self, Space};
use crate::mm::user::{self, UserPerm};
use crate::mm::walk::{Attempt, TableSource};
use crate::platform::Platform;
use crate::sched::{System, SystemView};
use crate::task::{TaskState, TaskView};

pub mod bootinfo;
pub mod checks;
pub mod effects;
pub mod init;
pub mod laws;
pub mod memmap;
pub mod report;
pub mod selfcheck;
pub mod start;
pub mod startup;
pub mod syscall;
pub mod telling;

verus! {

/// The state of the kernel.
pub struct Kernel {
    pub plat: Platform,
    pub con: EarlyCon,
    pub cnode: CNode,
    pub sys: System,
    pub pool: Pool,
    pub mem: PhysMem,
}

/// The mathematical content of a [`Kernel`].
pub struct KernelView {
    pub plat: Platform,
    /// The capabilities of the root task, by slot.
    pub caps: Seq<Cap>,
    /// The tasks and endpoints.
    pub sys: SystemView,
    /// What the translation tables translate.
    pub space: Space,
    /// The tree of the upper half.
    pub root1: u64,
    /// The frames that are tables, and those that are kept for kernel tables.
    pub tables: Set<u64>,
    /// How many tables the kernel has left.
    pub free: nat,
    /// The contents of frames that are no tables.
    pub data: Map<u64, Seq<u64>>,
    /// What is to be written to the console.
    pub out: Seq<u8>,
}

/// What the machine does after the kernel has handled an exception.
#[derive(Clone, Copy, Debug, PartialEq, Eq, Structural)]
pub enum Outcome {
    /// The current task goes on.
    Resume,
    /// Nothing can go on.
    Park,
}

/// The kind of object that a number in a request means.
pub open spec fn object_kind(kind: u64) -> Option<ObjKind> {
    if kind == abi::obj::FRAME {
        Some(ObjKind::Frame)
    } else if kind == abi::obj::PAGE_TABLE {
        Some(ObjKind::PageTable)
    } else if kind == abi::obj::TCB {
        Some(ObjKind::Tcb)
    } else if kind == abi::obj::ENDPOINT {
        Some(ObjKind::Endpoint)
    } else {
        None
    }
}

/// The error code for a refused retype.
pub open spec fn retype_code(e: RetypeError) -> i64 {
    match e {
        RetypeError::BadSlot => abi::err::BAD_SLOT,
        RetypeError::NotUntyped => abi::err::NOT_UNTYPED,
        RetypeError::Exhausted => abi::err::EXHAUSTED,
        RetypeError::OutOfSlots => abi::err::OUT_OF_SLOTS,
        RetypeError::PrepFailed => abi::err::KERNEL_RESOURCE,
    }
}

/// The error code for a refused mapping.
pub open spec fn mmu_code(e: MmuError) -> i64 {
    match e {
        MmuError::Misaligned => abi::err::BAD_VA,
        MmuError::NullPage => abi::err::BAD_VA,
        MmuError::Overlap => abi::err::OVERLAP,
        MmuError::MissingTable => abi::err::MISSING_TABLE,
        _ => abi::err::KERNEL_RESOURCE,
    }
}

/// The permission that a number in a request means.
pub open spec fn user_perm(perm: u64) -> Option<UserPerm> {
    if perm == abi::perm::RO {
        Some(UserPerm::RoUser)
    } else if perm == abi::perm::RW {
        Some(UserPerm::RwUser)
    } else {
        None
    }
}

/// What the console shows for a byte: printable characters and newlines as they are,
/// anything else as a question mark.
pub open spec fn shown(byte: u64) -> u8 {
    let b = byte as u8;
    if b == 0x0A || 0x20 <= b <= 0x7E {
        b
    } else {
        0x3F
    }
}

/// The address at which the kernel sees an object.
pub open spec fn alias(base: u64) -> u64 {
    (base + abi::KERNEL_VA_OFFSET) as u64
}

/// What is said of a task at fault.
pub open spec fn fault_text(esr: u64, elr: u64, far: u64) -> Seq<u8> {
    earlycon::text("k0: task fault ") + earlycon::text(vectors::ec_text(vectors::class_of(esr)))
        + earlycon::text(" (esr ") + earlycon::short_hex_sent(esr) + earlycon::text(" elr ")
        + earlycon::short_hex_sent(elr) + earlycon::text(" far ") + earlycon::short_hex_sent(far)
        + earlycon::text("), killing task\n")
}

/// The root table of the address space that a slot names, or the error.
pub open spec fn aspace_at(caps: Seq<Cap>, slot: int) -> Result<u64, i64> {
    match cap::lookup(caps, slot) {
        Some(Cap::AddrSpace { root_pa }) => Ok(root_pa),
        Some(_) => Err(abi::err::BAD_CAP),
        None => Err(abi::err::BAD_SLOT),
    }
}

/// The task that a slot names, or the error.
pub open spec fn tcb_at(caps: Seq<Cap>, slot: int) -> Result<u64, i64> {
    match cap::lookup(caps, slot) {
        Some(Cap::Tcb { base }) => Ok(alias(base)),
        Some(_) => Err(abi::err::BAD_CAP),
        None => Err(abi::err::BAD_SLOT),
    }
}

impl KernelView {
    /// Whether every task and endpoint capability has its object.
    pub open spec fn objects_exist(self) -> bool {
        &&& ipc::endpoints_exist(self.caps, self.sys)
        &&& forall|i: int|
            #![trigger self.caps[i]]
            0 <= i < self.caps.len() && self.caps[i] is Tcb ==> self.sys.tasks.contains_key(
                alias(self.caps[i]->Tcb_base),
            )
    }

    /// The registers of the current task.
    pub open spec fn regs(self) -> Seq<u64> {
        self.sys.regs()
    }

    /// The kernel after the current task has been given a result.
    pub open spec fn answered(self, v: i64) -> KernelView {
        KernelView { sys: self.sys.with_x0(self.sys.current, v as u64), ..self }
    }

    /// The kernel after more has been written to the console.
    pub open spec fn said(self, more: Seq<u8>) -> KernelView {
        KernelView { out: self.out + more, ..self }
    }

    /// `DEBUG_PUTC`: writes a byte, for the owner of the console capability.
    pub open spec fn putc(self, slot: u64, byte: u64) -> (KernelView, i64) {
        match cap::lookup(self.caps, slot as int) {
            Some(Cap::Console) => (self.said(earlycon::sent(shown(byte))), 0),
            Some(_) => (self, abi::err::BAD_CAP),
            None => (self, abi::err::BAD_SLOT),
        }
    }

    /// `TCB_CONFIGURE`: gives an inactive task its entry point, stack and address space.
    ///
    /// All else of the register context is 0: a task starts unprivileged, whatever the
    /// request says.
    pub open spec fn configured(self, slot: u64, entry: u64, stack: u64, aspace: u64) -> (
        KernelView,
        i64,
    ) {
        let g = self.plat.page_size();
        if entry % 4 != 0 || entry < g || entry >= tree::VA_SPAN || stack % 16 != 0 || stack < g
            || stack > tree::VA_SPAN {
            (self, abi::err::BAD_VA)
        } else {
            match aspace_at(self.caps, aspace as int) {
                Err(e) => (self, e),
                Ok(root) => match tcb_at(self.caps, slot as int) {
                    Err(e) => (self, e),
                    Ok(t) => if self.sys.tasks[t].state != TaskState::Inactive {
                        (self, abi::err::BAD_STATE)
                    } else {
                        let task = TaskView {
                            ctx: ContextView {
                                elr: entry,
                                sp: stack,
                                ..ContextView::zeroed()
                            },
                            ttbr0_pa: root,
                            state: TaskState::Stopped,
                            ..self.sys.tasks[t]
                        };
                        (KernelView { sys: self.sys.with_task(t, task), ..self }, 0)
                    },
                },
            }
        }
    }

    /// `TCB_RESUME`: makes a configured task ready.
    pub open spec fn resumed(self, slot: u64) -> (KernelView, i64) {
        match tcb_at(self.caps, slot as int) {
            Err(e) => (self, e),
            Ok(t) => if self.sys.tasks[t].state != TaskState::Stopped {
                (self, abi::err::BAD_STATE)
            } else {
                (KernelView { sys: self.sys.enqueued(t), ..self }, 0)
            },
        }
    }

    /// What making the frame at `pa` visible in the upper half does.
    pub open spec fn opened(self, pa: u64) -> Attempt {
        paging::map_aligned(
            self.plat,
            self.space,
            self.free,
            self.root1,
            pa + abi::KERNEL_VA_OFFSET,
            pa as int,
            self.plat.page_size(),
            Perm::Rw.bits(),
        )
    }

    /// The kernel after an object has been carved at `pa`: its frame is visible in the
    /// upper half and filled with zeros.
    pub open spec fn carved(self, slot: u64, kind: ObjKind, pa: u64) -> KernelView {
        let a = self.opened(pa);
        let sys = match kind {
            ObjKind::Tcb => self.sys.with_new_task(alias(pa)),
            ObjKind::Endpoint => self.sys.with_new_ep(alias(pa)),
            _ => self.sys,
        };
        KernelView {
            caps: cap::carved(self.caps, slot as int, kind, self.plat.page_size(), pa),
            sys,
            space: a.space,
            free: a.free,
            data: self.data.insert(pa, mem::zeros(self.plat)),
            ..self
        }
    }

    /// `RETYPE`: carves an object out of untyped memory and answers its slot.
    ///
    /// Where the frame cannot be made visible, no capability changes.
    pub open spec fn retyped(self, slot: u64, kind: u64) -> (KernelView, i64) {
        match object_kind(kind) {
            None => (self, abi::err::BAD_TYPE),
            Some(k) => match cap::carve_site(self.caps, slot as int, self.plat.page_size()) {
                Err(e) => (self, retype_code(e)),
                Ok(pa) => {
                    let a = self.opened(pa);
                    if a.answer is Err {
                        (
                            KernelView { space: a.space, free: a.free, ..self },
                            abi::err::KERNEL_RESOURCE,
                        )
                    } else {
                        (self.carved(slot, k, pa), self.caps.len() as i64)
                    }
                },
            },
        }
    }

    /// `MAP`: maps a frame or installs a table in the address space that is presented.
    pub open spec fn mapped(self, slot: u64, va: u64, perm: u64, aspace: u64) -> (
        KernelView,
        i64,
    ) {
        match aspace_at(self.caps, aspace as int) {
            Err(e) => (self, e),
            Ok(root) => match cap::lookup(self.caps, slot as int) {
                Some(Cap::Frame { base, mapped }) => if mapped {
                    (self, abi::err::ALREADY_MAPPED)
                } else {
                    match user_perm(perm) {
                        None => (self, abi::err::BAD_PERM),
                        Some(p) => {
                            let (space, answer) = user::frame_mapped(
                                self.plat,
                                self.space,
                                root,
                                va as int,
                                base,
                                p,
                            );
                            match answer {
                                Err(e) => (self, mmu_code(e)),
                                Ok(_) => (
                                    KernelView {
                                        caps: self.caps.update(
                                            slot as int,
                                            Cap::Frame { base, mapped: true },
                                        ),
                                        space,
                                        ..self
                                    },
                                    0,
                                ),
                            }
                        },
                    }
                },
                Some(Cap::PageTable { base, installed }) => if installed {
                    (self, abi::err::ALREADY_MAPPED)
                } else {
                    let (space, answer) = user::table_installed(
                        self.plat,
                        self.space,
                        root,
                        va as int,
                    );
                    match answer {
                        Err(e) => (self, mmu_code(e)),
                        Ok(_) => (
                            KernelView {
                                caps: self.caps.update(
                                    slot as int,
                                    Cap::PageTable { base, installed: true },
                                ),
                                space,
                                tables: self.tables.insert(base),
                                data: self.data.remove(base),
                                ..self
                            },
                            0,
                        ),
                    }
                },
                Some(_) => (self, abi::err::BAD_CAP),
                None => (self, abi::err::BAD_SLOT),
            },
        }
    }

    /// The kernel after the current task has ended: a caller it owes a reply is woken,
    /// and the next task, if there is one, goes on.
    pub open spec fn killed(self) -> (KernelView, Outcome) {
        let (sys, more) = self.sys.reply_aborted(self.sys.current).exited();
        let k = KernelView { sys, ..self };
        if more {
            (k, Outcome::Resume)
        } else {
            (k.said(earlycon::text("k0: all tasks exited\n")), Outcome::Park)
        }
    }

    /// The kernel after IPC, which tells whether a task can go on.
    pub open spec fn after_ipc(self, r: (SystemView, bool)) -> (KernelView, Outcome) {
        let k = KernelView { sys: r.0, ..self };
        if r.1 {
            (k, Outcome::Resume)
        } else {
            (k.said(earlycon::text("k0: all tasks blocked\n")), Outcome::Park)
        }
    }

    /// What a system call of the current task does: x8 is its number, x0 to x5 are its
    /// arguments. A task that makes an unknown call ends.
    pub open spec fn syscall(self) -> (KernelView, Outcome) {
        let x = self.regs();
        let nr = x[8];
        if nr == abi::syscall::DEBUG_PUTC {
            let (k, v) = self.putc(x[0], x[1]);
            (k.answered(v), Outcome::Resume)
        } else if nr == abi::syscall::YIELD {
            let k = self.answered(0);
            (KernelView { sys: k.sys.rotated(), ..k }, Outcome::Resume)
        } else if nr == abi::syscall::EXIT {
            self.said(
                earlycon::text("k0: task exited (code ") + earlycon::dec_sent(x[0])
                    + earlycon::text(")\n"),
            ).killed()
        } else if nr == abi::syscall::RETYPE {
            let (k, v) = self.retyped(x[0], x[1]);
            (k.answered(v), Outcome::Resume)
        } else if nr == abi::syscall::MAP {
            let (k, v) = self.mapped(x[0], x[1], x[2], x[3]);
            (k.answered(v), Outcome::Resume)
        } else if nr == abi::syscall::TCB_CONFIGURE {
            let (k, v) = self.configured(x[0], x[1], x[2], x[3]);
            (k.answered(v), Outcome::Resume)
        } else if nr == abi::syscall::TCB_RESUME {
            let (k, v) = self.resumed(x[0]);
            (k.answered(v), Outcome::Resume)
        } else if nr == abi::syscall::SEND {
            self.after_ipc(self.sys.sys_send(self.caps))
        } else if nr == abi::syscall::RECV {
            self.after_ipc(self.sys.sys_recv(self.caps))
        } else if nr == abi::syscall::CALL {
            self.after_ipc(self.sys.sys_call(self.caps))
        } else if nr == abi::syscall::REPLY_RECV {
            self.after_ipc(self.sys.sys_reply_recv(self.caps))
        } else {
            self.said(
                earlycon::text("k0: unknown syscall ") + earlycon::dec_sent(nr) + earlycon::text(
                    ", killing task\n",
                ),
            ).killed()
        }
    }

    /// What a fault of the current task does: the task ends, and nothing else.
    pub open spec fn faulted(self, esr: u64, far: u64) -> (KernelView, Outcome) {
        let elr = self.sys.tasks[self.sys.current].ctx.elr;
        self.said(fault_text(esr, elr, far)).killed()
    }

    /// The kernel after a timer tick: the next ready task has its turn.
    pub open spec fn preempted(self) -> KernelView {
        KernelView { sys: self.sys.rotated(), ..self }
    }

    /// What an interrupt that came while a task ran does: a tick turns the processor over
    /// to the next task, and one that cannot be stops the machine.
    pub open spec fn interrupted(self, e: IrqEvent, kind: &str, tick: u64) -> (
        KernelView,
        Outcome,
    ) {
        let k = self.said(irq::event_text(e, kind, tick));
        match e {
            IrqEvent::Tick => (k.preempted(), Outcome::Resume),
            IrqEvent::Spurious => (k, Outcome::Resume),
            IrqEvent::Unexpected(_) => (k, Outcome::Park),
        }
    }

    /// The kernel after the registers of the current task have been saved.
    pub open spec fn saved(self, ctx: ContextView) -> KernelView {
        let t = self.sys.current;
        KernelView { sys: self.sys.with_task(t, self.sys.tasks[t].with_ctx(ctx)), ..self }
    }

    /// What a synchronous exception of the current task does. A wait instruction is
    /// skipped, anything that is no system call is a fault.
    pub open spec fn trapped(self, esr: u64, far: u64) -> (KernelView, Outcome) {
        match usermode::trap_of(esr) {
            Trap::Syscall => self.syscall(),
            Trap::Wait => {
                let ctx = self.sys.tasks[self.sys.current].ctx;
                (
                    self.saved(ContextView { elr: ctx.elr.wrapping_add(4), ..ctx }),
                    Outcome::Resume,
                )
            },
            Trap::Fault => self.faulted(esr, far),
        }
    }
}

impl View for Kernel {
    type V = KernelView;

    open spec fn view(&self) -> KernelView {
        KernelView {
            plat: self.plat,
            caps: self.cnode@,
            sys: self.sys@,
            space: self.mem.space(),
            root1: self.pool.root1,
            tables: self.tables(),
            free: self.pool.tables.free(),
            data: self.data(),
            out: self.con@,
        }
    }
}

impl Kernel {
    /// Whether the address lies among the kernel tables, used or not.
    pub open spec fn in_pool(&self, t: int) -> bool {
        self.pool.tables.origin() <= t < self.pool.tables.limit()
    }

    /// The frames that are tables, and those that are kept for kernel tables.
    pub open spec fn tables(&self) -> Set<u64> {
        Set::new(|t: u64| self.mem.homes().contains_key(t) || self.in_pool(t as int))
    }

    /// The contents of frames that are no tables and will not become kernel tables.
    pub open spec fn data(&self) -> Map<u64, Seq<u64>> {
        self.mem@.restrict(
            Set::new(
                |t: u64|
                    self.mem@.contains_key(t) && !self.mem.homes().contains_key(t)
                        && !self.in_pool(t as int),
            ),
        )
    }

    /// Whether the kernel sees the physical address in the upper half.
    pub open spec fn sees(&self, pa: int) -> bool {
        self.mem.space().leaves.contains_key((self.pool.root1, self.plat.page(pa)))
    }

    /// What a capability stands for is there.
    pub open spec fn cap_ok(&self, c: Cap) -> bool {
        match c {
            Cap::Untyped { base, size, .. } => base + size <= tree::VA_SPAN,
            Cap::AddrSpace { root_pa } => self.mem.is_root(root_pa) && root_pa != self.pool.root1,
            Cap::Tcb { base } => base < tree::VA_SPAN && self.sys@.tasks.contains_key(alias(base)),
            Cap::Endpoint { base } => base < tree::VA_SPAN && self.sys@.eps.contains_key(
                alias(base),
            ),
            Cap::PageTable { base, installed } => !installed ==> {
                &&& self.mem@.contains_key(base)
                &&& self.mem@[base] == mem::zeros(self.plat)
                &&& !self.mem.homes().contains_key(base)
                &&& !self.in_pool(base as int)
                &&& self.sees(base as int)
            },
            _ => true,
        }
    }

    /// No two capabilities stand for the same table that is not installed yet.
    pub open spec fn tables_apart(&self) -> bool {
        forall|i: int, j: int|
            #![trigger self.cnode@[i], self.cnode@[j]]
            0 <= i < self.cnode@.len() && 0 <= j < self.cnode@.len() && self.cnode@[i] is PageTable
                && self.cnode@[j] is PageTable && !self.cnode@[i]->installed
                && !self.cnode@[j]->installed && self.cnode@[i]->PageTable_base
                == self.cnode@[j]->PageTable_base ==> i == j
    }

    /// Everything that the kernel keeps in memory is visible to it. So what is not
    /// visible is not in use.
    pub open spec fn all_seen(&self) -> bool {
        &&& forall|t: u64| #[trigger] self.mem.homes().contains_key(t) ==> self.sees(t as int)
        &&& forall|t: int| #[trigger] self.in_pool(t) ==> self.sees(t)
        &&& forall|t: u64| #[trigger]
            self.sys@.tasks.contains_key(t) ==> t >= abi::KERNEL_VA_OFFSET && self.sees(
                t - abi::KERNEL_VA_OFFSET,
            )
        &&& forall|t: u64| #[trigger]
            self.sys@.eps.contains_key(t) ==> t >= abi::KERNEL_VA_OFFSET && self.sees(
                t - abi::KERNEL_VA_OFFSET,
            )
    }

    /// What holds of the kernel at every entry and exit.
    pub open spec fn wf(&self) -> bool {
        &&& self.cnode.wf()
        &&& self.sys.wf()
        &&& self.mem.wf()
        &&& self.mem.platform() == self.plat
        &&& self.pool.wf(&self.mem)
        &&& self.pool.enabled
        &&& forall|i: int| 0 <= i < self.cnode@.len() ==> self.cap_ok(#[trigger] self.cnode@[i])
        &&& self.tables_apart()
        &&& self.all_seen()
    }
}

} // verus!
