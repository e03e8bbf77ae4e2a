//! System calls and faults.
use vstd::prelude::*;
use vstd::string::*;

use crate::abi;
use crate::arch::earlycon;
use crate::arch::irq::{self, IrqEvent, Timer};
use crate::arch::usermode::{self, Context, Trap};
use crate::arch::vectors;
use crate::cap::{self, Cap, ObjKind, RetypeError};
use crate::ipc;
use crate::kernel::{self, Kernel, KernelView, Outcome};
use crate::mm::paging::{self, MmuError};
use crate::mm::tree;
use crate::mm::user::{self, UserPerm};
use crate::mm::walk::{self, TableSource};
use crate::sched;
use crate::task::{TaskState, Tcb};

verus! {

impl Kernel {
    /// Writes a byte to the console, for the owner of the console capability.
    pub fn sys_putc(&mut self, slot: u64, byte: u64) -> (r: i64)
        requires
            old(self).wf(),
        ensures
            final(self).wf(),
            final(self).mem.settled() == old(self).mem.settled(),
            final(self).con.same_port(&old(self).con),
            (final(self)@, r) == old(self)@.putc(slot, byte),
    {
        match self.cnode.cap_at(slot) {
            Some(Cap::Console) => {},
            Some(_) => {
                return abi::err::BAD_CAP;
            },
            None => {
                return abi::err::BAD_SLOT;
            },
        }
        let b = byte as u8;
        let safe = if b == 0x0A || (0x20 <= b && b <= 0x7E) {
            b
        } else {
            0x3F
        };
        self.con.put_byte(safe);
        proof {
            Self::lemma_sys_changed(old(self), self);
        }
        0
    }

    /// A change of the tasks and of the console leaves the rest of the kernel as it was.
    proof fn lemma_sys_changed(k1: &Kernel, k2: &Kernel)
        requires
            k1.wf(),
            k2.sys.wf(),
            k2.plat == k1.plat,
            k2.cnode == k1.cnode,
            k2.pool == k1.pool,
            k2.mem == k1.mem,
            k2.sys@.tasks.dom() == k1.sys@.tasks.dom(),
            k2.sys@.eps.dom() == k1.sys@.eps.dom(),
        ensures
            k2.wf(),
            k2@ == (KernelView { sys: k2.sys@, out: k2.con@, ..k1@ }),
    {
        assert forall|t: int| #[trigger] k2.in_pool(t) implies k2.sees(t) by {
            assert(k1.in_pool(t));
            assert(k1.sees(t));
        }
        assert forall|t: u64| #[trigger] k2.sys@.tasks.contains_key(t) implies k1.sys@.tasks.contains_key(
            t,
        ) by {
            assert(k2.sys@.tasks.dom().contains(t));
        }
        assert forall|t: u64| #[trigger] k2.sys@.eps.contains_key(t) implies k1.sys@.eps.contains_key(
            t,
        ) by {
            assert(k2.sys@.eps.dom().contains(t));
        }
        assert forall|i: int| 0 <= i < k2.cnode@.len() implies k2.cap_ok(#[trigger] k2.cnode@[i]) by {
            assert(k1.cap_ok(k1.cnode@[i]));
            match k1.cnode@[i] {
                Cap::Tcb { base } => {
                    assert(k1.sys@.tasks.dom().contains(kernel::alias(base)));
                },
                Cap::Endpoint { base } => {
                    assert(k1.sys@.eps.dom().contains(kernel::alias(base)));
                },
                _ => {},
            }
        }
        assert(k2.data() =~= k1.data());
        assert(k2.tables() =~= k1.tables());
    }

    /// The root table of the address space that a slot names.
    fn aspace(&self, slot: u64) -> (r: Result<u64, i64>)
        requires
            self.wf(),
        ensures
            r == kernel::aspace_at(self.cnode@, slot as int),
            r matches Ok(root) ==> self.mem.is_root(root) && root != self.pool.root1,
    {
        match self.cnode.cap_at(slot) {
            Some(Cap::AddrSpace { root_pa }) => {
                assert(self.cap_ok(self.cnode@[slot as int]));
                Ok(root_pa)
            },
            Some(_) => Err(abi::err::BAD_CAP),
            None => Err(abi::err::BAD_SLOT),
        }
    }

    /// The task that a slot names.
    fn tcb(&self, slot: u64) -> (r: Result<u64, i64>)
        requires
            self.wf(),
        ensures
            r == kernel::tcb_at(self.cnode@, slot as int),
            r matches Ok(t) ==> self.sys@.tasks.contains_key(t),
    {
        match self.cnode.cap_at(slot) {
            Some(Cap::Tcb { base }) => {
                assert(self.cap_ok(self.cnode@[slot as int]));
                Ok(base + abi::KERNEL_VA_OFFSET)
            },
            Some(_) => Err(abi::err::BAD_CAP),
            None => Err(abi::err::BAD_SLOT),
        }
    }

    /// Gives an inactive task its entry point, stack and address space.
    ///
    /// The rest of the registers is 0, whatever the request says; in particular a task
    /// always starts unprivileged.
    pub fn sys_tcb_configure(&mut self, slot: u64, entry: u64, stack: u64, aspace: u64) -> (r: i64)
        requires
            old(self).wf(),
            old(self).sys@.running(),
        ensures
            final(self).wf(),
            final(self).mem.settled() == old(self).mem.settled(),
            final(self).con.same_port(&old(self).con),
            final(self).sys@.running(),
            (final(self)@, r) == old(self)@.configured(slot, entry, stack, aspace),
    {
        let g = self.plat.granule();
        if entry % 4 != 0 || entry < g || entry >= tree::VA_SPAN {
            return abi::err::BAD_VA;
        }
        if stack % 16 != 0 || stack < g || stack > tree::VA_SPAN {
            return abi::err::BAD_VA;
        }
        let root = match self.aspace(aspace) {
            Ok(root) => root,
            Err(e) => {
                return e;
            },
        };
        let t = match self.tcb(slot) {
            Ok(t) => t,
            Err(e) => {
                return e;
            },
        };
        if self.sys.state(t) != TaskState::Inactive {
            return abi::err::BAD_STATE;
        }
        let mut ctx = Context::zeroed();
        ctx.elr = entry;
        ctx.sp = stack;
        ctx.spsr = 0;
        self.sys.configure(t, ctx, root);
        proof {
            assert(self.sys@.tasks.dom() =~= old(self).sys@.tasks.dom());
            Self::lemma_sys_changed(old(self), self);
        }
        0
    }

    /// Makes a configured task ready.
    ///
    /// A task that is ready, running, waiting or dead is refused, so that none is ever
    /// in a queue twice.
    pub fn sys_tcb_resume(&mut self, slot: u64) -> (r: i64)
        requires
            old(self).wf(),
            old(self).sys@.running(),
        ensures
            final(self).wf(),
            final(self).mem.settled() == old(self).mem.settled(),
            final(self).con.same_port(&old(self).con),
            final(self).sys@.running(),
            (final(self)@, r) == old(self)@.resumed(slot),
    {
        let t = match self.tcb(slot) {
            Ok(t) => t,
            Err(e) => {
                return e;
            },
        };
        if self.sys.state(t) != TaskState::Stopped {
            return abi::err::BAD_STATE;
        }
        proof {
            sched::lemma_resumed_inv(self.sys@, t);
        }
        sched::enqueue(&mut self.sys, t);
        proof {
            assert(self.sys@.tasks.dom() =~= old(self).sys@.tasks.dom());
            Self::lemma_sys_changed(old(self), self);
        }
        0
    }

    /// Ends the current task. A caller it owes a reply is woken first.
    fn kill_current(&mut self) -> (r: Outcome)
        requires
            old(self).wf(),
            old(self).sys@.running(),
        ensures
            final(self).wf(),
            final(self).mem.settled() == old(self).mem.settled(),
            final(self).con.same_port(&old(self).con),
            (final(self)@, r) == old(self)@.killed(),
            r == Outcome::Resume ==> final(self).sys@.running(),
    {
        let cur = sched::current(&self.sys);
        proof {
            ipc::lemma_reply_aborted_inv(self.sys@, cur);
        }
        ipc::abort_reply(&mut self.sys, cur);
        proof {
            sched::lemma_exited_inv(self.sys@);
        }
        let more = sched::exit_current(&mut self.sys);
        proof {
            assert(self.sys@.tasks.dom() =~= old(self).sys@.tasks.dom());
            Self::lemma_sys_changed(old(self), self);
        }
        if !more {
            let ghost mid = *self;
            self.con.put_str("k0: all tasks exited\n");
            proof {
                Self::lemma_sys_changed(&mid, self);
            }
            return Outcome::Park;
        }
        Outcome::Resume
    }

    /// Making a frame visible leaves everything that was visible so, and shows that the
    /// frame was not in use.
    proof fn lemma_opened(k1: &Kernel, k2: &Kernel, pa: u64)
        requires
            k1.wf(),
            k2.plat == k1.plat,
            k2.con == k1.con,
            k2.cnode == k1.cnode,
            k2.sys == k1.sys,
            k2.mem.wf(),
            k2.mem.platform() == k1.plat,
            k2.pool.wf(&k2.mem),
            k2.pool.enabled,
            k2.pool.root1 == k1.pool.root1,
            walk::kept(&k1.mem, &k2.mem, &k1.pool.tables, &k2.pool.tables),
            pa + k1.plat.page_size() <= tree::VA_SPAN,
            pa as int % k1.plat.page_size() == 0,
            k2.mem.space() == k1@.opened(pa).space,
            k2.pool.tables.free() == k1@.opened(pa).free,
        ensures
            k2.wf(),
            k2@ == (KernelView {
                space: k1@.opened(pa).space,
                free: k1@.opened(pa).free,
                ..k1@
            }),
            k1@.opened(pa).answer is Ok ==> {
                &&& !k1.sees(pa as int)
                &&& k2.sees(pa as int)
                &&& !k2.mem.homes().contains_key(pa)
            },
    {
        let plat = k1.plat;
        let g = plat.page_size();
        let a = k1@.opened(pa);
        assert forall|t: u64| #[trigger] k1.pool.tables.fresh().contains(t) implies k1.in_pool(
            t as int,
        ) by {
            k1.pool.tables.lemma_fresh(plat, t);
        }
        let root1 = k1.pool.root1;
        let va = pa + abi::KERNEL_VA_OFFSET;
        assert(va % g == 0) by {
            match plat {
                crate::platform::Platform::Virt => {},
                crate::platform::Platform::Apple => {},
            }
        }
        assert(g / g == 1);
        assert(a == walk::map_many(
            plat,
            k1.mem.space(),
            k1.pool.tables.free(),
            MmuError::OutOfTables,
            root1,
            va,
            pa as int,
            paging::Perm::Rw.bits(),
            1,
        ));
        crate::mm::laws::lemma_alias_is_linear(plat, pa as int);
        reveal_with_fuel(walk::map_many, 2);
        let page = plat.page(pa as int);
        assert(plat.page(va + 0 * g) == page);
        assert forall|p: int| k1.sees(p) implies #[trigger] k2.sees(p) by {
            crate::mm::laws::lemma_mappings_are_kept(
                plat,
                k1.mem.space(),
                k1.pool.tables.free(),
                MmuError::OutOfTables,
                root1,
                va,
                pa as int,
                paging::Perm::Rw.bits(),
                1,
                root1,
                plat.page(p),
            );
        }
        assert forall|t: u64| #[trigger] k2.mem.homes().contains_key(t) implies k2.sees(
            t as int,
        ) by {
            if !k1.mem.homes().contains_key(t) {
                assert(k1.pool.tables.fresh().contains(t));
            }
            assert(k1.sees(t as int));
        }
        assert forall|t: int| #[trigger] k2.in_pool(t) implies k2.sees(t) by {
            assert(k1.in_pool(t));
            assert(k1.sees(t));
        }
        assert forall|t: u64| #[trigger] k2.sys@.tasks.contains_key(t) implies k2.sees(
            t - abi::KERNEL_VA_OFFSET,
        ) by {
            assert(k1.sees(t - abi::KERNEL_VA_OFFSET));
        }
        assert forall|t: u64| #[trigger] k2.sys@.eps.contains_key(t) implies k2.sees(
            t - abi::KERNEL_VA_OFFSET,
        ) by {
            assert(k1.sees(t - abi::KERNEL_VA_OFFSET));
        }
        assert forall|i: int| 0 <= i < k2.cnode@.len() implies k2.cap_ok(#[trigger] k2.cnode@[i]) by {
            let c = k1.cnode@[i];
            assert(k1.cap_ok(c));
            if c is PageTable && !c->installed {
                let base = c->PageTable_base;
                assert(k1.sees(base as int));
                assert(k2.sees(base as int));
                if k2.mem.homes().contains_key(base) {
                    assert(k1.mem.homes().contains_key(base) || k1.pool.tables.fresh().contains(
                        base,
                    ));
                }
            }
            if c is AddrSpace {
                assert(k1.mem.homes().contains_key(c->root_pa));
            }
        }
        assert(k2.data() =~= k1.data()) by {
            assert forall|t: u64| k2.data().contains_key(t) implies k1.data().contains_key(t)
                && k2.data()[t] == k1.data()[t] by {
                assert(!k1.in_pool(t as int));
                assert(!k1.mem.homes().contains_key(t));
            }
            assert forall|t: u64| k1.data().contains_key(t) implies k2.data().contains_key(t) by {
                if k2.mem.homes().contains_key(t) {
                    assert(k1.mem.homes().contains_key(t) || k1.pool.tables.fresh().contains(t));
                }
            }
        }
        assert(k2.tables() =~= k1.tables()) by {
            assert forall|t: u64| k2.tables().contains(t) == k1.tables().contains(t) by {
                if k2.mem.homes().contains_key(t) {
                    assert(k1.mem.homes().contains_key(t) || k1.pool.tables.fresh().contains(t));
                }
            }
        }
        if a.answer is Ok {
            assert(!k1.sees(pa as int));
            if k2.mem.homes().contains_key(pa) {
                assert(k1.mem.homes().contains_key(pa) || k1.pool.tables.fresh().contains(pa));
                assert(k1.sees(pa as int));
            }
        }
    }

    /// The kernel is as it should be after an object has been carved from a frame that
    /// was not in use.
    proof fn lemma_carved(k2: &Kernel, k3: &Kernel, slot: u64, kind: ObjKind, pa: u64)
        requires
            k2.wf(),
            k3.plat == k2.plat,
            k3.con == k2.con,
            k3.pool == k2.pool,
            k3.mem.wf(),
            k3.mem.platform() == k2.plat,
            k3.mem.homes() == k2.mem.homes(),
            k3.mem.space() == k2.mem.space(),
            k3.mem@ == k2.mem@.insert(pa, crate::mm::mem::zeros(k2.plat)),
            k3.cnode.wf(),
            cap::carve_site(k2.cnode@, slot as int, k2.plat.page_size()) == Ok::<u64, RetypeError>(
                pa,
            ),
            k3.cnode@ == cap::carved(k2.cnode@, slot as int, kind, k2.plat.page_size(), pa),
            k3.sys.wf(),
            k3.sys@ == (match kind {
                ObjKind::Tcb => k2.sys@.with_new_task(kernel::alias(pa)),
                ObjKind::Endpoint => k2.sys@.with_new_ep(kernel::alias(pa)),
                _ => k2.sys@,
            }),
            k2.sees(pa as int),
            pa < tree::VA_SPAN,
            !k2.mem.homes().contains_key(pa),
            !k2.in_pool(pa as int),
            forall|i: int|
                0 <= i < k2.cnode@.len() && (#[trigger] k2.cnode@[i]) is PageTable
                    && !k2.cnode@[i]->installed ==> k2.cnode@[i]->PageTable_base != pa,
        ensures
            k3.wf(),
            k3@ == (KernelView {
                caps: k3.cnode@,
                sys: k3.sys@,
                data: k2@.data.insert(pa, crate::mm::mem::zeros(k2.plat)),
                ..k2@
            }),
    {
        let n = k2.cnode@.len();
        assert(k2.cnode@[slot as int].valid());
        assert(k2.cap_ok(k2.cnode@[slot as int]));
        assert forall|t: int| #[trigger] k3.in_pool(t) implies k3.sees(t) by {
            assert(k2.in_pool(t));
            assert(k2.sees(t));
        }
        assert forall|t: u64| #[trigger] k3.mem.homes().contains_key(t) implies k3.sees(
            t as int,
        ) by {
            assert(k2.sees(t as int));
        }
        assert forall|t: u64| #[trigger] k3.sys@.tasks.contains_key(t) implies t
            >= abi::KERNEL_VA_OFFSET && k3.sees(t - abi::KERNEL_VA_OFFSET) by {
            if k2.sys@.tasks.contains_key(t) {
                assert(k2.sees(t - abi::KERNEL_VA_OFFSET));
            } else {
                assert(t == kernel::alias(pa));
            }
        }
        assert forall|t: u64| #[trigger] k3.sys@.eps.contains_key(t) implies t
            >= abi::KERNEL_VA_OFFSET && k3.sees(t - abi::KERNEL_VA_OFFSET) by {
            if k2.sys@.eps.contains_key(t) {
                assert(k2.sees(t - abi::KERNEL_VA_OFFSET));
            } else {
                assert(t == kernel::alias(pa));
            }
        }
        assert forall|i: int| 0 <= i < k3.cnode@.len() implies k3.cap_ok(#[trigger] k3.cnode@[i]) by {
            if i < n {
                assert(k2.cap_ok(k2.cnode@[i]));
                if k2.cnode@[i] is PageTable && !k2.cnode@[i]->installed {
                    assert(k2.sees(k2.cnode@[i]->PageTable_base as int));
                    assert(!k2.in_pool(k2.cnode@[i]->PageTable_base as int));
                }
            } else {
                assert(k3.cnode@[i] == kind.fresh(pa));
                assert(k3.sees(pa as int));
            }
        }
        assert(k3.tables_apart()) by {
            assert forall|i: int, j: int|
                #![trigger k3.cnode@[i], k3.cnode@[j]]
                0 <= i < k3.cnode@.len() && 0 <= j < k3.cnode@.len() && k3.cnode@[i] is PageTable
                    && k3.cnode@[j] is PageTable && !k3.cnode@[i]->installed
                    && !k3.cnode@[j]->installed && k3.cnode@[i]->PageTable_base
                    == k3.cnode@[j]->PageTable_base implies i == j by {
                if i < n {
                    assert(k2.cnode@[i] == k3.cnode@[i]);
                }
                if j < n {
                    assert(k2.cnode@[j] == k3.cnode@[j]);
                }
            }
        }
        assert(k3.data() =~= k2.data().insert(pa, crate::mm::mem::zeros(k2.plat)));
        assert(k3.tables() =~= k2.tables());
    }

    /// The kernel sees the frame at `pa` and keeps nothing in it.
    spec fn vacant(&self, pa: u64) -> bool {
        &&& self.sees(pa as int)
        &&& !self.mem.homes().contains_key(pa)
        &&& !self.in_pool(pa as int)
        &&& !self.sys@.tasks.contains_key(kernel::alias(pa))
        &&& !self.sys@.eps.contains_key(kernel::alias(pa))
        &&& forall|i: int|
            0 <= i < self.cnode@.len() && (#[trigger] self.cnode@[i]) is PageTable
                && !self.cnode@[i]->installed ==> self.cnode@[i]->PageTable_base != pa
    }

    /// Makes a frame visible to the kernel. Where that succeeds the frame was not in use.
    fn open_frame(&mut self, pa: u64) -> (r: bool)
        requires
            old(self).wf(),
            pa + old(self).plat.page_size() <= tree::VA_SPAN,
            pa as int % old(self).plat.page_size() == 0,
        ensures
            final(self).wf(),
            final(self).mem.settled() == old(self).mem.settled(),
            final(self).con.same_port(&old(self).con),
            final(self).sys@ == old(self).sys@,
            final(self)@ == (KernelView {
                space: old(self)@.opened(pa).space,
                free: old(self)@.opened(pa).free,
                ..old(self)@
            }),
            r == old(self)@.opened(pa).answer is Ok,
            r ==> final(self).vacant(pa),
    {
        let g = self.plat.granule();
        let window = pa..pa + g;
        let opened = paging::map_kernel_window(window, &mut self.pool, &mut self.mem);
        proof {
            Self::lemma_opened(old(self), self, pa);
        }
        if opened.is_err() {
            return false;
        }
        proof {
            // what is in use was visible before, and the frame was not
            assert(!self.in_pool(pa as int)) by {
                if self.in_pool(pa as int) {
                    assert(old(self).in_pool(pa as int));
                }
            }
            assert(!self.sys@.tasks.contains_key(kernel::alias(pa)));
            assert(!self.sys@.eps.contains_key(kernel::alias(pa)));
            assert forall|i: int|
                0 <= i < self.cnode@.len() && (#[trigger] self.cnode@[i]) is PageTable
                    && !self.cnode@[i]->installed implies self.cnode@[i]->PageTable_base != pa by {
                assert(old(self).cap_ok(old(self).cnode@[i]));
            }
        }
        true
    }

    /// Makes an object of a frame that is visible and was not in use.
    fn carve(&mut self, slot: u64, kind: ObjKind, pa: u64) -> (r: i64)
        requires
            old(self).wf(),
            old(self).sys@.running(),
            cap::carve_site(old(self).cnode@, slot as int, old(self).plat.page_size()) == Ok::<
                u64,
                RetypeError,
            >(pa),
            pa + old(self).plat.page_size() <= tree::VA_SPAN,
            pa as int % old(self).plat.page_size() == 0,
            old(self).vacant(pa),
        ensures
            final(self).wf(),
            final(self).mem.settled() == old(self).mem.settled(),
            final(self).con.same_port(&old(self).con),
            final(self).sys@.running(),
            r == old(self).cnode@.len(),
            final(self)@ == (KernelView {
                caps: cap::carved(
                    old(self).cnode@,
                    slot as int,
                    kind,
                    old(self).plat.page_size(),
                    pa,
                ),
                sys: match kind {
                    ObjKind::Tcb => old(self).sys@.with_new_task(kernel::alias(pa)),
                    ObjKind::Endpoint => old(self).sys@.with_new_ep(kernel::alias(pa)),
                    _ => old(self).sys@,
                },
                data: old(self)@.data.insert(pa, crate::mm::mem::zeros(old(self).plat)),
                ..old(self)@
            }),
    {
        let g = self.plat.granule();
        self.mem.zero(pa);
        let at = pa + abi::KERNEL_VA_OFFSET;
        match kind {
            ObjKind::Tcb => {
                proof {
                    sched::lemma_new_task_inv(self.sys@, at);
                }
                self.sys.add_task(at, Tcb::zeroed());
            },
            ObjKind::Endpoint => {
                proof {
                    sched::lemma_new_ep_inv(self.sys@, at);
                }
                self.sys.add_endpoint(at);
            },
            _ => {},
        }
        let new_slot = self.cnode.commit(slot, kind, g, pa);
        proof {
            Self::lemma_carved(old(self), self, slot, kind, pa);
        }
        new_slot as i64
    }

    /// The error code for a refused retype.
    fn retype_err(e: RetypeError) -> (r: i64)
        ensures
            r == kernel::retype_code(e),
    {
        match e {
            RetypeError::BadSlot => abi::err::BAD_SLOT,
            RetypeError::NotUntyped => abi::err::NOT_UNTYPED,
            RetypeError::Exhausted => abi::err::EXHAUSTED,
            RetypeError::OutOfSlots => abi::err::OUT_OF_SLOTS,
            RetypeError::PrepFailed => abi::err::KERNEL_RESOURCE,
        }
    }

    /// Carves an object out of untyped memory and answers the slot of its capability.
    ///
    /// The frame becomes visible to the kernel and is filled with zeros first, so that
    /// nothing leaks that was in it. Where that fails no capability changes.
    pub fn sys_retype(&mut self, slot: u64, kind: u64) -> (r: i64)
        requires
            old(self).wf(),
            old(self).sys@.running(),
        ensures
            final(self).wf(),
            final(self).mem.settled() == old(self).mem.settled(),
            final(self).con.same_port(&old(self).con),
            final(self).sys@.running(),
            (final(self)@, r) == old(self)@.retyped(slot, kind),
    {
        let kind = match kind {
            abi::obj::FRAME => ObjKind::Frame,
            abi::obj::PAGE_TABLE => ObjKind::PageTable,
            abi::obj::TCB => ObjKind::Tcb,
            abi::obj::ENDPOINT => ObjKind::Endpoint,
            _ => {
                return abi::err::BAD_TYPE;
            },
        };
        let g = self.plat.granule();
        let pa = match self.cnode.site(slot, g) {
            Ok(pa) => pa,
            Err(e) => {
                return Self::retype_err(e);
            },
        };
        proof {
            assert(self.cap_ok(self.cnode@[slot as int]));
            assert(self.cnode@[slot as int].valid());
            let c = self.cnode@[slot as int];
            crate::align::lemma_up(c->Untyped_base + c->used, g as int);
        }
        if !self.open_frame(pa) {
            return abi::err::KERNEL_RESOURCE;
        }
        self.carve(slot, kind, pa)
    }

    /// The kernel is as it should be after a user mapping and the change of its
    /// capability.
    proof fn lemma_user_mapped(k1: &Kernel, k2: &Kernel, slot: int, table: Option<u64>)
        requires
            k1.wf(),
            k2.plat == k1.plat,
            k2.con == k1.con,
            k2.pool == k1.pool,
            k2.sys == k1.sys,
            k2.mem.wf(),
            k2.mem.platform() == k1.plat,
            k2.cnode.wf(),
            0 <= slot < k1.cnode@.len(),
            match table {
                None => {
                    &&& k1.cnode@[slot] is Frame
                    &&& k2.cnode@[slot] is Frame
                    &&& k2.mem.homes() == k1.mem.homes()
                },
                Some(base) => {
                    &&& k1.cnode@[slot] == (Cap::PageTable { base, installed: false })
                    &&& k2.cnode@[slot] == (Cap::PageTable { base, installed: true })
                },
            },
            k2.cnode@ == k1.cnode@.update(slot, k2.cnode@[slot]),
            forall|t: u64| #[trigger]
                k1.mem.homes().contains_key(t) ==> k2.mem.homes().contains_key(t)
                    && k2.mem.homes()[t] == k1.mem.homes()[t],
            forall|t: u64| #[trigger]
                k2.mem.homes().contains_key(t) <==> k1.mem.homes().contains_key(t) || table
                    == Some(t),
            k2.mem@.dom() == k1.mem@.dom(),
            forall|t: u64| #[trigger]
                k1.mem@.contains_key(t) && !k1.mem.homes().contains_key(t) ==> k2.mem@[t]
                    == k1.mem@[t],
            forall|r: u64, p: int| #[trigger]
                k1.mem.space().leaves.contains_key((r, p))
                    ==> k2.mem.space().leaves.contains_key((r, p)),
        ensures
            k2.wf(),
            k2@ == (KernelView {
                caps: k2.cnode@,
                space: k2.mem.space(),
                tables: match table {
                    None => k1@.tables,
                    Some(base) => k1@.tables.insert(base),
                },
                data: match table {
                    None => k1@.data,
                    Some(base) => k1@.data.remove(base),
                },
                ..k1@
            }),
    {
        assert(k1.cap_ok(k1.cnode@[slot]));
        assert forall|p: int| k1.sees(p) implies #[trigger] k2.sees(p) by {}
        assert forall|t: int| #[trigger] k2.in_pool(t) implies k2.sees(t) by {
            assert(k1.in_pool(t));
            assert(k1.sees(t));
        }
        assert forall|t: u64| #[trigger] k2.mem.homes().contains_key(t) implies k2.sees(
            t as int,
        ) by {
            assert(k1.sees(t as int));
        }
        assert forall|t: u64| #[trigger] k2.sys@.tasks.contains_key(t) implies k2.sees(
            t - abi::KERNEL_VA_OFFSET,
        ) by {
            assert(k1.sees(t - abi::KERNEL_VA_OFFSET));
        }
        assert forall|t: u64| #[trigger] k2.sys@.eps.contains_key(t) implies k2.sees(
            t - abi::KERNEL_VA_OFFSET,
        ) by {
            assert(k1.sees(t - abi::KERNEL_VA_OFFSET));
        }
        assert(k2.pool.wf(&k2.mem)) by {
            assert forall|c: u64| #[trigger]
                k2.pool.tables.fresh().contains(c) implies !k2.mem.homes().contains_key(
                c,
            ) by {
                k1.pool.tables.lemma_fresh(k1.plat, c);
                if table == Some(c) {
                    assert(!k1.in_pool(c as int));
                }
            }
            assert(k1.mem.homes().contains_key(k1.pool.root1));
        }
        assert forall|i: int| 0 <= i < k2.cnode@.len() implies k2.cap_ok(#[trigger] k2.cnode@[i]) by {
            if i != slot {
                let c = k1.cnode@[i];
                assert(k2.cnode@[i] == c);
                assert(k1.cap_ok(c));
                if c is PageTable && !c->installed {
                    let base = c->PageTable_base;
                    assert(k1.sees(base as int));
                    assert(!k1.in_pool(base as int));
                    assert(k1.mem@.dom().contains(base));
                    if table == Some(base) {
                        assert(i == slot);
                    }
                }
                if c is AddrSpace {
                    assert(k1.mem.homes().contains_key(c->root_pa));
                }
            }
        }
        assert(k2.tables_apart()) by {
            assert forall|i: int, j: int|
                #![trigger k2.cnode@[i], k2.cnode@[j]]
                0 <= i < k2.cnode@.len() && 0 <= j < k2.cnode@.len() && k2.cnode@[i] is PageTable
                    && k2.cnode@[j] is PageTable && !k2.cnode@[i]->installed
                    && !k2.cnode@[j]->installed && k2.cnode@[i]->PageTable_base
                    == k2.cnode@[j]->PageTable_base implies i == j by {
                assert(k1.cnode@[i] == k2.cnode@[i]);
                assert(k1.cnode@[j] == k2.cnode@[j]);
            }
        }
        let tables = match table {
            None => k1.tables(),
            Some(base) => k1.tables().insert(base),
        };
        assert(k2.tables() =~= tables) by {
            assert forall|t: u64| k2.tables().contains(t) == tables.contains(t) by {
                assert(k2.mem.homes().contains_key(t) <==> k1.mem.homes().contains_key(t) || table
                    == Some(t));
            }
        }
        let want = match table {
            None => k1.data(),
            Some(base) => k1.data().remove(base),
        };
        assert(k2.data() =~= want) by {
            assert forall|t: u64| k2.data().contains_key(t) <==> want.contains_key(t) by {
                assert(k2.mem@.dom().contains(t) == k1.mem@.dom().contains(t));
                assert(k2.mem.homes().contains_key(t) <==> k1.mem.homes().contains_key(t) || table
                    == Some(t));
            }
        }
    }

    /// The error code for a refused mapping.
    fn mmu_err(e: MmuError) -> (r: i64)
        requires
            e != MmuError::BadTable,
        ensures
            r == kernel::mmu_code(e),
    {
        match e {
            MmuError::Misaligned => abi::err::BAD_VA,
            MmuError::NullPage => abi::err::BAD_VA,
            MmuError::Overlap => abi::err::OVERLAP,
            MmuError::MissingTable => abi::err::MISSING_TABLE,
            _ => abi::err::KERNEL_RESOURCE,
        }
    }

    /// Maps a frame, or installs a table, in the address space that is presented.
    ///
    /// The capability decides which of the two. No executable mapping can be made, and
    /// a frame or table is mapped once at most.
    pub fn sys_map(&mut self, slot: u64, va: u64, perm: u64, aspace: u64) -> (r: i64)
        requires
            old(self).wf(),
            old(self).sys@.running(),
        ensures
            final(self).wf(),
            final(self).mem.settled() == old(self).mem.settled(),
            final(self).con.same_port(&old(self).con),
            final(self).sys@.running(),
            (final(self)@, r) == old(self)@.mapped(slot, va, perm, aspace),
    {
        let root = match self.aspace(aspace) {
            Ok(root) => root,
            Err(e) => {
                return e;
            },
        };
        match self.cnode.cap_at(slot) {
            Some(Cap::Frame { base, mapped }) => {
                if mapped {
                    return abi::err::ALREADY_MAPPED;
                }
                let perm = match perm {
                    abi::perm::RO => UserPerm::RoUser,
                    abi::perm::RW => UserPerm::RwUser,
                    _ => {
                        return abi::err::BAD_PERM;
                    },
                };
                match user::user_map_frame(&mut self.mem, root, va, base, perm) {
                    Ok(_) => {},
                    Err(e) => {
                        proof {
                            Self::lemma_refused(old(self), self);
                        }
                        return Self::mmu_err(e);
                    },
                }
                self.set_cap(slot, Cap::Frame { base, mapped: true });
                proof {
                    Self::lemma_user_mapped(old(self), self, slot as int, None);
                }
                0
            },
            Some(Cap::PageTable { base, installed }) => {
                if installed {
                    return abi::err::ALREADY_MAPPED;
                }
                proof {
                    assert(self.cap_ok(self.cnode@[slot as int]));
                }
                match user::user_install_table(&mut self.mem, root, va, base) {
                    Ok(_) => {},
                    Err(e) => {
                        proof {
                            assert(self.mem.homes().dom() =~= old(self).mem.homes().dom());
                            Self::lemma_refused(old(self), self);
                        }
                        return Self::mmu_err(e);
                    },
                }
                self.set_cap(slot, Cap::PageTable { base, installed: true });
                proof {
                    Self::lemma_user_mapped(old(self), self, slot as int, Some(base));
                }
                0
            },
            Some(_) => abi::err::BAD_CAP,
            None => abi::err::BAD_SLOT,
        }
    }

    /// Replaces the capability in a slot.
    fn set_cap(&mut self, slot: u64, c: Cap)
        requires
            old(self).cnode.wf(),
            slot < old(self).cnode@.len(),
            c.valid(),
        ensures
            final(self).cnode.wf(),
            final(self).cnode@ == old(self).cnode@.update(slot as int, c),
            final(self).plat == old(self).plat,
            final(self).con == old(self).con,
            final(self).sys == old(self).sys,
            final(self).pool == old(self).pool,
            final(self).mem == old(self).mem,
    {
        if let Some(place) = self.cnode.cap_mut(slot as usize) {
            *place = c;
        }
    }

    /// A refused mapping changes nothing that counts.
    proof fn lemma_refused(k1: &Kernel, k2: &Kernel)
        requires
            k1.wf(),
            k2.plat == k1.plat,
            k2.con == k1.con,
            k2.pool == k1.pool,
            k2.sys == k1.sys,
            k2.cnode == k1.cnode,
            k2.mem.wf(),
            k2.mem.platform() == k1.plat,
            k2.mem.space() == k1.mem.space(),
            k2.mem@.dom() == k1.mem@.dom(),
            k2.mem.homes().dom() == k1.mem.homes().dom(),
            forall|t: u64| #[trigger]
                k1.mem.homes().contains_key(t) ==> k2.mem.homes()[t] == k1.mem.homes()[t],
            forall|t: u64| #[trigger]
                k1.mem@.contains_key(t) && !k1.mem.homes().contains_key(t) ==> k2.mem@[t]
                    == k1.mem@[t],
        ensures
            k2.wf(),
            k2@ == k1@,
    {
        assert forall|t: u64| #[trigger] k2.mem.homes().contains_key(t) <==> k1.mem.homes().contains_key(
            t,
        ) by {
            assert(k2.mem.homes().dom().contains(t) == k1.mem.homes().dom().contains(t));
        }
        assert forall|p: int| k1.sees(p) implies #[trigger] k2.sees(p) by {}
        assert forall|t: int| #[trigger] k2.in_pool(t) implies k2.sees(t) by {
            assert(k1.in_pool(t));
            assert(k1.sees(t));
        }
        assert forall|t: u64| #[trigger] k2.sys@.tasks.contains_key(t) implies k2.sees(
            t - abi::KERNEL_VA_OFFSET,
        ) by {
            assert(k1.sees(t - abi::KERNEL_VA_OFFSET));
        }
        assert forall|t: u64| #[trigger] k2.sys@.eps.contains_key(t) implies k2.sees(
            t - abi::KERNEL_VA_OFFSET,
        ) by {
            assert(k1.sees(t - abi::KERNEL_VA_OFFSET));
        }
        assert forall|t: u64| #[trigger] k2.mem.homes().contains_key(t) implies k2.sees(
            t as int,
        ) by {
            assert(k1.sees(t as int));
        }
        assert forall|i: int| 0 <= i < k2.cnode@.len() implies k2.cap_ok(#[trigger] k2.cnode@[i]) by {
            let c = k1.cnode@[i];
            assert(k1.cap_ok(c));
            if c is PageTable && !c->installed {
                assert(k1.mem@.dom().contains(c->PageTable_base));
                assert(!k1.in_pool(c->PageTable_base as int));
            }
            if c is AddrSpace {
                assert(k1.mem.homes().contains_key(c->root_pa));
            }
        }
        assert(k1.mem.homes().contains_key(k1.pool.root1));
        assert(k2.tables() =~= k1.tables());
        assert(k2.data() =~= k1.data()) by {
            assert forall|t: u64| k2.data().contains_key(t) <==> k1.data().contains_key(t) by {
                assert(k2.mem@.dom().contains(t) == k1.mem@.dom().contains(t));
            }
        }
    }

    /// Gives the current task the result of its call.
    fn answer(&mut self, v: i64)
        requires
            old(self).wf(),
            old(self).sys@.running(),
        ensures
            final(self).wf(),
            final(self).mem.settled() == old(self).mem.settled(),
            final(self).con.same_port(&old(self).con),
            final(self).sys@.running(),
            final(self)@ == old(self)@.answered(v),
    {
        let cur = sched::current(&self.sys);
        proof {
            ipc::lemma_ctx_inv(self.sys@, cur, self.sys@.tasks[cur].ctx.set_x(0, v as u64));
        }
        self.sys.set_x0(cur, v as u64);
        proof {
            assert(self.sys@.tasks.dom() =~= old(self).sys@.tasks.dom());
            Self::lemma_sys_changed(old(self), self);
        }
    }

    /// Every task and endpoint capability has its object.
    pub proof fn lemma_objects_exist(&self)
        requires
            self.wf(),
        ensures
            self@.objects_exist(),
    {
        assert forall|i: int|
            #![trigger self.cnode@[i]]
            0 <= i < self.cnode@.len() && self.cnode@[i] is Endpoint implies {
            &&& self.cnode@[i]->Endpoint_base + abi::KERNEL_VA_OFFSET <= u64::MAX
            &&& self.sys@.eps.contains_key(
                (self.cnode@[i]->Endpoint_base + abi::KERNEL_VA_OFFSET) as u64,
            )
        } by {
            assert(self.cap_ok(self.cnode@[i]));
        }
        assert forall|i: int|
            #![trigger self.cnode@[i]]
            0 <= i < self.cnode@.len()
                && self.cnode@[i] is Tcb implies self.sys@.tasks.contains_key(
            kernel::alias(self.cnode@[i]->Tcb_base),
        ) by {
            assert(self.cap_ok(self.cnode@[i]));
        }
    }

    /// Stops everything where IPC has left no task that could go on.
    fn ipc_or_park(&mut self, ok: bool) -> (r: Outcome)
        requires
            old(self).wf(),
        ensures
            final(self).wf(),
            final(self).mem.settled() == old(self).mem.settled(),
            final(self).con.same_port(&old(self).con),
            final(self).sys == old(self).sys,
            r == (if ok { Outcome::Resume } else { Outcome::Park }),
            final(self)@ == (if ok {
                old(self)@
            } else {
                old(self)@.said(earlycon::text("k0: all tasks blocked\n"))
            }),
    {
        if !ok {
            self.con.put_str("k0: all tasks blocked\n");
            proof {
                Self::lemma_sys_changed(old(self), self);
            }
            return Outcome::Park;
        }
        Outcome::Resume
    }

    /// Reports the end of the current task and ends it.
    fn exit_task(&mut self, code: u64) -> (r: Outcome)
        requires
            old(self).wf(),
            old(self).sys@.running(),
        ensures
            final(self).wf(),
            final(self).mem.settled() == old(self).mem.settled(),
            final(self).con.same_port(&old(self).con),
            r == Outcome::Resume ==> final(self).sys@.running(),
            (final(self)@, r) == old(self)@.said(
                earlycon::text("k0: task exited (code ") + earlycon::dec_sent(code)
                    + earlycon::text(")\n"),
            ).killed(),
    {
        self.con.put_str("k0: task exited (code ");
        self.con.put_dec(code);
        self.con.put_str(")\n");
        proof {
            let more = earlycon::text("k0: task exited (code ") + earlycon::dec_sent(code)
                + earlycon::text(")\n");
            assert(self.con@ =~= old(self).con@ + more);
            Self::lemma_sys_changed(old(self), self);
        }
        self.kill_current()
    }

    /// Reports a call that does not exist and ends the current task.
    fn unknown_call(&mut self, nr: u64) -> (r: Outcome)
        requires
            old(self).wf(),
            old(self).sys@.running(),
        ensures
            final(self).wf(),
            final(self).mem.settled() == old(self).mem.settled(),
            final(self).con.same_port(&old(self).con),
            r == Outcome::Resume ==> final(self).sys@.running(),
            (final(self)@, r) == old(self)@.said(
                earlycon::text("k0: unknown syscall ") + earlycon::dec_sent(nr) + earlycon::text(
                    ", killing task\n",
                ),
            ).killed(),
    {
        self.con.put_str("k0: unknown syscall ");
        self.con.put_dec(nr);
        self.con.put_str(", killing task\n");
        proof {
            let more = earlycon::text("k0: unknown syscall ") + earlycon::dec_sent(nr)
                + earlycon::text(", killing task\n");
            assert(self.con@ =~= old(self).con@ + more);
            Self::lemma_sys_changed(old(self), self);
        }
        self.kill_current()
    }

    /// Handles a system call of the current task: x8 is the number, x0 to x5 are the
    /// arguments. A task that makes an unknown call ends.
    pub fn k0_syscall(&mut self) -> (r: Outcome)
        requires
            old(self).wf(),
            old(self).sys@.running(),
        ensures
            final(self).wf(),
            final(self).mem.settled() == old(self).mem.settled(),
            final(self).con.same_port(&old(self).con),
            (final(self)@, r) == old(self)@.syscall(),
            r == Outcome::Resume ==> final(self).sys@.running(),
    {
        let cur = sched::current(&self.sys);
        let ctx = self.sys.ctx(cur);
        let x = ctx.x;
        let nr = x[8];
        match nr {
            abi::syscall::DEBUG_PUTC => {
                let v = self.sys_putc(x[0], x[1]);
                self.answer(v);
                Outcome::Resume
            },
            abi::syscall::YIELD => {
                self.answer(0);
                self.k0_preempt();
                Outcome::Resume
            },
            abi::syscall::EXIT => self.exit_task(x[0]),
            abi::syscall::RETYPE => {
                let v = self.sys_retype(x[0], x[1]);
                self.answer(v);
                Outcome::Resume
            },
            abi::syscall::MAP => {
                let v = self.sys_map(x[0], x[1], x[2], x[3]);
                self.answer(v);
                Outcome::Resume
            },
            abi::syscall::TCB_CONFIGURE => {
                let v = self.sys_tcb_configure(x[0], x[1], x[2], x[3]);
                self.answer(v);
                Outcome::Resume
            },
            abi::syscall::TCB_RESUME => {
                let v = self.sys_tcb_resume(x[0]);
                self.answer(v);
                Outcome::Resume
            },
            abi::syscall::SEND => {
                proof {
                    self.lemma_objects_exist();
                }
                let ok = ipc::sys_send(&self.cnode, &mut self.sys);
                proof {
                    ipc::lemma_doms(old(self).sys@, self.cnode@);
                    Self::lemma_sys_changed(old(self), self);
                }
                self.ipc_or_park(ok)
            },
            abi::syscall::RECV => {
                proof {
                    self.lemma_objects_exist();
                }
                let ok = ipc::sys_recv(&self.cnode, &mut self.sys);
                proof {
                    ipc::lemma_doms(old(self).sys@, self.cnode@);
                    Self::lemma_sys_changed(old(self), self);
                }
                self.ipc_or_park(ok)
            },
            abi::syscall::CALL => {
                proof {
                    self.lemma_objects_exist();
                }
                let ok = ipc::sys_call(&self.cnode, &mut self.sys);
                proof {
                    ipc::lemma_doms(old(self).sys@, self.cnode@);
                    Self::lemma_sys_changed(old(self), self);
                }
                self.ipc_or_park(ok)
            },
            abi::syscall::REPLY_RECV => {
                proof {
                    self.lemma_objects_exist();
                }
                let ok = ipc::sys_reply_recv(&self.cnode, &mut self.sys);
                proof {
                    ipc::lemma_doms(old(self).sys@, self.cnode@);
                    Self::lemma_sys_changed(old(self), self);
                }
                self.ipc_or_park(ok)
            },
            _ => self.unknown_call(nr),
        }
    }

    /// Handles a fault of the current task: the task ends, and nothing else.
    pub fn k0_fault(&mut self, esr: u64, far: u64) -> (r: Outcome)
        requires
            old(self).wf(),
            old(self).sys@.running(),
        ensures
            final(self).wf(),
            final(self).mem.settled() == old(self).mem.settled(),
            final(self).con.same_port(&old(self).con),
            (final(self)@, r) == old(self)@.faulted(esr, far),
            r == Outcome::Resume ==> final(self).sys@.running(),
    {
        let cur = sched::current(&self.sys);
        let elr = self.sys.ctx(cur).elr;
        let ec = vectors::ec_name((esr >> 26) & 0x3F);
        self.con.put_str("k0: task fault ");
        self.con.put_str(ec);
        self.con.put_str(" (esr ");
        self.con.put_short_hex(esr);
        self.con.put_str(" elr ");
        self.con.put_short_hex(elr);
        self.con.put_str(" far ");
        self.con.put_short_hex(far);
        self.con.put_str("), killing task\n");
        proof {
            let more = kernel::fault_text(esr, elr, far);
            assert(self.con@ =~= old(self).con@ + more);
            Self::lemma_sys_changed(old(self), self);
        }
        self.kill_current()
    }

    /// Handles a timer tick that came while a user task ran.
    pub fn k0_preempt(&mut self)
        requires
            old(self).wf(),
            old(self).sys@.running(),
        ensures
            final(self).wf(),
            final(self).mem.settled() == old(self).mem.settled(),
            final(self).con.same_port(&old(self).con),
            final(self).sys@.running(),
            final(self)@ == old(self)@.preempted(),
    {
        sched::rotate(&mut self.sys);
        proof {
            assert(self.sys@.tasks.dom() =~= old(self).sys@.tasks.dom());
            Self::lemma_sys_changed(old(self), self);
        }
    }

    /// Handles an interrupt that came while a user task ran.
    fn interrupt(&mut self, timer: &mut Timer, e: IrqEvent, kind: &str) -> (r: Outcome)
        requires
            old(self).wf(),
            old(self).sys@.running(),
        ensures
            final(self).wf(),
            final(self).mem.settled() == old(self).mem.settled(),
            final(self).con.same_port(&old(self).con),
            final(self).sys@.running(),
            final(timer).ticks == (if e == IrqEvent::Tick {
                old(timer).ticks.wrapping_add(1)
            } else {
                old(timer).ticks
            }),
            (final(self)@, r) == old(self)@.interrupted(e, kind, final(timer).ticks),
    {
        let go_on = irq::note_event(timer, &mut self.con, e, kind);
        proof {
            Self::lemma_sys_changed(old(self), self);
        }
        match e {
            IrqEvent::Tick => {
                self.k0_preempt();
            },
            _ => {},
        }
        if go_on {
            Outcome::Resume
        } else {
            Outcome::Park
        }
    }

    /// Handles an interrupt that came while a user task ran; `iar` is what the interrupt
    /// controller says it is.
    pub fn irq_lower(&mut self, timer: &mut Timer, iar: u64) -> (r: Outcome)
        requires
            old(self).wf(),
            old(self).sys@.running(),
        ensures
            final(self).wf(),
            final(self).mem.settled() == old(self).mem.settled(),
            final(self).con.same_port(&old(self).con),
            final(self).sys@.running(),
            ({
                let e = irq::irq_event(old(self).plat, iar);
                &&& final(timer).ticks == (if e == IrqEvent::Tick {
                    old(timer).ticks.wrapping_add(1)
                } else {
                    old(timer).ticks
                })
                &&& (final(self)@, r) == old(self)@.interrupted(e, "irq", final(timer).ticks)
            }),
    {
        let e = irq::dispatch_irq(self.plat, iar);
        self.interrupt(timer, e, "irq")
    }

    /// Handles a fast interrupt that came while a user task ran; `timer_ctl` is the control
    /// register of the timer.
    pub fn fiq_lower(&mut self, timer: &mut Timer, timer_ctl: u64) -> (r: Outcome)
        requires
            old(self).wf(),
            old(self).sys@.running(),
        ensures
            final(self).wf(),
            final(self).mem.settled() == old(self).mem.settled(),
            final(self).con.same_port(&old(self).con),
            final(self).sys@.running(),
            ({
                let e = irq::fiq_event(old(self).plat, timer_ctl);
                &&& final(timer).ticks == (if e == IrqEvent::Tick {
                    old(timer).ticks.wrapping_add(1)
                } else {
                    old(timer).ticks
                })
                &&& (final(self)@, r) == old(self)@.interrupted(e, "fiq", final(timer).ticks)
            }),
    {
        let e = irq::dispatch_fiq(self.plat, timer_ctl);
        self.interrupt(timer, e, "fiq")
    }

    /// Saves the registers of the current task.
    pub fn save(&mut self, ctx: Context)
        requires
            old(self).wf(),
            old(self).sys@.running(),
        ensures
            final(self).wf(),
            final(self).mem.settled() == old(self).mem.settled(),
            final(self).con.same_port(&old(self).con),
            final(self).sys@.running(),
            final(self)@ == old(self)@.saved(ctx@),
    {
        let cur = sched::current(&self.sys);
        proof {
            ipc::lemma_ctx_inv(self.sys@, cur, ctx@);
        }
        self.sys.set_ctx(cur, ctx);
        proof {
            assert(self.sys@.tasks.dom() =~= old(self).sys@.tasks.dom());
            Self::lemma_sys_changed(old(self), self);
        }
    }

    /// Handles a synchronous exception of the current task.
    pub fn el0_sync(&mut self, esr: u64, far: u64) -> (r: Outcome)
        requires
            old(self).wf(),
            old(self).sys@.running(),
        ensures
            final(self).wf(),
            final(self).mem.settled() == old(self).mem.settled(),
            final(self).con.same_port(&old(self).con),
            (final(self)@, r) == old(self)@.trapped(esr, far),
            r == Outcome::Resume ==> final(self).sys@.running(),
    {
        match usermode::trap(esr) {
            Trap::Syscall => self.k0_syscall(),
            Trap::Wait => {
                let cur = sched::current(&self.sys);
                let mut ctx = self.sys.ctx(cur);
                ctx.elr = ctx.elr.wrapping_add(4);
                self.save(ctx);
                Outcome::Resume
            },
            Trap::Fault => self.k0_fault(esr, far),
        }
    }
}

} // verus!
