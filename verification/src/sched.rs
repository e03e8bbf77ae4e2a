//! The round-robin scheduler.
//!
//! Ready tasks wait in one queue that is linked through the tasks. A switch
//! names another task as the current one and installs its address space where
//! that differs from the installed one.
use vstd::prelude::*;

use crate::arch::usermode::{set_current, Context, CurrentContext};
use crate::objmap::ObjMap;
use crate::seqs;
use crate::task::{self, Endpoint, TaskState, TaskView, Tcb, TcbQueue};

pub mod laws;

verus! {

/// Scheduler state.
pub struct Sched {
    /// The task on the processor.
    pub current: u64,
    /// Tasks that wait for the processor.
    pub ready: TcbQueue,
    /// The context that the exception path saves and restores.
    pub context: CurrentContext,
    /// The installed user translation table.
    pub ttbr0: u64,
}

/// All tasks and endpoints, with the scheduler.
pub struct System {
    pub tasks: ObjMap<Tcb>,
    pub eps: ObjMap<Endpoint>,
    pub sched: Sched,
}

/// The mathematical content of a [`System`]: queues are sequences, links are
/// gone.
#[verifier::ext_equal]
pub struct SystemView {
    pub tasks: Map<u64, TaskView>,
    pub eps: Map<u64, Seq<u64>>,
    pub ready: Seq<u64>,
    pub current: u64,
    pub context: u64,
    pub ttbr0: u64,
}

/// The queues of all endpoints, by address.
pub open spec fn ep_views(m: Map<u64, Endpoint>) -> Map<u64, Seq<u64>> {
    Map::new(|k: u64| m.contains_key(k), |k: u64| m[k].queue@)
}

/// Whether a task in this state waits in the queue of an endpoint.
pub open spec fn waiting(state: TaskState) -> bool {
    state == TaskState::BlockedSend || state == TaskState::BlockedRecv || state
        == TaskState::BlockedCall
}

impl View for System {
    type V = SystemView;

    open spec fn view(&self) -> SystemView {
        SystemView {
            tasks: task::task_views(self.tasks@),
            eps: ep_views(self.eps@),
            ready: self.sched.ready@,
            current: self.sched.current,
            context: self.sched.context.tcb,
            ttbr0: self.sched.ttbr0,
        }
    }
}

impl SystemView {
    /// No task is in two queues.
    pub open spec fn disjoint(self) -> bool {
        &&& forall|e: u64, t: u64|
            #![trigger self.eps[e].contains(t)]
            self.eps.contains_key(e) && self.eps[e].contains(t) ==> !self.ready.contains(t)
        &&& forall|e1: u64, e2: u64, t: u64|
            #![trigger self.eps[e1].contains(t), self.eps[e2].contains(t)]
            self.eps.contains_key(e1) && self.eps.contains_key(e2) && self.eps[e1].contains(t)
                && self.eps[e2].contains(t) ==> e1 == e2
    }

    /// Whether the task is in no queue.
    pub open spec fn unqueued(self, t: u64) -> bool {
        &&& !self.ready.contains(t)
        &&& forall|e: u64| #[trigger] self.eps.contains_key(e) ==> !self.eps[e].contains(t)
    }

    /// The ready queue holds exactly the ready tasks, each once.
    pub open spec fn ready_inv(self) -> bool {
        &&& self.ready.no_duplicates()
        &&& forall|t: u64|
            #![trigger self.ready.contains(t)]
            self.ready.contains(t) <==> self.tasks.contains_key(t) && self.tasks[t].state
                == TaskState::Ready
    }

    /// The endpoint queues hold exactly the waiting tasks, each once, and no
    /// queue holds senders and receivers at the same time.
    pub open spec fn eps_inv(self) -> bool {
        &&& forall|e: u64| #[trigger] self.eps.contains_key(e) ==> self.eps[e].no_duplicates()
        &&& forall|e: u64, t: u64|
            #![trigger self.eps[e].contains(t)]
            self.eps.contains_key(e) && self.eps[e].contains(t) ==> self.tasks.contains_key(t)
                && waiting(self.tasks[t].state)
        &&& forall|t: u64|
            #![trigger self.tasks[t].state]
            self.tasks.contains_key(t) && waiting(self.tasks[t].state) ==> exists|e: u64|
                self.eps.contains_key(e) && #[trigger] self.eps[e].contains(t)
        &&& forall|e: u64, t1: u64, t2: u64|
            #![trigger self.eps[e].contains(t1), self.eps[e].contains(t2)]
            self.eps.contains_key(e) && self.eps[e].contains(t1) && self.eps[e].contains(t2)
                && self.tasks[t1].state == TaskState::BlockedRecv ==> self.tasks[t2].state
                == TaskState::BlockedRecv
    }

    /// Every task that waits for a reply is owed it by exactly one task, another
    /// one, and that task is alive.
    pub open spec fn reply_inv(self) -> bool {
        &&& forall|h: u64|
            #![trigger self.tasks[h].reply_to]
            self.tasks.contains_key(h) && self.tasks[h].reply_to != 0 ==> {
                &&& self.tasks[h].reply_to != h
                &&& self.tasks.contains_key(self.tasks[h].reply_to)
                &&& self.tasks[self.tasks[h].reply_to].state == TaskState::BlockedReply
                &&& self.tasks[h].state != TaskState::Inactive
                &&& self.tasks[h].state != TaskState::Stopped
                &&& self.tasks[h].state != TaskState::Dead
            }
        &&& forall|h1: u64, h2: u64|
            #![trigger self.tasks[h1].reply_to, self.tasks[h2].reply_to]
            self.tasks.contains_key(h1) && self.tasks.contains_key(h2) && self.tasks[h1].reply_to
                != 0 && self.tasks[h1].reply_to == self.tasks[h2].reply_to ==> h1 == h2
        &&& forall|t: u64|
            #![trigger self.tasks[t].state]
            self.tasks.contains_key(t) && self.tasks[t].state == TaskState::BlockedReply
                ==> self.has_holder(t)
    }

    /// Whether some task owes `t` a reply.
    pub open spec fn has_holder(self, t: u64) -> bool {
        exists|h: u64| self.tasks.contains_key(h) && #[trigger] self.tasks[h].reply_to == t
    }

    /// What holds of the system at every kernel entry and exit.
    pub open spec fn inv(self) -> bool {
        &&& !self.tasks.contains_key(0)
        &&& self.tasks.contains_key(self.current)
        &&& self.context == self.current
        &&& self.ttbr0 == self.tasks[self.current].ttbr0_pa
        &&& forall|t: u64|
            #![trigger self.tasks[t].state]
            self.tasks.contains_key(t) && self.tasks[t].state == TaskState::Running ==> t
                == self.current
        &&& self.disjoint()
        &&& self.ready_inv()
        &&& self.eps_inv()
        &&& self.reply_inv()
    }

    /// Whether the current task is on the processor (and not blocked or dead).
    pub open spec fn running(self) -> bool {
        self.tasks[self.current].state == TaskState::Running
    }

    pub open spec fn with_task(self, t: u64, v: TaskView) -> SystemView {
        SystemView { tasks: self.tasks.insert(t, v), ..self }
    }

    pub open spec fn with_ep(self, e: u64, q: Seq<u64>) -> SystemView {
        SystemView { eps: self.eps.insert(e, q), ..self }
    }

    /// The system after `t` has joined the ready queue.
    pub open spec fn enqueued(self, t: u64) -> SystemView {
        SystemView {
            ready: self.ready.push(t),
            ..self.with_task(t, self.tasks[t].with_state(TaskState::Ready))
        }
    }

    /// The system after the first ready task has been taken out of the queue.
    pub open spec fn popped(self) -> SystemView {
        SystemView { ready: self.ready.drop_first(), ..self }
    }

    /// The system after the processor has gone to `t`.
    pub open spec fn switched_to(self, t: u64) -> SystemView {
        SystemView {
            current: t,
            context: t,
            ttbr0: self.tasks[t].ttbr0_pa,
            ..self.with_task(t, self.tasks[t].with_state(TaskState::Running))
        }
    }

    /// The system after a switch to the first ready task; nothing changes, and
    /// the second component is false, where no task is ready.
    pub open spec fn block_and_switch(self) -> (SystemView, bool) {
        if self.ready.len() == 0 {
            (self, false)
        } else {
            (self.popped().switched_to(self.ready[0]), true)
        }
    }

    /// The system after the current task has gone to the end of the ready queue
    /// and the first ready task has the processor; the same where no task is
    /// ready.
    pub open spec fn rotated(self) -> SystemView {
        if self.ready.len() == 0 {
            self
        } else {
            self.popped().enqueued(self.current).switched_to(self.ready[0])
        }
    }

    /// The system after the current task has died.
    pub open spec fn exited(self) -> (SystemView, bool) {
        self.with_task(
            self.current,
            self.tasks[self.current].with_state(TaskState::Dead),
        ).block_and_switch()
    }
}

impl System {
    /// Whether the links among the tasks spell out the queues, and no task is in
    /// two of them.
    pub open spec fn rep(&self) -> bool {
        &&& self.tasks.wf()
        &&& self.eps.wf()
        &&& !self.tasks@.contains_key(0)
        &&& self.sched.ready.linked_in(self.tasks@)
        &&& forall|e: u64| #[trigger]
            self.eps@.contains_key(e) ==> self.eps@[e].queue.linked_in(self.tasks@)
        &&& self@.disjoint()
    }

    /// What holds of a system at every kernel entry and exit.
    pub open spec fn wf(&self) -> bool {
        &&& self.rep()
        &&& self@.inv()
    }
}

/// A queue stays linked while the links of its members stay as they are.
pub proof fn lemma_linked_frame(m1: Map<u64, Tcb>, m2: Map<u64, Tcb>, queue: TcbQueue)
    requires
        queue.linked_in(m1),
        forall|k: u64| #[trigger]
            queue@.contains(k) && m1.contains_key(k) ==> m2.contains_key(k) && m2[k].next
                == m1[k].next,
    ensures
        queue.linked_in(m2),
{
    let q = queue@;
    assert forall|i: int| 0 <= i < q.len() implies {
        &&& q[i] != 0
        &&& m2.contains_key(q[i])
        &&& m2[q[i]].next == (if i + 1 < q.len() { q[i + 1] } else { 0 })
    } by {
        assert(q.contains(q[i]));
    }
}

/// What becomes of the whole when one task changes but keeps its link.
proof fn lemma_task_changed(s1: System, s2: System, t: u64)
    requires
        s1.rep(),
        s2.tasks.wf(),
        s2.eps == s1.eps,
        s2.sched == s1.sched,
        s1.tasks@.contains_key(t),
        s2.tasks@ == s1.tasks@.insert(t, s2.tasks@[t]),
        s2.tasks@[t].next == s1.tasks@[t].next,
    ensures
        s2.rep(),
        s2@ == s1@.with_task(t, s2.tasks@[t]@),
{
    lemma_linked_frame(s1.tasks@, s2.tasks@, s1.sched.ready);
    assert forall|e: u64| s2.eps@.contains_key(e) implies #[trigger] s2.eps@[e].queue.linked_in(
        s2.tasks@,
    ) by {
        lemma_linked_frame(s1.tasks@, s2.tasks@, s1.eps@[e].queue);
    }
    assert(s2@.tasks =~= s1@.tasks.insert(t, s2.tasks@[t]@));
    assert(s2@.eps =~= s1@.eps);
}

/// What becomes of the whole when the ready queue gains or loses a task.
proof fn lemma_ready_changed(s1: System, s2: System, t: u64)
    requires
        s1.rep(),
        s2.tasks.wf(),
        s2.eps == s1.eps,
        s2.sched.current == s1.sched.current,
        s2.sched.context == s1.sched.context,
        s2.sched.ttbr0 == s1.sched.ttbr0,
        s2.sched.ready.linked_in(s2.tasks@),
        task::task_views(s2.tasks@) == task::task_views(s1.tasks@),
        s1@.unqueued(t) || s1@.ready.contains(t),
        forall|k: u64| #[trigger]
            s2@.ready.contains(k) ==> k == t || s1@.ready.contains(k),
        forall|k: u64|
            s1.tasks@.contains_key(k) && k != t && !s1@.ready.contains(k)
                ==> #[trigger] s2.tasks@[k] == s1.tasks@[k],
    ensures
        s2.rep(),
        s2@ == (SystemView { ready: s2@.ready, ..s1@ }),
{
    assert(s2@.tasks =~= s1@.tasks);
    assert forall|k: u64| s2.tasks@.contains_key(k) == s1.tasks@.contains_key(k) by {
        assert(s2@.tasks.contains_key(k) == s1@.tasks.contains_key(k));
    }
    assert forall|e: u64| s2.eps@.contains_key(e) implies #[trigger] s2.eps@[e].queue.linked_in(
        s2.tasks@,
    ) by {
        let queue = s1.eps@[e].queue;
        assert(s1@.eps.contains_key(e));
        assert(s1@.eps[e] == queue@);
        assert forall|k: u64| #[trigger]
            queue@.contains(k) && s1.tasks@.contains_key(k) implies s2.tasks@.contains_key(k)
            && s2.tasks@[k].next == s1.tasks@[k].next by {
            assert(s1@.eps[e].contains(k));
        }
        lemma_linked_frame(s1.tasks@, s2.tasks@, queue);
    }
    assert(s2@.eps =~= s1@.eps);
}

/// What becomes of the whole when the queue of an endpoint gains or loses a task.
proof fn lemma_ep_changed(s1: System, s2: System, e: u64, t: u64)
    requires
        s1.rep(),
        s2.tasks.wf(),
        s2.eps.wf(),
        s2.sched == s1.sched,
        s1.eps@.contains_key(e),
        s2.eps@ == s1.eps@.insert(e, s2.eps@[e]),
        s2.eps@[e].queue.linked_in(s2.tasks@),
        task::task_views(s2.tasks@) == task::task_views(s1.tasks@),
        s1@.unqueued(t) || s1@.eps[e].contains(t),
        forall|k: u64| #[trigger]
            s2.eps@[e].queue@.contains(k) ==> k == t || s1@.eps[e].contains(k),
        forall|k: u64|
            s1.tasks@.contains_key(k) && k != t && !s1@.eps[e].contains(k)
                ==> #[trigger] s2.tasks@[k] == s1.tasks@[k],
    ensures
        s2.rep(),
        s2@ == s1@.with_ep(e, s2.eps@[e].queue@),
{
    assert(s2@.tasks =~= s1@.tasks);
    assert(s1@.eps.contains_key(e));
    assert(s1@.eps[e] == s1.eps@[e].queue@);
    assert forall|k: u64| s2.tasks@.contains_key(k) == s1.tasks@.contains_key(k) by {
        assert(s2@.tasks.contains_key(k) == s1@.tasks.contains_key(k));
    }
    assert(s2@.eps =~= s1@.eps.insert(e, s2.eps@[e].queue@));
    assert forall|k: u64| #[trigger]
        s1.sched.ready@.contains(k) && s1.tasks@.contains_key(k) implies s2.tasks@.contains_key(k)
        && s2.tasks@[k].next == s1.tasks@[k].next by {
        if s1@.eps[e].contains(k) {
            assert(!s1@.ready.contains(k));
        }
    }
    lemma_linked_frame(s1.tasks@, s2.tasks@, s1.sched.ready);
    assert forall|f: u64| s2.eps@.contains_key(f) implies #[trigger] s2.eps@[f].queue.linked_in(
        s2.tasks@,
    ) by {
        if f != e {
            let queue = s1.eps@[f].queue;
            assert(s1@.eps.contains_key(f));
            assert(s1@.eps[f] == queue@);
            assert forall|k: u64| #[trigger]
                queue@.contains(k) && s1.tasks@.contains_key(k) implies s2.tasks@.contains_key(k)
                && s2.tasks@[k].next == s1.tasks@[k].next by {
                assert(s1@.eps[f].contains(k));
                if s1@.eps[e].contains(k) {
                    assert(e == f);
                }
            }
            lemma_linked_frame(s1.tasks@, s2.tasks@, queue);
        }
    }
    assert forall|f: u64, k: u64|
        #![trigger s2@.eps[f].contains(k)]
        s2@.eps.contains_key(f) && s2@.eps[f].contains(k) implies !s2@.ready.contains(k) by {
        if f != e || k != t {
            assert(s1@.eps.contains_key(f));
            assert(s1@.eps[f].contains(k));
        }
    }
    assert forall|f: u64, g: u64, k: u64|
        #![trigger s2@.eps[f].contains(k), s2@.eps[g].contains(k)]
        s2@.eps.contains_key(f) && s2@.eps.contains_key(g) && s2@.eps[f].contains(k)
            && s2@.eps[g].contains(k) implies f == g by {
        assert(s1@.eps.contains_key(f) && s1@.eps.contains_key(g));
        if k != t {
            assert(s1@.eps[f].contains(k) && s1@.eps[g].contains(k));
        } else if f != e || g != e {
            let o = if f != e {
                f
            } else {
                g
            };
            assert(s1@.eps[o].contains(k));
        }
    }
}

impl System {
    pub(crate) fn set_state(&mut self, t: u64, state: TaskState)
        requires
            old(self).rep(),
            old(self)@.tasks.contains_key(t),
        ensures
            final(self).rep(),
            final(self)@ == old(self)@.with_task(t, old(self)@.tasks[t].with_state(state)),
    {
        self.tasks.get_mut(t).state = state;
        proof {
            lemma_task_changed(*old(self), *self, t);
        }
    }

    pub(crate) fn set_ctx(&mut self, t: u64, ctx: Context)
        requires
            old(self).rep(),
            old(self)@.tasks.contains_key(t),
        ensures
            final(self).rep(),
            final(self)@ == old(self)@.with_task(t, old(self)@.tasks[t].with_ctx(ctx@)),
    {
        self.tasks.get_mut(t).ctx = ctx;
        proof {
            lemma_task_changed(*old(self), *self, t);
        }
    }

    /// The registers of a task.
    pub fn ctx(&self, t: u64) -> (r: Context)
        requires
            self.rep(),
            self@.tasks.contains_key(t),
        ensures
            r@ == self@.tasks[t].ctx,
    {
        self.tasks.get(t).ctx
    }

    /// The state of a task.
    pub fn state(&self, t: u64) -> (r: TaskState)
        requires
            self.rep(),
            self@.tasks.contains_key(t),
        ensures
            r == self@.tasks[t].state,
    {
        self.tasks.get(t).state
    }

    /// The first task that waits at an endpoint; 0 where nobody does.
    pub(crate) fn ep_head(&self, e: u64) -> (r: u64)
        requires
            self.rep(),
            self@.eps.contains_key(e),
        ensures
            self@.eps[e].len() == 0 ==> r == 0,
            self@.eps[e].len() > 0 ==> r != 0 && r == self@.eps[e][0] && self@.tasks.contains_key(r),
    {
        assert(self.eps@[e].queue.linked_in(self.tasks@));
        self.eps.get(e).queue.head
    }

    /// Takes the first task out of the queue of an endpoint.
    pub(crate) fn ep_pop(&mut self, e: u64) -> (r: u64)
        requires
            old(self).rep(),
            old(self)@.eps.contains_key(e),
            old(self)@.eps[e].len() > 0,
        ensures
            final(self).rep(),
            r == old(self)@.eps[e][0],
            final(self)@ == old(self)@.with_ep(e, old(self)@.eps[e].drop_first()),
    {
        let ghost before = *self;
        let ghost q = self@.eps[e];
        assert(self.eps@[e].queue.linked_in(self.tasks@));
        let r = self.eps.get_mut(e).queue.pop(&mut self.tasks);
        proof {
            assert(q.contains(q[0]));
            seqs::lemma_drop_first_contains(q);
            lemma_ep_changed(before, *self, e, r);
        }
        r
    }

    /// Puts a task at the end of the queue of an endpoint.
    pub(crate) fn ep_push(&mut self, e: u64, t: u64)
        requires
            old(self).rep(),
            old(self)@.eps.contains_key(e),
            old(self)@.tasks.contains_key(t),
            old(self)@.unqueued(t),
        ensures
            final(self).rep(),
            final(self)@ == old(self)@.with_ep(e, old(self)@.eps[e].push(t)),
    {
        let ghost before = *self;
        let ghost q = self@.eps[e];
        assert(self.eps@[e].queue.linked_in(self.tasks@));
        self.eps.get_mut(e).queue.push(&mut self.tasks, t);
        proof {
            seqs::lemma_push_contains(q, t);
            lemma_ep_changed(before, *self, e, t);
        }
    }

    pub(crate) fn set_reply_to(&mut self, t: u64, reply_to: u64)
        requires
            old(self).rep(),
            old(self)@.tasks.contains_key(t),
        ensures
            final(self).rep(),
            final(self)@ == old(self)@.with_task(t, old(self)@.tasks[t].with_reply_to(reply_to)),
    {
        self.tasks.get_mut(t).reply_to = reply_to;
        proof {
            lemma_task_changed(*old(self), *self, t);
        }
    }
}

/// Puts a task at the end of the ready queue.
///
/// First entry of a configured task and wake-up from a blocked IPC call share
/// this path. The task must be in no queue.
pub fn enqueue(sys: &mut System, tcb: u64)
    requires
        old(sys).rep(),
        old(sys)@.tasks.contains_key(tcb),
        old(sys)@.unqueued(tcb),
    ensures
        final(sys).rep(),
        final(sys)@ == old(sys)@.enqueued(tcb),
{
    sys.set_state(tcb, TaskState::Ready);
    let ghost mid = *sys;
    assert(sys@.tasks.contains_key(tcb));
    sys.sched.ready.push(&mut sys.tasks, tcb);
    proof {
        assert forall|k: u64| #[trigger] sys@.ready.contains(k) implies k == tcb
            || mid@.ready.contains(k) by {
            let q = mid@.ready.push(tcb);
            let i = q.index_of(k);
            assert(q[i] == k);
            if i < mid@.ready.len() {
                assert(mid@.ready[i] == k);
            }
        }
        lemma_ready_changed(mid, *sys, tcb);
    }
}

/// Takes the first task out of the ready queue; 0 where it is empty.
fn pop(sys: &mut System) -> (r: u64)
    requires
        old(sys).rep(),
    ensures
        final(sys).rep(),
        old(sys)@.ready.len() == 0 ==> r == 0 && final(sys)@ == old(sys)@,
        old(sys)@.ready.len() > 0 ==> {
            &&& r != 0
            &&& r == old(sys)@.ready[0]
            &&& old(sys)@.tasks.contains_key(r)
            &&& final(sys)@ == old(sys)@.popped()
        },
{
    let ghost before = *sys;
    let r = sys.sched.ready.pop(&mut sys.tasks);
    proof {
        if before@.ready.len() > 0 {
            let q = before@.ready;
            assert(q.contains(q[0]));
            assert forall|k: u64| #[trigger] sys@.ready.contains(k) implies k == r
                || before@.ready.contains(k) by {
                let i = sys@.ready.index_of(k);
                assert(q[i + 1] == k);
            }
            lemma_ready_changed(before, *sys, r);
        }
    }
    r
}

/// Gives the processor to `next`.
fn switch_to(sys: &mut System, next: u64)
    requires
        old(sys).rep(),
        old(sys)@.tasks.contains_key(next),
    ensures
        final(sys).rep(),
        final(sys)@ == old(sys)@.switched_to(next),
{
    sys.set_state(next, TaskState::Running);
    sys.sched.current = next;
    set_current(&mut sys.sched.context, next);
    assert(sys@.tasks.contains_key(next));
    assert(sys@.tasks[next] == sys.tasks@[next]@);
    let root = sys.tasks.get(next).ttbr0_pa;
    if root != current_user_root(sys) {
        install_user_ttbr0(sys, root);
    }
}

/// The installed user translation table.
pub fn current_user_root(sys: &System) -> (r: u64)
    ensures
        r == sys@.ttbr0,
{
    sys.sched.ttbr0
}

/// Records that the user translation table at `root_pa` is installed.
pub fn install_user_ttbr0(sys: &mut System, root_pa: u64)
    ensures
        final(sys).tasks == old(sys).tasks,
        final(sys).eps == old(sys).eps,
        final(sys).sched.ready == old(sys).sched.ready,
        final(sys)@ == (SystemView { ttbr0: root_pa, ..old(sys)@ }),
        old(sys).rep() ==> final(sys).rep(),
{
    sys.sched.ttbr0 = root_pa;
}

/// Turns the processor over to the next ready task, the current one goes to the
/// end of the queue.
///
/// Yielding and timer preemption share this path. Where no other task is ready
/// the current one goes on.
pub fn rotate(sys: &mut System)
    requires
        old(sys).wf(),
        old(sys)@.running(),
    ensures
        final(sys)@ == old(sys)@.rotated(),
        final(sys).wf(),
        final(sys)@.running(),
{
    let ghost before = sys@;
    let next = pop(sys);
    if next == 0 {
        return;
    }
    let cur = sys.sched.current;
    proof {
        lemma_popped_unqueued(before, cur);
    }
    enqueue(sys, cur);
    switch_to(sys, next);
    proof {
        lemma_rotated_inv(before);
    }
}

/// The task on the processor.
pub fn current(sys: &System) -> (r: u64)
    ensures
        r == sys@.current,
{
    sys.sched.current
}

/// Leaves the current task where it was put and gives the processor to the next
/// ready task.
///
/// False, with nothing changed, where no task is ready: every task is blocked
/// and nothing can wake one.
#[must_use]
pub fn block_and_switch(sys: &mut System) -> (r: bool)
    requires
        old(sys).rep(),
    ensures
        final(sys).rep(),
        (final(sys)@, r) == old(sys)@.block_and_switch(),
{
    let next = pop(sys);
    if next == 0 {
        return false;
    }
    switch_to(sys, next);
    true
}

/// Ends the current task and gives the processor to the next ready one.
///
/// False where it was the last: nothing is left to run.
#[must_use]
pub fn exit_current(sys: &mut System) -> (r: bool)
    requires
        old(sys).rep(),
        old(sys)@.tasks.contains_key(old(sys)@.current),
    ensures
        final(sys).rep(),
        (final(sys)@, r) == old(sys)@.exited(),
{
    let cur = sys.sched.current;
    sys.set_state(cur, TaskState::Dead);
    block_and_switch(sys)
}

/// A task that is in no queue is in none after the first ready task has left.
proof fn lemma_popped_unqueued(s: SystemView, t: u64)
    requires
        s.inv(),
        s.running(),
        t == s.current,
        s.ready.len() > 0,
    ensures
        s.popped().unqueued(t),
{
    assert(!s.ready.contains(t));
    assert forall|k: u64| #[trigger] s.popped().ready.contains(k) implies s.ready.contains(k) by {
        let i = s.popped().ready.index_of(k);
        assert(s.ready[i + 1] == k);
    }
    assert forall|e: u64| #[trigger] s.popped().eps.contains_key(e) implies !s.eps[e].contains(
        t,
    ) by {}
}

/// The parts of the invariant that speak of endpoints and replies survive a
/// change that concerns neither.
pub proof fn lemma_frame_inv(s: SystemView, r: SystemView)
    requires
        s.eps_inv(),
        s.reply_inv(),
        r.eps == s.eps,
        r.tasks.dom() == s.tasks.dom(),
        forall|t: u64| #[trigger] s.tasks.contains_key(t) ==> r.tasks[t].reply_to == s.tasks[t].reply_to,
        forall|t: u64| #[trigger]
            s.tasks.contains_key(t) && r.tasks[t].state != s.tasks[t].state ==> {
                &&& !waiting(s.tasks[t].state)
                &&& !waiting(r.tasks[t].state)
                &&& s.tasks[t].state != TaskState::BlockedReply
                &&& r.tasks[t].state != TaskState::BlockedReply
                &&& s.tasks[t].reply_to != 0 ==> r.tasks[t].state == TaskState::Ready
                    || r.tasks[t].state == TaskState::Running
            },
    ensures
        r.eps_inv(),
        r.reply_inv(),
{
    assert forall|t: u64| #[trigger] r.tasks.contains_key(t) == s.tasks.contains_key(t) by {}
    assert forall|t: u64|
        r.tasks.contains_key(t) && #[trigger] r.tasks[t].state
            == TaskState::BlockedReply implies r.has_holder(t) by {
        assert(s.tasks[t].state == TaskState::BlockedReply);
        let h = choose|h: u64| s.tasks.contains_key(h) && #[trigger] s.tasks[h].reply_to == t;
        assert(r.tasks[h].reply_to == t);
    }
    assert forall|t: u64|
        r.tasks.contains_key(t) && waiting(#[trigger] r.tasks[t].state) implies exists|e: u64|
        r.eps.contains_key(e) && #[trigger] r.eps[e].contains(t) by {
        assert(waiting(s.tasks[t].state));
        let e = choose|e: u64| s.eps.contains_key(e) && #[trigger] s.eps[e].contains(t);
        assert(r.eps[e].contains(t));
    }
}

/// The switch away from a task that no longer runs keeps the system invariant, and
/// the next task, if there is one, runs.
pub proof fn lemma_block_and_switch_inv(s: SystemView)
    requires
        s.inv(),
        !s.running(),
    ensures
        s.block_and_switch().0.inv(),
        s.block_and_switch().1 ==> s.block_and_switch().0.running(),
{
    if s.ready.len() > 0 {
        let next = s.ready[0];
        let r = s.block_and_switch().0;
        seqs::lemma_drop_first_contains(s.ready);
        assert(s.ready.contains(next));
        assert(r.tasks.dom() =~= s.tasks.dom());
        lemma_frame_inv(s, r);
    }
}

/// Rotation keeps the system invariant.
proof fn lemma_rotated_inv(s: SystemView)
    requires
        s.inv(),
        s.running(),
    ensures
        s.rotated().inv(),
        s.rotated().running(),
{
    if s.ready.len() > 0 {
        let next = s.ready[0];
        let cur = s.current;
        let q = s.ready.drop_first();
        let r = s.rotated();
        seqs::lemma_drop_first_contains(s.ready);
        seqs::lemma_push_contains(q, cur);
        assert(!s.ready.contains(cur));
        assert(next != cur);
        assert(r.tasks.dom() =~= s.tasks.dom());
        lemma_frame_inv(s, r);
    }
}

/// The end of a task that owes nobody a reply keeps the system invariant, and the
/// next task, if there is one, runs.
pub proof fn lemma_exited_inv(s: SystemView)
    requires
        s.inv(),
        s.running(),
        s.tasks[s.current].reply_to == 0,
    ensures
        s.exited().0.inv(),
        s.exited().1 ==> s.exited().0.running(),
{
    let d = s.with_task(s.current, s.tasks[s.current].with_state(TaskState::Dead));
    assert(d.tasks.dom() =~= s.tasks.dom());
    assert(!s.ready.contains(s.current));
    lemma_frame_inv(s, d);
    lemma_block_and_switch_inv(d);
}

impl SystemView {
    /// The system before any task runs: one task is there, with its address space
    /// installed, and nothing else.
    pub open spec fn booting(self, root: u64) -> bool {
        &&& root != 0
        &&& self.tasks.dom() == set![root]
        &&& self.tasks[root].reply_to == 0
        &&& self.tasks[root].ttbr0_pa == self.ttbr0
        &&& self.eps == Map::<u64, Seq<u64>>::empty()
        &&& self.ready == Seq::<u64>::empty()
    }

    /// The system after control has been handed to the first task.
    pub open spec fn handed_off(self, root: u64) -> SystemView {
        SystemView {
            current: root,
            context: root,
            ..self.with_task(root, self.tasks[root].with_state(TaskState::Running))
        }
    }

    /// The system after an inactive task has been carved.
    pub open spec fn with_new_task(self, t: u64) -> SystemView {
        self.with_task(t, TaskView::zeroed())
    }

    /// The system after an endpoint has been carved.
    pub open spec fn with_new_ep(self, e: u64) -> SystemView {
        self.with_ep(e, Seq::empty())
    }
}

/// The system invariant holds once control has been handed to the first task.
proof fn lemma_handed_off_inv(s: SystemView, root: u64)
    requires
        s.booting(root),
    ensures
        s.handed_off(root).inv(),
        s.handed_off(root).running(),
{
    let r = s.handed_off(root);
    assert(s.tasks.contains_key(root)) by {
        assert(set![root].contains(root));
    }
    assert forall|t: u64| #[trigger] r.tasks.contains_key(t) <==> t == root by {
        if t != root {
            assert(!set![root].contains(t));
        }
    }
}

/// A new task keeps the system invariant.
pub proof fn lemma_new_task_inv(s: SystemView, t: u64)
    requires
        s.inv(),
        t != 0,
        !s.tasks.contains_key(t),
    ensures
        s.with_new_task(t).inv(),
        s.running() ==> s.with_new_task(t).running(),
{
    let r = s.with_new_task(t);
    assert(!s.ready.contains(t));
    assert forall|k: u64|
        r.tasks.contains_key(k) && waiting(#[trigger] r.tasks[k].state) implies exists|e: u64|
        r.eps.contains_key(e) && #[trigger] r.eps[e].contains(k) by {
        assert(waiting(s.tasks[k].state));
        let e = choose|e: u64| s.eps.contains_key(e) && #[trigger] s.eps[e].contains(k);
        assert(r.eps[e].contains(k));
    }
    assert forall|k: u64|
        r.tasks.contains_key(k) && #[trigger] r.tasks[k].state
            == TaskState::BlockedReply implies r.has_holder(k) by {
        assert(s.tasks[k].state == TaskState::BlockedReply);
        let h = choose|h: u64| s.tasks.contains_key(h) && #[trigger] s.tasks[h].reply_to == k;
        assert(r.tasks[h].reply_to == k);
    }
}

/// A new endpoint keeps the system invariant.
pub proof fn lemma_new_ep_inv(s: SystemView, e: u64)
    requires
        s.inv(),
        !s.eps.contains_key(e),
    ensures
        s.with_new_ep(e).inv(),
        s.running() ==> s.with_new_ep(e).running(),
{
    let r = s.with_new_ep(e);
    assert forall|f: u64, k: u64|
        #![trigger r.eps[f].contains(k)]
        r.eps.contains_key(f) && r.eps[f].contains(k) implies f != e && s.eps.contains_key(f)
        && s.eps[f].contains(k) by {}
    assert forall|k: u64|
        r.tasks.contains_key(k) && waiting(#[trigger] r.tasks[k].state) implies exists|f: u64|
        r.eps.contains_key(f) && #[trigger] r.eps[f].contains(k) by {
        let f = choose|f: u64| s.eps.contains_key(f) && #[trigger] s.eps[f].contains(k);
        assert(r.eps[f].contains(k));
    }
    assert(r.disjoint());
}

impl System {
    /// A system without tasks.
    pub fn new() -> (r: Self)
        ensures
            r.rep(),
            r@.tasks == Map::<u64, TaskView>::empty(),
            r@.eps == Map::<u64, Seq<u64>>::empty(),
            r@.ready == Seq::<u64>::empty(),
            r@.current == 0,
            r@.context == 0,
            r@.ttbr0 == 0,
    {
        let r = System {
            tasks: ObjMap::new(),
            eps: ObjMap::new(),
            sched: Sched {
                current: 0,
                ready: TcbQueue::new(),
                context: CurrentContext { tcb: 0 },
                ttbr0: 0,
            },
        };
        assert(r@.tasks =~= Map::<u64, TaskView>::empty());
        assert(r@.eps =~= Map::<u64, Seq<u64>>::empty());
        r
    }

    /// Puts a task at an address where none stands.
    pub fn add_task(&mut self, t: u64, tcb: Tcb)
        requires
            old(self).rep(),
            t != 0,
            !old(self)@.tasks.contains_key(t),
        ensures
            final(self).rep(),
            final(self)@ == old(self)@.with_task(t, tcb@),
    {
        let ghost s1 = *self;
        self.tasks.insert(t, tcb);
        proof {
            let s2 = *self;
            assert forall|k: u64| s1.tasks@.contains_key(k) implies s2.tasks@.contains_key(k)
                && #[trigger] s2.tasks@[k] == s1.tasks@[k] by {
                assert(s1@.tasks.contains_key(k));
            }
            lemma_linked_frame(s1.tasks@, s2.tasks@, s1.sched.ready);
            assert forall|e: u64| s2.eps@.contains_key(e) implies #[trigger] s2.eps@[e].queue.linked_in(
                s2.tasks@,
            ) by {
                lemma_linked_frame(s1.tasks@, s2.tasks@, s1.eps@[e].queue);
            }
            assert(s2@.tasks =~= s1@.tasks.insert(t, tcb@));
            assert(s2@.eps =~= s1@.eps);
        }
    }

    /// Makes an endpoint at an address where none stands.
    pub fn add_endpoint(&mut self, e: u64)
        requires
            old(self).rep(),
            !old(self)@.eps.contains_key(e),
        ensures
            final(self).rep(),
            final(self)@ == old(self)@.with_new_ep(e),
    {
        let ghost s1 = *self;
        self.eps.insert(e, Endpoint::zeroed());
        proof {
            let s2 = *self;
            assert(s2@.tasks =~= s1@.tasks);
            assert(s2@.eps =~= s1@.eps.insert(e, Seq::empty()));
            assert forall|f: u64, k: u64|
                #![trigger s2@.eps[f].contains(k)]
                s2@.eps.contains_key(f) && s2@.eps[f].contains(k) implies f != e
                && s1@.eps.contains_key(f) && s1@.eps[f].contains(k) by {}
            assert forall|f: u64| s2.eps@.contains_key(f) implies #[trigger] s2.eps@[f].queue.linked_in(
                s2.tasks@,
            ) by {
                if f != e {
                    assert(s1.eps@.contains_key(f));
                }
            }
        }
    }
}

/// Hands control to the first task.
///
/// From here on kernel code runs in exceptions only. The address space of the task
/// must be installed.
pub fn handoff(sys: &mut System, tcb: u64)
    requires
        old(sys).rep(),
        old(sys)@.booting(tcb),
    ensures
        final(sys).wf(),
        final(sys)@ == old(sys)@.handed_off(tcb),
        final(sys)@.running(),
{
    proof {
        lemma_handed_off_inv(sys@, tcb);
        assert(sys@.tasks.contains_key(tcb)) by {
            assert(set![tcb].contains(tcb));
        }
    }
    sys.set_state(tcb, TaskState::Running);
    sys.sched.current = tcb;
    set_current(&mut sys.sched.context, tcb);
}

/// Setting up an inactive task keeps the system invariant.
pub proof fn lemma_configured_inv(s: SystemView, t: u64, v: TaskView)
    requires
        s.inv(),
        s.running(),
        s.tasks.contains_key(t),
        s.tasks[t].state == TaskState::Inactive,
        v.state == TaskState::Stopped,
        v.reply_to == s.tasks[t].reply_to,
    ensures
        s.with_task(t, v).inv(),
        s.with_task(t, v).running(),
{
    let r = s.with_task(t, v);
    assert(r.tasks.dom() =~= s.tasks.dom());
    assert(t != s.current);
    lemma_frame_inv(s, r);
}

/// Starting a task that was set up keeps the system invariant.
pub proof fn lemma_resumed_inv(s: SystemView, t: u64)
    requires
        s.inv(),
        s.running(),
        s.tasks.contains_key(t),
        s.tasks[t].state == TaskState::Stopped,
    ensures
        s.unqueued(t),
        s.enqueued(t).inv(),
        s.enqueued(t).running(),
{
    let r = s.enqueued(t);
    assert(r.tasks.dom() =~= s.tasks.dom());
    assert(!s.ready.contains(t));
    seqs::lemma_push_contains(s.ready, t);
    assert forall|e: u64| #[trigger] s.eps.contains_key(e) implies !s.eps[e].contains(t) by {}
    lemma_frame_inv(s, r);
}

impl System {
    /// Gives an inactive task its registers and address space.
    pub(crate) fn configure(&mut self, t: u64, ctx: Context, ttbr0_pa: u64)
        requires
            old(self).wf(),
            old(self)@.running(),
            old(self)@.tasks.contains_key(t),
            old(self)@.tasks[t].state == TaskState::Inactive,
        ensures
            final(self).wf(),
            final(self)@ == old(self)@.with_task(
                t,
                (TaskView {
                    ctx: ctx@,
                    ttbr0_pa,
                    state: TaskState::Stopped,
                    ..old(self)@.tasks[t]
                }),
            ),
            final(self)@.running(),
    {
        let ghost s = self@;
        let tcb = self.tasks.get_mut(t);
        tcb.ctx = ctx;
        tcb.ttbr0_pa = ttbr0_pa;
        tcb.state = TaskState::Stopped;
        proof {
            lemma_task_changed(*old(self), *self, t);
            lemma_configured_inv(s, t, self.tasks@[t]@);
        }
    }
}

} // verus!
