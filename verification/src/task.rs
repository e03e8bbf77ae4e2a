//! Tasks and the queues they wait in.
use vstd::prelude::*;

use crate::arch::usermode::{Context, ContextView};
use crate::objmap::ObjMap;

pub mod effects;
pub mod laws;
pub mod spawn;

verus! {

/// Where a task stands in its life.
///
/// Memory that was zeroed reads as `Inactive`.
#[derive(Clone, Copy, Debug, PartialEq, Eq, Structural)]
pub enum TaskState {
    /// Carved, not configured yet.
    Inactive,
    /// Configured, not started yet.
    Stopped,
    /// In the ready queue.
    Ready,
    /// On the processor.
    Running,
    /// In the queue of an endpoint, waiting for a receiver.
    BlockedSend,
    /// In the queue of an endpoint, waiting for a sender.
    BlockedRecv,
    /// In the queue of an endpoint, waiting for a receiver that will reply.
    BlockedCall,
    /// Delivered to a receiver, waiting for its reply.
    BlockedReply,
    /// Ended.
    Dead,
}

/// A task control block.
///
/// `next` is the link of the one queue the task is in (0 at the end), `reply_to`
/// the task that waits for a reply from this one (0 for none).
#[derive(Clone, Copy, Debug)]
pub struct Tcb {
    pub ctx: Context,
    pub ttbr0_pa: u64,
    pub state: TaskState,
    pub next: u64,
    pub reply_to: u64,
}

/// What a task is, apart from the queue link.
#[verifier::ext_equal]
pub struct TaskView {
    pub ctx: ContextView,
    pub ttbr0_pa: u64,
    pub state: TaskState,
    pub reply_to: u64,
}

impl View for Tcb {
    type V = TaskView;

    open spec fn view(&self) -> TaskView {
        TaskView {
            ctx: self.ctx@,
            ttbr0_pa: self.ttbr0_pa,
            state: self.state,
            reply_to: self.reply_to,
        }
    }
}

impl TaskView {
    /// What zeroed memory reads as.
    pub open spec fn zeroed() -> TaskView {
        TaskView {
            ctx: ContextView::zeroed(),
            ttbr0_pa: 0,
            state: TaskState::Inactive,
            reply_to: 0,
        }
    }

    pub open spec fn with_state(self, state: TaskState) -> TaskView {
        TaskView { state, ..self }
    }

    pub open spec fn with_ctx(self, ctx: ContextView) -> TaskView {
        TaskView { ctx, ..self }
    }

    pub open spec fn with_reply_to(self, reply_to: u64) -> TaskView {
        TaskView { reply_to, ..self }
    }
}

impl Tcb {
    /// What zeroed memory reads as: an inactive task.
    pub fn zeroed() -> (r: Self)
        ensures
            r@ == TaskView::zeroed(),
            r.next == 0,
    {
        Tcb {
            ctx: Context::zeroed(),
            ttbr0_pa: 0,
            state: TaskState::Inactive,
            next: 0,
            reply_to: 0,
        }
    }
}

/// The contents of all tasks, by address.
pub open spec fn task_views(m: Map<u64, Tcb>) -> Map<u64, TaskView> {
    Map::new(|k: u64| m.contains_key(k), |k: u64| m[k]@)
}

/// Whether `head`, `tail` and the `next` links spell out the queue `q`.
pub open spec fn linked(m: Map<u64, Tcb>, head: u64, tail: u64, q: Seq<u64>) -> bool {
    &&& q.no_duplicates()
    &&& head == (if q.len() == 0 { 0 } else { q[0] })
    &&& tail == (if q.len() == 0 { 0 } else { q.last() })
    &&& forall|i: int| #![trigger q[i]] 0 <= i < q.len() ==> {
        &&& q[i] != 0
        &&& m.contains_key(q[i])
        &&& m[q[i]].next == (if i + 1 < q.len() { q[i + 1] } else { 0 })
    }
}

/// A queue of tasks, linked through the tasks themselves.
///
/// No node is ever allocated, so the number of tasks bounds the length of a
/// queue. Zeroed memory reads as the empty queue.
pub struct TcbQueue {
    pub head: u64,
    pub tail: u64,
    pub members: Ghost<Seq<u64>>,
}

impl View for TcbQueue {
    type V = Seq<u64>;

    open spec fn view(&self) -> Seq<u64> {
        self.members@
    }
}

impl TcbQueue {
    /// Whether the links among the tasks `m` spell out this queue.
    pub open spec fn linked_in(&self, m: Map<u64, Tcb>) -> bool {
        linked(m, self.head, self.tail, self@)
    }

    /// The empty queue.
    pub fn new() -> (r: Self)
        ensures
            r@ == Seq::<u64>::empty(),
            forall|m: Map<u64, Tcb>| r.linked_in(m),
    {
        TcbQueue { head: 0, tail: 0, members: Ghost(Seq::empty()) }
    }

    /// Appends a task.
    pub fn push(&mut self, tasks: &mut ObjMap<Tcb>, tcb: u64)
        requires
            old(tasks).wf(),
            old(self).linked_in(old(tasks)@),
            old(tasks)@.contains_key(tcb),
            tcb != 0,
            !old(self)@.contains(tcb),
        ensures
            final(tasks).wf(),
            final(self)@ == old(self)@.push(tcb),
            final(self).linked_in(final(tasks)@),
            task_views(final(tasks)@) == task_views(old(tasks)@),
            forall|k: u64|
                old(tasks)@.contains_key(k) && k != tcb && !old(self)@.contains(k)
                    ==> #[trigger] final(tasks)@[k] == old(tasks)@[k],
    {
        let ghost q = self@;
        tasks.get_mut(tcb).next = 0;
        if self.tail == 0 {
            self.head = tcb;
            assert(q.len() == 0) by {
                if q.len() > 0 {
                    assert(q[q.len() - 1] != 0);
                }
            }
        } else {
            assert(q.contains(q.last()));
            tasks.get_mut(self.tail).next = tcb;
        }
        self.tail = tcb;
        self.members = Ghost(q.push(tcb));
        proof {
            let q2 = q.push(tcb);
            let m = tasks@;
            assert forall|i: int| 0 <= i < q2.len() implies {
                &&& q2[i] != 0
                &&& m.contains_key(q2[i])
                &&& m[q2[i]].next == (if i + 1 < q2.len() { q2[i + 1] } else { 0 })
            } by {
                if i < q.len() {
                    assert(q2[i] == q[i]);
                    assert(q.contains(q[i]));
                }
            }
            assert(q2.no_duplicates());
            assert(task_views(tasks@) =~= task_views(old(tasks)@));
        }
    }

    /// Takes the first task out, or gives 0 for an empty queue.
    pub fn pop(&mut self, tasks: &mut ObjMap<Tcb>) -> (r: u64)
        requires
            old(tasks).wf(),
            old(self).linked_in(old(tasks)@),
        ensures
            final(tasks).wf(),
            final(self).linked_in(final(tasks)@),
            old(self)@.len() == 0 ==> r == 0 && final(self)@ == old(self)@ && *final(tasks)
                == *old(tasks),
            old(self)@.len() > 0 ==> r == old(self)@[0] && r != 0 && final(self)@ == old(self)@.drop_first(),
            task_views(final(tasks)@) == task_views(old(tasks)@),
            forall|k: u64|
                old(tasks)@.contains_key(k) && !old(self)@.contains(k)
                    ==> #[trigger] final(tasks)@[k] == old(tasks)@[k],
    {
        let ghost q = self@;
        let head = self.head;
        if head == 0 {
            assert(q.len() == 0) by {
                if q.len() > 0 {
                    assert(q[0] != 0);
                }
            }
            return 0;
        }
        assert(q.len() > 0);
        assert(q.contains(q[0]));
        self.head = tasks.get(head).next;
        tasks.get_mut(head).next = 0;
        if self.head == 0 {
            self.tail = 0;
        }
        self.members = Ghost(q.drop_first());
        proof {
            let q2 = q.drop_first();
            let m = tasks@;
            assert forall|i: int| 0 <= i < q2.len() implies {
                &&& q2[i] != 0
                &&& m.contains_key(q2[i])
                &&& m[q2[i]].next == (if i + 1 < q2.len() { q2[i + 1] } else { 0 })
            } by {
                assert(q2[i] == q[i + 1]);
                assert(q[i + 1] != q[0]);
            }
            if q.len() > 1 {
                assert(q[1] != 0);
                assert(q2.last() == q.last());
            }
            assert(q2.no_duplicates());
            assert(task_views(tasks@) =~= task_views(old(tasks)@));
        }
        head
    }
}

/// A rendezvous point for synchronous IPC.
///
/// The tasks that wait here do so in one queue, first come first served.
pub struct Endpoint {
    pub queue: TcbQueue,
}

impl Endpoint {
    /// What zeroed memory reads as: an endpoint where nobody waits.
    pub fn zeroed() -> (r: Self)
        ensures
            r.queue@ == Seq::<u64>::empty(),
            forall|m: Map<u64, Tcb>| r.queue.linked_in(m),
    {
        Endpoint { queue: TcbQueue::new() }
    }
}

} // verus!
