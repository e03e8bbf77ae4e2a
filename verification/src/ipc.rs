//! Synchronous rendezvous IPC: send, receive, call and reply-and-receive.
//!
//! There is no message buffer in the kernel. A message is four registers (x2 to
//! x5) that the kernel copies from the saved registers of the sender to those of
//! the receiver. A blocked task waits in the queue of the endpoint. The right to
//! answer a call is a link in the receiver, used once; a caller who loses hope of
//! an answer is woken with `NO_REPLY`.
use vstd::prelude::*;

use crate::abi;
use crate::arch::usermode::{Context, ContextView};
use crate::cap::{self, CNode, Cap};
use crate::sched::{self, System, SystemView};
use crate::seqs;
use crate::task::TaskState;

pub mod effects;
pub mod laws;

verus! {

/// First register of a message.
pub const MR_FIRST: usize = 2;

/// Last register of a message.
pub const MR_LAST: usize = 5;

/// The registers `dst` after a message from `src` has been delivered: x2 to x5
/// come from `src`, x0 (success) and x1 (badge) are 0, the rest stays.
pub open spec fn delivered(src: ContextView, dst: ContextView) -> ContextView {
    ContextView {
        x: Seq::new(
            dst.x.len(),
            |i: int|
                if i == 0 || i == 1 {
                    0
                } else if MR_FIRST <= i <= MR_LAST {
                    src.x[i]
                } else {
                    dst.x[i]
                },
        ),
        ..dst
    }
}

/// The address of the endpoint that a slot names, or the error that is answered.
pub open spec fn endpoint_at(caps: Seq<Cap>, slot: int) -> Result<u64, i64> {
    match cap::lookup(caps, slot) {
        Some(Cap::Endpoint { base }) => Ok((base + abi::KERNEL_VA_OFFSET) as u64),
        Some(_) => Err(abi::err::BAD_CAP),
        None => Err(abi::err::BAD_SLOT),
    }
}

/// Whether the flags ask not to wait.
pub open spec fn is_nonblock(flags: u64) -> bool {
    flags & abi::ipc::NONBLOCK != 0
}

impl SystemView {
    /// The system after the result register of a task has been set.
    pub open spec fn with_x0(self, t: u64, v: u64) -> SystemView {
        self.with_task(t, self.tasks[t].with_ctx(self.tasks[t].ctx.set_x(0, v)))
    }

    /// The system after the message of one task has been delivered to another.
    pub open spec fn message(self, from: u64, to: u64) -> SystemView {
        self.with_task(
            to,
            self.tasks[to].with_ctx(delivered(self.tasks[from].ctx, self.tasks[to].ctx)),
        )
    }

    /// The system after the first task in the queue of an endpoint has become
    /// ready.
    pub open spec fn woken(self, e: u64) -> SystemView {
        self.with_ep(e, self.eps[e].drop_first()).enqueued(self.eps[e][0])
    }

    /// The system after the current task has joined the queue of an endpoint.
    pub open spec fn queued(self, e: u64, state: TaskState) -> SystemView {
        self.with_task(self.current, self.tasks[self.current].with_state(state)).with_ep(
            e,
            self.eps[e].push(self.current),
        )
    }

    /// The system after a task has given up the reply it owes: the caller, if
    /// there is one, is woken with `NO_REPLY`.
    pub open spec fn reply_aborted(self, holder: u64) -> SystemView {
        let caller = self.tasks[holder].reply_to;
        let dropped = self.with_task(holder, self.tasks[holder].with_reply_to(0));
        if caller == 0 {
            dropped
        } else {
            dropped.with_x0(caller, abi::err::NO_REPLY as u64).enqueued(caller)
        }
    }

    /// The system after a task has been made to owe a reply to a caller, who
    /// waits for it.
    pub open spec fn owing(self, holder: u64, caller: u64) -> SystemView {
        self.with_task(holder, self.tasks[holder].with_reply_to(caller)).with_task(
            caller,
            self.tasks[caller].with_state(TaskState::BlockedReply),
        )
    }

    /// Whether a receiver waits at an endpoint.
    pub open spec fn has_receiver(self, e: u64) -> bool {
        self.eps[e].len() > 0 && self.tasks[self.eps[e][0]].state == TaskState::BlockedRecv
    }

    /// Whether a sender or caller waits at an endpoint.
    pub open spec fn has_sender(self, e: u64) -> bool {
        self.eps[e].len() > 0 && self.tasks[self.eps[e][0]].state != TaskState::BlockedRecv
    }

    /// What sending to the endpoint `e` does.
    pub open spec fn send(self, e: u64, nonblock: bool) -> (SystemView, bool) {
        if self.has_receiver(e) {
            (self.message(self.current, self.eps[e][0]).woken(e).with_x0(self.current, 0), true)
        } else if nonblock {
            (self.with_x0(self.current, abi::err::WOULD_BLOCK as u64), true)
        } else {
            self.queued(e, TaskState::BlockedSend).block_and_switch()
        }
    }

    /// What receiving from the endpoint `e` does.
    pub open spec fn recv(self, e: u64, nonblock: bool) -> (SystemView, bool) {
        if self.has_sender(e) {
            let sender = self.eps[e][0];
            let got = self.message(sender, self.current);
            if self.tasks[sender].state == TaskState::BlockedCall {
                (
                    got.reply_aborted(self.current).with_ep(e, self.eps[e].drop_first()).owing(
                        self.current,
                        sender,
                    ),
                    true,
                )
            } else {
                (got.with_x0(sender, 0).woken(e), true)
            }
        } else if nonblock {
            (self.with_x0(self.current, abi::err::WOULD_BLOCK as u64), true)
        } else {
            self.queued(e, TaskState::BlockedRecv).block_and_switch()
        }
    }

    /// What calling the endpoint `e` does.
    pub open spec fn call(self, e: u64, nonblock: bool) -> (SystemView, bool) {
        if self.has_receiver(e) {
            let receiver = self.eps[e][0];
            self.message(self.current, receiver).reply_aborted(receiver).woken(e).owing(
                receiver,
                self.current,
            ).block_and_switch()
        } else if nonblock {
            (self.with_x0(self.current, abi::err::WOULD_BLOCK as u64), true)
        } else {
            self.queued(e, TaskState::BlockedCall).block_and_switch()
        }
    }

    /// The system after the current task has answered the caller it owes a
    /// reply; the same where it owes none.
    pub open spec fn replied(self) -> SystemView {
        let caller = self.tasks[self.current].reply_to;
        if caller == 0 {
            self
        } else {
            self.with_task(
                self.current,
                self.tasks[self.current].with_reply_to(0),
            ).message(self.current, caller).enqueued(caller)
        }
    }

    /// The registers of the current task.
    pub open spec fn regs(self) -> Seq<u64> {
        self.tasks[self.current].ctx.x
    }

    /// The endpoint that the current task asks for, in x0.
    pub open spec fn asked(self, caps: Seq<Cap>) -> Result<u64, i64> {
        endpoint_at(caps, self.regs()[0] as int)
    }

    /// What the `SEND` system call of the current task does.
    pub open spec fn sys_send(self, caps: Seq<Cap>) -> (SystemView, bool) {
        match self.asked(caps) {
            Err(e) => (self.with_x0(self.current, e as u64), true),
            Ok(ep) => self.send(ep, is_nonblock(self.regs()[1])),
        }
    }

    /// What the `RECV` system call of the current task does.
    pub open spec fn sys_recv(self, caps: Seq<Cap>) -> (SystemView, bool) {
        match self.asked(caps) {
            Err(e) => (self.with_x0(self.current, e as u64), true),
            Ok(ep) => self.recv(ep, is_nonblock(self.regs()[1])),
        }
    }

    /// What the `CALL` system call of the current task does.
    pub open spec fn sys_call(self, caps: Seq<Cap>) -> (SystemView, bool) {
        match self.asked(caps) {
            Err(e) => (self.with_x0(self.current, e as u64), true),
            Ok(ep) => self.call(ep, is_nonblock(self.regs()[1])),
        }
    }

    /// What the `REPLY_RECV` system call of the current task does.
    pub open spec fn sys_reply_recv(self, caps: Seq<Cap>) -> (SystemView, bool) {
        match self.asked(caps) {
            Err(e) => (self.with_x0(self.current, e as u64), true),
            Ok(ep) => self.replied().recv(ep, is_nonblock(self.regs()[1])),
        }
    }
}

/// New register contents keep the system invariant.
pub(crate) proof fn lemma_ctx_inv(s: SystemView, t: u64, ctx: ContextView)
    requires
        s.inv(),
        s.tasks.contains_key(t),
    ensures
        s.with_task(t, s.tasks[t].with_ctx(ctx)).inv(),
        s.running() ==> s.with_task(t, s.tasks[t].with_ctx(ctx)).running(),
{
    let r = s.with_task(t, s.tasks[t].with_ctx(ctx));
    assert(r.tasks.dom() =~= s.tasks.dom());
    sched::lemma_frame_inv(s, r);
}

/// Waking the first task that waits at an endpoint keeps the system invariant.
pub(crate) proof fn lemma_woken_inv(s: SystemView, e: u64)
    requires
        s.inv(),
        s.eps.contains_key(e),
        s.eps[e].len() > 0,
    ensures
        s.woken(e).inv(),
        s.running() ==> s.woken(e).running(),
        s.tasks.contains_key(s.eps[e][0]),
        sched::waiting(s.tasks[s.eps[e][0]].state),
{
    let q = s.eps[e];
    let t = q[0];
    let r = s.woken(e);
    assert(q.contains(t));
    seqs::lemma_drop_first_contains(q);
    seqs::lemma_push_contains(s.ready, t);
    assert(r.tasks.dom() =~= s.tasks.dom());
    assert(r.eps[e] == q.drop_first());
    assert(r.disjoint()) by {
        assert forall|f: u64, k: u64|
            #![trigger r.eps[f].contains(k)]
            r.eps.contains_key(f) && r.eps[f].contains(k) implies !r.ready.contains(k) by {
            assert(s.eps[f].contains(k));
        }
        assert forall|f: u64, g: u64, k: u64|
            #![trigger r.eps[f].contains(k), r.eps[g].contains(k)]
            r.eps.contains_key(f) && r.eps.contains_key(g) && r.eps[f].contains(k)
                && r.eps[g].contains(k) implies f == g by {
            assert(s.eps[f].contains(k) && s.eps[g].contains(k));
        }
    }
    assert(r.eps_inv()) by {
        assert forall|f: u64, k: u64|
            #![trigger r.eps[f].contains(k)]
            r.eps.contains_key(f) && r.eps[f].contains(k) implies r.tasks.contains_key(k)
            && sched::waiting(r.tasks[k].state) by {
            assert(s.eps[f].contains(k));
        }
        assert forall|k: u64|
            #![trigger r.tasks[k].state]
            r.tasks.contains_key(k) && sched::waiting(r.tasks[k].state) implies exists|f: u64|
            r.eps.contains_key(f) && #[trigger] r.eps[f].contains(k) by {
            assert(sched::waiting(s.tasks[k].state));
            let f = choose|f: u64| s.eps.contains_key(f) && #[trigger] s.eps[f].contains(k);
            assert(r.eps[f].contains(k));
        }
        assert forall|f: u64, k1: u64, k2: u64|
            #![trigger r.eps[f].contains(k1), r.eps[f].contains(k2)]
            r.eps.contains_key(f) && r.eps[f].contains(k1) && r.eps[f].contains(k2)
                && r.tasks[k1].state == TaskState::BlockedRecv implies r.tasks[k2].state
            == TaskState::BlockedRecv by {
            assert(s.eps[f].contains(k1) && s.eps[f].contains(k2));
        }
    }
    assert(r.reply_inv()) by {
        lemma_reply_frame(s, r);
    }
}

/// The part of the invariant that speaks of replies survives a change that
/// concerns none.
proof fn lemma_reply_frame(s: SystemView, r: SystemView)
    requires
        s.reply_inv(),
        r.tasks.dom() == s.tasks.dom(),
        forall|t: u64| #[trigger]
            s.tasks.contains_key(t) ==> r.tasks[t].reply_to == s.tasks[t].reply_to,
        forall|t: u64| #[trigger]
            s.tasks.contains_key(t) && r.tasks[t].state != s.tasks[t].state ==> {
                &&& s.tasks[t].state != TaskState::BlockedReply
                &&& r.tasks[t].state != TaskState::BlockedReply
                &&& s.tasks[t].reply_to != 0 ==> r.tasks[t].state != TaskState::Inactive
                    && r.tasks[t].state != TaskState::Stopped && r.tasks[t].state
                    != TaskState::Dead
            },
    ensures
        r.reply_inv(),
{
    assert forall|t: u64| #[trigger] r.tasks.contains_key(t) == s.tasks.contains_key(t) by {}
    assert forall|t: u64|
        r.tasks.contains_key(t) && #[trigger] r.tasks[t].state
            == TaskState::BlockedReply implies r.has_holder(t) by {
        assert(s.tasks[t].state == TaskState::BlockedReply);
        let h = choose|h: u64| s.tasks.contains_key(h) && #[trigger] s.tasks[h].reply_to == t;
        assert(r.tasks[h].reply_to == t);
    }
}

/// The current task may join the queue of an endpoint whose members wait for the
/// other side.
proof fn lemma_queued_inv(s: SystemView, e: u64, state: TaskState)
    requires
        s.inv(),
        s.running(),
        s.eps.contains_key(e),
        sched::waiting(state),
        state == TaskState::BlockedRecv ==> !s.has_sender(e),
        state != TaskState::BlockedRecv ==> !s.has_receiver(e),
    ensures
        s.queued(e, state).inv(),
        !s.queued(e, state).running(),
{
    let q = s.eps[e];
    let t = s.current;
    let r = s.queued(e, state);
    seqs::lemma_push_contains(q, t);
    assert(!s.ready.contains(t));
    assert forall|f: u64| #[trigger] s.eps.contains_key(f) implies !s.eps[f].contains(t) by {}
    assert(r.tasks.dom() =~= s.tasks.dom());
    assert(r.eps[e] == q.push(t));
    assert(r.disjoint()) by {
        assert forall|f: u64, k: u64|
            #![trigger r.eps[f].contains(k)]
            r.eps.contains_key(f) && r.eps[f].contains(k) implies !r.ready.contains(k) by {
            if k != t {
                assert(s.eps[f].contains(k));
            }
        }
        assert forall|f: u64, g: u64, k: u64|
            #![trigger r.eps[f].contains(k), r.eps[g].contains(k)]
            r.eps.contains_key(f) && r.eps.contains_key(g) && r.eps[f].contains(k)
                && r.eps[g].contains(k) implies f == g by {
            if k != t {
                assert(s.eps[f].contains(k) && s.eps[g].contains(k));
            }
        }
    }
    assert(r.eps_inv()) by {
        assert forall|f: u64, k: u64|
            #![trigger r.eps[f].contains(k)]
            r.eps.contains_key(f) && r.eps[f].contains(k) implies r.tasks.contains_key(k)
            && sched::waiting(r.tasks[k].state) by {
            if k != t {
                assert(s.eps[f].contains(k));
            }
        }
        assert forall|k: u64|
            #![trigger r.tasks[k].state]
            r.tasks.contains_key(k) && sched::waiting(r.tasks[k].state) implies exists|f: u64|
            r.eps.contains_key(f) && #[trigger] r.eps[f].contains(k) by {
            if k == t {
                assert(r.eps[e].contains(k));
            } else {
                assert(sched::waiting(s.tasks[k].state));
                let f = choose|f: u64| s.eps.contains_key(f) && #[trigger] s.eps[f].contains(k);
                assert(r.eps[f].contains(k));
            }
        }
        assert forall|f: u64, k1: u64, k2: u64|
            #![trigger r.eps[f].contains(k1), r.eps[f].contains(k2)]
            r.eps.contains_key(f) && r.eps[f].contains(k1) && r.eps[f].contains(k2)
                && r.tasks[k1].state == TaskState::BlockedRecv implies r.tasks[k2].state
            == TaskState::BlockedRecv by {
            if f == e && q.len() > 0 {
                assert(s.eps[e].contains(q[0]));
            }
            if k1 != t {
                assert(s.eps[f].contains(k1));
            }
            if k2 != t {
                assert(s.eps[f].contains(k2));
            }
        }
    }
    assert(r.reply_inv()) by {
        lemma_reply_frame(s, r);
    }
}

/// Giving up the reply that a task owes keeps the system invariant.
pub(crate) proof fn lemma_reply_aborted_inv(s: SystemView, holder: u64)
    requires
        s.inv(),
        s.tasks.contains_key(holder),
    ensures
        s.reply_aborted(holder).inv(),
        s.running() ==> s.reply_aborted(holder).running(),
        s.reply_aborted(holder).eps == s.eps,
        s.reply_aborted(holder).current == s.current,
        s.reply_aborted(holder).tasks.contains_key(holder),
        s.reply_aborted(holder).tasks[holder] == s.tasks[holder].with_reply_to(0),
        forall|t: u64|
            s.tasks.contains_key(t) && s.tasks[t].state != TaskState::BlockedReply && t != holder
                ==> #[trigger] s.reply_aborted(holder).tasks[t] == s.tasks[t],
        forall|t: u64| #[trigger]
            s.reply_aborted(holder).tasks.contains_key(t) == s.tasks.contains_key(t),
{
    let caller = s.tasks[holder].reply_to;
    let r = s.reply_aborted(holder);
    if caller == 0 {
        assert(r.tasks =~= s.tasks);
    } else {
        assert(s.tasks.contains_key(caller));
        assert(s.tasks[caller].state == TaskState::BlockedReply);
        assert(r.tasks =~= s.tasks.insert(holder, s.tasks[holder].with_reply_to(0)).insert(
            caller,
            r.tasks[caller],
        ));
        lemma_answered_inv(s, holder, r);
    }
}

/// A caller who gets its answer, in whatever form, leaves the invariant intact.
proof fn lemma_answered_inv(s: SystemView, holder: u64, r: SystemView)
    requires
        s.inv(),
        s.tasks.contains_key(holder),
        s.tasks[holder].reply_to != 0,
        ({
            let caller = s.tasks[holder].reply_to;
            &&& r == SystemView {
                ready: s.ready.push(caller),
                tasks: s.tasks.insert(holder, s.tasks[holder].with_reply_to(0)).insert(
                    caller,
                    r.tasks[caller],
                ),
                ..s
            }
            &&& r.tasks[caller].state == TaskState::Ready
            &&& r.tasks[caller].reply_to == s.tasks[caller].reply_to
            &&& r.tasks[caller].ttbr0_pa == s.tasks[caller].ttbr0_pa
        }),
    ensures
        r.inv(),
        s.running() ==> r.running(),
{
    let caller = s.tasks[holder].reply_to;
    assert(s.tasks.contains_key(caller));
    assert(s.tasks[caller].state == TaskState::BlockedReply);
    assert(!s.ready.contains(caller));
    seqs::lemma_push_contains(s.ready, caller);
    assert(r.tasks.dom() =~= s.tasks.dom());
    assert forall|f: u64| #[trigger] s.eps.contains_key(f) implies !s.eps[f].contains(caller) by {}
    assert(r.disjoint());
    assert(r.ready_inv());
    assert(r.eps_inv()) by {
        assert forall|k: u64|
            #![trigger r.tasks[k].state]
            r.tasks.contains_key(k) && sched::waiting(r.tasks[k].state) implies exists|f: u64|
            r.eps.contains_key(f) && #[trigger] r.eps[f].contains(k) by {
            assert(sched::waiting(s.tasks[k].state));
            let f = choose|f: u64| s.eps.contains_key(f) && #[trigger] s.eps[f].contains(k);
            assert(r.eps[f].contains(k));
        }
    }
    assert(r.reply_inv()) by {
        assert forall|t: u64|
            r.tasks.contains_key(t) && #[trigger] r.tasks[t].state
                == TaskState::BlockedReply implies r.has_holder(t) by {
            assert(s.tasks[t].state == TaskState::BlockedReply);
            let h = choose|h: u64| s.tasks.contains_key(h) && #[trigger] s.tasks[h].reply_to == t;
            assert(r.tasks[h].reply_to == t);
        }
        assert forall|h: u64|
            #![trigger r.tasks[h].reply_to]
            r.tasks.contains_key(h) && r.tasks[h].reply_to != 0 implies {
            &&& r.tasks[h].reply_to != h
            &&& r.tasks.contains_key(r.tasks[h].reply_to)
            &&& r.tasks[r.tasks[h].reply_to].state == TaskState::BlockedReply
            &&& r.tasks[h].state != TaskState::Inactive
            &&& r.tasks[h].state != TaskState::Stopped
            &&& r.tasks[h].state != TaskState::Dead
        } by {
            assert(s.tasks[h].reply_to == r.tasks[h].reply_to);
            assert(s.tasks[h].reply_to != caller);
        }
    }
}

/// A ready receiver who owes nobody a reply may come to owe one to the current
/// task.
pub(crate) proof fn lemma_owing_inv(s: SystemView, holder: u64)
    requires
        s.inv(),
        s.running(),
        s.tasks.contains_key(holder),
        s.tasks[holder].state == TaskState::Ready,
        s.tasks[holder].reply_to == 0,
    ensures
        s.owing(holder, s.current).inv(),
        !s.owing(holder, s.current).running(),
{
    let t = s.current;
    let r = s.owing(holder, t);
    assert(t != 0);
    assert(r.tasks.dom() =~= s.tasks.dom());
    assert(!s.ready.contains(t));
    assert forall|f: u64| #[trigger] s.eps.contains_key(f) implies !s.eps[f].contains(t) by {}
    assert(r.eps_inv()) by {
        assert forall|k: u64|
            #![trigger r.tasks[k].state]
            r.tasks.contains_key(k) && sched::waiting(r.tasks[k].state) implies exists|f: u64|
            r.eps.contains_key(f) && #[trigger] r.eps[f].contains(k) by {
            assert(sched::waiting(s.tasks[k].state));
            let f = choose|f: u64| s.eps.contains_key(f) && #[trigger] s.eps[f].contains(k);
            assert(r.eps[f].contains(k));
        }
    }
    assert(r.reply_inv()) by {
        lemma_new_holder(s, r, holder, t);
    }
}

/// The part of the invariant that speaks of replies holds after a task has come to
/// wait for the reply of one that owed none.
proof fn lemma_new_holder(s: SystemView, r: SystemView, holder: u64, caller: u64)
    requires
        s.reply_inv(),
        r.tasks.dom() == s.tasks.dom(),
        s.tasks.contains_key(holder),
        s.tasks.contains_key(caller),
        holder != caller,
        !s.tasks.contains_key(0),
        s.tasks[holder].reply_to == 0,
        s.tasks[caller].state != TaskState::BlockedReply,
        r.tasks[holder].state == TaskState::Ready || r.tasks[holder].state == TaskState::Running,
        s.tasks[holder].state != TaskState::BlockedReply,
        r.tasks[caller].state == TaskState::BlockedReply,
        r.tasks[holder].reply_to == caller,
        r.tasks[caller].reply_to == s.tasks[caller].reply_to,
        forall|t: u64| #[trigger]
            s.tasks.contains_key(t) && t != holder && t != caller ==> r.tasks[t].reply_to
                == s.tasks[t].reply_to && r.tasks[t].state == s.tasks[t].state,
    ensures
        r.reply_inv(),
{
    assert forall|t: u64|
        r.tasks.contains_key(t) && #[trigger] r.tasks[t].state
            == TaskState::BlockedReply implies r.has_holder(t) by {
        if t == caller {
            assert(r.tasks[holder].reply_to == t);
        } else {
            assert(s.tasks[t].state == TaskState::BlockedReply);
            let h = choose|h: u64| s.tasks.contains_key(h) && #[trigger] s.tasks[h].reply_to == t;
            assert(r.tasks[h].reply_to == t);
        }
    }
    assert forall|h: u64|
        #![trigger r.tasks[h].reply_to]
        r.tasks.contains_key(h) && r.tasks[h].reply_to != 0 implies {
        &&& r.tasks[h].reply_to != h
        &&& r.tasks.contains_key(r.tasks[h].reply_to)
        &&& r.tasks[r.tasks[h].reply_to].state == TaskState::BlockedReply
        &&& r.tasks[h].state != TaskState::Inactive
        &&& r.tasks[h].state != TaskState::Stopped
        &&& r.tasks[h].state != TaskState::Dead
    } by {
        if h != holder {
            assert(s.tasks[h].reply_to == r.tasks[h].reply_to);
            assert(s.tasks[s.tasks[h].reply_to].state == TaskState::BlockedReply);
        }
    }
    assert forall|h1: u64, h2: u64|
        #![trigger r.tasks[h1].reply_to, r.tasks[h2].reply_to]
        r.tasks.contains_key(h1) && r.tasks.contains_key(h2) && r.tasks[h1].reply_to != 0
            && r.tasks[h1].reply_to == r.tasks[h2].reply_to implies h1 == h2 by {
        if h1 != holder {
            assert(s.tasks[h1].reply_to == r.tasks[h1].reply_to);
            assert(s.tasks[s.tasks[h1].reply_to].state == TaskState::BlockedReply);
        }
        if h2 != holder {
            assert(s.tasks[h2].reply_to == r.tasks[h2].reply_to);
            assert(s.tasks[s.tasks[h2].reply_to].state == TaskState::BlockedReply);
        }
    }
}

/// A caller at the head of a queue may come to wait for the reply of the current
/// task, if that owes none.
proof fn lemma_accepted_inv(s: SystemView, e: u64)
    requires
        s.inv(),
        s.running(),
        s.eps.contains_key(e),
        s.eps[e].len() > 0,
        s.tasks[s.eps[e][0]].state == TaskState::BlockedCall,
        s.tasks[s.current].reply_to == 0,
    ensures
        s.with_ep(e, s.eps[e].drop_first()).owing(s.current, s.eps[e][0]).inv(),
        s.with_ep(e, s.eps[e].drop_first()).owing(s.current, s.eps[e][0]).running(),
{
    let q = s.eps[e];
    let t = q[0];
    let r = s.with_ep(e, q.drop_first()).owing(s.current, t);
    assert(q.contains(t));
    seqs::lemma_drop_first_contains(q);
    assert(s.tasks.contains_key(t));
    assert(t != 0);
    assert(!s.ready.contains(t));
    assert(r.tasks.dom() =~= s.tasks.dom());
    assert(r.eps[e] == q.drop_first());
    assert(r.disjoint()) by {
        assert forall|f: u64, k: u64|
            #![trigger r.eps[f].contains(k)]
            r.eps.contains_key(f) && r.eps[f].contains(k) implies !r.ready.contains(k) by {
            assert(s.eps[f].contains(k));
        }
        assert forall|f: u64, g: u64, k: u64|
            #![trigger r.eps[f].contains(k), r.eps[g].contains(k)]
            r.eps.contains_key(f) && r.eps.contains_key(g) && r.eps[f].contains(k)
                && r.eps[g].contains(k) implies f == g by {
            assert(s.eps[f].contains(k) && s.eps[g].contains(k));
        }
    }
    assert(r.eps_inv()) by {
        assert forall|f: u64, k: u64|
            #![trigger r.eps[f].contains(k)]
            r.eps.contains_key(f) && r.eps[f].contains(k) implies r.tasks.contains_key(k)
            && sched::waiting(r.tasks[k].state) by {
            assert(s.eps[f].contains(k));
            if k == t {
                assert(f == e);
            }
        }
        assert forall|k: u64|
            #![trigger r.tasks[k].state]
            r.tasks.contains_key(k) && sched::waiting(r.tasks[k].state) implies exists|f: u64|
            r.eps.contains_key(f) && #[trigger] r.eps[f].contains(k) by {
            assert(sched::waiting(s.tasks[k].state));
            let f = choose|f: u64| s.eps.contains_key(f) && #[trigger] s.eps[f].contains(k);
            assert(r.eps[f].contains(k));
        }
        assert forall|f: u64, k1: u64, k2: u64|
            #![trigger r.eps[f].contains(k1), r.eps[f].contains(k2)]
            r.eps.contains_key(f) && r.eps[f].contains(k1) && r.eps[f].contains(k2)
                && r.tasks[k1].state == TaskState::BlockedRecv implies r.tasks[k2].state
            == TaskState::BlockedRecv by {
            assert(s.eps[f].contains(k1) && s.eps[f].contains(k2));
        }
    }
    assert(r.reply_inv()) by {
        lemma_new_holder(s, r, s.current, t);
    }
}

/// Sending keeps the system invariant, and unless all tasks are blocked a task
/// runs afterwards.
pub proof fn lemma_send_inv(s: SystemView, e: u64, nonblock: bool)
    requires
        s.inv(),
        s.running(),
        s.eps.contains_key(e),
    ensures
        s.send(e, nonblock).0.inv(),
        s.send(e, nonblock).1 ==> s.send(e, nonblock).0.running(),
{
    let cur = s.current;
    if s.has_receiver(e) {
        let t = s.eps[e][0];
        assert(s.eps[e].contains(t));
        let s1 = s.message(cur, t);
        lemma_ctx_inv(s, t, delivered(s.tasks[cur].ctx, s.tasks[t].ctx));
        lemma_woken_inv(s1, e);
        let s2 = s1.woken(e);
        lemma_ctx_inv(s2, cur, s2.tasks[cur].ctx.set_x(0, 0));
    } else if nonblock {
        lemma_ctx_inv(s, cur, s.tasks[cur].ctx.set_x(0, abi::err::WOULD_BLOCK as u64));
    } else {
        lemma_queued_inv(s, e, TaskState::BlockedSend);
        sched::lemma_block_and_switch_inv(s.queued(e, TaskState::BlockedSend));
    }
}

/// Receiving keeps the system invariant, and unless all tasks are blocked a task
/// runs afterwards.
pub proof fn lemma_recv_inv(s: SystemView, e: u64, nonblock: bool)
    requires
        s.inv(),
        s.running(),
        s.eps.contains_key(e),
    ensures
        s.recv(e, nonblock).0.inv(),
        s.recv(e, nonblock).1 ==> s.recv(e, nonblock).0.running(),
{
    let cur = s.current;
    if s.has_sender(e) {
        let t = s.eps[e][0];
        assert(s.eps[e].contains(t));
        let s1 = s.message(t, cur);
        lemma_ctx_inv(s, cur, delivered(s.tasks[t].ctx, s.tasks[cur].ctx));
        if s.tasks[t].state == TaskState::BlockedCall {
            lemma_reply_aborted_inv(s1, cur);
            lemma_accepted_inv(s1.reply_aborted(cur), e);
        } else {
            lemma_ctx_inv(s1, t, s1.tasks[t].ctx.set_x(0, 0));
            lemma_woken_inv(s1.with_x0(t, 0), e);
        }
    } else if nonblock {
        lemma_ctx_inv(s, cur, s.tasks[cur].ctx.set_x(0, abi::err::WOULD_BLOCK as u64));
    } else {
        lemma_queued_inv(s, e, TaskState::BlockedRecv);
        sched::lemma_block_and_switch_inv(s.queued(e, TaskState::BlockedRecv));
    }
}

/// Calling keeps the system invariant, and unless all tasks are blocked a task
/// runs afterwards.
pub proof fn lemma_call_inv(s: SystemView, e: u64, nonblock: bool)
    requires
        s.inv(),
        s.running(),
        s.eps.contains_key(e),
    ensures
        s.call(e, nonblock).0.inv(),
        s.call(e, nonblock).1 ==> s.call(e, nonblock).0.running(),
{
    let cur = s.current;
    if s.has_receiver(e) {
        let t = s.eps[e][0];
        assert(s.eps[e].contains(t));
        let s1 = s.message(cur, t);
        lemma_ctx_inv(s, t, delivered(s.tasks[cur].ctx, s.tasks[t].ctx));
        lemma_reply_aborted_inv(s1, t);
        let s2 = s1.reply_aborted(t);
        lemma_woken_inv(s2, e);
        let s3 = s2.woken(e);
        lemma_owing_inv(s3, t);
        sched::lemma_block_and_switch_inv(s3.owing(t, cur));
    } else if nonblock {
        lemma_ctx_inv(s, cur, s.tasks[cur].ctx.set_x(0, abi::err::WOULD_BLOCK as u64));
    } else {
        lemma_queued_inv(s, e, TaskState::BlockedCall);
        sched::lemma_block_and_switch_inv(s.queued(e, TaskState::BlockedCall));
    }
}

/// Answering the pending caller keeps the system invariant.
pub proof fn lemma_replied_inv(s: SystemView)
    requires
        s.inv(),
        s.running(),
    ensures
        s.replied().inv(),
        s.replied().running(),
        s.replied().eps == s.eps,
        s.replied().current == s.current,
{
    let caller = s.tasks[s.current].reply_to;
    if caller != 0 {
        let r = s.replied();
        assert(s.tasks.contains_key(caller));
        assert(r.tasks =~= s.tasks.insert(
            s.current,
            s.tasks[s.current].with_reply_to(0),
        ).insert(caller, r.tasks[caller]));
        lemma_answered_inv(s, s.current, r);
    }
}

/// Whether every endpoint capability has its endpoint.
pub open spec fn endpoints_exist(caps: Seq<Cap>, s: SystemView) -> bool {
    forall|i: int|
        #![trigger caps[i]]
        0 <= i < caps.len() && caps[i] is Endpoint ==> {
            &&& caps[i]->Endpoint_base + abi::KERNEL_VA_OFFSET <= u64::MAX
            &&& s.eps.contains_key((caps[i]->Endpoint_base + abi::KERNEL_VA_OFFSET) as u64)
        }
}

/// The address of the endpoint that a slot names.
fn ep_of(cnode: &CNode, slot: u64, Ghost(s): Ghost<SystemView>) -> (r: Result<u64, i64>)
    requires
        cnode.wf(),
        endpoints_exist(cnode@, s),
    ensures
        r == endpoint_at(cnode@, slot as int),
        r matches Ok(e) ==> s.eps.contains_key(e),
{
    match cnode.cap_at(slot) {
        Some(Cap::Endpoint { base }) => {
            assert(cnode@[slot as int] is Endpoint);
            Ok(base + abi::KERNEL_VA_OFFSET)
        },
        Some(_) => Err(abi::err::BAD_CAP),
        None => Err(abi::err::BAD_SLOT),
    }
}

/// Copies a message into the registers of its receiver.
///
/// Nothing but x2 to x5 travels. x0 reports success, x1 is the place of the badge.
pub fn deliver(src: &Context, dst: &mut Context)
    ensures
        final(dst)@ == delivered(src@, old(dst)@),
{
    let mut i: usize = MR_FIRST;
    while i <= MR_LAST
        invariant
            MR_FIRST <= i <= MR_LAST + 1,
            dst.sp == old(dst).sp,
            dst.elr == old(dst).elr,
            dst.spsr == old(dst).spsr,
            dst.tpidr == old(dst).tpidr,
            dst.tpidrro == old(dst).tpidrro,
            forall|j: int|
                0 <= j < 31 ==> #[trigger] dst.x@[j] == (if MR_FIRST <= j < i {
                    src.x@[j]
                } else {
                    old(dst).x@[j]
                }),
        decreases MR_LAST + 1 - i,
    {
        dst.x[i] = src.x[i];
        i += 1;
    }
    dst.x[0] = 0;
    dst.x[1] = 0;
    assert(dst.x@ =~= delivered(src@, old(dst)@).x);
}

impl System {
    /// Gives a task a result.
    pub(crate) fn set_x0(&mut self, t: u64, v: u64)
        requires
            old(self).rep(),
            old(self)@.tasks.contains_key(t),
        ensures
            final(self).rep(),
            final(self)@ == old(self)@.with_x0(t, v),
    {
        let mut ctx = self.ctx(t);
        ctx.x[0] = v;
        self.set_ctx(t, ctx);
    }

    fn pass_message(&mut self, from: u64, to: u64)
        requires
            old(self).rep(),
            old(self)@.tasks.contains_key(from),
            old(self)@.tasks.contains_key(to),
        ensures
            final(self).rep(),
            final(self)@ == old(self)@.message(from, to),
    {
        let src = self.ctx(from);
        let mut dst = self.ctx(to);
        deliver(&src, &mut dst);
        self.set_ctx(to, dst);
    }
}

/// The first task of an endpoint queue is in no queue once it has been taken out.
proof fn lemma_popped_unqueued(s: SystemView, e: u64)
    requires
        s.inv(),
        s.eps.contains_key(e),
        s.eps[e].len() > 0,
    ensures
        s.with_ep(e, s.eps[e].drop_first()).unqueued(s.eps[e][0]),
        s.tasks.contains_key(s.eps[e][0]),
        s.eps[e][0] != s.current || !s.running(),
{
    let q = s.eps[e];
    let t = q[0];
    let r = s.with_ep(e, q.drop_first());
    assert(q.contains(t));
    seqs::lemma_drop_first_contains(q);
    assert forall|f: u64| #[trigger] r.eps.contains_key(f) implies !r.eps[f].contains(t) by {
        if f != e {
            assert(s.eps.contains_key(f));
            if s.eps[f].contains(t) {
                assert(f == e);
            }
        }
    }
}

/// A running task is in no queue.
proof fn lemma_running_unqueued(s: SystemView)
    requires
        s.inv(),
        s.running(),
    ensures
        s.unqueued(s.current),
{
    assert forall|f: u64| #[trigger] s.eps.contains_key(f) implies !s.eps[f].contains(
        s.current,
    ) by {}
}

/// A caller who waits for a reply is in no queue.
proof fn lemma_caller_unqueued(s: SystemView, holder: u64)
    requires
        s.inv(),
        s.tasks.contains_key(holder),
        s.tasks[holder].reply_to != 0,
    ensures
        s.tasks[holder].reply_to != holder,
        s.tasks.contains_key(s.tasks[holder].reply_to),
        s.unqueued(s.tasks[holder].reply_to),
{
    let caller = s.tasks[holder].reply_to;
    assert(s.tasks[caller].state == TaskState::BlockedReply);
    assert forall|f: u64| #[trigger] s.eps.contains_key(f) implies !s.eps[f].contains(caller) by {}
}

/// Gives up the reply that `holder` owes.
///
/// A task that ends without an answer, or accepts another call before it has
/// answered the last, leaves a caller behind; that caller is woken with
/// `NO_REPLY`. Nothing happens where no reply is owed.
pub fn abort_reply(sys: &mut System, holder: u64)
    requires
        old(sys).rep(),
        old(sys)@.inv(),
        old(sys)@.tasks.contains_key(holder),
    ensures
        final(sys).rep(),
        final(sys)@ == old(sys)@.reply_aborted(holder),
        final(sys)@.inv(),
{
    let ghost before = sys@;
    proof {
        lemma_reply_aborted_inv(before, holder);
        assert(sys@.tasks[holder] == sys.tasks@[holder]@);
    }
    let caller = sys.tasks.get(holder).reply_to;
    sys.set_reply_to(holder, 0);
    if caller == 0 {
        return;
    }
    proof {
        lemma_caller_unqueued(before, holder);
    }
    sys.set_x0(caller, abi::err::NO_REPLY as u64);
    sched::enqueue(sys, caller);
}

/// Handles `SEND` for the current task: x0 = slot, x1 = flags, x2 to x5 = message.
///
/// Where a receiver waits, the message goes to it at once. Otherwise the task
/// waits in the queue of the endpoint, or gets `WOULD_BLOCK` if it does not want
/// to. False means that every task is blocked.
#[must_use]
pub fn sys_send(cnode: &CNode, sys: &mut System) -> (r: bool)
    requires
        cnode.wf(),
        old(sys).wf(),
        old(sys)@.running(),
        endpoints_exist(cnode@, old(sys)@),
    ensures
        final(sys).wf(),
        (final(sys)@, r) == old(sys)@.sys_send(cnode@),
        r ==> final(sys)@.running(),
{
    let ghost s = sys@;
    let cur = sched::current(sys);
    let ctx = sys.ctx(cur);
    let ep = match ep_of(cnode, ctx.x[0], Ghost(s)) {
        Ok(ep) => ep,
        Err(e) => {
            proof {
                lemma_ctx_inv(s, cur, s.tasks[cur].ctx.set_x(0, e as u64));
            }
            sys.set_x0(cur, e as u64);
            return true;
        },
    };
    let nonblock = ctx.x[1] & abi::ipc::NONBLOCK != 0;
    proof {
        lemma_send_inv(s, ep, nonblock);
    }
    let head = sys.ep_head(ep);
    if head != 0 && sys.state(head) == TaskState::BlockedRecv {
        proof {
            lemma_popped_unqueued(s, ep);
        }
        let rcv = sys.ep_pop(ep);
        sys.pass_message(cur, rcv);
        sched::enqueue(sys, rcv);
        sys.set_x0(cur, 0);
        assert(sys@ =~= s.send(ep, nonblock).0);
        return true;
    }
    if nonblock {
        sys.set_x0(cur, abi::err::WOULD_BLOCK as u64);
        return true;
    }
    proof {
        lemma_running_unqueued(s);
    }
    sys.set_state(cur, TaskState::BlockedSend);
    sys.ep_push(ep, cur);
    sched::block_and_switch(sys)
}

/// Handles `RECV` for the current task: x0 = slot, x1 = flags.
///
/// False means that every task is blocked.
#[must_use]
pub fn sys_recv(cnode: &CNode, sys: &mut System) -> (r: bool)
    requires
        cnode.wf(),
        old(sys).wf(),
        old(sys)@.running(),
        endpoints_exist(cnode@, old(sys)@),
    ensures
        final(sys).wf(),
        (final(sys)@, r) == old(sys)@.sys_recv(cnode@),
        r ==> final(sys)@.running(),
{
    let ghost s = sys@;
    let cur = sched::current(sys);
    let ctx = sys.ctx(cur);
    let ep = match ep_of(cnode, ctx.x[0], Ghost(s)) {
        Ok(ep) => ep,
        Err(e) => {
            proof {
                lemma_ctx_inv(s, cur, s.tasks[cur].ctx.set_x(0, e as u64));
            }
            sys.set_x0(cur, e as u64);
            return true;
        },
    };
    let nonblock = ctx.x[1] & abi::ipc::NONBLOCK != 0;
    recv_inner(sys, ep, nonblock)
}

/// Receives from an endpoint, for `RECV` and the second half of `REPLY_RECV`.
///
/// A caller who is accepted waits for the reply, and the current task owes it. A
/// reply that was owed before is given up: there is never more than one.
fn recv_inner(sys: &mut System, ep: u64, nonblock: bool) -> (r: bool)
    requires
        old(sys).wf(),
        old(sys)@.running(),
        old(sys)@.eps.contains_key(ep),
    ensures
        final(sys).wf(),
        (final(sys)@, r) == old(sys)@.recv(ep, nonblock),
        r ==> final(sys)@.running(),
{
    let ghost s = sys@;
    let cur = sched::current(sys);
    proof {
        lemma_recv_inv(s, ep, nonblock);
    }
    let head = sys.ep_head(ep);
    if head != 0 && sys.state(head) != TaskState::BlockedRecv {
        proof {
            lemma_popped_unqueued(s, ep);
            assert(s.eps[ep].contains(s.eps[ep][0]));
        }
        let calling = sys.state(head) == TaskState::BlockedCall;
        sys.pass_message(head, cur);
        let ghost got = sys@;
        proof {
            lemma_ctx_inv(s, cur, delivered(s.tasks[head].ctx, s.tasks[cur].ctx));
        }
        if calling {
            proof {
                lemma_reply_aborted_inv(got, cur);
            }
            abort_reply(sys, cur);
            let snd = sys.ep_pop(ep);
            sys.set_state(snd, TaskState::BlockedReply);
            sys.set_reply_to(cur, snd);
            assert(sys@ =~= s.recv(ep, nonblock).0);
        } else {
            let snd = sys.ep_pop(ep);
            sys.set_x0(snd, 0);
            sched::enqueue(sys, snd);
            assert(sys@ =~= s.recv(ep, nonblock).0);
        }
        return true;
    }
    if nonblock {
        sys.set_x0(cur, abi::err::WOULD_BLOCK as u64);
        return true;
    }
    proof {
        lemma_running_unqueued(s);
    }
    sys.set_state(cur, TaskState::BlockedRecv);
    sys.ep_push(ep, cur);
    sched::block_and_switch(sys)
}

/// Hands the call of the current task to the receiver who waits first at an endpoint: the
/// receiver has the message, owes the reply and is ready, and the current task waits. A
/// reply that the receiver owed before is given up.
fn hand_call(sys: &mut System, ep: u64)
    requires
        old(sys).wf(),
        old(sys)@.running(),
        old(sys)@.eps.contains_key(ep),
        old(sys)@.has_receiver(ep),
    ensures
        final(sys).wf(),
        final(sys)@ == old(sys)@.message(old(sys)@.current, old(sys)@.eps[ep][0]).reply_aborted(
            old(sys)@.eps[ep][0],
        ).woken(ep).owing(old(sys)@.eps[ep][0], old(sys)@.current),
{
    let ghost s = sys@;
    let cur = sched::current(sys);
    let head = sys.ep_head(ep);
    proof {
        assert(s.eps[ep].contains(s.eps[ep][0]));
        lemma_popped_unqueued(s, ep);
        lemma_ctx_inv(s, head, delivered(s.tasks[cur].ctx, s.tasks[head].ctx));
        lemma_reply_aborted_inv(s.message(cur, head), head);
        lemma_popped_unqueued(s.message(cur, head).reply_aborted(head), ep);
        lemma_woken_inv(s.message(cur, head).reply_aborted(head), ep);
        lemma_owing_inv(s.message(cur, head).reply_aborted(head).woken(ep), head);
    }
    sys.pass_message(cur, head);
    abort_reply(sys, head);
    let rcv = sys.ep_pop(ep);
    sys.set_reply_to(rcv, cur);
    sys.set_state(cur, TaskState::BlockedReply);
    sched::enqueue(sys, rcv);
    assert(sys@ =~= s.message(cur, head).reply_aborted(head).woken(ep).owing(head, cur));
}

/// Handles `CALL` for the current task: x0 = slot, x1 = flags, x2 to x5 = message.
///
/// Sending and waiting for the reply are one step, so no reply can be missed.
/// False means that every task is blocked.
#[must_use]
pub fn sys_call(cnode: &CNode, sys: &mut System) -> (r: bool)
    requires
        cnode.wf(),
        old(sys).wf(),
        old(sys)@.running(),
        endpoints_exist(cnode@, old(sys)@),
    ensures
        final(sys).wf(),
        (final(sys)@, r) == old(sys)@.sys_call(cnode@),
        r ==> final(sys)@.running(),
{
    let ghost s = sys@;
    let cur = sched::current(sys);
    let ctx = sys.ctx(cur);
    let ep = match ep_of(cnode, ctx.x[0], Ghost(s)) {
        Ok(ep) => ep,
        Err(e) => {
            proof {
                lemma_ctx_inv(s, cur, s.tasks[cur].ctx.set_x(0, e as u64));
            }
            sys.set_x0(cur, e as u64);
            return true;
        },
    };
    let nonblock = ctx.x[1] & abi::ipc::NONBLOCK != 0;
    proof {
        lemma_call_inv(s, ep, nonblock);
    }
    let head = sys.ep_head(ep);
    if head != 0 && sys.state(head) == TaskState::BlockedRecv {
        hand_call(sys, ep);
    } else {
        if nonblock {
            sys.set_x0(cur, abi::err::WOULD_BLOCK as u64);
            return true;
        }
        proof {
            lemma_running_unqueued(s);
        }
        sys.set_state(cur, TaskState::BlockedCall);
        sys.ep_push(ep, cur);
    }
    sched::block_and_switch(sys)
}

/// Handles `REPLY_RECV` for the current task: x0 = slot, x1 = flags, x2 to x5 =
/// reply.
///
/// The pending caller, if there is one, gets its answer; then the task receives.
/// A bad endpoint is reported before anything is answered. False means that every
/// task is blocked.
#[must_use]
pub fn sys_reply_recv(cnode: &CNode, sys: &mut System) -> (r: bool)
    requires
        cnode.wf(),
        old(sys).wf(),
        old(sys)@.running(),
        endpoints_exist(cnode@, old(sys)@),
    ensures
        final(sys).wf(),
        (final(sys)@, r) == old(sys)@.sys_reply_recv(cnode@),
        r ==> final(sys)@.running(),
{
    let ghost s = sys@;
    let cur = sched::current(sys);
    let ctx = sys.ctx(cur);
    let ep = match ep_of(cnode, ctx.x[0], Ghost(s)) {
        Ok(ep) => ep,
        Err(e) => {
            proof {
                lemma_ctx_inv(s, cur, s.tasks[cur].ctx.set_x(0, e as u64));
            }
            sys.set_x0(cur, e as u64);
            return true;
        },
    };
    let nonblock = ctx.x[1] & abi::ipc::NONBLOCK != 0;
    proof {
        lemma_replied_inv(s);
        assert(sys@.tasks[cur] == sys.tasks@[cur]@);
    }
    let caller = sys.tasks.get(cur).reply_to;
    if caller != 0 {
        proof {
            lemma_caller_unqueued(s, cur);
        }
        sys.set_reply_to(cur, 0);
        sys.pass_message(cur, caller);
        sched::enqueue(sys, caller);
    }
    recv_inner(sys, ep, nonblock)
}

/// The tasks and endpoints that exist are the same.
pub open spec fn same_objects(s: SystemView, r: SystemView) -> bool {
    r.tasks.dom() == s.tasks.dom() && r.eps.dom() == s.eps.dom()
}

/// Who waits in a queue is a task, and so is a caller who is owed a reply.
proof fn lemma_first(s: SystemView, e: u64)
    requires
        s.inv(),
        s.eps.contains_key(e),
    ensures
        s.ready.len() > 0 ==> s.tasks.contains_key(s.ready[0]),
        s.eps[e].len() > 0 ==> s.tasks.contains_key(s.eps[e][0]),
        forall|h: u64|
            s.tasks.contains_key(h) && #[trigger] s.tasks[h].reply_to != 0
                ==> s.tasks.contains_key(s.tasks[h].reply_to),
{
    if s.ready.len() > 0 {
        assert(s.ready.contains(s.ready[0]));
    }
    if s.eps[e].len() > 0 {
        assert(s.eps[e].contains(s.eps[e][0]));
    }
}

proof fn lemma_send_objects(s: SystemView, e: u64, nonblock: bool)
    requires
        s.inv(),
        s.eps.contains_key(e),
    ensures
        same_objects(s, s.send(e, nonblock).0),
{
    lemma_first(s, e);
    let r = s.send(e, nonblock).0;
    assert(r.tasks.dom() =~= s.tasks.dom());
    assert(r.eps.dom() =~= s.eps.dom());
}

proof fn lemma_recv_objects(s: SystemView, e: u64, nonblock: bool)
    requires
        s.inv(),
        s.eps.contains_key(e),
    ensures
        same_objects(s, s.recv(e, nonblock).0),
{
    lemma_first(s, e);
    let r = s.recv(e, nonblock).0;
    assert(s.tasks[s.current].reply_to != 0 ==> s.tasks.contains_key(
        s.tasks[s.current].reply_to,
    ));
    assert(r.tasks.dom() =~= s.tasks.dom());
    assert(r.eps.dom() =~= s.eps.dom());
}

proof fn lemma_call_objects(s: SystemView, e: u64, nonblock: bool)
    requires
        s.inv(),
        s.eps.contains_key(e),
    ensures
        same_objects(s, s.call(e, nonblock).0),
{
    lemma_first(s, e);
    let r = s.call(e, nonblock).0;
    if s.has_receiver(e) {
        let t = s.eps[e][0];
        assert(s.tasks[t].reply_to != 0 ==> s.tasks.contains_key(s.tasks[t].reply_to));
        let m = s.message(s.current, t);
        assert(m.tasks[t].reply_to == s.tasks[t].reply_to);
        let a = m.reply_aborted(t);
        assert(a.tasks.dom() =~= s.tasks.dom());
        let o = a.woken(e).owing(t, s.current);
        assert(o.tasks.dom() =~= s.tasks.dom());
        assert(o.ready.len() > 0 ==> s.tasks.contains_key(o.ready[0]));
        assert(r.tasks.dom() =~= s.tasks.dom());
    }
    assert(r.tasks.dom() =~= s.tasks.dom());
    assert(r.eps.dom() =~= s.eps.dom());
}

/// IPC makes no task and no endpoint, and takes none away.
pub(crate) proof fn lemma_doms(s: SystemView, caps: Seq<Cap>)
    requires
        s.inv(),
        s.running(),
        endpoints_exist(caps, s),
    ensures
        same_objects(s, s.sys_send(caps).0),
        same_objects(s, s.sys_recv(caps).0),
        same_objects(s, s.sys_call(caps).0),
        same_objects(s, s.sys_reply_recv(caps).0),
{
    match s.asked(caps) {
        Err(v) => {
            assert(s.with_x0(s.current, v as u64).tasks.dom() =~= s.tasks.dom());
        },
        Ok(e) => {
            let i = s.regs()[0] as int;
            assert(caps[i] is Endpoint);
            let nonblock = is_nonblock(s.regs()[1]);
            lemma_send_objects(s, e, nonblock);
            lemma_recv_objects(s, e, nonblock);
            lemma_call_objects(s, e, nonblock);
            lemma_replied_inv(s);
            assert(s.tasks[s.current].reply_to != 0 ==> s.tasks.contains_key(
                s.tasks[s.current].reply_to,
            ));
            assert(s.replied().tasks.dom() =~= s.tasks.dom());
            lemma_recv_objects(s.replied(), e, nonblock);
        },
    }
}

} // verus!
