//! What IPC promises as a whole.
use vstd::prelude::*;

use crate::abi;
use crate::arch::usermode::ContextView;
use crate::cap::Cap;
use crate::ipc;
use crate::sched::SystemView;
use crate::seqs;
use crate::task::TaskState;

verus! {

/// Nothing but x2 to x5 travels with a message: x0 and x1 of the receiver become
/// 0, its other registers stay as they were.
pub proof fn lemma_only_message_registers_travel(src: ContextView, dst: ContextView)
    requires
        src.x.len() == 31,
        dst.x.len() == 31,
    ensures
        ({
            let got = ipc::delivered(src, dst);
            &&& got.x.len() == 31
            &&& got.x[0] == 0
            &&& got.x[1] == 0
            &&& forall|i: int| 2 <= i <= 5 ==> got.x[i] == src.x[i]
            &&& forall|i: int| 5 < i < 31 ==> got.x[i] == dst.x[i]
            &&& got.sp == dst.sp
            &&& got.elr == dst.elr
            &&& got.spsr == dst.spsr
            &&& got.tpidr == dst.tpidr
            &&& got.tpidrro == dst.tpidrro
        }),
{
}

/// A message sent to an endpoint where nobody waits is what the next receiver there
/// gets, and the sender then goes on with success.
pub proof fn lemma_recv_gives_what_was_sent(s: SystemView, e: u64, nonblock: bool)
    requires
        s.inv(),
        s.running(),
        s.eps.contains_key(e),
        s.eps[e].len() == 0,
        s.send(e, false).1,
    ensures
        ({
            let sender = s.current;
            let mid = s.send(e, false).0;
            let receiver = mid.current;
            let (end, ok) = mid.recv(e, nonblock);
            &&& ok
            &&& receiver != sender
            &&& end.current == receiver
            &&& end.tasks[receiver].ctx == ipc::delivered(
                s.tasks[sender].ctx,
                s.tasks[receiver].ctx,
            )
            &&& end.tasks[sender].state == TaskState::Ready
            &&& end.tasks[sender].ctx == s.tasks[sender].ctx.set_x(0, 0)
            &&& end.eps[e] =~= s.eps[e]
        }),
{
    let sender = s.current;
    let mid = s.send(e, false).0;
    let waiting = s.queued(e, TaskState::BlockedSend);
    assert(s.ready.contains(s.ready[0]));
    assert(mid.current == s.ready[0]);
    assert(mid.eps[e] =~= seq![sender]);
    assert(mid.tasks[sender] == s.tasks[sender].with_state(TaskState::BlockedSend));
    assert(mid.has_sender(e));
}

/// A message sent to an endpoint where a receiver waits is what that receiver has
/// when it runs again.
pub proof fn lemma_waiting_receiver_gets_message(s: SystemView, e: u64, nonblock: bool)
    requires
        s.inv(),
        s.running(),
        s.eps.contains_key(e),
        s.has_receiver(e),
    ensures
        ({
            let receiver = s.eps[e][0];
            let (end, ok) = s.send(e, nonblock);
            &&& ok
            &&& end.current == s.current
            &&& end.tasks[receiver].state == TaskState::Ready
            &&& end.ready.last() == receiver
            &&& end.tasks[receiver].ctx == ipc::delivered(
                s.tasks[s.current].ctx,
                s.tasks[receiver].ctx,
            )
            &&& end.tasks[s.current].ctx == s.tasks[s.current].ctx.set_x(0, 0)
        }),
{
    assert(s.eps[e].contains(s.eps[e][0]));
}

/// Tasks that wait at an endpoint are served in the order in which they came: a
/// task joins at the end of the queue and the first one is served.
pub proof fn lemma_first_come_first_served(s: SystemView, e: u64, nonblock: bool)
    requires
        s.inv(),
        s.running(),
        s.eps.contains_key(e),
    ensures
        s.has_receiver(e) ==> s.send(e, nonblock).0.eps[e] == s.eps[e].drop_first(),
        s.has_receiver(e) ==> s.call(e, nonblock).0.eps[e] == s.eps[e].drop_first(),
        s.has_sender(e) ==> s.recv(e, nonblock).0.eps[e] == s.eps[e].drop_first(),
        !s.has_receiver(e) && !nonblock ==> s.send(e, nonblock).0.eps[e] == s.eps[e].push(
            s.current,
        ),
        !s.has_receiver(e) && !nonblock ==> s.call(e, nonblock).0.eps[e] == s.eps[e].push(
            s.current,
        ),
        !s.has_sender(e) && !nonblock ==> s.recv(e, nonblock).0.eps[e] == s.eps[e].push(
            s.current,
        ),
{
}

/// A request that does not want to wait never does: sending and receiving with
/// that flag leave the task on the processor, and a call with it does so where no
/// receiver waits.
pub proof fn lemma_nonblock_never_waits(s: SystemView, e: u64)
    requires
        s.inv(),
        s.running(),
        s.eps.contains_key(e),
    ensures
        s.send(e, true).1,
        s.send(e, true).0.current == s.current,
        s.send(e, true).0.running(),
        s.recv(e, true).1,
        s.recv(e, true).0.current == s.current,
        s.recv(e, true).0.running(),
        !s.has_receiver(e) ==> s.call(e, true) == (
            s.with_x0(s.current, abi::err::WOULD_BLOCK as u64),
            true,
        ),
{
    ipc::lemma_send_inv(s, e, true);
    ipc::lemma_recv_inv(s, e, true);
    if s.has_sender(e) {
        assert(s.eps[e].contains(s.eps[e][0]));
    }
}

/// A caller who is accepted waits for the reply, and the receiver alone owes it.
pub proof fn lemma_call_is_owed(s: SystemView, e: u64, nonblock: bool)
    requires
        s.inv(),
        s.running(),
        s.eps.contains_key(e),
        s.has_receiver(e),
    ensures
        ({
            let receiver = s.eps[e][0];
            let end = s.call(e, nonblock).0;
            &&& end.tasks[s.current].state == TaskState::BlockedReply
            &&& end.tasks[s.current].ctx == s.tasks[s.current].ctx
            &&& end.tasks[receiver].reply_to == s.current
            &&& end.tasks[receiver].ctx == ipc::delivered(
                s.tasks[s.current].ctx,
                s.tasks[receiver].ctx,
            )
            &&& forall|h: u64|
                end.tasks.contains_key(h) && #[trigger] end.tasks[h].reply_to == s.current ==> h
                    == receiver
        }),
{
    let receiver = s.eps[e][0];
    let end = s.call(e, nonblock).0;
    assert(s.eps[e].contains(receiver));
    ipc::lemma_call_inv(s, e, nonblock);
    let m = s.message(s.current, receiver).reply_aborted(receiver).woken(e).owing(
        receiver,
        s.current,
    );
    assert(m.tasks[s.current].state == TaskState::BlockedReply);
    assert(m.ready.len() > 0);
    ipc::lemma_ctx_inv(
        s,
        receiver,
        ipc::delivered(s.tasks[s.current].ctx, s.tasks[receiver].ctx),
    );
    let a = s.message(s.current, receiver);
    ipc::lemma_reply_aborted_inv(a, receiver);
    ipc::lemma_woken_inv(a.reply_aborted(receiver), e);
    ipc::lemma_owing_inv(a.reply_aborted(receiver).woken(e), receiver);
    assert(m.ready.contains(m.ready[0]));
    assert(end.tasks[s.current].state == TaskState::BlockedReply);
    assert(end.tasks[receiver].reply_to == s.current);
}

/// A reply reaches the caller it is owed to, once: afterwards the caller is ready
/// with the message and nobody owes it a reply any more.
pub proof fn lemma_reply_is_given_once(s: SystemView)
    requires
        s.inv(),
        s.running(),
        s.tasks[s.current].reply_to != 0,
    ensures
        ({
            let caller = s.tasks[s.current].reply_to;
            let end = s.replied();
            &&& end.tasks[caller].ctx == ipc::delivered(
                s.tasks[s.current].ctx,
                s.tasks[caller].ctx,
            )
            &&& end.tasks[caller].state == TaskState::Ready
            &&& end.ready.last() == caller
            &&& forall|h: u64|
                end.tasks.contains_key(h) ==> #[trigger] end.tasks[h].reply_to != caller
            &&& end.replied() == end
        }),
{
    let caller = s.tasks[s.current].reply_to;
    let end = s.replied();
    ipc::lemma_replied_inv(s);
    assert(s.tasks.contains_key(caller));
    assert forall|h: u64| end.tasks.contains_key(h) implies #[trigger] end.tasks[h].reply_to
        != caller by {
        if end.tasks[h].reply_to == caller {
            assert(end.tasks[caller].state == TaskState::BlockedReply);
        }
    }
}

/// A caller whose reply is given up is woken with `NO_REPLY`, and nobody owes it a
/// reply any more.
pub proof fn lemma_lost_reply_wakes_caller(s: SystemView, holder: u64)
    requires
        s.inv(),
        s.tasks.contains_key(holder),
        s.tasks[holder].reply_to != 0,
    ensures
        ({
            let caller = s.tasks[holder].reply_to;
            let end = s.reply_aborted(holder);
            &&& end.tasks[caller].ctx == s.tasks[caller].ctx.set_x(
                0,
                abi::err::NO_REPLY as u64,
            )
            &&& end.tasks[caller].state == TaskState::Ready
            &&& end.ready.last() == caller
            &&& end.tasks[holder].reply_to == 0
            &&& forall|h: u64|
                end.tasks.contains_key(h) ==> #[trigger] end.tasks[h].reply_to != caller
        }),
{
    let caller = s.tasks[holder].reply_to;
    let end = s.reply_aborted(holder);
    ipc::lemma_reply_aborted_inv(s, holder);
    assert(s.tasks.contains_key(caller));
    assert forall|h: u64| end.tasks.contains_key(h) implies #[trigger] end.tasks[h].reply_to
        != caller by {
        if end.tasks[h].reply_to == caller {
            assert(end.tasks[caller].state == TaskState::BlockedReply);
        }
    }
}

/// A request that names no endpoint does nothing but report the error. In
/// particular a reply is not used up by it.
pub proof fn lemma_bad_endpoint_changes_nothing(s: SystemView, caps: Seq<Cap>, code: i64)
    requires
        s.asked(caps) == Err::<u64, i64>(code),
    ensures
        s.sys_send(caps) == (s.with_x0(s.current, code as u64), true),
        s.sys_recv(caps) == (s.with_x0(s.current, code as u64), true),
        s.sys_call(caps) == (s.with_x0(s.current, code as u64), true),
        s.sys_reply_recv(caps) == (s.with_x0(s.current, code as u64), true),
{
}

/// IPC touches the registers of the task that asks, of its partner (the first in
/// the queue of the endpoint) and of the caller that one of the two owes a reply,
/// and of nobody else.
pub proof fn lemma_registers_of_others_stay(s: SystemView, e: u64, nonblock: bool, t: u64)
    requires
        s.inv(),
        s.running(),
        s.eps.contains_key(e),
        s.tasks.contains_key(t),
        t != s.current,
        s.eps[e].len() > 0 ==> t != s.eps[e][0],
        s.tasks[s.current].reply_to != t,
        s.eps[e].len() > 0 ==> s.tasks[s.eps[e][0]].reply_to != t,
    ensures
        s.send(e, nonblock).0.tasks[t].ctx == s.tasks[t].ctx,
        s.recv(e, nonblock).0.tasks[t].ctx == s.tasks[t].ctx,
        s.call(e, nonblock).0.tasks[t].ctx == s.tasks[t].ctx,
        s.replied().recv(e, nonblock).0.tasks[t].ctx == s.tasks[t].ctx,
{
    let r = s.replied();
    ipc::lemma_replied_inv(s);
    if s.eps[e].len() > 0 {
        assert(s.eps[e].contains(s.eps[e][0]));
    }
}

/// A task that has ended stays so.
pub proof fn lemma_dead_stays_dead(s: SystemView, e: u64, nonblock: bool, t: u64)
    requires
        s.inv(),
        s.running(),
        s.eps.contains_key(e),
        s.tasks.contains_key(t),
        s.tasks[t].state == TaskState::Dead,
    ensures
        s.send(e, nonblock).0.tasks[t] == s.tasks[t],
        s.recv(e, nonblock).0.tasks[t] == s.tasks[t],
        s.call(e, nonblock).0.tasks[t] == s.tasks[t],
        s.replied().recv(e, nonblock).0.tasks[t] == s.tasks[t],
        s.rotated().tasks[t] == s.tasks[t],
        s.exited().0.tasks[t] == s.tasks[t],
{
    let r = s.replied();
    ipc::lemma_replied_inv(s);
    assert(t != s.current);
    assert(!s.ready.contains(t));
    if s.ready.len() > 0 {
        assert(s.ready.contains(s.ready[0]));
    }
    if s.eps[e].len() > 0 {
        assert(s.eps[e].contains(s.eps[e][0]));
        assert(t != s.eps[e][0]);
        let h = s.eps[e][0];
        if s.tasks[h].reply_to != 0 {
            assert(s.tasks[h].reply_to != t);
        }
    }
    if s.tasks[s.current].reply_to != 0 {
        assert(s.tasks[s.current].reply_to != t);
    }
    assert(r.tasks[t] == s.tasks[t]);
    if r.ready.len() > 0 {
        assert(r.ready.contains(r.ready[0]));
        assert(r.ready[0] != t);
    }
    seqs::lemma_push_contains(s.ready, s.current);
    assert(s.rotated().tasks[t] == s.tasks[t]);
    if s.has_receiver(e) {
        let a = s.message(s.current, s.eps[e][0]);
        let h = s.eps[e][0];
        ipc::lemma_ctx_inv(s, h, ipc::delivered(s.tasks[s.current].ctx, s.tasks[h].ctx));
        ipc::lemma_reply_aborted_inv(a, h);
        ipc::lemma_woken_inv(a.reply_aborted(h), e);
        ipc::lemma_owing_inv(a.reply_aborted(h).woken(e), h);
        let m = a.reply_aborted(h).woken(e).owing(h, s.current);
        assert(m.ready.contains(m.ready[0]));
        assert(m.tasks[t] == s.tasks[t]);
    }
}

} // verus!
