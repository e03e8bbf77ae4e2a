//! What each IPC operation does to every task, register by register.
use vstd::prelude::*;

use crate::arch::usermode::ContextView;
use crate::cap::Cap;
use crate::ipc;
use crate::sched::SystemView;
use crate::task::{TaskState, TaskView};

verus! {

/// Every task has its 31 registers.
pub open spec fn full(s: SystemView) -> bool {
    forall|t: u64| #[trigger] s.tasks.contains_key(t) ==> s.tasks[t].ctx.x.len() == 31
}

/// Whether all but the general registers is the same.
pub open spec fn same_rest(a: ContextView, b: ContextView) -> bool {
    &&& a.x.len() == b.x.len()
    &&& a.sp == b.sp
    &&& a.elr == b.elr
    &&& a.spsr == b.spsr
    &&& a.tpidr == b.tpidr
    &&& a.tpidrro == b.tpidrro
}

/// Whether x0 has been set to `v` and nothing else has changed.
pub open spec fn answer_set(before: ContextView, after: ContextView, v: int) -> bool {
    &&& same_rest(before, after)
    &&& after.x[0] == v
    &&& forall|i: int| 1 <= i < 31 ==> #[trigger] after.x[i] == before.x[i]
}

/// Whether a message has arrived: x0 and x1 are 0, x2 to x5 are those of the sender, and
/// nothing else has changed.
pub open spec fn arrived(from: ContextView, before: ContextView, after: ContextView) -> bool {
    &&& same_rest(before, after)
    &&& after.x[0] == 0
    &&& after.x[1] == 0
    &&& after.x[2] == from.x[2]
    &&& after.x[3] == from.x[3]
    &&& after.x[4] == from.x[4]
    &&& after.x[5] == from.x[5]
    &&& forall|i: int| 6 <= i < 31 ==> #[trigger] after.x[i] == before.x[i]
}

/// Whether a task has kept its address space and what it owes.
pub open spec fn same_place(a: TaskView, b: TaskView) -> bool {
    a.ttbr0_pa == b.ttbr0_pa && a.reply_to == b.reply_to
}

/// Whether no task but three has changed, and none has come or gone.
pub open spec fn only_tasks(s: SystemView, end: SystemView, a: u64, b: u64, c: u64) -> bool {
    &&& forall|t: u64| #[trigger] end.tasks.contains_key(t) == s.tasks.contains_key(t)
    &&& forall|t: u64|
        s.tasks.contains_key(t) && t != a && t != b && t != c ==> #[trigger] end.tasks[t]
            == s.tasks[t]
}

/// Whether no queue but one has changed, and that one is now `q`.
pub open spec fn only_queue(s: SystemView, end: SystemView, e: u64, q: Seq<u64>) -> bool {
    &&& forall|f: u64| #[trigger] end.eps.contains_key(f) == s.eps.contains_key(f)
    &&& end.eps[e] == q
    &&& forall|f: u64| s.eps.contains_key(f) && f != e ==> #[trigger] end.eps[f] == s.eps[f]
}

/// Whether the current task is still on the processor.
pub open spec fn stays(s: SystemView, end: SystemView) -> bool {
    &&& end.current == s.current
    &&& end.context == s.context
    &&& end.ttbr0 == s.ttbr0
    &&& end.tasks[s.current].state == TaskState::Running
    &&& end.tasks[s.current].ttbr0_pa == s.tasks[s.current].ttbr0_pa
}

/// Whether the first task of `line` has come on the processor, with the others still in
/// line; nothing has where there is none.
pub open spec fn handed_over(s: SystemView, end: SystemView, line: Seq<u64>, ok: bool) -> bool {
    &&& ok <==> line.len() > 0
    &&& ok ==> {
        &&& end.current == line[0]
        &&& end.context == line[0]
        &&& end.ready == line.skip(1)
        &&& end.tasks[line[0]].state == TaskState::Running
        &&& end.ttbr0 == end.tasks[line[0]].ttbr0_pa
    }
    &&& !ok ==> {
        &&& end.current == s.current
        &&& end.context == s.context
        &&& end.ttbr0 == s.ttbr0
        &&& end.ready == line
    }
}

/// Who is in a queue, in line or owed a reply is a task, and not the current one.
proof fn lemma_who(s: SystemView, e: u64)
    requires
        s.inv(),
        s.running(),
        s.eps.contains_key(e),
    ensures
        s.current != 0,
        s.ready.len() > 0 ==> s.tasks.contains_key(s.ready[0]) && s.ready[0] != s.current
            && s.tasks[s.ready[0]].state == TaskState::Ready,
        s.eps[e].len() > 0 ==> s.tasks.contains_key(s.eps[e][0]) && s.eps[e][0] != s.current
            && !s.ready.contains(s.eps[e][0]),
        forall|h: u64|
            s.tasks.contains_key(h) && #[trigger] s.tasks[h].reply_to != 0 ==> {
                let c = s.tasks[h].reply_to;
                &&& s.tasks.contains_key(c)
                &&& c != h
                &&& c != s.current
                &&& s.tasks[c].state == TaskState::BlockedReply
                &&& !s.ready.contains(c)
                &&& s.eps[e].len() > 0 ==> c != s.eps[e][0]
            },
{
    if s.ready.len() > 0 {
        assert(s.ready.contains(s.ready[0]));
    }
    if s.eps[e].len() > 0 {
        assert(s.eps[e].contains(s.eps[e][0]));
    }
}

/// Receiving from a task that has sent: the receiver gets the message, the sender goes on
/// with success behind all that are ready, and nobody else changes. In particular the
/// receiver still owes the reply that it owed, and who waits for it still waits.
pub proof fn lemma_recv_from_sender(s: SystemView, e: u64, nonblock: bool)
    requires
        s.inv(),
        s.running(),
        full(s),
        s.eps.contains_key(e),
        s.eps[e].len() > 0,
        s.tasks[s.eps[e][0]].state == TaskState::BlockedSend,
    ensures
        ({
            let (end, ok) = s.recv(e, nonblock);
            let cur = s.current;
            let sender = s.eps[e][0];
            &&& ok
            &&& stays(s, end)
            &&& arrived(s.tasks[sender].ctx, s.tasks[cur].ctx, end.tasks[cur].ctx)
            &&& end.tasks[cur].reply_to == s.tasks[cur].reply_to
            &&& end.tasks[sender].state == TaskState::Ready
            &&& same_place(s.tasks[sender], end.tasks[sender])
            &&& answer_set(s.tasks[sender].ctx, end.tasks[sender].ctx, 0)
            &&& end.ready == s.ready.push(sender)
            &&& only_queue(s, end, e, s.eps[e].skip(1))
            &&& only_tasks(s, end, cur, sender, sender)
        }),
{
    lemma_who(s, e);
    assert(s.eps[e].drop_first() =~= s.eps[e].skip(1));
}

/// Receiving from a task that calls: the receiver gets the message and owes the caller the
/// reply from now on, the caller waits for it as it is, and a caller to whom a reply was
/// owed before goes on with `NO_REPLY` behind all that are ready. Nobody else changes.
pub proof fn lemma_recv_from_caller(s: SystemView, e: u64, nonblock: bool)
    requires
        s.inv(),
        s.running(),
        full(s),
        s.eps.contains_key(e),
        s.eps[e].len() > 0,
        s.tasks[s.eps[e][0]].state == TaskState::BlockedCall,
    ensures
        ({
            let (end, ok) = s.recv(e, nonblock);
            let cur = s.current;
            let caller = s.eps[e][0];
            let former = s.tasks[cur].reply_to;
            &&& ok
            &&& stays(s, end)
            &&& arrived(s.tasks[caller].ctx, s.tasks[cur].ctx, end.tasks[cur].ctx)
            &&& end.tasks[cur].reply_to == caller
            &&& end.tasks[caller].state == TaskState::BlockedReply
            &&& end.tasks[caller].ctx == s.tasks[caller].ctx
            &&& same_place(s.tasks[caller], end.tasks[caller])
            &&& former == 0 ==> end.ready == s.ready
            &&& former != 0 ==> {
                &&& end.ready == s.ready.push(former)
                &&& end.tasks[former].state == TaskState::Ready
                &&& same_place(s.tasks[former], end.tasks[former])
                &&& answer_set(s.tasks[former].ctx, end.tasks[former].ctx, 0x1_0000_0000_0000_0000 - 15)
            }
            &&& only_queue(s, end, e, s.eps[e].skip(1))
            &&& only_tasks(s, end, cur, caller, former)
        }),
{
    lemma_who(s, e);
    lemma_codes();
    assert(s.eps[e].drop_first() =~= s.eps[e].skip(1));
    let got = s.message(s.eps[e][0], s.current);
    assert(s.tasks[s.current].reply_to != 0 ==> s.tasks.contains_key(s.tasks[s.current].reply_to));
}

/// Error codes as the register shows them.
pub proof fn lemma_codes()
    ensures
        forall|v: i64| -16 <= v < 0 ==> #[trigger] (v as u64) == 0x1_0000_0000_0000_0000 + v,
{
    assert forall|v: i64| -16 <= v < 0 implies #[trigger] (v as u64) == 0x1_0000_0000_0000_0000 + v by {
        assert(v as u64 == 0x1_0000_0000_0000_0000 + v) by (bit_vector)
            requires
                -16 <= v < 0,
        ;
    }
}

/// Sending to a task that waits: the receiver has the message and is behind all that are
/// ready, the sender goes on with success, and nobody else changes.
pub proof fn lemma_send_to_receiver(s: SystemView, e: u64, nonblock: bool)
    requires
        s.inv(),
        s.running(),
        full(s),
        s.eps.contains_key(e),
        s.eps[e].len() > 0,
        s.tasks[s.eps[e][0]].state == TaskState::BlockedRecv,
    ensures
        ({
            let (end, ok) = s.send(e, nonblock);
            let cur = s.current;
            let receiver = s.eps[e][0];
            &&& ok
            &&& stays(s, end)
            &&& end.tasks[cur].reply_to == s.tasks[cur].reply_to
            &&& answer_set(s.tasks[cur].ctx, end.tasks[cur].ctx, 0)
            &&& end.tasks[receiver].state == TaskState::Ready
            &&& same_place(s.tasks[receiver], end.tasks[receiver])
            &&& arrived(s.tasks[cur].ctx, s.tasks[receiver].ctx, end.tasks[receiver].ctx)
            &&& end.ready == s.ready.push(receiver)
            &&& only_queue(s, end, e, s.eps[e].skip(1))
            &&& only_tasks(s, end, cur, receiver, receiver)
        }),
{
    lemma_who(s, e);
    assert(s.eps[e].drop_first() =~= s.eps[e].skip(1));
}

/// Calling a task that waits: the receiver has the message, owes the reply and is behind
/// all that are ready, and behind a caller to whom it owed a reply before, who goes on
/// with `NO_REPLY`. The caller waits as it is, and the next in line has the processor.
pub proof fn lemma_call_to_receiver(s: SystemView, e: u64, nonblock: bool)
    requires
        s.inv(),
        s.running(),
        full(s),
        s.eps.contains_key(e),
        s.eps[e].len() > 0,
        s.tasks[s.eps[e][0]].state == TaskState::BlockedRecv,
    ensures
        ({
            let (end, ok) = s.call(e, nonblock);
            let cur = s.current;
            let receiver = s.eps[e][0];
            let former = s.tasks[receiver].reply_to;
            let line = if former == 0 {
                s.ready.push(receiver)
            } else {
                s.ready.push(former).push(receiver)
            };
            let next = line[0];
            &&& handed_over(s, end, line, ok)
            &&& ok
            &&& end.tasks[cur].state == TaskState::BlockedReply
            &&& end.tasks[cur].ctx == s.tasks[cur].ctx
            &&& same_place(s.tasks[cur], end.tasks[cur])
            &&& end.tasks[receiver].reply_to == cur
            &&& end.tasks[receiver].ttbr0_pa == s.tasks[receiver].ttbr0_pa
            &&& arrived(s.tasks[cur].ctx, s.tasks[receiver].ctx, end.tasks[receiver].ctx)
            &&& receiver != next ==> end.tasks[receiver].state == TaskState::Ready
            &&& former != 0 ==> {
                &&& same_place(s.tasks[former], end.tasks[former])
                &&& answer_set(s.tasks[former].ctx, end.tasks[former].ctx, 0x1_0000_0000_0000_0000 - 15)
                &&& former != next ==> end.tasks[former].state == TaskState::Ready
            }
            &&& only_queue(s, end, e, s.eps[e].skip(1))
            &&& forall|t: u64| #[trigger] end.tasks.contains_key(t) == s.tasks.contains_key(t)
            &&& forall|t: u64|
                s.tasks.contains_key(t) && t != cur && t != receiver && t != former ==> {
                    &&& (#[trigger] end.tasks[t]).ctx == s.tasks[t].ctx
                    &&& same_place(s.tasks[t], end.tasks[t])
                    &&& t != next ==> end.tasks[t].state == s.tasks[t].state
                }
        }),
{
    lemma_who(s, e);
    lemma_codes();
    let cur = s.current;
    let receiver = s.eps[e][0];
    let former = s.tasks[receiver].reply_to;
    assert(s.eps[e].drop_first() =~= s.eps[e].skip(1));
    let a = s.message(cur, receiver).reply_aborted(receiver).woken(e).owing(receiver, cur);
    let line = if former == 0 {
        s.ready.push(receiver)
    } else {
        s.ready.push(former).push(receiver)
    };
    assert(former != 0 ==> s.tasks.contains_key(former));
    assert(a.ready =~= line);
    assert(line.drop_first() =~= line.skip(1));
    if s.ready.len() > 0 {
        assert(line[0] == s.ready[0]);
        assert(s.ready.contains(s.ready[0]));
    }
}

/// Nobody to meet, and no wish to wait: the task goes on with `WOULD_BLOCK`, and nothing
/// else changes.
pub proof fn lemma_would_block(s: SystemView, e: u64)
    requires
        s.inv(),
        s.running(),
        full(s),
        s.eps.contains_key(e),
    ensures
        ({
            let cur = s.current;
            let would = |r: (SystemView, bool)|
                {
                    let end = r.0;
                    &&& r.1
                    &&& stays(s, end)
                    &&& end.tasks[cur].reply_to == s.tasks[cur].reply_to
                    &&& answer_set(s.tasks[cur].ctx, end.tasks[cur].ctx, 0x1_0000_0000_0000_0000 - 14)
                    &&& end.ready == s.ready
                    &&& end.eps == s.eps
                    &&& only_tasks(s, end, cur, cur, cur)
                };
            &&& s.eps[e].len() == 0 || s.tasks[s.eps[e][0]].state != TaskState::BlockedRecv ==> would(
                s.send(e, true),
            ) && would(s.call(e, true))
            &&& s.eps[e].len() == 0 || s.tasks[s.eps[e][0]].state == TaskState::BlockedRecv ==> would(
                s.recv(e, true),
            )
        }),
{
    lemma_codes();
}

/// Whether the current task has joined the queue of an endpoint in a state, all else of it
/// as it was, and the next in line has the processor.
pub open spec fn waits(s: SystemView, e: u64, state: TaskState, r: (SystemView, bool)) -> bool {
    let (end, ok) = r;
    let cur = s.current;
    &&& handed_over(s, end, s.ready, ok)
    &&& end.tasks[cur].state == state
    &&& end.tasks[cur].ctx == s.tasks[cur].ctx
    &&& same_place(s.tasks[cur], end.tasks[cur])
    &&& only_queue(s, end, e, s.eps[e].push(cur))
    &&& forall|t: u64| #[trigger] end.tasks.contains_key(t) == s.tasks.contains_key(t)
    &&& forall|t: u64|
        s.tasks.contains_key(t) && t != cur ==> {
            &&& (#[trigger] end.tasks[t]).ctx == s.tasks[t].ctx
            &&& same_place(s.tasks[t], end.tasks[t])
            &&& s.ready.len() == 0 || t != s.ready[0] ==> end.tasks[t].state == s.tasks[t].state
        }
}

/// Nobody to meet: the task waits at the end of the queue of the endpoint.
pub proof fn lemma_waits_in_line(s: SystemView, e: u64)
    requires
        s.inv(),
        s.running(),
        s.eps.contains_key(e),
    ensures
        s.eps[e].len() == 0 || s.tasks[s.eps[e][0]].state != TaskState::BlockedRecv ==> {
            &&& waits(s, e, TaskState::BlockedSend, s.send(e, false))
            &&& waits(s, e, TaskState::BlockedCall, s.call(e, false))
        },
        s.eps[e].len() == 0 || s.tasks[s.eps[e][0]].state == TaskState::BlockedRecv ==> waits(
            s,
            e,
            TaskState::BlockedRecv,
            s.recv(e, false),
        ),
{
    lemma_who(s, e);
    if s.ready.len() > 0 {
        assert(s.ready.drop_first() =~= s.ready.skip(1));
    }
}

/// A reply: the caller to whom it is owed gets the message and is behind all that are
/// ready, the reply is used up, and nobody else changes. Where none is owed nothing
/// happens.
pub proof fn lemma_reply(s: SystemView)
    requires
        s.inv(),
        s.running(),
        full(s),
    ensures
        ({
            let end = s.replied();
            let cur = s.current;
            let caller = s.tasks[cur].reply_to;
            &&& caller == 0 ==> end == s
            &&& caller != 0 ==> {
                &&& stays(s, end)
                &&& end.tasks[cur].reply_to == 0
                &&& end.tasks[cur].ctx == s.tasks[cur].ctx
                &&& end.tasks[caller].state == TaskState::Ready
                &&& same_place(s.tasks[caller], end.tasks[caller])
                &&& arrived(s.tasks[cur].ctx, s.tasks[caller].ctx, end.tasks[caller].ctx)
                &&& end.ready == s.ready.push(caller)
                &&& end.eps == s.eps
                &&& only_tasks(s, end, cur, caller, caller)
            }
        }),
{
    let caller = s.tasks[s.current].reply_to;
    assert(caller != 0 ==> s.tasks.contains_key(caller));
}

/// The task that answers for the queue and the reply keeps its registers full.
proof fn lemma_replied_full(s: SystemView)
    requires
        s.inv(),
        s.running(),
        full(s),
    ensures
        full(s.replied()),
        s.replied().inv(),
        s.replied().running(),
{
    lemma_reply(s);
    ipc::lemma_replied_inv(s);
    let end = s.replied();
    assert forall|t: u64| #[trigger] end.tasks.contains_key(t) implies end.tasks[t].ctx.x.len()
        == 31 by {
        if t != s.current && t != s.tasks[s.current].reply_to {
            assert(s.tasks.contains_key(t));
        }
    }
}

/// A caller waits until it is answered: no send takes the reply away that it is owed, and
/// receiving or calling does so only where the holder of the reply takes on another call.
pub proof fn lemma_caller_keeps_waiting(s: SystemView, e: u64, nonblock: bool, holder: u64)
    requires
        s.inv(),
        s.running(),
        full(s),
        s.eps.contains_key(e),
        s.tasks.contains_key(holder),
        s.tasks[holder].reply_to != 0,
    ensures
        ({
            let caller = s.tasks[holder].reply_to;
            let still = |end: SystemView|
                end.tasks[holder].reply_to == caller && end.tasks[caller] == s.tasks[caller];
            let calls = s.eps[e].len() > 0 && s.tasks[s.eps[e][0]].state == TaskState::BlockedCall;
            let takes = s.eps[e].len() > 0 && s.tasks[s.eps[e][0]].state == TaskState::BlockedRecv;
            &&& still(s.send(e, nonblock).0)
            &&& !(holder == s.current && calls) ==> still(s.recv(e, nonblock).0)
            &&& !(takes && holder == s.eps[e][0]) ==> still(s.call(e, nonblock).0)
            &&& still(s.rotated())
        }),
{
    lemma_who(s, e);
    let caller = s.tasks[holder].reply_to;
    assert(s.tasks.contains_key(caller) && caller != s.current);
    if s.ready.len() > 0 {
        assert(s.ready.contains(s.ready[0]));
    }
    let r = s.tasks[s.current].reply_to;
    assert(r != 0 && r == caller ==> holder == s.current);
    if s.eps[e].len() > 0 {
        let h = s.eps[e][0];
        let q = s.tasks[h].reply_to;
        assert(q != 0 && q == caller ==> holder == h);
        if s.tasks[h].state == TaskState::BlockedRecv {
            let a = s.message(s.current, h).reply_aborted(h).woken(e).owing(h, s.current);
            assert(a.ready.len() > 0);
            if s.ready.len() > 0 {
                assert(a.ready[0] == s.ready[0]);
            }
        }
    }
}

/// A server that has taken a call, receives a plain message and then replies, answers the
/// call: the caller gets what the server replies with.
pub proof fn lemma_reply_outlives_messages(s: SystemView, e: u64, nonblock: bool, reply: ContextView)
    requires
        s.inv(),
        s.running(),
        full(s),
        s.eps.contains_key(e),
        s.tasks[s.current].reply_to != 0,
        s.eps[e].len() > 0,
        s.tasks[s.eps[e][0]].state == TaskState::BlockedSend,
        reply.x.len() == 31,
    ensures
        ({
            let caller = s.tasks[s.current].reply_to;
            let mid = s.recv(e, nonblock).0;
            let asks = mid.with_task(s.current, mid.tasks[s.current].with_ctx(reply));
            let end = asks.replied();
            &&& end.tasks[caller].state == TaskState::Ready
            &&& arrived(reply, s.tasks[caller].ctx, end.tasks[caller].ctx)
            &&& end.tasks[s.current].reply_to == 0
        }),
{
    lemma_recv_from_sender(s, e, nonblock);
    lemma_caller_keeps_waiting(s, e, nonblock, s.current);
    lemma_who(s, e);
    assert(s.tasks.contains_key(s.tasks[s.current].reply_to));
}

/// The endpoint that a capability shows to the kernel.
pub open spec fn shown_at(c: Cap) -> u64 {
    (c->Endpoint_base + 0xFFFF_0000_0000_0000) as u64
}

/// A request is about the endpoint in the slot that x0 names, and waits unless the lowest
/// bit of x1 is set. A slot out of range is `BAD_SLOT` and a capability of another kind
/// `BAD_CAP`; then x0 tells so and nothing else happens, not even a reply.
pub proof fn lemma_requests(s: SystemView, caps: Seq<Cap>)
    requires
        s.inv(),
        s.running(),
        full(s),
        ipc::endpoints_exist(caps, s),
    ensures
        ({
            let cur = s.current;
            let x = s.tasks[cur].ctx.x;
            let slot = x[0] as int;
            let nonblock = x[1] % 2 == 1;
            let refused = |r: (SystemView, bool), v: int|
                {
                    let end = r.0;
                    &&& r.1
                    &&& stays(s, end)
                    &&& end.tasks[cur].reply_to == s.tasks[cur].reply_to
                    &&& answer_set(s.tasks[cur].ctx, end.tasks[cur].ctx, v)
                    &&& end.ready == s.ready
                    &&& end.eps == s.eps
                    &&& only_tasks(s, end, cur, cur, cur)
                };
            let all_refused = |v: int|
                {
                    &&& refused(s.sys_send(caps), v)
                    &&& refused(s.sys_recv(caps), v)
                    &&& refused(s.sys_call(caps), v)
                    &&& refused(s.sys_reply_recv(caps), v)
                };
            &&& slot >= caps.len() ==> all_refused(0x1_0000_0000_0000_0000 - 1)
            &&& slot < caps.len() && !(caps[slot] is Endpoint) ==> all_refused(
                0x1_0000_0000_0000_0000 - 12,
            )
            &&& slot < caps.len() && caps[slot] is Endpoint ==> {
                let e = shown_at(caps[slot]);
                &&& s.sys_send(caps) == s.send(e, nonblock)
                &&& s.sys_recv(caps) == s.recv(e, nonblock)
                &&& s.sys_call(caps) == s.call(e, nonblock)
                &&& s.sys_reply_recv(caps) == s.replied().recv(e, nonblock)
            }
        }),
{
    lemma_codes();
    let flags = s.tasks[s.current].ctx.x[1];
    assert((flags & 1 != 0) == (flags % 2 == 1)) by (bit_vector);
}

/// Replying and receiving in one step is replying, then receiving: the caller is answered
/// before the next message comes in.
pub proof fn lemma_reply_then_receive(s: SystemView, e: u64, nonblock: bool)
    requires
        s.inv(),
        s.running(),
        full(s),
        s.eps.contains_key(e),
        s.tasks[s.current].reply_to != 0,
    ensures
        ({
            let caller = s.tasks[s.current].reply_to;
            let end = s.replied().recv(e, nonblock).0;
            &&& arrived(s.tasks[s.current].ctx, s.tasks[caller].ctx, end.tasks[caller].ctx)
            &&& end.tasks[caller].state == TaskState::Ready || end.current == caller
            &&& s.eps[e].len() > 0 && s.tasks[s.eps[e][0]].state == TaskState::BlockedCall
                ==> end.tasks[s.current].reply_to == s.eps[e][0]
            &&& s.eps[e].len() == 0 || s.tasks[s.eps[e][0]].state != TaskState::BlockedCall
                ==> end.tasks[s.current].reply_to == 0
        }),
{
    let caller = s.tasks[s.current].reply_to;
    let mid = s.replied();
    lemma_who(s, e);
    lemma_reply(s);
    lemma_replied_full(s);
    lemma_who(mid, e);
    assert(s.tasks.contains_key(caller));
    if s.eps[e].len() > 0 && s.tasks[s.eps[e][0]].state == TaskState::BlockedCall {
        lemma_recv_from_caller(mid, e, nonblock);
    } else if s.eps[e].len() > 0 && s.tasks[s.eps[e][0]].state != TaskState::BlockedRecv {
        assert(s.eps[e].contains(s.eps[e][0]));
        lemma_recv_from_sender(mid, e, nonblock);
    } else if nonblock {
        lemma_would_block(mid, e);
    } else {
        lemma_waits_in_line(mid, e);
    }
}

} // verus!
