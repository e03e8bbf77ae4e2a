//! The script of the root task: what it asks of the kernel, in order, and what it expects.
use vstd::prelude::*;

use crate::abi::{err, ipc, obj, perm, syscall};
use crate::root::children::{Msg, CHILD_EXIT_TARGET};

verus! {

/// Where the root task maps what it makes, clear of its image, stack and boot information.
pub const TEST_VA: u64 = 0x2000_0000;

/// The thread pointer of the root task while children run.
pub const ROOT_TPIDR: u64 = 0x5EED_0000_C0FF_EE01;

/// The thread pointer that a child leaves behind.
pub const CHILD_TPIDR: u64 = 0xBAD0_0000_0000_0BAD;

/// How many slots the script keeps.
pub const SAVED: usize = 20;

/// A task that the root task starts.
#[derive(Clone, Copy, Debug, PartialEq, Eq, Structural)]
pub enum Child {
    /// Counts for ever.
    Busy,
    /// Counts for a while and ends.
    Exit,
    /// Answers calls.
    Server,
    /// Sends, then calls the server.
    Client,
    /// Sends.
    Client2,
    /// Writes to the null page.
    Fault,
    /// Uses a floating-point register.
    Fp,
}

/// A word that the tasks share.
#[derive(Clone, Copy, Debug, PartialEq, Eq, Structural)]
pub enum Cell {
    Busy,
    Exit,
    Ep,
    Ep2,
    SrvCount,
    SrvDie,
    SrvHold,
    ClientStatus,
    FaultStage,
    FaultSurvived,
    ChildTpidr,
    SrvMr0,
    SrvMr1,
    SrvMr2,
    SrvMr3,
}

/// A value that is known when the step is taken.
#[derive(Clone, Copy, Debug, PartialEq, Eq, Structural)]
pub enum Val {
    Word(u64),
    /// The answer of an earlier step.
    Saved(usize),
    /// The slot of the untyped memory.
    Untyped,
    /// The slot of the own address space.
    Space,
    /// The address so many frames behind the start.
    Page(u64),
    /// The word before that address.
    PageLess8(u64),
    /// The entry point of a child.
    Entry(Child),
    /// An address that is no entry point.
    EntryPlus2(Child),
}

/// What a shared word is waited for to be.
#[derive(Clone, Copy, Debug, PartialEq, Eq, Structural)]
pub enum Test {
    AtLeast(u64),
    Equals(u64),
    Differs(u64),
}

/// What an answer should be.
#[derive(Clone, Copy, Debug, PartialEq, Eq, Structural)]
pub enum Want {
    Is(i64),
    Positive,
    /// Positive, and not the answer of an earlier step.
    PositiveNot(usize),
    /// Positive, and so is the answer of an earlier step.
    PositiveBoth(usize),
    /// Not looked at yet.
    Any,
}

/// What a step does.
#[derive(Clone, Copy, Debug)]
pub enum Op {
    Say(&'static str),
    SayUntyped,
    /// A system call with four arguments.
    Call { nr: u64, a0: Val, a1: Val, a2: Val, a3: Val, expect: Want, save: Option<usize> },
    /// A system call that carries a message, repeated while it would wait if so wanted.
    Ipc { nr: u64, slot: Val, flags: u64, m: Msg, status: i64, again: bool },
    /// Checks that the last answer is what the server makes of a message.
    ReplyTo(Msg),
    /// Checks that the last answer is a message.
    MessageIs(Msg),
    /// Writes to mapped memory.
    Poke { at: Val, word: u64 },
    /// Checks mapped memory.
    Peek { at: Val, want: u64 },
    /// Sets a shared word.
    Put { cell: Cell, value: Val },
    /// Checks a shared word.
    Get { cell: Cell, want: u64 },
    /// Checks that the call of the first client was given up.
    Aborted,
    /// Gives way until a shared word is as wanted.
    Wait { cell: Cell, test: Test },
    SetTpidr(u64),
    /// Checks the thread pointer.
    Tpidr(u64),
    /// Checks the thread pointer that only the kernel can set.
    TpidrRo(u64),
    Yield,
    /// The end: gives way for ever.
    Done,
}

/// A step: what is done, and the name under which a failure is reported.
#[derive(Clone, Copy, Debug)]
pub struct Step {
    pub name: &'static str,
    pub op: Op,
}

/// A message.
pub open spec fn a_msg(m0: u64, m1: u64, m2: u64, m3: u64) -> Msg {
    Msg { m0, m1, m2, m3 }
}

fn msg(m0: u64, m1: u64, m2: u64, m3: u64) -> (r: Msg)
    ensures
        r == a_msg(m0, m1, m2, m3),
{
    Msg { m0, m1, m2, m3 }
}

/// A step that cannot fail.
pub open spec fn a_plain(op: Op) -> Step {
    Step { name: "", op }
}

fn plain(op: Op) -> (r: Step)
    ensures
        r == a_plain(op),
{
    Step { name: "", op }
}

/// A step that can fail.
pub open spec fn a_check(name: &'static str, op: Op) -> Step {
    Step { name, op }
}

fn check(name: &'static str, op: Op) -> (r: Step)
    ensures
        r == a_check(name, op),
{
    Step { name, op }
}

/// Makes an object of the untyped memory.
pub open spec fn a_retype(name: &'static str, kind: u64, want: Want, save: usize) -> Step {
    Step {
        name,
        op: Op::Call {
            nr: syscall::RETYPE,
            a0: Val::Untyped,
            a1: Val::Word(kind),
            a2: Val::Word(0),
            a3: Val::Word(0),
            expect: want,
            save: Some(save),
        },
    }
}

fn retype(name: &'static str, kind: u64, want: Want, save: usize) -> (r: Step)
    ensures
        r == a_retype(name, kind, want, save),
{
    Step {
        name,
        op: Op::Call {
            nr: syscall::RETYPE,
            a0: Val::Untyped,
            a1: Val::Word(kind),
            a2: Val::Word(0),
            a3: Val::Word(0),
            expect: want,
            save: Some(save),
        },
    }
}

/// Asks for an object that cannot be made.
pub open spec fn a_other_retype(name: &'static str, slot: Val, kind: u64, want: i64) -> Step {
    Step {
        name,
        op: Op::Call {
            nr: syscall::RETYPE,
            a0: slot,
            a1: Val::Word(kind),
            a2: Val::Word(0),
            a3: Val::Word(0),
            expect: Want::Is(want),
            save: None,
        },
    }
}

fn other_retype(name: &'static str, slot: Val, kind: u64, want: i64) -> (r: Step)
    ensures
        r == a_other_retype(name, slot, kind, want),
{
    Step {
        name,
        op: Op::Call {
            nr: syscall::RETYPE,
            a0: slot,
            a1: Val::Word(kind),
            a2: Val::Word(0),
            a3: Val::Word(0),
            expect: Want::Is(want),
            save: None,
        },
    }
}

/// Maps a frame or installs a table in the own address space.
pub open spec fn a_map(name: &'static str, slot: Val, va: Val, perm: u64, want: i64) -> Step {
    Step {
        name,
        op: Op::Call {
            nr: syscall::MAP,
            a0: slot,
            a1: va,
            a2: Val::Word(perm),
            a3: Val::Space,
            expect: Want::Is(want),
            save: None,
        },
    }
}

fn map(name: &'static str, slot: Val, va: Val, perm: u64, want: i64) -> (r: Step)
    ensures
        r == a_map(name, slot, va, perm, want),
{
    Step {
        name,
        op: Op::Call {
            nr: syscall::MAP,
            a0: slot,
            a1: va,
            a2: Val::Word(perm),
            a3: Val::Space,
            expect: Want::Is(want),
            save: None,
        },
    }
}

/// Configures a task.
pub open spec fn a_tcb_configure(
    name: &'static str,
    slot: Val,
    entry: Val,
    stack: Val,
    aspace: Val,
    want: i64,
) -> Step {
    Step {
        name,
        op: Op::Call {
            nr: syscall::TCB_CONFIGURE,
            a0: slot,
            a1: entry,
            a2: stack,
            a3: aspace,
            expect: Want::Is(want),
            save: None,
        },
    }
}

fn tcb_configure(
    name: &'static str,
    slot: Val,
    entry: Val,
    stack: Val,
    aspace: Val,
    want: i64,
) -> (r: Step)
    ensures
        r == a_tcb_configure(name, slot, entry, stack, aspace, want),
{
    Step {
        name,
        op: Op::Call {
            nr: syscall::TCB_CONFIGURE,
            a0: slot,
            a1: entry,
            a2: stack,
            a3: aspace,
            expect: Want::Is(want),
            save: None,
        },
    }
}

/// Resumes a task.
pub open spec fn a_tcb_resume(name: &'static str, slot: Val, want: i64) -> Step {
    Step {
        name,
        op: Op::Call {
            nr: syscall::TCB_RESUME,
            a0: slot,
            a1: Val::Word(0),
            a2: Val::Word(0),
            a3: Val::Word(0),
            expect: Want::Is(want),
            save: None,
        },
    }
}

fn tcb_resume(name: &'static str, slot: Val, want: i64) -> (r: Step)
    ensures
        r == a_tcb_resume(name, slot, want),
{
    Step {
        name,
        op: Op::Call {
            nr: syscall::TCB_RESUME,
            a0: slot,
            a1: Val::Word(0),
            a2: Val::Word(0),
            a3: Val::Word(0),
            expect: Want::Is(want),
            save: None,
        },
    }
}

/// Sends a message.
pub open spec fn a_send(name: &'static str, slot: Val, flags: u64, m: Msg, want: i64) -> Step {
    Step { name, op: Op::Ipc { nr: syscall::SEND, slot, flags, m, status: want, again: false } }
}

fn send(name: &'static str, slot: Val, flags: u64, m: Msg, want: i64) -> (r: Step)
    ensures
        r == a_send(name, slot, flags, m, want),
{
    Step { name, op: Op::Ipc { nr: syscall::SEND, slot, flags, m, status: want, again: false } }
}

/// Receives a message, if need be with repeated attempts.
pub open spec fn a_recv(name: &'static str, slot: Val, flags: u64, want: i64, again: bool) -> Step {
    let m = Msg { m0: 0, m1: 0, m2: 0, m3: 0 };
    Step { name, op: Op::Ipc { nr: syscall::RECV, slot, flags, m, status: want, again } }
}

fn recv(name: &'static str, slot: Val, flags: u64, want: i64, again: bool) -> (r: Step)
    ensures
        r == a_recv(name, slot, flags, want, again),
{
    let m = Msg { m0: 0, m1: 0, m2: 0, m3: 0 };
    Step { name, op: Op::Ipc { nr: syscall::RECV, slot, flags, m, status: want, again } }
}

/// Sends a message and waits for the reply.
pub open spec fn a_call(name: &'static str, slot: Val, flags: u64, m: Msg, want: i64) -> Step {
    Step { name, op: Op::Ipc { nr: syscall::CALL, slot, flags, m, status: want, again: false } }
}

fn call(name: &'static str, slot: Val, flags: u64, m: Msg, want: i64) -> (r: Step)
    ensures
        r == a_call(name, slot, flags, m, want),
{
    Step { name, op: Op::Ipc { nr: syscall::CALL, slot, flags, m, status: want, again: false } }
}

/// Replies to the last caller and receives the next message.
pub open spec fn a_reply_recv(
    name: &'static str,
    slot: Val,
    flags: u64,
    m: Msg,
    want: i64,
) -> Step {
    Step { name, op: Op::Ipc { nr: syscall::REPLY_RECV, slot, flags, m, status: want, again: false } }
}

fn reply_recv(name: &'static str, slot: Val, flags: u64, m: Msg, want: i64) -> (r: Step)
    ensures
        r == a_reply_recv(name, slot, flags, m, want),
{
    Step { name, op: Op::Ipc { nr: syscall::REPLY_RECV, slot, flags, m, status: want, again: false } }
}

/// The number of steps of this part.
pub const MEMORY_STEPS: usize = 27;

/// The number of steps of this part.
pub const TASKS_STEPS: usize = 16;

/// The number of steps of this part.
pub const MESSAGES_STEPS: usize = 35;

/// The number of steps of this part.
pub const REPLIES_STEPS: usize = 31;

/// The number of steps of this part.
pub const FAULTS_STEPS: usize = 31;

/// The number of steps of this part.
pub const TURNS_STEPS: usize = 5;

/// Objects and mappings.
pub open spec fn memory_part(i: usize) -> Step {
    match i {
        0 => a_plain(Op::Say("root: hello from EL0\n")),
        1 => a_plain(Op::SayUntyped),
        2 => a_other_retype("retype null slot", Val::Word(0), obj::FRAME, err::NOT_UNTYPED),
        3 => a_other_retype("retype bad type", Val::Untyped, 99, err::BAD_TYPE),
        4 => a_retype("retype frame", obj::FRAME, Want::Positive, 0),
        5 => a_map("map before pt", Val::Saved(0), Val::Page(0), perm::RW, err::MISSING_TABLE),
        6 => a_retype("retype pt", obj::PAGE_TABLE, Want::Positive, 1),
        7 => a_map("map pt", Val::Saved(1), Val::Page(0), 0, 0),
        8 => a_map("map pt twice", Val::Saved(1), Val::Page(0), 0, err::ALREADY_MAPPED),
        9 => a_map("map null va", Val::Saved(0), Val::Word(0), perm::RW, err::BAD_VA),
        10 => a_map("map bad perm", Val::Saved(0), Val::Page(0), 7, err::BAD_PERM),
        11 => a_map("map frame", Val::Saved(0), Val::Page(0), perm::RW, 0),
        12 => a_plain(Op::Poke { at: Val::Page(0), word: 0xA5A5_5A5A_DEAD_BEEF }),
        13 => a_plain(Op::Poke { at: Val::PageLess8(1), word: 0x0123_4567_89AB_CDEF }),
        14 => a_check("frame rw head", Op::Peek { at: Val::Page(0), want: 0xA5A5_5A5A_DEAD_BEEF }),
        15 => a_check(
            "frame rw tail",
            Op::Peek { at: Val::PageLess8(1), want: 0x0123_4567_89AB_CDEF },
        ),
        16 => a_map("map frame twice", Val::Saved(0), Val::Page(1), perm::RW, err::ALREADY_MAPPED),
        17 => a_retype("retype frame 2", obj::FRAME, Want::PositiveNot(0), 2),
        18 => a_map("map overlap", Val::Saved(2), Val::Page(0), perm::RW, err::OVERLAP),
        19 => a_map("map frame 2", Val::Saved(2), Val::Page(1), perm::RW, 0),
        20 => a_plain(Op::Poke { at: Val::Page(1), word: 0x1111_2222_3333_4444 }),
        21 => a_check("frame 2 rw", Op::Peek { at: Val::Page(1), want: 0x1111_2222_3333_4444 }),
        22 => a_check(
            "frame isolation",
            Op::Peek { at: Val::Page(0), want: 0xA5A5_5A5A_DEAD_BEEF },
        ),
        23 => a_retype("retype frame 3", obj::FRAME, Want::Positive, 3),
        24 => a_map("map frame ro", Val::Saved(3), Val::Page(2), perm::RO, 0),
        25 => a_check("frame ro zeroed", Op::Peek { at: Val::Page(2), want: 0 }),
        _ => a_plain(Op::Say("root: retype/map tests pass\n")),
    }
}

fn memory_step(i: usize) -> (r: Step)
    ensures
        r == memory_part(i),
{
    match i {
        0 => plain(Op::Say("root: hello from EL0\n")),
        1 => plain(Op::SayUntyped),
        2 => other_retype("retype null slot", Val::Word(0), obj::FRAME, err::NOT_UNTYPED),
        3 => other_retype("retype bad type", Val::Untyped, 99, err::BAD_TYPE),
        4 => retype("retype frame", obj::FRAME, Want::Positive, 0),
        5 => map("map before pt", Val::Saved(0), Val::Page(0), perm::RW, err::MISSING_TABLE),
        6 => retype("retype pt", obj::PAGE_TABLE, Want::Positive, 1),
        7 => map("map pt", Val::Saved(1), Val::Page(0), 0, 0),
        8 => map("map pt twice", Val::Saved(1), Val::Page(0), 0, err::ALREADY_MAPPED),
        9 => map("map null va", Val::Saved(0), Val::Word(0), perm::RW, err::BAD_VA),
        10 => map("map bad perm", Val::Saved(0), Val::Page(0), 7, err::BAD_PERM),
        11 => map("map frame", Val::Saved(0), Val::Page(0), perm::RW, 0),
        12 => plain(Op::Poke { at: Val::Page(0), word: 0xA5A5_5A5A_DEAD_BEEF }),
        13 => plain(Op::Poke { at: Val::PageLess8(1), word: 0x0123_4567_89AB_CDEF }),
        14 => check("frame rw head", Op::Peek { at: Val::Page(0), want: 0xA5A5_5A5A_DEAD_BEEF }),
        15 => check(
            "frame rw tail",
            Op::Peek { at: Val::PageLess8(1), want: 0x0123_4567_89AB_CDEF },
        ),
        16 => map("map frame twice", Val::Saved(0), Val::Page(1), perm::RW, err::ALREADY_MAPPED),
        17 => retype("retype frame 2", obj::FRAME, Want::PositiveNot(0), 2),
        18 => map("map overlap", Val::Saved(2), Val::Page(0), perm::RW, err::OVERLAP),
        19 => map("map frame 2", Val::Saved(2), Val::Page(1), perm::RW, 0),
        20 => plain(Op::Poke { at: Val::Page(1), word: 0x1111_2222_3333_4444 }),
        21 => check("frame 2 rw", Op::Peek { at: Val::Page(1), want: 0x1111_2222_3333_4444 }),
        22 => check("frame isolation", Op::Peek { at: Val::Page(0), want: 0xA5A5_5A5A_DEAD_BEEF }),
        23 => retype("retype frame 3", obj::FRAME, Want::Positive, 3),
        24 => map("map frame ro", Val::Saved(3), Val::Page(2), perm::RO, 0),
        25 => check("frame ro zeroed", Op::Peek { at: Val::Page(2), want: 0 }),
        _ => plain(Op::Say("root: retype/map tests pass\n")),
    }
}

/// Tasks, and one that ends by itself.
pub open spec fn tasks_part(i: usize) -> Step {
    match i {
        0 => a_retype("retype stack 1", obj::FRAME, Want::Positive, 4),
        1 => a_map("map stack 1", Val::Saved(4), Val::Page(4), perm::RW, 0),
        2 => a_retype("retype stack 2", obj::FRAME, Want::Positive, 5),
        3 => a_map("map stack 2", Val::Saved(5), Val::Page(6), perm::RW, 0),
        4 => a_retype("retype tcb busy", obj::TCB, Want::Positive, 6),
        5 => a_retype("retype tcb exit", obj::TCB, Want::Positive, 7),
        6 => a_tcb_resume("resume unconfigured", Val::Saved(6), err::BAD_STATE),
        7 => a_tcb_configure(
            "configure bad tcb",
            Val::Saved(0),
            Val::Entry(Child::Busy),
            Val::Page(5),
            Val::Space,
            err::BAD_CAP,
        ),
        8 => a_tcb_configure(
            "configure bad aspace",
            Val::Saved(6),
            Val::Entry(Child::Busy),
            Val::Page(5),
            Val::Saved(0),
            err::BAD_CAP,
        ),
        9 => a_tcb_configure(
            "configure bad stack",
            Val::Saved(6),
            Val::Entry(Child::Busy),
            Val::PageLess8(5),
            Val::Space,
            err::BAD_VA,
        ),
        10 => a_tcb_configure(
            "configure tcb exit",
            Val::Saved(7),
            Val::Entry(Child::Exit),
            Val::Page(7),
            Val::Space,
            0,
        ),
        11 => a_tcb_configure(
            "configure twice",
            Val::Saved(7),
            Val::Entry(Child::Exit),
            Val::Page(7),
            Val::Space,
            err::BAD_STATE,
        ),
        12 => a_tcb_resume("resume tcb exit", Val::Saved(7), 0),
        13 => a_tcb_resume("resume twice", Val::Saved(7), err::BAD_STATE),
        14 => a_plain(Op::Wait { cell: Cell::Exit, test: Test::Equals(CHILD_EXIT_TARGET) }),
        _ => a_plain(Op::Say("root: child exit test pass\n")),
    }
}

fn tasks_step(i: usize) -> (r: Step)
    ensures
        r == tasks_part(i),
{
    match i {
        0 => retype("retype stack 1", obj::FRAME, Want::Positive, 4),
        1 => map("map stack 1", Val::Saved(4), Val::Page(4), perm::RW, 0),
        2 => retype("retype stack 2", obj::FRAME, Want::Positive, 5),
        3 => map("map stack 2", Val::Saved(5), Val::Page(6), perm::RW, 0),
        4 => retype("retype tcb busy", obj::TCB, Want::Positive, 6),
        5 => retype("retype tcb exit", obj::TCB, Want::Positive, 7),
        6 => tcb_resume("resume unconfigured", Val::Saved(6), err::BAD_STATE),
        7 => tcb_configure(
            "configure bad tcb",
            Val::Saved(0),
            Val::Entry(Child::Busy),
            Val::Page(5),
            Val::Space,
            err::BAD_CAP,
        ),
        8 => tcb_configure(
            "configure bad aspace",
            Val::Saved(6),
            Val::Entry(Child::Busy),
            Val::Page(5),
            Val::Saved(0),
            err::BAD_CAP,
        ),
        9 => tcb_configure(
            "configure bad stack",
            Val::Saved(6),
            Val::Entry(Child::Busy),
            Val::PageLess8(5),
            Val::Space,
            err::BAD_VA,
        ),
        10 => tcb_configure(
            "configure tcb exit",
            Val::Saved(7),
            Val::Entry(Child::Exit),
            Val::Page(7),
            Val::Space,
            0,
        ),
        11 => tcb_configure(
            "configure twice",
            Val::Saved(7),
            Val::Entry(Child::Exit),
            Val::Page(7),
            Val::Space,
            err::BAD_STATE,
        ),
        12 => tcb_resume("resume tcb exit", Val::Saved(7), 0),
        13 => tcb_resume("resume twice", Val::Saved(7), err::BAD_STATE),
        14 => plain(Op::Wait { cell: Cell::Exit, test: Test::Equals(CHILD_EXIT_TARGET) }),
        _ => plain(Op::Say("root: child exit test pass\n")),
    }
}

/// Messages and calls, with one server.
pub open spec fn messages_part(i: usize) -> Step {
    match i {
        0 => a_retype("retype ep", obj::ENDPOINT, Want::Positive, 8),
        1 => a_map("map ep", Val::Saved(8), Val::Page(10), perm::RW, err::BAD_CAP),
        2 => a_send(
            "send nb empty",
            Val::Saved(8),
            ipc::NONBLOCK,
            a_msg(1, 2, 3, 4),
            err::WOULD_BLOCK,
        ),
        3 => a_recv("recv nb empty", Val::Saved(8), ipc::NONBLOCK, err::WOULD_BLOCK, false),
        4 => a_call(
            "call nb empty",
            Val::Saved(8),
            ipc::NONBLOCK,
            a_msg(1, 2, 3, 4),
            err::WOULD_BLOCK,
        ),
        5 => a_reply_recv(
            "reply_recv nb empty",
            Val::Saved(8),
            ipc::NONBLOCK,
            a_msg(0, 0, 0, 0),
            err::WOULD_BLOCK,
        ),
        6 => a_send("send bad cap", Val::Saved(0), 0, a_msg(0, 0, 0, 0), err::BAD_CAP),
        7 => a_send("send bad slot", Val::Word(9999), 0, a_msg(0, 0, 0, 0), err::BAD_SLOT),
        8 => a_retype("retype stack 3", obj::FRAME, Want::Positive, 9),
        9 => a_map("map stack 3", Val::Saved(9), Val::Page(8), perm::RW, 0),
        10 => a_retype("retype tcb srv", obj::TCB, Want::Positive, 10),
        11 => a_plain(Op::Put { cell: Cell::Ep, value: Val::Saved(8) }),
        12 => a_tcb_configure(
            "configure tcb srv",
            Val::Saved(10),
            Val::Entry(Child::Server),
            Val::Page(9),
            Val::Space,
            0,
        ),
        13 => a_tcb_resume("resume tcb srv", Val::Saved(10), 0),
        14 => a_send("send first", Val::Saved(8), 0, a_msg(0x1111, 0x2222, 0x3333, 0x4444), 0),
        15 => a_plain(Op::Wait { cell: Cell::SrvCount, test: Test::AtLeast(1) }),
        16 => a_check("send first data", Op::Get { cell: Cell::SrvMr0, want: 0x1111 }),
        17 => a_check("send first data", Op::Get { cell: Cell::SrvMr1, want: 0x2222 }),
        18 => a_check("send first data", Op::Get { cell: Cell::SrvMr2, want: 0x3333 }),
        19 => a_check("send first data", Op::Get { cell: Cell::SrvMr3, want: 0x4444 }),
        20 => a_send(
            "send to waiting nb",
            Val::Saved(8),
            ipc::NONBLOCK,
            a_msg(0x5555, 0x6666, 0x7777, 0x8888),
            0,
        ),
        21 => a_plain(Op::Wait { cell: Cell::SrvCount, test: Test::AtLeast(2) }),
        22 => a_check("send waiting data", Op::Get { cell: Cell::SrvMr0, want: 0x5555 }),
        23 => a_check("send waiting data", Op::Get { cell: Cell::SrvMr1, want: 0x6666 }),
        24 => a_check("send waiting data", Op::Get { cell: Cell::SrvMr2, want: 0x7777 }),
        25 => a_check("send waiting data", Op::Get { cell: Cell::SrvMr3, want: 0x8888 }),
        26 => a_call("call status", Val::Saved(8), 0, a_msg(0xAAAA, 0xBBBB, 0xCCCC, 0xDDDD), 0),
        27 => a_check("call reply", Op::ReplyTo(a_msg(0xAAAA, 0xBBBB, 0xCCCC, 0xDDDD))),
        28 => a_check("call count", Op::Get { cell: Cell::SrvCount, want: 3 }),
        29 => a_send(
            "send before call",
            Val::Saved(8),
            0,
            a_msg(0x1010, 0x2020, 0x3030, 0x4040),
            0,
        ),
        30 => a_call(
            "queued call status",
            Val::Saved(8),
            0,
            a_msg(0x0101, 0x0202, 0x0303, 0x0404),
            0,
        ),
        31 => a_check("queued call reply", Op::ReplyTo(a_msg(0x0101, 0x0202, 0x0303, 0x0404))),
        32 => a_check("queued call count", Op::Get { cell: Cell::SrvCount, want: 5 }),
        33 => a_call(
            "call again nb",
            Val::Saved(8),
            ipc::NONBLOCK,
            a_msg(0x9999, 0x8888, 0x7777, 0x6666),
            0,
        ),
        _ => a_check("call again nb", Op::ReplyTo(a_msg(0x9999, 0x8888, 0x7777, 0x6666))),
    }
}

fn messages_step(i: usize) -> (r: Step)
    ensures
        r == messages_part(i),
{
    match i {
        0 => retype("retype ep", obj::ENDPOINT, Want::Positive, 8),
        1 => map("map ep", Val::Saved(8), Val::Page(10), perm::RW, err::BAD_CAP),
        2 => send("send nb empty", Val::Saved(8), ipc::NONBLOCK, msg(1, 2, 3, 4), err::WOULD_BLOCK),
        3 => recv("recv nb empty", Val::Saved(8), ipc::NONBLOCK, err::WOULD_BLOCK, false),
        4 => call("call nb empty", Val::Saved(8), ipc::NONBLOCK, msg(1, 2, 3, 4), err::WOULD_BLOCK),
        5 => reply_recv(
            "reply_recv nb empty",
            Val::Saved(8),
            ipc::NONBLOCK,
            msg(0, 0, 0, 0),
            err::WOULD_BLOCK,
        ),
        6 => send("send bad cap", Val::Saved(0), 0, msg(0, 0, 0, 0), err::BAD_CAP),
        7 => send("send bad slot", Val::Word(9999), 0, msg(0, 0, 0, 0), err::BAD_SLOT),
        8 => retype("retype stack 3", obj::FRAME, Want::Positive, 9),
        9 => map("map stack 3", Val::Saved(9), Val::Page(8), perm::RW, 0),
        10 => retype("retype tcb srv", obj::TCB, Want::Positive, 10),
        11 => plain(Op::Put { cell: Cell::Ep, value: Val::Saved(8) }),
        12 => tcb_configure(
            "configure tcb srv",
            Val::Saved(10),
            Val::Entry(Child::Server),
            Val::Page(9),
            Val::Space,
            0,
        ),
        13 => tcb_resume("resume tcb srv", Val::Saved(10), 0),
        14 => send("send first", Val::Saved(8), 0, msg(0x1111, 0x2222, 0x3333, 0x4444), 0),
        15 => plain(Op::Wait { cell: Cell::SrvCount, test: Test::AtLeast(1) }),
        16 => check("send first data", Op::Get { cell: Cell::SrvMr0, want: 0x1111 }),
        17 => check("send first data", Op::Get { cell: Cell::SrvMr1, want: 0x2222 }),
        18 => check("send first data", Op::Get { cell: Cell::SrvMr2, want: 0x3333 }),
        19 => check("send first data", Op::Get { cell: Cell::SrvMr3, want: 0x4444 }),
        20 => send(
            "send to waiting nb",
            Val::Saved(8),
            ipc::NONBLOCK,
            msg(0x5555, 0x6666, 0x7777, 0x8888),
            0,
        ),
        21 => plain(Op::Wait { cell: Cell::SrvCount, test: Test::AtLeast(2) }),
        22 => check("send waiting data", Op::Get { cell: Cell::SrvMr0, want: 0x5555 }),
        23 => check("send waiting data", Op::Get { cell: Cell::SrvMr1, want: 0x6666 }),
        24 => check("send waiting data", Op::Get { cell: Cell::SrvMr2, want: 0x7777 }),
        25 => check("send waiting data", Op::Get { cell: Cell::SrvMr3, want: 0x8888 }),
        26 => call("call status", Val::Saved(8), 0, msg(0xAAAA, 0xBBBB, 0xCCCC, 0xDDDD), 0),
        27 => check("call reply", Op::ReplyTo(msg(0xAAAA, 0xBBBB, 0xCCCC, 0xDDDD))),
        28 => check("call count", Op::Get { cell: Cell::SrvCount, want: 3 }),
        29 => send("send before call", Val::Saved(8), 0, msg(0x1010, 0x2020, 0x3030, 0x4040), 0),
        30 => call("queued call status", Val::Saved(8), 0, msg(0x0101, 0x0202, 0x0303, 0x0404), 0),
        31 => check("queued call reply", Op::ReplyTo(msg(0x0101, 0x0202, 0x0303, 0x0404))),
        32 => check("queued call count", Op::Get { cell: Cell::SrvCount, want: 5 }),
        33 => call(
            "call again nb",
            Val::Saved(8),
            ipc::NONBLOCK,
            msg(0x9999, 0x8888, 0x7777, 0x6666),
            0,
        ),
        _ => check("call again nb", Op::ReplyTo(msg(0x9999, 0x8888, 0x7777, 0x6666))),
    }
}

/// Order of senders, replies that are given up, and a server that ends.
pub open spec fn replies_part(i: usize) -> Step {
    match i {
        0 => a_retype("retype ep2", obj::ENDPOINT, Want::Positive, 11),
        1 => a_plain(Op::Put { cell: Cell::Ep2, value: Val::Saved(11) }),
        2 => a_plain(Op::Put { cell: Cell::SrvHold, value: Val::Word(1) }),
        3 => a_retype("retype stack 4", obj::FRAME, Want::Positive, 12),
        4 => a_map("map stack 4", Val::Saved(12), Val::Page(11), perm::RW, 0),
        5 => a_retype("retype stack 5", obj::FRAME, Want::Positive, 13),
        6 => a_map("map stack 5", Val::Saved(13), Val::Page(13), perm::RW, 0),
        7 => a_retype("retype client tcbs", obj::TCB, Want::Any, 14),
        8 => a_retype("retype client tcbs", obj::TCB, Want::PositiveBoth(14), 15),
        9 => a_tcb_configure(
            "configure client",
            Val::Saved(14),
            Val::Entry(Child::Client),
            Val::Page(12),
            Val::Space,
            0,
        ),
        10 => a_tcb_configure(
            "configure client 2",
            Val::Saved(15),
            Val::Entry(Child::Client2),
            Val::Page(14),
            Val::Space,
            0,
        ),
        11 => a_tcb_resume("resume client", Val::Saved(14), 0),
        12 => a_tcb_resume("resume client 2", Val::Saved(15), 0),
        13 => a_recv("fifo first", Val::Saved(11), ipc::NONBLOCK, 0, true),
        14 => a_check("fifo first", Op::MessageIs(a_msg(0xC1A0, 1, 2, 3))),
        15 => a_recv("fifo second", Val::Saved(11), ipc::NONBLOCK, 0, true),
        16 => a_check("fifo second", Op::MessageIs(a_msg(0xC2B0, 4, 5, 6))),
        17 => a_plain(Op::Wait { cell: Cell::SrvCount, test: Test::AtLeast(7) }),
        18 => a_check("held call data", Op::Get { cell: Cell::SrvMr0, want: 0xC3C0 }),
        19 => a_check("held call data", Op::Get { cell: Cell::SrvMr1, want: 7 }),
        20 => a_check("held call data", Op::Get { cell: Cell::SrvMr2, want: 8 }),
        21 => a_check("held call data", Op::Get { cell: Cell::SrvMr3, want: 9 }),
        22 => a_check("client still held", Op::Get { cell: Cell::ClientStatus, want: 1 }),
        23 => a_call("overwrite call", Val::Saved(8), 0, a_msg(0x0707, 0x1717, 0x2727, 0x3737), 0),
        24 => a_check("overwrite call", Op::ReplyTo(a_msg(0x0707, 0x1717, 0x2727, 0x3737))),
        25 => a_check("old caller aborted", Op::Aborted),
        26 => a_check("overwrite count", Op::Get { cell: Cell::SrvCount, want: 8 }),
        27 => a_plain(Op::Put { cell: Cell::SrvDie, value: Val::Word(1) }),
        28 => a_call("call no reply", Val::Saved(8), 0, a_msg(0xE0E0, 0, 0, 0), err::NO_REPLY),
        29 => a_check("no reply count", Op::Get { cell: Cell::SrvCount, want: 8 }),
        _ => a_plain(Op::Say("root: ipc tests pass\n")),
    }
}

fn replies_step(i: usize) -> (r: Step)
    ensures
        r == replies_part(i),
{
    match i {
        0 => retype("retype ep2", obj::ENDPOINT, Want::Positive, 11),
        1 => plain(Op::Put { cell: Cell::Ep2, value: Val::Saved(11) }),
        2 => plain(Op::Put { cell: Cell::SrvHold, value: Val::Word(1) }),
        3 => retype("retype stack 4", obj::FRAME, Want::Positive, 12),
        4 => map("map stack 4", Val::Saved(12), Val::Page(11), perm::RW, 0),
        5 => retype("retype stack 5", obj::FRAME, Want::Positive, 13),
        6 => map("map stack 5", Val::Saved(13), Val::Page(13), perm::RW, 0),
        7 => retype("retype client tcbs", obj::TCB, Want::Any, 14),
        8 => retype("retype client tcbs", obj::TCB, Want::PositiveBoth(14), 15),
        9 => tcb_configure(
            "configure client",
            Val::Saved(14),
            Val::Entry(Child::Client),
            Val::Page(12),
            Val::Space,
            0,
        ),
        10 => tcb_configure(
            "configure client 2",
            Val::Saved(15),
            Val::Entry(Child::Client2),
            Val::Page(14),
            Val::Space,
            0,
        ),
        11 => tcb_resume("resume client", Val::Saved(14), 0),
        12 => tcb_resume("resume client 2", Val::Saved(15), 0),
        13 => recv("fifo first", Val::Saved(11), ipc::NONBLOCK, 0, true),
        14 => check("fifo first", Op::MessageIs(msg(0xC1A0, 1, 2, 3))),
        15 => recv("fifo second", Val::Saved(11), ipc::NONBLOCK, 0, true),
        16 => check("fifo second", Op::MessageIs(msg(0xC2B0, 4, 5, 6))),
        17 => plain(Op::Wait { cell: Cell::SrvCount, test: Test::AtLeast(7) }),
        18 => check("held call data", Op::Get { cell: Cell::SrvMr0, want: 0xC3C0 }),
        19 => check("held call data", Op::Get { cell: Cell::SrvMr1, want: 7 }),
        20 => check("held call data", Op::Get { cell: Cell::SrvMr2, want: 8 }),
        21 => check("held call data", Op::Get { cell: Cell::SrvMr3, want: 9 }),
        22 => check("client still held", Op::Get { cell: Cell::ClientStatus, want: 1 }),
        23 => call("overwrite call", Val::Saved(8), 0, msg(0x0707, 0x1717, 0x2727, 0x3737), 0),
        24 => check("overwrite call", Op::ReplyTo(msg(0x0707, 0x1717, 0x2727, 0x3737))),
        25 => check("old caller aborted", Op::Aborted),
        26 => check("overwrite count", Op::Get { cell: Cell::SrvCount, want: 8 }),
        27 => plain(Op::Put { cell: Cell::SrvDie, value: Val::Word(1) }),
        28 => call("call no reply", Val::Saved(8), 0, msg(0xE0E0, 0, 0, 0), err::NO_REPLY),
        29 => check("no reply count", Op::Get { cell: Cell::SrvCount, want: 8 }),
        _ => plain(Op::Say("root: ipc tests pass\n")),
    }
}

/// Faults that end a task and nothing else, and thread pointers.
pub open spec fn faults_part(i: usize) -> Step {
    match i {
        0 => a_retype("retype stack 6", obj::FRAME, Want::Positive, 16),
        1 => a_map("map stack 6", Val::Saved(16), Val::Page(16), perm::RW, 0),
        2 => a_retype("retype stack 7", obj::FRAME, Want::Positive, 17),
        3 => a_map("map stack 7", Val::Saved(17), Val::Page(18), perm::RW, 0),
        4 => a_retype("retype fault tcbs", obj::TCB, Want::Any, 18),
        5 => a_retype("retype fault tcbs", obj::TCB, Want::PositiveBoth(18), 19),
        6 => a_tcb_configure(
            "configure misaligned entry",
            Val::Saved(18),
            Val::EntryPlus2(Child::Fault),
            Val::Page(17),
            Val::Space,
            err::BAD_VA,
        ),
        7 => a_plain(Op::SetTpidr(ROOT_TPIDR)),
        8 => a_tcb_configure(
            "configure tcb fault",
            Val::Saved(18),
            Val::Entry(Child::Fault),
            Val::Page(17),
            Val::Space,
            0,
        ),
        9 => a_tcb_resume("resume tcb fault", Val::Saved(18), 0),
        10 => a_plain(Op::Wait { cell: Cell::FaultStage, test: Test::AtLeast(1) }),
        11 => a_check("child tpidr zeroed", Op::Get { cell: Cell::ChildTpidr, want: 0 }),
        12 => a_check("root tpidr isolated", Op::Tpidr(ROOT_TPIDR)),
        13 => a_check("root tpidrro zero", Op::TpidrRo(0)),
        14 => a_plain(Op::Yield),
        15 => a_plain(Op::Yield),
        16 => a_plain(Op::Yield),
        17 => a_plain(Op::Yield),
        18 => a_check("fault child killed", Op::Get { cell: Cell::FaultSurvived, want: 0 }),
        19 => a_check("root tpidr after kill", Op::Tpidr(ROOT_TPIDR)),
        20 => a_tcb_resume("dead tcb resume", Val::Saved(18), err::BAD_STATE),
        21 => a_tcb_configure(
            "configure tcb fp",
            Val::Saved(19),
            Val::Entry(Child::Fp),
            Val::Page(19),
            Val::Space,
            0,
        ),
        22 => a_tcb_resume("resume tcb fp", Val::Saved(19), 0),
        23 => a_plain(Op::Wait { cell: Cell::FaultStage, test: Test::AtLeast(2) }),
        24 => a_plain(Op::Yield),
        25 => a_plain(Op::Yield),
        26 => a_plain(Op::Yield),
        27 => a_plain(Op::Yield),
        28 => a_check("fp child killed", Op::Get { cell: Cell::FaultSurvived, want: 0 }),
        29 => a_plain(Op::SetTpidr(0)),
        _ => a_plain(Op::Say("root: fault isolation tests pass\n")),
    }
}

fn faults_step(i: usize) -> (r: Step)
    ensures
        r == faults_part(i),
{
    match i {
        0 => retype("retype stack 6", obj::FRAME, Want::Positive, 16),
        1 => map("map stack 6", Val::Saved(16), Val::Page(16), perm::RW, 0),
        2 => retype("retype stack 7", obj::FRAME, Want::Positive, 17),
        3 => map("map stack 7", Val::Saved(17), Val::Page(18), perm::RW, 0),
        4 => retype("retype fault tcbs", obj::TCB, Want::Any, 18),
        5 => retype("retype fault tcbs", obj::TCB, Want::PositiveBoth(18), 19),
        6 => tcb_configure(
            "configure misaligned entry",
            Val::Saved(18),
            Val::EntryPlus2(Child::Fault),
            Val::Page(17),
            Val::Space,
            err::BAD_VA,
        ),
        7 => plain(Op::SetTpidr(ROOT_TPIDR)),
        8 => tcb_configure(
            "configure tcb fault",
            Val::Saved(18),
            Val::Entry(Child::Fault),
            Val::Page(17),
            Val::Space,
            0,
        ),
        9 => tcb_resume("resume tcb fault", Val::Saved(18), 0),
        10 => plain(Op::Wait { cell: Cell::FaultStage, test: Test::AtLeast(1) }),
        11 => check("child tpidr zeroed", Op::Get { cell: Cell::ChildTpidr, want: 0 }),
        12 => check("root tpidr isolated", Op::Tpidr(ROOT_TPIDR)),
        13 => check("root tpidrro zero", Op::TpidrRo(0)),
        14 => plain(Op::Yield),
        15 => plain(Op::Yield),
        16 => plain(Op::Yield),
        17 => plain(Op::Yield),
        18 => check("fault child killed", Op::Get { cell: Cell::FaultSurvived, want: 0 }),
        19 => check("root tpidr after kill", Op::Tpidr(ROOT_TPIDR)),
        20 => tcb_resume("dead tcb resume", Val::Saved(18), err::BAD_STATE),
        21 => tcb_configure(
            "configure tcb fp",
            Val::Saved(19),
            Val::Entry(Child::Fp),
            Val::Page(19),
            Val::Space,
            0,
        ),
        22 => tcb_resume("resume tcb fp", Val::Saved(19), 0),
        23 => plain(Op::Wait { cell: Cell::FaultStage, test: Test::AtLeast(2) }),
        24 => plain(Op::Yield),
        25 => plain(Op::Yield),
        26 => plain(Op::Yield),
        27 => plain(Op::Yield),
        28 => check("fp child killed", Op::Get { cell: Cell::FaultSurvived, want: 0 }),
        29 => plain(Op::SetTpidr(0)),
        _ => plain(Op::Say("root: fault isolation tests pass\n")),
    }
}

/// A task that never gives way.
pub open spec fn turns_part(i: usize) -> Step {
    match i {
        0 => a_tcb_configure(
            "configure tcb busy",
            Val::Saved(6),
            Val::Entry(Child::Busy),
            Val::Page(5),
            Val::Space,
            0,
        ),
        1 => a_tcb_resume("resume tcb busy", Val::Saved(6), 0),
        2 => a_plain(Op::Wait { cell: Cell::Busy, test: Test::Differs(0) }),
        3 => a_plain(Op::Say("root: preempt test pass\n")),
        _ => a_plain(Op::Say("root: sched tests pass\n")),
    }
}

fn turns_step(i: usize) -> (r: Step)
    ensures
        r == turns_part(i),
{
    match i {
        0 => tcb_configure(
            "configure tcb busy",
            Val::Saved(6),
            Val::Entry(Child::Busy),
            Val::Page(5),
            Val::Space,
            0,
        ),
        1 => tcb_resume("resume tcb busy", Val::Saved(6), 0),
        2 => plain(Op::Wait { cell: Cell::Busy, test: Test::Differs(0) }),
        3 => plain(Op::Say("root: preempt test pass\n")),
        _ => plain(Op::Say("root: sched tests pass\n")),
    }
}

/// The step at a place of the script.
pub open spec fn script(pc: usize) -> Step {
    if pc < MEMORY_STEPS {
        memory_part(pc)
    } else if pc < MEMORY_STEPS + TASKS_STEPS {
        tasks_part((pc - MEMORY_STEPS) as usize)
    } else if pc < MEMORY_STEPS + TASKS_STEPS + MESSAGES_STEPS {
        messages_part((pc - MEMORY_STEPS - TASKS_STEPS) as usize)
    } else if pc < MEMORY_STEPS + TASKS_STEPS + MESSAGES_STEPS + REPLIES_STEPS {
        replies_part((pc - MEMORY_STEPS - TASKS_STEPS - MESSAGES_STEPS) as usize)
    } else if pc < MEMORY_STEPS + TASKS_STEPS + MESSAGES_STEPS + REPLIES_STEPS + FAULTS_STEPS {
        faults_part((pc - MEMORY_STEPS - TASKS_STEPS - MESSAGES_STEPS - REPLIES_STEPS) as usize)
    } else if pc < MEMORY_STEPS + TASKS_STEPS + MESSAGES_STEPS + REPLIES_STEPS + FAULTS_STEPS + TURNS_STEPS {
        turns_part((pc - MEMORY_STEPS - TASKS_STEPS - MESSAGES_STEPS - REPLIES_STEPS - FAULTS_STEPS) as usize)
    } else {
        Step { name: "", op: Op::Done }
    }
}

/// The step at a place of the script.
pub fn step(pc: usize) -> (r: Step)
    ensures
        r == script(pc),
{
    if pc < MEMORY_STEPS {
        memory_step(pc)
    } else if pc < MEMORY_STEPS + TASKS_STEPS {
        tasks_step(pc - MEMORY_STEPS)
    } else if pc < MEMORY_STEPS + TASKS_STEPS + MESSAGES_STEPS {
        messages_step(pc - MEMORY_STEPS - TASKS_STEPS)
    } else if pc < MEMORY_STEPS + TASKS_STEPS + MESSAGES_STEPS + REPLIES_STEPS {
        replies_step(pc - MEMORY_STEPS - TASKS_STEPS - MESSAGES_STEPS)
    } else if pc < MEMORY_STEPS + TASKS_STEPS + MESSAGES_STEPS + REPLIES_STEPS + FAULTS_STEPS {
        faults_step(pc - MEMORY_STEPS - TASKS_STEPS - MESSAGES_STEPS - REPLIES_STEPS)
    } else if pc < MEMORY_STEPS + TASKS_STEPS + MESSAGES_STEPS + REPLIES_STEPS + FAULTS_STEPS + TURNS_STEPS {
        turns_step(pc - MEMORY_STEPS - TASKS_STEPS - MESSAGES_STEPS - REPLIES_STEPS - FAULTS_STEPS)
    } else {
        Step { name: "", op: Op::Done }
    }
}

/// The number of steps.
pub const STEPS: usize = 145;

/// The script ends, and not before its last step.
pub proof fn lemma_end(pc: usize)
    ensures
        script(pc).op is Done <==> pc >= STEPS,
{
}

} // verus!
