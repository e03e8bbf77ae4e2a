//! The run of the root task through its script.
//!
//! Each step is an action of the task; what comes of it decides how it goes on.
use vstd::prelude::*;

use crate::abi::{err, syscall};
use crate::root::children::{self, Msg};
use crate::root::info::{self, Info, FIRST_CONSOLE, FRAMES_NEEDED};
use crate::root::script::{self, Cell, Child, Op, Test, Val, Want, SAVED, TEST_VA};
use crate::root::speech;

verus! {

/// The entry points of the children.
#[derive(Clone, Copy, Debug, PartialEq, Eq, Structural)]
pub struct Entries {
    pub busy: u64,
    pub exit: u64,
    pub server: u64,
    pub client: u64,
    pub client2: u64,
    pub fault: u64,
    pub fp: u64,
}

/// What the root task does next.
#[derive(Clone, Copy, Debug)]
pub enum Action {
    /// Writes a text.
    Say(&'static str),
    /// Writes a text, a number and a newline.
    SayNumber(&'static str, u64),
    /// Makes a system call: number and arguments.
    Svc { nr: u64, x0: u64, x1: u64, x2: u64, x3: u64, x4: u64, x5: u64 },
    /// Writes to memory.
    Poke { at: u64, value: u64 },
    /// Reads from memory.
    Peek { at: u64 },
    /// Sets a shared word.
    Put { cell: Cell, value: u64 },
    /// Reads a shared word.
    Get { cell: Cell },
    /// Sets the thread pointer.
    SetTpidr(u64),
    /// Reads the thread pointer.
    GetTpidr,
    /// Reads the thread pointer that only the kernel can set.
    GetTpidrRo,
    /// Checks what it knows already.
    Think,
}

/// What came of an action.
#[derive(Clone, Copy, Debug, PartialEq, Eq, Structural)]
pub enum Event {
    /// Nothing to tell.
    Done,
    /// The answer to a system call: the status, and x2 to x5.
    Answer { status: i64, m: Msg },
    /// What was read.
    Value(u64),
}

/// The root task between two actions.
pub struct Runner {
    pub info: Info,
    pub entries: Entries,
    /// The place in the script.
    pub pc: usize,
    /// Whether the task gives way before it tries the step again.
    pub resting: bool,
    /// Answers that later steps need.
    pub saved: [i64; SAVED],
    /// The last message.
    pub last: Msg,
}

/// The mathematical content of a [`Runner`].
#[verifier::ext_equal]
pub struct RunnerView {
    pub info: Info,
    pub entries: Entries,
    pub pc: usize,
    pub resting: bool,
    pub saved: Seq<i64>,
    pub last: Msg,
}

impl View for Runner {
    type V = RunnerView;

    open spec fn view(&self) -> RunnerView {
        RunnerView {
            info: self.info,
            entries: self.entries,
            pc: self.pc,
            resting: self.resting,
            saved: self.saved@,
            last: self.last,
        }
    }
}

/// Whether the answers that a value refers to are kept, and addresses stay in range.
pub open spec fn val_ok(v: Val) -> bool {
    match v {
        Val::Saved(i) => i < SAVED,
        Val::Page(n) => n < FRAMES_NEEDED,
        Val::PageLess8(n) => 0 < n < FRAMES_NEEDED,
        Val::EntryPlus2(c) => c == Child::Fault,
        _ => true,
    }
}

/// Whether everything that a step refers to is kept.
pub open spec fn op_ok(op: Op) -> bool {
    match op {
        Op::Call { a0, a1, a2, a3, expect, save, .. } => {
            &&& val_ok(a0) && val_ok(a1) && val_ok(a2) && val_ok(a3)
            &&& expect matches Want::PositiveNot(i) ==> i < SAVED
            &&& expect matches Want::PositiveBoth(i) ==> i < SAVED
            &&& save matches Some(i) ==> i < SAVED
        },
        Op::Ipc { slot, .. } => val_ok(slot),
        Op::Poke { at, .. } => val_ok(at),
        Op::Peek { at, .. } => val_ok(at),
        Op::Put { value, .. } => val_ok(value),
        _ => true,
    }
}

/// Every step refers to what is there.
pub proof fn lemma_script_ok(pc: usize)
    ensures
        op_ok(script::script(pc).op),
{
}

/// The entry point of a child.
pub open spec fn entry_of(e: Entries, c: Child) -> u64 {
    match c {
        Child::Busy => e.busy,
        Child::Exit => e.exit,
        Child::Server => e.server,
        Child::Client => e.client,
        Child::Client2 => e.client2,
        Child::Fault => e.fault,
        Child::Fp => e.fp,
    }
}

/// What a shared word is waited for.
pub open spec fn passes(t: Test, v: u64) -> bool {
    match t {
        Test::AtLeast(n) => v >= n,
        Test::Equals(n) => v == n,
        Test::Differs(n) => v != n,
    }
}

/// The system call that gives way.
pub open spec fn yield_call() -> Action {
    Action::Svc { nr: syscall::YIELD, x0: 0, x1: 0, x2: 0, x3: 0, x4: 0, x5: 0 }
}

impl RunnerView {
    /// What a value is now.
    pub open spec fn value(self, v: Val) -> u64 {
        match v {
            Val::Word(w) => w,
            Val::Saved(i) => self.saved[i as int] as u64,
            Val::Untyped => self.info.untyped,
            Val::Space => self.info.aspace,
            Val::Page(n) => (TEST_VA + n * self.info.frame_size) as u64,
            Val::PageLess8(n) => (TEST_VA + n * self.info.frame_size - 8) as u64,
            Val::Entry(c) => entry_of(self.entries, c),
            Val::EntryPlus2(c) => (entry_of(self.entries, c) + 2) as u64,
        }
    }

    /// What the task does next.
    pub open spec fn action(self) -> Action {
        if self.resting {
            yield_call()
        } else {
            match script::script(self.pc).op {
                Op::Say(text) => Action::Say(text),
                Op::SayUntyped => Action::SayNumber("root: untyped slot ", self.info.untyped),
                Op::Call { nr, a0, a1, a2, a3, .. } => Action::Svc {
                    nr,
                    x0: self.value(a0),
                    x1: self.value(a1),
                    x2: self.value(a2),
                    x3: self.value(a3),
                    x4: 0,
                    x5: 0,
                },
                Op::Ipc { nr, slot, flags, m, .. } => Action::Svc {
                    nr,
                    x0: self.value(slot),
                    x1: flags,
                    x2: m.m0,
                    x3: m.m1,
                    x4: m.m2,
                    x5: m.m3,
                },
                Op::ReplyTo(_) => Action::Think,
                Op::MessageIs(_) => Action::Think,
                Op::Poke { at, word } => Action::Poke { at: self.value(at), value: word },
                Op::Peek { at, .. } => Action::Peek { at: self.value(at) },
                Op::Put { cell, value } => Action::Put { cell, value: self.value(value) },
                Op::Get { cell, .. } => Action::Get { cell },
                Op::Aborted => Action::Get { cell: Cell::ClientStatus },
                Op::Wait { cell, .. } => Action::Get { cell },
                Op::SetTpidr(v) => Action::SetTpidr(v),
                Op::Tpidr(_) => Action::GetTpidr,
                Op::TpidrRo(_) => Action::GetTpidrRo,
                Op::Yield => yield_call(),
                Op::Done => yield_call(),
            }
        }
    }

    /// Whether an answer is as it should be.
    pub open spec fn wanted(self, want: Want, status: i64) -> bool {
        match want {
            Want::Is(v) => status == v,
            Want::Positive => status > 0,
            Want::PositiveNot(i) => status > 0 && status != self.saved[i as int],
            Want::PositiveBoth(i) => self.saved[i as int] > 0 && status > 0,
            Want::Any => true,
        }
    }

    /// The task one step further.
    pub open spec fn onward(self) -> RunnerView {
        RunnerView { pc: (self.pc + 1) as usize, ..self }
    }

    /// How the task goes on after a check.
    pub open spec fn checked(self, ok: bool) -> Result<RunnerView, &'static str> {
        if ok {
            Ok(self.onward())
        } else {
            Err(script::script(self.pc).name)
        }
    }

    /// How the task goes on after its action, or which check has failed. An event of a
    /// kind that the action does not have fails it too.
    pub open spec fn after(self, e: Event) -> Result<RunnerView, &'static str> {
        if self.resting {
            Ok(RunnerView { resting: false, ..self })
        } else {
            match script::script(self.pc).op {
                Op::Call { expect, save, .. } => match e {
                    Event::Answer { status, .. } => RunnerView {
                        saved: match save {
                            Some(i) => self.saved.update(i as int, status),
                            None => self.saved,
                        },
                        ..self
                    }.checked(self.wanted(expect, status)),
                    _ => self.checked(false),
                },
                Op::Ipc { status: want, again, .. } => match e {
                    Event::Answer { status, m } => if again && status == err::WOULD_BLOCK {
                        Ok(RunnerView { resting: true, ..self })
                    } else {
                        RunnerView { last: m, ..self }.checked(status == want)
                    },
                    _ => self.checked(false),
                },
                Op::ReplyTo(m) => self.checked(self.last == children::transformed(m)),
                Op::MessageIs(m) => self.checked(self.last == m),
                Op::Peek { want, .. } => self.checked(e == Event::Value(want)),
                Op::Get { want, .. } => self.checked(e == Event::Value(want)),
                Op::Aborted => self.checked(e == Event::Value(err::NO_REPLY as u64)),
                Op::Wait { test, .. } => match e {
                    Event::Value(v) => if passes(test, v) {
                        Ok(self.onward())
                    } else {
                        Ok(RunnerView { resting: true, ..self })
                    },
                    _ => self.checked(false),
                },
                Op::Tpidr(v) => self.checked(e == Event::Value(v)),
                Op::TpidrRo(v) => self.checked(e == Event::Value(v)),
                Op::Done => Ok(self),
                _ => Ok(self.onward()),
            }
        }
    }

    /// Whether the task has passed all its checks.
    pub open spec fn passed(self) -> bool {
        script::script(self.pc).op is Done
    }
}

/// A task at the start of its script.
pub open spec fn first_view(info: Info, entries: Entries) -> RunnerView {
    RunnerView {
        info,
        entries,
        pc: 0,
        resting: false,
        saved: Seq::new(SAVED as nat, |i: int| 0i64),
        last: Msg::zero(),
    }
}

impl Runner {
    /// What holds of a task that can run.
    pub open spec fn wf(&self) -> bool {
        &&& self.info.frame_size * FRAMES_NEEDED <= u64::MAX
        &&& self.entries.fault + 2 <= u64::MAX
        &&& self.pc <= script::STEPS
    }

    /// The task at the start of its script.
    pub fn new(info: Info, entries: Entries) -> (r: Self)
        requires
            info.frame_size * FRAMES_NEEDED <= u64::MAX,
            entries.fault + 2 <= u64::MAX,
        ensures
            r.wf(),
            r@ == first_view(info, entries),
    {
        let r = Runner {
            info,
            entries,
            pc: 0,
            resting: false,
            saved: [0i64;SAVED],
            last: Msg { m0: 0, m1: 0, m2: 0, m3: 0 },
        };
        assert(r.saved@ =~= Seq::new(SAVED as nat, |i: int| 0i64));
        r
    }

    fn entry(&self, c: Child) -> (r: u64)
        ensures
            r == entry_of(self.entries, c),
    {
        match c {
            Child::Busy => self.entries.busy,
            Child::Exit => self.entries.exit,
            Child::Server => self.entries.server,
            Child::Client => self.entries.client,
            Child::Client2 => self.entries.client2,
            Child::Fault => self.entries.fault,
            Child::Fp => self.entries.fp,
        }
    }

    fn value(&self, v: Val) -> (r: u64)
        requires
            self.wf(),
            val_ok(v),
        ensures
            r == self@.value(v),
    {
        let f = self.info.frame_size;
        match v {
            Val::Word(w) => w,
            Val::Saved(i) => self.saved[i] as u64,
            Val::Untyped => self.info.untyped,
            Val::Space => self.info.aspace,
            Val::Page(n) => {
                proof {
                    lemma_page_in_range(n, f);
                }
                TEST_VA + n * f
            },
            Val::PageLess8(n) => {
                proof {
                    lemma_page_in_range(n, f);
                }
                TEST_VA + n * f - 8
            },
            Val::Entry(c) => self.entry(c),
            Val::EntryPlus2(c) => self.entry(c) + 2,
        }
    }

    /// What the task does next.
    pub fn action(&self) -> (r: Action)
        requires
            self.wf(),
        ensures
            r == self@.action(),
    {
        if self.resting {
            return Action::Svc { nr: syscall::YIELD, x0: 0, x1: 0, x2: 0, x3: 0, x4: 0, x5: 0 };
        }
        proof {
            lemma_script_ok(self.pc);
        }
        match script::step(self.pc).op {
            Op::Say(text) => Action::Say(text),
            Op::SayUntyped => Action::SayNumber("root: untyped slot ", self.info.untyped),
            Op::Call { nr, a0, a1, a2, a3, .. } => Action::Svc {
                nr,
                x0: self.value(a0),
                x1: self.value(a1),
                x2: self.value(a2),
                x3: self.value(a3),
                x4: 0,
                x5: 0,
            },
            Op::Ipc { nr, slot, flags, m, .. } => Action::Svc {
                nr,
                x0: self.value(slot),
                x1: flags,
                x2: m.m0,
                x3: m.m1,
                x4: m.m2,
                x5: m.m3,
            },
            Op::ReplyTo(_) => Action::Think,
            Op::MessageIs(_) => Action::Think,
            Op::Poke { at, word } => Action::Poke { at: self.value(at), value: word },
            Op::Peek { at, .. } => Action::Peek { at: self.value(at) },
            Op::Put { cell, value } => Action::Put { cell, value: self.value(value) },
            Op::Get { cell, .. } => Action::Get { cell },
            Op::Aborted => Action::Get { cell: Cell::ClientStatus },
            Op::Wait { cell, .. } => Action::Get { cell },
            Op::SetTpidr(v) => Action::SetTpidr(v),
            Op::Tpidr(_) => Action::GetTpidr,
            Op::TpidrRo(_) => Action::GetTpidrRo,
            Op::Yield => Action::Svc {
                nr: syscall::YIELD,
                x0: 0,
                x1: 0,
                x2: 0,
                x3: 0,
                x4: 0,
                x5: 0,
            },
            Op::Done => Action::Svc {
                nr: syscall::YIELD,
                x0: 0,
                x1: 0,
                x2: 0,
                x3: 0,
                x4: 0,
                x5: 0,
            },
        }
    }

    fn is_wanted(&self, want: Want, status: i64) -> (r: bool)
        requires
            want matches Want::PositiveNot(i) ==> i < SAVED,
            want matches Want::PositiveBoth(i) ==> i < SAVED,
        ensures
            r == self@.wanted(want, status),
    {
        match want {
            Want::Is(v) => status == v,
            Want::Positive => status > 0,
            Want::PositiveNot(i) => status > 0 && status != self.saved[i],
            Want::PositiveBoth(i) => self.saved[i] > 0 && status > 0,
            Want::Any => true,
        }
    }

    /// Takes note of what came of the action. Tells the check that has failed, if one has.
    pub fn advance(&mut self, e: Event) -> (r: Result<(), &'static str>)
        requires
            old(self).wf(),
        ensures
            match old(self)@.after(e) {
                Ok(v) => r is Ok && final(self).wf() && final(self)@ == v,
                Err(name) => r == Err::<(), &'static str>(name),
            },
    {
        if self.resting {
            self.resting = false;
            return Ok(());
        }
        proof {
            lemma_script_ok(self.pc);
            script::lemma_end(self.pc);
        }
        let step = script::step(self.pc);
        let ok = match step.op {
            Op::Call { expect, save, .. } => match e {
                Event::Answer { status, .. } => {
                    let ok = self.is_wanted(expect, status);
                    if let Some(i) = save {
                        self.saved[i] = status;
                    }
                    ok
                },
                _ => false,
            },
            Op::Ipc { status: want, again, .. } => match e {
                Event::Answer { status, m } => {
                    if again && status == err::WOULD_BLOCK {
                        self.resting = true;
                        return Ok(());
                    }
                    self.last = m;
                    status == want
                },
                _ => false,
            },
            Op::ReplyTo(m) => self.last == children::xform(m),
            Op::MessageIs(m) => self.last == m,
            Op::Peek { want, .. } => e == Event::Value(want),
            Op::Get { want, .. } => e == Event::Value(want),
            Op::Aborted => e == Event::Value(err::NO_REPLY as u64),
            Op::Wait { test, .. } => match e {
                Event::Value(v) => {
                    let pass = match test {
                        Test::AtLeast(n) => v >= n,
                        Test::Equals(n) => v == n,
                        Test::Differs(n) => v != n,
                    };
                    if !pass {
                        self.resting = true;
                        return Ok(());
                    }
                    true
                },
                _ => false,
            },
            Op::Tpidr(v) => e == Event::Value(v),
            Op::TpidrRo(v) => e == Event::Value(v),
            Op::Done => {
                return Ok(());
            },
            _ => true,
        };
        if !ok {
            return Err(step.name);
        }
        self.pc = self.pc + 1;
        Ok(())
    }

    /// Goes on after an action. Gives the last system calls of the task where a check has
    /// failed: the report, and the end.
    pub fn go_on(&mut self, e: Event) -> (r: Result<(), Vec<Action>>)
        requires
            old(self).wf(),
        ensures
            match old(self)@.after(e) {
                Ok(v) => r is Ok && final(self).wf() && final(self)@ == v,
                Err(name) => r is Err && r->Err_0@ == speech::failed_calls(
                    old(self).info.console,
                    name,
                ),
            },
    {
        let console = self.info.console;
        match self.advance(e) {
            Ok(_) => Ok(()),
            Err(name) => Err(speech::failed(console, name)),
        }
    }

    /// Whether the task has passed all its checks.
    pub fn has_passed(&self) -> (r: bool)
        ensures
            r == self@.passed(),
    {
        match script::step(self.pc).op {
            Op::Done => true,
            _ => false,
        }
    }
}

/// The addresses that the script uses are in range.
proof fn lemma_page_in_range(n: u64, f: u64)
    requires
        n < FRAMES_NEEDED,
        f * FRAMES_NEEDED <= u64::MAX,
    ensures
        0 <= n * f,
        TEST_VA + n * f <= u64::MAX,
{
    assert(n * f <= 31 * f && 0 <= n * f) by (nonlinear_arith)
        requires
            n <= 31,
    ;
}

/// The greeting of the root task.
pub open spec fn greeting() -> &'static str {
    "root: hello from EL0\n"
}

/// Starts the root task: it reads the boot information page and is at the start of its
/// script. Gives the system calls of the task where it refuses the page: the greeting, the
/// report and the end.
pub fn begin(words: &[u64], entries: Entries) -> (r: Result<Runner, Vec<Action>>)
    requires
        info::readable(words@),
        entries.fault + 2 <= u64::MAX,
    ensures
        match info::info_in(words@) {
            Ok(found) => r is Ok && r->Ok_0.wf() && r->Ok_0@ == first_view(found, entries),
            Err(name) => r is Err && r->Err_0@ == speech::put_calls(
                FIRST_CONSOLE,
                speech::plain(greeting()),
            ) + speech::failed_calls(FIRST_CONSOLE, name),
        },
{
    match info::read_info(words) {
        Ok(found) => Ok(Runner::new(found, entries)),
        Err(name) => Err(refused(name)),
    }
}

/// The system calls of a root task that cannot go by the page: the greeting, the report
/// and the end.
pub fn refused(name: &str) -> (r: Vec<Action>)
    ensures
        r@ == speech::put_calls(FIRST_CONSOLE, speech::plain(greeting())) + speech::failed_calls(
            FIRST_CONSOLE,
            name,
        ),
{
    let mut calls = speech::put_str(FIRST_CONSOLE, "root: hello from EL0\n");
    let mut rest = speech::failed(FIRST_CONSOLE, name);
    calls.append(&mut rest);
    calls
}

/// A task that refuses the page or fails a check does nothing more than tell so and end:
/// its last system call is the end with code 1, and every call before it writes a byte to
/// the console.
pub proof fn lemma_failure_only_tells_and_ends(console: u64, name: &str, i: int)
    requires
        0 <= i < speech::failed_calls(console, name).len(),
    ensures
        ({
            let calls = speech::failed_calls(console, name);
            let text = speech::failure(name);
            &&& calls.len() == text.len() + 1
            &&& calls[i] == (if i < text.len() {
                speech::call(syscall::DEBUG_PUTC, console, text[i] as u64)
            } else {
                speech::call(syscall::EXIT, 1, 0)
            })
        }),
{
}

/// The script is gone through in order: an event takes the task one step further or lets
/// it try again, and only the check of the step it is at can fail. So a task that has
/// passed has taken every step.
pub proof fn lemma_steps_in_order(v: RunnerView, e: Event)
    requires
        v.pc < script::STEPS,
    ensures
        match v.after(e) {
            Ok(next) => {
                &&& next.pc == v.pc || next.pc == v.pc + 1
                &&& next.info == v.info && next.entries == v.entries
                &&& next.passed() ==> next.pc == script::STEPS
                &&& v.resting ==> next.pc == v.pc && !next.resting
            },
            Err(name) => !v.resting && name == script::script(v.pc).name,
        },
{
    if let Ok(next) = v.after(e) {
        script::lemma_end(next.pc);
    }
    script::lemma_end(v.pc);
}

} // verus!
