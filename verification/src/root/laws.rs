//! Laws of the root task: what it finds, what it asks and what it makes of the answers.
use vstd::prelude::*;

use crate::align;
use crate::ipc::effects;
use crate::root::children::{self, Msg};
use crate::root::info::{self, Info};
use crate::root::run::{Action, Event, RunnerView};
use crate::root::script::{self, Cell, Op, Test, Val, Want};

verus! {

/// Whether a slot of the page is described as of a kind.
pub open spec fn is_kind(words: Seq<u64>, slot: int, kind: u64) -> bool {
    words[3 * slot + 3] == kind
}

/// Whether a slot of the page is described as untyped memory of 32 frames or more.
pub open spec fn is_room(words: Seq<u64>, slot: int) -> bool {
    words[3 * slot + 3] == 3 && words[3 * slot + 5] >= 32 * words[1]
}

proof fn lemma_first_kind(words: Seq<u64>, kind: u64, n: int)
    ensures
        ({
            let k = info::first_of(words, kind, n);
            &&& 0 <= k
            &&& k != 0 ==> 0 < k < n && is_kind(words, k, kind)
            &&& forall|j: int| 0 < j < n && #[trigger] is_kind(words, j, kind) ==> 0 < k <= j
        }),
    decreases n,
{
    if n > 0 {
        lemma_first_kind(words, kind, n - 1);
        let k = info::first_of(words, kind, n);
        assert forall|j: int| 0 < j < n && #[trigger] is_kind(words, j, kind) implies 0 < k <= j by {
            if j == n - 1 {
                assert(3 * (j + 1) == 3 * j + 3);
            }
        }
    }
}

proof fn lemma_first_room(words: Seq<u64>, n: int)
    ensures
        ({
            let k = info::first_roomy(words, n);
            &&& 0 <= k
            &&& k != 0 ==> 0 < k < n && is_room(words, k)
            &&& forall|j: int| 0 < j < n && #[trigger] is_room(words, j) ==> 0 < k <= j
        }),
    decreases n,
{
    if n > 0 {
        lemma_first_room(words, n - 1);
    }
}

/// What the root task takes from the page: the lowest slot with room for 32 frames, the
/// lowest with an address space and the lowest with a console, or slot 0 where there is
/// no console. It refuses a page of another version than 1, with a frame size that is no
/// power of two, without such untyped memory or without an address space, and no other.
pub proof fn lemma_info(words: Seq<u64>)
    ensures
        ({
            let n = words[2] as int;
            let r = info::info_in(words);
            &&& r is Ok <==> {
                &&& words[0] == 1
                &&& align::is_pow2(words[1])
                &&& exists|j: int| 0 < j < n && #[trigger] is_room(words, j)
                &&& exists|j: int| 0 < j < n && #[trigger] is_kind(words, j, 2)
            }
            &&& words[0] != 1 ==> r == Err::<Info, &'static str>("bootinfo version")
            &&& r is Ok ==> {
                let i = r->Ok_0;
                &&& i.frame_size == words[1]
                &&& is_room(words, i.untyped as int)
                &&& forall|j: int| 0 < j < i.untyped ==> !#[trigger] is_room(words, j)
                &&& is_kind(words, i.aspace as int, 2)
                &&& forall|j: int| 0 < j < i.aspace ==> !#[trigger] is_kind(words, j, 2)
                &&& i.console != 0 ==> is_kind(words, i.console as int, 7)
                &&& forall|j: int|
                    0 < j < n && #[trigger] is_kind(words, j, 7) ==> 0 < i.console <= j
            }
        }),
{
    let n = words[2] as int;
    lemma_first_room(words, n);
    lemma_first_kind(words, 2, n);
    lemma_first_kind(words, 7, n);
}

/// A message that can be told from its answer: the answer has the first word plus one,
/// the second with bits 4 to 7 of each of its lower four bytes turned over, the third
/// three times and the fourth turned round by 16 bits.
pub proof fn lemma_answer(m: Msg)
    ensures
        ({
            let t = children::transformed(m);
            &&& t.m0 == (m.m0 + 1) % 0x1_0000_0000_0000_0000
            &&& forall|b: u64|
                b < 64 ==> ((#[trigger] (t.m1 >> b)) % 2 != (m.m1 >> b) % 2 <==> b < 32 && b % 8
                    >= 4)
            &&& t.m2 == (m.m2 + m.m2 + m.m2) % 0x1_0000_0000_0000_0000
            &&& t.m3 == (m.m3 % 0x1_0000_0000_0000) * 0x1_0000 + m.m3 / 0x1_0000_0000_0000
        }),
{
    let t = children::transformed(m);
    let a = m.m1;
    let b1 = t.m1;
    assert(forall|b: u64|
        b < 64 ==> ((#[trigger] (b1 >> b)) % 2 != (a >> b) % 2 <==> b < 32 && b % 8 >= 4)) by (
    bit_vector)
        requires
            b1 == a ^ 0xF0F0_F0F0,
    ;
    let x = m.m3;
    assert((x << 16u64) | (x >> 48u64) == (x % 0x1_0000_0000_0000) * 0x1_0000 + x
        / 0x1_0000_0000_0000) by (bit_vector);
}

/// What the task hands to the kernel: a system call of the script has its arguments in
/// order; a message goes with the slot, the flags and its four words. A page is so many
/// frames behind 512 MiB.
pub proof fn lemma_requests(v: RunnerView, k: u64, i: usize)
    requires
        !v.resting,
        0x2000_0000 + k * v.info.frame_size <= u64::MAX,
        0 <= k * v.info.frame_size,
    ensures
        match script::script(v.pc).op {
            Op::Call { nr, a0, a1, a2, a3, .. } => v.action() == (Action::Svc {
                nr,
                x0: v.value(a0),
                x1: v.value(a1),
                x2: v.value(a2),
                x3: v.value(a3),
                x4: 0,
                x5: 0,
            }),
            Op::Ipc { nr, slot, flags, m, .. } => v.action() == (Action::Svc {
                nr,
                x0: v.value(slot),
                x1: flags,
                x2: m.m0,
                x3: m.m1,
                x4: m.m2,
                x5: m.m3,
            }),
            Op::Poke { at, word } => v.action() == (Action::Poke { at: v.value(at), value: word }),
            Op::Peek { at, .. } => v.action() == (Action::Peek { at: v.value(at) }),
            Op::Put { cell, value } => v.action() == (Action::Put { cell, value: v.value(value) }),
            Op::Get { cell, .. } => v.action() == (Action::Get { cell }),
            Op::Wait { cell, .. } => v.action() == (Action::Get { cell }),
            Op::Aborted => v.action() == (Action::Get { cell: Cell::ClientStatus }),
            _ => true,
        },
        v.value(Val::Page(k)) == 0x2000_0000 + k * v.info.frame_size,
        v.value(Val::Untyped) == v.info.untyped,
        v.value(Val::Space) == v.info.aspace,
        i < v.saved.len() && v.saved[i as int] >= 0 ==> v.value(Val::Saved(i))
            == v.saved[i as int],
{
}

/// Whether an answer is what a step of the script asks for.
pub open spec fn fits(v: RunnerView, w: Want, status: i64) -> bool {
    match w {
        Want::Is(x) => status == x,
        Want::Positive => status >= 1,
        Want::PositiveNot(i) => status >= 1 && status != v.saved[i as int],
        Want::PositiveBoth(i) => status >= 1 && v.saved[i as int] >= 1,
        Want::Any => true,
    }
}

/// What the task makes of an answer: it goes on exactly where the answer is as it should
/// be, with the answer kept where a later step needs it and nothing else changed; it
/// tries again where it may and the kernel would have had it wait; else it fails.
pub proof fn lemma_answers(v: RunnerView, status: i64, m: Msg)
    requires
        !v.resting,
    ensures
        ({
            let r = v.after(Event::Answer { status, m });
            match script::script(v.pc).op {
                Op::Call { expect, save, .. } => {
                    &&& r is Ok <==> fits(v, expect, status)
                    &&& r is Ok ==> {
                        let w = r->Ok_0;
                        &&& w.pc == v.pc + 1 && !w.resting && w.last == v.last && w.info == v.info
                        &&& save is None ==> w.saved == v.saved
                        &&& save is Some ==> w.saved == v.saved.update(save->0 as int, status)
                    }
                },
                Op::Ipc { status: asked, again, .. } => {
                    &&& again && status == -14 ==> r is Ok && r->Ok_0 == (RunnerView {
                        resting: true,
                        ..v
                    })
                    &&& !(again && status == -14) ==> {
                        &&& r is Ok <==> status == asked
                        &&& r is Ok ==> {
                            let w = r->Ok_0;
                            &&& w.pc == v.pc + 1 && !w.resting && w.last == m && w.saved == v.saved
                        }
                    }
                },
                _ => true,
            }
        }),
{
    script::lemma_end(v.pc);
}

/// What the task makes of a value: a check passes exactly where the value is the one that
/// is asked for, and a wait is over exactly where the word is as it is waited for.
pub proof fn lemma_values(v: RunnerView, x: u64)
    requires
        !v.resting,
    ensures
        ({
            let r = v.after(Event::Value(x));
            match script::script(v.pc).op {
                Op::Peek { want, .. } => r is Ok <==> x == want,
                Op::Get { want, .. } => r is Ok <==> x == want,
                Op::Tpidr(want) => r is Ok <==> x == want,
                Op::TpidrRo(want) => r is Ok <==> x == want,
                Op::Aborted => r is Ok <==> x == 0x1_0000_0000_0000_0000 - 15,
                Op::Wait { test, .. } => r is Ok && (r->Ok_0.resting <==> !match test {
                    Test::AtLeast(n) => n <= x,
                    Test::Equals(n) => x == n,
                    Test::Differs(n) => !(x == n),
                }),
                _ => true,
            }
        }),
{
    effects::lemma_codes();
}

/// An answer of the server is checked right after the call that it answers, by what was
/// called with; and a message right after it was received.
pub proof fn lemma_answers_are_checked(pc: usize)
    ensures
        script::script(pc).op matches Op::ReplyTo(m) ==> {
            &&& pc > 0
            &&& script::script((pc - 1) as usize).op matches Op::Ipc {
                nr,
                m: sent,
                status,
                again,
                ..
            } && nr == 9 && sent == m && status == 0 && !again
        },
        script::script(pc).op matches Op::MessageIs(_) ==> {
            &&& pc > 0
            &&& script::script((pc - 1) as usize).op matches Op::Ipc { status, .. } && status >= 0
        },
{
}

/// Whether an answer is expected to be a number.
pub open spec fn asks_for(w: Want, n: int) -> bool {
    w matches Want::Is(x) && x == n
}

/// What the script expects of requests that cannot be met, by what it asks for: an object
/// of an unknown kind, one from the null slot, a mapping at address 0 or with an unknown
/// permission, a task with a stack or an entry point that is not aligned or in no address
/// space, and a message to a slot that is out of range. An object of a known kind is
/// always made, and its slot kept.
pub proof fn lemma_expectations(pc: usize)
    ensures
        match script::script(pc).op {
            Op::Call { nr, a0, a1, a2, a3, expect, save } => {
                &&& nr == 3 && a0 == Val::Untyped ==> (a1 matches Val::Word(k) && (if 1 <= k
                    <= 4 {
                    !(expect is Is) && save is Some
                } else {
                    asks_for(expect, -5)
                }))
                &&& nr == 3 && a0 == Val::Word(0) ==> asks_for(expect, -2)
                &&& nr == 4 && a1 == Val::Word(0) ==> asks_for(expect, -6)
                &&& nr == 4 && (a2 matches Val::Word(p) && p > 1) ==> asks_for(expect, -7)
                &&& nr == 5 && (a1 is EntryPlus2 || a2 is PageLess8) ==> asks_for(expect, -6)
                &&& nr == 5 && a3 != Val::Space ==> asks_for(expect, -12)
                &&& 3 <= nr <= 6
            },
            Op::Ipc { nr, slot, flags, status, .. } => {
                &&& slot is Word ==> status == -1
                &&& flags == 0 || flags == 1
                &&& status == -14 ==> flags == 1
                &&& status == -15 ==> nr == 9
                &&& 7 <= nr <= 10
            },
            _ => true,
        },
{
}

} // verus!
