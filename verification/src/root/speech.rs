//! What the root task writes to the console, byte by byte, and the calls that carry it.
use vstd::prelude::*;
use vstd::string::*;

use crate::abi::syscall;
use crate::arch::earlycon::{self, EarlyCon};
use crate::platform::Platform;
use crate::root::run::Action;

verus! {

/// The bytes of a text.
pub open spec fn plain(s: &str) -> Seq<u8> {
    s.spec_bytes()
}

/// The bytes that an action writes.
pub open spec fn spoken(a: Action) -> Seq<u8> {
    match a {
        Action::Say(text) => plain(text),
        Action::SayNumber(text, v) => plain(text) + earlycon::hex_sent(v) + plain("\n"),
        _ => Seq::empty(),
    }
}

/// The bytes that report a failed check.
pub open spec fn failure(name: &str) -> Seq<u8> {
    plain("root: FAIL ") + plain(name) + plain("\n")
}

fn add_str(out: &mut Vec<u8>, s: &str)
    ensures
        final(out)@ == old(out)@ + plain(s),
{
    let b = s.as_bytes();
    let mut i: usize = 0;
    while i < b.len()
        invariant
            i <= b.len(),
            out@ == old(out)@ + b@.take(i as int),
        decreases b.len() - i,
    {
        out.push(b[i]);
        i += 1;
        assert(out@ =~= old(out)@ + b@.take(i as int));
    }
    assert(b@.take(b@.len() as int) =~= b@);
}

/// Writes a number: `0x` and 16 digits.
fn add_hex(out: &mut Vec<u8>, v: u64)
    ensures
        final(out)@ == old(out)@ + earlycon::hex_sent(v),
{
    let mut digits = EarlyCon::new(Platform::Virt);
    digits.put_hex(v);
    let mut more = digits.take();
    out.append(&mut more);
    assert(out@ =~= old(out)@ + earlycon::hex_sent(v));
}

/// The bytes that an action writes.
pub fn speak(a: &Action) -> (r: Vec<u8>)
    ensures
        r@ == spoken(*a),
{
    let mut out: Vec<u8> = Vec::new();
    match *a {
        Action::Say(text) => {
            add_str(&mut out, text);
        },
        Action::SayNumber(text, v) => {
            add_str(&mut out, text);
            add_hex(&mut out, v);
            add_str(&mut out, "\n");
        },
        _ => {},
    }
    assert(out@ =~= spoken(*a));
    out
}

/// The bytes that report a failed check.
pub fn fail(name: &str) -> (r: Vec<u8>)
    ensures
        r@ == failure(name),
{
    let mut out: Vec<u8> = Vec::new();
    add_str(&mut out, "root: FAIL ");
    add_str(&mut out, name);
    add_str(&mut out, "\n");
    assert(out@ =~= failure(name));
    out
}

/// A system call with one or two arguments.
pub open spec fn call(nr: u64, x0: u64, x1: u64) -> Action {
    Action::Svc { nr, x0, x1, x2: 0, x3: 0, x4: 0, x5: 0 }
}

/// The system calls that write bytes: one for each byte, in order.
pub open spec fn put_calls(console: u64, text: Seq<u8>) -> Seq<Action> {
    text.map_values(|b: u8| call(syscall::DEBUG_PUTC, console, b as u64))
}

/// The system calls of a task that ends on a failed check: those that write the report,
/// then the one that ends it with code 1.
pub open spec fn failed_calls(console: u64, name: &str) -> Seq<Action> {
    put_calls(console, failure(name)).push(call(syscall::EXIT, 1, 0))
}

/// The system call that writes a byte to the console in a slot.
pub fn putc_call(console: u64, b: u8) -> (r: Action)
    ensures
        r == (Action::Svc {
            nr: syscall::DEBUG_PUTC,
            x0: console,
            x1: b as u64,
            x2: 0,
            x3: 0,
            x4: 0,
            x5: 0,
        }),
{
    Action::Svc { nr: syscall::DEBUG_PUTC, x0: console, x1: b as u64, x2: 0, x3: 0, x4: 0, x5: 0 }
}

/// The system calls that write bytes to the console in a slot.
pub fn put_bytes(console: u64, text: &[u8]) -> (r: Vec<Action>)
    ensures
        r@ == put_calls(console, text@),
{
    let mut out: Vec<Action> = Vec::new();
    let mut i: usize = 0;
    while i < text.len()
        invariant
            i <= text.len(),
            out@ == put_calls(console, text@).take(i as int),
        decreases text.len() - i,
    {
        out.push(putc_call(console, text[i]));
        i += 1;
        assert(out@ =~= put_calls(console, text@).take(i as int));
    }
    assert(out@ =~= put_calls(console, text@));
    out
}

/// The system calls that write a text to the console in a slot.
pub fn put_str(console: u64, s: &str) -> (r: Vec<Action>)
    ensures
        r@ == put_calls(console, plain(s)),
{
    put_bytes(console, s.as_bytes())
}

/// What a task does on a failed check, and all that it does: it reports the check and
/// ends with code 1.
pub fn failed(console: u64, name: &str) -> (r: Vec<Action>)
    ensures
        r@ == failed_calls(console, name),
{
    let mut out = put_bytes(console, fail(name).as_slice());
    out.push(Action::Svc { nr: syscall::EXIT, x0: 1, x1: 0, x2: 0, x3: 0, x4: 0, x5: 0 });
    out
}

} // verus!
