//! The tasks that the root task starts to check the kernel with.
use vstd::prelude::*;

verus! {

/// A message.
#[derive(Clone, Copy, Debug, PartialEq, Eq, Structural)]
pub struct Msg {
    pub m0: u64,
    pub m1: u64,
    pub m2: u64,
    pub m3: u64,
}

impl Msg {
    /// The message of zeros.
    pub open spec fn zero() -> Msg {
        Msg { m0: 0, m1: 0, m2: 0, m3: 0 }
    }
}

/// What the first client sends first.
pub open spec fn fifo_a() -> Msg {
    Msg { m0: 0xC1A0, m1: 1, m2: 2, m3: 3 }
}

/// What the second client sends.
pub open spec fn fifo_b() -> Msg {
    Msg { m0: 0xC2B0, m1: 4, m2: 5, m3: 6 }
}

/// What the first client calls the server with.
pub open spec fn held_call() -> Msg {
    Msg { m0: 0xC3C0, m1: 7, m2: 8, m3: 9 }
}

/// How far the child that ends by itself counts.
pub const CHILD_EXIT_TARGET: u64 = 100_000;

/// What the server makes of a message.
pub open spec fn transformed(m: Msg) -> Msg {
    Msg {
        m0: m.m0.wrapping_add(1),
        m1: m.m1 ^ 0xF0F0_F0F0,
        m2: m.m2.wrapping_mul(3),
        m3: (m.m3 << 16) | (m.m3 >> 48),
    }
}

/// What the server makes of a message, so that a reply can be told from what was sent.
pub fn xform(m: Msg) -> (r: Msg)
    ensures
        r == transformed(m),
{
    Msg {
        m0: m.m0.wrapping_add(1),
        m1: m.m1 ^ 0xF0F0_F0F0,
        m2: m.m2.wrapping_mul(3),
        m3: (m.m3 << 16) | (m.m3 >> 48),
    }
}

/// The name under which a child reports a failed check.
pub fn check_name(c: Check) -> (r: &'static str)
    ensures
        r@ == match c {
            Check::ServerRecv => "server recv"@,
            Check::ClientSend => "client send"@,
            Check::Client2Send => "client2 send"@,
        },
{
    match c {
        Check::ServerRecv => "server recv",
        Check::ClientSend => "client send",
        Check::Client2Send => "client2 send",
    }
}

/// What a child does next.
#[derive(Clone, Copy, Debug, PartialEq, Eq, Structural)]
pub enum Deed {
    /// Ends with a code.
    Exit(u64),
    /// Reports a failed check and ends.
    Fail(Check),
    /// Notes the message, then receives the next without an answer to this one.
    NoteAndReceive(Msg),
    /// Notes the message, then answers it and receives the next.
    NoteAndReply(Msg, Msg),
    /// Calls the server.
    Call(Msg),
    /// Notes the outcome of the call, then ends with a code.
    NoteStatusAndExit(i64, u64),
    /// Goes on counting.
    Count,
}

/// A check of a child.
#[derive(Clone, Copy, Debug, PartialEq, Eq, Structural)]
pub enum Check {
    ServerRecv,
    ClientSend,
    Client2Send,
}

/// What the server does with what it has received.
///
/// Told to die, it ends without an answer. Told to hold, it leaves the caller without an
/// answer and receives again.
pub fn server_step(status: i64, m: Msg, die: bool, hold: bool) -> (r: Deed)
    ensures
        r == (if status != 0 {
            Deed::Fail(Check::ServerRecv)
        } else if die {
            Deed::Exit(9)
        } else if hold {
            Deed::NoteAndReceive(m)
        } else {
            Deed::NoteAndReply(m, transformed(m))
        }),
{
    if status != 0 {
        return Deed::Fail(Check::ServerRecv);
    }
    if die {
        return Deed::Exit(9);
    }
    if hold {
        Deed::NoteAndReceive(m)
    } else {
        Deed::NoteAndReply(m, xform(m))
    }
}

/// What the first client sends first.
pub fn client_first() -> (r: Msg)
    ensures
        r == fifo_a(),
{
    Msg { m0: 0xC1A0, m1: 1, m2: 2, m3: 3 }
}

/// What the second client sends.
pub fn client2_first() -> (r: Msg)
    ensures
        r == fifo_b(),
{
    Msg { m0: 0xC2B0, m1: 4, m2: 5, m3: 6 }
}

/// What the first client does once its message is through.
pub fn client_sent(status: i64) -> (r: Deed)
    ensures
        r == (if status != 0 {
            Deed::Fail(Check::ClientSend)
        } else {
            Deed::Call(held_call())
        }),
{
    if status != 0 {
        Deed::Fail(Check::ClientSend)
    } else {
        Deed::Call(Msg { m0: 0xC3C0, m1: 7, m2: 8, m3: 9 })
    }
}

/// What the first client does once its call has returned.
pub fn client_called(status: i64) -> (r: Deed)
    ensures
        r == Deed::NoteStatusAndExit(status, 11),
{
    Deed::NoteStatusAndExit(status, 11)
}

/// What the second client does once its message is through.
pub fn client2_sent(status: i64) -> (r: Deed)
    ensures
        r == (if status != 0 {
            Deed::Fail(Check::Client2Send)
        } else {
            Deed::Exit(12)
        }),
{
    if status != 0 {
        Deed::Fail(Check::Client2Send)
    } else {
        Deed::Exit(12)
    }
}

/// What the child that ends by itself does once it has counted up to `v`.
pub fn child_exit_step(v: u64) -> (r: Deed)
    ensures
        r == (if v == CHILD_EXIT_TARGET {
            Deed::Exit(7)
        } else {
            Deed::Count
        }),
{
    if v == CHILD_EXIT_TARGET {
        Deed::Exit(7)
    } else {
        Deed::Count
    }
}

/// The server tells messages apart: what it makes of two different ones is different.
pub proof fn lemma_replies_differ(a: Msg, b: Msg)
    requires
        a != b,
    ensures
        transformed(a) != transformed(b),
{
    let (x, y) = (a.m0, b.m0);
    assert(x.wrapping_add(1) == y.wrapping_add(1) ==> x == y);
    let (x, y) = (a.m1, b.m1);
    assert(x ^ 0xF0F0_F0F0 == y ^ 0xF0F0_F0F0 ==> x == y) by (bit_vector);
    lemma_times_three(a.m2, b.m2);
    let (x, y) = (a.m3, b.m3);
    assert((x << 16) | (x >> 48) == (y << 16) | (y >> 48) ==> x == y) by (bit_vector);
}

/// Three times a number, in 64 bits, tells which number it was.
proof fn lemma_times_three(x: u64, y: u64)
    ensures
        x.wrapping_mul(3) == y.wrapping_mul(3) ==> x == y,
{
    let m = 0x1_0000_0000_0000_0000int;
    assert(x.wrapping_mul(3) == (x * 3) % m);
    assert(y.wrapping_mul(3) == (y * 3) % m);
    if (x * 3) % m == (y * 3) % m {
        // 3 has an inverse
        let inv = 0xAAAA_AAAA_AAAA_AAABint;
        vstd::arithmetic::div_mod::lemma_mul_mod_noop_left(x * 3, inv, m);
        vstd::arithmetic::div_mod::lemma_mul_mod_noop_left(y * 3, inv, m);
        assert(3 * inv == 2 * m + 1);
        assert(x * 3 * inv == 2 * x * m + x) by (nonlinear_arith)
            requires
                3 * inv == 2 * m + 1,
        ;
        assert(y * 3 * inv == 2 * y * m + y) by (nonlinear_arith)
            requires
                3 * inv == 2 * m + 1,
        ;
        vstd::arithmetic::div_mod::lemma_mod_multiples_vanish(2 * x, x as int, m);
        vstd::arithmetic::div_mod::lemma_mod_multiples_vanish(2 * y, y as int, m);
        assert(m * (2 * x) + x == 2 * x * m + x) by (nonlinear_arith);
        assert(m * (2 * y) + y == 2 * y * m + y) by (nonlinear_arith);
    }
}

} // verus!
