//! User register contexts, and what brings a user task into the kernel.
use vstd::prelude::*;

use crate::align;

verus! {

/// Registers of a user task, as the exception entry saves them.
///
/// Besides the general registers the thread pointers are part of the context, so
/// that no register value leaks from one task to another.
#[derive(Clone, Copy, Debug)]
pub struct Context {
    pub x: [u64; 31],
    pub sp: u64,
    pub elr: u64,
    pub spsr: u64,
    pub tpidr: u64,
    pub tpidrro: u64,
}

/// The mathematical content of a [`Context`].
#[verifier::ext_equal]
pub struct ContextView {
    pub x: Seq<u64>,
    pub sp: u64,
    pub elr: u64,
    pub spsr: u64,
    pub tpidr: u64,
    pub tpidrro: u64,
}

impl View for Context {
    type V = ContextView;

    open spec fn view(&self) -> ContextView {
        ContextView {
            x: self.x@,
            sp: self.sp,
            elr: self.elr,
            spsr: self.spsr,
            tpidr: self.tpidr,
            tpidrro: self.tpidrro,
        }
    }
}

impl ContextView {
    /// A context in which every register is 0.
    pub open spec fn zeroed() -> ContextView {
        ContextView {
            x: Seq::new(31, |i: int| 0u64),
            sp: 0,
            elr: 0,
            spsr: 0,
            tpidr: 0,
            tpidrro: 0,
        }
    }

    /// This context with general register `n` set to `v`.
    pub open spec fn set_x(self, n: int, v: u64) -> ContextView {
        ContextView { x: self.x.update(n, v), ..self }
    }
}

impl Context {
    /// A context in which every register is 0.
    pub fn zeroed() -> (r: Self)
        ensures
            r@ == ContextView::zeroed(),
    {
        let r = Context { x: [0u64;31], sp: 0, elr: 0, spsr: 0, tpidr: 0, tpidrro: 0 };
        assert(r.x@ =~= ContextView::zeroed().x);
        r
    }
}

/// Which task's context the exception path saves and restores.
#[derive(Clone, Copy, Debug, PartialEq, Eq, Structural)]
pub struct CurrentContext {
    pub tcb: u64,
}

/// Names the task whose context the exception path saves and restores.
pub fn set_current(cell: &mut CurrentContext, tcb: u64)
    ensures
        final(cell).tcb == tcb,
{
    cell.tcb = tcb;
}

/// Why a user task came into the kernel.
#[derive(Clone, Copy, Debug, PartialEq, Eq, Structural)]
pub enum Trap {
    /// A system call. The task goes on after it.
    Syscall,
    /// An instruction that waits. It is skipped.
    Wait,
    /// Anything else: the task is at fault.
    Fault,
}

/// The reason that a syndrome gives.
pub open spec fn trap_of(esr: u64) -> Trap {
    if (esr >> 26) & 0x3F == 0x15 {
        Trap::Syscall
    } else if (esr >> 26) & 0x3F == 0x01 {
        Trap::Wait
    } else {
        Trap::Fault
    }
}

/// The reason that a syndrome gives.
pub fn trap(esr: u64) -> (r: Trap)
    ensures
        r == trap_of(esr),
{
    match (esr >> 26) & 0x3F {
        0x15 => Trap::Syscall,
        0x01 => Trap::Wait,
        _ => Trap::Fault,
    }
}

/// Four bytes, doubled `n` times.
pub open spec fn line_bytes(n: nat) -> int
    decreases n,
{
    if n == 0 {
        4
    } else {
        2 * line_bytes((n - 1) as nat)
    }
}

/// Shifting doubles.
proof fn lemma_doubled(k: u64)
    requires
        k <= 15,
    ensures
        4u64 << k == line_bytes(k as nat),
        4u64 << k > 0,
{
    reveal_with_fuel(line_bytes, 17);
    assert(4u64 << 0u64 == 4 && 4u64 << 1u64 == 8 && 4u64 << 2u64 == 16 && 4u64 << 3u64 == 32
        && 4u64 << 4u64 == 64 && 4u64 << 5u64 == 128 && 4u64 << 6u64 == 256 && 4u64 << 7u64 == 512
        && 4u64 << 8u64 == 1024 && 4u64 << 9u64 == 2048 && 4u64 << 10u64 == 4096 && 4u64 << 11u64
        == 8192 && 4u64 << 12u64 == 16384 && 4u64 << 13u64 == 32768 && 4u64 << 14u64 == 65536
        && 4u64 << 15u64 == 131072) by (bit_vector);
}

/// The lengths of a data and an instruction cache line, from the cache type register.
pub fn line_sizes(ctr: u64) -> (r: (u64, u64))
    ensures
        r.0 == 4u64 << ((ctr >> 16) & 0xF),
        r.1 == 4u64 << (ctr & 0xF),
        r.0 == line_bytes(((ctr / 0x1_0000) % 0x10) as nat),
        r.1 == line_bytes((ctr % 0x10) as nat),
        r.0 > 0,
        r.1 > 0,
{
    let d = (ctr >> 16) & 0xF;
    let i = ctr & 0xF;
    proof {
        assert((ctr >> 16) & 0xF == (ctr / 0x1_0000) % 0x10 && ctr & 0xF == ctr % 0x10)
            by (bit_vector);
        lemma_doubled(d);
        lemma_doubled(i);
    }
    (4u64 << d, 4u64 << i)
}

/// Whether one of the lines holds an address.
pub open spec fn in_line(lines: Seq<u64>, line: int, p: int) -> bool {
    exists|i: int| 0 <= i < lines.len() && (#[trigger] lines[i]) <= p < lines[i] + line
}

/// The cache lines that hold a range: the first starts at or before the range, and the
/// last reaches its end.
///
/// Code that was copied to memory can be executed once each of them has been cleaned
/// from the data cache and dropped from the instruction cache.
pub fn lines(va: u64, len: u64, line: u64) -> (r: Vec<u64>)
    requires
        line > 0,
        va + len + line <= u64::MAX,
    ensures
        ({
            let first = align::down(va as int, line as int);
            &&& forall|i: int| 0 <= i < r.len() ==> #[trigger] r@[i] == first + i * line
            &&& first + r.len() * line >= va + len
            &&& r.len() > 0 ==> first + (r.len() - 1) * line < va + len
        }),
        forall|i: int|
            0 <= i < r.len() ==> #[trigger] r@[i] as int % line as int == 0 && r@[i] < va + len && va
                < r@[i] + line,
        forall|p: int| va <= p < va + len ==> #[trigger] in_line(r@, line as int, p),
{
    let end = va + len;
    let mut out: Vec<u64> = Vec::new();
    let mut p = align::align_down(va, line);
    let ghost first = p as int;
    proof {
        align::lemma_down(va as int, line as int);
        assert(first + 0 * line == first) by (nonlinear_arith);
    }
    while p < end
        invariant
            line > 0,
            end + line <= u64::MAX,
            p == first + out.len() * line,
            forall|i: int| 0 <= i < out.len() ==> #[trigger] out@[i] == first + i * line,
            out.len() > 0 ==> first + (out.len() - 1) * line < end,
        decreases end + line - p,
    {
        let ghost n = out.len() as int;
        out.push(p);
        p = p + line;
        assert((n + 1) * line == n * line + line) by (nonlinear_arith);
    }
    proof {
        lemma_lines(out@, first, va as int, end as int, line as int);
    }
    out
}

/// Lines in a row are aligned, have a byte of the range each and hold all of it.
proof fn lemma_lines(lines: Seq<u64>, first: int, va: int, end: int, line: int)
    requires
        line > 0,
        0 <= va <= end,
        first == align::down(va, line),
        forall|i: int| 0 <= i < lines.len() ==> #[trigger] lines[i] == first + i * line,
        first + lines.len() * line >= end,
        lines.len() > 0 ==> first + (lines.len() - 1) * line < end,
    ensures
        forall|i: int|
            0 <= i < lines.len() ==> #[trigger] lines[i] as int % line == 0 && lines[i] < end && va
                < lines[i] + line,
        forall|p: int| va <= p < end ==> #[trigger] in_line(lines, line, p),
{
    let n = lines.len() as int;
    align::lemma_down(va, line);
    assert forall|i: int| 0 <= i < n implies #[trigger] lines[i] as int % line == 0 && lines[i]
        < end && va < lines[i] + line by {
        vstd::arithmetic::div_mod::lemma_mod_multiples_vanish(i, first, line);
        assert(line * i + first == first + i * line) by (nonlinear_arith);
        assert(0 <= i * line <= (n - 1) * line) by (nonlinear_arith)
            requires
                0 <= i <= n - 1,
                line > 0,
        ;
    }
    assert forall|p: int| va <= p < end implies #[trigger] in_line(lines, line, p) by {
        let i = (p - first) / line;
        vstd::arithmetic::div_mod::lemma_fundamental_div_mod(p - first, line);
        assert(line * i == i * line) by (nonlinear_arith);
        assert(0 <= i < n) by (nonlinear_arith)
            requires
                line > 0,
                0 <= p - first < n * line,
                p - first == i * line + (p - first) % line,
                0 <= (p - first) % line < line,
        ;
        assert(lines[i] <= p < lines[i] + line);
    }
}

} // verus!
