//! Interrupts and the timer.
//!
//! On the QEMU machine the timer comes as interrupt 30 of a GICv3; on Apple Silicon it
//! comes to the core directly, as a fast interrupt. Whatever cannot happen by design
//! stops the machine.
use vstd::prelude::*;
use vstd::string::*;

use crate::abi::KERNEL_VA_OFFSET;
use crate::arch::earlycon::{self, EarlyCon};
use crate::arch::vectors::Vectors;
use crate::platform::Platform;

verus! {

/// Interrupt number of the physical timer.
pub const TIMER_INTID: u64 = 30;

/// Address of the distributor.
pub const GICD_BASE: u64 = 0x0800_0000;

/// Size of the distributor.
pub const GICD_SIZE: u64 = 0x1_0000;

/// Address of the redistributor.
pub const GICR_BASE: u64 = 0x080A_0000;

/// Size of the redistributor.
pub const GICR_SIZE: u64 = 0x2_0000;

/// How often a register that should change is read in vain before giving up.
pub const POLL_LIMIT: u32 = 1_000_000;

/// Proof that the interrupt path is open.
pub struct Irq {
    /// The exception mask bits to clear: interrupts of the kind that the timer uses,
    /// and system errors.
    pub unmask: u64,
}

/// Why the interrupt controller could not be set up.
#[derive(Clone, Copy, Debug, PartialEq, Eq, Structural)]
pub enum IrqError {
    GicRwpTimeout,
    GicWakeTimeout,
}

/// What an interrupt turned out to be.
#[derive(Clone, Copy, Debug, PartialEq, Eq, Structural)]
pub enum IrqEvent {
    /// The timer.
    Tick,
    /// Nothing, and nothing to be done.
    Spurious,
    /// Something that cannot happen by design, with its number.
    Unexpected(u64),
}

/// What an interrupt is, from the value that acknowledged it.
pub open spec fn irq_event(plat: Platform, iar: u64) -> IrqEvent {
    match plat {
        Platform::Apple => IrqEvent::Unexpected(0),
        Platform::Virt => if iar & 0xFF_FFFF == TIMER_INTID {
            IrqEvent::Tick
        } else if 1020 <= iar & 0xFF_FFFF <= 1023 {
            IrqEvent::Spurious
        } else {
            IrqEvent::Unexpected(iar & 0xFF_FFFF)
        },
    }
}

/// What a fast interrupt is, from the control register of the timer.
pub open spec fn fiq_event(plat: Platform, timer_ctl: u64) -> IrqEvent {
    if plat == Platform::Apple && timer_ctl & 4 != 0 {
        IrqEvent::Tick
    } else {
        IrqEvent::Unexpected(0)
    }
}

/// What an interrupt is, from the value that acknowledged it.
pub fn dispatch_irq(plat: Platform, iar: u64) -> (r: IrqEvent)
    ensures
        r == irq_event(plat, iar),
{
    match plat {
        Platform::Apple => IrqEvent::Unexpected(0),
        Platform::Virt => {
            let id = iar & 0xFF_FFFF;
            if id == TIMER_INTID {
                IrqEvent::Tick
            } else if 1020 <= id && id <= 1023 {
                IrqEvent::Spurious
            } else {
                IrqEvent::Unexpected(id)
            }
        },
    }
}

/// What a fast interrupt is, from the control register of the timer.
pub fn dispatch_fiq(plat: Platform, timer_ctl: u64) -> (r: IrqEvent)
    ensures
        r == fiq_event(plat, timer_ctl),
{
    match plat {
        Platform::Apple => if timer_ctl & 4 != 0 {
            IrqEvent::Tick
        } else {
            IrqEvent::Unexpected(0)
        },
        Platform::Virt => IrqEvent::Unexpected(0),
    }
}

/// The timer: how many ticks there were.
pub struct Timer {
    pub ticks: u64,
}

/// What is said of a tick.
pub open spec fn tick_text(n: u64) -> Seq<u8> {
    earlycon::text("k0: tick ") + earlycon::dec_sent(n) + earlycon::text("\n")
}

/// Counts a tick and reports it. The timer is then to be armed again, for a second.
pub fn timer_tick(timer: &mut Timer, con: &mut EarlyCon)
    ensures
        final(timer).ticks == old(timer).ticks.wrapping_add(1),
        final(timer).ticks == (old(timer).ticks + 1) % 0x1_0000_0000_0000_0000,
        final(con)@ == old(con)@ + tick_text(final(timer).ticks),
        final(con).same_port(old(con)),
{
    timer.ticks = timer.ticks.wrapping_add(1);
    con.put_str("k0: tick ");
    con.put_dec(timer.ticks);
    con.put_str("\n");
    assert(con@ =~= old(con)@ + tick_text(timer.ticks));
}

/// What is said of an interrupt that cannot be.
pub open spec fn unexpected_text(kind: &str, id: u64) -> Seq<u8> {
    earlycon::text("k0: UNEXPECTED ") + earlycon::text(kind) + earlycon::text(" intid=")
        + earlycon::dec_sent(id) + earlycon::text("\n")
}

/// Reports an interrupt that cannot be. The machine must stop.
pub fn unexpected(con: &mut EarlyCon, kind: &str, id: u64)
    ensures
        final(con)@ == old(con)@ + unexpected_text(kind, id),
        final(con).same_port(old(con)),
{
    con.put_str("k0: UNEXPECTED ");
    con.put_str(kind);
    con.put_str(" intid=");
    con.put_dec(id);
    con.put_str("\n");
    assert(con@ =~= old(con)@ + unexpected_text(kind, id));
}

/// What is said of an interrupt, by the number of the tick that it may be.
pub open spec fn event_text(e: IrqEvent, kind: &str, tick: u64) -> Seq<u8> {
    match e {
        IrqEvent::Tick => tick_text(tick),
        IrqEvent::Spurious => Seq::empty(),
        IrqEvent::Unexpected(id) => unexpected_text(kind, id),
    }
}

/// Takes note of an interrupt, on the way called `kind`. False means that the machine
/// must stop.
pub fn note_event(timer: &mut Timer, con: &mut EarlyCon, e: IrqEvent, kind: &str) -> (r: bool)
    ensures
        r == !(e is Unexpected),
        final(timer).ticks == (if e == IrqEvent::Tick {
            old(timer).ticks.wrapping_add(1)
        } else {
            old(timer).ticks
        }),
        final(con)@ == old(con)@ + event_text(e, kind, final(timer).ticks),
        final(con).same_port(old(con)),
{
    match e {
        IrqEvent::Tick => {
            timer_tick(timer, con);
            true
        },
        IrqEvent::Spurious => {
            assert(con@ =~= old(con)@ + event_text(e, kind, timer.ticks));
            true
        },
        IrqEvent::Unexpected(id) => {
            unexpected(con, kind, id);
            false
        },
    }
}

/// Where setting up the interrupt controller stands.
///
/// The controller is set up by reads and writes of its registers, which happen outside:
/// [`GicInit::action`] tells the next one and [`GicInit::next`] takes its result.
#[derive(Clone, Copy, Debug, PartialEq, Eq, Structural)]
pub enum GicInit {
    /// Affinity routing and group 1 are to be turned on.
    Start,
    /// The distributor has not taken the change after so many reads.
    WaitRwp(u32),
    /// The wake register of the redistributor is to be read.
    ReadWaker,
    /// The wake register is to be written.
    Wake(u32),
    /// The redistributor has not woken up after so many reads.
    WaitAwake(u32),
    /// All private interrupts are to be put in group 1.
    Group,
    /// The timer interrupt is to be enabled.
    EnableTimer,
    /// All is done.
    Done,
    /// The controller did not react.
    Failed(IrqError),
}

/// The next access to the interrupt controller.
#[derive(Clone, Copy, Debug, PartialEq, Eq, Structural)]
pub enum GicAction {
    Write(u64, u32),
    Read(u64),
    /// None: the controller is ready.
    Ready,
    /// None: the controller did not react.
    Stop(IrqError),
}

impl GicInit {
    /// The access that comes next.
    pub open spec fn access(self) -> GicAction {
        let gicd_ctlr = (GICD_BASE + KERNEL_VA_OFFSET) as u64;
        let gicr_waker = (GICR_BASE + KERNEL_VA_OFFSET + 0x14) as u64;
        let sgi = (GICR_BASE + KERNEL_VA_OFFSET + 0x1_0000) as u64;
        match self {
            GicInit::Start => GicAction::Write(gicd_ctlr, 0x12),
            GicInit::WaitRwp(_) => GicAction::Read(gicd_ctlr),
            GicInit::ReadWaker => GicAction::Read(gicr_waker),
            GicInit::Wake(v) => GicAction::Write(gicr_waker, v),
            GicInit::WaitAwake(_) => GicAction::Read(gicr_waker),
            GicInit::Group => GicAction::Write((sgi + 0x80) as u64, 0xFFFF_FFFF),
            GicInit::EnableTimer => GicAction::Write((sgi + 0x100) as u64, 0x4000_0000),
            GicInit::Done => GicAction::Ready,
            GicInit::Failed(e) => GicAction::Stop(e),
        }
    }

    /// Where things stand after the access, which has read `value` if it was a read.
    pub open spec fn after(self, value: u32) -> GicInit {
        match self {
            GicInit::Start => GicInit::WaitRwp(0),
            GicInit::WaitRwp(n) => if value & 0x8000_0000 == 0 {
                GicInit::ReadWaker
            } else if n >= POLL_LIMIT {
                GicInit::Failed(IrqError::GicRwpTimeout)
            } else {
                GicInit::WaitRwp((n + 1) as u32)
            },
            GicInit::ReadWaker => GicInit::Wake(value & 0xFFFF_FFFD),
            GicInit::Wake(_) => GicInit::WaitAwake(0),
            GicInit::WaitAwake(n) => if value & 4 == 0 {
                GicInit::Group
            } else if n >= POLL_LIMIT {
                GicInit::Failed(IrqError::GicWakeTimeout)
            } else {
                GicInit::WaitAwake((n + 1) as u32)
            },
            GicInit::Group => GicInit::EnableTimer,
            GicInit::EnableTimer => GicInit::Done,
            GicInit::Done => GicInit::Done,
            GicInit::Failed(e) => GicInit::Failed(e),
        }
    }

    /// How many accesses are left at most.
    pub open spec fn fuel(self) -> int {
        match self {
            GicInit::Start => 2 * POLL_LIMIT + 8,
            GicInit::WaitRwp(n) => 2 * POLL_LIMIT + 7 - n,
            GicInit::ReadWaker => POLL_LIMIT + 6,
            GicInit::Wake(_) => POLL_LIMIT + 5,
            GicInit::WaitAwake(n) => POLL_LIMIT + 4 - n,
            GicInit::Group => 2,
            GicInit::EnableTimer => 1,
            GicInit::Done => 0,
            GicInit::Failed(_) => 0,
        }
    }

    /// The number of reads in vain is within the limit.
    pub open spec fn in_limit(self) -> bool {
        match self {
            GicInit::WaitRwp(n) => n <= POLL_LIMIT,
            GicInit::WaitAwake(n) => n <= POLL_LIMIT,
            _ => true,
        }
    }

    /// The access that comes next.
    pub fn action(self) -> (r: GicAction)
        ensures
            r == self.access(),
    {
        let gicd_ctlr = GICD_BASE + KERNEL_VA_OFFSET;
        let gicr_waker = GICR_BASE + KERNEL_VA_OFFSET + 0x14;
        let sgi = GICR_BASE + KERNEL_VA_OFFSET + 0x1_0000;
        match self {
            GicInit::Start => GicAction::Write(gicd_ctlr, 0x12),
            GicInit::WaitRwp(_) => GicAction::Read(gicd_ctlr),
            GicInit::ReadWaker => GicAction::Read(gicr_waker),
            GicInit::Wake(v) => GicAction::Write(gicr_waker, v),
            GicInit::WaitAwake(_) => GicAction::Read(gicr_waker),
            GicInit::Group => GicAction::Write(sgi + 0x80, 0xFFFF_FFFF),
            GicInit::EnableTimer => GicAction::Write(sgi + 0x100, 0x4000_0000),
            GicInit::Done => GicAction::Ready,
            GicInit::Failed(e) => GicAction::Stop(e),
        }
    }

    /// Where things stand after the access.
    pub fn next(self, value: u32) -> (r: GicInit)
        requires
            self.in_limit(),
        ensures
            r == self.after(value),
            r.in_limit(),
    {
        match self {
            GicInit::Start => GicInit::WaitRwp(0),
            GicInit::WaitRwp(n) => if value & 0x8000_0000 == 0 {
                GicInit::ReadWaker
            } else if n >= POLL_LIMIT {
                GicInit::Failed(IrqError::GicRwpTimeout)
            } else {
                GicInit::WaitRwp(n + 1)
            },
            GicInit::ReadWaker => GicInit::Wake(value & 0xFFFF_FFFD),
            GicInit::Wake(_) => GicInit::WaitAwake(0),
            GicInit::WaitAwake(n) => if value & 4 == 0 {
                GicInit::Group
            } else if n >= POLL_LIMIT {
                GicInit::Failed(IrqError::GicWakeTimeout)
            } else {
                GicInit::WaitAwake(n + 1)
            },
            GicInit::Group => GicInit::EnableTimer,
            GicInit::EnableTimer => GicInit::Done,
            GicInit::Done => GicInit::Done,
            GicInit::Failed(e) => GicInit::Failed(e),
        }
    }
}

/// Setting up the interrupt controller comes to an end, whatever is read: each access
/// brings the end nearer.
pub proof fn lemma_gic_init_ends(s: GicInit, value: u32)
    requires
        s.in_limit(),
        s.access() is Write || s.access() is Read,
    ensures
        0 <= s.after(value).fuel() < s.fuel(),
        s.after(value).in_limit(),
{
}

/// Opens the interrupt path, once the exception vectors are installed and the interrupt
/// controller, where there is one, is ready.
pub fn init(plat: Platform, vectors: &Vectors, gic: GicInit) -> (r: Result<Irq, IrqError>)
    requires
        plat == Platform::Virt ==> gic is Done || gic is Failed,
    ensures
        match r {
            Ok(irq) => {
                &&& plat == Platform::Virt ==> gic is Done
                &&& irq.unmask == (match plat {
                    Platform::Virt => 6u64,
                    Platform::Apple => 5u64,
                })
                &&& irq.unmask / 4 == 1
                &&& irq.unmask % 2 == 1 <==> plat == Platform::Apple
                &&& (irq.unmask / 2) % 2 == 1 <==> plat == Platform::Virt
            },
            Err(e) => plat == Platform::Virt && gic == GicInit::Failed(e),
        },
{
    match plat {
        Platform::Virt => match gic {
            GicInit::Failed(e) => Err(e),
            _ => Ok(Irq { unmask: 6 }),
        },
        Platform::Apple => Ok(Irq { unmask: 5 }),
    }
}

} // verus!
