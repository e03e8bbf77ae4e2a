//! Exception vectors and the report of a fatal exception.
use vstd::prelude::*;
use vstd::string::*;

use crate::arch::earlycon::{self, EarlyCon};

verus! {

/// Proof that the vector table is installed.
pub struct Vectors {
    /// The address of the table.
    pub vbar: u64,
}

/// Records that the vector table at `vbar` is installed.
pub fn install(vbar: u64) -> (r: Vectors)
    ensures
        r.vbar == vbar,
{
    Vectors { vbar }
}

/// The name of a vector.
pub open spec fn kind_text(kind: u64) -> &'static str {
    if kind == 0 {
        "sync-sp0"
    } else if kind == 1 {
        "irq-sp0"
    } else if kind == 2 {
        "fiq-sp0"
    } else if kind == 3 {
        "serror-sp0"
    } else if kind == 4 {
        "sync-spx"
    } else if kind == 5 {
        "irq-spx"
    } else if kind == 6 {
        "fiq-spx"
    } else if kind == 7 {
        "serror-spx"
    } else if kind == 8 {
        "sync-a64"
    } else if kind == 9 {
        "irq-a64"
    } else if kind == 10 {
        "fiq-a64"
    } else if kind == 11 {
        "serror-a64"
    } else if kind == 12 {
        "sync-a32"
    } else if kind == 13 {
        "irq-a32"
    } else if kind == 14 {
        "fiq-a32"
    } else if kind == 15 {
        "serror-a32"
    } else {
        "?"
    }
}

/// The name of an exception class.
pub open spec fn ec_text(ec: u64) -> &'static str {
    if ec == 0x00 {
        "unknown"
    } else if ec == 0x15 {
        "svc64"
    } else if ec == 0x18 {
        "sysreg"
    } else if ec == 0x20 {
        "iabort-lower"
    } else if ec == 0x21 {
        "iabort"
    } else if ec == 0x22 {
        "pc-align"
    } else if ec == 0x24 {
        "dabort-lower"
    } else if ec == 0x25 {
        "dabort"
    } else if ec == 0x26 {
        "sp-align"
    } else if ec == 0x2F {
        "serror"
    } else if 0x30 <= ec <= 0x34 {
        "debug"
    } else {
        "?"
    }
}

/// The name of a vector.
pub fn kind_name(kind: u64) -> (r: &'static str)
    ensures
        r == kind_text(kind),
{
    match kind {
        0 => "sync-sp0",
        1 => "irq-sp0",
        2 => "fiq-sp0",
        3 => "serror-sp0",
        4 => "sync-spx",
        5 => "irq-spx",
        6 => "fiq-spx",
        7 => "serror-spx",
        8 => "sync-a64",
        9 => "irq-a64",
        10 => "fiq-a64",
        11 => "serror-a64",
        12 => "sync-a32",
        13 => "irq-a32",
        14 => "fiq-a32",
        15 => "serror-a32",
        _ => "?",
    }
}

/// The name of an exception class.
pub fn ec_name(ec: u64) -> (r: &'static str)
    ensures
        r == ec_text(ec),
{
    if 0x30 <= ec && ec <= 0x34 {
        return "debug";
    }
    match ec {
        0x00 => "unknown",
        0x15 => "svc64",
        0x18 => "sysreg",
        0x20 => "iabort-lower",
        0x21 => "iabort",
        0x22 => "pc-align",
        0x24 => "dabort-lower",
        0x25 => "dabort",
        0x26 => "sp-align",
        0x2F => "serror",
        _ => "?",
    }
}

/// The exception class in a syndrome.
pub open spec fn class_of(esr: u64) -> u64 {
    (esr >> 26) & 0x3F
}

/// The report of a fatal exception.
pub open spec fn report(kind: u64, esr: u64, elr: u64, far: u64, spsr: u64) -> Seq<u8> {
    earlycon::text("k0: EXCEPTION ") + earlycon::text(kind_text(kind)) + earlycon::text(
        "\nk0: esr = ",
    ) + earlycon::hex_sent(esr) + earlycon::text(" ec ") + earlycon::text(ec_text(class_of(esr)))
        + earlycon::text("\nk0: elr = ") + earlycon::hex_sent(elr) + earlycon::text(" far = ")
        + earlycon::hex_sent(far) + earlycon::text(" spsr = ") + earlycon::hex_sent(spsr)
        + earlycon::text("\n")
}

/// Reports a fatal exception: the vector it came through and its syndrome.
pub fn exception_fatal(con: &mut EarlyCon, kind: u64, esr: u64, elr: u64, far: u64, spsr: u64)
    ensures
        final(con)@ == old(con)@ + report(kind, esr, elr, far, spsr),
        final(con).same_port(old(con)),
{
    let ec = (esr >> 26) & 0x3F;
    con.put_str("k0: EXCEPTION ");
    con.put_str(kind_name(kind));
    con.put_str("\nk0: esr = ");
    con.put_hex(esr);
    con.put_str(" ec ");
    con.put_str(ec_name(ec));
    con.put_str("\nk0: elr = ");
    con.put_hex(elr);
    con.put_str(" far = ");
    con.put_hex(far);
    con.put_str(" spsr = ");
    con.put_hex(spsr);
    con.put_str("\n");
    assert(con@ =~= old(con)@ + report(kind, esr, elr, far, spsr));
}

} // verus!
