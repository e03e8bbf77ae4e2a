//! Self checks of the address spaces: what the processor should and should not be able
//! to reach, and the verdict on what it can.
use vstd::prelude::*;
use vstd::string::*;

use crate::abi;
use crate::arch::earlycon::{self, EarlyCon};
use crate::platform::Platform;
use crate::task::spawn::{self, LoadSeg, SegKind};

verus! {

/// A way to reach an address.
#[derive(Clone, Copy, Debug, PartialEq, Eq, Structural)]
pub enum Access {
    Read,
    Write,
    /// A read by the kernel that respects the ban on user memory.
    ReadPan,
    UserRead,
    UserWrite,
}

/// A check: whether an access to an address should be possible.
#[derive(Clone, Copy, Debug)]
pub struct Probe {
    pub name: &'static str,
    pub access: Access,
    pub va: u64,
    pub want: bool,
}

/// Whether the processor could translate an address: bit 0 of its answer tells that it
/// could not.
pub fn translated(par: u64) -> (r: bool)
    ensures
        r == (par & 1 == 0),
        r <==> par % 2 == 0,
{
    assert(par & 1 == par % 2) by (bit_vector);
    par & 1 == 0
}

/// The checks of the kernel address space.
pub open spec fn kernel_checks(
    plat: Platform,
    text: u64,
    rodata: u64,
    stack_bottom: u64,
    stack_top: u64,
) -> Seq<Probe> {
    let g = plat.page_size();
    seq![
        Probe { name: "text+r", access: Access::Read, va: text, want: true },
        Probe { name: "text+w", access: Access::Write, va: text, want: false },
        Probe { name: "rodata+w", access: Access::Write, va: rodata, want: false },
        Probe {
            name: "guard+r",
            access: Access::Read,
            va: (stack_bottom - g) as u64,
            want: false,
        },
        Probe { name: "stack+w", access: Access::Write, va: (stack_top - g) as u64, want: true },
        Probe {
            name: "id+r",
            access: Access::Read,
            va: (text - abi::KERNEL_VA_OFFSET) as u64,
            want: true,
        },
    ]
}

/// The checks of the kernel address space, by addresses in the upper half.
pub fn kernel_probes(plat: Platform, text: u64, rodata: u64, stack_bottom: u64, stack_top: u64) -> (r:
    Vec<Probe>)
    requires
        text >= abi::KERNEL_VA_OFFSET,
        stack_bottom >= plat.page_size(),
        stack_top >= plat.page_size(),
    ensures
        r@ == kernel_checks(plat, text, rodata, stack_bottom, stack_top),
{
    let g = plat.granule();
    let mut v: Vec<Probe> = Vec::new();
    v.push(Probe { name: "text+r", access: Access::Read, va: text, want: true });
    v.push(Probe { name: "text+w", access: Access::Write, va: text, want: false });
    v.push(Probe { name: "rodata+w", access: Access::Write, va: rodata, want: false });
    v.push(Probe { name: "guard+r", access: Access::Read, va: stack_bottom - g, want: false });
    v.push(Probe { name: "stack+w", access: Access::Write, va: stack_top - g, want: true });
    v.push(
        Probe {
            name: "id+r",
            access: Access::Read,
            va: text - abi::KERNEL_VA_OFFSET,
            want: true,
        },
    );
    assert(v@ =~= kernel_checks(plat, text, rodata, stack_bottom, stack_top));
    v
}

/// The address of the first segment that is code.
pub open spec fn text_of(segs: Seq<LoadSeg>) -> Option<u64>
    decreases segs.len(),
{
    if segs.len() == 0 {
        None
    } else if segs[0].kind == SegKind::Text {
        Some(segs[0].va)
    } else {
        text_of(segs.skip(1))
    }
}

/// The checks of the user address space, for code at `text`.
///
/// Where the processor can be asked with the ban on user memory taken into account, the
/// kernel must not reach user code; otherwise only the permissions of the page can be
/// asked for, and those let the kernel read it.
pub open spec fn user_checks(plat: Platform, text: u64, ktext: u64, pan2: bool) -> Seq<Probe> {
    let g = plat.page_size();
    let stack_top = spawn::USER_STACK_TOP;
    seq![
        Probe { name: "utext+r", access: Access::UserRead, va: text, want: true },
        Probe { name: "utext+w", access: Access::UserWrite, va: text, want: false },
        Probe {
            name: "ustack+w",
            access: Access::UserWrite,
            va: (stack_top - g) as u64,
            want: true,
        },
        Probe {
            name: "uguard+r",
            access: Access::UserRead,
            va: (stack_top - spawn::USER_STACK_SIZE - g) as u64,
            want: false,
        },
        Probe { name: "ktext+u", access: Access::UserRead, va: ktext, want: false },
        Probe { name: "binfo+r", access: Access::UserRead, va: abi::bootinfo::VA, want: true },
        Probe { name: "binfo+w", access: Access::UserWrite, va: abi::bootinfo::VA, want: false },
        if pan2 {
            Probe { name: "utext+kp", access: Access::ReadPan, va: text, want: false }
        } else {
            Probe { name: "utext+k", access: Access::Read, va: text, want: true }
        },
        Probe {
            name: "id+r",
            access: Access::Read,
            va: (ktext - abi::KERNEL_VA_OFFSET) as u64,
            want: false,
        },
    ]
}

/// The checks of the user address space, or none where no segment is code.
pub fn user_probes(plat: Platform, segs: &[LoadSeg], ktext: u64, pan2: bool) -> (r: Option<
    Vec<Probe>,
>)
    requires
        ktext >= abi::KERNEL_VA_OFFSET,
    ensures
        match (r, text_of(segs@)) {
            (Some(v), Some(text)) => v@ == user_checks(plat, text, ktext, pan2),
            (None, None) => true,
            _ => false,
        },
{
    let mut i: usize = 0;
    assert(segs@.skip(0) =~= segs@);
    while i < segs.len()
        invariant
            i <= segs.len(),
            ktext >= abi::KERNEL_VA_OFFSET,
            text_of(segs@) == text_of(segs@.skip(i as int)),
        decreases segs.len() - i,
    {
        assert(segs@.skip(i as int)[0] == segs@[i as int]);
        assert(segs@.skip(i as int).skip(1) =~= segs@.skip(i + 1));
        if segs[i].kind == SegKind::Text {
            return Some(user_probes_at(plat, segs[i].va, ktext, pan2));
        }
        i += 1;
    }
    None
}

fn user_probes_at(plat: Platform, text: u64, ktext: u64, pan2: bool) -> (r: Vec<Probe>)
    requires
        ktext >= abi::KERNEL_VA_OFFSET,
    ensures
        r@ == user_checks(plat, text, ktext, pan2),
{
    let g = plat.granule();
    let stack_top = spawn::USER_STACK_TOP;
    let guard = stack_top - spawn::USER_STACK_SIZE - g;
    let mut v: Vec<Probe> = Vec::new();
    v.push(Probe { name: "utext+r", access: Access::UserRead, va: text, want: true });
    v.push(Probe { name: "utext+w", access: Access::UserWrite, va: text, want: false });
    v.push(Probe { name: "ustack+w", access: Access::UserWrite, va: stack_top - g, want: true });
    v.push(Probe { name: "uguard+r", access: Access::UserRead, va: guard, want: false });
    v.push(Probe { name: "ktext+u", access: Access::UserRead, va: ktext, want: false });
    v.push(
        Probe { name: "binfo+r", access: Access::UserRead, va: abi::bootinfo::VA, want: true },
    );
    v.push(
        Probe { name: "binfo+w", access: Access::UserWrite, va: abi::bootinfo::VA, want: false },
    );
    v.push(
        if pan2 {
            Probe { name: "utext+kp", access: Access::ReadPan, va: text, want: false }
        } else {
            Probe { name: "utext+k", access: Access::Read, va: text, want: true }
        },
    );
    v.push(
        Probe {
            name: "id+r",
            access: Access::Read,
            va: ktext - abi::KERNEL_VA_OFFSET,
            want: false,
        },
    );
    assert(v@ =~= user_checks(plat, text, ktext, pan2));
    v
}

/// How a truth value is written.
pub open spec fn bool_text(b: bool) -> Seq<u8> {
    if b {
        earlycon::text("true")
    } else {
        earlycon::text("false")
    }
}

/// What is said of a failed check.
pub open spec fn failure_text(label: &str, p: Probe, got: bool) -> Seq<u8> {
    earlycon::text(label) + earlycon::text(p.name) + earlycon::text(" (got ") + bool_text(got)
        + earlycon::text(", want ") + bool_text(p.want) + earlycon::text(")\n")
}

/// What is said of the failed checks, in order.
pub open spec fn failures(label: &str, probes: Seq<Probe>, got: Seq<bool>) -> Seq<u8>
    decreases probes.len(),
{
    if probes.len() == 0 {
        Seq::empty()
    } else {
        let before = failures(label, probes.drop_last(), got.drop_last());
        if got.last() != probes.last().want {
            before + failure_text(label, probes.last(), got.last())
        } else {
            before
        }
    }
}

/// Whether every check has the result it should have.
pub open spec fn all_as_wanted(probes: Seq<Probe>, got: Seq<bool>) -> bool {
    forall|i: int| 0 <= i < probes.len() ==> got[i] == (#[trigger] probes[i]).want
}

fn put_bool(con: &mut EarlyCon, b: bool)
    ensures
        final(con)@ == old(con)@ + bool_text(b),
        final(con).same_port(old(con)),
{
    if b {
        con.put_str("true");
    } else {
        con.put_str("false");
    }
}

/// Reports a check that failed.
fn put_failure(con: &mut EarlyCon, label: &str, p: Probe, got: bool)
    ensures
        final(con)@ == old(con)@ + failure_text(label, p, got),
        final(con).same_port(old(con)),
{
    con.put_str(label);
    con.put_str(p.name);
    con.put_str(" (got ");
    put_bool(con, got);
    con.put_str(", want ");
    put_bool(con, p.want);
    con.put_str(")\n");
    assert(con@ =~= old(con)@ + failure_text(label, p, got));
}

/// Reports every check that failed, and tells whether none did.
fn verdict(con: &mut EarlyCon, label: &str, probes: &[Probe], got: &[bool]) -> (r: bool)
    requires
        probes@.len() == got@.len(),
    ensures
        final(con)@ == old(con)@ + failures(label, probes@, got@),
        final(con).same_port(old(con)),
        r == all_as_wanted(probes@, got@),
{
    let mut ok = true;
    let mut i: usize = 0;
    assert(con@ =~= old(con)@ + failures(label, probes@.take(0), got@.take(0)));
    while i < probes.len()
        invariant
            i <= probes.len(),
            probes@.len() == got@.len(),
            con@ == old(con)@ + failures(label, probes@.take(i as int), got@.take(i as int)),
            con.same_port(old(con)),
            ok == (forall|j: int| 0 <= j < i ==> got@[j] == (#[trigger] probes@[j]).want),
        decreases probes.len() - i,
    {
        let ghost was = con@;
        let p = probes[i];
        let g = got[i];
        if g != p.want {
            ok = false;
            assert(got@[i as int] != probes@[i as int].want);
            put_failure(con, label, p, g);
        }
        i += 1;
        proof {
            let ps = probes@.take(i as int);
            let gs = got@.take(i as int);
            assert(ps.drop_last() =~= probes@.take(i - 1));
            assert(gs.drop_last() =~= got@.take(i - 1));
            assert(con@ =~= old(con)@ + failures(label, ps, gs));
        }
    }
    assert(probes@.take(probes@.len() as int) =~= probes@);
    assert(got@.take(got@.len() as int) =~= got@);
    ok
}

/// What is said once the kernel address space has been checked.
pub open spec fn kernel_verdict(plat: Platform, probes: Seq<Probe>, got: Seq<bool>) -> Seq<u8> {
    failures("k0: w^x check fail: ", probes, got) + if all_as_wanted(probes, got) {
        earlycon::text("k0: w^x checks pass (granule ") + earlycon::dec_sent(
            (plat.page_size() / 1024) as u64,
        ) + earlycon::text("K, wxn)\n")
    } else {
        Seq::empty()
    }
}

/// Judges the kernel address space by what the checks gave.
///
/// An address space that is not as it should be cannot be trusted: the machine must stop
/// where this is false.
pub fn check_wx(con: &mut EarlyCon, plat: Platform, probes: &[Probe], got: &[bool]) -> (r: bool)
    requires
        probes@.len() == got@.len(),
    ensures
        r == all_as_wanted(probes@, got@),
        final(con)@ == old(con)@ + kernel_verdict(plat, probes@, got@),
        final(con).same_port(old(con)),
{
    let ok = verdict(con, "k0: w^x check fail: ", probes, got);
    if ok {
        con.put_str("k0: w^x checks pass (granule ");
        con.put_dec(plat.granule() / 1024);
        con.put_str("K, wxn)\n");
    }
    assert(con@ =~= old(con)@ + kernel_verdict(plat, probes@, got@));
    ok
}

/// What is said once the user address space has been checked.
pub open spec fn user_verdict(probes: Seq<Probe>, got: Seq<bool>) -> Seq<u8> {
    failures("k0: user w^x check fail: ", probes, got) + if all_as_wanted(probes, got) {
        earlycon::text("k0: user w^x checks pass\n")
    } else {
        Seq::empty()
    }
}

/// Judges the user address space by what the checks gave.
pub fn check_user_wx(con: &mut EarlyCon, probes: &[Probe], got: &[bool]) -> (r: bool)
    requires
        probes@.len() == got@.len(),
    ensures
        r == all_as_wanted(probes@, got@),
        final(con)@ == old(con)@ + user_verdict(probes@, got@),
        final(con).same_port(old(con)),
{
    let ok = verdict(con, "k0: user w^x check fail: ", probes, got);
    if ok {
        con.put_str("k0: user w^x checks pass\n");
    }
    assert(con@ =~= old(con)@ + user_verdict(probes@, got@));
    ok
}

} // verus!
