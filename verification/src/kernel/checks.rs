//! Laws of the checks that the kernel makes on itself, and of its layout.
use vstd::prelude::*;

use crate::kernel::init::{self, Image};
use crate::kernel::selfcheck::{self, Access, Probe};
use crate::mm::paging::KernelLayout;
use crate::platform::Platform;
use crate::task::spawn::{LoadSeg, SegKind};

verus! {

/// What the kernel can do at an address: it reads code, constants and data, and writes
/// only data, which is the stack here; below the stack is nothing. Code is also to be seen
/// at its physical address.
pub open spec fn kernel_can(
    plat: Platform,
    text: u64,
    rodata: u64,
    stack_bottom: u64,
    stack_top: u64,
    access: Access,
    va: u64,
) -> bool {
    if stack_bottom - plat.page_size() <= va < stack_bottom {
        false
    } else if stack_bottom <= va < stack_top {
        access == Access::Read || access == Access::Write
    } else {
        (va == text || va == rodata || va == text - 0xFFFF_0000_0000_0000) && access == Access::Read
    }
}

/// Every check of the kernel address space asks for what the kernel should be able to do,
/// and there are checks of reading and of writing code, of writing constants, of the page
/// below the stack, of the stack, and of code at its physical address.
pub proof fn lemma_kernel_checks(
    plat: Platform,
    text: u64,
    rodata: u64,
    stack_bottom: u64,
    stack_top: u64,
    i: int,
)
    requires
        0xFFFF_0000_0000_0000 <= text < rodata,
        rodata < stack_bottom - plat.page_size(),
        stack_bottom + plat.page_size() <= stack_top,
        0 <= i < selfcheck::kernel_checks(plat, text, rodata, stack_bottom, stack_top).len(),
    ensures
        ({
            let c = selfcheck::kernel_checks(plat, text, rodata, stack_bottom, stack_top);
            let asks = |a: Access, from: int, to: int|
                exists|k: int|
                    0 <= k < c.len() && (#[trigger] c[k]).access == a && from <= c[k].va < to;
            &&& c[i].want == kernel_can(
                plat,
                text,
                rodata,
                stack_bottom,
                stack_top,
                c[i].access,
                c[i].va,
            )
            &&& asks(Access::Read, text as int, text + 1)
            &&& asks(Access::Write, text as int, text + 1)
            &&& asks(Access::Write, rodata as int, rodata + 1)
            &&& asks(Access::Read, stack_bottom - plat.page_size(), stack_bottom as int)
            &&& asks(Access::Write, stack_bottom as int, stack_top as int)
            &&& asks(
                Access::Read,
                text - 0xFFFF_0000_0000_0000,
                text - 0xFFFF_0000_0000_0000 + 1,
            )
        }),
{
    let c = selfcheck::kernel_checks(plat, text, rodata, stack_bottom, stack_top);
    assert(c.len() == 6);
    assert(c[0].va == text && c[0].access == Access::Read);
    assert(c[1].va == text && c[1].access == Access::Write);
    assert(c[2].va == rodata && c[2].access == Access::Write);
    assert(c[3].va == stack_bottom - plat.page_size() && c[3].access == Access::Read);
    assert(c[4].va == stack_top - plat.page_size() && c[4].access == Access::Write);
    assert(c[5].va == text - 0xFFFF_0000_0000_0000 && c[5].access == Access::Read);
}

/// What can be done at an address once the root task is there: the user reads its code,
/// its stack and the boot information and writes only the stack; below the stack is
/// nothing; the kernel is not for the user, and the kernel is not to be seen at physical
/// addresses any more. The kernel reads user code only where the ban is not asked about.
pub open spec fn user_can(plat: Platform, text: u64, access: Access, va: u64) -> bool {
    if 0xFFF_0000 <= va < 0x1000_0000 {
        access == Access::UserRead || access == Access::UserWrite
    } else if 0xFFF_0000 - plat.page_size() <= va < 0xFFF_0000 {
        false
    } else if va == text {
        access == Access::UserRead || access == Access::Read
    } else if va == 0xF00_0000 {
        access == Access::UserRead
    } else {
        false
    }
}

/// Every check of the user address space asks for what should be possible, and there are
/// checks of reading and writing code, of the stack, of the page below it, of the kernel,
/// of reading and writing the boot information, and of the kernel at user code.
pub proof fn lemma_user_checks(plat: Platform, text: u64, ktext: u64, pan2: bool, i: int)
    requires
        text < 0xF00_0000,
        0xFFFF_0000_4000_0000 <= ktext,
        0 <= i < selfcheck::user_checks(plat, text, ktext, pan2).len(),
    ensures
        ({
            let c = selfcheck::user_checks(plat, text, ktext, pan2);
            let asks = |a: Access, from: int, to: int|
                exists|k: int|
                    0 <= k < c.len() && (#[trigger] c[k]).access == a && from <= c[k].va < to;
            &&& c[i].want == user_can(plat, text, c[i].access, c[i].va)
            &&& asks(Access::UserRead, text as int, text + 1)
            &&& asks(Access::UserWrite, text as int, text + 1)
            &&& asks(Access::UserWrite, 0xFFF_0000, 0x1000_0000)
            &&& asks(Access::UserRead, 0xFFF_0000 - plat.page_size(), 0xFFF_0000)
            &&& asks(Access::UserRead, ktext as int, ktext + 1)
            &&& asks(Access::UserRead, 0xF00_0000, 0xF00_0001)
            &&& asks(Access::UserWrite, 0xF00_0000, 0xF00_0001)
            &&& pan2 ==> asks(Access::ReadPan, text as int, text + 1)
            &&& !pan2 ==> asks(Access::Read, text as int, text + 1)
            &&& asks(
                Access::Read,
                ktext - 0xFFFF_0000_0000_0000,
                ktext - 0xFFFF_0000_0000_0000 + 1,
            )
        }),
{
    let c = selfcheck::user_checks(plat, text, ktext, pan2);
    assert(c.len() == 9);
    assert(c[0].va == text && c[0].access == Access::UserRead);
    assert(c[1].va == text && c[1].access == Access::UserWrite);
    assert(c[2].va == 0x1000_0000 - plat.page_size() && c[2].access == Access::UserWrite);
    assert(c[3].va == 0xFFF_0000 - plat.page_size() && c[3].access == Access::UserRead);
    assert(c[4].va == ktext && c[4].access == Access::UserRead);
    assert(c[5].va == 0xF00_0000 && c[5].access == Access::UserRead);
    assert(c[6].va == 0xF00_0000 && c[6].access == Access::UserWrite);
    assert(c[7].va == text);
    assert(c[8].va == ktext - 0xFFFF_0000_0000_0000 && c[8].access == Access::Read);
}

/// The code that is checked is the first segment that is code, if there is one.
pub proof fn lemma_checked_code(segs: Seq<LoadSeg>)
    ensures
        selfcheck::text_of(segs) is None <==> forall|i: int|
            0 <= i < segs.len() ==> (#[trigger] segs[i]).kind != SegKind::Text,
        selfcheck::text_of(segs) is Some ==> exists|i: int|
            {
                &&& 0 <= i < segs.len()
                &&& (#[trigger] segs[i]).kind == SegKind::Text
                &&& segs[i].va == selfcheck::text_of(segs)->0
                &&& forall|j: int| 0 <= j < i ==> (#[trigger] segs[j]).kind != SegKind::Text
            },
    decreases segs.len(),
{
    if segs.len() > 0 {
        let rest = segs.skip(1);
        lemma_checked_code(rest);
        assert(forall|i: int| 0 <= i < rest.len() ==> segs[i + 1] == #[trigger] rest[i]);
        assert(forall|i: int| 0 < i < segs.len() ==> #[trigger] segs[i] == rest[i - 1]);
        if segs[0].kind != SegKind::Text && selfcheck::text_of(segs) is Some {
            let i = choose|i: int|
                {
                    &&& 0 <= i < rest.len()
                    &&& (#[trigger] rest[i]).kind == SegKind::Text
                    &&& rest[i].va == selfcheck::text_of(rest)->0
                    &&& forall|j: int| 0 <= j < i ==> (#[trigger] rest[j]).kind != SegKind::Text
                };
            assert(segs[i + 1].kind == SegKind::Text);
            assert forall|j: int| 0 <= j < i + 1 implies (#[trigger] segs[j]).kind
                != SegKind::Text by {
                if j > 0 {
                    assert(segs[j] == rest[j - 1]);
                }
            }
        }
    }
}

/// The verdict is good exactly where no check came out other than it should, and then no
/// failure is told.
pub proof fn lemma_verdict(label: &str, probes: Seq<Probe>, got: Seq<bool>)
    requires
        probes.len() == got.len(),
    ensures
        selfcheck::all_as_wanted(probes, got) <==> forall|i: int|
            0 <= i < probes.len() ==> ((#[trigger] probes[i]).want <==> got[i]),
        selfcheck::all_as_wanted(probes, got) ==> selfcheck::failures(label, probes, got).len()
            == 0,
    decreases probes.len(),
{
    if probes.len() > 0 {
        let ps = probes.drop_last();
        let gs = got.drop_last();
        lemma_verdict(label, ps, gs);
        assert(probes.last() == probes[probes.len() - 1]);
        if selfcheck::all_as_wanted(probes, got) {
            assert forall|i: int| 0 <= i < ps.len() implies gs[i] == (#[trigger] ps[i]).want by {
                assert(got[i] == probes[i].want);
            }
        }
    }
}

/// Every byte of the kernel image up to the top of the stack belongs to one part of the
/// layout, but for the page below the stack, which belongs to none.
pub proof fn lemma_layout(
    layout: &KernelLayout,
    plat: Platform,
    image: Image,
    dtb_start: int,
    dtb_end: int,
    p: int,
)
    requires
        init::is_layout(layout, plat, image, dtb_start, dtb_end),
        image.laid_out(plat),
    ensures
        ({
            let text = layout.text.start <= p < layout.text.end;
            let rodata = layout.rodata.start <= p < layout.rodata.end;
            let data = layout.rw[0].start <= p < layout.rw[0].end;
            let stack = layout.rw[1].start <= p < layout.rw[1].end;
            let g = plat.page_size();
            &&& text <==> image.text <= p < image.rodata
            &&& rodata <==> image.rodata <= p < image.data
            &&& data <==> image.data <= p < image.stack_bottom - g
            &&& stack <==> image.stack_bottom <= p < image.stack_top
            &&& layout.dtb.start <= p < layout.dtb.end <==> dtb_start <= p < dtb_end
            &&& image.stack_bottom - g <= p < image.stack_bottom ==> !text && !rodata && !data
                && !stack
            &&& image.text <= p < image.stack_top && (p < image.stack_bottom - g || image.stack_bottom
                <= p) ==> text || rodata || data || stack
            &&& image.data <= image.tables && image.tables + 24 * g <= image.stack_bottom - g
        }),
{
}

} // verus!
