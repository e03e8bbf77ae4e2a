//! What a task finds in its address space when it starts.
use vstd::prelude::*;

use crate::bytes;
use crate::mm::effects::{self, user_page, within};
use crate::mm::paging::MmuError;
use crate::mm::tree::Space;
use crate::mm::user::{self, UserPerm};
use crate::platform::Platform;
use crate::task::laws;
use crate::task::spawn::{self, LoadSeg, SegKind, SpawnError};
use crate::task::TaskState;

verus! {

/// Whether a segment reaches into a page.
pub open spec fn seg_holds(plat: Platform, seg: LoadSeg, page: int) -> bool {
    seg.va <= page * plat.page_size() < seg.va + seg.memsz
}

/// Whether one of the segments reaches into a page.
pub open spec fn one_holds(plat: Platform, segs: Seq<LoadSeg>, page: int) -> bool {
    exists|i: int| 0 <= i < segs.len() && #[trigger] seg_holds(plat, segs[i], page)
}

/// Whether a page leads to a frame as a segment of a kind is to be seen: code can be
/// executed, data written, and neither the other; all can be read.
pub open spec fn seen_as(plat: Platform, desc: u64, pa: int, kind: SegKind) -> bool {
    match kind {
        SegKind::Text => user_page(plat, desc, pa, UserPerm::TextUser),
        SegKind::Ro => user_page(plat, desc, pa, UserPerm::RoUser),
        SegKind::Rw => user_page(plat, desc, pa, UserPerm::RwUser),
    }
}

/// Whether a segment is well placed in an image: not empty, at a page boundary and
/// inside; and the entry point is not in it unless it is code.
pub open spec fn well_placed(plat: Platform, seg: LoadSeg, base: int, end: int, entry: int) -> bool {
    &&& base <= seg.va
    &&& seg.va + seg.memsz <= end
    &&& seg.va as int % plat.page_size() == 0
    &&& seg.memsz > 0
    &&& seg.va <= entry < seg.va + seg.memsz ==> seg.kind == SegKind::Text
}

/// A page starts in a range of whole pages exactly where it starts before the end of
/// what was rounded up.
proof fn lemma_rounded(plat: Platform, va: int, memsz: int, page: int)
    requires
        va % plat.page_size() == 0,
        0 <= va,
        0 < memsz,
    ensures
        ({
            let g = plat.page_size();
            let len = (memsz + g - 1) / g * g;
            &&& within(plat, page, va, va + len) <==> va <= page * g < va + memsz
            &&& len % g == 0
            &&& len > 0
        }),
{
    match plat {
        Platform::Virt => {},
        Platform::Apple => {},
    }
}

/// Loading segments into an empty address space: each was well placed, no two share a
/// page, and afterwards exactly their pages are there, each leading to its place in the
/// image as the kind of its segment asks.
pub proof fn lemma_segments(
    plat: Platform,
    s: Space,
    left: int,
    root: u64,
    frames: int,
    base: int,
    end: int,
    entry: int,
    segs: Seq<LoadSeg>,
    page: int,
)
    requires
        spawn::segs_loaded(plat, s, left, root, frames, base, end, entry, segs).answer is Ok,
        !s.leaves.contains_key((root, page)),
        0 <= frames,
        0 <= base <= end,
        base % plat.page_size() == 0,
        end % plat.page_size() == 0,
        frames + (end - base) <= 0x1_0000_0000_0000,
    ensures
        ({
            let g = plat.page_size();
            let leaves = spawn::segs_loaded(
                plat,
                s,
                left,
                root,
                frames,
                base,
                end,
                entry,
                segs,
            ).space.leaves;
            &&& forall|i: int|
                0 <= i < segs.len() ==> well_placed(plat, #[trigger] segs[i], base, end, entry)
            &&& leaves.contains_key((root, page)) <==> one_holds(plat, segs, page)
            &&& forall|i: int|
                0 <= i < segs.len() && #[trigger] seg_holds(plat, segs[i], page) ==> seen_as(
                    plat,
                    leaves[(root, page)],
                    frames + (page * g - base),
                    segs[i].kind,
                )
            &&& forall|i: int, j: int|
                0 <= i < j < segs.len() && #[trigger] seg_holds(plat, segs[i], page)
                    ==> !#[trigger] seg_holds(plat, segs[j], page)
        }),
    decreases segs.len(),
{
    let g = plat.page_size();
    if segs.len() > 0 {
        let rest = segs.drop_last();
        let n = rest.len() as int;
        let seg = segs.last();
        assert(segs[n] == seg);
        assert(forall|i: int| 0 <= i < n ==> rest[i] == #[trigger] segs[i]);
        let a = spawn::segs_loaded(plat, s, left, root, frames, base, end, entry, rest);
        assert(a.answer is Ok);
        lemma_segments(plat, s, left, root, frames, base, end, entry, rest, page);
        let len = (seg.memsz + g - 1) / g * g;
        assert(well_placed(plat, seg, base, end, entry));
        laws::lemma_seg_end(plat, seg.va as int, seg.memsz as int, base, end);
        lemma_rounded(plat, seg.va as int, seg.memsz as int, page);
        effects::lemma_user_range(
            plat,
            a.space,
            a.left as nat,
            root,
            seg.va as int,
            frames + (seg.va - base),
            len,
            seg.kind.user_perm(),
            page,
        );
        let leaves = spawn::segs_loaded(
            plat,
            s,
            left,
            root,
            frames,
            base,
            end,
            entry,
            segs,
        ).space.leaves;
        assert forall|i: int| 0 <= i < segs.len() implies well_placed(
            plat,
            #[trigger] segs[i],
            base,
            end,
            entry,
        ) by {
            if i < n {
                assert(well_placed(plat, rest[i], base, end, entry));
            }
        }
        assert(one_holds(plat, segs, page) <==> one_holds(plat, rest, page) || seg_holds(
            plat,
            seg,
            page,
        )) by {
            if one_holds(plat, rest, page) {
                let i = choose|i: int| 0 <= i < n && #[trigger] seg_holds(plat, rest[i], page);
                assert(seg_holds(plat, segs[i], page));
            }
            if seg_holds(plat, seg, page) {
                assert(seg_holds(plat, segs[n], page));
            }
            if one_holds(plat, segs, page) {
                let i = choose|i: int|
                    0 <= i < segs.len() && #[trigger] seg_holds(plat, segs[i], page);
                if i < n {
                    assert(seg_holds(plat, rest[i], page));
                }
            }
        }
        assert forall|i: int|
            0 <= i < segs.len() && #[trigger] seg_holds(plat, segs[i], page) implies seen_as(
            plat,
            leaves[(root, page)],
            frames + (page * g - base),
            segs[i].kind,
        ) by {
            if i < n {
                assert(seg_holds(plat, rest[i], page));
                assert(one_holds(plat, rest, page));
            }
        }
        assert forall|i: int, j: int|
            0 <= i < j < segs.len() && #[trigger] seg_holds(
                plat,
                segs[i],
                page,
            ) implies !#[trigger] seg_holds(plat, segs[j], page) by {
            assert(seg_holds(plat, rest[i], page));
            assert(one_holds(plat, rest, page));
        }
    }
}

/// The stack of a task: the 64 KiB below the address 256 MiB.
pub open spec fn on_stack(plat: Platform, page: int) -> bool {
    0xFFF_0000 <= page * plat.page_size() < 0x1000_0000
}

/// Whether a page is that of the boot information.
pub open spec fn is_info(plat: Platform, page: int) -> bool {
    page * plat.page_size() == 0xF00_0000
}

/// What a task that was loaded finds: its segments, its stack and the boot information
/// page, and nothing else. The segments lie in the image as their kinds ask, the stack
/// can be written, and the boot information can only be read. The image was made of
/// whole pages, the entry point is in it, and its frames come right before the root
/// table.
pub proof fn lemma_loaded(
    plat: Platform,
    s: Space,
    left: int,
    limit: int,
    len: int,
    base: int,
    entry: int,
    segs: Seq<LoadSeg>,
    info_pa: int,
    page: int,
)
    requires
        spawn::spawned(plat, s, left, limit, len, base, entry, segs, info_pa).answer is Ok,
        !s.leaves.contains_key(
            (spawn::spawned(plat, s, left, limit, len, base, entry, segs, info_pa).answer->Ok_0,
            page),
        ),
        0 <= info_pa,
        info_pa + plat.page_size() <= 0x1_0000_0000_0000,
        0 <= limit - left * plat.page_size(),
        limit <= 0x1_0000_0000_0000,
        0 <= base,
        0 <= left,
        0 <= len,
    ensures
        ({
            let g = plat.page_size();
            let out = spawn::spawned(plat, s, left, limit, len, base, entry, segs, info_pa);
            let root = out.answer->Ok_0;
            let frames = limit - left * g;
            let leaves = out.space.leaves;
            let desc = leaves[(root, page)];
            &&& base % g == 0 && len % g == 0 && len > 0 && segs.len() > 0
            &&& base <= entry < base + len
            &&& root == frames + len
            &&& forall|i: int|
                0 <= i < segs.len() ==> well_placed(
                    plat,
                    #[trigger] segs[i],
                    base,
                    base + len,
                    entry,
                )
            &&& leaves.contains_key((root, page)) <==> one_holds(plat, segs, page) || on_stack(
                plat,
                page,
            ) || is_info(plat, page)
            &&& forall|i: int|
                0 <= i < segs.len() && #[trigger] seg_holds(plat, segs[i], page) ==> seen_as(
                    plat,
                    desc,
                    frames + (page * g - base),
                    segs[i].kind,
                )
            &&& on_stack(plat, page) ==> user_page(
                plat,
                desc,
                out.stack + (page * g - 0xFFF_0000),
                UserPerm::RwUser,
            )
            &&& is_info(plat, page) ==> user_page(plat, desc, info_pa, UserPerm::RoUser)
        }),
{
    let g = plat.page_size();
    let n = len / g;
    let frames = limit - left * g;
    let root = (frames + len) as u64;
    laws::lemma_image_room(plat, left, limit, len, base);
    let a = spawn::segs_loaded(plat, s, left - n - 1, root, frames, base, base + len, entry, segs);
    laws::lemma_segs_use_frames(
        plat,
        s,
        left - n - 1,
        root,
        frames,
        base,
        base + len,
        entry,
        segs,
    );
    assert(a.answer is Ok);
    lemma_segments(plat, s, left - n - 1, root, frames, base, base + len, entry, segs, page);
    assert(0 <= len / g) by {
        match plat {
            Platform::Virt => {},
            Platform::Apple => {},
        }
    }
    laws::lemma_stack_room(plat, left, a.left, limit, 0);
    let stack_pa = limit - a.left * g;
    let rest = (a.left - 0x1_0000int / g) as nat;
    let b = user::user_mapped(
        plat,
        a.space,
        rest,
        root,
        0xFFF_0000,
        stack_pa,
        0x1_0000,
        UserPerm::RwUser,
    );
    effects::lemma_user_range(
        plat,
        a.space,
        rest,
        root,
        0xFFF_0000,
        stack_pa,
        0x1_0000,
        UserPerm::RwUser,
        page,
    );
    effects::lemma_user_range(
        plat,
        b.space,
        b.free,
        root,
        0xF00_0000,
        info_pa,
        g,
        UserPerm::RoUser,
        page,
    );
    assert(within(plat, page, 0xF00_0000, 0xF00_0000 + g) <==> is_info(plat, page)) by {
        match plat {
            Platform::Virt => {},
            Platform::Apple => {},
        }
    }
}

/// An image is refused, with nothing done, where it is not made of whole pages, has no
/// segment or leaves the address range.
pub proof fn lemma_bad_image(
    plat: Platform,
    s: Space,
    left: int,
    limit: int,
    len: int,
    base: int,
    entry: int,
    segs: Seq<LoadSeg>,
    info_pa: int,
)
    requires
        base % plat.page_size() != 0 || len % plat.page_size() != 0 || len == 0 || segs.len() == 0
            || base + len >= 0x1_0000_0000_0000_0000,
    ensures
        ({
            let out = spawn::spawned(plat, s, left, limit, len, base, entry, segs, info_pa);
            &&& out.answer == Err::<u64, SpawnError>(SpawnError::BadLayout)
            &&& out.space == s
            &&& out.left == left
        }),
{
}

/// A segment is loaded only where it is well placed. Otherwise the task is refused for
/// its layout, once the pages of the segments before it are there.
pub proof fn lemma_bad_segment(
    plat: Platform,
    s: Space,
    left: int,
    root: u64,
    frames: int,
    base: int,
    end: int,
    entry: int,
    segs: Seq<LoadSeg>,
    seg: LoadSeg,
)
    requires
        spawn::segs_loaded(plat, s, left, root, frames, base, end, entry, segs).answer is Ok,
    ensures
        ({
            let a = spawn::segs_loaded(plat, s, left, root, frames, base, end, entry, segs);
            let b = spawn::segs_loaded(
                plat,
                s,
                left,
                root,
                frames,
                base,
                end,
                entry,
                segs.push(seg),
            );
            let g = plat.page_size();
            let there = base <= seg.va && seg.va + seg.memsz <= end && seg.va as int % g == 0
                && seg.memsz > 0;
            &&& !there ==> b.space == a.space && b.left == a.left && b.answer == Err::<
                (),
                SpawnError,
            >(SpawnError::BadLayout)
            &&& !well_placed(plat, seg, base, end, entry) ==> b.answer is Err
            &&& b.answer is Err && b.answer->Err_0 is BadLayout ==> !well_placed(
                plat,
                seg,
                base,
                end,
                entry,
            )
        }),
{
    assert(segs.push(seg).drop_last() =~= segs);
}

/// The words of a frame of the image are its bytes, eight to a word, the least
/// significant first.
pub proof fn lemma_words_of_image(plat: Platform, image: Seq<u8>, off: int, j: int)
    requires
        0 <= j < plat.page_size() / 8,
    ensures
        spawn::image_frame(plat, image, off).len() == plat.page_size() / 8,
        spawn::image_frame(plat, image, off)[j] == bytes::little(image, off + 8 * j, 8),
{
    bytes::lemma_little(image, off + 8 * j);
    match plat {
        Platform::Virt => {},
        Platform::Apple => {},
    }
}

/// A task starts at its entry point with its stack, in its own address space, not
/// configured and owing nobody a reply; every other register is 0.
pub proof fn lemma_first_state(entry: u64, sp: u64, root: u64, i: int)
    requires
        0 <= i < 31,
    ensures
        ({
            let t = spawn::entry_task(entry, sp, root);
            &&& t.ctx.elr == entry
            &&& t.ctx.sp == sp
            &&& t.ctx.x.len() == 31
            &&& t.ctx.x[i] == 0
            &&& t.ctx.spsr == 0
            &&& t.ctx.tpidr == 0
            &&& t.ctx.tpidrro == 0
            &&& t.ttbr0_pa == root
            &&& t.state == TaskState::Inactive
            &&& t.reply_to == 0
        }),
{
}

/// An image that is made of whole pages is refused for want of frames where there are not
/// more left than it needs, as the root table needs one too.
pub proof fn lemma_no_room(
    plat: Platform,
    s: Space,
    left: int,
    limit: int,
    len: int,
    base: int,
    entry: int,
    segs: Seq<LoadSeg>,
    info_pa: int,
)
    requires
        base % plat.page_size() == 0,
        len % plat.page_size() == 0,
        len > 0,
        segs.len() > 0,
        base + len < 0x1_0000_0000_0000_0000,
        len / plat.page_size() >= left,
    ensures
        ({
            let out = spawn::spawned(plat, s, left, limit, len, base, entry, segs, info_pa);
            &&& out.answer == Err::<u64, SpawnError>(SpawnError::Mmu(MmuError::OutOfFrames))
            &&& out.space == s
        }),
{
}

} // verus!
