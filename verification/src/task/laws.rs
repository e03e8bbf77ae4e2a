//! What loading a task promises as a whole.
use vstd::prelude::*;

use crate::abi;
use crate::mm::laws;
use crate::mm::paging::MmuError;
use crate::mm::tree::{self, Space};
use crate::mm::user::{self, UserPerm};
use crate::mm::walk;
use crate::platform::Platform;
use crate::task::spawn::{self, LoadSeg};

verus! {

/// The descriptor of a user page.
pub open spec fn user_desc(frame: u64, perm: UserPerm) -> u64 {
    frame | perm.bits()
}

/// Whether a user page is not the null page and leads to a frame between two addresses,
/// with a permission of the user.
pub open spec fn user_page(plat: Platform, lo: int, hi: int, page: int, desc: u64) -> bool {
    &&& page != 0
    &&& exists|frame: u64, perm: UserPerm|
        {
            &&& desc == #[trigger] user_desc(frame, perm)
            &&& plat.table_addr(frame)
            &&& lo <= frame < hi
        }
}

/// Whether a change of the mappings has only added user pages, to one tree.
#[verifier::opaque]
pub open spec fn adds_user_pages(
    plat: Platform,
    s1: Space,
    s2: Space,
    root: u64,
    lo: int,
    hi: int,
) -> bool {
    forall|r: u64, page: int| #[trigger]
        s2.leaves.contains_key((r, page)) ==> {
            ||| s1.leaves.contains_key((r, page)) && s2.leaves[(r, page)] == s1.leaves[(r, page)]
            ||| r == root && user_page(plat, lo, hi, page, s2.leaves[(r, page)])
        }
}

/// Mapping a range in user space only adds user pages.
pub proof fn lemma_mapped_adds_user_pages(
    plat: Platform,
    s: Space,
    free: nat,
    root: u64,
    va: int,
    pa: int,
    len: int,
    perm: UserPerm,
    lo: int,
    hi: int,
)
    requires
        user::user_mapped(plat, s, free, root, va, pa, len, perm).answer is Ok,
        0 <= lo <= pa,
        0 <= len,
        pa + len <= hi <= tree::VA_SPAN,
    ensures
        adds_user_pages(
            plat,
            s,
            user::user_mapped(plat, s, free, root, va, pa, len, perm).space,
            root,
            lo,
            hi,
        ),
{
    reveal(adds_user_pages);
    let g = plat.page_size();
    let n = (len / g) as nat;
    let after = user::user_mapped(plat, s, free, root, va, pa, len, perm).space;
    laws::lemma_whole_pages(plat, len);
    assert forall|r: u64, page: int| #[trigger] after.leaves.contains_key((r, page)) implies {
        ||| s.leaves.contains_key((r, page)) && after.leaves[(r, page)] == s.leaves[(r, page)]
        ||| r == root && user_page(plat, lo, hi, page, after.leaves[(r, page)])
    } by {
        laws::lemma_row_shows(
            plat,
            s,
            free,
            MmuError::OutOfFrames,
            root,
            va,
            pa,
            perm.bits(),
            n,
            r,
            page,
        );
        if !(s.leaves.contains_key((r, page)) && after.leaves[(r, page)] == s.leaves[(r, page)]) {
            let desc = after.leaves[(r, page)];
            let k = choose|k: int|
                0 <= k < n && desc == #[trigger] laws::frame_desc(plat, pa, k, perm.bits());
            laws::lemma_row_frame(plat, pa, n, k);
            let frame = (pa + k * g) as u64;
            assert(desc == user_desc(frame, perm));
            let j = choose|j: int| 0 <= j < n && #[trigger] plat.page(va + j * g) == page;
            laws::lemma_row_frame(plat, va, n, j);
            let at = va + j * g;
            lemma_not_null(plat, at);
        }
    }
}

/// An address behind the first page is not in it.
proof fn lemma_not_null(plat: Platform, at: int)
    requires
        plat.page_size() <= at < tree::VA_SPAN,
    ensures
        plat.page(at) != 0,
{
    match plat {
        Platform::Virt => {},
        Platform::Apple => {},
    }
}

/// Adding user pages twice only adds user pages.
proof fn lemma_adds_twice(
    plat: Platform,
    s1: Space,
    s2: Space,
    s3: Space,
    root: u64,
    lo: int,
    hi: int,
)
    requires
        adds_user_pages(plat, s1, s2, root, lo, hi),
        adds_user_pages(plat, s2, s3, root, lo, hi),
    ensures
        adds_user_pages(plat, s1, s3, root, lo, hi),
{
    reveal(adds_user_pages);
    assert forall|r: u64, page: int| #[trigger] s3.leaves.contains_key((r, page)) implies {
        ||| s1.leaves.contains_key((r, page)) && s3.leaves[(r, page)] == s1.leaves[(r, page)]
        ||| r == root && user_page(plat, lo, hi, page, s3.leaves[(r, page)])
    } by {
        if s2.leaves.contains_key((r, page)) {
        }
    }
}

/// The end of a segment, on a page boundary, lies in the image.
pub proof fn lemma_seg_end(plat: Platform, va: int, memsz: int, base: int, image_end: int)
    requires
        va % plat.page_size() == 0,
        image_end % plat.page_size() == 0,
        0 < memsz,
        0 <= base <= va,
        va + memsz <= image_end,
    ensures
        va + (memsz + plat.page_size() - 1) / plat.page_size() * plat.page_size() <= image_end,
{
    match plat {
        Platform::Virt => {},
        Platform::Apple => {},
    }
}

/// Loading segments only adds user pages, and they lead to frames of the image.
proof fn lemma_segs_add_user_pages(
    plat: Platform,
    s: Space,
    left: int,
    root: u64,
    frames: int,
    base: int,
    image_end: int,
    entry: int,
    segs: Seq<LoadSeg>,
    hi: int,
)
    requires
        spawn::segs_loaded(plat, s, left, root, frames, base, image_end, entry, segs).answer is Ok,
        0 <= frames,
        0 <= base,
        base % plat.page_size() == 0,
        image_end % plat.page_size() == 0,
        frames + (image_end - base) <= hi <= tree::VA_SPAN,
    ensures
        adds_user_pages(
            plat,
            s,
            spawn::segs_loaded(
                plat,
                s,
                left,
                root,
                frames,
                base,
                image_end,
                entry,
                segs,
            ).space,
            root,
            frames,
            hi,
        ),
    decreases segs.len(),
{
    if segs.len() == 0 {
        reveal(adds_user_pages);
    } else {
        let a = spawn::segs_loaded(
            plat,
            s,
            left,
            root,
            frames,
            base,
            image_end,
            entry,
            segs.drop_last(),
        );
        let seg = segs.last();
        let g = plat.page_size();
        lemma_segs_add_user_pages(
            plat,
            s,
            left,
            root,
            frames,
            base,
            image_end,
            entry,
            segs.drop_last(),
            hi,
        );
        lemma_seg_end(plat, seg.va as int, seg.memsz as int, base, image_end);
        let len = (seg.memsz + g - 1) / g * g;
        assert(len >= 0) by {
            match plat {
                Platform::Virt => {},
                Platform::Apple => {},
            }
        }
        lemma_mapped_adds_user_pages(
            plat,
            a.space,
            a.left as nat,
            root,
            seg.va as int,
            frames + (seg.va - base),
            len,
            seg.kind.user_perm(),
            frames,
            hi,
        );
        let b = spawn::segs_loaded(plat, s, left, root, frames, base, image_end, entry, segs);
        lemma_adds_twice(plat, s, a.space, b.space, root, frames, hi);
    }
}

/// Mapping uses frames up and gives none back.
proof fn lemma_mapped_uses_frames(
    plat: Platform,
    s: Space,
    free: nat,
    root: u64,
    va: int,
    pa: int,
    attrs: u64,
    n: nat,
)
    ensures
        walk::map_many(plat, s, free, MmuError::OutOfFrames, root, va, pa, attrs, n).free <= free,
    decreases n,
{
    if n > 0 {
        lemma_mapped_uses_frames(plat, s, free, root, va, pa, attrs, (n - 1) as nat);
    }
}

/// Loading segments uses frames up and gives none back.
pub proof fn lemma_segs_use_frames(
    plat: Platform,
    s: Space,
    left: int,
    root: u64,
    frames: int,
    base: int,
    image_end: int,
    entry: int,
    segs: Seq<LoadSeg>,
)
    requires
        0 <= left,
    ensures
        0 <= spawn::segs_loaded(
            plat,
            s,
            left,
            root,
            frames,
            base,
            image_end,
            entry,
            segs,
        ).left <= left,
    decreases segs.len(),
{
    if segs.len() > 0 {
        let a = spawn::segs_loaded(
            plat,
            s,
            left,
            root,
            frames,
            base,
            image_end,
            entry,
            segs.drop_last(),
        );
        let seg = segs.last();
        let g = plat.page_size();
        lemma_segs_use_frames(
            plat,
            s,
            left,
            root,
            frames,
            base,
            image_end,
            entry,
            segs.drop_last(),
        );
        lemma_mapped_uses_frames(
            plat,
            a.space,
            a.left as nat,
            root,
            seg.va as int,
            frames + (seg.va - base),
            seg.kind.user_perm().bits(),
            ((seg.memsz + g - 1) / g * g / g) as nat,
        );
    }
}

/// Mapping a range in user space keeps what is mapped.
proof fn lemma_user_mapped_keeps(
    plat: Platform,
    s: Space,
    free: nat,
    root: u64,
    va: int,
    pa: int,
    len: int,
    perm: UserPerm,
)
    ensures
        laws::keeps(s, user::user_mapped(plat, s, free, root, va, pa, len, perm).space),
{
    assert forall|r: u64, page: int| #[trigger] s.leaves.contains_key((r, page)) implies {
        let after = user::user_mapped(plat, s, free, root, va, pa, len, perm).space;
        after.leaves.contains_key((r, page)) && after.leaves[(r, page)] == s.leaves[(r, page)]
    } by {
        laws::lemma_mappings_are_kept(
            plat,
            s,
            free,
            MmuError::OutOfFrames,
            root,
            va,
            pa,
            perm.bits(),
            (len / plat.page_size()) as nat,
            r,
            page,
        );
    }
}

/// Loading segments keeps what is mapped.
proof fn lemma_segs_keep(
    plat: Platform,
    s: Space,
    left: int,
    root: u64,
    frames: int,
    base: int,
    image_end: int,
    entry: int,
    segs: Seq<LoadSeg>,
)
    ensures
        laws::keeps(
            s,
            spawn::segs_loaded(
                plat,
                s,
                left,
                root,
                frames,
                base,
                image_end,
                entry,
                segs,
            ).space,
        ),
    decreases segs.len(),
{
    if segs.len() > 0 {
        let a = spawn::segs_loaded(
            plat,
            s,
            left,
            root,
            frames,
            base,
            image_end,
            entry,
            segs.drop_last(),
        );
        let seg = segs.last();
        let g = plat.page_size();
        lemma_segs_keep(
            plat,
            s,
            left,
            root,
            frames,
            base,
            image_end,
            entry,
            segs.drop_last(),
        );
        lemma_user_mapped_keeps(
            plat,
            a.space,
            a.left as nat,
            root,
            seg.va as int,
            frames + (seg.va - base),
            (seg.memsz + g - 1) / g * g,
            seg.kind.user_perm(),
        );
    }
}

/// Loading a task keeps what is mapped, whether it succeeds or not.
pub proof fn lemma_spawned_keeps(
    plat: Platform,
    s: Space,
    left: int,
    limit: int,
    len: int,
    base: int,
    entry: int,
    segs: Seq<LoadSeg>,
    bootinfo_pa: int,
)
    ensures
        laws::keeps(
            s,
            spawn::spawned(plat, s, left, limit, len, base, entry, segs, bootinfo_pa).space,
        ),
{
    let g = plat.page_size();
    let n = len / g;
    let frames = limit - left * g;
    let root = (frames + len) as u64;
    let a = spawn::segs_loaded(
        plat,
        s,
        left - n - 1,
        root,
        frames,
        base,
        base + len,
        entry,
        segs,
    );
    lemma_segs_keep(plat, s, left - n - 1, root, frames, base, base + len, entry, segs);
    let stack = spawn::USER_STACK_SIZE as int;
    let stack_va = spawn::USER_STACK_TOP - spawn::USER_STACK_SIZE;
    let rest = (a.left - stack / g) as nat;
    let stack_pa = limit - a.left * g;
    lemma_user_mapped_keeps(plat, a.space, rest, root, stack_va, stack_pa, stack, UserPerm::RwUser);
    let b = user::user_mapped(
        plat,
        a.space,
        rest,
        root,
        stack_va,
        stack_pa,
        stack,
        UserPerm::RwUser,
    );
    lemma_user_mapped_keeps(
        plat,
        b.space,
        b.free,
        root,
        abi::bootinfo::VA as int,
        bootinfo_pa,
        g,
        UserPerm::RoUser,
    );
}

/// The image and the root table have room in the frames that are left, and the image ends
/// at a page boundary.
pub proof fn lemma_image_room(plat: Platform, left: int, limit: int, len: int, base: int)
    requires
        len % plat.page_size() == 0,
        base % plat.page_size() == 0,
        0 <= len,
        len / plat.page_size() < left,
    ensures
        limit - left * plat.page_size() + len + plat.page_size() <= limit,
        (base + len) % plat.page_size() == 0,
{
    let g = plat.page_size();
    let n = len / g;
    laws::lemma_whole_pages(plat, len);
    assert(n * g + g <= left * g) by (nonlinear_arith)
        requires
            n + 1 <= left,
            g > 0,
    ;
    match plat {
        Platform::Virt => {},
        Platform::Apple => {},
    }
}

/// The stack has room in the frames that are left.
pub proof fn lemma_stack_room(plat: Platform, left: int, rest: int, limit: int, lo: int)
    requires
        lo <= limit - left * plat.page_size(),
        rest <= left,
        spawn::USER_STACK_SIZE as int / plat.page_size() <= rest,
    ensures
        lo <= limit - rest * plat.page_size(),
        limit - rest * plat.page_size() + spawn::USER_STACK_SIZE <= limit,
{
    let g = plat.page_size();
    let n = spawn::USER_STACK_SIZE as int / g;
    assert(n * g == spawn::USER_STACK_SIZE) by {
        match plat {
            Platform::Virt => {},
            Platform::Apple => {},
        }
    }
    assert(n * g <= rest * g && rest * g <= left * g) by (nonlinear_arith)
        requires
            n <= rest <= left,
            g > 0,
    ;
}

/// A task is loaded into its own address space and nowhere else, every page of it leads
/// to a frame that was set apart for it, and none is the null page.
pub proof fn lemma_spawned_adds_user_pages(
    plat: Platform,
    s: Space,
    left: int,
    limit: int,
    len: int,
    base: int,
    entry: int,
    segs: Seq<LoadSeg>,
    bootinfo_pa: int,
    lo: int,
)
    requires
        spawn::spawned(
            plat,
            s,
            left,
            limit,
            len,
            base,
            entry,
            segs,
            bootinfo_pa,
        ).answer is Ok,
        0 <= lo <= bootinfo_pa,
        bootinfo_pa + plat.page_size() <= limit,
        lo <= limit - left * plat.page_size(),
        limit <= tree::VA_SPAN,
        limit % plat.page_size() == 0,
        0 <= base,
        0 <= left,
    ensures
        ({
            let out = spawn::spawned(
                plat,
                s,
                left,
                limit,
                len,
                base,
                entry,
                segs,
                bootinfo_pa,
            );
            adds_user_pages(plat, s, out.space, out.answer->Ok_0, lo, limit)
        }),
{
    let g = plat.page_size();
    let n = len / g;
    let frames = limit - left * g;
    let root = (frames + len) as u64;
    let image_end = base + len;
    lemma_image_room(plat, left, limit, len, base);
    let a = spawn::segs_loaded(
        plat,
        s,
        left - n - 1,
        root,
        frames,
        base,
        image_end,
        entry,
        segs,
    );
    lemma_segs_add_user_pages(
        plat,
        s,
        left - n - 1,
        root,
        frames,
        base,
        image_end,
        entry,
        segs,
        limit,
    );
    lemma_wider(plat, s, a.space, root, frames, lo, limit);
    let stack = spawn::USER_STACK_SIZE as int;
    let stack_n = stack / g;
    lemma_segs_use_frames(plat, s, left - n - 1, root, frames, base, image_end, entry, segs);
    lemma_stack_room(plat, left, a.left, limit, lo);
    let b = user::user_mapped(
        plat,
        a.space,
        (a.left - stack_n) as nat,
        root,
        spawn::USER_STACK_TOP - spawn::USER_STACK_SIZE,
        limit - a.left * g,
        stack,
        UserPerm::RwUser,
    );
    lemma_mapped_adds_user_pages(
        plat,
        a.space,
        (a.left - stack_n) as nat,
        root,
        spawn::USER_STACK_TOP - spawn::USER_STACK_SIZE,
        limit - a.left * g,
        stack,
        UserPerm::RwUser,
        lo,
        limit,
    );
    lemma_adds_twice(plat, s, a.space, b.space, root, lo, limit);
    let c = user::user_mapped(
        plat,
        b.space,
        b.free,
        root,
        abi::bootinfo::VA as int,
        bootinfo_pa,
        g,
        UserPerm::RoUser,
    );
    lemma_mapped_adds_user_pages(
        plat,
        b.space,
        b.free,
        root,
        abi::bootinfo::VA as int,
        bootinfo_pa,
        g,
        UserPerm::RoUser,
        lo,
        limit,
    );
    lemma_adds_twice(plat, s, b.space, c.space, root, lo, limit);
}

/// The stack of a loaded task lies behind its image, among the frames that were left.
pub proof fn lemma_spawned_stack(
    plat: Platform,
    s: Space,
    left: int,
    limit: int,
    len: int,
    base: int,
    entry: int,
    segs: Seq<LoadSeg>,
    bootinfo_pa: int,
)
    requires
        spawn::spawned(
            plat,
            s,
            left,
            limit,
            len,
            base,
            entry,
            segs,
            bootinfo_pa,
        ).answer is Ok,
        0 <= left,
        0 <= len,
        limit % plat.page_size() == 0,
    ensures
        ({
            let out = spawn::spawned(
                plat,
                s,
                left,
                limit,
                len,
                base,
                entry,
                segs,
                bootinfo_pa,
            );
            &&& limit - left * plat.page_size() <= out.stack
            &&& out.stack + spawn::USER_STACK_SIZE <= limit
            &&& out.stack % plat.page_size() == 0
        }),
{
    let g = plat.page_size();
    let n = len / g;
    let frames = limit - left * g;
    let root = (frames + len) as u64;
    let a = spawn::segs_loaded(
        plat,
        s,
        left - n - 1,
        root,
        frames,
        base,
        base + len,
        entry,
        segs,
    );
    laws::lemma_whole_pages(plat, len);
    lemma_segs_use_frames(plat, s, left - n - 1, root, frames, base, base + len, entry, segs);
    lemma_stack_room(plat, left, a.left, limit, frames);
    vstd::arithmetic::div_mod::lemma_mod_multiples_basic(a.left, g);
    vstd::arithmetic::div_mod::lemma_sub_mod_noop(limit, a.left * g, g);
}

/// Every page of a loaded task leads to its image, to its stack or to the boot information
/// page.
pub proof fn lemma_spawned_frames(
    plat: Platform,
    s: Space,
    left: int,
    limit: int,
    len: int,
    base: int,
    entry: int,
    segs: Seq<LoadSeg>,
    bootinfo_pa: int,
    page: int,
)
    requires
        ({
            let out = spawn::spawned(
                plat,
                s,
                left,
                limit,
                len,
                base,
                entry,
                segs,
                bootinfo_pa,
            );
            &&& out.answer is Ok
            &&& out.space.leaves.contains_key((out.answer->Ok_0, page))
            &&& !s.leaves.contains_key((out.answer->Ok_0, page))
        }),
        0 <= bootinfo_pa,
        bootinfo_pa + plat.page_size() <= limit,
        0 <= limit - left * plat.page_size(),
        limit <= tree::VA_SPAN,
        limit % plat.page_size() == 0,
        0 <= base,
        0 <= left,
    ensures
        ({
            let out = spawn::spawned(
                plat,
                s,
                left,
                limit,
                len,
                base,
                entry,
                segs,
                bootinfo_pa,
            );
            let desc = out.space.leaves[(out.answer->Ok_0, page)];
            let frames = limit - left * plat.page_size();
            ||| user_page(plat, frames, frames + len, page, desc)
            ||| user_page(plat, out.stack, out.stack + spawn::USER_STACK_SIZE, page, desc)
            ||| user_page(plat, bootinfo_pa, bootinfo_pa + plat.page_size(), page, desc)
        }),
{
    reveal(adds_user_pages);
    let g = plat.page_size();
    let n = len / g;
    let frames = limit - left * g;
    let root = (frames + len) as u64;
    let image_end = base + len;
    lemma_image_room(plat, left, limit, len, base);
    let a = spawn::segs_loaded(
        plat,
        s,
        left - n - 1,
        root,
        frames,
        base,
        image_end,
        entry,
        segs,
    );
    lemma_segs_add_user_pages(
        plat,
        s,
        left - n - 1,
        root,
        frames,
        base,
        image_end,
        entry,
        segs,
        frames + len,
    );
    let stack = spawn::USER_STACK_SIZE as int;
    let stack_n = stack / g;
    let stack_pa = limit - a.left * g;
    lemma_segs_use_frames(plat, s, left - n - 1, root, frames, base, image_end, entry, segs);
    lemma_stack_room(plat, left, a.left, limit, 0);
    let b = user::user_mapped(
        plat,
        a.space,
        (a.left - stack_n) as nat,
        root,
        spawn::USER_STACK_TOP - spawn::USER_STACK_SIZE,
        stack_pa,
        stack,
        UserPerm::RwUser,
    );
    lemma_mapped_adds_user_pages(
        plat,
        a.space,
        (a.left - stack_n) as nat,
        root,
        spawn::USER_STACK_TOP - spawn::USER_STACK_SIZE,
        stack_pa,
        stack,
        UserPerm::RwUser,
        stack_pa,
        stack_pa + stack,
    );
    lemma_mapped_adds_user_pages(
        plat,
        b.space,
        b.free,
        root,
        abi::bootinfo::VA as int,
        bootinfo_pa,
        g,
        UserPerm::RoUser,
        bootinfo_pa,
        bootinfo_pa + g,
    );
    if b.space.leaves.contains_key((root, page)) {
        if a.space.leaves.contains_key((root, page)) {
        }
    }
}

/// The pages of a range are those whose addresses lie in it.
proof fn lemma_row_is_range(plat: Platform, va: int, len: int, page: int)
    requires
        va % plat.page_size() == 0,
        len % plat.page_size() == 0,
        0 <= va,
        0 <= len,
        va + len <= tree::VA_SPAN,
    ensures
        laws::in_row(plat, va, (len / plat.page_size()) as nat, page) <==> laws::range_has(
            plat,
            va,
            va + len,
            page,
        ),
{
    let g = plat.page_size();
    let n = (len / g) as nat;
    laws::lemma_whole_pages(plat, len);
    laws::lemma_whole_pages(plat, va);
    if laws::in_row(plat, va, n, page) {
        let k = choose|k: int| 0 <= k < n && #[trigger] plat.page(va + k * g) == page;
        laws::lemma_row_frame(plat, va, n, k);
        laws::lemma_whole_pages(plat, va + k * g);
    }
    if laws::range_has(plat, va, va + len, page) {
        let k = page - va / g;
        assert(k * g == page * g - va) by (nonlinear_arith)
            requires
                k == page - va / g,
                va / g * g == va,
        ;
        assert(0 <= k < n) by (nonlinear_arith)
            requires
                0 <= k * g < n * g,
                g > 0,
        ;
        assert(plat.page(va + k * g) == page) by {
            vstd::arithmetic::div_mod::lemma_div_by_multiple(page, g);
        }
    }
}

/// Mapping a range in user space maps the pages in it, and no other page of any tree.
proof fn lemma_user_mapped_pages(
    plat: Platform,
    s: Space,
    free: nat,
    root: u64,
    va: int,
    pa: int,
    len: int,
    perm: UserPerm,
    page: int,
)
    requires
        user::user_mapped(plat, s, free, root, va, pa, len, perm).answer is Ok,
        0 <= len,
    ensures
        user::user_mapped(plat, s, free, root, va, pa, len, perm).space.leaves.contains_key(
            (root, page),
        ) <==> s.leaves.contains_key((root, page)) || laws::range_has(plat, va, va + len, page),
{
    let g = plat.page_size();
    let n = (len / g) as nat;
    let bits = perm.bits();
    lemma_row_is_range(plat, va, len, page);
    laws::lemma_mapped_row_translates(
        plat,
        s,
        free,
        MmuError::OutOfFrames,
        root,
        va,
        pa,
        bits,
        n,
    );
}

/// Whether a page belongs to one of the segments.
pub open spec fn in_segs(plat: Platform, segs: Seq<LoadSeg>, page: int) -> bool {
    exists|i: int|
        0 <= i < segs.len() && laws::range_has(
            plat,
            (#[trigger] segs[i]).va as int,
            segs[i].va + segs[i].memsz,
            page,
        )
}

/// Loading segments maps the pages of the segments.
proof fn lemma_segs_map_their_pages(
    plat: Platform,
    s: Space,
    left: int,
    root: u64,
    frames: int,
    base: int,
    image_end: int,
    entry: int,
    segs: Seq<LoadSeg>,
    page: int,
)
    requires
        spawn::segs_loaded(plat, s, left, root, frames, base, image_end, entry, segs).answer is Ok,
    ensures
        spawn::segs_loaded(
            plat,
            s,
            left,
            root,
            frames,
            base,
            image_end,
            entry,
            segs,
        ).space.leaves.contains_key((root, page)) <==> s.leaves.contains_key((root, page))
            || in_segs(plat, segs, page),
    decreases segs.len(),
{
    if segs.len() > 0 {
        let init = segs.drop_last();
        let a = spawn::segs_loaded(plat, s, left, root, frames, base, image_end, entry, init);
        let seg = segs.last();
        let g = plat.page_size();
        let len = (seg.memsz + g - 1) / g * g;
        lemma_segs_map_their_pages(
            plat,
            s,
            left,
            root,
            frames,
            base,
            image_end,
            entry,
            init,
            page,
        );
        lemma_seg_pages(plat, seg.va as int, seg.memsz as int, page);
        lemma_user_mapped_pages(
            plat,
            a.space,
            a.left as nat,
            root,
            seg.va as int,
            frames + (seg.va - base),
            len,
            seg.kind.user_perm(),
            page,
        );
        if in_segs(plat, init, page) {
            let i = choose|i: int|
                0 <= i < init.len() && laws::range_has(
                    plat,
                    (#[trigger] init[i]).va as int,
                    init[i].va + init[i].memsz,
                    page,
                );
            assert(segs[i] == init[i]);
        }
        if in_segs(plat, segs, page) {
            let i = choose|i: int|
                0 <= i < segs.len() && laws::range_has(
                    plat,
                    (#[trigger] segs[i]).va as int,
                    segs[i].va + segs[i].memsz,
                    page,
                );
            if i < init.len() {
                assert(segs[i] == init[i]);
            }
        }
        if laws::range_has(plat, seg.va as int, seg.va + seg.memsz, page) {
            assert(segs[segs.len() - 1] == seg);
        }
    }
}

/// Rounding the size of a segment up to whole pages adds no page.
proof fn lemma_seg_pages(plat: Platform, va: int, memsz: int, page: int)
    requires
        va % plat.page_size() == 0,
        0 < memsz,
    ensures
        ({
            let len = (memsz + plat.page_size() - 1) / plat.page_size() * plat.page_size();
            &&& 0 <= len
            &&& laws::range_has(plat, va, va + len, page) <==> laws::range_has(
                plat,
                va,
                va + memsz,
                page,
            )
        }),
{
    match plat {
        Platform::Virt => {},
        Platform::Apple => {},
    }
}

/// A loaded task has mapped the pages of its segments, of its stack and of the boot
/// information page, and nothing else.
pub proof fn lemma_spawned_maps_its_parts(
    plat: Platform,
    s: Space,
    left: int,
    limit: int,
    len: int,
    base: int,
    entry: int,
    segs: Seq<LoadSeg>,
    bootinfo_pa: int,
    page: int,
)
    requires
        spawn::spawned(
            plat,
            s,
            left,
            limit,
            len,
            base,
            entry,
            segs,
            bootinfo_pa,
        ).answer is Ok,
    ensures
        ({
            let out = spawn::spawned(
                plat,
                s,
                left,
                limit,
                len,
                base,
                entry,
                segs,
                bootinfo_pa,
            );
            let root = out.answer->Ok_0;
            let top = spawn::USER_STACK_TOP as int;
            let info = abi::bootinfo::VA as int;
            out.space.leaves.contains_key((root, page)) <==> {
                ||| s.leaves.contains_key((root, page))
                ||| in_segs(plat, segs, page)
                ||| laws::range_has(plat, top - spawn::USER_STACK_SIZE, top, page)
                ||| laws::range_has(plat, info, info + plat.page_size(), page)
            }
        }),
{
    let g = plat.page_size();
    let n = len / g;
    let frames = limit - left * g;
    let root = (frames + len) as u64;
    let image_end = base + len;
    let a = spawn::segs_loaded(
        plat,
        s,
        left - n - 1,
        root,
        frames,
        base,
        image_end,
        entry,
        segs,
    );
    lemma_segs_map_their_pages(
        plat,
        s,
        left - n - 1,
        root,
        frames,
        base,
        image_end,
        entry,
        segs,
        page,
    );
    let stack = spawn::USER_STACK_SIZE as int;
    let stack_va = spawn::USER_STACK_TOP - spawn::USER_STACK_SIZE;
    let rest = (a.left - stack / g) as nat;
    let stack_pa = limit - a.left * g;
    let b = user::user_mapped(
        plat,
        a.space,
        rest,
        root,
        stack_va,
        stack_pa,
        stack,
        UserPerm::RwUser,
    );
    lemma_user_mapped_pages(
        plat,
        a.space,
        rest,
        root,
        stack_va,
        stack_pa,
        stack,
        UserPerm::RwUser,
        page,
    );
    lemma_user_mapped_pages(
        plat,
        b.space,
        b.free,
        root,
        abi::bootinfo::VA as int,
        bootinfo_pa,
        g,
        UserPerm::RoUser,
        page,
    );
}

/// The page below the stack.
pub open spec fn guard_page(plat: Platform) -> int {
    (spawn::USER_STACK_TOP - spawn::USER_STACK_SIZE) / plat.page_size() - 1
}

/// The page below the stack belongs neither to the stack nor to the boot information.
proof fn lemma_guard_is_apart(plat: Platform)
    ensures
        ({
            let top = spawn::USER_STACK_TOP as int;
            let info = abi::bootinfo::VA as int;
            let page = guard_page(plat);
            &&& !laws::range_has(plat, top - spawn::USER_STACK_SIZE, top, page)
            &&& !laws::range_has(plat, info, info + plat.page_size(), page)
        }),
{
    let g = plat.page_size();
    let bottom = spawn::USER_STACK_TOP - spawn::USER_STACK_SIZE;
    laws::lemma_whole_pages(plat, bottom);
    assert((bottom / g - 1) * g == bottom / g * g - g) by (nonlinear_arith);
}

/// Below the stack of a loaded task nothing is mapped, so that a stack overflow faults.
/// The exception is an image with a segment on that page: the segment is mapped there.
pub proof fn lemma_stack_guard_is_unmapped(
    plat: Platform,
    s: Space,
    left: int,
    limit: int,
    len: int,
    base: int,
    entry: int,
    segs: Seq<LoadSeg>,
    bootinfo_pa: int,
)
    requires
        ({
            let out = spawn::spawned(
                plat,
                s,
                left,
                limit,
                len,
                base,
                entry,
                segs,
                bootinfo_pa,
            );
            &&& out.answer is Ok
            &&& !s.leaves.contains_key((out.answer->Ok_0, guard_page(plat)))
        }),
        !in_segs(plat, segs, guard_page(plat)),
    ensures
        ({
            let out = spawn::spawned(
                plat,
                s,
                left,
                limit,
                len,
                base,
                entry,
                segs,
                bootinfo_pa,
            );
            !out.space.leaves.contains_key((out.answer->Ok_0, guard_page(plat)))
        }),
{
    lemma_spawned_maps_its_parts(
        plat,
        s,
        left,
        limit,
        len,
        base,
        entry,
        segs,
        bootinfo_pa,
        guard_page(plat),
    );
    lemma_guard_is_apart(plat);
}

/// Frames between two addresses lie between addresses further apart.
proof fn lemma_wider(
    plat: Platform,
    s1: Space,
    s2: Space,
    root: u64,
    lo: int,
    lower: int,
    hi: int,
)
    requires
        adds_user_pages(plat, s1, s2, root, lo, hi),
        lower <= lo,
    ensures
        adds_user_pages(plat, s1, s2, root, lower, hi),
{
    reveal(adds_user_pages);
    assert forall|r: u64, page: int| #[trigger] s2.leaves.contains_key((r, page)) implies {
        ||| s1.leaves.contains_key((r, page)) && s2.leaves[(r, page)] == s1.leaves[(r, page)]
        ||| r == root && user_page(plat, lower, hi, page, s2.leaves[(r, page)])
    } by {
        let desc = s2.leaves[(r, page)];
        if r == root && user_page(plat, lo, hi, page, desc) {
            let (frame, perm) = choose|frame: u64, perm: UserPerm|
                {
                    &&& desc == #[trigger] user_desc(frame, perm)
                    &&& plat.table_addr(frame)
                    &&& lo <= frame < hi
                };
            assert(desc == user_desc(frame, perm));
        }
    }
}

} // verus!
