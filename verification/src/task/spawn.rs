//! Loading the root task.
//!
//! The image of the root task is copied into frames in a row and mapped segment by
//! segment, with a stack and the boot information page. Unless a segment lies there,
//! nothing is mapped below the stack, so that a stack overflow faults.
use vstd::prelude::*;

use crate::abi;
use crate::arch::usermode::{Context, ContextView};
use crate::bytes;
use crate::mm::mem::{self, PhysMem};
use crate::mm::paging::MmuError;
use crate::mm::tree::Space;
use crate::mm::user::{self, FrameAlloc, UserPerm, UserSpace};
use crate::mm::walk::{self, TableSource};
use crate::platform::Platform;
use crate::task::{TaskState, TaskView, Tcb};

verus! {

/// Top of the user stack, which grows down.
pub const USER_STACK_TOP: u64 = 0x1000_0000;

/// Size of the user stack.
pub const USER_STACK_SIZE: u64 = 0x1_0000;

/// What a segment is for.
#[derive(Clone, Copy, Debug, PartialEq, Eq, Structural)]
pub enum SegKind {
    Text,
    Ro,
    Rw,
}

impl SegKind {
    /// The permission that the pages of the segment get.
    pub open spec fn user_perm(self) -> UserPerm {
        match self {
            SegKind::Text => UserPerm::TextUser,
            SegKind::Ro => UserPerm::RoUser,
            SegKind::Rw => UserPerm::RwUser,
        }
    }

    /// The permission that the pages of the segment get.
    pub fn perm(self) -> (r: UserPerm)
        ensures
            r == self.user_perm(),
    {
        match self {
            SegKind::Text => UserPerm::TextUser,
            SegKind::Ro => UserPerm::RoUser,
            SegKind::Rw => UserPerm::RwUser,
        }
    }
}

/// A segment to be loaded.
#[derive(Clone, Copy, Debug, PartialEq, Eq, Structural)]
pub struct LoadSeg {
    pub va: u64,
    pub memsz: u64,
    pub kind: SegKind,
}

/// Why a task could not be loaded.
#[derive(Clone, Copy, Debug, PartialEq, Eq, Structural)]
pub enum SpawnError {
    BadLayout,
    Mmu(MmuError),
}

impl From<MmuError> for SpawnError {
    fn from(e: MmuError) -> (r: Self) {
        SpawnError::Mmu(e)
    }
}

impl vstd::std_specs::convert::FromSpecImpl<MmuError> for SpawnError {
    open spec fn obeys_from_spec() -> bool {
        true
    }

    open spec fn from_spec(e: MmuError) -> Self {
        SpawnError::Mmu(e)
    }
}

/// The words of the image from `off` on that fill one frame.
pub open spec fn image_frame(plat: Platform, image: Seq<u8>, off: int) -> Seq<u64> {
    Seq::new(plat.table_len() as nat, |j: int| bytes::le64_at(image, off + 8 * j) as u64)
}

/// The address of the `k`th frame in a row.
pub open spec fn nth_frame(plat: Platform, first: int, k: int) -> u64 {
    (first + k * plat.page_size()) as u64
}

/// Whether the frames in a row from `first` on hold the image.
pub open spec fn holds_image(
    plat: Platform,
    m: Map<u64, Seq<u64>>,
    first: int,
    image: Seq<u8>,
) -> bool {
    forall|k: int|
        0 <= k < image.len() as int / plat.page_size() ==> {
            &&& m.contains_key(#[trigger] nth_frame(plat, first, k))
            &&& m[nth_frame(plat, first, k)] == image_frame(plat, image, k * plat.page_size())
        }
}

/// Whether `n` frames in a row from `first` on hold zeros.
pub open spec fn holds_zeros(
    plat: Platform,
    m: Map<u64, Seq<u64>>,
    first: int,
    n: int,
) -> bool {
    forall|t: u64| #[trigger]
        user::in_frames(plat, first, n, t) ==> m.contains_key(t) && m[t] == mem::zeros(plat)
}

/// Whether none of `n` frames in a row from `first` on is a table.
pub open spec fn no_tables(m: &PhysMem, first: int, n: int) -> bool {
    forall|t: u64| #[trigger]
        user::in_frames(m.platform(), first, n, t) ==> !m.homes().contains_key(t)
}

/// Where the loading of the segments stands.
pub struct Loading {
    pub space: Space,
    pub left: int,
    pub answer: Result<(), SpawnError>,
}

/// What loading one segment more does. The segment must lie in the image, start at a
/// page and not be empty, and the entry point must not be in it unless it is text.
pub open spec fn seg_loaded(
    plat: Platform,
    a: Loading,
    root: u64,
    frames: int,
    base: int,
    image_end: int,
    entry: int,
    seg: LoadSeg,
) -> Loading {
    let g = plat.page_size();
    if a.answer is Err {
        a
    } else if seg.va < base || seg.va + seg.memsz > image_end || seg.va as int % g != 0
        || seg.memsz == 0 {
        Loading { answer: Err(SpawnError::BadLayout), ..a }
    } else {
        let b = user::user_mapped(
            plat,
            a.space,
            a.left as nat,
            root,
            seg.va as int,
            frames + (seg.va - base),
            (seg.memsz + g - 1) / g * g,
            seg.kind.user_perm(),
        );
        let answer = match b.answer {
            Err(e) => Err(SpawnError::Mmu(e)),
            Ok(_) => if seg.va <= entry < seg.va + seg.memsz && seg.kind != SegKind::Text {
                Err(SpawnError::BadLayout)
            } else {
                Ok(())
            },
        };
        Loading { space: b.space, left: b.free as int, answer }
    }
}

/// What loading the segments does, one after the other up to the first failure.
pub open spec fn segs_loaded(
    plat: Platform,
    s: Space,
    left: int,
    root: u64,
    frames: int,
    base: int,
    image_end: int,
    entry: int,
    segs: Seq<LoadSeg>,
) -> Loading
    decreases segs.len(),
{
    if segs.len() == 0 {
        Loading { space: s, left, answer: Ok(()) }
    } else {
        seg_loaded(
            plat,
            segs_loaded(
                plat,
                s,
                left,
                root,
                frames,
                base,
                image_end,
                entry,
                segs.drop_last(),
            ),
            root,
            frames,
            base,
            image_end,
            entry,
            segs.last(),
        )
    }
}

/// What loading a task leaves behind: the space, the number of free frames, the first
/// frame of the stack, and the root table or the reason of the failure.
pub struct Spawned {
    pub space: Space,
    pub left: int,
    pub stack: int,
    pub answer: Result<u64, SpawnError>,
}

/// What loading a task does, with frames that end at `limit` of which `left` are free.
///
/// The image comes first, then the root table, then the tables for the segments, the
/// stack, and the tables for the stack and the boot information page.
pub open spec fn spawned(
    plat: Platform,
    s: Space,
    left: int,
    limit: int,
    len: int,
    base: int,
    entry: int,
    segs: Seq<LoadSeg>,
    bootinfo_pa: int,
) -> Spawned {
    let g = plat.page_size();
    let n = len / g;
    let image_end = base + len;
    let frames = limit - left * g;
    let root = (frames + len) as u64;
    let oom = SpawnError::Mmu(MmuError::OutOfFrames);
    if base % g != 0 || len % g != 0 || len == 0 || segs.len() == 0 || image_end > u64::MAX {
        Spawned { space: s, left, stack: 0, answer: Err(SpawnError::BadLayout) }
    } else if n > left {
        Spawned { space: s, left, stack: 0, answer: Err(oom) }
    } else if n == left {
        Spawned { space: s, left: 0, stack: 0, answer: Err(oom) }
    } else {
        let a = segs_loaded(
            plat,
            s,
            left - n - 1,
            root,
            frames,
            base,
            image_end,
            entry,
            segs,
        );
        let stack_n = USER_STACK_SIZE as int / g;
        if a.answer is Err {
            Spawned { space: a.space, left: a.left, stack: 0, answer: Err(a.answer->Err_0) }
        } else if !(base <= entry < image_end) {
            Spawned { space: a.space, left: a.left, stack: 0, answer: Err(SpawnError::BadLayout) }
        } else if stack_n > a.left {
            Spawned { space: a.space, left: a.left, stack: 0, answer: Err(oom) }
        } else {
            let b = user::user_mapped(
                plat,
                a.space,
                (a.left - stack_n) as nat,
                root,
                USER_STACK_TOP - USER_STACK_SIZE,
                limit - a.left * g,
                USER_STACK_SIZE as int,
                UserPerm::RwUser,
            );
            if b.answer is Err {
                Spawned {
                    space: b.space,
                    left: b.free as int,
                    stack: limit - a.left * g,
                    answer: Err(SpawnError::Mmu(b.answer->Err_0)),
                }
            } else {
                let c = user::user_mapped(
                    plat,
                    b.space,
                    b.free,
                    root,
                    abi::bootinfo::VA as int,
                    bootinfo_pa,
                    g,
                    UserPerm::RoUser,
                );
                Spawned {
                    space: c.space,
                    left: c.free as int,
                    stack: limit - a.left * g,
                    answer: match c.answer {
                        Err(e) => Err(SpawnError::Mmu(e)),
                        Ok(_) => Ok(root),
                    },
                }
            }
        }
    }
}

/// The control block of a task that starts at `entry` with the stack at `sp`, in the
/// address space at `root`: all other registers are 0, and it runs unprivileged with
/// interrupts on.
pub open spec fn entry_task(entry: u64, sp: u64, root: u64) -> TaskView {
    TaskView {
        ctx: ContextView { elr: entry, sp, ..ContextView::zeroed() },
        ttbr0_pa: root,
        state: TaskState::Inactive,
        reply_to: 0,
    }
}

/// Fills a frame with words of the image.
fn fill_frame(m: &mut PhysMem, frame: u64, image: &[u8], off: usize)
    requires
        old(m).wf(),
        old(m)@.contains_key(frame),
        !old(m).homes().contains_key(frame),
        off + old(m).platform().page_size() <= image.len(),
    ensures
        final(m).wf(),
        final(m).settled() == old(m).settled(),
        final(m).platform() == old(m).platform(),
        final(m).homes() == old(m).homes(),
        final(m).space() == old(m).space(),
        final(m)@ == old(m)@.insert(
            frame,
            image_frame(old(m).platform(), image@, off as int),
        ),
{
    let n = m.plat().entries() as usize;
    let ghost plat = m.platform();
    let ghost want = image_frame(plat, image@, off as int);
    let mut j: usize = 0;
    assert(m@ =~= old(m)@.insert(frame, m@[frame]));
    while j < n
        invariant
            j <= n,
            n == plat.table_len(),
            m.wf(),
            m.settled() == old(m).settled(),
            m.platform() == plat,
            m.homes() == old(m).homes(),
            m.space() == old(m).space(),
            !m.homes().contains_key(frame),
            m@.contains_key(frame),
            m@ == old(m)@.insert(frame, m@[frame]),
            off + plat.page_size() <= image.len(),
            want == image_frame(plat, image@, off as int),
            forall|i: int| 0 <= i < j ==> m@[frame][i] == #[trigger] want[i],
        decreases n - j,
    {
        let w = bytes::le64(image, off + 8 * j);
        m.write(frame, j, w);
        assert(m@ =~= old(m)@.insert(frame, m@[frame]));
        j = j + 1;
    }
    assert(m@[frame] =~= want);
}

/// Copies the image into frames in a row.
fn copy_image(m: &mut PhysMem, first: u64, image: &[u8])
    requires
        old(m).wf(),
        image.len() as int % old(m).platform().page_size() == 0,
        first + image.len() <= u64::MAX,
        forall|t: u64| #[trigger]
            user::in_frames(
                old(m).platform(),
                first as int,
                image.len() as int / old(m).platform().page_size(),
                t,
            ) ==> old(m)@.contains_key(t) && !old(m).homes().contains_key(t),
    ensures
        final(m).wf(),
        final(m).settled() == old(m).settled(),
        final(m).platform() == old(m).platform(),
        final(m).homes() == old(m).homes(),
        final(m).space() == old(m).space(),
        holds_image(old(m).platform(), final(m)@, first as int, image@),
        final(m)@.dom() == old(m)@.dom(),
        forall|t: u64| #[trigger]
            old(m)@.contains_key(t) ==> final(m)@.contains_key(t) && (!user::in_frames(
                old(m).platform(),
                first as int,
                image.len() as int / old(m).platform().page_size(),
                t,
            ) ==> final(m)@[t] == old(m)@[t]),
{
    let g = m.plat().granule() as usize;
    let n = image.len() / g;
    let ghost plat = m.platform();
    let mut k: usize = 0;
    proof {
        vstd::arithmetic::div_mod::lemma_fundamental_div_mod(image.len() as int, g as int);
        assert(n * g == image.len()) by (nonlinear_arith)
            requires
                image.len() == g * n + 0,
        ;
    }
    while k < n
        invariant
            k <= n,
            g == plat.page_size(),
            plat == old(m).platform(),
            n == image.len() / g,
            n * g == image.len(),
            m.wf(),
            m.settled() == old(m).settled(),
            m.platform() == plat,
            m.homes() == old(m).homes(),
            m.space() == old(m).space(),
            first + image.len() <= u64::MAX,
            m@.dom() == old(m)@.dom(),
            forall|t: u64| #[trigger]
                user::in_frames(plat, first as int, n as int, t) ==> m@.contains_key(t)
                    && !m.homes().contains_key(t),
            forall|i: int|
                0 <= i < k ==> {
                    let t = nth_frame(plat, first as int, i);
                    &&& m@.contains_key(#[trigger] nth_frame(plat, first as int, i))
                    &&& m@[t] == image_frame(plat, image@, i * plat.page_size())
                },
            forall|t: u64| #[trigger]
                old(m)@.contains_key(t) ==> m@.contains_key(t) && (!user::in_frames(
                    plat,
                    first as int,
                    n as int,
                    t,
                ) ==> m@[t] == old(m)@[t]),
        decreases n - k,
    {
        assert(0 <= k * g && k * g + g <= n * g) by (nonlinear_arith)
            requires
                0 <= k < n,
                g > 0,
        ;
        let off = k * g;
        let frame = first + off as u64;
        proof {
            vstd::arithmetic::div_mod::lemma_mod_multiples_basic(k as int, g as int);
            assert(user::in_frames(plat, first as int, n as int, frame));
        }
        let ghost before = m@;
        fill_frame(m, frame, image, off);
        proof {
            assert(m@.dom() =~= before.dom());
            assert forall|i: int| 0 <= i < k + 1 implies {
                let t = nth_frame(plat, first as int, i);
                &&& m@.contains_key(#[trigger] nth_frame(plat, first as int, i))
                &&& m@[t] == image_frame(plat, image@, i * plat.page_size())
            } by {
                let t = nth_frame(plat, first as int, i);
                if i < k {
                    assert(before.contains_key(t));
                    assert(i * g < k * g) by (nonlinear_arith)
                        requires
                            0 <= i < k,
                            g > 0,
                    ;
                }
            }
        }
        k = k + 1;
    }
}

/// Mapping in two steps leaves alone what each step leaves alone.
proof fn lemma_kept_trans(
    m1: &PhysMem,
    m2: &PhysMem,
    m3: &PhysMem,
    a1: &FrameAlloc,
    a2: &FrameAlloc,
    a3: &FrameAlloc,
)
    requires
        walk::kept(m1, m2, a1, a2),
        walk::kept(m2, m3, a2, a3),
    ensures
        walk::kept(m1, m3, a1, a3),
{
}

/// Giving out frames leaves alone what mapping leaves alone.
proof fn lemma_given_out(m1: &PhysMem, m2: &PhysMem, a1: &FrameAlloc, a2: &FrameAlloc, n: int)
    requires
        a1.clear_of(m1),
        a2.clear_of(m2),
        a2.window() == a1.window(),
        a2.platform() == a1.platform(),
        0 < n <= a1.left(),
        a2.mark() == a1.mark() + n * m1.platform().page_size(),
        m2.homes() == m1.homes(),
        m2@ == user::cleared(m1.platform(), m1@, a1.mark() as int, n),
    ensures
        walk::kept(m1, m2, a1, a2),
        forall|t: u64| #[trigger]
            user::in_frames(m1.platform(), a1.mark() as int, n, t) ==> a1.holds(t) && !a2.holds(t)
                && m2@.contains_key(t),
{
    let g = m1.platform().page_size();
    a1.lemma_parts();
    a2.lemma_parts();
    a1.lemma_source();
    a2.lemma_source();
    assert(n * g >= 0) by (nonlinear_arith)
        requires
            n > 0,
            g > 0,
    ;
    assert forall|c: u64| #[trigger] a2.holds(c) implies a1.holds(c) by {
        vstd::arithmetic::div_mod::lemma_mod_multiples_vanish(n, c - a2.mark(), g);
        assert(g * n + (c - a2.mark()) == c - a1.mark()) by (nonlinear_arith)
            requires
                a2.mark() == a1.mark() + n * g,
        ;
    }
}

/// Copies the image into fresh frames and answers the first of them.
fn place_image(image: &[u8], fa: &mut FrameAlloc, m: &mut PhysMem) -> (r: Result<u64, MmuError>)
    requires
        old(m).wf(),
        old(fa).clear_of(old(m)),
        image.len() > 0,
        image.len() as int % old(m).platform().page_size() == 0,
    ensures
        final(m).wf(),
        final(m).settled() == old(m).settled(),
        final(m).platform() == old(m).platform(),
        final(m).space() == old(m).space(),
        final(fa).clear_of(final(m)),
        walk::kept(old(m), final(m), old(fa), final(fa)),
        final(fa).window() == old(fa).window(),
        ({
            let plat = old(m).platform();
            let n = image.len() as int / plat.page_size();
            match r {
                Ok(frames) => {
                    &&& n <= old(fa).left()
                    &&& frames == old(fa).mark()
                    &&& final(fa).left() == old(fa).left() - n
                    &&& final(fa).mark() == frames + image.len()
                    &&& holds_image(plat, final(m)@, frames as int, image@)
                    &&& forall|t: u64| #[trigger]
                        user::in_frames(plat, frames as int, n, t) ==> {
                            &&& !final(m).homes().contains_key(t)
                            &&& !final(fa).holds(t)
                        }
                },
                Err(e) => {
                    &&& n > old(fa).left()
                    &&& e == MmuError::OutOfFrames
                    &&& final(fa).left() == old(fa).left()
                },
            }
        }),
{
    let g = m.plat().granule();
    let len = image.len() as u64;
    let ghost plat = m.platform();
    let ghost m0 = *m;
    let ghost fa0 = *fa;
    let ghost n = (len / g) as int;
    proof {
        lemma_left(fa, plat);
        vstd::arithmetic::div_mod::lemma_fundamental_div_mod(len as int, g as int);
        assert(n * g == len) by (nonlinear_arith)
            requires
                len == g * n + 0,
        ;
        assert(n > 0);
    }
    let frames = match fa.alloc_contig(len / g, m) {
        Ok(frames) => frames,
        Err(e) => {
            return Err(e);
        },
    };
    let ghost m1 = *m;
    proof {
        lemma_given_out(&m0, &m1, &fa0, fa, n);
        lemma_left(fa, plat);
        fa0.lemma_source();
        fa.lemma_source();
    }
    copy_image(m, frames, image);
    proof {
        assert forall|t: u64| #[trigger]
            m0@.contains_key(t) && !m.homes().contains_key(t) && !fa0.fresh().contains(
                t,
            ) implies m@.contains_key(t) && m@[t] == m0@[t] by {
            assert(m1@.contains_key(t));
            if user::in_frames(plat, frames as int, n, t) {
                assert(fa0.holds(t));
            }
        }
        assert forall|t: u64| #[trigger]
            m@.contains_key(t) && !m.homes().contains_key(t) && !fa0.fresh().contains(
                t,
            ) implies m0@.contains_key(t) by {
            assert(m1@.contains_key(t));
            if user::in_frames(plat, frames as int, n, t) {
                assert(fa0.holds(t));
            }
        }
    }
    Ok(frames)
}

/// Loads the segments of the image.
fn load_segs(
    us: &mut UserSpace,
    fa: &mut FrameAlloc,
    m: &mut PhysMem,
    segs: &[LoadSeg],
    frames: u64,
    base: u64,
    image_end: u64,
    entry: u64,
) -> (r: Result<(), SpawnError>)
    requires
        old(m).wf(),
        old(fa).clear_of(old(m)),
        old(m).is_root(old(us).root()),
        base <= image_end,
        frames + (image_end - base) <= u64::MAX,
        base as int % old(m).platform().page_size() == 0,
        (image_end - base) % old(m).platform().page_size() == 0,
    ensures
        final(m).wf(),
        final(m).settled() == old(m).settled(),
        final(m).platform() == old(m).platform(),
        final(fa).clear_of(final(m)),
        walk::kept(old(m), final(m), old(fa), final(fa)),
        final(us).root() == old(us).root(),
        (Loading { space: final(m).space(), left: final(fa).left(), answer: r }) == segs_loaded(
            old(m).platform(),
            old(m).space(),
            old(fa).left(),
            old(us).root(),
            frames as int,
            base as int,
            image_end as int,
            entry as int,
            segs@,
        ),
{
    let ghost plat = m.platform();
    let g = m.plat().granule();
    let ghost root = us.root();
    let ghost s = m.space();
    let ghost left = fa.left();
    let mut i: usize = 0;
    while i < segs.len()
        invariant
            i <= segs.len(),
            g == plat.page_size(),
            plat == old(m).platform(),
            m.wf(),
            m.settled() == old(m).settled(),
            m.platform() == plat,
            fa.clear_of(m),
            root == old(us).root(),
            us.root() == root,
            m.is_root(root),
            walk::kept(old(m), m, old(fa), fa),
            s == old(m).space(),
            left == old(fa).left(),
            base <= image_end,
            frames + (image_end - base) <= u64::MAX,
            base as int % plat.page_size() == 0,
            (image_end - base) % plat.page_size() == 0,
            (Loading { space: m.space(), left: fa.left(), answer: Ok(()) }) == segs_loaded(
                plat,
                s,
                left,
                root,
                frames as int,
                base as int,
                image_end as int,
                entry as int,
                segs@.take(i as int),
            ),
        decreases segs.len() - i,
    {
        let seg = segs[i];
        let ghost upto = segs@.take(i + 1);
        proof {
            assert(upto.drop_last() =~= segs@.take(i as int));
            assert(upto.last() == seg);
            lemma_left(fa, plat);
            if segs_loaded(
                plat,
                s,
                left,
                root,
                frames as int,
                base as int,
                image_end as int,
                entry as int,
                upto,
            ).answer is Err {
                lemma_segs_error(
                    plat,
                    s,
                    left,
                    root,
                    frames as int,
                    base as int,
                    image_end as int,
                    entry as int,
                    segs@,
                    i + 1,
                );
            }
        }
        let seg_end = match seg.va.checked_add(seg.memsz) {
            Some(end) => end,
            None => {
                return Err(SpawnError::BadLayout);
            },
        };
        if seg.va < base || seg_end > image_end || seg.va % g != 0 || seg.memsz == 0 {
            return Err(SpawnError::BadLayout);
        }
        proof {
            lemma_seg_fits(plat, base as int, image_end as int, seg.va as int, seg.memsz as int);
            lemma_ceil(plat, seg.memsz as int);
        }
        let mapped = (seg.memsz - 1) / g * g + g;
        let ghost before = *m;
        let ghost fb = *fa;
        let r = us.map_range(fa, m, seg.va, frames + (seg.va - base), mapped, seg.kind.perm());
        proof {
            lemma_kept_trans(old(m), &before, m, old(fa), &fb, fa);
            lemma_left(fa, plat);
        }
        if let Err(e) = r {
            return Err(SpawnError::Mmu(e));
        }
        if entry >= seg.va && entry < seg_end && seg.kind != SegKind::Text {
            return Err(SpawnError::BadLayout);
        }
        i += 1;
    }
    assert(segs@.take(segs@.len() as int) =~= segs@);
    Ok(())
}

/// The page boundary that is not below a positive number, in two ways.
proof fn lemma_ceil(plat: Platform, v: int)
    requires
        v > 0,
    ensures
        (v - 1) / plat.page_size() * plat.page_size() + plat.page_size() == (v + plat.page_size()
            - 1) / plat.page_size() * plat.page_size(),
{
}

/// Makes the user stack.
#[verifier::rlimit(30)]
fn load_stack(us: &mut UserSpace, fa: &mut FrameAlloc, m: &mut PhysMem) -> (r: Result<
    (),
    MmuError,
>)
    requires
        old(m).wf(),
        old(fa).clear_of(old(m)),
        old(m).is_root(old(us).root()),
    ensures
        final(m).wf(),
        final(m).settled() == old(m).settled(),
        final(m).platform() == old(m).platform(),
        final(fa).clear_of(final(m)),
        walk::kept(old(m), final(m), old(fa), final(fa)),
        final(us).root() == old(us).root(),
        ({
            let plat = old(m).platform();
            let n = USER_STACK_SIZE as int / plat.page_size();
            let b = user::user_mapped(
                plat,
                old(m).space(),
                (old(fa).left() - n) as nat,
                old(us).root(),
                USER_STACK_TOP - USER_STACK_SIZE,
                old(fa).mark() as int,
                USER_STACK_SIZE as int,
                UserPerm::RwUser,
            );
            if n > old(fa).left() {
                &&& r == Err::<(), MmuError>(MmuError::OutOfFrames)
                &&& final(m).space() == old(m).space()
                &&& final(fa).left() == old(fa).left()
            } else {
                &&& r == b.answer
                &&& final(m).space() == b.space
                &&& final(fa).left() == b.free
                &&& holds_zeros(plat, final(m)@, old(fa).mark() as int, n)
                &&& no_tables(final(m), old(fa).mark() as int, n)
                &&& forall|t: u64| #[trigger]
                    user::in_frames(plat, old(fa).mark() as int, n, t) ==> !final(fa).holds(t)
            }
        }),
{
    let g = m.plat().granule();
    let ghost plat = m.platform();
    let ghost m0 = *m;
    let ghost fa0 = *fa;
    proof {
        lemma_left(fa, plat);
        fa.lemma_source();
        assert(USER_STACK_SIZE as int / plat.page_size() > 0) by {
            match plat {
                Platform::Virt => {},
                Platform::Apple => {},
            }
        }
    }
    let stack_base = USER_STACK_TOP - USER_STACK_SIZE;
    let stack_frames = match fa.alloc_contig(USER_STACK_SIZE / g, m) {
        Ok(frames) => frames,
        Err(e) => {
            return Err(e);
        },
    };
    let ghost m1 = *m;
    let ghost fa1 = *fa;
    proof {
        lemma_given_out(&m0, &m1, &fa0, &fa1, (USER_STACK_SIZE / g) as int);
        lemma_left(fa, plat);
    }
    let r = us.map_range(fa, m, stack_base, stack_frames, USER_STACK_SIZE, UserPerm::RwUser);
    proof {
        lemma_kept_trans(&m0, &m1, m, &fa0, &fa1, fa);
        lemma_left(fa, plat);
        fa1.lemma_source();
        fa.lemma_source();
        let n = USER_STACK_SIZE as int / plat.page_size();
        assert forall|t: u64| #[trigger]
            user::in_frames(plat, fa0.mark() as int, n, t) implies !m.homes().contains_key(t)
            && !fa.holds(t) && m@.contains_key(t) && m@[t] == mem::zeros(plat) by {
            assert(m1@.contains_key(t) && m1@[t] == mem::zeros(plat));
            if fa.holds(t) {
                assert(fa.fresh().contains(t));
            }
        }
    }
    r
}

/// Frames in a row that are given out and no tables stay as they are while more is
/// mapped.
proof fn lemma_row_stays(
    plat: Platform,
    m1: &PhysMem,
    m2: &PhysMem,
    a1: &FrameAlloc,
    a2: &FrameAlloc,
    first: int,
    n: int,
)
    requires
        walk::kept(m1, m2, a1, a2),
        m1.platform() == plat,
        m2.platform() == plat,
        no_tables(m1, first, n),
        forall|t: u64| #[trigger] user::in_frames(plat, first, n, t) ==> !a1.holds(t),
    ensures
        no_tables(m2, first, n),
        holds_zeros(plat, m1@, first, n) ==> holds_zeros(plat, m2@, first, n),
{
    a1.lemma_source();
    assert forall|t: u64| #[trigger] user::in_frames(plat, first, n, t) implies {
        &&& !m2.homes().contains_key(t)
        &&& m1@.contains_key(t) ==> m2@.contains_key(t) && m2@[t] == m1@[t]
    } by {
        assert(!m1.homes().contains_key(t));
        if m2.homes().contains_key(t) {
            assert(a1.fresh().contains(t));
        }
    }
}

/// Loads the image of the root task and makes its control block.
///
/// `segs` tells what the parts of the image are for, `bootinfo_pa` is the frame of the
/// boot information page. Installing the address space and starting the task are left
/// to the caller.
#[verifier::rlimit(30)]
pub fn spawn_root(
    image: &[u8],
    base: u64,
    entry: u64,
    segs: &[LoadSeg],
    bootinfo_pa: u64,
    fa: &mut FrameAlloc,
    m: &mut PhysMem,
) -> (r: Result<(Tcb, u64), SpawnError>)
    requires
        old(m).wf(),
        old(fa).clear_of(old(m)),
        bootinfo_pa + old(m).platform().page_size() <= u64::MAX + 1,
    ensures
        final(m).wf(),
        final(m).settled() == old(m).settled(),
        final(m).platform() == old(m).platform(),
        final(fa).clear_of(final(m)),
        walk::kept(old(m), final(m), old(fa), final(fa)),
        ({
            let plat = old(m).platform();
            let out = spawned(
                plat,
                old(m).space(),
                old(fa).left(),
                old(fa).window().1 as int,
                image.len() as int,
                base as int,
                entry as int,
                segs@,
                bootinfo_pa as int,
            );
            &&& final(m).space() == out.space
            &&& final(fa).left() == out.left
            &&& match r {
                Ok((tcb, root)) => {
                    &&& out.answer == Ok::<u64, SpawnError>(root)
                    &&& tcb@ == entry_task(entry, USER_STACK_TOP, root)
                    &&& final(m).is_root(root)
                    &&& holds_image(plat, final(m)@, old(fa).mark() as int, image@)
                    &&& no_tables(
                        final(m),
                        old(fa).mark() as int,
                        image.len() as int / plat.page_size(),
                    )
                    &&& holds_zeros(
                        plat,
                        final(m)@,
                        out.stack,
                        USER_STACK_SIZE as int / plat.page_size(),
                    )
                    &&& no_tables(
                        final(m),
                        out.stack,
                        USER_STACK_SIZE as int / plat.page_size(),
                    )
                },
                Err(e) => out.answer == Err::<u64, SpawnError>(e),
            }
        }),
{
    let ghost plat = m.platform();
    let ghost m0 = *m;
    let ghost fa0 = *fa;
    let g = m.plat().granule();
    let len = image.len() as u64;
    proof {
        lemma_left(fa, plat);
    }
    if base % g != 0 || len % g != 0 || len == 0 || segs.len() == 0 {
        return Err(SpawnError::BadLayout);
    }
    let image_end = match base.checked_add(len) {
        Some(end) => end,
        None => {
            return Err(SpawnError::BadLayout);
        },
    };
    let frames = match place_image(image, fa, m) {
        Ok(frames) => frames,
        Err(e) => {
            return Err(SpawnError::Mmu(e));
        },
    };
    let ghost m1 = *m;
    let ghost fa1 = *fa;
    proof {
        lemma_left(fa, plat);
    }
    let mut us = match UserSpace::new(fa, m) {
        Ok(us) => us,
        Err(e) => {
            proof {
                lemma_kept_trans(&m0, &m1, m, &fa0, &fa1, fa);
            }
            return Err(SpawnError::Mmu(e));
        },
    };
    let ghost m2 = *m;
    let ghost fa2 = *fa;
    proof {
        lemma_kept_trans(&m0, &m1, &m2, &fa0, &fa1, &fa2);
        lemma_left(fa, plat);
    }
    let loaded = load_segs(&mut us, fa, m, segs, frames, base, image_end, entry);
    let ghost m3 = *m;
    let ghost fa3 = *fa;
    proof {
        lemma_kept_trans(&m0, &m2, &m3, &fa0, &fa2, &fa3);
        lemma_kept_trans(&m1, &m2, &m3, &fa1, &fa2, &fa3);
        lemma_left(fa, plat);
        fa3.lemma_source();
        fa0.lemma_source();
    }
    if let Err(e) = loaded {
        return Err(e);
    }
    if !(base <= entry && entry < image_end) {
        return Err(SpawnError::BadLayout);
    }
    let stacked = load_stack(&mut us, fa, m);
    let ghost m4 = *m;
    let ghost fa4 = *fa;
    proof {
        lemma_kept_trans(&m0, &m3, &m4, &fa0, &fa3, &fa4);
        lemma_kept_trans(&m1, &m3, &m4, &fa1, &fa3, &fa4);
        lemma_left(fa, plat);
    }
    if let Err(e) = stacked {
        return Err(SpawnError::Mmu(e));
    }
    let shown = us.map_range(fa, m, abi::bootinfo::VA, bootinfo_pa, g, UserPerm::RoUser);
    proof {
        lemma_kept_trans(&m0, &m4, m, &fa0, &fa4, fa);
        lemma_kept_trans(&m1, &m4, m, &fa1, &fa4, fa);
        lemma_left(fa, plat);
        lemma_image_stays(plat, &m1, m, &fa1, fa, frames as int, image@);
        lemma_row_stays(
            plat,
            &m1,
            m,
            &fa1,
            fa,
            frames as int,
            image.len() as int / plat.page_size(),
        );
        if stacked is Ok {
            lemma_row_stays(
                plat,
                &m4,
                m,
                &fa4,
                fa,
                fa3.mark() as int,
                USER_STACK_SIZE as int / plat.page_size(),
            );
        }
    }
    if let Err(e) = shown {
        return Err(SpawnError::Mmu(e));
    }
    let mut tcb = Tcb::zeroed();
    let mut ctx = Context::zeroed();
    ctx.elr = entry;
    ctx.sp = USER_STACK_TOP;
    ctx.spsr = 0;
    tcb.ctx = ctx;
    tcb.ttbr0_pa = us.root_pa();
    Ok((tcb, us.root_pa()))
}

/// Mapping leaves the frames of the image alone.
proof fn lemma_image_stays(
    plat: Platform,
    m1: &PhysMem,
    m2: &PhysMem,
    a1: &FrameAlloc,
    a2: &FrameAlloc,
    frames: int,
    image: Seq<u8>,
)
    requires
        walk::kept(m1, m2, a1, a2),
        holds_image(plat, m1@, frames, image),
        0 <= frames,
        frames + image.len() <= u64::MAX,
        image.len() as int % plat.page_size() == 0,
        forall|t: u64| #[trigger]
            user::in_frames(plat, frames, image.len() as int / plat.page_size(), t) ==> {
                &&& !m1.homes().contains_key(t)
                &&& !a1.holds(t)
            },
    ensures
        holds_image(plat, m2@, frames, image),
{
    let g = plat.page_size();
    let n = image.len() as int / g;
    a1.lemma_source();
    vstd::arithmetic::div_mod::lemma_fundamental_div_mod(image.len() as int, g);
    assert forall|k: int| 0 <= k < n implies {
        let t = nth_frame(plat, frames, k);
        &&& m2@.contains_key(#[trigger] nth_frame(plat, frames, k))
        &&& m2@[t] == image_frame(plat, image, k * plat.page_size())
    } by {
        let t = nth_frame(plat, frames, k);
        assert(m1@.contains_key(t));
        assert(0 <= k * g && k * g + g <= n * g && n * g == g * n) by (nonlinear_arith)
            requires
                0 <= k < n,
                g > 0,
        ;
        vstd::arithmetic::div_mod::lemma_mod_multiples_basic(k, g);
        assert(user::in_frames(plat, frames, n, t));
    }
}

/// The frames that are left fill the rest of the window.
proof fn lemma_left(fa: &FrameAlloc, plat: Platform)
    requires
        fa.wf(),
        fa.platform() == plat,
    ensures
        fa.left() >= 0,
        fa.mark() == fa.window().1 - fa.left() * plat.page_size(),
        fa.mark() as int % plat.page_size() == 0,
        fa.window().0 <= fa.mark() <= fa.window().1,
{
    fa.lemma_parts();
    fa.lemma_ends();
    let g = plat.page_size();
    let d = fa.window().1 - fa.mark();
    vstd::arithmetic::div_mod::lemma_fundamental_div_mod(d, g);
    assert(d % g == 0) by {
        vstd::arithmetic::div_mod::lemma_sub_mod_noop(
            fa.window().1 as int,
            fa.mark() as int,
            g,
        );
    }
    assert(d / g * g == g * (d / g)) by (nonlinear_arith);
}

/// A segment that lies in the image does so with its last page.
proof fn lemma_seg_fits(plat: Platform, base: int, image_end: int, va: int, memsz: int)
    requires
        0 <= base <= va,
        0 < memsz,
        va + memsz <= image_end,
        base % plat.page_size() == 0,
        va % plat.page_size() == 0,
        image_end % plat.page_size() == 0 || (image_end - base) % plat.page_size() == 0,
    ensures
        memsz <= (memsz + plat.page_size() - 1) / plat.page_size() * plat.page_size(),
        va + (memsz + plat.page_size() - 1) / plat.page_size() * plat.page_size() <= image_end,
{
}

/// A failure ends the loading.
proof fn lemma_segs_error(
    plat: Platform,
    s: Space,
    left: int,
    root: u64,
    frames: int,
    base: int,
    image_end: int,
    entry: int,
    segs: Seq<LoadSeg>,
    i: int,
)
    requires
        0 <= i <= segs.len(),
        segs_loaded(
            plat,
            s,
            left,
            root,
            frames,
            base,
            image_end,
            entry,
            segs.take(i),
        ).answer is Err,
    ensures
        segs_loaded(plat, s, left, root, frames, base, image_end, entry, segs) == segs_loaded(
            plat,
            s,
            left,
            root,
            frames,
            base,
            image_end,
            entry,
            segs.take(i),
        ),
    decreases segs.len() - i,
{
    if i == segs.len() {
        assert(segs.take(i) =~= segs);
    } else {
        assert(segs.take(i + 1).drop_last() =~= segs.take(i));
        lemma_segs_error(plat, s, left, root, frames, base, image_end, entry, segs, i + 1);
    }
}

} // verus!
