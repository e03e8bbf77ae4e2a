//! The start of the kernel in the upper half: what the machine is, and the root task.
use std::ops::Range;

use vstd::prelude::*;
use vstd::string::*;

use crate::abi;
use crate::arch::earlycon::{self, EarlyCon};
use crate::arch::hardening::{self, HardeningPlan};
use crate::arch::irq::{Irq, IrqError};
use crate::boot::entropy;
use crate::boot::fdt::{self, BootInfo, Found, MemRegion};
use crate::boot::image;
use crate::boot::roottask::{self, RootTask, RtSegKind, RtSegment, VerifiedRootTask};
use crate::boot::sha256;
use crate::cap::{self, CNode, Cap, CapError, PhysRegion};
use crate::kernel::bootinfo;
use crate::kernel::init::{self, Image};
use crate::kernel::memmap;
use crate::kernel::report;
use crate::kernel::{self, Kernel};
use crate::mm::laws;
use crate::mm::mem::{self, PhysMem};
use crate::mm::paging::{self, MmuError, Pool};
use crate::mm::tree::{self, Space};
use crate::mm::user::{self, FrameAlloc, UserPerm};
use crate::mm::walk::{self, TableSource};
use crate::platform::Platform;
use crate::sched::{self, System, SystemView};
use crate::task::laws as task_laws;
use crate::task::spawn::{self, LoadSeg, SegKind, SpawnError};
use crate::task::{TaskState, TaskView, Tcb};

verus! {

/// How many segments the root task may have.
pub const MAX_SEGS: usize = 4;

/// What is said of the memory map.
pub open spec fn map_lines(found: Found) -> Seq<u8> {
    report::region_lines("k0: memory ", found.memory) + report::region_lines(
        "k0: dtb reserved ",
        found.reserved,
    )
}

/// What is said while the device tree and the root task are examined, where the tree
/// tells `found` and the image has the hash it should have or not.
pub open spec fn examined_text(
    plat: Platform,
    found: Found,
    len: u64,
    hash: Seq<u8>,
    genuine: bool,
) -> Seq<u8> {
    map_lines(found) + match memmap::first_overlap(plat.device_spans(), found.memory, 0, 0) {
        Some((w, i)) => memmap::overlap_text(found.memory[i], plat.device_spans()[w]),
        None => if genuine {
            report::integrity_line(len, hash)
        } else {
            report::failure_line("k0: root task rejected: ", "HashMismatch")
        },
    }
}

/// Reads the device tree and checks the root task.
///
/// `readable` is what can be read at the address of the device tree in the upper half.
/// None means that the machine must stop: there is no trustworthy description of it, it
/// claims a device as memory, or the image of the root task is not the one that was
/// built.
pub fn examine<'a>(
    con: &mut EarlyCon,
    plat: Platform,
    dtb_phys: usize,
    kernel_image: Range<usize>,
    read_offset: usize,
    readable: &[u8],
    rt: &RootTask<'a>,
) -> (r: Option<(BootInfo, VerifiedRootTask<'a>)>)
    requires
        readable.len() >= 8,
        dtb_phys + read_offset <= usize::MAX && fdt::span_size(
            dtb_phys + read_offset,
            readable@,
        ) is Ok ==> fdt::span_size(dtb_phys + read_offset, readable@)->Ok_0 <= readable.len(),
    ensures
        final(con).same_port(old(con)),
        ({
            let want = fdt::parse_result(
                dtb_phys as int,
                kernel_image.start as int,
                kernel_image.end as int,
                read_offset as int,
                readable@,
            );
            let genuine = sha256::sha256(rt.image@) == rt.sha256@;
            match want {
                Err(e) => {
                    &&& r is None
                    &&& final(con)@ == old(con)@ + report::failure_line(
                        "k0: dtb rejected: ",
                        report::boot_error_text(e),
                    )
                },
                Ok((end, found)) => {
                    &&& final(con)@ == old(con)@ + examined_text(
                        plat,
                        found,
                        rt.image@.len() as u64,
                        rt.sha256@,
                        genuine,
                    )
                    &&& r is Some <==> genuine && memmap::first_overlap(
                        plat.device_spans(),
                        found.memory,
                        0,
                        0,
                    ) is None
                    &&& r matches Some((info, v)) ==> {
                        &&& info@ == found
                        &&& info@.within_limits()
                        &&& info.dtb.start == dtb_phys
                        &&& info.dtb.end == end
                        &&& v.is(rt)
                    }
                },
            }
        }),
{
    let info = match fdt::parse(dtb_phys, kernel_image, read_offset, readable) {
        Ok(info) => info,
        Err(e) => {
            report::say_failure(con, "k0: dtb rejected: ", report::boot_error_name(e));
            return None;
        },
    };
    report::say_regions(con, "k0: memory ", info.memory());
    report::say_regions(con, "k0: dtb reserved ", info.reserved());
    assert(con@ =~= old(con)@ + map_lines(info@));
    let ghost genuine = sha256::sha256(rt.image@) == rt.sha256@;
    let ghost text = examined_text(plat, info@, rt.image@.len() as u64, rt.sha256@, genuine);
    if !memmap::check_memory_map(con, plat, &info) {
        assert(con@ =~= old(con)@ + text);
        return None;
    }
    match roottask::verify_root_task(rt) {
        Ok(v) => {
            report::say_integrity(con, v.image.len(), &v.sha256);
            assert(con@ =~= old(con)@ + text);
            Some((info, v))
        },
        Err(_) => {
            report::say_failure(con, "k0: root task rejected: ", "HashMismatch");
            assert(con@ =~= old(con)@ + text);
            None
        },
    }
}

/// The words from the machine that go into the keys: the counter and a hardware random
/// number, 0 where the machine has none.
pub open spec fn extra_words(cntpct: u64, rndr: Option<u64>) -> Seq<u64> {
    seq![
        cntpct,
        match rndr {
            Some(v) => v,
            None => 0,
        },
    ]
}

/// The keys for pointer authentication.
pub open spec fn pac_keys(seed: Seq<u8>, cntpct: u64, rndr: Option<u64>) -> Seq<u64> {
    let extra = extra_words(cntpct, rndr);
    entropy::keys_in(
        sha256::sha256(entropy::message(0, seed, extra)),
        sha256::sha256(entropy::message(1, seed, extra)),
        sha256::sha256(entropy::message(2, seed, extra)),
    )
}

/// Derives the keys for pointer authentication and decides what the processor is to turn
/// on.
pub fn harden(
    con: &mut EarlyCon,
    info: &BootInfo,
    cntpct: u64,
    rndr: Option<u64>,
    isar1: u64,
    pfr1: u64,
    mmfr1: u64,
    sctlr: u64,
) -> (r: HardeningPlan)
    ensures
        r.is_plan(pac_keys(info@.entropy, cntpct, rndr), isar1, pfr1, mmfr1, sctlr),
        final(con).same_port(old(con)),
        final(con)@ == old(con)@ + report::entropy_lines(info@.entropy.len() as u64, rndr is Some)
            + report::hardening_line(r.offers),
{
    let extra: [u64; 2] = [
        cntpct,
        match rndr {
            Some(v) => v,
            None => 0,
        },
    ];
    assert(extra@ =~= extra_words(cntpct, rndr));
    let keys = entropy::derive_pac_keys(info.entropy(), &extra);
    report::say_entropy(con, info.entropy().len(), rndr.is_some());
    let plan = hardening::enable(&keys, isar1, pfr1, mmfr1, sctlr);
    report::say_hardening(con, &plan.offers);
    plan
}

/// Reports whether interrupts are on. False means that the machine must stop.
pub fn announce_irq(con: &mut EarlyCon, irq: &Result<Irq, IrqError>) -> (r: bool)
    ensures
        r == irq is Ok,
        final(con).same_port(old(con)),
        final(con)@ == old(con)@ + match irq {
            Ok(_) => earlycon::text("k0: irq on (timer 1s)\n"),
            Err(e) => report::failure_line("k0: irq init failed: ", report::irq_error_text(*e)),
        },
{
    match irq {
        Ok(_) => {
            con.put_str("k0: irq on (timer 1s)\n");
            true
        },
        Err(e) => {
            report::say_failure(con, "k0: irq init failed: ", report::irq_error_name(*e));
            false
        },
    }
}

/// Why the root task could not be started.
#[derive(Clone, Copy, Debug, PartialEq, Eq, Structural)]
pub enum StartError {
    /// No place for the frame window.
    NoWindow,
    /// The frame window could not be made visible.
    Window(MmuError),
    /// The frame window is no window.
    Frames(MmuError),
    /// No frame for the boot information page.
    BootinfoFrame(MmuError),
    /// The root task has too many segments.
    TooManySegments,
    /// The root task could not be loaded.
    Spawn(SpawnError),
    /// The first capabilities could not be made.
    Caps(CapError),
}

/// What a segment is loaded as.
pub open spec fn seg_kind(k: RtSegKind) -> SegKind {
    match k {
        RtSegKind::Text => SegKind::Text,
        RtSegKind::Ro => SegKind::Ro,
        RtSegKind::Rw => SegKind::Rw,
    }
}

/// The segments to load.
pub open spec fn load_segs(segments: Seq<RtSegment>) -> Seq<LoadSeg> {
    segments.map_values(
        |s: RtSegment| LoadSeg { va: s.va, memsz: s.memsz, kind: seg_kind(s.kind) },
    )
}

/// The segments to load.
pub fn to_load_segs(segments: &[RtSegment]) -> (r: Vec<LoadSeg>)
    ensures
        r@ == load_segs(segments@),
{
    let mut v: Vec<LoadSeg> = Vec::new();
    let mut i: usize = 0;
    while i < segments.len()
        invariant
            i <= segments.len(),
            v@ == load_segs(segments@).take(i as int),
        decreases segments.len() - i,
    {
        let s = segments[i];
        let kind = match s.kind {
            RtSegKind::Text => SegKind::Text,
            RtSegKind::Ro => SegKind::Ro,
            RtSegKind::Rw => SegKind::Rw,
        };
        v.push(LoadSeg { va: s.va, memsz: s.memsz, kind });
        i += 1;
        assert(v@ =~= load_segs(segments@).take(i as int));
    }
    assert(v@ =~= load_segs(segments@));
    v
}

/// Whether the frame window starts at `s`: it is the lowest suitable place.
pub open spec fn is_window(
    plat: Platform,
    kernel_end: int,
    memory: Seq<MemRegion>,
    obs: Seq<MemRegion>,
    s: int,
) -> bool {
    &&& memmap::suitable(plat, kernel_end, memory, obs, s)
    &&& forall|t: int| #[trigger] memmap::suitable(plat, kernel_end, memory, obs, t) ==> s <= t
}

/// Where the frame window starts.
pub open spec fn window_start(
    plat: Platform,
    kernel_end: int,
    memory: Seq<MemRegion>,
    obs: Seq<MemRegion>,
) -> int {
    choose|s: int| is_window(plat, kernel_end, memory, obs, s)
}

/// What loading the root task leaves behind: the mappings, the number of free kernel
/// tables, and the root table or the reason of the failure.
pub struct Loading {
    pub space: Space,
    pub free: nat,
    /// The first frame of the stack.
    pub stack: int,
    pub answer: Result<u64, StartError>,
}

/// What loading the root task with the frame window at `w` does.
///
/// The window becomes visible to the kernel. Its first frame is the boot information
/// page, the rest is for the task and its tables.
pub open spec fn loading(
    plat: Platform,
    w: int,
    pool: &Pool,
    m: &PhysMem,
    len: int,
    base: int,
    entry: int,
    segs: Seq<LoadSeg>,
) -> Loading {
    let limit = w + memmap::WINDOW_SIZE;
    let a = paging::window_mapped(pool, m, w, limit);
    match a.answer {
        Err(e) => Loading {
            space: a.space,
            free: a.free,
            stack: 0,
            answer: Err(StartError::Window(e)),
        },
        Ok(_) => if segs.len() > MAX_SEGS {
            Loading {
                space: a.space,
                free: a.free,
                stack: 0,
                answer: Err(StartError::TooManySegments),
            }
        } else {
            let s = spawn::spawned(
                plat,
                a.space,
                memmap::WINDOW_SIZE as int / plat.page_size() - 1,
                limit,
                len,
                base,
                entry,
                segs,
                w,
            );
            Loading {
                space: s.space,
                free: a.free,
                stack: s.stack,
                answer: match s.answer {
                    Ok(root) => Ok(root),
                    Err(e) => Err(StartError::Spawn(e)),
                },
            }
        },
    }
}

/// How many frames the stack of the root task has.
pub open spec fn stack_frames(plat: Platform) -> int {
    spawn::USER_STACK_SIZE as int / plat.page_size()
}

/// A root task that has been loaded.
pub struct Loaded {
    /// Where the frame window starts. Its first frame is the boot information page.
    pub window: u64,
    pub tcb: Tcb,
    /// The root table of the address space.
    pub root: u64,
}

/// Whether memory holds a loaded root task: the kernel sees the window, all tables are
/// kernel tables or in the window, and the boot information page is there and no table.
pub open spec fn root_loaded(
    plat: Platform,
    image: &Image,
    pool: &Pool,
    m: &PhysMem,
    window: u64,
    root: u64,
) -> bool {
    let limit = window + memmap::WINDOW_SIZE;
    &&& m.wf()
    &&& m.platform() == plat
    &&& pool.wf(m)
    &&& pool.enabled
    &&& pool.tables.origin() == image.tables
    &&& image.tables <= pool.root1 < pool.tables.limit()
    &&& image.end <= window
    &&& window as int % plat.page_size() == 0
    &&& limit <= tree::VA_SPAN
    &&& forall|t: u64| #[trigger]
        m.homes().contains_key(t) ==> image.tables <= t < pool.tables.limit() || window <= t
            < limit
    &&& forall|p: int|
        image.data <= p < image.stack_bottom - plat.page_size() || window <= p < limit
            ==> #[trigger] m.space().leaves.contains_key((pool.root1, plat.page(p)))
    &&& laws::tree_kernel_safe(m.space(), pool.root1)
    &&& m.is_root(root)
    &&& window <= root < limit
    &&& m@.contains_key(window)
    &&& !m.homes().contains_key(window)
    &&& forall|page: int| #[trigger]
        m.space().leaves.contains_key((root, page)) ==> task_laws::user_page(
            plat,
            window as int,
            limit,
            page,
            m.space().leaves[(root, page)],
        ) && !m.homes().contains_key(
            kernel::laws::frame_of(plat, m.space().leaves[(root, page)]),
        )
}

/// Whether all memory lies where the upper half can show it.
pub open spec fn memory_in_range(memory: Seq<MemRegion>) -> bool {
    forall|i: int|
        0 <= i < memory.len() ==> (#[trigger] memory[i]).base + memory[i].size <= tree::VA_SPAN
}

/// Tells whether all memory lies where the upper half can show it.
pub fn memory_fits(info: &BootInfo) -> (r: bool)
    ensures
        r == memory_in_range(info@.memory),
{
    let memory = info.memory();
    let mut i: usize = 0;
    while i < memory.len()
        invariant
            i <= memory.len(),
            memory@ == info@.memory,
            forall|j: int|
                0 <= j < i ==> (#[trigger] memory@[j]).base + memory@[j].size <= tree::VA_SPAN,
        decreases memory.len() - i,
    {
        let m = memory[i];
        if m.base > tree::VA_SPAN || m.size > tree::VA_SPAN - m.base {
            assert(info@.memory[i as int].base + info@.memory[i as int].size > tree::VA_SPAN);
            return false;
        }
        i += 1;
    }
    true
}

/// The kernel sees the frame window.
spec fn window_seen(plat: Platform, pool: &Pool, m: &PhysMem, w: int) -> bool {
    forall|p: int|
        w <= p < w + memmap::WINDOW_SIZE ==> #[trigger] m.space().leaves.contains_key(
            (pool.root1, plat.page(p)),
        )
}

/// Picks the frame window and makes it visible.
fn open_window(
    plat: Platform,
    info: &BootInfo,
    kernel_image: &Range<usize>,
    image: &Image,
    pool: &mut Pool,
    m: &mut PhysMem,
) -> (r: Result<u64, StartError>)
    requires
        info@.within_limits(),
        info.dtb.start <= info.dtb.end,
        memory_in_range(info@.memory),
        image.laid_out(plat),
        kernel_image.end == image.end,
        init::kernel_up(plat, image, old(pool), old(m)),
    ensures
        init::kernel_up(plat, image, final(pool), final(m)),
        final(m).settled() == old(m).settled(),
        final(pool).root1 == old(pool).root1,
        walk::kept(old(m), final(m), &old(pool).tables, &final(pool).tables),
        ({
            let memory = info@.memory;
            let obs = memmap::obstacles(info);
            let w = window_start(plat, image.end as int, memory, obs);
            let a = paging::window_mapped(old(pool), old(m), w, w + memmap::WINDOW_SIZE);
            if exists|s: int| memmap::suitable(plat, image.end as int, memory, obs, s) {
                &&& is_window(plat, image.end as int, memory, obs, w)
                &&& w + memmap::WINDOW_SIZE <= tree::VA_SPAN
                &&& final(m).space() == a.space
                &&& final(pool).tables.free() == a.free
                &&& match a.answer {
                    Ok(_) => r == Ok::<u64, StartError>(w as u64) && window_seen(
                        plat,
                        final(pool),
                        final(m),
                        w,
                    ),
                    Err(e) => r == Err::<u64, StartError>(StartError::Window(e)),
                }
            } else {
                &&& r == Err::<u64, StartError>(StartError::NoWindow)
                &&& *final(m) == *old(m)
                &&& *final(pool) == *old(pool)
            }
        }),
{
    let ghost memory = info@.memory;
    let ghost obs = memmap::obstacles(info);
    let window = match memmap::pick_window(plat, info, kernel_image) {
        Some(w) => w,
        None => {
            return Err(StartError::NoWindow);
        },
    };
    let start = window.start;
    proof {
        let k = image.end as int;
        assert(memmap::suitable(plat, k, memory, obs, start as int));
        assert(is_window(plat, k, memory, obs, start as int));
        let w = window_start(plat, k, memory, obs);
        assert(is_window(plat, k, memory, obs, w));
        assert(memmap::suitable(plat, k, memory, obs, w));
        assert(w == start);
        let i = choose|i: int|
            0 <= i < memory.len() && memmap::holds_window(#[trigger] memory[i], start as int);
        assert(memory[i].base + memory[i].size <= tree::VA_SPAN);
    }
    let opened = paging::map_kernel_window(window, pool, m);
    proof {
        lemma_window_opened(plat, image, old(pool), old(m), pool, m, start as int);
    }
    match opened {
        Ok(_) => Ok(start),
        Err(e) => Err(StartError::Window(e)),
    }
}

/// Making the window visible, or failing to, keeps the kernel up.
proof fn lemma_window_opened(
    plat: Platform,
    image: &Image,
    pool1: &Pool,
    m1: &PhysMem,
    pool2: &Pool,
    m2: &PhysMem,
    w: int,
)
    requires
        init::kernel_up(plat, image, pool1, m1),
        0 <= w,
        w % plat.page_size() == 0,
        w + memmap::WINDOW_SIZE <= tree::VA_SPAN,
        m2.wf(),
        m2.platform() == plat,
        pool2.wf(m2),
        pool2.enabled,
        pool2.root1 == pool1.root1,
        walk::kept(m1, m2, &pool1.tables, &pool2.tables),
        m2.space() == paging::window_mapped(pool1, m1, w, w + memmap::WINDOW_SIZE).space,
    ensures
        init::kernel_up(plat, image, pool2, m2),
        paging::window_mapped(pool1, m1, w, w + memmap::WINDOW_SIZE).answer is Ok ==> window_seen(
            plat,
            pool2,
            m2,
            w,
        ),
{
    let a = paging::window_mapped(pool1, m1, w, w + memmap::WINDOW_SIZE);
    let root1 = pool1.root1;
    let free = pool1.tables.free();
    lemma_window_pages(plat);
    let n = (memmap::WINDOW_SIZE as int / plat.page_size()) as nat;
    let va = w + abi::KERNEL_VA_OFFSET;
    let attrs = paging::Perm::Rw.bits();
    pool1.tables.lemma_fresh(plat, 0);
    pool2.tables.lemma_fresh(plat, 0);
    assert forall|t: u64| #[trigger] m2.homes().contains_key(t) implies image.tables <= t
        < pool2.tables.limit() by {
        pool1.tables.lemma_fresh(plat, t);
        let c = pool1.tables.count();
        let g = plat.page_size();
        assert(c * g >= 0) by (nonlinear_arith)
            requires
                c >= 0,
                g > 0,
        ;
    }
    assert forall|p: int|
        image.data <= p < image.stack_bottom
            - plat.page_size() implies #[trigger] m2.space().leaves.contains_key(
        (root1, plat.page(p))) by {
        assert(m1.space().leaves.contains_key((root1, plat.page(p))));
        laws::lemma_mappings_are_kept(
            plat,
            m1.space(),
            free,
            MmuError::OutOfTables,
            root1,
            va,
            w,
            attrs,
            n,
            root1,
            plat.page(p),
        );
    }
    assert(w + memmap::WINDOW_SIZE - w == memmap::WINDOW_SIZE);
    if a.answer is Ok {
        laws::lemma_window_opens(
            plat,
            m1.space(),
            free,
            root1,
            w,
            memmap::WINDOW_SIZE as int,
        );
    } else {
        assert(n * plat.page_size() == memmap::WINDOW_SIZE);
        lemma_partly_safe(plat, m1.space(), free, root1, w, n);
    }
}

/// The frame window is made of whole pages.
proof fn lemma_window_pages(plat: Platform)
    ensures
        (memmap::WINDOW_SIZE as int / plat.page_size()) * plat.page_size() == memmap::WINDOW_SIZE,
        memmap::WINDOW_SIZE as int % plat.page_size() == 0,
        memmap::WINDOW_SIZE as int / plat.page_size() > 0,
{
    match plat {
        Platform::Virt => {
            assert(plat.page_size() == 4096);
            assert(memmap::WINDOW_SIZE as int / 4096 == 512);
        },
        Platform::Apple => {
            assert(plat.page_size() == 16384);
            assert(memmap::WINDOW_SIZE as int / 16384 == 128);
        },
    }
}

/// The upper half stays safe where a range could be mapped only in part.
proof fn lemma_partly_safe(plat: Platform, s: Space, free: nat, root: u64, pa: int, n: nat)
    requires
        laws::tree_kernel_safe(s, root),
        0 <= pa,
        pa % plat.page_size() == 0,
        pa + n * plat.page_size() <= tree::VA_SPAN,
    ensures
        laws::tree_kernel_safe(
            walk::map_many(
                plat,
                s,
                free,
                MmuError::OutOfTables,
                root,
                pa + abi::KERNEL_VA_OFFSET,
                pa,
                paging::Perm::Rw.bits(),
                n,
            ).space,
            root,
        ),
    decreases n,
{
    if n > 0 {
        let g = plat.page_size();
        let m = (n - 1) as nat;
        laws::lemma_row_frame(plat, pa, n, m as int);
        lemma_partly_safe(plat, s, free, root, pa, m);
        let frame = pa + m * g;
        laws::lemma_page_multiple(plat, frame);
        laws::lemma_first_mappings_w_xor_x(paging::Perm::Rw, frame as u64);
    }
}

/// Takes the frame window into use. Its first frame is the boot information page.
fn take_window(
    plat: Platform,
    image: &Image,
    window: u64,
    pool: &Pool,
    m: &mut PhysMem,
) -> (r: Result<(FrameAlloc, u64), StartError>)
    requires
        image.laid_out(plat),
        init::kernel_up(plat, image, pool, old(m)),
        image.end <= window,
        window as int % plat.page_size() == 0,
        window + memmap::WINDOW_SIZE <= tree::VA_SPAN,
    ensures
        r matches Ok((fa, page)) && {
            &&& page == window
            &&& fa.clear_of(final(m))
            &&& fa.window() == (window, (window + memmap::WINDOW_SIZE) as u64)
            &&& fa.mark() == window + plat.page_size()
            &&& fa.left() == memmap::WINDOW_SIZE as int / plat.page_size() - 1
            &&& !final(m).homes().contains_key(window)
        },
        final(m).wf(),
        final(m).settled() == old(m).settled(),
        final(m).platform() == plat,
        final(m).homes() == old(m).homes(),
        final(m).space() == old(m).space(),
        final(m)@ == old(m)@.insert(window, mem::zeros(plat)),
{
    let ghost limit = window + memmap::WINDOW_SIZE;
    proof {
        pool.tables.lemma_fresh(plat, 0);
        assert(memmap::WINDOW_SIZE as int % plat.page_size() == 0 && limit % plat.page_size() == 0)
            by {
            match plat {
                Platform::Virt => {},
                Platform::Apple => {},
            }
        }
    }
    let mut frames = match FrameAlloc::new(plat, window..window + memmap::WINDOW_SIZE) {
        Ok(f) => f,
        Err(e) => {
            return Err(StartError::Frames(e));
        },
    };
    proof {
        frames.lemma_parts();
        assert forall|c: u64| #[trigger] frames.holds(c) implies !m.homes().contains_key(c) by {}
        assert(frames.clear_of(m));
        assert(frames.left() > 0 && frames.left() - 1 == memmap::WINDOW_SIZE as int
            / plat.page_size() - 1) by {
            match plat {
                Platform::Virt => {},
                Platform::Apple => {},
            }
        }
        assert(frames.holds(window));
    }
    match frames.alloc_one(m) {
        Ok(page) => Ok((frames, page)),
        Err(e) => Err(StartError::BootinfoFrame(e)),
    }
}

/// Loads the root task into the frame window.
fn spawn_in_window(
    plat: Platform,
    image: &Image,
    window: u64,
    rt: &VerifiedRootTask,
    pool: &Pool,
    m: &mut PhysMem,
) -> (r: Result<Loaded, StartError>)
    requires
        image.laid_out(plat),
        init::kernel_up(plat, image, pool, old(m)),
        window_seen(plat, pool, old(m), window as int),
        image.end <= window,
        window as int % plat.page_size() == 0,
        window + memmap::WINDOW_SIZE <= tree::VA_SPAN,
    ensures
        final(m).wf(),
        final(m).settled() == old(m).settled(),
        final(m).platform() == plat,
        ({
            let segs = load_segs(rt.segments@);
            let out = spawn::spawned(
                plat,
                old(m).space(),
                memmap::WINDOW_SIZE as int / plat.page_size() - 1,
                window + memmap::WINDOW_SIZE,
                rt.image@.len() as int,
                rt.base as int,
                rt.entry as int,
                segs,
                window as int,
            );
            if segs.len() > MAX_SEGS {
                &&& r matches Err(e) && e == StartError::TooManySegments
                &&& final(m).space() == old(m).space()
            } else {
                &&& final(m).space() == out.space
                &&& match r {
                    Err(e) => {
                        &&& out.answer is Err
                        &&& e == StartError::Spawn(out.answer->Err_0)
                    },
                    Ok(l) => {
                        &&& out.answer == Ok::<u64, SpawnError>(l.root)
                        &&& l.window == window
                        &&& l.tcb@ == spawn::entry_task(rt.entry, spawn::USER_STACK_TOP, l.root)
                        &&& root_loaded(plat, image, pool, final(m), window, l.root)
                        &&& final(m)@[window] == mem::zeros(plat)
                        &&& spawn::holds_image(
                            plat,
                            final(m)@,
                            window + plat.page_size(),
                            rt.image@,
                        )
                        &&& spawn::holds_zeros(plat, final(m)@, out.stack, stack_frames(plat))
                        &&& window < out.stack
                    },
                }
            }
        }),
{
    let (mut frames, page) = match take_window(plat, image, window, pool, m) {
        Ok(v) => v,
        Err(e) => {
            return Err(e);
        },
    };
    let ghost m1 = *m;
    let ghost fa1 = frames;
    let segs = to_load_segs(rt.segments);
    if segs.len() > MAX_SEGS {
        return Err(StartError::TooManySegments);
    }
    let (tcb, root) = match spawn::spawn_root(
        rt.image,
        rt.base,
        rt.entry,
        segs.as_slice(),
        page,
        &mut frames,
        m,
    ) {
        Ok(v) => v,
        Err(e) => {
            return Err(StartError::Spawn(e));
        },
    };
    proof {
        fa1.lemma_parts();
        fa1.lemma_source();
        lemma_root_loaded(plat, image, pool, &m1, m, &fa1, &frames, rt, segs@, window, root);
    }
    Ok(Loaded { window, tcb, root })
}

proof fn lemma_root_loaded(
    plat: Platform,
    image: &Image,
    pool: &Pool,
    m1: &PhysMem,
    m2: &PhysMem,
    fa1: &FrameAlloc,
    fa2: &FrameAlloc,
    rt: &VerifiedRootTask,
    segs: Seq<LoadSeg>,
    window: u64,
    root: u64,
)
    requires
        image.laid_out(plat),
        init::kernel_up(plat, image, pool, m1),
        window_seen(plat, pool, m1, window as int),
        image.end <= window,
        window as int % plat.page_size() == 0,
        window + memmap::WINDOW_SIZE <= tree::VA_SPAN,
        fa1.clear_of(m1),
        fa1.window() == (window, (window + memmap::WINDOW_SIZE) as u64),
        fa1.mark() == window + plat.page_size(),
        fa1.left() == memmap::WINDOW_SIZE as int / plat.page_size() - 1,
        m1@.contains_key(window),
        m1@[window] == mem::zeros(plat),
        !m1.homes().contains_key(window),
        m2.wf(),
        m2.platform() == plat,
        walk::kept(m1, m2, fa1, fa2),
        m2.is_root(root),
        ({
            let out = spawn::spawned(
                plat,
                m1.space(),
                fa1.left(),
                window + memmap::WINDOW_SIZE,
                rt.image@.len() as int,
                rt.base as int,
                rt.entry as int,
                segs,
                window as int,
            );
            &&& out.answer == Ok::<u64, SpawnError>(root)
            &&& m2.space() == out.space
            &&& spawn::no_tables(m2, out.stack, stack_frames(plat))
        }),
        spawn::no_tables(m2, window + plat.page_size(), rt.image@.len() as int / plat.page_size()),
    ensures
        spawn::spawned(
            plat,
            m1.space(),
            fa1.left(),
            window + memmap::WINDOW_SIZE,
            rt.image@.len() as int,
            rt.base as int,
            rt.entry as int,
            segs,
            window as int,
        ).stack > window,
        root_loaded(plat, image, pool, m2, window, root),
        m2@[window] == mem::zeros(plat),
{
    let g = plat.page_size();
    let limit = window + memmap::WINDOW_SIZE;
    let len = rt.image@.len() as int;
    let left = fa1.left();
    fa1.lemma_parts();
    fa1.lemma_source();
    fa1.lemma_ends();
    pool.tables.lemma_fresh(plat, 0);
    assert(limit % g == 0);
    assert(limit - left * g == window + g) by {
        let n = memmap::WINDOW_SIZE as int / g;
        lemma_window_pages(plat);
        assert(left == n - 1);
        assert((n - 1) * g == n * g - g) by (nonlinear_arith);
    }
    // the boot information page is given out and no table
    assert(!fa1.holds(window));
    assert(!fa1.fresh().contains(window));
    if m2.homes().contains_key(window) {
        assert(m1.homes().contains_key(window) || fa1.fresh().contains(window));
    }
    // all tables are old or from the window
    assert forall|t: u64| #[trigger] m2.homes().contains_key(t) implies image.tables <= t
        < pool.tables.limit() || window <= t < limit by {
        if !m1.homes().contains_key(t) {
            assert(fa1.fresh().contains(t));
            assert(fa1.holds(t));
        }
    }
    // the pool is untouched
    assert(pool.wf(m2)) by {
        assert forall|c: u64| #[trigger] pool.tables.fresh().contains(c) implies !m2.homes().contains_key(
            c,
        ) by {
            pool.tables.lemma_fresh(plat, c);
            if m2.homes().contains_key(c) {
                assert(m1.homes().contains_key(c) || fa1.fresh().contains(c));
                if fa1.fresh().contains(c) {
                    assert(fa1.holds(c));
                }
            }
        }
        assert(m1.homes().contains_key(pool.root1));
    }
    task_laws::lemma_spawned_keeps(
        plat,
        m1.space(),
        left,
        limit,
        len,
        rt.base as int,
        rt.entry as int,
        segs,
        window as int,
    );
    task_laws::lemma_spawned_adds_user_pages(
        plat,
        m1.space(),
        left,
        limit,
        len,
        rt.base as int,
        rt.entry as int,
        segs,
        window as int,
        window as int,
    );
    let stack = spawn::spawned(
        plat,
        m1.space(),
        left,
        limit,
        len,
        rt.base as int,
        rt.entry as int,
        segs,
        window as int,
    ).stack;
    task_laws::lemma_spawned_stack(
        plat,
        m1.space(),
        left,
        limit,
        len,
        rt.base as int,
        rt.entry as int,
        segs,
        window as int,
    );
    assert(window <= root < limit) by {
        if m1.homes().contains_key(root) {
            lemma_root_is_new(plat, m1, left, limit, len, fa1, root);
        }
        assert(m2.homes().contains_key(root));
        if !m1.homes().contains_key(root) {
            assert(fa1.fresh().contains(root));
            assert(fa1.holds(root));
        }
    }
    reveal(task_laws::adds_user_pages);
    assert forall|page: int| #[trigger]
        m2.space().leaves.contains_key((root, page)) implies task_laws::user_page(
        plat,
        window as int,
        limit,
        page,
        m2.space().leaves[(root, page)],
    ) && !m2.homes().contains_key(
        kernel::laws::frame_of(plat, m2.space().leaves[(root, page)]),
    ) by {
        if m1.space().leaves.contains_key((root, page)) {
            assert(m1.is_root(root));
            assert(m1.homes().contains_key(root));
        }
        task_laws::lemma_spawned_frames(
            plat,
            m1.space(),
            left,
            limit,
            len,
            rt.base as int,
            rt.entry as int,
            segs,
            window as int,
            page,
        );
        let desc = m2.space().leaves[(root, page)];
        if task_laws::user_page(plat, window + g, window + g + len, page, desc) {
            lemma_no_table_behind(plat, m2, window + g, len, page, desc);
        } else if task_laws::user_page(
            plat,
            stack,
            stack + spawn::USER_STACK_SIZE,
            page,
            desc,
        ) {
            lemma_no_table_behind(
                plat,
                m2,
                stack,
                spawn::USER_STACK_SIZE as int,
                page,
                desc,
            );
        } else {
            assert(spawn::no_tables(m2, window as int, 1)) by {
                assert forall|t: u64| #[trigger]
                    user::in_frames(plat, window as int, 1, t) implies t == window by {
                    lemma_one_frame(plat, window as int, t as int);
                }
            }
            lemma_no_table_behind(plat, m2, window as int, g, page, desc);
        }
    }
    assert forall|page: int| #[trigger]
        m2.space().leaves.contains_key((pool.root1, page)) implies laws::kernel_safe(
        m2.space().leaves[(pool.root1, page)],
    ) by {
        assert(m1.space().leaves.contains_key((pool.root1, page)));
    }
    assert forall|p: int|
        image.data <= p < image.stack_bottom - g || window <= p
            < limit implies #[trigger] m2.space().leaves.contains_key(
        (pool.root1, plat.page(p)),
    ) by {
        assert(m1.space().leaves.contains_key((pool.root1, plat.page(p))));
    }
}

/// An aligned address in one frame is that of the frame.
proof fn lemma_one_frame(plat: Platform, first: int, t: int)
    requires
        first <= t < first + 1 * plat.page_size(),
        (t - first) % plat.page_size() == 0,
    ensures
        t == first,
{
    match plat {
        Platform::Virt => {},
        Platform::Apple => {},
    }
}

/// A user page that leads into frames of which none is a table leads to no table.
proof fn lemma_no_table_behind(
    plat: Platform,
    m: &PhysMem,
    first: int,
    len: int,
    page: int,
    desc: u64,
)
    requires
        m.platform() == plat,
        task_laws::user_page(plat, first, first + len, page, desc),
        first % plat.page_size() == 0,
        0 <= len,
        len % plat.page_size() == 0,
        spawn::no_tables(m, first, len / plat.page_size()),
    ensures
        !m.homes().contains_key(kernel::laws::frame_of(plat, desc)),
{
    let g = plat.page_size();
    let (frame, perm) = choose|frame: u64, perm: UserPerm|
        {
            &&& desc == #[trigger] task_laws::user_desc(frame, perm)
            &&& plat.table_addr(frame)
            &&& first <= frame < first + len
        };
    kernel::laws::lemma_user_desc(plat, frame, perm);
    laws::lemma_whole_pages(plat, len);
    assert((frame - first) % g == 0) by {
        match plat {
            Platform::Virt => {},
            Platform::Apple => {},
        }
    }
    assert(user::in_frames(plat, first, len / g, frame));
}

/// The root table of the task is a frame of the window that was free.
proof fn lemma_root_is_new(
    plat: Platform,
    m: &PhysMem,
    left: int,
    limit: int,
    len: int,
    fa: &FrameAlloc,
    root: u64,
)
    requires
        fa.clear_of(m),
        fa.platform() == plat,
        fa.window().1 == limit,
        fa.left() == left,
        limit <= tree::VA_SPAN,
        limit - left * plat.page_size() == fa.mark(),
        0 <= len,
        len % plat.page_size() == 0,
        len / plat.page_size() < left,
        root == (limit - left * plat.page_size() + len) as u64,
    ensures
        !m.homes().contains_key(root),
{
    let g = plat.page_size();
    let n = len / g;
    fa.lemma_parts();
    laws::lemma_whole_pages(plat, len);
    assert(fa.mark() + len < limit) by (nonlinear_arith)
        requires
            limit - left * g == fa.mark(),
            n * g == len,
            n < left,
            g > 0,
    ;
    assert(fa.holds(root));
}

/// Loads the root task: picks the frame window, makes it visible, and fills it with the
/// image, the stack and the tables.
#[verifier::rlimit(30)]
pub fn load_root(
    plat: Platform,
    info: &BootInfo,
    kernel_image: &Range<usize>,
    image: &Image,
    rt: &VerifiedRootTask,
    pool: &mut Pool,
    m: &mut PhysMem,
) -> (r: Result<Loaded, StartError>)
    requires
        info@.within_limits(),
        info.dtb.start <= info.dtb.end,
        memory_in_range(info@.memory),
        image.laid_out(plat),
        kernel_image.end == image.end,
        init::kernel_up(plat, image, old(pool), old(m)),
    ensures
        final(m).wf(),
        final(m).settled() == old(m).settled(),
        final(m).platform() == plat,
        final(pool).root1 == old(pool).root1,
        ({
            let memory = info@.memory;
            let obs = memmap::obstacles(info);
            let w = window_start(plat, image.end as int, memory, obs);
            let out = loading(
                plat,
                w,
                old(pool),
                old(m),
                rt.image@.len() as int,
                rt.base as int,
                rt.entry as int,
                load_segs(rt.segments@),
            );
            if exists|s: int| memmap::suitable(plat, image.end as int, memory, obs, s) {
                &&& is_window(plat, image.end as int, memory, obs, w)
                &&& final(m).space() == out.space
                &&& final(pool).tables.free() == out.free
                &&& match r {
                    Err(e) => out.answer == Err::<u64, StartError>(e),
                    Ok(l) => {
                        &&& out.answer == Ok::<u64, StartError>(l.root)
                        &&& l.window == w
                        &&& l.tcb@ == spawn::entry_task(rt.entry, spawn::USER_STACK_TOP, l.root)
                        &&& root_loaded(plat, image, final(pool), final(m), l.window, l.root)
                        &&& final(m)@[l.window] == mem::zeros(plat)
                        &&& spawn::holds_image(
                            plat,
                            final(m)@,
                            l.window + plat.page_size(),
                            rt.image@,
                        )
                        &&& spawn::holds_zeros(plat, final(m)@, out.stack, stack_frames(plat))
                        &&& l.window < out.stack
                    },
                }
            } else {
                &&& r matches Err(e) && e == StartError::NoWindow
                &&& *final(m) == *old(m)
                &&& *final(pool) == *old(pool)
            }
        }),
{
    let window = match open_window(plat, info, kernel_image, image, pool, m) {
        Ok(w) => w,
        Err(e) => {
            return Err(e);
        },
    };
    spawn_in_window(plat, image, window, rt, pool, m)
}

/// Regions of memory as the capabilities know them.
pub open spec fn phys_regions(regions: Seq<MemRegion>) -> Seq<PhysRegion> {
    regions.map_values(|r: MemRegion| PhysRegion { base: r.base, size: r.size })
}

/// What the root task gets no capability for: the kernel image, the device tree, the
/// frame window, and what the firmware has reserved.
pub open spec fn reserved_regions(info: &BootInfo, image: &Image, window: u64) -> Seq<PhysRegion> {
    seq![
        PhysRegion { base: image.text, size: (image.end - image.text) as u64 },
        PhysRegion {
            base: memmap::dtb_region(info).base,
            size: memmap::dtb_region(info).size,
        },
        PhysRegion { base: window, size: memmap::WINDOW_SIZE },
    ] + phys_regions(info@.reserved)
}

/// Adds regions to a list.
fn push_regions(list: &mut Vec<PhysRegion>, regions: &[MemRegion])
    ensures
        final(list)@ == old(list)@ + phys_regions(regions@),
{
    let mut i: usize = 0;
    while i < regions.len()
        invariant
            i <= regions.len(),
            list@ == old(list)@ + phys_regions(regions@).take(i as int),
        decreases regions.len() - i,
    {
        list.push(PhysRegion { base: regions[i].base, size: regions[i].size });
        i += 1;
        assert(list@ =~= old(list)@ + phys_regions(regions@).take(i as int));
    }
    assert(list@ =~= old(list)@ + phys_regions(regions@));
}

/// The capabilities that the root task starts with.
pub open spec fn root_caps(info: &BootInfo, image: &Image, window: u64, root: u64) -> Result<
    Seq<Cap>,
    CapError,
> {
    cap::with_memory(
        cap::first_caps(root),
        phys_regions(info@.memory),
        reserved_regions(info, image, window),
    )
}

/// Makes the capabilities that the root task starts with: all physical memory is untyped
/// but for the kernel image, the device tree, the window and the reserved regions.
fn make_caps(info: &BootInfo, image: &Image, window: u64, root: u64) -> (r: Result<
    CNode,
    CapError,
>)
    requires
        info.dtb.start <= info.dtb.end,
        image.text <= image.end,
    ensures
        match r {
            Ok(cnode) => cnode.wf() && root_caps(info, image, window, root) == Ok::<
                Seq<Cap>,
                CapError,
            >(cnode@),
            Err(e) => root_caps(info, image, window, root) == Err::<Seq<Cap>, CapError>(e),
        },
{
    let mut memory: Vec<PhysRegion> = Vec::new();
    push_regions(&mut memory, info.memory());
    assert(memory@ =~= phys_regions(info@.memory));
    let mut reserved: Vec<PhysRegion> = Vec::new();
    reserved.push(PhysRegion { base: image.text, size: image.end - image.text });
    reserved.push(
        PhysRegion {
            base: info.dtb.start as u64,
            size: (info.dtb.end - info.dtb.start) as u64,
        },
    );
    reserved.push(PhysRegion { base: window, size: memmap::WINDOW_SIZE });
    push_regions(&mut reserved, info.reserved());
    assert(reserved@ =~= reserved_regions(info, image, window));
    cap::bootstrap(memory.as_slice(), reserved.as_slice(), root)
}

/// The system in which nothing but the root task runs.
pub open spec fn first_system(at: u64, task: TaskView) -> SystemView {
    SystemView {
        tasks: map![at => task.with_state(TaskState::Running)],
        eps: Map::empty(),
        ready: Seq::empty(),
        current: at,
        context: at,
        ttbr0: task.ttbr0_pa,
    }
}

/// Makes the system in which nothing but the root task runs.
fn make_system(at: u64, tcb: Tcb) -> (r: System)
    requires
        at != 0,
        tcb@.reply_to == 0,
    ensures
        r.wf(),
        r@.running(),
        r@ == first_system(at, tcb@),
{
    let root = tcb.ttbr0_pa;
    let mut sys = System::new();
    sys.add_task(at, tcb);
    sched::install_user_ttbr0(&mut sys, root);
    assert(sys@.tasks.dom() =~= set![at]);
    sched::handoff(&mut sys, at);
    assert(sys@.tasks =~= first_system(at, tcb@).tasks);
    sys
}

/// The kernel is as it should be once the root task has its capabilities.
proof fn lemma_started(k: &Kernel, info: &BootInfo, image: &Image, l: &Loaded)
    requires
        image.laid_out(k.plat),
        memory_in_range(info@.memory),
        root_loaded(k.plat, image, &k.pool, &k.mem, l.window, l.root),
        k.cnode.wf(),
        root_caps(info, image, l.window, l.root) == Ok::<Seq<Cap>, CapError>(k.cnode@),
        k.sys.wf(),
        k.sys@ == first_system(kernel::alias(image.root_tcb), l.tcb@),
    ensures
        k.wf(),
{
    let plat = k.plat;
    let memory = phys_regions(info@.memory);
    let reserved = reserved_regions(info, image, l.window);
    let at = kernel::alias(image.root_tcb);
    k.pool.tables.lemma_fresh(plat, 0);
    cap::lemma_first_caps_shape(l.root, memory, reserved, k.cnode@);
    let first = cap::first_caps(l.root);
    assert forall|i: int| 0 <= i < k.cnode@.len() implies k.cap_ok(#[trigger] k.cnode@[i]) by {
        if i < 4 {
            assert(k.cnode@.take(4)[i] == k.cnode@[i]);
            assert(first[i] == k.cnode@[i]);
        } else {
            assert(k.cnode@[i] is Untyped);
            let c = k.cnode@[i];
            let j = choose|j: int|
                0 <= j < memory.len() && (#[trigger] memory[j]).base <= c->Untyped_base
                    && c->Untyped_base + c->size <= memory[j].base + memory[j].size;
            assert(info@.memory[j].base + info@.memory[j].size <= tree::VA_SPAN);
        }
    }
    assert(k.tables_apart()) by {
        assert forall|i: int| 0 <= i < k.cnode@.len() implies !((#[trigger] k.cnode@[i]) is PageTable) by {
            if i < 4 {
                assert(k.cnode@.take(4)[i] == k.cnode@[i]);
                assert(first[i] == k.cnode@[i]);
            } else {
                assert(k.cnode@[i] is Untyped);
            }
        }
    }
    assert forall|t: u64| #[trigger] k.mem.homes().contains_key(t) implies k.sees(t as int) by {
        assert(k.mem.space().leaves.contains_key((k.pool.root1, plat.page(t as int))));
    }
    assert forall|t: int| #[trigger] k.in_pool(t) implies k.sees(t) by {
        assert(k.mem.space().leaves.contains_key((k.pool.root1, plat.page(t))));
    }
    assert forall|t: u64| #[trigger] k.sys@.tasks.contains_key(t) implies t
        >= abi::KERNEL_VA_OFFSET && k.sees(t - abi::KERNEL_VA_OFFSET) by {
        assert(t == at);
        assert(k.mem.space().leaves.contains_key(
            (k.pool.root1, plat.page(image.root_tcb as int)),
        ));
    }
}

/// Isolation holds from the start, where the device tree names no memory twice.
proof fn lemma_started_isolated(k: &Kernel, info: &BootInfo, image: &Image, l: &Loaded)
    requires
        image.laid_out(k.plat),
        memory_in_range(info@.memory),
        cap::disjoint_regions(phys_regions(info@.memory)),
        root_loaded(k.plat, image, &k.pool, &k.mem, l.window, l.root),
        k.cnode.wf(),
        root_caps(info, image, l.window, l.root) == Ok::<Seq<Cap>, CapError>(k.cnode@),
        k.sys@ == first_system(kernel::alias(image.root_tcb), l.tcb@),
        l.tcb@.ttbr0_pa == l.root,
    ensures
        k@.isolated(),
{
    let v = k@;
    let plat = k.plat;
    let g = plat.page_size();
    let caps = k.cnode@;
    let memory = phys_regions(info@.memory);
    let reserved = reserved_regions(info, image, l.window);
    let limit = l.window + memmap::WINDOW_SIZE;
    let first = cap::first_caps(l.root);
    k.pool.tables.lemma_fresh(plat, 0);
    cap::lemma_first_caps_shape(l.root, memory, reserved, caps);
    cap::lemma_first_caps_exclusive(l.root, memory, reserved, caps, g);
    assert forall|i: int| 0 <= i < 4 implies first[i] == #[trigger] caps[i] by {
        assert(caps.take(4)[i] == caps[i]);
    }
    assert forall|i: int| 0 <= i < caps.len() implies (#[trigger] caps[i]).valid() && v.cap_placed(
        caps[i],
    ) by {
        if i < 4 {
            assert(first[i] == caps[i]);
        } else {
            let c = caps[i];
            assert(c is Untyped);
            let j = choose|j: int|
                0 <= j < memory.len() && (#[trigger] memory[j]).base <= c->Untyped_base
                    && c->Untyped_base + c->size <= memory[j].base + memory[j].size;
            assert(info@.memory[j].base + info@.memory[j].size <= tree::VA_SPAN);
        }
    }
    assert(v.is_space(l.root)) by {
        assert(caps[2] == first[2]);
    }
    assert forall|r: u64| v.is_space(r) implies r == l.root by {
        let i = choose|i: int|
            0 <= i < caps.len() && #[trigger] caps[i] == (Cap::AddrSpace { root_pa: r });
        if i < 4 {
            assert(first[i] == caps[i]);
        } else {
            assert(caps[i] is Untyped);
        }
    }
    assert forall|i: int, t: u64|
        #![trigger caps[i], v.tables.contains(t)]
        0 <= i < caps.len() && !(caps[i] is PageTable) && v.tables.contains(t) implies !cap::area(
        caps[i],
        g,
        t as int,
    ) by {
        if i < 4 {
            assert(first[i] == caps[i]);
        } else if cap::area(caps[i], g, t as int) {
            assert(caps[i] is Untyped);
            assert(caps[i].spans(t as int));
            assert(cap::in_untyped(caps, t as int));
            cap::lemma_untyped_is_free_memory(l.root, memory, reserved, caps, t as int);
            assert(reserved[0].has(t as int) || reserved[2].has(t as int));
            assert(cap::is_reserved(reserved, t as int));
        }
    }
    assert forall|r: u64, page: int| #[trigger] v.space.leaves.contains_key((r, page)) implies {
        &&& r == v.root1 ==> laws::kernel_safe(v.space.leaves[(r, page)])
        &&& v.is_space(r) ==> v.user_page_safe(page, v.space.leaves[(r, page)])
    } by {
        if v.is_space(r) {
            let desc = v.space.leaves[(r, page)];
            assert(task_laws::user_page(plat, l.window as int, limit, page, desc));
            let (frame, perm) = choose|frame: u64, perm: UserPerm|
                {
                    &&& desc == #[trigger] task_laws::user_desc(frame, perm)
                    &&& plat.table_addr(frame)
                    &&& l.window <= frame < limit
                };
            kernel::laws::lemma_user_desc(plat, frame, perm);
            user::lemma_user_w_xor_x(perm);
            cap::lemma_untyped_is_free_memory(l.root, memory, reserved, caps, frame as int);
            assert(reserved[2].has(frame as int));
            assert(cap::is_reserved(reserved, frame as int));
            assert forall|i: int|
                0 <= i < caps.len() && !((#[trigger] caps[i]) is Frame) implies !cap::area(
                caps[i],
                g,
                frame as int,
            ) by {
                if i < 4 {
                    assert(first[i] == caps[i]);
                } else if cap::area(caps[i], g, frame as int) {
                    assert(caps[i] is Untyped);
                    assert(caps[i].spans(frame as int));
                    assert(cap::in_untyped(caps, frame as int));
                }
            }
        }
    }
}

/// What is said of a root task that could not be started.
pub open spec fn failure_text(e: StartError) -> Seq<u8> {
    match e {
        StartError::NoWindow => earlycon::text("k0: no frame window in memory map\n"),
        StartError::Window(e) => report::failure_line(
            "k0: window map failed: ",
            report::mmu_error_text(e),
        ),
        StartError::Frames(e) => report::failure_line(
            "k0: frame alloc failed: ",
            report::mmu_error_text(e),
        ),
        StartError::BootinfoFrame(e) => report::failure_line(
            "k0: bootinfo frame alloc failed: ",
            report::mmu_error_text(e),
        ),
        StartError::TooManySegments => earlycon::text("k0: too many root task segments\n"),
        StartError::Spawn(e) => report::spawn_failure_line(e),
        StartError::Caps(e) => report::failure_line(
            "k0: cap bootstrap failed: ",
            report::cap_error_text(e),
        ),
    }
}

fn say_start_failure(con: &mut EarlyCon, e: StartError)
    ensures
        final(con)@ == old(con)@ + failure_text(e),
        final(con).same_port(old(con)),
{
    match e {
        StartError::NoWindow => {
            con.put_str("k0: no frame window in memory map\n");
        },
        StartError::Window(e) => {
            report::say_failure(con, "k0: window map failed: ", report::mmu_error_name(e));
        },
        StartError::Frames(e) => {
            report::say_failure(con, "k0: frame alloc failed: ", report::mmu_error_name(e));
        },
        StartError::BootinfoFrame(e) => {
            report::say_failure(
                con,
                "k0: bootinfo frame alloc failed: ",
                report::mmu_error_name(e),
            );
        },
        StartError::TooManySegments => {
            con.put_str("k0: too many root task segments\n");
        },
        StartError::Spawn(e) => {
            report::say_spawn_failure(con, e);
        },
        StartError::Caps(e) => {
            report::say_failure(con, "k0: cap bootstrap failed: ", report::cap_error_name(e));
        },
    }
}

/// What starting the root task comes to: its window and root table and its capabilities,
/// or the reason of the failure.
pub open spec fn outcome(
    plat: Platform,
    info: &BootInfo,
    image: &Image,
    rt: &VerifiedRootTask,
    pool: &Pool,
    m: &PhysMem,
) -> Result<(u64, u64, Seq<Cap>), StartError> {
    let memory = info@.memory;
    let obs = memmap::obstacles(info);
    if exists|s: int| memmap::suitable(plat, image.end as int, memory, obs, s) {
        let w = window_start(plat, image.end as int, memory, obs);
        match root_loading(plat, info, image, rt, pool, m).answer {
            Err(e) => Err(e),
            Ok(root) => match root_caps(info, image, w as u64, root) {
                Err(e) => Err(StartError::Caps(e)),
                Ok(caps) => Ok((w as u64, root, caps)),
            },
        }
    } else {
        Err(StartError::NoWindow)
    }
}

/// What loading the root task does.
pub open spec fn root_loading(
    plat: Platform,
    info: &BootInfo,
    image: &Image,
    rt: &VerifiedRootTask,
    pool: &Pool,
    m: &PhysMem,
) -> Loading {
    loading(
        plat,
        window_start(plat, image.end as int, info@.memory, memmap::obstacles(info)),
        pool,
        m,
        rt.image@.len() as int,
        rt.base as int,
        rt.entry as int,
        load_segs(rt.segments@),
    )
}

/// Where the image of the root task is loaded: behind the first frame of the window.
pub open spec fn image_place(plat: Platform, info: &BootInfo, kernel_end: int) -> int {
    window_start(plat, kernel_end, info@.memory, memmap::obstacles(info)) + plat.page_size()
}

/// Where the upper half shows the image of the root task that has been loaded. None where
/// there is no window to load it into.
pub fn loaded_image(plat: Platform, info: &BootInfo, kernel_image: &Range<usize>) -> (r: Option<
    u64,
>)
    requires
        info@.within_limits(),
        info.dtb.start <= info.dtb.end,
        memory_in_range(info@.memory),
    ensures
        ({
            let k = kernel_image.end as int;
            match r {
                Some(at) => at == image_place(plat, info, k) + abi::KERNEL_VA_OFFSET,
                None => forall|s: int|
                    !(#[trigger] memmap::suitable(
                        plat,
                        k,
                        info@.memory,
                        memmap::obstacles(info),
                        s,
                    )),
            }
        }),
{
    let window = match memmap::pick_window(plat, info, kernel_image) {
        Some(w) => w,
        None => {
            return None;
        },
    };
    let start = window.start;
    proof {
        let k = kernel_image.end as int;
        let memory = info@.memory;
        let obs = memmap::obstacles(info);
        assert(is_window(plat, k, memory, obs, start as int));
        let w = window_start(plat, k, memory, obs);
        assert(is_window(plat, k, memory, obs, w));
        assert(w == start);
        let i = choose|i: int|
            0 <= i < memory.len() && memmap::holds_window(#[trigger] memory[i], start as int);
    }
    Some(start + plat.granule() + abi::KERNEL_VA_OFFSET)
}

/// What is said while the root task is started.
pub open spec fn start_text(entry: u64, root: u64, caps: Seq<Cap>) -> Seq<u8> {
    report::loaded_line(entry, root) + report::caps_lines(caps) + earlycon::text(
        "k0: bootinfo page ready\n",
    )
}

/// Loads the root task, gives it its capabilities and makes it the running task.
///
/// The task finds a description of its capabilities in the boot information page. Where
/// it cannot be started the reason is written to the console, and the machine must stop.
#[verifier::rlimit(30)]
pub fn start_root(
    plat: Platform,
    con: EarlyCon,
    info: &BootInfo,
    kernel_image: &Range<usize>,
    image: &Image,
    rt: &VerifiedRootTask,
    pool: Pool,
    m: PhysMem,
) -> (r: Result<Kernel, (EarlyCon, StartError)>)
    requires
        info@.within_limits(),
        info.dtb.start <= info.dtb.end,
        memory_in_range(info@.memory),
        image.laid_out(plat),
        kernel_image.end == image.end,
        init::kernel_up(plat, image, &pool, &m),
    ensures
        match (r, outcome(plat, info, image, rt, &pool, &m)) {
            (Err((c, e)), Err(why)) => {
                &&& e == why
                &&& c.same_port(&con)
                &&& c@ == con@ + (if e is Caps {
                    report::loaded_line(
                        rt.entry,
                        root_loading(plat, info, image, rt, &pool, &m).answer->Ok_0,
                    )
                } else {
                    Seq::empty()
                }) + failure_text(e)
            },
            (Ok(k), Ok((window, root, caps))) => {
                let entry = spawn::entry_task(rt.entry, spawn::USER_STACK_TOP, root);
                let loaded = root_loading(plat, info, image, rt, &pool, &m);
                &&& k.wf()
                &&& k.sys@.running()
                &&& k.mem.settled() == m.settled()
                &&& k.con.same_port(&con)
                &&& k.plat == plat
                &&& k@.caps == caps
                &&& k@.sys == first_system(kernel::alias(image.root_tcb), entry)
                &&& k@.space == loaded.space
                &&& k@.free == loaded.free
                &&& k@.root1 == pool.root1
                &&& forall|t: u64| #[trigger]
                    k@.tables.contains(t) ==> image.text <= t < image.end || window <= t < window
                        + memmap::WINDOW_SIZE
                &&& k@.out == con@ + start_text(rt.entry, root, caps)
                &&& k@.data.contains_key(window)
                &&& k@.data[window] == bootinfo::page_words(plat, caps, mem::zeros(plat))
                &&& spawn::holds_image(
                    plat,
                    k.mem@,
                    image_place(plat, info, image.end as int),
                    rt.image@,
                )
                &&& spawn::holds_zeros(plat, k.mem@, loaded.stack, stack_frames(plat))
                &&& cap::disjoint_regions(phys_regions(info@.memory)) ==> k@.isolated()
            },
            _ => false,
        },
{
    let mut con = con;
    let mut pool = pool;
    let mut m = m;
    let ghost con0 = con@;
    let ghost stack = root_loading(plat, info, image, rt, &pool, &m).stack;
    let l = match load_root(plat, info, kernel_image, image, rt, &mut pool, &mut m) {
        Ok(l) => l,
        Err(e) => {
            say_start_failure(&mut con, e);
            assert(con@ =~= con0 + Seq::<u8>::empty() + failure_text(e));
            return Err((con, e));
        },
    };
    report::say_loaded(&mut con, rt.entry, l.root);
    let cnode = match make_caps(info, image, l.window, l.root) {
        Ok(cnode) => cnode,
        Err(e) => {
            say_start_failure(&mut con, StartError::Caps(e));
            return Err((con, StartError::Caps(e)));
        },
    };
    report::say_caps(&mut con, &cnode);
    let ghost m1 = m;
    bootinfo::write_bootinfo(l.window, &cnode, &mut m);
    con.put_str("k0: bootinfo page ready\n");
    assert(con@ =~= con0 + start_text(rt.entry, l.root, cnode@));
    let sys = make_system(image.root_tcb + abi::KERNEL_VA_OFFSET, l.tcb);
    let k = Kernel { plat, con, cnode, sys, pool, mem: m };
    proof {
        lemma_bootinfo_written(
            plat,
            image,
            &pool,
            &m1,
            &m,
            l.window,
            l.root,
            rt.image@,
            stack,
            cnode@,
        );
        lemma_started(&k, info, image, &l);
        if cap::disjoint_regions(phys_regions(info@.memory)) {
            lemma_started_isolated(&k, info, image, &l);
        }
        pool.tables.lemma_fresh(plat, 0);
        assert(!k.in_pool(l.window as int));
    }
    Ok(k)
}

/// Writing the boot information page leaves everything else of a loaded root task.
proof fn lemma_bootinfo_written(
    plat: Platform,
    image: &Image,
    pool: &Pool,
    m1: &PhysMem,
    m2: &PhysMem,
    window: u64,
    root: u64,
    bytes: Seq<u8>,
    stack: int,
    caps: Seq<Cap>,
)
    requires
        root_loaded(plat, image, pool, m1, window, root),
        spawn::holds_zeros(plat, m1@, stack, stack_frames(plat)),
        window < stack,
        spawn::holds_image(plat, m1@, window + plat.page_size(), bytes),
        bytes.len() < memmap::WINDOW_SIZE,
        m2.wf(),
        m2.platform() == plat,
        m2.homes() == m1.homes(),
        m2.space() == m1.space(),
        m2@ == m1@.insert(window, bootinfo::page_words(plat, caps, m1@[window])),
    ensures
        root_loaded(plat, image, pool, m2, window, root),
        spawn::holds_image(plat, m2@, window + plat.page_size(), bytes),
        spawn::holds_zeros(plat, m2@, stack, stack_frames(plat)),
{
    assert forall|i: int| 0 <= i < bytes.len() as int / plat.page_size() implies {
        &&& m2@.contains_key(#[trigger] spawn::nth_frame(plat, window + plat.page_size(), i))
        &&& m2@[spawn::nth_frame(plat, window + plat.page_size(), i)] == spawn::image_frame(
            plat,
            bytes,
            i * plat.page_size(),
        )
    } by {
        let g = plat.page_size();
        let n = bytes.len() as int / g;
        vstd::arithmetic::div_mod::lemma_fundamental_div_mod(bytes.len() as int, g);
        assert(0 <= i * g && i * g <= g * n) by (nonlinear_arith)
            requires
                0 <= i < n,
                g > 0,
        ;
        assert(spawn::nth_frame(plat, window + g, i) == window + g + i * g);
    }
}

/// An image that was made from a sound file is never refused for its layout, on any
/// platform: where it cannot be loaded, memory has run out or is mapped already.
pub proof fn lemma_built_image_has_good_layout(
    elf: Seq<u8>,
    plat: Platform,
    s: Space,
    left: int,
    limit: int,
    bootinfo_pa: int,
)
    requires
        image::image_error(elf) is None,
    ensures
        ({
            let (entry, segs) = image::elf_parsed(elf)->Ok_0;
            let list = load_segs(image::rt_segments(segs));
            &&& list.len() <= MAX_SEGS
            &&& spawn::spawned(
                plat,
                s,
                left,
                limit,
                image::flat(elf, segs).len() as int,
                segs[0].vaddr as int,
                entry as int,
                list,
                bootinfo_pa,
            ).answer != Err::<u64, SpawnError>(SpawnError::BadLayout)
        }),
{
    let (entry, segs) = image::elf_parsed(elf)->Ok_0;
    let list = load_segs(image::rt_segments(segs));
    lemma_built_segs_good(elf, plat);
    assert(image::flat(elf, segs).len() == image::span(segs));
    lemma_good_layout(
        plat,
        s,
        left,
        limit,
        image::span(segs),
        segs[0].vaddr as int,
        entry as int,
        list,
        bootinfo_pa,
    );
}

/// The segments of an image that was made from a sound file are good ones.
proof fn lemma_built_segs_good(elf: Seq<u8>, plat: Platform)
    requires
        image::image_error(elf) is None,
    ensures
        ({
            let (entry, segs) = image::elf_parsed(elf)->Ok_0;
            let list = load_segs(image::rt_segments(segs));
            let base = segs[0].vaddr as int;
            let len = image::span(segs);
            &&& 0 < list.len() <= MAX_SEGS
            &&& base % plat.page_size() == 0
            &&& len % plat.page_size() == 0
            &&& len > 0
            &&& base + len <= u64::MAX
            &&& base <= entry < base + len
            &&& forall|i: int|
                0 <= i < list.len() ==> good_seg(
                    plat,
                    base,
                    base + len,
                    entry as int,
                    #[trigger] list[i],
                )
        }),
{
    let (entry, segs) = image::elf_parsed(elf)->Ok_0;
    let list = load_segs(image::rt_segments(segs));
    let g = plat.page_size();
    let base = segs[0].vaddr as int;
    let len = image::span(segs);
    image::lemma_parsed_ok(elf);
    assert forall|i: int| 0 <= i < segs.len() implies (#[trigger] segs[i]).memsz > 0 by {
        assert(image::seg_ok(elf, segs[i]));
    }
    image::lemma_placement(segs, entry, 0, 0);
    lemma_aligned_everywhere(plat, base);
    lemma_aligned_everywhere(plat, len);
    let e = choose|i: int| 0 <= i < segs.len() && image::is_code_at(#[trigger] segs[i], entry);
    assert(image::is_code_at(segs[e], entry));
    image::lemma_placement(segs, entry, e, e);
    assert forall|i: int| 0 <= i < list.len() implies good_seg(
        plat,
        base,
        base + len,
        entry as int,
        #[trigger] list[i],
    ) by {
        assert(list[i].va == segs[i].vaddr && list[i].memsz == segs[i].memsz);
        assert(list[i].kind == seg_kind(image::kind_of(segs[i].flags)));
        image::lemma_placement(segs, entry, i, i);
        lemma_aligned_everywhere(plat, segs[i].vaddr as int);
        if i < e {
            image::lemma_placement(segs, entry, i, e);
        } else if e < i {
            image::lemma_placement(segs, entry, e, i);
        }
    }
}

/// What is aligned for the greatest page size is aligned for every platform.
proof fn lemma_aligned_everywhere(plat: Platform, v: int)
    requires
        v % image::SEG_ALIGN as int == 0,
    ensures
        v % plat.page_size() == 0,
{
    match plat {
        Platform::Virt => {},
        Platform::Apple => {},
    }
}

/// A task whose segments are good is not refused for its layout.
proof fn lemma_good_layout(
    plat: Platform,
    s: Space,
    left: int,
    limit: int,
    len: int,
    base: int,
    entry: int,
    segs: Seq<LoadSeg>,
    bootinfo_pa: int,
)
    requires
        segs.len() > 0,
        base % plat.page_size() == 0,
        len % plat.page_size() == 0,
        len > 0,
        base + len <= u64::MAX,
        base <= entry < base + len,
        forall|i: int|
            0 <= i < segs.len() ==> good_seg(plat, base, base + len, entry, #[trigger] segs[i]),
    ensures
        spawn::spawned(plat, s, left, limit, len, base, entry, segs, bootinfo_pa).answer != Err::<
            u64,
            SpawnError,
        >(SpawnError::BadLayout),
{
    let g = plat.page_size();
    let frames = limit - left * g;
    lemma_good_segs(
        plat,
        s,
        left - len / g - 1,
        (frames + len) as u64,
        frames,
        base,
        base + len,
        entry,
        segs,
    );
}

/// Whether a segment cannot be refused for its layout.
spec fn good_seg(plat: Platform, base: int, image_end: int, entry: int, seg: LoadSeg) -> bool {
    &&& base <= seg.va
    &&& seg.va + seg.memsz <= image_end
    &&& seg.va as int % plat.page_size() == 0
    &&& seg.memsz > 0
    &&& seg.va <= entry < seg.va + seg.memsz ==> seg.kind == SegKind::Text
}

proof fn lemma_good_segs(
    plat: Platform,
    s: Space,
    left: int,
    root: u64,
    frames: int,
    base: int,
    image_end: int,
    entry: int,
    segs: Seq<LoadSeg>,
)
    requires
        forall|i: int|
            0 <= i < segs.len() ==> good_seg(plat, base, image_end, entry, #[trigger] segs[i]),
    ensures
        spawn::segs_loaded(plat, s, left, root, frames, base, image_end, entry, segs).answer
            != Err::<(), SpawnError>(SpawnError::BadLayout),
    decreases segs.len(),
{
    if segs.len() > 0 {
        lemma_good_segs(
            plat,
            s,
            left,
            root,
            frames,
            base,
            image_end,
            entry,
            segs.drop_last(),
        );
        assert(good_seg(plat, base, image_end, entry, segs[segs.len() - 1]));
    }
}

} // verus!
