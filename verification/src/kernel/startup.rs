//! What the start of the kernel hands out and keeps, byte by byte.
use vstd::prelude::*;

use crate::boot::entropy;
use crate::boot::fdt::{BootInfo, MemRegion};
use crate::boot::roottask::{RtSegment, VerifiedRootTask};
use crate::boot::sha256;
use crate::bytes;
use crate::cap::{self, Cap, CapError, PhysRegion};
use crate::kernel::bootinfo;
use crate::kernel::init::Image;
use crate::kernel::memmap;
use crate::kernel::start::{self, StartError};
use crate::mm::mem::PhysMem;
use crate::mm::paging::{self, Pool};
use crate::platform::Platform;
use crate::task::spawn::{self, SpawnError};
use crate::task::{TaskState, TaskView};

verus! {

/// Whether a region holds a byte.
pub open spec fn holds(r: MemRegion, p: int) -> bool {
    r.base <= p < r.base + r.size
}

/// Whether one of the regions holds a byte.
pub open spec fn held(regions: Seq<MemRegion>, p: int) -> bool {
    exists|i: int| 0 <= i < regions.len() && #[trigger] holds(regions[i], p)
}

/// Whether an untyped capability in a slot holds a byte.
pub open spec fn handed_out(caps: Seq<Cap>, i: int, p: int) -> bool {
    caps[i] is Untyped && caps[i]->Untyped_base <= p < caps[i]->Untyped_base + caps[i]->size
}

/// The root task gets all memory as untyped but for the kernel image, the device tree, the
/// window of the kernel and what the firmware has reserved: a byte is handed out exactly
/// where it is memory and nobody else's. Its first capabilities are none, its own control
/// block, its address space and the console.
pub proof fn lemma_all_other_memory_is_handed_out(
    info: &BootInfo,
    image: &Image,
    window: u64,
    root: u64,
    caps: Seq<Cap>,
    p: int,
)
    requires
        start::root_caps(info, image, window, root) == Ok::<Seq<Cap>, CapError>(caps),
        info.dtb.start <= info.dtb.end,
        image.text <= image.end,
    ensures
        (exists|i: int| 0 <= i < caps.len() && #[trigger] handed_out(caps, i, p)) <==> {
            &&& held(info@.memory, p)
            &&& !(image.text <= p < image.end)
            &&& !(info.dtb.start <= p < info.dtb.end)
            &&& !(window <= p < window + 0x20_0000)
            &&& !held(info@.reserved, p)
        },
        caps.len() >= 4,
        caps[0] == Cap::Empty,
        caps[1] == Cap::RootTcb,
        caps[2] == (Cap::AddrSpace { root_pa: root }),
        caps[3] == Cap::Console,
        forall|i: int|
            4 <= i < caps.len() ==> (#[trigger] caps[i]) is Untyped && caps[i]->used == 0
                && caps[i]->size > 0,
{
    let memory = start::phys_regions(info@.memory);
    let reserved = start::reserved_regions(info, image, window);
    cap::lemma_untyped_is_free_memory(root, memory, reserved, caps, p);
    cap::lemma_first_caps_shape(root, memory, reserved, caps);
    assert(caps.take(4)[0] == caps[0] && caps.take(4)[1] == caps[1] && caps.take(4)[2] == caps[2]
        && caps.take(4)[3] == caps[3]);
    assert(cap::in_untyped(caps, p) <==> exists|i: int|
        0 <= i < caps.len() && #[trigger] handed_out(caps, i, p)) by {
        if cap::in_untyped(caps, p) {
            let i = choose|i: int| 0 <= i < caps.len() && (#[trigger] caps[i]).spans(p);
            assert(handed_out(caps, i, p));
        }
        if exists|i: int| 0 <= i < caps.len() && #[trigger] handed_out(caps, i, p) {
            let i = choose|i: int| 0 <= i < caps.len() && #[trigger] handed_out(caps, i, p);
            assert(caps[i].spans(p));
        }
    }
    assert(cap::in_memory(memory, p) <==> held(info@.memory, p)) by {
        if cap::in_memory(memory, p) {
            let i = choose|i: int| 0 <= i < memory.len() && (#[trigger] memory[i]).has(p);
            assert(holds(info@.memory[i], p));
        }
        if held(info@.memory, p) {
            let i = choose|i: int| 0 <= i < info@.memory.len() && #[trigger] holds(info@.memory[i], p);
            assert(memory[i].has(p));
        }
    }
    let rsv = start::phys_regions(info@.reserved);
    assert(cap::is_reserved(reserved, p) <==> (image.text <= p < image.end || info.dtb.start <= p
        < info.dtb.end || window <= p < window + 0x20_0000 || held(info@.reserved, p))) by {
        assert(reserved[0].has(p) <==> image.text <= p < image.end);
        assert(reserved[1].has(p) <==> info.dtb.start <= p < info.dtb.end);
        assert(reserved[2].has(p) <==> window <= p < window + 0x20_0000);
        if cap::is_reserved(reserved, p) {
            let i = choose|i: int| 0 <= i < reserved.len() && (#[trigger] reserved[i]).has(p);
            if i >= 3 {
                assert(reserved[i] == rsv[i - 3]);
                assert(holds(info@.reserved[i - 3], p));
            }
        }
        if held(info@.reserved, p) {
            let i = choose|i: int|
                0 <= i < info@.reserved.len() && #[trigger] holds(info@.reserved[i], p);
            assert(reserved[i + 3] == rsv[i]);
            assert(reserved[i + 3].has(p));
        }
    }
}

/// Whether a byte is of the device tree or of a reserved region.
pub open spec fn taken(info: &BootInfo, p: int) -> bool {
    info.dtb.start <= p < info.dtb.end || held(info@.reserved, p)
}

/// The window of the kernel can lie at a page boundary behind its image exactly where one
/// region of memory holds all its 2 MiB and neither the device tree nor a reserved region
/// has a byte there.
pub proof fn lemma_window_is_free(plat: Platform, info: &BootInfo, kernel_end: int, s: int)
    requires
        info.dtb.start < info.dtb.end,
        forall|i: int| 0 <= i < info@.reserved.len() ==> (#[trigger] info@.reserved[i]).size > 0,
    ensures
        memmap::suitable(plat, kernel_end, info@.memory, memmap::obstacles(info), s) <==> {
            &&& s % plat.page_size() == 0
            &&& kernel_end <= s
            &&& exists|i: int|
                0 <= i < info@.memory.len() && (#[trigger] info@.memory[i]).base <= s && s
                    + 0x20_0000 <= info@.memory[i].base + info@.memory[i].size
            &&& forall|p: int| s <= p < s + 0x20_0000 ==> !#[trigger] taken(info, p)
        },
{
    let obs = memmap::obstacles(info);
    let clear = forall|p: int| s <= p < s + 0x20_0000 ==> !#[trigger] taken(info, p);
    let unblocked = forall|i: int| 0 <= i < obs.len() ==> !memmap::blocks(#[trigger] obs[i], s);
    if unblocked {
        assert forall|p: int| s <= p < s + 0x20_0000 implies !#[trigger] taken(info, p) by {
            assert(!memmap::blocks(obs[0], s));
            if held(info@.reserved, p) {
                let i = choose|i: int|
                    0 <= i < info@.reserved.len() && #[trigger] holds(info@.reserved[i], p);
                assert(obs[i + 1] == info@.reserved[i]);
                assert(!memmap::blocks(obs[i + 1], s));
            }
        }
    }
    if clear {
        assert forall|i: int| 0 <= i < obs.len() implies !memmap::blocks(#[trigger] obs[i], s) by {
            if memmap::blocks(obs[i], s) {
                let p = if obs[i].base as int > s {
                    obs[i].base as int
                } else {
                    s
                };
                if i == 0 {
                    assert(taken(info, p));
                } else {
                    assert(obs[i] == info@.reserved[i - 1]);
                    assert(info@.reserved[i - 1].size > 0);
                    assert(holds(info@.reserved[i - 1], p));
                    assert(taken(info, p));
                }
            }
        }
    }
    assert((exists|i: int|
        0 <= i < info@.memory.len() && memmap::holds_window(#[trigger] info@.memory[i], s)) <==> (
    exists|i: int|
        0 <= i < info@.memory.len() && (#[trigger] info@.memory[i]).base <= s && s + 0x20_0000
            <= info@.memory[i].base + info@.memory[i].size)) by {
        if exists|i: int|
            0 <= i < info@.memory.len() && memmap::holds_window(#[trigger] info@.memory[i], s) {
            let i = choose|i: int|
                0 <= i < info@.memory.len() && memmap::holds_window(#[trigger] info@.memory[i], s);
            assert(info@.memory[i].base <= s);
        }
        if exists|i: int|
            0 <= i < info@.memory.len() && (#[trigger] info@.memory[i]).base <= s && s + 0x20_0000
                <= info@.memory[i].base + info@.memory[i].size {
            let i = choose|i: int|
                0 <= i < info@.memory.len() && (#[trigger] info@.memory[i]).base <= s && s
                    + 0x20_0000 <= info@.memory[i].base + info@.memory[i].size;
            assert(memmap::holds_window(info@.memory[i], s));
        }
    }
}

/// Whether a region and a device share a byte.
pub open spec fn shared(m: MemRegion, dev: (int, int), p: int) -> bool {
    holds(m, p) && dev.0 <= p < dev.1
}

/// Memory is refused exactly where it shares a byte with a device: the serial port and, on
/// the machine that has them, the distributor and the redistributor of interrupts.
pub proof fn lemma_devices_are_not_memory(plat: Platform, memory: Seq<MemRegion>)
    requires
        forall|i: int| 0 <= i < memory.len() ==> (#[trigger] memory[i]).size > 0,
    ensures
        memmap::first_overlap(plat.device_spans(), memory, 0, 0) is None <==> forall|i: int, w: int, p: int|
            0 <= i < memory.len() && 0 <= w < 3 ==> !(#[trigger] shared(
                memory[i],
                plat.device_spans()[w],
                p,
            )),
        plat.device_spans().len() == 3,
        plat == Platform::Virt ==> plat.device_spans() == seq![
            (0x0900_0000int, 0x0900_1000int),
            (0x0800_0000int, 0x0801_0000int),
            (0x080A_0000int, 0x080C_0000int),
        ],
        plat == Platform::Apple ==> plat.device_spans() == seq![
            (0x2_3520_0000int, 0x2_3520_4000int),
            (0int, 0int),
            (0int, 0int),
        ],
{
    let devs = plat.device_spans();
    memmap::lemma_first_overlap(devs, memory, 0, 0);
    match memmap::first_overlap(devs, memory, 0, 0) {
        Some((w, i)) => {
            let p = if memory[i].base as int > devs[w].0 {
                memory[i].base as int
            } else {
                devs[w].0
            };
            assert(memory[i].size > 0);
            assert(shared(memory[i], devs[w], p));
        },
        None => {
            assert forall|i: int, w: int, p: int| 0 <= i < memory.len() && 0 <= w < 3 implies !(
            #[trigger] shared(memory[i], devs[w], p)) by {
                assert(!memmap::overlaps(memory[i], devs[w]));
            }
        },
    }
}

/// The kind of a capability, as the boot information page numbers it.
pub open spec fn kind_number(c: Cap) -> u64 {
    match c {
        Cap::Empty => 0,
        Cap::RootTcb => 1,
        Cap::Tcb { .. } => 1,
        Cap::AddrSpace { .. } => 2,
        Cap::Untyped { .. } => 3,
        Cap::Frame { .. } => 4,
        Cap::PageTable { .. } => 5,
        Cap::Endpoint { .. } => 6,
        Cap::Console => 7,
    }
}

/// The boot information page: version 1, the size of a frame and the number of
/// capabilities, then three words for each: its kind, and base and size, which are 0 but
/// for untyped memory. What follows stays as it was.
pub proof fn lemma_page(plat: Platform, caps: Seq<Cap>, before: Seq<u64>)
    requires
        3 * (caps.len() + 1) <= before.len() <= 0xFFFF_FFFF,
    ensures
        ({
            let words = bootinfo::page_words(plat, caps, before);
            &&& words.len() == before.len()
            &&& words[0] == 1
            &&& words[1] == plat.page_size()
            &&& words[2] == caps.len()
            &&& forall|i: int|
                #![trigger caps[i]]
                0 <= i < caps.len() ==> {
                    &&& words[3 * i + 3] == kind_number(caps[i])
                    &&& caps[i] is Untyped ==> words[3 * i + 4] == caps[i]->Untyped_base
                        && words[3 * i + 5] == caps[i]->size
                    &&& !(caps[i] is Untyped) ==> words[3 * i + 4] == 0 && words[3 * i + 5] == 0
                }
            &&& forall|j: int|
                3 * (caps.len() + 1) <= j < before.len() ==> #[trigger] words[j] == before[j]
        }),
{
    let words = bootinfo::page_words(plat, caps, before);
    assert forall|i: int|
        #![trigger caps[i]]
        0 <= i < caps.len() implies {
        &&& words[3 * i + 3] == kind_number(caps[i])
        &&& caps[i] is Untyped ==> words[3 * i + 4] == caps[i]->Untyped_base && words[3 * i + 5]
            == caps[i]->size
        &&& !(caps[i] is Untyped) ==> words[3 * i + 4] == 0 && words[3 * i + 5] == 0
    } by {
        assert((3 * i + 3) / 3 - 1 == i && (3 * i + 4) / 3 - 1 == i && (3 * i + 5) / 3 - 1 == i);
    }
    assert forall|j: int| 3 * (caps.len() + 1) <= j < before.len() implies #[trigger] words[j]
        == before[j] by {
        assert(j / 3 - 1 >= caps.len());
    }
}

/// The runs that are handed out are as long as they can be: what lies right before and
/// right behind one is not in its region of memory, or reserved.
pub proof fn lemma_runs_are_whole(lo: int, hi: int, reserved: Seq<PhysRegion>, k: int)
    requires
        0 <= k < cap::free_runs(lo, hi, reserved).len(),
    ensures
        ({
            let (a, b) = cap::free_runs(lo, hi, reserved)[k];
            let taken = |p: int|
                exists|i: int|
                    0 <= i < reserved.len() && (#[trigger] reserved[i]).base <= p < reserved[i].base
                        + reserved[i].size;
            &&& lo <= a < b <= hi
            &&& a == lo || taken(a - 1)
            &&& b == hi || taken(b)
        }),
    decreases hi - lo,
{
    let runs = cap::free_runs(lo, hi, reserved);
    let before = cap::free_runs(lo, hi - 1, reserved);
    if lo < hi {
        if k < before.len() {
            lemma_runs_are_whole(lo, hi - 1, reserved, k);
        }
        if cap::is_reserved(reserved, hi - 1) {
            let i = choose|i: int| 0 <= i < reserved.len() && (#[trigger] reserved[i]).has(hi - 1);
            assert(reserved[i].base <= hi - 1 < reserved[i].base + reserved[i].size);
        } else if before.len() > 0 {
            lemma_runs_are_whole(lo, hi - 1, reserved, before.len() - 1);
            lemma_run_before(lo, hi - 1, reserved);
            if k < before.len() - 1 || (k == before.len() - 1 && before.last().1 != hi - 1) {
                lemma_not_at_end(lo, hi - 1, reserved, k);
            }
        } else {
            lemma_run_before(lo, hi - 1, reserved);
        }
    }
}

/// Runs come in order, so that only the last can reach the end.
proof fn lemma_not_at_end(lo: int, hi: int, reserved: Seq<PhysRegion>, k: int)
    requires
        0 <= k < cap::free_runs(lo, hi, reserved).len(),
    ensures
        k < cap::free_runs(lo, hi, reserved).len() - 1 ==> cap::free_runs(lo, hi, reserved)[k].1
            < hi,
        cap::free_runs(lo, hi, reserved)[k].1 <= hi,
    decreases hi - lo,
{
    if lo < hi {
        let before = cap::free_runs(lo, hi - 1, reserved);
        if k < before.len() {
            lemma_not_at_end(lo, hi - 1, reserved, k);
        }
    }
}

/// Where no run reaches the end, what lies before it is reserved, or the start.
proof fn lemma_run_before(lo: int, hi: int, reserved: Seq<PhysRegion>)
    requires
        lo <= hi,
    ensures
        ({
            let runs = cap::free_runs(lo, hi, reserved);
            let taken = |p: int|
                exists|i: int|
                    0 <= i < reserved.len() && (#[trigger] reserved[i]).base <= p < reserved[i].base
                        + reserved[i].size;
            runs.len() == 0 || runs.last().1 != hi ==> hi == lo || taken(hi - 1)
        }),
{
    if lo < hi {
        if cap::is_reserved(reserved, hi - 1) {
            let i = choose|i: int| 0 <= i < reserved.len() && (#[trigger] reserved[i]).has(hi - 1);
            assert(reserved[i].base <= hi - 1 < reserved[i].base + reserved[i].size);
        }
    }
}

/// How many runs of free memory the regions have.
pub open spec fn run_count(memory: Seq<PhysRegion>, reserved: Seq<PhysRegion>) -> nat
    decreases memory.len(),
{
    if memory.len() == 0 {
        0
    } else {
        let m = memory.last();
        run_count(memory.drop_last(), reserved) + cap::free_runs(
            m.base as int,
            m.base + m.size,
            reserved,
        ).len()
    }
}

/// Memory is handed out exactly where all regions are sound and 28 slots are enough for
/// the runs of free memory.
pub proof fn lemma_enough_slots(root: u64, memory: Seq<PhysRegion>, reserved: Seq<PhysRegion>)
    ensures
        ({
            let r = cap::with_memory(cap::first_caps(root), memory, reserved);
            let sound = |s: Seq<PhysRegion>|
                forall|i: int|
                    0 <= i < s.len() ==> (#[trigger] s[i]).size > 0 && s[i].base + s[i].size
                        <= 0xFFFF_FFFF_FFFF_FFFF;
            let n = run_count(memory, reserved);
            &&& memory.len() == 0 ==> r is Ok
            &&& memory.len() > 0 ==> {
                &&& r is Ok <==> sound(memory) && sound(reserved) && n <= 28
                &&& r is Ok ==> r->Ok_0.len() == 4 + n
                &&& sound(memory) && sound(reserved) && n > 28 ==> r == Err::<Seq<Cap>, CapError>(
                    CapError::OutOfSlots,
                )
                &&& !(sound(memory) && sound(reserved)) && n <= 28 ==> r == Err::<
                    Seq<Cap>,
                    CapError,
                >(CapError::BadRegion)
            }
        }),
    decreases memory.len(),
{
    if memory.len() > 0 {
        let rest = memory.drop_last();
        lemma_enough_slots(root, rest, reserved);
        let m = memory.last();
        let sound = |s: Seq<PhysRegion>|
            forall|i: int|
                0 <= i < s.len() ==> (#[trigger] s[i]).size > 0 && s[i].base + s[i].size
                    <= 0xFFFF_FFFF_FFFF_FFFF;
        assert(sound(memory) <==> sound(rest) && m.size > 0 && m.base + m.size
            <= 0xFFFF_FFFF_FFFF_FFFF) by {
            if sound(memory) {
                assert(memory[memory.len() - 1] == m);
                assert forall|i: int| 0 <= i < rest.len() implies (#[trigger] rest[i]).size > 0
                    && rest[i].base + rest[i].size <= 0xFFFF_FFFF_FFFF_FFFF by {
                    assert(memory[i] == rest[i]);
                }
            }
            if sound(rest) && m.size > 0 && m.base + m.size <= 0xFFFF_FFFF_FFFF_FFFF {
                assert forall|i: int| 0 <= i < memory.len() implies (#[trigger] memory[i]).size > 0
                    && memory[i].base + memory[i].size <= 0xFFFF_FFFF_FFFF_FFFF by {
                    if i < rest.len() {
                        assert(memory[i] == rest[i]);
                    }
                }
            }
        }
        assert(cap::all_valid(reserved) <==> sound(reserved)) by {
            if cap::all_valid(reserved) {
                assert forall|i: int| 0 <= i < reserved.len() implies (#[trigger] reserved[i]).size
                    > 0 && reserved[i].base + reserved[i].size <= 0xFFFF_FFFF_FFFF_FFFF by {
                    assert(reserved[i].valid());
                }
            }
        }
    }
}

/// Where the window can be at all it can be at a lowest place.
proof fn lemma_lowest(
    plat: Platform,
    kernel_end: int,
    memory: Seq<MemRegion>,
    obs: Seq<MemRegion>,
    s: int,
) -> (r: int)
    requires
        memmap::suitable(plat, kernel_end, memory, obs, s),
    ensures
        memmap::suitable(plat, kernel_end, memory, obs, r),
        forall|t: int| #[trigger] memmap::suitable(plat, kernel_end, memory, obs, t) ==> r <= t,
    decreases s - kernel_end,
{
    if exists|t: int| t < s && #[trigger] memmap::suitable(plat, kernel_end, memory, obs, t) {
        let t = choose|t: int|
            t < s && #[trigger] memmap::suitable(plat, kernel_end, memory, obs, t);
        lemma_lowest(plat, kernel_end, memory, obs, t)
    } else {
        s
    }
}

/// The root task starts exactly where there is room for the window, the task can be
/// loaded into it and its capabilities can be made. The window is at the lowest place
/// that it can have: its first frame holds the boot information, and the others hold the
/// task and its tables.
pub proof fn lemma_start(
    plat: Platform,
    info: &BootInfo,
    image: &Image,
    rt: &VerifiedRootTask,
    pool: &Pool,
    m: &PhysMem,
)
    requires
        forall|i: int|
            0 <= i < info@.memory.len() ==> (#[trigger] info@.memory[i]).base + info@.memory[i].size
                <= 0x1_0000_0000_0000,
    ensures
        ({
            let end = image.end as int;
            let obs = memmap::obstacles(info);
            let r = start::outcome(plat, info, image, rt, pool, m);
            &&& r == Err::<(u64, u64, Seq<Cap>), StartError>(StartError::NoWindow) <==> forall|s: int|
                !#[trigger] memmap::suitable(plat, end, info@.memory, obs, s)
            &&& r is Ok ==> {
                let (w, root, caps) = r->Ok_0;
                let seen = paging::window_mapped(pool, m, w as int, w + 0x20_0000);
                let task = spawn::spawned(
                    plat,
                    seen.space,
                    0x20_0000int / plat.page_size() - 1,
                    w + 0x20_0000,
                    rt.image@.len() as int,
                    rt.base as int,
                    rt.entry as int,
                    start::load_segs(rt.segments@),
                    w as int,
                );
                &&& memmap::suitable(plat, end, info@.memory, obs, w as int)
                &&& forall|s: int|
                    #[trigger] memmap::suitable(plat, end, info@.memory, obs, s) ==> w <= s
                &&& seen.answer is Ok
                &&& rt.segments@.len() <= 4
                &&& task.answer == Ok::<u64, SpawnError>(root)
                &&& start::root_caps(info, image, w, root) == Ok::<Seq<Cap>, CapError>(caps)
            }
        }),
{
    let end = image.end as int;
    let obs = memmap::obstacles(info);
    if exists|s: int| memmap::suitable(plat, end, info@.memory, obs, s) {
        let s = choose|s: int| memmap::suitable(plat, end, info@.memory, obs, s);
        let low = lemma_lowest(plat, end, info@.memory, obs, s);
        assert(start::is_window(plat, end, info@.memory, obs, low));
        let w = start::window_start(plat, end, info@.memory, obs);
        assert(start::is_window(plat, end, info@.memory, obs, w));
        let i = choose|i: int|
            0 <= i < info@.memory.len() && memmap::holds_window(#[trigger] info@.memory[i], w);
        assert(info@.memory[i].base + info@.memory[i].size <= 0x1_0000_0000_0000);
        assert(0 <= w < 0x1_0000_0000_0000);
    }
}

/// The segments of the image are loaded at their places, in order: code as code,
/// constants as constants and data as data.
pub proof fn lemma_loads_all_segments(segments: Seq<RtSegment>, i: int)
    requires
        0 <= i < segments.len(),
    ensures
        ({
            let l = start::load_segs(segments);
            &&& l.len() == segments.len()
            &&& l[i].va == segments[i].va
            &&& l[i].memsz == segments[i].memsz
            &&& l[i].kind is Text <==> segments[i].kind is Text
            &&& l[i].kind is Rw <==> segments[i].kind is Rw
            &&& l[i].kind is Ro <==> segments[i].kind is Ro
        }),
{
}

/// The keys depend on the seed, the counter and the random number: all three are in each
/// of the three messages that are hashed, and the messages differ.
pub proof fn lemma_keys(seed: Seq<u8>, cntpct: u64, rndr: Option<u64>)
    requires
        seed.len() <= u64::MAX,
    ensures
        exists|m0: Seq<u8>, m1: Seq<u8>, m2: Seq<u8>|
            {
                &&& #[trigger] keys_of(m0, m1, m2) == start::pac_keys(seed, cntpct, rndr)
                &&& keyed(m0, 0, seed, cntpct, rndr)
                &&& keyed(m1, 1, seed, cntpct, rndr)
                &&& keyed(m2, 2, seed, cntpct, rndr)
            },
{
    let extra = start::extra_words(cntpct, rndr);
    let m0 = entropy::message(0, seed, extra);
    let m1 = entropy::message(1, seed, extra);
    let m2 = entropy::message(2, seed, extra);
    entropy::lemma_message(0, seed, extra);
    entropy::lemma_message(1, seed, extra);
    entropy::lemma_message(2, seed, extra);
    assert(extra[0] == cntpct);
    assert(extra[1] == (if rndr is Some {
        rndr->0
    } else {
        0
    }));
    let b0 = sha256::sha256(m0);
    let b1 = sha256::sha256(m1);
    let b2 = sha256::sha256(m2);
    let k = start::pac_keys(seed, cntpct, rndr);
    assert forall|i: int| 0 <= i < 10 implies k[i] == keys_of(m0, m1, m2)[i] by {
        entropy::lemma_keys(b0, b1, b2, i);
        bytes::lemma_little(seq![b0, b1, b2][i / 4], 8 * (i % 4));
    }
    entropy::lemma_keys(b0, b1, b2, 0);
    assert(k =~= keys_of(m0, m1, m2));
    assert(keyed(m0, 0, seed, cntpct, rndr));
    assert(keyed(m1, 1, seed, cntpct, rndr));
    assert(keyed(m2, 2, seed, cntpct, rndr));
}

/// The ten words of the hashes of three messages, four to a hash.
pub open spec fn keys_of(m0: Seq<u8>, m1: Seq<u8>, m2: Seq<u8>) -> Seq<u64> {
    let blocks = seq![sha256::sha256(m0), sha256::sha256(m1), sha256::sha256(m2)];
    Seq::new(10, |i: int| bytes::little(blocks[i / 4], 8 * (i % 4), 8) as u64)
}

/// Whether a message holds a number, the seed, the counter and the random number, which
/// is 0 where there is none.
pub open spec fn keyed(m: Seq<u8>, c: u8, seed: Seq<u8>, cntpct: u64, rndr: Option<u64>) -> bool {
    let n = seed.len() as int;
    &&& m.len() == 43 + n
    &&& m[18] == c
    &&& m.subrange(27, 27 + n) == seed
    &&& bytes::little(m, 27 + n, 8) == cntpct
    &&& bytes::little(m, 35 + n, 8) == (if rndr is Some {
        rndr->0
    } else {
        0
    })
}

/// The first system: the root task alone, running in its address space with its
/// registers as they were.
pub proof fn lemma_first_system(at: u64, task: TaskView)
    ensures
        ({
            let s = start::first_system(at, task);
            &&& s.tasks.dom() == set![at]
            &&& s.tasks[at].state == TaskState::Running
            &&& s.tasks[at].ctx == task.ctx
            &&& s.tasks[at].ttbr0_pa == task.ttbr0_pa
            &&& s.tasks[at].reply_to == task.reply_to
            &&& s.eps.dom() == Set::<u64>::empty()
            &&& s.ready.len() == 0
            &&& s.current == at
            &&& s.context == at
            &&& s.ttbr0 == task.ttbr0_pa
        }),
{
    let s = start::first_system(at, task);
    assert(s.tasks.dom() =~= set![at]);
    assert(s.eps.dom() =~= Set::<u64>::empty());
}

proof fn lemma_none_before(devs: Seq<(int, int)>, memory: Seq<MemRegion>, w: int, i: int)
    requires
        0 <= w,
        0 <= i,
    ensures
        match memmap::first_overlap(devs, memory, w, i) {
            Some((v, j)) => forall|a: int, b: int|
                0 <= b < memory.len() && (w < a || w == a && i <= b) && (a < v || a == v && b < j)
                    ==> !#[trigger] memmap::overlaps(memory[b], devs[a]),
            None => true,
        },
    decreases devs.len() - w, memory.len() - i,
{
    if w < devs.len() {
        if i >= memory.len() {
            lemma_none_before(devs, memory, w + 1, 0);
        } else if !memmap::overlaps(memory[i], devs[w]) {
            lemma_none_before(devs, memory, w, i + 1);
        }
    }
}

/// What is told of memory that is a device's: the first device that memory shares a byte
/// with, and the first region that does.
pub proof fn lemma_first_shared(plat: Platform, memory: Seq<MemRegion>)
    requires
        forall|i: int| 0 <= i < memory.len() ==> (#[trigger] memory[i]).size > 0,
    ensures
        match memmap::first_overlap(plat.device_spans(), memory, 0, 0) {
            Some((w, i)) => {
                let devs = plat.device_spans();
                &&& 0 <= w < 3 && 0 <= i < memory.len()
                &&& exists|p: int| #[trigger] shared(memory[i], devs[w], p)
                &&& forall|v: int, j: int, p: int|
                    0 <= j < memory.len() && 0 <= v && (v < w || v == w && j < i)
                        ==> !#[trigger] shared(memory[j], devs[v], p)
            },
            None => true,
        },
{
    let devs = plat.device_spans();
    memmap::lemma_first_overlap(devs, memory, 0, 0);
    lemma_none_before(devs, memory, 0, 0);
    if let Some((w, i)) = memmap::first_overlap(devs, memory, 0, 0) {
        let p = if memory[i].base as int > devs[w].0 {
            memory[i].base as int
        } else {
            devs[w].0
        };
        assert(memory[i].size > 0);
        assert(shared(memory[i], devs[w], p));
        assert forall|v: int, j: int, q: int|
            0 <= j < memory.len() && 0 <= v && (v < w || v == w && j < i) implies !#[trigger] shared(
            memory[j],
            devs[v],
            q,
        ) by {
            assert(!memmap::overlaps(memory[j], devs[v]));
        }
    }
}

} // verus!
