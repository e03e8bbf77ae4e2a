//! The physical memory map: where devices are, and where the kernel takes the memory
//! for the root task from.
use std::ops::Range;

use vstd::prelude::*;

use crate::align;
use crate::arch::earlycon::{self, EarlyCon};
use crate::arch::irq;
use crate::boot::fdt::{BootInfo, MemRegion};
use crate::platform::Platform;

verus! {

/// Size of the frame window.
pub const WINDOW_SIZE: u64 = 0x20_0000;

/// How often the search for the window may start over.
pub const ROUNDS: usize = 64;

impl Platform {
    /// Where the devices of the kernel are: the start and the end of each window. An
    /// empty one stands for no device.
    pub open spec fn device_spans(self) -> Seq<(int, int)> {
        match self {
            Platform::Virt => seq![
                (self.uart(), self.uart() + self.page_size()),
                (irq::GICD_BASE as int, irq::GICD_BASE + irq::GICD_SIZE),
                (irq::GICR_BASE as int, irq::GICR_BASE + irq::GICR_SIZE),
            ],
            Platform::Apple => seq![
                (self.uart(), self.uart() + self.page_size()),
                (0int, 0int),
                (0int, 0int),
            ],
        }
    }
}

/// The windows that the kernel maps as devices.
pub fn device_windows(plat: Platform) -> (r: [Range<u64>; 3])
    ensures
        forall|i: int|
            0 <= i < 3 ==> ((#[trigger] r@[i]).start as int, r@[i].end as int)
                == plat.device_spans()[i],
{
    let uart = plat.mmio_base();
    let granule = plat.granule();
    match plat {
        Platform::Virt => [
            uart..uart + granule,
            irq::GICD_BASE..irq::GICD_BASE + irq::GICD_SIZE,
            irq::GICR_BASE..irq::GICR_BASE + irq::GICR_SIZE,
        ],
        Platform::Apple => [uart..uart + granule, 0..0, 0..0],
    }
}

/// Whether memory that the device tree claims lies in a device window.
pub open spec fn overlaps(m: MemRegion, dev: (int, int)) -> bool {
    dev.0 < dev.1 && m.base < dev.1 && dev.0 < m.base + m.size
}

/// What is said of memory that lies in a device window.
pub open spec fn overlap_text(m: MemRegion, dev: (int, int)) -> Seq<u8> {
    earlycon::text("k0: dtb memory ") + earlycon::short_hex_sent(m.base) + earlycon::text(" + ")
        + earlycon::short_hex_sent(m.size) + earlycon::text(" overlaps device window ")
        + earlycon::short_hex_sent(dev.0 as u64) + earlycon::text("\n")
}

/// The first overlap, by window and then by region, from window `w` and region `i` on.
pub open spec fn first_overlap(
    devs: Seq<(int, int)>,
    memory: Seq<MemRegion>,
    w: int,
    i: int,
) -> Option<(int, int)>
    decreases devs.len() - w, memory.len() - i,
{
    if w >= devs.len() {
        None
    } else if i >= memory.len() {
        first_overlap(devs, memory, w + 1, 0)
    } else if overlaps(memory[i], devs[w]) {
        Some((w, i))
    } else {
        first_overlap(devs, memory, w, i + 1)
    }
}

/// A first overlap is one, and there is none where none is found.
pub proof fn lemma_first_overlap(devs: Seq<(int, int)>, memory: Seq<MemRegion>, w: int, i: int)
    requires
        0 <= w,
        0 <= i,
    ensures
        match first_overlap(devs, memory, w, i) {
            Some((v, j)) => w <= v < devs.len() && 0 <= j < memory.len() && overlaps(
                memory[j],
                devs[v],
            ),
            None => forall|v: int, j: int|
                0 <= v < devs.len() && 0 <= j < memory.len() && (v > w || v == w && j >= i)
                    ==> !(#[trigger] overlaps(memory[j], devs[v])),
        },
    decreases devs.len() - w, memory.len() - i,
{
    if w < devs.len() {
        if i >= memory.len() {
            lemma_first_overlap(devs, memory, w + 1, 0);
        } else if !overlaps(memory[i], devs[w]) {
            lemma_first_overlap(devs, memory, w, i + 1);
        }
    }
}

/// Checks that no memory of the device tree lies in a device window.
///
/// All such memory goes to the root task. A device tree that claims a device as memory
/// would hand the device out, so it is reported and refused.
pub fn check_memory_map(con: &mut EarlyCon, plat: Platform, bootinfo: &BootInfo) -> (r: bool)
    requires
        bootinfo@.within_limits(),
    ensures
        final(con).same_port(old(con)),
        match first_overlap(plat.device_spans(), bootinfo@.memory, 0, 0) {
            None => r && final(con)@ == old(con)@,
            Some((w, i)) => !r && final(con)@ == old(con)@ + overlap_text(
                bootinfo@.memory[i],
                plat.device_spans()[w],
            ),
        },
        r <==> forall|w: int, i: int|
            0 <= w < 3 && 0 <= i < bootinfo@.memory.len() ==> !(#[trigger] overlaps(
                bootinfo@.memory[i],
                plat.device_spans()[w],
            )),
{
    let devs = device_windows(plat);
    let memory = bootinfo.memory();
    let ghost spans = plat.device_spans();
    proof {
        lemma_first_overlap(spans, memory@, 0, 0);
    }
    let mut w: usize = 0;
    while w < 3
        invariant
            w <= 3,
            spans == plat.device_spans(),
            spans.len() == 3,
            con@ == old(con)@,
            con.same_port(old(con)),
            memory@ == bootinfo@.memory,
            bootinfo@.within_limits(),
            forall|i: int|
                0 <= i < 3 ==> ((#[trigger] devs@[i]).start as int, devs@[i].end as int)
                    == spans[i],
            first_overlap(spans, memory@, 0, 0) == first_overlap(spans, memory@, w as int, 0),
            match first_overlap(spans, memory@, 0, 0) {
                Some((v, j)) => 0 <= v < spans.len() && 0 <= j < memory@.len() && overlaps(
                    memory@[j],
                    spans[v],
                ),
                None => true,
            },
        decreases 3 - w,
    {
        let start = devs[w].start;
        let end = devs[w].end;
        assert((devs@[w as int].start as int, devs@[w as int].end as int) == spans[w as int]);
        let mut i: usize = 0;
        while i < memory.len()
            invariant
                i <= memory.len(),
                w < 3,
                spans == plat.device_spans(),
                spans.len() == 3,
                (start as int, end as int) == spans[w as int],
                con@ == old(con)@,
                con.same_port(old(con)),
                memory@ == bootinfo@.memory,
                bootinfo@.within_limits(),
                first_overlap(spans, memory@, 0, 0) == first_overlap(
                    spans,
                    memory@,
                    w as int,
                    i as int,
                ),
                match first_overlap(spans, memory@, 0, 0) {
                    Some((v, j)) => 0 <= v < spans.len() && 0 <= j < memory@.len() && overlaps(
                        memory@[j],
                        spans[v],
                    ),
                    None => true,
                },
            decreases memory.len() - i,
        {
            let m = memory[i];
            assert(m.valid());
            if start < end && m.base < end && start < m.base + m.size {
                con.put_str("k0: dtb memory ");
                con.put_short_hex(m.base);
                con.put_str(" + ");
                con.put_short_hex(m.size);
                con.put_str(" overlaps device window ");
                con.put_short_hex(start);
                con.put_str("\n");
                assert(con@ =~= old(con)@ + overlap_text(m, spans[w as int]));
                return false;
            }
            i += 1;
        }
        w += 1;
    }
    true
}

/// Whether an obstacle lies in the window that starts at `s`.
pub open spec fn blocks(r: MemRegion, s: int) -> bool {
    r.base + r.size > s && r.base < s + WINDOW_SIZE
}

/// Whether a region of memory holds the window that starts at `s`.
pub open spec fn holds_window(m: MemRegion, s: int) -> bool {
    m.base <= s && s + WINDOW_SIZE <= m.base + m.size
}

/// What the window must keep clear of: the device tree and the reserved regions.
pub open spec fn obstacles(bootinfo: &BootInfo) -> Seq<MemRegion> {
    seq![dtb_region(bootinfo)] + bootinfo@.reserved
}

/// The device tree as a region.
pub open spec fn dtb_region(bootinfo: &BootInfo) -> MemRegion {
    MemRegion {
        base: bootinfo.dtb.start as u64,
        size: (bootinfo.dtb.end - bootinfo.dtb.start) as u64,
    }
}

/// Whether the window can start at `s`: on a page boundary, behind the kernel image,
/// within one region of memory and clear of all obstacles.
pub open spec fn suitable(
    plat: Platform,
    kernel_end: int,
    memory: Seq<MemRegion>,
    obstacles: Seq<MemRegion>,
    s: int,
) -> bool {
    &&& s % plat.page_size() == 0
    &&& kernel_end <= s
    &&& exists|i: int| 0 <= i < memory.len() && holds_window(#[trigger] memory[i], s)
    &&& forall|i: int| 0 <= i < obstacles.len() ==> !blocks(#[trigger] obstacles[i], s)
}

/// How many of the obstacles end behind `s`.
spec fn ends_ahead(obstacles: Seq<MemRegion>, s: int) -> nat
    decreases obstacles.len(),
{
    if obstacles.len() == 0 {
        0
    } else {
        let r = obstacles.last();
        ends_ahead(obstacles.drop_last(), s) + if r.base + r.size > s {
            1nat
        } else {
            0nat
        }
    }
}

/// How many of the regions start behind `s`.
spec fn starts_ahead(memory: Seq<MemRegion>, s: int) -> nat
    decreases memory.len(),
{
    if memory.len() == 0 {
        0
    } else {
        starts_ahead(memory.drop_last(), s) + if memory.last().base > s {
            1nat
        } else {
            0nat
        }
    }
}

/// Going on passes ends by and never comes to new ones.
proof fn lemma_ends_ahead(obstacles: Seq<MemRegion>, s: int, t: int, i: int)
    requires
        s <= t,
    ensures
        ends_ahead(obstacles, t) <= ends_ahead(obstacles, s) <= obstacles.len(),
        0 <= i < obstacles.len() && s < obstacles[i].base + obstacles[i].size <= t ==> ends_ahead(
            obstacles,
            t,
        ) < ends_ahead(obstacles, s),
    decreases obstacles.len(),
{
    if obstacles.len() > 0 {
        lemma_ends_ahead(obstacles.drop_last(), s, t, i);
    }
}

/// Going on passes starts by and never comes to new ones.
proof fn lemma_starts_ahead(memory: Seq<MemRegion>, s: int, t: int, i: int)
    requires
        s <= t,
    ensures
        starts_ahead(memory, t) <= starts_ahead(memory, s) <= memory.len(),
        0 <= i < memory.len() && s < memory[i].base <= t ==> starts_ahead(memory, t)
            < starts_ahead(memory, s),
    decreases memory.len(),
{
    if memory.len() > 0 {
        lemma_starts_ahead(memory.drop_last(), s, t, i);
    }
}

/// No multiple of `g` lies between an address and the next multiple.
proof fn lemma_no_multiple_between(v: int, s: int, g: int)
    requires
        g > 0,
        v <= s,
        s % g == 0,
    ensures
        align::up(v, g) <= s,
{
    align::lemma_up(v, g);
    if s < align::up(v, g) {
        let d = align::up(v, g) - s;
        assert(0 < d < g);
        vstd::arithmetic::div_mod::lemma_sub_mod_noop(align::up(v, g), s, g);
        vstd::arithmetic::div_mod::lemma_small_mod(d as nat, g as nat);
        vstd::arithmetic::div_mod::lemma_small_mod(0, g as nat);
    }
}

/// The start of the window after it has made way for the obstacles that lie in it, or
/// none where it would leave the address range; and whether it had to.
fn make_way(g: u64, obstacles: &Vec<MemRegion>, start: u64, end: u64) -> (r: Option<(u64, bool)>)
    requires
        0 < g <= WINDOW_SIZE,
        start as int % g as int == 0,
        end == start + WINDOW_SIZE,
        forall|i: int|
            0 <= i < obstacles.len() ==> (#[trigger] obstacles@[i]).base + obstacles@[i].size
                <= u64::MAX,
    ensures
        match r {
            None => forall|s: int|
                #![trigger s % g as int]
                start <= s && s % g as int == 0 && s + WINDOW_SIZE <= u64::MAX ==> exists|i: int|
                    0 <= i < obstacles.len() && blocks(#[trigger] obstacles@[i], s),
            Some((next, bumped)) => {
                &&& start <= next
                &&& next as int % g as int == 0
                &&& forall|s: int|
                    #![trigger s % g as int]
                    start <= s < next && s % g as int == 0 ==> exists|i: int|
                        0 <= i < obstacles.len() && blocks(#[trigger] obstacles@[i], s)
                &&& bumped ==> exists|i: int|
                    0 <= i < obstacles.len() && start < (#[trigger] obstacles@[i]).base
                        + obstacles@[i].size <= next
                &&& !bumped ==> next == start && forall|i: int|
                    0 <= i < obstacles.len() ==> !blocks(#[trigger] obstacles@[i], start as int)
            },
        },
{
    let mut next = start;
    let mut bumped = false;
    let mut k: usize = 0;
    while k < obstacles.len()
        invariant
            k <= obstacles.len(),
            0 < g <= WINDOW_SIZE,
            end == start + WINDOW_SIZE,
            start <= next,
            next as int % g as int == 0,
            forall|i: int|
                0 <= i < obstacles.len() ==> (#[trigger] obstacles@[i]).base + obstacles@[i].size
                    <= u64::MAX,
            forall|s: int|
                #![trigger s % g as int]
                start <= s < next && s % g as int == 0 ==> exists|i: int|
                    0 <= i < obstacles.len() && blocks(#[trigger] obstacles@[i], s),
            bumped ==> exists|i: int|
                0 <= i < obstacles.len() && start < (#[trigger] obstacles@[i]).base
                    + obstacles@[i].size <= next,
            !bumped ==> next == start && forall|i: int|
                0 <= i < k ==> !blocks(#[trigger] obstacles@[i], start as int),
        decreases obstacles.len() - k,
    {
        let r = obstacles[k];
        assert(obstacles@[k as int].base + obstacles@[k as int].size <= u64::MAX);
        let r_end = r.base + r.size;
        if r_end > next && r.base < end {
            proof {
                align::lemma_up(r_end as int, g as int);
                assert forall|s: int|
                    #![trigger s % g as int]
                    next <= s && s % g as int == 0 && s < align::up(
                        r_end as int,
                        g as int,
                    ) implies blocks(obstacles@[k as int], s) by {
                    if s >= r_end {
                        lemma_no_multiple_between(r_end as int, s, g as int);
                    }
                }
            }
            match align::align_up(r_end, g) {
                Some(to) => {
                    let ghost was = next;
                    next = to;
                    bumped = true;
                    proof {
                        assert(start < obstacles@[k as int].base + obstacles@[k as int].size
                            <= next);
                        assert forall|s: int|
                            #![trigger s % g as int]
                            start <= s < next && s % g as int == 0 implies exists|i: int|
                            0 <= i < obstacles.len() && blocks(#[trigger] obstacles@[i], s) by {
                            if s >= was {
                                assert(blocks(obstacles@[k as int], s));
                            }
                        }
                    }
                },
                None => {
                    proof {
                        assert forall|s: int|
                            #![trigger s % g as int]
                            start <= s && s % g as int == 0 && s + WINDOW_SIZE
                                <= u64::MAX implies exists|i: int|
                            0 <= i < obstacles.len() && blocks(#[trigger] obstacles@[i], s) by {
                            if s >= next {
                                assert(blocks(obstacles@[k as int], s));
                            }
                        }
                    }
                    return None;
                },
            }
        }
        k += 1;
    }
    Some((next, bumped))
}

/// Whether some region of memory holds the window.
fn in_some_region(memory: &[MemRegion], start: u64) -> (r: bool)
    requires
        start + WINDOW_SIZE <= u64::MAX,
        forall|i: int| 0 <= i < memory@.len() ==> (#[trigger] memory@[i]).valid(),
    ensures
        r <==> exists|i: int|
            0 <= i < memory@.len() && holds_window(#[trigger] memory@[i], start as int),
{
    let end = start + WINDOW_SIZE;
    let mut i: usize = 0;
    while i < memory.len()
        invariant
            i <= memory.len(),
            end == start + WINDOW_SIZE,
            forall|j: int| 0 <= j < memory@.len() ==> (#[trigger] memory@[j]).valid(),
            forall|j: int| 0 <= j < i ==> !holds_window(#[trigger] memory@[j], start as int),
        decreases memory.len() - i,
    {
        let m = memory[i];
        assert(memory@[i as int].valid());
        if start >= m.base && end <= m.base + m.size {
            assert(holds_window(memory@[i as int], start as int));
            return true;
        }
        i += 1;
    }
    false
}

/// The nearest region that starts behind `start`: its start.
fn next_base(memory: &[MemRegion], start: u64) -> (r: Option<u64>)
    ensures
        match r {
            None => forall|i: int| 0 <= i < memory@.len() ==> (#[trigger] memory@[i]).base <= start,
            Some(b) => {
                &&& b > start
                &&& exists|i: int| 0 <= i < memory@.len() && (#[trigger] memory@[i]).base == b
                &&& forall|i: int|
                    0 <= i < memory@.len() && (#[trigger] memory@[i]).base > start
                        ==> memory@[i].base >= b
            },
        },
{
    let mut best: Option<u64> = None;
    let mut i: usize = 0;
    while i < memory.len()
        invariant
            i <= memory.len(),
            match best {
                None => forall|j: int| 0 <= j < i ==> (#[trigger] memory@[j]).base <= start,
                Some(b) => {
                    &&& b > start
                    &&& exists|j: int| 0 <= j < i && (#[trigger] memory@[j]).base == b
                    &&& forall|j: int|
                        0 <= j < i && (#[trigger] memory@[j]).base > start ==> memory@[j].base
                            >= b
                },
            },
        decreases memory.len() - i,
    {
        let base = memory[i].base;
        if base > start {
            best = match best {
                None => Some(base),
                Some(b) => if base < b {
                    Some(base)
                } else {
                    Some(b)
                },
            };
            assert(memory@[i as int].base == base);
        }
        i += 1;
    }
    best
}

/// Picks the frame window, from which the root task and its tables are made: the lowest
/// place behind the kernel image that is suitable. None where there is none.
pub fn pick_window(plat: Platform, bootinfo: &BootInfo, kernel_image: &Range<usize>) -> (r: Option<
    Range<u64>,
>)
    requires
        bootinfo@.within_limits(),
        bootinfo.dtb.start <= bootinfo.dtb.end,
    ensures
        ({
            let memory = bootinfo@.memory;
            let obs = obstacles(bootinfo);
            let kernel_end = kernel_image.end as int;
            match r {
                Some(w) => {
                    &&& suitable(plat, kernel_end, memory, obs, w.start as int)
                    &&& w.end == w.start + WINDOW_SIZE
                    &&& forall|s: int|
                        #[trigger]
                        suitable(plat, kernel_end, memory, obs, s) ==> w.start <= s
                },
                None => forall|s: int| !(#[trigger] suitable(plat, kernel_end, memory, obs, s)),
            }
        }),
{
    let g = plat.granule();
    let memory = bootinfo.memory();
    let reserved = bootinfo.reserved();
    let mut obs: Vec<MemRegion> = Vec::new();
    obs.push(
        MemRegion {
            base: bootinfo.dtb.start as u64,
            size: (bootinfo.dtb.end - bootinfo.dtb.start) as u64,
        },
    );
    let mut i: usize = 0;
    while i < reserved.len()
        invariant
            i <= reserved.len(),
            reserved@ == bootinfo@.reserved,
            obs@ == seq![dtb_region(bootinfo)] + reserved@.take(i as int),
        decreases reserved.len() - i,
    {
        obs.push(reserved[i]);
        i += 1;
        assert(obs@ =~= seq![dtb_region(bootinfo)] + reserved@.take(i as int));
    }
    assert(obs@ =~= obstacles(bootinfo));
    assert forall|j: int| 0 <= j < obs@.len() implies (#[trigger] obs@[j]).base + obs@[j].size
        <= u64::MAX by {
        if j > 0 {
            assert(bootinfo@.reserved[j - 1].valid());
        }
    }
    let ghost kernel_end = kernel_image.end as int;
    proof {
        assert forall|s: int| #[trigger] suitable(plat, kernel_end, memory@, obs@, s) implies s
            + WINDOW_SIZE <= u64::MAX && align::up(kernel_end, g as int) <= s by {
            let j = choose|j: int|
                0 <= j < memory@.len() && holds_window(#[trigger] memory@[j], s);
            assert(memory@[j].valid());
            lemma_no_multiple_between(kernel_end, s, g as int);
        }
        align::lemma_up(kernel_end, g as int);
    }
    let mut start = match align::align_up(kernel_image.end as u64, g) {
        Some(start) => start,
        None => {
            return None;
        },
    };
    let mut round: usize = 0;
    proof {
        lemma_ends_ahead(obs@, start as int, start as int, 0);
        lemma_starts_ahead(memory@, start as int, start as int, 0);
    }
    while round < ROUNDS
        invariant
            round <= ROUNDS,
            g == plat.page_size(),
            0 < g <= WINDOW_SIZE,
            kernel_end <= start,
            start as int % g as int == 0,
            memory@ == bootinfo@.memory,
            bootinfo@.within_limits(),
            forall|j: int|
                0 <= j < obs@.len() ==> (#[trigger] obs@[j]).base + obs@[j].size <= u64::MAX,
            forall|s: int| #[trigger]
                suitable(plat, kernel_end, memory@, obs@, s) ==> start <= s && s + WINDOW_SIZE
                    <= u64::MAX,
            round + ends_ahead(obs@, start as int) + starts_ahead(memory@, start as int) + 1
                <= ROUNDS,
            obs@ == obstacles(bootinfo),
            kernel_end == kernel_image.end,
        decreases ROUNDS - round,
    {
        let ghost was = start as int;
        let end = match start.checked_add(WINDOW_SIZE) {
            Some(end) => end,
            None => {
                return None;
            },
        };
        let (next, bumped) = match make_way(g, &obs, start, end) {
            Some(v) => v,
            None => {
                proof {
                    assert forall|s: int| !(#[trigger] suitable(
                        plat,
                        kernel_end,
                        memory@,
                        obs@,
                        s,
                    )) by {
                        if suitable(plat, kernel_end, memory@, obs@, s) {
                            assert(s % g as int == 0);
                        }
                    }
                }
                return None;
            },
        };
        proof {
            assert forall|s: int| #[trigger]
                suitable(plat, kernel_end, memory@, obs@, s) implies next <= s by {
                assert(s % g as int == 0);
            }
        }
        start = next;
        round += 1;
        if bumped {
            proof {
                let j = choose|j: int|
                    0 <= j < obs@.len() && was < (#[trigger] obs@[j]).base + obs@[j].size <= next;
                lemma_ends_ahead(obs@, was, next as int, j);
                lemma_starts_ahead(memory@, was, next as int, 0);
            }
            continue;
        }
        if in_some_region(memory, start) {
            assert(suitable(plat, kernel_end, memory@, obs@, start as int));
            return Some(start..end);
        }
        let ghost from = start as int;
        let base = match next_base(memory, start) {
            Some(base) => base,
            None => {
                proof {
                    lemma_behind(plat, kernel_end, memory@, obs@, from, from);
                }
                return None;
            },
        };
        proof {
            align::lemma_up(base as int, g as int);
            lemma_behind(plat, kernel_end, memory@, obs@, from, base as int);
            assert forall|s: int| #[trigger]
                suitable(plat, kernel_end, memory@, obs@, s) implies align::up(
                base as int,
                g as int,
            ) <= s by {
                lemma_no_multiple_between(base as int, s, g as int);
            }
        }
        start = match align::align_up(base, g) {
            Some(start) => start,
            None => {
                return None;
            },
        };
        proof {
            let j = choose|j: int| 0 <= j < memory@.len() && (#[trigger] memory@[j]).base == base;
            lemma_starts_ahead(memory@, from, start as int, j);
            lemma_ends_ahead(obs@, from, start as int, 0);
        }
    }
    None
}

/// Where the window does not fit at `from`, it fits nowhere before the next region, which
/// starts at `base`; and where no region starts behind `from`, it fits nowhere.
proof fn lemma_behind(
    plat: Platform,
    kernel_end: int,
    memory: Seq<MemRegion>,
    obs: Seq<MemRegion>,
    from: int,
    base: int,
)
    requires
        forall|s: int| #[trigger] suitable(plat, kernel_end, memory, obs, s) ==> from <= s,
        forall|i: int| 0 <= i < memory.len() ==> !holds_window(#[trigger] memory[i], from),
        forall|i: int|
            0 <= i < memory.len() && (#[trigger] memory[i]).base > from ==> base > from
                && memory[i].base >= base,
    ensures
        forall|s: int| #[trigger]
            suitable(plat, kernel_end, memory, obs, s) ==> base > from && base <= s,
{
    assert forall|s: int| #[trigger] suitable(plat, kernel_end, memory, obs, s) implies base > from
        && base <= s by {
        let i = choose|i: int| 0 <= i < memory.len() && holds_window(#[trigger] memory[i], s);
        assert(!holds_window(memory[i], from));
    }
}

/// The window lies behind the kernel image and in memory, and shares no address with the
/// kernel image, the device tree or a reserved region.
pub proof fn lemma_window_is_clear(
    plat: Platform,
    kernel_end: int,
    memory: Seq<MemRegion>,
    obs: Seq<MemRegion>,
    s: int,
    p: int,
)
    requires
        suitable(plat, kernel_end, memory, obs, s),
        s <= p < s + WINDOW_SIZE,
    ensures
        kernel_end <= p,
        exists|i: int|
            0 <= i < memory.len() && (#[trigger] memory[i]).base <= p < memory[i].base
                + memory[i].size,
        forall|i: int|
            0 <= i < obs.len() ==> !((#[trigger] obs[i]).base <= p < obs[i].base + obs[i].size),
{
    let i = choose|i: int| 0 <= i < memory.len() && holds_window(#[trigger] memory[i], s);
    assert(memory[i].base <= p < memory[i].base + memory[i].size);
    assert forall|j: int| 0 <= j < obs.len() implies !((#[trigger] obs[j]).base <= p < obs[j].base
        + obs[j].size) by {
        assert(!blocks(obs[j], s));
    }
}

} // verus!
