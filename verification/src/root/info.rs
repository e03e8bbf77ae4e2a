//! What the root task reads from the boot information page.
use vstd::prelude::*;

use crate::abi::bootinfo::{self, cap_kind, CapDesc, Header};
use crate::align;
use crate::cap::Cap;
use crate::kernel::bootinfo as page;
use crate::platform::Platform;

verus! {

/// How many frames the untyped memory must hold that the root task works with.
pub const FRAMES_NEEDED: u64 = 32;

/// The slot of the console, as long as the task has not looked it up.
pub const FIRST_CONSOLE: u64 = 3;

/// The header at the start of the page.
pub open spec fn header_at(words: Seq<u64>) -> Header {
    Header { version: words[0], frame_size: words[1], cap_count: words[2] }
}

/// The description of a slot.
pub open spec fn desc_at(words: Seq<u64>, slot: int) -> CapDesc {
    CapDesc {
        kind: words[3 * (slot + 1)],
        base: words[3 * (slot + 1) + 1],
        size: words[3 * (slot + 1) + 2],
    }
}

/// Whether a slot holds enough untyped memory.
pub open spec fn roomy(words: Seq<u64>, slot: int) -> bool {
    let d = desc_at(words, slot);
    d.kind == cap_kind::UNTYPED && d.size >= header_at(words).frame_size * FRAMES_NEEDED
}

/// The first slot before `n` that is not the null slot and holds enough untyped memory; 0
/// where there is none.
pub open spec fn first_roomy(words: Seq<u64>, n: int) -> int
    decreases n,
{
    if n <= 0 {
        0
    } else if first_roomy(words, n - 1) != 0 {
        first_roomy(words, n - 1)
    } else if roomy(words, n - 1) {
        n - 1
    } else {
        0
    }
}

/// The first slot before `n` of a kind that is not the null slot; 0 where there is none.
pub open spec fn first_of(words: Seq<u64>, kind: u64, n: int) -> int
    decreases n,
{
    if n <= 0 {
        0
    } else if first_of(words, kind, n - 1) != 0 {
        first_of(words, kind, n - 1)
    } else if desc_at(words, n - 1).kind == kind {
        n - 1
    } else {
        0
    }
}

/// What the root task works with.
#[derive(Clone, Copy, Debug, PartialEq, Eq, Structural)]
pub struct Info {
    pub frame_size: u64,
    pub untyped: u64,
    pub aspace: u64,
    pub console: u64,
}

/// What the page tells, or which check of it fails.
pub open spec fn info_in(words: Seq<u64>) -> Result<Info, &'static str> {
    let h = header_at(words);
    let n = h.cap_count as int;
    if h.version != bootinfo::VERSION {
        Err("bootinfo version")
    } else if !align::is_pow2(h.frame_size) {
        Err("bootinfo frame size")
    } else if first_roomy(words, n) == 0 {
        Err("untyped search")
    } else if first_of(words, cap_kind::ADDR_SPACE, n) == 0 {
        Err("aspace search")
    } else {
        Ok(
            Info {
                frame_size: h.frame_size,
                untyped: first_roomy(words, n) as u64,
                aspace: first_of(words, cap_kind::ADDR_SPACE, n) as u64,
                console: first_of(words, cap_kind::CONSOLE, n) as u64,
            },
        )
    }
}

/// A slot that was found is one of those that were looked at.
proof fn lemma_found(words: Seq<u64>, kind: u64, n: int)
    requires
        0 <= n,
    ensures
        0 <= first_roomy(words, n) <= n,
        0 <= first_of(words, kind, n) <= n,
        first_roomy(words, n) != 0 ==> first_roomy(words, n) < n && roomy(
            words,
            first_roomy(words, n),
        ),
    decreases n,
{
    if n > 0 {
        lemma_found(words, kind, n - 1);
    }
}

/// Whether words can be read as a page: where the header is accepted, all the
/// descriptions that it announces are there.
pub open spec fn readable(words: Seq<u64>) -> bool {
    let h = header_at(words);
    &&& words.len() >= 3
    &&& h.version == bootinfo::VERSION && align::is_pow2(h.frame_size) ==> 3 * (h.cap_count + 1)
        <= words.len()
}

/// Whether words can be read as a page.
pub fn is_readable(words: &[u64]) -> (r: bool)
    ensures
        r == readable(words@),
{
    if words.len() < 3 {
        return false;
    }
    let frame_size = words[1];
    if words[0] != bootinfo::VERSION || !(frame_size > 0 && frame_size & (frame_size - 1) == 0) {
        return true;
    }
    words[2] < (words.len() / 3) as u64
}

/// Reads the page: its header, and the first slots that can be used.
///
/// `words` holds the page, with all the descriptions that the header announces.
pub fn read_info(words: &[u64]) -> (r: Result<Info, &'static str>)
    requires
        readable(words@),
    ensures
        r == info_in(words@),
        r matches Ok(info) ==> info.frame_size * FRAMES_NEEDED <= u64::MAX,
{
    let frame_size = words[1];
    if words[0] != bootinfo::VERSION {
        return Err("bootinfo version");
    }
    if !(frame_size > 0 && frame_size & (frame_size - 1) == 0) {
        return Err("bootinfo frame size");
    }
    let count = words[2] as usize;
    let mut untyped: u64 = 0;
    let mut aspace: u64 = 0;
    let mut console: u64 = 0;
    let mut i: usize = 0;
    while i < count
        invariant
            i <= count,
            count == words@[2],
            words.len() >= 3,
            3 * (count + 1) <= words.len(),
            frame_size == words@[1],
            frame_size > 0,
            untyped == first_roomy(words@, i as int),
            aspace == first_of(words@, cap_kind::ADDR_SPACE, i as int),
            console == first_of(words@, cap_kind::CONSOLE, i as int),
        decreases count - i,
    {
        let kind = words[3 * (i + 1)];
        let size = words[3 * (i + 1) + 2];
        if untyped == 0 && kind == cap_kind::UNTYPED && size / FRAMES_NEEDED >= frame_size {
            untyped = i as u64;
        }
        if aspace == 0 && kind == cap_kind::ADDR_SPACE {
            aspace = i as u64;
        }
        if console == 0 && kind == cap_kind::CONSOLE {
            console = i as u64;
        }
        i += 1;
    }
    proof {
        lemma_found(words@, cap_kind::CONSOLE, count as int);
    }
    if untyped == 0 {
        return Err("untyped search");
    }
    if aspace == 0 {
        return Err("aspace search");
    }
    Ok(Info { frame_size, untyped, aspace, console })
}

/// The root task reads what the kernel has written: every description is that of the
/// capability in the slot.
pub proof fn lemma_reads_what_was_written(
    plat: Platform,
    caps: Seq<Cap>,
    before: Seq<u64>,
    slot: int,
)
    requires
        0 <= slot < caps.len(),
        3 * (caps.len() + 1) <= before.len(),
    ensures
        ({
            let words = page::page_words(plat, caps, before);
            &&& header_at(words) == page::header(plat, caps.len())
            &&& desc_at(words, slot) == page::described(caps[slot])
        }),
{
    let words = page::page_words(plat, caps, before);
    page::lemma_page_hides_kernel_addresses(plat, caps, before, slot);
}

/// With the capabilities that a root task starts with, it finds its address space and the
/// console where the kernel has put them, and the first untyped memory that is large
/// enough.
pub proof fn lemma_finds_its_capabilities(
    plat: Platform,
    caps: Seq<Cap>,
    before: Seq<u64>,
    root: u64,
)
    requires
        4 <= caps.len(),
        caps.take(4) == crate::cap::first_caps(root),
        3 * (caps.len() + 1) <= before.len(),
        caps.len() <= u64::MAX,
        forall|i: int| 4 <= i < caps.len() ==> (#[trigger] caps[i]) is Untyped,
        exists|i: int|
            4 <= i < caps.len() && (#[trigger] caps[i])->size >= plat.page_size() * FRAMES_NEEDED,
    ensures
        ({
            let words = page::page_words(plat, caps, before);
            &&& info_in(words) is Ok
            &&& info_in(words)->Ok_0.aspace == 2
            &&& info_in(words)->Ok_0.console == 3
            &&& info_in(words)->Ok_0.frame_size == plat.page_size()
            &&& ({
                let u = info_in(words)->Ok_0.untyped as int;
                &&& 4 <= u < caps.len()
                &&& caps[u]->size >= plat.page_size() * FRAMES_NEEDED
                &&& forall|i: int|
                    4 <= i < u ==> (#[trigger] caps[i])->size < plat.page_size() * FRAMES_NEEDED
            })
        }),
{
    let words = page::page_words(plat, caps, before);
    assert forall|i: int| 0 <= i < caps.len() implies desc_at(words, i) == page::described(
        #[trigger] caps[i],
    ) by {
        lemma_reads_what_was_written(plat, caps, before, i);
    }
    lemma_reads_what_was_written(plat, caps, before, 0);
    lemma_search(plat, caps, words, root);
}

/// What is found in a page that describes the capabilities of a root task.
proof fn lemma_search(plat: Platform, caps: Seq<Cap>, words: Seq<u64>, root: u64)
    requires
        4 <= caps.len() <= u64::MAX,
        caps.take(4) == crate::cap::first_caps(root),
        forall|i: int| 4 <= i < caps.len() ==> (#[trigger] caps[i]) is Untyped,
        exists|i: int|
            4 <= i < caps.len() && (#[trigger] caps[i])->size >= plat.page_size() * FRAMES_NEEDED,
        header_at(words) == page::header(plat, caps.len()),
        forall|i: int|
            0 <= i < caps.len() ==> desc_at(words, i) == page::described(#[trigger] caps[i]),
    ensures
        info_in(words) is Ok,
        info_in(words)->Ok_0.aspace == 2,
        info_in(words)->Ok_0.console == 3,
        info_in(words)->Ok_0.frame_size == plat.page_size(),
        ({
            let u = info_in(words)->Ok_0.untyped as int;
            &&& 4 <= u < caps.len()
            &&& caps[u]->size >= plat.page_size() * FRAMES_NEEDED
            &&& forall|i: int|
                4 <= i < u ==> (#[trigger] caps[i])->size < plat.page_size() * FRAMES_NEEDED
        }),
{
    let first = crate::cap::first_caps(root);
    let n = caps.len() as int;
    assert(caps[0] == first[0] && caps[1] == first[1] && caps[2] == first[2] && caps[3]
        == first[3]) by {
        assert(caps.take(4)[0] == caps[0] && caps.take(4)[1] == caps[1] && caps.take(4)[2]
            == caps[2] && caps.take(4)[3] == caps[3]);
    }
    assert(align::is_pow2(plat.page_size() as u64)) by {
        assert(4096u64 & 4095u64 == 0 && 16384u64 & 16383u64 == 0) by (bit_vector);
    }
    lemma_first_slots(words, n);
    let k = choose|i: int|
        4 <= i < caps.len() && (#[trigger] caps[i])->size >= plat.page_size() * FRAMES_NEEDED;
    assert(caps[k] is Untyped);
    assert(roomy(words, k));
    lemma_first_roomy(words, 4, n, k);
    lemma_found(words, 0, n);
    let u = first_roomy(words, n);
    assert(roomy(words, u));
    assert(caps[u] is Untyped);
    assert forall|i: int| 4 <= i < u implies (#[trigger] caps[i])->size < plat.page_size()
        * FRAMES_NEEDED by {
        assert(!roomy(words, i));
    }
}

/// Among the slots that every root task has, the address space and the console are found,
/// and no untyped memory.
proof fn lemma_first_slots(words: Seq<u64>, n: int)
    requires
        4 <= n,
        desc_at(words, 0).kind == cap_kind::EMPTY,
        desc_at(words, 1).kind == cap_kind::TCB,
        desc_at(words, 2).kind == cap_kind::ADDR_SPACE,
        desc_at(words, 3).kind == cap_kind::CONSOLE,
    ensures
        first_of(words, cap_kind::ADDR_SPACE, n) == 2,
        first_of(words, cap_kind::CONSOLE, n) == 3,
        first_roomy(words, 4) == 0,
{
    assert(first_of(words, cap_kind::ADDR_SPACE, 0) == 0);
    assert(first_of(words, cap_kind::ADDR_SPACE, 1) == 0);
    assert(first_of(words, cap_kind::ADDR_SPACE, 2) == 0);
    assert(first_of(words, cap_kind::ADDR_SPACE, 3) == 2);
    assert(first_of(words, cap_kind::CONSOLE, 0) == 0);
    assert(first_of(words, cap_kind::CONSOLE, 1) == 0);
    assert(first_of(words, cap_kind::CONSOLE, 2) == 0);
    assert(first_of(words, cap_kind::CONSOLE, 3) == 0);
    assert(first_of(words, cap_kind::CONSOLE, 4) == 3);
    assert(first_roomy(words, 0) == 0);
    assert(first_roomy(words, 1) == 0);
    assert(first_roomy(words, 2) == 0);
    assert(first_roomy(words, 3) == 0);
    lemma_first_of_stays(words, cap_kind::ADDR_SPACE, 3, n);
    lemma_first_of_stays(words, cap_kind::CONSOLE, 4, n);
}

proof fn lemma_first_of_stays(words: Seq<u64>, kind: u64, m: int, n: int)
    requires
        0 <= m <= n,
        first_of(words, kind, m) != 0,
    ensures
        first_of(words, kind, n) == first_of(words, kind, m),
    decreases n - m,
{
    if m < n {
        lemma_first_of_stays(words, kind, m, n - 1);
    }
}

/// The first slot is the first: it is found where there is one, and none before it will
/// do.
proof fn lemma_first_roomy(words: Seq<u64>, m: int, n: int, k: int)
    requires
        0 < m <= n,
        m <= k,
        first_roomy(words, m) == 0,
        roomy(words, k),
    ensures
        k < n ==> m <= first_roomy(words, n) <= k,
        k >= n ==> first_roomy(words, n) == 0 || m <= first_roomy(words, n) < n,
        forall|i: int|
            m <= i < n && (first_roomy(words, n) == 0 || i < first_roomy(words, n))
                ==> !(#[trigger] roomy(words, i)),
    decreases n - m,
{
    if m < n {
        lemma_first_roomy(words, m, n - 1, k);
    }
}

} // verus!
