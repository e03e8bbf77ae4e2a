//! The boot information page: what the kernel tells the root task of its capabilities.
use vstd::prelude::*;

use crate::abi::bootinfo::{self, cap_kind, CapDesc, Header};
use crate::cap::{self, CNode, Cap};
use crate::mm::mem::PhysMem;
use crate::platform::Platform;

verus! {

/// The words of the header, and of each description.
pub const RECORD_WORDS: usize = 3;

/// The description of a capability. Of objects of the kernel no address is shown.
pub open spec fn described(c: Cap) -> CapDesc {
    match c {
        Cap::Empty => CapDesc { kind: cap_kind::EMPTY, base: 0, size: 0 },
        Cap::RootTcb => CapDesc { kind: cap_kind::TCB, base: 0, size: 0 },
        Cap::Tcb { .. } => CapDesc { kind: cap_kind::TCB, base: 0, size: 0 },
        Cap::AddrSpace { .. } => CapDesc { kind: cap_kind::ADDR_SPACE, base: 0, size: 0 },
        Cap::Console => CapDesc { kind: cap_kind::CONSOLE, base: 0, size: 0 },
        Cap::Untyped { base, size, .. } => CapDesc { kind: cap_kind::UNTYPED, base, size },
        Cap::Frame { .. } => CapDesc { kind: cap_kind::FRAME, base: 0, size: 0 },
        Cap::PageTable { .. } => CapDesc { kind: cap_kind::PAGE_TABLE, base: 0, size: 0 },
        Cap::Endpoint { .. } => CapDesc { kind: cap_kind::ENDPOINT, base: 0, size: 0 },
    }
}

/// The header for so many capabilities.
pub open spec fn header(plat: Platform, count: nat) -> Header {
    Header {
        version: bootinfo::VERSION,
        frame_size: plat.page_size() as u64,
        cap_count: count as u64,
    }
}

/// A word of a header.
pub open spec fn header_word(h: Header, i: int) -> u64 {
    if i == 0 {
        h.version
    } else if i == 1 {
        h.frame_size
    } else {
        h.cap_count
    }
}

/// A word of a description.
pub open spec fn desc_word(d: CapDesc, i: int) -> u64 {
    if i == 0 {
        d.kind
    } else if i == 1 {
        d.base
    } else {
        d.size
    }
}

/// A word of the page: the header, then the descriptions in slot order, then what was
/// there before.
pub open spec fn page_word(plat: Platform, caps: Seq<Cap>, before: Seq<u64>, i: int) -> u64 {
    if i < RECORD_WORDS {
        header_word(header(plat, caps.len()), i)
    } else if i / 3 - 1 < caps.len() {
        desc_word(described(caps[i / 3 - 1]), i % 3)
    } else {
        before[i]
    }
}

/// The words of the page.
pub open spec fn page_words(plat: Platform, caps: Seq<Cap>, before: Seq<u64>) -> Seq<u64> {
    Seq::new(before.len(), |i: int| page_word(plat, caps, before, i))
}

/// The description of a capability.
fn describe(c: &Cap) -> (r: CapDesc)
    ensures
        r == described(*c),
{
    match *c {
        Cap::Empty => CapDesc { kind: cap_kind::EMPTY, base: 0, size: 0 },
        Cap::RootTcb => CapDesc { kind: cap_kind::TCB, base: 0, size: 0 },
        Cap::Tcb { .. } => CapDesc { kind: cap_kind::TCB, base: 0, size: 0 },
        Cap::AddrSpace { .. } => CapDesc { kind: cap_kind::ADDR_SPACE, base: 0, size: 0 },
        Cap::Console => CapDesc { kind: cap_kind::CONSOLE, base: 0, size: 0 },
        Cap::Untyped { base, size, .. } => CapDesc { kind: cap_kind::UNTYPED, base, size },
        Cap::Frame { .. } => CapDesc { kind: cap_kind::FRAME, base: 0, size: 0 },
        Cap::PageTable { .. } => CapDesc { kind: cap_kind::PAGE_TABLE, base: 0, size: 0 },
        Cap::Endpoint { .. } => CapDesc { kind: cap_kind::ENDPOINT, base: 0, size: 0 },
    }
}

/// Writes three words in a row.
fn write_record(m: &mut PhysMem, frame: u64, at: usize, w0: u64, w1: u64, w2: u64)
    requires
        old(m).wf(),
        old(m)@.contains_key(frame),
        !old(m).homes().contains_key(frame),
        at + 3 <= old(m).platform().table_len(),
    ensures
        final(m).wf(),
        final(m).settled() == old(m).settled(),
        final(m).platform() == old(m).platform(),
        final(m).homes() == old(m).homes(),
        final(m).space() == old(m).space(),
        final(m)@ == old(m)@.insert(
            frame,
            old(m)@[frame].update(at as int, w0).update(at + 1, w1).update(at + 2, w2),
        ),
{
    m.write(frame, at, w0);
    m.write(frame, at + 1, w1);
    m.write(frame, at + 2, w2);
    assert(m@ =~= old(m)@.insert(
        frame,
        old(m)@[frame].update(at as int, w0).update(at + 1, w1).update(at + 2, w2),
    ));
}

/// Records the capabilities in the boot information page at `frame_pa`.
///
/// The root task can read the page and not write it.
pub fn write_bootinfo(frame_pa: u64, cnode: &CNode, m: &mut PhysMem)
    requires
        cnode.wf(),
        old(m).wf(),
        old(m)@.contains_key(frame_pa),
        !old(m).homes().contains_key(frame_pa),
    ensures
        final(m).wf(),
        final(m).settled() == old(m).settled(),
        final(m).platform() == old(m).platform(),
        final(m).homes() == old(m).homes(),
        final(m).space() == old(m).space(),
        final(m)@ == old(m)@.insert(
            frame_pa,
            page_words(old(m).platform(), cnode@, old(m)@[frame_pa]),
        ),
{
    let plat = m.plat();
    let slots = cnode.slots();
    let ghost before = m@[frame_pa];
    let ghost caps = cnode@;
    write_record(m, frame_pa, 0, bootinfo::VERSION, plat.granule(), slots.len() as u64);
    let mut i: usize = 0;
    while i < slots.len()
        invariant
            i <= slots.len(),
            slots@ == caps,
            caps.len() <= cap::CNODE_SLOTS,
            plat == m.platform(),
            m.wf(),
            m.settled() == old(m).settled(),
            m.platform() == old(m).platform(),
            m.homes() == old(m).homes(),
            m.space() == old(m).space(),
            !m.homes().contains_key(frame_pa),
            old(m)@.contains_key(frame_pa),
            before == old(m)@[frame_pa],
            before.len() == plat.table_len(),
            m@ == old(m)@.insert(frame_pa, m@[frame_pa]),
            m@[frame_pa].len() == before.len(),
            forall|j: int|
                0 <= j < before.len() ==> #[trigger] m@[frame_pa][j] == (if j < 3 * (i + 1) {
                    page_word(plat, caps, before, j)
                } else {
                    before[j]
                }),
        decreases slots.len() - i,
    {
        let d = describe(&slots[i]);
        let ghost mid = m@[frame_pa];
        let at = 3 * (i + 1);
        write_record(m, frame_pa, at, d.kind, d.base, d.size);
        proof {
            let now = m@[frame_pa];
            assert(now == mid.update(at as int, d.kind).update(at + 1, d.base).update(
                at + 2,
                d.size,
            ));
            assert forall|j: int| 0 <= j < before.len() implies #[trigger] now[j] == (if j < 3 * (i
                + 2) {
                page_word(plat, caps, before, j)
            } else {
                before[j]
            }) by {
                if at <= j < at + 3 {
                    assert(j / 3 - 1 == i);
                } else {
                    assert(now[j] == mid[j]);
                }
            }
            assert(m@ =~= old(m)@.insert(frame_pa, now));
        }
        i += 1;
    }
    proof {
        let now = m@[frame_pa];
        assert(now =~= page_words(plat, caps, before)) by {
            assert forall|j: int| 0 <= j < now.len() implies now[j] == page_word(
                plat,
                caps,
                before,
                j,
            ) by {
                if j >= 3 * (caps.len() + 1) {
                    assert(j / 3 - 1 >= caps.len());
                }
            }
        }
    }
}

/// The page tells where untyped memory is and shows no other address.
pub proof fn lemma_page_hides_kernel_addresses(
    plat: Platform,
    caps: Seq<Cap>,
    before: Seq<u64>,
    slot: int,
)
    requires
        0 <= slot < caps.len(),
        3 * (caps.len() + 1) <= before.len(),
    ensures
        ({
            let words = page_words(plat, caps, before);
            let at = 3 * (slot + 1);
            &&& words[at] == described(caps[slot]).kind
            &&& match caps[slot] {
                Cap::Untyped { base, size, .. } => words[at + 1] == base && words[at + 2] == size,
                _ => words[at + 1] == 0 && words[at + 2] == 0,
            }
        }),
{
    let at = 3 * (slot + 1);
    assert(at / 3 - 1 == slot && at % 3 == 0);
    assert((at + 1) / 3 - 1 == slot && (at + 1) % 3 == 1);
    assert((at + 2) / 3 - 1 == slot && (at + 2) % 3 == 2);
}

} // verus!
