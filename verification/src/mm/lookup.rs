//! What the trees mean to the processor, and what changes of memory do.
use vstd::prelude::*;

use crate::mm::mem::{self, MemOp};
use crate::mm::tree;
use crate::platform::Platform;

verus! {

/// The address in a descriptor: bits 47 down to the page size.
pub open spec fn led_to(plat: Platform, desc: u64) -> u64 {
    (desc % 0x1_0000_0000_0000 - desc as int % plat.page_size()) as u64
}

/// One step of the walk of the processor: from a table by an index to the next, where
/// the entry is not 0.
pub open spec fn step_down(
    plat: Platform,
    tables: Map<u64, Seq<u64>>,
    at: Option<u64>,
    i: int,
) -> Option<u64> {
    if at is Some && tables[at->0][i] != 0 {
        Some(led_to(plat, tables[at->0][i]))
    } else {
        None
    }
}

/// How far each of the four indices is shifted in an address.
pub open spec fn index_unit(plat: Platform, level: int) -> int {
    match plat {
        Platform::Virt => if level == 0 {
            0x80_0000_0000
        } else if level == 1 {
            0x4000_0000
        } else if level == 2 {
            0x20_0000
        } else {
            0x1000
        },
        Platform::Apple => if level == 0 {
            0x8000_0000_0000
        } else if level == 1 {
            0x10_0000_0000
        } else if level == 2 {
            0x200_0000
        } else {
            0x4000
        },
    }
}

/// The index of an address in the table of a level.
pub open spec fn index_at(plat: Platform, va: int, level: int) -> int {
    (va / index_unit(plat, level)) % (if plat == Platform::Virt {
        0x200int
    } else {
        0x800int
    })
}

proof fn lemma_led_to(plat: Platform, desc: u64)
    ensures
        desc & plat.addr_bits() == led_to(plat, desc),
{
    match plat {
        Platform::Virt => {
            assert(desc & 0x0000_FFFF_FFFF_F000 == desc % 0x1_0000_0000_0000 - desc % 0x1000)
                by (bit_vector);
        },
        Platform::Apple => {
            assert(desc & 0x0000_FFFF_FFFF_C000 == desc % 0x1_0000_0000_0000 - desc % 0x4000)
                by (bit_vector);
        },
    }
}

/// The mapping of a page is what the walk of the processor through four tables finds,
/// from the root by the indices of the address, the topmost first.
pub proof fn lemma_walk(plat: Platform, tables: Map<u64, Seq<u64>>, root: u64, va: int)
    requires
        0 <= va < 0x1_0000_0000_0000,
    ensures
        ({
            let t1 = step_down(plat, tables, Some(root), index_at(plat, va, 0));
            let t2 = step_down(plat, tables, t1, index_at(plat, va, 1));
            let t3 = step_down(plat, tables, t2, index_at(plat, va, 2));
            tree::leaf(plat, tables, root, plat.page(va)) == (if t3 is Some {
                tables[t3->0][index_at(plat, va, 3)]
            } else {
                0
            })
        }),
{
    reveal_with_fuel(tree::reach, 4);
    let n = plat.table_len();
    let p3 = va / index_unit(plat, 3);
    let p2 = p3 / n;
    let p1 = p2 / n;
    let p0 = p1 / n;
    assert(plat.page(va) == p3);
    assert(p2 == va / index_unit(plat, 2) && p1 == va / index_unit(plat, 1) && p0 == va
        / index_unit(plat, 0) && p0 / n == 0 && p0 >= 0) by {
        match plat {
            Platform::Virt => {},
            Platform::Apple => {},
        }
    }
    lemma_led_to(plat, tables[root][p0 % n]);
    let t1 = step_down(plat, tables, Some(root), p0 % n);
    lemma_led_to(plat, tables[t1->0][p1 % n]);
    let t2 = step_down(plat, tables, t1, p1 % n);
    lemma_led_to(plat, tables[t2->0][p2 % n]);
    assert(tree::reach(plat, tables, root, 0, p0 / n) == Some(root));
    assert(tree::reach(plat, tables, root, 1, p0) == t1);
    assert(tree::reach(plat, tables, root, 2, p1) == t2);
}

/// A change of memory: a word that was written reads back and nothing else is different;
/// a frame that was cleared reads as zeros and no other frame is different.
pub proof fn lemma_changes(
    plat: Platform,
    m: Map<u64, Seq<u64>>,
    frame: u64,
    index: usize,
    value: u64,
)
    requires
        m.contains_key(frame),
        index < m[frame].len(),
    ensures
        ({
            let w = mem::applied(plat, m, MemOp::Write { frame, index, value });
            let z = mem::applied(plat, m, MemOp::Zero { frame });
            &&& w.dom() == m.dom() && z.dom() == m.dom()
            &&& w[frame].len() == m[frame].len() && z[frame].len() == plat.page_size() / 8
            &&& w[frame][index as int] == value
            &&& forall|i: int|
                0 <= i < m[frame].len() && i != index ==> #[trigger] w[frame][i] == m[frame][i]
            &&& forall|i: int| 0 <= i < z[frame].len() ==> #[trigger] z[frame][i] == 0
            &&& forall|t: u64|
                #![trigger m[t]]
                m.contains_key(t) && t != frame ==> w[t] == m[t] && z[t] == m[t]
        }),
{
    let w = mem::applied(plat, m, MemOp::Write { frame, index, value });
    let z = mem::applied(plat, m, MemOp::Zero { frame });
    assert(w.dom() =~= m.dom() && z.dom() =~= m.dom());
    match plat {
        Platform::Virt => {},
        Platform::Apple => {},
    }
}

/// Changes are carried out in order.
pub proof fn lemma_in_order(plat: Platform, m: Map<u64, Seq<u64>>, a: Seq<MemOp>, b: Seq<MemOp>)
    ensures
        mem::replayed(plat, m, a + b) == mem::replayed(plat, mem::replayed(plat, m, a), b),
        mem::replayed(plat, m, Seq::empty()) == m,
    decreases b.len(),
{
    if b.len() == 0 {
        assert(a + b =~= a);
    } else {
        assert((a + b).drop_last() =~= a + b.drop_last());
        lemma_in_order(plat, m, a, b.drop_last());
    }
}

} // verus!
