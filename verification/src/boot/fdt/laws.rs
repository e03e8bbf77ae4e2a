//! What the device tree parser promises as a whole.
use vstd::prelude::*;

use crate::boot::fdt::{self, BootError, Layout, Section, Step, Walk};
use crate::bytes;

verus! {

/// Whether the strings of one blob are the first strings of another.
pub open spec fn strings_kept(b1: Seq<u8>, l1: Layout, b2: Seq<u8>, l2: Layout) -> bool {
    let size = l1.strings_end - l1.strings_start;
    &&& l2.strings_start + size <= l2.strings_end
    &&& forall|i: int|
        0 <= i < size ==> #[trigger] b1[l1.strings_start + i] == b2[l2.strings_start + i]
}

/// Whether the `n` bytes at `o1` in one blob are those at `o2` in another.
pub open spec fn same_bytes(b1: Seq<u8>, o1: int, b2: Seq<u8>, o2: int, n: int) -> bool {
    forall|i: int| 0 <= i < n ==> #[trigger] b1[o1 + i] == b2[o2 + i]
}

/// Whether the structure block of the second blob is that of the first with `n` bytes
/// inserted at the offset `p` of the block.
pub open spec fn inserted(
    b1: Seq<u8>,
    l1: Layout,
    b2: Seq<u8>,
    l2: Layout,
    p: int,
    n: int,
) -> bool {
    let size = l1.struct_end - l1.struct_start;
    &&& 0 <= p <= size
    &&& 0 <= n
    &&& n % 4 == 0
    &&& l2.struct_end - l2.struct_start == size + n
    &&& same_bytes(b1, l1.struct_start, b2, l2.struct_start, p)
    &&& same_bytes(b1, l1.struct_start + p, b2, l2.struct_start + p + n, size - p)
}

/// Where the walk stands when it comes to the token at `at`, if it does.
pub open spec fn visits(blob: Seq<u8>, l: Layout, off: int, w: Walk, at: int) -> Option<Walk>
    decreases
            (if off >= at {
                0
            } else {
                at - off
            }),
{
    if off == at {
        Some(w)
    } else if off > at {
        None
    } else {
        match fdt::step(blob, l, off, w) {
            Step::More(next, more) => {
                proof {
                    fdt::lemma_step_forward(blob, l, off, w);
                }
                visits(blob, l, next, more, at)
            },
            _ => None,
        }
    }
}

/// Where the node that is open at depth 2 ends, if the tokens from `off` on, which are at
/// the given depth, are well formed up to there.
pub open spec fn closes(blob: Seq<u8>, l: Layout, off: int, depth: int) -> Option<int>
    decreases
            (if off >= l.struct_end {
                0
            } else {
                l.struct_end - off
            }),
{
    if off >= l.struct_end || off + 4 > blob.len() {
        None
    } else {
        let token = bytes::be32_at(blob, off);
        if token == fdt::FDT_BEGIN_NODE {
            match fdt::zero_from(blob, off + 4, l.struct_end) {
                Some(end) if depth < fdt::MAX_DEPTH => {
                    proof {
                        fdt::lemma_zero_from(blob, off + 4, l.struct_end);
                    }
                    closes(blob, l, fdt::up4(end + 1), depth + 1)
                },
                _ => None,
            }
        } else if token == fdt::FDT_END_NODE {
            if depth == 2 {
                Some(off + 4)
            } else {
                closes(blob, l, off + 4, depth - 1)
            }
        } else if token == fdt::FDT_PROP {
            match fdt::property(blob, l, off + 4) {
                Ok((_, value)) => closes(blob, l, fdt::up4(off + 12 + value.len()), depth),
                Err(_) => None,
            }
        } else if token == fdt::FDT_NOP {
            closes(blob, l, off + 4, depth)
        } else {
            None
        }
    }
}

/// Whether the `n` bytes at `off` are a well-formed node right below the root that the
/// parser does not interpret.
pub open spec fn other_node(blob: Seq<u8>, l: Layout, off: int, n: int) -> bool {
    &&& off < l.struct_end
    &&& off + 4 <= blob.len()
    &&& bytes::be32_at(blob, off) == fdt::FDT_BEGIN_NODE
    &&& fdt::zero_from(blob, off + 4, l.struct_end) matches Some(end) && {
        &&& fdt::section_of(blob.subrange(off + 4, end)) == Section::Other
        &&& closes(blob, l, fdt::up4(end + 1), 2) == Some(off + n)
    }
}

/// Whether the `n` bytes at `off` are tokens that mean nothing.
pub open spec fn nops(blob: Seq<u8>, l: Layout, off: int, n: int) -> bool {
    &&& off + n <= l.struct_end <= blob.len()
    &&& n % 4 == 0
    &&& forall|i: int|
        0 <= i < n && i % 4 == 0 ==> #[trigger] bytes::be32_at(blob, off + i) == fdt::FDT_NOP
}

/// The first zero byte is found among the same bytes elsewhere.
proof fn lemma_zero_moved(b1: Seq<u8>, f1: int, t1: int, b2: Seq<u8>, f2: int, t2: int, n: int)
    requires
        same_bytes(b1, f1, b2, f2, n),
        fdt::zero_from(b1, f1, t1) matches Some(e) && e < f1 + n,
        f2 + n <= t2,
    ensures
        fdt::zero_from(b2, f2, t2) == Some(f2 + (fdt::zero_from(b1, f1, t1)->Some_0 - f1)),
{
    let e1 = fdt::zero_from(b1, f1, t1)->Some_0;
    let e2 = f2 + (e1 - f1);
    fdt::lemma_zero_from(b1, f1, t1);
    fdt::lemma_zero_from(b2, f2, t2);
    assert(b1[f1 + (e1 - f1)] == b2[f2 + (e1 - f1)]);
    assert(b2[e2] == 0);
    let found = fdt::zero_from(b2, f2, t2);
    assert(found is Some);
    let x = found->Some_0;
    if x < e2 {
        assert(b1[f1 + (x - f2)] == b2[f2 + (x - f2)]);
        assert(b1[f1 + (x - f2)] != 0);
    }
}

/// A name is found among the same strings elsewhere.
proof fn lemma_name_moved(b1: Seq<u8>, l1: Layout, b2: Seq<u8>, l2: Layout, k: int)
    requires
        strings_kept(b1, l1, b2, l2),
        0 <= k,
        fdt::name_at(b1, l1, k) is Ok,
        0 <= l1.strings_start,
        0 <= l2.strings_start,
        l1.strings_end <= b1.len(),
        l2.strings_end <= b2.len(),
    ensures
        fdt::name_at(b2, l2, k) == fdt::name_at(b1, l1, k),
{
    let f1 = l1.strings_start + k;
    let f2 = l2.strings_start + k;
    let n = l1.strings_end - f1;
    assert(same_bytes(b1, f1, b2, f2, n)) by {
        assert forall|i: int| 0 <= i < n implies #[trigger] b1[f1 + i] == b2[f2 + i] by {
            assert(b1[l1.strings_start + (k + i)] == b2[l2.strings_start + (k + i)]);
        }
    }
    fdt::lemma_zero_from(b1, f1, l1.strings_end);
    lemma_zero_moved(b1, f1, l1.strings_end, b2, f2, l2.strings_end, n);
    let e1 = fdt::zero_from(b1, f1, l1.strings_end)->Some_0;
    let e2 = f2 + (e1 - f1);
    assert(b1.subrange(f1, e1) =~= b2.subrange(f2, e2)) by {
        assert forall|i: int| 0 <= i < e1 - f1 implies #[trigger] b1.subrange(f1, e1)[i] == b2.subrange(
            f2,
            e2,
        )[i] by {
            assert(b1[f1 + i] == b2[f2 + i]);
        }
    }
}

/// The same four bytes are the same number.
proof fn lemma_word_moved(b1: Seq<u8>, o1: int, b2: Seq<u8>, o2: int, n: int, k: int)
    requires
        same_bytes(b1, o1, b2, o2, n),
        0 <= k,
        k + 4 <= n,
    ensures
        bytes::be32_at(b1, o1 + k) == bytes::be32_at(b2, o2 + k),
{
    reveal(bytes::be32_at);
    assert(b1[o1 + k] == b2[o2 + k]);
    assert(b1[o1 + (k + 1)] == b2[o2 + (k + 1)]);
    assert(b1[o1 + (k + 2)] == b2[o2 + (k + 2)]);
    assert(b1[o1 + (k + 3)] == b2[o2 + (k + 3)]);
}

/// Rounding up goes with a move by whole words.
proof fn lemma_up4_moved(a: int, o1: int, o2: int)
    requires
        (o2 - o1) % 4 == 0,
    ensures
        fdt::up4(a + (o2 - o1)) == fdt::up4(a) + (o2 - o1),
        a <= fdt::up4(a) < a + 4,
        fdt::up4(a) % 4 == 0,
{
}

/// The layout is one that a header can give.
spec fn sound(blob: Seq<u8>, l: Layout) -> bool {
    &&& 0 <= l.struct_start <= l.struct_end <= blob.len()
    &&& l.struct_start % 4 == 0
    &&& l.struct_end % 4 == 0
    &&& 0 <= l.strings_start <= l.strings_end <= blob.len()
}

proof fn lemma_layout_sound(blob: Seq<u8>)
    requires
        fdt::layout(blob) is Ok,
    ensures
        sound(blob, fdt::layout(blob)->Ok_0),
{
    bytes::lemma_be32_range(blob, 8);
    bytes::lemma_be32_range(blob, 12);
    bytes::lemma_be32_range(blob, 32);
    bytes::lemma_be32_range(blob, 36);
}

/// A token does the same elsewhere, if its bytes and the strings are there.
#[verifier::rlimit(30)]
proof fn lemma_step_moved(
    b1: Seq<u8>,
    l1: Layout,
    o1: int,
    b2: Seq<u8>,
    l2: Layout,
    o2: int,
    w: Walk,
)
    requires
        sound(b1, l1),
        sound(b2, l2),
        strings_kept(b1, l1, b2, l2),
        0 <= o1,
        0 <= o2,
        (o2 - o1) % 4 == 0,
        o1 % 4 == 0,
        match fdt::step(b1, l1, o1, w) {
            Step::More(next, _) => {
                &&& same_bytes(b1, o1, b2, o2, next - o1)
                &&& o2 + (next - o1) <= l2.struct_end
            },
            Step::Done(_) => same_bytes(b1, o1, b2, o2, 4) && o2 + 4 <= l2.struct_end,
            Step::Fail(_) => false,
        },
    ensures
        match fdt::step(b1, l1, o1, w) {
            Step::More(next, more) => {
                &&& fdt::step(b2, l2, o2, w) == Step::More(o2 + (next - o1), more)
                &&& next % 4 == 0
                &&& next <= l1.struct_end
            },
            Step::Done(found) => fdt::step(b2, l2, o2, w) == Step::Done(found),
            Step::Fail(_) => true,
        },
{
    reveal(fdt::step);
    fdt::lemma_step_forward(b1, l1, o1, w);
    let token = bytes::be32_at(b1, o1);
    match fdt::step(b1, l1, o1, w) {
        Step::More(next, more) => {
            let n = next - o1;
            fdt::lemma_zero_from(b1, o1 + 4, l1.struct_end);
            if token == fdt::FDT_BEGIN_NODE {
                let e1 = fdt::zero_from(b1, o1 + 4, l1.struct_end)->Some_0;
                lemma_up4_moved(e1 + 1, o1, o2);
                lemma_up4_moved(e1 + 1, 0, 0);
                assert(next == fdt::up4(e1 + 1));
                assert(next <= l1.struct_end);
                lemma_word_moved(b1, o1, b2, o2, n, 0);
                assert(same_bytes(b1, o1 + 4, b2, o2 + 4, n - 4)) by {
                    assert forall|i: int| 0 <= i < n - 4 implies #[trigger] b1[o1 + 4 + i]
                        == b2[o2 + 4 + i] by {
                        assert(b1[o1 + (4 + i)] == b2[o2 + (4 + i)]);
                    }
                }
                lemma_zero_moved(
                    b1,
                    o1 + 4,
                    l1.struct_end,
                    b2,
                    o2 + 4,
                    l2.struct_end,
                    n - 4,
                );
                let e2 = o2 + 4 + (e1 - (o1 + 4));
                assert(b1.subrange(o1 + 4, e1) =~= b2.subrange(o2 + 4, e2)) by {
                    assert forall|i: int| 0 <= i < e1 - (o1 + 4) implies #[trigger] b1.subrange(
                        o1 + 4,
                        e1,
                    )[i] == b2.subrange(o2 + 4, e2)[i] by {
                        assert(b1[o1 + 4 + i] == b2[o2 + 4 + i]);
                    }
                }
                assert(fdt::up4(e2 + 1) == o2 + n);
            } else if token == fdt::FDT_PROP {
                let len = bytes::be32_at(b1, o1 + 4);
                let k = bytes::be32_at(b1, o1 + 8);
                bytes::lemma_be32_range(b1, o1 + 4);
                bytes::lemma_be32_range(b1, o1 + 8);
                let (name, value) = fdt::property(b1, l1, o1 + 4)->Ok_0;
                assert(value.len() == len);
                lemma_up4_moved(o1 + 12 + len, o1, o2);
                lemma_up4_moved(o1 + 12 + len, 0, 0);
                assert(next == fdt::up4(o1 + 12 + len));
                assert(next <= l1.struct_end);
                lemma_word_moved(b1, o1, b2, o2, n, 0);
                lemma_word_moved(b1, o1, b2, o2, n, 4);
                lemma_word_moved(b1, o1, b2, o2, n, 8);
                lemma_name_moved(b1, l1, b2, l2, k);
                assert(b2.subrange(o2 + 12, o2 + 12 + len) =~= value) by {
                    assert forall|i: int| 0 <= i < len implies #[trigger] b2.subrange(
                        o2 + 12,
                        o2 + 12 + len,
                    )[i] == value[i] by {
                        assert(b1[o1 + (12 + i)] == b2[o2 + (12 + i)]);
                    }
                }
                assert(fdt::property(b2, l2, o2 + 4) == Ok::<(Seq<u8>, Seq<u8>), BootError>(
                    (name, value),
                ));
                assert(o2 + 12 + len == o1 + 12 + len + (o2 - o1));
            } else {
                assert(n == 4);
                lemma_word_moved(b1, o1, b2, o2, n, 0);
            }
        },
        Step::Done(found) => {
            lemma_word_moved(b1, o1, b2, o2, 4, 0);
        },
        Step::Fail(_) => {},
    }
}

/// Whether the walk is in no section while it is not below the root.
spec fn outside(w: Walk) -> bool {
    w.depth <= 1 ==> w.section == Section::Other
}

/// A walk that comes to a token goes on from there, and is in no section right below the
/// root.
proof fn lemma_visits(blob: Seq<u8>, l: Layout, off: int, w: Walk, at: int)
    requires
        visits(blob, l, off, w, at) is Some,
        outside(w),
    ensures
        fdt::walked(blob, l, off, w) == fdt::walked(
            blob,
            l,
            at,
            visits(blob, l, off, w, at)->Some_0,
        ),
        outside(visits(blob, l, off, w, at)->Some_0),
        off <= at,
    decreases
            (if off >= at {
                0
            } else {
                at - off
            }),
{
    if off < at {
        fdt::lemma_step_forward(blob, l, off, w);
        if let Step::More(next, more) = fdt::step(blob, l, off, w) {
            assert(outside(more)) by {
                reveal(fdt::step);
                reveal(Walk::entered);
                reveal(Walk::saw);
            }
            lemma_visits(blob, l, next, more, at);
        }
    }
}

/// The walk comes to the place of the insertion as it did without it.
proof fn lemma_prefix(
    b1: Seq<u8>,
    l1: Layout,
    b2: Seq<u8>,
    l2: Layout,
    p: int,
    n: int,
    r: int,
    w: Walk,
)
    requires
        sound(b1, l1),
        sound(b2, l2),
        strings_kept(b1, l1, b2, l2),
        inserted(b1, l1, b2, l2, p, n),
        0 <= r <= p,
        r % 4 == 0,
        outside(w),
        visits(b1, l1, l1.struct_start + r, w, l1.struct_start + p) is Some,
    ensures
        visits(b2, l2, l2.struct_start + r, w, l2.struct_start + p) == visits(
            b1,
            l1,
            l1.struct_start + r,
            w,
            l1.struct_start + p,
        ),
        p % 4 == 0,
    decreases p - r,
{
    if r < p {
        let o1 = l1.struct_start + r;
        let o2 = l2.struct_start + r;
        fdt::lemma_step_forward(b1, l1, o1, w);
        if let Step::More(next, more) = fdt::step(b1, l1, o1, w) {
            assert(outside(more)) by {
                reveal(fdt::step);
                reveal(Walk::entered);
                reveal(Walk::saw);
            }
            lemma_visits(b1, l1, next, more, l1.struct_start + p);
            assert(same_bytes(b1, o1, b2, o2, next - o1)) by {
                assert forall|i: int| 0 <= i < next - o1 implies #[trigger] b1[o1 + i] == b2[o2
                    + i] by {
                    assert(b1[l1.struct_start + (r + i)] == b2[l2.struct_start + (r + i)]);
                }
            }
            lemma_step_moved(b1, l1, o1, b2, l2, o2, w);
            lemma_prefix(b1, l1, b2, l2, p, n, next - l1.struct_start, more);
        }
    }
}

/// The walk ends behind the insertion as it did without it.
proof fn lemma_suffix(
    b1: Seq<u8>,
    l1: Layout,
    b2: Seq<u8>,
    l2: Layout,
    p: int,
    n: int,
    r: int,
    w: Walk,
)
    requires
        sound(b1, l1),
        sound(b2, l2),
        strings_kept(b1, l1, b2, l2),
        inserted(b1, l1, b2, l2, p, n),
        p <= r,
        r % 4 == 0,
        fdt::walked(b1, l1, l1.struct_start + r, w) is Ok,
    ensures
        fdt::walked(b2, l2, l2.struct_start + n + r, w) == fdt::walked(
            b1,
            l1,
            l1.struct_start + r,
            w,
        ),
    decreases l1.struct_end - l1.struct_start - r,
{
    let o1 = l1.struct_start + r;
    let o2 = l2.struct_start + n + r;
    let size = l1.struct_end - l1.struct_start;
    fdt::lemma_step_forward(b1, l1, o1, w);
    assert(o1 < l1.struct_end) by {
        reveal(fdt::step);
    }
    assert forall|k: int| 0 <= k && o1 + k <= l1.struct_end implies #[trigger] same_bytes(
        b1,
        o1,
        b2,
        o2,
        k,
    ) by {
        assert forall|i: int| 0 <= i < k implies #[trigger] b1[o1 + i] == b2[o2 + i] by {
            assert(b1[l1.struct_start + p + (r - p + i)] == b2[l2.struct_start + p + n + (r - p
                + i)]);
        }
    }
    match fdt::step(b1, l1, o1, w) {
        Step::More(next, more) => {
            lemma_next_inside(b1, l1, o1, w);
            assert(same_bytes(b1, o1, b2, o2, next - o1));
            lemma_step_moved(b1, l1, o1, b2, l2, o2, w);
            lemma_suffix(b1, l1, b2, l2, p, n, next - l1.struct_start, more);
        },
        Step::Done(found) => {
            assert(same_bytes(b1, o1, b2, o2, 4));
            lemma_step_moved(b1, l1, o1, b2, l2, o2, w);
        },
        Step::Fail(_) => {},
    }
}

/// A token ends within the structure block.
proof fn lemma_next_inside(blob: Seq<u8>, l: Layout, off: int, w: Walk)
    requires
        sound(blob, l),
        0 <= off,
        off % 4 == 0,
    ensures
        fdt::step(blob, l, off, w) matches Step::More(next, _) ==> next <= l.struct_end && next % 4
            == 0,
{
    reveal(fdt::step);
    fdt::lemma_zero_from(blob, off + 4, l.struct_end);
    bytes::lemma_be32_range(blob, off + 4);
}

/// A token inside a node that is not interpreted changes nothing but the depth.
#[verifier::rlimit(30)]
proof fn lemma_token_skipped(blob: Seq<u8>, l: Layout, off: int, w: Walk)
    requires
        w.depth >= 2,
        w.section == Section::Other,
        closes(blob, l, off, w.depth) is Some,
    ensures
        ({
            let token = bytes::be32_at(blob, off);
            &&& off < l.struct_end
            &&& token == fdt::FDT_BEGIN_NODE ==> {
                let end = fdt::zero_from(blob, off + 4, l.struct_end)->Some_0;
                fdt::step(blob, l, off, w) == Step::More(
                    fdt::up4(end + 1),
                    Walk { depth: w.depth + 1, ..w },
                )
            }
            &&& token == fdt::FDT_END_NODE ==> fdt::step(blob, l, off, w) == Step::More(
                off + 4,
                Walk { depth: w.depth - 1, ..w },
            )
            &&& token == fdt::FDT_PROP ==> {
                let (_, value) = fdt::property(blob, l, off + 4)->Ok_0;
                fdt::step(blob, l, off, w) == Step::More(fdt::up4(off + 12 + value.len()), w)
            }
            &&& token == fdt::FDT_NOP ==> fdt::step(blob, l, off, w) == Step::More(off + 4, w)
        }),
{
    reveal(fdt::step);
    reveal(Walk::entered);
    reveal(Walk::saw);
}

/// A node that is not interpreted leaves the walk as it was.
proof fn lemma_node_skipped(blob: Seq<u8>, l: Layout, off: int, w: Walk)
    requires
        w.depth >= 2,
        w.section == Section::Other,
        closes(blob, l, off, w.depth) is Some,
    ensures
        fdt::walked(blob, l, off, w) == fdt::walked(
            blob,
            l,
            closes(blob, l, off, w.depth)->Some_0,
            Walk { depth: 1, ..w },
        ),
    decreases
            (if off >= l.struct_end {
                0
            } else {
                l.struct_end - off
            }),
{
    lemma_token_skipped(blob, l, off, w);
    fdt::lemma_step_forward(blob, l, off, w);
    let token = bytes::be32_at(blob, off);
    if token == fdt::FDT_BEGIN_NODE {
        let end = fdt::zero_from(blob, off + 4, l.struct_end)->Some_0;
        lemma_node_skipped(blob, l, fdt::up4(end + 1), Walk { depth: w.depth + 1, ..w });
    } else if token == fdt::FDT_END_NODE {
        if w.depth > 2 {
            lemma_node_skipped(blob, l, off + 4, Walk { depth: w.depth - 1, ..w });
        }
    } else if token == fdt::FDT_PROP {
        let (_, value) = fdt::property(blob, l, off + 4)->Ok_0;
        lemma_node_skipped(blob, l, fdt::up4(off + 12 + value.len()), w);
    } else {
        lemma_node_skipped(blob, l, off + 4, w);
    }
}

/// Tokens that mean nothing leave the walk as it was.
proof fn lemma_nops_skipped(blob: Seq<u8>, l: Layout, off: int, n: int, w: Walk)
    requires
        nops(blob, l, off, n),
        0 <= n,
    ensures
        fdt::walked(blob, l, off, w) == fdt::walked(blob, l, off + n, w),
    decreases n,
{
    if n > 0 {
        reveal(fdt::step);
        assert(bytes::be32_at(blob, off + 0) == fdt::FDT_NOP);
        assert(nops(blob, l, off + 4, n - 4)) by {
            assert forall|i: int| 0 <= i < n - 4 && i % 4 == 0 implies #[trigger] bytes::be32_at(
                blob,
                off + 4 + i,
            ) == fdt::FDT_NOP by {
                assert(bytes::be32_at(blob, off + (4 + i)) == fdt::FDT_NOP);
            }
        }
        lemma_nops_skipped(blob, l, off + 4, n - 4, w);
    }
}

/// Whether the second blob is the first with `n` bytes inserted between two tokens of its
/// structure block, where the walk stands at `w`: the memory reservations are the same,
/// and the strings are kept, with others behind them perhaps.
pub open spec fn extended(b1: Seq<u8>, b2: Seq<u8>, p: int, n: int, w: Walk) -> bool {
    match (fdt::layout(b1), fdt::layout(b2)) {
        (Ok(l1), Ok(l2)) => {
            let reserved = fdt::reservations(b1, l1.reservations, Seq::empty());
            &&& reserved is Ok
            &&& fdt::reservations(b2, l2.reservations, Seq::empty()) == reserved
            &&& strings_kept(b1, l1, b2, l2)
            &&& inserted(b1, l1, b2, l2, p, n)
            &&& visits(
                b1,
                l1,
                l1.struct_start,
                Walk::start(reserved->Ok_0),
                l1.struct_start + p,
            ) == Some(w)
        },
        _ => false,
    }
}

/// What was inserted does not matter if the walk passes it by.
proof fn lemma_passed_by(b1: Seq<u8>, b2: Seq<u8>, p: int, n: int, w: Walk)
    requires
        fdt::parsed(b1) is Ok,
        extended(b1, b2, p, n, w),
        ({
            let l2 = fdt::layout(b2)->Ok_0;
            let at = l2.struct_start + p;
            outside(w) ==> fdt::walked(b2, l2, at, w) == fdt::walked(b2, l2, at + n, w)
        }),
    ensures
        fdt::parsed(b2) == fdt::parsed(b1),
{
    let l1 = fdt::layout(b1)->Ok_0;
    let l2 = fdt::layout(b2)->Ok_0;
    let reserved = fdt::reservations(b1, l1.reservations, Seq::empty())->Ok_0;
    let start = Walk::start(reserved);
    lemma_layout_sound(b1);
    lemma_layout_sound(b2);
    lemma_visits(b1, l1, l1.struct_start, start, l1.struct_start + p);
    lemma_prefix(b1, l1, b2, l2, p, n, 0, start);
    lemma_visits(b2, l2, l2.struct_start, start, l2.struct_start + p);
    lemma_suffix(b1, l1, b2, l2, p, n, p, w);
}

/// Nodes that are not interpreted do not matter: a device tree tells the same with one
/// more well-formed node right below the root, if its name is none of those that count,
/// whatever properties and nodes it holds.
pub proof fn lemma_other_nodes_do_not_matter(b1: Seq<u8>, b2: Seq<u8>, p: int, n: int, w: Walk)
    requires
        fdt::parsed(b1) is Ok,
        extended(b1, b2, p, n, w),
        w.depth == 1,
        other_node(
            b2,
            fdt::layout(b2)->Ok_0,
            fdt::layout(b2)->Ok_0.struct_start + p,
            n,
        ),
    ensures
        fdt::parsed(b2) == fdt::parsed(b1),
{
    let l2 = fdt::layout(b2)->Ok_0;
    let at = l2.struct_start + p;
    if outside(w) {
        reveal(fdt::step);
        reveal(Walk::entered);
        fdt::lemma_zero_from(b2, at + 4, l2.struct_end);
        let end = fdt::zero_from(b2, at + 4, l2.struct_end)->Some_0;
        let inside = Walk { depth: 2, ..w };
        assert(fdt::step(b2, l2, at, w) == Step::More(fdt::up4(end + 1), inside));
        lemma_node_skipped(b2, l2, fdt::up4(end + 1), inside);
        assert(Walk { depth: 1, ..inside } == w);
    }
    lemma_passed_by(b1, b2, p, n, w);
}

/// Tokens that mean nothing do not matter: a device tree tells the same with such tokens
/// between any two of its tokens.
pub proof fn lemma_nops_do_not_matter(b1: Seq<u8>, b2: Seq<u8>, p: int, n: int, w: Walk)
    requires
        fdt::parsed(b1) is Ok,
        extended(b1, b2, p, n, w),
        nops(b2, fdt::layout(b2)->Ok_0, fdt::layout(b2)->Ok_0.struct_start + p, n),
    ensures
        fdt::parsed(b2) == fdt::parsed(b1),
{
    let l2 = fdt::layout(b2)->Ok_0;
    lemma_nops_skipped(b2, l2, l2.struct_start + p, n, w);
    lemma_passed_by(b1, b2, p, n, w);
}

} // verus!
