//! What a device tree means as a tree: nodes that hold properties and nodes.
use vstd::prelude::*;

use crate::boot::fdt::{self, BootError, Found, Layout, MemRegion, Section, Step, Walk};
use crate::bytes;

verus! {

/// What stands in a node.
pub enum Item {
    /// A token that means nothing.
    Nop,
    /// A property: its name and its value.
    Prop(Seq<u8>, Seq<u8>),
    /// A node: its name and what stands in it.
    Node(Seq<u8>, Seq<Item>),
}

/// Whether a name stands at an offset, with a zero byte behind it and none in it, before
/// `limit`.
pub open spec fn name_stands(blob: Seq<u8>, at: int, limit: int, name: Seq<u8>) -> bool {
    &&& at + name.len() < limit
    &&& blob[at + name.len()] == 0
    &&& forall|i: int| 0 <= i < name.len() ==> #[trigger] name[i] == blob[at + i] && name[i] != 0
}

/// The next multiple of 4 that is not below an offset.
pub open spec fn whole(off: int) -> int {
    if off % 4 == 0 {
        off
    } else {
        off + 4 - off % 4
    }
}

/// Where an item ends that starts at `off`, if the bytes there spell it. Each token is a
/// number of 4 bytes: 1 begins a node, whose name follows, 2 ends it, 3 is a property, with
/// the length of its value, the place of its name among the strings and its value, and 4
/// is nothing. Names and values are filled up to whole numbers.
pub open spec fn spells(blob: Seq<u8>, l: Layout, off: int, item: Item) -> Option<int>
    decreases item,
{
    match item {
        Item::Nop => if off + 4 <= l.struct_end && bytes::be32_at(blob, off) == 4 {
            Some(off + 4)
        } else {
            None
        },
        Item::Prop(name, value) => {
            let end = off + 12 + value.len();
            let at = l.strings_start + bytes::be32_at(blob, off + 8);
            if end <= l.struct_end && bytes::be32_at(blob, off) == 3 && bytes::be32_at(
                blob,
                off + 4,
            ) == value.len() && blob.subrange(off + 12, end) == value && name_stands(
                blob,
                at,
                l.strings_end,
                name,
            ) {
                Some(whole(end))
            } else {
                None
            }
        },
        Item::Node(name, items) => if bytes::be32_at(blob, off) == 1 && name_stands(
            blob,
            off + 4,
            l.struct_end,
            name,
        ) {
            match spell(blob, l, whole(off + 4 + name.len() + 1), items) {
                Some(end) => if end + 4 <= l.struct_end && bytes::be32_at(blob, end) == 2 {
                    Some(end + 4)
                } else {
                    None
                },
                None => None,
            }
        } else {
            None
        },
    }
}

/// Where items end that start at `off`, one behind the other, if the bytes there spell
/// them.
pub open spec fn spell(blob: Seq<u8>, l: Layout, off: int, items: Seq<Item>) -> Option<int>
    decreases items,
{
    if items.len() == 0 {
        Some(off)
    } else {
        match spells(blob, l, off, items[0]) {
            Some(next) => spell(blob, l, next, items.subrange(1, items.len() as int)),
            None => None,
        }
    }
}

/// Whether nodes are nested no deeper than `room` allows.
pub open spec fn fits(item: Item, room: int) -> bool
    decreases item,
{
    match item {
        Item::Node(_, items) => room >= 1 && all_fit(items, room - 1),
        _ => true,
    }
}

/// Whether nodes are nested no deeper than `room` allows.
pub open spec fn all_fit(items: Seq<Item>, room: int) -> bool
    decreases items,
{
    items.len() == 0 || (fits(items[0], room) && all_fit(
        items.subrange(1, items.len() as int),
        room,
    ))
}

/// The memory that a memory node tells, added to what is known: that of each of its own
/// `reg` properties, in order. What stands in nodes below it does not count.
pub open spec fn memory_in(items: Seq<Item>, a: int, s: int, known: Seq<MemRegion>) -> Result<
    Seq<MemRegion>,
    BootError,
>
    decreases items.len(),
{
    if items.len() == 0 {
        Ok(known)
    } else {
        let more = match items[0] {
            Item::Prop(name, value) if name == fdt::reg_name() => fdt::with_reg(
                known,
                8,
                value,
                a,
                s,
            ),
            _ => Ok(known),
        };
        match more {
            Ok(known) => memory_in(items.subrange(1, items.len() as int), a, s, known),
            Err(e) => Err(e),
        }
    }
}

/// The seed that the node of choices tells, added to what is known: its own seed
/// properties, in order.
pub open spec fn seed_in(items: Seq<Item>, known: Seq<u8>) -> Seq<u8>
    decreases items.len(),
{
    if items.len() == 0 {
        known
    } else {
        let more = match items[0] {
            Item::Prop(name, value) if name == fdt::rng_seed_name() || name
                == fdt::kaslr_seed_name() => fdt::with_seed(known, value),
            _ => known,
        };
        seed_in(items.subrange(1, items.len() as int), more)
    }
}

/// The regions that one child of the node of reservations tells.
pub open spec fn reserved_child(items: Seq<Item>, a: int, s: int, known: Seq<MemRegion>) -> Result<
    Seq<MemRegion>,
    BootError,
>
    decreases items.len(),
{
    if items.len() == 0 {
        Ok(known)
    } else {
        let more = match items[0] {
            Item::Prop(name, value) if name == fdt::reg_name() => fdt::with_reg(
                known,
                8,
                value,
                a,
                s,
            ),
            _ => Ok(known),
        };
        match more {
            Ok(known) => reserved_child(items.subrange(1, items.len() as int), a, s, known),
            Err(e) => Err(e),
        }
    }
}

/// A number of cells: it takes 4 bytes.
pub open spec fn cells_told(value: Seq<u8>) -> Result<int, BootError> {
    if value.len() == 4 {
        Ok(bytes::be32_at(value, 0))
    } else {
        Err(BootError::UnsupportedCells)
    }
}

/// The regions that the node of reservations tells, added to what is known: those of each
/// of its children, in order, by its own cell sizes as they stand there.
pub open spec fn reserved_in(items: Seq<Item>, a: int, s: int, known: Seq<MemRegion>) -> Result<
    Seq<MemRegion>,
    BootError,
>
    decreases items.len(),
{
    if items.len() == 0 {
        Ok(known)
    } else {
        let rest = items.subrange(1, items.len() as int);
        match items[0] {
            Item::Prop(name, value) => if name == fdt::address_cells_name() {
                match cells_told(value) {
                    Ok(n) => reserved_in(rest, n, s, known),
                    Err(e) => Err(e),
                }
            } else if name == fdt::size_cells_name() {
                match cells_told(value) {
                    Ok(n) => reserved_in(rest, a, n, known),
                    Err(e) => Err(e),
                }
            } else {
                reserved_in(rest, a, s, known)
            },
            Item::Node(_, sub) => match reserved_child(sub, a, s, known) {
                Ok(more) => reserved_in(rest, a, s, more),
                Err(e) => Err(e),
            },
            Item::Nop => reserved_in(rest, a, s, known),
        }
    }
}

/// Whether a name is `memory` or starts with `memory@`.
pub open spec fn is_memory(name: Seq<u8>) -> bool {
    name == fdt::memory_name() || (name.len() >= 7 && name.take(7) == fdt::memory_name().push(0x40))
}

/// What a node right below the root tells, added to what is known.
pub open spec fn told_by(name: Seq<u8>, items: Seq<Item>, a: int, s: int, known: Found) -> Result<
    Found,
    BootError,
> {
    if is_memory(name) {
        match memory_in(items, a, s, known.memory) {
            Ok(memory) => Ok(Found { memory, ..known }),
            Err(e) => Err(e),
        }
    } else if name == fdt::chosen_name() {
        Ok(Found { entropy: seed_in(items, known.entropy), ..known })
    } else if name == fdt::reserved_name() {
        match reserved_in(items, a, s, known.reserved) {
            Ok(reserved) => Ok(Found { reserved, ..known }),
            Err(e) => Err(e),
        }
    } else {
        Ok(known)
    }
}

/// What the root tells, added to what is known: what each node right below it tells, in
/// order, by the cell sizes of the root as they stand there.
pub open spec fn told(items: Seq<Item>, a: int, s: int, known: Found) -> Result<Found, BootError>
    decreases items.len(),
{
    if items.len() == 0 {
        Ok(known)
    } else {
        let rest = items.subrange(1, items.len() as int);
        match items[0] {
            Item::Prop(name, value) => if name == fdt::address_cells_name() {
                match cells_told(value) {
                    Ok(n) => told(rest, n, s, known),
                    Err(e) => Err(e),
                }
            } else if name == fdt::size_cells_name() {
                match cells_told(value) {
                    Ok(n) => told(rest, a, n, known),
                    Err(e) => Err(e),
                }
            } else {
                told(rest, a, s, known)
            },
            Item::Node(name, sub) => match told_by(name, sub, a, s, known) {
                Ok(more) => told(rest, a, s, more),
                Err(e) => Err(e),
            },
            Item::Nop => told(rest, a, s, known),
        }
    }
}

/// The layout is one that a header can give.
spec fn sound(blob: Seq<u8>, l: Layout) -> bool {
    &&& 0 <= l.struct_start <= l.struct_end <= blob.len()
    &&& l.struct_start % 4 == 0
    &&& l.struct_end % 4 == 0
    &&& 0 <= l.strings_start <= l.strings_end <= blob.len()
}

/// A name that stands at an offset is what is read there.
proof fn lemma_name(blob: Seq<u8>, at: int, limit: int, name: Seq<u8>)
    requires
        name_stands(blob, at, limit, name),
        0 <= at,
        limit <= blob.len(),
    ensures
        fdt::zero_from(blob, at, limit) == Some(at + name.len()),
        blob.subrange(at, at + name.len()) == name,
{
    fdt::lemma_zero_from(blob, at, limit);
    let end = fdt::zero_from(blob, at, limit)->Some_0;
    assert(blob[at + name.len()] == 0);
    if end < at + name.len() {
        assert(name[end - at] == blob[at + (end - at)]);
    }
    assert(blob.subrange(at, at + name.len()) =~= name);
}

/// The first token of an item, and the token that ends a node, do what they stand for.
proof fn lemma_token(blob: Seq<u8>, l: Layout, off: int, item: Item, w: Walk)
    requires
        sound(blob, l),
        0 <= off,
        spells(blob, l, off, item) is Some,
        0 < w.depth < 32,
    ensures
        off < l.struct_end,
        match item {
            Item::Nop => fdt::step(blob, l, off, w) == Step::More(off + 4, w),
            Item::Prop(name, value) => fdt::step(blob, l, off, w) == (match w.saw(name, value) {
                Ok(next) => Step::More(whole(off + 12 + value.len()), next),
                Err(e) => Step::Fail(e),
            }),
            Item::Node(name, _) => fdt::step(blob, l, off, w) == (match w.entered(name) {
                Ok(next) => Step::More(whole(off + 4 + name.len() + 1), next),
                Err(e) => Step::Fail(e),
            }),
        },
{
    reveal(fdt::step);
    match item {
        Item::Nop => {},
        Item::Prop(name, value) => {
            bytes::lemma_be32_range(blob, off + 8);
            lemma_name(blob, l.strings_start + bytes::be32_at(blob, off + 8), l.strings_end, name);
            assert(whole(off + 12 + value.len()) == fdt::up4(off + 12 + value.len()));
        },
        Item::Node(name, _) => {
            lemma_name(blob, off + 4, l.struct_end, name);
            assert(whole(off + 4 + name.len() + 1) == fdt::up4(off + 4 + name.len() + 1));
        },
    }
}

/// The token that ends a node.
proof fn lemma_end_token(blob: Seq<u8>, l: Layout, off: int, w: Walk)
    requires
        sound(blob, l),
        off + 4 <= l.struct_end,
        bytes::be32_at(blob, off) == 2,
        w.depth > 0,
    ensures
        fdt::walked(blob, l, off, w) == fdt::walked(blob, l, off + 4, w.left()),
{
    reveal(fdt::step);
}

/// Items lie one behind the other.
proof fn lemma_forward(blob: Seq<u8>, l: Layout, off: int, item: Item)
    requires
        spells(blob, l, off, item) is Some,
    ensures
        off < spells(blob, l, off, item)->Some_0,
    decreases item, 0int,
{
    match item {
        Item::Node(name, items) => {
            lemma_all_forward(blob, l, whole(off + 4 + name.len() + 1), items);
        },
        _ => {},
    }
}

proof fn lemma_all_forward(blob: Seq<u8>, l: Layout, off: int, items: Seq<Item>)
    requires
        spell(blob, l, off, items) is Some,
    ensures
        off <= spell(blob, l, off, items)->Some_0,
    decreases items, 1int,
{
    if items.len() > 0 {
        lemma_forward(blob, l, off, items[0]);
        lemma_all_forward(
            blob,
            l,
            spells(blob, l, off, items[0])->Some_0,
            items.subrange(1, items.len() as int),
        );
    }
}

/// Whether nothing that is deeper down counts any more.
spec fn quiet(w: Walk) -> bool {
    match w.section {
        Section::Other => w.depth >= 2,
        Section::Memory => w.depth >= 3,
        Section::Chosen => w.depth >= 3,
        Section::Reserved => w.depth >= 4,
    }
}

/// Where nothing counts, items are passed by.
proof fn lemma_passed(blob: Seq<u8>, l: Layout, off: int, items: Seq<Item>, w: Walk)
    requires
        sound(blob, l),
        0 <= off,
        spell(blob, l, off, items) is Some,
        quiet(w),
        w.depth <= 32,
        all_fit(items, 32 - w.depth),
    ensures
        fdt::walked(blob, l, off, w) == fdt::walked(
            blob,
            l,
            spell(blob, l, off, items)->Some_0,
            w,
        ),
    decreases items, 1int,
{
    if items.len() > 0 {
        let next = spells(blob, l, off, items[0])->Some_0;
        lemma_forward(blob, l, off, items[0]);
        lemma_item_passed(blob, l, off, items[0], w);
        lemma_passed(blob, l, next, items.subrange(1, items.len() as int), w);
    }
}

proof fn lemma_item_passed(blob: Seq<u8>, l: Layout, off: int, item: Item, w: Walk)
    requires
        sound(blob, l),
        0 <= off,
        spells(blob, l, off, item) is Some,
        quiet(w),
        w.depth <= 32,
        fits(item, 32 - w.depth),
    ensures
        fdt::walked(blob, l, off, w) == fdt::walked(
            blob,
            l,
            spells(blob, l, off, item)->Some_0,
            w,
        ),
    decreases item, 0int,
{
    reveal(Walk::saw);
    match item {
        Item::Node(name, items) => {
            lemma_node_passed(blob, l, off, name, items, w);
        },
        _ => {
            lemma_leaf_token(blob, l, off, item, w);
        },
    }
}

/// A property or nothing, at any depth.
proof fn lemma_leaf_token(blob: Seq<u8>, l: Layout, off: int, item: Item, w: Walk)
    requires
        sound(blob, l),
        0 <= off,
        spells(blob, l, off, item) is Some,
        !(item is Node),
        0 < w.depth,
    ensures
        off < l.struct_end,
        match item {
            Item::Nop => fdt::step(blob, l, off, w) == Step::More(off + 4, w),
            Item::Prop(name, value) => fdt::step(blob, l, off, w) == (match w.saw(name, value) {
                Ok(next) => Step::More(whole(off + 12 + value.len()), next),
                Err(e) => Step::Fail(e),
            }),
            Item::Node(name, _) => true,
        },
{
    reveal(fdt::step);
    if let Item::Prop(name, value) = item {
        bytes::lemma_be32_range(blob, off + 8);
        lemma_name(blob, l.strings_start + bytes::be32_at(blob, off + 8), l.strings_end, name);
        assert(whole(off + 12 + value.len()) == fdt::up4(off + 12 + value.len()));
    }
}

proof fn lemma_node_passed(
    blob: Seq<u8>,
    l: Layout,
    off: int,
    name: Seq<u8>,
    items: Seq<Item>,
    w: Walk,
)
    requires
        sound(blob, l),
        0 <= off,
        spells(blob, l, off, Item::Node(name, items)) is Some,
        2 <= w.depth <= 31,
        quiet(Walk { depth: w.depth + 1, ..w }),
        all_fit(items, 31 - w.depth),
    ensures
        fdt::walked(blob, l, off, w) == fdt::walked(
            blob,
            l,
            spells(blob, l, off, Item::Node(name, items))->Some_0,
            w,
        ),
    decreases items, 2int,
{
    let item = Item::Node(name, items);
    let inside = Walk { depth: w.depth + 1, ..w };
    let first = whole(off + 4 + name.len() + 1);
    let end = spell(blob, l, first, items)->Some_0;
    lemma_token(blob, l, off, item, w);
    assert(w.entered(name) == Ok::<Walk, BootError>(inside)) by {
        reveal(Walk::entered);
    }
    lemma_all_forward(blob, l, first, items);
    lemma_passed(blob, l, first, items, inside);
    lemma_end_token(blob, l, end, inside);
    assert(inside.left() == w);
}

/// What stands in a memory node.
proof fn lemma_memory(blob: Seq<u8>, l: Layout, off: int, items: Seq<Item>, w: Walk)
    requires
        sound(blob, l),
        0 <= off,
        spell(blob, l, off, items) is Some,
        w.section == Section::Memory,
        w.depth == 2,
        all_fit(items, 30),
    ensures
        fdt::walked(blob, l, off, w) == (match memory_in(
            items,
            w.addr_cells,
            w.size_cells,
            w.found.memory,
        ) {
            Ok(memory) => fdt::walked(
                blob,
                l,
                spell(blob, l, off, items)->Some_0,
                Walk { found: Found { memory, ..w.found }, ..w },
            ),
            Err(e) => Err(e),
        }),
    decreases items.len(),
{
    if items.len() > 0 {
        let next = spells(blob, l, off, items[0])->Some_0;
        let rest = items.subrange(1, items.len() as int);
        lemma_forward(blob, l, off, items[0]);
        assert(fits(items[0], 30));
        match items[0] {
            Item::Node(name, sub) => {
                lemma_node_passed(blob, l, off, name, sub, w);
                lemma_memory(blob, l, next, rest, w);
            },
            Item::Prop(name, value) => {
                lemma_leaf_token(blob, l, off, items[0], w);
                reveal(Walk::saw);
                if let Ok(more) = w.saw(name, value) {
                    lemma_memory(blob, l, next, rest, more);
                }
            },
            Item::Nop => {
                lemma_leaf_token(blob, l, off, items[0], w);
                lemma_memory(blob, l, next, rest, w);
            },
        }
    }
}

/// What stands in the node of choices.
proof fn lemma_chosen(blob: Seq<u8>, l: Layout, off: int, items: Seq<Item>, w: Walk)
    requires
        sound(blob, l),
        0 <= off,
        spell(blob, l, off, items) is Some,
        w.section == Section::Chosen,
        w.depth == 2,
        all_fit(items, 30),
    ensures
        fdt::walked(blob, l, off, w) == fdt::walked(
            blob,
            l,
            spell(blob, l, off, items)->Some_0,
            Walk { found: Found { entropy: seed_in(items, w.found.entropy), ..w.found }, ..w },
        ),
    decreases items.len(),
{
    if items.len() > 0 {
        let next = spells(blob, l, off, items[0])->Some_0;
        let rest = items.subrange(1, items.len() as int);
        lemma_forward(blob, l, off, items[0]);
        assert(fits(items[0], 30));
        match items[0] {
            Item::Node(name, sub) => {
                lemma_node_passed(blob, l, off, name, sub, w);
                lemma_chosen(blob, l, next, rest, w);
            },
            Item::Prop(name, value) => {
                lemma_leaf_token(blob, l, off, items[0], w);
                reveal(Walk::saw);
                lemma_chosen(blob, l, next, rest, w.saw(name, value)->Ok_0);
            },
            Item::Nop => {
                lemma_leaf_token(blob, l, off, items[0], w);
                lemma_chosen(blob, l, next, rest, w);
            },
        }
    }
}

/// What stands in a child of the node of reservations.
proof fn lemma_reserved_child(blob: Seq<u8>, l: Layout, off: int, items: Seq<Item>, w: Walk)
    requires
        sound(blob, l),
        0 <= off,
        spell(blob, l, off, items) is Some,
        w.section == Section::Reserved,
        w.depth == 3,
        all_fit(items, 29),
    ensures
        fdt::walked(blob, l, off, w) == (match reserved_child(
            items,
            w.rsv_addr_cells,
            w.rsv_size_cells,
            w.found.reserved,
        ) {
            Ok(reserved) => fdt::walked(
                blob,
                l,
                spell(blob, l, off, items)->Some_0,
                Walk { found: Found { reserved, ..w.found }, ..w },
            ),
            Err(e) => Err(e),
        }),
    decreases items.len(),
{
    if items.len() > 0 {
        let next = spells(blob, l, off, items[0])->Some_0;
        let rest = items.subrange(1, items.len() as int);
        lemma_forward(blob, l, off, items[0]);
        assert(fits(items[0], 29));
        match items[0] {
            Item::Node(name, sub) => {
                lemma_node_passed(blob, l, off, name, sub, w);
                lemma_reserved_child(blob, l, next, rest, w);
            },
            Item::Prop(name, value) => {
                lemma_leaf_token(blob, l, off, items[0], w);
                reveal(Walk::saw);
                if let Ok(more) = w.saw(name, value) {
                    lemma_reserved_child(blob, l, next, rest, more);
                }
            },
            Item::Nop => {
                lemma_leaf_token(blob, l, off, items[0], w);
                lemma_reserved_child(blob, l, next, rest, w);
            },
        }
    }
}

/// What stands in the node of reservations. Gives the walk behind it.
proof fn lemma_reserved(blob: Seq<u8>, l: Layout, off: int, items: Seq<Item>, w: Walk) -> (r: Walk)
    requires
        sound(blob, l),
        0 <= off,
        spell(blob, l, off, items) is Some,
        w.section == Section::Reserved,
        w.depth == 2,
        all_fit(items, 30),
    ensures
        match reserved_in(items, w.rsv_addr_cells, w.rsv_size_cells, w.found.reserved) {
            Ok(reserved) => {
                &&& fdt::walked(blob, l, off, w) == fdt::walked(
                    blob,
                    l,
                    spell(blob, l, off, items)->Some_0,
                    r,
                )
                &&& r == (Walk {
                    found: Found { reserved, ..w.found },
                    rsv_addr_cells: r.rsv_addr_cells,
                    rsv_size_cells: r.rsv_size_cells,
                    ..w
                })
            },
            Err(e) => fdt::walked(blob, l, off, w) == Err::<Found, BootError>(e),
        },
    decreases items.len(),
{
    if items.len() > 0 {
        let next = spells(blob, l, off, items[0])->Some_0;
        let rest = items.subrange(1, items.len() as int);
        lemma_forward(blob, l, off, items[0]);
        assert(fits(items[0], 30));
        match items[0] {
            Item::Node(name, sub) => {
                let inside = Walk { depth: 3, ..w };
                let first = whole(off + 4 + name.len() + 1);
                let end = spell(blob, l, first, sub)->Some_0;
                lemma_token(blob, l, off, items[0], w);
                assert(w.entered(name) == Ok::<Walk, BootError>(inside)) by {
                    reveal(Walk::entered);
                }
                lemma_all_forward(blob, l, first, sub);
                lemma_reserved_child(blob, l, first, sub, inside);
                if let Ok(reserved) = reserved_child(
                    sub,
                    w.rsv_addr_cells,
                    w.rsv_size_cells,
                    w.found.reserved,
                ) {
                    let more = Walk { found: Found { reserved, ..w.found }, ..w };
                    lemma_end_token(blob, l, end, Walk { depth: 3, ..more });
                    assert(Walk { depth: 3, ..more }.left() == more);
                    lemma_reserved(blob, l, next, rest, more)
                } else {
                    w
                }
            },
            Item::Prop(name, value) => {
                lemma_leaf_token(blob, l, off, items[0], w);
                reveal(Walk::saw);
                if let Ok(more) = w.saw(name, value) {
                    lemma_reserved(blob, l, next, rest, more)
                } else {
                    w
                }
            },
            Item::Nop => {
                lemma_leaf_token(blob, l, off, items[0], w);
                lemma_reserved(blob, l, next, rest, w)
            },
        }
    } else {
        w
    }
}

/// A node right below the root. Gives the walk behind it.
proof fn lemma_top_node(
    blob: Seq<u8>,
    l: Layout,
    off: int,
    name: Seq<u8>,
    sub: Seq<Item>,
    w: Walk,
) -> (r: Walk)
    requires
        sound(blob, l),
        0 <= off,
        spells(blob, l, off, Item::Node(name, sub)) is Some,
        w.section == Section::Other,
        w.depth == 1,
        all_fit(sub, 30),
    ensures
        match told_by(name, sub, w.addr_cells, w.size_cells, w.found) {
            Ok(found) => {
                &&& fdt::walked(blob, l, off, w) == fdt::walked(
                    blob,
                    l,
                    spells(blob, l, off, Item::Node(name, sub))->Some_0,
                    r,
                )
                &&& r == (Walk {
                    found,
                    rsv_addr_cells: r.rsv_addr_cells,
                    rsv_size_cells: r.rsv_size_cells,
                    ..w
                })
            },
            Err(e) => fdt::walked(blob, l, off, w) == Err::<Found, BootError>(e),
        },
{
    let item = Item::Node(name, sub);
    let first = whole(off + 4 + name.len() + 1);
    let end = spell(blob, l, first, sub)->Some_0;
    lemma_token(blob, l, off, item, w);
    lemma_all_forward(blob, l, first, sub);
    assert(fdt::memory_name().push(0x40) =~= fdt::memory_at());
    let inside = w.entered(name)->Ok_0;
    assert(w.entered(name) is Ok && inside.depth == 2 && inside.found == w.found
        && inside.addr_cells == w.addr_cells && inside.size_cells == w.size_cells) by {
        reveal(Walk::entered);
    }
    assert(inside.section == Section::Memory <==> is_memory(name)) by {
        reveal(Walk::entered);
    }
    if is_memory(name) {
        lemma_memory(blob, l, first, sub, inside);
        if let Ok(memory) = memory_in(sub, w.addr_cells, w.size_cells, w.found.memory) {
            let more = Walk { found: Found { memory, ..w.found }, ..inside };
            lemma_end_token(blob, l, end, more);
            more.left()
        } else {
            w
        }
    } else if name == fdt::chosen_name() {
        assert(inside.section == Section::Chosen) by {
            reveal(Walk::entered);
        }
        lemma_chosen(blob, l, first, sub, inside);
        let entropy = seed_in(sub, w.found.entropy);
        let more = Walk { found: Found { entropy, ..w.found }, ..inside };
        lemma_end_token(blob, l, end, more);
        more.left()
    } else if name == fdt::reserved_name() {
        assert(inside.section == Section::Reserved && inside.rsv_addr_cells == w.addr_cells
            && inside.rsv_size_cells == w.size_cells) by {
            reveal(Walk::entered);
        }
        let more = lemma_reserved(blob, l, first, sub, inside);
        if let Ok(reserved) = reserved_in(sub, w.addr_cells, w.size_cells, w.found.reserved) {
            lemma_end_token(blob, l, end, more);
            more.left()
        } else {
            w
        }
    } else {
        assert(inside.section == Section::Other) by {
            reveal(Walk::entered);
        }
        lemma_passed(blob, l, first, sub, inside);
        lemma_end_token(blob, l, end, inside);
        inside.left()
    }
}

/// What stands in the root. Gives the walk behind it.
proof fn lemma_root(blob: Seq<u8>, l: Layout, off: int, items: Seq<Item>, w: Walk) -> (r: Walk)
    requires
        sound(blob, l),
        0 <= off,
        spell(blob, l, off, items) is Some,
        w.section == Section::Other,
        w.depth == 1,
        all_fit(items, 31),
    ensures
        match told(items, w.addr_cells, w.size_cells, w.found) {
            Ok(found) => {
                &&& fdt::walked(blob, l, off, w) == fdt::walked(
                    blob,
                    l,
                    spell(blob, l, off, items)->Some_0,
                    r,
                )
                &&& r.found == found
                &&& r.depth == 1
                &&& r.section == Section::Other
            },
            Err(e) => fdt::walked(blob, l, off, w) == Err::<Found, BootError>(e),
        },
    decreases items.len(),
{
    if items.len() > 0 {
        let next = spells(blob, l, off, items[0])->Some_0;
        let rest = items.subrange(1, items.len() as int);
        lemma_forward(blob, l, off, items[0]);
        assert(fits(items[0], 31));
        match items[0] {
            Item::Node(name, sub) => {
                let more = lemma_top_node(blob, l, off, name, sub, w);
                if told_by(name, sub, w.addr_cells, w.size_cells, w.found) is Ok {
                    lemma_root(blob, l, next, rest, more)
                } else {
                    w
                }
            },
            Item::Prop(name, value) => {
                lemma_leaf_token(blob, l, off, items[0], w);
                reveal(Walk::saw);
                if let Ok(more) = w.saw(name, value) {
                    lemma_root(blob, l, next, rest, more)
                } else {
                    w
                }
            },
            Item::Nop => {
                lemma_leaf_token(blob, l, off, items[0], w);
                lemma_root(blob, l, next, rest, w)
            },
        }
    } else {
        w
    }
}

/// A blob tells what its tree means: where the structure block spells a root without a name
/// and then the end (9), and no node is deeper than 32, the memory is that of the memory
/// nodes right below the root, the seed that of `/chosen`, and the reservations are those
/// of the reservation block and then of every child of `/reserved-memory`, all in order and
/// by the cell sizes that hold there, 2 and 1 at first. Without memory it is refused.
pub proof fn lemma_tree_tells(blob: Seq<u8>, l: Layout, reserved: Seq<MemRegion>, items: Seq<Item>)
    requires
        fdt::layout(blob) == Ok::<Layout, BootError>(l),
        fdt::reservations(blob, l.reservations, Seq::empty()) == Ok::<Seq<MemRegion>, BootError>(
            reserved,
        ),
        all_fit(items, 31),
        ({
            let end = spells(blob, l, l.struct_start, Item::Node(Seq::empty(), items));
            &&& end is Some
            &&& end->Some_0 + 4 <= l.struct_end
            &&& bytes::be32_at(blob, end->Some_0) == 9
        }),
    ensures
        ({
            let known = Found { memory: Seq::empty(), reserved, entropy: Seq::empty() };
            match told(items, 2, 1, known) {
                Ok(found) => if found.memory.len() == 0 {
                    fdt::parsed(blob) == Err::<Found, BootError>(BootError::NoMemory)
                } else {
                    fdt::parsed(blob) == Ok::<Found, BootError>(found)
                },
                Err(e) => fdt::parsed(blob) == Err::<Found, BootError>(e),
            }
        }),
{
    bytes::lemma_be32_range(blob, 8);
    bytes::lemma_be32_range(blob, 12);
    bytes::lemma_be32_range(blob, 32);
    bytes::lemma_be32_range(blob, 36);
    let start = Walk::start(reserved);
    let off = l.struct_start;
    let name = Seq::<u8>::empty();
    let item = Item::Node(name, items);
    let first = whole(off + 4 + 0 + 1);
    let end = spell(blob, l, first, items)->Some_0;
    let inside = Walk { depth: 1, ..start };
    lemma_name(blob, off + 4, l.struct_end, name);
    lemma_all_forward(blob, l, first, items);
    assert(start.entered(name) == Ok::<Walk, BootError>(inside)) by {
        reveal(Walk::entered);
    }
    assert(fdt::step(blob, l, off, start) == Step::More(first, inside)) by {
        reveal(fdt::step);
        assert(whole(off + 5) == fdt::up4(off + 5));
        assert(blob.subrange(off + 4, off + 4) =~= name);
    }
    let r = lemma_root(blob, l, first, items, inside);
    if told(items, 2, 1, start.found) is Ok {
        lemma_end_token(blob, l, end, r);
        reveal(fdt::step);
        assert(fdt::walked(blob, l, end + 4, r.left()) == Ok::<Found, BootError>(r.found));
    }
}

/// What is no tree is refused: a walk that runs out of the structure block, a token that
/// nobody knows, a node that is deeper than 32 or whose name has no end, a root with a name,
/// an end without a node, a property outside of all nodes, one whose value does not fit or
/// whose name has no end among the strings, and an end of the tree inside a node.
pub proof fn lemma_what_is_refused(blob: Seq<u8>, l: Layout, off: int, w: Walk)
    requires
        0 <= off,
        0 <= w.depth <= 32,
        0 <= l.struct_start <= l.struct_end <= blob.len(),
        0 <= l.strings_start <= l.strings_end <= blob.len(),
        off % 4 == 0,
        l.struct_end % 4 == 0,
    ensures
        ({
            let r = fdt::walked(blob, l, off, w);
            let token = bytes::be32_at(blob, off);
            let len = bytes::be32_at(blob, off + 4);
            let at = l.strings_start + bytes::be32_at(blob, off + 8);
            let ended = |from: int, to: int|
                exists|i: int| from <= i < to && #[trigger] blob[i] == 0;
            let bad = Err::<Found, BootError>(BootError::BadStructure);
            &&& off >= l.struct_end ==> r == bad
            &&& off < l.struct_end ==> {
                &&& !(token == 1 || token == 2 || token == 3 || token == 4 || token == 9) ==> r
                    == bad
                &&& token == 1 && w.depth == 32 ==> r == Err::<Found, BootError>(
                    BootError::TooDeep,
                )
                &&& token == 1 && w.depth < 32 && !ended(off + 4, l.struct_end) ==> r == bad
                &&& token == 1 && w.depth == 0 && off + 4 < l.struct_end && blob[off + 4] != 0
                    ==> r == bad
                &&& token == 2 && w.depth == 0 ==> r == bad
                &&& token == 3 && w.depth == 0 ==> r == bad
                &&& token == 3 && w.depth > 0 && off + 12 <= l.struct_end && off + 12 + len
                    > l.struct_end ==> r == Err::<Found, BootError>(BootError::Truncated)
                &&& token == 3 && w.depth > 0 && off + 12 + len <= l.struct_end && !ended(
                    at,
                    l.strings_end,
                ) ==> r == Err::<Found, BootError>(BootError::BadString)
                &&& token == 9 && w.depth > 0 ==> r == bad
                &&& token == 9 && w.depth == 0 ==> r == Ok::<Found, BootError>(w.found)
            }
        }),
{
    reveal(fdt::step);
    reveal(Walk::entered);
    let at = l.strings_start + bytes::be32_at(blob, off + 8);
    bytes::lemma_be32_range(blob, off + 4);
    bytes::lemma_be32_range(blob, off + 8);
    fdt::lemma_zero_from(blob, off + 4, l.struct_end);
    fdt::lemma_zero_from(blob, at, l.strings_end);
}

/// Every child of the node of reservations counts: its regions are added behind those of
/// the children before it, whatever else it holds.
pub proof fn lemma_every_child_counts(
    first: Seq<Item>,
    name: Seq<u8>,
    child: Seq<Item>,
    a: int,
    s: int,
    known: Seq<MemRegion>,
)
    requires
        forall|i: int| 0 <= i < first.len() ==> (#[trigger] first[i]) is Node,
    ensures
        reserved_in(first.push(Item::Node(name, child)), a, s, known) == (match reserved_in(
            first,
            a,
            s,
            known,
        ) {
            Ok(before) => reserved_child(child, a, s, before),
            Err(e) => Err(e),
        }),
    decreases first.len(),
{
    let all = first.push(Item::Node(name, child));
    let rest = first.subrange(1, first.len() as int);
    if first.len() == 0 {
        assert(all.subrange(1, 1) =~= Seq::<Item>::empty());
        reveal_with_fuel(reserved_in, 2);
    } else {
        assert(all.subrange(1, all.len() as int) =~= rest.push(Item::Node(name, child)));
        assert(all[0] == first[0]);
        if let Item::Node(_, sub) = first[0] {
            if let Ok(more) = reserved_child(sub, a, s, known) {
                lemma_every_child_counts(rest, name, child, a, s, more);
            }
        }
    }
}

} // verus!
