//! What the header, the reservations and the values of a device tree mean, byte by byte.
use vstd::prelude::*;

use crate::boot::fdt::{self, BootError, Found, Layout, MemRegion};
use crate::bytes;

verus! {

/// The number that bytes spell, the most significant first.
pub open spec fn number(b: Seq<u8>) -> int
    decreases b.len(),
{
    if b.len() == 0 {
        0
    } else {
        number(b.drop_last()) * 0x100 + b.last()
    }
}

/// The number in `n` bytes at an offset.
pub open spec fn number_at(b: Seq<u8>, off: int, n: int) -> int {
    number(b.subrange(off, off + n))
}

/// Numbers of one and two words are read as they are spelled.
pub proof fn lemma_numbers(b: Seq<u8>, off: int)
    requires
        0 <= off,
    ensures
        off + 4 <= b.len() ==> bytes::be32_at(b, off) == number_at(b, off, 4),
        off + 8 <= b.len() ==> bytes::be64_at(b, off) == number_at(b, off, 8),
{
    if off + 4 <= b.len() {
        lemma_four(b, off);
    }
    if off + 8 <= b.len() {
        lemma_four(b, off + 4);
        lemma_joined(b.subrange(off, off + 4), b.subrange(off + 4, off + 8));
        assert(b.subrange(off, off + 4) + b.subrange(off + 4, off + 8) =~= b.subrange(
            off,
            off + 8,
        ));
    }
}

proof fn lemma_four(b: Seq<u8>, off: int)
    requires
        0 <= off,
        off + 4 <= b.len(),
    ensures
        bytes::be32_at(b, off) == number_at(b, off, 4),
{
    reveal(bytes::be32_at);
    reveal_with_fuel(number, 5);
    let s = b.subrange(off, off + 4);
    assert(s.drop_last() =~= b.subrange(off, off + 3));
    assert(s.drop_last().drop_last() =~= b.subrange(off, off + 2));
    assert(s.drop_last().drop_last().drop_last() =~= b.subrange(off, off + 1));
    assert(s.drop_last().drop_last().drop_last().drop_last() =~= Seq::<u8>::empty());
}

/// Four more bytes are four more digits to the base of 256.
proof fn lemma_joined(a: Seq<u8>, b: Seq<u8>)
    requires
        b.len() == 4,
    ensures
        number(a + b) == number(a) * 0x1_0000_0000 + number(b),
{
    reveal_with_fuel(number, 5);
    let s = a + b;
    assert(s.drop_last() =~= a + b.take(3));
    assert(s.drop_last().drop_last() =~= a + b.take(2));
    assert(s.drop_last().drop_last().drop_last() =~= a + b.take(1));
    assert(s.drop_last().drop_last().drop_last().drop_last() =~= a);
    assert(b.drop_last() =~= b.take(3));
    assert(b.drop_last().drop_last() =~= b.take(2));
    assert(b.drop_last().drop_last().drop_last() =~= b.take(1));
    assert(b.drop_last().drop_last().drop_last().drop_last() =~= Seq::<u8>::empty());
}

/// The `i`th region of a value whose regions take `a` and `s` words: its base and its size.
pub open spec fn region_at(value: Seq<u8>, a: int, s: int, i: int) -> (int, int) {
    let off = i * ((a + s) * 4);
    (number_at(value, off, a * 4), number_at(value, off + a * 4, s * 4))
}

/// The first `n` regions of a value that are not empty, in order.
pub open spec fn regions(value: Seq<u8>, a: int, s: int, n: nat) -> Seq<MemRegion>
    decreases n,
{
    if n == 0 {
        Seq::empty()
    } else {
        let before = regions(value, a, s, (n - 1) as nat);
        let (base, size) = region_at(value, a, s, n - 1);
        if size == 0 {
            before
        } else {
            before.push(MemRegion { base: base as u64, size: size as u64 })
        }
    }
}

/// Whether each of the first `n` regions is empty or ends within 64 bits.
pub open spec fn in_range(value: Seq<u8>, a: int, s: int, n: int) -> bool {
    forall|i: int|
        0 <= i < n ==> {
            let (base, size) = #[trigger] region_at(value, a, s, i);
            size == 0 || base + size <= 0xFFFF_FFFF_FFFF_FFFF
        }
}

/// What a region reads as.
proof fn lemma_region(value: Seq<u8>, a: int, s: int, i: int, n: int)
    requires
        1 <= a <= 2,
        1 <= s <= 2,
        0 <= i < n,
        value.len() == n * ((a + s) * 4),
    ensures
        ({
            let off = i * ((a + s) * 4);
            region_at(value, a, s, i) == (
                fdt::cells(value, off, a),
                fdt::cells(value, off + a * 4, s),
            )
        }),
{
    let entry = (a + s) * 4;
    let off = i * entry;
    assert(0 <= off && off + entry <= n * entry) by (nonlinear_arith)
        requires
            0 <= i < n,
            off == i * entry,
            entry > 0,
    ;
    lemma_numbers(value, off);
    lemma_numbers(value, off + a * 4);
}

proof fn lemma_regs(list: Seq<MemRegion>, limit: int, value: Seq<u8>, a: int, s: int, k: nat, n: int)
    requires
        list.len() <= limit,
        1 <= a <= 2,
        1 <= s <= 2,
        k <= n,
        value.len() == n * ((a + s) * 4),
    ensures
        ({
            let r = fdt::with_regs(list, limit, value, a, s, k);
            let more = regions(value, a, s, k);
            &&& r is Ok <==> in_range(value, a, s, k as int) && list.len() + more.len() <= limit
            &&& r is Ok ==> r->Ok_0 == list + more
            &&& r is Err && in_range(value, a, s, k as int) ==> r->Err_0
                == BootError::TooManyRegions
            &&& r is Err && list.len() + more.len() <= limit ==> r->Err_0 == BootError::BadReg
            &&& r is Err ==> r->Err_0 == BootError::TooManyRegions || r->Err_0 == BootError::BadReg
        }),
    decreases k,
{
    if k == 0 {
        assert(list + regions(value, a, s, 0) =~= list);
    } else {
        let j = (k - 1) as nat;
        lemma_regs(list, limit, value, a, s, j, n);
        lemma_region(value, a, s, j as int, n);
        let before = regions(value, a, s, j);
        let (base, size) = region_at(value, a, s, j as int);
        assert(in_range(value, a, s, k as int) <==> in_range(value, a, s, j as int) && (size == 0
            || base + size <= 0xFFFF_FFFF_FFFF_FFFF)) by {
            if in_range(value, a, s, k as int) {
                assert forall|i: int| 0 <= i < j implies {
                    let (base, size) = #[trigger] region_at(value, a, s, i);
                    size == 0 || base + size <= 0xFFFF_FFFF_FFFF_FFFF
                } by {}
            }
        }
        if fdt::with_regs(list, limit, value, a, s, j) is Ok && size != 0 {
            let next = MemRegion { base: base as u64, size: size as u64 };
            assert((list + before).push(next) =~= list + before.push(next));
        }
    }
}

/// The regions in a value: base and size take one or two words each, the value is made of
/// whole regions and holds at least one. The regions that are not empty are added in
/// order, where each ends within 64 bits and there is room for all; otherwise the value is
/// refused, for the reason that holds.
pub proof fn lemma_reg_value(list: Seq<MemRegion>, limit: int, value: Seq<u8>, a: int, s: int)
    requires
        list.len() <= limit,
    ensures
        ({
            let r = fdt::with_reg(list, limit, value, a, s);
            let known = 1 <= a <= 2 && 1 <= s <= 2;
            let entry = (a + s) * 4;
            let n = value.len() as int / entry;
            let more = regions(value, a, s, n as nat);
            let room = list.len() + more.len() <= limit;
            &&& !known ==> r == Err::<Seq<MemRegion>, BootError>(BootError::UnsupportedCells)
            &&& known && (value.len() == 0 || value.len() as int % entry != 0) ==> r == Err::<
                Seq<MemRegion>,
                BootError,
            >(BootError::BadReg)
            &&& known && value.len() > 0 && value.len() as int % entry == 0 ==> {
                &&& in_range(value, a, s, n) && room ==> r == Ok::<Seq<MemRegion>, BootError>(
                    list + more,
                )
                &&& in_range(value, a, s, n) && !room ==> r == Err::<Seq<MemRegion>, BootError>(
                    BootError::TooManyRegions,
                )
                &&& !in_range(value, a, s, n) ==> r is Err
                &&& !in_range(value, a, s, n) && room ==> r == Err::<Seq<MemRegion>, BootError>(
                    BootError::BadReg,
                )
            }
        }),
{
    let entry = (a + s) * 4;
    if 1 <= a <= 2 && 1 <= s <= 2 && value.len() > 0 && value.len() as int % entry == 0 {
        let n = value.len() as int / entry;
        vstd::arithmetic::div_mod::lemma_fundamental_div_mod(value.len() as int, entry);
        assert(n * entry == entry * n) by (nonlinear_arith);
        assert(0 <= n) by (nonlinear_arith)
            requires
                entry * n > 0,
                entry > 0,
        ;
        lemma_regs(list, limit, value, a, s, n as nat, n);
    }
}

/// Seeds are collected in order, and no more than 72 bytes are kept: the first.
pub proof fn lemma_seed(known: Seq<u8>, value: Seq<u8>)
    requires
        known.len() <= 72,
    ensures
        ({
            let all = known + value;
            let kept = fdt::with_seed(known, value);
            &&& all.len() <= 72 ==> kept == all
            &&& all.len() > 72 ==> kept == all.take(72)
        }),
{
    let all = known + value;
    if all.len() > 72 {
        assert(known + value.take(72 - known.len()) =~= all.take(72));
    }
}

/// The regions of the first `n` pairs of a reservation block that are not empty, in order.
pub open spec fn pairs(blob: Seq<u8>, off: int, n: nat) -> Seq<MemRegion>
    decreases n,
{
    if n == 0 {
        Seq::empty()
    } else {
        let before = pairs(blob, off, (n - 1) as nat);
        let base = number_at(blob, off + 16 * (n - 1), 8);
        let size = number_at(blob, off + 16 * (n - 1) + 8, 8);
        if size == 0 {
            before
        } else {
            before.push(MemRegion { base: base as u64, size: size as u64 })
        }
    }
}

/// Whether the pair at an offset is one of zeros.
pub open spec fn last_pair(blob: Seq<u8>, at: int) -> bool {
    number_at(blob, at, 8) == 0 && number_at(blob, at + 8, 8) == 0
}

/// The reservation block is a list of pairs of base and size, 8 bytes each, up to a pair of
/// zeros: where `n` pairs come before that one and the regions that are not empty end
/// within 64 bits and are 8 at most, they are what is told, in order.
pub proof fn lemma_reservation_block(blob: Seq<u8>, off: int, n: nat)
    requires
        0 <= off,
        off + 16 * n + 16 <= blob.len(),
        last_pair(blob, off + 16 * n),
        forall|i: int| 0 <= i < n ==> !(#[trigger] last_pair(blob, off + 16 * i)),
        forall|i: int|
            0 <= i < n ==> number_at(blob, off + 16 * i, 8) + #[trigger] number_at(
                blob,
                off + 16 * i + 8,
                8,
            ) <= 0xFFFF_FFFF_FFFF_FFFF,
        pairs(blob, off, n).len() <= 8,
    ensures
        fdt::reservations(blob, off, Seq::empty()) == Ok::<Seq<MemRegion>, BootError>(
            pairs(blob, off, n),
        ),
{
    lemma_block_from(blob, off, 0, n);
}

proof fn lemma_block_from(blob: Seq<u8>, off: int, k: nat, n: nat)
    requires
        k <= n,
        0 <= off,
        off + 16 * n + 16 <= blob.len(),
        last_pair(blob, off + 16 * n),
        forall|i: int| 0 <= i < n ==> !(#[trigger] last_pair(blob, off + 16 * i)),
        forall|i: int|
            0 <= i < n ==> number_at(blob, off + 16 * i, 8) + #[trigger] number_at(
                blob,
                off + 16 * i + 8,
                8,
            ) <= 0xFFFF_FFFF_FFFF_FFFF,
        pairs(blob, off, n).len() <= 8,
    ensures
        fdt::reservations(blob, off + 16 * k, pairs(blob, off, k)) == Ok::<
            Seq<MemRegion>,
            BootError,
        >(pairs(blob, off, n)),
    decreases n - k,
{
    let at = off + 16 * k;
    lemma_numbers(blob, at);
    lemma_numbers(blob, at + 8);
    if k < n {
        assert(!last_pair(blob, off + 16 * (k as int)));
        assert(number_at(blob, off + 16 * (k as int), 8) + number_at(
            blob,
            off + 16 * (k as int) + 8,
            8,
        ) <= 0xFFFF_FFFF_FFFF_FFFF);
        lemma_block_from(blob, off, k + 1, n);
        lemma_pairs_grow(blob, off, k + 1, n);
        assert(off + 16 * (k + 1) == at + 16);
    }
}

proof fn lemma_pairs_grow(blob: Seq<u8>, off: int, k: nat, n: nat)
    requires
        k <= n,
    ensures
        pairs(blob, off, k).len() <= pairs(blob, off, n).len(),
    decreases n - k,
{
    if k < n {
        lemma_pairs_grow(blob, off, k, (n - 1) as nat);
    }
}

/// The header: 40 bytes of numbers. The blob is accepted exactly where its version is 17 at
/// least and it can be read by one who knows 17, the structure block consists of whole
/// numbers at a multiple of 4, it and the strings end within the blob, and the
/// reservations stand at a multiple of 8.
pub proof fn lemma_header(blob: Seq<u8>)
    ensures
        ({
            let f = |k: int| number_at(blob, k, 4);
            let r = fdt::layout(blob);
            let n = blob.len();
            let known = f(20) >= 17 && f(24) <= 17;
            &&& n < 40 ==> r == Err::<Layout, BootError>(BootError::Truncated)
            &&& n >= 40 && !known ==> r == Err::<Layout, BootError>(BootError::UnsupportedVersion)
            &&& n >= 40 && known ==> {
                let good = f(8) % 4 == 0 && f(36) % 4 == 0 && f(8) + f(36) <= n && f(12) + f(32)
                    <= n && f(16) % 8 == 0;
                &&& !good ==> r == Err::<Layout, BootError>(BootError::BadHeader)
                &&& good ==> {
                    &&& r is Ok
                    &&& r->Ok_0.struct_start == f(8)
                    &&& r->Ok_0.struct_end == f(8) + f(36)
                    &&& r->Ok_0.strings_start == f(12)
                    &&& r->Ok_0.strings_end == f(12) + f(32)
                    &&& r->Ok_0.reservations == f(16)
                }
            }
        }),
{
    if blob.len() >= 40 {
        lemma_numbers(blob, 8);
        lemma_numbers(blob, 12);
        lemma_numbers(blob, 16);
        lemma_numbers(blob, 20);
        lemma_numbers(blob, 24);
        lemma_numbers(blob, 32);
        lemma_numbers(blob, 36);
    }
}

/// A blob can lie at an address that is not 0 and a multiple of 8, starts with the magic
/// number and is as long as it says: 40 bytes at least and 2 MiB at most, within the
/// address range.
pub proof fn lemma_span(addr: int, head: Seq<u8>)
    requires
        head.len() >= 8,
        0 <= addr,
    ensures
        ({
            let r = fdt::span_size(addr, head);
            let size = number_at(head, 4, 4);
            let magic = number_at(head, 0, 4) == 0xD00D_FEED;
            let fits = 40 <= size <= 0x20_0000 && addr + size <= usize::MAX;
            &&& addr == 0 ==> r == Err::<int, BootError>(BootError::NullPointer)
            &&& addr != 0 && addr % 8 != 0 ==> r == Err::<int, BootError>(BootError::Misaligned)
            &&& addr != 0 && addr % 8 == 0 && !magic ==> r == Err::<int, BootError>(
                BootError::BadMagic,
            )
            &&& addr != 0 && addr % 8 == 0 && magic && !fits ==> r == Err::<int, BootError>(
                BootError::BadHeader,
            )
            &&& addr != 0 && addr % 8 == 0 && magic && fits ==> r == Ok::<int, BootError>(size)
        }),
{
    lemma_numbers(head, 0);
    lemma_numbers(head, 4);
}

/// A blob that shares a byte with the kernel image is refused; one that shares none is read
/// as far as it says it goes, and is told to lie where it was said to be.
pub proof fn lemma_kernel_is_apart(
    dtb_phys: int,
    kernel_start: int,
    kernel_end: int,
    read_offset: int,
    readable: Seq<u8>,
)
    requires
        0 <= dtb_phys,
        0 <= read_offset,
        dtb_phys + read_offset <= usize::MAX,
        fdt::span_size(dtb_phys + read_offset, readable) is Ok,
        kernel_start < kernel_end,
        fdt::span_size(dtb_phys + read_offset, readable)->Ok_0 > 0,
    ensures
        ({
            let r = fdt::parse_result(dtb_phys, kernel_start, kernel_end, read_offset, readable);
            let size = fdt::span_size(dtb_phys + read_offset, readable)->Ok_0;
            let shared = exists|p: int|
                #![trigger shared_byte(dtb_phys, size, kernel_start, kernel_end, p)]
                shared_byte(dtb_phys, size, kernel_start, kernel_end, p);
            &&& shared ==> r == Err::<(int, Found), BootError>(BootError::OverlapsKernel)
            &&& !shared && fdt::parsed(readable.take(size)) is Ok ==> r == Ok::<
                (int, Found),
                BootError,
            >((dtb_phys + size, fdt::parsed(readable.take(size))->Ok_0))
            &&& !shared && fdt::parsed(readable.take(size)) is Err ==> r == Err::<
                (int, Found),
                BootError,
            >(fdt::parsed(readable.take(size))->Err_0)
        }),
{
    let size = fdt::span_size(dtb_phys + read_offset, readable)->Ok_0;
    if dtb_phys < kernel_end && kernel_start < dtb_phys + size {
        let p = if dtb_phys < kernel_start {
            kernel_start
        } else {
            dtb_phys
        };
        assert(shared_byte(dtb_phys, size, kernel_start, kernel_end, p));
    }
}

/// Whether a byte belongs to the blob and to the kernel image.
pub open spec fn shared_byte(
    dtb_phys: int,
    size: int,
    kernel_start: int,
    kernel_end: int,
    p: int,
) -> bool {
    dtb_phys <= p < dtb_phys + size && kernel_start <= p < kernel_end
}

/// Whether bytes are the characters of a text.
pub open spec fn spelled_as(name: Seq<u8>, text: &str) -> bool {
    &&& name.len() == text@.len()
    &&& forall|i: int| 0 <= i < name.len() ==> #[trigger] name[i] as int == text@[i] as int
}

/// The names of the nodes and properties that matter.
pub proof fn lemma_names()
    ensures
        spelled_as(fdt::memory_name(), "memory"),
        spelled_as(fdt::memory_at(), "memory@"),
        spelled_as(fdt::chosen_name(), "chosen"),
        spelled_as(fdt::reserved_name(), "reserved-memory"),
        spelled_as(fdt::address_cells_name(), "#address-cells"),
        spelled_as(fdt::size_cells_name(), "#size-cells"),
        spelled_as(fdt::reg_name(), "reg"),
        spelled_as(fdt::rng_seed_name(), "rng-seed"),
        spelled_as(fdt::kaslr_seed_name(), "kaslr-seed"),
{
    reveal_strlit("memory");
    reveal_strlit("memory@");
    reveal_strlit("chosen");
    reveal_strlit("reserved-memory");
    reveal_strlit("#address-cells");
    reveal_strlit("#size-cells");
    reveal_strlit("reg");
    reveal_strlit("rng-seed");
    reveal_strlit("kaslr-seed");
}

} // verus!
