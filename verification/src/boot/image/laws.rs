//! Laws of executable files and the flat images made of them.
use vstd::prelude::*;

use crate::align;
use crate::boot::image::{self, ElfSeg, ImageError};
use crate::boot::roottask::RtSegKind;
use crate::bytes::{self, little};

verus! {

/// Whether a file has the header of an executable of fixed placement for this processor,
/// with all of its program headers.
pub open spec fn is_executable(elf: Seq<u8>) -> bool {
    &&& elf.len() >= 64
    &&& elf.take(4) == seq![0x7Fu8, 0x45, 0x4C, 0x46]
    &&& elf[4] == 2
    &&& elf[5] == 1
    &&& little(elf, 16, 2) == 2
    &&& little(elf, 18, 2) == 183
    &&& little(elf, 54, 2) == 56
    &&& little(elf, 32, 8) + 56 * little(elf, 56, 2) <= elf.len()
}

/// A header is accepted exactly where it is that of an executable. Otherwise the first
/// thing that is wrong with it is told.
pub proof fn lemma_header(elf: Seq<u8>)
    ensures
        ({
            let e = image::header_error(elf);
            let magic = elf.take(4) == seq![0x7Fu8, 0x45, 0x4C, 0x46];
            &&& e is None <==> is_executable(elf)
            &&& e == Some(ImageError::HeaderTruncated) <==> elf.len() < 64
            &&& elf.len() >= 64 ==> {
                &&& e == Some(ImageError::BadMagic) <==> !magic
                &&& magic ==> (e == Some(ImageError::BadClass) <==> elf[4] != 2)
                &&& magic && elf[4] == 2 ==> (e == Some(ImageError::BadData) <==> elf[5] != 1)
                &&& magic && elf[4] == 2 && elf[5] == 1 ==> {
                    let machine = little(elf, 18, 2) == 183;
                    let fixed = little(elf, 16, 2) == 2;
                    let size = little(elf, 54, 2) == 56;
                    let table = little(elf, 32, 8) + 56 * little(elf, 56, 2) <= elf.len();
                    &&& e == Some(ImageError::BadMachine) <==> !machine
                    &&& e == Some(ImageError::BadType) <==> machine && !fixed
                    &&& e == Some(ImageError::BadPhentsize) <==> machine && fixed && !size
                    &&& e == Some(ImageError::TableTruncated) <==> machine && fixed && size
                        && !table
                }
            }
        }),
{
    bytes::lemma_little(elf, 16);
    bytes::lemma_little(elf, 18);
    bytes::lemma_little(elf, 32);
    bytes::lemma_little(elf, 54);
    bytes::lemma_little(elf, 56);
    if elf.len() >= 64 {
        let t = elf.take(4);
        assert(t[0] == elf[0] && t[1] == elf[1] && t[2] == elf[2] && t[3] == elf[3]);
        if elf[0] == 0x7F && elf[1] == 0x45 && elf[2] == 0x4C && elf[3] == 0x46 {
            assert(t =~= seq![0x7Fu8, 0x45, 0x4C, 0x46]);
        }
    }
}

/// Where program header `k` is.
pub open spec fn header_at(elf: Seq<u8>, k: int) -> int {
    little(elf, 32, 8) + 56 * k
}

/// Whether program header `k` tells to load something.
pub open spec fn to_load(elf: Seq<u8>, k: int) -> bool {
    little(elf, header_at(elf, k), 4) == 1
}

/// Whether what program header `k` describes cannot be: more bytes in the file than in
/// memory, bytes behind the end of the file, or addresses of more than 64 bits.
pub open spec fn impossible(elf: Seq<u8>, k: int) -> bool {
    let p = header_at(elf, k);
    ||| little(elf, p + 32, 8) > little(elf, p + 40, 8)
    ||| little(elf, p + 8, 8) + little(elf, p + 32, 8) > elf.len()
    ||| little(elf, p + 16, 8) + little(elf, p + 40, 8) >= 0x1_0000_0000_0000_0000
}

/// Whether a segment is what program header `k` tells to load.
pub open spec fn described(elf: Seq<u8>, k: int, s: ElfSeg) -> bool {
    let p = header_at(elf, k);
    &&& to_load(elf, k)
    &&& s.memsz > 0
    &&& s.flags == little(elf, p + 4, 4)
    &&& s.offset == little(elf, p + 8, 8)
    &&& s.vaddr == little(elf, p + 16, 8)
    &&& s.filesz == little(elf, p + 32, 8)
    &&& s.memsz == little(elf, p + 40, 8)
}

/// Whether one of the first `n` program headers describes a segment.
pub open spec fn comes_from(elf: Seq<u8>, n: int, s: ElfSeg) -> bool {
    exists|k: int| 0 <= k < n && #[trigger] described(elf, k, s)
}

/// How many of the first `n` program headers tell to load something that is not empty.
pub open spec fn load_count(elf: Seq<u8>, n: int) -> nat
    decreases n,
{
    if n <= 0 {
        0
    } else {
        load_count(elf, n - 1) + if to_load(elf, n - 1) && little(
            elf,
            header_at(elf, n - 1) + 40,
            8,
        ) > 0 {
            1nat
        } else {
            0nat
        }
    }
}

proof fn lemma_fields(elf: Seq<u8>, k: int)
    ensures
        ({
            let p = bytes::le64_at(elf, 32) + 56 * k;
            let s = image::seg_at(elf, p);
            &&& p == header_at(elf, k)
            &&& bytes::le32_at(elf, p) == little(elf, p, 4)
            &&& s.flags == little(elf, p + 4, 4)
            &&& s.offset == little(elf, p + 8, 8)
            &&& s.vaddr == little(elf, p + 16, 8)
            &&& s.filesz == little(elf, p + 32, 8)
            &&& s.memsz == little(elf, p + 40, 8)
            &&& image::seg_error(elf, s) is Some <==> impossible(elf, k)
        }),
{
    let p = bytes::le64_at(elf, 32) + 56 * k;
    bytes::lemma_little(elf, 32);
    bytes::lemma_little(elf, p);
    bytes::lemma_little(elf, p + 4);
    bytes::lemma_little(elf, p + 8);
    bytes::lemma_little(elf, p + 16);
    bytes::lemma_little(elf, p + 32);
    bytes::lemma_little(elf, p + 40);
}

proof fn lemma_scan(elf: Seq<u8>, n: int)
    requires
        0 <= n,
    ensures
        ({
            let r = image::scanned(elf, n);
            &&& r is Err <==> exists|k: int|
                0 <= k < n && #[trigger] to_load(elf, k) && impossible(elf, k)
            &&& r is Ok ==> {
                let segs = r->Ok_0;
                &&& segs.len() == load_count(elf, n)
                &&& forall|i: int|
                    0 <= i < segs.len() ==> comes_from(elf, n, #[trigger] segs[i])
                &&& forall|k: int, s: ElfSeg|
                    0 <= k < n && #[trigger] described(elf, k, s) ==> segs.contains(s)
            }
        }),
    decreases n,
{
    if n > 0 {
        lemma_scan(elf, n - 1);
        lemma_fields(elf, n - 1);
        let before = image::scanned(elf, n - 1);
        let r = image::scanned(elf, n);
        let p = bytes::le64_at(elf, 32) + 56 * (n - 1);
        let x = image::seg_at(elf, p);
        if before is Ok && r is Err {
            assert(to_load(elf, n - 1) && impossible(elf, n - 1));
        }
        if exists|k: int| 0 <= k < n && #[trigger] to_load(elf, k) && impossible(elf, k) {
            let k = choose|k: int| 0 <= k < n && #[trigger] to_load(elf, k) && impossible(elf, k);
            assert(k < n - 1 || k == n - 1);
        }
        if r is Ok {
            let old_segs = before->Ok_0;
            let segs = r->Ok_0;
            assert forall|i: int| 0 <= i < segs.len() implies comes_from(elf, n, #[trigger] segs[i]) by {
                if i < old_segs.len() {
                    assert(segs[i] == old_segs[i]);
                    assert(comes_from(elf, n - 1, old_segs[i]));
                    let k = choose|k: int|
                        0 <= k < n - 1 && #[trigger] described(elf, k, old_segs[i]);
                    assert(described(elf, k, segs[i]));
                } else {
                    assert(segs[i] == x);
                    assert(described(elf, n - 1, segs[i]));
                }
            }
            assert forall|k: int, s: ElfSeg|
                0 <= k < n && #[trigger] described(elf, k, s) implies segs.contains(s) by {
                if k < n - 1 {
                    assert(old_segs.contains(s));
                    let i = choose|i: int| 0 <= i < old_segs.len() && old_segs[i] == s;
                    assert(segs[i] == s);
                } else {
                    assert(s == x);
                    assert(segs[segs.len() - 1] == s);
                }
            }
        }
    }
}

/// Whether segments lie by address.
pub open spec fn in_order(segs: Seq<ElfSeg>) -> bool {
    forall|i: int, j: int|
        0 <= i < j < segs.len() ==> (#[trigger] segs[i]).vaddr <= (#[trigger] segs[j]).vaddr
}

proof fn lemma_insert(s: Seq<ElfSeg>, x: ElfSeg)
    requires
        in_order(s),
    ensures
        ({
            let r = image::insert_sorted(s, x);
            &&& in_order(r)
            &&& r.len() == s.len() + 1
            &&& r.contains(x)
            &&& forall|y: ElfSeg| #[trigger] s.contains(y) ==> r.contains(y)
            &&& forall|y: ElfSeg| #[trigger] r.contains(y) ==> s.contains(y) || y == x
        }),
    decreases s.len(),
{
    let r = image::insert_sorted(s, x);
    if s.len() == 0 || s.last().vaddr <= x.vaddr {
        assert(r[s.len() as int] == x);
        assert forall|y: ElfSeg| #[trigger] s.contains(y) implies r.contains(y) by {
            let i = choose|i: int| 0 <= i < s.len() && s[i] == y;
            assert(r[i] == y);
        }
        assert forall|y: ElfSeg| #[trigger] r.contains(y) implies s.contains(y) || y == x by {
            let i = choose|i: int| 0 <= i < r.len() && r[i] == y;
            if i < s.len() {
                assert(s[i] == y);
            }
        }
        assert forall|i: int, j: int| 0 <= i < j < r.len() implies (#[trigger] r[i]).vaddr <= (
        #[trigger] r[j]).vaddr by {
            if j == s.len() && i < s.len() - 1 {
                assert(s[i].vaddr <= s[s.len() - 1].vaddr);
            }
        }
    } else {
        let rest = s.drop_last();
        lemma_insert(rest, x);
        let ri = image::insert_sorted(rest, x);
        assert(r == ri.push(s.last()));
        assert(r[r.len() - 1] == s.last());
        let at = choose|i: int| 0 <= i < ri.len() && ri[i] == x;
        assert(r[at] == x);
        assert forall|y: ElfSeg| #[trigger] s.contains(y) implies r.contains(y) by {
            let i = choose|i: int| 0 <= i < s.len() && s[i] == y;
            if i < rest.len() {
                assert(rest[i] == y);
                assert(rest.contains(y));
                let j = choose|j: int| 0 <= j < ri.len() && ri[j] == y;
                assert(r[j] == y);
            } else {
                assert(r[r.len() - 1] == y);
            }
        }
        assert forall|y: ElfSeg| #[trigger] r.contains(y) implies s.contains(y) || y == x by {
            let i = choose|i: int| 0 <= i < r.len() && r[i] == y;
            if i < ri.len() {
                assert(ri[i] == y);
                assert(ri.contains(y));
                if y != x {
                    let j = choose|j: int| 0 <= j < rest.len() && rest[j] == y;
                    assert(s[j] == y);
                }
            } else {
                assert(s[s.len() - 1] == y);
            }
        }
        assert forall|i: int, j: int| 0 <= i < j < r.len() implies (#[trigger] r[i]).vaddr <= (
        #[trigger] r[j]).vaddr by {
            if j == r.len() - 1 {
                assert(ri.contains(ri[i]));
                if ri[i] != x {
                    let k = choose|k: int| 0 <= k < rest.len() && rest[k] == ri[i];
                    assert(s[k].vaddr <= s[s.len() - 1].vaddr);
                }
            } else {
                assert(ri[i].vaddr <= ri[j].vaddr);
            }
        }
    }
}

proof fn lemma_sort(s: Seq<ElfSeg>)
    ensures
        ({
            let r = image::sorted_segs(s);
            &&& in_order(r)
            &&& r.len() == s.len()
            &&& forall|y: ElfSeg| #[trigger] s.contains(y) <==> r.contains(y)
        }),
    decreases s.len(),
{
    let r = image::sorted_segs(s);
    if s.len() > 0 {
        let rest = s.drop_last();
        lemma_sort(rest);
        lemma_insert(image::sorted_segs(rest), s.last());
        assert forall|y: ElfSeg| #[trigger] s.contains(y) <==> r.contains(y) by {
            if s.contains(y) {
                let i = choose|i: int| 0 <= i < s.len() && s[i] == y;
                if i < rest.len() {
                    assert(rest[i] == y);
                    assert(rest.contains(y));
                }
            }
            if r.contains(y) && y != s.last() {
                assert(image::sorted_segs(rest).contains(y));
                assert(rest.contains(y));
                let i = choose|i: int| 0 <= i < rest.len() && rest[i] == y;
                assert(s[i] == y);
            }
            if y == s.last() {
                assert(s[s.len() - 1] == y);
            }
        }
    }
}

/// What is read of an executable: its entry point and, by address, a segment for each
/// program header that tells to load something, and no other. It is refused exactly where
/// one of those cannot be.
pub proof fn lemma_parsed(elf: Seq<u8>)
    requires
        is_executable(elf),
    ensures
        ({
            let n = little(elf, 56, 2);
            let r = image::elf_parsed(elf);
            &&& r is Err <==> exists|k: int|
                0 <= k < n && #[trigger] to_load(elf, k) && impossible(elf, k)
            &&& r is Ok ==> {
                let segs = r->Ok_0.1;
                &&& r->Ok_0.0 == little(elf, 24, 8)
                &&& in_order(segs)
                &&& segs.len() == load_count(elf, n)
                &&& forall|i: int|
                    0 <= i < segs.len() ==> comes_from(elf, n, #[trigger] segs[i])
                &&& forall|k: int, s: ElfSeg|
                    0 <= k < n && #[trigger] described(elf, k, s) ==> segs.contains(s)
            }
        }),
{
    lemma_header(elf);
    bytes::lemma_little(elf, 24);
    bytes::lemma_little(elf, 56);
    let n = little(elf, 56, 2);
    assert(n >= 0);
    lemma_scan(elf, n);
    let r = image::elf_parsed(elf);
    if r is Ok {
        let list = image::scanned(elf, n)->Ok_0;
        let segs = r->Ok_0.1;
        lemma_sort(list);
        assert forall|i: int| 0 <= i < segs.len() implies comes_from(elf, n, #[trigger] segs[i]) by {
            assert(segs.contains(segs[i]));
            assert(list.contains(segs[i]));
            let j = choose|j: int| 0 <= j < list.len() && list[j] == segs[i];
            assert(comes_from(elf, n, list[j]));
        }
    }
}

/// Whether segments make an image: one to four of them, each on a boundary of 16 KiB and
/// none both writable and executable, one after the other, with the entry point in one
/// that is executable, no more than 1 MiB in all, and the end on a boundary within 64 bits.
pub open spec fn makes_image(segs: Seq<ElfSeg>, entry: u64) -> bool {
    &&& 1 <= segs.len() <= 4
    &&& forall|i: int|
        0 <= i < segs.len() ==> (#[trigger] segs[i]).vaddr % 0x4000 == 0 && !(segs[i].flags % 2 == 1
            && (segs[i].flags / 2) % 2 == 1)
    &&& forall|i: int, j: int|
        0 <= i < j < segs.len() ==> (#[trigger] segs[i]).vaddr + segs[i].memsz <= (
        #[trigger] segs[j]).vaddr
    &&& exists|i: int|
        0 <= i < segs.len() && (#[trigger] segs[i]).flags % 2 == 1 && segs[i].vaddr <= entry
            < segs[i].vaddr + segs[i].memsz
    &&& segs.last().vaddr + segs.last().memsz - segs[0].vaddr <= 0x10_0000
    &&& segs.last().vaddr + segs.last().memsz <= 0xFFFF_FFFF_FFFF_C000
}

proof fn lemma_order(segs: Seq<ElfSeg>, n: int)
    requires
        0 <= n <= segs.len(),
    ensures
        image::order_error(segs, n) is None <==> {
            &&& forall|i: int|
                0 <= i < n ==> (#[trigger] segs[i]).vaddr % 0x4000 == 0 && !(segs[i].flags % 2 == 1
                    && (segs[i].flags / 2) % 2 == 1)
            &&& forall|i: int, j: int|
                0 <= i < j < n ==> (#[trigger] segs[i]).vaddr + segs[i].memsz <= (
                #[trigger] segs[j]).vaddr
        },
    decreases n,
{
    if n > 0 {
        lemma_order(segs, n - 1);
        let f = segs[n - 1].flags;
        assert(f & 3 == 3 <==> f % 2 == 1 && (f / 2) % 2 == 1) by (bit_vector);
        if n > 1 {
            assert(segs[n - 2].vaddr <= segs[n - 2].vaddr + segs[n - 2].memsz);
        }
    }
}

/// Segments are accepted exactly where they make an image.
pub proof fn lemma_placement(segs: Seq<ElfSeg>, entry: u64)
    requires
        forall|i: int|
            0 <= i < segs.len() ==> (#[trigger] segs[i]).vaddr + segs[i].memsz <= u64::MAX,
    ensures
        image::placement_error(segs, entry) is None <==> makes_image(segs, entry),
{
    lemma_order(segs, segs.len() as int);
    assert forall|i: int| 0 <= i < segs.len() implies (image::is_code_at(#[trigger] segs[i], entry)
        <==> segs[i].flags % 2 == 1 && segs[i].vaddr <= entry < segs[i].vaddr
        + segs[i].memsz) by {
        let f = segs[i].flags;
        assert(f & 1 != 0 <==> f % 2 == 1) by (bit_vector);
    }
    assert(image::entry_in_text(segs, entry) <==> exists|i: int|
        0 <= i < segs.len() && (#[trigger] segs[i]).flags % 2 == 1 && segs[i].vaddr <= entry
            < segs[i].vaddr + segs[i].memsz);
    if segs.len() > 0 {
        let end = segs.last().vaddr + segs.last().memsz;
        assert(image::end_before(segs, segs.len() as int) == end);
        align::lemma_up(end, 0x4000);
        align::lemma_up(end - segs[0].vaddr, 0x4000);
    }
}

/// What an accepted file becomes: every segment has its bytes of the file at its place
/// and zeros behind them, and all between the segments is zero, up to the next boundary
/// of 16 KiB behind the last.
pub proof fn lemma_flat(elf: Seq<u8>, segs: Seq<ElfSeg>, entry: u64)
    requires
        makes_image(segs, entry),
        forall|i: int| 0 <= i < segs.len() ==> (#[trigger] segs[i]).filesz <= segs[i].memsz,
    ensures
        ({
            let f = image::flat(elf, segs);
            let base = segs[0].vaddr;
            let end = segs.last().vaddr + segs.last().memsz;
            &&& f.len() % 0x4000 == 0
            &&& end <= base + f.len() < end + 0x4000
            &&& forall|i: int, j: int|
                #![trigger segs[i], elf[segs[i].offset + j]]
                0 <= i < segs.len() && 0 <= j < segs[i].filesz ==> f[segs[i].vaddr - base + j]
                    == elf[segs[i].offset + j]
            &&& forall|k: int|
                0 <= k < f.len() && (forall|i: int|
                    0 <= i < segs.len() ==> !((#[trigger] segs[i]).vaddr <= base + k < segs[i].vaddr
                        + segs[i].filesz)) ==> #[trigger] f[k] == 0
        }),
{
    let f = image::flat(elf, segs);
    let base = segs[0].vaddr;
    let end = segs.last().vaddr + segs.last().memsz;
    assert(image::end_before(segs, segs.len() as int) == end);
    align::lemma_up(end - base, 0x4000);
    assert forall|i: int, j: int|
        #![trigger segs[i], elf[segs[i].offset + j]]
        0 <= i < segs.len() && 0 <= j < segs[i].filesz implies f[segs[i].vaddr - base + j]
        == elf[segs[i].offset + j] by {
        assert(segs.take(segs.len() as int) =~= segs);
        lemma_flat_byte(elf, segs, segs, entry, i, segs[i].vaddr - base + j);
    }
    assert forall|k: int|
        0 <= k < f.len() && (forall|i: int|
            0 <= i < segs.len() ==> !((#[trigger] segs[i]).vaddr <= base + k < segs[i].vaddr
                + segs[i].filesz)) implies #[trigger] f[k] == 0 by {
        lemma_zero_byte(elf, segs, base, k);
    }
}

proof fn lemma_flat_byte(
    elf: Seq<u8>,
    segs: Seq<ElfSeg>,
    first: Seq<ElfSeg>,
    entry: u64,
    i: int,
    k: int,
)
    requires
        makes_image(segs, entry),
        forall|a: int| 0 <= a < segs.len() ==> (#[trigger] segs[a]).filesz <= segs[a].memsz,
        0 <= i < first.len() <= segs.len(),
        first == segs.take(first.len() as int),
        segs[i].vaddr - segs[0].vaddr <= k < segs[i].vaddr - segs[0].vaddr + segs[i].filesz,
    ensures
        image::flat_byte(elf, first, segs[0].vaddr, k) == elf[segs[i].offset + (k - (segs[i].vaddr
            - segs[0].vaddr))],
    decreases first.len(),
{
    let n = first.len() as int;
    assert(first.last() == segs[n - 1]);
    if i < n - 1 {
        assert(first.drop_last() =~= segs.take(n - 1));
        lemma_flat_byte(elf, segs, first.drop_last(), entry, i, k);
    }
}

proof fn lemma_zero_byte(elf: Seq<u8>, segs: Seq<ElfSeg>, base: u64, k: int)
    requires
        forall|i: int|
            0 <= i < segs.len() ==> !((#[trigger] segs[i]).vaddr <= base + k < segs[i].vaddr
                + segs[i].filesz),
    ensures
        image::flat_byte(elf, segs, base, k) == 0,
    decreases segs.len(),
{
    if segs.len() > 0 {
        assert(segs.last() == segs[segs.len() - 1]);
        assert forall|i: int| 0 <= i < segs.drop_last().len() implies !((
        #[trigger] segs.drop_last()[i]).vaddr <= base + k < segs.drop_last()[i].vaddr
            + segs.drop_last()[i].filesz) by {
            assert(segs[i] == segs.drop_last()[i]);
        }
        lemma_zero_byte(elf, segs.drop_last(), base, k);
    }
}

/// What the kernel is told of the segments: the place and size of each, in order, and
/// that it is code where it can be executed, data where it can be written and constant
/// otherwise.
pub proof fn lemma_segments(segs: Seq<ElfSeg>)
    ensures
        ({
            let r = image::rt_segments(segs);
            &&& r.len() == segs.len()
            &&& forall|i: int|
                0 <= i < segs.len() ==> {
                    &&& (#[trigger] r[i]).va == segs[i].vaddr
                    &&& r[i].memsz == segs[i].memsz
                    &&& r[i].kind == RtSegKind::Text <==> segs[i].flags % 2 == 1
                    &&& r[i].kind == RtSegKind::Rw <==> segs[i].flags % 2 == 0 && (segs[i].flags / 2)
                        % 2 == 1
                    &&& r[i].kind == RtSegKind::Ro <==> segs[i].flags % 2 == 0 && (segs[i].flags / 2)
                        % 2 == 0
                }
        }),
{
    let r = image::rt_segments(segs);
    assert forall|i: int| 0 <= i < segs.len() implies {
        &&& (#[trigger] r[i]).va == segs[i].vaddr
        &&& r[i].memsz == segs[i].memsz
        &&& r[i].kind == RtSegKind::Text <==> segs[i].flags % 2 == 1
        &&& r[i].kind == RtSegKind::Rw <==> segs[i].flags % 2 == 0 && (segs[i].flags / 2) % 2 == 1
        &&& r[i].kind == RtSegKind::Ro <==> segs[i].flags % 2 == 0 && (segs[i].flags / 2) % 2 == 0
    } by {
        let f = segs[i].flags;
        assert((f & 1 != 0 <==> f % 2 == 1) && (f & 2 != 0 <==> (f / 2) % 2 == 1)) by (bit_vector);
    }
}

/// What is wrong with what program header `k` describes.
pub open spec fn fault(elf: Seq<u8>, k: int) -> ImageError {
    let p = header_at(elf, k);
    if little(elf, p + 32, 8) > little(elf, p + 40, 8) {
        ImageError::FileExceedsMemory
    } else if little(elf, p + 8, 8) + little(elf, p + 32, 8) > elf.len() {
        ImageError::SegmentTruncated
    } else {
        ImageError::AddressOverflow
    }
}

/// Whether program header `k` is the first among `n` whose segment cannot be, for a
/// reason.
pub open spec fn first_fault(elf: Seq<u8>, n: int, k: int, e: ImageError) -> bool {
    &&& 0 <= k < n
    &&& to_load(elf, k)
    &&& impossible(elf, k)
    &&& e == fault(elf, k)
    &&& forall|j: int| 0 <= j < k ==> !(#[trigger] to_load(elf, j) && impossible(elf, j))
}

/// A file is refused for the first segment that cannot be.
pub proof fn lemma_first_fault(elf: Seq<u8>, n: int)
    requires
        image::scanned(elf, n) is Err,
    ensures
        exists|k: int| #[trigger] first_fault(elf, n, k, image::scanned(elf, n)->Err_0),
    decreases n,
{
    let r = image::scanned(elf, n);
    let before = image::scanned(elf, n - 1);
    lemma_fields(elf, n - 1);
    if before is Err {
        lemma_first_fault(elf, n - 1);
        let k = choose|k: int| #[trigger] first_fault(elf, n - 1, k, before->Err_0);
        assert(first_fault(elf, n, k, r->Err_0));
    } else {
        lemma_scan(elf, n - 1);
        assert(first_fault(elf, n, n - 1, r->Err_0));
    }
}

/// What is said of segments that make no image: that there are none or too many, that the
/// first is not aligned; then, of the first that is wrong, that it is not aligned, starts
/// before the one before it ends, or is both writable and executable.
pub proof fn lemma_placement_fault(segs: Seq<ElfSeg>, entry: u64, n: int)
    requires
        0 <= n < segs.len(),
    ensures
        ({
            let e = image::placement_error(segs, entry);
            let aligned = |i: int| segs[i].vaddr % 0x4000 == 0;
            &&& segs.len() > 4 <==> e == Some(ImageError::TooManySegments)
            &&& segs.len() <= 4 ==> (!aligned(0) <==> e == Some(ImageError::BaseMisaligned))
            &&& segs.len() <= 4 && aligned(0) && image::order_error(segs, n) is None ==> {
                let apart = n == 0 || segs[n - 1].vaddr + segs[n - 1].memsz <= segs[n].vaddr;
                let both = segs[n].flags % 2 == 1 && (segs[n].flags / 2) % 2 == 1;
                &&& !aligned(n) ==> e == Some(ImageError::SegmentMisaligned)
                &&& aligned(n) && !apart ==> e == Some(ImageError::SegmentOverlap)
                &&& aligned(n) && apart && both ==> e == Some(ImageError::WriteExecute)
            }
        }),
        image::placement_error(Seq::empty(), entry) == Some(ImageError::NoSegment),
{
    let f = segs[n].flags;
    assert(f & 3 == 3 <==> f % 2 == 1 && (f / 2) % 2 == 1) by (bit_vector);
    lemma_order_faults(segs, segs.len() as int);
    if image::order_error(segs, n) is None && image::order_error(segs, n + 1) is Some {
        lemma_same_fault(segs, n + 1, segs.len() as int);
    }
}

/// What can be wrong with the order of segments.
proof fn lemma_order_faults(segs: Seq<ElfSeg>, n: int)
    ensures
        image::order_error(segs, n) matches Some(e) ==> e == ImageError::SegmentMisaligned || e
            == ImageError::SegmentOverlap || e == ImageError::WriteExecute,
    decreases n,
{
    if n > 0 {
        lemma_order_faults(segs, n - 1);
    }
}

/// The first fault stays the first.
proof fn lemma_same_fault(segs: Seq<ElfSeg>, n: int, m: int)
    requires
        0 <= n <= m,
        image::order_error(segs, n) is Some,
    ensures
        image::order_error(segs, m) == image::order_error(segs, n),
    decreases m,
{
    if n < m {
        lemma_same_fault(segs, n, m - 1);
    }
}

} // verus!
