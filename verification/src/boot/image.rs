//! The image of the root task, made from the file that the linker leaves.
//!
//! The kernel knows nothing of executable files. What it gets is a flat image and a list
//! of segments, made here and checked: no segment is writable and executable at once,
//! segments start at page boundaries of every platform and do not overlap, and the entry
//! point is code.
pub mod laws;

use vstd::prelude::*;

use crate::align;
use crate::boot::roottask::{RtSegKind, RtSegment};
use crate::boot::sha256;
use crate::bytes;

verus! {

/// The alignment of segments: the greatest page size of all platforms.
pub const SEG_ALIGN: u64 = 0x4000;

/// The greatest size of a flat image, so that it fits the frame window.
pub const MAX_FLAT_SIZE: u64 = 0x10_0000;

/// How many segments an image can have.
pub const MAX_IMAGE_SEGS: usize = 4;

/// Flag of a segment that can be executed.
pub const FLAG_X: u32 = 1;

/// Flag of a segment that can be written.
pub const FLAG_W: u32 = 2;

/// A segment of the file that is to be loaded.
#[derive(Clone, Copy, Debug, PartialEq, Eq, Structural)]
pub struct ElfSeg {
    pub vaddr: u64,
    pub offset: u64,
    pub filesz: u64,
    pub memsz: u64,
    pub flags: u32,
}

/// Why a file was refused.
#[derive(Clone, Copy, Debug, PartialEq, Eq, Structural)]
pub enum ImageError {
    /// The header is cut off.
    HeaderTruncated,
    BadMagic,
    /// Not a 64-bit file.
    BadClass,
    /// Not little endian.
    BadData,
    /// Not for this processor.
    BadMachine,
    /// Not of fixed placement.
    BadType,
    /// Program headers of another size.
    BadPhentsize,
    /// The table of program headers is cut off.
    TableTruncated,
    /// A segment takes more of the file than of memory.
    FileExceedsMemory,
    /// The contents of a segment are cut off.
    SegmentTruncated,
    /// A segment leaves the address range.
    AddressOverflow,
    NoSegment,
    TooManySegments,
    /// The first segment is not aligned.
    BaseMisaligned,
    SegmentMisaligned,
    SegmentOverlap,
    /// A segment is writable and executable.
    WriteExecute,
    /// The entry point is not in a segment of code.
    EntryOutsideText,
    TooLarge,
}

/// Why the header of a file is refused, if it is.
pub open spec fn header_error(elf: Seq<u8>) -> Option<ImageError> {
    if elf.len() < 64 {
        Some(ImageError::HeaderTruncated)
    } else if !(elf[0] == 0x7F && elf[1] == 0x45 && elf[2] == 0x4C && elf[3] == 0x46) {
        Some(ImageError::BadMagic)
    } else if elf[4] != 2 {
        Some(ImageError::BadClass)
    } else if elf[5] != 1 {
        Some(ImageError::BadData)
    } else if bytes::le16_at(elf, 18) != 183 {
        Some(ImageError::BadMachine)
    } else if bytes::le16_at(elf, 16) != 2 {
        Some(ImageError::BadType)
    } else if bytes::le16_at(elf, 54) != 56 {
        Some(ImageError::BadPhentsize)
    } else if bytes::le64_at(elf, 32) + 56 * bytes::le16_at(elf, 56) > elf.len() {
        Some(ImageError::TableTruncated)
    } else {
        None
    }
}

/// The segment that the program header at `p` describes.
pub open spec fn seg_at(elf: Seq<u8>, p: int) -> ElfSeg {
    ElfSeg {
        vaddr: bytes::le64_at(elf, p + 16) as u64,
        offset: bytes::le64_at(elf, p + 8) as u64,
        filesz: bytes::le64_at(elf, p + 32) as u64,
        memsz: bytes::le64_at(elf, p + 40) as u64,
        flags: bytes::le32_at(elf, p + 4) as u32,
    }
}

/// Why a segment is refused, if it is.
pub open spec fn seg_error(elf: Seq<u8>, s: ElfSeg) -> Option<ImageError> {
    if s.filesz > s.memsz {
        Some(ImageError::FileExceedsMemory)
    } else if s.offset + s.filesz > elf.len() {
        Some(ImageError::SegmentTruncated)
    } else if s.vaddr + s.memsz > u64::MAX {
        Some(ImageError::AddressOverflow)
    } else {
        None
    }
}

/// The segments that the first `n` program headers tell to load, in the order of the
/// headers, or the first error.
pub open spec fn scanned(elf: Seq<u8>, n: int) -> Result<Seq<ElfSeg>, ImageError>
    decreases n,
{
    if n <= 0 {
        Ok(Seq::empty())
    } else {
        match scanned(elf, n - 1) {
            Err(e) => Err(e),
            Ok(before) => {
                let p = bytes::le64_at(elf, 32) + 56 * (n - 1);
                let s = seg_at(elf, p);
                if bytes::le32_at(elf, p) != 1 {
                    Ok(before)
                } else {
                    match seg_error(elf, s) {
                        Some(e) => Err(e),
                        None => if s.memsz > 0 {
                            Ok(before.push(s))
                        } else {
                            Ok(before)
                        },
                    }
                }
            },
        }
    }
}

/// A sorted list with one segment more, behind those at the same address.
pub open spec fn insert_sorted(s: Seq<ElfSeg>, x: ElfSeg) -> Seq<ElfSeg>
    decreases s.len(),
{
    if s.len() == 0 || s.last().vaddr <= x.vaddr {
        s.push(x)
    } else {
        insert_sorted(s.drop_last(), x).push(s.last())
    }
}

/// Segments by address, those at the same address in the order they came.
pub open spec fn sorted_segs(s: Seq<ElfSeg>) -> Seq<ElfSeg>
    decreases s.len(),
{
    if s.len() == 0 {
        Seq::empty()
    } else {
        insert_sorted(sorted_segs(s.drop_last()), s.last())
    }
}

/// The entry point and the segments of a file, by address, or why it is refused.
pub open spec fn elf_parsed(elf: Seq<u8>) -> Result<(u64, Seq<ElfSeg>), ImageError> {
    match header_error(elf) {
        Some(e) => Err(e),
        None => match scanned(elf, bytes::le16_at(elf, 56)) {
            Err(e) => Err(e),
            Ok(segs) => Ok((bytes::le64_at(elf, 24) as u64, sorted_segs(segs))),
        },
    }
}

/// Inserting at the right place keeps a list sorted.
proof fn lemma_insert_sorted(s: Seq<ElfSeg>, x: ElfSeg, k: int)
    requires
        0 <= k <= s.len(),
        k > 0 ==> s[k - 1].vaddr <= x.vaddr,
        forall|j: int| k <= j < s.len() ==> (#[trigger] s[j]).vaddr > x.vaddr,
    ensures
        insert_sorted(s, x) == s.insert(k, x),
    decreases s.len(),
{
    if k == s.len() {
        assert(s.insert(k, x) =~= s.push(x));
    } else {
        assert(s[s.len() - 1].vaddr > x.vaddr);
        lemma_insert_sorted(s.drop_last(), x, k);
        assert(s.insert(k, x) =~= s.drop_last().insert(k, x).push(s.last()));
    }
}

/// Adds a segment to a list that is sorted by address.
fn add_seg(list: &mut Vec<ElfSeg>, x: ElfSeg)
    ensures
        final(list)@ == insert_sorted(old(list)@, x),
{
    let mut k: usize = list.len();
    while k > 0 && list[k - 1].vaddr > x.vaddr
        invariant
            k <= list.len(),
            list@ == old(list)@,
            forall|j: int| k <= j < list.len() ==> (#[trigger] list@[j]).vaddr > x.vaddr,
        decreases k,
    {
        k -= 1;
    }
    proof {
        lemma_insert_sorted(list@, x, k as int);
    }
    list.insert(k, x);
}

/// Checks the header of a file.
fn check_header(elf: &[u8]) -> (r: Result<(), ImageError>)
    ensures
        match header_error(elf@) {
            Some(e) => r == Err::<(), ImageError>(e),
            None => r is Ok,
        },
{
    if elf.len() < 64 {
        return Err(ImageError::HeaderTruncated);
    }
    if !(elf[0] == 0x7F && elf[1] == 0x45 && elf[2] == 0x4C && elf[3] == 0x46) {
        return Err(ImageError::BadMagic);
    }
    if elf[4] != 2 {
        return Err(ImageError::BadClass);
    }
    if elf[5] != 1 {
        return Err(ImageError::BadData);
    }
    if bytes::le16(elf, 18) != 183 {
        return Err(ImageError::BadMachine);
    }
    if bytes::le16(elf, 16) != 2 {
        return Err(ImageError::BadType);
    }
    if bytes::le16(elf, 54) != 56 {
        return Err(ImageError::BadPhentsize);
    }
    let table = 56 * bytes::le16(elf, 56) as u64;
    match bytes::le64(elf, 32).checked_add(table) {
        Some(end) => if end > elf.len() as u64 {
            Err(ImageError::TableTruncated)
        } else {
            Ok(())
        },
        None => Err(ImageError::TableTruncated),
    }
}

/// Reads a program header.
fn read_seg(elf: &[u8], p: usize) -> (r: Result<ElfSeg, ImageError>)
    requires
        p + 56 <= elf.len(),
    ensures
        match seg_error(elf@, seg_at(elf@, p as int)) {
            Some(e) => r == Err::<ElfSeg, ImageError>(e),
            None => r == Ok::<ElfSeg, ImageError>(seg_at(elf@, p as int)),
        },
{
    let s = ElfSeg {
        vaddr: bytes::le64(elf, p + 16),
        offset: bytes::le64(elf, p + 8),
        filesz: bytes::le64(elf, p + 32),
        memsz: bytes::le64(elf, p + 40),
        flags: bytes::le32(elf, p + 4),
    };
    if s.filesz > s.memsz {
        return Err(ImageError::FileExceedsMemory);
    }
    match s.offset.checked_add(s.filesz) {
        Some(end) => {
            if end > elf.len() as u64 {
                return Err(ImageError::SegmentTruncated);
            }
        },
        None => {
            return Err(ImageError::SegmentTruncated);
        },
    }
    if s.vaddr.checked_add(s.memsz).is_none() {
        return Err(ImageError::AddressOverflow);
    }
    Ok(s)
}

/// An error among the first headers is not undone by more.
proof fn lemma_scan_error(elf: Seq<u8>, i: int, n: int)
    requires
        0 <= i <= n,
        scanned(elf, i) is Err,
    ensures
        scanned(elf, n) == scanned(elf, i),
    decreases n,
{
    if i < n {
        lemma_scan_error(elf, i, n - 1);
    }
}

/// Checks an executable file and reads its entry point and the segments to load, by
/// address.
pub fn parse_elf(elf: &[u8]) -> (r: Result<(u64, Vec<ElfSeg>), ImageError>)
    ensures
        match (r, elf_parsed(elf@)) {
            (Ok((entry, segs)), Ok((want_entry, want))) => entry == want_entry && segs@ == want,
            (Err(e), Err(want)) => e == want,
            _ => false,
        },
{
    match check_header(elf) {
        Ok(_) => {},
        Err(e) => {
            return Err(e);
        },
    }
    let entry = bytes::le64(elf, 24);
    let phoff = bytes::le64(elf, 32) as usize;
    let phnum = bytes::le16(elf, 56) as usize;
    let mut list: Vec<ElfSeg> = Vec::new();
    let mut i: usize = 0;
    while i < phnum
        invariant
            i <= phnum,
            elf.len() >= 64,
            header_error(elf@) is None,
            phoff == bytes::le64_at(elf@, 32),
            phnum == bytes::le16_at(elf@, 56),
            phoff + 56 * phnum <= elf.len(),
            scanned(elf@, i as int) is Ok,
            list@ == sorted_segs(scanned(elf@, i as int)->Ok_0),
        decreases phnum - i,
    {
        let p = phoff + 56 * i;
        if bytes::le32(elf, p) == 1 {
            match read_seg(elf, p) {
                Ok(s) => {
                    if s.memsz > 0 {
                        let ghost before = scanned(elf@, i as int)->Ok_0;
                        add_seg(&mut list, s);
                        assert(before.push(s).drop_last() =~= before);
                    }
                },
                Err(e) => {
                    proof {
                        lemma_scan_error(elf@, i + 1, phnum as int);
                    }
                    return Err(e);
                },
            }
        }
        i += 1;
    }
    Ok((entry, list))
}

/// Where the segments before the `i`th end; where the image starts, for the first.
pub open spec fn end_before(segs: Seq<ElfSeg>, i: int) -> int {
    if i <= 0 {
        segs[0].vaddr as int
    } else {
        segs[i - 1].vaddr + segs[i - 1].memsz
    }
}

/// The first fault in the placement of the first `n` segments.
pub open spec fn order_error(segs: Seq<ElfSeg>, n: int) -> Option<ImageError>
    decreases n,
{
    if n <= 0 {
        None
    } else {
        match order_error(segs, n - 1) {
            Some(e) => Some(e),
            None => {
                let s = segs[n - 1];
                if s.vaddr % SEG_ALIGN != 0 {
                    Some(ImageError::SegmentMisaligned)
                } else if s.vaddr < end_before(segs, n - 1) {
                    Some(ImageError::SegmentOverlap)
                } else if s.flags & 3 == 3 {
                    Some(ImageError::WriteExecute)
                } else {
                    None
                }
            },
        }
    }
}

/// Whether a segment is code that holds the address.
pub open spec fn is_code_at(s: ElfSeg, entry: u64) -> bool {
    s.flags & FLAG_X != 0 && s.vaddr <= entry < s.vaddr + s.memsz
}

/// Whether the entry point is in a segment of code.
pub open spec fn entry_in_text(segs: Seq<ElfSeg>, entry: u64) -> bool {
    exists|i: int| 0 <= i < segs.len() && is_code_at(#[trigger] segs[i], entry)
}

/// The size of the flat image.
pub open spec fn span(segs: Seq<ElfSeg>) -> int {
    align::up(end_before(segs, segs.len() as int) - segs[0].vaddr, SEG_ALIGN as int)
}

/// Why the segments make no image, if they do not.
pub open spec fn placement_error(segs: Seq<ElfSeg>, entry: u64) -> Option<ImageError> {
    if segs.len() == 0 {
        Some(ImageError::NoSegment)
    } else if segs.len() > MAX_IMAGE_SEGS {
        Some(ImageError::TooManySegments)
    } else if segs[0].vaddr % SEG_ALIGN != 0 {
        Some(ImageError::BaseMisaligned)
    } else if order_error(segs, segs.len() as int) is Some {
        order_error(segs, segs.len() as int)
    } else if !entry_in_text(segs, entry) {
        Some(ImageError::EntryOutsideText)
    } else if align::up(end_before(segs, segs.len() as int), SEG_ALIGN as int) > u64::MAX {
        Some(ImageError::AddressOverflow)
    } else if span(segs) > MAX_FLAT_SIZE {
        Some(ImageError::TooLarge)
    } else {
        None
    }
}

/// A byte of the flat image: from the segment that holds it, else 0.
pub open spec fn flat_byte(elf: Seq<u8>, segs: Seq<ElfSeg>, base: u64, k: int) -> u8
    decreases segs.len(),
{
    if segs.len() == 0 {
        0
    } else {
        let s = segs.last();
        let at = s.vaddr - base;
        if at <= k < at + s.filesz {
            elf[s.offset + (k - at)]
        } else {
            flat_byte(elf, segs.drop_last(), base, k)
        }
    }
}

/// The flat image: the contents of the segments at their places, and zeros between.
pub open spec fn flat(elf: Seq<u8>, segs: Seq<ElfSeg>) -> Seq<u8> {
    Seq::new(span(segs) as nat, |k: int| flat_byte(elf, segs, segs[0].vaddr, k))
}

/// What a segment is for.
pub open spec fn kind_of(flags: u32) -> RtSegKind {
    if flags & FLAG_X != 0 {
        RtSegKind::Text
    } else if flags & FLAG_W != 0 {
        RtSegKind::Rw
    } else {
        RtSegKind::Ro
    }
}

/// The segments as the kernel knows them.
pub open spec fn rt_segments(segs: Seq<ElfSeg>) -> Seq<RtSegment> {
    segs.map_values(
        |s: ElfSeg| RtSegment { va: s.vaddr, memsz: s.memsz, kind: kind_of(s.flags) },
    )
}

/// A flat image and what the kernel has to know of it.
pub struct FlatImage {
    pub image: Vec<u8>,
    pub sha256: [u8; 32],
    pub base: u64,
    pub entry: u64,
    pub segments: Vec<RtSegment>,
}

/// Checks the placement of segments.
fn check_placement(segs: &Vec<ElfSeg>, entry: u64) -> (r: Result<u64, ImageError>)
    requires
        forall|i: int|
            0 <= i < segs.len() ==> (#[trigger] segs@[i]).vaddr + segs@[i].memsz <= u64::MAX,
    ensures
        match placement_error(segs@, entry) {
            Some(e) => r == Err::<u64, ImageError>(e),
            None => r == Ok::<u64, ImageError>(span(segs@) as u64),
        },
{
    let n = segs.len();
    if n == 0 {
        return Err(ImageError::NoSegment);
    }
    if n > MAX_IMAGE_SEGS {
        return Err(ImageError::TooManySegments);
    }
    let base = segs[0].vaddr;
    if base % SEG_ALIGN != 0 {
        return Err(ImageError::BaseMisaligned);
    }
    let mut prev_end = base;
    let mut in_text = false;
    let mut i: usize = 0;
    while i < n
        invariant
            i <= n,
            n == segs.len(),
            0 < n <= MAX_IMAGE_SEGS,
            base == segs@[0].vaddr,
            base % SEG_ALIGN == 0,
            base <= prev_end,
            prev_end == end_before(segs@, i as int),
            order_error(segs@, i as int) is None,
            in_text == exists|j: int| 0 <= j < i && is_code_at(#[trigger] segs@[j], entry),
            forall|j: int|
                0 <= j < segs.len() ==> (#[trigger] segs@[j]).vaddr + segs@[j].memsz <= u64::MAX,
        decreases n - i,
    {
        let s = segs[i];
        assert(segs@[i as int].vaddr + segs@[i as int].memsz <= u64::MAX);
        proof {
            if order_error(segs@, i + 1) is Some {
                lemma_order_error(segs@, i + 1, n as int);
            }
        }
        if s.vaddr % SEG_ALIGN != 0 {
            return Err(ImageError::SegmentMisaligned);
        }
        if s.vaddr < prev_end {
            return Err(ImageError::SegmentOverlap);
        }
        prev_end = s.vaddr + s.memsz;
        if s.flags & 3 == 3 {
            return Err(ImageError::WriteExecute);
        }
        if s.flags & FLAG_X != 0 && s.vaddr <= entry && entry < s.vaddr + s.memsz {
            assert(is_code_at(segs@[i as int], entry));
            in_text = true;
        }
        i += 1;
    }
    if !in_text {
        return Err(ImageError::EntryOutsideText);
    }
    let len = prev_end - base;
    proof {
        align::lemma_up(len as int, SEG_ALIGN as int);
        align::lemma_up(prev_end as int, SEG_ALIGN as int);
    }
    if prev_end.checked_add(SEG_ALIGN - 1).is_none() {
        return Err(ImageError::AddressOverflow);
    }
    if len > MAX_FLAT_SIZE {
        return Err(ImageError::TooLarge);
    }
    let whole = (len + (SEG_ALIGN - 1)) / SEG_ALIGN * SEG_ALIGN;
    Ok(whole)
}

/// A fault in the placement is not undone by more segments.
proof fn lemma_order_error(segs: Seq<ElfSeg>, i: int, n: int)
    requires
        0 <= i <= n,
        order_error(segs, i) is Some,
    ensures
        order_error(segs, n) == order_error(segs, i),
    decreases n,
{
    if i < n {
        lemma_order_error(segs, i, n - 1);
    }
}

/// In a faultless placement every segment is aligned, not writable and executable at once,
/// and ends before the next starts.
pub proof fn lemma_placement(segs: Seq<ElfSeg>, entry: u64, i: int, j: int)
    requires
        placement_error(segs, entry) is None,
        forall|k: int| 0 <= k < segs.len() ==> (#[trigger] segs[k]).memsz > 0,
        0 <= i <= j < segs.len(),
    ensures
        segs[i].vaddr % SEG_ALIGN == 0,
        segs[i].flags & 3 != 3,
        segs[0].vaddr <= segs[i].vaddr,
        i < j ==> segs[i].vaddr + segs[i].memsz <= segs[j].vaddr,
        segs[i].vaddr + segs[i].memsz <= segs[0].vaddr + span(segs),
        0 < span(segs) <= MAX_FLAT_SIZE,
        span(segs) % SEG_ALIGN as int == 0,
        segs[0].vaddr + span(segs) <= u64::MAX,
    decreases j - i,
{
    let n = segs.len() as int;
    align::lemma_up(end_before(segs, n), SEG_ALIGN as int);
    lemma_ordered(segs, i, n);
    lemma_ordered(segs, j, n);
    align::lemma_up(end_before(segs, n) - segs[0].vaddr, SEG_ALIGN as int);
    lemma_ascending(segs, i, j, n);
    lemma_ascending(segs, i, n - 1, n);
    lemma_ascending(segs, 0, i, n);
    lemma_ascending(segs, 0, n - 1, n);
}

proof fn lemma_ordered(segs: Seq<ElfSeg>, i: int, n: int)
    requires
        0 <= i < n,
        order_error(segs, n) is None,
    ensures
        segs[i].vaddr % SEG_ALIGN == 0,
        segs[i].vaddr >= end_before(segs, i),
        segs[i].flags & 3 != 3,
    decreases n,
{
    if i < n - 1 {
        lemma_ordered(segs, i, n - 1);
    }
}

proof fn lemma_ascending(segs: Seq<ElfSeg>, i: int, j: int, n: int)
    requires
        0 <= i <= j < n,
        order_error(segs, n) is None,
    ensures
        segs[i].vaddr <= segs[j].vaddr,
        i < j ==> segs[i].vaddr + segs[i].memsz <= segs[j].vaddr,
    decreases j - i,
{
    if i < j {
        lemma_ascending(segs, i, j - 1, n);
        lemma_ordered(segs, j, n);
    }
}

/// Whether a segment is sound and not empty.
pub open spec fn seg_ok(elf: Seq<u8>, s: ElfSeg) -> bool {
    seg_error(elf, s) is None && s.memsz > 0
}

/// Whether all segments are sound and not empty.
pub open spec fn segs_ok(elf: Seq<u8>, segs: Seq<ElfSeg>) -> bool {
    forall|i: int| 0 <= i < segs.len() ==> seg_ok(elf, #[trigger] segs[i])
}

proof fn lemma_insert_ok(elf: Seq<u8>, s: Seq<ElfSeg>, x: ElfSeg)
    requires
        segs_ok(elf, s),
        seg_ok(elf, x),
    ensures
        segs_ok(elf, insert_sorted(s, x)),
    decreases s.len(),
{
    if !(s.len() == 0 || s.last().vaddr <= x.vaddr) {
        lemma_insert_ok(elf, s.drop_last(), x);
        assert(seg_ok(elf, s[s.len() - 1]));
    }
}

proof fn lemma_sorted_ok(elf: Seq<u8>, s: Seq<ElfSeg>)
    requires
        segs_ok(elf, s),
    ensures
        segs_ok(elf, sorted_segs(s)),
    decreases s.len(),
{
    if s.len() > 0 {
        lemma_sorted_ok(elf, s.drop_last());
        assert(seg_ok(elf, s[s.len() - 1]));
        lemma_insert_ok(elf, sorted_segs(s.drop_last()), s.last());
    }
}

proof fn lemma_scanned_ok(elf: Seq<u8>, n: int)
    requires
        scanned(elf, n) is Ok,
    ensures
        segs_ok(elf, scanned(elf, n)->Ok_0),
    decreases n,
{
    if n > 0 {
        lemma_scanned_ok(elf, n - 1);
    }
}

/// Every segment that a file tells to load is sound and not empty.
pub proof fn lemma_parsed_ok(elf: Seq<u8>)
    requires
        elf_parsed(elf) is Ok,
    ensures
        segs_ok(elf, elf_parsed(elf)->Ok_0.1),
{
    let n = bytes::le16_at(elf, 56);
    lemma_scanned_ok(elf, n);
    lemma_sorted_ok(elf, scanned(elf, n)->Ok_0);
}

/// Copies a segment to its place.
fn copy_seg(out: &mut Vec<u8>, elf: &[u8], s: ElfSeg, at: usize)
    requires
        at + s.filesz <= old(out).len(),
        s.offset + s.filesz <= elf.len(),
    ensures
        final(out)@ == Seq::new(
            old(out)@.len(),
            |k: int|
                if at <= k < at + s.filesz {
                    elf@[s.offset + (k - at)]
                } else {
                    old(out)@[k]
                },
        ),
{
    let n = s.filesz as usize;
    let from = s.offset as usize;
    let mut i: usize = 0;
    while i < n
        invariant
            i <= n,
            n == s.filesz,
            from == s.offset,
            at + n <= out.len(),
            from + n <= elf.len(),
            out@.len() == old(out)@.len(),
            forall|k: int|
                0 <= k < out@.len() ==> #[trigger] out@[k] == (if at <= k < at + i {
                    elf@[s.offset + (k - at)]
                } else {
                    old(out)@[k]
                }),
        decreases n - i,
    {
        out.set(at + i, elf[from + i]);
        i += 1;
    }
    assert(out@ =~= Seq::new(
        old(out)@.len(),
        |k: int|
            if at <= k < at + s.filesz {
                elf@[s.offset + (k - at)]
            } else {
                old(out)@[k]
            },
    ));
}

/// Makes the flat image.
fn flatten(elf: &[u8], segs: &Vec<ElfSeg>, len: usize, Ghost(entry): Ghost<u64>) -> (r: Vec<u8>)
    requires
        segs_ok(elf@, segs@),
        placement_error(segs@, entry) is None,
        len == span(segs@),
    ensures
        r@ == flat(elf@, segs@),
{
    let base = segs[0].vaddr;
    let mut out: Vec<u8> = Vec::new();
    while out.len() < len
        invariant
            out.len() <= len,
            forall|k: int| 0 <= k < out.len() ==> out@[k] == 0,
        decreases len - out.len(),
    {
        out.push(0);
    }
    let mut i: usize = 0;
    while i < segs.len()
        invariant
            i <= segs.len(),
            segs_ok(elf@, segs@),
            placement_error(segs@, entry) is None,
            base == segs@[0].vaddr,
            len == span(segs@),
            out@.len() == len,
            forall|k: int|
                0 <= k < len ==> #[trigger] out@[k] == flat_byte(
                    elf@,
                    segs@.take(i as int),
                    base,
                    k,
                ),
        decreases segs.len() - i,
    {
        let s = segs[i];
        proof {
            assert(seg_ok(elf@, segs@[i as int]));
            assert forall|k: int| 0 <= k < segs@.len() implies (#[trigger] segs@[k]).memsz > 0 by {
                assert(seg_ok(elf@, segs@[k]));
            }
            lemma_placement(segs@, entry, i as int, i as int);
        }
        let at = (s.vaddr - base) as usize;
        let ghost was = out@;
        copy_seg(&mut out, elf, s, at);
        proof {
            let upto = segs@.take(i + 1);
            assert(upto.drop_last() =~= segs@.take(i as int));
            assert(upto.last() == s);
            assert forall|k: int| 0 <= k < len implies #[trigger] out@[k] == flat_byte(
                elf@,
                upto,
                base,
                k,
            ) by {
                assert(was[k] == flat_byte(elf@, segs@.take(i as int), base, k));
            }
        }
        i += 1;
    }
    assert(segs@.take(segs@.len() as int) =~= segs@);
    assert(out@ =~= flat(elf@, segs@));
    out
}

/// The segments as the kernel knows them.
fn to_rt_segments(segs: &Vec<ElfSeg>) -> (r: Vec<RtSegment>)
    ensures
        r@ == rt_segments(segs@),
{
    let mut v: Vec<RtSegment> = Vec::new();
    let mut i: usize = 0;
    while i < segs.len()
        invariant
            i <= segs.len(),
            v@ == rt_segments(segs@).take(i as int),
        decreases segs.len() - i,
    {
        let s = segs[i];
        let kind = if s.flags & FLAG_X != 0 {
            RtSegKind::Text
        } else if s.flags & FLAG_W != 0 {
            RtSegKind::Rw
        } else {
            RtSegKind::Ro
        };
        v.push(RtSegment { va: s.vaddr, memsz: s.memsz, kind });
        i += 1;
        assert(v@ =~= rt_segments(segs@).take(i as int));
    }
    assert(v@ =~= rt_segments(segs@));
    v
}

/// Why a file makes no image, if it does not.
pub open spec fn image_error(elf: Seq<u8>) -> Option<ImageError> {
    match elf_parsed(elf) {
        Err(e) => Some(e),
        Ok((entry, segs)) => placement_error(segs, entry),
    }
}

/// Makes the flat image of the root task from an executable file.
pub fn flat_image(elf: &[u8]) -> (r: Result<FlatImage, ImageError>)
    ensures
        match r {
            Err(e) => image_error(elf@) == Some(e),
            Ok(f) => {
                let (entry, segs) = elf_parsed(elf@)->Ok_0;
                &&& image_error(elf@) is None
                &&& f.image@ == flat(elf@, segs)
                &&& f.sha256@ == sha256::sha256(f.image@)
                &&& f.base == segs[0].vaddr
                &&& f.entry == entry
                &&& f.segments@ == rt_segments(segs)
            },
        },
{
    let (entry, segs) = match parse_elf(elf) {
        Ok(v) => v,
        Err(e) => {
            return Err(e);
        },
    };
    proof {
        lemma_parsed_ok(elf@);
        assert forall|i: int| 0 <= i < segs.len() implies (#[trigger] segs@[i]).vaddr
            + segs@[i].memsz <= u64::MAX by {
            assert(seg_ok(elf@, segs@[i]));
        }
    }
    let len = match check_placement(&segs, entry) {
        Ok(len) => len,
        Err(e) => {
            return Err(e);
        },
    };
    proof {
        assert forall|k: int| 0 <= k < segs@.len() implies (#[trigger] segs@[k]).memsz > 0 by {
            assert(seg_ok(elf@, segs@[k]));
        }
        lemma_placement(segs@, entry, 0, 0);
    }
    let image = flatten(elf, &segs, len as usize, Ghost(entry));
    let hash = sha256::digest(image.as_slice());
    let segments = to_rt_segments(&segs);
    Ok(FlatImage { image, sha256: hash, base: segs[0].vaddr, entry, segments })
}

} // verus!
