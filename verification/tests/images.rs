use k0::boot::entropy;
use k0::boot::image::{self, ElfSeg, ImageError};
use k0::boot::roottask::{self, RootTask, RtSegKind, RtSegment, VerifyError};
use sha2::{Digest, Sha256};

const ABC_DIGEST: [u8; 32] = [
    0xba, 0x78, 0x16, 0xbf, 0x8f, 0x01, 0xcf, 0xea, 0x41, 0x41, 0x40, 0xde, 0x5d, 0xae, 0x22, 0x23,
    0xb0, 0x03, 0x61, 0xa3, 0x96, 0x17, 0x7a, 0x9c, 0xb4, 0x10, 0xff, 0x61, 0xf2, 0x00, 0x15, 0xad,
];
const EMPTY_DIGEST: [u8; 32] = [
    0xe3, 0xb0, 0xc4, 0x42, 0x98, 0xfc, 0x1c, 0x14, 0x9a, 0xfb, 0xf4, 0xc8, 0x99, 0x6f, 0xb9, 0x24,
    0x27, 0xae, 0x41, 0xe4, 0x64, 0x9b, 0x93, 0x4c, 0xa4, 0x95, 0x99, 0x1b, 0x78, 0x52, 0xb8, 0x55,
];

fn task<'a>(image: &'a [u8], sha256: [u8; 32], segments: &'a [RtSegment]) -> RootTask<'a> {
    RootTask { image, sha256, base: 0x40_0000, entry: 0x40_0004, segments }
}

#[test]
fn known_digests_are_accepted() {
    let segs = [RtSegment { va: 0x40_0000, memsz: 3, kind: RtSegKind::Text }];
    let rt = task(b"abc", ABC_DIGEST, &segs);
    let v = roottask::verify_root_task(&rt).unwrap();
    assert_eq!(v.image, b"abc");
    assert_eq!(v.sha256, ABC_DIGEST);
    assert_eq!(v.base, 0x40_0000);
    assert_eq!(v.entry, 0x40_0004);
    assert_eq!(v.segments, &segs);
    assert!(roottask::verify_root_task(&task(b"", EMPTY_DIGEST, &[])).is_ok());
}

#[test]
fn changed_images_are_rejected() {
    assert_eq!(
        roottask::verify_root_task(&task(b"abd", ABC_DIGEST, &[])).err(),
        Some(VerifyError::HashMismatch)
    );
    for i in 0..32 {
        let mut h = ABC_DIGEST;
        h[i] ^= 1;
        assert!(roottask::verify_root_task(&task(b"abc", h, &[])).is_err());
        assert!(roottask::accept_root_task(&task(b"abc", ABC_DIGEST, &[]), h).is_err());
    }
    assert!(roottask::accept_root_task(&task(b"abc", ABC_DIGEST, &[]), ABC_DIGEST).is_ok());
}

#[test]
fn keys_come_from_the_seed_and_the_extra_words() {
    let seed = [0xAB; 32];
    let extra = [0x1122_3344_5566_7788u64, 99];
    let mut want = Vec::new();
    for counter in 0u8..3 {
        let mut h = Sha256::new();
        h.update(b"k0-pac-boot-key-v1");
        h.update([counter]);
        h.update(32u64.to_le_bytes());
        h.update(seed);
        for w in extra {
            h.update(w.to_le_bytes());
        }
        for chunk in h.finalize().chunks_exact(8) {
            let mut w = [0; 8];
            w.copy_from_slice(chunk);
            want.push(u64::from_le_bytes(w));
        }
    }
    let keys = entropy::derive_pac_keys(&seed, &extra);
    assert_eq!(&keys[..], &want[..10]);
    // every ingredient counts
    assert_ne!(entropy::derive_pac_keys(&[0xAB; 31], &extra), keys);
    assert_ne!(entropy::derive_pac_keys(&seed, &extra[..1]), keys);
    assert_ne!(entropy::derive_pac_keys(&[], &extra), keys);
}

#[test]
fn block_message_is_laid_out() {
    let m = entropy::block_message(2, &[5, 6], &[1]);
    let mut want = b"k0-pac-boot-key-v1".to_vec();
    want.push(2);
    want.extend_from_slice(&[2, 0, 0, 0, 0, 0, 0, 0, 5, 6, 1, 0, 0, 0, 0, 0, 0, 0]);
    assert_eq!(m, want);
    let mut b = [[0u8; 32]; 3];
    for (i, block) in b.iter_mut().enumerate() {
        for (j, byte) in block.iter_mut().enumerate() {
            *byte = (32 * i + j) as u8;
        }
    }
    let keys = entropy::keys_from_blocks(&b[0], &b[1], &b[2]);
    assert_eq!(keys[0], 0x0706050403020100);
    assert_eq!(keys[4], 0x2726252423222120);
    assert_eq!(keys[9], 0x4f4e4d4c4b4a4948);
}

struct Ph {
    kind: u32,
    flags: u32,
    offset: u64,
    vaddr: u64,
    filesz: u64,
    memsz: u64,
}

fn load(flags: u32, offset: u64, vaddr: u64, filesz: u64, memsz: u64) -> Ph {
    Ph { kind: 1, flags, offset, vaddr, filesz, memsz }
}

fn elf(entry: u64, phs: &[Ph], data: &[u8]) -> Vec<u8> {
    let mut f = vec![0u8; 64];
    f[0..4].copy_from_slice(&[0x7F, b'E', b'L', b'F']);
    f[4] = 2;
    f[5] = 1;
    f[16] = 2;
    f[18] = 183;
    f[24..32].copy_from_slice(&entry.to_le_bytes());
    f[32] = 64;
    f[54] = 56;
    f[56] = phs.len() as u8;
    for p in phs {
        f.extend_from_slice(&p.kind.to_le_bytes());
        f.extend_from_slice(&p.flags.to_le_bytes());
        f.extend_from_slice(&p.offset.to_le_bytes());
        f.extend_from_slice(&p.vaddr.to_le_bytes());
        f.extend_from_slice(&p.vaddr.to_le_bytes());
        f.extend_from_slice(&p.filesz.to_le_bytes());
        f.extend_from_slice(&p.memsz.to_le_bytes());
        f.extend_from_slice(&0x4000u64.to_le_bytes());
    }
    f.extend_from_slice(data);
    f
}

fn err(f: &[u8]) -> ImageError {
    match image::flat_image(f) {
        Ok(_) => panic!("accepted"),
        Err(e) => e,
    }
}

fn good() -> Vec<u8> {
    // one unrelated header, and the segments given from the top down
    let data: Vec<u8> = (1..=12).collect();
    let at = 64 + 4 * 56;
    let note = Ph { kind: 4, flags: 0, offset: u64::MAX, vaddr: 1, filesz: 9, memsz: 3 };
    elf(
        0x40_0002,
        &[
            load(6, at + 8, 0x40_8000, 4, 0x20),
            note,
            load(4, at + 4, 0x40_4000, 4, 4),
            load(5, at, 0x40_0000, 4, 0x10),
        ],
        &data,
    )
}

#[test]
fn executable_becomes_a_flat_image() {
    let f = image::flat_image(&good()).unwrap();
    assert_eq!(f.base, 0x40_0000);
    assert_eq!(f.entry, 0x40_0002);
    assert_eq!(f.image.len(), 0xC000);
    let mut want = vec![0u8; 0xC000];
    want[0..4].copy_from_slice(&[1, 2, 3, 4]);
    want[0x4000..0x4004].copy_from_slice(&[5, 6, 7, 8]);
    want[0x8000..0x8004].copy_from_slice(&[9, 10, 11, 12]);
    assert_eq!(f.image, want);
    assert_eq!(
        f.segments,
        vec![
            RtSegment { va: 0x40_0000, memsz: 0x10, kind: RtSegKind::Text },
            RtSegment { va: 0x40_4000, memsz: 4, kind: RtSegKind::Ro },
            RtSegment { va: 0x40_8000, memsz: 0x20, kind: RtSegKind::Rw },
        ]
    );
    let hash: [u8; 32] = Sha256::digest(&want).into();
    assert_eq!(f.sha256, hash);
    let rt = RootTask {
        image: &f.image,
        sha256: f.sha256,
        base: f.base,
        entry: f.entry,
        segments: &f.segments,
    };
    assert!(roottask::verify_root_task(&rt).is_ok());
}

#[test]
fn segments_are_listed_in_order() {
    let (entry, segs) = image::parse_elf(&good()).unwrap();
    assert_eq!(entry, 0x40_0002);
    let at = 64 + 4 * 56;
    assert_eq!(
        segs,
        vec![
            ElfSeg { vaddr: 0x40_0000, offset: at, filesz: 4, memsz: 0x10, flags: 5 },
            ElfSeg { vaddr: 0x40_4000, offset: at + 4, filesz: 4, memsz: 4, flags: 4 },
            ElfSeg { vaddr: 0x40_8000, offset: at + 8, filesz: 4, memsz: 0x20, flags: 6 },
        ]
    );
}

#[test]
fn file_header_errors() {
    assert_eq!(err(&good()[..63]), ImageError::HeaderTruncated);
    for (at, e) in [
        (1, ImageError::BadMagic),
        (4, ImageError::BadClass),
        (5, ImageError::BadData),
        (18, ImageError::BadMachine),
        (16, ImageError::BadType),
        (54, ImageError::BadPhentsize),
        (57, ImageError::TableTruncated),
        (39, ImageError::TableTruncated),
    ] {
        let mut f = good();
        f[at] ^= 0x80;
        assert_eq!(err(&f), e);
    }
}

#[test]
fn segment_errors() {
    let one = |p: Ph| err(&elf(0x40_0000, &[p], &[]));
    assert_eq!(one(load(5, 0, 0x40_0000, 5, 4)), ImageError::FileExceedsMemory);
    assert_eq!(one(load(5, 100, 0x40_0000, 21, 21)), ImageError::SegmentTruncated);
    assert_eq!(one(load(5, u64::MAX, 0x40_0000, 4, 4)), ImageError::SegmentTruncated);
    assert_eq!(one(load(5, 0, u64::MAX, 0, 4)), ImageError::AddressOverflow);
    assert_eq!(one(load(5, 0, 0x40_0000, 0, 0)), ImageError::NoSegment);
    assert_eq!(err(&elf(0, &[], &[])), ImageError::NoSegment);
}

#[test]
fn placement_errors() {
    let text = || load(5, 0, 0x40_0000, 4, 4);
    let entry = 0x40_0000;
    let two = |p: Ph| err(&elf(entry, &[text(), p], &[]));
    assert_eq!(err(&elf(entry, &[load(5, 0, 0x40_1000, 4, 4)], &[])), ImageError::BaseMisaligned);
    assert_eq!(two(load(6, 0, 0x40_5000, 4, 4)), ImageError::SegmentMisaligned);
    assert_eq!(two(load(6, 0, 0x40_0000, 4, 4)), ImageError::SegmentOverlap);
    assert_eq!(two(load(7, 0, 0x40_4000, 4, 4)), ImageError::WriteExecute);
    assert_eq!(two(load(3, 0, 0x40_4000, 4, 4)), ImageError::WriteExecute);
    assert_eq!(two(load(6, 0, 0x50_0000, 4, 4)), ImageError::TooLarge);
    assert_eq!(err(&elf(0x40_0004, &[text()], &[])), ImageError::EntryOutsideText);
    assert_eq!(err(&elf(entry, &[load(4, 0, entry, 4, 4)], &[])), ImageError::EntryOutsideText);
    let many: Vec<Ph> = (0..5).map(|i| load(5, 0, 0x40_0000 + i * 0x4000, 4, 4)).collect();
    assert_eq!(err(&elf(entry, &many, &[])), ImageError::TooManySegments);
    assert_eq!(image::flat_image(&elf(entry, &many[..4], &[])).unwrap().image.len(), 0x1_0000);
}
