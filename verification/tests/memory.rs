use std::ops::Range;

use k0::mm::mem::{MemOp, PhysMem};
use k0::mm::paging::{self, KernelLayout, MmuError, Perm, Pool};
use k0::mm::user::{self, FrameAlloc, UserPerm, UserSpace};
use k0::mm::walk;
use k0::platform::Platform;

const OFFSET: u64 = 0xFFFF_0000_0000_0000;
const UXN: u64 = 1 << 54;
const PXN: u64 = 1 << 53;
const BASE: u64 = 0x400B_0000;
const MMFR0: u64 = 5 | 1 << 20;

fn shift(plat: Platform) -> (u64, u64) {
    match plat {
        Platform::Virt => (12, 9),
        Platform::Apple => (14, 11),
    }
}

fn lookup(m: &PhysMem, root: u64, va: u64) -> Option<u64> {
    let plat = m.plat();
    let (page, bits) = shift(plat);
    let mut table = root;
    for level in 0..4u64 {
        let i = ((va & 0xFFFF_FFFF_FFFF) >> (page + bits * (3 - level))) & ((1 << bits) - 1);
        assert_eq!(walk::index(plat, va, level), i as usize);
        let d = m.read(table, i as usize);
        if d == 0 {
            return None;
        }
        assert_eq!(d & 3, 3);
        if level == 3 {
            return Some(d);
        }
        table = d & 0xFFFF_FFFF_F000 & !(plat.granule() - 1);
    }
    None
}

fn layout(plat: Platform) -> KernelLayout {
    let g = plat.granule();
    KernelLayout {
        text: 0x4008_0000..0x4008_0000 + 2 * g,
        rodata: 0x4008_0000 + 2 * g..0x4008_0000 + 3 * g,
        rw: [0x4008_0000 + 3 * g..0x4008_0000 + 4 * g, 0x4008_0000 + 5 * g..0x4008_0000 + 6 * g],
        dtb: 0x4400_0100..0x4400_0100 + g,
        devices: [0x0900_0000..0x0900_0000 + g, 0..0, 0x0800_0000..0x0800_0000 + 2 * g],
    }
}

fn fresh(plat: Platform) -> (Pool, PhysMem) {
    (Pool::new(plat, BASE), PhysMem::new(plat))
}

#[test]
fn kernel_is_mapped_twice() {
    for plat in [Platform::Virt, Platform::Apple] {
        let g = plat.granule();
        let l = layout(plat);
        let (mut pool, mut m) = fresh(plat);
        let mmu = paging::enable_paging(&l, &mut pool, &mut m, MMFR0, 0x30D0_0800).unwrap();
        assert_eq!((mmu.ttbr0, mmu.ttbr1), (BASE, BASE + g));
        assert_eq!(mmu.mair, 0x04FF);
        assert_eq!(mmu.sctlr, 0x30D8_1805);
        assert!(pool.enabled);
        assert_eq!(pool.root1, BASE + g);
        let common = 0x703;
        let want: [(Range<u64>, u64); 7] = [
            (l.text.clone(), common | 0x80 | UXN),
            (l.rodata.clone(), common | 0x80 | UXN | PXN),
            (l.rw[0].clone(), common | UXN | PXN),
            (l.rw[1].clone(), common | UXN | PXN),
            (0x4400_0000..0x4400_0000 + 2 * g, common | 0x80 | UXN | PXN),
            (l.devices[0].clone(), 0x603 | 4 | UXN | PXN),
            (l.devices[2].clone(), 0x603 | 4 | UXN | PXN),
        ];
        for (r, attrs) in want {
            let mut at = r.start;
            while at < r.end {
                assert_eq!(lookup(&m, mmu.ttbr0, at), Some(at | attrs));
                assert_eq!(lookup(&m, mmu.ttbr1, at + OFFSET), Some(at | attrs));
                // nothing is writable and executable
                assert!(attrs & 0x80 != 0 || attrs & PXN != 0);
                assert!(attrs & UXN != 0);
                at += g;
            }
        }
        // the guard page below the stack, and what was not asked for
        for at in [0x4008_0000 + 4 * g, 0x4008_0000 - g, 0x4400_0000 + 2 * g, 0] {
            assert_eq!(lookup(&m, mmu.ttbr0, at), None);
            assert_eq!(lookup(&m, mmu.ttbr1, at + OFFSET), None);
        }
    }
}

#[test]
fn translation_control() {
    assert_eq!(paging::tcr(Platform::Virt, 5), 0x5_B510_3510);
    assert_eq!(paging::tcr(Platform::Apple, 1), 0x1_7510_B510);
    assert_eq!(paging::check_features(Platform::Virt, 0x3), Ok(3));
    assert_eq!(paging::check_features(Platform::Virt, 0x1000_0007), Ok(5));
    assert_eq!(
        paging::check_features(Platform::Virt, 0xF000_0000),
        Err(MmuError::GranuleUnsupported)
    );
    assert_eq!(paging::check_features(Platform::Apple, 0x10_0005), Ok(5));
    assert_eq!(paging::check_features(Platform::Apple, 0x20_0001), Ok(1));
    assert_eq!(paging::check_features(Platform::Apple, 5), Err(MmuError::GranuleUnsupported));
}

#[test]
fn bad_layouts_are_refused() {
    let plat = Platform::Virt;
    let err = |l: KernelLayout| {
        let (mut pool, mut m) = fresh(plat);
        let r = paging::enable_paging(&l, &mut pool, &mut m, MMFR0, 0).err();
        assert!(!pool.enabled);
        r
    };
    let mut l = layout(plat);
    l.text.start += 1;
    assert_eq!(err(l), Some(MmuError::Misaligned));
    let mut l = layout(plat);
    l.rodata.end -= 0x800;
    assert_eq!(err(l), Some(MmuError::Misaligned));
    let mut l = layout(plat);
    l.rw[1] = 0x5000..0x4000;
    assert_eq!(err(l), Some(MmuError::Misaligned));
    let mut l = layout(plat);
    l.rw[1].start -= 0x2000;
    assert_eq!(err(l), Some(MmuError::Overlap));
    let mut l = layout(plat);
    l.dtb = l.text.start..l.text.start + 8;
    assert_eq!(err(l), Some(MmuError::Overlap));
    let mut l = layout(plat);
    l.devices[1] = 0x4_0000_0000..0x4_4000_0000;
    assert_eq!(err(l), Some(MmuError::OutOfTables));
    let (mut pool, mut m) = fresh(plat);
    assert_eq!(
        paging::enable_paging(&layout(plat), &mut pool, &mut m, 0xF000_0000, 0).err(),
        Some(MmuError::GranuleUnsupported)
    );
}

#[test]
fn paging_is_enabled_once() {
    let plat = Platform::Virt;
    let (mut pool, mut m) = fresh(plat);
    paging::enable_paging(&layout(plat), &mut pool, &mut m, MMFR0, 0).unwrap();
    assert_eq!(
        paging::enable_paging(&layout(plat), &mut pool, &mut m, MMFR0, 0).err(),
        Some(MmuError::AlreadyEnabled)
    );
}

#[test]
fn windows_are_mapped_behind_the_kernel() {
    let plat = Platform::Virt;
    let (mut pool, mut m) = fresh(plat);
    let w = 0x4100_0000..0x4120_0000u64;
    assert_eq!(
        paging::map_kernel_window(w.clone(), &mut pool, &mut m),
        Err(MmuError::NotEnabled)
    );
    let mmu = paging::enable_paging(&layout(plat), &mut pool, &mut m, MMFR0, 0).unwrap();
    assert_eq!(paging::map_kernel_window(w.clone(), &mut pool, &mut m), Ok(()));
    for at in w.clone().step_by(0x1000) {
        let want = Some(at | 0x703 | UXN | PXN);
        assert_eq!(lookup(&m, mmu.ttbr1, at + OFFSET), want);
        assert_eq!(lookup(&m, mmu.ttbr0, at), None);
    }
    assert_eq!(lookup(&m, mmu.ttbr0, 0x4008_0000), Some(0x4008_0000 | 0x783 | UXN));
    for (bad, e) in [
        (w.clone(), MmuError::Overlap),
        (0x4300_0000..0x4300_0000, MmuError::Misaligned),
        (0x4300_1000..0x4300_0000, MmuError::Misaligned),
        (0x4300_0001..0x4300_1000, MmuError::Misaligned),
        (0x4300_0000..0x4300_0fff, MmuError::Misaligned),
        (0x8_0000_0000..0x8_4000_0000, MmuError::OutOfTables),
    ] {
        assert_eq!(paging::map_kernel_window(bad, &mut pool, &mut m), Err(e));
    }
}

#[test]
fn permissions_in_bits() {
    assert_eq!(Perm::Text.attrs(), 0x783 | UXN);
    assert_eq!(Perm::Ro.attrs(), 0x783 | UXN | PXN);
    assert_eq!(Perm::Rw.attrs(), 0x703 | UXN | PXN);
    assert_eq!(Perm::Device.attrs(), 0x607 | UXN | PXN);
    assert_eq!(UserPerm::TextUser.attrs(), 0x7C3 | PXN);
    assert_eq!(UserPerm::RoUser.attrs(), 0x7C3 | UXN | PXN);
    assert_eq!(UserPerm::RwUser.attrs(), 0x743 | UXN | PXN);
}

#[test]
fn error_numbers() {
    let all = [
        MmuError::AlreadyEnabled,
        MmuError::NotEnabled,
        MmuError::GranuleUnsupported,
        MmuError::OutOfTables,
        MmuError::OutOfFrames,
        MmuError::Misaligned,
        MmuError::Overlap,
        MmuError::NullPage,
        MmuError::BadTable,
        MmuError::MissingTable,
    ];
    for (i, e) in all.iter().enumerate() {
        assert_eq!(e.code(), i as u64);
    }
}

#[test]
fn frames_come_cleared_and_in_order() {
    let plat = Platform::Apple;
    let mut m = PhysMem::new(plat);
    let mut fa = FrameAlloc::new(plat, 0x4100_0000..0x4104_0000).ok().unwrap();
    assert_eq!(fa.used(), 0x4100_0000..0x4100_0000);
    assert_eq!(fa.alloc_one(&mut m), Ok(0x4100_0000));
    assert_eq!(fa.alloc_contig(3, &mut m), Ok(0x4100_4000));
    assert_eq!(fa.used(), 0x4100_0000..0x4101_0000);
    for f in [0x4100_0000, 0x4100_4000, 0x4100_C000] {
        assert!(m.has(f));
        assert_eq!(m.read(f, 2047), 0);
    }
    assert!(!m.has(0x4101_0000));
    assert_eq!(fa.alloc_contig(0, &mut m), Err(MmuError::OutOfFrames));
    assert_eq!(fa.alloc_contig(13, &mut m), Err(MmuError::OutOfFrames));
    assert_eq!(fa.alloc_contig(u64::MAX, &mut m), Err(MmuError::OutOfFrames));
    assert_eq!(fa.alloc_contig(12, &mut m), Ok(0x4101_0000));
    assert_eq!(fa.alloc_one(&mut m), Err(MmuError::OutOfFrames));
    let bad = |w: Range<u64>| FrameAlloc::new(plat, w).err();
    assert_eq!(bad(0x4000..0x4000), Some(MmuError::Misaligned));
    assert_eq!(bad(0x8000..0x4000), Some(MmuError::Misaligned));
    assert_eq!(bad(0x4001..0x8000), Some(MmuError::Misaligned));
    assert_eq!(bad(0x4000..0x8001), Some(MmuError::Misaligned));
}

fn space(plat: Platform, frames: u64) -> (FrameAlloc, PhysMem, UserSpace) {
    let g = plat.granule();
    let mut m = PhysMem::new(plat);
    let mut fa = FrameAlloc::new(plat, 0x4100_0000..0x4100_0000 + frames * g).ok().unwrap();
    let us = UserSpace::new(&mut fa, &mut m).ok().unwrap();
    (fa, m, us)
}

#[test]
fn user_ranges_are_mapped_page_by_page() {
    for plat in [Platform::Virt, Platform::Apple] {
        let g = plat.granule();
        let (mut fa, mut m, mut us) = space(plat, 16);
        let root = us.root_pa();
        assert_eq!(root, 0x4100_0000);
        let perm = UserPerm::RwUser;
        assert_eq!(us.map_range(&mut fa, &mut m, 4 * g, 0x5000_0000, 3 * g, perm), Ok(()));
        for i in 0..3 {
            assert_eq!(
                lookup(&m, root, (4 + i) * g),
                Some((0x5000_0000 + i * g) | UserPerm::RwUser.attrs())
            );
        }
        assert_eq!(lookup(&m, root, 3 * g), None);
        assert_eq!(lookup(&m, root, 7 * g), None);
        // a root, and a table on each of the three levels below
        assert_eq!(fa.used(), 0x4100_0000..0x4100_0000 + 4 * g);
        let mut r = |va: u64, pa: u64, len: u64| us.map_range(&mut fa, &mut m, va, pa, len, perm);
        assert_eq!(r(g + 1, 0, g), Err(MmuError::Misaligned));
        assert_eq!(r(g, 1, g), Err(MmuError::Misaligned));
        assert_eq!(r(g, 0, g + 1), Err(MmuError::Misaligned));
        assert_eq!(r(g, 0, 0), Err(MmuError::Misaligned));
        assert_eq!(r(0, 0, g), Err(MmuError::NullPage));
        assert_eq!(r((1 << 48) - g, 0, 2 * g), Err(MmuError::Misaligned));
        assert_eq!(r(u64::MAX - g + 1, 0, g), Err(MmuError::Misaligned));
        assert_eq!(r(6 * g, 0, g), Err(MmuError::Overlap));
        assert_eq!(r((1 << 48) - g, 0x6000_0000, g), Ok(()));
    }
}

#[test]
fn user_tables_can_run_out() {
    let (mut fa, mut m, mut us) = space(Platform::Virt, 3);
    let r = us.map_range(&mut fa, &mut m, 0x1000, 0x5000_0000, 0x1000, UserPerm::RoUser);
    assert_eq!(r, Err(MmuError::OutOfFrames));
}

#[test]
fn tables_and_frames_are_put_in_by_hand() {
    let (mut fa, mut m, us) = space(Platform::Virt, 16);
    let root = us.root_pa();
    let va = 0x2000_0000;
    let perm = UserPerm::RoUser;
    let frame = fa.alloc_one(&mut m).unwrap();
    for level in 1..=3 {
        assert_eq!(
            user::user_map_frame(&mut m, root, va, frame, perm),
            Err(MmuError::MissingTable)
        );
        let table = fa.alloc_one(&mut m).unwrap();
        assert_eq!(user::user_install_table(&mut m, root, va, table), Ok(level));
    }
    let table = fa.alloc_one(&mut m).unwrap();
    assert_eq!(user::user_install_table(&mut m, root, va, table), Err(MmuError::Overlap));
    assert_eq!(user::user_install_table(&mut m, root, 0, table), Err(MmuError::NullPage));
    assert_eq!(user::user_install_table(&mut m, root, va + 8, table), Err(MmuError::Misaligned));
    assert_eq!(user::user_map_frame(&mut m, root, va, frame, perm), Ok(()));
    assert_eq!(lookup(&m, root, va), Some(frame | UserPerm::RoUser.attrs()));
    assert_eq!(user::user_map_frame(&mut m, root, va, frame, perm), Err(MmuError::Overlap));
    assert_eq!(user::user_map_frame(&mut m, root, 0, frame, perm), Err(MmuError::NullPage));
    assert_eq!(
        user::user_map_frame(&mut m, root, 1 << 48, frame, perm),
        Err(MmuError::Misaligned)
    );
    // the table that was refused is as it was
    assert!((0..512).all(|i| m.read(table, i) == 0));
}

#[test]
fn one_space_does_not_show_in_another() {
    let plat = Platform::Virt;
    let (mut fa, mut m, mut one) = space(plat, 32);
    let mut two = UserSpace::new(&mut fa, &mut m).ok().unwrap();
    let perm = UserPerm::RwUser;
    one.map_range(&mut fa, &mut m, 0x1000, 0x5000_0000, 0x1000, perm).ok().unwrap();
    assert_eq!(lookup(&m, two.root_pa(), 0x1000), None);
    two.map_range(&mut fa, &mut m, 0x1000, 0x6000_0000, 0x1000, perm).ok().unwrap();
    assert_eq!(lookup(&m, one.root_pa(), 0x1000), Some(0x5000_0000 | perm.attrs()));
    assert_eq!(lookup(&m, two.root_pa(), 0x1000), Some(0x6000_0000 | perm.attrs()));
}

#[test]
fn memory_keeps_a_journal() {
    let mut m = PhysMem::new(Platform::Virt);
    m.zero(0x4000_0000);
    m.write(0x4000_0000, 3, 77);
    assert_eq!(m.read(0x4000_0000, 3), 77);
    assert_eq!(m.read(0x4000_0000, 4), 0);
    assert_eq!(
        m.take_journal(),
        vec![
            MemOp::Zero { frame: 0x4000_0000 },
            MemOp::Write { frame: 0x4000_0000, index: 3, value: 77 },
        ]
    );
    assert_eq!(m.take_journal(), vec![]);
    m.zero(0x4000_0000);
    assert_eq!(m.read(0x4000_0000, 3), 0);
    assert_eq!(m.take_journal(), vec![MemOp::Zero { frame: 0x4000_0000 }]);
}
