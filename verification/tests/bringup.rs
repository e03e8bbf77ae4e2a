use std::ops::Range;

use k0::arch::earlycon::EarlyCon;
use k0::arch::hardening::Hardening;
use k0::arch::irq::{Irq, IrqError};
use k0::boot::entropy;
use k0::boot::fdt::{BootInfo, MemRegion};
use k0::boot::roottask::{RootTask, RtSegKind, RtSegment, VerifiedRootTask};
use k0::cap;
use k0::kernel::bootinfo;
use k0::kernel::init::{self, Image};
use k0::kernel::memmap;
use k0::kernel::report;
use k0::kernel::selfcheck::{self, Access};
use k0::kernel::start::{self, StartError};
use k0::mm::mem::PhysMem;
use k0::mm::paging::{MmuError, Pool};
use k0::platform::Platform;
use k0::task::spawn::{self, LoadSeg, SegKind, SpawnError};

const VIRT: Platform = Platform::Virt;

fn said(con: &mut EarlyCon) -> String {
    String::from_utf8(con.take()).unwrap()
}

fn region(base: u64, size: u64) -> MemRegion {
    MemRegion { base, size }
}

fn info(memory: &[MemRegion], reserved: &[MemRegion], dtb: Range<usize>) -> BootInfo {
    BootInfo { dtb, regions: memory.to_vec(), rsv: reserved.to_vec(), seed: Vec::new() }
}

#[test]
fn devices_of_the_platforms() {
    assert_eq!(
        memmap::device_windows(VIRT),
        [0x0900_0000..0x0900_1000, 0x0800_0000..0x0801_0000, 0x080A_0000..0x080C_0000]
    );
    assert_eq!(
        memmap::device_windows(Platform::Apple),
        [0x2_3520_0000..0x2_3520_4000, 0..0, 0..0]
    );
}

#[test]
fn memory_must_not_be_a_device() {
    let mut con = EarlyCon::new(VIRT);
    let good = info(
        &[region(0x4000_0000, 0x1000), region(0x0900_1000, 0x1000), region(0x0800_0000 - 16, 16)],
        &[],
        0..0,
    );
    assert!(memmap::check_memory_map(&mut con, VIRT, &good));
    assert_eq!(said(&mut con), "");
    let bad = info(&[region(0x4000_0000, 0x1000), region(0x0800_FFFF, 2)], &[], 0..0);
    assert!(!memmap::check_memory_map(&mut con, VIRT, &bad));
    assert_eq!(
        said(&mut con),
        "k0: dtb memory 0x800ffff + 0x2 overlaps device window 0x8000000\r\n"
    );
    assert!(memmap::check_memory_map(&mut con, Platform::Apple, &bad));
    // the console comes first
    let all = info(&[region(0, 0x1_0000_0000)], &[], 0..0);
    assert!(!memmap::check_memory_map(&mut con, VIRT, &all));
    assert_eq!(
        said(&mut con),
        "k0: dtb memory 0x0 + 0x100000000 overlaps device window 0x9000000\r\n"
    );
}

#[test]
fn window_lies_behind_the_kernel() {
    let mem = [region(0x4000_0000, 0x800_0000)];
    let kernel = 0x4008_0000..0x4010_0001;
    let pick = |i: &BootInfo, k: &Range<usize>| memmap::pick_window(VIRT, i, k);
    let far = 0x4700_0000..0x4700_1000;
    let i = info(&mem, &[], far.clone());
    assert_eq!(pick(&i, &kernel), Some(0x4010_1000..0x4030_1000));
    // the device tree is in the way
    let i = info(&mem, &[], 0x4030_0000..0x4030_0010);
    assert_eq!(pick(&i, &kernel), Some(0x4030_1000..0x4050_1000));
    // so is reserved memory, in any order
    let rsv = [region(0x4060_0000, 0x100), region(0x4020_0000, 0x30_0000)];
    let i = info(&mem, &rsv, far.clone());
    assert_eq!(pick(&i, &kernel), Some(0x4060_1000..0x4080_1000));
    // another piece of memory has to do
    let two = [region(0x8000_0800, 0x40_0000), region(0x4000_0000, 0x20_0000)];
    let i = info(&two, &[], far.clone());
    assert_eq!(pick(&i, &kernel), Some(0x8000_1000..0x8020_1000));
    // there is none
    let i = info(&[region(0x4000_0000, 0x20_0000)], &[], far.clone());
    assert_eq!(pick(&i, &kernel), None);
    let i = info(&mem, &[], far);
    assert_eq!(pick(&i, &(0..0x4800_0000)), None);
    assert_eq!(pick(&i, &(0..usize::MAX)), None);
    assert_eq!(
        memmap::pick_window(Platform::Apple, &i, &kernel),
        Some(0x4010_4000..0x4030_4000)
    );
}

#[test]
fn probes_of_the_kernel() {
    let k = 0xFFFF_0000_4008_0000u64;
    let probes = selfcheck::kernel_probes(VIRT, k, k + 0x1_0000, k + 0x4_0000, k + 0x5_0000);
    let got: Vec<(&str, Access, u64, bool)> =
        probes.iter().map(|p| (p.name, p.access, p.va, p.want)).collect();
    assert_eq!(
        got,
        vec![
            ("text+r", Access::Read, k, true),
            ("text+w", Access::Write, k, false),
            ("rodata+w", Access::Write, k + 0x1_0000, false),
            ("guard+r", Access::Read, k + 0x3_F000, false),
            ("stack+w", Access::Write, k + 0x4_F000, true),
            ("id+r", Access::Read, 0x4008_0000, true),
        ]
    );
    let mut con = EarlyCon::new(VIRT);
    let mut answers: Vec<bool> = probes.iter().map(|p| p.want).collect();
    assert!(selfcheck::check_wx(&mut con, VIRT, &probes, &answers));
    assert_eq!(said(&mut con), "k0: w^x checks pass (granule 4K, wxn)\r\n");
    answers[1] = true;
    answers[5] = false;
    assert!(!selfcheck::check_wx(&mut con, VIRT, &probes, &answers));
    assert_eq!(
        said(&mut con),
        "k0: w^x check fail: text+w (got true, want false)\r\n\
         k0: w^x check fail: id+r (got false, want true)\r\n"
    );
    assert!(selfcheck::translated(0x4000_0F80));
    assert!(!selfcheck::translated(0x0000_080F));
}

#[test]
fn probes_of_user_space() {
    let k = 0xFFFF_0000_4008_0000u64;
    let segs = [
        LoadSeg { va: 0x40_4000, memsz: 8, kind: SegKind::Rw },
        LoadSeg { va: 0x40_0000, memsz: 8, kind: SegKind::Text },
    ];
    let probes = selfcheck::user_probes(VIRT, &segs, k, true).unwrap();
    let got: Vec<(&str, Access, u64, bool)> =
        probes.iter().map(|p| (p.name, p.access, p.va, p.want)).collect();
    assert_eq!(
        got,
        vec![
            ("utext+r", Access::UserRead, 0x40_0000, true),
            ("utext+w", Access::UserWrite, 0x40_0000, false),
            ("ustack+w", Access::UserWrite, 0x0FFF_F000, true),
            ("uguard+r", Access::UserRead, 0x0FFE_F000, false),
            ("ktext+u", Access::UserRead, k, false),
            ("binfo+r", Access::UserRead, 0x0F00_0000, true),
            ("binfo+w", Access::UserWrite, 0x0F00_0000, false),
            ("utext+kp", Access::ReadPan, 0x40_0000, false),
            ("id+r", Access::Read, 0x4008_0000, false),
        ]
    );
    let probes = selfcheck::user_probes(VIRT, &segs, k, false).unwrap();
    assert_eq!(
        (probes[7].name, probes[7].access, probes[7].want),
        ("utext+k", Access::Read, true)
    );
    assert!(selfcheck::user_probes(VIRT, &segs[..1], k, true).is_none());
    assert_eq!(spawn::USER_STACK_TOP - spawn::USER_STACK_SIZE, 0x0FFF_0000);
}

fn image() -> Image {
    let text = 0x4008_0000;
    Image {
        text,
        rodata: text + 0x1_0000,
        data: text + 0x2_0000,
        tables: text + 0x3_0000,
        root_tcb: text + 0x2_0000,
        stack_bottom: text + 0x6_0000,
        stack_top: text + 0x7_0000,
        end: text + 0x7_0000,
    }
}

fn head(total: u32) -> Vec<u8> {
    let mut h = 0xd00dfeedu32.to_be_bytes().to_vec();
    h.extend_from_slice(&total.to_be_bytes());
    h
}

#[test]
fn first_phase_of_the_kernel() {
    let i = image();
    let run = |dtb: usize, head: &[u8], mmfr0: u64| {
        let mut con = EarlyCon::new(VIRT);
        let mut pool = Pool::new(VIRT, i.tables);
        let mut m = PhysMem::new(VIRT);
        let r = init::kernel_init(&mut con, VIRT, dtb, head, &i, &mut pool, &mut m, mmfr0, 1 << 7);
        (r, said(&mut con), pool.enabled)
    };
    let (r, text, on) = run(0x4400_0000, &head(0x2345), 5);
    let mmu = r.unwrap();
    assert_eq!(mmu.sctlr, 0x8_1085);
    assert!(on);
    assert!(text.ends_with("k0: jumping to higher half\r\n"));
    let (r, text, _) = run(0x4400_0000, &[0; 8], 5);
    assert!(r.is_none());
    assert_eq!(
        text,
        "k0: entry phase 1 (pre-MMU)\r\n\
         k0: dtb = 0x0000000044000000\r\n\
         k0: dtb header rejected, code = 0x0000000000000002\r\n"
    );
    let (r, text, on) = run(0x4400_0000, &head(0x1000), 0xF000_0005);
    assert!(r.is_none());
    assert!(!on);
    assert_eq!(
        text,
        "k0: entry phase 1 (pre-MMU)\r\n\
         k0: dtb = 0x0000000044000000\r\n\
         k0: mmu enable failed, code = 0x0000000000000002\r\n"
    );
    // a device tree in the kernel image
    let (r, text, _) = run(0x4008_0000, &head(0x1000), 5);
    assert!(r.is_none());
    assert!(text.ends_with("k0: mmu enable failed, code = 0x0000000000000006\r\n"));
}

#[test]
fn layout_leaves_the_guard_out() {
    let i = image();
    let l = init::kernel_layout(VIRT, &i, &(0x4400_0000..0x4400_0100));
    assert_eq!(l.text, 0x4008_0000..0x4009_0000);
    assert_eq!(l.rodata, 0x4009_0000..0x400A_0000);
    assert_eq!(l.rw, [0x400A_0000..0x400D_F000, 0x400E_0000..0x400F_0000]);
    assert_eq!(l.dtb, 0x4400_0000..0x4400_0100);
    assert_eq!(l.devices, memmap::device_windows(VIRT));
}

#[test]
fn examination_stops_at_the_first_fault() {
    let segs = [RtSegment { va: 0x40_0000, memsz: 4, kind: RtSegKind::Text }];
    let rt = RootTask {
        image: b"code",
        sha256: [0; 32],
        base: 0x40_0000,
        entry: 0x40_0000,
        segments: &segs,
    };
    let mut con = EarlyCon::new(VIRT);
    let kernel = 0x4008_0000..0x4010_0000;
    let r = start::examine(&mut con, VIRT, 0x4400_0000, kernel, 0, &[0; 40], &rt);
    assert!(r.is_none());
    assert_eq!(said(&mut con), "k0: dtb rejected: BadMagic\r\n");
}

#[test]
fn hardening_takes_keys_from_the_seed() {
    let mut con = EarlyCon::new(VIRT);
    let mut i = info(&[], &[], 0..0);
    i.seed = vec![1, 2, 3];
    let plan = start::harden(&mut con, &i, 77, Some(5), 1 << 4, 1, 2 << 20, 0);
    let keys = entropy::derive_pac_keys(&[1, 2, 3], &[77, 5]);
    assert_eq!(&plan.addr_keys.unwrap()[..], &keys[..8]);
    assert_eq!(
        said(&mut con),
        "k0: entropy dtb=3B rndr=on\r\nk0: pac=on bti=present pan=on\r\n"
    );
    i.seed = Vec::new();
    let plan = start::harden(&mut con, &i, 77, None, 0, 0, 0, 0);
    assert!(plan.addr_keys.is_none());
    assert_eq!(
        said(&mut con),
        "k0: entropy dtb=0B rndr=absent\r\n\
         k0: WARNING pac key entropy low (cntpct only)\r\n\
         k0: pac=absent bti=absent pan=absent\r\n"
    );
    let plan = start::harden(&mut con, &i, 77, None, 1 << 4, 0, 0, 0);
    assert_eq!(&plan.addr_keys.unwrap()[..], &entropy::derive_pac_keys(&[], &[77, 0])[..8]);
}

#[test]
fn interrupts_are_announced() {
    let mut con = EarlyCon::new(VIRT);
    assert!(start::announce_irq(&mut con, &Ok(Irq { unmask: 6 })));
    assert_eq!(said(&mut con), "k0: irq on (timer 1s)\r\n");
    assert!(!start::announce_irq(&mut con, &Err(IrqError::GicWakeTimeout)));
    assert_eq!(said(&mut con), "k0: irq init failed: GicWakeTimeout\r\n");
}

#[test]
fn report_lines() {
    let mut con = EarlyCon::new(VIRT);
    report::say_arrival(&mut con, 0xFFFF_0000_4008_1234);
    assert_eq!(said(&mut con), "k0: higher half (pc = 0xffff000040081234)\r\n");
    report::say_no_text(&mut con);
    assert_eq!(said(&mut con), "k0: user w^x check fail: no text segment\r\n");
    report::say_entering(&mut con);
    assert_eq!(said(&mut con), "k0: entering root task (el0)\r\n");
    report::say_failure(&mut con, "k0: window map failed: ", report::mmu_error_name(MmuError::Overlap));
    assert_eq!(said(&mut con), "k0: window map failed: Overlap\r\n");
    report::say_spawn_failure(&mut con, SpawnError::BadLayout);
    report::say_spawn_failure(&mut con, SpawnError::Mmu(MmuError::OutOfFrames));
    assert_eq!(
        said(&mut con),
        "k0: root task spawn failed: BadLayout\r\n\
         k0: root task spawn failed: Mmu(OutOfFrames)\r\n"
    );
    let mut hash = [0u8; 32];
    hash[..4].copy_from_slice(&[0x0A, 0xB0, 0x00, 0xFF]);
    report::say_integrity(&mut con, 16384, &hash);
    assert_eq!(
        said(&mut con),
        "k0: root task integrity ok (16384 bytes, sha256 0ab000ff..)\r\n"
    );
    report::say_hardening(&mut con, &Hardening { pac: false, bti: true, pan: false, pan2: false });
    assert_eq!(said(&mut con), "k0: pac=absent bti=present pan=absent\r\n");
    report::say_regions(&mut con, "k0: memory ", &[region(1, 2), region(0x10, 0x20)]);
    assert_eq!(said(&mut con), "k0: memory 0x1 + 0x2\r\nk0: memory 0x10 + 0x20\r\n");
    report::say_loaded(&mut con, 0x40, 0x50);
    assert_eq!(said(&mut con), "k0: root task loaded (entry 0x40, ttbr0 0x50)\r\n");
    let c = cap::bootstrap(&[cap::PhysRegion { base: 0x1000, size: 0x2000 }], &[], 0).ok().unwrap();
    report::say_caps(&mut con, &c);
    assert_eq!(
        said(&mut con),
        "k0: untyped 0x1000 + 0x2000\r\nk0: root cnode ready (5 caps, 1 untyped)\r\n"
    );
}

#[test]
fn bootinfo_page_in_words() {
    let mut m = PhysMem::new(VIRT);
    m.zero(0x4100_0000);
    let mem = [cap::PhysRegion { base: 0x1000, size: 0x4000 }];
    let mut c = cap::bootstrap(&mem, &[], 0x77_0000).ok().unwrap();
    for kind in [cap::ObjKind::Frame, cap::ObjKind::PageTable, cap::ObjKind::Tcb, cap::ObjKind::Endpoint] {
        c.retype(4, kind, 0x1000, |_| true).ok().unwrap();
    }
    bootinfo::write_bootinfo(0x4100_0000, &c, &mut m);
    let words: Vec<u64> = (0..33).map(|i| m.read(0x4100_0000, i)).collect();
    assert_eq!(&words[..3], &[1, 0x1000, 9]);
    let kinds: Vec<u64> = (0..9).map(|i| words[3 + 3 * i]).collect();
    assert_eq!(kinds, vec![0, 1, 2, 7, 3, 4, 5, 1, 6]);
    for i in 0..9 {
        let place = (words[4 + 3 * i], words[5 + 3 * i]);
        assert_eq!(place, if i == 4 { (0x1000, 0x4000) } else { (0, 0) });
    }
    assert_eq!(&words[30..], &[0, 0, 0]);
}

fn started(
    i: &BootInfo,
    rt: &VerifiedRootTask,
    img: &Image,
) -> Result<String, (String, StartError)> {
    let mut con = EarlyCon::new(VIRT);
    let mut pool = Pool::new(VIRT, img.tables);
    let mut m = PhysMem::new(VIRT);
    let mmu = init::kernel_init(
        &mut con, VIRT, 0x4400_0000, &head(0x1000), img, &mut pool, &mut m, 5, 0,
    );
    assert!(mmu.is_some());
    con.take();
    let range = img.text as usize..img.end as usize;
    match start::start_root(VIRT, con, i, &range, img, rt, pool, m) {
        Ok(mut k) => Ok(said(&mut k.con)),
        Err((mut con, e)) => Err((said(&mut con), e)),
    }
}

fn task<'a>(image: &'a [u8], entry: u64, segments: &'a [RtSegment]) -> VerifiedRootTask<'a> {
    VerifiedRootTask { image, sha256: [0; 32], base: 0x40_0000, entry, segments }
}

#[test]
fn start_fails_with_a_reason() {
    let img = image();
    let bytes = [0u8; 0x4000];
    let text = [RtSegment { va: 0x40_0000, memsz: 0x100, kind: RtSegKind::Text }];
    let good = task(&bytes, 0x40_0000, &text);
    let dtb = 0x4400_0000..0x4400_1000;
    let mem = [region(0x4000_0000, 0x800_0000)];
    let i = info(&mem, &[], dtb.clone());
    assert!(started(&i, &good, &img).is_ok());

    let none = info(&[region(0x4000_0000, 0x10_0000)], &[], dtb.clone());
    let (said, e) = started(&none, &good, &img).err().unwrap();
    assert_eq!(said, "k0: no frame window in memory map\r\n");
    assert_eq!(e, StartError::NoWindow);

    let five = [text[0]; 5];
    let (said, e) = started(&i, &task(&bytes, 0x40_0000, &five), &img).err().unwrap();
    assert_eq!(said, "k0: too many root task segments\r\n");
    assert_eq!(e, StartError::TooManySegments);

    let (said, e) = started(&i, &task(&bytes, 0x41_0000, &text), &img).err().unwrap();
    assert_eq!(said, "k0: root task spawn failed: BadLayout\r\n");
    assert_eq!(e, StartError::Spawn(SpawnError::BadLayout));

    // the same memory told eight times, in nine pieces each
    let holes: Vec<MemRegion> = (0..8).map(|n| region(0x4600_0000 + n * 0x2000, 0x1000)).collect();
    let odd = info(&[mem[0]; 8], &holes, dtb);
    let (said, e) = started(&odd, &good, &img).err().unwrap();
    assert_eq!(
        said,
        "k0: root task loaded (entry 0x400000, ttbr0 0x400f5000)\r\n\
         k0: cap bootstrap failed: OutOfSlots\r\n"
    );
    assert_eq!(e, StartError::Caps(cap::CapError::OutOfSlots));
}

#[test]
fn window_on_top_of_a_mapping_is_refused() {
    let img = image();
    let bytes = [0u8; 0x4000];
    let text = [RtSegment { va: 0x40_0000, memsz: 0x100, kind: RtSegKind::Text }];
    // the device tree that was mapped lies elsewhere
    let i = info(&[region(0x4400_0000, 0x40_0000)], &[], 0x4700_0000..0x4700_1000);
    let (said, e) = started(&i, &task(&bytes, 0x40_0000, &text), &img).err().unwrap();
    assert_eq!(said, "k0: window map failed: Overlap\r\n");
    assert_eq!(e, StartError::Window(MmuError::Overlap));
}

#[test]
fn images_out_of_order_are_seen() {
    let good = image();
    assert!(good.is_laid_out(VIRT));
    assert!(!Image { rodata: good.text - 1, ..good }.is_laid_out(VIRT));
    assert!(!Image { data: good.rodata - 1, ..good }.is_laid_out(VIRT));
    assert!(!Image { tables: good.tables + 8, ..good }.is_laid_out(VIRT));
    assert!(!Image { tables: good.data - 0x1000, ..good }.is_laid_out(VIRT));
    assert!(!Image { tables: good.stack_bottom - 24 * 0x1000, ..good }.is_laid_out(VIRT));
    assert!(Image { tables: good.stack_bottom - 25 * 0x1000, ..good }.is_laid_out(VIRT));
    assert!(!Image { root_tcb: good.stack_bottom - 0x1000, ..good }.is_laid_out(VIRT));
    assert!(!Image { stack_top: good.stack_bottom - 1, ..good }.is_laid_out(VIRT));
    assert!(!Image { end: good.stack_top - 1, ..good }.is_laid_out(VIRT));
    assert!(!Image { end: (1 << 48) + 1, ..good }.is_laid_out(VIRT));
    // the tables are larger there
    assert!(!good.is_laid_out(Platform::Apple));
}

#[test]
fn memory_beyond_the_upper_half_is_seen() {
    let top = 1u64 << 48;
    assert!(start::memory_fits(&info(&[region(0x4000_0000, 0x1000), region(top - 1, 1)], &[], 0..0)));
    assert!(start::memory_fits(&info(&[], &[region(top, 1)], 0..0)));
    assert!(!start::memory_fits(&info(&[region(0, 1), region(top - 1, 2)], &[], 0..0)));
    assert!(!start::memory_fits(&info(&[region(u64::MAX, 0)], &[], 0..0)));
}
