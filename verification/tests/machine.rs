use k0::align;
use k0::arch::earlycon::{self, EarlyCon};
use k0::arch::hardening;
use k0::arch::irq::{self, GicAction, GicInit, IrqError, IrqEvent, Timer};
use k0::arch::usermode::{self, Context, CurrentContext, Trap};
use k0::arch::vectors;
use k0::bytes;
use k0::objmap::ObjMap;
use k0::platform::Platform;

fn said(con: &mut EarlyCon) -> String {
    String::from_utf8(con.take()).unwrap()
}

#[test]
fn rounding_to_a_granule() {
    assert_eq!(align::align_up(0, 0x1000), Some(0));
    assert_eq!(align::align_up(1, 0x1000), Some(0x1000));
    assert_eq!(align::align_up(0x1000, 0x1000), Some(0x1000));
    assert_eq!(align::align_up(0x4001, 0x4000), Some(0x8000));
    assert_eq!(align::align_up(u64::MAX - 0xFFE, 0x1000), None);
    assert_eq!(align::align_up(u64::MAX - 0xFFF, 0x1000), Some(u64::MAX - 0xFFF));
    assert_eq!(align::align_down(0x1FFF, 0x1000), 0x1000);
    assert_eq!(align::align_down(0xFFF, 0x1000), 0);
}

#[test]
fn numbers_in_bytes() {
    let b: Vec<u8> = (0..16).collect();
    assert_eq!(bytes::be32(&b, 1), 0x01020304);
    assert_eq!(bytes::be64(&b, 8), 0x08090A0B0C0D0E0F);
    assert_eq!(bytes::le16(&b, 14), 0x0F0E);
    assert_eq!(bytes::le32(&b, 0), 0x03020100);
    assert_eq!(bytes::le64(&b, 1), 0x0807060504030201);
    let mut out = vec![9];
    bytes::push_le64(&mut out, 0x1122334455667788);
    assert_eq!(out, vec![9, 0x88, 0x77, 0x66, 0x55, 0x44, 0x33, 0x22, 0x11]);
}

#[test]
fn objects_by_address() {
    let mut m: ObjMap<&str> = ObjMap::new();
    m.insert(0x1000, "a");
    m.insert(0x2000, "b");
    m.insert(0x1000, "c");
    assert!(m.contains(0x1000) && m.contains(0x2000) && !m.contains(0x3000));
    assert_eq!(*m.get(0x1000), "c");
    *m.get_mut(0x2000) = "d";
    assert_eq!(*m.get(0x2000), "d");
    assert_eq!(*m.get(0x1000), "c");
}

#[test]
fn platforms_differ_in_their_granule() {
    assert_eq!(Platform::Virt.granule(), 4096);
    assert_eq!(Platform::Virt.entries(), 512);
    assert_eq!(Platform::Apple.granule(), 16384);
    assert_eq!(Platform::Apple.entries(), 2048);
}

#[test]
fn console_text() {
    let mut con = EarlyCon::new(Platform::Virt);
    con.put_str("a\nb");
    con.put_byte(b'\n');
    con.put_byte(b'\r');
    assert_eq!(said(&mut con), "a\r\nb\r\n\r");
    con.put_hex(0);
    con.put_hex(0x0123_4567_89AB_CDEF);
    assert_eq!(said(&mut con), "0x00000000000000000x0123456789abcdef");
    for v in [0, 9, 10, 15, 16, 255, 4096, u64::MAX] {
        con.put_dec(v);
        con.put_str(" ");
        con.put_short_hex(v);
        assert_eq!(said(&mut con), format!("{v} {v:#x}"));
    }
    assert_eq!(said(&mut con), "");
}

#[test]
fn console_registers() {
    let mut con = EarlyCon::new(Platform::Virt);
    assert_eq!(con.base, 0x0900_0000);
    earlycon::use_higher_half(&mut con);
    assert_eq!(con.base, 0xFFFF_0000_0900_0000);
    assert_eq!(Platform::Virt.uart_status(), 0x18);
    assert_eq!(Platform::Virt.uart_data(), 0);
    assert!(Platform::Virt.uart_ready(0));
    assert!(!Platform::Virt.uart_ready(0x20));
    assert!(Platform::Virt.uart_ready(!0x20));
    let con = EarlyCon::new(Platform::Apple);
    assert_eq!(con.base, 0x2_3520_0000);
    assert_eq!(Platform::Apple.mmio_base(), 0x2_3520_0000);
    assert_eq!(Platform::Apple.uart_status(), 0x10);
    assert_eq!(Platform::Apple.uart_data(), 0x20);
    assert!(Platform::Apple.uart_ready(2));
    assert!(!Platform::Apple.uart_ready(!2));
}

#[test]
fn splitmix_sequence() {
    let mut state = 0u64;
    assert_eq!(hardening::splitmix64(&mut state), 0xE220_A839_7B1D_CDAF);
    assert_eq!(hardening::splitmix64(&mut state), 0x6E78_9E6A_A1B9_65F4);
    assert_eq!(hardening::splitmix64(&mut state), 0x06C4_5D18_8009_454F);
    let keys = hardening::counter_keys(0xA076_1D64_78BD_642F);
    assert_eq!(keys[0], 0xE220_A839_7B1D_CDAF);
    assert_eq!(keys[2], 0x06C4_5D18_8009_454F);
}

#[test]
fn hardening_follows_the_feature_registers() {
    let keys: [u64; 10] = [10, 11, 12, 13, 14, 15, 16, 17, 18, 19];
    let none = hardening::enable(&keys, 0, 0, 0, 0x30D0_0800);
    assert!(!none.offers.pac && !none.offers.bti && !none.offers.pan && !none.offers.pan2);
    assert!(none.addr_keys.is_none() && none.generic_key.is_none() && none.sctlr.is_none());
    assert!(!none.set_pan);
    for isar1 in [1 << 4, 1 << 8] {
        let plan = hardening::enable(&keys, isar1, 1, 1 << 20, 1);
        assert!(plan.offers.pac && plan.offers.bti && plan.offers.pan && !plan.offers.pan2);
        assert_eq!(plan.addr_keys, Some([10, 11, 12, 13, 14, 15, 16, 17]));
        assert_eq!(plan.generic_key, None);
        assert_eq!(plan.sctlr, Some(0xC800_2001));
        assert!(plan.set_pan);
    }
    for isar1 in [1 << 4 | 1 << 24, 1 << 8 | 1 << 28] {
        let plan = hardening::enable(&keys, isar1, 0, 2 << 20, 0);
        assert_eq!(plan.generic_key, Some([18, 19]));
        assert!(plan.offers.pan && plan.offers.pan2);
    }
    // a generic key alone is not used
    let plan = hardening::enable(&keys, 1 << 24, 0, 0, 0);
    assert!(!plan.offers.pac && plan.generic_key.is_none());
    // user pages are denied without pointer authentication too
    assert!(hardening::enable(&keys, 0, 0, 1 << 20, 0).set_pan);
}

#[test]
fn interrupt_numbers() {
    assert_eq!(irq::dispatch_irq(Platform::Virt, 30), IrqEvent::Tick);
    assert_eq!(irq::dispatch_irq(Platform::Virt, 0xFF00_0000 | 30), IrqEvent::Tick);
    for id in 1020..=1023 {
        assert_eq!(irq::dispatch_irq(Platform::Virt, id), IrqEvent::Spurious);
    }
    for id in [0, 29, 31, 1019, 1024] {
        assert_eq!(irq::dispatch_irq(Platform::Virt, id), IrqEvent::Unexpected(id));
    }
    assert_eq!(irq::dispatch_irq(Platform::Apple, 30), IrqEvent::Unexpected(0));
    assert_eq!(irq::dispatch_fiq(Platform::Apple, 4), IrqEvent::Tick);
    assert_eq!(irq::dispatch_fiq(Platform::Apple, 3), IrqEvent::Unexpected(0));
    assert_eq!(irq::dispatch_fiq(Platform::Virt, 4), IrqEvent::Unexpected(0));
}

#[test]
fn ticks_are_counted() {
    let mut con = EarlyCon::new(Platform::Apple);
    let mut timer = Timer { ticks: 0 };
    irq::timer_tick(&mut timer, &mut con);
    irq::timer_tick(&mut timer, &mut con);
    assert_eq!(timer.ticks, 2);
    assert_eq!(said(&mut con), "k0: tick 1\r\nk0: tick 2\r\n");
    assert!(irq::note_event(&mut timer, &mut con, IrqEvent::Tick, "fiq"));
    assert_eq!(said(&mut con), "k0: tick 3\r\n");
    assert!(irq::note_event(&mut timer, &mut con, IrqEvent::Spurious, "irq"));
    assert_eq!(said(&mut con), "");
    assert!(!irq::note_event(&mut timer, &mut con, IrqEvent::Unexpected(42), "irq"));
    assert_eq!(said(&mut con), "k0: UNEXPECTED irq intid=42\r\n");
    assert_eq!(timer.ticks, 3);
}

fn run_gic(answers: &mut dyn FnMut(u64) -> u32) -> (GicInit, Vec<(u64, u32)>, usize) {
    let mut s = GicInit::Start;
    let mut writes = Vec::new();
    let mut reads = 0;
    loop {
        let value = match s.action() {
            GicAction::Write(at, v) => {
                writes.push((at, v));
                0
            }
            GicAction::Read(at) => {
                reads += 1;
                answers(at)
            }
            GicAction::Ready | GicAction::Stop(_) => return (s, writes, reads),
        };
        s = s.next(value);
    }
}

#[test]
fn interrupt_controller_comes_up() {
    let mut n = 0;
    let (s, writes, reads) = run_gic(&mut |at| {
        n += 1;
        match (at & 0xFFFF_FFFF, n) {
            (0x0800_0000, 1..=3) => 0x8000_0000,
            (0x0800_0000, _) => 0,
            (0x080A_0014, 5) => 0x6,
            (0x080A_0014, 6) => 0x4,
            _ => 0,
        }
    });
    assert_eq!(s, GicInit::Done);
    assert_eq!(reads, 7);
    assert_eq!(
        writes,
        vec![
            (0xFFFF_0000_0800_0000, 0x12),
            (0xFFFF_0000_080A_0014, 0x4),
            (0xFFFF_0000_080B_0080, 0xFFFF_FFFF),
            (0xFFFF_0000_080B_0100, 0x4000_0000),
        ]
    );
    let v = vectors::install(0xFFFF_0000_4008_0800);
    assert_eq!(v.vbar, 0xFFFF_0000_4008_0800);
    assert_eq!(irq::init(Platform::Virt, &v, s).unwrap().unmask, 6);
    assert_eq!(irq::init(Platform::Apple, &v, GicInit::Start).unwrap().unmask, 5);
}

#[test]
fn dead_interrupt_controller_is_given_up() {
    let (s, _, reads) = run_gic(&mut |_| 0x8000_0000);
    assert_eq!(s, GicInit::Failed(IrqError::GicRwpTimeout));
    assert_eq!(reads, 1_000_001);
    let v = vectors::install(0);
    assert_eq!(irq::init(Platform::Virt, &v, s).err(), Some(IrqError::GicRwpTimeout));
    let (s, _, reads) = run_gic(&mut |_| 4);
    assert_eq!(s, GicInit::Failed(IrqError::GicWakeTimeout));
    assert_eq!(reads, 1_000_003);
    assert_eq!(irq::init(Platform::Virt, &v, s).err(), Some(IrqError::GicWakeTimeout));
}

#[test]
fn names_of_exceptions() {
    let kinds = ["sync", "irq", "fiq", "serror"];
    let places = ["sp0", "spx", "a64", "a32"];
    for i in 0..16u64 {
        let want = format!("{}-{}", kinds[i as usize % 4], places[i as usize / 4]);
        assert_eq!(vectors::kind_name(i), want);
    }
    assert_eq!(vectors::kind_name(16), "?");
    for (ec, name) in [
        (0x00, "unknown"),
        (0x07, "?"),
        (0x15, "svc64"),
        (0x18, "sysreg"),
        (0x20, "iabort-lower"),
        (0x21, "iabort"),
        (0x22, "pc-align"),
        (0x24, "dabort-lower"),
        (0x25, "dabort"),
        (0x26, "sp-align"),
        (0x2F, "serror"),
        (0x30, "debug"),
        (0x34, "debug"),
        (0x35, "?"),
    ] {
        assert_eq!(vectors::ec_name(ec), name);
    }
}

#[test]
fn fatal_exception_report() {
    let mut con = EarlyCon::new(Platform::Virt);
    vectors::exception_fatal(&mut con, 4, 0x9600_0045, 0x1000, 0xDEAD, 0x3C5);
    assert_eq!(
        said(&mut con),
        "k0: EXCEPTION sync-spx\r\n\
         k0: esr = 0x0000000096000045 ec dabort\r\n\
         k0: elr = 0x0000000000001000 far = 0x000000000000dead spsr = 0x00000000000003c5\r\n"
    );
}

#[test]
fn reasons_to_enter_the_kernel() {
    assert_eq!(usermode::trap(0x15 << 26 | 0x1FF), Trap::Syscall);
    assert_eq!(usermode::trap(0x01 << 26), Trap::Wait);
    assert_eq!(usermode::trap(0x24 << 26), Trap::Fault);
    assert_eq!(usermode::trap(0), Trap::Fault);
    // only six bits count
    assert_eq!(usermode::trap(0x55 << 26), Trap::Syscall);
}

#[test]
fn cache_lines_cover_the_code() {
    assert_eq!(usermode::line_sizes(0x0004_0004), (64, 64));
    assert_eq!(usermode::line_sizes(0x8444_C003), (64, 32));
    assert_eq!(usermode::lines(0x1010, 0x80, 64), vec![0x1000, 0x1040, 0x1080]);
    assert_eq!(usermode::lines(0x1000, 0x80, 64), vec![0x1000, 0x1040]);
    assert_eq!(usermode::lines(0x1000, 0, 64), vec![]);
    assert_eq!(usermode::lines(0x1008, 0, 64), vec![0x1000]);
}

#[test]
fn cleared_context() {
    let c = Context::zeroed();
    assert_eq!(c.x, [0; 31]);
    assert_eq!((c.sp, c.elr, c.spsr, c.tpidr, c.tpidrro), (0, 0, 0, 0, 0));
    let mut cell = CurrentContext { tcb: 1 };
    usermode::set_current(&mut cell, 0x7000);
    assert_eq!(cell.tcb, 0x7000);
}
