use std::collections::HashMap;

use k0::abi::{self, err, syscall};
use k0::arch::earlycon::EarlyCon;
use k0::arch::irq::Timer;
use k0::arch::usermode::Context;
use k0::boot::image::{self, FlatImage};
use k0::boot::roottask::RootTask;
use k0::cap::Cap;
use k0::kernel::init::{self, Image};
use k0::kernel::selfcheck::{self, Access, Probe};
use k0::kernel::start;
use k0::kernel::{Kernel, Outcome};
use k0::mm::mem::PhysMem;
use k0::mm::paging::Pool;
use k0::platform::Platform;
use k0::root::children::{self, Deed, Msg};
use k0::root::info::{self, Info};
use k0::root::run::{Action, Entries, Event, Runner};
use k0::root::script::{Cell, CHILD_TPIDR};
use k0::root::speech;
use k0::sched;
use k0::task::spawn;
use k0::task::TaskState;

const SVC: u64 = 0x15 << 26;
const OFFSET: u64 = abi::KERNEL_VA_OFFSET;

fn be32(out: &mut Vec<u8>, v: u32) {
    out.extend_from_slice(&v.to_be_bytes());
}

fn be64(out: &mut Vec<u8>, v: u64) {
    out.extend_from_slice(&v.to_be_bytes());
}

fn padded(out: &mut Vec<u8>) {
    while out.len() % 4 != 0 {
        out.push(0);
    }
}

fn begin(out: &mut Vec<u8>, name: &str) {
    be32(out, 1);
    out.extend_from_slice(name.as_bytes());
    out.push(0);
    padded(out);
}

fn prop(out: &mut Vec<u8>, strings: &mut Vec<u8>, name: &str, value: &[u8]) {
    let off = strings.len() as u32;
    strings.extend_from_slice(name.as_bytes());
    strings.push(0);
    be32(out, 3);
    be32(out, value.len() as u32);
    be32(out, off);
    out.extend_from_slice(value);
    padded(out);
}

/// A device tree with one region of memory and a seed.
fn device_tree(base: u64, size: u64, reserved: &[(u64, u64)], seed: &[u8]) -> Vec<u8> {
    let mut rsv = Vec::new();
    for (b, s) in reserved {
        be64(&mut rsv, *b);
        be64(&mut rsv, *s);
    }
    be64(&mut rsv, 0);
    be64(&mut rsv, 0);
    let mut st = Vec::new();
    let mut strings = Vec::new();
    begin(&mut st, "");
    prop(&mut st, &mut strings, "#address-cells", &2u32.to_be_bytes());
    prop(&mut st, &mut strings, "#size-cells", &2u32.to_be_bytes());
    begin(&mut st, "memory@40000000");
    let mut reg = Vec::new();
    be64(&mut reg, base);
    be64(&mut reg, size);
    prop(&mut st, &mut strings, "reg", &reg);
    be32(&mut st, 2);
    begin(&mut st, "chosen");
    prop(&mut st, &mut strings, "rng-seed", seed);
    be32(&mut st, 2);
    be32(&mut st, 2);
    be32(&mut st, 9);
    let off_rsv = 40u32;
    let off_struct = off_rsv + rsv.len() as u32;
    let off_strings = off_struct + st.len() as u32;
    let total = off_strings + strings.len() as u32;
    let mut out = Vec::new();
    be32(&mut out, 0xd00dfeed);
    be32(&mut out, total);
    be32(&mut out, off_struct);
    be32(&mut out, off_strings);
    be32(&mut out, off_rsv);
    be32(&mut out, 17);
    be32(&mut out, 16);
    be32(&mut out, 0);
    be32(&mut out, strings.len() as u32);
    be32(&mut out, st.len() as u32);
    out.extend_from_slice(&rsv);
    out.extend_from_slice(&st);
    out.extend_from_slice(&strings);
    out
}

/// An executable file with a segment of code and one of data.
fn executable() -> Vec<u8> {
    let mut f = vec![0u8; 64 + 2 * 56];
    f[0..4].copy_from_slice(&[0x7F, b'E', b'L', b'F']);
    f[4] = 2;
    f[5] = 1;
    f[16] = 2;
    f[18] = 183;
    f[24..32].copy_from_slice(&0x40_0010u64.to_le_bytes());
    f[32..40].copy_from_slice(&64u64.to_le_bytes());
    f[54] = 56;
    f[56] = 2;
    let text: Vec<u8> = (0..0x200u32).map(|i| (i % 251) as u8).collect();
    let data = [7u8; 24];
    let segs = [(0x40_0000u64, 5u32, text.len(), text.len()), (0x40_4000, 6, data.len(), 0x100)];
    let mut at = f.len();
    for (i, (va, flags, filesz, memsz)) in segs.iter().enumerate() {
        let p = 64 + 56 * i;
        f[p..p + 4].copy_from_slice(&1u32.to_le_bytes());
        f[p + 4..p + 8].copy_from_slice(&flags.to_le_bytes());
        f[p + 8..p + 16].copy_from_slice(&(at as u64).to_le_bytes());
        f[p + 16..p + 24].copy_from_slice(&va.to_le_bytes());
        f[p + 32..p + 40].copy_from_slice(&(*filesz as u64).to_le_bytes());
        f[p + 40..p + 48].copy_from_slice(&(*memsz as u64).to_le_bytes());
        at += filesz;
    }
    f.extend_from_slice(&text);
    f.extend_from_slice(&data);
    f
}

fn kernel_image(plat: Platform) -> Image {
    let g = plat.granule();
    let text = 0x4008_0000;
    Image {
        text,
        rodata: text + 0x1_0000,
        data: text + 0x2_0000,
        tables: text + 0x3_0000,
        root_tcb: text + 0x2_0000,
        stack_bottom: text + 0x3_0000 + 24 * g + 4 * g,
        stack_top: text + 0x3_0000 + 24 * g + 8 * g,
        end: text + 0x3_0000 + 24 * g + 8 * g,
    }
}

struct Booted {
    kernel: Kernel,
    flat: FlatImage,
    log: String,
    image: Image,
    /// Where the image of the root task was loaded.
    code: u64,
}

fn mmfr0(_plat: Platform) -> u64 {
    // 4K and 16K pages, 48 address bits
    5 | (1 << 20)
}

fn boot(plat: Platform) -> Booted {
    let flat = image::flat_image(&executable()).unwrap();
    let image = kernel_image(plat);
    let dtb_phys: usize = 0x4400_0000;
    let dtb = device_tree(0x4000_0000, 0x0800_0000, &[(0x4700_0000, 0x1_0000)], &[0x5A; 32]);
    let mut con = EarlyCon::new(plat);
    let mut pool = Pool::new(plat, image.tables);
    let mut mem = PhysMem::new(plat);
    let mmu = init::kernel_init(
        &mut con,
        plat,
        dtb_phys,
        &dtb,
        &image,
        &mut pool,
        &mut mem,
        mmfr0(plat),
        0,
    )
    .unwrap();
    assert_eq!(mmu.ttbr0, image.tables);
    assert_eq!(mmu.ttbr1, image.tables + plat.granule());
    let rt = RootTask {
        image: &flat.image,
        sha256: flat.sha256,
        base: flat.base,
        entry: flat.entry,
        segments: &flat.segments,
    };
    let range = image.text as usize..image.end as usize;
    let (info, vrt) = start::examine(
        &mut con,
        plat,
        dtb_phys,
        range.clone(),
        OFFSET as usize,
        &dtb,
        &rt,
    )
    .unwrap();
    let kernel = match start::start_root(plat, con, &info, &range, &image, &vrt, pool, mem) {
        Ok(k) => k,
        Err((_, e)) => panic!("start failed: {e:?}"),
    };
    let code = start::loaded_image(plat, &info, &range).unwrap() - OFFSET;
    let mut kernel = kernel;
    let log = String::from_utf8(kernel.con.take()).unwrap();
    Booted { kernel, flat, log, image, code }
}

/// The descriptor of a page, by walking the tables.
fn descriptor(k: &Kernel, root: u64, va: u64) -> u64 {
    let (shift, bits) = match k.plat {
        Platform::Virt => (12, 9),
        Platform::Apple => (14, 11),
    };
    let mut table = root;
    for level in 0..4u64 {
        let idx = ((va & 0xFFFF_FFFF_FFFF) >> (shift + bits * (3 - level))) & ((1 << bits) - 1);
        let d = k.mem.read(table, idx as usize);
        if d == 0 || level == 3 {
            return d;
        }
        table = d & 0x0000_FFFF_FFFF_F000 & !(k.plat.granule() - 1);
    }
    0
}

fn frame(k: &Kernel, d: u64) -> u64 {
    d & 0x0000_FFFF_FFFF_F000 & !(k.plat.granule() - 1)
}

fn can(k: &Kernel, root: u64, p: &Probe) -> bool {
    let tree = if p.va >= OFFSET { k.pool.root1 } else { root };
    let d = descriptor(k, tree, p.va);
    let user = d & 0x40 != 0;
    let ro = d & 0x80 != 0;
    d != 0
        && match p.access {
            Access::Read => true,
            Access::Write => !ro,
            Access::ReadPan => !user,
            Access::UserRead => user,
            Access::UserWrite => user && !ro,
        }
}

#[test]
fn boot_log_of_qemu() {
    let b = boot(Platform::Virt);
    let hash: String = b.flat.sha256[..4].iter().map(|x| format!("{x:02x}")).collect();
    let dtb = device_tree(0x4000_0000, 0x0800_0000, &[(0x4700_0000, 0x1_0000)], &[0x5A; 32]);
    let dtb_end = 0x4400_0000 + dtb.len();
    let dtb_rest = 0x4700_0000 - dtb_end;
    let want = format!(
        "k0: entry phase 1 (pre-MMU)\r\n\
         k0: dtb = 0x0000000044000000\r\n\
         k0: mmu on (identity + higher-half alias)\r\n\
         k0: jumping to higher half\r\n\
         k0: memory 0x40000000 + 0x8000000\r\n\
         k0: dtb reserved 0x47000000 + 0x10000\r\n\
         k0: root task integrity ok (32768 bytes, sha256 {hash}..)\r\n\
         k0: root task loaded (entry 0x400010, ttbr0 0x400d9000)\r\n\
         k0: untyped 0x40000000 + 0x80000\r\n\
         k0: untyped 0x402d0000 + 0x3d30000\r\n\
         k0: untyped {dtb_end:#x} + {dtb_rest:#x}\r\n\
         k0: untyped 0x47010000 + 0xff0000\r\n\
         k0: root cnode ready (8 caps, 4 untyped)\r\n\
         k0: bootinfo page ready\r\n"
    );
    assert_eq!(b.log, want);
}

#[test]
fn first_task_has_its_memory_and_nothing_else() {
    for plat in [Platform::Virt, Platform::Apple] {
        let b = boot(plat);
        let k = &b.kernel;
        let g = plat.granule();
        let root = sched::current_user_root(&k.sys);
        // the image is where it should be, word by word
        for (i, chunk) in b.flat.image.chunks(8).enumerate() {
            let at = b.code + 8 * i as u64;
            let got = k.mem.read(at / g * g, (at % g / 8) as usize);
            assert_eq!(&got.to_le_bytes()[..], chunk);
        }
        for (i, chunk) in b.flat.image.chunks(8).enumerate() {
            let va = b.flat.base + 8 * i as u64;
            let d = descriptor(k, root, va);
            if d != 0 && va < 0x40_4000 {
                assert!(d & 0x40_0000_0000_0000 == 0, "code must be executable");
                assert!(d & 0x80 != 0, "code must not be writable");
            }
            if d != 0 {
                let got = k.mem.read(frame(k, d), (va % g / 8) as usize);
                let mut w = [0u8; 8];
                w.copy_from_slice(chunk);
                assert_eq!(got, u64::from_le_bytes(w));
            }
        }
        // the stack is mapped for writing and holds zeros
        let stack = spawn::USER_STACK_TOP - spawn::USER_STACK_SIZE;
        for va in (stack..spawn::USER_STACK_TOP).step_by(8) {
            let d = descriptor(k, root, va);
            assert!(d & 0xC0 == 0x40);
            assert_eq!(k.mem.read(frame(k, d), (va % g / 8) as usize), 0);
        }
        // below it nothing is mapped
        assert_eq!(descriptor(k, root, stack - g), 0);
        // nothing in user space is writable and executable, the null page is not mapped
        assert_eq!(descriptor(k, root, 0), 0);
        for va in (0..0x1000_0000u64).step_by(g as usize) {
            let d = descriptor(k, root, va);
            if d != 0 {
                assert!(!(d & 0xC0 == 0x40 && d & 0x40_0000_0000_0000 == 0));
                assert!(d & 0x20_0000_0000_0000 != 0, "the kernel must not execute user pages");
            }
        }
        let cur = sched::current(&k.sys);
        assert_eq!(cur, b.image.root_tcb + OFFSET);
        let ctx = k.sys.ctx(cur);
        assert_eq!(ctx.elr, b.flat.entry);
        assert_eq!(ctx.sp, spawn::USER_STACK_TOP);
        assert_eq!(ctx.spsr, 0);
        assert_eq!(ctx.x, [0u64; 31]);
    }
}

#[test]
fn address_spaces_pass_their_checks() {
    for plat in [Platform::Virt, Platform::Apple] {
        let b = boot(plat);
        let k = &b.kernel;
        let root = sched::current_user_root(&k.sys);
        let i = &b.image;
        let probes = selfcheck::kernel_probes(
            plat,
            i.text + OFFSET,
            i.rodata + OFFSET,
            i.stack_bottom + OFFSET,
            i.stack_top + OFFSET,
        );
        // before user space takes over, the lower half is the identity tree
        let got: Vec<bool> = probes.iter().map(|p| can(k, i.tables, p)).collect();
        let mut con = EarlyCon::new(plat);
        assert!(selfcheck::check_wx(&mut con, plat, &probes, &got));
        let text = String::from_utf8(con.take()).unwrap();
        let kib = plat.granule() / 1024;
        assert_eq!(text, format!("k0: w^x checks pass (granule {kib}K, wxn)\r\n"));

        let segs: Vec<spawn::LoadSeg> = b
            .flat
            .segments
            .iter()
            .map(|s| spawn::LoadSeg {
                va: s.va,
                memsz: s.memsz,
                kind: match s.kind {
                    k0::boot::roottask::RtSegKind::Text => spawn::SegKind::Text,
                    k0::boot::roottask::RtSegKind::Ro => spawn::SegKind::Ro,
                    k0::boot::roottask::RtSegKind::Rw => spawn::SegKind::Rw,
                },
            })
            .collect();
        for pan2 in [false, true] {
            let probes = selfcheck::user_probes(plat, &segs, i.text + OFFSET, pan2).unwrap();
            assert_eq!(probes.len(), 9);
            let mut got: Vec<bool> = probes.iter().map(|p| can(k, root, p)).collect();
            assert!(selfcheck::check_user_wx(&mut con, &probes, &got));
            let text = String::from_utf8(con.take()).unwrap();
            assert_eq!(text, "k0: user w^x checks pass\r\n");
            got[1] = true;
            assert!(!selfcheck::check_user_wx(&mut con, &probes, &got));
            let text = String::from_utf8(con.take()).unwrap();
            assert_eq!(text, "k0: user w^x check fail: utext+w (got true, want false)\r\n");
        }
        assert!(selfcheck::user_probes(plat, &segs[1..], i.text + OFFSET, true).is_none());
    }
}

#[test]
fn bootinfo_page_tells_the_capabilities() {
    let b = boot(Platform::Virt);
    let k = &b.kernel;
    let root = sched::current_user_root(&k.sys);
    let page = frame(k, descriptor(k, root, abi::bootinfo::VA));
    let words: Vec<u64> = (0..512).map(|i| k.mem.read(page, i)).collect();
    assert_eq!(&words[..3], &[1, 4096, 8]);
    // empty, task, address space, console, then untyped memory
    assert_eq!(&words[3..15], &[0, 0, 0, 1, 0, 0, 2, 0, 0, 7, 0, 0]);
    assert_eq!(&words[15..18], &[3, 0x4000_0000, 0x8_0000]);
    assert!(words[27..].iter().all(|w| *w == 0));
    assert_eq!(
        info::read_info(&words),
        Ok(Info { frame_size: 4096, untyped: 4, aspace: 2, console: 3 })
    );
    let mut bad = words.clone();
    bad[0] = 2;
    assert_eq!(info::read_info(&bad), Err("bootinfo version"));
    let mut bad = words.clone();
    bad[1] = 4095;
    assert_eq!(info::read_info(&bad), Err("bootinfo frame size"));
    let mut bad = words.clone();
    bad[2] = 4;
    assert_eq!(info::read_info(&bad), Err("untyped search"));
    let mut bad = words.clone();
    bad[9] = 0;
    assert_eq!(info::read_info(&bad), Err("aspace search"));
}

/// A task as the test plays it.
enum Actor {
    Root { runner: Runner, waiting: bool, queue: Vec<u8>, ended: Option<&'static str> },
    Busy,
    Exit,
    Server { started: bool },
    Client { stage: u32 },
    Client2 { stage: u32 },
    Fault { stage: u32 },
    Fp { stage: u32 },
}

struct Machine {
    k: Kernel,
    timer: Timer,
    actors: HashMap<u64, Actor>,
    cells: HashMap<&'static str, u64>,
    memory: HashMap<u64, u64>,
    entries: Entries,
    out: Vec<u8>,
}

fn cell_name(c: Cell) -> &'static str {
    match c {
        Cell::Busy => "busy",
        Cell::Exit => "exit",
        Cell::Ep => "ep",
        Cell::Ep2 => "ep2",
        Cell::SrvCount => "count",
        Cell::SrvDie => "die",
        Cell::SrvHold => "hold",
        Cell::ClientStatus => "client",
        Cell::FaultStage => "stage",
        Cell::FaultSurvived => "survived",
        Cell::ChildTpidr => "tpidr",
        Cell::SrvMr0 => "mr0",
        Cell::SrvMr1 => "mr1",
        Cell::SrvMr2 => "mr2",
        Cell::SrvMr3 => "mr3",
    }
}

impl Machine {
    fn cell(&self, name: &'static str) -> u64 {
        *self.cells.get(name).unwrap_or(&0)
    }

    fn regs(&self) -> Context {
        self.k.sys.ctx(sched::current(&self.k.sys))
    }

    /// A system call of the current task.
    fn svc(&mut self, nr: u64, x: [u64; 6]) -> Outcome {
        let mut ctx = self.regs();
        ctx.x[8] = nr;
        ctx.x[..6].copy_from_slice(&x);
        self.k.save(ctx);
        self.k.el0_sync(SVC, 0)
    }

    /// Physical address and descriptor of a user address.
    fn reach(&self, va: u64) -> (u64, u64) {
        let root = sched::current_user_root(&self.k.sys);
        let d = descriptor(&self.k, root, va);
        (frame(&self.k, d) + va % self.k.plat.granule(), d)
    }

    fn poke(&mut self, va: u64, v: u64) {
        let (pa, d) = self.reach(va);
        assert!(d & 0xC0 == 0x40, "write to a page that is not writable");
        self.memory.insert(pa, v);
    }

    fn peek(&self, va: u64) -> u64 {
        let (pa, d) = self.reach(va);
        assert!(d & 0x40 != 0, "read from a page that is not there");
        let g = self.k.plat.granule();
        match self.memory.get(&pa) {
            Some(v) => *v,
            None => self.k.mem.read(pa - pa % g, (pa % g / 8) as usize),
        }
    }

    fn actor_for(&self, elr: u64) -> Actor {
        let e = self.entries;
        if elr == e.busy {
            Actor::Busy
        } else if elr == e.exit {
            Actor::Exit
        } else if elr == e.server {
            Actor::Server { started: false }
        } else if elr == e.client {
            Actor::Client { stage: 0 }
        } else if elr == e.client2 {
            Actor::Client2 { stage: 0 }
        } else if elr == e.fault {
            Actor::Fault { stage: 0 }
        } else {
            assert_eq!(elr, e.fp);
            Actor::Fp { stage: 0 }
        }
    }

    fn message(ctx: &Context) -> Msg {
        Msg { m0: ctx.x[2], m1: ctx.x[3], m2: ctx.x[4], m3: ctx.x[5] }
    }

    /// Lets the current task do one thing. False once the root task has passed or failed.
    fn turn(&mut self) -> bool {
        let cur = sched::current(&self.k.sys);
        assert_eq!(self.k.sys.state(cur), TaskState::Running);
        let mut actor = match self.actors.remove(&cur) {
            Some(a) => a,
            None => self.actor_for(self.regs().elr),
        };
        let mut outcome = Outcome::Resume;
        let mut more = true;
        match &mut actor {
            Actor::Root { runner, waiting, queue, ended } => {
                let console = runner.info.console;
                let mut event = None;
                if !queue.is_empty() {
                    let b = queue.remove(0);
                    outcome = self.svc(syscall::DEBUG_PUTC, [console, b as u64, 0, 0, 0, 0]);
                    assert_eq!(self.regs().x[0], 0);
                    if queue.is_empty() && ended.is_none() {
                        event = Some(Event::Done);
                    }
                } else if ended.is_some() || (runner.has_passed() && !*waiting) {
                    more = false;
                } else if *waiting {
                    let ctx = self.regs();
                    *waiting = false;
                    event = Some(Event::Answer {
                        status: ctx.x[0] as i64,
                        m: Machine::message(&ctx),
                    });
                } else {
                    match runner.action() {
                        a @ (Action::Say(_) | Action::SayNumber(..)) => *queue = speech::speak(&a),
                        Action::Svc { nr, x0, x1, x2, x3, x4, x5 } => {
                            *waiting = true;
                            outcome = self.svc(nr, [x0, x1, x2, x3, x4, x5]);
                        }
                        Action::Poke { at, value } => {
                            self.poke(at, value);
                            event = Some(Event::Done);
                        }
                        Action::Peek { at } => event = Some(Event::Value(self.peek(at))),
                        Action::Put { cell, value } => {
                            self.cells.insert(cell_name(cell), value);
                            event = Some(Event::Done);
                        }
                        Action::Get { cell } => {
                            event = Some(Event::Value(self.cell(cell_name(cell))))
                        }
                        Action::SetTpidr(v) => {
                            let mut ctx = self.regs();
                            ctx.tpidr = v;
                            self.k.save(ctx);
                            event = Some(Event::Done);
                        }
                        Action::GetTpidr => event = Some(Event::Value(self.regs().tpidr)),
                        Action::GetTpidrRo => event = Some(Event::Value(self.regs().tpidrro)),
                        Action::Think => event = Some(Event::Done),
                    }
                }
                if let Some(e) = event {
                    if let Err(name) = runner.advance(e) {
                        *ended = Some(name);
                        *queue = speech::fail(name);
                    }
                }
            }
            Actor::Busy => {
                let n = self.cell("busy") + 1;
                self.cells.insert("busy", n);
                outcome = match self.k.plat {
                    Platform::Virt => self.k.irq_lower(&mut self.timer, 30),
                    Platform::Apple => self.k.fiq_lower(&mut self.timer, 5),
                };
            }
            Actor::Exit => {
                let mut n = self.cell("exit");
                loop {
                    n += 1;
                    match children::child_exit_step(n) {
                        Deed::Exit(code) => {
                            self.cells.insert("exit", n);
                            outcome = self.svc(syscall::EXIT, [code, 0, 0, 0, 0, 0]);
                            break;
                        }
                        _ => {}
                    }
                }
            }
            Actor::Server { started } => {
                let ep = self.cell("ep");
                if !*started {
                    *started = true;
                    outcome = self.svc(syscall::RECV, [ep, 0, 0, 0, 0, 0]);
                } else {
                    let ctx = self.regs();
                    let m = Machine::message(&ctx);
                    let die = self.cell("die") != 0;
                    let hold = self.cell("hold") != 0;
                    let deed = children::server_step(ctx.x[0] as i64, m, die, hold);
                    let noted = match deed {
                        Deed::NoteAndReceive(m) | Deed::NoteAndReply(m, _) => Some(m),
                        _ => None,
                    };
                    if let Some(m) = noted {
                        self.cells.insert("mr0", m.m0);
                        self.cells.insert("mr1", m.m1);
                        self.cells.insert("mr2", m.m2);
                        self.cells.insert("mr3", m.m3);
                        let n = self.cell("count") + 1;
                        self.cells.insert("count", n);
                        self.cells.insert("hold", 0);
                    }
                    outcome = match deed {
                        Deed::Exit(code) => self.svc(syscall::EXIT, [code, 0, 0, 0, 0, 0]),
                        Deed::NoteAndReceive(_) => self.svc(syscall::RECV, [ep, 0, 0, 0, 0, 0]),
                        Deed::NoteAndReply(_, r) => {
                            self.svc(syscall::REPLY_RECV, [ep, 0, r.m0, r.m1, r.m2, r.m3])
                        }
                        other => panic!("{other:?}"),
                    };
                }
            }
            Actor::Client { stage } => {
                *stage += 1;
                let status = self.regs().x[0] as i64;
                if *stage == 1 {
                    let m = children::client_first();
                    outcome = self.svc(
                        syscall::SEND,
                        [self.cell("ep2"), 0, m.m0, m.m1, m.m2, m.m3],
                    );
                } else if *stage == 2 {
                    match children::client_sent(status) {
                        Deed::Call(m) => {
                            outcome = self.svc(
                                syscall::CALL,
                                [self.cell("ep"), 0, m.m0, m.m1, m.m2, m.m3],
                            )
                        }
                        other => panic!("{other:?}"),
                    }
                } else {
                    match children::client_called(status) {
                        Deed::NoteStatusAndExit(s, code) => {
                            self.cells.insert("client", s as u64);
                            outcome = self.svc(syscall::EXIT, [code, 0, 0, 0, 0, 0]);
                        }
                        other => panic!("{other:?}"),
                    }
                }
            }
            Actor::Client2 { stage } => {
                *stage += 1;
                if *stage == 1 {
                    let m = children::client2_first();
                    outcome = self.svc(
                        syscall::SEND,
                        [self.cell("ep2"), 0, m.m0, m.m1, m.m2, m.m3],
                    );
                } else {
                    match children::client2_sent(self.regs().x[0] as i64) {
                        Deed::Exit(code) => {
                            outcome = self.svc(syscall::EXIT, [code, 0, 0, 0, 0, 0])
                        }
                        other => panic!("{other:?}"),
                    }
                }
            }
            Actor::Fault { stage } => {
                *stage += 1;
                if *stage == 1 {
                    let mut ctx = self.regs();
                    self.cells.insert("tpidr", ctx.tpidr);
                    ctx.tpidr = CHILD_TPIDR;
                    self.k.save(ctx);
                    self.cells.insert("stage", 1);
                    outcome = self.svc(syscall::YIELD, [0; 6]);
                } else {
                    assert_eq!(descriptor(&self.k, sched::current_user_root(&self.k.sys), 0), 0);
                    outcome = self.k.el0_sync(0x24 << 26 | 0x46, 0);
                }
            }
            Actor::Fp { stage } => {
                *stage += 1;
                self.cells.insert("stage", 2);
                outcome = self.k.el0_sync(0x07 << 26, 0);
            }
        }
        self.actors.insert(cur, actor);
        self.out.extend(self.k.con.take());
        assert_eq!(outcome, Outcome::Resume);
        more
    }
}

fn machine(plat: Platform) -> Machine {
    let b = boot(plat);
    let k = b.kernel;
    let root = sched::current_user_root(&k.sys);
    let page = frame(&k, descriptor(&k, root, abi::bootinfo::VA));
    let words: Vec<u64> = (0..plat.entries() as usize).map(|i| k.mem.read(page, i)).collect();
    let e = b.flat.entry;
    let entries = Entries {
        busy: e + 0x10,
        exit: e + 0x20,
        server: e + 0x30,
        client: e + 0x40,
        client2: e + 0x50,
        fault: e + 0x60,
        fp: e + 0x70,
    };
    let found = info::read_info(&words).unwrap();
    let mut actors = HashMap::new();
    actors.insert(
        sched::current(&k.sys),
        Actor::Root {
            runner: Runner::new(found, entries),
            waiting: false,
            queue: Vec::new(),
            ended: None,
        },
    );
    let mut cells = HashMap::new();
    cells.insert("client", 1);
    Machine {
        k,
        timer: Timer { ticks: 0 },
        actors,
        cells,
        memory: HashMap::new(),
        entries,
        out: Vec::new(),
    }
}

fn play(plat: Platform) -> String {
    let mut m = machine(plat);
    let mut n = 0;
    while m.turn() {
        n += 1;
        assert!(n < 1_000_000);
    }
    String::from_utf8(m.out).unwrap()
}

#[test]
fn root_task_passes_on_qemu() {
    let out = play(Platform::Virt);
    let lines: Vec<&str> = out.split("\r\n").collect();
    assert_eq!(lines[0], "root: hello from EL0");
    assert_eq!(lines[1], "root: untyped slot 0x0000000000000004");
    for want in [
        "root: retype/map tests pass",
        "k0: task exited (code 7)",
        "root: child exit test pass",
        "k0: task exited (code 9)",
        "k0: task exited (code 11)",
        "k0: task exited (code 12)",
        "root: ipc tests pass",
        "k0: task fault dabort-lower (esr 0x90000046 elr 0x400070 far 0x0), killing task",
        "root: fault isolation tests pass",
        "k0: tick 1",
        "root: preempt test pass",
        "root: sched tests pass",
    ] {
        assert!(lines.contains(&want), "missing line: {want}\n{out}");
    }
    assert!(!out.contains("FAIL"));
}

#[test]
fn root_task_passes_on_apple() {
    let out = play(Platform::Apple);
    assert!(!out.contains("FAIL"));
    assert!(out.contains("root: ipc tests pass\r\n"));
}

#[test]
fn refusals_leave_the_kernel_as_it_was() {
    let mut m = machine(Platform::Virt);
    let caps: Vec<Cap> = m.k.cnode.slots().to_vec();
    let cases: [(u64, [u64; 6], i64); 12] = [
        (syscall::DEBUG_PUTC, [2, 65, 0, 0, 0, 0], err::BAD_CAP),
        (syscall::DEBUG_PUTC, [99, 65, 0, 0, 0, 0], err::BAD_SLOT),
        (syscall::RETYPE, [4, 99, 0, 0, 0, 0], err::BAD_TYPE),
        (syscall::RETYPE, [1 << 40, 1, 0, 0, 0, 0], err::BAD_SLOT),
        (syscall::RETYPE, [0, 1, 0, 0, 0, 0], err::NOT_UNTYPED),
        (syscall::MAP, [3, 0x2000_0000, 1, 2, 0, 0], err::BAD_CAP),
        (syscall::MAP, [3, 0x2000_0000, 1, 3, 0, 0], err::BAD_CAP),
        (syscall::TCB_CONFIGURE, [1, 2, 0x1000, 2, 0, 0], err::BAD_VA),
        (syscall::TCB_CONFIGURE, [1, 0x40_0000, 0x1008, 2, 0, 0], err::BAD_VA),
        (syscall::TCB_CONFIGURE, [1, 0x40_0000, 0x2000, 2, 0, 0], err::BAD_CAP),
        (syscall::TCB_RESUME, [1, 0, 0, 0, 0, 0], err::BAD_CAP),
        (syscall::SEND, [3, 0, 0, 0, 0, 0], err::BAD_CAP),
    ];
    for (nr, x, want) in cases {
        assert_eq!(m.svc(nr, x), Outcome::Resume);
        assert_eq!(m.regs().x[0] as i64, want, "call {nr} {x:?}");
        assert_eq!(m.k.cnode.slots(), &caps[..]);
        assert!(m.k.con.take().is_empty());
    }
}

#[test]
fn console_replaces_what_is_not_text() {
    let mut m = machine(Platform::Virt);
    for b in [b'a' as u64, 0x1B, b'\n' as u64, 0x7F, 0x100 + b'z' as u64] {
        m.svc(syscall::DEBUG_PUTC, [3, b, 0, 0, 0, 0]);
        assert_eq!(m.regs().x[0], 0);
    }
    assert_eq!(m.k.con.take(), b"a?\r\n?z");
}

#[test]
fn untyped_memory_runs_out() {
    let mut m = machine(Platform::Virt);
    // slot 4 holds 0x80000 bytes, but there are only so many slots
    let mut last = 0;
    loop {
        m.svc(syscall::RETYPE, [4, abi::obj::FRAME, 0, 0, 0, 0]);
        let r = m.regs().x[0] as i64;
        if r < 0 {
            assert_eq!(r, err::OUT_OF_SLOTS);
            break;
        }
        assert!(r > last);
        last = r;
    }
    assert_eq!(m.k.cnode.slots().len(), 32);
}

#[test]
fn last_task_ends_and_all_blocked_stop_the_machine() {
    let mut m = machine(Platform::Virt);
    assert_eq!(m.svc(syscall::EXIT, [3, 0, 0, 0, 0, 0]), Outcome::Park);
    assert_eq!(
        String::from_utf8(m.k.con.take()).unwrap(),
        "k0: task exited (code 3)\r\nk0: all tasks exited\r\n"
    );
    let mut m = machine(Platform::Virt);
    m.svc(syscall::RETYPE, [4, abi::obj::ENDPOINT, 0, 0, 0, 0]);
    let ep = m.regs().x[0];
    assert_eq!(m.svc(syscall::RECV, [ep, 0, 0, 0, 0, 0]), Outcome::Park);
    assert_eq!(m.k.con.take(), b"k0: all tasks blocked\r\n");
}

#[test]
fn unknown_calls_and_faults_end_the_task() {
    let mut m = machine(Platform::Virt);
    assert_eq!(m.svc(77, [0; 6]), Outcome::Park);
    assert_eq!(
        String::from_utf8(m.k.con.take()).unwrap(),
        "k0: unknown syscall 77, killing task\r\nk0: all tasks exited\r\n"
    );
    let mut m = machine(Platform::Virt);
    let at = sched::current(&m.k.sys);
    assert_eq!(m.k.el0_sync(0, 0x123), Outcome::Park);
    assert_eq!(m.k.sys.state(at), TaskState::Dead);
}

#[test]
fn waiting_instruction_is_skipped() {
    let mut m = machine(Platform::Virt);
    let before = m.regs();
    assert_eq!(m.k.el0_sync(1 << 26, 0), Outcome::Resume);
    let after = m.regs();
    assert_eq!(after.elr, before.elr + 4);
    assert_eq!(after.x, before.x);
}

#[test]
fn interrupts_in_user_space() {
    let mut m = machine(Platform::Virt);
    let mut timer = Timer { ticks: 4 };
    assert_eq!(m.k.irq_lower(&mut timer, 30), Outcome::Resume);
    assert_eq!(timer.ticks, 5);
    assert_eq!(m.k.con.take(), b"k0: tick 5\r\n");
    assert_eq!(m.k.irq_lower(&mut timer, 1023), Outcome::Resume);
    assert!(m.k.con.take().is_empty());
    assert_eq!(m.k.irq_lower(&mut timer, 33), Outcome::Park);
    assert_eq!(m.k.con.take(), b"k0: UNEXPECTED irq intid=33\r\n");
    assert_eq!(m.k.fiq_lower(&mut timer, 4), Outcome::Park);
    assert_eq!(m.k.con.take(), b"k0: UNEXPECTED fiq intid=0\r\n");
}

#[test]
fn journal_tells_every_change_of_memory() {
    let mut b = boot(Platform::Virt);
    let ops = b.kernel.mem.take_journal();
    assert!(!ops.is_empty());
    let mut words: HashMap<(u64, usize), u64> = HashMap::new();
    let mut frames: Vec<u64> = Vec::new();
    for op in ops {
        match op {
            k0::mm::mem::MemOp::Zero { frame } => {
                frames.push(frame);
                words.retain(|k, _| k.0 != frame);
            }
            k0::mm::mem::MemOp::Write { frame, index, value } => {
                words.insert((frame, index), value);
            }
        }
    }
    for f in frames {
        for i in 0..512 {
            let want = *words.get(&(f, i)).unwrap_or(&0);
            assert_eq!(b.kernel.mem.read(f, i), want);
        }
    }
    assert!(b.kernel.mem.take_journal().is_empty());
}
