use k0::abi::err;
use k0::arch::usermode::Context;
use k0::cap::{self, CNode, Cap, ObjKind, PhysRegion};
use k0::ipc;
use k0::mm::mem::PhysMem;
use k0::mm::paging::MmuError;
use k0::mm::user::FrameAlloc;
use k0::objmap::ObjMap;
use k0::platform::Platform;
use k0::sched::{self, System};
use k0::task::spawn::{self, LoadSeg, SegKind, SpawnError};
use k0::task::{Endpoint, TaskState, Tcb, TcbQueue};

const A: u64 = 0x1000;
const B: u64 = 0x2000;
const C: u64 = 0x3000;
const EP: u64 = 5;
const EP2: u64 = 6;
const NB: u64 = 1;

fn tcb(root: u64) -> Tcb {
    let mut t = Tcb::zeroed();
    t.ttbr0_pa = root;
    t.state = TaskState::Stopped;
    t
}

/// A runs; B and C are ready, in this order.
fn three() -> (CNode, System) {
    let region = PhysRegion { base: 0x4000_0000, size: 0x10_0000 };
    let mut c = cap::bootstrap(&[region], &[], 0).ok().unwrap();
    let mut sys = System::new();
    sys.add_task(A, tcb(0xA000));
    sched::install_user_ttbr0(&mut sys, 0xA000);
    sched::handoff(&mut sys, A);
    for t in [B, C] {
        sys.add_task(t, tcb(if t == B { 0xA000 } else { 0xC000 }));
        sched::enqueue(&mut sys, t);
    }
    for _ in 0..2 {
        let slot = c.retype(4, ObjKind::Endpoint, 0x1000, |_| true).ok().unwrap();
        match c.cap(slot) {
            Some(Cap::Endpoint { base }) => sys.add_endpoint(base + 0xFFFF_0000_0000_0000),
            other => panic!("{other:?}"),
        }
    }
    (c, sys)
}

fn set(sys: &mut System, x: [u64; 6]) {
    let cur = sched::current(sys);
    sys.tasks.get_mut(cur).ctx.x[..6].copy_from_slice(&x);
}

fn send(c: &CNode, sys: &mut System, ep: u64, flags: u64, m: [u64; 4]) -> bool {
    set(sys, [ep, flags, m[0], m[1], m[2], m[3]]);
    ipc::sys_send(c, sys)
}

fn recv(c: &CNode, sys: &mut System, ep: u64, flags: u64) -> bool {
    set(sys, [ep, flags, 0, 0, 0, 0]);
    ipc::sys_recv(c, sys)
}

fn call(c: &CNode, sys: &mut System, ep: u64, flags: u64, m: [u64; 4]) -> bool {
    set(sys, [ep, flags, m[0], m[1], m[2], m[3]]);
    ipc::sys_call(c, sys)
}

fn reply_recv(c: &CNode, sys: &mut System, ep: u64, flags: u64, m: [u64; 4]) -> bool {
    set(sys, [ep, flags, m[0], m[1], m[2], m[3]]);
    ipc::sys_reply_recv(c, sys)
}

fn status(sys: &System, t: u64) -> i64 {
    sys.ctx(t).x[0] as i64
}

fn message(sys: &System, t: u64) -> [u64; 4] {
    let x = sys.ctx(t).x;
    [x[2], x[3], x[4], x[5]]
}

#[test]
fn queue_is_first_in_first_out() {
    let mut tasks: ObjMap<Tcb> = ObjMap::new();
    for t in [A, B, C] {
        tasks.insert(t, Tcb::zeroed());
    }
    let mut q = TcbQueue::new();
    assert_eq!(q.pop(&mut tasks), 0);
    q.push(&mut tasks, B);
    q.push(&mut tasks, A);
    assert_eq!(q.pop(&mut tasks), B);
    q.push(&mut tasks, C);
    q.push(&mut tasks, B);
    assert_eq!(q.pop(&mut tasks), A);
    assert_eq!(q.pop(&mut tasks), C);
    assert_eq!(q.pop(&mut tasks), B);
    assert_eq!(q.pop(&mut tasks), 0);
    assert_eq!(Endpoint::zeroed().queue.head, 0);
}

#[test]
fn cleared_task_is_inactive() {
    let t = Tcb::zeroed();
    assert_eq!(t.state, TaskState::Inactive);
    assert_eq!((t.ttbr0_pa, t.next, t.reply_to), (0, 0, 0));
}

#[test]
fn tasks_take_turns() {
    let (_, mut sys) = three();
    let mut order = Vec::new();
    for _ in 0..7 {
        order.push(sched::current(&sys));
        // the address space follows the task
        let root = if sched::current(&sys) == C { 0xC000 } else { 0xA000 };
        assert_eq!(sched::current_user_root(&sys), root);
        assert_eq!(sys.sched.context.tcb, sched::current(&sys));
        let running =
            [A, B, C].iter().filter(|t| sys.state(**t) == TaskState::Running).count();
        assert_eq!(running, 1);
        sched::rotate(&mut sys);
    }
    assert_eq!(order, vec![A, B, C, A, B, C, A]);
}

#[test]
fn lonely_task_goes_on() {
    let (_, mut sys) = three();
    assert!(sched::exit_current(&mut sys));
    assert_eq!(sched::current(&sys), B);
    assert_eq!(sys.state(A), TaskState::Dead);
    assert!(sched::exit_current(&mut sys));
    sched::rotate(&mut sys);
    assert_eq!(sched::current(&sys), C);
    assert_eq!(sys.state(C), TaskState::Running);
    assert!(!sched::block_and_switch(&mut sys));
    assert!(!sched::exit_current(&mut sys));
    assert_eq!(sys.state(C), TaskState::Dead);
}

#[test]
fn sender_waits_for_a_receiver() {
    let (c, mut sys) = three();
    assert!(send(&c, &mut sys, EP, 0, [1, 2, 3, 4]));
    assert_eq!(sys.state(A), TaskState::BlockedSend);
    assert_eq!(sched::current(&sys), B);
    assert!(recv(&c, &mut sys, EP, 0));
    assert_eq!(status(&sys, B), 0);
    assert_eq!(message(&sys, B), [1, 2, 3, 4]);
    assert_eq!(sched::current(&sys), B);
    assert_eq!(sys.state(A), TaskState::Ready);
    assert_eq!(status(&sys, A), 0);
}

#[test]
fn receiver_waits_for_a_sender() {
    let (c, mut sys) = three();
    assert!(recv(&c, &mut sys, EP, 0));
    assert_eq!(sys.state(A), TaskState::BlockedRecv);
    // a peer is there, so not wanting to block makes no difference
    assert!(send(&c, &mut sys, EP, NB, [9, 8, 7, 6]));
    assert_eq!(sched::current(&sys), B);
    assert_eq!(status(&sys, B), 0);
    assert_eq!(sys.state(A), TaskState::Ready);
    assert_eq!(message(&sys, A), [9, 8, 7, 6]);
    assert_eq!(status(&sys, A), 0);
    assert_eq!(sys.ctx(A).x[1], 0);
}

#[test]
fn nonblocking_calls_come_back_at_once() {
    let (c, mut sys) = three();
    assert!(send(&c, &mut sys, EP, NB, [0; 4]));
    assert_eq!(status(&sys, A), err::WOULD_BLOCK);
    assert!(recv(&c, &mut sys, EP, NB));
    assert_eq!(status(&sys, A), err::WOULD_BLOCK);
    assert!(call(&c, &mut sys, EP, NB, [0; 4]));
    assert_eq!(status(&sys, A), err::WOULD_BLOCK);
    assert!(reply_recv(&c, &mut sys, EP, NB, [0; 4]));
    assert_eq!(status(&sys, A), err::WOULD_BLOCK);
    assert_eq!(sched::current(&sys), A);
}

#[test]
fn wrong_slots_are_told() {
    let (c, mut sys) = three();
    for (slot, e) in [(3, err::BAD_CAP), (0, err::BAD_CAP), (99, err::BAD_SLOT), (1 << 40, err::BAD_SLOT)] {
        assert!(send(&c, &mut sys, slot, 0, [0; 4]));
        assert_eq!(status(&sys, A), e);
        assert!(recv(&c, &mut sys, slot, 0));
        assert_eq!(status(&sys, A), e);
        assert!(call(&c, &mut sys, slot, 0, [0; 4]));
        assert_eq!(status(&sys, A), e);
        assert!(reply_recv(&c, &mut sys, slot, 0, [0; 4]));
        assert_eq!(status(&sys, A), e);
    }
    assert_eq!(sys.state(A), TaskState::Running);
}

#[test]
fn waiting_senders_are_served_in_order() {
    let (c, mut sys) = three();
    assert!(send(&c, &mut sys, EP, 0, [1, 0, 0, 0]));
    assert!(send(&c, &mut sys, EP, 0, [2, 0, 0, 0]));
    assert_eq!(sched::current(&sys), C);
    assert!(recv(&c, &mut sys, EP, NB));
    assert_eq!(message(&sys, C)[0], 1);
    assert!(recv(&c, &mut sys, EP, NB));
    assert_eq!(message(&sys, C)[0], 2);
    assert!(recv(&c, &mut sys, EP, NB));
    assert_eq!(status(&sys, C), err::WOULD_BLOCK);
}

#[test]
fn call_gets_its_reply() {
    let (c, mut sys) = three();
    assert!(recv(&c, &mut sys, EP, 0));
    // B calls A
    assert!(call(&c, &mut sys, EP, 0, [5, 6, 7, 8]));
    assert_eq!(sys.state(B), TaskState::BlockedReply);
    assert_eq!(sched::current(&sys), C);
    sched::rotate(&mut sys);
    assert_eq!(sched::current(&sys), A);
    assert_eq!(message(&sys, A), [5, 6, 7, 8]);
    assert_eq!(sys.tasks.get(A).reply_to, B);
    assert!(reply_recv(&c, &mut sys, EP, 0, [50, 60, 70, 80]));
    assert_eq!(sys.tasks.get(A).reply_to, 0);
    assert_eq!(sys.state(A), TaskState::BlockedRecv);
    assert_eq!(sys.state(B), TaskState::Ready);
    assert_eq!(status(&sys, B), 0);
    assert_eq!(message(&sys, B), [50, 60, 70, 80]);
}

#[test]
fn queued_call_gets_its_reply() {
    let (c, mut sys) = three();
    assert!(call(&c, &mut sys, EP, 0, [5, 6, 7, 8]));
    assert_eq!(sys.state(A), TaskState::BlockedCall);
    assert!(recv(&c, &mut sys, EP, 0));
    assert_eq!(sched::current(&sys), B);
    assert_eq!(message(&sys, B), [5, 6, 7, 8]);
    assert_eq!(sys.state(A), TaskState::BlockedReply);
    assert_eq!(sys.tasks.get(B).reply_to, A);
    assert!(reply_recv(&c, &mut sys, EP2, NB, [1, 1, 1, 1]));
    assert_eq!(status(&sys, B), err::WOULD_BLOCK);
    assert_eq!(message(&sys, A), [1, 1, 1, 1]);
    assert_eq!(sys.state(A), TaskState::Ready);
    // the reply was owed once
    assert!(reply_recv(&c, &mut sys, EP2, NB, [2, 2, 2, 2]));
    assert_eq!(message(&sys, A), [1, 1, 1, 1]);
}

#[test]
fn second_call_gives_up_the_first() {
    let (c, mut sys) = three();
    assert!(call(&c, &mut sys, EP, 0, [1, 0, 0, 0]));
    assert!(call(&c, &mut sys, EP, 0, [2, 0, 0, 0]));
    // C takes the call of A and then that of B
    assert!(recv(&c, &mut sys, EP, 0));
    assert_eq!(sys.state(A), TaskState::BlockedReply);
    assert!(recv(&c, &mut sys, EP, 0));
    assert_eq!(sys.state(A), TaskState::Ready);
    assert_eq!(status(&sys, A), err::NO_REPLY);
    assert_eq!(sys.tasks.get(C).reply_to, B);
}

#[test]
fn ended_server_leaves_no_caller_behind() {
    let (c, mut sys) = three();
    assert!(call(&c, &mut sys, EP, 0, [1, 0, 0, 0]));
    assert!(recv(&c, &mut sys, EP, 0));
    assert_eq!(sched::current(&sys), B);
    ipc::abort_reply(&mut sys, B);
    assert!(sched::exit_current(&mut sys));
    assert_eq!(status(&sys, A), err::NO_REPLY);
    assert_eq!(sys.state(A), TaskState::Ready);
    // nothing is owed any more
    ipc::abort_reply(&mut sys, B);
    assert_eq!(sys.state(A), TaskState::Ready);
}

#[test]
fn all_blocked_is_reported() {
    let (c, mut sys) = three();
    assert!(recv(&c, &mut sys, EP, 0));
    assert!(send(&c, &mut sys, EP2, 0, [0; 4]));
    assert!(!call(&c, &mut sys, EP2, 0, [0; 4]));
    assert_eq!(sys.state(C), TaskState::BlockedCall);
}

#[test]
fn nothing_but_the_message_travels() {
    let mut src = Context::zeroed();
    let mut dst = Context::zeroed();
    for i in 0..31 {
        src.x[i] = 100 + i as u64;
        dst.x[i] = 200 + i as u64;
    }
    src.sp = 1;
    dst.sp = 2;
    dst.tpidr = 3;
    ipc::deliver(&src, &mut dst);
    for i in 0..31u64 {
        let want = match i {
            0 | 1 => 0,
            2..=5 => 100 + i,
            _ => 200 + i,
        };
        assert_eq!(dst.x[i as usize], want);
    }
    assert_eq!((dst.sp, dst.tpidr), (2, 3));
}

fn seg(va: u64, memsz: u64, kind: SegKind) -> LoadSeg {
    LoadSeg { va, memsz, kind }
}

fn spawned(
    image: &[u8],
    base: u64,
    entry: u64,
    segs: &[LoadSeg],
    frames: u64,
) -> Result<(Tcb, u64), SpawnError> {
    let plat = Platform::Virt;
    let mut m = PhysMem::new(plat);
    let mut fa =
        FrameAlloc::new(plat, 0x4100_0000..0x4100_0000 + frames * 0x1000).ok().unwrap();
    let page = fa.alloc_one(&mut m).ok().unwrap();
    spawn::spawn_root(image, base, entry, segs, page, &mut fa, &mut m)
}

#[test]
fn root_task_is_loaded() {
    let image = [0x11u8; 0x2000];
    let segs = [seg(0x40_0000, 0x800, SegKind::Text), seg(0x40_1000, 0x10, SegKind::Rw)];
    let (t, root) = spawned(&image, 0x40_0000, 0x40_0010, &segs, 64).unwrap();
    assert_eq!(t.ttbr0_pa, root);
    assert_eq!(t.ctx.elr, 0x40_0010);
    assert_eq!(t.ctx.sp, 0x1000_0000);
    assert_eq!(t.ctx.spsr, 0);
    assert_eq!(t.ctx.x, [0; 31]);
    assert_eq!(root, 0x4100_3000);
}

#[test]
fn bad_images_are_not_loaded() {
    let image = [0u8; 0x2000];
    let text = [seg(0x40_0000, 0x800, SegKind::Text)];
    let e = |img: &[u8], base: u64, entry: u64, segs: &[LoadSeg]| {
        spawned(img, base, entry, segs, 64).err()
    };
    let bad = Some(SpawnError::BadLayout);
    assert_eq!(e(&image, 0x40_0800, 0x40_0800, &text), bad);
    assert_eq!(e(&image[..0x1FFF], 0x40_0000, 0x40_0000, &text), bad);
    assert_eq!(e(&[], 0x40_0000, 0x40_0000, &text), bad);
    assert_eq!(e(&image, 0x40_0000, 0x40_0000, &[]), bad);
    assert_eq!(e(&image, u64::MAX - 0xFFF, 0x40_0000, &text), bad);
    assert_eq!(e(&image, 0x40_0000, 0x40_2000, &text), bad);
    assert_eq!(e(&image, 0x40_0000, 0x3F_FFFF, &text), bad);
    for s in [
        seg(0x3F_F000, 0x1000, SegKind::Text),
        seg(0x40_1000, 0x1001, SegKind::Text),
        seg(0x40_0800, 0x10, SegKind::Text),
        seg(0x40_0000, 0, SegKind::Text),
        seg(0x40_0000, u64::MAX, SegKind::Text),
        seg(0x40_0000, 0x10, SegKind::Ro),
        seg(0x40_0000, 0x10, SegKind::Rw),
    ] {
        assert_eq!(e(&image, 0x40_0000, 0x40_0000, &[s]), bad);
    }
    let twice = [text[0], text[0]];
    assert_eq!(
        e(&image, 0x40_0000, 0x40_0000, &twice),
        Some(SpawnError::Mmu(MmuError::Overlap))
    );
    let low = [seg(0, 0x10, SegKind::Text)];
    assert_eq!(e(&image, 0, 0, &low), Some(SpawnError::Mmu(MmuError::NullPage)));
    for frames in [2, 4, 8, 16, 24] {
        assert_eq!(
            spawned(&image, 0x40_0000, 0x40_0000, &text, frames).err(),
            Some(SpawnError::Mmu(MmuError::OutOfFrames))
        );
    }
}
