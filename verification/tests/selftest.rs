use k0::abi::{err, syscall};
use k0::root::children::{self, Check, Deed, Msg};
use k0::root::info::{self, Info};
use k0::root::run::{self, Action, Entries, Event, Runner};
use k0::root::script;
use k0::root::speech;

fn msg(m: [u64; 4]) -> Msg {
    Msg { m0: m[0], m1: m[1], m2: m[2], m3: m[3] }
}

fn runner() -> Runner {
    let entries =
        Entries { busy: 4, exit: 8, server: 12, client: 16, client2: 20, fault: 24, fp: 28 };
    Runner::new(Info { frame_size: 4096, untyped: 5, aspace: 2, console: 3 }, entries)
}

fn answer(status: i64) -> Event {
    Event::Answer { status, m: msg([0; 4]) }
}

#[test]
fn replies_are_transformed() {
    assert_eq!(
        children::xform(msg([u64::MAX, 0, 2, 0x1234_0000_0000_0005])),
        msg([0, 0xF0F0_F0F0, 6, 0x0000_0000_0005_1234])
    );
    let m = msg([1, 2, 3, 4]);
    for (i, other) in [[2, 2, 3, 4], [1, 3, 3, 4], [1, 2, 4, 4], [1, 2, 3, 5]].iter().enumerate() {
        assert_ne!(children::xform(m), children::xform(msg(*other)), "word {i}");
    }
}

#[test]
fn children_know_what_to_do() {
    let m = msg([1, 2, 3, 4]);
    assert_eq!(children::server_step(err::BAD_CAP, m, true, true), Deed::Fail(Check::ServerRecv));
    assert_eq!(children::server_step(0, m, true, true), Deed::Exit(9));
    assert_eq!(children::server_step(0, m, false, true), Deed::NoteAndReceive(m));
    assert_eq!(
        children::server_step(0, m, false, false),
        Deed::NoteAndReply(m, children::xform(m))
    );
    assert_eq!(children::client_first(), msg([0xC1A0, 1, 2, 3]));
    assert_eq!(children::client2_first(), msg([0xC2B0, 4, 5, 6]));
    assert_eq!(children::client_sent(0), Deed::Call(msg([0xC3C0, 7, 8, 9])));
    assert_eq!(children::client_sent(-1), Deed::Fail(Check::ClientSend));
    assert_eq!(children::client_called(-15), Deed::NoteStatusAndExit(-15, 11));
    assert_eq!(children::client2_sent(0), Deed::Exit(12));
    assert_eq!(children::client2_sent(-1), Deed::Fail(Check::Client2Send));
    assert_eq!(children::child_exit_step(99_999), Deed::Count);
    assert_eq!(children::child_exit_step(100_000), Deed::Exit(7));
    assert_eq!(children::child_exit_step(100_001), Deed::Count);
}

#[test]
fn task_speaks() {
    assert_eq!(speech::speak(&Action::Say("hi\n")), b"hi\n");
    assert_eq!(
        speech::speak(&Action::SayNumber("slot ", 0xAB)),
        b"slot 0x00000000000000ab\n"
    );
    assert_eq!(speech::fail("map pt"), b"root: FAIL map pt\n");
    assert_eq!(children::check_name(Check::ServerRecv), "server recv");
    assert_eq!(children::check_name(Check::ClientSend), "client send");
    assert_eq!(children::check_name(Check::Client2Send), "client2 send");
}

/// The arguments of a system call.
fn svc(a: &Action) -> [u64; 7] {
    match *a {
        Action::Svc { nr, x0, x1, x2, x3, x4, x5 } => [nr, x0, x1, x2, x3, x4, x5],
        _ => panic!("no system call"),
    }
}

fn puts(console: u64, text: &str) -> Vec<[u64; 7]> {
    text.bytes().map(|b| [0, console, u64::from(b), 0, 0, 0, 0]).collect()
}

#[test]
fn each_byte_is_one_call() {
    assert_eq!(svc(&speech::putc_call(3, b'k')), [syscall::DEBUG_PUTC, 3, 0x6B, 0, 0, 0, 0]);
    let calls: Vec<_> = speech::put_str(9, "k0\n").iter().map(svc).collect();
    assert_eq!(
        calls,
        vec![[0, 9, 0x6B, 0, 0, 0, 0], [0, 9, 0x30, 0, 0, 0, 0], [0, 9, 0x0A, 0, 0, 0, 0]]
    );
    assert!(speech::put_str(9, "").is_empty());
    let calls: Vec<_> = speech::put_bytes(4, &[0xFF, 0]).iter().map(svc).collect();
    assert_eq!(calls, vec![[0, 4, 0xFF, 0, 0, 0, 0], [0, 4, 0, 0, 0, 0, 0]]);
}

#[test]
fn failed_check_is_told_and_ends_the_task() {
    let exit = [syscall::EXIT, 1, 0, 0, 0, 0, 0];
    let mut want = puts(7, "root: FAIL map pt\n");
    want.push(exit);
    let calls: Vec<_> = speech::failed(7, "map pt").iter().map(svc).collect();
    assert_eq!(calls, want);

    let mut r = runner();
    assert!(r.go_on(Event::Done).is_ok());
    assert!(r.go_on(Event::Done).is_ok());
    let calls: Vec<_> = r.go_on(answer(0)).unwrap_err().iter().map(svc).collect();
    let mut want = puts(3, "root: FAIL retype null slot\n");
    want.push(exit);
    assert_eq!(calls, want);
}

#[test]
fn refused_page_is_told_after_the_greeting() {
    let entries =
        Entries { busy: 4, exit: 8, server: 12, client: 16, client2: 20, fault: 24, fp: 28 };
    let mut page = vec![1u64, 4096, 5, 0, 0, 0, 3, 0, 0, 2, 0, 0, 7, 0, 0, 1, 0x1000, 0x2_0000];
    let refusal = |page: &[u64]| -> String {
        assert!(info::is_readable(page));
        let calls = run::begin(page, entries).err().unwrap();
        let (last, text) = calls.split_last().unwrap();
        assert_eq!(svc(last), [syscall::EXIT, 1, 0, 0, 0, 0, 0]);
        text.iter()
            .map(|a| {
                let x = svc(a);
                assert_eq!((x[0], x[1]), (syscall::DEBUG_PUTC, info::FIRST_CONSOLE));
                x[2] as u8 as char
            })
            .collect()
    };
    // a page that announces more than it holds is refused for its header first
    page[0] = 2;
    page[2] = u64::MAX;
    assert_eq!(refusal(&page), "root: hello from EL0\nroot: FAIL bootinfo version\n");
    page[0] = 1;
    page[1] = 4097;
    assert_eq!(refusal(&page), "root: hello from EL0\nroot: FAIL bootinfo frame size\n");
    page[1] = 4096;
    assert!(!info::is_readable(&page));
    page[2] = 6;
    assert!(!info::is_readable(&page));
    page[2] = 0;
    assert_eq!(refusal(&page), "root: hello from EL0\nroot: FAIL untyped search\n");
    assert!(!info::is_readable(&page[..2]));
}

#[test]
fn two_tasks_are_made_before_either_is_checked() {
    for name in ["retype client tcbs", "retype fault tcbs"] {
        let first = (0..script::STEPS).find(|i| script::step(*i).name == name).unwrap();
        for (a, b, ok) in [(3, 4, true), (-1, 4, false), (3, 0, false), (0, -1, false)] {
            let mut r = runner();
            r.pc = first;
            for (n, status) in [a, b].into_iter().enumerate() {
                assert!(matches!(r.action(), Action::Svc { nr: syscall::RETYPE, x0: 5, .. }));
                let end = r.advance(answer(status));
                assert_eq!(end, if n == 0 || ok { Ok(()) } else { Err(name) });
            }
        }
    }
}

#[test]
fn first_steps_of_the_self_test() {
    let mut r = runner();
    assert!(matches!(r.action(), Action::Say("root: hello from EL0\n")));
    assert_eq!(r.advance(Event::Done), Ok(()));
    assert!(matches!(r.action(), Action::SayNumber("root: untyped slot ", 5)));
    assert_eq!(r.advance(Event::Done), Ok(()));
    assert!(matches!(r.action(), Action::Svc { nr: syscall::RETYPE, x0: 0, x1: 1, .. }));
    assert_eq!(r.advance(answer(err::NOT_UNTYPED)), Ok(()));
    assert!(matches!(r.action(), Action::Svc { nr: syscall::RETYPE, x0: 5, x1: 99, .. }));
    assert_eq!(r.advance(answer(err::BAD_TYPE)), Ok(()));
    assert!(matches!(r.action(), Action::Svc { nr: syscall::RETYPE, x0: 5, x1: 1, .. }));
    assert_eq!(r.advance(answer(6)), Ok(()));
    assert!(matches!(
        r.action(),
        Action::Svc { nr: syscall::MAP, x0: 6, x1: 0x2000_0000, x2: 1, x3: 2, .. }
    ));
    assert_eq!(r.advance(answer(0)), Err("map before pt"));
    assert!(!r.has_passed());
}

#[test]
fn wrong_answers_are_named() {
    let mut r = runner();
    r.advance(Event::Done).unwrap();
    r.advance(Event::Done).unwrap();
    assert_eq!(r.advance(answer(0)), Err("retype null slot"));
    assert_eq!(script::STEPS, 145);
}
