use string_abi::membrane::{
    clamp_destination_size_for_tests, stage_index, strlen_gate_new_for_bench,
    strlen_gate_old_for_bench, CheckStage, Cost, Event, HealingAction, Membrane, MembraneAction,
    Query, Runtime,
};
use string_abi::memops::{
    __mempcpy, bcopy, bzero, explicit_bzero, explicit_memset, memccpy, memcpy, memmove, mempcpy,
    memset, memset_explicit, swab,
};
use string_abi::memory::{
    bench_raw_memcpy_bytes, bench_raw_memmove_bytes, bench_raw_memset_bytes, regions_overlap,
    wide_read_within_page, Memory, Ptr,
};

fn runtime() -> Runtime {
    Runtime {
        bootstrap: false,
        policy_tls: false,
        pthread_tls: false,
        allocator_reentry: false,
        validation: false,
        ready: true,
        policy_reentry: false,
        threading_policy: false,
        strict: false,
        heals: true,
        proof_carried: false,
        htm_forced: false,
        htm_commits: false,
        action: MembraneAction::Allow,
        clamp: HealingAction::Unchanged,
        needle_clamp: HealingAction::Unchanged,
        order: [
            CheckStage::Null,
            CheckStage::Other(1),
            CheckStage::Other(2),
            CheckStage::Arena,
            CheckStage::Other(4),
            CheckStage::Other(5),
            CheckStage::Bounds,
        ],
    }
}

fn with(rt: Runtime) -> Membrane {
    Membrane { rt, depth: 0, log: Vec::new() }
}

fn strict() -> Membrane {
    with(Runtime { strict: true, ..runtime() })
}

fn healing() -> Membrane {
    with(runtime())
}

fn denying() -> Membrane {
    with(Runtime { action: MembraneAction::Deny, ..runtime() })
}

fn at(addr: usize) -> Ptr {
    Ptr { addr, remaining: None, owned: false }
}

fn known(addr: usize, remaining: usize) -> Ptr {
    Ptr { addr, remaining: Some(remaining), owned: true }
}

fn null() -> Ptr {
    at(0)
}

fn space(texts: &[(usize, &[u8])]) -> Memory {
    let mut mem = Memory::new(2);
    let all = vec![b'#'; 8192];
    mem.write(0, &all);
    for (addr, text) in texts {
        mem.write(*addr, text);
    }
    mem
}

fn clamped(requested: usize, clamped: usize) -> Membrane {
    with(Runtime { clamp: HealingAction::ClampSize { requested, clamped }, ..runtime() })
}

#[test]
fn memory_reads_back_what_was_written() {
    let mut mem = Memory::new(1);
    assert_eq!(mem.size(), 4096);
    assert_eq!(mem.load(4095), 0);
    mem.write(10, b"abc");
    mem.store(13, b'd');
    assert_eq!(mem.read(9, 6), b"\0abcd\0");
    mem.write(8, &[1, 2, 3, 4, 5, 6, 7, 8]);
    assert_eq!(mem.word(8), 0x0807_0605_0403_0201);
}

#[test]
fn page_and_overlap_tests() {
    assert!(wide_read_within_page(4096 - 8));
    assert!(!wide_read_within_page(4096 - 7));
    assert!(wide_read_within_page(4096));
    assert!(regions_overlap(100, 104, 5));
    assert!(!regions_overlap(100, 104, 4));
    assert!(!regions_overlap(100, 100, 0));
    assert!(regions_overlap(usize::MAX - 1, usize::MAX - 2, 50));
}

#[test]
fn raw_blocks() {
    let mut mem = space(&[(100, b"abcdef")]);
    bench_raw_memcpy_bytes(&mut mem, 200, 100, 6);
    assert_eq!(mem.read(200, 7), b"abcdef#");
    bench_raw_memmove_bytes(&mut mem, 102, 100, 4);
    assert_eq!(mem.read(100, 7), b"ababcd#");
    bench_raw_memmove_bytes(&mut mem, 200, 202, 4);
    assert_eq!(mem.read(200, 7), b"cdefef#");
    bench_raw_memset_bytes(&mut mem, 100, b'!', 3);
    assert_eq!(mem.read(100, 4), b"!!!b");
}

#[test]
fn memcpy_copies() {
    for cx in [&mut strict(), &mut healing(), &mut with(Runtime { heals: false, ..runtime() })] {
        let mut mem = space(&[(100, b"data")]);
        assert_eq!(memcpy(&mut mem, at(200), at(100), 4, cx), 200);
        assert_eq!(mem.read(200, 5), b"data#");
        assert_eq!(memcpy(&mut mem, at(300), at(100), 0, cx), 300);
        assert_eq!(memcpy(&mut mem, null(), at(100), 4, cx), 0);
        assert_eq!(memcpy(&mut mem, null(), at(100), 0, cx), 0);
        assert_eq!(cx.depth, 0);
    }
}

#[test]
fn memcpy_reports() {
    let mut mem = space(&[(104, b"datadata")]);
    let mut cx = clamped(8, 3);
    assert_eq!(memcpy(&mut mem, known(200, 3), at(104), 8, &mut cx), 200);
    assert_eq!(mem.read(200, 4), b"dat#");
    assert_eq!(
        cx.log,
        vec![
            Event::Decide(Query { addr: 200, len: 8, write: true, untracked: false }),
            Event::HealCopyBounds { requested: 8, src: None, dst: Some(3) },
            Event::Heal(HealingAction::ClampSize { requested: 8, clamped: 3 }),
            Event::Transaction { len: 3 },
            Event::Outcome { aligned: true, recent_page: true, exit: None },
            Event::Observe { cost: Cost::Scaled(7, 3), adverse: true },
        ]
    );
    let mut cx = clamped(8, 0);
    assert_eq!(memcpy(&mut mem, known(300, 0), at(104), 8, &mut cx), 300);
    assert_eq!(mem.read(300, 1), b"#");
    assert_eq!(cx.log[4], Event::Observe { cost: Cost::Scaled(7, 8), adverse: true });
    let mut cx = denying();
    assert_eq!(memcpy(&mut mem, at(300), at(104), 8, &mut cx), 0);
    assert_eq!(mem.read(300, 1), b"#");
    assert_eq!(cx.log.len(), 3);
    assert_eq!(cx.depth, 0);
}

#[test]
fn memcpy_shortcuts() {
    let mut mem = space(&[(104, b"datadata")]);
    let mut cx = with(Runtime { heals: false, proof_carried: true, htm_forced: true, ..runtime() });
    assert_eq!(memcpy(&mut mem, known(200, 3), at(104), 8, &mut cx), 200);
    assert_eq!(mem.read(200, 9), b"datadata#");
    assert_eq!(
        cx.log,
        vec![
            Event::Decide(Query { addr: 200, len: 8, write: true, untracked: true }),
            Event::Transaction { len: 8 },
            Event::Observe { cost: Cost::Scaled(7, 8), adverse: false },
        ]
    );
    let mut cx = with(Runtime { strict: true, htm_forced: true, htm_commits: true, ..runtime() });
    assert_eq!(memcpy(&mut mem, at(1000), at(0), 256, &mut cx), 0);
    assert_eq!(memcpy(&mut mem, at(1000), at(4), 256, &mut cx), 1000);
    assert_eq!(memcpy(&mut mem, at(1000), at(4), 257, &mut cx), 1000);
    assert_eq!(cx.log, vec![Event::Transaction { len: 256 }]);
    let mut nested = healing();
    nested.depth = 1;
    assert_eq!(memcpy(&mut mem, at(300), at(104), 4, &mut nested), 300);
    assert!(nested.log.is_empty());
    assert_eq!(nested.depth, 1);
}

#[test]
fn memmove_handles_overlap() {
    for cx in [&mut strict(), &mut healing()] {
        let mut mem = space(&[(100, b"abcdefgh")]);
        assert_eq!(memmove(&mut mem, at(102), at(100), 6, cx), 102);
        assert_eq!(mem.read(100, 9), b"ababcdef#");
        assert_eq!(memmove(&mut mem, at(100), at(102), 6, cx), 100);
        assert_eq!(mem.read(100, 9), b"abcdefef#");
        bcopy(&mut mem, at(100), at(103), 3, cx);
        assert_eq!(mem.read(100, 9), b"abcabcef#");
        assert_eq!(memmove(&mut mem, null(), at(100), 3, cx), 0);
    }
    let mut mem = space(&[(100, b"abc")]);
    assert_eq!(memmove(&mut mem, at(200), at(100), 3, &mut denying()), 0);
    let mut cx = clamped(3, 2);
    assert_eq!(memmove(&mut mem, at(200), at(100), 3, &mut cx), 200);
    assert_eq!(mem.read(200, 3), b"ab#");
    assert_eq!(cx.log[4], Event::Observe { cost: Cost::Scaled(8, 2), adverse: true });
}

#[test]
fn memset_fills() {
    for cx in [&mut strict(), &mut healing()] {
        let mut mem = space(&[]);
        assert_eq!(memset(&mut mem, at(100), b'x' as i32 + 512, 3, cx), 100);
        assert_eq!(explicit_memset(&mut mem, at(103), -1, 2, cx), 103);
        assert_eq!(memset_explicit(&mut mem, at(105), 0, 1, cx), 105);
        assert_eq!(mem.read(100, 7), b"xxx\xff\xff\0#");
        assert_eq!(memset(&mut mem, null(), 0, 3, cx), 0);
        assert_eq!(memset(&mut mem, at(100), 0, 0, cx), 100);
    }
    let mut mem = space(&[]);
    assert_eq!(memset(&mut mem, at(100), 0, 3, &mut denying()), 0);
    assert_eq!(mem.read(100, 1), b"#");
    let mut cx = clamped(3, 1);
    assert_eq!(memset(&mut mem, known(100, 1), 0, 3, &mut cx), 100);
    assert_eq!(mem.read(100, 2), b"\0#");
    assert_eq!(cx.log[1], Event::HealCopyBounds { requested: 3, src: None, dst: Some(1) });
}

#[test]
fn mempcpy_returns_the_end() {
    for cx in [&mut strict(), &mut healing()] {
        let mut mem = space(&[(100, b"data")]);
        assert_eq!(mempcpy(&mut mem, at(200), at(100), 4, cx), 204);
        assert_eq!(mem.read(200, 5), b"data#");
        assert_eq!(__mempcpy(&mut mem, at(200), at(100), 0, cx), 200);
        assert_eq!(mempcpy(&mut mem, at(200), null(), 4, cx), 0);
    }
    let mut mem = space(&[(100, b"data")]);
    let mut cx = clamped(4, 3);
    assert_eq!(mempcpy(&mut mem, at(200), at(100), 4, &mut cx), 203);
    let mut cx = clamped(4, 0);
    assert_eq!(mempcpy(&mut mem, at(300), at(100), 4, &mut cx), 300);
    assert_eq!(mempcpy(&mut mem, at(300), at(100), 4, &mut denying()), 0);
    let mut cx = healing();
    assert_eq!(mempcpy(&mut mem, at(200), null(), 4, &mut cx), 0);
    assert_eq!(
        cx.log,
        vec![Event::Outcome { aligned: true, recent_page: false, exit: Some(0) }]
    );
}

#[test]
fn memccpy_stops_behind_the_byte() {
    for cx in [&mut strict(), &mut healing()] {
        let mut mem = space(&[(100, b"key=val")]);
        assert_eq!(memccpy(&mut mem, at(200), at(100), b'=' as i32, 7, cx), 204);
        assert_eq!(mem.read(200, 5), b"key=#");
        assert_eq!(memccpy(&mut mem, at(300), at(100), b'?' as i32, 3, cx), 0);
        assert_eq!(mem.read(300, 4), b"key#");
        assert_eq!(memccpy(&mut mem, at(300), at(100), b'=' as i32, 0, cx), 0);
        assert_eq!(memccpy(&mut mem, null(), at(100), b'=' as i32, 3, cx), 0);
    }
    let mut mem = space(&[(100, b"key=val")]);
    let mut cx = clamped(7, 2);
    assert_eq!(memccpy(&mut mem, at(200), at(100), b'=' as i32, 7, &mut cx), 0);
    assert_eq!(mem.read(200, 3), b"ke#");
    assert_eq!(memccpy(&mut mem, at(400), at(100), b'=' as i32, 7, &mut denying()), 0);
    assert_eq!(mem.read(400, 1), b"#");
}

#[test]
fn bzero_clears() {
    let mut mem = space(&[]);
    bzero(&mut mem, at(100), 2, &mut strict());
    explicit_bzero(&mut mem, at(103), 1, &mut healing());
    assert_eq!(mem.read(100, 5), b"\0\0#\0#");
    let mut cx = healing();
    bzero(&mut mem, null(), 4, &mut cx);
    assert_eq!(cx.log.len(), 1);
    bzero(&mut mem, at(200), 4, &mut denying());
    assert_eq!(mem.read(200, 1), b"#");
    let mut cx = clamped(4, 1);
    bzero(&mut mem, known(200, 1), 4, &mut cx);
    assert_eq!(mem.read(200, 2), b"\0#");
    assert_eq!(cx.log[4], Event::Observe { cost: Cost::Scaled(5, 1), adverse: true });
}

#[test]
fn swab_swaps_pairs() {
    for cx in [&mut strict(), &mut healing()] {
        let mut mem = space(&[(100, b"abcdefg")]);
        swab(&mut mem, at(100), at(200), 6, cx);
        assert_eq!(mem.read(200, 7), b"badcfe#");
        swab(&mut mem, at(100), at(300), 7, cx);
        assert_eq!(mem.read(300, 7), b"badcfe#");
        swab(&mut mem, at(100), at(400), -4, cx);
        swab(&mut mem, at(100), at(400), 0, cx);
        swab(&mut mem, null(), at(400), 4, cx);
        assert_eq!(mem.read(400, 1), b"#");
    }
    let mut mem = space(&[(100, b"abcd")]);
    swab(&mut mem, at(100), at(200), 4, &mut clamped(4, 2));
    assert_eq!(mem.read(200, 3), b"ba#");
    swab(&mut mem, at(100), at(300), 4, &mut denying());
    assert_eq!(mem.read(300, 1), b"#");
}

#[test]
fn law_swab_twice() {
    let mut mem = space(&[(100, b"abcdef")]);
    swab(&mut mem, at(100), at(200), 6, &mut strict());
    swab(&mut mem, at(200), at(300), 6, &mut strict());
    assert_eq!(mem.read(300, 6), b"abcdef");
}

#[test]
fn law_moved_block_reads_back() {
    let mut mem = space(&[(100, b"0123456789")]);
    memmove(&mut mem, at(103), at(100), 7, &mut strict());
    assert_eq!(mem.read(103, 7), b"0123456");
    assert_eq!(mem.read(100, 3), b"012");
}

#[test]
fn law_guard_is_exclusive() {
    let mut cx = healing();
    assert!(cx.enter_string_membrane_guard());
    assert!(!cx.enter_string_membrane_guard());
    assert_eq!(cx.depth, 1);
    cx.leave_string_membrane_guard();
    assert_eq!(cx.depth, 0);
    cx.leave_string_membrane_guard();
    assert_eq!(cx.depth, 0);
}

#[test]
fn guard_is_refused_while_the_runtime_is_busy() {
    let refused = [
        Runtime { bootstrap: true, ..runtime() },
        Runtime { policy_tls: true, ..runtime() },
        Runtime { pthread_tls: true, ..runtime() },
        Runtime { allocator_reentry: true, ..runtime() },
        Runtime { validation: true, ..runtime() },
        Runtime { policy_reentry: true, ..runtime() },
        Runtime { threading_policy: true, ..runtime() },
    ];
    for rt in refused {
        assert!(!with(rt).enter_string_membrane_guard());
    }
    let early = Runtime { ready: false, policy_reentry: true, threading_policy: true, ..runtime() };
    assert!(with(early).enter_string_membrane_guard());
}

#[test]
fn gates_of_the_length_scan() {
    assert!(strlen_gate_old_for_bench(&strict()));
    assert!(strlen_gate_new_for_bench(&strict()));
    let raw = with(Runtime { validation: true, ..runtime() });
    assert!(strlen_gate_old_for_bench(&raw));
    assert!(!strlen_gate_new_for_bench(&raw));
    assert!(!strlen_gate_old_for_bench(&healing()));
}

#[test]
fn destination_sizes_are_clamped() {
    assert_eq!(clamp_destination_size_for_tests(10, Some(4), true), (4, true));
    assert_eq!(clamp_destination_size_for_tests(10, Some(4), false), (10, false));
    assert_eq!(clamp_destination_size_for_tests(10, Some(10), true), (10, false));
    assert_eq!(clamp_destination_size_for_tests(10, None, true), (10, false));
}

#[test]
fn law_clamp_twice() {
    let (once, _) = clamp_destination_size_for_tests(10, Some(4), true);
    assert_eq!(clamp_destination_size_for_tests(once, Some(4), true), (4, false));
}

#[test]
fn stages_have_places() {
    let order = runtime().order;
    assert_eq!(stage_index(&order, CheckStage::Null), 0);
    assert_eq!(stage_index(&order, CheckStage::Arena), 3);
    assert_eq!(stage_index(&order, CheckStage::Bounds), 6);
    assert_eq!(stage_index(&order, CheckStage::Other(9)), 0);
}
