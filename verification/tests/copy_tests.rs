use string_abi::append::{strcat, strlcat, strncat};
use string_abi::copy::{
    __stpcpy, __stpcpy_small, __stpncpy, __strcpy_small, __strxfrm_l, bench_strcpy_fused,
    bench_strcpy_two_pass, bench_strncpy_fused, bench_strncpy_two_pass, stpcpy, stpncpy, strcpy,
    strlcpy, strncpy, strxfrm,
};
use string_abi::dup::{__strdup, __strndup, dup_request, strdup, strndup};
use string_abi::membrane::{
    CheckStage, Cost, Event, HealingAction, Membrane, MembraneAction, Query, Runtime,
};
use string_abi::memory::{Memory, Ptr};

fn runtime() -> Runtime {
    Runtime {
        bootstrap: false,
        policy_tls: false,
        pthread_tls: false,
        allocator_reentry: false,
        validation: false,
        ready: true,
        policy_reentry: false,
        threading_policy: false,
        strict: false,
        heals: true,
        proof_carried: false,
        htm_forced: false,
        htm_commits: false,
        action: MembraneAction::Allow,
        clamp: HealingAction::Unchanged,
        needle_clamp: HealingAction::Unchanged,
        order: [
            CheckStage::Null,
            CheckStage::Other(1),
            CheckStage::Other(2),
            CheckStage::Arena,
            CheckStage::Other(4),
            CheckStage::Other(5),
            CheckStage::Bounds,
        ],
    }
}

fn with(rt: Runtime) -> Membrane {
    Membrane { rt, depth: 0, log: Vec::new() }
}

fn strict() -> Membrane {
    with(Runtime { strict: true, ..runtime() })
}

fn healing() -> Membrane {
    with(runtime())
}

fn denying() -> Membrane {
    with(Runtime { action: MembraneAction::Deny, ..runtime() })
}

fn at(addr: usize) -> Ptr {
    Ptr { addr, remaining: None, owned: false }
}

fn known(addr: usize, remaining: usize) -> Ptr {
    Ptr { addr, remaining: Some(remaining), owned: true }
}

fn null() -> Ptr {
    at(0)
}

fn space(texts: &[(usize, &[u8])]) -> Memory {
    let mut mem = Memory::new(2);
    let all = vec![b'#'; 8192];
    mem.write(0, &all);
    for (addr, text) in texts {
        mem.write(*addr, text);
    }
    mem
}

fn cut(requested: usize, truncated: usize) -> Event {
    Event::Heal(HealingAction::TruncateWithNull { requested, truncated })
}

fn clamp(requested: usize, clamped: usize) -> Event {
    Event::Heal(HealingAction::ClampSize { requested, clamped })
}

#[test]
fn strcpy_copies_with_the_nul() {
    let mut mem = space(&[(100, b"hello\0")]);
    assert_eq!(strcpy(&mut mem, at(500), at(100), &mut strict()), 500);
    assert_eq!(mem.read(500, 7), b"hello\0#");
    assert_eq!(stpcpy(&mut mem, at(600), at(100), &mut strict()), 605);
    assert_eq!(__stpcpy(&mut mem, at(600), at(100), &mut healing()), 605);
    assert_eq!(__strcpy_small(&mut mem, at(600), at(100), &mut strict()), 600);
    assert_eq!(__stpcpy_small(&mut mem, at(600), at(100), &mut strict()), 605);
}

#[test]
fn strcpy_of_null_gives_the_destination_back() {
    let mut mem = space(&[(100, b"x\0")]);
    assert_eq!(strcpy(&mut mem, at(500), null(), &mut strict()), 500);
    assert_eq!(strcpy(&mut mem, null(), at(100), &mut strict()), 0);
    let mut cx = healing();
    assert_eq!(strcpy(&mut mem, at(500), null(), &mut cx), 500);
    assert_eq!(
        cx.log,
        vec![Event::Outcome { aligned: false, recent_page: false, exit: Some(0) }]
    );
}

#[test]
fn repairing_strcpy_stays_inside_the_destination() {
    let mut mem = space(&[(100, b"hello\0")]);
    let mut cx = healing();
    assert_eq!(strcpy(&mut mem, known(504, 4), at(100), &mut cx), 504);
    assert_eq!(mem.read(504, 5), b"hel\0#");
    assert_eq!(
        cx.log,
        vec![
            Event::Decide(Query { addr: 504, len: 0, write: true, untracked: false }),
            cut(6, 3),
            Event::Observe { cost: Cost::Scaled(8, 4), adverse: true },
            Event::Outcome { aligned: false, recent_page: true, exit: Some(6) },
        ]
    );
    let mut cx = healing();
    assert_eq!(stpcpy(&mut mem, known(700, 0), at(100), &mut cx), 700);
    assert_eq!(mem.read(700, 2), b"##");
    assert_eq!(cx.log[1], cut(6, 0));
    let mut cx = healing();
    assert_eq!(stpcpy(&mut mem, at(700), known(100, 2), &mut cx), 702);
    assert_eq!(mem.read(700, 4), b"he\0#");
    assert_eq!(cx.log[1], cut(3, 2));
}

#[test]
fn strcpy_without_repair_ignores_allocations() {
    let mut mem = space(&[(100, b"hello\0")]);
    let mut cx = with(Runtime { heals: false, ..runtime() });
    assert_eq!(strcpy(&mut mem, known(504, 2), known(100, 2), &mut cx), 504);
    assert_eq!(mem.read(504, 6), b"hello\0");
    assert_eq!(cx.log.len(), 3);
}

#[test]
fn denied_copies_give_null() {
    let mut mem = space(&[(100, b"hello\0"), (500, b"x\0")]);
    assert_eq!(strcpy(&mut mem, at(500), at(100), &mut denying()), 0);
    assert_eq!(stpcpy(&mut mem, at(500), at(100), &mut denying()), 0);
    assert_eq!(strncpy(&mut mem, at(500), at(100), 4, &mut denying()), 0);
    assert_eq!(stpncpy(&mut mem, at(500), at(100), 4, &mut denying()), 0);
    assert_eq!(strcat(&mut mem, at(500), at(100), &mut denying()), 0);
    assert_eq!(strncat(&mut mem, at(500), at(100), 4, &mut denying()), 0);
    assert_eq!(strlcpy(&mut mem, at(500), at(100), 4, &mut denying()), 0);
    assert_eq!(strlcat(&mut mem, at(500), at(100), 4, &mut denying()), 0);
    assert_eq!(strxfrm(&mut mem, at(500), at(100), 4, &mut denying()), 0);
    assert_eq!(strdup(&mut mem, at(100), 0, &mut denying()), 0);
    assert_eq!(strndup(&mut mem, at(100), 2, 0, &mut denying()), 0);
    assert_eq!(mem.read(500, 3), b"x\0#");
    let mut cx = denying();
    strcpy(&mut mem, at(500), at(100), &mut cx);
    assert_eq!(
        cx.log,
        vec![
            Event::Decide(Query { addr: 500, len: 0, write: true, untracked: true }),
            Event::Outcome { aligned: false, recent_page: false, exit: Some(3) },
            Event::Observe { cost: Cost::Flat(7), adverse: true },
        ]
    );
}

#[test]
fn strncpy_fills_up_with_zeros() {
    let mut mem = space(&[(100, b"abc\0")]);
    assert_eq!(strncpy(&mut mem, at(500), at(100), 6, &mut strict()), 500);
    assert_eq!(mem.read(500, 7), b"abc\0\0\0#");
    assert_eq!(strncpy(&mut mem, at(600), at(100), 2, &mut strict()), 600);
    assert_eq!(mem.read(600, 3), b"ab#");
    assert_eq!(stpncpy(&mut mem, at(700), at(100), 6, &mut strict()), 703);
    assert_eq!(__stpncpy(&mut mem, at(700), at(100), 2, &mut healing()), 702);
    assert_eq!(stpncpy(&mut mem, at(700), at(100), 0, &mut strict()), 700);
    assert_eq!(strncpy(&mut mem, null(), at(100), 3, &mut strict()), 0);
}

#[test]
fn repairing_strncpy_clamps_both_sides() {
    let mut mem = space(&[(100, b"abcdef\0")]);
    let mut cx = healing();
    assert_eq!(stpncpy(&mut mem, known(500, 4), known(100, 2), 8, &mut cx), 502);
    assert_eq!(mem.read(500, 5), b"ab\0\0#");
    assert_eq!(
        cx.log[1..4],
        [
            clamp(8, 4),
            clamp(8, 2),
            Event::Observe { cost: Cost::Scaled(8, 4), adverse: true },
        ]
    );
    let mut cx = healing();
    assert_eq!(strncpy(&mut mem, known(600, 0), at(100), 8, &mut cx), 600);
    assert_eq!(mem.read(600, 1), b"#");
    assert_eq!(cx.log[3], Event::Observe { cost: Cost::Scaled(8, 8), adverse: true });
}

#[test]
fn strcat_appends() {
    for cx in [&mut strict(), &mut healing()] {
        let mut mem = space(&[(100, b"bar\0"), (500, b"foo\0")]);
        assert_eq!(strcat(&mut mem, at(500), at(100), cx), 500);
        assert_eq!(mem.read(500, 8), b"foobar\0#");
    }
}

#[test]
fn repairing_strcat_stays_inside_the_destination() {
    let mut mem = space(&[(100, b"bar\0"), (500, b"foo\0")]);
    let mut cx = healing();
    assert_eq!(strcat(&mut mem, known(500, 6), at(100), &mut cx), 500);
    assert_eq!(mem.read(500, 7), b"fooba\0#");
    assert_eq!(cx.log[1], cut(4, 2));
    assert_eq!(cx.log[2], Event::Observe { cost: Cost::Scaled(9, 6), adverse: true });
    let mut mem = space(&[(100, b"bar\0"), (500, b"foo")]);
    let mut cx = healing();
    assert_eq!(strcat(&mut mem, known(500, 3), at(100), &mut cx), 500);
    assert_eq!(mem.read(500, 4), b"fo\0#");
    assert_eq!(cx.log[1], cut(3, 2));
    let mut cx = healing();
    assert_eq!(strcat(&mut mem, known(600, 0), at(100), &mut cx), 600);
    assert_eq!(mem.read(600, 1), b"#");
    assert_eq!(cx.log[1], cut(4, 0));
    assert_eq!(cx.log[2], Event::Observe { cost: Cost::Scaled(9, 0), adverse: true });
}

#[test]
fn strncat_appends_at_most_n() {
    for cx in [&mut strict(), &mut healing()] {
        let mut mem = space(&[(100, b"barbaz\0"), (500, b"foo\0")]);
        assert_eq!(strncat(&mut mem, at(500), at(100), 3, cx), 500);
        assert_eq!(mem.read(500, 8), b"foobar\0#");
        assert_eq!(strncat(&mut mem, at(500), at(100), 0, cx), 500);
        assert_eq!(mem.read(500, 8), b"foobar\0#");
    }
}

#[test]
fn strncat_tells_a_short_source() {
    let mut mem = space(&[(100, b"barbaz\0"), (500, b"foo\0")]);
    let mut cx = healing();
    assert_eq!(strncat(&mut mem, at(500), known(100, 2), 5, &mut cx), 500);
    assert_eq!(mem.read(500, 7), b"fooba\0#");
    assert_eq!(cx.log[1], cut(6, 2));
    let mut mem = space(&[(100, b"barbaz\0"), (500, b"foo\0")]);
    let mut cx = healing();
    assert_eq!(strncat(&mut mem, at(500), known(100, 7), 5, &mut cx), 500);
    assert_eq!(cx.log.len(), 3);
}

#[test]
fn strlcpy_returns_the_source_length() {
    let mut mem = space(&[(100, b"hello\0")]);
    assert_eq!(strlcpy(&mut mem, at(500), at(100), 3, &mut strict()), 5);
    assert_eq!(mem.read(500, 4), b"he\0#");
    assert_eq!(strlcpy(&mut mem, at(600), at(100), 10, &mut strict()), 5);
    assert_eq!(mem.read(600, 7), b"hello\0#");
    assert_eq!(strlcpy(&mut mem, null(), at(100), 3, &mut strict()), 5);
    assert_eq!(strlcpy(&mut mem, at(700), at(100), 0, &mut strict()), 5);
    assert_eq!(strlcpy(&mut mem, at(700), null(), 4, &mut strict()), 0);
    assert_eq!(mem.read(700, 1), b"#");
    let mut cx = healing();
    assert_eq!(strlcpy(&mut mem, known(700, 2), at(100), 10, &mut cx), 5);
    assert_eq!(mem.read(700, 3), b"h\0#");
    assert_eq!(cx.log[1], cut(10, 2));
    assert_eq!(cx.log[3], Event::Observe { cost: Cost::Scaled(7, 5), adverse: true });
}

#[test]
fn strlcat_returns_the_whole_length() {
    let mut mem = space(&[(100, b"bar\0"), (500, b"foo\0")]);
    assert_eq!(strlcat(&mut mem, at(500), at(100), 6, &mut strict()), 6);
    assert_eq!(mem.read(500, 7), b"fooba\0#");
    let mut mem = space(&[(100, b"bar\0"), (500, b"foobar")]);
    assert_eq!(strlcat(&mut mem, at(500), at(100), 4, &mut strict()), 7);
    assert_eq!(mem.read(500, 6), b"foobar");
    assert_eq!(strlcat(&mut mem, at(500), at(100), 0, &mut strict()), 3);
    assert_eq!(strlcat(&mut mem, null(), at(100), 4, &mut strict()), 0);
    let mut mem = space(&[(100, b"bar\0"), (500, b"foo\0")]);
    let mut cx = healing();
    assert_eq!(strlcat(&mut mem, known(500, 5), at(100), 9, &mut cx), 6);
    assert_eq!(mem.read(500, 6), b"foob\0#");
    assert_eq!(cx.log[1], cut(9, 5));
    assert_eq!(cx.log[3], Event::Observe { cost: Cost::Scaled(7, 8), adverse: true });
}

#[test]
fn strxfrm_copies_bytes() {
    let mut mem = space(&[(100, b"abc\0")]);
    assert_eq!(strxfrm(&mut mem, at(500), at(100), 4, &mut strict()), 3);
    assert_eq!(mem.read(500, 5), b"abc\0#");
    assert_eq!(strxfrm(&mut mem, at(600), at(100), 3, &mut healing()), 3);
    assert_eq!(mem.read(600, 4), b"abc#");
    assert_eq!(strxfrm(&mut mem, null(), at(100), 3, &mut strict()), 3);
    assert_eq!(strxfrm(&mut mem, at(600), null(), 3, &mut strict()), 0);
    assert_eq!(__strxfrm_l(&mut mem, at(700), at(100), 9, 1, &mut strict()), 3);
    assert_eq!(mem.read(700, 4), b"abc\0");
}

#[test]
fn strdup_asks_and_copies() {
    let mut mem = space(&[(100, b"hello\0")]);
    let mut cx = strict();
    assert_eq!(dup_request(&mem, at(100), None, &cx), Some(6));
    assert_eq!(strdup(&mut mem, at(100), 800, &mut cx), 800);
    assert_eq!(mem.read(800, 7), b"hello\0#");
    assert_eq!(cx.log, vec![Event::Alloc { size: 6 }]);
    assert_eq!(strdup(&mut mem, at(100), 0, &mut strict()), 0);
    assert_eq!(strdup(&mut mem, null(), 800, &mut strict()), 0);
    assert_eq!(dup_request(&mem, null(), None, &strict()), None);
    assert_eq!(dup_request(&mem, at(100), None, &denying()), None);
    let mut cx = healing();
    assert_eq!(dup_request(&mem, known(100, 3), None, &cx), Some(4));
    assert_eq!(__strdup(&mut mem, known(100, 3), 900, &mut cx), 900);
    assert_eq!(mem.read(900, 5), b"hel\0#");
    assert_eq!(cx.log[3], Event::Observe { cost: Cost::Scaled(8, 3), adverse: true });
}

#[test]
fn strndup_stops_at_n() {
    let mut mem = space(&[(100, b"hello\0")]);
    assert_eq!(dup_request(&mem, at(100), Some(3), &strict()), Some(4));
    assert_eq!(strndup(&mut mem, at(100), 3, 800, &mut strict()), 800);
    assert_eq!(mem.read(800, 5), b"hel\0#");
    assert_eq!(__strndup(&mut mem, at(100), 99, 900, &mut healing()), 900);
    assert_eq!(mem.read(900, 7), b"hello\0#");
    let mut cx = healing();
    assert_eq!(strndup(&mut mem, known(100, 2), 4, 1000, &mut cx), 1000);
    assert_eq!(mem.read(1000, 4), b"he\0#");
    assert_eq!(cx.log[3], Event::Observe { cost: Cost::Scaled(8, 2), adverse: true });
}

#[test]
fn fused_and_two_pass_copies_agree() {
    for len in 0..70usize {
        let mut text = vec![b'k'; len];
        text.push(0);
        let mut a = space(&[(100, &text)]);
        let mut b = space(&[(100, &text)]);
        assert_eq!(bench_strcpy_fused(&mut a, 500, 100), len);
        assert_eq!(bench_strcpy_two_pass(&mut b, 500, 100), len);
        assert_eq!(a.read(0, 8192), b.read(0, 8192));
        assert_eq!(bench_strncpy_fused(&mut a, 800, 100, 33), len.min(33));
        assert_eq!(bench_strncpy_two_pass(&mut b, 800, 100, 33), len.min(33));
        assert_eq!(a.read(0, 8192), b.read(0, 8192));
    }
}

#[test]
fn law_strcat_concatenates() {
    let mut mem = space(&[(100, b"world\0"), (500, b"hello \0")]);
    strcat(&mut mem, at(500), at(100), &mut strict());
    assert_eq!(mem.read(500, 12), b"hello world\0");
}

#[test]
fn law_strncpy_offset_is_strnlen() {
    let mut mem = space(&[(100, b"four\0")]);
    let end = stpncpy(&mut mem, at(500), at(100), 9, &mut strict());
    assert_eq!(end - 500, 4);
    assert_eq!(string_abi::search::strnlen(&mem, at(500), 9, &mut strict()), 4);
}

#[test]
fn law_strlcpy_truncates_iff_not_shorter() {
    let mut mem = space(&[(100, b"four\0")]);
    for size in 1..8usize {
        let n = strlcpy(&mut mem, at(500), at(100), size, &mut strict());
        let whole = string_abi::search::strlen(&mem, at(500), &mut strict()) == 4;
        assert_eq!(whole, n < size);
    }
}

#[test]
fn law_allowed_strcpy_is_strict() {
    let mut a = space(&[(100, b"same\0")]);
    let mut b = space(&[(100, b"same\0")]);
    strcpy(&mut a, known(500, 2), at(100), &mut strict());
    strcpy(&mut b, known(500, 2), at(100), &mut with(Runtime { heals: false, ..runtime() }));
    assert_eq!(a.read(0, 8192), b.read(0, 8192));
}

#[test]
fn full_field_is_copied_into_the_next_one() {
    let mut mem = space(&[(16, b"abcdwxyz!")]);
    assert_eq!(strncpy(&mut mem, at(20), at(16), 4, &mut strict()), 20);
    assert_eq!(mem.read(16, 9), b"abcdabcd!");
    let mut mem = space(&[(16, b"abcdwxyz!")]);
    assert_eq!(stpncpy(&mut mem, at(20), at(16), 4, &mut strict()), 24);
    assert_eq!(mem.read(16, 9), b"abcdabcd!");
    let mut mem = space(&[(16, b"abcdwxyz!")]);
    assert_eq!(bench_strncpy_fused(&mut mem, 20, 16, 4), 4);
    assert_eq!(bench_strncpy_two_pass(&mut mem, 12, 16, 4), 4);
    assert_eq!(mem.read(12, 13), b"abcdabcdabcd!");
    let mut mem = space(&[(16, b"abcdwxyz!")]);
    assert_eq!(strncpy(&mut mem, at(20), known(16, 4), 5, &mut healing()), 20);
    assert_eq!(mem.read(16, 10), b"abcdabcd\0#");
    let mut mem = space(&[(16, b"ab\0######")]);
    assert_eq!(strncpy(&mut mem, at(8), at(16), 12, &mut strict()), 8);
    assert_eq!(mem.read(8, 13), b"ab\0\0\0\0\0\0\0\0\0\0#");
}

#[test]
fn append_onto_a_string_right_behind_the_source() {
    let mut mem = space(&[(16, b"abcdxy\0###")]);
    assert_eq!(strncat(&mut mem, at(20), at(16), 4, &mut strict()), 20);
    assert_eq!(mem.read(16, 12), b"abcdxyabcd\0#");
    let mut mem = space(&[(16, b"abcdxy\0###")]);
    assert_eq!(strncat(&mut mem, at(20), known(16, 4), 9, &mut healing()), 20);
    assert_eq!(mem.read(16, 12), b"abcdxyabcd\0#");
    let mut mem = space(&[(16, b"abcdxy\0###")]);
    assert_eq!(strcat(&mut mem, at(20), known(16, 4), &mut healing()), 20);
    assert_eq!(mem.read(16, 12), b"abcdxyabcd\0#");
    let mut mem = space(&[(16, b"hello\0")]);
    assert_eq!(strncat(&mut mem, at(16), at(16), 3, &mut strict()), 16);
    assert_eq!(mem.read(16, 10), b"hellohel\0#");
    let mut mem = space(&[(16, b"abcdxy\0###")]);
    assert_eq!(strlcat(&mut mem, at(20), known(16, 4), 8, &mut healing()), 6);
    assert_eq!(mem.read(16, 12), b"abcdxyabcd\0#");
}

#[test]
fn source_cut_by_its_allocation_is_copied_right_behind_it() {
    let cut = known(16, 4);
    let mut mem = space(&[(16, b"abcdwxyz!")]);
    assert_eq!(strcpy(&mut mem, at(20), cut, &mut healing()), 20);
    assert_eq!(mem.read(16, 10), b"abcdabcd\0#");
    let mut mem = space(&[(16, b"abcdwxyz!")]);
    assert_eq!(stpcpy(&mut mem, at(20), cut, &mut healing()), 24);
    let mut mem = space(&[(16, b"abcdwxyz!")]);
    assert_eq!(strlcpy(&mut mem, at(20), cut, 3, &mut healing()), 4);
    assert_eq!(mem.read(16, 9), b"abcdab\0z!");
    let mut mem = space(&[(16, b"abcdwxyz!")]);
    assert_eq!(strxfrm(&mut mem, at(20), cut, 4, &mut healing()), 4);
    assert_eq!(mem.read(16, 9), b"abcdabcd!");
    let mut mem = space(&[(16, b"abcdwxyz!")]);
    assert_eq!(strncpy(&mut mem, known(20, 0), at(9000), 4, &mut healing()), 20);
    assert_eq!(mem.read(16, 9), b"abcdwxyz!");
}
