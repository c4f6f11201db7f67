use string_abi::membrane::{
    CheckStage, Cost, Event, HealingAction, Membrane, MembraneAction, Query, Runtime,
};
use string_abi::memory::{Memory, Ptr};
use string_abi::tokens::{
    __strsep_1c, __strsep_2c, __strsep_3c, __strsep_g, __strtok_r, __strtok_r_1c, strsep, strtok,
    strtok_r,
};

fn runtime() -> Runtime {
    Runtime {
        bootstrap: false,
        policy_tls: false,
        pthread_tls: false,
        allocator_reentry: false,
        validation: false,
        ready: true,
        policy_reentry: false,
        threading_policy: false,
        strict: false,
        heals: true,
        proof_carried: false,
        htm_forced: false,
        htm_commits: false,
        action: MembraneAction::Allow,
        clamp: HealingAction::Unchanged,
        needle_clamp: HealingAction::Unchanged,
        order: [
            CheckStage::Null,
            CheckStage::Other(1),
            CheckStage::Other(2),
            CheckStage::Arena,
            CheckStage::Other(4),
            CheckStage::Other(5),
            CheckStage::Bounds,
        ],
    }
}

fn with(rt: Runtime) -> Membrane {
    Membrane { rt, depth: 0, log: Vec::new() }
}

fn strict() -> Membrane {
    with(Runtime { strict: true, ..runtime() })
}

fn healing() -> Membrane {
    with(runtime())
}

fn denying() -> Membrane {
    with(Runtime { action: MembraneAction::Deny, ..runtime() })
}

fn at(addr: usize) -> Ptr {
    Ptr { addr, remaining: None, owned: false }
}

fn known(addr: usize, remaining: usize) -> Ptr {
    Ptr { addr, remaining: Some(remaining), owned: true }
}

fn null() -> Ptr {
    at(0)
}

fn space(texts: &[(usize, &[u8])]) -> Memory {
    let mut mem = Memory::new(2);
    let all = vec![b'#'; 8192];
    mem.write(0, &all);
    for (addr, text) in texts {
        mem.write(*addr, text);
    }
    mem
}

fn text(mem: &Memory, addr: usize) -> Vec<u8> {
    let mut out = Vec::new();
    let mut a = addr;
    while mem.load(a) != 0 {
        out.push(mem.load(a));
        a += 1;
    }
    out
}

fn all_tokens(input: &[u8], delim: &[u8], cx: &mut Membrane) -> Vec<Vec<u8>> {
    let mut mem = space(&[(100, input), (1000, delim)]);
    let mut save = Some(0);
    let mut out = Vec::new();
    let mut tok = strtok_r(&mut mem, at(100), at(1000), &mut save, None, cx);
    while tok != 0 {
        out.push(text(&mem, tok));
        tok = strtok_r(&mut mem, null(), at(1000), &mut save, None, cx);
    }
    out
}

#[test]
fn strtok_r_splits_at_any_delimiter() {
    let expected: Vec<Vec<u8>> = vec![b"one".to_vec(), b"two".to_vec(), b"three".to_vec()];
    assert_eq!(all_tokens(b"  one, two,,three \0", b" ,\0", &mut strict()), expected);
    assert_eq!(all_tokens(b"  one, two,,three \0", b" ,\0", &mut healing()), expected);
    assert_eq!(all_tokens(b"one two three\0", b" \0", &mut strict()), expected);
    assert_eq!(all_tokens(b"one;two:three\0", b";:!\0", &mut strict()), expected);
    assert_eq!(all_tokens(b"one;two:three\0", b";:!?\0", &mut strict()), expected);
    assert_eq!(all_tokens(b"one;two:three\0", b";:!?.,\0", &mut strict()), expected);
    assert_eq!(
        all_tokens(b"one\xe9two\xe8three\0", b"\xe9\xe8\xe7\xe6\xe5\xe4\0", &mut strict()),
        expected
    );
    let mut many = vec![b';', b':'];
    many.extend(b"ABCDEFGHIJKLMNOPQRSTUVWXYZ0123456789!?.,-_()[]{}<>/|=+*&^%$@~`'\" ".iter());
    many.push(0);
    assert_eq!(all_tokens(b"one;two:three\0", &many, &mut strict()), expected);
}

#[test]
fn strtok_r_without_delimiters_gives_the_whole_string() {
    assert_eq!(all_tokens(b"one two\0", b"\0", &mut strict()), vec![b"one two".to_vec()]);
    assert_eq!(all_tokens(b"one two\0", b"\0", &mut healing()), vec![b"one two".to_vec()]);
}

#[test]
fn strtok_r_of_delimiters_only_has_no_token() {
    assert!(all_tokens(b",,,\0", b",\0", &mut strict()).is_empty());
    assert!(all_tokens(b"\0", b",\0", &mut healing()).is_empty());
}

#[test]
fn strtok_r_writes_one_nul_and_advances() {
    let mut mem = space(&[(100, b"ab,cd\0"), (1000, b",\0")]);
    let mut save = Some(0);
    assert_eq!(strtok_r(&mut mem, at(100), at(1000), &mut save, None, &mut strict()), 100);
    assert_eq!(save, Some(103));
    assert_eq!(mem.read(100, 6), b"ab\0cd\0");
    assert_eq!(__strtok_r(&mut mem, null(), at(1000), &mut save, None, &mut strict()), 103);
    assert_eq!(save, Some(105));
    assert_eq!(strtok_r(&mut mem, null(), at(1000), &mut save, None, &mut strict()), 0);
    assert_eq!(save, Some(0));
}

#[test]
fn strtok_r_with_nothing_to_work_on() {
    let mut mem = space(&[(100, b"ab\0")]);
    let mut save = Some(100);
    assert_eq!(strtok_r(&mut mem, null(), null(), &mut save, None, &mut strict()), 0);
    assert_eq!(save, Some(100));
    let mut none = None;
    let mut cx = healing();
    assert_eq!(strtok_r(&mut mem, at(100), at(100), &mut none, None, &mut cx), 0);
    assert_eq!(
        cx.log,
        vec![Event::Outcome { aligned: false, recent_page: false, exit: Some(0) }]
    );
    let mut empty = Some(0);
    assert_eq!(strtok_r(&mut mem, null(), at(100), &mut empty, None, &mut strict()), 0);
    assert_eq!(empty, Some(0));
}

#[test]
fn strtok_r_reports_to_the_runtime() {
    let mut mem = space(&[(104, b"ab,cd\0"), (1000, b",\0")]);
    let mut save = Some(0);
    let mut cx = healing();
    assert_eq!(strtok_r(&mut mem, at(104), at(1000), &mut save, None, &mut cx), 104);
    assert_eq!(
        cx.log,
        vec![
            Event::Decide(Query { addr: 104, len: 0, write: true, untracked: true }),
            Event::Observe { cost: Cost::Scaled(8, 3), adverse: false },
            Event::Outcome { aligned: true, recent_page: false, exit: Some(6) },
        ]
    );
    assert_eq!(cx.depth, 0);
}

#[test]
fn denied_strtok_changes_nothing() {
    let mut mem = space(&[(100, b"ab,cd\0"), (1000, b",\0")]);
    let mut save = Some(7);
    let mut cx = denying();
    assert_eq!(strtok_r(&mut mem, at(100), at(1000), &mut save, None, &mut cx), 0);
    assert_eq!(save, Some(7));
    assert_eq!(mem.read(100, 6), b"ab,cd\0");
    let mut saved = 9;
    assert_eq!(strtok(&mut mem, at(100), at(1000), &mut saved, None, &mut denying()), 0);
    assert_eq!(saved, 9);
    assert_eq!(cx.log.len(), 3);
}

#[test]
fn delimiters_without_an_end_stop_the_call() {
    let mut mem = space(&[(100, b"ab,cd\0"), (1000, b",\0")]);
    let mut save = Some(7);
    let mut cx = healing();
    assert_eq!(strtok_r(&mut mem, at(100), known(1000, 1), &mut save, None, &mut cx), 0);
    assert_eq!(save, Some(0));
    assert_eq!(cx.log[1], Event::Observe { cost: Cost::Scaled(8, 6), adverse: true });
    let mut p = Some(100);
    assert_eq!(strsep(&mut mem, &mut p, None, false, known(1000, 1), &mut healing()), 0);
    assert_eq!(p, Some(100));
}

#[test]
fn strtok_keeps_its_place() {
    let mut mem = space(&[(100, b"/usr/bin\0"), (1000, b"/\0")]);
    let mut saved = 0;
    let mut cx = strict();
    assert_eq!(strtok(&mut mem, at(100), at(1000), &mut saved, None, &mut cx), 101);
    assert_eq!(saved, 105);
    assert_eq!(strtok(&mut mem, null(), at(1000), &mut saved, None, &mut cx), 105);
    assert_eq!(saved, 108);
    assert_eq!(strtok(&mut mem, null(), at(1000), &mut saved, None, &mut cx), 0);
    assert_eq!(saved, 0);
}

#[test]
fn strtok_stays_inside_a_known_allocation() {
    let mut mem = space(&[(100, b"ab,"), (1000, b",\0")]);
    let mut saved = 0;
    assert_eq!(strtok(&mut mem, known(100, 3), at(1000), &mut saved, None, &mut healing()), 100);
    assert_eq!(saved, 102);
    assert_eq!(mem.read(100, 4), b"ab\0#");
    let mut mem = space(&[(100, b"ab,"), (1000, b",\0")]);
    let mut save = Some(0);
    assert_eq!(
        strtok_r(&mut mem, known(100, 3), at(1000), &mut save, None, &mut healing()),
        100
    );
    assert_eq!(save, Some(103));
}

#[test]
fn strsep_gives_empty_fields() {
    let mut mem = space(&[(100, b"a::b\0"), (1000, b":\0")]);
    let mut p = Some(100);
    let mut fields = Vec::new();
    loop {
        let f = strsep(&mut mem, &mut p, None, false, at(1000), &mut strict());
        if f == 0 {
            break;
        }
        fields.push(text(&mem, f));
    }
    assert_eq!(fields, vec![b"a".to_vec(), b"".to_vec(), b"b".to_vec()]);
    assert_eq!(p, Some(0));
}

#[test]
fn strsep_without_delimiters_or_string() {
    let mut mem = space(&[(100, b"a:b\0")]);
    let mut p = Some(100);
    assert_eq!(strsep(&mut mem, &mut p, None, false, null(), &mut strict()), 100);
    assert_eq!(p, Some(0));
    assert_eq!(strsep(&mut mem, &mut p, None, false, null(), &mut strict()), 0);
    let mut none = None;
    assert_eq!(strsep(&mut mem, &mut none, None, false, null(), &mut strict()), 0);
    assert_eq!(none, None);
}

#[test]
fn strsep_over_large_sets_and_in_healing_mode() {
    for delim in [&b":;,.!?\0"[..], &b":\0"[..], &b":;\0"[..], &b"\xff\xfe\xfd\xfc\xfb:\0"[..]] {
        for cx in [&mut strict(), &mut healing()] {
            let mut mem = space(&[(100, b"left:right\0"), (1000, delim)]);
            let mut p = Some(100);
            assert_eq!(__strsep_g(&mut mem, &mut p, None, false, at(1000), cx), 100);
            assert_eq!(p, Some(105));
            assert_eq!(mem.read(100, 11), b"left\0right\0");
        }
    }
}

#[test]
fn fixed_delimiters_go_through_a_buffer() {
    let mut mem = space(&[(100, b"a:b;c,d\0")]);
    let mut p = Some(100);
    let mut cx = strict();
    assert_eq!(__strsep_1c(&mut mem, &mut p, None, false, b':', at(2000), &mut cx), 100);
    assert_eq!(p, Some(102));
    assert_eq!(__strsep_2c(&mut mem, &mut p, None, false, b':', b';', at(2000), &mut cx), 102);
    assert_eq!(p, Some(104));
    assert_eq!(
        __strsep_3c(&mut mem, &mut p, None, false, b':', b';', b',', at(2000), &mut cx),
        104
    );
    assert_eq!(p, Some(106));
    let mut save = Some(0);
    let mut mem = space(&[(100, b"--x-y\0")]);
    assert_eq!(__strtok_r_1c(&mut mem, at(100), b'-', at(2000), &mut save, None, &mut cx), 102);
    assert_eq!(save, Some(104));
}

#[test]
fn denied_strsep_gives_nothing() {
    let mut mem = space(&[(100, b"a:b\0"), (1000, b":\0")]);
    let mut p = Some(100);
    let mut cx = denying();
    assert_eq!(strsep(&mut mem, &mut p, None, false, at(1000), &mut cx), 0);
    assert_eq!(p, Some(100));
    assert_eq!(cx.log[2], Event::Observe { cost: Cost::Flat(6), adverse: true });
}

#[test]
fn law_token_is_a_string() {
    let mut mem = space(&[(100, b"..key==value\0"), (1000, b".=\0")]);
    let mut save = Some(0);
    let tok = strtok_r(&mut mem, at(100), at(1000), &mut save, None, &mut strict());
    assert_eq!(tok, 102);
    assert_eq!(text(&mem, tok), b"key");
}

#[test]
fn law_next_call_sees_the_rest() {
    let mut mem = space(&[(100, b"a,rest,of\0"), (1000, b",\0")]);
    let mut save = Some(0);
    strtok_r(&mut mem, at(100), at(1000), &mut save, None, &mut strict());
    assert_eq!(text(&mem, save.unwrap()), b"rest,of");
}

#[test]
fn law_strtok_goes_on_like_strtok_r() {
    let mut a = space(&[(100, b"x y z\0"), (1000, b" \0")]);
    let mut b = space(&[(100, b"x y z\0"), (1000, b" \0")]);
    let mut save = Some(0);
    let mut saved = 0;
    for first in [at(100), null(), null(), null()] {
        let t = strtok_r(&mut a, first, at(1000), &mut save, None, &mut strict());
        let u = strtok(&mut b, first, at(1000), &mut saved, None, &mut strict());
        assert_eq!(t, u);
        assert_eq!(save, Some(saved));
    }
}

#[test]
fn law_strsep_keeps_the_fields() {
    let mut mem = space(&[(100, b"one two\0"), (1000, b" \0")]);
    let mut p = Some(100);
    let f = strsep(&mut mem, &mut p, None, false, at(1000), &mut strict());
    assert_eq!(text(&mem, f), b"one");
    assert_eq!(text(&mem, p.unwrap()), b"two");
}
