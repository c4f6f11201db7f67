use string_abi::membrane::{
    CheckStage, Cost, Event, HealingAction, Membrane, MembraneAction, Query, Runtime,
};
use string_abi::memory::{Memory, Ptr};
use string_abi::search::{
    __memrchr, __rawmemchr, __strchrnul, index, memchr, memrchr, rawmemchr, rindex, strchr,
    strchrnul, strlen, strnlen, strrchr,
};
use string_abi::sets::{
    __strcspn_c1, __strcspn_c2, __strcspn_c3, __strpbrk_c2, __strpbrk_c3, __strspn_c1,
    __strspn_c2, __strspn_c3, const_set_contains, const_set_from_args, strcspn, strpbrk, strspn,
};
use string_abi::substr::{__strcasestr, memmem, strcasestr, strnstr, strstr};

fn runtime() -> Runtime {
    Runtime {
        bootstrap: false,
        policy_tls: false,
        pthread_tls: false,
        allocator_reentry: false,
        validation: false,
        ready: true,
        policy_reentry: false,
        threading_policy: false,
        strict: false,
        heals: true,
        proof_carried: false,
        htm_forced: false,
        htm_commits: false,
        action: MembraneAction::Allow,
        clamp: HealingAction::Unchanged,
        needle_clamp: HealingAction::Unchanged,
        order: [
            CheckStage::Null,
            CheckStage::Other(1),
            CheckStage::Other(2),
            CheckStage::Arena,
            CheckStage::Other(4),
            CheckStage::Other(5),
            CheckStage::Bounds,
        ],
    }
}

fn with(rt: Runtime) -> Membrane {
    Membrane { rt, depth: 0, log: Vec::new() }
}

fn strict() -> Membrane {
    with(Runtime { strict: true, ..runtime() })
}

fn healing() -> Membrane {
    with(runtime())
}

fn denying() -> Membrane {
    with(Runtime { action: MembraneAction::Deny, ..runtime() })
}

fn at(addr: usize) -> Ptr {
    Ptr { addr, remaining: None, owned: false }
}

fn known(addr: usize, remaining: usize) -> Ptr {
    Ptr { addr, remaining: Some(remaining), owned: true }
}

fn null() -> Ptr {
    at(0)
}

fn space(texts: &[(usize, &[u8])]) -> Memory {
    let mut mem = Memory::new(2);
    let all = vec![b'#'; 8192];
    mem.write(0, &all);
    for (addr, text) in texts {
        mem.write(*addr, text);
    }
    mem
}

fn cut(requested: usize, truncated: usize) -> Event {
    Event::Heal(HealingAction::TruncateWithNull { requested, truncated })
}

#[test]
fn strlen_by_mode() {
    let mem = space(&[(104, b"hello\0")]);
    assert_eq!(strlen(&mem, null(), &mut strict()), 0);
    assert_eq!(strlen(&mem, at(104), &mut strict()), 5);
    assert_eq!(strlen(&mem, known(104, 3), &mut strict()), 3);
    let mut boot = with(Runtime { bootstrap: true, ..runtime() });
    assert_eq!(strlen(&mem, known(104, 3), &mut boot), 5);
    let mut raw = with(Runtime { allocator_reentry: true, ..runtime() });
    assert_eq!(strlen(&mem, known(104, 3), &mut raw), 5);
    let mut cx = healing();
    assert_eq!(strlen(&mem, known(104, 3), &mut cx), 3);
    assert_eq!(
        cx.log,
        vec![
            Event::Decide(Query { addr: 104, len: 0, write: false, untracked: false }),
            cut(4, 3),
            Event::Outcome { aligned: true, recent_page: true, exit: Some(6) },
            Event::Observe { cost: Cost::Scaled(7, 3), adverse: true },
        ]
    );
    let mut quiet = with(Runtime { heals: false, ..runtime() });
    assert_eq!(strlen(&mem, at(104), &mut quiet), 5);
    assert!(quiet.log.is_empty());
    assert_eq!(strlen(&mem, at(104), &mut denying()), 0);
}

#[test]
fn strnlen_by_mode() {
    let mem = space(&[(100, b"hello\0")]);
    assert_eq!(strnlen(&mem, at(100), 3, &mut strict()), 3);
    assert_eq!(strnlen(&mem, at(100), 100_000, &mut strict()), 5);
    assert_eq!(strnlen(&mem, at(100), 0, &mut strict()), 0);
    assert_eq!(strnlen(&mem, null(), 4, &mut strict()), 0);
    let mut cx = healing();
    assert_eq!(strnlen(&mem, known(100, 2), 9, &mut cx), 2);
    assert_eq!(cx.log[1], cut(9, 2));
    assert_eq!(strnlen(&mem, at(100), 9, &mut denying()), 0);
}

#[test]
fn memchr_and_memrchr() {
    let mem = space(&[(100, b"abcabc")]);
    for cx in [&mut strict(), &mut healing()] {
        assert_eq!(memchr(&mem, at(100), b'b' as i32, 6, cx), 101);
        assert_eq!(memchr(&mem, at(100), b'b' as i32 + 256, 6, cx), 101);
        assert_eq!(memchr(&mem, at(100), b'b' as i32 - 256, 6, cx), 101);
        assert_eq!(memchr(&mem, at(100), b'z' as i32, 6, cx), 0);
        assert_eq!(memrchr(&mem, at(100), b'b' as i32, 6, cx), 104);
        assert_eq!(memrchr(&mem, at(100), b'z' as i32, 6, cx), 0);
        assert_eq!(__memrchr(&mem, at(100), b'a' as i32, 3, cx), 100);
        assert_eq!(memchr(&mem, at(100), b'b' as i32, 0, cx), 0);
        assert_eq!(memchr(&mem, null(), b'b' as i32, 6, cx), 0);
    }
    let mut cx = with(Runtime {
        clamp: HealingAction::ClampSize { requested: 6, clamped: 1 },
        ..runtime()
    });
    assert_eq!(memchr(&mem, known(100, 1), b'b' as i32, 6, &mut cx), 0);
    assert_eq!(cx.log[4], Event::Observe { cost: Cost::Scaled(6, 1), adverse: true });
    let mut cx = with(Runtime {
        clamp: HealingAction::ClampSize { requested: 6, clamped: 0 },
        ..runtime()
    });
    assert_eq!(memrchr(&mem, known(100, 0), b'b' as i32, 6, &mut cx), 0);
    assert_eq!(cx.log[4], Event::Observe { cost: Cost::Scaled(6, 6), adverse: true });
    assert_eq!(memchr(&mem, at(100), b'b' as i32, 6, &mut denying()), 0);
}

#[test]
fn rawmemchr_goes_on_until_it_finds() {
    let mut text = vec![b'a'; 100];
    text.push(b'!');
    let mem = space(&[(4050, &text)]);
    assert_eq!(rawmemchr(&mem, 4050, b'!' as i32), 4150);
    assert_eq!(__rawmemchr(&mem, 4050, b'a' as i32), 4050);
    assert_eq!(rawmemchr(&mem, 0, b'a' as i32), 0);
}

#[test]
fn strchr_family() {
    let mem = space(&[(100, b"a/b/c\0")]);
    for cx in [&mut strict(), &mut healing()] {
        assert_eq!(strchr(&mem, at(100), b'/' as i32, cx), 101);
        assert_eq!(strchr(&mem, at(100), b'?' as i32, cx), 0);
        assert_eq!(strchr(&mem, at(100), 0, cx), 105);
        assert_eq!(index(&mem, at(100), b'c' as i32, cx), 104);
        assert_eq!(strrchr(&mem, at(100), b'/' as i32, cx), 103);
        assert_eq!(rindex(&mem, at(100), 0, cx), 105);
        assert_eq!(strrchr(&mem, at(100), b'?' as i32, cx), 0);
        assert_eq!(strchrnul(&mem, at(100), b'?' as i32, cx), 105);
        assert_eq!(__strchrnul(&mem, at(100), b'b' as i32, cx), 102);
        assert_eq!(strchr(&mem, null(), b'b' as i32, cx), 0);
        assert_eq!(strchrnul(&mem, null(), b'b' as i32, cx), 0);
        assert_eq!(strrchr(&mem, null(), b'b' as i32, cx), 0);
    }
}

#[test]
fn strchr_family_under_bounds_and_denial() {
    let mem = space(&[(100, b"a/b/c\0")]);
    let mut cx = healing();
    assert_eq!(strchr(&mem, known(100, 2), b'c' as i32, &mut cx), 0);
    assert_eq!(cx.log[1], cut(2, 2));
    assert_eq!(cx.log[3], Event::Observe { cost: Cost::Scaled(6, 2), adverse: true });
    assert_eq!(strchrnul(&mem, known(100, 2), b'c' as i32, &mut healing()), 102);
    assert_eq!(strrchr(&mem, known(100, 3), b'/' as i32, &mut healing()), 101);
    assert_eq!(strchr(&mem, at(100), b'/' as i32, &mut denying()), 0);
    assert_eq!(strchrnul(&mem, at(100), b'/' as i32, &mut denying()), 100);
    assert_eq!(strrchr(&mem, at(100), b'/' as i32, &mut denying()), 0);
    let mut cx = healing();
    assert_eq!(strchr(&mem, at(100), b'/' as i32, &mut cx), 101);
    assert_eq!(cx.log[2], Event::Observe { cost: Cost::Scaled(6, 2), adverse: false });
}

#[test]
fn strstr_finds_the_first_place() {
    let mem = space(&[
        (100, b"the cat sat on the mat\0"),
        (200, b"at\0"),
        (300, b"the m\0"),
        (400, b"\0"),
        (500, b"dog\0"),
        (600, b"c\0"),
    ]);
    let mut raw = with(Runtime { policy_tls: true, ..runtime() });
    for cx in [&mut strict(), &mut healing(), &mut raw] {
        assert_eq!(strstr(&mem, at(100), at(200), cx), 105);
        assert_eq!(strstr(&mem, at(100), at(300), cx), 115);
        assert_eq!(strstr(&mem, at(100), at(400), cx), 100);
        assert_eq!(strstr(&mem, at(100), at(500), cx), 0);
        assert_eq!(strstr(&mem, at(100), at(600), cx), 104);
        assert_eq!(strstr(&mem, null(), at(500), cx), 0);
        assert_eq!(strstr(&mem, at(100), null(), cx), 100);
        assert_eq!(strstr(&mem, at(200), at(300), cx), 0);
    }
}

#[test]
fn strstr_gives_up_trying_first_bytes() {
    let mut hay = vec![b'a'; 3000];
    hay.extend_from_slice(b"b\0");
    let mut needle = vec![b'a'; 60];
    needle.extend_from_slice(b"b\0");
    let mem = space(&[(100, &hay), (4000, &needle)]);
    assert_eq!(strstr(&mem, at(100), at(4000), &mut strict()), 100 + 3000 - 60);
    assert_eq!(strcasestr(&mem, at(100), at(4000), &mut strict()), 100 + 3000 - 60);
}

#[test]
fn strstr_under_bounds() {
    let mem = space(&[(100, b"abcabd\0"), (200, b"abd\0")]);
    assert_eq!(strstr(&mem, known(100, 5), at(200), &mut strict()), 0);
    assert_eq!(strstr(&mem, known(100, 6), at(200), &mut strict()), 103);
    assert_eq!(strstr(&mem, at(100), known(200, 2), &mut strict()), 100);
    let mut cx = healing();
    assert_eq!(strstr(&mem, known(100, 5), known(200, 9), &mut cx), 0);
    assert_eq!(cx.log[1], cut(14, 5));
    assert_eq!(cx.log[3], Event::Observe { cost: Cost::Scaled(10, 5), adverse: true });
    let mut cx = healing();
    assert_eq!(strstr(&mem, at(100), at(200), &mut cx), 103);
    assert_eq!(cx.log[2], Event::Observe { cost: Cost::Scaled(10, 6), adverse: false });
    assert_eq!(strstr(&mem, at(100), at(200), &mut denying()), 0);
}

#[test]
fn strcasestr_folds_case() {
    let mem = space(&[(100, b"Content-TYPE: x\0"), (200, b"content-type\0"), (300, b"TYPE\0")]);
    for cx in [&mut strict(), &mut healing()] {
        assert_eq!(strcasestr(&mem, at(100), at(200), cx), 100);
        assert_eq!(__strcasestr(&mem, at(100), at(300), cx), 108);
        assert_eq!(strcasestr(&mem, at(300), at(200), cx), 0);
        assert_eq!(strcasestr(&mem, null(), at(200), cx), 0);
        assert_eq!(strcasestr(&mem, at(100), null(), cx), 100);
    }
    let mut cx = healing();
    assert_eq!(strcasestr(&mem, known(100, 4), at(300), &mut cx), 0);
    assert_eq!(cx.log[2], Event::Observe { cost: Cost::Scaled(10, 4), adverse: true });
    assert_eq!(strcasestr(&mem, at(100), at(300), &mut denying()), 0);
}

#[test]
fn memmem_finds_blocks() {
    let mem = space(&[(100, b"ab\0ab\0c"), (200, b"b\0c")]);
    for cx in [&mut strict(), &mut healing()] {
        assert_eq!(memmem(&mem, at(100), 7, at(200), 3, cx), 104);
        assert_eq!(memmem(&mem, at(100), 6, at(200), 3, cx), 0);
        assert_eq!(memmem(&mem, at(100), 7, at(200), 0, cx), 100);
        assert_eq!(memmem(&mem, null(), 7, at(200), 3, cx), 0);
        assert_eq!(memmem(&mem, at(100), 0, at(200), 3, cx), 0);
    }
    let mut cx = with(Runtime {
        clamp: HealingAction::ClampSize { requested: 7, clamped: 3 },
        needle_clamp: HealingAction::ClampSize { requested: 3, clamped: 2 },
        ..runtime()
    });
    assert_eq!(memmem(&mem, known(100, 3), 7, known(200, 2), 3, &mut cx), 101);
    assert_eq!(cx.log.len(), 7);
    assert_eq!(cx.log[6], Event::Observe { cost: Cost::Scaled(10, 3), adverse: true });
    assert_eq!(memmem(&mem, at(100), 7, at(200), 3, &mut denying()), 0);
}

#[test]
fn strnstr_is_bounded() {
    let mem = space(&[(100, b"abcdef\0"), (200, b"de\0"), (300, b"\0")]);
    let mut cx = strict();
    assert_eq!(strnstr(&mem, at(100), at(200), 5, &mut cx), 103);
    assert_eq!(strnstr(&mem, at(100), at(200), 4, &mut cx), 0);
    assert_eq!(strnstr(&mem, at(100), at(200), 0, &mut cx), 0);
    assert_eq!(strnstr(&mem, at(100), at(300), 0, &mut cx), 100);
    assert_eq!(strnstr(&mem, at(100), null(), 5, &mut cx), 100);
    assert_eq!(strnstr(&mem, null(), at(200), 5, &mut cx), 0);
    assert_eq!(strnstr(&mem, at(100), at(200), 999, &mut cx), 103);
}

#[test]
fn spans_over_sets_of_all_sizes() {
    let mut wide: Vec<u8> = (b'a'..=b'z').collect();
    wide.extend(b'A'..=b'Z');
    wide.extend(b'0'..=b'9');
    wide.extend_from_slice(b"-_.+");
    wide.push(0);
    let sets: [&[u8]; 8] = [
        b"x\0",
        b"xy\0",
        b"xyz\0",
        b"wxyz\0",
        b"uvwxyz\0",
        b"uvwxyz\xe9\xe8\0",
        b"abcdefghijklmnopqrstuvwxyz\0",
        &wide,
    ];
    for set in sets {
        let mem = space(&[(100, b"xxx!xx\0"), (200, b"!!!x!\0"), (1000, set)]);
        for cx in [&mut strict(), &mut healing()] {
            assert_eq!(strspn(&mem, at(100), at(1000), cx), 3);
            assert_eq!(strcspn(&mem, at(200), at(1000), cx), 3);
            assert_eq!(strpbrk(&mem, at(200), at(1000), cx), 203);
            assert_eq!(strspn(&mem, at(200), at(1000), cx), 0);
            assert_eq!(strcspn(&mem, at(100), at(1000), cx), 0);
        }
    }
}

#[test]
fn spans_that_run_long() {
    for set in [&b"x\0"[..], &b"xyzuvw\0"[..], &b"xyzuvw\xff\0"[..]] {
        for len in [0usize, 1, 15, 16, 17, 127, 128, 129, 300] {
            for start in [100usize, 3990, 4080] {
                let mut text = vec![b'x'; len];
                text.push(0);
                let mem = space(&[(start, &text), (5000, set)]);
                assert_eq!(strspn(&mem, at(start), at(5000), &mut strict()), len);
                assert_eq!(strpbrk(&mem, at(start + len), at(5000), &mut strict()), 0);
            }
        }
    }
}

#[test]
fn spans_with_empty_sets_and_null() {
    let mem = space(&[(100, b"abc\0"), (200, b"\0")]);
    let mut cx = strict();
    assert_eq!(strspn(&mem, at(100), at(200), &mut cx), 0);
    assert_eq!(strcspn(&mem, at(100), at(200), &mut cx), 3);
    assert_eq!(strpbrk(&mem, at(100), at(200), &mut cx), 0);
    assert!(cx.log.is_empty());
    assert_eq!(strspn(&mem, null(), at(200), &mut cx), 0);
    assert_eq!(cx.log.len(), 1);
    assert_eq!(strcspn(&mem, at(100), at(200), &mut denying()), 0);
    assert_eq!(strpbrk(&mem, at(100), at(100), &mut denying()), 0);
    let mut cx = healing();
    assert_eq!(strcspn(&mem, known(100, 2), at(200), &mut cx), 2);
    assert_eq!(cx.log[2], Event::Observe { cost: Cost::Scaled(7, 2), adverse: true });
}

#[test]
fn fixed_sets() {
    let mem = space(&[(100, b"aab-c\0")]);
    let mut cx = strict();
    let (a, b, c, dash) = (b'a' as i32, b'b' as i32, b'c' as i32, b'-' as i32);
    assert_eq!(__strspn_c1(&mem, at(100), a, &mut cx), 2);
    assert_eq!(__strspn_c2(&mem, at(100), a, b, &mut cx), 3);
    assert_eq!(__strspn_c3(&mem, at(100), a, b, dash, &mut cx), 4);
    assert_eq!(__strspn_c1(&mem, at(100), 0, &mut cx), 0);
    assert_eq!(__strcspn_c1(&mem, at(100), dash, &mut cx), 3);
    assert_eq!(__strcspn_c2(&mem, at(100), c, b, &mut cx), 2);
    assert_eq!(__strcspn_c3(&mem, at(100), 1, 2, c, &mut cx), 4);
    assert_eq!(__strcspn_c1(&mem, at(100), 0, &mut cx), 5);
    assert_eq!(__strpbrk_c2(&mem, at(100), dash, c, &mut cx), 103);
    assert_eq!(__strpbrk_c3(&mem, at(100), 1, 2, c, &mut cx), 104);
    assert_eq!(__strpbrk_c2(&mem, at(100), 0, c, &mut cx), 0);
    assert_eq!(__strpbrk_c2(&mem, at(100), 1, 2, &mut cx), 0);
    assert_eq!(__strspn_c1(&mem, null(), a, &mut cx), 0);
    assert_eq!(__strcspn_c1(&mem, known(100, 2), dash, &mut healing()), 2);
    assert_eq!(__strspn_c1(&mem, at(100), a, &mut denying()), 0);
    assert_eq!(const_set_from_args(&[a, 0, b]), vec![b'a']);
    assert_eq!(const_set_from_args(&[a + 256, -159]), vec![b'a', b'a']);
    assert!(const_set_contains(b"xyz", b'y'));
    assert!(!const_set_contains(b"xyz", b'q'));
}

#[test]
fn law_spans_are_complementary() {
    let mem = space(&[(100, b"abc\0"), (200, b"ab\0")]);
    let inside = strspn(&mem, at(100), at(200), &mut strict());
    let outside = strcspn(&mem, at(100), at(200), &mut strict());
    assert_eq!((inside, outside), (2, 0));
}

#[test]
fn law_strpbrk_is_where_strcspn_stops() {
    let mem = space(&[(100, b"path=value\0"), (200, b"=:\0")]);
    let n = strcspn(&mem, at(100), at(200), &mut strict());
    assert_eq!(strpbrk(&mem, at(100), at(200), &mut strict()), 100 + n);
}

#[test]
fn law_nul_is_found_at_the_end() {
    let mem = space(&[(100, b"text\0")]);
    let n = strlen(&mem, at(100), &mut strict());
    assert_eq!(strchr(&mem, at(100), 0, &mut strict()), 100 + n);
    assert_eq!(strrchr(&mem, at(100), 0, &mut strict()), 100 + n);
}

#[test]
fn law_found_string_stands_there() {
    let mem = space(&[(100, b"xxabcxx\0"), (200, b"abc\0")]);
    let p = strstr(&mem, at(100), at(200), &mut strict());
    assert_eq!(mem.read(p, 3), b"abc");
}

#[test]
fn law_folding_finds_no_later() {
    let mem = space(&[(100, b"ABC abc\0"), (200, b"abc\0")]);
    let exact = strstr(&mem, at(100), at(200), &mut strict());
    let folded = strcasestr(&mem, at(100), at(200), &mut strict());
    assert_eq!((exact, folded), (104, 100));
}
