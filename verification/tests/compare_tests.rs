use string_abi::compare::{
    __memcmpeq, __strcasecmp, __strcasecmp_l, __strcoll_l, __strncasecmp_l, bcmp,
    bench_scan_strcasecmp, bench_scan_strcmp, consttime_bcmp, consttime_memequal, memcmp,
    memcmp_first_diff, scan_strcasecmp, strcasecmp, strcasecmp_l, strcmp, strcoll, strncasecmp,
    strncasecmp_l, strncmp, timingsafe_bcmp, timingsafe_memcmp,
};
use string_abi::membrane::{
    CheckStage, Cost, Event, HealingAction, Membrane, MembraneAction, Query, Runtime,
};
use string_abi::memory::{Memory, Ptr};
use string_abi::version::{__strverscmp, strverscmp, strverscmp_bytes};

fn runtime() -> Runtime {
    Runtime {
        bootstrap: false,
        policy_tls: false,
        pthread_tls: false,
        allocator_reentry: false,
        validation: false,
        ready: true,
        policy_reentry: false,
        threading_policy: false,
        strict: false,
        heals: true,
        proof_carried: false,
        htm_forced: false,
        htm_commits: false,
        action: MembraneAction::Allow,
        clamp: HealingAction::Unchanged,
        needle_clamp: HealingAction::Unchanged,
        order: [
            CheckStage::Null,
            CheckStage::Other(1),
            CheckStage::Other(2),
            CheckStage::Arena,
            CheckStage::Other(4),
            CheckStage::Other(5),
            CheckStage::Bounds,
        ],
    }
}

fn with(rt: Runtime) -> Membrane {
    Membrane { rt, depth: 0, log: Vec::new() }
}

fn strict() -> Membrane {
    with(Runtime { strict: true, ..runtime() })
}

fn healing() -> Membrane {
    with(runtime())
}

fn denying() -> Membrane {
    with(Runtime { action: MembraneAction::Deny, ..runtime() })
}

fn at(addr: usize) -> Ptr {
    Ptr { addr, remaining: None, owned: false }
}

fn known(addr: usize, remaining: usize) -> Ptr {
    Ptr { addr, remaining: Some(remaining), owned: true }
}

fn null() -> Ptr {
    at(0)
}

fn space(texts: &[(usize, &[u8])]) -> Memory {
    let mut mem = Memory::new(2);
    let all = vec![b'#'; 8192];
    mem.write(0, &all);
    for (addr, text) in texts {
        mem.write(*addr, text);
    }
    mem
}

fn cut(requested: usize, truncated: usize) -> Event {
    Event::Heal(HealingAction::TruncateWithNull { requested, truncated })
}

#[test]
fn strcmp_is_the_first_difference() {
    let mem = space(&[(100, b"apple\0"), (200, b"apply\0"), (300, b"app\0"), (400, b"\xff\0")]);
    let mut cx = strict();
    assert_eq!(strcmp(&mem, at(100), at(200), &mut cx), b'e' as i32 - b'y' as i32);
    assert_eq!(strcmp(&mem, at(200), at(100), &mut cx), b'y' as i32 - b'e' as i32);
    assert_eq!(strcmp(&mem, at(100), at(100), &mut cx), 0);
    assert_eq!(strcmp(&mem, at(100), at(300), &mut cx), b'l' as i32);
    assert_eq!(strcmp(&mem, at(400), at(300), &mut cx), 255 - b'a' as i32);
    assert_eq!(strcmp(&mem, null(), at(300), &mut cx), 0);
    assert_eq!(strcoll(&mem, at(100), at(300), &mut cx), b'l' as i32);
    assert_eq!(__strcoll_l(&mem, at(100), at(300), 7, &mut cx), b'l' as i32);
    assert!(cx.log.is_empty());
}

#[test]
fn strcmp_of_long_strings_at_page_ends() {
    for len in 0..40usize {
        let mut a = vec![b'm'; len];
        a.push(0);
        let mut b = a.clone();
        let mut mem = space(&[]);
        mem.write(8192 - a.len(), &a);
        mem.write(4090 - len, &b);
        let p = at(8192 - a.len());
        assert_eq!(strcmp(&mem, p, at(4090 - len), &mut strict()), 0);
        if len > 0 {
            b[len - 1] = b'n';
            mem.write(4090 - len, &b);
            assert_eq!(strcmp(&mem, p, at(4090 - len), &mut strict()), -1);
        }
    }
}

#[test]
fn repairing_strcmp_stops_at_the_smaller_allocation() {
    let mem = space(&[(104, b"abcX\0"), (200, b"abcY\0")]);
    let mut cx = healing();
    assert_eq!(strcmp(&mem, known(104, 3), known(200, 9), &mut cx), 0);
    assert_eq!(
        cx.log,
        vec![
            Event::Decide(Query { addr: 104, len: 0, write: false, untracked: false }),
            cut(3, 3),
            Event::Outcome { aligned: true, recent_page: true, exit: Some(6) },
            Event::Observe { cost: Cost::Scaled(7, 3), adverse: true },
        ]
    );
    let mut cx = healing();
    assert_eq!(strcmp(&mem, known(104, 4), known(200, 9), &mut cx), -1);
    assert_eq!(cx.log[2], Event::Observe { cost: Cost::Scaled(7, 4), adverse: false });
    assert_eq!(strcmp(&mem, at(104), at(200), &mut denying()), 0);
}

#[test]
fn strncmp_looks_at_n_bytes() {
    let mem = space(&[(100, b"abcX\0"), (200, b"abcY\0")]);
    assert_eq!(strncmp(&mem, at(100), at(200), 3, &mut strict()), 0);
    assert_eq!(strncmp(&mem, at(100), at(200), 4, &mut strict()), -1);
    assert_eq!(strncmp(&mem, at(100), at(200), 99, &mut healing()), -1);
    assert_eq!(strncmp(&mem, at(100), at(200), 0, &mut strict()), 0);
    let mut cx = healing();
    assert_eq!(strncmp(&mem, known(100, 2), at(200), 4, &mut cx), 0);
    assert_eq!(cx.log[1], cut(4, 2));
    assert_eq!(cx.log[3], Event::Observe { cost: Cost::Scaled(7, 2), adverse: true });
}

#[test]
fn strcasecmp_folds_ascii_only() {
    let mem = space(&[
        (100, b"Hello\0"),
        (200, b"hELLO\0"),
        (300, b"help\0"),
        (400, b"\xc9\0"),
        (500, b"\xe9\0"),
    ]);
    for cx in [&mut strict(), &mut healing()] {
        assert_eq!(strcasecmp(&mem, at(100), at(200), cx), 0);
        assert_eq!(strcasecmp(&mem, at(100), at(300), cx), b'l' as i32 - b'p' as i32);
        assert_eq!(strcasecmp(&mem, at(400), at(500), cx), 0xc9 - 0xe9);
        assert_eq!(__strcasecmp(&mem, at(200), at(100), cx), 0);
        assert_eq!(strcasecmp_l(&mem, at(200), at(100), 3, cx), 0);
        assert_eq!(__strcasecmp_l(&mem, at(200), at(100), 3, cx), 0);
        assert_eq!(strncasecmp(&mem, at(100), at(300), 3, cx), 0);
        assert_eq!(strncasecmp_l(&mem, at(100), at(300), 4, 3, cx), -4);
        assert_eq!(__strncasecmp_l(&mem, at(100), at(300), 4, 3, cx), -4);
    }
    assert_eq!(strcasecmp(&mem, at(100), null(), &mut strict()), 0);
    assert_eq!(strncasecmp(&mem, at(100), at(300), 0, &mut strict()), 0);
}

#[test]
fn repairing_strcasecmp_ends_strings_with_their_allocations() {
    let mem = space(&[(100, b"abc\0"), (200, b"ABCD\0")]);
    let mut cx = healing();
    assert_eq!(strcasecmp(&mem, at(100), known(200, 3), &mut cx), 0);
    assert_eq!(cx.log[2], Event::Observe { cost: Cost::Scaled(7, 3), adverse: true });
    assert_eq!(strcasecmp(&mem, known(100, 2), at(200), &mut healing()), -(b'c' as i32));
    let mut cx = healing();
    assert_eq!(strncasecmp(&mem, known(100, 2), at(200), 4, &mut cx), 0);
    assert_eq!(cx.log[1], cut(4, 2));
}

#[test]
fn string_scans_tell_where_they_stop() {
    let mem = space(&[(100, b"abcX\0"), (200, b"abcY\0"), (300, b"ABCx\0")]);
    assert_eq!(bench_scan_strcmp(&mem, 100, 200, None), (3, false));
    assert_eq!(bench_scan_strcmp(&mem, 100, 200, Some(3)), (3, true));
    assert_eq!(bench_scan_strcmp(&mem, 100, 100, None), (4, false));
    assert_eq!(scan_strcasecmp(&mem, 100, 300, None), (0, 5));
    assert_eq!(scan_strcasecmp(&mem, 100, 300, Some(2)), (0, 2));
    assert_eq!(bench_scan_strcasecmp(&mem, 100, 200, 9), -1);
}

#[test]
fn memcmp_is_a_sign() {
    let mem = space(&[(100, b"ab\0cd"), (200, b"ab\0ce"), (300, b"\x80"), (400, b"\x7f")]);
    for cx in [&mut strict(), &mut healing()] {
        assert_eq!(memcmp(&mem, at(100), at(200), 5, cx), -1);
        assert_eq!(memcmp(&mem, at(200), at(100), 5, cx), 1);
        assert_eq!(memcmp(&mem, at(100), at(200), 4, cx), 0);
        assert_eq!(memcmp(&mem, at(300), at(400), 1, cx), 1);
        assert_eq!(memcmp(&mem, at(300), at(400), 0, cx), 0);
        assert_eq!(__memcmpeq(&mem, at(100), at(200), 5, cx), -1);
    }
    assert_eq!(memcmp_first_diff(&mem, 100, 200, 2, 5), -1);
}

#[test]
fn first_difference_of_a_window() {
    let mem = space(&[(100, b"zbcx"), (200, b"abcy")]);
    assert_eq!(memcmp_first_diff(&mem, 100, 200, 0, 4), 1);
    assert_eq!(memcmp_first_diff(&mem, 100, 200, 1, 4), -1);
    assert_eq!(memcmp_first_diff(&mem, 100, 200, 1, 3), 0);
    assert_eq!(memcmp_first_diff(&mem, 100, 200, 3, 1), 0);
}

#[test]
fn version_bytes_end_at_a_nul() {
    assert_eq!(strverscmp_bytes(b"1.2\09", b"1.2\01"), 0);
    assert_eq!(strverscmp_bytes(b"1.2\0x", b"1.2"), 0);
    assert_eq!(strverscmp_bytes(b"1.2", b"1.2\0x"), 0);
    assert_eq!(strverscmp_bytes(b"1.2\0x", b"1.2a"), -(b'a' as i32));
    assert_eq!(strverscmp_bytes(b"12\03", b"9"), 1);
}

#[test]
fn memcmp_reports() {
    let mem = space(&[(100, b"abcdefgh"), (200, b"abcdefgx")]);
    let mut cx = strict();
    assert_eq!(memcmp(&mem, null(), at(200), 4, &mut cx), 0);
    assert_eq!(cx.log.len(), 1);
    let mut cx = with(Runtime { validation: true, ..runtime() });
    assert_eq!(memcmp(&mem, null(), at(200), 4, &mut cx), 0);
    assert!(cx.log.is_empty());
    let mut cx = with(Runtime {
        clamp: HealingAction::ClampSize { requested: 8, clamped: 7 },
        ..runtime()
    });
    assert_eq!(memcmp(&mem, known(100, 7), at(200), 8, &mut cx), 0);
    assert_eq!(
        cx.log,
        vec![
            Event::Decide(Query { addr: 100, len: 8, write: false, untracked: false }),
            Event::HealCopyBounds { requested: 8, src: Some(7), dst: None },
            Event::Heal(HealingAction::ClampSize { requested: 8, clamped: 7 }),
            Event::Outcome { aligned: false, recent_page: true, exit: Some(6) },
            Event::Observe { cost: Cost::Scaled(6, 7), adverse: true },
        ]
    );
    assert_eq!(memcmp(&mem, at(100), at(200), 8, &mut denying()), 0);
}

#[test]
fn equality_of_blocks() {
    let mem = space(&[(100, b"secret"), (200, b"secret"), (300, b"secreT")]);
    assert_eq!(bcmp(&mem, 100, 200, 6), 0);
    assert_eq!(bcmp(&mem, 100, 300, 6), 1);
    assert_eq!(bcmp(&mem, 0, 300, 6), 1);
    assert_eq!(bcmp(&mem, 0, 0, 6), 0);
    assert_eq!(bcmp(&mem, 0, 300, 0), 0);
    assert_eq!(timingsafe_bcmp(&mem, 100, 200, 6), 0);
    assert_eq!(timingsafe_bcmp(&mem, 100, 300, 6), 1);
    assert_eq!(timingsafe_bcmp(&mem, 100, 0, 6), 1);
    assert_eq!(timingsafe_memcmp(&mem, 100, 300, 6), 1);
    assert_eq!(timingsafe_memcmp(&mem, 300, 100, 6), -1);
    assert_eq!(timingsafe_memcmp(&mem, 100, 200, 6), 0);
    assert_eq!(timingsafe_memcmp(&mem, 0, 200, 6), -1);
    assert_eq!(timingsafe_memcmp(&mem, 100, 0, 6), 1);
    assert_eq!(consttime_memequal(&mem, 100, 200, 6), 1);
    assert_eq!(consttime_memequal(&mem, 100, 300, 6), 0);
    assert_eq!(consttime_memequal(&mem, 0, 300, 0), 1);
    assert_eq!(consttime_bcmp(&mem, 100, 200, 6), 0);
    assert_eq!(consttime_bcmp(&mem, 100, 300, 6), 1);
}

#[test]
fn versions_compare_numbers() {
    assert!(strverscmp_bytes(b"file10", b"file9") > 0);
    assert!(strverscmp_bytes(b"file9", b"file10") < 0);
    assert_eq!(strverscmp_bytes(b"file10", b"file10"), 0);
    assert_eq!(strverscmp_bytes(b"a", b"b"), -1);
    assert_eq!(strverscmp_bytes(b"1.2.3", b"1.2.30"), -1);
    assert_eq!(strverscmp_bytes(b"1.19", b"1.20"), -1);
    assert_eq!(strverscmp_bytes(b"", b"1"), -(b'1' as i32));
}

#[test]
fn versions_with_leading_zeros_compare_as_fractions() {
    assert_eq!(strverscmp_bytes(b"000", b"00"), -1);
    assert_eq!(strverscmp_bytes(b"00", b"01"), -1);
    assert_eq!(strverscmp_bytes(b"01", b"010"), 0 - b'0' as i32);
    assert_eq!(strverscmp_bytes(b"010", b"09"), -8);
    assert_eq!(strverscmp_bytes(b"09", b"0"), -1);
    assert_eq!(strverscmp_bytes(b"0", b"9"), -9);
}

#[test]
fn versions_in_memory() {
    let mem = space(&[(100, b"v2\0"), (200, b"v10\0")]);
    assert_eq!(strverscmp(&mem, 100, 200), -1);
    assert_eq!(__strverscmp(&mem, 200, 100), 1);
    assert_eq!(strverscmp(&mem, 0, 200), -1);
    assert_eq!(strverscmp(&mem, 100, 0), 1);
    assert_eq!(strverscmp(&mem, 0, 0), 0);
}

#[test]
fn law_order_is_antisymmetric() {
    let words: [&[u8]; 5] = [b"\0", b"a\0", b"A\0", b"ab\0", b"b\0"];
    for x in words {
        for y in words {
            let mem = space(&[(100, x), (200, y)]);
            let mut cx = strict();
            let ab = strcmp(&mem, at(100), at(200), &mut cx);
            assert_eq!(ab, -strcmp(&mem, at(200), at(100), &mut cx));
            assert_eq!(ab == 0, x == y);
            let f = strcasecmp(&mem, at(100), at(200), &mut cx);
            assert_eq!(f, -strcasecmp(&mem, at(200), at(100), &mut cx));
            for z in words {
                let m2 = space(&[(100, x), (200, y), (300, z)]);
                let bc = strcmp(&m2, at(200), at(300), &mut cx);
                if ab < 0 && bc < 0 {
                    assert!(strcmp(&m2, at(100), at(300), &mut cx) < 0);
                }
            }
        }
    }
}

#[test]
fn law_version_order_is_antisymmetric() {
    let words: [&[u8]; 7] = [b"", b"0", b"00", b"01", b"1", b"10", b"a1b"];
    for x in words {
        for y in words {
            assert_eq!(strverscmp_bytes(x, y), -strverscmp_bytes(y, x));
        }
        assert_eq!(strverscmp_bytes(x, x), 0);
    }
}

#[test]
fn law_differing_blocks_are_ordered() {
    let mem = space(&[(100, b"abc"), (200, b"abd")]);
    assert_eq!(
        timingsafe_bcmp(&mem, 100, 200, 3) == 0,
        timingsafe_memcmp(&mem, 100, 200, 3) == 0
    );
    assert_eq!(
        timingsafe_memcmp(&mem, 100, 200, 3),
        memcmp(&mem, at(100), at(200), 3, &mut strict())
    );
}
