use string_abi::append::{strcat, strlcat};
use string_abi::argz::{argz_add, argz_count, argz_sep_entries};
use string_abi::compare::{memcmp, strcasecmp, strcmp};
use string_abi::copy::{stpcpy, strcpy, strlcpy, strncpy, strxfrm};
use string_abi::dup::strdup;
use string_abi::envz::envz_remove;
use string_abi::membrane::{
    strlen_gate_new_for_bench, strlen_gate_old_for_bench, CheckStage, HealingAction, Membrane,
    MembraneAction, Runtime,
};
use string_abi::memops::memcpy;
use string_abi::memory::{wide_read_within_page, Memory, Ptr};
use string_abi::search::strlen;
use string_abi::signals::{psignal_description_into, signal_description_into};
use string_abi::strfrom::round_hex_mantissa;
use string_abi::substr::strstr;
use string_abi::version::strverscmp_bytes;

fn runtime() -> Runtime {
    Runtime {
        bootstrap: false,
        policy_tls: false,
        pthread_tls: false,
        allocator_reentry: false,
        validation: false,
        ready: true,
        policy_reentry: false,
        threading_policy: false,
        strict: false,
        heals: true,
        proof_carried: false,
        htm_forced: false,
        htm_commits: false,
        action: MembraneAction::Allow,
        clamp: HealingAction::Unchanged,
        needle_clamp: HealingAction::Unchanged,
        order: [
            CheckStage::Null,
            CheckStage::Other(1),
            CheckStage::Other(2),
            CheckStage::Arena,
            CheckStage::Other(4),
            CheckStage::Other(5),
            CheckStage::Bounds,
        ],
    }
}

fn with(rt: Runtime) -> Membrane {
    Membrane { rt, depth: 0, log: Vec::new() }
}

fn strict() -> Membrane {
    with(Runtime { strict: true, ..runtime() })
}

fn healing() -> Membrane {
    with(runtime())
}

fn at(addr: usize) -> Ptr {
    Ptr { addr, remaining: None, owned: false }
}

fn known(addr: usize, remaining: usize) -> Ptr {
    Ptr { addr, remaining: Some(remaining), owned: true }
}

fn space(texts: &[(usize, &[u8])]) -> Memory {
    let mut mem = Memory::new(2);
    let all = vec![b'#'; 8192];
    mem.write(0, &all);
    for (addr, text) in texts {
        mem.write(*addr, text);
    }
    mem
}

#[test]
fn law_write_keeps_the_rest() {
    let mut mem = space(&[(100, b"left"), (110, b"right")]);
    memcpy(&mut mem, at(104), at(110), 5, &mut strict());
    assert_eq!(mem.read(100, 15), b"leftright#right");
}

#[test]
fn law_wide_read_stays_in_its_page() {
    for addr in 4080..4100usize {
        if wide_read_within_page(addr) {
            assert_eq!((addr + 7) / 4096, addr / 4096);
        }
    }
}

#[test]
fn law_gates_agree_when_strict() {
    let cx = with(Runtime { strict: true, validation: true, ..runtime() });
    assert_eq!(strlen_gate_old_for_bench(&cx), strlen_gate_new_for_bench(&cx));
}

#[test]
fn law_unrepaired_calls_reach_like_strict_ones() {
    let mem = space(&[(100, b"trailer text\0"), (200, b"trailer test\0")]);
    let mut quiet = with(Runtime { heals: false, ..runtime() });
    assert_eq!(
        strcmp(&mem, known(100, 3), known(200, 3), &mut quiet),
        strcmp(&mem, known(100, 3), known(200, 3), &mut strict())
    );
}

#[test]
fn law_unclamped_touches_all() {
    let mut a = space(&[(100, b"block")]);
    let mut b = space(&[(100, b"block")]);
    memcpy(&mut a, at(200), at(100), 5, &mut strict());
    memcpy(&mut b, at(200), at(100), 5, &mut healing());
    assert_eq!(a.read(200, 6), b.read(200, 6));
}

#[test]
fn law_repaired_writes_stay_inside() {
    for room in 0..8usize {
        let mut mem = space(&[(100, b"overlong text\0")]);
        strcpy(&mut mem, known(500, room), at(100), &mut healing());
        strncpy(&mut mem, known(600, room), at(100), 10, &mut healing());
        strlcpy(&mut mem, known(700, room), at(100), 10, &mut healing());
        for dst in [500, 600, 700] {
            assert_eq!(mem.load(dst + room), b'#');
        }
    }
}

#[test]
fn law_written_string_reads_back() {
    let mut mem = space(&[(100, b"again\0")]);
    let end = stpcpy(&mut mem, at(500), at(100), &mut strict());
    assert_eq!(strlen(&mem, at(500), &mut strict()), end - 500);
    assert_eq!(mem.read(500, 5), b"again");
}

#[test]
fn law_strcpy_copies() {
    let mut mem = space(&[(100, b"same\0")]);
    strcpy(&mut mem, at(500), at(100), &mut strict());
    assert_eq!(strcmp(&mem, at(100), at(500), &mut strict()), 0);
}

#[test]
fn law_fitted_text_ends() {
    let mut mem = space(&[(100, b"abcdef\0")]);
    for size in 1..9usize {
        strlcpy(&mut mem, at(500), at(100), size, &mut strict());
        assert!(strlen(&mem, at(500), &mut strict()) < size);
    }
}

#[test]
fn law_transformed_string_is_the_string() {
    let mut mem = space(&[(100, b"b\0"), (200, b"a\0")]);
    strxfrm(&mut mem, at(500), at(100), 9, &mut strict());
    strxfrm(&mut mem, at(600), at(200), 9, &mut strict());
    assert_eq!(
        strcmp(&mem, at(500), at(600), &mut strict()),
        strcmp(&mem, at(100), at(200), &mut strict())
    );
}

#[test]
fn law_bounded_append_ends() {
    for room in 1..12usize {
        let mut mem = space(&[(100, b"tail\0"), (500, b"head\0")]);
        strcat(&mut mem, known(500, room), at(100), &mut healing());
        assert!(strlen(&mem, at(500), &mut strict()) < room);
    }
    let mut mem = space(&[(100, b"tail\0"), (500, b"head\0")]);
    assert_eq!(strlcat(&mut mem, at(500), at(100), 7, &mut strict()), 8);
    assert_eq!(mem.read(500, 8), b"headta\0#");
}

#[test]
fn law_duplicate_reads_back() {
    let mut mem = space(&[(100, b"twice\0")]);
    strdup(&mut mem, at(100), 900, &mut strict());
    assert_eq!(mem.read(900, 6), mem.read(100, 6));
}

#[test]
fn law_order_is_zero_on_equals() {
    let mem = space(&[(100, b"abc\0"), (200, b"abc\0"), (300, b"abC\0")]);
    assert_eq!(strcmp(&mem, at(100), at(200), &mut strict()), 0);
    assert!(strcmp(&mem, at(100), at(300), &mut strict()) != 0);
    assert_eq!(strcasecmp(&mem, at(100), at(300), &mut strict()), 0);
}

#[test]
fn law_order_is_transitive() {
    let mem = space(&[(100, b"a\0"), (200, b"ab\0"), (300, b"b\0")]);
    assert!(strcmp(&mem, at(100), at(200), &mut strict()) < 0);
    assert!(strcmp(&mem, at(200), at(300), &mut strict()) < 0);
    assert!(strcmp(&mem, at(100), at(300), &mut strict()) < 0);
}

#[test]
fn law_block_order_is_antisymmetric() {
    let mem = space(&[(100, b"ab\0x"), (200, b"ab\0y")]);
    let ab = memcmp(&mem, at(100), at(200), 4, &mut strict());
    assert_eq!(ab, -memcmp(&mem, at(200), at(100), 4, &mut strict()));
}

#[test]
fn law_block_order_is_zero_on_equals() {
    let mem = space(&[(100, b"ab\0x"), (200, b"ab\0x")]);
    assert_eq!(memcmp(&mem, at(100), at(200), 4, &mut strict()), 0);
}

#[test]
fn law_empty_needle_is_found_first() {
    let mem = space(&[(100, b"abc\0"), (200, b"\0")]);
    assert_eq!(strstr(&mem, at(100), at(200), &mut strict()), 100);
    assert_eq!(strstr(&mem, at(200), at(200), &mut strict()), 200);
}

#[test]
fn law_longer_number_is_greater() {
    assert_eq!(strverscmp_bytes(b"v100", b"v99"), 1);
}

#[test]
fn law_version_equals_itself() {
    assert_eq!(strverscmp_bytes(b"1.02a", b"1.02a"), 0);
}

#[test]
fn law_added_entry_counts() {
    let mem = space(&[(100, b"one\0")]);
    let mut v = Some(b"a\0b\0".to_vec());
    argz_add(&mut v, &mem, at(100), true);
    assert_eq!(argz_count(&v.unwrap()), 3);
}

#[test]
fn law_split_entries_hold_no_separator() {
    for entry in argz_sep_entries(b"a,b,,c,", b',') {
        assert!(!entry.contains(&b','));
    }
}

#[test]
fn law_removing_an_absent_name_changes_nothing() {
    let mem = space(&[(100, b"NONE\0")]);
    let mut v = Some(b"A=1\0".to_vec());
    envz_remove(&mut v, &mem, at(100));
    assert_eq!(v, Some(b"A=1\0".to_vec()));
}

#[test]
fn law_psignal_agrees_off_realtime() {
    for sig in -3..70 {
        let (mut a, mut b) = (Vec::new(), Vec::new());
        signal_description_into(sig, &mut a);
        psignal_description_into(sig, &mut b);
        assert_eq!(a == b, !(34..=64).contains(&sig));
    }
}

#[test]
fn law_full_precision_is_exact() {
    assert_eq!(round_hex_mantissa(0x1a_bcde_f012_3456, 13), 0x1a_bcde_f012_3456);
}
