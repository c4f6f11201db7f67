use string_abi::memory::{Memory, Ptr};
use string_abi::scan::{
    bench_scan_c_string, bench_scan_c_string_for_byte, bench_scan_c_string_last_byte, is_readable,
    read_c_string_bytes, read_c_string_bytes_with_nul, scan_c_string, scan_c_string_first_not_byte,
    scan_c_string_for_byte, scan_c_string_for_set4, scan_c_string_last_byte,
    scan_c_string_nul_or_bound,
};

fn at(addr: usize) -> Ptr {
    Ptr { addr, remaining: None, owned: false }
}

fn known(addr: usize, remaining: usize) -> Ptr {
    Ptr { addr, remaining: Some(remaining), owned: true }
}

/// A space whose bytes are all `fill` but for the given text.
fn space(pages: usize, fill: u8, addr: usize, text: &[u8]) -> Memory {
    let mut mem = Memory::new(pages);
    let all = vec![fill; pages * 4096];
    mem.write(0, &all);
    mem.write(addr, text);
    mem
}

#[test]
fn unbounded_scan_finds_the_nul() {
    let mem = space(2, b'x', 100, b"hello\0");
    assert_eq!(scan_c_string(&mem, 100, None), (5, true));
    assert_eq!(bench_scan_c_string(&mem, 100, None), (5, true));
}

#[test]
fn bounded_scan_stops_at_the_bound() {
    let mem = space(2, b'x', 100, b"hello\0");
    assert_eq!(scan_c_string(&mem, 100, Some(3)), (3, false));
    assert_eq!(scan_c_string(&mem, 100, Some(5)), (5, false));
    assert_eq!(scan_c_string(&mem, 100, Some(6)), (5, true));
    assert_eq!(scan_c_string(&mem, 100, Some(0)), (0, false));
}

#[test]
fn scan_ends_at_the_last_byte_of_the_space() {
    let mem = space(1, b'x', 4095, b"\0");
    for start in 4060..4096 {
        assert_eq!(scan_c_string(&mem, start, None), (4095 - start, true));
        assert_eq!(scan_c_string_nul_or_bound(&mem, start, 1_000_000), (4095 - start, true));
    }
}

#[test]
fn scan_of_every_length_and_alignment() {
    for len in 0..40usize {
        for start in 0..9usize {
            let mem = space(1, b'a', 64 + start + len, b"\0");
            assert_eq!(scan_c_string(&mem, 64 + start, None), (len, true));
            assert_eq!(scan_c_string_nul_or_bound(&mem, 64 + start, len), (len, false));
            assert_eq!(scan_c_string_nul_or_bound(&mem, 64 + start, len + 1), (len, true));
        }
    }
}

#[test]
fn ceiling_scan_crosses_pages() {
    let mem = space(3, b'q', 9000, b"\0");
    assert_eq!(scan_c_string_nul_or_bound(&mem, 10, 8990), (8990, false));
    assert_eq!(scan_c_string_nul_or_bound(&mem, 10, 8991), (8990, true));
}

#[test]
fn byte_scan_stops_at_target_nul_or_bound() {
    let mem = space(1, b'z', 100, b"key=value\0");
    assert_eq!(scan_c_string_for_byte(&mem, 100, b'=', None), (3, true, false));
    assert_eq!(scan_c_string_for_byte(&mem, 100, b'!', None), (9, false, false));
    assert_eq!(scan_c_string_for_byte(&mem, 100, 0, None), (9, true, false));
    assert_eq!(scan_c_string_for_byte(&mem, 100, b'=', Some(3)), (3, false, true));
    assert_eq!(bench_scan_c_string_for_byte(&mem, 100, b'e', None), (1, true, false));
}

#[test]
fn last_byte_scan_counts_the_nul() {
    let mem = space(1, b'z', 100, b"a/b/c\0");
    assert_eq!(scan_c_string_last_byte(&mem, 100, b'/', None), (Some(3), 5, false));
    assert_eq!(scan_c_string_last_byte(&mem, 100, b'#', None), (None, 5, false));
    assert_eq!(scan_c_string_last_byte(&mem, 100, 0, None), (Some(5), 5, false));
    assert_eq!(scan_c_string_last_byte(&mem, 100, b'/', Some(3)), (Some(1), 3, true));
    assert_eq!(bench_scan_c_string_last_byte(&mem, 100, b'a', None), (Some(0), 5, false));
}

#[test]
fn runs_of_one_byte_and_of_small_sets() {
    let mem = space(1, b'z', 100, b"   x  \0");
    assert_eq!(scan_c_string_first_not_byte(&mem, 100, b' '), 3);
    assert_eq!(scan_c_string_for_set4(&mem, 100, [b'x', b'y', b'x', b'y'], false), 3);
    assert_eq!(scan_c_string_for_set4(&mem, 100, [b' ', b'x', b' ', b'x'], true), 6);
    assert_eq!(scan_c_string_for_set4(&mem, 100, [b'q', b'w', b'e', b'r'], false), 6);
}

#[test]
fn reading_a_string_wants_its_end() {
    let mem = space(1, b'z', 100, b"name\0");
    assert_eq!(read_c_string_bytes(&mem, at(0)), None);
    assert_eq!(read_c_string_bytes(&mem, at(100)), Some(b"name".to_vec()));
    assert_eq!(read_c_string_bytes(&mem, known(100, 4)), None);
    assert_eq!(read_c_string_bytes(&mem, known(100, 5)), Some(b"name".to_vec()));
    assert_eq!(read_c_string_bytes_with_nul(&mem, at(100)), Some(b"name\0".to_vec()));
}

#[test]
fn law_bound_does_not_change_an_ended_string() {
    let mem = space(1, b'z', 100, b"string\0");
    assert_eq!(scan_c_string(&mem, 100, Some(7)), scan_c_string(&mem, 100, None));
    assert_eq!(scan_c_string(&mem, 100, Some(900)), scan_c_string(&mem, 100, None));
}

#[test]
fn readable_strings_end_inside_the_space() {
    let mem = space(1, b'x', 100, b"ab\0");
    assert!(is_readable(&mem, 100, None));
    assert!(!is_readable(&mem, 103, None));
    assert!(is_readable(&mem, 4090, Some(6)));
    assert!(!is_readable(&mem, 4090, Some(7)));
    assert!(is_readable(&mem, 4096, Some(0)));
    assert!(!is_readable(&mem, 5000, Some(0)));
    assert!(mem.maps(4090, 6));
    assert!(!mem.maps(4090, 7));
    assert!(!mem.maps(usize::MAX, 2));
}
