use string_abi::dispatch::{
    active_string_simd_feature_mask, dispatch_overlap, dispatch_threshold,
    memcmp_dispatch_label_for_tests, memcpy_dispatch_label_for_tests, select_string_simd_dispatch,
    signal_runtime_ready_for_tests, string_simd_feature_list,
    string_simd_feature_mask_avx2_for_tests, string_simd_feature_mask_avx2_sse42_for_tests,
    string_simd_feature_mask_neon_for_tests, string_simd_feature_mask_sse42_for_tests,
    string_simd_restore_feature_mask_for_tests, string_simd_swap_feature_mask_for_tests,
    strlen_dispatch_label_for_tests, take_last_decision_gate_for_tests, Explainability, IsaFacts,
    IsaTable, SimdIsa, SimdStringOperation, SIMD_FEATURE_OVERRIDE_DISABLED,
};
use string_abi::errors;
use string_abi::errors::{
    __strerror_r, rendered_strerror_message, strerror, strerror_r, strerrordesc_np,
    strerrorname_np, ErrorText,
};
use string_abi::membrane::{CheckStage, HealingAction, MembraneAction, Runtime};
use string_abi::memory::{Memory, Ptr};
use string_abi::signals::{
    _sys_siglist, psignal, psignal_description_into, signal_description_into, signal_name,
    strsignal, sys_siglist, sys_signame,
};
use string_abi::span::{
    all_bytes_ascii, build_pshufb_lut, scan_c_string_pshufb, span_probe_cmpistri,
    span_scan_cmpistri, SpanProbe,
};
use string_abi::strfrom::{
    parse_format, render_hex_float, render_strfrom, round_hex_mantissa, strfrom_format,
    strfrom_store, Conversion, Plan,
};
use string_abi::swar::{swar_word_has_zero, test_swar_ascii_lower};
use string_abi::text::strmode;

fn space(texts: &[(usize, &[u8])]) -> Memory {
    let mut mem = Memory::new(2);
    let all = vec![b'#'; 8192];
    mem.write(0, &all);
    for (addr, text) in texts {
        mem.write(*addr, text);
    }
    mem
}

#[test]
fn error_numbers_are_those_of_the_system() {
    let codes = [
        (errors::EPERM, libc::EPERM),
        (errors::ENOENT, libc::ENOENT),
        (errors::ESRCH, libc::ESRCH),
        (errors::EINTR, libc::EINTR),
        (errors::EIO, libc::EIO),
        (errors::ENXIO, libc::ENXIO),
        (errors::E2BIG, libc::E2BIG),
        (errors::ENOEXEC, libc::ENOEXEC),
        (errors::EBADF, libc::EBADF),
        (errors::ECHILD, libc::ECHILD),
        (errors::EAGAIN, libc::EAGAIN),
        (errors::ENOMEM, libc::ENOMEM),
        (errors::EACCES, libc::EACCES),
        (errors::EFAULT, libc::EFAULT),
        (errors::ENOTBLK, libc::ENOTBLK),
        (errors::EBUSY, libc::EBUSY),
        (errors::EEXIST, libc::EEXIST),
        (errors::EXDEV, libc::EXDEV),
        (errors::ENODEV, libc::ENODEV),
        (errors::ENOTDIR, libc::ENOTDIR),
        (errors::EISDIR, libc::EISDIR),
        (errors::EINVAL, libc::EINVAL),
        (errors::ENFILE, libc::ENFILE),
        (errors::EMFILE, libc::EMFILE),
        (errors::ENOTTY, libc::ENOTTY),
        (errors::ETXTBSY, libc::ETXTBSY),
        (errors::EFBIG, libc::EFBIG),
        (errors::ENOSPC, libc::ENOSPC),
        (errors::ESPIPE, libc::ESPIPE),
        (errors::EROFS, libc::EROFS),
        (errors::EMLINK, libc::EMLINK),
        (errors::EPIPE, libc::EPIPE),
        (errors::EDOM, libc::EDOM),
        (errors::ERANGE, libc::ERANGE),
        (errors::EDEADLK, libc::EDEADLK),
        (errors::ENAMETOOLONG, libc::ENAMETOOLONG),
        (errors::ENOLCK, libc::ENOLCK),
        (errors::ENOSYS, libc::ENOSYS),
        (errors::ENOTEMPTY, libc::ENOTEMPTY),
        (errors::ELOOP, libc::ELOOP),
        (errors::ENOMSG, libc::ENOMSG),
        (errors::EIDRM, libc::EIDRM),
        (errors::ECHRNG, libc::ECHRNG),
        (errors::EL2NSYNC, libc::EL2NSYNC),
        (errors::EL3HLT, libc::EL3HLT),
        (errors::EL3RST, libc::EL3RST),
        (errors::ELNRNG, libc::ELNRNG),
        (errors::EUNATCH, libc::EUNATCH),
        (errors::ENOCSI, libc::ENOCSI),
        (errors::EL2HLT, libc::EL2HLT),
        (errors::EBADE, libc::EBADE),
        (errors::EBADR, libc::EBADR),
        (errors::EXFULL, libc::EXFULL),
        (errors::ENOANO, libc::ENOANO),
        (errors::EBADRQC, libc::EBADRQC),
        (errors::EBADSLT, libc::EBADSLT),
        (errors::EBFONT, libc::EBFONT),
        (errors::ENOSTR, libc::ENOSTR),
        (errors::ENODATA, libc::ENODATA),
        (errors::ETIME, libc::ETIME),
        (errors::ENOSR, libc::ENOSR),
        (errors::ENONET, libc::ENONET),
        (errors::ENOPKG, libc::ENOPKG),
        (errors::EREMOTE, libc::EREMOTE),
        (errors::ENOLINK, libc::ENOLINK),
        (errors::EADV, libc::EADV),
        (errors::ESRMNT, libc::ESRMNT),
        (errors::ECOMM, libc::ECOMM),
        (errors::EPROTO, libc::EPROTO),
        (errors::EMULTIHOP, libc::EMULTIHOP),
        (errors::EDOTDOT, libc::EDOTDOT),
        (errors::EBADMSG, libc::EBADMSG),
        (errors::EOVERFLOW, libc::EOVERFLOW),
        (errors::ENOTUNIQ, libc::ENOTUNIQ),
        (errors::EBADFD, libc::EBADFD),
        (errors::EREMCHG, libc::EREMCHG),
        (errors::ELIBACC, libc::ELIBACC),
        (errors::ELIBBAD, libc::ELIBBAD),
        (errors::ELIBSCN, libc::ELIBSCN),
        (errors::ELIBMAX, libc::ELIBMAX),
        (errors::ELIBEXEC, libc::ELIBEXEC),
        (errors::EILSEQ, libc::EILSEQ),
        (errors::ERESTART, libc::ERESTART),
        (errors::ESTRPIPE, libc::ESTRPIPE),
        (errors::EUSERS, libc::EUSERS),
        (errors::ENOTSOCK, libc::ENOTSOCK),
        (errors::EDESTADDRREQ, libc::EDESTADDRREQ),
        (errors::EMSGSIZE, libc::EMSGSIZE),
        (errors::EPROTOTYPE, libc::EPROTOTYPE),
        (errors::ENOPROTOOPT, libc::ENOPROTOOPT),
        (errors::EPROTONOSUPPORT, libc::EPROTONOSUPPORT),
        (errors::ESOCKTNOSUPPORT, libc::ESOCKTNOSUPPORT),
        (errors::EOPNOTSUPP, libc::EOPNOTSUPP),
        (errors::EPFNOSUPPORT, libc::EPFNOSUPPORT),
        (errors::EAFNOSUPPORT, libc::EAFNOSUPPORT),
        (errors::EADDRINUSE, libc::EADDRINUSE),
        (errors::EADDRNOTAVAIL, libc::EADDRNOTAVAIL),
        (errors::ENETDOWN, libc::ENETDOWN),
        (errors::ENETUNREACH, libc::ENETUNREACH),
        (errors::ENETRESET, libc::ENETRESET),
        (errors::ECONNABORTED, libc::ECONNABORTED),
        (errors::ECONNRESET, libc::ECONNRESET),
        (errors::ENOBUFS, libc::ENOBUFS),
        (errors::EISCONN, libc::EISCONN),
        (errors::ENOTCONN, libc::ENOTCONN),
        (errors::ESHUTDOWN, libc::ESHUTDOWN),
        (errors::ETOOMANYREFS, libc::ETOOMANYREFS),
        (errors::ETIMEDOUT, libc::ETIMEDOUT),
        (errors::ECONNREFUSED, libc::ECONNREFUSED),
        (errors::EHOSTDOWN, libc::EHOSTDOWN),
        (errors::EHOSTUNREACH, libc::EHOSTUNREACH),
        (errors::EALREADY, libc::EALREADY),
        (errors::EINPROGRESS, libc::EINPROGRESS),
        (errors::ESTALE, libc::ESTALE),
        (errors::EUCLEAN, libc::EUCLEAN),
        (errors::ENOTNAM, libc::ENOTNAM),
        (errors::ENAVAIL, libc::ENAVAIL),
        (errors::EISNAM, libc::EISNAM),
        (errors::EREMOTEIO, libc::EREMOTEIO),
        (errors::EDQUOT, libc::EDQUOT),
        (errors::ENOMEDIUM, libc::ENOMEDIUM),
        (errors::EMEDIUMTYPE, libc::EMEDIUMTYPE),
        (errors::ECANCELED, libc::ECANCELED),
        (errors::ENOKEY, libc::ENOKEY),
        (errors::EKEYEXPIRED, libc::EKEYEXPIRED),
        (errors::EKEYREVOKED, libc::EKEYREVOKED),
        (errors::EKEYREJECTED, libc::EKEYREJECTED),
        (errors::EOWNERDEAD, libc::EOWNERDEAD),
        (errors::ENOTRECOVERABLE, libc::ENOTRECOVERABLE),
        (errors::ERFKILL, libc::ERFKILL),
        (errors::EHWPOISON, libc::EHWPOISON),
    ];
    for (ours, theirs) in codes {
        assert_eq!(ours, theirs);
    }
}

#[test]
fn error_names_follow_the_system_numbers() {
    assert_eq!(strerrorname_np(libc::EPERM), Some("EPERM"));
    assert_eq!(strerrorname_np(libc::EWOULDBLOCK), Some("EAGAIN"));
    assert_eq!(strerrorname_np(libc::EBADF), Some("EBADF"));
    assert_eq!(strerrorname_np(libc::EPIPE), Some("EPIPE"));
    assert_eq!(strerrorname_np(libc::EILSEQ), Some("EILSEQ"));
    assert_eq!(strerrorname_np(libc::EHOSTUNREACH), Some("EHOSTUNREACH"));
    assert_eq!(strerrorname_np(libc::EDQUOT), Some("EDQUOT"));
    assert_eq!(strerrorname_np(libc::EMEDIUMTYPE), Some("EMEDIUMTYPE"));
    assert_eq!(strerrorname_np(libc::ENOTRECOVERABLE), Some("ENOTRECOVERABLE"));
    assert_eq!(strerrorname_np(0), Some("0"));
    assert_eq!(strerrorname_np(41), None);
    assert_eq!(strerrorname_np(-1), None);
}

#[test]
fn error_descriptions() {
    assert_eq!(strerrordesc_np(0), Some("Success"));
    assert_eq!(strerrordesc_np(libc::ENOENT), Some("No such file or directory"));
    assert_eq!(strerrordesc_np(libc::EAGAIN), Some("Resource temporarily unavailable"));
    assert_eq!(strerrordesc_np(libc::EHWPOISON), Some("Memory page has hardware error"));
    assert_eq!(strerrordesc_np(134), None);
    assert_eq!(strerrordesc_np(58), None);
}

#[test]
fn law_named_iff_described() {
    for e in -5..200 {
        assert_eq!(strerrorname_np(e).is_some(), strerrordesc_np(e).is_some());
    }
}

#[test]
fn error_messages() {
    assert_eq!(rendered_strerror_message(1), (b"Operation not permitted".to_vec(), false));
    assert_eq!(rendered_strerror_message(-7), (b"Unknown error -7".to_vec(), true));
    assert_eq!(
        rendered_strerror_message(i32::MIN),
        (b"Unknown error -2147483648".to_vec(), true)
    );
    let mut mem = space(&[]);
    assert_eq!(strerror(&mut mem, 2, 1000), 1000);
    assert_eq!(mem.read(1000, 27), b"No such file or directory\0#");
    assert_eq!(strerror(&mut mem, 2, 0), 0);
}

#[test]
fn error_messages_in_the_callers_buffer() {
    let mut mem = space(&[]);
    assert!(matches!(
        strerror_r(&mut mem, 2, 1000, 5),
        ErrorText::Fixed("No such file or directory")
    ));
    assert_eq!(mem.read(1000, 1), b"#");
    assert!(matches!(strerror_r(&mut mem, 999, 1000, 8), ErrorText::Buffer(1000)));
    assert_eq!(mem.read(1000, 9), b"Unknown\0#");
    assert!(matches!(__strerror_r(&mut mem, 999, 2000, 80), ErrorText::Buffer(2000)));
    assert_eq!(mem.read(2000, 19), b"Unknown error 999\0#");
    assert!(matches!(strerror_r(&mut mem, 999, 3000, 0), ErrorText::Buffer(3000)));
    assert_eq!(mem.read(3000, 1), b"#");
    assert!(matches!(strerror_r(&mut mem, 999, 0, 9), ErrorText::Buffer(0)));
}

#[test]
fn signal_descriptions() {
    let text = |sig: i32| {
        let mut v = Vec::new();
        signal_description_into(sig, &mut v);
        String::from_utf8(v).unwrap()
    };
    let ptext = |sig: i32| {
        let mut v = Vec::new();
        psignal_description_into(sig, &mut v);
        String::from_utf8(v).unwrap()
    };
    assert_eq!(text(31), "Bad system call");
    assert_eq!(text(32), "Unknown signal 32");
    assert_eq!(text(34), "Real-time signal 0");
    assert_eq!(text(40), "Real-time signal 6");
    assert_eq!(text(64), "Real-time signal 30");
    assert_eq!(text(65), "Unknown signal 65");
    assert_eq!(text(-1), "Unknown signal -1");
    assert_eq!(ptext(31), "Bad system call");
    assert_eq!(ptext(32), "Unknown signal 32");
    assert_eq!(ptext(34), "Unknown signal 34");
    assert_eq!(ptext(64), "Unknown signal 64");
    assert_eq!(signal_name(libc::SIGSEGV), "Segmentation fault");
    assert_eq!(signal_name(0), "Unknown signal");
}

#[test]
fn strsignal_fills_its_buffer() {
    let mut mem = space(&[]);
    assert_eq!(strsignal(&mut mem, libc::SIGKILL, 500), 500);
    assert_eq!(mem.read(500, 8), b"Killed\0#");
}

#[test]
fn psignal_lines() {
    let mem = space(&[(100, b"prog\0"), (200, b"\0")]);
    let p = |addr| Ptr { addr, remaining: None, owned: false };
    assert_eq!(psignal(&mem, 34, p(100)), b"prog: Unknown signal 34\n");
    assert_eq!(psignal(&mem, 9, p(200)), b"Killed\n");
    assert_eq!(psignal(&mem, 9, p(0)), b"Killed\n");
    let short = Ptr { addr: 100, remaining: Some(2), owned: true };
    assert_eq!(psignal(&mem, 9, short), b"Killed\n");
}

#[test]
fn signal_tables() {
    let list = sys_siglist().0;
    let same = _sys_siglist().0;
    let names = sys_signame().0;
    assert_eq!(list.len(), 65);
    assert_eq!(list, same);
    assert_eq!(list[0], "");
    assert_eq!(list[9], "Killed");
    assert_eq!(list[32], "Real-time signal");
    assert_eq!(list[64], "Real-time signal");
    assert_eq!(names[0], "");
    assert_eq!(names[1], "HUP");
    assert_eq!(names[31], "SYS");
    assert_eq!(names[33], "RT");
}

#[test]
fn law_siglist_words_like_strsignal() {
    let list = sys_siglist().0;
    for sig in 1..=31 {
        let mut v = Vec::new();
        signal_description_into(sig, &mut v);
        assert_eq!(v, list[sig as usize].as_bytes());
    }
}

#[test]
fn words_at_once() {
    assert!(swar_word_has_zero(0x1100_2233_4455_6677));
    assert!(!swar_word_has_zero(0x1122_3344_5566_7788));
    assert!(!swar_word_has_zero(0x8080_8080_8080_8080));
    assert!(swar_word_has_zero(0x0100_0101_0101_0101));
    let w = u64::from_le_bytes(*b"AZ[@az\xc1\xda");
    assert_eq!(test_swar_ascii_lower(w).to_le_bytes(), *b"az[@az\xc1\xda");
}

#[test]
fn law_lower_twice() {
    let w = u64::from_le_bytes(*b"HeLLo WO");
    let once = test_swar_ascii_lower(w);
    assert_eq!(test_swar_ascii_lower(once), once);
}

#[test]
fn nibble_tables_hold_their_set() {
    let mem = space(&[(100, b"aeiou AEIOU~\0"), (300, b"xyzzy!e\0")]);
    assert!(all_bytes_ascii(&mem, 100, 12));
    let (lo, hi) = build_pshufb_lut(&mem, 100, 12);
    for b in 0..=255u8 {
        let member = lo[(b & 15) as usize] & hi[(b >> 4) as usize] != 0;
        assert_eq!(member, b"aeiou AEIOU~".contains(&b));
    }
    assert_eq!(scan_c_string_pshufb(&mem, 300, &lo, &hi, true), 6);
    assert_eq!(scan_c_string_pshufb(&mem, 300, &lo, &hi, false), 0);
    let other = space(&[(100, b"ab\x80")]);
    assert!(!all_bytes_ascii(&other, 100, 3));
}

#[test]
fn the_probe_stops_resumes_and_declines() {
    let mut long = vec![b'x'; 200];
    long.push(0);
    let mem = space(&[(128, b"hello world\0"), (256, &long), (1024, b"xyzuvw\0"), (2048, b"lo\0")]);
    assert!(matches!(span_probe_cmpistri(&mem, 128, 1024, true), SpanProbe::Stop(6)));
    assert!(matches!(
        span_probe_cmpistri(&mem, 256, 1024, false),
        SpanProbe::Resume { consumed: 128, set_len: 6, all_ascii: true }
    ));
    assert!(matches!(
        span_probe_cmpistri(&mem, 128, 2048, true),
        SpanProbe::Decline { known_len: Some(2) }
    ));
    assert_eq!(span_scan_cmpistri(&mem, 256, 1024, false), Some(200));
    assert_eq!(span_scan_cmpistri(&mem, 128, 2048, true), None);
    let tail = space(&[(4085, b"xyzuvw\0"), (128, b"text\0"), (4096, b"zuvw\0")]);
    assert!(matches!(
        span_probe_cmpistri(&tail, 128, 4085, true),
        SpanProbe::Decline { known_len: None }
    ));
    let near = space(&[(4070, &long), (1024, b"xyzuvw\xff\0")]);
    assert!(matches!(
        span_probe_cmpistri(&near, 4070, 1024, false),
        SpanProbe::Resume { consumed: 16, set_len: 7, all_ascii: false }
    ));
}

fn table(certified: bool) -> IsaTable {
    IsaTable {
        avx2: IsaFacts { label: "avx2", lane_bytes: 32, certified },
        sse42: IsaFacts { label: "sse4.2", lane_bytes: 16, certified },
        neon: IsaFacts { label: "neon", lane_bytes: 16, certified },
    }
}

#[test]
fn instruction_sets_by_size() {
    let both = string_simd_feature_mask_avx2_sse42_for_tests();
    let t = table(true);
    assert_eq!(memcpy_dispatch_label_for_tests(both, &t, 128, false), "avx2");
    assert_eq!(memcpy_dispatch_label_for_tests(both, &t, 127, false), "sse4.2");
    assert_eq!(memcpy_dispatch_label_for_tests(both, &t, 31, false), "scalar");
    assert_eq!(memcmp_dispatch_label_for_tests(both, &t, 64, false), "avx2");
    assert_eq!(strlen_dispatch_label_for_tests(both, &t, 16, false), "sse4.2");
    assert_eq!(strlen_dispatch_label_for_tests(both, &t, 15, false), "scalar");
    assert_eq!(memcpy_dispatch_label_for_tests(4, &t, 32, false), "neon");
    assert_eq!(dispatch_threshold(SimdStringOperation::Memcpy, SimdIsa::Scalar), usize::MAX);
    let d = select_string_simd_dispatch(SimdStringOperation::Memcmp, both, &t, 64, false);
    assert_eq!((d.isa, d.lane_bytes), (SimdIsa::Avx2, 32));
}

#[test]
fn law_vectors_need_a_certificate() {
    let both = string_simd_feature_mask_avx2_sse42_for_tests();
    assert_eq!(memcpy_dispatch_label_for_tests(both, &table(false), 4096, false), "scalar");
    assert_eq!(memcpy_dispatch_label_for_tests(both, &table(false), 4096, true), "avx2");
}

#[test]
fn law_short_operations_stay_scalar() {
    assert_eq!(memcmp_dispatch_label_for_tests(7, &table(true), 15, true), "scalar");
    assert_eq!(memcmp_dispatch_label_for_tests(0, &table(true), 4096, true), "scalar");
}

#[test]
fn feature_masks() {
    assert_eq!(string_simd_feature_mask_sse42_for_tests(), 1);
    assert_eq!(string_simd_feature_mask_avx2_for_tests(), 2);
    assert_eq!(string_simd_feature_mask_neon_for_tests(), 4);
    assert_eq!(string_simd_feature_mask_avx2_sse42_for_tests(), 3);
    assert_eq!(string_simd_feature_list(0), "scalar-only");
    assert_eq!(string_simd_feature_list(1), "sse4.2");
    assert_eq!(string_simd_feature_list(2), "avx2");
    assert_eq!(string_simd_feature_list(3), "avx2,sse4.2");
    assert_eq!(string_simd_feature_list(4), "neon");
    assert_eq!(string_simd_feature_list(5), "sse4.2,neon");
    assert_eq!(string_simd_feature_list(6), "avx2,neon");
    assert_eq!(string_simd_feature_list(7), "avx2,sse4.2,neon");
    let none = SIMD_FEATURE_OVERRIDE_DISABLED;
    assert_eq!(active_string_simd_feature_mask(none, true, true, false), 3);
    assert_eq!(active_string_simd_feature_mask(4, true, true, false), 4);
    assert_eq!(active_string_simd_feature_mask(0, true, true, true), 0);
    assert!(dispatch_overlap(SimdStringOperation::Memcpy, 100, 104, 8));
    assert!(!dispatch_overlap(SimdStringOperation::Memcmp, 100, 104, 8));
}

#[test]
fn the_override_is_put_back() {
    let mut state = SIMD_FEATURE_OVERRIDE_DISABLED;
    let before = string_simd_swap_feature_mask_for_tests(&mut state, Some(2));
    assert_eq!(state, 2);
    assert_eq!(string_simd_swap_feature_mask_for_tests(&mut state, None), 2);
    assert_eq!(state, SIMD_FEATURE_OVERRIDE_DISABLED);
    string_simd_restore_feature_mask_for_tests(&mut state, before);
    assert_eq!(state, before);
}

#[test]
fn readiness_and_explanations() {
    let mut rt = Runtime {
        bootstrap: false,
        policy_tls: false,
        pthread_tls: false,
        allocator_reentry: false,
        validation: false,
        ready: false,
        policy_reentry: false,
        threading_policy: false,
        strict: false,
        heals: false,
        proof_carried: false,
        htm_forced: false,
        htm_commits: false,
        action: MembraneAction::FullValidate,
        clamp: HealingAction::Unchanged,
        needle_clamp: HealingAction::Unchanged,
        order: [CheckStage::Null; 7],
    };
    signal_runtime_ready_for_tests(&mut rt);
    assert!(rt.ready);
    let mut last = Some(Explainability { decision_gate: "budget" });
    assert_eq!(take_last_decision_gate_for_tests(&mut last), Some("budget"));
    assert_eq!(take_last_decision_gate_for_tests(&mut last), None);
}

fn hex(value: f64, precision: Option<usize>, upper: bool) -> String {
    String::from_utf8(render_hex_float(value.to_bits(), precision, upper)).unwrap()
}

#[test]
fn hexadecimal_floats() {
    assert_eq!(hex(1.0, None, false), "0x1p+0");
    assert_eq!(hex(-2.5, None, false), "-0x1.4p+1");
    assert_eq!(hex(0.1, None, false), "0x1.999999999999ap-4");
    assert_eq!(hex(0.1, None, true), "0X1.999999999999AP-4");
    assert_eq!(hex(0.0, None, false), "0x0p+0");
    assert_eq!(hex(-0.0, Some(3), false), "-0x0.000p+0");
    assert_eq!(hex(1.0, Some(0), false), "0x1p+0");
    assert_eq!(hex(1.5, Some(0), false), "0x2p+0");
    assert_eq!(hex(2.5, Some(0), false), "0x1p+1");
    assert_eq!(hex(0.1, Some(2), false), "0x1.9ap-4");
    assert_eq!(hex(0.1, Some(15), false), "0x1.999999999999a00p-4");
    assert_eq!(hex(f64::from_bits(1), None, false), "0x0.0000000000001p-1022");
    assert_eq!(hex(f64::MAX, None, false), "0x1.fffffffffffffp+1023");
    assert_eq!(hex(f64::MAX, Some(3), false), "0x2.000p+1023");
    assert_eq!(hex(f64::NAN, None, true), "NAN");
    assert_eq!(hex(f64::NEG_INFINITY, Some(2), false), "-inf");
}

#[test]
fn mantissa_rounding() {
    assert_eq!(round_hex_mantissa(0x18_0000_0000_0000, 0), 2);
    assert_eq!(round_hex_mantissa(0x28_0000_0000_0000, 0), 2);
    assert_eq!(round_hex_mantissa(0x18_0000_0000_0001, 0), 2);
    assert_eq!(round_hex_mantissa(0x17_ffff_ffff_ffff, 0), 1);
    assert_eq!(round_hex_mantissa(0x123, 13), 0x123);
    assert_eq!(round_hex_mantissa(0x123, 15), 0x12300);
}

#[test]
fn formats() {
    assert_eq!(parse_format(b"%f"), (None, Conversion::Fixed { upper: false }));
    assert_eq!(parse_format(b"%.3E"), (Some(3), Conversion::Scientific { upper: true }));
    assert_eq!(parse_format(b"%.g"), (Some(0), Conversion::General { upper: false }));
    assert_eq!(parse_format(b"%.99999a"), (Some(512), Conversion::Hex { upper: false }));
    assert_eq!(
        parse_format(b"%.99999999999999999999999A"),
        (Some(6), Conversion::Hex { upper: true })
    );
    assert_eq!(parse_format(b"%d"), (None, Conversion::Plain));
    assert_eq!(parse_format(b"%.2ff"), (Some(2), Conversion::Plain));
    assert_eq!(parse_format(b"f"), (None, Conversion::Plain));
    assert_eq!(parse_format(b""), (None, Conversion::Plain));
    assert_eq!(parse_format(b"%"), (None, Conversion::Plain));
}

#[test]
fn plans() {
    let bits = 0.5f64.to_bits();
    assert!(matches!(render_strfrom(b"%.3f", bits), Plan::Fixed(3)));
    assert!(matches!(render_strfrom(b"%e", bits), Plan::Scientific(6, false)));
    assert!(matches!(render_strfrom(b"%.1G", bits), Plan::General(1, true)));
    assert!(matches!(render_strfrom(b"%q", bits), Plan::Plain));
    assert!(matches!(render_strfrom(b"%q", f64::NAN.to_bits()), Plan::Plain));
    let ready = |fmt: &[u8], v: f64| match render_strfrom(fmt, v.to_bits()) {
        Plan::Ready(t) => String::from_utf8(t).unwrap(),
        _ => String::new(),
    };
    assert_eq!(ready(b"%a", 0.5), "0x1p-1");
    assert_eq!(ready(b"%.2A", 0.5), "0X1.00P-1");
    assert_eq!(ready(b"%.9F", f64::INFINITY), "INF");
    assert_eq!(ready(b"%g", f64::NEG_INFINITY), "-inf");
    assert_eq!(ready(b"%a", -f64::NAN), "-nan");
    assert_eq!(ready(b"%A", f64::NAN), "NAN");
}

#[test]
fn rendered_numbers_are_stored() {
    let mut mem = space(&[]);
    assert_eq!(strfrom_store(&mut mem, 100, 4, b"12345"), 5);
    assert_eq!(mem.read(100, 5), b"123\0#");
    assert_eq!(strfrom_store(&mut mem, 0, 4, b"12345"), 5);
    assert_eq!(strfrom_store(&mut mem, 200, 0, b"12345"), 5);
    assert_eq!(mem.read(200, 1), b"#");
    strmode(&mut mem, 300, b"-rwxr-xr-x ");
    assert_eq!(mem.read(300, 13), b"-rwxr-xr-x \0#");
    strmode(&mut mem, 0, b"-rwxr-xr-x ");
}

#[test]
fn law_rounding_is_near() {
    for n in 0..200u128 {
        let units = n << 47;
        let r = round_hex_mantissa(units, 0) << 52;
        assert!(2 * r.abs_diff(units) <= 1 << 52);
    }
}

#[test]
fn formats_are_text() {
    let mem = space(&[
        (100, b"%.2f\0"),
        (200, "%é€𝄞\0".as_bytes()),
        (300, b"%\xff\0"),
        (400, b"%\xc0\xaf\0"),
        (500, b"%\xed\xa0\x80\0"),
        (600, b"%\xf4\x90\x80\x80\0"),
        (700, b"%\xe2\x82\0"),
        (800, b"\0"),
        (900, b"\xe0\x9f\xbf\0"),
    ]);
    assert_eq!(strfrom_format(&mem, 100), Some(b"%.2f".to_vec()));
    assert_eq!(strfrom_format(&mem, 200), Some("%é€𝄞".as_bytes().to_vec()));
    assert_eq!(strfrom_format(&mem, 800), Some(Vec::new()));
    for bad in [0, 300, 400, 500, 600, 700, 900] {
        assert_eq!(strfrom_format(&mem, bad), None);
    }
}

#[test]
fn formats_are_text_as_the_standard_library_has_it() {
    let pieces: [u8; 13] = [
        0x41, 0x7f, 0x80, 0x8f, 0x9f, 0xa0, 0xbf, 0xc2, 0xe0, 0xed, 0xf0, 0xf4, 0xf5,
    ];
    for code in 0..13usize * 13 * 13 * 13 {
        let text = [
            pieces[code % 13],
            pieces[code / 13 % 13],
            pieces[code / 169 % 13],
            pieces[code / 2197],
        ];
        let mut mem = Memory::new(1);
        mem.write(100, &text);
        let known = std::str::from_utf8(&text).is_ok();
        assert_eq!(strfrom_format(&mem, 100).is_some(), known);
    }
}

#[test]
fn law_names_differ() {
    let mut names: Vec<&str> = (0..200).filter_map(strerrorname_np).collect();
    let count = names.len();
    names.sort();
    names.dedup();
    assert_eq!((names.len(), count), (132, 132));
}
