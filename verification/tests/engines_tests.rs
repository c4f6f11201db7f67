use string_abi::glob::{
    directory_to_open, error_aborts, glob, glob_home_fallback_pattern, glob_path, glob_store,
    globfree, listed_name, open_error, stat_is_dir, uses_callbacks, GlobT, GLOB_ALTDIRFUNC,
    GLOB_APPEND, GLOB_DOOFFS, GLOB_NOMATCH, GLOB_NOSPACE, GLOB_TILDE, GLOB_TILDE_CHECK, S_IFDIR,
    S_IFMT,
};
use string_abi::memory::{Memory, Ptr};
use string_abi::regex::{
    fnmatch, fnmatch_operands, legacy_regex_concat, legacy_regex_syntax_to_cflags,
    legacy_regex_write_regs, match_result, match_slots, re_compile_fastmap, re_compile_pattern,
    re_compile_request, re_match, re_match_2, re_search, re_search_2, re_set_registers,
    re_set_syntax, rebase_matches, regcomp, regcomp_pattern, regerror, regex_set_regs_allocated,
    regexec, regexec_finish, regexec_text, regfree, search_step, search_text, write_found,
    Compiled, ExecPlan, LegacyReRegisters, RegMatch, RegexBufferLayout, RegexHandle,
    SearchNext, FNM_NOMATCH, FRANKEN_REGEX_MAGIC, REG_BADPAT, REG_EXTENDED, REG_ICASE,
    REG_NOMATCH, REG_NOSUB, REG_NOTBOL, REG_STARTEND, RE_ICASE, RE_LIMITED_OPS, RE_NO_BK_PARENS,
    RE_NO_SUB,
};

fn at(addr: usize) -> Ptr {
    Ptr { addr, remaining: None, owned: false }
}

fn space(texts: &[(usize, &[u8])]) -> Memory {
    let mut mem = Memory::new(1);
    for (addr, text) in texts {
        mem.write(*addr, text);
    }
    mem
}

fn empty() -> RegexBufferLayout {
    RegexBufferLayout {
        buffer: None,
        allocated: 0,
        used: 0,
        syntax: 0,
        fastmap: 0,
        translate: 0,
        re_nsub: 0,
        flags: 0,
    }
}

fn pattern(nosub: bool, newline: bool) -> Compiled {
    Compiled { id: 7, num_regs: 3, nosub, newline }
}

fn filled(nosub: bool, newline: bool) -> Option<RegexBufferLayout> {
    let mut b = empty();
    b.buffer = Some(RegexHandle {
        magic: FRANKEN_REGEX_MAGIC,
        compiled: Some(pattern(nosub, newline)),
    });
    Some(b)
}

#[test]
fn constants_are_those_of_the_system() {
    assert_eq!(REG_EXTENDED, libc::REG_EXTENDED);
    assert_eq!(REG_ICASE, libc::REG_ICASE);
    assert_eq!(REG_NOSUB, libc::REG_NOSUB);
    assert_eq!(REG_NOTBOL, libc::REG_NOTBOL);
    assert_eq!(REG_NOMATCH, libc::REG_NOMATCH);
    assert_eq!(REG_BADPAT, libc::REG_BADPAT);
    assert_eq!(GLOB_APPEND, libc::GLOB_APPEND);
    assert_eq!(GLOB_ALTDIRFUNC, libc::GLOB_ALTDIRFUNC);
    assert_eq!(GLOB_DOOFFS, libc::GLOB_DOOFFS);
    assert_eq!(GLOB_NOSPACE, libc::GLOB_NOSPACE);
    assert_eq!(GLOB_NOMATCH, libc::GLOB_NOMATCH);
    assert_eq!(GLOB_TILDE, libc::GLOB_TILDE);
    assert_eq!(GLOB_TILDE_CHECK, libc::GLOB_TILDE_CHECK);
    assert_eq!(S_IFMT, libc::S_IFMT);
    assert_eq!(S_IFDIR, libc::S_IFDIR);
}

#[test]
fn syntax_bits_become_flags() {
    assert_eq!(legacy_regex_syntax_to_cflags(0), 0);
    assert_eq!(legacy_regex_syntax_to_cflags(RE_NO_BK_PARENS), REG_EXTENDED);
    assert_eq!(legacy_regex_syntax_to_cflags(RE_NO_BK_PARENS | RE_LIMITED_OPS), 0);
    assert_eq!(legacy_regex_syntax_to_cflags(RE_NO_BK_PARENS | 2), 0);
    assert_eq!(
        legacy_regex_syntax_to_cflags(RE_NO_BK_PARENS | RE_ICASE | RE_NO_SUB),
        REG_EXTENDED | REG_ICASE | REG_NOSUB
    );
}

#[test]
fn regcomp_fills_a_buffer() {
    let mem = space(&[(100, b"a(b)\0")]);
    let mut preg = Some(empty());
    assert_eq!(regcomp_pattern(&mem, &preg, at(100)), Some(b"a(b)\0".to_vec()));
    let c = pattern(false, false);
    let flags = REG_EXTENDED | REG_NOSUB;
    assert_eq!(regcomp(&mem, &mut preg, at(100), flags, Ok(c)), (0, None));
    let b = preg.unwrap();
    assert_eq!(b.re_nsub, 2);
    assert_eq!(b.syntax, 0xb000);
    assert_eq!(b.flags, 0x10);
    assert_eq!(b.allocated, 16);
    assert_eq!(b.buffer.unwrap().compiled, Some(c));
    let mut preg = Some(b);
    assert_eq!(regcomp(&mem, &mut preg, at(100), 0, Err(13)), (13, Some(c)));
    assert!(preg.unwrap().buffer.is_none());
    assert_eq!(regcomp(&mem, &mut preg, at(0), 0, Ok(c)), (REG_BADPAT, None));
    assert_eq!(regcomp(&mem, &mut None, at(100), 0, Ok(c)), (REG_BADPAT, None));
    let open = Ptr { addr: 100, remaining: Some(2), owned: true };
    let mut preg = filled(false, false);
    assert_eq!(regcomp(&mem, &mut preg, open, 0, Ok(c)), (REG_BADPAT, Some(c)));
    assert!(preg.unwrap().buffer.is_none());
    assert_eq!(regcomp_pattern(&mem, &preg, open), None);
    assert_eq!(regcomp_pattern(&mem, &None, at(100)), None);
}

#[test]
fn regexec_plans() {
    let mem = space(&[(100, b"x\nabc\0")]);
    let p = filled(false, true);
    let first = Some(RegMatch { rm_so: 2, rm_eo: 5 });
    assert_eq!(regexec(&mem, &None, 100, 0, None, 0), ExecPlan::Return(REG_NOMATCH));
    assert_eq!(regexec(&mem, &p, 0, 0, None, 0), ExecPlan::Return(REG_NOMATCH));
    assert_eq!(regexec(&mem, &Some(empty()), 100, 0, None, 0), ExecPlan::Return(REG_BADPAT));
    let mut foreign = filled(false, false).unwrap();
    foreign.buffer = Some(RegexHandle { magic: 1, compiled: Some(pattern(false, false)) });
    assert_eq!(regexec(&mem, &Some(foreign), 100, 0, None, 0), ExecPlan::Return(REG_BADPAT));
    assert_eq!(regexec(&mem, &p, 100, 0, first, 2), ExecPlan::Test { start: 100, eflags: 2 });
    assert_eq!(regexec(&mem, &p, 100, 3, None, 0), ExecPlan::Test { start: 100, eflags: 0 });
    assert_eq!(regexec(&mem, &p, 100, 3, first, 0), ExecPlan::Groups { start: 100, eflags: 0 });
    assert_eq!(
        regexec(&mem, &p, 100, 3, first, REG_STARTEND | REG_NOTBOL),
        ExecPlan::Region { start: 102, end: 105, eflags: 0, groups: true }
    );
    assert_eq!(
        regexec(&mem, &filled(false, false), 100, 0, first, REG_STARTEND),
        ExecPlan::Region { start: 102, end: 105, eflags: REG_NOTBOL, groups: false }
    );
    let whole = Some(RegMatch { rm_so: 0, rm_eo: 5 });
    assert_eq!(
        regexec(&mem, &p, 100, 1, whole, REG_STARTEND),
        ExecPlan::Region { start: 100, end: 105, eflags: 0, groups: true }
    );
    let bad = Some(RegMatch { rm_so: 3, rm_eo: 2 });
    assert_eq!(regexec(&mem, &p, 100, 1, bad, REG_STARTEND), ExecPlan::Return(REG_NOMATCH));
    let test = ExecPlan::Test { start: 100, eflags: 0 };
    let region = ExecPlan::Region { start: 102, end: 105, eflags: 0, groups: true };
    let plain = ExecPlan::Region { start: 102, end: 105, eflags: 0, groups: false };
    let groups = ExecPlan::Groups { start: 100, eflags: 0 };
    assert_eq!(regexec_text(&mem, test), b"x\nabc\0");
    assert_eq!(regexec_text(&mem, groups), b"x\nabc\0");
    assert_eq!(regexec_text(&mem, region), b"abc");
    assert_eq!(regexec_text(&mem, ExecPlan::Return(9)), b"");
    let one = RegMatch { rm_so: 1, rm_eo: 2 };
    let mut slots = vec![one];
    assert_eq!(regexec_finish(ExecPlan::Return(9), 100, 0, &mut slots), 9);
    assert_eq!(regexec_finish(test, 100, 0, &mut slots), 0);
    assert_eq!(regexec_finish(test, 100, 7, &mut slots), REG_NOMATCH);
    assert_eq!(regexec_finish(groups, 100, 7, &mut slots), 7);
    assert_eq!(regexec_finish(plain, 100, 0, &mut slots), 0);
    assert_eq!(regexec_finish(region, 100, 1, &mut slots), 1);
    assert_eq!(slots, vec![one]);
    assert_eq!(regexec_finish(region, 100, 0, &mut slots), 0);
    assert_eq!(slots, vec![RegMatch { rm_so: 3, rm_eo: 4 }]);
    let mut slots = vec![RegMatch { rm_so: 0, rm_eo: 2 }, RegMatch { rm_so: -1, rm_eo: -1 }];
    rebase_matches(&mut slots, 5);
    assert_eq!(slots[0], RegMatch { rm_so: 5, rm_eo: 7 });
    assert_eq!(slots[1], RegMatch { rm_so: -1, rm_eo: -1 });
}

#[test]
fn buffers_are_released() {
    let mut p = filled(false, false);
    assert_eq!(regfree(&mut p), Some(pattern(false, false)));
    assert!(p.unwrap().buffer.is_none());
    assert_eq!(regfree(&mut None), None);
}

#[test]
fn error_texts_and_names() {
    let mut mem = space(&[]);
    assert_eq!(regerror(&mut mem, b"No match", 100, 5), 9);
    assert_eq!(mem.read(100, 6), b"No m\0\0");
    assert_eq!(regerror(&mut mem, b"No match", 0, 5), 9);
    assert_eq!(fnmatch(1, 2, true), 0);
    assert_eq!(fnmatch(1, 2, false), FNM_NOMATCH);
    assert_eq!(fnmatch(0, 2, true), FNM_NOMATCH);
    let mem = space(&[(100, b"*.c\0"), (200, b"main.c\0")]);
    let operands = Some((b"*.c".to_vec(), b"main.c".to_vec()));
    assert_eq!(fnmatch_operands(&mem, 100, 200), operands);
    assert_eq!(fnmatch_operands(&mem, 0, 200), None);
    assert_eq!(fnmatch_operands(&mem, 100, 0), None);
}

#[test]
fn old_interface_compiles() {
    let mut current = 5;
    assert_eq!(re_set_syntax(&mut current, 9), 5);
    assert_eq!(current, 9);
    let mut b = Some(empty());
    let mem = space(&[(100, b"a\0b")]);
    let request = re_compile_request(&mem, 100, 3, &b, RE_ICASE | RE_NO_BK_PARENS);
    assert_eq!(request, Some((b"a\0b".to_vec(), REG_ICASE | REG_EXTENDED)));
    assert_eq!(re_compile_request(&mem, 0, 3, &b, 0), None);
    assert_eq!(re_compile_request(&mem, 100, 3, &None, 0), None);
    let c = pattern(true, false);
    assert_eq!(re_compile_pattern(100, &mut b, RE_NO_SUB, Ok(c)), (None, None));
    assert_eq!(b.unwrap().flags, 0x10);
    assert_eq!(b.unwrap().syntax, RE_NO_SUB);
    assert_eq!(re_compile_fastmap(&mut b), 0);
    assert_eq!(b.unwrap().flags, 0x18);
    assert_eq!(
        re_compile_pattern(100, &mut b, 0, Err(3)),
        (Some("Invalid regular expression"), Some(c))
    );
    assert_eq!(re_compile_fastmap(&mut b), -2);
    assert_eq!(re_compile_fastmap(&mut None), -2);
    let refused = (Some("Invalid argument"), None);
    assert_eq!(re_compile_pattern(0, &mut b, 0, Err(3)), refused);
    assert_eq!(re_compile_pattern(1, &mut None, 0, Err(3)), refused);
}

#[test]
fn texts_in_two_parts() {
    let mem = space(&[(100, b"abc"), (200, b"def")]);
    assert_eq!(legacy_regex_concat(&mem, 100, 3, 200, 2), Ok(b"abcde".to_vec()));
    assert_eq!(legacy_regex_concat(&mem, 0, 0, 200, 2), Ok(b"de".to_vec()));
    assert_eq!(legacy_regex_concat(&mem, 0, 1, 200, 2), Err(-2));
    assert_eq!(legacy_regex_concat(&mem, 100, -1, 200, 2), Err(-2));
    assert_eq!(legacy_regex_concat(&mem, 100, 1, 0, 2), Err(-2));
}

/// Runs a search with an engine that finds `word` in the rest of the text.
fn run(mem: &Memory, len: i32, start: i32, range: i32, stop: i32, word: &[u8]) -> (i32, usize) {
    let p = filled(true, false);
    let (text, mut s) = match re_search_2(mem, &p, 0, 0, 100, len, start, range, stop) {
        Ok(x) => x,
        Err(code) => return (code, 0),
    };
    let mut tries = 0;
    loop {
        tries += 1;
        let rest = search_text(&text, s.pos);
        let found = (0..rest.len().saturating_sub(word.len() - 1))
            .find(|i| rest[*i..].starts_with(word))
            .map(|i| (i as i32, (i + word.len()) as i32));
        match search_step(s, found) {
            SearchNext::Found { at, base } => {
                assert_eq!(base as usize, s.pos);
                return (at, tries);
            }
            SearchNext::Missing => return (-1, tries),
            SearchNext::Try(next) => s = next,
        }
    }
}

#[test]
fn searches_run_over_positions() {
    let mem = space(&[(100, b"abcabc")]);
    assert_eq!(run(&mem, 6, 0, 6, 6, b"ca"), (2, 1));
    assert_eq!(run(&mem, 6, 0, 6, 6, b"zz"), (-1, 7));
    assert_eq!(run(&mem, 6, 9, 6, 6, b"a"), (-1, 0));
    assert_eq!(run(&mem, 6, 0, 6, 3, b"ca"), (-1, 7));
    assert_eq!(run(&mem, 6, 5, -5, 6, b"ab"), (3, 3));
    assert_eq!(run(&mem, 6, 2, -99, 6, b"bc"), (4, 1));
    assert_eq!(run(&mem, 6, -3, 0, 6, b"b"), (1, 1));
    assert_eq!(run(&mem, -1, 0, 0, 6, b"b"), (-2, 0));
    let none = re_search(&mem, &Some(empty()), 100, 6, 0, 6);
    assert!(matches!(none, Err(-2)));
    let ok = re_search(&mem, &filled(false, false), 100, 6, 1, 2).unwrap();
    assert_eq!((ok.1.pos, ok.1.last, ok.1.down, ok.1.stop), (1, 3, false, 6));
}

#[test]
fn law_steps_lead_to_the_result() {
    let mem = space(&[(100, b"xxaxxa")]);
    assert_eq!(run(&mem, 6, 3, 3, 6, b"a"), (5, 1));
    assert_eq!(run(&mem, 6, 1, -1, 1, b"a"), (-1, 2));
}

#[test]
fn law_search_ends_at_the_first_match() {
    let mem = space(&[(100, b"xxaxxa")]);
    assert_eq!(run(&mem, 6, 0, 6, 6, b"a"), (2, 1));
    assert_eq!(run(&mem, 6, 6, -6, 6, b"a"), (5, 2));
}

#[test]
fn matches_at_a_position() {
    let mem = space(&[(100, b"abcabc")]);
    let p = filled(false, false);
    assert_eq!(re_match(&mem, &p, 100, 6, 2).unwrap(), (b"abcabc".to_vec(), 2));
    assert_eq!(re_match_2(&mem, &p, 100, 2, 102, 2, 4).unwrap(), (b"abca".to_vec(), 4));
    assert!(matches!(re_match(&mem, &p, 100, 6, 7), Err(-1)));
    assert!(matches!(re_match(&mem, &p, 0, 6, 0), Err(-2)));
    assert!(matches!(re_match(&mem, &None, 100, 6, 0), Err(-2)));
    assert_eq!(match_result(6, 2, 6, Some((0, 3))), 3);
    assert_eq!(match_result(6, 2, 4, Some((0, 3))), -1);
    assert_eq!(match_result(6, 2, 6, Some((1, 3))), -1);
    assert_eq!(match_result(6, 2, 6, None), -1);
}

#[test]
fn registers_are_written() {
    let ms = [RegMatch { rm_so: 1, rm_eo: 4 }, RegMatch { rm_so: -1, rm_eo: -1 }];
    let mut regs = Some(LegacyReRegisters { num_regs: 0, start: None, end: None });
    legacy_regex_write_regs(&mut regs, &ms, 10, false);
    assert_eq!(regs.as_ref().unwrap().num_regs, 0);
    legacy_regex_write_regs(&mut regs, &ms, 10, true);
    let r = regs.as_ref().unwrap();
    assert_eq!(r.num_regs, 2);
    assert_eq!(r.start, Some(vec![11, -1]));
    assert_eq!(r.end, Some(vec![14, -1]));
    legacy_regex_write_regs(&mut regs, &ms[..1], i32::MAX - 2, false);
    let r = regs.as_ref().unwrap();
    assert_eq!(r.start, Some(vec![i32::MAX - 1, -1]));
    assert_eq!(r.end, Some(vec![i32::MAX, -1]));
    write_found(&pattern(true, false), &mut regs, &ms, 0, true);
    assert_eq!(regs.as_ref().unwrap().end, Some(vec![i32::MAX, -1]));
    write_found(&pattern(false, false), &mut regs, &ms, 0, true);
    assert_eq!(regs.as_ref().unwrap().end, Some(vec![4, -1]));
    assert_eq!(match_slots(&pattern(false, false)), 3);
    assert_eq!(match_slots(&Compiled { num_regs: 0, ..pattern(false, false) }), 2);
}

#[test]
fn registers_of_the_caller() {
    let mut b = filled(false, false);
    let mut regs = Some(LegacyReRegisters { num_regs: 0, start: None, end: None });
    re_set_registers(&mut b, &mut regs, 2, Some(vec![0, 0]), Some(vec![0, 0]));
    assert_eq!(regs.as_ref().unwrap().num_regs, 2);
    assert_eq!(b.unwrap().flags, 4);
    re_set_registers(&mut b, &mut regs, 0, None, None);
    assert_eq!(b.unwrap().flags, 0);
    re_set_registers(&mut b, &mut None, 5, None, None);
    let mut flags = 0xff;
    regex_set_regs_allocated(&mut flags, 1);
    assert_eq!(flags, 0xfb);
}

#[test]
fn home_directories() {
    let home: &[u8] = b"/home/me";
    let f = |p: &[u8], flags, env| glob_home_fallback_pattern(p, flags, env, Some(home));
    assert_eq!(f(b"~/x*\0", GLOB_TILDE, false), Some(b"/home/me/x*\0".to_vec()));
    assert_eq!(f(b"~\0", GLOB_TILDE_CHECK, false), Some(b"/home/me\0".to_vec()));
    assert_eq!(f(b"~/x\0", 0, false), None);
    assert_eq!(f(b"~/x\0", GLOB_TILDE, true), None);
    assert_eq!(f(b"~you/x\0", GLOB_TILDE, false), None);
    assert_eq!(f(b"x\0", GLOB_TILDE, false), None);
    assert_eq!(glob_home_fallback_pattern(b"~\0", GLOB_TILDE, false, None), None);
    assert_eq!(glob_home_fallback_pattern(b"~\0", GLOB_TILDE, false, Some(b"")), None);
}

#[test]
fn glob_patterns() {
    let mem = space(&[(100, b"~/a\0"), (200, b"*.c\0")]);
    let home: &[u8] = b"/h";
    assert_eq!(
        glob(&mem, at(100), GLOB_TILDE, true, false, Some(home)),
        Ok(b"/h/a\0".to_vec())
    );
    assert_eq!(glob(&mem, at(200), GLOB_TILDE, true, false, Some(home)), Ok(b"*.c\0".to_vec()));
    assert_eq!(glob(&mem, at(0), 0, true, false, None), Err(GLOB_NOMATCH));
    assert_eq!(glob(&mem, at(200), 0, false, false, None), Err(GLOB_NOMATCH));
    let open = Ptr { addr: 200, remaining: Some(3), owned: true };
    assert_eq!(glob(&mem, open, 0, true, false, None), Err(GLOB_NOMATCH));
}

#[test]
fn directories_and_errors() {
    assert_eq!(directory_to_open(b"", true), Ok(b".".to_vec()));
    assert_eq!(directory_to_open(b"/tmp", true), Ok(b"/tmp".to_vec()));
    assert_eq!(directory_to_open(b"/t\0", false), Err(libc::ENOENT));
    assert_eq!(directory_to_open(b"/tmp", false), Err(libc::ENOSYS));
    assert!(uses_callbacks(GLOB_ALTDIRFUNC | GLOB_APPEND));
    assert!(!uses_callbacks(GLOB_APPEND));
    let mut mem = space(&[(100, b"xxxxx")]);
    glob_path(&mut mem, 100, b"a/b");
    assert_eq!(mem.read(100, 5), b"a/b\0x");
    assert_eq!(listed_name(b"file\0junk"), Some(b"file".to_vec()));
    assert_eq!(listed_name(b".\0"), None);
    assert_eq!(listed_name(b"..\0"), None);
    assert_eq!(listed_name(b"...\0"), Some(b"...".to_vec()));
    assert_eq!(listed_name(&vec![b'n'; 5000]).unwrap().len(), 4097);
    assert_eq!(open_error(13), 13);
    assert_eq!(open_error(0), libc::ENOENT);
    assert_eq!(stat_is_dir(b"d", Some((0, 0o040755))), Some(true));
    assert_eq!(stat_is_dir(b"f", Some((0, 0o100644))), Some(false));
    assert_eq!(stat_is_dir(b"d", Some((-1, 0o040755))), None);
    assert_eq!(stat_is_dir(b"d\0", Some((0, 0o040755))), None);
    assert_eq!(stat_is_dir(b"d", None), None);
    assert!(!error_aborts(false, b"x", 1));
    assert!(error_aborts(true, b"x", 1));
    assert!(!error_aborts(true, b"x", 0));
    assert!(error_aborts(true, b"x\0y", 0));
}

#[test]
fn lists_of_paths() {
    let mut g = GlobT { gl_pathc: 0, gl_pathv: None, gl_offs: 2 };
    let (rc, frees) = glob_store(&mut g, GLOB_DOOFFS, Ok(2), true, &[1000, 2000]);
    assert_eq!((rc, frees.len()), (0, 0));
    assert_eq!(g.gl_pathv, Some(vec![0, 0, 1000, 2000, 0]));
    assert_eq!(g.gl_pathc, 2);
    let mut g = GlobT { gl_pathc: 2, gl_pathv: Some(vec![500, 600, 0]), gl_offs: 0 };
    let (rc, _) = glob_store(&mut g, GLOB_APPEND, Ok(1), true, &[700]);
    assert_eq!(rc, 0);
    assert_eq!(g.gl_pathv, Some(vec![500, 600, 700, 0]));
    assert_eq!(g.gl_pathc, 3);
    let (rc, frees) = glob_store(&mut g, GLOB_APPEND, Ok(3), true, &[1, 2, 0]);
    assert_eq!((rc, frees), (GLOB_NOSPACE, vec![1, 2]));
    assert_eq!(g.gl_pathc, 3);
    assert_eq!(glob_store(&mut g, 0, Ok(1), false, &[9]).0, GLOB_NOSPACE);
    assert_eq!(glob_store(&mut g, 0, Err(3), true, &[]).0, 3);
    assert_eq!(globfree(&mut g), vec![500, 600, 700]);
    assert_eq!((g.gl_pathc, g.gl_pathv.is_none()), (0, true));
    assert!(globfree(&mut g).is_empty());
}

#[test]
fn law_list_ends_in_null() {
    let mut g = GlobT { gl_pathc: 3, gl_pathv: Some(vec![0, 500, 0, 600, 0]), gl_offs: 1 };
    glob_store(&mut g, GLOB_APPEND | GLOB_DOOFFS, Ok(1), true, &[700]);
    assert_eq!(g.gl_pathv, Some(vec![0, 500, 600, 0, 700, 0]));
    assert_eq!(g.gl_pathc, 4);
}

#[test]
fn law_no_path_is_lost() {
    let mut g = GlobT { gl_pathc: 0, gl_pathv: None, gl_offs: 2 };
    let flags = GLOB_APPEND | GLOB_DOOFFS;
    glob_store(&mut g, flags, Ok(2), true, &[1000, 2000]);
    glob_store(&mut g, flags, Ok(1), true, &[3000]);
    glob_store(&mut g, flags, Ok(0), true, &[]);
    assert_eq!(g.gl_pathv, Some(vec![0, 0, 1000, 2000, 3000, 0]));
    assert_eq!((g.gl_pathc, g.gl_offs), (3, 2));
    assert_eq!(globfree(&mut g), vec![1000, 2000, 3000]);
}
