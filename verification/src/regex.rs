//! What surrounds a regular-expression engine: pattern buffers, searches over
//! positions and register sets.
//!
//! The engine's answers are plain values here: what a compiled pattern reports of
//! itself, and the offsets of a match.
use vstd::prelude::*;
use crate::memory::{block, mapped, put, Memory, Ptr};
use crate::scan::{
    c_bytes,
    c_ended,
    lemma_c_len,
    read_c_string_bytes,
    read_c_string_bytes_with_nul,
    readable,
};
use crate::text::{c_text, store_text};

verus! {

/// Marks a buffer that holds a pattern of this library.
pub const FRANKEN_REGEX_MAGIC: u64 = 0x4652_4B4E_5245_4758;

pub const RE_BK_PLUS_QM: u64 = 0x2;

pub const RE_LIMITED_OPS: u64 = 0x400;

pub const RE_NO_BK_BRACES: u64 = 0x1000;

pub const RE_NO_BK_PARENS: u64 = 0x2000;

pub const RE_NO_BK_VBAR: u64 = 0x8000;

pub const RE_ICASE: u64 = 0x40_0000;

pub const RE_NO_SUB: u64 = 0x200_0000;

pub const REGS_ALLOCATED_MASK: u8 = 0x6;

pub const REGS_UNALLOCATED: u8 = 0;

pub const REGS_FIXED: u8 = 2;

pub const REGEX_FLAG_FASTMAP_ACCURATE: u8 = 0x8;

pub const REGEX_FLAG_NO_SUB: u8 = 0x10;

pub const REG_EXTENDED: i32 = 1;

pub const REG_ICASE: i32 = 2;

pub const REG_NOSUB: i32 = 8;

pub const REG_NOTBOL: i32 = 1;

pub const REG_STARTEND: i32 = 4;

pub const REG_NOMATCH: i32 = 1;

pub const REG_BADPAT: i32 = 2;

pub const FNM_NOMATCH: i32 = 1;

/// The size of a handle, as buffers report it.
pub const HANDLE_SIZE: i64 = 16;

/// What the engine reports of a compiled pattern, and the engine's name for it.
#[derive(Clone, Copy, Debug, PartialEq, Eq, Structural)]
pub struct Compiled {
    pub id: usize,
    pub num_regs: usize,
    pub nosub: bool,
    pub newline: bool,
}

/// What a pattern buffer points to.
#[derive(Clone, Copy, Debug, PartialEq, Eq, Structural)]
pub struct RegexHandle {
    pub magic: u64,
    pub compiled: Option<Compiled>,
}

/// A pattern buffer.
#[derive(Clone, Copy, Debug)]
pub struct RegexBufferLayout {
    pub buffer: Option<RegexHandle>,
    pub allocated: i64,
    pub used: i64,
    pub syntax: u64,
    pub fastmap: usize,
    pub translate: usize,
    pub re_nsub: usize,
    pub flags: u8,
}

/// The offsets of a match or a group, negative where there is none.
#[derive(Clone, Copy, Debug, PartialEq, Eq, Structural)]
pub struct RegMatch {
    pub rm_so: i32,
    pub rm_eo: i32,
}

/// Registers that a search fills.
pub struct LegacyReRegisters {
    pub num_regs: usize,
    pub start: Option<Vec<i32>>,
    pub end: Option<Vec<i32>>,
}

/// The compile flags that syntax bits ask for.
pub open spec fn syntax_cflags(syntax: u64) -> int {
    let extended = syntax & (RE_NO_BK_BRACES | RE_NO_BK_PARENS | RE_NO_BK_VBAR) != 0 && syntax
        & RE_BK_PLUS_QM == 0 && syntax & RE_LIMITED_OPS == 0;
    (if extended {
        REG_EXTENDED as int
    } else {
        0
    }) + (if syntax & RE_ICASE != 0 {
        REG_ICASE as int
    } else {
        0
    }) + (if syntax & RE_NO_SUB != 0 {
        REG_NOSUB as int
    } else {
        0
    })
}

/// The compile flags that syntax bits ask for.
pub fn legacy_regex_syntax_to_cflags(syntax: u64) -> (r: i32)
    ensures
        r == syntax_cflags(syntax),
{
    let mut cflags: i32 = 0;
    let extended: bool = syntax & (RE_NO_BK_BRACES | RE_NO_BK_PARENS | RE_NO_BK_VBAR) != 0 && syntax
        & RE_BK_PLUS_QM == 0 && syntax & RE_LIMITED_OPS == 0;
    if extended {
        cflags += REG_EXTENDED;
    }
    if syntax & RE_ICASE != 0 {
        cflags += REG_ICASE;
    }
    if syntax & RE_NO_SUB != 0 {
        cflags += REG_NOSUB;
    }
    cflags
}

/// The pattern in a buffer, if it is one of this library.
pub open spec fn compiled_in(b: RegexBufferLayout) -> Option<Compiled> {
    match b.buffer {
        Some(h) => if h.magic == FRANKEN_REGEX_MAGIC {
            h.compiled
        } else {
            None
        },
        None => None,
    }
}

/// The pattern in a buffer, if it is one of this library.
pub fn regex_compiled_from_buffer(b: &RegexBufferLayout) -> (r: Option<Compiled>)
    ensures
        r == compiled_in(*b),
{
    match b.buffer {
        Some(h) => if h.magic == FRANKEN_REGEX_MAGIC {
            h.compiled
        } else {
            None
        },
        None => None,
    }
}

/// A buffer without a pattern.
pub open spec fn released() -> RegexBufferLayout {
    RegexBufferLayout {
        buffer: None,
        allocated: 0,
        used: 0,
        syntax: 0,
        fastmap: 0,
        translate: 0,
        re_nsub: 0,
        flags: 0,
    }
}

/// What the engine is to drop when a buffer is released.
pub open spec fn droppable(b: RegexBufferLayout) -> Option<Compiled> {
    match b.buffer {
        Some(h) => h.compiled,
        None => None,
    }
}

/// Takes the pattern out of a buffer. Returns what the engine is to drop.
pub fn regex_release_buffer(b: &mut RegexBufferLayout) -> (r: Option<Compiled>)
    ensures
        *final(b) == released(),
        r == droppable(*old(b)),
{
    let dropped: Option<Compiled> = match b.buffer {
        Some(h) => h.compiled,
        None => None,
    };
    *b = RegexBufferLayout {
        buffer: None,
        allocated: 0,
        used: 0,
        syntax: 0,
        fastmap: 0,
        translate: 0,
        re_nsub: 0,
        flags: 0,
    };
    dropped
}

/// Sets the two bits that tell how registers are allocated.
pub fn regex_set_regs_allocated(flags: &mut u8, value: u8)
    ensures
        *final(flags) == (*old(flags) & !REGS_ALLOCATED_MASK) | ((value << 1u8)
            & REGS_ALLOCATED_MASK),
        (*final(flags) >> 1u8) & 3 == value & 3,
        *final(flags) & !REGS_ALLOCATED_MASK == *old(flags) & !REGS_ALLOCATED_MASK,
{
    let f: u8 = *flags;
    *flags = (f & !REGS_ALLOCATED_MASK) | ((value << 1u8) & REGS_ALLOCATED_MASK);
    let g: u8 = *flags;
    assert((g >> 1u8) & 3 == value & 3 && g & !6u8 == f & !6u8) by (bit_vector)
        requires
            g == (f & !6u8) | ((value << 1u8) & 6u8),
    ;
}

/// A buffer that holds a freshly compiled pattern.
pub open spec fn holding(c: Compiled, syntax: u64, nosub: bool) -> RegexBufferLayout {
    RegexBufferLayout {
        buffer: Some(RegexHandle { magic: FRANKEN_REGEX_MAGIC, compiled: Some(c) }),
        allocated: HANDLE_SIZE,
        used: HANDLE_SIZE,
        syntax,
        fastmap: 0,
        translate: 0,
        re_nsub: if c.num_regs == 0 {
            0
        } else {
            (c.num_regs - 1) as usize
        },
        flags: if nosub {
            REGEX_FLAG_NO_SUB
        } else {
            0
        },
    }
}

fn hold(b: &mut RegexBufferLayout, c: Compiled, syntax: u64, nosub: bool)
    ensures
        *final(b) == holding(c, syntax, nosub),
{
    let mut flags: u8 = 0;
    if nosub {
        flags = REGEX_FLAG_NO_SUB;
    }
    regex_set_regs_allocated(&mut flags, REGS_UNALLOCATED);
    assert((0x10u8 & !6u8) | ((0u8 << 1u8) & 6u8) == 0x10 && (0u8 & !6u8) | ((0u8 << 1u8) & 6u8)
        == 0) by (bit_vector);
    *b = RegexBufferLayout {
        buffer: Some(RegexHandle { magic: FRANKEN_REGEX_MAGIC, compiled: Some(c) }),
        allocated: HANDLE_SIZE,
        used: HANDLE_SIZE,
        syntax,
        fastmap: 0,
        translate: 0,
        re_nsub: c.num_regs.saturating_sub(1),
        flags,
    };
}

/// The pattern that `regcomp` hands to the engine: the string with its NUL.
/// `None` where there is no buffer or no pattern, or the pattern has no end.
pub fn regcomp_pattern(mem: &Memory, preg: &Option<RegexBufferLayout>, pattern: Ptr) -> (r: Option<
    Vec<u8>,
>)
    requires
        !pattern.null() ==> readable(mem@, pattern.at(), pattern.remaining),
    ensures
        r is Some == (preg is Some && !pattern.null() && c_ended(
            mem@,
            pattern.at(),
            pattern.remaining,
        )),
        r matches Some(b) ==> b@ == c_bytes(mem@, pattern.at(), pattern.remaining).push(0),
{
    if preg.is_none() {
        return None;
    }
    read_c_string_bytes_with_nul(mem, pattern)
}

/// Compiles the pattern at `pattern` into the buffer `preg`. `answer` is the
/// engine's, to the pattern that [`regcomp_pattern`] gives. An old pattern in the
/// buffer is released first, unless there is nothing to compile. Returns what the
/// call returns, and the old pattern, which the engine is to drop.
pub fn regcomp(
    mem: &Memory,
    preg: &mut Option<RegexBufferLayout>,
    pattern: Ptr,
    cflags: i32,
    answer: Result<Compiled, i32>,
) -> (r: (i32, Option<Compiled>))
    requires
        !pattern.null() ==> readable(mem@, pattern.at(), pattern.remaining),
    ensures
        ({
            let ended = c_ended(mem@, pattern.at(), pattern.remaining);
            &&& *old(preg) is None || pattern.null() ==> r == (REG_BADPAT, None::<Compiled>)
                && *final(preg) == *old(preg)
            &&& *old(preg) is Some && !pattern.null() ==> r.1 == droppable(old(preg)->Some_0)
            &&& *old(preg) is Some && !pattern.null() && !ended ==> r.0 == REG_BADPAT
                && *final(preg) == Some(released())
            &&& *old(preg) is Some && !pattern.null() && ended ==> match answer {
                Ok(c) => r.0 == 0 && *final(preg) == Some(
                    holding(
                        c,
                        if cflags & REG_EXTENDED != 0 {
                            RE_NO_BK_BRACES | RE_NO_BK_PARENS | RE_NO_BK_VBAR
                        } else {
                            0
                        },
                        cflags & REG_NOSUB != 0,
                    ),
                ),
                Err(code) => r.0 == code && *final(preg) == Some(released()),
            }
        }),
{
    if preg.is_none() || pattern.is_null() {
        return (REG_BADPAT, None);
    }
    match preg {
        None => (REG_BADPAT, None),
        Some(layout) => {
            let dropped: Option<Compiled> = regex_release_buffer(layout);
            let rc: i32 = match read_c_string_bytes_with_nul(mem, pattern) {
                None => REG_BADPAT,
                Some(_bytes) => match answer {
                    Err(code) => code,
                    Ok(c) => {
                        let syntax: u64 = if cflags & REG_EXTENDED != 0 {
                            RE_NO_BK_BRACES | RE_NO_BK_PARENS | RE_NO_BK_VBAR
                        } else {
                            0
                        };
                        hold(layout, c, syntax, cflags & REG_NOSUB != 0);
                        0
                    },
                },
            };
            (rc, dropped)
        },
    }
}

/// What `regexec` asks of the engine.
#[derive(Clone, Copy, Debug, PartialEq, Eq, Structural)]
pub enum ExecPlan {
    /// Nothing: the call returns.
    Return(i32),
    /// A match in the bytes from `start` to `end`, whose offsets count from
    /// `start`; groups only where `groups` is set.
    Region { start: usize, end: usize, eflags: i32, groups: bool },
    /// Whether the string at `start` matches, no more.
    Test { start: usize, eflags: i32 },
    /// A match of the string at `start`, with groups.
    Groups { start: usize, eflags: i32 },
}

/// The flags for a region that starts `so` bytes into a string: the start of the
/// region is no start of a line, unless a line feed before it makes it one.
pub open spec fn region_eflags(
    m: Seq<u8>,
    string: usize,
    so: int,
    eflags: i32,
    newline: bool,
) -> i32 {
    let base = eflags & !REG_STARTEND;
    if so == 0 {
        base
    } else if newline && m[string + so - 1] == 0x0a {
        base & !REG_NOTBOL
    } else {
        base | REG_NOTBOL
    }
}

/// What `regexec` asks of the engine.
pub open spec fn exec_plan(
    m: Seq<u8>,
    preg: Option<RegexBufferLayout>,
    string: usize,
    nmatch: usize,
    first: Option<RegMatch>,
    eflags: i32,
) -> ExecPlan {
    if preg is None || string == 0 {
        ExecPlan::Return(REG_NOMATCH)
    } else if compiled_in(preg->Some_0) is None {
        ExecPlan::Return(REG_BADPAT)
    } else if eflags & REG_STARTEND != 0 && first is Some {
        let so = first->Some_0.rm_so;
        let eo = first->Some_0.rm_eo;
        if so < 0 || eo < so {
            ExecPlan::Return(REG_NOMATCH)
        } else {
            ExecPlan::Region {
                start: (string + so) as usize,
                end: (string + eo) as usize,
                eflags: region_eflags(
                    m,
                    string,
                    so as int,
                    eflags,
                    compiled_in(preg->Some_0)->Some_0.newline,
                ),
                groups: nmatch != 0,
            }
        }
    } else if nmatch == 0 || first is None {
        ExecPlan::Test { start: string, eflags }
    } else {
        ExecPlan::Groups { start: string, eflags }
    }
}

/// Plans a match of the string at `string` against the pattern in `preg`. `first`
/// is the first of the caller's match slots, which holds the region to look at
/// where the flags say so.
pub fn regexec(
    mem: &Memory,
    preg: &Option<RegexBufferLayout>,
    string: usize,
    nmatch: usize,
    first: Option<RegMatch>,
    eflags: i32,
) -> (r: ExecPlan)
    requires
        string != 0 && eflags & REG_STARTEND != 0 ==> match first {
            Some(f) => f.rm_so >= 0 && f.rm_eo >= f.rm_so ==> string + f.rm_eo <= mem@.len(),
            None => true,
        },
    ensures
        r == exec_plan(mem@, *preg, string, nmatch, first, eflags),
{
    let size: usize = mem.size();
    if string == 0 {
        return ExecPlan::Return(REG_NOMATCH);
    }
    let layout: &RegexBufferLayout = match preg {
        Some(l) => l,
        None => {
            return ExecPlan::Return(REG_NOMATCH);
        },
    };
    let compiled: Compiled = match regex_compiled_from_buffer(layout) {
        Some(c) => c,
        None => {
            return ExecPlan::Return(REG_BADPAT);
        },
    };
    match first {
        Some(f) => {
            if eflags & REG_STARTEND != 0 {
                if f.rm_so < 0 || f.rm_eo < f.rm_so {
                    return ExecPlan::Return(REG_NOMATCH);
                }
                let so: usize = f.rm_so as usize;
                let eo: usize = f.rm_eo as usize;
                let mut sub: i32 = eflags & !REG_STARTEND;
                if so > 0 {
                    if compiled.newline && mem.load(string + (so - 1)) == 0x0a {
                        sub = sub & !REG_NOTBOL;
                    } else {
                        sub = sub | REG_NOTBOL;
                    }
                }
                return ExecPlan::Region {
                    start: string + so,
                    end: string + eo,
                    eflags: sub,
                    groups: nmatch != 0,
                };
            }
        },
        None => {},
    }
    if nmatch == 0 || first.is_none() {
        ExecPlan::Test { start: string, eflags }
    } else {
        ExecPlan::Groups { start: string, eflags }
    }
}

/// The bytes that a plan has the engine look at: a region as it stands, else the
/// string with its NUL.
pub open spec fn planned_text(m: Seq<u8>, plan: ExecPlan) -> Seq<u8> {
    match plan {
        ExecPlan::Return(_code) => seq![],
        ExecPlan::Region { start, end, eflags: _, groups: _ } => block(
            m,
            start as int,
            end - start,
        ),
        ExecPlan::Test { start, eflags: _ } => c_bytes(m, start as int, None).push(0),
        ExecPlan::Groups { start, eflags: _ } => c_bytes(m, start as int, None).push(0),
    }
}

/// The text of a plan lies in memory.
pub open spec fn plan_readable(m: Seq<u8>, plan: ExecPlan) -> bool {
    match plan {
        ExecPlan::Return(_code) => true,
        ExecPlan::Region { start, end, eflags: _, groups: _ } => start <= end <= m.len(),
        ExecPlan::Test { start, eflags: _ } => start != 0 && readable(m, start as int, None),
        ExecPlan::Groups { start, eflags: _ } => start != 0 && readable(m, start as int, None),
    }
}

/// The bytes that a plan has the engine look at; see [`planned_text`].
pub fn regexec_text(mem: &Memory, plan: ExecPlan) -> (r: Vec<u8>)
    requires
        plan_readable(mem@, plan),
    ensures
        r@ == planned_text(mem@, plan),
{
    let start: usize = match plan {
        ExecPlan::Return(_code) => {
            return Vec::new();
        },
        ExecPlan::Region { start, end, eflags: _, groups: _ } => {
            return mem.read(start, end - start);
        },
        ExecPlan::Test { start, eflags: _ } => start,
        ExecPlan::Groups { start, eflags: _ } => start,
    };
    proof {
        lemma_c_len(mem@, start as int, None);
    }
    match read_c_string_bytes_with_nul(
        mem,
        Ptr { addr: start, remaining: None, owned: false },
    ) {
        Some(b) => b,
        None => Vec::new(),
    }
}

/// An offset counted from `off` bytes further back; a negative one stays.
pub open spec fn rebased(o: i32, off: i32) -> int {
    if o >= 0 {
        o + off
    } else {
        o as int
    }
}

/// Counts the offsets of a match in a region from the start of its string.
pub fn rebase_matches(slots: &mut Vec<RegMatch>, off: i32)
    requires
        off >= 0,
        forall|i: int|
            0 <= i < old(slots)@.len() ==> (#[trigger] old(slots)@[i]).rm_so + off <= i32::MAX
                && old(slots)@[i].rm_eo + off <= i32::MAX,
    ensures
        final(slots)@.len() == old(slots)@.len(),
        forall|i: int|
            0 <= i < old(slots)@.len() ==> (#[trigger] final(slots)@[i]).rm_so == rebased(
                old(slots)@[i].rm_so,
                off,
            ) && final(slots)@[i].rm_eo == rebased(old(slots)@[i].rm_eo, off),
{
    let n: usize = slots.len();
    let mut i: usize = 0;
    while i < n
        invariant
            i <= n,
            slots@.len() == n,
            old(slots)@.len() == n,
            off >= 0,
            forall|k: int|
                0 <= k < n ==> (#[trigger] old(slots)@[k]).rm_so + off <= i32::MAX
                    && old(slots)@[k].rm_eo + off <= i32::MAX,
            forall|k: int|
                0 <= k < i ==> (#[trigger] slots@[k]).rm_so == rebased(old(slots)@[k].rm_so, off)
                    && slots@[k].rm_eo == rebased(old(slots)@[k].rm_eo, off),
            forall|k: int| i <= k < n ==> #[trigger] slots@[k] == old(slots)@[k],
        decreases n - i,
    {
        let m: RegMatch = slots[i];
        assert(m == old(slots)@[i as int]);
        let so: i32 = if m.rm_so >= 0 {
            m.rm_so + off
        } else {
            m.rm_so
        };
        let eo: i32 = if m.rm_eo >= 0 {
            m.rm_eo + off
        } else {
            m.rm_eo
        };
        slots[i] = RegMatch { rm_so: so, rm_eo: eo };
        i += 1;
    }
}

/// The match slots of a region can be counted from the start of its string.
pub open spec fn can_rebase(plan: ExecPlan, string: usize, slots: Seq<RegMatch>) -> bool {
    match plan {
        ExecPlan::Region { start, end: _, eflags: _, groups } => groups ==> {
            &&& string <= start
            &&& start - string <= i32::MAX
            &&& forall|i: int|
                0 <= i < slots.len() ==> (#[trigger] slots[i]).rm_so + (start - string) <= i32::MAX
                    && slots[i].rm_eo + (start - string) <= i32::MAX
        },
        _ => true,
    }
}

/// Takes the engine's answer to a plan: what the call returns, with the match
/// slots counted from the start of the string. An answer of zero is a match.
pub fn regexec_finish(
    plan: ExecPlan,
    string: usize,
    answer: i32,
    slots: &mut Vec<RegMatch>,
) -> (r: i32)
    requires
        answer == 0 ==> can_rebase(plan, string, old(slots)@),
    ensures
        r == match plan {
            ExecPlan::Return(code) => code,
            ExecPlan::Test { start: _, eflags: _ } => if answer == 0 {
                0
            } else {
                REG_NOMATCH
            },
            _ => answer,
        },
        final(slots)@.len() == old(slots)@.len(),
        ({
            let off = match plan {
                ExecPlan::Region { start, end: _, eflags: _, groups } => if groups && answer == 0 {
                    start - string
                } else {
                    0
                },
                _ => 0,
            };
            forall|i: int|
                0 <= i < old(slots)@.len() ==> (#[trigger] final(slots)@[i]).rm_so == rebased(
                    old(slots)@[i].rm_so,
                    off as i32,
                ) && final(slots)@[i].rm_eo == rebased(old(slots)@[i].rm_eo, off as i32)
        }),
{
    match plan {
        ExecPlan::Return(code) => code,
        ExecPlan::Test { start: _, eflags: _ } => if answer == 0 {
            0
        } else {
            REG_NOMATCH
        },
        ExecPlan::Groups { start: _, eflags: _ } => answer,
        ExecPlan::Region { start, end: _, eflags: _, groups } => {
            if answer == 0 && groups {
                rebase_matches(slots, (start - string) as i32);
            }
            answer
        },
    }
}

/// Releases the pattern in a buffer. Returns what the engine is to drop.
pub fn regfree(preg: &mut Option<RegexBufferLayout>) -> (r: Option<Compiled>)
    ensures
        *final(preg) == match *old(preg) {
            Some(_b) => Some(released()),
            None => None,
        },
        r == match *old(preg) {
            Some(b) => droppable(b),
            None => None,
        },
{
    match preg {
        Some(b) => regex_release_buffer(b),
        None => None,
    }
}

/// Writes the engine's message for an error, cut to fit with a NUL, into the
/// `size` bytes at `errbuf`, and returns the bytes that the whole message needs.
pub fn regerror(mem: &mut Memory, msg: &[u8], errbuf: usize, size: usize) -> (r: usize)
    requires
        msg@.len() < usize::MAX,
        errbuf != 0 && size > 0 ==> mapped(old(mem)@, errbuf as int, size as int),
    ensures
        r == msg@.len() + 1,
        final(mem)@ == if errbuf != 0 && size > 0 {
            put(old(mem)@, errbuf as int, c_text(msg@, size as int))
        } else {
            old(mem)@
        },
{
    if errbuf != 0 && size > 0 {
        store_text(mem, errbuf, size, msg);
    }
    msg.len() + 1
}

/// The pattern and the name that `fnmatch` hands to the engine, each without its
/// NUL; `None` where either is null.
pub fn fnmatch_operands(mem: &Memory, pattern: usize, string: usize) -> (r: Option<
    (Vec<u8>, Vec<u8>),
>)
    requires
        pattern != 0 && string != 0 ==> readable(mem@, pattern as int, None) && readable(
            mem@,
            string as int,
            None,
        ),
    ensures
        r is Some == (pattern != 0 && string != 0),
        r matches Some((p, s)) ==> p@ == c_bytes(mem@, pattern as int, None) && s@ == c_bytes(
            mem@,
            string as int,
            None,
        ),
{
    if pattern == 0 || string == 0 {
        return None;
    }
    proof {
        lemma_c_len(mem@, pattern as int, None);
        lemma_c_len(mem@, string as int, None);
    }
    let p: Option<Vec<u8>> = read_c_string_bytes(
        mem,
        Ptr { addr: pattern, remaining: None, owned: false },
    );
    let s: Option<Vec<u8>> = read_c_string_bytes(
        mem,
        Ptr { addr: string, remaining: None, owned: false },
    );
    match (p, s) {
        (Some(p), Some(s)) => Some((p, s)),
        _ => None,
    }
}

/// Whether a name matches a shell pattern: `matched` is the engine's answer to
/// what [`fnmatch_operands`] gives, under the caller's flags. A null pointer
/// matches nothing.
pub fn fnmatch(pattern: usize, string: usize, matched: bool) -> (r: i32)
    ensures
        r == if pattern == 0 || string == 0 || !matched {
            FNM_NOMATCH
        } else {
            0
        },
{
    if pattern == 0 || string == 0 {
        return FNM_NOMATCH;
    }
    if matched {
        0
    } else {
        FNM_NOMATCH
    }
}

/// Sets the syntax for later compilations and returns the old one.
pub fn re_set_syntax(current: &mut u64, syntax: u64) -> (r: u64)
    ensures
        r == *old(current),
        *final(current) == syntax,
{
    let before: u64 = *current;
    *current = syntax;
    before
}

/// The pattern and the compile flags that `re_compile_pattern` hands to the
/// engine: the `length` bytes at `pattern`. `None` without a pattern or a buffer.
pub fn re_compile_request(
    mem: &Memory,
    pattern: usize,
    length: usize,
    buffer: &Option<RegexBufferLayout>,
    syntax: u64,
) -> (r: Option<(Vec<u8>, i32)>)
    requires
        pattern != 0 && *buffer is Some ==> mapped(mem@, pattern as int, length as int),
    ensures
        r is Some == (pattern != 0 && *buffer is Some),
        r matches Some((b, cflags)) ==> b@ == block(mem@, pattern as int, length as int) && cflags
            == syntax_cflags(syntax),
{
    if pattern == 0 || buffer.is_none() {
        return None;
    }
    Some((mem.read(pattern, length), legacy_regex_syntax_to_cflags(syntax)))
}

/// Compiles a pattern into a buffer under the current syntax. `answer` is the
/// engine's, to what [`re_compile_request`] gives. Returns a message where that
/// failed, and the old pattern, which the engine is to drop.
pub fn re_compile_pattern(
    pattern: usize,
    buffer: &mut Option<RegexBufferLayout>,
    syntax: u64,
    answer: Result<Compiled, i32>,
) -> (r: (Option<&'static str>, Option<Compiled>))
    ensures
        pattern == 0 || *old(buffer) is None ==> r.0 is Some && r.0->Some_0@
            == "Invalid argument"@ && r.1 is None && *final(buffer) == *old(buffer),
        pattern != 0 && *old(buffer) is Some ==> r.1 == droppable(old(buffer)->Some_0),
        pattern != 0 && *old(buffer) is Some ==> match answer {
            Ok(c) => r.0 is None && *final(buffer) == Some(
                holding(c, syntax, syntax & RE_NO_SUB != 0),
            ),
            Err(_code) => r.0 is Some && r.0->Some_0@ == "Invalid regular expression"@
                && *final(buffer) == Some(released()),
        },
{
    if pattern == 0 {
        return (Some("Invalid argument"), None);
    }
    match buffer {
        None => (Some("Invalid argument"), None),
        Some(layout) => {
            let dropped: Option<Compiled> = regex_release_buffer(layout);
            match answer {
                Ok(c) => {
                    hold(layout, c, syntax, syntax & RE_NO_SUB != 0);
                    (None, dropped)
                },
                Err(_code) => (Some("Invalid regular expression"), dropped),
            }
        },
    }
}

/// Marks the fast map of a pattern as accurate: `0`, or `-2` without a pattern.
pub fn re_compile_fastmap(buffer: &mut Option<RegexBufferLayout>) -> (r: i32)
    ensures
        ({
            let ok = *old(buffer) is Some && compiled_in(old(buffer)->Some_0) is Some;
            &&& r == if ok {
                0
            } else {
                -2int
            }
            &&& *final(buffer) == if ok {
                Some(
                    RegexBufferLayout {
                        flags: old(buffer)->Some_0.flags | REGEX_FLAG_FASTMAP_ACCURATE,
                        ..old(buffer)->Some_0
                    },
                )
            } else {
                *old(buffer)
            }
        }),
{
    match buffer {
        None => -2,
        Some(layout) => {
            if regex_compiled_from_buffer(layout).is_none() {
                return -2;
            }
            let flags: u8 = layout.flags | REGEX_FLAG_FASTMAP_ACCURATE;
            layout.flags = flags;
            0
        },
    }
}

/// The bytes of a text in two parts, each `size` bytes at an address; `-2` for a
/// negative size, or a part that has bytes but no address.
pub fn legacy_regex_concat(
    mem: &Memory,
    string1: usize,
    size1: i32,
    string2: usize,
    size2: i32,
) -> (r: Result<Vec<u8>, i32>)
    requires
        size1 > 0 && string1 != 0 ==> mapped(mem@, string1 as int, size1 as int),
        size2 > 0 && string2 != 0 ==> mapped(mem@, string2 as int, size2 as int),
    ensures
        match r {
            Ok(b) => parts_ok(string1, size1, string2, size2) && b@ == part(
                mem@,
                string1,
                size1,
            ) + part(mem@, string2, size2),
            Err(code) => code == -2 && !parts_ok(string1, size1, string2, size2),
        },
{
    if size1 < 0 || size2 < 0 {
        return Err(-2);
    }
    if size1 > 0 && string1 == 0 {
        return Err(-2);
    }
    if size2 > 0 && string2 == 0 {
        return Err(-2);
    }
    let mut haystack: Vec<u8> = Vec::new();
    if size1 > 0 {
        let mut a: Vec<u8> = mem.read(string1, size1 as usize);
        haystack.append(&mut a);
    }
    assert(haystack@ =~= part(mem@, string1, size1));
    if size2 > 0 {
        let mut b: Vec<u8> = mem.read(string2, size2 as usize);
        haystack.append(&mut b);
    }
    assert(haystack@ =~= part(mem@, string1, size1) + part(mem@, string2, size2));
    Ok(haystack)
}

/// Sizes are not negative, and a part with bytes has an address.
pub open spec fn parts_ok(string1: usize, size1: i32, string2: usize, size2: i32) -> bool {
    size1 >= 0 && size2 >= 0 && (size1 > 0 ==> string1 != 0) && (size2 > 0 ==> string2 != 0)
}

/// The bytes of a part.
pub open spec fn part(m: Seq<u8>, a: usize, size: i32) -> Seq<u8> {
    if size > 0 {
        block(m, a as int, size as int)
    } else {
        seq![]
    }
}

/// A position as a C integer, which counts around.
pub open spec fn c_int_of(x: int) -> int {
    let w = x % 0x1_0000_0000;
    if w >= 0x8000_0000 {
        w - 0x1_0000_0000
    } else {
        w
    }
}

fn to_c_int(x: u128) -> (r: i32)
    ensures
        r == c_int_of(x as int),
{
    let w: u64 = (x % 0x1_0000_0000) as u64;
    let v: i64 = if w >= 0x8000_0000 {
        w as i64 - 0x1_0000_0000
    } else {
        w as i64
    };
    v as i32
}

/// A search over positions, between two answers of the engine.
#[derive(Clone, Copy, Debug, PartialEq, Eq, Structural)]
pub struct Search {
    /// The position to try.
    pub pos: usize,
    /// The last position to try.
    pub last: usize,
    /// Positions go down.
    pub down: bool,
    /// No match may reach behind this place.
    pub stop: usize,
}

/// A search can go on.
pub open spec fn searching(s: Search) -> bool {
    if s.down {
        s.last <= s.pos
    } else {
        s.pos <= s.last
    }
}

/// The integer, or zero for a negative one.
pub open spec fn not_negative(x: i32) -> int {
    if x < 0 {
        0
    } else {
        x as int
    }
}

/// A match that the engine reports at a position stays before the stop.
pub open spec fn admits(s: Search, m: (i32, i32)) -> bool {
    s.pos + not_negative(m.1) <= s.stop
}

/// The search at the next position.
pub open spec fn advanced(s: Search) -> Search {
    Search {
        pos: if s.down {
            (s.pos - 1) as usize
        } else {
            (s.pos + 1) as usize
        },
        ..s
    }
}

/// What a search does next.
#[derive(Clone, Copy, Debug, PartialEq, Eq, Structural)]
pub enum SearchNext {
    /// It ends with a match at `at`; registers count from `base`.
    Found { at: i32, base: i32 },
    /// It tries another position.
    Try(Search),
    /// It ends without a match.
    Missing,
}

/// The search for a match in `len` bytes, from `startpos` over `range` positions,
/// upwards or downwards, with matches that end by `stop`. `None` where it starts
/// behind the end.
pub open spec fn search_of(len: int, startpos: i32, range: i32, stop: i32) -> Option<Search> {
    let st = not_negative(startpos);
    if st > len {
        None
    } else {
        let bound = if not_negative(stop) < len {
            not_negative(stop)
        } else {
            len
        };
        let last = if range >= 0 {
            if st + range < len {
                st + range
            } else {
                len
            }
        } else if st + range > 0 {
            st + range
        } else {
            0
        };
        Some(
            Search {
                pos: st as usize,
                last: last as usize,
                down: range < 0,
                stop: bound as usize,
            },
        )
    }
}

/// Starts a search; see [`search_of`].
pub fn search_start(len: usize, startpos: i32, range: i32, stop: i32) -> (r: Option<Search>)
    ensures
        r == search_of(len as int, startpos, range, stop),
        r matches Some(s) ==> searching(s) && s.pos <= len && s.last <= len && s.stop <= len,
{
    let st: usize = if startpos < 0 {
        0
    } else {
        startpos as usize
    };
    if st > len {
        return None;
    }
    let stop_at: usize = if stop < 0 {
        0
    } else {
        stop as usize
    };
    let bound: usize = if stop_at < len {
        stop_at
    } else {
        len
    };
    if range >= 0 {
        let end: usize = st.saturating_add(range as usize);
        let last: usize = if end < len {
            end
        } else {
            len
        };
        Some(Search { pos: st, last, down: false, stop: bound })
    } else {
        let wide: i64 = range as i64;
        let back: usize = (-wide) as usize;
        let last: usize = st.saturating_sub(back);
        Some(Search { pos: st, last, down: true, stop: bound })
    }
}

/// The bytes that a search or a match has the engine look at for a position.
pub fn search_text<'a>(text: &'a [u8], pos: usize) -> (r: &'a [u8])
    requires
        pos <= text@.len(),
    ensures
        r@ == text@.subrange(pos as int, text@.len() as int),
{
    vstd::slice::slice_subrange(text, pos, text.len())
}

/// What a search does on the engine's answer for its position.
pub open spec fn step_of(s: Search, answer: Option<(i32, i32)>) -> SearchNext {
    if answer is Some && admits(s, answer->Some_0) {
        SearchNext::Found {
            at: c_int_of(s.pos + not_negative(answer->Some_0.0)) as i32,
            base: c_int_of(s.pos as int) as i32,
        }
    } else if s.pos == s.last {
        SearchNext::Missing
    } else {
        SearchNext::Try(advanced(s))
    }
}

/// Takes the engine's answer for the position of a search, to the bytes that
/// [`search_text`] gives.
pub fn search_step(s: Search, answer: Option<(i32, i32)>) -> (r: SearchNext)
    requires
        searching(s),
    ensures
        r == step_of(s, answer),
        r matches SearchNext::Try(t) ==> searching(t),
{
    match answer {
        Some((so, eo)) => {
            let rel: usize = if so < 0 {
                0
            } else {
                so as usize
            };
            let end: usize = if eo < 0 {
                0
            } else {
                eo as usize
            };
            if s.pos as u128 + end as u128 <= s.stop as u128 {
                return SearchNext::Found {
                    at: to_c_int(s.pos as u128 + rel as u128),
                    base: to_c_int(s.pos as u128),
                };
            }
        },
        None => {},
    }
    if s.pos == s.last {
        return SearchNext::Missing;
    }
    let next: usize = if s.down {
        s.pos - 1
    } else {
        s.pos + 1
    };
    SearchNext::Try(Search { pos: next, last: s.last, down: s.down, stop: s.stop })
}

/// The position that a search ends at under an engine's answers for all
/// positions.
pub open spec fn search_result(s: Search, f: spec_fn(int) -> Option<(i32, i32)>) -> Option<int>
    decreases (if s.down {
        s.pos - s.last
    } else {
        s.last - s.pos
    }),
{
    if !searching(s) {
        None
    } else if f(s.pos as int) is Some && admits(s, f(s.pos as int)->Some_0) {
        Some(s.pos as int)
    } else if s.pos == s.last {
        None
    } else {
        search_result(advanced(s), f)
    }
}

/// Taking step after step leads to the result of a search.
pub proof fn law_steps_lead_to_the_result(s: Search, f: spec_fn(int) -> Option<(i32, i32)>)
    requires
        searching(s),
    ensures
        match step_of(s, f(s.pos as int)) {
            SearchNext::Found { at: _, base: _ } => search_result(s, f) == Some(s.pos as int),
            SearchNext::Try(t) => searching(t) && search_result(s, f) == search_result(t, f),
            SearchNext::Missing => search_result(s, f) is None,
        },
{
}

/// A search ends at the first position, in its direction, at which the engine
/// reports a match that stays before the stop.
pub proof fn law_search_ends_at_the_first_match(s: Search, f: spec_fn(int) -> Option<(i32, i32)>)
    requires
        searching(s),
    ensures
        match search_result(s, f) {
            Some(p) => {
                let found = Search { pos: p as usize, ..s };
                &&& if s.down {
                    s.last <= p <= s.pos
                } else {
                    s.pos <= p <= s.last
                }
                &&& f(p) is Some && admits(found, f(p)->Some_0)
                &&& forall|q: int|
                    (if s.down {
                        p < q <= s.pos
                    } else {
                        s.pos <= q < p
                    }) ==> !(#[trigger] f(q) is Some && admits(
                        Search { pos: q as usize, ..s },
                        f(q)->Some_0,
                    ))
            },
            None => forall|q: int|
                (if s.down {
                    s.last <= q <= s.pos
                } else {
                    s.pos <= q <= s.last
                }) ==> !(#[trigger] f(q) is Some && admits(
                    Search { pos: q as usize, ..s },
                    f(q)->Some_0,
                )),
        },
    decreases (if s.down {
        s.pos - s.last
    } else {
        s.last - s.pos
    }),
{
    if !(f(s.pos as int) is Some && admits(s, f(s.pos as int)->Some_0)) && s.pos != s.last {
        law_search_ends_at_the_first_match(advanced(s), f);
    }
    assert(Search { pos: s.pos, ..s } == s);
}

/// Registers hold as many offsets as they say.
pub open spec fn regs_ok(r: LegacyReRegisters) -> bool {
    &&& r.start is Some ==> r.start->Some_0@.len() == r.num_regs
    &&& r.end is Some ==> r.end->Some_0@.len() == r.num_regs
}

/// New storage is needed for registers.
pub open spec fn regs_missing(r: LegacyReRegisters) -> bool {
    r.num_regs == 0 || r.start is None || r.end is None
}

/// The number of registers after a write of `n` matches.
pub open spec fn regs_after(r: LegacyReRegisters, n: int) -> int {
    if regs_missing(r) {
        if n < 2 {
            2
        } else {
            n
        }
    } else {
        r.num_regs as int
    }
}

/// The sum of two integers, held inside the range of a C integer.
pub open spec fn sat_int(a: int, b: int) -> int {
    if a + b > i32::MAX {
        i32::MAX as int
    } else if a + b < i32::MIN {
        i32::MIN as int
    } else {
        a + b
    }
}

/// Register `i` after a write of matches whose offsets count from `offset`.
pub open spec fn reg_value(o: Seq<i32>, i: int, offset: i32) -> int {
    if i < o.len() && o[i] >= 0 {
        sat_int(offset as int, o[i] as int)
    } else {
        -1
    }
}

/// The starts, or the ends, of matches.
pub open spec fn starts(ms: Seq<RegMatch>) -> Seq<i32> {
    Seq::new(ms.len(), |i: int| ms[i].rm_so)
}

pub open spec fn ends(ms: Seq<RegMatch>) -> Seq<i32> {
    Seq::new(ms.len(), |i: int| ms[i].rm_eo)
}

fn sat_c_int(a: i32, b: i32) -> (r: i32)
    ensures
        r == sat_int(a as int, b as int),
{
    let sum: i64 = a as i64 + b as i64;
    if sum > i32::MAX as i64 {
        i32::MAX
    } else if sum < i32::MIN as i64 {
        i32::MIN
    } else {
        sum as i32
    }
}

fn reg_column(matches: &[RegMatch], n: usize, offset: i32, ends_too: bool) -> (r: Vec<i32>)
    ensures
        r@.len() == n,
        forall|i: int|
            0 <= i < n ==> #[trigger] r@[i] == reg_value(
                if ends_too {
                    ends(matches@)
                } else {
                    starts(matches@)
                },
                i,
                offset,
            ),
{
    let mut out: Vec<i32> = Vec::new();
    let mut i: usize = 0;
    while i < n
        invariant
            i <= n,
            out@.len() == i,
            forall|k: int|
                0 <= k < i ==> #[trigger] out@[k] == reg_value(
                    if ends_too {
                        ends(matches@)
                    } else {
                        starts(matches@)
                    },
                    k,
                    offset,
                ),
        decreases n - i,
    {
        let mut v: i32 = -1;
        if i < matches.len() {
            let o: i32 = if ends_too {
                matches[i].rm_eo
            } else {
                matches[i].rm_so
            };
            if o >= 0 {
                v = sat_c_int(offset, o);
            }
        }
        out.push(v);
        i += 1;
    }
    out
}

/// Writes matches into registers, with offsets that count from `offset`: storage
/// is asked for where there is none, and nothing is written where it is refused.
pub fn legacy_regex_write_regs(
    regs: &mut Option<LegacyReRegisters>,
    matches: &[RegMatch],
    offset: i32,
    granted: bool,
)
    requires
        *old(regs) is Some ==> regs_ok(old(regs)->Some_0),
    ensures
        regs_written(*old(regs), matches@, offset, granted, *final(regs)),
{
    match regs {
        None => {},
        Some(r) => {
            let missing: bool = r.num_regs == 0 || r.start.is_none() || r.end.is_none();
            if missing && !granted {
                return;
            }
            let n: usize = if missing {
                if matches.len() < 2 {
                    2
                } else {
                    matches.len()
                }
            } else {
                r.num_regs
            };
            let s: Vec<i32> = reg_column(matches, n, offset, false);
            let e: Vec<i32> = reg_column(matches, n, offset, true);
            *r = LegacyReRegisters { num_regs: n, start: Some(s), end: Some(e) };
        },
    }
}

/// `after` are the registers `before` after a write of matches.
pub open spec fn regs_written(
    before: Option<LegacyReRegisters>,
    ms: Seq<RegMatch>,
    offset: i32,
    granted: bool,
    after: Option<LegacyReRegisters>,
) -> bool {
    match before {
        None => after is None,
        Some(b) => if regs_missing(b) && !granted {
            after == before
        } else {
            &&& after is Some
            &&& regs_ok(after->Some_0)
            &&& after->Some_0.num_regs == regs_after(b, ms.len() as int)
            &&& after->Some_0.start is Some && after->Some_0.end is Some
            &&& forall|i: int|
                0 <= i < after->Some_0.num_regs ==> #[trigger] after->Some_0.start->Some_0@[i]
                    == reg_value(starts(ms), i, offset)
            &&& forall|i: int|
                0 <= i < after->Some_0.num_regs ==> #[trigger] after->Some_0.end->Some_0@[i]
                    == reg_value(ends(ms), i, offset)
        },
    }
}

/// Where a match at a fixed position starts, and what stops the call before the
/// engine is asked: `Err` holds what the call returns.
pub fn match_start(len: usize, start: i32) -> (r: Result<usize, i32>)
    ensures
        match r {
            Ok(pos) => pos == not_negative(start) && pos <= len,
            Err(code) => code == -1 && not_negative(start) > len,
        },
{
    let st: usize = if start < 0 {
        0
    } else {
        start as usize
    };
    if st > len {
        Err(-1)
    } else {
        Ok(st)
    }
}

/// What a match at the fixed position `pos` in `len` bytes returns by the
/// engine's answer: its length, or `-1` where there is none, it starts further
/// on, or it reaches behind the stop.
pub fn match_result(len: usize, pos: usize, stop: i32, answer: Option<(i32, i32)>) -> (r: i32)
    ensures
        r == match_length(len as int, pos as int, stop, answer),
{
    let stop_at: usize = if stop < 0 {
        0
    } else {
        stop as usize
    };
    let bound: usize = if stop_at < len {
        stop_at
    } else {
        len
    };
    match answer {
        None => -1,
        Some((so, eo)) => {
            let end: usize = if eo < 0 {
                0
            } else {
                eo as usize
            };
            if so != 0 || pos as u128 + end as u128 > bound as u128 {
                -1
            } else {
                eo
            }
        },
    }
}

/// What a match at a fixed position returns.
pub open spec fn match_length(len: int, pos: int, stop: i32, answer: Option<(i32, i32)>) -> int {
    let bound = if not_negative(stop) < len {
        not_negative(stop)
    } else {
        len
    };
    match answer {
        None => -1,
        Some((so, eo)) => if so != 0 || pos + not_negative(eo) > bound {
            -1
        } else {
            eo as int
        },
    }
}

/// How many match slots the engine is given for a pattern.
pub fn match_slots(c: &Compiled) -> (r: usize)
    ensures
        r == if c.num_regs < 2 {
            2
        } else {
            c.num_regs
        },
{
    if c.num_regs < 2 {
        2
    } else {
        c.num_regs
    }
}

/// Writes the registers of a match that was found, unless the pattern reports
/// no groups; see [`legacy_regex_write_regs`].
pub fn write_found(
    c: &Compiled,
    regs: &mut Option<LegacyReRegisters>,
    matches: &[RegMatch],
    base: i32,
    granted: bool,
)
    requires
        *old(regs) is Some ==> regs_ok(old(regs)->Some_0),
    ensures
        c.nosub ==> *final(regs) == *old(regs),
        !c.nosub ==> regs_written(*old(regs), matches@, base, granted, *final(regs)),
{
    if !c.nosub {
        legacy_regex_write_regs(regs, matches, base, granted);
    }
}

/// A text in two parts, ready for a search.
pub open spec fn text_of(m: Seq<u8>, string1: usize, size1: i32, string2: usize, size2: i32) -> Seq<
    u8,
> {
    part(m, string1, size1) + part(m, string2, size2)
}

/// A buffer holds a pattern.
pub open spec fn holds_pattern(buffer: Option<RegexBufferLayout>) -> bool {
    buffer is Some && compiled_in(buffer->Some_0) is Some
}

/// Starts a search in a text of two parts: the text and the search, whose steps
/// [`search_step`] takes; or what the call returns at once: `-2` without a
/// pattern or with a bad text, `-1` where the search starts behind the end.
pub fn re_search_2(
    mem: &Memory,
    buffer: &Option<RegexBufferLayout>,
    string1: usize,
    size1: i32,
    string2: usize,
    size2: i32,
    startpos: i32,
    range: i32,
    stop: i32,
) -> (r: Result<(Vec<u8>, Search), i32>)
    requires
        size1 > 0 && string1 != 0 ==> mapped(mem@, string1 as int, size1 as int),
        size2 > 0 && string2 != 0 ==> mapped(mem@, string2 as int, size2 as int),
    ensures
        ({
            let t = text_of(mem@, string1, size1, string2, size2);
            let ok = holds_pattern(*buffer) && parts_ok(string1, size1, string2, size2);
            match r {
                Ok((h, s)) => ok && h@ == t && search_of(
                    t.len() as int,
                    startpos,
                    range,
                    stop,
                ) == Some(s) && searching(s) && s.pos <= t.len() && s.last <= t.len(),
                Err(code) => if ok {
                    code == -1 && search_of(t.len() as int, startpos, range, stop) is None
                } else {
                    code == -2
                },
            }
        }),
{
    match buffer {
        None => Err(-2),
        Some(b) => {
            if regex_compiled_from_buffer(b).is_none() {
                return Err(-2);
            }
            match legacy_regex_concat(mem, string1, size1, string2, size2) {
                Err(code) => Err(code),
                Ok(h) => match search_start(h.len(), startpos, range, stop) {
                    None => Err(-1),
                    Some(s) => Ok((h, s)),
                },
            }
        },
    }
}

/// Starts a search in a text of one part, all of which matches may reach; see
/// [`re_search_2`].
pub fn re_search(
    mem: &Memory,
    buffer: &Option<RegexBufferLayout>,
    string: usize,
    length: i32,
    start: i32,
    range: i32,
) -> (r: Result<(Vec<u8>, Search), i32>)
    requires
        length > 0 && string != 0 ==> mapped(mem@, string as int, length as int),
    ensures
        ({
            let t = text_of(mem@, 0, 0, string, length);
            let ok = holds_pattern(*buffer) && parts_ok(0, 0, string, length);
            match r {
                Ok((h, s)) => ok && h@ == t && search_of(
                    t.len() as int,
                    start,
                    range,
                    length,
                ) == Some(s) && searching(s) && s.pos <= t.len() && s.last <= t.len(),
                Err(code) => if ok {
                    code == -1 && search_of(t.len() as int, start, range, length) is None
                } else {
                    code == -2
                },
            }
        }),
{
    re_search_2(mem, buffer, 0, 0, string, length, start, range, length)
}

/// Starts a match at a fixed position in a text of two parts: the text and the
/// position, for which [`match_result`] takes the engine's answer; or what the
/// call returns at once.
pub fn re_match_2(
    mem: &Memory,
    buffer: &Option<RegexBufferLayout>,
    string1: usize,
    size1: i32,
    string2: usize,
    size2: i32,
    start: i32,
) -> (r: Result<(Vec<u8>, usize), i32>)
    requires
        size1 > 0 && string1 != 0 ==> mapped(mem@, string1 as int, size1 as int),
        size2 > 0 && string2 != 0 ==> mapped(mem@, string2 as int, size2 as int),
    ensures
        ({
            let t = text_of(mem@, string1, size1, string2, size2);
            let ok = holds_pattern(*buffer) && parts_ok(string1, size1, string2, size2);
            match r {
                Ok((h, pos)) => ok && h@ == t && pos == not_negative(start) && pos <= t.len(),
                Err(code) => if ok {
                    code == -1 && not_negative(start) > t.len()
                } else {
                    code == -2
                },
            }
        }),
{
    match buffer {
        None => Err(-2),
        Some(b) => {
            if regex_compiled_from_buffer(b).is_none() {
                return Err(-2);
            }
            match legacy_regex_concat(mem, string1, size1, string2, size2) {
                Err(code) => Err(code),
                Ok(h) => match match_start(h.len(), start) {
                    Err(code) => Err(code),
                    Ok(pos) => Ok((h, pos)),
                },
            }
        },
    }
}

/// Starts a match at a fixed position in a text of one part; see [`re_match_2`].
pub fn re_match(
    mem: &Memory,
    buffer: &Option<RegexBufferLayout>,
    string: usize,
    length: i32,
    start: i32,
) -> (r: Result<(Vec<u8>, usize), i32>)
    requires
        length > 0 && string != 0 ==> mapped(mem@, string as int, length as int),
    ensures
        ({
            let t = text_of(mem@, 0, 0, string, length);
            let ok = holds_pattern(*buffer) && parts_ok(0, 0, string, length);
            match r {
                Ok((h, pos)) => ok && h@ == t && pos == not_negative(start) && pos <= t.len(),
                Err(code) => if ok {
                    code == -1 && not_negative(start) > t.len()
                } else {
                    code == -2
                },
            }
        }),
{
    re_match_2(mem, buffer, 0, 0, string, length, start)
}

/// Gives registers storage of the caller's, and notes in the pattern buffer
/// whether there is any.
pub fn re_set_registers(
    buffer: &mut Option<RegexBufferLayout>,
    regs: &mut Option<LegacyReRegisters>,
    num_regs: u32,
    starts: Option<Vec<i32>>,
    ends: Option<Vec<i32>>,
)
    ensures
        *old(regs) is None ==> *final(regs) is None && *final(buffer) == *old(buffer),
        *old(regs) is Some ==> *final(regs) == Some(
            LegacyReRegisters { num_regs: num_regs as usize, start: starts, end: ends },
        ),
        *old(regs) is Some ==> match *old(buffer) {
            None => *final(buffer) is None,
            Some(b) => *final(buffer) == Some(
                RegexBufferLayout {
                    flags: (b.flags & !REGS_ALLOCATED_MASK) | (((if starts is None || ends is None {
                        REGS_UNALLOCATED
                    } else {
                        REGS_FIXED
                    }) << 1u8) & REGS_ALLOCATED_MASK),
                    ..b
                },
            ),
        },
{
    if regs.is_none() {
        return;
    }
    let value: u8 = if starts.is_none() || ends.is_none() {
        REGS_UNALLOCATED
    } else {
        REGS_FIXED
    };
    *regs = Some(LegacyReRegisters { num_regs: num_regs as usize, start: starts, end: ends });
    match buffer {
        None => {},
        Some(b) => {
            let mut flags: u8 = b.flags;
            regex_set_regs_allocated(&mut flags, value);
            b.flags = flags;
        },
    }
}

/// A region that starts behind the start of the string is searched as one whose
/// start begins no line, unless the byte in front of it is a newline and the
/// pattern treats newlines as line ends; then it does begin a line. The flag that
/// asks for a region is not handed on, and every other flag is as the caller gave
/// it. A region at the start of the string keeps all of them.
pub proof fn law_region_begins_a_line_behind_a_newline(
    m: Seq<u8>,
    preg: RegexBufferLayout,
    string: usize,
    nmatch: usize,
    range: RegMatch,
    eflags: i32,
)
    requires
        string != 0,
        compiled_in(preg) is Some,
        eflags & 4 != 0,
        0 <= range.rm_so <= range.rm_eo,
        string + range.rm_eo <= usize::MAX,
    ensures
        exec_plan(m, Some(preg), string, nmatch, Some(range), eflags) matches ExecPlan::Region {
            start,
            end,
            eflags: f,
            groups,
        } && {
            &&& start == string + range.rm_so
            &&& end == string + range.rm_eo
            &&& groups == (nmatch > 0)
            &&& f & 4 == 0
            &&& f | 5 == eflags | 5
            &&& range.rm_so == 0 ==> f & 1 == eflags & 1
            &&& range.rm_so > 0 ==> (f & 1 == 0 <==> m[string + range.rm_so - 1] == 0x0a
                && compiled_in(preg)->Some_0.newline)
        },
{
    assert((eflags & !4) & 4 == 0 && (eflags & !4) | 5 == eflags | 5 && (eflags & !4) & 1 == eflags
        & 1) by (bit_vector);
    assert(((eflags & !4) & !1) & 4 == 0 && ((eflags & !4) & !1) | 5 == eflags | 5 && ((eflags & !4)
        & !1) & 1 == 0) by (bit_vector);
    assert(((eflags & !4) | 1) & 4 == 0 && ((eflags & !4) | 1) | 5 == eflags | 5 && ((eflags & !4)
        | 1) & 1 != 0) by (bit_vector);
}

/// Without a region the text is the whole string and the flags are the caller's:
/// no match is asked for where there is no place for one. A missing pattern or
/// string matches nothing, and a buffer that holds no pattern is a bad pattern.
pub proof fn law_plan_without_a_region(
    m: Seq<u8>,
    preg: Option<RegexBufferLayout>,
    string: usize,
    nmatch: usize,
    first: Option<RegMatch>,
    eflags: i32,
)
    ensures
        preg is None || string == 0 ==> exec_plan(m, preg, string, nmatch, first, eflags)
            == ExecPlan::Return(1),
        preg is Some && string != 0 && compiled_in(preg->Some_0) is None ==> exec_plan(
            m,
            preg,
            string,
            nmatch,
            first,
            eflags,
        ) == ExecPlan::Return(2),
        holds_pattern(preg) && string != 0 && (eflags & 4 == 0 || first is None) ==> exec_plan(
            m,
            preg,
            string,
            nmatch,
            first,
            eflags,
        ) == if nmatch > 0 && first is Some {
            ExecPlan::Groups { start: string, eflags }
        } else {
            ExecPlan::Test { start: string, eflags }
        },
        holds_pattern(preg) && string != 0 && eflags & 4 != 0 && first is Some && (
        first->Some_0.rm_so < 0 || first->Some_0.rm_eo < first->Some_0.rm_so) ==> exec_plan(
            m,
            preg,
            string,
            nmatch,
            first,
            eflags,
        ) == ExecPlan::Return(1),
{
}

/// The places of a match in a region are places of the string: moved by where the
/// region starts, and left alone where a group did not take part.
pub proof fn law_region_places_move_with_the_region(o: i32, off: i32)
    ensures
        o >= 0 ==> rebased(o, off) - o == off,
        o < 0 ==> rebased(o, off) == o,
{
}

/// Only buffers with the mark of this library hold a pattern.
pub proof fn law_pattern_is_held_under_the_mark(c: Compiled, syntax: u64, nosub: bool, h: RegexHandle)
    ensures
        compiled_in(holding(c, syntax, nosub)) == Some(c),
        droppable(holding(c, syntax, nosub)) == Some(c),
        holding(c, syntax, nosub).syntax == syntax,
        (holding(c, syntax, nosub).flags == 0) == !nosub,
        c.num_regs > 0 ==> holding(c, syntax, nosub).re_nsub + 1 == c.num_regs,
        c.num_regs == 0 ==> holding(c, syntax, nosub).re_nsub == 0,
        compiled_in(released()) is None,
        droppable(released()) is None,
        h.magic != FRANKEN_REGEX_MAGIC ==> compiled_in(
            (RegexBufferLayout { buffer: Some(h), ..released() }),
        ) is None,
{
}

/// A syntax compiles as an extended one where it leaves braces, parentheses or
/// bars unescaped, does not escape `+` and `?`, and has all operators; letter case
/// and groups follow their own bits.
pub proof fn law_syntax_bits(syntax: u64)
    ensures
        0 <= syntax_cflags(syntax) < 16,
        syntax_cflags(syntax) % 2 == 1 <==> syntax & 0xb000 != 0 && syntax & 0x2 == 0 && syntax
            & 0x400 == 0,
        (syntax_cflags(syntax) / 2) % 2 == 1 <==> syntax & 0x40_0000 != 0,
        syntax_cflags(syntax) / 8 == 1 <==> syntax & 0x200_0000 != 0,
        (syntax_cflags(syntax) / 4) % 2 == 0,
{
    assert(0x1000u64 | 0x2000 | 0x8000 == 0xb000u64) by (bit_vector);
}

/// The low 32 bits of a number, as a signed one: it is in range and differs by a
/// multiple of 2 to the 32.
pub proof fn law_c_int_is_congruent(x: int)
    ensures
        -0x8000_0000 <= c_int_of(x) < 0x8000_0000,
        (x - c_int_of(x)) % 0x1_0000_0000 == 0,
        -0x8000_0000 <= x < 0x8000_0000 ==> c_int_of(x) == x,
{
}

/// A search starts at `startpos`, a negative one counting as zero, and looks at
/// `range` more places, forwards or backwards, as far as the text reaches; there
/// is none where it would start behind the text. Matches end at `stop` or at the
/// end of the text, whichever comes first.
pub proof fn law_search_covers_the_range(len: int, startpos: i32, range: i32, stop: i32)
    requires
        0 <= len <= usize::MAX,
    ensures
        search_of(len, startpos, range, stop) is None <==> startpos > len,
        search_of(len, startpos, range, stop) matches Some(s) ==> {
            &&& s.pos == startpos || (startpos < 0 && s.pos == 0)
            &&& s.down == (range < 0)
            &&& searching(s)
            &&& 0 <= s.last <= len
            &&& s.last == s.pos + range || (s.last == len && s.pos + range > len) || (s.last == 0
                && s.pos + range < 0)
            &&& 0 <= s.stop <= len
            &&& s.stop == stop || (s.stop == len && stop > len) || (s.stop == 0 && stop < 0)
        },
{
}

/// A match counts only where it ends by `stop`; the place that is found is that
/// of the match, counted from the start of the text. Else the search goes on one
/// place further, in its direction, until it has looked at the last one.
pub proof fn law_search_step(s: Search, so: i32, eo: i32)
    requires
        searching(s),
        0 <= so,
        0 <= eo,
        s.pos + so <= i32::MAX,
    ensures
        s.pos + eo <= s.stop ==> (step_of(s, Some((so, eo))) matches SearchNext::Found { at, base }
            && at == s.pos + so && base == s.pos),
        s.pos + eo > s.stop ==> step_of(s, Some((so, eo))) == step_of(s, None),
        s.pos == s.last <==> step_of(s, None) == SearchNext::Missing,
        step_of(s, None) matches SearchNext::Try(t) ==> {
            &&& t.last == s.last && t.down == s.down && t.stop == s.stop
            &&& t.pos == if s.down {
                s.pos - 1
            } else {
                s.pos + 1
            }
        },
{
    law_c_int_is_congruent(s.pos + so);
    law_c_int_is_congruent(s.pos as int);
}

/// A match at a place has the length that the engine gave where it starts right
/// there and ends by `stop` and inside the text; else there is none.
pub proof fn law_match_length(len: int, pos: int, stop: i32, so: i32, eo: i32)
    requires
        0 <= pos <= len,
        0 <= eo,
        0 <= stop,
    ensures
        match_length(len, pos, stop, None) == -1,
        so == 0 && pos + eo <= len && pos + eo <= stop <==> match_length(
            len,
            pos,
            stop,
            Some((so, eo)),
        ) == eo,
        match_length(len, pos, stop, Some((so, eo))) == eo || match_length(
            len,
            pos,
            stop,
            Some((so, eo)),
        ) == -1,
{
}

/// A register holds a place of the text: that of the group, moved by where the
/// match was looked for; -1 for a group that did not take part, and for registers
/// behind the last group.
pub proof fn law_register_values(o: Seq<i32>, i: int, offset: i32)
    requires
        0 <= i,
        0 <= offset,
    ensures
        i >= o.len() || o[i] < 0 ==> reg_value(o, i, offset) == -1,
        i < o.len() && o[i] >= 0 && offset + o[i] <= i32::MAX ==> reg_value(o, i, offset) == offset
            + o[i],
        reg_value(o, i, offset) <= i32::MAX,
{
}

/// Registers that are missing are made, one for each group and at least two;
/// those that are there keep their number.
pub proof fn law_register_count(r: LegacyReRegisters, n: int)
    requires
        0 <= n,
    ensures
        r.num_regs > 0 && r.start is Some && r.end is Some ==> regs_after(r, n) == r.num_regs,
        r.num_regs == 0 || r.start is None || r.end is None ==> regs_after(r, n) >= 2 && regs_after(
            r,
            n,
        ) >= n && (regs_after(r, n) == 2 || regs_after(r, n) == n),
{
}

/// A text in two parts is the first part and then the second, byte by byte.
pub proof fn law_text_of_two_parts(
    m: Seq<u8>,
    string1: usize,
    size1: i32,
    string2: usize,
    size2: i32,
    i: int,
)
    requires
        0 <= size1,
        0 <= size2,
    ensures
        text_of(m, string1, size1, string2, size2).len() == size1 + size2,
        0 <= i < size1 ==> text_of(m, string1, size1, string2, size2)[i] == m[string1 + i],
        size1 <= i < size1 + size2 ==> text_of(m, string1, size1, string2, size2)[i] == m[string2
            + (i - size1)],
{
}

/// A released buffer holds nothing, in any field; one with a pattern says that its
/// block is in use in full, and has neither a map nor a translation.
pub proof fn law_buffer_fields(c: Compiled, syntax: u64, nosub: bool)
    ensures
        ({
            let r = released();
            &&& r.buffer is None && r.allocated == 0 && r.used == 0 && r.syntax == 0
            &&& r.fastmap == 0 && r.translate == 0 && r.re_nsub == 0 && r.flags == 0
            &&& holding(c, syntax, nosub).allocated > 0
            &&& holding(c, syntax, nosub).used == holding(c, syntax, nosub).allocated
            &&& holding(c, syntax, nosub).fastmap == 0
            &&& holding(c, syntax, nosub).translate == 0
        }),
{
}

/// The text of a region is the bytes from its start to its end; else it is the
/// string, with its NUL.
pub proof fn law_planned_text_bytes(
    m: Seq<u8>,
    start: usize,
    end: usize,
    eflags: i32,
    groups: bool,
    i: int,
)
    requires
        start <= end,
    ensures
        ({
            let t = planned_text(m, ExecPlan::Region { start, end, eflags, groups });
            t.len() == end - start && (0 <= i < t.len() ==> t[i] == m[start + i])
        }),
        planned_text(m, ExecPlan::Test { start, eflags }).last() == 0,
        planned_text(m, ExecPlan::Test { start, eflags }).drop_last() == c_bytes(
            m,
            start as int,
            None,
        ),
        planned_text(m, ExecPlan::Groups { start, eflags }) == planned_text(
            m,
            ExecPlan::Test { start, eflags },
        ),
{
    let b = c_bytes(m, start as int, None);
    assert(b.push(0).drop_last() =~= b);
}

/// A text in two parts is refused where a size is negative, or where a part that
/// is not empty is missing; an empty part may be.
pub proof fn law_parts_that_are_refused(string1: usize, size1: i32, string2: usize, size2: i32)
    ensures
        size1 < 0 || size2 < 0 ==> !parts_ok(string1, size1, string2, size2),
        size1 > 0 && string1 == 0 ==> !parts_ok(string1, size1, string2, size2),
        size2 > 0 && string2 == 0 ==> !parts_ok(string1, size1, string2, size2),
        parts_ok(0, 0, 0, 0),
        size1 >= 0 && size2 >= 0 && string1 != 0 && string2 != 0 ==> parts_ok(
            string1,
            size1,
            string2,
            size2,
        ),
        size2 >= 0 && string2 != 0 ==> parts_ok(0, 0, string2, size2),
        size1 >= 0 && string1 != 0 ==> parts_ok(string1, size1, 0, 0),
{
}

/// Registers that are there are written whatever the allocator says; missing ones
/// stay as they are where it refuses. A written register holds the place of its
/// group, and those behind the last group hold -1.
pub proof fn law_registers_are_written(
    b: LegacyReRegisters,
    ms: Seq<RegMatch>,
    offset: i32,
    granted: bool,
    after: Option<LegacyReRegisters>,
    i: int,
)
    requires
        regs_written(Some(b), ms, offset, granted, after),
        0 <= offset,
    ensures
        after is Some,
        !granted && (b.num_regs == 0 || b.start is None || b.end is None) ==> after == Some(b),
        granted || (b.num_regs > 0 && b.start is Some && b.end is Some) ==> {
            let r = after->Some_0;
            &&& r.start is Some && r.end is Some
            &&& r.start->Some_0@.len() == r.num_regs && r.end->Some_0@.len() == r.num_regs
            &&& 0 <= i < ms.len() && i < r.num_regs && 0 <= ms[i].rm_so && 0 <= ms[i].rm_eo
                && offset + ms[i].rm_so <= i32::MAX && offset + ms[i].rm_eo <= i32::MAX ==> {
                &&& r.start->Some_0@[i] == offset + ms[i].rm_so
                &&& r.end->Some_0@[i] == offset + ms[i].rm_eo
            }
            &&& ms.len() <= i < r.num_regs ==> r.start->Some_0@[i] == -1 && r.end->Some_0@[i] == -1
        },
{
    if granted || (b.num_regs > 0 && b.start is Some && b.end is Some) {
        let r = after->Some_0;
        if 0 <= i < r.num_regs {
            assert(r.start->Some_0@[i] == reg_value(starts(ms), i, offset));
            assert(r.end->Some_0@[i] == reg_value(ends(ms), i, offset));
        }
    }
}

} // verus!
