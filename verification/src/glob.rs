//! What surrounds a path-expansion engine: the pattern it gets, the names it is
//! shown and the list of paths that the caller gets.
use vstd::prelude::*;
use crate::errors::{ENOENT, ENOSYS};
use crate::memory::{mapped, put, Memory, Ptr};
use crate::scan::{
    c_bytes,
    c_ended,
    find,
    is_nul,
    lemma_find,
    read_c_string_bytes_with_nul,
    readable,
};
use crate::text::{push_bytes, store_text};

verus! {

pub const GLOB_DOOFFS: i32 = 0x8;

pub const GLOB_APPEND: i32 = 0x20;

pub const GLOB_ALTDIRFUNC: i32 = 0x200;

pub const GLOB_TILDE: i32 = 0x1000;

pub const GLOB_TILDE_CHECK: i32 = 0x4000;

pub const GLOB_NOSPACE: i32 = 1;

pub const GLOB_NOMATCH: i32 = 3;

/// The type bits of a file mode.
pub const S_IFMT: u32 = 0xf000;

/// The type of a directory.
pub const S_IFDIR: u32 = 0x4000;

/// The longest name that is read from a directory entry.
pub const DIR_NAME_MAX: usize = 4097;

/// A pattern starts with a tilde that stands for the caller's own home directory,
/// and the flags ask to expand it.
pub open spec fn asks_for_home(pattern: Seq<u8>, flags: i32) -> bool {
    &&& flags & (GLOB_TILDE | GLOB_TILDE_CHECK) != 0
    &&& pattern.len() > 1
    &&& pattern[0] == 0x7e
    &&& pattern[1] == 0x2f || pattern[1] == 0
}

/// The pattern, which ends in a NUL, with its tilde replaced by the home
/// directory of the password database: where the flags ask for it, the
/// environment names no home, and the database names one that is not empty.
pub fn glob_home_fallback_pattern(
    pattern: &[u8],
    flags: i32,
    home_in_environment: bool,
    passwd_home: Option<&[u8]>,
) -> (r: Option<Vec<u8>>)
    ensures
        r is Some == (asks_for_home(pattern@, flags) && !home_in_environment && passwd_home is Some
            && passwd_home->Some_0@.len() > 0),
        r matches Some(p) ==> p@ == passwd_home->Some_0@ + pattern@.skip(1),
{
    if flags & (GLOB_TILDE | GLOB_TILDE_CHECK) == 0 || pattern.len() < 2 || pattern[0] != 0x7e || (
    pattern[1] != 0x2f && pattern[1] != 0) || home_in_environment {
        return None;
    }
    match passwd_home {
        None => None,
        Some(home) => {
            if home.len() == 0 {
                return None;
            }
            let mut expanded: Vec<u8> = Vec::new();
            push_bytes(&mut expanded, home);
            let mut i: usize = 1;
            while i < pattern.len()
                invariant
                    1 <= i <= pattern@.len(),
                    expanded@ == home@ + pattern@.subrange(1, i as int),
                decreases pattern@.len() - i,
            {
                expanded.push(pattern[i]);
                i += 1;
                assert(expanded@ =~= home@ + pattern@.subrange(1, i as int));
            }
            assert(expanded@ =~= home@ + pattern@.skip(1));
            Some(expanded)
        },
    }
}

/// The pattern that `glob` hands to the engine: the string at `pattern` with its
/// NUL, and the home directory in place of its tilde where
/// [`glob_home_fallback_pattern`] puts it there. [`GLOB_NOMATCH`] without a
/// pattern that ends, or without a list for the paths.
pub fn glob(
    mem: &Memory,
    pattern: Ptr,
    flags: i32,
    list: bool,
    home_in_environment: bool,
    passwd_home: Option<&[u8]>,
) -> (r: Result<Vec<u8>, i32>)
    requires
        !pattern.null() ==> readable(mem@, pattern.at(), pattern.remaining),
    ensures
        ({
            let text = c_bytes(mem@, pattern.at(), pattern.remaining).push(0);
            match r {
                Err(code) => code == GLOB_NOMATCH && (!list || pattern.null() || !c_ended(
                    mem@,
                    pattern.at(),
                    pattern.remaining,
                )),
                Ok(p) => list && !pattern.null() && c_ended(
                    mem@,
                    pattern.at(),
                    pattern.remaining,
                ) && p@ == if asks_for_home(text, flags) && !home_in_environment
                    && passwd_home is Some && passwd_home->Some_0@.len() > 0 {
                    passwd_home->Some_0@ + text.skip(1)
                } else {
                    text
                },
            }
        }),
{
    if !list {
        return Err(GLOB_NOMATCH);
    }
    match read_c_string_bytes_with_nul(mem, pattern) {
        None => Err(GLOB_NOMATCH),
        Some(text) => match glob_home_fallback_pattern(
            text.as_slice(),
            flags,
            home_in_environment,
            passwd_home,
        ) {
            Some(p) => Ok(p),
            None => Ok(text),
        },
    }
}

/// Whether a path holds a NUL, so that no C string can stand for it.
fn holds_nul(path: &[u8]) -> (r: bool)
    ensures
        r == path@.contains(0),
{
    let mut i: usize = 0;
    while i < path.len()
        invariant
            i <= path@.len(),
            forall|j: int| 0 <= j < i ==> #[trigger] path@[j] != 0,
        decreases path@.len() - i,
    {
        if path[i] == 0 {
            assert(path@.contains(path@[i as int]));
            return true;
        }
        i += 1;
    }
    false
}

/// Whether the caller's own callbacks read directories.
pub fn uses_callbacks(flags: i32) -> (r: bool)
    ensures
        r == (flags & GLOB_ALTDIRFUNC != 0),
{
    flags & GLOB_ALTDIRFUNC != 0
}

/// The directory that the caller's callbacks open for a path: the current one for
/// an empty path. [`ENOENT`] for a path that holds a NUL, [`ENOSYS`] where a
/// callback that opens or reads is missing.
pub fn directory_to_open(dir_path: &[u8], callbacks: bool) -> (r: Result<Vec<u8>, i32>)
    ensures
        match r {
            Ok(d) => callbacks && !dir_path@.contains(0) && d@ == if dir_path@.len() == 0 {
                seq![0x2eu8]
            } else {
                dir_path@
            },
            Err(code) => if dir_path@.contains(0) {
                code == ENOENT
            } else {
                !callbacks && code == ENOSYS
            },
        },
{
    if holds_nul(dir_path) {
        return Err(ENOENT);
    }
    if !callbacks {
        return Err(ENOSYS);
    }
    let mut out: Vec<u8> = Vec::new();
    if dir_path.len() == 0 {
        out.push(0x2e);
    } else {
        push_bytes(&mut out, dir_path);
    }
    assert(dir_path@.len() > 0 ==> out@ =~= dir_path@);
    assert(dir_path@.len() == 0 ==> out@ =~= seq![0x2eu8]);
    Ok(out)
}

/// The name in a directory entry: its bytes up to the NUL, and no more than the
/// longest name.
pub open spec fn entry_name(raw: Seq<u8>) -> Seq<u8> {
    let n = find(raw, 0, raw.len() as int, is_nul());
    raw.take(
        if n < DIR_NAME_MAX {
            n
        } else {
            DIR_NAME_MAX as int
        },
    )
}

/// The name in a directory entry, unless it is the directory itself or its
/// parent, which the engine adds on its own.
pub fn listed_name(raw: &[u8]) -> (r: Option<Vec<u8>>)
    ensures
        ({
            let n = entry_name(raw@);
            match r {
                Some(v) => v@ == n && n != seq![0x2eu8] && n != seq![0x2eu8, 0x2e],
                None => n == seq![0x2eu8] || n == seq![0x2eu8, 0x2e],
            }
        }),
{
    let mut name: Vec<u8> = Vec::new();
    let mut i: usize = 0;
    while i < raw.len() && i < DIR_NAME_MAX && raw[i] != 0
        invariant
            i <= raw@.len(),
            i <= DIR_NAME_MAX,
            name@ == raw@.take(i as int),
            forall|j: int| 0 <= j < i ==> #[trigger] raw@[j] != 0,
        decreases raw@.len() - i,
    {
        name.push(raw[i]);
        i += 1;
        assert(name@ =~= raw@.take(i as int));
    }
    proof {
        let p = is_nul();
        let n = find(raw@, 0, raw@.len() as int, p);
        lemma_find(raw@, 0, raw@.len() as int, p);
        if n < i {
            assert(raw@[0 + n] != 0);
        }
        if i < raw@.len() && i < DIR_NAME_MAX {
            assert(n <= i) by {
                if n > i {
                    assert(!p(raw@[i as int]));
                }
            }
        }
        assert(name@ =~= entry_name(raw@));
    }
    let dot: bool = name.len() == 1 && name[0] == 0x2e;
    let dots: bool = name.len() == 2 && name[0] == 0x2e && name[1] == 0x2e;
    proof {
        if dot {
            assert(name@ =~= seq![0x2eu8]);
        }
        if dots {
            assert(name@ =~= seq![0x2eu8, 0x2e]);
        }
        assert(seq![0x2eu8][0] == 0x2e);
        assert(seq![0x2eu8, 0x2e][0] == 0x2e && seq![0x2eu8, 0x2e][1] == 0x2e);
    }
    if dot || dots {
        None
    } else {
        Some(name)
    }
}

/// The error of a directory that could not be opened: the system's, or
/// [`ENOENT`] where it gave none.
pub fn open_error(system: i32) -> (r: i32)
    ensures
        r == if system != 0 {
            system
        } else {
            ENOENT
        },
{
    if system != 0 {
        system
    } else {
        ENOENT
    }
}

/// Whether a path is a directory: `status` is the outcome of the caller's status
/// callback and the mode that it gave, if there is one. `None` where it failed or
/// could not be asked, which it is not about a path that holds a NUL.
pub fn stat_is_dir(path: &[u8], status: Option<(i32, u32)>) -> (r: Option<bool>)
    ensures
        r == match status {
            Some((outcome, mode)) => if path@.contains(0) || outcome != 0 {
                None
            } else {
                Some(mode & S_IFMT == S_IFDIR)
            },
            None => None,
        },
{
    if holds_nul(path) {
        return None;
    }
    match status {
        Some((outcome, mode)) => if outcome != 0 {
            None
        } else {
            Some(mode & S_IFMT == S_IFDIR)
        },
        None => None,
    }
}

/// Whether an error ends the expansion: never without a handler, always where
/// its path cannot be shown to one, else as the handler answers.
pub fn error_aborts(handler: bool, path: &[u8], answer: i32) -> (r: bool)
    ensures
        r == (handler && (path@.contains(0) || answer != 0)),
{
    handler && (holds_nul(path) || answer != 0)
}

/// Copies a path, with a NUL behind it, into a new block of its own.
pub fn glob_path(mem: &mut Memory, addr: usize, path: &[u8])
    requires
        mapped(old(mem)@, addr as int, path@.len() as int + 1),
    ensures
        final(mem)@ == put(old(mem)@, addr as int, path@.push(0)),
{
    let size: usize = mem.size();
    store_text(mem, addr, path.len() + 1, path);
}

/// The caller's list of paths: how many there are, the slots, and how many slots
/// to keep free in front. A slot holds the address of a string, or null.
pub struct GlobT {
    pub gl_pathc: usize,
    pub gl_pathv: Option<Vec<usize>>,
    pub gl_offs: usize,
}

/// How many slots the flags of an expansion ask to keep free in front.
pub open spec fn glob_offs(g: GlobT, flags: i32) -> usize {
    if flags & GLOB_DOOFFS != 0 {
        g.gl_offs
    } else {
        0
    }
}

/// The paths in `count` slots behind the first `offs`: those that are not null.
pub open spec fn paths_in(slots: Seq<usize>, offs: int, count: int) -> Seq<usize> {
    slots.subrange(offs, offs + count).filter(|p: usize| p != 0)
}

/// The paths that an expansion keeps from an earlier one: those in `gl_pathc`
/// slots behind the free ones.
pub open spec fn kept_paths(g: GlobT, flags: i32) -> Seq<usize> {
    if flags & GLOB_APPEND != 0 && g.gl_pathv is Some {
        paths_in(g.gl_pathv->Some_0@, glob_offs(g, flags) as int, g.gl_pathc as int)
    } else {
        seq![]
    }
}

/// The slots of a list: `offs` null slots, the kept paths, null slots up to
/// `count` of them, the new paths, and a null slot at the end.
pub open spec fn path_slots(
    kept: Seq<usize>,
    count: int,
    new: Seq<usize>,
    offs: int,
) -> Seq<usize> {
    Seq::new((offs + count + new.len() + 1) as nat, |i: int|
        if i < offs {
            0usize
        } else if i < offs + count {
            if i - offs < kept.len() {
                kept[i - offs]
            } else {
                0usize
            }
        } else if i < offs + count + new.len() {
            new[i - offs - count]
        } else {
            0usize
        })
}

/// The strings that the allocator gave for new paths, up to the first refusal.
pub open spec fn first_refusal(strings: Seq<usize>) -> int
    decreases strings.len(),
{
    if strings.len() == 0 || strings[0] == 0 {
        0
    } else {
        1 + first_refusal(strings.drop_first())
    }
}

/// The paths in `count` slots behind the first `offs`.
fn list_paths(slots: &Vec<usize>, offs: usize, count: usize) -> (r: Vec<usize>)
    requires
        offs + count <= slots@.len(),
    ensures
        r@ == paths_in(slots@, offs as int, count as int),
        r@.len() <= count,
{
    let ghost p = |p: usize| p != 0;
    let len: usize = slots.len();
    let mut out: Vec<usize> = Vec::new();
    let mut i: usize = 0;
    assert(slots@.subrange(offs as int, offs as int).filter(p) =~= Seq::<usize>::empty()) by {
        reveal(Seq::filter);
    }
    while i < count
        invariant
            i <= count,
            len == slots@.len(),
            offs + count <= len,
            p == (|p: usize| p != 0),
            out@ == slots@.subrange(offs as int, offs + i).filter(p),
            out@.len() <= i,
        decreases count - i,
    {
        proof {
            reveal(Seq::filter);
            assert(slots@.subrange(offs as int, offs + i + 1).drop_last() =~= slots@.subrange(
                offs as int,
                offs + i,
            ));
            assert(slots@.subrange(offs as int, offs + i + 1).last() == slots@[offs + i]);
        }
        let path: usize = slots[offs + i];
        if path != 0 {
            out.push(path);
        }
        i += 1;
    }
    out
}

fn build_slots(kept: &Vec<usize>, count: usize, new: &[usize], offs: usize) -> (r: Vec<usize>)
    requires
        kept@.len() <= count,
        offs + count + new@.len() + 1 <= usize::MAX,
    ensures
        r@ == path_slots(kept@, count as int, new@, offs as int),
{
    let total: usize = offs + count + new.len() + 1;
    let mut out: Vec<usize> = Vec::new();
    let mut i: usize = 0;
    while i < total
        invariant
            i <= total,
            total == offs + count + new@.len() + 1,
            total <= usize::MAX,
            out@.len() == i,
            forall|k: int|
                0 <= k < i ==> #[trigger] out@[k] == path_slots(
                    kept@,
                    count as int,
                    new@,
                    offs as int,
                )[k],
        decreases total - i,
    {
        let v: usize = if i < offs {
            0
        } else if i < offs + count {
            if i - offs < kept.len() {
                kept[i - offs]
            } else {
                0
            }
        } else if i < offs + count + new.len() {
            new[i - offs - count]
        } else {
            0
        };
        out.push(v);
        i += 1;
    }
    assert(out@ =~= path_slots(kept@, count as int, new@, offs as int));
    out
}

/// The list can be extended under the flags: behind the free slots it has as many
/// as it counts paths.
pub open spec fn glob_ready(g: GlobT, flags: i32, new: int) -> bool {
    let count = if flags & GLOB_APPEND != 0 {
        g.gl_pathc as int
    } else {
        0
    };
    &&& flags & GLOB_APPEND != 0 && g.gl_pathv is Some ==> glob_offs(g, flags) + g.gl_pathc
        <= g.gl_pathv->Some_0@.len()
    &&& glob_offs(g, flags) + count + new + 1 <= usize::MAX
}

/// Takes the outcome of an expansion into the caller's list.
///
/// `answer` is the engine's: the number of paths found, or its error. `slots` is
/// the allocator's answer to the request for the list itself, and `strings` the
/// addresses of the copied paths, null from the first refusal on. Returns what the
/// call returns, and the blocks to free: those of a failed attempt, and the list
/// that was replaced is dropped.
pub fn glob_store(
    g: &mut GlobT,
    flags: i32,
    answer: Result<usize, i32>,
    slots: bool,
    strings: &[usize],
) -> (r: (i32, Vec<usize>))
    requires
        answer matches Ok(n) ==> strings@.len() == n && glob_ready(*old(g), flags, n as int),
    ensures
        ({
            let append = flags & GLOB_APPEND != 0;
            let count = if append {
                old(g).gl_pathc as int
            } else {
                0
            };
            match answer {
                Err(code) => r.0 == code && r.1@.len() == 0 && *final(g) == *old(g),
                Ok(n) => if !slots {
                    r.0 == GLOB_NOSPACE && r.1@.len() == 0 && *final(g) == *old(g)
                } else if first_refusal(strings@) < n {
                    r.0 == GLOB_NOSPACE && r.1@ == strings@.take(first_refusal(strings@))
                        && *final(g) == *old(g)
                } else {
                    &&& r.0 == 0
                    &&& r.1@.len() == 0
                    &&& final(g).gl_pathc == count + n
                    &&& final(g).gl_offs == old(g).gl_offs
                    &&& final(g).gl_pathv is Some
                    &&& final(g).gl_pathv->Some_0@ == path_slots(
                        kept_paths(*old(g), flags),
                        count,
                        strings@,
                        glob_offs(*old(g), flags) as int,
                    )
                },
            }
        }),
{
    let n: usize = match answer {
        Err(code) => {
            return (code, Vec::new());
        },
        Ok(n) => n,
    };
    if !slots {
        return (GLOB_NOSPACE, Vec::new());
    }
    let append: bool = flags & GLOB_APPEND != 0;
    let count: usize = if append {
        g.gl_pathc
    } else {
        0
    };
    let offs: usize = if flags & GLOB_DOOFFS != 0 {
        g.gl_offs
    } else {
        0
    };
    let kept: Vec<usize> = if append {
        match &g.gl_pathv {
            Some(v) => list_paths(v, offs, g.gl_pathc),
            None => Vec::new(),
        }
    } else {
        Vec::new()
    };
    assert(kept@ =~= kept_paths(*g, flags));
    let mut i: usize = 0;
    proof {
        assert(strings@.skip(0) =~= strings@);
    }
    while i < n && strings[i] != 0
        invariant
            i <= n,
            n == strings@.len(),
            first_refusal(strings@) == i + first_refusal(strings@.skip(i as int)),
        decreases n - i,
    {
        assert(strings@.skip(i as int).drop_first() =~= strings@.skip(i + 1));
        i += 1;
    }
    assert(first_refusal(strings@.skip(i as int)) == 0);
    if i < n {
        let mut frees: Vec<usize> = Vec::new();
        let mut j: usize = 0;
        while j < i
            invariant
                j <= i,
                i <= strings@.len(),
                frees@ == strings@.take(j as int),
            decreases i - j,
        {
            frees.push(strings[j]);
            j += 1;
            assert(frees@ =~= strings@.take(j as int));
        }
        return (GLOB_NOSPACE, frees);
    }
    let list: Vec<usize> = build_slots(&kept, count, strings, offs);
    g.gl_pathc = count + n;
    g.gl_pathv = Some(list);
    (0, Vec::new())
}

/// Empties the caller's list and returns the strings to free: those in the slots
/// behind the free ones, without the null ones.
pub fn globfree(g: &mut GlobT) -> (r: Vec<usize>)
    requires
        old(g).gl_pathv is Some ==> old(g).gl_offs + old(g).gl_pathc
            <= old(g).gl_pathv->Some_0@.len(),
    ensures
        match old(g).gl_pathv {
            None => r@.len() == 0 && *final(g) == *old(g),
            Some(v) => r@ == paths_in(v@, old(g).gl_offs as int, old(g).gl_pathc as int)
                && final(g).gl_pathc == 0 && final(g).gl_pathv is None
                && final(g).gl_offs == old(g).gl_offs,
        },
{
    let frees: Vec<usize> = match &g.gl_pathv {
        None => {
            return Vec::new();
        },
        Some(v) => list_paths(v, g.gl_offs, g.gl_pathc),
    };
    g.gl_pathc = 0;
    g.gl_pathv = None;
    frees
}

/// A list that was filled ends in a null slot, and holds each new path behind the
/// kept ones.
pub proof fn law_list_ends_in_null(kept: Seq<usize>, count: int, new: Seq<usize>, offs: int)
    requires
        0 <= offs,
        kept.len() <= count,
    ensures
        path_slots(kept, count, new, offs).last() == 0,
        forall|i: int|
            0 <= i < new.len() ==> path_slots(kept, count, new, offs)[offs + count + i]
                == #[trigger] new[i],
        forall|i: int|
            0 <= i < kept.len() ==> path_slots(kept, count, new, offs)[offs + i]
                == #[trigger] kept[i],
{
}

/// No path is filtered out of paths that are not null.
proof fn lemma_no_null(s: Seq<usize>)
    requires
        forall|i: int| 0 <= i < s.len() ==> #[trigger] s[i] != 0,
    ensures
        s.filter(|p: usize| p != 0) == s,
    decreases s.len(),
{
    reveal(Seq::filter);
    if s.len() > 0 {
        lemma_no_null(s.drop_last());
        assert(s.drop_last().push(s.last()) =~= s);
    }
}

/// Null slots hold no path.
proof fn lemma_all_null(s: Seq<usize>)
    requires
        forall|i: int| 0 <= i < s.len() ==> #[trigger] s[i] == 0,
    ensures
        s.filter(|p: usize| p != 0) == Seq::<usize>::empty(),
    decreases s.len(),
{
    reveal(Seq::filter);
    if s.len() > 0 {
        lemma_all_null(s.drop_last());
    }
}

/// What a later expansion keeps, and what is freed at the end, are all paths of a
/// list, in order: those that were kept, and the new ones.
pub proof fn law_no_path_is_lost(kept: Seq<usize>, count: int, new: Seq<usize>, offs: int)
    requires
        0 <= offs,
        kept.len() <= count,
        forall|i: int| 0 <= i < kept.len() ==> #[trigger] kept[i] != 0,
        forall|i: int| 0 <= i < new.len() ==> #[trigger] new[i] != 0,
    ensures
        paths_in(path_slots(kept, count, new, offs), offs, count + new.len()) == kept + new,
{
    let p = |p: usize| p != 0;
    let s = path_slots(kept, count, new, offs).subrange(offs, offs + count + new.len());
    let gap = Seq::new((count - kept.len()) as nat, |i: int| 0usize);
    assert(s =~= kept + gap + new);
    Seq::filter_distributes_over_add(kept + gap, new, p);
    Seq::filter_distributes_over_add(kept, gap, p);
    lemma_no_null(kept);
    lemma_all_null(gap);
    lemma_no_null(new);
    assert(kept + Seq::<usize>::empty() + new =~= kept + new);
}

/// A pattern asks for the home directory where a flag allows a tilde and the
/// pattern starts with one in front of a slash or a NUL.
pub proof fn law_tilde_needs_a_flag(pattern: Seq<u8>, flags: i32)
    ensures
        asks_for_home(pattern, flags) <==> (flags & 0x5000 != 0 && pattern.len() >= 2 && pattern[0]
            == 0x7e && (pattern[1] == 0x2f || pattern[1] == 0)),
{
    assert(0x1000i32 | 0x4000 == 0x5000i32) by (bit_vector);
}

/// The name of a directory entry ends at its first NUL, at most 4097 bytes on.
pub proof fn law_entry_name_ends_at_the_nul(raw: Seq<u8>)
    ensures
        entry_name(raw).is_prefix_of(raw),
        !entry_name(raw).contains(0),
        entry_name(raw).len() <= 4097,
        entry_name(raw).len() == 4097 || entry_name(raw).len() == raw.len() || raw[
            entry_name(raw).len() as int
        ] == 0,
{
    lemma_find(raw, 0, raw.len() as int, is_nul());
    let n = find(raw, 0, raw.len() as int, is_nul());
    let e = entry_name(raw);
    if e.contains(0) {
        let k = choose|k: int| 0 <= k < e.len() && e[k] == 0;
        assert(!is_nul()(raw[k]));
    }
    assert(e =~= raw.subrange(0, e.len() as int));
}

/// Slots are reserved in front of the paths only where the flag asks for them, and
/// earlier paths are kept only where the flag asks to append.
pub proof fn law_glob_flags(g: GlobT, flags: i32)
    ensures
        flags & 8 == 0 ==> glob_offs(g, flags) == 0,
        flags & 8 != 0 ==> glob_offs(g, flags) == g.gl_offs,
        flags & 0x20 == 0 || g.gl_pathv is None ==> kept_paths(g, flags) == Seq::<usize>::empty(),
{
}

/// The slots in front are null, and so are those of paths that are gone.
pub proof fn law_reserved_slots_are_null(
    kept: Seq<usize>,
    count: int,
    new: Seq<usize>,
    offs: int,
    i: int,
)
    requires
        0 <= offs,
        kept.len() <= count,
    ensures
        path_slots(kept, count, new, offs).len() == offs + count + new.len() + 1,
        0 <= i < offs ==> path_slots(kept, count, new, offs)[i] == 0,
        offs + kept.len() <= i < offs + count ==> path_slots(kept, count, new, offs)[i] == 0,
{
}

/// The strings before the first refusal are there, and the one at it is not.
pub proof fn law_first_refusal_is_the_first_null(strings: Seq<usize>)
    ensures
        0 <= first_refusal(strings) <= strings.len(),
        forall|i: int| 0 <= i < first_refusal(strings) ==> #[trigger] strings[i] != 0,
        first_refusal(strings) < strings.len() ==> strings[first_refusal(strings)] == 0,
    decreases strings.len(),
{
    if strings.len() > 0 && strings[0] != 0 {
        let rest = strings.drop_first();
        law_first_refusal_is_the_first_null(rest);
        assert forall|i: int| 0 <= i < first_refusal(strings) implies #[trigger] strings[i] != 0 by {
            if i > 0 {
                assert(strings[i] == rest[i - 1]);
            }
        }
    }
}

} // verus!
